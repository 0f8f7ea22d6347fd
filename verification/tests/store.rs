use keyvalue::in_memory::InMemoryDB;
use keyvalue::{KeyValueDB, KvError, StoreActor, StoreCommand, StoreResponse, VersionedKeyValueDB, VersionedObject};

#[test]
fn is_dyn() {
    let _: Option<Box<dyn KeyValueDB>> = None;
}

#[test]
fn kvdb_is_dyn() {
    let _: Option<Box<dyn VersionedKeyValueDB>> = None;
}

fn exercise_base_store<D: KeyValueDB>(db: &mut D) {
    let (table1, key, value) = ("table1", "key", b"value".as_slice());

    assert!(KeyValueDB::get(db, table1, key).unwrap().is_none());
    assert!(KeyValueDB::iter_from_prefix(db, table1, key).unwrap().is_empty());
    assert!(KeyValueDB::iter(db, table1).unwrap().is_empty());
    assert!(KeyValueDB::remove(db, table1, key).unwrap().is_none());
    assert!(!KeyValueDB::contains_key(db, table1, key).unwrap());
    assert!(KeyValueDB::table_names(db).unwrap().is_empty());
    assert!(KeyValueDB::keys(db, table1).unwrap().is_empty());
    assert!(KeyValueDB::values(db, table1).unwrap().is_empty());
    assert!(KeyValueDB::delete_table(db, table1).is_ok());
    assert!(KeyValueDB::clear(db).is_ok());

    assert!(KeyValueDB::insert(db, table1, key, value).unwrap().is_none());
    assert_eq!(KeyValueDB::get(db, table1, key).unwrap(), Some(value.to_vec()));

    assert_eq!(
        KeyValueDB::insert(db, table1, key, value).unwrap(),
        Some(value.to_vec())
    );
    assert_eq!(KeyValueDB::get(db, table1, key).unwrap(), Some(value.to_vec()));

    assert!(KeyValueDB::insert(db, table1, key, &[]).unwrap().is_some());
    assert_eq!(KeyValueDB::get(db, table1, key).unwrap(), Some(vec![]));

    assert!(KeyValueDB::remove(db, table1, key).unwrap().is_some());
    assert!(KeyValueDB::get(db, table1, key).unwrap().is_none());

    let prefix = "prefix";
    let (key1, value1) = ("prefix1", b"value1".as_slice());
    let (key2, value2) = ("prefix2", b"value2".as_slice());

    assert_eq!(KeyValueDB::get(db, table1, key1).unwrap(), None);
    assert_eq!(KeyValueDB::get(db, table1, key2).unwrap(), None);

    assert!(KeyValueDB::insert(db, table1, key1, value1).unwrap().is_none());
    assert!(KeyValueDB::insert(db, table1, key2, value2).unwrap().is_none());

    let iter = KeyValueDB::iter_from_prefix(db, table1, prefix).unwrap();
    assert!(iter.len() == 2);
    assert!(iter.contains(&(key1.to_string(), value1.to_vec())));
    assert!(iter.contains(&(key2.to_string(), value2.to_vec())));

    let iter = KeyValueDB::iter(db, table1).unwrap();
    assert!(iter.len() == 2);
    assert!(iter.contains(&(key1.to_string(), value1.to_vec())));
    assert!(iter.contains(&(key2.to_string(), value2.to_vec())));

    let keys = KeyValueDB::keys(db, table1).unwrap();
    assert!(keys.len() == 2);
    assert!(keys.contains(&key1.to_string()));
    assert!(keys.contains(&key2.to_string()));

    let values = KeyValueDB::values(db, table1).unwrap();
    assert!(values.len() == 2);
    assert!(values.contains(&value1.to_vec()));
    assert!(values.contains(&value2.to_vec()));

    assert!(KeyValueDB::contains_key(db, table1, key1).unwrap());
    assert!(KeyValueDB::contains_key(db, table1, key2).unwrap());
    assert!(!KeyValueDB::contains_key(db, table1, "non-existent").unwrap());
    assert_eq!(KeyValueDB::table_names(db).unwrap(), vec![table1.to_string()]);

    let (table2, key, value) = ("table2", "key", b"value".as_slice());

    assert!(KeyValueDB::insert(db, table2, key, value).unwrap().is_none());
    assert_eq!(KeyValueDB::get(db, table2, key).unwrap(), Some(value.to_vec()));
    assert_eq!(
        KeyValueDB::insert(db, table2, key, value).unwrap(),
        Some(value.to_vec())
    );

    assert!(KeyValueDB::delete_table(db, table1).is_ok());
    assert!(KeyValueDB::get(db, table1, key1).unwrap().is_none());
    assert!(KeyValueDB::get(db, table1, key2).unwrap().is_none());
    assert!(KeyValueDB::iter_from_prefix(db, table1, prefix).unwrap().is_empty());
    assert!(KeyValueDB::iter(db, table1).unwrap().is_empty());
    assert!(KeyValueDB::keys(db, table1).unwrap().is_empty());
    assert!(KeyValueDB::values(db, table1).unwrap().is_empty());
    assert!(!KeyValueDB::contains_key(db, table1, key1).unwrap());
    assert!(!KeyValueDB::contains_key(db, table1, key2).unwrap());
    assert_eq!(KeyValueDB::get(db, table2, key).unwrap(), Some(value.to_vec()));
    assert_eq!(KeyValueDB::table_names(db).unwrap(), vec![table2.to_string()]);

    assert!(KeyValueDB::clear(db).is_ok());
    assert!(KeyValueDB::get(db, table2, key).unwrap().is_none());
    assert!(KeyValueDB::iter(db, table2).unwrap().is_empty());
    assert!(KeyValueDB::table_names(db).unwrap().is_empty());
}

#[test]
fn test_in_memory() {
    let mut db = InMemoryDB::new();
    exercise_base_store(&mut db);
    let db = InMemoryDB::new();
    assert!(KeyValueDB::table_names(&db).unwrap().is_empty());
}

#[test]
fn test_overlay() {
    let mut db = keyvalue::OverlayDB::new();
    exercise_base_store(&mut db);
}

#[test]
fn overlay_rejects_reserved_names() {
    let mut db = keyvalue::OverlayDB::new();
    assert_eq!(
        KeyValueDB::insert(&mut db, "meta_deleted", "t", b"x").unwrap_err(),
        KvError::InvalidInput
    );
    assert_eq!(
        KeyValueDB::insert(&mut db, "meta_versions", "t", b"x").unwrap_err(),
        KvError::InvalidInput
    );
    assert_eq!(
        KeyValueDB::delete_table(&mut db, "meta_deleted").unwrap_err(),
        KvError::InvalidInput
    );
    assert!(KeyValueDB::get(&db, "meta_deleted", "t").unwrap().is_none());
    assert!(KeyValueDB::remove(&mut db, "meta_versions", "t").unwrap().is_none());
    assert!(!KeyValueDB::table_names(&db)
        .unwrap()
        .contains(&"meta_deleted".to_string()));
}

#[test]
fn soft_delete_resurrection() {
    let mut db = keyvalue::OverlayDB::new();
    KeyValueDB::insert(&mut db, "t1", "k", b"v").unwrap();
    KeyValueDB::insert(&mut db, "t1", "k2", b"old").unwrap();

    KeyValueDB::delete_table(&mut db, "t1").unwrap();
    assert!(KeyValueDB::get(&db, "t1", "k").unwrap().is_none());
    assert!(!KeyValueDB::table_names(&db).unwrap().contains(&"t1".to_string()));

    // writing to the deleted table resurrects it with only the new entry
    KeyValueDB::insert(&mut db, "t1", "k2", b"v2").unwrap();
    assert!(KeyValueDB::table_names(&db).unwrap().contains(&"t1".to_string()));
    let pairs = KeyValueDB::iter(&db, "t1").unwrap();
    assert_eq!(pairs, vec![("k2".to_string(), b"v2".to_vec())]);
    assert!(KeyValueDB::get(&db, "t1", "k").unwrap().is_none());
}

#[test]
fn soft_delete_survives_reopen() {
    let mut db = keyvalue::OverlayDB::new();
    KeyValueDB::insert(&mut db, "t1", "k", b"v").unwrap();
    KeyValueDB::insert(&mut db, "t2", "k", b"w").unwrap();
    KeyValueDB::delete_table(&mut db, "t1").unwrap();

    // reopening over the same base reloads the soft-deleted set
    let base = db.into_base();
    let db2 = keyvalue::OverlayDB::open(base);
    assert!(KeyValueDB::get(&db2, "t1", "k").unwrap().is_none());
    assert_eq!(
        KeyValueDB::get(&db2, "t2", "k").unwrap(),
        Some(b"w".to_vec())
    );
    assert_eq!(
        KeyValueDB::table_names(&db2).unwrap(),
        vec!["t2".to_string()]
    );
}

#[test]
fn end_to_end_scenario() {
    let mut db = keyvalue::OverlayDB::new();
    KeyValueDB::insert(&mut db, "t1", "k", b"v").unwrap();
    assert_eq!(KeyValueDB::get(&db, "t1", "k").unwrap(), Some(b"v".to_vec()));

    KeyValueDB::delete_table(&mut db, "t1").unwrap();
    assert_eq!(KeyValueDB::get(&db, "t1", "k").unwrap(), None);
    assert!(!KeyValueDB::table_names(&db).unwrap().contains(&"t1".to_string()));

    KeyValueDB::insert(&mut db, "t1", "k2", b"v2").unwrap();
    assert!(KeyValueDB::table_names(&db).unwrap().contains(&"t1".to_string()));
    assert_eq!(
        KeyValueDB::iter(&db, "t1").unwrap(),
        vec![("k2".to_string(), b"v2".to_vec())]
    );
}

#[test]
fn backup_versions_and_restore() {
    let mut db = keyvalue::OverlayDB::new();
    assert_eq!(db.get_table_version("t1").unwrap(), None);

    let data = vec![
        ("a".to_string(), b"1".to_vec()),
        ("b".to_string(), b"2".to_vec()),
        ("a".to_string(), b"3".to_vec()),
    ];
    db.restore_backup("t1", &data, 9).unwrap();
    assert_eq!(db.get_table_version("t1").unwrap(), Some(9));

    // the later entry for a duplicated key wins
    assert_eq!(KeyValueDB::get(&db, "t1", "a").unwrap(), Some(b"3".to_vec()));
    assert_eq!(KeyValueDB::get(&db, "t1", "b").unwrap(), Some(b"2".to_vec()));
    assert_eq!(KeyValueDB::iter(&db, "t1").unwrap().len(), 2);

    // restoring replaces wholesale
    db.restore_backup("t1", &vec![("c".to_string(), b"4".to_vec())], 10).unwrap();
    assert_eq!(KeyValueDB::get(&db, "t1", "a").unwrap(), None);
    assert_eq!(KeyValueDB::get(&db, "t1", "c").unwrap(), Some(b"4".to_vec()));
    assert_eq!(db.get_table_version("t1").unwrap(), Some(10));

    assert_eq!(
        db.restore_backup("meta_versions", &Vec::new(), 1).unwrap_err(),
        KvError::InvalidInput
    );
}

#[test]
fn backup_notifier_receives_events() {
    let (tx, mut rx) = futures::channel::mpsc::unbounded::<keyvalue::RunBackupEvent>();
    let mut db = keyvalue::OverlayDB::new();
    db.add_backup_notifier_sender(tx);

    KeyValueDB::insert(&mut db, "t1", "k", b"v").unwrap();
    match rx.try_next().unwrap().unwrap() {
        keyvalue::RunBackupEvent::Insert { table_name, version: _ } => {
            assert_eq!(table_name, "t1");
        },
        other => panic!("unexpected event {:?}", other),
    }

    KeyValueDB::remove(&mut db, "t1", "k").unwrap();
    match rx.try_next().unwrap().unwrap() {
        keyvalue::RunBackupEvent::Delete { table_name, version: _ } => {
            assert_eq!(table_name, "t1");
        },
        other => panic!("unexpected event {:?}", other),
    }

    // a dropped listener must not fail mutations
    drop(rx);
    assert!(KeyValueDB::insert(&mut db, "t1", "k", b"v").is_ok());
}

#[test]
fn actor_serializes_commands() {
    let mut actor = StoreActor::new(keyvalue::OverlayDB::new());
    let r = actor.handle(StoreCommand::Insert {
        table_name: "t1".to_string(),
        key: "k".to_string(),
        value: b"v".to_vec(),
    });
    match r {
        StoreResponse::Value(res) => assert_eq!(res.unwrap(), None),
        _ => panic!("wrong response shape"),
    }
    let r = actor.handle(StoreCommand::Get { table_name: "t1".to_string(), key: "k".to_string() });
    match r {
        StoreResponse::Value(res) => assert_eq!(res.unwrap(), Some(b"v".to_vec())),
        _ => panic!("wrong response shape"),
    }
    let r = actor.handle(StoreCommand::TableNames);
    match r {
        StoreResponse::Names(res) => assert_eq!(res.unwrap(), vec!["t1".to_string()]),
        _ => panic!("wrong response shape"),
    }
    let r = actor.handle(StoreCommand::DeleteTable { table_name: "t1".to_string() });
    match r {
        StoreResponse::Unit(res) => assert!(res.is_ok()),
        _ => panic!("wrong response shape"),
    }
    let r = actor.handle(StoreCommand::Get { table_name: "t1".to_string(), key: "k".to_string() });
    match r {
        StoreResponse::Value(res) => assert_eq!(res.unwrap(), None),
        _ => panic!("wrong response shape"),
    }
}

#[test]
fn versioned_monotonic_updates() {
    let mut db = InMemoryDB::new();

    let old = VersionedKeyValueDB::update(&mut db, "t", "k", Some(b"v1")).unwrap();
    assert!(old.is_none());
    assert_eq!(
        VersionedKeyValueDB::get(&db, "t", "k").unwrap().unwrap(),
        VersionedObject { value: Some(b"v1".to_vec()), version: 1 }
    );

    let old = VersionedKeyValueDB::update(&mut db, "t", "k", Some(b"v2")).unwrap();
    assert_eq!(old.unwrap().version, 1);
    assert_eq!(
        VersionedKeyValueDB::get(&db, "t", "k").unwrap().unwrap(),
        VersionedObject { value: Some(b"v2".to_vec()), version: 2 }
    );

    // a counter at its maximum refuses to wrap
    VersionedKeyValueDB::insert(&mut db, "t", "k", b"v", u64::MAX).unwrap();
    assert_eq!(
        VersionedKeyValueDB::update(&mut db, "t", "k", Some(b"v3")).unwrap_err(),
        KvError::InvalidData
    );
    assert_eq!(
        VersionedKeyValueDB::get(&db, "t", "k").unwrap().unwrap().version,
        u64::MAX
    );
}

#[test]
fn versioned_remove_policies() {
    let mut db = InMemoryDB::new();
    VersionedKeyValueDB::update(&mut db, "t", "k", Some(b"v1")).unwrap();

    // the soft policy leaves an enumerable tombstone at the next version
    let old = VersionedKeyValueDB::remove(&mut db, "t", "k", false).unwrap().unwrap();
    assert_eq!(old.version, 1);
    assert_eq!(
        VersionedKeyValueDB::get(&db, "t", "k").unwrap().unwrap(),
        VersionedObject { value: None, version: 2 }
    );
    assert_eq!(VersionedKeyValueDB::iter(&db, "t").unwrap().len(), 1);

    // the prune policy erases the entry for good
    let old = VersionedKeyValueDB::remove(&mut db, "t", "k", true).unwrap().unwrap();
    assert_eq!(old.version, 2);
    assert!(VersionedKeyValueDB::get(&db, "t", "k").unwrap().is_none());
    assert!(VersionedKeyValueDB::iter(&db, "t").unwrap().is_empty());

    // removing an absent key is not an error
    assert!(VersionedKeyValueDB::remove(&mut db, "t", "k", false).unwrap().is_none());

    // update with no payload tombstones through the same version counter
    VersionedKeyValueDB::update(&mut db, "t", "j", Some(b"x")).unwrap();
    VersionedKeyValueDB::update(&mut db, "t", "j", None).unwrap();
    assert_eq!(
        VersionedKeyValueDB::get(&db, "t", "j").unwrap().unwrap(),
        VersionedObject { value: None, version: 2 }
    );
}

#[test]
fn versioned_rejects_malformed_bytes() {
    let mut db = InMemoryDB::new();
    KeyValueDB::insert(&mut db, "t", "k", b"xy").unwrap();
    assert_eq!(
        VersionedKeyValueDB::get(&db, "t", "k").unwrap_err(),
        KvError::InvalidData
    );
    assert_eq!(
        VersionedKeyValueDB::iter(&db, "t").unwrap_err(),
        KvError::InvalidData
    );
}

#[test]
fn versioned_delete_table_policies() {
    let mut db = InMemoryDB::new();
    VersionedKeyValueDB::update(&mut db, "t", "a", Some(b"1")).unwrap();
    VersionedKeyValueDB::update(&mut db, "t", "b", Some(b"2")).unwrap();
    VersionedKeyValueDB::update(&mut db, "t", "b", Some(b"3")).unwrap();

    // the tombstone sweep keeps every key, at its next version, as a tombstone
    VersionedKeyValueDB::delete_table(&mut db, "t", false).unwrap();
    let pairs = VersionedKeyValueDB::iter(&db, "t").unwrap();
    assert_eq!(pairs.len(), 2);
    for (k, obj) in pairs {
        assert!(obj.value.is_none());
        let expected = if k == "a" { 2 } else { 3 };
        assert_eq!(obj.version, expected);
    }

    // the prune policy drops the table wholly
    VersionedKeyValueDB::delete_table(&mut db, "t", true).unwrap();
    assert!(VersionedKeyValueDB::iter(&db, "t").unwrap().is_empty());
    assert!(KeyValueDB::table_names(&db).unwrap().is_empty());

    // a full sweep clear tombstones every table; a prune clear empties the store
    VersionedKeyValueDB::update(&mut db, "t1", "a", Some(b"1")).unwrap();
    VersionedKeyValueDB::update(&mut db, "t2", "b", Some(b"2")).unwrap();
    VersionedKeyValueDB::clear(&mut db, false).unwrap();
    assert_eq!(
        VersionedKeyValueDB::get(&db, "t1", "a").unwrap().unwrap(),
        VersionedObject { value: None, version: 2 }
    );
    VersionedKeyValueDB::clear(&mut db, true).unwrap();
    assert!(KeyValueDB::table_names(&db).unwrap().is_empty());
}

#[test]
fn test_versioned_in_memory() {
    let mut db = InMemoryDB::new();

    assert!(VersionedKeyValueDB::get(&db, "table1", "key").unwrap().is_none());
    assert!(VersionedKeyValueDB::iter(&db, "table1").unwrap().is_empty());
    assert!(VersionedKeyValueDB::table_names(&db).unwrap().is_empty());

    let old = VersionedKeyValueDB::insert(&mut db, "table1", "key", b"value", 5).unwrap();
    assert!(old.is_none());
    assert_eq!(
        VersionedKeyValueDB::get(&db, "table1", "key").unwrap().unwrap(),
        VersionedObject { value: Some(b"value".to_vec()), version: 5 }
    );

    let old = VersionedKeyValueDB::update(&mut db, "table1", "key", Some(b"value2")).unwrap();
    assert_eq!(old.unwrap().version, 5);
    assert_eq!(
        VersionedKeyValueDB::get(&db, "table1", "key").unwrap().unwrap(),
        VersionedObject { value: Some(b"value2".to_vec()), version: 6 }
    );

    let pairs = VersionedKeyValueDB::iter(&db, "table1").unwrap();
    assert_eq!(pairs.len(), 1);
    assert_eq!(pairs[0].0, "key");
    assert_eq!(pairs[0].1.version, 6);

    assert!(VersionedKeyValueDB::contains_key(&db, "table1", "key").unwrap());
    assert!(VersionedKeyValueDB::contains_table(&db, "table1").unwrap());
    assert_eq!(
        VersionedKeyValueDB::keys(&db, "table1").unwrap(),
        vec!["key".to_string()]
    );

    let db = InMemoryDB::new();
    assert!(KeyValueDB::table_names(&db).unwrap().is_empty());
}
