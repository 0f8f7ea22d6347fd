use keyvalue::{
    KVReadTransaction, KVReadVersionedTransaction, KVWriteTransaction,
    KVWriteVersionedTransaction, KeyValueDB, KvError, OverlayDB, TransactionalKVDB,
    VersionedObject,
};

#[test]
fn test_transactional_overlay() {
    let mut db = OverlayDB::new();
    let (table1, key, value) = ("table1", "key", b"value".as_slice());

    let read = TransactionalKVDB::begin_read(&db).unwrap();
    assert!(KVReadTransaction::get(&read, table1, key).unwrap().is_none());
    assert!(KVReadTransaction::iter_from_prefix(&read, table1, key).unwrap().is_empty());
    assert!(KVReadTransaction::iter(&read, table1).unwrap().is_empty());
    assert!(!KVReadTransaction::contains_key(&read, table1, key).unwrap());
    assert!(KVReadTransaction::table_names(&read).unwrap().is_empty());
    assert!(KVReadTransaction::keys(&read, table1).unwrap().is_empty());
    assert!(KVReadTransaction::values(&read, table1).unwrap().is_empty());

    let mut write = TransactionalKVDB::begin_write(&db).unwrap();
    assert!(KVReadTransaction::get(&write, table1, key).unwrap().is_none());
    assert!(KVReadTransaction::iter(&write, table1).unwrap().is_empty());
    assert!(KVWriteTransaction::remove(&mut write, table1, key).unwrap().is_none());
    assert!(!KVReadTransaction::contains_key(&write, table1, key).unwrap());
    assert!(KVReadTransaction::table_names(&write).unwrap().is_empty());
    assert!(KVWriteTransaction::delete_table(&mut write, table1).is_ok());
    assert!(KVWriteTransaction::clear(&mut write).is_ok());
    assert!(KVWriteTransaction::commit(write, &mut db).is_ok());

    // read-your-own-writes: the writer sees its write at once, a read
    // transaction opened before the commit still sees the old state
    let mut write = TransactionalKVDB::begin_write(&db).unwrap();
    assert!(KVWriteTransaction::insert(&mut write, table1, key, value).unwrap().is_none());
    assert_eq!(KVReadTransaction::get(&write, table1, key).unwrap(), Some(value.to_vec()));

    let read = TransactionalKVDB::begin_read(&db).unwrap();
    assert_eq!(KVReadTransaction::get(&read, table1, key).unwrap(), None);

    assert_eq!(
        KVWriteTransaction::insert(&mut write, table1, key, value).unwrap(),
        Some(value.to_vec())
    );
    KVWriteTransaction::commit(write, &mut db).unwrap();

    // the snapshot still answers from before the commit
    assert_eq!(KVReadTransaction::get(&read, table1, key).unwrap(), None);

    let read = TransactionalKVDB::begin_read(&db).unwrap();
    assert_eq!(KVReadTransaction::get(&read, table1, key).unwrap(), Some(value.to_vec()));

    let mut write = TransactionalKVDB::begin_write(&db).unwrap();
    assert!(KVWriteTransaction::remove(&mut write, table1, key).unwrap().is_some());
    assert!(KVReadTransaction::get(&write, table1, key).unwrap().is_none());

    let read = TransactionalKVDB::begin_read(&db).unwrap();
    assert_eq!(KVReadTransaction::get(&read, table1, key).unwrap(), Some(value.to_vec()));

    KVWriteTransaction::commit(write, &mut db).unwrap();

    let read = TransactionalKVDB::begin_read(&db).unwrap();
    assert!(KVReadTransaction::get(&read, table1, key).unwrap().is_none());
}

#[test]
fn aborted_transaction_changes_nothing() {
    let mut db = OverlayDB::new();
    KeyValueDB::insert(&mut db, "t1", "stay", b"s").unwrap();

    let mut write = TransactionalKVDB::begin_write(&db).unwrap();
    KVWriteTransaction::insert(&mut write, "t1", "a", b"1").unwrap();
    KVWriteTransaction::insert(&mut write, "t2", "b", b"2").unwrap();
    KVWriteTransaction::remove(&mut write, "t1", "stay").unwrap();
    KVWriteTransaction::delete_table(&mut write, "t1").unwrap();
    KVWriteTransaction::abort(write).unwrap();

    // every table reads exactly as before the transaction
    assert_eq!(
        KeyValueDB::table_names(&db).unwrap(),
        vec!["t1".to_string()]
    );
    assert_eq!(
        KeyValueDB::iter(&db, "t1").unwrap(),
        vec![("stay".to_string(), b"s".to_vec())]
    );
    assert!(KeyValueDB::iter(&db, "t2").unwrap().is_empty());
}

#[test]
fn commit_applies_all_at_once() {
    let mut db = OverlayDB::new();
    KeyValueDB::insert(&mut db, "t1", "old", b"o").unwrap();
    KeyValueDB::insert(&mut db, "gone", "x", b"y").unwrap();

    let mut write = TransactionalKVDB::begin_write(&db).unwrap();
    KVWriteTransaction::insert(&mut write, "t1", "a", b"1").unwrap();
    KVWriteTransaction::insert(&mut write, "t2", "b", b"2").unwrap();
    KVWriteTransaction::remove(&mut write, "t1", "old").unwrap();
    KVWriteTransaction::delete_table(&mut write, "gone").unwrap();

    // nothing of it shows before the commit
    assert_eq!(KeyValueDB::get(&db, "t1", "a").unwrap(), None);
    assert_eq!(KeyValueDB::get(&db, "gone", "x").unwrap(), Some(b"y".to_vec()));

    KVWriteTransaction::commit(write, &mut db).unwrap();

    assert_eq!(KeyValueDB::get(&db, "t1", "a").unwrap(), Some(b"1".to_vec()));
    assert_eq!(KeyValueDB::get(&db, "t1", "old").unwrap(), None);
    assert_eq!(KeyValueDB::get(&db, "t2", "b").unwrap(), Some(b"2".to_vec()));
    assert_eq!(KeyValueDB::get(&db, "gone", "x").unwrap(), None);
    let mut names = KeyValueDB::table_names(&db).unwrap();
    names.sort();
    assert_eq!(names, vec!["t1".to_string(), "t2".to_string()]);
}

#[test]
fn tx_delete_then_insert_resurrects() {
    let mut db = OverlayDB::new();
    KeyValueDB::insert(&mut db, "t1", "k", b"v").unwrap();

    let mut write = TransactionalKVDB::begin_write(&db).unwrap();
    KVWriteTransaction::delete_table(&mut write, "t1").unwrap();
    assert!(KVReadTransaction::get(&write, "t1", "k").unwrap().is_none());
    assert!(KVReadTransaction::table_names(&write).unwrap().is_empty());

    // writing into the deleted table takes the deletion back: the snapshot
    // contents are visible again together with the new entry
    KVWriteTransaction::insert(&mut write, "t1", "k2", b"v2").unwrap();
    assert_eq!(KVReadTransaction::get(&write, "t1", "k").unwrap(), Some(b"v".to_vec()));
    assert_eq!(KVReadTransaction::get(&write, "t1", "k2").unwrap(), Some(b"v2".to_vec()));

    KVWriteTransaction::commit(write, &mut db).unwrap();
    assert_eq!(KeyValueDB::get(&db, "t1", "k").unwrap(), Some(b"v".to_vec()));
    assert_eq!(KeyValueDB::get(&db, "t1", "k2").unwrap(), Some(b"v2".to_vec()));
}

#[test]
fn tx_rejects_reserved_names() {
    let db = OverlayDB::new();
    let mut write = TransactionalKVDB::begin_write(&db).unwrap();
    assert_eq!(
        KVWriteTransaction::insert(&mut write, "meta_deleted", "k", b"v").unwrap_err(),
        KvError::InvalidInput
    );
    assert_eq!(
        KVWriteTransaction::remove(&mut write, "meta_versions", "k").unwrap_err(),
        KvError::InvalidInput
    );
    assert_eq!(
        KVWriteTransaction::delete_table(&mut write, "meta_deleted").unwrap_err(),
        KvError::InvalidInput
    );
    KVWriteTransaction::abort(write).unwrap();
}

#[test]
fn tx_clear_then_commit_empties_store() {
    let mut db = OverlayDB::new();
    KeyValueDB::insert(&mut db, "t1", "k", b"v").unwrap();
    KeyValueDB::insert(&mut db, "t2", "k", b"w").unwrap();

    let mut write = TransactionalKVDB::begin_write(&db).unwrap();
    KVWriteTransaction::clear(&mut write).unwrap();
    assert!(KVReadTransaction::table_names(&write).unwrap().is_empty());
    KVWriteTransaction::commit(write, &mut db).unwrap();

    assert!(KeyValueDB::table_names(&db).unwrap().is_empty());
}

#[test]
fn versioned_transactions() {
    let mut db = OverlayDB::new();
    let mut write = TransactionalKVDB::begin_write(&db).unwrap();
    assert!(
        KVWriteVersionedTransaction::update(&mut write, "t", "k", Some(b"v1")).unwrap().is_none()
    );
    assert_eq!(
        KVReadVersionedTransaction::get(&write, "t", "k").unwrap().unwrap(),
        VersionedObject { value: Some(b"v1".to_vec()), version: 1 }
    );
    let old = KVWriteVersionedTransaction::update(&mut write, "t", "k", Some(b"v2")).unwrap();
    assert_eq!(old.unwrap().version, 1);
    KVWriteVersionedTransaction::commit(write, &mut db).unwrap();

    let read = TransactionalKVDB::begin_read(&db).unwrap();
    assert_eq!(
        KVReadVersionedTransaction::get(&read, "t", "k").unwrap().unwrap(),
        VersionedObject { value: Some(b"v2".to_vec()), version: 2 }
    );

    let mut write = TransactionalKVDB::begin_write(&db).unwrap();
    let old = KVWriteVersionedTransaction::remove(&mut write, "t", "k", false).unwrap();
    assert_eq!(old.unwrap().version, 2);
    assert_eq!(
        KVReadVersionedTransaction::get(&write, "t", "k").unwrap().unwrap(),
        VersionedObject { value: None, version: 3 }
    );
    KVWriteVersionedTransaction::commit(write, &mut db).unwrap();
}

#[test]
fn versioned_tx_overflow_is_invalid_data() {
    let mut db = OverlayDB::new();
    let mut write = TransactionalKVDB::begin_write(&db).unwrap();
    KVWriteVersionedTransaction::insert(&mut write, "t", "k", b"v", u64::MAX).unwrap();
    // the next version would wrap: refused as malformed data, nothing changes
    assert_eq!(
        KVWriteVersionedTransaction::update(&mut write, "t", "k", Some(b"w")).unwrap_err(),
        KvError::InvalidData
    );
    assert_eq!(
        KVWriteVersionedTransaction::remove(&mut write, "t", "k", false).unwrap_err(),
        KvError::InvalidData
    );
    assert_eq!(
        KVReadVersionedTransaction::get(&write, "t", "k").unwrap().unwrap().version,
        u64::MAX
    );
    // the prune policy still goes through
    let old = KVWriteVersionedTransaction::remove(&mut write, "t", "k", true).unwrap();
    assert_eq!(old.unwrap().version, u64::MAX);
    KVWriteTransaction::commit(write, &mut db).unwrap();
    assert!(KeyValueDB::get(&db, "t", "k").unwrap().is_none());
}

#[test]
fn versioned_tx_rejects_malformed_bytes() {
    let mut db = OverlayDB::new();
    KeyValueDB::insert(&mut db, "t", "k", b"xy").unwrap();
    let mut write = TransactionalKVDB::begin_write(&db).unwrap();
    assert_eq!(
        KVReadVersionedTransaction::get(&write, "t", "k").unwrap_err(),
        KvError::InvalidData
    );
    assert_eq!(
        KVWriteVersionedTransaction::update(&mut write, "t", "k", Some(b"w")).unwrap_err(),
        KvError::InvalidData
    );
    assert_eq!(
        KVWriteVersionedTransaction::remove(&mut write, "t", "k", false).unwrap_err(),
        KvError::InvalidData
    );
    KVWriteTransaction::abort(write).unwrap();
}
