use keyvalue::KeyValueDB;
use keyvalue::redb::RedbDB;

#[test]
fn test_redb() {
    let temp_dir = tempfile::tempdir().unwrap();
    let path = temp_dir.path().join("test_redb_db");
    let path_str = path.to_str().unwrap();

    let mut db = RedbDB::open(path_str).unwrap();
    let (table1, key, value) = ("table1", "key", b"value".as_slice());

    assert!(KeyValueDB::get(&db, table1, key).unwrap().is_none());
    assert!(KeyValueDB::iter(&db, table1).unwrap().is_empty());
    assert!(KeyValueDB::table_names(&db).unwrap().is_empty());

    assert!(KeyValueDB::insert(&mut db, table1, key, value).unwrap().is_none());
    assert_eq!(KeyValueDB::get(&db, table1, key).unwrap(), Some(value.to_vec()));
    assert_eq!(
        KeyValueDB::insert(&mut db, table1, key, value).unwrap(),
        Some(value.to_vec())
    );

    assert!(KeyValueDB::insert(&mut db, table1, "prefix1", b"value1").unwrap().is_none());
    assert!(KeyValueDB::insert(&mut db, table1, "prefix2", b"value2").unwrap().is_none());
    assert!(KeyValueDB::insert(&mut db, "table2", key, value).unwrap().is_none());

    let iter = KeyValueDB::iter_from_prefix(&db, table1, "prefix").unwrap();
    assert_eq!(iter.len(), 2);
    assert!(iter.contains(&("prefix1".to_string(), b"value1".to_vec())));
    assert!(iter.contains(&("prefix2".to_string(), b"value2".to_vec())));

    assert!(KeyValueDB::contains_table(&db, table1).unwrap());
    assert!(KeyValueDB::contains_key(&db, table1, "prefix1").unwrap());
    assert!(!KeyValueDB::contains_key(&db, table1, "non-existent").unwrap());

    assert_eq!(
        KeyValueDB::remove(&mut db, table1, "prefix1").unwrap(),
        Some(b"value1".to_vec())
    );
    assert!(KeyValueDB::remove(&mut db, table1, "prefix1").unwrap().is_none());

    // the contents persist across closing and reopening the file
    drop(db);
    let mut db = RedbDB::open(path_str).unwrap();
    assert_eq!(KeyValueDB::get(&db, table1, key).unwrap(), Some(value.to_vec()));
    assert_eq!(
        KeyValueDB::get(&db, table1, "prefix2").unwrap(),
        Some(b"value2".to_vec())
    );
    let mut names = KeyValueDB::table_names(&db).unwrap();
    names.sort();
    assert_eq!(names, vec!["table1".to_string(), "table2".to_string()]);

    assert!(!KeyValueDB::table_names(&db).unwrap().is_empty());
    KeyValueDB::clear(&mut db).unwrap();
    assert!(KeyValueDB::table_names(&db).unwrap().is_empty());
}

#[test]
fn redb_delete_table_drops_it() {
    let temp_dir = tempfile::tempdir().unwrap();
    let path = temp_dir.path().join("test_redb_delete_db");
    let path_str = path.to_str().unwrap();

    let mut db = RedbDB::open(path_str).unwrap();
    KeyValueDB::insert(&mut db, "t1", "k", b"v").unwrap();
    KeyValueDB::insert(&mut db, "t2", "k", b"w").unwrap();
    KeyValueDB::delete_table(&mut db, "t1").unwrap();
    assert_eq!(KeyValueDB::table_names(&db).unwrap(), vec!["t2".to_string()]);
    assert!(KeyValueDB::get(&db, "t1", "k").unwrap().is_none());
}
