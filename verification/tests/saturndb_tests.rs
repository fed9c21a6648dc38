use saturn_db::SaturnDB;

#[test]
fn test_sdb_put_get() {
    let path = "/tmp/test_sdb_put_get";
    let mut db = SaturnDB::new(path);

    db.put(b"key1".to_vec(), b"value1".to_vec());
    db.put(b"key2".to_vec(), b"value2".to_vec());

    let val1 = db.get(&b"key1".to_vec());
    let val2 = db.get(&b"key2".to_vec());
    let val3 = db.get(&b"key3".to_vec());

    assert_eq!(val1, Some(b"value1".to_vec()));
    assert_eq!(val2, Some(b"value2".to_vec()));
    assert_eq!(val3, None);
}

#[test]
fn test_sdb_delete() {
    let path = "/tmp/test_sdb_delete";
    let mut db = SaturnDB::new(path);

    db.put(b"key1".to_vec(), b"value1".to_vec());
    db.delete(b"key1".to_vec());

    let val = db.get(&b"key1".to_vec());
    assert_eq!(val, None);
}

#[test]
fn test_sdb_recovery() {
    let path = "/tmp/test_sdb_recovery";

    let wal_image = {
        let mut db = SaturnDB::new(path);
        db.put(b"key1".to_vec(), b"value1".to_vec());
        db.put(b"key2".to_vec(), b"value2".to_vec());
        db.delete(b"key1".to_vec());
        db.wal_bytes().clone()
    };

    let mut db = SaturnDB::new(path);
    db.recover(&wal_image).unwrap();

    let val1 = db.get(&b"key1".to_vec());
    let val2 = db.get(&b"key2".to_vec());

    assert_eq!(val2, Some(b"value2".to_vec()));
    assert_eq!(val1, None);
}

#[test]
fn delete_then_put_is_visible() {
    let mut db = SaturnDB::new("x");
    db.delete(b"key1".to_vec());
    db.put(b"key1".to_vec(), b"value1".to_vec());
    assert_eq!(db.get(&b"key1".to_vec()), Some(b"value1".to_vec()));
}

#[test]
fn recovery_replays_interleaved_history() {
    let wal_image = {
        let mut db = SaturnDB::new("y");
        db.put(b"a".to_vec(), b"1".to_vec());
        db.put(b"a".to_vec(), b"2".to_vec());
        db.delete(b"b".to_vec());
        db.put(b"b".to_vec(), b"3".to_vec());
        db.delete(b"a".to_vec());
        db.wal_bytes().clone()
    };
    let mut db = SaturnDB::new("y");
    db.recover(&wal_image).unwrap();
    assert_eq!(db.get(&b"a".to_vec()), None);
    assert_eq!(db.get(&b"b".to_vec()), Some(b"3".to_vec()));
}

#[test]
fn newest_sstable_takes_precedence() {
    // Fill the memtable twice so the same key is flushed into two
    // different tables; the newer table's value must win.
    let mut db = SaturnDB::new("z");
    db.put(b"shared".to_vec(), b"old".to_vec());
    for i in 0..999 {
        db.put(format!("filler-a-{:04}", i).into_bytes(), b"x".to_vec());
    }
    // 1000 entries: the last put drained the memtable into table 0.
    db.put(b"shared".to_vec(), b"new".to_vec());
    for i in 0..999 {
        db.put(format!("filler-b-{:04}", i).into_bytes(), b"x".to_vec());
    }
    // Table 1 now holds shared -> "new"; the memtable is empty.
    assert_eq!(db.get(&b"shared".to_vec()), Some(b"new".to_vec()));
    assert_eq!(db.get(&b"filler-a-0007".to_vec()), Some(b"x".to_vec()));
    assert_eq!(db.get(&b"never".to_vec()), None);
}
