use saturn_db::memtable::{MemTable, MEMTABLE_CAPACITY};

#[test]
fn memtable_insert_get_overwrite() {
    let mut mt = MemTable::new();
    mt.insert(b"k".to_vec(), b"v1".to_vec());
    assert_eq!(mt.get(&b"k".to_vec()), Some((b"v1".to_vec(), 1)));
    mt.insert(b"k".to_vec(), b"v2".to_vec());
    assert_eq!(mt.get(&b"k".to_vec()), Some((b"v2".to_vec(), 2)));
    assert_eq!(mt.get(&b"missing".to_vec()), None);
}

#[test]
fn memtable_delete_records_tombstone() {
    let mut mt = MemTable::new();
    mt.insert(b"k".to_vec(), b"v".to_vec());
    mt.delete(b"k".to_vec());
    assert_eq!(mt.get(&b"k".to_vec()), None);
    assert!(mt.contains_tombstone(&b"k".to_vec()));
    // A later insert does not clear the tombstone.
    mt.insert(b"k".to_vec(), b"v3".to_vec());
    assert_eq!(mt.get(&b"k".to_vec()), Some((b"v3".to_vec(), 3)));
    assert!(mt.contains_tombstone(&b"k".to_vec()));
}

#[test]
fn memtable_drain_yields_sorted_keys() {
    let mut mt = MemTable::new();
    mt.insert(b"zulu".to_vec(), b"4".to_vec());
    mt.insert(b"alpha".to_vec(), b"1".to_vec());
    mt.insert(b"bravo".to_vec(), b"2".to_vec());
    mt.insert(b"x-ray".to_vec(), b"3".to_vec());
    mt.delete(b"mike".to_vec());
    mt.delete(b"golf".to_vec());

    let (data, tombstones) = mt.flush();
    let keys: Vec<Vec<u8>> = data.iter().map(|p| p.0.clone()).collect();
    assert_eq!(
        keys,
        vec![
            b"alpha".to_vec(),
            b"bravo".to_vec(),
            b"x-ray".to_vec(),
            b"zulu".to_vec()
        ]
    );
    let tomb_keys: Vec<Vec<u8>> = tombstones.iter().map(|p| p.0.clone()).collect();
    assert_eq!(tomb_keys, vec![b"golf".to_vec(), b"mike".to_vec()]);
    // The memtable is empty again but keeps counting sequence numbers.
    assert_eq!(mt.get(&b"alpha".to_vec()), None);
    mt.insert(b"new".to_vec(), b"v".to_vec());
    assert_eq!(mt.get(&b"new".to_vec()), Some((b"v".to_vec(), 7)));
}

#[test]
fn memtable_is_full_at_exact_threshold() {
    let mut mt = MemTable::new();
    for i in 0..MEMTABLE_CAPACITY - 1 {
        mt.insert(format!("key{:06}", i).into_bytes(), b"v".to_vec());
        assert!(!mt.is_full());
    }
    mt.insert(b"the-one-that-fills-it".to_vec(), b"v".to_vec());
    assert!(mt.is_full());
}

#[test]
fn memtable_is_full_counts_tombstones() {
    let mut mt = MemTable::new();
    for i in 0..MEMTABLE_CAPACITY - 1 {
        mt.delete(format!("key{:06}", i).into_bytes());
    }
    assert!(!mt.is_full());
    mt.insert(b"live".to_vec(), b"v".to_vec());
    assert!(mt.is_full());
}
