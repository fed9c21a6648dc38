use saturn_db::common::{DecodeError, Entry};
use saturn_db::sstable::{read_entry, write_entry, SSTable};

#[test]
fn test_sstable_write_and_get() {
    let file_path = "/tmp/sstable.db";

    let data = vec![
        (b"key1".to_vec(), (b"value1".to_vec(), 1u64)),
        (b"key2".to_vec(), (b"value2".to_vec(), 2u64)),
    ];
    let tombstones = vec![(b"key3".to_vec(), 3u64)];

    let sstable = SSTable::write(data, tombstones, file_path);
    // Test existing keys
    let retrieved = sstable.get(&b"key1".to_vec());
    assert_eq!(retrieved, Some((b"value1".to_vec(), 0)));

    let retrieved = sstable.get(&b"key2".to_vec());
    assert_eq!(retrieved, Some((b"value2".to_vec(), 0)));

    // Test tombstone key
    let retrieved = sstable.get(&b"key3".to_vec());
    assert_eq!(retrieved, None);

    // Test non-existing key
    let retrieved = sstable.get(&b"key4".to_vec());
    assert_eq!(retrieved, None);
}

#[test]
fn sstable_tombstone_pass_wins_on_shared_key() {
    // A key both live and tombstoned in the drained memtable ends up
    // indexed at its tombstone.
    let data = vec![(b"k".to_vec(), (b"v".to_vec(), 1u64))];
    let tombstones = vec![(b"k".to_vec(), 2u64)];
    let sstable = SSTable::write(data, tombstones, "t");
    assert_eq!(sstable.get(&b"k".to_vec()), None);
    assert!(sstable.index_contains(&b"k".to_vec()));
}

#[test]
fn entry_write_read_roundtrip() {
    let mut buf: Vec<u8> = Vec::new();
    write_entry(&mut buf, 0, &b"alpha".to_vec(), Some(&b"one".to_vec()), 7);
    let put_end = buf.len();
    write_entry(&mut buf, 1, &b"beta".to_vec(), None, 8);

    let (e1, n1) = read_entry(&buf, 0).unwrap();
    assert_eq!(
        e1,
        Entry::Put { key: b"alpha".to_vec(), value: b"one".to_vec() }
    );
    assert_eq!(n1, put_end);
    let (e2, n2) = read_entry(&buf, n1).unwrap();
    assert_eq!(e2, Entry::Delete { key: b"beta".to_vec() });
    assert_eq!(n2, buf.len());
}

#[test]
fn entry_read_errors() {
    // Too short for tag + sequence.
    assert_eq!(read_entry(&[0u8; 5], 0), Err(DecodeError::PayloadTruncated));
    // Key length running past the end.
    let mut buf = vec![0u8; 13];
    buf[12] = 200;
    assert_eq!(read_entry(&buf, 0), Err(DecodeError::InvalidKey));
    // Unknown entry type.
    let mut good: Vec<u8> = Vec::new();
    write_entry(&mut good, 0, &b"k".to_vec(), Some(&b"v".to_vec()), 1);
    good[0] = 9;
    assert_eq!(read_entry(&good, 0), Err(DecodeError::InvalidEntryType));
    // Truncated value.
    let mut put: Vec<u8> = Vec::new();
    write_entry(&mut put, 0, &b"k".to_vec(), Some(&b"value".to_vec()), 1);
    put.truncate(put.len() - 2);
    assert_eq!(read_entry(&put, 0), Err(DecodeError::InvalidValue));
}
