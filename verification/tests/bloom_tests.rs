use saturn_db::bloom_filter::BloomFilter;
use saturn_db::common::Key;

#[test]
fn test_bloom_filter_basic() {
    let mut bf = BloomFilter::default();
    let key1 = b"alpha".to_vec();
    let key2 = b"beta".to_vec();
    let key3 = b"gamma".to_vec();

    bf.add(&key1);
    bf.add(&key2);
    bf.add(&key3);

    assert!(bf.contains(&key1));
    assert!(bf.contains(&key2));
    assert!(bf.contains(&key3));
}

#[test]
fn test_bloom_filter_add_and_contains() {
    let mut bf = BloomFilter::default();
    let keys: Vec<Key> = vec![
        b"apple".to_vec(),
        b"banana".to_vec(),
        b"cherry".to_vec(),
    ];

    for key in &keys {
        bf.add(key);
    }

    for key in &keys {
        assert!(bf.contains(key), "Bloom Filter should contain {:?}", key);
    }

    let non_keys: Vec<Key> = vec![
        b"durian".to_vec(),
        b"elderberry".to_vec(),
        b"fig".to_vec(),
    ];

    for key in &non_keys {
        assert!(!bf.contains(key), "Bloom Filter should not contain {:?}", key);
    }
}
