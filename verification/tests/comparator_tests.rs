use saturn_db::comparator::{BytewiseComparator, Comparator};
use std::cmp::Ordering;

#[test]
fn test_bytewise_comparator_compare() {
    let comparator = BytewiseComparator::new();
    assert_eq!(comparator.compare(b"apple", b"apple"), Ordering::Equal);
    assert_eq!(comparator.compare(b"apple", b"banana"), Ordering::Less);
    assert_eq!(comparator.compare(b"banana", b"apple"), Ordering::Greater);
    assert_eq!(comparator.compare(b"a", b"apple"), Ordering::Less);
}

#[test]
fn test_bytewise_comparator_name() {
    let comparator = BytewiseComparator::new();
    assert_eq!(comparator.name(), "BytewiseComparator");
}

#[test]
fn test_shortest_separator() {
    let comparator = BytewiseComparator::new();
    assert_eq!(
        comparator.find_shortest_separator(b"apple", b"apply"),
        b"applf"
    );
    assert_eq!(comparator.find_shortest_separator(b"a", b"c"), b"b");
    assert_eq!(comparator.find_shortest_separator(b"z", b"za"), b"z"); // Prefix case
}

#[test]
fn test_short_successor() {
    let comparator = BytewiseComparator::new();
    assert_eq!(comparator.find_short_successor(b"apple"), b"b");
    assert_eq!(comparator.find_short_successor(b"user"), b"v");
    assert_eq!(comparator.find_short_successor(b"z"), b"{");
    assert_eq!(
        comparator.find_short_successor(&[0xff, 0xff]),
        &[0xff, 0xff]
    );
}
