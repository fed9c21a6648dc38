use saturn_db::common::{decode_var, encode_var, required_space, SegmentHandle};

#[test]
fn varint_roundtrip_various_values() {
    for &n in &[0usize, 1, 127, 128, 300, 16383, 16384, 123456789, usize::MAX] {
        let mut buf = vec![0u8; 10];
        let written = encode_var(n, &mut buf, 0);
        assert_eq!(written, required_space(n));
        let decoded = decode_var(&buf);
        assert_eq!(decoded, Some((n, written)));
    }
}

#[test]
fn required_space_exact_values() {
    assert_eq!(required_space(0), 1);
    assert_eq!(required_space(127), 1);
    assert_eq!(required_space(128), 2);
    assert_eq!(required_space(16383), 2);
    assert_eq!(required_space(16384), 3);
}

#[test]
fn encode_var_rejects_small_buffer() {
    let mut buf = vec![0u8; 1];
    assert_eq!(encode_var(300, &mut buf, 0), 0);
}

#[test]
fn decode_var_rejects_unterminated() {
    assert_eq!(decode_var(&[]), None);
    assert_eq!(decode_var(&[0x80]), None);
    assert_eq!(decode_var(&[0x80; 11]), None);
}

#[test]
fn segment_handle_roundtrip() {
    let handle = SegmentHandle::new(12345, 678);
    let mut buf = vec![0u8; 20];
    let written = handle.encode(&mut buf);
    assert!(written > 0);
    let (decoded, read) = SegmentHandle::decode(&buf).unwrap();
    assert_eq!(read, written);
    assert_eq!(decoded.offset(), 12345);
    assert_eq!(decoded.length(), 678);
}

#[test]
fn segment_handle_encode_too_small() {
    let handle = SegmentHandle::new(usize::MAX, usize::MAX);
    let mut buf = vec![0u8; 3];
    assert_eq!(handle.encode(&mut buf), 0);
}

#[test]
fn segment_handle_decode_truncated() {
    assert!(SegmentHandle::decode(&[0x85]).is_none());
}
