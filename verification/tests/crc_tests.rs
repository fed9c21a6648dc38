use saturn_db::crc32c;

#[test]
fn fixed32_roundtrip() {
    let n = 0xA1B2_C3D4u32;
    let mut b = vec![0u8; 4];
    crc32c::put_fixed32_le(&mut b, n);
    assert_eq!(crc32c::get_fixed32_le(&b), n);
    assert_eq!(u32::from_le_bytes([b[0], b[1], b[2], b[3]]), n);
}

#[test]
fn mask_unmask_roundtrip() {
    for &x in &[0u32, 1, 0xFFFF_FFFF, 0xDEAD_BEEF, 0x8000_0001] {
        assert_eq!(crc32c::unmask(crc32c::mask(x)), x);
    }
}

#[test]
fn crc_known_value() {
    // CRC32C of "123456789" is the classic check value 0xE3069283.
    let data = b"123456789";
    assert_eq!(crc32c::value(data), 0xE306_9283);
}

#[test]
fn crc_extend_matches_concat() {
    let a = b"hello ";
    let b = b"world";
    let whole = b"hello world";
    assert_eq!(crc32c::extend(crc32c::value(a), b), crc32c::value(whole));
}
