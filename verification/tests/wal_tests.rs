use saturn_db::common::{DecodeError, Entry};
use saturn_db::wal::{decode_entry, encode_entry, read_bytes, WriteAheadLog};

#[test]
fn append_and_iterate_round_trip() {
    let mut wal = WriteAheadLog::new("round_trip");
    wal.append(&Entry::Put {
        key: b"k1".to_vec(),
        value: b"v1".to_vec(),
    });
    wal.append(&Entry::Delete {
        key: b"k2".to_vec(),
    });
    wal.append(&Entry::Put {
        key: b"k3".to_vec(),
        value: b"v3".to_vec(),
    });

    let mut entries = wal.iter();

    assert_eq!(
        entries.next().unwrap().unwrap(),
        Entry::Put {
            key: b"k1".to_vec(),
            value: b"v1".to_vec(),
        }
    );
    assert_eq!(
        entries.next().unwrap().unwrap(),
        Entry::Delete {
            key: b"k2".to_vec(),
        }
    );
    assert_eq!(
        entries.next().unwrap().unwrap(),
        Entry::Put {
            key: b"k3".to_vec(),
            value: b"v3".to_vec(),
        }
    );
    assert!(entries.next().is_none());
}

#[test]
fn iterator_handles_empty_log() {
    let wal = WriteAheadLog::new("empty");
    let mut iter = wal.iter();
    assert!(iter.next().is_none());
}

#[test]
fn entry_codec_roundtrip() {
    let put = Entry::Put { key: b"key".to_vec(), value: b"value".to_vec() };
    let mut buf: Vec<u8> = Vec::new();
    encode_entry(&put, &mut buf);
    assert_eq!(decode_entry(&buf), Ok(put));

    let del = Entry::Delete { key: b"gone".to_vec() };
    let mut buf2: Vec<u8> = Vec::new();
    encode_entry(&del, &mut buf2);
    assert_eq!(decode_entry(&buf2), Ok(del));
}

#[test]
fn decode_entry_error_kinds() {
    // Empty record.
    assert_eq!(decode_entry(&[]), Err(DecodeError::EmptyRecord));
    // Tag but no key length.
    assert_eq!(decode_entry(&[0]), Err(DecodeError::MissingLength));
    // Key length running past the record.
    assert_eq!(
        decode_entry(&[0, 0, 0, 0, 5]),
        Err(DecodeError::PayloadTruncated)
    );
    // Unknown tag (the key still parses first).
    assert_eq!(
        decode_entry(&[7, 0, 0, 0, 0]),
        Err(DecodeError::UnknownTag)
    );
    // Put without a value length.
    assert_eq!(
        decode_entry(&[0, 0, 0, 0, 1, b'k']),
        Err(DecodeError::MissingLength)
    );
}

#[test]
fn read_bytes_reads_prefixed_field() {
    let mut buf: Vec<u8> = vec![9]; // one byte before the field
    buf.extend_from_slice(&[0, 0, 0, 3]);
    buf.extend_from_slice(b"abc");
    let (bytes, next) = read_bytes(&buf, 1).unwrap();
    assert_eq!(bytes, b"abc".to_vec());
    assert_eq!(next, buf.len());
    assert!(read_bytes(&buf, 3).is_none());
}

#[test]
fn wal_continues_existing_image() {
    let mut wal = WriteAheadLog::new("a");
    wal.append(&Entry::Put { key: b"k1".to_vec(), value: b"v1".to_vec() });
    let image = wal.into_inner();

    let mut wal2 = WriteAheadLog::with_existing("a", image);
    wal2.append(&Entry::Put { key: b"k2".to_vec(), value: b"v2".to_vec() });
    let mut iter = wal2.iter();
    assert_eq!(
        iter.next().unwrap().unwrap(),
        Entry::Put { key: b"k1".to_vec(), value: b"v1".to_vec() }
    );
    assert_eq!(
        iter.next().unwrap().unwrap(),
        Entry::Put { key: b"k2".to_vec(), value: b"v2".to_vec() }
    );
    assert!(iter.next().is_none());
}
