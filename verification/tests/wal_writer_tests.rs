use saturn_db::wal_format::{BLOCK_SIZE, HEADER_SIZE};
use saturn_db::wal_writer::Writer;

// Parse physical records from a raw log buffer (ignores CRC; skips trailers).
fn parse_phys(buf: &[u8]) -> Vec<(u8, usize, usize)> {
    let mut out = Vec::new();
    let mut i = 0usize;
    while i + HEADER_SIZE <= buf.len() {
        let block_off = i % BLOCK_SIZE;
        let room = BLOCK_SIZE - block_off;
        if room < HEADER_SIZE {
            // trailer region: skip to start of next block
            i += room;
            continue;
        }
        let header = &buf[i..i + HEADER_SIZE];
        // Decode length and type (little-endian length)
        let len = (header[4] as usize) | ((header[5] as usize) << 8);
        let typ = header[6];

        // If the full payload doesn't fit in the remainder of this slice, stop.
        if i + HEADER_SIZE + len > buf.len() {
            break;
        }

        // Good record
        out.push((typ, len, i));
        i += HEADER_SIZE + len;
    }
    out
}

#[test]
fn write_two_full_records() {
    // Write two small records.
    let mut w = Writer::new(Vec::<u8>::new());
    w.add_record(b"hello");
    w.add_record(b"world!");
    let buf = w.into_inner();

    // Expect two FULL (type=1) physical records back-to-back.
    let recs = parse_phys(&buf);
    assert_eq!(recs.len(), 2);
    assert_eq!(recs[0].0, 1);
    assert_eq!(recs[0].1, 5);
    assert_eq!(recs[1].0, 1);
    assert_eq!(recs[1].1, 6);

    // Check payload bytes match.
    let h1 = recs[0].2;
    assert_eq!(&buf[h1 + HEADER_SIZE..h1 + HEADER_SIZE + 5], b"hello");
    let h2 = recs[1].2;
    assert_eq!(&buf[h2 + HEADER_SIZE..h2 + HEADER_SIZE + 6], b"world!");
}

#[test]
fn pads_trailer_then_writes_next_block() {
    // Choose a payload that leaves < HEADER_SIZE bytes at end of the block.
    let pad_len = 3; // any 1..=6 works
    let first_len = BLOCK_SIZE - HEADER_SIZE - pad_len;
    let mut w = Writer::new(Vec::<u8>::new());
    w.add_record(&vec![b'x'; first_len]);
    w.add_record(b"abc");
    let buf = w.into_inner();

    // After the first record, there should be exactly `pad_len` zeros (trailer),
    // then the next record header at the start of the next block.
    let recs = parse_phys(&buf);
    assert!(recs.len() >= 2);
    let first_end = recs[0].2 + HEADER_SIZE + first_len;
    assert_eq!(&buf[first_end..first_end + pad_len], &[0u8; 3]);

    // The next record should be FULL "abc"
    let (typ2, len2, off2) = recs[1];
    assert_eq!(typ2, 1);
    assert_eq!(len2, 3);
    assert_eq!(&buf[off2 + HEADER_SIZE..off2 + HEADER_SIZE + 3], b"abc");
    // And it should start at a fresh block boundary.
    assert_eq!(off2 % BLOCK_SIZE, 0);
}

#[test]
fn fragments_large_record_first_last() {
    // Make a single logical record slightly larger than one block's available payload.
    let avail = BLOCK_SIZE - HEADER_SIZE;
    let total = avail + 10;
    let mut w = Writer::new(Vec::<u8>::new());
    w.add_record(&vec![b'y'; total]);
    let buf = w.into_inner();

    // Expect FIRST of length `avail`, then LAST of length 10.
    let recs = parse_phys(&buf);
    assert!(recs.len() >= 2);
    assert_eq!(recs[0].0, 2); // FIRST
    assert_eq!(recs[0].1, avail);
    assert_eq!(recs[1].0, 4); // LAST
    assert_eq!(recs[1].1, 10);
}

#[test]
fn fragments_two_block_record() {
    // A record spanning three physical records: First, Middle, Last.
    let avail = BLOCK_SIZE - HEADER_SIZE;
    let total = 2 * avail + 5;
    let mut w = Writer::new(Vec::<u8>::new());
    w.add_record(&vec![b'z'; total]);
    let buf = w.into_inner();

    let recs = parse_phys(&buf);
    assert_eq!(recs.len(), 3);
    assert_eq!(recs[0].0, 2); // FIRST
    assert_eq!(recs[0].1, avail);
    assert_eq!(recs[1].0, 3); // MIDDLE
    assert_eq!(recs[1].1, avail);
    assert_eq!(recs[2].0, 4); // LAST
    assert_eq!(recs[2].1, 5);
}

#[test]
fn empty_record_is_one_full_header() {
    let mut w = Writer::new(Vec::<u8>::new());
    w.add_record(b"");
    let buf = w.into_inner();
    assert_eq!(buf.len(), HEADER_SIZE);
    let recs = parse_phys(&buf);
    assert_eq!(recs.len(), 1);
    assert_eq!(recs[0].0, 1);
    assert_eq!(recs[0].1, 0);
}
