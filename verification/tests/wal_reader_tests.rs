use saturn_db::crc32c;
use saturn_db::wal_format::{BLOCK_SIZE, HEADER_SIZE};
use saturn_db::wal_reader::{Reader, Reporter};
use saturn_db::wal_writer::Writer;

// Minimal reporter that records corruption events.
#[derive(Default)]
struct CollectingReporter {
    drops: Vec<(usize, String)>,
}
impl Reporter for CollectingReporter {
    fn corruption(&mut self, bytes: usize, reason: &str) {
        self.drops.push((bytes, reason.to_string()));
    }
}

// Build one physical record: [masked crc32c(type||payload)] [len lo] [len hi] [type] [payload]
fn phys(typ: u8, payload: &[u8]) -> Vec<u8> {
    // CRC over: type byte + payload, then masked (same as writer).
    let mut tmp = Vec::with_capacity(1 + payload.len());
    tmp.push(typ);
    tmp.extend_from_slice(payload);
    let crc = crc32c::value(&tmp);
    let masked = ((crc >> 15) | (crc << 17)).wrapping_add(0xA2_82_EA_D8);

    let mut out = Vec::with_capacity(HEADER_SIZE + payload.len());
    out.extend_from_slice(&masked.to_le_bytes());
    out.push((payload.len() & 0xFF) as u8);
    out.push(((payload.len() >> 8) & 0xFF) as u8);
    out.push(typ);
    out.extend_from_slice(payload);
    out
}

#[test]
fn reads_two_full_records() {
    // Build a tiny log with two FULL records.
    let mut log = Vec::new();
    log.extend(phys(1, b"hello"));
    log.extend(phys(1, b"world!"));

    let rep = CollectingReporter::default();
    let mut r: Reader<_> = Reader::new(log, Some(rep), true, 0);

    let mut out = Vec::new();
    assert!(r.read_record(&mut out));
    assert_eq!(out, b"hello");
    assert!(r.read_record(&mut out));
    assert_eq!(out, b"world!");
    assert!(!r.read_record(&mut out)); // EOF

    // No corruption expected.
    let (_src, rep_opt) = r.into_inner();
    assert!(rep_opt.unwrap().drops.is_empty());
}

#[test]
fn detects_checksum_mismatch() {
    // One FULL record, then flip a payload byte after the header.
    let mut log = phys(1, b"abcdef");
    let payload_pos = HEADER_SIZE;
    log[payload_pos] ^= 0xFF; // corrupt

    let rep = CollectingReporter::default();
    let mut r: Reader<_> = Reader::new(log, Some(rep), true, 0);

    let mut out = Vec::new();
    // Should not return any valid record; should report corruption and hit EOF.
    let ok = r.read_record(&mut out);
    assert!(!ok);

    let (_src, rep_opt) = r.into_inner();
    let drops = &rep_opt.unwrap().drops;
    assert!(!drops.is_empty());
    assert!(drops.iter().any(|(_, why)| why.contains("checksum")));
}

#[test]
fn handles_trailer_and_fragmentation_across_blocks() {
    // 1) First FULL record sized to leave a 3-byte trailer => writer would pad zeros.
    // We emulate that: FULL whose header+payload = BLOCK_SIZE - 3, then 3 zeros.
    let pad_len = 3;
    let first_len = BLOCK_SIZE - HEADER_SIZE - pad_len;
    let mut log = Vec::new();
    log.extend(phys(1, &vec![b'x'; first_len]));
    log.extend(std::iter::repeat(0u8).take(pad_len));

    // 2) Now a large logical record that spans two physical records:
    // FIRST payload fills the rest of the block exactly, LAST in next block.
    let first_frag_payload = BLOCK_SIZE - HEADER_SIZE; // fills a block with header
    log.extend(phys(2, &vec![b'y'; first_frag_payload])); // FIRST
    log.extend(phys(4, &vec![b'z'; 10])); // LAST

    let rep = CollectingReporter::default();
    let mut r: Reader<_> = Reader::new(log, Some(rep), true, 0);

    let mut out = Vec::new();

    // Record #1: the initial FULL 'x'... payload
    assert!(r.read_record(&mut out));
    assert_eq!(out.len(), first_len);
    assert!(out.iter().all(|&b| b == b'x'));

    // Record #2: reassembled large record 'y'... + 'z'...
    assert!(r.read_record(&mut out));
    assert_eq!(out.len(), first_frag_payload + 10);
    assert!(out[..first_frag_payload].iter().all(|&b| b == b'y'));
    assert!(out[first_frag_payload..].iter().all(|&b| b == b'z'));

    // EOF
    assert!(!r.read_record(&mut out));

    let (_src, rep_opt) = r.into_inner();
    assert!(rep_opt.unwrap().drops.is_empty());
}

#[test]
fn resyncs_when_initial_offset_is_inside_a_fragment() {
    // Construct: [FULL (fills to trailer)] [FIRST .. LAST (big A)] [FULL "B"]
    // Then set initial_offset to inside the FIRST of A, so the reader skips to the next record ("B").
    let pad_len = 3;
    let first_len = BLOCK_SIZE - HEADER_SIZE - pad_len;

    let mut log = Vec::new();
    log.extend(phys(1, &vec![b'x'; first_len]));
    log.extend(std::iter::repeat(0u8).take(pad_len));

    // Big A split into FIRST (fills block) + LAST(10)
    let first_frag_payload = BLOCK_SIZE - HEADER_SIZE;
    let second_start = log.len(); // offset where FIRST of A will begin
    log.extend(phys(2, &vec![b'a'; first_frag_payload])); // FIRST
    log.extend(phys(4, &vec![b'a'; 10])); // LAST

    // Then a small FULL "B"
    log.extend(phys(1, b"B"));

    // Start reading from inside the FIRST-of-A header (simulate initial_offset in the middle)
    let initial_offset = second_start + 5;

    let rep = CollectingReporter::default();
    let mut r: Reader<_> = Reader::new(log, Some(rep), true, initial_offset);

    let mut out = Vec::new();
    // Should skip the rest of A and return the next logical record: "B"
    assert!(r.read_record(&mut out));
    assert_eq!(out, b"B");

    assert!(!r.read_record(&mut out));
    let (_src, rep_opt) = r.into_inner();
    // No corruption: resync skips without reporting.
    assert!(rep_opt.unwrap().drops.is_empty());
}

#[test]
fn writer_output_reads_back_in_order() {
    // Round trip through the real writer with payloads smaller than,
    // exactly equal to, and larger than a block's available payload.
    let avail = BLOCK_SIZE - HEADER_SIZE;
    let payloads: Vec<Vec<u8>> = vec![
        b"tiny".to_vec(),
        vec![b'e'; avail],
        vec![b'f'; avail + 123],
        Vec::new(),
        vec![b'g'; 3 * avail + 7],
    ];
    let mut w = Writer::new(Vec::new());
    for p in &payloads {
        w.add_record(p);
    }
    let log = w.into_inner();

    let rep = CollectingReporter::default();
    let mut r: Reader<_> = Reader::new(log, Some(rep), true, 0);
    let mut out = Vec::new();
    for p in &payloads {
        assert!(r.read_record(&mut out));
        assert_eq!(&out, p);
    }
    assert!(!r.read_record(&mut out));
    assert!(r.corruption_reports().is_empty());
}

#[test]
fn reports_bad_record_length() {
    // A header declaring a payload longer than the block, inside a
    // full-sized block of otherwise zero bytes.
    let mut log = vec![0u8; 2 * BLOCK_SIZE];
    log[4] = 0xFF;
    log[5] = 0xFF; // length 65535: cannot fit in the window
    log[6] = 1;
    let rep = CollectingReporter::default();
    let mut r: Reader<_> = Reader::new(log, Some(rep), true, 0);
    let mut out = Vec::new();
    assert!(!r.read_record(&mut out));
    let (_src, rep_opt) = r.into_inner();
    let drops = rep_opt.unwrap().drops;
    assert!(drops.iter().any(|(_, why)| why.contains("bad record length")));
}

#[test]
fn reports_missing_start_of_fragment() {
    // A MIDDLE with no FIRST before it, then a good FULL record.
    let mut log = Vec::new();
    log.extend(phys(3, b"orphan"));
    log.extend(phys(1, b"ok"));

    let rep = CollectingReporter::default();
    let mut r: Reader<_> = Reader::new(log, Some(rep), true, 0);
    let mut out = Vec::new();
    assert!(r.read_record(&mut out));
    assert_eq!(out, b"ok");
    let (_src, rep_opt) = r.into_inner();
    let drops = rep_opt.unwrap().drops;
    assert!(drops.iter().any(|(_, why)| why.contains("missing start")));
}

#[test]
fn reports_partial_record_without_end() {
    // A FIRST with no LAST, interrupted by a FULL record.
    let mut log = Vec::new();
    log.extend(phys(2, b"dangling"));
    log.extend(phys(1, b"whole"));

    let rep = CollectingReporter::default();
    let mut r: Reader<_> = Reader::new(log, Some(rep), true, 0);
    let mut out = Vec::new();
    assert!(r.read_record(&mut out));
    assert_eq!(out, b"whole");
    let (_src, rep_opt) = r.into_inner();
    let drops = rep_opt.unwrap().drops;
    assert!(drops.iter().any(|(_, why)| why.contains("partial record without end")));
}
