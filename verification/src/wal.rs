//! The write-ahead log facade: encodes logical `Entry` values onto the
//! framing layer and scans them back, plus the length-prefixed byte
//! helpers shared with the table format.
//!
//! Record layout: byte 0 is the tag (0 = Put, 1 = Delete); each variable
//! field (the key; and, for Put, the value) is a 4-byte big-endian length
//! followed by the raw bytes.
use vstd::prelude::*;

use crate::common::{
    get_be32, put_be32, spec_be32, spec_be32_val, DecodeError, Entry, EntryView, Key, Value,
};
use crate::wal_format::BLOCK_SIZE;
use crate::wal_reader::{spec_read_step, spec_skip_pos, Reader, Reporter, SpecRead};
use crate::wal_writer::{spec_emit, spec_emit_end, Writer};

verus! {

/// The logical-record encoding of an entry.
#[verifier::opaque]
pub open spec fn spec_encode_entry(e: EntryView) -> Seq<u8> {
    match e {
        EntryView::Put { key, value } => seq![0u8] + spec_be32(key.len()) + key + spec_be32(
            value.len(),
        ) + value,
        EntryView::Delete { key } => seq![1u8] + spec_be32(key.len()) + key,
    }
}

/// The length-prefixed field at `pos`: its bytes and the offset just past
/// it, a missing length, or a truncated payload.
pub open spec fn spec_field_at(src: Seq<u8>, pos: int) -> Result<(Seq<u8>, int), DecodeError> {
    let len = src.len() as int;
    if pos + 4 > len {
        Err(DecodeError::MissingLength)
    } else {
        let n = spec_be32_val(src[pos], src[pos + 1], src[pos + 2], src[pos + 3]) as int;
        if pos + 4 + n > len {
            Err(DecodeError::PayloadTruncated)
        } else {
            Ok((src.subrange(pos + 4, pos + 4 + n), pos + 4 + n))
        }
    }
}

/// Decodes a logical record: empty records, unknown tags, missing
/// lengths and truncated fields are each a distinct error.
pub open spec fn spec_decode_entry(src: Seq<u8>) -> Result<EntryView, DecodeError> {
    if src.len() == 0 {
        Err(DecodeError::EmptyRecord)
    } else {
        let tag = src[0];
        match spec_field_at(src, 1) {
            Ok((key, after_key)) => if tag == 0 {
                match spec_field_at(src, after_key) {
                    Ok((value, _)) => Ok(EntryView::Put { key, value }),
                    Err(e) => Err(e),
                }
            } else if tag == 1 {
                Ok(EntryView::Delete { key })
            } else {
                Err(DecodeError::UnknownTag)
            },
            Err(e) => Err(e),
        }
    }
}

/// Appends `bytes` to `dst` behind a 4-byte big-endian length.
pub fn write_len_prefixed(bytes: &[u8], dst: &mut Vec<u8>)
    requires
        bytes@.len() < 0x100000000,
    ensures
        final(dst)@ == old(dst)@ + spec_be32(bytes@.len()) + bytes@,
{
    let ghost pre = dst@;
    put_be32(dst, bytes.len() as u32);
    dst.extend_from_slice(bytes);
    proof {
        assert(dst@ =~= pre + spec_be32(bytes@.len()) + bytes@);
    }
}

/// Reads a length-prefixed field at `*offset`, advancing the offset past
/// it on success.
pub fn read_len_prefixed(src: &[u8], offset: &mut usize) -> (r: Result<Vec<u8>, DecodeError>)
    ensures
        ({
            match spec_field_at(src@, *old(offset) as int) {
                Ok((bytes, end)) => match r {
                    Ok(v) => v@ == bytes && *final(offset) == end,
                    Err(_) => false,
                },
                Err(e) => r == Err::<Vec<u8>, DecodeError>(e) && *final(offset) == *old(offset),
            }
        }),
{
    let len = src.len();
    let pos = *offset;
    if pos >= len || len - pos < 4 {
        return Err(DecodeError::MissingLength);
    }
    let n32 = get_be32(src, pos);
    let n = n32 as usize;
    if n > len - pos - 4 {
        return Err(DecodeError::PayloadTruncated);
    }
    let out = vstd::slice::slice_to_vec(&src[pos + 4..pos + 4 + n]);
    *offset = pos + 4 + n;
    Ok(out)
}

/// Reads a length-prefixed field at `offset`, returning the bytes and
/// the offset just past them.
pub fn read_bytes(src: &[u8], offset: usize) -> (r: Option<(Vec<u8>, usize)>)
    ensures
        ({
            match spec_field_at(src@, offset as int) {
                Ok((bytes, end)) => match r {
                    Some((v, n)) => v@ == bytes && n == end,
                    None => false,
                },
                Err(_) => r is None,
            }
        }),
{
    let mut pos = offset;
    match read_len_prefixed(src, &mut pos) {
        Ok(v) => Some((v, pos)),
        Err(_) => None,
    }
}

/// Encodes `entry` onto the end of `dst`.
pub fn encode_entry(entry: &Entry, dst: &mut Vec<u8>)
    requires
        ({
            match entry {
                Entry::Put { key, value } => key@.len() < 0x100000000 && value@.len()
                    < 0x100000000,
                Entry::Delete { key } => key@.len() < 0x100000000,
            }
        }),
    ensures
        final(dst)@ == old(dst)@ + spec_encode_entry(entry@),
{
    proof {
        reveal(spec_encode_entry);
    }
    let ghost pre = dst@;
    match entry {
        Entry::Put { key, value } => {
            dst.push(0);
            write_len_prefixed(key.as_slice(), dst);
            write_len_prefixed(value.as_slice(), dst);
            proof {
                assert(dst@ =~= pre + spec_encode_entry(entry@));
            }
        },
        Entry::Delete { key } => {
            dst.push(1);
            write_len_prefixed(key.as_slice(), dst);
            proof {
                assert(dst@ =~= pre + spec_encode_entry(entry@));
            }
        },
    }
}

/// Decodes one logical record into an entry.
pub fn decode_entry(src: &[u8]) -> (r: Result<Entry, DecodeError>)
    ensures
        ({
            match spec_decode_entry(src@) {
                Ok(ev) => match r {
                    Ok(e) => e@ == ev,
                    Err(_) => false,
                },
                Err(er) => r == Err::<Entry, DecodeError>(er),
            }
        }),
{
    if src.len() == 0 {
        return Err(DecodeError::EmptyRecord);
    }
    let tag = src[0];
    let mut offset: usize = 1;
    let key = match read_len_prefixed(src, &mut offset) {
        Ok(k) => k,
        Err(e) => {
            return Err(e);
        },
    };
    if tag == 0 {
        let value = match read_len_prefixed(src, &mut offset) {
            Ok(v) => v,
            Err(e) => {
                return Err(e);
            },
        };
        Ok(Entry::Put { key, value })
    } else if tag == 1 {
        Ok(Entry::Delete { key })
    } else {
        Err(DecodeError::UnknownTag)
    }
}

/// Entry codec round trip: decoding an encoded entry gives it back.
pub proof fn lemma_entry_codec_round_trip(e: EntryView)
    requires
        ({
            match e {
                EntryView::Put { key, value } => key.len() < 0x100000000 && value.len()
                    < 0x100000000,
                EntryView::Delete { key } => key.len() < 0x100000000,
            }
        }),
    ensures
        spec_decode_entry(spec_encode_entry(e)) == Ok::<EntryView, DecodeError>(e),
{
    reveal(spec_encode_entry);
    let src = spec_encode_entry(e);
    match e {
        EntryView::Put { key, value } => {
            let kb = spec_be32(key.len());
            let vb = spec_be32(value.len());
            assert(src[0] == 0);
            assert(src[1] == kb[0] && src[2] == kb[1] && src[3] == kb[2] && src[4] == kb[3]);
            crate::common::lemma_be32_roundtrip(key.len());
            let after_key = 5 + key.len() as int;
            assert(src.subrange(5, after_key) =~= key) by {
                assert forall|j: int| 0 <= j < key.len() implies src[5 + j] == key[j] by {}
            }
            assert(spec_field_at(src, 1) == Ok::<(Seq<u8>, int), DecodeError>((key, after_key)))
                by {
                assert(src.subrange(5, after_key) =~= key);
            }
            assert(src[after_key] == vb[0] && src[after_key + 1] == vb[1] && src[after_key + 2]
                == vb[2] && src[after_key + 3] == vb[3]);
            crate::common::lemma_be32_roundtrip(value.len());
            assert(src.subrange(after_key + 4, after_key + 4 + value.len()) =~= value) by {
                assert forall|j: int| 0 <= j < value.len() implies src[after_key + 4 + j]
                    == value[j] by {}
            }
        },
        EntryView::Delete { key } => {
            let kb = spec_be32(key.len());
            assert(src[0] == 1);
            assert(src[1] == kb[0] && src[2] == kb[1] && src[3] == kb[2] && src[4] == kb[3]);
            crate::common::lemma_be32_roundtrip(key.len());
            let after_key = 5 + key.len() as int;
            assert(src.subrange(5, after_key) =~= key) by {
                assert forall|j: int| 0 <= j < key.len() implies src[5 + j] == key[j] by {}
            }
        },
    }
}

/// A reporter that swallows corruption callbacks.
pub struct NoopReporter {
}

impl NoopReporter {
    pub fn new() -> (r: NoopReporter) {
        NoopReporter {  }
    }
}

impl Reporter for NoopReporter {
    fn corruption(&mut self, bytes: usize, reason: &str) {
    }
}

/// The write-ahead log: a path name and a framing-layer writer over the
/// log's byte image. The caller persists the image.
pub struct WriteAheadLog {
    pub path: String,
    pub writer: Writer,
}

impl WriteAheadLog {
    pub open spec fn wf(self) -> bool {
        self.writer.wf()
    }

    /// The log's byte image.
    pub open spec fn bytes(self) -> Seq<u8> {
        self.writer.dest@
    }

    /// A fresh, empty log.
    pub fn new(path: &str) -> (r: WriteAheadLog)
        ensures
            r.wf(),
            r.bytes() == Seq::<u8>::empty(),
            r.writer.block_offset == 0,
            r.path@ == path@,
    {
        let w = Writer::new(Vec::new());
        proof {
            assert(w.dest@ =~= Seq::<u8>::empty());
        }
        WriteAheadLog { path: path.to_string(), writer: w }
    }

    /// A log continuing an existing byte image (appends land after it).
    pub fn with_existing(path: &str, bytes: Vec<u8>) -> (r: WriteAheadLog)
        ensures
            r.wf(),
            r.bytes() == bytes@,
            r.writer.block_offset == bytes@.len() as int % (BLOCK_SIZE as int),
            r.path@ == path@,
    {
        let len = bytes.len() as u64;
        let w = Writer::with_starting_offset(bytes, len);
        WriteAheadLog { path: path.to_string(), writer: w }
    }

    /// Appends one entry as a logical record and flushes it.
    pub fn append(&mut self, entry: &Entry)
        requires
            old(self).wf(),
            ({
                match entry {
                    Entry::Put { key, value } => key@.len() < 0x100000000 && value@.len()
                        < 0x100000000,
                    Entry::Delete { key } => key@.len() < 0x100000000,
                }
            }),
        ensures
            final(self).wf(),
            final(self).bytes() == old(self).bytes() + spec_emit(
                old(self).writer.block_offset as int,
                spec_encode_entry(entry@),
                true,
            ),
            final(self).writer.block_offset == spec_emit_end(
                old(self).writer.block_offset as int,
                spec_encode_entry(entry@),
                true,
            ),
            final(self).path == old(self).path,
    {
        let mut payload: Vec<u8> = Vec::new();
        encode_entry(entry, &mut payload);
        proof {
            assert(payload@ =~= spec_encode_entry(entry@));
        }
        self.writer.add_record(payload.as_slice());
    }

    /// A scanner over a copy of the log's bytes, from offset 0.
    pub fn iter(&self) -> (it: WriteAheadLogIter)
        ensures
            it.reader.src@ == self.bytes(),
            it.reader.pos == 0,
            it.reader.last_record_offset == 0,
            it.reader.initial_offset == 0,
            it.reader.resyncing == false,
            it.reader.checksum == true,
    {
        let bytes = vstd::slice::slice_to_vec(self.writer.dest.as_slice());
        let reader = Reader::new(bytes, Some(NoopReporter::new()), true, 0);
        WriteAheadLogIter { reader, record: Vec::new() }
    }

    /// Hands the byte image back.
    pub fn into_inner(self) -> (r: Vec<u8>)
        ensures
            r@ == self.bytes(),
    {
        self.writer.into_inner()
    }
}

/// Scans a log image, yielding one decoded entry per logical record.
pub struct WriteAheadLogIter {
    pub reader: Reader<NoopReporter>,
    pub record: Vec<u8>,
}

impl WriteAheadLogIter {
    /// The next decoded entry: `None` at end of file, a decode error if
    /// a record's payload is malformed.
    pub fn next(&mut self) -> (r: Option<Result<Entry, DecodeError>>)
        ensures
            final(self).reader.src@ == old(self).reader.src@,
            final(self).reader.checksum == old(self).reader.checksum,
            final(self).reader.initial_offset == old(self).reader.initial_offset,
            ({
                let st = spec_read_step(
                    old(self).reader.src@,
                    old(self).reader.checksum,
                    old(self).reader.initial_offset as int,
                    spec_skip_pos(
                        old(self).reader.pos as int,
                        old(self).reader.last_record_offset as int,
                        old(self).reader.initial_offset as int,
                    ),
                    old(self).reader.resyncing,
                    false,
                    Seq::empty(),
                    0,
                );
                &&& final(self).reader.pos == st.new_pos
                &&& final(self).reader.resyncing == st.resync
                &&& if st.found {
                    match spec_decode_entry(st.payload) {
                        Ok(ev) => match r {
                            Some(Ok(e)) => e@ == ev,
                            _ => false,
                        },
                        Err(er) => r == Some(Err::<Entry, DecodeError>(er)),
                    }
                } else {
                    r is None
                }
            }),
    {
        let found = self.reader.read_record(&mut self.record);
        if found {
            match decode_entry(self.record.as_slice()) {
                Ok(e) => Some(Ok(e)),
                Err(er) => Some(Err(er)),
            }
        } else {
            None
        }
    }
}

/// A successfully decoded entry's fields came from 32-bit
/// length-prefixed fields, so they fit the bound back.
pub proof fn lemma_decoded_entry_bounded(src: Seq<u8>)
    ensures
        match spec_decode_entry(src) {
            Ok(ev) => match ev {
                EntryView::Put { key, value } => key.len() < 0x100000000 && value.len()
                    < 0x100000000,
                EntryView::Delete { key } => key.len() < 0x100000000,
            },
            Err(_) => true,
        },
{
}

} // verus!
