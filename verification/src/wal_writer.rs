//! The write-ahead log writer: splits each logical record into physical
//! records that never straddle a 32 KiB block boundary, zero-padding a
//! block's trailer when fewer than 7 bytes remain.
//!
//! `spec_emit` gives the exact bytes appended by `add_record`; the writer's
//! contracts are stated in terms of it, and the reader's round-trip proof
//! consumes it.
use vstd::prelude::*;

use crate::crc32c;
use crate::wal_format::{RecordType, spec_type_tag, BLOCK_SIZE, HEADER_SIZE, MAX_RECORD_TYPE};

verus! {

/// `n` zero bytes.
pub open spec fn spec_zeros(n: nat) -> Seq<u8> {
    Seq::new(n, |i: int| 0u8)
}

/// Low byte of a 16-bit length.
pub open spec fn spec_len_lo(n: nat) -> u8 {
    (n % 256) as u8
}

/// High byte of a 16-bit length.
pub open spec fn spec_len_hi(n: nat) -> u8 {
    ((n / 256) % 256) as u8
}

/// The 7-byte header of a physical record: masked CRC32C of the type byte
/// followed by the payload (little-endian), payload length (little-endian),
/// and the type byte.
pub open spec fn spec_record_header(typ: u8, payload: Seq<u8>) -> Seq<u8> {
    let m = crc32c::spec_mask(crc32c::spec_crc32c(seq![typ] + payload));
    seq![
        (m & 0xFF) as u8,
        ((m >> 8) & 0xFF) as u8,
        ((m >> 16) & 0xFF) as u8,
        ((m >> 24) & 0xFF) as u8,
        spec_len_lo(payload.len()),
        spec_len_hi(payload.len()),
        typ,
    ]
}

/// A whole physical record: header plus payload.
pub open spec fn spec_record_bytes(typ: u8, payload: Seq<u8>) -> Seq<u8> {
    spec_record_header(typ, payload) + payload
}

/// The type tag chosen for a fragment: `Full` when it is the only one,
/// `First`/`Last` at the edges, `Middle` inside.
pub open spec fn spec_frag_type(begin: bool, end: bool) -> u8 {
    if begin && end {
        1u8
    } else if begin {
        2u8
    } else if end {
        4u8
    } else {
        3u8
    }
}

/// Termination helper for `spec_emit`: a block offset is either mid-block
/// (0), exactly at the last header-sized slot (2), or in the trailer (1).
pub open spec fn emit_phase(off: int) -> int {
    if BLOCK_SIZE - off < HEADER_SIZE {
        1
    } else if off == BLOCK_SIZE - HEADER_SIZE {
        2
    } else {
        0
    }
}

/// The exact bytes the writer appends for one logical record `data`,
/// starting at block offset `off`. Trailers of fewer than `HEADER_SIZE`
/// bytes are zero-padded; each fragment takes as much of the current block
/// as it can.
pub open spec fn spec_emit(off: int, data: Seq<u8>, begin: bool) -> Seq<u8>
    decreases data.len(), emit_phase(off),
{
    if BLOCK_SIZE - off < HEADER_SIZE {
        let pad = if BLOCK_SIZE - off >= 0 {
            (BLOCK_SIZE - off) as nat
        } else {
            0
        };
        spec_zeros(pad) + spec_emit(0, data, begin)
    } else {
        let avail = BLOCK_SIZE - off - HEADER_SIZE;
        let frag: int = if data.len() <= avail {
            data.len() as int
        } else {
            avail
        };
        let end = frag == data.len();
        let rec = spec_record_bytes(spec_frag_type(begin, end), data.take(frag));
        if end {
            rec
        } else {
            rec + spec_emit(off + HEADER_SIZE + frag, data.skip(frag), false)
        }
    }
}

/// The block offset the writer is left at after `spec_emit(off, data, begin)`.
pub open spec fn spec_emit_end(off: int, data: Seq<u8>, begin: bool) -> int
    decreases data.len(), emit_phase(off),
{
    if BLOCK_SIZE - off < HEADER_SIZE {
        spec_emit_end(0, data, begin)
    } else {
        let avail = BLOCK_SIZE - off - HEADER_SIZE;
        let frag: int = if data.len() <= avail {
            data.len() as int
        } else {
            avail
        };
        let end = frag == data.len();
        if end {
            off + HEADER_SIZE + frag
        } else {
            spec_emit_end(off + HEADER_SIZE + frag, data.skip(frag), false)
        }
    }
}

/// Appends framed records to an in-memory byte stream. The caller persists
/// `dest` (its tail is always a valid sequence of complete physical
/// records).
pub struct Writer {
    pub dest: Vec<u8>,
    pub block_offset: usize,
    pub type_crc: Vec<u32>,
}

impl Writer {
    pub open spec fn wf(self) -> bool {
        &&& self.block_offset <= BLOCK_SIZE
        &&& self.type_crc@.len() == MAX_RECORD_TYPE + 1
        &&& forall|i: int|
            0 <= i <= MAX_RECORD_TYPE ==> self.type_crc@[i] == crc32c::spec_crc32c(
                seq![i as u8],
            )
    }

    /// A writer for a brand-new stream, positioned at a block boundary.
    pub fn new(dest: Vec<u8>) -> (w: Writer)
        ensures
            w.wf(),
            w.dest@ == dest@,
            w.block_offset == 0,
    {
        Writer { dest, block_offset: 0, type_crc: make_type_crcs() }
    }

    /// A writer appending to an existing stream of length `existing_len`
    /// (only the offset within the current block matters).
    pub fn with_starting_offset(dest: Vec<u8>, existing_len: u64) -> (w: Writer)
        ensures
            w.wf(),
            w.dest@ == dest@,
            w.block_offset == existing_len as int % (BLOCK_SIZE as int),
    {
        let off = (existing_len % (BLOCK_SIZE as u64)) as usize;
        Writer { dest, block_offset: off, type_crc: make_type_crcs() }
    }

    /// Appends one logical record, fragmenting it across blocks as needed
    /// and flushing each physical record; the destination grows by exactly
    /// `spec_emit` of the payload.
    pub fn add_record(&mut self, data: &[u8])
        requires
            old(self).wf(),
        ensures
            final(self).wf(),
            final(self).dest@ == old(self).dest@ + spec_emit(
                old(self).block_offset as int,
                data@,
                true,
            ),
            final(self).block_offset == spec_emit_end(old(self).block_offset as int, data@, true),
    {
        let ghost full = spec_emit(old(self).block_offset as int, data@, true);
        let ghost full_end = spec_emit_end(old(self).block_offset as int, data@, true);
        let mut begin: bool = true;
        let mut idx: usize = 0;
        proof {
            assert(data@.skip(0) =~= data@);
        }
        loop
            invariant_except_break
                old(self).dest@ + full == self.dest@ + spec_emit(
                    self.block_offset as int,
                    data@.skip(idx as int),
                    begin,
                ),
                full_end == spec_emit_end(self.block_offset as int, data@.skip(idx as int), begin),
            invariant
                self.wf(),
                idx <= data@.len(),
            ensures
                self.wf(),
                self.dest@ == old(self).dest@ + full,
                self.block_offset == full_end,
            decreases data@.len() - idx, emit_phase(self.block_offset as int),
        {
            let ghost rem = data@.skip(idx as int);
            let leftover = BLOCK_SIZE - self.block_offset;
            if leftover < HEADER_SIZE {
                let ghost pre = self.dest@;
                let ghost off_before = self.block_offset;
                let mut j: usize = 0;
                while j < leftover
                    invariant
                        j <= leftover,
                        self.block_offset == off_before,
                        self.dest@ == pre + spec_zeros(j as nat),
                        self.wf(),
                    decreases leftover - j,
                {
                    proof {
                        assert(pre + spec_zeros(j as nat) + seq![0u8] =~= pre + spec_zeros(
                            (j + 1) as nat,
                        ));
                    }
                    self.dest.push(0);
                    j = j + 1;
                }
                proof {
                    assert(spec_emit(self.block_offset as int, rem, begin) == spec_zeros(
                        leftover as nat,
                    ) + spec_emit(0, rem, begin));
                    assert(old(self).dest@ + full == (pre + spec_zeros(leftover as nat))
                        + spec_emit(0, rem, begin)) by {
                        assert(pre + (spec_zeros(leftover as nat) + spec_emit(0, rem, begin)) =~= (
                        pre + spec_zeros(leftover as nat)) + spec_emit(0, rem, begin));
                    }
                }
                self.block_offset = 0;
            } else {
                let avail = BLOCK_SIZE - self.block_offset - HEADER_SIZE;
                let rem_len = data.len() - idx;
                let frag_len = if rem_len < avail {
                    rem_len
                } else {
                    avail
                };
                let end = frag_len == rem_len;
                let typ = if begin && end {
                    RecordType::Full
                } else if begin {
                    RecordType::First
                } else if end {
                    RecordType::Last
                } else {
                    RecordType::Middle
                };
                let ghost off0 = self.block_offset as int;
                let ghost pre = self.dest@;
                proof {
                    assert(rem.take(frag_len as int) =~= data@.subrange(
                        idx as int,
                        idx as int + frag_len as int,
                    ));
                    assert(rem.skip(frag_len as int) =~= data@.skip(idx as int + frag_len as int));
                    assert(spec_type_tag(typ) == spec_frag_type(begin, end));
                }
                self.emit_physical_record(typ, &data[idx..idx + frag_len]);
                let ghost rec = spec_record_bytes(spec_frag_type(begin, end), rem.take(
                    frag_len as int,
                ));
                proof {
                    if end {
                        assert(spec_emit(off0, rem, begin) == rec);
                        assert(self.dest@ == old(self).dest@ + full) by {
                            assert(pre + spec_emit(off0, rem, begin) =~= pre + rec);
                        }
                        assert(spec_emit_end(off0, rem, begin) == off0 + HEADER_SIZE
                            + frag_len as int);
                        assert(self.block_offset == full_end);
                    } else {
                        assert(spec_emit(off0, rem, begin) == rec + spec_emit(
                            off0 + HEADER_SIZE + frag_len as int,
                            rem.skip(frag_len as int),
                            false,
                        ));
                        assert(old(self).dest@ + full == (pre + rec) + spec_emit(
                            off0 + HEADER_SIZE + frag_len as int,
                            rem.skip(frag_len as int),
                            false,
                        )) by {
                            assert(pre + (rec + spec_emit(
                                off0 + HEADER_SIZE + frag_len as int,
                                rem.skip(frag_len as int),
                                false,
                            )) =~= (pre + rec) + spec_emit(
                                off0 + HEADER_SIZE + frag_len as int,
                                rem.skip(frag_len as int),
                                false,
                            ));
                        }
                    }
                }
                idx = idx + frag_len;
                begin = false;
                if end {
                    break ;
                }
            }
        }
    }

    fn emit_physical_record(&mut self, t: RecordType, payload: &[u8])
        requires
            old(self).wf(),
            old(self).block_offset + HEADER_SIZE + payload@.len() <= BLOCK_SIZE,
        ensures
            final(self).wf(),
            final(self).dest@ == old(self).dest@ + spec_record_bytes(spec_type_tag(t), payload@),
            final(self).block_offset == old(self).block_offset + HEADER_SIZE + payload@.len(),
    {
        let n = payload.len();
        let tag = t.as_u8();
        let mut header: Vec<u8> = Vec::new();
        header.push(0);
        header.push(0);
        header.push(0);
        header.push(0);
        header.push((n & 0xFF) as u8);
        header.push(((n >> 8) & 0xFF) as u8);
        header.push(tag);
        let crc = crc32c::extend(self.type_crc[tag as usize], payload);
        let masked = crc32c::mask(crc);
        crc32c::put_fixed32_le(&mut header, masked);
        proof {
            assert((n & 0xFF) as u8 == (n % 256) as u8 && ((n >> 8) & 0xFF) as u8 == ((n / 256)
                % 256) as u8) by (bit_vector)
                requires
                    n < 65536,
            ;
            assert(seq![(tag as int) as u8] =~= seq![tag]);
            crc32c::lemma_extend_is_concat(seq![tag], payload@);
            assert(header@ =~= spec_record_header(spec_type_tag(t), payload@));
        }
        let ghost pre = self.dest@;
        self.dest.extend_from_slice(header.as_slice());
        self.dest.extend_from_slice(payload);
        self.block_offset = self.block_offset + HEADER_SIZE + n;
        proof {
            assert(self.dest@ =~= pre + spec_record_bytes(spec_type_tag(t), payload@));
        }
    }

    /// Hands the accumulated byte stream back.
    pub fn into_inner(self) -> (r: Vec<u8>)
        ensures
            r@ == self.dest@,
    {
        self.dest
    }
}

/// The sequence of record-type tags of the physical records emitted for
/// one logical record, in emission order (the types standing in
/// `spec_emit`'s headers).
pub open spec fn spec_emit_types(off: int, data: Seq<u8>, begin: bool) -> Seq<u8>
    decreases data.len(), emit_phase(off),
{
    if BLOCK_SIZE - off < HEADER_SIZE {
        spec_emit_types(0, data, begin)
    } else {
        let avail = BLOCK_SIZE - off - HEADER_SIZE;
        let frag: int = if data.len() <= avail {
            data.len() as int
        } else {
            avail
        };
        let end = frag == data.len();
        if end {
            seq![spec_frag_type(begin, end)]
        } else {
            seq![spec_frag_type(begin, end)] + spec_emit_types(
                off + HEADER_SIZE + frag,
                data.skip(frag),
                false,
            )
        }
    }
}

/// Trailer law: when fewer than `HEADER_SIZE` bytes remain in the current
/// block, the writer pads them all with zeros, and the record itself
/// starts at the next block boundary.
pub proof fn lemma_trailer_padding(off: int, data: Seq<u8>)
    requires
        0 <= off <= BLOCK_SIZE,
        BLOCK_SIZE - off < HEADER_SIZE,
    ensures
        spec_emit(off, data, true) == spec_zeros((BLOCK_SIZE - off) as nat) + spec_emit(
            0,
            data,
            true,
        ),
        forall|i: int| 0 <= i < BLOCK_SIZE - off ==> spec_emit(off, data, true)[i] == 0,
{
    let pad = (BLOCK_SIZE - off) as nat;
    assert forall|i: int| 0 <= i < BLOCK_SIZE - off implies spec_emit(off, data, true)[i]
        == 0 by {
        assert(spec_emit(off, data, true)[i] == spec_zeros(pad)[i]);
    }
}

proof fn lemma_frag_shape(data: Seq<u8>, k: int, r: int, begin: bool)
    requires
        0 <= k,
        0 < r,
        7 * k + r <= 32761,
        data.len() == 32768 * k + r,
    ensures
        ({
            let tys = spec_emit_types(0, data, begin);
            &&& tys.len() == k + 1
            &&& tys[0] == spec_frag_type(begin, k == 0)
            &&& forall|i: int| 1 <= i < k ==> tys[i] == 3
            &&& k >= 1 ==> tys[k] == 4
        }),
    decreases k,
{
    let tys = spec_emit_types(0, data, begin);
    let avail = BLOCK_SIZE - HEADER_SIZE;
    if k == 0 {
        assert(data.len() <= avail);
    } else {
        assert(data.len() > avail);
        let data2 = data.skip(avail as int);
        assert(data2.len() == 32768 * (k - 1) + (r + 7));
        lemma_frag_shape(data2, k - 1, r + 7, false);
        let tys2 = spec_emit_types(0, data2, false);
        assert(spec_emit_types(BLOCK_SIZE as int, data2, false) == tys2);
        assert(tys =~= seq![spec_frag_type(begin, false)] + tys2);
        assert forall|i: int| 1 <= i < k implies tys[i] == 3 by {
            assert(tys[i] == tys2[i - 1]);
            if i - 1 == 0 {
                assert(tys2[0] == spec_frag_type(false, k - 1 == 0));
            }
        }
        if k >= 1 {
            assert(tys[k] == tys2[k - 1]);
            if k == 1 {
                assert(tys2[0] == spec_frag_type(false, true));
            }
        }
    }
}

/// Fragmentation law: a record of `32768·k + r` bytes added at a block
/// boundary is emitted as one First, `k − 1` Middle and one Last physical
/// record, whenever `0 < r` and the `7·k` bytes of interior headers still
/// leave room in the final block (`7·k + r ≤ 32761`).
pub proof fn lemma_fragmentation(data: Seq<u8>, k: int, r: int)
    requires
        1 <= k,
        0 < r,
        7 * k + r <= 32761,
        data.len() == 32768 * k + r,
    ensures
        ({
            let tys = spec_emit_types(0, data, true);
            &&& tys.len() == k + 1
            &&& tys[0] == 2
            &&& forall|i: int| 1 <= i < k ==> tys[i] == 3
            &&& tys[k] == 4
        }),
{
    lemma_frag_shape(data, k, r, true);
}

fn crc_of_type(t: u8) -> (r: u32)
    ensures
        r == crc32c::spec_crc32c(seq![t]),
{
    let mut v: Vec<u8> = Vec::new();
    v.push(t);
    proof {
        assert(v@ =~= seq![t]);
    }
    crc32c::value(v.as_slice())
}

fn make_type_crcs() -> (v: Vec<u32>)
    ensures
        v@.len() == MAX_RECORD_TYPE + 1,
        forall|i: int|
            0 <= i <= MAX_RECORD_TYPE ==> v@[i] == crc32c::spec_crc32c(seq![i as u8]),
{
    let mut v: Vec<u32> = Vec::new();
    let mut i: usize = 0;
    while i <= MAX_RECORD_TYPE
        invariant
            i <= MAX_RECORD_TYPE + 1,
            v@.len() == i,
            forall|k: int| 0 <= k < i ==> v@[k] == crc32c::spec_crc32c(seq![k as u8]),
        decreases MAX_RECORD_TYPE + 1 - i,
    {
        v.push(crc_of_type(i as u8));
        i = i + 1;
    }
    v
}

} // verus!
