//! Round-trip laws tying the log writer to the log reader: a stream
//! produced by `spec_emit` is read back record for record, in order, with
//! no corruption reports.
use vstd::prelude::*;

use crate::crc32c;
use crate::wal_format::{BLOCK_SIZE, HEADER_SIZE};
use crate::wal_reader::{
    spec_phys_step, spec_read_step, at_eof, win_end, win_start, Report, SpecPhys, SpecRead,
};
use crate::wal_writer::{
    spec_emit, spec_emit_end, spec_frag_type, spec_len_hi, spec_len_lo, spec_record_bytes,
    spec_record_header, spec_zeros, emit_phase,
};

verus! {

/// Where the first physical record of an emission starting at `pos`
/// lands: at `pos` itself, or just past the zero-padded trailer.
pub open spec fn first_rec_pos(pos: int) -> int {
    if BLOCK_SIZE - pos % (BLOCK_SIZE as int) < HEADER_SIZE {
        pos + (BLOCK_SIZE - pos % (BLOCK_SIZE as int))
    } else {
        pos
    }
}

/// An emission always holds at least one whole header.
pub proof fn lemma_emit_min_len(off: int, data: Seq<u8>, begin: bool)
    requires
        0 <= off <= BLOCK_SIZE,
    ensures
        spec_emit(off, data, begin).len() >= HEADER_SIZE,
{
    if BLOCK_SIZE - off < HEADER_SIZE {
        assert(spec_emit(0, data, begin).len() >= HEADER_SIZE);
    }
}

/// Starting a record at offset `BLOCK_SIZE` is the same as starting it at
/// a fresh block boundary.
pub proof fn lemma_emit_block_edge(data: Seq<u8>, begin: bool)
    ensures
        spec_emit(BLOCK_SIZE as int, data, begin) == spec_emit(0, data, begin),
        spec_emit_end(BLOCK_SIZE as int, data, begin) == spec_emit_end(0, data, begin),
{
    assert(spec_zeros(0) + spec_emit(0, data, begin) =~= spec_emit(0, data, begin));
}

/// The final block offset of an emission lies between one header and one
/// block.
pub proof fn lemma_emit_end_bounds(off: int, data: Seq<u8>, begin: bool)
    requires
        0 <= off <= BLOCK_SIZE,
    ensures
        HEADER_SIZE <= spec_emit_end(off, data, begin) <= BLOCK_SIZE,
    decreases data.len(), emit_phase(off),
{
    if BLOCK_SIZE - off < HEADER_SIZE {
        lemma_emit_end_bounds(0, data, begin);
    } else {
        let avail = BLOCK_SIZE - off - HEADER_SIZE;
        let frag: int = if data.len() <= avail {
            data.len() as int
        } else {
            avail
        };
        if frag != data.len() {
            lemma_emit_end_bounds(off + HEADER_SIZE + frag, data.skip(frag), false);
        }
    }
}

/// The final block offset agrees, modulo the block size, with the start
/// offset plus the number of emitted bytes.
pub proof fn lemma_emit_end_mod(off: int, data: Seq<u8>, begin: bool)
    requires
        0 <= off <= BLOCK_SIZE,
    ensures
        spec_emit_end(off, data, begin) % (BLOCK_SIZE as int) == (off + spec_emit(
            off,
            data,
            begin,
        ).len()) % (BLOCK_SIZE as int),
    decreases data.len(), emit_phase(off),
{
    let b = BLOCK_SIZE as int;
    if BLOCK_SIZE - off < HEADER_SIZE {
        lemma_emit_end_mod(0, data, begin);
        let rest = spec_emit(0, data, begin).len();
        assert(off + spec_emit(off, data, begin).len() == b + rest);
        vstd::arithmetic::div_mod::lemma_mod_multiples_vanish(1, rest as int, b);
    } else {
        let avail = BLOCK_SIZE - off - HEADER_SIZE;
        let frag: int = if data.len() <= avail {
            data.len() as int
        } else {
            avail
        };
        if frag != data.len() {
            lemma_emit_end_mod(off + HEADER_SIZE + frag, data.skip(frag), false);
        }
    }
}

/// A physical record freshly emitted by the writer scans back as exactly
/// that record: same type byte, same payload, consuming header plus
/// payload.
proof fn lemma_phys_read_rec(src: Seq<u8>, initial: int, pos: int, typ: u8, payload: Seq<u8>)
    requires
        0 <= initial,
        0 <= pos,
        1 <= typ <= 4,
        pos % (BLOCK_SIZE as int) + HEADER_SIZE + payload.len() <= BLOCK_SIZE,
        pos + HEADER_SIZE + payload.len() <= src.len(),
        src.subrange(pos, pos + HEADER_SIZE + payload.len()) == spec_record_bytes(typ, payload),
    ensures
        spec_phys_step(src, true, initial, pos) == (if pos >= initial {
            SpecPhys::Rec {
                typ,
                data: payload,
                rec_off: pos,
                new_pos: pos + HEADER_SIZE + payload.len(),
            }
        } else {
            SpecPhys::Bad { new_pos: pos + HEADER_SIZE + payload.len(), report: None }
        }),
{
    let b = BLOCK_SIZE as int;
    let len = src.len() as int;
    let n = payload.len() as int;
    let ws = win_start(pos);
    let we = win_end(len, pos);
    let rec = spec_record_bytes(typ, payload);
    let hdr = spec_record_header(typ, payload);
    assert(pos + HEADER_SIZE + n <= ws + b);
    assert(we >= pos + HEADER_SIZE + n);
    assert forall|i: int| 0 <= i < HEADER_SIZE + n implies src[pos + i] == rec[i] by {
        assert(src.subrange(pos, pos + HEADER_SIZE + n)[i] == src[pos + i]);
    }
    assert(rec[4] == hdr[4] && rec[5] == hdr[5] && rec[6] == hdr[6]);
    assert(src[pos + 4] == spec_len_lo(payload.len()));
    assert(src[pos + 5] == spec_len_hi(payload.len()));
    assert(src[pos + 6] == typ);
    let l = (src[pos + 4] as int) + 256 * (src[pos + 5] as int);
    assert(n < 65536);
    assert(n / 256 < 256) by (nonlinear_arith)
        requires
            0 <= n < 65536,
    ;
    vstd::arithmetic::div_mod::lemma_fundamental_div_mod(n, 256);
    vstd::arithmetic::div_mod::lemma_small_mod((n / 256) as nat, 256);
    assert(l == n);
    let m = crc32c::spec_mask(crc32c::spec_crc32c(seq![typ] + payload));
    assert(rec[0] == hdr[0] && rec[1] == hdr[1] && rec[2] == hdr[2] && rec[3] == hdr[3]);
    assert(crc32c::spec_le32(src[pos], src[pos + 1], src[pos + 2], src[pos + 3]) == m) by {
        crc32c::lemma_fixed32_roundtrip(m);
    }
    crc32c::lemma_mask_unmask_roundtrip(crc32c::spec_crc32c(seq![typ] + payload));
    assert(src.subrange(pos + HEADER_SIZE, pos + HEADER_SIZE + l) =~= payload) by {
        assert forall|j: int| 0 <= j < n implies src[pos + HEADER_SIZE + j] == payload[j] by {
            assert(src[pos + HEADER_SIZE + j] == rec[HEADER_SIZE + j]);
            assert(rec[HEADER_SIZE + j] == payload[j]);
        }
    }
}

/// Reading a stream that begins with the writer's emission of `data`
/// returns `scratch + data` (the fragments already gathered plus the new
/// payload), stops exactly at the emission's end, reports nothing, and
/// attributes the record to the right offset.
#[verifier::rlimit(100)]
#[verifier::spinoff_prover]
pub proof fn lemma_read_emitted(
    src: Seq<u8>,
    initial: int,
    pos: int,
    data: Seq<u8>,
    resync: bool,
    in_frag: bool,
    scratch: Seq<u8>,
    prospect: int,
)
    requires
        0 <= initial <= pos,
        !in_frag ==> scratch == Seq::<u8>::empty(),
        in_frag ==> !resync,
        pos + spec_emit(pos % (BLOCK_SIZE as int), data, !in_frag).len() <= src.len(),
        src.subrange(
            pos,
            pos + spec_emit(pos % (BLOCK_SIZE as int), data, !in_frag).len(),
        ) == spec_emit(pos % (BLOCK_SIZE as int), data, !in_frag),
    ensures
        ({
            let st = spec_read_step(src, true, initial, pos, resync, in_frag, scratch, prospect);
            &&& st.found == true
            &&& st.payload == scratch + data
            &&& st.rec_off == (if in_frag {
                prospect
            } else {
                first_rec_pos(pos)
            })
            &&& st.new_pos == pos + spec_emit(pos % (BLOCK_SIZE as int), data, !in_frag).len()
            &&& st.resync == false
            &&& st.reports == Seq::<Report>::empty()
        }),
    decreases data.len(), emit_phase(pos % (BLOCK_SIZE as int)),
{
    let b = BLOCK_SIZE as int;
    let len = src.len() as int;
    let off = pos % b;
    let begin = !in_frag;
    let e = spec_emit(off, data, begin);
    let ws = win_start(pos);
    let we = win_end(len, pos);
    if b - off < HEADER_SIZE {
        // Trailer: the reader hops to the next block boundary, where the
        // rest of the emission begins.
        let pad = b - off;
        let pos2 = pos + pad;
        let e2 = spec_emit(0, data, begin);
        lemma_emit_min_len(0, data, begin);
        assert(ws + b == pos2);
        assert(len >= pos2);
        assert(we - pos < HEADER_SIZE);
        assert(!at_eof(len, pos));
        assert(pos2 % b == 0) by {
            vstd::arithmetic::div_mod::lemma_fundamental_div_mod(pos, b);
            vstd::arithmetic::div_mod::lemma_mod_multiples_vanish(pos / b + 1, 0, b);
            assert(pos2 == b * (pos / b + 1) + 0);
        }
        assert(src.subrange(pos2, pos2 + e2.len()) =~= e2) by {
            assert forall|i: int| 0 <= i < e2.len() implies src.subrange(
                pos2,
                pos2 + e2.len(),
            )[i] == e2[i] by {
                assert(src[pos2 + i] == src.subrange(pos, pos + e.len())[pad + i]);
                assert(e[pad + i] == (spec_zeros(pad as nat) + e2)[pad + i]);
            }
        }
        lemma_read_emitted(src, initial, pos2, data, resync, in_frag, scratch, prospect);
        assert(spec_phys_step(src, true, initial, pos) == spec_phys_step(src, true, initial, pos2));
        assert(spec_read_step(src, true, initial, pos, resync, in_frag, scratch, prospect)
            == spec_read_step(src, true, initial, pos2, resync, in_frag, scratch, prospect));
        assert(first_rec_pos(pos2) == first_rec_pos(pos));
    } else {
        let avail = b - off - HEADER_SIZE;
        let frag: int = if data.len() <= avail {
            data.len() as int
        } else {
            avail
        };
        let end = frag == data.len();
        let typ = spec_frag_type(begin, end);
        let head = data.take(frag);
        let rec = spec_record_bytes(typ, head);
        assert(head.len() == frag);
        assert(rec.len() == HEADER_SIZE + frag);
        assert(src.subrange(pos, pos + rec.len()) =~= rec) by {
            assert forall|i: int| 0 <= i < rec.len() implies src.subrange(pos, pos + rec.len())[i]
                == rec[i] by {
                assert(src[pos + i] == src.subrange(pos, pos + e.len())[i]);
                if end {
                    assert(e[i] == rec[i]);
                } else {
                    assert(e[i] == (rec + spec_emit(off + HEADER_SIZE + frag, data.skip(frag), false))[i]);
                }
            }
        }
        lemma_phys_read_rec(src, initial, pos, typ, head);
        let new_pos = pos + HEADER_SIZE + frag;
        if end {
            assert(head =~= data);
            if in_frag {
                // typ == 4: Last closes the fragmented record.
                assert(typ == 4);
            } else {
                // typ == 1: Full record returned directly.
                assert(typ == 1);
                assert(scratch + data =~= data);
            }
        } else {
            let data2 = data.skip(frag);
            let e2 = spec_emit(off + HEADER_SIZE + frag, data2, false);
            assert(e =~= rec + e2);
            let pos2 = new_pos;
            // Block offset of the continuation.
            if off + HEADER_SIZE + frag == b {
                assert(pos2 % b == 0) by {
                    vstd::arithmetic::div_mod::lemma_fundamental_div_mod(pos, b);
                    vstd::arithmetic::div_mod::lemma_mod_multiples_vanish(pos / b + 1, 0, b);
                    assert(pos2 == b * (pos / b + 1) + 0);
                }
                lemma_emit_block_edge(data2, false);
                assert(e2 == spec_emit(pos2 % b, data2, false));
            } else {
                assert(pos2 % b == off + HEADER_SIZE + frag) by {
                    vstd::arithmetic::div_mod::lemma_fundamental_div_mod(pos, b);
                    vstd::arithmetic::div_mod::lemma_mod_multiples_vanish(
                        pos / b,
                        off + HEADER_SIZE + frag,
                        b,
                    );
                    vstd::arithmetic::div_mod::lemma_small_mod(
                        (off + HEADER_SIZE + frag) as nat,
                        BLOCK_SIZE as nat,
                    );
                    assert(pos2 == b * (pos / b) + (off + HEADER_SIZE + frag));
                }
            }
            assert(src.subrange(pos2, pos2 + e2.len()) =~= e2) by {
                assert forall|i: int| 0 <= i < e2.len() implies src.subrange(
                    pos2,
                    pos2 + e2.len(),
                )[i] == e2[i] by {
                    assert(src[pos2 + i] == src.subrange(pos, pos + e.len())[rec.len() + i]);
                    assert(e[rec.len() + i] == e2[i]);
                }
            }
            if begin {
                // typ == 2: First stashes the head and continues.
                assert(typ == 2);
                lemma_read_emitted(src, initial, pos2, data2, false, true, head, pos);
                let st2 = spec_read_step(src, true, initial, pos2, false, true, head, pos);
                assert(st2.payload == head + data2);
                assert(head + data2 =~= data);
                assert(scratch + data =~= data);
            } else {
                // typ == 3: Middle appends to the gathered fragments.
                assert(typ == 3);
                lemma_read_emitted(src, initial, pos2, data2, false, true, scratch + head, prospect);
                let st2 = spec_read_step(
                    src,
                    true,
                    initial,
                    pos2,
                    false,
                    true,
                    scratch + head,
                    prospect,
                );
                assert(st2.payload == (scratch + head) + data2);
                assert((scratch + head) + data2 =~= scratch + data) by {
                    assert(head + data2 =~= data);
                    assert((scratch + head) + data2 =~= scratch + (head + data2));
                }
            }
        }
    }
}

/// The bytes of a whole log: each record emitted where the previous one
/// ended.
pub open spec fn spec_emit_all(off: int, records: Seq<Seq<u8>>) -> Seq<u8>
    decreases records.len(),
{
    if records.len() == 0 {
        Seq::empty()
    } else {
        spec_emit(off, records[0], true) + spec_emit_all(
            spec_emit_end(off, records[0], true),
            records.skip(1),
        )
    }
}

/// The outcomes of up to `fuel` successive `read_record` calls on a
/// reader opened at offset 0, stopping after the first call that finds no
/// record.
pub open spec fn spec_read_trace(src: Seq<u8>, pos: int, fuel: nat) -> Seq<SpecRead>
    decreases fuel,
{
    if fuel == 0 {
        Seq::empty()
    } else {
        let st = spec_read_step(src, true, 0, pos, false, false, Seq::empty(), 0);
        if st.found {
            seq![st] + spec_read_trace(src, st.new_pos, (fuel - 1) as nat)
        } else {
            seq![st]
        }
    }
}

/// Reading at the very end of the source is a clean end of file.
pub proof fn lemma_read_eof(src: Seq<u8>, pos: int)
    requires
        pos == src.len(),
    ensures
        ({
            let st = spec_read_step(src, true, 0, pos, false, false, Seq::empty(), 0);
            &&& st.found == false
            &&& st.reports == Seq::<Report>::empty()
        }),
{
}

/// A whole log starting at offset `BLOCK_SIZE` is the same as one starting
/// at a fresh block boundary.
pub proof fn lemma_emit_all_block_edge(records: Seq<Seq<u8>>)
    ensures
        spec_emit_all(BLOCK_SIZE as int, records) == spec_emit_all(0, records),
{
    if records.len() != 0 {
        lemma_emit_block_edge(records[0], true);
    }
}

/// Reading a source whose tail from `pos` on holds exactly the emissions
/// of `records` returns them in order, with a clean end of file and no
/// corruption reports.
proof fn lemma_read_stream(src: Seq<u8>, pos: int, records: Seq<Seq<u8>>)
    requires
        0 <= pos,
        pos + spec_emit_all(pos % (BLOCK_SIZE as int), records).len() == src.len(),
        src.subrange(pos, src.len() as int) == spec_emit_all(pos % (BLOCK_SIZE as int), records),
    ensures
        ({
            let tr = spec_read_trace(src, pos, (records.len() + 1) as nat);
            &&& tr.len() == records.len() + 1
            &&& forall|i: int|
                0 <= i < records.len() ==> (#[trigger] tr[i]).found && tr[i].payload == records[i]
                    && tr[i].reports == Seq::<Report>::empty()
            &&& tr[records.len() as int].found == false
            &&& tr[records.len() as int].reports == Seq::<Report>::empty()
        }),
    decreases records.len(),
{
    let b = BLOCK_SIZE as int;
    let off = pos % b;
    let tr = spec_read_trace(src, pos, (records.len() + 1) as nat);
    if records.len() == 0 {
        assert(pos == src.len());
        lemma_read_eof(src, pos);
        assert(tr =~= seq![spec_read_step(src, true, 0, pos, false, false, Seq::empty(), 0)]);
    } else {
        let r0 = records[0];
        let e0 = spec_emit(off, r0, true);
        let endoff = spec_emit_end(off, r0, true);
        let rest = records.skip(1);
        let e_rest = spec_emit_all(endoff, rest);
        assert(src.subrange(pos, pos + e0.len()) =~= e0) by {
            assert forall|i: int| 0 <= i < e0.len() implies src.subrange(pos, pos + e0.len())[i]
                == e0[i] by {
                assert(src[pos + i] == src.subrange(pos, src.len() as int)[i]);
                assert((e0 + e_rest)[i] == e0[i]);
            }
        }
        lemma_read_emitted(src, 0, pos, r0, false, false, Seq::empty(), 0);
        let st = spec_read_step(src, true, 0, pos, false, false, Seq::empty(), 0);
        assert(st.payload =~= r0);
        let pos2 = pos + e0.len();
        lemma_emit_end_bounds(off, r0, true);
        lemma_emit_end_mod(off, r0, true);
        assert(pos2 % b == endoff % b) by {
            vstd::arithmetic::div_mod::lemma_fundamental_div_mod(pos, b);
            vstd::arithmetic::div_mod::lemma_mod_multiples_vanish(
                pos / b,
                off + e0.len(),
                b,
            );
            assert(pos2 == b * (pos / b) + (off + e0.len()));
        }
        let e_rest2 = spec_emit_all(pos2 % b, rest);
        assert(e_rest2 == e_rest) by {
            if endoff == b {
                vstd::arithmetic::div_mod::lemma_mod_multiples_vanish(1, 0, b);
                assert(endoff % b == 0);
                lemma_emit_all_block_edge(rest);
            } else {
                vstd::arithmetic::div_mod::lemma_small_mod(endoff as nat, BLOCK_SIZE as nat);
            }
        }
        assert(src.subrange(pos2, src.len() as int) =~= e_rest2) by {
            assert forall|i: int| 0 <= i < e_rest.len() implies src.subrange(
                pos2,
                src.len() as int,
            )[i] == e_rest[i] by {
                assert(src[pos2 + i] == src.subrange(pos, src.len() as int)[e0.len() + i]);
                assert((e0 + e_rest)[e0.len() + i] == e_rest[i]);
            }
        }
        lemma_read_stream(src, pos2, rest);
        let tr2 = spec_read_trace(src, pos2, (rest.len() + 1) as nat);
        assert(tr =~= seq![st] + tr2);
        assert forall|i: int| 0 <= i < records.len() implies (#[trigger] tr[i]).found
            && tr[i].payload == records[i] && tr[i].reports == Seq::<Report>::empty() by {
            if i == 0 {
                assert(tr[0] == st);
            } else {
                assert(tr[i] == tr2[i - 1]);
                assert(rest[i - 1] == records[i]);
            }
        }
        assert(tr[records.len() as int] == tr2[rest.len() as int]);
    }
}

/// WAL framing round trip: a log holding exactly the records handed to
/// `add_record`, in order, written from a block boundary, is read back
/// identically and in order by successive `read_record` calls, with no
/// corruption reports; the call after the last record reports a clean end
/// of file.
pub proof fn lemma_wal_round_trip(records: Seq<Seq<u8>>)
    ensures
        ({
            let src = spec_emit_all(0, records);
            let tr = spec_read_trace(src, 0, (records.len() + 1) as nat);
            &&& tr.len() == records.len() + 1
            &&& forall|i: int|
                0 <= i < records.len() ==> (#[trigger] tr[i]).found && tr[i].payload == records[i]
                    && tr[i].reports == Seq::<Report>::empty()
            &&& tr[records.len() as int].found == false
            &&& tr[records.len() as int].reports == Seq::<Report>::empty()
        }),
{
    let src = spec_emit_all(0, records);
    assert(src.subrange(0, src.len() as int) =~= src);
    lemma_read_stream(src, 0, records);
}

/// While resynchronising, the remaining fragments of an interrupted
/// record are passed over with no report: fragments that started before
/// the initial offset are swallowed as pre-initial records, later ones
/// are skipped by the resynchronisation flag. Afterwards the reader
/// stands at the end of that record's emission; the flag is clear if the
/// closing fragment lay at or past the initial offset, and may still be
/// set otherwise.
#[verifier::rlimit(100)]
#[verifier::spinoff_prover]
proof fn lemma_resync_skip(src: Seq<u8>, initial: int, pos: int, data: Seq<u8>, prospect: int)
    requires
        0 <= initial,
        0 <= pos,
        pos + spec_emit(pos % (BLOCK_SIZE as int), data, false).len() <= src.len(),
        src.subrange(
            pos,
            pos + spec_emit(pos % (BLOCK_SIZE as int), data, false).len(),
        ) == spec_emit(pos % (BLOCK_SIZE as int), data, false),
    ensures
        ({
            let end = pos + spec_emit(pos % (BLOCK_SIZE as int), data, false).len();
            spec_read_step(src, true, initial, pos, true, false, Seq::empty(), prospect)
                == spec_read_step(src, true, initial, end, false, false, Seq::empty(), prospect)
                || spec_read_step(src, true, initial, pos, true, false, Seq::empty(), prospect)
                == spec_read_step(src, true, initial, end, true, false, Seq::empty(), prospect)
        }),
    decreases data.len(), emit_phase(pos % (BLOCK_SIZE as int)),
{
    let b = BLOCK_SIZE as int;
    let off = pos % b;
    let len = src.len() as int;
    let e = spec_emit(off, data, false);
    let end = pos + e.len();
    let ws = win_start(pos);
    let we = win_end(len, pos);
    if b - off < HEADER_SIZE {
        let pad = b - off;
        let pos2 = pos + pad;
        let e2 = spec_emit(0, data, false);
        lemma_emit_min_len(0, data, false);
        assert(ws + b == pos2);
        assert(len >= pos2);
        assert(we - pos < HEADER_SIZE);
        assert(!at_eof(len, pos));
        assert(pos2 % b == 0) by {
            vstd::arithmetic::div_mod::lemma_fundamental_div_mod(pos, b);
            vstd::arithmetic::div_mod::lemma_mod_multiples_vanish(pos / b + 1, 0, b);
            assert(pos2 == b * (pos / b + 1) + 0);
        }
        assert(src.subrange(pos2, pos2 + e2.len()) =~= e2) by {
            assert forall|i: int| 0 <= i < e2.len() implies src.subrange(
                pos2,
                pos2 + e2.len(),
            )[i] == e2[i] by {
                assert(src[pos2 + i] == src.subrange(pos, pos + e.len())[pad + i]);
                assert(e[pad + i] == (spec_zeros(pad as nat) + e2)[pad + i]);
            }
        }
        lemma_resync_skip(src, initial, pos2, data, prospect);
        assert(spec_phys_step(src, true, initial, pos) == spec_phys_step(src, true, initial, pos2));
        assert(spec_read_step(src, true, initial, pos, true, false, Seq::empty(), prospect)
            == spec_read_step(src, true, initial, pos2, true, false, Seq::empty(), prospect));
    } else {
        let avail = b - off - HEADER_SIZE;
        let frag: int = if data.len() <= avail {
            data.len() as int
        } else {
            avail
        };
        let fin = frag == data.len();
        let typ = spec_frag_type(false, fin);
        let head = data.take(frag);
        let rec = spec_record_bytes(typ, head);
        assert(head.len() == frag);
        assert(rec.len() == HEADER_SIZE + frag);
        assert(src.subrange(pos, pos + rec.len()) =~= rec) by {
            assert forall|i: int| 0 <= i < rec.len() implies src.subrange(pos, pos + rec.len())[i]
                == rec[i] by {
                assert(src[pos + i] == src.subrange(pos, pos + e.len())[i]);
                if fin {
                    assert(e[i] == rec[i]);
                } else {
                    assert(e[i] == (rec + spec_emit(off + HEADER_SIZE + frag, data.skip(frag), false))[i]);
                }
            }
        }
        lemma_phys_read_rec(src, initial, pos, typ, head);
        let new_pos = pos + HEADER_SIZE + frag;
        if fin {
            // The closing fragment (type Last): swallowed if pre-initial,
            // otherwise skipped with the flag cleared.
            assert(typ == 4);
            assert(new_pos == end);
            if pos < initial {
                let rest = spec_read_step(
                    src,
                    true,
                    initial,
                    new_pos,
                    true,
                    false,
                    Seq::empty(),
                    prospect,
                );
                assert(Seq::<Report>::empty() + Seq::<Report>::empty() + rest.reports
                    =~= rest.reports);
                assert(spec_read_step(src, true, initial, pos, true, false, Seq::empty(), prospect)
                    == rest);
            } else {
                assert(spec_read_step(src, true, initial, pos, true, false, Seq::empty(), prospect)
                    == spec_read_step(src, true, initial, new_pos, false, false, Seq::empty(), prospect));
            }
        } else {
            assert(typ == 3);
            let data2 = data.skip(frag);
            let e2 = spec_emit(off + HEADER_SIZE + frag, data2, false);
            assert(e =~= rec + e2);
            let pos2 = new_pos;
            if off + HEADER_SIZE + frag == b {
                assert(pos2 % b == 0) by {
                    vstd::arithmetic::div_mod::lemma_fundamental_div_mod(pos, b);
                    vstd::arithmetic::div_mod::lemma_mod_multiples_vanish(pos / b + 1, 0, b);
                    assert(pos2 == b * (pos / b + 1) + 0);
                }
                lemma_emit_block_edge(data2, false);
                assert(e2 == spec_emit(pos2 % b, data2, false));
            } else {
                assert(pos2 % b == off + HEADER_SIZE + frag) by {
                    vstd::arithmetic::div_mod::lemma_fundamental_div_mod(pos, b);
                    vstd::arithmetic::div_mod::lemma_mod_multiples_vanish(
                        pos / b,
                        off + HEADER_SIZE + frag,
                        b,
                    );
                    vstd::arithmetic::div_mod::lemma_small_mod(
                        (off + HEADER_SIZE + frag) as nat,
                        BLOCK_SIZE as nat,
                    );
                    assert(pos2 == b * (pos / b) + (off + HEADER_SIZE + frag));
                }
            }
            assert(src.subrange(pos2, pos2 + e2.len()) =~= e2) by {
                assert forall|i: int| 0 <= i < e2.len() implies src.subrange(
                    pos2,
                    pos2 + e2.len(),
                )[i] == e2[i] by {
                    assert(src[pos2 + i] == src.subrange(pos, pos + e.len())[rec.len() + i]);
                    assert(e[rec.len() + i] == e2[i]);
                }
            }
            lemma_resync_skip(src, initial, pos2, data2, prospect);
            if pos < initial {
                let rest = spec_read_step(
                    src,
                    true,
                    initial,
                    pos2,
                    true,
                    false,
                    Seq::empty(),
                    prospect,
                );
                assert(Seq::<Report>::empty() + Seq::<Report>::empty() + rest.reports
                    =~= rest.reports);
                assert(spec_read_step(src, true, initial, pos, true, false, Seq::empty(), prospect)
                    == rest);
            } else {
                assert(spec_read_step(src, true, initial, pos, true, false, Seq::empty(), prospect)
                    == spec_read_step(src, true, initial, pos2, true, false, Seq::empty(), prospect));
            }
        }
    }
}

/// Resynchronisation law: a reader that starts inside a fragmented
/// record — at a fragment boundary `pos` at or before its initial
/// offset, with that offset falling inside the record's remaining
/// emission — skips the rest of that record without reporting anything,
/// and returns the record that follows, whole, leaving resynchronisation
/// mode.
pub proof fn lemma_resync_round_trip(
    src: Seq<u8>,
    initial: int,
    pos: int,
    tail: Seq<u8>,
    next: Seq<u8>,
)
    requires
        0 <= pos <= initial,
        pos + spec_emit(pos % (BLOCK_SIZE as int), tail, false).len() <= src.len(),
        src.subrange(
            pos,
            pos + spec_emit(pos % (BLOCK_SIZE as int), tail, false).len(),
        ) == spec_emit(pos % (BLOCK_SIZE as int), tail, false),
        initial <= pos + spec_emit(pos % (BLOCK_SIZE as int), tail, false).len(),
        ({
            let pos2 = pos + spec_emit(pos % (BLOCK_SIZE as int), tail, false).len();
            &&& pos2 + spec_emit(pos2 % (BLOCK_SIZE as int), next, true).len() <= src.len()
            &&& src.subrange(
                pos2,
                pos2 + spec_emit(pos2 % (BLOCK_SIZE as int), next, true).len(),
            ) == spec_emit(pos2 % (BLOCK_SIZE as int), next, true)
        }),
    ensures
        ({
            let pos2 = pos + spec_emit(pos % (BLOCK_SIZE as int), tail, false).len();
            let st = spec_read_step(src, true, initial, pos, true, false, Seq::empty(), 0);
            &&& st.found
            &&& st.payload == next
            &&& st.new_pos == pos2 + spec_emit(pos2 % (BLOCK_SIZE as int), next, true).len()
            &&& st.resync == false
            &&& st.reports == Seq::<Report>::empty()
        }),
{
    let b = BLOCK_SIZE as int;
    let pos2 = pos + spec_emit(pos % b, tail, false).len();
    lemma_resync_skip(src, initial, pos, tail, 0);
    lemma_read_emitted(src, initial, pos2, next, false, false, Seq::empty(), 0);
    lemma_read_emitted(src, initial, pos2, next, true, false, Seq::empty(), 0);
    assert(Seq::<u8>::empty() + next =~= next);
}

} // verus!

