//! The write-ahead log reader: reassembles logical records from physical
//! records, validates checksums, reports corruption, and can resynchronise
//! when opened at an offset inside a fragmented record.
//!
//! The reader's behaviour is pinned down by two specification machines:
//! `spec_phys_step` gives the outcome of scanning one physical record from
//! an absolute source offset, and `spec_read_step` drives the reassembly
//! state machine over those outcomes. `read_record`'s contract states that
//! it returns exactly what the machine computes.
use vstd::prelude::*;

use crate::crc32c;
use crate::wal_format::{BLOCK_SIZE, HEADER_SIZE};

verus! {

/// Receives a callback for every corrupted region the reader drops at or
/// past its initial offset.
pub trait Reporter {
    fn corruption(&mut self, bytes: usize, reason: &str);
}

/// Why a region of the log was dropped.
#[derive(Clone, Copy, PartialEq, Eq, Structural, Debug)]
pub enum CorruptionKind {
    BadRecordLength,
    ChecksumMismatch,
    MissingStart,
    PartialWithoutEnd,
    MiddleError,
    UnknownType,
}

/// One dropped region: how many bytes were discarded, and why.
#[derive(Clone, Copy, PartialEq, Eq, Structural, Debug)]
pub struct Report {
    pub bytes: usize,
    pub kind: CorruptionKind,
}

pub open spec fn spec_min(a: int, b: int) -> int {
    if a <= b {
        a
    } else {
        b
    }
}

/// Start of the block containing absolute offset `pos`.
pub open spec fn win_start(pos: int) -> int {
    pos - pos % (BLOCK_SIZE as int)
}

/// End of the readable window at `pos`: the block end, clipped to the
/// source length.
pub open spec fn win_end(len: int, pos: int) -> int {
    spec_min(win_start(pos) + BLOCK_SIZE, len)
}

/// True when the block containing `pos` is the last, partially filled one:
/// running out of bytes there is end-of-file, not corruption.
pub open spec fn at_eof(len: int, pos: int) -> bool {
    len < win_start(pos) + BLOCK_SIZE
}

/// The reporting filter: a drop of `bytes` bytes ending at `pos` is
/// reported only when the dropped region lies at or past `initial`.
pub open spec fn spec_report_cond(pos: int, bytes: int, initial: int) -> bool {
    (if pos >= bytes {
        pos - bytes
    } else {
        0
    }) >= initial
}

/// Outcome of scanning one physical record.
pub enum SpecPhys {
    /// No more data; the reader's position ends at `end_pos`.
    Eof { end_pos: int },
    /// A region was dropped (bad length, checksum mismatch, trailer
    /// padding, or a record that started before the initial offset).
    Bad { new_pos: int, report: Option<Report> },
    /// A well-formed physical record.
    Rec { typ: u8, data: Seq<u8>, rec_off: int, new_pos: int },
}

/// Scans one physical record starting at absolute offset `pos`, mirroring
/// a reader that refills a block-sized buffer: when fewer than
/// `HEADER_SIZE` bytes remain in the window, it moves to the next block or
/// reports end-of-file.
pub open spec fn spec_phys_step(src: Seq<u8>, checksum: bool, initial: int, pos: int) -> SpecPhys
    decreases src.len() - pos,
{
    let len = src.len() as int;
    let ws = win_start(pos);
    let we = win_end(len, pos);
    if we - pos < HEADER_SIZE {
        if at_eof(len, pos) {
            SpecPhys::Eof { end_pos: we }
        } else {
            spec_phys_step(src, checksum, initial, ws + BLOCK_SIZE)
        }
    } else {
        let l = (src[pos + 4] as int) + 256 * (src[pos + 5] as int);
        let typ = src[pos + 6];
        if l > we - pos - HEADER_SIZE {
            if at_eof(len, pos) {
                SpecPhys::Eof { end_pos: we }
            } else {
                SpecPhys::Bad {
                    new_pos: we,
                    report: if spec_report_cond(we, we - pos, initial) {
                        Some(
                            Report {
                                bytes: (we - pos) as usize,
                                kind: CorruptionKind::BadRecordLength,
                            },
                        )
                    } else {
                        None
                    },
                }
            }
        } else if typ == 0 && l == 0 {
            SpecPhys::Bad { new_pos: we, report: None }
        } else if checksum && crc32c::spec_unmask(
            crc32c::spec_le32(src[pos], src[pos + 1], src[pos + 2], src[pos + 3]),
        ) != crc32c::spec_crc32c(seq![typ] + src.subrange(pos + HEADER_SIZE, pos + HEADER_SIZE + l)) {
            SpecPhys::Bad {
                new_pos: we,
                report: if spec_report_cond(we, we - pos, initial) {
                    Some(
                        Report {
                            bytes: (we - pos) as usize,
                            kind: CorruptionKind::ChecksumMismatch,
                        },
                    )
                } else {
                    None
                },
            }
        } else if pos < initial {
            SpecPhys::Bad { new_pos: pos + HEADER_SIZE + l, report: None }
        } else {
            SpecPhys::Rec {
                typ,
                data: src.subrange(pos + HEADER_SIZE, pos + HEADER_SIZE + l),
                rec_off: pos,
                new_pos: pos + HEADER_SIZE + l,
            }
        }
    }
}

/// Every physical-record outcome moves the position forward (or ends at
/// the window boundary) and stays within the source.
pub proof fn lemma_phys_step_bounds(src: Seq<u8>, checksum: bool, initial: int, pos: int)
    requires
        0 <= pos,
    ensures
        match spec_phys_step(src, checksum, initial, pos) {
            SpecPhys::Eof { end_pos } => end_pos <= src.len(),
            SpecPhys::Bad { new_pos, .. } => pos < new_pos <= src.len(),
            SpecPhys::Rec { typ, data, rec_off, new_pos } => pos <= rec_off && rec_off >= initial
                && new_pos == rec_off + HEADER_SIZE + data.len() && pos + HEADER_SIZE <= new_pos
                <= src.len(),
        },
    decreases src.len() - pos,
{
    let len = src.len() as int;
    let ws = win_start(pos);
    let we = win_end(len, pos);
    if we - pos < HEADER_SIZE {
        if !at_eof(len, pos) {
            lemma_phys_step_bounds(src, checksum, initial, ws + BLOCK_SIZE);
        }
    }
}

/// The result of one `read_record` call: whether a logical record was
/// found, its payload and starting offset, the reader's new position and
/// resynchronisation flag, and the corruption reports the call produced.
pub struct SpecRead {
    pub found: bool,
    pub payload: Seq<u8>,
    pub rec_off: int,
    pub new_pos: int,
    pub resync: bool,
    pub reports: Seq<Report>,
}

/// Drives the reassembly state machine over physical records, starting at
/// `pos` with resynchronisation flag `resync`, reassembly flag `in_frag`,
/// partial payload `scratch` and the offset `prospect` where the current
/// fragmented record began.
pub open spec fn spec_read_step(
    src: Seq<u8>,
    checksum: bool,
    initial: int,
    pos: int,
    resync: bool,
    in_frag: bool,
    scratch: Seq<u8>,
    prospect: int,
) -> SpecRead
    decreases src.len() - pos,
    via spec_read_step_decreases
{
    match spec_phys_step(src, checksum, initial, pos) {
        SpecPhys::Eof { end_pos } => SpecRead {
            found: false,
            payload: Seq::empty(),
            rec_off: 0,
            new_pos: end_pos,
            resync: resync,
            reports: Seq::empty(),
        },
        SpecPhys::Bad { new_pos, report } => {
            let r1: Seq<Report> = match report {
                Some(rep) => seq![rep],
                None => Seq::empty(),
            };
            let r2: Seq<Report> = if in_frag && spec_report_cond(
                new_pos,
                scratch.len() as int,
                initial,
            ) {
                seq![Report { bytes: scratch.len() as usize, kind: CorruptionKind::MiddleError }]
            } else {
                Seq::empty()
            };
            let rest = spec_read_step(src, checksum, initial, new_pos, resync, false, Seq::empty(), prospect);
            SpecRead { reports: r1 + r2 + rest.reports, ..rest }
        },
        SpecPhys::Rec { typ, data, rec_off, new_pos } => {
            if resync && typ == 3 {
                spec_read_step(src, checksum, initial, new_pos, true, in_frag, scratch, prospect)
            } else if resync && typ == 4 {
                spec_read_step(src, checksum, initial, new_pos, false, in_frag, scratch, prospect)
            } else {
                let rs = false;
                if typ == 1 {
                    let r = if in_frag && scratch.len() > 0 && spec_report_cond(
                        new_pos,
                        scratch.len() as int,
                        initial,
                    ) {
                        seq![
                            Report {
                                bytes: scratch.len() as usize,
                                kind: CorruptionKind::PartialWithoutEnd,
                            },
                        ]
                    } else {
                        Seq::empty()
                    };
                    SpecRead {
                        found: true,
                        payload: data,
                        rec_off: rec_off,
                        new_pos: new_pos,
                        resync: if resync {
                            rs
                        } else {
                            false
                        },
                        reports: r,
                    }
                } else if typ == 2 {
                    let r: Seq<Report> = if in_frag && scratch.len() > 0 && spec_report_cond(
                        new_pos,
                        scratch.len() as int,
                        initial,
                    ) {
                        seq![
                            Report {
                                bytes: scratch.len() as usize,
                                kind: CorruptionKind::PartialWithoutEnd,
                            },
                        ]
                    } else {
                        Seq::empty()
                    };
                    let rest = spec_read_step(src, checksum, initial, new_pos, false, true, data, rec_off);
                    SpecRead { reports: r + rest.reports, ..rest }
                } else if typ == 3 {
                    if !in_frag {
                        let r: Seq<Report> = if spec_report_cond(
                            new_pos,
                            data.len() as int,
                            initial,
                        ) {
                            seq![
                                Report {
                                    bytes: data.len() as usize,
                                    kind: CorruptionKind::MissingStart,
                                },
                            ]
                        } else {
                            Seq::empty()
                        };
                        let rest = spec_read_step(src, checksum, initial, new_pos, false, false, scratch, prospect);
                        SpecRead { reports: r + rest.reports, ..rest }
                    } else {
                        spec_read_step(src, checksum, initial, new_pos, false, true, scratch + data, prospect)
                    }
                } else if typ == 4 {
                    if !in_frag {
                        let r: Seq<Report> = if spec_report_cond(
                            new_pos,
                            data.len() as int,
                            initial,
                        ) {
                            seq![
                                Report {
                                    bytes: data.len() as usize,
                                    kind: CorruptionKind::MissingStart,
                                },
                            ]
                        } else {
                            Seq::empty()
                        };
                        let rest = spec_read_step(src, checksum, initial, new_pos, false, false, scratch, prospect);
                        SpecRead { reports: r + rest.reports, ..rest }
                    } else {
                        SpecRead {
                            found: true,
                            payload: scratch + data,
                            rec_off: prospect,
                            new_pos: new_pos,
                            resync: false,
                            reports: Seq::empty(),
                        }
                    }
                } else {
                    let dropped = data.len() + (if in_frag {
                        scratch.len()
                    } else {
                        0
                    });
                    let r: Seq<Report> = if spec_report_cond(new_pos, dropped as int, initial) {
                        seq![Report { bytes: dropped as usize, kind: CorruptionKind::UnknownType }]
                    } else {
                        Seq::empty()
                    };
                    let rest = spec_read_step(src, checksum, initial, new_pos, false, false, Seq::empty(), prospect);
                    SpecRead { reports: r + rest.reports, ..rest }
                }
            }
        },
    }
}

#[via_fn]
proof fn spec_read_step_decreases(
    src: Seq<u8>,
    checksum: bool,
    initial: int,
    pos: int,
    resync: bool,
    in_frag: bool,
    scratch: Seq<u8>,
    prospect: int,
) {
    if pos >= 0 {
        lemma_phys_step_bounds(src, checksum, initial, pos);
    } else {
        lemma_phys_step_neg(src, checksum, initial, pos);
    }
}

/// At a negative position the window still lies within the source, so the
/// scan still moves forward.
proof fn lemma_phys_step_neg(src: Seq<u8>, checksum: bool, initial: int, pos: int)
    requires
        pos < 0,
    ensures
        match spec_phys_step(src, checksum, initial, pos) {
            SpecPhys::Eof { end_pos } => end_pos <= src.len(),
            SpecPhys::Bad { new_pos, .. } => pos < new_pos <= src.len(),
            SpecPhys::Rec { new_pos, .. } => pos < new_pos <= src.len(),
        },
    decreases src.len() - pos,
{
    let len = src.len() as int;
    let ws = win_start(pos);
    let we = win_end(len, pos);
    if we - pos < HEADER_SIZE {
        if !at_eof(len, pos) {
            if ws + BLOCK_SIZE >= 0 {
                lemma_phys_step_bounds(src, checksum, initial, ws + BLOCK_SIZE);
            } else {
                lemma_phys_step_neg(src, checksum, initial, ws + BLOCK_SIZE);
            }
        }
    }
}

/// The position after the initial-offset block skip performed by the first
/// `read_record` call: jump to the start of the block holding `initial`,
/// or to the next block when `initial` lies in the trailer region.
pub open spec fn spec_skip_pos(pos: int, last: int, initial: int) -> int {
    if last < initial {
        let off_in_block = initial % (BLOCK_SIZE as int);
        let bs = if off_in_block > BLOCK_SIZE - 6 {
            initial - off_in_block + BLOCK_SIZE
        } else {
            initial - off_in_block
        };
        if pos + bs <= usize::MAX {
            pos + bs
        } else {
            usize::MAX as int
        }
    } else {
        pos
    }
}

/// Agreement of two read outcomes on everything but the report list.
pub open spec fn same_outcome(a: SpecRead, b: SpecRead) -> bool {
    &&& a.found == b.found
    &&& a.payload == b.payload
    &&& a.rec_off == b.rec_off
    &&& a.new_pos == b.new_pos
    &&& a.resync == b.resync
}

/// `max(a - b, 0)` on machine integers.
pub open spec fn spec_sat_sub(a: int, b: int) -> int {
    if a >= b {
        a - b
    } else {
        0
    }
}

/// Outcome of scanning one physical record, executable side.
enum Outcome {
    Eof,
    Bad,
    Rec { typ: u8, data: Vec<u8>, physical_offset: usize },
}

/// The executable outcome agrees with the specification outcome.
spec fn outcome_matches(o: Outcome, s: SpecPhys) -> bool {
    match s {
        SpecPhys::Eof { .. } => o is Eof,
        SpecPhys::Bad { .. } => o is Bad,
        SpecPhys::Rec { typ, data, rec_off, .. } => {
            &&& o matches Outcome::Rec { typ: t, data: d, physical_offset: p }
            &&& t == typ
            &&& d@ == data
            &&& p == rec_off
        },
    }
}

/// Reads logical records back from an in-memory log. `pos` is the absolute
/// offset of the next unconsumed byte; `reports` collects every corruption
/// event whose dropped region lies at or past `initial_offset` (whether or
/// not a `Reporter` is attached).
pub struct Reader<Rep: Reporter> {
    pub src: Vec<u8>,
    pub reporter: Option<Rep>,
    pub checksum: bool,
    pub pos: usize,
    pub last_record_offset: usize,
    pub initial_offset: usize,
    pub resyncing: bool,
    pub reports: Vec<Report>,
}

impl<Rep: Reporter> Reader<Rep> {
    /// A reader over `src`, starting at `initial_offset`; a non-zero
    /// initial offset puts the reader in resynchronisation mode.
    pub fn new(src: Vec<u8>, reporter: Option<Rep>, checksum: bool, initial_offset: usize) -> (r:
        Reader<Rep>)
        ensures
            r.src@ == src@,
            r.checksum == checksum,
            r.pos == 0,
            r.last_record_offset == 0,
            r.initial_offset == initial_offset,
            r.resyncing == (initial_offset > 0),
            r.reports@ == Seq::<Report>::empty(),
    {
        let reports: Vec<Report> = Vec::new();
        proof {
            assert(reports@ =~= Seq::<Report>::empty());
        }
        Reader {
            src,
            reporter,
            checksum,
            pos: 0,
            last_record_offset: 0,
            initial_offset,
            resyncing: initial_offset > 0,
            reports,
        }
    }

    /// Offset of the start of the last record returned by `read_record`.
    pub fn last_record_offset(&self) -> (r: usize)
        ensures
            r == self.last_record_offset,
    {
        self.last_record_offset
    }

    /// The corruption events collected so far.
    pub fn corruption_reports(&self) -> (r: &Vec<Report>)
        ensures
            r@ == self.reports@,
    {
        &self.reports
    }

    /// Hands back the source and the reporter.
    pub fn into_inner(self) -> (r: (Vec<u8>, Option<Rep>))
        ensures
            r.0@ == self.src@,
    {
        (self.src, self.reporter)
    }

    fn report_drop(&mut self, bytes: usize, kind: CorruptionKind, reason: &str)
        ensures
            final(self).src@ == old(self).src@,
            final(self).checksum == old(self).checksum,
            final(self).pos == old(self).pos,
            final(self).last_record_offset == old(self).last_record_offset,
            final(self).initial_offset == old(self).initial_offset,
            final(self).resyncing == old(self).resyncing,
            spec_report_cond(
                old(self).pos as int,
                bytes as int,
                old(self).initial_offset as int,
            ) ==> final(self).reports@ == old(self).reports@.push(Report { bytes, kind }),
            !spec_report_cond(
                old(self).pos as int,
                bytes as int,
                old(self).initial_offset as int,
            ) ==> final(self).reports@ == old(self).reports@,
    {
        let past = if self.pos >= bytes {
            self.pos - bytes
        } else {
            0
        };
        if past >= self.initial_offset {
            self.reports.push(Report { bytes, kind });
            match &mut self.reporter {
                Some(rep) => rep.corruption(bytes, reason),
                None => {},
            }
        }
    }

    fn skip_to_initial_block(&mut self)
        requires
            old(self).last_record_offset < old(self).initial_offset,
        ensures
            final(self).pos == spec_skip_pos(
                old(self).pos as int,
                old(self).last_record_offset as int,
                old(self).initial_offset as int,
            ),
            final(self).src@ == old(self).src@,
            final(self).checksum == old(self).checksum,
            final(self).last_record_offset == old(self).last_record_offset,
            final(self).initial_offset == old(self).initial_offset,
            final(self).resyncing == old(self).resyncing,
            final(self).reports@ == old(self).reports@,
    {
        let off_in_block = self.initial_offset % BLOCK_SIZE;
        let base = self.initial_offset - off_in_block;
        let bs_opt = if off_in_block > BLOCK_SIZE - 6 {
            base.checked_add(BLOCK_SIZE)
        } else {
            Some(base)
        };
        match bs_opt {
            Some(bs) => {
                match self.pos.checked_add(bs) {
                    Some(p) => {
                        self.pos = p;
                    },
                    None => {
                        self.pos = usize::MAX;
                    },
                }
            },
            None => {
                self.pos = usize::MAX;
            },
        }
    }

    /// Reads the next logical record into `out`. Returns `true` with a
    /// fully reassembled record, or `false` at end of file. The result,
    /// the reader's new state, and the corruption reports produced are
    /// exactly those of `spec_read_step` started at the reader's position
    /// (after the one-time skip to the block holding `initial_offset`).
    #[verifier::rlimit(100)]
    #[verifier::spinoff_prover]
    pub fn read_record(&mut self, out: &mut Vec<u8>) -> (r: bool)
        ensures
            final(self).src@ == old(self).src@,
            final(self).checksum == old(self).checksum,
            final(self).initial_offset == old(self).initial_offset,
            ({
                let st = spec_read_step(
                    old(self).src@,
                    old(self).checksum,
                    old(self).initial_offset as int,
                    spec_skip_pos(
                        old(self).pos as int,
                        old(self).last_record_offset as int,
                        old(self).initial_offset as int,
                    ),
                    old(self).resyncing,
                    false,
                    Seq::empty(),
                    0,
                );
                &&& r == st.found
                &&& final(self).pos == st.new_pos
                &&& final(self).resyncing == st.resync
                &&& final(self).reports@ == old(self).reports@ + st.reports
                &&& st.found ==> final(out)@ == st.payload && final(self).last_record_offset
                    == st.rec_off
                &&& !st.found ==> final(out)@ == Seq::<u8>::empty()
                    && final(self).last_record_offset == old(self).last_record_offset
            }),
    {
        if self.last_record_offset < self.initial_offset {
            self.skip_to_initial_block();
        }
        let mut scratch: Vec<u8> = Vec::new();
        let mut in_frag: bool = false;
        let mut prospective_offset: usize = 0;
        let ghost ck = self.checksum;
        let ghost init = self.initial_offset as int;
        let ghost st = spec_read_step(
            self.src@,
            ck,
            init,
            self.pos as int,
            self.resyncing,
            false,
            Seq::empty(),
            0,
        );
        let ghost reports0 = self.reports@;
        proof {
            assert(scratch@ =~= Seq::<u8>::empty());
        }
        let len = self.src.len();
        loop
            invariant
                self.src@ == old(self).src@,
                self.checksum == ck,
                self.initial_offset as int == init,
                self.last_record_offset == old(self).last_record_offset,
                len == self.src@.len(),
                ck == old(self).checksum,
                init == old(self).initial_offset as int,
                reports0 == old(self).reports@,
                st == spec_read_step(
                    old(self).src@,
                    old(self).checksum,
                    old(self).initial_offset as int,
                    spec_skip_pos(
                        old(self).pos as int,
                        old(self).last_record_offset as int,
                        old(self).initial_offset as int,
                    ),
                    old(self).resyncing,
                    false,
                    Seq::empty(),
                    0,
                ),
                in_frag ==> scratch@.len() + HEADER_SIZE <= self.pos,
                !in_frag ==> scratch@.len() == 0,
                same_outcome(
                    st,
                    spec_read_step(
                        self.src@,
                        ck,
                        init,
                        self.pos as int,
                        self.resyncing,
                        in_frag,
                        scratch@,
                        prospective_offset as int,
                    ),
                ),
                reports0 + st.reports == self.reports@ + spec_read_step(
                    self.src@,
                    ck,
                    init,
                    self.pos as int,
                    self.resyncing,
                    in_frag,
                    scratch@,
                    prospective_offset as int,
                ).reports,
            decreases spec_sat_sub(len as int, self.pos as int),
        {
            let ghost pos_before = self.pos as int;
            let ghost resync_before = self.resyncing;
            let ghost scratch_before = scratch@;
            let ghost reports_before = self.reports@;
            let ghost cur = spec_read_step(
                self.src@,
                ck,
                init,
                pos_before,
                resync_before,
                in_frag,
                scratch@,
                prospective_offset as int,
            );
            let ghost phys = spec_phys_step(self.src@, ck, init, pos_before);
            proof {
                lemma_phys_step_bounds(self.src@, ck, init, pos_before);
            }
            match self.read_physical_record() {
                Outcome::Eof => {
                    out.clear();
                    proof {
                        assert(cur.reports =~= Seq::<Report>::empty());
                        assert(reports0 + st.reports =~= self.reports@);
                    }
                    return false;
                },
                Outcome::Bad => {
                    let ghost delta1 = self.reports@.skip(reports_before.len() as int);
                    proof {
                        assert(reports_before + delta1 =~= self.reports@);
                    }
                    if in_frag {
                        self.report_drop(
                            scratch.len(),
                            CorruptionKind::MiddleError,
                            "error in middle of record",
                        );
                        in_frag = false;
                        scratch.clear();
                    }
                    let ghost delta = self.reports@.skip(reports_before.len() as int);
                    proof {
                        assert(reports_before + delta =~= self.reports@);
                        assert(scratch@ =~= Seq::<u8>::empty());
                        let next = spec_read_step(
                            self.src@,
                            ck,
                            init,
                            self.pos as int,
                            self.resyncing,
                            false,
                            Seq::empty(),
                            prospective_offset as int,
                        );
                        assert(cur.reports =~= delta + next.reports);
                        assert(reports0 + st.reports =~= self.reports@ + next.reports) by {
                            assert(reports_before + (delta + next.reports) =~= (reports_before
                                + delta) + next.reports);
                        }
                    }
                },
                Outcome::Rec { typ, data, physical_offset } => {
                    if self.resyncing {
                        if typ == 3 {
                            proof {
                                assert(reports_before =~= self.reports@);
                            }
                            continue ;
                        }
                        if typ == 4 {
                            self.resyncing = false;
                            proof {
                                assert(reports_before =~= self.reports@);
                            }
                            continue ;
                        }
                        self.resyncing = false;
                    }
                    if typ == 1 {
                        if in_frag && scratch.len() > 0 {
                            self.report_drop(
                                scratch.len(),
                                CorruptionKind::PartialWithoutEnd,
                                "partial record without end(1)",
                            );
                        }
                        *out = data;
                        self.last_record_offset = physical_offset;
                        proof {
                            let ghost delta = self.reports@.skip(reports_before.len() as int);
                            assert(reports_before + delta =~= self.reports@);
                            assert(cur.reports =~= delta);
                            assert(reports0 + st.reports =~= self.reports@);
                        }
                        return true;
                    } else if typ == 2 {
                        if in_frag && scratch.len() > 0 {
                            self.report_drop(
                                scratch.len(),
                                CorruptionKind::PartialWithoutEnd,
                                "partial record without end(2)",
                            );
                        }
                        prospective_offset = physical_offset;
                        scratch = data;
                        in_frag = true;
                        let ghost delta = self.reports@.skip(reports_before.len() as int);
                        proof {
                            assert(reports_before + delta =~= self.reports@);
                            let next = spec_read_step(
                                self.src@,
                                ck,
                                init,
                                self.pos as int,
                                false,
                                true,
                                scratch@,
                                prospective_offset as int,
                            );
                            assert(cur.reports =~= delta + next.reports);
                            assert(reports0 + st.reports =~= self.reports@ + next.reports) by {
                                assert(reports_before + (delta + next.reports) =~= (reports_before
                                    + delta) + next.reports);
                            }
                        }
                    } else if typ == 3 {
                        if !in_frag {
                            self.report_drop(
                                data.len(),
                                CorruptionKind::MissingStart,
                                "missing start of fragmented record(1)",
                            );
                        } else {
                            scratch.extend_from_slice(data.as_slice());
                        }
                        let ghost delta = self.reports@.skip(reports_before.len() as int);
                        proof {
                            assert(reports_before + delta =~= self.reports@);
                            let next = spec_read_step(
                                self.src@,
                                ck,
                                init,
                                self.pos as int,
                                false,
                                in_frag,
                                scratch@,
                                prospective_offset as int,
                            );
                            if in_frag {
                                assert(scratch@ == scratch_before + data@);
                                assert(cur == next);
                                assert(delta =~= Seq::<Report>::empty());
                            } else {
                                assert(same_outcome(cur, next));
                            }
                            assert(cur.reports =~= delta + next.reports);
                            assert(reports0 + st.reports =~= self.reports@ + next.reports) by {
                                assert(reports_before + (delta + next.reports) =~= (reports_before
                                    + delta) + next.reports);
                            }
                        }
                    } else if typ == 4 {
                        if !in_frag {
                            self.report_drop(
                                data.len(),
                                CorruptionKind::MissingStart,
                                "missing start of fragmented record(2)",
                            );
                            let ghost delta = self.reports@.skip(reports_before.len() as int);
                            proof {
                                assert(reports_before + delta =~= self.reports@);
                                let next = spec_read_step(
                                    self.src@,
                                    ck,
                                    init,
                                    self.pos as int,
                                    false,
                                    false,
                                    scratch@,
                                    prospective_offset as int,
                                );
                                assert(cur.reports =~= delta + next.reports);
                                assert(reports0 + st.reports =~= self.reports@ + next.reports) by {
                                    assert(reports_before + (delta + next.reports) =~= (
                                    reports_before + delta) + next.reports);
                                }
                            }
                        } else {
                            scratch.extend_from_slice(data.as_slice());
                            *out = scratch;
                            self.last_record_offset = prospective_offset;
                            proof {
                                assert(cur.reports =~= Seq::<Report>::empty());
                                assert(reports0 + st.reports =~= self.reports@);
                            }
                            return true;
                        }
                    } else {
                        let dropped = if in_frag {
                            data.len() + scratch.len()
                        } else {
                            data.len()
                        };
                        self.report_drop(dropped, CorruptionKind::UnknownType, "unknown record type");
                        in_frag = false;
                        scratch = Vec::new();
                        let ghost delta = self.reports@.skip(reports_before.len() as int);
                        proof {
                            assert(scratch@ =~= Seq::<u8>::empty());
                            assert(reports_before + delta =~= self.reports@);
                            let next = spec_read_step(
                                self.src@,
                                ck,
                                init,
                                self.pos as int,
                                false,
                                false,
                                Seq::empty(),
                                prospective_offset as int,
                            );
                            assert(cur.reports =~= delta + next.reports);
                            assert(reports0 + st.reports =~= self.reports@ + next.reports) by {
                                assert(reports_before + (delta + next.reports) =~= (reports_before
                                    + delta) + next.reports);
                            }
                        }
                    }
                },
            }
        }
    }

    fn read_physical_record(&mut self) -> (o: Outcome)
        ensures
            final(self).src@ == old(self).src@,
            final(self).checksum == old(self).checksum,
            final(self).last_record_offset == old(self).last_record_offset,
            final(self).initial_offset == old(self).initial_offset,
            final(self).resyncing == old(self).resyncing,
            ({
                let st = spec_phys_step(
                    old(self).src@,
                    old(self).checksum,
                    old(self).initial_offset as int,
                    old(self).pos as int,
                );
                &&& outcome_matches(o, st)
                &&& match st {
                    SpecPhys::Eof { end_pos } => final(self).pos == end_pos && final(self).reports@
                        == old(self).reports@,
                    SpecPhys::Bad { new_pos, report } => final(self).pos == new_pos
                        && final(self).reports@ == old(self).reports@ + (match report {
                        Some(r) => seq![r],
                        None => Seq::<Report>::empty(),
                    }),
                    SpecPhys::Rec { new_pos, .. } => final(self).pos == new_pos
                        && final(self).reports@ == old(self).reports@,
                }
            }),
    {
        let len = self.src.len();
        loop
            invariant
                self.src@ == old(self).src@,
                self.checksum == old(self).checksum,
                self.last_record_offset == old(self).last_record_offset,
                self.initial_offset == old(self).initial_offset,
                self.resyncing == old(self).resyncing,
                self.reports@ == old(self).reports@,
                len == self.src@.len(),
                spec_phys_step(
                    self.src@,
                    self.checksum,
                    self.initial_offset as int,
                    old(self).pos as int,
                ) == spec_phys_step(
                    self.src@,
                    self.checksum,
                    self.initial_offset as int,
                    self.pos as int,
                ),
            decreases spec_sat_sub(len as int, self.pos as int),
        {
            let pos = self.pos;
            let ws = pos - pos % BLOCK_SIZE;
            let we = if ws >= len {
                len
            } else if len - ws < BLOCK_SIZE {
                len
            } else {
                ws + BLOCK_SIZE
            };
            let eof_here = ws >= len || len - ws < BLOCK_SIZE;
            proof {
                assert(ws == win_start(pos as int));
                assert(we == win_end(len as int, pos as int));
                assert(eof_here == at_eof(len as int, pos as int));
            }
            let avail = if we > pos {
                we - pos
            } else {
                0
            };
            if avail < HEADER_SIZE {
                if eof_here {
                    self.pos = we;
                    return Outcome::Eof;
                }
                self.pos = ws + BLOCK_SIZE;
            } else {
                let a = self.src[pos + 4] as usize;
                let b = self.src[pos + 5] as usize;
                let typ = self.src[pos + 6];
                let l = a | (b << 8);
                proof {
                    assert(a | (b << 8) == a + 256 * b) by (bit_vector)
                        requires
                            a < 256,
                            b < 256,
                    ;
                }
                if l > avail - HEADER_SIZE {
                    if eof_here {
                        self.pos = we;
                        return Outcome::Eof;
                    }
                    self.pos = we;
                    self.report_drop(avail, CorruptionKind::BadRecordLength, "bad record length");
                    return Outcome::Bad;
                }
                if typ == 0 && l == 0 {
                    self.pos = we;
                    proof {
                        assert(self.reports@ =~= old(self).reports@ + Seq::<Report>::empty());
                    }
                    return Outcome::Bad;
                }
                if self.checksum {
                    let s = self.src.as_slice();
                    let expected = crc32c::unmask(crc32c::get_fixed32_le(&s[pos..pos + 4]));
                    let actual = crc32c::value(&s[pos + 6..pos + HEADER_SIZE + l]);
                    proof {
                        assert(s@.subrange(pos as int, pos as int + 4)[0] == s@[pos as int]);
                        assert(s@.subrange(pos as int, pos as int + 4)[1] == s@[pos as int + 1]);
                        assert(s@.subrange(pos as int, pos as int + 4)[2] == s@[pos as int + 2]);
                        assert(s@.subrange(pos as int, pos as int + 4)[3] == s@[pos as int + 3]);
                        assert(s@.subrange(pos + 6, pos + HEADER_SIZE + l) =~= seq![typ]
                            + s@.subrange(pos + HEADER_SIZE, pos + HEADER_SIZE + l));
                    }
                    if actual != expected {
                        self.pos = we;
                        self.report_drop(avail, CorruptionKind::ChecksumMismatch, "checksum mismatch");
                        return Outcome::Bad;
                    }
                }
                let s = self.src.as_slice();
                let data = vstd::slice::slice_to_vec(&s[pos + HEADER_SIZE..pos + HEADER_SIZE + l]);
                let physical_offset = pos;
                self.pos = pos + HEADER_SIZE + l;
                if physical_offset < self.initial_offset {
                    proof {
                        assert(self.reports@ =~= old(self).reports@ + Seq::<Report>::empty());
                    }
                    return Outcome::Bad;
                }
                return Outcome::Rec { typ, data, physical_offset };
            }
        }
    }
}

/// A successful read consumes at least one whole header; no read runs
/// past the source.
pub proof fn lemma_read_step_advance(
    src: Seq<u8>,
    checksum: bool,
    initial: int,
    pos: int,
    resync: bool,
    in_frag: bool,
    scratch: Seq<u8>,
    prospect: int,
)
    requires
        0 <= pos,
    ensures
        ({
            let st = spec_read_step(src, checksum, initial, pos, resync, in_frag, scratch, prospect);
            &&& st.new_pos <= src.len() || st.new_pos <= pos
            &&& st.found ==> pos + HEADER_SIZE <= st.new_pos <= src.len()
            &&& !resync ==> st.resync == false
        }),
    decreases src.len() - pos,
{
    lemma_phys_step_bounds(src, checksum, initial, pos);
    match spec_phys_step(src, checksum, initial, pos) {
        SpecPhys::Eof { end_pos } => {},
        SpecPhys::Bad { new_pos, report } => {
            lemma_read_step_advance(src, checksum, initial, new_pos, resync, false, Seq::empty(), prospect);
        },
        SpecPhys::Rec { typ, data, rec_off, new_pos } => {
            if resync && typ == 3 {
                lemma_read_step_advance(src, checksum, initial, new_pos, true, in_frag, scratch, prospect);
            } else if resync && typ == 4 {
                lemma_read_step_advance(src, checksum, initial, new_pos, false, in_frag, scratch, prospect);
            } else if typ == 1 {
            } else if typ == 2 {
                lemma_read_step_advance(src, checksum, initial, new_pos, false, true, data, rec_off);
            } else if typ == 3 {
                if !in_frag {
                    lemma_read_step_advance(src, checksum, initial, new_pos, false, false, scratch, prospect);
                } else {
                    lemma_read_step_advance(src, checksum, initial, new_pos, false, true, scratch + data, prospect);
                }
            } else if typ == 4 {
                if !in_frag {
                    lemma_read_step_advance(src, checksum, initial, new_pos, false, false, scratch, prospect);
                }
            } else {
                lemma_read_step_advance(src, checksum, initial, new_pos, false, false, Seq::empty(), prospect);
            }
        },
    }
}

} // verus!
