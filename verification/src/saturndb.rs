//! The engine: writes go to the write-ahead log first, then the
//! memtable; a full memtable is drained into a new sorted table pushed
//! onto the newest end of the stack; reads resolve memtable first, then
//! tables newest to oldest.
use vstd::prelude::*;

use crate::common::{DecodeError, Entry, EntryView, Key, SequenceNumber, Value};
use crate::memtable::{MemTable, spec_find, MEMTABLE_CAPACITY};
use crate::sstable::{spec_merged, SstQuery, SSTable};
use crate::wal::{spec_encode_entry, WriteAheadLog};
use crate::wal_writer::{spec_emit, spec_emit_end};

verus! {

/// Resolves `k` against the table stack, newest (last) first: the first
/// table that knows the key decides.
pub open spec fn spec_stack_lookup(stack: Seq<SSTable>, k: Seq<u8>) -> Option<Seq<u8>>
    decreases stack.len(),
{
    if stack.len() == 0 {
        None
    } else {
        match stack.last().spec_query(k) {
            SstQuery::Found(v) => Some(v),
            SstQuery::Tombstone => None,
            SstQuery::Absent => spec_stack_lookup(stack.drop_last(), k),
        }
    }
}

/// Whether inserting `k` leaves the memtable at or over capacity.
pub open spec fn spec_put_makes_full(mt: MemTable, k: Seq<u8>) -> bool {
    (if mt.spec_get(k) is Some {
        mt.map@.len() as int
    } else {
        mt.map@.len() as int + 1
    }) + mt.tombstones@.len() >= MEMTABLE_CAPACITY
}

/// Whether deleting `k` leaves the memtable at or over capacity.
pub open spec fn spec_delete_makes_full(mt: MemTable, k: Seq<u8>) -> bool {
    (if mt.spec_get(k) is Some {
        mt.map@.len() as int - 1
    } else {
        mt.map@.len() as int
    }) + (if mt.spec_tombstone(k) is Some {
        mt.tombstones@.len() as int
    } else {
        mt.tombstones@.len() as int + 1
    }) >= MEMTABLE_CAPACITY
}

/// The embedded key/value store.
pub struct SaturnDB {
    pub memtable: MemTable,
    pub wal: WriteAheadLog,
    pub sstables: Vec<SSTable>,
}

impl SaturnDB {
    pub open spec fn wf(self) -> bool {
        &&& self.memtable.wf()
        &&& self.memtable.bounded_entries()
        &&& self.wal.wf()
        &&& forall|i: int| 0 <= i < self.sstables@.len() ==> (#[trigger] self.sstables@[i]).wf()
    }

    /// The value the whole store holds for `k`: the memtable's live
    /// entry, unless a memtable tombstone hides the key, else the
    /// newest-first answer of the table stack.
    pub open spec fn spec_lookup(self, k: Seq<u8>) -> Option<Seq<u8>> {
        match self.memtable.spec_get(k) {
            Some(p) => Some(p.0@),
            None => if self.memtable.spec_tombstone(k) is Some {
                None
            } else {
                spec_stack_lookup(self.sstables@, k)
            },
        }
    }

    /// A fresh engine with an empty memtable, an empty log at
    /// `wal_path`, and no tables.
    pub fn new(wal_path: &str) -> (r: SaturnDB)
        ensures
            r.wf(),
            r.memtable.map@.len() == 0,
            r.memtable.tombstones@.len() == 0,
            r.memtable.current_sequence_number == 0,
            r.wal.bytes() == Seq::<u8>::empty(),
            r.wal.writer.block_offset == 0,
            r.sstables@.len() == 0,
    {
        SaturnDB {
            memtable: MemTable::new(),
            wal: WriteAheadLog::new(wal_path),
            sstables: Vec::new(),
        }
    }

    /// The log's byte image, for the caller to persist.
    pub fn wal_bytes(&self) -> (r: &Vec<u8>)
        ensures
            r@ == self.wal.bytes(),
    {
        &self.wal.writer.dest
    }

    /// Durably appends `Put{key, value}` to the log, records it in the
    /// memtable, and drains the memtable into a new table if that made
    /// it full.
    pub fn put(&mut self, key: Key, value: Value)
        requires
            old(self).wf(),
            key@.len() < 0x100000000,
            value@.len() < 0x100000000,
            old(self).memtable.current_sequence_number < u64::MAX,
        ensures
            final(self).wf(),
            final(self).wal.bytes() == old(self).wal.bytes() + spec_emit(
                old(self).wal.writer.block_offset as int,
                spec_encode_entry(EntryView::Put { key: key@, value: value@ }),
                true,
            ),
            final(self).wal.writer.block_offset == spec_emit_end(
                old(self).wal.writer.block_offset as int,
                spec_encode_entry(EntryView::Put { key: key@, value: value@ }),
                true,
            ),
            final(self).memtable.current_sequence_number == old(
                self,
            ).memtable.current_sequence_number + 1,
            !spec_put_makes_full(old(self).memtable, key@) ==> {
                &&& final(self).sstables@ == old(self).sstables@
                &&& final(self).memtable.spec_get(key@) == Some(
                    (value, (old(self).memtable.current_sequence_number + 1) as u64),
                )
                &&& forall|k2: Seq<u8>|
                    k2 != key@ ==> #[trigger] final(self).memtable.spec_get(k2) == old(
                        self,
                    ).memtable.spec_get(k2)
                &&& final(self).memtable.tombstones@ == old(self).memtable.tombstones@
                &&& final(self).spec_lookup(key@) == Some(value@)
                &&& forall|k2: Seq<u8>|
                    k2 != key@ ==> #[trigger] final(self).spec_lookup(k2) == old(
                        self,
                    ).spec_lookup(k2)
            },
            spec_put_makes_full(old(self).memtable, key@) ==> {
                &&& final(self).memtable.map@.len() == 0
                &&& final(self).memtable.tombstones@.len() == 0
                &&& final(self).sstables@.len() == old(self).sstables@.len() + 1
                &&& final(self).sstables@.take(old(self).sstables@.len() as int) == old(
                    self,
                ).sstables@
                &&& forall|k2: Seq<u8>|
                    #[trigger] final(self).spec_lookup(k2) == (if old(
                        self,
                    ).memtable.spec_tombstone(k2) is Some {
                        None
                    } else if k2 == key@ {
                        Some(value@)
                    } else {
                        match old(self).memtable.spec_get(k2) {
                            Some(p) => Some(p.0@),
                            None => spec_stack_lookup(old(self).sstables@, k2),
                        }
                    })
            },
    {
        let entry_key = vstd::slice::slice_to_vec(key.as_slice());
        let entry_value = vstd::slice::slice_to_vec(value.as_slice());
        let entry = Entry::Put { key: entry_key, value: entry_value };
        self.wal.append(&entry);
        let ghost value_view = value@;
        self.memtable.insert(key, value);
        let ghost mt1 = self.memtable;
        if self.memtable.is_full() {
            self.flush_memtable();
            proof {
                assert forall|k2: Seq<u8>| #[trigger] self.spec_lookup(k2) == (if old(
                    self,
                ).memtable.spec_tombstone(k2) is Some {
                    None
                } else if k2 == key@ {
                    Some(value_view)
                } else {
                    match old(self).memtable.spec_get(k2) {
                        Some(p) => Some(p.0@),
                        None => spec_stack_lookup(old(self).sstables@, k2),
                    }
                }) by {
                    assert(self.sstables@.last().spec_query(k2) == spec_merged(
                        mt1.map@,
                        mt1.tombstones@,
                        k2,
                    ));
                    assert(spec_find(mt1.map@, k2) == mt1.spec_get(k2));
                    assert(spec_find(mt1.tombstones@, k2) == old(self).memtable.spec_tombstone(
                        k2,
                    ));
                    if k2 != key@ {
                        assert(mt1.spec_get(k2) == old(self).memtable.spec_get(k2));
                    } else {
                        assert(mt1.spec_get(k2) == Some(
                            (value, (old(self).memtable.current_sequence_number + 1) as u64),
                        ));
                    }
                    assert(self.sstables@.drop_last() =~= old(self).sstables@);
                    assert(self.memtable.spec_get(k2) is None);
                    assert(self.memtable.spec_tombstone(k2) is None);
                }
            }
        } else {
            proof {
                assert forall|k2: Seq<u8>| k2 != key@ implies #[trigger] self.spec_lookup(k2)
                    == old(self).spec_lookup(k2) by {
                    assert(self.memtable.spec_get(k2) == old(self).memtable.spec_get(k2));
                    assert(self.memtable.spec_tombstone(k2) == old(self).memtable.spec_tombstone(
                        k2,
                    ));
                }
            }
        }
    }

    /// Durably appends `Delete{key}` to the log, records the tombstone
    /// in the memtable, and drains the memtable if that made it full.
    pub fn delete(&mut self, key: Key)
        requires
            old(self).wf(),
            key@.len() < 0x100000000,
            old(self).memtable.current_sequence_number < u64::MAX,
        ensures
            final(self).wf(),
            final(self).wal.bytes() == old(self).wal.bytes() + spec_emit(
                old(self).wal.writer.block_offset as int,
                spec_encode_entry(EntryView::Delete { key: key@ }),
                true,
            ),
            final(self).wal.writer.block_offset == spec_emit_end(
                old(self).wal.writer.block_offset as int,
                spec_encode_entry(EntryView::Delete { key: key@ }),
                true,
            ),
            final(self).memtable.current_sequence_number == old(
                self,
            ).memtable.current_sequence_number + 1,
            !spec_delete_makes_full(old(self).memtable, key@) ==> {
                &&& final(self).sstables@ == old(self).sstables@
                &&& final(self).memtable.spec_get(key@) is None
                &&& final(self).memtable.spec_tombstone(key@) == Some(
                    (old(self).memtable.current_sequence_number + 1) as u64,
                )
                &&& forall|k2: Seq<u8>|
                    k2 != key@ ==> #[trigger] final(self).memtable.spec_get(k2) == old(
                        self,
                    ).memtable.spec_get(k2)
                &&& forall|k2: Seq<u8>|
                    k2 != key@ ==> #[trigger] final(self).memtable.spec_tombstone(k2) == old(
                        self,
                    ).memtable.spec_tombstone(k2)
                &&& final(self).spec_lookup(key@) is None
                &&& forall|k2: Seq<u8>|
                    k2 != key@ ==> #[trigger] final(self).spec_lookup(k2) == old(
                        self,
                    ).spec_lookup(k2)
            },
            spec_delete_makes_full(old(self).memtable, key@) ==> {
                &&& final(self).memtable.map@.len() == 0
                &&& final(self).memtable.tombstones@.len() == 0
                &&& final(self).sstables@.len() == old(self).sstables@.len() + 1
                &&& final(self).sstables@.take(old(self).sstables@.len() as int) == old(
                    self,
                ).sstables@
                &&& forall|k2: Seq<u8>|
                    #[trigger] final(self).spec_lookup(k2) == (if k2 == key@ || old(
                        self,
                    ).memtable.spec_tombstone(k2) is Some {
                        None
                    } else {
                        match old(self).memtable.spec_get(k2) {
                            Some(p) => Some(p.0@),
                            None => spec_stack_lookup(old(self).sstables@, k2),
                        }
                    })
            },
    {
        let entry_key = vstd::slice::slice_to_vec(key.as_slice());
        let entry = Entry::Delete { key: entry_key };
        self.wal.append(&entry);
        self.memtable.delete(key);
        let ghost mt1 = self.memtable;
        if self.memtable.is_full() {
            self.flush_memtable();
            proof {
                assert forall|k2: Seq<u8>| #[trigger] self.spec_lookup(k2) == (if k2 == key@
                    || old(self).memtable.spec_tombstone(k2) is Some {
                    None
                } else {
                    match old(self).memtable.spec_get(k2) {
                        Some(p) => Some(p.0@),
                        None => spec_stack_lookup(old(self).sstables@, k2),
                    }
                }) by {
                    assert(self.sstables@.last().spec_query(k2) == spec_merged(
                        mt1.map@,
                        mt1.tombstones@,
                        k2,
                    ));
                    assert(spec_find(mt1.map@, k2) == mt1.spec_get(k2));
                    assert(spec_find(mt1.tombstones@, k2) == mt1.spec_tombstone(k2));
                    if k2 != key@ {
                        assert(mt1.spec_get(k2) == old(self).memtable.spec_get(k2));
                        assert(mt1.spec_tombstone(k2) == old(self).memtable.spec_tombstone(k2));
                    } else {
                        assert(mt1.spec_get(k2) is None);
                        assert(mt1.spec_tombstone(k2) is Some);
                    }
                    assert(self.sstables@.drop_last() =~= old(self).sstables@);
                    assert(self.memtable.spec_get(k2) is None);
                    assert(self.memtable.spec_tombstone(k2) is None);
                }
            }
        } else {
            proof {
                assert forall|k2: Seq<u8>| k2 != key@ implies #[trigger] self.spec_lookup(k2)
                    == old(self).spec_lookup(k2) by {
                    assert(self.memtable.spec_get(k2) == old(self).memtable.spec_get(k2));
                    assert(self.memtable.spec_tombstone(k2) == old(self).memtable.spec_tombstone(
                        k2,
                    ));
                }
            }
        }
    }

    /// Resolves a read: the memtable's live entry wins, a memtable
    /// tombstone hides the key, and otherwise the tables answer newest
    /// to oldest.
    pub fn get(&self, key: &Key) -> (r: Option<Value>)
        requires
            self.wf(),
        ensures
            ({
                match self.spec_lookup(key@) {
                    Some(v) => match r {
                        Some(rv) => rv@ == v,
                        None => false,
                    },
                    None => r is None,
                }
            }),
    {
        match self.memtable.get(key) {
            Some((value, _)) => {
                return Some(value);
            },
            None => {},
        }
        if self.memtable.contains_tombstone(key) {
            return None;
        }
        let n = self.sstables.len();
        let mut i: usize = n;
        proof {
            assert(self.sstables@.take(n as int) =~= self.sstables@);
        }
        while i > 0
            invariant
                i <= n,
                n == self.sstables@.len(),
                self.wf(),
                self.memtable.spec_get(key@) is None,
                self.memtable.spec_tombstone(key@) is None,
                spec_stack_lookup(self.sstables@, key@) == spec_stack_lookup(
                    self.sstables@.take(i as int),
                    key@,
                ),
            decreases i,
        {
            i = i - 1;
            let sst = &self.sstables[i];
            let ghost prefix = self.sstables@.take(i + 1);
            proof {
                assert(prefix.last() == self.sstables@[i as int]);
                assert(prefix.drop_last() =~= self.sstables@.take(i as int));
            }
            match sst.get(key) {
                Some((value, _)) => {
                    return Some(value);
                },
                None => {},
            }
            if sst.index_contains(key) {
                proof {
                    crate::sstable::lemma_find_some_present(sst.index@, key@);
                    let j = choose|j: int|
                        0 <= j < sst.index@.len() && (#[trigger] sst.index@[j]).0@ == key@;
                    crate::memtable::lemma_find_at(sst.index@, j);
                }
                match sst.get(key) {
                    Some(entry) => {
                        return Some(entry.0);
                    },
                    None => {
                        return None;
                    },
                }
            }
        }
        None
    }


    /// Replays a log image into this fresh engine's memtable: every
    /// decoded entry is applied exactly as a live put or delete would
    /// be, sequence numbers included. The first malformed record stops
    /// the replay with its decode error; framing corruption and a torn
    /// tail are already skipped by the reader itself.
    pub fn recover(&mut self, wal_bytes: &[u8]) -> (r: Result<(), DecodeError>)
        requires
            old(self).wf(),
            old(self).memtable.current_sequence_number == 0,
            old(self).memtable.map@.len() == 0,
            old(self).memtable.tombstones@.len() == 0,
        ensures
            final(self).wf(),
            final(self).sstables@ == old(self).sstables@,
            final(self).wal == old(self).wal,
            ({
                let res = spec_wal_entries(wal_bytes@, 0, (wal_bytes@.len() + 1) as nat);
                &&& r == (match res.1 {
                    None => Ok::<(), DecodeError>(()),
                    Some(e) => Err::<(), DecodeError>(e),
                })
                &&& final(self).memtable.current_sequence_number == res.0.len()
                &&& forall|k: Seq<u8>|
                    #[trigger] opt_entry_view(final(self).memtable.spec_get(k))
                        == spec_replay_get(res.0, k)
                &&& forall|k: Seq<u8>|
                    #[trigger] opt_seq_view(final(self).memtable.spec_tombstone(k))
                        == spec_replay_tombstone(res.0, k)
            }),
    {
        let bytes = vstd::slice::slice_to_vec(wal_bytes);
        let mut reader: crate::wal_reader::Reader<crate::wal::NoopReporter> =
            crate::wal_reader::Reader::new(
            bytes,
            Some(crate::wal::NoopReporter::new()),
            true,
            0,
        );
        let mut record: Vec<u8> = Vec::new();
        let ghost src = wal_bytes@;
        let ghost full = spec_wal_entries(src, 0, (src.len() + 1) as nat);
        let ghost mut applied: Seq<EntryView> = Seq::empty();
        proof {
            assert(Seq::<EntryView>::empty() + full.0 =~= full.0);
        }
        loop
            invariant
                self.wf(),
                self.sstables@ == old(self).sstables@,
                self.wal == old(self).wal,
                reader.src@ == src,
                src == wal_bytes@,
                reader.checksum == true,
                reader.initial_offset == 0,
                reader.resyncing == false,
                full == spec_wal_entries(src, 0, (src.len() + 1) as nat),
                self.memtable.current_sequence_number == applied.len(),
                applied.len() * 7 <= reader.pos,
                reader.pos <= src.len(),
                forall|k: Seq<u8>|
                    #[trigger] opt_entry_view(self.memtable.spec_get(k)) == spec_replay_get(
                        applied,
                        k,
                    ),
                forall|k: Seq<u8>|
                    #[trigger] opt_seq_view(self.memtable.spec_tombstone(k))
                        == spec_replay_tombstone(applied, k),
                full.0 == applied + spec_wal_entries(
                    src,
                    reader.pos as int,
                    (src.len() - reader.pos + 1) as nat,
                ).0,
                full.1 == spec_wal_entries(
                    src,
                    reader.pos as int,
                    (src.len() - reader.pos + 1) as nat,
                ).1,
            decreases src.len() - reader.pos,
        {
            let ghost pos0 = reader.pos as int;
            let ghost st = crate::wal_reader::spec_read_step(
                src,
                true,
                0,
                pos0,
                false,
                false,
                Seq::empty(),
                0,
            );
            proof {
                crate::wal_reader::lemma_read_step_advance(
                    src,
                    true,
                    0,
                    pos0,
                    false,
                    false,
                    Seq::empty(),
                    0,
                );
            }
            let found = reader.read_record(&mut record);
            if !found {
                proof {
                    assert(full.0 =~= applied);
                }
                return Ok(());
            }
            match crate::wal::decode_entry(record.as_slice()) {
                Ok(entry) => {
                    let ghost ev = entry@;
                    proof {
                        crate::wal::lemma_decoded_entry_bounded(st.payload);
                    }
                    let ghost applied0 = applied;
                    let ghost mt0 = self.memtable;
                    match entry {
                        Entry::Put { key, value } => {
                            self.memtable.insert(key, value);
                        },
                        Entry::Delete { key } => {
                            self.memtable.delete(key);
                        },
                    }
                    proof {
                        applied = applied0.push(ev);
                        assert forall|k: Seq<u8>| #[trigger] opt_entry_view(
                            self.memtable.spec_get(k),
                        ) == spec_replay_get(applied, k) by {
                            lemma_replay_snoc(applied0, ev, k);
                            assert(opt_entry_view(mt0.spec_get(k)) == spec_replay_get(
                                applied0,
                                k,
                            ));
                        }
                        assert forall|k: Seq<u8>| #[trigger] opt_seq_view(
                            self.memtable.spec_tombstone(k),
                        ) == spec_replay_tombstone(applied, k) by {
                            lemma_replay_snoc(applied0, ev, k);
                            assert(opt_seq_view(mt0.spec_tombstone(k)) == spec_replay_tombstone(
                                applied0,
                                k,
                            ));
                        }
                        lemma_wal_entries_fuel(
                            src,
                            st.new_pos,
                            (src.len() - pos0 + 1 - 1) as nat,
                            (src.len() - st.new_pos + 1) as nat,
                        );
                        let rest = spec_wal_entries(
                            src,
                            st.new_pos,
                            (src.len() - st.new_pos + 1) as nat,
                        );
                        assert(applied0 + (seq![ev] + rest.0) =~= applied + rest.0);
                    }
                },
                Err(e) => {
                    proof {
                        assert(full.0 =~= applied);
                    }
                    return Err(e);
                },
            }
        }
    }

    fn flush_memtable(&mut self)
        requires
            old(self).wf(),
        ensures
            final(self).wf(),
            final(self).wal == old(self).wal,
            final(self).memtable.map@.len() == 0,
            final(self).memtable.tombstones@.len() == 0,
            final(self).memtable.current_sequence_number == old(
                self,
            ).memtable.current_sequence_number,
            final(self).sstables@.len() == old(self).sstables@.len() + 1,
            final(self).sstables@.take(old(self).sstables@.len() as int) == old(self).sstables@,
            final(self).sstables@ == old(self).sstables@.push(final(self).sstables@.last()),
            forall|k: Seq<u8>|
                #[trigger] final(self).sstables@.last().spec_query(k) == spec_merged(
                    old(self).memtable.map@,
                    old(self).memtable.tombstones@,
                    k,
                ),
    {
        let (data, tombstones) = self.memtable.flush();
        let name = sstable_file_name(self.sstables.len());
        let sstable = SSTable::write(data, tombstones, name.as_str());
        self.sstables.push(sstable);
        proof {
            assert(final(self).sstables@.take(old(self).sstables@.len() as int) =~= old(
                self,
            ).sstables@);
        }
    }
}

/// One decimal digit as text.
fn digit_str(d: usize) -> &'static str {
    if d == 0 {
        "0"
    } else if d == 1 {
        "1"
    } else if d == 2 {
        "2"
    } else if d == 3 {
        "3"
    } else if d == 4 {
        "4"
    } else if d == 5 {
        "5"
    } else if d == 6 {
        "6"
    } else if d == 7 {
        "7"
    } else if d == 8 {
        "8"
    } else {
        "9"
    }
}

/// The file name a table takes at creation: its stack position, decimal,
/// between the fixed prefix and suffix.
fn sstable_file_name(n: usize) -> String {
    let mut digits: Vec<usize> = Vec::new();
    let mut cur = n;
    loop
        decreases cur,
    {
        digits.push(cur % 10);
        if cur < 10 {
            break ;
        }
        cur = cur / 10;
    }
    let mut name = <String as vstd::string::StringExecFns>::from_str("sstable_");
    let mut i = digits.len();
    while i > 0
        invariant
            i <= digits@.len(),
        decreases i,
    {
        i = i - 1;
        vstd::string::StringExecFns::append(&mut name, digit_str(digits[i]));
    }
    vstd::string::StringExecFns::append(&mut name, ".db");
    name
}

/// The view of a live lookup result.
pub open spec fn opt_entry_view(o: Option<(Value, SequenceNumber)>) -> Option<(Seq<u8>, nat)> {
    match o {
        Some(p) => Some((p.0@, p.1 as nat)),
        None => None,
    }
}

/// The view of a tombstone lookup result.
pub open spec fn opt_seq_view(o: Option<SequenceNumber>) -> Option<nat> {
    match o {
        Some(n) => Some(n as nat),
        None => None,
    }
}

/// The live entry that replaying `entries` into a fresh memtable leaves
/// for `k`: the last write wins, a later delete removes it, and sequence
/// numbers count from one.
pub open spec fn spec_replay_get(entries: Seq<EntryView>, k: Seq<u8>) -> Option<(Seq<u8>, nat)>
    decreases entries.len(),
{
    if entries.len() == 0 {
        None
    } else {
        match entries.last() {
            EntryView::Put { key, value } => if key == k {
                Some((value, entries.len() as nat))
            } else {
                spec_replay_get(entries.drop_last(), k)
            },
            EntryView::Delete { key } => if key == k {
                None
            } else {
                spec_replay_get(entries.drop_last(), k)
            },
        }
    }
}

/// The tombstone that replaying `entries` leaves for `k`: present when
/// any delete of `k` occurred, carrying the last such sequence number (a
/// later put does not clear it).
pub open spec fn spec_replay_tombstone(entries: Seq<EntryView>, k: Seq<u8>) -> Option<nat>
    decreases entries.len(),
{
    if entries.len() == 0 {
        None
    } else {
        match entries.last() {
            EntryView::Delete { key } => if key == k {
                Some(entries.len() as nat)
            } else {
                spec_replay_tombstone(entries.drop_last(), k)
            },
            EntryView::Put { .. } => spec_replay_tombstone(entries.drop_last(), k),
        }
    }
}

/// Replaying one more entry: the law a single `put`/`delete` obeys.
pub proof fn lemma_replay_snoc(entries: Seq<EntryView>, e: EntryView, k: Seq<u8>)
    ensures
        spec_replay_get(entries.push(e), k) == (match e {
            EntryView::Put { key, value } => if key == k {
                Some((value, (entries.len() + 1) as nat))
            } else {
                spec_replay_get(entries, k)
            },
            EntryView::Delete { key } => if key == k {
                None
            } else {
                spec_replay_get(entries, k)
            },
        }),
        spec_replay_tombstone(entries.push(e), k) == (match e {
            EntryView::Delete { key } => if key == k {
                Some((entries.len() + 1) as nat)
            } else {
                spec_replay_tombstone(entries, k)
            },
            EntryView::Put { .. } => spec_replay_tombstone(entries, k),
        }),
{
    assert(entries.push(e).drop_last() =~= entries);
    assert(entries.push(e).last() == e);
}

/// The entries a scan of `src` from `pos` yields, and the first decode
/// error met, if any (`fuel` only bounds the recursion; any fuel past
/// one per seven bytes gives the same answer).
pub open spec fn spec_wal_entries(src: Seq<u8>, pos: int, fuel: nat) -> (Seq<EntryView>, Option<
    DecodeError,
>)
    decreases fuel,
{
    if fuel == 0 {
        (Seq::empty(), None)
    } else {
        let st = crate::wal_reader::spec_read_step(src, true, 0, pos, false, false, Seq::empty(), 0);
        if !st.found {
            (Seq::empty(), None)
        } else {
            match crate::wal::spec_decode_entry(st.payload) {
                Ok(ev) => {
                    let rest = spec_wal_entries(src, st.new_pos, (fuel - 1) as nat);
                    (seq![ev] + rest.0, rest.1)
                },
                Err(e) => (Seq::empty(), Some(e)),
            }
        }
    }
}

/// With fuel at least one past the remaining byte count, the scan's
/// answer does not depend on the fuel.
pub proof fn lemma_wal_entries_fuel(src: Seq<u8>, pos: int, f1: nat, f2: nat)
    requires
        0 <= pos,
        f1 >= crate::wal_reader::spec_sat_sub(src.len() as int, pos) + 1,
        f2 >= crate::wal_reader::spec_sat_sub(src.len() as int, pos) + 1,
    ensures
        spec_wal_entries(src, pos, f1) == spec_wal_entries(src, pos, f2),
    decreases f1,
{
    let st = crate::wal_reader::spec_read_step(src, true, 0, pos, false, false, Seq::empty(), 0);
    crate::wal_reader::lemma_read_step_advance(src, true, 0, pos, false, false, Seq::empty(), 0);
    if st.found {
        match crate::wal::spec_decode_entry(st.payload) {
            Ok(ev) => {
                lemma_wal_entries_fuel(src, st.new_pos, (f1 - 1) as nat, (f2 - 1) as nat);
            },
            Err(e) => {},
        }
    }
}

/// Whether an entry's fields fit their 32-bit length prefixes.
pub open spec fn entry_bounded(e: EntryView) -> bool {
    match e {
        EntryView::Put { key, value } => key.len() < 0x100000000 && value.len() < 0x100000000,
        EntryView::Delete { key } => key.len() < 0x100000000,
    }
}

/// The logical records of a list of entries.
pub open spec fn spec_encode_entries(entries: Seq<EntryView>) -> Seq<Seq<u8>> {
    entries.map_values(|e: EntryView| crate::wal::spec_encode_entry(e))
}

#[verifier::rlimit(100)]
#[verifier::spinoff_prover]
proof fn lemma_scan_emitted_step(src: Seq<u8>, pos: int, entries: Seq<EntryView>)
    requires
        0 <= pos,
        entries.len() > 0,
        forall|i: int| 0 <= i < entries.len() ==> entry_bounded(#[trigger] entries[i]),
        pos + crate::wal_laws::spec_emit_all(
            pos % (crate::wal_format::BLOCK_SIZE as int),
            spec_encode_entries(entries),
        ).len() == src.len(),
        src.subrange(pos, src.len() as int) == crate::wal_laws::spec_emit_all(
            pos % (crate::wal_format::BLOCK_SIZE as int),
            spec_encode_entries(entries),
        ),
    ensures
        ({
            let st = crate::wal_reader::spec_read_step(src, true, 0, pos, false, false, Seq::empty(), 0);
            let pos2 = st.new_pos;
            &&& st.found
            &&& crate::wal::spec_decode_entry(st.payload) == Ok::<EntryView, DecodeError>(
                entries[0],
            )
            &&& pos + crate::wal_format::HEADER_SIZE <= pos2 <= src.len()
            &&& pos2 + crate::wal_laws::spec_emit_all(
                pos2 % (crate::wal_format::BLOCK_SIZE as int),
                spec_encode_entries(entries.skip(1)),
            ).len() == src.len()
            &&& src.subrange(pos2, src.len() as int) == crate::wal_laws::spec_emit_all(
                pos2 % (crate::wal_format::BLOCK_SIZE as int),
                spec_encode_entries(entries.skip(1)),
            )
        }),
{
    let b = crate::wal_format::BLOCK_SIZE as int;
    let off = pos % b;
    let len = src.len() as int;
    let records = spec_encode_entries(entries);
    let e0 = entries[0];
    let r0 = crate::wal::spec_encode_entry(e0);
    assert(records[0] == r0);
    let em0 = crate::wal_writer::spec_emit(off, r0, true);
    let endoff = crate::wal_writer::spec_emit_end(off, r0, true);
    let rest_records = records.skip(1);
    let e_rest = crate::wal_laws::spec_emit_all(endoff, rest_records);
    assert(src.subrange(pos, pos + em0.len()) =~= em0) by {
        assert forall|i: int| 0 <= i < em0.len() implies src.subrange(pos, pos + em0.len())[i]
            == em0[i] by {
            assert(src[pos + i] == src.subrange(pos, len)[i]);
            assert((em0 + e_rest)[i] == em0[i]);
        }
    }
    crate::wal_laws::lemma_read_emitted(src, 0, pos, r0, false, false, Seq::empty(), 0);
    let st = crate::wal_reader::spec_read_step(src, true, 0, pos, false, false, Seq::empty(), 0);
    assert(st.payload =~= r0);
    crate::wal::lemma_entry_codec_round_trip(e0);
    let pos2 = pos + em0.len();
    crate::wal_laws::lemma_emit_min_len(off, r0, true);
    crate::wal_laws::lemma_emit_end_bounds(off, r0, true);
    crate::wal_laws::lemma_emit_end_mod(off, r0, true);
    assert(pos2 % b == endoff % b) by {
        vstd::arithmetic::div_mod::lemma_fundamental_div_mod(pos, b);
        vstd::arithmetic::div_mod::lemma_mod_multiples_vanish(pos / b, off + em0.len(), b);
        assert(pos2 == b * (pos / b) + (off + em0.len()));
    }
    let rest_records2 = spec_encode_entries(entries.skip(1));
    assert(rest_records2 =~= rest_records);
    let e_rest2 = crate::wal_laws::spec_emit_all(pos2 % b, rest_records);
    assert(e_rest2 == e_rest) by {
        if endoff == b {
            vstd::arithmetic::div_mod::lemma_mod_multiples_vanish(1, 0, b);
            assert(endoff % b == 0);
            crate::wal_laws::lemma_emit_all_block_edge(rest_records);
        } else {
            vstd::arithmetic::div_mod::lemma_small_mod(
                endoff as nat,
                crate::wal_format::BLOCK_SIZE as nat,
            );
        }
    }
    assert(src.subrange(pos2, len) =~= e_rest2) by {
        assert forall|i: int| 0 <= i < e_rest.len() implies src.subrange(pos2, len)[i]
            == e_rest[i] by {
            assert(src[pos2 + i] == src.subrange(pos, len)[em0.len() + i]);
            assert((em0 + e_rest)[em0.len() + i] == e_rest[i]);
        }
    }
}

#[verifier::rlimit(100)]
#[verifier::spinoff_prover]
proof fn lemma_scan_emitted(src: Seq<u8>, pos: int, entries: Seq<EntryView>)
    requires
        0 <= pos,
        forall|i: int| 0 <= i < entries.len() ==> entry_bounded(#[trigger] entries[i]),
        pos + crate::wal_laws::spec_emit_all(
            pos % (crate::wal_format::BLOCK_SIZE as int),
            spec_encode_entries(entries),
        ).len() == src.len(),
        src.subrange(pos, src.len() as int) == crate::wal_laws::spec_emit_all(
            pos % (crate::wal_format::BLOCK_SIZE as int),
            spec_encode_entries(entries),
        ),
    ensures
        spec_wal_entries(
            src,
            pos,
            (crate::wal_reader::spec_sat_sub(src.len() as int, pos) + 1) as nat,
        ) == (entries, None::<DecodeError>),
    decreases entries.len(),
{
    let len = src.len() as int;
    let fuel = (crate::wal_reader::spec_sat_sub(len, pos) + 1) as nat;
    if entries.len() == 0 {
        assert(spec_encode_entries(entries).len() == 0);
        assert(pos == len);
        crate::wal_laws::lemma_read_eof(src, pos);
        let st = crate::wal_reader::spec_read_step(src, true, 0, pos, false, false, Seq::empty(), 0);
        assert(!st.found);
        assert(spec_wal_entries(src, pos, fuel).0 =~= entries);
    } else {
        lemma_scan_emitted_step(src, pos, entries);
        let st = crate::wal_reader::spec_read_step(src, true, 0, pos, false, false, Seq::empty(), 0);
        let pos2 = st.new_pos;
        assert forall|i: int| 0 <= i < entries.skip(1).len() implies entry_bounded(
            #[trigger] entries.skip(1)[i],
        ) by {
            assert(entries.skip(1)[i] == entries[i + 1]);
        }
        lemma_scan_emitted(src, pos2, entries.skip(1));
        lemma_wal_entries_fuel(
            src,
            pos2,
            (fuel - 1) as nat,
            (crate::wal_reader::spec_sat_sub(len, pos2) + 1) as nat,
        );
        assert(spec_wal_entries(src, pos, fuel).0 =~= entries) by {
            assert(seq![entries[0]] + entries.skip(1) =~= entries);
        }
    }
}

/// Recovery law: a log holding exactly the encodings of `entries`,
/// appended in order to a fresh log, scans back as exactly those
/// entries with no decode error. Together with `recover`'s contract,
/// replaying such a log rebuilds precisely the memtable state
/// (`spec_replay_get` / `spec_replay_tombstone`) that writing those
/// entries produced.
pub proof fn lemma_recovery_reproduces(entries: Seq<EntryView>)
    requires
        forall|i: int| 0 <= i < entries.len() ==> entry_bounded(#[trigger] entries[i]),
    ensures
        ({
            let src = crate::wal_laws::spec_emit_all(0, spec_encode_entries(entries));
            spec_wal_entries(src, 0, (src.len() + 1) as nat) == (entries, None::<DecodeError>)
        }),
{
    let src = crate::wal_laws::spec_emit_all(0, spec_encode_entries(entries));
    assert(src.subrange(0, src.len() as int) =~= src);
    lemma_scan_emitted(src, 0, entries);
}

/// Visibility law for a key written and then deleted, or deleted and
/// then written, at the end of any history: the later operation wins on
/// reads (while the tombstone, once present, stays recorded).
pub proof fn lemma_put_delete_visibility(entries: Seq<EntryView>, k: Seq<u8>, v: Seq<u8>)
    ensures
        spec_replay_get(entries.push(EntryView::Put { key: k, value: v }).push(EntryView::Delete { key: k }), k)
            is None,
        spec_replay_get(entries.push(EntryView::Delete { key: k }).push(EntryView::Put { key: k, value: v }), k)
            == Some((v, (entries.len() + 2) as nat)),
{
    lemma_replay_snoc(entries.push(EntryView::Put { key: k, value: v }), EntryView::Delete { key: k }, k);
    lemma_replay_snoc(entries.push(EntryView::Delete { key: k }), EntryView::Put { key: k, value: v }, k);
}

/// Stack precedence law: when table `j` holds a live value for `k` and
/// every newer table does not know `k` at all, the stack answers with
/// table `j`'s value — whatever any older table (one with a smaller
/// index) holds for the same key.
pub proof fn lemma_sstable_stack_precedence(stack: Seq<SSTable>, k: Seq<u8>, j: int, v1: Seq<u8>)
    requires
        0 <= j < stack.len(),
        stack[j].spec_query(k) == SstQuery::Found(v1),
        forall|m: int| j < m < stack.len() ==> (#[trigger] stack[m].spec_query(k)) is Absent,
    ensures
        spec_stack_lookup(stack, k) == Some(v1),
    decreases stack.len(),
{
    if j == stack.len() - 1 {
        assert(stack.last() == stack[j]);
    } else {
        assert(stack.last() == stack[stack.len() - 1]);
        assert(stack.last().spec_query(k) is Absent);
        assert(stack.drop_last()[j] == stack[j]);
        assert forall|m: int| j < m < stack.drop_last().len() implies (#[trigger] stack.drop_last(
        )[m].spec_query(k)) is Absent by {
            assert(stack.drop_last()[m] == stack[m]);
        }
        lemma_sstable_stack_precedence(stack.drop_last(), k, j, v1);
    }
}

} // verus!



