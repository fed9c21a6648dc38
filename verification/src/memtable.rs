//! The in-memory staging area: an ordered map from key to (value,
//! sequence) plus an ordered tombstone map, with a capacity test and an
//! atomic drain.
//!
//! Both maps are association vectors whose keys are kept strictly sorted
//! in unsigned lexicographic order; `spec_find` is the lookup they are
//! specified against.
use vstd::prelude::*;

use crate::common::{Key, SequenceNumber, Value};
use crate::comparator::{compare_bytes, lex_lt, lemma_lex_refl, spec_lex_cmp};
use core::cmp::Ordering;

verus! {

/// Number of live entries plus tombstones at which the memtable reports
/// itself full.
pub const MEMTABLE_CAPACITY: usize = 1000;

/// First-match lookup in an association list.
pub open spec fn spec_find<V>(s: Seq<(Key, V)>, k: Seq<u8>) -> Option<V>
    decreases s.len(),
{
    if s.len() == 0 {
        None
    } else if s[0].0@ == k {
        Some(s[0].1)
    } else {
        spec_find(s.skip(1), k)
    }
}

/// The keys are strictly increasing in lexicographic order.
pub open spec fn strictly_sorted_keys<V>(s: Seq<(Key, V)>) -> bool {
    forall|i: int, j: int| 0 <= i < j < s.len() ==> lex_lt(#[trigger] s[i].0@, #[trigger] s[j].0@)
}

/// Lexicographic order is transitive.
pub proof fn lemma_lex_trans(a: Seq<u8>, b: Seq<u8>, c: Seq<u8>)
    requires
        lex_lt(a, b),
        lex_lt(b, c),
    ensures
        lex_lt(a, c),
    decreases a.len() + b.len() + c.len(),
{
    if a.len() == 0 {
        assert(c.len() > 0);
    } else {
        assert(b.len() > 0);
        if c.len() == 0 {
            assert(spec_lex_cmp(b, c) == Ordering::Greater);
        } else {
            if a[0] == b[0] && b[0] == c[0] {
                lemma_lex_trans(a.skip(1), b.skip(1), c.skip(1));
            }
        }
    }
}

/// Strict order separates: a smaller key is a different key.
pub proof fn lemma_lex_lt_neq(a: Seq<u8>, b: Seq<u8>)
    requires
        lex_lt(a, b),
    ensures
        a != b,
{
    if a == b {
        lemma_lex_refl(a);
    }
}

/// A lookup skips any prefix of entries whose keys all miss.
pub proof fn lemma_find_skip_prefix<V>(s: Seq<(Key, V)>, i: int, k: Seq<u8>)
    requires
        0 <= i <= s.len(),
        forall|j: int| 0 <= j < i ==> (#[trigger] s[j]).0@ != k,
    ensures
        spec_find(s, k) == spec_find(s.skip(i), k),
    decreases i,
{
    if i == 0 {
        assert(s.skip(0) =~= s);
    } else {
        assert(s.skip(1).skip(i - 1) =~= s.skip(i));
        assert(forall|j: int| 0 <= j < i - 1 ==> (#[trigger] s.skip(1)[j]).0@ != k);
        lemma_find_skip_prefix(s.skip(1), i - 1, k);
    }
}

/// If no entry carries the key, the lookup misses.
pub proof fn lemma_find_absent<V>(s: Seq<(Key, V)>, k: Seq<u8>)
    requires
        forall|j: int| 0 <= j < s.len() ==> (#[trigger] s[j]).0@ != k,
    ensures
        spec_find(s, k) == None::<V>,
{
    lemma_find_skip_prefix(s, s.len() as int, k);
    assert(s.skip(s.len() as int).len() == 0);
}

/// Replacing the value at a position, keeping its key, leaves every other
/// key's lookup unchanged.
pub proof fn lemma_find_update_other<V>(s: Seq<(Key, V)>, i: int, val: (Key, V), k: Seq<u8>)
    requires
        0 <= i < s.len(),
        val.0@ == s[i].0@,
        val.0@ != k,
    ensures
        spec_find(s.update(i, val), k) == spec_find(s, k),
    decreases i,
{
    let s2 = s.update(i, val);
    if i == 0 {
        assert(s2.skip(1) =~= s.skip(1));
    } else {
        assert(s2[0] == s[0]);
        if s[0].0@ != k {
            assert(s2.skip(1) =~= s.skip(1).update(i - 1, val));
            lemma_find_update_other(s.skip(1), i - 1, val, k);
        }
    }
}

/// Inserting an entry with a different key leaves a key's lookup
/// unchanged.
pub proof fn lemma_find_insert_other<V>(s: Seq<(Key, V)>, i: int, val: (Key, V), k: Seq<u8>)
    requires
        0 <= i <= s.len(),
        val.0@ != k,
    ensures
        spec_find(s.insert(i, val), k) == spec_find(s, k),
    decreases i,
{
    let s2 = s.insert(i, val);
    if i == 0 {
        assert(s2.skip(1) =~= s);
    } else {
        assert(s2[0] == s[0]);
        if s[0].0@ != k {
            assert(s2.skip(1) =~= s.skip(1).insert(i - 1, val));
            lemma_find_insert_other(s.skip(1), i - 1, val, k);
        }
    }
}

/// Removing an entry leaves every other key's lookup unchanged.
pub proof fn lemma_find_remove_other<V>(s: Seq<(Key, V)>, i: int, k: Seq<u8>)
    requires
        0 <= i < s.len(),
        s[i].0@ != k,
    ensures
        spec_find(s.remove(i), k) == spec_find(s, k),
    decreases i,
{
    let s2 = s.remove(i);
    if i == 0 {
        assert(s2 =~= s.skip(1));
    } else {
        assert(s2[0] == s[0]);
        if s[0].0@ != k {
            assert(s2.skip(1) =~= s.skip(1).remove(i - 1));
            lemma_find_remove_other(s.skip(1), i - 1, k);
        }
    }
}

/// In a strictly sorted list a present key is found with its value.
pub proof fn lemma_find_at<V>(s: Seq<(Key, V)>, i: int)
    requires
        0 <= i < s.len(),
        strictly_sorted_keys(s),
    ensures
        spec_find(s, s[i].0@) == Some(s[i].1),
{
    assert forall|j: int| 0 <= j < i implies (#[trigger] s[j]).0@ != s[i].0@ by {
        lemma_lex_lt_neq(s[j].0@, s[i].0@);
    }
    lemma_find_skip_prefix(s, i, s[i].0@);
    assert(s.skip(i)[0] == s[i]);
}

/// The ordered map from key to (value, sequence), the ordered tombstone
/// map, and the running sequence counter.
pub struct MemTable {
    pub map: Vec<(Key, (Value, SequenceNumber))>,
    pub tombstones: Vec<(Key, SequenceNumber)>,
    pub current_sequence_number: SequenceNumber,
}

impl MemTable {
    pub open spec fn wf(self) -> bool {
        &&& strictly_sorted_keys(self.map@)
        &&& strictly_sorted_keys(self.tombstones@)
    }

    /// The live value recorded for `k`, if any.
    pub open spec fn spec_get(self, k: Seq<u8>) -> Option<(Value, SequenceNumber)> {
        spec_find(self.map@, k)
    }

    /// The tombstone recorded for `k`, if any.
    pub open spec fn spec_tombstone(self, k: Seq<u8>) -> Option<SequenceNumber> {
        spec_find(self.tombstones@, k)
    }

    /// Every stored key and value fits in a 32-bit length prefix.
    pub open spec fn bounded_entries(self) -> bool {
        &&& forall|j: int|
            0 <= j < self.map@.len() ==> (#[trigger] self.map@[j]).0@.len() < 0x100000000
                && self.map@[j].1.0@.len() < 0x100000000
        &&& forall|j: int|
            0 <= j < self.tombstones@.len() ==> (#[trigger] self.tombstones@[j]).0@.len()
                < 0x100000000
    }

    /// An empty memtable with the sequence counter at zero.
    pub fn new() -> (r: MemTable)
        ensures
            r.wf(),
            r.map@.len() == 0,
            r.tombstones@.len() == 0,
            r.current_sequence_number == 0,
    {
        MemTable { map: Vec::new(), tombstones: Vec::new(), current_sequence_number: 0 }
    }

    /// Records `key -> value` under the next sequence number,
    /// overwriting any prior live entry; tombstones are untouched.
    pub fn insert(&mut self, key: Key, value: Value)
        requires
            old(self).wf(),
            old(self).current_sequence_number < SequenceNumber::MAX,
        ensures
            final(self).wf(),
            final(self).current_sequence_number == old(self).current_sequence_number + 1,
            final(self).spec_get(key@) == Some(
                (value, (old(self).current_sequence_number + 1) as SequenceNumber),
            ),
            forall|k2: Seq<u8>|
                k2 != key@ ==> #[trigger] final(self).spec_get(k2) == old(self).spec_get(k2),
            final(self).tombstones@ == old(self).tombstones@,
            final(self).map@.len() == (if old(self).spec_get(key@) is Some {
                old(self).map@.len() as int
            } else {
                old(self).map@.len() as int + 1
            }),
            old(self).bounded_entries() && key@.len() < 0x100000000 && value@.len() < 0x100000000
                ==> final(self).bounded_entries(),
    {
        self.current_sequence_number = self.current_sequence_number + 1;
        let seq_no = self.current_sequence_number;
        let ghost k = key@;
        let pos = lower_bound(&self.map, key.as_slice());
        let n = self.map.len();
        if pos < n {
            let hit = matches!(compare_bytes(self.map[pos].0.as_slice(), key.as_slice()), Ordering::Equal);
            if hit {
                proof {
                    lemma_cmp_equal_implies_eq(self.map@[pos as int].0@, k);
                }
                let ghost pre = self.map@;
                proof {
                    lemma_find_at(pre, pos as int);
                }
                self.map[pos] = (key, (value, seq_no));
                proof {
                    lemma_sorted_update(pre, pos as int, (key, (value, seq_no)));
                    lemma_find_at(self.map@, pos as int);
                    assert forall|k2: Seq<u8>| k2 != k implies #[trigger] spec_find(
                        self.map@,
                        k2,
                    ) == spec_find(pre, k2) by {
                        lemma_find_update_other(pre, pos as int, (key, (value, seq_no)), k2);
                    }
                    assert forall|j: int| 0 <= j < self.map@.len() && j != pos implies (
                    #[trigger] self.map@[j]) == pre[j] by {}
                }
                return ;
            }
        }
        let ghost pre = self.map@;
        proof {
            if pos < pre.len() && pre[pos as int].0@ == k {
                lemma_lex_refl(k);
            }
            lemma_map_absent_at_bound(pre, pos as int, k);
        }
        self.map.insert(pos, (key, (value, seq_no)));
        proof {
            lemma_sorted_insert(pre, pos as int, (key, (value, seq_no)));
            lemma_find_at(self.map@, pos as int);
            assert forall|k2: Seq<u8>| k2 != k implies #[trigger] spec_find(self.map@, k2)
                == spec_find(pre, k2) by {
                lemma_find_insert_other(pre, pos as int, (key, (value, seq_no)), k2);
            }
            assert forall|j: int| 0 <= j < self.map@.len() && j != pos implies exists|j0: int|
                0 <= j0 < pre.len() && (#[trigger] self.map@[j]) == pre[j0] by {
                if j < pos {
                    assert(self.map@[j] == pre[j]);
                } else {
                    assert(self.map@[j] == pre[j - 1]);
                }
            }
        }
    }

    /// Removes any live entry for `key` and records a tombstone under the
    /// next sequence number.
    pub fn delete(&mut self, key: Key)
        requires
            old(self).wf(),
            old(self).current_sequence_number < SequenceNumber::MAX,
        ensures
            final(self).wf(),
            final(self).current_sequence_number == old(self).current_sequence_number + 1,
            final(self).spec_get(key@) == None::<(Value, SequenceNumber)>,
            final(self).spec_tombstone(key@) == Some(
                (old(self).current_sequence_number + 1) as SequenceNumber,
            ),
            forall|k2: Seq<u8>|
                k2 != key@ ==> #[trigger] final(self).spec_get(k2) == old(self).spec_get(k2),
            forall|k2: Seq<u8>|
                k2 != key@ ==> #[trigger] final(self).spec_tombstone(k2) == old(
                    self,
                ).spec_tombstone(k2),
            final(self).map@.len() == (if old(self).spec_get(key@) is Some {
                old(self).map@.len() as int - 1
            } else {
                old(self).map@.len() as int
            }),
            final(self).tombstones@.len() == (if old(self).spec_tombstone(key@) is Some {
                old(self).tombstones@.len() as int
            } else {
                old(self).tombstones@.len() as int + 1
            }),
            old(self).bounded_entries() && key@.len() < 0x100000000
                ==> final(self).bounded_entries(),
    {
        self.current_sequence_number = self.current_sequence_number + 1;
        let seq_no = self.current_sequence_number;
        let ghost k = key@;
        // Drop the live entry, if one exists.
        let pos = lower_bound(&self.map, key.as_slice());
        if pos < self.map.len() {
            let hit = matches!(compare_bytes(self.map[pos].0.as_slice(), key.as_slice()), Ordering::Equal);
            if hit {
                proof {
                    lemma_cmp_equal_implies_eq(self.map@[pos as int].0@, k);
                }
                let ghost pre = self.map@;
                proof {
                    lemma_find_at(pre, pos as int);
                }
                self.map.remove(pos);
                proof {
                    lemma_sorted_remove(pre, pos as int);
                    assert forall|j: int| 0 <= j < self.map@.len() implies exists|j0: int|
                        0 <= j0 < pre.len() && (#[trigger] self.map@[j]) == pre[j0] by {
                        if j < pos {
                            assert(self.map@[j] == pre[j]);
                        } else {
                            assert(self.map@[j] == pre[j + 1]);
                        }
                    }
                    assert forall|k2: Seq<u8>| k2 != k implies #[trigger] spec_find(
                        self.map@,
                        k2,
                    ) == spec_find(pre, k2) by {
                        lemma_find_remove_other(pre, pos as int, k2);
                    }
                    assert forall|j: int| 0 <= j < self.map@.len() implies (#[trigger] self.map@[
                        j
                    ]).0@ != k by {
                        if j < pos {
                            lemma_lex_lt_neq(self.map@[j].0@, k);
                        } else {
                            lemma_lex_lt_neq(k, self.map@[j].0@);
                        }
                    }
                    lemma_find_absent(self.map@, k);
                }
            } else {
                proof {
                    if self.map@[pos as int].0@ == k {
                        lemma_lex_refl(k);
                    }
                    lemma_map_absent_at_bound(self.map@, pos as int, k);
                }
            }
        } else {
            proof {
                lemma_map_absent_at_bound(self.map@, pos as int, k);
            }
        }
        // Record the tombstone.
        let tpos = lower_bound(&self.tombstones, key.as_slice());
        if tpos < self.tombstones.len() {
            let hit = matches!(compare_bytes(self.tombstones[tpos].0.as_slice(), key.as_slice()), Ordering::Equal);
            if hit {
                proof {
                    lemma_cmp_equal_implies_eq(self.tombstones@[tpos as int].0@, k);
                }
                let ghost pre = self.tombstones@;
                proof {
                    lemma_find_at(pre, tpos as int);
                }
                self.tombstones[tpos] = (key, seq_no);
                proof {
                    assert forall|j: int| 0 <= j < self.tombstones@.len() && j != tpos implies (
                    #[trigger] self.tombstones@[j]) == pre[j] by {}
                    lemma_sorted_update(pre, tpos as int, (key, seq_no));
                    lemma_find_at(self.tombstones@, tpos as int);
                    assert forall|k2: Seq<u8>| k2 != k implies #[trigger] spec_find(
                        self.tombstones@,
                        k2,
                    ) == spec_find(pre, k2) by {
                        lemma_find_update_other(pre, tpos as int, (key, seq_no), k2);
                    }
                }
                return ;
            }
        }
        let ghost pre = self.tombstones@;
        proof {
            if tpos < pre.len() && pre[tpos as int].0@ == k {
                lemma_lex_refl(k);
            }
            lemma_map_absent_at_bound(pre, tpos as int, k);
        }
        self.tombstones.insert(tpos, (key, seq_no));
        proof {
            lemma_sorted_insert(pre, tpos as int, (key, seq_no));
            lemma_find_at(self.tombstones@, tpos as int);
            assert forall|k2: Seq<u8>| k2 != k implies #[trigger] spec_find(self.tombstones@, k2)
                == spec_find(pre, k2) by {
                lemma_find_insert_other(pre, tpos as int, (key, seq_no), k2);
            }
            assert forall|j: int| 0 <= j < self.tombstones@.len() && j != tpos implies exists|
                j0: int,
            | 0 <= j0 < pre.len() && (#[trigger] self.tombstones@[j]) == pre[j0] by {
                if j < tpos {
                    assert(self.tombstones@[j] == pre[j]);
                } else {
                    assert(self.tombstones@[j] == pre[j - 1]);
                }
            }
        }
    }

    /// The live (value, sequence) entry for `key`, if present. Tombstones
    /// are not consulted here.
    pub fn get(&self, key: &Key) -> (r: Option<(Value, SequenceNumber)>)
        requires
            self.wf(),
        ensures
            ({
                match self.spec_get(key@) {
                    Some(p) => r matches Some(q) && q.0@ == p.0@ && q.1 == p.1,
                    None => r is None,
                }
            }),
    {
        let pos = lower_bound(&self.map, key.as_slice());
        if pos < self.map.len() {
            let hit = matches!(compare_bytes(self.map[pos].0.as_slice(), key.as_slice()), Ordering::Equal);
            if hit {
                proof {
                    lemma_cmp_equal_implies_eq(self.map@[pos as int].0@, key@);
                    lemma_find_at(self.map@, pos as int);
                }
                let entry = &self.map[pos].1;
                let v = vstd::slice::slice_to_vec(entry.0.as_slice());
                return Some((v, entry.1));
            }
        }
        proof {
            if pos < self.map@.len() && self.map@[pos as int].0@ == key@ {
                lemma_lex_refl(key@);
            }
            lemma_map_absent_at_bound(self.map@, pos as int, key@);
        }
        None
    }

    /// Whether a tombstone is recorded for `key`.
    pub fn contains_tombstone(&self, key: &Key) -> (r: bool)
        requires
            self.wf(),
        ensures
            r == (self.spec_tombstone(key@) is Some),
    {
        let pos = lower_bound(&self.tombstones, key.as_slice());
        if pos < self.tombstones.len() {
            let hit = matches!(compare_bytes(self.tombstones[pos].0.as_slice(), key.as_slice()), Ordering::Equal);
            if hit {
                proof {
                    lemma_cmp_equal_implies_eq(self.tombstones@[pos as int].0@, key@);
                    lemma_find_at(self.tombstones@, pos as int);
                }
                return true;
            }
        }
        proof {
            if pos < self.tombstones@.len() && self.tombstones@[pos as int].0@ == key@ {
                lemma_lex_refl(key@);
            }
            lemma_map_absent_at_bound(self.tombstones@, pos as int, key@);
        }
        false
    }

    /// True when live entries plus tombstones reach the capacity.
    pub fn is_full(&self) -> (r: bool)
        ensures
            r == (self.map@.len() + self.tombstones@.len() >= MEMTABLE_CAPACITY),
    {
        let a = self.map.len();
        let b = self.tombstones.len();
        if a >= MEMTABLE_CAPACITY {
            true
        } else {
            b >= MEMTABLE_CAPACITY - a
        }
    }

    /// Atomically yields both maps, leaving them empty; the sequence
    /// counter keeps counting.
    pub fn flush(&mut self) -> (r: (Vec<(Key, (Value, SequenceNumber))>, Vec<(Key, SequenceNumber)>))
        requires
            old(self).wf(),
        ensures
            final(self).wf(),
            r.0@ == old(self).map@,
            r.1@ == old(self).tombstones@,
            strictly_sorted_keys(r.0@),
            strictly_sorted_keys(r.1@),
            final(self).map@.len() == 0,
            final(self).tombstones@.len() == 0,
            final(self).current_sequence_number == old(self).current_sequence_number,
    {
        let mut data: Vec<(Key, (Value, SequenceNumber))> = Vec::new();
        let mut tombstones: Vec<(Key, SequenceNumber)> = Vec::new();
        core::mem::swap(&mut self.map, &mut data);
        core::mem::swap(&mut self.tombstones, &mut tombstones);
        (data, tombstones)
    }
}

/// `Equal` outcomes of the comparator mean the byte strings are the same.
pub proof fn lemma_cmp_equal_implies_eq(a: Seq<u8>, b: Seq<u8>)
    requires
        spec_lex_cmp(a, b) == Ordering::Equal,
    ensures
        a == b,
    decreases a.len(),
{
    if a.len() == 0 {
        assert(b.len() == 0);
        assert(a =~= b);
    } else {
        assert(b.len() > 0);
        assert(a[0] == b[0]);
        lemma_cmp_equal_implies_eq(a.skip(1), b.skip(1));
        assert(a =~= b) by {
            assert(a.skip(1) == b.skip(1));
            assert(a.len() == b.len());
            assert forall|i: int| 0 <= i < a.len() implies a[i] == b[i] by {
                if i > 0 {
                    assert(a[i] == a.skip(1)[i - 1]);
                    assert(b[i] == b.skip(1)[i - 1]);
                }
            }
        }
    }
}

/// After `lower_bound` reports `pos` and the entry there (if any) does
/// not equal `k`, the key is absent from the whole sorted list.
proof fn lemma_map_absent_at_bound<V>(s: Seq<(Key, V)>, pos: int, k: Seq<u8>)
    requires
        strictly_sorted_keys(s),
        0 <= pos <= s.len(),
        forall|j: int| 0 <= j < pos ==> lex_lt((#[trigger] s[j]).0@, k),
        pos < s.len() ==> !lex_lt(s[pos].0@, k),
        pos < s.len() ==> s[pos].0@ != k,
    ensures
        spec_find(s, k) == None::<V>,
{
    assert forall|j: int| 0 <= j < s.len() implies (#[trigger] s[j]).0@ != k by {
        if j < pos {
            lemma_lex_lt_neq(s[j].0@, k);
        } else if j > pos {
            lemma_lex_cmp_cases(s[pos].0@, k);
            if lex_lt(k, s[pos].0@) {
                lemma_lex_trans(k, s[pos].0@, s[j].0@);
                lemma_lex_lt_neq(k, s[j].0@);
            }
        }
    }
    lemma_find_absent(s, k);
}

/// A comparison is exactly one of less, equal (same bytes), or greater
/// (the other way around).
pub proof fn lemma_lex_cmp_cases(a: Seq<u8>, b: Seq<u8>)
    ensures
        spec_lex_cmp(a, b) == Ordering::Equal ==> a == b,
        spec_lex_cmp(a, b) == Ordering::Greater ==> lex_lt(b, a),
        spec_lex_cmp(a, b) == Ordering::Less ==> lex_lt(a, b),
    decreases a.len(),
{
    if spec_lex_cmp(a, b) == Ordering::Equal {
        lemma_cmp_equal_implies_eq(a, b);
    }
    if a.len() > 0 && b.len() > 0 && a[0] == b[0] {
        lemma_lex_cmp_cases(a.skip(1), b.skip(1));
    }
}

/// Updating a position with an entry of the same key keeps the list
/// sorted.
proof fn lemma_sorted_update<V>(s: Seq<(Key, V)>, i: int, val: (Key, V))
    requires
        strictly_sorted_keys(s),
        0 <= i < s.len(),
        val.0@ == s[i].0@,
    ensures
        strictly_sorted_keys(s.update(i, val)),
{
    let s2 = s.update(i, val);
    assert forall|p: int, q: int| 0 <= p < q < s2.len() implies lex_lt(
        (#[trigger] s2[p]).0@,
        (#[trigger] s2[q]).0@,
    ) by {
        assert(s[p].0@ == s2[p].0@);
        assert(s[q].0@ == s2[q].0@);
    }
}

/// Inserting at the position `lower_bound` found keeps the list sorted.
proof fn lemma_sorted_insert<V>(s: Seq<(Key, V)>, i: int, val: (Key, V))
    requires
        strictly_sorted_keys(s),
        0 <= i <= s.len(),
        forall|j: int| 0 <= j < i ==> lex_lt((#[trigger] s[j]).0@, val.0@),
        i < s.len() ==> !lex_lt(s[i].0@, val.0@) && s[i].0@ != val.0@,
    ensures
        strictly_sorted_keys(s.insert(i, val)),
{
    let s2 = s.insert(i, val);
    if i < s.len() {
        lemma_lex_cmp_cases(s[i].0@, val.0@);
    }
    assert forall|p: int, q: int| 0 <= p < q < s2.len() implies lex_lt(
        (#[trigger] s2[p]).0@,
        (#[trigger] s2[q]).0@,
    ) by {
        if p < i && q > i {
            assert(s2[p] == s[p] && s2[q] == s[q - 1]);
        } else if p == i {
            assert(s2[q] == s[q - 1]);
            if q - 1 > i {
                lemma_lex_trans(val.0@, s[i].0@, s[q - 1].0@);
            }
        } else if q == i {
            assert(s2[p] == s[p]);
        } else if q < i {
            assert(s2[p] == s[p] && s2[q] == s[q]);
        } else {
            assert(s2[p] == s[p - 1] && s2[q] == s[q - 1]);
        }
    }
}

/// Removing an entry keeps the list sorted.
proof fn lemma_sorted_remove<V>(s: Seq<(Key, V)>, i: int)
    requires
        strictly_sorted_keys(s),
        0 <= i < s.len(),
    ensures
        strictly_sorted_keys(s.remove(i)),
{
    let s2 = s.remove(i);
    assert forall|p: int, q: int| 0 <= p < q < s2.len() implies lex_lt(
        (#[trigger] s2[p]).0@,
        (#[trigger] s2[q]).0@,
    ) by {
        let p0 = if p < i {
            p
        } else {
            p + 1
        };
        let q0 = if q < i {
            q
        } else {
            q + 1
        };
        assert(s2[p] == s[p0] && s2[q] == s[q0]);
    }
}

/// Index of the first entry whose key is at or after `k` in the sorted
/// association vector.
pub fn lower_bound<V>(s: &Vec<(Key, V)>, k: &[u8]) -> (pos: usize)
    requires
        strictly_sorted_keys(s@),
    ensures
        pos <= s@.len(),
        forall|j: int| 0 <= j < pos ==> lex_lt((#[trigger] s@[j]).0@, k@),
        pos < s@.len() ==> !lex_lt(s@[pos as int].0@, k@),
{
    let n = s.len();
    let mut i: usize = 0;
    while i < n
        invariant
            i <= n,
            n == s@.len(),
            strictly_sorted_keys(s@),
            forall|j: int| 0 <= j < i ==> lex_lt((#[trigger] s@[j]).0@, k@),
        decreases n - i,
    {
        let c = compare_bytes(s[i].0.as_slice(), k);
        let is_less = matches!(c, Ordering::Less);
        if !is_less {
            return i;
        }
        i = i + 1;
    }
    i
}

} // verus!
