//! Immutable sorted tables: a drained memtable serialised into a packed
//! byte image, with an in-memory key→offset index and a Bloom filter.
//!
//! Entry layout: 1-byte tag (0 = Put, 1 = Delete), 8-byte big-endian
//! sequence number, 4-byte big-endian key length, the key, and — for Put
//! only — 4-byte big-endian value length and the value.
use vstd::prelude::*;

use crate::bloom_filter::{spec_index1, spec_index2, BloomFilter};
use crate::common::{
    lemma_be32_roundtrip, put_be32, put_be64, spec_be32, spec_be32_val, spec_be64, DecodeError,
    Entry, EntryView, Key, SequenceNumber, Value,
};
use crate::comparator::{lemma_lex_refl, lex_lt};
use crate::memtable::{
    lemma_find_at, lemma_find_absent, lemma_find_insert_other, lemma_find_skip_prefix,
    lemma_find_update_other, lemma_lex_lt_neq, lower_bound, spec_find, strictly_sorted_keys,
    lemma_cmp_equal_implies_eq, lemma_lex_cmp_cases, lemma_lex_trans,
};
use crate::comparator::compare_bytes;
use core::cmp::Ordering;

verus! {

/// The byte image of one table entry.
#[verifier::opaque]
pub open spec fn spec_entry_encoding(
    tag: u8,
    key: Seq<u8>,
    value: Option<Seq<u8>>,
    seq_no: nat,
) -> Seq<u8> {
    seq![tag] + spec_be64(seq_no) + spec_be32(key.len()) + key + (match value {
        Some(v) => spec_be32(v.len()) + v,
        None => Seq::empty(),
    })
}

/// The key a decoded entry speaks of.
pub open spec fn entry_view_key(ev: EntryView) -> Seq<u8> {
    match ev {
        EntryView::Put { key, .. } => key,
        EntryView::Delete { key } => key,
    }
}

/// Decodes the entry starting at `pos`: its logical view and the offset
/// just past it, or the first failure met reading tag, sequence, key and
/// value in order.
#[verifier::opaque]
pub open spec fn spec_entry_at(src: Seq<u8>, pos: int) -> Result<(EntryView, int), DecodeError> {
    let len = src.len() as int;
    if pos < 0 || pos + 9 > len {
        Err(DecodeError::PayloadTruncated)
    } else {
        let tag = src[pos];
        let kstart = pos + 9;
        if kstart + 4 > len {
            Err(DecodeError::InvalidKey)
        } else {
            let klen = spec_be32_val(
                src[kstart],
                src[kstart + 1],
                src[kstart + 2],
                src[kstart + 3],
            ) as int;
            if kstart + 4 + klen > len {
                Err(DecodeError::InvalidKey)
            } else {
                let key = src.subrange(kstart + 4, kstart + 4 + klen);
                let vstart = kstart + 4 + klen;
                if tag == 0 {
                    if vstart + 4 > len {
                        Err(DecodeError::InvalidValue)
                    } else {
                        let vlen = spec_be32_val(
                            src[vstart],
                            src[vstart + 1],
                            src[vstart + 2],
                            src[vstart + 3],
                        ) as int;
                        if vstart + 4 + vlen > len {
                            Err(DecodeError::InvalidValue)
                        } else {
                            Ok(
                                (
                                    EntryView::Put {
                                        key,
                                        value: src.subrange(vstart + 4, vstart + 4 + vlen),
                                    },
                                    vstart + 4 + vlen,
                                ),
                            )
                        }
                    }
                } else if tag == 1 {
                    Ok((EntryView::Delete { key }, vstart))
                } else {
                    Err(DecodeError::InvalidEntryType)
                }
            }
        }
    }
}

/// Serialises one entry onto the end of `writer`.
pub fn write_entry(
    writer: &mut Vec<u8>,
    entry_type: u8,
    key: &Key,
    value: Option<&Value>,
    sequence_number: SequenceNumber,
)
    requires
        key@.len() < 0x100000000,
        match value {
            Some(v) => v@.len() < 0x100000000,
            None => true,
        },
    ensures
        final(writer)@ == old(writer)@ + spec_entry_encoding(
            entry_type,
            key@,
            match value {
                Some(v) => Some(v@),
                None => None,
            },
            sequence_number as nat,
        ),
{
    proof {
        reveal(spec_entry_encoding);
    }
    let ghost pre = writer@;
    writer.push(entry_type);
    put_be64(writer, sequence_number);
    put_be32(writer, key.len() as u32);
    writer.extend_from_slice(key.as_slice());
    match value {
        Some(v) => {
            put_be32(writer, v.len() as u32);
            writer.extend_from_slice(v.as_slice());
            proof {
                assert(writer@ =~= pre + spec_entry_encoding(
                    entry_type,
                    key@,
                    Some(v@),
                    sequence_number as nat,
                ));
            }
        },
        None => {
            proof {
                assert(writer@ =~= pre + spec_entry_encoding(
                    entry_type,
                    key@,
                    None,
                    sequence_number as nat,
                ));
            }
        },
    }
}

/// Reads one entry at `offset`, returning it with the offset just past
/// it.
pub fn read_entry(src: &[u8], offset: usize) -> (r: Result<(Entry, usize), DecodeError>)
    ensures
        ({
            match spec_entry_at(src@, offset as int) {
                Ok((ev, end)) => match r {
                    Ok((e, n)) => e@ == ev && n == end,
                    Err(_) => false,
                },
                Err(er) => r == Err::<(Entry, usize), DecodeError>(er),
            }
        }),
{
    proof {
        reveal(spec_entry_at);
    }
    let len = src.len();
    if offset >= len || len - offset < 9 {
        return Err(DecodeError::PayloadTruncated);
    }
    let tag = src[offset];
    let kstart = offset + 9;
    if len - kstart < 4 {
        return Err(DecodeError::InvalidKey);
    }
    let klen_u32 = crate::common::get_be32(src, kstart);
    let klen = klen_u32 as usize;
    if klen > len - kstart - 4 {
        return Err(DecodeError::InvalidKey);
    }
    let key = vstd::slice::slice_to_vec(&src[kstart + 4..kstart + 4 + klen]);
    let vstart = kstart + 4 + klen;
    if tag == 0 {
        if len - vstart < 4 {
            return Err(DecodeError::InvalidValue);
        }
        let vlen_u32 = crate::common::get_be32(src, vstart);
        let vlen = vlen_u32 as usize;
        if vlen > len - vstart - 4 {
            return Err(DecodeError::InvalidValue);
        }
        let value = vstd::slice::slice_to_vec(&src[vstart + 4..vstart + 4 + vlen]);
        Ok((Entry::Put { key, value }, vstart + 4 + vlen))
    } else if tag == 1 {
        Ok((Entry::Delete { key }, vstart))
    } else {
        Err(DecodeError::InvalidEntryType)
    }
}

/// A freshly written entry decodes back to itself, wherever it stands in
/// the image.
pub proof fn lemma_entry_round_trip(
    src: Seq<u8>,
    pos: int,
    tag: u8,
    key: Seq<u8>,
    value: Option<Seq<u8>>,
    seq_no: nat,
)
    requires
        0 <= pos,
        tag == 0 || tag == 1,
        (tag == 0) <==> (value is Some),
        key.len() < 0x100000000,
        match value {
            Some(v) => v.len() < 0x100000000,
            None => true,
        },
        pos + spec_entry_encoding(tag, key, value, seq_no).len() <= src.len(),
        src.subrange(pos, pos + spec_entry_encoding(tag, key, value, seq_no).len())
            == spec_entry_encoding(tag, key, value, seq_no),
    ensures
        spec_entry_at(src, pos) == Ok::<(EntryView, int), DecodeError>(
            (
                match value {
                    Some(v) => EntryView::Put { key, value: v },
                    None => EntryView::Delete { key },
                },
                pos + spec_entry_encoding(tag, key, value, seq_no).len(),
            ),
        ),
{
    reveal(spec_entry_at);
    reveal(spec_entry_encoding);
    let enc = spec_entry_encoding(tag, key, value, seq_no);
    let klen = key.len() as int;
    assert forall|i: int| 0 <= i < enc.len() implies src[pos + i] == enc[i] by {
        assert(src.subrange(pos, pos + enc.len())[i] == src[pos + i]);
    }
    assert(enc[0] == tag);
    let kb = spec_be32(key.len());
    assert(enc[9] == kb[0] && enc[10] == kb[1] && enc[11] == kb[2] && enc[12] == kb[3]);
    lemma_be32_roundtrip(key.len());
    assert(src.subrange(pos + 13, pos + 13 + klen) =~= key) by {
        assert forall|j: int| 0 <= j < klen implies src[pos + 13 + j] == key[j] by {
            assert(enc[13 + j] == key[j]);
        }
    }
    match value {
        Some(v) => {
            let vstart = pos + 13 + klen;
            let vb = spec_be32(v.len());
            assert(enc[13 + klen] == vb[0] && enc[13 + klen + 1] == vb[1] && enc[13 + klen + 2]
                == vb[2] && enc[13 + klen + 3] == vb[3]);
            lemma_be32_roundtrip(v.len());
            assert(src.subrange(vstart + 4, vstart + 4 + v.len()) =~= v) by {
                assert forall|j: int| 0 <= j < v.len() implies src[vstart + 4 + j] == v[j] by {
                    assert(enc[13 + klen + 4 + j] == v[j]);
                }
            }
        },
        None => {},
    }
}

/// A successful decode is untouched by bytes appended after it.
pub proof fn lemma_entry_at_stable(src1: Seq<u8>, src2: Seq<u8>, pos: int)
    requires
        src1.len() <= src2.len(),
        forall|i: int| 0 <= i < src1.len() ==> src1[i] == #[trigger] src2[i],
        spec_entry_at(src1, pos) is Ok,
    ensures
        spec_entry_at(src2, pos) == spec_entry_at(src1, pos),
{
    reveal(spec_entry_at);
    let len1 = src1.len() as int;
    let kstart = pos + 9;
    let klen = spec_be32_val(
        src1[kstart],
        src1[kstart + 1],
        src1[kstart + 2],
        src1[kstart + 3],
    ) as int;
    assert(src2.subrange(kstart + 4, kstart + 4 + klen) =~= src1.subrange(
        kstart + 4,
        kstart + 4 + klen,
    ));
    let vstart = kstart + 4 + klen;
    if src1[pos] == 0 {
        let vlen = spec_be32_val(
            src1[vstart],
            src1[vstart + 1],
            src1[vstart + 2],
            src1[vstart + 3],
        ) as int;
        assert(src2.subrange(vstart + 4, vstart + 4 + vlen) =~= src1.subrange(
            vstart + 4,
            vstart + 4 + vlen,
        ));
    }
}

/// What a table knows about one key.
pub enum SstQuery {
    /// A live value.
    Found(Seq<u8>),
    /// The key is explicitly deleted here.
    Tombstone,
    /// The table does not know the key.
    Absent,
}

/// Invariant of a table's components: the index is strictly sorted, and
/// every indexed offset decodes to an entry for that key whose Bloom bits
/// are set.
pub open spec fn table_inv(index: Seq<(Key, u64)>, data: Seq<u8>, bloom: BloomFilter) -> bool {
    &&& strictly_sorted_keys(index)
    &&& bloom.wf()
    &&& forall|i: int|
        0 <= i < index.len() ==> {
            let k = (#[trigger] index[i]).0@;
            let off = index[i].1 as int;
            &&& match spec_entry_at(data, off) {
                Ok((ev, _)) => entry_view_key(ev) == k,
                Err(_) => false,
            }
            &&& bloom.bit_array@[spec_index1(k, bloom.size as nat)]
            &&& bloom.bit_array@[spec_index2(k, bloom.size as nat)]
        }
}

/// The three-way answer the table's components give for a key.
pub open spec fn table_query(index: Seq<(Key, u64)>, data: Seq<u8>, k: Seq<u8>) -> SstQuery {
    match spec_find(index, k) {
        Some(off) => match spec_entry_at(data, off as int) {
            Ok((EntryView::Put { value, .. }, _)) => SstQuery::Found(value),
            Ok((EntryView::Delete { .. }, _)) => SstQuery::Tombstone,
            Err(_) => SstQuery::Absent,
        },
        None => SstQuery::Absent,
    }
}

/// The answer a freshly written table owes: a tombstone wins, else the
/// live value, else nothing.
pub open spec fn spec_merged(
    data: Seq<(Key, (Value, SequenceNumber))>,
    tombs: Seq<(Key, SequenceNumber)>,
    k: Seq<u8>,
) -> SstQuery {
    if spec_find(tombs, k) is Some {
        SstQuery::Tombstone
    } else {
        match spec_find(data, k) {
            Some(p) => SstQuery::Found(p.0@),
            None => SstQuery::Absent,
        }
    }
}

/// An immutable sorted table: its file path, its byte image, the dense
/// key→offset index, and the Bloom filter over all its keys.
pub struct SSTable {
    pub file_path: String,
    pub index: Vec<(Key, u64)>,
    pub bloom_filter: BloomFilter,
    pub data: Vec<u8>,
}

impl SSTable {
    pub open spec fn wf(self) -> bool {
        table_inv(self.index@, self.data@, self.bloom_filter)
    }

    /// What this table knows about `k`.
    pub open spec fn spec_query(self, k: Seq<u8>) -> SstQuery {
        table_query(self.index@, self.data@, k)
    }

    /// Wraps existing components.
    pub fn new(file_path: String, index: Vec<(Key, u64)>, bloom_filter: BloomFilter, data: Vec<u8>) -> (r: SSTable)
        ensures
            r.file_path@ == file_path@,
            r.index@ == index@,
            r.bloom_filter == bloom_filter,
            r.data@ == data@,
    {
        SSTable { file_path, index, bloom_filter, data }
    }

    /// Whether the index knows the key at all (live or tombstoned).
    pub fn index_contains(&self, key: &Key) -> (r: bool)
        requires
            self.wf(),
        ensures
            r == (spec_find(self.index@, key@) is Some),
    {
        let pos = lower_bound(&self.index, key.as_slice());
        if pos < self.index.len() {
            let hit = matches!(compare_bytes(self.index[pos].0.as_slice(), key.as_slice()), Ordering::Equal);
            if hit {
                proof {
                    lemma_cmp_equal_implies_eq(self.index@[pos as int].0@, key@);
                    lemma_find_at(self.index@, pos as int);
                }
                return true;
            }
        }
        proof {
            if pos < self.index@.len() && self.index@[pos as int].0@ == key@ {
                lemma_lex_refl(key@);
            }
            lemma_absent_at_bound(self.index@, pos as int, key@);
        }
        false
    }

    /// Point lookup: consult the Bloom filter, then the index, then
    /// decode the entry at the stored offset. Returns the value for a
    /// live entry (the sequence number is not persisted back) and `None`
    /// both for a tombstone and for an unknown key.
    pub fn get(&self, key: &Key) -> (r: Option<(Value, SequenceNumber)>)
        requires
            self.wf(),
        ensures
            ({
                match self.spec_query(key@) {
                    SstQuery::Found(v) => match r {
                        Some(p) => p.0@ == v && p.1 == 0,
                        None => false,
                    },
                    SstQuery::Tombstone => r is None,
                    SstQuery::Absent => r is None,
                }
            }),
    {
        if !self.bloom_filter.contains(key) {
            proof {
                match spec_find(self.index@, key@) {
                    Some(_) => {
                        lemma_find_some_present(self.index@, key@);
                        let i = choose|i: int|
                            0 <= i < self.index@.len() && (#[trigger] self.index@[i]).0@ == key@;
                        assert(false);
                    },
                    None => {},
                }
            }
            return None;
        }
        let pos = lower_bound(&self.index, key.as_slice());
        if pos < self.index.len() {
            let hit = matches!(compare_bytes(self.index[pos].0.as_slice(), key.as_slice()), Ordering::Equal);
            if hit {
                proof {
                    lemma_cmp_equal_implies_eq(self.index@[pos as int].0@, key@);
                    lemma_find_at(self.index@, pos as int);
                }
                let off64 = self.index[pos].1;
                let dlen = self.data.len();
                proof {
                    assert(spec_entry_at(self.data@, off64 as int) is Ok);
                    reveal(spec_entry_at);
                    assert(off64 as int + 9 <= dlen as int);
                }
                let off = off64 as usize;
                match read_entry(self.data.as_slice(), off) {
                    Ok((Entry::Put { key: _, value }, _)) => {
                        return Some((value, 0));
                    },
                    Ok((Entry::Delete { .. }, _)) => {
                        return None;
                    },
                    Err(_) => {
                        return None;
                    },
                }
            }
        }
        proof {
            if pos < self.index@.len() && self.index@[pos as int].0@ == key@ {
                lemma_lex_refl(key@);
            }
            lemma_absent_at_bound(self.index@, pos as int, key@);
        }
        None
    }

    /// Serialises a drained memtable: the live entries in key order, then
    /// the tombstones in key order; builds the index and the Bloom filter
    /// along the way. A key both live and tombstoned ends up indexed at
    /// its tombstone (the later pass wins).
    pub fn write(
        data: Vec<(Key, (Value, SequenceNumber))>,
        tombstones: Vec<(Key, SequenceNumber)>,
        file_path: &str,
    ) -> (r: SSTable)
        requires
            strictly_sorted_keys(data@),
            strictly_sorted_keys(tombstones@),
            forall|i: int|
                0 <= i < data@.len() ==> (#[trigger] data@[i]).0@.len() < 0x100000000
                    && data@[i].1.0@.len() < 0x100000000,
            forall|i: int|
                0 <= i < tombstones@.len() ==> (#[trigger] tombstones@[i]).0@.len() < 0x100000000,
        ensures
            r.wf(),
            forall|k: Seq<u8>|
                #[trigger] r.spec_query(k) == spec_merged(data@, tombstones@, k),
            r.file_path@ == file_path@,
    {
        let mut file: Vec<u8> = Vec::new();
        let mut index: Vec<(Key, u64)> = Vec::new();
        let mut bloom = BloomFilter::default();
        let n = data.len();
        let mut i: usize = 0;
        proof {
            assert(data@.take(0) =~= Seq::<(Key, (Value, SequenceNumber))>::empty());
            assert forall|k: Seq<u8>| #[trigger] table_query(index@, file@, k) == spec_merged(
                data@.take(0),
                Seq::empty(),
                k,
            ) by {}
        }
        while i < n
            invariant
                i <= n,
                n == data@.len(),
                strictly_sorted_keys(data@),
                strictly_sorted_keys(tombstones@),
                forall|j: int|
                    0 <= j < data@.len() ==> (#[trigger] data@[j]).0@.len() < 0x100000000
                        && data@[j].1.0@.len() < 0x100000000,
                index@.len() == i,
                forall|j: int| 0 <= j < i ==> (#[trigger] index@[j]).0@ == data@[j].0@,
                table_inv(index@, file@, bloom),
                forall|k: Seq<u8>|
                    #[trigger] table_query(index@, file@, k) == spec_merged(
                        data@.take(i as int),
                        Seq::empty(),
                        k,
                    ),
            decreases n - i,
        {
            let ghost file0 = file@;
            let ghost index0 = index@;
            let ghost bloom0 = bloom;
            let offset = file.len() as u64;
            let entry = &data[i];
            write_entry(&mut file, 0, &entry.0, Some(&entry.1.0), entry.1.1);
            let key_copy = vstd::slice::slice_to_vec(entry.0.as_slice());
            index.push((key_copy, offset));
            bloom.add(&entry.0);
            proof {
                let k = data@[i as int].0@;
                let v = data@[i as int].1.0@;
                let sq = data@[i as int].1.1 as nat;
                let enc = spec_entry_encoding(0, k, Some(v), sq);
                assert(file@.subrange(offset as int, offset as int + enc.len()) =~= enc);
                lemma_entry_round_trip(file@, offset as int, 0, k, Some(v), sq);
                lemma_write_pass1_step(data@, tombstones@, index0, file0, bloom0, index@, file@, bloom, i as int, offset);
            }
            i = i + 1;
        }
        // Tombstone pass: sorted insert with overwrite.
        let tn = tombstones.len();
        let mut t: usize = 0;
        proof {
            assert(data@.take(n as int) =~= data@);
            assert(tombstones@.take(0) =~= Seq::<(Key, SequenceNumber)>::empty());
            assert forall|k: Seq<u8>| #[trigger] table_query(index@, file@, k) == spec_merged(
                data@,
                tombstones@.take(0),
                k,
            ) by {
                assert(table_query(index@, file@, k) == spec_merged(data@.take(n as int), Seq::empty(), k));
            }
        }
        while t < tn
            invariant
                t <= tn,
                tn == tombstones@.len(),
                strictly_sorted_keys(data@),
                strictly_sorted_keys(tombstones@),
                forall|j: int|
                    0 <= j < tombstones@.len() ==> (#[trigger] tombstones@[j]).0@.len()
                        < 0x100000000,
                table_inv(index@, file@, bloom),
                forall|k: Seq<u8>|
                    #[trigger] table_query(index@, file@, k) == spec_merged(
                        data@,
                        tombstones@.take(t as int),
                        k,
                    ),
            decreases tn - t,
        {
            let ghost file0 = file@;
            let ghost index0 = index@;
            let ghost bloom0 = bloom;
            let offset = file.len() as u64;
            let entry = &tombstones[t];
            write_entry(&mut file, 1, &entry.0, None, entry.1);
            proof {
                let k = tombstones@[t as int].0@;
                let enc = spec_entry_encoding(1, k, None, tombstones@[t as int].1 as nat);
                assert(file@.subrange(offset as int, offset as int + enc.len()) =~= enc);
                lemma_entry_round_trip(
                    file@,
                    offset as int,
                    1,
                    k,
                    None,
                    tombstones@[t as int].1 as nat,
                );
            }
            let pos = lower_bound(&index, entry.0.as_slice());
            let mut replaced = false;
            if pos < index.len() {
                let hit = matches!(compare_bytes(index[pos].0.as_slice(), entry.0.as_slice()), Ordering::Equal);
                if hit {
                    proof {
                        lemma_cmp_equal_implies_eq(index@[pos as int].0@, tombstones@[t as int].0@);
                    }
                    let key_copy = vstd::slice::slice_to_vec(entry.0.as_slice());
                    index[pos] = (key_copy, offset);
                    replaced = true;
                }
            }
            if !replaced {
                proof {
                    if pos < index@.len() && index@[pos as int].0@ == tombstones@[t as int].0@ {
                        lemma_lex_refl(tombstones@[t as int].0@);
                    }
                }
                let key_copy = vstd::slice::slice_to_vec(entry.0.as_slice());
                index.insert(pos, (key_copy, offset));
            }
            bloom.add(&entry.0);
            proof {
                lemma_write_pass2_step(
                    data@,
                    tombstones@,
                    index0,
                    file0,
                    bloom0,
                    index@,
                    file@,
                    bloom,
                    t as int,
                    offset,
                    pos as int,
                    replaced,
                );
            }
            t = t + 1;
        }
        proof {
            assert(tombstones@.take(tn as int) =~= tombstones@);
        }
        SSTable {
            file_path: file_path.to_string(),
            index,
            bloom_filter: bloom,
            data: file,
        }
    }
}

/// Lookup misses when the probe position shows the key cannot be in the
/// sorted index.
proof fn lemma_absent_at_bound(s: Seq<(Key, u64)>, pos: int, k: Seq<u8>)
    requires
        strictly_sorted_keys(s),
        0 <= pos <= s.len(),
        forall|j: int| 0 <= j < pos ==> lex_lt((#[trigger] s[j]).0@, k),
        pos < s.len() ==> !lex_lt(s[pos].0@, k),
        pos < s.len() ==> s[pos].0@ != k,
    ensures
        spec_find(s, k) == None::<u64>,
{
    assert forall|j: int| 0 <= j < s.len() implies (#[trigger] s[j]).0@ != k by {
        if j < pos {
            lemma_lex_lt_neq(s[j].0@, k);
        } else if j > pos {
            lemma_lex_cmp_cases(s[pos].0@, k);
            if lex_lt(k, s[pos].0@) {
                lemma_lex_trans(k, s[pos].0@, s[j].0@);
                lemma_lex_lt_neq(k, s[j].0@);
            }
        }
    }
    lemma_find_absent(s, k);
}


/// A found key occurs somewhere in the list.
pub proof fn lemma_find_some_present<V>(s: Seq<(Key, V)>, k: Seq<u8>)
    requires
        spec_find(s, k) is Some,
    ensures
        exists|i: int| 0 <= i < s.len() && (#[trigger] s[i]).0@ == k,
    decreases s.len(),
{
    if s.len() > 0 {
        if s[0].0@ == k {
            assert(s[0].0@ == k);
        } else {
            lemma_find_some_present(s.skip(1), k);
            let i = choose|i: int| 0 <= i < s.skip(1).len() && (#[trigger] s.skip(1)[i]).0@ == k;
            assert(s[i + 1].0@ == k);
        }
    }
}

/// Appending one pair to the end of an association list changes only its
/// own key's lookup (when that key was absent).
proof fn lemma_find_push<V>(s: Seq<(Key, V)>, x: (Key, V), k: Seq<u8>)
    ensures
        spec_find(s.push(x), k) == (match spec_find(s, k) {
            Some(v) => Some(v),
            None => if x.0@ == k {
                Some(x.1)
            } else {
                None
            },
        }),
    decreases s.len(),
{
    assert(s.push(x).len() == s.len() + 1);
    if s.len() == 0 {
        assert(s.push(x)[0] == x);
        assert(s.push(x).skip(1) =~= Seq::<(Key, V)>::empty());
        assert(spec_find(Seq::<(Key, V)>::empty(), k) == None::<V>);
    } else {
        assert(s.push(x)[0] == s[0]);
        assert(s.push(x).skip(1) =~= s.skip(1).push(x));
        lemma_find_push(s.skip(1), x, k);
    }
}

/// One step of the live-entry pass preserves the table invariant and
/// extends the pointwise view by the new key.
proof fn lemma_write_pass1_step(
    data: Seq<(Key, (Value, SequenceNumber))>,
    tombs: Seq<(Key, SequenceNumber)>,
    index0: Seq<(Key, u64)>,
    file0: Seq<u8>,
    bloom0: BloomFilter,
    index1: Seq<(Key, u64)>,
    file1: Seq<u8>,
    bloom1: BloomFilter,
    i: int,
    offset: u64,
)
    requires
        strictly_sorted_keys(data),
        0 <= i < data.len(),
        data[i].0@.len() < 0x100000000,
        data[i].1.0@.len() < 0x100000000,
        index0.len() == i,
        forall|j: int| 0 <= j < i ==> (#[trigger] index0[j]).0@ == data[j].0@,
        table_inv(index0, file0, bloom0),
        forall|k: Seq<u8>|
            #[trigger] table_query(index0, file0, k) == spec_merged(
                data.take(i),
                Seq::empty(),
                k,
            ),
        offset == file0.len(),
        file1 == file0 + spec_entry_encoding(0, data[i].0@, Some(data[i].1.0@), data[i].1.1 as nat),
        spec_entry_at(file1, offset as int) == Ok::<(EntryView, int), DecodeError>(
            (
                EntryView::Put { key: data[i].0@, value: data[i].1.0@ },
                offset + spec_entry_encoding(
                    0,
                    data[i].0@,
                    Some(data[i].1.0@),
                    data[i].1.1 as nat,
                ).len(),
            ),
        ),
        index1 == index0.push((index1.last().0, offset)),
        index1.last().0@ == data[i].0@,
        bloom1.size == bloom0.size,
        bloom1.wf(),
        bloom1.bit_array@ == bloom0.bit_array@.update(
            spec_index1(data[i].0@, bloom0.size as nat),
            true,
        ).update(spec_index2(data[i].0@, bloom0.size as nat), true),
    ensures
        index1.len() == i + 1,
        forall|j: int| 0 <= j < i + 1 ==> (#[trigger] index1[j]).0@ == data[j].0@,
        table_inv(index1, file1, bloom1),
        forall|k: Seq<u8>|
            #[trigger] table_query(index1, file1, k) == spec_merged(
                data.take(i + 1),
                Seq::empty(),
                k,
            ),
{
    lemma_pass1_inv(data, index0, file0, bloom0, index1, file1, bloom1, i, offset);
    assert forall|k: Seq<u8>| #[trigger] table_query(index1, file1, k) == spec_merged(
        data.take(i + 1),
        Seq::empty(),
        k,
    ) by {
        assert(table_query(index0, file0, k) == spec_merged(data.take(i), Seq::empty(), k));
        lemma_pass1_query(data, index0, file0, bloom0, index1, file1, i, offset, k);
    }
}

#[verifier::rlimit(100)]
#[verifier::spinoff_prover]
proof fn lemma_pass1_inv(
    data: Seq<(Key, (Value, SequenceNumber))>,
    index0: Seq<(Key, u64)>,
    file0: Seq<u8>,
    bloom0: BloomFilter,
    index1: Seq<(Key, u64)>,
    file1: Seq<u8>,
    bloom1: BloomFilter,
    i: int,
    offset: u64,
)
    requires
        strictly_sorted_keys(data),
        0 <= i < data.len(),
        index0.len() == i,
        forall|j: int| 0 <= j < i ==> (#[trigger] index0[j]).0@ == data[j].0@,
        table_inv(index0, file0, bloom0),
        offset == file0.len(),
        file1 == file0 + spec_entry_encoding(0, data[i].0@, Some(data[i].1.0@), data[i].1.1 as nat),
        spec_entry_at(file1, offset as int) == Ok::<(EntryView, int), DecodeError>(
            (
                EntryView::Put { key: data[i].0@, value: data[i].1.0@ },
                offset + spec_entry_encoding(
                    0,
                    data[i].0@,
                    Some(data[i].1.0@),
                    data[i].1.1 as nat,
                ).len(),
            ),
        ),
        index1 == index0.push((index1.last().0, offset)),
        index1.last().0@ == data[i].0@,
        bloom1.size == bloom0.size,
        bloom1.wf(),
        bloom1.bit_array@ == bloom0.bit_array@.update(
            spec_index1(data[i].0@, bloom0.size as nat),
            true,
        ).update(spec_index2(data[i].0@, bloom0.size as nat), true),
    ensures
        index1.len() == i + 1,
        forall|j: int| 0 <= j < i + 1 ==> (#[trigger] index1[j]).0@ == data[j].0@,
        table_inv(index1, file1, bloom1),
{
    assert(forall|j: int| 0 <= j < index1.len() - 1 ==> index1[j] == index0[j]);
    assert forall|p: int, q: int| 0 <= p < q < index1.len() implies lex_lt(
        (#[trigger] index1[p]).0@,
        (#[trigger] index1[q]).0@,
    ) by {
        if q == index1.len() - 1 {
            assert(index1[p].0@ == data[p].0@);
            assert(lex_lt(data[p].0@, data[i].0@));
        }
    }
    assert forall|b: int|
        0 <= b < bloom0.bit_array@.len() && bloom0.bit_array@[b] implies bloom1.bit_array@[b] by {}
    assert forall|j: int| 0 <= j < index1.len() implies {
        let k = (#[trigger] index1[j]).0@;
        let off = index1[j].1 as int;
        &&& match spec_entry_at(file1, off) {
            Ok((ev, _)) => entry_view_key(ev) == k,
            Err(_) => false,
        }
        &&& bloom1.bit_array@[spec_index1(k, bloom1.size as nat)]
        &&& bloom1.bit_array@[spec_index2(k, bloom1.size as nat)]
    } by {
        if j < index1.len() - 1 {
            assert(index1[j] == index0[j]);
            lemma_entry_at_stable(file0, file1, index0[j].1 as int);
        }
    }
}

#[verifier::rlimit(100)]
#[verifier::spinoff_prover]
proof fn lemma_pass1_query(
    data: Seq<(Key, (Value, SequenceNumber))>,
    index0: Seq<(Key, u64)>,
    file0: Seq<u8>,
    bloom0: BloomFilter,
    index1: Seq<(Key, u64)>,
    file1: Seq<u8>,
    i: int,
    offset: u64,
    k: Seq<u8>,
)
    requires
        strictly_sorted_keys(data),
        0 <= i < data.len(),
        index0.len() == i,
        forall|j: int| 0 <= j < i ==> (#[trigger] index0[j]).0@ == data[j].0@,
        table_inv(index0, file0, bloom0),
        table_query(index0, file0, k) == spec_merged(data.take(i), Seq::empty(), k),
        offset == file0.len(),
        file1 == file0 + spec_entry_encoding(0, data[i].0@, Some(data[i].1.0@), data[i].1.1 as nat),
        spec_entry_at(file1, offset as int) == Ok::<(EntryView, int), DecodeError>(
            (
                EntryView::Put { key: data[i].0@, value: data[i].1.0@ },
                offset + spec_entry_encoding(
                    0,
                    data[i].0@,
                    Some(data[i].1.0@),
                    data[i].1.1 as nat,
                ).len(),
            ),
        ),
        index1 == index0.push((index1.last().0, offset)),
        index1.last().0@ == data[i].0@,
    ensures
        table_query(index1, file1, k) == spec_merged(data.take(i + 1), Seq::empty(), k),
{
    let ki = data[i].0@;
    assert(data.take(i + 1) =~= data.take(i).push(data[i]));
    lemma_find_push(index0, index1.last(), k);
    lemma_find_push(data.take(i), data[i], k);
    if k == ki {
        assert forall|j: int| 0 <= j < index0.len() implies (#[trigger] index0[j]).0@ != ki by {
            lemma_lex_lt_neq(index0[j].0@, ki);
        }
        lemma_find_absent(index0, ki);
        assert(spec_find(index1, ki) == Some(offset));
        assert forall|j: int| 0 <= j < data.take(i).len() implies (#[trigger] data.take(
            i,
        )[j]).0@ != ki by {
            lemma_lex_lt_neq(data.take(i)[j].0@, ki);
        }
        lemma_find_absent(data.take(i), ki);
    } else {
        match spec_find(index0, k) {
            Some(off) => {
                lemma_find_some_present(index0, k);
                let j = choose|j: int| 0 <= j < index0.len() && (#[trigger] index0[j]).0@ == k;
                assert(spec_find(index0, k) == Some(index0[j].1)) by {
                    lemma_find_at(index0, j);
                    assert(index0[j].0@ == k);
                }
                lemma_entry_at_stable(file0, file1, off as int);
            },
            None => {},
        }
    }
}

/// One step of the tombstone pass preserves the table invariant and
/// switches the new key's answer to a tombstone.
proof fn lemma_write_pass2_step(
    data: Seq<(Key, (Value, SequenceNumber))>,
    tombs: Seq<(Key, SequenceNumber)>,
    index0: Seq<(Key, u64)>,
    file0: Seq<u8>,
    bloom0: BloomFilter,
    index1: Seq<(Key, u64)>,
    file1: Seq<u8>,
    bloom1: BloomFilter,
    t: int,
    offset: u64,
    pos: int,
    replaced: bool,
)
    requires
        strictly_sorted_keys(tombs),
        0 <= t < tombs.len(),
        tombs[t].0@.len() < 0x100000000,
        table_inv(index0, file0, bloom0),
        forall|k: Seq<u8>|
            #[trigger] table_query(index0, file0, k) == spec_merged(data, tombs.take(t), k),
        offset == file0.len(),
        file1 == file0 + spec_entry_encoding(1, tombs[t].0@, None, tombs[t].1 as nat),
        spec_entry_at(file1, offset as int) == Ok::<(EntryView, int), DecodeError>(
            (
                EntryView::Delete { key: tombs[t].0@ },
                offset + spec_entry_encoding(1, tombs[t].0@, None, tombs[t].1 as nat).len(),
            ),
        ),
        0 <= pos <= index0.len(),
        forall|j: int| 0 <= j < pos ==> lex_lt((#[trigger] index0[j]).0@, tombs[t].0@),
        pos < index0.len() ==> !lex_lt(index0[pos].0@, tombs[t].0@),
        replaced ==> pos < index0.len() && index0[pos].0@ == tombs[t].0@ && index1
            == index0.update(pos, (index1[pos].0, offset)) && index1[pos].0@ == tombs[t].0@,
        !replaced ==> (pos == index0.len() || index0[pos].0@ != tombs[t].0@) && index1
            == index0.insert(pos, (index1[pos].0, offset)) && index1[pos].0@ == tombs[t].0@,
        bloom1.size == bloom0.size,
        bloom1.wf(),
        bloom1.bit_array@ == bloom0.bit_array@.update(
            spec_index1(tombs[t].0@, bloom0.size as nat),
            true,
        ).update(spec_index2(tombs[t].0@, bloom0.size as nat), true),
    ensures
        table_inv(index1, file1, bloom1),
        forall|k: Seq<u8>|
            #[trigger] table_query(index1, file1, k) == spec_merged(data, tombs.take(t + 1), k),
{
    lemma_pass2_inv(
        tombs,
        index0,
        file0,
        bloom0,
        index1,
        file1,
        bloom1,
        t,
        offset,
        pos,
        replaced,
    );
    assert forall|k: Seq<u8>| #[trigger] table_query(index1, file1, k) == spec_merged(
        data,
        tombs.take(t + 1),
        k,
    ) by {
        assert(table_query(index0, file0, k) == spec_merged(data, tombs.take(t), k));
        lemma_pass2_query(
            data,
            tombs,
            index0,
            file0,
            bloom0,
            index1,
            file1,
            t,
            offset,
            pos,
            replaced,
            k,
        );
    }
}

#[verifier::rlimit(100)]
#[verifier::spinoff_prover]
proof fn lemma_pass2_inv(
    tombs: Seq<(Key, SequenceNumber)>,
    index0: Seq<(Key, u64)>,
    file0: Seq<u8>,
    bloom0: BloomFilter,
    index1: Seq<(Key, u64)>,
    file1: Seq<u8>,
    bloom1: BloomFilter,
    t: int,
    offset: u64,
    pos: int,
    replaced: bool,
)
    requires
        strictly_sorted_keys(tombs),
        0 <= t < tombs.len(),
        table_inv(index0, file0, bloom0),
        offset == file0.len(),
        file1 == file0 + spec_entry_encoding(1, tombs[t].0@, None, tombs[t].1 as nat),
        spec_entry_at(file1, offset as int) == Ok::<(EntryView, int), DecodeError>(
            (
                EntryView::Delete { key: tombs[t].0@ },
                offset + spec_entry_encoding(1, tombs[t].0@, None, tombs[t].1 as nat).len(),
            ),
        ),
        0 <= pos <= index0.len(),
        forall|j: int| 0 <= j < pos ==> lex_lt((#[trigger] index0[j]).0@, tombs[t].0@),
        pos < index0.len() ==> !lex_lt(index0[pos].0@, tombs[t].0@),
        replaced ==> pos < index0.len() && index0[pos].0@ == tombs[t].0@ && index1
            == index0.update(pos, (index1[pos].0, offset)) && index1[pos].0@ == tombs[t].0@,
        !replaced ==> (pos == index0.len() || index0[pos].0@ != tombs[t].0@) && index1
            == index0.insert(pos, (index1[pos].0, offset)) && index1[pos].0@ == tombs[t].0@,
        bloom1.size == bloom0.size,
        bloom1.wf(),
        bloom1.bit_array@ == bloom0.bit_array@.update(
            spec_index1(tombs[t].0@, bloom0.size as nat),
            true,
        ).update(spec_index2(tombs[t].0@, bloom0.size as nat), true),
    ensures
        table_inv(index1, file1, bloom1),
{
    let kt = tombs[t].0@;
    if replaced {
        assert forall|p: int, q: int| 0 <= p < q < index1.len() implies lex_lt(
            (#[trigger] index1[p]).0@,
            (#[trigger] index1[q]).0@,
        ) by {
            assert(index1[p].0@ == index0[p].0@);
            assert(index1[q].0@ == index0[q].0@);
        }
    } else {
        if pos < index0.len() {
            lemma_lex_cmp_cases(index0[pos].0@, kt);
        }
        assert forall|p: int, q: int| 0 <= p < q < index1.len() implies lex_lt(
            (#[trigger] index1[p]).0@,
            (#[trigger] index1[q]).0@,
        ) by {
            if p < pos && q > pos {
                assert(index1[p] == index0[p] && index1[q] == index0[q - 1]);
            } else if p == pos {
                assert(index1[q] == index0[q - 1]);
                if q - 1 > pos {
                    lemma_lex_trans(kt, index0[pos].0@, index0[q - 1].0@);
                }
            } else if q == pos {
                assert(index1[p] == index0[p]);
            } else if q < pos {
                assert(index1[p] == index0[p] && index1[q] == index0[q]);
            } else {
                assert(index1[p] == index0[p - 1] && index1[q] == index0[q - 1]);
            }
        }
    }
    assert forall|b: int|
        0 <= b < bloom0.bit_array@.len() && bloom0.bit_array@[b] implies bloom1.bit_array@[b] by {}
    assert forall|j: int| 0 <= j < index1.len() implies {
        let k = (#[trigger] index1[j]).0@;
        let off = index1[j].1 as int;
        &&& match spec_entry_at(file1, off) {
            Ok((ev, _)) => entry_view_key(ev) == k,
            Err(_) => false,
        }
        &&& bloom1.bit_array@[spec_index1(k, bloom1.size as nat)]
        &&& bloom1.bit_array@[spec_index2(k, bloom1.size as nat)]
    } by {
        if j == pos {
            assert(index1[pos].1 == offset);
            assert(index1[pos].0@ == kt);
        }
        if replaced {
            if j != pos {
                assert(index1[j] == index0[j]);
                lemma_entry_at_stable(file0, file1, index0[j].1 as int);
            }
        } else {
            if j < pos {
                assert(index1[j] == index0[j]);
                lemma_entry_at_stable(file0, file1, index0[j].1 as int);
            } else if j > pos {
                assert(index1[j] == index0[j - 1]);
                lemma_entry_at_stable(file0, file1, index0[j - 1].1 as int);
            }
        }
    }
}

#[verifier::rlimit(100)]
#[verifier::spinoff_prover]
proof fn lemma_pass2_query(
    data: Seq<(Key, (Value, SequenceNumber))>,
    tombs: Seq<(Key, SequenceNumber)>,
    index0: Seq<(Key, u64)>,
    file0: Seq<u8>,
    bloom0: BloomFilter,
    index1: Seq<(Key, u64)>,
    file1: Seq<u8>,
    t: int,
    offset: u64,
    pos: int,
    replaced: bool,
    k: Seq<u8>,
)
    requires
        strictly_sorted_keys(tombs),
        0 <= t < tombs.len(),
        table_inv(index0, file0, bloom0),
        table_query(index0, file0, k) == spec_merged(data, tombs.take(t), k),
        offset == file0.len(),
        file1 == file0 + spec_entry_encoding(1, tombs[t].0@, None, tombs[t].1 as nat),
        spec_entry_at(file1, offset as int) == Ok::<(EntryView, int), DecodeError>(
            (
                EntryView::Delete { key: tombs[t].0@ },
                offset + spec_entry_encoding(1, tombs[t].0@, None, tombs[t].1 as nat).len(),
            ),
        ),
        0 <= pos <= index0.len(),
        forall|j: int| 0 <= j < pos ==> lex_lt((#[trigger] index0[j]).0@, tombs[t].0@),
        pos < index0.len() ==> !lex_lt(index0[pos].0@, tombs[t].0@),
        replaced ==> pos < index0.len() && index0[pos].0@ == tombs[t].0@ && index1
            == index0.update(pos, (index1[pos].0, offset)) && index1[pos].0@ == tombs[t].0@,
        !replaced ==> (pos == index0.len() || index0[pos].0@ != tombs[t].0@) && index1
            == index0.insert(pos, (index1[pos].0, offset)) && index1[pos].0@ == tombs[t].0@,
    ensures
        table_query(index1, file1, k) == spec_merged(data, tombs.take(t + 1), k),
{
    let kt = tombs[t].0@;
    let newpair = index1[pos];
    assert(tombs.take(t + 1) =~= tombs.take(t).push(tombs[t]));
    lemma_find_push(tombs.take(t), tombs[t], k);
    if k == kt {
        assert forall|j: int| 0 <= j < pos implies (#[trigger] index1[j]).0@ != kt by {
            assert(index1[j].0@ == index0[j].0@);
            lemma_lex_lt_neq(index0[j].0@, kt);
        }
        lemma_find_skip_prefix(index1, pos, kt);
        assert(index1.skip(pos)[0] == index1[pos]);
        assert(spec_find(index1, kt) == Some(offset));
    } else {
        if replaced {
            lemma_find_update_other(index0, pos, newpair, k);
        } else {
            lemma_find_insert_other(index0, pos, newpair, k);
        }
        match spec_find(index0, k) {
            Some(off) => {
                lemma_find_some_present(index0, k);
                let j = choose|j: int| 0 <= j < index0.len() && (#[trigger] index0[j]).0@ == k;
                lemma_find_at(index0, j);
                assert(index0[j].0@ == k);
                lemma_entry_at_stable(file0, file1, off as int);
            },
            None => {},
        }
    }
}

} // verus!
