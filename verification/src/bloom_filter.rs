//! A two-hash Bloom filter over byte-string keys: "definitely absent"
//! answers let a table lookup skip its file read.
use vstd::prelude::*;

use crate::common::Key;

verus! {

/// One past the largest machine word, the modulus of wrapping arithmetic.
pub open spec fn word_mod() -> nat {
    usize::MAX as nat + 1
}

pub open spec fn hash1_acc(acc: nat, key: Seq<u8>) -> nat
    decreases key.len(),
{
    if key.len() == 0 {
        acc
    } else {
        hash1_acc(((acc + key[0]) % (word_mod() as int)) as nat, key.skip(1))
    }
}

/// Additive hash: the wrapping sum of the key's bytes.
pub open spec fn spec_hash1(key: Seq<u8>) -> nat {
    hash1_acc(0, key)
}

pub open spec fn hash2_acc(acc: nat, key: Seq<u8>) -> nat
    decreases key.len(),
{
    if key.len() == 0 {
        acc
    } else {
        hash2_acc(((acc * 31 + key[0]) % (word_mod() as int)) as nat, key.skip(1))
    }
}

/// Multiplicative hash: a wrapping base-31 polynomial of the key's bytes.
pub open spec fn spec_hash2(key: Seq<u8>) -> nat {
    hash2_acc(0, key)
}

/// The first bit a key maps to in a filter of `size` bits.
pub open spec fn spec_index1(key: Seq<u8>, size: nat) -> int {
    (spec_hash1(key) % size) as int
}

/// The second bit a key maps to in a filter of `size` bits.
pub open spec fn spec_index2(key: Seq<u8>, size: nat) -> int {
    (spec_hash2(key) % size) as int
}

/// A fixed-size bit array; a key sets (and is tested against) two bits.
pub struct BloomFilter {
    pub bit_array: Vec<bool>,
    pub size: usize,
}

impl BloomFilter {
    pub open spec fn wf(self) -> bool {
        &&& self.size > 0
        &&& self.bit_array@.len() == self.size
    }

    /// An empty filter of `size` bits.
    pub fn new(size: usize) -> (r: BloomFilter)
        requires
            size > 0,
        ensures
            r.wf(),
            r.size == size,
            forall|i: int| 0 <= i < size ==> !r.bit_array@[i],
    {
        BloomFilter { bit_array: vec![false; size], size }
    }

    /// Sets the key's two bits.
    pub fn add(&mut self, key: &Key)
        requires
            old(self).wf(),
        ensures
            final(self).wf(),
            final(self).size == old(self).size,
            final(self).bit_array@ == old(self).bit_array@.update(
                spec_index1(key@, old(self).size as nat),
                true,
            ).update(spec_index2(key@, old(self).size as nat), true),
    {
        let h1 = self.hash1(key) % self.size;
        let h2 = self.hash2(key) % self.size;
        self.bit_array[h1] = true;
        self.bit_array[h2] = true;
    }

    /// True when both of the key's bits are set; a `false` answer means
    /// the key was never added.
    pub fn contains(&self, key: &Key) -> (r: bool)
        requires
            self.wf(),
        ensures
            r == (self.bit_array@[spec_index1(key@, self.size as nat)] && self.bit_array@[
                spec_index2(key@, self.size as nat)
            ]),
    {
        let h1 = self.hash1(key) % self.size;
        let h2 = self.hash2(key) % self.size;
        self.bit_array[h1] && self.bit_array[h2]
    }

    fn hash1(&self, key: &Key) -> (r: usize)
        ensures
            r == spec_hash1(key@),
    {
        let n = key.len();
        let mut acc: usize = 0;
        let mut i: usize = 0;
        proof {
            assert(key@.skip(0) =~= key@);
        }
        while i < n
            invariant
                i <= n,
                n == key@.len(),
                spec_hash1(key@) == hash1_acc(acc as nat, key@.skip(i as int)),
            decreases n - i,
        {
            proof {
                let rest = key@.skip(i as int);
                assert(rest[0] == key@[i as int]);
                assert(rest.skip(1) =~= key@.skip(i + 1));
            }
            let b = key[i];
            proof {
                let m = word_mod() as int;
                let t = acc as int + b as int;
                if t <= usize::MAX {
                    vstd::arithmetic::div_mod::lemma_small_mod(t as nat, word_mod());
                } else {
                    vstd::arithmetic::div_mod::lemma_mod_multiples_vanish(1, t - m, m);
                    vstd::arithmetic::div_mod::lemma_small_mod((t - m) as nat, word_mod());
                }
            }
            acc = acc.wrapping_add(b as usize);
            i = i + 1;
        }
        acc
    }

    fn hash2(&self, key: &Key) -> (r: usize)
        ensures
            r == spec_hash2(key@),
    {
        let n = key.len();
        let mut acc: usize = 0;
        let mut i: usize = 0;
        proof {
            assert(key@.skip(0) =~= key@);
        }
        while i < n
            invariant
                i <= n,
                n == key@.len(),
                spec_hash2(key@) == hash2_acc(acc as nat, key@.skip(i as int)),
            decreases n - i,
        {
            proof {
                let rest = key@.skip(i as int);
                assert(rest[0] == key@[i as int]);
                assert(rest.skip(1) =~= key@.skip(i + 1));
            }
            let b = key[i];
            let m1 = acc.wrapping_mul(31);
            proof {
                let m = word_mod() as int;
                vstd::arithmetic::div_mod::lemma_add_mod_noop(acc as int * 31, b as int, m);
                vstd::arithmetic::div_mod::lemma_small_mod(b as nat, word_mod());
                let t = m1 as int + b as int;
                if t <= usize::MAX {
                    vstd::arithmetic::div_mod::lemma_small_mod(t as nat, word_mod());
                } else {
                    vstd::arithmetic::div_mod::lemma_mod_multiples_vanish(1, t - m, m);
                    vstd::arithmetic::div_mod::lemma_small_mod((t - m) as nat, word_mod());
                }
                vstd::arithmetic::div_mod::lemma_mod_bound(m1 as int + b as int, m);
            }
            acc = m1.wrapping_add(b as usize);
            i = i + 1;
        }
        acc
    }
}

impl Default for BloomFilter {
    /// The historical default: 1024 bits.
    fn default() -> (r: BloomFilter)
        ensures
            r.wf(),
            r.size == 1024,
            forall|i: int| 0 <= i < 1024 ==> !r.bit_array@[i],
    {
        BloomFilter::new(1024)
    }
}

} // verus!
