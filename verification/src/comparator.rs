//! Total ordering over byte-string keys: the comparator capability and
//! the default unsigned-lexicographic (`BytewiseComparator`) instance,
//! with separator/successor shortening.
use vstd::prelude::*;

use core::cmp::Ordering;

verus! {

/// Unsigned lexicographic comparison of byte strings.
pub open spec fn spec_lex_cmp(a: Seq<u8>, b: Seq<u8>) -> Ordering
    decreases a.len(),
{
    if a.len() == 0 && b.len() == 0 {
        Ordering::Equal
    } else if a.len() == 0 {
        Ordering::Less
    } else if b.len() == 0 {
        Ordering::Greater
    } else if a[0] < b[0] {
        Ordering::Less
    } else if a[0] > b[0] {
        Ordering::Greater
    } else {
        spec_lex_cmp(a.skip(1), b.skip(1))
    }
}

/// `a` comes strictly before `b`.
pub open spec fn lex_lt(a: Seq<u8>, b: Seq<u8>) -> bool {
    spec_lex_cmp(a, b) == Ordering::Less
}

/// `a` comes before `b` or equals it.
pub open spec fn lex_le(a: Seq<u8>, b: Seq<u8>) -> bool {
    spec_lex_cmp(a, b) != Ordering::Greater
}

/// Comparison starts at the first index where the strings can differ:
/// skipping a common prefix does not change the outcome.
pub proof fn lemma_lex_skip_prefix(a: Seq<u8>, b: Seq<u8>, i: int)
    requires
        0 <= i <= a.len(),
        i <= b.len(),
        forall|j: int| 0 <= j < i ==> a[j] == b[j],
    ensures
        spec_lex_cmp(a, b) == spec_lex_cmp(a.skip(i), b.skip(i)),
    decreases i,
{
    if i == 0 {
        assert(a.skip(0) =~= a);
        assert(b.skip(0) =~= b);
    } else {
        assert(a.skip(1).skip(i - 1) =~= a.skip(i));
        assert(b.skip(1).skip(i - 1) =~= b.skip(i));
        assert forall|j: int| 0 <= j < i - 1 implies a.skip(1)[j] == b.skip(1)[j] by {
            assert(a.skip(1)[j] == a[j + 1]);
            assert(b.skip(1)[j] == b[j + 1]);
        }
        lemma_lex_skip_prefix(a.skip(1), b.skip(1), i - 1);
        assert(a[0] == b[0]);
        assert(spec_lex_cmp(a, b) == spec_lex_cmp(a.skip(1), b.skip(1)));
    }
}

/// Lexicographic comparison of a string with itself is `Equal`.
pub proof fn lemma_lex_refl(a: Seq<u8>)
    ensures
        spec_lex_cmp(a, a) == Ordering::Equal,
    decreases a.len(),
{
    if a.len() > 0 {
        lemma_lex_refl(a.skip(1));
    }
}

/// Compares two byte strings in unsigned lexicographic order.
pub fn compare_bytes(a: &[u8], b: &[u8]) -> (r: Ordering)
    ensures
        r == spec_lex_cmp(a@, b@),
{
    let n = if a.len() < b.len() {
        a.len()
    } else {
        b.len()
    };
    let mut i: usize = 0;
    while i < n
        invariant
            i <= n,
            n == (if a@.len() < b@.len() {
                a@.len() as int
            } else {
                b@.len() as int
            }),
            forall|j: int| 0 <= j < i ==> a@[j] == b@[j],
        decreases n - i,
    {
        if a[i] < b[i] {
            proof {
                lemma_lex_skip_prefix(a@, b@, i as int);
            }
            return Ordering::Less;
        }
        if a[i] > b[i] {
            proof {
                lemma_lex_skip_prefix(a@, b@, i as int);
            }
            return Ordering::Greater;
        }
        i = i + 1;
    }
    proof {
        lemma_lex_skip_prefix(a@, b@, n as int);
        if a@.len() == b@.len() {
            assert(a@ =~= b@);
            lemma_lex_refl(a@);
        }
    }
    if a.len() < b.len() {
        Ordering::Less
    } else if a.len() > b.len() {
        Ordering::Greater
    } else {
        Ordering::Equal
    }
}

/// A total ordering over byte-string keys, with two key-shortening
/// helpers used when building index separators.
pub trait Comparator {
    /// The order this comparator implements.
    spec fn spec_compare(&self, a: Seq<u8>, b: Seq<u8>) -> Ordering;

    fn compare(&self, a: &[u8], b: &[u8]) -> (r: Ordering)
        ensures
            r == self.spec_compare(a@, b@),
    ;

    fn name(&self) -> &'static str;

    /// A short key at or after `start` and, when `start < limit`, still
    /// before `limit`.
    fn find_shortest_separator(&self, start: &[u8], limit: &[u8]) -> (r: Vec<u8>)
        ensures
            self.spec_compare(start@, r@) != Ordering::Greater,
            self.spec_compare(start@, limit@) == Ordering::Less ==> self.spec_compare(r@, limit@)
                == Ordering::Less,
    ;

    /// A short key at or after `key`.
    fn find_short_successor(&self, key: &[u8]) -> (r: Vec<u8>)
        ensures
            self.spec_compare(key@, r@) != Ordering::Greater,
    ;
}

/// The default comparator: unsigned lexicographic byte order.
#[derive(Default, Clone, Copy)]
pub struct BytewiseComparator;

impl BytewiseComparator {
    pub fn new() -> (r: BytewiseComparator)
        ensures
            true,
    {
        BytewiseComparator
    }
}

impl Comparator for BytewiseComparator {
    open spec fn spec_compare(&self, a: Seq<u8>, b: Seq<u8>) -> Ordering {
        spec_lex_cmp(a, b)
    }

    fn compare(&self, a: &[u8], b: &[u8]) -> (r: Ordering) {
        compare_bytes(a, b)
    }

    fn name(&self) -> &'static str {
        "BytewiseComparator"
    }

    fn find_shortest_separator(&self, start: &[u8], limit: &[u8]) -> (r: Vec<u8>) {
        let min_len = if start.len() < limit.len() {
            start.len()
        } else {
            limit.len()
        };
        let mut diff_index: usize = 0;
        while diff_index < min_len && start[diff_index] == limit[diff_index]
            invariant
                diff_index <= min_len,
                min_len == (if start@.len() < limit@.len() {
                    start@.len() as int
                } else {
                    limit@.len() as int
                }),
                forall|j: int| 0 <= j < diff_index ==> start@[j] == limit@[j],
            decreases min_len - diff_index,
        {
            diff_index = diff_index + 1;
        }
        if diff_index < min_len {
            let diff_byte = start[diff_index];
            if diff_byte < 0xff && diff_byte + 1 < limit[diff_index] {
                let mut separator = vstd::slice::slice_to_vec(
                    &start[0..diff_index + 1],
                );
                separator[diff_index] = diff_byte + 1;
                proof {
                    let s = separator@;
                    assert(forall|j: int| 0 <= j < diff_index ==> s[j] == start@[j]);
                    lemma_lex_skip_prefix(start@, s, diff_index as int);
                    assert(start@.skip(diff_index as int)[0] < s.skip(diff_index as int)[0]);
                    lemma_lex_skip_prefix(s, limit@, diff_index as int);
                    assert(s.skip(diff_index as int)[0] < limit@.skip(diff_index as int)[0]);
                }
                return separator;
            }
        }
        proof {
            lemma_lex_refl(start@);
        }
        vstd::slice::slice_to_vec(start)
    }

    fn find_short_successor(&self, key: &[u8]) -> (r: Vec<u8>) {
        let n = key.len();
        let mut i: usize = 0;
        while i < n
            invariant
                i <= n,
                n == key@.len(),
            decreases n - i,
        {
            let byte = key[i];
            if byte != 0xff {
                let mut s = vstd::slice::slice_to_vec(&key[0..i + 1]);
                s[i] = byte + 1;
                proof {
                    assert(forall|j: int| 0 <= j < i ==> s@[j] == key@[j]);
                    lemma_lex_skip_prefix(key@, s@, i as int);
                    assert(key@.skip(i as int)[0] < s@.skip(i as int)[0]);
                }
                return s;
            }
            i = i + 1;
        }
        proof {
            lemma_lex_refl(key@);
        }
        vstd::slice::slice_to_vec(key)
    }
}

} // verus!
