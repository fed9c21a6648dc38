//! Shared primitives: byte-string keys and values, LEB128 varints, the
//! `SegmentHandle` offset/length pair, and the logical `Entry` record.
use vstd::prelude::*;

verus! {

pub type Key = Vec<u8>;

pub type Value = Vec<u8>;

pub type SequenceNumber = u64;

/// The LEB128 encoding of `n`: seven value bits per byte, least
/// significant first, high bit set on every byte but the last.
pub open spec fn spec_varint(n: nat) -> Seq<u8>
    decreases n,
{
    if n < 128 {
        seq![n as u8]
    } else {
        seq![(n % 128 + 128) as u8] + spec_varint(n / 128)
    }
}

/// How many bytes `spec_varint(n)` holds.
pub open spec fn spec_required_space(n: nat) -> nat
    decreases n,
{
    if n < 128 {
        1
    } else {
        1 + spec_required_space(n / 128)
    }
}

/// The value and length of the varint starting at the head of `src`, if a
/// terminating byte occurs at all; unbounded (a later check compares
/// against `usize::MAX` and the ten-byte cap).
pub open spec fn spec_varint_value(src: Seq<u8>) -> Option<(nat, nat)>
    decreases src.len(),
{
    if src.len() == 0 {
        None
    } else {
        let b = src[0];
        if b < 128 {
            Some(((b as nat), 1))
        } else {
            match spec_varint_value(src.skip(1)) {
                Some((v, u)) => Some((((b - 128) as nat + 128 * v), (u + 1) as nat)),
                None => None,
            }
        }
    }
}

proof fn lemma_pow128_pos(k: nat)
    ensures
        pow128(k) >= 1,
    decreases k,
{
    if k > 0 {
        lemma_pow128_pos((k - 1) as nat);
    }
}

proof fn lemma_pow128_mono(a: nat, b: nat)
    requires
        a <= b,
    ensures
        pow128(a) <= pow128(b),
    decreases b,
{
    if a < b {
        lemma_pow128_mono(a, (b - 1) as nat);
        lemma_pow128_pos((b - 1) as nat);
    }
}

spec fn pow128(k: nat) -> nat
    decreases k,
{
    if k == 0 {
        1
    } else {
        128 * pow128((k - 1) as nat)
    }
}

proof fn lemma_space_le(n: nat, k: nat)
    requires
        k >= 1,
        n < pow128(k),
    ensures
        spec_required_space(n) <= k,
    decreases k,
{
    if n >= 128 {
        assert(n / 128 < pow128((k - 1) as nat)) by (nonlinear_arith)
            requires
                n < 128 * pow128((k - 1) as nat),
                n >= 128,
        ;
        lemma_space_le(n / 128, (k - 1) as nat);
    }
}

/// A value that fits in a machine word never needs more than ten bytes.
pub proof fn lemma_space_le_ten(n: nat)
    requires
        n <= usize::MAX,
    ensures
        spec_required_space(n) <= 10,
{
    assert(pow128(0) == 1);
    assert(pow128(1) == 128);
    assert(pow128(2) == 128 * 128);
    assert(pow128(3) == 128 * pow128(2));
    assert(pow128(4) == 128 * pow128(3));
    assert(pow128(5) == 128 * pow128(4));
    assert(pow128(6) == 128 * pow128(5));
    assert(pow128(7) == 128 * pow128(6));
    assert(pow128(8) == 128 * pow128(7));
    assert(pow128(9) == 128 * pow128(8));
    assert(pow128(10) == 128 * pow128(9));
    assert(pow128(10) > usize::MAX);
    lemma_space_le(n, 10);
}

/// The encoding of `n` is exactly `spec_required_space(n)` bytes long.
pub proof fn lemma_varint_len(n: nat)
    ensures
        spec_varint(n).len() == spec_required_space(n),
    decreases n,
{
    if n >= 128 {
        lemma_varint_len(n / 128);
    }
}

/// A decoded varint consumes between one byte and the whole stream.
pub proof fn lemma_varint_used_bound(src: Seq<u8>)
    ensures
        match spec_varint_value(src) {
            Some((v, u)) => 1 <= u <= src.len(),
            None => true,
        },
    decreases src.len(),
{
    if src.len() > 0 && src[0] >= 128 {
        lemma_varint_used_bound(src.skip(1));
    }
}

/// Varint round trip: decoding a stream that begins with the encoding of
/// `n` yields `n` and consumes exactly `spec_required_space(n)` bytes,
/// whatever follows.
pub proof fn lemma_varint_round_trip(n: nat, tail: Seq<u8>)
    ensures
        spec_varint_value(spec_varint(n) + tail) == Some((n, spec_required_space(n))),
    decreases n,
{
    let s = spec_varint(n) + tail;
    if n < 128 {
        assert(s[0] == n as u8);
    } else {
        let b = (n % 128 + 128) as u8;
        assert(s[0] == b);
        assert(b >= 128);
        lemma_varint_round_trip(n / 128, tail);
        assert(s.skip(1) =~= spec_varint(n / 128) + tail);
        vstd::arithmetic::div_mod::lemma_fundamental_div_mod(n as int, 128);
        assert((b - 128) as nat + 128 * (n / 128) == n);
    }
}

/// Writes the varint encoding of `n` into `dest` starting at index `at`.
/// Returns the number of bytes written, or 0 when the buffer is too small
/// (a partial prefix may have been written, as many bytes as fit).
pub fn encode_var(n: usize, dest: &mut Vec<u8>, at: usize) -> (written: usize)
    requires
        at <= old(dest)@.len(),
    ensures
        final(dest)@.len() == old(dest)@.len(),
        ({
            let space = spec_required_space(n as nat);
            let w = if space <= old(dest)@.len() - at {
                space as int
            } else {
                old(dest)@.len() - at
            };
            &&& written == (if space <= old(dest)@.len() - at {
                space as int
            } else {
                0
            })
            &&& final(dest)@ == old(dest)@.take(at as int) + spec_varint(n as nat).take(w)
                + old(dest)@.skip(at + w)
        }),
{
    let ghost vint = spec_varint(n as nat);
    let ghost space = spec_required_space(n as nat);
    let mut cur: usize = n;
    let mut i: usize = 0;
    proof {
        assert(old(dest)@.take(at as int) + vint.take(0) + old(dest)@.skip(at as int) =~= old(
            dest,
        )@);
    }
    loop
        invariant_except_break
            vint == spec_varint(n as nat),
            space == spec_required_space(n as nat),
            at + i <= dest@.len(),
            dest@.len() == old(dest)@.len(),
            vint =~= vint.take(i as int) + spec_varint(cur as nat),
            space == i + spec_required_space(cur as nat),
            dest@ == old(dest)@.take(at as int) + vint.take(i as int) + old(dest)@.skip(
                at + i,
            ),
        ensures
            dest@.len() == old(dest)@.len(),
            space <= old(dest)@.len() - at,
            i == space,
            dest@ == old(dest)@.take(at as int) + vint.take(i as int) + old(dest)@.skip(at + i),
        decreases cur,
    {
        let low_bits = cur & 0x7F;
        let next = cur >> 7;
        proof {
            assert(cur & 0x7F == cur % 128 && cur >> 7 == cur / 128 && cur & 0x7F < 128)
                by (bit_vector);
        }
        let mut byte: u8 = low_bits as u8;
        if next != 0 {
            byte = byte | 0x80;
            proof {
                assert((cur % 128) | 0x80 == cur % 128 + 128) by (bit_vector);
            }
        }
        proof {
            assert(spec_varint(cur as nat)[0] == byte);
            assert(vint[i as int] == (vint.take(i as int) + spec_varint(cur as nat))[i as int]);
            assert(vint[i as int] == byte);
        }
        if i < dest.len() - at {
            let ghost pre = dest@;
            dest[at + i] = byte;
            i = i + 1;
            proof {
                assert(dest@ =~= old(dest)@.take(at as int) + vint.take(i as int)
                    + old(dest)@.skip(at + i));
                assert(vint.take(i as int) =~= vint.take(i - 1) + seq![vint[i - 1]]);
            }
        } else {
            proof {
                assert(spec_required_space(cur as nat) >= 1);
                assert(space > old(dest)@.len() - at);
                assert(vint.take(i as int) =~= vint.take(old(dest)@.len() - at));
            }
            return 0;
        }
        if next == 0 {
            proof {
                assert(spec_varint(cur as nat) =~= seq![byte]);
                assert(vint =~= vint.take(i as int));
                assert(vint.take(i as int).len() == i);
            }
            break ;
        }
        proof {
            assert(spec_varint(cur as nat) =~= seq![byte] + spec_varint(next as nat));
            assert(vint =~= vint.take(i as int) + spec_varint(next as nat)) by {
                assert(vint =~= (vint.take(i - 1) + seq![byte]) + spec_varint(next as nat));
            }
        }
        cur = next;
    }
    i
}

/// The number of bytes needed to encode `n` as a varint.
pub fn required_space(n: usize) -> (r: usize)
    ensures
        r == spec_required_space(n as nat),
{
    let mut cur: usize = n;
    let mut bytes: usize = 1;
    proof {
        lemma_space_le_ten(n as nat);
    }
    while cur >= 0x80
        invariant
            bytes >= 1,
            bytes + spec_required_space(cur as nat) == 1 + spec_required_space(n as nat),
            spec_required_space(n as nat) <= 10,
        decreases cur,
    {
        proof {
            assert(cur >> 7 == cur / 128) by (bit_vector);
        }
        cur = cur >> 7;
        bytes = bytes + 1;
    }
    bytes
}

/// Decodes a varint from the head of `src`. Returns the value and the
/// number of bytes consumed, or `None` when no terminating byte occurs
/// within the first ten bytes or the value does not fit in a machine
/// word.
pub fn decode_var(src: &[u8]) -> (r: Option<(usize, usize)>)
    ensures
        ({
            match spec_varint_value(src@) {
                Some((v, u)) => if v <= usize::MAX && u <= 10 {
                    r == Some(((v as usize), (u as usize)))
                } else {
                    r is None
                },
                None => r is None,
            }
        }),
{
    let mut acc: u64 = 0;
    let mut mult: u64 = 1;
    let mut i: usize = 0;
    proof {
        assert(src@.skip(0) =~= src@);
        match spec_varint_value(src@) {
            Some((v, u)) => {
                assert(v * 1 == v) by (nonlinear_arith);
            },
            None => {},
        }
    }
    loop
        invariant
            i <= 9,
            i <= src@.len(),
            mult == pow128(i as nat),
            ({
                match spec_varint_value(src@) {
                    Some((v, u)) => match spec_varint_value(src@.skip(i as int)) {
                        Some((v2, u2)) => v == acc + v2 * mult && u == u2 + i,
                        None => false,
                    },
                    None => spec_varint_value(src@.skip(i as int)) is None,
                }
            }),
        decreases src@.len() - i,
    {
        if i >= src.len() {
            proof {
                assert(src@.skip(i as int).len() == 0);
            }
            return None;
        }
        let b = src[i];
        let ghost rest = src@.skip(i as int);
        proof {
            assert(rest[0] == src@[i as int]);
            assert(rest.skip(1) =~= src@.skip(i + 1));
        }
        let low = (b & 0x7F) as u64;
        proof {
            assert(b & 0x7F == b % 128) by (bit_vector);
        }
        if b < 128 {
            // Terminating byte: the value is acc + low * mult, if it fits.
            proof {
                assert(low == b as u64);
                assert(spec_varint_value(rest) == Some((b as nat, 1nat)));
            }
            match low.checked_mul(mult) {
                Some(part) => {
                    match acc.checked_add(part) {
                        Some(v) => {
                            if v <= (usize::MAX as u64) {
                                return Some((v as usize, i + 1));
                            }
                            return None;
                        },
                        None => {
                            return None;
                        },
                    }
                },
                None => {
                    return None;
                },
            }
        } else {
            proof {
                assert(low == (b - 128) as u64);
            }
            if i == 9 {
                // A continuation here would need an eleventh byte.
                proof {
                    lemma_varint_used_pos(src@.skip(i + 1));
                    match spec_varint_value(src@) {
                        Some((v, u)) => {
                            assert(u >= 11);
                        },
                        None => {},
                    }
                }
                return None;
            }
            let ghost acc0 = acc as nat;
            let ghost mult0 = mult as nat;
            match low.checked_mul(mult) {
                Some(part) => {
                    match acc.checked_add(part) {
                        Some(v) => {
                            acc = v;
                        },
                        None => {
                            proof {
                                lemma_decode_overflow(src@, i as int, acc0, mult0);
                            }
                            return None;
                        },
                    }
                },
                None => {
                    proof {
                        lemma_decode_overflow(src@, i as int, acc0, mult0);
                    }
                    return None;
                },
            }
            proof {
                lemma_decode_step(src@, i as int, acc0, mult0);
                assert(pow128((i + 1) as nat) == 128 * pow128(i as nat));
                assert(pow128(0) == 1);
                assert(pow128(1) == 128);
                assert(pow128(2) == 128 * pow128(1));
                assert(pow128(3) == 128 * pow128(2));
                assert(pow128(4) == 128 * pow128(3));
                assert(pow128(5) == 128 * pow128(4));
                assert(pow128(6) == 128 * pow128(5));
                assert(pow128(7) == 128 * pow128(6));
                assert(pow128(8) == 128 * pow128(7));
                lemma_pow128_mono(i as nat, 8);
                assert(mult <= 72057594037927936);
            }
            mult = mult * 128;
            i = i + 1;
        }
    }
}

/// A decoded varint always consumes at least one byte.
proof fn lemma_varint_used_pos(src: Seq<u8>)
    ensures
        match spec_varint_value(src) {
            Some((v, u)) => u >= 1,
            None => true,
        },
    decreases src.len(),
{
    if src.len() > 0 && src[0] >= 128 {
        lemma_varint_used_pos(src.skip(1));
    }
}

/// When the already-gathered part exceeds the machine word, so does the
/// whole value.
proof fn lemma_decode_overflow(src: Seq<u8>, i: int, acc: nat, mult: nat)
    requires
        0 <= i < src.len(),
        src[i] >= 128,
        acc + ((src[i] - 128) as nat) * mult > usize::MAX,
    ensures
        ({
            match spec_varint_value(src.skip(i)) {
                Some((v2, u2)) => acc + v2 * mult > usize::MAX,
                None => true,
            }
        }),
{
    let rest = src.skip(i);
    assert(rest[0] == src[i]);
    assert(rest.skip(1) =~= src.skip(i + 1));
    match spec_varint_value(rest) {
        Some((v2, u2)) => {
            let low = (src[i] - 128) as nat;
            match spec_varint_value(src.skip(i + 1)) {
                Some((v3, u3)) => {
                    assert(v2 == low + 128 * v3);
                    assert(v2 * mult >= low * mult) by (nonlinear_arith)
                        requires
                            v2 >= low,
                            mult >= 0,
                    ;
                },
                None => {},
            }
        },
        None => {},
    }
}

/// One decoding step: consuming a continuation byte folds its low bits
/// into the accumulator and scales the multiplier.
proof fn lemma_decode_step(src: Seq<u8>, i: int, acc: nat, mult: nat)
    requires
        0 <= i < src.len(),
        src[i] >= 128,
    ensures
        ({
            let low = (src[i] - 128) as nat;
            match spec_varint_value(src.skip(i)) {
                Some((v2, u2)) => match spec_varint_value(src.skip(i + 1)) {
                    Some((v3, u3)) => acc + v2 * mult == (acc + low * mult) + v3 * (mult * 128)
                        && u2 == u3 + 1,
                    None => false,
                },
                None => spec_varint_value(src.skip(i + 1)) is None,
            }
        }),
{
    let rest = src.skip(i);
    assert(rest[0] == src[i]);
    assert(rest.skip(1) =~= src.skip(i + 1));
    let low = (src[i] - 128) as nat;
    match spec_varint_value(src.skip(i + 1)) {
        Some((v3, u3)) => {
            assert((low + 128 * v3) * mult == low * mult + v3 * (mult * 128)) by (nonlinear_arith);
        },
        None => {},
    }
}

/// Compares two byte strings for equality.
pub fn bytes_eq(a: &[u8], b: &[u8]) -> (r: bool)
    ensures
        r == (a@ == b@),
{
    if a.len() != b.len() {
        return false;
    }
    let n = a.len();
    let mut i: usize = 0;
    while i < n
        invariant
            i <= n,
            n == a@.len(),
            n == b@.len(),
            forall|j: int| 0 <= j < i ==> a@[j] == b@[j],
        decreases n - i,
    {
        if a[i] != b[i] {
            return false;
        }
        i = i + 1;
    }
    proof {
        assert(a@ =~= b@);
    }
    true
}

/// A byte range inside a file: where it starts and how long it is.
#[derive(Debug, Clone)]
pub struct SegmentHandle {
    pub offset: usize,
    pub length: usize,
}

/// The result of decoding a `SegmentHandle` from the head of `src`: its
/// two varint fields and the bytes consumed.
pub open spec fn spec_handle_decode(src: Seq<u8>) -> Option<((nat, nat), nat)> {
    match spec_varint_value(src) {
        Some((v1, u1)) => if v1 <= usize::MAX && u1 <= 10 {
            match spec_varint_value(src.skip(u1 as int)) {
                Some((v2, u2)) => if v2 <= usize::MAX && u2 <= 10 {
                    Some(((v1, v2), (u1 + u2) as nat))
                } else {
                    None
                },
                None => None,
            }
        } else {
            None
        },
        None => None,
    }
}

impl SegmentHandle {
    pub fn new(offset: usize, length: usize) -> (r: SegmentHandle)
        ensures
            r.offset == offset,
            r.length == length,
    {
        SegmentHandle { offset, length }
    }

    /// Where the segment starts.
    pub fn offset(&self) -> (r: usize)
        ensures
            r == self.offset,
    {
        self.offset
    }

    /// How many bytes the segment holds.
    pub fn length(&self) -> (r: usize)
        ensures
            r == self.length,
    {
        self.length
    }

    /// Encodes the handle as two varints into the front of `dest`.
    /// Returns the bytes written, or 0 if `dest` is too small.
    pub fn encode(&self, dest: &mut Vec<u8>) -> (written: usize)
        ensures
            final(dest)@.len() == old(dest)@.len(),
            ({
                let need = spec_required_space(self.offset as nat) + spec_required_space(
                    self.length as nat,
                );
                &&& old(dest)@.len() < need ==> written == 0 && final(dest)@ == old(dest)@
                &&& old(dest)@.len() >= need ==> written == need && final(dest)@ == spec_varint(
                    self.offset as nat,
                ) + spec_varint(self.length as nat) + old(dest)@.skip(need as int)
            }),
    {
        let s1 = required_space(self.offset);
        let s2 = required_space(self.length);
        proof {
            lemma_space_le_ten(self.offset as nat);
            lemma_space_le_ten(self.length as nat);
            lemma_varint_len(self.offset as nat);
            lemma_varint_len(self.length as nat);
        }
        if dest.len() < s1 + s2 {
            return 0;
        }
        let ghost orig = dest@;
        let w1 = encode_var(self.offset, dest, 0);
        let ghost mid = dest@;
        let w2 = encode_var(self.length, dest, w1);
        proof {
            let v1 = spec_varint(self.offset as nat);
            let v2 = spec_varint(self.length as nat);
            assert(v1.take(s1 as int) =~= v1);
            assert(v2.take(s2 as int) =~= v2);
            assert(mid.take(w1 as int) =~= v1);
            assert(dest@ =~= v1 + v2 + orig.skip((s1 + s2) as int));
        }
        w1 + w2
    }

    /// Decodes a handle from the head of `from`: the two varints and the
    /// number of bytes read, or `None` when either varint is missing or
    /// out of range.
    pub fn decode(from: &[u8]) -> (r: Option<(SegmentHandle, usize)>)
        ensures
            ({
                match spec_handle_decode(from@) {
                    Some(((o, l), u)) => match r {
                        Some((h, used)) => h.offset == o && h.length == l && used == u,
                        None => false,
                    },
                    None => r is None,
                }
            }),
    {
        proof {
            lemma_varint_used_bound(from@);
        }
        match decode_var(from) {
            Some((offset, u1)) => {
                let rest = &from[u1..from.len()];
                proof {
                    assert(rest@ =~= from@.skip(u1 as int));
                }
                match decode_var(rest) {
                    Some((length, u2)) => Some((SegmentHandle { offset, length }, u1 + u2)),
                    None => None,
                }
            },
            None => None,
        }
    }
}

/// Encode/decode round trip for a `SegmentHandle`: decoding a stream that
/// begins with the encoding of a handle yields its two fields and
/// consumes exactly the encoded bytes.
pub proof fn lemma_handle_round_trip(offset: nat, length: nat, tail: Seq<u8>)
    requires
        offset <= usize::MAX,
        length <= usize::MAX,
    ensures
        spec_handle_decode(spec_varint(offset) + spec_varint(length) + tail) == Some(
            ((offset, length), spec_required_space(offset) + spec_required_space(length)),
        ),
{
    let s = spec_varint(offset) + spec_varint(length) + tail;
    assert(s =~= spec_varint(offset) + (spec_varint(length) + tail));
    lemma_varint_len(offset);
    lemma_varint_len(length);
    lemma_varint_round_trip(offset, spec_varint(length) + tail);
    lemma_space_le_ten(offset);
    lemma_space_le_ten(length);
    let u1 = spec_required_space(offset);
    assert(s.skip(u1 as int) =~= spec_varint(length) + tail);
    lemma_varint_round_trip(length, tail);
}

/// A logical record: an insertion (`Put`) or a tombstone (`Delete`).
#[derive(Debug, Clone)]
pub enum Entry {
    Put { key: Key, value: Value },
    Delete { key: Key },
}

/// The mathematical shadow of an `Entry`, over byte sequences.
pub enum EntryView {
    Put { key: Seq<u8>, value: Seq<u8> },
    Delete { key: Seq<u8> },
}

impl View for Entry {
    type V = EntryView;

    open spec fn view(&self) -> EntryView {
        match self {
            Entry::Put { key, value } => EntryView::Put { key: key@, value: value@ },
            Entry::Delete { key } => EntryView::Delete { key: key@ },
        }
    }
}

impl PartialEq for Entry {
    fn eq(&self, other: &Entry) -> (r: bool)
        ensures
            r == (self@ == other@),
    {
        match (self, other) {
            (Entry::Put { key: k1, value: v1 }, Entry::Put { key: k2, value: v2 }) => {
                let r = bytes_eq(k1.as_slice(), k2.as_slice()) && bytes_eq(
                    v1.as_slice(),
                    v2.as_slice(),
                );
                proof {
                    if r {
                        assert(self@ == other@);
                    }
                }
                r
            },
            (Entry::Delete { key: k1 }, Entry::Delete { key: k2 }) => {
                let r = bytes_eq(k1.as_slice(), k2.as_slice());
                proof {
                    if r {
                        assert(self@ == other@);
                    }
                }
                r
            },
            _ => false,
        }
    }
}

impl vstd::std_specs::cmp::PartialEqSpecImpl for Entry {
    open spec fn obeys_eq_spec() -> bool {
        true
    }

    open spec fn eq_spec(&self, other: &Entry) -> bool {
        self@ == other@
    }
}

/// Big-endian encoding of a 32-bit length.
pub open spec fn spec_be32(n: nat) -> Seq<u8> {
    seq![
        ((n / 0x1000000) % 256) as u8,
        ((n / 0x10000) % 256) as u8,
        ((n / 0x100) % 256) as u8,
        (n % 256) as u8,
    ]
}

/// Big-endian encoding of a 64-bit sequence number.
pub open spec fn spec_be64(n: nat) -> Seq<u8> {
    seq![
        ((n / 0x100000000000000) % 256) as u8,
        ((n / 0x1000000000000) % 256) as u8,
        ((n / 0x10000000000) % 256) as u8,
        ((n / 0x100000000) % 256) as u8,
        ((n / 0x1000000) % 256) as u8,
        ((n / 0x10000) % 256) as u8,
        ((n / 0x100) % 256) as u8,
        (n % 256) as u8,
    ]
}

/// The value read back from a big-endian 32-bit encoding.
pub open spec fn spec_be32_val(b0: u8, b1: u8, b2: u8, b3: u8) -> nat {
    (b0 as nat) * 0x1000000 + (b1 as nat) * 0x10000 + (b2 as nat) * 0x100 + (b3 as nat)
}

/// Reading back the four bytes of `spec_be32` gives the value written.
pub proof fn lemma_be32_roundtrip(n: nat)
    requires
        n < 0x100000000,
    ensures
        ({
            let b = spec_be32(n);
            spec_be32_val(b[0], b[1], b[2], b[3]) == n
        }),
{
    let m = n as u32;
    assert(((m / 0x1000000) % 256) * 0x1000000 + ((m / 0x10000) % 256) * 0x10000 + ((m / 0x100)
        % 256) * 0x100 + (m % 256) == m) by (bit_vector);
}

/// Appends the big-endian encoding of `v` to `dst`.
pub fn put_be32(dst: &mut Vec<u8>, v: u32)
    ensures
        final(dst)@ == old(dst)@ + spec_be32(v as nat),
{
    let ghost pre = dst@;
    dst.push((v / 0x1000000 % 256) as u8);
    dst.push((v / 0x10000 % 256) as u8);
    dst.push((v / 0x100 % 256) as u8);
    dst.push((v % 256) as u8);
    proof {
        assert(dst@ =~= pre + spec_be32(v as nat));
    }
}

/// Appends the big-endian encoding of `v` to `dst`.
pub fn put_be64(dst: &mut Vec<u8>, v: u64)
    ensures
        final(dst)@ == old(dst)@ + spec_be64(v as nat),
{
    let ghost pre = dst@;
    dst.push((v / 0x100000000000000 % 256) as u8);
    dst.push((v / 0x1000000000000 % 256) as u8);
    dst.push((v / 0x10000000000 % 256) as u8);
    dst.push((v / 0x100000000 % 256) as u8);
    dst.push((v / 0x1000000 % 256) as u8);
    dst.push((v / 0x10000 % 256) as u8);
    dst.push((v / 0x100 % 256) as u8);
    dst.push((v % 256) as u8);
    proof {
        assert(dst@ =~= pre + spec_be64(v as nat));
    }
}

/// Reads a big-endian 32-bit value from `src` at `offset`.
pub fn get_be32(src: &[u8], offset: usize) -> (r: u32)
    requires
        offset + 4 <= src@.len(),
    ensures
        r == spec_be32_val(
            src@[offset as int],
            src@[offset as int + 1],
            src@[offset as int + 2],
            src@[offset as int + 3],
        ),
{
    (src[offset] as u32) * 0x1000000 + (src[offset + 1] as u32) * 0x10000 + (src[offset + 2]
        as u32) * 0x100 + (src[offset + 3] as u32)
}

/// Why a stored record or table entry could not be decoded.
#[derive(Clone, Copy, Debug, PartialEq, Eq, Structural)]
pub enum DecodeError {
    /// The record held no bytes at all.
    EmptyRecord,
    /// The tag byte named no known entry kind.
    UnknownTag,
    /// A length prefix ran past the end of the record.
    MissingLength,
    /// A field's bytes ran past the end of the record.
    PayloadTruncated,
    /// A table entry's key could not be read.
    InvalidKey,
    /// A table entry's value could not be read.
    InvalidValue,
    /// A table entry's type byte named no known kind.
    InvalidEntryType,
}

} // verus!
