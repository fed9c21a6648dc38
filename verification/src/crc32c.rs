//! CRC32C (Castagnoli) checksum over byte strings, the masked form stored
//! in write-ahead-log record headers, and little-endian fixed32 helpers.
//!
//! The checksum uses the standard reflected algorithm: initial value
//! `0xFFFF_FFFF`, least-significant-bit-first processing with the reflected
//! polynomial, and a final xor with `0xFFFF_FFFF`.
use vstd::prelude::*;

verus! {

/// Reflected polynomial for CRC32C (Castagnoli).
pub const POLY_REFLECTED: u32 = 0x82F6_3B78;

/// Constant added when masking a CRC before it is stored on disk.
pub const MASK_DELTA: u32 = 0xA282_EAD8;

/// One round of the reflected CRC update: shift right once, folding in the
/// polynomial when the low bit is set.
pub open spec fn spec_crc_round(crc: u32) -> u32 {
    if crc & 1 == 1 {
        (crc >> 1) ^ POLY_REFLECTED
    } else {
        crc >> 1
    }
}

/// `n` rounds of the reflected CRC update.
pub open spec fn spec_crc_rounds(crc: u32, n: nat) -> u32
    decreases n,
{
    if n == 0 {
        crc
    } else {
        spec_crc_rounds(spec_crc_round(crc), (n - 1) as nat)
    }
}

/// Folds one byte into a running (pre-xor) CRC state.
pub open spec fn spec_update_byte(crc: u32, b: u8) -> u32 {
    spec_crc_rounds(crc ^ (b as u32), 8)
}

/// Folds a byte string into a running (pre-xor) CRC state, first byte first.
pub open spec fn spec_update_seq(crc: u32, data: Seq<u8>) -> u32
    decreases data.len(),
{
    if data.len() == 0 {
        crc
    } else {
        spec_update_seq(spec_update_byte(crc, data[0]), data.skip(1))
    }
}

/// The CRC32C checksum of a byte string.
pub open spec fn spec_crc32c(data: Seq<u8>) -> u32 {
    spec_update_seq(0xFFFF_FFFFu32, data) ^ 0xFFFF_FFFFu32
}

/// The checksum of `data0 ++ data1`, given the checksum of `data0`.
pub open spec fn spec_crc_extend(initial_crc: u32, data: Seq<u8>) -> u32 {
    spec_update_seq(initial_crc ^ 0xFFFF_FFFFu32, data) ^ 0xFFFF_FFFFu32
}

/// The masked form of a CRC: rotate right by 15, then add a constant,
/// wrapping on 32 bits.
pub open spec fn spec_mask(crc: u32) -> u32 {
    ((crc >> 15) | (crc << 17)).wrapping_add(MASK_DELTA)
}

/// Inverse of `spec_mask`: subtract the constant, then rotate left by 15.
pub open spec fn spec_unmask(masked: u32) -> u32 {
    (masked.wrapping_sub(MASK_DELTA) << 15) | (masked.wrapping_sub(MASK_DELTA) >> 17)
}

/// Little-endian reading of four bytes as a 32-bit value.
pub open spec fn spec_le32(b0: u8, b1: u8, b2: u8, b3: u8) -> u32 {
    (b0 as u32) | ((b1 as u32) << 8) | ((b2 as u32) << 16) | ((b3 as u32) << 24)
}

fn update_byte(crc: u32, b: u8) -> (r: u32)
    ensures
        r == spec_update_byte(crc, b),
{
    let mut c: u32 = crc ^ (b as u32);
    let mut i: u32 = 0;
    while i < 8
        invariant
            i <= 8,
            spec_update_byte(crc, b) == spec_crc_rounds(c, (8 - i) as nat),
        decreases 8 - i,
    {
        proof {
            lemma_crc_rounds_unfold(c, (8 - i) as nat);
        }
        if c & 1 == 1 {
            c = (c >> 1) ^ POLY_REFLECTED;
        } else {
            c = c >> 1;
        }
        i = i + 1;
    }
    c
}

proof fn lemma_crc_rounds_unfold(crc: u32, n: nat)
    requires
        n > 0,
    ensures
        spec_crc_rounds(crc, n) == spec_crc_rounds(spec_crc_round(crc), (n - 1) as nat),
{
}

proof fn lemma_update_seq_one(crc: u32, x: u8)
    ensures
        spec_update_seq(crc, seq![x]) == spec_update_byte(crc, x),
{
    let s = seq![x];
    assert(s.skip(1) =~= Seq::<u8>::empty());
    assert(spec_update_seq(spec_update_byte(crc, x), Seq::<u8>::empty()) == spec_update_byte(
        crc,
        x,
    ));
}

/// `spec_update_seq` distributes over concatenation of byte strings.
pub proof fn lemma_update_seq_concat(crc: u32, a: Seq<u8>, b: Seq<u8>)
    ensures
        spec_update_seq(crc, a + b) == spec_update_seq(spec_update_seq(crc, a), b),
    decreases a.len(),
{
    if a.len() == 0 {
        assert(a + b =~= b);
    } else {
        assert((a + b).skip(1) =~= a.skip(1) + b);
        lemma_update_seq_concat(spec_update_byte(crc, a[0]), a.skip(1), b);
    }
}

/// Extending the checksum of `a` by `b` gives the checksum of `a ++ b`.
pub proof fn lemma_extend_is_concat(a: Seq<u8>, b: Seq<u8>)
    ensures
        spec_crc_extend(spec_crc32c(a), b) == spec_crc32c(a + b),
{
    let mid = spec_update_seq(0xFFFF_FFFFu32, a);
    assert(mid ^ 0xFFFF_FFFFu32 ^ 0xFFFF_FFFFu32 == mid) by (bit_vector);
    lemma_update_seq_concat(0xFFFF_FFFFu32, a, b);
}

/// Computes the CRC32C checksum of a byte string.
pub fn value(data: &[u8]) -> (r: u32)
    ensures
        r == spec_crc32c(data@),
{
    extend_state(0xFFFF_FFFFu32, data) ^ 0xFFFF_FFFF
}

/// Extends a prior checksum with more bytes, so that
/// `extend(value(a), b) == value(a ++ b)`.
pub fn extend(initial_crc: u32, data: &[u8]) -> (r: u32)
    ensures
        r == spec_crc_extend(initial_crc, data@),
{
    extend_state(initial_crc ^ 0xFFFF_FFFF, data) ^ 0xFFFF_FFFF
}

fn extend_state(initial: u32, data: &[u8]) -> (r: u32)
    ensures
        r == spec_update_seq(initial, data@),
{
    let mut crc: u32 = initial;
    let n: usize = data.len();
    let mut i: usize = 0;
    while i < n
        invariant
            i <= n,
            n == data@.len(),
            crc == spec_update_seq(initial, data@.take(i as int)),
        decreases n - i,
    {
        proof {
            assert(data@.take(i as int + 1) =~= data@.take(i as int) + seq![data@[i as int]]);
            lemma_update_seq_concat(initial, data@.take(i as int), seq![data@[i as int]]);
            lemma_update_seq_one(crc, data@[i as int]);
        }
        crc = update_byte(crc, data[i]);
        i = i + 1;
    }
    proof {
        assert(data@.take(n as int) =~= data@);
    }
    crc
}

/// Masks a CRC for storage: rotate right by 15 and add a constant, so that
/// stored CRC bytes differ from the raw CRC of the data.
pub fn mask(crc: u32) -> (r: u32)
    ensures
        r == spec_mask(crc),
{
    ((crc >> 15) | (crc << 17)).wrapping_add(MASK_DELTA)
}

/// Reverses `mask`: subtract the constant, then rotate left by 15.
pub fn unmask(masked: u32) -> (r: u32)
    ensures
        r == spec_unmask(masked),
{
    let rot = masked.wrapping_sub(MASK_DELTA);
    (rot << 15) | (rot >> 17)
}

/// Unmasking a masked CRC returns the original value, for every 32-bit value.
pub proof fn lemma_mask_unmask_roundtrip(x: u32)
    ensures
        spec_unmask(spec_mask(x)) == x,
{
    let r = (x >> 15) | (x << 17);
    assert(r.wrapping_add(MASK_DELTA).wrapping_sub(MASK_DELTA) == r) by (bit_vector);
    assert((((x >> 15) | (x << 17)) << 15) | (((x >> 15) | (x << 17)) >> 17) == x) by (bit_vector);
}

/// Reads a little-endian 32-bit value from the first four bytes of `src4`.
pub fn get_fixed32_le(src4: &[u8]) -> (r: u32)
    requires
        src4@.len() >= 4,
    ensures
        r == spec_le32(src4@[0], src4@[1], src4@[2], src4@[3]),
{
    (src4[0] as u32) | ((src4[1] as u32) << 8) | ((src4[2] as u32) << 16) | ((src4[3] as u32)
        << 24)
}

/// Writes `v` into the first four bytes of `dst4`, little-endian.
pub fn put_fixed32_le(dst4: &mut Vec<u8>, v: u32)
    requires
        old(dst4)@.len() >= 4,
    ensures
        final(dst4)@.len() == old(dst4)@.len(),
        final(dst4)@[0] == (v & 0xFF) as u8,
        final(dst4)@[1] == ((v >> 8) & 0xFF) as u8,
        final(dst4)@[2] == ((v >> 16) & 0xFF) as u8,
        final(dst4)@[3] == ((v >> 24) & 0xFF) as u8,
        forall|i: int| 4 <= i < old(dst4)@.len() ==> final(dst4)@[i] == old(dst4)@[i],
{
    dst4[0] = (v & 0xFF) as u8;
    dst4[1] = ((v >> 8) & 0xFF) as u8;
    dst4[2] = ((v >> 16) & 0xFF) as u8;
    dst4[3] = ((v >> 24) & 0xFF) as u8;
}

/// The little-endian encoding written by `put_fixed32_le` reads back as the
/// value written.
pub proof fn lemma_fixed32_roundtrip(v: u32)
    ensures
        spec_le32(
            (v & 0xFF) as u8,
            ((v >> 8) & 0xFF) as u8,
            ((v >> 16) & 0xFF) as u8,
            ((v >> 24) & 0xFF) as u8,
        ) == v,
{
    assert(((v & 0xFF) as u8 as u32) | ((((v >> 8) & 0xFF) as u8 as u32) << 8) | ((((v >> 16)
        & 0xFF) as u8 as u32) << 16) | ((((v >> 24) & 0xFF) as u8 as u32) << 24) == v)
        by (bit_vector);
}

} // verus!
