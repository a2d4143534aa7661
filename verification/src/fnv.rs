//! The byte hash: an FNV-1a variant whose multiplication is carried out on
//! 32-bit halves and whose accumulator is reduced modulo `2^64 - 1`.
//!
//! It departs from FNV-1a in two ways. The product of the two upper halves
//! is added to the cross products before the shift by 32 bits, so a round
//! is not the product modulo `2^64` once the accumulator exceeds 32 bits.
//! And every round ends with a reduction modulo `2^64 - 1`, which takes the
//! largest 64-bit value to zero and leaves every other value as it is.

use vstd::prelude::*;

verus! {

/// The accumulator's starting value.
pub const FNV_OFFSET_BASIS: u64 = 0x811C9DC5;

/// The multiplier of every round.
pub const FNV_PRIME: u64 = 0x100000001B3;

/// The modulus applied at the end of every round: the largest `u64`.
pub const MOD: u64 = 0xFFFF_FFFF_FFFF_FFFF;

/// The accumulator after one round on accumulator `h` and input byte `b`.
///
/// With `x = h ^ b` split as `x = hi * 2^32 + lo` and the prime split as
/// `ph * 2^32 + pl`, the round yields
/// `(((hi * ph + hi * pl + lo * ph) * 2^32 + lo * pl) mod 2^64) mod (2^64 - 1)`.
pub open spec fn mix(h: u64, b: u8) -> u64 {
    let x = h ^ (b as u64);
    let hi = x as int / 0x1_0000_0000;
    let lo = x as int % 0x1_0000_0000;
    let ph = FNV_PRIME as int / 0x1_0000_0000;
    let pl = FNV_PRIME as int % 0x1_0000_0000;
    let cross = hi * ph + hi * pl + lo * ph;
    let product = (cross * 0x1_0000_0000 + lo * pl) % 0x1_0000_0000_0000_0000;
    (product % (MOD as int)) as u64
}

/// The digest of a byte sequence: the rounds applied from the offset basis,
/// one per byte, first byte first.
pub open spec fn digest(bytes: Seq<u8>) -> u64
    decreases bytes.len(),
{
    if bytes.len() == 0 {
        FNV_OFFSET_BASIS
    } else {
        mix(digest(bytes.drop_last()), bytes.last())
    }
}

/// A digest narrowed to the machine word: its low `usize::BITS` bits.
pub open spec fn narrow(h: u64) -> usize {
    (h as int % (usize::MAX as int + 1)) as usize
}

/// The halves of a 64-bit value, as a shift and a mask give them.
proof fn lemma_halves(x: u64)
    by (bit_vector)
    ensures
        x >> 32 == x / 0x1_0000_0000,
        x & 0xFFFF_FFFF == x % 0x1_0000_0000,
        (x >> 32) < 0x1_0000_0000,
        (x & 0xFFFF_FFFF) < 0x1_0000_0000,
{
}

/// A shift to the left by 32 bits multiplies by `2^32` and drops what
/// exceeds 64 bits.
proof fn lemma_shift_left(p: u64)
    by (bit_vector)
    ensures
        p << 32 == (p * 0x1_0000_0000) % 0x1_0000_0000_0000_0000,
{
}

/// Adding to a product that was reduced modulo `2^64`, and dropping the
/// carry, reduces the whole sum modulo `2^64`.
proof fn lemma_wrapped_sum(cross: int, low_product: int, shifted: int, sum: int)
    requires
        0 <= cross,
        0 <= low_product < 0x1_0000_0000_0000_0000,
        shifted == (cross * 0x1_0000_0000) % 0x1_0000_0000_0000_0000,
        sum == if shifted + low_product > 0xFFFF_FFFF_FFFF_FFFF {
            shifted + low_product - 0x1_0000_0000_0000_0000
        } else {
            shifted + low_product
        },
    ensures
        sum == (cross * 0x1_0000_0000 + low_product) % 0x1_0000_0000_0000_0000,
{
}

/// One round of the hash.
pub fn mix_byte(h: u64, b: u8) -> (r: u64)
    ensures
        r == mix(h, b),
{
    let x: u64 = h ^ (b as u64);
    let high: u64 = x >> 32;
    let low: u64 = x & 0xFFFF_FFFF;
    let prime_high: u64 = FNV_PRIME >> 32;
    let prime_low: u64 = FNV_PRIME & 0xFFFF_FFFF;
    proof {
        lemma_halves(x);
        lemma_halves(FNV_PRIME);
        assert(prime_high == 0x100 && prime_low == 0x1B3);
    }
    let product_high: u64 = high * prime_high + high * prime_low + low * prime_high;
    let product_low: u64 = low * prime_low;
    let shifted: u64 = product_high << 32;
    let sum: u64 = shifted.wrapping_add(product_low);
    proof {
        lemma_shift_left(product_high);
        lemma_wrapped_sum(product_high as int, product_low as int, shifted as int, sum as int);
    }
    sum % MOD
}

/// The digest of `bytes`.
pub fn fnv1a(bytes: &[u8]) -> (h: u64)
    ensures
        h == digest(bytes@),
{
    let mut h: u64 = FNV_OFFSET_BASIS;
    let mut i: usize = 0;
    while i < bytes.len()
        invariant
            i <= bytes.len(),
            h == digest(bytes@.take(i as int)),
        decreases bytes.len() - i,
    {
        proof {
            assert(bytes@.take(i + 1).drop_last() == bytes@.take(i as int));
        }
        h = mix_byte(h, bytes[i]);
        i += 1;
    }
    proof {
        assert(bytes@.take(bytes.len() as int) == bytes@);
    }
    h
}

/// Narrows a digest to the machine word, for use as an index.
pub fn narrow_digest(h: u64) -> (r: usize)
    ensures
        r == narrow(h),
{
    let mask: u64 = usize::MAX as u64;
    let low: u64 = h & mask;
    assert(low <= mask && (mask == 0xFFFF_FFFFu64 ==> low == h % 0x1_0000_0000) && (mask
        == 0xFFFF_FFFF_FFFF_FFFFu64 ==> low == h)) by (bit_vector)
        requires
            low == h & mask,
    ;
    assert(mask == 0xFFFF_FFFF || mask == 0xFFFF_FFFF_FFFF_FFFF);
    low as usize
}

/// Equal byte sequences have equal digests, whatever slices hold them.
pub proof fn lemma_digest_deterministic(a: Seq<u8>, b: Seq<u8>)
    requires
        a =~= b,
    ensures
        digest(a) == digest(b),
        narrow(digest(a)) == narrow(digest(b)),
{
}

/// Every round ends below the modulus, and so does the digest of every
/// sequence but the empty one.
pub proof fn lemma_digest_reduced(bytes: Seq<u8>)
    requires
        bytes.len() > 0,
    ensures
        digest(bytes) < MOD,
        forall|h: u64, b: u8| #[trigger] mix(h, b) < MOD,
{
}

/// The digest of the empty sequence is the offset basis, which the modulus
/// leaves as it is.
pub proof fn lemma_digest_empty()
    ensures
        digest(Seq::<u8>::empty()) == FNV_OFFSET_BASIS,
        digest(Seq::<u8>::empty()) == FNV_OFFSET_BASIS % MOD,
{
}

} // verus!
