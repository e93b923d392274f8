//! Shifts and masks with their arithmetic meaning.

use vstd::arithmetic::power2::*;
use vstd::bits::*;
use vstd::prelude::*;

verus! {

/// Two to the power `n`.
#[inline]
pub fn pow2_u32(n: u32) -> (r: u32)
    requires
        n < 32,
    ensures
        r == pow2(n as nat),
{
    proof {
        lemma_u32_pow2_no_overflow(n as nat);
        lemma_u32_shl_is_mul(1, n);
    }
    1u32 << n
}

/// Two to the power `n`.
#[inline]
pub fn pow2_u64(n: u32) -> (r: u64)
    requires
        n < 64,
    ensures
        r == pow2(n as nat),
{
    proof {
        lemma_u64_pow2_no_overflow(n as nat);
        lemma_u64_shl_is_mul(1, n as u64);
    }
    1u64 << (n as u64)
}

/// The mask of the low `n` bits.
#[inline]
pub fn bitmask(n: u32) -> (r: u64)
    requires
        n < 64,
    ensures
        r == pow2(n as nat) - 1,
{
    proof {
        lemma_pow2_pos(n as nat);
    }
    pow2_u64(n) - 1
}

/// The low `count` bits of `word`.
#[inline]
pub fn extract_varbits(word: u64, count: u32) -> (r: u64)
    requires
        count < 64,
    ensures
        r == word as int % (pow2(count as nat) as int),
{
    let mask: u64 = bitmask(count);
    proof {
        lemma_pow2_pos(count as nat);
        lemma_u64_pow2_no_overflow(count as nat);
        lemma_u64_low_bits_mask_is_mod(word, count as nat);
        assert(low_bits_mask(count as nat) == mask);
    }
    word & mask
}

/// `word` without its low `count` bits.
#[inline]
pub fn drop_bits(word: u64, count: u32) -> (r: u64)
    requires
        count < 64,
    ensures
        r == word as int / (pow2(count as nat) as int),
{
    proof {
        lemma_u64_shr_is_div(word, count as u64);
    }
    word >> (count as u64)
}

/// `word` moved up by `count` bits.
#[inline]
pub fn raise_bits(word: u64, count: u32) -> (r: u64)
    requires
        count < 64,
        word * pow2(count as nat) <= u64::MAX,
    ensures
        r == word * pow2(count as nat),
{
    proof {
        lemma_u64_shl_is_mul(word, count as u64);
    }
    word << (count as u64)
}

/// The smaller of two lengths.
#[inline]
pub fn min_usize(a: usize, b: usize) -> (r: usize)
    ensures
        r == if a <= b {
            a
        } else {
            b
        },
{
    if a <= b {
        a
    } else {
        b
    }
}

/// The smaller of two numbers.
#[inline]
pub fn min_u32(a: u32, b: u32) -> (r: u32)
    ensures
        r == if a <= b {
            a
        } else {
            b
        },
{
    if a <= b {
        a
    } else {
        b
    }
}

} // verus!
