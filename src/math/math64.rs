use vstd::arithmetic::power2::{lemma_pow2_pos, pow2};
use vstd::bits::{
    lemma_u64_low_bits_mask_is_mod, lemma_u64_pow2_no_overflow, lemma_u64_shl_is_mul,
    lemma_u64_shr_is_div, low_bits_mask,
};
use vstd::prelude::*;

use crate::bits::{is_smallest_pow2_at_least, lemma_smear_is_pow2};

verus! {

/// Multiplier of the de Bruijn sequence that indexes the position table.
pub const DEBRUIJN_MUL64: u64 = 0x022f_dd63_cc95_386d;

/// Round up to the smallest power of two that is not below `v`.
pub fn round_up_2(v: u64) -> (r: u64)
    requires
        0 < v <= 0x8000000000000000,
    ensures
        is_smallest_pow2_at_least(r as nat, v as nat),
{
    let mut w: u64 = v - 1;
    w = w | (w >> 1);
    w = w | (w >> 2);
    w = w | (w >> 4);
    w = w | (w >> 8);
    w = w | (w >> 16);
    w = w | (w >> 32);
    proof {
        let x = (v - 1) as u64;
        let s1 = x | (x >> 1);
        let s2 = s1 | (s1 >> 2);
        let s3 = s2 | (s2 >> 4);
        let s4 = s3 | (s3 >> 8);
        let s5 = s4 | (s4 >> 16);
        let s6 = s5 | (s5 >> 32);
        assert(s6 < 0x8000000000000000 && s6 & ((s6 + 1) as u64) == 0 && s6 >= x && (x == 0 ==> s6 == 0)
            && (x == 0 || (s6 >> 1) < x)) by (bit_vector)
            requires
                x < 0x8000000000000000,
                s1 == x | (x >> 1),
                s2 == s1 | (s1 >> 2),
                s3 == s2 | (s2 >> 4),
                s4 == s3 | (s3 >> 8),
                s5 == s4 | (s4 >> 16),
                s6 == s5 | (s5 >> 32),
        ;
        lemma_smear_is_pow2(w as u64, (v - 1) as u64);
    }
    w + 1
}

/// The lowest set bit of a nonzero word selects, through the de Bruijn multiplier, the slot
/// of the position table that holds its position.
proof fn lemma_debruijn(v: u64, neg: u64, low: u64, prod: u64, idx: u64)
    requires
        v != 0,
        neg == !v + 1,
        low == v & neg,
        prod == (low * DEBRUIJN_MUL64) % 0x1_0000_0000_0000_0000,
        idx == prod >> 58,
    ensures
        ({
            ||| (low == 1u64 << 0u64 && idx == 0u64)
            ||| (low == 1u64 << 1u64 && idx == 1u64)
            ||| (low == 1u64 << 2u64 && idx == 2u64)
            ||| (low == 1u64 << 3u64 && idx == 4u64)
            ||| (low == 1u64 << 4u64 && idx == 8u64)
            ||| (low == 1u64 << 5u64 && idx == 17u64)
            ||| (low == 1u64 << 6u64 && idx == 34u64)
            ||| (low == 1u64 << 7u64 && idx == 5u64)
            ||| (low == 1u64 << 8u64 && idx == 11u64)
            ||| (low == 1u64 << 9u64 && idx == 23u64)
            ||| (low == 1u64 << 10u64 && idx == 47u64)
            ||| (low == 1u64 << 11u64 && idx == 31u64)
            ||| (low == 1u64 << 12u64 && idx == 63u64)
            ||| (low == 1u64 << 13u64 && idx == 62u64)
            ||| (low == 1u64 << 14u64 && idx == 61u64)
            ||| (low == 1u64 << 15u64 && idx == 59u64)
            ||| (low == 1u64 << 16u64 && idx == 55u64)
            ||| (low == 1u64 << 17u64 && idx == 46u64)
            ||| (low == 1u64 << 18u64 && idx == 29u64)
            ||| (low == 1u64 << 19u64 && idx == 58u64)
            ||| (low == 1u64 << 20u64 && idx == 53u64)
            ||| (low == 1u64 << 21u64 && idx == 43u64)
            ||| (low == 1u64 << 22u64 && idx == 22u64)
            ||| (low == 1u64 << 23u64 && idx == 44u64)
            ||| (low == 1u64 << 24u64 && idx == 24u64)
            ||| (low == 1u64 << 25u64 && idx == 49u64)
            ||| (low == 1u64 << 26u64 && idx == 35u64)
            ||| (low == 1u64 << 27u64 && idx == 7u64)
            ||| (low == 1u64 << 28u64 && idx == 15u64)
            ||| (low == 1u64 << 29u64 && idx == 30u64)
            ||| (low == 1u64 << 30u64 && idx == 60u64)
            ||| (low == 1u64 << 31u64 && idx == 57u64)
            ||| (low == 1u64 << 32u64 && idx == 51u64)
            ||| (low == 1u64 << 33u64 && idx == 38u64)
            ||| (low == 1u64 << 34u64 && idx == 12u64)
            ||| (low == 1u64 << 35u64 && idx == 25u64)
            ||| (low == 1u64 << 36u64 && idx == 50u64)
            ||| (low == 1u64 << 37u64 && idx == 36u64)
            ||| (low == 1u64 << 38u64 && idx == 9u64)
            ||| (low == 1u64 << 39u64 && idx == 18u64)
            ||| (low == 1u64 << 40u64 && idx == 37u64)
            ||| (low == 1u64 << 41u64 && idx == 10u64)
            ||| (low == 1u64 << 42u64 && idx == 21u64)
            ||| (low == 1u64 << 43u64 && idx == 42u64)
            ||| (low == 1u64 << 44u64 && idx == 20u64)
            ||| (low == 1u64 << 45u64 && idx == 41u64)
            ||| (low == 1u64 << 46u64 && idx == 19u64)
            ||| (low == 1u64 << 47u64 && idx == 39u64)
            ||| (low == 1u64 << 48u64 && idx == 14u64)
            ||| (low == 1u64 << 49u64 && idx == 28u64)
            ||| (low == 1u64 << 50u64 && idx == 56u64)
            ||| (low == 1u64 << 51u64 && idx == 48u64)
            ||| (low == 1u64 << 52u64 && idx == 33u64)
            ||| (low == 1u64 << 53u64 && idx == 3u64)
            ||| (low == 1u64 << 54u64 && idx == 6u64)
            ||| (low == 1u64 << 55u64 && idx == 13u64)
            ||| (low == 1u64 << 56u64 && idx == 27u64)
            ||| (low == 1u64 << 57u64 && idx == 54u64)
            ||| (low == 1u64 << 58u64 && idx == 45u64)
            ||| (low == 1u64 << 59u64 && idx == 26u64)
            ||| (low == 1u64 << 60u64 && idx == 52u64)
            ||| (low == 1u64 << 61u64 && idx == 40u64)
            ||| (low == 1u64 << 62u64 && idx == 16u64)
            ||| (low == 1u64 << 63u64 && idx == 32u64)
        }),
{
    assert({
            ||| (low == 1u64 << 0u64 && idx == 0u64)
            ||| (low == 1u64 << 1u64 && idx == 1u64)
            ||| (low == 1u64 << 2u64 && idx == 2u64)
            ||| (low == 1u64 << 3u64 && idx == 4u64)
            ||| (low == 1u64 << 4u64 && idx == 8u64)
            ||| (low == 1u64 << 5u64 && idx == 17u64)
            ||| (low == 1u64 << 6u64 && idx == 34u64)
            ||| (low == 1u64 << 7u64 && idx == 5u64)
            ||| (low == 1u64 << 8u64 && idx == 11u64)
            ||| (low == 1u64 << 9u64 && idx == 23u64)
            ||| (low == 1u64 << 10u64 && idx == 47u64)
            ||| (low == 1u64 << 11u64 && idx == 31u64)
            ||| (low == 1u64 << 12u64 && idx == 63u64)
            ||| (low == 1u64 << 13u64 && idx == 62u64)
            ||| (low == 1u64 << 14u64 && idx == 61u64)
            ||| (low == 1u64 << 15u64 && idx == 59u64)
            ||| (low == 1u64 << 16u64 && idx == 55u64)
            ||| (low == 1u64 << 17u64 && idx == 46u64)
            ||| (low == 1u64 << 18u64 && idx == 29u64)
            ||| (low == 1u64 << 19u64 && idx == 58u64)
            ||| (low == 1u64 << 20u64 && idx == 53u64)
            ||| (low == 1u64 << 21u64 && idx == 43u64)
            ||| (low == 1u64 << 22u64 && idx == 22u64)
            ||| (low == 1u64 << 23u64 && idx == 44u64)
            ||| (low == 1u64 << 24u64 && idx == 24u64)
            ||| (low == 1u64 << 25u64 && idx == 49u64)
            ||| (low == 1u64 << 26u64 && idx == 35u64)
            ||| (low == 1u64 << 27u64 && idx == 7u64)
            ||| (low == 1u64 << 28u64 && idx == 15u64)
            ||| (low == 1u64 << 29u64 && idx == 30u64)
            ||| (low == 1u64 << 30u64 && idx == 60u64)
            ||| (low == 1u64 << 31u64 && idx == 57u64)
            ||| (low == 1u64 << 32u64 && idx == 51u64)
            ||| (low == 1u64 << 33u64 && idx == 38u64)
            ||| (low == 1u64 << 34u64 && idx == 12u64)
            ||| (low == 1u64 << 35u64 && idx == 25u64)
            ||| (low == 1u64 << 36u64 && idx == 50u64)
            ||| (low == 1u64 << 37u64 && idx == 36u64)
            ||| (low == 1u64 << 38u64 && idx == 9u64)
            ||| (low == 1u64 << 39u64 && idx == 18u64)
            ||| (low == 1u64 << 40u64 && idx == 37u64)
            ||| (low == 1u64 << 41u64 && idx == 10u64)
            ||| (low == 1u64 << 42u64 && idx == 21u64)
            ||| (low == 1u64 << 43u64 && idx == 42u64)
            ||| (low == 1u64 << 44u64 && idx == 20u64)
            ||| (low == 1u64 << 45u64 && idx == 41u64)
            ||| (low == 1u64 << 46u64 && idx == 19u64)
            ||| (low == 1u64 << 47u64 && idx == 39u64)
            ||| (low == 1u64 << 48u64 && idx == 14u64)
            ||| (low == 1u64 << 49u64 && idx == 28u64)
            ||| (low == 1u64 << 50u64 && idx == 56u64)
            ||| (low == 1u64 << 51u64 && idx == 48u64)
            ||| (low == 1u64 << 52u64 && idx == 33u64)
            ||| (low == 1u64 << 53u64 && idx == 3u64)
            ||| (low == 1u64 << 54u64 && idx == 6u64)
            ||| (low == 1u64 << 55u64 && idx == 13u64)
            ||| (low == 1u64 << 56u64 && idx == 27u64)
            ||| (low == 1u64 << 57u64 && idx == 54u64)
            ||| (low == 1u64 << 58u64 && idx == 45u64)
            ||| (low == 1u64 << 59u64 && idx == 26u64)
            ||| (low == 1u64 << 60u64 && idx == 52u64)
            ||| (low == 1u64 << 61u64 && idx == 40u64)
            ||| (low == 1u64 << 62u64 && idx == 16u64)
            ||| (low == 1u64 << 63u64 && idx == 32u64)
    }) by (bit_vector)
        requires
            v != 0,
            neg == !v + 1,
            low == v & neg,
            prod == (low * 0x022f_dd63_cc95_386d) % 0x1_0000_0000_0000_0000,
            idx == prod >> 58,
    ;
}

/// Where the lowest set bit of `v` is `1 << k`, `v` is an odd multiple of `2^k`.
proof fn lemma_lowest_bit(v: u64, low: u64, k: u64)
    requires
        v != 0,
        k < 64,
        low == v & (!v + 1) as u64,
        low == 1u64 << k,
    ensures
        v as nat % pow2(k as nat) == 0,
        (v as nat / pow2(k as nat)) % 2 == 1,
{
    assert(v & ((low - 1) as u64) == 0 && (v >> k) & 1 == 1) by (bit_vector)
        requires
            v != 0,
            k < 64,
            low == v & (!v + 1) as u64,
            low == 1u64 << k,
    ;
    lemma_u64_pow2_no_overflow(k as nat);
    lemma_pow2_pos(k as nat);
    lemma_u64_shl_is_mul(1, k);
    assert((low - 1) as u64 == low_bits_mask(k as nat) as u64) by {
        assert(low_bits_mask(k as nat) == pow2(k as nat) - 1);
    }
    lemma_u64_low_bits_mask_is_mod(v, k as nat);
    lemma_u64_shr_is_div(v, k);
    let q = v >> k;
    assert(q & 1 == q % 2) by (bit_vector);
}

/// Count the consecutive zero bits on the right, with a multiply and a table lookup.
pub fn trailing_zero_right(v: u64) -> (r: u64)
    requires
        v != 0,
    ensures
        r < 64,
        v as nat % pow2(r as nat) == 0,
        (v as nat / pow2(r as nat)) % 2 == 1,
{
    assert(!v < u64::MAX) by (bit_vector)
        requires
            v != 0,
    ;
    let neg = !v + 1;
    let low = v & neg;
    let prod = low.wrapping_mul(DEBRUIJN_MUL64);
    let idx = prod >> 58;
    proof {
        lemma_debruijn(v, neg, low, prod, idx);
    }
    let positions: [u64; 64] = [
        0, 1, 2, 53, 3, 7, 54, 27, 4, 38, 41, 8, 34, 55, 48, 28, 62, 5, 39, 46, 44, 42, 22, 9, 24,
        35, 59, 56, 49, 18, 29, 11, 63, 52, 6, 26, 37, 40, 33, 47, 61, 45, 43, 21, 23, 58, 17, 10,
        51, 25, 36, 32, 60, 20, 57, 16, 50, 31, 19, 15, 30, 14, 13, 12,
    ];
    let r = positions[idx as usize];
    proof {
        lemma_lowest_bit(v, low, r);
    }
    r
}

} // verus!
