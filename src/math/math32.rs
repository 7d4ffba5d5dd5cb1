use vstd::arithmetic::power2::{lemma_pow2_pos, pow2};
use vstd::bits::{
    lemma_u32_low_bits_mask_is_mod, lemma_u32_pow2_no_overflow, lemma_u32_shl_is_mul,
    lemma_u32_shr_is_div, low_bits_mask,
};
use vstd::prelude::*;

use crate::bits::{is_smallest_pow2_at_least, lemma_smear_is_pow2};

verus! {

/// Multiplier of the de Bruijn sequence that indexes the position table.
pub const DEBRUIJN_MUL32: u32 = 0x077c_b531;

/// Round up to the smallest power of two that is not below `v`.
pub fn round_up_2(v: u32) -> (r: u32)
    requires
        0 < v <= 0x80000000,
    ensures
        is_smallest_pow2_at_least(r as nat, v as nat),
{
    let mut w: u32 = v - 1;
    w = w | (w >> 1);
    w = w | (w >> 2);
    w = w | (w >> 4);
    w = w | (w >> 8);
    w = w | (w >> 16);
    proof {
        let x = (v - 1) as u32;
        let s1 = x | (x >> 1);
        let s2 = s1 | (s1 >> 2);
        let s3 = s2 | (s2 >> 4);
        let s4 = s3 | (s3 >> 8);
        let s5 = s4 | (s4 >> 16);
        assert(s5 < 0x80000000 && s5 & ((s5 + 1) as u32) == 0 && s5 >= x && (x == 0 ==> s5 == 0)
            && (x == 0 || (s5 >> 1) < x)) by (bit_vector)
            requires
                x < 0x80000000,
                s1 == x | (x >> 1),
                s2 == s1 | (s1 >> 2),
                s3 == s2 | (s2 >> 4),
                s4 == s3 | (s3 >> 8),
                s5 == s4 | (s4 >> 16),
        ;
        lemma_smear_is_pow2(w as u64, (v - 1) as u64);
    }
    w + 1
}

/// The lowest set bit of a nonzero word selects, through the de Bruijn multiplier, the slot
/// of the position table that holds its position.
proof fn lemma_debruijn(v: u32, neg: u32, low: u32, prod: u32, idx: u32)
    requires
        v != 0,
        neg == !v + 1,
        low == v & neg,
        prod == (low * DEBRUIJN_MUL32) % 0x1_0000_0000,
        idx == prod >> 27,
    ensures
        ({
            ||| (low == 1u32 << 0u32 && idx == 0u32)
            ||| (low == 1u32 << 1u32 && idx == 1u32)
            ||| (low == 1u32 << 2u32 && idx == 3u32)
            ||| (low == 1u32 << 3u32 && idx == 7u32)
            ||| (low == 1u32 << 4u32 && idx == 14u32)
            ||| (low == 1u32 << 5u32 && idx == 29u32)
            ||| (low == 1u32 << 6u32 && idx == 27u32)
            ||| (low == 1u32 << 7u32 && idx == 23u32)
            ||| (low == 1u32 << 8u32 && idx == 15u32)
            ||| (low == 1u32 << 9u32 && idx == 31u32)
            ||| (low == 1u32 << 10u32 && idx == 30u32)
            ||| (low == 1u32 << 11u32 && idx == 28u32)
            ||| (low == 1u32 << 12u32 && idx == 25u32)
            ||| (low == 1u32 << 13u32 && idx == 18u32)
            ||| (low == 1u32 << 14u32 && idx == 5u32)
            ||| (low == 1u32 << 15u32 && idx == 11u32)
            ||| (low == 1u32 << 16u32 && idx == 22u32)
            ||| (low == 1u32 << 17u32 && idx == 13u32)
            ||| (low == 1u32 << 18u32 && idx == 26u32)
            ||| (low == 1u32 << 19u32 && idx == 21u32)
            ||| (low == 1u32 << 20u32 && idx == 10u32)
            ||| (low == 1u32 << 21u32 && idx == 20u32)
            ||| (low == 1u32 << 22u32 && idx == 9u32)
            ||| (low == 1u32 << 23u32 && idx == 19u32)
            ||| (low == 1u32 << 24u32 && idx == 6u32)
            ||| (low == 1u32 << 25u32 && idx == 12u32)
            ||| (low == 1u32 << 26u32 && idx == 24u32)
            ||| (low == 1u32 << 27u32 && idx == 17u32)
            ||| (low == 1u32 << 28u32 && idx == 2u32)
            ||| (low == 1u32 << 29u32 && idx == 4u32)
            ||| (low == 1u32 << 30u32 && idx == 8u32)
            ||| (low == 1u32 << 31u32 && idx == 16u32)
        }),
{
    assert({
            ||| (low == 1u32 << 0u32 && idx == 0u32)
            ||| (low == 1u32 << 1u32 && idx == 1u32)
            ||| (low == 1u32 << 2u32 && idx == 3u32)
            ||| (low == 1u32 << 3u32 && idx == 7u32)
            ||| (low == 1u32 << 4u32 && idx == 14u32)
            ||| (low == 1u32 << 5u32 && idx == 29u32)
            ||| (low == 1u32 << 6u32 && idx == 27u32)
            ||| (low == 1u32 << 7u32 && idx == 23u32)
            ||| (low == 1u32 << 8u32 && idx == 15u32)
            ||| (low == 1u32 << 9u32 && idx == 31u32)
            ||| (low == 1u32 << 10u32 && idx == 30u32)
            ||| (low == 1u32 << 11u32 && idx == 28u32)
            ||| (low == 1u32 << 12u32 && idx == 25u32)
            ||| (low == 1u32 << 13u32 && idx == 18u32)
            ||| (low == 1u32 << 14u32 && idx == 5u32)
            ||| (low == 1u32 << 15u32 && idx == 11u32)
            ||| (low == 1u32 << 16u32 && idx == 22u32)
            ||| (low == 1u32 << 17u32 && idx == 13u32)
            ||| (low == 1u32 << 18u32 && idx == 26u32)
            ||| (low == 1u32 << 19u32 && idx == 21u32)
            ||| (low == 1u32 << 20u32 && idx == 10u32)
            ||| (low == 1u32 << 21u32 && idx == 20u32)
            ||| (low == 1u32 << 22u32 && idx == 9u32)
            ||| (low == 1u32 << 23u32 && idx == 19u32)
            ||| (low == 1u32 << 24u32 && idx == 6u32)
            ||| (low == 1u32 << 25u32 && idx == 12u32)
            ||| (low == 1u32 << 26u32 && idx == 24u32)
            ||| (low == 1u32 << 27u32 && idx == 17u32)
            ||| (low == 1u32 << 28u32 && idx == 2u32)
            ||| (low == 1u32 << 29u32 && idx == 4u32)
            ||| (low == 1u32 << 30u32 && idx == 8u32)
            ||| (low == 1u32 << 31u32 && idx == 16u32)
    }) by (bit_vector)
        requires
            v != 0,
            neg == !v + 1,
            low == v & neg,
            prod == (low * 0x077c_b531) % 0x1_0000_0000,
            idx == prod >> 27,
    ;
}

/// Where the lowest set bit of `v` is `1 << k`, `v` is an odd multiple of `2^k`.
proof fn lemma_lowest_bit(v: u32, low: u32, k: u32)
    requires
        v != 0,
        k < 32,
        low == v & (!v + 1) as u32,
        low == 1u32 << k,
    ensures
        v as nat % pow2(k as nat) == 0,
        (v as nat / pow2(k as nat)) % 2 == 1,
{
    assert(v & ((low - 1) as u32) == 0 && (v >> k) & 1 == 1) by (bit_vector)
        requires
            v != 0,
            k < 32,
            low == v & (!v + 1) as u32,
            low == 1u32 << k,
    ;
    lemma_u32_pow2_no_overflow(k as nat);
    lemma_pow2_pos(k as nat);
    lemma_u32_shl_is_mul(1, k);
    assert((low - 1) as u32 == low_bits_mask(k as nat) as u32) by {
        assert(low_bits_mask(k as nat) == pow2(k as nat) - 1);
    }
    lemma_u32_low_bits_mask_is_mod(v, k as nat);
    lemma_u32_shr_is_div(v, k);
    let q = v >> k;
    assert(q & 1 == q % 2) by (bit_vector);
}

/// Count the consecutive zero bits on the right, with a multiply and a table lookup.
pub fn trailing_zero_right(v: u32) -> (r: u32)
    requires
        v != 0,
    ensures
        r < 32,
        v as nat % pow2(r as nat) == 0,
        (v as nat / pow2(r as nat)) % 2 == 1,
{
    assert(!v < u32::MAX) by (bit_vector)
        requires
            v != 0,
    ;
    let neg = !v + 1;
    let low = v & neg;
    let prod = low.wrapping_mul(DEBRUIJN_MUL32);
    let idx = prod >> 27;
    proof {
        lemma_debruijn(v, neg, low, prod, idx);
    }
    let positions: [u32; 32] = [
        0, 1, 28, 2, 29, 14, 24, 3, 30, 22, 20, 15, 25, 17, 4, 8, 31, 27, 13, 23, 21, 19, 16, 7, 26,
        12, 18, 6, 11, 5, 10, 9,
    ];
    let r = positions[idx as usize];
    proof {
        lemma_lowest_bit(v, low, r);
    }
    r
}

} // verus!
