use vstd::arithmetic::power2::{lemma_pow2_pos, pow2};
use vstd::prelude::*;

verus! {

/// `n` is a power of two.
pub open spec fn is_pow2(n: nat) -> bool {
    exists|k: nat| pow2(k) == n
}

/// `r` is the smallest power of two that is not below `v`.
pub open spec fn is_smallest_pow2_at_least(r: nat, v: nat) -> bool {
    &&& is_pow2(r)
    &&& v <= r
    &&& r < 2 * v
}

/// A word whose bits are all ones up to some position is one below a power of two.
pub proof fn lemma_low_mask_is_pow2_minus_one(s: u64)
    requires
        s & ((s + 1) as u64) == 0,
        s < 0x8000_0000_0000_0000,
    ensures
        exists|k: nat| pow2(k) == s + 1,
    decreases s,
{
    if s == 0 {
        assert(pow2(0) == 1) by {
            vstd::arithmetic::power2::lemma2_to64();
        }
    } else {
        let h = s >> 1;
        assert(h & ((h + 1) as u64) == 0 && h < 0x8000_0000_0000_0000 && s == 2 * h + 1) by (bit_vector)
            requires
                s & ((s + 1) as u64) == 0,
                s < 0x8000_0000_0000_0000,
                s != 0,
                h == s >> 1,
        ;
        lemma_low_mask_is_pow2_minus_one(h);
        let k = choose|k: nat| pow2(k) == h + 1;
        assert(pow2(k + 1) == 2 * pow2(k)) by {
            vstd::arithmetic::power2::lemma_pow2_unfold(k + 1);
        }
        assert(pow2(k + 1) == s + 1);
    }
}

/// After smearing `x` rightwards into `s`, `s + 1` is the smallest power of two above `x`.
pub proof fn lemma_smear_is_pow2(s: u64, x: u64)
    requires
        s & ((s + 1) as u64) == 0,
        s < 0x8000_0000_0000_0000,
        s >= x,
        x == 0 ==> s == 0,
        x == 0 || (s >> 1) < x,
    ensures
        is_smallest_pow2_at_least((s + 1) as nat, (x + 1) as nat),
{
    lemma_low_mask_is_pow2_minus_one(s);
    if x != 0 {
        let h = s >> 1;
        assert(s <= 2 * h + 1) by (bit_vector)
            requires
                h == s >> 1,
        ;
    }
}

} // verus!

verus! {

/// The exponent of a power of two.
pub open spec fn log2(n: nat) -> nat {
    choose|k: nat| pow2(k) == n
}

/// Powers of two are told apart by their exponents.
pub proof fn lemma_pow2_injective(a: nat, b: nat)
    requires
        pow2(a) == pow2(b),
    ensures
        a == b,
{
    if a < b {
        vstd::arithmetic::power2::lemma_pow2_strictly_increases(a, b);
    } else if b < a {
        vstd::arithmetic::power2::lemma_pow2_strictly_increases(b, a);
    }
}

/// The exponent of `2^k` is `k`.
pub proof fn lemma_log2_pow2(k: nat)
    ensures
        log2(pow2(k)) == k,
{
    let n = pow2(k);
    assert(exists|j: nat| pow2(j) == n);
    lemma_pow2_injective(log2(n), k);
}

/// The only `r` for which `2^k` is an odd multiple of `2^r` is `k` itself.
pub proof fn lemma_odd_multiple_of_pow2(k: nat, r: nat)
    requires
        pow2(k) % pow2(r) == 0,
        (pow2(k) / pow2(r)) % 2 == 1,
    ensures
        r == k,
{
    lemma_pow2_pos(k);
    lemma_pow2_pos(r);
    if r < k {
        vstd::arithmetic::power2::lemma_pow2_subtracts(r, k);
        let d = (k - r) as nat;
        vstd::arithmetic::power2::lemma_pow2_unfold(d);
        assert(pow2(d) == 2 * pow2((d - 1) as nat));
        assert((2 * pow2((d - 1) as nat)) % 2 == 0) by {
            vstd::arithmetic::div_mod::lemma_mod_multiples_basic(pow2((d - 1) as nat) as int, 2);
        }
    } else if k < r {
        vstd::arithmetic::power2::lemma_pow2_strictly_increases(k, r);
        vstd::arithmetic::div_mod::lemma_small_mod(pow2(k), pow2(r));
    }
}

} // verus!

verus! {

/// A power of two that fits a 64-bit word has an exponent below 64.
pub proof fn lemma_pow2_fits_u64(k: nat)
    requires
        pow2(k) <= u64::MAX,
    ensures
        k < 64,
{
    if k >= 64 {
        vstd::arithmetic::power2::lemma2_to64();
        vstd::arithmetic::power2::lemma2_to64_rest();
        if k > 64 {
            vstd::arithmetic::power2::lemma_pow2_strictly_increases(64, k);
        }
    }
}

} // verus!

verus! {

/// The smallest power of two not below `s` is unique.
pub proof fn lemma_smallest_pow2_unique(r: nat, q: nat, s: nat)
    requires
        is_smallest_pow2_at_least(r, s),
        is_smallest_pow2_at_least(q, s),
    ensures
        r == q,
{
    let i = choose|k: nat| pow2(k) == r;
    let j = choose|k: nat| pow2(k) == q;
    if i < j {
        vstd::arithmetic::power2::lemma_pow2_adds(i + 1, (j - i - 1) as nat);
        vstd::arithmetic::power2::lemma_pow2_unfold(i + 1);
        vstd::arithmetic::power2::lemma_pow2_pos((j - i - 1) as nat);
        assert(pow2(j) >= 2 * pow2(i)) by (nonlinear_arith)
            requires
                pow2(j) == pow2(i + 1) * pow2((j - i - 1) as nat),
                pow2(i + 1) == 2 * pow2(i),
                pow2((j - i - 1) as nat) >= 1,
        ;
    } else if j < i {
        vstd::arithmetic::power2::lemma_pow2_adds(j + 1, (i - j - 1) as nat);
        vstd::arithmetic::power2::lemma_pow2_unfold(j + 1);
        vstd::arithmetic::power2::lemma_pow2_pos((i - j - 1) as nat);
        assert(pow2(i) >= 2 * pow2(j)) by (nonlinear_arith)
            requires
                pow2(i) == pow2(j + 1) * pow2((i - j - 1) as nat),
                pow2(j + 1) == 2 * pow2(j),
                pow2((i - j - 1) as nat) >= 1,
        ;
    }
}

/// A number is its own smallest power of two at least itself exactly when it is a power of two.
pub proof fn lemma_round_up_fixed(r: nat, x: nat)
    requires
        x >= 1,
        is_smallest_pow2_at_least(r, x),
    ensures
        (r == x) == is_pow2(x),
{
    if is_pow2(x) {
        lemma_smallest_pow2_unique(r, x, x);
    }
}

/// A power of two that fits a 64-bit word is at most `2^63`.
pub proof fn lemma_pow2_at_most_half_u64(n: nat)
    requires
        is_pow2(n),
        n <= u64::MAX,
    ensures
        n <= 0x8000_0000_0000_0000,
{
    let k = choose|k: nat| pow2(k) == n;
    lemma_pow2_fits_u64(k);
    vstd::arithmetic::power2::lemma2_to64();
    vstd::arithmetic::power2::lemma2_to64_rest();
    if k < 63 {
        vstd::arithmetic::power2::lemma_pow2_strictly_increases(k, 63);
    }
}

/// Exponents follow the order of their powers.
pub proof fn lemma_log2_monotone(a: nat, b: nat)
    requires
        is_pow2(a),
        is_pow2(b),
        a <= b,
    ensures
        log2(a) <= log2(b),
        a < b ==> log2(a) < log2(b),
{
    let i = choose|k: nat| pow2(k) == a;
    let j = choose|k: nat| pow2(k) == b;
    lemma_log2_pow2(i);
    lemma_log2_pow2(j);
    if i > j {
        vstd::arithmetic::power2::lemma_pow2_strictly_increases(j, i);
    }
    if a < b && i == j {
    }
}

} // verus!
