//! Powers of two and the default recoverability policy.
use vstd::arithmetic::power::pow;
use vstd::arithmetic::power2::{
    is_pow2, is_pow2_equiv, is_pow2_exists, lemma2_to64, lemma2_to64_rest,
    lemma_pow2_strictly_increases, lemma_pow2_unfold, pow2,
};
use vstd::bits::lemma_usize_shl_is_mul;
use vstd::prelude::*;

verus! {

/// Floor of the binary logarithm, with `0` for `0`.
pub open spec fn spec_log2(x: nat) -> nat
    decreases x,
{
    if x <= 1 {
        0
    } else {
        1 + spec_log2(x / 2)
    }
}

/// `spec_log2(x)` is the exponent of the largest power of two that is at most `x`.
pub proof fn lemma_log2_bounds(x: nat)
    requires
        x >= 1,
    ensures
        pow2(spec_log2(x)) <= x < 2 * pow2(spec_log2(x)),
    decreases x,
{
    if x == 1 {
        lemma2_to64();
    } else {
        lemma_log2_bounds(x / 2);
        lemma_pow2_unfold(spec_log2(x));
    }
}

/// A number below `2^e` has a binary logarithm below `e`.
pub proof fn lemma_log2_lt(x: nat, e: nat)
    requires
        x < pow2(e),
    ensures
        e > 0 ==> spec_log2(x) < e,
        e == 0 ==> spec_log2(x) == 0,
{
    if x >= 1 {
        lemma_log2_bounds(x);
        if spec_log2(x) > e {
            lemma_pow2_strictly_increases(e, spec_log2(x));
        }
    }
    lemma2_to64();
}

/// The recursive halving test and the bit trick agree on 64-bit words.
proof fn lemma_pow2_bit_trick(x: u64)
    requires
        x > 0,
    ensures
        is_pow2(x as int) <==> x & ((x - 1) as u64) == 0,
    decreases x,
{
    reveal(is_pow2);
    if x == 1 {
        assert(1u64 & ((1u64 - 1) as u64) == 0) by (bit_vector);
    } else {
        let h = x / 2;
        assert(h > 0 && h < x && (x % 2 == 0 ==> (x & ((x - 1) as u64) == 0 <==> h & ((h
            - 1) as u64) == 0)) && (x % 2 != 0 ==> x & ((x - 1) as u64) != 0)) by (bit_vector)
            requires
                x > 1,
                h == x / 2,
        ;
        lemma_pow2_bit_trick(h);
    }
}

/// Number of halvings that bring `x` down to one.
pub fn log2(x: usize) -> (o: usize)
    ensures
        o == spec_log2(x as nat),
        o < usize::BITS,
{
    let mut x: usize = x;
    let mut o: usize = 0;
    let ghost x0 = x;
    proof {
        lemma2_to64();
        lemma2_to64_rest();
        lemma_log2_lt(x as nat, usize::BITS as nat);
    }
    while x > 1
        invariant
            spec_log2(x0 as nat) == o + spec_log2(x as nat),
            o + spec_log2(x as nat) < usize::BITS,
        decreases x,
    {
        assert(x >> 1 == x / 2) by (bit_vector);
        x >>= 1;
        o += 1;
    }
    o
}

/// Every `2^e` passes the recursive halving test.
pub proof fn lemma_pow2_is_pow2(e: nat)
    ensures
        is_pow2(pow2(e) as int),
{
    assert(pow(2, e) == pow2(e) as int) by {
        vstd::arithmetic::power2::lemma_pow2_pos(e);
        vstd::arithmetic::power2::lemma_pow2(e);
    }
    assert(is_pow2_exists(pow2(e) as int));
    is_pow2_equiv(pow2(e) as int);
}

/// A power of two is two to the power of its binary logarithm.
pub proof fn lemma_pow2_of_log2(x: nat)
    requires
        is_pow2(x as int),
    ensures
        pow2(spec_log2(x)) == x,
    decreases x,
{
    reveal(is_pow2);
    if x == 1 {
        lemma2_to64();
    } else {
        lemma_pow2_of_log2(x / 2);
        lemma_pow2_unfold(spec_log2(x));
    }
}

/// The largest power of two that is at most `k`, and `1` for `0`.
pub open spec fn spec_next_lower_power_of_2(k: nat) -> nat {
    pow2(spec_log2(k))
}

/// The smallest power of two that is at least `k`, and `2` for `0`.
pub open spec fn spec_next_higher_power_of_2(k: nat) -> nat {
    if is_pow2(k as int) {
        k
    } else {
        2 * pow2(spec_log2(k))
    }
}

/// What pins `spec_next_lower_power_of_2` down: a power of two in `(k/2, k]`.
pub proof fn lemma_next_lower_power_of_2(k: nat)
    ensures
        is_pow2(spec_next_lower_power_of_2(k) as int),
        k >= 1 ==> spec_next_lower_power_of_2(k) <= k < 2 * spec_next_lower_power_of_2(k),
        k == 0 ==> spec_next_lower_power_of_2(k) == 1,
        is_pow2(k as int) ==> spec_next_lower_power_of_2(k) == k,
{
    lemma_pow2_is_pow2(spec_log2(k));
    lemma2_to64();
    if k >= 1 {
        lemma_log2_bounds(k);
    }
    if is_pow2(k as int) {
        lemma_pow2_of_log2(k);
    }
}

/// What pins `spec_next_higher_power_of_2` down: a power of two in `[k, 2k)`.
pub proof fn lemma_next_higher_power_of_2(k: nat)
    ensures
        is_pow2(spec_next_higher_power_of_2(k) as int),
        k >= 1 ==> k <= spec_next_higher_power_of_2(k) < 2 * k,
        k == 0 ==> spec_next_higher_power_of_2(k) == 2,
{
    lemma2_to64();
    if is_pow2(k as int) {
        reveal(is_pow2);
    } else {
        lemma_pow2_is_pow2(spec_log2(k) + 1);
        lemma_pow2_unfold(spec_log2(k) + 1);
        if k >= 1 {
            lemma_log2_bounds(k);
            if pow2(spec_log2(k)) == k {
                lemma_pow2_is_pow2(spec_log2(k));
            }
        } else {
            reveal(is_pow2);
        }
    }
}

/// Whether `x` is a power of two; `0` is none.
pub fn is_power_of_2(x: usize) -> (b: bool)
    ensures
        b == is_pow2(x as int),
{
    if x == 0 {
        proof {
            reveal(is_pow2);
        }
        return false;
    }
    let y: u64 = x as u64;
    proof {
        lemma_pow2_bit_trick(y);
    }
    y & (y - 1) == 0
}

/// Whether `x` is a power of two; `0` is none.
pub fn is_nonzero_power_of_2(x: usize) -> (b: bool)
    ensures
        b == is_pow2(x as int),
{
    is_power_of_2(x)
}

/// `2^e` as a machine word.
pub(crate) fn shl_one(e: usize) -> (r: usize)
    requires
        pow2(e as nat) <= usize::MAX,
    ensures
        r == pow2(e as nat),
{
    proof {
        lemma2_to64();
        lemma2_to64_rest();
        if e >= usize::BITS {
            lemma_pow2_strictly_increases(32, e as nat);
            if e > 64 {
                lemma_pow2_strictly_increases(64, e as nat);
            }
        }
        lemma_usize_shl_is_mul(1usize, e);
    }
    1usize << e
}

/// Rounds `k` up to a power of two. Powers of two are kept; `0` gives `2`.
pub fn next_higher_power_of_2(k: usize) -> (r: usize)
    requires
        spec_next_higher_power_of_2(k as nat) <= usize::MAX,
    ensures
        r == spec_next_higher_power_of_2(k as nat),
        is_pow2(r as int),
        k >= 1 ==> k <= r < 2 * k,
{
    proof {
        lemma_next_higher_power_of_2(k as nat);
    }
    if !is_power_of_2(k) {
        let l = log2(k);
        proof {
            lemma_pow2_unfold(l as nat + 1);
        }
        shl_one(l + 1)
    } else {
        k
    }
}

/// Rounds `k` down to a power of two. Powers of two are kept; `0` gives `1`.
pub fn next_lower_power_of_2(k: usize) -> (r: usize)
    ensures
        r == spec_next_lower_power_of_2(k as nat),
        is_pow2(r as int),
        k >= 1 ==> r <= k < 2 * r,
{
    proof {
        lemma_next_lower_power_of_2(k as nat);
        lemma2_to64();
        if k >= 1 {
            lemma_log2_bounds(k as nat);
        }
    }
    if !is_power_of_2(k) {
        shl_one(log2(k))
    } else {
        k
    }
}

/// A third of `n`, rounded up.
pub open spec fn spec_recoverability_subset_size(n: nat) -> nat {
    (n + 2) / 3
}

/// The least number of shards that the default policy asks for in order to
/// recover a payload spread over `n_wanted_shards` shards: a third of them,
/// rounded up.
pub fn recoverability_subset_size(n_wanted_shards: usize) -> (r: usize)
    ensures
        r == spec_recoverability_subset_size(n_wanted_shards as nat),
{
    n_wanted_shards / 3 + if n_wanted_shards % 3 == 0 {
        0
    } else {
        1
    }
}

} // verus!
