//! Index arithmetic of butterfly networks: a vector is cut into blocks of
//! `2 * d` elements, and element `i` of the low half of each block is paired
//! with element `i + d` of its high half.
use crate::params::lemma_smaller_power_is_at_most_half;
use vstd::arithmetic::div_mod::{lemma_fundamental_div_mod, lemma_fundamental_div_mod_converse};
use vstd::arithmetic::power2::is_pow2;
use vstd::prelude::*;

verus! {

/// Whether position `t` lies in the low half of its block of `2 * d`.
pub open spec fn spec_in_low_half(t: int, d: int) -> bool {
    t % (2 * d) < d
}

/// First position of the block of `2 * d` that holds position `t`.
pub open spec fn spec_block_start(t: int, d: int) -> int {
    t - t % (2 * d)
}

/// Position `q * 2d + r` with `r < 2d` lies at offset `r` in block `q`.
pub proof fn lemma_block_position(t: int, d: int, q: int, r: int)
    requires
        d > 0,
        0 <= r < 2 * d,
        t == q * (2 * d) + r,
    ensures
        t % (2 * d) == r,
        spec_block_start(t, d) == q * (2 * d),
        spec_in_low_half(t, d) <==> r < d,
{
    lemma_fundamental_div_mod_converse(t, 2 * d, q, r);
}

/// A vector of `m` blocks has room for block `q < m`, and the block after it
/// starts where it ends.
pub proof fn lemma_block_advance(q: int, m: int, d: int)
    by (nonlinear_arith)
    requires
        d > 0,
        0 <= q < m,
    ensures
        q * (2 * d) + 2 * d <= m * (2 * d),
        (q + 1) * (2 * d) == q * (2 * d) + 2 * d,
        0 <= q * (2 * d),
{
}

/// Only `m` blocks fit below `m * 2d`.
pub proof fn lemma_block_count(q: int, m: int, d: int)
    by (nonlinear_arith)
    requires
        d > 0,
        0 <= q,
        q * (2 * d) < m * (2 * d),
    ensures
        q < m,
{
}

/// A power of two splits into whole blocks of twice any smaller power of two.
pub proof fn lemma_pow2_blocks(d: nat, size: nat) -> (m: nat)
    requires
        is_pow2(d as int),
        is_pow2(size as int),
        d < size,
    ensures
        size == m * (2 * d),
        m >= 1,
        d >= 1,
        2 * d <= size,
        is_pow2((2 * d) as int),
    decreases size,
{
    reveal(is_pow2);
    lemma_smaller_power_is_at_most_half(d, size);
    if 2 * d == size {
        1
    } else {
        assert(is_pow2((2 * d) as int));
        lemma_smaller_power_is_at_most_half(2 * d, size);
        let h = lemma_pow2_blocks(d, size / 2);
        assert(size == (2 * h) * (2 * d)) by (nonlinear_arith)
            requires
                size == 2 * (size / 2),
                size / 2 == h * (2 * d),
        ;
        2 * h
    }
}

/// In a vector of `m` whole blocks, every position of a low half has its
/// partner `d` positions up, every position of a high half has its partner
/// `d` positions down, and partners share their block.
pub proof fn lemma_block_partner(t: int, d: int, m: int)
    requires
        d > 0,
        0 <= t < m * (2 * d),
    ensures
        spec_in_low_half(t, d) ==> t + d < m * (2 * d) && !spec_in_low_half(t + d, d)
            && spec_block_start(t + d, d) == spec_block_start(t, d),
        !spec_in_low_half(t, d) ==> 0 <= t - d && spec_in_low_half(t - d, d) && spec_block_start(
            t - d,
            d,
        ) == spec_block_start(t, d),
{
    let q = t / (2 * d);
    let r = t % (2 * d);
    lemma_fundamental_div_mod(t, 2 * d);
    assert(t == q * (2 * d) + r) by (nonlinear_arith)
        requires
            t == (2 * d) * q + r,
    ;
    assert(0 <= q) by (nonlinear_arith)
        requires
            t == q * (2 * d) + r,
            0 <= t,
            r < 2 * d,
            d > 0,
    ;
    lemma_block_count(q, m, d);
    lemma_block_advance(q, m, d);
    lemma_block_position(t, d, q, r);
    if r < d {
        lemma_block_position(t + d, d, q, r + d);
    } else {
        lemma_block_position(t - d, d, q, r - d);
    }
}

/// A power of two splits into whole blocks of any power of two up to it.
pub proof fn lemma_pow2_blocks_of(k: nat, n: nat) -> (m: nat)
    requires
        is_pow2(k as int),
        is_pow2(n as int),
        k <= n,
    ensures
        n == m * k,
        m >= 1,
    decreases n,
{
    reveal(is_pow2);
    if k == n {
        1
    } else {
        lemma_smaller_power_is_at_most_half(k, n);
        let h = lemma_pow2_blocks_of(k, n / 2);
        assert(n == (2 * h) * k) by (nonlinear_arith)
            requires
                n == 2 * (n / 2),
                n / 2 == h * k,
        ;
        2 * h
    }
}

/// A vector of `m` blocks of `k` has room for block `q < m`.
pub proof fn lemma_whole_block(q: int, m: int, k: int)
    by (nonlinear_arith)
    requires
        k > 0,
        0 <= q,
        q * k < m * k,
    ensures
        q < m,
        q * k + k <= m * k,
        (q + 1) * k == q * k + k,
{
}

/// Position `q * k + r` with `r < k` lies at offset `r` in block `q` of `k`.
pub proof fn lemma_position_in_block(t: int, k: int, q: int, r: int)
    requires
        k > 0,
        0 <= r < k,
        t == q * k + r,
    ensures
        t % k == r,
        t - t % k == q * k,
{
    lemma_fundamental_div_mod_converse(t, k, q, r);
}

/// Byte `e` of symbol `c`, with `w` bytes to a symbol, lies at place
/// `w * c + e`.
pub proof fn lemma_symbol_position(w: int, c: int, e: int)
    requires
        w >= 1,
        0 <= e < w,
    ensures
        (w * c + e) / w == c,
        (w * c + e) % w == e,
        w * (c + 1) == w * c + w,
{
    assert(w * c + e == c * w + e && w * (c + 1) == w * c + w) by (nonlinear_arith);
    lemma_fundamental_div_mod_converse(w * c + e, w, c, e);
}

} // verus!
