//! What the encoder for codes with more payload than parity gives: the
//! parity symbols followed by the payload symbols are the values of a
//! polynomial with as many coefficients as the payload has symbols, so
//! that the decoder recovers whatever is erased of them.
use crate::afft::{
    lemma_afft_involution, lemma_afft_len, lemma_inverse_afft_len, spec_inverse_afft,
    spec_inverse_afft_layer, spec_inverse_afft_upto, spec_skew_at,
};
use crate::blocks::{lemma_block_partner, lemma_block_position, spec_block_start, spec_in_low_half};
use crate::decode::spec_decode_main;
use crate::decode_laws::{
    lemma_decode_recovers, lemma_power_in_field, spec_erased_below, spec_is_left_of_values,
};
use crate::encode::{spec_encode_high, spec_high_sum};
use crate::evaluation::{
    lemma_afft_in_field, lemma_inverse_afft_in_field, lemma_inverse_afft_interpolates,
    lemma_multiple_of_smaller_power, spec_all_in_field, spec_eval,
};
use crate::field::{spec_xor, Additive, Field};
use crate::field_laws::lemma_xor_sums;
use crate::novel_poly_basis::spec_error_poly;
use crate::tables::{lemma_xor_in_field, spec_field_is_valid};
use crate::util::lemma_pow2_is_pow2;
use vstd::arithmetic::div_mod::{
    lemma_fundamental_div_mod, lemma_fundamental_div_mod_converse, lemma_mod_self_0,
    lemma_small_mod,
};
use vstd::arithmetic::power2::{
    lemma2_to64, lemma_pow2_adds, lemma_pow2_pos, lemma_pow2_strictly_increases,
    lemma_pow2_unfold, pow2,
};
use vstd::prelude::*;

verus! {

/// The codeword of a code with more payload than parity: the `n - k` parity
/// symbols of the payload symbols `data`, and the payload symbols behind
/// them.
pub open spec fn spec_codeword_high(f: Field, data: Seq<Additive>, k: nat, n: nat) -> Seq<
    Additive,
> {
    Seq::new(
        n,
        |i: int|
            if i < n - k {
                spec_encode_high(f, data, k, n)[i]
            } else {
                data[i - (n - k)]
            },
    )
}

/// The first layers of the inverse transform work block by block: on every
/// block of `2^tau` places they do what the inverse transform of that
/// size does at the column of the block.
pub proof fn lemma_inverse_afft_of_block(
    f: Field,
    x: Seq<Additive>,
    nu: nat,
    tau: nat,
    lam: nat,
    b: int,
    i: int,
)
    requires
        lam <= tau <= nu,
        pow2(nu) <= x.len(),
        0 <= b,
        b % (pow2(tau) as int) == 0,
        b + pow2(tau) <= pow2(nu),
        0 <= i < pow2(tau),
    ensures
        spec_inverse_afft_upto(f, x, pow2(nu), 0, pow2(lam))[b + i] == spec_inverse_afft_upto(
            f,
            x.subrange(b, b + pow2(tau)),
            pow2(tau),
            b as nat,
            pow2(lam),
        )[i],
    decreases lam,
{
    let n = pow2(nu);
    let t = pow2(tau);
    let sub = x.subrange(b, b + t);
    lemma_pow2_pos(lam);
    if lam == 0 {
        lemma2_to64();
    } else {
        let e = (lam - 1) as nat;
        let d = pow2(e) as int;
        lemma_pow2_unfold(lam);
        lemma_pow2_pos(e);
        let y = spec_inverse_afft_upto(f, x, n, 0, pow2(e));
        let z = spec_inverse_afft_upto(f, sub, t, b as nat, pow2(e));
        lemma_inverse_afft_len(f, x, n, 0, pow2(e));
        lemma_inverse_afft_len(f, sub, t, b as nat, pow2(e));
        assert(spec_inverse_afft_upto(f, x, n, 0, pow2(lam)) == spec_inverse_afft_layer(
            f,
            y,
            n,
            0,
            pow2(e),
        ));
        assert(spec_inverse_afft_upto(f, sub, t, b as nat, pow2(lam)) == spec_inverse_afft_layer(
            f,
            z,
            t,
            b as nat,
            pow2(e),
        ));
        // the block is made of whole blocks of the stride
        lemma_mod_self_0(t as int);
        lemma_multiple_of_smaller_power(t as int, lam, tau);
        lemma_multiple_of_smaller_power(b, lam, tau);
        lemma_fundamental_div_mod(t as int, 2 * d);
        let m = (t as int) / (2 * d);
        assert(t == m * (2 * d)) by (nonlinear_arith)
            requires
                t == (2 * d) * m + (t as int) % (2 * d),
                (t as int) % (2 * d) == 0,
        ;
        lemma_block_partner(i, d, m);
        lemma_fundamental_div_mod(b, 2 * d);
        let qb = b / (2 * d);
        lemma_fundamental_div_mod(i, 2 * d);
        let qi = i / (2 * d);
        let r = i % (2 * d);
        assert(b + i == (qb + qi) * (2 * d) + r && i == qi * (2 * d) + r) by (nonlinear_arith)
            requires
                b == (2 * d) * qb + b % (2 * d),
                b % (2 * d) == 0,
                i == (2 * d) * qi + r,
        ;
        lemma_block_position(b + i, d, qb + qi, r);
        lemma_block_position(i, d, qi, r);
        assert(spec_block_start(b + i, d) == b + spec_block_start(i, d)) by (nonlinear_arith)
            requires
                spec_block_start(b + i, d) == (qb + qi) * (2 * d),
                spec_block_start(i, d) == qi * (2 * d),
                b == (2 * d) * qb + b % (2 * d),
                b % (2 * d) == 0,
        ;
        assert(spec_skew_at(f, b + i, d, 0) == spec_skew_at(f, i, d, b));
        lemma_inverse_afft_of_block(f, x, nu, tau, e, b, i);
        if r < d {
            lemma_inverse_afft_of_block(f, x, nu, tau, e, b, i + d);
        } else {
            lemma_inverse_afft_of_block(f, x, nu, tau, e, b, i - d);
        }
    }
}

/// The sum of the elements at offset `i` of `count` blocks of `t` places of
/// `y`, from the block that starts at `start` on.
pub open spec fn spec_block_sum(y: Seq<Additive>, start: int, count: nat, t: nat, i: int) -> u16
    decreases count,
{
    if count == 0 {
        0
    } else {
        spec_block_sum(y, start, (count - 1) as nat, t, i) ^ y[start + (count - 1) * t + i].0
    }
}

/// The sum over blocks is the sum over the first of them plus the sum
/// over the others.
pub proof fn lemma_block_sum_splits(
    y: Seq<Additive>,
    start: int,
    first: nat,
    others: nat,
    t: nat,
    i: int,
)
    ensures
        spec_block_sum(y, start, first + others, t, i) == spec_block_sum(y, start, first, t, i)
            ^ spec_block_sum(y, start + first * t, others, t, i),
    decreases others,
{
    let a = spec_block_sum(y, start, first, t, i);
    if others == 0 {
        lemma_xor_sums(a, 0, 0, 0, 0, 0, 0, 0);
    } else {
        let rest = (others - 1) as nat;
        lemma_block_sum_splits(y, start, first, rest, t, i);
        assert(start + (first + others - 1) * t + i == start + first * t + (others - 1) * t + i)
            by (nonlinear_arith);
        let b = spec_block_sum(y, start + first * t, rest, t, i);
        let v = y[start + (first + others - 1) * t + i].0;
        lemma_xor_sums(a, b, v, 0, 0, 0, 0, 0);
    }
}

/// The last `2^tau` coefficients that the inverse transform leaves in a
/// block of `2^lam` places are the sums of what its first layers leave in
/// the blocks of `2^tau` places of that block.
pub proof fn lemma_top_block(
    f: Field,
    x: Seq<Additive>,
    nu: nat,
    tau: nat,
    lam: nat,
    b: int,
    i: int,
)
    requires
        tau <= lam <= nu,
        pow2(nu) <= x.len(),
        0 <= b,
        b % (pow2(lam) as int) == 0,
        b + pow2(lam) <= pow2(nu),
        0 <= i < pow2(tau),
    ensures
        pow2(tau) <= pow2(lam),
        spec_inverse_afft_upto(f, x, pow2(nu), 0, pow2(lam))[b + pow2(lam) - pow2(tau) + i].0
            == spec_block_sum(
            spec_inverse_afft_upto(f, x, pow2(nu), 0, pow2(tau)),
            b,
            pow2((lam - tau) as nat),
            pow2(tau),
            i,
        ),
    decreases lam,
{
    let n = pow2(nu);
    let t = pow2(tau);
    let first = spec_inverse_afft_upto(f, x, n, 0, t);
    lemma_pow2_pos(tau);
    lemma_pow2_pos(lam);
    lemma2_to64();
    if lam == tau {
        let v = first[b + i].0;
        lemma_xor_sums(v, 0, 0, 0, 0, 0, 0, 0);
        assert(b + 0 * t + i == b + i);
        assert(spec_block_sum(first, b, 0, t, i) == 0);
        assert(spec_block_sum(first, b, 1, t, i) == 0 ^ v);
    } else {
        let e = (lam - 1) as nat;
        let d = pow2(e) as int;
        lemma_pow2_unfold(lam);
        lemma_pow2_pos(e);
        let y = spec_inverse_afft_upto(f, x, n, 0, pow2(e));
        lemma_inverse_afft_len(f, x, n, 0, pow2(e));
        assert(spec_inverse_afft_upto(f, x, n, 0, pow2(lam)) == spec_inverse_afft_layer(
            f,
            y,
            n,
            0,
            pow2(e),
        ));
        lemma_multiple_of_smaller_power(b, e, lam);
        lemma_mod_self_0(d);
        vstd::arithmetic::div_mod::lemma_add_mod_noop(b, d, d);
        lemma_small_mod(0, d as nat);
        lemma_top_block(f, x, nu, tau, e, b, i);
        lemma_top_block(f, x, nu, tau, e, b + d, i);
        let p = b + 2 * d - t + i;
        lemma_fundamental_div_mod(b, 2 * d);
        let qb = b / (2 * d);
        assert(p == qb * (2 * d) + (2 * d - t + i)) by (nonlinear_arith)
            requires
                b == (2 * d) * qb + b % (2 * d),
                b % (2 * d) == 0,
                p == b + 2 * d - t + i,
        ;
        lemma_block_position(p, d, qb, 2 * d - t + i);
        assert(!spec_in_low_half(p, d));
        let c = pow2((e - tau) as nat);
        lemma_pow2_adds((e - tau) as nat, tau);
        assert(c * t == d);
        lemma_pow2_unfold((lam - tau) as nat);
        lemma_block_sum_splits(first, b, c, c, t, i);
        let lo = spec_block_sum(first, b, c, t, i);
        let hi = spec_block_sum(first, b + d, c, t, i);
        lemma_xor_sums(hi, lo, 0, 0, 0, 0, 0, 0);
        let after = spec_inverse_afft_layer(f, y, n, 0, pow2(e));
        assert(after[p] == spec_xor(y[p], y[p - d]));
        assert(y[p].0 == hi);
        assert(y[p - d].0 == lo);
        assert(pow2((lam - tau) as nat) == c + c);
        assert(b + c * t == b + d);
    }
}

/// What the first layers of the inverse transform leave in the blocks of
/// the codeword: in the block of the parity symbols the sum of the inverse
/// transforms of the blocks of the payload, and in the block of every block
/// of the payload the inverse transform of that block.
proof fn lemma_blocks_of_codeword(
    f: Field,
    data: Seq<Additive>,
    nu: nat,
    tau: nat,
    blocks: nat,
    i: int,
)
    requires
        tau <= nu,
        data.len() == pow2(nu) - pow2(tau),
        (blocks + 1) * pow2(tau) <= pow2(nu),
        0 <= i < pow2(tau),
        blocks == 0 || data.len() / pow2(tau) >= 1,
    ensures
        spec_block_sum(
            spec_inverse_afft_upto(
                f,
                spec_codeword_high(f, data, data.len(), pow2(nu)),
                pow2(nu),
                0,
                pow2(tau),
            ),
            0,
            blocks + 1,
            pow2(tau),
            i,
        ) == spec_high_sum(f, data, pow2(tau), data.len() / pow2(tau))[i].0 ^ spec_high_sum(
            f,
            data,
            pow2(tau),
            blocks,
        )[i].0,
    decreases blocks,
{
    let n = pow2(nu);
    let t = pow2(tau);
    let k = data.len();
    lemma_pow2_pos(tau);
    lemma_pow2_is_pow2(tau);
    let full = spec_codeword_high(f, data, k, n);
    let first = spec_inverse_afft_upto(f, full, n, 0, t);
    let whole = spec_high_sum(f, data, t, k / t);
    assert((blocks + 1) * t == blocks * t + t) by (nonlinear_arith);
    assert(0 <= blocks * t) by (nonlinear_arith);
    if blocks == 0 {
        lemma_small_mod(0, t);
        lemma_inverse_afft_of_block(f, full, nu, tau, tau, 0, i);
        let parity = spec_encode_high(f, data, k, n);
        lemma_afft_len(f, whole, t, 0, t / 2);
        assert(full.subrange(0, t as int) =~= parity);
        lemma_afft_involution(f, whole, t, 0);
        lemma_xor_sums(whole[i].0, 0, 0, 0, 0, 0, 0, 0);
        assert(0 + 0 * t + i == i);
        assert(spec_block_sum(first, 0, 0, t, i) == 0);
        assert(spec_block_sum(first, 0, 1, t, i) == 0 ^ first[i].0);
        assert(first[i] == whole[i]);
        assert(spec_high_sum(f, data, t, 0)[i] == Additive(0));
    } else {
        let before = (blocks - 1) as nat;
        assert((before + 1) * t == blocks * t) by (nonlinear_arith)
            requires
                before + 1 == blocks,
        ;
        lemma_blocks_of_codeword(f, data, nu, tau, before, i);
        let start = (blocks * t) as int;
        vstd::arithmetic::div_mod::lemma_mod_multiples_basic(blocks as int, t as int);
        lemma_inverse_afft_of_block(f, full, nu, tau, tau, start, i);
        let block = data.subrange((blocks - 1) * t, (blocks * t) as int);
        assert(full.subrange(start, start + t) =~= block) by {
            assert((blocks - 1) * t == blocks * t - t) by (nonlinear_arith);
        }
        let term = spec_inverse_afft(f, block, t, blocks * t)[i].0;
        let s = whole[i].0;
        let h = spec_high_sum(f, data, t, before)[i].0;
        assert(0 + (blocks + 1 - 1) * t + i == start + i) by (nonlinear_arith)
            requires
                start == blocks * t,
        ;
        lemma_xor_sums(s, h, term, 0, 0, 0, 0, 0);
        assert(first[start + i].0 == term);
        assert(spec_high_sum(f, data, t, blocks)[i].0 == h ^ term);
        assert(spec_block_sum(first, 0, blocks + 1, t, i) == spec_block_sum(
            first,
            0,
            blocks,
            t,
            i,
        ) ^ first[start + i].0);
    }
}

/// The parity symbols make a codeword: the inverse transform of the parity
/// symbols followed by the payload symbols leaves zeros at the last
/// `n - k` places, so that the codeword holds the values of a polynomial
/// with `k` coefficients.
pub proof fn lemma_encode_high_is_codeword(
    f: Field,
    data: Seq<Additive>,
    nu: nat,
    tau: nat,
    i: int,
)
    requires
        tau < nu,
        data.len() == pow2(nu) - pow2(tau),
        0 <= i < pow2(tau),
    ensures
        spec_inverse_afft(
            f,
            spec_codeword_high(f, data, data.len(), pow2(nu)),
            pow2(nu),
            0,
        )[data.len() + i] == Additive(0),
{
    let n = pow2(nu);
    let t = pow2(tau);
    let k = data.len();
    lemma_pow2_pos(tau);
    lemma_pow2_pos(nu);
    let full = spec_codeword_high(f, data, k, n);
    lemma_small_mod(0, n);
    lemma_top_block(f, full, nu, tau, nu, 0, i);
    let m = pow2((nu - tau) as nat);
    lemma_pow2_adds((nu - tau) as nat, tau);
    lemma_pow2_pos((nu - tau) as nat);
    assert(k == (m - 1) * t) by (nonlinear_arith)
        requires
            m * t == n,
            k == n - t,
    ;
    lemma_fundamental_div_mod_converse(k as int, t as int, m - 1, 0);
    lemma_pow2_strictly_increases(0, (nu - tau) as nat);
    lemma2_to64();
    assert(((m - 1) as nat + 1) * t == n);
    lemma_blocks_of_codeword(f, data, nu, tau, (m - 1) as nat, i);
    let s = spec_high_sum(f, data, t, k / t)[i].0;
    lemma_xor_sums(s, 0, 0, 0, 0, 0, 0, 0);
}

/// The sum of the inverse transforms of the blocks of the payload has its
/// elements in the field.
proof fn lemma_high_sum_in_field(f: Field, data: Seq<Additive>, nu: nat, tau: nat, blocks: nat)
    requires
        spec_field_is_valid(f),
        spec_all_in_field(f, data),
        tau <= nu <= f.spec_bits(),
        (blocks + 1) * pow2(tau) <= pow2(nu),
        blocks * pow2(tau) <= data.len(),
    ensures
        spec_all_in_field(f, spec_high_sum(f, data, pow2(tau), blocks)),
        spec_high_sum(f, data, pow2(tau), blocks).len() == pow2(tau),
    decreases blocks,
{
    let t = pow2(tau);
    lemma_power_in_field(f, nu);
    lemma_pow2_pos(tau);
    if blocks > 0 {
        let before = (blocks - 1) as nat;
        assert((before + 1) * t == blocks * t && (blocks + 1) * t == blocks * t + t && before
            * t == blocks * t - t && before * t >= 0) by (nonlinear_arith)
            requires
                before + 1 == blocks,
        ;
        lemma_high_sum_in_field(f, data, nu, tau, before);
        let sum = spec_high_sum(f, data, t, before);
        let sub = data.subrange((blocks - 1) * t, (blocks * t) as int);
        assert(spec_all_in_field(f, sub)) by {
            assert forall|i: int| 0 <= i < sub.len() implies (#[trigger] sub[i]).0
                < f.spec_size() by {
                assert(sub[i] == data[(blocks - 1) * t + i]);
            }
        }
        lemma_inverse_afft_in_field(f, sub, tau, blocks * t, tau);
        let block = spec_inverse_afft(f, sub, t, blocks * t);
        let next = spec_high_sum(f, data, t, blocks);
        assert forall|i: int| 0 <= i < next.len() implies (#[trigger] next[i]).0
            < f.spec_size() by {
            assert(sum[i].0 < f.spec_size());
            assert(block[i].0 < f.spec_size());
            lemma_xor_in_field(f, sum[i].0, block[i].0);
        }
    }
}

/// The codeword of a code with more payload than parity holds the values
/// of the polynomial whose coefficients its inverse transform gives, and
/// these coefficients are elements of the field that vanish from place `k`
/// on.
pub proof fn lemma_codeword_high_values(f: Field, data: Seq<Additive>, nu: nat, tau: nat)
    requires
        spec_field_is_valid(f),
        spec_all_in_field(f, data),
        tau < nu <= f.spec_bits(),
        data.len() == pow2(nu) - pow2(tau),
    ensures
        ({
            let full = spec_codeword_high(f, data, data.len(), pow2(nu));
            let c = spec_inverse_afft(f, full, pow2(nu), 0);
            &&& spec_all_in_field(f, full)
            &&& spec_all_in_field(f, c)
            &&& c.len() == pow2(nu)
            &&& forall|i: int| data.len() <= i < c.len() ==> (#[trigger] c[i]).0 == 0
            &&& forall|i: int|
                0 <= i < pow2(nu) ==> (#[trigger] full[i]).0 == spec_eval(f, nu, c, 0, i as u16)
        }),
{
    let n = pow2(nu);
    let t = pow2(tau);
    let k = data.len();
    lemma_power_in_field(f, nu);
    lemma_pow2_pos(tau);
    lemma_pow2_strictly_increases(tau, nu);
    let full = spec_codeword_high(f, data, k, n);
    let c = spec_inverse_afft(f, full, n, 0);
    let m = pow2((nu - tau) as nat);
    lemma_pow2_adds((nu - tau) as nat, tau);
    lemma_pow2_pos((nu - tau) as nat);
    assert(k == (m - 1) * t && ((m - 1) as nat + 1) * t == n) by (nonlinear_arith)
        requires
            m * t == n,
            k == n - t,
            m >= 1,
    ;
    lemma_fundamental_div_mod_converse(k as int, t as int, m - 1, 0);
    lemma_high_sum_in_field(f, data, nu, tau, (m - 1) as nat);
    let sum = spec_high_sum(f, data, t, k / t);
    lemma_small_mod(0, t);
    lemma_afft_in_field(f, sum, tau, 0, tau);
    let parity = spec_encode_high(f, data, k, n);
    assert forall|i: int| 0 <= i < full.len() implies (#[trigger] full[i]).0
        < f.spec_size() by {
        if i < t {
            assert(full[i] == parity[i]);
        } else {
            assert(full[i] == data[i - t]);
        }
    }
    lemma_small_mod(0, n);
    lemma_inverse_afft_interpolates(f, full, nu, 0, 0);
    assert forall|i: int| k <= i < c.len() implies (#[trigger] c[i]).0 == 0 by {
        lemma_encode_high_is_codeword(f, data, nu, tau, i - k);
    }
    assert forall|i: int| 0 <= i < n implies (#[trigger] full[i]).0 == spec_eval(
        f,
        nu,
        c,
        0,
        i as u16,
    ) by {
        lemma_inverse_afft_interpolates(f, full, nu, 0, i);
    }
}

/// The decoder recovers whatever is erased of a codeword with more payload
/// than parity, as long as no more symbols are erased than the codeword
/// has parity symbols.
pub proof fn lemma_high_rate_recovers(
    f: Field,
    data: Seq<Additive>,
    erasures: Seq<bool>,
    received: Seq<Additive>,
    nu: nat,
    tau: nat,
    j: int,
)
    requires
        spec_field_is_valid(f),
        spec_all_in_field(f, data),
        tau < nu <= f.spec_bits(),
        data.len() == pow2(nu) - pow2(tau),
        erasures.len() == pow2(nu),
        received.len() == pow2(nu),
        spec_erased_below(erasures, pow2(nu)) <= pow2(tau),
        forall|i: int|
            0 <= i < pow2(nu) && !erasures[i] ==> #[trigger] received[i] == spec_codeword_high(
                f,
                data,
                data.len(),
                pow2(nu),
            )[i],
        0 <= j < pow2(nu),
        erasures[j],
    ensures
        spec_decode_main(
            f,
            received,
            pow2(nu),
            erasures,
            spec_error_poly(f, erasures),
            pow2(nu),
        )[j] == spec_codeword_high(f, data, data.len(), pow2(nu))[j],
{
    let n = pow2(nu);
    let k = data.len();
    let full = spec_codeword_high(f, data, k, n);
    let c = spec_inverse_afft(f, full, n, 0);
    lemma_codeword_high_values(f, data, nu, tau);
    assert forall|i: int| 0 <= i < n && !erasures[i] implies (#[trigger] received[i]).0
        == spec_eval(f, nu, c, 0, i as u16) by {
        assert(received[i] == full[i]);
    }
    assert(spec_is_left_of_values(f, c, erasures, received, nu, k));
    lemma_decode_recovers(f, c, erasures, received, nu, k, n, j);
    assert(full[j].0 == spec_eval(f, nu, c, 0, j as u16));
}

} // verus!
