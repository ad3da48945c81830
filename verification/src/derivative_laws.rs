//! What the formal derivative is: the derivative of a polynomial in the
//! novel basis, where the derivative of every subspace polynomial is one.
use crate::derivative::{
    spec_bit_is_clear, spec_carried, spec_formal_derivative, spec_get_or_zero, spec_next_multiple,
    spec_takes_up, spec_tweaked_formal_derivative, spec_twist, spec_wrapped,
};
use crate::evaluation::{lemma_eval_in_field, lemma_eval_is_linear, spec_all_in_field, spec_eval};
use crate::field::{spec_xor, Additive, Field, Logarithm};
use crate::field_laws::{
    lemma_log_exp, lemma_mul_is_times_power, lemma_product, lemma_product_associates,
    lemma_product_commutes, lemma_product_distributes, lemma_product_unit, lemma_xor_sums,
    spec_product,
};
use crate::subspace::{lemma_subspace_in_field, spec_subspace};
use crate::tables::{
    lemma_field_size, lemma_skew_basis_len, lemma_xor_in_field, spec_b_basis, spec_b_entry,
    spec_b_table, spec_field_is_valid, spec_skew_basis,
};
use crate::util::{lemma_log2_bounds, spec_log2};
use vstd::arithmetic::div_mod::{
    lemma_fundamental_div_mod, lemma_fundamental_div_mod_converse, lemma_small_mod,
};
use vstd::arithmetic::power2::{
    lemma2_to64, lemma_pow2_pos, lemma_pow2_strictly_increases, lemma_pow2_unfold, pow2,
};
use vstd::prelude::*;

verus! {

/// The value at `x` of the derivative of the polynomial whose `2^mu`
/// coefficients in the novel basis stand in `c` from place `off` on. By the
/// product rule, the derivative of the lower half plus a subspace
/// polynomial times the upper half is the derivative of the lower half,
/// plus the subspace polynomial times the derivative of the upper half,
/// plus the upper half, as the derivative of the subspace polynomial is one.
pub open spec fn spec_eval_derivative(f: Field, mu: nat, c: Seq<Additive>, off: int, x: u16) -> u16
    decreases mu,
{
    if mu == 0 {
        0
    } else {
        let h = (mu - 1) as nat;
        (spec_eval_derivative(f, h, c, off, x) ^ spec_product(
            f,
            spec_subspace(f, h, x),
            spec_eval_derivative(f, h, c, off + pow2(h), x),
        )) ^ spec_eval(f, h, c, off + pow2(h), x)
    }
}

/// The values of the derivative of a polynomial with coefficients in the
/// field lie in the field.
pub proof fn lemma_eval_derivative_in_field(
    f: Field,
    mu: nat,
    c: Seq<Additive>,
    off: int,
    x: u16,
)
    requires
        spec_field_is_valid(f),
        spec_all_in_field(f, c),
        0 <= off,
        off + pow2(mu) <= c.len(),
        x < f.spec_size(),
    ensures
        spec_eval_derivative(f, mu, c, off, x) < f.spec_size(),
    decreases mu,
{
    lemma_pow2_pos(mu);
    lemma_field_size(f);
    if mu > 0 {
        let h = (mu - 1) as nat;
        lemma_pow2_unfold(mu);
        lemma_pow2_pos(h);
        lemma_eval_derivative_in_field(f, h, c, off, x);
        lemma_eval_derivative_in_field(f, h, c, off + pow2(h), x);
        lemma_eval_in_field(f, h, c, off + pow2(h), x);
        lemma_subspace_in_field(f, h, x);
        let s = spec_subspace(f, h, x);
        let lo = spec_eval_derivative(f, h, c, off, x);
        let hi = spec_eval_derivative(f, h, c, off + pow2(h), x);
        lemma_product(f, s, hi);
        lemma_xor_in_field(f, lo, spec_product(f, s, hi));
        lemma_xor_in_field(f, lo ^ spec_product(f, s, hi), spec_eval(f, h, c, off + pow2(h), x));
    }
}

/// Polynomials with the same coefficients have the same values and the same
/// derivative.
pub proof fn lemma_eval_congruent(
    f: Field,
    mu: nat,
    u: Seq<Additive>,
    ou: int,
    w: Seq<Additive>,
    ow: int,
    x: u16,
)
    requires
        0 <= ou,
        ou + pow2(mu) <= u.len(),
        0 <= ow,
        ow + pow2(mu) <= w.len(),
        forall|i: int| ow <= i < ow + pow2(mu) ==> (#[trigger] w[i]).0 == u[i - ow + ou].0,
    ensures
        spec_eval(f, mu, w, ow, x) == spec_eval(f, mu, u, ou, x),
        spec_eval_derivative(f, mu, w, ow, x) == spec_eval_derivative(f, mu, u, ou, x),
    decreases mu,
{
    lemma_pow2_pos(mu);
    if mu == 0 {
        assert(w[ow].0 == u[ow - ow + ou].0);
    } else {
        let h = (mu - 1) as nat;
        let d = pow2(h) as int;
        lemma_pow2_unfold(mu);
        lemma_pow2_pos(h);
        lemma_eval_congruent(f, h, u, ou, w, ow, x);
        assert forall|i: int| ow + d <= i < ow + d + pow2(h) implies (#[trigger] w[i]).0 == u[i - (
        ow + d) + (ou + d)].0 by {
            assert(w[i].0 == u[i - ow + ou].0);
        }
        lemma_eval_congruent(f, h, u, ou + d, w, ow + d, x);
    }
}

/// The derivative is linear in the coefficients.
pub proof fn lemma_eval_derivative_is_linear(
    f: Field,
    mu: nat,
    u: Seq<Additive>,
    ou: int,
    v: Seq<Additive>,
    ov: int,
    w: Seq<Additive>,
    ow: int,
    sigma: u16,
    x: u16,
)
    requires
        spec_field_is_valid(f),
        spec_all_in_field(f, u),
        spec_all_in_field(f, v),
        spec_all_in_field(f, w),
        0 <= ou,
        ou + pow2(mu) <= u.len(),
        0 <= ov,
        ov + pow2(mu) <= v.len(),
        0 <= ow,
        ow + pow2(mu) <= w.len(),
        sigma < f.spec_size(),
        x < f.spec_size(),
        forall|i: int|
            ow <= i < ow + pow2(mu) ==> (#[trigger] w[i]).0 == u[i - ow + ou].0 ^ spec_product(
                f,
                sigma,
                v[i - ow + ov].0,
            ),
    ensures
        spec_eval_derivative(f, mu, w, ow, x) == spec_eval_derivative(f, mu, u, ou, x)
            ^ spec_product(f, sigma, spec_eval_derivative(f, mu, v, ov, x)),
    decreases mu,
{
    lemma_pow2_pos(mu);
    lemma_log_exp(f);
    if mu == 0 {
        lemma_xor_sums(0, 0, 0, 0, 0, 0, 0, 0);
    } else {
        let h = (mu - 1) as nat;
        let d = pow2(h) as int;
        lemma_pow2_unfold(mu);
        lemma_pow2_pos(h);
        lemma_eval_derivative_is_linear(f, h, u, ou, v, ov, w, ow, sigma, x);
        assert forall|i: int| ow + d <= i < ow + d + pow2(h) implies (#[trigger] w[i]).0 == u[i - (
        ow + d) + (ou + d)].0 ^ spec_product(f, sigma, v[i - (ow + d) + (ov + d)].0) by {
            assert(w[i].0 == u[i - ow + ou].0 ^ spec_product(f, sigma, v[i - ow + ov].0));
        }
        lemma_eval_derivative_is_linear(f, h, u, ou + d, v, ov + d, w, ow + d, sigma, x);
        lemma_eval_is_linear(f, h, u, ou + d, v, ov + d, w, ow + d, sigma, x);
        let s = spec_subspace(f, h, x);
        lemma_subspace_in_field(f, h, x);
        let u0 = spec_eval_derivative(f, h, u, ou, x);
        let u1 = spec_eval_derivative(f, h, u, ou + d, x);
        let v0 = spec_eval_derivative(f, h, v, ov, x);
        let v1 = spec_eval_derivative(f, h, v, ov + d, x);
        let pu = spec_eval(f, h, u, ou + d, x);
        let pv = spec_eval(f, h, v, ov + d, x);
        lemma_eval_derivative_in_field(f, h, u, ou, x);
        lemma_eval_derivative_in_field(f, h, u, ou + d, x);
        lemma_eval_derivative_in_field(f, h, v, ov, x);
        lemma_eval_derivative_in_field(f, h, v, ov + d, x);
        lemma_eval_in_field(f, h, u, ou + d, x);
        lemma_eval_in_field(f, h, v, ov + d, x);
        let sv1 = spec_product(f, sigma, v1);
        lemma_product(f, sigma, v1);
        lemma_product(f, s, v1);
        lemma_product(f, s, v0);
        lemma_product_distributes(f, s, u1, sv1);
        lemma_product_associates(f, s, sigma, v1);
        lemma_product_commutes(f, s, sigma);
        lemma_product_associates(f, sigma, s, v1);
        let t = v0 ^ spec_product(f, s, v1);
        lemma_xor_in_field(f, v0, spec_product(f, s, v1));
        lemma_product_distributes(f, sigma, v0, spec_product(f, s, v1));
        lemma_product_distributes(f, sigma, t, pv);
        let a = spec_product(f, sigma, v0);
        let b = spec_product(f, s, u1);
        let c2 = spec_product(f, sigma, spec_product(f, s, v1));
        let g = spec_product(f, sigma, pv);
        lemma_xor_sums(u0, a, b, c2, pu, g, 0, 0);
    }
}

/// What the formal derivative has made of the coefficients once the
/// coefficients at the distances below `2^lam` are taken up.
pub open spec fn spec_carried_upto(c: Seq<Additive>, size: nat, lam: nat) -> Seq<Additive> {
    Seq::new(c.len(), |i: int| spec_carried(c, i, size as int, lam))
}

/// Taking up coefficients keeps the coefficients in the field.
pub proof fn lemma_carried_in_field(f: Field, c: Seq<Additive>, size: nat, lam: nat, i: int)
    requires
        spec_all_in_field(f, c),
        0 <= i < c.len(),
    ensures
        spec_carried(c, i, size as int, lam).0 < f.spec_size(),
    decreases lam,
{
    if lam > 0 {
        let b = (lam - 1) as nat;
        lemma_carried_in_field(f, c, size, b, i);
        lemma_field_size(f);
        let t = spec_get_or_zero(c, i + pow2(b));
        assert(t.0 < f.spec_size());
        lemma_xor_in_field(f, spec_carried(c, i, size as int, b).0, t.0);
    }
}

/// What the coefficient at offset `r` of the block of `2^(e + 1)` places
/// that starts at `b` takes up at the distance `2^e`: the coefficient at
/// that distance in the low half of the block, and nothing in the high half.
proof fn lemma_carried_step(c: Seq<Additive>, size: nat, e: nat, b: int, r: int)
    requires
        0 <= b,
        b % (pow2(e + 1) as int) == 0,
        b + pow2(e + 1) <= size <= c.len(),
        0 <= r < pow2(e + 1),
    ensures
        r < pow2(e) ==> spec_carried(c, b + r, size as int, e + 1) == spec_xor(
            spec_carried(c, b + r, size as int, e),
            c[b + r + pow2(e)],
        ),
        r >= pow2(e) ==> spec_carried(c, b + r, size as int, e + 1) == spec_carried(
            c,
            b + r,
            size as int,
            e,
        ),
{
    lemma_pow2_pos(e);
    lemma_pow2_unfold(e + 1);
    let d = pow2(e) as int;
    let span = pow2(e + 1) as int;
    let i = b + r;
    lemma_fundamental_div_mod(b, span);
    let q = b / span;
    assert(b == (2 * q) * d && 0 <= q) by (nonlinear_arith)
        requires
            b == span * q + b % span,
            b % span == 0,
            span == 2 * d,
            b >= 0,
            d > 0,
    ;
    if r < d {
        assert(i == (2 * q) * d + r);
        lemma_fundamental_div_mod_converse(i, d, 2 * q, r);
        assert(spec_next_multiple(i, e) == b + d) by (nonlinear_arith)
            requires
                spec_next_multiple(i, e) == (2 * q + 1) * d,
                b == (2 * q) * d,
        ;
        assert(spec_takes_up(i, e, size as int));
    } else {
        assert(i == (2 * q + 1) * d + (r - d)) by (nonlinear_arith)
            requires
                i == b + r,
                b == (2 * q) * d,
        ;
        lemma_fundamental_div_mod_converse(i, d, 2 * q + 1, r - d);
        assert(!spec_bit_is_clear(i, e));
    }
}

/// Once the coefficients at the distances below `2^lam` are taken up, the
/// polynomial of every block of `2^lam` coefficients is the polynomial
/// of the block before plus its derivative.
pub proof fn lemma_carried_evaluates(
    f: Field,
    c: Seq<Additive>,
    size: nat,
    lam: nat,
    b: int,
    x: u16,
)
    requires
        spec_field_is_valid(f),
        spec_all_in_field(f, c),
        0 <= b,
        b % (pow2(lam) as int) == 0,
        b + pow2(lam) <= size <= c.len(),
        x < f.spec_size(),
    ensures
        spec_eval(f, lam, spec_carried_upto(c, size, lam), b, x) == spec_eval(f, lam, c, b, x)
            ^ spec_eval_derivative(f, lam, c, b, x),
    decreases lam,
{
    lemma_pow2_pos(lam);
    lemma_log_exp(f);
    let w = spec_carried_upto(c, size, lam);
    if lam == 0 {
        lemma2_to64();
        let a = c[b].0;
        lemma_xor_sums(a, 0, 0, 0, 0, 0, 0, 0);
    } else {
        let e = (lam - 1) as nat;
        let d = pow2(e) as int;
        lemma_pow2_unfold(lam);
        lemma_pow2_pos(e);
        let w1 = spec_carried_upto(c, size, e);
        crate::evaluation::lemma_multiple_of_smaller_power(b, e, lam);
        vstd::arithmetic::div_mod::lemma_mod_self_0(d);
        vstd::arithmetic::div_mod::lemma_add_mod_noop(b, d, d);
        lemma_small_mod(0, d as nat);
        lemma_carried_evaluates(f, c, size, e, b, x);
        lemma_carried_evaluates(f, c, size, e, b + d, x);
        assert(spec_all_in_field(f, w)) by {
            assert forall|i: int| 0 <= i < w.len() implies (#[trigger] w[i]).0
                < f.spec_size() by {
                lemma_carried_in_field(f, c, size, lam, i);
            }
        }
        assert(spec_all_in_field(f, w1)) by {
            assert forall|i: int| 0 <= i < w1.len() implies (#[trigger] w1[i]).0
                < f.spec_size() by {
                lemma_carried_in_field(f, c, size, e, i);
            }
        }
        assert forall|i: int| b <= i < b + pow2(e) implies (#[trigger] w[i]).0 == w1[i - b + b].0
            ^ spec_product(f, 1, c[i - b + (b + d)].0) by {
            lemma_carried_step(c, size, e, b, i - b);
            lemma_product_unit(f, c[i + d].0);
        }
        lemma_eval_is_linear(f, e, w1, b, c, b + d, w, b, 1, x);
        assert forall|i: int| b + d <= i < b + d + pow2(e) implies (#[trigger] w[i]).0 == w1[i
            - (b + d) + (b + d)].0 by {
            lemma_carried_step(c, size, e, b, i - b);
        }
        lemma_eval_congruent(f, e, w1, b + d, w, b + d, x);
        let s = spec_subspace(f, e, x);
        lemma_subspace_in_field(f, e, x);
        let lo = spec_eval(f, e, c, b, x);
        let hi = spec_eval(f, e, c, b + d, x);
        let dlo = spec_eval_derivative(f, e, c, b, x);
        let dhi = spec_eval_derivative(f, e, c, b + d, x);
        lemma_eval_in_field(f, e, c, b + d, x);
        lemma_eval_derivative_in_field(f, e, c, b + d, x);
        lemma_product_unit(f, hi);
        lemma_product_distributes(f, s, hi, dhi);
        let a = spec_product(f, s, hi);
        let g = spec_product(f, s, dhi);
        lemma_xor_sums(lo, dlo, hi, a, g, 0, 0, 0);
    }
}

/// The binary logarithm of `2^mu` is `mu`.
pub proof fn lemma_log2_of_pow2(mu: nat)
    ensures
        spec_log2(pow2(mu)) == mu,
    decreases mu,
{
    lemma2_to64();
    if mu > 0 {
        lemma_pow2_unfold(mu);
        lemma_pow2_pos((mu - 1) as nat);
        lemma_log2_of_pow2((mu - 1) as nat);
    }
}

/// The formal derivative of a polynomial with `2^mu` coefficients is the
/// polynomial plus its derivative.
pub proof fn lemma_formal_derivative_evaluates(f: Field, c: Seq<Additive>, mu: nat, x: u16)
    requires
        spec_field_is_valid(f),
        spec_all_in_field(f, c),
        c.len() == pow2(mu),
        x < f.spec_size(),
    ensures
        spec_all_in_field(f, spec_formal_derivative(f, c, pow2(mu))),
        spec_formal_derivative(f, c, pow2(mu)).len() == c.len(),
        spec_eval(f, mu, spec_formal_derivative(f, c, pow2(mu)), 0, x) == spec_eval(
            f,
            mu,
            c,
            0,
            x,
        ) ^ spec_eval_derivative(f, mu, c, 0, x),
{
    let size = pow2(mu);
    lemma_pow2_pos(mu);
    lemma_log2_of_pow2(mu);
    let fd = spec_formal_derivative(f, c, size);
    let w = spec_carried_upto(c, size, mu);
    assert forall|i: int| 0 <= i < size implies (#[trigger] fd[i]) == w[i] by {
        let acc = spec_carried(c, i, size as int, mu + 1);
        assert(spec_wrapped(f, c, acc, i, size) == acc);
        lemma_small_mod(i as nat, size);
        lemma_fundamental_div_mod(i, size as int);
        assert(i / (size as int) == 0) by (nonlinear_arith)
            requires
                i == (size as int) * (i / (size as int)) + i % (size as int),
                i % (size as int) == i,
                size > 0,
        ;
        assert(spec_next_multiple(i, mu) == size) by (nonlinear_arith)
            requires
                spec_next_multiple(i, mu) == (i / (size as int) + 1) * size,
                i / (size as int) == 0,
        ;
        assert(!spec_takes_up(i, mu, size as int));
    }
    assert forall|i: int| 0 <= i < fd.len() implies (#[trigger] fd[i]).0 < f.spec_size() by {
        lemma_carried_in_field(f, c, size, mu, i);
    }
    vstd::arithmetic::div_mod::lemma_small_mod(0, size);
    lemma_carried_evaluates(f, c, size, mu, 0, x);
    assert forall|i: int| 0 <= i < 0 + pow2(mu) implies (#[trigger] fd[i]).0 == w[i - 0 + 0].0 by {
        assert(fd[i] == w[i]);
    }
    lemma_eval_congruent(f, mu, w, 0, fd, 0, x);
}

/// A polynomial whose coefficients are zero is zero, and so is its
/// derivative.
pub proof fn lemma_eval_of_zeros(f: Field, mu: nat, c: Seq<Additive>, off: int, x: u16)
    requires
        0 <= off,
        off + pow2(mu) <= c.len(),
        forall|i: int| off <= i < off + pow2(mu) ==> (#[trigger] c[i]).0 == 0,
    ensures
        spec_eval(f, mu, c, off, x) == 0,
        spec_eval_derivative(f, mu, c, off, x) == 0,
    decreases mu,
{
    lemma_pow2_pos(mu);
    if mu == 0 {
        assert(c[off].0 == 0);
    } else {
        let h = (mu - 1) as nat;
        lemma_pow2_unfold(mu);
        lemma_pow2_pos(h);
        lemma_eval_of_zeros(f, h, c, off, x);
        lemma_eval_of_zeros(f, h, c, off + pow2(h), x);
        lemma_xor_sums(0, 0, 0, 0, 0, 0, 0, 0);
    }
}

/// Zeros behind the first `2^kappa` coefficients of a polynomial with
/// `2^nu` coefficients change no value.
pub proof fn lemma_eval_padded(f: Field, kappa: nat, nu: nat, c: Seq<Additive>, x: u16)
    requires
        kappa <= nu,
        pow2(nu) <= c.len(),
        forall|i: int| pow2(kappa) <= i < pow2(nu) ==> (#[trigger] c[i]).0 == 0,
    ensures
        spec_eval(f, nu, c, 0, x) == spec_eval(f, kappa, c, 0, x),
    decreases nu,
{
    if kappa < nu {
        let h = (nu - 1) as nat;
        lemma_pow2_unfold(nu);
        lemma_pow2_pos(h);
        if kappa < h {
            lemma_pow2_strictly_increases(kappa, h);
        }
        lemma_eval_padded(f, kappa, h, c, x);
        lemma_eval_of_zeros(f, h, c, pow2(h) as int, x);
        lemma_xor_sums(spec_eval(f, h, c, 0, x), 0, 0, 0, 0, 0, 0, 0);
    }
}

/// From a level on, the elements below the level stay as they are.
proof fn lemma_skew_basis_keeps(f: Field, m: nat, i: int)
    requires
        0 <= i < m,
        i < f.spec_bits() - 1,
    ensures
        spec_skew_basis(f, m)[i] == spec_skew_basis(f, (i + 1) as nat)[i],
    decreases m,
{
    if m > i + 1 {
        lemma_skew_basis_keeps(f, (m - 1) as nat, i);
        lemma_skew_basis_len(f, (m - 1) as nat);
    }
}

/// In a working field the logarithms that the twist is combined from are
/// zero.
proof fn lemma_b_basis_is_zero(f: Field, i: nat)
    requires
        spec_field_is_valid(f),
        i < f.spec_bits() - 1,
    ensures
        spec_b_basis(f, i) == 0,
    decreases i,
{
    lemma_field_size(f);
    let top = (f.spec_bits() - 1) as nat;
    let ii = i as int;
    lemma_skew_basis_keeps(f, top, ii);
    assert(spec_skew_basis(f, ii as nat)[ii] != 1 && spec_skew_basis(f, (ii + 1) as nat)[ii]
        == f.spec_onemask());
    if i > 0 {
        lemma_b_basis_is_zero(f, (i - 1) as nat);
        lemma_small_mod(0, f.spec_onemask() as nat);
    }
}

/// In a working field the twist of the formal derivative is trivial: every
/// entry of its table is the logarithm zero.
pub proof fn lemma_b_entry_is_zero(f: Field, j: nat)
    requires
        spec_field_is_valid(f),
        j < f.spec_size() / 2,
    ensures
        spec_b_entry(f, j) == 0,
    decreases j,
{
    lemma_field_size(f);
    if j > 0 {
        let p = spec_log2(j);
        lemma_log2_bounds(j);
        if p >= f.spec_bits() - 1 {
            if p > f.spec_bits() - 1 {
                lemma_pow2_strictly_increases((f.spec_bits() - 1) as nat, p);
            }
            assert(false);
        }
        lemma_b_entry_is_zero(f, (j - pow2(p)) as nat);
        lemma_b_basis_is_zero(f, p);
        lemma_small_mod(0, f.spec_onemask() as nat);
    }
}

/// In a working field the twist leaves elements of the field as they are.
pub proof fn lemma_twist_is_identity(f: Field, x: Seq<Additive>, n: nat, undo: bool)
    requires
        spec_field_is_valid(f),
        spec_all_in_field(f, x),
        x.len() <= f.spec_size(),
    ensures
        spec_twist(f, x, n, undo) == x,
{
    lemma_field_size(f);
    lemma_log_exp(f);
    let tw = spec_twist(f, x, n, undo);
    let mask = f.spec_onemask() as int;
    assert forall|t: int| 0 <= t < x.len() implies tw[t] == x[t] by {
        if t < n + n % 2 {
            lemma_b_entry_is_zero(f, (t / 2) as nat);
            let b = spec_b_table(f)[t / 2];
            assert(b == Logarithm(0));
            let v = x[t].0;
            if undo {
                lemma_mul_is_times_power(f, v, 0);
            } else {
                lemma_mul_is_times_power(f, v, f.spec_onemask());
            }
            if v != 0 {
                let l = crate::field_laws::spec_log(f, v);
                lemma_small_mod(l as nat, mask as nat);
                vstd::arithmetic::div_mod::lemma_mod_add_multiples_vanish(l, mask);
            }
        }
    }
    assert(tw =~= x);
}

/// In a working field the formal derivative between the twists is the
/// formal derivative.
pub proof fn lemma_tweaked_is_plain(f: Field, c: Seq<Additive>, mu: nat)
    requires
        spec_field_is_valid(f),
        spec_all_in_field(f, c),
        c.len() == pow2(mu),
        pow2(mu) <= f.spec_size(),
    ensures
        spec_tweaked_formal_derivative(f, c, pow2(mu)) == spec_formal_derivative(f, c, pow2(mu)),
{
    lemma_twist_is_identity(f, c, pow2(mu), false);
    lemma_formal_derivative_evaluates(f, c, mu, 0);
    lemma_twist_is_identity(f, spec_formal_derivative(f, c, pow2(mu)), pow2(mu), true);
}

} // verus!
