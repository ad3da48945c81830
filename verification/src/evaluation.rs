//! Polynomials in the novel basis and their values. The basis polynomial
//! with the number `j` is the product of the subspace polynomials of the
//! levels at which `j` has a set bit. The additive FFT takes the
//! coefficients of a polynomial in this basis to its values.
use crate::afft::{
    lemma_afft_involution, spec_afft, spec_afft_from, spec_afft_layer, spec_inverse_afft,
    spec_inverse_afft_layer, spec_inverse_afft_upto, spec_skew_xor,
};
use crate::blocks::lemma_block_position;
use crate::field::{spec_xor, Additive, Field};
use crate::field_laws::{
    lemma_log_exp, lemma_mul_is_times_power, lemma_product, lemma_product_associates,
    lemma_product_commutes, lemma_product_distributes, lemma_product_unit, lemma_times_power,
    lemma_xor_sums, spec_product,
};
use crate::subspace::{
    lemma_add_is_xor, lemma_skew_xor, lemma_subspace_in_field, lemma_subspace_is_additive,
    lemma_subspace_unit, lemma_subspace_vanishes, spec_subspace,
};
use crate::tables::{
    lemma_field_size, lemma_table_entries_in_field, lemma_xor_in_field, spec_field_is_valid,
    spec_skew_table,
};
use crate::util::lemma_pow2_is_pow2;
use vstd::arithmetic::div_mod::{
    lemma_add_mod_noop, lemma_fundamental_div_mod, lemma_mod_mod, lemma_mod_multiples_basic,
    lemma_mod_self_0, lemma_small_mod,
};
use vstd::arithmetic::power2::{
    lemma_pow2_adds, lemma_pow2_pos, lemma_pow2_strictly_increases, lemma_pow2_unfold, pow2,
};
use vstd::prelude::*;

verus! {

/// Whether every element of `c` is an element of the field `f`.
pub open spec fn spec_all_in_field(f: Field, c: Seq<Additive>) -> bool {
    forall|i: int| 0 <= i < c.len() ==> (#[trigger] c[i]).0 < f.spec_size()
}

/// The value at `x` of the polynomial whose `2^mu` coefficients in the novel
/// basis stand in `c` from place `off` on: the polynomial of the lower half
/// of the coefficients, plus the subspace polynomial of level `mu - 1`
/// times the polynomial of the upper half.
pub open spec fn spec_eval(f: Field, mu: nat, c: Seq<Additive>, off: int, x: u16) -> u16
    decreases mu,
{
    if mu == 0 {
        c[off].0
    } else {
        let h = (mu - 1) as nat;
        spec_eval(f, h, c, off, x) ^ spec_product(
            f,
            spec_subspace(f, h, x),
            spec_eval(f, h, c, off + pow2(h), x),
        )
    }
}

/// The values of a polynomial with coefficients in the field lie in the
/// field.
pub proof fn lemma_eval_in_field(f: Field, mu: nat, c: Seq<Additive>, off: int, x: u16)
    requires
        spec_field_is_valid(f),
        spec_all_in_field(f, c),
        0 <= off,
        off + pow2(mu) <= c.len(),
        x < f.spec_size(),
    ensures
        spec_eval(f, mu, c, off, x) < f.spec_size(),
    decreases mu,
{
    lemma_pow2_pos(mu);
    if mu > 0 {
        let h = (mu - 1) as nat;
        lemma_pow2_unfold(mu);
        lemma_pow2_pos(h);
        lemma_eval_in_field(f, h, c, off, x);
        lemma_eval_in_field(f, h, c, off + pow2(h), x);
        lemma_subspace_in_field(f, h, x);
        let s = spec_subspace(f, h, x);
        let hi = spec_eval(f, h, c, off + pow2(h), x);
        lemma_product(f, s, hi);
        lemma_xor_in_field(f, spec_eval(f, h, c, off, x), spec_product(f, s, hi));
    }
}

/// The value is linear in the coefficients: where every coefficient of `w`
/// is the coefficient of `u` plus `sigma` times the coefficient of `v`, the
/// value of `w` is the value of `u` plus `sigma` times the value of `v`.
pub proof fn lemma_eval_is_linear(
    f: Field,
    mu: nat,
    u: Seq<Additive>,
    ou: int,
    v: Seq<Additive>,
    ov: int,
    w: Seq<Additive>,
    ow: int,
    sigma: u16,
    x: u16,
)
    requires
        spec_field_is_valid(f),
        spec_all_in_field(f, u),
        spec_all_in_field(f, v),
        spec_all_in_field(f, w),
        0 <= ou,
        ou + pow2(mu) <= u.len(),
        0 <= ov,
        ov + pow2(mu) <= v.len(),
        0 <= ow,
        ow + pow2(mu) <= w.len(),
        sigma < f.spec_size(),
        x < f.spec_size(),
        forall|i: int|
            ow <= i < ow + pow2(mu) ==> (#[trigger] w[i]).0 == u[i - ow + ou].0 ^ spec_product(
                f,
                sigma,
                v[i - ow + ov].0,
            ),
    ensures
        spec_eval(f, mu, w, ow, x) == spec_eval(f, mu, u, ou, x) ^ spec_product(
            f,
            sigma,
            spec_eval(f, mu, v, ov, x),
        ),
    decreases mu,
{
    lemma_pow2_pos(mu);
    if mu == 0 {
        assert(w[ow].0 == u[ow - ow + ou].0 ^ spec_product(f, sigma, v[ow - ow + ov].0));
    } else {
        let h = (mu - 1) as nat;
        let d = pow2(h) as int;
        lemma_pow2_unfold(mu);
        lemma_pow2_pos(h);
        lemma_eval_is_linear(f, h, u, ou, v, ov, w, ow, sigma, x);
        assert forall|i: int| ow + d <= i < ow + d + pow2(h) implies (#[trigger] w[i]).0 == u[i - (
        ow + d) + (ou + d)].0 ^ spec_product(f, sigma, v[i - (ow + d) + (ov + d)].0) by {
            assert(w[i].0 == u[i - ow + ou].0 ^ spec_product(f, sigma, v[i - ow + ov].0));
        }
        lemma_eval_is_linear(f, h, u, ou + d, v, ov + d, w, ow + d, sigma, x);
        let s = spec_subspace(f, h, x);
        lemma_subspace_in_field(f, h, x);
        let u0 = spec_eval(f, h, u, ou, x);
        let u1 = spec_eval(f, h, u, ou + d, x);
        let v0 = spec_eval(f, h, v, ov, x);
        let v1 = spec_eval(f, h, v, ov + d, x);
        lemma_eval_in_field(f, h, u, ou, x);
        lemma_eval_in_field(f, h, u, ou + d, x);
        lemma_eval_in_field(f, h, v, ov, x);
        lemma_eval_in_field(f, h, v, ov + d, x);
        let sv1 = spec_product(f, sigma, v1);
        lemma_product(f, sigma, v1);
        lemma_product(f, s, v1);
        lemma_product_distributes(f, s, u1, sv1);
        lemma_product_associates(f, s, sigma, v1);
        lemma_product_commutes(f, s, sigma);
        lemma_product_associates(f, sigma, s, v1);
        lemma_product_distributes(f, sigma, v0, spec_product(f, s, v1));
        let a = spec_product(f, sigma, v0);
        let b = spec_product(f, s, u1);
        let c = spec_product(f, sigma, spec_product(f, s, v1));
        lemma_xor_sums(u0, a, b, c, 0, 0, 0, 0);
    }
}

/// A multiple of a power of two is a multiple of every smaller power of two.
pub proof fn lemma_multiple_of_smaller_power(x: int, lam: nat, mu: nat)
    requires
        lam <= mu,
        x % (pow2(mu) as int) == 0,
    ensures
        x % (pow2(lam) as int) == 0,
{
    lemma_pow2_pos(lam);
    lemma_pow2_pos((mu - lam) as nat);
    lemma_pow2_adds(lam, (mu - lam) as nat);
    lemma_mod_mod(x, pow2(lam) as int, pow2((mu - lam) as nat) as int);
    lemma_small_mod(0, pow2(lam));
}

/// The block of `d2` places that holds place `i` of a vector of whole blocks.
pub proof fn lemma_block_of(i: int, d2: int, size: int)
    requires
        d2 > 0,
        0 <= i < size,
        size % d2 == 0,
    ensures
        (i - i % d2) % d2 == 0,
        0 <= i - i % d2,
        i - i % d2 + d2 <= size,
        0 <= i % d2 < d2,
{
    lemma_fundamental_div_mod(i, d2);
    lemma_fundamental_div_mod(size, d2);
    let q = i / d2;
    let m = size / d2;
    lemma_mod_multiples_basic(q, d2);
    assert(i - i % d2 == q * d2) by (nonlinear_arith)
        requires
            i == d2 * q + i % d2,
    ;
    assert(q < m && q * d2 + d2 <= m * d2 && 0 <= q * d2) by (nonlinear_arith)
        requires
            i == d2 * q + i % d2,
            size == d2 * m,
            0 <= i % d2 < d2,
            0 <= i < size,
            d2 > 0,
    ;
    assert(size == m * d2) by (nonlinear_arith)
        requires
            size == d2 * m + size % d2,
            size % d2 == 0,
    ;
}

/// What a layer of the forward transform makes of the element at offset `r`
/// of the block of `2^(e + 1)` places that starts at `b`: with the value
/// `sigma` of the subspace polynomial of level `e` at the first point of
/// the block, the low element takes up `sigma` times the high one, and the
/// high element then takes up the new low one.
pub proof fn lemma_layer_step(
    f: Field,
    y: Seq<Additive>,
    size: nat,
    index: nat,
    e: nat,
    b: int,
    r: int,
)
    requires
        spec_field_is_valid(f),
        spec_all_in_field(f, y),
        e < f.spec_bits(),
        size <= y.len(),
        index + size <= f.spec_size(),
        index % pow2(e + 1) == 0,
        0 <= b,
        b % (pow2(e + 1) as int) == 0,
        b + pow2(e + 1) <= size,
        0 <= r < pow2(e + 1),
    ensures
        ({
            let d = pow2(e) as int;
            let i = b + r;
            let z = spec_afft_layer(f, y, size, index, pow2(e));
            let sigma = spec_subspace(f, e, (b + index) as u16);
            &&& z[i].0 < f.spec_size()
            &&& sigma < f.spec_size()
            &&& r < d ==> z[i].0 == y[i].0 ^ spec_product(f, sigma, y[i + d].0)
            &&& r >= d ==> z[i].0 == y[i].0 ^ (y[i - d].0 ^ spec_product(f, sigma, y[i].0))
        }),
{
    lemma_field_size(f);
    lemma_pow2_pos(e);
    lemma_pow2_unfold(e + 1);
    let d = pow2(e) as int;
    let span = pow2(e + 1) as int;
    let i = b + r;
    let z = spec_afft_layer(f, y, size, index, pow2(e));
    lemma_fundamental_div_mod(b, span);
    let q = b / span;
    assert(b == q * (2 * d)) by (nonlinear_arith)
        requires
            b == span * q + b % span,
            b % span == 0,
            span == 2 * d,
    ;
    lemma_block_position(i, d, q, r);
    lemma_add_mod_noop(b, index as int, span);
    lemma_small_mod(0, span as nat);
    lemma_fundamental_div_mod(b + index, span);
    let c = (b + index) / span;
    assert(c >= 0 && c * span == b + index) by (nonlinear_arith)
        requires
            b + index == span * c + (b + index) % span,
            (b + index) % span == 0,
            b + index >= 0,
            span > 0,
    ;
    let sigma = spec_subspace(f, e, (b + index) as u16);
    lemma_subspace_in_field(f, e, (b + index) as u16);
    assert(crate::blocks::spec_block_start(i, d) + d + index - 1 == (c as nat) * pow2(e + 1)
        + pow2(e) - 1);
    if r < d {
        lemma_skew_xor(f, y[i].0, y[i + d].0, e, c as nat);
        lemma_product(f, sigma, y[i + d].0);
        lemma_xor_in_field(f, y[i].0, spec_product(f, sigma, y[i + d].0));
    } else {
        lemma_skew_xor(f, y[i - d].0, y[i].0, e, c as nat);
        lemma_product(f, sigma, y[i].0);
        let t = y[i - d].0 ^ spec_product(f, sigma, y[i].0);
        lemma_xor_in_field(f, y[i - d].0, spec_product(f, sigma, y[i].0));
        lemma_xor_in_field(f, y[i].0, t);
    }
}

/// A layer of the forward transform keeps the elements in the field.
pub proof fn lemma_layer_in_field(f: Field, y: Seq<Additive>, size: nat, index: nat, e: nat)
    requires
        spec_field_is_valid(f),
        spec_all_in_field(f, y),
        e < f.spec_bits(),
        size <= y.len(),
        index + size <= f.spec_size(),
        index % pow2(e + 1) == 0,
        size % pow2(e + 1) == 0,
    ensures
        spec_all_in_field(f, spec_afft_layer(f, y, size, index, pow2(e))),
        spec_afft_layer(f, y, size, index, pow2(e)).len() == y.len(),
{
    let z = spec_afft_layer(f, y, size, index, pow2(e));
    lemma_pow2_pos(e + 1);
    assert forall|i: int| 0 <= i < z.len() implies (#[trigger] z[i]).0 < f.spec_size() by {
        if i < size {
            let span = pow2(e + 1) as int;
            lemma_block_of(i, span, size as int);
            lemma_layer_step(f, y, size, index, e, i - i % span, i % span);
        } else {
            assert(z[i] == y[i]);
        }
    }
}

/// The polynomial of the low half of a block after a layer of the forward
/// transform: that of the low half before it, plus the value of the
/// subspace polynomial at the first point of the block times that of the
/// high half before it.
pub proof fn lemma_layer_low_half(
    f: Field,
    y: Seq<Additive>,
    size: nat,
    index: nat,
    e: nat,
    b: int,
    x: u16,
)
    requires
        spec_field_is_valid(f),
        spec_all_in_field(f, y),
        e < f.spec_bits(),
        size <= y.len(),
        index + size <= f.spec_size(),
        index % pow2(e + 1) == 0,
        size % pow2(e + 1) == 0,
        0 <= b,
        b % (pow2(e + 1) as int) == 0,
        b + pow2(e + 1) <= size,
        x < f.spec_size(),
    ensures
        spec_eval(f, e, spec_afft_layer(f, y, size, index, pow2(e)), b, x) == spec_eval(
            f,
            e,
            y,
            b,
            x,
        ) ^ spec_product(
            f,
            spec_subspace(f, e, (index + b) as u16),
            spec_eval(f, e, y, b + pow2(e), x),
        ),
{
    lemma_field_size(f);
    lemma_pow2_pos(e);
    lemma_pow2_unfold(e + 1);
    let d = pow2(e) as int;
    lemma_layer_in_field(f, y, size, index, e);
    let z = spec_afft_layer(f, y, size, index, pow2(e));
    let sigma = spec_subspace(f, e, (index + b) as u16);
    lemma_subspace_in_field(f, e, (index + b) as u16);
    assert forall|i: int| b <= i < b + pow2(e) implies (#[trigger] z[i]).0 == y[i - b + b].0
        ^ spec_product(f, sigma, y[i - b + (b + d)].0) by {
        lemma_layer_step(f, y, size, index, e, b, i - b);
    }
    lemma_eval_is_linear(f, e, y, b, y, b + d, z, b, sigma, x);
}

/// The polynomial of the high half of a block after a layer of the forward
/// transform: that of the high half before it plus that of the low half
/// after it.
pub proof fn lemma_layer_high_half(
    f: Field,
    y: Seq<Additive>,
    size: nat,
    index: nat,
    e: nat,
    b: int,
    x: u16,
)
    requires
        spec_field_is_valid(f),
        spec_all_in_field(f, y),
        e < f.spec_bits(),
        size <= y.len(),
        index + size <= f.spec_size(),
        index % pow2(e + 1) == 0,
        size % pow2(e + 1) == 0,
        0 <= b,
        b % (pow2(e + 1) as int) == 0,
        b + pow2(e + 1) <= size,
        x < f.spec_size(),
    ensures
        spec_eval(f, e, spec_afft_layer(f, y, size, index, pow2(e)), b + pow2(e), x) == spec_eval(
            f,
            e,
            y,
            b + pow2(e),
            x,
        ) ^ spec_eval(f, e, spec_afft_layer(f, y, size, index, pow2(e)), b, x),
{
    lemma_field_size(f);
    lemma_log_exp(f);
    lemma_pow2_pos(e);
    lemma_pow2_unfold(e + 1);
    let d = pow2(e) as int;
    lemma_layer_in_field(f, y, size, index, e);
    let z = spec_afft_layer(f, y, size, index, pow2(e));
    assert forall|i: int| b + d <= i < b + d + pow2(e) implies (#[trigger] z[i]).0 == y[i - (b
        + d) + (b + d)].0 ^ spec_product(f, 1, z[i - (b + d) + b].0) by {
        lemma_layer_step(f, y, size, index, e, b, i - b);
        lemma_layer_step(f, y, size, index, e, b, i - b - d);
        lemma_product_unit(f, z[i - d].0);
    }
    lemma_eval_is_linear(f, e, y, b + d, z, b, z, b + d, 1, x);
    lemma_eval_in_field(f, e, z, b, x);
    lemma_product_unit(f, spec_eval(f, e, z, b, x));
}

/// The value of the subspace polynomial of level `e` at the point at
/// offset `t` of a block of `2^(e + 1)` points that starts at `base`: the
/// value at the first point of the block in the low half of the block, and
/// that value plus one in the high half.
pub proof fn lemma_subspace_in_block(f: Field, e: nat, base: nat, t: nat)
    requires
        spec_field_is_valid(f),
        e < f.spec_bits(),
        base % pow2(e + 1) == 0,
        base + pow2(e + 1) <= f.spec_size(),
        t < pow2(e + 1),
    ensures
        t < pow2(e) ==> spec_subspace(f, e, (base + t) as u16) == spec_subspace(
            f,
            e,
            base as u16,
        ),
        t >= pow2(e) ==> spec_subspace(f, e, (base + t) as u16) == spec_subspace(
            f,
            e,
            base as u16,
        ) ^ 1,
{
    lemma_field_size(f);
    lemma_pow2_pos(e);
    lemma_pow2_unfold(e + 1);
    let d = pow2(e);
    let sigma = spec_subspace(f, e, base as u16);
    lemma_add_is_xor(base, t, e + 1);
    lemma_subspace_is_additive(f, e, base as u16, t as u16);
    if t < d {
        lemma_subspace_vanishes(f, e, t);
        lemma_xor_sums(sigma, 0, 0, 0, 0, 0, 0, 0);
    } else {
        lemma_mod_self_0(d as int);
        lemma_add_is_xor(d, (t - d) as nat, e);
        lemma_lt_size(f, d, e);
        lemma_subspace_is_additive(f, e, d as u16, (t - d) as u16);
        lemma_subspace_vanishes(f, e, (t - d) as nat);
        lemma_subspace_unit(f, e);
        lemma_xor_sums(1, 0, 0, 0, 0, 0, 0, 0);
    }
}

/// After a layer of the forward transform, the polynomial of the half of a
/// block that holds a point takes, at that point, the value of the
/// polynomial of the whole block before the layer.
pub proof fn lemma_layer_keeps_value(
    f: Field,
    y: Seq<Additive>,
    size: nat,
    index: nat,
    e: nat,
    b: int,
    t: int,
)
    requires
        spec_field_is_valid(f),
        spec_all_in_field(f, y),
        e < f.spec_bits(),
        size <= y.len(),
        index + size <= f.spec_size(),
        index % pow2(e + 1) == 0,
        size % pow2(e + 1) == 0,
        0 <= b,
        b % (pow2(e + 1) as int) == 0,
        b + pow2(e + 1) <= size,
        0 <= t < pow2(e + 1),
    ensures
        t < pow2(e) ==> spec_eval(
            f,
            e,
            spec_afft_layer(f, y, size, index, pow2(e)),
            b,
            (index + b + t) as u16,
        ) == spec_eval(f, e + 1, y, b, (index + b + t) as u16),
        t >= pow2(e) ==> spec_eval(
            f,
            e,
            spec_afft_layer(f, y, size, index, pow2(e)),
            b + pow2(e),
            (index + b + t) as u16,
        ) == spec_eval(f, e + 1, y, b, (index + b + t) as u16),
{
    lemma_field_size(f);
    lemma_pow2_pos(e);
    lemma_pow2_unfold(e + 1);
    let d = pow2(e) as int;
    let x = (index + b + t) as u16;
    let sigma = spec_subspace(f, e, (index + b) as u16);
    lemma_subspace_in_field(f, e, (index + b) as u16);
    lemma_add_mod_noop(index as int, b, pow2(e + 1) as int);
    lemma_small_mod(0, pow2(e + 1));
    lemma_subspace_in_block(f, e, (index + b) as nat, t as nat);
    lemma_layer_low_half(f, y, size, index, e, b, x);
    let e0 = spec_eval(f, e, y, b, x);
    let e1 = spec_eval(f, e, y, b + d, x);
    assert(spec_eval(f, e + 1, y, b, x) == e0 ^ spec_product(f, spec_subspace(f, e, x), e1));
    if t >= d {
        lemma_layer_high_half(f, y, size, index, e, b, x);
        lemma_eval_in_field(f, e, y, b + d, x);
        lemma_log_exp(f);
        lemma_product_distributes(f, e1, sigma, 1);
        lemma_product_commutes(f, e1, sigma);
        lemma_product_commutes(f, e1, sigma ^ 1);
        lemma_product_unit(f, e1);
        let se = spec_product(f, sigma, e1);
        lemma_xor_sums(e1, e0, se, 0, 0, 0, 0, 0);
    }
}

/// The forward layers below `2^lam` turn every block of `2^lam`
/// coefficients into the values of its polynomial at the points of the
/// block.
pub proof fn lemma_afft_from_evaluates(
    f: Field,
    y: Seq<Additive>,
    mu: nat,
    index: nat,
    lam: nat,
    b: int,
    t: int,
)
    requires
        spec_field_is_valid(f),
        spec_all_in_field(f, y),
        lam <= mu <= f.spec_bits(),
        pow2(mu) <= y.len(),
        index % pow2(mu) == 0,
        index + pow2(mu) <= f.spec_size(),
        0 <= b,
        b % (pow2(lam) as int) == 0,
        b + pow2(lam) <= pow2(mu),
        0 <= t < pow2(lam),
    ensures
        spec_afft_from(f, y, pow2(mu), index, pow2(lam) / 2)[b + t].0 == spec_eval(
            f,
            lam,
            y,
            b,
            (index + b + t) as u16,
        ),
    decreases lam,
{
    let size = pow2(mu);
    lemma_pow2_pos(lam);
    lemma_pow2_pos(mu);
    if lam == 0 {
        vstd::arithmetic::power2::lemma2_to64();
    } else {
        let e = (lam - 1) as nat;
        let d = pow2(e) as int;
        lemma_pow2_unfold(lam);
        lemma_pow2_pos(e);
        lemma_multiple_of_smaller_power(index as int, lam, mu);
        lemma_mod_self_0(size as int);
        lemma_multiple_of_smaller_power(size as int, lam, mu);
        lemma_multiple_of_smaller_power(b, e, lam);
        lemma_layer_in_field(f, y, size, index, e);
        let z = spec_afft_layer(f, y, size, index, pow2(e));
        assert(spec_afft_from(f, y, size, index, pow2(e)) == spec_afft_from(
            f,
            z,
            size,
            index,
            pow2(e) / 2,
        ));
        lemma_layer_keeps_value(f, y, size, index, e, b, t);
        if t < d {
            lemma_afft_from_evaluates(f, z, mu, index, e, b, t);
        } else {
            lemma_mod_self_0(d);
            lemma_add_mod_noop(b, d, d);
            lemma_afft_from_evaluates(f, z, mu, index, e, b + d, t - d);
        }
    }
}

/// A number below `2^e` is an element of a field with more than `e` bits.
pub proof fn lemma_lt_size(f: Field, v: nat, e: nat)
    requires
        e < f.spec_bits(),
        v <= pow2(e),
    ensures
        v < f.spec_size(),
{
    lemma_field_size(f);
    lemma_pow2_strictly_increases(e, f.spec_bits() as nat);
}

/// The additive FFT of `2^mu` coefficients at the points from `index` on
/// gives the values of their polynomial at these points.
pub proof fn lemma_afft_evaluates(f: Field, c: Seq<Additive>, mu: nat, index: nat, t: int)
    requires
        spec_field_is_valid(f),
        spec_all_in_field(f, c),
        mu <= f.spec_bits(),
        pow2(mu) <= c.len(),
        index % pow2(mu) == 0,
        index + pow2(mu) <= f.spec_size(),
        0 <= t < pow2(mu),
    ensures
        spec_afft(f, c, pow2(mu), index)[t].0 == spec_eval(f, mu, c, 0, (index + t) as u16),
{
    lemma_pow2_pos(mu);
    lemma_small_mod(0, pow2(mu));
    lemma_afft_from_evaluates(f, c, mu, index, mu, 0, t);
}

/// The sum of an element and the product of an element and a skew factor
/// lies in the field.
pub proof fn lemma_skew_xor_in_field(f: Field, lo: Additive, v: Additive, j: int)
    requires
        spec_field_is_valid(f),
        lo.0 < f.spec_size(),
        v.0 < f.spec_size(),
        0 <= j < f.spec_onemask(),
    ensures
        spec_skew_xor(f, lo, v, spec_skew_table(f)[j]).0 < f.spec_size(),
{
    lemma_table_entries_in_field(f);
    lemma_field_size(f);
    let skew = spec_skew_table(f)[j];
    let a = crate::tables::spec_skew_additive(f, j as nat);
    assert(skew.0 == crate::tables::spec_log_table(f)[f.spec_index(a)]);
    assert(0 <= f.spec_index(a) < f.spec_size());
    assert(skew.0 <= f.spec_onemask());
    lemma_mul_is_times_power(f, v.0, skew.0);
    lemma_times_power(f, v.0, skew.0 as int);
    lemma_xor_in_field(f, lo.0, crate::tables::spec_mul(f, v, skew).0);
}

/// A layer of the inverse transform keeps the elements in the field.
pub proof fn lemma_inverse_layer_in_field(
    f: Field,
    y: Seq<Additive>,
    size: nat,
    index: nat,
    e: nat,
)
    requires
        spec_field_is_valid(f),
        spec_all_in_field(f, y),
        size <= y.len(),
        index + size <= f.spec_size(),
        size % pow2(e + 1) == 0,
    ensures
        spec_all_in_field(f, spec_inverse_afft_layer(f, y, size, index, pow2(e))),
        spec_inverse_afft_layer(f, y, size, index, pow2(e)).len() == y.len(),
{
    let z = spec_inverse_afft_layer(f, y, size, index, pow2(e));
    lemma_pow2_pos(e + 1);
    lemma_pow2_pos(e);
    lemma_pow2_unfold(e + 1);
    lemma_field_size(f);
    let d = pow2(e) as int;
    assert forall|i: int| 0 <= i < z.len() implies (#[trigger] z[i]).0 < f.spec_size() by {
        if i < size {
            let span = pow2(e + 1) as int;
            lemma_block_of(i, span, size as int);
            let j = crate::blocks::spec_block_start(i, d) + d + index - 1;
            assert(0 <= j < f.spec_onemask());
            if i % span < d {
                lemma_xor_in_field(f, y[i + d].0, y[i].0);
                lemma_skew_xor_in_field(f, y[i], spec_xor(y[i + d], y[i]), j);
            } else {
                lemma_xor_in_field(f, y[i].0, y[i - d].0);
            }
        } else {
            assert(z[i] == y[i]);
        }
    }
}

/// The inverse layers keep the elements in the field.
pub proof fn lemma_inverse_afft_in_field(
    f: Field,
    y: Seq<Additive>,
    mu: nat,
    index: nat,
    lam: nat,
)
    requires
        spec_field_is_valid(f),
        spec_all_in_field(f, y),
        lam <= mu,
        pow2(mu) <= y.len(),
        index + pow2(mu) <= f.spec_size(),
    ensures
        spec_all_in_field(f, spec_inverse_afft_upto(f, y, pow2(mu), index, pow2(lam))),
        spec_inverse_afft_upto(f, y, pow2(mu), index, pow2(lam)).len() == y.len(),
    decreases lam,
{
    lemma_pow2_pos(lam);
    if lam == 0 {
        vstd::arithmetic::power2::lemma2_to64();
    } else {
        let e = (lam - 1) as nat;
        lemma_pow2_unfold(lam);
        lemma_pow2_pos(e);
        lemma_inverse_afft_in_field(f, y, mu, index, e);
        lemma_pow2_pos(mu);
        lemma_mod_self_0(pow2(mu) as int);
        lemma_multiple_of_smaller_power(pow2(mu) as int, lam, mu);
        lemma_inverse_layer_in_field(
            f,
            spec_inverse_afft_upto(f, y, pow2(mu), index, pow2(e)),
            pow2(mu),
            index,
            e,
        );
    }
}

/// The inverse additive FFT of `2^mu` values at the points from `index` on
/// gives the coefficients of a polynomial that takes these values at these
/// points.
pub proof fn lemma_inverse_afft_interpolates(
    f: Field,
    v: Seq<Additive>,
    mu: nat,
    index: nat,
    t: int,
)
    requires
        spec_field_is_valid(f),
        spec_all_in_field(f, v),
        mu <= f.spec_bits(),
        pow2(mu) <= v.len(),
        index % pow2(mu) == 0,
        index + pow2(mu) <= f.spec_size(),
        0 <= t < pow2(mu),
    ensures
        spec_all_in_field(f, spec_inverse_afft(f, v, pow2(mu), index)),
        spec_inverse_afft(f, v, pow2(mu), index).len() == v.len(),
        spec_eval(f, mu, spec_inverse_afft(f, v, pow2(mu), index), 0, (index + t) as u16)
            == v[t].0,
{
    lemma_inverse_afft_in_field(f, v, mu, index, mu);
    lemma_pow2_is_pow2(mu);
    lemma_afft_involution(f, v, pow2(mu), index);
    lemma_afft_evaluates(f, spec_inverse_afft(f, v, pow2(mu), index), mu, index, t);
}

/// The forward layers keep the elements in the field.
pub proof fn lemma_afft_in_field(f: Field, y: Seq<Additive>, mu: nat, index: nat, lam: nat)
    requires
        spec_field_is_valid(f),
        spec_all_in_field(f, y),
        lam <= mu <= f.spec_bits(),
        pow2(mu) <= y.len(),
        index % pow2(mu) == 0,
        index + pow2(mu) <= f.spec_size(),
    ensures
        spec_all_in_field(f, spec_afft_from(f, y, pow2(mu), index, pow2(lam) / 2)),
        spec_afft_from(f, y, pow2(mu), index, pow2(lam) / 2).len() == y.len(),
    decreases lam,
{
    lemma_pow2_pos(lam);
    lemma_pow2_pos(mu);
    if lam == 0 {
        vstd::arithmetic::power2::lemma2_to64();
    } else {
        let e = (lam - 1) as nat;
        lemma_pow2_unfold(lam);
        lemma_pow2_pos(e);
        lemma_multiple_of_smaller_power(index as int, lam, mu);
        lemma_mod_self_0(pow2(mu) as int);
        lemma_multiple_of_smaller_power(pow2(mu) as int, lam, mu);
        lemma_layer_in_field(f, y, pow2(mu), index, e);
        let z = spec_afft_layer(f, y, pow2(mu), index, pow2(e));
        assert(spec_afft_from(f, y, pow2(mu), index, pow2(e)) == spec_afft_from(
            f,
            z,
            pow2(mu),
            index,
            pow2(e) / 2,
        ));
        lemma_afft_in_field(f, z, mu, index, e);
    }
}

} // verus!
