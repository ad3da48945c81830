//! Decoding recovers what was erased: the symbols of a codeword are the
//! values of a polynomial with as many coefficients as the payload has
//! symbols, and wherever no more symbols are erased than the codeword has
//! spare, the decoder returns the erased payload symbols.
use crate::afft::{lemma_afft_involution, lemma_afft_len, spec_afft, spec_inverse_afft};
use crate::decode::{
    spec_decode_main, spec_densify, spec_mask_received, spec_no_logs, spec_reconstruct_symbols,
};
use crate::derivative::spec_formal_derivative;
use crate::derivative_laws::{
    lemma_eval_congruent, lemma_eval_padded, lemma_formal_derivative_evaluates,
    lemma_tweaked_is_plain, spec_eval_derivative,
};
use crate::encode::spec_encode_low;
use crate::evaluation::{
    lemma_afft_evaluates, lemma_block_of, lemma_eval_in_field, lemma_inverse_afft_interpolates,
    lemma_multiple_of_smaller_power, spec_all_in_field, spec_eval,
};
use crate::field::{Additive, Field};
use crate::field_laws::{
    lemma_log_exp, lemma_product, lemma_product_associates, lemma_product_commutes,
    lemma_product_inverse, lemma_product_unit, lemma_xor_sums, spec_inverse, spec_product,
};
use crate::linear_factor::{
    lemma_times_point_degree, lemma_times_point_evaluates, lemma_times_point_in_field,
    spec_times_point,
};
use crate::locator::{lemma_error_poly_multiplies, lemma_locator_log, spec_locator};
use crate::novel_poly_basis::spec_error_poly;
use crate::tables::{lemma_field_size, lemma_xor_in_field, spec_field_is_valid};
use crate::util::lemma_pow2_is_pow2;
use vstd::arithmetic::div_mod::{lemma_mod_self_0, lemma_small_mod};
use vstd::arithmetic::power2::{lemma_pow2_pos, lemma_pow2_strictly_increases, pow2};
use vstd::prelude::*;

verus! {

/// The coefficients `c` followed by zeros up to `n` places.
pub open spec fn spec_padded(c: Seq<Additive>, n: nat) -> Seq<Additive> {
    Seq::new(
        n,
        |j: int|
            if j < c.len() {
                c[j]
            } else {
                Additive(0)
            },
    )
}

/// The coefficients of the polynomial that takes the payload symbols
/// `data[0..k]` at the first `k` points.
pub open spec fn spec_payload_polynomial(f: Field, data: Seq<Additive>, k: nat) -> Seq<Additive> {
    spec_inverse_afft(f, data.subrange(0, k as int), k, 0)
}

/// A size of at most the size of the field fits in sixteen bits.
pub proof fn lemma_power_in_field(f: Field, nu: nat)
    requires
        nu <= f.spec_bits(),
    ensures
        pow2(nu) <= f.spec_size(),
        f.spec_size() <= 0x10000,
        pow2(nu) >= 1,
{
    lemma_field_size(f);
    lemma_pow2_pos(nu);
    if nu < f.spec_bits() {
        lemma_pow2_strictly_increases(nu, f.spec_bits() as nat);
    }
}

/// Every symbol of a codeword is the value, at the point of its place, of
/// the polynomial that takes the payload symbols at the first points.
pub proof fn lemma_encode_low_evaluates(
    f: Field,
    data: Seq<Additive>,
    kappa: nat,
    nu: nat,
    t: int,
)
    requires
        spec_field_is_valid(f),
        spec_all_in_field(f, data),
        kappa <= nu <= f.spec_bits(),
        pow2(kappa) <= data.len(),
        0 <= t < pow2(nu),
    ensures
        spec_all_in_field(f, spec_payload_polynomial(f, data, pow2(kappa))),
        spec_payload_polynomial(f, data, pow2(kappa)).len() == pow2(kappa),
        spec_encode_low(f, data, pow2(kappa), pow2(nu))[t].0 == spec_eval(
            f,
            kappa,
            spec_payload_polynomial(f, data, pow2(kappa)),
            0,
            t as u16,
        ),
        spec_encode_low(f, data, pow2(kappa), pow2(nu))[t].0 < f.spec_size(),
{
    let k = pow2(kappa);
    let n = pow2(nu);
    lemma_power_in_field(f, nu);
    lemma_power_in_field(f, kappa);
    let sub = data.subrange(0, k as int);
    let a = spec_payload_polynomial(f, data, k);
    assert(spec_all_in_field(f, sub)) by {
        assert forall|i: int| 0 <= i < sub.len() implies (#[trigger] sub[i]).0
            < f.spec_size() by {
            assert(sub[i] == data[i]);
        }
    }
    lemma_small_mod(0, k);
    lemma_inverse_afft_interpolates(f, sub, kappa, 0, 0);
    lemma_mod_self_0(n as int);
    lemma_multiple_of_smaller_power(n as int, kappa, nu);
    lemma_block_of(t, k as int, n as int);
    if t < k {
        lemma_inverse_afft_interpolates(f, sub, kappa, 0, t);
    } else {
        let s = (t - t % (k as int)) as nat;
        lemma_afft_evaluates(f, a, kappa, s, t % (k as int));
    }
    lemma_eval_in_field(f, kappa, a, 0, t as u16);
}

/// Number of erased places below `t`.
pub open spec fn spec_erased_below(erasures: Seq<bool>, t: nat) -> nat
    decreases t,
{
    if t == 0 {
        0
    } else {
        spec_erased_below(erasures, (t - 1) as nat) + (if t - 1 < erasures.len() && erasures[t
            - 1] {
            1nat
        } else {
            0nat
        })
    }
}

/// The number of erased places grows with the places that are counted.
pub proof fn lemma_erased_below_grows(erasures: Seq<bool>, s: nat, t: nat)
    requires
        s <= t,
    ensures
        spec_erased_below(erasures, s) <= spec_erased_below(erasures, t),
    decreases t,
{
    if s < t {
        lemma_erased_below_grows(erasures, s, (t - 1) as nat);
    }
}

/// The coefficients of the polynomial with the coefficients `c` times the
/// linear factors that vanish at the erased points below `t`.
pub open spec fn spec_multiplied(f: Field, c: Seq<Additive>, erasures: Seq<bool>, t: nat) -> Seq<
    Additive,
>
    decreases t,
{
    if t == 0 {
        c
    } else {
        let before = spec_multiplied(f, c, erasures, (t - 1) as nat);
        if t - 1 < erasures.len() && erasures[t - 1] {
            spec_times_point(f, before, (t - 1) as u16)
        } else {
            before
        }
    }
}

/// The value at `x` of the product of the linear factors that vanish at the
/// erased points below `t`.
pub open spec fn spec_full_locator(f: Field, erasures: Seq<bool>, t: nat, x: u16) -> u16
    decreases t,
{
    if t == 0 {
        1
    } else {
        let rest = spec_full_locator(f, erasures, (t - 1) as nat, x);
        if t - 1 < erasures.len() && erasures[t - 1] {
            spec_product(f, rest, x ^ ((t - 1) as u16))
        } else {
            rest
        }
    }
}

/// The product of the linear factors is an element of the field.
pub proof fn lemma_full_locator_in_field(f: Field, erasures: Seq<bool>, t: nat, x: u16)
    requires
        spec_field_is_valid(f),
        t <= f.spec_size(),
        x < f.spec_size(),
    ensures
        spec_full_locator(f, erasures, t, x) < f.spec_size(),
    decreases t,
{
    lemma_field_size(f);
    lemma_log_exp(f);
    if t > 0 {
        lemma_full_locator_in_field(f, erasures, (t - 1) as nat, x);
        lemma_xor_in_field(f, x, (t - 1) as u16);
        lemma_product(f, spec_full_locator(f, erasures, (t - 1) as nat, x), x ^ ((t - 1) as u16));
    }
}

/// At a point that is none of the erased points below `t`, no factor
/// vanishes.
pub proof fn lemma_full_locator_at_other(f: Field, erasures: Seq<bool>, t: nat, x: u16)
    requires
        t <= f.spec_size(),
        forall|e: int| 0 <= e < t && e < erasures.len() && erasures[e] ==> e != x,
    ensures
        spec_full_locator(f, erasures, t, x) == spec_locator(f, erasures, t, x),
    decreases t,
{
    lemma_field_size(f);
    if t > 0 {
        lemma_full_locator_at_other(f, erasures, (t - 1) as nat, x);
        lemma_xor_sums(x, (t - 1) as u16, 0, 0, 0, 0, 0, 0);
    }
}

/// At an erased point below `t` the product of the linear factors vanishes.
pub proof fn lemma_full_locator_at_erased(f: Field, erasures: Seq<bool>, t: nat, j: int)
    requires
        0 <= j < t <= f.spec_size(),
        j < erasures.len(),
        erasures[j],
    ensures
        spec_full_locator(f, erasures, t, j as u16) == 0,
    decreases t,
{
    lemma_field_size(f);
    if t - 1 == j {
        lemma_xor_sums(j as u16, 0, 0, 0, 0, 0, 0, 0);
    } else {
        lemma_full_locator_at_erased(f, erasures, (t - 1) as nat, j);
    }
}

/// Behind the last place of the erasure pattern no factor is added.
pub proof fn lemma_locator_beyond(f: Field, erasures: Seq<bool>, t: nat, x: u16)
    requires
        erasures.len() <= t,
    ensures
        spec_locator(f, erasures, t, x) == spec_locator(f, erasures, erasures.len(), x),
    decreases t,
{
    if t > erasures.len() {
        lemma_locator_beyond(f, erasures, (t - 1) as nat, x);
    }
}

/// The product of a polynomial and the linear factors of the erased points
/// below `t`: as long as the coefficients have room, its coefficients are
/// elements of the field that vanish from as many places behind those of
/// the polynomial as there are factors, and its values are the values of
/// the polynomial times the values of the factors.
pub proof fn lemma_multiplied(
    f: Field,
    c: Seq<Additive>,
    erasures: Seq<bool>,
    nu: nat,
    bound: nat,
    t: nat,
    x: u16,
)
    requires
        spec_field_is_valid(f),
        spec_all_in_field(f, c),
        nu <= f.spec_bits(),
        c.len() == pow2(nu),
        forall|i: int| bound <= i < c.len() ==> (#[trigger] c[i]).0 == 0,
        t <= pow2(nu),
        bound + spec_erased_below(erasures, t) <= pow2(nu),
        x < f.spec_size(),
    ensures
        spec_all_in_field(f, spec_multiplied(f, c, erasures, t)),
        spec_multiplied(f, c, erasures, t).len() == c.len(),
        forall|i: int|
            bound + spec_erased_below(erasures, t) <= i < c.len() ==> (#[trigger] spec_multiplied(
                f,
                c,
                erasures,
                t,
            )[i]).0 == 0,
        spec_eval(f, nu, spec_multiplied(f, c, erasures, t), 0, x) == spec_product(
            f,
            spec_eval(f, nu, c, 0, x),
            spec_full_locator(f, erasures, t, x),
        ),
    decreases t,
{
    lemma_power_in_field(f, nu);
    lemma_log_exp(f);
    let n = pow2(nu);
    let pv = spec_eval(f, nu, c, 0, x);
    lemma_eval_in_field(f, nu, c, 0, x);
    if t == 0 {
        lemma_product_unit(f, pv);
    } else {
        let s = (t - 1) as nat;
        let before = spec_multiplied(f, c, erasures, s);
        lemma_multiplied(f, c, erasures, nu, bound, s, x);
        if s < erasures.len() && erasures[s as int] {
            let e = s as u16;
            let m = spec_times_point(f, before, e);
            let deg = bound + spec_erased_below(erasures, s);
            assert(before[n - 1].0 == 0);
            lemma_times_point_in_field(f, before, e);
            lemma_times_point_evaluates(f, before, nu, e, x);
            assert forall|i: int| deg + 1 <= i < c.len() implies (#[trigger] m[i]).0 == 0 by {
                lemma_times_point_degree(f, before, e, deg as int, i);
            }
            let full = spec_full_locator(f, erasures, s, x);
            lemma_full_locator_in_field(f, erasures, s, x);
            lemma_xor_in_field(f, x, e);
            lemma_product(f, pv, full);
            lemma_product_commutes(f, x ^ e, spec_product(f, pv, full));
            lemma_product_associates(f, pv, full, x ^ e);
        }
    }
}

/// The derivative at an erased point once the factor of the point is
/// taken up: the value of the polynomial times the values of the factors
/// before it.
proof fn lemma_multiplied_derivative_first(
    f: Field,
    c: Seq<Additive>,
    erasures: Seq<bool>,
    nu: nat,
    bound: nat,
    j: int,
)
    requires
        spec_field_is_valid(f),
        spec_all_in_field(f, c),
        nu <= f.spec_bits(),
        c.len() == pow2(nu),
        forall|i: int| bound <= i < c.len() ==> (#[trigger] c[i]).0 == 0,
        j + 1 <= pow2(nu),
        bound + spec_erased_below(erasures, (j + 1) as nat) <= pow2(nu),
        0 <= j < erasures.len(),
        erasures[j],
    ensures
        spec_eval_derivative(f, nu, spec_multiplied(f, c, erasures, (j + 1) as nat), 0, j as u16)
            == spec_product(
            f,
            spec_eval(f, nu, c, 0, j as u16),
            spec_locator(f, erasures, (j + 1) as nat, j as u16),
        ),
{
    lemma_power_in_field(f, nu);
    lemma_log_exp(f);
    let n = pow2(nu);
    let y = j as u16;
    let s = j as nat;
    let before = spec_multiplied(f, c, erasures, s);
    lemma_multiplied(f, c, erasures, nu, bound, s, y);
    let pb = spec_eval(f, nu, before, 0, y);
    let db = spec_eval_derivative(f, nu, before, 0, y);
    assert(before[n - 1].0 == 0);
    lemma_times_point_evaluates(f, before, nu, y, y);
    lemma_xor_sums(y, 0, 0, 0, 0, 0, 0, 0);
    assert(y ^ y == 0);
    assert(spec_product(f, 0, db) == 0);
    lemma_xor_sums(pb, 0, 0, 0, 0, 0, 0, 0);
    lemma_full_locator_at_other(f, erasures, s, y);
    assert(spec_multiplied(f, c, erasures, (j + 1) as nat) == spec_times_point(f, before, y));
    assert(spec_locator(f, erasures, (j + 1) as nat, y) == spec_locator(f, erasures, s, y));
}

/// The derivative at an erased point after one more step: where the step
/// takes up a factor, the derivative is multiplied by the value of the
/// factor, as the polynomial vanishes at the point.
proof fn lemma_multiplied_derivative_next(
    f: Field,
    c: Seq<Additive>,
    erasures: Seq<bool>,
    nu: nat,
    bound: nat,
    t: nat,
    j: int,
)
    requires
        spec_field_is_valid(f),
        spec_all_in_field(f, c),
        nu <= f.spec_bits(),
        c.len() == pow2(nu),
        forall|i: int| bound <= i < c.len() ==> (#[trigger] c[i]).0 == 0,
        t <= pow2(nu),
        bound + spec_erased_below(erasures, t) <= pow2(nu),
        0 <= j < t - 1,
        j < erasures.len(),
        erasures[j],
        spec_eval_derivative(f, nu, spec_multiplied(f, c, erasures, (t - 1) as nat), 0, j as u16)
            == spec_product(
            f,
            spec_eval(f, nu, c, 0, j as u16),
            spec_locator(f, erasures, (t - 1) as nat, j as u16),
        ),
    ensures
        spec_eval_derivative(f, nu, spec_multiplied(f, c, erasures, t), 0, j as u16)
            == spec_product(
            f,
            spec_eval(f, nu, c, 0, j as u16),
            spec_locator(f, erasures, t, j as u16),
        ),
{
    lemma_power_in_field(f, nu);
    lemma_log_exp(f);
    let n = pow2(nu);
    let y = j as u16;
    let pv = spec_eval(f, nu, c, 0, y);
    lemma_eval_in_field(f, nu, c, 0, y);
    let s = (t - 1) as nat;
    let e = s as u16;
    let before = spec_multiplied(f, c, erasures, s);
    if s < erasures.len() && erasures[s as int] {
        lemma_multiplied(f, c, erasures, nu, bound, s, y);
        let pb = spec_eval(f, nu, before, 0, y);
        let db = spec_eval_derivative(f, nu, before, 0, y);
        assert(before[n - 1].0 == 0);
        lemma_times_point_evaluates(f, before, nu, e, y);
        lemma_full_locator_at_erased(f, erasures, s, j);
        assert(pb == 0);
        let loc = spec_locator(f, erasures, s, y);
        lemma_locator_log(f, erasures, s, y);
        lemma_xor_in_field(f, y, e);
        lemma_xor_sums(y, e, 0, 0, 0, 0, 0, 0);
        assert(y ^ e != 0);
        let g = spec_product(f, y ^ e, db);
        lemma_xor_sums(g, 0, 0, 0, 0, 0, 0, 0);
        assert(spec_eval_derivative(f, nu, spec_times_point(f, before, e), 0, y) == g);
        lemma_product_commutes(f, y ^ e, spec_product(f, pv, loc));
        lemma_product_associates(f, pv, loc, y ^ e);
        assert(spec_locator(f, erasures, t, y) == spec_product(f, loc, y ^ e));
        assert(spec_multiplied(f, c, erasures, t) == spec_times_point(f, before, e));
    } else {
        assert(spec_multiplied(f, c, erasures, t) == before);
        assert(spec_locator(f, erasures, t, y) == spec_locator(f, erasures, s, y));
    }
}

/// The derivative, at an erased point, of the product of a polynomial and
/// the linear factors of the erased points below `t`, once the factor of
/// the point is among them: the value of the polynomial times the values
/// of the other factors.
pub proof fn lemma_multiplied_derivative(
    f: Field,
    c: Seq<Additive>,
    erasures: Seq<bool>,
    nu: nat,
    bound: nat,
    t: nat,
    j: int,
)
    requires
        spec_field_is_valid(f),
        spec_all_in_field(f, c),
        nu <= f.spec_bits(),
        c.len() == pow2(nu),
        forall|i: int| bound <= i < c.len() ==> (#[trigger] c[i]).0 == 0,
        t <= pow2(nu),
        bound + spec_erased_below(erasures, t) <= pow2(nu),
        0 <= j < t,
        j < erasures.len(),
        erasures[j],
    ensures
        spec_eval_derivative(f, nu, spec_multiplied(f, c, erasures, t), 0, j as u16)
            == spec_product(
            f,
            spec_eval(f, nu, c, 0, j as u16),
            spec_locator(f, erasures, t, j as u16),
        ),
    decreases t,
{
    if t - 1 == j {
        lemma_multiplied_derivative_first(f, c, erasures, nu, bound, j);
    } else {
        lemma_erased_below_grows(erasures, (t - 1) as nat, t);
        lemma_multiplied_derivative(f, c, erasures, nu, bound, (t - 1) as nat, j);
        lemma_multiplied_derivative_next(f, c, erasures, nu, bound, t, j);
    }
}

/// The polynomial of the payload with zeros behind its coefficients
/// takes the same values.
pub proof fn lemma_padded_polynomial(f: Field, data: Seq<Additive>, kappa: nat, nu: nat, x: u16)
    requires
        spec_field_is_valid(f),
        spec_all_in_field(f, data),
        kappa <= nu <= f.spec_bits(),
        pow2(kappa) <= data.len(),
        x < f.spec_size(),
    ensures
        ({
            let a = spec_payload_polynomial(f, data, pow2(kappa));
            let c = spec_padded(a, pow2(nu));
            &&& spec_all_in_field(f, c)
            &&& c.len() == pow2(nu)
            &&& pow2(kappa) <= pow2(nu)
            &&& forall|i: int| pow2(kappa) <= i < c.len() ==> (#[trigger] c[i]).0 == 0
            &&& spec_eval(f, nu, c, 0, x) == spec_eval(f, kappa, a, 0, x)
            &&& spec_eval(f, nu, c, 0, x) < f.spec_size()
        }),
{
    let k = pow2(kappa);
    let n = pow2(nu);
    lemma_power_in_field(f, nu);
    lemma_power_in_field(f, kappa);
    if kappa < nu {
        lemma_pow2_strictly_increases(kappa, nu);
    }
    let a = spec_payload_polynomial(f, data, k);
    let c = spec_padded(a, n);
    lemma_encode_low_evaluates(f, data, kappa, nu, 0);
    assert forall|i: int| 0 <= i < c.len() implies (#[trigger] c[i]).0 < f.spec_size() by {
        if i < k {
            assert(c[i] == a[i]);
        }
    }
    lemma_eval_padded(f, kappa, nu, c, x);
    assert forall|i: int| 0 <= i < 0 + pow2(kappa) implies (#[trigger] c[i]).0 == a[i - 0
        + 0].0 by {}
    lemma_eval_congruent(f, kappa, a, 0, c, 0, x);
    lemma_eval_in_field(f, kappa, a, 0, x);
}

/// Whether `received` is what is left of the values of the polynomial with
/// the `2^nu` coefficients `c`, which vanish from place `bound` on: a mark
/// for every point, no more marks than places behind `bound`, and at every
/// point without a mark the value of the polynomial.
pub open spec fn spec_is_left_of_values(
    f: Field,
    c: Seq<Additive>,
    erasures: Seq<bool>,
    received: Seq<Additive>,
    nu: nat,
    bound: nat,
) -> bool {
    &&& c.len() == pow2(nu)
    &&& spec_all_in_field(f, c)
    &&& forall|i: int| bound <= i < c.len() ==> (#[trigger] c[i]).0 == 0
    &&& erasures.len() == pow2(nu)
    &&& received.len() == pow2(nu)
    &&& bound + spec_erased_below(erasures, pow2(nu)) <= pow2(nu)
    &&& forall|i: int|
        0 <= i < pow2(nu) && !erasures[i] ==> (#[trigger] received[i]).0 == spec_eval(
            f,
            nu,
            c,
            0,
            i as u16,
        )
}

/// The symbol that the decoder makes of a received symbol, and the zero
/// that it puts at an erased place, is the value at the point of the place
/// of the polynomial times the error locator polynomial.
proof fn lemma_masked_symbol(
    f: Field,
    c: Seq<Additive>,
    erasures: Seq<bool>,
    received: Seq<Additive>,
    nu: nat,
    bound: nat,
    t: int,
)
    requires
        spec_field_is_valid(f),
        nu <= f.spec_bits(),
        spec_is_left_of_values(f, c, erasures, received, nu, bound),
        0 <= t < pow2(nu),
    ensures
        spec_mask_received(f, received, erasures, spec_error_poly(f, erasures), pow2(nu))[t].0
            == spec_eval(f, nu, spec_multiplied(f, c, erasures, pow2(nu)), 0, t as u16),
{
    let n = pow2(nu);
    lemma_power_in_field(f, nu);
    lemma_log_exp(f);
    let x = t as u16;
    lemma_multiplied(f, c, erasures, nu, bound, n, x);
    lemma_eval_in_field(f, nu, c, 0, x);
    if erasures[t] {
        lemma_full_locator_at_erased(f, erasures, n, t);
    } else {
        lemma_error_poly_multiplies(
            f,
            erasures,
            spec_no_logs(f),
            f.spec_size(),
            received[t].0,
            t,
        );
        lemma_locator_beyond(f, erasures, f.spec_size(), x);
        lemma_full_locator_at_other(f, erasures, n, x);
    }
}

/// The inverse transform in the decoder gives the coefficients of the
/// polynomial times the error locator polynomial.
pub proof fn lemma_masked_is_located(
    f: Field,
    c: Seq<Additive>,
    erasures: Seq<bool>,
    received: Seq<Additive>,
    nu: nat,
    bound: nat,
)
    requires
        spec_field_is_valid(f),
        nu <= f.spec_bits(),
        spec_is_left_of_values(f, c, erasures, received, nu, bound),
    ensures
        spec_inverse_afft(
            f,
            spec_mask_received(f, received, erasures, spec_error_poly(f, erasures), pow2(nu)),
            pow2(nu),
            0,
        ) == spec_multiplied(f, c, erasures, pow2(nu)),
        spec_all_in_field(f, spec_multiplied(f, c, erasures, pow2(nu))),
        spec_multiplied(f, c, erasures, pow2(nu)).len() == pow2(nu),
{
    let n = pow2(nu);
    lemma_power_in_field(f, nu);
    let masked = spec_mask_received(f, received, erasures, spec_error_poly(f, erasures), n);
    let m = spec_multiplied(f, c, erasures, n);
    lemma_multiplied(f, c, erasures, nu, bound, n, 0);
    let tr = spec_afft(f, m, n, 0);
    lemma_afft_len(f, m, n, 0, n / 2);
    lemma_small_mod(0, n);
    assert forall|t: int| 0 <= t < n implies masked[t] == tr[t] by {
        lemma_masked_symbol(f, c, erasures, received, nu, bound, t);
        lemma_afft_evaluates(f, m, nu, 0, t);
    }
    assert(masked =~= tr);
    lemma_pow2_is_pow2(nu);
    lemma_afft_involution(f, m, n, 0);
}

/// The decoder recovers what was erased: of the values of a polynomial
/// whose coefficients leave as many places free as values are erased, it
/// returns at every erased place below `up_to` the value of the polynomial
/// at the point of the place.
pub proof fn lemma_decode_recovers(
    f: Field,
    c: Seq<Additive>,
    erasures: Seq<bool>,
    received: Seq<Additive>,
    nu: nat,
    bound: nat,
    up_to: nat,
    j: int,
)
    requires
        spec_field_is_valid(f),
        nu <= f.spec_bits(),
        spec_is_left_of_values(f, c, erasures, received, nu, bound),
        0 <= j < up_to <= pow2(nu),
        erasures[j],
    ensures
        spec_decode_main(f, received, up_to, erasures, spec_error_poly(f, erasures), pow2(nu))[j]
            == Additive(spec_eval(f, nu, c, 0, j as u16)),
{
    let n = pow2(nu);
    lemma_power_in_field(f, nu);
    lemma_log_exp(f);
    let y = j as u16;
    let m = spec_multiplied(f, c, erasures, n);
    lemma_masked_is_located(f, c, erasures, received, nu, bound);
    lemma_tweaked_is_plain(f, m, nu);
    let h = spec_formal_derivative(f, m, n);
    lemma_formal_derivative_evaluates(f, m, nu, y);
    lemma_small_mod(0, n);
    lemma_afft_evaluates(f, h, nu, 0, j);
    lemma_afft_len(f, h, n, 0, n / 2);
    let v = spec_afft(f, h, n, 0)[j].0;
    lemma_multiplied(f, c, erasures, nu, bound, n, y);
    lemma_full_locator_at_erased(f, erasures, n, j);
    lemma_multiplied_derivative(f, c, erasures, nu, bound, n, j);
    let pv = spec_eval(f, nu, c, 0, y);
    lemma_eval_in_field(f, nu, c, 0, y);
    let loc = spec_locator(f, erasures, n, y);
    let dv = spec_eval_derivative(f, nu, m, 0, y);
    lemma_xor_sums(dv, 0, 0, 0, 0, 0, 0, 0);
    assert(v == spec_product(f, pv, loc));
    lemma_locator_beyond(f, erasures, f.spec_size(), y);
    lemma_locator_log(f, erasures, n, y);
    lemma_product(f, pv, loc);
    lemma_error_poly_multiplies(f, erasures, spec_no_logs(f), f.spec_size(), v, j);
    lemma_product_inverse(f, loc);
    lemma_product_associates(f, pv, loc, spec_inverse(f, loc));
    lemma_product_unit(f, pv);
}

/// The erasure pattern and what is left of the codeword of the payload
/// symbols `data`: a mark for every place of the codeword, no more marks
/// than the codeword has symbols to spare, and at every place without a
/// mark the symbol of the codeword.
pub open spec fn spec_is_left_of_codeword(
    f: Field,
    data: Seq<Additive>,
    erasures: Seq<bool>,
    codewords: Seq<Option<Additive>>,
    k: nat,
    n: nat,
) -> bool {
    &&& erasures.len() == n
    &&& codewords.len() == n
    &&& k + spec_erased_below(erasures, n) <= n
    &&& forall|i: int|
        0 <= i < n && !erasures[i] ==> #[trigger] codewords[i] == Some(
            spec_encode_low(f, data, k, n)[i],
        )
}

/// The payload symbols that reconstruction returns for a column are the
/// payload symbols that were encoded, wherever no more symbols are erased
/// than the codeword has to spare.
pub proof fn lemma_reconstruct_symbols(
    f: Field,
    data: Seq<Additive>,
    erasures: Seq<bool>,
    codewords: Seq<Option<Additive>>,
    kappa: nat,
    nu: nat,
    j: int,
)
    requires
        spec_field_is_valid(f),
        spec_all_in_field(f, data),
        kappa <= nu <= f.spec_bits(),
        pow2(kappa) <= data.len(),
        spec_is_left_of_codeword(f, data, erasures, codewords, pow2(kappa), pow2(nu)),
        0 <= j < pow2(kappa),
    ensures
        spec_reconstruct_symbols(
            f,
            codewords,
            erasures,
            pow2(nu),
            pow2(kappa),
            spec_error_poly(f, erasures),
        )[j] == data[j],
{
    let k = pow2(kappa);
    let n = pow2(nu);
    lemma_power_in_field(f, nu);
    if kappa < nu {
        lemma_pow2_strictly_increases(kappa, nu);
    }
    let cw = spec_encode_low(f, data, k, n);
    if erasures[j] {
        let c = spec_padded(spec_payload_polynomial(f, data, k), n);
        let received = spec_densify(codewords);
        lemma_padded_polynomial(f, data, kappa, nu, 0);
        assert forall|i: int| 0 <= i < n && !erasures[i] implies (#[trigger] received[i]).0
            == spec_eval(f, nu, c, 0, i as u16) by {
            assert(codewords[i] == Some(cw[i]));
            lemma_encode_low_evaluates(f, data, kappa, nu, i);
            lemma_padded_polynomial(f, data, kappa, nu, i as u16);
        }
        lemma_decode_recovers(f, c, erasures, received, nu, k, k, j);
        lemma_encode_low_evaluates(f, data, kappa, nu, j);
        lemma_padded_polynomial(f, data, kappa, nu, j as u16);
        assert(cw[j] == data[j]);
    } else {
        assert(codewords[j] == Some(cw[j]));
    }
}

} // verus!
