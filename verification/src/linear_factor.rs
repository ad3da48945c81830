//! Multiplying a polynomial in the novel basis by a linear factor: the
//! coefficients of the product, its values and its derivative.
use crate::derivative::{
    lemma_lowest_set_bit, lemma_lowest_set_bit_of_odd_multiple, spec_get_or_zero,
    spec_lowest_set_bit,
};
use crate::derivative_laws::{
    lemma_eval_derivative_in_field, lemma_eval_derivative_is_linear, spec_eval_derivative,
};
use crate::evaluation::{
    lemma_eval_in_field, lemma_eval_is_linear, lemma_multiple_of_smaller_power, spec_all_in_field,
    spec_eval,
};
use crate::field::{spec_xor, Additive, Field};
use crate::field_laws::{
    lemma_log_exp, lemma_product, lemma_product_associates, lemma_product_commutes,
    lemma_product_distributes, lemma_product_unit, lemma_xor_sums, spec_product,
};
use crate::subspace::{lemma_subspace_in_field, spec_subspace};
use crate::tables::{lemma_field_size, lemma_xor_in_field, spec_field_is_valid};
use vstd::arithmetic::div_mod::{
    lemma_add_mod_noop, lemma_fundamental_div_mod, lemma_mod_self_0, lemma_small_mod,
};
use vstd::arithmetic::power2::{lemma2_to64, lemma_pow2_pos, lemma_pow2_unfold, pow2};
use vstd::prelude::*;

verus! {

/// The coefficients of the polynomial with the coefficients `c` times the
/// variable: coefficient `i` of the product is coefficient `i - 1` of `c`
/// plus, as the square of a subspace polynomial is the next one plus itself,
/// the coefficient at the place `i` with its trailing zeros set to one.
pub open spec fn spec_shifted(c: Seq<Additive>) -> Seq<Additive> {
    Seq::new(
        c.len(),
        |i: int|
            if i == 0 {
                Additive(0)
            } else {
                spec_xor(c[i - 1], spec_get_or_zero(c, i + spec_lowest_set_bit(i as nat) - 1))
            },
    )
}

/// The coefficients of the polynomial with the coefficients `c` times the
/// linear factor that vanishes at the point `e`.
pub open spec fn spec_times_point(f: Field, c: Seq<Additive>, e: u16) -> Seq<Additive> {
    Seq::new(
        c.len(),
        |i: int| Additive(spec_shifted(c)[i].0 ^ spec_product(f, e, c[i].0)),
    )
}

/// The product has its coefficients in the field.
pub proof fn lemma_times_point_in_field(f: Field, c: Seq<Additive>, e: u16)
    requires
        spec_field_is_valid(f),
        spec_all_in_field(f, c),
        e < f.spec_size(),
    ensures
        spec_all_in_field(f, spec_shifted(c)),
        spec_all_in_field(f, spec_times_point(f, c, e)),
{
    lemma_field_size(f);
    let m = spec_shifted(c);
    let w = spec_times_point(f, c, e);
    assert forall|i: int| 0 <= i < m.len() implies (#[trigger] m[i]).0 < f.spec_size() by {
        if i > 0 {
            let t = spec_get_or_zero(c, i + spec_lowest_set_bit(i as nat) - 1);
            assert(t.0 < f.spec_size());
            lemma_xor_in_field(f, c[i - 1].0, t.0);
        }
    }
    assert forall|i: int| 0 <= i < w.len() implies (#[trigger] w[i]).0 < f.spec_size() by {
        lemma_product(f, e, c[i].0);
        assert(m[i].0 < f.spec_size());
        lemma_xor_in_field(f, m[i].0, spec_product(f, e, c[i].0));
    }
}

/// The square of the value of a subspace polynomial is the value of the
/// next one plus the value itself.
pub proof fn lemma_subspace_square(f: Field, e: nat, x: u16)
    requires
        spec_field_is_valid(f),
        x < f.spec_size(),
    ensures
        spec_product(f, spec_subspace(f, e, x), spec_subspace(f, e, x)) == spec_subspace(
            f,
            e + 1,
            x,
        ) ^ spec_subspace(f, e, x),
{
    lemma_log_exp(f);
    let s = spec_subspace(f, e, x);
    lemma_subspace_in_field(f, e, x);
    lemma_product_distributes(f, s, s, 1);
    lemma_product_unit(f, s);
    let q = spec_product(f, s, s);
    lemma_xor_sums(q, s, 0, 0, 0, 0, 0, 0);
}

/// The coefficient of the product at the middle of a block of `2^(e + 1)`
/// places that starts at `b`: the last coefficients of the two halves of the
/// block.
proof fn lemma_shifted_at_middle(c: Seq<Additive>, e: nat, b: int)
    requires
        0 <= b,
        b % (pow2(e + 1) as int) == 0,
        b + pow2(e + 1) <= c.len(),
    ensures
        spec_shifted(c)[b + pow2(e)] == spec_xor(
            c[b + pow2(e) - 1],
            c[b + pow2(e + 1) - 1],
        ),
{
    lemma_pow2_pos(e);
    lemma_pow2_unfold(e + 1);
    let d = pow2(e) as int;
    let span = pow2(e + 1) as int;
    lemma_fundamental_div_mod(b, span);
    let q = b / span;
    assert(b + d == (2 * q + 1) * d && 0 <= q) by (nonlinear_arith)
        requires
            b == span * q + b % span,
            b % span == 0,
            span == 2 * d,
            b >= 0,
            d > 0,
    ;
    lemma_lowest_set_bit_of_odd_multiple((2 * q + 1) as nat, e);
    assert(((2 * q + 1) as nat) * pow2(e) == (b + d) as nat);
}

/// The sum that gives the polynomial of a block of the product by the
/// variable from the polynomials of its halves.
proof fn lemma_shifted_algebra(
    f: Field,
    x: u16,
    s: u16,
    sn: u16,
    pa: u16,
    pb: u16,
    a: u16,
    bb: u16,
    m0: u16,
)
    requires
        spec_field_is_valid(f),
        x < f.spec_size(),
        s < f.spec_size(),
        sn < f.spec_size(),
        pa < f.spec_size(),
        pb < f.spec_size(),
        a < f.spec_size(),
        bb < f.spec_size(),
        spec_product(f, s, s) == sn ^ s,
    ensures
        ((m0 ^ spec_product(f, x, pa)) ^ spec_product(f, a, s)) ^ spec_product(
            f,
            s,
            ((a ^ bb) ^ spec_product(f, x, pb)) ^ spec_product(f, bb, s),
        ) == (m0 ^ spec_product(f, x, pa ^ spec_product(f, s, pb))) ^ spec_product(f, bb, sn),
{
    let md = a ^ bb;
    let xa = spec_product(f, x, pa);
    let xb = spec_product(f, x, pb);
    let sb = spec_product(f, s, pb);
    let a_s = spec_product(f, a, s);
    let b_s = spec_product(f, bb, s);
    lemma_product(f, x, pb);
    lemma_product(f, bb, s);
    lemma_product(f, s, pb);
    lemma_xor_in_field(f, a, bb);
    lemma_xor_in_field(f, md, xb);
    lemma_product_distributes(f, s, md ^ xb, b_s);
    lemma_product_distributes(f, s, md, xb);
    lemma_product_distributes(f, s, a, bb);
    lemma_product_commutes(f, s, a);
    lemma_product_commutes(f, s, bb);
    assert(spec_product(f, s, (md ^ xb) ^ b_s) == ((a_s ^ b_s) ^ spec_product(f, s, xb))
        ^ spec_product(f, s, b_s));
    lemma_product_associates(f, s, x, pb);
    lemma_product_commutes(f, s, x);
    lemma_product_associates(f, x, s, pb);
    let xsb = spec_product(f, x, sb);
    assert(spec_product(f, s, xb) == xsb);
    lemma_product_commutes(f, s, b_s);
    lemma_product_associates(f, bb, s, s);
    lemma_product_distributes(f, bb, sn, s);
    let bs1 = spec_product(f, bb, sn);
    assert(spec_product(f, s, b_s) == bs1 ^ b_s);
    lemma_product_distributes(f, x, pa, sb);
    assert(spec_product(f, x, pa ^ sb) == xa ^ xsb);
    lemma_xor_sums(m0, xa, a_s, b_s, xsb, bs1, 0, 0);
}

/// The sum that gives the derivative of the polynomial of a block of the
/// product by the variable from the polynomials of its halves and their
/// derivatives.
proof fn lemma_shifted_derivative_algebra(
    f: Field,
    x: u16,
    s: u16,
    pa: u16,
    pb: u16,
    da: u16,
    db: u16,
    a: u16,
    bb: u16,
)
    requires
        spec_field_is_valid(f),
        x < f.spec_size(),
        s < f.spec_size(),
        pa < f.spec_size(),
        pb < f.spec_size(),
        da < f.spec_size(),
        db < f.spec_size(),
        a < f.spec_size(),
        bb < f.spec_size(),
    ensures
        ((((pa ^ spec_product(f, x, da)) ^ a) ^ spec_product(
            f,
            s,
            (pb ^ spec_product(f, x, db)) ^ bb,
        ))) ^ (((a ^ bb) ^ spec_product(f, x, pb)) ^ spec_product(f, bb, s)) == ((pa
            ^ spec_product(f, s, pb)) ^ spec_product(
            f,
            x,
            (da ^ spec_product(f, s, db)) ^ pb,
        )) ^ bb,
{
    let xda = spec_product(f, x, da);
    let xdb = spec_product(f, x, db);
    let xb = spec_product(f, x, pb);
    let sb = spec_product(f, s, pb);
    let sdb = spec_product(f, s, db);
    let b_s = spec_product(f, bb, s);
    lemma_product(f, x, db);
    lemma_product(f, s, db);
    lemma_xor_in_field(f, pb, xdb);
    lemma_product_distributes(f, s, pb ^ xdb, bb);
    lemma_product_distributes(f, s, pb, xdb);
    lemma_product_commutes(f, s, bb);
    lemma_product_associates(f, s, x, db);
    lemma_product_commutes(f, s, x);
    lemma_product_associates(f, x, s, db);
    let xsdb = spec_product(f, x, sdb);
    assert(spec_product(f, s, (pb ^ xdb) ^ bb) == (sb ^ xsdb) ^ b_s);
    lemma_xor_in_field(f, da, sdb);
    lemma_product_distributes(f, x, da ^ sdb, pb);
    lemma_product_distributes(f, x, da, sdb);
    assert(spec_product(f, x, (da ^ sdb) ^ pb) == (xda ^ xsdb) ^ xb);
    lemma_xor_sums(pa, xda, a, sb, xsdb, b_s, bb, xb);
}

/// The values of the product by the variable, block by block: the
/// polynomial of a block of the product is the coefficient that the block
/// takes over from the block before it, plus the variable times the
/// polynomial of the block, plus the last coefficient of the block times
/// the subspace polynomial of the level of the block.
pub proof fn lemma_shifted_evaluates(f: Field, c: Seq<Additive>, lam: nat, b: int, x: u16)
    requires
        spec_field_is_valid(f),
        spec_all_in_field(f, c),
        0 <= b,
        b % (pow2(lam) as int) == 0,
        b + pow2(lam) <= c.len(),
        x < f.spec_size(),
    ensures
        spec_eval(f, lam, spec_shifted(c), b, x) == (spec_shifted(c)[b].0 ^ spec_product(
            f,
            x,
            spec_eval(f, lam, c, b, x),
        )) ^ spec_product(f, c[b + pow2(lam) - 1].0, spec_subspace(f, lam, x)),
    decreases lam,
{
    lemma_pow2_pos(lam);
    lemma_log_exp(f);
    let m = spec_shifted(c);
    lemma_times_point_in_field(f, c, 0);
    if lam == 0 {
        lemma2_to64();
        let m0 = m[b].0;
        let a = c[b].0;
        lemma_product_commutes(f, x, a);
        let p = spec_product(f, x, a);
        lemma_xor_sums(m0, p, 0, 0, 0, 0, 0, 0);
    } else {
        let e = (lam - 1) as nat;
        let d = pow2(e) as int;
        lemma_pow2_unfold(lam);
        lemma_pow2_pos(e);
        lemma_multiple_of_smaller_power(b, e, lam);
        lemma_mod_self_0(d);
        lemma_add_mod_noop(b, d, d);
        lemma_small_mod(0, d as nat);
        lemma_shifted_evaluates(f, c, e, b, x);
        lemma_shifted_evaluates(f, c, e, b + d, x);
        lemma_shifted_at_middle(c, e, b);
        let s = spec_subspace(f, e, x);
        let sn = spec_subspace(f, lam, x);
        lemma_subspace_in_field(f, e, x);
        lemma_subspace_in_field(f, lam, x);
        let pa = spec_eval(f, e, c, b, x);
        let pb = spec_eval(f, e, c, b + d, x);
        lemma_eval_in_field(f, e, c, b, x);
        lemma_eval_in_field(f, e, c, b + d, x);
        let a = c[b + d - 1].0;
        let bb = c[b + 2 * d - 1].0;
        let m0 = m[b].0;
        let md = m[b + d].0;
        assert(md == a ^ bb);
        lemma_subspace_square(f, e, x);
        lemma_shifted_algebra(f, x, s, sn, pa, pb, a, bb, m0);
    }
}

/// The derivative of the product by the variable, block by block: the
/// derivative of the polynomial of a block of the product is the polynomial
/// of the block, plus the variable times its derivative, plus the last
/// coefficient of the block.
pub proof fn lemma_shifted_derivative(f: Field, c: Seq<Additive>, lam: nat, b: int, x: u16)
    requires
        spec_field_is_valid(f),
        spec_all_in_field(f, c),
        0 <= b,
        b % (pow2(lam) as int) == 0,
        b + pow2(lam) <= c.len(),
        x < f.spec_size(),
    ensures
        spec_eval_derivative(f, lam, spec_shifted(c), b, x) == (spec_eval(f, lam, c, b, x)
            ^ spec_product(f, x, spec_eval_derivative(f, lam, c, b, x))) ^ c[b + pow2(lam)
            - 1].0,
    decreases lam,
{
    lemma_pow2_pos(lam);
    lemma_log_exp(f);
    let m = spec_shifted(c);
    lemma_times_point_in_field(f, c, 0);
    if lam == 0 {
        lemma2_to64();
        let a = c[b].0;
        lemma_xor_sums(a, 0, 0, 0, 0, 0, 0, 0);
    } else {
        let e = (lam - 1) as nat;
        let d = pow2(e) as int;
        lemma_pow2_unfold(lam);
        lemma_pow2_pos(e);
        lemma_multiple_of_smaller_power(b, e, lam);
        lemma_mod_self_0(d);
        lemma_add_mod_noop(b, d, d);
        lemma_small_mod(0, d as nat);
        lemma_shifted_derivative(f, c, e, b, x);
        lemma_shifted_derivative(f, c, e, b + d, x);
        lemma_shifted_evaluates(f, c, e, b + d, x);
        lemma_shifted_at_middle(c, e, b);
        let s = spec_subspace(f, e, x);
        lemma_subspace_in_field(f, e, x);
        let pa = spec_eval(f, e, c, b, x);
        let pb = spec_eval(f, e, c, b + d, x);
        let da = spec_eval_derivative(f, e, c, b, x);
        let db = spec_eval_derivative(f, e, c, b + d, x);
        lemma_eval_in_field(f, e, c, b, x);
        lemma_eval_in_field(f, e, c, b + d, x);
        lemma_eval_derivative_in_field(f, e, c, b, x);
        lemma_eval_derivative_in_field(f, e, c, b + d, x);
        let a = c[b + d - 1].0;
        let bb = c[b + 2 * d - 1].0;
        let md = m[b + d].0;
        assert(md == a ^ bb);
        lemma_shifted_derivative_algebra(f, x, s, pa, pb, da, db, a, bb);
    }
}

/// The lowest set bit of a number that is not zero is not zero.
pub proof fn lemma_lowest_set_bit_is_positive(i: nat)
    requires
        i >= 1,
    ensures
        spec_lowest_set_bit(i) >= 1,
{
    lemma_lowest_set_bit(i);
}

/// Where the coefficients of a polynomial vanish from place `bound` on,
/// those of its product by a linear factor vanish from the next place on.
pub proof fn lemma_times_point_degree(f: Field, c: Seq<Additive>, e: u16, bound: int, i: int)
    requires
        spec_field_is_valid(f),
        0 <= bound < i < c.len(),
        forall|j: int| bound <= j < c.len() ==> (#[trigger] c[j]).0 == 0,
    ensures
        spec_times_point(f, c, e)[i].0 == 0,
{
    lemma_lowest_set_bit_is_positive(i as nat);
    let t = spec_get_or_zero(c, i + spec_lowest_set_bit(i as nat) - 1);
    assert(t.0 == 0);
    assert(c[i - 1].0 == 0);
    assert(c[i].0 == 0);
    lemma_xor_sums(0, 0, 0, 0, 0, 0, 0, 0);
}

/// The values and the derivative of the product of a polynomial with
/// `2^mu` coefficients, the last of which is zero, by the linear factor
/// that vanishes at the point `e`: the value is the value of the factor
/// times the value of the polynomial, and the derivative follows the
/// product rule.
pub proof fn lemma_times_point_evaluates(f: Field, c: Seq<Additive>, mu: nat, e: u16, x: u16)
    requires
        spec_field_is_valid(f),
        spec_all_in_field(f, c),
        c.len() == pow2(mu),
        c[pow2(mu) - 1].0 == 0,
        e < f.spec_size(),
        x < f.spec_size(),
    ensures
        spec_eval(f, mu, spec_times_point(f, c, e), 0, x) == spec_product(
            f,
            x ^ e,
            spec_eval(f, mu, c, 0, x),
        ),
        spec_eval_derivative(f, mu, spec_times_point(f, c, e), 0, x) == spec_eval(f, mu, c, 0, x)
            ^ spec_product(f, x ^ e, spec_eval_derivative(f, mu, c, 0, x)),
{
    lemma_pow2_pos(mu);
    lemma_log_exp(f);
    lemma_small_mod(0, pow2(mu));
    let m = spec_shifted(c);
    let w = spec_times_point(f, c, e);
    lemma_times_point_in_field(f, c, e);
    lemma_shifted_evaluates(f, c, mu, 0, x);
    lemma_shifted_derivative(f, c, mu, 0, x);
    assert forall|i: int| 0 <= i < 0 + pow2(mu) implies (#[trigger] w[i]).0 == m[i - 0 + 0].0
        ^ spec_product(f, e, c[i - 0 + 0].0) by {}
    lemma_eval_is_linear(f, mu, m, 0, c, 0, w, 0, e, x);
    lemma_eval_derivative_is_linear(f, mu, m, 0, c, 0, w, 0, e, x);
    let p = spec_eval(f, mu, c, 0, x);
    let dp = spec_eval_derivative(f, mu, c, 0, x);
    lemma_eval_in_field(f, mu, c, 0, x);
    lemma_eval_derivative_in_field(f, mu, c, 0, x);
    lemma_product_distributes(f, p, x, e);
    lemma_product_distributes(f, dp, x, e);
    let xp = spec_product(f, x, p);
    let ep = spec_product(f, e, p);
    let xd = spec_product(f, x, dp);
    let ed = spec_product(f, e, dp);
    lemma_xor_sums(xp, ep, 0, 0, 0, 0, 0, 0);
    lemma_xor_sums(p, xd, ed, 0, 0, 0, 0, 0);
}

} // verus!
