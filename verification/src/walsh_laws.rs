//! The Walsh-Hadamard transform applied twice scales by its size.
use crate::blocks::{
    lemma_block_partner, lemma_block_position, lemma_pow2_blocks, spec_in_low_half,
};
use crate::field::{lemma_fold, Field, Logarithm};
use crate::params::lemma_smaller_power_is_at_most_half;
use crate::tables::lemma_field_size;
use crate::walsh::{lemma_walsh_len, spec_walsh, spec_walsh_layer, spec_walsh_upto};
use vstd::arithmetic::div_mod::{
    lemma_add_mod_noop, lemma_fundamental_div_mod, lemma_fundamental_div_mod_converse,
    lemma_mod_multiples_vanish, lemma_mul_mod_noop_right, lemma_sub_mod_noop,
};
use vstd::arithmetic::power2::is_pow2;
use vstd::prelude::*;

verus! {

/// The residue modulo the `ONEMASK` of the field `f` that a logarithm stands
/// for.
pub open spec fn spec_residue(f: Field, l: Logarithm) -> int {
    (l.0 as int) % (f.spec_onemask() as int)
}

/// Whether the first `size` elements of `x` are logarithms of the field `f`.
pub open spec fn spec_in_field(f: Field, x: Seq<Logarithm>, size: nat) -> bool {
    forall|t: int| 0 <= t < size ==> (#[trigger] x[t]).0 <= f.spec_onemask()
}

/// The position that a butterfly of stride `d` pairs with position `t`.
pub open spec fn spec_partner(t: int, d: int) -> int {
    if spec_in_low_half(t, d) {
        t + d
    } else {
        t - d
    }
}

/// What a butterfly of stride `d` leaves at position `t`, before it is
/// reduced: the sum of the pair in the low half and the difference in the
/// high half.
pub open spec fn spec_butterfly(x: Seq<Logarithm>, t: int, d: int) -> int {
    if spec_in_low_half(t, d) {
        x[t].0 + x[t + d].0
    } else {
        x[t - d].0 - x[t].0
    }
}

/// Whether `x` and `y` stand for the same residues in their first `size`
/// places.
pub open spec fn spec_congruent(f: Field, x: Seq<Logarithm>, y: Seq<Logarithm>, size: nat) -> bool {
    &&& x.len() == y.len()
    &&& forall|t: int| 0 <= t < size ==> spec_residue(f, #[trigger] x[t]) == spec_residue(f, y[t])
}

/// Whether `y` stands for `c` times the residues of `x` in its first `size`
/// places.
pub open spec fn spec_scaled(
    f: Field,
    x: Seq<Logarithm>,
    y: Seq<Logarithm>,
    c: int,
    size: nat,
) -> bool {
    &&& x.len() == y.len()
    &&& forall|t: int|
        0 <= t < size ==> spec_residue(f, #[trigger] y[t]) == (c * x[t].0) % (
        f.spec_onemask() as int)
}

/// Sums and differences of congruent numbers are congruent.
pub proof fn lemma_mod_add(m: int, a: int, b: int, c: int, d: int)
    requires
        m > 0,
        a % m == c % m,
        b % m == d % m,
    ensures
        (a + b) % m == (c + d) % m,
        (a - b) % m == (c - d) % m,
{
    lemma_add_mod_noop(a, b, m);
    lemma_add_mod_noop(c, d, m);
    lemma_sub_mod_noop(a, b, m);
    lemma_sub_mod_noop(c, d, m);
}

/// A layer leaves at every position a logarithm of the field that stands for
/// the residue of its butterfly.
pub proof fn lemma_layer_residue(f: Field, x: Seq<Logarithm>, size: nat, d: nat, m: nat, t: int)
    requires
        d > 0,
        size == m * (2 * d),
        size <= x.len(),
        0 <= t < size,
        spec_in_field(f, x, size),
    ensures
        0 <= spec_partner(t, d as int) < size,
        spec_in_low_half(spec_partner(t, d as int), d as int) != spec_in_low_half(t, d as int),
        spec_partner(spec_partner(t, d as int), d as int) == t,
        spec_walsh_layer(f, x, size, d)[t].0 <= f.spec_onemask(),
        spec_residue(f, spec_walsh_layer(f, x, size, d)[t]) == spec_butterfly(x, t, d as int) % (
        f.spec_onemask() as int),
{
    lemma_block_partner(t, d as int, m as int);
    lemma_field_size(f);
    let mask = f.spec_onemask() as int;
    let p = spec_partner(t, d as int);
    assert(x[t].0 <= mask && x[p].0 <= mask);
    if spec_in_low_half(t, d as int) {
        lemma_fold(f, x[t].0 + x[t + d].0);
    } else {
        let s = x[t - d].0 + mask - x[t].0;
        assert(f.spec_index(x[t].0) == x[t].0);
        lemma_fold(f, s);
        lemma_mod_multiples_vanish(1, x[t - d].0 - x[t].0, mask);
    }
}

/// A layer takes logarithms of the field to logarithms of the field.
pub proof fn lemma_layer_in_field(f: Field, x: Seq<Logarithm>, size: nat, d: nat)
    requires
        is_pow2(size as int),
        is_pow2(d as int),
        d < size <= x.len(),
        spec_in_field(f, x, size),
    ensures
        spec_in_field(f, spec_walsh_layer(f, x, size, d), size),
{
    let m = lemma_pow2_blocks(d, size);
    let lx = spec_walsh_layer(f, x, size, d);
    assert forall|t: int| 0 <= t < size implies (#[trigger] lx[t]).0 <= f.spec_onemask() by {
        lemma_layer_residue(f, x, size, d, m, t);
    }
}

/// The layers below a stride take logarithms of the field to logarithms of
/// the field.
pub proof fn lemma_upto_in_field(f: Field, x: Seq<Logarithm>, size: nat, d: nat)
    requires
        is_pow2(size as int),
        is_pow2(d as int),
        d <= size <= x.len(),
        spec_in_field(f, x, size),
    ensures
        spec_in_field(f, spec_walsh_upto(f, x, size, d), size),
        spec_walsh_upto(f, x, size, d).len() == x.len(),
    decreases d,
{
    reveal(is_pow2);
    lemma_walsh_len(f, x, size, d);
    if d > 1 {
        lemma_smaller_power_is_at_most_half(d / 2, d);
        lemma_upto_in_field(f, x, size, d / 2);
        lemma_layer_in_field(f, spec_walsh_upto(f, x, size, d / 2), size, d / 2);
    }
}

/// A layer takes congruent vectors to congruent vectors.
pub proof fn lemma_layer_congruent(
    f: Field,
    x: Seq<Logarithm>,
    y: Seq<Logarithm>,
    size: nat,
    d: nat,
)
    requires
        is_pow2(size as int),
        is_pow2(d as int),
        d < size <= x.len(),
        spec_in_field(f, x, size),
        spec_in_field(f, y, size),
        spec_congruent(f, x, y, size),
    ensures
        spec_congruent(f, spec_walsh_layer(f, x, size, d), spec_walsh_layer(f, y, size, d), size),
{
    let m = lemma_pow2_blocks(d, size);
    let mask = f.spec_onemask() as int;
    let lx = spec_walsh_layer(f, x, size, d);
    let ly = spec_walsh_layer(f, y, size, d);
    assert forall|t: int| 0 <= t < size implies spec_residue(f, #[trigger] lx[t]) == spec_residue(
        f,
        ly[t],
    ) by {
        lemma_layer_residue(f, x, size, d, m, t);
        lemma_layer_residue(f, y, size, d, m, t);
        let p = spec_partner(t, d as int);
        assert(spec_residue(f, x[t]) == spec_residue(f, y[t]));
        assert(spec_residue(f, x[p]) == spec_residue(f, y[p]));
        if spec_in_low_half(t, d as int) {
            lemma_mod_add(mask, x[t].0 as int, x[p].0 as int, y[t].0 as int, y[p].0 as int);
        } else {
            lemma_mod_add(mask, x[p].0 as int, x[t].0 as int, y[p].0 as int, y[t].0 as int);
        }
    }
}

/// A layer applied twice doubles every residue.
proof fn lemma_layer_twice(f: Field, x: Seq<Logarithm>, size: nat, d: nat)
    requires
        is_pow2(size as int),
        is_pow2(d as int),
        d < size <= x.len(),
        spec_in_field(f, x, size),
    ensures
        spec_scaled(f, x, spec_walsh_layer(f, spec_walsh_layer(f, x, size, d), size, d), 2, size),
{
    let m = lemma_pow2_blocks(d, size);
    let mask = f.spec_onemask() as int;
    let once = spec_walsh_layer(f, x, size, d);
    let twice = spec_walsh_layer(f, once, size, d);
    lemma_layer_in_field(f, x, size, d);
    assert forall|t: int| 0 <= t < size implies spec_residue(f, #[trigger] twice[t]) == (2
        * x[t].0) % mask by {
        let p = spec_partner(t, d as int);
        lemma_layer_residue(f, once, size, d, m, t);
        lemma_layer_residue(f, x, size, d, m, t);
        lemma_layer_residue(f, x, size, d, m, p);
        if spec_in_low_half(t, d as int) {
            // (x[t] + x[p]) + (x[t] - x[p])
            lemma_mod_add(
                mask,
                once[t].0 as int,
                once[p].0 as int,
                x[t].0 + x[p].0,
                x[t].0 - x[p].0,
            );
        } else {
            // (x[p] + x[t]) - (x[p] - x[t])
            lemma_mod_add(
                mask,
                once[p].0 as int,
                once[t].0 as int,
                x[p].0 + x[t].0,
                x[p].0 - x[t].0,
            );
        }
    }
}

/// Whether position `q * 2d + r` lies in the low half of its block of
/// `2 * (m * 2d)` depends on `q` alone.
proof fn lemma_low_half_of_block(q: int, r: int, d: int, m: int)
    requires
        d >= 1,
        m >= 1,
        q >= 0,
        0 <= r < 2 * d,
    ensures
        spec_in_low_half(q * (2 * d) + r, m * (2 * d)) <==> q % (2 * m) < m,
{
    let e = m * (2 * d);
    let t = q * (2 * d) + r;
    let big = q / (2 * m);
    let s = q % (2 * m);
    lemma_fundamental_div_mod(q, 2 * m);
    let rest = s * (2 * d) + r;
    assert(t == big * (2 * e) + rest && 0 <= rest < 2 * e && (rest < e <==> s < m))
        by (nonlinear_arith)
        requires
            q == (2 * m) * big + s,
            0 <= s < 2 * m,
            0 <= r < 2 * d,
            e == m * (2 * d),
            t == q * (2 * d) + r,
            rest == s * (2 * d) + r,
            d >= 1,
            m >= 1,
    ;
    lemma_fundamental_div_mod_converse(t, 2 * e, big, rest);
}

/// The partner of a position under one stride lies in the same half as the
/// position under any other stride.
pub proof fn lemma_partner_keeps_other_half(t: int, d: nat, e: nat, size: nat)
    requires
        is_pow2(d as int),
        is_pow2(e as int),
        is_pow2(size as int),
        d != e,
        d < size,
        e < size,
        0 <= t < size,
    ensures
        spec_in_low_half(spec_partner(t, d as int), e as int) == spec_in_low_half(t, e as int),
{
    reveal(is_pow2);
    let p = spec_partner(t, d as int);
    let md = lemma_pow2_blocks(d, size);
    lemma_block_partner(t, d as int, md as int);
    if d > e {
        let m = lemma_pow2_blocks(e, d);
        if spec_in_low_half(t, d as int) {
            lemma_mod_multiples_vanish(m as int, t, 2 * e as int);
            assert((2 * e) * (m as int) + t == t + d) by (nonlinear_arith)
                requires
                    d == m * (2 * e),
            ;
        } else {
            lemma_mod_multiples_vanish(-(m as int), t, 2 * e as int);
            assert((2 * e) * (-(m as int)) + t == t - d) by (nonlinear_arith)
                requires
                    d == m * (2 * e),
            ;
        }
    } else {
        let m = lemma_pow2_blocks(d, e);
        let q = t / (2 * d as int);
        let r = t % (2 * d as int);
        lemma_fundamental_div_mod(t, 2 * d as int);
        assert(t == q * (2 * d) + r && q >= 0) by (nonlinear_arith)
            requires
                t == (2 * d as int) * q + r,
                0 <= r < 2 * d,
                t >= 0,
                d >= 1,
        ;
        lemma_block_position(t, d as int, q, r);
        let rp = if r < d {
            r + d
        } else {
            r - d
        };
        assert(p == q * (2 * d) + rp);
        lemma_low_half_of_block(q, r, d as int, m as int);
        lemma_low_half_of_block(q, rp, d as int, m as int);
    }
}

/// What a butterfly of stride `e` and then one of stride `d` leave at
/// position `t`, before they are reduced.
pub open spec fn spec_two_butterflies(x: Seq<Logarithm>, t: int, e: int, d: int) -> int {
    let p = spec_partner(t, d);
    if spec_in_low_half(t, d) {
        spec_butterfly(x, t, e) + spec_butterfly(x, p, e)
    } else {
        spec_butterfly(x, p, e) - spec_butterfly(x, t, e)
    }
}

/// Two layers leave at every position the residue of their two butterflies.
proof fn lemma_two_layers_residue(f: Field, x: Seq<Logarithm>, size: nat, e: nat, d: nat, t: int)
    requires
        is_pow2(size as int),
        is_pow2(d as int),
        is_pow2(e as int),
        d < size,
        e < size,
        size <= x.len(),
        0 <= t < size,
        spec_in_field(f, x, size),
    ensures
        spec_residue(f, spec_walsh_layer(f, spec_walsh_layer(f, x, size, e), size, d)[t])
            == spec_two_butterflies(x, t, e as int, d as int) % (f.spec_onemask() as int),
{
    let md = lemma_pow2_blocks(d, size);
    let me = lemma_pow2_blocks(e, size);
    let xe = spec_walsh_layer(f, x, size, e);
    let p = spec_partner(t, d as int);
    lemma_layer_in_field(f, x, size, e);
    lemma_layer_residue(f, xe, size, d, md, t);
    lemma_layer_residue(f, x, size, e, me, t);
    lemma_layer_residue(f, x, size, e, me, p);
    let bt = spec_butterfly(x, t, e as int);
    let bp = spec_butterfly(x, p, e as int);
    if spec_in_low_half(t, d as int) {
        lemma_mod_add(f.spec_onemask() as int, xe[t].0 as int, xe[p].0 as int, bt, bp);
    } else {
        lemma_mod_add(f.spec_onemask() as int, xe[p].0 as int, xe[t].0 as int, bp, bt);
    }
}

/// Two butterflies of different strides leave the same whichever comes
/// first.
proof fn lemma_two_butterflies_commute(x: Seq<Logarithm>, size: nat, d: nat, e: nat, t: int)
    requires
        is_pow2(size as int),
        is_pow2(d as int),
        is_pow2(e as int),
        d != e,
        d < size,
        e < size,
        size <= x.len(),
        0 <= t < size,
    ensures
        spec_two_butterflies(x, t, e as int, d as int) == spec_two_butterflies(
            x,
            t,
            d as int,
            e as int,
        ),
{
    let md = lemma_pow2_blocks(d, size);
    let me = lemma_pow2_blocks(e, size);
    let pd = spec_partner(t, d as int);
    let pe = spec_partner(t, e as int);
    lemma_block_partner(t, d as int, md as int);
    lemma_block_partner(t, e as int, me as int);
    lemma_partner_keeps_other_half(t, d, e, size);
    lemma_partner_keeps_other_half(t, e, d, size);
    lemma_block_partner(pd, e as int, me as int);
    lemma_block_partner(pe, d as int, md as int);
    assert(spec_partner(pe, d as int) == spec_partner(pd, e as int));
}

/// Layers of different strides can change places.
proof fn lemma_layers_commute(f: Field, x: Seq<Logarithm>, size: nat, d: nat, e: nat)
    requires
        is_pow2(size as int),
        is_pow2(d as int),
        is_pow2(e as int),
        d != e,
        d < size,
        e < size,
        size <= x.len(),
        spec_in_field(f, x, size),
    ensures
        spec_congruent(
            f,
            spec_walsh_layer(f, spec_walsh_layer(f, x, size, e), size, d),
            spec_walsh_layer(f, spec_walsh_layer(f, x, size, d), size, e),
            size,
        ),
{
    let xed = spec_walsh_layer(f, spec_walsh_layer(f, x, size, e), size, d);
    let xde = spec_walsh_layer(f, spec_walsh_layer(f, x, size, d), size, e);
    assert forall|t: int| 0 <= t < size implies spec_residue(f, #[trigger] xed[t])
        == spec_residue(f, xde[t]) by {
        lemma_two_layers_residue(f, x, size, e, d, t);
        lemma_two_layers_residue(f, x, size, d, e, t);
        lemma_two_butterflies_commute(x, size, d, e, t);
    }
}

/// Congruence of vectors is transitive.
proof fn lemma_congruent_trans(
    f: Field,
    x: Seq<Logarithm>,
    y: Seq<Logarithm>,
    z: Seq<Logarithm>,
    size: nat,
)
    requires
        spec_congruent(f, x, y, size),
        spec_congruent(f, y, z, size),
    ensures
        spec_congruent(f, x, z, size),
{
    assert forall|t: int| 0 <= t < size implies spec_residue(f, #[trigger] x[t]) == spec_residue(
        f,
        z[t],
    ) by {
        assert(spec_residue(f, x[t]) == spec_residue(f, y[t]));
        assert(spec_residue(f, y[t]) == spec_residue(f, z[t]));
    }
}

/// A layer can change places with all the layers of smaller stride.
proof fn lemma_layer_commutes_with_upto(f: Field, x: Seq<Logarithm>, size: nat, e: nat, d: nat)
    requires
        is_pow2(size as int),
        is_pow2(e as int),
        is_pow2(d as int),
        d <= e < size <= x.len(),
        spec_in_field(f, x, size),
    ensures
        spec_congruent(
            f,
            spec_walsh_upto(f, spec_walsh_layer(f, x, size, e), size, d),
            spec_walsh_layer(f, spec_walsh_upto(f, x, size, d), size, e),
            size,
        ),
    decreases d,
{
    reveal(is_pow2);
    let xe = spec_walsh_layer(f, x, size, e);
    lemma_layer_in_field(f, x, size, e);
    if d > 1 {
        let h = d / 2;
        lemma_smaller_power_is_at_most_half(h, d);
        let a = spec_walsh_upto(f, xe, size, h);
        let y = spec_walsh_upto(f, x, size, h);
        let b = spec_walsh_layer(f, y, size, e);
        lemma_upto_in_field(f, x, size, h);
        lemma_upto_in_field(f, xe, size, h);
        lemma_layer_in_field(f, y, size, e);
        // the layers below h first, by induction
        lemma_layer_commutes_with_upto(f, x, size, e, h);
        lemma_layer_congruent(f, a, b, size, h);
        // then the layer of stride h itself
        lemma_layers_commute(f, y, size, e, h);
        lemma_congruent_trans(
            f,
            spec_walsh_layer(f, a, size, h),
            spec_walsh_layer(f, b, size, h),
            spec_walsh_layer(f, spec_walsh_layer(f, y, size, h), size, e),
            size,
        );
    }
}

/// The layers below stride `d`, applied twice over, scale every residue by
/// `d`.
proof fn lemma_walsh_twice_upto(f: Field, x: Seq<Logarithm>, size: nat, d: nat)
    requires
        is_pow2(size as int),
        is_pow2(d as int),
        d <= size <= x.len(),
        spec_in_field(f, x, size),
    ensures
        spec_scaled(
            f,
            x,
            spec_walsh_upto(f, spec_walsh_upto(f, x, size, d), size, d),
            d as int,
            size,
        ),
    decreases d,
{
    reveal(is_pow2);
    lemma_field_size(f);
    let mask = f.spec_onemask() as int;
    if d > 1 {
        let h = d / 2;
        lemma_smaller_power_is_at_most_half(h, d);
        let y = spec_walsh_upto(f, x, size, h);
        let once = spec_walsh_layer(f, y, size, h);
        lemma_upto_in_field(f, x, size, h);
        lemma_layer_in_field(f, y, size, h);
        lemma_upto_in_field(f, once, size, h);
        lemma_upto_in_field(f, y, size, h);
        assert(spec_walsh_upto(f, x, size, d) == once);
        let inner = spec_walsh_upto(f, once, size, h);
        let twice = spec_walsh_layer(f, inner, size, h);
        assert(spec_walsh_upto(f, once, size, d) == twice);
        // move the layer of stride h inwards, next to its twin
        let z = spec_walsh_upto(f, y, size, h);
        let moved = spec_walsh_layer(f, z, size, h);
        lemma_layer_commutes_with_upto(f, y, size, h, h);
        lemma_layer_in_field(f, z, size, h);
        lemma_layer_congruent(f, inner, moved, size, h);
        let doubled = spec_walsh_layer(f, moved, size, h);
        // the twins double, the rest scales by h, by induction
        lemma_layer_twice(f, z, size, h);
        lemma_walsh_twice_upto(f, x, size, h);
        assert forall|t: int| 0 <= t < size implies spec_residue(f, #[trigger] twice[t]) == (d
            * x[t].0) % mask by {
            assert(spec_residue(f, twice[t]) == spec_residue(f, doubled[t]));
            assert(spec_residue(f, doubled[t]) == (2 * z[t].0) % mask);
            assert(spec_residue(f, z[t]) == (h * x[t].0) % mask);
            lemma_mul_mod_noop_right(2, z[t].0 as int, mask);
            lemma_mul_mod_noop_right(2, h * x[t].0, mask);
            assert(2 * (h * x[t].0) == d * x[t].0) by (nonlinear_arith)
                requires
                    d == 2 * h,
            ;
        }
    } else {
        assert forall|t: int| 0 <= t < size implies spec_residue(f, #[trigger] x[t]) == (d
            * x[t].0) % mask by {
            assert(d * x[t].0 == x[t].0) by (nonlinear_arith)
                requires
                    d == 1,
            ;
        }
    }
}

/// The transform does not touch what lies behind the first `size` elements.
pub proof fn lemma_walsh_keeps_tail(f: Field, x: Seq<Logarithm>, size: nat, d: nat, t: int)
    requires
        size <= t < x.len(),
    ensures
        spec_walsh_upto(f, x, size, d)[t] == x[t],
    decreases d,
{
    if d > 1 {
        lemma_walsh_keeps_tail(f, x, size, d / 2, t);
        lemma_walsh_len(f, x, size, d / 2);
    }
}

/// The Walsh-Hadamard transform of size `size`, applied twice to logarithms
/// of the field `f`, scales every residue modulo `ONEMASK` among the first
/// `size` by `size`, and leaves what lies behind them as it is.
pub proof fn lemma_walsh_involution(f: Field, x: Seq<Logarithm>, size: nat)
    requires
        is_pow2(size as int),
        size <= x.len(),
        spec_in_field(f, x, size),
    ensures
        spec_walsh(f, spec_walsh(f, x, size), size).len() == x.len(),
        forall|t: int|
            0 <= t < size ==> spec_residue(
                f,
                #[trigger] spec_walsh(f, spec_walsh(f, x, size), size)[t],
            ) == (size * x[t].0) % (f.spec_onemask() as int),
        forall|t: int|
            size <= t < x.len() ==> #[trigger] spec_walsh(f, spec_walsh(f, x, size), size)[t]
                == x[t],
{
    lemma_walsh_twice_upto(f, x, size, size);
    let once = spec_walsh(f, x, size);
    lemma_walsh_len(f, x, size, size);
    lemma_walsh_len(f, once, size, size);
    assert forall|t: int| size <= t < x.len() implies #[trigger] spec_walsh(f, once, size)[t]
        == x[t] by {
        lemma_walsh_keeps_tail(f, x, size, size, t);
        lemma_walsh_keeps_tail(f, once, size, size, t);
    }
}

/// Over the whole field the transform is its own inverse on residues, as
/// the size of the field is one more than `ONEMASK`.
pub proof fn lemma_walsh_involution_over_field(f: Field, x: Seq<Logarithm>)
    requires
        x.len() >= f.spec_size(),
        spec_in_field(f, x, f.spec_size()),
    ensures
        forall|t: int|
            0 <= t < f.spec_size() ==> spec_residue(
                f,
                #[trigger] spec_walsh(f, spec_walsh(f, x, f.spec_size()), f.spec_size())[t],
            ) == spec_residue(f, x[t]),
{
    lemma_field_size(f);
    crate::util::lemma_pow2_is_pow2(f.spec_bits() as nat);
    let size = f.spec_size();
    let mask = f.spec_onemask() as int;
    lemma_walsh_involution(f, x, size);
    assert forall|t: int| 0 <= t < size implies spec_residue(
        f,
        #[trigger] spec_walsh(f, spec_walsh(f, x, size), size)[t],
    ) == spec_residue(f, x[t]) by {
        let a = x[t].0 as int;
        lemma_mod_multiples_vanish(a, a, mask);
        assert(size * a == mask * a + a) by (nonlinear_arith)
            requires
                size == mask + 1,
        ;
    }
}

} // verus!
