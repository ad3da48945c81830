//! The Walsh-Hadamard transform over the integers, which the transform on
//! logarithms follows modulo `ONEMASK`: it is linear, and it turns the
//! exchange of the two halves of every block into a change of sign.
use crate::blocks::{lemma_block_partner, lemma_pow2_blocks, spec_in_low_half};
use crate::field::{Field, Logarithm};
use crate::params::lemma_smaller_power_is_at_most_half;
use crate::tables::lemma_field_size;
use crate::walsh::spec_walsh_upto;
use crate::walsh_laws::{
    lemma_layer_residue, lemma_mod_add, lemma_partner_keeps_other_half, lemma_upto_in_field,
    spec_in_field, spec_partner, spec_residue,
};
use vstd::arithmetic::power2::is_pow2;
use vstd::prelude::*;

verus! {

/// What the butterflies of the strides below `d` leave at position `t` of
/// the numbers `x`, with nothing reduced.
pub open spec fn spec_hadamard(x: Seq<int>, d: nat, t: int) -> int
    decreases d,
{
    if d <= 1 {
        x[t]
    } else {
        let h = (d / 2) as int;
        if spec_in_low_half(t, h) {
            spec_hadamard(x, d / 2, t) + spec_hadamard(x, d / 2, t + h)
        } else {
            spec_hadamard(x, d / 2, t - h) - spec_hadamard(x, d / 2, t)
        }
    }
}

/// The numbers that the logarithms `x` hold.
pub open spec fn spec_ints(x: Seq<Logarithm>) -> Seq<int> {
    Seq::new(x.len(), |i: int| x[i].0 as int)
}

/// The half of a power of two above one is a power of two below it, and the
/// partner of a position under that stride is a position.
pub proof fn lemma_half_stride(size: nat, d: nat, t: int)
    requires
        is_pow2(size as int),
        is_pow2(d as int),
        1 < d <= size,
        0 <= t < size,
    ensures
        is_pow2((d / 2) as int),
        1 <= d / 2 < size,
        d == 2 * (d / 2),
        0 <= spec_partner(t, (d / 2) as int) < size,
        spec_in_low_half(spec_partner(t, (d / 2) as int), (d / 2) as int) != spec_in_low_half(
            t,
            (d / 2) as int,
        ),
        spec_partner(spec_partner(t, (d / 2) as int), (d / 2) as int) == t,
{
    reveal(is_pow2);
    let h = d / 2;
    lemma_smaller_power_is_at_most_half(h, d);
    let m = lemma_pow2_blocks(h, size);
    lemma_block_partner(t, h as int, m as int);
}

/// The transform on logarithms of the field follows the transform over the
/// integers modulo `ONEMASK`.
pub proof fn lemma_walsh_is_hadamard(f: Field, x: Seq<Logarithm>, size: nat, d: nat, t: int)
    requires
        is_pow2(size as int),
        is_pow2(d as int),
        d <= size <= x.len(),
        spec_in_field(f, x, size),
        0 <= t < size,
    ensures
        spec_residue(f, spec_walsh_upto(f, x, size, d)[t]) == spec_hadamard(spec_ints(x), d, t) % (
        f.spec_onemask() as int),
    decreases d,
{
    lemma_field_size(f);
    if d > 1 {
        let h = d / 2;
        lemma_half_stride(size, d, t);
        let prev = spec_walsh_upto(f, x, size, h);
        lemma_upto_in_field(f, x, size, h);
        let m = lemma_pow2_blocks(h, size);
        lemma_layer_residue(f, prev, size, h, m, t);
        let p = spec_partner(t, h as int);
        lemma_walsh_is_hadamard(f, x, size, h, t);
        lemma_walsh_is_hadamard(f, x, size, h, p);
        let mask = f.spec_onemask() as int;
        let xs = spec_ints(x);
        if spec_in_low_half(t, h as int) {
            lemma_mod_add(
                mask,
                prev[t].0 as int,
                prev[p].0 as int,
                spec_hadamard(xs, h, t),
                spec_hadamard(xs, h, p),
            );
        } else {
            lemma_mod_add(
                mask,
                prev[p].0 as int,
                prev[t].0 as int,
                spec_hadamard(xs, h, p),
                spec_hadamard(xs, h, t),
            );
        }
    }
}

/// The transform over the integers is linear.
pub proof fn lemma_hadamard_is_linear(
    x: Seq<int>,
    y: Seq<int>,
    z: Seq<int>,
    c: int,
    size: nat,
    d: nat,
    t: int,
)
    requires
        is_pow2(size as int),
        is_pow2(d as int),
        d <= size,
        0 <= t < size,
        forall|i: int| 0 <= i < size ==> #[trigger] z[i] == x[i] + c * y[i],
    ensures
        spec_hadamard(z, d, t) == spec_hadamard(x, d, t) + c * spec_hadamard(y, d, t),
    decreases d,
{
    if d > 1 {
        let h = d / 2;
        lemma_half_stride(size, d, t);
        let p = spec_partner(t, h as int);
        lemma_hadamard_is_linear(x, y, z, c, size, h, t);
        lemma_hadamard_is_linear(x, y, z, c, size, h, p);
        let a = spec_hadamard(y, h, t);
        let b = spec_hadamard(y, h, p);
        assert(c * (a + b) == c * a + c * b && c * (a - b) == c * a - c * b && c * (b - a) == c
            * b - c * a) by (nonlinear_arith);
    }
}

/// The transform over the integers takes numbers that are congruent modulo
/// `m` to numbers that are congruent modulo `m`.
pub proof fn lemma_hadamard_is_congruent(
    x: Seq<int>,
    y: Seq<int>,
    m: int,
    size: nat,
    d: nat,
    t: int,
)
    requires
        m > 0,
        is_pow2(size as int),
        is_pow2(d as int),
        d <= size,
        0 <= t < size,
        forall|i: int| 0 <= i < size ==> (#[trigger] x[i]) % m == y[i] % m,
    ensures
        spec_hadamard(x, d, t) % m == spec_hadamard(y, d, t) % m,
    decreases d,
{
    if d > 1 {
        let h = d / 2;
        lemma_half_stride(size, d, t);
        let p = spec_partner(t, h as int);
        lemma_hadamard_is_congruent(x, y, m, size, h, t);
        lemma_hadamard_is_congruent(x, y, m, size, h, p);
        if spec_in_low_half(t, h as int) {
            lemma_mod_add(
                m,
                spec_hadamard(x, h, t),
                spec_hadamard(x, h, p),
                spec_hadamard(y, h, t),
                spec_hadamard(y, h, p),
            );
        } else {
            lemma_mod_add(
                m,
                spec_hadamard(x, h, p),
                spec_hadamard(x, h, t),
                spec_hadamard(y, h, p),
                spec_hadamard(y, h, t),
            );
        }
    }
}

/// The numbers `x` with the two halves of every block of `2 * s` exchanged.
pub open spec fn spec_swapped(x: Seq<int>, s: int) -> Seq<int> {
    Seq::new(x.len(), |i: int| x[spec_partner(i, s)])
}

/// The sign that the exchange of the halves under the stride `s` gives to
/// position `t` of the transform: minus in the high halves.
pub open spec fn spec_half_sign(t: int, s: int) -> int {
    if spec_in_low_half(t, s) {
        1
    } else {
        -1
    }
}

/// The partners of a position under two strides: the order in which they
/// are taken makes no difference.
pub proof fn lemma_partners_commute(t: int, s: nat, h: nat, size: nat)
    requires
        is_pow2(s as int),
        is_pow2(h as int),
        is_pow2(size as int),
        s != h,
        s < size,
        h < size,
        0 <= t < size,
    ensures
        spec_partner(spec_partner(t, s as int), h as int) == spec_partner(
            spec_partner(t, h as int),
            s as int,
        ),
        0 <= spec_partner(t, s as int) < size,
        0 <= spec_partner(t, h as int) < size,
{
    let ms = lemma_pow2_blocks(s, size);
    let mh = lemma_pow2_blocks(h, size);
    lemma_block_partner(t, s as int, ms as int);
    lemma_block_partner(t, h as int, mh as int);
    lemma_partner_keeps_other_half(t, s, h, size);
    lemma_partner_keeps_other_half(t, h, s, size);
}

/// The transform of the numbers with the halves of every block of `2 * s`
/// exchanged: below the stride `s` the transform of the numbers at the
/// exchanged position, and from the stride `s` on the transform of the
/// numbers with the sign changed in the high halves.
pub proof fn lemma_hadamard_of_swapped(x: Seq<int>, size: nat, s: nat, d: nat, t: int)
    requires
        is_pow2(size as int),
        is_pow2(d as int),
        is_pow2(s as int),
        s < size,
        d <= size,
        x.len() == size,
        0 <= t < size,
    ensures
        d <= s ==> spec_hadamard(spec_swapped(x, s as int), d, t) == spec_hadamard(
            x,
            d,
            spec_partner(t, s as int),
        ),
        d > s ==> spec_hadamard(spec_swapped(x, s as int), d, t) == spec_half_sign(t, s as int)
            * spec_hadamard(x, d, t),
    decreases d,
{
    let sw = spec_swapped(x, s as int);
    let ms = lemma_pow2_blocks(s, size);
    lemma_block_partner(t, s as int, ms as int);
    if d > 1 {
        let h = d / 2;
        lemma_half_stride(size, d, t);
        let p = spec_partner(t, h as int);
        lemma_hadamard_of_swapped(x, size, s, h, t);
        lemma_hadamard_of_swapped(x, size, s, h, p);
        if h < s {
            lemma_smaller_power_is_at_most_half(h, s);
            lemma_partners_commute(t, s, h, size);
            lemma_partner_keeps_other_half(t, s, h, size);
        } else if h == s {
            let g = spec_half_sign(t, s as int);
            let v = spec_hadamard(x, d, t);
            assert(g == 1 ==> g * v == v) by (nonlinear_arith);
            assert(g == -1 ==> g * v == -v) by (nonlinear_arith);
        } else {
            lemma_partner_keeps_other_half(t, h, s, size);
            let a = spec_hadamard(x, h, t);
            let b = spec_hadamard(x, h, p);
            let g = spec_half_sign(t, s as int);
            assert(g * (a + b) == g * a + g * b && g * (a - b) == g * a - g * b && g * (b - a)
                == g * b - g * a) by (nonlinear_arith);
        }
    }
}

/// The number one at the first place and zeros at the other places.
pub open spec fn spec_unit_pulse(size: nat) -> Seq<int> {
    Seq::new(
        size,
        |i: int|
            if i == 0 {
                1int
            } else {
                0int
            },
    )
}

/// The transform of the unit pulse is one in the first block and zero in
/// the other blocks.
pub proof fn lemma_hadamard_of_unit_pulse(size: nat, d: nat, t: int)
    requires
        is_pow2(size as int),
        is_pow2(d as int),
        d <= size,
        0 <= t < size,
    ensures
        spec_hadamard(spec_unit_pulse(size), d, t) == (if t < d {
            1int
        } else {
            0int
        }),
    decreases d,
{
    reveal(is_pow2);
    if d > 1 {
        let h = d / 2;
        lemma_half_stride(size, d, t);
        let p = spec_partner(t, h as int);
        lemma_hadamard_of_unit_pulse(size, h, t);
        lemma_hadamard_of_unit_pulse(size, h, p);
        if t < d {
            vstd::arithmetic::div_mod::lemma_small_mod(t as nat, d);
        } else {
            let m = lemma_pow2_blocks(h, size);
            let q = t / (d as int);
            let r = t % (d as int);
            vstd::arithmetic::div_mod::lemma_fundamental_div_mod(t, d as int);
            assert(q >= 1) by (nonlinear_arith)
                requires
                    t == (d as int) * q + r,
                    0 <= r < d,
                    t >= d,
                    d > 0,
            ;
            assert(t - r >= d) by (nonlinear_arith)
                requires
                    t == (d as int) * q + r,
                    q >= 1,
                    d > 0,
            ;
        }
    }
}

} // verus!
