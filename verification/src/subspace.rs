//! The subspace polynomials of the additive FFT: the polynomial of level `m`
//! vanishes on the elements with coordinates below `2^m`, is additive, and
//! takes the value `1` at the element with the coordinates `2^m`. The skew
//! factors are its values.
use crate::field::{Additive, Field};
use crate::field_laws::{
    lemma_log_exp, lemma_mul_is_product, lemma_mul_is_times_power, lemma_product,
    lemma_product_commutes, lemma_product_distributes, lemma_product_unit, lemma_xor_sums, spec_log,
    spec_product,
};
use crate::tables::{
    lemma_field_size, lemma_skew_basis_len, lemma_xor_in_field, spec_field_is_valid,
    spec_skew_additive, spec_skew_basis, spec_skew_pivot, spec_skew_table, spec_to_multiplier,
    spec_trailing_ones,
};
use crate::util::{lemma_log2_bounds, spec_log2};
use vstd::arithmetic::div_mod::{lemma_add_mod_noop, lemma_mod_self_0, lemma_small_mod};
use vstd::arithmetic::power2::{
    lemma2_to64, lemma_pow2_adds, lemma_pow2_pos, lemma_pow2_strictly_increases, lemma_pow2_unfold,
    pow2,
};
use vstd::bits::{
    lemma_u16_low_bits_mask_is_mod, lemma_u16_pow2_no_overflow, lemma_u16_shl_is_mul, low_bits_mask,
};
use vstd::prelude::*;

verus! {

/// The value at `x` of the subspace polynomial of level `m`: `x` itself at
/// level `0`, and the square of the value of the level below plus that
/// value at every other level.
pub open spec fn spec_subspace(f: Field, m: nat, x: u16) -> u16
    decreases m,
{
    if m == 0 {
        x
    } else {
        let s = spec_subspace(f, (m - 1) as nat, x);
        spec_product(f, s, s ^ 1)
    }
}

/// A multiple of `2^e` plus a number below `2^e` is their sum without
/// carries.
pub proof fn lemma_add_is_xor(b: nat, t: nat, e: nat)
    requires
        e <= 16,
        b % pow2(e) == 0,
        t < pow2(e),
        b <= 0xFFFF,
    ensures
        b + t <= 0xFFFF,
        (b + t) as u16 == (b as u16) ^ (t as u16),
{
    if e == 16 {
        lemma2_to64();
        let y = t as u16;
        lemma_xor_sums(y, 0, 0, 0, 0, 0, 0, 0);
        return ;
    }
    lemma_u16_pow2_no_overflow(e);
    let x = b as u16;
    let y = t as u16;
    let sh = e as u16;
    lemma_u16_low_bits_mask_is_mod(x, e);
    lemma_u16_shl_is_mul(1, sh);
    let m = low_bits_mask(e) as u16;
    assert(x & m == 0);
    assert(m == ((1u16 << sh) - 1) as u16);
    assert(x + y <= 0xFFFF && x + y == x ^ y) by (bit_vector)
        requires
            sh < 16,
            m == ((1u16 << sh) - 1) as u16,
            x & m == 0,
            y <= m,
    ;
}

/// The element with the single coordinate `e` of a field with more than `e`
/// bits.
pub proof fn lemma_single_coordinate(f: Field, e: nat)
    requires
        e < f.spec_bits(),
    ensures
        (1u16 << (e as u16)) == pow2(e),
        pow2(e) < f.spec_size(),
        pow2(e) >= 1,
{
    lemma_field_size(f);
    lemma_u16_pow2_no_overflow(e);
    lemma_u16_shl_is_mul(1, e as u16);
    if e + 1 < f.spec_bits() {
        lemma_pow2_strictly_increases(e, (f.spec_bits() - 1) as nat);
    }
    lemma_pow2_pos(e);
}

/// The values of the subspace polynomials are elements of the field.
pub proof fn lemma_subspace_in_field(f: Field, m: nat, x: u16)
    requires
        spec_field_is_valid(f),
        x < f.spec_size(),
    ensures
        spec_subspace(f, m, x) < f.spec_size(),
    decreases m,
{
    if m > 0 {
        lemma_subspace_in_field(f, (m - 1) as nat, x);
        let s = spec_subspace(f, (m - 1) as nat, x);
        lemma_log_exp(f);
        lemma_xor_in_field(f, s, 1);
        lemma_product(f, s, s ^ 1);
    }
}

/// The square of an element plus the element is additive in the element.
pub proof fn lemma_square_plus_is_additive(f: Field, a: u16, b: u16)
    requires
        spec_field_is_valid(f),
        a < f.spec_size(),
        b < f.spec_size(),
    ensures
        spec_product(f, a ^ b, (a ^ b) ^ 1) == spec_product(f, a, a ^ 1) ^ spec_product(
            f,
            b,
            b ^ 1,
        ),
{
    lemma_log_exp(f);
    let x = a ^ b;
    lemma_xor_in_field(f, a, b);
    lemma_xor_in_field(f, a, 1);
    lemma_xor_in_field(f, b, 1);
    lemma_xor_sums(a, b, 1, 0, 0, 0, 0, 0);
    lemma_product_distributes(f, x, a ^ 1, b);
    lemma_product_distributes(f, a ^ 1, a, b);
    lemma_product_distributes(f, b, a, b);
    lemma_product_distributes(f, b, a, 1);
    lemma_product_distributes(f, b, b, 1);
    lemma_product_unit(f, b);
    lemma_product_commutes(f, a, b);
    let sa = spec_product(f, a, a ^ 1);
    let p = spec_product(f, a, b);
    let q = spec_product(f, b, b);
    lemma_xor_sums(sa, p, b, q, 0, 0, 0, 0);
}

/// The subspace polynomials are additive.
pub proof fn lemma_subspace_is_additive(f: Field, m: nat, x: u16, y: u16)
    requires
        spec_field_is_valid(f),
        x < f.spec_size(),
        y < f.spec_size(),
    ensures
        spec_subspace(f, m, x ^ y) == spec_subspace(f, m, x) ^ spec_subspace(f, m, y),
    decreases m,
{
    if m > 0 {
        let p = (m - 1) as nat;
        lemma_subspace_is_additive(f, p, x, y);
        lemma_subspace_in_field(f, p, x);
        lemma_subspace_in_field(f, p, y);
        lemma_square_plus_is_additive(f, spec_subspace(f, p, x), spec_subspace(f, p, y));
    }
}

/// The subspace polynomials vanish at zero.
pub proof fn lemma_subspace_at_zero(f: Field, m: nat)
    ensures
        spec_subspace(f, m, 0) == 0,
    decreases m,
{
    if m > 0 {
        lemma_subspace_at_zero(f, (m - 1) as nat);
    }
}

/// The elements that the skew factors of level `m` are combined from are
/// the values of the subspace polynomial of level `m` at the elements with a
/// single coordinate above `m`.
pub proof fn lemma_skew_basis_is_subspace(f: Field, m: nat, i: int)
    requires
        spec_field_is_valid(f),
        m <= i < f.spec_bits() - 1,
    ensures
        spec_skew_basis(f, m)[i] == spec_subspace(f, m, pow2((i + 1) as nat) as u16),
    decreases m,
{
    lemma_single_coordinate(f, (i + 1) as nat);
    lemma_skew_basis_len(f, m);
    let x = pow2((i + 1) as nat) as u16;
    if m > 0 {
        let p = (m - 1) as nat;
        let b = spec_skew_basis(f, p);
        lemma_skew_basis_len(f, p);
        lemma_skew_basis_is_subspace(f, p, i);
        lemma_subspace_in_field(f, p, x);
        lemma_log_exp(f);
        let pivot = spec_skew_pivot(f, b, p as int);
        let pi = p as int;
        assert(spec_skew_basis(f, pi as nat)[i] != 1);
        assert(spec_skew_basis(f, pi as nat)[pi] != 1 && spec_skew_basis(f, (pi + 1) as nat)[pi]
            == f.spec_onemask());
        assert(spec_skew_basis(f, m)[pi] == pivot);
        let s = b[i];
        lemma_xor_sums(s, 1, 0, 0, 0, 0, 0, 0);
        lemma_xor_in_field(f, s, 1);
        let l = spec_log(f, s ^ 1);
        let om = f.spec_onemask() as int;
        lemma_small_mod((s ^ 1) as nat, f.spec_size());
        assert(spec_to_multiplier(f, Additive(s ^ 1)).0 == l);
        lemma_add_mod_noop(l, om, om);
        lemma_mod_self_0(om);
        lemma_small_mod(l as nat, om as nat);
        assert((l + om) % om == l);
        lemma_mul_is_times_power(f, s, l as u16);
    }
}

/// The subspace polynomial of level `m` takes the value `1` at the element
/// with the single coordinate `m`.
pub proof fn lemma_subspace_unit(f: Field, m: nat)
    requires
        spec_field_is_valid(f),
        m < f.spec_bits(),
    ensures
        spec_subspace(f, m, pow2(m) as u16) == 1,
{
    lemma_single_coordinate(f, m);
    lemma2_to64();
    if m > 0 {
        let p = (m - 1) as nat;
        let pi = p as int;
        let b = spec_skew_basis(f, p);
        lemma_skew_basis_len(f, p);
        lemma_skew_basis_len(f, m);
        lemma_skew_basis_is_subspace(f, p, pi);
        let s = b[pi];
        let x = pow2(m) as u16;
        lemma_subspace_in_field(f, p, x);
        lemma_log_exp(f);
        assert(spec_skew_basis(f, pi as nat)[pi] != 1 && spec_skew_basis(f, (pi + 1) as nat)[pi]
            == f.spec_onemask());
        lemma_xor_sums(s, 1, 0, 0, 0, 0, 0, 0);
        lemma_xor_in_field(f, s, 1);
        lemma_mul_is_product(f, s, s ^ 1);
        let idx = spec_product(f, s, s ^ 1);
        lemma_product(f, s, s ^ 1);
        lemma_small_mod(idx as nat, f.spec_size());
        assert(spec_skew_pivot(f, b, pi) == (f.spec_onemask() - spec_log(f, idx)) as u16);
        assert(spec_skew_basis(f, m)[pi] == spec_skew_pivot(f, b, pi));
        if idx != 0 {
            assert(spec_log(f, idx) == 0);
        }
    }
}

/// The subspace polynomial of level `m` vanishes at the elements with
/// coordinates below `2^m`.
pub proof fn lemma_subspace_vanishes(f: Field, m: nat, v: nat)
    requires
        spec_field_is_valid(f),
        m < f.spec_bits(),
        v < pow2(m),
    ensures
        spec_subspace(f, m, v as u16) == 0,
    decreases m,
{
    lemma_single_coordinate(f, m);
    lemma_log_exp(f);
    if m == 0 {
        lemma2_to64();
    } else {
        let p = (m - 1) as nat;
        lemma_single_coordinate(f, p);
        lemma_pow2_unfold(m);
        if v < pow2(p) {
            lemma_subspace_vanishes(f, p, v);
        } else {
            let w = (v - pow2(p)) as nat;
            lemma_subspace_vanishes(f, p, w);
            lemma_subspace_unit(f, p);
            lemma_mod_self_0(pow2(p) as int);
            lemma_add_is_xor(pow2(p), w, p);
            lemma_subspace_is_additive(f, p, pow2(p) as u16, w as u16);
            lemma_xor_sums(1, 0, 0, 0, 0, 0, 0, 0);
        }
    }
}

/// The number `c * 2^(e + 1) + 2^e - 1` ends in exactly `e` ones.
pub proof fn lemma_trailing_ones(c: nat, e: nat)
    ensures
        spec_trailing_ones((c * pow2(e + 1) + pow2(e) - 1) as nat) == e,
    decreases e,
{
    lemma2_to64();
    lemma_pow2_pos(e);
    lemma_pow2_unfold(e + 1);
    let j = (c * pow2(e + 1) + pow2(e) - 1) as nat;
    if e == 0 {
        assert(j == 2 * c) by (nonlinear_arith)
            requires
                j == c * 2 + 1 - 1,
        ;
    } else {
        let p = (e - 1) as nat;
        lemma_pow2_unfold(e);
        lemma_pow2_pos(p);
        lemma_trailing_ones(c, p);
        let h = (c * pow2(e) + pow2(p) - 1) as nat;
        assert(j == 2 * h + 1) by (nonlinear_arith)
            requires
                j == c * pow2(e + 1) + pow2(e) - 1,
                h == c * pow2(e) + pow2(p) - 1,
                pow2(e + 1) == 2 * pow2(e),
                pow2(e) == 2 * pow2(p),
        ;
    }
}

/// The skew factor of a block is the value of the subspace polynomial of
/// the level of the block at the first point of the block: for the block of
/// `2^(e + 1)` points that starts at point `c * 2^(e + 1)`, the skew factor
/// at index `c * 2^(e + 1) + 2^e - 1` is the value of the polynomial of
/// level `e` at that point.
pub proof fn lemma_skew_is_subspace(f: Field, e: nat, c: nat)
    requires
        spec_field_is_valid(f),
        e < f.spec_bits(),
        c * pow2(e + 1) + pow2(e + 1) <= f.spec_size(),
    ensures
        c * pow2(e + 1) + pow2(e) - 1 < f.spec_onemask(),
        spec_skew_additive(f, (c * pow2(e + 1) + pow2(e) - 1) as nat) == spec_subspace(
            f,
            e,
            (c * pow2(e + 1)) as u16,
        ),
    decreases c,
{
    lemma_field_size(f);
    lemma_pow2_pos(e);
    lemma_pow2_unfold(e + 1);
    let pe = pow2(e);
    let span = pow2(e + 1);
    let w = c * span;
    let j = (w + pe - 1) as nat;
    lemma_trailing_ones(c, e);
    if c == 0 {
        assert(w == 0) by (nonlinear_arith)
            requires
                w == c * span,
                c == 0,
        ;
        lemma_subspace_at_zero(f, e);
    } else {
        assert(w >= span) by (nonlinear_arith)
            requires
                c >= 1,
                w == c * span,
                span > 0,
        ;
        let p = spec_log2(j);
        lemma_log2_bounds(j);
        if p <= e {
            lemma_pow2_unfold(p + 1);
            if p < e {
                lemma_pow2_strictly_increases(p + 1, e + 1);
            }
            assert(false);
        }
        if p >= f.spec_bits() {
            if p > f.spec_bits() {
                lemma_pow2_strictly_increases(f.spec_bits() as nat, p);
            }
            assert(pow2(p) >= f.spec_size());
            assert(j < f.spec_size());
            assert(false);
        }
        let pp = pow2(p);
        let g = pow2((p - e - 1) as nat);
        lemma_pow2_adds((p - e - 1) as nat, e + 1);
        assert(g * span == pp);
        assert(c >= g) by (nonlinear_arith)
            requires
                w == c * span,
                g * span == pp,
                w + pe - 1 >= pp,
                span == 2 * pe,
                pe >= 1,
        {
            if c < g {
                assert((g - c) * span >= span);
                assert(g * span - c * span >= span);
            }
        }
        let c2 = (c - g) as nat;
        let w2 = c2 * span;
        assert(w2 == w - pp) by (nonlinear_arith)
            requires
                w2 == (c - g) * span,
                w == c * span,
                g * span == pp,
        ;
        lemma_skew_is_subspace(f, e, c2);
        lemma_trailing_ones(c2, e);
        let j2 = (w2 + pe - 1) as nat;
        assert(j2 == j - pp);
        assert(spec_skew_additive(f, j) == spec_skew_additive(f, j2) ^ spec_skew_basis(f, e)[p
            - 1]);
        lemma_skew_basis_is_subspace(f, e, p - 1);
        lemma_pow2_unfold(p + 1);
        lemma_mod_self_0(pp as int);
        lemma_add_is_xor(pp, w2, p);
        lemma_single_coordinate(f, p);
        lemma_subspace_is_additive(f, e, pp as u16, w2 as u16);
        let a = spec_subspace(f, e, pp as u16);
        let b = spec_subspace(f, e, w2 as u16);
        lemma_xor_sums(a, b, 0, 0, 0, 0, 0, 0);
    }
}

/// What a butterfly of the additive FFT adds to its low element: the high
/// element `v` times the value of the subspace polynomial of level `e` at
/// the first point `c * 2^(e + 1)` of the block.
pub proof fn lemma_skew_xor(f: Field, lo: u16, v: u16, e: nat, c: nat)
    requires
        spec_field_is_valid(f),
        e < f.spec_bits(),
        c * pow2(e + 1) + pow2(e + 1) <= f.spec_size(),
        v < f.spec_size(),
    ensures
        crate::afft::spec_skew_xor(
            f,
            Additive(lo),
            Additive(v),
            spec_skew_table(f)[c * pow2(e + 1) + pow2(e) - 1],
        ) == Additive(
            lo ^ spec_product(f, spec_subspace(f, e, (c * pow2(e + 1)) as u16), v),
        ),
{
    lemma_field_size(f);
    lemma_skew_is_subspace(f, e, c);
    lemma_log_exp(f);
    let w = (c * pow2(e + 1)) as u16;
    let sigma = spec_subspace(f, e, w);
    lemma_subspace_in_field(f, e, w);
    lemma_small_mod(sigma as nat, f.spec_size());
    let j = c * pow2(e + 1) + pow2(e) - 1;
    lemma_pow2_pos(e);
    assert(0 <= c * pow2(e + 1)) by (nonlinear_arith);
    assert(0 <= j < f.spec_onemask());
    let skew = spec_skew_table(f)[j];
    assert(spec_skew_additive(f, j as nat) == sigma);
    assert(skew == spec_to_multiplier(f, Additive(sigma)));
    assert(skew.0 == spec_log(f, sigma));
    if sigma == 0 {
        lemma_xor_sums(lo, 0, 0, 0, 0, 0, 0, 0);
    } else {
        lemma_mul_is_product(f, v, sigma);
        lemma_product_commutes(f, v, sigma);
    }
}

} // verus!
