//! The error locator polynomial of an erasure pattern: the product of the
//! linear factors that vanish at the erased points. The Walsh-Hadamard
//! transforms of the decoder give the logarithms of its values.
use crate::blocks::{lemma_block_partner, lemma_pow2_blocks};
use crate::decode::{
    spec_error_complement, spec_error_product, spec_error_seed, spec_eval_error_polynomial,
};
use crate::field::{Additive, Field, Logarithm};
use crate::field_laws::{
    lemma_log_exp, lemma_mul_is_times_power, lemma_product, lemma_product_inverse, lemma_xor_sums,
    spec_inverse, spec_log, spec_product,
};
use crate::hadamard::{
    lemma_hadamard_is_congruent, lemma_hadamard_is_linear, lemma_hadamard_of_swapped,
    lemma_hadamard_of_unit_pulse, lemma_walsh_is_hadamard, spec_hadamard, spec_half_sign, spec_ints,
    spec_swapped, spec_unit_pulse,
};
use crate::subspace::lemma_add_is_xor;
use crate::tables::{
    lemma_table_entries_in_field, lemma_xor_in_field, spec_field_is_valid, spec_log_walsh_table,
    spec_mul,
};
use crate::tables::{lemma_field_size, spec_log_walsh_seed};
use crate::util::{lemma_log2_bounds, lemma_pow2_is_pow2, spec_log2};
use crate::walsh::{lemma_walsh_len, spec_walsh};
use crate::walsh_laws::{
    lemma_upto_in_field, lemma_walsh_involution_over_field, spec_in_field, spec_residue,
};
use crate::walsh_laws::spec_partner;
use vstd::arithmetic::div_mod::{
    lemma_add_mod_noop, lemma_mod_bound, lemma_mod_twice, lemma_mul_mod_noop_general,
    lemma_sub_mod_noop,
};
use vstd::arithmetic::div_mod::{
    lemma_fundamental_div_mod, lemma_mod_multiples_basic, lemma_mod_self_0, lemma_small_mod,
};
use vstd::arithmetic::power2::{
    is_pow2, lemma2_to64, lemma_pow2_pos, lemma_pow2_strictly_increases, lemma_pow2_unfold, pow2,
};
use vstd::prelude::*;

verus! {

/// The numbers `x` with the number at place `i ^ e` moved to place `i`.
pub open spec fn spec_xor_shifted(x: Seq<int>, e: u16) -> Seq<int> {
    Seq::new(x.len(), |i: int| x[((i as u16) ^ e) as int])
}

/// The sign that a shift by `e` gives to position `t` of the transform: the
/// product of the signs of the set bits of `e`.
pub open spec fn spec_sign(t: int, e: nat) -> int
    decreases e,
{
    if e == 0 {
        1
    } else {
        let c = spec_log2(e);
        if 1 <= pow2(c) <= e {
            spec_half_sign(t, pow2(c) as int) * spec_sign(t, (e - pow2(c)) as nat)
        } else {
            1
        }
    }
}

/// The partner of a position under the stride `2^c` is the position with
/// bit `c` changed.
pub proof fn lemma_partner_is_xor(i: int, c: nat, size: nat)
    requires
        is_pow2(size as int),
        pow2(c) < size <= 0x10000,
        0 <= i < size,
    ensures
        0 <= spec_partner(i, pow2(c) as int) < size,
        spec_partner(i, pow2(c) as int) as u16 == (i as u16) ^ (pow2(c) as u16),
{
    lemma2_to64();
    if c >= 16 {
        if c > 16 {
            lemma_pow2_strictly_increases(16, c);
        }
    }
    lemma_pow2_pos(c);
    lemma_pow2_unfold(c + 1);
    lemma_pow2_is_pow2(c);
    let d = pow2(c) as int;
    let m = lemma_pow2_blocks(d as nat, size);
    lemma_block_partner(i, d, m as int);
    let r = i % (2 * d);
    let bs = i - r;
    lemma_fundamental_div_mod(i, 2 * d);
    let q = i / (2 * d);
    lemma_mod_multiples_basic(q, 2 * d);
    assert(bs == q * (2 * d)) by (nonlinear_arith)
        requires
            i == (2 * d) * q + r,
            bs == i - r,
    ;
    assert(bs >= 0) by (nonlinear_arith)
        requires
            i == (2 * d) * q + r,
            bs == i - r,
            0 <= r < 2 * d,
            i >= 0,
            bs == q * (2 * d),
            d > 0,
    ;
    lemma_mod_self_0(d);
    let x = bs as u16;
    let y = d as u16;
    if r < d {
        let z = r as u16;
        lemma_add_is_xor(bs as nat, r as nat, c + 1);
        lemma_add_is_xor(bs as nat, (d + r) as nat, c + 1);
        lemma_add_is_xor(d as nat, r as nat, c);
        lemma_xor_sums(x, z, y, 0, 0, 0, 0, 0);
        lemma_xor_sums(z, y, 0, 0, 0, 0, 0, 0);
    } else {
        let z = (r - d) as u16;
        lemma_add_is_xor(bs as nat, r as nat, c + 1);
        lemma_add_is_xor(bs as nat, (r - d) as nat, c + 1);
        lemma_add_is_xor(d as nat, (r - d) as nat, c);
        lemma_xor_sums(x, y, z, 0, 0, 0, 0, 0);
        lemma_xor_sums(y, 0, 0, 0, 0, 0, 0, 0);
        lemma_xor_sums(z, 0, 0, 0, 0, 0, 0, 0);
    }
}

/// The transform of shifted numbers is the transform of the numbers with
/// the signs of the shift.
pub proof fn lemma_hadamard_of_xor_shifted(x: Seq<int>, size: nat, e: nat, t: int)
    requires
        is_pow2(size as int),
        size <= 0x10000,
        x.len() == size,
        e < size,
        0 <= t < size,
    ensures
        spec_hadamard(spec_xor_shifted(x, e as u16), size, t) == spec_sign(t, e) * spec_hadamard(
            x,
            size,
            t,
        ),
    decreases e,
{
    let sh = spec_xor_shifted(x, e as u16);
    if e == 0 {
        assert forall|i: int| 0 <= i < size implies #[trigger] sh[i] == x[i] by {
            lemma_xor_sums(i as u16, 0, 0, 0, 0, 0, 0, 0);
        }
        assert(sh =~= x);
    } else {
        let c = spec_log2(e);
        lemma_log2_bounds(e);
        let d = pow2(c);
        let rest = (e - d) as nat;
        lemma_pow2_is_pow2(c);
        lemma2_to64();
        if c >= 16 {
            if c > 16 {
                lemma_pow2_strictly_increases(16, c);
            }
        }
        let y = spec_xor_shifted(x, rest as u16);
        let sw = spec_swapped(y, d as int);
        lemma_mod_self_0(d as int);
        lemma_add_is_xor(d, rest, c);
        assert forall|i: int| 0 <= i < size implies #[trigger] sh[i] == sw[i] by {
            lemma_partner_is_xor(i, c, size);
            lemma_xor_sums(i as u16, d as u16, rest as u16, 0, 0, 0, 0, 0);
        }
        assert(sh =~= sw);
        lemma_hadamard_of_swapped(y, size, d, size, t);
        lemma_hadamard_of_xor_shifted(x, size, rest, t);
        let g1 = spec_half_sign(t, d as int);
        let g2 = spec_sign(t, rest);
        let v = spec_hadamard(x, size, t);
        assert(g1 * (g2 * v) == (g1 * g2) * v) by (nonlinear_arith);
    }
}

/// The transform of zeros is zero.
pub proof fn lemma_hadamard_of_zeros(x: Seq<int>, size: nat, t: int)
    requires
        is_pow2(size as int),
        0 <= t < size,
        forall|i: int| 0 <= i < size ==> #[trigger] x[i] == 0,
    ensures
        spec_hadamard(x, size, t) == 0,
{
    lemma_hadamard_is_linear(x, x, x, 1, size, size, t);
}

/// One at the erased places below `k`, and zero at the other places.
pub open spec fn spec_marks(erasure: Seq<bool>, k: nat, size: nat) -> Seq<int> {
    Seq::new(
        size,
        |i: int|
            if i < k && i < erasure.len() && erasure[i] {
                1int
            } else {
                0int
            },
    )
}

/// The sum of the logarithms of the differences of the point `i` and the
/// erased points below `k`. The point itself, where it is erased, adds
/// nothing.
pub open spec fn spec_log_sum(f: Field, erasure: Seq<bool>, k: nat, i: int) -> int
    decreases k,
{
    if k == 0 {
        0
    } else {
        let e = (k - 1) as int;
        spec_log_sum(f, erasure, (k - 1) as nat, i) + (if e < erasure.len() && erasure[e] {
            spec_log_walsh_seed(f)[((i as u16) ^ (e as u16)) as int].0 as int
        } else {
            0
        })
    }
}

/// The sums of the logarithms at every point of the field.
pub open spec fn spec_log_sums(f: Field, erasure: Seq<bool>, k: nat) -> Seq<int> {
    Seq::new(f.spec_size(), |i: int| spec_log_sum(f, erasure, k, i))
}

/// At every position, the transform of the marks times the transform of
/// the logarithms is the transform of the sums of the logarithms.
pub proof fn lemma_marks_times_logs(f: Field, erasure: Seq<bool>, k: nat, t: int)
    requires
        k <= f.spec_size(),
        0 <= t < f.spec_size(),
    ensures
        spec_hadamard(spec_marks(erasure, k, f.spec_size()), f.spec_size(), t) * spec_hadamard(
            spec_ints(spec_log_walsh_seed(f)),
            f.spec_size(),
            t,
        ) == spec_hadamard(spec_log_sums(f, erasure, k), f.spec_size(), t),
    decreases k,
{
    lemma_field_size(f);
    lemma_pow2_is_pow2(f.spec_bits() as nat);
    let size = f.spec_size();
    let logs = spec_ints(spec_log_walsh_seed(f));
    let marks = spec_marks(erasure, k, size);
    let sums = spec_log_sums(f, erasure, k);
    let l = spec_hadamard(logs, size, t);
    if k == 0 {
        lemma_hadamard_of_zeros(marks, size, t);
        lemma_hadamard_of_zeros(sums, size, t);
        assert(0 * l == 0);
    } else {
        let e = (k - 1) as nat;
        let before = spec_marks(erasure, e, size);
        let sums_before = spec_log_sums(f, erasure, e);
        lemma_marks_times_logs(f, erasure, e, t);
        let a = spec_hadamard(before, size, t);
        if e < erasure.len() && erasure[e as int] {
            let pulse = spec_xor_shifted(spec_unit_pulse(size), e as u16);
            let moved = spec_xor_shifted(logs, e as u16);
            assert forall|i: int| 0 <= i < size implies #[trigger] marks[i] == before[i] + 1
                * pulse[i] by {
                lemma_xor_sums(i as u16, e as u16, 0, 0, 0, 0, 0, 0);
                lemma_xor_in_range(f, i, e as int);
            }
            assert forall|i: int| 0 <= i < size implies #[trigger] sums[i] == sums_before[i] + 1
                * moved[i] by {
                lemma_xor_in_range(f, i, e as int);
            }
            lemma_hadamard_is_linear(before, pulse, marks, 1, size, size, t);
            lemma_hadamard_is_linear(sums_before, moved, sums, 1, size, size, t);
            lemma_hadamard_of_xor_shifted(spec_unit_pulse(size), size, e, t);
            lemma_hadamard_of_xor_shifted(logs, size, e, t);
            lemma_hadamard_of_unit_pulse(size, size, t);
            let g = spec_sign(t, e);
            assert((a + 1 * (g * 1)) * l == a * l + 1 * (g * l)) by (nonlinear_arith);
        } else {
            assert(marks =~= before);
            assert(sums =~= sums_before);
        }
    }
}

/// The sum of two elements of the field, as places of a table.
pub proof fn lemma_xor_in_range(f: Field, i: int, e: int)
    requires
        0 <= i < f.spec_size(),
        0 <= e < f.spec_size(),
    ensures
        0 <= ((i as u16) ^ (e as u16)) < f.spec_size(),
{
    lemma_field_size(f);
    crate::tables::lemma_xor_in_field(f, i as u16, e as u16);
}

/// The sums of the logarithms, each reduced to a logarithm of the field.
pub open spec fn spec_reduced_sums(f: Field, erasure: Seq<bool>, n: nat) -> Seq<Logarithm> {
    Seq::new(
        f.spec_size(),
        |i: int| Logarithm((spec_log_sum(f, erasure, n, i) % (f.spec_onemask() as int)) as u16),
    )
}

/// The product of the two transforms in the decoder stands, at every
/// position, for the transform of the sums of the logarithms.
proof fn lemma_error_product(f: Field, erasure: Seq<bool>, x: Seq<Logarithm>, n: nat, t: int)
    requires
        n <= f.spec_size() <= x.len(),
        0 <= t < f.spec_size(),
    ensures
        ({
            let size = f.spec_size();
            let seed = spec_error_seed(f, erasure, x, n);
            let prod = spec_error_product(f, spec_walsh(f, seed, size));
            &&& prod.len() == x.len()
            &&& prod[t].0 < f.spec_onemask()
            &&& (prod[t].0 as int) % (f.spec_onemask() as int) == spec_hadamard(
                spec_log_sums(f, erasure, n),
                size,
                t,
            ) % (f.spec_onemask() as int)
        }),
{
    lemma_field_size(f);
    lemma_pow2_is_pow2(f.spec_bits() as nat);
    lemma_table_entries_in_field(f);
    let size = f.spec_size();
    let mask = f.spec_onemask() as int;
    let seed = spec_error_seed(f, erasure, x, n);
    let w1 = spec_walsh(f, seed, size);
    let logs = spec_log_walsh_seed(f);
    let lw = spec_log_walsh_table(f);
    let prod = spec_error_product(f, w1);
    let marks = spec_marks(erasure, n, size);
    lemma_walsh_len(f, seed, size, size);
    assert(spec_in_field(f, seed, size));
    assert(spec_in_field(f, logs, size));
    // behind the places of the field the seed holds what makes no difference
    assert forall|i: int| 0 <= i < size implies #[trigger] spec_ints(seed)[i] == marks[i] + 0
        * marks[i] by {}
    lemma_hadamard_is_linear(marks, marks, spec_ints(seed), 0, size, size, t);
    lemma_walsh_is_hadamard(f, seed, size, size, t);
    lemma_walsh_is_hadamard(f, logs, size, size, t);
    lemma_marks_times_logs(f, erasure, n, t);
    let a = w1[t].0 as int;
    let b = lw[t].0 as int;
    let ha = spec_hadamard(marks, size, t);
    let hb = spec_hadamard(spec_ints(logs), size, t);
    lemma_mul_mod_noop_general(a, b, mask);
    lemma_mul_mod_noop_general(ha, hb, mask);
    lemma_mod_bound(a * b, mask);
    lemma_mod_twice(a * b, mask);
    assert(prod[t].0 == (a * b) % mask);
}

/// The logarithms that the decoder computes for the first `n` marks of an
/// erasure pattern, whatever its buffer held before, stand, at every point
/// of the field, for the sum of the logarithms of the differences of the
/// point and the erased points, and for minus that sum at the erased
/// points.
pub proof fn lemma_error_poly_is_log_sum(
    f: Field,
    erasure: Seq<bool>,
    x: Seq<Logarithm>,
    n: nat,
    i: int,
)
    requires
        n <= f.spec_size() <= x.len(),
        0 <= i < f.spec_size(),
    ensures
        ({
            let mask = f.spec_onemask() as int;
            let ep = spec_eval_error_polynomial(f, erasure, x, n);
            let sum = spec_log_sum(f, erasure, n, i);
            let erased = i < n && i < erasure.len() && erasure[i];
            &&& ep.len() == x.len()
            &&& ep[i].0 <= f.spec_onemask()
            &&& !erased ==> (ep[i].0 as int) % mask == sum % mask
            &&& erased ==> (ep[i].0 as int) % mask == (-sum) % mask
        }),
{
    lemma_field_size(f);
    lemma_pow2_is_pow2(f.spec_bits() as nat);
    let size = f.spec_size();
    let mask = f.spec_onemask() as int;
    let seed = spec_error_seed(f, erasure, x, n);
    let w1 = spec_walsh(f, seed, size);
    let prod = spec_error_product(f, w1);
    let w2 = spec_walsh(f, prod, size);
    let sums = spec_log_sums(f, erasure, n);
    let rep = spec_reduced_sums(f, erasure, n);
    let wrep = spec_walsh(f, rep, size);
    lemma_walsh_len(f, seed, size, size);
    lemma_walsh_len(f, prod, size, size);
    lemma_walsh_len(f, rep, size, size);
    assert forall|t: int| 0 <= t < size implies (#[trigger] rep[t]).0 <= f.spec_onemask() by {
        lemma_mod_bound(spec_log_sum(f, erasure, n, t), mask);
    }
    assert(spec_in_field(f, rep, size));
    assert forall|t: int| 0 <= t < size implies (#[trigger] prod[t]).0 <= f.spec_onemask() by {
        lemma_error_product(f, erasure, x, n, t);
    }
    assert(spec_in_field(f, prod, size));
    lemma_upto_in_field(f, rep, size, size);
    lemma_upto_in_field(f, prod, size, size);
    assert forall|t: int| 0 <= t < size implies (#[trigger] spec_ints(prod)[t]) % mask
        == spec_ints(wrep)[t] % mask by {
        lemma_error_product(f, erasure, x, n, t);
        lemma_walsh_is_hadamard(f, rep, size, size, t);
        assert forall|j: int| 0 <= j < size implies (#[trigger] spec_ints(rep)[j]) % mask
            == sums[j] % mask by {
            lemma_mod_bound(sums[j], mask);
            lemma_mod_twice(sums[j], mask);
        }
        lemma_hadamard_is_congruent(spec_ints(rep), sums, mask, size, size, t);
    }
    lemma_walsh_is_hadamard(f, prod, size, size, i);
    lemma_walsh_is_hadamard(f, wrep, size, size, i);
    lemma_hadamard_is_congruent(spec_ints(prod), spec_ints(wrep), mask, size, size, i);
    lemma_walsh_involution_over_field(f, rep);
    assert(spec_residue(f, spec_walsh(f, wrep, size)[i]) == spec_residue(f, rep[i]));
    let sum = spec_log_sum(f, erasure, n, i);
    lemma_mod_bound(sum, mask);
    lemma_mod_twice(sum, mask);
    assert((w2[i].0 as int) % mask == sum % mask);
    assert(w2[i].0 <= f.spec_onemask());
    let ep = spec_error_complement(f, erasure, w2, n);
    if i < n && i < erasure.len() && erasure[i] {
        let w = w2[i].0 as int;
        lemma_small_mod(w as nat, size);
        assert(ep[i].0 == mask - w);
        lemma_sub_mod_noop(mask, w, mask);
        lemma_sub_mod_noop(0, w, mask);
        lemma_sub_mod_noop(0, sum, mask);
        lemma_mod_self_0(mask);
        lemma_small_mod(0, mask as nat);
    }
}

/// The value at `x` of the product of the linear factors that vanish at the
/// erased points below `k`, without the factor that vanishes at `x` itself
/// where `x` is erased.
pub open spec fn spec_locator(f: Field, erasure: Seq<bool>, k: nat, x: u16) -> u16
    decreases k,
{
    if k == 0 {
        1
    } else {
        let e = (k - 1) as int;
        let rest = spec_locator(f, erasure, (k - 1) as nat, x);
        if e < erasure.len() && erasure[e] && x ^ (e as u16) != 0 {
            spec_product(f, rest, x ^ (e as u16))
        } else {
            rest
        }
    }
}

/// The product of the linear factors is not zero, and its logarithm is the
/// sum of the logarithms of the factors.
pub proof fn lemma_locator_log(f: Field, erasure: Seq<bool>, k: nat, x: u16)
    requires
        spec_field_is_valid(f),
        k <= f.spec_size(),
        x < f.spec_size(),
    ensures
        1 <= spec_locator(f, erasure, k, x) < f.spec_size(),
        spec_log(f, spec_locator(f, erasure, k, x)) == spec_log_sum(f, erasure, k, x as int) % (
        f.spec_onemask() as int),
    decreases k,
{
    lemma_log_exp(f);
    let mask = f.spec_onemask() as int;
    if k == 0 {
        lemma_small_mod(0, mask as nat);
    } else {
        let e = (k - 1) as int;
        lemma_locator_log(f, erasure, (k - 1) as nat, x);
        let rest = spec_locator(f, erasure, (k - 1) as nat, x);
        let sum = spec_log_sum(f, erasure, (k - 1) as nat, x as int);
        let d = x ^ (e as u16);
        lemma_xor_in_field(f, x, e as u16);
        if e < erasure.len() && erasure[e] {
            if d != 0 {
                lemma_product(f, rest, d);
                assert(spec_log_walsh_seed(f)[d as int].0 == spec_log(f, d));
                lemma_add_mod_noop(sum, spec_log(f, d), mask);
                lemma_small_mod(spec_log(f, d) as nat, mask as nat);
            } else {
                assert(spec_log_walsh_seed(f)[d as int].0 == 0);
            }
        }
    }
}

/// What the decoder multiplies a symbol by, for the first `n` marks of an
/// erasure pattern: at a point that is not erased, the value of the error
/// locator polynomial, and at an erased point the inverse of the product
/// of the other factors.
pub proof fn lemma_error_poly_multiplies(
    f: Field,
    erasure: Seq<bool>,
    x: Seq<Logarithm>,
    n: nat,
    v: u16,
    i: int,
)
    requires
        spec_field_is_valid(f),
        n <= f.spec_size() <= x.len(),
        v < f.spec_size(),
        0 <= i < f.spec_size(),
    ensures
        ({
            let ep = spec_eval_error_polynomial(f, erasure, x, n);
            let loc = spec_locator(f, erasure, n, i as u16);
            let erased = i < n && i < erasure.len() && erasure[i];
            &&& !erased ==> spec_mul(f, Additive(v), ep[i]).0 == spec_product(f, v, loc)
            &&& erased ==> spec_mul(f, Additive(v), ep[i]).0 == spec_product(
                f,
                v,
                spec_inverse(f, loc),
            )
        }),
{
    lemma_field_size(f);
    lemma_log_exp(f);
    let mask = f.spec_onemask() as int;
    let ep = spec_eval_error_polynomial(f, erasure, x, n);
    let loc = spec_locator(f, erasure, n, i as u16);
    lemma_error_poly_is_log_sum(f, erasure, x, n, i);
    lemma_locator_log(f, erasure, n, i as u16);
    let l = ep[i].0;
    lemma_mul_is_times_power(f, v, l);
    if v != 0 {
        let lv = spec_log(f, v);
        let sum = spec_log_sum(f, erasure, n, i);
        let ll = spec_log(f, loc);
        lemma_small_mod(ll as nat, mask as nat);
        if i < n && i < erasure.len() && erasure[i] {
            lemma_product_inverse(f, loc);
            let inv = spec_inverse(f, loc);
            lemma_mod_bound(mask - ll, mask);
            let li = (mask - ll) % mask;
            assert(spec_log(f, inv) == li);
            lemma_sub_mod_noop(0, sum, mask);
            lemma_sub_mod_noop(0, ll, mask);
            lemma_sub_mod_noop(mask, ll, mask);
            lemma_mod_self_0(mask);
            lemma_small_mod(0, mask as nat);
            assert((l as int) % mask == li % mask);
            lemma_add_mod_noop(lv, l as int, mask);
            lemma_add_mod_noop(lv, li, mask);
        } else {
            lemma_add_mod_noop(lv, l as int, mask);
            lemma_add_mod_noop(lv, ll, mask);
        }
    }
}

} // verus!
