//! The formal derivative of a polynomial in the novel basis, plain and
//! twisted.
use crate::field::{spec_xor, Additive, Field, Logarithm};
use crate::tables::{spec_b_table, spec_mul, FieldTables};
use crate::util::{lemma_log2_bounds, spec_log2};
use vstd::arithmetic::div_mod::{lemma_fundamental_div_mod, lemma_fundamental_div_mod_converse};
use vstd::arithmetic::power2::{
    lemma2_to64, lemma_pow2_pos, lemma_pow2_strictly_increases, lemma_pow2_unfold, pow2,
};
use vstd::prelude::*;

verus! {

/// The largest power of two that divides `i`; `0` for `0`. In bits:
/// `((i ^ (i - 1)) + 1) / 2`.
pub open spec fn spec_lowest_set_bit(i: nat) -> nat
    decreases i,
{
    if i == 0 {
        0
    } else if i % 2 == 1 {
        1
    } else {
        2 * spec_lowest_set_bit(i / 2)
    }
}

/// Number of times that two divides `i`; `0` for `0`.
pub open spec fn spec_trailing_zeros(i: nat) -> nat
    decreases i,
{
    if i == 0 || i % 2 == 1 {
        0
    } else {
        1 + spec_trailing_zeros(i / 2)
    }
}

/// Element `t` of `x`, or zero where `x` has no such element.
pub open spec fn spec_get_or_zero(x: Seq<Additive>, t: int) -> Additive {
    if 0 <= t < x.len() {
        x[t]
    } else {
        Additive(0)
    }
}

/// Whether bit `b` of `j` is clear.
pub open spec fn spec_bit_is_clear(j: int, b: nat) -> bool {
    (j / (pow2(b) as int)) % 2 == 0
}

/// The least multiple of `2^b` above `j`.
pub open spec fn spec_next_multiple(j: int, b: nat) -> int {
    (j / (pow2(b) as int) + 1) * pow2(b)
}

/// Whether coefficient `j` takes up the coefficient `2^b` places behind it:
/// bit `b` of `j` is clear, and the least multiple of `2^b` above `j` lies
/// below `bound`. Where `bound` is a power of two above `j`, the latter says
/// that the place `j + 2^b` lies below `bound` too.
pub open spec fn spec_takes_up(j: int, b: nat, bound: int) -> bool {
    spec_bit_is_clear(j, b) && spec_next_multiple(j, b) < bound
}

/// Coefficient `j` of `x` plus the coefficients that it takes up for the bits
/// below `bits`, lowest bit first.
pub open spec fn spec_carried(x: Seq<Additive>, j: int, bound: int, bits: nat) -> Additive
    decreases bits,
{
    if bits == 0 {
        x[j]
    } else {
        let b = (bits - 1) as nat;
        let rest = spec_carried(x, j, bound, b);
        if spec_takes_up(j, b, bound) {
            spec_xor(rest, spec_get_or_zero(x, j + pow2(b)))
        } else {
            rest
        }
    }
}

/// A bound on the number of wrap steps from distance `i` on.
pub open spec fn spec_wrap_steps_left(f: Field, i: nat) -> nat {
    if i < f.spec_size() {
        (f.spec_size() - i) as nat
    } else {
        0
    }
}

/// `acc` plus the coefficients of `x` at the distances `i, 2 * i, 4 * i, ..`
/// behind place `j`, as long as the distance stays below the size of the
/// field and the length of `x`.
pub open spec fn spec_wrapped(f: Field, x: Seq<Additive>, acc: Additive, j: int, i: nat) -> Additive
    decreases spec_wrap_steps_left(f, i),
{
    if 1 <= i < f.spec_size() && i < x.len() {
        spec_wrapped(f, x, spec_xor(acc, spec_get_or_zero(x, j + i)), j, 2 * i)
    } else {
        acc
    }
}

/// The formal derivative of the polynomial whose coefficients in the novel
/// basis of the field `f` are the first `size` elements of `x`. Coefficient
/// `j` of it is coefficient `j` of `x` plus, for every clear bit `b` of `j`
/// below the size, the coefficient `2^b` places behind it, plus the
/// coefficients at the distances `size, 2 * size, ..` behind it that `x` has
/// beyond the polynomial.
pub open spec fn spec_formal_derivative(f: Field, x: Seq<Additive>, size: nat) -> Seq<Additive> {
    Seq::new(
        x.len(),
        |j: int|
            if j < size {
                spec_wrapped(
                    f,
                    x,
                    spec_carried(x, j, size as int, spec_log2(size) + 1),
                    j,
                    size,
                )
            } else {
                x[j]
            },
    )
}

/// Multiplies the elements of `x` pair by pair, up to the pair that holds
/// element `n - 1`, by the entries of the twist table, or by their inverses
/// where `undo` is false.
pub open spec fn spec_twist(f: Field, x: Seq<Additive>, n: nat, undo: bool) -> Seq<Additive> {
    Seq::new(
        x.len(),
        |t: int|
            if t < n + n % 2 {
                let b = spec_b_table(f)[t / 2];
                if undo {
                    spec_mul(f, x[t], b)
                } else {
                    spec_mul(f, x[t], Logarithm((f.spec_onemask() - b.0) as u16))
                }
            } else {
                x[t]
            },
    )
}

/// The formal derivative between the inverse twist and the twist.
pub open spec fn spec_tweaked_formal_derivative(f: Field, x: Seq<Additive>, n: nat) -> Seq<
    Additive,
> {
    spec_twist(f, spec_formal_derivative(f, spec_twist(f, x, n, false), n), n, true)
}

/// The lowest set bit of a number is two to the power of the number of its
/// trailing zeros, and what is left of the number is odd.
pub proof fn lemma_lowest_set_bit(i: nat)
    requires
        i >= 1,
    ensures
        spec_lowest_set_bit(i) == pow2(spec_trailing_zeros(i)),
        1 <= spec_lowest_set_bit(i) <= i,
        i == (i / spec_lowest_set_bit(i)) * spec_lowest_set_bit(i),
        (i / spec_lowest_set_bit(i)) % 2 == 1,
    decreases i,
{
    lemma2_to64();
    if i % 2 == 1 {
    } else {
        let h = i / 2;
        lemma_lowest_set_bit(h);
        let l = spec_lowest_set_bit(h);
        lemma_pow2_unfold(spec_trailing_zeros(i));
        let m = h / l;
        assert(i == m * (2 * l) && 2 * l <= i) by (nonlinear_arith)
            requires
                h == m * l,
                i == 2 * h,
                l >= 1,
                m >= 1,
        ;
        lemma_fundamental_div_mod_converse(i as int, (2 * l) as int, m as int, 0);
    }
}

/// The lowest set bit of an odd multiple of `2^b` is `2^b`.
pub proof fn lemma_lowest_set_bit_of_odd_multiple(m: nat, b: nat)
    requires
        m % 2 == 1,
    ensures
        spec_lowest_set_bit(m * pow2(b)) == pow2(b),
    decreases b,
{
    lemma2_to64();
    if b == 0 {
        assert(m * 1 == m);
    } else {
        lemma_pow2_unfold(b);
        lemma_lowest_set_bit_of_odd_multiple(m, (b - 1) as nat);
        let p = pow2((b - 1) as nat);
        lemma_pow2_pos((b - 1) as nat);
        assert(m * (2 * p) == 2 * (m * p) && m * p >= 1) by (nonlinear_arith)
            requires
                m >= 1,
                p >= 1,
        ;
    }
}

/// Only one power of two is a given power of two.
proof fn lemma_pow2_injective(a: nat, b: nat)
    requires
        pow2(a) == pow2(b),
    ensures
        a == b,
{
    if a < b {
        lemma_pow2_strictly_increases(a, b);
    }
    if b < a {
        lemma_pow2_strictly_increases(b, a);
    }
}

/// The places `2^b` before `i`, where `2^b` is the lowest set bit of `i`,
/// have bit `b` clear, and `i` is the least multiple of `2^b` above them.
proof fn lemma_reached(j: int, i: nat, b: nat)
    requires
        i >= 1,
        spec_lowest_set_bit(i) == pow2(b),
        0 <= i - pow2(b) <= j < i,
    ensures
        spec_bit_is_clear(j, b),
        spec_next_multiple(j, b) == i,
{
    lemma_lowest_set_bit(i);
    let l = pow2(b) as int;
    let m = (i / pow2(b)) as int;
    let r = j - (m - 1) * l;
    assert(j == (m - 1) * l + r && 0 <= r < l && (m - 1 + 1) * l == i) by (nonlinear_arith)
        requires
            i == m * l,
            i - l <= j < i,
            r == j - (m - 1) * l,
    ;
    lemma_fundamental_div_mod_converse(j, l, m - 1, r);
}

/// Where bit `b` of `j` is clear and `i` is the least multiple of `2^b` above
/// `j`, `2^b` is the lowest set bit of `i`, and `j` lies less than `2^b`
/// before `i`.
proof fn lemma_reacher(j: int, i: int, b: nat)
    requires
        0 <= j,
        spec_bit_is_clear(j, b),
        spec_next_multiple(j, b) == i,
    ensures
        i >= 1,
        spec_lowest_set_bit(i as nat) == pow2(b),
        i - pow2(b) <= j < i,
{
    lemma_pow2_pos(b);
    let l = pow2(b) as int;
    let m = j / l;
    lemma_fundamental_div_mod(j, l);
    assert(0 <= m) by (nonlinear_arith)
        requires
            j == l * m + j % l,
            0 <= j % l < l,
            0 <= j,
            l >= 1,
    ;
    lemma_lowest_set_bit_of_odd_multiple((m + 1) as nat, b);
    assert(i == (m + 1) * l && i - l <= j < i && i >= 1) by (nonlinear_arith)
        requires
            i == (m + 1) * l,
            j == l * m + j % l,
            0 <= j % l < l,
            0 <= m,
            l >= 1,
    ;
}

/// A coefficient takes up nothing before the steps reach it.
proof fn lemma_carried_unreached(x: Seq<Additive>, j: int, bound: int, bits: nat)
    requires
        0 <= j,
        bound <= j + 1,
    ensures
        spec_carried(x, j, bound, bits) == x[j],
    decreases bits,
{
    if bits > 0 {
        let b = (bits - 1) as nat;
        lemma_carried_unreached(x, j, bound, b);
        if spec_bit_is_clear(j, b) {
            lemma_reacher(j, spec_next_multiple(j, b), b);
        }
    }
}

/// What step `i` adds to what the coefficients have taken up: where `2^b0` is
/// the lowest set bit of `i`, each of the `2^b0` coefficients before place
/// `i` takes up the coefficient `2^b0` places behind it, and nothing else
/// changes.
proof fn lemma_carried_step(x: Seq<Additive>, j: int, i: nat, b0: nat, bits: nat)
    requires
        0 <= j,
        i >= 1,
        spec_lowest_set_bit(i) == pow2(b0),
    ensures
        spec_carried(x, j, (i + 1) as int, bits) == (if i - pow2(b0) <= j < i && bits > b0 {
            spec_xor(spec_carried(x, j, i as int, bits), spec_get_or_zero(x, j + pow2(b0)))
        } else {
            spec_carried(x, j, i as int, bits)
        }),
    decreases bits,
{
    lemma_lowest_set_bit(i);
    if bits > 0 {
        let b = (bits - 1) as nat;
        lemma_carried_step(x, j, i, b0, b);
        let in_range = i - pow2(b0) <= j < i;
        if spec_bit_is_clear(j, b) {
            let next = spec_next_multiple(j, b);
            lemma_reacher(j, next, b);
            if next == i {
                // only the lowest set bit of `i` reaches place `i`
                lemma_pow2_injective(b, b0);
            }
            if in_range && b > b0 {
                // the multiples of a higher power of two above `j` lie above `i`
                lemma_pow2_strictly_increases(b0, b);
                lemma_multiple_above(j, i, b0, j / (pow2(b) as int) + 1, b);
            }
        }
        if in_range && b == b0 {
            lemma_reached(j, i, b0);
        }
    }
}

/// A multiple of `2^b` above the places that step `i` reaches is no less than
/// `i`, as `i` is the least multiple of its lowest set bit `2^b0 < 2^b` above
/// them.
proof fn lemma_multiple_above(j: int, i: nat, b0: nat, c: int, b: nat)
    requires
        i >= 1,
        spec_lowest_set_bit(i) == pow2(b0),
        i - pow2(b0) <= j < i,
        b0 < b,
        c * pow2(b) > j,
    ensures
        c * pow2(b) >= i,
{
    lemma_lowest_set_bit(i);
    lemma_pow2_pos(b0);
    let l = pow2(b0) as int;
    let big = pow2(b) as int;
    let factor = lemma_pow2_multiple(b0, b);
    let m = (i / pow2(b0)) as int;
    let whole = c * factor;
    assert(c * big == whole * l) by (nonlinear_arith)
        requires
            big == factor * l,
            whole == c * factor,
    ;
    assert(whole >= m) by (nonlinear_arith)
        requires
            whole * l > j,
            j >= i - l,
            i == m * l,
            l >= 1,
    ;
    assert(whole * l >= m * l) by (nonlinear_arith)
        requires
            whole >= m,
            l >= 1,
    ;
}

/// A higher power of two is a multiple of a lower one.
proof fn lemma_pow2_multiple(a: nat, b: nat) -> (factor: int)
    requires
        a <= b,
    ensures
        pow2(b) == factor * pow2(a),
        factor >= 1,
    decreases b - a,
{
    if a == b {
        1
    } else {
        let inner = lemma_pow2_multiple(a, (b - 1) as nat);
        lemma_pow2_unfold(b);
        assert(2 * (inner * pow2(a)) == (2 * inner) * pow2(a)) by (nonlinear_arith);
        2 * inner
    }
}

/// The largest power of two that divides `i`.
pub fn lowest_set_bit(i: usize) -> (l: usize)
    requires
        i >= 1,
    ensures
        l == spec_lowest_set_bit(i as nat),
        1 <= l <= i,
{
    let mut x: usize = i;
    let mut l: usize = 1;
    while x % 2 == 0
        invariant
            x >= 1,
            l >= 1,
            l * x <= i,
            spec_lowest_set_bit(i as nat) == l * spec_lowest_set_bit(x as nat),
        decreases x,
    {
        proof {
            let h = (x / 2) as nat;
            assert((2 * l) * h <= i && l * (2 * spec_lowest_set_bit(h)) == (2 * l)
                * spec_lowest_set_bit(h) && 2 * l <= l * x) by (nonlinear_arith)
                requires
                    l * x <= i,
                    x == 2 * h,
                    h >= 1,
                    l >= 1,
            ;
        }
        x = x / 2;
        l = 2 * l;
    }
    proof {
        assert(l <= l * x) by (nonlinear_arith)
            requires
                x >= 1,
                l >= 1,
        ;
        assert(spec_lowest_set_bit(x as nat) == 1);
        assert(l * 1 == l);
    }
    l
}

/// Replaces the polynomial whose coefficients in the novel basis of the
/// field `f` are the first `size` elements of `cos` by its formal derivative.
pub fn formal_derivative(f: Field, cos: &mut Vec<Additive>, size: usize)
    requires
        1 <= size <= old(cos)@.len(),
    ensures
        final(cos)@ == spec_formal_derivative(f, old(cos)@, size as nat),
        final(cos)@.len() == old(cos)@.len(),
{
    let ghost x = old(cos)@;
    let ghost bits = spec_log2(size as nat) + 1;
    proof {
        lemma_log2_bounds(size as nat);
        lemma_pow2_unfold(bits);
        assert forall|j: int| 0 <= j < x.len() implies spec_carried(x, j, 1, bits) == x[j] by {
            lemma_carried_unreached(x, j, 1, bits);
        }
    }
    let mut i: usize = 1;
    while i < size
        invariant
            1 <= i <= size <= cos@.len(),
            cos@.len() == x.len(),
            bits == spec_log2(size as nat) + 1,
            size < pow2(bits),
            forall|j: int| 0 <= j < x.len() ==> cos@[j] == spec_carried(x, j, i as int, bits),
        decreases size - i,
    {
        let length: usize = lowest_set_bit(i);
        let ghost b0 = spec_trailing_zeros(i as nat);
        proof {
            lemma_lowest_set_bit(i as nat);
            if b0 >= bits {
                if b0 > bits {
                    lemma_pow2_strictly_increases(bits, b0);
                }
            }
        }
        let mut j: usize = i - length;
        while j < i
            invariant
                1 <= length <= i < size <= cos@.len(),
                i - length <= j <= i,
                cos@.len() == x.len(),
                length == pow2(b0),
                spec_lowest_set_bit(i as nat) == pow2(b0),
                b0 < bits,
                forall|t: int| i - length <= t < j ==> cos@[t] == spec_carried(x, t, i + 1, bits),
                forall|t: int|
                    0 <= t < i - length ==> cos@[t] == spec_carried(x, t, i as int, bits),
                forall|t: int| j <= t < x.len() ==> cos@[t] == spec_carried(x, t, i as int, bits),
            decreases i - j,
        {
            let other: Additive = if length < cos.len() - j {
                cos[j + length]
            } else {
                Additive(0)
            };
            proof {
                lemma_carried_unreached(x, j + length, i as int, bits);
                lemma_carried_step(x, j as int, i as nat, b0, bits);
            }
            let sum: Additive = cos[j].bitxor(other);
            cos.set(j, sum);
            j += 1;
        }
        proof {
            assert forall|t: int| 0 <= t < x.len() implies cos@[t] == spec_carried(
                x,
                t,
                i + 1,
                bits,
            ) by {
                lemma_carried_step(x, t, i as nat, b0, bits);
            }
        }
        i += 1;
    }
    proof {
        assert forall|t: int| size <= t < x.len() implies cos@[t] == x[t] by {
            lemma_carried_unreached(x, t, size as int, bits);
        }
    }
    let ghost target = spec_formal_derivative(f, x, size as nat);
    let field_size: usize = f.size();
    let mut i: usize = size;
    while i < field_size && i < cos.len()
        invariant
            1 <= size <= cos@.len(),
            size <= i,
            field_size == f.spec_size(),
            cos@.len() == x.len(),
            bits == spec_log2(size as nat) + 1,
            target == spec_formal_derivative(f, x, size as nat),
            forall|t: int| size <= t < x.len() ==> cos@[t] == x[t],
            forall|t: int| 0 <= t < size ==> spec_wrapped(f, x, cos@[t], t, i as nat) == target[t],
        decreases spec_wrap_steps_left(f, i as nat),
    {
        let mut j: usize = 0;
        while j < size
            invariant
                j <= size <= i < cos@.len(),
                1 <= i < f.spec_size(),
                cos@.len() == x.len(),
                forall|t: int| size <= t < x.len() ==> cos@[t] == x[t],
                forall|t: int|
                    0 <= t < j ==> spec_wrapped(f, x, cos@[t], t, 2 * i as nat) == target[t],
                forall|t: int|
                    j <= t < size ==> spec_wrapped(f, x, cos@[t], t, i as nat) == target[t],
            decreases size - j,
        {
            let other: Additive = if i < cos.len() - j {
                cos[j + i]
            } else {
                Additive(0)
            };
            let sum: Additive = cos[j].bitxor(other);
            cos.set(j, sum);
            j += 1;
        }
        i = 2 * i;
    }
    assert(cos@ =~= target);
}

/// Multiplies the elements of `codeword` pair by pair, up to the pair that
/// holds element `n - 1`, by the entries of the twist table, or by their
/// inverses where `undo` is false.
fn twist(tables: &FieldTables, codeword: &mut Vec<Additive>, n: usize, undo: bool)
    requires
        n <= old(codeword)@.len(),
        n <= tables@.field.spec_size(),
        n % 2 == 1 ==> n < old(codeword)@.len(),
    ensures
        final(codeword)@ == spec_twist(tables@.field, old(codeword)@, n as nat, undo),
        final(codeword)@.len() == old(codeword)@.len(),
{
    let f: Field = tables.field();
    let onemask: u16 = f.onemask();
    proof {
        crate::tables::lemma_b_table_in_field(f);
    }
    let mut i: usize = 0;
    while i < n
        invariant
            i % 2 == 0,
            i <= n + n % 2,
            f == tables@.field,
            onemask == f.spec_onemask(),
            forall|j: int|
                0 <= j < f.spec_size() / 2 ==> (#[trigger] spec_b_table(f)[j]).0
                    <= f.spec_onemask(),
            n <= f.spec_size(),
            n + n % 2 <= codeword@.len(),
            codeword@.len() == old(codeword)@.len(),
            forall|t: int|
                0 <= t < i ==> codeword@[t] == spec_twist(f, old(codeword)@, n as nat, undo)[t],
            forall|t: int| i <= t < codeword@.len() ==> codeword@[t] == old(codeword)@[t],
        decreases n + n % 2 - i,
    {
        let entry: Logarithm = tables.get_b(i / 2);
        let b: Logarithm = if undo {
            entry
        } else {
            Logarithm(onemask - entry.0)
        };
        let first: Additive = tables.mul(codeword[i], b);
        codeword.set(i, first);
        let second: Additive = tables.mul(codeword[i + 1], b);
        codeword.set(i + 1, second);
        i += 2;
    }
    assert(codeword@ =~= spec_twist(f, old(codeword)@, n as nat, undo));
}

/// Replaces the polynomial whose coefficients are the first `n` elements of
/// `codeword` by its formal derivative in the twisted basis: the inverse
/// twist, the formal derivative, the twist.
pub fn tweaked_formal_derivative(tables: &FieldTables, codeword: &mut Vec<Additive>, n: usize)
    requires
        1 <= n <= old(codeword)@.len(),
        n <= tables@.field.spec_size(),
        n % 2 == 1 ==> n < old(codeword)@.len(),
    ensures
        final(codeword)@ == spec_tweaked_formal_derivative(
            tables@.field,
            old(codeword)@,
            n as nat,
        ),
        final(codeword)@.len() == old(codeword)@.len(),
{
    twist(tables, codeword, n, false);
    formal_derivative(tables.field(), codeword, n);
    twist(tables, codeword, n, true);
}

} // verus!
