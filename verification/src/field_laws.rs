//! The laws of the arithmetic of a working field: the product that the
//! tables give is commutative and associative, has the unit `1` and an
//! inverse for every element but zero, and distributes over the sum.
use crate::field::{lemma_fold, Additive, Field, Logarithm};
use crate::tables::{
    lemma_xor_in_field, spec_bit, spec_bit_combine, spec_exp_table, spec_field_is_valid,
    spec_generator_images, spec_log_table, spec_mul, spec_tables_inverse, spec_times_generator,
    spec_to_multiplier,
};
use vstd::arithmetic::div_mod::{
    lemma_add_mod_noop, lemma_mod_bound, lemma_mod_self_0, lemma_small_mod,
};
use vstd::prelude::*;

verus! {

/// The terms of a sum of elements may be ordered and bracketed at will, and
/// equal terms cancel. These are the forms in which the laws are used.
pub proof fn lemma_xor_sums(a: u16, b: u16, c: u16, d: u16, e: u16, g: u16, h: u16, k: u16)
    by (bit_vector)
    ensures
        a ^ 0 == a,
        0 ^ a == a,
        a ^ a == 0,
        a ^ b == b ^ a,
        (a ^ b) ^ c == a ^ (b ^ c),
        (a ^ b) ^ b == a,
        (a ^ c) ^ (b ^ c) == a ^ b,
        (a ^ b) ^ c == (a ^ c) ^ b,
        (a ^ (b ^ c)) ^ (b ^ d) == a ^ (d ^ c),
        (a ^ b) ^ (c ^ d) == (a ^ c) ^ (b ^ d),
        a ^ (b ^ c) == b ^ (c ^ a),
        ((a ^ b) ^ (c ^ d)) ^ (e ^ g) == ((a ^ c) ^ e) ^ ((b ^ d) ^ g),
        ((a ^ b) ^ c) ^ (d ^ e) == (a ^ d) ^ ((b ^ e) ^ c),
        ((a ^ b) ^ c) ^ (((c ^ d) ^ e) ^ (g ^ d)) == (a ^ (b ^ e)) ^ g,
        (((a ^ b) ^ c) ^ ((d ^ e) ^ g)) ^ (((c ^ h) ^ k) ^ g) == ((a ^ d) ^ ((b ^ e) ^ k)) ^ h,
        (a ^ 0) ^ a == 0,
        ((0 ^ a) ^ 0) ^ b == a ^ b,
        ((a ^ b) ^ 0) ^ c == a ^ (b ^ c),
        a ^ b == 0 ==> a == b,
{
}

/// The logarithm of the element `a`; `ONEMASK` for zero.
pub open spec fn spec_log(f: Field, a: u16) -> int {
    spec_log_table(f)[a as int] as int
}

/// The element with the logarithm `l`.
pub open spec fn spec_exp(f: Field, l: int) -> u16 {
    spec_exp_table(f)[l]
}

/// The element `a` times the power `l` of the generator.
pub open spec fn spec_times_power(f: Field, a: u16, l: int) -> u16 {
    if a == 0 {
        0
    } else {
        spec_exp(f, (spec_log(f, a) + l) % (f.spec_onemask() as int))
    }
}

/// The product of the elements `a` and `b`.
pub open spec fn spec_product(f: Field, a: u16, b: u16) -> u16 {
    if b == 0 {
        0
    } else {
        spec_times_power(f, a, spec_log(f, b))
    }
}

/// The inverse of the element `a`, and zero for zero.
pub open spec fn spec_inverse(f: Field, a: u16) -> u16 {
    if a == 0 {
        0
    } else {
        spec_exp(f, (f.spec_onemask() - spec_log(f, a)) % (f.spec_onemask() as int))
    }
}

/// In a working field, logarithm and exponential are each other's inverse,
/// the unit is `1`, and zero has the logarithm `ONEMASK`.
pub proof fn lemma_log_exp(f: Field)
    requires
        spec_field_is_valid(f),
    ensures
        forall|a: u16|
            1 <= a < f.spec_size() ==> 0 <= #[trigger] spec_log(f, a) < f.spec_onemask()
                && spec_exp(f, spec_log(f, a)) == a,
        forall|l: int|
            0 <= l < f.spec_onemask() ==> 1 <= #[trigger] spec_exp(f, l) < f.spec_size()
                && spec_log(f, spec_exp(f, l)) == l,
        spec_exp(f, 0) == 1,
        spec_exp(f, f.spec_onemask() as int) == 1,
        spec_log(f, 1) == 0,
        spec_log(f, 0) == f.spec_onemask(),
        f.spec_onemask() >= 3,
        f.spec_onemask() + 1 == f.spec_size(),
{
    let log = spec_log_table(f);
    let exp = spec_exp_table(f);
    assert(spec_tables_inverse(f, log, exp));
    assert forall|a: u16| 1 <= a < f.spec_size() implies 0 <= #[trigger] spec_log(f, a)
        < f.spec_onemask() && spec_exp(f, spec_log(f, a)) == a by {
        let x = a as int;
        assert(log[x] < f.spec_onemask() && exp[log[x] as int] == x);
    }
    assert forall|l: int| 0 <= l < f.spec_onemask() implies 1 <= #[trigger] spec_exp(f, l)
        < f.spec_size() && spec_log(f, spec_exp(f, l)) == l by {
        assert(exp[l] != 0 && exp[l] < f.spec_size() && log[exp[l] as int] == l);
    }
    assert(exp[0] != 0 && exp[0] < f.spec_size() && log[exp[0] as int] == 0);
    assert(spec_log(f, 0) == f.spec_onemask()) by {
        assert(crate::tables::spec_cantor_combine(crate::tables::spec_base_table(f), 0) == 0);
    }
}

/// The table product of `a` and the multiplier `l` is `a` times the power
/// `l` of the generator.
pub proof fn lemma_mul_is_times_power(f: Field, a: u16, l: u16)
    requires
        spec_field_is_valid(f),
        a < f.spec_size(),
        l <= f.spec_onemask(),
    ensures
        spec_mul(f, Additive(a), Logarithm(l)).0 == spec_times_power(f, a, l as int),
{
    lemma_log_exp(f);
    if a != 0 {
        let m = f.spec_onemask() as int;
        let q = f.spec_size() as int;
        lemma_small_mod(a as nat, q as nat);
        let s = spec_log(f, a) + l;
        lemma_fold(f, s);
        let r = f.spec_fold(s);
        lemma_small_mod(r as nat, q as nat);
        if r == m {
            lemma_mod_self_0(m);
        } else {
            lemma_small_mod(r as nat, m as nat);
        }
    }
}

/// The table product of `a` and the multiplier that stands for the nonzero
/// element `b` is the product of `a` and `b`.
pub proof fn lemma_mul_is_product(f: Field, a: u16, b: u16)
    requires
        spec_field_is_valid(f),
        a < f.spec_size(),
        1 <= b < f.spec_size(),
    ensures
        spec_mul(f, Additive(a), spec_to_multiplier(f, Additive(b))).0 == spec_product(f, a, b),
{
    lemma_log_exp(f);
    lemma_small_mod(b as nat, f.spec_size());
    assert(spec_to_multiplier(f, Additive(b)).0 == spec_log(f, b));
    lemma_mul_is_times_power(f, a, spec_log(f, b) as u16);
}

/// A nonzero element times a power of the generator is a nonzero element of
/// the field, and its logarithm is the sum of the two logarithms.
pub proof fn lemma_times_power(f: Field, a: u16, l: int)
    requires
        spec_field_is_valid(f),
        a < f.spec_size(),
        0 <= l,
    ensures
        spec_times_power(f, a, l) < f.spec_size(),
        a != 0 ==> spec_times_power(f, a, l) != 0 && spec_log(f, spec_times_power(f, a, l)) == (
        spec_log(f, a) + l) % (f.spec_onemask() as int),
{
    lemma_log_exp(f);
    if a != 0 {
        lemma_mod_bound(spec_log(f, a) + l, f.spec_onemask() as int);
    }
}

/// The product of two elements is an element; it is zero only where one of
/// the two is zero, and otherwise its logarithm is the sum of theirs.
pub proof fn lemma_product(f: Field, a: u16, b: u16)
    requires
        spec_field_is_valid(f),
        a < f.spec_size(),
        b < f.spec_size(),
    ensures
        spec_product(f, a, b) < f.spec_size(),
        spec_product(f, a, b) == 0 <==> a == 0 || b == 0,
        a != 0 && b != 0 ==> spec_log(f, spec_product(f, a, b)) == (spec_log(f, a) + spec_log(
            f,
            b,
        )) % (f.spec_onemask() as int),
{
    lemma_log_exp(f);
    if b != 0 {
        lemma_times_power(f, a, spec_log(f, b));
    }
}

/// The product is commutative.
pub proof fn lemma_product_commutes(f: Field, a: u16, b: u16)
    ensures
        spec_product(f, a, b) == spec_product(f, b, a),
{
}

/// The product is associative.
pub proof fn lemma_product_associates(f: Field, a: u16, b: u16, c: u16)
    requires
        spec_field_is_valid(f),
        a < f.spec_size(),
        b < f.spec_size(),
        c < f.spec_size(),
    ensures
        spec_product(f, spec_product(f, a, b), c) == spec_product(f, a, spec_product(f, b, c)),
{
    lemma_log_exp(f);
    lemma_product(f, a, b);
    lemma_product(f, b, c);
    if a != 0 && b != 0 && c != 0 {
        let m = f.spec_onemask() as int;
        let la = spec_log(f, a);
        let lb = spec_log(f, b);
        let lc = spec_log(f, c);
        lemma_add_mod_noop(la + lb, lc, m);
        lemma_add_mod_noop(la, lb + lc, m);
        lemma_small_mod(lc as nat, m as nat);
        lemma_small_mod(la as nat, m as nat);
    }
}

/// The element `1` is the unit of the product.
pub proof fn lemma_product_unit(f: Field, a: u16)
    requires
        spec_field_is_valid(f),
        a < f.spec_size(),
    ensures
        spec_product(f, a, 1) == a,
        spec_product(f, 1, a) == a,
{
    lemma_log_exp(f);
    if a != 0 {
        lemma_small_mod(spec_log(f, a) as nat, f.spec_onemask() as nat);
    }
}

/// Every element but zero has an inverse.
pub proof fn lemma_product_inverse(f: Field, a: u16)
    requires
        spec_field_is_valid(f),
        1 <= a < f.spec_size(),
    ensures
        1 <= spec_inverse(f, a) < f.spec_size(),
        spec_product(f, a, spec_inverse(f, a)) == 1,
{
    lemma_log_exp(f);
    let m = f.spec_onemask() as int;
    let la = spec_log(f, a);
    lemma_mod_bound(m - la, m);
    let li = (m - la) % m;
    lemma_add_mod_noop(la, m - la, m);
    lemma_small_mod(la as nat, m as nat);
    lemma_mod_self_0(m);
}

/// Bit by bit, the sum over the set bits of `x ^ y` is the sum of the sums
/// over the set bits of `x` and of `y`.
pub proof fn lemma_bit_combine_is_additive(base: Seq<u16>, x: u16, y: u16, k: nat)
    requires
        k <= 16,
    ensures
        spec_bit_combine(base, x ^ y, k) == spec_bit_combine(base, x, k) ^ spec_bit_combine(
            base,
            y,
            k,
        ),
    decreases k,
{
    if k == 0 {
        lemma_xor_sums(0, 0, 0, 0, 0, 0, 0, 0);
    } else {
        lemma_bit_combine_is_additive(base, x, y, (k - 1) as nat);
        let i = (k - 1) as u16;
        let a = spec_bit_combine(base, x, (k - 1) as nat);
        let b = spec_bit_combine(base, y, (k - 1) as nat);
        let v = base[k - 1];
        assert(((x ^ y) >> i) & 1 == 1 <==> (((x >> i) & 1 == 1) != ((y >> i) & 1 == 1)))
            by (bit_vector)
            requires
                i < 16,
        ;
        lemma_xor_sums(a, b, v, 0, 0, 0, 0, 0);
        assert(spec_bit(x ^ y, (k - 1) as nat) == (spec_bit(x, (k - 1) as nat) != spec_bit(
            y,
            (k - 1) as nat,
        )));
    }
}

/// Multiplication by the generator is additive.
pub proof fn lemma_times_generator_is_additive(f: Field, x: u16, y: u16)
    requires
        spec_field_is_valid(f),
        x < f.spec_size(),
        y < f.spec_size(),
    ensures
        spec_times_generator(f, x ^ y) == spec_times_generator(f, x) ^ spec_times_generator(f, y),
{
    lemma_xor_in_field(f, x, y);
    lemma_bit_combine_is_additive(spec_generator_images(f), x, y, f.spec_bits() as nat);
    assert(spec_times_generator(f, x) == spec_bit_combine(
        spec_generator_images(f),
        x,
        f.spec_bits() as nat,
    ));
    assert(spec_times_generator(f, y) == spec_bit_combine(
        spec_generator_images(f),
        y,
        f.spec_bits() as nat,
    ));
    assert(spec_times_generator(f, x ^ y) == spec_bit_combine(
        spec_generator_images(f),
        x ^ y,
        f.spec_bits() as nat,
    ));
}

/// Multiplication by a power of the generator is additive.
pub proof fn lemma_times_power_is_additive(f: Field, l: nat, x: u16, y: u16)
    requires
        spec_field_is_valid(f),
        x < f.spec_size(),
        y < f.spec_size(),
    ensures
        spec_times_power(f, x ^ y, l as int) == spec_times_power(f, x, l as int)
            ^ spec_times_power(f, y, l as int),
    decreases l,
{
    lemma_log_exp(f);
    lemma_xor_in_field(f, x, y);
    let m = f.spec_onemask() as int;
    if l == 0 {
        lemma_times_power_zero(f, x);
        lemma_times_power_zero(f, y);
        lemma_times_power_zero(f, x ^ y);
    } else {
        let p = (l - 1) as nat;
        lemma_times_power_is_additive(f, p, x, y);
        let a = spec_times_power(f, x, p as int);
        let b = spec_times_power(f, y, p as int);
        lemma_times_power(f, x, p as int);
        lemma_times_power(f, y, p as int);
        lemma_times_generator_is_additive(f, a, b);
        lemma_times_power_step(f, x, p);
        lemma_times_power_step(f, y, p);
        lemma_times_power_step(f, x ^ y, p);
    }
}

/// Times the power zero of the generator, an element stays as it is.
proof fn lemma_times_power_zero(f: Field, x: u16)
    requires
        spec_field_is_valid(f),
        x < f.spec_size(),
    ensures
        spec_times_power(f, x, 0) == x,
{
    lemma_log_exp(f);
    if x != 0 {
        lemma_small_mod(spec_log(f, x) as nat, f.spec_onemask() as nat);
    }
}

/// Times the next power of the generator is times the power and then times
/// the generator.
proof fn lemma_times_power_step(f: Field, x: u16, p: nat)
    requires
        spec_field_is_valid(f),
        x < f.spec_size(),
    ensures
        spec_times_power(f, x, (p + 1) as int) == spec_times_generator(
            f,
            spec_times_power(f, x, p as int),
        ),
{
    lemma_log_exp(f);
    let m = f.spec_onemask() as int;
    let a = spec_times_power(f, x, p as int);
    lemma_times_power(f, x, p as int);
    lemma_mul_is_times_power(f, a, 1);
    if x != 0 {
        lemma_add_mod_noop(spec_log(f, x) + p, 1, m);
        lemma_small_mod(1, m as nat);
        assert(spec_log(f, a) == (spec_log(f, x) + p) % m);
    }
}

/// The product distributes over the sum.
pub proof fn lemma_product_distributes(f: Field, a: u16, b: u16, c: u16)
    requires
        spec_field_is_valid(f),
        a < f.spec_size(),
        b < f.spec_size(),
        c < f.spec_size(),
    ensures
        spec_product(f, a, b ^ c) == spec_product(f, a, b) ^ spec_product(f, a, c),
        spec_product(f, b ^ c, a) == spec_product(f, b, a) ^ spec_product(f, c, a),
{
    lemma_log_exp(f);
    lemma_xor_in_field(f, b, c);
    if a == 0 {
        lemma_xor_sums(0, 0, 0, 0, 0, 0, 0, 0);
    } else {
        lemma_times_power_is_additive(f, spec_log(f, a) as nat, b, c);
    }
}

} // verus!
