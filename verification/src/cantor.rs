//! Polynomial arithmetic over GF(2) and the Cantor bases of GF(2^8) and
//! GF(2^16).
use vstd::prelude::*;

verus! {

/// The polynomial `x^bits + generator` that defines a field of `2^bits`
/// elements.
pub open spec fn spec_reduction_polynomial(bits: u32, generator: u16) -> u32 {
    (1u32 << bits) | (generator as u32)
}

/// Whether `bits` and `generator` can describe a field whose elements fit
/// into 16 bits.
pub open spec fn spec_field_shape(bits: u32, generator: u16) -> bool {
    1 <= bits <= 16 && (generator as u32) < (1u32 << bits)
}

/// Whether `a` has a coefficient for every power below `x^bits` and no other.
pub open spec fn spec_is_element(a: u16, bits: u32) -> bool {
    (a as u32) < (1u32 << bits)
}

/// Product of the low `steps` coefficients of `b` with the polynomial `a`,
/// both over GF(2): the sum of `a * x^i` over the set bits `i < steps` of
/// `b`.
pub open spec fn spec_bitpoly_mul(a: u32, b: u32, steps: nat) -> u32
    decreases steps,
{
    if steps == 0 {
        0
    } else {
        let i = (steps - 1) as u32;
        let r = spec_bitpoly_mul(a, b, (steps - 1) as nat);
        if (b >> i) & 1 != 0 {
            r ^ (a << i)
        } else {
            r
        }
    }
}

/// Cancels the coefficient of `x^i` in `r`, `bits <= i < 2 * bits`, by adding
/// a multiple of the reduction polynomial `poly`.
pub open spec fn spec_reduce_step(r: u32, i: u32, bits: u32, poly: u32) -> u32 {
    if r & (1u32 << i) != 0 {
        r ^ (poly << ((i - bits) as u32))
    } else {
        r
    }
}

/// Cancels the coefficients of `x^(2 * bits - 1)` down to `x^i` in `r`.
pub open spec fn spec_reduce(r: u32, i: nat, bits: u32, poly: u32) -> u32
    decreases 2 * bits - i,
{
    if i >= 2 * bits {
        r
    } else {
        spec_reduce_step(spec_reduce(r, i + 1, bits, poly), i as u32, bits, poly)
    }
}

/// Product of `a` and `b` in the field of `2^bits` elements that
/// `x^bits + generator` defines, both in the polynomial basis.
pub open spec fn spec_gf_mul(a: u16, b: u16, bits: u32, generator: u16) -> u16 {
    spec_reduce(
        spec_bitpoly_mul(a as u32, b as u32, bits as nat),
        bits as nat,
        bits,
        spec_reduction_polynomial(bits, generator),
    ) as u16
}

/// The basis element before `b`: `b^2 + b`.
pub open spec fn spec_cantor_prev(b: u16, bits: u32, generator: u16) -> u16 {
    b ^ spec_gf_mul(b, b, bits, generator)
}

/// What `steps` applications of `b -> b^2 + b` make of `seed`.
pub open spec fn spec_cantor_chain(seed: u16, steps: nat, bits: u32, generator: u16) -> u16
    decreases steps,
{
    if steps == 0 {
        seed
    } else {
        spec_cantor_prev(
            spec_cantor_chain(seed, (steps - 1) as nat, bits, generator),
            bits,
            generator,
        )
    }
}

/// Whether `seed` is the last element of a Cantor basis: the chain from it
/// stays clear of `0` and `1` for `bits - 1` elements, and the element after
/// those is not `0` and is mapped to `0`.
pub open spec fn spec_cantor_seed_ok(seed: u16, bits: u32, generator: u16) -> bool {
    &&& forall|s: nat| s + 1 < bits ==> #[trigger] spec_cantor_chain(seed, s, bits, generator) >= 2
    &&& spec_cantor_chain(seed, (bits - 1) as nat, bits, generator) != 0
    &&& spec_cantor_chain(seed, bits as nat, bits, generator) == 0
}

/// The basis that grows from `seed`, first element first.
pub open spec fn spec_cantor_basis(seed: u16, bits: u32, generator: u16) -> Seq<u16> {
    Seq::new(
        bits as nat,
        |i: int| spec_cantor_chain(seed, (bits - 1 - i) as nat, bits, generator),
    )
}

/// Whether each element of `base` but the last is the square of its successor
/// plus that successor.
pub open spec fn spec_is_cantor_basis(base: Seq<u16>, bits: u32, generator: u16) -> bool {
    forall|i: int|
        0 <= i && i + 1 < base.len() ==> #[trigger] base[i] == spec_cantor_prev(
            base[i + 1],
            bits,
            generator,
        )
}

/// Every basis that grows from a seed obeys the Cantor recurrence.
pub proof fn lemma_grown_basis_is_cantor_basis(seed: u16, bits: u32, generator: u16)
    requires
        bits >= 1,
    ensures
        spec_cantor_basis(seed, bits, generator).len() == bits,
        spec_cantor_basis(seed, bits, generator)[bits - 1] == seed,
        spec_is_cantor_basis(spec_cantor_basis(seed, bits, generator), bits, generator),
{
    let base = spec_cantor_basis(seed, bits, generator);
    assert forall|i: int| 0 <= i && i + 1 < base.len() implies #[trigger] base[i]
        == spec_cantor_prev(base[i + 1], bits, generator) by {
        assert(spec_cantor_chain(seed, (bits - 1 - i) as nat, bits, generator)
            == spec_cantor_prev(
            spec_cantor_chain(seed, (bits - 1 - i - 1) as nat, bits, generator),
            bits,
            generator,
        ));
    }
}

/// Product of the polynomial `a` over GF(2) with the polynomial of degree
/// below `bits` that the low bits of `b` stand for.
pub fn bitpoly_mul(a: u32, b: u32, bits: u32) -> (r: u32)
    requires
        bits <= 16,
    ensures
        r == spec_bitpoly_mul(a, b, bits as nat),
{
    let mut r: u32 = 0;
    let mut i: u32 = 0;
    while i < bits
        invariant
            i <= bits <= 16,
            r == spec_bitpoly_mul(a, b, i as nat),
        decreases bits - i,
    {
        if (b >> i) & 1 != 0 {
            r ^= a << i;
        }
        i += 1;
    }
    r
}

/// Product of two polynomials over GF(2) of degree below 16.
pub fn bitpoly_mul16(a: u32, b: u32) -> (r: u32)
    ensures
        r == spec_bitpoly_mul(a, b, 16),
{
    bitpoly_mul(a, b, 16)
}

/// The product of a polynomial of degree below `bits` with `steps`
/// coefficients of another stays below degree `bits + steps - 1`.
proof fn lemma_bitpoly_mul_degree(a: u32, b: u32, bits: u32, steps: nat)
    requires
        1 <= bits <= 16,
        a < (1u32 << bits),
        steps <= bits,
    ensures
        steps > 0 ==> (spec_bitpoly_mul(a, b, steps) as u64) >> ((bits + steps - 1) as u64) == 0,
        steps == 0 ==> spec_bitpoly_mul(a, b, steps) == 0,
    decreases steps,
{
    if steps > 0 {
        lemma_bitpoly_mul_degree(a, b, bits, (steps - 1) as nat);
        let i = (steps - 1) as u32;
        let r = spec_bitpoly_mul(a, b, (steps - 1) as nat);
        let x = r ^ (a << i);
        assert((x as u64) >> ((bits + i) as u64) == 0 && (r as u64) >> ((bits + i) as u64) == 0)
            by (bit_vector)
            requires
                1 <= bits <= 16,
                i < bits,
                a < (1u32 << bits),
                i == 0 ==> r == 0,
                i > 0 ==> (r as u64) >> ((bits + i - 1) as u64) == 0,
                x == r ^ (a << i),
        ;
    }
}

/// Product in the field of `2^bits` elements by shift-and-add multiplication
/// followed by reduction modulo `x^bits + generator`.
pub fn gf_mul_bitpoly_reduced(a: u16, b: u16, bits: u32, generator: u16) -> (r: u16)
    requires
        spec_field_shape(bits, generator),
        spec_is_element(a, bits),
    ensures
        r == spec_gf_mul(a, b, bits, generator),
        spec_is_element(r, bits),
{
    let r0: u32 = bitpoly_mul(a as u32, b as u32, bits);
    let red: u32 = (1u32 << bits) | (generator as u32);
    let mut r: u32 = r0;
    let mut i: u32 = 2 * bits;
    proof {
        lemma_bitpoly_mul_degree(a as u32, b as u32, bits, bits as nat);
        assert((r0 as u64) >> ((2 * bits) as u64) == 0) by (bit_vector)
            requires
                1 <= bits <= 16,
                (r0 as u64) >> ((bits + bits - 1) as u64) == 0,
        ;
    }
    while i > bits
        invariant
            1 <= bits <= i <= 2 * bits <= 32,
            (generator as u32) < (1u32 << bits),
            red == spec_reduction_polynomial(bits, generator),
            r == spec_reduce(r0, i as nat, bits, red),
            (r as u64) >> (i as u64) == 0,
        decreases i,
    {
        i -= 1;
        let ghost before = r;
        if r & (1u32 << i) != 0 {
            r ^= red << (i - bits);
        }
        assert((r as u64) >> (i as u64) == 0) by (bit_vector)
            requires
                1 <= bits <= 16,
                bits <= i < 2 * bits,
                (generator as u32) < (1u32 << bits),
                red == (1u32 << bits) | (generator as u32),
                (before as u64) >> ((i + 1) as u64) == 0,
                r == (if before & (1u32 << i) != 0 {
                    before ^ (red << ((i - bits) as u32))
                } else {
                    before
                }),
        ;
    }
    assert(r < (1u32 << bits) && r < 0x10000) by (bit_vector)
        requires
            1 <= bits <= 16,
            (r as u64) >> (bits as u64) == 0,
    ;
    r as u16
}

/// Product in GF(2^16) as `x^16 + x^5 + x^3 + x^2 + 1` defines it.
pub fn gf_mul_0x1002d(a: u16, b: u16) -> (r: u16)
    ensures
        r == spec_gf_mul(a, b, 16, 0x2D),
{
    assert(spec_field_shape(16, 0x2D) && spec_is_element(a, 16)) by (bit_vector);
    gf_mul_bitpoly_reduced(a, b, 16, 0x2D)
}

/// Grows a Cantor basis from its last element `next`, or finds that `next` is
/// the last element of none. In the two fields of this library the basis
/// begins with `1`.
pub fn generate_cantor_basis(next: u16, bits: u32, generator: u16) -> (res: Option<Vec<u16>>)
    requires
        spec_field_shape(bits, generator),
        spec_is_element(next, bits),
    ensures
        res is Some <==> spec_cantor_seed_ok(next, bits, generator),
        res matches Some(base) ==> base@ == spec_cantor_basis(next, bits, generator) && forall|
            i: int,
        | 0 <= i < base@.len() ==> spec_is_element(#[trigger] base@[i], bits),
        res matches Some(base) ==> base@.len() == bits && base@[bits - 1] == next
            && spec_is_cantor_basis(base@, bits, generator),
        res matches Some(base) ==> spec_defines_field(bits, generator) ==> base@[0] == 1,
{
    let mut base: Vec<u16> = Vec::new();
    let mut n: u32 = 0;
    while n < bits
        invariant
            n <= bits,
            base@.len() == n,
        decreases bits - n,
    {
        base.push(0);
        n += 1;
    }
    let mut cur: u16 = next;
    let mut s: u32 = 0;
    while s < bits
        invariant
            s <= bits,
            spec_field_shape(bits, generator),
            spec_is_element(cur, bits),
            base@.len() == bits,
            cur == spec_cantor_chain(next, s as nat, bits, generator),
            forall|t: nat|
                t < s && t + 1 < bits ==> #[trigger] spec_cantor_chain(next, t, bits, generator)
                    >= 2,
            s == bits ==> spec_cantor_chain(next, (bits - 1) as nat, bits, generator) != 0,
            forall|i: int|
                bits - s <= i < bits ==> base@[i] == spec_cantor_chain(
                    next,
                    (bits - 1 - i) as nat,
                    bits,
                    generator,
                ) && spec_is_element(#[trigger] base@[i], bits),
        decreases bits - s,
    {
        if cur == 0 || (cur == 1 && s + 1 != bits) {
            return None;
        }
        base.set((bits - 1 - s) as usize, cur);
        let square: u16 = gf_mul_bitpoly_reduced(cur, cur, bits, generator);
        let sum: u16 = cur ^ square;
        assert(spec_is_element(sum, bits)) by (bit_vector)
            requires
                1 <= bits <= 16,
                (cur as u32) < (1u32 << bits),
                (square as u32) < (1u32 << bits),
                sum == cur ^ square,
        ;
        cur = sum;
        s += 1;
    }
    if cur == 0 {
        assert(base@ =~= spec_cantor_basis(next, bits, generator));
        proof {
            lemma_grown_basis_is_cantor_basis(next, bits, generator);
            if spec_defines_field(bits, generator) {
                lemma_cantor_basis_begins_with_one(next, bits, generator);
            }
        }
        Some(base)
    } else {
        None
    }
}

/// Whether `base`, a sequence of elements of the field, obeys the Cantor
/// recurrence.
pub fn is_cantor_basis(base: &[u16], bits: u32, generator: u16) -> (b: bool)
    requires
        spec_field_shape(bits, generator),
        forall|i: int| 0 <= i < base@.len() ==> spec_is_element(#[trigger] base@[i], bits),
    ensures
        b == spec_is_cantor_basis(base@, bits, generator),
{
    let mut i: usize = 1;
    while i < base.len()
        invariant
            1 <= i,
            spec_field_shape(bits, generator),
            forall|i: int| 0 <= i < base@.len() ==> spec_is_element(#[trigger] base@[i], bits),
            forall|t: int|
                0 <= t && t + 1 < i && t + 1 < base@.len() ==> #[trigger] base@[t]
                    == spec_cantor_prev(base@[t + 1], bits, generator),
        decreases base@.len() - i,
    {
        let b: u16 = base[i];
        let square: u16 = gf_mul_bitpoly_reduced(b, b, bits, generator);
        if base[i - 1] != (b ^ square) {
            assert(base@[i - 1] != spec_cantor_prev(base@[(i - 1) + 1], bits, generator));
            return false;
        }
        i += 1;
    }
    true
}

/// In GF(2^8) no element but `0` and `1` is its own square: the
/// polynomial that defines the field does not split.
pub proof fn lemma_no_idempotent_in_gf256(a: u16)
    requires
        spec_is_element(a, 8),
    ensures
        spec_is_element(spec_gf_mul(a, a, 8, 0x1D), 8),
        spec_gf_mul(a, a, 8, 0x1D) == a ==> a == 0 || a == 1,
{
    let e = a as u32;
    let poly = spec_reduction_polynomial(8, 0x1D);
    reveal_with_fuel(spec_bitpoly_mul, 9);
    reveal_with_fuel(spec_reduce, 9);
    // the product, coefficient by coefficient of the second factor
    let m0 = 0u32;
    let m1 = if (e >> 0u32) & 1 != 0 {
        m0 ^ (e << 0u32)
    } else {
        m0
    };
    let m2 = if (e >> 1u32) & 1 != 0 {
        m1 ^ (e << 1u32)
    } else {
        m1
    };
    let m3 = if (e >> 2u32) & 1 != 0 {
        m2 ^ (e << 2u32)
    } else {
        m2
    };
    let m4 = if (e >> 3u32) & 1 != 0 {
        m3 ^ (e << 3u32)
    } else {
        m3
    };
    let m5 = if (e >> 4u32) & 1 != 0 {
        m4 ^ (e << 4u32)
    } else {
        m4
    };
    let m6 = if (e >> 5u32) & 1 != 0 {
        m5 ^ (e << 5u32)
    } else {
        m5
    };
    let m7 = if (e >> 6u32) & 1 != 0 {
        m6 ^ (e << 6u32)
    } else {
        m6
    };
    let m8 = if (e >> 7u32) & 1 != 0 {
        m7 ^ (e << 7u32)
    } else {
        m7
    };
    assert(m8 == spec_bitpoly_mul(e, e, 8));
    // the reduction, from the highest coefficient down
    let t16 = m8;
    let t15 = spec_reduce_step(t16, 15, 8, poly);
    let t14 = spec_reduce_step(t15, 14, 8, poly);
    let t13 = spec_reduce_step(t14, 13, 8, poly);
    let t12 = spec_reduce_step(t13, 12, 8, poly);
    let t11 = spec_reduce_step(t12, 11, 8, poly);
    let t10 = spec_reduce_step(t11, 10, 8, poly);
    let t9 = spec_reduce_step(t10, 9, 8, poly);
    let t8 = spec_reduce_step(t9, 8, 8, poly);
    assert(t8 == spec_reduce(m8, 8, 8, poly));
    assert(t8 <= 0xFFFF && t8 < (1u32 << 8u32) && (t8 == e ==> e == 0 || e == 1))
        by (bit_vector)
        requires
            e < (1u32 << 8u32),
            poly == (1u32 << 8u32) | (0x1Du16 as u32),
            m0 == 0,
            m1 == (if (e >> 0u32) & 1 != 0 {
                m0 ^ (e << 0u32)
            } else {
                m0
            }),
            m2 == (if (e >> 1u32) & 1 != 0 {
                m1 ^ (e << 1u32)
            } else {
                m1
            }),
            m3 == (if (e >> 2u32) & 1 != 0 {
                m2 ^ (e << 2u32)
            } else {
                m2
            }),
            m4 == (if (e >> 3u32) & 1 != 0 {
                m3 ^ (e << 3u32)
            } else {
                m3
            }),
            m5 == (if (e >> 4u32) & 1 != 0 {
                m4 ^ (e << 4u32)
            } else {
                m4
            }),
            m6 == (if (e >> 5u32) & 1 != 0 {
                m5 ^ (e << 5u32)
            } else {
                m5
            }),
            m7 == (if (e >> 6u32) & 1 != 0 {
                m6 ^ (e << 6u32)
            } else {
                m6
            }),
            m8 == (if (e >> 7u32) & 1 != 0 {
                m7 ^ (e << 7u32)
            } else {
                m7
            }),
            t16 == m8,
            t15 == (if t16 & (1u32 << 15u32) != 0 {
                t16 ^ (poly << 7u32)
            } else {
                t16
            }),
            t14 == (if t15 & (1u32 << 14u32) != 0 {
                t15 ^ (poly << 6u32)
            } else {
                t15
            }),
            t13 == (if t14 & (1u32 << 13u32) != 0 {
                t14 ^ (poly << 5u32)
            } else {
                t14
            }),
            t12 == (if t13 & (1u32 << 12u32) != 0 {
                t13 ^ (poly << 4u32)
            } else {
                t13
            }),
            t11 == (if t12 & (1u32 << 11u32) != 0 {
                t12 ^ (poly << 3u32)
            } else {
                t12
            }),
            t10 == (if t11 & (1u32 << 10u32) != 0 {
                t11 ^ (poly << 2u32)
            } else {
                t11
            }),
            t9 == (if t10 & (1u32 << 9u32) != 0 {
                t10 ^ (poly << 1u32)
            } else {
                t10
            }),
            t8 == (if t9 & (1u32 << 8u32) != 0 {
                t9 ^ (poly << 0u32)
            } else {
                t9
            }),
    ;
}

/// The polynomial over GF(2) with the coefficients of `e` at the even
/// powers: coefficient `i` of `e`, a polynomial of degree below 16, becomes
/// coefficient `2 * i`.
pub open spec fn spec_spread(e: u32) -> u32 {
    let by_eight = (e | (e << 8u32)) & 0x00FF00FFu32;
    let by_four = (by_eight | (by_eight << 4u32)) & 0x0F0F0F0Fu32;
    let by_two = (by_four | (by_four << 2u32)) & 0x33333333u32;
    (by_two | (by_two << 1u32)) & 0x55555555u32
}

/// The low `k` coefficients of `e`.
pub open spec fn spec_low_coefficients(e: u32, k: u32) -> u32 {
    e & (((1u32 << k) - 1) as u32)
}

/// The product over GF(2) is additive in its first factor.
proof fn lemma_bitpoly_mul_adds(a: u32, c: u32, b: u32, steps: nat)
    requires
        steps <= 32,
    ensures
        spec_bitpoly_mul(a ^ c, b, steps) == spec_bitpoly_mul(a, b, steps) ^ spec_bitpoly_mul(
            c,
            b,
            steps,
        ),
    decreases steps,
{
    if steps == 0 {
        assert(0u32 ^ 0u32 == 0u32) by (bit_vector);
    } else {
        lemma_bitpoly_mul_adds(a, c, b, (steps - 1) as nat);
        let i = (steps - 1) as u32;
        let ra = spec_bitpoly_mul(a, b, (steps - 1) as nat);
        let rc = spec_bitpoly_mul(c, b, (steps - 1) as nat);
        assert((ra ^ rc) ^ ((a ^ c) << i) == (ra ^ (a << i)) ^ (rc ^ (c << i))) by (bit_vector)
            requires
                i < 32,
        ;
    }
}

/// One more coefficient in the second factor adds the first factor times
/// the power of that coefficient to the product over GF(2).
proof fn lemma_bitpoly_mul_one_more(a: u32, x: u32, k: u32, steps: nat)
    requires
        k < 32,
        steps <= 32,
        (x >> k) & 1 == 0,
    ensures
        spec_bitpoly_mul(a, x ^ (1u32 << k), steps) == (if k < steps {
            spec_bitpoly_mul(a, x, steps) ^ (a << k)
        } else {
            spec_bitpoly_mul(a, x, steps)
        }),
    decreases steps,
{
    if steps > 0 {
        lemma_bitpoly_mul_one_more(a, x, k, (steps - 1) as nat);
        let i = (steps - 1) as u32;
        let y = x ^ (1u32 << k);
        let r = spec_bitpoly_mul(a, x, (steps - 1) as nat);
        assert((i != k ==> (((y >> i) & 1 != 0) <==> ((x >> i) & 1 != 0))) && (i == k ==> (y >> i)
            & 1 != 0) && (r ^ (a << k)) ^ (a << i) == (r ^ (a << i)) ^ (a << k)) by (bit_vector)
            requires
                i < 32,
                k < 32,
                (x >> k) & 1 == 0,
                y == x ^ (1u32 << k),
        ;
    }
}

/// The product over GF(2) of a power of the variable and a polynomial is
/// the polynomial shifted by the power.
proof fn lemma_bitpoly_mul_by_power(k: u32, b: u32, steps: nat)
    requires
        k < 16,
        steps <= 16,
    ensures
        spec_bitpoly_mul(1u32 << k, b, steps) == spec_low_coefficients(b, steps as u32) << k,
    decreases steps,
{
    if steps == 0 {
        assert((b & (((1u32 << 0u32) - 1) as u32)) << k == 0) by (bit_vector);
    } else {
        lemma_bitpoly_mul_by_power(k, b, (steps - 1) as nat);
        let i = (steps - 1) as u32;
        let j = steps as u32;
        let p = 1u32 << k;
        let before = spec_low_coefficients(b, i) << k;
        let after = spec_low_coefficients(b, j) << k;
        assert(after == (if (b >> i) & 1 != 0 {
            before ^ (p << i)
        } else {
            before
        })) by (bit_vector)
            requires
                k < 16,
                i < 16,
                j == i + 1,
                p == 1u32 << k,
                before == (b & (((1u32 << i) - 1) as u32)) << k,
                after == (b & (((1u32 << j) - 1) as u32)) << k,
        ;
    }
}

/// The square over GF(2) of a polynomial of degree below 16 has the
/// coefficients of the polynomial at the even powers: the products of
/// different coefficients come twice and cancel.
proof fn lemma_square_spreads(e: u32, k: nat)
    requires
        e < 0x10000,
        k <= 16,
    ensures
        spec_bitpoly_mul(
            spec_low_coefficients(e, k as u32),
            spec_low_coefficients(e, k as u32),
            16,
        ) == spec_spread(spec_low_coefficients(e, k as u32)),
    decreases k,
{
    if k == 0 {
        let z = spec_low_coefficients(e, 0);
        assert(z == 0 && spec_spread(0) == 0 && 0u32 ^ 0u32 == 0) by (bit_vector)
            requires
                z == e & (((1u32 << 0u32) - 1) as u32),
        ;
        // nothing times nothing is one times nothing, twice
        lemma_bitpoly_mul_by_power(0, 0, 16);
        lemma_bitpoly_mul_adds(1, 1, 0, 16);
        assert(spec_low_coefficients(0, 16) << 0u32 == 0 && 1u32 ^ 1u32 == 0 && 1u32 << 0u32
            == 1) by (bit_vector);
    } else {
        let j = (k - 1) as u32;
        lemma_square_spreads(e, (k - 1) as nat);
        let x = spec_low_coefficients(e, j);
        let y = spec_low_coefficients(e, k as u32);
        let p = 1u32 << j;
        let sx = spec_spread(x);
        let sy = spec_spread(y);
        if (e >> j) & 1 != 0 {
            assert(y == x ^ p && (x >> j) & 1 == 0 && sy == (sx ^ (x << j)) ^ (
            spec_low_coefficients(y, 16) << j)) by (bit_vector)
                requires
                    j < 16,
                    e < 0x10000,
                    (e >> j) & 1 != 0,
                    p == 1u32 << j,
                    x == e & (((1u32 << j) - 1) as u32),
                    y == e & (((1u32 << ((j + 1) as u32)) - 1) as u32),
                    sx == ({
                        let by_eight = (x | (x << 8u32)) & 0x00FF00FFu32;
                        let by_four = (by_eight | (by_eight << 4u32)) & 0x0F0F0F0Fu32;
                        let by_two = (by_four | (by_four << 2u32)) & 0x33333333u32;
                        (by_two | (by_two << 1u32)) & 0x55555555u32
                    }),
                    sy == ({
                        let by_eight = (y | (y << 8u32)) & 0x00FF00FFu32;
                        let by_four = (by_eight | (by_eight << 4u32)) & 0x0F0F0F0Fu32;
                        let by_two = (by_four | (by_four << 2u32)) & 0x33333333u32;
                        (by_two | (by_two << 1u32)) & 0x55555555u32
                    }),
            ;
            lemma_bitpoly_mul_adds(x, p, y, 16);
            lemma_bitpoly_mul_one_more(x, x, j, 16);
            lemma_bitpoly_mul_by_power(j, y, 16);
        } else {
            assert(y == x) by (bit_vector)
                requires
                    j < 16,
                    (e >> j) & 1 == 0,
                    x == e & (((1u32 << j) - 1) as u32),
                    y == e & (((1u32 << ((j + 1) as u32)) - 1) as u32),
            ;
        }
    }
}

/// In GF(2^16) no element but `0` and `1` is its own square: the
/// polynomial that defines the field does not split.
pub proof fn lemma_no_idempotent_in_gf65536(a: u16)
    ensures
        spec_gf_mul(a, a, 16, 0x2D) == a ==> a == 0 || a == 1,
{
    let e = a as u32;
    let poly = spec_reduction_polynomial(16, 0x2D);
    lemma_square_spreads(e, 16);
    let square = spec_spread(e);
    assert(spec_low_coefficients(e, 16) == e) by (bit_vector)
        requires
            e < 0x10000,
    ;
    reveal_with_fuel(spec_reduce, 17);
    // the reduction, from the highest coefficient down
    let t32 = square;
    let t31 = spec_reduce_step(t32, 31, 16, poly);
    let t30 = spec_reduce_step(t31, 30, 16, poly);
    let t29 = spec_reduce_step(t30, 29, 16, poly);
    let t28 = spec_reduce_step(t29, 28, 16, poly);
    let t27 = spec_reduce_step(t28, 27, 16, poly);
    let t26 = spec_reduce_step(t27, 26, 16, poly);
    let t25 = spec_reduce_step(t26, 25, 16, poly);
    let t24 = spec_reduce_step(t25, 24, 16, poly);
    let t23 = spec_reduce_step(t24, 23, 16, poly);
    let t22 = spec_reduce_step(t23, 22, 16, poly);
    let t21 = spec_reduce_step(t22, 21, 16, poly);
    let t20 = spec_reduce_step(t21, 20, 16, poly);
    let t19 = spec_reduce_step(t20, 19, 16, poly);
    let t18 = spec_reduce_step(t19, 18, 16, poly);
    let t17 = spec_reduce_step(t18, 17, 16, poly);
    let t16 = spec_reduce_step(t17, 16, 16, poly);
    assert(t16 == spec_reduce(square, 16, 16, poly));
    assert(t16 <= 0xFFFF && (t16 == e ==> e == 0 || e == 1)) by (bit_vector)
        requires
            e < 0x10000,
            poly == (1u32 << 16u32) | (0x2Du16 as u32),
            t32 == ({
                let by_eight = (e | (e << 8u32)) & 0x00FF00FFu32;
                let by_four = (by_eight | (by_eight << 4u32)) & 0x0F0F0F0Fu32;
                let by_two = (by_four | (by_four << 2u32)) & 0x33333333u32;
                (by_two | (by_two << 1u32)) & 0x55555555u32
            }),
            t31 == (if t32 & (1u32 << 31u32) != 0 {
                t32 ^ (poly << 15u32)
            } else {
                t32
            }),
            t30 == (if t31 & (1u32 << 30u32) != 0 {
                t31 ^ (poly << 14u32)
            } else {
                t31
            }),
            t29 == (if t30 & (1u32 << 29u32) != 0 {
                t30 ^ (poly << 13u32)
            } else {
                t30
            }),
            t28 == (if t29 & (1u32 << 28u32) != 0 {
                t29 ^ (poly << 12u32)
            } else {
                t29
            }),
            t27 == (if t28 & (1u32 << 27u32) != 0 {
                t28 ^ (poly << 11u32)
            } else {
                t28
            }),
            t26 == (if t27 & (1u32 << 26u32) != 0 {
                t27 ^ (poly << 10u32)
            } else {
                t27
            }),
            t25 == (if t26 & (1u32 << 25u32) != 0 {
                t26 ^ (poly << 9u32)
            } else {
                t26
            }),
            t24 == (if t25 & (1u32 << 24u32) != 0 {
                t25 ^ (poly << 8u32)
            } else {
                t25
            }),
            t23 == (if t24 & (1u32 << 23u32) != 0 {
                t24 ^ (poly << 7u32)
            } else {
                t24
            }),
            t22 == (if t23 & (1u32 << 22u32) != 0 {
                t23 ^ (poly << 6u32)
            } else {
                t23
            }),
            t21 == (if t22 & (1u32 << 21u32) != 0 {
                t22 ^ (poly << 5u32)
            } else {
                t22
            }),
            t20 == (if t21 & (1u32 << 20u32) != 0 {
                t21 ^ (poly << 4u32)
            } else {
                t21
            }),
            t19 == (if t20 & (1u32 << 19u32) != 0 {
                t20 ^ (poly << 3u32)
            } else {
                t20
            }),
            t18 == (if t19 & (1u32 << 18u32) != 0 {
                t19 ^ (poly << 2u32)
            } else {
                t19
            }),
            t17 == (if t18 & (1u32 << 17u32) != 0 {
                t18 ^ (poly << 1u32)
            } else {
                t18
            }),
            t16 == (if t17 & (1u32 << 16u32) != 0 {
                t17 ^ (poly << 0u32)
            } else {
                t17
            }),
    ;
}

/// Whether `x^bits + generator` is one of the two polynomials of this
/// library, which define the fields GF(2^8) and GF(2^16).
pub open spec fn spec_defines_field(bits: u32, generator: u16) -> bool {
    (bits == 8 && generator == crate::f256::GENERATOR) || (bits == 16 && generator
        == crate::f2e16::GENERATOR)
}

/// In a field no element but `0` and `1` is its own square.
pub proof fn lemma_no_idempotent(a: u16, bits: u32, generator: u16)
    requires
        spec_defines_field(bits, generator),
        spec_is_element(a, bits),
    ensures
        spec_is_element(spec_gf_mul(a, a, bits, generator), bits),
        spec_gf_mul(a, a, bits, generator) == a ==> a == 0 || a == 1,
{
    if bits == 8 {
        lemma_no_idempotent_in_gf256(a);
    } else {
        lemma_no_idempotent_in_gf65536(a);
        let r = spec_gf_mul(a, a, 16, 0x2D);
        assert((r as u32) < (1u32 << 16u32)) by (bit_vector);
    }
}

/// The chain from an element of a field stays in the field.
pub proof fn lemma_cantor_chain_in_field(seed: u16, steps: nat, bits: u32, generator: u16)
    requires
        spec_defines_field(bits, generator),
        spec_is_element(seed, bits),
    ensures
        spec_is_element(spec_cantor_chain(seed, steps, bits, generator), bits),
    decreases steps,
{
    if steps > 0 {
        lemma_cantor_chain_in_field(seed, (steps - 1) as nat, bits, generator);
        let b = spec_cantor_chain(seed, (steps - 1) as nat, bits, generator);
        lemma_no_idempotent(b, bits, generator);
        let square = spec_gf_mul(b, b, bits, generator);
        assert(((b ^ square) as u32) < (1u32 << bits)) by (bit_vector)
            requires
                bits == 8 || bits == 16,
                (b as u32) < (1u32 << bits),
                (square as u32) < (1u32 << bits),
        ;
    }
}

/// A Cantor basis of a field begins with `1`: its first element is not
/// zero and is mapped to zero, so it is its own square.
pub proof fn lemma_cantor_basis_begins_with_one(seed: u16, bits: u32, generator: u16)
    requires
        spec_defines_field(bits, generator),
        spec_is_element(seed, bits),
        spec_cantor_seed_ok(seed, bits, generator),
    ensures
        spec_cantor_basis(seed, bits, generator)[0] == 1,
{
    let first = spec_cantor_chain(seed, (bits - 1) as nat, bits, generator);
    lemma_cantor_chain_in_field(seed, (bits - 1) as nat, bits, generator);
    lemma_no_idempotent(first, bits, generator);
    let square = spec_gf_mul(first, first, bits, generator);
    assert(spec_cantor_chain(seed, bits as nat, bits, generator) == spec_cantor_prev(
        first,
        bits,
        generator,
    ));
    assert(first ^ square == 0 ==> square == first) by (bit_vector);
}

} // verus!
