//! The tables of a field: logarithms and their inverse in Cantor
//! coordinates, the Walsh transform of the logarithms, the skew factors of
//! the additive FFT and the twist of the formal derivative; what they are
//! made from, and the test that logarithms and exponentials are each other's
//! inverse.
use crate::cantor::{
    generate_cantor_basis, lemma_grown_basis_is_cantor_basis, spec_cantor_basis,
    spec_cantor_seed_ok, spec_field_shape, spec_is_cantor_basis, spec_is_element,
};
use crate::field::{Additive, Field, Logarithm};
use crate::util::{lemma_log2_bounds, lemma_log2_lt, log2, shl_one, spec_log2};
use crate::walsh::{lemma_walsh_len, spec_walsh, walsh};
use vstd::arithmetic::power2::{lemma2_to64, lemma_pow2_pos, lemma_pow2_strictly_increases, pow2};
use vstd::prelude::*;

verus! {

/// Multiplies an element of the field `f` in the polynomial basis by `x`.
pub open spec fn spec_lfsr_step(f: Field, s: u16) -> u16 {
    match f {
        Field::F256 => if s >> 7 != 0 {
            ((s & 0x7F) << 1) ^ crate::f256::GENERATOR
        } else {
            s << 1
        },
        Field::F2e16 => if s >> 15 != 0 {
            ((s & 0x7FFF) << 1) ^ crate::f2e16::GENERATOR
        } else {
            s << 1
        },
    }
}

/// The power `x^i` in the polynomial basis of the field `f`.
pub open spec fn spec_lfsr_pow(f: Field, i: nat) -> u16
    decreases i,
{
    if i == 0 {
        1
    } else {
        spec_lfsr_step(f, spec_lfsr_pow(f, (i - 1) as nat))
    }
}

/// The largest exponent `i < m` with `x^i == s`, or `0` if there is none.
pub open spec fn spec_dlog_upto(f: Field, s: u16, m: nat) -> u16
    decreases m,
{
    if m == 0 {
        0
    } else if spec_lfsr_pow(f, (m - 1) as nat) == s {
        (m - 1) as u16
    } else {
        spec_dlog_upto(f, s, (m - 1) as nat)
    }
}

/// The discrete logarithm of `s` to the base `x`, with `ONEMASK` for `0`.
pub open spec fn spec_dlog(f: Field, s: u16) -> u16 {
    if s == 0 {
        f.spec_onemask()
    } else {
        spec_dlog_upto(f, s, f.spec_onemask() as nat)
    }
}

/// The element of the polynomial basis with the coordinates `j` in `base`:
/// the sum of `base[p]` over the set bits `p` of `j`.
pub open spec fn spec_cantor_combine(base: Seq<u16>, j: nat) -> u16
    decreases j,
{
    if j == 0 {
        0
    } else {
        let p = spec_log2(j);
        if 1 <= pow2(p) <= j {
            spec_cantor_combine(base, (j - pow2(p)) as nat) ^ base[p as int]
        } else {
            0
        }
    }
}

/// The Cantor basis of the field `f`.
pub open spec fn spec_base_table(f: Field) -> Seq<u16> {
    spec_cantor_basis(f.spec_base_final(), f.spec_bits(), f.spec_generator())
}

/// Entry `j` of the logarithm table: the discrete logarithm of the element
/// with Cantor coordinates `j`.
pub open spec fn spec_log_entry(f: Field, j: nat) -> u16 {
    spec_dlog(f, spec_cantor_combine(spec_base_table(f), j))
}

/// The logarithm table: additive form to logarithm.
pub open spec fn spec_log_table(f: Field) -> Seq<u16> {
    Seq::new(f.spec_size(), |j: int| spec_log_entry(f, j as nat))
}

/// The largest `i < m` whose logarithm is `l`; where there is none, what the
/// slot held before it was filled.
pub open spec fn spec_exp_upto(f: Field, l: u16, m: nat) -> u16
    decreases m,
{
    if m == 0 {
        spec_dlog(f, l)
    } else if spec_log_entry(f, (m - 1) as nat) == l {
        (m - 1) as u16
    } else {
        spec_exp_upto(f, l, (m - 1) as nat)
    }
}

/// Entry `l` of the exponential table. The last slot repeats the first so
/// that both forms of the residue zero give the same element.
pub open spec fn spec_exp_entry(f: Field, l: nat) -> u16 {
    if l == f.spec_onemask() {
        spec_exp_upto(f, 0, f.spec_size())
    } else {
        spec_exp_upto(f, l as u16, f.spec_size())
    }
}

/// The exponential table: logarithm to additive form.
pub open spec fn spec_exp_table(f: Field) -> Seq<u16> {
    Seq::new(f.spec_size(), |l: int| spec_exp_entry(f, l as nat))
}

/// Whether `log` and `exp` are each other's inverse between the nonzero
/// elements and the logarithms below `ONEMASK`, and `exp` wraps around.
pub open spec fn spec_tables_inverse(f: Field, log: Seq<u16>, exp: Seq<u16>) -> bool {
    &&& log.len() == f.spec_size()
    &&& exp.len() == f.spec_size()
    &&& forall|x: int|
        1 <= x < f.spec_size() ==> #[trigger] log[x] < f.spec_onemask() && exp[log[x] as int] == x
    &&& forall|l: int|
        0 <= l < f.spec_onemask() ==> #[trigger] exp[l] != 0 && exp[l] < f.spec_size()
            && log[exp[l] as int] == l
    &&& exp[f.spec_onemask() as int] == exp[0]
}

/// Whether the constants of the field `f` give a working field: the seed
/// grows a Cantor basis, the tables made from it are each other's inverse,
/// the element `1` is the unit, multiplication by the generator is additive,
/// and the skew factors need no scaling.
pub open spec fn spec_field_is_valid(f: Field) -> bool {
    &&& spec_cantor_seed_ok(f.spec_base_final(), f.spec_bits(), f.spec_generator())
    &&& spec_tables_inverse(f, spec_log_table(f), spec_exp_table(f))
    &&& spec_exp_table(f)[0] == 1
    &&& spec_generator_is_additive(f)
    &&& spec_skews_are_plain(f)
}

/// Whether bit `i` of `x` is set.
pub open spec fn spec_bit(x: u16, i: nat) -> bool {
    (x >> (i as u16)) & 1 == 1
}

/// The sum of `base[i]` over the set bits `i < k` of `x`.
pub open spec fn spec_bit_combine(base: Seq<u16>, x: u16, k: nat) -> u16
    decreases k,
{
    if k == 0 {
        0
    } else {
        let rest = spec_bit_combine(base, x, (k - 1) as nat);
        if spec_bit(x, (k - 1) as nat) {
            rest ^ base[k - 1]
        } else {
            rest
        }
    }
}

/// The element `x` times the generator of the multiplicative group.
pub open spec fn spec_times_generator(f: Field, x: u16) -> u16 {
    spec_mul(f, Additive(x), Logarithm(1)).0
}

/// The generator times each of the elements with a single coordinate.
pub open spec fn spec_generator_images(f: Field) -> Seq<u16> {
    Seq::new(f.spec_bits() as nat, |i: int| spec_times_generator(f, 1u16 << (i as u16)))
}

/// Whether the generator times an element is the sum of the generator times
/// the coordinates of the element.
pub open spec fn spec_generator_is_additive(f: Field) -> bool {
    forall|x: u16|
        x < f.spec_size() ==> #[trigger] spec_times_generator(f, x) == spec_bit_combine(
            spec_generator_images(f),
            x,
            f.spec_bits() as nat,
        )
}

/// Whether the skew factors need no scaling: at every level `m` the square
/// of the first element plus that element is the unit, so that the pivot is
/// `ONEMASK`, and no element from the first on is the unit.
pub open spec fn spec_skews_are_plain(f: Field) -> bool {
    forall|m: int, i: int|
        0 <= m <= i < f.spec_bits() - 1 ==> #[trigger] spec_skew_basis(f, m as nat)[i] != 1 && (i
            == m ==> spec_skew_basis(f, (m + 1) as nat)[m] == f.spec_onemask())
}

/// The size of a field is two to the power of its number of bits.
pub proof fn lemma_field_size(f: Field)
    ensures
        pow2(f.spec_bits() as nat) == f.spec_size(),
        pow2((f.spec_bits() - 1) as nat) * 2 == f.spec_size(),
        f.spec_onemask() + 1 == f.spec_size(),
        spec_field_shape(f.spec_bits(), f.spec_generator()),
        spec_is_element(f.spec_base_final(), f.spec_bits()),
        forall|a: u16| spec_is_element(a, f.spec_bits()) <==> a < f.spec_size(),
{
    lemma2_to64();
    let bits = f.spec_bits();
    let generator = f.spec_generator();
    let base_final = f.spec_base_final();
    assert((1u32 << 8) == 0x100 && (1u32 << 16) == 0x10000) by (bit_vector);
}

/// A discrete logarithm is at most `ONEMASK`.
proof fn lemma_dlog_bound(f: Field, s: u16, m: nat)
    requires
        m <= f.spec_onemask(),
    ensures
        spec_dlog_upto(f, s, m) < f.spec_onemask() || (m == 0 && spec_dlog_upto(f, s, m) == 0),
        spec_dlog_upto(f, s, m) <= f.spec_onemask(),
    decreases m,
{
    if m > 0 {
        lemma_dlog_bound(f, s, (m - 1) as nat);
    }
}

/// The entries of the logarithm table and of the exponential table lie in
/// the field.
pub proof fn lemma_table_entries_in_field(f: Field)
    ensures
        forall|j: int|
            0 <= j < f.spec_size() ==> #[trigger] spec_log_table(f)[j] <= f.spec_onemask(),
{
    assert forall|j: int| 0 <= j < f.spec_size() implies #[trigger] spec_log_table(f)[j]
        <= f.spec_onemask() by {
        lemma_dlog_bound(
            f,
            spec_cantor_combine(spec_base_table(f), j as nat),
            f.spec_onemask() as nat,
        );
    }
}

/// A vector of `n` copies of `value`.
pub(crate) fn filled(n: usize, value: u16) -> (v: Vec<u16>)
    ensures
        v@.len() == n,
        forall|i: int| 0 <= i < n ==> v@[i] == value,
{
    let mut v: Vec<u16> = Vec::new();
    let mut i: usize = 0;
    while i < n
        invariant
            i <= n,
            v@.len() == i,
            forall|t: int| 0 <= t < i ==> v@[t] == value,
        decreases n - i,
    {
        v.push(value);
        i += 1;
    }
    v
}

/// Multiplies an element of the field `f` in the polynomial basis by `x`.
fn lfsr_step(f: Field, state: u16) -> (next: u16)
    requires
        state < f.spec_size(),
    ensures
        next == spec_lfsr_step(f, state),
        next < f.spec_size(),
{
    match f {
        Field::F256 => {
            let next: u16 = if state >> 7 != 0 {
                ((state & 0x7F) << 1) ^ crate::f256::GENERATOR
            } else {
                state << 1
            };
            assert(next < 0x100) by (bit_vector)
                requires
                    state < 0x100,
                    next == (if state >> 7 != 0 {
                        ((state & 0x7F) << 1) ^ 0x1Du16
                    } else {
                        state << 1
                    }),
            ;
            next
        },
        Field::F2e16 => {
            if state >> 15 != 0 {
                ((state & 0x7FFF) << 1) ^ crate::f2e16::GENERATOR
            } else {
                state << 1
            }
        },
    }
}

/// The table of discrete logarithms to the base `x`, by walking the powers
/// of `x`.
fn build_dlog_table(f: Field) -> (dlog: Vec<u16>)
    ensures
        dlog@.len() == f.spec_size(),
        forall|s: int| 0 <= s < f.spec_size() ==> dlog@[s] == spec_dlog(f, s as u16),
        forall|s: int| 0 <= s < f.spec_size() ==> dlog@[s] <= f.spec_onemask(),
{
    let mut dlog: Vec<u16> = filled(f.size(), 0);
    let onemask: u16 = f.onemask();
    let mut state: u16 = 1;
    let mut i: u16 = 0;
    while i < onemask
        invariant
            i <= onemask == f.spec_onemask(),
            dlog@.len() == f.spec_size(),
            state < f.spec_size(),
            state == spec_lfsr_pow(f, i as nat),
            forall|s: int|
                0 <= s < f.spec_size() ==> dlog@[s] == spec_dlog_upto(f, s as u16, i as nat),
        decreases onemask - i,
    {
        dlog.set(state as usize, i);
        state = lfsr_step(f, state);
        i += 1;
    }
    dlog.set(0, onemask);
    proof {
        assert forall|s: int| 0 <= s < f.spec_size() implies dlog@[s] <= f.spec_onemask() by {
            lemma_dlog_bound(f, s as u16, f.spec_onemask() as nat);
        }
    }
    dlog
}

/// The sum of two elements of the field lies in the field.
pub proof fn lemma_xor_in_field(f: Field, a: u16, b: u16)
    requires
        a < f.spec_size(),
        b < f.spec_size(),
    ensures
        (a ^ b) < f.spec_size(),
{
    match f {
        Field::F256 => {
            assert((a ^ b) < 0x100) by (bit_vector)
                requires
                    a < 0x100,
                    b < 0x100,
            ;
        },
        Field::F2e16 => {},
    }
}

/// The logarithm table: the discrete logarithm of every combination of the
/// basis elements.
fn build_log_table(f: Field, base: &Vec<u16>, dlog: &Vec<u16>) -> (log: Vec<u16>)
    requires
        base@ == spec_base_table(f),
        forall|i: int| 0 <= i < base@.len() ==> #[trigger] base@[i] < f.spec_size(),
        dlog@.len() == f.spec_size(),
        forall|s: int| 0 <= s < f.spec_size() ==> dlog@[s] == spec_dlog(f, s as u16),
    ensures
        log@ == spec_log_table(f),
{
    let size: usize = f.size();
    let mut log: Vec<u16> = filled(size, 0);
    let mut j: usize = 1;
    proof {
        lemma_field_size(f);
    }
    while j < size
        invariant
            1 <= j <= size == f.spec_size(),
            log@.len() == size,
            base@ == spec_base_table(f),
            base@.len() == f.spec_bits(),
            forall|i: int| 0 <= i < base@.len() ==> #[trigger] base@[i] < f.spec_size(),
            pow2(f.spec_bits() as nat) == f.spec_size(),
            forall|t: int| 0 <= t < j ==> log@[t] == spec_cantor_combine(base@, t as nat),
            forall|t: int| 0 <= t < size ==> log@[t] < f.spec_size(),
        decreases size - j,
    {
        proof {
            lemma_log2_bounds(j as nat);
            lemma_log2_lt(j as nat, f.spec_bits() as nat);
        }
        let p: usize = log2(j);
        let top: usize = shl_one(p);
        let c: u16 = log[j - top] ^ base[p];
        proof {
            lemma_xor_in_field(f, log@[j - top], base@[p as int]);
        }
        log.set(j, c);
        j += 1;
    }
    let mut j: usize = 0;
    while j < size
        invariant
            j <= size == f.spec_size(),
            log@.len() == size,
            dlog@.len() == size,
            forall|s: int| 0 <= s < size ==> dlog@[s] == spec_dlog(f, s as u16),
            forall|t: int| 0 <= t < j ==> log@[t] == spec_log_entry(f, t as nat),
            forall|t: int|
                j <= t < size ==> log@[t] == spec_cantor_combine(spec_base_table(f), t as nat),
            forall|t: int| j <= t < size ==> log@[t] < f.spec_size(),
        decreases size - j,
    {
        let c: u16 = log[j];
        log.set(j, dlog[c as usize]);
        j += 1;
    }
    assert(log@ =~= spec_log_table(f));
    log
}

/// The exponential table: the inverse of the logarithm table, written over
/// the table of discrete logarithms.
fn build_exp_table(f: Field, log: &Vec<u16>, dlog: Vec<u16>) -> (exp: Vec<u16>)
    requires
        log@ == spec_log_table(f),
        dlog@.len() == f.spec_size(),
        forall|s: int| 0 <= s < f.spec_size() ==> dlog@[s] == spec_dlog(f, s as u16),
    ensures
        exp@ == spec_exp_table(f),
{
    let size: usize = f.size();
    let mut exp: Vec<u16> = dlog;
    let mut i: usize = 0;
    proof {
        lemma_table_entries_in_field(f);
    }
    while i < size
        invariant
            i <= size == f.spec_size(),
            exp@.len() == size,
            log@ == spec_log_table(f),
            forall|j: int| 0 <= j < size ==> #[trigger] log@[j] <= f.spec_onemask(),
            forall|l: int| 0 <= l < size ==> exp@[l] == spec_exp_upto(f, l as u16, i as nat),
        decreases size - i,
    {
        let l: u16 = log[i];
        exp.set(l as usize, i as u16);
        i += 1;
    }
    let first: u16 = exp[0];
    exp.set(f.onemask() as usize, first);
    assert(exp@ =~= spec_exp_table(f));
    exp
}

/// Tests whether `log` and `exp` are each other's inverse.
fn tables_are_inverse(f: Field, log: &Vec<u16>, exp: &Vec<u16>) -> (b: bool)
    requires
        log@.len() == f.spec_size(),
        exp@.len() == f.spec_size(),
    ensures
        b == spec_tables_inverse(f, log@, exp@),
{
    let size: usize = f.size();
    let onemask: u16 = f.onemask();
    let mut x: usize = 1;
    while x < size
        invariant
            1 <= x <= size == f.spec_size(),
            onemask == f.spec_onemask(),
            log@.len() == size,
            exp@.len() == size,
            forall|t: int|
                1 <= t < x ==> #[trigger] log@[t] < onemask && exp@[log@[t] as int] == t,
        decreases size - x,
    {
        let l: u16 = log[x];
        if l >= onemask || exp[l as usize] as usize != x {
            assert(!(log@[x as int] < onemask && exp@[log@[x as int] as int] == x));
            return false;
        }
        x += 1;
    }
    let mut l: usize = 0;
    while l < onemask as usize
        invariant
            l <= onemask == f.spec_onemask(),
            size == f.spec_size(),
            log@.len() == size,
            exp@.len() == size,
            forall|t: int|
                0 <= t < l ==> #[trigger] exp@[t] != 0 && exp@[t] < size && log@[exp@[t] as int]
                    == t,
        decreases onemask - l,
    {
        let x: u16 = exp[l];
        if x == 0 || x as usize >= size || log[x as usize] as usize != l {
            assert(!(exp@[l as int] != 0 && exp@[l as int] < size && log@[exp@[l as int] as int]
                == l));
            return false;
        }
        l += 1;
    }
    exp[onemask as usize] == exp[0]
}

/// The multiplier that stands for the nonzero element `a`; `ONEMASK` for zero.
pub open spec fn spec_to_multiplier(f: Field, a: Additive) -> Logarithm {
    Logarithm(spec_log_table(f)[f.spec_index(a.0)])
}

/// The element whose logarithm is the sum of the logarithms `a` and `b`.
pub open spec fn spec_log_mul(f: Field, a: Logarithm, b: Logarithm) -> Additive {
    Additive(spec_exp_table(f)[f.spec_fold(a.0 + b.0) % (f.spec_size() as int)])
}

/// Product of the element `a` and the element whose logarithm is `b`.
pub open spec fn spec_mul(f: Field, a: Additive, b: Logarithm) -> Additive {
    if a.0 == 0 {
        Additive(0)
    } else {
        spec_log_mul(f, spec_to_multiplier(f, a), b)
    }
}

/// The elements from which the skew factors are first combined.
pub open spec fn spec_skew_seed(f: Field) -> Seq<u16> {
    Seq::new((f.spec_bits() - 1) as nat, |i: int| 1u16 << ((i + 1) as u16))
}

/// Minus the logarithm of `b[m] * (b[m] + 1)`.
pub open spec fn spec_skew_pivot(f: Field, b: Seq<u16>, m: int) -> u16 {
    let idx = spec_mul(f, Additive(b[m]), spec_to_multiplier(f, Additive(b[m] ^ 1)));
    (f.spec_onemask() - spec_to_multiplier(f, idx).0) as u16
}

/// What level `m` makes of the elements `b`: entry `m` becomes the pivot,
/// and every later entry `b[i]` becomes `b[i] * (b[i] + 1)` divided by
/// `b[m] * (b[m] + 1)`.
pub open spec fn spec_skew_level(f: Field, b: Seq<u16>, m: int) -> Seq<u16> {
    let pivot = spec_skew_pivot(f, b, m);
    Seq::new(
        b.len(),
        |i: int|
            if i < m {
                b[i]
            } else if i == m {
                pivot
            } else {
                spec_mul(
                    f,
                    Additive(b[i]),
                    Logarithm(
                        ((spec_to_multiplier(f, Additive(b[i] ^ 1)).0 + pivot) % (
                        f.spec_onemask() as int)) as u16,
                    ),
                ).0
            },
    )
}

/// The elements that the skew factors of level `m` are combined from.
pub open spec fn spec_skew_basis(f: Field, m: nat) -> Seq<u16>
    decreases m,
{
    if m == 0 {
        spec_skew_seed(f)
    } else {
        spec_skew_level(f, spec_skew_basis(f, (m - 1) as nat), m - 1)
    }
}

/// Every level has one element less than the field has bits.
pub proof fn lemma_skew_basis_len(f: Field, m: nat)
    ensures
        spec_skew_basis(f, m).len() == f.spec_bits() - 1,
    decreases m,
{
    if m > 0 {
        lemma_skew_basis_len(f, (m - 1) as nat);
    }
}

/// The elements below place `m` of level `m` are logarithms of the field.
pub proof fn lemma_skew_pivots_in_field(f: Field, m: nat, i: int)
    requires
        0 <= i < m < f.spec_bits(),
    ensures
        spec_skew_basis(f, m)[i] <= f.spec_onemask(),
    decreases m,
{
    lemma_skew_basis_len(f, (m - 1) as nat);
    if i < m - 1 {
        lemma_skew_pivots_in_field(f, (m - 1) as nat, i);
    } else {
        lemma_table_entries_in_field(f);
        let b = spec_skew_basis(f, (m - 1) as nat);
        let idx = spec_mul(f, Additive(b[i]), spec_to_multiplier(f, Additive(b[i] ^ 1)));
        assert(spec_log_table(f)[f.spec_index(idx.0)] <= f.spec_onemask());
    }
}

/// Number of set bits below the lowest clear bit of `j`.
pub open spec fn spec_trailing_ones(j: nat) -> nat
    decreases j,
{
    if j % 2 == 0 {
        0
    } else {
        1 + spec_trailing_ones(j / 2)
    }
}

/// The skew factor at index `j` in additive form. With `m` trailing ones in
/// `j`, it is the sum of entry `p - 1` of the level `m` elements over the set
/// bits `p > m` of `j`.
pub open spec fn spec_skew_additive(f: Field, j: nat) -> u16
    decreases j,
{
    let m = spec_trailing_ones(j);
    let p = spec_log2(j);
    if j + 1 == pow2(m) {
        0
    } else if 1 <= p && 1 <= pow2(p) <= j {
        spec_skew_additive(f, (j - pow2(p)) as nat) ^ spec_skew_basis(f, m)[p - 1]
    } else {
        0
    }
}

/// The skew factors of the additive FFT as multipliers.
pub open spec fn spec_skew_table(f: Field) -> Seq<Logarithm> {
    Seq::new(
        f.spec_onemask() as nat,
        |j: int| spec_to_multiplier(f, Additive(spec_skew_additive(f, j as nat))),
    )
}

/// The logarithms that the twist of the formal derivative is combined from.
pub open spec fn spec_b_basis(f: Field, i: nat) -> u16
    decreases i,
{
    let last = spec_skew_basis(f, (f.spec_bits() - 1) as nat);
    if i == 0 {
        (f.spec_onemask() - last[0]) as u16
    } else {
        ((f.spec_onemask() - last[i as int] + spec_b_basis(f, (i - 1) as nat)) % (
        f.spec_onemask() as int)) as u16
    }
}

/// Entry `j` of the twist of the formal derivative: the sum, modulo
/// `ONEMASK`, of `spec_b_basis(p)` over the set bits `p` of `j`.
pub open spec fn spec_b_entry(f: Field, j: nat) -> u16
    decreases j,
{
    if j == 0 {
        0
    } else {
        let p = spec_log2(j);
        if 1 <= pow2(p) <= j {
            ((spec_b_entry(f, (j - pow2(p)) as nat) + spec_b_basis(f, p)) % (
            f.spec_onemask() as int)) as u16
        } else {
            0
        }
    }
}

/// The twist of the formal derivative as multipliers.
pub open spec fn spec_b_table(f: Field) -> Seq<Logarithm> {
    Seq::new(f.spec_size() / 2, |j: int| Logarithm(spec_b_entry(f, j as nat)))
}

/// The entries of the twist are logarithms of the field.
pub proof fn lemma_b_table_in_field(f: Field)
    ensures
        forall|j: int|
            0 <= j < f.spec_size() / 2 ==> (#[trigger] spec_b_table(f)[j]).0 <= f.spec_onemask(),
{
    assert forall|j: int| 0 <= j < f.spec_size() / 2 implies (#[trigger] spec_b_table(f)[j]).0
        <= f.spec_onemask() by {
        let e = spec_b_entry(f, j as nat);
        assert(e <= f.spec_onemask()) by {
            if j > 0 {
                let p = spec_log2(j as nat);
                if 1 <= pow2(p) <= j {
                    let s = spec_b_entry(f, (j - pow2(p)) as nat) + spec_b_basis(f, p);
                    assert(0 <= s % (f.spec_onemask() as int) < f.spec_onemask());
                }
            }
        }
    }
}

/// The logarithm table with its first entry, which stands for no element,
/// set to zero.
pub open spec fn spec_log_walsh_seed(f: Field) -> Seq<Logarithm> {
    Seq::new(
        f.spec_size(),
        |j: int|
            if j == 0 {
                Logarithm(0)
            } else {
                Logarithm(spec_log_table(f)[j])
            },
    )
}

/// The Walsh transform of the logarithm table.
pub open spec fn spec_log_walsh_table(f: Field) -> Seq<Logarithm> {
    spec_walsh(f, spec_log_walsh_seed(f), f.spec_size())
}

/// The multiplier that stands for `a`, looked up in `log`.
pub(crate) fn to_multiplier_with(f: Field, log: &Vec<u16>, a: Additive) -> (l: Logarithm)
    requires
        log@ == spec_log_table(f),
    ensures
        l == spec_to_multiplier(f, a),
{
    Logarithm(log[f.index(a.0)])
}

/// The product of two multipliers in additive form, looked up in `exp`.
pub(crate) fn log_mul_with(f: Field, exp: &Vec<u16>, a: Logarithm, b: Logarithm) -> (r: Additive)
    requires
        exp@ == spec_exp_table(f),
    ensures
        r == spec_log_mul(f, a, b),
{
    let offset: u16 = f.fold(a.0 as u32 + b.0 as u32);
    Additive(exp[f.index(offset)])
}

/// The product of `a` and the multiplier `b`, looked up in `log` and `exp`.
pub(crate) fn mul_with(
    f: Field,
    log: &Vec<u16>,
    exp: &Vec<u16>,
    a: Additive,
    b: Logarithm,
) -> (r: Additive)
    requires
        log@ == spec_log_table(f),
        exp@ == spec_exp_table(f),
    ensures
        r == spec_mul(f, a, b),
{
    if a.0 == 0 {
        return Additive(0);
    }
    log_mul_with(f, exp, to_multiplier_with(f, log, a), b)
}

/// The elements of every level of the skew factors: entry `m` of the result
/// holds those of level `m`.
fn build_skew_levels(f: Field, log: &Vec<u16>, exp: &Vec<u16>) -> (levels: Vec<Vec<u16>>)
    requires
        log@ == spec_log_table(f),
        exp@ == spec_exp_table(f),
    ensures
        levels@.len() == f.spec_bits(),
        forall|m: int|
            0 <= m < f.spec_bits() ==> (#[trigger] levels@[m])@ == spec_skew_basis(f, m as nat),
{
    let count: usize = (f.bits() - 1) as usize;
    let onemask: u16 = f.onemask();
    let mut base: Vec<u16> = Vec::new();
    let mut i: usize = 0;
    proof {
        lemma_table_entries_in_field(f);
    }
    while i < count
        invariant
            i <= count == f.spec_bits() - 1,
            base@.len() == i,
            forall|t: int| 0 <= t < i ==> base@[t] == spec_skew_seed(f)[t],
        decreases count - i,
    {
        let sh: u16 = (i + 1) as u16;
        base.push(1u16 << sh);
        i += 1;
    }
    assert(base@ =~= spec_skew_basis(f, 0));
    let mut levels: Vec<Vec<u16>> = Vec::new();
    levels.push(base.clone());
    let mut m: usize = 0;
    while m < count
        invariant
            m <= count == f.spec_bits() - 1,
            onemask == f.spec_onemask(),
            log@ == spec_log_table(f),
            exp@ == spec_exp_table(f),
            forall|j: int| 0 <= j < f.spec_size() ==> #[trigger] log@[j] <= f.spec_onemask(),
            base@ == spec_skew_basis(f, m as nat),
            base@.len() == count,
            levels@.len() == m + 1,
            forall|t: int| 0 <= t <= m ==> (#[trigger] levels@[t])@ == spec_skew_basis(f, t as nat),
        decreases count - m,
    {
        let ghost before = base@;
        let idx: Additive = mul_with(
            f,
            log,
            exp,
            Additive(base[m]),
            to_multiplier_with(f, log, Additive(base[m] ^ 1)),
        );
        let pivot: u16 = onemask - to_multiplier_with(f, log, idx).0;
        base.set(m, pivot);
        let mut i: usize = m + 1;
        while i < count
            invariant
                m < i <= count,
                onemask == f.spec_onemask(),
                log@ == spec_log_table(f),
                exp@ == spec_exp_table(f),
                base@.len() == count,
                before.len() == count,
                pivot == spec_skew_pivot(f, before, m as int),
                forall|t: int| 0 <= t < i ==> base@[t] == spec_skew_level(f, before, m as int)[t],
                forall|t: int| i <= t < count ==> base@[t] == before[t],
            decreases count - i,
        {
            let b: u32 = (to_multiplier_with(f, log, Additive(base[i] ^ 1)).0 as u32 + pivot as u32)
                % (onemask as u32);
            let r: Additive = mul_with(f, log, exp, Additive(base[i]), Logarithm(b as u16));
            base.set(i, r.0);
            i += 1;
        }
        assert(base@ =~= spec_skew_level(f, before, m as int));
        levels.push(base.clone());
        m += 1;
    }
    levels
}

/// Tests whether multiplication by the generator is additive.
fn generator_is_additive(f: Field, log: &Vec<u16>, exp: &Vec<u16>) -> (b: bool)
    requires
        log@ == spec_log_table(f),
        exp@ == spec_exp_table(f),
    ensures
        b == spec_generator_is_additive(f),
{
    let bits: usize = f.bits() as usize;
    let size: usize = f.size();
    let mut images: Vec<u16> = Vec::new();
    let mut i: usize = 0;
    while i < bits
        invariant
            i <= bits == f.spec_bits(),
            log@ == spec_log_table(f),
            exp@ == spec_exp_table(f),
            images@.len() == i,
            forall|t: int| 0 <= t < i ==> images@[t] == spec_generator_images(f)[t],
        decreases bits - i,
    {
        let sh: u16 = i as u16;
        images.push(mul_with(f, log, exp, Additive(1u16 << sh), Logarithm(1)).0);
        i += 1;
    }
    assert(images@ =~= spec_generator_images(f));
    let mut x: usize = 0;
    while x < size
        invariant
            x <= size == f.spec_size(),
            bits == f.spec_bits(),
            log@ == spec_log_table(f),
            exp@ == spec_exp_table(f),
            images@ == spec_generator_images(f),
            forall|t: u16|
                t < x ==> #[trigger] spec_times_generator(f, t) == spec_bit_combine(
                    images@,
                    t,
                    bits as nat,
                ),
        decreases size - x,
    {
        let e: u16 = x as u16;
        let mut sum: u16 = 0;
        let mut k: usize = 0;
        while k < bits
            invariant
                k <= bits == f.spec_bits(),
                images@.len() == bits,
                sum == spec_bit_combine(images@, e, k as nat),
            decreases bits - k,
        {
            let sh: u16 = k as u16;
            if (e >> sh) & 1 == 1 {
                sum = sum ^ images[k];
            }
            k += 1;
        }
        if mul_with(f, log, exp, Additive(e), Logarithm(1)).0 != sum {
            assert(spec_times_generator(f, e) != spec_bit_combine(images@, e, bits as nat));
            return false;
        }
        x += 1;
    }
    true
}

/// Tests whether the skew factors need no scaling.
fn skews_are_plain(f: Field, levels: &Vec<Vec<u16>>) -> (b: bool)
    requires
        levels@.len() == f.spec_bits(),
        forall|m: int|
            0 <= m < f.spec_bits() ==> (#[trigger] levels@[m])@ == spec_skew_basis(f, m as nat),
    ensures
        b == spec_skews_are_plain(f),
{
    let count: usize = (f.bits() - 1) as usize;
    let onemask: u16 = f.onemask();
    let mut m: usize = 0;
    while m < count
        invariant
            m <= count == f.spec_bits() - 1,
            onemask == f.spec_onemask(),
            levels@.len() == f.spec_bits(),
            forall|t: int|
                0 <= t < f.spec_bits() ==> (#[trigger] levels@[t])@ == spec_skew_basis(f, t as nat),
            forall|t: int, i: int|
                0 <= t <= i < count && t < m ==> #[trigger] spec_skew_basis(f, t as nat)[i] != 1
                    && (i == t ==> spec_skew_basis(f, (t + 1) as nat)[t] == onemask),
        decreases count - m,
    {
        proof {
            lemma_skew_basis_len(f, m as nat);
            lemma_skew_basis_len(f, (m + 1) as nat);
        }
        assert(levels@[m as int]@ == spec_skew_basis(f, m as nat));
        assert(levels@[m + 1]@ == spec_skew_basis(f, (m + 1) as nat));
        if levels[m + 1][m] != onemask {
            proof {
                let t = m as int;
                assert(spec_skew_basis(f, t as nat)[t] == 1 || spec_skew_basis(
                    f,
                    (t + 1) as nat,
                )[t] != onemask);
            }
            return false;
        }
        let mut i: usize = m;
        while i < count
            invariant
                m <= i <= count == f.spec_bits() - 1,
                levels@.len() == f.spec_bits(),
                levels@[m as int]@ == spec_skew_basis(f, m as nat),
                levels@[m as int]@.len() == count,
                forall|t: int| m <= t < i ==> spec_skew_basis(f, m as nat)[t] != 1,
            decreases count - i,
        {
            if levels[m][i] == 1 {
                proof {
                    let t = m as int;
                    let e = i as int;
                    assert(spec_skew_basis(f, t as nat)[e] == 1);
                }
                return false;
            }
            i += 1;
        }
        m += 1;
    }
    assert forall|t: int, i: int|
        0 <= t <= i < f.spec_bits() - 1 implies #[trigger] spec_skew_basis(f, t as nat)[i] != 1
        && (i == t ==> spec_skew_basis(f, (t + 1) as nat)[t] == f.spec_onemask()) by {
        assert(0 <= t <= i < count && t < m);
        assert(spec_skew_basis(f, t as nat)[i] != 1);
    }
    true
}

/// Number of set bits below the lowest clear bit of `j`.
pub(crate) fn trailing_ones(j: usize) -> (m: usize)
    ensures
        m == spec_trailing_ones(j as nat),
        pow2(m as nat) <= j + 1,
{
    let mut x: usize = j;
    let mut m: usize = 0;
    proof {
        lemma2_to64();
    }
    while x % 2 == 1
        invariant
            spec_trailing_ones(j as nat) == m + spec_trailing_ones(x as nat),
            pow2(m as nat) * (x + 1) <= j + 1,
            m <= usize::BITS,
        decreases x,
    {
        proof {
            vstd::arithmetic::power2::lemma_pow2_unfold(m as nat + 1);
            assert(pow2(m as nat + 1) * (x / 2 + 1) <= pow2(m as nat) * (x + 1))
                by (nonlinear_arith)
                requires
                    pow2(m as nat + 1) == 2 * pow2(m as nat),
                    x % 2 == 1,
            ;
            if m + 1 > usize::BITS {
                lemma2_to64();
                vstd::arithmetic::power2::lemma2_to64_rest();
                if m as nat + 1 > 33 {
                    lemma_pow2_strictly_increases(33, m as nat + 1);
                }
                if m as nat + 1 > 65 {
                    lemma_pow2_strictly_increases(65, m as nat + 1);
                }
                vstd::arithmetic::power2::lemma_pow2_unfold(33);
                vstd::arithmetic::power2::lemma_pow2_unfold(65);
                assert(pow2(m as nat + 1) * (x / 2 + 1) >= pow2(m as nat + 1)) by (nonlinear_arith);
            }
        }
        x = x / 2;
        m += 1;
    }
    proof {
        assert(pow2(m as nat) * (x + 1) >= pow2(m as nat)) by (nonlinear_arith);
    }
    m
}

/// The skew factors as multipliers.
fn build_skew_table(f: Field, log: &Vec<u16>, levels: &Vec<Vec<u16>>) -> (skews: Vec<Logarithm>)
    requires
        log@ == spec_log_table(f),
        levels@.len() == f.spec_bits(),
        forall|m: int|
            0 <= m < f.spec_bits() ==> (#[trigger] levels@[m])@ == spec_skew_basis(f, m as nat),
    ensures
        skews@ == spec_skew_table(f),
{
    let count: usize = f.onemask() as usize;
    let mut additive: Vec<u16> = filled(count, 0);
    let mut j: usize = 0;
    proof {
        lemma2_to64();
        lemma_field_size(f);
    }
    while j < count
        invariant
            j <= count == f.spec_onemask(),
            additive@.len() == count,
            pow2(f.spec_bits() as nat) == f.spec_size(),
            f.spec_onemask() + 1 == f.spec_size(),
            pow2(0) == 1,
            levels@.len() == f.spec_bits(),
            forall|m: int|
                0 <= m < f.spec_bits() ==> (#[trigger] levels@[m])@ == spec_skew_basis(
                    f,
                    m as nat,
                ),
            forall|t: int| 0 <= t < j ==> additive@[t] == spec_skew_additive(f, t as nat),
        decreases count - j,
    {
        let m: usize = trailing_ones(j);
        proof {
            if m >= f.spec_bits() {
                if m > f.spec_bits() {
                    lemma_pow2_strictly_increases(f.spec_bits() as nat, m as nat);
                }
            }
            lemma_log2_lt(j as nat, f.spec_bits() as nat);
            if j >= 1 {
                lemma_log2_bounds(j as nat);
            }
            lemma_pow2_pos(m as nat);
        }
        let all_ones: usize = shl_one(m);
        let p: usize = log2(j);
        if j + 1 == all_ones {
            additive.set(j, 0);
        } else if p >= 1 {
            let top: usize = shl_one(p);
            proof {
                lemma_skew_basis_len(f, m as nat);
            }
            let level: &Vec<u16> = &levels[m];
            let v: u16 = additive[j - top] ^ level[p - 1];
            additive.set(j, v);
        } else {
            additive.set(j, 0);
        }
        j += 1;
    }
    let mut skews: Vec<Logarithm> = Vec::new();
    let mut j: usize = 0;
    while j < count
        invariant
            j <= count == f.spec_onemask(),
            log@ == spec_log_table(f),
            additive@.len() == count,
            skews@.len() == j,
            forall|t: int| 0 <= t < count ==> additive@[t] == spec_skew_additive(f, t as nat),
            forall|t: int| 0 <= t < j ==> skews@[t] == spec_skew_table(f)[t],
        decreases count - j,
    {
        skews.push(to_multiplier_with(f, log, Additive(additive[j])));
        j += 1;
    }
    assert(skews@ =~= spec_skew_table(f));
    skews
}

/// The twist of the formal derivative as multipliers.
fn build_b_table(f: Field, last: &Vec<u16>) -> (b: Vec<Logarithm>)
    requires
        last@ == spec_skew_basis(f, (f.spec_bits() - 1) as nat),
    ensures
        b@ == spec_b_table(f),
{
    let count: usize = (f.bits() - 1) as usize;
    let onemask: u16 = f.onemask();
    let half: usize = f.size() / 2;
    proof {
        lemma_skew_basis_len(f, (f.spec_bits() - 1) as nat);
        assert forall|i: int| 0 <= i < count implies #[trigger] last@[i] <= f.spec_onemask() by {
            lemma_skew_pivots_in_field(f, (f.spec_bits() - 1) as nat, i);
        }
    }
    let mut base: Vec<u16> = Vec::new();
    base.push(onemask - last[0]);
    let mut i: usize = 1;
    while i < count
        invariant
            1 <= i <= count == f.spec_bits() - 1,
            onemask == f.spec_onemask(),
            last@ == spec_skew_basis(f, (f.spec_bits() - 1) as nat),
            last@.len() == count,
            forall|i: int| 0 <= i < count ==> #[trigger] last@[i] <= f.spec_onemask(),
            base@.len() == i,
            forall|t: int| 0 <= t < i ==> base@[t] == spec_b_basis(f, t as nat),
        decreases count - i,
    {
        let v: u32 = (onemask as u32 - last[i] as u32 + base[i - 1] as u32) % (onemask as u32);
        base.push(v as u16);
        i += 1;
    }
    let mut b: Vec<Logarithm> = Vec::new();
    b.push(Logarithm(0));
    let mut j: usize = 1;
    proof {
        lemma2_to64();
        lemma_field_size(f);
    }
    while j < half
        invariant
            1 <= j <= half == f.spec_size() / 2,
            onemask == f.spec_onemask(),
            count == f.spec_bits() - 1,
            pow2(count as nat) == half,
            base@.len() == count,
            forall|t: int| 0 <= t < count ==> base@[t] == spec_b_basis(f, t as nat),
            b@.len() == j,
            forall|t: int| 0 <= t < j ==> b@[t] == Logarithm(spec_b_entry(f, t as nat)),
        decreases half - j,
    {
        proof {
            lemma_log2_bounds(j as nat);
            lemma_log2_lt(j as nat, count as nat);
        }
        let p: usize = log2(j);
        let top: usize = shl_one(p);
        let v: u32 = (b[j - top].0 as u32 + base[p] as u32) % (onemask as u32);
        b.push(Logarithm(v as u16));
        j += 1;
    }
    assert(b@ =~= spec_b_table(f));
    b
}

/// The Walsh transform of the logarithm table.
fn build_log_walsh(f: Field, log: &Vec<u16>) -> (log_walsh: Vec<Logarithm>)
    requires
        log@ == spec_log_table(f),
    ensures
        log_walsh@ == spec_log_walsh_table(f),
{
    let size: usize = f.size();
    let mut log_walsh: Vec<Logarithm> = Vec::new();
    log_walsh.push(Logarithm(0));
    let mut j: usize = 1;
    while j < size
        invariant
            1 <= j <= size == f.spec_size(),
            log@ == spec_log_table(f),
            log_walsh@.len() == j,
            forall|t: int| 0 <= t < j ==> log_walsh@[t] == spec_log_walsh_seed(f)[t],
        decreases size - j,
    {
        log_walsh.push(Logarithm(log[j]));
        j += 1;
    }
    assert(log_walsh@ =~= spec_log_walsh_seed(f));
    proof {
        lemma_field_size(f);
        crate::util::lemma_pow2_is_pow2(f.spec_bits() as nat);
    }
    walsh(f, &mut log_walsh, size);
    log_walsh
}

/// The tables of a field as sequences.
pub struct FieldTablesView {
    /// The field that the tables belong to.
    pub field: Field,
    /// The Cantor basis.
    pub base: Seq<u16>,
    /// Additive form to logarithm.
    pub log: Seq<u16>,
    /// Logarithm to additive form.
    pub exp: Seq<u16>,
    /// The Walsh transform of the logarithm table.
    pub log_walsh: Seq<Logarithm>,
    /// The skew factors of the additive FFT.
    pub skews: Seq<Logarithm>,
    /// The twist of the formal derivative.
    pub b: Seq<Logarithm>,
}

/// The tables that the constants of the field `f` determine.
pub open spec fn spec_field_tables(f: Field) -> FieldTablesView {
    FieldTablesView {
        field: f,
        base: spec_base_table(f),
        log: spec_log_table(f),
        exp: spec_exp_table(f),
        log_walsh: spec_log_walsh_table(f),
        skews: spec_skew_table(f),
        b: spec_b_table(f),
    }
}

/// The tables of a field, made once and read from then on.
#[derive(Debug)]
pub struct FieldTables {
    field: Field,
    base: Vec<u16>,
    log_table: Vec<u16>,
    exp_table: Vec<u16>,
    log_walsh: Vec<Logarithm>,
    skews: Vec<Logarithm>,
    b: Vec<Logarithm>,
}

impl View for FieldTables {
    type V = FieldTablesView;

    closed spec fn view(&self) -> FieldTablesView {
        FieldTablesView {
            field: self.field,
            base: self.base@,
            log: self.log_table@,
            exp: self.exp_table@,
            log_walsh: self.log_walsh@,
            skews: self.skews@,
            b: self.b@,
        }
    }
}

impl FieldTables {
    /// The tables are those of their field, and the field works.
    pub open spec fn wf(&self) -> bool {
        self@ == spec_field_tables(self@.field) && spec_field_is_valid(self@.field)
    }

    #[verifier::type_invariant]
    spec fn inv(&self) -> bool {
        self.wf()
    }

    /// Makes the tables of the field `field`, unless its constants give no
    /// working field. The tables are tested as they are made: the seed has
    /// to grow a Cantor basis, logarithms and exponentials have to be each
    /// other's inverse, the element `1` has to be the unit, multiplication
    /// by the generator has to be additive, and the skew factors must need
    /// no scaling. What is proved of the coder rests on these tests and on
    /// nothing else that the tables hold.
    pub fn new(field: Field) -> (res: Option<FieldTables>)
        ensures
            res is Some <==> spec_field_is_valid(field),
            res matches Some(t) ==> t.wf() && t@.field == field,
    {
        proof {
            lemma_field_size(field);
        }
        let base: Vec<u16> = match generate_cantor_basis(
            field.base_final(),
            field.bits(),
            field.generator(),
        ) {
            Some(base) => base,
            None => {
                return None;
            },
        };
        let dlog: Vec<u16> = build_dlog_table(field);
        let log_table: Vec<u16> = build_log_table(field, &base, &dlog);
        let exp_table: Vec<u16> = build_exp_table(field, &log_table, dlog);
        if !tables_are_inverse(field, &log_table, &exp_table) {
            return None;
        }
        if exp_table[0] != 1 || !generator_is_additive(field, &log_table, &exp_table) {
            return None;
        }
        let log_walsh: Vec<Logarithm> = build_log_walsh(field, &log_table);
        let levels: Vec<Vec<u16>> = build_skew_levels(field, &log_table, &exp_table);
        if !skews_are_plain(field, &levels) {
            return None;
        }
        let skews: Vec<Logarithm> = build_skew_table(field, &log_table, &levels);
        let b: Vec<Logarithm> = build_b_table(field, &levels[(field.bits() - 1) as usize]);
        Some(FieldTables { field, base, log_table, exp_table, log_walsh, skews, b })
    }

    /// The field that the tables belong to.
    pub fn field(&self) -> (f: Field)
        ensures
            f == self@.field,
            self.wf(),
    {
        proof {
            use_type_invariant(self);
        }
        self.field
    }

    /// Element `index` of the Cantor basis.
    pub fn get_base_table(&self, index: usize) -> (r: u16)
        requires
            index < self@.field.spec_bits(),
        ensures
            r == spec_base_table(self@.field)[index as int],
    {
        proof {
            use_type_invariant(self);
        }
        self.base[index]
    }

    /// The logarithm of the element with the bits `index`.
    pub fn get_log_table(&self, index: u16) -> (r: u16)
        ensures
            r == spec_log_table(self@.field)[self@.field.spec_index(index)],
    {
        proof {
            use_type_invariant(self);
        }
        self.log_table[self.field.index(index)]
    }

    /// The bits of the element with the logarithm `index`.
    pub fn get_exp_table(&self, index: u16) -> (r: u16)
        ensures
            r == spec_exp_table(self@.field)[self@.field.spec_index(index)],
    {
        proof {
            use_type_invariant(self);
        }
        self.exp_table[self.field.index(index)]
    }

    /// Entry `index` of the Walsh transform of the logarithm table.
    pub fn get_log_walsh(&self, index: u16) -> (r: Logarithm)
        ensures
            r == spec_log_walsh_table(self@.field)[self@.field.spec_index(index)],
    {
        proof {
            use_type_invariant(self);
            lemma_walsh_len(
                self@.field,
                spec_log_walsh_seed(self@.field),
                self@.field.spec_size(),
                self@.field.spec_size(),
            );
        }
        self.log_walsh[self.field.index(index)]
    }

    /// The skew factor at `index`.
    pub fn get_skew(&self, index: usize) -> (r: Logarithm)
        requires
            index < self@.field.spec_onemask(),
        ensures
            r == spec_skew_table(self@.field)[index as int],
    {
        proof {
            use_type_invariant(self);
        }
        self.skews[index]
    }

    /// Entry `index` of the twist of the formal derivative.
    pub fn get_b(&self, index: usize) -> (r: Logarithm)
        requires
            index < self@.field.spec_size() / 2,
        ensures
            r == spec_b_table(self@.field)[index as int],
    {
        proof {
            use_type_invariant(self);
        }
        self.b[index]
    }

    /// The multiplier that stands for the nonzero element `a`.
    pub fn to_multiplier(&self, a: Additive) -> (l: Logarithm)
        ensures
            l == spec_to_multiplier(self@.field, a),
    {
        proof {
            use_type_invariant(self);
        }
        to_multiplier_with(self.field, &self.log_table, a)
    }

    /// Product of `a` and the element whose logarithm is `b`; zero where `a`
    /// is zero.
    pub fn mul(&self, a: Additive, b: Logarithm) -> (r: Additive)
        ensures
            r == spec_mul(self@.field, a, b),
    {
        proof {
            use_type_invariant(self);
        }
        mul_with(self.field, &self.log_table, &self.exp_table, a, b)
    }

    /// The element whose logarithm is the sum of the logarithms `a` and `b`.
    pub fn log_mul(&self, a: Logarithm, b: Logarithm) -> (r: Additive)
        ensures
            r == spec_log_mul(self@.field, a, b),
    {
        proof {
            use_type_invariant(self);
        }
        log_mul_with(self.field, &self.exp_table, a, b)
    }
}

/// In working tables the exponential of the logarithm of a nonzero element is
/// that element, the logarithm of the exponential of a logarithm below
/// `ONEMASK` is that logarithm, and the exponential table wraps around.
pub proof fn lemma_tables_are_inverse(t: FieldTables)
    requires
        t.wf(),
    ensures
        forall|x: int| 1 <= x < t@.field.spec_size() ==> #[trigger] t@.exp[t@.log[x] as int] == x,
        forall|l: int|
            0 <= l < t@.field.spec_onemask() ==> #[trigger] t@.log[t@.exp[l] as int] == l,
        t@.exp[t@.field.spec_onemask() as int] == t@.exp[0],
{
    let f = t@.field;
    assert(spec_tables_inverse(f, t@.log, t@.exp));
    assert forall|x: int| 1 <= x < f.spec_size() implies #[trigger] t@.exp[t@.log[x] as int]
        == x by {
        assert(t@.log[x] < f.spec_onemask() && t@.exp[t@.log[x] as int] == x);
    }
    assert forall|l: int| 0 <= l < f.spec_onemask() implies #[trigger] t@.log[t@.exp[l] as int]
        == l by {
        assert(t@.exp[l] != 0 && t@.exp[l] < f.spec_size() && t@.log[t@.exp[l] as int] == l);
    }
}

/// In working tables every element of the Cantor basis but the last is the
/// square of its successor plus that successor, and the first element is
/// `1`.
pub proof fn lemma_base_is_cantor_basis(t: FieldTables)
    requires
        t.wf(),
    ensures
        t@.base.len() == t@.field.spec_bits(),
        t@.base[t@.field.spec_bits() - 1] == t@.field.spec_base_final(),
        t@.base[0] == 1,
        spec_is_cantor_basis(t@.base, t@.field.spec_bits(), t@.field.spec_generator()),
{
    let f = t@.field;
    lemma_field_size(f);
    lemma_grown_basis_is_cantor_basis(f.spec_base_final(), f.spec_bits(), f.spec_generator());
    crate::cantor::lemma_cantor_basis_begins_with_one(
        f.spec_base_final(),
        f.spec_bits(),
        f.spec_generator(),
    );
}

} // verus!
