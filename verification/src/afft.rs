//! The additive FFT in the novel polynomial basis and its inverse.
use crate::blocks::{
    lemma_block_advance, lemma_block_count, lemma_block_partner, lemma_block_position,
    lemma_pow2_blocks, spec_block_start, spec_in_low_half,
};
use crate::field::{spec_xor, Additive, Field, Logarithm};
use crate::params::lemma_smaller_power_is_at_most_half;
use crate::tables::{spec_mul, spec_skew_table, FieldTables};
use vstd::arithmetic::power2::is_pow2;
use vstd::prelude::*;

verus! {

/// The skew factor of the block of `2 * d` that holds position `t`, in a
/// transform that starts at column `index` of the codeword.
pub open spec fn spec_skew_at(f: Field, t: int, d: int, index: int) -> Logarithm {
    spec_skew_table(f)[spec_block_start(t, d) + d + index - 1]
}

/// `lo` plus the product of `v` and `skew`. The skew `ONEMASK` stands for the
/// factor zero and leaves `lo` as it is.
pub open spec fn spec_skew_xor(f: Field, lo: Additive, v: Additive, skew: Logarithm) -> Additive {
    if skew.0 == f.spec_onemask() {
        lo
    } else {
        spec_xor(lo, spec_mul(f, v, skew))
    }
}

/// One layer of the forward transform on the first `size` elements of `x`:
/// in every block of `2 * d`, the low element takes up the high one times the
/// skew factor of the block, and the high element then takes up the new low
/// one.
pub open spec fn spec_afft_layer(
    f: Field,
    x: Seq<Additive>,
    size: nat,
    index: nat,
    d: nat,
) -> Seq<Additive> {
    Seq::new(
        x.len(),
        |t: int|
            if t < size {
                let skew = spec_skew_at(f, t, d as int, index as int);
                if spec_in_low_half(t, d as int) {
                    spec_skew_xor(f, x[t], x[t + d], skew)
                } else {
                    spec_xor(x[t], spec_skew_xor(f, x[t - d], x[t], skew))
                }
            } else {
                x[t]
            },
    )
}

/// One layer of the inverse transform on the first `size` elements of `x`:
/// in every block of `2 * d`, the high element takes up the low one, and the
/// low element then takes up the new high one times the skew factor of the
/// block.
pub open spec fn spec_inverse_afft_layer(
    f: Field,
    x: Seq<Additive>,
    size: nat,
    index: nat,
    d: nat,
) -> Seq<Additive> {
    Seq::new(
        x.len(),
        |t: int|
            if t < size {
                let skew = spec_skew_at(f, t, d as int, index as int);
                if spec_in_low_half(t, d as int) {
                    spec_skew_xor(f, x[t], spec_xor(x[t + d], x[t]), skew)
                } else {
                    spec_xor(x[t], x[t - d])
                }
            } else {
                x[t]
            },
    )
}

/// The forward layers of stride `d, d / 2, .., 1`, applied in that order.
pub open spec fn spec_afft_from(
    f: Field,
    x: Seq<Additive>,
    size: nat,
    index: nat,
    d: nat,
) -> Seq<Additive>
    decreases d,
{
    if d == 0 {
        x
    } else {
        spec_afft_from(f, spec_afft_layer(f, x, size, index, d), size, index, d / 2)
    }
}

/// The inverse layers of stride `1, 2, 4, ..` below `d`, applied in that order.
pub open spec fn spec_inverse_afft_upto(
    f: Field,
    x: Seq<Additive>,
    size: nat,
    index: nat,
    d: nat,
) -> Seq<Additive>
    decreases d,
{
    if d <= 1 {
        x
    } else {
        spec_inverse_afft_layer(
            f,
            spec_inverse_afft_upto(f, x, size, index, d / 2),
            size,
            index,
            d / 2,
        )
    }
}

/// The additive FFT of the first `size` elements of `x`: from the
/// coefficients of a polynomial in the novel basis to its values at the
/// `size` points that start at `index`.
pub open spec fn spec_afft(f: Field, x: Seq<Additive>, size: nat, index: nat) -> Seq<Additive> {
    spec_afft_from(f, x, size, index, size / 2)
}

/// The inverse additive FFT of the first `size` elements of `x`: from the
/// values of a polynomial at the `size` points that start at `index` to its
/// coefficients in the novel basis.
pub open spec fn spec_inverse_afft(f: Field, x: Seq<Additive>, size: nat, index: nat) -> Seq<
    Additive,
> {
    spec_inverse_afft_upto(f, x, size, index, size)
}

/// The inverse transform keeps the length of the vector.
pub proof fn lemma_inverse_afft_len(f: Field, x: Seq<Additive>, size: nat, index: nat, d: nat)
    ensures
        spec_inverse_afft_upto(f, x, size, index, d).len() == x.len(),
    decreases d,
{
    if d > 1 {
        lemma_inverse_afft_len(f, x, size, index, d / 2);
    }
}

/// The forward transform keeps the length of the vector.
pub proof fn lemma_afft_len(f: Field, x: Seq<Additive>, size: nat, index: nat, d: nat)
    ensures
        spec_afft_from(f, x, size, index, d).len() == x.len(),
    decreases d,
{
    if d > 0 {
        lemma_afft_len(f, spec_afft_layer(f, x, size, index, d), size, index, d / 2);
    }
}

/// Transforms the first `size` elements of `data` in place, for the columns
/// of the codeword that start at `index`.
pub fn afft(tables: &FieldTables, data: &mut Vec<Additive>, size: usize, index: usize)
    requires
        is_pow2(size as int),
        size <= old(data)@.len(),
        size + index <= tables@.field.spec_size(),
    ensures
        final(data)@ == spec_afft(tables@.field, old(data)@, size as nat, index as nat),
        final(data)@.len() == old(data)@.len(),
{
    let f: Field = tables.field();
    let onemask: u16 = f.onemask();
    let mut depart_no: usize = size / 2;
    proof {
        reveal(is_pow2);
    }
    while depart_no > 0
        invariant
            is_pow2(size as int),
            depart_no == 0 || (is_pow2(depart_no as int) && depart_no < size),
            size <= data@.len(),
            size + index <= f.spec_size(),
            f == tables@.field,
            onemask == f.spec_onemask(),
            data@.len() == old(data)@.len(),
            spec_afft_from(f, data@, size as nat, index as nat, depart_no as nat) == spec_afft(
                f,
                old(data)@,
                size as nat,
                index as nat,
            ),
        decreases depart_no,
    {
        let ghost prev = data@;
        let ghost layer = spec_afft_layer(f, prev, size as nat, index as nat, depart_no as nat);
        let ghost m = lemma_pow2_blocks(depart_no as nat, size as nat);
        let mut j: usize = 0;
        let ghost mut q: int = 0;
        while j < size
            invariant
                depart_no >= 1,
                size == m * (2 * depart_no),
                j == q * (2 * depart_no),
                0 <= q <= m,
                j <= size,
                size <= data@.len(),
                size + index <= f.spec_size(),
            f == tables@.field,
            onemask == f.spec_onemask(),
                data@.len() == prev.len(),
                layer == spec_afft_layer(f, prev, size as nat, index as nat, depart_no as nat),
                forall|t: int| 0 <= t < j ==> data@[t] == layer[t],
                forall|t: int| j <= t < data@.len() ==> data@[t] == prev[t],
            decreases size - j,
        {
            proof {
                lemma_block_count(q, m as int, depart_no as int);
                lemma_block_advance(q, m as int, depart_no as int);
            }
            let skew: Logarithm = tables.get_skew(j + depart_no + index - 1);
            let mut i: usize = j;
            while i < j + depart_no
                invariant
                    depart_no >= 1,
                    f == tables@.field,
                    onemask == f.spec_onemask(),
                    j == q * (2 * depart_no),
                    j + 2 * depart_no <= size,
                    j <= i <= j + depart_no,
                    size <= data@.len(),
                    data@.len() == prev.len(),
                    skew == spec_skew_table(f)[j + depart_no + index - 1],
                    layer == spec_afft_layer(f, prev, size as nat, index as nat, depart_no as nat),
                    forall|t: int| 0 <= t < j ==> data@[t] == layer[t],
                    forall|t: int| j <= t < i ==> data@[t] == layer[t],
                    forall|t: int| j + depart_no <= t < i + depart_no ==> data@[t] == layer[t],
                    forall|t: int| i <= t < j + depart_no ==> data@[t] == prev[t],
                    forall|t: int| i + depart_no <= t < data@.len() ==> data@[t] == prev[t],
                decreases j + depart_no - i,
            {
                let lo: Additive = data[i];
                let hi: Additive = data[i + depart_no];
                proof {
                    lemma_block_position(i as int, depart_no as int, q, i - j);
                    lemma_block_position(
                        i + depart_no as int,
                        depart_no as int,
                        q,
                        i - j + depart_no,
                    );
                }
                let new_lo: Additive = if skew.0 != onemask {
                    lo.bitxor(tables.mul(hi, skew))
                } else {
                    lo
                };
                data.set(i, new_lo);
                data.set(i + depart_no, hi.bitxor(new_lo));
                i += 1;
            }
            j += 2 * depart_no;
            proof {
                q = q + 1;
            }
        }
        proof {
            assert(data@ =~= layer);
            reveal(is_pow2);
            if depart_no / 2 > 0 {
                lemma_smaller_power_is_at_most_half((depart_no / 2) as nat, depart_no as nat);
            }
        }
        depart_no = depart_no / 2;
    }
}

/// Transforms the first `size` elements of `data` back in place, for the
/// columns of the codeword that start at `index`.
pub fn inverse_afft(tables: &FieldTables, data: &mut Vec<Additive>, size: usize, index: usize)
    requires
        is_pow2(size as int),
        size <= old(data)@.len(),
        size + index <= tables@.field.spec_size(),
    ensures
        final(data)@ == spec_inverse_afft(
            tables@.field,
            old(data)@,
            size as nat,
            index as nat,
        ),
        final(data)@.len() == old(data)@.len(),
{
    let f: Field = tables.field();
    let onemask: u16 = f.onemask();
    let mut depart_no: usize = 1;
    proof {
        reveal(is_pow2);
    }
    while depart_no < size
        invariant
            is_pow2(depart_no as int),
            is_pow2(size as int),
            1 <= depart_no <= size,
            size <= data@.len(),
            size + index <= f.spec_size(),
            f == tables@.field,
            onemask == f.spec_onemask(),
            data@.len() == old(data)@.len(),
            data@ == spec_inverse_afft_upto(f, old(data)@,
                size as nat,
                index as nat,
                depart_no as nat,
            ),
        decreases size - depart_no,
    {
        let ghost prev = data@;
        let ghost layer = spec_inverse_afft_layer(f, prev,
            size as nat,
            index as nat,
            depart_no as nat,
        );
        let ghost m = lemma_pow2_blocks(depart_no as nat, size as nat);
        let mut j: usize = 0;
        let ghost mut q: int = 0;
        while j < size
            invariant
                depart_no >= 1,
                size == m * (2 * depart_no),
                j == q * (2 * depart_no),
                0 <= q <= m,
                j <= size,
                size <= data@.len(),
                size + index <= f.spec_size(),
            f == tables@.field,
            onemask == f.spec_onemask(),
                data@.len() == prev.len(),
                layer == spec_inverse_afft_layer(f, prev,
                    size as nat,
                    index as nat,
                    depart_no as nat,
                ),
                forall|t: int| 0 <= t < j ==> data@[t] == layer[t],
                forall|t: int| j <= t < data@.len() ==> data@[t] == prev[t],
            decreases size - j,
        {
            proof {
                lemma_block_count(q, m as int, depart_no as int);
                lemma_block_advance(q, m as int, depart_no as int);
            }
            let skew: Logarithm = tables.get_skew(j + depart_no + index - 1);
            let mut i: usize = j;
            while i < j + depart_no
                invariant
                    depart_no >= 1,
                    f == tables@.field,
                    onemask == f.spec_onemask(),
                    j == q * (2 * depart_no),
                    j + 2 * depart_no <= size,
                    j <= i <= j + depart_no,
                    size <= data@.len(),
                    data@.len() == prev.len(),
                    skew == spec_skew_table(f)[j + depart_no + index - 1],
                    layer == spec_inverse_afft_layer(f, prev,
                        size as nat,
                        index as nat,
                        depart_no as nat,
                    ),
                    forall|t: int| 0 <= t < j ==> data@[t] == layer[t],
                    forall|t: int| j <= t < i ==> data@[t] == layer[t],
                    forall|t: int| j + depart_no <= t < i + depart_no ==> data@[t] == layer[t],
                    forall|t: int| i <= t < j + depart_no ==> data@[t] == prev[t],
                    forall|t: int| i + depart_no <= t < data@.len() ==> data@[t] == prev[t],
                decreases j + depart_no - i,
            {
                let lo: Additive = data[i];
                let hi: Additive = data[i + depart_no];
                proof {
                    lemma_block_position(i as int, depart_no as int, q, i - j);
                    lemma_block_position(
                        i + depart_no as int,
                        depart_no as int,
                        q,
                        i - j + depart_no,
                    );
                }
                let new_hi: Additive = hi.bitxor(lo);
                let new_lo: Additive = if skew.0 != onemask {
                    lo.bitxor(tables.mul(new_hi, skew))
                } else {
                    lo
                };
                data.set(i, new_lo);
                data.set(i + depart_no, new_hi);
                i += 1;
            }
            j += 2 * depart_no;
            proof {
                q = q + 1;
            }
        }
        proof {
            assert(data@ =~= layer);
            assert((2 * depart_no) as nat / 2 == depart_no as nat);
            reveal(is_pow2);
        }
        depart_no = 2 * depart_no;
    }
    proof {
        if depart_no > size {
            lemma_smaller_power_is_at_most_half(size as nat, depart_no as nat);
        }
    }
}

/// Adding the same element twice changes nothing.
pub proof fn lemma_xor_cancel(a: Additive, b: Additive)
    ensures
        spec_xor(spec_xor(a, b), b) == a,
{
    let x = a.0;
    let y = b.0;
    assert((x ^ y) ^ y == x) by (bit_vector);
}

/// An inverse layer undoes the forward layer of the same stride, and the
/// other way round.
pub proof fn lemma_layers_undo_each_other(f: Field, x: Seq<Additive>, size: nat, index: nat, d: nat)
    requires
        is_pow2(size as int),
        is_pow2(d as int),
        d < size <= x.len(),
    ensures
        spec_inverse_afft_layer(f, spec_afft_layer(f, x, size, index, d), size, index, d) == x,
        spec_afft_layer(f, spec_inverse_afft_layer(f, x, size, index, d), size, index, d) == x,
{
    let m = lemma_pow2_blocks(d, size);
    let fwd = spec_afft_layer(f, x, size, index, d);
    let back = spec_inverse_afft_layer(f, fwd, size, index, d);
    let inv = spec_inverse_afft_layer(f, x, size, index, d);
    let forth = spec_afft_layer(f, inv, size, index, d);
    assert forall|t: int| 0 <= t < x.len() implies back[t] == x[t] && forth[t] == x[t] by {
        if t < size {
            lemma_block_partner(t, d as int, m as int);
            let skew = spec_skew_at(f, t, d as int, index as int);
            if spec_in_low_half(t, d as int) {
                lemma_xor_cancel(x[t + d], fwd[t]);
                if skew.0 != f.spec_onemask() {
                    lemma_xor_cancel(x[t], spec_mul(f, x[t + d], skew));
                    lemma_xor_cancel(x[t], spec_mul(f, inv[t + d], skew));
                }
            } else {
                lemma_xor_cancel(x[t], fwd[t - d]);
                lemma_xor_cancel(x[t], x[t - d]);
                if skew.0 != f.spec_onemask() {
                    lemma_xor_cancel(x[t - d], spec_mul(f, inv[t], skew));
                }
            }
        }
    }
    assert(back =~= x);
    assert(forth =~= x);
}

/// The inverse layers up to stride `d` undo the forward layers from stride
/// `d` down.
proof fn lemma_inverse_undoes_forward(f: Field, x: Seq<Additive>, size: nat, index: nat, d: nat)
    requires
        is_pow2(size as int),
        size <= x.len(),
        d == 0 || (is_pow2(d as int) && d < size),
    ensures
        spec_inverse_afft_upto(f, spec_afft_from(f, x, size, index, d), size, index, 2 * d) == x,
    decreases d,
{
    if d > 0 {
        reveal(is_pow2);
        let x1 = spec_afft_layer(f, x, size, index, d);
        let y = spec_afft_from(f, x, size, index, d);
        lemma_inverse_undoes_forward(f, x1, size, index, d / 2);
        lemma_layers_undo_each_other(f, x, size, index, d);
        assert(y == spec_afft_from(f, x1, size, index, d / 2));
        assert((2 * d) / 2 == d);
        if d == 1 {
            assert(spec_afft_from(f, x1, size, index, 0) == x1);
            assert(spec_inverse_afft_upto(f, y, size, index, 1) == y);
        } else {
            assert(2 * (d / 2) == d);
        }
        assert(spec_inverse_afft_upto(f, y, size, index, d) == x1);
        assert(spec_inverse_afft_upto(f, y, size, index, 2 * d) == spec_inverse_afft_layer(
            f,
            spec_inverse_afft_upto(f, y, size, index, d),
            size,
            index,
            d,
        ));
    }
}

/// The forward layers from stride `d` down undo the inverse layers up to
/// stride `d`.
proof fn lemma_forward_undoes_inverse(f: Field, x: Seq<Additive>, size: nat, index: nat, d: nat)
    requires
        is_pow2(size as int),
        size <= x.len(),
        d == 0 || (is_pow2(d as int) && d < size),
    ensures
        spec_afft_from(f, spec_inverse_afft_upto(f, x, size, index, 2 * d), size, index, d) == x,
    decreases d,
{
    if d > 0 {
        reveal(is_pow2);
        let x1 = spec_inverse_afft_upto(f, x, size, index, d);
        lemma_inverse_afft_len(f, x, size, index, d);
        lemma_forward_undoes_inverse(f, x, size, index, d / 2);
        lemma_layers_undo_each_other(f, x1, size, index, d);
        assert((2 * d) / 2 == d);
    }
}

/// The inverse transform undoes the forward transform of the same size at
/// the same column, and the other way round, whatever the vector holds.
pub proof fn lemma_afft_involution(f: Field, v: Seq<Additive>, size: nat, index: nat)
    requires
        is_pow2(size as int),
        size <= v.len(),
    ensures
        spec_inverse_afft(f, spec_afft(f, v, size, index), size, index) == v,
        spec_afft(f, spec_inverse_afft(f, v, size, index), size, index) == v,
{
    reveal(is_pow2);
    if size >= 2 {
        lemma_smaller_power_is_at_most_half(1, size);
    }
    lemma_inverse_undoes_forward(f, v, size, index, size / 2);
    lemma_forward_undoes_inverse(f, v, size, index, size / 2);
}

} // verus!
