//! The fast Walsh-Hadamard transform on logarithms.
use crate::blocks::{
    lemma_block_advance, lemma_block_count, lemma_block_position, lemma_pow2_blocks,
    spec_in_low_half,
};
use crate::field::{spec_log_add, spec_log_sub, Field, Logarithm};
use crate::params::lemma_smaller_power_is_at_most_half;
use vstd::arithmetic::power2::is_pow2;
use vstd::prelude::*;

verus! {

/// One layer of the transform on the first `size` elements of `x`: in every
/// block of `2 * d` elements, element `i` of the low half becomes the sum and
/// element `i + d` the difference of the two.
pub open spec fn spec_walsh_layer(f: Field, x: Seq<Logarithm>, size: nat, d: nat) -> Seq<
    Logarithm,
> {
    Seq::new(
        x.len(),
        |t: int|
            if t < size {
                if spec_in_low_half(t, d as int) {
                    spec_log_add(f, x[t], x[t + d])
                } else {
                    spec_log_sub(f, x[t - d], x[t])
                }
            } else {
                x[t]
            },
    )
}

/// The layers of stride `1, 2, 4, ..` below `d`, applied in that order.
pub open spec fn spec_walsh_upto(f: Field, x: Seq<Logarithm>, size: nat, d: nat) -> Seq<
    Logarithm,
>
    decreases d,
{
    if d <= 1 {
        x
    } else {
        spec_walsh_layer(f, spec_walsh_upto(f, x, size, d / 2), size, d / 2)
    }
}

/// The Walsh-Hadamard transform of the first `size` elements of `x`, with
/// sums and differences taken modulo the `ONEMASK` of the field `f`.
pub open spec fn spec_walsh(f: Field, x: Seq<Logarithm>, size: nat) -> Seq<Logarithm> {
    spec_walsh_upto(f, x, size, size)
}

/// The transform keeps the length of the vector.
pub proof fn lemma_walsh_len(f: Field, x: Seq<Logarithm>, size: nat, d: nat)
    ensures
        spec_walsh_upto(f, x, size, d).len() == x.len(),
    decreases d,
{
    if d > 1 {
        lemma_walsh_len(f, x, size, d / 2);
    }
}

/// Transforms the first `size` elements of `data` in place, as logarithms of
/// the field `f`.
pub fn walsh(f: Field, data: &mut Vec<Logarithm>, size: usize)
    requires
        is_pow2(size as int),
        size <= old(data)@.len(),
    ensures
        final(data)@ == spec_walsh(f, old(data)@, size as nat),
        final(data)@.len() == old(data)@.len(),
{
    let mut depart_no: usize = 1;
    proof {
        reveal(is_pow2);
    }
    while depart_no < size
        invariant
            is_pow2(depart_no as int),
            is_pow2(size as int),
            1 <= depart_no <= size,
            size <= data@.len(),
            data@.len() == old(data)@.len(),
            data@ == spec_walsh_upto(f, old(data)@, size as nat, depart_no as nat),
        decreases size - depart_no,
    {
        let ghost prev = data@;
        let ghost layer = spec_walsh_layer(f, prev, size as nat, depart_no as nat);
        let ghost m = lemma_pow2_blocks(depart_no as nat, size as nat);
        let depart_no_next: usize = depart_no * 2;
        let mut j: usize = 0;
        let ghost mut q: int = 0;
        while j < size
            invariant
                depart_no >= 1,
                depart_no_next == 2 * depart_no,
                size == m * (2 * depart_no),
                j == q * (2 * depart_no),
                0 <= q <= m,
                j <= size,
                size <= data@.len(),
                data@.len() == prev.len(),
                layer == spec_walsh_layer(f, prev, size as nat, depart_no as nat),
                forall|t: int| 0 <= t < j ==> data@[t] == layer[t],
                forall|t: int| j <= t < data@.len() ==> data@[t] == prev[t],
            decreases size - j,
        {
            proof {
                lemma_block_count(q, m as int, depart_no as int);
                lemma_block_advance(q, m as int, depart_no as int);
            }
            let mut i: usize = j;
            while i < j + depart_no
                invariant
                    depart_no >= 1,
                    j == q * (2 * depart_no),
                    j + 2 * depart_no <= size,
                    j <= i <= j + depart_no,
                    size <= data@.len(),
                    data@.len() == prev.len(),
                    layer == spec_walsh_layer(f, prev, size as nat, depart_no as nat),
                    forall|t: int| 0 <= t < j ==> data@[t] == layer[t],
                    forall|t: int| j <= t < i ==> data@[t] == layer[t],
                    forall|t: int| j + depart_no <= t < i + depart_no ==> data@[t] == layer[t],
                    forall|t: int| i <= t < j + depart_no ==> data@[t] == prev[t],
                    forall|t: int| i + depart_no <= t < data@.len() ==> data@[t] == prev[t],
                decreases j + depart_no - i,
            {
                let a: Logarithm = data[i];
                let b: Logarithm = data[i + depart_no];
                proof {
                    lemma_block_position(i as int, depart_no as int, q, i - j);
                    lemma_block_position(
                        i + depart_no as int,
                        depart_no as int,
                        q,
                        i - j + depart_no,
                    );
                }
                data.set(i, a.add(b, f));
                data.set(i + depart_no, a.sub(b, f));
                i += 1;
            }
            j += depart_no_next;
            proof {
                q = q + 1;
            }
        }
        proof {
            assert(data@ =~= layer);
            assert(depart_no_next as nat / 2 == depart_no as nat);
            reveal(is_pow2);
        }
        depart_no = depart_no_next;
    }
    proof {
        if depart_no > size {
            lemma_smaller_power_is_at_most_half(size as nat, depart_no as nat);
        }
    }
}

} // verus!
