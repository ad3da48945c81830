//! Erasure decoding of one column: the error locator polynomial of an
//! erasure pattern, and the recovery of the payload symbols of a codeword
//! from the symbols that are left of it.
use crate::afft::{afft, inverse_afft, spec_afft, spec_inverse_afft};
use crate::derivative::{spec_tweaked_formal_derivative, tweaked_formal_derivative};
use crate::errors::Error;
use crate::field::{spec_to_be_bytes, Additive, Field, Logarithm};
use crate::tables::{
    lemma_field_size, spec_log_walsh_seed, spec_log_walsh_table, spec_mul, FieldTables,
};
use crate::walsh::{lemma_walsh_len, spec_walsh, walsh};
use vstd::arithmetic::power2::is_pow2;
use vstd::prelude::*;

verus! {

/// The logarithm zero at every place of the field.
pub open spec fn spec_no_logs(f: Field) -> Seq<Logarithm> {
    Seq::new(f.spec_size(), |i: int| Logarithm(0))
}

/// The smaller of `n` and the number of erasure marks.
pub open spec fn spec_marked(erasure: Seq<bool>, n: nat) -> nat {
    if n <= erasure.len() {
        n
    } else {
        erasure.len()
    }
}

/// The first `n` erasure marks as logarithms `1` and `0` in the first
/// places of `x`, and zeros behind them at every other place of the field.
pub open spec fn spec_error_seed(
    f: Field,
    erasure: Seq<bool>,
    x: Seq<Logarithm>,
    n: nat,
) -> Seq<Logarithm> {
    Seq::new(
        x.len(),
        |i: int|
            if i < spec_marked(erasure, n) {
                if erasure[i] {
                    Logarithm(1)
                } else {
                    Logarithm(0)
                }
            } else if i < f.spec_size() {
                Logarithm(0)
            } else {
                x[i]
            },
    )
}

/// The elements of `x` at the places of the field, each times the element
/// of the Walsh transform of the logarithm table at its place, modulo
/// `ONEMASK`.
pub open spec fn spec_error_product(f: Field, x: Seq<Logarithm>) -> Seq<Logarithm> {
    Seq::new(
        x.len(),
        |i: int|
            if i < f.spec_size() {
                Logarithm(
                    ((x[i].0 * spec_log_walsh_table(f)[i].0) % (f.spec_onemask() as int)) as u16,
                )
            } else {
                x[i]
            },
    )
}

/// `x` with the logarithms at the marked places replaced by their negatives.
pub open spec fn spec_error_complement(
    f: Field,
    erasure: Seq<bool>,
    x: Seq<Logarithm>,
    n: nat,
) -> Seq<Logarithm> {
    Seq::new(
        x.len(),
        |i: int|
            if i < spec_marked(erasure, n) && erasure[i] {
                Logarithm((f.spec_onemask() - f.spec_index(x[i].0)) as u16)
            } else {
                x[i]
            },
    )
}

/// The logarithms of the values of the error locator polynomial of the
/// first `n` marks of the erasure pattern `erasure`, at every place of the
/// field: the Walsh transform of the marks, with zeros at all places
/// without a mark, times the Walsh transform of the logarithm table at
/// every place of the field, transformed again, and negated at the marked
/// places. What `x` holds at the places of the field makes no difference.
pub open spec fn spec_eval_error_polynomial(
    f: Field,
    erasure: Seq<bool>,
    x: Seq<Logarithm>,
    n: nat,
) -> Seq<Logarithm> {
    spec_error_complement(
        f,
        erasure,
        spec_walsh(
            f,
            spec_error_product(
                f,
                spec_walsh(f, spec_error_seed(f, erasure, x, n), f.spec_size()),
            ),
            f.spec_size(),
        ),
        n,
    )
}

/// The symbols that were received, each times the value of the error locator
/// polynomial at its place, and zeros where none was received.
pub open spec fn spec_mask_received(
    f: Field,
    codeword: Seq<Additive>,
    erasure: Seq<bool>,
    error_poly: Seq<Logarithm>,
    n: nat,
) -> Seq<Additive> {
    Seq::new(
        codeword.len(),
        |i: int|
            if i < n {
                if erasure[i] {
                    Additive(0)
                } else {
                    spec_mul(f, codeword[i], error_poly[i])
                }
            } else {
                codeword[i]
            },
    )
}

/// Of the first `recover_up_to` symbols those that were erased, each times
/// the value of the error locator polynomial at its place, and zeros where
/// nothing was erased.
pub open spec fn spec_mask_recovered(
    f: Field,
    codeword: Seq<Additive>,
    recover_up_to: nat,
    erasure: Seq<bool>,
    error_poly: Seq<Logarithm>,
) -> Seq<Additive> {
    Seq::new(
        codeword.len(),
        |i: int|
            if i < recover_up_to {
                if erasure[i] {
                    spec_mul(f, codeword[i], error_poly[i])
                } else {
                    Additive(0)
                }
            } else {
                codeword[i]
            },
    )
}

/// What the decoder makes of a codeword with erasures: it masks the symbols
/// with the error locator polynomial, takes the inverse transform, the
/// twisted formal derivative and the transform, and masks again. The erased
/// places among the first `recover_up_to` then hold the symbols that were
/// erased.
pub open spec fn spec_decode_main(
    f: Field,
    codeword: Seq<Additive>,
    recover_up_to: nat,
    erasure: Seq<bool>,
    error_poly: Seq<Logarithm>,
    n: nat,
) -> Seq<Additive> {
    spec_mask_recovered(
        f,
        spec_afft(
            f,
            spec_tweaked_formal_derivative(
                f,
                spec_inverse_afft(
                    f,
                    spec_mask_received(f, codeword, erasure, error_poly, n),
                    n,
                    0,
                ),
                n,
            ),
            n,
            0,
        ),
        recover_up_to,
        erasure,
        error_poly,
    )
}

/// The symbols that were received, and zeros where none was.
pub open spec fn spec_densify(codewords: Seq<Option<Additive>>) -> Seq<Additive> {
    Seq::new(
        codewords.len(),
        |i: int|
            match codewords[i] {
                Some(symbol) => symbol,
                None => Additive(0),
            },
    )
}

/// The `k` payload symbols of a column: those that were received as they
/// were received, and those that are marked as erased as the decoder
/// recovers them.
pub open spec fn spec_reconstruct_symbols(
    f: Field,
    codewords: Seq<Option<Additive>>,
    erasures: Seq<bool>,
    n: nat,
    k: nat,
    error_poly: Seq<Logarithm>,
) -> Seq<Additive> {
    let received = spec_densify(codewords);
    let decoded = spec_decode_main(f, received, k, erasures, error_poly, n);
    Seq::new(
        k,
        |i: int|
            if erasures[i] {
                decoded[i]
            } else {
                received[i]
            },
    )
}

/// The bytes of `symbols` on the wire, most significant byte of every symbol
/// first.
pub open spec fn spec_unpack(f: Field, symbols: Seq<Additive>) -> Seq<u8> {
    Seq::new(
        f.spec_field_bytes() * symbols.len(),
        |i: int|
            spec_to_be_bytes(f, symbols[i / (f.spec_field_bytes() as int)])[i % (
            f.spec_field_bytes() as int)],
    )
}

/// The payload bytes of a column: those of its `k` payload symbols.
pub open spec fn spec_reconstruct_sub(
    f: Field,
    codewords: Seq<Option<Additive>>,
    erasures: Seq<bool>,
    n: nat,
    k: nat,
    error_poly: Seq<Logarithm>,
) -> Seq<u8> {
    spec_unpack(f, spec_reconstruct_symbols(f, codewords, erasures, n, k, error_poly))
}

/// A payload symbol that is not marked as erased is returned as it was
/// received.
pub proof fn lemma_received_symbols_are_kept(
    f: Field,
    codewords: Seq<Option<Additive>>,
    erasures: Seq<bool>,
    n: nat,
    k: nat,
    error_poly: Seq<Logarithm>,
    i: int,
)
    requires
        0 <= i < k <= codewords.len(),
        !erasures[i],
    ensures
        spec_reconstruct_symbols(f, codewords, erasures, n, k, error_poly)[i] == spec_densify(
            codewords,
        )[i],
{
}

/// Evaluates the error locator polynomial of the erasure pattern `erasure`
/// at every element of the field, once for all columns: fills the first `n`
/// places of `log_walsh2` from the marks of `erasure` and the other places
/// of the field with zeros, and leaves in `log_walsh2` the logarithms of
/// the values.
pub fn eval_error_polynomial(
    tables: &FieldTables,
    erasure: &[bool],
    log_walsh2: &mut Vec<Logarithm>,
    n: usize,
)
    requires
        n <= tables@.field.spec_size() <= old(log_walsh2)@.len(),
    ensures
        final(log_walsh2)@ == spec_eval_error_polynomial(
            tables@.field,
            erasure@,
            old(log_walsh2)@,
            n as nat,
        ),
        final(log_walsh2)@.len() == old(log_walsh2)@.len(),
{
    let f: Field = tables.field();
    let field_size: usize = f.size();
    let onemask: u16 = f.onemask();
    let z: usize = if n <= erasure.len() {
        n
    } else {
        erasure.len()
    };
    let ghost seed = spec_error_seed(f, erasure@, old(log_walsh2)@, n as nat);
    let mut i: usize = 0;
    while i < z
        invariant
            i <= z <= n <= log_walsh2@.len(),
            z == spec_marked(erasure@, n as nat),
            log_walsh2@.len() == old(log_walsh2)@.len(),
            seed == spec_error_seed(f, erasure@, old(log_walsh2)@, n as nat),
            forall|t: int| 0 <= t < i ==> log_walsh2@[t] == seed[t],
            forall|t: int| i <= t < log_walsh2@.len() ==> log_walsh2@[t] == old(log_walsh2)@[t],
        decreases z - i,
    {
        let mark: u16 = if erasure[i] {
            1
        } else {
            0
        };
        log_walsh2.set(i, Logarithm(mark));
        i += 1;
    }
    while i < field_size
        invariant
            z <= i <= field_size <= log_walsh2@.len(),
            field_size == f.spec_size(),
            z == spec_marked(erasure@, n as nat),
            log_walsh2@.len() == old(log_walsh2)@.len(),
            seed == spec_error_seed(f, erasure@, old(log_walsh2)@, n as nat),
            forall|t: int| 0 <= t < i ==> log_walsh2@[t] == seed[t],
            forall|t: int| i <= t < log_walsh2@.len() ==> log_walsh2@[t] == old(log_walsh2)@[t],
        decreases field_size - i,
    {
        log_walsh2.set(i, Logarithm(0));
        i += 1;
    }
    assert(log_walsh2@ =~= seed);
    proof {
        lemma_field_size(f);
        crate::util::lemma_pow2_is_pow2(f.spec_bits() as nat);
        lemma_walsh_len(f, seed, f.spec_size(), f.spec_size());
        lemma_walsh_len(f, spec_log_walsh_seed(f), f.spec_size(), f.spec_size());
    }
    walsh(f, log_walsh2, field_size);
    let ghost transformed = log_walsh2@;
    let ghost product = spec_error_product(f, transformed);
    let mut i: usize = 0;
    while i < field_size
        invariant
            i <= field_size <= log_walsh2@.len(),
            f == tables@.field,
            field_size == f.spec_size(),
            onemask == f.spec_onemask(),
            log_walsh2@.len() == transformed.len(),
            product == spec_error_product(f, transformed),
            forall|t: int| 0 <= t < i ==> log_walsh2@[t] == product[t],
            forall|t: int| i <= t < log_walsh2@.len() ==> log_walsh2@[t] == transformed[t],
        decreases field_size - i,
    {
        let a: u32 = log_walsh2[i].to_wide();
        let b: u32 = tables.get_log_walsh(i as u16).to_wide();
        assert(a * b <= 0xFFFF * 0xFFFF) by (nonlinear_arith)
            requires
                a <= 0xFFFF,
                b <= 0xFFFF,
        ;
        let tmp: u32 = a * b;
        log_walsh2.set(i, Logarithm((tmp % (onemask as u32)) as u16));
        i += 1;
    }
    assert(log_walsh2@ =~= product);
    proof {
        lemma_walsh_len(f, product, f.spec_size(), f.spec_size());
    }
    walsh(f, log_walsh2, field_size);
    let ghost again = log_walsh2@;
    let ghost result = spec_error_complement(f, erasure@, again, n as nat);
    let mut i: usize = 0;
    while i < z
        invariant
            i <= z <= n <= log_walsh2@.len(),
            z == spec_marked(erasure@, n as nat),
            onemask == f.spec_onemask(),
            log_walsh2@.len() == again.len(),
            result == spec_error_complement(f, erasure@, again, n as nat),
            forall|t: int| 0 <= t < i ==> log_walsh2@[t] == result[t],
            forall|t: int| i <= t < log_walsh2@.len() ==> log_walsh2@[t] == again[t],
        decreases z - i,
    {
        if erasure[i] {
            let value: usize = f.index(log_walsh2[i].0);
            let negated: Logarithm = Logarithm(onemask - value as u16);
            log_walsh2.set(i, negated);
        }
        i += 1;
    }
    assert(log_walsh2@ =~= result);
}

/// Decodes one column in place. `codeword` holds the symbols that were
/// received, `erasure` marks the places where none was, and `log_walsh2`
/// holds the values of the error locator polynomial of `erasure`. Afterwards
/// the erased places among the first `recover_up_to` hold the symbols that
/// were erased, and the other places among those hold zero.
pub fn decode_main(
    tables: &FieldTables,
    codeword: &mut Vec<Additive>,
    recover_up_to: usize,
    erasure: &[bool],
    log_walsh2: &[Logarithm],
    n: usize,
)
    requires
        is_pow2(n as int),
        2 <= n <= tables@.field.spec_size(),
        old(codeword)@.len() == n,
        recover_up_to <= n,
        erasure@.len() == n,
        log_walsh2@.len() >= n,
    ensures
        final(codeword)@ == spec_decode_main(
            tables@.field,
            old(codeword)@,
            recover_up_to as nat,
            erasure@,
            log_walsh2@,
            n as nat,
        ),
        final(codeword)@.len() == n,
{
    let ghost f = tables@.field;
    let ghost masked = spec_mask_received(f, old(codeword)@, erasure@, log_walsh2@, n as nat);
    let mut i: usize = 0;
    while i < n
        invariant
            i <= n,
            f == tables@.field,
            codeword@.len() == n,
            old(codeword)@.len() == n,
            erasure@.len() == n,
            log_walsh2@.len() >= n,
            masked == spec_mask_received(f, old(codeword)@, erasure@, log_walsh2@, n as nat),
            forall|t: int| 0 <= t < i ==> codeword@[t] == masked[t],
            forall|t: int| i <= t < n ==> codeword@[t] == old(codeword)@[t],
        decreases n - i,
    {
        let symbol: Additive = if erasure[i] {
            Additive(0)
        } else {
            tables.mul(codeword[i], log_walsh2[i])
        };
        codeword.set(i, symbol);
        i += 1;
    }
    assert(codeword@ =~= masked);
    proof {
        reveal(is_pow2);
    }
    inverse_afft(tables, codeword, n, 0);
    tweaked_formal_derivative(tables, codeword, n);
    afft(tables, codeword, n, 0);
    let ghost transformed = codeword@;
    let ghost result = spec_mask_recovered(
        f,
        transformed,
        recover_up_to as nat,
        erasure@,
        log_walsh2@,
    );
    let mut i: usize = 0;
    while i < recover_up_to
        invariant
            i <= recover_up_to <= n,
            f == tables@.field,
            codeword@.len() == n,
            transformed.len() == n,
            erasure@.len() == n,
            log_walsh2@.len() >= n,
            result == spec_mask_recovered(
                f,
                transformed,
                recover_up_to as nat,
                erasure@,
                log_walsh2@,
            ),
            forall|t: int| 0 <= t < i ==> codeword@[t] == result[t],
            forall|t: int| i <= t < n ==> codeword@[t] == transformed[t],
        decreases recover_up_to - i,
    {
        let symbol: Additive = if erasure[i] {
            tables.mul(codeword[i], log_walsh2[i])
        } else {
            Additive(0)
        };
        codeword.set(i, symbol);
        i += 1;
    }
    assert(codeword@ =~= result);
}

/// The bytes of `symbols` on the wire.
pub(crate) fn unpack(f: Field, symbols: &Vec<Additive>) -> (bytes: Vec<u8>)
    ensures
        bytes@ == spec_unpack(f, symbols@),
{
    let mut bytes: Vec<u8> = Vec::new();
    let mut idx: usize = 0;
    while idx < symbols.len()
        invariant
            idx <= symbols@.len(),
            bytes@.len() == f.spec_field_bytes() * idx,
            forall|t: int| 0 <= t < bytes@.len() ==> bytes@[t] == spec_unpack(f, symbols@)[t],
        decreases symbols@.len() - idx,
    {
        match f {
            Field::F256 => {
                bytes.push((symbols[idx].0 % 256) as u8);
            },
            Field::F2e16 => {
                let pair: [u8; 2] = symbols[idx].to_be_bytes();
                bytes.push(pair[0]);
                bytes.push(pair[1]);
            },
        }
        idx += 1;
    }
    assert(bytes@ =~= spec_unpack(f, symbols@));
    bytes
}

/// Reconstructs the payload bytes of one column from the symbols that were
/// received of its codeword.
pub fn reconstruct_sub(
    tables: &FieldTables,
    codewords: &[Option<Additive>],
    erasures: &[bool],
    n: usize,
    k: usize,
    error_poly: &[Logarithm],
) -> (res: Result<Vec<u8>, Error>)
    requires
        is_pow2(n as int),
        is_pow2(k as int),
        codewords@.len() == n,
        erasures@.len() == n,
        error_poly@.len() >= n,
        k + k <= n <= tables@.field.spec_size(),
    ensures
        res is Ok,
        res->Ok_0@ == spec_reconstruct_sub(
            tables@.field,
            codewords@,
            erasures@,
            n as nat,
            k as nat,
            error_poly@,
        ),
{
    proof {
        reveal(is_pow2);
    }
    let ghost f = tables@.field;
    let ghost received = spec_densify(codewords@);
    let mut recovered: Vec<Additive> = Vec::new();
    let mut codeword: Vec<Additive> = Vec::new();
    let mut idx: usize = 0;
    while idx < n
        invariant
            idx <= n,
            k <= n,
            codewords@.len() == n,
            received == spec_densify(codewords@),
            codeword@.len() == idx,
            recovered@.len() == (if idx < k {
                idx
            } else {
                k
            }),
            forall|t: int| 0 <= t < idx ==> codeword@[t] == received[t],
            forall|t: int| 0 <= t < recovered@.len() ==> recovered@[t] == received[t],
        decreases n - idx,
    {
        let symbol: Additive = match codewords[idx] {
            Some(symbol) => symbol,
            None => Additive(0),
        };
        if idx < k {
            recovered.push(symbol);
        }
        codeword.push(symbol);
        idx += 1;
    }
    assert(codeword@ =~= received);
    decode_main(tables, &mut codeword, k, erasures, error_poly, n);
    let ghost symbols = spec_reconstruct_symbols(
        f,
        codewords@,
        erasures@,
        n as nat,
        k as nat,
        error_poly@,
    );
    let mut idx: usize = 0;
    while idx < k
        invariant
            idx <= k <= n,
            codeword@.len() == n,
            recovered@.len() == k,
            erasures@.len() == n,
            codeword@ == spec_decode_main(f, received, k as nat, erasures@, error_poly@, n as nat),
            received == spec_densify(codewords@),
            symbols == spec_reconstruct_symbols(
                f,
                codewords@,
                erasures@,
                n as nat,
                k as nat,
                error_poly@,
            ),
            forall|t: int| 0 <= t < idx ==> recovered@[t] == symbols[t],
            forall|t: int| idx <= t < k ==> recovered@[t] == received[t],
        decreases k - idx,
    {
        if erasures[idx] {
            recovered.set(idx, codeword[idx]);
        }
        idx += 1;
    }
    assert(recovered@ =~= symbols);
    Ok(unpack(tables.field(), &recovered))
}

} // verus!
