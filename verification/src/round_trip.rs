//! What reconstruction gives back of what encoding was given.
use crate::blocks::lemma_symbol_position;
use crate::decode::{spec_densify, spec_reconstruct_sub, spec_reconstruct_symbols, spec_unpack};
use crate::decode_laws::{
    lemma_encode_low_evaluates, lemma_reconstruct_symbols, spec_erased_below,
    spec_is_left_of_codeword,
};
use crate::encode::{
    spec_byte_or_zero, spec_encode_low, spec_encode_sub, spec_pack, spec_symbol_bytes,
};
use crate::errors::Error;
use crate::evaluation::spec_all_in_field;
use crate::field::{
    lemma_be_bytes_of_element, lemma_be_bytes_round_trip, spec_from_be_bytes, spec_to_be_bytes,
    Field,
};
use crate::novel_poly_basis::{
    lemma_chunk_in_payload, lemma_chunks_cover_payload, spec_chunk, spec_column, spec_count_present,
    spec_encoded_shard, spec_erasures, spec_error_poly, spec_first_other_length, spec_first_present,
    spec_shard_len, spec_shard_symbols, ReedSolomon,
};
use crate::params::CodeParams;
use crate::tables::{lemma_field_size, spec_field_is_valid};
use crate::util::{lemma_pow2_of_log2, spec_log2};
use vstd::arithmetic::div_mod::lemma_fundamental_div_mod;
use vstd::arithmetic::power2::{is_pow2, lemma_pow2_strictly_increases, pow2};
use vstd::prelude::*;

verus! {

/// The first `len` bytes of `payload` followed by zeros.
pub open spec fn spec_zero_padded(payload: Seq<u8>, len: nat) -> Seq<u8> {
    Seq::new(len, |b: int| spec_byte_or_zero(payload, b))
}

/// Whether `received` is what is left of `shards` after some of them were
/// lost: every shard is either missing or the one that was encoded for its
/// place.
pub open spec fn spec_is_left_of(received: Seq<Option<Seq<u8>>>, shards: Seq<Seq<u8>>) -> bool {
    &&& received.len() == shards.len()
    &&& forall|i: int|
        0 <= i < received.len() ==> #[trigger] received[i] is None || received[i] == Some(shards[i])
}

/// Where every shard that was received has the length `len`, no other
/// length is found.
proof fn lemma_no_other_length(shards: Seq<Option<Seq<u8>>>, len: nat, from: int)
    requires
        forall|i: int|
            0 <= i < shards.len() && shards[i] is Some ==> (#[trigger] shards[i])->Some_0.len()
                == len,
    ensures
        spec_first_other_length(shards, len, from) is None,
    decreases shards.len() - from,
{
    if 0 <= from < shards.len() {
        lemma_no_other_length(shards, len, from + 1);
    }
}

/// Where the first `k` shards were received, at least as many shards are
/// counted as there are places among the first `k`.
proof fn lemma_count_present(shards: Seq<Option<Seq<u8>>>, k: int, upto: int)
    requires
        0 <= k <= shards.len(),
        forall|i: int| 0 <= i < k ==> (#[trigger] shards[i]) is Some,
        0 <= upto,
    ensures
        upto <= k ==> spec_count_present(shards, upto) == upto,
        upto >= k ==> spec_count_present(shards, upto) >= k,
        spec_count_present(shards, upto) <= upto,
    decreases upto,
{
    if upto > 0 {
        lemma_count_present(shards, k, upto - 1);
    }
}

/// A byte of a column of the payload is the byte of the payload at its
/// place, and zero behind the end of the payload.
proof fn lemma_chunk_byte(f: Field, payload: Seq<u8>, k: nat, col: int, r: int)
    requires
        k >= 1,
        0 <= col < spec_shard_symbols(f, payload.len(), k),
        0 <= r < f.spec_field_bytes() * k,
    ensures
        spec_byte_or_zero(spec_chunk(f, payload, col, k), r) == spec_byte_or_zero(
            payload,
            col * (f.spec_field_bytes() * k) + r,
        ),
{
    lemma_chunk_in_payload(f, payload.len(), k, col);
}

/// The payload byte that reconstruction returns at place `r` of column
/// `col`, where the symbol that holds it was received as it was encoded: the
/// byte of the payload at that place.
proof fn lemma_column_byte(
    f: Field,
    params: CodeParams,
    payload: Seq<u8>,
    received: Seq<Option<Seq<u8>>>,
    col: int,
    r: int,
)
    requires
        params.spec_is_valid(f),
        params.k <= params.real_n,
        payload.len() >= 1,
        spec_is_left_of(received, ReedSolomon::spec_encode(f, params, payload)->Ok_0),
        forall|i: int| 0 <= i < params.k ==> (#[trigger] received[i]) is Some,
        0 <= col < spec_shard_symbols(f, payload.len(), params.k as nat),
        0 <= r < f.spec_field_bytes() * params.k,
    ensures
        spec_reconstruct_sub(
            f,
            spec_column(f, received, params.n as nat, col),
            spec_erasures(received, params.n as nat),
            params.n as nat,
            params.k as nat,
            spec_error_poly(f, spec_erasures(received, params.n as nat)),
        )[r] == spec_byte_or_zero(payload, col * (f.spec_field_bytes() * params.k) + r),
{
    let n = params.n as nat;
    let k = params.k as nat;
    let w = f.spec_field_bytes() as int;
    let columns = spec_shard_symbols(f, payload.len(), k);
    let shards = ReedSolomon::spec_encode(f, params, payload)->Ok_0;
    let column = spec_column(f, received, n, col);
    let erasures = spec_erasures(received, n);
    let error_poly = spec_error_poly(f, erasures);
    let symbols = spec_reconstruct_symbols(f, column, erasures, n, k, error_poly);
    let i = r / w;
    let e = r % w;
    lemma_fundamental_div_mod(r, w);
    assert(0 <= i < k && r == w * i + e) by (nonlinear_arith)
        requires
            r == w * i + e,
            0 <= e < w,
            0 <= r < w * k,
    ;
    let chunk = spec_chunk(f, payload, col, k);
    let wire = spec_symbol_bytes(f, chunk, i);
    let x = spec_encode_sub(f, chunk, n, k)[i];
    // The symbol was encoded as the payload symbol at its place.
    assert(x == spec_pack(f, chunk, n)[i]);
    assert(x == spec_from_be_bytes(f, wire));
    lemma_be_bytes_round_trip(f, wire);
    // It was received as it was encoded.
    assert(received[i] is Some);
    assert(received[i] == Some(shards[i]));
    let shard = spec_encoded_shard(f, payload, n, k, i);
    assert(shards[i] == shard);
    assert(w * col + w <= w * columns) by (nonlinear_arith)
        requires
            0 <= col < columns,
            w >= 1,
    ;
    let slot = shard.subrange(w * col, w * col + w);
    assert(slot =~= wire) by {
        assert forall|t: int| 0 <= t < w implies slot[t] == wire[t] by {
            lemma_symbol_position(w, col, t);
        }
    }
    // So it is returned as it was received.
    assert(!erasures[i]);
    assert(symbols[i] == spec_densify(column)[i]);
    assert(spec_densify(column)[i] == x);
    assert(spec_unpack(f, symbols)[r] == spec_to_be_bytes(f, symbols[i])[e]);
    assert(wire[e] == spec_byte_or_zero(chunk, r));
    lemma_chunk_byte(f, payload, k, col, r);
}

/// Reconstruction returns the payload, followed by the zeros that fill its
/// last column, from whatever is left of the shards that it was encoded
/// into, as long as the first `k` shards are among them.
pub proof fn lemma_round_trip(
    f: Field,
    params: CodeParams,
    payload: Seq<u8>,
    received: Seq<Option<Seq<u8>>>,
)
    requires
        params.spec_is_valid(f),
        params.k <= params.real_n,
        payload.len() >= 1,
        spec_is_left_of(received, ReedSolomon::spec_encode(f, params, payload)->Ok_0),
        forall|i: int| 0 <= i < params.k ==> (#[trigger] received[i]) is Some,
    ensures
        ReedSolomon::spec_encode(f, params, payload) is Ok,
        ReedSolomon::spec_reconstruct(f, params, received) == Ok::<Seq<u8>, Error>(
            spec_zero_padded(
                payload,
                spec_shard_symbols(f, payload.len(), params.k as nat) * (f.spec_field_bytes()
                    * params.k as nat),
            ),
        ),
        payload.len() <= spec_shard_symbols(f, payload.len(), params.k as nat) * (
        f.spec_field_bytes() * params.k as nat),
{
    reveal(is_pow2);
    let n = params.n as nat;
    let k = params.k as nat;
    let w = f.spec_field_bytes() as int;
    let width = w * k;
    let columns = spec_shard_symbols(f, payload.len(), k);
    let len = spec_shard_len(f, payload.len(), k);
    let shards = ReedSolomon::spec_encode(f, params, payload)->Ok_0;
    lemma_chunks_cover_payload(f, payload.len(), k);
    assert forall|i: int| 0 <= i < received.len() && received[i] is Some implies (
    #[trigger] received[i])->Some_0.len() == len by {
        assert(received[i] == Some(shards[i]));
    }
    assert(received[0] is Some);
    assert(spec_first_present(received, 0) == Some(0int));
    lemma_no_other_length(received, len, 0);
    lemma_count_present(received, k as int, n as int);
    lemma_symbol_position(w, columns as int - 1, 0);
    assert(len > 0 && len % (w as nat) == 0 && len / (w as nat) == columns) by {
        vstd::arithmetic::div_mod::lemma_fundamental_div_mod_converse(
            len as int,
            w,
            columns as int,
            0,
        );
        assert(len == columns * w + 0 && len >= w) by (nonlinear_arith)
            requires
                len == w * columns,
                columns >= 1,
                w >= 1,
        ;
    }
    assert(ReedSolomon::spec_uniform_length(f, params, received) == Ok::<nat, Error>(len));
    assert(ReedSolomon::spec_check(f, params, received) == Ok::<nat, Error>(columns));
    let reconstructed = ReedSolomon::spec_reconstructed(f, params, received, columns);
    let padded = spec_zero_padded(payload, columns * (f.spec_field_bytes() * k));
    assert(reconstructed.len() == padded.len());
    assert forall|b: int| 0 <= b < reconstructed.len() implies reconstructed[b] == padded[b] by {
        let col = b / width;
        let r = b % width;
        assert(width >= 1) by (nonlinear_arith)
            requires
                width == w * k,
                w >= 1,
                k >= 1,
        ;
        lemma_fundamental_div_mod(b, width);
        assert(0 <= col < columns) by (nonlinear_arith)
            requires
                b == width * col + r,
                0 <= r < width,
                0 <= b < columns * width,
        ;
        assert(col * width + r == b) by (nonlinear_arith)
            requires
                b == width * col + r,
        ;
        lemma_column_byte(f, params, payload, received, col, r);
    }
    assert(reconstructed =~= padded);
}

/// Reconstruction from all the shards of a payload returns the payload,
/// followed by the zeros that fill its last column.
pub proof fn lemma_round_trip_of_all_shards(f: Field, params: CodeParams, payload: Seq<u8>)
    requires
        params.spec_is_valid(f),
        params.k <= params.real_n,
        payload.len() >= 1,
    ensures
        ReedSolomon::spec_encode(f, params, payload) is Ok,
        ReedSolomon::spec_reconstruct(
            f,
            params,
            ReedSolomon::spec_encode(f, params, payload)->Ok_0.map_values(
                |shard: Seq<u8>| Some(shard),
            ),
        ) == Ok::<Seq<u8>, Error>(
            spec_zero_padded(
                payload,
                spec_shard_symbols(f, payload.len(), params.k as nat) * (f.spec_field_bytes()
                    * params.k as nat),
            ),
        ),
{
    let shards = ReedSolomon::spec_encode(f, params, payload)->Ok_0;
    let received = shards.map_values(|shard: Seq<u8>| Some(shard));
    assert(spec_is_left_of(received, shards));
    lemma_round_trip(f, params, payload, received);
}

/// Where a shard was received at or behind `from`, the first such place is
/// found.
proof fn lemma_first_present(shards: Seq<Option<Seq<u8>>>, from: int, at: int)
    requires
        0 <= from <= at < shards.len(),
        shards[at] is Some,
    ensures
        spec_first_present(shards, from) is Some,
        0 <= spec_first_present(shards, from)->Some_0 < shards.len(),
        shards[spec_first_present(shards, from)->Some_0] is Some,
    decreases at - from,
{
    if !(shards[from] is Some) {
        lemma_first_present(shards, from + 1, at);
    }
}

/// Where a shard is counted, there is a place at which one was received.
proof fn lemma_counted_is_present(shards: Seq<Option<Seq<u8>>>, upto: int) -> (at: int)
    requires
        spec_count_present(shards, upto) >= 1,
    ensures
        0 <= at < upto,
        at < shards.len(),
        shards[at] is Some,
    decreases upto,
{
    if upto - 1 < shards.len() && shards[upto - 1] is Some {
        upto - 1
    } else {
        lemma_counted_is_present(shards, upto - 1)
    }
}

/// Every place of the codeword is either one at which a shard was received
/// or an erased one.
proof fn lemma_present_and_erased(shards: Seq<Option<Seq<u8>>>, n: nat, upto: nat)
    requires
        upto <= n,
    ensures
        spec_count_present(shards, upto as int) + spec_erased_below(
            spec_erasures(shards, n),
            upto,
        ) == upto,
    decreases upto,
{
    if upto > 0 {
        lemma_present_and_erased(shards, n, (upto - 1) as nat);
    }
}

/// The exponents of the two lengths of a code.
proof fn lemma_exponents(f: Field, params: CodeParams) -> (e: (nat, nat))
    requires
        params.spec_is_valid(f),
        params.k <= params.n,
    ensures
        pow2(e.0) == params.k,
        pow2(e.1) == params.n,
        e.0 <= e.1 <= f.spec_bits(),
{
    let kappa = spec_log2(params.k as nat);
    let nu = spec_log2(params.n as nat);
    lemma_pow2_of_log2(params.k as nat);
    lemma_pow2_of_log2(params.n as nat);
    lemma_field_size(f);
    if kappa > nu {
        lemma_pow2_strictly_increases(nu, kappa);
    }
    if nu > f.spec_bits() {
        lemma_pow2_strictly_increases(f.spec_bits() as nat, nu);
    }
    (kappa, nu)
}

/// A column of what is left of the shards of a payload is what is left of
/// the codeword of the column.
proof fn lemma_column_is_left(
    f: Field,
    params: CodeParams,
    payload: Seq<u8>,
    received: Seq<Option<Seq<u8>>>,
    col: int,
)
    requires
        spec_field_is_valid(f),
        params.spec_is_valid(f),
        payload.len() >= 1,
        spec_is_left_of(received, ReedSolomon::spec_encode(f, params, payload)->Ok_0),
        spec_count_present(received, params.n as int) >= params.k,
        0 <= col < spec_shard_symbols(f, payload.len(), params.k as nat),
    ensures
        spec_all_in_field(
            f,
            spec_pack(f, spec_chunk(f, payload, col, params.k as nat), params.n as nat),
        ),
        spec_is_left_of_codeword(
            f,
            spec_pack(f, spec_chunk(f, payload, col, params.k as nat), params.n as nat),
            spec_erasures(received, params.n as nat),
            spec_column(f, received, params.n as nat, col),
            params.k as nat,
            params.n as nat,
        ),
{
    let n = params.n as nat;
    let k = params.k as nat;
    let w = f.spec_field_bytes() as int;
    let columns = spec_shard_symbols(f, payload.len(), k);
    let shards = ReedSolomon::spec_encode(f, params, payload)->Ok_0;
    let column = spec_column(f, received, n, col);
    let erasures = spec_erasures(received, n);
    let chunk = spec_chunk(f, payload, col, k);
    let data = spec_pack(f, chunk, n);
    let cw = spec_encode_low(f, data, k, n);
    lemma_present_and_erased(received, n, n);
    let e = lemma_exponents(f, params);
    lemma_field_size(f);
    assert(spec_all_in_field(f, data)) by {
        assert forall|i: int| 0 <= i < data.len() implies (#[trigger] data[i]).0
            < f.spec_size() by {}
    }
    lemma_present_and_erased(received, n, n);
    assert forall|i: int| 0 <= i < n && !erasures[i] implies #[trigger] column[i] == Some(
        cw[i],
    ) by {
        assert(received[i] is Some);
        assert(received[i] == Some(shards[i]));
        let shard = spec_encoded_shard(f, payload, n, k, i);
        assert(shards[i] == shard);
        assert(w * col + w <= w * columns) by (nonlinear_arith)
            requires
                0 <= col < columns,
                w >= 1,
        ;
        lemma_encode_low_evaluates(f, data, e.0, e.1, i);
        lemma_be_bytes_of_element(f, cw[i]);
        let wire = spec_to_be_bytes(f, cw[i]);
        let slot = shard.subrange(w * col, w * col + w);
        assert(slot =~= wire) by {
            assert forall|t: int| 0 <= t < w implies slot[t] == wire[t] by {
                lemma_symbol_position(w, col, t);
            }
        }
    }
}

/// The payload byte that reconstruction returns at place `r` of column
/// `col`, where at least `k` shards are left: the byte of the payload at
/// that place.
proof fn lemma_column_byte_recovered(
    f: Field,
    params: CodeParams,
    payload: Seq<u8>,
    received: Seq<Option<Seq<u8>>>,
    col: int,
    r: int,
)
    requires
        spec_field_is_valid(f),
        params.spec_is_valid(f),
        payload.len() >= 1,
        spec_is_left_of(received, ReedSolomon::spec_encode(f, params, payload)->Ok_0),
        spec_count_present(received, params.n as int) >= params.k,
        0 <= col < spec_shard_symbols(f, payload.len(), params.k as nat),
        0 <= r < f.spec_field_bytes() * params.k,
    ensures
        spec_reconstruct_sub(
            f,
            spec_column(f, received, params.n as nat, col),
            spec_erasures(received, params.n as nat),
            params.n as nat,
            params.k as nat,
            spec_error_poly(f, spec_erasures(received, params.n as nat)),
        )[r] == spec_byte_or_zero(payload, col * (f.spec_field_bytes() * params.k) + r),
{
    let n = params.n as nat;
    let k = params.k as nat;
    let w = f.spec_field_bytes() as int;
    let column = spec_column(f, received, n, col);
    let erasures = spec_erasures(received, n);
    let error_poly = spec_error_poly(f, erasures);
    let symbols = spec_reconstruct_symbols(f, column, erasures, n, k, error_poly);
    let i = r / w;
    let e = r % w;
    lemma_fundamental_div_mod(r, w);
    assert(0 <= i < k && r == w * i + e) by (nonlinear_arith)
        requires
            r == w * i + e,
            0 <= e < w,
            0 <= r < w * k,
    ;
    let chunk = spec_chunk(f, payload, col, k);
    let data = spec_pack(f, chunk, n);
    let wire = spec_symbol_bytes(f, chunk, i);
    lemma_present_and_erased(received, n, n);
    let ex = lemma_exponents(f, params);
    lemma_column_is_left(f, params, payload, received, col);
    lemma_reconstruct_symbols(f, data, erasures, column, ex.0, ex.1, i);
    assert(symbols[i] == data[i]);
    assert(data[i] == spec_from_be_bytes(f, wire));
    lemma_be_bytes_round_trip(f, wire);
    assert(spec_unpack(f, symbols)[r] == spec_to_be_bytes(f, symbols[i])[e]);
    assert(wire[e] == spec_byte_or_zero(chunk, r));
    lemma_chunk_byte(f, payload, k, col, r);
}

/// What reconstruction finds of what is left of the shards of a payload, as
/// long as one shard is left: the shards are of one length, that of the
/// shards of the payload, and reconstruction goes on if `k` shards are left.
pub proof fn lemma_check_of_what_is_left(
    f: Field,
    params: CodeParams,
    payload: Seq<u8>,
    received: Seq<Option<Seq<u8>>>,
)
    requires
        params.spec_is_valid(f),
        payload.len() >= 1,
        spec_is_left_of(received, ReedSolomon::spec_encode(f, params, payload)->Ok_0),
        spec_count_present(received, params.n as int) >= 1,
    ensures
        ReedSolomon::spec_check(f, params, received) == (if spec_count_present(
            received,
            params.n as int,
        ) < params.k {
            Err::<nat, Error>(
                Error::NeedMoreShards {
                    have: spec_count_present(received, params.n as int) as usize,
                    min: params.k,
                    all: params.n,
                },
            )
        } else {
            Ok::<nat, Error>(spec_shard_symbols(f, payload.len(), params.k as nat))
        }),
        payload.len() <= spec_shard_symbols(f, payload.len(), params.k as nat) * (
        f.spec_field_bytes() * params.k as nat),
{
    reveal(is_pow2);
    let n = params.n as nat;
    let k = params.k as nat;
    let w = f.spec_field_bytes() as int;
    let columns = spec_shard_symbols(f, payload.len(), k);
    let len = spec_shard_len(f, payload.len(), k);
    let shards = ReedSolomon::spec_encode(f, params, payload)->Ok_0;
    lemma_chunks_cover_payload(f, payload.len(), k);
    assert forall|i: int| 0 <= i < received.len() && received[i] is Some implies (
    #[trigger] received[i])->Some_0.len() == len by {
        assert(received[i] == Some(shards[i]));
    }
    let at = lemma_counted_is_present(received, n as int);
    lemma_first_present(received, 0, at);
    let first = spec_first_present(received, 0)->Some_0;
    assert(received[first]->Some_0.len() == len);
    lemma_no_other_length(received, len, 0);
    lemma_symbol_position(w, columns as int - 1, 0);
    assert(len > 0 && len % (w as nat) == 0 && len / (w as nat) == columns) by {
        vstd::arithmetic::div_mod::lemma_fundamental_div_mod_converse(
            len as int,
            w,
            columns as int,
            0,
        );
        assert(len == columns * w + 0 && len >= w) by (nonlinear_arith)
            requires
                len == w * columns,
                columns >= 1,
                w >= 1,
        ;
    }
    assert(ReedSolomon::spec_uniform_length(f, params, received) == Ok::<nat, Error>(len));
}

/// Where no shard is left, reconstruction asks for more shards.
pub proof fn lemma_check_of_nothing(f: Field, params: CodeParams, received: Seq<Option<Seq<u8>>>)
    requires
        spec_count_present(received, received.len() as int) == 0,
    ensures
        ReedSolomon::spec_check(f, params, received) == Err::<nat, Error>(
            Error::NeedMoreShards { have: 0, min: params.k, all: params.n },
        ),
{
    lemma_nothing_present(received, 0);
}

/// Where no shard is counted, none is found.
proof fn lemma_nothing_present(shards: Seq<Option<Seq<u8>>>, from: int)
    requires
        spec_count_present(shards, shards.len() as int) == 0,
        0 <= from,
    ensures
        spec_first_present(shards, from) is None,
    decreases shards.len() - from,
{
    if from < shards.len() {
        lemma_count_grows(shards, from + 1, shards.len() as int);
        lemma_nothing_present(shards, from + 1);
    }
}

/// The number of shards that are counted grows with the places.
pub proof fn lemma_count_grows(shards: Seq<Option<Seq<u8>>>, s: int, t: int)
    requires
        s <= t,
    ensures
        spec_count_present(shards, s) <= spec_count_present(shards, t),
    decreases t - s,
{
    if s < t {
        lemma_count_grows(shards, s, t - 1);
    }
}

/// Any `k` shards suffice: over a working field, reconstruction returns
/// the payload, followed by the zeros that fill its last column, from
/// whatever is left of the shards that it was encoded into, as long as
/// at least `k` of them are left.
pub proof fn lemma_erasure_tolerance(
    f: Field,
    params: CodeParams,
    payload: Seq<u8>,
    received: Seq<Option<Seq<u8>>>,
)
    requires
        spec_field_is_valid(f),
        params.spec_is_valid(f),
        payload.len() >= 1,
        spec_is_left_of(received, ReedSolomon::spec_encode(f, params, payload)->Ok_0),
        spec_count_present(received, params.n as int) >= params.k,
    ensures
        ReedSolomon::spec_reconstruct(f, params, received) == Ok::<Seq<u8>, Error>(
            spec_zero_padded(
                payload,
                spec_shard_symbols(f, payload.len(), params.k as nat) * (f.spec_field_bytes()
                    * params.k as nat),
            ),
        ),
        payload.len() <= spec_shard_symbols(f, payload.len(), params.k as nat) * (
        f.spec_field_bytes() * params.k as nat),
{
    reveal(is_pow2);
    let k = params.k as nat;
    let w = f.spec_field_bytes() as int;
    let width = w * k;
    let columns = spec_shard_symbols(f, payload.len(), k);
    lemma_check_of_what_is_left(f, params, payload, received);
    assert(ReedSolomon::spec_check(f, params, received) == Ok::<nat, Error>(columns));
    let reconstructed = ReedSolomon::spec_reconstructed(f, params, received, columns);
    let padded = spec_zero_padded(payload, columns * (f.spec_field_bytes() * k));
    assert(reconstructed.len() == padded.len());
    assert forall|b: int| 0 <= b < reconstructed.len() implies reconstructed[b] == padded[b] by {
        let col = b / width;
        let r = b % width;
        assert(width >= 1) by (nonlinear_arith)
            requires
                width == w * k,
                w >= 1,
                k >= 1,
        ;
        lemma_fundamental_div_mod(b, width);
        assert(0 <= col < columns) by (nonlinear_arith)
            requires
                b == width * col + r,
                0 <= r < width,
                0 <= b < columns * width,
        ;
        assert(col * width + r == b) by (nonlinear_arith)
            requires
                b == width * col + r,
        ;
        lemma_column_byte_recovered(f, params, payload, received, col, r);
    }
    assert(reconstructed =~= padded);
}

/// Under the default policy, for every number of shards that the policy
/// takes, reconstruction over a working field returns the payload,
/// followed by the zeros that fill its last column, from any `k` of the
/// shards that the payload was encoded into.
pub proof fn lemma_default_policy_tolerates_erasures(
    f: Field,
    validator_count: usize,
    payload: Seq<u8>,
    received: Seq<Option<Seq<u8>>>,
)
    requires
        spec_field_is_valid(f),
        CodeParams::spec_derive_for(f, validator_count) is Ok,
        payload.len() >= 1,
        spec_is_left_of(
            received,
            ReedSolomon::spec_encode(
                f,
                CodeParams::spec_derive_for(f, validator_count)->Ok_0,
                payload,
            )->Ok_0,
        ),
        spec_count_present(
            received,
            CodeParams::spec_derive_for(f, validator_count)->Ok_0.n as int,
        ) >= CodeParams::spec_derive_for(f, validator_count)->Ok_0.k,
    ensures
        ({
            let params = CodeParams::spec_derive_for(f, validator_count)->Ok_0;
            ReedSolomon::spec_reconstruct(f, params, received) == Ok::<Seq<u8>, Error>(
                spec_zero_padded(
                    payload,
                    spec_shard_symbols(f, payload.len(), params.k as nat) * (f.spec_field_bytes()
                        * params.k as nat),
                ),
            )
        }),
{
    crate::availability_util::lemma_default_policy(f, validator_count);
    lemma_erasure_tolerance(
        f,
        CodeParams::spec_derive_for(f, validator_count)->Ok_0,
        payload,
        received,
    );
}

} // verus!
