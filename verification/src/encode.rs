//! Encoding of one column: from the payload symbols of a codeword to the
//! whole codeword.
use crate::afft::{afft, inverse_afft, spec_afft, spec_inverse_afft};
use crate::errors::Error;
use crate::field::{spec_from_be_bytes, spec_xor, Additive, Field};
use crate::tables::FieldTables;
use itertools::Itertools;
use vstd::arithmetic::power2::is_pow2;
use vstd::prelude::*;

verus! {

/// The codeword of the payload symbols `data[0..k]`: the payload symbols
/// themselves in the first `k` places, and in every later block of `k`
/// places that starts at `s` the values, at the `k` points that start at
/// `s`, of the polynomial that takes the payload symbols at the first `k`
/// points.
pub open spec fn spec_encode_low(f: Field, data: Seq<Additive>, k: nat, n: nat) -> Seq<Additive> {
    let coefficients = spec_inverse_afft(f, data.subrange(0, k as int), k, 0);
    Seq::new(
        n,
        |t: int|
            if t < k {
                data[t]
            } else {
                spec_afft(f, coefficients, k, (t - t % (k as int)) as nat)[t % (k as int)]
            },
    )
}

/// Byte `i` of `bytes`, or zero where `bytes` has no such byte.
pub open spec fn spec_byte_or_zero(bytes: Seq<u8>, i: int) -> u8 {
    if 0 <= i < bytes.len() {
        bytes[i]
    } else {
        0
    }
}

/// The bytes of symbol `i` of `bytes`, with zeros where the bytes run out.
pub open spec fn spec_symbol_bytes(f: Field, bytes: Seq<u8>, i: int) -> Seq<u8> {
    Seq::new(
        f.spec_field_bytes(),
        |e: int| spec_byte_or_zero(bytes, f.spec_field_bytes() * i + e),
    )
}

/// The `n` symbols that `bytes` stand for, most significant byte first, with
/// zeros where the bytes run out.
pub open spec fn spec_pack(f: Field, bytes: Seq<u8>, n: nat) -> Seq<Additive> {
    Seq::new(n, |i: int| spec_from_be_bytes(f, spec_symbol_bytes(f, bytes, i)))
}

/// The codeword of the payload `bytes`.
pub open spec fn spec_encode_sub(f: Field, bytes: Seq<u8>, n: nat, k: nat) -> Seq<Additive> {
    spec_encode_low(f, spec_pack(f, bytes, n), k, n)
}

/// The first `k` symbols of a codeword are its payload symbols.
pub proof fn lemma_encode_low_is_systematic(f: Field, data: Seq<Additive>, k: nat, n: nat, i: int)
    requires
        0 <= i < k <= n,
    ensures
        spec_encode_low(f, data, k, n).len() == n,
        spec_encode_low(f, data, k, n)[i] == data[i],
{
}

/// Encodes for at most half as many payload symbols as the codeword has
/// symbols: fills `codeword` with the codeword of the payload symbols
/// `data[0..k]`.
pub fn encode_low(
    tables: &FieldTables,
    data: &Vec<Additive>,
    k: usize,
    codeword: &mut Vec<Additive>,
    n: usize,
)
    requires
        is_pow2(n as int),
        is_pow2(k as int),
        k + k <= n <= tables@.field.spec_size(),
        data@.len() == n,
        old(codeword)@.len() == n,
    ensures
        final(codeword)@ == spec_encode_low(tables@.field, data@, k as nat, n as nat),
{
    let ghost f = tables@.field;
    let ghost target = spec_encode_low(f, data@, k as nat, n as nat);
    proof {
        reveal(is_pow2);
    }
    let mut first_k: Vec<Additive> = Vec::new();
    let mut i: usize = 0;
    while i < k
        invariant
            i <= k <= n,
            data@.len() == n,
            codeword@.len() == n,
            first_k@.len() == i,
            target == spec_encode_low(f, data@, k as nat, n as nat),
            forall|t: int| 0 <= t < i ==> first_k@[t] == data@[t],
            forall|t: int| 0 <= t < i ==> codeword@[t] == target[t],
        decreases k - i,
    {
        first_k.push(data[i]);
        codeword.set(i, data[i]);
        i += 1;
    }
    assert(first_k@ =~= data@.subrange(0, k as int));
    inverse_afft(tables, &mut first_k, k, 0);
    let ghost m = crate::blocks::lemma_pow2_blocks_of(k as nat, n as nat);
    let mut shift: usize = k;
    let ghost mut q: int = 1;
    while shift < n
        invariant
            1 <= k <= shift <= n <= f.spec_size(),
            f == tables@.field,
            is_pow2(k as int),
            n == m * k,
            shift == q * k,
            1 <= q <= m,
            data@.len() == n,
            codeword@.len() == n,
            first_k@.len() == k,
            first_k@ == spec_inverse_afft(f, data@.subrange(0, k as int), k as nat, 0),
            target == spec_encode_low(f, data@, k as nat, n as nat),
            forall|t: int| 0 <= t < shift ==> codeword@[t] == target[t],
        decreases n - shift,
    {
        proof {
            crate::blocks::lemma_whole_block(q, m as int, k as int);
        }
        let mut block: Vec<Additive> = first_k.clone();
        assert(block@ =~= first_k@);
        afft(tables, &mut block, k, shift);
        let mut i: usize = 0;
        while i < k
            invariant
                i <= k,
                1 <= k <= shift,
                shift == q * k,
                shift + k <= n,
                data@.len() == n,
                codeword@.len() == n,
                block@.len() == k,
                block@ == spec_afft(
                    f,
                    spec_inverse_afft(f, data@.subrange(0, k as int), k as nat, 0),
                    k as nat,
                    shift as nat,
                ),
                target == spec_encode_low(f, data@, k as nat, n as nat),
                forall|t: int| 0 <= t < shift + i ==> codeword@[t] == target[t],
            decreases k - i,
        {
            proof {
                crate::blocks::lemma_position_in_block(shift + i, k as int, q, i as int);
            }
            codeword.set(shift + i, block[i]);
            i += 1;
        }
        shift += k;
        proof {
            q = q + 1;
        }
    }
    assert(codeword@ =~= target);
}

/// The pairs of neighbours of `bytes`, in order: by `tuple_windows` of
/// itertools, which for pairs yields `(bytes[i], bytes[i + 1])` for every `i`
/// that has a successor.
#[verifier::external_body]
fn adjacent_pairs(bytes: &Vec<u8>) -> (pairs: Vec<(u8, u8)>)
    ensures
        bytes@.len() == 0 ==> pairs@.len() == 0,
        bytes@.len() > 0 ==> pairs@.len() == bytes@.len() - 1,
        forall|i: int| 0 <= i < pairs@.len() ==> #[trigger] pairs@[i] == (bytes@[i], bytes@[i + 1]),
{
    bytes.iter().copied().tuple_windows().collect::<Vec<(u8, u8)>>()
}

/// The `n` symbols that `bytes` stand for, with zeros where the bytes run
/// out.
fn pack(f: Field, bytes: &[u8], n: usize) -> (data: Vec<Additive>)
    requires
        1 <= n <= 0x10000,
    ensures
        data@ == spec_pack(f, bytes@, n as nat),
{
    let dl: usize = bytes.len();
    let width: usize = f.field_bytes();
    // pad the incoming bytes with trailing 0s
    // so we get a buffer of `n` symbols
    assert(width * n <= 0x20000) by (nonlinear_arith)
        requires
            width <= 2,
            n <= 0x10000,
    ;
    let total: usize = width * n;
    let mut padded: Vec<u8> = Vec::new();
    let mut i: usize = 0;
    while i < total
        invariant
            i <= total,
            dl == bytes@.len(),
            padded@.len() == i,
            forall|t: int| 0 <= t < i ==> padded@[t] == spec_byte_or_zero(bytes@, t),
        decreases total - i,
    {
        let byte: u8 = if i < dl {
            bytes[i]
        } else {
            0
        };
        padded.push(byte);
        i += 1;
    }
    let mut data: Vec<Additive> = Vec::new();
    match f {
        Field::F256 => {
            let mut i: usize = 0;
            while i < n
                invariant
                    i <= n,
                    f == Field::F256,
                    padded@.len() == n,
                    forall|t: int| 0 <= t < n ==> padded@[t] == spec_byte_or_zero(bytes@, t),
                    data@.len() == i,
                    forall|t: int| 0 <= t < i ==> data@[t] == spec_pack(f, bytes@, n as nat)[t],
                decreases n - i,
            {
                assert(spec_symbol_bytes(f, bytes@, i as int)[0] == spec_byte_or_zero(
                    bytes@,
                    i as int,
                ));
                data.push(Additive(padded[i] as u16));
                i += 1;
            }
        },
        Field::F2e16 => {
            let pairs: Vec<(u8, u8)> = adjacent_pairs(&padded);
            let mut i: usize = 0;
            while i < n
                invariant
                    i <= n <= 0x10000,
                    f == Field::F2e16,
                    padded@.len() == 2 * n,
                    pairs@.len() == 2 * n - 1,
                    forall|t: int| 0 <= t < 2 * n ==> padded@[t] == spec_byte_or_zero(bytes@, t),
                    forall|t: int|
                        0 <= t < pairs@.len() ==> #[trigger] pairs@[t] == (
                            padded@[t],
                            padded@[t + 1],
                        ),
                    data@.len() == i,
                    forall|t: int| 0 <= t < i ==> data@[t] == spec_pack(f, bytes@, n as nat)[t],
                decreases n - i,
            {
                let pair: (u8, u8) = pairs[2 * i];
                assert(spec_symbol_bytes(f, bytes@, i as int) =~= seq![pair.0, pair.1]);
                data.push(Additive::from_be_bytes([pair.0, pair.1]));
                i += 1;
            }
        },
    }
    assert(data@ =~= spec_pack(f, bytes@, n as nat));
    data
}

/// Encodes one column: pads the payload `bytes` with zeros to `n` symbols and
/// returns their codeword.
pub fn encode_sub(tables: &FieldTables, bytes: &[u8], n: usize, k: usize) -> (res: Result<
    Vec<Additive>,
    Error,
>)
    requires
        is_pow2(n as int),
        is_pow2(k as int),
        bytes@.len() <= tables@.field.spec_field_bytes() * k,
        k + k <= n <= tables@.field.spec_size(),
    ensures
        res is Ok,
        res->Ok_0@ == spec_encode_sub(tables@.field, bytes@, n as nat, k as nat),
{
    proof {
        reveal(is_pow2);
    }
    let data: Vec<Additive> = pack(tables.field(), bytes, n);
    let mut codeword: Vec<Additive> = data.clone();
    assert(codeword@.len() == n);
    encode_low(tables, &data, k, &mut codeword, n);
    Ok(codeword)
}

/// The sum of the inverse transforms of the first `blocks` blocks of `t`
/// payload symbols, each taken at the place of its block in the codeword,
/// which starts with the `t` parity symbols.
pub open spec fn spec_high_sum(f: Field, data: Seq<Additive>, t: nat, blocks: nat) -> Seq<Additive>
    decreases blocks,
{
    if blocks == 0 {
        Seq::new(t, |j: int| Additive(0))
    } else {
        let sum = spec_high_sum(f, data, t, (blocks - 1) as nat);
        let block = spec_inverse_afft(
            f,
            data.subrange((blocks - 1) * t, (blocks * t) as int),
            t,
            blocks * t,
        );
        Seq::new(t, |j: int| spec_xor(sum[j], block[j]))
    }
}

/// The `n - k` parity symbols of the `k` payload symbols `data` in a code
/// with more payload than parity: the transform of the sum of the inverse
/// transforms of the blocks of `n - k` payload symbols.
pub open spec fn spec_encode_high(f: Field, data: Seq<Additive>, k: nat, n: nat) -> Seq<Additive> {
    let t = (n - k) as nat;
    spec_afft(f, spec_high_sum(f, data, t, k / t), t, 0)
}

/// Encodes for at least half as many payload symbols as the codeword has
/// symbols: fills the first `n - k` places of `parity` with the parity
/// symbols of the payload symbols `data[0..k]`. `mem` is working space.
pub fn encode_high(
    tables: &FieldTables,
    data: &Vec<Additive>,
    k: usize,
    parity: &mut Vec<Additive>,
    mem: &mut Vec<Additive>,
    n: usize,
)
    requires
        is_pow2(n as int),
        k < n <= tables@.field.spec_size(),
        is_pow2((n - k) as int),
        k <= data@.len(),
        old(parity)@.len() == n - k,
        old(mem)@.len() == n - k,
    ensures
        final(parity)@ == spec_encode_high(
            tables@.field,
            data@.subrange(0, k as int),
            k as nat,
            n as nat,
        ),
        final(mem)@.len() == n - k,
{
    let t: usize = n - k;
    let ghost f = tables@.field;
    let ghost payload = data@.subrange(0, k as int);
    proof {
        reveal(is_pow2);
    }
    let ghost m = crate::blocks::lemma_pow2_blocks_of(t as nat, n as nat);
    let mut j: usize = 0;
    while j < t
        invariant
            j <= t,
            parity@.len() == t,
            forall|i: int| 0 <= i < j ==> parity@[i] == Additive(0),
        decreases t - j,
    {
        parity.set(j, Additive(0));
        j += 1;
    }
    assert(parity@ =~= spec_high_sum(f, payload, t as nat, 0));
    let mut i: usize = t;
    let ghost mut q: int = 1;
    while i < n
        invariant
            1 <= t <= i <= n <= f.spec_size(),
            f == tables@.field,
            t == n - k,
            is_pow2(t as int),
            n == m * t,
            i == q * t,
            1 <= q <= m,
            k <= data@.len(),
            payload == data@.subrange(0, k as int),
            parity@.len() == t,
            mem@.len() == t,
            parity@ == spec_high_sum(f, payload, t as nat, (q - 1) as nat),
        decreases n - i,
    {
        proof {
            crate::blocks::lemma_whole_block(q, m as int, t as int);
            assert((q - 1) * t == i - t) by (nonlinear_arith)
                requires
                    i == q * t,
            ;
        }
        let ghost block = payload.subrange((q - 1) * t, q * t);
        let mut j: usize = 0;
        while j < t
            invariant
                j <= t <= i,
                i <= k,
                k <= data@.len(),
                i == q * t,
                (q - 1) * t == i - t,
                payload == data@.subrange(0, k as int),
                block == payload.subrange((q - 1) * t, q * t),
                mem@.len() == t,
                forall|s: int| 0 <= s < j ==> mem@[s] == block[s],
            decreases t - j,
        {
            mem.set(j, data[i - t + j]);
            j += 1;
        }
        assert(mem@ =~= block);
        inverse_afft(tables, mem, t, i);
        let ghost before = parity@;
        let mut j: usize = 0;
        while j < t
            invariant
                j <= t,
                parity@.len() == t,
                mem@.len() == t,
                before.len() == t,
                forall|s: int| 0 <= s < j ==> parity@[s] == spec_xor(before[s], mem@[s]),
                forall|s: int| j <= s < t ==> parity@[s] == before[s],
            decreases t - j,
        {
            let sum: Additive = parity[j].bitxor(mem[j]);
            parity.set(j, sum);
            j += 1;
        }
        assert(parity@ =~= spec_high_sum(f, payload, t as nat, q as nat));
        i += t;
        proof {
            q = q + 1;
        }
    }
    proof {
        // all `k / t` blocks of the payload went in
        assert(k == (q - 1) * t) by (nonlinear_arith)
            requires
                i == q * t,
                i == n,
                t == n - k,
        ;
        vstd::arithmetic::div_mod::lemma_fundamental_div_mod_converse(
            k as int,
            t as int,
            q - 1,
            0,
        );
    }
    afft(tables, parity, t, 0);
}

} // verus!
