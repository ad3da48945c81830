//! The coder: from a payload to shards and back.
use crate::decode::{
    decode_main, eval_error_polynomial, reconstruct_sub, spec_decode_main,
    spec_eval_error_polynomial, spec_no_logs, spec_reconstruct_sub,
};
use crate::encode::{
    encode_high, encode_low, encode_sub, spec_encode_high, spec_encode_low, spec_encode_sub,
};
use crate::errors::Error;
use crate::field::{spec_from_be_bytes, spec_to_be_bytes, Additive, Field, Logarithm};
use crate::params::CodeParams;
use crate::shard::Shard;
use crate::tables::FieldTables;
use crate::util::{
    lemma_next_higher_power_of_2, lemma_next_lower_power_of_2, next_higher_power_of_2,
    next_lower_power_of_2, spec_next_higher_power_of_2, spec_next_lower_power_of_2,
};
use vstd::arithmetic::div_mod::{lemma_fundamental_div_mod, lemma_fundamental_div_mod_converse};
use vstd::arithmetic::power2::is_pow2;
use vstd::prelude::*;
use vstd::slice::slice_subrange;

verus! {

/// Number of symbols that a payload of `payload_size` bytes fills, the last
/// one perhaps in part.
pub open spec fn spec_payload_symbols(f: Field, payload_size: nat) -> nat {
    ((payload_size + f.spec_field_bytes() - 1) / (f.spec_field_bytes() as int)) as nat
}

/// Number of symbols in a shard for a payload of `payload_size` bytes: the
/// symbols of the payload, spread over `k` shards, rounded up.
pub open spec fn spec_shard_symbols(f: Field, payload_size: nat, k: nat) -> nat {
    ((spec_payload_symbols(f, payload_size) + k - 1) / (k as int)) as nat
}

/// Number of bytes in a shard for a payload of `payload_size` bytes.
pub open spec fn spec_shard_len(f: Field, payload_size: nat, k: nat) -> nat {
    f.spec_field_bytes() * spec_shard_symbols(f, payload_size, k)
}

/// The bytes of the payload that column `c` carries: those of `k` symbols, or
/// fewer where the payload ends.
pub open spec fn spec_chunk(f: Field, bytes: Seq<u8>, c: int, k: nat) -> Seq<u8> {
    let width = f.spec_field_bytes() * k;
    let start = c * width;
    let end = if start + width <= bytes.len() {
        start + width
    } else {
        bytes.len() as int
    };
    bytes.subrange(start, end)
}

/// The bytes of shard `i` of the payload `bytes`: for every column the bytes
/// of symbol `i` of the codeword of that column.
pub open spec fn spec_encoded_shard(f: Field, bytes: Seq<u8>, n: nat, k: nat, i: int) -> Seq<u8> {
    Seq::new(
        spec_shard_len(f, bytes.len(), k),
        |b: int|
            spec_to_be_bytes(
                f,
                spec_encode_sub(
                    f,
                    spec_chunk(f, bytes, b / (f.spec_field_bytes() as int), k),
                    n,
                    k,
                )[i],
            )[b % (f.spec_field_bytes() as int)],
    )
}

/// Every column of a shard starts inside the payload.
pub proof fn lemma_chunk_in_payload(f: Field, payload_size: nat, k: nat, c: int)
    requires
        k >= 1,
        0 <= c < spec_shard_symbols(f, payload_size, k),
    ensures
        0 <= c * (f.spec_field_bytes() * k) < payload_size,
{
    let w = f.spec_field_bytes() as int;
    let s = (payload_size + w - 1) / w;
    lemma_fundamental_div_mod(payload_size + w - 1, w);
    let a = (s + k - 1) as int;
    let l = a / (k as int);
    lemma_fundamental_div_mod(a, k as int);
    assert(c * (w * k) < payload_size && 0 <= c * (w * k)) by (nonlinear_arith)
        requires
            a == (k as int) * l + a % (k as int),
            0 <= a % (k as int) < k,
            0 <= c < l,
            a == s + k - 1,
            payload_size + w - 1 == w * s + (payload_size + w - 1) % w,
            0 <= (payload_size + w - 1) % w < w,
            1 <= w <= 2,
            k >= 1,
    ;
}

/// The columns of a shard cover the payload.
pub proof fn lemma_chunks_cover_payload(f: Field, payload_size: nat, k: nat)
    requires
        k >= 1,
    ensures
        payload_size <= spec_shard_symbols(f, payload_size, k) * (f.spec_field_bytes() * k),
        payload_size >= 1 ==> spec_shard_symbols(f, payload_size, k) >= 1,
{
    let w = f.spec_field_bytes() as int;
    let s = (payload_size + w - 1) / w;
    lemma_fundamental_div_mod(payload_size + w - 1, w);
    let a = (s + k - 1) as int;
    let l = a / (k as int);
    lemma_fundamental_div_mod(a, k as int);
    assert(payload_size <= l * (w * k) && (payload_size >= 1 ==> l >= 1)) by (nonlinear_arith)
        requires
            a == (k as int) * l + a % (k as int),
            0 <= a % (k as int) < k,
            a == s + k - 1,
            payload_size + w - 1 == w * s + (payload_size + w - 1) % w,
            0 <= (payload_size + w - 1) % w < w,
            1 <= w <= 2,
            k >= 1,
    ;
}

/// A coder for one choice of code parameters over the field of its tables.
#[derive(Debug)]
pub struct ReedSolomon<'a> {
    /// The tables of the field.
    tables: &'a FieldTables,
    /// Number of shards that are handed out.
    wanted_n: usize,
    /// Length of a codeword; a power of two.
    n: usize,
    /// Number of payload symbols in a codeword; a power of two.
    k: usize,
}

/// What `ReedSolomon::new` makes of the wanted number `n` of shards and the
/// wanted number `k` of payload shards over the field `f`.
pub open spec fn spec_new_params(f: Field, n: usize, k: usize) -> Result<CodeParams, Error> {
    if n < 2 {
        Err(Error::WantedShardCountTooLow(n))
    } else if k < 1 {
        Err(Error::WantedPayloadShardCountTooLow(k))
    } else if spec_next_higher_power_of_2(n as nat) > f.spec_size() {
        Err(Error::WantedShardCountTooHigh(n))
    } else {
        Ok(
            CodeParams {
                n: spec_next_higher_power_of_2(n as nat) as usize,
                k: spec_next_lower_power_of_2(k as nat) as usize,
                real_n: n,
            },
        )
    }
}

impl CodeParams {
    /// Whether a coder over the field `f` can be set up with the parameters:
    /// both lengths are powers of two, the codeword is no longer than the
    /// field is large, and between two shards and all shards of the codeword
    /// are handed out.
    pub open spec fn spec_is_valid(&self, f: Field) -> bool {
        &&& is_pow2(self.n as int)
        &&& is_pow2(self.k as int)
        &&& self.n <= f.spec_size()
        &&& 2 <= self.real_n <= self.n
    }

    /// Whether at most half of a codeword is payload, which is what the
    /// encoder for low rates asks for.
    pub open spec fn spec_is_low_rate(&self) -> bool {
        2 * self.k <= self.n
    }

    /// A coder for the parameters over the field of `tables`.
    pub fn make_encoder<'a>(&self, tables: &'a FieldTables) -> (rs: ReedSolomon<'a>)
        requires
            self.spec_is_valid(tables@.field),
        ensures
            rs@ == *self,
            rs.spec_field() == tables@.field,
    {
        let field: Field = tables.field();
        ReedSolomon { tables, wanted_n: self.real_n, n: self.n, k: self.k }
    }
}

impl<'a> View for ReedSolomon<'a> {
    type V = CodeParams;

    closed spec fn view(&self) -> CodeParams {
        CodeParams { n: self.n, k: self.k, real_n: self.wanted_n }
    }
}

impl<'a> ReedSolomon<'a> {
    /// The field that the coder works over.
    pub closed spec fn spec_field(&self) -> Field {
        self.tables@.field
    }

    /// The parameters fit the field, and the tables are those of the field.
    pub open spec fn wf(&self) -> bool {
        self@.spec_is_valid(self.spec_field())
    }

    #[verifier::type_invariant]
    spec fn inv(&self) -> bool {
        self.wf() && self.tables.wf()
    }

    /// Sets up a coder that hands out `n` shards, of which `k` rounded down to
    /// a power of two suffice to reconstruct. The codeword length is `n`
    /// rounded up to a power of two; it must not exceed the size of the
    /// field.
    pub fn new(tables: &'a FieldTables, n: usize, k: usize) -> (res: Result<ReedSolomon<'a>, Error>)
        ensures
            match spec_new_params(tables@.field, n, k) {
                Ok(params) => res is Ok && res->Ok_0@ == params && res->Ok_0.spec_field()
                    == tables@.field && res->Ok_0.wf() && params.real_n == n && params.n
                    == spec_next_higher_power_of_2(n as nat) && params.k
                    == spec_next_lower_power_of_2(k as nat) && params.k <= k && n <= params.n,
                Err(e) => res is Err && res->Err_0 == e,
            },
    {
        let field: Field = tables.field();
        if n < 2 {
            return Err(Error::WantedShardCountTooLow(n));
        }
        if k < 1 {
            return Err(Error::WantedPayloadShardCountTooLow(k));
        }
        proof {
            lemma_next_higher_power_of_2(n as nat);
            lemma_next_lower_power_of_2(k as nat);
        }
        if n > field.size() {
            return Err(Error::WantedShardCountTooHigh(n));
        }
        let k_po2: usize = next_lower_power_of_2(k);
        let n_po2: usize = next_higher_power_of_2(n);
        if n_po2 > field.size() {
            return Err(Error::WantedShardCountTooHigh(n));
        }
        proof {
            reveal(is_pow2);
        }
        Ok(ReedSolomon { tables, wanted_n: n, n: n_po2, k: k_po2 })
    }

    /// The tables of the field that the coder works over.
    pub fn tables(&self) -> (tables: &'a FieldTables)
        ensures
            tables@.field == self.spec_field(),
            tables.wf(),
            self.wf(),
    {
        proof {
            use_type_invariant(self);
        }
        self.tables
    }

    /// Number of payload shards: so many shards suffice to reconstruct.
    pub fn get_number_of_data_shards(&self) -> (k: usize)
        ensures
            k == self@.k,
            self.wf(),
    {
        proof {
            use_type_invariant(self);
        }
        self.k
    }

    /// Number of shards that `encode` hands out.
    pub fn get_number_of_all_shards(&self) -> (n: usize)
        ensures
            n == self@.real_n,
            self.wf(),
    {
        proof {
            use_type_invariant(self);
        }
        self.wanted_n
    }

    /// Length of a codeword.
    pub fn get_code_length(&self) -> (n: usize)
        ensures
            n == self@.n,
            self.wf(),
    {
        proof {
            use_type_invariant(self);
        }
        self.n
    }

    /// Number of bytes in every shard of a payload of `payload_size` bytes.
    pub fn shard_len(&self, payload_size: usize) -> (shard_bytes: usize)
        requires
            payload_size < usize::MAX,
        ensures
            shard_bytes == spec_shard_len(self.spec_field(), payload_size as nat, self@.k as nat),
    {
        proof {
            use_type_invariant(self);
            reveal(is_pow2);
        }
        let width: usize = self.tables.field().field_bytes();
        let payload_symbols: usize = (payload_size + (width - 1)) / width;
        let whole: usize = payload_symbols / self.k;
        let shard_symbols_ceil: usize = if payload_symbols % self.k == 0 {
            whole
        } else {
            whole + 1
        };
        proof {
            let k = self.k as int;
            let rest = payload_symbols % self.k;
            let a = (payload_symbols + self.k - 1) as int;
            lemma_fundamental_div_mod(payload_symbols as int, k);
            lemma_fundamental_div_mod(payload_size + width - 1, width as int);
            // rounding up adds one to the quotient unless nothing is left over
            if rest == 0 {
                assert(a == whole * k + (k - 1)) by (nonlinear_arith)
                    requires
                        payload_symbols == k * whole + rest,
                        rest == 0,
                        a == payload_symbols + k - 1,
                ;
                lemma_fundamental_div_mod_converse(a, k, whole as int, k - 1);
            } else {
                assert(a == (whole + 1) * k + (rest - 1)) by (nonlinear_arith)
                    requires
                        payload_symbols == k * whole + rest,
                        a == payload_symbols + k - 1,
                ;
                lemma_fundamental_div_mod_converse(a, k, whole + 1, rest - 1);
            }
            assert(shard_symbols_ceil * width <= payload_size + 1 && width * shard_symbols_ceil
                == shard_symbols_ceil * width) by (nonlinear_arith)
                requires
                    payload_symbols == k * whole + rest,
                    0 <= rest < k,
                    rest == 0 ==> shard_symbols_ceil == whole,
                    rest != 0 ==> shard_symbols_ceil == whole + 1,
                    k >= 1,
                    payload_size + width - 1 == (width as int) * (payload_symbols as int) + (
                    payload_size + width - 1) % (width as int),
                    0 <= (payload_size + width - 1) % (width as int),
                    1 <= width <= 2,
            ;
        }
        let shard_bytes: usize = shard_symbols_ceil * width;
        shard_bytes
    }

    /// What `encode` returns for the payload `bytes` under the parameters
    /// `params` over the field `f`: one shard for every place of the codeword
    /// that is handed out.
    pub open spec fn spec_encode(f: Field, params: CodeParams, bytes: Seq<u8>) -> Result<
        Seq<Seq<u8>>,
        Error,
    > {
        if bytes.len() == 0 {
            Err(Error::PayloadSizeIsZero)
        } else {
            Ok(
                Seq::new(
                    params.real_n as nat,
                    |i: int| spec_encoded_shard(f, bytes, params.n as nat, params.k as nat, i),
                ),
            )
        }
    }

    /// The codewords of all columns of the payload `bytes`.
    fn encode_columns(&self, bytes: &[u8], columns: usize) -> (runs: Vec<Vec<Additive>>)
        requires
            self@.spec_is_low_rate(),
            columns == spec_shard_symbols(self.spec_field(), bytes@.len(), self@.k as nat),
        ensures
            self.wf(),
            runs@.len() == columns,
            forall|c: int|
                0 <= c < columns ==> (#[trigger] runs@[c])@ == spec_encode_sub(
                    self.spec_field(),
                    spec_chunk(self.spec_field(), bytes@, c, self@.k as nat),
                    self@.n as nat,
                    self@.k as nat,
                ),
    {
        proof {
            use_type_invariant(self);
            reveal(is_pow2);
        }
        let ghost f = self.spec_field();
        let width: usize = self.tables.field().field_bytes();
        assert(self.k * width <= 0x10000) by (nonlinear_arith)
            requires
                2 * self.k <= 0x10000,
                width <= 2,
        ;
        let chunk_len: usize = self.k * width;
        let payload_size: usize = bytes.len();
        let mut runs: Vec<Vec<Additive>> = Vec::new();
        let mut c: usize = 0;
        while c < columns
            invariant
                c <= columns,
                payload_size == bytes@.len(),
                f == self.spec_field(),
                f == self.tables@.field,
                columns == spec_shard_symbols(f, bytes@.len(), self@.k as nat),
                self.wf(),
                self@.spec_is_low_rate(),
                self@.k == self.k,
                self@.n == self.n,
                width == f.spec_field_bytes(),
                chunk_len == self.k * width,
                self.k >= 1,
                runs@.len() == c,
                forall|t: int|
                    0 <= t < c ==> (#[trigger] runs@[t])@ == spec_encode_sub(
                        f,
                        spec_chunk(f, bytes@, t, self@.k as nat),
                        self@.n as nat,
                        self@.k as nat,
                    ),
            decreases columns - c,
        {
            proof {
                lemma_chunk_in_payload(f, bytes@.len(), self.k as nat, c as int);
                assert(c * chunk_len == c * (f.spec_field_bytes() * self.k) && chunk_len
                    == f.spec_field_bytes() * self.k) by (nonlinear_arith)
                    requires
                        chunk_len == self.k * width,
                        width == f.spec_field_bytes(),
                ;
            }
            let i: usize = c * chunk_len;
            let end: usize = if chunk_len <= payload_size - i {
                i + chunk_len
            } else {
                payload_size
            };
            let data_piece: &[u8] = slice_subrange(bytes, i, end);
            let encoding_run: Vec<Additive> = match encode_sub(
                self.tables,
                data_piece,
                self.n,
                self.k,
            ) {
                Ok(run) => run,
                Err(_) => Vec::new(),
            };
            runs.push(encoding_run);
            c += 1;
        }
        runs
    }

    /// The bytes of shard `val_idx`: its symbol of every column.
    fn shard_bytes(&self, runs: &Vec<Vec<Additive>>, val_idx: usize, Ghost(bytes): Ghost<
        Seq<u8>,
    >) -> (inner: Vec<u8>)
        requires
            val_idx < self@.real_n,
            bytes.len() > 0,
            runs@.len() == spec_shard_symbols(self.spec_field(), bytes.len(), self@.k as nat),
            forall|c: int|
                0 <= c < runs@.len() ==> (#[trigger] runs@[c])@ == spec_encode_sub(
                    self.spec_field(),
                    spec_chunk(self.spec_field(), bytes, c, self@.k as nat),
                    self@.n as nat,
                    self@.k as nat,
                ),
        ensures
            inner@ == spec_encoded_shard(
                self.spec_field(),
                bytes,
                self@.n as nat,
                self@.k as nat,
                val_idx as int,
            ),
    {
        proof {
            use_type_invariant(self);
        }
        let field: Field = self.tables.field();
        let ghost f = self.spec_field();
        let ghost target = spec_encoded_shard(
            f,
            bytes,
            self@.n as nat,
            self@.k as nat,
            val_idx as int,
        );
        let columns: usize = runs.len();
        let mut inner: Vec<u8> = Vec::new();
        let mut c: usize = 0;
        while c < columns
            invariant
                c <= columns == runs@.len(),
                val_idx < self@.real_n,
                self.wf(),
                field == f,
                f == self.spec_field(),
                target == spec_encoded_shard(
                    f,
                    bytes,
                    self@.n as nat,
                    self@.k as nat,
                    val_idx as int,
                ),
                columns == spec_shard_symbols(f, bytes.len(), self@.k as nat),
                forall|c: int|
                    0 <= c < columns ==> (#[trigger] runs@[c])@ == spec_encode_sub(
                        f,
                        spec_chunk(f, bytes, c, self@.k as nat),
                        self@.n as nat,
                        self@.k as nat,
                    ),
                inner@.len() == f.spec_field_bytes() * c,
                forall|b: int| 0 <= b < inner@.len() ==> inner@[b] == target[b],
            decreases columns - c,
        {
            let run: &Vec<Additive> = &runs[c];
            assert(run@.len() == self@.n);
            proof {
                let w = f.spec_field_bytes() as int;
                crate::blocks::lemma_symbol_position(w, c as int, 0);
                if w == 2 {
                    crate::blocks::lemma_symbol_position(w, c as int, 1);
                }
                assert(w * c + w <= w * columns) by (nonlinear_arith)
                    requires
                        c < columns,
                        w >= 1,
                ;
            }
            match field {
                Field::F256 => {
                    inner.push((run[val_idx].0 % 256) as u8);
                },
                Field::F2e16 => {
                    let chunk: [u8; 2] = run[val_idx].to_be_bytes();
                    inner.push(chunk[0]);
                    inner.push(chunk[1]);
                },
            }
            c += 1;
        }
        assert(inner@ =~= target);
        inner
    }

    /// Encodes the payload `bytes` into as many shards as were asked for.
    /// Every column of `k` payload symbols becomes one codeword, and shard
    /// `i` holds symbol `i` of every codeword. The first `k` shards hold the
    /// payload itself. At most half of a codeword may be payload.
    pub fn encode<S: Shard>(&self, bytes: &[u8]) -> (res: Result<Vec<S>, Error>)
        requires
            self@.spec_is_low_rate(),
            bytes@.len() < usize::MAX,
        ensures
            match Self::spec_encode(self.spec_field(), self@, bytes@) {
                Ok(shards) => res is Ok && res->Ok_0@.len() == shards.len() && forall|i: int|
                    0 <= i < shards.len() ==> (#[trigger] res->Ok_0@[i]).spec_bytes()
                        == S::spec_wrap(shards[i]),
                Err(e) => res is Err && res->Err_0 == e,
            },
    {
        if bytes.len() == 0 {
            return Err(Error::PayloadSizeIsZero);
        }
        proof {
            use_type_invariant(self);
        }
        // required shard length in bytes, rounded to full symbols
        let shard_len: usize = self.shard_len(bytes.len());
        let columns: usize = shard_len / self.tables.field().field_bytes();
        let runs: Vec<Vec<Additive>> = self.encode_columns(bytes, columns);
        let validator_count: usize = self.wanted_n;
        let ghost f = self.spec_field();
        let ghost target = Self::spec_encode(f, self@, bytes@)->Ok_0;
        let mut shards: Vec<S> = Vec::new();
        let mut val_idx: usize = 0;
        while val_idx < validator_count
            invariant
                val_idx <= validator_count,
                validator_count == self@.real_n,
                f == self.spec_field(),
                self.wf(),
                columns == spec_shard_symbols(f, bytes@.len(), self@.k as nat),
                bytes@.len() > 0,
                target == Self::spec_encode(f, self@, bytes@)->Ok_0,
                runs@.len() == columns,
                forall|c: int|
                    0 <= c < columns ==> (#[trigger] runs@[c])@ == spec_encode_sub(
                        f,
                        spec_chunk(f, bytes@, c, self@.k as nat),
                        self@.n as nat,
                        self@.k as nat,
                    ),
                shards@.len() == val_idx,
                forall|i: int|
                    0 <= i < val_idx ==> (#[trigger] shards@[i]).spec_bytes() == S::spec_wrap(
                        target[i],
                    ),
            decreases validator_count - val_idx,
        {
            let inner: Vec<u8> = self.shard_bytes(&runs, val_idx, Ghost(bytes@));
            shards.push(S::from_vec(inner));
            val_idx += 1;
        }
        Ok(shards)
    }
}

/// The bytes of the shards that were received, place by place.
pub open spec fn spec_received<S: Shard>(shards: Seq<Option<S>>) -> Seq<Option<Seq<u8>>> {
    Seq::new(
        shards.len(),
        |i: int|
            match shards[i] {
                Some(shard) => Some(shard.spec_bytes()),
                None => None,
            },
    )
}

/// The first place at or behind `from` at which a shard was received.
pub open spec fn spec_first_present(shards: Seq<Option<Seq<u8>>>, from: int) -> Option<int>
    decreases shards.len() - from,
{
    if from < 0 || from >= shards.len() {
        None
    } else if shards[from] is Some {
        Some(from)
    } else {
        spec_first_present(shards, from + 1)
    }
}

/// The length of the first shard at or behind `from` whose length is not
/// `len`.
pub open spec fn spec_first_other_length(
    shards: Seq<Option<Seq<u8>>>,
    len: nat,
    from: int,
) -> Option<nat>
    decreases shards.len() - from,
{
    if from < 0 || from >= shards.len() {
        None
    } else if shards[from] is Some && shards[from]->Some_0.len() != len {
        Some(shards[from]->Some_0.len())
    } else {
        spec_first_other_length(shards, len, from + 1)
    }
}

/// Number of places before `upto` at which a shard was received.
pub open spec fn spec_count_present(shards: Seq<Option<Seq<u8>>>, upto: int) -> nat
    decreases upto,
{
    if upto <= 0 {
        0
    } else {
        spec_count_present(shards, upto - 1) + if upto - 1 < shards.len() && shards[upto
            - 1] is Some {
            1nat
        } else {
            0nat
        }
    }
}

/// The erasure pattern of the shards that were received: a place of the
/// codeword is erased where no shard was received for it.
pub open spec fn spec_erasures(shards: Seq<Option<Seq<u8>>>, n: nat) -> Seq<bool> {
    Seq::new(n, |i: int| i >= shards.len() || shards[i] is None)
}

/// The symbols of column `col` that were received.
pub open spec fn spec_column(f: Field, shards: Seq<Option<Seq<u8>>>, n: nat, col: int) -> Seq<
    Option<Additive>,
> {
    Seq::new(
        n,
        |i: int|
            if i < shards.len() {
                match shards[i] {
                    Some(bytes) => Some(
                        spec_from_be_bytes(
                            f,
                            bytes.subrange(
                                f.spec_field_bytes() * col,
                                f.spec_field_bytes() * col + f.spec_field_bytes(),
                            ),
                        ),
                    ),
                    None => None,
                }
            } else {
                None
            },
    )
}

/// The values of the error locator polynomial of an erasure pattern.
pub open spec fn spec_error_poly(f: Field, erasures: Seq<bool>) -> Seq<Logarithm> {
    spec_eval_error_polynomial(f, erasures, spec_no_logs(f), f.spec_size())
}

impl<'a> ReedSolomon<'a> {
    /// The length of the shards that were received, or what is wrong with
    /// their lengths. The first shard that was received sets the length; the
    /// checks come in the order in which they are written here.
    pub open spec fn spec_uniform_length(
        f: Field,
        params: CodeParams,
        shards: Seq<Option<Seq<u8>>>,
    ) -> Result<nat, Error> {
        match spec_first_present(shards, 0) {
            None => Err(Error::NeedMoreShards { have: 0, min: params.k, all: params.n }),
            Some(first) => {
                let len = shards[first]->Some_0.len();
                if len == 0 {
                    Err(Error::ZeroLengthShards)
                } else if len % f.spec_field_bytes() != 0 {
                    Err(
                        Error::UndivisableShardLength {
                            shard_length: len as usize,
                            field_bytes: f.spec_field_bytes() as usize,
                        },
                    )
                } else if spec_first_other_length(shards, len, 0) is Some {
                    Err(
                        Error::InconsistentShardLengths {
                            first: len as usize,
                            other: spec_first_other_length(shards, len, 0)->Some_0 as usize,
                        },
                    )
                } else {
                    Ok(len)
                }
            },
        }
    }

    /// What `reconstruct` finds of the shards that were received: the number
    /// of columns, or why nothing can be reconstructed. The lengths are
    /// checked first, then the number of shards that were received for the
    /// codeword.
    pub open spec fn spec_check(
        f: Field,
        params: CodeParams,
        shards: Seq<Option<Seq<u8>>>,
    ) -> Result<nat, Error> {
        match Self::spec_uniform_length(f, params, shards) {
            Err(e) => Err(e),
            Ok(len) => {
                let have = spec_count_present(shards, params.n as int);
                if have < params.k {
                    Err(
                        Error::NeedMoreShards {
                            have: have as usize,
                            min: params.k,
                            all: params.n,
                        },
                    )
                } else {
                    Ok(len / f.spec_field_bytes())
                }
            },
        }
    }

    /// The payload bytes of `columns` columns of the shards that were
    /// received: those of `k` symbols for every column.
    pub open spec fn spec_reconstructed(
        f: Field,
        params: CodeParams,
        shards: Seq<Option<Seq<u8>>>,
        columns: nat,
    ) -> Seq<u8> {
        let erasures = spec_erasures(shards, params.n as nat);
        let width = f.spec_field_bytes() * params.k;
        Seq::new(
            (columns * width) as nat,
            |b: int|
                spec_reconstruct_sub(
                    f,
                    spec_column(f, shards, params.n as nat, b / width),
                    erasures,
                    params.n as nat,
                    params.k as nat,
                    spec_error_poly(f, erasures),
                )[b % width],
        )
    }

    /// What `reconstruct` returns for the shards that were received.
    pub open spec fn spec_reconstruct(
        f: Field,
        params: CodeParams,
        shards: Seq<Option<Seq<u8>>>,
    ) -> Result<Seq<u8>, Error> {
        match Self::spec_check(f, params, shards) {
            Ok(columns) => Ok(Self::spec_reconstructed(f, params, shards, columns)),
            Err(e) => Err(e),
        }
    }

    /// The length of the first shard that was received.
    fn first_shard_len<S: Shard>(received_shards: &Vec<Option<S>>) -> (len: Option<usize>)
        ensures
            match spec_first_present(spec_received(received_shards@), 0) {
                Some(first) => len == Some(
                    spec_received(received_shards@)[first]->Some_0.len() as usize,
                ) && spec_received(received_shards@)[first]->Some_0.len() <= usize::MAX,
                None => len is None,
            },
    {
        let ghost bytes = spec_received(received_shards@);
        let mut idx: usize = 0;
        while idx < received_shards.len()
            invariant
                idx <= received_shards@.len(),
                bytes == spec_received(received_shards@),
                spec_first_present(bytes, 0) == spec_first_present(bytes, idx as int),
            decreases received_shards@.len() - idx,
        {
            match &received_shards[idx] {
                Some(shard) => {
                    return Some(shard.len());
                },
                None => {},
            }
            idx += 1;
        }
        None
    }

    /// Verifies that the shards that were received all have the same length,
    /// that this length is not zero and that it divides into symbols. Returns
    /// the length.
    fn verify_reconstructiblity<S: Shard>(&self, received_shards: &Vec<Option<S>>) -> (res: Result<
        usize,
        Error,
    >)
        ensures
            match Self::spec_uniform_length(
                self.spec_field(),
                self@,
                spec_received(received_shards@),
            ) {
                Ok(len) => res == Ok::<usize, Error>(len as usize) && 0 < len <= usize::MAX && len
                    % self.spec_field().spec_field_bytes() == 0 && forall|i: int|
                    0 <= i < received_shards@.len() && received_shards@[i] is Some ==> (
                    #[trigger] received_shards@[i])->Some_0.spec_bytes().len() == len,
                Err(e) => res == Err::<usize, Error>(e),
            },
    {
        proof {
            use_type_invariant(self);
        }
        let ghost bytes = spec_received(received_shards@);
        let field_bytes: usize = self.tables.field().field_bytes();
        let uniform_shard_len: usize = match Self::first_shard_len(received_shards) {
            None => {
                return Err(Error::NeedMoreShards { have: 0, min: self.k, all: self.n });
            },
            Some(len) => len,
        };
        if uniform_shard_len == 0 {
            return Err(Error::ZeroLengthShards);
        }
        if uniform_shard_len % field_bytes != 0 {
            return Err(
                Error::UndivisableShardLength { shard_length: uniform_shard_len, field_bytes },
            );
        }
        let mut idx: usize = 0;
        while idx < received_shards.len()
            invariant
                idx <= received_shards@.len(),
                bytes == spec_received(received_shards@),
                spec_first_present(bytes, 0) is Some,
                bytes[spec_first_present(bytes, 0)->Some_0]->Some_0.len() == uniform_shard_len,
                uniform_shard_len != 0,
                field_bytes == self.spec_field().spec_field_bytes(),
                uniform_shard_len % field_bytes == 0,
                spec_first_other_length(bytes, uniform_shard_len as nat, 0)
                    == spec_first_other_length(bytes, uniform_shard_len as nat, idx as int),
                forall|i: int|
                    0 <= i < idx && received_shards@[i] is Some ==> (
                    #[trigger] received_shards@[i])->Some_0.spec_bytes().len() == uniform_shard_len,
            decreases received_shards@.len() - idx,
        {
            match &received_shards[idx] {
                Some(shard) => {
                    let other: usize = shard.len();
                    assert(bytes[idx as int] == Some(shard.spec_bytes()));
                    if other != uniform_shard_len {
                        return Err(
                            Error::InconsistentShardLengths { first: uniform_shard_len, other },
                        );
                    }
                },
                None => {
                    assert(bytes[idx as int] is None);
                },
            }
            idx += 1;
        }
        Ok(uniform_shard_len)
    }

    /// The erasure pattern of the shards that were received, over the whole
    /// codeword, and the number of shards that were received for it.
    fn mark_erasures<S: Shard>(&self, received_shards: &Vec<Option<S>>) -> (res: (Vec<bool>, usize))
        ensures
            res.0@ == spec_erasures(spec_received(received_shards@), self@.n as nat),
            res.1 == spec_count_present(spec_received(received_shards@), self@.n as int),
    {
        proof {
            use_type_invariant(self);
        }
        let ghost bytes = spec_received(received_shards@);
        let mut erasures: Vec<bool> = Vec::new();
        let mut existential_count: usize = 0;
        let mut i: usize = 0;
        while i < self.n
            invariant
                i <= self.n == self@.n,
                bytes == spec_received(received_shards@),
                erasures@.len() == i,
                existential_count <= i,
                existential_count == spec_count_present(bytes, i as int),
                forall|t: int|
                    0 <= t < i ==> erasures@[t] == spec_erasures(bytes, self@.n as nat)[t],
            decreases self.n - i,
        {
            let erased: bool = if i < received_shards.len() {
                received_shards[i].is_none()
            } else {
                true
            };
            if !erased {
                existential_count += 1;
            }
            erasures.push(erased);
            i += 1;
        }
        assert(erasures@ =~= spec_erasures(bytes, self@.n as nat));
        (erasures, existential_count)
    }

    /// The symbols of column `col` of the shards that were received, over the
    /// whole codeword.
    fn gather_column<S: Shard>(&self, received_shards: &Vec<Option<S>>, col: usize) -> (run: Vec<
        Option<Additive>,
    >)
        requires
            forall|i: int|
                0 <= i < received_shards@.len() && received_shards@[i] is Some
                    ==> self.spec_field().spec_field_bytes() * col
                    + self.spec_field().spec_field_bytes() <= (
                #[trigger] received_shards@[i])->Some_0.spec_bytes().len(),
        ensures
            run@ == spec_column(
                self.spec_field(),
                spec_received(received_shards@),
                self@.n as nat,
                col as int,
            ),
    {
        proof {
            use_type_invariant(self);
        }
        let field: Field = self.tables.field();
        let ghost f = self.spec_field();
        let ghost bytes = spec_received(received_shards@);
        let ghost target = spec_column(f, bytes, self@.n as nat, col as int);
        let mut run: Vec<Option<Additive>> = Vec::new();
        let mut i: usize = 0;
        while i < self.n
            invariant
                i <= self.n == self@.n,
                field == f,
                bytes == spec_received(received_shards@),
                target == spec_column(f, bytes, self@.n as nat, col as int),
                forall|i: int|
                    0 <= i < received_shards@.len() && received_shards@[i] is Some
                        ==> f.spec_field_bytes() * col + f.spec_field_bytes() <= (
                    #[trigger] received_shards@[i])->Some_0.spec_bytes().len(),
                run@.len() == i,
                forall|t: int| 0 <= t < i ==> run@[t] == target[t],
            decreases self.n - i,
        {
            let symbol: Option<Additive> = if i < received_shards.len() {
                match &received_shards[i] {
                    Some(shard) => {
                        let len: usize = shard.len();
                        assert(bytes[i as int] == Some(shard.spec_bytes()));
                        match field {
                            Field::F256 => {
                                let byte: u8 = shard.get_byte(col);
                                assert(shard.spec_bytes().subrange(col as int, col + 1) =~= seq![
                                    byte,
                                ]);
                                Some(Additive(byte as u16))
                            },
                            Field::F2e16 => {
                                let chunk: [u8; 2] = shard.get_chunk(col);
                                assert(shard.spec_bytes().subrange(2 * col, 2 * col + 2)
                                    =~= chunk@);
                                Some(Additive::from_be_bytes(chunk))
                            },
                        }
                    },
                    None => None,
                }
            } else {
                None
            };
            run.push(symbol);
            i += 1;
        }
        assert(run@ =~= target);
        run
    }

    /// Reconstructs the payload from the shards that were received, each at
    /// the place of the codeword that it was encoded for. Shards behind the
    /// end of the codeword are left out, and places for which no shard was
    /// handed in count as erased. Returns the bytes of `k` symbols for every
    /// column: the payload, and behind it the zeros that it was padded with.
    /// At most half of a codeword may be payload.
    pub fn reconstruct<S: Shard>(&self, received_shards: Vec<Option<S>>) -> (res: Result<
        Vec<u8>,
        Error,
    >)
        requires
            self@.spec_is_low_rate(),
        ensures
            match Self::spec_reconstruct(
                self.spec_field(),
                self@,
                spec_received(received_shards@),
            ) {
                Ok(payload) => res is Ok && res->Ok_0@ == payload,
                Err(e) => res == Err::<Vec<u8>, Error>(e),
            },
    {
        proof {
            use_type_invariant(self);
            reveal(is_pow2);
        }
        let field: Field = self.tables.field();
        let field_bytes: usize = field.field_bytes();
        let field_size: usize = field.size();
        let ghost f = self.spec_field();
        let ghost bytes = spec_received(received_shards@);
        let shard_len: usize = self.verify_reconstructiblity(&received_shards)?;
        let shard_len_in_syms: usize = shard_len / field_bytes;
        let (erasures, existential_count) = self.mark_erasures(&received_shards);
        if existential_count < self.k {
            return Err(
                Error::NeedMoreShards { have: existential_count, min: self.k, all: self.n },
            );
        }
        // Evaluate error locator polynomial only once
        let mut error_poly_in_log: Vec<Logarithm> = Vec::new();
        let mut i: usize = 0;
        while i < field_size
            invariant
                i <= field_size,
                error_poly_in_log@.len() == i,
                forall|t: int| 0 <= t < i ==> error_poly_in_log@[t] == Logarithm(0),
            decreases field_size - i,
        {
            error_poly_in_log.push(Logarithm(0));
            i += 1;
        }
        assert(error_poly_in_log@ =~= Seq::new(f.spec_size(), |i: int| Logarithm(0)));
        eval_error_polynomial(
            self.tables,
            erasures.as_slice(),
            &mut error_poly_in_log,
            field_size,
        );
        let ghost target = Self::spec_reconstructed(f, self@, bytes, shard_len_in_syms as nat);
        let width: usize = field_bytes * self.k;
        let mut acc: Vec<u8> = Vec::new();
        let mut col: usize = 0;
        while col < shard_len_in_syms
            invariant
                col <= shard_len_in_syms,
                self.wf(),
                self@.spec_is_low_rate(),
                f == self.spec_field(),
                f == self.tables@.field,
                self@.n == self.n,
                self@.k == self.k,
                self.k >= 1,
                field_bytes == f.spec_field_bytes(),
                width == field_bytes * self.k,
                bytes == spec_received(received_shards@),
                erasures@ == spec_erasures(bytes, self@.n as nat),
                error_poly_in_log@ == spec_error_poly(f, erasures@),
                error_poly_in_log@.len() >= f.spec_size(),
                target == Self::spec_reconstructed(f, self@, bytes, shard_len_in_syms as nat),
                forall|i: int|
                    0 <= i < received_shards@.len() && received_shards@[i] is Some ==> (
                    #[trigger] received_shards@[i])->Some_0.spec_bytes().len() == field_bytes
                        * shard_len_in_syms,
                acc@.len() == col * width,
                forall|b: int| 0 <= b < acc@.len() ==> acc@[b] == target[b],
            decreases shard_len_in_syms - col,
        {
            proof {
                assert(field_bytes * col + field_bytes <= field_bytes * shard_len_in_syms)
                    by (nonlinear_arith)
                    requires
                        col < shard_len_in_syms,
                        field_bytes >= 1,
                ;
            }
            // take the i-th element of all shards and try to recover
            let decoding_run: Vec<Option<Additive>> = self.gather_column(&received_shards, col);
            // reconstruct from one set of symbols which was spread over all erasure chunks
            let piece: Vec<u8> = match reconstruct_sub(
                self.tables,
                decoding_run.as_slice(),
                erasures.as_slice(),
                self.n,
                self.k,
                error_poly_in_log.as_slice(),
            ) {
                Ok(piece) => piece,
                Err(e) => {
                    return Err(e);
                },
            };
            let ghost before = acc@;
            let mut j: usize = 0;
            proof {
                assert(col * width + width <= shard_len_in_syms * width && width >= 1)
                    by (nonlinear_arith)
                    requires
                        col < shard_len_in_syms,
                        width == field_bytes * self.k,
                        field_bytes >= 1,
                        self.k >= 1,
                ;
            }
            while j < piece.len()
                invariant
                    j <= piece@.len() == width,
                    width >= 1,
                    width == f.spec_field_bytes() * self.k,
                    col < shard_len_in_syms,
                    before.len() == col * width,
                    acc@.len() == before.len() + j,
                    self@.k == self.k,
                    self@.n == self.n,
                    target == Self::spec_reconstructed(f, self@, bytes, shard_len_in_syms as nat),
                    target.len() == shard_len_in_syms * width,
                    col * width + width <= shard_len_in_syms * width,
                    piece@ == spec_reconstruct_sub(
                        f,
                        spec_column(f, bytes, self@.n as nat, col as int),
                        spec_erasures(bytes, self@.n as nat),
                        self@.n as nat,
                        self@.k as nat,
                        spec_error_poly(f, spec_erasures(bytes, self@.n as nat)),
                    ),
                    forall|b: int| 0 <= b < acc@.len() ==> acc@[b] == target[b],
                decreases piece@.len() - j,
            {
                proof {
                    crate::blocks::lemma_position_in_block(
                        col * width + j,
                        width as int,
                        col as int,
                        j as int,
                    );
                    lemma_fundamental_div_mod_converse(
                        col * width + j,
                        width as int,
                        col as int,
                        j as int,
                    );
                }
                acc.push(piece[j]);
                j += 1;
            }
            proof {
                assert((col + 1) * width == col * width + width) by (nonlinear_arith);
            }
            col += 1;
        }
        assert(acc@ =~= target);
        Ok(acc)
    }

    /// Fills `codeword` with the codeword of the payload symbols
    /// `data[0..k]`, which are at most half of the codeword.
    pub fn encode_low(&self, data: &Vec<Additive>, codeword: &mut Vec<Additive>)
        requires
            self@.spec_is_low_rate(),
            data@.len() == self@.n,
            old(codeword)@.len() == self@.n,
        ensures
            final(codeword)@ == spec_encode_low(
                self.spec_field(),
                data@,
                self@.k as nat,
                self@.n as nat,
            ),
    {
        proof {
            use_type_invariant(self);
        }
        encode_low(self.tables, data, self.k, codeword, self.n)
    }

    /// Fills the first `n - k` places of `parity` with the parity symbols of
    /// the payload symbols `data[0..k]`, for a coder with more payload than
    /// parity: the number of parity symbols is a power of two. `mem` is
    /// working space.
    pub fn encode_high(
        &self,
        data: &Vec<Additive>,
        parity: &mut Vec<Additive>,
        mem: &mut Vec<Additive>,
    )
        requires
            self@.k < self@.n,
            is_pow2((self@.n - self@.k) as int),
            self@.k <= data@.len(),
            old(parity)@.len() == self@.n - self@.k,
            old(mem)@.len() == self@.n - self@.k,
        ensures
            final(parity)@ == spec_encode_high(
                self.spec_field(),
                data@.subrange(0, self@.k as int),
                self@.k as nat,
                self@.n as nat,
            ),
            final(mem)@.len() == self@.n - self@.k,
    {
        proof {
            use_type_invariant(self);
        }
        encode_high(self.tables, data, self.k, parity, mem, self.n)
    }

    /// The codeword of one column of the bytes of at most `k` payload
    /// symbols, which are at most half of the codeword.
    pub fn encode_sub(&self, bytes: &[u8]) -> (res: Result<Vec<Additive>, Error>)
        requires
            self@.spec_is_low_rate(),
            bytes@.len() <= self.spec_field().spec_field_bytes() * self@.k,
        ensures
            res is Ok,
            res->Ok_0@ == spec_encode_sub(
                self.spec_field(),
                bytes@,
                self@.n as nat,
                self@.k as nat,
            ),
    {
        proof {
            use_type_invariant(self);
        }
        encode_sub(self.tables, bytes, self.n, self.k)
    }

    /// The payload bytes of one column, from the symbols that were received of
    /// its codeword, of which at most half is payload.
    pub fn reconstruct_sub(
        &self,
        codewords: &[Option<Additive>],
        erasures: &[bool],
        error_poly: &[Logarithm],
    ) -> (res: Result<Vec<u8>, Error>)
        requires
            self@.spec_is_low_rate(),
            codewords@.len() == self@.n,
            erasures@.len() == self@.n,
            error_poly@.len() >= self@.n,
        ensures
            res is Ok,
            res->Ok_0@ == spec_reconstruct_sub(
                self.spec_field(),
                codewords@,
                erasures@,
                self@.n as nat,
                self@.k as nat,
                error_poly@,
            ),
    {
        proof {
            use_type_invariant(self);
        }
        reconstruct_sub(self.tables, codewords, erasures, self.n, self.k, error_poly)
    }

    /// Decodes one column in place, up to its payload symbols, which are no
    /// more than the codeword has symbols.
    pub fn decode_main(
        &self,
        codeword: &mut Vec<Additive>,
        erasure: &[bool],
        log_walsh2: &[Logarithm],
    )
        requires
            self@.k <= self@.n,
            old(codeword)@.len() == self@.n,
            erasure@.len() == self@.n,
            log_walsh2@.len() >= self@.n,
        ensures
            final(codeword)@ == spec_decode_main(
                self.spec_field(),
                old(codeword)@,
                self@.k as nat,
                erasure@,
                log_walsh2@,
                self@.n as nat,
            ),
    {
        proof {
            use_type_invariant(self);
            reveal(is_pow2);
        }
        decode_main(self.tables, codeword, self.k, erasure, log_walsh2, self.n)
    }

    /// Evaluates the error locator polynomial of the erasure pattern
    /// `erasure` at every element of the field.
    pub fn eval_error_polynomial(&self, erasure: &[bool], log_walsh2: &mut Vec<Logarithm>)
        requires
            old(log_walsh2)@.len() >= self.spec_field().spec_size(),
        ensures
            final(log_walsh2)@ == spec_eval_error_polynomial(
                self.spec_field(),
                erasure@,
                old(log_walsh2)@,
                self.spec_field().spec_size(),
            ),
    {
        proof {
            use_type_invariant(self);
        }
        let field_size: usize = self.tables.field().size();
        eval_error_polynomial(self.tables, erasure, log_walsh2, field_size)
    }
}

} // verus!
