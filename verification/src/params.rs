//! Code parameters derived from a wanted number of shards.
use crate::errors::Error;
use crate::field::Field;
use crate::util::{
    is_nonzero_power_of_2, lemma_next_higher_power_of_2, lemma_next_lower_power_of_2,
    next_higher_power_of_2, next_lower_power_of_2, recoverability_subset_size,
    spec_next_higher_power_of_2, spec_next_lower_power_of_2, spec_recoverability_subset_size,
};
use vstd::arithmetic::power2::is_pow2;
use vstd::prelude::*;

verus! {

/// Parameters of one code: `k` payload symbols are spread over `n` symbols, of
/// which the first `real_n` are handed out.
#[derive(Debug, Clone, Copy, PartialEq, Eq, Structural)]
pub struct CodeParams {
    /// Length of a codeword; a power of two.
    pub n: usize,
    /// Number of payload symbols in a codeword; a power of two.
    pub k: usize,
    /// Number of shards that were asked for.
    pub real_n: usize,
}

/// Code parameters that passed `CodeParams::check`.
#[derive(Debug, Clone, Copy, PartialEq, Eq, Structural)]
pub struct CheckedParams {
    params: CodeParams,
}

/// Codeword length for `real_n` wanted shards.
pub open spec fn spec_code_length(real_n: nat) -> nat {
    spec_next_higher_power_of_2(real_n)
}

/// Payload symbols per codeword for `real_n` wanted shards under the default
/// policy: a third of the shards, rounded up, then down to a power of two.
pub open spec fn spec_payload_length(real_n: nat) -> nat {
    spec_next_lower_power_of_2(spec_recoverability_subset_size(real_n))
}

/// The default policy leaves at least half of every codeword to parity.
pub proof fn lemma_default_policy_is_low_rate(real_n: nat)
    requires
        real_n >= 2,
    ensures
        is_pow2(spec_code_length(real_n) as int),
        is_pow2(spec_payload_length(real_n) as int),
        real_n <= spec_code_length(real_n) < 2 * real_n,
        1 <= spec_payload_length(real_n) <= spec_recoverability_subset_size(real_n),
        2 * spec_payload_length(real_n) <= spec_code_length(real_n),
        spec_payload_length(real_n) <= real_n,
{
    let n = spec_code_length(real_n);
    let k = spec_payload_length(real_n);
    lemma_next_higher_power_of_2(real_n);
    lemma_next_lower_power_of_2(spec_recoverability_subset_size(real_n));
    // k <= (real_n + 2) / 3 < n, and two powers of two that differ do so by a factor of two.
    assert(k < n);
    lemma_smaller_power_is_at_most_half(k, n);
}

/// Of two distinct powers of two the smaller is at most half the larger.
pub proof fn lemma_smaller_power_is_at_most_half(a: nat, b: nat)
    requires
        is_pow2(a as int),
        is_pow2(b as int),
        a < b,
    ensures
        2 * a <= b,
    decreases b,
{
    reveal(is_pow2);
    if a == 1 {
    } else {
        lemma_smaller_power_is_at_most_half(a / 2, b / 2);
    }
}

impl CodeParams {
    /// The parameters of the default policy for `real_n` wanted shards over
    /// the field `f`: fewer than two shards are too few, and the codeword
    /// must not be longer than the field is large.
    pub open spec fn spec_derive_for(f: Field, real_n: usize) -> Result<CodeParams, Error> {
        if real_n < 2 {
            Err(Error::WantedShardCountTooLow(real_n))
        } else if spec_code_length(real_n as nat) > f.spec_size() {
            Err(Error::WantedShardCountTooHigh(real_n))
        } else {
            Ok(
                CodeParams {
                    n: spec_code_length(real_n as nat) as usize,
                    k: spec_payload_length(real_n as nat) as usize,
                    real_n,
                },
            )
        }
    }

    /// What `derive_from_third_plus_epsilon` returns for `real_n`: the
    /// parameters of the default policy over GF(2^16).
    pub open spec fn spec_derive(real_n: usize) -> Result<CodeParams, Error> {
        Self::spec_derive_for(Field::F2e16, real_n)
    }

    /// Whether both lengths are powers of two.
    pub open spec fn spec_is_checked(&self) -> bool {
        is_pow2(self.n as int) && is_pow2(self.k as int)
    }

    /// Derives the parameters for `real_n` wanted shards over the field
    /// `field` such that a third of the shards, rounded up, suffices to
    /// reconstruct: `n` is `real_n` rounded up to a power of two and `k` that
    /// third rounded down to one.
    pub fn derive_for(field: Field, real_n: usize) -> (res: Result<CodeParams, Error>)
        ensures
            res == Self::spec_derive_for(field, real_n),
            res matches Ok(p) ==> p.spec_is_checked() && 2 * p.k <= p.n <= field.spec_size()
                && real_n <= p.n && 1 <= p.k <= spec_recoverability_subset_size(real_n as nat),
    {
        if real_n < 2 {
            return Err(Error::WantedShardCountTooLow(real_n));
        }
        proof {
            lemma_next_higher_power_of_2(real_n as nat);
            lemma_default_policy_is_low_rate(real_n as nat);
        }
        if real_n > field.size() {
            return Err(Error::WantedShardCountTooHigh(real_n));
        }
        let k = next_lower_power_of_2(recoverability_subset_size(real_n));
        let n = next_higher_power_of_2(real_n);
        if n > field.size() {
            return Err(Error::WantedShardCountTooHigh(real_n));
        }
        Ok(CodeParams { n, k, real_n })
    }

    /// Derives the parameters for `real_n` wanted shards over GF(2^16) such
    /// that a third of the shards, rounded up, suffices to reconstruct.
    pub fn derive_from_third_plus_epsilon(real_n: usize) -> (res: Result<CodeParams, Error>)
        ensures
            res == Self::spec_derive(real_n),
            res matches Ok(p) ==> p.spec_is_checked() && 2 * p.k <= p.n && real_n <= p.n && 1
                <= p.k <= spec_recoverability_subset_size(real_n as nat),
    {
        Self::derive_for(Field::F2e16, real_n)
    }

    /// Accepts the parameters if both lengths are powers of two.
    pub fn check(&self) -> (res: Result<CheckedParams, Error>)
        ensures
            self.spec_is_checked() ==> res is Ok && res->Ok_0@ == *self,
            !self.spec_is_checked() ==> res == Err::<CheckedParams, Error>(
                Error::ParameterMustBePowerOf2 { n: self.n, k: self.k },
            ),
    {
        let n = self.n;
        let k = self.k;
        if !is_nonzero_power_of_2(n) || !is_nonzero_power_of_2(k) {
            Err(Error::ParameterMustBePowerOf2 { n, k })
        } else {
            Ok(CheckedParams { params: *self })
        }
    }
}

impl CheckedParams {
    /// The parameters that were checked.
    pub closed spec fn view(&self) -> CodeParams {
        self.params
    }

    /// The parameters that were checked.
    pub fn params(&self) -> (p: &CodeParams)
        ensures
            *p == self@,
    {
        &self.params
    }
}

} // verus!
