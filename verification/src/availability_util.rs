//! Encoding and reconstruction under the default policy: a third of the
//! shards, rounded up, suffices to reconstruct.
use crate::errors::Error;
use crate::field::Field;
use crate::novel_poly_basis::{spec_new_params, spec_received, ReedSolomon};
use crate::params::{lemma_default_policy_is_low_rate, CodeParams};
use crate::shard::Shard;
use crate::tables::FieldTables;
use crate::util::{recoverability_subset_size, spec_recoverability_subset_size};
use vstd::prelude::*;

verus! {

/// Under the default policy the coder takes up exactly the parameters that
/// `CodeParams::derive_for` derives: the codeword length is the number of
/// shards rounded up to a power of two, the number of payload shards is a
/// third of the number of shards, rounded up and then down to a power of
/// two, and the same numbers of shards are turned down. At most half of a
/// codeword is payload, so that the coder encodes and reconstructs.
pub proof fn lemma_default_policy(f: Field, validator_count: usize)
    ensures
        spec_new_params(
            f,
            validator_count,
            spec_recoverability_subset_size(validator_count as nat) as usize,
        ) == CodeParams::spec_derive_for(f, validator_count),
        CodeParams::spec_derive_for(f, validator_count) matches Ok(params) ==> params.spec_is_valid(
            f,
        ) && params.spec_is_low_rate() && params.k <= params.real_n,
{
    if validator_count >= 2 {
        lemma_default_policy_is_low_rate(validator_count as nat);
    }
}

/// Encodes the payload `bytes` into `validator_count` shards, of which a
/// third, rounded up and then down to a power of two, suffices to
/// reconstruct.
pub fn encode<S: Shard>(tables: &FieldTables, bytes: &[u8], validator_count: usize) -> (res: Result<
    Vec<S>,
    Error,
>)
    requires
        bytes@.len() < usize::MAX,
    ensures
        match CodeParams::spec_derive_for(tables@.field, validator_count) {
            Err(e) => res is Err && res->Err_0 == e,
            Ok(params) => match ReedSolomon::spec_encode(tables@.field, params, bytes@) {
                Ok(shards) => res is Ok && res->Ok_0@.len() == shards.len() && forall|i: int|
                    0 <= i < shards.len() ==> (#[trigger] res->Ok_0@[i]).spec_bytes()
                        == S::spec_wrap(shards[i]),
                Err(e) => res is Err && res->Err_0 == e,
            },
        },
{
    proof {
        lemma_default_policy(tables@.field, validator_count);
    }
    let rs: ReedSolomon = match ReedSolomon::new(
        tables,
        validator_count,
        recoverability_subset_size(validator_count),
    ) {
        Ok(rs) => rs,
        Err(e) => {
            return Err(e);
        },
    };
    rs.encode::<S>(bytes)
}

/// Reconstructs the payload from the shards that were received of
/// `validator_count` shards, each at the place that it was encoded for.
pub fn reconstruct<S: Shard>(
    tables: &FieldTables,
    received_shards: Vec<Option<S>>,
    validator_count: usize,
) -> (res: Result<Vec<u8>, Error>)
    ensures
        match CodeParams::spec_derive_for(tables@.field, validator_count) {
            Err(e) => res == Err::<Vec<u8>, Error>(e),
            Ok(params) => match ReedSolomon::spec_reconstruct(
                tables@.field,
                params,
                spec_received(received_shards@),
            ) {
                Ok(payload) => res is Ok && res->Ok_0@ == payload,
                Err(e) => res == Err::<Vec<u8>, Error>(e),
            },
        },
{
    proof {
        lemma_default_policy(tables@.field, validator_count);
    }
    let rs: ReedSolomon = match ReedSolomon::new(
        tables,
        validator_count,
        recoverability_subset_size(validator_count),
    ) {
        Ok(rs) => rs,
        Err(e) => {
            return Err(e);
        },
    };
    rs.reconstruct(received_shards)
}

} // verus!
