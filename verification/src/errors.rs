//! Failures that the coder reports to its callers.
use vstd::prelude::*;

verus! {

/// Why an encode or reconstruct call was turned down.
#[derive(Debug, Clone, Copy, PartialEq, Eq, Structural)]
pub enum Error {
    /// The payload to encode is empty.
    PayloadSizeIsZero,
    /// Fewer than two shards were asked for.
    WantedShardCountTooLow(usize),
    /// More shards were asked for than the field has elements.
    WantedShardCountTooHigh(usize),
    /// Fewer than one payload shard was asked for.
    WantedPayloadShardCountTooLow(usize),
    /// A code parameter is not a power of two.
    ParameterMustBePowerOf2 { n: usize, k: usize },
    /// Too few shards are present to reconstruct.
    NeedMoreShards { have: usize, min: usize, all: usize },
    /// Two shards differ in length.
    InconsistentShardLengths { first: usize, other: usize },
    /// The shard length is no multiple of the field element width.
    UndivisableShardLength { shard_length: usize, field_bytes: usize },
    /// The shards that are present are all empty.
    ZeroLengthShards,
}

} // verus!
