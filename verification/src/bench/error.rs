//! What is wrong with the arguments of a benchmark.
use vstd::prelude::*;

verus! {

#[derive(Debug, PartialEq, Eq, Clone, Copy, Structural)]
pub enum BenchError {
    /// The keyspace has to hold a key.
    NoKeys,
    /// There has to be a shard.
    NoShards,
    /// The shard index is not below the number of shards.
    ShardIndexTooHigh,
    /// No key of the keyspace routes to the shard.
    EmptyShard,
    /// The op mix is not a number behind `mixed:`.
    BadPercentage,
    /// The read percentage is above 100.
    PercentageTooHigh,
    /// No op mix has this name.
    UnknownMix,
    /// The target is not of the form `name=url`.
    BadTarget,
}

} // verus!
