//! An approximate, memory-bounded set-membership filter.
//!
//! The library answers "possibly present" or "definitely absent" for a stream
//! of values using a fixed-size bit array and a family of seeded hashes: a
//! Bloom filter.  It contains:
//!
//! - parameter derivation (`params`): the optimal bit count and hash count
//!   for a target capacity and false-positive rate, and the closed-form
//!   false-positive estimator, all in integer fixed-point arithmetic;
//! - a value canonicalizer (`canonical`): a deterministic byte form for
//!   heterogeneous typed values, used as hash input;
//! - a multi-hash indexer (`indexer`): `k` array indices from one seeded
//!   32-bit hash;
//! - a packed bit store (`bit_array`) and a bounded counter store
//!   (`counting_array`);
//! - the standard filter (`bloom_filter`) with insert/query/clear and the
//!   estimator, and the counting filter (`counting_bloom_filter`) which also
//!   supports removal;
//! - a snapshot codec (`snapshot`) that round-trips a filter's full state
//!   through a byte buffer.

use vstd::prelude::*;

pub mod bit_array;
pub mod bloom_filter;
pub mod canonical;
pub mod counting_array;
pub mod counting_bloom_filter;
pub mod indexer;
pub mod params;
pub mod snapshot;

verus! {

/// The ways an operation of this library can fail.
#[derive(Clone, Copy, Debug, PartialEq, Eq, Structural)]
pub enum FilterError {
    /// Construction was asked for an expected item count below one or a
    /// false-positive rate outside the open interval (0, 1).
    InvalidParameter,
    /// A typed value could not be reduced to bytes by the host binding.
    /// The library's own canonicalizer is total; this variant exists for
    /// host layers whose introspection of a foreign value can fail.
    CanonicalizationError,
    /// A snapshot's payload length is inconsistent with its declared bit
    /// count, or a field of the snapshot is missing or out of range.
    DeserializationError,
}

} // verus!
