//! Block-based image integrity: partitioning of a pixel plane into blocks,
//! content hashing of block payloads, Merkle trees over those hashes, a
//! pruned tree diff that yields a per-block tamper vector, and the mapping
//! from leaf indices back to block coordinates.
use vstd::prelude::*;

pub mod blockchain;
pub mod cipher;
pub mod digest;
pub mod merkle_tree;
pub mod msb;
pub mod partition;
pub mod raster;

verus! {

/// Errors reported by the integrity engine on invalid input.
#[derive(Debug, Clone, Copy, PartialEq, Eq, Structural)]
pub enum IntegrityError {
    /// A block size of zero was given.
    InvalidBlockSize,
    /// An empty leaf sequence was given where at least one leaf is required.
    EmptyLeaves,
    /// The two trees being compared hold different numbers of leaves.
    LeafCountMismatch,
}

} // verus!
