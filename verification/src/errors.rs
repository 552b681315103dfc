use vstd::prelude::*;

verus! {

/// Errors raised by tree construction, proof generation and proof
/// verification. Each variant carries the offending detail so that a caller
/// can surface it verbatim.
#[derive(Debug, Clone, PartialEq, Eq)]
pub enum MerkleError {
    /// The recomputed root hash does not match the expected one.
    InvalidRootHash { exp: [u8; 32], act: [u8; 32] },
    /// The key is absent from the indexer, or occurs twice in one
    /// construction call.
    InvalidKey { key: [u8; 32] },
    /// An expected node is missing: the tree is corrupt.
    NodeNotFound { level: usize, index: usize },
    /// Construction was called with fewer than two records.
    InvalidDataLength { len: usize },
}

} // verus!
