//! An indexed Merkle tree: a fixed-population, content-addressed binary hash
//! tree built once from a set of keyed records. It supports inclusion-proof
//! generation for a record by key and independent proof verification against
//! a known root hash.

pub mod distribution;
pub mod errors;
pub mod hasher;
pub mod hexcode;
pub mod node;
pub mod tree;
pub mod merkle_proof;
