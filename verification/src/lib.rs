//! A sparse Merkle tree core: a fixed-height authenticated map from leaf
//! slots to digests, with batched insertion, membership paths, compact
//! multi-leaf partial proofs, and partial-tree verification.

pub mod hasher;
pub mod index;
pub mod laws;
pub mod protocol;
pub mod smt;
