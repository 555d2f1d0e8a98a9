//! Groups of identity commitments, each kept in an incremental Merkle tree.
//!
//! The tree (`imt`) keeps every level of nodes, so that changing one leaf
//! recomputes only the path from that leaf to the root, and gives proofs of
//! membership that are checked with the hash alone. The hash that combines
//! children is supplied by the caller; `hash_model` says what the tree
//! relies on, `hash` offers Keccak-256. What the tree computes is defined in
//! `tree_spec` over sequences of values, and `laws` relates the operations to
//! one another. `groups` decides who may change a group and what is to be
//! announced of each change.

pub mod groups;
pub mod hash;
pub mod hash_model;
pub mod imt;
pub mod laws;
pub mod levels;
pub mod tree_spec;
