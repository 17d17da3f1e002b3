//! A Merkle tree of a fixed depth over a list of leaves, generic over the hash functions on leaves
//! and on pairs of nodes. Leaves can be appended to it and removed from its end; for every leaf it
//! gives a path, against which the leaf can be verified, given the root alone.
pub mod error;
pub mod filling;
pub mod hash;
pub mod index;
pub mod laws;
pub mod model;
mod nodes;
pub mod operations;
pub mod parallel;
pub mod path;
pub mod size;
pub mod tree;
pub mod update;

pub use crate::error::{Error, HashError};
pub use crate::hash::{LeafHash, PathHash};
pub use crate::path::MerklePath;
pub use crate::tree::MerkleTree;
