//! A binary hash tree ("Merkle tree") over an ordered list of byte-string
//! leaves, with positional inclusion proofs.
//!
//! The tree is built from a leaf list, a caller-chosen hash strategy and a
//! set of construction options; afterwards it answers root and proof queries.

pub mod buffer;
pub mod error;
pub mod hasher;
pub mod merkletree;
pub mod options;
pub mod proofs;

pub use buffer::Buffer;
pub use error::MerkleTreeError;
pub use hasher::{HashFunction, Keccak256};
pub use merkletree::MerkleTree;
pub use options::Options;
pub use proofs::{Proof, ProofPosition};
