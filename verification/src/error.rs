//! The error values that the library's queries and the hex parser return.

use vstd::prelude::*;

verus! {

/// Everything that can fail in this library, as one enum: a root query on a
/// tree with no leaves, a proof query on a tree with no leaves, and a
/// malformed hex string handed to the buffer parser.
#[derive(Debug, Clone, Copy, PartialEq, Eq, Structural)]
pub enum MerkleTreeError {
    /// A root was requested of a tree that was built from no leaves.
    NoRoot,
    /// A proof was requested of a tree that was built from no leaves.
    NoLeaf,
    /// A string could not be parsed as hex after the optional `0x` prefix.
    FromHexError,
}

} // verus!
