//! The hashing strategy a tree is built with.
//!
//! The tree engine accepts any injected byte-to-byte mapping and trusts it to
//! be pure, deterministic and total. [`HashFunction`] captures that contract:
//! an implementor pairs an executable `hash` with the mathematical function
//! `hash_spec` it computes. [`Keccak256`] is the strategy used by the
//! address-whitelist scenarios.

use vstd::prelude::*;
use tiny_keccak::Hasher as KeccakHasher;

verus! {

/// A pure, deterministic, total byte-to-byte mapping, bound to a tree at
/// construction time.
pub trait HashFunction: Sized {
    /// The mathematical function the strategy computes.
    spec fn hash_spec(&self, data: Seq<u8>) -> Seq<u8>;

    /// Computes the hash of `data`; the result is exactly `hash_spec` of it.
    fn hash(&self, data: &[u8]) -> (r: Vec<u8>)
        ensures
            r@ == self.hash_spec(data@),
    ;
}

/// What the 256-bit Keccak digest of a byte sequence is.
pub uninterp spec fn keccak256_of(data: Seq<u8>) -> Seq<u8>;

/// Relies on `tiny_keccak::Keccak::v256`: the 32-byte digest depends on the
/// input bytes alone.
#[verifier::external_body]
fn keccak256(data: &[u8]) -> (r: Vec<u8>)
    ensures
        r@ == keccak256_of(data@),
        r@.len() == 32,
{
    let mut state = tiny_keccak::Keccak::v256();
    let mut out = [0u8; 32];
    state.update(data);
    state.finalize(&mut out);
    out.to_vec()
}

/// The 256-bit Keccak hashing strategy.
#[derive(Debug, Clone, Copy, PartialEq, Eq, Structural)]
pub struct Keccak256;

impl HashFunction for Keccak256 {
    open spec fn hash_spec(&self, data: Seq<u8>) -> Seq<u8> {
        keccak256_of(data)
    }

    fn hash(&self, data: &[u8]) -> (r: Vec<u8>) {
        keccak256(data)
    }
}

} // verus!
