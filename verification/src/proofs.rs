//! Inclusion-proof entries: a sibling hash paired with its side.

use vstd::prelude::*;
use crate::buffer::Buffer;

verus! {

/// Which side the supplied sibling occupies when the parent hash is
/// recomputed: `Left` means the sibling is the left operand, `Right` the
/// right operand.
#[derive(Debug, Clone, Copy, PartialEq, Eq, Structural)]
pub enum ProofPosition {
    Right,
    Left,
}

/// One inclusion-proof entry: a sibling hash and the side it stands on.
#[derive(Debug, Clone)]
pub struct Proof {
    pub position: ProofPosition,
    pub data: Buffer,
}

impl PartialEq for Proof {
    fn eq(&self, other: &Proof) -> (r: bool) {
        self.position == other.position && self.data == other.data
    }
}

impl vstd::std_specs::cmp::PartialEqSpecImpl for Proof {
    open spec fn obeys_eq_spec() -> bool {
        true
    }

    open spec fn eq_spec(&self, other: &Proof) -> bool {
        self.position == other.position && self.data@ == other.data@
    }
}

/// The entries of a proof as pairs of side and sibling bytes.
pub open spec fn entry_views(s: Seq<Proof>) -> Seq<(ProofPosition, Seq<u8>)> {
    s.map_values(|p: Proof| (p.position, p.data@))
}

} // verus!
