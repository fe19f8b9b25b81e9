//! The construction flags that change tree shape and hashing behaviour.

use vstd::prelude::*;

verus! {

/// A plain configuration value for tree construction.
///
/// `sort` is a master switch: when true it forces `sort_leaves` and
/// `sort_pairs` at construction time, whatever their own values.
/// `duplicate_odd` is recognized but the engine always promotes an unpaired
/// trailing node unchanged; see the tree engine's documentation.
#[derive(Debug, Clone, Copy, PartialEq, Eq, Structural)]
pub struct Options {
    /// Hash each raw leaf before it becomes a processed leaf.
    pub hash_leaves: bool,
    /// Sort the processed leaf set by buffer order before forming the first
    /// layer.
    pub sort_leaves: bool,
    /// Reorder every sibling pair by buffer order before hashing it.
    pub sort_pairs: bool,
    /// Master switch: force both `sort_leaves` and `sort_pairs`.
    pub sort: bool,
    /// Declared for completeness; the unpaired trailing node of an odd layer
    /// is always promoted unchanged, never duplicated and rehashed.
    pub duplicate_odd: bool,
}

} // verus!
