//! Node layout: leaves, internal nodes, and the bookkeeping kept beside each slot.

use crate::slots::MAX_LEN;
use arrayvec::ArrayVec;
use vstd::prelude::*;

verus! {

/// A bottom-level node: sorted entries plus the indices of its two neighbours in
/// the leaf ring.
pub struct Leaf {
    pub(crate) data: ArrayVec<(u64, u64), MAX_LEN>,
    pub(crate) left: Option<usize>,
    pub(crate) right: Option<usize>,
}

/// A branch node: (child, separator) pairs and one trailing child. A separator is
/// the index of the leftmost leaf below the next child; its first key is read when
/// routing. The array has one slot to spare so that a child's split can be taken in
/// before the node itself is divided.
pub struct Intra {
    pub(crate) heads: ArrayVec<(usize, usize), MAX_LEN>,
    pub(crate) tail: usize,
}

/// A tree position.
pub enum Node {
    Intra(Intra),
    Leaf(Leaf),
}

/// Proof-only facts recorded for an occupied slot.
pub struct Note {
    /// Distance to the leaf level.
    pub level: nat,
    /// Leftmost leaf below this node.
    pub first: usize,
    /// The leaf that follows the last leaf below this node, if any.
    pub after: Option<usize>,
}

/// What is still owed to the tree between two steps of a structural change.
pub enum Pending {
    /// Nothing.
    Settled,
    /// The node may be one short of its minimum.
    Under(usize),
    /// The node may hold one child more than its maximum.
    Over(usize),
    /// The first node has been divided; the second holds its upper part and has
    /// no parent yet.
    Split(usize, usize),
}

} // verus!
