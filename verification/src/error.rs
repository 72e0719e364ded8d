//! What can go wrong with the commitment tree.

use crate::merkle::MerkleNodeKey;
use vstd::prelude::*;

verus! {

#[derive(Clone, Copy, Debug, PartialEq, Eq)]
pub enum TreeError {
    /// A 32-byte word is not below the order of the field.
    NonCanonical,
    /// A stored frontier does not have one slot per level.
    SlotCount { found: usize },
    /// A stored frontier counts as many leaves as the tree can hold, or more.
    CountExceedsCapacity,
    /// A stored frontier does not hash to the root stored with it.
    RootMismatch,
    /// Every leaf position is taken.
    TreeFull,
    /// A batch is empty or exceeds `max` leaves.
    BatchSize { max: usize },
    /// A number of proofs is zero or exceeds `max`.
    MaxProofs { max: usize },
    /// An aggregate batch is empty or exceeds `max` leaves.
    AggregateBatchSize { max: usize },
    /// The builder lost the complete node that it held for a level.
    StackIncomplete { level: usize },
    /// A leaf position is not inside the confirmed prefix.
    PositionOutsidePrefix,
    /// A witness does not have one sibling per level.
    SiblingCount { found: usize },
    /// The sibling at a level is not a hex string.
    SiblingNotHex { level: usize },
    /// The sibling at a level is not 32 bytes long.
    SiblingLength { level: usize },
    /// The sibling at a level is not below the order of the field.
    SiblingNotCanonical { level: usize },
    /// A complete node that a witness rests on is not in the archive.
    MissingNode { key: MerkleNodeKey },
}

} // verus!
