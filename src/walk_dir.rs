//! Direction taken to reach a node from its parent.
use vstd::prelude::*;

verus! {

/// How a node was entered during a walk down the tree.
#[derive(Clone, Copy, Debug, PartialEq, Eq, Structural)]
pub enum WalkedDirection {
    /// Entered the root node of the tree
    Down,
    /// Entered the left child
    Left,
    /// Entered the right child
    Right,
}

impl WalkedDirection {
    /// `Right` if `side` is true, otherwise `Left`.
    pub fn from_side(side: bool) -> (r: WalkedDirection)
        ensures
            r == (if side {
                WalkedDirection::Right
            } else {
                WalkedDirection::Left
            }),
    {
        if side {
            WalkedDirection::Right
        } else {
            WalkedDirection::Left
        }
    }
}

} // verus!
