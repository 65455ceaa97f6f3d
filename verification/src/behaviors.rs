use vstd::prelude::*;

verus! {

/// Policy for what happens to a removed node's children.
#[derive(Clone, Copy, PartialEq, Eq, Structural, Debug)]
pub enum RemoveBehavior {
    /// Free the removed node's entire subtree from the arena.
    DropChildren,
    /// Detach the removed node's children, keeping them allocated and
    /// structurally consistent among themselves.
    OrphanChildren,
}

} // verus!
