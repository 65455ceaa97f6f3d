//! An in-memory, single-parent tree stored in a flat node arena, with
//! verified mutable traversal cursors.
//!
//! The arena ([`tree::Tree`]) owns every node; handles ([`node::NodeMut`],
//! [`node::narrow_mut::NarrowMut`]) are lightweight indices that re-borrow
//! the arena on each operation, so no two handles can mutate the same node
//! at once.  The cursor family ([`iter_mut`]) walks the structure lazily,
//! one explicit stack or queue step at a time, and each cursor's contract
//! pins the exact sequence of nodes it will produce.

pub mod behaviors;
pub mod iter_mut;
pub mod model;
pub mod node;
pub mod tree;

pub use behaviors::RemoveBehavior;
pub use tree::{NodeId, Tree};
