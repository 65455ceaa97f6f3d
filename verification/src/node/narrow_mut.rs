use vstd::prelude::*;

use crate::behaviors::RemoveBehavior;
use crate::iter_mut::NextSiblingsMut;
use crate::model::chain;
use crate::node::{NodeMut, NodeRef};
use crate::tree::{Node, NodeId, Tree};

verus! {

/// A mutable handle restricted to one node's data and its children.
///
/// It deliberately omits parent, sibling and root navigation, so a cursor
/// can hand out access to a node without letting the caller climb back to
/// nodes the cursor itself still tracks.
#[derive(Clone, Copy, PartialEq, Eq, Structural, Debug)]
pub struct NarrowMut {
    pub inner: NodeMut,
}

impl NarrowMut {
    pub fn new(inner: NodeMut) -> (r: NarrowMut)
        ensures
            r.inner == inner,
    {
        NarrowMut { inner }
    }

    /// A cursor over this node's children, left to right.
    pub fn children_mut<T>(&self, tree: &Tree<T>) -> (r: NextSiblingsMut)
        requires
            tree.wf(),
            tree.live(self.inner.id.index),
        ensures
            r.ok(*tree),
            r.remaining(*tree) == chain(*tree, tree.first_child_of(self.inner.id.index)),
    {
        self.inner.children_mut(tree)
    }

    /// The id that identifies this node in the tree.
    pub fn node_id(&self) -> (r: NodeId)
        ensures
            r == self.inner.id,
    {
        self.inner.node_id()
    }

    /// Borrow the data contained by this node.
    pub fn data<'a, T>(&self, tree: &'a Tree<T>) -> (r: &'a T)
        requires
            tree.live(self.inner.id.index),
        ensures
            *r == tree.data_of(self.inner.id.index),
    {
        self.inner.data(tree)
    }

    /// Mutably borrow the data contained by this node.
    pub fn data_mut<'a, T>(&self, tree: &'a mut Tree<T>) -> (r: &'a mut T)
        requires
            old(tree).live(self.inner.id.index),
        ensures
            *r == old(tree).data_of(self.inner.id.index),
            final(tree).slots@ == old(tree).slots@.update(
                self.inner.id.index as int,
                Some(Node { data: *final(r), ..old(tree).node_of(self.inner.id.index) }),
            ),
            final(tree).root == old(tree).root,
            final(tree).depth == old(tree).depth,
            final(tree).rank == old(tree).rank,
    {
        self.inner.data_mut(tree)
    }

    /// A restricted handle to this node's first child, if it has one.
    pub fn first_child<T>(&self, tree: &Tree<T>) -> (r: Option<NarrowMut>)
        requires
            tree.live(self.inner.id.index),
        ensures
            match r {
                Some(c) => tree.first_child_of(self.inner.id.index) == Some(c.inner.id.index),
                None => tree.first_child_of(self.inner.id.index) is None,
            },
    {
        match self.inner.first_child(tree) {
            Some(c) => Some(NarrowMut { inner: c }),
            None => None,
        }
    }

    /// A restricted handle to this node's last child, if it has one.
    pub fn last_child<T>(&self, tree: &Tree<T>) -> (r: Option<NarrowMut>)
        requires
            tree.live(self.inner.id.index),
        ensures
            match r {
                Some(c) => tree.last_child_of(self.inner.id.index) == Some(c.inner.id.index),
                None => tree.last_child_of(self.inner.id.index) is None,
            },
    {
        match self.inner.last_child(tree) {
            Some(c) => Some(NarrowMut { inner: c }),
            None => None,
        }
    }

    /// Insert a new node as this node's last child (and first child if it
    /// had none); a restricted handle to it is returned.
    pub fn append<T>(&self, tree: &mut Tree<T>, data: T) -> (r: NarrowMut)
        requires
            old(tree).wf(),
            old(tree).live(self.inner.id.index),
        ensures
            final(tree).wf(),
            final(tree).live(r.inner.id.index),
            !old(tree).live(r.inner.id.index),
            Tree::with_appended_child(
                *old(tree),
                *final(tree),
                self.inner.id.index,
                r.inner.id.index,
                data,
            ),
    {
        NarrowMut { inner: self.inner.append(tree, data) }
    }

    /// Insert a new node as this node's first child (and last child if it
    /// had none); a restricted handle to it is returned.
    pub fn prepend<T>(&self, tree: &mut Tree<T>, data: T) -> (r: NarrowMut)
        requires
            old(tree).wf(),
            old(tree).live(self.inner.id.index),
        ensures
            final(tree).wf(),
            final(tree).live(r.inner.id.index),
            !old(tree).live(r.inner.id.index),
            Tree::with_prepended_child(
                *old(tree),
                *final(tree),
                self.inner.id.index,
                r.inner.id.index,
                data,
            ),
    {
        NarrowMut { inner: self.inner.prepend(tree, data) }
    }

    /// Remove this node's first child and return the data it contained, or
    /// signal absence.  `behavior` decides whether the child's descendants
    /// are dropped with it or orphaned.
    pub fn remove_first<T>(&self, tree: &mut Tree<T>, behavior: RemoveBehavior) -> (r: Option<T>)
        requires
            old(tree).wf(),
            old(tree).live(self.inner.id.index),
        ensures
            final(tree).wf(),
            Tree::first_removed(*old(tree), *final(tree), self.inner.id.index, behavior, r),
    {
        tree.remove_first(self.inner.id, behavior)
    }

    /// Remove this node's last child and return the data it contained, or
    /// signal absence.
    pub fn remove_last<T>(&self, tree: &mut Tree<T>, behavior: RemoveBehavior) -> (r: Option<T>)
        requires
            old(tree).wf(),
            old(tree).live(self.inner.id.index),
        ensures
            final(tree).wf(),
            Tree::last_removed(*old(tree), *final(tree), self.inner.id.index, behavior, r),
    {
        tree.remove_last(self.inner.id, behavior)
    }

    /// Downgrade to a read-only reference.
    pub fn as_ref(&self) -> (r: NodeRef)
        ensures
            r.id == self.inner.id,
    {
        self.inner.as_ref()
    }
}

} // verus!
