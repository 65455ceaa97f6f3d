use vstd::prelude::*;

pub mod narrow_mut;

use crate::iter_mut::{AncestorsMut, LevelOrder, NextSiblingsMut, PostOrderMut, PreOrder};
use crate::model::{ancestor_chain, chain, level_tree, post_tree, pre_tree};
use crate::behaviors::RemoveBehavior;
use crate::tree::{Node, NodeId, Tree};

verus! {

/// An exclusive mutable handle to one node: a lightweight index that
/// re-borrows the owning arena on every operation, so the borrow checker
/// guarantees that no two live handles mutate the same node at once.
#[derive(Clone, Copy, PartialEq, Eq, Structural, Debug)]
pub struct NodeMut {
    pub id: NodeId,
}

/// A read-only handle to one node.
#[derive(Clone, Copy, PartialEq, Eq, Structural, Debug)]
pub struct NodeRef {
    pub id: NodeId,
}

impl NodeRef {
    pub fn new(id: NodeId) -> (r: NodeRef)
        ensures
            r.id == id,
    {
        NodeRef { id }
    }

    /// The id that identifies this node in the tree.
    pub fn node_id(&self) -> (r: NodeId)
        ensures
            r == self.id,
    {
        self.id
    }

    /// Borrow the data contained by this node.
    pub fn data<'a, T>(&self, tree: &'a Tree<T>) -> (r: &'a T)
        requires
            tree.live(self.id.index),
        ensures
            *r == tree.data_of(self.id.index),
    {
        tree.data(self.id)
    }

    /// This node's first child, if it has one.
    pub fn first_child<T>(&self, tree: &Tree<T>) -> (r: Option<NodeRef>)
        requires
            tree.live(self.id.index),
        ensures
            match r {
                Some(c) => tree.first_child_of(self.id.index) == Some(c.id.index),
                None => tree.first_child_of(self.id.index) is None,
            },
    {
        match tree.get_node(self.id.index).first_child {
            Some(c) => Some(NodeRef { id: NodeId { index: c } }),
            None => None,
        }
    }

    /// This node's last child, if it has one.
    pub fn last_child<T>(&self, tree: &Tree<T>) -> (r: Option<NodeRef>)
        requires
            tree.live(self.id.index),
        ensures
            match r {
                Some(c) => tree.last_child_of(self.id.index) == Some(c.id.index),
                None => tree.last_child_of(self.id.index) is None,
            },
    {
        match tree.get_node(self.id.index).last_child {
            Some(c) => Some(NodeRef { id: NodeId { index: c } }),
            None => None,
        }
    }
}

impl NodeMut {
    pub fn new(id: NodeId) -> (r: NodeMut)
        ensures
            r.id == id,
    {
        NodeMut { id }
    }

    /// The id that identifies this node in the tree.
    pub fn node_id(&self) -> (r: NodeId)
        ensures
            r == self.id,
    {
        self.id
    }

    /// Borrow the data contained by this node.
    pub fn data<'a, T>(&self, tree: &'a Tree<T>) -> (r: &'a T)
        requires
            tree.live(self.id.index),
        ensures
            *r == tree.data_of(self.id.index),
    {
        tree.data(self.id)
    }

    /// Mutably borrow the data contained by this node.  Only this node's
    /// payload changes; the structure and all other nodes stay as they are.
    pub fn data_mut<'a, T>(&self, tree: &'a mut Tree<T>) -> (r: &'a mut T)
        requires
            old(tree).live(self.id.index),
        ensures
            *r == old(tree).data_of(self.id.index),
            final(tree).slots@ == old(tree).slots@.update(
                self.id.index as int,
                Some(Node { data: *final(r), ..old(tree).node_of(self.id.index) }),
            ),
            final(tree).root == old(tree).root,
            final(tree).depth == old(tree).depth,
            final(tree).rank == old(tree).rank,
    {
        tree.data_mut(self.id)
    }

    /// A handle to this node's first child, if it has one.
    pub fn first_child<T>(&self, tree: &Tree<T>) -> (r: Option<NodeMut>)
        requires
            tree.live(self.id.index),
        ensures
            match r {
                Some(c) => tree.first_child_of(self.id.index) == Some(c.id.index),
                None => tree.first_child_of(self.id.index) is None,
            },
    {
        match tree.get_node(self.id.index).first_child {
            Some(c) => Some(NodeMut { id: NodeId { index: c } }),
            None => None,
        }
    }

    /// A handle to this node's last child, if it has one.
    pub fn last_child<T>(&self, tree: &Tree<T>) -> (r: Option<NodeMut>)
        requires
            tree.live(self.id.index),
        ensures
            match r {
                Some(c) => tree.last_child_of(self.id.index) == Some(c.id.index),
                None => tree.last_child_of(self.id.index) is None,
            },
    {
        match tree.get_node(self.id.index).last_child {
            Some(c) => Some(NodeMut { id: NodeId { index: c } }),
            None => None,
        }
    }

    /// Downgrade to a read-only reference.
    pub fn as_ref(&self) -> (r: NodeRef)
        ensures
            r.id == self.id,
    {
        NodeRef { id: self.id }
    }
}

impl NodeMut {
    /// A cursor over this node's strict ancestors: parent, grandparent,
    /// ..., root.
    pub fn ancestors_mut<T>(&self, tree: &Tree<T>) -> (r: AncestorsMut)
        requires
            tree.wf(),
            tree.live(self.id.index),
        ensures
            r.ok(*tree),
            r.remaining(*tree) == ancestor_chain(*tree, self.id.index),
    {
        AncestorsMut::new(Some(self.id))
    }

    /// A cursor over this node's children, left to right.
    pub fn children_mut<T>(&self, tree: &Tree<T>) -> (r: NextSiblingsMut)
        requires
            tree.wf(),
            tree.live(self.id.index),
        ensures
            r.ok(*tree),
            r.remaining(*tree) == chain(*tree, tree.first_child_of(self.id.index)),
    {
        proof {
            assert(tree.wf_node(self.id.index));
        }
        let nd = tree.get_node(self.id.index);
        NextSiblingsMut::new(
            match nd.first_child {
                Some(c) => Some(NodeId { index: c }),
                None => None,
            },
        )
    }

    /// A depth-first pre-order cursor over the subtree rooted here.
    pub fn traverse_pre_order_mut<T>(&self, tree: &Tree<T>) -> (r: PreOrder)
        requires
            tree.wf(),
            tree.live(self.id.index),
        ensures
            r.ok(*tree),
            r.remaining(*tree) == pre_tree(*tree, self.id.index),
    {
        PreOrder::new(self, tree)
    }

    /// A depth-first post-order cursor over the subtree rooted here.
    pub fn traverse_post_order_mut<T>(&self, tree: &Tree<T>) -> (r: PostOrderMut)
        requires
            tree.wf(),
            tree.live(self.id.index),
        ensures
            r.ok(*tree),
            r.remaining(*tree) == post_tree(*tree, self.id.index),
    {
        PostOrderMut::new(self, tree)
    }

    /// A breadth-first (level-order) cursor over the subtree rooted here.
    pub fn traverse_level_order_mut<T>(&self, tree: &Tree<T>) -> (r: LevelOrder)
        requires
            tree.wf(),
            tree.live(self.id.index),
        ensures
            r.ok(*tree),
            r.remaining(*tree) == level_tree(*tree, self.id.index),
    {
        LevelOrder::new(self, tree)
    }

    /// Insert a new node as this node's last child; a handle to it is
    /// returned.
    pub fn append<T>(&self, tree: &mut Tree<T>, data: T) -> (r: NodeMut)
        requires
            old(tree).wf(),
            old(tree).live(self.id.index),
        ensures
            final(tree).wf(),
            final(tree).live(r.id.index),
            !old(tree).live(r.id.index),
            final(tree).parent_of(r.id.index) == Some(self.id.index),
            final(tree).last_child_of(self.id.index) == Some(r.id.index),
            final(tree).data_of(r.id.index) == data,
            Tree::with_appended_child(*old(tree), *final(tree), self.id.index, r.id.index, data),
    {
        let id = tree.append_child(self.id, data);
        NodeMut { id }
    }

    /// Insert a new node as this node's first child; a handle to it is
    /// returned.
    pub fn prepend<T>(&self, tree: &mut Tree<T>, data: T) -> (r: NodeMut)
        requires
            old(tree).wf(),
            old(tree).live(self.id.index),
        ensures
            final(tree).wf(),
            final(tree).live(r.id.index),
            !old(tree).live(r.id.index),
            final(tree).parent_of(r.id.index) == Some(self.id.index),
            final(tree).first_child_of(self.id.index) == Some(r.id.index),
            final(tree).data_of(r.id.index) == data,
            Tree::with_prepended_child(*old(tree), *final(tree), self.id.index, r.id.index, data),
    {
        let id = tree.prepend_child(self.id, data);
        NodeMut { id }
    }
}

impl<T> Tree<T> {
    /// An exclusive handle to the node with the given id, if it is live.
    pub fn get_mut(&self, id: NodeId) -> (r: Option<NodeMut>)
        ensures
            match r {
                Some(nm) => self.live(id.index) && nm.id == id,
                None => !self.live(id.index),
            },
    {
        if id.index < self.slots.len() {
            match &self.slots[id.index] {
                Some(_) => Some(NodeMut { id }),
                None => None,
            }
        } else {
            None
        }
    }

    /// An exclusive handle to the root node, if the tree has one.
    pub fn root_mut(&self) -> (r: Option<NodeMut>)
        requires
            self.wf(),
        ensures
            match r {
                Some(nm) => self.root == Some(nm.id.index) && self.live(nm.id.index),
                None => self.root is None,
            },
    {
        match self.root {
            Some(r) => Some(NodeMut { id: NodeId { index: r } }),
            None => None,
        }
    }
}

impl NodeMut {
    /// Remove this node's first child and return the data it contained, or
    /// signal absence.
    pub fn remove_first<T>(&self, tree: &mut Tree<T>, behavior: RemoveBehavior) -> (r: Option<T>)
        requires
            old(tree).wf(),
            old(tree).live(self.id.index),
        ensures
            final(tree).wf(),
            Tree::first_removed(*old(tree), *final(tree), self.id.index, behavior, r),
    {
        tree.remove_first(self.id, behavior)
    }

    /// Remove this node's last child and return the data it contained, or
    /// signal absence.
    pub fn remove_last<T>(&self, tree: &mut Tree<T>, behavior: RemoveBehavior) -> (r: Option<T>)
        requires
            old(tree).wf(),
            old(tree).live(self.id.index),
        ensures
            final(tree).wf(),
            Tree::last_removed(*old(tree), *final(tree), self.id.index, behavior, r),
    {
        tree.remove_last(self.id, behavior)
    }
}

} // verus!
