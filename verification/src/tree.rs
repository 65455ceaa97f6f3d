use vstd::prelude::*;

use crate::behaviors::RemoveBehavior;
use crate::iter_mut::PreOrder;
use crate::model::{
    chain, in_subtree, lemma_chain_complete, lemma_chain_frame, lemma_chain_props,
    lemma_drop_live_set, lemma_outside_subtree_survives, lemma_pre_tree_membership,
    lemma_subtree_closed, pre_tree,
};
use crate::node::NodeMut;

verus! {

/// Opaque, stable identifier of a node slot in the arena.
#[derive(Clone, Copy, PartialEq, Eq, Structural, Debug)]
pub struct NodeId {
    pub index: usize,
}

/// One node of the tree: its structural links and its payload.
///
/// Every link is an index into the owning arena, never an owning edge.
pub struct Node<T> {
    pub parent: Option<usize>,
    pub prev_sibling: Option<usize>,
    pub next_sibling: Option<usize>,
    pub first_child: Option<usize>,
    pub last_child: Option<usize>,
    pub data: T,
}

/// The arena: sole owner of all nodes, addressed by index.
///
/// A slot holding `None` is a freed node; its index is never reused, so a
/// stale id can never be reinterpreted as a different live node.
///
/// The two ghost maps carry a depth and a sibling-position measure for each
/// live node; they exist only so that walking parent links and sibling links
/// provably terminates.
pub struct Tree<T> {
    pub slots: Vec<Option<Node<T>>>,
    pub root: Option<usize>,
    pub depth: Ghost<Map<usize, int>>,
    pub rank: Ghost<Map<usize, int>>,
}

impl<T> Tree<T> {
    /// Number of slots ever allocated (live or freed).
    pub open spec fn n(self) -> int {
        self.slots@.len() as int
    }

    /// Does `i` denote a currently-live node?
    pub open spec fn live(self, i: usize) -> bool {
        i < self.slots@.len() && self.slots@[i as int] is Some
    }

    pub open spec fn node_of(self, i: usize) -> Node<T>
        recommends
            self.live(i),
    {
        self.slots@[i as int]->0
    }

    pub open spec fn parent_of(self, i: usize) -> Option<usize> {
        self.node_of(i).parent
    }

    pub open spec fn prev_of(self, i: usize) -> Option<usize> {
        self.node_of(i).prev_sibling
    }

    pub open spec fn next_of(self, i: usize) -> Option<usize> {
        self.node_of(i).next_sibling
    }

    pub open spec fn first_child_of(self, i: usize) -> Option<usize> {
        self.node_of(i).first_child
    }

    pub open spec fn last_child_of(self, i: usize) -> Option<usize> {
        self.node_of(i).last_child
    }

    pub open spec fn data_of(self, i: usize) -> T {
        self.node_of(i).data
    }

    pub open spec fn depth_of(self, i: usize) -> int {
        self.depth@[i]
    }

    pub open spec fn rank_of(self, i: usize) -> int {
        self.rank@[i]
    }

    /// The local link invariant of one live node: every link points at a
    /// live node, back-links agree with forward links, and the ghost
    /// measures step by one along parent and sibling links.
    pub open spec fn wf_node(self, i: usize) -> bool {
        let nd = self.node_of(i);
        &&& self.depth@.contains_key(i)
        &&& self.rank@.contains_key(i)
        &&& 0 <= self.depth_of(i) < self.n()
        &&& -self.n() <= self.rank_of(i) < self.n()
        &&& match nd.parent {
            Some(p) => self.live(p) && self.depth_of(i) == self.depth_of(p) + 1,
            None => true,
        }
        &&& match nd.next_sibling {
            Some(s) => self.live(s) && self.node_of(s).prev_sibling == Some(i)
                && self.node_of(s).parent == nd.parent && self.rank_of(s) == self.rank_of(i) + 1
                && self.depth_of(s) == self.depth_of(i),
            None => match nd.parent {
                Some(p) => self.node_of(p).last_child == Some(i),
                None => true,
            },
        }
        &&& match nd.prev_sibling {
            Some(q) => self.live(q) && self.node_of(q).next_sibling == Some(i)
                && self.node_of(q).parent == nd.parent && self.rank_of(i) == self.rank_of(q) + 1,
            None => match nd.parent {
                Some(p) => self.node_of(p).first_child == Some(i),
                None => true,
            },
        }
        &&& match nd.first_child {
            Some(c) => self.live(c) && self.node_of(c).parent == Some(i)
                && self.node_of(c).prev_sibling is None,
            None => true,
        }
        &&& match nd.last_child {
            Some(l) => self.live(l) && self.node_of(l).parent == Some(i)
                && self.node_of(l).next_sibling is None,
            None => true,
        }
        &&& (nd.first_child is Some <==> nd.last_child is Some)
    }

    /// Well-formedness of the whole arena.
    pub open spec fn wf(self) -> bool {
        &&& match self.root {
            Some(r) => self.live(r) && self.node_of(r).parent is None,
            None => true,
        }
        &&& forall|i: usize| #[trigger] self.live(i) ==> self.wf_node(i)
    }

    /// A fresh tree holding a single root node with the given payload.
    pub fn new(root_data: T) -> (t: Tree<T>)
        ensures
            t.wf(),
            t.root == Some(0usize),
            t.n() == 1,
            t.live(0),
            t.data_of(0) == root_data,
            t.parent_of(0) is None,
            t.first_child_of(0) is None,
    {
        let mut slots: Vec<Option<Node<T>>> = Vec::new();
        slots.push(Some(Node {
            parent: None,
            prev_sibling: None,
            next_sibling: None,
            first_child: None,
            last_child: None,
            data: root_data,
        }));
        let t = Tree {
            slots,
            root: Some(0),
            depth: Ghost(Map::empty().insert(0usize, 0int)),
            rank: Ghost(Map::empty().insert(0usize, 0int)),
        };
        proof {
            assert forall|i: usize| #[trigger] t.live(i) implies t.wf_node(i) by {
                assert(i == 0);
            }
        }
        t
    }

    /// Borrow the node stored at a live index.
    pub fn get_node(&self, i: usize) -> (r: &Node<T>)
        requires
            self.live(i),
        ensures
            *r == self.node_of(i),
    {
        match &self.slots[i] {
            Some(nd) => nd,
            None => vstd::pervasive::unreached(),
        }
    }

    /// Mutably borrow the node stored at a live index.
    fn get_node_mut(&mut self, i: usize) -> (r: &mut Node<T>)
        requires
            old(self).live(i),
        ensures
            *r == old(self).node_of(i),
            final(self).slots@ == old(self).slots@.update(i as int, Some(*final(r))),
            final(self).root == old(self).root,
            final(self).depth == old(self).depth,
            final(self).rank == old(self).rank,
    {
        let slot = &mut self.slots[i];
        match slot {
            Some(nd) => nd,
            None => vstd::pervasive::unreached(),
        }
    }

    /// Borrow the payload of a live node.
    pub fn data(&self, id: NodeId) -> (r: &T)
        requires
            self.live(id.index),
        ensures
            *r == self.data_of(id.index),
    {
        &self.get_node(id.index).data
    }

    /// Mutably borrow the payload of a live node.  Only the payload can
    /// change through the returned reference; the structure is untouched.
    pub fn data_mut(&mut self, id: NodeId) -> (r: &mut T)
        requires
            old(self).live(id.index),
        ensures
            *r == old(self).data_of(id.index),
            final(self).slots@ == old(self).slots@.update(
                id.index as int,
                Some(Node { data: *final(r), ..old(self).node_of(id.index) }),
            ),
            final(self).root == old(self).root,
            final(self).depth == old(self).depth,
            final(self).rank == old(self).rank,
    {
        &mut self.get_node_mut(id.index).data
    }
}


impl<T> Tree<T> {
    /// How `post` relates to `pre` after a new node `c` holding `data` was
    /// appended as the last child of `p`: one fresh live node, the parent's
    /// child bounds updated, the former last child relinked, and every
    /// other node untouched.
    pub open spec fn with_appended_child(pre: Tree<T>, post: Tree<T>, p: usize, c: usize, data: T) -> bool {
        &&& post.n() == pre.n() + 1
        &&& c as int == pre.n()
        &&& !pre.live(c)
        &&& post.live(c)
        &&& (forall|j: usize| post.live(j) <==> (pre.live(j) || j == c))
        &&& post.parent_of(c) == Some(p)
        &&& post.next_of(c) is None
        &&& post.prev_of(c) == pre.last_child_of(p)
        &&& post.first_child_of(c) is None
        &&& post.last_child_of(c) is None
        &&& post.data_of(c) == data
        &&& post.last_child_of(p) == Some(c)
        &&& post.first_child_of(p) == (match pre.first_child_of(p) {
            Some(f) => Some(f),
            None => Some(c),
        })
        &&& post.node_of(p) == (Node {
            first_child: post.first_child_of(p),
            last_child: Some(c),
            ..pre.node_of(p)
        })
        &&& match pre.last_child_of(p) {
            Some(l) => post.node_of(l) == (Node { next_sibling: Some(c), ..pre.node_of(l) }),
            None => true,
        }
        &&& (forall|j: usize|
            pre.live(j) && j != p && Some(j) != pre.last_child_of(p) ==> post.node_of(j)
                == pre.node_of(j))
        &&& post.root == pre.root
    }

    /// How `post` relates to `pre` after a new node `c` holding `data` was
    /// prepended as the first child of `p`.
    pub open spec fn with_prepended_child(pre: Tree<T>, post: Tree<T>, p: usize, c: usize, data: T) -> bool {
        &&& post.n() == pre.n() + 1
        &&& c as int == pre.n()
        &&& !pre.live(c)
        &&& post.live(c)
        &&& (forall|j: usize| post.live(j) <==> (pre.live(j) || j == c))
        &&& post.parent_of(c) == Some(p)
        &&& post.prev_of(c) is None
        &&& post.next_of(c) == pre.first_child_of(p)
        &&& post.first_child_of(c) is None
        &&& post.last_child_of(c) is None
        &&& post.data_of(c) == data
        &&& post.first_child_of(p) == Some(c)
        &&& post.last_child_of(p) == (match pre.last_child_of(p) {
            Some(l) => Some(l),
            None => Some(c),
        })
        &&& post.node_of(p) == (Node {
            first_child: Some(c),
            last_child: post.last_child_of(p),
            ..pre.node_of(p)
        })
        &&& match pre.first_child_of(p) {
            Some(f) => post.node_of(f) == (Node { prev_sibling: Some(c), ..pre.node_of(f) }),
            None => true,
        }
        &&& (forall|j: usize|
            pre.live(j) && j != p && Some(j) != pre.first_child_of(p) ==> post.node_of(j)
                == pre.node_of(j))
        &&& post.root == pre.root
    }
}

impl<T> Tree<T> {
    /// Insert a new node holding `data` as the last child of `id` (and its
    /// first child if it had none).  Every existing node keeps its identity,
    /// payload and links, except the parent's child bounds and the former
    /// last child's `next_sibling`.
    #[verifier::rlimit(100)]
    #[verifier::spinoff_prover]
    pub fn append_child(&mut self, id: NodeId, data: T) -> (r: NodeId)
        requires
            old(self).wf(),
            old(self).live(id.index),
        ensures
            final(self).wf(),
            Tree::with_appended_child(*old(self), *final(self), id.index, r.index, data),
    {
        let idx = self.slots.len();
        let old_last = self.get_node(id.index).last_child;
        proof {
            assert(old(self).wf_node(id.index));
            match old_last {
                Some(l) => {
                    assert(old(self).wf_node(l));
                }
                None => {}
            }
        }
        self.slots.push(Some(Node {
            parent: Some(id.index),
            prev_sibling: old_last,
            next_sibling: None,
            first_child: None,
            last_child: None,
            data,
        }));
        self.depth = Ghost(self.depth@.insert(idx, self.depth@[id.index] + 1));
        self.rank = Ghost(self.rank@.insert(
            idx,
            match old_last {
                Some(l) => self.rank@[l] + 1,
                None => 0int,
            },
        ));
        match old_last {
            Some(l) => {
                let n = self.get_node_mut(l);
                n.next_sibling = Some(idx);
            }
            None => {
                let n = self.get_node_mut(id.index);
                n.first_child = Some(idx);
            }
        }
        let p = self.get_node_mut(id.index);
        p.last_child = Some(idx);
        proof {
            assert forall|j: usize| #[trigger] self.live(j) implies self.wf_node(j) by {
                if j == idx {
                } else {
                    assert(old(self).live(j));
                    assert(old(self).wf_node(j));
                    match old(self).node_of(j).parent {
                        Some(pj) => {
                            assert(old(self).wf_node(pj));
                        }
                        None => {}
                    }
                }
            }
        }
        NodeId { index: idx }
    }

    /// Insert a new node holding `data` as the first child of `id` (and its
    /// last child if it had none).  Every existing node keeps its identity,
    /// payload and links, except the parent's child bounds and the former
    /// first child's `prev_sibling`.
    #[verifier::rlimit(100)]
    #[verifier::spinoff_prover]
    pub fn prepend_child(&mut self, id: NodeId, data: T) -> (r: NodeId)
        requires
            old(self).wf(),
            old(self).live(id.index),
        ensures
            final(self).wf(),
            Tree::with_prepended_child(*old(self), *final(self), id.index, r.index, data),
    {
        let idx = self.slots.len();
        let old_first = self.get_node(id.index).first_child;
        proof {
            assert(old(self).wf_node(id.index));
            match old_first {
                Some(c) => {
                    assert(old(self).wf_node(c));
                }
                None => {}
            }
        }
        self.slots.push(Some(Node {
            parent: Some(id.index),
            prev_sibling: None,
            next_sibling: old_first,
            first_child: None,
            last_child: None,
            data,
        }));
        self.depth = Ghost(self.depth@.insert(idx, self.depth@[id.index] + 1));
        self.rank = Ghost(self.rank@.insert(
            idx,
            match old_first {
                Some(c) => self.rank@[c] - 1,
                None => 0int,
            },
        ));
        match old_first {
            Some(c) => {
                let n = self.get_node_mut(c);
                n.prev_sibling = Some(idx);
            }
            None => {
                let n = self.get_node_mut(id.index);
                n.last_child = Some(idx);
            }
        }
        let p = self.get_node_mut(id.index);
        p.first_child = Some(idx);
        proof {
            assert forall|j: usize| #[trigger] self.live(j) implies self.wf_node(j) by {
                if j == idx {
                } else {
                    assert(old(self).live(j));
                    assert(old(self).wf_node(j));
                    match old(self).node_of(j).parent {
                        Some(pj) => {
                            assert(old(self).wf_node(pj));
                        }
                        None => {}
                    }
                }
            }
        }
        NodeId { index: idx }
    }
}


/// Well-formedness is preserved by unlinking the first child `c` of `p`:
/// the relinked parent, sibling and `c` itself still satisfy every local
/// clause.
#[verifier::rlimit(100)]
#[verifier::spinoff_prover]
proof fn lemma_detach_first_wf<T>(t0: Tree<T>, t1: Tree<T>, p: usize, c: usize)
    requires
        t0.wf(),
        t0.live(p),
        t0.first_child_of(p) == Some(c),
        t1.n() == t0.n(),
        t1.depth@ == t0.depth@,
        t1.rank@ == t0.rank@,
        t1.root == t0.root,
        forall|j: usize| t1.live(j) <==> t0.live(j),
        t1.node_of(c) == (Node { parent: None, next_sibling: None, ..t0.node_of(c) }),
        match t0.next_of(c) {
            Some(s) => t1.node_of(s) == (Node { prev_sibling: None, ..t0.node_of(s) })
                && t1.node_of(p) == (Node { first_child: Some(s), ..t0.node_of(p) }),
            None => t1.node_of(p) == (Node {
                first_child: None,
                last_child: None,
                ..t0.node_of(p)
            }),
        },
        forall|j: usize|
            t0.live(j) && j != p && j != c && Some(j) != t0.next_of(c) ==> t1.node_of(j)
                == t0.node_of(j),
    ensures
        t1.wf(),
{
    assert(t0.wf_node(p));
    assert(t0.wf_node(c));
    match t0.next_of(c) {
        Some(s) => {
            assert(t0.wf_node(s));
        }
        None => {}
    }
    assert forall|j: usize| #[trigger] t1.live(j) implies t1.wf_node(j) by {
        assert(t0.live(j));
        assert(t0.wf_node(j));
        match t0.node_of(j).parent {
            Some(pj) => {
                assert(t0.wf_node(pj));
            }
            None => {}
        }
    }
}

/// Mirror image of the first-child case, for unlinking the last child.
#[verifier::rlimit(100)]
#[verifier::spinoff_prover]
proof fn lemma_detach_last_wf<T>(t0: Tree<T>, t1: Tree<T>, p: usize, c: usize)
    requires
        t0.wf(),
        t0.live(p),
        t0.last_child_of(p) == Some(c),
        t1.n() == t0.n(),
        t1.depth@ == t0.depth@,
        t1.rank@ == t0.rank@,
        t1.root == t0.root,
        forall|j: usize| t1.live(j) <==> t0.live(j),
        t1.node_of(c) == (Node { parent: None, prev_sibling: None, ..t0.node_of(c) }),
        match t0.prev_of(c) {
            Some(q) => t1.node_of(q) == (Node { next_sibling: None, ..t0.node_of(q) })
                && t1.node_of(p) == (Node { last_child: Some(q), ..t0.node_of(p) }),
            None => t1.node_of(p) == (Node {
                first_child: None,
                last_child: None,
                ..t0.node_of(p)
            }),
        },
        forall|j: usize|
            t0.live(j) && j != p && j != c && Some(j) != t0.prev_of(c) ==> t1.node_of(j)
                == t0.node_of(j),
    ensures
        t1.wf(),
{
    assert(t0.wf_node(p));
    assert(t0.wf_node(c));
    match t0.prev_of(c) {
        Some(q) => {
            assert(t0.wf_node(q));
        }
        None => {}
    }
    assert forall|j: usize| #[trigger] t1.live(j) implies t1.wf_node(j) by {
        assert(t0.live(j));
        assert(t0.wf_node(j));
        match t0.node_of(j).parent {
            Some(pj) => {
                assert(t0.wf_node(pj));
            }
            None => {}
        }
    }
}

/// After freeing a detached node `c` and clearing its children's parent
/// links, the arena is well formed again: the children form consistent
/// orphan sibling runs, and nothing else ever pointed into `c`.
#[verifier::rlimit(100)]
#[verifier::spinoff_prover]
proof fn lemma_orphan_wf<T>(t0: Tree<T>, t2: Tree<T>, c: usize)
    requires
        t0.wf(),
        t0.live(c),
        t0.parent_of(c) is None,
        t0.prev_of(c) is None,
        t0.next_of(c) is None,
        t0.root != Some(c),
        t2.n() == t0.n(),
        t2.depth@ == t0.depth@,
        t2.rank@ == t0.rank@,
        t2.root == t0.root,
        forall|j: usize| t2.live(j) <==> (t0.live(j) && j != c),
        forall|j: usize|
            t2.live(j) && chain(t0, t0.first_child_of(c)).contains(j) ==> t2.node_of(j) == (Node {
                parent: None,
                ..t0.node_of(j)
            }),
        forall|j: usize|
            t2.live(j) && !chain(t0, t0.first_child_of(c)).contains(j) ==> t2.node_of(j)
                == t0.node_of(j),
    ensures
        t2.wf(),
{
    let ch = chain(t0, t0.first_child_of(c));
    assert(t0.wf_node(c));
    lemma_chain_props(t0, t0.first_child_of(c));
    assert forall|m: int| 0 <= m < ch.len() implies t0.live(#[trigger] ch[m]) && t0.parent_of(
        ch[m],
    ) == Some(c) && ch[m] != c by {
        assert(t0.wf_node(ch[m]));
    }
    assert forall|j: usize| #[trigger] t2.live(j) implies t2.wf_node(j) by {
        assert(t0.live(j));
        assert(t0.wf_node(j));
        assert(j != c);
        if ch.contains(j) {
            let mj = choose|mj: int| 0 <= mj < ch.len() && ch[mj] == j;
            if mj < ch.len() - 1 {
                assert(t0.next_of(ch[mj]) == Some(ch[mj + 1]));
                assert(t0.wf_node(ch[mj + 1]));
                assert(ch.contains(ch[mj + 1]));
            }
            if mj > 0 {
                assert(t0.next_of(ch[mj - 1]) == Some(ch[mj]));
                assert(t0.wf_node(ch[mj - 1]));
                assert(ch.contains(ch[mj - 1]));
            }
            match t0.node_of(j).first_child {
                Some(fj) => {
                    assert(t0.wf_node(fj));
                    if ch.contains(fj) {
                        assert(t0.parent_of(fj) == Some(c));
                        assert(false);
                    }
                }
                None => {}
            }
            match t0.node_of(j).last_child {
                Some(lj) => {
                    assert(t0.wf_node(lj));
                    if ch.contains(lj) {
                        assert(t0.parent_of(lj) == Some(c));
                        assert(false);
                    }
                }
                None => {}
            }
        } else {
            if t0.parent_of(j) == Some(c) {
                lemma_chain_complete(t0, c, j);
                assert(false);
            }
            match t0.node_of(j).parent {
                Some(pj) => {
                    assert(t0.wf_node(pj));
                }
                None => {}
            }
            match t0.node_of(j).next_sibling {
                Some(sj) => {
                    assert(t0.wf_node(sj));
                    if ch.contains(sj) {
                        assert(t0.node_of(sj).parent == Some(c));
                        assert(t0.node_of(sj).parent == t0.node_of(j).parent);
                        lemma_chain_complete(t0, c, j);
                        assert(false);
                    }
                }
                None => {}
            }
            match t0.node_of(j).prev_sibling {
                Some(qj) => {
                    assert(t0.wf_node(qj));
                    if ch.contains(qj) {
                        assert(t0.node_of(qj).parent == Some(c));
                        assert(t0.node_of(qj).parent == t0.node_of(j).parent);
                        lemma_chain_complete(t0, c, j);
                        assert(false);
                    }
                }
                None => {}
            }
            match t0.node_of(j).first_child {
                Some(fj) => {
                    assert(t0.wf_node(fj));
                    if ch.contains(fj) {
                        assert(t0.parent_of(fj) == Some(c));
                        assert(false);
                    }
                }
                None => {}
            }
            match t0.node_of(j).last_child {
                Some(lj) => {
                    assert(t0.wf_node(lj));
                    if ch.contains(lj) {
                        assert(t0.parent_of(lj) == Some(c));
                        assert(false);
                    }
                }
                None => {}
            }
        }
    }
}

/// After freeing the whole subtree of a detached node `c`, the remaining
/// arena is well formed: no remaining node ever linked into the subtree.
#[verifier::rlimit(100)]
#[verifier::spinoff_prover]
proof fn lemma_free_wf<T>(t0: Tree<T>, t2: Tree<T>, c: usize)
    requires
        t0.wf(),
        t0.live(c),
        t0.parent_of(c) is None,
        t0.prev_of(c) is None,
        t0.next_of(c) is None,
        t0.root != Some(c),
        t2.n() == t0.n(),
        t2.depth@ == t0.depth@,
        t2.rank@ == t0.rank@,
        t2.root == t0.root,
        forall|j: usize| t2.live(j) <==> (t0.live(j) && !pre_tree(t0, c).contains(j)),
        forall|j: usize| t2.live(j) ==> t2.node_of(j) == t0.node_of(j),
    ensures
        t2.wf(),
{
    lemma_pre_tree_membership(t0, c);
    lemma_subtree_closed(t0, c);
    assert forall|j: usize| #[trigger] t2.live(j) implies t2.wf_node(j) by {
        assert(t0.live(j));
        assert(t0.wf_node(j));
        assert(!pre_tree(t0, c).contains(j));
    }
    match t0.root {
        Some(r) => {
            if pre_tree(t0, c).contains(r) {
                assert(in_subtree(t0, r, c));
                assert(false);
            }
        }
        None => {}
    }
}

impl<T> Tree<T> {
    /// Unlink the first child `c` of `id` from its parent and sibling,
    /// leaving `c` live as a fully detached root of its own subtree.
    #[verifier::rlimit(100)]
    #[verifier::spinoff_prover]
    fn detach_first_child(&mut self, id: NodeId) -> (c: NodeId)
        requires
            old(self).wf(),
            old(self).live(id.index),
            old(self).first_child_of(id.index) is Some,
        ensures
            final(self).wf(),
            Some(c.index) == old(self).first_child_of(id.index),
            final(self).n() == old(self).n(),
            final(self).depth == old(self).depth,
            final(self).rank == old(self).rank,
            final(self).root == old(self).root,
            forall|j: usize| final(self).live(j) <==> old(self).live(j),
            final(self).node_of(c.index) == (Node {
                parent: None,
                next_sibling: None,
                ..old(self).node_of(c.index)
            }),
            final(self).first_child_of(id.index) == old(self).next_of(c.index),
            match old(self).next_of(c.index) {
                Some(s) => final(self).node_of(s) == (Node {
                    prev_sibling: None,
                    ..old(self).node_of(s)
                }) && final(self).node_of(id.index) == (Node {
                    first_child: Some(s),
                    ..old(self).node_of(id.index)
                }),
                None => final(self).node_of(id.index) == (Node {
                    first_child: None,
                    last_child: None,
                    ..old(self).node_of(id.index)
                }),
            },
            forall|j: usize|
                old(self).live(j) && j != id.index && j != c.index && Some(j) != old(self).next_of(
                    c.index,
                ) ==> final(self).node_of(j) == old(self).node_of(j),
    {
        proof {
            assert(old(self).wf_node(id.index));
        }
        let c_idx = match self.get_node(id.index).first_child {
            Some(ci) => ci,
            None => vstd::pervasive::unreached(),
        };
        proof {
            assert(old(self).wf_node(c_idx));
        }
        let s_opt = self.get_node(c_idx).next_sibling;
        {
            let ncm = self.get_node_mut(c_idx);
            ncm.parent = None;
            ncm.next_sibling = None;
        }
        match s_opt {
            Some(s) => {
                proof {
                    assert(old(self).wf_node(s));
                }
                {
                    let nsm = self.get_node_mut(s);
                    nsm.prev_sibling = None;
                }
                let pm = self.get_node_mut(id.index);
                pm.first_child = Some(s);
            }
            None => {
                let pm = self.get_node_mut(id.index);
                pm.first_child = None;
                pm.last_child = None;
            }
        }
        proof {
            lemma_detach_first_wf(*old(self), *self, id.index, c_idx);
        }
        NodeId { index: c_idx }
    }

    /// Unlink the last child `c` of `id` from its parent and sibling,
    /// leaving `c` live as a fully detached root of its own subtree.
    #[verifier::rlimit(100)]
    #[verifier::spinoff_prover]
    fn detach_last_child(&mut self, id: NodeId) -> (c: NodeId)
        requires
            old(self).wf(),
            old(self).live(id.index),
            old(self).last_child_of(id.index) is Some,
        ensures
            final(self).wf(),
            Some(c.index) == old(self).last_child_of(id.index),
            final(self).n() == old(self).n(),
            final(self).depth == old(self).depth,
            final(self).rank == old(self).rank,
            final(self).root == old(self).root,
            forall|j: usize| final(self).live(j) <==> old(self).live(j),
            final(self).node_of(c.index) == (Node {
                parent: None,
                prev_sibling: None,
                ..old(self).node_of(c.index)
            }),
            final(self).last_child_of(id.index) == old(self).prev_of(c.index),
            match old(self).prev_of(c.index) {
                Some(q) => final(self).node_of(q) == (Node {
                    next_sibling: None,
                    ..old(self).node_of(q)
                }) && final(self).node_of(id.index) == (Node {
                    last_child: Some(q),
                    ..old(self).node_of(id.index)
                }),
                None => final(self).node_of(id.index) == (Node {
                    first_child: None,
                    last_child: None,
                    ..old(self).node_of(id.index)
                }),
            },
            forall|j: usize|
                old(self).live(j) && j != id.index && j != c.index && Some(j) != old(self).prev_of(
                    c.index,
                ) ==> final(self).node_of(j) == old(self).node_of(j),
    {
        proof {
            assert(old(self).wf_node(id.index));
        }
        let c_idx = match self.get_node(id.index).last_child {
            Some(ci) => ci,
            None => vstd::pervasive::unreached(),
        };
        proof {
            assert(old(self).wf_node(c_idx));
        }
        let q_opt = self.get_node(c_idx).prev_sibling;
        {
            let ncm = self.get_node_mut(c_idx);
            ncm.parent = None;
            ncm.prev_sibling = None;
        }
        match q_opt {
            Some(q) => {
                proof {
                    assert(old(self).wf_node(q));
                }
                {
                    let nqm = self.get_node_mut(q);
                    nqm.next_sibling = None;
                }
                let pm = self.get_node_mut(id.index);
                pm.last_child = Some(q);
            }
            None => {
                let pm = self.get_node_mut(id.index);
                pm.first_child = None;
                pm.last_child = None;
            }
        }
        proof {
            lemma_detach_last_wf(*old(self), *self, id.index, c_idx);
        }
        NodeId { index: c_idx }
    }

    /// Free a fully detached node `c`, first clearing the parent link of
    /// each of its children so they stay behind as mutually consistent
    /// orphan roots.  Returns `c`'s payload.
    #[verifier::rlimit(100)]
    #[verifier::spinoff_prover]
    fn orphan_and_free(&mut self, c: NodeId) -> (data: T)
        requires
            old(self).wf(),
            old(self).live(c.index),
            old(self).parent_of(c.index) is None,
            old(self).prev_of(c.index) is None,
            old(self).next_of(c.index) is None,
            old(self).root != Some(c.index),
        ensures
            final(self).wf(),
            data == old(self).data_of(c.index),
            final(self).n() == old(self).n(),
            final(self).depth == old(self).depth,
            final(self).rank == old(self).rank,
            final(self).root == old(self).root,
            forall|j: usize| final(self).live(j) <==> (old(self).live(j) && j != c.index),
            forall|j: usize|
                final(self).live(j) && chain(*old(self), old(self).first_child_of(c.index)).contains(
                    j,
                ) ==> final(self).node_of(j) == (Node { parent: None, ..old(self).node_of(j) }),
            forall|j: usize|
                final(self).live(j) && !chain(*old(self), old(self).first_child_of(c.index)).contains(
                    j,
                ) ==> final(self).node_of(j) == old(self).node_of(j),
    {
        let ghost t0 = *self;
        let ghost ch = chain(t0, t0.first_child_of(c.index));
        proof {
            assert(t0.wf_node(c.index));
            lemma_chain_props(t0, t0.first_child_of(c.index));
            assert forall|m: int| 0 <= m < ch.len() implies t0.live(#[trigger] ch[m])
                && t0.parent_of(ch[m]) == Some(c.index) && ch[m] != c.index by {
                assert(t0.wf_node(ch[m]));
            }
        }
        let mut ids: Vec<NodeId> = Vec::new();
        let first = self.get_node(c.index).first_child;
        let mut cur: Option<NodeId> = match first {
            Some(f) => Some(NodeId { index: f }),
            None => None,
        };
        while cur.is_some()
            invariant
                *self == t0,
                t0.wf(),
                t0.live(c.index),
                ch == chain(t0, t0.first_child_of(c.index)),
                match cur {
                    Some(x) => t0.live(x.index),
                    None => true,
                },
                ids@.map_values(|nid: NodeId| nid.index) + chain(
                    t0,
                    match cur {
                        Some(x) => Some(x.index),
                        None => None::<usize>,
                    },
                ) == ch,
            decreases chain(
                t0,
                match cur {
                    Some(x) => Some(x.index),
                    None => None::<usize>,
                },
            ).len(),
        {
            let ghost before = ids@;
            let x = match cur {
                Some(x) => x,
                None => vstd::pervasive::unreached(),
            };
            proof {
                assert(t0.wf_node(x.index));
            }
            ids.push(x);
            let nx = self.get_node(x.index).next_sibling;
            cur = match nx {
                Some(sx) => Some(NodeId { index: sx }),
                None => None,
            };
            proof {
                assert(ids@.map_values(|nid: NodeId| nid.index) =~= before.map_values(
                    |nid: NodeId| nid.index,
                ) + seq![x.index]);
            }
        }
        proof {
            assert(ids@.map_values(|nid: NodeId| nid.index) + chain(t0, None::<usize>)
                =~= ids@.map_values(|nid: NodeId| nid.index));
        }
        let ghost idseq = ids@.map_values(|nid: NodeId| nid.index);
        let mut m: usize = 0;
        while m < ids.len()
            invariant
                m <= ids@.len(),
                ids@.map_values(|nid: NodeId| nid.index) == ch,
                idseq == ch,
                ch == chain(t0, t0.first_child_of(c.index)),
                t0.wf(),
                t0.live(c.index),
                self.slots@.len() == t0.slots@.len(),
                self.depth == t0.depth,
                self.rank == t0.rank,
                self.root == t0.root,
                forall|j: usize| self.live(j) <==> t0.live(j),
                forall|j: usize|
                    self.live(j) && ch.take(m as int).contains(j) ==> self.node_of(j) == (Node {
                        parent: None,
                        ..t0.node_of(j)
                    }),
                forall|j: usize|
                    self.live(j) && !ch.take(m as int).contains(j) ==> self.node_of(j)
                        == t0.node_of(j),
            decreases ids@.len() - m,
        {
            let ghost mm = m as int;
            let idn = ids[m];
            proof {
                lemma_chain_props(t0, t0.first_child_of(c.index));
                assert(idseq[mm] == idn.index);
                assert(ch.contains(idn.index));
                assert(t0.live(idn.index));
                assert(!ch.take(mm).contains(idn.index));
            }
            let nm = self.get_node_mut(idn.index);
            nm.parent = None;
            m = m + 1;
            proof {
                assert(ch.take(mm + 1) =~= ch.take(mm).push(ch[mm]));
                assert forall|j: usize|
                    self.live(j) && ch.take(mm + 1).contains(j) implies self.node_of(j) == (Node {
                    parent: None,
                    ..t0.node_of(j)
                }) by {
                    if j != idn.index {
                        assert(ch.take(mm).contains(j));
                    }
                }
                assert forall|j: usize|
                    self.live(j) && !ch.take(mm + 1).contains(j) implies self.node_of(j)
                        == t0.node_of(j) by {
                    assert(ch[mm] == idn.index);
                    assert(ch.take(mm + 1)[mm] == ch[mm]);
                    assert(ch.take(mm + 1).contains(ch[mm]));
                    assert(j != idn.index);
                    if ch.take(mm).contains(j) {
                        let kk = choose|kk: int| 0 <= kk < mm && #[trigger] ch.take(mm)[kk] == j;
                        assert(ch.take(mm + 1)[kk] == j);
                        assert(false);
                    }
                }
            }
        }
        proof {
            assert(ch.take(ids@.len() as int) =~= ch);
        }
        let data = {
            let slot = &mut self.slots[c.index];
            match slot.take() {
                Some(nd) => nd.data,
                None => vstd::pervasive::unreached(),
            }
        };
        proof {
            lemma_orphan_wf(t0, *self, c.index);
        }
        data
    }

    /// Free a fully detached node `c` together with its entire subtree.
    /// Returns `c`'s payload; none of the subtree's ids stays resolvable.
    #[verifier::rlimit(100)]
    #[verifier::spinoff_prover]
    fn free_subtree(&mut self, c: NodeId) -> (data: T)
        requires
            old(self).wf(),
            old(self).live(c.index),
            old(self).parent_of(c.index) is None,
            old(self).prev_of(c.index) is None,
            old(self).next_of(c.index) is None,
            old(self).root != Some(c.index),
        ensures
            final(self).wf(),
            data == old(self).data_of(c.index),
            final(self).n() == old(self).n(),
            final(self).depth == old(self).depth,
            final(self).rank == old(self).rank,
            final(self).root == old(self).root,
            forall|j: usize|
                final(self).live(j) <==> (old(self).live(j) && !pre_tree(
                    *old(self),
                    c.index,
                ).contains(j)),
            forall|j: usize| final(self).live(j) ==> final(self).node_of(j) == old(self).node_of(j),
    {
        let ghost t0 = *self;
        let ghost sub = pre_tree(t0, c.index);
        proof {
            lemma_pre_tree_membership(t0, c.index);
        }
        let mut po = PreOrder::new(&NodeMut { id: c }, self);
        let mut ids: Vec<NodeId> = Vec::new();
        let mut done = false;
        while !done
            invariant
                *self == t0,
                t0.wf(),
                t0.live(c.index),
                sub == pre_tree(t0, c.index),
                po.ok(t0),
                ids@.map_values(|nid: NodeId| nid.index) + po.remaining(t0) == sub,
                done ==> po.remaining(t0).len() == 0,
            decreases po.remaining(t0).len() + (if done {
                0int
            } else {
                1int
            }),
        {
            let ghost before = ids@;
            match po.next(self) {
                Some(nm) => {
                    ids.push(nm.id);
                    proof {
                        assert(ids@.map_values(|nid: NodeId| nid.index) =~= before.map_values(
                            |nid: NodeId| nid.index,
                        ) + seq![nm.id.index]);
                        assert(ids@.map_values(|nid: NodeId| nid.index) + po.remaining(t0) =~= sub);
                    }
                }
                None => {
                    done = true;
                }
            }
        }
        proof {
            assert(ids@.map_values(|nid: NodeId| nid.index) + po.remaining(t0)
                =~= ids@.map_values(|nid: NodeId| nid.index));
        }
        let ghost idseq = ids@.map_values(|nid: NodeId| nid.index);
        proof {
            assert(idseq[0] == sub[0]);
            assert(idseq[0] == c.index);
            assert(ids@[0].index == c.index);
        }
        let id0 = ids[0];
        let data = {
            let slot = &mut self.slots[id0.index];
            match slot.take() {
                Some(nd) => nd.data,
                None => vstd::pervasive::unreached(),
            }
        };
        proof {
            assert(sub.take(1int) =~= seq![c.index]);
            assert forall|j: usize| self.live(j) implies (t0.live(j) && !sub.take(1int).contains(j))
            by {}
        }
        let mut m: usize = 1;
        while m < ids.len()
            invariant
                1 <= m <= ids@.len(),
                ids@.map_values(|nid: NodeId| nid.index) == sub,
                idseq == sub,
                sub == pre_tree(t0, c.index),
                t0.wf(),
                t0.live(c.index),
                self.slots@.len() == t0.slots@.len(),
                self.depth == t0.depth,
                self.rank == t0.rank,
                self.root == t0.root,
                forall|j: usize| self.live(j) <==> (t0.live(j) && !sub.take(m as int).contains(j)),
                forall|j: usize| self.live(j) ==> self.node_of(j) == t0.node_of(j),
            decreases ids@.len() - m,
        {
            let ghost mm = m as int;
            let idn = ids[m];
            proof {
                lemma_pre_tree_membership(t0, c.index);
                assert(idseq[mm] == idn.index);
                assert(sub.contains(idn.index));
                assert(t0.live(idn.index));
            }
            let slot = &mut self.slots[idn.index];
            *slot = None;
            m = m + 1;
            proof {
                assert(sub.take(mm + 1) =~= sub.take(mm).push(sub[mm]));
                assert forall|j: usize|
                    self.live(j) implies (t0.live(j) && !sub.take(mm + 1).contains(j)) by {
                    assert(sub[mm] == idn.index);
                    assert(sub.take(mm + 1)[mm] == sub[mm]);
                    assert(j != idn.index);
                    if sub.take(mm + 1).contains(j) {
                        let kk = choose|kk: int| 0 <= kk < mm + 1 && #[trigger] sub.take(mm + 1)[kk] == j;
                        assert(kk < mm);
                        assert(sub.take(mm)[kk] == j);
                        assert(false);
                    }
                }
                assert forall|j: usize|
                    (t0.live(j) && !sub.take(mm + 1).contains(j)) implies self.live(j) by {
                    if sub.take(mm).contains(j) {
                        let kk = choose|kk: int| 0 <= kk < mm && #[trigger] sub.take(mm)[kk] == j;
                        assert(sub.take(mm + 1)[kk] == j);
                        assert(false);
                    }
                    assert(sub[mm] == idn.index);
                    assert(sub.take(mm + 1)[mm] == sub[mm]);
                    assert(j != idn.index);
                }
            }
        }
        proof {
            assert(sub.take(ids@.len() as int) =~= sub);
            lemma_free_wf(t0, *self, c.index);
        }
        data
    }
}

impl<T> Tree<T> {
    /// What removing the first child of `p` from `pre` yields: `r` is the
    /// removed child's payload (absent when `p` had no child); under
    /// `DropChildren` the child's whole subtree is freed, under
    /// `OrphanChildren` only the child itself, its children staying live as
    /// detached roots; the parent and the removed child's next sibling are
    /// relinked and every other node is untouched.
    pub open spec fn first_removed(
        pre: Tree<T>,
        post: Tree<T>,
        p: usize,
        behavior: RemoveBehavior,
        r: Option<T>,
    ) -> bool {
        &&& post.n() == pre.n()
        &&& post.root == pre.root
        &&& match pre.first_child_of(p) {
            None => r is None && post == pre,
            Some(c) => {
                &&& r == Some(pre.data_of(c))
                &&& !post.live(c)
                &&& post.live(p)
                &&& post.first_child_of(p) == pre.next_of(c)
                &&& post.node_of(p) == (Node {
                    first_child: pre.next_of(c),
                    last_child: (match pre.next_of(c) {
                        Some(_) => pre.last_child_of(p),
                        None => None,
                    }),
                    ..pre.node_of(p)
                })
                &&& match pre.next_of(c) {
                    Some(s) => post.live(s) && post.node_of(s) == (Node {
                        prev_sibling: None,
                        ..pre.node_of(s)
                    }),
                    None => true,
                }
                &&& match behavior {
                    RemoveBehavior::DropChildren => (forall|j: usize|
                        #[trigger] post.live(j) <==> (pre.live(j) && !(pre.live(j) && in_subtree(
                            pre,
                            j,
                            c,
                        )))) && (forall|j: usize|
                        #[trigger] post.live(j) && j != p && Some(j) != pre.next_of(c)
                            ==> post.node_of(j) == pre.node_of(j)),
                    RemoveBehavior::OrphanChildren => (forall|j: usize|
                        #[trigger] post.live(j) <==> (pre.live(j) && j != c)) && (forall|j: usize|
                        #[trigger] post.live(j) && chain(pre, pre.first_child_of(c)).contains(j)
                            ==> post.node_of(j) == (Node { parent: None, ..pre.node_of(j) })) && (
                    forall|j: usize|
                        #[trigger] post.live(j) && j != p && Some(j) != pre.next_of(c) && !chain(
                            pre,
                            pre.first_child_of(c),
                        ).contains(j) ==> post.node_of(j) == pre.node_of(j)),
                }
            },
        }
    }

    /// Mirror image of `first_removed`, for the last child.
    pub open spec fn last_removed(
        pre: Tree<T>,
        post: Tree<T>,
        p: usize,
        behavior: RemoveBehavior,
        r: Option<T>,
    ) -> bool {
        &&& post.n() == pre.n()
        &&& post.root == pre.root
        &&& match pre.last_child_of(p) {
            None => r is None && post == pre,
            Some(c) => {
                &&& r == Some(pre.data_of(c))
                &&& !post.live(c)
                &&& post.live(p)
                &&& post.last_child_of(p) == pre.prev_of(c)
                &&& post.node_of(p) == (Node {
                    last_child: pre.prev_of(c),
                    first_child: (match pre.prev_of(c) {
                        Some(_) => pre.first_child_of(p),
                        None => None,
                    }),
                    ..pre.node_of(p)
                })
                &&& match pre.prev_of(c) {
                    Some(q) => post.live(q) && post.node_of(q) == (Node {
                        next_sibling: None,
                        ..pre.node_of(q)
                    }),
                    None => true,
                }
                &&& match behavior {
                    RemoveBehavior::DropChildren => (forall|j: usize|
                        #[trigger] post.live(j) <==> (pre.live(j) && !(pre.live(j) && in_subtree(
                            pre,
                            j,
                            c,
                        )))) && (forall|j: usize|
                        #[trigger] post.live(j) && j != p && Some(j) != pre.prev_of(c)
                            ==> post.node_of(j) == pre.node_of(j)),
                    RemoveBehavior::OrphanChildren => (forall|j: usize|
                        #[trigger] post.live(j) <==> (pre.live(j) && j != c)) && (forall|j: usize|
                        #[trigger] post.live(j) && chain(pre, pre.first_child_of(c)).contains(j)
                            ==> post.node_of(j) == (Node { parent: None, ..pre.node_of(j) })) && (
                    forall|j: usize|
                        #[trigger] post.live(j) && j != p && Some(j) != pre.prev_of(c) && !chain(
                            pre,
                            pre.first_child_of(c),
                        ).contains(j) ==> post.node_of(j) == pre.node_of(j)),
                }
            },
        }
    }

    /// Remove the first child of `id` and return its payload, or signal
    /// absence if `id` has no children.  `behavior` decides whether the
    /// removed child's descendants are freed with it or stay behind as
    /// detached, mutually consistent orphans.
    #[verifier::rlimit(100)]
    #[verifier::spinoff_prover]
    pub fn remove_first(&mut self, id: NodeId, behavior: RemoveBehavior) -> (r: Option<T>)
        requires
            old(self).wf(),
            old(self).live(id.index),
        ensures
            final(self).wf(),
            Tree::first_removed(*old(self), *final(self), id.index, behavior, r),
    {
        let has_child = self.get_node(id.index).first_child.is_some();
        if !has_child {
            return None;
        }
        let ghost t0 = *self;
        let c = self.detach_first_child(id);
        let ghost t1 = *self;
        proof {
            assert(t0.wf_node(id.index));
            assert(t0.wf_node(c.index));
            assert(t0.root != Some(c.index));
        }
        let data = match behavior {
            RemoveBehavior::DropChildren => self.free_subtree(c),
            RemoveBehavior::OrphanChildren => self.orphan_and_free(c),
        };
        proof {
            let tf = *self;
            assert(t0.first_child_of(id.index) == Some(c.index));
            assert(data == t0.data_of(c.index));
            assert(in_subtree(t0, c.index, c.index));
            match behavior {
                RemoveBehavior::DropChildren => {
                    lemma_drop_live_set(t0, t1, tf, c.index);
                    lemma_outside_subtree_survives(t1, tf, c.index, id.index);
                    assert(tf.node_of(id.index) == t1.node_of(id.index));
                    match t0.next_of(c.index) {
                        Some(s) => {
                            lemma_outside_subtree_survives(t1, tf, c.index, s);
                            assert(tf.node_of(s) == t1.node_of(s));
                        }
                        None => {}
                    }
                    assert forall|j: usize|
                        tf.live(j) && j != id.index && Some(j) != t0.next_of(c.index) implies
                        tf.node_of(j) == t0.node_of(j) by {
                        assert(t1.live(j));
                        assert(j != c.index);
                        assert(t1.node_of(j) == t0.node_of(j));
                        assert(tf.node_of(j) == t1.node_of(j));
                    }
                }
                RemoveBehavior::OrphanChildren => {
                    lemma_chain_props(t1, t1.first_child_of(c.index));
                    assert forall|y: usize|
                        #[trigger] chain(t1, t1.first_child_of(c.index)).contains(y) implies
                        t1.next_of(y) == t0.next_of(y) && t1.parent_of(y) == Some(c.index) by {
                        let m = choose|m: int|
                            0 <= m < chain(t1, t1.first_child_of(c.index)).len() && chain(
                                t1,
                                t1.first_child_of(c.index),
                            )[m] == y;
                        assert(t1.wf_node(y));
                        assert(t1.parent_of(y) == Some(c.index));
                        assert(y != c.index);
                    }
                    lemma_chain_frame(t1, t0, t1.first_child_of(c.index));
                    let ch0 = chain(t0, t0.first_child_of(c.index));
                    assert(ch0 == chain(t1, t1.first_child_of(c.index)));
                    assert(forall|j: usize| tf.live(j) <==> (t0.live(j) && j != c.index));
                    if ch0.contains(id.index) {
                        assert(t1.parent_of(id.index) == Some(c.index));
                        assert(t1.wf_node(id.index));
                        assert(false);
                    }
                    match t0.next_of(c.index) {
                        Some(s) => {
                            if ch0.contains(s) {
                                assert(t1.parent_of(s) == Some(c.index));
                                assert(t0.parent_of(s) == t0.parent_of(c.index));
                                assert(t1.wf_node(id.index));
                                assert(false);
                            }
                            assert(tf.live(s));
                            assert(tf.node_of(s) == t1.node_of(s));
                        }
                        None => {}
                    }
                    if ch0.contains(c.index) {
                        assert(t1.parent_of(c.index) == Some(c.index));
                        assert(false);
                    }
                    assert(tf.node_of(id.index) == t1.node_of(id.index));
                    assert forall|j: usize| tf.live(j) && ch0.contains(j) implies tf.node_of(j)
                        == (Node { parent: None, ..t0.node_of(j) }) by {
                        assert(j != id.index && Some(j) != t0.next_of(c.index) && j != c.index);
                        assert(t1.node_of(j) == t0.node_of(j));
                        assert(tf.node_of(j) == (Node { parent: None, ..t1.node_of(j) }));
                    }
                    assert forall|j: usize|
                        tf.live(j) && j != id.index && Some(j) != t0.next_of(c.index)
                            && !ch0.contains(j) implies tf.node_of(j) == t0.node_of(j) by {
                        assert(j != c.index);
                        assert(tf.node_of(j) == t1.node_of(j));
                        assert(t1.node_of(j) == t0.node_of(j));
                    }
                }
            }
            assert(tf.first_child_of(id.index) == t0.next_of(c.index));
            assert(tf.node_of(id.index) == (Node {
                first_child: t0.next_of(c.index),
                last_child: (match t0.next_of(c.index) {
                    Some(_) => t0.last_child_of(id.index),
                    None => None,
                }),
                ..t0.node_of(id.index)
            }));
            assert(Tree::first_removed(t0, tf, id.index, behavior, Some(data)));
        }
        Some(data)
    }

    /// Remove the last child of `id` and return its payload, or signal
    /// absence if `id` has no children.
    #[verifier::rlimit(100)]
    #[verifier::spinoff_prover]
    pub fn remove_last(&mut self, id: NodeId, behavior: RemoveBehavior) -> (r: Option<T>)
        requires
            old(self).wf(),
            old(self).live(id.index),
        ensures
            final(self).wf(),
            Tree::last_removed(*old(self), *final(self), id.index, behavior, r),
    {
        let has_child = self.get_node(id.index).last_child.is_some();
        if !has_child {
            return None;
        }
        let ghost t0 = *self;
        let c = self.detach_last_child(id);
        let ghost t1 = *self;
        proof {
            assert(t0.wf_node(id.index));
            assert(t0.wf_node(c.index));
            assert(t0.root != Some(c.index));
        }
        let data = match behavior {
            RemoveBehavior::DropChildren => self.free_subtree(c),
            RemoveBehavior::OrphanChildren => self.orphan_and_free(c),
        };
        proof {
            let tf = *self;
            assert(t0.last_child_of(id.index) == Some(c.index));
            assert(data == t0.data_of(c.index));
            assert(in_subtree(t0, c.index, c.index));
            match t0.prev_of(c.index) {
                Some(q) => {
                    assert(t0.wf_node(q));
                }
                None => {}
            }
            match behavior {
                RemoveBehavior::DropChildren => {
                    lemma_drop_live_set(t0, t1, tf, c.index);
                    lemma_outside_subtree_survives(t1, tf, c.index, id.index);
                    assert(tf.node_of(id.index) == t1.node_of(id.index));
                    match t0.prev_of(c.index) {
                        Some(q) => {
                            lemma_outside_subtree_survives(t1, tf, c.index, q);
                            assert(tf.node_of(q) == t1.node_of(q));
                        }
                        None => {}
                    }
                    assert forall|j: usize|
                        tf.live(j) && j != id.index && Some(j) != t0.prev_of(c.index) implies
                        tf.node_of(j) == t0.node_of(j) by {
                        assert(t1.live(j));
                        assert(j != c.index);
                        assert(t1.node_of(j) == t0.node_of(j));
                        assert(tf.node_of(j) == t1.node_of(j));
                    }
                }
                RemoveBehavior::OrphanChildren => {
                    lemma_chain_props(t1, t1.first_child_of(c.index));
                    assert forall|y: usize|
                        #[trigger] chain(t1, t1.first_child_of(c.index)).contains(y) implies
                        t1.next_of(y) == t0.next_of(y) && t1.parent_of(y) == Some(c.index) by {
                        let m = choose|m: int|
                            0 <= m < chain(t1, t1.first_child_of(c.index)).len() && chain(
                                t1,
                                t1.first_child_of(c.index),
                            )[m] == y;
                        assert(t1.wf_node(y));
                        assert(t1.parent_of(y) == Some(c.index));
                        assert(y != c.index);
                    }
                    lemma_chain_frame(t1, t0, t1.first_child_of(c.index));
                    let ch0 = chain(t0, t0.first_child_of(c.index));
                    assert(ch0 == chain(t1, t1.first_child_of(c.index)));
                    assert(forall|j: usize| tf.live(j) <==> (t0.live(j) && j != c.index));
                    if ch0.contains(id.index) {
                        assert(t1.parent_of(id.index) == Some(c.index));
                        assert(t1.wf_node(id.index));
                        assert(false);
                    }
                    match t0.prev_of(c.index) {
                        Some(q) => {
                            if ch0.contains(q) {
                                assert(t1.parent_of(q) == Some(c.index));
                                assert(t0.parent_of(q) == t0.parent_of(c.index));
                                assert(t1.wf_node(id.index));
                                assert(false);
                            }
                            assert(tf.live(q));
                            assert(tf.node_of(q) == t1.node_of(q));
                        }
                        None => {}
                    }
                    if ch0.contains(c.index) {
                        assert(t1.parent_of(c.index) == Some(c.index));
                        assert(false);
                    }
                    assert(tf.node_of(id.index) == t1.node_of(id.index));
                    assert forall|j: usize| tf.live(j) && ch0.contains(j) implies tf.node_of(j)
                        == (Node { parent: None, ..t0.node_of(j) }) by {
                        assert(j != id.index && Some(j) != t0.prev_of(c.index) && j != c.index);
                        assert(t1.node_of(j) == t0.node_of(j));
                        assert(tf.node_of(j) == (Node { parent: None, ..t1.node_of(j) }));
                    }
                    assert forall|j: usize|
                        tf.live(j) && j != id.index && Some(j) != t0.prev_of(c.index)
                            && !ch0.contains(j) implies tf.node_of(j) == t0.node_of(j) by {
                        assert(j != c.index);
                        assert(tf.node_of(j) == t1.node_of(j));
                        assert(t1.node_of(j) == t0.node_of(j));
                    }
                }
            }
            assert(tf.last_child_of(id.index) == t0.prev_of(c.index));
            assert(tf.node_of(id.index) == (Node {
                last_child: t0.prev_of(c.index),
                first_child: (match t0.prev_of(c.index) {
                    Some(_) => t0.first_child_of(id.index),
                    None => None,
                }),
                ..t0.node_of(id.index)
            }));
            assert(Tree::last_removed(t0, tf, id.index, behavior, Some(data)));
        }
        Some(data)
    }
}

} // verus!
