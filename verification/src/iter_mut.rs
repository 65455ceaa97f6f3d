use vstd::prelude::*;

use crate::model::{
    all_live, ancestor_chain, bfs_rows, chain, head_ok, lemma_bfs_step, level_tree, post_forest,
    post_tree, pre_forest, pre_tree,
};
use crate::node::NodeMut;
use crate::tree::{NodeId, Tree};

verus! {

/// Upward cursor: produces the strict ancestor chain of a node, from its
/// immediate parent up to the root.
pub struct AncestorsMut {
    pub node_id: Option<NodeId>,
}

impl AncestorsMut {
    /// The index the cursor currently stands on.
    pub open spec fn head(self) -> Option<usize> {
        match self.node_id {
            Some(id) => Some(id.index),
            None => None,
        }
    }

    pub open spec fn ok<T>(self, t: Tree<T>) -> bool {
        head_ok(t, self.head())
    }

    /// The exact sequence of indices the cursor will still produce.
    pub open spec fn remaining<T>(self, t: Tree<T>) -> Seq<usize> {
        match self.head() {
            Some(i) => ancestor_chain(t, i),
            None => Seq::empty(),
        }
    }

    pub fn new(node_id: Option<NodeId>) -> (r: AncestorsMut)
        ensures
            r.node_id == node_id,
    {
        AncestorsMut { node_id }
    }

    /// Step the cursor: yield the parent of the current node and move up,
    /// or end when the current node has no parent.
    pub fn next<T>(&mut self, tree: &Tree<T>) -> (r: Option<NodeMut>)
        requires
            tree.wf(),
            old(self).ok(*tree),
        ensures
            final(self).ok(*tree),
            match r {
                None => old(self).remaining(*tree).len() == 0 && final(self).remaining(*tree).len()
                    == 0,
                Some(nm) => old(self).remaining(*tree).len() > 0 && nm.id.index == old(
                    self,
                ).remaining(*tree)[0] && tree.live(nm.id.index) && final(self).remaining(*tree)
                    == old(self).remaining(*tree).skip(1),
            },
    {
        match self.node_id {
            None => None,
            Some(id) => {
                proof {
                    assert(tree.wf_node(id.index));
                }
                let nd = tree.get_node(id.index);
                match nd.parent {
                    None => {
                        self.node_id = None;
                        None
                    }
                    Some(p) => {
                        self.node_id = Some(NodeId { index: p });
                        proof {
                            assert(self.remaining(*tree) =~= old(self).remaining(*tree).skip(1));
                        }
                        Some(NodeMut { id: NodeId { index: p } })
                    }
                }
            }
        }
    }
}

/// Sibling-run cursor: produces a node and all its following siblings,
/// left to right.  The building block of every other cursor.
pub struct NextSiblingsMut {
    pub node_id: Option<NodeId>,
}

impl NextSiblingsMut {
    /// The index the cursor currently stands on.
    pub open spec fn head(self) -> Option<usize> {
        match self.node_id {
            Some(id) => Some(id.index),
            None => None,
        }
    }

    pub open spec fn ok<T>(self, t: Tree<T>) -> bool {
        head_ok(t, self.head())
    }

    /// The exact sequence of indices the cursor will still produce.
    pub open spec fn remaining<T>(self, t: Tree<T>) -> Seq<usize> {
        chain(t, self.head())
    }

    pub fn new(node_id: Option<NodeId>) -> (r: NextSiblingsMut)
        ensures
            r.node_id == node_id,
    {
        NextSiblingsMut { node_id }
    }

    /// Step the cursor: yield the current node and advance to its next
    /// sibling.
    pub fn next<T>(&mut self, tree: &Tree<T>) -> (r: Option<NodeMut>)
        requires
            tree.wf(),
            old(self).ok(*tree),
        ensures
            final(self).ok(*tree),
            match r {
                None => old(self).remaining(*tree).len() == 0 && final(self).remaining(*tree).len()
                    == 0 && old(self).head() is None && final(self).head() is None,
                Some(nm) => old(self).remaining(*tree).len() > 0 && nm.id.index == old(
                    self,
                ).remaining(*tree)[0] && tree.live(nm.id.index) && final(self).remaining(*tree)
                    == old(self).remaining(*tree).skip(1) && old(self).head() == Some(nm.id.index)
                    && final(self).head() == tree.next_of(nm.id.index),
            },
    {
        match self.node_id {
            None => None,
            Some(id) => {
                proof {
                    assert(tree.wf_node(id.index));
                }
                let nd = tree.get_node(id.index);
                self.node_id = match nd.next_sibling {
                    Some(s) => Some(NodeId { index: s }),
                    None => None,
                };
                proof {
                    assert(self.remaining(*tree) =~= old(self).remaining(*tree).skip(1));
                }
                Some(NodeMut { id })
            }
        }
    }
}

/// The sequence still owed by a stack of sibling-run cursors: the pre-order
/// forests of the cursors' runs, innermost (top of stack) first.
pub open spec fn stack_pre<T>(t: Tree<T>, s: Seq<NextSiblingsMut>) -> Seq<usize>
    decreases s.len(),
{
    if s.len() == 0 {
        Seq::empty()
    } else {
        pre_forest(t, s.last().head()) + stack_pre(t, s.drop_last())
    }
}

/// Every cursor of the stack stands on a live node or is exhausted.
pub open spec fn stack_ok<T>(t: Tree<T>, s: Seq<NextSiblingsMut>) -> bool {
    forall|k: int| 0 <= k < s.len() ==> head_ok(t, (#[trigger] s[k]).head())
}

/// Depth-first pre-order cursor: yields every node of a subtree exactly
/// once, each node before its descendants, sibling subtrees left to right.
///
/// The stack holds one sibling-run cursor per currently-open ancestor
/// level, standing in for recursive descent.
pub struct PreOrder {
    pub start: Option<NodeId>,
    pub children: Vec<NextSiblingsMut>,
}

impl PreOrder {
    pub open spec fn ok<T>(self, t: Tree<T>) -> bool {
        &&& match self.start {
            Some(id) => t.live(id.index),
            None => true,
        }
        &&& stack_ok(t, self.children@)
    }

    /// The exact sequence of indices the cursor will still produce.
    pub open spec fn remaining<T>(self, t: Tree<T>) -> Seq<usize> {
        (match self.start {
            Some(id) => pre_tree(t, id.index),
            None => Seq::empty(),
        }) + stack_pre(t, self.children@)
    }

    /// A cursor over the subtree rooted at `node`.
    pub fn new<T>(node: &NodeMut, tree: &Tree<T>) -> (r: PreOrder)
        requires
            tree.wf(),
            tree.live(node.id.index),
        ensures
            r.ok(*tree),
            r.remaining(*tree) == pre_tree(*tree, node.id.index),
    {
        let r = PreOrder { start: Some(node.id), children: Vec::new() };
        proof {
            assert(r.remaining(*tree) =~= pre_tree(*tree, node.id.index));
        }
        r
    }

    /// Step the cursor: yield the start node first, then repeatedly advance
    /// the top sibling-run cursor, opening a child run under each node
    /// yielded, and popping exhausted runs.
    pub fn next<T>(&mut self, tree: &Tree<T>) -> (r: Option<NodeMut>)
        requires
            tree.wf(),
            old(self).ok(*tree),
        ensures
            final(self).ok(*tree),
            match r {
                None => old(self).remaining(*tree).len() == 0 && final(self).remaining(*tree).len()
                    == 0,
                Some(nm) => old(self).remaining(*tree).len() > 0 && nm.id.index == old(
                    self,
                ).remaining(*tree)[0] && tree.live(nm.id.index) && final(self).remaining(*tree)
                    == old(self).remaining(*tree).skip(1),
            },
    {
        match self.start {
            Some(id) => {
                self.start = None;
                proof {
                    assert(tree.wf_node(id.index));
                }
                let nd = tree.get_node(id.index);
                let cursor = NextSiblingsMut::new(
                    match nd.first_child {
                        Some(c) => Some(NodeId { index: c }),
                        None => None,
                    },
                );
                self.children.push(cursor);
                proof {
                    assert(self.children@.drop_last() =~= old(self).children@);
                    assert(self.remaining(*tree) =~= old(self).remaining(*tree).skip(1));
                }
                Some(NodeMut { id })
            }
            None => {
                while self.children.len() > 0
                    invariant
                        tree.wf(),
                        stack_ok(*tree, self.children@),
                        self.start is None,
                        old(self).start is None,
                        stack_pre(*tree, self.children@) == old(self).remaining(*tree),
                    decreases self.children@.len(),
                {
                    let ghost s = self.children@;
                    let k = self.children.len() - 1;
                    let yielded = {
                        let top = &mut self.children[k];
                        top.next(tree)
                    };
                    match yielded {
                        Some(nm) => {
                            let ghost c = nm.id.index;
                            proof {
                                assert(tree.wf_node(c));
                                assert(s.last().head() == Some(c));
                                assert(self.children@.drop_last() =~= s.drop_last());
                                assert(self.children@.last().head() == tree.next_of(c));
                                assert(stack_pre(*tree, s) == pre_forest(*tree, Some(c))
                                    + stack_pre(*tree, s.drop_last()));
                                assert(pre_forest(*tree, Some(c)) == seq![c] + pre_forest(
                                    *tree,
                                    tree.first_child_of(c),
                                ) + pre_forest(*tree, tree.next_of(c)));
                                assert(stack_pre(*tree, self.children@) == pre_forest(
                                    *tree,
                                    tree.next_of(c),
                                ) + stack_pre(*tree, s.drop_last()));
                            }
                            let nd = tree.get_node(nm.id.index);
                            match nd.first_child {
                                Some(child) => {
                                    let ghost mid = self.children@;
                                    self.children.push(
                                        NextSiblingsMut::new(Some(NodeId { index: child })),
                                    );
                                    proof {
                                        assert(self.children@.drop_last() =~= mid);
                                        assert(stack_pre(*tree, self.children@) == pre_forest(
                                            *tree,
                                            tree.first_child_of(c),
                                        ) + stack_pre(*tree, mid));
                                        assert(stack_pre(*tree, self.children@) =~= stack_pre(
                                            *tree,
                                            s,
                                        ).skip(1));
                                        assert(self.remaining(*tree) =~= stack_pre(
                                            *tree,
                                            self.children@,
                                        ));
                                    }
                                }
                                None => {
                                    proof {
                                        assert(pre_forest(*tree, tree.first_child_of(c))
                                            == Seq::<usize>::empty());
                                        assert(stack_pre(*tree, self.children@) =~= stack_pre(
                                            *tree,
                                            s,
                                        ).skip(1));
                                        assert(self.remaining(*tree) =~= stack_pre(
                                            *tree,
                                            self.children@,
                                        ));
                                    }
                                }
                            }
                            return Some(nm);
                        }
                        None => {
                            proof {
                                assert(self.children@.drop_last() =~= s.drop_last());
                                assert(pre_forest(*tree, self.children@.last().head())
                                    == Seq::<usize>::empty());
                                assert(stack_pre(*tree, self.children@) == stack_pre(
                                    *tree,
                                    s.drop_last(),
                                ));
                                assert(stack_pre(*tree, s) == stack_pre(*tree, s.drop_last()));
                            }
                            self.children.pop();
                            proof {
                                assert(self.children@ =~= s.drop_last());
                            }
                        }
                    }
                }
                proof {
                    assert(self.remaining(*tree) =~= Seq::<usize>::empty());
                }
                None
            }
        }
    }
}

/// The sequence still owed by a stack of post-order frames: for each frame,
/// the post-order forests of the children not yet finished, then the
/// frame's own node, innermost (top of stack) first.
pub open spec fn stack_post<T>(t: Tree<T>, s: Seq<(NodeMut, NextSiblingsMut)>) -> Seq<usize>
    decreases s.len(),
{
    if s.len() == 0 {
        Seq::empty()
    } else {
        post_forest(t, s.last().1.head()) + seq![s.last().0.id.index] + stack_post(
            t,
            s.drop_last(),
        )
    }
}

/// Every frame of the stack holds a live node and a usable child cursor.
pub open spec fn frames_ok<T>(t: Tree<T>, s: Seq<(NodeMut, NextSiblingsMut)>) -> bool {
    forall|k: int|
        0 <= k < s.len() ==> t.live((#[trigger] s[k]).0.id.index) && head_ok(t, s[k].1.head())
}

/// Depth-first post-order cursor: yields every node of a subtree exactly
/// once, each node strictly after all of its descendants, sibling subtrees
/// completed left to right.
///
/// Each frame pairs a node with a sibling-run cursor over its unfinished
/// children; descending pushes frames instead of recursing.
pub struct PostOrderMut {
    pub nodes: Vec<(NodeMut, NextSiblingsMut)>,
}

impl PostOrderMut {
    pub open spec fn ok<T>(self, t: Tree<T>) -> bool {
        frames_ok(t, self.nodes@)
    }

    /// The exact sequence of indices the cursor will still produce.
    pub open spec fn remaining<T>(self, t: Tree<T>) -> Seq<usize> {
        stack_post(t, self.nodes@)
    }

    /// A cursor over the subtree rooted at `node`.
    pub fn new<T>(node: &NodeMut, tree: &Tree<T>) -> (r: PostOrderMut)
        requires
            tree.wf(),
            tree.live(node.id.index),
        ensures
            r.ok(*tree),
            r.remaining(*tree) == post_tree(*tree, node.id.index),
    {
        proof {
            assert(tree.wf_node(node.id.index));
        }
        let nd = tree.get_node(node.id.index);
        let cursor = NextSiblingsMut::new(
            match nd.first_child {
                Some(c) => Some(NodeId { index: c }),
                None => None,
            },
        );
        let mut nodes: Vec<(NodeMut, NextSiblingsMut)> = Vec::new();
        nodes.push((NodeMut { id: node.id }, cursor));
        let r = PostOrderMut { nodes };
        proof {
            assert(r.nodes@.drop_last() =~= Seq::<(NodeMut, NextSiblingsMut)>::empty());
            assert(stack_post(*tree, r.nodes@.drop_last()) == Seq::<usize>::empty());
            assert(r.remaining(*tree) =~= post_tree(*tree, node.id.index));
        }
        r
    }

    /// Step the cursor: pop the top frame; if it still has an unfinished
    /// child, descend through leftmost children to the next leaf; otherwise
    /// the popped node itself has reached its post-order point.
    pub fn next<T>(&mut self, tree: &Tree<T>) -> (r: Option<NodeMut>)
        requires
            tree.wf(),
            old(self).ok(*tree),
        ensures
            final(self).ok(*tree),
            match r {
                None => old(self).remaining(*tree).len() == 0 && final(self).remaining(*tree).len()
                    == 0,
                Some(nm) => old(self).remaining(*tree).len() > 0 && nm.id.index == old(
                    self,
                ).remaining(*tree)[0] && tree.live(nm.id.index) && final(self).remaining(*tree)
                    == old(self).remaining(*tree).skip(1),
            },
    {
        if self.nodes.len() == 0 {
            return None;
        }
        let ghost s0 = self.nodes@;
        let popped = self.nodes.pop();
        let (node, mut children) = match popped {
            Some(frame) => frame,
            None => vstd::pervasive::unreached(),
        };
        let yielded = children.next(tree);
        match yielded {
            None => {
                proof {
                    assert(post_forest(*tree, s0.last().1.head()) == Seq::<usize>::empty());
                    assert(stack_post(*tree, s0) =~= seq![node.id.index] + stack_post(
                        *tree,
                        self.nodes@,
                    ));
                    assert(self.remaining(*tree) =~= old(self).remaining(*tree).skip(1));
                }
                Some(node)
            }
            Some(first) => {
                let ghost c = first.id.index;
                self.nodes.push((node, children));
                let mut cur = first;
                proof {
                    assert(tree.wf_node(c));
                    assert(self.nodes@.drop_last() =~= s0.drop_last());
                    assert(post_forest(*tree, Some(c)) == post_forest(
                        *tree,
                        tree.first_child_of(c),
                    ) + seq![c] + post_forest(*tree, tree.next_of(c)));
                    assert(post_tree(*tree, c) + stack_post(*tree, self.nodes@) =~= old(
                        self,
                    ).remaining(*tree));
                }
                loop
                    invariant
                        tree.wf(),
                        frames_ok(*tree, self.nodes@),
                        tree.live(cur.id.index),
                        post_tree(*tree, cur.id.index) + stack_post(*tree, self.nodes@) == old(
                            self,
                        ).remaining(*tree),
                    decreases tree.n() - tree.depth_of(cur.id.index),
                {
                    proof {
                        assert(tree.wf_node(cur.id.index));
                    }
                    let nd = tree.get_node(cur.id.index);
                    match nd.first_child {
                        None => {
                            proof {
                                assert(post_forest(*tree, tree.first_child_of(cur.id.index))
                                    == Seq::<usize>::empty());
                                assert(post_tree(*tree, cur.id.index) =~= seq![cur.id.index]);
                                assert(old(self).remaining(*tree) =~= seq![cur.id.index]
                                    + stack_post(*tree, self.nodes@));
                                assert(self.remaining(*tree) =~= old(self).remaining(
                                    *tree,
                                ).skip(1));
                            }
                            return Some(cur);
                        }
                        Some(f) => {
                            proof {
                                assert(tree.wf_node(f));
                            }
                            let mut kids = NextSiblingsMut::new(Some(NodeId { index: f }));
                            let first_kid = kids.next(tree);
                            let stepped = match first_kid {
                                Some(nm) => nm,
                                None => vstd::pervasive::unreached(),
                            };
                            let ghost mid = self.nodes@;
                            self.nodes.push((cur, kids));
                            proof {
                                assert(self.nodes@.drop_last() =~= mid);
                                assert(post_forest(*tree, Some(f)) == post_forest(
                                    *tree,
                                    tree.first_child_of(f),
                                ) + seq![f] + post_forest(*tree, tree.next_of(f)));
                                assert(post_tree(*tree, f) + stack_post(*tree, self.nodes@) =~= old(
                                    self,
                                ).remaining(*tree));
                            }
                            cur = stepped;
                        }
                    }
                }
            }
        }
    }
}

/// Breadth-first (level-order) cursor: yields every node of a subtree
/// exactly once, all nodes of one depth before any node of the next, and
/// within a level grouped by the order their parents were visited.
///
/// The cursor keeps the already-visited frontier by stored id and opens one
/// fresh sibling-run cursor at a time over a visited node's children, so
/// only one run is ever walked at once.
pub struct LevelOrder {
    pub queue: Vec<NodeId>,
    pub pos: usize,
}

impl LevelOrder {
    /// The ids whose subtrees are still owed, oldest first.
    pub open spec fn pending(self) -> Seq<usize> {
        self.queue@.skip(self.pos as int).map_values(|id: NodeId| id.index)
    }

    pub open spec fn ok<T>(self, t: Tree<T>) -> bool {
        self.pos <= self.queue@.len() && all_live(t, self.pending())
    }

    /// The exact sequence of indices the cursor will still produce.
    pub open spec fn remaining<T>(self, t: Tree<T>) -> Seq<usize> {
        bfs_rows(t, self.pending(), (t.n() + 1) as nat)
    }

    /// A cursor over the subtree rooted at `node`.
    pub fn new<T>(node: &NodeMut, tree: &Tree<T>) -> (r: LevelOrder)
        requires
            tree.wf(),
            tree.live(node.id.index),
        ensures
            r.ok(*tree),
            r.remaining(*tree) == level_tree(*tree, node.id.index),
    {
        let mut queue: Vec<NodeId> = Vec::new();
        queue.push(node.id);
        let r = LevelOrder { queue, pos: 0 };
        proof {
            assert(r.pending() =~= seq![node.id.index]);
        }
        r
    }

    /// Step the cursor: yield the oldest pending node and append its
    /// children, read through a fresh sibling-run cursor, to the frontier.
    pub fn next<T>(&mut self, tree: &Tree<T>) -> (r: Option<NodeMut>)
        requires
            tree.wf(),
            old(self).ok(*tree),
        ensures
            final(self).ok(*tree),
            match r {
                None => old(self).remaining(*tree).len() == 0 && final(self).remaining(*tree).len()
                    == 0,
                Some(nm) => old(self).remaining(*tree).len() > 0 && nm.id.index == old(
                    self,
                ).remaining(*tree)[0] && tree.live(nm.id.index) && final(self).remaining(*tree)
                    == old(self).remaining(*tree).skip(1),
            },
    {
        if self.pos >= self.queue.len() {
            proof {
                assert(self.pending() =~= Seq::<usize>::empty());
            }
            return None;
        }
        let id = self.queue[self.pos];
        self.pos = self.pos + 1;
        let ghost x = id.index;
        let ghost rest0 = self.pending();
        proof {
            assert(old(self).pending()[0] == x);
            assert(rest0 =~= old(self).pending().skip(1));
            assert(old(self).pending() =~= seq![x] + rest0);
            assert(tree.live(x));
            assert(tree.wf_node(x));
        }
        let nd = tree.get_node(id.index);
        let mut kids = NextSiblingsMut::new(
            match nd.first_child {
                Some(c) => Some(NodeId { index: c }),
                None => None,
            },
        );
        proof {
            assert(kids.head() == tree.first_child_of(x));
        }
        loop
            invariant
                tree.wf(),
                kids.ok(*tree),
                self.pos <= self.queue@.len(),
                all_live(*tree, self.pending()),
                self.pending() + kids.remaining(*tree) == rest0 + chain(
                    *tree,
                    tree.first_child_of(x),
                ),
            ensures
                self.pos <= self.queue@.len(),
                all_live(*tree, self.pending()),
                self.pending() == rest0 + chain(*tree, tree.first_child_of(x)),
            decreases kids.remaining(*tree).len(),
        {
            let ghost before = self.pending();
            let kid = kids.next(tree);
            match kid {
                Some(nm) => {
                    self.queue.push(nm.id);
                    proof {
                        assert(self.pending() =~= before + seq![nm.id.index]);
                        assert(self.pending() + kids.remaining(*tree) =~= rest0 + chain(
                            *tree,
                            tree.first_child_of(x),
                        ));
                    }
                }
                None => {
                    proof {
                        assert(kids.remaining(*tree) =~= Seq::<usize>::empty());
                        assert(self.pending() + kids.remaining(*tree) =~= self.pending());
                    }
                    break;
                }
            }
        }
        proof {
            lemma_bfs_step(*tree, x, rest0);
            assert(old(self).remaining(*tree) == seq![x] + bfs_rows(
                *tree,
                self.pending(),
                (tree.n() + 1) as nat,
            ));
            assert(self.remaining(*tree) =~= old(self).remaining(*tree).skip(1));
        }
        Some(NodeMut { id })
    }
}

} // verus!
