use vstd::prelude::*;

use crate::tree::Tree;

verus! {

/// An optional head index is usable when it is either absent or live.
pub open spec fn head_ok<T>(t: Tree<T>, head: Option<usize>) -> bool {
    match head {
        Some(i) => t.live(i),
        None => true,
    }
}

/// The run of siblings starting at `head`, following `next_sibling` links
/// left to right until they run out.
pub open spec fn chain<T>(t: Tree<T>, head: Option<usize>) -> Seq<usize>
    decreases (match head {
        Some(i) => t.n() - t.rank_of(i),
        None => 0int,
    })
        when t.wf() && head_ok(t, head)
{
    match head {
        None => Seq::empty(),
        Some(i) => seq![i] + chain(t, t.next_of(i)),
    }
}

/// The strict ancestor chain of `i`: parent, grandparent, ..., up to the
/// node with no parent.
pub open spec fn ancestor_chain<T>(t: Tree<T>, i: usize) -> Seq<usize>
    decreases t.depth_of(i)
        when t.wf() && t.live(i)
{
    match t.parent_of(i) {
        None => Seq::empty(),
        Some(p) => seq![p] + ancestor_chain(t, p),
    }
}

/// The depth of a node: how many parent links separate it from the root of
/// its tree.
pub open spec fn node_depth<T>(t: Tree<T>, i: usize) -> int
    decreases t.depth_of(i)
        when t.wf() && t.live(i)
{
    match t.parent_of(i) {
        None => 0,
        Some(p) => node_depth(t, p) + 1,
    }
}

/// Is `x` inside the subtree rooted at `n` (including `n` itself)?
pub open spec fn in_subtree<T>(t: Tree<T>, x: usize, n: usize) -> bool
    decreases t.depth_of(x)
        when t.wf() && t.live(x)
{
    x == n || (match t.parent_of(x) {
        Some(p) => in_subtree(t, p, n),
        None => false,
    })
}

/// Depth-first pre-order of the forest of subtrees rooted at the sibling
/// run starting at `head`.
pub open spec fn pre_forest<T>(t: Tree<T>, head: Option<usize>) -> Seq<usize>
    decreases
        (match head {
            Some(i) => t.n() - t.depth_of(i),
            None => 0int,
        }),
        (match head {
            Some(i) => t.n() - t.rank_of(i),
            None => 0int,
        }),
        when t.wf() && head_ok(t, head)
{
    match head {
        None => Seq::empty(),
        Some(i) => seq![i] + pre_forest(t, t.first_child_of(i)) + pre_forest(t, t.next_of(i)),
    }
}

/// Depth-first pre-order of the subtree rooted at `i`.
pub open spec fn pre_tree<T>(t: Tree<T>, i: usize) -> Seq<usize> {
    seq![i] + pre_forest(t, t.first_child_of(i))
}

/// Depth-first post-order of the forest of subtrees rooted at the sibling
/// run starting at `head`.
pub open spec fn post_forest<T>(t: Tree<T>, head: Option<usize>) -> Seq<usize>
    decreases
        (match head {
            Some(i) => t.n() - t.depth_of(i),
            None => 0int,
        }),
        (match head {
            Some(i) => t.n() - t.rank_of(i),
            None => 0int,
        }),
        when t.wf() && head_ok(t, head)
{
    match head {
        None => Seq::empty(),
        Some(i) => post_forest(t, t.first_child_of(i)) + seq![i] + post_forest(t, t.next_of(i)),
    }
}

/// Depth-first post-order of the subtree rooted at `i`.
pub open spec fn post_tree<T>(t: Tree<T>, i: usize) -> Seq<usize> {
    post_forest(t, t.first_child_of(i)) + seq![i]
}

/// Every index of `q` denotes a live node.
pub open spec fn all_live<T>(t: Tree<T>, q: Seq<usize>) -> bool {
    forall|k: int| 0 <= k < q.len() ==> t.live(#[trigger] q[k])
}

/// All children of the nodes of `q`, grouped by parent, left to right.
pub open spec fn children_of_row<T>(t: Tree<T>, q: Seq<usize>) -> Seq<usize>
    decreases q.len(),
{
    if q.len() == 0 {
        Seq::empty()
    } else {
        chain(t, t.first_child_of(q[0])) + children_of_row(t, q.skip(1))
    }
}

/// Breadth-first order of the forest rooted at the nodes of `q`: the nodes
/// of `q` themselves, then all their children, then all grandchildren, and
/// so on.  `fuel` bounds the number of generations expanded; any fuel of at
/// least `t.n()` is enough, since depths are bounded by the arena size.
pub open spec fn bfs_rows<T>(t: Tree<T>, q: Seq<usize>, fuel: nat) -> Seq<usize>
    decreases fuel,
{
    if fuel == 0 || q.len() == 0 {
        Seq::empty()
    } else {
        q + bfs_rows(t, children_of_row(t, q), (fuel - 1) as nat)
    }
}

/// Breadth-first (level) order of the subtree rooted at `i`.
pub open spec fn level_tree<T>(t: Tree<T>, i: usize) -> Seq<usize> {
    bfs_rows(t, seq![i], (t.n() + 1) as nat)
}

/// Basic facts about a sibling run: every member is live, they all share
/// the parent of the head, their ranks step by one (so the run never
/// repeats a node), and the run starts at the head.
pub proof fn lemma_chain_props<T>(t: Tree<T>, head: Option<usize>)
    requires
        t.wf(),
        head_ok(t, head),
    ensures
        forall|k: int| 0 <= k < chain(t, head).len() ==> t.live(#[trigger] chain(t, head)[k]),
        forall|k: int| 0 <= k < chain(t, head).len() ==> t.node_of(#[trigger] chain(t, head)[k]).parent
            == (match head {
            Some(i) => t.node_of(i).parent,
            None => None::<usize>,
        }),
        forall|k: int| 0 <= k < chain(t, head).len() ==> t.rank_of(#[trigger] chain(t, head)[k])
            == (match head {
            Some(i) => t.rank_of(i) + k,
            None => 0int,
        }),
        match head {
            Some(i) => chain(t, head).len() >= 1 && chain(t, head)[0] == i,
            None => chain(t, head).len() == 0,
        },
        forall|j: int, k: int|
            0 <= j < k < chain(t, head).len() ==> #[trigger] chain(t, head)[j]
                != #[trigger] chain(t, head)[k],
        forall|k: int| 0 <= k < chain(t, head).len() ==> t.depth_of(#[trigger] chain(t, head)[k])
            == (match head {
            Some(i) => t.depth_of(i),
            None => 0int,
        }),
        forall|k: int| 0 <= k < chain(t, head).len() - 1 ==> t.next_of(#[trigger] chain(t, head)[k])
            == Some(chain(t, head)[k + 1]),
        chain(t, head).len() > 0 ==> t.next_of(chain(t, head).last()) is None,
    decreases (match head {
        Some(i) => t.n() - t.rank_of(i),
        None => 0int,
    }),
{
    match head {
        None => {}
        Some(i) => {
            assert(t.live(i));
            assert(t.wf_node(i));
            lemma_chain_props(t, t.next_of(i));
        }
    }
}

/// Basic facts about the ancestor chain: its length is the node's depth,
/// each entry is the parent of the one before it, and it ends at a node
/// with no parent.
pub proof fn lemma_ancestors_props<T>(t: Tree<T>, i: usize)
    requires
        t.wf(),
        t.live(i),
    ensures
        ancestor_chain(t, i).len() == node_depth(t, i),
        match t.parent_of(i) {
            Some(p) => ancestor_chain(t, i).len() >= 1 && ancestor_chain(t, i)[0] == p,
            None => ancestor_chain(t, i).len() == 0,
        },
        forall|k: int| 0 <= k < ancestor_chain(t, i).len() ==> t.live(
            #[trigger] ancestor_chain(t, i)[k],
        ),
        forall|k: int| 0 <= k < ancestor_chain(t, i).len() - 1 ==> t.parent_of(
            #[trigger] ancestor_chain(t, i)[k],
        ) == Some(ancestor_chain(t, i)[k + 1]),
        ancestor_chain(t, i).len() > 0 ==> t.parent_of(ancestor_chain(t, i).last()) is None,
        forall|k: int| 0 <= k < ancestor_chain(t, i).len() ==> node_depth(
            t,
            #[trigger] ancestor_chain(t, i)[k],
        ) == node_depth(t, i) - 1 - k,
    decreases t.depth_of(i),
{
    assert(t.wf_node(i));
    match t.parent_of(i) {
        None => {}
        Some(p) => {
            lemma_ancestors_props(t, p);
        }
    }
}

/// The children of a row of live nodes are live and stand one level deeper
/// (measured by the ghost depth map).
pub proof fn lemma_row_children<T>(t: Tree<T>, q: Seq<usize>, d: int)
    requires
        t.wf(),
        all_live(t, q),
        forall|k: int| 0 <= k < q.len() ==> t.depth_of(#[trigger] q[k]) >= d,
    ensures
        all_live(t, children_of_row(t, q)),
        forall|k: int| 0 <= k < children_of_row(t, q).len() ==> t.depth_of(
            #[trigger] children_of_row(t, q)[k],
        ) >= d + 1,
    decreases q.len(),
{
    if q.len() == 0 {
    } else {
        let x = q[0];
        assert(t.live(x));
        assert(t.wf_node(x));
        let ch = chain(t, t.first_child_of(x));
        lemma_chain_props(t, t.first_child_of(x));
        match t.first_child_of(x) {
            Some(c) => {
                assert(t.wf_node(c));
                assert(t.depth_of(c) == t.depth_of(x) + 1);
            }
            None => {}
        }
        assert(forall|k: int| 0 <= k < q.skip(1).len() ==> t.live(#[trigger] q.skip(1)[k]));
        lemma_row_children(t, q.skip(1), d);
        assert forall|k: int| 0 <= k < children_of_row(t, q).len() implies t.live(
            #[trigger] children_of_row(t, q)[k],
        ) && t.depth_of(children_of_row(t, q)[k]) >= d + 1 by {
            if k < ch.len() {
                assert(children_of_row(t, q)[k] == ch[k]);
            } else {
                assert(children_of_row(t, q)[k] == children_of_row(t, q.skip(1))[k - ch.len()]);
            }
        }
    }
}

/// Once the fuel covers the remaining depth of the arena, the breadth-first
/// expansion no longer depends on it.
pub proof fn lemma_bfs_fuel<T>(t: Tree<T>, q: Seq<usize>, d: int, f1: nat, f2: nat)
    requires
        t.wf(),
        all_live(t, q),
        forall|k: int| 0 <= k < q.len() ==> t.depth_of(#[trigger] q[k]) >= d,
        f1 >= t.n() - d,
        f2 >= t.n() - d,
    ensures
        bfs_rows(t, q, f1) == bfs_rows(t, q, f2),
    decreases f1,
{
    if q.len() == 0 {
    } else {
        assert(t.live(q[0]));
        assert(t.wf_node(q[0]));
        assert(d < t.n());
        lemma_row_children(t, q, d);
        lemma_bfs_fuel(t, children_of_row(t, q), d + 1, (f1 - 1) as nat, (f2 - 1) as nat);
    }
}

/// Collecting children distributes over concatenation of rows.
pub proof fn lemma_row_concat<T>(t: Tree<T>, a: Seq<usize>, b: Seq<usize>)
    ensures
        children_of_row(t, a + b) == children_of_row(t, a) + children_of_row(t, b),
    decreases a.len(),
{
    if a.len() == 0 {
        assert(a + b =~= b);
        assert(children_of_row(t, a) + children_of_row(t, b) =~= children_of_row(t, b));
    } else {
        assert((a + b)[0] == a[0]);
        assert((a + b).skip(1) =~= a.skip(1) + b);
        lemma_row_concat(t, a.skip(1), b);
        assert(children_of_row(t, a + b) =~= children_of_row(t, a) + children_of_row(t, b));
    }
}

/// Rotation of the breadth-first expansion: expanding a queue `a + b` is
/// the nodes of `a`, then the expansion of `b` followed by `a`'s children.
/// This is the step a queue-driven cursor takes.
pub proof fn lemma_bfs_rot<T>(t: Tree<T>, a: Seq<usize>, b: Seq<usize>, d: int, f: nat)
    requires
        t.wf(),
        all_live(t, a),
        all_live(t, b),
        forall|k: int| 0 <= k < a.len() ==> t.depth_of(#[trigger] a[k]) >= d,
        forall|k: int| 0 <= k < b.len() ==> t.depth_of(#[trigger] b[k]) >= d,
        f >= t.n() - d,
    ensures
        bfs_rows(t, a + b, f) == a + bfs_rows(t, b + children_of_row(t, a), f),
    decreases f,
{
    lemma_row_concat(t, a, b);
    if a.len() == 0 {
        assert(a + b =~= b);
        assert(children_of_row(t, a) == Seq::<usize>::empty());
        assert(b + children_of_row(t, a) =~= b);
        assert(bfs_rows(t, a + b, f) =~= a + bfs_rows(t, b + children_of_row(t, a), f));
    } else {
        assert(t.live(a[0]));
        assert(t.wf_node(a[0]));
        assert(d < t.n());
        let ca = children_of_row(t, a);
        let cb = children_of_row(t, b);
        lemma_row_children(t, a, d);
        lemma_row_children(t, b, d);
        assert((a + b).len() > 0);
        if b.len() == 0 && ca.len() == 0 {
            assert(b + ca =~= Seq::<usize>::empty());
            assert(children_of_row(t, a + b) =~= Seq::<usize>::empty());
            assert(bfs_rows(t, children_of_row(t, a + b), (f - 1) as nat) == Seq::<usize>::empty());
            assert(bfs_rows(t, a + b, f) =~= a + bfs_rows(t, b + ca, f));
        } else {
            assert((b + ca).len() > 0);
            lemma_row_concat(t, b, ca);
            assert(forall|k: int| 0 <= k < (b + ca).len() ==> t.live(#[trigger] (b + ca)[k]));
            lemma_bfs_rot(t, ca, cb, d + 1, (f - 1) as nat);
            assert(bfs_rows(t, ca + cb, (f - 1) as nat) == ca + bfs_rows(
                t,
                cb + children_of_row(t, ca),
                (f - 1) as nat,
            ));
            assert(bfs_rows(t, a + b, f) == (a + b) + bfs_rows(t, ca + cb, (f - 1) as nat));
            assert(bfs_rows(t, b + ca, f) == (b + ca) + bfs_rows(
                t,
                cb + children_of_row(t, ca),
                (f - 1) as nat,
            ));
            assert(bfs_rows(t, a + b, f) =~= a + bfs_rows(t, b + ca, f));
        }
    }
}

/// One step of a queue-driven breadth-first cursor: the head of the queue
/// is produced, and its children join the back of the queue.
pub proof fn lemma_bfs_step<T>(t: Tree<T>, x: usize, rest: Seq<usize>)
    requires
        t.wf(),
        t.live(x),
        all_live(t, rest),
    ensures
        bfs_rows(t, seq![x] + rest, (t.n() + 1) as nat) == seq![x] + bfs_rows(
            t,
            rest + chain(t, t.first_child_of(x)),
            (t.n() + 1) as nat,
        ),
{
    assert(t.wf_node(x));
    assert forall|k: int| 0 <= k < rest.len() implies t.depth_of(#[trigger] rest[k]) >= 0 by {
        assert(t.live(rest[k]));
        assert(t.wf_node(rest[k]));
    }
    assert forall|k: int| 0 <= k < seq![x].len() implies t.depth_of(#[trigger] seq![x][k]) >= 0
    by {
        assert(seq![x][k] == x);
    }
    lemma_bfs_rot(t, seq![x], rest, 0, (t.n() + 1) as nat);
    assert(seq![x].skip(1) =~= Seq::<usize>::empty());
    assert(children_of_row(t, seq![x].skip(1)) == Seq::<usize>::empty());
    assert(seq![x][0] == x);
    assert(children_of_row(t, seq![x]) =~= chain(t, t.first_child_of(x)));
    assert(rest + children_of_row(t, seq![x]) == rest + chain(t, t.first_child_of(x)));
}

/// Every child of `p` appears in the sibling run that starts at `p`'s
/// first child.
pub proof fn lemma_chain_complete<T>(t: Tree<T>, p: usize, x: usize)
    requires
        t.wf(),
        t.live(x),
        t.parent_of(x) == Some(p),
    ensures
        chain(t, t.first_child_of(p)).contains(x),
    decreases t.rank_of(x) + t.n(),
{
    assert(t.wf_node(x));
    let ch = chain(t, t.first_child_of(p));
    lemma_chain_props(t, t.first_child_of(p));
    match t.prev_of(x) {
        None => {
            assert(t.first_child_of(p) == Some(x));
            assert(ch[0] == x);
        }
        Some(q) => {
            assert(t.wf_node(q));
            lemma_chain_complete(t, p, q);
            let m = choose|m: int| 0 <= m < ch.len() && ch[m] == q;
            assert(t.next_of(ch[m]) == Some(x));
            if m == ch.len() - 1 {
                assert(t.next_of(ch.last()) is None);
            }
            assert(ch[m + 1] == x);
        }
    }
}

/// A node inside a subtree lies at least as deep as the subtree's root, and
/// strictly deeper unless it is the root itself.
pub proof fn lemma_in_subtree_depth<T>(t: Tree<T>, x: usize, n: usize)
    requires
        t.wf(),
        t.live(x),
        in_subtree(t, x, n),
    ensures
        t.live(n),
        node_depth(t, x) >= node_depth(t, n),
        x != n ==> node_depth(t, x) > node_depth(t, n),
    decreases t.depth_of(x),
{
    assert(t.wf_node(x));
    if x == n {
    } else {
        match t.parent_of(x) {
            Some(q) => {
                lemma_in_subtree_depth(t, q, n);
            }
            None => {}
        }
    }
}

/// Subtree containment is transitive.
pub proof fn lemma_in_subtree_trans<T>(t: Tree<T>, x: usize, m: usize, n: usize)
    requires
        t.wf(),
        t.live(x),
        in_subtree(t, x, m),
        in_subtree(t, m, n),
    ensures
        in_subtree(t, x, n),
    decreases t.depth_of(x),
{
    assert(t.wf_node(x));
    if x == m {
    } else {
        match t.parent_of(x) {
            Some(q) => {
                lemma_in_subtree_trans(t, q, m, n);
            }
            None => {}
        }
    }
}

/// Two ancestors of one node with equal depth are the same node.
pub proof fn lemma_ancestor_unique<T>(t: Tree<T>, x: usize, a: usize, b: usize)
    requires
        t.wf(),
        t.live(x),
        in_subtree(t, x, a),
        in_subtree(t, x, b),
        node_depth(t, a) == node_depth(t, b),
    ensures
        a == b,
    decreases t.depth_of(x),
{
    assert(t.wf_node(x));
    if x == a {
        lemma_in_subtree_depth(t, x, b);
    } else if x == b {
        lemma_in_subtree_depth(t, x, a);
    } else {
        match t.parent_of(x) {
            Some(q) => {
                lemma_ancestor_unique(t, q, a, b);
            }
            None => {}
        }
    }
}

/// A node strictly inside the subtree of `n` lies in the subtree of one of
/// `n`'s children.
pub proof fn lemma_subtree_step_down<T>(t: Tree<T>, x: usize, n: usize)
    requires
        t.wf(),
        t.live(x),
        in_subtree(t, x, n),
        x != n,
    ensures
        exists|c: usize|
            #[trigger] chain(t, t.first_child_of(n)).contains(c) && in_subtree(t, x, c),
    decreases t.depth_of(x),
{
    assert(t.wf_node(x));
    lemma_in_subtree_depth(t, x, n);
    match t.parent_of(x) {
        Some(q) => {
            if q == n {
                lemma_chain_complete(t, n, x);
                assert(chain(t, t.first_child_of(n)).contains(x) && in_subtree(t, x, x));
            } else {
                lemma_subtree_step_down(t, q, n);
                let c = choose|c: usize|
                    #[trigger] chain(t, t.first_child_of(n)).contains(c) && in_subtree(t, q, c);
                assert(in_subtree(t, q, q));
                assert(in_subtree(t, x, q));
                lemma_in_subtree_trans(t, x, q, c);
                assert(chain(t, t.first_child_of(n)).contains(c) && in_subtree(t, x, c));
            }
        }
        None => {}
    }
}

/// The pre-order forest of a sibling run holds exactly the live nodes lying
/// in the subtrees of the run's members, and holds each of them once.
#[verifier::rlimit(100)]
#[verifier::spinoff_prover]
pub proof fn lemma_forest_membership<T>(t: Tree<T>, head: Option<usize>)
    requires
        t.wf(),
        head_ok(t, head),
    ensures
        forall|k: int| 0 <= k < pre_forest(t, head).len() ==> t.live(#[trigger] pre_forest(t, head)[k]),
        forall|x: usize| #[trigger] pre_forest(t, head).contains(x) <==> (t.live(x) && exists|m: int|
            0 <= m < chain(t, head).len() && in_subtree(t, x, #[trigger] chain(t, head)[m])),
        forall|j: int, k: int|
            0 <= j < k < pre_forest(t, head).len() ==> pre_forest(t, head)[j] != pre_forest(
                t,
                head,
            )[k],
    decreases
        (match head {
            Some(i) => t.n() - t.depth_of(i),
            None => 0int,
        }),
        (match head {
            Some(i) => t.n() - t.rank_of(i),
            None => 0int,
        }),
{
    match head {
        None => {
            assert(pre_forest(t, head).len() == 0);
        }
        Some(i) => {
            assert(t.wf_node(i));
            lemma_chain_props(t, t.first_child_of(i));
            lemma_chain_props(t, t.next_of(i));
            lemma_chain_props(t, head);
            lemma_forest_membership(t, t.first_child_of(i));
            lemma_forest_membership(t, t.next_of(i));
            let f = pre_forest(t, head);
            let ffc = pre_forest(t, t.first_child_of(i));
            let fns = pre_forest(t, t.next_of(i));
            let cfc = chain(t, t.first_child_of(i));
            let cns = chain(t, t.next_of(i));
            let ch = chain(t, head);
            assert(f == seq![i] + ffc + fns);
            assert(ch == seq![i] + cns);
            assert(in_subtree(t, i, i));
            // every member of the run below i is one level deeper, every
            // member of the run beside i sits at the same level
            assert forall|m: int| 0 <= m < cfc.len() implies t.live(#[trigger] cfc[m])
                && t.parent_of(cfc[m]) == Some(i) && in_subtree(t, cfc[m], i) && node_depth(
                t,
                cfc[m],
            ) == node_depth(t, i) + 1 by {
                assert(t.wf_node(cfc[m]));
            }
            assert forall|m: int| 0 <= m < cns.len() implies t.live(#[trigger] cns[m])
                && t.node_of(cns[m]).parent == t.node_of(i).parent && node_depth(t, cns[m])
                == node_depth(t, i) && cns[m] != i by {
                assert(t.wf_node(cns[m]));
                assert(t.rank_of(cns[m]) > t.rank_of(i));
            }
            // liveness
            assert forall|k: int| 0 <= k < f.len() implies t.live(#[trigger] f[k]) by {
                if k == 0 {
                } else if k <= ffc.len() {
                    assert(f[k] == ffc[k - 1]);
                } else {
                    assert(f[k] == fns[k - 1 - ffc.len()]);
                }
            }
            // membership, forward
            assert forall|x: usize| #[trigger] f.contains(x) implies (t.live(x) && exists|m: int|
                0 <= m < ch.len() && in_subtree(t, x, #[trigger] ch[m])) by {
                let kx = choose|kx: int| 0 <= kx < f.len() && f[kx] == x;
                if kx == 0 {
                    assert(ch[0] == i);
                    assert(0 <= 0 < ch.len() && in_subtree(t, x, ch[0]));
                } else if kx <= ffc.len() {
                    assert(ffc[kx - 1] == x);
                    assert(ffc.contains(x));
                    let m1 = choose|m1: int| 0 <= m1 < cfc.len() && in_subtree(t, x, cfc[m1]);
                    lemma_in_subtree_trans(t, x, cfc[m1], i);
                    assert(ch[0] == i);
                    assert(0 <= 0 < ch.len() && in_subtree(t, x, ch[0]));
                } else {
                    assert(fns[kx - 1 - ffc.len()] == x);
                    assert(fns.contains(x));
                    let m1 = choose|m1: int| 0 <= m1 < cns.len() && in_subtree(t, x, cns[m1]);
                    assert(ch[m1 + 1] == cns[m1]);
                    assert(0 <= m1 + 1 < ch.len() && in_subtree(t, x, ch[m1 + 1]));
                }
            }
            // membership, backward
            assert forall|x: usize| t.live(x) && (exists|m: int|
                0 <= m < ch.len() && in_subtree(t, x, #[trigger] ch[m])) implies f.contains(x) by {
                let m = choose|m: int| 0 <= m < ch.len() && in_subtree(t, x, ch[m]);
                if m == 0 {
                    if x == i {
                        assert(f[0] == x);
                    } else {
                        lemma_subtree_step_down(t, x, i);
                        let c = choose|c: usize|
                            #[trigger] cfc.contains(c) && in_subtree(t, x, c);
                        let mc = choose|mc: int| 0 <= mc < cfc.len() && cfc[mc] == c;
                        assert(0 <= mc < cfc.len() && in_subtree(t, x, cfc[mc]));
                        assert(ffc.contains(x));
                        let kx = choose|kx: int| 0 <= kx < ffc.len() && ffc[kx] == x;
                        assert(f[kx + 1] == x);
                    }
                } else {
                    assert(cns[m - 1] == ch[m]);
                    assert(0 <= m - 1 < cns.len() && in_subtree(t, x, cns[m - 1]));
                    assert(fns.contains(x));
                    let kx = choose|kx: int| 0 <= kx < fns.len() && fns[kx] == x;
                    assert(f[1 + ffc.len() + kx] == x);
                }
            }
            // distinctness
            assert forall|j: int, k: int| 0 <= j < k < f.len() implies f[j] != f[k] by {
                if j == 0 && k <= ffc.len() {
                    let x = ffc[k - 1];
                    assert(f[k] == x);
                    assert(ffc.contains(x));
                    let m1 = choose|m1: int| 0 <= m1 < cfc.len() && in_subtree(t, x, cfc[m1]);
                    lemma_in_subtree_depth(t, x, cfc[m1]);
                } else if j == 0 {
                    let x = fns[k - 1 - ffc.len()];
                    assert(f[k] == x);
                    assert(fns.contains(x));
                    let m1 = choose|m1: int| 0 <= m1 < cns.len() && in_subtree(t, x, cns[m1]);
                    if x == i {
                        lemma_in_subtree_depth(t, x, cns[m1]);
                    }
                } else if k <= ffc.len() {
                    assert(f[j] == ffc[j - 1] && f[k] == ffc[k - 1]);
                } else if j > ffc.len() {
                    assert(f[j] == fns[j - 1 - ffc.len()] && f[k] == fns[k - 1 - ffc.len()]);
                } else {
                    let x1 = ffc[j - 1];
                    let x2 = fns[k - 1 - ffc.len()];
                    assert(f[j] == x1 && f[k] == x2);
                    if x1 == x2 {
                        assert(ffc.contains(x1));
                        assert(fns.contains(x2));
                        let m1 = choose|m1: int| 0 <= m1 < cfc.len() && in_subtree(t, x1, cfc[m1]);
                        let m2 = choose|m2: int| 0 <= m2 < cns.len() && in_subtree(t, x2, cns[m2]);
                        lemma_in_subtree_trans(t, x1, cfc[m1], i);
                        lemma_ancestor_unique(t, x1, i, cns[m2]);
                    }
                }
            }
        }
    }
}

/// A node inside a subtree lies at least as deep as the subtree's root by
/// the ghost depth measure as well.
pub proof fn lemma_in_subtree_ghost_depth<T>(t: Tree<T>, x: usize, n: usize)
    requires
        t.wf(),
        t.live(x),
        in_subtree(t, x, n),
    ensures
        t.live(n),
        t.depth_of(x) >= t.depth_of(n),
        x != n ==> t.depth_of(x) > t.depth_of(n),
    decreases t.depth_of(x),
{
    assert(t.wf_node(x));
    if x == n {
    } else {
        match t.parent_of(x) {
            Some(q) => {
                lemma_in_subtree_ghost_depth(t, q, n);
            }
            None => {}
        }
    }
}

/// The pre-order sequence of a subtree holds exactly the live nodes of
/// that subtree, each exactly once, starting with the root.
pub proof fn lemma_pre_tree_membership<T>(t: Tree<T>, c: usize)
    requires
        t.wf(),
        t.live(c),
    ensures
        pre_tree(t, c).len() >= 1,
        pre_tree(t, c)[0] == c,
        forall|k: int| 0 <= k < pre_tree(t, c).len() ==> t.live(#[trigger] pre_tree(t, c)[k]),
        forall|x: usize| #[trigger] pre_tree(t, c).contains(x) <==> (t.live(x) && in_subtree(
            t,
            x,
            c,
        )),
        forall|j: int, k: int|
            0 <= j < k < pre_tree(t, c).len() ==> pre_tree(t, c)[j] != pre_tree(t, c)[k],
{
    assert(t.wf_node(c));
    lemma_forest_membership(t, t.first_child_of(c));
    lemma_chain_props(t, t.first_child_of(c));
    let f = pre_forest(t, t.first_child_of(c));
    let cfc = chain(t, t.first_child_of(c));
    let s = pre_tree(t, c);
    assert(s == seq![c] + f);
    assert(in_subtree(t, c, c));
    assert forall|m: int| 0 <= m < cfc.len() implies t.live(#[trigger] cfc[m]) && t.parent_of(
        cfc[m],
    ) == Some(c) && in_subtree(t, cfc[m], c) && node_depth(t, cfc[m]) == node_depth(t, c) + 1 by {
        assert(t.wf_node(cfc[m]));
    }
    assert forall|k: int| 0 <= k < s.len() implies t.live(#[trigger] s[k]) by {
        if k > 0 {
            assert(s[k] == f[k - 1]);
        }
    }
    assert forall|x: usize| #[trigger] s.contains(x) implies (t.live(x) && in_subtree(t, x, c)) by {
        let kx = choose|kx: int| 0 <= kx < s.len() && s[kx] == x;
        if kx > 0 {
            assert(f[kx - 1] == x);
            assert(f.contains(x));
            let m = choose|m: int| 0 <= m < cfc.len() && in_subtree(t, x, cfc[m]);
            lemma_in_subtree_trans(t, x, cfc[m], c);
        }
    }
    assert forall|x: usize| t.live(x) && in_subtree(t, x, c) implies s.contains(x) by {
        if x == c {
            assert(s[0] == x);
        } else {
            lemma_subtree_step_down(t, x, c);
            let ch = choose|ch: usize| #[trigger] cfc.contains(ch) && in_subtree(t, x, ch);
            let m = choose|m: int| 0 <= m < cfc.len() && cfc[m] == ch;
            assert(0 <= m < cfc.len() && in_subtree(t, x, cfc[m]));
            assert(f.contains(x));
            let kx = choose|kx: int| 0 <= kx < f.len() && f[kx] == x;
            assert(s[kx + 1] == x);
        }
    }
    assert forall|j: int, k: int| 0 <= j < k < s.len() implies s[j] != s[k] by {
        if j == 0 {
            let x = f[k - 1];
            assert(s[k] == x);
            assert(f.contains(x));
            let m = choose|m: int| 0 <= m < cfc.len() && in_subtree(t, x, cfc[m]);
            lemma_in_subtree_depth(t, x, cfc[m]);
        } else {
            assert(s[j] == f[j - 1] && s[k] == f[k - 1]);
        }
    }
}

/// Subtree membership only reads parent links, so it is unchanged between
/// two trees that agree on every parent link except the subtree root's own.
pub proof fn lemma_in_subtree_frame_one<T>(t1: Tree<T>, t2: Tree<T>, c: usize, x: usize)
    requires
        t1.wf(),
        t2.wf(),
        t1.depth@ == t2.depth@,
        forall|y: usize| t1.live(y) <==> t2.live(y),
        forall|y: usize| #[trigger] t1.live(y) && y != c ==> t1.parent_of(y) == t2.parent_of(y),
        t1.live(x),
    ensures
        in_subtree(t1, x, c) <==> in_subtree(t2, x, c),
    decreases t1.depth_of(x),
{
    assert(t1.wf_node(x));
    assert(t2.wf_node(x));
    if x == c {
    } else {
        match t1.parent_of(x) {
            Some(q) => {
                lemma_in_subtree_frame_one(t1, t2, c, q);
            }
            None => {}
        }
    }
}

/// A sibling run only reads `next_sibling` links of its members, so it is
/// unchanged between two trees that agree on those.
pub proof fn lemma_chain_frame<T>(t1: Tree<T>, t2: Tree<T>, head: Option<usize>)
    requires
        t1.wf(),
        t2.wf(),
        t1.rank@ == t2.rank@,
        t1.n() == t2.n(),
        head_ok(t1, head),
        forall|y: usize| t1.live(y) <==> t2.live(y),
        forall|y: usize|
            #[trigger] chain(t1, head).contains(y) ==> t1.next_of(y) == t2.next_of(y),
    ensures
        chain(t2, head) == chain(t1, head),
    decreases (match head {
        Some(i) => t1.n() - t1.rank_of(i),
        None => 0int,
    }),
{
    match head {
        None => {}
        Some(i) => {
            assert(t1.wf_node(i));
            assert(t2.wf_node(i));
            lemma_chain_props(t1, head);
            assert(chain(t1, head)[0] == i);
            assert(chain(t1, head).contains(i));
            assert forall|y: usize| #[trigger] chain(t1, t1.next_of(i)).contains(y) implies
                t1.next_of(y) == t2.next_of(y) by {
                let m = choose|m: int|
                    0 <= m < chain(t1, t1.next_of(i)).len() && chain(t1, t1.next_of(i))[m] == y;
                assert(chain(t1, head)[m + 1] == y);
                assert(chain(t1, head).contains(y));
            }
            lemma_chain_frame(t1, t2, t1.next_of(i));
        }
    }
}

/// A fully detached subtree root (no parent, no siblings) seals its
/// subtree: no live node outside the subtree links into it.
pub proof fn lemma_subtree_closed<T>(t: Tree<T>, c: usize)
    requires
        t.wf(),
        t.live(c),
        t.parent_of(c) is None,
        t.prev_of(c) is None,
        t.next_of(c) is None,
    ensures
        forall|x: usize|
            t.live(x) && !(#[trigger] pre_tree(t, c).contains(x)) ==> (match t.parent_of(x) {
                Some(y) => !pre_tree(t, c).contains(y),
                None => true,
            }) && (match t.next_of(x) {
                Some(y) => !pre_tree(t, c).contains(y),
                None => true,
            }) && (match t.prev_of(x) {
                Some(y) => !pre_tree(t, c).contains(y),
                None => true,
            }) && (match t.first_child_of(x) {
                Some(y) => !pre_tree(t, c).contains(y),
                None => true,
            }) && (match t.last_child_of(x) {
                Some(y) => !pre_tree(t, c).contains(y),
                None => true,
            }),
{
    lemma_pre_tree_membership(t, c);
    assert(t.wf_node(c));
    assert(pre_tree(t, c).contains(c));
    assert forall|x: usize| t.live(x) && !(#[trigger] pre_tree(t, c).contains(x)) implies (match t.parent_of(
        x,
    ) {
        Some(y) => !pre_tree(t, c).contains(y),
        None => true,
    }) && (match t.next_of(x) {
        Some(y) => !pre_tree(t, c).contains(y),
        None => true,
    }) && (match t.prev_of(x) {
        Some(y) => !pre_tree(t, c).contains(y),
        None => true,
    }) && (match t.first_child_of(x) {
        Some(y) => !pre_tree(t, c).contains(y),
        None => true,
    }) && (match t.last_child_of(x) {
        Some(y) => !pre_tree(t, c).contains(y),
        None => true,
    }) by {
        assert(t.wf_node(x));
        assert(x != c);
        match t.parent_of(x) {
            Some(y) => {
                if pre_tree(t, c).contains(y) {
                    assert(in_subtree(t, y, c));
                    assert(in_subtree(t, x, c));
                    assert(false);
                }
            }
            None => {}
        }
        match t.next_of(x) {
            Some(y) => {
                if pre_tree(t, c).contains(y) {
                    assert(t.wf_node(y));
                    assert(t.prev_of(y) == Some(x));
                    assert(y != c);
                    assert(in_subtree(t, y, c));
                    match t.parent_of(y) {
                        Some(q) => {
                            assert(in_subtree(t, q, c));
                            assert(t.parent_of(x) == Some(q));
                            assert(in_subtree(t, x, c));
                            assert(false);
                        }
                        None => {
                            assert(false);
                        }
                    }
                }
            }
            None => {}
        }
        match t.prev_of(x) {
            Some(y) => {
                if pre_tree(t, c).contains(y) {
                    assert(t.wf_node(y));
                    assert(t.next_of(y) == Some(x));
                    assert(y != c);
                    assert(in_subtree(t, y, c));
                    match t.parent_of(y) {
                        Some(q) => {
                            assert(in_subtree(t, q, c));
                            assert(t.parent_of(x) == Some(q));
                            assert(in_subtree(t, x, c));
                            assert(false);
                        }
                        None => {
                            assert(false);
                        }
                    }
                }
            }
            None => {}
        }
        match t.first_child_of(x) {
            Some(y) => {
                if pre_tree(t, c).contains(y) {
                    assert(t.wf_node(y));
                    assert(t.parent_of(y) == Some(x));
                    assert(y != c);
                    assert(in_subtree(t, y, c));
                    assert(in_subtree(t, x, c));
                    assert(false);
                }
            }
            None => {}
        }
        match t.last_child_of(x) {
            Some(y) => {
                if pre_tree(t, c).contains(y) {
                    assert(t.wf_node(y));
                    assert(t.parent_of(y) == Some(x));
                    assert(y != c);
                    assert(in_subtree(t, y, c));
                    assert(in_subtree(t, x, c));
                    assert(false);
                }
            }
            None => {}
        }
    }
}

/// Convert the liveness change of freeing a detached subtree back to the
/// tree as it stood before the subtree's root was detached: exactly the
/// members of the old subtree die.
#[verifier::rlimit(100)]
#[verifier::spinoff_prover]
pub proof fn lemma_drop_live_set<T>(t0: Tree<T>, t1: Tree<T>, tf: Tree<T>, c: usize)
    requires
        t0.wf(),
        t1.wf(),
        t1.depth@ == t0.depth@,
        forall|y: usize| t1.live(y) <==> t0.live(y),
        forall|y: usize| #[trigger] t1.live(y) && y != c ==> t1.parent_of(y) == t0.parent_of(y),
        t1.live(c),
        forall|j: usize| #[trigger] tf.live(j) <==> (t1.live(j) && !pre_tree(t1, c).contains(j)),
    ensures
        forall|j: usize| #[trigger] tf.live(j) <==> (t0.live(j) && !(t0.live(j) && in_subtree(
            t0,
            j,
            c,
        ))),
{
    lemma_pre_tree_membership(t1, c);
    assert forall|j: usize| #[trigger] tf.live(j) <==> (t0.live(j) && !(t0.live(j) && in_subtree(
        t0,
        j,
        c,
    ))) by {
        if t1.live(j) {
            lemma_in_subtree_frame_one(t1, t0, c, j);
        }
    }
}

/// A live node no deeper than a detached subtree's root (other than the
/// root itself) lies outside that subtree, so freeing the subtree leaves
/// it live.
pub proof fn lemma_outside_subtree_survives<T>(t1: Tree<T>, tf: Tree<T>, c: usize, x: usize)
    requires
        t1.wf(),
        t1.live(c),
        t1.live(x),
        x != c,
        t1.depth_of(x) <= t1.depth_of(c),
        forall|j: usize| #[trigger] tf.live(j) <==> (t1.live(j) && !pre_tree(t1, c).contains(j)),
    ensures
        tf.live(x),
        !pre_tree(t1, c).contains(x),
{
    lemma_pre_tree_membership(t1, c);
    if pre_tree(t1, c).contains(x) {
        assert(in_subtree(t1, x, c));
        lemma_in_subtree_ghost_depth(t1, x, c);
        assert(false);
    }
}

/// The post-order forest of a sibling run holds exactly the live nodes
/// lying in the subtrees of the run's members, and holds each of them once.
#[verifier::rlimit(100)]
#[verifier::spinoff_prover]
pub proof fn lemma_post_forest_membership<T>(t: Tree<T>, head: Option<usize>)
    requires
        t.wf(),
        head_ok(t, head),
    ensures
        forall|k: int| 0 <= k < post_forest(t, head).len() ==> t.live(
            #[trigger] post_forest(t, head)[k],
        ),
        forall|x: usize| #[trigger] post_forest(t, head).contains(x) <==> (t.live(x) && exists|m: int|
            0 <= m < chain(t, head).len() && in_subtree(t, x, #[trigger] chain(t, head)[m])),
        forall|j: int, k: int|
            0 <= j < k < post_forest(t, head).len() ==> post_forest(t, head)[j] != post_forest(
                t,
                head,
            )[k],
    decreases
        (match head {
            Some(i) => t.n() - t.depth_of(i),
            None => 0int,
        }),
        (match head {
            Some(i) => t.n() - t.rank_of(i),
            None => 0int,
        }),
{
    match head {
        None => {
            assert(post_forest(t, head).len() == 0);
        }
        Some(i) => {
            assert(t.wf_node(i));
            lemma_chain_props(t, t.first_child_of(i));
            lemma_chain_props(t, t.next_of(i));
            lemma_chain_props(t, head);
            lemma_post_forest_membership(t, t.first_child_of(i));
            lemma_post_forest_membership(t, t.next_of(i));
            let f = post_forest(t, head);
            let ffc = post_forest(t, t.first_child_of(i));
            let fns = post_forest(t, t.next_of(i));
            let cfc = chain(t, t.first_child_of(i));
            let cns = chain(t, t.next_of(i));
            let ch = chain(t, head);
            let a = ffc.len() as int;
            assert(f == ffc + seq![i] + fns);
            assert(ch == seq![i] + cns);
            assert(f[a] == i);
            assert(in_subtree(t, i, i));
            assert forall|m: int| 0 <= m < cfc.len() implies t.live(#[trigger] cfc[m])
                && t.parent_of(cfc[m]) == Some(i) && in_subtree(t, cfc[m], i) && node_depth(
                t,
                cfc[m],
            ) == node_depth(t, i) + 1 by {
                assert(t.wf_node(cfc[m]));
            }
            assert forall|m: int| 0 <= m < cns.len() implies t.live(#[trigger] cns[m])
                && t.node_of(cns[m]).parent == t.node_of(i).parent && node_depth(t, cns[m])
                == node_depth(t, i) && cns[m] != i by {
                assert(t.wf_node(cns[m]));
                assert(t.rank_of(cns[m]) > t.rank_of(i));
            }
            // liveness
            assert forall|k: int| 0 <= k < f.len() implies t.live(#[trigger] f[k]) by {
                if k < a {
                    assert(f[k] == ffc[k]);
                } else if k == a {
                } else {
                    assert(f[k] == fns[k - a - 1]);
                }
            }
            // membership, forward
            assert forall|x: usize| #[trigger] f.contains(x) implies (t.live(x) && exists|m: int|
                0 <= m < ch.len() && in_subtree(t, x, #[trigger] ch[m])) by {
                let kx = choose|kx: int| 0 <= kx < f.len() && f[kx] == x;
                if kx == a {
                    assert(ch[0] == i);
                    assert(0 <= 0 < ch.len() && in_subtree(t, x, ch[0]));
                } else if kx < a {
                    assert(ffc[kx] == x);
                    assert(ffc.contains(x));
                    let m1 = choose|m1: int| 0 <= m1 < cfc.len() && in_subtree(t, x, cfc[m1]);
                    lemma_in_subtree_trans(t, x, cfc[m1], i);
                    assert(ch[0] == i);
                    assert(0 <= 0 < ch.len() && in_subtree(t, x, ch[0]));
                } else {
                    assert(fns[kx - a - 1] == x);
                    assert(fns.contains(x));
                    let m1 = choose|m1: int| 0 <= m1 < cns.len() && in_subtree(t, x, cns[m1]);
                    assert(ch[m1 + 1] == cns[m1]);
                    assert(0 <= m1 + 1 < ch.len() && in_subtree(t, x, ch[m1 + 1]));
                }
            }
            // membership, backward
            assert forall|x: usize| t.live(x) && (exists|m: int|
                0 <= m < ch.len() && in_subtree(t, x, #[trigger] ch[m])) implies f.contains(x) by {
                let m = choose|m: int| 0 <= m < ch.len() && in_subtree(t, x, ch[m]);
                if m == 0 {
                    if x == i {
                        assert(f[a] == x);
                    } else {
                        lemma_subtree_step_down(t, x, i);
                        let c = choose|c: usize|
                            #[trigger] cfc.contains(c) && in_subtree(t, x, c);
                        let mc = choose|mc: int| 0 <= mc < cfc.len() && cfc[mc] == c;
                        assert(0 <= mc < cfc.len() && in_subtree(t, x, cfc[mc]));
                        assert(ffc.contains(x));
                        let kx = choose|kx: int| 0 <= kx < ffc.len() && ffc[kx] == x;
                        assert(f[kx] == x);
                    }
                } else {
                    assert(cns[m - 1] == ch[m]);
                    assert(0 <= m - 1 < cns.len() && in_subtree(t, x, cns[m - 1]));
                    assert(fns.contains(x));
                    let kx = choose|kx: int| 0 <= kx < fns.len() && fns[kx] == x;
                    assert(f[a + 1 + kx] == x);
                }
            }
            // distinctness
            assert forall|j: int, k: int| 0 <= j < k < f.len() implies f[j] != f[k] by {
                if j < a && k < a {
                    assert(f[j] == ffc[j] && f[k] == ffc[k]);
                } else if j < a && k == a {
                    let x = ffc[j];
                    assert(f[j] == x);
                    assert(ffc.contains(x));
                    let m1 = choose|m1: int| 0 <= m1 < cfc.len() && in_subtree(t, x, cfc[m1]);
                    lemma_in_subtree_depth(t, x, cfc[m1]);
                } else if j < a {
                    let x1 = ffc[j];
                    let x2 = fns[k - a - 1];
                    assert(f[j] == x1 && f[k] == x2);
                    if x1 == x2 {
                        assert(ffc.contains(x1));
                        assert(fns.contains(x2));
                        let m1 = choose|m1: int| 0 <= m1 < cfc.len() && in_subtree(t, x1, cfc[m1]);
                        let m2 = choose|m2: int| 0 <= m2 < cns.len() && in_subtree(t, x2, cns[m2]);
                        lemma_in_subtree_trans(t, x1, cfc[m1], i);
                        lemma_ancestor_unique(t, x1, i, cns[m2]);
                    }
                } else if j == a {
                    let x = fns[k - a - 1];
                    assert(f[k] == x);
                    assert(fns.contains(x));
                    let m1 = choose|m1: int| 0 <= m1 < cns.len() && in_subtree(t, x, cns[m1]);
                    if x == i {
                        lemma_in_subtree_depth(t, x, cns[m1]);
                    }
                } else {
                    assert(f[j] == fns[j - a - 1] && f[k] == fns[k - a - 1]);
                }
            }
        }
    }
}

/// The post-order sequence of a subtree holds exactly the live nodes of
/// that subtree, each exactly once, ending with the root.
pub proof fn lemma_post_tree_membership<T>(t: Tree<T>, c: usize)
    requires
        t.wf(),
        t.live(c),
    ensures
        post_tree(t, c).len() >= 1,
        post_tree(t, c).last() == c,
        forall|k: int| 0 <= k < post_tree(t, c).len() ==> t.live(#[trigger] post_tree(t, c)[k]),
        forall|x: usize| #[trigger] post_tree(t, c).contains(x) <==> (t.live(x) && in_subtree(
            t,
            x,
            c,
        )),
        forall|j: int, k: int|
            0 <= j < k < post_tree(t, c).len() ==> post_tree(t, c)[j] != post_tree(t, c)[k],
        post_tree(t, c).to_multiset() == pre_tree(t, c).to_multiset(),
{
    assert(t.wf_node(c));
    lemma_post_forest_membership(t, t.first_child_of(c));
    lemma_pre_tree_membership(t, c);
    lemma_chain_props(t, t.first_child_of(c));
    let f = post_forest(t, t.first_child_of(c));
    let cfc = chain(t, t.first_child_of(c));
    let s = post_tree(t, c);
    assert(s == f + seq![c]);
    assert(s.last() == c);
    assert(in_subtree(t, c, c));
    assert forall|m: int| 0 <= m < cfc.len() implies t.live(#[trigger] cfc[m]) && t.parent_of(
        cfc[m],
    ) == Some(c) && in_subtree(t, cfc[m], c) && node_depth(t, cfc[m]) == node_depth(t, c) + 1 by {
        assert(t.wf_node(cfc[m]));
    }
    assert forall|k: int| 0 <= k < s.len() implies t.live(#[trigger] s[k]) by {
        if k < f.len() {
            assert(s[k] == f[k]);
        }
    }
    assert forall|x: usize| #[trigger] s.contains(x) implies (t.live(x) && in_subtree(t, x, c)) by {
        let kx = choose|kx: int| 0 <= kx < s.len() && s[kx] == x;
        if kx < f.len() {
            assert(f[kx] == x);
            assert(f.contains(x));
            let m = choose|m: int| 0 <= m < cfc.len() && in_subtree(t, x, cfc[m]);
            lemma_in_subtree_trans(t, x, cfc[m], c);
        }
    }
    assert forall|x: usize| t.live(x) && in_subtree(t, x, c) implies s.contains(x) by {
        if x == c {
            assert(s.last() == x);
        } else {
            lemma_subtree_step_down(t, x, c);
            let ch = choose|ch: usize| #[trigger] cfc.contains(ch) && in_subtree(t, x, ch);
            let m = choose|m: int| 0 <= m < cfc.len() && cfc[m] == ch;
            assert(0 <= m < cfc.len() && in_subtree(t, x, cfc[m]));
            assert(f.contains(x));
            let kx = choose|kx: int| 0 <= kx < f.len() && f[kx] == x;
            assert(s[kx] == x);
        }
    }
    assert forall|j: int, k: int| 0 <= j < k < s.len() implies s[j] != s[k] by {
        if k == s.len() - 1 {
            let x = f[j];
            assert(s[j] == x);
            assert(f.contains(x));
            let m = choose|m: int| 0 <= m < cfc.len() && in_subtree(t, x, cfc[m]);
            lemma_in_subtree_depth(t, x, cfc[m]);
        } else {
            assert(s[j] == f[j] && s[k] == f[k]);
        }
    }
    lemma_same_members_no_dup_multiset(t, s, pre_tree(t, c), c);
}

/// Two duplicate-free sequences holding exactly the live nodes of one
/// subtree carry the same multiset.
pub proof fn lemma_same_members_no_dup_multiset<T>(t: Tree<T>, s1: Seq<usize>, s2: Seq<usize>, c: usize)
    requires
        forall|x: usize| #[trigger] s1.contains(x) <==> (t.live(x) && in_subtree(t, x, c)),
        forall|x: usize| #[trigger] s2.contains(x) <==> (t.live(x) && in_subtree(t, x, c)),
        forall|j: int, k: int| 0 <= j < k < s1.len() ==> s1[j] != s1[k],
        forall|j: int, k: int| 0 <= j < k < s2.len() ==> s2[j] != s2[k],
    ensures
        s1.to_multiset() == s2.to_multiset(),
{
    broadcast use vstd::seq_lib::group_to_multiset_ensures;
    broadcast use vstd::multiset::group_multiset_axioms;

    assert(s1.no_duplicates());
    assert(s2.no_duplicates());
    s1.lemma_multiset_has_no_duplicates();
    s2.lemma_multiset_has_no_duplicates();
    assert forall|x: usize| true implies s1.to_multiset().count(x) == s2.to_multiset().count(x) by {
        if s1.contains(x) {
            assert(s2.contains(x));
            assert(s1.to_multiset().count(x) > 0);
            assert(s2.to_multiset().count(x) > 0);
            assert(s1.to_multiset().contains(x));
            assert(s2.to_multiset().contains(x));
            assert(s1.to_multiset().count(x) == 1);
            assert(s2.to_multiset().count(x) == 1);
        } else {
            assert(!s2.contains(x));
            assert(s1.to_multiset().count(x) == 0);
            assert(s2.to_multiset().count(x) == 0);
        }
    }
    assert(s1.to_multiset() =~= s2.to_multiset());
}

/// In a pre-order forest, a node always stands before every strict member
/// of its own subtree.
#[verifier::rlimit(100)]
#[verifier::spinoff_prover]
pub proof fn lemma_pre_forest_order<T>(t: Tree<T>, head: Option<usize>)
    requires
        t.wf(),
        head_ok(t, head),
    ensures
        forall|j: int, k: int|
            0 <= j < pre_forest(t, head).len() && 0 <= k < pre_forest(t, head).len()
                && in_subtree(t, #[trigger] pre_forest(t, head)[k], #[trigger] pre_forest(
                t,
                head,
            )[j]) && pre_forest(t, head)[j] != pre_forest(t, head)[k] ==> j < k,
    decreases
        (match head {
            Some(i) => t.n() - t.depth_of(i),
            None => 0int,
        }),
        (match head {
            Some(i) => t.n() - t.rank_of(i),
            None => 0int,
        }),
{
    match head {
        None => {}
        Some(i) => {
            assert(t.wf_node(i));
            lemma_chain_props(t, t.first_child_of(i));
            lemma_chain_props(t, t.next_of(i));
            lemma_forest_membership(t, t.first_child_of(i));
            lemma_forest_membership(t, t.next_of(i));
            lemma_pre_forest_order(t, t.first_child_of(i));
            lemma_pre_forest_order(t, t.next_of(i));
            let f = pre_forest(t, head);
            let ffc = pre_forest(t, t.first_child_of(i));
            let fns = pre_forest(t, t.next_of(i));
            let cfc = chain(t, t.first_child_of(i));
            let cns = chain(t, t.next_of(i));
            let a = ffc.len() as int;
            assert(f == seq![i] + ffc + fns);
            assert(in_subtree(t, i, i));
            assert forall|m: int| 0 <= m < cfc.len() implies t.live(#[trigger] cfc[m])
                && t.parent_of(cfc[m]) == Some(i) && in_subtree(t, cfc[m], i) && node_depth(
                t,
                cfc[m],
            ) == node_depth(t, i) + 1 by {
                assert(t.wf_node(cfc[m]));
            }
            assert forall|m: int| 0 <= m < cns.len() implies t.live(#[trigger] cns[m])
                && node_depth(t, cns[m]) == node_depth(t, i) && cns[m] != i by {
                assert(t.wf_node(cns[m]));
                assert(t.rank_of(cns[m]) > t.rank_of(i));
            }
            assert forall|j: int, k: int|
                0 <= j < f.len() && 0 <= k < f.len() && in_subtree(t, f[k], f[j]) && f[j] != f[k]
                implies j < k by {
                let x = f[j];
                let y = f[k];
                if j == 0 {
                    if k == 0 {
                        assert(false);
                    }
                } else if j <= a {
                    assert(x == ffc[j - 1]);
                    assert(ffc.contains(x));
                    let m1 = choose|m1: int| 0 <= m1 < cfc.len() && in_subtree(t, x, cfc[m1]);
                    if k == 0 {
                        assert(y == i);
                        lemma_in_subtree_depth(t, x, cfc[m1]);
                        lemma_in_subtree_depth(t, y, x);
                        lemma_in_subtree_trans(t, x, cfc[m1], i);
                        lemma_in_subtree_depth(t, x, i);
                        assert(false);
                    } else if k <= a {
                        assert(y == ffc[k - 1]);
                    } else {
                        assert(y == fns[k - 1 - a]);
                        assert(fns.contains(y));
                        let m2 = choose|m2: int| 0 <= m2 < cns.len() && in_subtree(t, y, cns[m2]);
                        lemma_in_subtree_trans(t, x, cfc[m1], i);
                        lemma_in_subtree_trans(t, y, x, i);
                        lemma_ancestor_unique(t, y, i, cns[m2]);
                        assert(false);
                    }
                } else {
                    assert(x == fns[j - 1 - a]);
                    assert(fns.contains(x));
                    let m1 = choose|m1: int| 0 <= m1 < cns.len() && in_subtree(t, x, cns[m1]);
                    if k == 0 {
                        assert(y == i);
                        lemma_in_subtree_trans(t, y, x, cns[m1]);
                        lemma_ancestor_unique(t, y, i, cns[m1]);
                        assert(false);
                    } else if k <= a {
                        assert(y == ffc[k - 1]);
                        assert(ffc.contains(y));
                        let m2 = choose|m2: int| 0 <= m2 < cfc.len() && in_subtree(t, y, cfc[m2]);
                        lemma_in_subtree_trans(t, y, cfc[m2], i);
                        lemma_in_subtree_trans(t, y, x, cns[m1]);
                        lemma_ancestor_unique(t, y, i, cns[m1]);
                        assert(false);
                    } else {
                        assert(y == fns[k - 1 - a]);
                    }
                }
            }
        }
    }
}

/// In the pre-order of a subtree, every node is produced before all of its
/// descendants: the root comes first, and an ancestor always stands
/// strictly left of each member of its subtree.
pub proof fn lemma_pre_tree_order<T>(t: Tree<T>, c: usize)
    requires
        t.wf(),
        t.live(c),
    ensures
        forall|j: int, k: int|
            0 <= j < pre_tree(t, c).len() && 0 <= k < pre_tree(t, c).len() && in_subtree(
                t,
                #[trigger] pre_tree(t, c)[k],
                #[trigger] pre_tree(t, c)[j],
            ) && pre_tree(t, c)[j] != pre_tree(t, c)[k] ==> j < k,
{
    assert(t.wf_node(c));
    lemma_chain_props(t, t.first_child_of(c));
    lemma_forest_membership(t, t.first_child_of(c));
    lemma_pre_forest_order(t, t.first_child_of(c));
    let s = pre_tree(t, c);
    let ffc = pre_forest(t, t.first_child_of(c));
    let cfc = chain(t, t.first_child_of(c));
    assert(s == seq![c] + ffc);
    assert forall|m: int| 0 <= m < cfc.len() implies t.live(#[trigger] cfc[m]) && in_subtree(
        t,
        cfc[m],
        c,
    ) && node_depth(t, cfc[m]) == node_depth(t, c) + 1 by {
        assert(t.wf_node(cfc[m]));
        assert(in_subtree(t, c, c));
    }
    assert forall|j: int, k: int|
        0 <= j < s.len() && 0 <= k < s.len() && in_subtree(t, s[k], s[j]) && s[j] != s[k]
        implies j < k by {
        let x = s[j];
        let y = s[k];
        if j == 0 {
            if k == 0 {
                assert(false);
            }
        } else {
            assert(x == ffc[j - 1]);
            if k == 0 {
                assert(y == c);
                assert(ffc.contains(x));
                let m1 = choose|m1: int| 0 <= m1 < cfc.len() && in_subtree(t, x, cfc[m1]);
                lemma_in_subtree_trans(t, x, cfc[m1], c);
                lemma_in_subtree_depth(t, x, c);
                lemma_in_subtree_depth(t, x, cfc[m1]);
                lemma_in_subtree_depth(t, y, x);
                assert(false);
            } else {
                assert(y == ffc[k - 1]);
            }
        }
    }
}

/// In a post-order forest, a node always stands after every strict member
/// of its own subtree.
#[verifier::rlimit(100)]
#[verifier::spinoff_prover]
pub proof fn lemma_post_forest_order<T>(t: Tree<T>, head: Option<usize>)
    requires
        t.wf(),
        head_ok(t, head),
    ensures
        forall|j: int, k: int|
            0 <= j < post_forest(t, head).len() && 0 <= k < post_forest(t, head).len()
                && in_subtree(t, #[trigger] post_forest(t, head)[j], #[trigger] post_forest(
                t,
                head,
            )[k]) && post_forest(t, head)[j] != post_forest(t, head)[k] ==> j < k,
    decreases
        (match head {
            Some(i) => t.n() - t.depth_of(i),
            None => 0int,
        }),
        (match head {
            Some(i) => t.n() - t.rank_of(i),
            None => 0int,
        }),
{
    match head {
        None => {}
        Some(i) => {
            assert(t.wf_node(i));
            lemma_chain_props(t, t.first_child_of(i));
            lemma_chain_props(t, t.next_of(i));
            lemma_post_forest_membership(t, t.first_child_of(i));
            lemma_post_forest_membership(t, t.next_of(i));
            lemma_post_forest_order(t, t.first_child_of(i));
            lemma_post_forest_order(t, t.next_of(i));
            let f = post_forest(t, head);
            let ffc = post_forest(t, t.first_child_of(i));
            let fns = post_forest(t, t.next_of(i));
            let cfc = chain(t, t.first_child_of(i));
            let cns = chain(t, t.next_of(i));
            let a = ffc.len() as int;
            assert(f == ffc + seq![i] + fns);
            assert(f[a] == i);
            assert(in_subtree(t, i, i));
            assert forall|m: int| 0 <= m < cfc.len() implies t.live(#[trigger] cfc[m])
                && t.parent_of(cfc[m]) == Some(i) && in_subtree(t, cfc[m], i) && node_depth(
                t,
                cfc[m],
            ) == node_depth(t, i) + 1 by {
                assert(t.wf_node(cfc[m]));
            }
            assert forall|m: int| 0 <= m < cns.len() implies t.live(#[trigger] cns[m])
                && node_depth(t, cns[m]) == node_depth(t, i) && cns[m] != i by {
                assert(t.wf_node(cns[m]));
                assert(t.rank_of(cns[m]) > t.rank_of(i));
            }
            assert forall|j: int, k: int|
                0 <= j < f.len() && 0 <= k < f.len() && in_subtree(t, f[j], f[k]) && f[j] != f[k]
                implies j < k by {
                let x = f[j];
                let y = f[k];
                if k == a {
                    // the ancestor is i itself: its strict subtree lies in the left part
                    if j == a {
                        assert(false);
                    } else if j > a {
                        assert(x == fns[j - 1 - a]);
                        assert(fns.contains(x));
                        let m1 = choose|m1: int| 0 <= m1 < cns.len() && in_subtree(t, x, cns[m1]);
                        lemma_ancestor_unique(t, x, i, cns[m1]);
                        assert(false);
                    }
                } else if k < a {
                    assert(y == ffc[k]);
                    assert(ffc.contains(y));
                    let m1 = choose|m1: int| 0 <= m1 < cfc.len() && in_subtree(t, y, cfc[m1]);
                    if j == a {
                        assert(x == i);
                        lemma_in_subtree_trans(t, y, cfc[m1], i);
                        lemma_in_subtree_depth(t, y, cfc[m1]);
                        lemma_in_subtree_depth(t, x, y);
                        lemma_in_subtree_depth(t, y, i);
                        assert(false);
                    } else if j > a {
                        assert(x == fns[j - 1 - a]);
                        assert(fns.contains(x));
                        let m2 = choose|m2: int| 0 <= m2 < cns.len() && in_subtree(t, x, cns[m2]);
                        lemma_in_subtree_trans(t, y, cfc[m1], i);
                        lemma_in_subtree_trans(t, x, y, i);
                        lemma_ancestor_unique(t, x, i, cns[m2]);
                        assert(false);
                    } else {
                        assert(x == ffc[j]);
                    }
                } else {
                    assert(y == fns[k - 1 - a]);
                    assert(fns.contains(y));
                    let m1 = choose|m1: int| 0 <= m1 < cns.len() && in_subtree(t, y, cns[m1]);
                    if j == a {
                        assert(x == i);
                        lemma_in_subtree_trans(t, x, y, cns[m1]);
                        lemma_ancestor_unique(t, x, i, cns[m1]);
                        assert(false);
                    } else if j < a {
                        assert(x == ffc[j]);
                        assert(ffc.contains(x));
                        let m2 = choose|m2: int| 0 <= m2 < cfc.len() && in_subtree(t, x, cfc[m2]);
                        lemma_in_subtree_trans(t, x, cfc[m2], i);
                        lemma_in_subtree_trans(t, x, y, cns[m1]);
                        lemma_ancestor_unique(t, x, i, cns[m1]);
                        assert(false);
                    } else {
                        assert(x == fns[j - 1 - a]);
                    }
                }
            }
        }
    }
}

/// In the post-order of a subtree, every node is produced strictly after
/// all of its descendants; in particular the root comes last.
pub proof fn lemma_post_tree_order<T>(t: Tree<T>, c: usize)
    requires
        t.wf(),
        t.live(c),
    ensures
        forall|j: int, k: int|
            0 <= j < post_tree(t, c).len() && 0 <= k < post_tree(t, c).len() && in_subtree(
                t,
                #[trigger] post_tree(t, c)[j],
                #[trigger] post_tree(t, c)[k],
            ) && post_tree(t, c)[j] != post_tree(t, c)[k] ==> j < k,
{
    assert(t.wf_node(c));
    lemma_chain_props(t, t.first_child_of(c));
    lemma_post_forest_membership(t, t.first_child_of(c));
    lemma_post_forest_order(t, t.first_child_of(c));
    let s = post_tree(t, c);
    let ffc = post_forest(t, t.first_child_of(c));
    let cfc = chain(t, t.first_child_of(c));
    let a = ffc.len() as int;
    assert(s == ffc + seq![c]);
    assert(s[a] == c);
    assert(in_subtree(t, c, c));
    assert forall|m: int| 0 <= m < cfc.len() implies t.live(#[trigger] cfc[m]) && in_subtree(
        t,
        cfc[m],
        c,
    ) && node_depth(t, cfc[m]) == node_depth(t, c) + 1 by {
        assert(t.wf_node(cfc[m]));
    }
    assert forall|j: int, k: int|
        0 <= j < s.len() && 0 <= k < s.len() && in_subtree(t, s[j], s[k]) && s[j] != s[k]
        implies j < k by {
        let x = s[j];
        let y = s[k];
        if k == a {
            if j == a {
                assert(false);
            }
        } else {
            assert(y == ffc[k]);
            if j == a {
                assert(x == c);
                assert(ffc.contains(y));
                let m1 = choose|m1: int| 0 <= m1 < cfc.len() && in_subtree(t, y, cfc[m1]);
                lemma_in_subtree_trans(t, y, cfc[m1], c);
                lemma_in_subtree_depth(t, y, cfc[m1]);
                lemma_in_subtree_depth(t, x, y);
                lemma_in_subtree_depth(t, y, c);
                assert(false);
            } else {
                assert(x == ffc[j]);
            }
        }
    }
}

/// Sibling subtrees are completed left to right without interleaving: in
/// a post-order forest, every node of an earlier run member's subtree
/// stands before every node of a later member's subtree.
#[verifier::rlimit(100)]
#[verifier::spinoff_prover]
pub proof fn lemma_post_forest_grouped<T>(t: Tree<T>, head: Option<usize>)
    requires
        t.wf(),
        head_ok(t, head),
    ensures
        forall|j: int, k: int, m1: int, m2: int|
            0 <= j < post_forest(t, head).len() && 0 <= k < post_forest(t, head).len() && 0 <= m1
                < m2 < chain(t, head).len() && #[trigger] in_subtree(
                t,
                post_forest(t, head)[j],
                chain(t, head)[m1],
            ) && #[trigger] in_subtree(t, post_forest(t, head)[k], chain(t, head)[m2]) ==> j < k,
    decreases
        (match head {
            Some(i) => t.n() - t.depth_of(i),
            None => 0int,
        }),
        (match head {
            Some(i) => t.n() - t.rank_of(i),
            None => 0int,
        }),
{
    match head {
        None => {}
        Some(i) => {
            assert(t.wf_node(i));
            lemma_chain_props(t, t.first_child_of(i));
            lemma_chain_props(t, t.next_of(i));
            lemma_chain_props(t, head);
            lemma_post_forest_membership(t, t.first_child_of(i));
            lemma_post_forest_membership(t, t.next_of(i));
            lemma_post_forest_grouped(t, t.next_of(i));
            let f = post_forest(t, head);
            let ffc = post_forest(t, t.first_child_of(i));
            let fns = post_forest(t, t.next_of(i));
            let cfc = chain(t, t.first_child_of(i));
            let cns = chain(t, t.next_of(i));
            let ch = chain(t, head);
            let a = ffc.len() as int;
            assert(f == ffc + seq![i] + fns);
            assert(ch == seq![i] + cns);
            assert(f[a] == i);
            assert(in_subtree(t, i, i));
            assert forall|m: int| 0 <= m < cfc.len() implies t.live(#[trigger] cfc[m])
                && in_subtree(t, cfc[m], i) && node_depth(t, cfc[m]) == node_depth(t, i) + 1 by {
                assert(t.wf_node(cfc[m]));
            }
            assert forall|m: int| 0 <= m < cns.len() implies t.live(#[trigger] cns[m])
                && node_depth(t, cns[m]) == node_depth(t, i) && cns[m] != i by {
                assert(t.wf_node(cns[m]));
                assert(t.rank_of(cns[m]) > t.rank_of(i));
            }
            // everything below i sits in the left segment, everything below
            // a later run member in the right segment
            assert forall|j: int|
                0 <= j < f.len() && in_subtree(t, f[j], i) implies j <= a by {
                if j > a {
                    let x = fns[j - 1 - a];
                    assert(f[j] == x);
                    assert(fns.contains(x));
                    let m = choose|m: int| 0 <= m < cns.len() && in_subtree(t, x, cns[m]);
                    lemma_ancestor_unique(t, x, i, cns[m]);
                    assert(false);
                }
            }
            assert forall|k: int, m2: int|
                0 <= k < f.len() && 0 <= m2 < cns.len() && in_subtree(t, f[k], cns[m2]) implies k
                > a by {
                if k <= a {
                    let y = f[k];
                    if k == a {
                        assert(y == i);
                        lemma_ancestor_unique(t, y, i, cns[m2]);
                        assert(false);
                    } else {
                        assert(y == ffc[k]);
                        assert(ffc.contains(y));
                        let m = choose|m: int| 0 <= m < cfc.len() && in_subtree(t, y, cfc[m]);
                        lemma_in_subtree_trans(t, y, cfc[m], i);
                        lemma_ancestor_unique(t, y, i, cns[m2]);
                        assert(false);
                    }
                }
            }
            assert forall|j: int, k: int, m1: int, m2: int|
                0 <= j < f.len() && 0 <= k < f.len() && 0 <= m1 < m2 < ch.len() && in_subtree(
                    t,
                    f[j],
                    ch[m1],
                ) && in_subtree(t, f[k], ch[m2]) implies j < k by {
                assert(ch[m2] == cns[m2 - 1]);
                if m1 == 0 {
                    assert(ch[m1] == i);
                } else {
                    assert(ch[m1] == cns[m1 - 1]);
                    assert(f[j] == fns[j - 1 - a] && f[k] == fns[k - 1 - a]);
                }
            }
        }
    }
}

/// The children of a row of live nodes all lie exactly one level deeper,
/// measured by the number of parent links to the root.
pub proof fn lemma_row_children_node_depth<T>(t: Tree<T>, q: Seq<usize>, d: int)
    requires
        t.wf(),
        all_live(t, q),
        forall|k: int| 0 <= k < q.len() ==> node_depth(t, #[trigger] q[k]) == d,
    ensures
        all_live(t, children_of_row(t, q)),
        forall|k: int| 0 <= k < children_of_row(t, q).len() ==> node_depth(
            t,
            #[trigger] children_of_row(t, q)[k],
        ) == d + 1,
    decreases q.len(),
{
    if q.len() == 0 {
    } else {
        let x = q[0];
        assert(t.live(x));
        assert(t.wf_node(x));
        let ch = chain(t, t.first_child_of(x));
        lemma_chain_props(t, t.first_child_of(x));
        assert forall|m: int| 0 <= m < ch.len() implies t.live(#[trigger] ch[m]) && node_depth(
            t,
            ch[m],
        ) == d + 1 by {
            assert(t.wf_node(ch[m]));
            assert(t.parent_of(ch[m]) == Some(x));
        }
        assert(forall|k: int| 0 <= k < q.skip(1).len() ==> t.live(#[trigger] q.skip(1)[k]));
        lemma_row_children_node_depth(t, q.skip(1), d);
        assert forall|k: int| 0 <= k < children_of_row(t, q).len() implies t.live(
            #[trigger] children_of_row(t, q)[k],
        ) && node_depth(t, children_of_row(t, q)[k]) == d + 1 by {
            if k < ch.len() {
                assert(children_of_row(t, q)[k] == ch[k]);
            } else {
                assert(children_of_row(t, q)[k] == children_of_row(t, q.skip(1))[k - ch.len()]);
            }
        }
    }
}

/// The breadth-first expansion of a row of equally deep nodes is sorted by
/// depth: a whole level is produced before the next level begins.
pub proof fn lemma_bfs_rows_sorted<T>(t: Tree<T>, q: Seq<usize>, d: int, fuel: nat)
    requires
        t.wf(),
        all_live(t, q),
        forall|k: int| 0 <= k < q.len() ==> node_depth(t, #[trigger] q[k]) == d,
    ensures
        forall|k: int| 0 <= k < bfs_rows(t, q, fuel).len() ==> node_depth(
            t,
            #[trigger] bfs_rows(t, q, fuel)[k],
        ) >= d,
        forall|j: int, k: int|
            0 <= j <= k < bfs_rows(t, q, fuel).len() ==> node_depth(t, #[trigger] bfs_rows(
                t,
                q,
                fuel,
            )[j]) <= node_depth(t, #[trigger] bfs_rows(t, q, fuel)[k]),
    decreases fuel,
{
    if fuel == 0 || q.len() == 0 {
    } else {
        let f = bfs_rows(t, q, fuel);
        let rest = bfs_rows(t, children_of_row(t, q), (fuel - 1) as nat);
        assert(f == q + rest);
        lemma_row_children_node_depth(t, q, d);
        lemma_bfs_rows_sorted(t, children_of_row(t, q), d + 1, (fuel - 1) as nat);
        assert forall|k: int| 0 <= k < f.len() implies node_depth(t, #[trigger] f[k]) >= d by {
            if k < q.len() {
                assert(f[k] == q[k]);
            } else {
                assert(f[k] == rest[k - q.len()]);
            }
        }
        assert forall|j: int, k: int|
            0 <= j <= k < f.len() implies node_depth(t, #[trigger] f[j]) <= node_depth(
            t,
            #[trigger] f[k],
        ) by {
            if j < q.len() && k >= q.len() {
                assert(f[j] == q[j]);
                assert(f[k] == rest[k - q.len()]);
            } else if j >= q.len() {
                assert(f[j] == rest[j - q.len()] && f[k] == rest[k - q.len()]);
            } else {
                assert(f[j] == q[j] && f[k] == q[k]);
            }
        }
    }
}

/// The level order of a subtree is sorted by depth: all nodes of one depth
/// are produced before any node of the next depth.
pub proof fn lemma_level_tree_sorted<T>(t: Tree<T>, c: usize)
    requires
        t.wf(),
        t.live(c),
    ensures
        forall|j: int, k: int|
            0 <= j < level_tree(t, c).len() && 0 <= k < level_tree(t, c).len() && node_depth(
                t,
                #[trigger] level_tree(t, c)[j],
            ) < node_depth(t, #[trigger] level_tree(t, c)[k]) ==> j < k,
{
    assert forall|k: int| 0 <= k < seq![c].len() implies node_depth(
        t,
        #[trigger] seq![c][k],
    ) == node_depth(t, c) && t.live(seq![c][k]) by {
        assert(seq![c][k] == c);
    }
    lemma_bfs_rows_sorted(t, seq![c], node_depth(t, c), (t.n() + 1) as nat);
}

/// A row's children are exactly the live nodes whose parent stands in the
/// row, and no child is listed twice when the row has no duplicates.
#[verifier::rlimit(100)]
#[verifier::spinoff_prover]
pub proof fn lemma_row_children_membership<T>(t: Tree<T>, q: Seq<usize>)
    requires
        t.wf(),
        all_live(t, q),
        forall|j: int, k: int| 0 <= j < k < q.len() ==> q[j] != q[k],
    ensures
        all_live(t, children_of_row(t, q)),
        forall|x: usize| #[trigger] children_of_row(t, q).contains(x) <==> (t.live(x) && exists|m: int|
            0 <= m < q.len() && t.parent_of(x) == Some(#[trigger] q[m])),
        forall|j: int, k: int|
            0 <= j < k < children_of_row(t, q).len() ==> children_of_row(t, q)[j]
                != children_of_row(t, q)[k],
    decreases q.len(),
{
    if q.len() == 0 {
    } else {
        let x0 = q[0];
        assert(t.live(x0));
        assert(t.wf_node(x0));
        let ch = chain(t, t.first_child_of(x0));
        let rest = children_of_row(t, q.skip(1));
        let cq = children_of_row(t, q);
        lemma_chain_props(t, t.first_child_of(x0));
        assert(cq == ch + rest);
        assert forall|m: int| 0 <= m < ch.len() implies t.live(#[trigger] ch[m]) && t.parent_of(
            ch[m],
        ) == Some(x0) by {
            assert(t.wf_node(ch[m]));
        }
        assert(forall|k: int| 0 <= k < q.skip(1).len() ==> t.live(#[trigger] q.skip(1)[k]));
        lemma_row_children_membership(t, q.skip(1));
        assert forall|k: int| 0 <= k < cq.len() implies t.live(#[trigger] cq[k]) by {
            if k < ch.len() {
                assert(cq[k] == ch[k]);
            } else {
                assert(cq[k] == rest[k - ch.len()]);
            }
        }
        assert forall|x: usize| #[trigger] cq.contains(x) implies (t.live(x) && exists|m: int|
            0 <= m < q.len() && t.parent_of(x) == Some(#[trigger] q[m])) by {
            let kx = choose|kx: int| 0 <= kx < cq.len() && cq[kx] == x;
            if kx < ch.len() {
                assert(t.parent_of(x) == Some(q[0]));
                assert(0 <= 0 < q.len() && t.parent_of(x) == Some(q[0]));
            } else {
                assert(rest[kx - ch.len()] == x);
                assert(rest.contains(x));
                let m = choose|m: int|
                    0 <= m < q.skip(1).len() && t.parent_of(x) == Some(q.skip(1)[m]);
                assert(q.skip(1)[m] == q[m + 1]);
                assert(0 <= m + 1 < q.len() && t.parent_of(x) == Some(q[m + 1]));
            }
        }
        assert forall|x: usize| t.live(x) && (exists|m: int|
            0 <= m < q.len() && t.parent_of(x) == Some(#[trigger] q[m])) implies cq.contains(x) by {
            let m = choose|m: int| 0 <= m < q.len() && t.parent_of(x) == Some(q[m]);
            if m == 0 {
                lemma_chain_complete(t, x0, x);
                let kx = choose|kx: int| 0 <= kx < ch.len() && ch[kx] == x;
                assert(cq[kx] == x);
            } else {
                assert(q.skip(1)[m - 1] == q[m]);
                assert(0 <= m - 1 < q.skip(1).len() && t.parent_of(x) == Some(q.skip(1)[m - 1]));
                assert(rest.contains(x));
                let kx = choose|kx: int| 0 <= kx < rest.len() && rest[kx] == x;
                assert(cq[ch.len() + kx] == x);
            }
        }
        assert forall|j: int, k: int| 0 <= j < k < cq.len() implies cq[j] != cq[k] by {
            if j < ch.len() && k >= ch.len() {
                let c1 = ch[j];
                let c2 = rest[k - ch.len()];
                assert(cq[j] == c1 && cq[k] == c2);
                if c1 == c2 {
                    assert(rest.contains(c2));
                    let m = choose|m: int|
                        0 <= m < q.skip(1).len() && t.parent_of(c2) == Some(q.skip(1)[m]);
                    assert(q.skip(1)[m] == q[m + 1]);
                    assert(t.parent_of(c1) == Some(q[0]));
                    assert(q[0] == q[m + 1]);
                    assert(false);
                }
            } else if j >= ch.len() {
                assert(cq[j] == rest[j - ch.len()] && cq[k] == rest[k - ch.len()]);
            } else {
                assert(cq[j] == ch[j] && cq[k] == ch[k]);
            }
        }
    }
}

/// The breadth-first expansion of a duplicate-free row of equally deep
/// nodes holds exactly the live nodes of the row members' subtrees, each
/// exactly once.
#[verifier::rlimit(100)]
#[verifier::spinoff_prover]
pub proof fn lemma_bfs_rows_membership<T>(t: Tree<T>, q: Seq<usize>, dn: int, dg: int, fuel: nat)
    requires
        t.wf(),
        all_live(t, q),
        forall|k: int| 0 <= k < q.len() ==> node_depth(t, #[trigger] q[k]) == dn,
        forall|k: int| 0 <= k < q.len() ==> t.depth_of(#[trigger] q[k]) >= dg,
        forall|j: int, k: int| 0 <= j < k < q.len() ==> q[j] != q[k],
        fuel >= t.n() - dg,
    ensures
        forall|x: usize| #[trigger] bfs_rows(t, q, fuel).contains(x) <==> (t.live(x) && exists|m: int|
            0 <= m < q.len() && in_subtree(t, x, #[trigger] q[m])),
        forall|j: int, k: int|
            0 <= j < k < bfs_rows(t, q, fuel).len() ==> bfs_rows(t, q, fuel)[j] != bfs_rows(
                t,
                q,
                fuel,
            )[k],
    decreases fuel,
{
    if fuel == 0 || q.len() == 0 {
        assert(bfs_rows(t, q, fuel).len() == 0);
        if q.len() > 0 {
            assert(t.live(q[0]));
            assert(t.wf_node(q[0]));
            assert(false);
        }
    } else {
        let f = bfs_rows(t, q, fuel);
        let cq = children_of_row(t, q);
        let rest = bfs_rows(t, cq, (fuel - 1) as nat);
        assert(f == q + rest);
        assert(t.live(q[0]));
        assert(t.wf_node(q[0]));
        assert(dg < t.n());
        lemma_row_children(t, q, dg);
        lemma_row_children_node_depth(t, q, dn);
        lemma_row_children_membership(t, q);
        lemma_bfs_rows_membership(t, cq, dn + 1, dg + 1, (fuel - 1) as nat);
        assert forall|m: int| 0 <= m < q.len() implies in_subtree(t, #[trigger] q[m], q[m]) by {
            assert(t.live(q[m]));
            assert(t.wf_node(q[m]));
        }
        // membership, forward
        assert forall|x: usize| #[trigger] f.contains(x) implies (t.live(x) && exists|m: int|
            0 <= m < q.len() && in_subtree(t, x, #[trigger] q[m])) by {
            let kx = choose|kx: int| 0 <= kx < f.len() && f[kx] == x;
            if kx < q.len() {
                assert(x == q[kx]);
                assert(0 <= kx < q.len() && in_subtree(t, x, q[kx]));
            } else {
                assert(rest[kx - q.len()] == x);
                assert(rest.contains(x));
                let mc = choose|mc: int| 0 <= mc < cq.len() && in_subtree(t, x, cq[mc]);
                assert(cq.contains(cq[mc]));
                let m = choose|m: int| 0 <= m < q.len() && t.parent_of(cq[mc]) == Some(q[m]);
                assert(in_subtree(t, cq[mc], q[m]));
                lemma_in_subtree_trans(t, x, cq[mc], q[m]);
                assert(0 <= m < q.len() && in_subtree(t, x, q[m]));
            }
        }
        // membership, backward
        assert forall|x: usize| t.live(x) && (exists|m: int|
            0 <= m < q.len() && in_subtree(t, x, #[trigger] q[m])) implies f.contains(x) by {
            let m = choose|m: int| 0 <= m < q.len() && in_subtree(t, x, q[m]);
            if x == q[m] {
                assert(f[m] == x);
            } else {
                lemma_subtree_step_down(t, x, q[m]);
                let c = choose|c: usize|
                    #[trigger] chain(t, t.first_child_of(q[m])).contains(c) && in_subtree(t, x, c);
                lemma_chain_props(t, t.first_child_of(q[m]));
                assert(t.live(c));
                assert(t.wf_node(c));
                assert(t.parent_of(c) == Some(q[m]));
                assert(cq.contains(c));
                let mc = choose|mc: int| 0 <= mc < cq.len() && cq[mc] == c;
                assert(0 <= mc < cq.len() && in_subtree(t, x, cq[mc]));
                assert(rest.contains(x));
                let kx = choose|kx: int| 0 <= kx < rest.len() && rest[kx] == x;
                assert(f[q.len() + kx] == x);
            }
        }
        // distinctness
        assert forall|j: int, k: int| 0 <= j < k < f.len() implies f[j] != f[k] by {
            if j < q.len() && k >= q.len() {
                let x = q[j];
                let y = rest[k - q.len()];
                assert(f[j] == x && f[k] == y);
                if x == y {
                    assert(rest.contains(y));
                    let mc = choose|mc: int| 0 <= mc < cq.len() && in_subtree(t, y, cq[mc]);
                    lemma_in_subtree_depth(t, y, cq[mc]);
                    assert(false);
                }
            } else if j >= q.len() {
                assert(f[j] == rest[j - q.len()] && f[k] == rest[k - q.len()]);
            } else {
                assert(f[j] == q[j] && f[k] == q[k]);
            }
        }
    }
}

/// The level order of a subtree holds exactly the live nodes of that
/// subtree, each exactly once: it is a permutation of the pre-order.
pub proof fn lemma_level_tree_membership<T>(t: Tree<T>, c: usize)
    requires
        t.wf(),
        t.live(c),
    ensures
        forall|x: usize| #[trigger] level_tree(t, c).contains(x) <==> (t.live(x) && in_subtree(
            t,
            x,
            c,
        )),
        forall|j: int, k: int|
            0 <= j < k < level_tree(t, c).len() ==> level_tree(t, c)[j] != level_tree(t, c)[k],
        level_tree(t, c).to_multiset() == pre_tree(t, c).to_multiset(),
{
    assert(t.wf_node(c));
    assert forall|k: int| 0 <= k < seq![c].len() implies t.live(#[trigger] seq![c][k])
        && node_depth(t, seq![c][k]) == node_depth(t, c) && t.depth_of(seq![c][k]) >= t.depth_of(
        c,
    ) by {
        assert(seq![c][k] == c);
    }
    lemma_bfs_rows_membership(
        t,
        seq![c],
        node_depth(t, c),
        t.depth_of(c),
        (t.n() + 1) as nat,
    );
    assert forall|x: usize| #[trigger] level_tree(t, c).contains(x) <==> (t.live(x) && in_subtree(
        t,
        x,
        c,
    )) by {
        if t.live(x) && in_subtree(t, x, c) {
            assert(seq![c][0] == c);
            assert(0 <= 0 < seq![c].len() && in_subtree(t, x, seq![c][0]));
        }
        if level_tree(t, c).contains(x) {
            let m = choose|m: int| 0 <= m < seq![c].len() && in_subtree(t, x, seq![c][m]);
            assert(seq![c][m] == c);
        }
    }
    lemma_pre_tree_membership(t, c);
    lemma_same_members_no_dup_multiset(t, level_tree(t, c), pre_tree(t, c), c);
}

} // verus!
