use slab_tree::iter_mut::NextSiblingsMut;
use slab_tree::node::narrow_mut::NarrowMut;
use slab_tree::tree::{NodeId, Tree};
use slab_tree::RemoveBehavior;

fn sample() -> (Tree<i32>, Vec<NodeId>) {
    let mut tree = Tree::new(1);
    let root = tree.root_mut().expect("root exists");
    let n2 = root.append(&mut tree, 2);
    let n3 = root.append(&mut tree, 3);
    let n4 = root.append(&mut tree, 4);
    let n5 = n2.append(&mut tree, 5);
    let n6 = n2.append(&mut tree, 6);
    let ids = vec![
        root.node_id(),
        n2.node_id(),
        n3.node_id(),
        n4.node_id(),
        n5.node_id(),
        n6.node_id(),
    ];
    (tree, ids)
}

#[test]
fn pre_order_visits_parents_before_children() {
    let (tree, _) = sample();
    let root = tree.root_mut().expect("root exists");
    let mut cursor = root.traverse_pre_order_mut(&tree);
    let mut out: Vec<i32> = Vec::new();
    while let Some(nm) = cursor.next(&tree) {
        out.push(*nm.data(&tree));
    }
    assert_eq!(out, vec![1, 2, 5, 6, 3, 4]);
}

#[test]
fn post_order_visits_children_before_parents() {
    let (tree, _) = sample();
    let root = tree.root_mut().expect("root exists");
    let mut cursor = root.traverse_post_order_mut(&tree);
    let mut out: Vec<i32> = Vec::new();
    while let Some(nm) = cursor.next(&tree) {
        out.push(*nm.data(&tree));
    }
    assert_eq!(out, vec![5, 6, 2, 3, 4, 1]);
}

#[test]
fn level_order_visits_by_depth() {
    let (tree, _) = sample();
    let root = tree.root_mut().expect("root exists");
    let mut cursor = root.traverse_level_order_mut(&tree);
    let mut out: Vec<i32> = Vec::new();
    while let Some(nm) = cursor.next(&tree) {
        out.push(*nm.data(&tree));
    }
    assert_eq!(out, vec![1, 2, 3, 4, 5, 6]);
}

#[test]
fn ancestors_walk_up_to_the_root() {
    let (tree, ids) = sample();
    let n5 = tree.get_mut(ids[4]).expect("node 5 lives");
    let mut cursor = n5.ancestors_mut(&tree);
    let mut out: Vec<i32> = Vec::new();
    while let Some(nm) = cursor.next(&tree) {
        out.push(*nm.data(&tree));
    }
    assert_eq!(out, vec![2, 1]);
}

#[test]
fn ancestors_of_root_is_empty() {
    let (tree, _) = sample();
    let root = tree.root_mut().expect("root exists");
    let mut cursor = root.ancestors_mut(&tree);
    assert!(cursor.next(&tree).is_none());
}

#[test]
fn sibling_run_covers_following_siblings() {
    let (tree, ids) = sample();
    let mut cursor = NextSiblingsMut::new(Some(ids[1]));
    let mut out: Vec<i32> = Vec::new();
    while let Some(nm) = cursor.next(&tree) {
        out.push(*nm.data(&tree));
    }
    assert_eq!(out, vec![2, 3, 4]);
}

#[test]
fn children_run_in_insertion_order() {
    let (tree, _) = sample();
    let root = tree.root_mut().expect("root exists");
    let mut cursor = root.children_mut(&tree);
    let mut out: Vec<i32> = Vec::new();
    while let Some(nm) = cursor.next(&tree) {
        out.push(*nm.data(&tree));
    }
    assert_eq!(out, vec![2, 3, 4]);
}

#[test]
fn children_of_leaf_is_empty() {
    let (tree, ids) = sample();
    let n5 = tree.get_mut(ids[4]).expect("node 5 lives");
    let mut cursor = n5.children_mut(&tree);
    assert!(cursor.next(&tree).is_none());
}

#[test]
fn prepend_makes_a_new_first_child() {
    let (mut tree, _) = sample();
    let root = tree.root_mut().expect("root exists");
    root.prepend(&mut tree, 0);
    let mut cursor = root.children_mut(&tree);
    let mut out: Vec<i32> = Vec::new();
    while let Some(nm) = cursor.next(&tree) {
        out.push(*nm.data(&tree));
    }
    assert_eq!(out, vec![0, 2, 3, 4]);
}

#[test]
fn data_mut_changes_only_the_payload() {
    let (mut tree, ids) = sample();
    let n3 = tree.get_mut(ids[2]).expect("node 3 lives");
    *n3.data_mut(&mut tree) = 30;
    assert_eq!(*tree.data(ids[2]), 30);
    assert_eq!(*tree.data(ids[0]), 1);
}

#[test]
fn remove_first_drop_frees_the_whole_subtree() {
    let (mut tree, ids) = sample();
    let root = tree.root_mut().expect("root exists");
    let removed = root.remove_first(&mut tree, RemoveBehavior::DropChildren);
    assert_eq!(removed, Some(2));
    assert!(tree.get_mut(ids[1]).is_none());
    assert!(tree.get_mut(ids[4]).is_none());
    assert!(tree.get_mut(ids[5]).is_none());
    let mut cursor = root.children_mut(&tree);
    let mut out: Vec<i32> = Vec::new();
    while let Some(nm) = cursor.next(&tree) {
        out.push(*nm.data(&tree));
    }
    assert_eq!(out, vec![3, 4]);
}

#[test]
fn remove_first_orphan_keeps_descendants_resolvable() {
    let (mut tree, ids) = sample();
    let root = tree.root_mut().expect("root exists");
    let removed = root.remove_first(&mut tree, RemoveBehavior::OrphanChildren);
    assert_eq!(removed, Some(2));
    assert!(tree.get_mut(ids[1]).is_none());
    assert_eq!(*tree.data(ids[4]), 5);
    assert_eq!(*tree.data(ids[5]), 6);
    let n5 = tree.get_mut(ids[4]).expect("node 5 still lives");
    let mut anc = n5.ancestors_mut(&tree);
    assert!(anc.next(&tree).is_none());
    let mut cursor = root.children_mut(&tree);
    let mut out: Vec<i32> = Vec::new();
    while let Some(nm) = cursor.next(&tree) {
        out.push(*nm.data(&tree));
    }
    assert_eq!(out, vec![3, 4]);
}

#[test]
fn remove_last_returns_the_last_payload() {
    let (mut tree, _) = sample();
    let root = tree.root_mut().expect("root exists");
    let removed = root.remove_last(&mut tree, RemoveBehavior::DropChildren);
    assert_eq!(removed, Some(4));
    let mut cursor = root.children_mut(&tree);
    let mut out: Vec<i32> = Vec::new();
    while let Some(nm) = cursor.next(&tree) {
        out.push(*nm.data(&tree));
    }
    assert_eq!(out, vec![2, 3]);
}

#[test]
fn remove_from_leaf_yields_nothing() {
    let (mut tree, ids) = sample();
    let n5 = tree.get_mut(ids[4]).expect("node 5 lives");
    assert!(n5.remove_first(&mut tree, RemoveBehavior::DropChildren).is_none());
    assert!(n5.remove_last(&mut tree, RemoveBehavior::OrphanChildren).is_none());
}

#[test]
fn narrow_handle_reaches_children_and_data_only() {
    let (mut tree, ids) = sample();
    let n2 = NarrowMut::new(tree.get_mut(ids[1]).expect("node 2 lives"));
    assert_eq!(n2.node_id(), ids[1]);
    assert_eq!(*n2.data(&tree), 2);
    let first = n2.first_child(&tree).expect("has a first child");
    assert_eq!(*first.data(&tree), 5);
    let last = n2.last_child(&tree).expect("has a last child");
    assert_eq!(*last.data(&tree), 6);
    let added = n2.append(&mut tree, 7);
    assert_eq!(*added.data(&tree), 7);
    n2.prepend(&mut tree, 40);
    let mut cursor = n2.children_mut(&tree);
    let mut out: Vec<i32> = Vec::new();
    while let Some(nm) = cursor.next(&tree) {
        out.push(*nm.data(&tree));
    }
    assert_eq!(out, vec![40, 5, 6, 7]);
    assert_eq!(n2.remove_first(&mut tree, RemoveBehavior::DropChildren), Some(40));
    assert_eq!(n2.remove_last(&mut tree, RemoveBehavior::OrphanChildren), Some(7));
    assert_eq!(n2.as_ref().data(&tree), &2);
}
