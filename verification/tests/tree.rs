use memory::tree::{Handle, Tree, TreeError};

#[test]
fn contains_1() {
    let tree = Tree::new("1");
    assert_eq!(vec!["1"], tree.to_vec(tree.root()).unwrap());
}

#[test]
fn contains_1_1a() {
    let mut tree = Tree::new("1");
    let root = tree.root();
    tree.push(root, "1a").unwrap();
    assert_eq!(vec!["1", "1a"], tree.to_vec(root).unwrap());
}

#[test]
fn contains_1_1a_1b() {
    let mut tree = Tree::new("1");
    let root = tree.root();
    tree.push(root, "1a").unwrap();
    tree.push(root, "1b").unwrap();
    assert_eq!(vec!["1", "1a", "1b"], tree.to_vec(root).unwrap());
}

#[test]
fn contains_1_1a_1a1_1b() {
    let mut tree = Tree::new("1");
    let root = tree.root();
    let t1a = tree.push(root, "1a").unwrap();
    tree.push(t1a, "1a1").unwrap();
    tree.push(root, "1b").unwrap();
    assert_eq!(vec!["1", "1a", "1a1", "1b"], tree.to_vec(root).unwrap());
}

#[test]
fn contains_1_1a_1a1_1b_1b1() {
    let mut tree = Tree::new("1");
    let root = tree.root();
    let t1a = tree.push(root, "1a").unwrap();
    tree.push(t1a, "1a1").unwrap();
    let t1b = tree.push(root, "1b").unwrap();
    tree.push(t1b, "1b1").unwrap();
    assert_eq!(vec!["1", "1a", "1a1", "1b", "1b1"], tree.to_vec(root).unwrap());
}

#[test]
fn have_no_more_parent_after_drop() {
    let mut tree = Tree::new("1");
    let root = tree.root();
    let t1a = tree.push(root, "1a").unwrap();
    let t1a1 = tree.push(t1a, "1a1").unwrap();
    let t1b = tree.push(root, "1b").unwrap();
    let t1b1 = tree.push(t1b, "1b1").unwrap();

    assert_eq!(vec!["1", "1a", "1a1"], tree.values_from_root(t1a1).unwrap());
    assert_eq!(vec!["1", "1b", "1b1"], tree.values_from_root(t1b1).unwrap());

    tree.drop_node(root).unwrap();

    assert_eq!(vec!["1a", "1a1"], tree.values_from_root(t1a1).unwrap());
    assert_eq!(vec!["1b", "1b1"], tree.values_from_root(t1b1).unwrap());
}

/// root "1" with children "1a" (child "1a1") and "1b" (child "1b1").
fn sample() -> (Tree<&'static str>, [Handle; 5]) {
    let mut tree = Tree::new("1");
    let root = tree.root();
    let a = tree.push(root, "1a").unwrap();
    let a1 = tree.push(a, "1a1").unwrap();
    let b = tree.push(root, "1b").unwrap();
    let b1 = tree.push(b, "1b1").unwrap();
    (tree, [root, a, a1, b, b1])
}

#[test]
fn fresh_root_is_its_own_traversal() {
    for v in [0u64, 7, u64::MAX] {
        let tree = Tree::new(v);
        let root = tree.root();
        assert_eq!(Ok(vec![v]), tree.to_vec(root));
        assert_eq!(Ok(vec![v]), tree.values_from_root(root));
        assert_eq!(Ok(v), tree.value(root));
        assert_eq!(Ok(None), tree.parent(root));
        assert!(tree.is_live(root));
    }
}

#[test]
fn to_vec_is_pre_order_whatever_the_push_order() {
    // Children are pushed level by level; the traversal still goes depth first.
    let mut tree = Tree::new(0);
    let root = tree.root();
    let c1 = tree.push(root, 1).unwrap();
    let c2 = tree.push(root, 2).unwrap();
    let c3 = tree.push(root, 3).unwrap();
    let c21 = tree.push(c2, 21).unwrap();
    let c11 = tree.push(c1, 11).unwrap();
    let c22 = tree.push(c2, 22).unwrap();
    let c211 = tree.push(c21, 211).unwrap();
    tree.push(c11, 111).unwrap();
    tree.push(c3, 31).unwrap();
    tree.push(c211, 2111).unwrap();
    tree.push(c22, 221).unwrap();
    tree.push(c1, 12).unwrap();
    assert_eq!(
        vec![0, 1, 11, 111, 12, 2, 21, 211, 2111, 22, 221, 3, 31],
        tree.to_vec(root).unwrap()
    );
    assert_eq!(vec![2, 21, 211, 2111, 22, 221], tree.to_vec(c2).unwrap());
    assert_eq!(vec![21, 211, 2111], tree.to_vec(c21).unwrap());
    assert_eq!(vec![22, 221], tree.to_vec(c22).unwrap());
}

#[test]
fn to_vec_keeps_equal_values_apart() {
    let mut tree = Tree::new("x");
    let root = tree.root();
    let first = tree.push(root, "x").unwrap();
    let second = tree.push(root, "x").unwrap();
    assert_ne!(first, second);
    tree.push(first, "y").unwrap();
    assert_eq!(vec!["x", "x", "y", "x"], tree.to_vec(root).unwrap());
    assert_eq!(vec!["x", "y"], tree.to_vec(first).unwrap());
    assert_eq!(vec!["x"], tree.to_vec(second).unwrap());
}

#[test]
fn to_vec_of_a_deep_chain() {
    let mut tree = Tree::new(0u32);
    let mut at = tree.root();
    let mut expected = vec![0u32];
    for i in 1..20_000u32 {
        at = tree.push(at, i).unwrap();
        expected.push(i);
    }
    assert_eq!(expected, tree.to_vec(tree.root()).unwrap());
    assert_eq!(expected, tree.values_from_root(at).unwrap());
    assert_eq!(vec![19_999], tree.to_vec(at).unwrap());
}

#[test]
fn values_from_root_ends_with_own_value_and_starts_at_root() {
    let (tree, handles) = sample();
    for h in handles {
        let path = tree.values_from_root(h).unwrap();
        assert_eq!(tree.value(h).unwrap(), *path.last().unwrap());
        assert_eq!("1", path[0]);
    }
    assert_eq!(vec!["1"], tree.values_from_root(handles[0]).unwrap());
    assert_eq!(vec!["1", "1a"], tree.values_from_root(handles[1]).unwrap());
    assert_eq!(vec!["1", "1b"], tree.values_from_root(handles[3]).unwrap());
}

#[test]
fn values_from_root_stops_below_the_first_dropped_ancestor() {
    let mut tree = Tree::new(0);
    let mut chain = vec![tree.root()];
    for i in 1..6 {
        let h = tree.push(chain[i - 1], i).unwrap();
        chain.push(h);
    }
    assert_eq!(vec![0, 1, 2, 3, 4, 5], tree.values_from_root(chain[5]).unwrap());
    tree.drop_node(chain[1]).unwrap();
    assert_eq!(vec![2, 3, 4, 5], tree.values_from_root(chain[5]).unwrap());
    tree.drop_node(chain[3]).unwrap();
    assert_eq!(vec![4, 5], tree.values_from_root(chain[5]).unwrap());
    assert_eq!(vec![2], tree.values_from_root(chain[2]).unwrap());
    assert_eq!(vec![0], tree.values_from_root(chain[0]).unwrap());
    assert_eq!(Err(TreeError::InvalidHandle), tree.values_from_root(chain[3]));
}

#[test]
fn parent_reports_live_parents_only() {
    let (mut tree, [root, a, a1, b, b1]) = sample();
    assert_eq!(Ok(None), tree.parent(root));
    assert_eq!(Ok(Some(root)), tree.parent(a));
    assert_eq!(Ok(Some(a)), tree.parent(a1));
    assert_eq!(Ok(Some(root)), tree.parent(b));
    assert_eq!(Ok(Some(b)), tree.parent(b1));

    tree.drop_node(a).unwrap();
    assert_eq!(Err(TreeError::InvalidHandle), tree.parent(a));
    assert_eq!(Ok(None), tree.parent(a1));
    assert!(tree.is_live(a1));
    assert!(!tree.is_live(a));
    assert_eq!(Ok(Some(b)), tree.parent(b1));
}

#[test]
fn remove_subtree_invalidates_every_descendant() {
    let (mut tree, [root, a, a1, b, b1]) = sample();
    assert_eq!(Ok(()), tree.remove_subtree(a));
    for gone in [a, a1] {
        assert!(!tree.is_live(gone));
        assert_eq!(Err(TreeError::InvalidHandle), tree.value(gone));
        assert_eq!(Err(TreeError::InvalidHandle), tree.parent(gone));
        assert_eq!(Err(TreeError::InvalidHandle), tree.values_from_root(gone));
        assert_eq!(Err(TreeError::InvalidHandle), tree.to_vec(gone));
        assert_eq!(Err(TreeError::InvalidHandle), tree.push(gone, "late"));
        assert_eq!(Err(TreeError::InvalidHandle), tree.remove_subtree(gone));
        assert_eq!(Err(TreeError::InvalidHandle), tree.drop_node(gone));
    }
    for kept in [root, b, b1] {
        assert!(tree.is_live(kept));
    }
    assert_eq!(Ok("1b1"), tree.value(b1));
    assert_eq!(vec!["1", "1b", "1b1"], tree.values_from_root(b1).unwrap());
    assert_eq!(vec!["1", "1b", "1b1"], tree.to_vec(root).unwrap());
}

#[test]
fn remove_subtree_of_the_root_removes_everything_under_it() {
    let (mut tree, handles) = sample();
    let other = tree.create_root("2");
    let under_other = tree.push(other, "2a").unwrap();
    tree.remove_subtree(handles[0]).unwrap();
    for h in handles {
        assert_eq!(Err(TreeError::InvalidHandle), tree.value(h));
        assert_eq!(Err(TreeError::InvalidHandle), tree.values_from_root(h));
    }
    assert_eq!(vec!["2", "2a"], tree.to_vec(other).unwrap());
    assert_eq!(vec!["2", "2a"], tree.values_from_root(under_other).unwrap());
}

#[test]
fn remove_subtree_reaches_below_dropped_nodes() {
    let (mut tree, [root, a, a1, b, b1]) = sample();
    tree.drop_node(a).unwrap();
    assert_eq!(Ok("1a1"), tree.value(a1));
    tree.remove_subtree(root).unwrap();
    for h in [root, a, a1, b, b1] {
        assert!(!tree.is_live(h));
    }
}

#[test]
fn remove_subtree_of_a_leaf() {
    let (mut tree, [root, a, a1, _, _]) = sample();
    tree.remove_subtree(a1).unwrap();
    assert_eq!(Err(TreeError::InvalidHandle), tree.value(a1));
    assert_eq!(Ok("1a"), tree.value(a));
    assert_eq!(vec!["1a"], tree.to_vec(a).unwrap());
    assert_eq!(vec!["1", "1a", "1b", "1b1"], tree.to_vec(root).unwrap());
}

#[test]
fn to_vec_leaves_out_what_hangs_under_a_dropped_child() {
    let (mut tree, [root, a, a1, _, _]) = sample();
    tree.drop_node(a).unwrap();
    assert_eq!(vec!["1", "1b", "1b1"], tree.to_vec(root).unwrap());
    assert_eq!(vec!["1a1"], tree.to_vec(a1).unwrap());
    assert_eq!(Err(TreeError::InvalidHandle), tree.to_vec(a));
}

#[test]
fn push_under_a_node_whose_parent_was_dropped() {
    let (mut tree, [_, a, a1, _, _]) = sample();
    tree.drop_node(a).unwrap();
    let late = tree.push(a1, "1a1x").unwrap();
    assert_eq!(vec!["1a1", "1a1x"], tree.values_from_root(late).unwrap());
    assert_eq!(vec!["1a1", "1a1x"], tree.to_vec(a1).unwrap());
}

#[test]
fn push_keeps_earlier_children() {
    let mut tree = Tree::new(String::from("r").len());
    let root = tree.root();
    let first = tree.push(root, 10).unwrap();
    let mut others = Vec::new();
    for i in 0..100 {
        let h = tree.push(root, 100 + i).unwrap();
        assert_ne!(first, h);
        assert!(!others.contains(&h));
        others.push(h);
        assert!(tree.is_live(first));
        assert_eq!(Ok(10), tree.value(first));
        assert_eq!(Ok(Some(root)), tree.parent(first));
    }
    for (i, h) in others.iter().enumerate() {
        assert_eq!(Ok(100 + i), tree.value(*h));
    }
}

#[test]
fn push_on_an_invalid_handle_changes_nothing() {
    let (big, handles) = sample();
    let mut small = Tree::new("only");
    let root = small.root();
    // A handle that names no entry of this store.
    let foreign = handles[4];
    assert_eq!(Err(TreeError::InvalidHandle), small.push(foreign, "x"));
    assert_eq!(Err(TreeError::InvalidHandle), small.value(foreign));
    assert_eq!(Err(TreeError::InvalidHandle), small.parent(foreign));
    assert_eq!(Err(TreeError::InvalidHandle), small.to_vec(foreign));
    assert_eq!(Err(TreeError::InvalidHandle), small.values_from_root(foreign));
    assert_eq!(Err(TreeError::InvalidHandle), small.remove_subtree(foreign));
    assert_eq!(Err(TreeError::InvalidHandle), small.drop_node(foreign));
    assert!(!small.is_live(foreign));
    assert_eq!(vec!["only"], small.to_vec(root).unwrap());
    let next = small.push(root, "second").unwrap();
    assert_eq!(vec!["only", "second"], small.to_vec(root).unwrap());
    assert_eq!(Ok("second"), small.value(next));
    assert_eq!(Ok("1b1"), big.value(foreign));
}

#[test]
fn traversal_length_is_pushes_plus_one() {
    let mut tree = Tree::new(0usize);
    let mut handles = vec![tree.root()];
    for pushes in 1..200usize {
        // A parent chosen among the nodes made so far.
        let parent = handles[(pushes * 7919) % handles.len()];
        handles.push(tree.push(parent, pushes).unwrap());
        assert_eq!(pushes + 1, tree.to_vec(tree.root()).unwrap().len());
    }
    let mut seen = tree.to_vec(tree.root()).unwrap();
    seen.sort();
    assert_eq!((0..200).collect::<Vec<usize>>(), seen);
}

#[test]
fn create_root_starts_a_separate_tree() {
    let mut tree = Tree::new('a');
    let first = tree.root();
    let b = tree.push(first, 'b').unwrap();
    let second = tree.create_root('z');
    assert_ne!(first, second);
    let y = tree.push(second, 'y').unwrap();
    tree.push(b, 'c').unwrap();
    assert_eq!(Ok(None), tree.parent(second));
    assert_eq!(vec!['a', 'b', 'c'], tree.to_vec(first).unwrap());
    assert_eq!(vec!['z', 'y'], tree.to_vec(second).unwrap());
    assert_eq!(vec!['z', 'y'], tree.values_from_root(y).unwrap());
    tree.remove_subtree(first).unwrap();
    assert_eq!(Err(TreeError::InvalidHandle), tree.value(b));
    assert_eq!(vec!['z', 'y'], tree.to_vec(second).unwrap());
}

#[test]
fn handles_are_plain_copies() {
    let (tree, [root, a, _, b, _]) = sample();
    let again = a;
    assert_eq!(a, again);
    assert_ne!(a, b);
    assert_eq!(root, tree.root());
    assert_eq!(tree.value(a), tree.value(again));
}

#[test]
fn is_root_tells_a_root_from_an_orphan() {
    let (mut tree, [root, a, a1, _, _]) = sample();
    assert_eq!(Ok(true), tree.is_root(root));
    assert_eq!(Ok(false), tree.is_root(a));
    tree.drop_node(a).unwrap();
    assert_eq!(Ok(None), tree.parent(a1));
    assert_eq!(Ok(false), tree.is_root(a1));
    assert_eq!(Err(TreeError::InvalidHandle), tree.is_root(a));
    let other = tree.create_root("2");
    assert_eq!(Ok(true), tree.is_root(other));
}

#[test]
fn dropping_an_ancestor_cuts_the_path_at_that_ancestor() {
    let (mut tree, [root, a, a1, _, b1]) = sample();
    let before = tree.values_from_root(a1).unwrap();
    let to_a = tree.values_from_root(a).unwrap();
    tree.drop_node(a).unwrap();
    let after = tree.values_from_root(a1).unwrap();
    assert_eq!(vec!["1a1"], after);
    assert_eq!(before, [to_a, after].concat());
    assert_eq!(vec!["1", "1b", "1b1"], tree.values_from_root(b1).unwrap());
    assert_eq!(Ok("1"), tree.value(root));
}
