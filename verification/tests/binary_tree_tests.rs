use classic_collections::binary_tree::{BTree, Node};

#[test]
fn add_test_1() {
    let mut tree = BTree::new(5);
    assert!(tree.root.is_none());
    tree.insert((1, "First item"));
    assert!(!tree.root.is_none());
    tree.insert((3, "Added this second"));
    tree.insert((-1, "Added this third"));
}

#[test]
fn add_test_2() {
    let mut tree = BTree::new(5);
    tree.insert((1, "First item"));
    tree.insert((2, "Second item"));
    tree.insert((3, "This item should end up in the root"));
    tree.insert((4, "First item, in right child"));
    tree.insert((5, "Second item, in right child"));
    assert!(!tree.root.is_none());
    if let Some(node) = &tree.root {
        assert_ne!(node.keys.len(), 5);
    }

    // add more nodes
    tree.insert((6, "should be added to right child, and eventually end up in root"));
    tree.insert((0, "should be added to left child"));
    tree.insert((7, "this will fill right"));
    tree.insert((8, "should cause 6 to bump up to root node"));
}

#[test]
fn add_test_3() {
    let mut tree = BTree::new(5);
    tree.insert((1, "First item"));
    tree.insert((2, "Second item"));
    tree.insert((3, "This item should end up in the root"));
    tree.insert((4, "First item, in right child"));
    tree.insert((5, "Second item, in right child"));
    assert!(!tree.root.is_none());
    if let Some(node) = &tree.root {
        assert_ne!(node.keys.len(), 5);
    }

    // add more nodes
    tree.insert((6, "should be added to right child, and eventually end up in root"));
    tree.insert((0, "should be added to left child"));
    tree.insert((7, "this will fill right"));
    tree.insert((8, "should cause 6 to bump up to root node"));
}

#[test]
fn add_test_4() {
    let mut tree = BTree::new(5);
    tree.insert((1, "First item"));
    tree.insert((2, "Second item"));
    tree.insert((3, "This item should end up in the root"));
    tree.insert((4, "First item, in right child"));
    tree.insert((5, "Second item, in right child"));
    assert!(!tree.root.is_none());

    // add more nodes
    tree.insert((6, "should be added to right child, and eventually end up in root"));
    tree.insert((0, "should be added to left child"));
    tree.insert((7, "this will fill right"));
    tree.insert((8, "should cause 6 to bump up to root node"));
    tree.insert((-1, "goes into left child"));
    tree.insert((-2, "should bump zero up to the root"));
    tree.insert((9, "will eventually end up in root"));
    tree.insert((10, "right child"));
    tree.insert((11, "should bump 9 up to the root"));
    tree.insert((12, "right child"));
    tree.insert((13, "right child again"));
    tree.insert((14, "should create a third tier of the tree"));
}

fn collect_keys(node: &Option<Box<Node<&'static str>>>, out: &mut Vec<i64>) {
    if let Some(n) = node {
        for i in 0..n.keys.len() {
            collect_keys(&n.children[i], out);
            out.push(n.keys[i]);
        }
        collect_keys(&n.children[n.keys.len()], out);
    }
}

#[test]
fn keys_stay_sorted_through_splits() {
    let mut tree = BTree::new(3);
    for k in [8, 3, 12, 1, 6, 10, 15, 4, 7, 0, 9, 2, 5, 14, 11, 13] {
        tree.insert((k, "x"));
    }
    let mut seen = Vec::new();
    collect_keys(&tree.root, &mut seen);
    assert_eq!(seen, (0..16).collect::<Vec<i64>>());
}

#[test]
fn duplicate_key_replaces_value() {
    let mut tree = BTree::new(4);
    tree.insert((2, "old"));
    tree.insert((5, "kept"));
    tree.insert((2, "new"));
    let root = tree.root.as_ref().expect("tree should have a root");
    assert_eq!(root.keys, vec![2, 5]);
    assert_eq!(root.values, vec!["new", "kept"]);
}
