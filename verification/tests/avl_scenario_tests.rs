use classic_collections::avl_tree::{add_helper, Node};

// Ascending insertion of 1..=15 builds a perfectly complete tree; removing
// 8..=15 in ascending order walks the root through the in-order successors
// and then down into the left half, keeping every balance in {-1, 0, 1}.
#[test]
fn ascending_fifteen_then_remove_upper_half() {
    let mut tree = classic_collections::avl_tree::BinaryTree::new();
    for i in 1..16 {
        tree.add(i);
    }
    assert_eq!(tree.depth(), 4);
    let mut it = tree.iter();
    for i in 1..16 {
        assert_eq!(it.next(), Some(i));
    }
    assert!(it.next().is_none());

    let mut root = Some(Box::new(Node::new(1)));
    for i in 2..16 {
        (root, _) = add_helper(root, i);
    }
    let node = root.as_ref().expect("tree should have a root");
    assert_eq!(node.val, 8);
    assert_eq!(node.balance, 0);

    let expected_roots = [9, 10, 11, 12, 7, 7, 4, 4];
    for i in 8..16 {
        (root, _) = classic_collections::avl_tree::remove_helper(root, i);
        let node = root.as_ref().expect("tree should keep a root");
        assert!(node.balance >= -1 && node.balance <= 1);
        assert_eq!(node.val, expected_roots[(i - 8) as usize]);
    }
}

// Inserting 1, 2, 3 triggers one left rotation: the result is a complete
// tree rooted at 2 with children 1 and 3.
#[test]
fn three_ascending_keys_rotate_once() {
    let root = Some(Box::new(Node::new(1)));
    let (root, _) = add_helper(root, 2);
    let (root, _) = add_helper(root, 3);
    let node = root.expect("tree should have a root");
    assert_eq!(node.val, 2);
    assert_eq!(node.balance, 0);
    assert_eq!(node.left.expect("left child expected").val, 1);
    assert_eq!(node.right.expect("right child expected").val, 3);
}

// Inserting 0 into the tree built from 5, 2, 7, 1, 3 rebalances greedily
// from the bottom up: two cascading rotations leave 2 at the root.
#[test]
fn cascading_rotations_reroot_at_two() {
    let root = Some(Box::new(Node::new(5)));
    let (root, _) = add_helper(root, 2);
    let (root, _) = add_helper(root, 7);
    let (root, _) = add_helper(root, 1);
    let (root, _) = add_helper(root, 3);
    let (root, _) = add_helper(root, 0);
    let node = root.expect("tree should have a root");
    assert_ne!(node.val, 5);
    assert_eq!(node.val, 2);
    assert_eq!(node.balance, 0);
}

// A duplicate insertion leaves lookups, iteration order and the height
// unchanged.
#[test]
fn duplicate_insert_is_idempotent() {
    let mut tree = classic_collections::avl_tree::BinaryTree::new();
    for i in [5, 2, 9, 7] {
        tree.add(i);
    }
    let depth_before = tree.depth();
    tree.add(7);
    assert_eq!(tree.depth(), depth_before);
    for i in [5, 2, 9, 7] {
        assert!(tree.contains(i));
    }
    let mut it = tree.iter();
    for i in [2, 5, 7, 9] {
        assert_eq!(it.next(), Some(i));
    }
    assert!(it.next().is_none());
}

// Removing keys one by one leaves exactly the others retrievable.
#[test]
fn delete_then_search_keeps_other_keys() {
    let mut tree = classic_collections::avl_tree::BinaryTree::new();
    let keys = [8, 3, 11, 1, 6, 9, 14];
    for k in keys {
        tree.add(k);
    }
    tree.remove(6);
    assert!(!tree.contains(6));
    for k in keys {
        if k != 6 {
            assert!(tree.contains(k));
        }
    }
    tree.remove(8);
    assert!(!tree.contains(8));
    for k in keys {
        if k != 6 && k != 8 {
            assert!(tree.contains(k));
        }
    }
}
