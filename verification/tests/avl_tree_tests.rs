use classic_collections::avl_tree::{add_helper, find, remove_helper, BinaryTree, Node};
use rand::seq::SliceRandom;
use rand::thread_rng;

// Node addition

#[test]
fn node_add_right() {
    let root = Some(Box::new(Node::new(1)));
    let (root, height_change) = add_helper(root, 2);
    assert_eq!(height_change, 1);
    if let Some(node) = root {
        assert!(node.left.is_none());
        assert!(!node.right.is_none());
        assert_eq!(node.balance, 1);
    } else {
        panic!("We didn't get a root node back from helper...");
    }
}

#[test]
fn node_add_left() {
    let root = Some(Box::new(Node::new(1)));
    let (root, height_change) = add_helper(root, 0);
    assert_eq!(height_change, 1);
    if let Some(node) = root {
        assert!(!node.left.is_none());
        assert!(node.right.is_none());
        assert_eq!(node.balance, -1);
    } else {
        panic!("We didn't get a root node back from helper...");
    }
}

#[test]
fn node_add_duplicate() {
    let root = Some(Box::new(Node::new(1)));
    let (root, height_change) = add_helper(root, 1);
    assert_eq!(height_change, 0);
    if let Some(node) = root {
        assert!(node.left.is_none());
        assert!(node.right.is_none());
        assert_eq!(node.balance, 0);
    } else {
        panic!("We didn't get a root node back from helper...");
    }
}

#[test]
fn simple_left_rotation() {
    let root = Some(Box::new(Node::new(1)));
    let (root, _) = add_helper(root, 2);
    let (root, height_change) = add_helper(root, 3);
    assert_eq!(height_change, 0);
    if let Some(node) = root {
        assert!(!node.left.is_none());
        assert!(!node.right.is_none());
        assert_eq!(node.balance, 0);
        assert_eq!(node.val, 2);
    } else {
        panic!("We didn't get a root node back from helper...");
    }
}

#[test]
fn simple_right_rotation() {
    let root = Some(Box::new(Node::new(3)));
    let (root, _) = add_helper(root, 2);
    let (root, height_change) = add_helper(root, 1);
    assert_eq!(height_change, 0);
    if let Some(node) = root {
        assert!(!node.left.is_none());
        assert!(!node.right.is_none());
        assert_eq!(node.balance, 0);
        assert_eq!(node.val, 2);
    } else {
        panic!("We didn't get a root node back from helper...");
    }
}

#[test]
fn right_rotation_left_heavy_left_child() {
    let root = Some(Box::new(Node::new(5)));
    let (root, _) = add_helper(root, 2);
    let (root, _) = add_helper(root, 7);
    let (root, _) = add_helper(root, 1);
    let (root, _) = add_helper(root, 3);
    if let Some(node) = &root {
        assert_eq!(node.balance, -1);
    } else {
        panic!("We didn't get a root node back from helper...");
    }
    let (root, height_change) = add_helper(root, 0);
    if let Some(node) = root {
        assert_ne!(node.val, 5);
        assert_eq!(node.val, 2);
        assert_eq!(height_change, 0);
        assert_eq!(node.balance, 0);
    } else {
        panic!("We didn't get a root node back from helper...");
    }
}

#[test]
fn right_rotation_right_heavy_left_child() {
    let root = Some(Box::new(Node::new(5)));
    let (root, _) = add_helper(root, 2);
    let (root, _) = add_helper(root, 7);
    let (root, _) = add_helper(root, 1);
    let (root, _) = add_helper(root, 3);
    if let Some(node) = &root {
        assert_eq!(node.val, 5);
        assert_eq!(node.balance, -1);
    } else {
        panic!("We didn't get a root node back from helper...");
    }
    let (root, height_change) = add_helper(root, 4);
    if let Some(node) = root {
        assert_ne!(node.val, 5);
        assert_eq!(node.val, 3);
        assert_eq!(height_change, 0);
        assert_eq!(node.balance, 0);
    } else {
        panic!("We didn't get a root node back from helper...");
    }
}

#[test]
fn right_rotation_left_heavy_left_child_no_right_child() {
    let root = Some(Box::new(Node::new(5)));
    let (root, _) = add_helper(root, 2);
    let (root, _) = add_helper(root, 7);
    let (root, _) = add_helper(root, 1);
    if let Some(node) = &root {
        assert_eq!(node.val, 5);
        assert_eq!(node.balance, -1);
    } else {
        panic!("We didn't get a root node back from helper...");
    }
    let (root, height_change) = add_helper(root, 0);
    if let Some(node) = root {
        assert_eq!(node.val, 5);
        assert_eq!(height_change, 0);
        assert_eq!(node.balance, -1);
    } else {
        panic!("We didn't get a root node back from helper...");
    }
}

#[test]
fn right_rotation_right_heavy_left_child_no_left_child() {
    let root = Some(Box::new(Node::new(5)));
    let (root, _) = add_helper(root, 2);
    let (root, _) = add_helper(root, 7);
    let (root, _) = add_helper(root, 3);
    if let Some(node) = &root {
        assert_eq!(node.val, 5);
        assert_eq!(node.balance, -1);
    } else {
        panic!("We didn't get a root node back from helper...");
    }
    let (root, height_change) = add_helper(root, 4);
    if let Some(node) = root {
        assert_eq!(node.val, 5);
        assert_eq!(height_change, 0);
        assert_eq!(node.balance, -1);
    } else {
        panic!("We didn't get a root node back from helper...");
    }
}

#[test]
fn left_rotation_left_heavy_right_child() {
    let root = Some(Box::new(Node::new(4)));
    let (root, _) = add_helper(root, 2);
    let (root, _) = add_helper(root, 7);
    let (root, _) = add_helper(root, 6);
    let (root, _) = add_helper(root, 8);
    if let Some(node) = &root {
        assert_eq!(node.val, 4);
        assert_eq!(node.balance, 1);
    } else {
        panic!("We didn't get a root node back from helper...");
    }
    let (root, height_change) = add_helper(root, 5);
    if let Some(node) = root {
        assert_ne!(node.val, 4);
        assert_eq!(node.val, 6);
        assert_eq!(height_change, 0);
        assert_eq!(node.balance, 0);
    } else {
        panic!("We didn't get a root node back from helper...");
    }
}

#[test]
fn left_rotation_right_heavy_right_child() {
    let root = Some(Box::new(Node::new(4)));
    let (root, _) = add_helper(root, 2);
    let (root, _) = add_helper(root, 6);
    let (root, _) = add_helper(root, 5);
    let (root, _) = add_helper(root, 7);
    if let Some(node) = &root {
        assert_eq!(node.val, 4);
        assert_eq!(node.balance, 1);
    } else {
        panic!("We didn't get a root node back from helper...");
    }
    let (root, height_change) = add_helper(root, 8);
    if let Some(node) = root {
        assert_ne!(node.val, 4);
        assert_eq!(node.val, 6);
        assert_eq!(height_change, 0);
        assert_eq!(node.balance, 0);
    } else {
        panic!("We didn't get a root node back from helper...");
    }
}

#[test]
fn left_rotation_left_heavy_right_child_no_right_child() {
    let root = Some(Box::new(Node::new(4)));
    let (root, _) = add_helper(root, 2);
    let (root, _) = add_helper(root, 7);
    let (root, _) = add_helper(root, 6);
    if let Some(node) = &root {
        assert_eq!(node.val, 4);
        assert_eq!(node.balance, 1);
    } else {
        panic!("We didn't get a root node back from helper...");
    }
    let (root, height_change) = add_helper(root, 5);
    if let Some(node) = root {
        assert_eq!(node.val, 4);
        assert_eq!(height_change, 0);
        assert_eq!(node.balance, 1);
    } else {
        panic!("We didn't get a root node back from helper...");
    }
}

#[test]
fn left_rotation_right_heavy_right_child_no_left_child() {
    let root = Some(Box::new(Node::new(5)));
    let (root, _) = add_helper(root, 2);
    let (root, _) = add_helper(root, 7);
    let (root, _) = add_helper(root, 8);
    if let Some(node) = &root {
        assert_eq!(node.val, 5);
        assert_eq!(node.balance, 1);
    } else {
        panic!("We didn't get a root node back from helper...");
    }
    let (root, height_change) = add_helper(root, 9);
    if let Some(node) = root {
        assert_eq!(node.val, 5);
        assert_eq!(height_change, 0);
        assert_eq!(node.balance, 1);
    } else {
        panic!("We didn't get a root node back from helper...");
    }
}

// Node removal

#[test]
fn remove_root() {
    let root = Some(Box::new(Node::new(4)));
    let (root, height_change) = remove_helper(root, 4);
    assert!(root.is_none());
    assert_eq!(height_change, 1)
}

#[test]
fn remove_left() {
    let root = Some(Box::new(Node::new(1)));
    let (root, _) = add_helper(root, 0);
    if let Some(node) = root.as_ref() {
        assert!(!node.left.is_none());
    } else {
        panic!("Add didn't return a root node, something went wrong...");
    }
    let (root, height_change) = remove_helper(root, 0);
    if let Some(node) = root {
        assert!(node.left.is_none());
        assert_eq!(node.val, 1);
        assert_eq!(height_change, 1);
    } else {
        panic!("Remove didn't work properly, no root was returned from the tree");
    }
}

#[test]
fn remove_right() {
    let root = Some(Box::new(Node::new(1)));
    let (root, _) = add_helper(root, 2);
    if let Some(node) = root.as_ref() {
        assert!(!node.right.is_none());
    } else {
        panic!("Add didn't return a root node, something went wrong...");
    }
    let (root, height_change) = remove_helper(root, 2);
    if let Some(node) = root {
        assert!(node.right.is_none());
        assert_eq!(node.val, 1);
        assert_eq!(height_change, 1);
    } else {
        panic!("Remove didn't work properly, no root was returned from the tree");
    }
}

#[test]
fn remove_root_with_left_child() {
    let root = Some(Box::new(Node::new(1)));
    let (root, _) = add_helper(root, 0);
    if let Some(node) = root.as_ref() {
        assert!(!node.left.is_none());
    } else {
        panic!("Add didn't return a root node, something went wrong...");
    }
    let (root, height_change) = remove_helper(root, 1);
    if let Some(node) = root {
        assert!(node.left.is_none());
        assert_ne!(node.val, 1);
        assert_eq!(node.val, 0);
        assert_eq!(height_change, 1);
    } else {
        panic!("Remove didn't work properly, no root was returned from the tree");
    }
}

#[test]
fn remove_root_with_right_child() {
    let root = Some(Box::new(Node::new(1)));
    let (root, _) = add_helper(root, 2);
    if let Some(node) = root.as_ref() {
        assert!(!node.right.is_none());
    } else {
        panic!("Add didn't return a root node, something went wrong...");
    }
    let (root, height_change) = remove_helper(root, 1);
    if let Some(node) = root {
        assert!(node.right.is_none());
        assert_ne!(node.val, 1);
        assert_eq!(node.val, 2);
        assert_eq!(height_change, 1);
    } else {
        panic!("Remove didn't work properly, no root was returned from the tree");
    }
}

#[test]
fn remove_root_with_two_children() {
    let root = Some(Box::new(Node::new(1)));
    let (root, _) = add_helper(root, 2);
    let (root, _) = add_helper(root, 0);
    if let Some(node) = root.as_ref() {
        assert!(!node.right.is_none());
        assert!(!node.left.is_none());
    } else {
        panic!("Add didn't return a root node, something went wrong...");
    }
    let (root, height_change) = remove_helper(root, 1);
    if let Some(node) = root {
        // a balanced node is spliced with its in-order successor
        assert!(node.right.is_none());
        assert!(!node.left.is_none());
        assert_eq!(node.val, 2);
        assert_eq!(height_change, 0);
    } else {
        panic!("Remove didn't work properly, no root was returned from the tree");
    }
}

#[test]
fn remove_root_with_two_children_left_heavy() {
    let root = Some(Box::new(Node::new(1)));
    let (root, _) = add_helper(root, 2);
    let (root, _) = add_helper(root, -1);
    let (root, _) = add_helper(root, 0);
    let (root, _) = add_helper(root, -2);
    let (root_wrapper, height_change) = remove_helper(root, 1);
    if let Some(root) = root_wrapper {
        // pulls from the left when it is left heavy
        assert_eq!(root.val, 0);
        assert_eq!(height_change, 0);
    } else {
        panic!("Remove didn't work properly, no root was returned from the tree");
    }
}

#[test]
fn remove_right_child_left_heavy() {
    let root = Some(Box::new(Node::new(1)));
    let (root, _) = add_helper(root, 2);
    let (root, _) = add_helper(root, 0);
    let (root, _) = add_helper(root, -1);
    let (root, _) = add_helper(root, -2);
    let (root_wrapper, height_change) = remove_helper(root, 2);
    if let Some(root) = root_wrapper {
        // should have rotated right after removal
        assert_eq!(root.val, -1);
        assert_eq!(root.balance, 1);
        assert_eq!(height_change, 0);
    } else {
        panic!("Remove didn't work properly, no root was returned from the tree");
    }
}

#[test]
fn remove_left_child_right_heavy() {
    let root = Some(Box::new(Node::new(0)));
    let (root, _) = add_helper(root, 2);
    let (root, _) = add_helper(root, -1);
    let (root, _) = add_helper(root, 3);
    let (root, _) = add_helper(root, 1);
    let (root_wrapper, height_change) = remove_helper(root, -1);
    if let Some(root) = root_wrapper {
        // should have rotated left after removal
        assert_eq!(root.val, 2);
        assert_eq!(root.balance, -1);
        assert_eq!(height_change, 0);
    } else {
        panic!("Remove didn't work properly, no root was returned from the tree");
    }
}

#[test]
fn remove_right_child_left_heavy_no_neighbor() {
    let root = Some(Box::new(Node::new(1)));
    let (root, _) = add_helper(root, 2);
    let (root, _) = add_helper(root, -1);
    let (root, _) = add_helper(root, -2);
    let (root_wrapper, height_change) = remove_helper(root, 2);
    if let Some(root) = root_wrapper {
        // should have rotated right after removal
        assert_eq!(root.val, -1);
        assert_eq!(root.balance, 0);
        assert_eq!(height_change, 1);
    } else {
        panic!("Remove didn't work properly, no root was returned from the tree");
    }
}

#[test]
fn remove_left_child_right_heavy_no_neighbor() {
    let root = Some(Box::new(Node::new(0)));
    let (root, _) = add_helper(root, 2);
    let (root, _) = add_helper(root, -1);
    let (root, _) = add_helper(root, 3);
    let (root_wrapper, height_change) = remove_helper(root, -1);
    if let Some(root) = root_wrapper {
        // should have rotated left after removal
        assert_eq!(root.val, 2);
        assert_eq!(root.balance, 0);
        assert_eq!(height_change, 1);
    } else {
        panic!("Remove didn't work properly, no root was returned from the tree");
    }
}

#[test]
fn remove_right_child_left_heavy_opposite_neighbor() {
    let root = Some(Box::new(Node::new(1)));
    let (root, _) = add_helper(root, 2);
    let (root, _) = add_helper(root, -1);
    let (root, _) = add_helper(root, 0);
    let (root_wrapper, height_change) = remove_helper(root, 2);
    if let Some(root) = root_wrapper {
        // should have rotated right after removal
        assert_eq!(root.val, 0);
        assert_eq!(root.balance, 0);
        assert_eq!(height_change, 1);
    } else {
        panic!("Remove didn't work properly, no root was returned from the tree");
    }
}

#[test]
fn remove_left_child_right_heavy_opposite_neighbor() {
    let root = Some(Box::new(Node::new(0)));
    let (root, _) = add_helper(root, 2);
    let (root, _) = add_helper(root, -1);
    let (root, _) = add_helper(root, 1);
    let (root_wrapper, height_change) = remove_helper(root, -1);
    if let Some(root) = root_wrapper {
        // should have rotated left after removal
        assert_eq!(root.val, 1);
        assert_eq!(root.balance, 0);
        assert_eq!(height_change, 1);
    } else {
        panic!("Remove didn't work properly, no root was returned from the tree");
    }
}

#[test]
fn bigger_tree_test_remove_from_right_half() {
    let mut root = Some(Box::new(Node::new(1)));
    for i in 2..16 {
        (root, _) = add_helper(root, i);
    }
    if let Some(node) = root.as_ref() {
        assert_eq!(node.val, 8);
        assert_eq!(node.balance, 0);
    } else {
        panic!("We didn't get a root back from add, something went wrong...")
    }
    for i in 8..16 {
        (root, _) = remove_helper(root, i);
        if let Some(node) = root.as_ref() {
            assert!(node.balance >= -1 && node.balance <= 1);
            if i < 12 {
                // a balanced root is spliced with its in-order successor
                assert_eq!(i + 1, node.val);
            } else if i < 14 {
                assert_eq!(7, node.val);
            } else {
                assert_eq!(4, node.val);
            }
        } else {
            panic!("Remove didn't return a root node, something went wrong");
        }
    }
}

#[test]
fn bigger_tree_test_remove_from_left_half() {
    let mut root = Some(Box::new(Node::new(1)));
    for i in 2..16 {
        (root, _) = add_helper(root, i);
    }
    if let Some(node) = root.as_ref() {
        assert_eq!(node.val, 8);
        assert_eq!(node.balance, 0);
    } else {
        panic!("We didn't get a root back from add, something went wrong...")
    }
    for i in (1..9).rev() {
        (root, _) = remove_helper(root, i);
        if let Some(node) = root.as_ref() {
            assert!(node.balance >= -1 && node.balance <= 1);
            if i > 2 {
                // removing the balanced root 8 splices in 9, which stays
                assert_eq!(9, node.val);
            } else {
                assert_eq!(12, node.val);
            }
        } else {
            panic!("Remove didn't return a root node, something went wrong");
        }
    }
}

// Whole-tree operations

#[test]
fn tree_construction() {
    let tree = BinaryTree::new();
    assert!(!tree.contains(1));
    assert!(tree.depth() == 0);
}

#[test]
fn add_to_empty_tree() {
    let mut tree = BinaryTree::new();
    assert!(!tree.contains(1));
    tree.add(1);
    assert!(tree.contains(1));
    assert_eq!(tree.depth(), 1);
}

#[test]
fn add_to_tree_failure() {
    let mut tree = BinaryTree::new();
    tree.add(1);
    assert!(tree.contains(1));
    tree.add(1);
    assert_eq!(tree.depth(), 1);
    let mut it = tree.iter();
    if let Some(only) = it.next() {
        assert!(it.next().is_none());
        assert_eq!(only, 1);
    } else {
        panic!("The tree doesn't have a head, and it should...")
    }
}

#[test]
fn remove_from_empty_tree() {
    let mut tree = BinaryTree::new();
    tree.remove(1);
    assert!(!tree.contains(1));
}

#[test]
fn remove_from_tree_success() {
    let mut tree = BinaryTree::new();
    tree.add(1);
    tree.add(8);
    tree.add(2);
    tree.add(10);
    tree.add(-3);
    assert_eq!(tree.depth(), 3);
    assert!(tree.contains(1));
    tree.remove(1);
    assert!(!tree.contains(1));
    assert_eq!(tree.depth(), 3);
}

#[test]
fn remove_from_tree_failure() {
    let mut tree = BinaryTree::new();
    tree.add(1);
    tree.add(8);
    tree.add(2);
    tree.add(10);
    tree.add(-3);

    assert!(tree.contains(1));
    assert!(tree.contains(8));
    assert!(tree.contains(2));
    assert!(tree.contains(10));
    assert!(tree.contains(-3));

    assert!(!tree.contains(20));
    tree.remove(20);

    assert!(tree.contains(1));
    assert!(tree.contains(8));
    assert!(tree.contains(2));
    assert!(tree.contains(10));
    assert!(tree.contains(-3));
}

#[test]
fn search_in_empty_tree() {
    let tree = BinaryTree::new();
    assert!(!tree.contains(1));
}

// Iterator behaviour

#[test]
fn initial_iterator_tests() {
    let mut tree = BinaryTree::new();
    let mut items: Vec<i64> = (0..32).collect();
    items.shuffle(&mut thread_rng());
    for i in items {
        tree.add(i);
    }

    let mut last = -1;
    let mut it = tree.iter();
    while let Some(i) = it.next() {
        assert!(last < i);
        last = i;
    }
}

#[test]
fn empty_tree_iterator() {
    let tree = BinaryTree::new();
    let mut it = tree.iter();
    while let Some(_) = it.next() {
        panic!("Shouldn't release anything for empty tree");
    }
}

#[test]
fn search_for_item_in_tree() {
    let root = Some(Box::new(Node::new(8)));
    let (root, _) = add_helper(root, 4);
    let (root, _) = add_helper(root, 10);
    let (root, _) = add_helper(root, 12);
    let (root, _) = add_helper(root, 16);

    assert!(find(&root, 8));
    assert!(find(&root, 4));
    assert!(find(&root, 10));
    assert!(find(&root, 12));
    assert!(find(&root, 16));
}

#[test]
fn search_for_item_not_in_tree() {
    let root = Some(Box::new(Node::new(8)));
    let (root, _) = add_helper(root, 4);
    let (root, _) = add_helper(root, 10);
    let (root, _) = add_helper(root, 12);
    let (root, _) = add_helper(root, 16);

    assert!(!find(&root, 9));
    assert!(!find(&root, 0));
    assert!(!find(&root, 20));
    assert!(!find(&root, 118));
    assert!(!find(&root, 1));
}
