//! A self-balancing (AVL) binary search tree over `i64` keys.
//!
//! Every node carries a signed balance indicator encoding
//! height(right subtree) - height(left subtree).  Insertions rebalance
//! eagerly on the way back up and provably keep that indicator accurate,
//! so the tree's height stays logarithmic.  Removals follow the same
//! rotation tables; a removal that splices a two-children node reports no
//! height change upward, which keeps the ordering invariant and the
//! indicator range intact but can leave an ancestor's indicator out of
//! step with the true subtree heights (see `remove_helper`'s contract).
//!
//! Each operation's contract both abstracts the result (key sets,
//! heights, well-formedness) and pins it exactly, by equating it with a
//! functional model (`spec_add`, `spec_remove`, the rotation models)
//! that restates the algorithm's case tables at the specification level.

use vstd::prelude::*;
use vstd::pervasive::unreached;

verus! {

/// Tree node holding the balance of its subtrees.
///
/// Negative balance indicates that the left subtree is deeper than the
/// right subtree, positive that the right subtree is deeper, zero equal
/// heights.  Adding and subtracting maintain the balance value of each
/// node as we go, greedily rotating overbalanced subtrees (subtrees
/// whose balance becomes -2 or 2).
pub struct Node {
    pub balance: i8,
    pub left: Option<Box<Node>>,
    pub right: Option<Box<Node>>,
    pub val: i64,
}

pub open spec fn nat_max(a: nat, b: nat) -> nat {
    if a >= b {
        a
    } else {
        b
    }
}

/// Height of a subtree: zero for an empty tree, one for a single node.
pub open spec fn height(t: Option<Box<Node>>) -> nat
    decreases t,
{
    match t {
        None => 0,
        Some(n) => 1 + nat_max(height(n.left), height(n.right)),
    }
}

/// The set of keys stored in a subtree.
pub open spec fn keys(t: Option<Box<Node>>) -> Set<i64>
    decreases t,
{
    match t {
        None => Set::empty(),
        Some(n) => keys(n.left).union(keys(n.right)).insert(n.val),
    }
}

/// The binary-search-tree ordering invariant: at every node, all keys of
/// the left subtree are smaller than the node's key and all keys of the
/// right subtree are larger.
pub open spec fn bst(t: Option<Box<Node>>) -> bool
    decreases t,
{
    match t {
        None => true,
        Some(n) => {
            &&& bst(n.left)
            &&& bst(n.right)
            &&& (forall|k: i64| keys(n.left).contains(k) ==> k < n.val)
            &&& (forall|k: i64| keys(n.right).contains(k) ==> k > n.val)
        },
    }
}

/// Every stored balance indicator lies in {-1, 0, 1}.
pub open spec fn balance_in_range(t: Option<Box<Node>>) -> bool
    decreases t,
{
    match t {
        None => true,
        Some(n) => -1 <= n.balance <= 1 && balance_in_range(n.left) && balance_in_range(n.right),
    }
}

/// Every stored balance indicator equals the true height difference of
/// the node's subtrees.
pub open spec fn balance_accurate(t: Option<Box<Node>>) -> bool
    decreases t,
{
    match t {
        None => true,
        Some(n) => {
            &&& n.balance as int == height(n.right) as int - height(n.left) as int
            &&& balance_accurate(n.left)
            &&& balance_accurate(n.right)
        },
    }
}

/// Full well-formedness: ordered, with accurate balance indicators in
/// {-1, 0, 1} (hence the AVL height property holds everywhere).
pub open spec fn well_formed(t: Option<Box<Node>>) -> bool {
    bst(t) && balance_accurate(t) && balance_in_range(t)
}

/// The AVL height property: at every node the subtree heights differ by
/// at most one.
pub open spec fn avl_balanced(t: Option<Box<Node>>) -> bool
    decreases t,
{
    match t {
        None => true,
        Some(n) => {
            &&& -1 <= height(n.right) as int - height(n.left) as int <= 1
            &&& avl_balanced(n.left)
            &&& avl_balanced(n.right)
        },
    }
}

/// The keys of a subtree rooted at a given node.
pub open spec fn node_keys(n: Node) -> Set<i64> {
    keys(n.left).union(keys(n.right)).insert(n.val)
}

/// The height of a subtree rooted at a given node.
pub open spec fn node_height(n: Node) -> nat {
    1 + nat_max(height(n.left), height(n.right))
}

/// Both subtrees of the node are well formed, the node's key separates
/// them, and the node's balance equals the true height difference, though
/// it may lie outside {-1, 0, 1}: the transient state rotations repair.
pub open spec fn rotation_input(n: Node) -> bool {
    &&& well_formed(n.left)
    &&& well_formed(n.right)
    &&& (forall|k: i64| keys(n.left).contains(k) ==> k < n.val)
    &&& (forall|k: i64| keys(n.right).contains(k) ==> k > n.val)
    &&& n.balance as int == height(n.right) as int - height(n.left) as int
}

/// Removing this key never splices a two-children node: the search path
/// for the key either misses, or ends at a node with at most one child.
pub open spec fn splice_free(t: Option<Box<Node>>, v: i64) -> bool
    decreases t,
{
    match t {
        None => true,
        Some(n) => {
            if v < n.val {
                splice_free(n.left, v)
            } else if v > n.val {
                splice_free(n.right, v)
            } else {
                !(n.left is Some && n.right is Some)
            }
        },
    }
}

/// Functional model of `rotate_left`: promotes the right child to the
/// subtree root after first right-rotating a left-heavy right child, and
/// recomputes both balances from the fixed case table keyed on the
/// pre-rotation balances.  On inputs outside the rotation's precondition
/// (no right child, or a pair not in the table) the model leaves the
/// affected values unchanged; the rotation is never run on those.
pub open spec fn spec_rotate_left(root: Node) -> Node
    decreases node_height(root),
{
    match root.right {
        None => root,
        Some(child0) => {
            let child = if child0.balance < 0 {
                spec_rotate_right(*child0)
            } else {
                *child0
            };
            let rb = root.balance;
            let cb = child.balance;
            let new_balance: i8 = if rb == 2 && cb == 1 {
                0
            } else if rb == 2 && cb == 0 {
                1
            } else if rb == 1 && cb == 1 {
                -1i8
            } else if rb == 1 && cb == 0 {
                0
            } else {
                rb
            };
            let new_child_balance: i8 = if rb == 2 && cb == 1 {
                0
            } else if rb == 2 && cb == 0 {
                -1i8
            } else if rb == 1 && cb == 1 {
                -1i8
            } else if rb == 1 && cb == 0 {
                -1i8
            } else {
                cb
            };
            Node {
                balance: new_child_balance,
                left: Some(
                    Box::new(
                        Node {
                            balance: new_balance,
                            left: root.left,
                            right: child.left,
                            val: root.val,
                        },
                    ),
                ),
                right: child.right,
                val: child.val,
            }
        },
    }
}

/// Functional model of `rotate_right`: the mirror image of
/// `spec_rotate_left`, with the mirrored case table.
pub open spec fn spec_rotate_right(root: Node) -> Node
    decreases node_height(root),
{
    match root.left {
        None => root,
        Some(child0) => {
            let child = if child0.balance > 0 {
                spec_rotate_left(*child0)
            } else {
                *child0
            };
            let rb = root.balance;
            let cb = child.balance;
            let new_balance: i8 = if rb == -2 && cb == -1 {
                0
            } else if rb == -2 && cb == 0 {
                -1i8
            } else if rb == -1 && cb == -1 {
                1
            } else if rb == -1 && cb == 0 {
                0
            } else {
                rb
            };
            let new_child_balance: i8 = if rb == -2 && cb == -1 {
                0
            } else if rb == -2 && cb == 0 {
                1
            } else if rb == -1 && cb == -1 {
                1
            } else if rb == -1 && cb == 0 {
                1
            } else {
                cb
            };
            Node {
                balance: new_child_balance,
                left: child.left,
                right: Some(
                    Box::new(
                        Node {
                            balance: new_balance,
                            left: child.right,
                            right: root.right,
                            val: root.val,
                        },
                    ),
                ),
                val: child.val,
            }
        },
    }
}

/// Functional model of `add_helper`: descend by comparison, grow a leaf
/// for a missing key, adjust the balance by the reported height change,
/// rotate on +-2, and report a height change upward only on a 0 to +-1
/// transition.  A present key leaves the subtree unchanged.
pub open spec fn spec_add(root: Option<Box<Node>>, val: i64) -> (Option<Box<Node>>, int)
    decreases height(root),
{
    match root {
        None => (Some(Box::new(Node { balance: 0, left: None, right: None, val })), 1),
        Some(node) => {
            if node.val > val {
                let rec = spec_add(node.left, val);
                let balance2 = (node.balance as int - rec.1) as i8;
                let node2 = Node { balance: balance2, left: rec.0, right: node.right, val: node.val };
                if balance2 == -2 {
                    (Some(Box::new(spec_rotate_right(node2))), 0)
                } else {
                    (Some(Box::new(node2)), if rec.1 != 0 {
                        -(balance2 as int)
                    } else {
                        0
                    })
                }
            } else if node.val < val {
                let rec = spec_add(node.right, val);
                let balance2 = (node.balance as int + rec.1) as i8;
                let node2 = Node { balance: balance2, left: node.left, right: rec.0, val: node.val };
                if balance2 == 2 {
                    (Some(Box::new(spec_rotate_left(node2))), 0)
                } else {
                    (Some(Box::new(node2)), if rec.1 != 0 {
                        balance2 as int
                    } else {
                        0
                    })
                }
            } else {
                (root, 0)
            }
        },
    }
}

/// Functional model of `remove_height_change_update`: a node at balance
/// +-2 rotates and reports the absolute pre-rotation balance of its
/// taller child; a node at 0 reports 1; a node at +-1 reports 0.  On a
/// balance outside -2..2 (never reached) the model reports 0.
pub open spec fn spec_remove_update(root: Node) -> (Node, int) {
    if root.balance == 2 {
        match root.right {
            Some(c) => (spec_rotate_left(root), if c.balance == 0 {
                0int
            } else {
                1int
            }),
            None => (root, 0),
        }
    } else if root.balance == -2 {
        match root.left {
            Some(c) => (spec_rotate_right(root), if c.balance == 0 {
                0int
            } else {
                1int
            }),
            None => (root, 0),
        }
    } else if root.balance == 0 {
        (root, 1)
    } else {
        (root, 0)
    }
}

/// Functional model of `remove_least`: walks to the leftmost node,
/// detaches it, and rebalances on the way back up via
/// `spec_remove_update` whenever the child below reported a shrink.
pub open spec fn spec_remove_least(root: Node) -> (Option<Box<Node>>, i64, int)
    decreases node_height(root),
{
    match root.left {
        None => (root.right, root.val, 1),
        Some(lnode) => {
            let rec = spec_remove_least(*lnode);
            let node2 = Node {
                balance: (root.balance as int + rec.2) as i8,
                left: rec.0,
                right: root.right,
                val: root.val,
            };
            if rec.2 != 0 {
                let upd = spec_remove_update(node2);
                (Some(Box::new(upd.0)), rec.1, upd.1)
            } else {
                (Some(Box::new(node2)), rec.1, 0)
            }
        },
    }
}

/// Functional model of `remove_greatest`: the mirror image of
/// `spec_remove_least`.
pub open spec fn spec_remove_greatest(root: Node) -> (Option<Box<Node>>, i64, int)
    decreases node_height(root),
{
    match root.right {
        None => (root.left, root.val, 1),
        Some(rnode) => {
            let rec = spec_remove_greatest(*rnode);
            let node2 = Node {
                balance: (root.balance as int - rec.2) as i8,
                left: root.left,
                right: rec.0,
                val: root.val,
            };
            if rec.2 != 0 {
                let upd = spec_remove_update(node2);
                (Some(Box::new(upd.0)), rec.1, upd.1)
            } else {
                (Some(Box::new(node2)), rec.1, 0)
            }
        },
    }
}

/// Functional model of `remove_helper`: descend by comparison; a found
/// node with at most one child is replaced by that child (height change
/// 1); a found node with two children is spliced with its in-order
/// successor when right-heavy or balanced, with its in-order predecessor
/// when left-heavy, and reports height change 0 regardless of the inner
/// removal's effect; on the way back up, `spec_remove_update` rebalances
/// wherever a shrink was reported.
pub open spec fn spec_remove(root: Option<Box<Node>>, val: i64) -> (Option<Box<Node>>, int)
    decreases height(root),
{
    match root {
        None => (None, 0),
        Some(node) => {
            if node.val == val {
                if node.left is None && node.right is None {
                    (None, 1)
                } else if node.right is None {
                    (node.left, 1)
                } else if node.left is None {
                    (node.right, 1)
                } else if node.balance >= 0 {
                    let rec = spec_remove_least(*node.right.unwrap());
                    (
                        Some(
                            Box::new(
                                Node {
                                    balance: (node.balance as int - rec.2) as i8,
                                    left: node.left,
                                    right: rec.0,
                                    val: rec.1,
                                },
                            ),
                        ),
                        0,
                    )
                } else {
                    let rec = spec_remove_greatest(*node.left.unwrap());
                    (
                        Some(
                            Box::new(
                                Node {
                                    balance: (node.balance as int + rec.2) as i8,
                                    left: rec.0,
                                    right: node.right,
                                    val: rec.1,
                                },
                            ),
                        ),
                        0,
                    )
                }
            } else if node.val > val {
                let rec = spec_remove(node.left, val);
                let node2 = Node {
                    balance: (node.balance as int + rec.1) as i8,
                    left: rec.0,
                    right: node.right,
                    val: node.val,
                };
                if rec.1 != 0 {
                    let upd = spec_remove_update(node2);
                    (Some(Box::new(upd.0)), upd.1)
                } else {
                    (Some(Box::new(node2)), 0)
                }
            } else {
                let rec = spec_remove(node.right, val);
                let node2 = Node {
                    balance: (node.balance as int - rec.1) as i8,
                    left: node.left,
                    right: rec.0,
                    val: node.val,
                };
                if rec.1 != 0 {
                    let upd = spec_remove_update(node2);
                    (Some(Box::new(upd.0)), upd.1)
                } else {
                    (Some(Box::new(node2)), 0)
                }
            }
        },
    }
}

/// A well-formed tree satisfies the AVL height property: accurate
/// indicators in {-1, 0, 1} bound every height difference by one.
pub proof fn lemma_balance_invariant(t: Option<Box<Node>>)
    requires
        balance_accurate(t),
        balance_in_range(t),
    ensures
        avl_balanced(t),
    decreases t,
{
    match t {
        None => {},
        Some(n) => {
            lemma_balance_invariant(n.left);
            lemma_balance_invariant(n.right);
        },
    }
}

/// A subtree of positive height has a root node.
proof fn lemma_height_pos(t: Option<Box<Node>>)
    ensures
        height(t) > 0 ==> t is Some,
        t is None ==> height(t) == 0,
{
    if t is None {
        assert(height(t) == 0);
    }
}

impl Node {
    pub fn new(val: i64) -> (r: Self)
        ensures
            r == (Node { balance: 0, left: None, right: None, val }),
    {
        Self { balance: 0, left: None, right: None, val }
    }
}

/// Re-roots the subtree at its right child, repairing a right-heavy
/// imbalance.  Balance indicators are recomputed from the fixed case
/// table keyed on the pre-rotation balances of root and child; a
/// left-heavy right child is first rotated right so that a single
/// rotation suffices.
fn rotate_left(root: Box<Node>) -> (r: Box<Node>)
    requires
        root.right is Some,
        rotation_input(*root),
        1 <= root.balance <= 2,
    ensures
        well_formed(Some(r)),
        keys(Some(r)) == node_keys(*root),
        root.balance == 2 && root.right.unwrap().balance != 0 ==> height(Some(r)) + 1
            == node_height(*root),
        root.balance == 1 || root.right.unwrap().balance == 0 ==> height(Some(r)) == node_height(
            *root,
        ),
        root.balance == 1 ==> r.balance == -1,
        *r == spec_rotate_left(*root),
    decreases node_height(*root),
{
    let Node { balance, left, right, val } = *root;
    let ghost g_left = left;
    if let Some(child0) = right {
        let ghost g_child0 = *child0;
        proof {
            lemma_height_pos(g_child0.left);
            lemma_height_pos(g_child0.right);
        }
        let child = if child0.balance < 0 {
            rotate_right(child0)
        } else {
            child0
        };
        let ghost g_child = *child;
        proof {
            assert(keys(Some(child)) == node_keys(g_child0));
            assert(height(Some(child)) == node_height(g_child0));
            assert(well_formed(Some(child)));
            assert(g_child.balance >= 0);
        }
        let Node { balance: child_balance, left: child_left, right: child_right, val: child_val } =
            *child;
        let ghost g_child_left = child_left;
        let ghost g_child_right = child_right;
        let (new_balance, new_child_balance): (i8, i8) = match (balance, child_balance) {
            (2, 1) => (0, 0),
            (2, 0) => (1, -1),
            (1, 1) => (-1, -1),
            (1, 0) => (0, -1),
            _ => unreached(),
        };
        let new_left = Box::new(Node { balance: new_balance, left, right: child_left, val });
        let r = Box::new(
            Node {
                balance: new_child_balance,
                left: Some(new_left),
                right: child_right,
                val: child_val,
            },
        );
        proof {
            let hl = height(g_left);
            let hcl = height(g_child_left);
            let hcr = height(g_child_right);
            assert(g_child.balance as int == hcr - hcl);
            assert(balance as int == node_height(g_child0) as int - hl);
            assert(1 + nat_max(hcl, hcr) == node_height(g_child0));
            assert(height(Some(new_left)) == 1 + nat_max(hl, hcl));
            assert(height(Some(r)) == 1 + nat_max(1 + nat_max(hl, hcl), hcr));
            assert(keys(Some(new_left)) =~= keys(g_left).union(keys(g_child_left)).insert(val));
            assert(keys(Some(child)) =~= keys(g_child_left).union(keys(g_child_right)).insert(
                g_child.val,
            ));
            assert(keys(Some(r)) =~= node_keys(*root));
            assert(node_keys(g_child0).contains(g_child.val));
            assert(keys(root.right).contains(g_child.val));
            assert(val < child_val);
            assert forall|k: i64| keys(Some(new_left)).contains(k) implies k < child_val by {
                if keys(g_child_left).contains(k) {
                    assert(node_keys(g_child0).contains(k));
                    assert(keys(g_child.left).contains(k));
                }
            }
            assert forall|k: i64| keys(g_left).contains(k) implies k < val by {}
            assert forall|k: i64| keys(g_child_left).contains(k) implies k > val by {
                assert(node_keys(g_child0).contains(k));
                assert(keys(root.right).contains(k));
            }
            assert(bst(Some(new_left)));
            assert(new_balance as int == hcl - hl);
            assert(balance_accurate(Some(new_left)));
            assert(new_child_balance as int == hcr - height(Some(new_left)) as int);
            assert(balance_in_range(Some(new_left)));
            assert(bst(Some(r)));
            assert(balance_accurate(Some(r)));
            assert(balance_in_range(Some(r)));
        }
        r
    } else {
        unreached()
    }
}

/// Re-roots the subtree at its left child, repairing a left-heavy
/// imbalance: the mirror image of `rotate_left`.
fn rotate_right(root: Box<Node>) -> (r: Box<Node>)
    requires
        root.left is Some,
        rotation_input(*root),
        -2 <= root.balance <= -1,
    ensures
        well_formed(Some(r)),
        keys(Some(r)) == node_keys(*root),
        root.balance == -2 && root.left.unwrap().balance != 0 ==> height(Some(r)) + 1
            == node_height(*root),
        root.balance == -1 || root.left.unwrap().balance == 0 ==> height(Some(r)) == node_height(
            *root,
        ),
        root.balance == -1 ==> r.balance == 1,
        *r == spec_rotate_right(*root),
    decreases node_height(*root),
{
    let Node { balance, left, right, val } = *root;
    let ghost g_right = right;
    if let Some(child0) = left {
        let ghost g_child0 = *child0;
        proof {
            lemma_height_pos(g_child0.left);
            lemma_height_pos(g_child0.right);
        }
        let child = if child0.balance > 0 {
            rotate_left(child0)
        } else {
            child0
        };
        let ghost g_child = *child;
        proof {
            assert(keys(Some(child)) == node_keys(g_child0));
            assert(height(Some(child)) == node_height(g_child0));
            assert(well_formed(Some(child)));
            assert(g_child.balance <= 0);
        }
        let Node { balance: child_balance, left: child_left, right: child_right, val: child_val } =
            *child;
        let ghost g_child_left = child_left;
        let ghost g_child_right = child_right;
        let (new_balance, new_child_balance): (i8, i8) = match (balance, child_balance) {
            (-2, -1) => (0, 0),
            (-2, 0) => (-1, 1),
            (-1, -1) => (1, 1),
            (-1, 0) => (0, 1),
            _ => unreached(),
        };
        let new_right = Box::new(Node { balance: new_balance, left: child_right, right, val });
        let r = Box::new(
            Node {
                balance: new_child_balance,
                left: child_left,
                right: Some(new_right),
                val: child_val,
            },
        );
        proof {
            let hr = height(g_right);
            let hcl = height(g_child_left);
            let hcr = height(g_child_right);
            assert(g_child.balance as int == hcr - hcl);
            assert(balance as int == hr - node_height(g_child0) as int);
            assert(1 + nat_max(hcl, hcr) == node_height(g_child0));
            assert(height(Some(new_right)) == 1 + nat_max(hcr, hr));
            assert(height(Some(r)) == 1 + nat_max(hcl, 1 + nat_max(hcr, hr)));
            assert(keys(Some(new_right)) =~= keys(g_child_right).union(keys(g_right)).insert(val));
            assert(keys(Some(child)) =~= keys(g_child_left).union(keys(g_child_right)).insert(
                g_child.val,
            ));
            assert(keys(Some(r)) =~= node_keys(*root));
            assert(node_keys(g_child0).contains(g_child.val));
            assert(keys(root.left).contains(g_child.val));
            assert(val > child_val);
            assert forall|k: i64| keys(Some(new_right)).contains(k) implies k > child_val by {
                if keys(g_child_right).contains(k) {
                    assert(node_keys(g_child0).contains(k));
                    assert(keys(g_child.right).contains(k));
                }
            }
            assert forall|k: i64| keys(g_right).contains(k) implies k > val by {}
            assert forall|k: i64| keys(g_child_right).contains(k) implies k < val by {
                assert(node_keys(g_child0).contains(k));
                assert(keys(root.left).contains(k));
            }
            assert(bst(Some(new_right)));
            assert(new_balance as int == hr - hcr);
            assert(balance_accurate(Some(new_right)));
            assert(new_child_balance as int == height(Some(new_right)) as int - hcl);
            assert(balance_in_range(Some(new_right)));
            assert(bst(Some(r)));
            assert(balance_accurate(Some(r)));
            assert(balance_in_range(Some(r)));
        }
        r
    } else {
        unreached()
    }
}

/// Recursive insertion.  Returns the possibly re-rooted subtree together
/// with the height change it reports to its caller: 1 when the subtree
/// grew, 0 when the growth was absorbed (or the key was already present,
/// in which case the subtree is returned unchanged).
pub fn add_helper(root: Option<Box<Node>>, val: i64) -> (r: (Option<Box<Node>>, i8))
    requires
        well_formed(root),
    ensures
        well_formed(r.0),
        r.0 is Some,
        keys(r.0) == keys(root).insert(val),
        0 <= r.1 <= 1,
        height(r.0) as int == height(root) as int + r.1,
        keys(root).contains(val) ==> r.1 == 0 && r.0 == root,
        root is Some && r.1 == 1 ==> r.0.unwrap().balance != 0,
        r.0 == spec_add(root, val).0 && r.1 as int == spec_add(root, val).1,
    decreases height(root),
{
    if let Some(node) = root {
        let ghost g_node = *node;
        proof {
            assert(-1 <= g_node.balance <= 1);
        }
        let Node { balance, left, right, val: node_val } = *node;
        let ghost g_left = left;
        let ghost g_right = right;
        if node_val > val {
            let (new_left, hc) = add_helper(left, val);
            let ghost g_new_left = new_left;
            let balance2 = balance - hc;
            let node2 = Box::new(
                Node { balance: balance2, left: new_left, right, val: node_val },
            );
            proof {
                let hl = height(g_left);
                let hr = height(g_right);
                assert(height(g_new_left) as int == hl + hc);
                assert(keys(Some(node2)) =~= keys(root).insert(val));
                assert forall|k: i64| keys(g_new_left).contains(k) implies k < node_val by {}
                assert(bst(Some(node2)));
                assert(balance2 as int == hr - (hl + hc));
                assert(balance_accurate(Some(node2)));
                if keys(root).contains(val) {
                    assert(keys(root) == keys(g_left).union(keys(g_right)).insert(g_node.val));
                    if keys(g_right).contains(val) {
                        assert(val > node_val);
                    }
                    assert(keys(g_left).contains(val));
                    assert(hc == 0 && g_new_left == g_left);
                    assert(node2 == node);
                }
            }
            if balance2 == -2 {
                proof {
                    lemma_height_pos(g_node.left);
                    assert(g_new_left.unwrap().balance != 0);
                }
                let rotated = rotate_right(node2);
                proof {
                    assert(keys(Some(rotated)) == keys(root).insert(val));
                    assert(height(Some(rotated)) == height(root));
                }
                (Some(rotated), 0)
            } else {
                let hc2: i8 = if hc != 0 {
                    -balance2
                } else {
                    0
                };
                proof {
                    assert(balance_in_range(Some(node2)));
                    assert(height(Some(node2)) as int == height(root) as int + hc2);
                }
                (Some(node2), hc2)
            }
        } else if node_val < val {
            let (new_right, hc) = add_helper(right, val);
            let ghost g_new_right = new_right;
            let balance2 = balance + hc;
            let node2 = Box::new(
                Node { balance: balance2, left, right: new_right, val: node_val },
            );
            proof {
                let hl = height(g_left);
                let hr = height(g_right);
                assert(height(g_new_right) as int == hr + hc);
                assert(keys(Some(node2)) =~= keys(root).insert(val));
                assert forall|k: i64| keys(g_new_right).contains(k) implies k > node_val by {}
                assert(bst(Some(node2)));
                assert(balance2 as int == (hr + hc) - hl);
                assert(balance_accurate(Some(node2)));
                if keys(root).contains(val) {
                    assert(keys(root) == keys(g_left).union(keys(g_right)).insert(g_node.val));
                    if keys(g_left).contains(val) {
                        assert(val < node_val);
                    }
                    assert(keys(g_right).contains(val));
                    assert(hc == 0 && g_new_right == g_right);
                    assert(node2 == node);
                }
            }
            if balance2 == 2 {
                proof {
                    lemma_height_pos(g_node.right);
                    assert(g_new_right.unwrap().balance != 0);
                }
                let rotated = rotate_left(node2);
                proof {
                    assert(keys(Some(rotated)) == keys(root).insert(val));
                    assert(height(Some(rotated)) == height(root));
                }
                (Some(rotated), 0)
            } else {
                let hc2: i8 = if hc != 0 {
                    balance2
                } else {
                    0
                };
                proof {
                    assert(balance_in_range(Some(node2)));
                    assert(height(Some(node2)) as int == height(root) as int + hc2);
                }
                (Some(node2), hc2)
            }
        } else {
            let node2 = Box::new(Node { balance, left, right, val: node_val });
            proof {
                assert(node2 == node);
                assert(keys(root).contains(val));
                assert(keys(root).insert(val) =~= keys(root));
            }
            (Some(node2), 0)
        }
    } else {
        let r = Box::new(Node::new(val));
        proof {
            assert(keys(Some(r)) =~= keys(root).insert(val));
        }
        (Some(r), 1)
    }
}

/// After a removal has shrunk one subtree of this node and its balance
/// has been adjusted, decides what the node reports upward: a node whose
/// balance reached zero passes the shrink on (1); a node now at +-1
/// absorbed it (0); a node at +-2 rotates, and the rotation absorbs the
/// shrink exactly when the taller child's balance was 0.
pub fn remove_height_change_update(root: Box<Node>) -> (r: (Box<Node>, i8))
    requires
        rotation_input(*root),
        -2 <= root.balance <= 2,
    ensures
        well_formed(Some(r.0)),
        keys(Some(r.0)) == node_keys(*root),
        0 <= r.1 <= 1,
        -1 <= root.balance <= 1 ==> r.0 == root,
        root.balance == 0 ==> r.1 == 1,
        root.balance == 1 || root.balance == -1 ==> r.1 == 0,
        height(Some(r.0)) as int + r.1 == node_height(*root) as int || (-1 <= root.balance <= 1
            && r.1 == 1),
        root.balance == 2 || root.balance == -2 ==> height(Some(r.0)) as int + r.1 == node_height(
            *root,
        ) as int,
        root.balance == 2 ==> r.1 == (if root.right.unwrap().balance == 0 {
            0int
        } else {
            1int
        }),
        root.balance == -2 ==> r.1 == (if root.left.unwrap().balance == 0 {
            0int
        } else {
            1int
        }),
        *r.0 == spec_remove_update(*root).0 && r.1 as int == spec_remove_update(*root).1,
{
    match root.balance {
        2 => {
            proof {
                lemma_height_pos(root.right);
            }
            let release: i8 = match &root.right {
                Some(r_child) => {
                    proof {
                        assert(-1 <= r_child.balance <= 1);
                    }
                    if r_child.balance < 0 {
                        -r_child.balance
                    } else {
                        r_child.balance
                    }
                },
                None => unreached(),
            };
            let rotated = rotate_left(root);
            (rotated, release)
        },
        -2 => {
            proof {
                lemma_height_pos(root.left);
            }
            let release: i8 = match &root.left {
                Some(l_child) => {
                    proof {
                        assert(-1 <= l_child.balance <= 1);
                    }
                    if l_child.balance < 0 {
                        -l_child.balance
                    } else {
                        l_child.balance
                    }
                },
                None => unreached(),
            };
            let rotated = rotate_right(root);
            (rotated, release)
        },
        1 | -1 => (root, 0),
        0 => (root, 1),
        _ => unreached(),
    }
}

/// Detaches the least key of the subtree, rebalancing on the way back
/// up.  Returns the remaining subtree, the detached key, and the true
/// height change of the subtree (0 or 1).
pub fn remove_least(root: Box<Node>) -> (r: (Option<Box<Node>>, i64, i8))
    requires
        well_formed(Some(root)),
    ensures
        well_formed(r.0),
        node_keys(*root).contains(r.1),
        forall|k: i64| keys(r.0).contains(k) ==> r.1 < k,
        keys(r.0) == node_keys(*root).remove(r.1),
        0 <= r.2 <= 1,
        height(r.0) as int + r.2 == node_height(*root) as int,
        r.0 == spec_remove_least(*root).0 && r.1 == spec_remove_least(*root).1 && r.2 as int
            == spec_remove_least(*root).2,
    decreases node_height(*root),
{
    let Node { balance, left, right, val } = *root;
    let ghost g_left = left;
    let ghost g_right = right;
    if let Some(lnode) = left {
        let ghost g_lnode = *lnode;
        let (new_left, least, hc) = remove_least(lnode);
        let ghost g_new_left = new_left;
        proof {
            assert(-1 <= balance <= 1);
            assert(height(g_new_left) as int + hc == height(g_left) as int);
        }
        let balance2 = balance + hc;
        let node2 = Box::new(Node { balance: balance2, left: new_left, right, val });
        proof {
            assert(node_keys(g_lnode).contains(least));
            assert(keys(g_left).contains(least));
            assert(least < val);
            assert(!keys(g_right).contains(least));
            assert(keys(Some(node2)) =~= node_keys(*root).remove(least));
            assert forall|k: i64| keys(g_new_left).contains(k) implies k < val by {
                assert(keys(g_left).contains(k));
            }
            assert(bst(Some(node2)));
            assert(balance_accurate(g_new_left));
            assert(rotation_input(*node2));
            assert forall|k: i64| keys(Some(node2)).contains(k) implies least < k by {}
        }
        if hc != 0 {
            let (node3, hc2) = remove_height_change_update(node2);
            proof {
                let hl = height(g_left);
                let hr = height(g_right);
                assert(height(Some(node2)) == 1 + nat_max((hl - 1) as nat, hr));
                assert(height(Some(node3)) as int + hc2 == node_height(*root) as int);
            }
            (Some(node3), least, hc2)
        } else {
            proof {
                assert(well_formed(Some(node2)));
                assert(height(Some(node2)) == node_height(*root));
            }
            (Some(node2), least, 0)
        }
    } else {
        proof {
            assert(!keys(g_right).contains(val));
            assert(keys(g_right) =~= node_keys(*root).remove(val));
            assert(height(g_right) as int + 1 == node_height(*root) as int);
        }
        (right, val, 1)
    }
}

/// Detaches the greatest key of the subtree: the mirror image of
/// `remove_least`.
pub fn remove_greatest(root: Box<Node>) -> (r: (Option<Box<Node>>, i64, i8))
    requires
        well_formed(Some(root)),
    ensures
        well_formed(r.0),
        node_keys(*root).contains(r.1),
        forall|k: i64| keys(r.0).contains(k) ==> r.1 > k,
        keys(r.0) == node_keys(*root).remove(r.1),
        0 <= r.2 <= 1,
        height(r.0) as int + r.2 == node_height(*root) as int,
        r.0 == spec_remove_greatest(*root).0 && r.1 == spec_remove_greatest(*root).1 && r.2 as int
            == spec_remove_greatest(*root).2,
    decreases node_height(*root),
{
    let Node { balance, left, right, val } = *root;
    let ghost g_left = left;
    let ghost g_right = right;
    if let Some(rnode) = right {
        let ghost g_rnode = *rnode;
        let (new_right, greatest, hc) = remove_greatest(rnode);
        let ghost g_new_right = new_right;
        proof {
            assert(-1 <= balance <= 1);
            assert(height(g_new_right) as int + hc == height(g_right) as int);
        }
        let balance2 = balance - hc;
        let node2 = Box::new(Node { balance: balance2, left, right: new_right, val });
        proof {
            assert(node_keys(g_rnode).contains(greatest));
            assert(keys(g_right).contains(greatest));
            assert(greatest > val);
            assert(!keys(g_left).contains(greatest));
            assert(keys(Some(node2)) =~= node_keys(*root).remove(greatest));
            assert forall|k: i64| keys(g_new_right).contains(k) implies k > val by {
                assert(keys(g_right).contains(k));
            }
            assert(bst(Some(node2)));
            assert(balance_accurate(g_new_right));
            assert(rotation_input(*node2));
            assert forall|k: i64| keys(Some(node2)).contains(k) implies greatest > k by {}
        }
        if hc != 0 {
            let (node3, hc2) = remove_height_change_update(node2);
            proof {
                let hl = height(g_left);
                let hr = height(g_right);
                assert(height(Some(node2)) == 1 + nat_max(hl, (hr - 1) as nat));
                assert(height(Some(node3)) as int + hc2 == node_height(*root) as int);
            }
            (Some(node3), greatest, hc2)
        } else {
            proof {
                assert(well_formed(Some(node2)));
                assert(height(Some(node2)) == node_height(*root));
            }
            (Some(node2), greatest, 0)
        }
    } else {
        proof {
            assert(!keys(g_left).contains(val));
            assert(keys(g_left) =~= node_keys(*root).remove(val));
            assert(height(g_left) as int + 1 == node_height(*root) as int);
        }
        (left, val, 1)
    }
}

/// Recursive removal.  Returns the new subtree and the height change it
/// reports upward (0 or 1).  Removing an absent key is a no-op.
///
/// A node with two children is spliced: its key is replaced by the least
/// key of the right subtree when the node is right-heavy or balanced, by
/// the greatest key of the left subtree when left-heavy, and the node
/// reports height change 0 upward regardless of the effect of that inner
/// removal.  That report can understate a real shrink, so ancestors'
/// balance indicators may drift from the true heights: the result is
/// guaranteed ordered and in range, and is guaranteed fully well formed
/// whenever no splice happened: when the reported height change is 1,
/// when the key was absent, and whenever the removal is `splice_free`.
pub fn remove_helper(root: Option<Box<Node>>, val: i64) -> (r: (Option<Box<Node>>, i8))
    requires
        well_formed(root),
    ensures
        bst(r.0),
        balance_in_range(r.0),
        keys(r.0) == keys(root).remove(val),
        0 <= r.1 <= 1,
        height(root) as int - 1 <= height(r.0) as int <= height(root) as int,
        r.1 == 1 ==> well_formed(r.0) && height(r.0) as int + 1 == height(root) as int,
        !keys(root).contains(val) ==> r.0 == root && r.1 == 0,
        splice_free(root, val) ==> well_formed(r.0) && height(r.0) as int + r.1 == height(
            root,
        ) as int,
        !splice_free(root, val) ==> r.1 == 0,
        r.0 == spec_remove(root, val).0 && r.1 as int == spec_remove(root, val).1,
    decreases height(root),
{
    if let Some(node) = root {
        let ghost g_node = *node;
        proof {
            assert(-1 <= g_node.balance <= 1);
        }
        let Node { balance, left, right, val: node_val } = *node;
        let ghost g_left = left;
        let ghost g_right = right;
        if node_val == val {
            match (left, right) {
                (None, None) => {
                    proof {
                        assert(g_left is None);
                        assert(g_right is None);
                        assert(keys(g_left) =~= Set::empty());
                        assert(keys(g_right) =~= Set::empty());
                        assert(keys(root) =~= Set::empty().insert(val));
                        assert(keys::<>(None) =~= keys(root).remove(val));
                    }
                    (None, 1)
                },
                (Some(l), None) => {
                    proof {
                        assert(g_right is None);
                        assert(keys(g_right) =~= Set::empty());
                        assert(g_left == Some(l));
                        assert(!keys(Some(l)).contains(val));
                        assert(keys(Some(l)) =~= keys(root).remove(val));
                        assert(height(g_right) == 0);
                        assert(height(g_left) == 1);
                    }
                    (Some(l), 1)
                },
                (None, Some(rn)) => {
                    proof {
                        assert(g_left is None);
                        assert(keys(g_left) =~= Set::empty());
                        assert(g_right == Some(rn));
                        assert(!keys(Some(rn)).contains(val));
                        assert(keys(Some(rn)) =~= keys(root).remove(val));
                        assert(height(g_left) == 0);
                        assert(height(g_right) == 1);
                    }
                    (Some(rn), 1)
                },
                (Some(l), Some(rn)) => {
                    if balance >= 0 {
                        let (new_right, new_val, hc) = remove_least(rn);
                        let node2 = Box::new(
                            Node { balance: balance - hc, left: Some(l), right: new_right, val: new_val },
                        );
                        proof {
                            assert(keys(g_right).contains(new_val));
                            assert(new_val > node_val);
                            assert(!keys(g_left).contains(val));
                            assert(!keys(g_right).contains(val));
                            assert(keys(Some(node2)) =~= keys(root).remove(val));
                            assert forall|k: i64| keys(Some(l)).contains(k) implies k < new_val by {}
                            assert(bst(Some(node2)));
                            assert(height(new_right) as int + hc == height(g_right) as int);
                            assert(balance_accurate(Some(node2)));
                            assert(balance_in_range(Some(node2)));
                        }
                        (Some(node2), 0)
                    } else {
                        let (new_left, new_val, hc) = remove_greatest(l);
                        let node2 = Box::new(
                            Node { balance: balance + hc, left: new_left, right: Some(rn), val: new_val },
                        );
                        proof {
                            assert(keys(g_left).contains(new_val));
                            assert(new_val < node_val);
                            assert(!keys(g_left).contains(val));
                            assert(!keys(g_right).contains(val));
                            assert(keys(Some(node2)) =~= keys(root).remove(val));
                            assert forall|k: i64| keys(Some(rn)).contains(k) implies k > new_val by {}
                            assert(bst(Some(node2)));
                            assert(height(new_left) as int + hc == height(g_left) as int);
                            assert(balance_accurate(Some(node2)));
                            assert(balance_in_range(Some(node2)));
                        }
                        (Some(node2), 0)
                    }
                },
            }
        } else if node_val > val {
            let (new_left, hc) = remove_helper(left, val);
            let ghost g_new_left = new_left;
            let balance2 = balance + hc;
            let node2 = Box::new(Node { balance: balance2, left: new_left, right, val: node_val });
            proof {
                let hl = height(g_left);
                let hr = height(g_right);
                assert(!keys(g_right).contains(val));
                assert(g_node.val != val);
                assert(keys(Some(node2)) =~= keys(root).remove(val));
                assert forall|k: i64| keys(g_new_left).contains(k) implies k < node_val by {
                    assert(keys(g_left).contains(k));
                }
                assert(bst(Some(node2)));
                if keys(root).contains(val) {
                    assert(keys(root) == keys(g_left).union(keys(g_right)).insert(g_node.val));
                    if keys(g_right).contains(val) {
                        assert(val > node_val);
                    }
                    assert(keys(g_left).contains(val));
                } else {
                    assert(!keys(g_left).contains(val));
                    assert(g_new_left == g_left && hc == 0);
                    assert(node2 == node);
                }
            }
            if hc != 0 {
                proof {
                    assert(well_formed(g_new_left));
                    assert(height(g_new_left) as int + 1 == height(g_left) as int);
                    assert(rotation_input(*node2));
                }
                let (node3, hc2) = remove_height_change_update(node2);
                proof {
                    let hl = height(g_left);
                    let hr = height(g_right);
                    assert(height(Some(node2)) == 1 + nat_max((hl - 1) as nat, hr));
                    assert(height(Some(node3)) as int + hc2 == height(Some(node2)) as int || hc2
                        == 1 && height(Some(node3)) == height(Some(node2)));
                }
                (Some(node3), hc2)
            } else {
                proof {
                    assert(balance_in_range(Some(node2)));
                }
                (Some(node2), 0)
            }
        } else {
            let (new_right, hc) = remove_helper(right, val);
            let ghost g_new_right = new_right;
            let balance2 = balance - hc;
            let node2 = Box::new(Node { balance: balance2, left, right: new_right, val: node_val });
            proof {
                let hl = height(g_left);
                let hr = height(g_right);
                assert(!keys(g_left).contains(val));
                assert(g_node.val != val);
                assert(keys(Some(node2)) =~= keys(root).remove(val));
                assert forall|k: i64| keys(g_new_right).contains(k) implies k > node_val by {
                    assert(keys(g_right).contains(k));
                }
                assert(bst(Some(node2)));
                if keys(root).contains(val) {
                    assert(keys(root) == keys(g_left).union(keys(g_right)).insert(g_node.val));
                    if keys(g_left).contains(val) {
                        assert(val < node_val);
                    }
                    assert(keys(g_right).contains(val));
                } else {
                    assert(!keys(g_right).contains(val));
                    assert(g_new_right == g_right && hc == 0);
                    assert(node2 == node);
                }
            }
            if hc != 0 {
                proof {
                    assert(well_formed(g_new_right));
                    assert(height(g_new_right) as int + 1 == height(g_right) as int);
                    assert(rotation_input(*node2));
                }
                let (node3, hc2) = remove_height_change_update(node2);
                proof {
                    let hl = height(g_left);
                    let hr = height(g_right);
                    assert(height(Some(node2)) == 1 + nat_max(hl, (hr - 1) as nat));
                    assert(height(Some(node3)) as int + hc2 == height(Some(node2)) as int || hc2
                        == 1 && height(Some(node3)) == height(Some(node2)));
                }
                (Some(node3), hc2)
            } else {
                proof {
                    assert(balance_in_range(Some(node2)));
                }
                (Some(node2), 0)
            }
        }
    } else {
        proof {
            assert(keys(root) =~= keys(root).remove(val));
        }
        (None, 0)
    }
}

/// Recursive search using the ordering invariant; never mutates.
pub fn find(root: &Option<Box<Node>>, val: i64) -> (r: bool)
    requires
        bst(*root),
    ensures
        r == keys(*root).contains(val),
    decreases height(*root),
{
    if let Some(node) = root {
        if node.val == val {
            true
        } else if node.val < val {
            proof {
                if keys(node.left).contains(val) {
                    assert(val < node.val);
                }
            }
            find(&node.right, val)
        } else {
            proof {
                if keys(node.right).contains(val) {
                    assert(val > node.val);
                }
            }
            find(&node.left, val)
        }
    } else {
        false
    }
}

/// The keys of a subtree, in ascending (in-order) sequence when the
/// subtree is ordered.
pub open spec fn inorder(t: Option<Box<Node>>) -> Seq<i64>
    decreases t,
{
    match t {
        None => Seq::empty(),
        Some(n) => inorder(n.left) + seq![n.val] + inorder(n.right),
    }
}

/// Every element of the sequence is strictly smaller than its successors.
pub open spec fn strictly_ascending(s: Seq<i64>) -> bool {
    forall|i: int, j: int| 0 <= i < j < s.len() ==> s[i] < s[j]
}

/// Membership in a concatenation is membership in either part.
proof fn lemma_concat_contains(a: Seq<i64>, b: Seq<i64>, x: i64)
    ensures
        (a + b).contains(x) <==> a.contains(x) || b.contains(x),
{
    if a.contains(x) {
        let i = choose|i: int| 0 <= i < a.len() && a[i] == x;
        assert((a + b)[i] == x);
    }
    if b.contains(x) {
        let i = choose|i: int| 0 <= i < b.len() && b[i] == x;
        assert((a + b)[a.len() + i] == x);
    }
    if (a + b).contains(x) {
        let i = choose|i: int| 0 <= i < (a + b).len() && (a + b)[i] == x;
        if i < a.len() {
            assert(a[i] == x);
        } else {
            assert(b[i - a.len()] == x);
        }
    }
}

/// The in-order sequence of an ordered subtree is strictly ascending and
/// enumerates each stored key exactly once.
pub proof fn lemma_inorder_of_bst(t: Option<Box<Node>>)
    requires
        bst(t),
    ensures
        strictly_ascending(inorder(t)),
        inorder(t).to_set() == keys(t),
        keys(t).finite(),
        inorder(t).len() == keys(t).len(),
    decreases t,
{
    broadcast use vstd::seq_lib::seq_to_set_is_finite;

    match t {
        None => {
            assert(inorder(t).to_set() =~= keys(t));
        },
        Some(n) => {
            lemma_inorder_of_bst(n.left);
            lemma_inorder_of_bst(n.right);
            let a = inorder(n.left);
            let m = seq![n.val];
            let b = inorder(n.right);
            let s = inorder(t);
            assert(s == a + m + b);
            assert forall|x: i64| s.contains(x) <==> keys(t).contains(x) by {
                lemma_concat_contains(a + m, b, x);
                lemma_concat_contains(a, m, x);
                if x == n.val {
                    assert(m[0] == x);
                }
                assert(m.contains(x) <==> x == n.val);
                assert(a.contains(x) <==> keys(n.left).contains(x));
                assert(b.contains(x) <==> keys(n.right).contains(x));
            }
            assert(s.to_set() =~= keys(t));
            assert forall|i: int, j: int| 0 <= i < j < s.len() implies s[i] < s[j] by {
                if j < a.len() {
                } else if i < a.len() && j == a.len() {
                    assert(a.contains(a[i]));
                    assert(keys(n.left).contains(s[i]));
                } else if i < a.len() {
                    assert(a.contains(a[i]));
                    assert(b.contains(b[j - a.len() - 1]));
                    assert(keys(n.left).contains(s[i]));
                    assert(keys(n.right).contains(s[j]));
                } else if i == a.len() {
                    assert(b.contains(b[j - a.len() - 1]));
                    assert(keys(n.right).contains(s[j]));
                } else {
                    assert(b[i - a.len() - 1] < b[j - a.len() - 1]);
                }
            }
            assert(s.no_duplicates()) by {
                assert forall|i: int, j: int|
                    0 <= i < s.len() && 0 <= j < s.len() && i != j implies s[i] != s[j] by {
                    if i < j {
                        assert(s[i] < s[j]);
                    } else {
                        assert(s[j] < s[i]);
                    }
                }
            }
            s.unique_seq_to_set();
        },
    }
}

/// An owned balanced search tree: an optional root node and the tree's
/// aggregate height, maintained from the height changes the recursive
/// engines report.
pub struct BinaryTree {
    head: Option<Box<Node>>,
    depth: usize,
}

impl BinaryTree {
    /// The set of keys currently stored.
    pub closed spec fn view(self) -> Set<i64> {
        keys(self.head)
    }

    /// The keys in ascending order.
    pub closed spec fn inorder_spec(self) -> Seq<i64> {
        inorder(self.head)
    }

    /// The ordering invariant and the balance-indicator range: kept by
    /// every operation.
    pub closed spec fn ordered(self) -> bool {
        bst(self.head) && balance_in_range(self.head)
    }

    /// Full well-formedness: ordered, with every balance indicator equal
    /// to the true subtree height difference, and the aggregate height
    /// counter exact.  Established by `new`, kept by `add`; a `remove`
    /// that splices an interior node may leave indicators above the
    /// splice point out of step with the true heights.
    pub closed spec fn well_formed(self) -> bool {
        self.ordered() && balance_accurate(self.head) && self.depth == height(self.head)
    }

    /// The true height of the tree (the stored counter when well formed).
    pub closed spec fn depth_spec(self) -> nat {
        height(self.head)
    }

    /// Every node's subtree heights differ by at most one.
    pub closed spec fn balanced(self) -> bool {
        avl_balanced(self.head)
    }

    /// Removing this key will not splice a two-children node: its search
    /// path either misses or ends at a node with at most one child.
    pub closed spec fn removal_splice_free(self, val: i64) -> bool {
        splice_free(self.head, val)
    }

    pub fn new() -> (tree: Self)
        ensures
            tree.well_formed(),
            tree.ordered(),
            tree@ == Set::<i64>::empty(),
            tree.depth_spec() == 0,
    {
        proof {
            assert(keys::<>(None) =~= Set::<i64>::empty());
        }
        Self { head: None, depth: 0 }
    }

    /// Inserts a key; inserting a key already present leaves the tree
    /// unchanged.
    pub fn add(&mut self, val: i64)
        requires
            old(self).well_formed(),
            old(self).depth_spec() < usize::MAX,
        ensures
            final(self).well_formed(),
            final(self).ordered(),
            final(self)@ == old(self)@.insert(val),
            old(self)@.contains(val) ==> *final(self) == *old(self),
            old(self).depth_spec() <= final(self).depth_spec() <= old(self).depth_spec() + 1,
    {
        let (new_head, added_depth) = add_helper(self.head.take(), val);
        self.head = new_head;
        self.depth = self.depth + added_depth as usize;
    }

    /// Removes a key; removing an absent key leaves the tree unchanged.
    /// The result stays ordered with all balance indicators in range, and
    /// stays fully well formed whenever the removal splices no
    /// two-children node; a splice may leave indicators above it out of
    /// step with the true heights.  Since `add` and `depth` require full
    /// well-formedness, a verified caller can chain them after a removal
    /// only when that removal was splice-free (an absent key always is).
    pub fn remove(&mut self, val: i64)
        requires
            old(self).well_formed(),
        ensures
            final(self).ordered(),
            final(self)@ == old(self)@.remove(val),
            !old(self)@.contains(val) ==> *final(self) == *old(self),
            old(self).depth_spec() - 1 <= final(self).depth_spec() <= old(self).depth_spec(),
            old(self).removal_splice_free(val) ==> final(self).well_formed(),
            old(self).removal_splice_free(val) ==> final(self).ordered(),
    {
        let (new_head, removed_depth) = remove_helper(self.head.take(), val);
        self.head = new_head;
        self.depth = self.depth - removed_depth as usize;
    }

    /// Whether the key is stored; never mutates.
    pub fn contains(&self, val: i64) -> (r: bool)
        requires
            self.ordered(),
        ensures
            r == self@.contains(val),
    {
        find(&self.head, val)
    }

    /// An ascending iterator over the keys, independent of the tree.
    pub fn iter<'a>(&'a self) -> (it: TreeIterator<'a>)
        requires
            self.ordered(),
        ensures
            it.wf(),
            it.remaining() == self.inorder_spec(),
    {
        TreeIterator::new(self)
    }

    /// The tree's height: 0 when empty, 1 for a single node.
    pub fn depth(&self) -> (r: usize)
        requires
            self.well_formed(),
        ensures
            r == self.depth_spec(),
    {
        self.depth
    }
}

/// Balance invariant: in a well-formed tree (as `new` yields and `add`
/// keeps), the heights of every node's subtrees differ by at most one.
pub proof fn lemma_tree_balance_invariant(tree: BinaryTree)
    requires
        tree.well_formed(),
    ensures
        tree.balanced(),
{
    lemma_balance_invariant(tree.head);
}

/// A tree has height zero exactly when it stores no keys.
pub proof fn lemma_depth_zero_iff_empty(tree: BinaryTree)
    ensures
        tree.depth_spec() == 0 <==> tree@ == Set::<i64>::empty(),
{
    match tree.head {
        None => {
            assert(tree@ =~= Set::<i64>::empty());
        },
        Some(n) => {
            assert(tree@.contains(n.val));
            assert(tree.depth_spec() > 0);
        },
    }
}

/// Round trip: iterating an ordered tree yields its keys in strictly
/// ascending order, and the number of iterated items equals the number
/// of distinct stored keys.
pub proof fn lemma_round_trip(tree: BinaryTree)
    requires
        tree.ordered(),
    ensures
        strictly_ascending(tree.inorder_spec()),
        tree.inorder_spec().to_set() == tree@,
        tree@.finite(),
        tree.inorder_spec().len() == tree@.len(),
{
    lemma_inorder_of_bst(tree.head);
}

/// Delete then search: after removing a key it is no longer contained,
/// and every other key is contained exactly as before.
pub proof fn lemma_delete_then_search(s: Set<i64>, k: i64)
    ensures
        !s.remove(k).contains(k),
        forall|j: i64| j != k ==> (s.remove(k).contains(j) <==> s.contains(j)),
{
}

/// The items of the iterator stack, from top of stack down, each node
/// contributing its key followed by its right subtree's keys in order.
spec fn stack_seq(s: Seq<&Node>) -> Seq<i64>
    decreases s.len(),
{
    if s.len() == 0 {
        Seq::empty()
    } else {
        (seq![s.last().val] + inorder(s.last().right)) + stack_seq(s.drop_last())
    }
}

/// Lazy in-order iterator: an explicit stack holding the path of
/// left-spine ancestors still to be yielded.
pub struct TreeIterator<'a> {
    stack: Vec<&'a Node>,
}

impl<'a> TreeIterator<'a> {
    /// The keys not yet yielded, in the order they will be yielded.
    pub closed spec fn remaining(self) -> Seq<i64> {
        stack_seq(self.stack@)
    }

    /// The keys still to come are strictly ascending.
    pub closed spec fn wf(self) -> bool {
        strictly_ascending(self.remaining())
    }

    fn new(tree: &'a BinaryTree) -> (it: Self)
        requires
            tree.ordered(),
        ensures
            it.wf(),
            it.remaining() == tree.inorder_spec(),
    {
        let mut stack: Vec<&'a Node> = Vec::new();
        let mut cur: &'a Option<Box<Node>> = &tree.head;
        proof {
            lemma_inorder_of_bst(tree.head);
            assert(inorder(*cur) + stack_seq(stack@) =~= inorder(tree.head));
        }
        while cur.is_some()
            invariant
                inorder(*cur) + stack_seq(stack@) == inorder(tree.head),
            decreases height(*cur),
        {
            let node: &'a Box<Node> = match cur {
                Some(n) => n,
                None => unreached(),
            };
            let ghost old_stack = stack@;
            stack.push(&**node);
            proof {
                assert(stack@.drop_last() == old_stack);
                assert(stack@.last() == &**node);
                assert(stack_seq(stack@) == (seq![node.val] + inorder(node.right)) + stack_seq(
                    old_stack,
                ));
                assert(inorder(node.left) + stack_seq(stack@) =~= inorder(*cur) + stack_seq(
                    old_stack,
                ));
            }
            cur = &node.left;
        }
        Self { stack }
    }

    /// Yields the next key in ascending order, or `None` when exhausted.
    pub fn next(&mut self) -> (r: Option<i64>)
        requires
            old(self).wf(),
        ensures
            final(self).wf(),
            old(self).remaining().len() == 0 ==> r is None && final(self).remaining() == old(
                self,
            ).remaining(),
            old(self).remaining().len() > 0 ==> r == Some(old(self).remaining()[0])
                && final(self).remaining() == old(self).remaining().drop_first(),
    {
        let ghost old_remaining = old(self).remaining();
        let release = self.stack.pop();
        if let Some(node) = release {
            proof {
                assert(old(self).stack@.last() == node);
                assert(self.stack@ == old(self).stack@.drop_last());
                assert(old_remaining == (seq![node.val] + inorder(node.right)) + stack_seq(
                    self.stack@,
                ));
                assert(old_remaining[0] == node.val);
                assert(inorder(node.right) + stack_seq(self.stack@) =~= old_remaining.drop_first());
            }
            let mut cur: &'a Option<Box<Node>> = &node.right;
            while cur.is_some()
                invariant
                    inorder(*cur) + stack_seq(self.stack@) == old_remaining.drop_first(),
                decreases height(*cur),
            {
                let spine: &'a Box<Node> = match cur {
                    Some(n) => n,
                    None => unreached(),
                };
                let ghost old_stack = self.stack@;
                self.stack.push(&**spine);
                proof {
                    assert(self.stack@.drop_last() == old_stack);
                    assert(self.stack@.last() == &**spine);
                    assert(stack_seq(self.stack@) == (seq![spine.val] + inorder(spine.right))
                        + stack_seq(old_stack));
                    assert(inorder(spine.left) + stack_seq(self.stack@) =~= inorder(*cur)
                        + stack_seq(old_stack));
                }
                cur = &spine.left;
            }
            proof {
                assert(final(self).remaining() =~= old_remaining.drop_first());
                assert forall|i: int, j: int|
                    0 <= i < j < old_remaining.drop_first().len() implies old_remaining.drop_first()[i]
                    < old_remaining.drop_first()[j] by {
                    assert(old_remaining[i + 1] < old_remaining[j + 1]);
                }
            }
            Some(node.val)
        } else {
            proof {
                assert(self.stack@ == old(self).stack@);
                assert(old(self).stack@.len() == 0);
                assert(old_remaining.len() == 0);
            }
            None
        }
    }
}

} // verus!
