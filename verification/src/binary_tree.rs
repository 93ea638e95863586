//! An order-`n` search tree (a B-tree): every node stores up to
//! `order - 1` sorted keys with their values and `keys + 1` children, and
//! an insertion that fills a node splits it at the median, pushing the
//! median up to the parent.
//!
//! The tree is modeled by its set of keys together with the relation
//! `stores` over key-value pairs.  Insertion of a present key replaces
//! the stored value; the contracts state that the key set grows by
//! exactly the inserted key, that the inserted pair is stored afterwards
//! while every other stored pair is kept, and that node arity, per-node
//! ordering, the separation of children by their parent's keys, and the
//! uniform depth of all leaves are preserved.

use vstd::prelude::*;
use vstd::pervasive::unreached;
use crate::avl_tree::strictly_ascending;

verus! {

pub struct Node<V> {
    pub order: usize,
    pub keys: Vec<i64>,
    pub values: Vec<V>,
    pub children: Vec<Option<Box<Node<V>>>>,
    pub is_leaf: bool,
}

pub struct BTree<V> {
    pub root: Option<Box<Node<V>>>,
    pub order: usize,
}

/// The set of keys stored in a subtree.
pub open spec fn subtree_keys<V>(t: Option<Box<Node<V>>>) -> Set<i64>
    decreases t,
{
    match t {
        None => Set::empty(),
        Some(n) => n.keys@.to_set().union(children_keys(n.children@)),
    }
}

/// The set of keys stored under any of the given children.
pub open spec fn children_keys<V>(cs: Seq<Option<Box<Node<V>>>>) -> Set<i64>
    decreases cs,
{
    if cs.len() == 0 {
        Set::empty()
    } else {
        children_keys(cs.drop_last()).union(subtree_keys(cs.last()))
    }
}

/// A key found under child `i` lies strictly between the node keys that
/// surround that child.
pub open spec fn child_key_in_range(keys: Seq<i64>, i: int, k: i64) -> bool {
    &&& i < keys.len() ==> k < keys[i]
    &&& i > 0 ==> k > keys[i - 1]
}

/// The shape of one node: parallel key/value arrays with one more child
/// slot than keys, sorted keys, child slots filled exactly on interior
/// nodes, well-formed children, and children separated by the keys.
pub open spec fn node_shape<V>(n: Node<V>, order: int) -> bool
    decreases n,
{
    &&& n.order == order
    &&& 2 <= order
    &&& n.values@.len() == n.keys@.len()
    &&& n.children@.len() == n.keys@.len() + 1
    &&& strictly_ascending(n.keys@)
    &&& (forall|i: int| 0 <= i < n.children@.len() ==> (#[trigger] n.children@[i] is Some <==> !n.is_leaf))
    &&& children_wf(n.children@, order)
    &&& (forall|i: int, k: i64|
        0 <= i < n.children@.len() && #[trigger] subtree_keys(n.children@[i]).contains(k)
            ==> child_key_in_range(n.keys@, i, k))
}

/// Full well-formedness of a subtree: its root node is shaped and has
/// room left (fewer than `order` keys), recursively.
pub open spec fn node_wf<V>(t: Option<Box<Node<V>>>, order: int) -> bool
    decreases t,
{
    match t {
        None => true,
        Some(n) => node_shape(*n, order) && n.keys@.len() < order,
    }
}

/// All children in the sequence are well-formed subtrees.
pub open spec fn children_wf<V>(cs: Seq<Option<Box<Node<V>>>>, order: int) -> bool
    decreases cs,
{
    if cs.len() == 0 {
        true
    } else {
        children_wf(cs.drop_last(), order) && node_wf(cs.last(), order)
    }
}

/// Every leaf of the subtree lies exactly `d` node levels down: an empty
/// subtree has depth 0, and every child of a node at depth `d` has
/// uniform depth `d - 1`.
pub open spec fn uniform_depth<V>(t: Option<Box<Node<V>>>, d: int) -> bool
    decreases t,
{
    match t {
        None => d == 0,
        Some(n) => d >= 1 && children_uniform(n.children@, d - 1),
    }
}

/// All children in the sequence have uniform depth `d`.
pub open spec fn children_uniform<V>(cs: Seq<Option<Box<Node<V>>>>, d: int) -> bool
    decreases cs,
{
    if cs.len() == 0 {
        true
    } else {
        children_uniform(cs.drop_last(), d) && uniform_depth(cs.last(), d)
    }
}

/// Uniform depth of each child in the sequence, index form.
proof fn lemma_children_uniform_index<V>(cs: Seq<Option<Box<Node<V>>>>, d: int, i: int)
    requires
        children_uniform(cs, d),
        0 <= i < cs.len(),
    ensures
        uniform_depth(cs[i], d),
    decreases cs,
{
    if i == cs.len() - 1 {
        assert(cs.last() == cs[i]);
    } else {
        lemma_children_uniform_index(cs.drop_last(), d, i);
        assert(cs.drop_last()[i] == cs[i]);
    }
}

/// Rebuilds `children_uniform` from per-index uniform depth.
proof fn lemma_children_uniform_intro<V>(cs: Seq<Option<Box<Node<V>>>>, d: int)
    requires
        forall|i: int| 0 <= i < cs.len() ==> uniform_depth(#[trigger] cs[i], d),
    ensures
        children_uniform(cs, d),
    decreases cs,
{
    if cs.len() > 0 {
        assert forall|i: int| 0 <= i < cs.drop_last().len() implies uniform_depth(
            #[trigger] cs.drop_last()[i],
            d,
        ) by {
            assert(cs.drop_last()[i] == cs[i]);
        }
        lemma_children_uniform_intro(cs.drop_last(), d);
        assert(cs.last() == cs[cs.len() - 1]);
    }
}

/// The pair `(k, v)` is stored in the subtree: some node on it holds
/// key `k` with value `v` at the same position.
pub open spec fn stores<V>(t: Option<Box<Node<V>>>, k: i64, v: V) -> bool
    decreases t,
{
    match t {
        None => false,
        Some(n) => (exists|j: int|
            0 <= j < n.keys@.len() && n.keys@[j] == k && n.values@[j] == v) || children_stores(
            n.children@,
            k,
            v,
        ),
    }
}

/// The pair `(k, v)` is stored under one of the given children.
pub open spec fn children_stores<V>(cs: Seq<Option<Box<Node<V>>>>, k: i64, v: V) -> bool
    decreases cs,
{
    if cs.len() == 0 {
        false
    } else {
        children_stores(cs.drop_last(), k, v) || stores(cs.last(), k, v)
    }
}

/// A pair lies under some child exactly when it lies under one of them.
proof fn lemma_children_stores_index<V>(cs: Seq<Option<Box<Node<V>>>>, k: i64, v: V)
    ensures
        children_stores(cs, k, v) <==> exists|i: int|
            0 <= i < cs.len() && #[trigger] stores(cs[i], k, v),
    decreases cs,
{
    if cs.len() > 0 {
        lemma_children_stores_index(cs.drop_last(), k, v);
        assert(cs.last() == cs[cs.len() - 1]);
        if stores(cs.last(), k, v) {
            assert(stores(cs[cs.len() - 1], k, v));
        }
        if children_stores(cs.drop_last(), k, v) {
            let i = choose|i: int|
                0 <= i < cs.drop_last().len() && #[trigger] stores(cs.drop_last()[i], k, v);
            assert(cs.drop_last()[i] == cs[i]);
            assert(stores(cs[i], k, v));
        }
        if exists|i: int| 0 <= i < cs.len() && #[trigger] stores(cs[i], k, v) {
            let i = choose|i: int| 0 <= i < cs.len() && #[trigger] stores(cs[i], k, v);
            if i < cs.len() - 1 {
                assert(cs.drop_last()[i] == cs[i]);
                assert(stores(cs.drop_last()[i], k, v));
            }
        }
    }
}

/// A stored pair's key is one of the subtree's keys.
proof fn lemma_stores_in_keys<V>(t: Option<Box<Node<V>>>, k: i64, v: V)
    requires
        stores(t, k, v),
    ensures
        subtree_keys(t).contains(k),
    decreases t,
{
    match t {
        None => {},
        Some(n) => {
            if exists|j: int| 0 <= j < n.keys@.len() && n.keys@[j] == k && n.values@[j] == v {
                let j = choose|j: int|
                    0 <= j < n.keys@.len() && n.keys@[j] == k && n.values@[j] == v;
                assert(n.keys@.to_set().contains(k));
            } else {
                lemma_children_stores_index(n.children@, k, v);
                let i = choose|i: int|
                    0 <= i < n.children@.len() && #[trigger] stores(n.children@[i], k, v);
                lemma_stores_in_keys(n.children@[i], k, v);
                lemma_children_keys_index(n.children@, k);
            }
        },
    }
}

/// The pair lies in the node or sibling that an insertion hands back, or
/// is exactly the median entry handed up.
pub open spec fn in_add_result<V>(
    r: (Box<Node<V>>, Option<(Box<Node<V>>, (i64, V))>),
    k: i64,
    v: V,
) -> bool {
    stores(Some(r.0), k, v) || (r.1 matches Some(s) && ((k, v) == s.1 || stores(Some(s.0), k, v)))
}

/// A well-formed subtree has at most one uniform depth.
proof fn lemma_uniform_depth_unique<V>(t: Option<Box<Node<V>>>, order: int, a: int, b: int)
    requires
        node_wf(t, order),
        uniform_depth(t, a),
        uniform_depth(t, b),
    ensures
        a == b,
    decreases t,
{
    match t {
        None => {},
        Some(n) => {
            lemma_children_wf_index(n.children@, order, 0);
            lemma_children_uniform_index(n.children@, a - 1, 0);
            lemma_children_uniform_index(n.children@, b - 1, 0);
            lemma_uniform_depth_unique(n.children@[0], order, a - 1, b - 1);
        },
    }
}

/// A key lies under some child exactly when it lies under one of them.
proof fn lemma_children_keys_index<V>(cs: Seq<Option<Box<Node<V>>>>, k: i64)
    ensures
        children_keys(cs).contains(k) <==> exists|i: int|
            0 <= i < cs.len() && #[trigger] subtree_keys(cs[i]).contains(k),
    decreases cs,
{
    if cs.len() > 0 {
        lemma_children_keys_index(cs.drop_last(), k);
        assert(cs.last() == cs[cs.len() - 1]);
        if subtree_keys(cs.last()).contains(k) {
            assert(subtree_keys(cs[cs.len() - 1]).contains(k));
        }
        if children_keys(cs.drop_last()).contains(k) {
            let i = choose|i: int|
                0 <= i < cs.drop_last().len() && #[trigger] subtree_keys(
                    cs.drop_last()[i],
                ).contains(k);
            assert(cs.drop_last()[i] == cs[i]);
            assert(subtree_keys(cs[i]).contains(k));
        }
        if exists|i: int| 0 <= i < cs.len() && #[trigger] subtree_keys(cs[i]).contains(k) {
            let i = choose|i: int| 0 <= i < cs.len() && #[trigger] subtree_keys(cs[i]).contains(k);
            if i < cs.len() - 1 {
                assert(cs.drop_last()[i] == cs[i]);
                assert(subtree_keys(cs.drop_last()[i]).contains(k));
            }
        }
    }
}

/// Well-formedness of each child in the sequence, index form.
proof fn lemma_children_wf_index<V>(cs: Seq<Option<Box<Node<V>>>>, order: int, i: int)
    requires
        children_wf(cs, order),
        0 <= i < cs.len(),
    ensures
        node_wf(cs[i], order),
    decreases cs,
{
    if i == cs.len() - 1 {
        assert(cs.last() == cs[i]);
    } else {
        lemma_children_wf_index(cs.drop_last(), order, i);
        assert(cs.drop_last()[i] == cs[i]);
    }
}

/// Rebuilds `children_wf` from per-index well-formedness.
proof fn lemma_children_wf_intro<V>(cs: Seq<Option<Box<Node<V>>>>, order: int)
    requires
        forall|i: int| 0 <= i < cs.len() ==> node_wf(#[trigger] cs[i], order),
    ensures
        children_wf(cs, order),
    decreases cs,
{
    if cs.len() > 0 {
        assert forall|i: int| 0 <= i < cs.drop_last().len() implies node_wf(
            #[trigger] cs.drop_last()[i],
            order,
        ) by {
            assert(cs.drop_last()[i] == cs[i]);
        }
        lemma_children_wf_intro(cs.drop_last(), order);
        assert(cs.last() == cs[cs.len() - 1]);
    }
}

impl<V> Node<V> {
    pub fn new(order: usize, is_leaf: bool) -> (r: Self)
        requires
            order >= 2,
            order < usize::MAX,
        ensures
            r.order == order,
            r.is_leaf == is_leaf,
            r.keys@ == Seq::<i64>::empty(),
            r.values@ == Seq::<V>::empty(),
            r.children@ == Seq::<Option<Box<Node<V>>>>::empty(),
    {
        Self {
            order,
            keys: Vec::with_capacity(order),
            values: Vec::with_capacity(order),
            children: Vec::with_capacity(order + 1),
            is_leaf,
        }
    }

    /// Places one entry (and, on interior nodes, the child that follows
    /// it) into this node at its sorted position; an entry whose key is
    /// already present only replaces the stored value.  When the node
    /// reaches `order` keys it splits, handing back the new right sibling
    /// together with the median entry the caller must adopt.
    pub fn add(node: Box<Node<V>>, set: (i64, V), new_child: Option<Box<Node<V>>>) -> (r: (
        Box<Node<V>>,
        Option<(Box<Node<V>>, (i64, V))>,
    ))
        requires
            node_shape(*node, node.order as int),
            node.keys@.len() < node.order,
            node_wf(new_child, node.order as int),
            node.is_leaf ==> new_child is None,
            !node.is_leaf && !node.keys@.to_set().contains(set.0) ==> new_child is Some,
            forall|k: i64| subtree_keys(new_child).contains(k) ==> k > set.0,
            forall|k: i64, j: int|
                #[trigger] subtree_keys(new_child).contains(k) && 0 <= j < node.keys@.len()
                    && set.0 < #[trigger] node.keys@[j] ==> k < node.keys@[j],
            forall|i: int, k: i64|
                0 <= i < node.children@.len() && #[trigger] subtree_keys(
                    node.children@[i],
                ).contains(k) && (i == 0 || node.keys@[i - 1] < set.0) && (i == node.keys@.len()
                    || set.0 <= node.keys@[i]) ==> k < set.0,
            forall|d: int|
                uniform_depth(Some(node), d) && !node.keys@.to_set().contains(set.0)
                    ==> uniform_depth(new_child, d - 1),
        ensures
            r.0.order == node.order,
            node_wf(Some(r.0), node.order as int),
            node.keys@.to_set().contains(set.0) ==> r.1 is None && subtree_keys(Some(r.0))
                == subtree_keys(Some(node)),
            !node.keys@.to_set().contains(set.0) ==> match r.1 {
                None => subtree_keys(Some(r.0)) == subtree_keys(Some(node)).union(
                    subtree_keys(new_child),
                ).insert(set.0),
                Some((sib, med)) => {
                    &&& node_wf(Some(sib), node.order as int)
                    &&& sib.order == node.order
                    &&& subtree_keys(Some(r.0)).union(subtree_keys(Some(sib))).insert(med.0)
                        == subtree_keys(Some(node)).union(subtree_keys(new_child)).insert(set.0)
                    &&& (forall|k: i64| subtree_keys(Some(r.0)).contains(k) ==> k < med.0)
                    &&& (forall|k: i64| subtree_keys(Some(sib)).contains(k) ==> k > med.0)
                },
            },
            forall|d: int|
                uniform_depth(Some(node), d) <==> uniform_depth(Some(r.0), d) && (r.1 matches Some(
                    s,
                ) ==> uniform_depth(Some(s.0), d)),
            in_add_result(r, set.0, set.1),
            forall|k: i64, v: V|
                k != set.0 && #[trigger] stores(Some(node), k, v) ==> in_add_result(r, k, v),
            !node.keys@.to_set().contains(set.0) ==> forall|k: i64, v: V|
                #[trigger] stores(new_child, k, v) ==> in_add_result(r, k, v),
            forall|k: i64, v: V|
                #[trigger] in_add_result(r, k, v) ==> stores(Some(node), k, v) || (k, v) == set
                    || stores(new_child, k, v),
    {
        let ghost g_all = subtree_keys(Some(node)).union(subtree_keys(new_child)).insert(set.0);
        let node2 = Node::<V>::add_key_value_child(node, set, new_child);
        if node2.keys.len() == node2.order {
            let (left, med, sib) = split_node(node2);
            proof {
                assert(subtree_keys(Some(left)).union(subtree_keys(Some(sib))).insert(med.0)
                    =~= g_all);
                assert forall|k: i64, v: V| #[trigger] stores(Some(node2), k, v) implies
                    in_add_result((left, Some((sib, med))), k, v) by {}
                assert forall|k: i64, v: V|
                    #[trigger] in_add_result((left, Some((sib, med))), k, v) implies stores(
                    Some(node2),
                    k,
                    v,
                ) by {}
            }
            (left, Some((sib, med)))
        } else {
            (node2, None)
        }
    }

    /// Inserts one entry (and the child that follows it) at its sorted
    /// position, or replaces the value of an entry already present; the
    /// node may end up holding `order` keys, which the caller must
    /// resolve by splitting.
    #[verifier::rlimit(100)]
    pub fn add_key_value_child(node: Box<Node<V>>, set: (i64, V), new_child: Option<
        Box<Node<V>>,
    >) -> (r: Box<Node<V>>)
        requires
            node_shape(*node, node.order as int),
            node.keys@.len() < node.order,
            node_wf(new_child, node.order as int),
            node.is_leaf ==> new_child is None,
            !node.is_leaf && !node.keys@.to_set().contains(set.0) ==> new_child is Some,
            forall|k: i64| subtree_keys(new_child).contains(k) ==> k > set.0,
            forall|k: i64, j: int|
                #[trigger] subtree_keys(new_child).contains(k) && 0 <= j < node.keys@.len()
                    && set.0 < #[trigger] node.keys@[j] ==> k < node.keys@[j],
            forall|i: int, k: i64|
                0 <= i < node.children@.len() && #[trigger] subtree_keys(
                    node.children@[i],
                ).contains(k) && (i == 0 || node.keys@[i - 1] < set.0) && (i == node.keys@.len()
                    || set.0 <= node.keys@[i]) ==> k < set.0,
            forall|d: int|
                uniform_depth(Some(node), d) && !node.keys@.to_set().contains(set.0)
                    ==> uniform_depth(new_child, d - 1),
        ensures
            r.order == node.order,
            r.is_leaf == node.is_leaf,
            node_shape(*r, node.order as int),
            node.keys@.to_set().contains(set.0) ==> r.keys@ == node.keys@ && subtree_keys(Some(r))
                == subtree_keys(Some(node)),
            !node.keys@.to_set().contains(set.0) ==> r.keys@.len() == node.keys@.len() + 1
                && subtree_keys(Some(r)) == subtree_keys(Some(node)).union(
                subtree_keys(new_child),
            ).insert(set.0),
            forall|d: int| uniform_depth(Some(node), d) <==> uniform_depth(Some(r), d),
            stores(Some(r), set.0, set.1),
            forall|k: i64, v: V|
                k != set.0 && #[trigger] stores(Some(node), k, v) ==> stores(Some(r), k, v),
            !node.keys@.to_set().contains(set.0) ==> forall|k: i64, v: V|
                #[trigger] stores(new_child, k, v) ==> stores(Some(r), k, v),
            forall|k: i64, v: V|
                #[trigger] stores(Some(r), k, v) ==> stores(Some(node), k, v) || (k, v) == set
                    || stores(new_child, k, v),
    {
        let pos = node.find_key_val_pos(set.0);
        let ghost order = node.order as int;
        let ghost g_keys = node.keys@;
        let ghost g_children = node.children@;
        let Node { order: ord, keys, values, children, is_leaf } = *node;
        let mut keys = keys;
        let mut values = values;
        let mut children = children;
        if pos < keys.len() && keys[pos] == set.0 {
            values.set(pos, set.1);
            let r0 = Box::new(Node { order: ord, keys, values, children, is_leaf });
            proof {
                assert(g_keys.to_set().contains(set.0));
                assert(node_shape(*r0, order));
                assert(subtree_keys(Some(r0)) == subtree_keys(Some(node)));
                assert forall|d: int|
                    uniform_depth(Some(node), d) <==> uniform_depth(Some(r0), d) by {}
                assert(r0.keys@[pos as int] == set.0 && r0.values@[pos as int] == set.1);
                assert(stores(Some(r0), set.0, set.1));
                assert forall|k: i64, v: V|
                    k != set.0 && #[trigger] stores(Some(node), k, v) implies stores(
                    Some(r0),
                    k,
                    v,
                ) by {
                    if exists|j: int|
                        0 <= j < node.keys@.len() && node.keys@[j] == k && node.values@[j] == v {
                        let j = choose|j: int|
                            0 <= j < node.keys@.len() && node.keys@[j] == k && node.values@[j]
                                == v;
                        assert(j != pos as int);
                        assert(r0.keys@[j] == k && r0.values@[j] == v);
                    }
                }
                assert forall|k: i64, v: V| #[trigger] stores(Some(r0), k, v) implies stores(
                    Some(node),
                    k,
                    v,
                ) || (k, v) == set by {
                    if exists|j: int|
                        0 <= j < r0.keys@.len() && r0.keys@[j] == k && r0.values@[j] == v {
                        let j = choose|j: int|
                            0 <= j < r0.keys@.len() && r0.keys@[j] == k && r0.values@[j] == v;
                        if j != pos as int {
                            assert(node.keys@[j] == k && node.values@[j] == v);
                        }
                    }
                }
            }
            r0
        } else {
            proof {
                assert(!g_keys.to_set().contains(set.0)) by {
                    if g_keys.to_set().contains(set.0) {
                        let j = choose|j: int| 0 <= j < g_keys.len() && g_keys[j] == set.0;
                        if j < pos {
                            assert(g_keys[j] < set.0);
                        } else {
                            assert(set.0 <= g_keys[pos as int]);
                            assert(g_keys[pos as int] <= g_keys[j]);
                        }
                    }
                }
            }
            keys.insert(pos, set.0);
            values.insert(pos, set.1);
            children.insert(pos + 1, new_child);
            let node2 = Box::new(Node { order: ord, keys, values, children, is_leaf });
            proof {
                let p = pos as int;
                let keys2 = node2.keys@;
                let children2 = node2.children@;
                assert(keys2 == g_keys.insert(p, set.0));
                assert(children2 == g_children.insert(p + 1, new_child));
                assert forall|j: int| 0 <= j < keys2.len() implies #[trigger] keys2[j] == (if j < p {
                    g_keys[j]
                } else if j == p {
                    set.0
                } else {
                    g_keys[j - 1]
                }) by {}
                assert forall|i: int| 0 <= i < children2.len() implies #[trigger] children2[i] == (
                if i <= p {
                    g_children[i]
                } else if i == p + 1 {
                    new_child
                } else {
                    g_children[i - 1]
                }) by {}
                assert(strictly_ascending(keys2)) by {
                    assert forall|a: int, b: int| 0 <= a < b < keys2.len() implies keys2[a]
                        < keys2[b] by {
                        if p < keys2.len() - 1 && b == p {
                        }
                    }
                }
                assert forall|i: int| 0 <= i < children2.len() implies (#[trigger] children2[i]
                    is Some <==> !is_leaf) by {}
                assert forall|i: int| 0 <= i < children2.len() implies node_wf(
                    #[trigger] children2[i],
                    order,
                ) by {
                    if i <= p {
                        lemma_children_wf_index(g_children, order, i);
                    } else if i > p + 1 {
                        lemma_children_wf_index(g_children, order, i - 1);
                    }
                }
                lemma_children_wf_intro(children2, order);
                assert forall|i: int, k: i64|
                    0 <= i < children2.len() && #[trigger] subtree_keys(children2[i]).contains(
                        k,
                    ) implies child_key_in_range(keys2, i, k) by {
                    if i <= p {
                        assert(child_key_in_range(g_keys, i, k));
                        if i == p {
                            assert(k < set.0);
                        }
                    } else if i == p + 1 {
                        assert(k > set.0);
                        if i < keys2.len() {
                            assert(set.0 < g_keys[p]);
                            assert(k < g_keys[p]);
                        }
                    } else {
                        assert(child_key_in_range(g_keys, i - 1, k));
                    }
                }
                assert(node_shape(*node2, order));
                let values2 = node2.values@;
                assert(values2 == node.values@.insert(p, set.1));
                assert forall|j: int| 0 <= j < values2.len() implies #[trigger] values2[j] == (
                if j < p {
                    node.values@[j]
                } else if j == p {
                    set.1
                } else {
                    node.values@[j - 1]
                }) by {}
                assert(stores(Some(node2), set.0, set.1)) by {
                    assert(keys2[p] == set.0 && values2[p] == set.1);
                }
                assert forall|k: i64, v: V|
                    k != set.0 && #[trigger] stores(Some(node), k, v) implies stores(
                    Some(node2),
                    k,
                    v,
                ) by {
                    if exists|j: int|
                        0 <= j < node.keys@.len() && node.keys@[j] == k && node.values@[j] == v {
                        let j = choose|j: int|
                            0 <= j < node.keys@.len() && node.keys@[j] == k && node.values@[j]
                                == v;
                        if j < p {
                            assert(keys2[j] == k && values2[j] == v);
                        } else {
                            assert(keys2[j + 1] == k && values2[j + 1] == v);
                        }
                    } else {
                        lemma_children_stores_index(g_children, k, v);
                        let i = choose|i: int|
                            0 <= i < g_children.len() && #[trigger] stores(g_children[i], k, v);
                        if i <= p {
                            assert(children2[i] == g_children[i]);
                        } else {
                            assert(children2[i + 1] == g_children[i]);
                        }
                        lemma_children_stores_index(children2, k, v);
                    }
                }
                assert forall|k: i64, v: V| #[trigger] stores(new_child, k, v) implies stores(
                    Some(node2),
                    k,
                    v,
                ) by {
                    assert(children2[p + 1] == new_child);
                    lemma_children_stores_index(children2, k, v);
                }
                assert forall|k: i64, v: V| #[trigger] stores(Some(node2), k, v) implies stores(
                    Some(node),
                    k,
                    v,
                ) || (k, v) == set || stores(new_child, k, v) by {
                    if exists|j: int|
                        0 <= j < keys2.len() && keys2[j] == k && values2[j] == v {
                        let j = choose|j: int|
                            0 <= j < keys2.len() && keys2[j] == k && values2[j] == v;
                        if j < p {
                            assert(node.keys@[j] == k && node.values@[j] == v);
                        } else if j > p {
                            assert(node.keys@[j - 1] == k && node.values@[j - 1] == v);
                        }
                    } else {
                        lemma_children_stores_index(children2, k, v);
                        let i = choose|i: int|
                            0 <= i < children2.len() && #[trigger] stores(children2[i], k, v);
                        if i <= p {
                            assert(children2[i] == g_children[i]);
                        } else if i > p + 1 {
                            assert(children2[i] == g_children[i - 1]);
                        }
                        lemma_children_stores_index(g_children, k, v);
                    }
                }
                assert forall|d: int|
                    uniform_depth(Some(node), d) <==> uniform_depth(Some(node2), d) by {
                    if uniform_depth(Some(node), d) {
                        assert forall|i: int| 0 <= i < children2.len() implies uniform_depth(
                            #[trigger] children2[i],
                            d - 1,
                        ) by {
                            if i <= p {
                                lemma_children_uniform_index(g_children, d - 1, i);
                            } else if i > p + 1 {
                                lemma_children_uniform_index(g_children, d - 1, i - 1);
                            }
                        }
                        lemma_children_uniform_intro(children2, d - 1);
                    }
                    if uniform_depth(Some(node2), d) {
                        assert forall|i: int| 0 <= i < g_children.len() implies uniform_depth(
                            #[trigger] g_children[i],
                            d - 1,
                        ) by {
                            if i <= p {
                                assert(children2[i] == g_children[i]);
                                lemma_children_uniform_index(children2, d - 1, i);
                            } else {
                                assert(children2[i + 1] == g_children[i]);
                                lemma_children_uniform_index(children2, d - 1, i + 1);
                            }
                        }
                        lemma_children_uniform_intro(g_children, d - 1);
                    }
                }
                assert forall|k: i64|
                    subtree_keys(Some(node2)).contains(k) <==> subtree_keys(Some(node)).union(
                        subtree_keys(new_child),
                    ).insert(set.0).contains(k) by {
                    lemma_children_keys_index(children2, k);
                    lemma_children_keys_index(g_children, k);
                    if subtree_keys(Some(node2)).contains(k) {
                        if keys2.to_set().contains(k) {
                            let j = choose|j: int| 0 <= j < keys2.len() && keys2[j] == k;
                            if j != p {
                                assert(g_keys.to_set().contains(k));
                            }
                        } else {
                            let i = choose|i: int|
                                0 <= i < children2.len() && #[trigger] subtree_keys(
                                    children2[i],
                                ).contains(k);
                            if i <= p {
                                assert(subtree_keys(g_children[i]).contains(k));
                            } else if i > p + 1 {
                                assert(subtree_keys(g_children[i - 1]).contains(k));
                            }
                        }
                    }
                    if subtree_keys(Some(node)).contains(k) {
                        if g_keys.to_set().contains(k) {
                            let j = choose|j: int| 0 <= j < g_keys.len() && g_keys[j] == k;
                            if j < p {
                                assert(keys2[j] == k);
                            } else {
                                assert(keys2[j + 1] == k);
                            }
                            assert(keys2.to_set().contains(k));
                        } else {
                            let i = choose|i: int|
                                0 <= i < g_children.len() && #[trigger] subtree_keys(
                                    g_children[i],
                                ).contains(k);
                            if i <= p {
                                assert(subtree_keys(children2[i]).contains(k));
                            } else {
                                assert(subtree_keys(children2[i + 1]).contains(k));
                            }
                        }
                    }
                    if subtree_keys(new_child).contains(k) {
                        assert(subtree_keys(children2[p + 1]).contains(k));
                    }
                    if k == set.0 {
                        assert(keys2[p] == k);
                        assert(keys2.to_set().contains(k));
                    }
                }
                assert(subtree_keys(Some(node2)) =~= subtree_keys(Some(node)).union(
                    subtree_keys(new_child),
                ).insert(set.0));
            }
            node2
        }
    }

    /// The position the key occupies or should occupy among this node's
    /// keys: the first position whose key is not smaller.
    pub fn find_key_val_pos(&self, key: i64) -> (pos: usize)
        ensures
            pos <= self.keys@.len(),
            forall|i: int| 0 <= i < pos ==> self.keys@[i] < key,
            pos < self.keys@.len() ==> key <= self.keys@[pos as int],
    {
        let mut pos: usize = 0;
        while pos < self.keys.len() && self.keys[pos] < key
            invariant
                pos <= self.keys@.len(),
                forall|j: int| 0 <= j < pos ==> self.keys@[j] < key,
            decreases self.keys@.len() - pos,
        {
            pos = pos + 1;
        }
        pos
    }
}

/// Recursive descent: walks to the node where the key belongs, places it
/// with `Node::add`, and adopts each median entry and sibling that a
/// split below hands back, splitting in turn when this node fills up.
#[verifier::rlimit(100)]
fn add_rec<V>(node: Box<Node<V>>, set: (i64, V)) -> (r: (
    Box<Node<V>>,
    Option<(Box<Node<V>>, (i64, V))>,
))
    requires
        node_wf(Some(node), node.order as int),
        exists|d: int| uniform_depth(Some(node), d),
    ensures
        r.0.order == node.order,
        node_wf(Some(r.0), node.order as int),
        match r.1 {
            None => subtree_keys(Some(r.0)) == subtree_keys(Some(node)).insert(set.0),
            Some((sib, med)) => {
                &&& node_wf(Some(sib), node.order as int)
                &&& sib.order == node.order
                &&& subtree_keys(Some(r.0)).union(subtree_keys(Some(sib))).insert(med.0)
                    == subtree_keys(Some(node)).insert(set.0)
                &&& (forall|k: i64| subtree_keys(Some(r.0)).contains(k) ==> k < med.0)
                &&& (forall|k: i64| subtree_keys(Some(sib)).contains(k) ==> k > med.0)
            },
        },
        forall|d: int|
            uniform_depth(Some(node), d) <==> uniform_depth(Some(r.0), d) && (r.1 matches Some(s)
                ==> uniform_depth(Some(s.0), d)),
        in_add_result(r, set.0, set.1),
        forall|k: i64, v: V|
            k != set.0 && #[trigger] stores(Some(node), k, v) ==> in_add_result(r, k, v),
        forall|k: i64, v: V|
            #[trigger] in_add_result(r, k, v) ==> stores(Some(node), k, v) || (k, v) == set,
    decreases node,
{
    let pos = node.find_key_val_pos(set.0);
    let found = pos < node.keys.len() && node.keys[pos] == set.0;
    if found || node.is_leaf {
        proof {
            if found {
                assert(node.keys@.to_set().contains(set.0));
            }
            if node.keys@.to_set().contains(set.0) {
                assert(subtree_keys(Some(node)).insert(set.0) =~= subtree_keys(Some(node)));
            }
            assert forall|d: int|
                uniform_depth(Some(node), d) && !node.keys@.to_set().contains(
                    set.0,
                ) implies uniform_depth(None::<Box<Node<V>>>, d - 1) by {
                lemma_children_uniform_index(node.children@, d - 1, 0);
                assert(node.children@[0] is None);
            }
        }
        Node::<V>::add(node, set, None)
    } else {
        let ghost order = node.order as int;
        let ghost g_keys = node.keys@;
        let ghost g_children = node.children@;
        let ghost p = pos as int;
        let ghost d0 = choose|d: int| uniform_depth(Some(node), d);
        proof {
            assert(g_children[p] is Some);
            lemma_children_wf_index(g_children, order, p);
            assert(p < g_keys.len() ==> set.0 < g_keys[p]);
            lemma_children_uniform_index(g_children, d0 - 1, p);
        }
        let Node { order: ord, keys, values, children, is_leaf } = *node;
        let mut children = children;
        let child_opt = children.remove(pos);
        let child = match child_opt {
            Some(c) => c,
            None => unreached(),
        };
        proof {
            assert(child.order == ord);
            assert(g_children[p] == Some(child));
            assert(uniform_depth(Some(child), d0 - 1));
            assert(decreases_to!(node => node.children));
            assert(decreases_to!(node.children => node.children@));
            assert(decreases_to!(node.children@ => node.children@[p]));
            assert(decreases_to!(node.children@[p] => child));
        }
        let (new_child, split) = add_rec(child, set);
        children.insert(pos, Some(new_child));
        let node2 = Box::new(Node { order: ord, keys, values, children, is_leaf });
        proof {
            let children2 = node2.children@;
            assert(children2 =~= g_children.update(p, Some(new_child)));
            assert forall|i: int| 0 <= i < children2.len() implies node_wf(
                #[trigger] children2[i],
                order,
            ) by {
                if i != p {
                    lemma_children_wf_index(g_children, order, i);
                }
            }
            lemma_children_wf_intro(children2, order);
            assert forall|i: int| 0 <= i < children2.len() implies (#[trigger] children2[i] is Some
                <==> !is_leaf) by {}
        }
        match split {
            None => {
                proof {
                    let children2 = node2.children@;
                    assert forall|i: int, k: i64|
                        0 <= i < children2.len() && #[trigger] subtree_keys(
                            children2[i],
                        ).contains(k) implies child_key_in_range(g_keys, i, k) by {
                        if i == p {
                            assert(subtree_keys(children2[p]) == subtree_keys(
                                g_children[p],
                            ).insert(set.0));
                            if k != set.0 {
                                assert(subtree_keys(g_children[p]).contains(k));
                            }
                        }
                    }
                    assert(node_shape(*node2, order));
                    assert forall|k: i64|
                        subtree_keys(Some(node2)).contains(k) <==> subtree_keys(
                            Some(node),
                        ).insert(set.0).contains(k) by {
                        let children2 = node2.children@;
                        lemma_children_keys_index(children2, k);
                        lemma_children_keys_index(g_children, k);
                        if subtree_keys(Some(node2)).contains(k) && k != set.0
                            && !g_keys.to_set().contains(k) {
                            let i = choose|i: int|
                                0 <= i < children2.len() && #[trigger] subtree_keys(
                                    children2[i],
                                ).contains(k);
                            if i == p {
                                assert(subtree_keys(g_children[p]).contains(k));
                            }
                        }
                        if subtree_keys(Some(node)).contains(k) && !g_keys.to_set().contains(k) {
                            let i = choose|i: int|
                                0 <= i < g_children.len() && #[trigger] subtree_keys(
                                    g_children[i],
                                ).contains(k);
                            if i == p {
                                assert(subtree_keys(children2[p]).contains(k));
                            } else {
                                assert(subtree_keys(children2[i]).contains(k));
                            }
                        }
                        if k == set.0 {
                            assert(subtree_keys(children2[p]).contains(k));
                        }
                    }
                    assert(subtree_keys(Some(node2)) =~= subtree_keys(Some(node)).insert(set.0));
                    assert forall|d: int|
                        uniform_depth(Some(node), d) <==> uniform_depth(Some(node2), d) by {
                        if uniform_depth(Some(node), d) {
                            assert forall|i: int| 0 <= i < children2.len() implies uniform_depth(
                                #[trigger] children2[i],
                                d - 1,
                            ) by {
                                lemma_children_uniform_index(g_children, d - 1, i);
                                if i == p {
                                    assert(uniform_depth(Some(child), d - 1));
                                }
                            }
                            lemma_children_uniform_intro(children2, d - 1);
                        }
                        if uniform_depth(Some(node2), d) {
                            assert forall|i: int| 0 <= i < g_children.len() implies uniform_depth(
                                #[trigger] g_children[i],
                                d - 1,
                            ) by {
                                lemma_children_uniform_index(children2, d - 1, i);
                                if i == p {
                                    assert(children2[p] == Some(new_child));
                                } else {
                                    assert(children2[i] == g_children[i]);
                                }
                            }
                            lemma_children_uniform_intro(g_children, d - 1);
                        }
                    }
                    assert(stores(Some(node2), set.0, set.1)) by {
                        assert(stores(Some(new_child), set.0, set.1));
                        assert(children2[p] == Some(new_child));
                        lemma_children_stores_index(children2, set.0, set.1);
                    }
                    assert forall|k: i64, v: V|
                        k != set.0 && #[trigger] stores(Some(node), k, v) implies stores(
                        Some(node2),
                        k,
                        v,
                    ) by {
                        if exists|j: int|
                            0 <= j < node.keys@.len() && node.keys@[j] == k && node.values@[j]
                                == v {
                        } else {
                            lemma_children_stores_index(g_children, k, v);
                            let i = choose|i: int|
                                0 <= i < g_children.len() && #[trigger] stores(
                                    g_children[i],
                                    k,
                                    v,
                                );
                            if i == p {
                                assert(g_children[p] == Some(child));
                                assert(stores(Some(new_child), k, v));
                                assert(children2[p] == Some(new_child));
                            } else {
                                assert(children2[i] == g_children[i]);
                            }
                            lemma_children_stores_index(children2, k, v);
                        }
                    }
                    assert forall|k: i64, v: V| #[trigger] stores(Some(node2), k, v) implies
                        stores(Some(node), k, v) || (k, v) == set by {
                        if exists|j: int|
                            0 <= j < node2.keys@.len() && node2.keys@[j] == k && node2.values@[j]
                                == v {
                        } else {
                            lemma_children_stores_index(children2, k, v);
                            let i = choose|i: int|
                                0 <= i < children2.len() && #[trigger] stores(children2[i], k, v);
                            if i == p {
                                assert(children2[p] == Some(new_child));
                                assert(in_add_result((new_child, split), k, v));
                                if stores(Some(child), k, v) {
                                    assert(g_children[p] == Some(child));
                                    lemma_children_stores_index(g_children, k, v);
                                }
                            } else {
                                assert(children2[i] == g_children[i]);
                                lemma_children_stores_index(g_children, k, v);
                            }
                        }
                    }
                }
                (node2, None)
            },
            Some((sib, med)) => {
                proof {
                    let children2 = node2.children@;
                    assert(subtree_keys(Some(new_child)).union(subtree_keys(Some(sib))).insert(
                        med.0,
                    ) == subtree_keys(g_children[p]).insert(set.0));
                    assert(subtree_keys(g_children[p]).insert(set.0).contains(med.0));
                    assert(child_key_in_range(g_keys, p, med.0)) by {
                        if subtree_keys(g_children[p]).contains(med.0) {
                        } else {
                            assert(med.0 == set.0);
                        }
                    }
                    assert forall|i: int, k: i64|
                        0 <= i < children2.len() && #[trigger] subtree_keys(
                            children2[i],
                        ).contains(k) implies child_key_in_range(g_keys, i, k) by {
                        if i == p {
                            assert(subtree_keys(Some(new_child)).union(
                                subtree_keys(Some(sib)),
                            ).insert(med.0).contains(k));
                            assert(subtree_keys(g_children[p]).insert(set.0).contains(k));
                            if k != set.0 {
                                assert(subtree_keys(g_children[p]).contains(k));
                            }
                        }
                    }
                    assert(node_shape(*node2, order));
                    assert(!g_keys.to_set().contains(med.0)) by {
                        if g_keys.to_set().contains(med.0) {
                            let j = choose|j: int| 0 <= j < g_keys.len() && g_keys[j] == med.0;
                            if j < p {
                                assert(g_keys[j] < set.0);
                                assert(med.0 > g_keys[p - 1]);
                                assert(g_keys[j] <= g_keys[p - 1]);
                            } else {
                                assert(med.0 < g_keys[p]);
                                assert(g_keys[p] <= g_keys[j]);
                            }
                        }
                    }
                    assert forall|k: i64| subtree_keys(Some(sib)).contains(k) implies k
                        > med.0 by {}
                    assert forall|k: i64, j: int|
                        #[trigger] subtree_keys(Some(sib)).contains(k) && 0 <= j < g_keys.len()
                            && med.0 < #[trigger] g_keys[j] implies k < g_keys[j] by {
                        assert(subtree_keys(g_children[p]).insert(set.0).contains(k));
                        assert(med.0 > g_keys[p - 1] || p == 0);
                        assert(j >= p);
                        assert(k < g_keys[p]);
                        assert(g_keys[p] <= g_keys[j]);
                    }
                    assert forall|i: int, k: i64|
                        0 <= i < children2.len() && #[trigger] subtree_keys(
                            children2[i],
                        ).contains(k) && (i == 0 || g_keys[i - 1] < med.0) && (i == g_keys.len()
                            || med.0 <= g_keys[i]) implies k < med.0 by {
                        if i == p {
                        } else if i < p {
                            assert(child_key_in_range(g_keys, i, k));
                            assert(k < g_keys[i]);
                            assert(g_keys[i] <= g_keys[p - 1]);
                            assert(g_keys[p - 1] < med.0);
                        } else {
                            assert(child_key_in_range(g_keys, i, k));
                            assert(k > g_keys[i - 1]);
                            assert(med.0 < g_keys[p]);
                            assert(g_keys[p] <= g_keys[i - 1]);
                            assert(false);
                        }
                    }
                    assert(uniform_depth(Some(node2), d0)) by {
                        assert forall|i: int| 0 <= i < children2.len() implies uniform_depth(
                            #[trigger] children2[i],
                            d0 - 1,
                        ) by {
                            lemma_children_uniform_index(g_children, d0 - 1, i);
                            if i == p {
                                assert(uniform_depth(Some(child), d0 - 1));
                            }
                        }
                        lemma_children_uniform_intro(children2, d0 - 1);
                    }
                    assert(uniform_depth(Some(sib), d0 - 1));
                    assert forall|d2: int|
                        uniform_depth(Some(node2), d2) && !node2.keys@.to_set().contains(
                            med.0,
                        ) implies uniform_depth(Some(sib), d2 - 1) by {
                        lemma_uniform_depth_unique(Some(node2), order, d2, d0);
                    }
                    assert forall|d: int|
                        uniform_depth(Some(node), d) <==> uniform_depth(Some(node2), d) by {
                        if uniform_depth(Some(node), d) {
                            lemma_uniform_depth_unique(Some(node), order, d, d0);
                        }
                        if uniform_depth(Some(node2), d) {
                            lemma_uniform_depth_unique(Some(node2), order, d, d0);
                            assert(uniform_depth(Some(node), d0));
                        }
                    }
                }
                let (res, split2) = Node::<V>::add(node2, med, Some(sib));
                proof {
                    let children2 = node2.children@;
                    assert forall|k: i64, v: V|
                        #[trigger] in_add_result((new_child, split), k, v) && k
                            != med.0 implies in_add_result((res, split2), k, v) by {
                        if stores(Some(new_child), k, v) {
                            assert(children2[p] == Some(new_child));
                            lemma_children_stores_index(children2, k, v);
                            assert(stores(Some(node2), k, v));
                        }
                    }
                    assert(in_add_result((res, split2), set.0, set.1)) by {
                        assert(in_add_result((new_child, split), set.0, set.1));
                        if (set.0, set.1) == med {
                            assert(in_add_result((res, split2), med.0, med.1));
                        } else {
                            if stores(Some(new_child), set.0, set.1) {
                                lemma_stores_in_keys(Some(new_child), set.0, set.1);
                                assert(set.0 != med.0);
                            } else {
                                assert(stores(Some(sib), set.0, set.1));
                                lemma_stores_in_keys(Some(sib), set.0, set.1);
                                assert(set.0 != med.0);
                            }
                        }
                    }
                    assert forall|k: i64, v: V|
                        k != set.0 && #[trigger] stores(Some(node), k, v) implies in_add_result(
                        (res, split2),
                        k,
                        v,
                    ) by {
                        if exists|j: int|
                            0 <= j < node.keys@.len() && node.keys@[j] == k && node.values@[j]
                                == v {
                            let j = choose|j: int|
                                0 <= j < node.keys@.len() && node.keys@[j] == k
                                    && node.values@[j] == v;
                            assert(stores(Some(node2), k, v));
                            assert(g_keys.to_set().contains(k));
                            assert(k != med.0);
                        } else {
                            lemma_children_stores_index(g_children, k, v);
                            let i = choose|i: int|
                                0 <= i < g_children.len() && #[trigger] stores(
                                    g_children[i],
                                    k,
                                    v,
                                );
                            if i == p {
                                assert(g_children[p] == Some(child));
                                assert(in_add_result((new_child, split), k, v));
                                if (k, v) == med {
                                    assert(in_add_result((res, split2), med.0, med.1));
                                } else {
                                    if stores(Some(new_child), k, v) {
                                        lemma_stores_in_keys(Some(new_child), k, v);
                                        assert(k != med.0);
                                    } else {
                                        assert(stores(Some(sib), k, v));
                                        lemma_stores_in_keys(Some(sib), k, v);
                                        assert(k != med.0);
                                    }
                                }
                            } else {
                                assert(children2[i] == g_children[i]);
                                lemma_children_stores_index(children2, k, v);
                                assert(stores(Some(node2), k, v));
                                assert(k != med.0) by {
                                    lemma_stores_in_keys(g_children[i], k, v);
                                    assert(child_key_in_range(g_keys, i, k));
                                    if i < p {
                                        assert(k < g_keys[i]);
                                        assert(g_keys[i] <= g_keys[p - 1]);
                                        assert(g_keys[p - 1] < med.0);
                                    } else {
                                        assert(k > g_keys[i - 1]);
                                        assert(g_keys[p] <= g_keys[i - 1]);
                                        assert(med.0 < g_keys[p]);
                                    }
                                }
                            }
                        }
                    }
                    assert forall|k: i64, v: V|
                        #[trigger] in_add_result((res, split2), k, v) implies stores(
                        Some(node),
                        k,
                        v,
                    ) || (k, v) == set by {
                        if stores(Some(node2), k, v) {
                            if exists|j: int|
                                0 <= j < node2.keys@.len() && node2.keys@[j] == k
                                    && node2.values@[j] == v {
                            } else {
                                lemma_children_stores_index(children2, k, v);
                                let i = choose|i: int|
                                    0 <= i < children2.len() && #[trigger] stores(
                                        children2[i],
                                        k,
                                        v,
                                    );
                                if i == p {
                                    assert(children2[p] == Some(new_child));
                                    assert(in_add_result((new_child, split), k, v));
                                    if stores(Some(child), k, v) {
                                        assert(g_children[p] == Some(child));
                                        lemma_children_stores_index(g_children, k, v);
                                    }
                                } else {
                                    assert(children2[i] == g_children[i]);
                                    lemma_children_stores_index(g_children, k, v);
                                }
                            }
                        } else if (k, v) == med || stores(Some(sib), k, v) {
                            assert(in_add_result((new_child, split), k, v));
                            if stores(Some(child), k, v) {
                                assert(g_children[p] == Some(child));
                                lemma_children_stores_index(g_children, k, v);
                            }
                        }
                    }
                    assert forall|k: i64|
                        subtree_keys(Some(node2)).union(subtree_keys(Some(sib))).insert(
                            med.0,
                        ).contains(k) <==> subtree_keys(Some(node)).insert(set.0).contains(k) by {
                        lemma_children_keys_index(children2, k);
                        lemma_children_keys_index(g_children, k);
                        if subtree_keys(Some(node2)).contains(k) && !g_keys.to_set().contains(k) {
                            let i = choose|i: int|
                                0 <= i < children2.len() && #[trigger] subtree_keys(
                                    children2[i],
                                ).contains(k);
                            if i == p {
                                assert(subtree_keys(Some(new_child)).contains(k));
                                assert(subtree_keys(g_children[p]).insert(set.0).contains(k));
                            }
                        }
                        if subtree_keys(Some(sib)).contains(k) {
                            assert(subtree_keys(g_children[p]).insert(set.0).contains(k));
                            lemma_children_keys_index(g_children, k);
                        }
                        if subtree_keys(Some(node)).contains(k) && !g_keys.to_set().contains(k) {
                            let i = choose|i: int|
                                0 <= i < g_children.len() && #[trigger] subtree_keys(
                                    g_children[i],
                                ).contains(k);
                            if i == p {
                                assert(subtree_keys(Some(new_child)).union(
                                    subtree_keys(Some(sib)),
                                ).insert(med.0).contains(k));
                                if subtree_keys(Some(new_child)).contains(k) {
                                    assert(subtree_keys(children2[p]).contains(k));
                                }
                            } else {
                                assert(subtree_keys(children2[i]).contains(k));
                            }
                        }
                        if k == set.0 {
                            if med.0 != k {
                                assert(subtree_keys(Some(new_child)).union(
                                    subtree_keys(Some(sib)),
                                ).insert(med.0).contains(k));
                                if subtree_keys(Some(new_child)).contains(k) {
                                    assert(subtree_keys(children2[p]).contains(k));
                                }
                            }
                        }
                    }
                    assert(subtree_keys(Some(node2)).union(subtree_keys(Some(sib))).insert(med.0)
                        =~= subtree_keys(Some(node)).insert(set.0));
                }
                (res, split2)
            },
        }
    }
}

/// Creates or extends the tree with one entry: an empty tree gets a
/// fresh leaf root, and a root split grows the tree by one level, the
/// median entry becoming the new root's only key.
pub fn add_helper<V>(root: Option<Box<Node<V>>>, set: (i64, V), order: usize) -> (r: Option<
    Box<Node<V>>,
>)
    requires
        node_wf(root, order as int),
        root matches Some(n) ==> n.order == order,
        2 <= order,
        order < usize::MAX,
        exists|d: int| uniform_depth(root, d),
    ensures
        r is Some,
        node_wf(r, order as int),
        r.unwrap().order == order,
        subtree_keys(r) == subtree_keys(root).insert(set.0),
        exists|d: int| #[trigger] uniform_depth(r, d),
        stores(r, set.0, set.1),
        forall|k: i64, v: V| k != set.0 && #[trigger] stores(root, k, v) ==> stores(r, k, v),
        forall|k: i64, v: V| #[trigger] stores(r, k, v) ==> stores(root, k, v) || (k, v) == set,
{
    match root {
        None => {
            let mut n = Node::new(order, true);
            n.keys.push(set.0);
            n.values.push(set.1);
            n.children.push(None);
            n.children.push(None);
            let r = Box::new(n);
            proof {
                assert forall|i: int| 0 <= i < r.children@.len() implies node_wf(
                    #[trigger] r.children@[i],
                    order as int,
                ) by {}
                lemma_children_wf_intro(r.children@, order as int);
                assert forall|k: i64|
                    subtree_keys(Some(r)).contains(k) <==> subtree_keys(root).insert(
                        set.0,
                    ).contains(k) by {
                    lemma_children_keys_index(r.children@, k);
                    if r.keys@.to_set().contains(k) {
                        let j = choose|j: int| 0 <= j < r.keys@.len() && r.keys@[j] == k;
                        assert(k == set.0);
                    }
                    if k == set.0 {
                        assert(r.keys@[0] == k);
                        assert(r.keys@.to_set().contains(k));
                    }
                }
                assert(subtree_keys(Some(r)) =~= subtree_keys(root).insert(set.0));
                assert(node_shape(*r, order as int));
                assert forall|i: int| 0 <= i < r.children@.len() implies uniform_depth(
                    #[trigger] r.children@[i],
                    0,
                ) by {}
                lemma_children_uniform_intro(r.children@, 0);
                assert(uniform_depth(Some(r), 1));
                assert(r.keys@[0] == set.0 && r.values@[0] == set.1);
                assert(stores(Some(r), set.0, set.1));
                assert forall|k: i64, v: V| #[trigger] stores(Some(r), k, v) implies (k, v)
                    == set by {
                    if children_stores(r.children@, k, v) {
                        lemma_children_stores_index(r.children@, k, v);
                    }
                }
            }
            Some(r)
        },
        Some(node) => {
            let ghost d0 = choose|d: int| uniform_depth(Some(node), d);
            let (new_node, split) = add_rec(node, set);
            proof {
                assert(uniform_depth(Some(new_node), d0));
            }
            match split {
                None => {
                    proof {
                        assert forall|k: i64, v: V| #[trigger] stores(Some(new_node), k, v)
                            implies stores(root, k, v) || (k, v) == set by {
                            assert(in_add_result((new_node, split), k, v));
                        }
                    }
                    Some(new_node)
                },
                Some((sib, med)) => {
                    let mut parent = Node::new(order, false);
                    parent.keys.push(med.0);
                    parent.values.push(med.1);
                    parent.children.push(Some(new_node));
                    parent.children.push(Some(sib));
                    let r = Box::new(parent);
                    proof {
                        let oi = order as int;
                        assert forall|i: int| 0 <= i < r.children@.len() implies node_wf(
                            #[trigger] r.children@[i],
                            oi,
                        ) by {}
                        lemma_children_wf_intro(r.children@, oi);
                        assert forall|i: int, k: i64|
                            0 <= i < r.children@.len() && #[trigger] subtree_keys(
                                r.children@[i],
                            ).contains(k) implies child_key_in_range(r.keys@, i, k) by {}
                        assert(node_shape(*r, oi));
                        assert forall|k: i64|
                            subtree_keys(Some(r)).contains(k) <==> subtree_keys(root).insert(
                                set.0,
                            ).contains(k) by {
                            lemma_children_keys_index(r.children@, k);
                            if r.keys@.to_set().contains(k) {
                                let j = choose|j: int| 0 <= j < r.keys@.len() && r.keys@[j] == k;
                                assert(k == med.0);
                            }
                            if k == med.0 {
                                assert(r.keys@[0] == k);
                                assert(r.keys@.to_set().contains(k));
                            }
                            if subtree_keys(Some(node)).insert(set.0).contains(k) {
                                if subtree_keys(Some(new_node)).contains(k) {
                                    assert(subtree_keys(r.children@[0]).contains(k));
                                } else if subtree_keys(Some(sib)).contains(k) {
                                    assert(subtree_keys(r.children@[1]).contains(k));
                                }
                            }
                        }
                        assert(subtree_keys(Some(r)) =~= subtree_keys(root).insert(set.0));
                        assert(uniform_depth(Some(sib), d0));
                        assert forall|i: int| 0 <= i < r.children@.len() implies uniform_depth(
                            #[trigger] r.children@[i],
                            d0,
                        ) by {}
                        lemma_children_uniform_intro(r.children@, d0);
                        assert(uniform_depth(Some(r), d0 + 1));
                        assert forall|k: i64, v: V|
                            #[trigger] in_add_result((new_node, Some((sib, med))), k, v)
                                implies stores(Some(r), k, v) by {
                            if stores(Some(new_node), k, v) {
                                assert(r.children@[0] == Some(new_node));
                                lemma_children_stores_index(r.children@, k, v);
                            } else if (k, v) == med {
                                assert(r.keys@[0] == k && r.values@[0] == v);
                            } else {
                                assert(r.children@[1] == Some(sib));
                                lemma_children_stores_index(r.children@, k, v);
                            }
                        }
                        assert forall|k: i64, v: V| #[trigger] stores(Some(r), k, v) implies
                            in_add_result((new_node, Some((sib, med))), k, v) by {
                            if children_stores(r.children@, k, v) {
                                lemma_children_stores_index(r.children@, k, v);
                                let i = choose|i: int|
                                    0 <= i < r.children@.len() && #[trigger] stores(
                                        r.children@[i],
                                        k,
                                        v,
                                    );
                                if i == 0 {
                                    assert(r.children@[0] == Some(new_node));
                                } else {
                                    assert(r.children@[1] == Some(sib));
                                }
                            }
                        }
                    }
                    Some(r)
                },
            }
        },
    }
}

/// Splits a node that has just reached `order` keys: the upper half of
/// the entries moves to a new right sibling, the median entry is handed
/// to the caller, and the node keeps the lower half.
#[verifier::rlimit(100)]
fn split_node<V>(node: Box<Node<V>>) -> (r: (Box<Node<V>>, (i64, V), Box<Node<V>>))
    requires
        node_shape(*node, node.order as int),
        node.keys@.len() == node.order,
    ensures
        node_wf(Some(r.0), node.order as int),
        node_wf(Some(r.2), node.order as int),
        r.0.order == node.order,
        r.2.order == node.order,
        subtree_keys(Some(r.0)).union(subtree_keys(Some(r.2))).insert(r.1.0) == subtree_keys(
            Some(node),
        ),
        forall|k: i64| subtree_keys(Some(r.0)).contains(k) ==> k < r.1.0,
        forall|k: i64| subtree_keys(Some(r.2)).contains(k) ==> k > r.1.0,
        forall|d: int|
            uniform_depth(Some(node), d) <==> uniform_depth(Some(r.0), d) && uniform_depth(
                Some(r.2),
                d,
            ),
        forall|k: i64, v: V|
            #[trigger] stores(Some(node), k, v) ==> stores(Some(r.0), k, v) || (k, v) == r.1
                || stores(Some(r.2), k, v),
        forall|k: i64, v: V| #[trigger] stores(Some(r.0), k, v) ==> stores(Some(node), k, v),
        forall|k: i64, v: V| #[trigger] stores(Some(r.2), k, v) ==> stores(Some(node), k, v),
        stores(Some(node), r.1.0, r.1.1),
{
    let ghost order = node.order as int;
    let ghost g_keys = node.keys@;
    let ghost g_children = node.children@;
    let Node { order: ord, keys, values, children, is_leaf } = *node;
    let mut keys = keys;
    let mut values = values;
    let mut children = children;
    let m = ord - ord / 2 - 1;
    let right_keys = keys.split_off(m + 1);
    let right_values = values.split_off(m + 1);
    let right_children = children.split_off(m + 1);
    let median_key = match keys.pop() {
        Some(k) => k,
        None => unreached(),
    };
    let median_value = match values.pop() {
        Some(v) => v,
        None => unreached(),
    };
    let left = Box::new(Node { order: ord, keys, values, children, is_leaf });
    let right = Box::new(
        Node {
            order: ord,
            keys: right_keys,
            values: right_values,
            children: right_children,
            is_leaf,
        },
    );
    proof {
        let mi = m as int;
        assert(left.keys@ == g_keys.subrange(0, mi));
        assert(right.keys@ == g_keys.subrange(mi + 1, order));
        assert(left.children@ == g_children.subrange(0, mi + 1));
        assert(right.children@ == g_children.subrange(mi + 1, order + 1));
        assert(median_key == g_keys[mi]);
        assert forall|i: int| 0 <= i < left.children@.len() implies node_wf(
            #[trigger] left.children@[i],
            order,
        ) by {
            assert(left.children@[i] == g_children[i]);
            lemma_children_wf_index(g_children, order, i);
        }
        lemma_children_wf_intro(left.children@, order);
        assert forall|i: int| 0 <= i < right.children@.len() implies node_wf(
            #[trigger] right.children@[i],
            order,
        ) by {
            assert(right.children@[i] == g_children[i + mi + 1]);
            lemma_children_wf_index(g_children, order, i + mi + 1);
        }
        lemma_children_wf_intro(right.children@, order);
        assert forall|i: int, k: i64|
            0 <= i < left.children@.len() && #[trigger] subtree_keys(
                left.children@[i],
            ).contains(k) implies child_key_in_range(left.keys@, i, k) by {
            assert(left.children@[i] == g_children[i]);
            assert(child_key_in_range(g_keys, i, k));
        }
        assert forall|i: int, k: i64|
            0 <= i < right.children@.len() && #[trigger] subtree_keys(
                right.children@[i],
            ).contains(k) implies child_key_in_range(right.keys@, i, k) by {
            assert(right.children@[i] == g_children[i + mi + 1]);
            assert(child_key_in_range(g_keys, i + mi + 1, k));
        }
        assert(node_shape(*left, order));
        assert(node_shape(*right, order));
        assert forall|d: int|
            uniform_depth(Some(node), d) <==> uniform_depth(Some(left), d) && uniform_depth(
                Some(right),
                d,
            ) by {
            if uniform_depth(Some(node), d) {
                assert forall|i: int| 0 <= i < left.children@.len() implies uniform_depth(
                    #[trigger] left.children@[i],
                    d - 1,
                ) by {
                    assert(left.children@[i] == g_children[i]);
                    lemma_children_uniform_index(g_children, d - 1, i);
                }
                lemma_children_uniform_intro(left.children@, d - 1);
                assert forall|i: int| 0 <= i < right.children@.len() implies uniform_depth(
                    #[trigger] right.children@[i],
                    d - 1,
                ) by {
                    assert(right.children@[i] == g_children[i + mi + 1]);
                    lemma_children_uniform_index(g_children, d - 1, i + mi + 1);
                }
                lemma_children_uniform_intro(right.children@, d - 1);
            }
            if uniform_depth(Some(left), d) && uniform_depth(Some(right), d) {
                assert forall|i: int| 0 <= i < g_children.len() implies uniform_depth(
                    #[trigger] g_children[i],
                    d - 1,
                ) by {
                    if i <= mi {
                        assert(left.children@[i] == g_children[i]);
                        lemma_children_uniform_index(left.children@, d - 1, i);
                    } else {
                        assert(right.children@[i - mi - 1] == g_children[i]);
                        lemma_children_uniform_index(right.children@, d - 1, i - mi - 1);
                    }
                }
                lemma_children_uniform_intro(g_children, d - 1);
            }
        }
        assert forall|k: i64| subtree_keys(Some(left)).contains(k) implies k < median_key by {
            if left.keys@.to_set().contains(k) {
                let j = choose|j: int| 0 <= j < left.keys@.len() && left.keys@[j] == k;
                assert(g_keys[j] == k);
            } else {
                lemma_children_keys_index(left.children@, k);
                let i = choose|i: int|
                    0 <= i < left.children@.len() && #[trigger] subtree_keys(
                        left.children@[i],
                    ).contains(k);
                assert(left.children@[i] == g_children[i]);
                assert(child_key_in_range(g_keys, i, k));
                assert(k < g_keys[i]);
            }
        }
        assert forall|k: i64| subtree_keys(Some(right)).contains(k) implies k > median_key by {
            if right.keys@.to_set().contains(k) {
                let j = choose|j: int| 0 <= j < right.keys@.len() && right.keys@[j] == k;
                assert(g_keys[j + mi + 1] == k);
            } else {
                lemma_children_keys_index(right.children@, k);
                let i = choose|i: int|
                    0 <= i < right.children@.len() && #[trigger] subtree_keys(
                        right.children@[i],
                    ).contains(k);
                assert(right.children@[i] == g_children[i + mi + 1]);
                assert(child_key_in_range(g_keys, i + mi + 1, k));
                assert(k > g_keys[i + mi]);
            }
        }
        assert(left.values@ == node.values@.subrange(0, mi));
        assert(right.values@ == node.values@.subrange(mi + 1, order));
        assert(median_value == node.values@[mi]);
        assert forall|k: i64, v: V| #[trigger] stores(Some(node), k, v) implies stores(
            Some(left),
            k,
            v,
        ) || (k, v) == (median_key, median_value) || stores(Some(right), k, v) by {
            if exists|j: int|
                0 <= j < node.keys@.len() && node.keys@[j] == k && node.values@[j] == v {
                let j = choose|j: int|
                    0 <= j < node.keys@.len() && node.keys@[j] == k && node.values@[j] == v;
                if j < mi {
                    assert(left.keys@[j] == k && left.values@[j] == v);
                } else if j > mi {
                    assert(right.keys@[j - mi - 1] == k && right.values@[j - mi - 1] == v);
                }
            } else {
                lemma_children_stores_index(g_children, k, v);
                let i = choose|i: int|
                    0 <= i < g_children.len() && #[trigger] stores(g_children[i], k, v);
                if i <= mi {
                    assert(left.children@[i] == g_children[i]);
                    lemma_children_stores_index(left.children@, k, v);
                } else {
                    assert(right.children@[i - mi - 1] == g_children[i]);
                    lemma_children_stores_index(right.children@, k, v);
                }
            }
        }
        assert(node.keys@[mi] == median_key && node.values@[mi] == median_value);
        assert(stores(Some(node), median_key, median_value));
        assert forall|k: i64, v: V| #[trigger] stores(Some(left), k, v) implies stores(
            Some(node),
            k,
            v,
        ) by {
            if exists|j: int|
                0 <= j < left.keys@.len() && left.keys@[j] == k && left.values@[j] == v {
                let j = choose|j: int|
                    0 <= j < left.keys@.len() && left.keys@[j] == k && left.values@[j] == v;
                assert(node.keys@[j] == k && node.values@[j] == v);
            } else {
                lemma_children_stores_index(left.children@, k, v);
                let i = choose|i: int|
                    0 <= i < left.children@.len() && #[trigger] stores(left.children@[i], k, v);
                assert(g_children[i] == left.children@[i]);
                lemma_children_stores_index(g_children, k, v);
            }
        }
        assert forall|k: i64, v: V| #[trigger] stores(Some(right), k, v) implies stores(
            Some(node),
            k,
            v,
        ) by {
            if exists|j: int|
                0 <= j < right.keys@.len() && right.keys@[j] == k && right.values@[j] == v {
                let j = choose|j: int|
                    0 <= j < right.keys@.len() && right.keys@[j] == k && right.values@[j] == v;
                assert(node.keys@[j + mi + 1] == k && node.values@[j + mi + 1] == v);
            } else {
                lemma_children_stores_index(right.children@, k, v);
                let i = choose|i: int|
                    0 <= i < right.children@.len() && #[trigger] stores(
                        right.children@[i],
                        k,
                        v,
                    );
                assert(g_children[i + mi + 1] == right.children@[i]);
                lemma_children_stores_index(g_children, k, v);
            }
        }
        assert forall|k: i64|
            subtree_keys(Some(left)).union(subtree_keys(Some(right))).insert(median_key).contains(
                k,
            ) <==> subtree_keys(Some(node)).contains(k) by {
            lemma_children_keys_index(left.children@, k);
            lemma_children_keys_index(right.children@, k);
            lemma_children_keys_index(g_children, k);
            if subtree_keys(Some(node)).contains(k) {
                if g_keys.to_set().contains(k) {
                    let j = choose|j: int| 0 <= j < g_keys.len() && g_keys[j] == k;
                    if j < mi {
                        assert(left.keys@[j] == k);
                        assert(left.keys@.to_set().contains(k));
                    } else if j == mi {
                    } else {
                        assert(right.keys@[j - mi - 1] == k);
                        assert(right.keys@.to_set().contains(k));
                    }
                } else {
                    let i = choose|i: int|
                        0 <= i < g_children.len() && #[trigger] subtree_keys(
                            g_children[i],
                        ).contains(k);
                    if i <= mi {
                        assert(left.children@[i] == g_children[i]);
                        assert(subtree_keys(left.children@[i]).contains(k));
                    } else {
                        assert(right.children@[i - mi - 1] == g_children[i]);
                        assert(subtree_keys(right.children@[i - mi - 1]).contains(k));
                    }
                }
            }
            if subtree_keys(Some(left)).contains(k) {
                if left.keys@.to_set().contains(k) {
                    let j = choose|j: int| 0 <= j < left.keys@.len() && left.keys@[j] == k;
                    assert(g_keys[j] == k);
                    assert(g_keys.to_set().contains(k));
                } else {
                    let i = choose|i: int|
                        0 <= i < left.children@.len() && #[trigger] subtree_keys(
                            left.children@[i],
                        ).contains(k);
                    assert(g_children[i] == left.children@[i]);
                    assert(subtree_keys(g_children[i]).contains(k));
                }
            }
            if subtree_keys(Some(right)).contains(k) {
                if right.keys@.to_set().contains(k) {
                    let j = choose|j: int| 0 <= j < right.keys@.len() && right.keys@[j] == k;
                    assert(g_keys[j + mi + 1] == k);
                    assert(g_keys.to_set().contains(k));
                } else {
                    let i = choose|i: int|
                        0 <= i < right.children@.len() && #[trigger] subtree_keys(
                            right.children@[i],
                        ).contains(k);
                    assert(g_children[i + mi + 1] == right.children@[i]);
                    assert(subtree_keys(g_children[i + mi + 1]).contains(k));
                }
            }
            if k == median_key {
                assert(g_keys.to_set().contains(k));
            }
        }
        assert(subtree_keys(Some(left)).union(subtree_keys(Some(right))).insert(median_key)
            =~= subtree_keys(Some(node)));
    }
    (left, (median_key, median_value), right)
}

impl<V> BTree<V> {
    /// The set of keys stored in the tree.
    pub open spec fn key_set(self) -> Set<i64> {
        subtree_keys(self.root)
    }

    /// The tree's order admits insertions and the root subtree is well
    /// formed with that order.
    pub open spec fn well_formed(self) -> bool {
        &&& 2 <= self.order
        &&& self.order < usize::MAX
        &&& node_wf(self.root, self.order as int)
        &&& (self.root matches Some(n) ==> n.order == self.order)
        &&& (exists|d: int| uniform_depth(self.root, d))
    }

    pub fn new(order: usize) -> (t: Self)
        ensures
            t.root is None,
            t.order == order,
            t.key_set() == Set::<i64>::empty(),
            2 <= order < usize::MAX ==> t.well_formed(),
    {
        proof {
            assert(subtree_keys::<V>(None) =~= Set::<i64>::empty());
            assert(uniform_depth(None::<Box<Node<V>>>, 0));
        }
        Self { root: None, order }
    }

    /// Inserts one key-value pair; a key already present has its value
    /// replaced, so the key set grows by exactly the given key, the
    /// given pair is stored afterwards, and every other stored pair is
    /// kept.
    pub fn insert(&mut self, set: (i64, V))
        requires
            old(self).well_formed(),
        ensures
            final(self).well_formed(),
            final(self).order == old(self).order,
            final(self).key_set() == old(self).key_set().insert(set.0),
            stores(final(self).root, set.0, set.1),
            forall|k: i64, v: V|
                k != set.0 && #[trigger] stores(old(self).root, k, v) ==> stores(
                    final(self).root,
                    k,
                    v,
                ),
            forall|k: i64, v: V|
                #[trigger] stores(final(self).root, k, v) ==> stores(old(self).root, k, v) || (
                k,
                v,
                ) == set,
    {
        self.root = add_helper(self.root.take(), set, self.order);
    }
}

} // verus!
