//! A directed graph with weighted edges, stored as adjacency maps: one
//! map from node id to node, one from node id to its outgoing edges.
//!
//! Node ids and edge weights are `i64` values.  The graph is modeled by
//! the set of node ids and a map from node id to the sequence of edges
//! leaving it.

use vstd::prelude::*;
use vstd::pervasive::unreached;
use std::collections::HashMap;

verus! {

broadcast use vstd::std_specs::hash::group_hash_axioms;

pub struct Graph {
    nodes: HashMap<i64, Node>,
    edges: HashMap<i64, Vec<Edge>>,
}

pub struct Node {
    pub id: i64,
}

#[derive(Clone, Copy)]
pub struct Edge {
    pub weight: i64,
    pub node_to: i64,
}

impl Node {
    pub fn new(id: i64) -> (r: Self)
        ensures
            r == (Node { id }),
    {
        Node { id }
    }
}

impl Edge {
    pub fn new(to: i64, weight: i64) -> (r: Self)
        ensures
            r == (Edge { weight, node_to: to }),
    {
        Edge { weight, node_to: to }
    }
}

impl Graph {
    /// The set of node ids in the graph.
    pub closed spec fn nodes_spec(self) -> Set<i64> {
        self.nodes@.dom()
    }

    /// The outgoing edges of each node that has any, in insertion order.
    pub closed spec fn edges_spec(self) -> Map<i64, Seq<Edge>> {
        self.edges@.map_values(|v: Vec<Edge>| v@)
    }

    pub fn new() -> (g: Self)
        ensures
            g.nodes_spec() == Set::<i64>::empty(),
            g.edges_spec() == Map::<i64, Seq<Edge>>::empty(),
    {
        let g = Graph { nodes: HashMap::new(), edges: HashMap::new() };
        proof {
            assert(g.nodes_spec() =~= Set::<i64>::empty());
            assert(g.edges_spec() =~= Map::<i64, Seq<Edge>>::empty());
        }
        g
    }

    /// Adds a node; adding an id already present changes nothing.
    pub fn add_node(&mut self, id: i64)
        ensures
            final(self).nodes_spec() == old(self).nodes_spec().insert(id),
            final(self).edges_spec() == old(self).edges_spec(),
    {
        if !self.nodes.contains_key(&id) {
            self.nodes.insert(id, Node::new(id));
            proof {
                assert(self.nodes_spec() =~= old(self).nodes_spec().insert(id));
            }
        } else {
            proof {
                assert(self.nodes_spec() =~= old(self).nodes_spec().insert(id));
            }
        }
    }

    /// Adds a directed edge between two existing nodes; if either
    /// endpoint is absent, nothing changes.
    pub fn add_edge(&mut self, id_from: i64, id_to: i64, weight: i64)
        ensures
            final(self).nodes_spec() == old(self).nodes_spec(),
            old(self).nodes_spec().contains(id_from) && old(self).nodes_spec().contains(id_to)
                ==> final(self).edges_spec() == old(self).edges_spec().insert(
                id_from,
                if old(self).edges_spec().contains_key(id_from) {
                    old(self).edges_spec()[id_from].push(Edge { weight, node_to: id_to })
                } else {
                    seq![Edge { weight, node_to: id_to }]
                },
            ),
            !(old(self).nodes_spec().contains(id_from) && old(self).nodes_spec().contains(id_to))
                ==> final(self).edges_spec() == old(self).edges_spec(),
    {
        if self.nodes.contains_key(&id_to) && self.nodes.contains_key(&id_from) {
            if !self.edges.contains_key(&id_from) {
                let first = vec![Edge::new(id_to, weight)];
                proof {
                    assert(first@ =~= seq![Edge { weight, node_to: id_to }]);
                }
                self.edges.insert(id_from, first);
                proof {
                    assert(final(self).edges_spec() =~= old(self).edges_spec().insert(
                        id_from,
                        seq![Edge { weight, node_to: id_to }],
                    ));
                }
            } else {
                let mut edge_vector = match self.edges.remove(&id_from) {
                    Some(v) => v,
                    None => unreached(),
                };
                edge_vector.push(Edge::new(id_to, weight));
                self.edges.insert(id_from, edge_vector);
                proof {
                    assert(final(self).edges_spec() =~= old(self).edges_spec().insert(
                        id_from,
                        old(self).edges_spec()[id_from].push(Edge { weight, node_to: id_to }),
                    ));
                }
            }
        } else {
            proof {
                assert(final(self).edges_spec() =~= old(self).edges_spec());
            }
        }
    }

    /// The `(target, weight)` pairs of the edges leaving a node, or
    /// `None` when the node has no recorded edges.
    pub fn get_edges_from(&self, id: i64) -> (r: Option<Vec<(i64, i64)>>)
        ensures
            r is Some <==> self.edges_spec().contains_key(id),
            r matches Some(v) ==> v@ == self.edges_spec()[id].map_values(
                |e: Edge| (e.node_to, e.weight),
            ),
    {
        let edges = self.edges.get(&id);
        if let Some(vals) = edges {
            let mut out: Vec<(i64, i64)> = Vec::new();
            let mut i: usize = 0;
            while i < vals.len()
                invariant
                    i <= vals@.len(),
                    out@ == vals@.subrange(0, i as int).map_values(|e: Edge| (e.node_to, e.weight)),
                decreases vals@.len() - i,
            {
                let e = &vals[i];
                out.push((e.node_to, e.weight));
                proof {
                    assert(vals@.subrange(0, i + 1 as int).map_values(
                        |e: Edge| (e.node_to, e.weight),
                    ) =~= vals@.subrange(0, i as int).map_values(|e: Edge| (e.node_to, e.weight))
                        + seq![(vals@[i as int].node_to, vals@[i as int].weight)]);
                    assert(out@ =~= vals@.subrange(0, i + 1 as int).map_values(
                        |e: Edge| (e.node_to, e.weight),
                    ));
                }
                i = i + 1;
            }
            proof {
                assert(vals@.subrange(0, vals@.len() as int) =~= vals@);
                assert(out@ =~= self.edges_spec()[id].map_values(|e: Edge| (e.node_to, e.weight)));
            }
            Some(out)
        } else {
            None
        }
    }
}

} // verus!
