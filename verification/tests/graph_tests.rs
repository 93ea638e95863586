use classic_collections::graph::Graph;

#[test]
fn graph_no_edges_recorded() {
    let mut graph = Graph::new();
    graph.add_node(1);
    assert!(graph.get_edges_from(1).is_none());
    assert!(graph.get_edges_from(2).is_none());
}

#[test]
fn graph_edges_in_insertion_order() {
    let mut graph = Graph::new();
    graph.add_node(1);
    graph.add_node(2);
    graph.add_node(3);
    graph.add_edge(1, 2, 10);
    graph.add_edge(1, 3, 20);
    let edges = graph.get_edges_from(1).expect("node 1 should have edges");
    assert_eq!(edges, vec![(2, 10), (3, 20)]);
}

#[test]
fn graph_edge_to_missing_node_is_dropped() {
    let mut graph = Graph::new();
    graph.add_node(1);
    graph.add_edge(1, 9, 5);
    assert!(graph.get_edges_from(1).is_none());
    graph.add_edge(9, 1, 5);
    assert!(graph.get_edges_from(9).is_none());
}

#[test]
fn graph_duplicate_node_is_ignored() {
    let mut graph = Graph::new();
    graph.add_node(4);
    graph.add_node(5);
    graph.add_edge(4, 5, 1);
    graph.add_node(4);
    let edges = graph.get_edges_from(4).expect("node 4 should have edges");
    assert_eq!(edges, vec![(5, 1)]);
}
