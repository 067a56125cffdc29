use graph_centrality::Graph;

#[test]
fn new_graph_is_empty_and_undirected() {
    let g = Graph::new(3);
    assert_eq!(g.vertex_count(), 3);
    assert_eq!(g.edge_count(), 0);
    assert!(!g.is_directed());
    assert!(g.neighbors(1).is_empty());
}

#[test]
fn new_directed_graph() {
    let g = Graph::new_directed(2);
    assert_eq!(g.vertex_count(), 2);
    assert!(g.is_directed());
    assert_eq!(g.edge_count(), 0);
}

#[test]
fn undirected_edge_is_listed_both_ways() {
    let mut g = Graph::new(3);
    g.add_edge(0, 2);
    assert_eq!(g.neighbors(0), &[2]);
    assert_eq!(g.neighbors(2), &[0]);
    assert_eq!(g.edge_count(), 1);
    assert_eq!(g.out_degree(0), 1);
    assert_eq!(g.out_degree(2), 1);
    assert_eq!(g.in_degree(0), 1);
}

#[test]
fn directed_edge_is_listed_once() {
    let mut g = Graph::new_directed(3);
    g.add_edge(0, 2);
    g.add_edge(1, 2);
    assert_eq!(g.neighbors(0), &[2]);
    assert!(g.neighbors(2).is_empty());
    assert_eq!(g.edge_count(), 2);
    assert_eq!(g.in_degree(2), 2);
    assert_eq!(g.in_degree(0), 0);
    assert_eq!(g.out_degree(2), 0);
}

#[test]
fn self_loop_in_undirected_graph() {
    let mut g = Graph::new(2);
    g.add_edge(1, 1);
    assert_eq!(g.neighbors(1), &[1]);
    assert_eq!(g.edge_count(), 1);
    g.add_edge(0, 1);
    assert_eq!(g.edge_count(), 2);
    assert_eq!(g.neighbors(1), &[1, 0]);
    g.add_edge(0, 0);
    assert_eq!(g.edge_count(), 3);
}

#[test]
fn repeated_edges_are_kept() {
    let mut g = Graph::new(2);
    g.add_edge(0, 1);
    g.add_edge(0, 1);
    assert_eq!(g.neighbors(0), &[1, 1]);
    assert_eq!(g.edge_count(), 2);
    assert_eq!(g.in_degree(1), 1);
}

#[test]
fn adjacency_matches_neighbors() {
    let mut g = Graph::new(4);
    g.add_edge(0, 1);
    g.add_edge(1, 2);
    g.add_edge(2, 3);
    let adj = g.adjacency();
    assert_eq!(adj.len(), 4);
    for v in 0..4 {
        assert_eq!(adj[v].as_slice(), g.neighbors(v));
    }
    assert_eq!(adj[1], vec![0, 2]);
}

#[test]
fn edge_count_grows_by_one_per_edge() {
    let mut g = Graph::new(5);
    for i in 1..5 {
        g.add_edge(0, i);
        assert_eq!(g.edge_count(), i);
    }
    assert_eq!(g.in_degree(0), 4);
}

#[test]
fn edge_count_equals_number_of_add_edge_calls() {
    let calls = [(0, 1), (1, 1), (1, 2), (2, 0), (0, 1), (3, 3)];
    let mut g = Graph::new(4);
    let mut d = Graph::new_directed(4);
    for (k, &(u, v)) in calls.iter().enumerate() {
        g.add_edge(u, v);
        d.add_edge(u, v);
        assert_eq!(g.edge_count(), k + 1);
        assert_eq!(d.edge_count(), k + 1);
    }
}
