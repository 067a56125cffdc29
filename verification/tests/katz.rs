use graph_centrality::katz::max_out_degree;
use graph_centrality::Graph;

#[test]
fn max_out_degree_of_star() {
    let mut g = Graph::new(4);
    g.add_edge(0, 1);
    g.add_edge(0, 2);
    g.add_edge(0, 3);
    assert_eq!(max_out_degree(&g), Some(3));
}

#[test]
fn max_out_degree_directed_and_empty() {
    let mut g = Graph::new_directed(3);
    g.add_edge(1, 0);
    g.add_edge(1, 2);
    g.add_edge(2, 0);
    assert_eq!(max_out_degree(&g), Some(2));
    assert_eq!(max_out_degree(&Graph::new(0)), None);
    assert_eq!(max_out_degree(&Graph::new(2)), Some(0));
}
