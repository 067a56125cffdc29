use graph_centrality::betweenness::shortest_paths;
use graph_centrality::Graph;

#[test]
fn star_from_center() {
    let mut g = Graph::new(5);
    for i in 1..5 {
        g.add_edge(0, i);
    }
    let sp = shortest_paths(&g, 0).unwrap();
    assert_eq!(sp.order, vec![0, 1, 2, 3, 4]);
    assert_eq!(sp.sigma, vec![1, 1, 1, 1, 1]);
    assert!(sp.predecessors[0].is_empty());
    for i in 1..5 {
        assert_eq!(sp.predecessors[i], vec![0]);
    }
}

#[test]
fn star_from_leaf() {
    let mut g = Graph::new(5);
    for i in 1..5 {
        g.add_edge(0, i);
    }
    let sp = shortest_paths(&g, 3).unwrap();
    assert_eq!(sp.order, vec![3, 0, 1, 2, 4]);
    assert_eq!(sp.sigma, vec![1, 1, 1, 1, 1]);
    assert_eq!(sp.predecessors[0], vec![3]);
    assert_eq!(sp.predecessors[1], vec![0]);
    assert!(sp.predecessors[3].is_empty());
}

#[test]
fn diamond_has_two_shortest_paths() {
    let mut g = Graph::new(4);
    g.add_edge(0, 1);
    g.add_edge(0, 2);
    g.add_edge(1, 3);
    g.add_edge(2, 3);
    let sp = shortest_paths(&g, 0).unwrap();
    assert_eq!(sp.sigma, vec![1, 1, 1, 2]);
    assert_eq!(sp.predecessors[3], vec![1, 2]);
    assert_eq!(sp.order, vec![0, 1, 2, 3]);
}

#[test]
fn repeated_edge_counts_twice() {
    let mut g = Graph::new_directed(3);
    g.add_edge(0, 1);
    g.add_edge(0, 1);
    g.add_edge(1, 2);
    let sp = shortest_paths(&g, 0).unwrap();
    assert_eq!(sp.sigma, vec![1, 2, 2]);
    assert_eq!(sp.predecessors[1], vec![0, 0]);
    assert_eq!(sp.predecessors[2], vec![1]);
}

#[test]
fn unreachable_vertices_have_no_paths() {
    let mut g = Graph::new_directed(4);
    g.add_edge(0, 1);
    g.add_edge(2, 3);
    let sp = shortest_paths(&g, 0).unwrap();
    assert_eq!(sp.order, vec![0, 1]);
    assert_eq!(sp.sigma, vec![1, 1, 0, 0]);
    assert!(sp.predecessors[2].is_empty());
    assert!(sp.predecessors[3].is_empty());
}

#[test]
fn grid_path_counts() {
    // 3x3 grid, vertex r*3+c
    let mut g = Graph::new(9);
    for r in 0..3 {
        for c in 0..3 {
            let v = r * 3 + c;
            if c + 1 < 3 {
                g.add_edge(v, v + 1);
            }
            if r + 1 < 3 {
                g.add_edge(v, v + 3);
            }
        }
    }
    let sp = shortest_paths(&g, 0).unwrap();
    assert_eq!(sp.sigma, vec![1, 1, 1, 1, 2, 3, 1, 3, 6]);
}

#[test]
fn overflowing_path_count_is_refused() {
    // layers of two vertices, each fully joined to the next: 2^65 paths reach layer 66
    let layers = 66;
    let n = 1 + 2 * layers;
    let mut g = Graph::new_directed(n);
    g.add_edge(0, 1);
    g.add_edge(0, 2);
    for k in 1..layers {
        for a in 0..2 {
            for b in 0..2 {
                g.add_edge(2 * k - 1 + a, 2 * k + 1 + b);
            }
        }
    }
    assert!(shortest_paths(&g, 0).is_none());
    // from a vertex near the end the counts stay small
    let sp = shortest_paths(&g, 2 * layers - 3).unwrap();
    assert_eq!(sp.sigma[2 * layers - 1], 1);
    assert_eq!(sp.sigma[2 * layers], 1);
}

#[test]
fn counts_fit_just_below_the_limit() {
    // each vertex of layer k has 2^(k-1) shortest paths: 2^63 in layer 64
    let layers = 64;
    let n = 1 + 2 * layers;
    let mut g = Graph::new_directed(n);
    g.add_edge(0, 1);
    g.add_edge(0, 2);
    for k in 1..layers {
        for a in 0..2 {
            for b in 0..2 {
                g.add_edge(2 * k - 1 + a, 2 * k + 1 + b);
            }
        }
    }
    let sp = shortest_paths(&g, 0).unwrap();
    assert_eq!(sp.sigma[2 * layers], 1usize << 63);
}

#[test]
fn brandes_identity_on_a_small_graph() {
    let mut g = Graph::new(6);
    g.add_edge(0, 1);
    g.add_edge(0, 2);
    g.add_edge(1, 3);
    g.add_edge(2, 3);
    g.add_edge(3, 4);
    g.add_edge(2, 5);
    g.add_edge(5, 4);
    let sp = shortest_paths(&g, 0).unwrap();
    for w in 1..6 {
        let total: usize = sp.predecessors[w].iter().map(|&u| sp.sigma[u]).sum();
        assert_eq!(total, sp.sigma[w]);
    }
    assert_eq!(sp.sigma[4], 3);
}

#[test]
fn undirected_path_counts_are_symmetric() {
    let mut g = Graph::new(7);
    g.add_edge(0, 1);
    g.add_edge(0, 2);
    g.add_edge(1, 3);
    g.add_edge(2, 3);
    g.add_edge(3, 4);
    g.add_edge(3, 5);
    g.add_edge(4, 6);
    g.add_edge(5, 6);
    g.add_edge(1, 2);
    let all: Vec<Vec<usize>> = (0..7).map(|s| shortest_paths(&g, s).unwrap().sigma).collect();
    for s in 0..7 {
        for t in 0..7 {
            assert_eq!(all[s][t], all[t][s]);
        }
    }
    assert_eq!(all[0][6], 4);
}

#[test]
fn order_is_breadth_first_by_list_position() {
    let mut g = Graph::new_directed(5);
    g.add_edge(0, 3);
    g.add_edge(0, 1);
    g.add_edge(3, 4);
    g.add_edge(1, 2);
    let sp = shortest_paths(&g, 0).unwrap();
    assert_eq!(sp.order, vec![0, 3, 1, 4, 2]);
}
