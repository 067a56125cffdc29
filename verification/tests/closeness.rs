use graph_centrality::closeness::{
    bfs_distances, distance_sum, eccentricity, most_central_vertex, radius_diameter,
};
use graph_centrality::Graph;

fn path4() -> Graph {
    let mut g = Graph::new(4);
    g.add_edge(0, 1);
    g.add_edge(1, 2);
    g.add_edge(2, 3);
    g
}

fn star5() -> Graph {
    let mut g = Graph::new(5);
    for i in 1..5 {
        g.add_edge(0, i);
    }
    g
}

#[test]
fn test_eccentricity() {
    let mut g = Graph::new(4);
    g.add_edge(0, 1);
    g.add_edge(1, 2);
    g.add_edge(2, 3);
    let ecc = eccentricity(&g);
    assert_eq!(ecc[0], Some(3));
    assert_eq!(ecc[1], Some(2));
}

#[test]
fn test_radius_diameter() {
    let mut g = Graph::new(4);
    g.add_edge(0, 1);
    g.add_edge(1, 2);
    g.add_edge(2, 3);
    let (r, d) = radius_diameter(&g);
    assert_eq!(r, Some(2));
    assert_eq!(d, Some(3));
}

#[test]
fn test_most_central_closeness() {
    let mut g = Graph::new(5);
    for i in 1..5 {
        g.add_edge(0, i);
    }
    assert_eq!(most_central_vertex(&g), 0);
}

#[test]
fn bfs_distances_on_path() {
    let g = path4();
    assert_eq!(bfs_distances(&g, 0), vec![Some(0), Some(1), Some(2), Some(3)]);
    assert_eq!(bfs_distances(&g, 2), vec![Some(2), Some(1), Some(0), Some(1)]);
}

#[test]
fn bfs_distances_unreachable_is_none() {
    let mut g = Graph::new(4);
    g.add_edge(0, 1);
    g.add_edge(2, 3);
    assert_eq!(bfs_distances(&g, 0), vec![Some(0), Some(1), None, None]);
}

#[test]
fn bfs_distances_follow_direction() {
    let mut g = Graph::new_directed(3);
    g.add_edge(0, 1);
    g.add_edge(1, 2);
    assert_eq!(bfs_distances(&g, 0), vec![Some(0), Some(1), Some(2)]);
    assert_eq!(bfs_distances(&g, 2), vec![None, None, Some(0)]);
}

#[test]
fn bfs_distances_take_the_shortcut() {
    let mut g = Graph::new(5);
    g.add_edge(0, 1);
    g.add_edge(1, 2);
    g.add_edge(2, 3);
    g.add_edge(3, 4);
    g.add_edge(0, 4);
    assert_eq!(bfs_distances(&g, 0), vec![Some(0), Some(1), Some(2), Some(2), Some(1)]);
}

#[test]
fn distances_are_symmetric_when_undirected() {
    let g = path4();
    for s in 0..4 {
        for t in 0..4 {
            assert_eq!(bfs_distances(&g, s)[t], bfs_distances(&g, t)[s]);
        }
    }
}

#[test]
fn distance_sum_values() {
    let g = path4();
    assert_eq!(distance_sum(&g, 0), 6);
    assert_eq!(distance_sum(&g, 1), 4);
    let s = star5();
    assert_eq!(distance_sum(&s, 0), 4);
    assert_eq!(distance_sum(&s, 3), 7);
}

#[test]
fn distance_sum_ignores_unreachable() {
    let mut g = Graph::new(3);
    g.add_edge(0, 1);
    assert_eq!(distance_sum(&g, 0), 1);
    assert_eq!(distance_sum(&g, 2), 0);
}

#[test]
fn eccentricity_disconnected_counts_reached_only() {
    let mut g = Graph::new(4);
    g.add_edge(0, 1);
    g.add_edge(1, 2);
    let ecc = eccentricity(&g);
    assert_eq!(ecc, vec![Some(2), Some(1), Some(2), None]);
}

#[test]
fn eccentricity_of_lone_vertex_is_none() {
    let g = Graph::new(1);
    assert_eq!(eccentricity(&g), vec![None]);
    assert_eq!(radius_diameter(&g), (None, None));
    let mut h = Graph::new(2);
    h.add_edge(1, 1);
    assert_eq!(eccentricity(&h), vec![None, None]);
}

#[test]
fn isolated_vertex_does_not_set_the_radius() {
    let mut g = Graph::new(4);
    g.add_edge(0, 1);
    g.add_edge(1, 2);
    assert_eq!(radius_diameter(&g), (Some(1), Some(2)));
}

#[test]
fn directed_eccentricity_counts_reached_vertices() {
    let mut g = Graph::new_directed(3);
    g.add_edge(0, 1);
    g.add_edge(1, 2);
    assert_eq!(eccentricity(&g), vec![Some(2), Some(1), None]);
}

#[test]
fn radius_diameter_empty_graph() {
    let g = Graph::new(0);
    assert_eq!(radius_diameter(&g), (None, None));
    assert!(eccentricity(&g).is_empty());
}

#[test]
fn radius_le_eccentricity_le_diameter() {
    let mut g = Graph::new(6);
    g.add_edge(0, 1);
    g.add_edge(1, 2);
    g.add_edge(2, 3);
    g.add_edge(1, 4);
    g.add_edge(4, 5);
    let ecc = eccentricity(&g);
    let (r, d) = radius_diameter(&g);
    let (r, d) = (r.unwrap(), d.unwrap());
    for e in ecc {
        let e = e.unwrap();
        assert!(r <= e && e <= d);
    }
    assert_eq!((r, d), (2, 4));
}

#[test]
fn most_central_on_path_prefers_last_of_ties() {
    let g = path4();
    assert_eq!(most_central_vertex(&g), 2);
}

#[test]
fn most_central_empty_and_isolated() {
    assert_eq!(most_central_vertex(&Graph::new(0)), 0);
    assert_eq!(most_central_vertex(&Graph::new(3)), 2);
}

#[test]
fn most_central_isolated_vertex_loses() {
    let mut g = Graph::new(4);
    g.add_edge(1, 2);
    g.add_edge(2, 3);
    assert_eq!(most_central_vertex(&g), 2);
}

#[test]
fn one_edge_raises_distance_by_at_most_one() {
    let mut g = Graph::new_directed(6);
    g.add_edge(0, 1);
    g.add_edge(1, 2);
    g.add_edge(2, 0);
    g.add_edge(2, 3);
    g.add_edge(0, 4);
    g.add_edge(4, 3);
    g.add_edge(3, 5);
    for s in 0..6 {
        let d = bfs_distances(&g, s);
        assert_eq!(d[s], Some(0));
        for u in 0..6 {
            if let Some(du) = d[u] {
                for &w in g.neighbors(u) {
                    assert!(d[w].unwrap() <= du + 1);
                }
            }
        }
    }
}

#[test]
fn complete_graph_distance_sums_equal() {
    let mut g = Graph::new(4);
    for i in 0..4 {
        for j in (i + 1)..4 {
            g.add_edge(i, j);
        }
    }
    for v in 0..4 {
        assert_eq!(distance_sum(&g, v), 3);
    }
    assert_eq!(most_central_vertex(&g), 3);
    assert_eq!(radius_diameter(&g), (Some(1), Some(1)));
}
