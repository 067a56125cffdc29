# graph-centrality

Graph centrality measures on an adjacency-list graph, with the integer core
verified by Verus.

- `src/lib.rs` — the `Graph` type and its invariant (lists in range,
  symmetric lists when undirected).
- `src/walks.rs` — walks and shortest distances, with the facts proved about
  them (distance to self, one-edge triangle inequality, symmetry when
  undirected).
- `src/closeness.rs` — breadth-first distances, eccentricity, radius and
  diameter, distance sums and the closeness ranking.
- `src/betweenness.rs` — the counting phase of Brandes' algorithm: visiting
  order, number of shortest paths, predecessor lists.
- `src/counting.rs` — walk counts read from either end, and the symmetry
  of shortest-path counts in an undirected graph.
- `src/katz.rs` — the largest out-degree behind Katz's safe attenuation factor.
- `app/` — the floating-point measures (betweenness, closeness, harmonic,
  eigenvector, PageRank, Katz) computed on top of the library.
