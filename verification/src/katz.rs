//! The integer part of Katz centrality's safe attenuation factor.

use vstd::prelude::*;

use crate::Graph;

verus! {

/// The largest out-degree, or `None` for a graph without vertices; the
/// safe attenuation factor for Katz centrality is `1 / (max_degree + 1)`,
/// with a maximum of 1 taken for an empty graph.
pub fn max_out_degree(graph: &Graph) -> (r: Option<usize>)
    requires
        graph.wf(),
    ensures
        graph.num_vertices() == 0 <==> r is None,
        r matches Some(m) ==> (forall|v: int|
            0 <= v < graph.num_vertices() ==> #[trigger] graph.adj_view()[v].len() <= m) && exists|
            v: int,
        |
            0 <= v < graph.num_vertices() && #[trigger] graph.adj_view()[v].len() == m,
{
    let n = graph.vertex_count();
    let mut best: Option<usize> = None;
    let mut v: usize = 0;
    while v < n
        invariant
            graph.wf(),
            n == graph.num_vertices(),
            v <= n,
            v == 0 <==> best is None,
            best matches Some(m) ==> (forall|u: int|
                0 <= u < v ==> #[trigger] graph.adj_view()[u].len() <= m) && exists|u: int|
                0 <= u < v && #[trigger] graph.adj_view()[u].len() == m,
        decreases n - v,
    {
        let d = graph.out_degree(v);
        match best {
            Some(m) => {
                if d > m {
                    best = Some(d);
                }
            },
            None => {
                best = Some(d);
            },
        }
        v = v + 1;
    }
    best
}

} // verus!
