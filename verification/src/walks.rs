//! Walks and shortest distances in an adjacency-list graph.
//!
//! A walk of length `k` from `s` to `t` follows `k` listed edges; the
//! shortest distance from `s` to `t` is the least such `k`, and there is
//! none when `t` cannot be reached from `s`.

use vstd::prelude::*;

use crate::{entries_in_range, lemma_symmetric_contains, symmetric, Graph};

verus! {

/// `u` lists `v` as an out-neighbour.
pub open spec fn has_edge(adj: Seq<Seq<usize>>, u: usize, v: usize) -> bool {
    u < adj.len() && adj[u as int].contains(v)
}

/// Vertex `p[i + 1]` is listed as a neighbour of vertex `p[i]`.
pub open spec fn step_ok(adj: Seq<Seq<usize>>, p: Seq<usize>, i: int) -> bool {
    has_edge(adj, p[i], p[i + 1])
}

/// `p` is a walk: a nonempty sequence of vertices, each step along a listed edge.
pub open spec fn is_walk(adj: Seq<Seq<usize>>, p: Seq<usize>) -> bool {
    &&& p.len() >= 1
    &&& forall|i: int| 0 <= i < p.len() - 1 ==> #[trigger] step_ok(adj, p, i)
}

/// `p` is a walk of exactly `k` edges from `s` to `t`.
pub open spec fn walk_with(adj: Seq<Seq<usize>>, p: Seq<usize>, s: usize, t: usize, k: nat) -> bool {
    &&& is_walk(adj, p)
    &&& p.len() == k + 1
    &&& p[0] == s
    &&& p.last() == t
}

/// There is a walk of exactly `k` edges from `s` to `t`.
pub open spec fn walk_of_len(adj: Seq<Seq<usize>>, s: usize, t: usize, k: nat) -> bool {
    exists|p: Seq<usize>| #[trigger] walk_with(adj, p, s, t, k)
}

/// Some walk leads from `s` to `t`.
pub open spec fn reachable(adj: Seq<Seq<usize>>, s: usize, t: usize) -> bool {
    exists|k: nat| #[trigger] walk_of_len(adj, s, t, k)
}

/// `k` is the least length of a walk from `s` to `t`.
pub open spec fn is_shortest(adj: Seq<Seq<usize>>, s: usize, t: usize, k: nat) -> bool {
    &&& walk_of_len(adj, s, t, k)
    &&& forall|j: nat| j < k ==> !#[trigger] walk_of_len(adj, s, t, j)
}

/// The shortest distance from `s` to `t`, or `None` when `t` is unreachable.
pub open spec fn shortest_distance(adj: Seq<Seq<usize>>, s: usize, t: usize) -> Option<nat> {
    if reachable(adj, s, t) {
        Some(choose|k: nat| is_shortest(adj, s, t, k))
    } else {
        None
    }
}

/// A machine distance read as a mathematical one.
pub open spec fn lift(o: Option<usize>) -> Option<nat> {
    match o {
        Some(d) => Some(d as nat),
        None => None,
    }
}

/// The walk of no edges from a vertex to itself.
pub proof fn lemma_walk_zero(adj: Seq<Seq<usize>>, s: usize)
    ensures
        walk_of_len(adj, s, s, 0),
{
    assert(walk_with(adj, seq![s], s, s, 0));
}

/// One more edge extends a walk by one.
pub proof fn lemma_walk_step(adj: Seq<Seq<usize>>, s: usize, u: usize, w: usize, k: nat)
    requires
        walk_of_len(adj, s, u, k),
        has_edge(adj, u, w),
    ensures
        walk_of_len(adj, s, w, k + 1),
{
    let p = choose|p: Seq<usize>| #[trigger] walk_with(adj, p, s, u, k);
    let q = p.push(w);
    assert forall|i: int| 0 <= i < q.len() - 1 implies #[trigger] step_ok(adj, q, i) by {
        if i < p.len() - 1 {
            assert(step_ok(adj, p, i));
        }
    }
    assert(walk_with(adj, q, s, w, k + 1));
}

/// A walk of at least one edge ends with a step from some vertex reached one edge sooner.
pub proof fn lemma_walk_last_step(adj: Seq<Seq<usize>>, s: usize, w: usize, k: nat) -> (u: usize)
    requires
        walk_of_len(adj, s, w, k),
        k > 0,
    ensures
        walk_of_len(adj, s, u, (k - 1) as nat),
        has_edge(adj, u, w),
{
    let p = choose|p: Seq<usize>| #[trigger] walk_with(adj, p, s, w, k);
    let q = p.drop_last();
    let u = q.last();
    assert forall|i: int| 0 <= i < q.len() - 1 implies #[trigger] step_ok(adj, q, i) by {
        assert(step_ok(adj, p, i));
    }
    assert(walk_with(adj, q, s, u, (k - 1) as nat));
    assert(step_ok(adj, p, k - 1));
    u
}

/// A least walk length is the shortest distance.
pub proof fn lemma_shortest_unique(adj: Seq<Seq<usize>>, s: usize, t: usize, k: nat)
    requires
        is_shortest(adj, s, t, k),
    ensures
        shortest_distance(adj, s, t) == Some(k),
{
    assert(reachable(adj, s, t));
    let c = choose|k: nat| is_shortest(adj, s, t, k);
    assert(is_shortest(adj, s, t, c));
    if c < k {
        assert(!walk_of_len(adj, s, t, c));
    }
    if k < c {
        assert(!walk_of_len(adj, s, t, k));
    }
}

/// With no walk at all there is no shortest distance.
pub proof fn lemma_unreachable(adj: Seq<Seq<usize>>, s: usize, t: usize)
    requires
        forall|k: nat| !#[trigger] walk_of_len(adj, s, t, k),
    ensures
        shortest_distance(adj, s, t) is None,
{
}

/// A walk of length `k` makes the shortest distance defined and at most `k`.
pub proof fn lemma_shortest_le(adj: Seq<Seq<usize>>, s: usize, t: usize, k: nat)
    requires
        walk_of_len(adj, s, t, k),
    ensures
        shortest_distance(adj, s, t) matches Some(d) && d <= k && is_shortest(adj, s, t, d),
    decreases k,
{
    if exists|j: nat| j < k && #[trigger] walk_of_len(adj, s, t, j) {
        let j = choose|j: nat| j < k && #[trigger] walk_of_len(adj, s, t, j);
        lemma_shortest_le(adj, s, t, j);
    } else {
        lemma_shortest_unique(adj, s, t, k);
    }
}

/// A defined shortest distance is the least walk length.
pub proof fn lemma_shortest_is_least(adj: Seq<Seq<usize>>, s: usize, t: usize)
    requires
        shortest_distance(adj, s, t) is Some,
    ensures
        is_shortest(adj, s, t, shortest_distance(adj, s, t)->0),
{
    let k = choose|k: nat| #[trigger] walk_of_len(adj, s, t, k);
    lemma_shortest_le(adj, s, t, k);
}

/// Read backwards, a walk in a graph with symmetric lists is again a walk.
proof fn lemma_walk_reverse(adj: Seq<Seq<usize>>, s: usize, t: usize, k: nat)
    requires
        entries_in_range(adj),
        symmetric(adj),
        walk_of_len(adj, s, t, k),
    ensures
        walk_of_len(adj, t, s, k),
{
    let p = choose|p: Seq<usize>| #[trigger] walk_with(adj, p, s, t, k);
    let len = p.len();
    let q = Seq::new(len, |i: int| p[len - 1 - i]);
    assert forall|i: int| 0 <= i < q.len() - 1 implies #[trigger] step_ok(adj, q, i) by {
        let a = len - 2 - i;
        assert(step_ok(adj, p, a));
        let x = p[a];
        let y = p[a + 1];
        assert(adj[x as int].contains(y));
        let c = choose|c: int| 0 <= c < adj[x as int].len() && adj[x as int][c] == y;
        assert(adj[x as int][c] < adj.len());
        lemma_symmetric_contains(adj, x, y);
        assert(q[i] == y && q[i + 1] == x);
    }
    assert(walk_with(adj, q, t, s, k));
}

/// Every vertex is at distance zero from itself.
pub proof fn lemma_distance_to_self(graph: &Graph, s: usize)
    requires
        graph.wf(),
    ensures
        shortest_distance(graph.adj_view(), s, s) == Some(0nat),
{
    lemma_walk_zero(graph.adj_view(), s);
    lemma_shortest_unique(graph.adj_view(), s, s, 0);
}

/// Following one more edge raises the distance by at most one: if `u` is at
/// distance `a` from `s` and lists `w`, then `w` is at distance at most `a + 1`.
pub proof fn lemma_distance_triangle(graph: &Graph, s: usize, u: usize, w: usize)
    requires
        graph.wf(),
        has_edge(graph.adj_view(), u, w),
        shortest_distance(graph.adj_view(), s, u) is Some,
    ensures
        shortest_distance(graph.adj_view(), s, w) matches Some(b) && b <= shortest_distance(
            graph.adj_view(),
            s,
            u,
        )->0 + 1,
{
    let adj = graph.adj_view();
    let a = shortest_distance(adj, s, u)->0;
    lemma_shortest_is_least(adj, s, u);
    lemma_walk_step(adj, s, u, w, a);
    lemma_shortest_le(adj, s, w, a + 1);
}

/// In an undirected graph the distance from `s` to `t` equals the distance
/// from `t` to `s`, and one is undefined exactly when the other is.
pub proof fn lemma_distance_symmetric(graph: &Graph, s: usize, t: usize)
    requires
        graph.wf(),
        !graph.directed_view(),
    ensures
        shortest_distance(graph.adj_view(), s, t) == shortest_distance(graph.adj_view(), t, s),
{
    let adj = graph.adj_view();
    lemma_distance_reverse(adj, s, t);
    lemma_distance_reverse(adj, t, s);
}

/// One direction of the symmetry of distances.
proof fn lemma_distance_reverse(adj: Seq<Seq<usize>>, s: usize, t: usize)
    requires
        entries_in_range(adj),
        symmetric(adj),
    ensures
        shortest_distance(adj, s, t) is Some ==> shortest_distance(adj, t, s) == shortest_distance(
            adj,
            s,
            t,
        ),
{
    if shortest_distance(adj, s, t) is Some {
        let d = shortest_distance(adj, s, t)->0;
        lemma_shortest_is_least(adj, s, t);
        lemma_walk_reverse(adj, s, t, d);
        assert forall|j: nat| j < d implies !#[trigger] walk_of_len(adj, t, s, j) by {
            if walk_of_len(adj, t, s, j) {
                lemma_walk_reverse(adj, t, s, j);
            }
        }
        lemma_shortest_unique(adj, t, s, d);
    }
}

} // verus!
