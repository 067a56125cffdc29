//! The counting half of Brandes' betweenness algorithm: from one source,
//! the breadth-first visiting order, the number of shortest paths to every
//! vertex, and the predecessors of every vertex on those paths.

use vstd::prelude::*;

use crate::closeness::{bfs_visit, in_bfs_order};
use crate::walks::{
    has_edge, lemma_shortest_is_least, lemma_shortest_le, lemma_walk_last_step, lemma_walk_step,
    lemma_walk_zero, lift, shortest_distance, walk_of_len,
};
use crate::{
    entries_in_range, lemma_occurrences_contains, lemma_occurrences_push, lemma_push_contains,
    occurrences, Graph,
};

verus! {

/// Number of walks of exactly `k` edges from `s` to `w` whose next-to-last
/// vertex is below `m`; an edge listed twice counts twice.
pub open spec fn walks_via(adj: Seq<Seq<usize>>, s: usize, w: usize, k: nat, m: nat) -> nat
    decreases k, m,
{
    if k == 0 {
        if w == s {
            1
        } else {
            0
        }
    } else if m == 0 {
        0
    } else {
        walks_via(adj, s, w, k, (m - 1) as nat) + walks_via(
            adj,
            s,
            (m - 1) as usize,
            (k - 1) as nat,
            adj.len(),
        ) * occurrences(adj[m - 1], w)
    }
}

/// Number of walks of exactly `k` edges from `s` to `w`.
pub open spec fn walk_count(adj: Seq<Seq<usize>>, s: usize, w: usize, k: nat) -> nat {
    walks_via(adj, s, w, k, adj.len())
}

/// Number of shortest walks from `s` to `w` (zero when `w` is unreachable).
pub open spec fn path_count(adj: Seq<Seq<usize>>, s: usize, w: usize) -> nat {
    match shortest_distance(adj, s, w) {
        Some(d) => walk_count(adj, s, w, d),
        None => 0,
    }
}

/// How many times `u` precedes `w` on shortest walks from `s`: the number of
/// times `u` lists `w` when `w` is one step farther from `s` than `u`, else zero.
pub open spec fn pred_mult(adj: Seq<Seq<usize>>, s: usize, u: usize, w: usize) -> nat {
    pred_mult_prefix(adj, s, u, w, adj[u as int].len() as int)
}

/// As `pred_mult`, counting only the first `j` entries of `u`'s list.
pub open spec fn pred_mult_prefix(adj: Seq<Seq<usize>>, s: usize, u: usize, w: usize, j: int) -> nat {
    match (shortest_distance(adj, s, u), shortest_distance(adj, s, w)) {
        (Some(a), Some(b)) => if a + 1 == b {
            occurrences(adj[u as int].take(j), w)
        } else {
            0
        },
        _ => 0,
    }
}

/// Shortest walks to `w` whose last step leaves from `u`.
pub open spec fn last_step_paths(adj: Seq<Seq<usize>>, s: usize, w: usize, u: usize) -> nat {
    path_count(adj, s, u) * pred_mult(adj, s, u, w)
}

/// Sum of `last_step_paths` over the vertices below `m`.
pub open spec fn last_step_total(adj: Seq<Seq<usize>>, s: usize, w: usize, m: nat) -> nat
    decreases m,
{
    if m == 0 {
        0
    } else {
        last_step_total(adj, s, w, (m - 1) as nat) + last_step_paths(adj, s, w, (m - 1) as usize)
    }
}

/// Sum of `last_step_paths` over the vertices below `m` that `done` lists.
pub open spec fn done_sum(adj: Seq<Seq<usize>>, s: usize, w: usize, done: Seq<usize>, m: nat) -> nat
    decreases m,
{
    if m == 0 {
        0
    } else {
        done_sum(adj, s, w, done, (m - 1) as nat) + if done.contains((m - 1) as usize) {
            last_step_paths(adj, s, w, (m - 1) as usize)
        } else {
            0
        }
    }
}

/// Counting in one more entry of a list.
proof fn lemma_occurrences_take(l: Seq<usize>, j: int, x: usize)
    requires
        0 <= j < l.len(),
    ensures
        occurrences(l.take(j + 1), x) == occurrences(l.take(j), x) + if l[j] == x {
            1nat
        } else {
            0nat
        },
{
    assert(l.take(j + 1).drop_last() =~= l.take(j));
}

/// A positive walk count witnesses a walk.
proof fn lemma_walks_via_positive(adj: Seq<Seq<usize>>, s: usize, w: usize, k: nat, m: nat)
    requires
        m <= adj.len() <= usize::MAX,
        walks_via(adj, s, w, k, m) > 0,
    ensures
        walk_of_len(adj, s, w, k),
    decreases k, m,
{
    if k == 0 {
        lemma_walk_zero(adj, s);
    } else if m > 0 {
        let u = (m - 1) as usize;
        let a = walks_via(adj, s, u, (k - 1) as nat, adj.len());
        let b = occurrences(adj[m - 1], w);
        if walks_via(adj, s, w, k, (m - 1) as nat) > 0 {
            lemma_walks_via_positive(adj, s, w, k, (m - 1) as nat);
        } else {
            assert(a * b > 0);
            assert(a > 0 && b > 0) by (nonlinear_arith)
                requires
                    a * b > 0,
            ;
            lemma_walks_via_positive(adj, s, u, (k - 1) as nat, adj.len());
            lemma_occurrences_contains(adj[m - 1], w);
            assert(has_edge(adj, u, w));
            lemma_walk_step(adj, s, u, w, (k - 1) as nat);
        }
    }
}

/// A vertex at distance zero is the source.
proof fn lemma_distance_zero(adj: Seq<Seq<usize>>, s: usize, w: usize)
    requires
        shortest_distance(adj, s, w) == Some(0nat),
    ensures
        w == s,
{
    lemma_shortest_is_least(adj, s, w);
    let p = choose|p: Seq<usize>| #[trigger] crate::walks::walk_with(adj, p, s, w, 0);
}

/// Walks of the shortest length into `w`, grouped by their next-to-last
/// vertex: each group is counted by `last_step_paths`.
proof fn lemma_walks_via_last_step_paths(adj: Seq<Seq<usize>>, s: usize, w: usize, m: nat)
    requires
        entries_in_range(adj),
        m <= adj.len() <= usize::MAX,
        shortest_distance(adj, s, w) matches Some(d) && d > 0,
    ensures
        walks_via(adj, s, w, shortest_distance(adj, s, w)->0, m) == last_step_total(adj, s, w, m),
    decreases m,
{
    let d = shortest_distance(adj, s, w)->0;
    if m > 0 {
        lemma_walks_via_last_step_paths(adj, s, w, (m - 1) as nat);
        let u = (m - 1) as usize;
        let c = walks_via(adj, s, u, (d - 1) as nat, adj.len());
        let o = occurrences(adj[m - 1], w);
        assert(adj[u as int].take(adj[u as int].len() as int) =~= adj[u as int]);
        assert(walks_via(adj, s, w, d, m) == walks_via(adj, s, w, d, (m - 1) as nat) + c * o);
        assert(last_step_total(adj, s, w, m) == last_step_total(adj, s, w, (m - 1) as nat)
            + last_step_paths(adj, s, w, u));
        if o == 0 {
            let pc = path_count(adj, s, u);
            let pm = pred_mult(adj, s, u, w);
            assert(pm == 0);
            assert(c * o == 0 && pc * pm == 0) by (nonlinear_arith)
                requires
                    o == 0,
                    pm == 0,
            ;
        }
        if o > 0 {
            lemma_occurrences_contains(adj[m - 1], w);
            assert(has_edge(adj, u, w));
            match shortest_distance(adj, s, u) {
                Some(a) => {
                    lemma_shortest_is_least(adj, s, u);
                    if a + 1 < d {
                        lemma_walk_step(adj, s, u, w, a);
                        lemma_shortest_le(adj, s, w, a + 1);
                    } else if a + 1 > d {
                        if c > 0 {
                            lemma_walks_via_positive(adj, s, u, (d - 1) as nat, adj.len());
                        }
                        assert(c == 0);
                        let pc = path_count(adj, s, u);
                        let pm = pred_mult(adj, s, u, w);
                        assert(pm == 0);
                        assert(c * o == 0 && pc * pm == 0) by (nonlinear_arith)
                            requires
                                c == 0,
                                pm == 0,
                        ;
                    } else {
                        assert(pred_mult(adj, s, u, w) == o);
                        assert(path_count(adj, s, u) == c);
                    }
                },
                None => {
                    if c > 0 {
                        lemma_walks_via_positive(adj, s, u, (d - 1) as nat, adj.len());
                        lemma_shortest_le(adj, s, u, (d - 1) as nat);
                    }
                    assert(c == 0);
                    let pc = path_count(adj, s, u);
                    assert(pc == 0);
                    assert(c * o == 0 && pc * pred_mult(adj, s, u, w) == 0) by (nonlinear_arith)
                        requires
                            c == 0,
                            pc == 0,
                    ;
                },
            }
        }
    }
}

/// The number of shortest paths to a vertex other than the source sums the
/// counts of all vertices.
proof fn lemma_path_count_sum(adj: Seq<Seq<usize>>, s: usize, w: usize)
    requires
        entries_in_range(adj),
        adj.len() <= usize::MAX,
        shortest_distance(adj, s, w) is Some,
        w != s,
    ensures
        path_count(adj, s, w) == last_step_total(adj, s, w, adj.len()),
{
    if shortest_distance(adj, s, w) == Some(0nat) {
        lemma_distance_zero(adj, s, w);
    }
    lemma_walks_via_last_step_paths(adj, s, w, adj.len());
}

/// Adding a vertex to `done` adds its count.
proof fn lemma_done_sum_push(
    adj: Seq<Seq<usize>>,
    s: usize,
    w: usize,
    done: Seq<usize>,
    v: usize,
    m: nat,
)
    requires
        !done.contains(v),
        v < m <= usize::MAX,
    ensures
        done_sum(adj, s, w, done.push(v), m) == done_sum(adj, s, w, done, m) + last_step_paths(adj, s, w, v),
    decreases m,
{
    let u = (m - 1) as usize;
    lemma_push_contains(done, v, u);
    if v < m - 1 {
        lemma_done_sum_push(adj, s, w, done, v, (m - 1) as nat);
    } else {
        assert forall|x: usize| x < m - 1 implies (done.contains(x) <==> done.push(v).contains(x)) by {
            lemma_push_contains(done, v, x);
        }
        lemma_done_sum_same(adj, s, w, done, done.push(v), (m - 1) as nat);
    }
}

/// Nothing is done yet: the sum is zero.
proof fn lemma_done_sum_empty(adj: Seq<Seq<usize>>, s: usize, w: usize, m: nat)
    ensures
        done_sum(adj, s, w, Seq::<usize>::empty(), m) == 0,
    decreases m,
{
    if m > 0 {
        lemma_done_sum_empty(adj, s, w, (m - 1) as nat);
    }
}

/// Two lists that agree on the vertices below `m` give the same sum.
proof fn lemma_done_sum_same(
    adj: Seq<Seq<usize>>,
    s: usize,
    w: usize,
    d1: Seq<usize>,
    d2: Seq<usize>,
    m: nat,
)
    requires
        forall|u: usize| u < m ==> (d1.contains(u) <==> d2.contains(u)),
    ensures
        done_sum(adj, s, w, d1, m) == done_sum(adj, s, w, d2, m),
    decreases m,
{
    if m > 0 {
        lemma_done_sum_same(adj, s, w, d1, d2, (m - 1) as nat);
    }
}

/// A partial sum is at most the full sum; it is the full sum once every
/// counted vertex is done.
proof fn lemma_done_sum_bound(adj: Seq<Seq<usize>>, s: usize, w: usize, done: Seq<usize>, m: nat)
    ensures
        done_sum(adj, s, w, done, m) <= last_step_total(adj, s, w, m),
        (forall|u: usize| u < m && last_step_paths(adj, s, w, u) > 0 ==> done.contains(u)) ==> done_sum(
            adj,
            s,
            w,
            done,
            m,
        ) == last_step_total(adj, s, w, m),
    decreases m,
{
    if m > 0 {
        lemma_done_sum_bound(adj, s, w, done, (m - 1) as nat);
    }
}

/// Counting in a prefix of a list counts at most as often as in the whole list.
proof fn lemma_occurrences_take_le(l: Seq<usize>, j: int, x: usize)
    requires
        0 <= j <= l.len(),
    ensures
        occurrences(l.take(j), x) <= occurrences(l, x),
    decreases l.len() - j,
{
    if j < l.len() {
        lemma_occurrences_take(l, j, x);
        lemma_occurrences_take_le(l, j + 1, x);
    } else {
        assert(l.take(j) =~= l);
    }
}

/// A vertex with a distance from a source inside the graph is inside the graph.
proof fn lemma_reached_in_range(adj: Seq<Seq<usize>>, s: usize, u: usize)
    requires
        entries_in_range(adj),
        s < adj.len(),
        shortest_distance(adj, s, u) is Some,
    ensures
        u < adj.len(),
{
    lemma_shortest_is_least(adj, s, u);
    let d = shortest_distance(adj, s, u)->0;
    if d == 0 {
        lemma_distance_zero(adj, s, u);
    } else {
        let x = lemma_walk_last_step(adj, s, u, d);
        let c = choose|c: int| 0 <= c < adj[x as int].len() && adj[x as int][c] == u;
    }
}

/// Nothing precedes the source on a shortest path from it.
proof fn lemma_total_to_source(adj: Seq<Seq<usize>>, s: usize, m: nat)
    requires
        shortest_distance(adj, s, s) == Some(0nat),
    ensures
        last_step_total(adj, s, s, m) == 0,
    decreases m,
{
    if m > 0 {
        lemma_total_to_source(adj, s, (m - 1) as nat);
        let u = (m - 1) as usize;
        let pc = path_count(adj, s, u);
        assert(pred_mult(adj, s, u, s) == 0);
        assert(pc * 0 == 0) by (nonlinear_arith);
    }
}

/// Nothing precedes an unreachable vertex.
proof fn lemma_total_to_unreached(adj: Seq<Seq<usize>>, s: usize, w: usize, m: nat)
    requires
        shortest_distance(adj, s, w) is None,
    ensures
        last_step_total(adj, s, w, m) == 0,
    decreases m,
{
    if m > 0 {
        lemma_total_to_unreached(adj, s, w, (m - 1) as nat);
        let u = (m - 1) as usize;
        let pc = path_count(adj, s, u);
        assert(pred_mult(adj, s, u, w) == 0);
        assert(pc * 0 == 0) by (nonlinear_arith);
    }
}

/// `k` copies of `u`.
pub open spec fn copies(u: usize, k: nat) -> Seq<usize> {
    Seq::new(k, |_i: int| u)
}

/// The predecessors of `w` in the order `visited` meets them: each vertex
/// of `visited` in turn, repeated as often as it precedes `w`.
pub open spec fn pred_list(adj: Seq<Seq<usize>>, s: usize, visited: Seq<usize>, w: usize) -> Seq<usize>
    decreases visited.len(),
{
    if visited.len() == 0 {
        Seq::empty()
    } else {
        pred_list(adj, s, visited.drop_last(), w) + copies(
            visited.last(),
            pred_mult(adj, s, visited.last(), w),
        )
    }
}

/// `order` lists every vertex reachable from `s` exactly once, starting
/// with `s`, by nondecreasing distance from `s`, in breadth-first order.
pub open spec fn visit_order(adj: Seq<Seq<usize>>, s: usize, order: Seq<usize>) -> bool {
    &&& in_bfs_order(adj, order)
    &&& order.len() >= 1
    &&& order[0] == s
    &&& forall|i: int| 0 <= i < order.len() ==> #[trigger] order[i] < adj.len()
    &&& forall|i: int, j: int| 0 <= i < j < order.len() ==> #[trigger] order[i] != #[trigger] order[j]
    &&& forall|v: usize|
        v < adj.len() ==> (#[trigger] order.contains(v) <==> shortest_distance(adj, s, v) is Some)
    &&& forall|i: int, j: int|
        0 <= i <= j < order.len() ==> shortest_distance(adj, s, #[trigger] order[i])->0
            <= shortest_distance(adj, s, #[trigger] order[j])->0
}

/// The shortest-path structure Brandes' algorithm builds from one source.
pub struct ShortestPaths {
    /// The reachable vertices in the order breadth-first search visits them.
    pub order: Vec<usize>,
    /// `predecessors[w]` lists each vertex one step closer to the source
    /// that lists `w`, once per listing.
    pub predecessors: Vec<Vec<usize>>,
    /// `sigma[w]` is the number of shortest paths from the source to `w`.
    pub sigma: Vec<usize>,
}

/// `sp` is the shortest-path structure of `adj` from `s`.
pub open spec fn describes(adj: Seq<Seq<usize>>, s: usize, sp: ShortestPaths) -> bool {
    &&& visit_order(adj, s, sp.order@)
    &&& sp.sigma@.len() == adj.len()
    &&& forall|w: int| 0 <= w < adj.len() ==> #[trigger] sp.sigma@[w] == path_count(adj, s, w as usize)
    &&& sp.predecessors@.len() == adj.len()
    &&& forall|w: int, u: usize|
        0 <= w < adj.len() ==> #[trigger] occurrences(sp.predecessors@[w]@, u) == pred_mult(
            adj,
            s,
            u,
            w as usize,
        )
    &&& forall|w: int|
        0 <= w < adj.len() ==> #[trigger] sp.predecessors@[w]@ == pred_list(
            adj,
            s,
            sp.order@,
            w as usize,
        )
    &&& forall|w: int, k: int|
        0 <= w < adj.len() && 0 <= k < sp.predecessors@[w]@.len() ==> #[trigger] sp.predecessors@[w]@[k]
            < adj.len()
}

/// Breadth-first search from `source` that also counts shortest paths and
/// records predecessors, as the first phase of Brandes' algorithm does.
/// Returns `None` exactly when some vertex has more shortest paths from
/// `source` than a `usize` holds.
pub fn shortest_paths(graph: &Graph, source: usize) -> (r: Option<ShortestPaths>)
    requires
        graph.wf(),
        source < graph.num_vertices(),
    ensures
        r is None <==> exists|w: usize|
            w < graph.num_vertices() && #[trigger] path_count(graph.adj_view(), source, w)
                > usize::MAX,
        r matches Some(sp) ==> describes(graph.adj_view(), source, sp),
{
    let ghost adj = graph.adj_view();
    let ghost s = source;
    let n = graph.vertex_count();
    let (dist, order) = bfs_visit(graph, source);
    proof {
        assert forall|v: usize| v < adj.len() implies (#[trigger] order@.contains(v)
            <==> shortest_distance(adj, s, v) is Some) by {
            assert(lift(dist@[v as int]) == shortest_distance(adj, s, v));
            if order@.contains(v) {
                let i = choose|i: int| 0 <= i < order@.len() && order@[i] == v;
                assert(order@[i] < n && dist@[order@[i] as int] is Some);
            }
            if dist@[v as int] is Some {
                let i = choose|i: int| 0 <= i < order@.len() && #[trigger] order@[i] == v;
            }
        }
        assert forall|i: int, j: int|
            0 <= i <= j < order@.len() implies shortest_distance(adj, s, #[trigger] order@[i])->0
            <= shortest_distance(adj, s, #[trigger] order@[j])->0 by {
            assert(lift(dist@[order@[i] as int]) == shortest_distance(adj, s, order@[i]));
            assert(lift(dist@[order@[j] as int]) == shortest_distance(adj, s, order@[j]));
        }
        assert(visit_order(adj, s, order@));
        lemma_walk_zero(adj, s);
        crate::walks::lemma_shortest_unique(adj, s, s, 0);
        assert(path_count(adj, s, s) == 1);
    }
    let mut sigma: Vec<usize> = Vec::new();
    let mut preds: Vec<Vec<usize>> = Vec::new();
    let mut k: usize = 0;
    while k < n
        invariant
            s == source,
            k <= n,
            sigma@.len() == k,
            preds@.len() == k,
            forall|w: int| 0 <= w < k ==> #[trigger] sigma@[w] == if w == s {
                1usize
            } else {
                0usize
            },
            forall|w: int| 0 <= w < k ==> #[trigger] preds@[w]@.len() == 0,
        decreases n - k,
    {
        if k == source {
            sigma.push(1);
        } else {
            sigma.push(0);
        }
        preds.push(Vec::new());
        k = k + 1;
    }
    proof {
        assert(order@.take(0) =~= Seq::<usize>::empty());
        assert forall|w: int| 0 <= w < n implies #[trigger] sigma@[w] == (if w == s {
            1nat
        } else {
            0nat
        }) + done_sum(adj, s, w as usize, order@.take(0), n as nat) by {
            lemma_done_sum_empty(adj, s, w as usize, n as nat);
        }
        assert forall|w: int| 0 <= w < n implies #[trigger] preds@[w]@ == pred_list(
            adj,
            s,
            order@.take(0),
            w as usize,
        ) by {
            assert(preds@[w]@ =~= Seq::<usize>::empty());
        }
    }
    let mut i: usize = 0;
    while i < order.len()
        invariant
            graph.wf(),
            adj == graph.adj_view(),
            n == adj.len(),
            s == source,
            s < n,
            dist@.len() == n,
            forall|t: int|
                0 <= t < n ==> #[trigger] lift(dist@[t]) == shortest_distance(adj, s, t as usize),
            forall|t: int| 0 <= t < n && #[trigger] dist@[t] is Some ==> dist@[t]->0 < n,
            visit_order(adj, s, order@),
            path_count(adj, s, s) == 1,
            shortest_distance(adj, s, s) == Some(0nat),
            i <= order@.len(),
            sigma@.len() == n,
            preds@.len() == n,
            forall|w: int|
                0 <= w < n ==> #[trigger] sigma@[w] == (if w == s {
                    1nat
                } else {
                    0nat
                }) + done_sum(adj, s, w as usize, order@.take(i as int), n as nat),
            forall|w: int, u: usize|
                0 <= w < n ==> #[trigger] occurrences(preds@[w]@, u) == if order@.take(
                    i as int,
                ).contains(u) {
                    pred_mult(adj, s, u, w as usize)
                } else {
                    0
                },
            forall|w: int|
                0 <= w < n ==> #[trigger] preds@[w]@ == pred_list(
                    adj,
                    s,
                    order@.take(i as int),
                    w as usize,
                ),
            forall|w: int, k: int|
                0 <= w < n && 0 <= k < preds@[w]@.len() ==> #[trigger] preds@[w]@[k] < n,
        decreases order@.len() - i,
    {
        let v = order[i];
        let ghost done = order@.take(i as int);
        let dv = match dist[v] {
            Some(d) => d,
            None => 0,
        };
        proof {
            assert(order@[i as int] < n);
            assert(order@.contains(v));
            assert(lift(dist@[v as int]) == shortest_distance(adj, s, v));
            assert(!done.contains(v)) by {
                if done.contains(v) {
                    let p = choose|p: int| 0 <= p < done.len() && done[p] == v;
                    assert(order@[p] == order@[i as int]);
                }
            }
            if v == s {
                lemma_total_to_source(adj, s, n as nat);
                lemma_done_sum_bound(adj, s, s, done, n as nat);
            } else {
                assert forall|u: usize|
                    u < n && last_step_paths(adj, s, v, u) > 0 implies done.contains(u) by {
                    let pc = path_count(adj, s, u);
                    let pm = pred_mult(adj, s, u, v);
                    assert(pm > 0) by (nonlinear_arith)
                        requires
                            pc * pm > 0,
                    ;
                    assert(order@.contains(u));
                    let p = choose|p: int| 0 <= p < order@.len() && order@[p] == u;
                    if p >= i {
                        assert(shortest_distance(adj, s, order@[i as int])->0 <= shortest_distance(
                            adj,
                            s,
                            order@[p],
                        )->0);
                    }
                    assert(done[p] == u);
                }
                lemma_done_sum_bound(adj, s, v, done, n as nat);
                lemma_path_count_sum(adj, s, v);
            }
        }
        let sv = sigma[v];
        let nbrs = graph.neighbors(v);
        proof {
            assert(adj[v as int].take(0) =~= Seq::<usize>::empty());
            assert(sv * 0 == 0) by (nonlinear_arith);
            assert forall|w: int| 0 <= w < n implies #[trigger] pred_mult_prefix(adj, s, v, w as usize, 0)
                == 0 by {
                assert(adj[v as int].take(0) =~= Seq::<usize>::empty());
            }
            assert forall|w: int| 0 <= w < n implies #[trigger] preds@[w]@ == pred_list(
                adj,
                s,
                done,
                w as usize,
            ) + copies(v, pred_mult_prefix(adj, s, v, w as usize, 0)) by {
                assert(pred_mult_prefix(adj, s, v, w as usize, 0) == 0);
                assert(preds@[w]@ =~= pred_list(adj, s, done, w as usize) + copies(v, 0));
            }
        }
        let mut j: usize = 0;
        while j < nbrs.len()
            invariant
                graph.wf(),
                adj == graph.adj_view(),
                n == adj.len(),
                s == source,
                s < n,
                dist@.len() == n,
                forall|t: int|
                    0 <= t < n ==> #[trigger] lift(dist@[t]) == shortest_distance(adj, s, t as usize),
                forall|t: int| 0 <= t < n && #[trigger] dist@[t] is Some ==> dist@[t]->0 < n,
                visit_order(adj, s, order@),
                path_count(adj, s, s) == 1,
                shortest_distance(adj, s, s) == Some(0nat),
                i < order@.len(),
                v == order@[i as int],
                v < n,
                done == order@.take(i as int),
                !done.contains(v),
                dist@[v as int] == Some(dv),
                sv == path_count(adj, s, v),
                nbrs@ == adj[v as int],
                j <= nbrs@.len(),
                sigma@.len() == n,
                preds@.len() == n,
                forall|w: int|
                    0 <= w < n ==> #[trigger] sigma@[w] == (if w == s {
                        1nat
                    } else {
                        0nat
                    }) + done_sum(adj, s, w as usize, done, n as nat) + sv * pred_mult_prefix(
                        adj,
                        s,
                        v,
                        w as usize,
                        j as int,
                    ),
                forall|w: int, u: usize|
                    0 <= w < n ==> #[trigger] occurrences(preds@[w]@, u) == if done.contains(u) {
                        pred_mult(adj, s, u, w as usize)
                    } else if u == v {
                        pred_mult_prefix(adj, s, v, w as usize, j as int)
                    } else {
                        0
                    },
                forall|w: int|
                    0 <= w < n ==> #[trigger] preds@[w]@ == pred_list(adj, s, done, w as usize)
                        + copies(v, pred_mult_prefix(adj, s, v, w as usize, j as int)),
                forall|w: int, k: int|
                    0 <= w < n && 0 <= k < preds@[w]@.len() ==> #[trigger] preds@[w]@[k] < n,
            decreases nbrs@.len() - j,
        {
            let x = nbrs[j];
            let ghost preds_before = preds@;
            proof {
                assert(adj[v as int][j as int] == x);
                assert(x < n);
                assert forall|w: usize| w < n implies pred_mult_prefix(adj, s, v, w, j + 1)
                    == pred_mult_prefix(adj, s, v, w, j as int) + if x == w
                    && shortest_distance(adj, s, w) == Some((dv + 1) as nat) {
                    1nat
                } else {
                    0nat
                } by {
                    assert(lift(dist@[v as int]) == shortest_distance(adj, s, v));
                    lemma_occurrences_take(adj[v as int], j as int, w);
                }
                assert(lift(dist@[x as int]) == shortest_distance(adj, s, x));
            }
            let step = match dist[x] {
                Some(dx) => dx == dv + 1,
                None => false,
            };
            if step {
                let old_sx = sigma[x];
                match old_sx.checked_add(sv) {
                    Some(t) => {
                        sigma.set(x, t);
                    },
                    None => {
                        proof {
                            let pm = pred_mult(adj, s, v, x);
                            let pp = pred_mult_prefix(adj, s, v, x, j + 1);
                            lemma_occurrences_take_le(adj[v as int], j + 1, x);
                            assert(adj[v as int].take(adj[v as int].len() as int) =~= adj[v as int]);
                            assert(pp <= pm);
                            assert(sv * pp <= sv * pm) by (nonlinear_arith)
                                requires
                                    pp <= pm,
                            ;
                            assert(sv * pp == sv * pred_mult_prefix(adj, s, v, x, j as int) + sv)
                                by (nonlinear_arith)
                                requires
                                    pp == pred_mult_prefix(adj, s, v, x, j as int) + 1,
                            ;
                            if x == s {
                                assert(shortest_distance(adj, s, s) == Some(0nat));
                            }
                            lemma_done_sum_push(adj, s, x, done, v, n as nat);
                            lemma_done_sum_bound(adj, s, x, done.push(v), n as nat);
                            lemma_path_count_sum(adj, s, x);
                            assert(path_count(adj, s, x) > usize::MAX);
                        }
                        return None;
                    },
                }
                preds[x].push(v);
            }
            proof {
                assert forall|w: int|
                    0 <= w < n implies #[trigger] sigma@[w] == (if w == s {
                        1nat
                    } else {
                        0nat
                    }) + done_sum(adj, s, w as usize, done, n as nat) + sv * pred_mult_prefix(
                        adj,
                        s,
                        v,
                        w as usize,
                        j + 1,
                    ) by {
                    let a = pred_mult_prefix(adj, s, v, w as usize, j as int);
                    assert(sv * (a + 1) == sv * a + sv) by (nonlinear_arith);
                }
                assert forall|w: int, u: usize|
                    0 <= w < n implies #[trigger] occurrences(preds@[w]@, u) == if done.contains(u) {
                        pred_mult(adj, s, u, w as usize)
                    } else if u == v {
                        pred_mult_prefix(adj, s, v, w as usize, j + 1)
                    } else {
                        0
                    } by {
                    if step && w == x {
                        lemma_occurrences_push(preds_before[w]@, v, u);
                    }
                }
                assert forall|w: int| 0 <= w < n implies #[trigger] preds@[w]@ == pred_list(
                    adj,
                    s,
                    done,
                    w as usize,
                ) + copies(v, pred_mult_prefix(adj, s, v, w as usize, j + 1)) by {
                    if step && w == x {
                        let k = pred_mult_prefix(adj, s, v, w as usize, j as int);
                        assert(copies(v, k + 1) =~= copies(v, k).push(v));
                        assert(preds@[w]@ =~= pred_list(adj, s, done, w as usize) + copies(
                            v,
                            k + 1,
                        ));
                    }
                }
            }
            j = j + 1;
        }
        proof {
            let done2 = order@.take(i + 1);
            assert(done2 =~= done.push(v));
            assert(adj[v as int].take(adj[v as int].len() as int) =~= adj[v as int]);
            assert forall|u: usize| #[trigger] done2.contains(u) <==> (done.contains(u) || u == v) by {
                lemma_push_contains(done, v, u);
            }
            assert forall|w: int|
                0 <= w < n implies #[trigger] sigma@[w] == (if w == s {
                    1nat
                } else {
                    0nat
                }) + done_sum(adj, s, w as usize, done2, n as nat) by {
                lemma_done_sum_push(adj, s, w as usize, done, v, n as nat);
            }
            assert forall|w: int| 0 <= w < n implies #[trigger] preds@[w]@ == pred_list(
                adj,
                s,
                done2,
                w as usize,
            ) by {
                assert(done2.drop_last() =~= done);
            }
        }
        i = i + 1;
    }
    proof {
        assert(order@.take(i as int) =~= order@);
        assert forall|w: int| 0 <= w < n implies #[trigger] sigma@[w] == path_count(
            adj,
            s,
            w as usize,
        ) by {
            let wu = w as usize;
            if wu == s {
                lemma_total_to_source(adj, s, n as nat);
                lemma_done_sum_bound(adj, s, s, order@, n as nat);
            } else if shortest_distance(adj, s, wu) is Some {
                assert forall|u: usize|
                    u < n && last_step_paths(adj, s, wu, u) > 0 implies order@.contains(u) by {
                    let pc = path_count(adj, s, u);
                    let pm = pred_mult(adj, s, u, wu);
                    assert(pm > 0) by (nonlinear_arith)
                        requires
                            pc * pm > 0,
                    ;
                }
                lemma_done_sum_bound(adj, s, wu, order@, n as nat);
                lemma_path_count_sum(adj, s, wu);
            } else {
                lemma_total_to_unreached(adj, s, wu, n as nat);
                lemma_done_sum_bound(adj, s, wu, order@, n as nat);
            }
        }
        assert forall|w: usize| w < n implies #[trigger] path_count(adj, s, w) <= usize::MAX by {
            assert(sigma@[w as int] == path_count(adj, s, w));
        }
        assert forall|w: int, u: usize| 0 <= w < n implies #[trigger] occurrences(preds@[w]@, u)
            == pred_mult(adj, s, u, w as usize) by {
            if !order@.contains(u) {
                if shortest_distance(adj, s, u) is Some {
                    lemma_reached_in_range(adj, s, u);
                }
            }
        }
    }
    Some(ShortestPaths { order, predecessors: preds, sigma })
}

/// Every vertex has exactly one shortest path to itself.
pub proof fn lemma_source_path_count(graph: &Graph, s: usize)
    requires
        graph.wf(),
    ensures
        path_count(graph.adj_view(), s, s) == 1,
{
    lemma_walk_zero(graph.adj_view(), s);
    crate::walks::lemma_shortest_unique(graph.adj_view(), s, s, 0);
}

/// Brandes' counting identity: the number of shortest paths from `s` to a
/// reachable `w != s` is the sum, over every vertex `u`, of the number of
/// shortest paths to `u` times how often `u` precedes `w`.
pub proof fn lemma_path_count_recurrence(graph: &Graph, s: usize, w: usize)
    requires
        graph.wf(),
        w != s,
        shortest_distance(graph.adj_view(), s, w) is Some,
    ensures
        path_count(graph.adj_view(), s, w) == last_step_total(
            graph.adj_view(),
            s,
            w,
            graph.num_vertices(),
        ),
{
    lemma_path_count_sum(graph.adj_view(), s, w);
}

} // verus!
