//! Distances from breadth-first search, and the measures built on them:
//! eccentricity, radius and diameter, distance sums and the closeness
//! ranking.

use vstd::prelude::*;

use crate::walks::{
    has_edge, lemma_shortest_unique, lemma_unreachable,
    lemma_walk_last_step, lemma_walk_step, lemma_walk_zero, lift, shortest_distance, walk_of_len,
};
use crate::{entries_in_range, Graph};

verus! {

/// Number of entries that hold a distance.
pub open spec fn count_some(s: Seq<Option<usize>>) -> nat
    decreases s.len(),
{
    if s.len() == 0 {
        0
    } else {
        count_some(s.drop_last()) + if s.last() is Some {
            1nat
        } else {
            0nat
        }
    }
}

/// A sequence holds at most as many distances as entries, and fewer when one is missing.
proof fn lemma_count_some_bound(s: Seq<Option<usize>>, i: int)
    requires
        0 <= i < s.len(),
        s[i] is None,
    ensures
        count_some(s) < s.len(),
    decreases s.len(),
{
    if i < s.len() - 1 {
        lemma_count_some_bound(s.drop_last(), i);
    } else {
        lemma_count_some_le(s.drop_last());
    }
}

proof fn lemma_count_some_le(s: Seq<Option<usize>>)
    ensures
        count_some(s) <= s.len(),
    decreases s.len(),
{
    if s.len() > 0 {
        lemma_count_some_le(s.drop_last());
    }
}

/// Filling one missing entry raises the count by one.
proof fn lemma_count_some_fill(s: Seq<Option<usize>>, i: int, d: usize)
    requires
        0 <= i < s.len(),
        s[i] is None,
    ensures
        count_some(s.update(i, Some(d))) == count_some(s) + 1,
    decreases s.len(),
{
    let t = s.update(i, Some(d));
    if i < s.len() - 1 {
        assert(t.drop_last() =~= s.drop_last().update(i, Some(d)));
        lemma_count_some_fill(s.drop_last(), i, d);
    } else {
        assert(t.drop_last() =~= s.drop_last());
    }
}

/// All entries missing: the count is zero.
proof fn lemma_count_some_none(s: Seq<Option<usize>>)
    requires
        forall|i: int| 0 <= i < s.len() ==> #[trigger] s[i] is None,
    ensures
        count_some(s) == 0,
    decreases s.len(),
{
    if s.len() > 0 {
        lemma_count_some_none(s.drop_last());
    }
}

/// If every listed edge out of a vertex with a distance leads to a vertex
/// with a distance at most one larger, then every walk from `s` ends at a
/// vertex whose distance is at most the walk's length.
proof fn lemma_bfs_complete(
    adj: Seq<Seq<usize>>,
    s: usize,
    dist: Seq<Option<usize>>,
    w: usize,
    k: nat,
)
    requires
        dist.len() == adj.len(),
        s < adj.len(),
        dist[s as int] == Some(0usize),
        forall|u: usize, x: usize|
            u < adj.len() && dist[u as int] is Some && #[trigger] has_edge(adj, u, x) ==> x
                < adj.len() && dist[x as int] is Some && dist[x as int]->0 <= dist[u as int]->0
                + 1,
        walk_of_len(adj, s, w, k),
    ensures
        w < adj.len(),
        dist[w as int] is Some,
        dist[w as int]->0 <= k,
    decreases k,
{
    if k > 0 {
        let u = lemma_walk_last_step(adj, s, w, k);
        lemma_bfs_complete(adj, s, dist, u, (k - 1) as nat);
    }
}

/// `l[k]` is the first occurrence of `x` in `l`.
pub open spec fn first_at(l: Seq<usize>, x: usize, k: int) -> bool {
    &&& 0 <= k < l.len()
    &&& l[k] == x
    &&& forall|q: int| 0 <= q < k ==> l[q] != x
}

/// Breadth-first search meets `order[i]` while scanning the list of
/// `order[p]`, at its position `k`: `order[p]` is the first vertex of
/// `order` to list `order[i]`, and `k` is where it first lists it.
pub open spec fn found_at(adj: Seq<Seq<usize>>, order: Seq<usize>, i: int, p: int, k: int) -> bool {
    &&& 0 <= p < i
    &&& first_at(adj[order[p] as int], order[i], k)
    &&& forall|q: int| 0 <= q < p ==> !adj[order[q] as int].contains(order[i])
}

/// Breadth-first search meets `order[i]` while scanning some earlier vertex's list.
pub open spec fn found(adj: Seq<Seq<usize>>, order: Seq<usize>, i: int) -> bool {
    exists|p: int, k: int| #[trigger] found_at(adj, order, i, p, k)
}

/// `order` is in breadth-first order: every vertex after the first is met
/// while scanning the list of an earlier one, and vertices come in the
/// order they are met (by scanning vertex, then by list position).
pub open spec fn in_bfs_order(adj: Seq<Seq<usize>>, order: Seq<usize>) -> bool {
    &&& forall|i: int| 1 <= i < order.len() ==> #[trigger] found(adj, order, i)
    &&& forall|i1: int, p1: int, k1: int, i2: int, p2: int, k2: int|
        1 <= i1 < i2 < order.len() && #[trigger] found_at(adj, order, i1, p1, k1) && #[trigger] found_at(
            adj,
            order,
            i2,
            p2,
            k2,
        ) ==> p1 < p2 || (p1 == p2 && k1 < k2)
}

/// Where breadth-first search meets a vertex is determined by the order.
proof fn lemma_found_at_unique(
    adj: Seq<Seq<usize>>,
    order: Seq<usize>,
    i: int,
    p1: int,
    k1: int,
    p2: int,
    k2: int,
)
    requires
        found_at(adj, order, i, p1, k1),
        found_at(adj, order, i, p2, k2),
    ensures
        p1 == p2,
        k1 == k2,
{
    if p1 < p2 {
        assert(adj[order[p1] as int][k1] == order[i]);
        assert(adj[order[p1] as int].contains(order[i]));
    }
    if p2 < p1 {
        assert(adj[order[p2] as int][k2] == order[i]);
        assert(adj[order[p2] as int].contains(order[i]));
    }
}

/// Breadth-first distances from `source`: entry `t` is the length of a
/// shortest walk from `source` to `t`, or `None` when `t` is unreachable.
pub fn bfs_distances(graph: &Graph, source: usize) -> (dist: Vec<Option<usize>>)
    requires
        graph.wf(),
        source < graph.num_vertices(),
    ensures
        dist@.len() == graph.num_vertices(),
        forall|t: int|
            0 <= t < dist@.len() ==> #[trigger] lift(dist@[t]) == shortest_distance(
                graph.adj_view(),
                source,
                t as usize,
            ),
        forall|t: int| 0 <= t < dist@.len() && #[trigger] dist@[t] is Some ==> dist@[t]->0 < dist@.len(),
{
    let (dist, _order) = bfs_visit(graph, source);
    dist
}

/// Breadth-first search from `source`: the distances, and the vertices in
/// the order the search visits them (each reachable vertex once, by
/// nondecreasing distance, starting with `source`).
pub(crate) fn bfs_visit(graph: &Graph, source: usize) -> (res: (Vec<Option<usize>>, Vec<usize>))
    requires
        graph.wf(),
        source < graph.num_vertices(),
    ensures
        res.0@.len() == graph.num_vertices(),
        forall|t: int|
            0 <= t < res.0@.len() ==> #[trigger] lift(res.0@[t]) == shortest_distance(
                graph.adj_view(),
                source,
                t as usize,
            ),
        forall|t: int|
            0 <= t < res.0@.len() && #[trigger] res.0@[t] is Some ==> res.0@[t]->0 < res.0@.len(),
        res.1@.len() >= 1,
        res.1@[0] == source,
        forall|i: int|
            0 <= i < res.1@.len() ==> #[trigger] res.1@[i] < graph.num_vertices()
                && res.0@[res.1@[i] as int] is Some,
        forall|v: int|
            0 <= v < graph.num_vertices() && #[trigger] res.0@[v] is Some ==> exists|i: int|
                0 <= i < res.1@.len() && #[trigger] res.1@[i] == v,
        forall|i: int, j: int|
            0 <= i < j < res.1@.len() ==> #[trigger] res.1@[i] != #[trigger] res.1@[j],
        forall|i: int, j: int|
            0 <= i <= j < res.1@.len() ==> res.0@[#[trigger] res.1@[i] as int]->0 <= res.0@[
            #[trigger] res.1@[j] as int]->0,
        in_bfs_order(graph.adj_view(), res.1@),
{
    let n = graph.vertex_count();
    let ghost adj = graph.adj_view();
    let ghost s = source;
    let mut dist: Vec<Option<usize>> = Vec::new();
    let mut i: usize = 0;
    while i < n
        invariant
            i <= n,
            dist@.len() == i,
            forall|k: int| 0 <= k < i ==> #[trigger] dist@[k] is None,
        decreases n - i,
    {
        dist.push(None);
        i = i + 1;
    }
    proof {
        lemma_count_some_none(dist@);
        lemma_count_some_fill(dist@, source as int, 0);
    }
    dist.set(source, Some(0));
    let mut order: Vec<usize> = Vec::new();
    order.push(source);
    let mut head: usize = 0;
    let ghost mut key: Seq<(int, int)> = seq![(0int, 0int)];
    proof {
        lemma_walk_zero(adj, s);
    }
    while head < order.len()
        invariant
            graph.wf(),
            adj == graph.adj_view(),
            n == adj.len(),
            s == source,
            s < n,
            dist@.len() == n,
            1 <= order@.len() <= n,
            head <= order@.len(),
            order@.len() == count_some(dist@),
            dist@[s as int] == Some(0usize),
            forall|i: int|
                0 <= i < order@.len() ==> #[trigger] order@[i] < n && dist@[order@[i] as int] is Some
                    && dist@[order@[i] as int]->0 <= i,
            forall|v: int|
                0 <= v < n && #[trigger] dist@[v] is Some ==> exists|i: int|
                    0 <= i < order@.len() && #[trigger] order@[i] == v,
            forall|i: int, j: int|
                0 <= i < j < order@.len() ==> #[trigger] order@[i] != #[trigger] order@[j],
            forall|i: int, j: int|
                0 <= i <= j < order@.len() ==> dist@[#[trigger] order@[i] as int]->0 <= dist@[
                #[trigger] order@[j] as int]->0,
            head < order@.len() ==> forall|j: int|
                0 <= j < order@.len() ==> dist@[#[trigger] order@[j] as int]->0 <= dist@[order@[
                head as int] as int]->0 + 1,
            forall|i: int, x: usize|
                0 <= i < head && #[trigger] has_edge(adj, order@[i], x) ==> dist@[x as int] is Some
                    && dist@[x as int]->0 <= dist@[order@[i] as int]->0 + 1,
            forall|v: int|
                0 <= v < n && #[trigger] dist@[v] is Some ==> walk_of_len(
                    adj,
                    s,
                    v as usize,
                    dist@[v]->0 as nat,
                ),
            key.len() == order@.len(),
            forall|i: int|
                1 <= i < order@.len() ==> #[trigger] found_at(adj, order@, i, key[i].0, key[i].1),
            forall|i1: int, i2: int|
                1 <= i1 < i2 < order@.len() ==> #[trigger] key[i1].0 < #[trigger] key[i2].0 || (
                key[i1].0 == key[i2].0 && key[i1].1 < key[i2].1),
            forall|i: int| 1 <= i < order@.len() ==> #[trigger] key[i].0 < head,
        decreases n - head,
    {
        let u = order[head];
        let du = match dist[u] {
            Some(d) => d,
            None => 0,
        };
        let nbrs = graph.neighbors(u);
        let mut j: usize = 0;
        while j < nbrs.len()
            invariant
                graph.wf(),
                adj == graph.adj_view(),
                n == adj.len(),
                s == source,
                s < n,
                dist@.len() == n,
                1 <= order@.len() <= n,
                head < order@.len(),
                u == order@[head as int],
                u < n,
                dist@[u as int] == Some(du),
                du <= head,
                nbrs@ == adj[u as int],
                j <= nbrs@.len(),
                order@.len() == count_some(dist@),
                dist@[s as int] == Some(0usize),
                forall|i: int|
                    0 <= i < order@.len() ==> #[trigger] order@[i] < n && dist@[order@[i] as int] is Some
                        && dist@[order@[i] as int]->0 <= i,
                forall|v: int|
                    0 <= v < n && #[trigger] dist@[v] is Some ==> exists|i: int|
                        0 <= i < order@.len() && #[trigger] order@[i] == v,
                forall|i: int, j: int|
                    0 <= i < j < order@.len() ==> #[trigger] order@[i] != #[trigger] order@[j],
                forall|i: int, j: int|
                    0 <= i <= j < order@.len() ==> dist@[#[trigger] order@[i] as int]->0 <= dist@[
                    #[trigger] order@[j] as int]->0,
                forall|j: int|
                    0 <= j < order@.len() ==> dist@[#[trigger] order@[j] as int]->0 <= du + 1,
                forall|i: int, x: usize|
                    0 <= i < head && #[trigger] has_edge(adj, order@[i], x) ==> dist@[x as int] is Some
                        && dist@[x as int]->0 <= dist@[order@[i] as int]->0 + 1,
                forall|jj: int|
                    0 <= jj < j ==> dist@[#[trigger] nbrs@[jj] as int] is Some && dist@[
                    nbrs@[jj] as int]->0 <= du + 1,
                forall|v: int|
                    0 <= v < n && #[trigger] dist@[v] is Some ==> walk_of_len(
                        adj,
                        s,
                        v as usize,
                        dist@[v]->0 as nat,
                    ),
                key.len() == order@.len(),
                forall|i: int|
                    1 <= i < order@.len() ==> #[trigger] found_at(adj, order@, i, key[i].0, key[i].1),
                forall|i1: int, i2: int|
                    1 <= i1 < i2 < order@.len() ==> #[trigger] key[i1].0 < #[trigger] key[i2].0 || (
                    key[i1].0 == key[i2].0 && key[i1].1 < key[i2].1),
                forall|i: int|
                    1 <= i < order@.len() ==> #[trigger] key[i].0 < head || (key[i].0 == head
                        && key[i].1 < j),
            decreases nbrs@.len() - j,
        {
            let w = nbrs[j];
            proof {
                assert(adj[u as int][j as int] == w);
                assert(w < n);
            }
            if dist[w].is_none() {
                proof {
                    lemma_count_some_bound(dist@, w as int);
                    lemma_count_some_fill(dist@, w as int, (du + 1) as usize);
                    assert(adj[u as int].contains(w));
                    assert(has_edge(adj, u, w));
                    lemma_walk_step(adj, s, u, w, du as nat);
                }
                let ghost old_dist = dist@;
                let ghost old_order = order@;
                proof {
                    assert forall|q: int| 0 <= q < j implies adj[u as int][q] != w by {
                        assert(nbrs@[q] == adj[u as int][q]);
                    }
                    assert forall|q: int| 0 <= q < head implies !adj[old_order[q] as int].contains(
                        w,
                    ) by {
                        if adj[old_order[q] as int].contains(w) {
                            assert(has_edge(adj, old_order[q], w));
                        }
                    }
                }
                dist.set(w, Some(du + 1));
                order.push(w);
                proof {
                    let ghost old_key = key;
                    key = key.push((head as int, j as int));
                    assert(found_at(adj, order@, old_order.len() as int, head as int, j as int));
                    assert forall|i: int|
                        1 <= i < order@.len() implies #[trigger] found_at(
                        adj,
                        order@,
                        i,
                        key[i].0,
                        key[i].1,
                    ) by {
                        if i < old_order.len() {
                            assert(found_at(adj, old_order, i, old_key[i].0, old_key[i].1));
                            assert forall|q: int| 0 <= q <= i implies order@[q] == old_order[q] by {}
                        }
                    }
                    assert forall|v: int|
                        0 <= v < n && #[trigger] dist@[v] is Some implies exists|i: int|
                            0 <= i < order@.len() && #[trigger] order@[i] == v by {
                        if v == w {
                            assert(order@[old_order.len() as int] == v);
                        } else {
                            assert(old_dist[v] is Some);
                            let i = choose|i: int|
                                0 <= i < old_order.len() && #[trigger] old_order[i] == v;
                            assert(order@[i] == v);
                        }
                    }
                    assert forall|i: int|
                        0 <= i < order@.len() implies #[trigger] order@[i] < n
                            && dist@[order@[i] as int] is Some && dist@[order@[i] as int]->0
                            <= i by {
                        if i < old_order.len() {
                            assert(old_order[i] == order@[i]);
                            assert(old_dist[old_order[i] as int] is Some);
                        }
                    }
                }
            }
            j = j + 1;
        }
        proof {
            assert forall|i: int| 1 <= i < order@.len() implies #[trigger] key[i].0 < head + 1 by {}
            assert forall|i: int, x: usize|
                0 <= i < head + 1 && #[trigger] has_edge(adj, order@[i], x) implies dist@[
                x as int] is Some && dist@[x as int]->0 <= dist@[order@[i] as int]->0 + 1 by {
                if i == head {
                    let k = choose|k: int| 0 <= k < adj[u as int].len() && adj[u as int][k] == x;
                    assert(nbrs@[k] == x);
                }
            }
        }
        head = head + 1;
    }
    proof {
        assert forall|u: usize, x: usize|
            u < adj.len() && dist@[u as int] is Some && #[trigger] has_edge(adj, u, x) implies x
                < adj.len() && dist@[x as int] is Some && dist@[x as int]->0 <= dist@[u as int]->0
                + 1 by {
            let i = choose|i: int| 0 <= i < order@.len() && #[trigger] order@[i] == u as int;
            assert(has_edge(adj, order@[i], x));
            let k = choose|k: int| 0 <= k < adj[u as int].len() && adj[u as int][k] == x;
            assert(entries_in_range(adj));
            assert(adj[u as int][k] < adj.len());
        }
        assert forall|t: int| 0 <= t < dist@.len() implies #[trigger] lift(dist@[t])
            == shortest_distance(adj, s, t as usize) by {
            if dist@[t] is Some {
                let d = dist@[t]->0;
                assert forall|j: nat| j < d implies !#[trigger] walk_of_len(adj, s, t as usize, j) by {
                    if walk_of_len(adj, s, t as usize, j) {
                        lemma_bfs_complete(adj, s, dist@, t as usize, j);
                    }
                }
                lemma_shortest_unique(adj, s, t as usize, d as nat);
            } else {
                assert forall|k: nat| !#[trigger] walk_of_len(adj, s, t as usize, k) by {
                    if walk_of_len(adj, s, t as usize, k) {
                        lemma_bfs_complete(adj, s, dist@, t as usize, k);
                    }
                }
                lemma_unreachable(adj, s, t as usize);
            }
        }
        assert forall|i: int| 1 <= i < order@.len() implies #[trigger] found(adj, order@, i) by {
            assert(found_at(adj, order@, i, key[i].0, key[i].1));
        }
        assert forall|i1: int, p1: int, k1: int, i2: int, p2: int, k2: int|
            1 <= i1 < i2 < order@.len() && #[trigger] found_at(adj, order@, i1, p1, k1)
                && #[trigger] found_at(adj, order@, i2, p2, k2) implies p1 < p2 || (p1 == p2 && k1
            < k2) by {
            lemma_found_at_unique(adj, order@, i1, p1, k1, key[i1].0, key[i1].1);
            lemma_found_at_unique(adj, order@, i2, p2, k2, key[i2].0, key[i2].1);
            assert(key[i1].0 < key[i2].0 || (key[i1].0 == key[i2].0 && key[i1].1 < key[i2].1));
        }
        assert forall|t: int| 0 <= t < dist@.len() && #[trigger] dist@[t] is Some implies dist@[t]->0
            < dist@.len() by {
            let i = choose|i: int| 0 <= i < order@.len() && #[trigger] order@[i] == t;
        }
    }
    (dist, order)
}

/// The larger of two optional values; a missing value gives way to a present one.
pub open spec fn max_opt(a: Option<nat>, b: Option<nat>) -> Option<nat> {
    match (a, b) {
        (Some(x), Some(y)) => Some(if x >= y { x } else { y }),
        (Some(x), None) => Some(x),
        (None, y) => y,
    }
}

/// The smaller of two optional values; a missing value gives way to a present one.
pub open spec fn min_opt(a: Option<nat>, b: Option<nat>) -> Option<nat> {
    match (a, b) {
        (Some(x), Some(y)) => Some(if x <= y { x } else { y }),
        (Some(x), None) => Some(x),
        (None, y) => y,
    }
}

/// Largest present entry, or `None` when no entry is present.
pub open spec fn max_present(s: Seq<Option<nat>>) -> Option<nat>
    decreases s.len(),
{
    if s.len() == 0 {
        None
    } else {
        max_opt(max_present(s.drop_last()), s.last())
    }
}

/// Smallest present entry, or `None` when no entry is present.
pub open spec fn min_present(s: Seq<Option<nat>>) -> Option<nat>
    decreases s.len(),
{
    if s.len() == 0 {
        None
    } else {
        min_opt(min_present(s.drop_last()), s.last())
    }
}

/// Sum of the present entries.
pub open spec fn sum_present(s: Seq<Option<nat>>) -> nat
    decreases s.len(),
{
    if s.len() == 0 {
        0
    } else {
        sum_present(s.drop_last()) + match s.last() {
            Some(d) => d,
            None => 0,
        }
    }
}

/// Shortest distances from `v` to every vertex.
pub open spec fn distance_row(adj: Seq<Seq<usize>>, v: usize) -> Seq<Option<nat>> {
    Seq::new(adj.len(), |t: int| shortest_distance(adj, v, t as usize))
}

/// Shortest distances from `v` to every other vertex; `v`'s own entry is left out.
pub open spec fn other_distances(adj: Seq<Seq<usize>>, v: usize) -> Seq<Option<nat>> {
    distance_row(adj, v).update(v as int, None)
}

/// Eccentricity of `v`: its largest distance to another vertex it reaches,
/// or `None` when it reaches no other vertex.
pub open spec fn eccentricity_of(adj: Seq<Seq<usize>>, v: usize) -> Option<nat> {
    max_present(other_distances(adj, v))
}

/// The eccentricity of every vertex.
pub open spec fn eccentricities(adj: Seq<Seq<usize>>) -> Seq<Option<nat>> {
    Seq::new(adj.len(), |v: int| eccentricity_of(adj, v as usize))
}

/// Sum of the distances from `v` to the vertices it reaches.
pub open spec fn distance_total(adj: Seq<Seq<usize>>, v: usize) -> nat {
    sum_present(distance_row(adj, v))
}

/// Closeness of `v` as a fraction `(numerator, denominator)`: `(n - 1) / total`
/// when the distance total is positive and there are at least two vertices,
/// and `0 / 1` otherwise.
pub open spec fn closeness_fraction(adj: Seq<Seq<usize>>, v: usize) -> (nat, nat) {
    let total = distance_total(adj, v);
    if total > 0 && adj.len() > 1 {
        ((adj.len() - 1) as nat, total)
    } else {
        (0, 1)
    }
}

/// Fraction `a` is strictly larger than fraction `b` (denominators positive).
pub open spec fn fraction_gt(a: (nat, nat), b: (nat, nat)) -> bool {
    a.0 * b.1 > b.0 * a.1
}

/// Largest present entry of a vector of distances.
fn max_of_present(s: &Vec<Option<usize>>) -> (r: Option<usize>)
    ensures
        lift(r) == max_present(s@.map_values(|o: Option<usize>| lift(o))),
{
    let ghost m = s@.map_values(|o: Option<usize>| lift(o));
    let mut best: Option<usize> = None;
    let mut i: usize = 0;
    while i < s.len()
        invariant
            i <= s@.len(),
            m == s@.map_values(|o: Option<usize>| lift(o)),
            lift(best) == max_present(m.take(i as int)),
        decreases s@.len() - i,
    {
        proof {
            assert(m.take(i + 1).drop_last() =~= m.take(i as int));
        }
        match s[i] {
            Some(d) => {
                match best {
                    Some(b) => {
                        if d >= b {
                            best = Some(d);
                        }
                    },
                    None => {
                        best = Some(d);
                    },
                }
            },
            None => {},
        }
        i = i + 1;
    }
    proof {
        assert(m.take(i as int) =~= m);
    }
    best
}

/// Smallest present entry of a vector of distances.
fn min_of_present(s: &Vec<Option<usize>>) -> (r: Option<usize>)
    ensures
        lift(r) == min_present(s@.map_values(|o: Option<usize>| lift(o))),
{
    let ghost m = s@.map_values(|o: Option<usize>| lift(o));
    let mut best: Option<usize> = None;
    let mut i: usize = 0;
    while i < s.len()
        invariant
            i <= s@.len(),
            m == s@.map_values(|o: Option<usize>| lift(o)),
            lift(best) == min_present(m.take(i as int)),
        decreases s@.len() - i,
    {
        proof {
            assert(m.take(i + 1).drop_last() =~= m.take(i as int));
        }
        match s[i] {
            Some(d) => {
                match best {
                    Some(b) => {
                        if d < b {
                            best = Some(d);
                        }
                    },
                    None => {
                        best = Some(d);
                    },
                }
            },
            None => {},
        }
        i = i + 1;
    }
    proof {
        assert(m.take(i as int) =~= m);
    }
    best
}

/// Compute the eccentricity of each vertex (max distance to any other
/// vertex; `None` for a vertex that reaches no other vertex).
pub fn eccentricity(graph: &Graph) -> (ecc: Vec<Option<usize>>)
    requires
        graph.wf(),
    ensures
        ecc@.map_values(|o: Option<usize>| lift(o)) == eccentricities(graph.adj_view()),
{
    let n = graph.vertex_count();
    let ghost adj = graph.adj_view();
    let mut ecc: Vec<Option<usize>> = Vec::new();
    let mut v: usize = 0;
    while v < n
        invariant
            graph.wf(),
            adj == graph.adj_view(),
            n == adj.len(),
            v <= n,
            ecc@.len() == v,
            forall|u: int| 0 <= u < v ==> #[trigger] lift(ecc@[u]) == eccentricity_of(adj, u as usize),
        decreases n - v,
    {
        let mut dist = bfs_distances(graph, v);
        dist.set(v, None);
        proof {
            assert(dist@.map_values(|o: Option<usize>| lift(o)) =~= other_distances(adj, v));
        }
        let e = max_of_present(&dist);
        ecc.push(e);
        v = v + 1;
    }
    proof {
        assert(ecc@.map_values(|o: Option<usize>| lift(o)) =~= eccentricities(adj));
    }
    ecc
}

/// Compute the graph's radius and diameter: the smallest and the largest eccentricity.
pub fn radius_diameter(graph: &Graph) -> (rd: (Option<usize>, Option<usize>))
    requires
        graph.wf(),
    ensures
        lift(rd.0) == min_present(eccentricities(graph.adj_view())),
        lift(rd.1) == max_present(eccentricities(graph.adj_view())),
{
    let ecc = eccentricity(graph);
    let radius = min_of_present(&ecc);
    let diameter = max_of_present(&ecc);
    (radius, diameter)
}

/// Sum of the distances from `v` to the vertices it reaches; unreachable
/// vertices contribute nothing.
pub fn distance_sum(graph: &Graph, v: usize) -> (total: u128)
    requires
        graph.wf(),
        v < graph.num_vertices(),
    ensures
        total == distance_total(graph.adj_view(), v),
{
    let ghost adj = graph.adj_view();
    let dist = bfs_distances(graph, v);
    let n = dist.len();
    let ghost m = dist@.map_values(|o: Option<usize>| lift(o));
    proof {
        assert(m =~= distance_row(adj, v));
    }
    let mut total: u128 = 0;
    let mut i: usize = 0;
    while i < n
        invariant
            n == dist@.len(),
            m == dist@.map_values(|o: Option<usize>| lift(o)),
            forall|t: int| 0 <= t < n && #[trigger] dist@[t] is Some ==> dist@[t]->0 < n,
            i <= n,
            total == sum_present(m.take(i as int)),
            total <= i * n,
        decreases n - i,
    {
        proof {
            assert(m.take(i + 1).drop_last() =~= m.take(i as int));
            assert((i + 1) * n <= n * n) by (nonlinear_arith)
                requires
                    i < n,
            ;
            assert(i * n + n == (i + 1) * n) by (nonlinear_arith);
            assert(n * n <= 0xffff_ffff_ffff_ffff_ffff_ffff_ffff_ffffu128) by (nonlinear_arith)
                requires
                    n <= 0xffff_ffff_ffff_ffffu64,
            ;
        }
        match dist[i] {
            Some(d) => {
                total = total + d as u128;
            },
            None => {},
        }
        i = i + 1;
    }
    proof {
        assert(m.take(i as int) =~= m);
    }
    total
}

/// A vertex with distance total `a` has strictly higher closeness than one
/// with total `b`, in a graph of at least two vertices.
spec fn total_above(a: nat, b: nat) -> bool {
    a > 0 && (b == 0 || a < b)
}

/// With at least two vertices, comparing closeness fractions is comparing distance totals.
proof fn lemma_closeness_order(adj: Seq<Seq<usize>>, a: usize, b: usize)
    requires
        adj.len() > 1,
    ensures
        fraction_gt(closeness_fraction(adj, a), closeness_fraction(adj, b)) == total_above(
            distance_total(adj, a),
            distance_total(adj, b),
        ),
{
    let ta = distance_total(adj, a);
    let tb = distance_total(adj, b);
    let k = (adj.len() - 1) as nat;
    if ta > 0 && tb > 0 {
        assert((k * tb > k * ta) == (ta < tb)) by (nonlinear_arith)
            requires
                k > 0,
        ;
    }
}

/// Find the vertex with the highest closeness centrality; among equally
/// central vertices the last one is returned, and 0 for an empty graph.
pub fn most_central_vertex(graph: &Graph) -> (r: usize)
    requires
        graph.wf(),
    ensures
        graph.num_vertices() == 0 ==> r == 0,
        graph.num_vertices() > 0 ==> {
            &&& r < graph.num_vertices()
            &&& forall|v: int|
                0 <= v < graph.num_vertices() ==> !fraction_gt(
                    #[trigger] closeness_fraction(graph.adj_view(), v as usize),
                    closeness_fraction(graph.adj_view(), r),
                )
            &&& forall|v: int|
                r < v < graph.num_vertices() ==> fraction_gt(
                    closeness_fraction(graph.adj_view(), r),
                    #[trigger] closeness_fraction(graph.adj_view(), v as usize),
                )
        },
{
    let n = graph.vertex_count();
    let ghost adj = graph.adj_view();
    if n == 0 {
        return 0;
    }
    let mut best: usize = 0;
    let mut best_total: u128 = distance_sum(graph, 0);
    let mut v: usize = 1;
    while v < n
        invariant
            graph.wf(),
            adj == graph.adj_view(),
            n == adj.len(),
            1 <= v <= n,
            best < v,
            best_total == distance_total(adj, best),
            forall|u: int|
                0 <= u < v ==> !total_above(
                    #[trigger] distance_total(adj, u as usize),
                    distance_total(adj, best),
                ),
            forall|u: int|
                best < u < v ==> total_above(
                    distance_total(adj, best),
                    #[trigger] distance_total(adj, u as usize),
                ),
        decreases n - v,
    {
        let t = distance_sum(graph, v);
        if !(best_total > 0 && (t == 0 || best_total < t)) {
            best = v;
            best_total = t;
        }
        v = v + 1;
    }
    proof {
        if n > 1 {
            assert forall|u: int| 0 <= u < n implies !fraction_gt(
                #[trigger] closeness_fraction(adj, u as usize),
                closeness_fraction(adj, best),
            ) by {
                lemma_closeness_order(adj, u as usize, best);
            }
            assert forall|u: int| best < u < n implies fraction_gt(
                closeness_fraction(adj, best),
                #[trigger] closeness_fraction(adj, u as usize),
            ) by {
                lemma_closeness_order(adj, best, u as usize);
            }
        }
    }
    best
}

/// A present entry is at most the largest present entry.
proof fn lemma_max_present_bound(s: Seq<Option<nat>>, i: int)
    requires
        0 <= i < s.len(),
        s[i] is Some,
    ensures
        max_present(s) matches Some(m) && s[i]->0 <= m,
    decreases s.len(),
{
    if i < s.len() - 1 {
        lemma_max_present_bound(s.drop_last(), i);
    }
}

/// A present entry is at least the smallest present entry.
proof fn lemma_min_present_bound(s: Seq<Option<nat>>, i: int)
    requires
        0 <= i < s.len(),
        s[i] is Some,
    ensures
        min_present(s) matches Some(m) && m <= s[i]->0,
    decreases s.len(),
{
    if i < s.len() - 1 {
        lemma_min_present_bound(s.drop_last(), i);
    }
}

/// Without a present entry there is no largest or smallest entry.
proof fn lemma_present_none(s: Seq<Option<nat>>)
    requires
        forall|i: int| 0 <= i < s.len() ==> #[trigger] s[i] is None,
    ensures
        max_present(s) is None,
        min_present(s) is None,
    decreases s.len(),
{
    if s.len() > 0 {
        lemma_present_none(s.drop_last());
    }
}

/// A vertex has an eccentricity exactly when it reaches another vertex, and
/// the eccentricity bounds every distance from it to another vertex.
pub proof fn lemma_eccentricity_bounds(graph: &Graph, v: usize)
    requires
        graph.wf(),
        v < graph.num_vertices(),
    ensures
        eccentricity_of(graph.adj_view(), v) is None <==> forall|t: usize|
            t < graph.num_vertices() && t != v ==> #[trigger] shortest_distance(
                graph.adj_view(),
                v,
                t,
            ) is None,
        forall|t: usize|
            t < graph.num_vertices() && t != v && #[trigger] shortest_distance(graph.adj_view(), v, t) is Some
                ==> shortest_distance(graph.adj_view(), v, t)->0 <= eccentricity_of(
                graph.adj_view(),
                v,
            )->0,
{
    let adj = graph.adj_view();
    let row = other_distances(adj, v);
    assert forall|t: usize|
        t < graph.num_vertices() && t != v && #[trigger] shortest_distance(adj, v, t) is Some implies shortest_distance(
            adj,
            v,
            t,
        )->0 <= eccentricity_of(adj, v)->0 && eccentricity_of(adj, v) is Some by {
        assert(row[t as int] == shortest_distance(adj, v, t));
        lemma_max_present_bound(row, t as int);
    }
    if forall|t: usize|
        t < graph.num_vertices() && t != v ==> #[trigger] shortest_distance(adj, v, t) is None {
        assert forall|i: int| 0 <= i < row.len() implies #[trigger] row[i] is None by {
            if i != v {
                assert(shortest_distance(adj, v, i as usize) is None);
            }
        }
        lemma_present_none(row);
    }
}

/// The radius is at most every eccentricity, which is at most the diameter;
/// both are defined exactly when some vertex has an eccentricity.
pub proof fn lemma_radius_diameter_bounds(graph: &Graph)
    requires
        graph.wf(),
    ensures
        (forall|v: usize|
            v < graph.num_vertices() ==> #[trigger] eccentricity_of(graph.adj_view(), v) is None)
            ==> min_present(eccentricities(graph.adj_view())) is None && max_present(
            eccentricities(graph.adj_view()),
        ) is None,
        forall|v: usize|
            #![trigger eccentricity_of(graph.adj_view(), v)]
            v < graph.num_vertices() && eccentricity_of(graph.adj_view(), v) is Some ==> {
                &&& min_present(eccentricities(graph.adj_view())) is Some
                &&& max_present(eccentricities(graph.adj_view())) is Some
                &&& min_present(eccentricities(graph.adj_view()))->0 <= eccentricity_of(
                    graph.adj_view(),
                    v,
                )->0
                &&& eccentricity_of(graph.adj_view(), v)->0 <= max_present(
                    eccentricities(graph.adj_view()),
                )->0
            },
{
    let adj = graph.adj_view();
    let e = eccentricities(adj);
    if forall|v: usize| v < graph.num_vertices() ==> #[trigger] eccentricity_of(adj, v) is None {
        assert forall|i: int| 0 <= i < e.len() implies #[trigger] e[i] is None by {
            assert(eccentricity_of(adj, i as usize) is None);
        }
        lemma_present_none(e);
    }
    assert forall|v: usize|
        #![trigger eccentricity_of(adj, v)]
        v < graph.num_vertices() && eccentricity_of(adj, v) is Some implies {
            &&& min_present(e) is Some
            &&& max_present(e) is Some
            &&& min_present(e)->0 <= eccentricity_of(adj, v)->0
            &&& eccentricity_of(adj, v)->0 <= max_present(e)->0
        } by {
        assert(e[v as int] == eccentricity_of(adj, v));
        lemma_min_present_bound(e, v as int);
        lemma_max_present_bound(e, v as int);
    }
}

/// Appending an entry to a row of distances adds exactly that distance to
/// its sum (nothing for a missing entry).
pub proof fn lemma_sum_present_push(s: Seq<Option<nat>>, o: Option<nat>)
    ensures
        sum_present(s.push(o)) == sum_present(s) + match o {
            Some(d) => d,
            None => 0nat,
        },
{
    assert(s.push(o).drop_last() =~= s);
}

/// The sum of present entries adds up over concatenation.
pub proof fn lemma_sum_present_concat(s: Seq<Option<nat>>, t: Seq<Option<nat>>)
    ensures
        sum_present(s + t) == sum_present(s) + sum_present(t),
    decreases t.len(),
{
    if t.len() == 0 {
        assert(s + t =~= s);
    } else {
        lemma_sum_present_concat(s, t.drop_last());
        assert((s + t).drop_last() =~= s + t.drop_last());
    }
}

/// The largest present entry is one of the entries and bounds all of them.
pub proof fn lemma_max_present_exact(s: Seq<Option<nat>>)
    ensures
        max_present(s) is None <==> forall|i: int| 0 <= i < s.len() ==> #[trigger] s[i] is None,
        max_present(s) matches Some(m) ==> (exists|i: int| 0 <= i < s.len() && #[trigger] s[i] == Some(m))
            && forall|i: int| 0 <= i < s.len() && #[trigger] s[i] is Some ==> s[i]->0 <= m,
    decreases s.len(),
{
    if s.len() > 0 {
        let p = s.drop_last();
        lemma_max_present_exact(p);
        if let Some(m) = max_present(s) {
            if max_present(p) == Some(m) {
                let i = choose|i: int| 0 <= i < p.len() && #[trigger] p[i] == Some(m);
                assert(s[i] == Some(m));
            } else {
                assert(s[s.len() - 1] == Some(m));
            }
            assert forall|i: int| 0 <= i < s.len() && #[trigger] s[i] is Some implies s[i]->0 <= m by {
                lemma_max_present_bound(s, i);
            }
        }
        if forall|i: int| 0 <= i < s.len() ==> #[trigger] s[i] is None {
            assert(p.len() == 0 || p[0] is None);
            assert forall|i: int| 0 <= i < p.len() implies #[trigger] p[i] is None by {
                assert(s[i] is None);
            }
            assert(s.last() is None);
        } else {
            let i = choose|i: int| 0 <= i < s.len() && !(#[trigger] s[i] is None);
            lemma_max_present_bound(s, i);
        }
    }
}

/// The smallest present entry is one of the entries and is below all of them.
pub proof fn lemma_min_present_exact(s: Seq<Option<nat>>)
    ensures
        min_present(s) is None <==> forall|i: int| 0 <= i < s.len() ==> #[trigger] s[i] is None,
        min_present(s) matches Some(m) ==> (exists|i: int| 0 <= i < s.len() && #[trigger] s[i] == Some(m))
            && forall|i: int| 0 <= i < s.len() && #[trigger] s[i] is Some ==> m <= s[i]->0,
    decreases s.len(),
{
    if s.len() > 0 {
        let p = s.drop_last();
        lemma_min_present_exact(p);
        if let Some(m) = min_present(s) {
            if min_present(p) == Some(m) {
                let i = choose|i: int| 0 <= i < p.len() && #[trigger] p[i] == Some(m);
                assert(s[i] == Some(m));
            } else {
                assert(s[s.len() - 1] == Some(m));
            }
            assert forall|i: int| 0 <= i < s.len() && #[trigger] s[i] is Some implies m <= s[i]->0 by {
                lemma_min_present_bound(s, i);
            }
        }
        if forall|i: int| 0 <= i < s.len() ==> #[trigger] s[i] is None {
            assert forall|i: int| 0 <= i < p.len() implies #[trigger] p[i] is None by {
                assert(s[i] is None);
            }
            assert(s.last() is None);
        } else {
            let i = choose|i: int| 0 <= i < s.len() && !(#[trigger] s[i] is None);
            lemma_min_present_bound(s, i);
        }
    }
}

/// A defined eccentricity is the distance to some other vertex.
pub proof fn lemma_eccentricity_attained(graph: &Graph, v: usize)
    requires
        graph.wf(),
        v < graph.num_vertices(),
    ensures
        eccentricity_of(graph.adj_view(), v) matches Some(e) ==> exists|t: usize|
            t < graph.num_vertices() && t != v && #[trigger] shortest_distance(graph.adj_view(), v, t)
                == Some(e),
{
    let adj = graph.adj_view();
    let row = other_distances(adj, v);
    lemma_max_present_exact(row);
    if let Some(e) = eccentricity_of(adj, v) {
        let i = choose|i: int| 0 <= i < row.len() && #[trigger] row[i] == Some(e);
        assert(i != v);
        assert(shortest_distance(adj, v, i as usize) == Some(e));
    }
}

/// A defined radius and diameter are the eccentricities of some vertices.
pub proof fn lemma_radius_diameter_attained(graph: &Graph)
    requires
        graph.wf(),
    ensures
        min_present(eccentricities(graph.adj_view())) matches Some(r) ==> exists|v: usize|
            v < graph.num_vertices() && #[trigger] eccentricity_of(graph.adj_view(), v) == Some(r),
        max_present(eccentricities(graph.adj_view())) matches Some(d) ==> exists|v: usize|
            v < graph.num_vertices() && #[trigger] eccentricity_of(graph.adj_view(), v) == Some(d),
{
    let adj = graph.adj_view();
    let e = eccentricities(adj);
    lemma_min_present_exact(e);
    lemma_max_present_exact(e);
    if let Some(r) = min_present(e) {
        let i = choose|i: int| 0 <= i < e.len() && #[trigger] e[i] == Some(r);
        assert(eccentricity_of(adj, i as usize) == Some(r));
    }
    if let Some(d) = max_present(e) {
        let i = choose|i: int| 0 <= i < e.len() && #[trigger] e[i] == Some(d);
        assert(eccentricity_of(adj, i as usize) == Some(d));
    }
}

} // verus!
