//! Walk counts read from either end, and the symmetry of shortest-path
//! counts in an undirected graph.

use vstd::prelude::*;

use crate::betweenness::{path_count, walk_count, walks_via};
use crate::walks::lemma_distance_symmetric;
use crate::{occurrences, symmetric, Graph};

verus! {

/// `f(0) + f(1) + ... + f(m - 1)`.
pub open spec fn sum_to(f: spec_fn(nat) -> nat, m: nat) -> nat
    decreases m,
{
    if m == 0 {
        0
    } else {
        sum_to(f, (m - 1) as nat) + f((m - 1) as nat)
    }
}

/// Sums of functions that agree below `m` agree.
proof fn lemma_sum_ext(f: spec_fn(nat) -> nat, g: spec_fn(nat) -> nat, m: nat)
    requires
        forall|u: nat| u < m ==> #[trigger] f(u) == g(u),
    ensures
        sum_to(f, m) == sum_to(g, m),
    decreases m,
{
    if m > 0 {
        lemma_sum_ext(f, g, (m - 1) as nat);
    }
}

/// A constant factor comes out of a sum.
proof fn lemma_sum_scale(c: nat, f: spec_fn(nat) -> nat, m: nat)
    ensures
        sum_to(|u: nat| c * f(u), m) == c * sum_to(f, m),
    decreases m,
{
    if m > 0 {
        let cf = |u: nat| c * f(u);
        lemma_sum_scale(c, f, (m - 1) as nat);
        let a = sum_to(f, (m - 1) as nat);
        let b = f((m - 1) as nat);
        assert(sum_to(cf, (m - 1) as nat) == c * a);
        assert(sum_to(cf, m) == sum_to(cf, (m - 1) as nat) + cf((m - 1) as nat));
        assert(cf((m - 1) as nat) == c * b);
        assert(sum_to(f, m) == a + b);
        assert(c * a + c * b == c * (a + b)) by (nonlinear_arith);
        assert(cf =~= (|u: nat| c * f(u)));
    } else {
        assert(c * 0 == 0) by (nonlinear_arith);
    }
}

/// A sum of sums is the sum of the parts.
proof fn lemma_sum_add(f: spec_fn(nat) -> nat, g: spec_fn(nat) -> nat, m: nat)
    ensures
        sum_to(|u: nat| f(u) + g(u), m) == sum_to(f, m) + sum_to(g, m),
    decreases m,
{
    if m > 0 {
        lemma_sum_add(f, g, (m - 1) as nat);
    }
}

/// A sum with one nonzero term is that term.
proof fn lemma_sum_single(f: spec_fn(nat) -> nat, s: nat, m: nat)
    requires
        forall|u: nat| u < m && u != s ==> #[trigger] f(u) == 0,
    ensures
        sum_to(f, m) == if s < m {
            f(s)
        } else {
            0
        },
    decreases m,
{
    if m > 0 {
        lemma_sum_single(f, s, (m - 1) as nat);
    }
}

/// The order of a double sum does not matter.
proof fn lemma_sum_swap(f: spec_fn(nat, nat) -> nat, m: nat, n: nat)
    ensures
        sum_to(|u: nat| sum_to(|x: nat| f(u, x), n), m) == sum_to(
            |x: nat| sum_to(|u: nat| f(u, x), m),
            n,
        ),
    decreases m,
{
    if m > 0 {
        let mm = (m - 1) as nat;
        lemma_sum_swap(f, mm, n);
        let g = |x: nat| sum_to(|u: nat| f(u, x), mm);
        let h = |x: nat| f(mm, x);
        lemma_sum_add(g, h, n);
        lemma_sum_ext(
            |x: nat| sum_to(|u: nat| f(u, x), m),
            |x: nat| g(x) + h(x),
            n,
        );
        lemma_sum_ext(|x: nat| sum_to(|u: nat| f(u, x), mm), g, n);
        lemma_sum_ext(|x: nat| f(mm, x), h, n);
    } else {
        lemma_sum_single(|x: nat| sum_to(|u: nat| f(u, x), m), n, n);
    }
}

/// Number of times `u` lists `t`, as a matrix entry.
pub open spec fn mult(adj: Seq<Seq<usize>>, u: nat, t: nat) -> nat {
    occurrences(adj[u as int], t as usize)
}

/// Walks counted by their last step: a sum over the next-to-last vertex.
proof fn lemma_last_step_sum(adj: Seq<Seq<usize>>, s: usize, t: usize, k: nat, m: nat)
    requires
        k > 0,
        m <= adj.len() <= usize::MAX,
    ensures
        walks_via(adj, s, t, k, m) == sum_to(
            |u: nat| walk_count(adj, s, u as usize, (k - 1) as nat) * mult(adj, u, t as nat),
            m,
        ),
    decreases m,
{
    if m > 0 {
        lemma_last_step_sum(adj, s, t, k, (m - 1) as nat);
    }
}

/// Walks counted by their first step: a sum over the second vertex.
proof fn lemma_first_step_sum(adj: Seq<Seq<usize>>, s: usize, t: usize, k: nat)
    requires
        k > 0,
        adj.len() <= usize::MAX,
        s < adj.len(),
        t < adj.len(),
    ensures
        walk_count(adj, s, t, k) == sum_to(
            |x: nat| mult(adj, s as nat, x) * walk_count(adj, x as usize, t, (k - 1) as nat),
            adj.len(),
        ),
    decreases k,
{
    let n = adj.len();
    lemma_last_step_sum(adj, s, t, k, n);
    let l1 = |u: nat| walk_count(adj, s, u as usize, (k - 1) as nat) * mult(adj, u, t as nat);
    let r1 = |x: nat| mult(adj, s as nat, x) * walk_count(adj, x as usize, t, (k - 1) as nat);
    if k == 1 {
        assert forall|u: nat| u < n && u != s implies #[trigger] l1(u) == 0 by {
            assert(walk_count(adj, s, u as usize, 0) == 0);
        }
        lemma_sum_single(l1, s as nat, n);
        assert(walk_count(adj, s, s, 0) == 1);
        assert forall|x: nat| x < n && x != t implies #[trigger] r1(x) == 0 by {
            assert(walk_count(adj, x as usize, t, 0) == 0);
        }
        lemma_sum_single(r1, t as nat, n);
        assert(walk_count(adj, t, t, 0) == 1);
    } else {
        let k2 = (k - 2) as nat;
        let f2 = |u: nat, x: nat|
            mult(adj, s as nat, x) * walk_count(adj, x as usize, u as usize, k2) * mult(
                adj,
                u,
                t as nat,
            );
        let l2 = |u: nat|
            sum_to(
                |x: nat| mult(adj, s as nat, x) * walk_count(adj, x as usize, u as usize, k2),
                n,
            ) * mult(adj, u, t as nat);
        let l3 = |u: nat| sum_to(|x: nat| f2(u, x), n);
        let r3 = |x: nat| sum_to(|u: nat| f2(u, x), n);
        let r2 = |x: nat|
            mult(adj, s as nat, x) * sum_to(
                |u: nat| walk_count(adj, x as usize, u as usize, k2) * mult(adj, u, t as nat),
                n,
            );
        assert forall|u: nat| u < n implies #[trigger] l1(u) == l2(u) by {
            lemma_first_step_sum(adj, s, u as usize, (k - 1) as nat);
        }
        lemma_sum_ext(l1, l2, n);
        assert forall|u: nat| u < n implies #[trigger] l2(u) == l3(u) by {
            let a = mult(adj, u, t as nat);
            let g = |x: nat| mult(adj, s as nat, x) * walk_count(adj, x as usize, u as usize, k2);
            lemma_sum_scale(a, g, n);
            assert forall|x: nat| x < n implies #[trigger] f2(u, x) == (|x: nat| a * g(x))(x) by {
                let p = mult(adj, s as nat, x);
                let q = walk_count(adj, x as usize, u as usize, k2);
                assert(p * q * a == a * (p * q)) by (nonlinear_arith);
            }
            lemma_sum_ext(|x: nat| f2(u, x), |x: nat| a * g(x), n);
            let sg = sum_to(g, n);
            assert(sg * a == a * sg) by (nonlinear_arith);
        }
        lemma_sum_ext(l2, l3, n);
        lemma_sum_swap(f2, n, n);
        assert forall|x: nat| x < n implies #[trigger] r3(x) == r2(x) by {
            let c = mult(adj, s as nat, x);
            let g = |u: nat| walk_count(adj, x as usize, u as usize, k2) * mult(adj, u, t as nat);
            lemma_sum_scale(c, g, n);
            assert forall|u: nat| u < n implies #[trigger] f2(u, x) == (|u: nat| c * g(u))(u) by {
                let q = walk_count(adj, x as usize, u as usize, k2);
                let a = mult(adj, u, t as nat);
                assert(c * q * a == c * (q * a)) by (nonlinear_arith);
            }
            lemma_sum_ext(|u: nat| f2(u, x), |u: nat| c * g(u), n);
        }
        lemma_sum_ext(r3, r2, n);
        assert forall|x: nat| x < n implies #[trigger] r2(x) == r1(x) by {
            lemma_last_step_sum(adj, x as usize, t, (k - 1) as nat, n);
        }
        lemma_sum_ext(r2, r1, n);
    }
}

/// With symmetric lists, walks of a given length from `s` to `t` are as
/// many as from `t` to `s`.
proof fn lemma_walk_count_symmetric(adj: Seq<Seq<usize>>, s: usize, t: usize, k: nat)
    requires
        symmetric(adj),
        adj.len() <= usize::MAX,
        s < adj.len(),
        t < adj.len(),
    ensures
        walk_count(adj, s, t, k) == walk_count(adj, t, s, k),
    decreases k,
{
    if k > 0 {
        let n = adj.len();
        lemma_last_step_sum(adj, s, t, k, n);
        lemma_first_step_sum(adj, t, s, k);
        let l1 = |u: nat| walk_count(adj, s, u as usize, (k - 1) as nat) * mult(adj, u, t as nat);
        let r1 = |x: nat| mult(adj, t as nat, x) * walk_count(adj, x as usize, s, (k - 1) as nat);
        assert forall|u: nat| u < n implies #[trigger] l1(u) == r1(u) by {
            lemma_walk_count_symmetric(adj, s, u as usize, (k - 1) as nat);
            assert(occurrences(adj[u as int], t) == occurrences(adj[t as int], u as usize));
            let p = walk_count(adj, s, u as usize, (k - 1) as nat);
            let a = mult(adj, u, t as nat);
            assert(p * a == a * p) by (nonlinear_arith);
        }
        lemma_sum_ext(l1, r1, n);
    }
}

/// In an undirected graph there are as many shortest paths from `s` to `t`
/// as from `t` to `s`.
pub proof fn lemma_path_count_symmetric(graph: &Graph, s: usize, t: usize)
    requires
        graph.wf(),
        !graph.directed_view(),
        s < graph.num_vertices(),
        t < graph.num_vertices(),
    ensures
        path_count(graph.adj_view(), s, t) == path_count(graph.adj_view(), t, s),
{
    let adj = graph.adj_view();
    lemma_distance_symmetric(graph, s, t);
    if let Some(d) = crate::walks::shortest_distance(adj, s, t) {
        lemma_walk_count_symmetric(adj, s, t, d);
    }
}

} // verus!
