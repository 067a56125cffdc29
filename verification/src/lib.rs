//! Graph centrality measures on a simple adjacency-list graph.
//!
//! The library covers the graph itself and the integer side of the
//! centrality measures: breadth-first distances, eccentricity, radius and
//! diameter, distance sums and the closeness ranking, and the shortest-path
//! counts and predecessor lists that Brandes' betweenness algorithm
//! accumulates over.

use vstd::prelude::*;

pub mod betweenness;
pub mod closeness;
pub mod counting;
pub mod katz;
pub mod walks;

verus! {

/// Total length of the adjacency lists.
pub open spec fn degree_sum(adj: Seq<Seq<usize>>) -> nat
    decreases adj.len(),
{
    if adj.len() == 0 {
        0
    } else {
        degree_sum(adj.drop_last()) + adj.last().len()
    }
}

/// Number of self-loop entries: how often each list names its own vertex.
pub open spec fn loop_sum(adj: Seq<Seq<usize>>) -> nat
    decreases adj.len(),
{
    if adj.len() == 0 {
        0
    } else {
        loop_sum(adj.drop_last()) + occurrences(adj.last(), (adj.len() - 1) as usize)
    }
}

/// Every entry of every adjacency list names a vertex of the graph.
pub open spec fn entries_in_range(adj: Seq<Seq<usize>>) -> bool {
    forall|u: int, i: int|
        0 <= u < adj.len() && 0 <= i < adj[u].len() ==> #[trigger] adj[u][i] < adj.len()
}

/// Number of times `x` occurs in `l`.
pub open spec fn occurrences(l: Seq<usize>, x: usize) -> nat
    decreases l.len(),
{
    if l.len() == 0 {
        0
    } else {
        occurrences(l.drop_last(), x) + if l.last() == x {
            1nat
        } else {
            0nat
        }
    }
}

/// `u` lists `v` exactly as many times as `v` lists `u`.
pub open spec fn symmetric(adj: Seq<Seq<usize>>) -> bool {
    forall|u: usize, v: usize|
        u < adj.len() && v < adj.len() ==> #[trigger] occurrences(adj[u as int], v)
            == #[trigger] occurrences(adj[v as int], u)
}

/// With symmetric lists, `u` lists `v` exactly when `v` lists `u`.
pub proof fn lemma_symmetric_contains(adj: Seq<Seq<usize>>, u: usize, v: usize)
    requires
        symmetric(adj),
        u < adj.len(),
        v < adj.len(),
    ensures
        adj[u as int].contains(v) <==> adj[v as int].contains(u),
{
    lemma_occurrences_contains(adj[u as int], v);
    lemma_occurrences_contains(adj[v as int], u);
}

/// A simple unweighted graph represented as an adjacency list.
#[derive(Clone, Debug)]
pub struct Graph {
    n: usize,
    adj: Vec<Vec<usize>>,
    directed: bool,
}

impl Graph {
    /// Number of vertices, as a mathematical value.
    pub closed spec fn num_vertices(&self) -> nat {
        self.n as nat
    }

    /// The adjacency lists: `adj_view()[u]` lists the out-neighbours of `u`
    /// in insertion order, with repetitions.
    pub closed spec fn adj_view(&self) -> Seq<Seq<usize>> {
        self.adj@.map_values(|l: Vec<usize>| l@)
    }

    /// Whether edges are one-way.
    pub closed spec fn directed_view(&self) -> bool {
        self.directed
    }

    /// The graph's invariant: one list per vertex, every entry a vertex,
    /// symmetric lists (counting repeats) in an undirected graph, and a
    /// total list length that fits in a machine word.
    pub open spec fn wf(&self) -> bool {
        &&& self.adj_view().len() == self.num_vertices()
        &&& entries_in_range(self.adj_view())
        &&& !self.directed_view() ==> symmetric(self.adj_view())
        &&& degree_sum(self.adj_view()) <= usize::MAX
    }

    /// The number of edges: the total list length for a directed graph; in
    /// an undirected graph a self-loop is listed once and any other edge
    /// twice, so it is the self-loops plus half of the other entries.
    pub open spec fn edge_total(&self) -> nat {
        if self.directed_view() {
            degree_sum(self.adj_view())
        } else {
            loop_sum(self.adj_view()) + (degree_sum(self.adj_view()) - loop_sum(self.adj_view())) as nat / 2
        }
    }

    /// Create a new undirected graph with `n` vertices.
    pub fn new(n: usize) -> (g: Self)
        ensures
            g.wf(),
            g.num_vertices() == n,
            !g.directed_view(),
            forall|u: int| 0 <= u < n ==> #[trigger] g.adj_view()[u].len() == 0,
            g.edge_total() == 0,
    {
        let adj = Self::empty_lists(n);
        let g = Graph { n, adj, directed: false };
        proof {
            lemma_degree_sum_empty(g.adj_view());
        }
        g
    }

    /// Create a new directed graph with `n` vertices.
    pub fn new_directed(n: usize) -> (g: Self)
        ensures
            g.wf(),
            g.num_vertices() == n,
            g.directed_view(),
            forall|u: int| 0 <= u < n ==> #[trigger] g.adj_view()[u].len() == 0,
            g.edge_total() == 0,
    {
        let adj = Self::empty_lists(n);
        let g = Graph { n, adj, directed: true };
        proof {
            lemma_degree_sum_empty(g.adj_view());
        }
        g
    }

    /// Number of vertices.
    pub fn vertex_count(&self) -> (r: usize)
        ensures
            r == self.num_vertices(),
    {
        self.n
    }

    /// Whether the graph is directed.
    pub fn is_directed(&self) -> (r: bool)
        ensures
            r == self.directed_view(),
    {
        self.directed
    }

    /// Number of edges: every list entry counts once in a directed graph; in
    /// an undirected graph a self-loop counts once and every other edge,
    /// listed at both ends, counts once.
    pub fn edge_count(&self) -> (r: usize)
        requires
            self.wf(),
        ensures
            r == self.edge_total(),
    {
        let mut count: usize = 0;
        let mut loops: usize = 0;
        let mut i: usize = 0;
        proof {
            lemma_loop_sum_le(self.adj_view());
        }
        while i < self.adj.len()
            invariant
                self.wf(),
                i <= self.adj@.len(),
                count == degree_sum(self.adj_view().take(i as int)),
                loops == loop_sum(self.adj_view().take(i as int)),
                loops <= count,
            decreases self.adj@.len() - i,
        {
            proof {
                let a = self.adj_view();
                assert(a.take(i + 1).drop_last() =~= a.take(i as int));
                lemma_degree_sum_prefix_le(a, i + 1);
                lemma_occurrences_le(a[i as int], i);
            }
            count = count + self.adj[i].len();
            loops = loops + count_in(&self.adj[i], i);
            i = i + 1;
        }
        proof {
            assert(self.adj_view().take(i as int) =~= self.adj_view());
        }
        if self.directed {
            count
        } else {
            loops + (count - loops) / 2
        }
    }

    /// Add an edge from `u` to `v`; in an undirected graph `u` is also
    /// listed as a neighbour of `v`, unless the edge is a self-loop.
    /// The total list length must stay within a machine word.
    pub fn add_edge(&mut self, u: usize, v: usize)
        requires
            old(self).wf(),
            u < old(self).num_vertices(),
            v < old(self).num_vertices(),
            degree_sum(old(self).adj_view()) + 2 <= usize::MAX,
        ensures
            final(self).wf(),
            final(self).num_vertices() == old(self).num_vertices(),
            final(self).directed_view() == old(self).directed_view(),
            final(self).adj_view() == (if !old(self).directed_view() && u != v {
                old(self).adj_view().update(u as int, old(self).adj_view()[u as int].push(v)).update(
                    v as int,
                    old(self).adj_view()[v as int].push(u),
                )
            } else {
                old(self).adj_view().update(u as int, old(self).adj_view()[u as int].push(v))
            }),
            final(self).edge_total() == old(self).edge_total() + 1,
    {
        let ghost a0 = self.adj_view();
        self.adj[u].push(v);
        let ghost a1 = self.adj_view();
        proof {
            assert(a1 =~= a0.update(u as int, a0[u as int].push(v)));
            lemma_degree_sum_update(a0, u as int, a0[u as int].push(v));
            lemma_loop_sum_update(a0, u as int, a0[u as int].push(v));
            lemma_occurrences_push(a0[u as int], v, u);
            lemma_loop_sum_le(a0);
        }
        if !self.directed && u != v {
            self.adj[v].push(u);
            proof {
                let a2 = self.adj_view();
                assert(a2 =~= a1.update(v as int, a1[v as int].push(u)));
                lemma_degree_sum_update(a1, v as int, a1[v as int].push(u));
                lemma_loop_sum_update(a1, v as int, a1[v as int].push(u));
                lemma_occurrences_push(a1[v as int], u, v);
                assert forall|x: usize, y: usize|
                    x < a2.len() && y < a2.len() implies #[trigger] occurrences(a2[x as int], y)
                    == #[trigger] occurrences(a2[y as int], x) by {
                    lemma_occurrences_push(a0[u as int], v, y);
                    lemma_occurrences_push(a0[u as int], v, x);
                    lemma_occurrences_push(a0[v as int], u, y);
                    lemma_occurrences_push(a0[v as int], u, x);
                    assert(occurrences(a0[x as int], y) == occurrences(a0[y as int], x));
                }
                assert forall|x: int, i: int|
                    0 <= x < a2.len() && 0 <= i < a2[x].len() implies #[trigger] a2[x][i]
                    < a2.len() by {
                    if x != u && x != v {
                        assert(a2[x] == a0[x]);
                    }
                }
            }
        } else {
            proof {
                if !self.directed {
                    let a1 = self.adj_view();
                    assert forall|x: usize, y: usize|
                        x < a1.len() && y < a1.len() implies #[trigger] occurrences(a1[x as int], y)
                        == #[trigger] occurrences(a1[y as int], x) by {
                        lemma_occurrences_push(a0[u as int], v, y);
                        lemma_occurrences_push(a0[u as int], v, x);
                        assert(occurrences(a0[x as int], y) == occurrences(a0[y as int], x));
                    }
                }
                assert forall|x: int, i: int|
                    0 <= x < a1.len() && 0 <= i < a1[x].len() implies #[trigger] a1[x][i]
                    < a1.len() by {
                    if x != u {
                        assert(a1[x] == a0[x]);
                    }
                }
            }
        }
    }

    /// Get the neighbors of vertex `v`.
    pub fn neighbors(&self, v: usize) -> (r: &[usize])
        requires
            self.wf(),
            v < self.num_vertices(),
        ensures
            r@ == self.adj_view()[v as int],
    {
        self.adj[v].as_slice()
    }

    /// Get the out-degree of vertex `v`.
    pub fn out_degree(&self, v: usize) -> (r: usize)
        requires
            self.wf(),
            v < self.num_vertices(),
        ensures
            r == self.adj_view()[v as int].len(),
    {
        self.adj[v].len()
    }

    /// Get the in-degree of vertex `v`: the number of vertices whose list
    /// names `v` at least once.
    pub fn in_degree(&self, v: usize) -> (r: usize)
        requires
            self.wf(),
        ensures
            r == lists_containing(self.adj_view(), v),
    {
        let mut count: usize = 0;
        let mut u: usize = 0;
        while u < self.adj.len()
            invariant
                self.wf(),
                u <= self.adj@.len(),
                count == lists_containing(self.adj_view().take(u as int), v),
                count <= u,
            decreases self.adj@.len() - u,
        {
            proof {
                let a = self.adj_view();
                assert(a.take(u + 1).drop_last() =~= a.take(u as int));
            }
            if list_contains(&self.adj[u], v) {
                count = count + 1;
            }
            u = u + 1;
        }
        proof {
            assert(self.adj_view().take(u as int) =~= self.adj_view());
        }
        count
    }

    /// Get the adjacency list.
    pub fn adjacency(&self) -> (r: &[Vec<usize>])
        ensures
            r@.map_values(|l: Vec<usize>| l@) == self.adj_view(),
    {
        self.adj.as_slice()
    }

    /// `n` empty adjacency lists.
    fn empty_lists(n: usize) -> (adj: Vec<Vec<usize>>)
        ensures
            adj@.len() == n,
            forall|u: int| 0 <= u < n ==> #[trigger] adj@[u]@.len() == 0,
    {
        let mut adj: Vec<Vec<usize>> = Vec::new();
        let mut i: usize = 0;
        while i < n
            invariant
                i <= n,
                adj@.len() == i,
                forall|u: int| 0 <= u < i ==> #[trigger] adj@[u]@.len() == 0,
            decreases n - i,
        {
            adj.push(Vec::new());
            i = i + 1;
        }
        adj
    }
}

/// Number of lists that name `v` at least once.
pub open spec fn lists_containing(adj: Seq<Seq<usize>>, v: usize) -> nat
    decreases adj.len(),
{
    if adj.len() == 0 {
        0
    } else {
        lists_containing(adj.drop_last(), v) + if adj.last().contains(v) {
            1nat
        } else {
            0nat
        }
    }
}

/// Whether `list` names `v`.
fn list_contains(list: &Vec<usize>, v: usize) -> (r: bool)
    ensures
        r == list@.contains(v),
{
    let mut i: usize = 0;
    while i < list.len()
        invariant
            i <= list@.len(),
            forall|j: int| 0 <= j < i ==> list@[j] != v,
        decreases list@.len() - i,
    {
        if list[i] == v {
            return true;
        }
        i = i + 1;
    }
    false
}

/// `x` occurs in `l` exactly when it is counted there.
pub(crate) proof fn lemma_occurrences_contains(l: Seq<usize>, x: usize)
    ensures
        occurrences(l, x) > 0 <==> l.contains(x),
    decreases l.len(),
{
    if l.len() > 0 {
        lemma_occurrences_contains(l.drop_last(), x);
        assert(l =~= l.drop_last().push(l.last()));
        lemma_push_contains(l.drop_last(), l.last(), x);
    }
}

/// Pushing one element counts it once more.
pub proof fn lemma_occurrences_push(l: Seq<usize>, y: usize, x: usize)
    ensures
        occurrences(l.push(y), x) == occurrences(l, x) + if y == x {
            1nat
        } else {
            0nat
        },
{
    assert(l.push(y).drop_last() =~= l);
}

/// A list names `x` at most as often as it is long.
pub(crate) proof fn lemma_occurrences_le(l: Seq<usize>, x: usize)
    ensures
        occurrences(l, x) <= l.len(),
    decreases l.len(),
{
    if l.len() > 0 {
        lemma_occurrences_le(l.drop_last(), x);
    }
}

/// Self-loop entries are among all entries.
proof fn lemma_loop_sum_le(adj: Seq<Seq<usize>>)
    ensures
        loop_sum(adj) <= degree_sum(adj),
    decreases adj.len(),
{
    if adj.len() > 0 {
        lemma_loop_sum_le(adj.drop_last());
        lemma_occurrences_le(adj.last(), (adj.len() - 1) as usize);
    }
}

/// Replacing one list changes the self-loop count by that list's change.
proof fn lemma_loop_sum_update(adj: Seq<Seq<usize>>, i: int, x: Seq<usize>)
    requires
        0 <= i < adj.len() <= usize::MAX + 1,
    ensures
        loop_sum(adj.update(i, x)) == loop_sum(adj) - occurrences(adj[i], i as usize)
            + occurrences(x, i as usize),
    decreases adj.len(),
{
    let b = adj.update(i, x);
    if i == adj.len() - 1 {
        assert(b.drop_last() =~= adj.drop_last());
    } else {
        assert(b.drop_last() =~= adj.drop_last().update(i, x));
        lemma_loop_sum_update(adj.drop_last(), i, x);
    }
}

/// How often `list` names `x`.
fn count_in(list: &Vec<usize>, x: usize) -> (r: usize)
    ensures
        r == occurrences(list@, x),
{
    let mut c: usize = 0;
    let mut i: usize = 0;
    while i < list.len()
        invariant
            i <= list@.len(),
            c == occurrences(list@.take(i as int), x),
            c <= i,
        decreases list@.len() - i,
    {
        assert(list@.take(i + 1).drop_last() =~= list@.take(i as int));
        if list[i] == x {
            c = c + 1;
        }
        i = i + 1;
    }
    assert(list@.take(i as int) =~= list@);
    c
}

/// Pushing onto a sequence adds exactly the pushed element to what it contains.
pub(crate) proof fn lemma_push_contains(s: Seq<usize>, x: usize, y: usize)
    ensures
        s.push(x).contains(y) <==> (s.contains(y) || x == y),
{
    if s.contains(y) {
        let i = choose|i: int| 0 <= i < s.len() && s[i] == y;
        assert(s.push(x)[i] == y);
    }
    if x == y {
        assert(s.push(x)[s.len() as int] == y);
    }
    if s.push(x).contains(y) {
        let i = choose|i: int| 0 <= i < s.push(x).len() && s.push(x)[i] == y;
        if i < s.len() {
            assert(s[i] == y);
        }
    }
}

/// The total length of a prefix is at most the total length.
proof fn lemma_degree_sum_prefix_le(adj: Seq<Seq<usize>>, k: int)
    requires
        0 <= k <= adj.len(),
    ensures
        degree_sum(adj.take(k)) <= degree_sum(adj),
    decreases adj.len(),
{
    if k < adj.len() {
        assert(adj.drop_last().take(k) =~= adj.take(k));
        lemma_degree_sum_prefix_le(adj.drop_last(), k);
    } else {
        assert(adj.take(k) =~= adj);
    }
}

/// Replacing one list changes the total by the difference of the lengths.
proof fn lemma_degree_sum_update(adj: Seq<Seq<usize>>, i: int, x: Seq<usize>)
    requires
        0 <= i < adj.len(),
    ensures
        degree_sum(adj.update(i, x)) == degree_sum(adj) - adj[i].len() + x.len(),
    decreases adj.len(),
{
    let b = adj.update(i, x);
    if i == adj.len() - 1 {
        assert(b.drop_last() =~= adj.drop_last());
    } else {
        assert(b.drop_last() =~= adj.drop_last().update(i, x));
        lemma_degree_sum_update(adj.drop_last(), i, x);
    }
}

/// A graph whose lists are all empty has no entries and no self-loops.
proof fn lemma_degree_sum_empty(adj: Seq<Seq<usize>>)
    requires
        forall|u: int| 0 <= u < adj.len() ==> #[trigger] adj[u].len() == 0,
    ensures
        degree_sum(adj) == 0,
        loop_sum(adj) == 0,
    decreases adj.len(),
{
    if adj.len() > 0 {
        lemma_degree_sum_empty(adj.drop_last());
        lemma_occurrences_le(adj.last(), (adj.len() - 1) as usize);
    }
}

/// Adding a list adds one to the count exactly when that list names `v`
/// at any position.
pub proof fn lemma_lists_containing_push(adj: Seq<Seq<usize>>, l: Seq<usize>, v: usize)
    ensures
        lists_containing(adj.push(l), v) == lists_containing(adj, v) + if l.contains(v) {
            1nat
        } else {
            0nat
        },
{
    assert(adj.push(l).drop_last() =~= adj);
}

/// The lists counted are exactly those that name `v`.
pub proof fn lemma_lists_containing_filter(adj: Seq<Seq<usize>>, v: usize)
    ensures
        lists_containing(adj, v) == adj.filter(|l: Seq<usize>| l.contains(v)).len(),
    decreases adj.len(),
{
    if adj.len() > 0 {
        let p = adj.drop_last();
        lemma_lists_containing_filter(p, v);
        assert(adj =~= p.push(adj.last()));
        p.lemma_filter_push(adj.last(), |l: Seq<usize>| l.contains(v));
    } else {
        assert(adj.filter(|l: Seq<usize>| l.contains(v)) =~= Seq::<Seq<usize>>::empty());
    }
}

/// Adding a list adds its length to the total list length.
pub proof fn lemma_degree_sum_push(adj: Seq<Seq<usize>>, l: Seq<usize>)
    ensures
        degree_sum(adj.push(l)) == degree_sum(adj) + l.len(),
{
    assert(adj.push(l).drop_last() =~= adj);
}

/// Adding the list of a new last vertex adds how often it names that vertex.
pub proof fn lemma_loop_sum_push(adj: Seq<Seq<usize>>, l: Seq<usize>)
    ensures
        loop_sum(adj.push(l)) == loop_sum(adj) + occurrences(l, adj.len() as usize),
{
    assert(adj.push(l).drop_last() =~= adj);
}

} // verus!
