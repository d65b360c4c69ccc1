//! Shortest-path forests of directed graphs from a set of sources.
use self::min_heap::MinHeap;
use std::collections::VecDeque;
use vstd::multiset::Multiset;
use vstd::prelude::*;

pub mod min_heap;

verus! {

/// A weighted directed graph on `[0, n)`, as the list of the edges `(to, weight)` out of each
/// vertex.
pub type Graph = Seq<Seq<(int, int)>>;

/// `vs` and `js` are a walk in `g`: the vertices `vs[0], ..., vs[k]`, the `k`-th step taking the
/// edge `js[k]` out of `vs[k]`, which leads to `vs[k + 1]`.
pub open spec fn is_walk(g: Graph, vs: Seq<int>, js: Seq<int>) -> bool {
    &&& vs.len() == js.len() + 1
    &&& 0 <= vs.last() < g.len()
    &&& forall|k: int| 0 <= k < js.len() ==> #[trigger] is_step(g, vs, js, k)
}

/// The `k`-th step of the walk takes an edge out of `vs[k]` that leads to `vs[k + 1]`.
pub open spec fn is_step(g: Graph, vs: Seq<int>, js: Seq<int>, k: int) -> bool {
    &&& 0 <= vs[k] < g.len()
    &&& 0 <= js[k] < g[vs[k]].len()
    &&& g[vs[k]][js[k]].0 == vs[k + 1]
}

/// The total weight of a walk.
pub open spec fn walk_weight(g: Graph, vs: Seq<int>, js: Seq<int>) -> int
    decreases js.len(),
{
    if js.len() == 0 {
        0
    } else {
        walk_weight(g, vs.drop_last(), js.drop_last()) + g[vs[js.len() - 1]][js.last()].1
    }
}

/// A walk from a vertex of `sources` to `v`.
pub open spec fn is_walk_to(g: Graph, sources: Seq<usize>, vs: Seq<int>, js: Seq<int>, v: int) -> bool {
    &&& is_walk(g, vs, js)
    &&& is_source(sources, vs[0])
    &&& vs.last() == v
}

/// `x` is one of `sources`.
pub open spec fn is_source(sources: Seq<usize>, x: int) -> bool {
    exists|i: int| 0 <= i < sources.len() && sources[i] as int == x
}

/// Some walk from a vertex of `sources` to `v` has total weight `d`.
pub open spec fn reached_with(g: Graph, sources: Seq<usize>, v: int, d: int) -> bool {
    exists|vs: Seq<int>, js: Seq<int>| is_walk_to(g, sources, vs, js, v) && walk_weight(g, vs, js) == d
}

/// `d` is the minimum total weight of a walk from a vertex of `sources` to `v`.
pub open spec fn is_distance(g: Graph, sources: Seq<usize>, v: int, d: int) -> bool {
    &&& reached_with(g, sources, v, d)
    &&& forall|vs: Seq<int>, js: Seq<int>|
        #[trigger] is_walk_to(g, sources, vs, js, v) ==> walk_weight(g, vs, js) >= d
}

/// No walk from a vertex of `sources` reaches `v`.
pub open spec fn unreachable(g: Graph, sources: Seq<usize>, v: int) -> bool {
    forall|vs: Seq<int>, js: Seq<int>| !#[trigger] is_walk_to(g, sources, vs, js, v)
}

/// The graph of an adjacency list with weight `1` on every edge.
pub open spec fn unit_graph(adj: Seq<Vec<usize>>) -> Graph {
    Seq::new(adj.len(), |u: int| Seq::new(adj[u]@.len(), |j: int| (adj[u]@[j] as int, 1int)))
}

/// A walk extended by an edge out of its end is a walk, one edge heavier.
proof fn lemma_walk_push(g: Graph, sources: Seq<usize>, vs: Seq<int>, js: Seq<int>, u: int, j: int)
    requires
        is_walk_to(g, sources, vs, js, u),
        0 <= j < g[u].len(),
        0 <= g[u][j].0 < g.len(),
    ensures
        is_walk_to(g, sources, vs.push(g[u][j].0), js.push(j), g[u][j].0),
        walk_weight(g, vs.push(g[u][j].0), js.push(j)) == walk_weight(g, vs, js) + g[u][j].1,
{
    let vs2 = vs.push(g[u][j].0);
    let js2 = js.push(j);
    assert(is_walk(g, vs2, js2)) by {
        assert forall|k: int| 0 <= k < js2.len() implies #[trigger] is_step(g, vs2, js2, k) by {
            if k < js.len() {
                assert(is_step(g, vs, js, k));
                assert(js2[k] == js[k]);
                assert(vs2[k] == vs[k]);
                assert(vs2[k + 1] == vs[k + 1]);
            } else {
                assert(k == js.len());
                assert(vs2[k] == vs[vs.len() - 1]);
                assert(vs[vs.len() - 1] == vs.last());
            }
        }
    }
    assert(vs2.drop_last() =~= vs);
    assert(js2.drop_last() =~= js);
    assert(vs2[0] == vs[0]);
    let i = choose|i: int| 0 <= i < sources.len() && sources[i] as int == vs[0];
    assert(sources[i] as int == vs2[0]);
}

/// A potential: `d(s) = 0` on the sources and `d(v) <= d(u) + w` on every edge `u -> v` of weight `w`
/// out of a vertex with `d(u)` defined. Then every walk from a source ends at a vertex `v` with
/// `d(v)` defined and at most the weight of the walk.
pub open spec fn is_potential(g: Graph, sources: Seq<usize>, d: Seq<Option<int>>) -> bool {
    &&& d.len() == g.len()
    &&& forall|i: int| 0 <= i < sources.len() ==> #[trigger] d[sources[i] as int] == Some(0int)
    &&& forall|u: int, j: int|
        0 <= u < g.len() && 0 <= j < g[u].len() && #[trigger] d[u] is Some ==> 0 <= #[trigger] g[u][j].0
            < g.len() && d[g[u][j].0] is Some && d[g[u][j].0]->0 <= d[u]->0 + g[u][j].1
}

/// A walk from a source weighs at least the potential of its end.
pub proof fn lemma_potential(g: Graph, sources: Seq<usize>, d: Seq<Option<int>>, vs: Seq<int>, js: Seq<int>, v: int)
    requires
        is_potential(g, sources, d),
        is_walk_to(g, sources, vs, js, v),
    ensures
        d[v] is Some,
        d[v]->0 <= walk_weight(g, vs, js),
    decreases js.len(),
{
    if js.len() == 0 {
        let i = choose|i: int| 0 <= i < sources.len() && sources[i] as int == vs[0];
        assert(d[sources[i] as int] == Some(0int));
    } else {
        let vs1 = vs.drop_last();
        let js1 = js.drop_last();
        let u = vs[js.len() - 1];
        assert(is_walk_to(g, sources, vs1, js1, u)) by {
            assert forall|k: int| 0 <= k < js1.len() implies #[trigger] is_step(g, vs1, js1, k) by {
                assert(is_step(g, vs, js, k));
                assert(js1[k] == js[k]);
            }
            assert(is_step(g, vs, js, js.len() - 1));
            assert(js[js.len() - 1] == js.last());
            assert(vs1[0] == vs[0]);
            assert(vs1.last() == u);
            assert(0 <= js[js.len() - 1]);
            let i = choose|i: int| 0 <= i < sources.len() && sources[i] as int == vs[0];
            assert(sources[i] as int == vs1[0]);
            assert(is_walk(g, vs1, js1));
        }
        lemma_potential(g, sources, d, vs1, js1, u);
        assert(js[js.len() - 1] == js.last());
        assert(is_step(g, vs, js, js.len() - 1));
        let j = js.last();
        assert(g[u][j].0 == v);
    }
}

/// A shortest-path forest of a directed graph from a set of sources `S`: `d(v)` is the minimum
/// total weight of a walk from a vertex of `S` to `v`, undefined if none exists, and `p(v)` is a
/// vertex with an edge to `v` of weight `w` and `d(p(v)) + w = d(v)`, undefined if `d(v)` is, or
/// if `v` is in `S` and `d(v) = 0`. Following `p` from a vertex with `d` defined ends in `S`.
pub struct ShortestPathTree<W> {
    dist: Vec<Option<W>>,
    prev: Vec<Option<usize>>,
    rank: Ghost<Seq<int>>,
}

impl<W: Copy> ShortestPathTree<W> {
    /// `d(v)` as stored.
    pub closed spec fn spec_dist(self) -> Seq<Option<W>> {
        self.dist@
    }

    /// `p(v)` as stored.
    pub closed spec fn spec_prev(self) -> Seq<Option<usize>> {
        self.prev@
    }

    /// The predecessors decrease a rank, so that following them ends.
    pub closed spec fn wf(self) -> bool {
        &&& self.dist@.len() == self.prev@.len()
        &&& self.rank@.len() == self.prev@.len()
        &&& forall|v: int|
            0 <= v < self.prev@.len() && #[trigger] self.prev@[v] is Some ==> self.prev@[v]->0
                < self.prev@.len() && 0 <= self.rank@[self.prev@[v]->0 as int] < self.rank@[v]
        &&& forall|v: int| 0 <= v < self.prev@.len() ==> 0 <= #[trigger] self.rank@[v]
        &&& forall|v: int|
            0 <= v < self.prev@.len() && #[trigger] self.prev@[v] is Some ==> self.dist@[v] is Some
    }

    /// `d(v)`, or `None` if `d(v)` is undefined.
    pub fn dist(&self, v: usize) -> (d: Option<W>)
        requires
            self.wf(),
            v < self.spec_dist().len(),
        ensures
            d == self.spec_dist()[v as int],
    {
        self.dist[v]
    }

    /// `p(v)`, or `None` if `p(v)` is undefined.
    pub fn prev(&self, v: usize) -> (p: Option<usize>)
        requires
            self.wf(),
            v < self.spec_prev().len(),
        ensures
            p == self.spec_prev()[v as int],
    {
        self.prev[v]
    }

    /// The vertices `v_0, ..., v_k` of a shortest walk from a vertex of `S` to `t`: `v_k = t`,
    /// `v_{i-1} = p(v_i)` and `p(v_0)` undefined; or `None` if `d(t)` is undefined.
    pub fn path(&self, t: usize) -> (r: Option<Vec<usize>>)
        requires
            self.wf(),
            t < self.spec_dist().len(),
        ensures
            r is None <==> self.spec_dist()[t as int] is None,
            r matches Some(p) ==> p@.len() > 0 && p@.last() == t && self.spec_prev()[p@[0] as int]
                is None && forall|i: int|
                0 < i < p@.len() ==> self.spec_prev()[#[trigger] p@[i] as int] == Some(p@[i - 1]),
    {
        if self.dist[t].is_none() {
            return None;
        }
        let mut path: Vec<usize> = vec![t];
        let mut v = t;
        while self.prev[v].is_some()
            invariant
                self.wf(),
                v < self.prev@.len(),
                path@.len() > 0,
                path@[0] == t,
                path@.last() == v,
                forall|i: int| 0 < i < path@.len() ==> self.prev@[#[trigger] path@[i - 1] as int] == Some(path@[i]),
                forall|i: int| 0 <= i < path@.len() ==> #[trigger] path@[i] < self.prev@.len(),
            decreases self.rank@[v as int],
        {
            let u = self.prev[v].unwrap();
            let ghost old_path = path@;
            path.push(u);
            v = u;
            proof {
                assert forall|i: int| 0 < i < path@.len() implies self.prev@[#[trigger] path@[i - 1] as int]
                    == Some(path@[i]) by {
                    if i < old_path.len() {
                        assert(path@[i] == old_path[i]);
                    }
                    assert(path@[i - 1] == old_path[i - 1]);
                }
            }
        }
        let ghost fwd = path@;
        let n = path.len();
        let mut rev: Vec<usize> = Vec::with_capacity(n);
        let mut i: usize = n;
        while i > 0
            invariant
                i <= n,
                n == fwd.len(),
                path@ == fwd,
                rev@.len() == n - i,
                forall|k: int| 0 <= k < rev@.len() ==> #[trigger] rev@[k] == fwd[n - 1 - k],
            decreases i,
        {
            i = i - 1;
            rev.push(path[i]);
        }
        proof {
            assert(rev@.last() == fwd[0]);
            assert(rev@[0] == fwd[n - 1]);
            assert forall|k: int| 0 < k < rev@.len() implies self.prev@[#[trigger] rev@[k] as int]
                == Some(rev@[k - 1]) by {
                assert(rev@[k] == fwd[n - 1 - k]);
                assert(rev@[k - 1] == fwd[n - k]);
                assert(self.prev@[fwd[n - k - 1] as int] == Some(fwd[n - k]));
            }
        }
        Some(rev)
    }
}

/// The distances as integers.
pub open spec fn dist_ints(dist: Seq<Option<usize>>) -> Seq<Option<int>> {
    Seq::new(dist.len(), |v: int| if dist[v] is Some { Some(dist[v]->0 as int) } else { None })
}

/// The vertices reached are listed once each in `order`, which is the order in which they were
/// reached, each at a distance at most its position.
#[verifier::opaque]
pub open spec fn bfs_order(n: nat, dist: Seq<Option<usize>>, order: Seq<usize>) -> bool {
    &&& forall|k: int| 0 <= k < order.len() ==> #[trigger] order[k] < n
    &&& forall|a: int, b: int| 0 <= a < b < order.len() ==> order[a] != order[b]
    &&& forall|v: int| 0 <= v < n ==> (#[trigger] dist[v] is Some <==> order.contains(v as usize))
    &&& forall|k: int| 0 <= k < order.len() ==> #[trigger] dist[order[k] as int]->0 <= k
}

/// The distances along `order` are sorted, and within one of that of the last processed vertex.
#[verifier::opaque]
pub open spec fn bfs_levels(dist: Seq<Option<usize>>, order: Seq<usize>, head: int) -> bool {
    &&& forall|a: int, b: int|
        0 <= a <= b < order.len() ==> dist[#[trigger] order[a] as int]->0 <= dist[#[trigger] order[b] as int]->0
    &&& head > 0 ==> forall|b: int|
        0 <= b < order.len() ==> dist[#[trigger] order[b] as int]->0 <= dist[order[head - 1] as int]->0 + 1
    &&& head == 0 ==> forall|b: int| 0 <= b < order.len() ==> dist[#[trigger] order[b] as int]->0 == 0
}

/// The processed vertices (all edges of the first `head - 1`, the first `partial` edges of the
/// last) have their edges leading to reached vertices at most one further.
#[verifier::opaque]
pub open spec fn bfs_closed(adj: Seq<Vec<usize>>, dist: Seq<Option<usize>>, order: Seq<usize>, head: int, partial: int) -> bool {
    &&& forall|a: int| 0 <= a < head ==> #[trigger] order[a] < adj.len() && dist[order[a] as int] is Some
    &&& forall|a: int, j: int|
        0 <= a < head && 0 <= j < adj[order[a] as int]@.len() && (a < head - 1 || j < partial) ==> dist[#[trigger] adj[order[a] as int]@[j] as int]
            is Some && dist[adj[order[a] as int]@[j] as int]->0 <= dist[order[a] as int]->0 + 1
}

/// Every reached vertex is reached by a walk of its distance.
#[verifier::opaque]
pub open spec fn bfs_sound(adj: Seq<Vec<usize>>, sources: Seq<usize>, dist: Seq<Option<usize>>) -> bool {
    forall|v: int|
        0 <= v < adj.len() && #[trigger] dist[v] is Some ==> reached_with(unit_graph(adj), sources, v, dist[v]->0 as int)
}

/// The predecessors are reached, one closer, with an edge to their vertex; the reached vertices
/// without one are sources at distance `0`.
#[verifier::opaque]
pub open spec fn bfs_prev(adj: Seq<Vec<usize>>, sources: Seq<usize>, dist: Seq<Option<usize>>, prev: Seq<Option<usize>>) -> bool {
    &&& forall|v: int|
        0 <= v < adj.len() && #[trigger] prev[v] is Some ==> prev[v]->0 < adj.len() && dist[prev[v]->0 as int] is Some
            && dist[v] is Some && dist[v]->0 == dist[prev[v]->0 as int]->0 + 1 && adj[prev[v]->0 as int]@.contains(
            v as usize,
        )
    &&& forall|v: int|
        0 <= v < adj.len() && #[trigger] dist[v] is Some && prev[v] is None ==> is_source(sources, v) && dist[v]->0 == 0
}

/// The invariant of the breadth-first search.
pub open spec fn bfs_inv(
    adj: Seq<Vec<usize>>,
    sources: Seq<usize>,
    dist: Seq<Option<usize>>,
    prev: Seq<Option<usize>>,
    order: Seq<usize>,
    head: int,
    partial: int,
) -> bool {
    &&& dist.len() == adj.len()
    &&& prev.len() == adj.len()
    &&& 0 <= head <= order.len()
    &&& bfs_order(adj.len(), dist, order)
    &&& bfs_levels(dist, order, head)
    &&& bfs_closed(adj, dist, order, head, partial)
    &&& bfs_sound(adj, sources, dist)
    &&& bfs_prev(adj, sources, dist, prev)
}

impl ShortestPathTree<usize> {
    /// The shortest-path forest of the unweighted graph with an edge of weight `1` from `v` to
    /// each `u` in `adjacency[v]`, from the vertices `sources`, by breadth-first search.
    pub fn bfs(n: usize, sources: &[usize], adjacency: &[Vec<usize>]) -> (t: Self)
        requires
            adjacency@.len() == n,
            forall|i: int| 0 <= i < sources@.len() ==> #[trigger] sources@[i] < n,
            forall|u: int, j: int|
                0 <= u < n && 0 <= j < adjacency@[u]@.len() ==> #[trigger] adjacency@[u]@[j] < n,
        ensures
            t.wf(),
            t.spec_dist().len() == n,
            t.spec_prev().len() == n,
            forall|v: int|
                0 <= v < n ==> (#[trigger] t.spec_dist()[v] matches Some(d) ==> is_distance(
                    unit_graph(adjacency@),
                    sources@,
                    v,
                    d as int,
                )),
            forall|v: int|
                0 <= v < n ==> (#[trigger] t.spec_dist()[v] is None ==> unreachable(unit_graph(adjacency@), sources@, v)),
            forall|v: int|
                0 <= v < n && #[trigger] t.spec_prev()[v] is Some ==> t.spec_prev()[v]->0 < n
                    && adjacency@[t.spec_prev()[v]->0 as int]@.contains(v as usize) && t.spec_dist()[v]->0
                    == t.spec_dist()[t.spec_prev()[v]->0 as int]->0 + 1,
            forall|v: int|
                0 <= v < n && #[trigger] t.spec_dist()[v] is Some && t.spec_prev()[v] is None ==> is_source(
                    sources@,
                    v,
                ) && t.spec_dist()[v]->0 == 0,
            forall|v: int| 0 <= v < n && is_source(sources@, v) ==> #[trigger] t.spec_prev()[v] is None,
    {
        let ghost adj = adjacency@;
        let ghost g = unit_graph(adj);
        let mut dist: Vec<Option<usize>> = vec![None; n];
        let mut prev: Vec<Option<usize>> = vec![None; n];
        proof {
            assert forall|k: int| 0 <= k < sources@.len() implies #[trigger] prev@[sources@[k] as int] is None by {}
        }
        let mut queue: VecDeque<usize> = VecDeque::new();
        let ghost mut order: Seq<usize> = Seq::empty();
        proof {
            lemma_bfs_init(adj, sources@, dist@, prev@);
        }
        let mut i: usize = 0;
        while i < sources.len()
            invariant
                adj == adjacency@,
                g == unit_graph(adj),
                n == adj.len(),
                i <= sources@.len(),
                forall|i: int| 0 <= i < sources@.len() ==> #[trigger] sources@[i] < n,
                forall|u: int, j: int| 0 <= u < n && 0 <= j < adj[u]@.len() ==> #[trigger] adj[u]@[j] < n,
                bfs_inv(adj, sources@, dist@, prev@, order, 0, 0),
                queue@ == order,
                forall|k: int| 0 <= k < i ==> #[trigger] dist@[sources@[k] as int] == Some(0usize),
                forall|k: int| 0 <= k < sources@.len() ==> #[trigger] prev@[sources@[k] as int] is None,
            decreases sources@.len() - i,
        {
            let s = sources[i];
            if dist[s].is_none() {
                let ghost old_dist = dist@;
                let ghost old_order = order;
                dist.set(s, Some(0));
                queue.push_back(s);
                proof {
                    order = order.push(s);
                    assert(is_source(sources@, s as int)) by {
                        assert(sources@[i as int] as int == s as int);
                    }
                    lemma_source_walk(g, sources@, i as int);
                    lemma_order_push(n as nat, old_dist, dist@, old_order, s, 0);
                    lemma_levels_push(old_dist, dist@, old_order, 0, s, 0);
                    assert(bfs_closed(adj, dist@, order, 0, 0)) by {
                        reveal(bfs_closed);
                    }
                    lemma_sound_step(adj, sources@, old_dist, dist@, s, 0);
                    lemma_prev_source(adj, sources@, old_dist, dist@, prev@, s);
                }
            } else {
                proof {
                    lemma_levels_zero(n as nat, dist@, order, s);
                }
            }
            i = i + 1;
        }
        let ghost mut head: int = 0;
        while queue.len() > 0
            invariant
                adj == adjacency@,
                g == unit_graph(adj),
                n == adj.len(),
                forall|u: int, j: int| 0 <= u < n && 0 <= j < adj[u]@.len() ==> #[trigger] adj[u]@[j] < n,
                bfs_inv(adj, sources@, dist@, prev@, order, head, if head > 0 {
                    adj[order[head - 1] as int]@.len() as int
                } else {
                    0
                }),
                queue@ == order.subrange(head, order.len() as int),
                forall|i: int| 0 <= i < sources@.len() ==> #[trigger] sources@[i] < n,
                forall|k: int| 0 <= k < sources@.len() ==> #[trigger] dist@[sources@[k] as int] == Some(0usize),
                forall|k: int| 0 <= k < sources@.len() ==> #[trigger] prev@[sources@[k] as int] is None,
            decreases n - head,
        {
            let v = queue.pop_front().unwrap();
            proof {
                assert(v == order[head]);
                lemma_order_facts(n as nat, dist@, order, head);
                lemma_levels_enter(dist@, order, head);
                lemma_closed_enter(adj, dist@, order, head);
            }
            let d = dist[v].unwrap() + 1;
            let mut j: usize = 0;
            while j < adjacency[v].len()
                invariant
                    adj == adjacency@,
                    g == unit_graph(adj),
                    n == adj.len(),
                    forall|u: int, j: int| 0 <= u < n && 0 <= j < adj[u]@.len() ==> #[trigger] adj[u]@[j] < n,
                    0 <= head < order.len(),
                    order.len() <= n,
                    v == order[head],
                    v < n,
                    dist@[v as int] is Some,
                    dist@[v as int]->0 <= head,
                    d == dist@[v as int]->0 + 1,
                    j <= adj[v as int]@.len(),
                    bfs_inv(adj, sources@, dist@, prev@, order, head + 1, j as int),
                    queue@ == order.subrange(head + 1, order.len() as int),
                    forall|i: int| 0 <= i < sources@.len() ==> #[trigger] sources@[i] < n,
                    forall|k: int| 0 <= k < sources@.len() ==> #[trigger] dist@[sources@[k] as int] == Some(0usize),
                    forall|k: int| 0 <= k < sources@.len() ==> #[trigger] prev@[sources@[k] as int] is None,
                decreases adj[v as int]@.len() - j,
            {
                let u = adjacency[v][j];
                if dist[u].is_none() {
                    let ghost old_dist = dist@;
                    let ghost old_prev = prev@;
                    let ghost old_order = order;
                    dist.set(u, Some(d));
                    prev.set(u, Some(v));
                    proof {
                        assert forall|k: int| 0 <= k < sources@.len() implies #[trigger] prev@[sources@[k] as int] is None by {
                            if sources@[k] == u {
                                assert(old_dist[u as int] == Some(0usize));
                            } else {
                                assert(old_prev[sources@[k] as int] is None);
                            }
                        }
                    }
                    queue.push_back(u);
                    proof {
                        order = order.push(u);
                        lemma_order_push(n as nat, old_dist, dist@, old_order, u, d as int);
                        lemma_levels_push(old_dist, dist@, old_order, head + 1, u, d as int);
                        lemma_sound_extend(adj, sources@, old_dist, v, j as int);
                        lemma_sound_step(adj, sources@, old_dist, dist@, u, d as int);
                        lemma_prev_step(adj, sources@, old_dist, dist@, old_prev, prev@, v, u, j as int);
                        lemma_closed_step(adj, old_dist, dist@, old_order, order, head + 1, j as int, u);
                    }
                } else {
                    proof {
                        lemma_seen_bound(n as nat, dist@, order, head + 1, u);
                        lemma_closed_step(adj, dist@, dist@, order, order, head + 1, j as int, u);
                    }
                }
                j = j + 1;
            }
            proof {
                head = head + 1;
            }
        }
        proof {
            assert(head == order.len());
            lemma_bfs_potential(adj, sources@, dist@, order, head);
            lemma_bfs_done(adj, sources@, dist@);
            lemma_prev_facts(adj, sources@, dist@, prev@);
        }
        proof {
            assert forall|v: int| 0 <= v < n && is_source(sources@, v) implies #[trigger] prev@[v] is None by {
                let k = choose|k: int| 0 <= k < sources@.len() && sources@[k] as int == v;
                assert(prev@[sources@[k] as int] is None);
            }
        }
        let ghost rank = Seq::new(n as nat, |v: int| if dist@[v] is Some { dist@[v]->0 as int } else { 0 });
        let t = ShortestPathTree { dist, prev, rank: Ghost(rank) };
        t
    }
}

/// A source is reached with weight `0`.
proof fn lemma_source_walk(g: Graph, sources: Seq<usize>, i: int)
    requires
        0 <= i < sources.len(),
        sources[i] < g.len(),
    ensures
        reached_with(g, sources, sources[i] as int, 0),
{
    let vs = seq![sources[i] as int];
    let js = Seq::<int>::empty();
    assert(is_walk(g, vs, js));
    assert(is_source(sources, vs[0]));
    assert(is_walk_to(g, sources, vs, js, sources[i] as int));
    assert(walk_weight(g, vs, js) == 0);
}

/// Before any vertex is reached the invariant holds.
proof fn lemma_bfs_init(adj: Seq<Vec<usize>>, sources: Seq<usize>, dist: Seq<Option<usize>>, prev: Seq<Option<usize>>)
    requires
        dist.len() == adj.len(),
        prev.len() == adj.len(),
        forall|v: int| 0 <= v < adj.len() ==> #[trigger] dist[v] is None,
        forall|v: int| 0 <= v < adj.len() ==> #[trigger] prev[v] is None,
    ensures
        bfs_inv(adj, sources, dist, prev, Seq::empty(), 0, 0),
{
    reveal(bfs_order);
    reveal(bfs_levels);
    reveal(bfs_closed);
    reveal(bfs_sound);
    reveal(bfs_prev);
}

/// The facts `bfs_order` gives of one position of the order.
proof fn lemma_order_facts(n: nat, dist: Seq<Option<usize>>, order: Seq<usize>, k: int)
    requires
        bfs_order(n, dist, order),
        n <= usize::MAX,
        0 <= k < order.len(),
    ensures
        order[k] < n,
        dist[order[k] as int] is Some,
        dist[order[k] as int]->0 <= k,
        order.len() <= n,
{
    reveal(bfs_order);
    assert(order.contains(order[k]));
    crate::symmetric::lemma_distinct_bounded_len(order, n);
}

/// Reaching `u` at distance `du` appends it to the order.
proof fn lemma_order_push(n: nat, dist: Seq<Option<usize>>, dist2: Seq<Option<usize>>, order: Seq<usize>, u: usize, du: int)
    requires
        bfs_order(n, dist, order),
        dist.len() == n,
        n <= usize::MAX,
        u < n,
        dist[u as int] is None,
        0 <= du <= order.len(),
        dist2 == dist.update(u as int, Some(du as usize)),
    ensures
        bfs_order(n, dist2, order.push(u)),
        forall|k: int| 0 <= k < order.len() ==> #[trigger] order[k] != u && order[k] < n,
        order.len() < n,
{
    reveal(bfs_order);
    let o2 = order.push(u);
    assert(!order.contains(u));
    assert forall|k: int| 0 <= k < order.len() implies #[trigger] order[k] != u && order[k] < n by {
        assert(order.contains(order[k]));
    }
    assert forall|k: int| 0 <= k < o2.len() implies #[trigger] o2[k] < n by {
        if k < order.len() {
            assert(o2[k] == order[k]);
        }
    }
    assert forall|a: int, b: int| 0 <= a < b < o2.len() implies o2[a] != o2[b] by {
        if b == order.len() {
            assert(o2[a] == order[a]);
            assert(order[a] != u);
        }
    }
    assert forall|v: int| 0 <= v < n implies (#[trigger] dist2[v] is Some <==> o2.contains(v as usize)) by {
        crate::graph::max_flow::lemma_push_contains(order, u, v as usize);
    }
    assert forall|k: int| 0 <= k < o2.len() implies #[trigger] dist2[o2[k] as int]->0 <= k by {
        if k < order.len() {
            assert(o2[k] == order[k]);
            assert(order[k] != u);
            assert(order.contains(order[k]));
        }
    }
    crate::symmetric::lemma_distinct_bounded_len(o2, n);
}

/// Appending a vertex one further than the last processed one keeps the levels.
proof fn lemma_levels_push(dist: Seq<Option<usize>>, dist2: Seq<Option<usize>>, order: Seq<usize>, h: int, u: usize, du: int)
    requires
        bfs_levels(dist, order, h),
        0 <= h <= order.len(),
        u < dist.len(),
        forall|k: int| 0 <= k < order.len() ==> #[trigger] order[k] != u,
        0 <= du <= usize::MAX,
        dist2 == dist.update(u as int, Some(du as usize)),
        h > 0 ==> du == dist[order[h - 1] as int]->0 + 1,
        h == 0 ==> du == 0,
        forall|k: int| 0 <= k < order.len() ==> #[trigger] order[k] < dist.len(),
    ensures
        bfs_levels(dist2, order.push(u), h),
{
    reveal(bfs_levels);
    let o2 = order.push(u);
    assert forall|k: int| 0 <= k < order.len() implies dist2[#[trigger] o2[k] as int] == dist[order[k] as int] by {
        assert(o2[k] == order[k]);
        assert(order[k] != u);
    }
    assert(o2[order.len() as int] == u);
    assert forall|a: int, b: int| 0 <= a <= b < o2.len() implies dist2[#[trigger] o2[a] as int]->0 <= dist2[#[trigger] o2[b] as int]->0 by {
        if b < order.len() {
            assert(dist[order[a] as int]->0 <= dist[order[b] as int]->0);
        } else if a < order.len() {
            if h > 0 {
                assert(dist[order[a] as int]->0 <= dist[order[h - 1] as int]->0 + 1);
            } else {
                assert(dist[order[a] as int]->0 == 0);
            }
        }
    }
    if h > 0 {
        assert(o2[h - 1] == order[h - 1]);
        assert forall|b: int| 0 <= b < o2.len() implies dist2[#[trigger] o2[b] as int]->0 <= dist2[o2[h - 1] as int]->0 + 1 by {
            if b < order.len() {
                assert(dist[order[b] as int]->0 <= dist[order[h - 1] as int]->0 + 1);
            }
        }
    } else {
        assert forall|b: int| 0 <= b < o2.len() implies dist2[#[trigger] o2[b] as int]->0 == 0 by {
            if b < order.len() {
                assert(dist[order[b] as int]->0 == 0);
            }
        }
    }
}

/// Before any vertex is processed every reached vertex is at distance `0`.
proof fn lemma_levels_zero(n: nat, dist: Seq<Option<usize>>, order: Seq<usize>, s: usize)
    requires
        bfs_order(n, dist, order),
        bfs_levels(dist, order, 0),
        s < n,
        dist[s as int] is Some,
    ensures
        dist[s as int] == Some(0usize),
{
    reveal(bfs_order);
    reveal(bfs_levels);
    assert(order.contains(s));
    let k = choose|k: int| 0 <= k < order.len() && order[k] == s;
    assert(dist[order[k] as int]->0 == 0);
}

/// Taking the next vertex of the order keeps the levels.
proof fn lemma_levels_enter(dist: Seq<Option<usize>>, order: Seq<usize>, head: int)
    requires
        bfs_levels(dist, order, head),
        0 <= head < order.len(),
    ensures
        bfs_levels(dist, order, head + 1),
{
    reveal(bfs_levels);
    assert forall|b: int| 0 <= b < order.len() implies dist[#[trigger] order[b] as int]->0 <= dist[order[head] as int]->0 + 1 by {
        if head > 0 {
            assert(dist[order[head - 1] as int]->0 <= dist[order[head] as int]->0);
            assert(dist[order[b] as int]->0 <= dist[order[head - 1] as int]->0 + 1);
        } else {
            assert(dist[order[b] as int]->0 == 0);
            assert(dist[order[head] as int]->0 == 0);
        }
    }
}

/// Taking the next vertex, all of whose edges are still to be looked at, keeps the closure.
proof fn lemma_closed_enter(adj: Seq<Vec<usize>>, dist: Seq<Option<usize>>, order: Seq<usize>, head: int)
    requires
        bfs_closed(adj, dist, order, head, if head > 0 {
            adj[order[head - 1] as int]@.len() as int
        } else {
            0
        }),
        0 <= head < order.len(),
        order[head] < adj.len(),
        dist[order[head] as int] is Some,
    ensures
        bfs_closed(adj, dist, order, head + 1, 0),
{
    reveal(bfs_closed);
}

/// A vertex already reached is at most one further than the vertex being processed.
proof fn lemma_seen_bound(n: nat, dist: Seq<Option<usize>>, order: Seq<usize>, h: int, u: usize)
    requires
        bfs_order(n, dist, order),
        bfs_levels(dist, order, h),
        0 < h <= order.len(),
        u < n,
        dist[u as int] is Some,
    ensures
        dist[u as int]->0 <= dist[order[h - 1] as int]->0 + 1,
{
    reveal(bfs_order);
    reveal(bfs_levels);
    assert(order.contains(u));
    let k = choose|k: int| 0 <= k < order.len() && order[k] == u;
    assert(dist[order[k] as int]->0 <= dist[order[h - 1] as int]->0 + 1);
}

/// Looking at one more edge of the vertex being processed, whose end is reached at most one
/// further, keeps the closure.
proof fn lemma_closed_step(
    adj: Seq<Vec<usize>>,
    dist: Seq<Option<usize>>,
    dist2: Seq<Option<usize>>,
    order: Seq<usize>,
    order2: Seq<usize>,
    h: int,
    j: int,
    u: usize,
)
    requires
        bfs_closed(adj, dist, order, h, j),
        0 < h <= order.len(),
        order.len() <= order2.len(),
        forall|a: int| 0 <= a < order.len() ==> #[trigger] order2[a] == order[a],
        dist.len() == adj.len(),
        dist2.len() == adj.len(),
        forall|x: int, i: int| 0 <= x < adj.len() && 0 <= i < adj[x]@.len() ==> #[trigger] adj[x]@[i] < adj.len(),
        forall|w: int| 0 <= w < adj.len() && #[trigger] dist[w] is Some ==> dist2[w] == dist[w],
        0 <= j < adj[order[h - 1] as int]@.len(),
        u == adj[order[h - 1] as int]@[j],
        dist2[u as int] is Some,
        dist2[u as int]->0 <= dist2[order[h - 1] as int]->0 + 1,
    ensures
        bfs_closed(adj, dist2, order2, h, j + 1),
{
    reveal(bfs_closed);
    assert forall|a: int| 0 <= a < h implies #[trigger] order2[a] < adj.len() && dist2[order2[a] as int] is Some by {
        assert(order2[a] == order[a]);
        assert(order[a] < adj.len() && dist[order[a] as int] is Some);
    }
    assert forall|a: int, jj: int|
        0 <= a < h && 0 <= jj < adj[order2[a] as int]@.len() && (a < h - 1 || jj < j + 1) implies dist2[#[trigger] adj[order2[a] as int]@[jj] as int]
        is Some && dist2[adj[order2[a] as int]@[jj] as int]->0 <= dist2[order2[a] as int]->0 + 1 by {
        assert(order2[a] == order[a]);
        assert(order[a] < adj.len() && dist[order[a] as int] is Some);
        assert(order2[h - 1] == order[h - 1]);
        if !(a == h - 1 && jj == j) {
            let w = adj[order[a] as int]@[jj];
            assert(dist[w as int] is Some && dist[w as int]->0 <= dist[order[a] as int]->0 + 1);
            assert(w < adj.len());
        }
    }
}

/// Every walk of a reached vertex extends along an edge out of it.
proof fn lemma_sound_extend(adj: Seq<Vec<usize>>, sources: Seq<usize>, dist: Seq<Option<usize>>, v: usize, j: int)
    requires
        bfs_sound(adj, sources, dist),
        v < adj.len(),
        dist[v as int] is Some,
        0 <= j < adj[v as int]@.len(),
        adj[v as int]@[j] < adj.len(),
    ensures
        reached_with(unit_graph(adj), sources, adj[v as int]@[j] as int, dist[v as int]->0 + 1),
{
    reveal(bfs_sound);
    let g = unit_graph(adj);
    let (vs, js) = choose|vs: Seq<int>, js: Seq<int>|
        is_walk_to(g, sources, vs, js, v as int) && walk_weight(g, vs, js) == dist[v as int]->0 as int;
    assert(g[v as int][j] == (adj[v as int]@[j] as int, 1int));
    lemma_walk_push(g, sources, vs, js, v as int, j);
}

/// Reaching `u` with the weight of a walk to it keeps soundness.
proof fn lemma_sound_step(adj: Seq<Vec<usize>>, sources: Seq<usize>, dist: Seq<Option<usize>>, dist2: Seq<Option<usize>>, u: usize, du: int)
    requires
        bfs_sound(adj, sources, dist),
        dist.len() == adj.len(),
        u < adj.len(),
        0 <= du <= usize::MAX,
        dist2 == dist.update(u as int, Some(du as usize)),
        reached_with(unit_graph(adj), sources, u as int, du),
    ensures
        bfs_sound(adj, sources, dist2),
{
    reveal(bfs_sound);
    assert forall|w: int| 0 <= w < adj.len() && #[trigger] dist2[w] is Some implies reached_with(
        unit_graph(adj),
        sources,
        w,
        dist2[w]->0 as int,
    ) by {
        if w != u {
            assert(dist2[w] == dist[w]);
        }
    }
}

/// Reaching a source at distance `0` keeps the predecessors.
proof fn lemma_prev_source(
    adj: Seq<Vec<usize>>,
    sources: Seq<usize>,
    dist: Seq<Option<usize>>,
    dist2: Seq<Option<usize>>,
    prev: Seq<Option<usize>>,
    s: usize,
)
    requires
        bfs_prev(adj, sources, dist, prev),
        dist.len() == adj.len(),
        prev.len() == adj.len(),
        s < adj.len(),
        dist[s as int] is None,
        dist2 == dist.update(s as int, Some(0usize)),
        is_source(sources, s as int),
    ensures
        bfs_prev(adj, sources, dist2, prev),
{
    reveal(bfs_prev);
    assert forall|v: int|
        0 <= v < adj.len() && #[trigger] prev[v] is Some implies prev[v]->0 < adj.len() && dist2[prev[v]->0 as int] is Some
            && dist2[v] is Some && dist2[v]->0 == dist2[prev[v]->0 as int]->0 + 1 && adj[prev[v]->0 as int]@.contains(
            v as usize,
        ) by {
        assert(dist[prev[v]->0 as int] is Some);
        assert(dist[v] is Some);
    }
    assert forall|v: int|
        0 <= v < adj.len() && #[trigger] dist2[v] is Some && prev[v] is None implies is_source(sources, v) && dist2[v]->0 == 0 by {
        if v != s {
            assert(dist2[v] == dist[v]);
        }
    }
}

/// Reaching `u` from `v` along the edge `j` keeps the predecessors.
proof fn lemma_prev_step(
    adj: Seq<Vec<usize>>,
    sources: Seq<usize>,
    dist: Seq<Option<usize>>,
    dist2: Seq<Option<usize>>,
    prev: Seq<Option<usize>>,
    prev2: Seq<Option<usize>>,
    v: usize,
    u: usize,
    j: int,
)
    requires
        bfs_prev(adj, sources, dist, prev),
        dist.len() == adj.len(),
        prev.len() == adj.len(),
        v < adj.len(),
        u < adj.len(),
        dist[v as int] is Some,
        dist[u as int] is None,
        0 <= j < adj[v as int]@.len(),
        adj[v as int]@[j] == u,
        dist[v as int]->0 + 1 <= usize::MAX,
        dist2 == dist.update(u as int, Some((dist[v as int]->0 + 1) as usize)),
        prev2 == prev.update(u as int, Some(v)),
    ensures
        bfs_prev(adj, sources, dist2, prev2),
{
    reveal(bfs_prev);
    assert forall|w: int|
        0 <= w < adj.len() && #[trigger] prev2[w] is Some implies prev2[w]->0 < adj.len() && dist2[prev2[w]->0 as int] is Some
            && dist2[w] is Some && dist2[w]->0 == dist2[prev2[w]->0 as int]->0 + 1 && adj[prev2[w]->0 as int]@.contains(
            w as usize,
        ) by {
        if w == u {
            assert(adj[v as int]@[j] == u);
            assert(dist2[v as int] == dist[v as int]);
        } else {
            assert(prev2[w] == prev[w]);
            let x = prev[w]->0;
            assert(dist[x as int] is Some);
            assert(dist[w] is Some);
        }
    }
    assert forall|w: int|
        0 <= w < adj.len() && #[trigger] dist2[w] is Some && prev2[w] is None implies is_source(sources, w) && dist2[w]->0 == 0 by {
        assert(w != u);
        assert(dist2[w] == dist[w]);
        assert(prev2[w] == prev[w]);
    }
}

/// When every reached vertex is processed, the distances form a potential.
proof fn lemma_bfs_potential(adj: Seq<Vec<usize>>, sources: Seq<usize>, dist: Seq<Option<usize>>, order: Seq<usize>, head: int)
    requires
        bfs_order(adj.len(), dist, order),
        bfs_closed(adj, dist, order, head, if head > 0 {
            adj[order[head - 1] as int]@.len() as int
        } else {
            0
        }),
        head == order.len(),
        dist.len() == adj.len(),
        adj.len() <= usize::MAX,
        forall|k: int| 0 <= k < sources.len() ==> #[trigger] dist[sources[k] as int] == Some(0usize),
        forall|k: int| 0 <= k < sources.len() ==> #[trigger] sources[k] < adj.len(),
        forall|u: int, j: int| 0 <= u < adj.len() && 0 <= j < adj[u]@.len() ==> #[trigger] adj[u]@[j] < adj.len(),
    ensures
        is_potential(unit_graph(adj), sources, dist_ints(dist)),
{
    reveal(bfs_order);
    reveal(bfs_closed);
    let g = unit_graph(adj);
    let d = dist_ints(dist);
    assert forall|i: int| 0 <= i < sources.len() implies #[trigger] d[sources[i] as int] == Some(0int) by {
        assert(dist[sources[i] as int] == Some(0usize));
    }
    assert forall|u: int, j: int|
        0 <= u < g.len() && 0 <= j < g[u].len() && #[trigger] d[u] is Some implies 0 <= #[trigger] g[u][j].0
        < g.len() && d[g[u][j].0] is Some && d[g[u][j].0]->0 <= d[u]->0 + g[u][j].1 by {
        assert(dist[u] is Some);
        assert(order.contains(u as usize));
        let a = choose|a: int| 0 <= a < order.len() && order[a] == u as usize;
        assert(order[a] as int == u);
        assert(g[u][j] == (adj[u]@[j] as int, 1int));
        assert(a < head - 1 || j < adj[order[head - 1] as int]@.len());
        assert(adj[order[a] as int]@[j] == adj[u]@[j]);
        assert(adj[u]@[j] < adj.len());
    }
}

/// Distances that form a potential and are each reached are the least weights of walks, and
/// the vertices without one are unreachable.
proof fn lemma_bfs_done(adj: Seq<Vec<usize>>, sources: Seq<usize>, dist: Seq<Option<usize>>)
    requires
        is_potential(unit_graph(adj), sources, dist_ints(dist)),
        bfs_sound(adj, sources, dist),
        dist.len() == adj.len(),
    ensures
        forall|v: int|
            0 <= v < adj.len() ==> (#[trigger] dist[v] matches Some(d) ==> is_distance(unit_graph(adj), sources, v, d as int)),
        forall|v: int| 0 <= v < adj.len() ==> (#[trigger] dist[v] is None ==> unreachable(unit_graph(adj), sources, v)),
{
    reveal(bfs_sound);
    let g = unit_graph(adj);
    let d = dist_ints(dist);
    assert forall|v: int| 0 <= v < adj.len() implies (#[trigger] dist[v] matches Some(dd) ==> is_distance(g, sources, v, dd as int)) by {
        if dist[v] is Some {
            assert forall|vs: Seq<int>, js: Seq<int>| #[trigger] is_walk_to(g, sources, vs, js, v) implies walk_weight(
                g,
                vs,
                js,
            ) >= dist[v]->0 by {
                lemma_potential(g, sources, d, vs, js, v);
            }
        }
    }
    assert forall|v: int| 0 <= v < adj.len() && #[trigger] dist[v] is None implies unreachable(g, sources, v) by {
        {
            assert forall|vs: Seq<int>, js: Seq<int>| !#[trigger] is_walk_to(g, sources, vs, js, v) by {
                if is_walk_to(g, sources, vs, js, v) {
                    lemma_potential(g, sources, d, vs, js, v);
                }
            }
        }
    }
}

/// The predecessor facts, unfolded.
proof fn lemma_prev_facts(adj: Seq<Vec<usize>>, sources: Seq<usize>, dist: Seq<Option<usize>>, prev: Seq<Option<usize>>)
    requires
        bfs_prev(adj, sources, dist, prev),
    ensures
        forall|v: int|
            0 <= v < adj.len() && #[trigger] prev[v] is Some ==> prev[v]->0 < adj.len() && dist[prev[v]->0 as int] is Some
                && dist[v] is Some && dist[v]->0 == dist[prev[v]->0 as int]->0 + 1 && adj[prev[v]->0 as int]@.contains(
                v as usize,
            ),
        forall|v: int|
            0 <= v < adj.len() && #[trigger] dist[v] is Some && prev[v] is None ==> is_source(sources, v) && dist[v]->0 == 0,
{
    reveal(bfs_prev);
}


/// The graph of a weighted adjacency list: an edge of weight `w` from `u` to `v` for each `(v, w)`
/// in `adj[u]`.
pub open spec fn weighted_graph(adj: Seq<Vec<(usize, usize)>>) -> Graph {
    Seq::new(
        adj.len(),
        |u: int| Seq::new(adj[u]@.len(), |j: int| (adj[u]@[j].0 as int, adj[u]@[j].1 as int)),
    )
}

/// The distances as integers.
pub open spec fn weighted_dist_ints(dist: Seq<Option<usize>>) -> Seq<Option<int>> {
    Seq::new(dist.len(), |v: int| if dist[v] is Some { Some(dist[v]->0 as int) } else { None })
}

/// A tentative distance as a number, `None` above every `usize`.
pub open spec fn key_of(x: Option<usize>) -> int {
    match x {
        Some(d) => d as int,
        None => usize::MAX + 1,
    }
}

/// The sum of the tentative distances, which every improvement decreases.
pub open spec fn total_key(s: Seq<Option<usize>>) -> int
    decreases s.len(),
{
    if s.len() == 0 {
        0
    } else {
        total_key(s.drop_last()) + key_of(s.last())
    }
}

/// Changing one tentative distance changes the sum by the difference.
proof fn lemma_total_key_update(s: Seq<Option<usize>>, i: int, x: Option<usize>)
    requires
        0 <= i < s.len(),
    ensures
        total_key(s.update(i, x)) == total_key(s) - key_of(s[i]) + key_of(x),
        total_key(s) >= 0,
    decreases s.len(),
{
    let t = s.update(i, x);
    if i == s.len() - 1 {
        assert(t.drop_last() =~= s.drop_last());
        lemma_total_key_nonneg(s.drop_last());
    } else {
        lemma_total_key_update(s.drop_last(), i, x);
        assert(t.drop_last() =~= s.drop_last().update(i, x));
    }
}

proof fn lemma_total_key_nonneg(s: Seq<Option<usize>>)
    ensures
        total_key(s) >= 0,
    decreases s.len(),
{
    if s.len() > 0 {
        lemma_total_key_nonneg(s.drop_last());
    }
}

/// `p` has an edge to `v` whose weight is the difference of their distances.
pub open spec fn tight_edge(adj: Seq<Vec<(usize, usize)>>, dist: Seq<Option<usize>>, p: int, v: int) -> bool {
    exists|j: int|
        0 <= j < adj[p]@.len() && (#[trigger] adj[p]@[j]).0 == v && dist[v]->0 == dist[p]->0 + adj[p]@[j].1
}

/// Every tentative distance is the weight of a walk.
#[verifier::opaque]
pub open spec fn dk_sound(adj: Seq<Vec<(usize, usize)>>, sources: Seq<usize>, dist: Seq<Option<usize>>) -> bool {
    forall|v: int|
        0 <= v < adj.len() && #[trigger] dist[v] is Some ==> reached_with(
            weighted_graph(adj),
            sources,
            v,
            dist[v]->0 as int,
        )
}

/// The settled vertices (`stamp >= 0`) have their distances.
#[verifier::opaque]
pub open spec fn dk_settled(adj: Seq<Vec<(usize, usize)>>, sources: Seq<usize>, dist: Seq<Option<usize>>, stamp: Seq<int>) -> bool {
    forall|v: int|
        0 <= v < adj.len() && #[trigger] stamp[v] >= 0 ==> dist[v] is Some && is_distance(
            weighted_graph(adj),
            sources,
            v,
            dist[v]->0 as int,
        )
}

/// The edges out of the settled vertices (of `cur` only the first `partial`) lead to vertices at
/// most as far as through them.
#[verifier::opaque]
pub open spec fn dk_closed(adj: Seq<Vec<(usize, usize)>>, dist: Seq<Option<usize>>, stamp: Seq<int>, cur: int, partial: int) -> bool {
    forall|x: int, j: int|
        0 <= x < adj.len() && stamp[x] >= 0 && 0 <= j < adj[x]@.len() && (x != cur || j < partial) ==> dist[(
        #[trigger] adj[x]@[j]).0 as int] is Some && dist[adj[x]@[j].0 as int]->0 <= dist[x]->0 + adj[x]@[j].1
}

/// The heap holds the tentative distance of every unsettled vertex that has one, and each of its
/// items is at least the current tentative distance of its vertex.
#[verifier::opaque]
pub open spec fn dk_heap(n: nat, dist: Seq<Option<usize>>, stamp: Seq<int>, h: Multiset<(usize, usize)>) -> bool {
    &&& forall|v: int| 0 <= v < n && stamp[v] < 0 && #[trigger] dist[v] is Some ==> h.contains((dist[v]->0, v as usize))
    &&& forall|e: (usize, usize)| #[trigger] h.contains(e) ==> e.1 < n && dist[e.1 as int] is Some && dist[e.1 as int]->0 <= e.0
}

/// The predecessors are settled before their vertex, along tight edges; the vertices reached
/// without one are sources at distance `0`.
#[verifier::opaque]
pub open spec fn dk_prev(
    adj: Seq<Vec<(usize, usize)>>,
    sources: Seq<usize>,
    dist: Seq<Option<usize>>,
    prev: Seq<Option<usize>>,
    stamp: Seq<int>,
) -> bool {
    &&& forall|v: int|
        0 <= v < adj.len() && #[trigger] prev[v] is Some ==> prev[v]->0 < adj.len() && stamp[prev[v]->0 as int] >= 0 && (
        stamp[v] >= 0 ==> stamp[prev[v]->0 as int] < stamp[v]) && dist[v] is Some && dist[prev[v]->0 as int] is Some
            && tight_edge(adj, dist, prev[v]->0 as int, v)
    &&& forall|v: int|
        0 <= v < adj.len() && #[trigger] dist[v] is Some && prev[v] is None ==> is_source(sources, v) && dist[v]->0 == 0
}

/// The invariant of Dijkstra's algorithm.
pub open spec fn dk_inv(
    adj: Seq<Vec<(usize, usize)>>,
    sources: Seq<usize>,
    dist: Seq<Option<usize>>,
    prev: Seq<Option<usize>>,
    stamp: Seq<int>,
    clock: int,
    h: Multiset<(usize, usize)>,
    cur: int,
    partial: int,
) -> bool {
    &&& dist.len() == adj.len()
    &&& prev.len() == adj.len()
    &&& stamp.len() == adj.len()
    &&& forall|v: int| 0 <= v < adj.len() ==> #[trigger] stamp[v] < clock
    &&& dk_sound(adj, sources, dist)
    &&& dk_settled(adj, sources, dist, stamp)
    &&& dk_closed(adj, dist, stamp, cur, partial)
    &&& dk_heap(adj.len(), dist, stamp, h)
    &&& dk_prev(adj, sources, dist, prev, stamp)
}

/// The weight of the first `k` edges of a walk.
pub open spec fn prefix_weight(g: Graph, vs: Seq<int>, js: Seq<int>, k: int) -> int {
    walk_weight(g, vs.take(k + 1), js.take(k))
}

/// One more edge adds its weight to the prefix.
proof fn lemma_prefix_weight(g: Graph, vs: Seq<int>, js: Seq<int>, k: int)
    requires
        is_walk(g, vs, js),
        0 <= k < js.len(),
    ensures
        prefix_weight(g, vs, js, k + 1) == prefix_weight(g, vs, js, k) + g[vs[k]][js[k]].1,
        prefix_weight(g, vs, js, js.len() as int) == walk_weight(g, vs, js),
{
    let a = vs.take(k + 2);
    let b = js.take(k + 1);
    assert(a.drop_last() =~= vs.take(k + 1));
    assert(b.drop_last() =~= js.take(k));
    assert(a[k] == vs[k]);
    assert(b.last() == js[k]);
    assert(vs.take(js.len() + 1int) =~= vs);
    assert(js.take(js.len() as int) =~= js);
}

/// Before any vertex is reached the invariant holds.
proof fn lemma_dk_init(
    adj: Seq<Vec<(usize, usize)>>,
    sources: Seq<usize>,
    dist: Seq<Option<usize>>,
    prev: Seq<Option<usize>>,
    stamp: Seq<int>,
)
    requires
        dist.len() == adj.len(),
        prev.len() == adj.len(),
        stamp.len() == adj.len(),
        forall|v: int| 0 <= v < adj.len() ==> #[trigger] dist[v] is None,
        forall|v: int| 0 <= v < adj.len() ==> #[trigger] prev[v] is None,
        forall|v: int| 0 <= v < adj.len() ==> #[trigger] stamp[v] == -1,
    ensures
        dk_inv(adj, sources, dist, prev, stamp, 0, Multiset::empty(), -1, 0),
{
    reveal(dk_sound);
    reveal(dk_settled);
    reveal(dk_closed);
    reveal(dk_heap);
    reveal(dk_prev);
}

/// A walk of a reached vertex extends along an edge out of it.
proof fn lemma_dk_extend(adj: Seq<Vec<(usize, usize)>>, sources: Seq<usize>, dist: Seq<Option<usize>>, v: int, j: int)
    requires
        dk_sound(adj, sources, dist),
        0 <= v < adj.len(),
        dist[v] is Some,
        0 <= j < adj[v]@.len(),
        adj[v]@[j].0 < adj.len(),
    ensures
        reached_with(weighted_graph(adj), sources, adj[v]@[j].0 as int, dist[v]->0 + adj[v]@[j].1),
{
    reveal(dk_sound);
    let g = weighted_graph(adj);
    let (vs, js) = choose|vs: Seq<int>, js: Seq<int>|
        is_walk_to(g, sources, vs, js, v) && walk_weight(g, vs, js) == dist[v]->0 as int;
    assert(g[v][j] == (adj[v]@[j].0 as int, adj[v]@[j].1 as int));
    lemma_walk_push(g, sources, vs, js, v, j);
}

/// A settled vertex has its distance.
proof fn lemma_dk_settled_fact(adj: Seq<Vec<(usize, usize)>>, sources: Seq<usize>, dist: Seq<Option<usize>>, stamp: Seq<int>, v: int)
    requires
        dk_settled(adj, sources, dist, stamp),
        0 <= v < adj.len(),
        stamp[v] >= 0,
    ensures
        dist[v] is Some,
        is_distance(weighted_graph(adj), sources, v, dist[v]->0 as int),
{
    reveal(dk_settled);
}

/// An edge between two settled vertices is no shortcut.
proof fn lemma_dk_settled_bound(adj: Seq<Vec<(usize, usize)>>, sources: Seq<usize>, dist: Seq<Option<usize>>, stamp: Seq<int>, v: int, j: int)
    requires
        dk_settled(adj, sources, dist, stamp),
        0 <= v < adj.len(),
        stamp[v] >= 0,
        0 <= j < adj[v]@.len(),
        adj[v]@[j].0 < adj.len(),
        stamp[adj[v]@[j].0 as int] >= 0,
    ensures
        dist[adj[v]@[j].0 as int] is Some,
        dist[adj[v]@[j].0 as int]->0 <= dist[v]->0 + adj[v]@[j].1,
{
    reveal(dk_settled);
    let g = weighted_graph(adj);
    let u = adj[v]@[j].0 as int;
    let (vs, js) = choose|vs: Seq<int>, js: Seq<int>|
        is_walk_to(g, sources, vs, js, v) && walk_weight(g, vs, js) == dist[v]->0 as int;
    assert(g[v][j] == (u, adj[v]@[j].1 as int));
    lemma_walk_push(g, sources, vs, js, v, j);
    assert(is_walk_to(g, sources, vs.push(u), js.push(j), u));
}

/// A walk from a source through settled vertices then unsettled ones: each prefix either ends at
/// a settled vertex and weighs at least its distance, or weighs at least `d`, the least tentative
/// distance of an unsettled vertex.
proof fn lemma_dk_prefix(
    adj: Seq<Vec<(usize, usize)>>,
    sources: Seq<usize>,
    dist: Seq<Option<usize>>,
    stamp: Seq<int>,
    vs: Seq<int>,
    js: Seq<int>,
    d: int,
    k: int,
)
    requires
        dk_closed(adj, dist, stamp, -1, 0),
        dist.len() == adj.len(),
        stamp.len() == adj.len(),
        is_walk(weighted_graph(adj), vs, js),
        is_source(sources, vs[0]),
        0 <= k < vs.len(),
        forall|i: int| 0 <= i < sources.len() ==> #[trigger] dist[sources[i] as int] == Some(0usize),
        forall|x: int| 0 <= x < adj.len() && stamp[x] < 0 && #[trigger] dist[x] is Some ==> d <= dist[x]->0,
    ensures
        0 <= vs[k] < adj.len(),
        (stamp[vs[k]] >= 0 && prefix_weight(weighted_graph(adj), vs, js, k) >= dist[vs[k]]->0)
            || prefix_weight(weighted_graph(adj), vs, js, k) >= d,
    decreases k,
{
    let g = weighted_graph(adj);
    if k == 0 {
        let i = choose|i: int| 0 <= i < sources.len() && sources[i] as int == vs[0];
        assert(dist[sources[i] as int] == Some(0usize));
        assert(js.take(0).len() == 0);
        if js.len() == 0 {
            assert(vs.last() == vs[0]);
        } else {
            assert(is_step(g, vs, js, 0));
        }
    } else {
        lemma_dk_prefix(adj, sources, dist, stamp, vs, js, d, k - 1);
        lemma_prefix_weight(g, vs, js, k - 1);
        assert(is_step(g, vs, js, k - 1));
        let x = vs[k - 1];
        let j = js[k - 1];
        assert(g[x][j] == (adj[x]@[j].0 as int, adj[x]@[j].1 as int));
        if k == js.len() {
            assert(vs[k] == vs.last());
        } else {
            assert(is_step(g, vs, js, k));
        }
        if stamp[x] >= 0 && prefix_weight(g, vs, js, k - 1) >= dist[x]->0 {
            reveal(dk_closed);
            assert(dist[adj[x]@[j].0 as int] is Some && dist[adj[x]@[j].0 as int]->0 <= dist[x]->0 + adj[x]@[j].1);
        }
    }
}

/// The least tentative distance of an unsettled vertex is its distance.
proof fn lemma_dk_exact(
    adj: Seq<Vec<(usize, usize)>>,
    sources: Seq<usize>,
    dist: Seq<Option<usize>>,
    stamp: Seq<int>,
    v: int,
    d: int,
)
    requires
        dk_closed(adj, dist, stamp, -1, 0),
        dk_sound(adj, sources, dist),
        dist.len() == adj.len(),
        stamp.len() == adj.len(),
        0 <= v < adj.len(),
        stamp[v] < 0,
        dist[v] is Some,
        dist[v]->0 == d,
        forall|i: int| 0 <= i < sources.len() ==> #[trigger] dist[sources[i] as int] == Some(0usize),
        forall|x: int| 0 <= x < adj.len() && stamp[x] < 0 && #[trigger] dist[x] is Some ==> d <= dist[x]->0,
    ensures
        is_distance(weighted_graph(adj), sources, v, d),
{
    reveal(dk_sound);
    let g = weighted_graph(adj);
    assert forall|vs: Seq<int>, js: Seq<int>| #[trigger] is_walk_to(g, sources, vs, js, v) implies walk_weight(g, vs, js) >= d by {
        lemma_dk_prefix(adj, sources, dist, stamp, vs, js, d, js.len() as int);
        if js.len() > 0 {
            lemma_prefix_weight(g, vs, js, js.len() - 1);
        } else {
            assert(vs.take(1) =~= vs);
            assert(js.take(0) =~= js);
        }
        assert(vs[js.len() as int] == vs.last());
    }
}

/// Improving the tentative distance of `u` to the weight `x` of a walk keeps soundness.
proof fn lemma_dk_sound_step(adj: Seq<Vec<(usize, usize)>>, sources: Seq<usize>, dist: Seq<Option<usize>>, dist2: Seq<Option<usize>>, u: int, x: usize)
    requires
        dk_sound(adj, sources, dist),
        dist.len() == adj.len(),
        0 <= u < adj.len(),
        dist2 == dist.update(u, Some(x)),
        reached_with(weighted_graph(adj), sources, u, x as int),
    ensures
        dk_sound(adj, sources, dist2),
{
    reveal(dk_sound);
    assert forall|w: int| 0 <= w < adj.len() && #[trigger] dist2[w] is Some implies reached_with(
        weighted_graph(adj),
        sources,
        w,
        dist2[w]->0 as int,
    ) by {
        if w != u {
            assert(dist2[w] == dist[w]);
        }
    }
}

/// Improving an unsettled vertex keeps the settled ones.
proof fn lemma_dk_settled_step(
    adj: Seq<Vec<(usize, usize)>>,
    sources: Seq<usize>,
    dist: Seq<Option<usize>>,
    dist2: Seq<Option<usize>>,
    stamp: Seq<int>,
    u: int,
    x: usize,
)
    requires
        dk_settled(adj, sources, dist, stamp),
        dist.len() == adj.len(),
        0 <= u < adj.len(),
        stamp[u] < 0,
        dist2 == dist.update(u, Some(x)),
    ensures
        dk_settled(adj, sources, dist2, stamp),
{
    reveal(dk_settled);
    assert forall|w: int| 0 <= w < adj.len() && #[trigger] stamp[w] >= 0 implies dist2[w] is Some && is_distance(
        weighted_graph(adj),
        sources,
        w,
        dist2[w]->0 as int,
    ) by {
        assert(dist2[w] == dist[w]);
    }
}

/// Lowering the tentative distance of an unsettled vertex keeps the closure.
proof fn lemma_dk_closed_step(
    adj: Seq<Vec<(usize, usize)>>,
    dist: Seq<Option<usize>>,
    dist2: Seq<Option<usize>>,
    stamp: Seq<int>,
    cur: int,
    partial: int,
    u: int,
    x: usize,
)
    requires
        dk_closed(adj, dist, stamp, cur, partial),
        dist.len() == adj.len(),
        0 <= u < adj.len(),
        stamp[u] < 0,
        dist[u] is None || x < dist[u]->0,
        dist2 == dist.update(u, Some(x)),
        forall|a: int, i: int| 0 <= a < adj.len() && 0 <= i < adj[a]@.len() ==> (#[trigger] adj[a]@[i]).0 < adj.len(),
    ensures
        dk_closed(adj, dist2, stamp, cur, partial),
{
    reveal(dk_closed);
    assert forall|y: int, j: int|
        0 <= y < adj.len() && stamp[y] >= 0 && 0 <= j < adj[y]@.len() && (y != cur || j < partial) implies dist2[(
        #[trigger] adj[y]@[j]).0 as int] is Some && dist2[adj[y]@[j].0 as int]->0 <= dist2[y]->0 + adj[y]@[j].1 by {
        assert(dist2[y] == dist[y]);
        let t = adj[y]@[j].0 as int;
        assert(dist[t] is Some && dist[t]->0 <= dist[y]->0 + adj[y]@[j].1);
        if t != u {
            assert(dist2[t] == dist[t]);
        }
    }
}

/// One more edge of the vertex being processed is closed.
proof fn lemma_dk_closed_next(adj: Seq<Vec<(usize, usize)>>, dist: Seq<Option<usize>>, stamp: Seq<int>, v: int, j: int)
    requires
        dk_closed(adj, dist, stamp, v, j),
        0 <= v < adj.len(),
        0 <= j < adj[v]@.len(),
        dist[adj[v]@[j].0 as int] is Some,
        dist[adj[v]@[j].0 as int]->0 <= dist[v]->0 + adj[v]@[j].1,
    ensures
        dk_closed(adj, dist, stamp, v, j + 1),
{
    reveal(dk_closed);
}

/// All the edges of the vertex being processed are closed.
proof fn lemma_dk_closed_done(adj: Seq<Vec<(usize, usize)>>, dist: Seq<Option<usize>>, stamp: Seq<int>, v: int)
    requires
        dk_closed(adj, dist, stamp, v, adj[v]@.len() as int),
        0 <= v < adj.len(),
    ensures
        dk_closed(adj, dist, stamp, -1, 0),
{
    reveal(dk_closed);
}

/// A vertex settled before is processed again from its first edge.
proof fn lemma_dk_closed_again(adj: Seq<Vec<(usize, usize)>>, dist: Seq<Option<usize>>, stamp: Seq<int>, v: int)
    requires
        dk_closed(adj, dist, stamp, -1, 0),
    ensures
        dk_closed(adj, dist, stamp, v, 0),
{
    reveal(dk_closed);
}

/// Lowering the tentative distance of an unsettled vertex and adding it to the heap keeps the
/// heap.
proof fn lemma_dk_heap_step(
    n: nat,
    dist: Seq<Option<usize>>,
    dist2: Seq<Option<usize>>,
    stamp: Seq<int>,
    h: Multiset<(usize, usize)>,
    u: usize,
    x: usize,
)
    requires
        dk_heap(n, dist, stamp, h),
        dist.len() == n,
        u < n,
        dist[u as int] is None || x < dist[u as int]->0,
        dist2 == dist.update(u as int, Some(x)),
    ensures
        dk_heap(n, dist2, stamp, h.insert((x, u))),
{
    reveal(dk_heap);
    let h2 = h.insert((x, u));
    assert forall|v: int| 0 <= v < n && stamp[v] < 0 && #[trigger] dist2[v] is Some implies h2.contains(
        (dist2[v]->0, v as usize),
    ) by {
        if v != u {
            assert(dist2[v] == dist[v]);
        }
    }
    assert forall|e: (usize, usize)| #[trigger] h2.contains(e) implies e.1 < n && dist2[e.1 as int] is Some && dist2[e.1 as int]->0
        <= e.0 by {
        if e != (x, u) {
            assert(h.contains(e));
            if e.1 != u {
                assert(dist2[e.1 as int] == dist[e.1 as int]);
            }
        }
    }
}

/// An item that no unsettled vertex needs leaves the heap.
proof fn lemma_dk_pop(n: nat, dist: Seq<Option<usize>>, stamp: Seq<int>, h: Multiset<(usize, usize)>, e: (usize, usize))
    requires
        dk_heap(n, dist, stamp, h),
        n <= usize::MAX,
        h.contains(e),
        e.1 < n,
        stamp[e.1 as int] >= 0 || dist[e.1 as int] != Some(e.0),
    ensures
        dk_heap(n, dist, stamp, h.remove(e)),
{
    reveal(dk_heap);
    let h2 = h.remove(e);
    assert forall|v: int| 0 <= v < n && stamp[v] < 0 && #[trigger] dist[v] is Some implies h2.contains(
        (dist[v]->0, v as usize),
    ) by {
        assert(h.contains((dist[v]->0, v as usize)));
        assert((dist[v]->0, v as usize) != e);
    }
    assert forall|e2: (usize, usize)| #[trigger] h2.contains(e2) implies e2.1 < n && dist[e2.1 as int] is Some && dist[e2.1 as int]->0
        <= e2.0 by {
        assert(h.contains(e2));
    }
}

/// The least item of the heap bounds the tentative distances of the unsettled vertices.
proof fn lemma_dk_heap_min(n: nat, dist: Seq<Option<usize>>, stamp: Seq<int>, h: Multiset<(usize, usize)>, e: (usize, usize))
    requires
        dk_heap(n, dist, stamp, h),
        forall|y: (usize, usize)| #[trigger] h.contains(y) ==> e.0 <= y.0,
    ensures
        forall|x: int| 0 <= x < n && stamp[x] < 0 && #[trigger] dist[x] is Some ==> e.0 <= dist[x]->0,
{
    reveal(dk_heap);
    assert forall|x: int| 0 <= x < n && stamp[x] < 0 && #[trigger] dist[x] is Some implies e.0 <= dist[x]->0 by {
        assert(h.contains((dist[x]->0, x as usize)));
    }
}

/// The item taken out of the heap is of a reached vertex.
proof fn lemma_dk_heap_item(n: nat, dist: Seq<Option<usize>>, stamp: Seq<int>, h: Multiset<(usize, usize)>, e: (usize, usize))
    requires
        dk_heap(n, dist, stamp, h),
        h.contains(e),
    ensures
        e.1 < n,
{
    reveal(dk_heap);
}

/// Reaching a source at distance `0` keeps the predecessors.
proof fn lemma_dk_prev_source(
    adj: Seq<Vec<(usize, usize)>>,
    sources: Seq<usize>,
    dist: Seq<Option<usize>>,
    dist2: Seq<Option<usize>>,
    prev: Seq<Option<usize>>,
    stamp: Seq<int>,
    s: int,
)
    requires
        dk_prev(adj, sources, dist, prev, stamp),
        dist.len() == adj.len(),
        0 <= s < adj.len(),
        dist[s] is None,
        is_source(sources, s),
        dist2 == dist.update(s, Some(0usize)),
    ensures
        dk_prev(adj, sources, dist2, prev, stamp),
{
    reveal(dk_prev);
    assert forall|v: int|
        0 <= v < adj.len() && #[trigger] prev[v] is Some implies prev[v]->0 < adj.len() && stamp[prev[v]->0 as int] >= 0 && (
        stamp[v] >= 0 ==> stamp[prev[v]->0 as int] < stamp[v]) && dist2[v] is Some && dist2[prev[v]->0 as int] is Some
            && tight_edge(adj, dist2, prev[v]->0 as int, v) by {
        let p = prev[v]->0 as int;
        assert(dist[v] is Some && dist[p] is Some);
        assert(dist2[v] == dist[v] && dist2[p] == dist[p]);
        let j = choose|j: int| 0 <= j < adj[p]@.len() && (#[trigger] adj[p]@[j]).0 == v && dist[v]->0 == dist[p]->0 + adj[p]@[j].1;
        assert(adj[p]@[j].0 == v);
    }
    assert forall|v: int| 0 <= v < adj.len() && #[trigger] dist2[v] is Some && prev[v] is None implies is_source(sources, v)
        && dist2[v]->0 == 0 by {
        if v != s {
            assert(dist2[v] == dist[v]);
        }
    }
}

/// Reaching `u` from the settled `v` along the edge `j` keeps the predecessors.
proof fn lemma_dk_prev_relax(
    adj: Seq<Vec<(usize, usize)>>,
    sources: Seq<usize>,
    dist: Seq<Option<usize>>,
    dist2: Seq<Option<usize>>,
    prev: Seq<Option<usize>>,
    prev2: Seq<Option<usize>>,
    stamp: Seq<int>,
    v: int,
    j: int,
)
    requires
        dk_prev(adj, sources, dist, prev, stamp),
        dist.len() == adj.len(),
        prev.len() == adj.len(),
        0 <= v < adj.len(),
        stamp[v] >= 0,
        dist[v] is Some,
        0 <= j < adj[v]@.len(),
        adj[v]@[j].0 < adj.len(),
        stamp[adj[v]@[j].0 as int] < 0,
        dist[v]->0 + adj[v]@[j].1 <= usize::MAX,
        dist2 == dist.update(adj[v]@[j].0 as int, Some((dist[v]->0 + adj[v]@[j].1) as usize)),
        prev2 == prev.update(adj[v]@[j].0 as int, Some(v as usize)),
    ensures
        dk_prev(adj, sources, dist2, prev2, stamp),
{
    reveal(dk_prev);
    let u = adj[v]@[j].0 as int;
    assert(u != v);
    assert forall|w: int|
        0 <= w < adj.len() && #[trigger] prev2[w] is Some implies prev2[w]->0 < adj.len() && stamp[prev2[w]->0 as int] >= 0 && (
        stamp[w] >= 0 ==> stamp[prev2[w]->0 as int] < stamp[w]) && dist2[w] is Some && dist2[prev2[w]->0 as int] is Some
            && tight_edge(adj, dist2, prev2[w]->0 as int, w) by {
        if w == u {
            assert(dist2[v] == dist[v]);
            assert((adj[v]@[j]).0 == u);
        } else {
            let p = prev[w]->0 as int;
            assert(prev2[w] == prev[w]);
            assert(stamp[p] >= 0);
            assert(p != u);
            assert(dist2[w] == dist[w] && dist2[p] == dist[p]);
            let i = choose|i: int| 0 <= i < adj[p]@.len() && (#[trigger] adj[p]@[i]).0 == w && dist[w]->0 == dist[p]->0 + adj[p]@[i].1;
            assert(adj[p]@[i].0 == w);
        }
    }
    assert forall|w: int| 0 <= w < adj.len() && #[trigger] dist2[w] is Some && prev2[w] is None implies is_source(sources, w)
        && dist2[w]->0 == 0 by {
        assert(w != u);
        assert(dist2[w] == dist[w]);
        assert(prev2[w] == prev[w]);
    }
}

/// Settling the popped vertex `v`, whose tentative distance is its distance, keeps the invariant
/// with `v` being processed from its first edge.
proof fn lemma_dk_settle(
    adj: Seq<Vec<(usize, usize)>>,
    sources: Seq<usize>,
    dist: Seq<Option<usize>>,
    prev: Seq<Option<usize>>,
    stamp: Seq<int>,
    stamp2: Seq<int>,
    clock: int,
    h: Multiset<(usize, usize)>,
    v: int,
)
    requires
        dk_inv(adj, sources, dist, prev, stamp, clock, h, -1, 0),
        0 <= v < adj.len(),
        stamp[v] < 0,
        clock >= 0,
        dist[v] is Some,
        is_distance(weighted_graph(adj), sources, v, dist[v]->0 as int),
        stamp2 == stamp.update(v, clock),
    ensures
        dk_inv(adj, sources, dist, prev, stamp2, clock + 1, h, v, 0),
{
    reveal(dk_settled);
    reveal(dk_closed);
    reveal(dk_heap);
    reveal(dk_prev);
    assert forall|w: int| 0 <= w < adj.len() && #[trigger] stamp2[w] >= 0 implies dist[w] is Some && is_distance(
        weighted_graph(adj),
        sources,
        w,
        dist[w]->0 as int,
    ) by {
        if w != v {
            assert(stamp2[w] == stamp[w]);
        }
    }
    assert forall|x: int, j: int|
        0 <= x < adj.len() && stamp2[x] >= 0 && 0 <= j < adj[x]@.len() && (x != v || j < 0) implies dist[(
        #[trigger] adj[x]@[j]).0 as int] is Some && dist[adj[x]@[j].0 as int]->0 <= dist[x]->0 + adj[x]@[j].1 by {
        assert(stamp2[x] == stamp[x]);
    }
    assert forall|w: int| 0 <= w < adj.len() && stamp2[w] < 0 && #[trigger] dist[w] is Some implies h.contains(
        (dist[w]->0, w as usize),
    ) by {
        assert(stamp2[w] == stamp[w]);
    }
    assert forall|w: int|
        0 <= w < adj.len() && #[trigger] prev[w] is Some implies prev[w]->0 < adj.len() && stamp2[prev[w]->0 as int] >= 0 && (
        stamp2[w] >= 0 ==> stamp2[prev[w]->0 as int] < stamp2[w]) && dist[w] is Some && dist[prev[w]->0 as int] is Some
            && tight_edge(adj, dist, prev[w]->0 as int, w) by {
        let p = prev[w]->0 as int;
        assert(stamp[p] >= 0);
        assert(p != v);
        assert(stamp2[p] == stamp[p]);
        assert(stamp[p] < clock);
        if w != v {
            assert(stamp2[w] == stamp[w]);
        }
    }
    assert forall|w: int| 0 <= w < adj.len() implies #[trigger] stamp2[w] < clock + 1 by {
        if w != v {
            assert(stamp2[w] == stamp[w]);
        }
    }
}

/// When the heap is empty the settled distances are all the distances, and the others are
/// unreachable.
proof fn lemma_dk_done(
    adj: Seq<Vec<(usize, usize)>>,
    sources: Seq<usize>,
    dist: Seq<Option<usize>>,
    prev: Seq<Option<usize>>,
    stamp: Seq<int>,
    clock: int,
    h: Multiset<(usize, usize)>,
)
    requires
        dk_inv(adj, sources, dist, prev, stamp, clock, h, -1, 0),
        h.len() == 0,
        forall|i: int| 0 <= i < sources.len() ==> #[trigger] dist[sources[i] as int] == Some(0usize),
        forall|i: int| 0 <= i < sources.len() ==> #[trigger] sources[i] < adj.len(),
        forall|a: int, i: int| 0 <= a < adj.len() && 0 <= i < adj[a]@.len() ==> (#[trigger] adj[a]@[i]).0 < adj.len(),
    ensures
        forall|v: int| 0 <= v < adj.len() && #[trigger] dist[v] is Some ==> stamp[v] >= 0,
        forall|v: int|
            0 <= v < adj.len() && #[trigger] dist[v] is Some ==> is_distance(weighted_graph(adj), sources, v, dist[v]->0 as int),
        forall|v: int| 0 <= v < adj.len() && #[trigger] dist[v] is None ==> unreachable(weighted_graph(adj), sources, v),
        forall|v: int|
            0 <= v < adj.len() && #[trigger] prev[v] is Some ==> prev[v]->0 < adj.len() && stamp[prev[v]->0 as int] >= 0
                && stamp[prev[v]->0 as int] < stamp[v] && dist[v] is Some && dist[prev[v]->0 as int] is Some
                && tight_edge(adj, dist, prev[v]->0 as int, v),
        forall|v: int|
            0 <= v < adj.len() && #[trigger] dist[v] is Some && prev[v] is None ==> is_source(sources, v) && dist[v]->0 == 0,
{
    reveal(dk_settled);
    reveal(dk_closed);
    reveal(dk_heap);
    reveal(dk_prev);
    let g = weighted_graph(adj);
    let d = weighted_dist_ints(dist);
    assert forall|v: int| 0 <= v < adj.len() && #[trigger] dist[v] is Some implies stamp[v] >= 0 by {
        if stamp[v] < 0 {
            assert(h.contains((dist[v]->0, v as usize)));
        }
    }
    assert(is_potential(g, sources, d)) by {
        assert forall|i: int| 0 <= i < sources.len() implies #[trigger] d[sources[i] as int] == Some(0int) by {
            assert(dist[sources[i] as int] == Some(0usize));
        }
        assert forall|u: int, j: int|
            0 <= u < g.len() && 0 <= j < g[u].len() && #[trigger] d[u] is Some implies 0 <= #[trigger] g[u][j].0 < g.len()
            && d[g[u][j].0] is Some && d[g[u][j].0]->0 <= d[u]->0 + g[u][j].1 by {
            assert(dist[u] is Some);
            assert(stamp[u] >= 0);
            assert(g[u][j] == (adj[u]@[j].0 as int, adj[u]@[j].1 as int));
            assert(dist[adj[u]@[j].0 as int] is Some);
        }
    }
    assert forall|v: int| 0 <= v < adj.len() && #[trigger] dist[v] is None implies unreachable(g, sources, v) by {
        assert forall|vs: Seq<int>, js: Seq<int>| !#[trigger] is_walk_to(g, sources, vs, js, v) by {
            if is_walk_to(g, sources, vs, js, v) {
                lemma_potential(g, sources, d, vs, js, v);
            }
        }
    }
}

impl ShortestPathTree<usize> {
    /// The shortest-path forest of the graph with an edge of weight `w` from `v` to `u` for each
    /// `(u, w)` in `adjacency[v]`, from the vertices `sources`, by Dijkstra's algorithm. The
    /// distance of a vertex plus the weight of an edge out of it must fit in a `usize`.
    pub fn dijkstra(n: usize, sources: &[usize], adjacency: &[Vec<(usize, usize)>]) -> (t: Self)
        requires
            adjacency@.len() == n,
            forall|i: int| 0 <= i < sources@.len() ==> #[trigger] sources@[i] < n,
            forall|u: int, j: int| 0 <= u < n && 0 <= j < adjacency@[u]@.len() ==> (#[trigger] adjacency@[u]@[j]).0 < n,
            forall|v: int, j: int, d: int|
                #![trigger is_distance(weighted_graph(adjacency@), sources@, v, d), adjacency@[v]@[j]]
                0 <= v < n && 0 <= j < adjacency@[v]@.len() && is_distance(weighted_graph(adjacency@), sources@, v, d)
                    ==> d + adjacency@[v]@[j].1 <= usize::MAX,
        ensures
            t.wf(),
            t.spec_dist().len() == n,
            t.spec_prev().len() == n,
            forall|v: int|
                0 <= v < n ==> (#[trigger] t.spec_dist()[v] matches Some(d) ==> is_distance(
                    weighted_graph(adjacency@),
                    sources@,
                    v,
                    d as int,
                )),
            forall|v: int|
                0 <= v < n ==> (#[trigger] t.spec_dist()[v] is None ==> unreachable(weighted_graph(adjacency@), sources@, v)),
            forall|v: int|
                0 <= v < n && #[trigger] t.spec_prev()[v] is Some ==> t.spec_prev()[v]->0 < n && tight_edge(
                    adjacency@,
                    t.spec_dist(),
                    t.spec_prev()[v]->0 as int,
                    v,
                ),
            forall|v: int|
                0 <= v < n && #[trigger] t.spec_dist()[v] is Some && t.spec_prev()[v] is None ==> is_source(
                    sources@,
                    v,
                ) && t.spec_dist()[v]->0 == 0,
            forall|v: int| 0 <= v < n && is_source(sources@, v) ==> #[trigger] t.spec_prev()[v] is None,
    {
        let ghost adj = adjacency@;
        let ghost g = weighted_graph(adj);
        let mut dist: Vec<Option<usize>> = vec![None; n];
        let mut prev: Vec<Option<usize>> = vec![None; n];
        proof {
            assert forall|k: int| 0 <= k < sources@.len() implies #[trigger] prev@[sources@[k] as int] is None by {}
        }
        let mut heap = MinHeap::new();
        let ghost mut stamp: Seq<int> = Seq::new(n as nat, |v: int| -1int);
        let ghost mut clock: int = 0;
        proof {
            lemma_dk_init(adj, sources@, dist@, prev@, stamp);
        }
        let mut i: usize = 0;
        while i < sources.len()
            invariant
                adj == adjacency@,
                g == weighted_graph(adj),
                n == adj.len(),
                i <= sources@.len(),
                clock == 0,
                heap.wf(),
                forall|i: int| 0 <= i < sources@.len() ==> #[trigger] sources@[i] < n,
                forall|u: int, j: int| 0 <= u < n && 0 <= j < adj[u]@.len() ==> (#[trigger] adj[u]@[j]).0 < n,
                dk_inv(adj, sources@, dist@, prev@, stamp, clock, heap@, -1, 0),
                forall|k: int| 0 <= k < i ==> #[trigger] dist@[sources@[k] as int] == Some(0usize),
                forall|k: int| 0 <= k < sources@.len() ==> #[trigger] prev@[sources@[k] as int] is None,
            decreases sources@.len() - i,
        {
            let s = sources[i];
            if dist[s].is_none() {
                let ghost old_dist = dist@;
                let ghost old_heap = heap@;
                dist.set(s, Some(0));
                heap.push((0, s));
                proof {
                    assert(is_source(sources@, s as int)) by {
                        assert(sources@[i as int] as int == s as int);
                    }
                    assert(stamp[s as int] < 0);
                    lemma_source_walk(g, sources@, i as int);
                    lemma_dk_sound_step(adj, sources@, old_dist, dist@, s as int, 0);
                    lemma_dk_settled_step(adj, sources@, old_dist, dist@, stamp, s as int, 0);
                    lemma_dk_closed_step(adj, old_dist, dist@, stamp, -1, 0, s as int, 0);
                    lemma_dk_heap_step(n as nat, old_dist, dist@, stamp, old_heap, s, 0);
                    lemma_dk_prev_source(adj, sources@, old_dist, dist@, prev@, stamp, s as int);
                }
            } else {
                proof {
                    reveal(dk_prev);
                    assert(prev@[s as int] is None) by {
                        if prev@[s as int] is Some {
                            assert(stamp[prev@[s as int]->0 as int] >= 0);
                        }
                    }
                }
            }
            i = i + 1;
        }
        while heap.len() > 0
            invariant
                adj == adjacency@,
                g == weighted_graph(adj),
                n == adj.len(),
                clock >= 0,
                heap.wf(),
                forall|i: int| 0 <= i < sources@.len() ==> #[trigger] sources@[i] < n,
                forall|u: int, j: int| 0 <= u < n && 0 <= j < adj[u]@.len() ==> (#[trigger] adj[u]@[j]).0 < n,
                forall|v: int, j: int, d: int|
                    #![trigger is_distance(g, sources@, v, d), adj[v]@[j]]
                    0 <= v < n && 0 <= j < adj[v]@.len() && is_distance(g, sources@, v, d) ==> d + adj[v]@[j].1 <= usize::MAX,
                dk_inv(adj, sources@, dist@, prev@, stamp, clock, heap@, -1, 0),
                forall|k: int| 0 <= k < sources@.len() ==> #[trigger] dist@[sources@[k] as int] == Some(0usize),
                forall|k: int| 0 <= k < sources@.len() ==> #[trigger] prev@[sources@[k] as int] is None,
            decreases total_key(dist@), heap@.len(),
        {
            let ghost key0 = total_key(dist@);
            let ghost len0 = heap@.len();
            let ghost h0 = heap@;
            let (d, v) = heap.pop().unwrap();
            proof {
                lemma_dk_heap_item(n as nat, dist@, stamp, h0, (d, v));
            }
            let settled_at = match dist[v] {
                Some(x) => x == d,
                None => false,
            };
            if !settled_at {
                proof {
                    lemma_dk_pop(n as nat, dist@, stamp, h0, (d, v));
                }
                continue;
            }
            proof {
                if stamp[v as int] < 0 {
                    assert forall|y: (usize, usize)| #[trigger] h0.contains(y) implies d <= y.0 by {
                        assert(crate::graph::shortest_path::min_heap::pair_le((d, v), y));
                    }
                    lemma_dk_heap_min(n as nat, dist@, stamp, h0, (d, v));
                    lemma_dk_exact(adj, sources@, dist@, stamp, v as int, d as int);
                    let ghost s2 = stamp.update(v as int, clock);
                    lemma_dk_settle(adj, sources@, dist@, prev@, stamp, s2, clock, h0, v as int);
                    stamp = s2;
                    clock = clock + 1;
                } else {
                    lemma_dk_closed_again(adj, dist@, stamp, v as int);
                }
                lemma_dk_pop(n as nat, dist@, stamp, h0, (d, v));
                lemma_dk_settled_fact(adj, sources@, dist@, stamp, v as int);
                lemma_total_key_nonneg(dist@);
            }
            let mut j: usize = 0;
            while j < adjacency[v].len()
                invariant
                    adj == adjacency@,
                    g == weighted_graph(adj),
                    n == adj.len(),
                    clock >= 0,
                    heap.wf(),
                    v < n,
                    j <= adj[v as int]@.len(),
                    stamp[v as int] >= 0,
                    dist@[v as int] == Some(d),
                    is_distance(g, sources@, v as int, d as int),
                    forall|i: int| 0 <= i < sources@.len() ==> #[trigger] sources@[i] < n,
                    forall|u: int, j: int| 0 <= u < n && 0 <= j < adj[u]@.len() ==> (#[trigger] adj[u]@[j]).0 < n,
                    forall|v: int, j: int, d: int|
                        #![trigger is_distance(g, sources@, v, d), adj[v]@[j]]
                        0 <= v < n && 0 <= j < adj[v]@.len() && is_distance(g, sources@, v, d) ==> d + adj[v]@[j].1 <= usize::MAX,
                    dk_inv(adj, sources@, dist@, prev@, stamp, clock, heap@, v as int, j as int),
                    forall|k: int| 0 <= k < sources@.len() ==> #[trigger] dist@[sources@[k] as int] == Some(0usize),
                    forall|k: int| 0 <= k < sources@.len() ==> #[trigger] prev@[sources@[k] as int] is None,
                    total_key(dist@) + heap@.len() <= key0 + len0 - 1,
                    heap@.len() >= len0 - 1,
                    total_key(dist@) >= 0,
                decreases adj[v as int]@.len() - j,
            {
                let (u, w) = adjacency[v][j];
                proof {
                    assert(d + adj[v as int]@[j as int].1 <= usize::MAX);
                }
                let nd = d + w;
                let better = match dist[u] {
                    Some(x) => nd < x,
                    None => true,
                };
                if better {
                    proof {
                        if stamp[u as int] >= 0 {
                            lemma_dk_settled_bound(adj, sources@, dist@, stamp, v as int, j as int);
                        }
                    }
                    let ghost old_dist = dist@;
                    let ghost old_prev = prev@;
                    let ghost old_heap = heap@;
                    dist.set(u, Some(nd));
                    prev.set(u, Some(v));
                    proof {
                        assert forall|k: int| 0 <= k < sources@.len() implies #[trigger] prev@[sources@[k] as int] is None by {
                            if sources@[k] == u {
                                assert(old_dist[u as int] == Some(0usize));
                            } else {
                                assert(old_prev[sources@[k] as int] is None);
                            }
                        }
                    }
                    heap.push((nd, u));
                    proof {
                        lemma_dk_extend(adj, sources@, old_dist, v as int, j as int);
                        lemma_dk_sound_step(adj, sources@, old_dist, dist@, u as int, nd);
                        lemma_dk_settled_step(adj, sources@, old_dist, dist@, stamp, u as int, nd);
                        lemma_dk_closed_step(adj, old_dist, dist@, stamp, v as int, j as int, u as int, nd);
                        lemma_dk_closed_next(adj, dist@, stamp, v as int, j as int);
                        lemma_dk_heap_step(n as nat, old_dist, dist@, stamp, old_heap, u, nd);
                        lemma_dk_prev_relax(adj, sources@, old_dist, dist@, old_prev, prev@, stamp, v as int, j as int);
                        lemma_total_key_update(old_dist, u as int, Some(nd));
                        lemma_total_key_nonneg(dist@);
                    }
                } else {
                    proof {
                        lemma_dk_closed_next(adj, dist@, stamp, v as int, j as int);
                    }
                }
                j = j + 1;
            }
            proof {
                lemma_dk_closed_done(adj, dist@, stamp, v as int);
            }
        }
        proof {
            lemma_dk_done(adj, sources@, dist@, prev@, stamp, clock, heap@);
        }
        proof {
            assert forall|v: int| 0 <= v < n && is_source(sources@, v) implies #[trigger] prev@[v] is None by {
                let k = choose|k: int| 0 <= k < sources@.len() && sources@[k] as int == v;
                assert(prev@[sources@[k] as int] is None);
            }
        }
        let ghost rank = Seq::new(n as nat, |v: int| if stamp[v] >= 0 { stamp[v] } else { 0 });
        ShortestPathTree { dist, prev, rank: Ghost(rank) }
    }
}


/// The keys of the deque are sorted and within one of its first.
pub open spec fn deque_ok(q: Seq<(usize, usize)>) -> bool {
    &&& forall|a: int, b: int| 0 <= a <= b < q.len() ==> (#[trigger] q[a]).0 <= (#[trigger] q[b]).0
    &&& forall|b: int| 0 <= b < q.len() ==> (#[trigger] q[b]).0 <= q[0].0 + 1
}

/// The first item of a sorted deque has the least key.
proof fn lemma_deque_min(q: Seq<(usize, usize)>)
    requires
        deque_ok(q),
        q.len() > 0,
    ensures
        forall|y: (usize, usize)| #[trigger] q.to_multiset().contains(y) ==> q[0].0 <= y.0,
        q.subrange(1, q.len() as int).to_multiset() == q.to_multiset().remove(q[0]),
{
    assert forall|y: (usize, usize)| #[trigger] q.to_multiset().contains(y) implies q[0].0 <= y.0 by {
        vstd::seq_lib::to_multiset_contains(q, y);
        let k = choose|k: int| 0 <= k < q.len() && q[k] == y;
        assert(q[0].0 <= q[k].0);
    }
    vstd::seq_lib::to_multiset_remove(q, 0);
    assert(q.remove(0) =~= q.subrange(1, q.len() as int));
}

/// Adding an item at either end adds it to the multiset.
proof fn lemma_deque_push(q: Seq<(usize, usize)>, x: (usize, usize))
    ensures
        q.push(x).to_multiset() == q.to_multiset().insert(x),
        (seq![x] + q).to_multiset() == q.to_multiset().insert(x),
{
    vstd::seq_lib::to_multiset_build(q, x);
    vstd::seq_lib::to_multiset_insert(q, 0, x);
    assert(q.insert(0, x) =~= seq![x] + q);
}

impl ShortestPathTree<usize> {
    /// The shortest-path forest of the graph with an edge of weight `w`, `0` or `1`, from `v` to
    /// `u` for each `(u, w)` in `adjacency[v]`, from the vertices `sources`, by 0-1 breadth-first
    /// search.
    pub fn zero_one_bfs(n: usize, sources: &[usize], adjacency: &[Vec<(usize, usize)>]) -> (t: Self)
        requires
            adjacency@.len() == n,
            forall|i: int| 0 <= i < sources@.len() ==> #[trigger] sources@[i] < n,
            forall|u: int, j: int| 0 <= u < n && 0 <= j < adjacency@[u]@.len() ==> (#[trigger] adjacency@[u]@[j]).0 < n,
            forall|u: int, j: int| 0 <= u < n && 0 <= j < adjacency@[u]@.len() ==> (#[trigger] adjacency@[u]@[j]).1 <= 1,
        ensures
            t.wf(),
            t.spec_dist().len() == n,
            t.spec_prev().len() == n,
            forall|v: int|
                0 <= v < n ==> (#[trigger] t.spec_dist()[v] matches Some(d) ==> is_distance(
                    weighted_graph(adjacency@),
                    sources@,
                    v,
                    d as int,
                )),
            forall|v: int|
                0 <= v < n ==> (#[trigger] t.spec_dist()[v] is None ==> unreachable(weighted_graph(adjacency@), sources@, v)),
            forall|v: int|
                0 <= v < n && #[trigger] t.spec_prev()[v] is Some ==> t.spec_prev()[v]->0 < n && tight_edge(
                    adjacency@,
                    t.spec_dist(),
                    t.spec_prev()[v]->0 as int,
                    v,
                ),
            forall|v: int|
                0 <= v < n && #[trigger] t.spec_dist()[v] is Some && t.spec_prev()[v] is None ==> is_source(
                    sources@,
                    v,
                ) && t.spec_dist()[v]->0 == 0,
            forall|v: int| 0 <= v < n && is_source(sources@, v) ==> #[trigger] t.spec_prev()[v] is None,
    {
        let ghost adj = adjacency@;
        let ghost g = weighted_graph(adj);
        let mut dist: Vec<Option<usize>> = vec![None; n];
        let mut prev: Vec<Option<usize>> = vec![None; n];
        proof {
            assert forall|k: int| 0 <= k < sources@.len() implies #[trigger] prev@[sources@[k] as int] is None by {}
        }
        let mut deque: VecDeque<(usize, usize)> = VecDeque::new();
        let ghost mut stamp: Seq<int> = Seq::new(n as nat, |v: int| -1int);
        let ghost mut clock: int = 0;
        let ghost mut order: Seq<usize> = Seq::empty();
        proof {
            lemma_dk_init(adj, sources@, dist@, prev@, stamp);
            assert(deque@.to_multiset() =~= Multiset::empty()) by {
                broadcast use vstd::multiset::group_multiset_axioms;
                vstd::seq_lib::to_multiset_len(deque@);
            }
        }
        let mut i: usize = 0;
        while i < sources.len()
            invariant
                adj == adjacency@,
                g == weighted_graph(adj),
                n == adj.len(),
                i <= sources@.len(),
                clock == 0,
                order.len() == 0,
                forall|i: int| 0 <= i < sources@.len() ==> #[trigger] sources@[i] < n,
                forall|u: int, j: int| 0 <= u < n && 0 <= j < adj[u]@.len() ==> (#[trigger] adj[u]@[j]).0 < n,
                dk_inv(adj, sources@, dist@, prev@, stamp, clock, deque@.to_multiset(), -1, 0),
                forall|b: int| 0 <= b < deque@.len() ==> (#[trigger] deque@[b]).0 == 0,
                forall|k: int| 0 <= k < i ==> #[trigger] dist@[sources@[k] as int] == Some(0usize),
                forall|k: int| 0 <= k < sources@.len() ==> #[trigger] prev@[sources@[k] as int] is None,
            decreases sources@.len() - i,
        {
            let s = sources[i];
            if dist[s].is_none() {
                let ghost old_dist = dist@;
                let ghost old_q = deque@;
                dist.set(s, Some(0));
                deque.push_back((0, s));
                proof {
                    assert(is_source(sources@, s as int)) by {
                        assert(sources@[i as int] as int == s as int);
                    }
                    assert(stamp[s as int] < 0);
                    lemma_deque_push(old_q, (0, s));
                    lemma_source_walk(g, sources@, i as int);
                    lemma_dk_sound_step(adj, sources@, old_dist, dist@, s as int, 0);
                    lemma_dk_settled_step(adj, sources@, old_dist, dist@, stamp, s as int, 0);
                    lemma_dk_closed_step(adj, old_dist, dist@, stamp, -1, 0, s as int, 0);
                    lemma_dk_heap_step(n as nat, old_dist, dist@, stamp, old_q.to_multiset(), s, 0);
                    lemma_dk_prev_source(adj, sources@, old_dist, dist@, prev@, stamp, s as int);
                }
            } else {
                proof {
                    reveal(dk_prev);
                    assert(prev@[s as int] is None) by {
                        if prev@[s as int] is Some {
                            assert(stamp[prev@[s as int]->0 as int] >= 0);
                        }
                    }
                }
            }
            i = i + 1;
        }
        while deque.len() > 0
            invariant
                adj == adjacency@,
                g == weighted_graph(adj),
                n == adj.len(),
                0 <= clock <= n,
                order.len() == clock,
                forall|t: int| 0 <= t < clock ==> #[trigger] order[t] < n && stamp[order[t] as int] == t,
                forall|a: int, b: int| 0 <= a < b < clock ==> order[a] != order[b],
                forall|v: int| 0 <= v < n && #[trigger] stamp[v] >= 0 ==> dist@[v] is Some && dist@[v]->0 < clock,
                forall|i: int| 0 <= i < sources@.len() ==> #[trigger] sources@[i] < n,
                forall|u: int, j: int| 0 <= u < n && 0 <= j < adj[u]@.len() ==> (#[trigger] adj[u]@[j]).0 < n,
                forall|u: int, j: int| 0 <= u < n && 0 <= j < adj[u]@.len() ==> (#[trigger] adj[u]@[j]).1 <= 1,
                dk_inv(adj, sources@, dist@, prev@, stamp, clock, deque@.to_multiset(), -1, 0),
                deque_ok(deque@),
                forall|b: int| 0 <= b < deque@.len() ==> (#[trigger] deque@[b]).0 <= clock,
                forall|k: int| 0 <= k < sources@.len() ==> #[trigger] dist@[sources@[k] as int] == Some(0usize),
                forall|k: int| 0 <= k < sources@.len() ==> #[trigger] prev@[sources@[k] as int] is None,
            decreases total_key(dist@), deque@.len(),
        {
            let ghost key0 = total_key(dist@);
            let ghost len0 = deque@.len();
            let ghost q0 = deque@;
            let ghost h0 = q0.to_multiset();
            proof {
                lemma_deque_min(q0);
                vstd::seq_lib::to_multiset_len(q0);
                vstd::seq_lib::to_multiset_contains(q0, q0[0]);
            }
            let (d, v) = deque.pop_front().unwrap();
            proof {
                lemma_dk_heap_item(n as nat, dist@, stamp, h0, (d, v));
                vstd::seq_lib::to_multiset_len(deque@);
            }
            let settled_at = match dist[v] {
                Some(x) => x == d,
                None => false,
            };
            if !settled_at {
                proof {
                    lemma_dk_pop(n as nat, dist@, stamp, h0, (d, v));
                }
                continue;
            }
            proof {
                if stamp[v as int] < 0 {
                    lemma_dk_heap_min(n as nat, dist@, stamp, h0, (d, v));
                    lemma_dk_exact(adj, sources@, dist@, stamp, v as int, d as int);
                    let ghost s2 = stamp.update(v as int, clock);
                    lemma_dk_settle(adj, sources@, dist@, prev@, stamp, s2, clock, h0, v as int);
                    assert forall|t: int| 0 <= t < clock implies order[t] != v by {
                        assert(stamp[order[t] as int] == t);
                    }
                    let ghost o2 = order.push(v);
                    assert forall|a: int, b: int| 0 <= a < b < clock + 1 implies o2[a] != o2[b] by {
                        if b == clock {
                            assert(o2[a] == order[a]);
                        }
                    }
                    assert forall|t: int| 0 <= t < clock + 1 implies #[trigger] o2[t] < n && s2[o2[t] as int] == t by {
                        if t < clock {
                            assert(o2[t] == order[t]);
                            assert(stamp[order[t] as int] == t);
                        }
                    }
                    assert forall|x: int| 0 <= x < n && #[trigger] s2[x] >= 0 implies dist@[x] is Some && dist@[x]->0 < clock + 1 by {
                        if x != v {
                            assert(s2[x] == stamp[x]);
                        }
                    }
                    crate::symmetric::lemma_distinct_bounded_len(o2, n as nat);
                    stamp = s2;
                    order = o2;
                    clock = clock + 1;
                } else {
                    lemma_dk_closed_again(adj, dist@, stamp, v as int);
                }
                lemma_dk_pop(n as nat, dist@, stamp, h0, (d, v));
                lemma_dk_settled_fact(adj, sources@, dist@, stamp, v as int);
                lemma_total_key_nonneg(dist@);
                assert forall|b: int| 0 <= b < deque@.len() implies d <= (#[trigger] deque@[b]).0 <= d + 1 by {
                    assert(deque@[b] == q0[b + 1]);
                    assert(q0[0].0 <= q0[b + 1].0);
                }
            }
            let mut j: usize = 0;
            while j < adjacency[v].len()
                invariant
                    adj == adjacency@,
                    g == weighted_graph(adj),
                    n == adj.len(),
                    0 <= clock <= n,
                    order.len() == clock,
                    forall|t: int| 0 <= t < clock ==> #[trigger] order[t] < n && stamp[order[t] as int] == t,
                    forall|a: int, b: int| 0 <= a < b < clock ==> order[a] != order[b],
                    forall|v: int| 0 <= v < n && #[trigger] stamp[v] >= 0 ==> dist@[v] is Some && dist@[v]->0 < clock,
                    v < n,
                    j <= adj[v as int]@.len(),
                    stamp[v as int] >= 0,
                    dist@[v as int] == Some(d),
                    d < clock,
                    forall|i: int| 0 <= i < sources@.len() ==> #[trigger] sources@[i] < n,
                    forall|u: int, j: int| 0 <= u < n && 0 <= j < adj[u]@.len() ==> (#[trigger] adj[u]@[j]).0 < n,
                    forall|u: int, j: int| 0 <= u < n && 0 <= j < adj[u]@.len() ==> (#[trigger] adj[u]@[j]).1 <= 1,
                    dk_inv(adj, sources@, dist@, prev@, stamp, clock, deque@.to_multiset(), v as int, j as int),
                    forall|a: int, b: int| 0 <= a <= b < deque@.len() ==> (#[trigger] deque@[a]).0 <= (#[trigger] deque@[b]).0,
                    forall|b: int| 0 <= b < deque@.len() ==> d <= (#[trigger] deque@[b]).0 <= d + 1,
                    forall|k: int| 0 <= k < sources@.len() ==> #[trigger] dist@[sources@[k] as int] == Some(0usize),
                    forall|k: int| 0 <= k < sources@.len() ==> #[trigger] prev@[sources@[k] as int] is None,
                    total_key(dist@) + deque@.len() <= key0 + len0 - 1,
                    deque@.len() >= len0 - 1,
                    total_key(dist@) >= 0,
                decreases adj[v as int]@.len() - j,
            {
                let (u, w) = adjacency[v][j];
                let nd = d + w;
                let better = match dist[u] {
                    Some(x) => nd < x,
                    None => true,
                };
                if better {
                    proof {
                        if stamp[u as int] >= 0 {
                            lemma_dk_settled_bound(adj, sources@, dist@, stamp, v as int, j as int);
                        }
                    }
                    let ghost old_dist = dist@;
                    let ghost old_prev = prev@;
                    let ghost old_q = deque@;
                    dist.set(u, Some(nd));
                    prev.set(u, Some(v));
                    proof {
                        assert forall|k: int| 0 <= k < sources@.len() implies #[trigger] prev@[sources@[k] as int] is None by {
                            if sources@[k] == u {
                                assert(old_dist[u as int] == Some(0usize));
                            } else {
                                assert(old_prev[sources@[k] as int] is None);
                            }
                        }
                    }
                    if w == 0 {
                        deque.push_front((nd, u));
                    } else {
                        deque.push_back((nd, u));
                    }
                    proof {
                        lemma_deque_push(old_q, (nd, u));
                        lemma_dk_extend(adj, sources@, old_dist, v as int, j as int);
                        lemma_dk_sound_step(adj, sources@, old_dist, dist@, u as int, nd);
                        lemma_dk_settled_step(adj, sources@, old_dist, dist@, stamp, u as int, nd);
                        lemma_dk_closed_step(adj, old_dist, dist@, stamp, v as int, j as int, u as int, nd);
                        lemma_dk_closed_next(adj, dist@, stamp, v as int, j as int);
                        lemma_dk_heap_step(n as nat, old_dist, dist@, stamp, old_q.to_multiset(), u, nd);
                        lemma_dk_prev_relax(adj, sources@, old_dist, dist@, old_prev, prev@, stamp, v as int, j as int);
                        lemma_total_key_update(old_dist, u as int, Some(nd));
                        lemma_total_key_nonneg(dist@);
                        vstd::seq_lib::to_multiset_len(old_q);
                        vstd::seq_lib::to_multiset_len(deque@);
                        if w == 0 {
                            assert forall|b: int| 0 < b < deque@.len() implies deque@[b] == old_q[b - 1] by {}
                        }
                        assert forall|x: int| 0 <= x < n && #[trigger] stamp[x] >= 0 implies dist@[x] is Some && dist@[x]->0 < clock by {
                            assert(x != u);
                            assert(dist@[x] == old_dist[x]);
                        }
                    }
                } else {
                    proof {
                        lemma_dk_closed_next(adj, dist@, stamp, v as int, j as int);
                    }
                }
                j = j + 1;
            }
            proof {
                lemma_dk_closed_done(adj, dist@, stamp, v as int);
                if deque@.len() > 0 {
                    assert forall|b: int| 0 <= b < deque@.len() implies (#[trigger] deque@[b]).0 <= deque@[0].0 + 1 by {}
                }
            }
        }
        proof {
            vstd::seq_lib::to_multiset_len(deque@);
            lemma_dk_done(adj, sources@, dist@, prev@, stamp, clock, deque@.to_multiset());
        }
        proof {
            assert forall|v: int| 0 <= v < n && is_source(sources@, v) implies #[trigger] prev@[v] is None by {
                let k = choose|k: int| 0 <= k < sources@.len() && sources@[k] as int == v;
                assert(prev@[sources@[k] as int] is None);
            }
        }
        let ghost rank = Seq::new(n as nat, |v: int| if stamp[v] >= 0 { stamp[v] } else { 0 });
        ShortestPathTree { dist, prev, rank: Ghost(rank) }
    }
}

} // verus!
