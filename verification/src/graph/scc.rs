//! Strongly connected components of a directed graph, numbered in a topological order of the
//! condensation.
use crate::graph::shortest_path::{is_step, is_walk, is_walk_to, unit_graph, Graph, ShortestPathTree};
use vstd::prelude::*;

verus! {

/// Every edge of the adjacency lists leads to a vertex of `[0, n)`.
pub open spec fn edges_in_range(adj: Seq<Vec<usize>>) -> bool {
    forall|u: int, j: int| 0 <= u < adj.len() && 0 <= j < adj[u]@.len() ==> #[trigger] adj[u]@[j] < adj.len()
}

/// `vs` and `js` are a walk in `g` from `u` to `v`.
pub open spec fn is_walk_from(g: Graph, vs: Seq<int>, js: Seq<int>, u: int, v: int) -> bool {
    is_walk(g, vs, js) && vs[0] == u && vs.last() == v
}

/// Some walk leads from `u` to `v`.
pub open spec fn reaches(adj: Seq<Vec<usize>>, u: int, v: int) -> bool {
    exists|vs: Seq<int>, js: Seq<int>| #[trigger] is_walk_from(unit_graph(adj), vs, js, u, v)
}

/// `u` and `v` are strongly connected: each is reachable from the other.
pub open spec fn strongly_connected(adj: Seq<Vec<usize>>, u: int, v: int) -> bool {
    reaches(adj, u, v) && reaches(adj, v, u)
}

/// A walk from the single source `u` is a walk from `u`.
proof fn lemma_walk_to_from(g: Graph, u: usize, vs: Seq<int>, js: Seq<int>, v: int)
    ensures
        is_walk_to(g, seq![u], vs, js, v) <==> is_walk_from(g, vs, js, u as int, v),
{
    if is_walk_from(g, vs, js, u as int, v) {
        assert(seq![u][0] as int == vs[0]);
    }
}

/// Every vertex reaches itself.
pub proof fn lemma_reaches_refl(adj: Seq<Vec<usize>>, u: int)
    requires
        0 <= u < adj.len(),
    ensures
        reaches(adj, u, u),
{
    let g = unit_graph(adj);
    let vs = seq![u];
    let js = Seq::<int>::empty();
    assert(is_walk(g, vs, js));
    assert(is_walk_from(g, vs, js, u, u));
}

/// An edge out of a vertex that `a` reaches leads to a vertex that `a` reaches.
pub proof fn lemma_reaches_edge(adj: Seq<Vec<usize>>, a: int, u: int, j: int)
    requires
        edges_in_range(adj),
        reaches(adj, a, u),
        0 <= u < adj.len(),
        0 <= j < adj[u]@.len(),
    ensures
        reaches(adj, a, adj[u]@[j] as int),
{
    let g = unit_graph(adj);
    let (vs, js) = choose|vs: Seq<int>, js: Seq<int>| #[trigger] is_walk_from(g, vs, js, a, u);
    let w = adj[u]@[j] as int;
    let vs2 = vs.push(w);
    let js2 = js.push(j);
    assert(is_walk(g, vs2, js2)) by {
        assert forall|k: int| 0 <= k < js2.len() implies #[trigger] is_step(g, vs2, js2, k) by {
            if k < js.len() {
                assert(is_step(g, vs, js, k));
                assert(vs2[k + 1] == vs[k + 1]);
            } else {
                assert(vs2[k] == vs[vs.len() - 1]);
            }
        }
    }
    assert(is_walk_from(g, vs2, js2, a, w));
}

/// Reachability is transitive.
pub proof fn lemma_reaches_trans(adj: Seq<Vec<usize>>, a: int, b: int, c: int)
    requires
        reaches(adj, a, b),
        reaches(adj, b, c),
    ensures
        reaches(adj, a, c),
{
    let g = unit_graph(adj);
    let (vs1, js1) = choose|vs: Seq<int>, js: Seq<int>| #[trigger] is_walk_from(g, vs, js, a, b);
    let (vs2, js2) = choose|vs: Seq<int>, js: Seq<int>| #[trigger] is_walk_from(g, vs, js, b, c);
    let vs = vs1 + vs2.subrange(1, vs2.len() as int);
    let js = js1 + js2;
    let m = js1.len() as int;
    assert forall|k: int| 0 <= k < vs2.len() implies #[trigger] vs[m + k] == vs2[k] by {
        if k == 0 {
            assert(vs1[vs1.len() - 1] == vs1.last());
        }
    }
    assert(is_walk(g, vs, js)) by {
        assert forall|k: int| 0 <= k < js.len() implies #[trigger] is_step(g, vs, js, k) by {
            if k < m {
                assert(is_step(g, vs1, js1, k));
                assert(vs[k] == vs1[k]);
                if k + 1 < m {
                    assert(vs[k + 1] == vs1[k + 1]);
                } else {
                    assert(vs[m + 0] == vs2[0]);
                    assert(vs1[vs1.len() - 1] == vs1.last());
                }
            } else {
                let k2 = k - m;
                assert(is_step(g, vs2, js2, k2));
                assert(vs[m + k2] == vs2[k2]);
                assert(vs[m + (k2 + 1)] == vs2[k2 + 1]);
                assert(js[k] == js2[k2]);
            }
        }
        if vs2.len() == 1 {
            assert(vs.last() == vs1.last());
        } else {
            assert(vs[m + (vs2.len() - 1)] == vs2[vs2.len() - 1]);
        }
    }
    assert(vs[0] == vs1[0]);
    if vs2.len() == 1 {
        assert(vs.last() == vs1.last());
    } else {
        assert(vs[m + (vs2.len() - 1)] == vs2[vs2.len() - 1]);
    }
    assert(is_walk_from(g, vs, js, a, c));
}

/// The reachability matrix: row `u` says which vertices `u` reaches, by a breadth-first search
/// from each vertex.
fn reach_matrix(adjacency: &[Vec<usize>]) -> (r: Vec<Vec<bool>>)
    requires
        edges_in_range(adjacency@),
    ensures
        r@.len() == adjacency@.len(),
        forall|u: int| 0 <= u < r@.len() ==> #[trigger] r@[u]@.len() == adjacency@.len(),
        forall|u: int, v: int|
            0 <= u < r@.len() && 0 <= v < r@.len() ==> (#[trigger] r@[u]@[v] <==> reaches(adjacency@, u, v)),
{
    let n = adjacency.len();
    let mut rows: Vec<Vec<bool>> = Vec::new();
    let mut u: usize = 0;
    while u < n
        invariant
            u <= n,
            n == adjacency@.len(),
            edges_in_range(adjacency@),
            rows@.len() == u,
            forall|i: int| 0 <= i < u ==> #[trigger] rows@[i]@.len() == n,
            forall|i: int, v: int|
                0 <= i < u && 0 <= v < n ==> (#[trigger] rows@[i]@[v] <==> reaches(adjacency@, i, v)),
        decreases n - u,
    {
        let sources = vec![u];
        proof {
            assert(sources@ =~= seq![u]);
        }
        let t = ShortestPathTree::<usize>::bfs(n, sources.as_slice(), adjacency);
        let mut row: Vec<bool> = Vec::new();
        let mut v: usize = 0;
        while v < n
            invariant
                v <= n,
                u < n,
                n == adjacency@.len(),
                sources@ == seq![u],
                t.wf(),
                t.spec_dist().len() == n,
                forall|w: int|
                    0 <= w < n ==> (#[trigger] t.spec_dist()[w] matches Some(d)
                        ==> crate::graph::shortest_path::is_distance(unit_graph(adjacency@), sources@, w, d as int)),
                forall|w: int|
                    0 <= w < n ==> (#[trigger] t.spec_dist()[w] is None
                        ==> crate::graph::shortest_path::unreachable(unit_graph(adjacency@), sources@, w)),
                row@.len() == v,
                forall|w: int| 0 <= w < v ==> (#[trigger] row@[w] <==> reaches(adjacency@, u as int, w)),
            decreases n - v,
        {
            let d = t.dist(v);
            proof {
                let g = unit_graph(adjacency@);
                if d is Some {
                    assert(crate::graph::shortest_path::is_distance(g, sources@, v as int, d->0 as int));
                    let (vs, js) = choose|vs: Seq<int>, js: Seq<int>|
                        is_walk_to(g, sources@, vs, js, v as int) && crate::graph::shortest_path::walk_weight(g, vs, js) == d->0 as int;
                    lemma_walk_to_from(g, u, vs, js, v as int);
                } else {
                    assert(crate::graph::shortest_path::unreachable(g, sources@, v as int));
                    if reaches(adjacency@, u as int, v as int) {
                        let (vs, js) = choose|vs: Seq<int>, js: Seq<int>| #[trigger] is_walk_from(g, vs, js, u as int, v as int);
                        lemma_walk_to_from(g, u, vs, js, v as int);
                        assert(!is_walk_to(g, sources@, vs, js, v as int));
                    }
                }
            }
            row.push(d.is_some());
            v = v + 1;
        }
        rows.push(row);
        u = u + 1;
    }
    rows
}

/// Some vertex has the number `k`.
pub open spec fn number_used(comp: Seq<usize>, k: int) -> bool {
    exists|v: int| 0 <= v < comp.len() && comp[v] == k
}

/// The number of vertices in `[0, k)` that reach `v`.
pub open spec fn ancestors_below(adj: Seq<Vec<usize>>, v: int, k: int) -> nat
    decreases k,
{
    if k <= 0 {
        0
    } else {
        ancestors_below(adj, v, k - 1) + if reaches(adj, k - 1, v) {
            1nat
        } else {
            0nat
        }
    }
}

/// The number of vertices that reach `v`.
pub open spec fn ancestor_count(adj: Seq<Vec<usize>>, v: int) -> nat {
    ancestors_below(adj, v, adj.len() as int)
}

/// Whoever reaches `u` reaches `v`: then fewer reach `u`, strictly fewer if some vertex reaches
/// `v` but not `u`.
proof fn lemma_ancestors_le(adj: Seq<Vec<usize>>, u: int, v: int, k: int, w0: int)
    requires
        forall|w: int| 0 <= w < k && #[trigger] reaches(adj, w, u) ==> reaches(adj, w, v),
    ensures
        ancestors_below(adj, u, k) <= ancestors_below(adj, v, k),
        0 <= w0 < k && reaches(adj, w0, v) && !reaches(adj, w0, u) ==> ancestors_below(adj, u, k)
            < ancestors_below(adj, v, k),
    decreases k,
{
    if k > 0 {
        lemma_ancestors_le(adj, u, v, k - 1, w0);
    }
}

/// Strongly connected vertices have the same ancestors; along an edge between two vertices that
/// are not, the number of ancestors grows.
proof fn lemma_ancestor_count(adj: Seq<Vec<usize>>, u: int, v: int)
    requires
        0 <= u < adj.len(),
        0 <= v < adj.len(),
        reaches(adj, u, v),
    ensures
        ancestor_count(adj, u) <= ancestor_count(adj, v),
        strongly_connected(adj, u, v) ==> ancestor_count(adj, u) == ancestor_count(adj, v),
        !strongly_connected(adj, u, v) ==> ancestor_count(adj, u) < ancestor_count(adj, v),
{
    let n = adj.len() as int;
    assert forall|w: int| 0 <= w < n && #[trigger] reaches(adj, w, u) implies reaches(adj, w, v) by {
        lemma_reaches_trans(adj, w, u, v);
    }
    lemma_reaches_refl(adj, v);
    lemma_ancestors_le(adj, u, v, n, v);
    if strongly_connected(adj, u, v) {
        assert forall|w: int| 0 <= w < n && #[trigger] reaches(adj, w, v) implies reaches(adj, w, u) by {
            lemma_reaches_trans(adj, w, v, u);
        }
        lemma_ancestors_le(adj, v, u, n, u);
    }
}

/// The number of vertices in `[0, k)` that `comp` leaves unassigned, marked by `none`.
pub open spec fn unassigned_below(comp: Seq<usize>, none: usize, k: int) -> nat
    decreases k,
{
    if k <= 0 {
        0
    } else {
        unassigned_below(comp, none, k - 1) + if comp[k - 1] == none {
            1nat
        } else {
            0nat
        }
    }
}

/// Assigning vertices, and no unassigning, lowers the count of the unassigned; by one at least if
/// `v0` is newly assigned.
proof fn lemma_unassigned_fewer(a: Seq<usize>, b: Seq<usize>, none: usize, k: int, v0: int)
    requires
        a.len() == b.len(),
        0 <= k <= a.len(),
        forall|v: int| 0 <= v < k && #[trigger] b[v] == none ==> a[v] == none,
    ensures
        unassigned_below(b, none, k) <= unassigned_below(a, none, k),
        0 <= v0 < k && a[v0] == none && b[v0] != none ==> unassigned_below(b, none, k) < unassigned_below(a, none, k),
        unassigned_below(a, none, k) <= k,
    decreases k,
{
    if k > 0 {
        lemma_unassigned_fewer(a, b, none, k - 1, v0);
    }
}

/// The number of vertices of `[0, n)` that reach each vertex, from the reachability matrix.
fn ancestor_counts(adj: Ghost<Seq<Vec<usize>>>, reach: &Vec<Vec<bool>>) -> (r: Vec<usize>)
    requires
        reach@.len() == adj@.len(),
        forall|u: int| 0 <= u < reach@.len() ==> #[trigger] reach@[u]@.len() == adj@.len(),
        forall|u: int, v: int|
            0 <= u < reach@.len() && 0 <= v < reach@.len() ==> (#[trigger] reach@[u]@[v] <==> reaches(adj@, u, v)),
    ensures
        r@.len() == adj@.len(),
        forall|v: int| 0 <= v < r@.len() ==> #[trigger] r@[v] == ancestor_count(adj@, v),
{
    let n = reach.len();
    let mut keys: Vec<usize> = Vec::new();
    let mut v: usize = 0;
    while v < n
        invariant
            v <= n,
            n == reach@.len(),
            reach@.len() == adj@.len(),
            forall|u: int| 0 <= u < reach@.len() ==> #[trigger] reach@[u]@.len() == adj@.len(),
            forall|u: int, x: int|
                0 <= u < reach@.len() && 0 <= x < reach@.len() ==> (#[trigger] reach@[u]@[x] <==> reaches(adj@, u, x)),
            keys@.len() == v,
            forall|x: int| 0 <= x < v ==> #[trigger] keys@[x] == ancestor_count(adj@, x),
        decreases n - v,
    {
        let mut c: usize = 0;
        let mut w: usize = 0;
        while w < n
            invariant
                w <= n,
                v < n,
                n == reach@.len(),
                reach@.len() == adj@.len(),
                forall|u: int| 0 <= u < reach@.len() ==> #[trigger] reach@[u]@.len() == adj@.len(),
                forall|u: int, x: int|
                    0 <= u < reach@.len() && 0 <= x < reach@.len() ==> (#[trigger] reach@[u]@[x] <==> reaches(adj@, u, x)),
                c == ancestors_below(adj@, v as int, w as int),
                c <= w,
            decreases n - w,
        {
            if reach[w][v] {
                c = c + 1;
            }
            w = w + 1;
        }
        keys.push(c);
        v = v + 1;
    }
    keys
}

/// The unassigned vertex with the fewest ancestors, the first such; `None` if every vertex is
/// assigned.
fn min_unassigned(comp: &Vec<usize>, keys: &Vec<usize>, none: usize) -> (r: Option<usize>)
    requires
        comp@.len() == keys@.len(),
    ensures
        r is None ==> forall|v: int| 0 <= v < comp@.len() ==> #[trigger] comp@[v] != none,
        r matches Some(b) ==> b < comp@.len() && comp@[b as int] == none && forall|v: int|
            0 <= v < comp@.len() && #[trigger] comp@[v] == none ==> keys@[b as int] <= keys@[v],
{
    let n = comp.len();
    let mut best: Option<usize> = None;
    let mut v: usize = 0;
    while v < n
        invariant
            v <= n,
            n == comp@.len(),
            comp@.len() == keys@.len(),
            best is None ==> forall|x: int| 0 <= x < v ==> #[trigger] comp@[x] != none,
            best matches Some(b) ==> b < v && comp@[b as int] == none && forall|x: int|
                0 <= x < v && #[trigger] comp@[x] == none ==> keys@[b as int] <= keys@[x],
        decreases n - v,
    {
        if comp[v] == none {
            match best {
                None => {
                    best = Some(v);
                },
                Some(b) => {
                    if keys[v] < keys[b] {
                        best = Some(v);
                    }
                },
            }
        }
        v = v + 1;
    }
    best
}

/// The components' numbers: `r.1` components, numbered so that every edge goes to a component
/// of a number at least that of its own, in O(n (n + m)).
fn number_components(adjacency: &[Vec<usize>]) -> (r: (Vec<usize>, usize))
    requires
        edges_in_range(adjacency@),
    ensures
        r.0@.len() == adjacency@.len(),
        r.1 <= adjacency@.len(),
        forall|v: int| 0 <= v < r.0@.len() ==> #[trigger] r.0@[v] < r.1,
        forall|u: int, v: int|
            0 <= u < r.0@.len() && 0 <= v < r.0@.len() ==> (r.0@[u] == r.0@[v] <==> #[trigger] strongly_connected(
                adjacency@,
                u,
                v,
            )),
        forall|u: int, j: int|
            0 <= u < r.0@.len() && 0 <= j < adjacency@[u]@.len() ==> r.0@[u] <= r.0@[#[trigger] adjacency@[u]@[j] as int],
        forall|k: int| 0 <= k < r.1 ==> #[trigger] number_used(r.0@, k),
{
    let ghost adj = adjacency@;
    let n = adjacency.len();
    let reach = reach_matrix(adjacency);
    let keys = ancestor_counts(Ghost(adj), &reach);
    let mut comp: Vec<usize> = Vec::new();
    let mut i: usize = 0;
    while i < n
        invariant
            i <= n,
            comp@.len() == i,
            forall|v: int| 0 <= v < i ==> #[trigger] comp@[v] == n,
        decreases n - i,
    {
        comp.push(n);
        i = i + 1;
    }
    proof {
        lemma_unassigned_fewer(comp@, comp@, n, n as int, 0);
        assert(unassigned_below(comp@, n, n as int) == n) by {
            assert forall|k: int| 0 <= k <= n implies #[trigger] unassigned_below(comp@, n, k) == k by {
                lemma_unassigned_all(comp@, n, k);
            }
        }
    }
    let mut count: usize = 0;
    let ghost mut rep: Seq<int> = Seq::empty();
    let mut next = min_unassigned(&comp, &keys, n);
    while next.is_some()
        invariant
            n == adj.len(),
            adj == adjacency@,
            edges_in_range(adj),
            reach@.len() == n,
            forall|u: int| 0 <= u < n ==> #[trigger] reach@[u]@.len() == n,
            forall|u: int, v: int| 0 <= u < n && 0 <= v < n ==> (#[trigger] reach@[u]@[v] <==> reaches(adj, u, v)),
            keys@.len() == n,
            forall|v: int| 0 <= v < n ==> #[trigger] keys@[v] == ancestor_count(adj, v),
            comp@.len() == n,
            count + unassigned_below(comp@, n, n as int) <= n,
            forall|v: int| 0 <= v < n ==> #[trigger] comp@[v] == n || comp@[v] < count,
            forall|a: int, b: int|
                0 <= a < n && 0 <= b < n && comp@[a] != n && comp@[b] != n ==> (comp@[a] == comp@[b]
                    <==> #[trigger] strongly_connected(adj, a, b)),
            forall|a: int, b: int|
                0 <= a < n && 0 <= b < n && comp@[a] != n && #[trigger] strongly_connected(adj, a, b) ==> comp@[b] != n,
            forall|a: int, b: int|
                0 <= a < n && 0 <= b < n && #[trigger] comp@[a] != n && #[trigger] comp@[b] == n ==> keys@[a] <= keys@[b],
            forall|a: int, b: int|
                0 <= a < n && 0 <= b < n && comp@[a] != n && comp@[b] != n && #[trigger] comp@[a] < #[trigger] comp@[b] ==> keys@[a] <= keys@[b],
            rep.len() == count,
            forall|k: int| 0 <= k < count ==> 0 <= #[trigger] rep[k] < n && comp@[rep[k]] == k,
            next is None ==> forall|v: int| 0 <= v < n ==> #[trigger] comp@[v] != n,
            next matches Some(b) ==> b < n && comp@[b as int] == n && forall|v: int|
                0 <= v < n && #[trigger] comp@[v] == n ==> keys@[b as int] <= keys@[v],
        decreases unassigned_below(comp@, n, n as int),
    {
        let best = match next {
            Some(b) => b,
            None => 0,
        };
        let ghost old_comp = comp@;
        proof {
            lemma_unassigned_fewer(old_comp, old_comp, n, n as int, best as int);
            lemma_unassigned_positive(old_comp, n, n as int, best as int);
        }
        let mut w: usize = 0;
        while w < n
            invariant
                w <= n,
                best < n,
                n == adj.len(),
                reach@.len() == n,
                forall|u: int| 0 <= u < n ==> #[trigger] reach@[u]@.len() == n,
                forall|u: int, v: int| 0 <= u < n && 0 <= v < n ==> (#[trigger] reach@[u]@[v] <==> reaches(adj, u, v)),
                comp@.len() == n,
                old_comp.len() == n,
                forall|v: int|
                    0 <= v < w ==> #[trigger] comp@[v] == if strongly_connected(adj, best as int, v) {
                        count
                    } else {
                        old_comp[v]
                    },
                forall|v: int| w <= v < n ==> #[trigger] comp@[v] == old_comp[v],
            decreases n - w,
        {
            if reach[best][w] && reach[w][best] {
                comp.set(w, count);
            }
            w = w + 1;
        }
        proof {
            lemma_reaches_refl(adj, best as int);
            assert(strongly_connected(adj, best as int, best as int));
            // members of the new component were unassigned
            assert forall|v: int| 0 <= v < n && #[trigger] strongly_connected(adj, best as int, v) implies old_comp[v] == n by {
                if old_comp[v] != n {
                    assert(strongly_connected(adj, v, best as int));
                }
            }
            assert forall|v: int| 0 <= v < n && #[trigger] comp@[v] == n implies old_comp[v] == n by {}
            lemma_unassigned_fewer(old_comp, comp@, n, n as int, best as int);
            // the members share the number of ancestors of `best`
            assert forall|v: int| 0 <= v < n && #[trigger] strongly_connected(adj, best as int, v) implies keys@[v] == keys@[best as int] by {
                lemma_ancestor_count(adj, best as int, v);
            }
            assert forall|a: int, b: int|
                0 <= a < n && 0 <= b < n && comp@[a] != n && comp@[b] != n implies (comp@[a] == comp@[b]
                    <==> #[trigger] strongly_connected(adj, a, b)) by {
                let (ia, ib) = (strongly_connected(adj, best as int, a), strongly_connected(adj, best as int, b));
                if ia && ib {
                    lemma_reaches_trans(adj, a, best as int, b);
                    lemma_reaches_trans(adj, b, best as int, a);
                } else if ia && !ib {
                    if strongly_connected(adj, a, b) {
                        lemma_reaches_trans(adj, best as int, a, b);
                        lemma_reaches_trans(adj, b, a, best as int);
                    }
                } else if !ia && ib {
                    if strongly_connected(adj, a, b) {
                        lemma_reaches_trans(adj, best as int, b, a);
                        lemma_reaches_trans(adj, a, b, best as int);
                    }
                }
            }
            assert forall|a: int, b: int|
                0 <= a < n && 0 <= b < n && comp@[a] != n && #[trigger] strongly_connected(adj, a, b) implies comp@[b] != n by {
                if strongly_connected(adj, best as int, a) {
                    lemma_reaches_trans(adj, best as int, a, b);
                    lemma_reaches_trans(adj, b, a, best as int);
                }
            }
            assert forall|a: int, b: int|
                0 <= a < n && 0 <= b < n && #[trigger] comp@[a] != n && #[trigger] comp@[b] == n implies keys@[a] <= keys@[b] by {
                if strongly_connected(adj, best as int, a) {
                    assert(keys@[a] == keys@[best as int]);
                }
            }
            assert forall|a: int, b: int|
                0 <= a < n && 0 <= b < n && comp@[a] != n && comp@[b] != n && #[trigger] comp@[a] < #[trigger] comp@[b] implies keys@[a] <= keys@[b] by {
                if strongly_connected(adj, best as int, b) {
                    assert(keys@[b] == keys@[best as int]);
                    assert(old_comp[a] != n);
                }
            }
            rep = rep.push(best as int);
            assert forall|k: int| 0 <= k < count + 1 implies 0 <= #[trigger] rep[k] < n && comp@[rep[k]] == k by {
                if k < count {
                    assert(old_comp[rep[k]] == k);
                    if strongly_connected(adj, best as int, rep[k]) {
                        assert(old_comp[rep[k]] == n);
                    }
                }
            }
        }
        count = count + 1;
        next = min_unassigned(&comp, &keys, n);
    }
    proof {
        assert forall|u: int, j: int|
            0 <= u < n && 0 <= j < adj[u]@.len() implies comp@[u] <= comp@[#[trigger] adj[u]@[j] as int] by {
            let v = adj[u]@[j] as int;
            lemma_reaches_refl(adj, u);
            lemma_reaches_edge(adj, u, u, j);
            lemma_ancestor_count(adj, u, v);
            if !strongly_connected(adj, u, v) && comp@[v] < comp@[u] {
                assert(keys@[v] <= keys@[u]);
            }
        }
        assert forall|k: int| 0 <= k < count implies #[trigger] number_used(comp@, k) by {
            assert(comp@[rep[k]] == k);
        }
        assert(count <= n);
    }
    (comp, count)
}

/// A list in which every vertex is unassigned counts all of them.
proof fn lemma_unassigned_all(comp: Seq<usize>, none: usize, k: int)
    requires
        0 <= k <= comp.len(),
        forall|v: int| 0 <= v < comp.len() ==> #[trigger] comp[v] == none,
    ensures
        unassigned_below(comp, none, k) == k,
    decreases k,
{
    if k > 0 {
        lemma_unassigned_all(comp, none, k - 1);
    }
}

/// An unassigned vertex is counted.
proof fn lemma_unassigned_positive(comp: Seq<usize>, none: usize, k: int, v0: int)
    requires
        0 <= v0 < k <= comp.len(),
        comp[v0] == none,
    ensures
        unassigned_below(comp, none, k) >= 1,
    decreases k,
{
    if v0 < k - 1 {
        lemma_unassigned_positive(comp, none, k - 1, v0);
    }
}

/// An edge leads out of a vertex numbered `k` into a vertex numbered `l`, out of a vertex below
/// `u0`, or out of `u0` by one of its first `j0` edges.
pub open spec fn edge_before(adj: Seq<Vec<usize>>, comp: Seq<usize>, k: int, l: int, u0: int, j0: int) -> bool {
    exists|u: int, j: int|
        0 <= u < adj.len() && 0 <= j < adj[u]@.len() && (u < u0 || (u == u0 && j < j0))
            && comp[u] == k && #[trigger] comp[adj[u]@[j] as int] == l
}

/// An edge leads from the component `k` into the component `l`.
pub open spec fn edge_between(adj: Seq<Vec<usize>>, comp: Seq<usize>, k: int, l: int) -> bool {
    edge_before(adj, comp, k, l, adj.len() as int, 0)
}

/// One more edge considered out of `u`.
proof fn lemma_edge_before_step(adj: Seq<Vec<usize>>, comp: Seq<usize>, k: int, l: int, u: int, j: int)
    requires
        0 <= u < adj.len(),
        0 <= j < adj[u]@.len(),
    ensures
        edge_before(adj, comp, k, l, u, j + 1) == (edge_before(adj, comp, k, l, u, j) || (comp[u] == k
            && comp[adj[u]@[j] as int] == l)),
{
    if edge_before(adj, comp, k, l, u, j + 1) && !(comp[u] == k && comp[adj[u]@[j] as int] == l) {
        let (u1, j1) = choose|u1: int, j1: int|
            0 <= u1 < adj.len() && 0 <= j1 < adj[u1]@.len() && (u1 < u || (u1 == u && j1 < j + 1))
                && comp[u1] == k && #[trigger] comp[adj[u1]@[j1] as int] == l;
        assert(comp[adj[u1]@[j1] as int] == l);
    }
    if edge_before(adj, comp, k, l, u, j) {
        let (u1, j1) = choose|u1: int, j1: int|
            0 <= u1 < adj.len() && 0 <= j1 < adj[u1]@.len() && (u1 < u || (u1 == u && j1 < j))
                && comp[u1] == k && #[trigger] comp[adj[u1]@[j1] as int] == l;
        assert(comp[adj[u1]@[j1] as int] == l);
    }
    if comp[u] == k && comp[adj[u]@[j] as int] == l {
        assert(comp[adj[u]@[j] as int] == l);
    }
}

/// All the edges out of `u` considered is the start at `u + 1`; none of them counts if `u` is
/// not in the component `k`.
proof fn lemma_edge_before_vertex(adj: Seq<Vec<usize>>, comp: Seq<usize>, k: int, l: int, u: int)
    requires
        0 <= u < adj.len(),
    ensures
        edge_before(adj, comp, k, l, u + 1, 0) == edge_before(adj, comp, k, l, u, adj[u]@.len() as int),
        comp[u] != k ==> edge_before(adj, comp, k, l, u + 1, 0) == edge_before(adj, comp, k, l, u, 0),
{
    if edge_before(adj, comp, k, l, u + 1, 0) {
        let (u1, j1) = choose|u1: int, j1: int|
            0 <= u1 < adj.len() && 0 <= j1 < adj[u1]@.len() && (u1 < u + 1 || (u1 == u + 1 && j1 < 0))
                && comp[u1] == k && #[trigger] comp[adj[u1]@[j1] as int] == l;
        assert(comp[adj[u1]@[j1] as int] == l);
    }
    if edge_before(adj, comp, k, l, u, adj[u]@.len() as int) {
        let (u1, j1) = choose|u1: int, j1: int|
            0 <= u1 < adj.len() && 0 <= j1 < adj[u1]@.len() && (u1 < u || (u1 == u && j1 < adj[u]@.len()))
                && comp[u1] == k && #[trigger] comp[adj[u1]@[j1] as int] == l;
        assert(comp[adj[u1]@[j1] as int] == l);
    }
    if edge_before(adj, comp, k, l, u, 0) {
        let (u1, j1) = choose|u1: int, j1: int|
            0 <= u1 < adj.len() && 0 <= j1 < adj[u1]@.len() && (u1 < u || (u1 == u && j1 < 0))
                && comp[u1] == k && #[trigger] comp[adj[u1]@[j1] as int] == l;
        assert(comp[adj[u1]@[j1] as int] == l);
    }
}

/// The condensation: for each component `k`, the other components that an edge out of `k` leads
/// into, each once.
fn condense(adjacency: &[Vec<usize>], component: &Vec<usize>, count: usize) -> (r: Vec<Vec<usize>>)
    requires
        edges_in_range(adjacency@),
        component@.len() == adjacency@.len(),
        forall|v: int| 0 <= v < adjacency@.len() ==> #[trigger] component@[v] < count,
    ensures
        r@.len() == count,
        forall|k: int| 0 <= k < count ==> no_duplicates(#[trigger] r@[k]@),
        forall|k: int, x: int| 0 <= k < count && 0 <= x < r@[k]@.len() ==> #[trigger] r@[k]@[x] < count,
        forall|k: int, l: int|
            0 <= k < count && 0 <= l < count ==> (#[trigger] r@[k]@.contains(l as usize) <==> l != k
                && edge_between(adjacency@, component@, k, l)),
{
    let ghost adj = adjacency@;
    let ghost comp = component@;
    let n = adjacency.len();
    let mut lists: Vec<Vec<usize>> = Vec::new();
    let mut k: usize = 0;
    while k < count
        invariant
            k <= count,
            n == adj.len(),
            adj == adjacency@,
            comp == component@,
            edges_in_range(adj),
            comp.len() == n,
            forall|v: int| 0 <= v < n ==> #[trigger] comp[v] < count,
            lists@.len() == k,
            forall|k2: int| 0 <= k2 < k ==> no_duplicates(#[trigger] lists@[k2]@),
            forall|k2: int, x: int| 0 <= k2 < k && 0 <= x < lists@[k2]@.len() ==> #[trigger] lists@[k2]@[x] < count,
            forall|k2: int, l: int|
                0 <= k2 < k && 0 <= l < count ==> (#[trigger] lists@[k2]@.contains(l as usize) <==> l != k2
                    && edge_between(adj, comp, k2, l)),
        decreases count - k,
    {
        let mut list: Vec<usize> = Vec::new();
        let mut mark: Vec<bool> = Vec::new();
        let mut i: usize = 0;
        while i < count
            invariant
                i <= count,
                mark@.len() == i,
                forall|l: int| 0 <= l < i ==> !#[trigger] mark@[l],
            decreases count - i,
        {
            mark.push(false);
            i = i + 1;
        }
        let mut u: usize = 0;
        while u < n
            invariant
                u <= n,
                k < count,
                n == adj.len(),
                adj == adjacency@,
                comp == component@,
                edges_in_range(adj),
                comp.len() == n,
                forall|v: int| 0 <= v < n ==> #[trigger] comp[v] < count,
                mark@.len() == count,
                no_duplicates(list@),
                forall|x: int| 0 <= x < list@.len() ==> #[trigger] list@[x] < count,
                forall|l: int| 0 <= l < count ==> (#[trigger] mark@[l] <==> list@.contains(l as usize)),
                forall|l: int|
                    0 <= l < count ==> (#[trigger] list@.contains(l as usize) <==> l != k && edge_before(adj, comp, k as int, l, u as int, 0)),
            decreases n - u,
        {
            if component[u] == k {
                let deg = adjacency[u].len();
                let mut j: usize = 0;
                while j < deg
                    invariant
                        j <= deg,
                        u < n,
                        k < count,
                        deg == adj[u as int]@.len(),
                        n == adj.len(),
                        adj == adjacency@,
                        comp == component@,
                        edges_in_range(adj),
                        comp.len() == n,
                        comp[u as int] == k,
                        forall|v: int| 0 <= v < n ==> #[trigger] comp[v] < count,
                        mark@.len() == count,
                        no_duplicates(list@),
                        forall|x: int| 0 <= x < list@.len() ==> #[trigger] list@[x] < count,
                        forall|l: int| 0 <= l < count ==> (#[trigger] mark@[l] <==> list@.contains(l as usize)),
                        forall|l: int|
                            0 <= l < count ==> (#[trigger] list@.contains(l as usize) <==> l != k && edge_before(
                                adj,
                                comp,
                                k as int,
                                l,
                                u as int,
                                j as int,
                            )),
                    decreases deg - j,
                {
                    let w = adjacency[u][j];
                    let l = component[w];
                    let ghost old_list = list@;
                    if l != k && !mark[l] {
                        mark.set(l, true);
                        list.push(l);
                        proof {
                            assert forall|a: int, b: int| 0 <= a < list@.len() && 0 <= b < list@.len() && a != b implies list@[a] != list@[b] by {
                                if a == list@.len() - 1 && b < old_list.len() {
                                    assert(old_list.contains(list@[b]));
                                } else if b == list@.len() - 1 && a < old_list.len() {
                                    assert(old_list.contains(list@[a]));
                                } else {
                                    assert(list@[a] == old_list[a]);
                                    assert(list@[b] == old_list[b]);
                                }
                            }
                            assert forall|l2: int| 0 <= l2 < count implies (#[trigger] list@.contains(l2 as usize) <==> old_list.contains(l2 as usize) || l2 == l) by {
                                if list@.contains(l2 as usize) {
                                    let i = choose|i: int| 0 <= i < list@.len() && list@[i] == l2 as usize;
                                    if i < old_list.len() {
                                        assert(old_list[i] == l2 as usize);
                                    }
                                }
                                if old_list.contains(l2 as usize) {
                                    let i = choose|i: int| 0 <= i < old_list.len() && old_list[i] == l2 as usize;
                                    assert(list@[i] == l2 as usize);
                                }
                                if l2 == l {
                                    assert(list@[list@.len() - 1] == l);
                                }
                            }
                        }
                    }
                    proof {
                        assert forall|l2: int| 0 <= l2 < count implies (#[trigger] list@.contains(l2 as usize) <==> l2 != k && edge_before(
                            adj,
                            comp,
                            k as int,
                            l2,
                            u as int,
                            j + 1,
                        )) by {
                            lemma_edge_before_step(adj, comp, k as int, l2, u as int, j as int);
                        }
                    }
                    j = j + 1;
                }
                proof {
                    assert forall|l2: int| 0 <= l2 < count implies (#[trigger] list@.contains(l2 as usize) <==> l2 != k && edge_before(
                        adj,
                        comp,
                        k as int,
                        l2,
                        u + 1,
                        0,
                    )) by {
                        lemma_edge_before_vertex(adj, comp, k as int, l2, u as int);
                    }
                }
            } else {
                proof {
                    assert forall|l2: int| 0 <= l2 < count implies (#[trigger] list@.contains(l2 as usize) <==> l2 != k && edge_before(
                        adj,
                        comp,
                        k as int,
                        l2,
                        u + 1,
                        0,
                    )) by {
                        lemma_edge_before_vertex(adj, comp, k as int, l2, u as int);
                    }
                }
            }
            u = u + 1;
        }
        lists.push(list);
        proof {
            assert(lists@[k as int]@ == list@);
            assert forall|k2: int, l: int|
                0 <= k2 < k + 1 && 0 <= l < count implies (#[trigger] lists@[k2]@.contains(l as usize) <==> l != k2
                    && edge_between(adj, comp, k2, l)) by {
                if k2 < k {
                    assert(lists@[k2] == lists@.drop_last()[k2]);
                }
            }
            assert forall|k2: int| 0 <= k2 < k + 1 implies no_duplicates(#[trigger] lists@[k2]@) by {
                if k2 < k {
                    assert(lists@[k2] == lists@.drop_last()[k2]);
                }
            }
            assert forall|k2: int, x: int| 0 <= k2 < k + 1 && 0 <= x < lists@[k2]@.len() implies #[trigger] lists@[k2]@[x] < count by {
                if k2 < k {
                    assert(lists@[k2] == lists@.drop_last()[k2]);
                }
            }
        }
        k = k + 1;
    }
    lists
}

/// `list` is strictly increasing.
pub open spec fn increasing(list: Seq<usize>) -> bool {
    forall|a: int, b: int| 0 <= a < b < list.len() ==> list[a] < list[b]
}

/// `list` holds no item twice.
pub open spec fn no_duplicates(list: Seq<usize>) -> bool {
    forall|a: int, b: int| 0 <= a < list.len() && 0 <= b < list.len() && a != b ==> list[a] != list[b]
}

/// The strongly connected components of a directed graph on `[0, n)`, numbered `0, ..., c - 1`
/// in a topological order of the condensation: along every edge `u -> v`, the number of the
/// component of `v` is at least that of `u`.
pub struct Scc {
    component: Vec<usize>,
    groups: Vec<Vec<usize>>,
    condensation: Vec<Vec<usize>>,
    graph: Ghost<Seq<Vec<usize>>>,
}

impl Scc {
    #[verifier::type_invariant]
    spec fn wf(self) -> bool {
        let (adj, comp, c) = (self.graph@, self.component@, self.groups@.len());
        &&& comp.len() == adj.len()
        &&& edges_in_range(adj)
        &&& self.condensation@.len() == c
        &&& forall|v: int| 0 <= v < comp.len() ==> #[trigger] comp[v] < c
        &&& forall|k: int|
            0 <= k < c ==> increasing(#[trigger] self.groups@[k]@) && forall|x: int|
                0 <= x < self.groups@[k]@.len() ==> #[trigger] self.groups@[k]@[x] < comp.len()
        &&& forall|k: int, v: int|
            0 <= k < c && 0 <= v < comp.len() ==> (#[trigger] self.groups@[k]@.contains(v as usize) <==> comp[v] == k)
        &&& forall|k: int| 0 <= k < c ==> no_duplicates(#[trigger] self.condensation@[k]@)
        &&& forall|k: int, l: int|
            0 <= k < c && 0 <= l < c ==> (#[trigger] self.condensation@[k]@.contains(l as usize) <==> l != k
                && edge_between(adj, comp, k, l))
        &&& forall|k: int, x: int|
            0 <= k < c && 0 <= x < self.condensation@[k]@.len() ==> #[trigger] self.condensation@[k]@[x] < c
        &&& forall|u: int, j: int|
            0 <= u < adj.len() && 0 <= j < adj[u]@.len() ==> comp[u] <= comp[#[trigger] adj[u]@[j] as int]
    }

    /// The graph, as its adjacency lists.
    pub closed spec fn graph(self) -> Seq<Vec<usize>> {
        self.graph@
    }

    /// The number of the component of each vertex.
    pub closed spec fn spec_component(self) -> Seq<usize> {
        self.component@
    }

    /// The number `c` of components.
    pub closed spec fn spec_len(self) -> nat {
        self.groups@.len()
    }

    /// The strongly connected components of the graph with an edge `u -> v` for each `v` in
    /// `adjacency[u]`: vertices share a number exactly when each reaches the other, every edge
    /// goes to a number at least its own, and the numbers are `[0, c)`. From a breadth-first
    /// search out of every vertex, in O(n (n + m)).
    pub fn from_adjacency(adjacency: &[Vec<usize>]) -> (s: Self)
        requires
            edges_in_range(adjacency@),
        ensures
            s.graph() == adjacency@,
            s.spec_component().len() == adjacency@.len(),
            s.spec_len() <= adjacency@.len(),
            forall|v: int| 0 <= v < adjacency@.len() ==> #[trigger] s.spec_component()[v] < s.spec_len(),
            forall|u: int, v: int|
                0 <= u < adjacency@.len() && 0 <= v < adjacency@.len() ==> (s.spec_component()[u]
                    == s.spec_component()[v] <==> #[trigger] strongly_connected(adjacency@, u, v)),
            forall|u: int, j: int|
                0 <= u < adjacency@.len() && 0 <= j < adjacency@[u]@.len() ==> s.spec_component()[u]
                    <= s.spec_component()[#[trigger] adjacency@[u]@[j] as int],
            forall|k: int| 0 <= k < s.spec_len() ==> #[trigger] number_used(s.spec_component(), k),
    {
        let ghost adj = adjacency@;
        let n = adjacency.len();
        let (component, count) = number_components(adjacency);
        let mut groups: Vec<Vec<usize>> = Vec::new();
        let mut k: usize = 0;
        while k < count
            invariant
                k <= count,
                count <= n,
                component@.len() == n,
                forall|v: int| 0 <= v < n ==> #[trigger] component@[v] < count,
                groups@.len() == k,
                forall|k2: int|
                    0 <= k2 < k ==> increasing(#[trigger] groups@[k2]@) && forall|x: int|
                        0 <= x < groups@[k2]@.len() ==> #[trigger] groups@[k2]@[x] < n,
                forall|k2: int, v: int|
                    0 <= k2 < k && 0 <= v < n ==> (#[trigger] groups@[k2]@.contains(v as usize) <==> component@[v] == k2),
            decreases count - k,
        {
            let mut g: Vec<usize> = Vec::new();
            let mut v: usize = 0;
            while v < n
                invariant
                    v <= n,
                    component@.len() == n,
                    increasing(g@),
                    forall|x: int| 0 <= x < g@.len() ==> #[trigger] g@[x] < v,
                    forall|x: int| 0 <= x < v ==> (#[trigger] g@.contains(x as usize) <==> component@[x] == k),
                decreases n - v,
            {
                if component[v] == k {
                    let ghost old_g = g@;
                    g.push(v);
                    proof {
                        assert forall|x: int| 0 <= x < v + 1 implies (#[trigger] g@.contains(x as usize) <==> component@[x] == k) by {
                            if x < v {
                                if g@.contains(x as usize) {
                                    let i = choose|i: int| 0 <= i < g@.len() && g@[i] == x as usize;
                                    assert(i < g@.len() - 1);
                                    assert(old_g[i] == x as usize);
                                    assert(old_g.contains(x as usize));
                                }
                                if component@[x] == k {
                                    assert(old_g.contains(x as usize));
                                    let i = choose|i: int| 0 <= i < old_g.len() && old_g[i] == x as usize;
                                    assert(g@[i] == x as usize);
                                    assert(g@.contains(x as usize));
                                }
                            } else {
                                assert(x == v);
                                assert(g@[g@.len() - 1] == v);
                                assert(g@.contains(v));
                            }
                        }
                    }
                } else {
                    proof {
                        assert forall|x: int| 0 <= x < v + 1 implies (#[trigger] g@.contains(x as usize) <==> component@[x] == k) by {
                            if x == v && g@.contains(x as usize) {
                                let i = choose|i: int| 0 <= i < g@.len() && g@[i] == x as usize;
                                assert(g@[i] < v);
                            }
                        }
                    }
                }
                v = v + 1;
            }
            proof {
                assert forall|x: int| 0 <= x < g@.len() implies #[trigger] g@[x] < n by {}
            }
            groups.push(g);
            proof {
                assert(groups@[k as int]@ == g@);
                assert forall|k2: int, x: int|
                    0 <= k2 < k + 1 && 0 <= x < n implies (#[trigger] groups@[k2]@.contains(x as usize) <==> component@[x] == k2) by {
                    if k2 < k {
                        assert(groups@[k2] == groups@.drop_last()[k2]);
                    }
                }
            }
            k = k + 1;
        }
        let condensation = condense(adjacency, &component, count);
        let s = Scc { component, groups, condensation, graph: Ghost(adj) };
        s
    }

    /// The number of the component of `v`.
    pub fn component(&self, v: usize) -> (k: usize)
        requires
            v < self.spec_component().len(),
        ensures
            k == self.spec_component()[v as int],
    {
        self.component[v]
    }

    /// The component `k`, as its vertices in increasing order.
    pub fn group(&self, k: usize) -> (r: &[usize])
        requires
            k < self.spec_len(),
        ensures
            increasing(r@),
            forall|v: int| 0 <= v < self.spec_component().len() ==> (#[trigger] r@.contains(v as usize) <==> self.spec_component()[v] == k),
            forall|x: int| 0 <= x < r@.len() ==> #[trigger] r@[x] < self.spec_component().len(),
    {
        proof {
            use_type_invariant(self);
        }
        self.groups[k].as_slice()
    }

    /// The condensation, as a directed acyclic graph on `[0, c)`: the `k`-th list holds the
    /// `l != k` with an edge from the component `k` into the component `l`, each once.
    pub fn condensation(&self) -> (r: &[Vec<usize>])
        ensures
            r@.len() == self.spec_len(),
            forall|k: int| 0 <= k < r@.len() ==> no_duplicates(#[trigger] r@[k]@),
            forall|k: int, x: int| 0 <= k < r@.len() && 0 <= x < r@[k]@.len() ==> #[trigger] r@[k]@[x] < r@.len(),
            forall|k: int, l: int|
                0 <= k < r@.len() && 0 <= l < r@.len() ==> (#[trigger] r@[k]@.contains(l as usize) <==> l != k
                    && edge_between(self.graph(), self.spec_component(), k, l)),
            forall|k: int, x: int| 0 <= k < r@.len() && 0 <= x < r@[k]@.len() ==> k < #[trigger] r@[k]@[x],
    {
        proof {
            use_type_invariant(self);
            let (adj, comp) = (self.graph@, self.component@);
            assert forall|k: int, x: int| 0 <= k < self.condensation@.len() && 0 <= x < self.condensation@[k]@.len() implies k < #[trigger] self.condensation@[k]@[x] by {
                let l = self.condensation@[k]@[x] as int;
                assert(self.condensation@[k]@.contains(l as usize));
                let (u, j) = choose|u: int, j: int|
                    0 <= u < adj.len() && 0 <= j < adj[u]@.len() && (u < adj.len() || (u == adj.len() && j < 0))
                        && comp[u] == k && #[trigger] comp[adj[u]@[j] as int] == l;
                assert(comp[u] <= comp[adj[u]@[j] as int]);
            }
        }
        self.condensation.as_slice()
    }

    /// The number `c` of components.
    pub fn len(&self) -> (c: usize)
        ensures
            c == self.spec_len(),
    {
        self.groups.len()
    }

    /// Whether there is no component, that is no vertex.
    pub fn is_empty(&self) -> (b: bool)
        ensures
            b <==> self.spec_len() == 0,
    {
        self.groups.len() == 0
    }
}

} // verus!
