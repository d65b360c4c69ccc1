//! A topological order of a directed graph, by Kahn's algorithm.
use crate::symmetric::{is_permutation, lemma_permutation_onto};
use vstd::prelude::*;

verus! {

/// The number of occurrences of `v` in `s`.
pub open spec fn count_occ(s: Seq<usize>, v: usize) -> nat
    decreases s.len(),
{
    if s.len() == 0 {
        0
    } else {
        (if s[0] == v {
            1nat
        } else {
            0nat
        }) + count_occ(s.skip(1), v)
    }
}

/// The number of edges into `v` from the vertices `u < m` with `done[u]` false.
pub open spec fn in_count(adj: Seq<Vec<usize>>, v: usize, done: Seq<bool>, m: int) -> nat
    decreases m,
{
    if m <= 0 {
        0
    } else {
        in_count(adj, v, done, m - 1) + (if done[m - 1] {
            0
        } else {
            count_occ(adj[m - 1]@, v)
        })
    }
}

/// The number of edges out of the vertices `u < m`.
pub open spec fn total_edges(adj: Seq<Vec<usize>>, m: int) -> nat
    decreases m,
{
    if m <= 0 {
        0
    } else {
        total_edges(adj, m - 1) + adj[m - 1]@.len()
    }
}

/// `o` is a topological order of the graph with an edge `u -> v` for each `v` in `adj[u]`: a
/// permutation of the vertices in which `u` comes before `v` for every edge `u -> v`.
pub open spec fn is_topological_order(adj: Seq<Vec<usize>>, o: Seq<usize>) -> bool {
    &&& o.len() == adj.len()
    &&& is_permutation(o)
    &&& forall|i: int, j: int, k: int|
        0 <= i < o.len() && 0 <= j < o.len() && 0 <= k < adj[o[i] as int]@.len()
            && #[trigger] adj[o[i] as int]@[k] == #[trigger] o[j] ==> i < j
}

/// `vs` is a cycle of the graph: a closed walk `vs[0] -> vs[1] -> ... -> vs[len - 1] = vs[0]` of at
/// least one edge, each step along an edge `u -> v` with `v` in `adj[u]`.
pub open spec fn is_cycle(adj: Seq<Vec<usize>>, vs: Seq<usize>) -> bool {
    &&& vs.len() >= 2
    &&& vs[0] == vs.last()
    &&& forall|k: int| 0 <= k < vs.len() - 1 ==> #[trigger] cycle_step(adj, vs, k)
}

/// The `k`-th step of `vs` is an edge `vs[k] -> vs[k + 1]`.
pub open spec fn cycle_step(adj: Seq<Vec<usize>>, vs: Seq<usize>, k: int) -> bool {
    vs[k] < adj.len() && adj[vs[k] as int]@.contains(vs[k + 1])
}

/// The graph has a cycle.
pub open spec fn has_cycle(adj: Seq<Vec<usize>>) -> bool {
    exists|vs: Seq<usize>| is_cycle(adj, vs)
}

/// Along the first `k` steps of a cycle, positions in a topological order strictly increase.
proof fn lemma_cycle_positions(adj: Seq<Vec<usize>>, o: Seq<usize>, vs: Seq<usize>, k: int)
    requires
        is_topological_order(adj, o),
        adj.len() <= usize::MAX,
        is_cycle(adj, vs),
        1 <= k < vs.len(),
    ensures
        exists|i: int, j: int| 0 <= i < j < o.len() && o[i] == vs[0] && o[j] == vs[k],
    decreases k,
{
    let n = o.len();
    assert(cycle_step(adj, vs, k - 1));
    let kk = choose|kk: int| 0 <= kk < adj[vs[k - 1] as int]@.len() && #[trigger] adj[vs[k - 1] as int]@[kk] == vs[k];
    lemma_permutation_onto(o, vs[k - 1] as int);
    let a = choose|a: int| 0 <= a < n && o[a] == vs[k - 1];
    assert(vs[k] < n) by {
        assert(adj[o[a] as int]@[kk] == vs[k]);
        if k + 1 < vs.len() {
            assert(cycle_step(adj, vs, k));
        } else {
            assert(vs[k] == vs[0]);
            assert(cycle_step(adj, vs, 0));
        }
    }
    lemma_permutation_onto(o, vs[k] as int);
    let b = choose|b: int| 0 <= b < n && o[b] == vs[k];
    assert(adj[o[a] as int]@[kk] == o[b]);
    assert(a < b);
    if k > 1 {
        lemma_cycle_positions(adj, o, vs, k - 1);
        let (i, j) = choose|i: int, j: int| 0 <= i < j < o.len() && o[i] == vs[0] && o[j] == vs[k - 1];
        assert(j == a) by {
            if j != a {
                if j < a {
                    assert(o[j] != o[a]);
                } else {
                    assert(o[a] != o[j]);
                }
            }
        }
    } else {
        assert(o[a] == vs[0]);
    }
}

/// A graph with a topological order has no cycle.
pub proof fn lemma_topological_order_acyclic(adj: Seq<Vec<usize>>, o: Seq<usize>)
    requires
        is_topological_order(adj, o),
        adj.len() <= usize::MAX,
    ensures
        !has_cycle(adj),
{
    if has_cycle(adj) {
        let vs = choose|vs: Seq<usize>| is_cycle(adj, vs);
        lemma_cycle_positions(adj, o, vs, vs.len() - 1);
        let (i, j) = choose|i: int, j: int| 0 <= i < j < o.len() && o[i] == vs[0] && o[j] == vs[vs.len() - 1];
        assert(o[i] != o[j]);
    }
}

/// `pred` applied `t` times to `start`.
spec fn iterate(pred: spec_fn(usize) -> usize, start: usize, t: nat) -> usize
    decreases t,
{
    if t == 0 {
        start
    } else {
        pred(iterate(pred, start, (t - 1) as nat))
    }
}

/// If every vertex of a nonempty set `keep` of vertices has an edge into it from a vertex of the
/// set, the graph has a cycle: walking back from a vertex of the set repeats a vertex.
proof fn lemma_cycle_from_predecessors(adj: Seq<Vec<usize>>, keep: spec_fn(usize) -> bool, start: usize)
    requires
        adj.len() <= usize::MAX,
        start < adj.len(),
        keep(start),
        forall|w: usize|
            w < adj.len() && #[trigger] keep(w) ==> exists|u: usize|
                u < adj.len() && keep(u) && #[trigger] adj[u as int]@.contains(w),
    ensures
        has_cycle(adj),
{
    let n = adj.len();
    let pred = |w: usize| choose|u: usize| u < n && keep(u) && #[trigger] adj[u as int]@.contains(w);
    let ws = Seq::new(n + 1, |t: int| iterate(pred, start, t as nat));
    assert forall|t: int| 0 <= t < ws.len() implies #[trigger] ws[t] < n by {
        lemma_iterate_kept(adj, keep, pred, start, t as nat);
    }
    if forall|a: int, b: int| 0 <= a < b < ws.len() ==> ws[a] != ws[b] {
        crate::symmetric::lemma_distinct_bounded_len(ws, n);
    }
    let (a, b) = choose|a: int, b: int| 0 <= a < b < ws.len() && ws[a] == ws[b];
    let cyc = Seq::new((b - a + 1) as nat, |k: int| ws[b - k]);
    assert forall|k: int| 0 <= k < cyc.len() - 1 implies #[trigger] cycle_step(adj, cyc, k) by {
        lemma_iterate_kept(adj, keep, pred, start, (b - k) as nat);
        assert(cyc[k] == iterate(pred, start, (b - k) as nat));
        assert(cyc[k + 1] == iterate(pred, start, (b - k - 1) as nat));
    }
    assert(is_cycle(adj, cyc));
}

proof fn lemma_iterate_kept(
    adj: Seq<Vec<usize>>,
    keep: spec_fn(usize) -> bool,
    pred: spec_fn(usize) -> usize,
    start: usize,
    t: nat,
)
    requires
        start < adj.len(),
        keep(start),
        forall|w: usize|
            w < adj.len() && #[trigger] keep(w) ==> exists|u: usize|
                u < adj.len() && keep(u) && #[trigger] adj[u as int]@.contains(w),
        pred == (|w: usize| choose|u: usize| u < adj.len() && keep(u) && #[trigger] adj[u as int]@.contains(w)),
    ensures
        iterate(pred, start, t) < adj.len(),
        keep(iterate(pred, start, t)),
        t > 0 ==> adj[iterate(pred, start, t) as int]@.contains(iterate(pred, start, (t - 1) as nat)),
    decreases t,
{
    if t > 0 {
        lemma_iterate_kept(adj, keep, pred, start, (t - 1) as nat);
        let w = iterate(pred, start, (t - 1) as nat);
        assert(keep(w));
    }
}

proof fn lemma_count_occ_bound(s: Seq<usize>, v: usize)
    ensures
        count_occ(s, v) <= s.len(),
    decreases s.len(),
{
    if s.len() > 0 {
        lemma_count_occ_bound(s.skip(1), v);
    }
}

/// `count_occ(s, v) = [s[k] = v] + count_occ(s[k+1..], v)` split at `k`.
proof fn lemma_count_occ_skip(s: Seq<usize>, k: int, v: usize)
    requires
        0 <= k < s.len(),
    ensures
        count_occ(s.skip(k), v) == (if s[k] == v {
            1nat
        } else {
            0nat
        }) + count_occ(s.skip(k + 1), v),
{
    assert(s.skip(k).skip(1) =~= s.skip(k + 1));
}

/// A positive count has a witness.
proof fn lemma_count_occ_witness(s: Seq<usize>, v: usize)
    requires
        count_occ(s, v) > 0,
    ensures
        exists|k: int| 0 <= k < s.len() && s[k] == v,
    decreases s.len(),
{
    if s[0] != v {
        lemma_count_occ_witness(s.skip(1), v);
        let k = choose|k: int| 0 <= k < s.skip(1).len() && s.skip(1)[k] == v;
        assert(s[k + 1] == v);
    }
}

proof fn lemma_in_count_bound(adj: Seq<Vec<usize>>, v: usize, done: Seq<bool>, m: int)
    ensures
        in_count(adj, v, done, m) <= total_edges(adj, m),
    decreases m,
{
    if m > 0 {
        lemma_in_count_bound(adj, v, done, m - 1);
        lemma_count_occ_bound(adj[m - 1]@, v);
    }
}

/// Marking `u` done removes its edges from the count.
proof fn lemma_in_count_mark(adj: Seq<Vec<usize>>, v: usize, done: Seq<bool>, u: int, m: int)
    requires
        0 <= u < done.len(),
        m <= done.len(),
        !done[u],
    ensures
        in_count(adj, v, done.update(u, true), m) + (if u < m {
            count_occ(adj[u]@, v)
        } else {
            0
        }) == in_count(adj, v, done, m),
    decreases m,
{
    if m > 0 {
        lemma_in_count_mark(adj, v, done, u, m - 1);
    }
}

/// Counting from `done` equal on `[0, m)` gives the same result.
proof fn lemma_in_count_ext(adj: Seq<Vec<usize>>, v: usize, d1: Seq<bool>, d2: Seq<bool>, m: int)
    requires
        forall|u: int| 0 <= u < m ==> d1[u] == d2[u],
    ensures
        in_count(adj, v, d1, m) == in_count(adj, v, d2, m),
    decreases m,
{
    if m > 0 {
        lemma_in_count_ext(adj, v, d1, d2, m - 1);
    }
}

/// A positive count has an edge `u -> v` from a vertex `u < m` not done.
proof fn lemma_in_count_witness(adj: Seq<Vec<usize>>, v: usize, done: Seq<bool>, m: int)
    requires
        in_count(adj, v, done, m) > 0,
    ensures
        exists|u: int, k: int|
            0 <= u < m && !done[u] && 0 <= k < adj[u]@.len() && #[trigger] adj[u]@[k] == v,
    decreases m,
{
    if in_count(adj, v, done, m - 1) > 0 {
        lemma_in_count_witness(adj, v, done, m - 1);
        let (u, k) = choose|u: int, k: int|
            0 <= u < m - 1 && !done[u] && 0 <= k < adj[u]@.len() && #[trigger] adj[u]@[k] == v;
        assert(adj[u]@[k] == v);
    } else {
        let s = adj[m - 1]@;
        lemma_count_occ_witness(s, v);
        let k = choose|k: int| 0 <= k < s.len() && s[k] == v;
        assert(adj[m - 1]@[k] == v);
    }
}

/// The first index `j >= from` of `o` whose element fails `keep`, given that one exists.
proof fn lemma_first_outside(o: Seq<usize>, keep: Seq<bool>, from: int) -> (j: int)
    requires
        0 <= from <= o.len(),
        exists|j: int| from <= j < o.len() && o[j] < keep.len() && !keep[o[j] as int],
        forall|j: int| 0 <= j < o.len() ==> #[trigger] o[j] < keep.len(),
    ensures
        from <= j < o.len(),
        !keep[o[j] as int],
        forall|i: int| from <= i < j ==> keep[#[trigger] o[i] as int],
    decreases o.len() - from,
{
    if !keep[o[from] as int] {
        from
    } else {
        lemma_first_outside(o, keep, from + 1)
    }
}

/// A topological order of the directed graph with an edge `u -> v` for each `v` in `adjacency[u]`,
/// or `None` exactly when it has none (that is, when it has a cycle).
pub fn topological_sort(adjacency: &[Vec<usize>]) -> (r: Option<Vec<usize>>)
    requires
        forall|u: int, k: int|
            0 <= u < adjacency@.len() && 0 <= k < adjacency@[u]@.len() ==> #[trigger] adjacency@[u]@[k]
                < adjacency@.len(),
        total_edges(adjacency@, adjacency@.len() as int) <= usize::MAX,
    ensures
        r matches Some(o) ==> is_topological_order(adjacency@, o@),
        r is None ==> !exists|o: Seq<usize>| is_topological_order(adjacency@, o),
        r is None <==> has_cycle(adjacency@),
{
    let n = adjacency.len();
    let ghost adj = adjacency@;
    let ghost none: Seq<bool> = Seq::new(n as nat, |u: int| false);
    let mut degree: Vec<usize> = vec![0; n];
    let mut u: usize = 0;
    while u < n
        invariant
            n == adj.len(),
            adj == adjacency@,
            none == Seq::new(n as nat, |u: int| false),
            u <= n,
            degree@.len() == n,
            forall|x: int, k: int|
                0 <= x < n && 0 <= k < adj[x]@.len() ==> #[trigger] adj[x]@[k] < n,
            total_edges(adj, n as int) <= usize::MAX,
            forall|v: int| 0 <= v < n ==> #[trigger] degree@[v] == in_count(adj, v as usize, none, u as int),
        decreases n - u,
    {
        let mut k: usize = 0;
        proof {
            assert(adj[u as int]@.skip(0) =~= adj[u as int]@);
        }
        while k < adjacency[u].len()
            invariant
                n == adj.len(),
                adj == adjacency@,
                none == Seq::new(n as nat, |u: int| false),
                u < n,
                k <= adj[u as int]@.len(),
                degree@.len() == n,
                forall|x: int, k: int|
                    0 <= x < n && 0 <= k < adj[x]@.len() ==> #[trigger] adj[x]@[k] < n,
                total_edges(adj, n as int) <= usize::MAX,
                forall|v: int|
                    0 <= v < n ==> #[trigger] degree@[v] + count_occ(adj[u as int]@.skip(k as int), v as usize)
                        == in_count(adj, v as usize, none, u as int + 1),
            decreases adj[u as int]@.len() - k,
        {
            let v = adjacency[u][k];
            proof {
                lemma_count_occ_skip(adj[u as int]@, k as int, v);
                lemma_in_count_bound(adj, v, none, u as int + 1);
                lemma_total_edges_mono(adj, u as int + 1, n as int);
                assert forall|w: int| 0 <= w < n && w != v implies #[trigger] degree@[w] + count_occ(
                    adj[u as int]@.skip(k as int + 1),
                    w as usize,
                ) == in_count(adj, w as usize, none, u as int + 1) by {
                    lemma_count_occ_skip(adj[u as int]@, k as int, w as usize);
                }
            }
            degree.set(v, degree[v] + 1);
            k = k + 1;
        }
        proof {
            assert(adj[u as int]@.skip(k as int) =~= Seq::<usize>::empty());
        }
        u = u + 1;
    }
    let mut order: Vec<usize> = Vec::with_capacity(n);
    let mut v: usize = 0;
    while v < n
        invariant
            n == adj.len(),
            v <= n,
            degree@.len() == n,
            forall|w: int| 0 <= w < n ==> #[trigger] degree@[w] == in_count(adj, w as usize, none, n as int),
            forall|j: int| 0 <= j < order@.len() ==> #[trigger] order@[j] < v,
            forall|i: int, j: int| 0 <= i < j < order@.len() ==> order@[i] < order@[j],
            forall|w: int| 0 <= w < v ==> (order@.contains(w as usize) <==> #[trigger] degree@[w] == 0),
            order@.len() <= v,
        decreases n - v,
    {
        let ghost old_order = order@;
        if degree[v] == 0 {
            order.push(v);
        }
        proof {
            assert forall|w: int| 0 <= w < v + 1 implies (order@.contains(w as usize)
                <==> #[trigger] degree@[w] == 0) by {
                if w == v && degree@[w] == 0 {
                    assert(order@[order@.len() - 1] == v);
                }
                if order@.contains(w as usize) {
                    let j = choose|j: int| 0 <= j < order@.len() && order@[j] == w as usize;
                    if w == v && degree@[w] != 0 {
                        assert(order@[j] < v);
                    }
                    if w < v && j < old_order.len() {
                        assert(old_order.contains(w as usize));
                    }
                }
                if w < v && old_order.contains(w as usize) {
                    let j = choose|j: int| 0 <= j < old_order.len() && old_order[j] == w as usize;
                    assert(order@[j] == w as usize);
                }
            }
        }
        v = v + 1;
    }
    let ghost mut done = none;
    let mut i: usize = 0;
    while i < order.len()
        invariant
            n == adj.len(),
            adj == adjacency@,
            degree@.len() == n,
            done.len() == n,
            i <= order@.len() <= n,
            forall|x: int, k: int|
                0 <= x < n && 0 <= k < adj[x]@.len() ==> #[trigger] adj[x]@[k] < n,
            forall|j: int| 0 <= j < order@.len() ==> #[trigger] order@[j] < n,
            forall|a: int, b: int| 0 <= a < b < order@.len() ==> order@[a] != order@[b],
            forall|w: int| 0 <= w < n ==> (#[trigger] done[w] <==> order@.take(i as int).contains(w as usize)),
            forall|w: int| 0 <= w < n ==> #[trigger] degree@[w] == in_count(adj, w as usize, done, n as int),
            forall|w: int| 0 <= w < n ==> (order@.contains(w as usize) <==> #[trigger] degree@[w] == 0),
            forall|a: int, k: int|
                0 <= a < i && 0 <= k < adj[order@[a] as int]@.len() ==> !order@.take(a + 1).contains(
                    #[trigger] adj[order@[a] as int]@[k],
                ),
        decreases n - i,
    {
        let u = order[i];
        let ghost old_done = done;
        proof {
            assert(!old_done[u as int]) by {
                if order@.take(i as int).contains(u) {
                    let j = choose|j: int| 0 <= j < i && order@.take(i as int)[j] == u;
                    assert(order@[j] == order@[i as int]);
                }
            }
            done = done.update(u as int, true);
            let t0 = order@.take(i as int);
            let t1 = order@.take(i as int + 1);
            assert forall|w: int| 0 <= w < n implies (#[trigger] done[w] <==> t1.contains(
                w as usize,
            )) by {
                if t0.contains(w as usize) {
                    let j = choose|j: int| 0 <= j < t0.len() && t0[j] == w as usize;
                    assert(t1[j] == w as usize);
                }
                if t1.contains(w as usize) {
                    let j = choose|j: int| 0 <= j < t1.len() && t1[j] == w as usize;
                    if j < i {
                        assert(t0[j] == w as usize);
                    }
                }
                if w == u {
                    assert(t1[i as int] == u);
                }
            }
            assert forall|w: int| 0 <= w < n implies #[trigger] degree@[w] == in_count(
                adj,
                w as usize,
                done,
                n as int,
            ) + count_occ(adj[u as int]@.skip(0), w as usize) by {
                lemma_in_count_mark(adj, w as usize, old_done, u as int, n as int);
                assert(adj[u as int]@.skip(0) =~= adj[u as int]@);
            }
        }
        let ghost head = order@.take(i as int + 1);
        i = i + 1;
        let mut k: usize = 0;
        while k < adjacency[u].len()
            invariant
                n == adj.len(),
                adj == adjacency@,
                degree@.len() == n,
                done.len() == n,
                u < n,
                done[u as int],
                1 <= i <= order@.len() <= n,
                order@[i - 1] == u,
                head == order@.take(i as int),
                k <= adj[u as int]@.len(),
                forall|x: int, k: int|
                    0 <= x < n && 0 <= k < adj[x]@.len() ==> #[trigger] adj[x]@[k] < n,
                forall|j: int| 0 <= j < order@.len() ==> #[trigger] order@[j] < n,
                forall|a: int, b: int| 0 <= a < b < order@.len() ==> order@[a] != order@[b],
                forall|w: int| 0 <= w < n ==> (#[trigger] done[w] <==> head.contains(w as usize)),
                forall|w: int|
                    0 <= w < n ==> #[trigger] degree@[w] == in_count(adj, w as usize, done, n as int)
                        + count_occ(adj[u as int]@.skip(k as int), w as usize),
                forall|w: int| 0 <= w < n ==> (order@.contains(w as usize) <==> #[trigger] degree@[w] == 0),
                forall|a: int, k: int|
                    0 <= a < i - 1 && 0 <= k < adj[order@[a] as int]@.len() ==> !order@.take(a + 1).contains(
                        #[trigger] adj[order@[a] as int]@[k],
                    ),
                forall|k2: int| 0 <= k2 < k ==> !head.contains(#[trigger] adj[u as int]@[k2]),
            decreases adj[u as int]@.len() - k,
        {
            let v = adjacency[u][k];
            let ghost old_order = order@;
            proof {
                lemma_count_occ_skip(adj[u as int]@, k as int, v);
                assert forall|w: int| 0 <= w < n && w != v implies #[trigger] degree@[w] == in_count(
                    adj,
                    w as usize,
                    done,
                    n as int,
                ) + count_occ(adj[u as int]@.skip(k as int + 1), w as usize) by {
                    lemma_count_occ_skip(adj[u as int]@, k as int, w as usize);
                }
                assert(degree@[v as int] == in_count(adj, v, done, n as int) + count_occ(
                    adj[u as int]@.skip(k as int),
                    v,
                ));
                assert(!order@.contains(v));
                assert(!head.contains(v)) by {
                    if head.contains(v) {
                        let j = choose|j: int| 0 <= j < head.len() && head[j] == v;
                        assert(order@[j] == v);
                    }
                }
            }
            degree.set(v, degree[v] - 1);
            if degree[v] == 0 {
                order.push(v);
            }
            proof {
                assert(order@.take(i as int) =~= old_order.take(i as int));
                crate::symmetric::lemma_distinct_bounded_len(order@, n as nat);
                assert forall|a: int, b: int| 0 <= a < b < order@.len() implies order@[a]
                    != order@[b] by {
                    if b == old_order.len() {
                        assert(old_order.contains(old_order[a]));
                    }
                }
                assert forall|w: int| 0 <= w < n implies (order@.contains(w as usize)
                    <==> #[trigger] degree@[w] == 0) by {
                    if order@.contains(w as usize) {
                        let j = choose|j: int| 0 <= j < order@.len() && order@[j] == w as usize;
                        if j < old_order.len() {
                            assert(old_order.contains(w as usize));
                        }
                    }
                    if old_order.contains(w as usize) {
                        let j = choose|j: int| 0 <= j < old_order.len() && old_order[j] == w as usize;
                        assert(order@[j] == w as usize);
                    }
                    if w == v && degree@[w] == 0 {
                        assert(order@[order@.len() - 1] == v);
                    }
                }
                assert forall|a: int, k2: int|
                    0 <= a < i - 1 && 0 <= k2 < adj[order@[a] as int]@.len() implies !order@.take(
                    a + 1,
                ).contains(#[trigger] adj[order@[a] as int]@[k2]) by {
                    assert(order@.take(a + 1) =~= old_order.take(a + 1));
                    assert(order@[a] == old_order[a]);
                }
            }
            k = k + 1;
        }
        proof {
            assert(adj[u as int]@.skip(k as int) =~= Seq::<usize>::empty());
            assert forall|a: int, k2: int|
                0 <= a < i && 0 <= k2 < adj[order@[a] as int]@.len() implies !order@.take(
                a + 1,
            ).contains(#[trigger] adj[order@[a] as int]@[k2]) by {
                if a == i - 1 {
                    assert(order@.take(a + 1) =~= head);
                }
            }
        }
    }
    if order.len() == n {
        proof {
            assert forall|a: int, b: int, k: int|
                0 <= a < order@.len() && 0 <= b < order@.len() && 0 <= k < adj[order@[a] as int]@.len()
                    && #[trigger] adj[order@[a] as int]@[k] == #[trigger] order@[b] implies a < b by {
                if b <= a {
                    assert(order@.take(a + 1)[b] == order@[b]);
                    assert(order@.take(a + 1).contains(order@[b]));
                }
            }
            assert forall|a: int| 0 <= a < order@.len() implies #[trigger] order@[a] < order@.len() by {}
            lemma_topological_order_acyclic(adj, order@);
        }
        Some(order)
    } else {
        proof {
            assert(order@.take(i as int) =~= order@);
            let keep = Seq::new(n as nat, |w: int| order@.contains(w as usize));
            if exists|o: Seq<usize>| is_topological_order(adj, o) {
                let o = choose|o: Seq<usize>| is_topological_order(adj, o);
                // some vertex is missing from `order`
                let missing = lemma_missing(order@, n as nat);
                lemma_permutation_onto(o, missing as int);
                let jm = choose|j: int| 0 <= j < o.len() && o[j] == missing;
                assert(!keep[o[jm] as int]);
                let j0 = lemma_first_outside(o, keep, 0);
                let v0 = o[j0];
                assert(!order@.contains(v0));
                assert(degree@[v0 as int] > 0);
                lemma_in_count_witness(adj, v0, done, n as int);
                let (u0, k0) = choose|u0: int, k0: int|
                    0 <= u0 < n && !done[u0] && 0 <= k0 < adj[u0]@.len() && #[trigger] adj[u0]@[k0]
                        == v0;
                lemma_permutation_onto(o, u0);
                let ju = choose|j: int| 0 <= j < o.len() && o[j] == u0;
                assert(adj[o[ju] as int]@[k0] == o[j0]);
                assert(ju < j0);
                assert(keep[o[ju] as int]);
                assert(!order@.contains(u0 as usize));
            }
            let missing = lemma_missing(order@, n as nat);
            let keep = |w: usize| !order@.contains(w);
            assert forall|w: usize| w < adj.len() && #[trigger] keep(w) implies exists|u: usize|
                u < adj.len() && keep(u) && #[trigger] adj[u as int]@.contains(w) by {
                assert(degree@[w as int] > 0);
                lemma_in_count_witness(adj, w, done, n as int);
                let (u0, k0) = choose|u0: int, k0: int|
                    0 <= u0 < n && !done[u0] && 0 <= k0 < adj[u0]@.len() && #[trigger] adj[u0]@[k0] == w;
                assert(adj[u0]@.contains(w));
                assert(keep(u0 as usize));
            }
            lemma_cycle_from_predecessors(adj, keep, missing);
        }
        None
    }
}

/// Some vertex below `n` is missing from a sequence of distinct vertices shorter than `n`.
proof fn lemma_missing(s: Seq<usize>, n: nat) -> (v: usize)
    requires
        s.len() < n,
        n <= usize::MAX,
        forall|j: int| 0 <= j < s.len() ==> #[trigger] s[j] < n,
        forall|a: int, b: int| 0 <= a < b < s.len() ==> s[a] != s[b],
    ensures
        v < n,
        !s.contains(v),
{
    if forall|v: usize| v < n ==> #[trigger] s.contains(v) {
        let r = Set::new(|x: usize| x < n);
        assert(r.subset_of(s.to_set()));
        crate::symmetric::lemma_range_set_len(n);
        crate::symmetric::lemma_seq_distinct_set_len(s);
        vstd::set_lib::lemma_len_subset(r, s.to_set());
        assert(false);
        0
    } else {
        choose|v: usize| v < n && !s.contains(v)
    }
}

proof fn lemma_total_edges_mono(adj: Seq<Vec<usize>>, a: int, b: int)
    requires
        0 <= a <= b,
    ensures
        total_edges(adj, a) <= total_edges(adj, b),
    decreases b - a,
{
    if a < b {
        lemma_total_edges_mono(adj, a, b - 1);
    }
}

} // verus!
