//! A flow network with a maximum flow algorithm (Dinic).
use vstd::prelude::*;

verus! {

/// An edge of a flow network, as `(from, to, capacity, flow)`.
pub type FlowEdge = (usize, usize, u64, u64);

/// The tail of the internal arc `e`: the forward arc `2i` of edge `i` goes from its tail to its
/// head, and the reverse arc `2i + 1` back.
pub open spec fn arc_tail(edges: Seq<FlowEdge>, e: int) -> int {
    if e % 2 == 0 {
        edges[e / 2].0 as int
    } else {
        edges[e / 2].1 as int
    }
}

/// The head of the internal arc `e`.
pub open spec fn arc_head(edges: Seq<FlowEdge>, e: int) -> int {
    if e % 2 == 0 {
        edges[e / 2].1 as int
    } else {
        edges[e / 2].0 as int
    }
}

/// The residual capacity of the internal arc `e`: `c(i) - f(i)` forward and `f(i)` backward.
pub open spec fn arc_residual(edges: Seq<FlowEdge>, e: int) -> int {
    if e % 2 == 0 {
        edges[e / 2].2 - edges[e / 2].3
    } else {
        edges[e / 2].3 as int
    }
}

/// `p` is a walk of arcs of positive residual capacity from `s` to `t`.
pub open spec fn is_residual_walk(edges: Seq<FlowEdge>, p: Seq<int>, s: int, t: int) -> bool {
    &&& forall|k: int|
        0 <= k < p.len() ==> 0 <= #[trigger] p[k] < 2 * edges.len() && arc_residual(edges, p[k])
            > 0
    &&& forall|k: int| 0 <= k < p.len() - 1 ==> arc_head(edges, #[trigger] p[k]) == arc_tail(edges, p[k + 1])
    &&& p.len() == 0 ==> s == t
    &&& p.len() > 0 ==> arc_tail(edges, p[0]) == s && arc_head(edges, p.last()) == t
}

/// `t` is reachable from `s` in the residual graph.
pub open spec fn residual_reachable(edges: Seq<FlowEdge>, s: int, t: int) -> bool {
    exists|p: Seq<int>| is_residual_walk(edges, p, s, t)
}

/// The net outflow of `v`: the total flow on the edges out of `v` less that on the edges into `v`.
pub open spec fn net_outflow(edges: Seq<FlowEdge>, v: int) -> int
    decreases edges.len(),
{
    if edges.len() == 0 {
        0
    } else {
        let e = edges.last();
        net_outflow(edges.drop_last(), v) + (if e.0 == v {
            e.3 as int
        } else {
            0
        }) - (if e.1 == v {
            e.3 as int
        } else {
            0
        })
    }
}

/// Every arc `e` is listed out of its tail.
#[verifier::opaque]
pub open spec fn arcs_listed(to: Seq<usize>, adj: Seq<Vec<usize>>) -> bool {
    forall|e: int| 0 <= e < to.len() ==> adj[#[trigger] to[rev(e)] as int]@.contains(e as usize)
}

/// The other arc of the pair of `e`.
pub open spec fn rev(e: int) -> int {
    if e % 2 == 0 {
        e + 1
    } else {
        e - 1
    }
}

proof fn lemma_xor_one(e: usize)
    requires
        e < usize::MAX,
    ensures
        e ^ 1 == rev(e as int),
{
    assert((e % 2 == 0 ==> (e ^ 1) == e + 1) && (e % 2 == 1 ==> (e ^ 1) == e - 1))
        by (bit_vector);
}

/// A flow network on `[0, n)` whose edge `i` carries a capacity `c(i)` and a flow `f(i)` in
/// `[0, c(i)]`, initially `0`, with the residual graph of the forward arcs `u -> v` of residual
/// capacity `c(i) - f(i)` and the reverse arcs `v -> u` of residual capacity `f(i)`.
pub struct MaxFlow {
    to: Vec<usize>,
    cap: Vec<u64>,
    adjacency: Vec<Vec<usize>>,
    capacity: Ghost<Seq<u64>>,
}

impl MaxFlow {
    /// The arrays hold the residual graph: arcs `2i` and `2i + 1` of edge `i`, their heads in
    /// `to`, their residual capacities in `cap`, and each adjacency list the arcs out of its vertex.
    pub closed spec fn wf(self) -> bool {
        let n = self.adjacency.len();
        let a = self.to.len();
        &&& self.cap.len() == a
        &&& a == 2 * self.capacity@.len()
        &&& a < usize::MAX
        &&& forall|e: int| 0 <= e < a ==> #[trigger] self.to@[e] < n
        &&& forall|i: int|
            0 <= i < self.capacity@.len() ==> self.cap@[2 * i] + self.cap@[2 * i + 1]
                == #[trigger] self.capacity@[i]
        &&& forall|v: int, j: int|
            0 <= v < n && 0 <= j < self.adjacency@[v]@.len() ==> 0 <= #[trigger] self.adjacency@[v]@[j]
                < a && self.to@[rev(self.adjacency@[v]@[j] as int)] == v
        &&& arcs_listed(self.to@, self.adjacency@)
    }

    /// The number `n` of vertices.
    pub closed spec fn spec_n(self) -> nat {
        self.adjacency.len() as nat
    }

    /// The edges `(from, to, c(i), f(i))`.
    pub closed spec fn spec_edges(self) -> Seq<FlowEdge> {
        Seq::new(
            self.capacity@.len(),
            |i: int| (self.to@[2 * i + 1], self.to@[2 * i], self.capacity@[i], self.cap@[2 * i + 1]),
        )
    }

    /// The edges have their ends in `[0, n)` and their flows at most their capacities.
    pub proof fn lemma_edges(self)
        requires
            self.wf(),
        ensures
            forall|i: int|
                0 <= i < self.spec_edges().len() ==> (#[trigger] self.spec_edges()[i]).0 < self.spec_n()
                    && self.spec_edges()[i].1 < self.spec_n() && self.spec_edges()[i].3
                    <= self.spec_edges()[i].2,
            2 * self.spec_edges().len() < usize::MAX,
    {
        assert forall|i: int| 0 <= i < self.spec_edges().len() implies (
        #[trigger] self.spec_edges()[i]).0 < self.spec_n() && self.spec_edges()[i].1 < self.spec_n()
            && self.spec_edges()[i].3 <= self.spec_edges()[i].2 by {
            assert(self.to@[2 * i + 1] < self.spec_n());
            assert(self.to@[2 * i] < self.spec_n());
            assert(self.cap@[2 * i] + self.cap@[2 * i + 1] == self.capacity@[i]);
        }
    }

    /// The arrays hold the residual graph of the model.
    proof fn lemma_arcs(self)
        requires
            self.wf(),
        ensures
            forall|e: int|
                0 <= e < self.to.len() ==> #[trigger] arc_tail(self.spec_edges(), e) == self.to@[rev(e)]
                    && arc_head(self.spec_edges(), e) == self.to@[e] && arc_residual(
                    self.spec_edges(),
                    e,
                ) == self.cap@[e],
    {
        assert forall|e: int| 0 <= e < self.to.len() implies #[trigger] arc_tail(
            self.spec_edges(),
            e,
        ) == self.to@[rev(e)] && arc_head(self.spec_edges(), e) == self.to@[e] && arc_residual(
            self.spec_edges(),
            e,
        ) == self.cap@[e] by {
            let i = e / 2;
            assert(self.cap@[2 * i] + self.cap@[2 * i + 1] == self.capacity@[i]);
        }
    }

    /// The network on `[0, n)` with no edges.
    pub fn new(n: usize) -> (g: Self)
        ensures
            g.wf(),
            g.spec_n() == n,
            g.spec_edges() == Seq::<FlowEdge>::empty(),
    {
        let mut adjacency: Vec<Vec<usize>> = Vec::with_capacity(n);
        let mut v: usize = 0;
        while v < n
            invariant
                v <= n,
                adjacency@.len() == v,
                forall|u: int| 0 <= u < v ==> (#[trigger] adjacency@[u])@.len() == 0,
            decreases n - v,
        {
            adjacency.push(Vec::new());
            v = v + 1;
        }
        let g = MaxFlow { to: Vec::new(), cap: Vec::new(), adjacency, capacity: Ghost(Seq::empty()) };
        proof {
            reveal(arcs_listed);
            assert(g.spec_edges() =~= Seq::<FlowEdge>::empty());
        }
        g
    }

    /// The number `n` of vertices.
    pub fn num_vertices(&self) -> (n: usize)
        ensures
            n == self.spec_n(),
    {
        self.adjacency.len()
    }

    /// The number `m` of edges.
    pub fn num_edges(&self) -> (m: usize)
        requires
            self.wf(),
        ensures
            m == self.spec_edges().len(),
    {
        let a = self.to.len();
        proof {
            assert(a >> 1 == a / 2) by (bit_vector);
        }
        a >> 1
    }

    /// Adds an edge from `from` to `to` with capacity `cap` and flow `0`, and returns its index.
    pub fn add_edge(&mut self, from: usize, to: usize, cap: u64) -> (i: usize)
        requires
            old(self).wf(),
            from < old(self).spec_n(),
            to < old(self).spec_n(),
            2 * old(self).spec_edges().len() + 3 < usize::MAX,
        ensures
            final(self).wf(),
            i == old(self).spec_edges().len(),
            final(self).spec_n() == old(self).spec_n(),
            final(self).spec_edges() == old(self).spec_edges().push((from, to, cap, 0)),
    {
        let e = self.to.len();
        proof {
            lemma_xor_one(e);
        }
        let ghost old_self = *self;
        proof {
            reveal(arcs_listed);
        }
        self.adjacency[from].push(e);
        let ghost adj1 = self.adjacency@;
        proof {
            assert(adj1[from as int]@[adj1[from as int]@.len() - 1] == e);
        }
        self.adjacency[to].push(e ^ 1);
        proof {
            let j = adj1[from as int]@.len() - 1;
            assert(self.adjacency@[from as int]@[j] == e);
        }
        self.to.push(to);
        self.to.push(from);
        self.cap.push(cap);
        self.cap.push(0);
        self.capacity = Ghost(self.capacity@.push(cap));
        proof {
            let n = self.adjacency.len();
            let a = self.to.len();
            assert(self.spec_edges() =~= old_self.spec_edges().push((from, to, cap, 0)));
            assert forall|v: int, j: int|
                0 <= v < n && 0 <= j < self.adjacency@[v]@.len() implies 0
                <= #[trigger] self.adjacency@[v]@[j] < a && self.to@[rev(
                self.adjacency@[v]@[j] as int,
            )] == v by {
                if j < old_self.adjacency@[v]@.len() {
                    assert(self.adjacency@[v]@[j] == old_self.adjacency@[v]@[j]);
                }
            }
            reveal(arcs_listed);
            assert forall|e2: int| 0 <= e2 < a implies self.adjacency@[#[trigger] self.to@[rev(
                e2,
            )] as int]@.contains(e2 as usize) by {
                if e2 < e {
                    let u = old_self.to@[rev(e2)] as int;
                    assert(old_self.adjacency@[u]@.contains(e2 as usize));
                    let j = choose|j: int|
                        0 <= j < old_self.adjacency@[u]@.len() && old_self.adjacency@[u]@[j]
                            == e2 as usize;
                    assert(self.adjacency@[u]@[j] == e2 as usize);
                } else if e2 == e {
                    let j = adj1[from as int]@.len() - 1;
                    assert(self.adjacency@[from as int]@[j] == e);
                } else {
                    assert(self.adjacency@[to as int]@.last() == e2 as usize);
                }
            }
            assert forall|i: int| 0 <= i < self.capacity@.len() implies self.cap@[2 * i]
                + self.cap@[2 * i + 1] == #[trigger] self.capacity@[i] by {
                if i < old_self.capacity@.len() {
                    assert(old_self.cap@[2 * i] + old_self.cap@[2 * i + 1] == old_self.capacity@[i]);
                }
            }
        }
        e / 2
    }

    /// The network on `[0, n)` whose edge `i` is `edges[i]` with flow `0`, as by `new(n)` followed
    /// by `add_edge` for each edge in order.
    pub fn from_edges(n: usize, edges: &[(usize, usize, u64)]) -> (g: Self)
        requires
            forall|i: int| 0 <= i < edges@.len() ==> (#[trigger] edges@[i]).0 < n && edges@[i].1 < n,
            2 * edges@.len() + 3 < usize::MAX,
        ensures
            g.wf(),
            g.spec_n() == n,
            g.spec_edges() == edges@.map_values(|x: (usize, usize, u64)| (x.0, x.1, x.2, 0u64)),
    {
        let mut g = Self::new(n);
        let mut i: usize = 0;
        while i < edges.len()
            invariant
                g.wf(),
                g.spec_n() == n,
                i <= edges@.len(),
                forall|i: int| 0 <= i < edges@.len() ==> (#[trigger] edges@[i]).0 < n && edges@[i].1 < n,
                2 * edges@.len() + 3 < usize::MAX,
                g.spec_edges() == edges@.take(i as int).map_values(
                    |x: (usize, usize, u64)| (x.0, x.1, x.2, 0u64),
                ),
            decreases edges@.len() - i,
        {
            let (from, to, cap) = edges[i];
            g.add_edge(from, to, cap);
            i = i + 1;
            proof {
                assert(g.spec_edges() =~= edges@.take(i as int).map_values(
                    |x: (usize, usize, u64)| (x.0, x.1, x.2, 0u64),
                ));
            }
        }
        proof {
            assert(edges@.take(i as int) =~= edges@);
        }
        g
    }

    /// The edge `i`, as `(from, to, c(i), f(i))`.
    pub fn get_edge(&self, i: usize) -> (r: FlowEdge)
        requires
            self.wf(),
            i < self.spec_edges().len(),
        ensures
            r == self.spec_edges()[i as int],
    {
        proof {
            vstd::arithmetic::power2::lemma2_to64();
            vstd::bits::lemma_usize_shl_is_mul(i, 1);
        }
        let e = i << 1;
        proof {
            vstd::arithmetic::power2::lemma2_to64();
            vstd::bits::lemma_usize_shl_is_mul(i, 1);
            lemma_xor_one(e);
            assert(self.cap@[2 * i] + self.cap@[2 * i + 1] == self.capacity@[i as int]);
        }
        (self.to[e ^ 1], self.to[e], self.cap[e] + self.cap[e ^ 1], self.cap[e ^ 1])
    }
}

/// The number of `false` entries of `b`.
pub open spec fn count_false(b: Seq<bool>) -> nat
    decreases b.len(),
{
    if b.len() == 0 {
        0
    } else {
        count_false(b.drop_last()) + (if b.last() {
            0nat
        } else {
            1nat
        })
    }
}

proof fn lemma_count_false_set(b: Seq<bool>, i: int)
    requires
        0 <= i < b.len(),
        !b[i],
    ensures
        count_false(b.update(i, true)) + 1 == count_false(b),
    decreases b.len(),
{
    if i < b.len() - 1 {
        assert(b.update(i, true).drop_last() =~= b.drop_last().update(i, true));
        lemma_count_false_set(b.drop_last(), i);
    } else {
        assert(b.update(i, true).drop_last() =~= b.drop_last());
    }
}

/// A walk extended by an arc out of its end is a walk.
proof fn lemma_walk_push(edges: Seq<FlowEdge>, p: Seq<int>, s: int, t: int, e: int)
    requires
        is_residual_walk(edges, p, s, t),
        0 <= e < 2 * edges.len(),
        arc_residual(edges, e) > 0,
        arc_tail(edges, e) == t,
    ensures
        is_residual_walk(edges, p.push(e), s, arc_head(edges, e)),
{
    let q = p.push(e);
    assert forall|k: int| 0 <= k < q.len() - 1 implies arc_head(edges, #[trigger] q[k]) == arc_tail(
        edges,
        q[k + 1],
    ) by {
        if k < p.len() - 1 {
            assert(q[k + 1] == p[k + 1]);
        }
    }
}

/// A set of vertices that holds `s` and is closed under the arcs of positive residual capacity
/// holds every vertex reachable from `s`.
proof fn lemma_closed_reach(edges: Seq<FlowEdge>, r: Seq<bool>, p: Seq<int>, s: int, t: int)
    requires
        is_residual_walk(edges, p, s, t),
        0 <= s < r.len(),
        r[s],
        forall|e: int|
            0 <= e < 2 * edges.len() && arc_residual(edges, e) > 0 && 0 <= arc_tail(edges, e) < r.len()
                && r[arc_tail(edges, e)] ==> 0 <= #[trigger] arc_head(edges, e) < r.len() && r[arc_head(edges, e)],
    ensures
        0 <= t < r.len() && r[t],
    decreases p.len(),
{
    if p.len() > 0 {
        let q = p.drop_last();
        let e = p.last();
        if q.len() > 0 {
            assert(is_residual_walk(edges, q, s, arc_tail(edges, e))) by {
                assert(arc_head(edges, p[q.len() - 1]) == arc_tail(edges, p[q.len() as int]));
                assert forall|k: int| 0 <= k < q.len() - 1 implies arc_head(edges, #[trigger] q[k])
                    == arc_tail(edges, q[k + 1]) by {
                    assert(arc_head(edges, p[k]) == arc_tail(edges, p[k + 1]));
                }
            }
        }
        lemma_closed_reach(edges, r, q, s, arc_tail(edges, e));
        assert(p[p.len() - 1] == e);
    }
}

/// A residual walk extended by an arc of positive residual capacity out of its end.
proof fn lemma_residual_extend(edges: Seq<FlowEdge>, s: int, u: int, e: int)
    requires
        residual_reachable(edges, s, u),
        0 <= e < 2 * edges.len(),
        arc_tail(edges, e) == u,
        arc_residual(edges, e) > 0,
    ensures
        residual_reachable(edges, s, arc_head(edges, e)),
{
    let p = choose|p: Seq<int>| is_residual_walk(edges, p, s, u);
    let q = p.push(e);
    assert forall|k: int| 0 <= k < q.len() - 1 implies arc_head(edges, #[trigger] q[k]) == arc_tail(edges, q[k + 1]) by {
        if k < p.len() - 1 {
            assert(arc_head(edges, p[k]) == arc_tail(edges, p[k + 1]));
        }
    }
    assert forall|k: int| 0 <= k < q.len() implies 0 <= #[trigger] q[k] < 2 * edges.len() && arc_residual(edges, q[k]) > 0 by {
        if k < p.len() {
            assert(q[k] == p[k]);
        }
    }
    assert(is_residual_walk(edges, q, s, arc_head(edges, e)));
}

/// The edges across the part reachable from `s` in the residual graph: an edge from inside to
/// outside is saturated, and an edge from outside to inside carries no flow.
pub proof fn lemma_reachable_cut(edges: Seq<FlowEdge>, s: int, i: int)
    requires
        0 <= i < edges.len(),
        edges[i].3 <= edges[i].2,
    ensures
        residual_reachable(edges, s, edges[i].0 as int) && !residual_reachable(edges, s, edges[i].1 as int)
            ==> edges[i].3 == edges[i].2,
        !residual_reachable(edges, s, edges[i].0 as int) && residual_reachable(edges, s, edges[i].1 as int)
            ==> edges[i].3 == 0,
{
    assert((2 * i) / 2 == i && (2 * i) % 2 == 0);
    assert((2 * i + 1) / 2 == i && (2 * i + 1) % 2 == 1);
    if residual_reachable(edges, s, edges[i].0 as int) && edges[i].3 < edges[i].2 {
        lemma_residual_extend(edges, s, edges[i].0 as int, 2 * i);
    }
    if residual_reachable(edges, s, edges[i].1 as int) && edges[i].3 > 0 {
        lemma_residual_extend(edges, s, edges[i].1 as int, 2 * i + 1);
    }
}

/// The total capacity of the edges from a vertex with `side` to one without.
pub open spec fn cut_capacity(edges: Seq<FlowEdge>, side: spec_fn(int) -> bool) -> int
    decreases edges.len(),
{
    if edges.len() == 0 {
        0
    } else {
        let e = edges.last();
        cut_capacity(edges.drop_last(), side) + if side(e.0 as int) && !side(e.1 as int) {
            e.2 as int
        } else {
            0
        }
    }
}

/// The flow across the cut: on the edges leaving `side` less on those entering it.
spec fn cut_flow(edges: Seq<FlowEdge>, side: spec_fn(int) -> bool) -> int
    decreases edges.len(),
{
    if edges.len() == 0 {
        0
    } else {
        let e = edges.last();
        cut_flow(edges.drop_last(), side) + (if side(e.0 as int) && !side(e.1 as int) {
            e.3 as int
        } else {
            0
        }) - (if !side(e.0 as int) && side(e.1 as int) {
            e.3 as int
        } else {
            0
        })
    }
}

/// The total net outflow of the vertices `v < m` with `side`.
spec fn side_outflow(edges: Seq<FlowEdge>, side: spec_fn(int) -> bool, m: int) -> int
    decreases m,
{
    if m <= 0 {
        0
    } else {
        side_outflow(edges, side, m - 1) + if side(m - 1) {
            net_outflow(edges, m - 1)
        } else {
            0
        }
    }
}

/// Removing the last edge from the net outflows of the vertices `v < m` with `side`.
proof fn lemma_side_outflow_last(edges: Seq<FlowEdge>, side: spec_fn(int) -> bool, m: int)
    requires
        edges.len() > 0,
    ensures
        side_outflow(edges, side, m) == side_outflow(edges.drop_last(), side, m) + (if side(
            edges.last().0 as int,
        ) && edges.last().0 < m {
            edges.last().3 as int
        } else {
            0
        }) - (if side(edges.last().1 as int) && edges.last().1 < m {
            edges.last().3 as int
        } else {
            0
        }),
    decreases m,
{
    if m > 0 {
        lemma_side_outflow_last(edges, side, m - 1);
    }
}

/// The net outflow of a side is the flow across the cut.
proof fn lemma_side_outflow_cut(edges: Seq<FlowEdge>, side: spec_fn(int) -> bool, n: int)
    requires
        forall|i: int| 0 <= i < edges.len() ==> (#[trigger] edges[i]).0 < n && edges[i].1 < n,
    ensures
        side_outflow(edges, side, n) == cut_flow(edges, side),
    decreases edges.len(),
{
    if edges.len() > 0 {
        let d = edges.drop_last();
        assert forall|i: int| 0 <= i < d.len() implies (#[trigger] d[i]).0 < n && d[i].1 < n by {
            assert(d[i] == edges[i]);
        }
        lemma_side_outflow_cut(d, side, n);
        lemma_side_outflow_last(edges, side, n);
        assert(edges.last() == edges[edges.len() - 1]);
    } else {
        lemma_side_outflow_empty(edges, side, n);
    }
}

proof fn lemma_side_outflow_empty(edges: Seq<FlowEdge>, side: spec_fn(int) -> bool, m: int)
    requires
        edges.len() == 0,
    ensures
        side_outflow(edges, side, m) == 0,
    decreases m,
{
    if m > 0 {
        lemma_side_outflow_empty(edges, side, m - 1);
    }
}

/// On a cut whose leaving edges are saturated and whose entering edges are empty, the flow
/// across it is its capacity.
proof fn lemma_cut_flow_saturated(edges: Seq<FlowEdge>, side: spec_fn(int) -> bool)
    requires
        forall|i: int|
            0 <= i < edges.len() && side((#[trigger] edges[i]).0 as int) && !side(edges[i].1 as int)
                ==> edges[i].3 == edges[i].2,
        forall|i: int|
            0 <= i < edges.len() && !side((#[trigger] edges[i]).0 as int) && side(edges[i].1 as int)
                ==> edges[i].3 == 0,
    ensures
        cut_flow(edges, side) == cut_capacity(edges, side),
    decreases edges.len(),
{
    if edges.len() > 0 {
        let d = edges.drop_last();
        assert forall|i: int| 0 <= i < d.len() implies #[trigger] d[i] == edges[i] by {}
        lemma_cut_flow_saturated(d, side);
        assert(edges.last() == edges[edges.len() - 1]);
    }
}

/// The net outflows of a side holding `s` but not `t`, for a flow from `s` to `t` of value `r`.
proof fn lemma_side_outflow_value(edges: Seq<FlowEdge>, side: spec_fn(int) -> bool, s: int, t: int, r: int, m: int)
    requires
        side(s),
        !side(t),
        s != t,
        forall|v: int| #[trigger] net_outflow(edges, v) == (if v == s {
            r
        } else if v == t {
            -r
        } else {
            0
        }),
    ensures
        side_outflow(edges, side, m) == if 0 <= s < m {
            r
        } else {
            0
        },
    decreases m,
{
    if m > 0 {
        lemma_side_outflow_value(edges, side, s, t, r, m - 1);
        assert(net_outflow(edges, m - 1) == (if m - 1 == s {
            r
        } else if m - 1 == t {
            -r
        } else {
            0
        }));
    }
}

/// Max-flow min-cut: for a flow of value `r` from `s` to `t` after which `t` is unreachable from
/// `s` in the residual graph, the capacity of the cut between the vertices reachable from `s` and
/// the others is `r`. Every flow is at most the capacity of every cut, so the flow is maximum.
pub proof fn lemma_max_flow_min_cut(edges: Seq<FlowEdge>, n: int, s: int, t: int, r: int)
    requires
        forall|i: int|
            0 <= i < edges.len() ==> (#[trigger] edges[i]).0 < n && edges[i].1 < n && edges[i].3 <= edges[i].2,
        0 <= s < n,
        s != t,
        forall|v: int| #[trigger] net_outflow(edges, v) == (if v == s {
            r
        } else if v == t {
            -r
        } else {
            0
        }),
        !residual_reachable(edges, s, t),
    ensures
        cut_capacity(edges, |v: int| residual_reachable(edges, s, v)) == r,
{
    let side = |v: int| residual_reachable(edges, s, v);
    assert(is_residual_walk(edges, Seq::<int>::empty(), s, s));
    assert(side(s));
    assert forall|i: int| 0 <= i < edges.len() && side((#[trigger] edges[i]).0 as int) && !side(edges[i].1 as int)
        implies edges[i].3 == edges[i].2 by {
        lemma_reachable_cut(edges, s, i);
    }
    assert forall|i: int| 0 <= i < edges.len() && !side((#[trigger] edges[i]).0 as int) && side(edges[i].1 as int)
        implies edges[i].3 == 0 by {
        lemma_reachable_cut(edges, s, i);
    }
    lemma_cut_flow_saturated(edges, side);
    lemma_side_outflow_cut(edges, side, n);
    lemma_side_outflow_value(edges, side, s, t, r, n);
}

/// With flows within the capacities, the flow across a cut is at most its capacity.
proof fn lemma_cut_flow_bound(edges: Seq<FlowEdge>, side: spec_fn(int) -> bool)
    requires
        forall|i: int| 0 <= i < edges.len() ==> (#[trigger] edges[i]).3 <= edges[i].2,
    ensures
        cut_flow(edges, side) <= cut_capacity(edges, side),
    decreases edges.len(),
{
    if edges.len() > 0 {
        let d = edges.drop_last();
        assert forall|i: int| 0 <= i < d.len() implies (#[trigger] d[i]).3 <= d[i].2 by {
            assert(d[i] == edges[i]);
        }
        lemma_cut_flow_bound(d, side);
        assert(edges.last() == edges[edges.len() - 1]);
    }
}

/// The value of a flow from `s` to `t` is at most the capacity of every cut with `s` on one side
/// and `t` on the other.
pub proof fn lemma_flow_at_most_cut(edges: Seq<FlowEdge>, n: int, side: spec_fn(int) -> bool, s: int, t: int, r: int)
    requires
        forall|i: int|
            0 <= i < edges.len() ==> (#[trigger] edges[i]).0 < n && edges[i].1 < n && edges[i].3 <= edges[i].2,
        0 <= s < n,
        s != t,
        side(s),
        !side(t),
        forall|v: int| #[trigger] net_outflow(edges, v) == (if v == s {
            r
        } else if v == t {
            -r
        } else {
            0
        }),
    ensures
        r <= cut_capacity(edges, side),
{
    lemma_side_outflow_cut(edges, side, n);
    lemma_side_outflow_value(edges, side, s, t, r, n);
    lemma_cut_flow_bound(edges, side);
}

/// A cut's capacity depends only on the ends and capacities of the edges, not on their flows.
proof fn lemma_cut_capacity_same(e1: Seq<FlowEdge>, e2: Seq<FlowEdge>, side: spec_fn(int) -> bool)
    requires
        e1.len() == e2.len(),
        forall|i: int|
            0 <= i < e1.len() ==> (#[trigger] e1[i]).0 == e2[i].0 && e1[i].1 == e2[i].1 && e1[i].2 == e2[i].2,
    ensures
        cut_capacity(e1, side) == cut_capacity(e2, side),
    decreases e1.len(),
{
    if e1.len() > 0 {
        let d1 = e1.drop_last();
        let d2 = e2.drop_last();
        assert forall|i: int| 0 <= i < d1.len() implies (#[trigger] d1[i]).0 == d2[i].0 && d1[i].1 == d2[i].1
            && d1[i].2 == d2[i].2 by {
            assert(d1[i] == e1[i]);
            assert(d2[i] == e2[i]);
        }
        lemma_cut_capacity_same(d1, d2, side);
        assert(e1.last() == e1[e1.len() - 1]);
        assert(e2.last() == e2[e2.len() - 1]);
    }
}

/// A flow after which `t` is unreachable from `s` in the residual graph is a maximum flow: every
/// flow from `s` to `t` on the same edges and capacities has a value at most its value.
pub proof fn lemma_max_flow(
    edges: Seq<FlowEdge>,
    other: Seq<FlowEdge>,
    n: int,
    s: int,
    t: int,
    r: int,
    r_other: int,
)
    requires
        forall|i: int|
            0 <= i < edges.len() ==> (#[trigger] edges[i]).0 < n && edges[i].1 < n && edges[i].3 <= edges[i].2,
        other.len() == edges.len(),
        forall|i: int|
            0 <= i < edges.len() ==> (#[trigger] other[i]).0 == edges[i].0 && other[i].1 == edges[i].1
                && other[i].2 == edges[i].2 && other[i].3 <= other[i].2,
        0 <= s < n,
        s != t,
        forall|v: int| #[trigger] net_outflow(edges, v) == (if v == s {
            r
        } else if v == t {
            -r
        } else {
            0
        }),
        forall|v: int| #[trigger] net_outflow(other, v) == (if v == s {
            r_other
        } else if v == t {
            -r_other
        } else {
            0
        }),
        !residual_reachable(edges, s, t),
    ensures
        r_other <= r,
{
    let side = |v: int| residual_reachable(edges, s, v);
    lemma_max_flow_min_cut(edges, n, s, t, r);
    assert(is_residual_walk(edges, Seq::<int>::empty(), s, s));
    assert forall|i: int| 0 <= i < other.len() implies (#[trigger] other[i]).0 < n && other[i].1 < n
        && other[i].3 <= other[i].2 by {
        assert(other[i].0 == edges[i].0);
    }
    lemma_flow_at_most_cut(other, n, side, s, t, r_other);
    assert forall|i: int| 0 <= i < other.len() implies (#[trigger] other[i]).0 == edges[i].0 && other[i].1
        == edges[i].1 && other[i].2 == edges[i].2 by {}
    lemma_cut_capacity_same(other, edges, side);
}

impl MaxFlow {
    /// Whether each vertex is reachable from `s` in the residual graph.
    pub fn reachable(&self, s: usize) -> (r: Vec<bool>)
        requires
            self.wf(),
            s < self.spec_n(),
        ensures
            r@.len() == self.spec_n(),
            forall|v: int|
                0 <= v < self.spec_n() ==> (#[trigger] r@[v] <==> residual_reachable(
                    self.spec_edges(),
                    s as int,
                    v,
                )),
    {
        proof {
            self.lemma_arcs();
        }
        let ghost edges = self.spec_edges();
        let n = self.adjacency.len();
        let mut reached: Vec<bool> = vec![false; n];
        proof {
            lemma_count_false_set(reached@, s as int);
            assert(is_residual_walk(edges, Seq::<int>::empty(), s as int, s as int));
        }
        reached.set(s, true);
        let mut stack: Vec<usize> = vec![s];
        while stack.len() > 0
            invariant
                self.wf(),
                edges == self.spec_edges(),
                n == self.adjacency@.len(),
                reached@.len() == n,
                s < n,
                reached@[s as int],
                forall|j: int| 0 <= j < stack@.len() ==> #[trigger] stack@[j] < n && reached@[stack@[j] as int],
                forall|a: int, b: int| 0 <= a < b < stack@.len() ==> stack@[a] != stack@[b],
                forall|v: int| 0 <= v < n && #[trigger] reached@[v] ==> residual_reachable(edges, s as int, v),
                forall|v: int, j: int|
                    0 <= v < n && reached@[v] && !stack@.contains(v as usize) && 0 <= j
                        < self.adjacency@[v]@.len() && self.cap@[#[trigger] self.adjacency@[v]@[j] as int] > 0
                        ==> reached@[self.to@[self.adjacency@[v]@[j] as int] as int],
            decreases count_false(reached@) + stack@.len(),
        {
            let ghost old_stack = stack@;
            let v = stack.pop().unwrap();
            let ghost m0 = count_false(reached@) + stack@.len();
            proof {
                assert(old_stack =~= stack@.push(v));
                assert(!stack@.contains(v)) by {
                    if stack@.contains(v) {
                        let i = choose|i: int| 0 <= i < stack@.len() && stack@[i] == v;
                        assert(old_stack[i] == old_stack[old_stack.len() - 1]);
                    }
                }
                assert forall|u: int| 0 <= u < n && u != v && !stack@.contains(u as usize) implies !old_stack.contains(
                    #[trigger] (u as usize),
                ) by {
                    if old_stack.contains(u as usize) {
                        let i = choose|i: int| 0 <= i < old_stack.len() && old_stack[i] == u as usize;
                        if i < stack@.len() {
                            assert(stack@[i] == u as usize);
                        }
                    }
                }
            }
            let mut j: usize = 0;
            while j < self.adjacency[v].len()
                invariant
                    self.wf(),
                    edges == self.spec_edges(),
                    n == self.adjacency@.len(),
                    reached@.len() == n,
                    v < n,
                    s < n,
                    reached@[s as int],
                    reached@[v as int],
                    !stack@.contains(v),
                    j <= self.adjacency@[v as int]@.len(),
                    count_false(reached@) + stack@.len() == m0,
                    forall|i: int| 0 <= i < stack@.len() ==> #[trigger] stack@[i] < n && reached@[stack@[i] as int],
                    forall|a: int, b: int| 0 <= a < b < stack@.len() ==> stack@[a] != stack@[b],
                    forall|u: int| 0 <= u < n && #[trigger] reached@[u] ==> residual_reachable(edges, s as int, u),
                    forall|u: int, i: int|
                        0 <= u < n && u != v && reached@[u] && !stack@.contains(u as usize) && 0 <= i
                            < self.adjacency@[u]@.len() && self.cap@[#[trigger] self.adjacency@[u]@[i] as int] > 0
                            ==> reached@[self.to@[self.adjacency@[u]@[i] as int] as int],
                    forall|i: int|
                        0 <= i < j && self.cap@[#[trigger] self.adjacency@[v as int]@[i] as int] > 0
                            ==> reached@[self.to@[self.adjacency@[v as int]@[i] as int] as int],
                decreases self.adjacency@[v as int]@.len() - j,
            {
                let e = self.adjacency[v][j];
                let w = self.to[e];
                if self.cap[e] > 0 && !reached[w] {
                    proof {
                        let p = choose|p: Seq<int>| is_residual_walk(edges, p, s as int, v as int);
                        lemma_walk_push(edges, p, s as int, v as int, e as int);
                        lemma_count_false_set(reached@, w as int);
                    }
                    let ghost old_stack = stack@;
                    reached.set(w, true);
                    stack.push(w);
                    proof {
                        assert forall|a: int, b: int| 0 <= a < b < stack@.len() implies stack@[a]
                            != stack@[b] by {
                            if b == old_stack.len() {
                                assert(reached@[old_stack[a] as int]);
                            }
                        }
                        assert(!stack@.contains(v)) by {
                            if stack@.contains(v) {
                                let i = choose|i: int| 0 <= i < stack@.len() && stack@[i] == v;
                                if i < old_stack.len() {
                                    assert(old_stack.contains(v));
                                }
                            }
                        }
                        assert forall|u: int, i: int|
                            0 <= u < n && u != v && reached@[u] && !stack@.contains(u as usize) && 0
                                <= i < self.adjacency@[u]@.len() && self.cap@[#[trigger] self.adjacency@[u]@[i] as int]
                                > 0 implies reached@[self.to@[self.adjacency@[u]@[i] as int] as int] by {
                            if u == w {
                                assert(stack@[stack@.len() - 1] == w);
                            } else {
                                assert(!old_stack.contains(u as usize)) by {
                                    if old_stack.contains(u as usize) {
                                        let k = choose|k: int| 0 <= k < old_stack.len() && old_stack[k] == u as usize;
                                        assert(stack@[k] == u as usize);
                                    }
                                }
                            }
                        }
                    }
                }
                j = j + 1;
            }
            proof {
                assert forall|u: int, i: int|
                    0 <= u < n && reached@[u] && !stack@.contains(u as usize) && 0 <= i
                        < self.adjacency@[u]@.len() && self.cap@[#[trigger] self.adjacency@[u]@[i] as int] > 0
                        implies reached@[self.to@[self.adjacency@[u]@[i] as int] as int] by {}
            }
        }
        proof {
            assert forall|v: int| 0 <= v < n implies (#[trigger] reached@[v] <==> residual_reachable(
                edges,
                s as int,
                v,
            )) by {
                if residual_reachable(edges, s as int, v) {
                    reveal(arcs_listed);
                    let p = choose|p: Seq<int>| is_residual_walk(edges, p, s as int, v);
                    assert forall|e: int|
                        0 <= e < 2 * edges.len() && arc_residual(edges, e) > 0 && 0 <= arc_tail(
                            edges,
                            e,
                        ) < reached@.len() && reached@[arc_tail(edges, e)] implies 0
                        <= #[trigger] arc_head(edges, e) < reached@.len() && reached@[arc_head(
                        edges,
                        e,
                    )] by {
                        let u = self.to@[rev(e)] as int;
                        assert(self.adjacency@[u]@.contains(e as usize));
                        let i = choose|i: int|
                            0 <= i < self.adjacency@[u]@.len() && self.adjacency@[u]@[i] == e as usize;
                        assert(self.cap@[self.adjacency@[u]@[i] as int] > 0);
                    }
                    lemma_closed_reach(edges, reached@, p, s as int, v);
                }
            }
        }
        reached
    }
}

/// An arc of the level graph of `dist`: positive residual capacity, and from a vertex at a finite
/// distance to one at the next distance.
pub open spec fn level_arc(to: Seq<usize>, cap: Seq<u64>, dist: Seq<usize>, e: int) -> bool {
    &&& 0 <= e < to.len()
    &&& cap[e] > 0
    &&& dist[to[rev(e)] as int] < usize::MAX
    &&& dist[to[e] as int] == dist[to[rev(e)] as int] + 1
}

/// `p` is a walk of level arcs from `u` to `w`.
pub open spec fn is_level_walk(
    to: Seq<usize>,
    cap: Seq<u64>,
    dist: Seq<usize>,
    p: Seq<usize>,
    u: int,
    w: int,
) -> bool {
    &&& forall|k: int| 0 <= k < p.len() ==> level_arc(to, cap, dist, #[trigger] p[k] as int)
    &&& forall|j: int, k: int|
        #![trigger p[j], p[k]]
        0 <= j && k == j + 1 && k < p.len() ==> to[p[j] as int] == to[rev(p[k] as int)]
    &&& p.len() == 0 ==> u == w
    &&& p.len() > 0 ==> to[rev(p[0] as int)] == u && to[p.last() as int] == w
}

/// `t` is reachable from `u` in the level graph.
pub open spec fn level_reaches(to: Seq<usize>, cap: Seq<u64>, dist: Seq<usize>, u: int, t: int) -> bool {
    exists|p: Seq<usize>| is_level_walk(to, cap, dist, p, u, t)
}

/// The arcs before the pointer `iter[v]` of each vertex `v` lead nowhere in the level graph: none
/// of them is a level arc from which `t` is reachable.
#[verifier::opaque]
pub open spec fn dead_before(
    to: Seq<usize>,
    cap: Seq<u64>,
    adj: Seq<Vec<usize>>,
    dist: Seq<usize>,
    iter: Seq<usize>,
    t: int,
) -> bool {
    forall|v: int, j: int|
        0 <= v < adj.len() && 0 <= j < iter[v] && j < adj[v]@.len() ==> !(level_arc(
            to,
            cap,
            dist,
            #[trigger] adj[v]@[j] as int,
        ) && level_reaches(to, cap, dist, to[adj[v]@[j] as int] as int, t))
}

/// The number of arcs at or after the pointers of the vertices `v < k`.
pub open spec fn remaining(adj: Seq<Vec<usize>>, iter: Seq<usize>, k: int) -> int
    decreases k,
{
    if k <= 0 {
        0
    } else {
        remaining(adj, iter, k - 1) + adj[k - 1]@.len() - iter[k - 1]
    }
}

proof fn lemma_remaining_step(adj: Seq<Vec<usize>>, iter: Seq<usize>, v: int, k: int)
    requires
        0 <= v < iter.len(),
        k <= iter.len(),
        iter[v] < usize::MAX,
    ensures
        remaining(adj, iter.update(v, (iter[v] + 1) as usize), k) == remaining(adj, iter, k) - (if v < k {
            1int
        } else {
            0int
        }),
    decreases k,
{
    if k > 0 {
        lemma_remaining_step(adj, iter, v, k - 1);
    }
}

proof fn lemma_remaining_nonneg(adj: Seq<Vec<usize>>, iter: Seq<usize>, k: int)
    requires
        forall|v: int| 0 <= v < k ==> #[trigger] iter[v] <= adj[v]@.len(),
    ensures
        remaining(adj, iter, k) >= 0,
    decreases k,
{
    if k > 0 {
        lemma_remaining_nonneg(adj, iter, k - 1);
    }
}

/// Changing the flow of edge `i` from `f` to `f'` changes the net outflow of its tail by `f' - f`
/// and that of its head by `f - f'`.
proof fn lemma_net_outflow_update(edges: Seq<FlowEdge>, i: int, f: u64, v: int)
    requires
        0 <= i < edges.len(),
    ensures
        net_outflow(edges.update(i, (edges[i].0, edges[i].1, edges[i].2, f)), v) == net_outflow(edges, v)
            + (if edges[i].0 == v {
            f - edges[i].3
        } else {
            0
        }) - (if edges[i].1 == v {
            f - edges[i].3
        } else {
            0
        }),
    decreases edges.len(),
{
    let e2 = edges.update(i, (edges[i].0, edges[i].1, edges[i].2, f));
    if i == edges.len() - 1 {
        assert(e2.drop_last() =~= edges.drop_last());
    } else {
        assert(e2.drop_last() =~= edges.drop_last().update(i, (edges[i].0, edges[i].1, edges[i].2, f)));
        lemma_net_outflow_update(edges.drop_last(), i, f, v);
    }
}

/// A vertex whose arcs are all dead, other than `t`, does not reach `t` in the level graph.
proof fn lemma_stuck(
    to: Seq<usize>,
    cap: Seq<u64>,
    adj: Seq<Vec<usize>>,
    dist: Seq<usize>,
    iter: Seq<usize>,
    v: int,
    t: int,
)
    requires
        dead_before(to, cap, adj, dist, iter, t),
        0 <= v < adj.len(),
        v != t,
        iter[v] >= adj[v]@.len(),
        arcs_listed(to, adj),
        forall|e: int| 0 <= e < to.len() ==> #[trigger] to[rev(e)] < adj.len(),
    ensures
        !level_reaches(to, cap, dist, v, t),
{
    reveal(arcs_listed);
    reveal(dead_before);
    if level_reaches(to, cap, dist, v, t) {
        let q = choose|q: Seq<usize>| is_level_walk(to, cap, dist, q, v, t);
        let e = q[0] as int;
        assert(level_arc(to, cap, dist, e));
        assert(adj[to[rev(e)] as int]@.contains(e as usize));
        let j = choose|j: int| 0 <= j < adj[v]@.len() && adj[v]@[j] == e as usize;
        let r = q.skip(1);
        assert(is_level_walk(to, cap, dist, r, to[e] as int, t)) by {
            assert forall|j: int, k: int|
                #![trigger r[j], r[k]]
                0 <= j && k == j + 1 && k < r.len() implies to[r[j] as int] == to[rev(r[k] as int)] by {
                assert(r[j] == q[j + 1] && r[k] == q[k + 1]);
                assert(q[j + 1] == q[j + 1] && q[k + 1] == q[k + 1]);
            }
            if r.len() > 0 {
                assert(r[0] == q[1]);
                assert(q[0] == q[0] && q[1] == q[1]);
            }
        }
        assert(!(level_arc(to, cap, dist, adj[v]@[j] as int) && level_reaches(
            to,
            cap,
            dist,
            to[adj[v]@[j] as int] as int,
            t,
        )));
    }
}

/// Moving the pointer of `u` past a dead arc keeps the arcs before the pointers dead.
proof fn lemma_dead_advance(
    to: Seq<usize>,
    cap: Seq<u64>,
    adj: Seq<Vec<usize>>,
    dist: Seq<usize>,
    iter: Seq<usize>,
    u: int,
    t: int,
)
    requires
        dead_before(to, cap, adj, dist, iter, t),
        0 <= u < iter.len(),
        iter.len() == adj.len(),
        iter[u] < adj[u]@.len(),
        !(level_arc(to, cap, dist, adj[u]@[iter[u] as int] as int) && level_reaches(
            to,
            cap,
            dist,
            to[adj[u]@[iter[u] as int] as int] as int,
            t,
        )),
    ensures
        dead_before(to, cap, adj, dist, iter.update(u, (iter[u] + 1) as usize), t),
{
    reveal(dead_before);
    let it2 = iter.update(u, (iter[u] + 1) as usize);
    assert forall|w: int, j: int|
        0 <= w < adj.len() && 0 <= j < it2[w] && j < adj[w]@.len() implies !(level_arc(
        to,
        cap,
        dist,
        #[trigger] adj[w]@[j] as int,
    ) && level_reaches(to, cap, dist, to[adj[w]@[j] as int] as int, t)) by {
        if !(w == u && j == iter[w]) {
            assert(j < iter[w]);
        }
    }
}

/// Removing capacity from arcs and adding it only to arcs that are not level arcs keeps every level
/// walk, so dead arcs stay dead.
proof fn lemma_dead_shrink(
    to: Seq<usize>,
    cap: Seq<u64>,
    cap2: Seq<u64>,
    adj: Seq<Vec<usize>>,
    dist: Seq<usize>,
    iter: Seq<usize>,
    t: int,
)
    requires
        dead_before(to, cap, adj, dist, iter, t),
        cap.len() == to.len(),
        cap2.len() == to.len(),
        forall|e: int| 0 <= e < to.len() && level_arc(to, cap2, dist, e) ==> #[trigger] level_arc(to, cap, dist, e),
    ensures
        dead_before(to, cap2, adj, dist, iter, t),
{
    reveal(dead_before);
    assert forall|u: int| #[trigger] level_reaches(to, cap2, dist, u, t) implies level_reaches(to, cap, dist, u, t) by {
        let q = choose|q: Seq<usize>| is_level_walk(to, cap2, dist, q, u, t);
        assert forall|k: int| 0 <= k < q.len() implies level_arc(to, cap, dist, #[trigger] q[k] as int) by {
            assert(level_arc(to, cap2, dist, q[k] as int));
        }
        assert(is_level_walk(to, cap, dist, q, u, t));
    }
}

/// The arcs of a level walk from a vertex at distance `0` are distinct, and none is the reverse of
/// another.
proof fn lemma_path_distinct(to: Seq<usize>, cap: Seq<u64>, dist: Seq<usize>, p: Seq<usize>, s: int, t: int)
    requires
        is_level_walk(to, cap, dist, p, s, t),
        forall|k: int| 0 <= k < p.len() ==> dist[#[trigger] to[rev(p[k] as int)] as int] == k,
    ensures
        forall|j: int, k: int|
            0 <= j < p.len() && 0 <= k < p.len() && j != k ==> #[trigger] p[j] != #[trigger] p[k] && p[j] as int
                != rev(p[k] as int),
{
    assert forall|j: int, k: int| 0 <= j < p.len() && 0 <= k < p.len() && j != k implies #[trigger] p[j]
        != #[trigger] p[k] && p[j] as int != rev(p[k] as int) by {
        assert(dist[to[rev(p[j] as int)] as int] == j);
        assert(dist[to[rev(p[k] as int)] as int] == k);
        assert(level_arc(to, cap, dist, p[j] as int));
        assert(level_arc(to, cap, dist, p[k] as int));
    }
}

impl MaxFlow {
    /// Searches depth first for a walk from `s` to `t` in the level graph of `dist`, resuming each
    /// vertex `v` at its arc `iter[v]` and moving the pointer past the arcs that lead nowhere;
    /// returns whether one was found, in `path`.
    /// The state of the depth-first search: `path` is a walk of level arcs from `s` to `v`, each
    /// taken at the pointer of its tail, and the arcs before the pointers are dead.
    spec fn dfs_inv(
        self,
        s: usize,
        t: usize,
        dist: Seq<usize>,
        iter: Seq<usize>,
        path: Seq<usize>,
        v: usize,
    ) -> bool {
        let to = self.to@;
        let adj = self.adjacency@;
        let n = adj.len();
        &&& self.wf()
        &&& n < usize::MAX
        &&& s < n
        &&& t < n
        &&& s != t
        &&& v < n
        &&& path.len() < n
        &&& dist.len() == n
        &&& dist[s as int] == 0
        &&& forall|u: int| 0 <= u < dist.len() && #[trigger] dist[u] < usize::MAX ==> dist[u] < dist.len()
        &&& iter.len() == n
        &&& forall|u: int| 0 <= u < iter.len() ==> #[trigger] iter[u] <= adj[u]@.len()
        &&& dead_before(to, self.cap@, adj, dist, iter, t as int)
        &&& is_level_walk(to, self.cap@, dist, path, s as int, v as int)
        &&& dist[v as int] == path.len()
        &&& forall|k: int| 0 <= k < path.len() ==> dist[#[trigger] to[rev(path[k] as int)] as int] == k
        &&& forall|k: int|
            0 <= k < path.len() ==> iter[#[trigger] to[rev(path[k] as int)] as int] < adj[to[rev(
                path[k] as int,
            )] as int]@.len() && adj[to[rev(path[k] as int)] as int]@[iter[to[rev(
                path[k] as int,
            )] as int] as int] == path[k]
        &&& remaining(adj, iter, n as int) >= 0
    }

    /// Searches depth first for a walk from `s` to `t` in the level graph of `dist`, resuming each
    /// vertex `v` at its arc `iter[v]` and moving the pointer past the arcs that lead nowhere;
    /// returns whether one was found, in `path`.
    fn find_path(
        &self,
        s: usize,
        t: usize,
        dist: &Vec<usize>,
        iter: &mut Vec<usize>,
        path: &mut Vec<usize>,
    ) -> (found: bool)
        requires
            self.wf(),
            self.adjacency@.len() < usize::MAX,
            s < self.adjacency@.len(),
            t < self.adjacency@.len(),
            s != t,
            dist@.len() == self.adjacency@.len(),
            old(iter)@.len() == self.adjacency@.len(),
            dist@[s as int] == 0,
            forall|v: int|
                0 <= v < dist@.len() && #[trigger] dist@[v] < usize::MAX ==> dist@[v] < dist@.len(),
            forall|v: int| 0 <= v < old(iter)@.len() ==> #[trigger] old(iter)@[v] <= self.adjacency@[v]@.len(),
            dead_before(self.to@, self.cap@, self.adjacency@, dist@, old(iter)@, t as int),
        ensures
            final(iter)@.len() == old(iter)@.len(),
            forall|v: int| 0 <= v < final(iter)@.len() ==> #[trigger] final(iter)@[v] <= self.adjacency@[v]@.len(),
            dead_before(self.to@, self.cap@, self.adjacency@, dist@, final(iter)@, t as int),
            found ==> is_level_walk(self.to@, self.cap@, dist@, final(path)@, s as int, t as int)
                && final(path)@.len() > 0 && forall|k: int|
                0 <= k < final(path)@.len() ==> dist@[#[trigger] self.to@[rev(final(path)@[k] as int)] as int] == k,
            !found ==> !level_reaches(self.to@, self.cap@, dist@, s as int, t as int),
    {
        let n = self.adjacency.len();
        path.clear();
        let mut v = s;
        proof {
            lemma_remaining_nonneg(self.adjacency@, iter@, n as int);
            assert(is_level_walk(self.to@, self.cap@, dist@, path@, s as int, s as int));
        }
        while v != t
            invariant
                self.dfs_inv(s, t, dist@, iter@, path@, v),
                old(iter)@.len() == self.adjacency@.len(),
                n == self.adjacency@.len(),
            decreases remaining(self.adjacency@, iter@, n as int), n - path@.len(),
        {
            let ghost rem0 = remaining(self.adjacency@, iter@, n as int);
            let ghost len0 = path@.len();
            let r = self.dfs_step(s, t, dist, iter, path, v);
            if r.0 {
                return false;
            }
            v = r.1;
            proof {
                assert(remaining(self.adjacency@, iter@, n as int) >= 0);
                assert(path@.len() < n);
                assert(remaining(self.adjacency@, iter@, n as int) < rem0 || (remaining(
                    self.adjacency@,
                    iter@,
                    n as int,
                ) == rem0 && n - path@.len() < n - len0));
            }
        }
        proof {
            if path@.len() == 0 {
                assert(v == s);
            }
        }
        true
    }

    /// One step of the depth-first search from `v != t`: follows the next level arc, or retreats
    /// from a vertex that leads nowhere; `stuck` when `v = s` leads nowhere.
    #[verifier::rlimit(50)]
    fn dfs_step(
        &self,
        s: usize,
        t: usize,
        dist: &Vec<usize>,
        iter: &mut Vec<usize>,
        path: &mut Vec<usize>,
        v: usize,
    ) -> (r: (bool, usize))
        requires
            self.dfs_inv(s, t, dist@, old(iter)@, old(path)@, v),
            v != t,
        ensures
            r.0 ==> dead_before(self.to@, self.cap@, self.adjacency@, dist@, final(iter)@, t as int)
                && final(iter)@.len() == old(iter)@.len()
                && (forall|u: int| 0 <= u < final(iter)@.len() ==> #[trigger] final(iter)@[u] <= self.adjacency@[u]@.len())
                && !level_reaches(self.to@, self.cap@, dist@, s as int, t as int),
            !r.0 ==> self.dfs_inv(s, t, dist@, final(iter)@, final(path)@, r.1),
            !r.0 ==> remaining(self.adjacency@, final(iter)@, self.adjacency@.len() as int) < remaining(
                self.adjacency@,
                old(iter)@,
                self.adjacency@.len() as int,
            ) || (remaining(self.adjacency@, final(iter)@, self.adjacency@.len() as int) == remaining(
                self.adjacency@,
                old(iter)@,
                self.adjacency@.len() as int,
            ) && final(path)@.len() == old(path)@.len() + 1),
    {
        let ghost to = self.to@;
        let ghost cap0 = self.cap@;
        let ghost adj = self.adjacency@;
        let n = self.adjacency.len();
        proof {
            assert forall|k: int| 0 <= k < path@.len() implies #[trigger] path@[k] < to.len() by {
                assert(level_arc(to, cap0, dist@, path@[k] as int));
            }
        }
        let next = self.scan(v, t, dist, iter, Ghost(path@));
        match next {
            Some(e) => {
                let ghost old_path = path@;
                path.push(e);
                proof {
                    lemma_xor_one(e);
                    self.lemma_after_push(s, dist@, iter@, old_path, path@, e, v);
                    lemma_remaining_nonneg(adj, iter@, n as int);
                    let w = to[e as int] as int;
                    assert(dist@[w] == dist@[v as int] + 1);
                    assert(dist@[v as int] < n);
                    assert(dist@[w] < usize::MAX);
                }
                (false, self.to[e])
            },
            None => {
                proof {
                    lemma_stuck(to, cap0, adj, dist@, iter@, v as int, t as int);
                }
                if path.len() == 0 {
                    return (true, v);
                }
                let ghost old_path = path@;
                let e = path.pop().unwrap();
                proof {
                    lemma_xor_one(e);
                    assert(old_path =~= path@.push(e));
                    assert(old_path[old_path.len() - 1] == e);
                }
                let u = self.to[e ^ 1];
                let len_u = self.adjacency[u].len();
                proof {
                    assert(iter@[u as int] < adj[u as int]@.len());
                    assert(adj[u as int]@[iter@[u as int] as int] == e);
                    lemma_remaining_step(adj, iter@, u as int, n as int);
                }
                let ghost iter1 = iter@;
                let x = iter[u] + 1;
                iter.set(u, x);
                proof {
                    lemma_remaining_nonneg(adj, iter@, n as int);
                    self.lemma_after_pop(s, t, dist@, iter@, old_path, path@, e, u);
                    lemma_dead_advance(to, cap0, adj, dist@, iter1, u as int, t as int);
                    assert(iter@ == iter1.update(u as int, (iter1[u as int] + 1) as usize));
                }
                (false, u)
            },
        }
    }

    /// After pushing a level arc `e` out of the end `v` of the walk, found at the pointer of `v`, the
    /// search state is consistent again.
    proof fn lemma_after_push(
        &self,
        s: usize,
        dist: Seq<usize>,
        iter: Seq<usize>,
        old_path: Seq<usize>,
        path: Seq<usize>,
        e: usize,
        v: usize,
    )
        requires
            self.wf(),
            path == old_path.push(e),
            0 <= e < self.to@.len(),
            v < self.adjacency@.len(),
            self.to@[rev(e as int)] == v,
            iter.len() == self.adjacency@.len(),
            is_level_walk(self.to@, self.cap@, dist, old_path, s as int, v as int),
            level_arc(self.to@, self.cap@, dist, e as int),
            dist[v as int] == old_path.len(),
            iter[v as int] < self.adjacency@[v as int]@.len(),
            self.adjacency@[v as int]@[iter[v as int] as int] == e,
            forall|k: int| 0 <= k < old_path.len() ==> dist[#[trigger] self.to@[rev(old_path[k] as int)] as int] == k,
            forall|k: int|
                0 <= k < old_path.len() ==> iter[#[trigger] self.to@[rev(old_path[k] as int)] as int] < self.adjacency@[self.to@[rev(
                    old_path[k] as int,
                )] as int]@.len() && self.adjacency@[self.to@[rev(old_path[k] as int)] as int]@[iter[self.to@[rev(
                    old_path[k] as int,
                )] as int] as int] == old_path[k],
        ensures
            is_level_walk(self.to@, self.cap@, dist, path, s as int, self.to@[e as int] as int),
            dist[self.to@[e as int] as int] == path.len(),
            forall|k: int| 0 <= k < path.len() ==> dist[#[trigger] self.to@[rev(path[k] as int)] as int] == k,
            forall|k: int|
                0 <= k < path.len() ==> iter[#[trigger] self.to@[rev(path[k] as int)] as int] < self.adjacency@[self.to@[rev(
                    path[k] as int,
                )] as int]@.len() && self.adjacency@[self.to@[rev(path[k] as int)] as int]@[iter[self.to@[rev(
                    path[k] as int,
                )] as int] as int] == path[k],
    {
        let to = self.to@;
        let cap0 = self.cap@;
        assert forall|j: int, k: int|
            #![trigger path[j], path[k]]
            0 <= j && k == j + 1 && k < path.len() implies to[path[j] as int] == to[rev(path[k] as int)] by {
            assert(path[j] == old_path[j]);
            if k < old_path.len() {
                assert(path[k] == old_path[k]);
            } else {
                assert(old_path[j] == old_path[j] && old_path.last() == old_path[j]);
            }
        }
        assert forall|k: int| 0 <= k < path.len() implies level_arc(to, cap0, dist, #[trigger] path[k] as int) by {
            if k < old_path.len() {
                assert(path[k] == old_path[k]);
            }
        }
        assert forall|k: int| 0 <= k < path.len() implies dist[#[trigger] to[rev(path[k] as int)] as int] == k by {
            if k < old_path.len() {
                assert(path[k] == old_path[k]);
            }
        }
        assert forall|k: int|
            0 <= k < path.len() implies iter[#[trigger] to[rev(path[k] as int)] as int] < self.adjacency@[to[rev(
                path[k] as int,
            )] as int]@.len() && self.adjacency@[to[rev(path[k] as int)] as int]@[iter[to[rev(
                path[k] as int,
            )] as int] as int] == path[k] by {
            if k < old_path.len() {
                assert(path[k] == old_path[k]);
            }
        }
    }

    /// After popping the arc `e` into a vertex that leads nowhere and moving the pointer of its tail
    /// `u` past it, the search state is consistent again.
    proof fn lemma_after_pop(
        &self,
        s: usize,
        t: usize,
        dist: Seq<usize>,
        iter: Seq<usize>,
        old_path: Seq<usize>,
        path: Seq<usize>,
        e: usize,
        u: usize,
    )
        requires
            self.wf(),
            old_path.len() > 0,
            old_path == path.push(e),
            u == self.to@[rev(e as int)],
            u < self.adjacency@.len(),
            iter.len() == self.adjacency@.len(),
            is_level_walk(self.to@, self.cap@, dist, old_path, s as int, self.to@[e as int] as int),
            dist[u as int] == path.len(),
            forall|k: int| 0 <= k < old_path.len() ==> dist[#[trigger] self.to@[rev(old_path[k] as int)] as int] == k,
        ensures
            is_level_walk(self.to@, self.cap@, dist, path, s as int, u as int),
            forall|k: int| 0 <= k < path.len() ==> dist[#[trigger] self.to@[rev(path[k] as int)] as int] == k,
            forall|k: int| 0 <= k < path.len() ==> #[trigger] self.to@[rev(path[k] as int)] != u,
    {
        let to = self.to@;
        assert forall|k: int| 0 <= k < path.len() implies dist[#[trigger] to[rev(path[k] as int)] as int] == k by {
            assert(path[k] == old_path[k]);
        }
        assert forall|k: int| 0 <= k < path.len() implies #[trigger] to[rev(path[k] as int)] != u by {
            assert(path[k] == old_path[k]);
        }
        assert forall|j: int, k: int|
            #![trigger path[j], path[k]]
            0 <= j && k == j + 1 && k < path.len() implies to[path[j] as int] == to[rev(path[k] as int)] by {
            assert(path[j] == old_path[j]);
            assert(path[k] == old_path[k]);
            assert(old_path[j] == old_path[j] && old_path[k] == old_path[k]);
        }
        assert forall|k: int| 0 <= k < path.len() implies level_arc(to, self.cap@, dist, #[trigger] path[k] as int) by {
            assert(path[k] == old_path[k]);
        }
        if path.len() > 0 {
            let j = path.len() - 1;
            let k = path.len() as int;
            assert(old_path[j] == old_path[j] && old_path[k] == old_path[k]);
            assert(to[old_path[j] as int] == to[rev(old_path[k] as int)]);
        }
    }

    /// Moves the pointer `iter[v]` past the arcs of `v` that are not level arcs, and returns the
    /// first level arc, or `None` when none is left.
    fn scan(&self, v: usize, t: usize, dist: &Vec<usize>, iter: &mut Vec<usize>, path: Ghost<Seq<usize>>) -> (next: Option<usize>)
        requires
            self.wf(),
            v < self.adjacency@.len(),
            t < self.adjacency@.len(),
            dist@.len() == self.adjacency@.len(),
            dist@[v as int] == path@.len(),
            path@.len() < self.adjacency@.len(),
            old(iter)@.len() == self.adjacency@.len(),
            forall|u: int| 0 <= u < old(iter)@.len() ==> #[trigger] old(iter)@[u] <= self.adjacency@[u]@.len(),
            dead_before(self.to@, self.cap@, self.adjacency@, dist@, old(iter)@, t as int),
            forall|k: int| 0 <= k < path@.len() ==> #[trigger] path@[k] < self.to@.len(),
            forall|k: int| 0 <= k < path@.len() ==> dist@[#[trigger] self.to@[rev(path@[k] as int)] as int] == k,
            forall|k: int|
                0 <= k < path@.len() ==> old(iter)@[#[trigger] self.to@[rev(path@[k] as int)] as int] < self.adjacency@[self.to@[rev(
                    path@[k] as int,
                )] as int]@.len() && self.adjacency@[self.to@[rev(path@[k] as int)] as int]@[old(iter)@[self.to@[rev(
                    path@[k] as int,
                )] as int] as int] == path@[k],
        ensures
            final(iter)@.len() == old(iter)@.len(),
            forall|u: int| 0 <= u < final(iter)@.len() ==> #[trigger] final(iter)@[u] <= self.adjacency@[u]@.len(),
            dead_before(self.to@, self.cap@, self.adjacency@, dist@, final(iter)@, t as int),
            remaining(self.adjacency@, final(iter)@, self.adjacency@.len() as int) <= remaining(self.adjacency@, old(iter)@, self.adjacency@.len() as int),
            next matches Some(e) ==> final(iter)@[v as int] < self.adjacency@[v as int]@.len()
                && self.adjacency@[v as int]@[final(iter)@[v as int] as int] == e && level_arc(self.to@, self.cap@, dist@, e as int),
            next is None ==> final(iter)@[v as int] >= self.adjacency@[v as int]@.len(),
            forall|k: int|
                0 <= k < path@.len() ==> final(iter)@[#[trigger] self.to@[rev(path@[k] as int)] as int] < self.adjacency@[self.to@[rev(
                    path@[k] as int,
                )] as int]@.len() && self.adjacency@[self.to@[rev(path@[k] as int)] as int]@[final(iter)@[self.to@[rev(
                    path@[k] as int,
                )] as int] as int] == path@[k],
    {
        let ghost to = self.to@;
        let ghost cap0 = self.cap@;
        let ghost adj = self.adjacency@;
        let ghost n = adj.len() as int;
        let ghost iter0 = iter@;
        let mut next: Option<usize> = None;
        while next.is_none() && iter[v] < self.adjacency[v].len()
            invariant
                self.wf(),
                to == self.to@,
                cap0 == self.cap@,
                adj == self.adjacency@,
                n == adj.len(),
                v < n,
                dist@.len() == n,
                dist@[v as int] == path@.len(),
                path@.len() < n,
                iter@.len() == n,
                forall|u: int| 0 <= u < iter@.len() ==> #[trigger] iter@[u] <= adj[u]@.len(),
                dead_before(to, cap0, adj, dist@, iter@, t as int),
                remaining(adj, iter@, n) <= remaining(adj, iter0, n),
                next matches Some(e) ==> iter@[v as int] < adj[v as int]@.len() && adj[v as int]@[iter@[v as int] as int]
                    == e && level_arc(to, cap0, dist@, e as int),
                forall|u: int| 0 <= u < n && u != v ==> #[trigger] iter@[u] == iter0[u],
            decreases adj[v as int]@.len() - iter@[v as int] + (if next is None {
                1int
            } else {
                0int
            }),
        {
            let e = self.adjacency[v][iter[v]];
            let w = self.to[e];
            proof {
                lemma_xor_one(e);
            }
            if self.cap[e] > 0 && dist[w] == dist[v] + 1 {
                next = Some(e);
            } else {
                proof {
                    lemma_remaining_step(adj, iter@, v as int, n);
                }
                let ghost iter1 = iter@;
                let x = iter[v] + 1;
                iter.set(v, x);
                proof {
                    reveal(dead_before);
                    assert(dead_before(to, cap0, adj, dist@, iter@, t as int)) by {
                        assert forall|u: int, j: int|
                            0 <= u < adj.len() && 0 <= j < iter@[u] && j < adj[u]@.len() implies !(level_arc(
                            to,
                            cap0,
                            dist@,
                            #[trigger] adj[u]@[j] as int,
                        ) && level_reaches(to, cap0, dist@, to[adj[u]@[j] as int] as int, t as int)) by {
                            if !(u == v && j == iter1[u]) {
                                assert(j < iter1[u]);
                            }
                        }
                    }
                }
            }
        }
        proof {
            assert forall|k: int| 0 <= k < path@.len() implies iter@[#[trigger] to[rev(path@[k] as int)] as int]
                == iter0[to[rev(path@[k] as int)] as int] by {
                assert(dist@[to[rev(path@[k] as int)] as int] == k);
                assert(path@[k] < to.len());
                assert(to[rev(path@[k] as int)] < n);
            }
        }
        next
    }

    /// Pushes `d` along the level walk `path` from `s` to `t`: the flow of each of its arcs rises by
    /// `d`, which raises the net outflow of `s` and lowers that of `t` by `d`.
    #[verifier::rlimit(80)]
    fn push_path(&mut self, s: usize, t: usize, dist: Ghost<Seq<usize>>, path: &Vec<usize>, d: u64)
        requires
            old(self).wf(),
            s != t,
            is_level_walk(old(self).to@, old(self).cap@, dist@, path@, s as int, t as int),
            path@.len() > 0,
            forall|k: int| 0 <= k < path@.len() ==> dist@[#[trigger] old(self).to@[rev(path@[k] as int)] as int] == k,
            d > 0,
            forall|k: int| 0 <= k < path@.len() ==> d <= old(self).cap@[#[trigger] path@[k] as int],
        ensures
            final(self).wf(),
            final(self).adjacency == old(self).adjacency,
            final(self).to == old(self).to,
            final(self).capacity == old(self).capacity,
            final(self).cap@.len() == old(self).cap@.len(),
            forall|e: int| 0 <= e < final(self).to@.len() && level_arc(final(self).to@, final(self).cap@, dist@, e)
                ==> #[trigger] level_arc(old(self).to@, old(self).cap@, dist@, e),
            forall|v: int|
                net_outflow(final(self).spec_edges(), v) == net_outflow(old(self).spec_edges(), v) + (if v == s {
                    d as int
                } else {
                    0
                }) - (if v == t {
                    d as int
                } else {
                    0
                }),
    {
        let ghost to = self.to@;
        let ghost cap0 = self.cap@;
        let ghost edges0 = self.spec_edges();
        proof {
            lemma_path_distinct(to, cap0, dist@, path@, s as int, t as int);
        }
        let mut k: usize = 0;
        while k < path.len()
            invariant
                self.wf(),
                self.adjacency == old(self).adjacency,
                self.to == old(self).to,
                self.capacity == old(self).capacity,
                edges0 == old(self).spec_edges(),
                to == self.to@,
                cap0 == old(self).cap@,
                self.cap@.len() == cap0.len(),
                s != t,
                k <= path@.len(),
                path@.len() > 0,
                d > 0,
                is_level_walk(to, cap0, dist@, path@, s as int, t as int),
                forall|j: int| 0 <= j < path@.len() ==> d <= cap0[#[trigger] path@[j] as int],
                forall|j: int, l: int| 0 <= j < path@.len() && 0 <= l < path@.len() && j != l ==>
                    #[trigger] path@[j] != #[trigger] path@[l] && path@[j] as int != rev(path@[l] as int),
                forall|e: int|
                    0 <= e < to.len() ==> #[trigger] self.cap@[e] == cap0[e] - (if path@.take(k as int).contains(e as usize) {
                        d as int
                    } else {
                        0
                    }) + (if path@.take(k as int).contains(rev(e) as usize) {
                        d as int
                    } else {
                        0
                    }),
                forall|v: int|
                    net_outflow(self.spec_edges(), v) == net_outflow(edges0, v) + (if v == s {
                        d as int
                    } else {
                        0
                    }) - (if v == (if k == 0 {
                        s as int
                    } else {
                        to[path@[k - 1] as int] as int
                    }) {
                        d as int
                    } else {
                        0
                    }),
            decreases path@.len() - k,
        {
            let e = path[k];
            proof {
                lemma_xor_one(e);
                self.lemma_push_step_pre(path@, k as int, cap0, d);
            }
            let ghost before = *self;
            let c = self.cap[e];
            self.cap.set(e, c - d);
            let c2 = self.cap[e ^ 1];
            self.cap.set(e ^ 1, c2 + d);
            proof {
                self.lemma_push_step_post(before, s, t, path@, k as int, cap0, edges0, d);
            }
            k = k + 1;
        }
        proof {
            assert(path@.take(path@.len() as int) =~= path@);
            assert(to[path@[path@.len() - 1] as int] == t);
            assert forall|e: int| 0 <= e < to.len() && level_arc(to, self.cap@, dist@, e) implies #[trigger] level_arc(
                to,
                cap0,
                dist@,
                e,
            ) by {
                if path@.contains(rev(e) as usize) {
                    let j = choose|j: int| 0 <= j < path@.len() && path@[j] == rev(e) as usize;
                    assert(level_arc(to, cap0, dist@, path@[j] as int));
                    assert(rev(rev(e)) == e);
                }
            }
        }
    }

    proof fn lemma_push_step_pre(&self, path: Seq<usize>, k: int, cap0: Seq<u64>, d: u64)
        requires
            self.wf(),
            0 <= k < path.len(),
            0 <= path[k] < self.to@.len(),
            forall|j: int, l: int| 0 <= j < path.len() && 0 <= l < path.len() && j != l ==>
                #[trigger] path[j] != #[trigger] path[l] && path[j] as int != rev(path[l] as int),
            forall|e: int|
                0 <= e < self.to@.len() ==> #[trigger] self.cap@[e] == cap0[e] - (if path.take(k).contains(e as usize) {
                    d as int
                } else {
                    0
                }) + (if path.take(k).contains(rev(e) as usize) {
                    d as int
                } else {
                    0
                }),
            d <= cap0[path[k] as int],
        ensures
            self.cap@[path[k] as int] == cap0[path[k] as int],
            self.cap@[rev(path[k] as int)] == cap0[rev(path[k] as int)],
            self.cap@[path[k] as int] + self.cap@[rev(path[k] as int)] <= u64::MAX,
    {
        let e = path[k];
        assert(!path.take(k).contains(e)) by {
            if path.take(k).contains(e) {
                let j = choose|j: int| 0 <= j < k && path.take(k)[j] == e;
                assert(path[j] == path[k]);
            }
        }
        assert(!path.take(k).contains(rev(e as int) as usize)) by {
            if path.take(k).contains(rev(e as int) as usize) {
                let j = choose|j: int| 0 <= j < k && path.take(k)[j] == rev(e as int) as usize;
                assert(path[j] as int == rev(path[k] as int));
            }
        }
        assert(rev(rev(e as int)) == e);
        let i = e as int / 2;
        assert(self.cap@[2 * i] + self.cap@[2 * i + 1] == self.capacity@[i]);
    }

    proof fn lemma_push_step_post(
        &self,
        before: Self,
        s: usize,
        t: usize,
        path: Seq<usize>,
        k: int,
        cap0: Seq<u64>,
        edges0: Seq<FlowEdge>,
        d: u64,
    )
        requires
            before.wf(),
            self.adjacency == before.adjacency,
            self.to == before.to,
            self.capacity == before.capacity,
            0 <= k < path.len(),
            0 <= path[k] < self.to@.len(),
            self.cap@ == before.cap@.update(path[k] as int, (before.cap@[path[k] as int] - d) as u64).update(
                rev(path[k] as int),
                (before.cap@[rev(path[k] as int)] + d) as u64,
            ),
            before.cap@[path[k] as int] == cap0[path[k] as int],
            before.cap@[rev(path[k] as int)] == cap0[rev(path[k] as int)],
            d <= before.cap@[path[k] as int],
            before.cap@[path[k] as int] + before.cap@[rev(path[k] as int)] <= u64::MAX,
            cap0.len() == self.to@.len(),
            forall|j: int, l: int| 0 <= j < path.len() && 0 <= l < path.len() && j != l ==>
                #[trigger] path[j] != #[trigger] path[l] && path[j] as int != rev(path[l] as int),
            forall|e: int|
                0 <= e < self.to@.len() ==> #[trigger] before.cap@[e] == cap0[e] - (if path.take(k).contains(e as usize) {
                    d as int
                } else {
                    0
                }) + (if path.take(k).contains(rev(e) as usize) {
                    d as int
                } else {
                    0
                }),
            forall|v: int|
                net_outflow(before.spec_edges(), v) == net_outflow(edges0, v) + (if v == s {
                    d as int
                } else {
                    0
                }) - (if v == (if k == 0 {
                    s as int
                } else {
                    self.to@[path[k - 1] as int] as int
                }) {
                    d as int
                } else {
                    0
                }),
            k == 0 ==> self.to@[rev(path[0] as int)] == s,
            k > 0 ==> self.to@[path[k - 1] as int] == self.to@[rev(path[k] as int)],
        ensures
            self.wf(),
            forall|e: int|
                0 <= e < self.to@.len() ==> #[trigger] self.cap@[e] == cap0[e] - (if path.take(k + 1).contains(e as usize) {
                    d as int
                } else {
                    0
                }) + (if path.take(k + 1).contains(rev(e) as usize) {
                    d as int
                } else {
                    0
                }),
            forall|v: int|
                net_outflow(self.spec_edges(), v) == net_outflow(edges0, v) + (if v == s {
                    d as int
                } else {
                    0
                }) - (if v == self.to@[path[k] as int] {
                    d as int
                } else {
                    0
                }),
    {
        let e = path[k] as int;
        let i = e / 2;
        let f2 = self.cap@[2 * i + 1];
        assert(self.spec_edges() =~= before.spec_edges().update(
            i,
            (before.spec_edges()[i].0, before.spec_edges()[i].1, before.spec_edges()[i].2, f2),
        ));
        assert forall|v: int|
            net_outflow(self.spec_edges(), v) == net_outflow(edges0, v) + (if v == s {
                d as int
            } else {
                0
            }) - (if v == self.to@[path[k] as int] {
                d as int
            } else {
                0
            }) by {
            lemma_net_outflow_update(before.spec_edges(), i, f2, v);
        }
        let tk1 = path.take(k + 1);
        let tk = path.take(k);
        assert(tk1 =~= tk.push(e as usize));
        assert forall|x: usize| #[trigger] tk1.contains(x) == (tk.contains(x) || x == e as usize) by {
            lemma_push_contains(tk, e as usize, x);
        }
        assert forall|e2: int|
            0 <= e2 < self.to@.len() implies #[trigger] self.cap@[e2] == cap0[e2] - (if tk1.contains(e2 as usize) {
                d as int
            } else {
                0
            }) + (if tk1.contains(rev(e2) as usize) {
                d as int
            } else {
                0
            }) by {
            if e2 == rev(e) {
                assert(rev(e2) == e);
            }
        }
        assert forall|j: int| 0 <= j < self.capacity@.len() implies self.cap@[2 * j] + self.cap@[2 * j
            + 1] == #[trigger] self.capacity@[j] by {
            assert(before.cap@[2 * j] + before.cap@[2 * j + 1] == before.capacity@[j]);
        }
    }
}

pub(crate) proof fn lemma_push_contains(s: Seq<usize>, a: usize, x: usize)
    ensures
        s.push(a).contains(x) == (s.contains(x) || x == a),
{
    if s.push(a).contains(x) {
        let j = choose|j: int| 0 <= j < s.push(a).len() && s.push(a)[j] == x;
        if j < s.len() {
            assert(s[j] == x);
        }
    }
    if s.contains(x) {
        let j = choose|j: int| 0 <= j < s.len() && s[j] == x;
        assert(s.push(a)[j] == x);
    }
    if x == a {
        assert(s.push(a)[s.len() as int] == x);
    }
}

/// `u` is the head of a level arc.
#[verifier::opaque]
pub open spec fn has_parent(to: Seq<usize>, cap: Seq<u64>, dist: Seq<usize>, u: int) -> bool {
    exists|e: int| level_arc(to, cap, dist, e) && #[trigger] to[e] == u
}

/// Every vertex at a finite distance is reachable from `s` in the level graph, when every such
/// vertex other than `s` is the head of a level arc.
proof fn lemma_level_path(to: Seq<usize>, cap: Seq<u64>, dist: Seq<usize>, s: int, v: int)
    requires
        0 <= v < dist.len(),
        0 <= s < dist.len(),
        dist[s] == 0,
        dist[v] < usize::MAX,
        to.len() <= usize::MAX,
        forall|e: int| 0 <= e < to.len() ==> #[trigger] to[e] < dist.len(),
        forall|e: int| 0 <= e < to.len() ==> rev(e) < to.len() && 0 <= rev(e),
        forall|u: int|
            0 <= u < dist.len() && u != s && #[trigger] dist[u] < usize::MAX ==> has_parent(to, cap, dist, u),
    ensures
        level_reaches(to, cap, dist, s, v),
    decreases dist[v],
{
    if v == s {
        assert(is_level_walk(to, cap, dist, Seq::<usize>::empty(), s, s));
    } else {
        assert(has_parent(to, cap, dist, v));
        reveal(has_parent);
        let e = choose|e: int| level_arc(to, cap, dist, e) && #[trigger] to[e] == v;
        let u = to[rev(e)] as int;
        lemma_level_path(to, cap, dist, s, u);
        let p = choose|p: Seq<usize>| is_level_walk(to, cap, dist, p, s, u);
        let q = p.push(e as usize);
        assert(is_level_walk(to, cap, dist, q, s, v)) by {
            assert forall|k: int| 0 <= k < q.len() implies level_arc(to, cap, dist, #[trigger] q[k] as int) by {
                if k < p.len() {
                    assert(q[k] == p[k]);
                }
            }
            assert forall|j: int, k: int|
                #![trigger q[j], q[k]]
                0 <= j && k == j + 1 && k < q.len() implies to[q[j] as int] == to[rev(q[k] as int)] by {
                assert(q[j] == p[j]);
                if k < p.len() {
                    assert(q[k] == p[k]);
                    assert(p[j] == p[j] && p[k] == p[k]);
                } else {
                    assert(p[j] == p.last());
                }
            }
        }
    }
}

impl MaxFlow {
    /// Computes in `dist` the distances from `s` in the residual graph by breadth-first search,
    /// stopping once `t` is reached; the vertices left at `usize::MAX` are not reached.
    fn bfs_levels(&self, s: usize, t: usize, dist: &mut Vec<usize>, queue: &mut Vec<usize>)
        requires
            self.wf(),
            self.adjacency@.len() < usize::MAX,
            s < self.adjacency@.len(),
            t < self.adjacency@.len(),
            old(dist)@.len() == self.adjacency@.len(),
        ensures
            final(dist)@.len() == self.adjacency@.len(),
            final(dist)@[s as int] == 0,
            forall|v: int|
                0 <= v < final(dist)@.len() && #[trigger] final(dist)@[v] < usize::MAX ==> final(dist)@[v] < final(dist)@.len(),
            final(dist)@[t as int] < usize::MAX ==> level_reaches(self.to@, self.cap@, final(dist)@, s as int, t as int),
            final(dist)@[t as int] == usize::MAX ==> !residual_reachable(self.spec_edges(), s as int, t as int),
    {
        let ghost to = self.to@;
        let ghost cap = self.cap@;
        let ghost adj = self.adjacency@;
        let n = self.adjacency.len();
        let mut i: usize = 0;
        while i < n
            invariant
                n == dist@.len(),
                i <= n,
                forall|u: int| 0 <= u < i ==> #[trigger] dist@[u] == usize::MAX,
            decreases n - i,
        {
            dist.set(i, usize::MAX);
            i = i + 1;
        }
        dist.set(s, 0);
        queue.clear();
        queue.push(s);
        let mut head: usize = 0;
        proof {
            assert forall|u: int| 0 <= u < n implies (#[trigger] dist@[u] < usize::MAX <==> queue@.contains(
                u as usize,
            )) by {
                if queue@.contains(u as usize) {
                    let k = choose|k: int| 0 <= k < queue@.len() && queue@[k] == u as usize;
                }
                if u == s {
                    assert(queue@[0] == s);
                }
            }
        }
        while head < queue.len() && dist[t] == usize::MAX
            invariant
                self.wf(),
                to == self.to@,
                cap == self.cap@,
                adj == self.adjacency@,
                n == adj.len(),
                n < usize::MAX,
                s < n,
                t < n,
                dist@.len() == n,
                dist@[s as int] == 0,
                head <= queue@.len() <= n,
                queue@.len() > 0,
                queue@[0] == s,
                forall|k: int| 0 <= k < queue@.len() ==> #[trigger] queue@[k] < n,
                forall|a: int, b: int| 0 <= a < b < queue@.len() ==> queue@[a] != queue@[b],
                forall|u: int| 0 <= u < n ==> (#[trigger] dist@[u] < usize::MAX <==> queue@.contains(u as usize)),
                forall|k: int| 0 <= k < queue@.len() ==> #[trigger] dist@[queue@[k] as int] <= k,
                forall|u: int|
                    0 <= u < n && u != s && #[trigger] dist@[u] < usize::MAX ==> has_parent(to, cap, dist@, u),
                forall|k: int, j: int|
                    0 <= k < head && 0 <= j < adj[queue@[k] as int]@.len() && cap[#[trigger] adj[queue@[k] as int]@[j] as int]
                        > 0 ==> dist@[to[adj[queue@[k] as int]@[j] as int] as int] < usize::MAX,
            decreases n - head,
        {
            let v = queue[head];
            head = head + 1;
            let mut j: usize = 0;
            while j < self.adjacency[v].len()
                invariant
                    self.wf(),
                    to == self.to@,
                    cap == self.cap@,
                    adj == self.adjacency@,
                    n == adj.len(),
                    n < usize::MAX,
                    s < n,
                    v < n,
                    v == queue@[head - 1],
                    1 <= head <= queue@.len() <= n,
                    dist@.len() == n,
                    dist@[s as int] == 0,
                    dist@[v as int] <= head - 1,
                    j <= adj[v as int]@.len(),
                    queue@[0] == s,
                    forall|k: int| 0 <= k < queue@.len() ==> #[trigger] queue@[k] < n,
                    forall|a: int, b: int| 0 <= a < b < queue@.len() ==> queue@[a] != queue@[b],
                    forall|u: int| 0 <= u < n ==> (#[trigger] dist@[u] < usize::MAX <==> queue@.contains(u as usize)),
                    forall|k: int| 0 <= k < queue@.len() ==> #[trigger] dist@[queue@[k] as int] <= k,
                    forall|u: int|
                        0 <= u < n && u != s && #[trigger] dist@[u] < usize::MAX ==> has_parent(to, cap, dist@, u),
                    forall|k: int, i: int|
                        0 <= k < head - 1 && 0 <= i < adj[queue@[k] as int]@.len() && cap[#[trigger] adj[queue@[k] as int]@[i] as int]
                            > 0 ==> dist@[to[adj[queue@[k] as int]@[i] as int] as int] < usize::MAX,
                    forall|i: int|
                        0 <= i < j && cap[#[trigger] adj[v as int]@[i] as int] > 0 ==> dist@[to[adj[v as int]@[i] as int] as int]
                            < usize::MAX,
                decreases adj[v as int]@.len() - j,
            {
                let e = self.adjacency[v][j];
                let w = self.to[e];
                if self.cap[e] > 0 && dist[w] == usize::MAX {
                    proof {
                        assert(dist@[v as int] < usize::MAX) by {
                            assert(dist@[queue@[head - 1] as int] <= head - 1);
                        }
                        assert(!queue@.contains(w));
                        assert forall|a: int, b: int| 0 <= a < b < queue@.push(w).len() implies queue@.push(w)[a]
                            != queue@.push(w)[b] by {
                            if b == queue@.len() {
                                assert(queue@.contains(queue@[a]));
                            }
                        }
                        assert forall|k: int| 0 <= k < queue@.push(w).len() implies #[trigger] queue@.push(w)[k] < n by {
                            if k < queue@.len() {
                                assert(queue@.push(w)[k] == queue@[k]);
                            }
                        }
                        crate::symmetric::lemma_distinct_bounded_len(queue@.push(w), n as nat);
                        lemma_xor_one(e);
                    }
                    let ghost old_queue = queue@;
                    let ghost old_dist = dist@;
                    let dv = dist[v];
                    dist.set(w, dv + 1);
                    queue.push(w);
                    proof {
                        self.lemma_bfs_step(s, old_dist, dist@, old_queue, queue@, head as int, v, e, w);
                    }
                }
                j = j + 1;
            }
        }
        proof {
            self.lemma_arcs();
            if dist@[t as int] < usize::MAX {
                lemma_level_path(to, cap, dist@, s as int, t as int);
            } else {
                reveal(arcs_listed);
                let edges = self.spec_edges();
                let r = Seq::new(n as nat, |u: int| dist@[u] < usize::MAX);
                if residual_reachable(edges, s as int, t as int) {
                    let p = choose|p: Seq<int>| is_residual_walk(edges, p, s as int, t as int);
                    assert forall|e: int|
                        0 <= e < 2 * edges.len() && arc_residual(edges, e) > 0 && 0 <= arc_tail(edges, e) < r.len()
                            && r[arc_tail(edges, e)] implies 0 <= #[trigger] arc_head(edges, e) < r.len() && r[arc_head(
                        edges,
                        e,
                    )] by {
                        let u = to[rev(e)] as int;
                        assert(queue@.contains(u as usize));
                        let k = choose|k: int| 0 <= k < queue@.len() && queue@[k] == u as usize;
                        assert(adj[u]@.contains(e as usize));
                        let i = choose|i: int| 0 <= i < adj[u]@.len() && adj[u]@[i] == e as usize;
                        assert(cap[adj[queue@[k] as int]@[i] as int] > 0);
                    }
                    lemma_closed_reach(edges, r, p, s as int, t as int);
                }
            }
            assert forall|v: int| 0 <= v < dist@.len() && #[trigger] dist@[v] < usize::MAX implies dist@[v]
                < dist@.len() by {
                assert(queue@.contains(v as usize));
                let k = choose|k: int| 0 <= k < queue@.len() && queue@[k] == v as usize;
                assert(dist@[queue@[k] as int] <= k);
            }
        }
    }

    /// One discovery of the breadth-first search keeps its invariant.
    proof fn lemma_bfs_step(
        &self,
        s: usize,
        old_dist: Seq<usize>,
        dist: Seq<usize>,
        old_queue: Seq<usize>,
        queue: Seq<usize>,
        head: int,
        v: usize,
        e: usize,
        w: usize,
    )
        requires
            self.wf(),
            self.adjacency@.len() < usize::MAX,
            s < self.adjacency@.len(),
            old_dist.len() == self.adjacency@.len(),
            1 <= head <= old_queue.len() <= self.adjacency@.len(),
            v == old_queue[head - 1],
            v < self.adjacency@.len(),
            0 <= e < self.to@.len(),
            self.to@[rev(e as int)] == v,
            self.to@[e as int] == w,
            w < self.adjacency@.len(),
            self.cap@[e as int] > 0,
            old_dist[w as int] == usize::MAX,
            old_dist[v as int] <= head - 1,
            old_dist[s as int] == 0,
            !old_queue.contains(w),
            old_queue.len() < self.adjacency@.len(),
            dist == old_dist.update(w as int, (old_dist[v as int] + 1) as usize),
            queue == old_queue.push(w),
            forall|k: int| 0 <= k < old_queue.len() ==> #[trigger] old_queue[k] < self.adjacency@.len(),
            forall|a: int, b: int| 0 <= a < b < old_queue.len() ==> old_queue[a] != old_queue[b],
            forall|u: int| 0 <= u < self.adjacency@.len() ==> (#[trigger] old_dist[u] < usize::MAX <==> old_queue.contains(u as usize)),
            forall|k: int| 0 <= k < old_queue.len() ==> #[trigger] old_dist[old_queue[k] as int] <= k,
            forall|u: int|
                0 <= u < self.adjacency@.len() && u != s && #[trigger] old_dist[u] < usize::MAX ==> has_parent(
                    self.to@,
                    self.cap@,
                    old_dist,
                    u,
                ),
        ensures
            dist[s as int] == 0,
            forall|k: int| 0 <= k < queue.len() ==> #[trigger] queue[k] < self.adjacency@.len(),
            forall|a: int, b: int| 0 <= a < b < queue.len() ==> queue[a] != queue[b],
            forall|u: int| 0 <= u < self.adjacency@.len() ==> (#[trigger] dist[u] < usize::MAX <==> queue.contains(u as usize)),
            forall|k: int| 0 <= k < queue.len() ==> #[trigger] dist[queue[k] as int] <= k,
            forall|u: int|
                0 <= u < self.adjacency@.len() && u != s && #[trigger] dist[u] < usize::MAX ==> has_parent(
                    self.to@,
                    self.cap@,
                    dist,
                    u,
                ),
    {
        let to = self.to@;
        let cap = self.cap@;
        let n = self.adjacency@.len();
        assert(w != s) by {
            assert(old_dist[s as int] < usize::MAX);
        }
        assert(old_dist[v as int] < usize::MAX);
        assert forall|a: int, b: int| 0 <= a < b < queue.len() implies queue[a] != queue[b] by {
            if b == old_queue.len() {
                assert(old_queue.contains(old_queue[a]));
            }
        }
        assert forall|u: int| 0 <= u < n implies (#[trigger] dist[u] < usize::MAX <==> queue.contains(u as usize)) by {
            lemma_push_contains(old_queue, w, u as usize);
        }
        assert forall|k: int| 0 <= k < queue.len() implies #[trigger] dist[queue[k] as int] <= k by {
            if k < old_queue.len() {
                assert(queue[k] == old_queue[k]);
                assert(old_queue.contains(old_queue[k]));
                assert(old_queue[k] != w);
            }
        }
        assert forall|u: int|
            0 <= u < n && u != s && #[trigger] dist[u] < usize::MAX implies has_parent(to, cap, dist, u) by {
            reveal(has_parent);
            if u == w {
                assert(level_arc(to, cap, dist, e as int));
            } else {
                assert(old_dist[u] < usize::MAX);
                assert(has_parent(to, cap, old_dist, u));
                let a = choose|a: int| level_arc(to, cap, old_dist, a) && #[trigger] to[a] == u;
                assert(to[rev(a)] < n);
                assert(old_dist[to[rev(a)] as int] < usize::MAX);
                assert(to[rev(a)] != w);
                assert(level_arc(to, cap, dist, a));
            }
        }
    }
}

impl MaxFlow {
    /// Pushes along one walk from `s` to `t` of the level graph of `dist`, found from the pointers
    /// `iter`, as much as possible up to `limit`, and returns the amount: `0` exactly when `t` is
    /// unreachable from `s` in the level graph.
    fn augment(
        &mut self,
        s: usize,
        t: usize,
        limit: u64,
        dist: &Vec<usize>,
        iter: &mut Vec<usize>,
        path: &mut Vec<usize>,
    ) -> (d: u64)
        requires
            old(self).wf(),
            old(self).adjacency@.len() < usize::MAX,
            s < old(self).adjacency@.len(),
            t < old(self).adjacency@.len(),
            s != t,
            limit > 0,
            dist@.len() == old(self).adjacency@.len(),
            old(iter)@.len() == old(self).adjacency@.len(),
            dist@[s as int] == 0,
            forall|v: int|
                0 <= v < dist@.len() && #[trigger] dist@[v] < usize::MAX ==> dist@[v] < dist@.len(),
            forall|v: int| 0 <= v < old(iter)@.len() ==> #[trigger] old(iter)@[v] <= old(self).adjacency@[v]@.len(),
            dead_before(old(self).to@, old(self).cap@, old(self).adjacency@, dist@, old(iter)@, t as int),
        ensures
            final(self).wf(),
            final(self).adjacency == old(self).adjacency,
            final(self).to == old(self).to,
            final(self).capacity == old(self).capacity,
            final(iter)@.len() == old(iter)@.len(),
            forall|v: int| 0 <= v < final(iter)@.len() ==> #[trigger] final(iter)@[v] <= final(self).adjacency@[v]@.len(),
            dead_before(final(self).to@, final(self).cap@, final(self).adjacency@, dist@, final(iter)@, t as int),
            d <= limit,
            d == 0 ==> !level_reaches(old(self).to@, old(self).cap@, dist@, s as int, t as int),
            forall|v: int|
                net_outflow(final(self).spec_edges(), v) == net_outflow(old(self).spec_edges(), v) + (if v == s {
                    d as int
                } else {
                    0
                }) - (if v == t {
                    d as int
                } else {
                    0
                }),
    {
        if !self.find_path(s, t, dist, iter, path) {
            return 0;
        }
        let mut d = limit;
        let mut k: usize = 0;
        while k < path.len()
            invariant
                self.wf(),
                k <= path@.len(),
                0 < d <= limit,
                is_level_walk(self.to@, self.cap@, dist@, path@, s as int, t as int),
                forall|j: int| 0 <= j < k ==> d <= self.cap@[#[trigger] path@[j] as int],
            decreases path@.len() - k,
        {
            proof {
                assert(level_arc(self.to@, self.cap@, dist@, path@[k as int] as int));
            }
            let c = self.cap[path[k]];
            if c < d {
                d = c;
            }
            k = k + 1;
        }
        let ghost cap0 = self.cap@;
        self.push_path(s, t, Ghost(dist@), path, d);
        proof {
            lemma_dead_shrink(self.to@, cap0, self.cap@, self.adjacency@, dist@, iter@, t as int);
        }
        d
    }

    /// Pushes along paths from `s` to `t` in the residual graph, as much as possible up to `limit`,
    /// and returns the total amount. The push keeps the net outflow of every vertex other than `s`
    /// and `t`, and raises that of `s` by the amount; when the amount is less than `limit`, `t` is
    /// no longer reachable from `s` in the residual graph (so a flow becomes a maximum one).
    pub fn flow_limit(&mut self, s: usize, t: usize, limit: u64) -> (r: u64)
        requires
            old(self).wf(),
            old(self).spec_n() < usize::MAX,
            s < old(self).spec_n(),
            t < old(self).spec_n(),
            s != t,
        ensures
            final(self).wf(),
            final(self).spec_n() == old(self).spec_n(),
            final(self).spec_edges().len() == old(self).spec_edges().len(),
            forall|i: int|
                0 <= i < old(self).spec_edges().len() ==> (#[trigger] final(self).spec_edges()[i]).0
                    == old(self).spec_edges()[i].0 && final(self).spec_edges()[i].1 == old(self).spec_edges()[i].1
                    && final(self).spec_edges()[i].2 == old(self).spec_edges()[i].2,
            r <= limit,
            forall|v: int|
                net_outflow(final(self).spec_edges(), v) == net_outflow(old(self).spec_edges(), v) + (if v == s {
                    r as int
                } else {
                    0
                }) - (if v == t {
                    r as int
                } else {
                    0
                }),
            r < limit ==> !residual_reachable(final(self).spec_edges(), s as int, t as int),
    {
        let n = self.adjacency.len();
        let ghost old_self = *self;
        let mut total: u64 = 0;
        let mut dist: Vec<usize> = vec![usize::MAX; n];
        let mut iter: Vec<usize> = vec![0; n];
        let mut queue: Vec<usize> = Vec::with_capacity(n);
        let mut path: Vec<usize> = Vec::new();
        let mut done = false;
        while !done && total < limit
            invariant
                self.wf(),
                n == self.adjacency@.len(),
                n < usize::MAX,
                s < n,
                t < n,
                s != t,
                self.adjacency == old_self.adjacency,
                self.to == old_self.to,
                self.capacity == old_self.capacity,
                old_self == *old(self),
                dist@.len() == n,
                iter@.len() == n,
                total <= limit,
                forall|v: int|
                    net_outflow(self.spec_edges(), v) == net_outflow(old_self.spec_edges(), v) + (if v == s {
                        total as int
                    } else {
                        0
                    }) - (if v == t {
                        total as int
                    } else {
                        0
                    }),
                done ==> !residual_reachable(self.spec_edges(), s as int, t as int),
            decreases limit - total, (if done {
                0int
            } else {
                1int
            }),
        {
            self.bfs_levels(s, t, &mut dist, &mut queue);
            if dist[t] == usize::MAX {
                done = true;
            } else {
                let mut i: usize = 0;
                while i < n
                    invariant
                        n == iter@.len(),
                        i <= n,
                        forall|u: int| 0 <= u < i ==> #[trigger] iter@[u] == 0,
                    decreases n - i,
                {
                    iter.set(i, 0);
                    i = i + 1;
                }
                proof {
                    reveal(dead_before);
                }
                let ghost total0 = total;
                let mut going = true;
                while going && total < limit
                    invariant
                        self.wf(),
                        n == self.adjacency@.len(),
                        n < usize::MAX,
                        s < n,
                        t < n,
                        s != t,
                        self.adjacency == old_self.adjacency,
                        self.to == old_self.to,
                        self.capacity == old_self.capacity,
                        dist@.len() == n,
                        dist@[s as int] == 0,
                        forall|v: int|
                            0 <= v < dist@.len() && #[trigger] dist@[v] < usize::MAX ==> dist@[v] < dist@.len(),
                        iter@.len() == n,
                        forall|v: int| 0 <= v < iter@.len() ==> #[trigger] iter@[v] <= self.adjacency@[v]@.len(),
                        dead_before(self.to@, self.cap@, self.adjacency@, dist@, iter@, t as int),
                        total0 < limit,
                        total0 <= total <= limit,
                        total == total0 ==> going && level_reaches(self.to@, self.cap@, dist@, s as int, t as int),
                        forall|v: int|
                            net_outflow(self.spec_edges(), v) == net_outflow(old_self.spec_edges(), v) + (if v == s {
                                total as int
                            } else {
                                0
                            }) - (if v == t {
                                total as int
                            } else {
                                0
                            }),
                    decreases limit - total, (if going {
                        1int
                    } else {
                        0int
                    }),
                {
                    let pushed = self.augment(s, t, limit - total, &dist, &mut iter, &mut path);
                    if pushed == 0 {
                        going = false;
                    } else {
                        total = total + pushed;
                    }
                }
            }
        }
        proof {
            assert forall|i: int| 0 <= i < old_self.spec_edges().len() implies (#[trigger] self.spec_edges()[i]).0
                == old_self.spec_edges()[i].0 && self.spec_edges()[i].1 == old_self.spec_edges()[i].1
                && self.spec_edges()[i].2 == old_self.spec_edges()[i].2 by {}
        }
        total
    }

    /// Pushes along paths from `s` to `t` in the residual graph until `t` is unreachable, and
    /// returns the total amount, as by `flow_limit(s, t, u64::MAX)`.
    pub fn flow(&mut self, s: usize, t: usize) -> (r: u64)
        requires
            old(self).wf(),
            old(self).spec_n() < usize::MAX,
            s < old(self).spec_n(),
            t < old(self).spec_n(),
            s != t,
        ensures
            final(self).wf(),
            final(self).spec_n() == old(self).spec_n(),
            final(self).spec_edges().len() == old(self).spec_edges().len(),
            forall|i: int|
                0 <= i < old(self).spec_edges().len() ==> (#[trigger] final(self).spec_edges()[i]).0
                    == old(self).spec_edges()[i].0 && final(self).spec_edges()[i].1 == old(self).spec_edges()[i].1
                    && final(self).spec_edges()[i].2 == old(self).spec_edges()[i].2,
            forall|v: int|
                net_outflow(final(self).spec_edges(), v) == net_outflow(old(self).spec_edges(), v) + (if v == s {
                    r as int
                } else {
                    0
                }) - (if v == t {
                    r as int
                } else {
                    0
                }),
            r < u64::MAX ==> !residual_reachable(final(self).spec_edges(), s as int, t as int),
    {
        self.flow_limit(s, t, u64::MAX)
    }
}

} // verus!
