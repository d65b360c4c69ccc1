//! Triangles and short cycles of undirected graphs, counted per edge.
use vstd::prelude::*;

verus! {

broadcast use vstd::seq_lib::group_to_multiset_ensures;

/// The edge `e` joins `x` and `y`.
pub open spec fn joins(e: (usize, usize), x: int, y: int) -> bool {
    (e.0 == x && e.1 == y) || (e.0 == y && e.1 == x)
}

/// The number of edges of `edges` joining `x` and `y`.
pub open spec fn multiplicity(edges: Seq<(usize, usize)>, x: int, y: int) -> nat
    decreases edges.len(),
{
    if edges.len() == 0 {
        0
    } else {
        multiplicity(edges.drop_last(), x, y) + if joins(edges.last(), x, y) {
            1nat
        } else {
            0nat
        }
    }
}

/// `f(lo) + ... + f(hi - 1)`.
pub open spec fn sum_range(f: spec_fn(int) -> int, lo: int, hi: int) -> int
    decreases hi - lo,
{
    if hi <= lo {
        0
    } else {
        sum_range(f, lo, hi - 1) + f(hi - 1)
    }
}

/// The number of `C3` through the edge joining `a` and `b`: a third vertex `c` and an edge joining
/// `b` and `c` and one joining `c` and `a`, over every choice.
pub open spec fn c3_through(edges: Seq<(usize, usize)>, n: int, a: int, b: int) -> int {
    sum_range(|c: int| (multiplicity(edges, a, c) * multiplicity(edges, b, c)) as int, 0, n)
}

/// Every edge joins two distinct vertices of `[0, n)`.
pub open spec fn valid_edges(n: int, edges: Seq<(usize, usize)>) -> bool {
    forall|i: int| 0 <= i < edges.len() ==> #[trigger] edges[i].0 < n && edges[i].1 < n && edges[i].0 != edges[i].1
}

/// The endpoints of `e`, the smaller first.
pub open spec fn ends_of(e: (usize, usize)) -> (usize, usize) {
    if e.0 <= e.1 {
        (e.0, e.1)
    } else {
        (e.1, e.0)
    }
}

/// `a` before `b` in lexicographic order.
pub open spec fn pair_lt(a: (usize, usize), b: (usize, usize)) -> bool {
    a.0 < b.0 || (a.0 == b.0 && a.1 < b.1)
}

/// `a` not after `b` in lexicographic order.
pub open spec fn triple_le(a: (usize, usize, usize), b: (usize, usize, usize)) -> bool {
    a.0 < b.0 || (a.0 == b.0 && (a.1 < b.1 || (a.1 == b.1 && a.2 <= b.2)))
}

/// Sorts `v` by `<[T]>::sort_unstable` of std: afterwards `v` holds the same items in
/// non-decreasing order, tuples being ordered lexicographically.
#[verifier::external_body]
fn sort_triples(v: &mut Vec<(usize, usize, usize)>)
    ensures
        final(v)@.to_multiset() == old(v)@.to_multiset(),
        forall|i: int, j: int| 0 <= i <= j < final(v)@.len() ==> triple_le(#[trigger] final(v)@[i], #[trigger] final(v)@[j]),
{
    v.sort_unstable()
}

/// The number of items of `s` whose first two components are `(x, y)`.
spec fn count_key(s: Seq<(usize, usize, usize)>, x: int, y: int) -> nat
    decreases s.len(),
{
    if s.len() == 0 {
        0
    } else {
        count_key(s.drop_last(), x, y) + if s.last().0 == x && s.last().1 == y {
            1nat
        } else {
            0nat
        }
    }
}

proof fn lemma_count_key_concat(a: Seq<(usize, usize, usize)>, b: Seq<(usize, usize, usize)>, x: int, y: int)
    ensures
        count_key(a + b, x, y) == count_key(a, x, y) + count_key(b, x, y),
    decreases b.len(),
{
    if b.len() == 0 {
        assert(a + b =~= a);
    } else {
        lemma_count_key_concat(a, b.drop_last(), x, y);
        assert((a + b).drop_last() =~= a + b.drop_last());
    }
}

/// Rearrangements have the same number of items of each key.
proof fn lemma_count_key_perm(a: Seq<(usize, usize, usize)>, b: Seq<(usize, usize, usize)>, x: int, y: int)
    requires
        a.to_multiset() == b.to_multiset(),
    ensures
        count_key(a, x, y) == count_key(b, x, y),
    decreases a.len(),
{
    broadcast use vstd::multiset::group_multiset_axioms;

    if a.len() == 0 {
        assert(b.to_multiset().len() == 0);
        if b.len() > 0 {
            assert(b.to_multiset().count(b[0]) > 0);
        }
    } else {
        let z = a.last();
        assert(a =~= a.drop_last().push(z));
        assert(a.to_multiset() == a.drop_last().to_multiset().insert(z));
        assert(b.to_multiset().count(z) > 0);
        assert(b.contains(z));
        let j = choose|j: int| 0 <= j < b.len() && b[j] == z;
        let b2 = b.remove(j);
        assert(b2.to_multiset() == b.to_multiset().remove(z));
        assert(a.drop_last().to_multiset() =~= b2.to_multiset());
        lemma_count_key_perm(a.drop_last(), b2, x, y);
        let l = b.subrange(0, j);
        let r = b.subrange(j + 1, b.len() as int);
        assert(b =~= l + seq![z] + r);
        assert(b2 =~= l + r);
        lemma_count_key_concat(l + seq![z], r, x, y);
        lemma_count_key_concat(l, seq![z], x, y);
        lemma_count_key_concat(l, r, x, y);
        assert(seq![z].drop_last() =~= Seq::<(usize, usize, usize)>::empty());
        assert(seq![z].last() == z);
        assert(count_key(seq![z].drop_last(), x, y) == 0);
        assert(count_key(seq![z], x, y) == if z.0 == x && z.1 == y {
            1nat
        } else {
            0nat
        });
        assert(count_key(b, x, y) == count_key(l, x, y) + count_key(seq![z], x, y) + count_key(r, x, y));
        assert(count_key(a, x, y) == count_key(a.drop_last(), x, y) + count_key(seq![z], x, y));
    }
}

/// The items `(ends_of(edges[i]), i)`.
spec fn keyed(edges: Seq<(usize, usize)>) -> Seq<(usize, usize, usize)> {
    Seq::new(edges.len(), |i: int| (ends_of(edges[i]).0, ends_of(edges[i]).1, i as usize))
}

/// Counting the keys of `keyed(edges)` counts the edges.
proof fn lemma_count_keyed(edges: Seq<(usize, usize)>, x: int, y: int)
    requires
        x < y,
        edges.len() <= usize::MAX,
    ensures
        count_key(keyed(edges), x, y) == multiplicity(edges, x, y),
    decreases edges.len(),
{
    if edges.len() > 0 {
        lemma_count_keyed(edges.drop_last(), x, y);
        assert(keyed(edges).drop_last() =~= keyed(edges.drop_last()));
    }
}

/// Parallel edges grouped in classes: `ends[k]` are the endpoints of the class `k`, the smaller
/// first, in increasing order, `mult[k]` its number of edges, and `class[i]` the class of
/// `edges[i]`.
spec fn grouped(
    edges: Seq<(usize, usize)>,
    class: Seq<usize>,
    ends: Seq<(usize, usize)>,
    mult: Seq<usize>,
) -> bool {
    &&& class.len() == edges.len()
    &&& mult.len() == ends.len()
    &&& forall|i: int| 0 <= i < edges.len() ==> #[trigger] class[i] < ends.len() && ends[class[i] as int]
        == ends_of(edges[i])
    &&& forall|k: int| 0 <= k < ends.len() ==> #[trigger] ends[k].0 < ends[k].1 && mult[k] == multiplicity(
        edges,
        ends[k].0 as int,
        ends[k].1 as int,
    ) && mult[k] > 0
    &&& forall|k: int, l: int| 0 <= k < l < ends.len() ==> #[trigger] ends[k] != #[trigger] ends[l]
}

/// Some item of `t` has the third component `j`.
spec fn has_index(t: Seq<(usize, usize, usize)>, j: int) -> bool {
    exists|a: int| 0 <= a < t.len() && (#[trigger] t[a]).2 == j
}

/// A rearrangement `t` of `keyed(edges)`: each item is the item of `keyed(edges)` at its third
/// component, and the third components are the indices of the edges, each once.
proof fn lemma_rearranged_keys(n: int, edges: Seq<(usize, usize)>, t: Seq<(usize, usize, usize)>)
    requires
        valid_edges(n, edges),
        edges.len() <= usize::MAX,
        t.to_multiset() == keyed(edges).to_multiset(),
    ensures
        t.len() == edges.len(),
        forall|a: int| 0 <= a < t.len() ==> (#[trigger] t[a]).2 < edges.len() && keyed(edges)[t[a].2 as int]
            == t[a] && t[a].0 < t[a].1 && t[a].1 < n,
        forall|a: int, b: int| 0 <= a < t.len() && 0 <= b < t.len() && a != b ==> (#[trigger] t[a]).2 != (
        #[trigger] t[b]).2,
        forall|j: int| 0 <= j < edges.len() ==> #[trigger] has_index(t, j),
{
    broadcast use vstd::multiset::group_multiset_axioms;

    let u = keyed(edges);
    assert(t.len() == u.len()) by {
        assert(t.to_multiset().len() == t.len());
        assert(u.to_multiset().len() == u.len());
    }
    assert forall|a: int| 0 <= a < t.len() implies (#[trigger] t[a]).2 < edges.len() && u[t[a].2 as int] == t[a]
        && t[a].0 < t[a].1 && t[a].1 < n by {
        assert(t.to_multiset().count(t[a]) > 0);
        assert(u.contains(t[a]));
        let j = choose|j: int| 0 <= j < u.len() && u[j] == t[a];
        assert(edges[j].0 < n);
    }
    assert(u.no_duplicates()) by {
        assert forall|a: int, b: int| 0 <= a < u.len() && 0 <= b < u.len() && a != b implies u[a] != u[b] by {
            assert(u[a].2 == a);
            assert(u[b].2 == b);
        }
    }
    u.lemma_multiset_has_no_duplicates();
    assert forall|x| t.to_multiset().count(x) <= 1 by {}
    t.lemma_multiset_has_no_duplicates_conv();
    assert forall|a: int, b: int| 0 <= a < t.len() && 0 <= b < t.len() && a != b implies (#[trigger] t[a]).2 != (
    #[trigger] t[b]).2 by {
        if t[a].2 == t[b].2 {
            assert(t[a] == u[t[a].2 as int]);
            assert(t[b] == u[t[b].2 as int]);
        }
    }
    assert forall|j: int| 0 <= j < edges.len() implies #[trigger] has_index(t, j) by {
        assert(u.to_multiset().count(u[j]) > 0);
        assert(t.contains(u[j]));
        let a = choose|a: int| 0 <= a < t.len() && t[a] == u[j];
        assert(t[a].2 == j);
    }
}

/// At most every item has the key `(x, y)`.
proof fn lemma_count_key_le(s: Seq<(usize, usize, usize)>, x: int, y: int)
    ensures
        count_key(s, x, y) <= s.len(),
    decreases s.len(),
{
    if s.len() > 0 {
        lemma_count_key_le(s.drop_last(), x, y);
    }
}

/// No item of `s` has the key `(x, y)`.
proof fn lemma_count_key_none(s: Seq<(usize, usize, usize)>, x: int, y: int)
    requires
        forall|a: int| 0 <= a < s.len() ==> !((#[trigger] s[a]).0 == x && s[a].1 == y),
    ensures
        count_key(s, x, y) == 0,
    decreases s.len(),
{
    if s.len() > 0 {
        lemma_count_key_none(s.drop_last(), x, y);
    }
}

/// Groups the parallel edges of `edges` in classes.
fn group_edges(n: usize, edges: &[(usize, usize)]) -> (res: (Vec<usize>, Vec<(usize, usize)>, Vec<usize>))
    requires
        valid_edges(n as int, edges@),
    ensures
        grouped(edges@, res.0@, res.1@, res.2@),
        res.1@.len() <= edges@.len(),
        forall|k: int| 0 <= k < res.1@.len() ==> #[trigger] res.1@[k].1 < n,
{
    let m = edges.len();
    let mut sorted: Vec<(usize, usize, usize)> = Vec::new();
    let mut i: usize = 0;
    while i < m
        invariant
            i <= m,
            m == edges@.len(),
            sorted@ == keyed(edges@).take(i as int),
        decreases m - i,
    {
        let (u, v) = edges[i];
        if u <= v {
            sorted.push((u, v, i));
        } else {
            sorted.push((v, u, i));
        }
        i = i + 1;
        proof {
            assert(sorted@ =~= keyed(edges@).take(i as int));
        }
    }
    assert(sorted@ =~= keyed(edges@));
    let ghost unsorted = sorted@;
    sort_triples(&mut sorted);
    let ghost t = sorted@;
    proof {
        assert forall|x: int, y: int| x < y implies count_key(t, x, y) == multiplicity(edges@, x, y) by {
            lemma_count_key_perm(t, unsorted, x, y);
            lemma_count_keyed(edges@, x, y);
        }
    }
    let mut class: Vec<usize> = vec![0; m];
    let mut ends: Vec<(usize, usize)> = Vec::new();
    let mut mult: Vec<usize> = Vec::new();
    proof {
        lemma_rearranged_keys(n as int, edges@, t);
    }
    let mut k: usize = 0;
    while k < m
        invariant
            k <= m,
            m == edges@.len(),
            t == sorted@,
            t.len() == m,
            forall|a: int| 0 <= a < t.len() ==> (#[trigger] t[a]).2 < edges@.len() && keyed(edges@)[t[a].2 as int]
                == t[a] && t[a].0 < t[a].1 && t[a].1 < n,
            forall|a: int, b: int| 0 <= a < t.len() && 0 <= b < t.len() && a != b ==> (#[trigger] t[a]).2 != (
            #[trigger] t[b]).2,
            forall|a: int, b: int| 0 <= a <= b < t.len() ==> triple_le(#[trigger] t[a], #[trigger] t[b]),
            class@.len() == m,
            mult@.len() == ends@.len(),
            ends@.len() <= k,
            k == 0 <==> ends@.len() == 0,
            k > 0 ==> ends@.last() == (t[k - 1].0, t[k - 1].1),
            forall|c: int| 0 <= c < ends@.len() ==> #[trigger] ends@[c].0 < ends@[c].1 && ends@[c].1 < n,
            forall|c: int, d: int| 0 <= c < d < ends@.len() ==> pair_lt(#[trigger] ends@[c], #[trigger] ends@[d]),
            forall|c: int| 0 <= c < ends@.len() ==> #[trigger] mult@[c] > 0 || c == ends@.len() - 1,
            k > 0 ==> mult@.last() > 0,
            forall|c: int|
                0 <= c < ends@.len() ==> #[trigger] mult@[c] == count_key(
                    t.take(k as int),
                    ends@[c].0 as int,
                    ends@[c].1 as int,
                ),
            forall|a: int|
                0 <= a < k ==> (#[trigger] class@[t[a].2 as int]) < ends@.len() && ends@[class@[t[a].2 as int] as int]
                    == (t[a].0, t[a].1),
        decreases m - k,
    {
        let (u, v, i) = sorted[k];
        let ghost before = t.take(k as int);
        if k == 0 || sorted[k - 1].0 != u || sorted[k - 1].1 != v {
            proof {
                if k > 0 {
                    assert(triple_le(t[k - 1], t[k as int]));
                    assert forall|a: int| 0 <= a < before.len() implies !((#[trigger] before[a]).0 == u && before[a].1
                        == v) by {
                        assert(triple_le(t[a], t[k - 1]));
                    }
                }
                lemma_count_key_none(before, u as int, v as int);
            }
            ends.push((u, v));
            mult.push(0);
        }
        let c = ends.len() - 1;
        proof {
            assert(t.take(k + 1) =~= before.push(t[k as int]));
            assert(t.take(k + 1).drop_last() =~= before);
            assert forall|d: int| 0 <= d < c implies !(ends@[d].0 == u && ends@[d].1 == v) by {
                assert(pair_lt(ends@[d], ends@[c as int]));
            }
        }
        proof {
            lemma_count_key_le(before, u as int, v as int);
        }
        class.set(i, c);
        mult.set(c, mult[c] + 1);
        k = k + 1;
    }
    proof {
        assert(t.take(m as int) =~= t);
        assert forall|j: int| 0 <= j < m implies #[trigger] class@[j] < ends@.len() && ends@[class@[j] as int]
            == ends_of(edges@[j]) by {
            assert(has_index(t, j));
            let a = choose|a: int| 0 <= a < t.len() && (#[trigger] t[a]).2 == j;
            assert(keyed(edges@)[j] == t[a]);
        }
    }
    (class, ends, mult)
}

/// Edges joining `x` and `y` exist only between distinct vertices of `[0, n)`, and each is an
/// edge of `edges` joining them.
proof fn lemma_multiplicity_pos(n: int, edges: Seq<(usize, usize)>, x: int, y: int)
    requires
        valid_edges(n, edges),
        multiplicity(edges, x, y) > 0,
    ensures
        exists|i: int| 0 <= i < edges.len() && #[trigger] joins(edges[i], x, y),
        0 <= x < n,
        0 <= y < n,
        x != y,
    decreases edges.len(),
{
    let d = edges.drop_last();
    if joins(edges.last(), x, y) {
        assert(joins(edges[edges.len() - 1], x, y));
    } else {
        assert(valid_edges(n, d)) by {
            assert forall|i: int| 0 <= i < d.len() implies #[trigger] d[i].0 < n && d[i].1 < n && d[i].0 != d[i].1 by {
                assert(d[i] == edges[i]);
            }
        }
        lemma_multiplicity_pos(n, d, x, y);
        let i = choose|i: int| 0 <= i < d.len() && #[trigger] joins(d[i], x, y);
        assert(joins(edges[i], x, y));
    }
}

/// The number of edges joining `x` and `y` is that joining `y` and `x`.
proof fn lemma_multiplicity_symmetric(edges: Seq<(usize, usize)>, x: int, y: int)
    ensures
        multiplicity(edges, x, y) == multiplicity(edges, y, x),
    decreases edges.len(),
{
    if edges.len() > 0 {
        lemma_multiplicity_symmetric(edges.drop_last(), x, y);
    }
}

/// Sums of functions that agree on `[lo, hi)` agree.
proof fn lemma_sum_ext(f: spec_fn(int) -> int, g: spec_fn(int) -> int, lo: int, hi: int)
    requires
        forall|c: int| lo <= c < hi ==> #[trigger] f(c) == g(c),
    ensures
        sum_range(f, lo, hi) == sum_range(g, lo, hi),
    decreases hi - lo,
{
    if hi > lo {
        lemma_sum_ext(f, g, lo, hi - 1);
    }
}

/// Changing a function at one point of `[lo, hi)` changes its sum by the difference there.
proof fn lemma_sum_update(f: spec_fn(int) -> int, g: spec_fn(int) -> int, lo: int, hi: int, c0: int)
    requires
        lo <= c0 < hi,
        forall|c: int| lo <= c < hi && c != c0 ==> #[trigger] f(c) == g(c),
    ensures
        sum_range(g, lo, hi) == sum_range(f, lo, hi) + g(c0) - f(c0),
    decreases hi - lo,
{
    if hi - 1 == c0 {
        lemma_sum_ext(f, g, lo, hi - 1);
    } else {
        lemma_sum_update(f, g, lo, hi - 1, c0);
    }
}

/// A sum of terms each at most the corresponding one is at most the other sum.
proof fn lemma_sum_le(f: spec_fn(int) -> int, g: spec_fn(int) -> int, lo: int, hi: int)
    requires
        forall|c: int| lo <= c < hi ==> #[trigger] f(c) <= g(c),
    ensures
        sum_range(f, lo, hi) <= sum_range(g, lo, hi),
    decreases hi - lo,
{
    if hi > lo {
        lemma_sum_le(f, g, lo, hi - 1);
    }
}

/// A sum of non-negative terms is non-negative.
proof fn lemma_sum_nonneg(f: spec_fn(int) -> int, lo: int, hi: int)
    requires
        forall|c: int| lo <= c < hi ==> #[trigger] f(c) >= 0,
    ensures
        sum_range(f, lo, hi) >= 0,
    decreases hi - lo,
{
    if hi > lo {
        lemma_sum_nonneg(f, lo, hi - 1);
    }
}

/// The number of `C3` through an edge does not depend on the order of its ends.
proof fn lemma_c3_symmetric(edges: Seq<(usize, usize)>, n: int, a: int, b: int)
    ensures
        c3_through(edges, n, a, b) == c3_through(edges, n, b, a),
{
    let f = |c: int| (multiplicity(edges, a, c) * multiplicity(edges, b, c)) as int;
    let g = |c: int| (multiplicity(edges, b, c) * multiplicity(edges, a, c)) as int;
    assert forall|c: int| 0 <= c < n implies #[trigger] f(c) == g(c) by {
        vstd::arithmetic::mul::lemma_mul_is_commutative(
            multiplicity(edges, a, c) as int,
            multiplicity(edges, b, c) as int,
        );
    }
    lemma_sum_ext(f, g, 0, n);
}

/// `a` comes before `b` in the order by degree, then by number.
spec fn rank_lt(deg: Seq<usize>, a: int, b: int) -> bool {
    deg[a] < deg[b] || (deg[a] == deg[b] && a < b)
}

/// The three vertices `a`, `b`, `c` in increasing rank.
spec fn order3(deg: Seq<usize>, a: int, b: int, c: int) -> (int, int, int) {
    if rank_lt(deg, a, b) {
        if rank_lt(deg, b, c) {
            (a, b, c)
        } else if rank_lt(deg, a, c) {
            (a, c, b)
        } else {
            (c, a, b)
        }
    } else {
        if rank_lt(deg, a, c) {
            (b, a, c)
        } else if rank_lt(deg, b, c) {
            (b, c, a)
        } else {
            (c, b, a)
        }
    }
}

/// `out[x]` has an entry to `y`.
spec fn has_entry(out: Seq<Vec<(usize, usize)>>, x: int, y: int) -> bool {
    exists|p: int| 0 <= p < out[x]@.len() && (#[trigger] out[x]@[p]).0 == y
}

/// The position of the entry of `out[x]` to `y`.
spec fn pos(out: Seq<Vec<(usize, usize)>>, x: int, y: int) -> int {
    choose|p: int| 0 <= p < out[x]@.len() && (#[trigger] out[x]@[p]).0 == y
}

/// Each class of parallel edges, once, as an entry `(w, k)` of `out[v]` from its end `v` of lower
/// rank to its other end `w`.
spec fn oriented(
    edges: Seq<(usize, usize)>,
    n: int,
    ends: Seq<(usize, usize)>,
    deg: Seq<usize>,
    out: Seq<Vec<(usize, usize)>>,
) -> bool {
    &&& deg.len() == n
    &&& out.len() == n
    &&& forall|v: int, p: int|
        0 <= v < n && 0 <= p < out[v]@.len() ==> {
            let (w, k) = #[trigger] out[v]@[p];
            &&& w < n
            &&& k < ends.len()
            &&& rank_lt(deg, v, w as int)
            &&& (v < w ==> ends[k as int].0 == v && ends[k as int].1 == w)
            &&& (w < v ==> ends[k as int].0 == w && ends[k as int].1 == v)
        }
    &&& forall|v: int, p: int, q: int|
        0 <= v < n && 0 <= p < out[v]@.len() && 0 <= q < out[v]@.len() && p != q ==> (#[trigger] out[v]@[p]).0
            != (#[trigger] out[v]@[q]).0
    &&& forall|x: int, y: int|
        0 <= x < n && 0 <= y < n && multiplicity(edges, x, y) > 0 && rank_lt(deg, x, y) ==> #[trigger] has_entry(
            out,
            x,
            y,
        )
}

/// The triangle on `a`, `b`, `c` has been counted once the loop has passed its vertex of lowest
/// rank `x`, or, at `x`, the entry to its middle vertex `y`, or, at that entry, the entry from `y`
/// to its vertex of highest rank `z`.
spec fn counted(deg: Seq<usize>, out: Seq<Vec<(usize, usize)>>, v: int, p: int, q: int, a: int, b: int, c: int) -> bool {
    let (x, y, z) = order3(deg, a, b, c);
    x < v || (x == v && (pos(out, x, y) < p || (pos(out, x, y) == p && pos(out, y, z) < q)))
}

/// The number of `C3` through the edges joining `a` and `b` among the triangles counted so far.
spec fn counted_c3(
    edges: Seq<(usize, usize)>,
    n: int,
    deg: Seq<usize>,
    out: Seq<Vec<(usize, usize)>>,
    v: int,
    p: int,
    q: int,
    a: int,
    b: int,
) -> int {
    sum_range(
        |c: int|
            if counted(deg, out, v, p, q, a, b, c) {
                (multiplicity(edges, a, c) * multiplicity(edges, b, c)) as int
            } else {
                0
            },
        0,
        n,
    )
}

/// The entry of `out[x]` at `p` is the one `pos` finds.
proof fn lemma_pos_of(
    edges: Seq<(usize, usize)>,
    n: int,
    ends: Seq<(usize, usize)>,
    deg: Seq<usize>,
    out: Seq<Vec<(usize, usize)>>,
    x: int,
    p: int,
)
    requires
        oriented(edges, n, ends, deg, out),
        0 <= x < n,
        0 <= p < out[x]@.len(),
    ensures
        pos(out, x, out[x]@[p].0 as int) == p,
{
    let y = out[x]@[p].0 as int;
    assert(has_entry(out, x, y));
    let p2 = pos(out, x, y);
    assert(out[x]@[p2].0 == y);
    if p2 != p {
        assert(out[x]@[p2].0 != out[x]@[p].0);
    }
}

/// The edges joining `x` to `y` of higher rank are listed in `out[x]`, at `pos(out, x, y)`.
proof fn lemma_entry_of_pair(
    edges: Seq<(usize, usize)>,
    n: int,
    ends: Seq<(usize, usize)>,
    deg: Seq<usize>,
    out: Seq<Vec<(usize, usize)>>,
    x: int,
    y: int,
)
    requires
        valid_edges(n, edges),
        oriented(edges, n, ends, deg, out),
        multiplicity(edges, x, y) > 0,
        rank_lt(deg, x, y),
    ensures
        0 <= x < n,
        0 <= pos(out, x, y) < out[x]@.len(),
        out[x]@[pos(out, x, y)].0 == y,
{
    lemma_multiplicity_pos(n, edges, x, y);
    assert(has_entry(out, x, y));
}

/// The vertices of a triangle in increasing rank: each pair is joined, and the lower end of each
/// pair lists the higher.
proof fn lemma_triangle(
    edges: Seq<(usize, usize)>,
    n: int,
    ends: Seq<(usize, usize)>,
    deg: Seq<usize>,
    out: Seq<Vec<(usize, usize)>>,
    a: int,
    b: int,
    c: int,
)
    requires
        valid_edges(n, edges),
        oriented(edges, n, ends, deg, out),
        multiplicity(edges, a, b) > 0,
        multiplicity(edges, a, c) > 0,
        multiplicity(edges, b, c) > 0,
    ensures
        ({
            let (x, y, z) = order3(deg, a, b, c);
            &&& rank_lt(deg, x, y) && rank_lt(deg, y, z)
            &&& (x == a && ((y == b && z == c) || (y == c && z == b))) || (x == b && ((y == a && z == c) || (y
                == c && z == a))) || (x == c && ((y == a && z == b) || (y == b && z == a)))
            &&& 0 <= pos(out, x, y) < out[x]@.len() && out[x]@[pos(out, x, y)].0 == y
            &&& 0 <= y < n && 0 <= pos(out, y, z) < out[y]@.len() && out[y]@[pos(out, y, z)].0 == z
        }),
{
    lemma_multiplicity_symmetric(edges, a, b);
    lemma_multiplicity_symmetric(edges, a, c);
    lemma_multiplicity_symmetric(edges, b, c);
    lemma_multiplicity_pos(n, edges, a, b);
    lemma_multiplicity_pos(n, edges, a, c);
    lemma_multiplicity_pos(n, edges, b, c);
    let (x, y, z) = order3(deg, a, b, c);
    assert(multiplicity(edges, x, y) > 0);
    assert(multiplicity(edges, y, z) > 0);
    lemma_entry_of_pair(edges, n, ends, deg, out, x, y);
    lemma_entry_of_pair(edges, n, ends, deg, out, y, z);
}

/// Passing the entry `q` of `out[u]`, for the entry `u` at `p` of `out[v]`, counts the triangle on
/// `v`, `u` and the end `w` of that entry, if any: the count through a pair of those three gains
/// the edges through the third vertex; other counts stay.
proof fn lemma_counted_step(
    edges: Seq<(usize, usize)>,
    n: int,
    ends: Seq<(usize, usize)>,
    deg: Seq<usize>,
    out: Seq<Vec<(usize, usize)>>,
    v: int,
    p: int,
    q: int,
    a: int,
    b: int,
)
    requires
        valid_edges(n, edges),
        oriented(edges, n, ends, deg, out),
        0 <= v < n,
        0 <= p < out[v]@.len(),
        0 <= q < out[out[v]@[p].0 as int]@.len(),
        multiplicity(edges, a, b) > 0,
    ensures
        ({
            let u = out[v]@[p].0 as int;
            let w = out[u]@[q].0 as int;
            let before = counted_c3(edges, n, deg, out, v, p, q, a, b);
            let after = counted_c3(edges, n, deg, out, v, p, q + 1, a, b);
            if (a == v && b == u) || (a == u && b == v) {
                after == before + multiplicity(edges, a, w) * multiplicity(edges, b, w)
            } else if (a == u && b == w) || (a == w && b == u) {
                after == before + multiplicity(edges, a, v) * multiplicity(edges, b, v)
            } else if (a == v && b == w) || (a == w && b == v) {
                after == before + multiplicity(edges, a, u) * multiplicity(edges, b, u)
            } else {
                after == before
            }
        }),
{
    let u = out[v]@[p].0 as int;
    let w = out[u]@[q].0 as int;
    let f = |c: int|
        if counted(deg, out, v, p, q, a, b, c) {
            (multiplicity(edges, a, c) * multiplicity(edges, b, c)) as int
        } else {
            0
        };
    let g = |c: int|
        if counted(deg, out, v, p, q + 1, a, b, c) {
            (multiplicity(edges, a, c) * multiplicity(edges, b, c)) as int
        } else {
            0
        };
    lemma_pos_of(edges, n, ends, deg, out, v, p);
    lemma_pos_of(edges, n, ends, deg, out, u, q);
    lemma_multiplicity_pos(n, edges, a, b);
    let c0 = if (a == v && b == u) || (a == u && b == v) {
        w
    } else if (a == u && b == w) || (a == w && b == u) {
        v
    } else if (a == v && b == w) || (a == w && b == v) {
        u
    } else {
        -1
    };
    assert forall|c: int| 0 <= c < n && c != c0 implies #[trigger] f(c) == g(c) by {
        if counted(deg, out, v, p, q, a, b, c) != counted(deg, out, v, p, q + 1, a, b, c) && multiplicity(edges, a, c)
            > 0 && multiplicity(edges, b, c) > 0 {
            lemma_triangle(edges, n, ends, deg, out, a, b, c);
        }
        if multiplicity(edges, a, c) == 0 || multiplicity(edges, b, c) == 0 {
            assert(multiplicity(edges, a, c) * multiplicity(edges, b, c) == 0) by (nonlinear_arith)
                requires
                    multiplicity(edges, a, c) == 0 || multiplicity(edges, b, c) == 0,
            ;
        }
    }
    if c0 == -1 {
        lemma_sum_ext(f, g, 0, n);
    } else {
        assert(order3(deg, a, b, c0) == (v, u, w));
        lemma_sum_update(f, g, 0, n, c0);
    }
}

/// Passing the last entry of `out[u]`, for the entry `u` at `p` of `out[v]`, is passing that entry.
proof fn lemma_counted_next_entry(
    edges: Seq<(usize, usize)>,
    n: int,
    ends: Seq<(usize, usize)>,
    deg: Seq<usize>,
    out: Seq<Vec<(usize, usize)>>,
    v: int,
    p: int,
    a: int,
    b: int,
)
    requires
        valid_edges(n, edges),
        oriented(edges, n, ends, deg, out),
        0 <= v < n,
        0 <= p < out[v]@.len(),
        multiplicity(edges, a, b) > 0,
    ensures
        counted_c3(edges, n, deg, out, v, p, out[out[v]@[p].0 as int]@.len() as int, a, b) == counted_c3(
            edges,
            n,
            deg,
            out,
            v,
            p + 1,
            0,
            a,
            b,
        ),
{
    let u = out[v]@[p].0 as int;
    let len = out[u]@.len() as int;
    let f = |c: int|
        if counted(deg, out, v, p, len, a, b, c) {
            (multiplicity(edges, a, c) * multiplicity(edges, b, c)) as int
        } else {
            0
        };
    let g = |c: int|
        if counted(deg, out, v, p + 1, 0, a, b, c) {
            (multiplicity(edges, a, c) * multiplicity(edges, b, c)) as int
        } else {
            0
        };
    lemma_pos_of(edges, n, ends, deg, out, v, p);
    assert forall|c: int| 0 <= c < n implies #[trigger] f(c) == g(c) by {
        if multiplicity(edges, a, c) > 0 && multiplicity(edges, b, c) > 0 {
            lemma_triangle(edges, n, ends, deg, out, a, b, c);
        } else {
            assert(multiplicity(edges, a, c) * multiplicity(edges, b, c) == 0) by (nonlinear_arith)
                requires
                    multiplicity(edges, a, c) == 0 || multiplicity(edges, b, c) == 0,
            ;
        }
    }
    lemma_sum_ext(f, g, 0, n);
}

/// Passing the last entry of `out[v]` is passing `v`.
proof fn lemma_counted_next_vertex(
    edges: Seq<(usize, usize)>,
    n: int,
    ends: Seq<(usize, usize)>,
    deg: Seq<usize>,
    out: Seq<Vec<(usize, usize)>>,
    v: int,
    a: int,
    b: int,
)
    requires
        valid_edges(n, edges),
        oriented(edges, n, ends, deg, out),
        0 <= v < n,
        multiplicity(edges, a, b) > 0,
    ensures
        counted_c3(edges, n, deg, out, v, out[v]@.len() as int, 0, a, b) == counted_c3(
            edges,
            n,
            deg,
            out,
            v + 1,
            0,
            0,
            a,
            b,
        ),
{
    let len = out[v]@.len() as int;
    let f = |c: int|
        if counted(deg, out, v, len, 0, a, b, c) {
            (multiplicity(edges, a, c) * multiplicity(edges, b, c)) as int
        } else {
            0
        };
    let g = |c: int|
        if counted(deg, out, v + 1, 0, 0, a, b, c) {
            (multiplicity(edges, a, c) * multiplicity(edges, b, c)) as int
        } else {
            0
        };
    assert forall|c: int| 0 <= c < n implies #[trigger] f(c) == g(c) by {
        if multiplicity(edges, a, c) > 0 && multiplicity(edges, b, c) > 0 {
            lemma_triangle(edges, n, ends, deg, out, a, b, c);
        } else {
            assert(multiplicity(edges, a, c) * multiplicity(edges, b, c) == 0) by (nonlinear_arith)
                requires
                    multiplicity(edges, a, c) == 0 || multiplicity(edges, b, c) == 0,
            ;
        }
    }
    lemma_sum_ext(f, g, 0, n);
}

/// Before the first vertex nothing is counted, and after the last every `C3` is, and at every
/// point at most every `C3` is.
proof fn lemma_counted_bounds(
    edges: Seq<(usize, usize)>,
    n: int,
    ends: Seq<(usize, usize)>,
    deg: Seq<usize>,
    out: Seq<Vec<(usize, usize)>>,
    v: int,
    p: int,
    q: int,
    a: int,
    b: int,
)
    requires
        valid_edges(n, edges),
        oriented(edges, n, ends, deg, out),
        multiplicity(edges, a, b) > 0,
    ensures
        counted_c3(edges, n, deg, out, 0, 0, 0, a, b) == 0,
        counted_c3(edges, n, deg, out, n, 0, 0, a, b) == c3_through(edges, n, a, b),
        0 <= counted_c3(edges, n, deg, out, v, p, q, a, b) <= c3_through(edges, n, a, b),
{
    let prod = |c: int| (multiplicity(edges, a, c) * multiplicity(edges, b, c)) as int;
    let zero = |c: int| 0int;
    let f0 = |c: int|
        if counted(deg, out, 0, 0, 0, a, b, c) {
            (multiplicity(edges, a, c) * multiplicity(edges, b, c)) as int
        } else {
            0
        };
    let fn_ = |c: int|
        if counted(deg, out, n, 0, 0, a, b, c) {
            (multiplicity(edges, a, c) * multiplicity(edges, b, c)) as int
        } else {
            0
        };
    let fv = |c: int|
        if counted(deg, out, v, p, q, a, b, c) {
            (multiplicity(edges, a, c) * multiplicity(edges, b, c)) as int
        } else {
            0
        };
    assert forall|c: int| 0 <= c < n implies #[trigger] f0(c) == zero(c) && fn_(c) == prod(c) && 0 <= fv(c) <= prod(
        c,
    ) by {
        if multiplicity(edges, a, c) > 0 && multiplicity(edges, b, c) > 0 {
            lemma_triangle(edges, n, ends, deg, out, a, b, c);
            lemma_multiplicity_pos(n, edges, a, b);
            lemma_multiplicity_pos(n, edges, a, c);
        } else {
            assert(multiplicity(edges, a, c) * multiplicity(edges, b, c) == 0) by (nonlinear_arith)
                requires
                    multiplicity(edges, a, c) == 0 || multiplicity(edges, b, c) == 0,
            ;
        }
    }
    assert forall|c: int| 0 <= c < n implies #[trigger] fn_(c) == prod(c) by {
        assert(f0(c) == zero(c));
    }
    assert forall|c: int| 0 <= c < n implies 0 <= #[trigger] fv(c) <= prod(c) by {
        assert(f0(c) == zero(c));
    }
    lemma_sum_ext(f0, zero, 0, n);
    lemma_sum_ext(fn_, prod, 0, n);
    lemma_sum_le(fv, prod, 0, n);
    lemma_sum_nonneg(fv, 0, n);
    assert(sum_range(zero, 0, n) == 0) by {
        lemma_sum_zero(n);
    }
}

/// The sum of zeros is zero.
proof fn lemma_sum_zero(n: int)
    ensures
        sum_range(|c: int| 0int, 0, n) == 0,
    decreases n,
{
    if n > 0 {
        lemma_sum_zero(n - 1);
    }
}

/// Orients each class of parallel edges from its end of lower rank, by degree then number, to the
/// other: returns the degrees and the lists `out`.
fn orient(n: usize, Ghost(edges): Ghost<Seq<(usize, usize)>>, class: &Vec<usize>, ends: &Vec<(usize, usize)>, mult: &Vec<usize>) -> (res: (
    Vec<usize>,
    Vec<Vec<(usize, usize)>>,
))
    requires
        valid_edges(n as int, edges),
        grouped(edges, class@, ends@, mult@),
        forall|k: int| 0 <= k < ends@.len() ==> #[trigger] ends@[k].1 < n,
        ends@.len() <= edges.len(),
    ensures
        oriented(edges, n as int, ends@, res.0@, res.1@),
{
    let ghost m = edges.len();
    let mut degree: Vec<usize> = vec![0; n];
    let mut k: usize = 0;
    while k < ends.len()
        invariant
            k <= ends@.len(),
            ends@.len() <= m,
            m == edges.len(),
            degree@.len() == n,
            grouped(edges, class@, ends@, mult@),
            forall|j: int| 0 <= j < ends@.len() ==> #[trigger] ends@[j].1 < n,
            forall|x: int| 0 <= x < n ==> #[trigger] degree@[x] <= k,
        decreases ends@.len() - k,
    {
        let (a, b) = ends[k];
        degree.set(a, degree[a] + 1);
        degree.set(b, degree[b] + 1);
        k = k + 1;
    }
    let mut out: Vec<Vec<(usize, usize)>> = Vec::new();
    let mut x: usize = 0;
    while x < n
        invariant
            x <= n,
            out@.len() == x,
            forall|y: int| 0 <= y < x ==> (#[trigger] out@[y])@.len() == 0,
        decreases n - x,
    {
        out.push(Vec::new());
        x = x + 1;
    }
    let ghost deg = degree@;
    let mut k: usize = 0;
    while k < ends.len()
        invariant
            k <= ends@.len(),
            deg == degree@,
            deg.len() == n,
            out@.len() == n,
            valid_edges(n as int, edges),
            grouped(edges, class@, ends@, mult@),
            forall|j: int| 0 <= j < ends@.len() ==> #[trigger] ends@[j].1 < n,
            forall|v: int, p: int|
                0 <= v < n && 0 <= p < out@[v]@.len() ==> {
                    let (w, j) = #[trigger] out@[v]@[p];
                    &&& w < n
                    &&& j < k
                    &&& rank_lt(deg, v, w as int)
                    &&& (v < w ==> ends@[j as int].0 == v && ends@[j as int].1 == w)
                    &&& (w < v ==> ends@[j as int].0 == w && ends@[j as int].1 == v)
                },
            forall|v: int, p: int, q: int|
                0 <= v < n && 0 <= p < out@[v]@.len() && 0 <= q < out@[v]@.len() && p != q ==> (
                #[trigger] out@[v]@[p]).0 != (#[trigger] out@[v]@[q]).0,
            forall|j: int|
                0 <= j < k ==> (if rank_lt(deg, (#[trigger] ends@[j]).0 as int, ends@[j].1 as int) {
                    has_entry(out@, ends@[j].0 as int, ends@[j].1 as int)
                } else {
                    has_entry(out@, ends@[j].1 as int, ends@[j].0 as int)
                }),
        decreases ends@.len() - k,
    {
        let (a, b) = ends[k];
        let ghost old_out = out@;
        let (lo, hi) = if degree[a] < degree[b] || (degree[a] == degree[b] && a < b) {
            (a, b)
        } else {
            (b, a)
        };
        proof {
            assert forall|p: int| 0 <= p < out@[lo as int]@.len() implies (#[trigger] out@[lo as int]@[p]).0 != hi by {
                let (w, j) = out@[lo as int]@[p];
                if w == hi {
                    assert(ends@[j as int] == ends@[k as int]);
                }
            }
        }
        out[lo].push((hi, k));
        proof {
            assert forall|j: int|
                0 <= j < k + 1 implies (if rank_lt(deg, (#[trigger] ends@[j]).0 as int, ends@[j].1 as int) {
                    has_entry(out@, ends@[j].0 as int, ends@[j].1 as int)
                } else {
                    has_entry(out@, ends@[j].1 as int, ends@[j].0 as int)
                }) by {
                let (s, t) = if rank_lt(deg, ends@[j].0 as int, ends@[j].1 as int) {
                    (ends@[j].0 as int, ends@[j].1 as int)
                } else {
                    (ends@[j].1 as int, ends@[j].0 as int)
                };
                if j < k {
                    assert(has_entry(old_out, s, t));
                    let p = choose|p: int| 0 <= p < old_out[s]@.len() && (#[trigger] old_out[s]@[p]).0 == t;
                    assert(out@[s]@[p] == old_out[s]@[p]);
                } else {
                    let p = out@[lo as int]@.len() - 1;
                    assert(out@[s]@[p].0 == t);
                }
            }
        }
        k = k + 1;
    }
    proof {
        assert forall|a: int, b: int|
            0 <= a < n && 0 <= b < n && multiplicity(edges, a, b) > 0 && rank_lt(deg, a, b) implies #[trigger] has_entry(
            out@,
            a,
            b,
        ) by {
            lemma_multiplicity_pos(n as int, edges, a, b);
            let i = choose|i: int| 0 <= i < edges.len() && #[trigger] joins(edges[i], a, b);
            let j = class@[i] as int;
            assert(ends@[j] == ends_of(edges[i]));
        }
    }
    (degree, out)
}

/// The facts about the class `k` of parallel edges.
proof fn lemma_class(
    edges: Seq<(usize, usize)>,
    class: Seq<usize>,
    ends: Seq<(usize, usize)>,
    mult: Seq<usize>,
    k: int,
)
    requires
        grouped(edges, class, ends, mult),
        0 <= k < ends.len(),
    ensures
        ends[k].0 < ends[k].1,
        mult[k] == multiplicity(edges, ends[k].0 as int, ends[k].1 as int),
        mult[k] > 0,
{
    assert(ends[k].0 < ends[k].1 && mult[k] == multiplicity(edges, ends[k].0 as int, ends[k].1 as int) && mult[k] > 0);
}

/// The counts of every class, as the loop passes the entry `p` of `out[v]`.
proof fn lemma_next_entry_all(
    edges: Seq<(usize, usize)>,
    n: int,
    class: Seq<usize>,
    ends: Seq<(usize, usize)>,
    mult: Seq<usize>,
    deg: Seq<usize>,
    out: Seq<Vec<(usize, usize)>>,
    count: Seq<usize>,
    v: int,
    p: int,
)
    requires
        valid_edges(n, edges),
        grouped(edges, class, ends, mult),
        oriented(edges, n, ends, deg, out),
        0 <= v < n,
        0 <= p < out[v]@.len(),
        count.len() == ends.len(),
        forall|k: int|
            0 <= k < ends.len() ==> #[trigger] count[k] == counted_c3(
                edges,
                n,
                deg,
                out,
                v,
                p,
                out[out[v]@[p].0 as int]@.len() as int,
                ends[k].0 as int,
                ends[k].1 as int,
            ),
    ensures
        forall|k: int|
            0 <= k < ends.len() ==> #[trigger] count[k] == counted_c3(
                edges,
                n,
                deg,
                out,
                v,
                p + 1,
                0,
                ends[k].0 as int,
                ends[k].1 as int,
            ),
{
    assert forall|k: int| 0 <= k < ends.len() implies #[trigger] count[k] == counted_c3(
        edges,
        n,
        deg,
        out,
        v,
        p + 1,
        0,
        ends[k].0 as int,
        ends[k].1 as int,
    ) by {
        lemma_class(edges, class, ends, mult, k);
        lemma_counted_next_entry(edges, n, ends, deg, out, v, p, ends[k].0 as int, ends[k].1 as int);
    }
}

/// The counts of every class, as the loop passes the vertex `v`.
proof fn lemma_next_vertex_all(
    edges: Seq<(usize, usize)>,
    n: int,
    class: Seq<usize>,
    ends: Seq<(usize, usize)>,
    mult: Seq<usize>,
    deg: Seq<usize>,
    out: Seq<Vec<(usize, usize)>>,
    count: Seq<usize>,
    v: int,
)
    requires
        valid_edges(n, edges),
        grouped(edges, class, ends, mult),
        oriented(edges, n, ends, deg, out),
        0 <= v < n,
        count.len() == ends.len(),
        forall|k: int|
            0 <= k < ends.len() ==> #[trigger] count[k] == counted_c3(
                edges,
                n,
                deg,
                out,
                v,
                out[v]@.len() as int,
                0,
                ends[k].0 as int,
                ends[k].1 as int,
            ),
    ensures
        forall|k: int|
            0 <= k < ends.len() ==> #[trigger] count[k] == counted_c3(
                edges,
                n,
                deg,
                out,
                v + 1,
                0,
                0,
                ends[k].0 as int,
                ends[k].1 as int,
            ),
{
    assert forall|k: int| 0 <= k < ends.len() implies #[trigger] count[k] == counted_c3(
        edges,
        n,
        deg,
        out,
        v + 1,
        0,
        0,
        ends[k].0 as int,
        ends[k].1 as int,
    ) by {
        lemma_class(edges, class, ends, mult, k);
        lemma_counted_next_vertex(edges, n, ends, deg, out, v, ends[k].0 as int, ends[k].1 as int);
    }
}

/// At the entry `q` of `out[u]`, for the entry `u` at `p` of `out[v]`, to `w` also listed by
/// `out[v]`: the three classes joining `v`, `u` and `w` are distinct and their counts gain the
/// edges through the third vertex; the others stay, and every count stays within its total.
proof fn lemma_step_marked(
    edges: Seq<(usize, usize)>,
    n: int,
    class: Seq<usize>,
    ends: Seq<(usize, usize)>,
    mult: Seq<usize>,
    deg: Seq<usize>,
    out: Seq<Vec<(usize, usize)>>,
    v: int,
    p: int,
    q: int,
    r: int,
)
    requires
        valid_edges(n, edges),
        grouped(edges, class, ends, mult),
        oriented(edges, n, ends, deg, out),
        0 <= v < n,
        0 <= p < out[v]@.len(),
        0 <= q < out[out[v]@[p].0 as int]@.len(),
        0 <= r < out[v]@.len(),
        out[v]@[r].0 == out[out[v]@[p].0 as int]@[q].0,
    ensures
        ({
            let u = out[v]@[p].0 as int;
            let e1 = out[v]@[p].1 as int;
            let e2 = out[u]@[q].1 as int;
            let e3 = out[v]@[r].1 as int;
            &&& e1 != e2 && e2 != e3 && e1 != e3
            &&& forall|k: int|
                0 <= k < ends.len() ==> #[trigger] counted_c3(
                    edges,
                    n,
                    deg,
                    out,
                    v,
                    p,
                    q + 1,
                    ends[k].0 as int,
                    ends[k].1 as int,
                ) == counted_c3(edges, n, deg, out, v, p, q, ends[k].0 as int, ends[k].1 as int) + if k == e1 {
                    mult[e2] * mult[e3]
                } else if k == e2 {
                    mult[e3] * mult[e1]
                } else if k == e3 {
                    mult[e1] * mult[e2]
                } else {
                    0
                }
        }),
{
    let u = out[v]@[p].0 as int;
    let w = out[u]@[q].0 as int;
    let e1 = out[v]@[p].1 as int;
    let e2 = out[u]@[q].1 as int;
    let e3 = out[v]@[r].1 as int;
    lemma_multiplicity_symmetric(edges, v, u);
    lemma_multiplicity_symmetric(edges, u, w);
    lemma_multiplicity_symmetric(edges, v, w);
    let entry1 = out[v]@[p];
    let entry2 = out[u]@[q];
    let entry3 = out[v]@[r];
    assert(entry1.0 < n && entry1.1 < ends.len());
    assert(entry2.0 < n && entry2.1 < ends.len());
    assert(entry3.0 < n && entry3.1 < ends.len());
    lemma_class(edges, class, ends, mult, e1);
    lemma_class(edges, class, ends, mult, e2);
    lemma_class(edges, class, ends, mult, e3);
    let (m1, m2, m3) = (mult[e1] as int, mult[e2] as int, mult[e3] as int);
    assert(m1 == multiplicity(edges, v, u));
    assert(m2 == multiplicity(edges, u, w));
    assert(m3 == multiplicity(edges, v, w));
    assert forall|k: int| 0 <= k < ends.len() implies #[trigger] counted_c3(
        edges,
        n,
        deg,
        out,
        v,
        p,
        q + 1,
        ends[k].0 as int,
        ends[k].1 as int,
    ) == counted_c3(edges, n, deg, out, v, p, q, ends[k].0 as int, ends[k].1 as int) + if k == e1 {
        mult[e2] * mult[e3]
    } else if k == e2 {
        mult[e3] * mult[e1]
    } else if k == e3 {
        mult[e1] * mult[e2]
    } else {
        0
    } by {
        let (a, b) = (ends[k].0 as int, ends[k].1 as int);
        lemma_class(edges, class, ends, mult, k);
        lemma_counted_step(edges, n, ends, deg, out, v, p, q, a, b);
        if k != e1 && k != e2 && k != e3 {
            assert(ends[k] != ends[e1]);
            assert(ends[k] != ends[e2]);
            assert(ends[k] != ends[e3]);
        }
        if k == e1 {
            lemma_multiplicity_symmetric(edges, w, v);
            lemma_multiplicity_symmetric(edges, w, u);
            vstd::arithmetic::mul::lemma_mul_is_commutative(m2, m3);
        }
        if k == e2 {
            lemma_multiplicity_symmetric(edges, u, v);
            lemma_multiplicity_symmetric(edges, w, v);
            vstd::arithmetic::mul::lemma_mul_is_commutative(m3, m1);
        }
        if k == e3 {
            lemma_multiplicity_symmetric(edges, v, u);
            lemma_multiplicity_symmetric(edges, w, u);
            vstd::arithmetic::mul::lemma_mul_is_commutative(m1, m2);
        }
    }
}

/// At the entry `q` of `out[u]`, for the entry `u` at `p` of `out[v]`, to `w` not listed by
/// `out[v]`: no triangle, and every count stays.
proof fn lemma_step_unmarked(
    edges: Seq<(usize, usize)>,
    n: int,
    class: Seq<usize>,
    ends: Seq<(usize, usize)>,
    mult: Seq<usize>,
    deg: Seq<usize>,
    out: Seq<Vec<(usize, usize)>>,
    v: int,
    p: int,
    q: int,
)
    requires
        valid_edges(n, edges),
        grouped(edges, class, ends, mult),
        oriented(edges, n, ends, deg, out),
        0 <= v < n,
        0 <= p < out[v]@.len(),
        0 <= q < out[out[v]@[p].0 as int]@.len(),
        !has_entry(out, v, out[out[v]@[p].0 as int]@[q].0 as int),
    ensures
        forall|k: int|
            0 <= k < ends.len() ==> #[trigger] counted_c3(
                edges,
                n,
                deg,
                out,
                v,
                p,
                q + 1,
                ends[k].0 as int,
                ends[k].1 as int,
            ) == counted_c3(edges, n, deg, out, v, p, q, ends[k].0 as int, ends[k].1 as int),
{
    let u = out[v]@[p].0 as int;
    let w = out[u]@[q].0 as int;
    assert(multiplicity(edges, v, w) == 0) by {
        if multiplicity(edges, v, w) > 0 {
            assert(rank_lt(deg, v, u) && rank_lt(deg, u, w));
            assert(has_entry(out, v, w));
        }
    }
    lemma_multiplicity_symmetric(edges, v, w);
    assert forall|k: int| 0 <= k < ends.len() implies #[trigger] counted_c3(
        edges,
        n,
        deg,
        out,
        v,
        p,
        q + 1,
        ends[k].0 as int,
        ends[k].1 as int,
    ) == counted_c3(edges, n, deg, out, v, p, q, ends[k].0 as int, ends[k].1 as int) by {
        let (a, b) = (ends[k].0 as int, ends[k].1 as int);
        lemma_class(edges, class, ends, mult, k);
        lemma_counted_step(edges, n, ends, deg, out, v, p, q, a, b);
        assert(multiplicity(edges, a, w) * multiplicity(edges, b, w) == 0 || !((a == v && b == u) || (a == u && b
            == v))) by (nonlinear_arith)
            requires
                multiplicity(edges, v, w) == 0,
        ;
        assert(multiplicity(edges, a, v) * multiplicity(edges, b, v) == 0 || !((a == u && b == w) || (a == w && b
            == u))) by (nonlinear_arith)
            requires
                multiplicity(edges, w, v) == 0,
        ;
    }
}

/// The counts through every class of parallel edges fit in `usize`.
spec fn c3_fits(edges: Seq<(usize, usize)>, n: int, ends: Seq<(usize, usize)>) -> bool {
    forall|k: int| 0 <= k < ends.len() ==> #[trigger] c3_through(edges, n, ends[k].0 as int, ends[k].1 as int) <= usize::MAX
}

/// The number of `C3` through each edge of the undirected multigraph on `[0, n)` whose `i`-th
/// edge joins `edges[i].0` and `edges[i].1`: `c[i]` is the number of sets of three edges joining
/// the pairs of three distinct vertices that contain the `i`-th edge, that is, over the third
/// vertex, the number of edges joining it to one end times that joining it to the other.
pub fn count_c3(n: usize, edges: &[(usize, usize)]) -> (c: Vec<usize>)
    requires
        valid_edges(n as int, edges@),
        forall|i: int|
            0 <= i < edges@.len() ==> #[trigger] c3_through(edges@, n as int, edges@[i].0 as int, edges@[i].1 as int)
                <= usize::MAX,
    ensures
        c@.len() == edges@.len(),
        forall|i: int|
            0 <= i < edges@.len() ==> #[trigger] c@[i] == c3_through(edges@, n as int, edges@[i].0 as int, edges@[i].1 as int),
{
    let ghost g = edges@;
    let m = edges.len();
    let (class, ends, mult) = group_edges(n, edges);
    let (degree, out) = orient(n, Ghost(g), &class, &ends, &mult);
    let ghost deg = degree@;
    proof {
        assert forall|k: int| 0 <= k < ends@.len() implies #[trigger] c3_through(g, n as int, ends@[k].0 as int, ends@[k].1 as int)
            <= usize::MAX by {
            let (a, b) = (ends@[k].0 as int, ends@[k].1 as int);
            lemma_multiplicity_pos(n as int, g, a, b);
            let i = choose|i: int| 0 <= i < g.len() && #[trigger] joins(g[i], a, b);
            lemma_c3_symmetric(g, n as int, a, b);
            assert(c3_through(g, n as int, g[i].0 as int, g[i].1 as int) <= usize::MAX);
        }
        assert forall|k: int| 0 <= k < ends@.len() implies #[trigger] counted_c3(g, n as int, deg, out@, 0, 0, 0, ends@[k].0 as int, ends@[k].1 as int) == 0 by {
            lemma_counted_bounds(g, n as int, ends@, deg, out@, 0, 0, 0, ends@[k].0 as int, ends@[k].1 as int);
        }
    }
    let mut count: Vec<usize> = vec![0; ends.len()];
    let mut mark: Vec<usize> = vec![usize::MAX; n];
    let mut link: Vec<usize> = vec![0; n];
    let mut v: usize = 0;
    while v < n
        invariant
            v <= n,
            g == edges@,
            m == g.len(),
            valid_edges(n as int, g),
            grouped(g, class@, ends@, mult@),
            oriented(g, n as int, ends@, deg, out@),
            c3_fits(g, n as int, ends@),
            count@.len() == ends@.len(),
            mark@.len() == n,
            link@.len() == n,
            forall|w: int| 0 <= w < n ==> #[trigger] mark@[w] < v || mark@[w] == usize::MAX,
            forall|k: int|
                0 <= k < ends@.len() ==> #[trigger] count@[k] == counted_c3(
                    g,
                    n as int,
                    deg,
                    out@,
                    v as int,
                    0,
                    0,
                    ends@[k].0 as int,
                    ends@[k].1 as int,
                ),
        decreases n - v,
    {
        let len_v = out[v].len();
        let mut p: usize = 0;
        while p < len_v
            invariant
                p <= len_v,
                v < n,
                len_v == out@[v as int]@.len(),
                oriented(g, n as int, ends@, deg, out@),
                mark@.len() == n,
                link@.len() == n,
                forall|w: int|
                    0 <= w < n ==> #[trigger] mark@[w] < v || mark@[w] == usize::MAX || (mark@[w] == v && exists|r: int|
                        0 <= r < p && (#[trigger] out@[v as int]@[r]).0 == w),
                forall|r: int|
                    0 <= r < p ==> mark@[(#[trigger] out@[v as int]@[r]).0 as int] == v && link@[out@[v as int]@[r].0 as int]
                        == out@[v as int]@[r].1,
            decreases len_v - p,
        {
            let (w, e) = out[v][p];
            mark.set(w, v);
            link.set(w, e);
            proof {
                assert forall|r: int| 0 <= r < p + 1 implies mark@[(#[trigger] out@[v as int]@[r]).0 as int] == v
                    && link@[out@[v as int]@[r].0 as int] == out@[v as int]@[r].1 by {
                    if r < p {
                        assert(out@[v as int]@[r].0 != out@[v as int]@[p as int].0);
                    }
                }
            }
            p = p + 1;
        }
        let mut p: usize = 0;
        while p < len_v
            invariant
                p <= len_v,
                v < n,
                len_v == out@[v as int]@.len(),
                g == edges@,
                valid_edges(n as int, g),
                grouped(g, class@, ends@, mult@),
                oriented(g, n as int, ends@, deg, out@),
                c3_fits(g, n as int, ends@),
                count@.len() == ends@.len(),
                mark@.len() == n,
                link@.len() == n,
                forall|w: int|
                    0 <= w < n && mark@[w] == v ==> exists|r: int|
                        0 <= r < len_v && (#[trigger] out@[v as int]@[r]).0 == w && link@[w] == out@[v as int]@[r].1,
                forall|r: int| 0 <= r < len_v ==> mark@[(#[trigger] out@[v as int]@[r]).0 as int] == v,
                forall|k: int|
                    0 <= k < ends@.len() ==> #[trigger] count@[k] == counted_c3(
                        g,
                        n as int,
                        deg,
                        out@,
                        v as int,
                        p as int,
                        0,
                        ends@[k].0 as int,
                        ends@[k].1 as int,
                    ),
            decreases len_v - p,
        {
            let (u, e1) = out[v][p];
            let len_u = out[u].len();
            let mut q: usize = 0;
            while q < len_u
                invariant
                    q <= len_u,
                    v < n,
                    p < len_v,
                    len_v == out@[v as int]@.len(),
                    u == out@[v as int]@[p as int].0,
                    e1 == out@[v as int]@[p as int].1,
                    len_u == out@[u as int]@.len(),
                    g == edges@,
                    valid_edges(n as int, g),
                    grouped(g, class@, ends@, mult@),
                    oriented(g, n as int, ends@, deg, out@),
                    c3_fits(g, n as int, ends@),
                    count@.len() == ends@.len(),
                    mark@.len() == n,
                    link@.len() == n,
                    forall|w: int|
                        0 <= w < n && mark@[w] == v ==> exists|r: int|
                            0 <= r < len_v && (#[trigger] out@[v as int]@[r]).0 == w && link@[w] == out@[v as int]@[r].1,
                    forall|r: int| 0 <= r < len_v ==> mark@[(#[trigger] out@[v as int]@[r]).0 as int] == v,
                    forall|k: int|
                        0 <= k < ends@.len() ==> #[trigger] count@[k] == counted_c3(
                            g,
                            n as int,
                            deg,
                            out@,
                            v as int,
                            p as int,
                            q as int,
                            ends@[k].0 as int,
                            ends@[k].1 as int,
                        ),
                decreases len_u - q,
            {
                let (w, e2) = out[u][q];
                let ghost old_count = count@;
                proof {
                    assert forall|k: int| 0 <= k < ends@.len() implies multiplicity(g, ends@[k].0 as int, ends@[k].1 as int) > 0 by {
                        assert(ends@[k].0 < ends@[k].1 && mult@[k] > 0);
                    }
                }
                if mark[w] == v {
                    let e3 = link[w];
                    proof {
                        let r = choose|r: int|
                            0 <= r < len_v && (#[trigger] out@[v as int]@[r]).0 == w && link@[w as int] == out@[v as int]@[r].1;
                        lemma_step_marked(g, n as int, class@, ends@, mult@, deg, out@, v as int, p as int, q as int, r);
                        let ghost ks = seq![e1 as int, e2 as int, e3 as int];
                        assert forall|t: int| 0 <= t < 3 implies {
                            let k = #[trigger] ks[t];
                            &&& 0 <= k < ends@.len()
                            &&& 0 <= counted_c3(g, n as int, deg, out@, v as int, p as int, q as int, ends@[k].0 as int, ends@[k].1 as int)
                            &&& counted_c3(g, n as int, deg, out@, v as int, p as int, q + 1, ends@[k].0 as int, ends@[k].1 as int) <= usize::MAX
                        } by {
                            let k = ks[t];
                            let entry1 = out@[v as int]@[p as int];
                            let entry2 = out@[u as int]@[q as int];
                            let entry3 = out@[v as int]@[r];
                            assert(entry1.1 < ends@.len() && entry2.1 < ends@.len() && entry3.1 < ends@.len());
                            lemma_class(g, class@, ends@, mult@, k);
                            lemma_counted_bounds(g, n as int, ends@, deg, out@, v as int, p as int, q as int, ends@[k].0 as int, ends@[k].1 as int);
                            lemma_counted_bounds(g, n as int, ends@, deg, out@, v as int, p as int, q + 1, ends@[k].0 as int, ends@[k].1 as int);
                            assert(c3_through(g, n as int, ends@[k].0 as int, ends@[k].1 as int) <= usize::MAX);
                        }
                        assert(ks[0] == e1 && ks[1] == e2 && ks[2] == e3);
                        assert(counted_c3(g, n as int, deg, out@, v as int, p as int, q + 1, ends@[e1 as int].0 as int, ends@[e1 as int].1 as int) == count@[e1 as int] + mult@[e2 as int] * mult@[e3 as int]);
                        assert(counted_c3(g, n as int, deg, out@, v as int, p as int, q + 1, ends@[e2 as int].0 as int, ends@[e2 as int].1 as int) == count@[e2 as int] + mult@[e3 as int] * mult@[e1 as int]);
                        assert(counted_c3(g, n as int, deg, out@, v as int, p as int, q + 1, ends@[e3 as int].0 as int, ends@[e3 as int].1 as int) == count@[e3 as int] + mult@[e1 as int] * mult@[e2 as int]);
                    }
                    let d1 = mult[e2] * mult[e3];
                    count.set(e1, count[e1] + d1);
                    let d2 = mult[e3] * mult[e1];
                    count.set(e2, count[e2] + d2);
                    let d3 = mult[e1] * mult[e2];
                    count.set(e3, count[e3] + d3);
                    proof {
                        assert forall|k: int| 0 <= k < ends@.len() implies #[trigger] count@[k] == counted_c3(
                            g,
                            n as int,
                            deg,
                            out@,
                            v as int,
                            p as int,
                            q + 1,
                            ends@[k].0 as int,
                            ends@[k].1 as int,
                        ) by {
                            assert(old_count[k] == counted_c3(g, n as int, deg, out@, v as int, p as int, q as int, ends@[k].0 as int, ends@[k].1 as int));
                        }
                    }
                } else {
                    proof {
                        if has_entry(out@, v as int, w as int) {
                            let r = choose|r: int| 0 <= r < out@[v as int]@.len() && (#[trigger] out@[v as int]@[r]).0 == w;
                            assert(mark@[out@[v as int]@[r].0 as int] == v);
                        }
                        lemma_step_unmarked(g, n as int, class@, ends@, mult@, deg, out@, v as int, p as int, q as int);
                        assert forall|k: int| 0 <= k < ends@.len() implies #[trigger] count@[k] == counted_c3(
                            g,
                            n as int,
                            deg,
                            out@,
                            v as int,
                            p as int,
                            q + 1,
                            ends@[k].0 as int,
                            ends@[k].1 as int,
                        ) by {
                            assert(old_count[k] == counted_c3(g, n as int, deg, out@, v as int, p as int, q as int, ends@[k].0 as int, ends@[k].1 as int));
                        }
                    }
                }
                q = q + 1;
            }
            proof {
                lemma_next_entry_all(g, n as int, class@, ends@, mult@, deg, out@, count@, v as int, p as int);
            }
            p = p + 1;
        }
        proof {
            lemma_next_vertex_all(g, n as int, class@, ends@, mult@, deg, out@, count@, v as int);
        }
        v = v + 1;
    }
    let mut c: Vec<usize> = Vec::new();
    let mut i: usize = 0;
    while i < m
        invariant
            i <= m,
            m == g.len(),
            g == edges@,
            valid_edges(n as int, g),
            grouped(g, class@, ends@, mult@),
            oriented(g, n as int, ends@, deg, out@),
            count@.len() == ends@.len(),
            forall|k: int|
                0 <= k < ends@.len() ==> #[trigger] count@[k] == counted_c3(
                    g,
                    n as int,
                    deg,
                    out@,
                    n as int,
                    0,
                    0,
                    ends@[k].0 as int,
                    ends@[k].1 as int,
                ),
            c@.len() == i,
            forall|j: int| 0 <= j < i ==> #[trigger] c@[j] == c3_through(g, n as int, g[j].0 as int, g[j].1 as int),
        decreases m - i,
    {
        let k = class[i];
        proof {
            let (a, b) = (ends@[k as int].0 as int, ends@[k as int].1 as int);
            assert(ends@[k as int].0 < ends@[k as int].1 && mult@[k as int] > 0);
            lemma_counted_bounds(g, n as int, ends@, deg, out@, 0, 0, 0, a, b);
            lemma_c3_symmetric(g, n as int, a, b);
        }
        c.push(count[k]);
        i = i + 1;
    }
    c
}

/// The vertices `a`, `b`, `c` are joined pairwise by edges of `edges`.
pub open spec fn is_triangle(edges: Seq<(usize, usize)>, a: int, b: int, c: int) -> bool {
    multiplicity(edges, a, b) > 0 && multiplicity(edges, b, c) > 0 && multiplicity(edges, a, c) > 0
}

/// The set of the three vertices of `t`.
pub open spec fn vertex_set(t: (usize, usize, usize)) -> Set<int> {
    set![t.0 as int, t.1 as int, t.2 as int]
}

/// The triangles listed in `found` are those counted so far, each once.
spec fn lists_counted(
    edges: Seq<(usize, usize)>,
    deg: Seq<usize>,
    out: Seq<Vec<(usize, usize)>>,
    v: int,
    p: int,
    q: int,
    found: Seq<(usize, usize, usize)>,
) -> bool {
    &&& forall|i: int|
        0 <= i < found.len() ==> is_triangle(edges, (#[trigger] found[i]).0 as int, found[i].1 as int, found[i].2 as int)
            && counted(deg, out, v, p, q, found[i].0 as int, found[i].1 as int, found[i].2 as int)
    &&& forall|i: int, j: int|
        0 <= i < j < found.len() ==> vertex_set(#[trigger] found[i]) != vertex_set(#[trigger] found[j])
    &&& forall|a: int, b: int, c: int|
        #![trigger counted(deg, out, v, p, q, a, b, c)]
        is_triangle(edges, a, b, c) && counted(deg, out, v, p, q, a, b, c) ==> exists|i: int|
            0 <= i < found.len() && vertex_set(#[trigger] found[i]) == set![a, b, c]
}

/// A triangle on `a`, `b`, `c` whose vertices in increasing rank are `(x, y, z)` has the vertex
/// set of `(x, y, z)`, and any ordering of it has the same vertices in increasing rank.
proof fn lemma_triangle_order(
    edges: Seq<(usize, usize)>,
    n: int,
    ends: Seq<(usize, usize)>,
    deg: Seq<usize>,
    out: Seq<Vec<(usize, usize)>>,
    a: int,
    b: int,
    c: int,
    t: (usize, usize, usize),
)
    requires
        valid_edges(n, edges),
        oriented(edges, n, ends, deg, out),
        is_triangle(edges, a, b, c),
        vertex_set(t) == set![a, b, c],
    ensures
        order3(deg, t.0 as int, t.1 as int, t.2 as int) == order3(deg, a, b, c),
        is_triangle(edges, t.0 as int, t.1 as int, t.2 as int),
{
    lemma_triangle(edges, n, ends, deg, out, a, b, c);
    lemma_multiplicity_symmetric(edges, a, b);
    lemma_multiplicity_symmetric(edges, a, c);
    lemma_multiplicity_symmetric(edges, b, c);
    lemma_multiplicity_pos(n, edges, a, b);
    lemma_multiplicity_pos(n, edges, a, c);
    lemma_multiplicity_pos(n, edges, b, c);
    let (t0, t1, t2) = (t.0 as int, t.1 as int, t.2 as int);
    assert(vertex_set(t).contains(t0) && vertex_set(t).contains(t1) && vertex_set(t).contains(t2));
    assert(set![a, b, c].contains(a) && set![a, b, c].contains(b) && set![a, b, c].contains(c));
    assert(t0 == a || t0 == b || t0 == c);
    assert(t1 == a || t1 == b || t1 == c);
    assert(t2 == a || t2 == b || t2 == c);
    assert(a == t0 || a == t1 || a == t2);
    assert(b == t0 || b == t1 || b == t2);
    assert(c == t0 || c == t1 || c == t2);
}

/// Lists each triangle of the simple graph on `[0, n)` whose edges join `edges[i].0` and
/// `edges[i].1`: each set of three vertices joined pairwise by edges is listed exactly once, in
/// some order.
pub fn for_each_triangle(n: usize, edges: &[(usize, usize)]) -> (found: Vec<(usize, usize, usize)>)
    requires
        valid_edges(n as int, edges@),
    ensures
        forall|i: int|
            0 <= i < found@.len() ==> #[trigger] is_triangle(edges@, found@[i].0 as int, found@[i].1 as int, found@[i].2 as int),
        forall|i: int, j: int| 0 <= i < j < found@.len() ==> vertex_set(#[trigger] found@[i]) != vertex_set(#[trigger] found@[j]),
        forall|a: int, b: int, c: int|
            #[trigger] is_triangle(edges@, a, b, c) ==> exists|i: int|
                0 <= i < found@.len() && vertex_set(#[trigger] found@[i]) == set![a, b, c],
{
    let ghost g = edges@;
    let (class, ends, mult) = group_edges(n, edges);
    let (degree, out) = orient(n, Ghost(g), &class, &ends, &mult);
    let ghost deg = degree@;
    let mut found: Vec<(usize, usize, usize)> = Vec::new();
    let mut mark: Vec<usize> = vec![usize::MAX; n];
    proof {
        assert forall|a: int, b: int, c: int| is_triangle(g, a, b, c) implies !#[trigger] counted(deg, out@, 0, 0, 0, a, b, c) by {
            lemma_triangle(g, n as int, ends@, deg, out@, a, b, c);
            lemma_multiplicity_pos(n as int, g, a, b);
            lemma_multiplicity_pos(n as int, g, a, c);
        }
    }
    let mut v: usize = 0;
    while v < n
        invariant
            v <= n,
            g == edges@,
            valid_edges(n as int, g),
            grouped(g, class@, ends@, mult@),
            oriented(g, n as int, ends@, deg, out@),
            mark@.len() == n,
            forall|w: int| 0 <= w < n ==> #[trigger] mark@[w] < v || mark@[w] == usize::MAX,
            lists_counted(g, deg, out@, v as int, 0, 0, found@),
        decreases n - v,
    {
        let len_v = out[v].len();
        let mut p: usize = 0;
        while p < len_v
            invariant
                p <= len_v,
                v < n,
                len_v == out@[v as int]@.len(),
                oriented(g, n as int, ends@, deg, out@),
                mark@.len() == n,
                forall|w: int|
                    0 <= w < n ==> #[trigger] mark@[w] < v || mark@[w] == usize::MAX || (mark@[w] == v && exists|r: int|
                        0 <= r < p && (#[trigger] out@[v as int]@[r]).0 == w),
                forall|r: int| 0 <= r < p ==> mark@[(#[trigger] out@[v as int]@[r]).0 as int] == v,
            decreases len_v - p,
        {
            let (w, e) = out[v][p];
            mark.set(w, v);
            p = p + 1;
        }
        let mut p: usize = 0;
        while p < len_v
            invariant
                p <= len_v,
                v < n,
                len_v == out@[v as int]@.len(),
                g == edges@,
                valid_edges(n as int, g),
                grouped(g, class@, ends@, mult@),
                oriented(g, n as int, ends@, deg, out@),
                mark@.len() == n,
                forall|w: int| 0 <= w < n && mark@[w] == v ==> has_entry(out@, v as int, w),
                forall|r: int| 0 <= r < len_v ==> mark@[(#[trigger] out@[v as int]@[r]).0 as int] == v,
                lists_counted(g, deg, out@, v as int, p as int, 0, found@),
            decreases len_v - p,
        {
            let (u, e1) = out[v][p];
            let len_u = out[u].len();
            let mut q: usize = 0;
            while q < len_u
                invariant
                    q <= len_u,
                    v < n,
                    p < len_v,
                    len_v == out@[v as int]@.len(),
                    u == out@[v as int]@[p as int].0,
                    len_u == out@[u as int]@.len(),
                    g == edges@,
                    valid_edges(n as int, g),
                    grouped(g, class@, ends@, mult@),
                    oriented(g, n as int, ends@, deg, out@),
                    mark@.len() == n,
                    forall|w: int| 0 <= w < n && mark@[w] == v ==> has_entry(out@, v as int, w),
                    forall|r: int| 0 <= r < len_v ==> mark@[(#[trigger] out@[v as int]@[r]).0 as int] == v,
                    lists_counted(g, deg, out@, v as int, p as int, q as int, found@),
                decreases len_u - q,
            {
                let (w, e2) = out[u][q];
                let ghost old_found = found@;
                proof {
                    lemma_pos_of(g, n as int, ends@, deg, out@, v as int, p as int);
                    lemma_pos_of(g, n as int, ends@, deg, out@, u as int, q as int);
                    let entry1 = out@[v as int]@[p as int];
                    let entry2 = out@[u as int]@[q as int];
                    assert(entry1.0 < n && entry2.0 < n);
                }
                if mark[w] == v {
                    found.push((u, v, w));
                    proof {
                        lemma_found_push(g, n as int, class@, ends@, mult@, deg, out@, v as int, p as int, q as int, old_found);
                    }
                } else {
                    proof {
                        if has_entry(out@, v as int, w as int) {
                            let r = choose|r: int| 0 <= r < out@[v as int]@.len() && (#[trigger] out@[v as int]@[r]).0 == w;
                            assert(mark@[out@[v as int]@[r].0 as int] == v);
                        }
                        lemma_found_skip(g, n as int, class@, ends@, mult@, deg, out@, v as int, p as int, q as int, old_found);
                    }
                }
                q = q + 1;
            }
            proof {
                lemma_counted_equiv(g, n as int, ends@, deg, out@, v as int, p as int);
                lemma_found_next(g, n as int, ends@, deg, out@, v as int, p as int, out@[u as int]@.len() as int, v as int, p + 1, 0, found@);
            }
            p = p + 1;
        }
        proof {
            lemma_counted_equiv(g, n as int, ends@, deg, out@, v as int, 0);
            lemma_found_next(g, n as int, ends@, deg, out@, v as int, len_v as int, 0, v + 1, 0, 0, found@);
        }
        v = v + 1;
    }
    proof {
        assert forall|a: int, b: int, c: int| #[trigger] is_triangle(g, a, b, c) implies exists|i: int|
            0 <= i < found@.len() && vertex_set(#[trigger] found@[i]) == set![a, b, c] by {
            lemma_triangle(g, n as int, ends@, deg, out@, a, b, c);
            lemma_multiplicity_pos(n as int, g, a, b);
            lemma_multiplicity_pos(n as int, g, a, c);
            assert(counted(deg, out@, n as int, 0, 0, a, b, c));
        }
    }
    found
}

/// The listed triangles are those counted, at two points of the loop that count the same
/// triangles.
proof fn lemma_found_next(
    edges: Seq<(usize, usize)>,
    n: int,
    ends: Seq<(usize, usize)>,
    deg: Seq<usize>,
    out: Seq<Vec<(usize, usize)>>,
    v: int,
    p: int,
    q: int,
    v2: int,
    p2: int,
    q2: int,
    found: Seq<(usize, usize, usize)>,
)
    requires
        valid_edges(n, edges),
        oriented(edges, n, ends, deg, out),
        lists_counted(edges, deg, out, v, p, q, found),
        forall|a: int, b: int, c: int|
            is_triangle(edges, a, b, c) ==> (counted(deg, out, v, p, q, a, b, c) <==> #[trigger] counted(
                deg,
                out,
                v2,
                p2,
                q2,
                a,
                b,
                c,
            )),
    ensures
        lists_counted(edges, deg, out, v2, p2, q2, found),
{
    assert forall|i: int| 0 <= i < found.len() implies is_triangle(
        edges,
        (#[trigger] found[i]).0 as int,
        found[i].1 as int,
        found[i].2 as int,
    ) && counted(deg, out, v2, p2, q2, found[i].0 as int, found[i].1 as int, found[i].2 as int) by {}
    assert forall|a: int, b: int, c: int|
        #![trigger counted(deg, out, v2, p2, q2, a, b, c)]
        is_triangle(edges, a, b, c) && counted(deg, out, v2, p2, q2, a, b, c) implies exists|i: int|
            0 <= i < found.len() && vertex_set(#[trigger] found[i]) == set![a, b, c] by {
        assert(counted(deg, out, v, p, q, a, b, c));
    }
}

/// Passing the last entry of `out[u]`, for the entry `u` at `p` of `out[v]`, counts the triangles
/// that passing that entry does, and passing the last entry of `out[v]` those that passing `v` does.
proof fn lemma_counted_equiv(
    edges: Seq<(usize, usize)>,
    n: int,
    ends: Seq<(usize, usize)>,
    deg: Seq<usize>,
    out: Seq<Vec<(usize, usize)>>,
    v: int,
    p: int,
)
    requires
        valid_edges(n, edges),
        oriented(edges, n, ends, deg, out),
        0 <= v < n,
    ensures
        0 <= p < out[v]@.len() ==> forall|a: int, b: int, c: int|
            is_triangle(edges, a, b, c) ==> (counted(deg, out, v, p, out[out[v]@[p].0 as int]@.len() as int, a, b, c)
                <==> #[trigger] counted(deg, out, v, p + 1, 0, a, b, c)),
        forall|a: int, b: int, c: int|
            is_triangle(edges, a, b, c) ==> (counted(deg, out, v, out[v]@.len() as int, 0, a, b, c) <==> #[trigger] counted(
                deg,
                out,
                v + 1,
                0,
                0,
                a,
                b,
                c,
            )),
{
    if 0 <= p < out[v]@.len() {
        lemma_pos_of(edges, n, ends, deg, out, v, p);
        assert forall|a: int, b: int, c: int| is_triangle(edges, a, b, c) implies (counted(
            deg,
            out,
            v,
            p,
            out[out[v]@[p].0 as int]@.len() as int,
            a,
            b,
            c,
        ) <==> #[trigger] counted(deg, out, v, p + 1, 0, a, b, c)) by {
            lemma_triangle(edges, n, ends, deg, out, a, b, c);
        }
    }
    assert forall|a: int, b: int, c: int| is_triangle(edges, a, b, c) implies (counted(
        deg,
        out,
        v,
        out[v]@.len() as int,
        0,
        a,
        b,
        c,
    ) <==> #[trigger] counted(deg, out, v + 1, 0, 0, a, b, c)) by {
        lemma_triangle(edges, n, ends, deg, out, a, b, c);
    }
}

/// The triangle on `v`, the entry `u` at `p` of `out[v]` and the entry `w` at `q` of `out[u]`, which
/// `out[v]` also lists, is new, and listing it keeps the listed triangles those counted.
proof fn lemma_found_push(
    edges: Seq<(usize, usize)>,
    n: int,
    class: Seq<usize>,
    ends: Seq<(usize, usize)>,
    mult: Seq<usize>,
    deg: Seq<usize>,
    out: Seq<Vec<(usize, usize)>>,
    v: int,
    p: int,
    q: int,
    found: Seq<(usize, usize, usize)>,
)
    requires
        valid_edges(n, edges),
        grouped(edges, class, ends, mult),
        oriented(edges, n, ends, deg, out),
        0 <= v < n,
        0 <= p < out[v]@.len(),
        0 <= q < out[out[v]@[p].0 as int]@.len(),
        has_entry(out, v, out[out[v]@[p].0 as int]@[q].0 as int),
        lists_counted(edges, deg, out, v, p, q, found),
    ensures
        lists_counted(
            edges,
            deg,
            out,
            v,
            p,
            q + 1,
            found.push((out[v]@[p].0, v as usize, out[out[v]@[p].0 as int]@[q].0)),
        ),
{
    let u = out[v]@[p].0 as int;
    let w = out[u]@[q].0 as int;
    let t = (out[v]@[p].0, v as usize, out[u]@[q].0);
    let f2 = found.push(t);
    let r = choose|r: int| 0 <= r < out[v]@.len() && (#[trigger] out[v]@[r]).0 == w;
    let entry1 = out[v]@[p];
    let entry2 = out[u]@[q];
    let entry3 = out[v]@[r];
    assert(entry1.0 < n && entry1.1 < ends.len());
    assert(entry2.0 < n && entry2.1 < ends.len());
    assert(entry3.0 < n && entry3.1 < ends.len());
    lemma_class(edges, class, ends, mult, entry1.1 as int);
    lemma_class(edges, class, ends, mult, entry2.1 as int);
    lemma_class(edges, class, ends, mult, entry3.1 as int);
    lemma_multiplicity_symmetric(edges, v, u);
    lemma_multiplicity_symmetric(edges, u, w);
    lemma_multiplicity_symmetric(edges, v, w);
    assert(v as usize == v);
    assert(is_triangle(edges, u, v, w));
    lemma_pos_of(edges, n, ends, deg, out, v, p);
    lemma_pos_of(edges, n, ends, deg, out, u, q);
    assert(order3(deg, u, v, w) == (v, u, w));
    assert forall|i: int| 0 <= i < f2.len() implies is_triangle(
        edges,
        (#[trigger] f2[i]).0 as int,
        f2[i].1 as int,
        f2[i].2 as int,
    ) && counted(deg, out, v, p, q + 1, f2[i].0 as int, f2[i].1 as int, f2[i].2 as int) by {
        if i < found.len() {
            assert(f2[i] == found[i]);
        }
    }
    assert forall|i: int, j: int| 0 <= i < j < f2.len() implies vertex_set(#[trigger] f2[i]) != vertex_set(
        #[trigger] f2[j],
    ) by {
        if j == found.len() {
            assert(f2[i] == found[i]);
            if vertex_set(found[i]) == vertex_set(t) {
                assert(vertex_set(t) =~= set![u, v, w]);
                lemma_triangle_order(edges, n, ends, deg, out, u, v, w, found[i]);
            }
        } else {
            assert(f2[i] == found[i] && f2[j] == found[j]);
        }
    }
    assert forall|a: int, b: int, c: int|
        #![trigger counted(deg, out, v, p, q + 1, a, b, c)]
        is_triangle(edges, a, b, c) && counted(deg, out, v, p, q + 1, a, b, c) implies exists|i: int|
            0 <= i < f2.len() && vertex_set(#[trigger] f2[i]) == set![a, b, c] by {
        if counted(deg, out, v, p, q, a, b, c) {
            let i = choose|i: int| 0 <= i < found.len() && vertex_set(#[trigger] found[i]) == set![a, b, c];
            assert(f2[i] == found[i]);
        } else {
            lemma_triangle(edges, n, ends, deg, out, a, b, c);
            assert(vertex_set(f2[found.len() as int]) =~= set![a, b, c]);
        }
    }
}

/// At the entry `w` at `q` of `out[u]`, for the entry `u` at `p` of `out[v]`, which `out[v]` does
/// not list, there is no triangle, and the listed triangles stay those counted.
proof fn lemma_found_skip(
    edges: Seq<(usize, usize)>,
    n: int,
    class: Seq<usize>,
    ends: Seq<(usize, usize)>,
    mult: Seq<usize>,
    deg: Seq<usize>,
    out: Seq<Vec<(usize, usize)>>,
    v: int,
    p: int,
    q: int,
    found: Seq<(usize, usize, usize)>,
)
    requires
        valid_edges(n, edges),
        grouped(edges, class, ends, mult),
        oriented(edges, n, ends, deg, out),
        0 <= v < n,
        0 <= p < out[v]@.len(),
        0 <= q < out[out[v]@[p].0 as int]@.len(),
        !has_entry(out, v, out[out[v]@[p].0 as int]@[q].0 as int),
        lists_counted(edges, deg, out, v, p, q, found),
    ensures
        lists_counted(edges, deg, out, v, p, q + 1, found),
{
    let u = out[v]@[p].0 as int;
    let w = out[u]@[q].0 as int;
    lemma_pos_of(edges, n, ends, deg, out, v, p);
    lemma_pos_of(edges, n, ends, deg, out, u, q);
    assert forall|a: int, b: int, c: int|
        #![trigger counted(deg, out, v, p, q + 1, a, b, c)]
        is_triangle(edges, a, b, c) && counted(deg, out, v, p, q + 1, a, b, c) implies exists|i: int|
            0 <= i < found.len() && vertex_set(#[trigger] found[i]) == set![a, b, c] by {
        if !counted(deg, out, v, p, q, a, b, c) {
            lemma_triangle(edges, n, ends, deg, out, a, b, c);
            lemma_multiplicity_symmetric(edges, a, b);
            lemma_multiplicity_symmetric(edges, a, c);
            lemma_multiplicity_symmetric(edges, b, c);
            assert(multiplicity(edges, v, w) > 0);
            lemma_entry_of_pair(edges, n, ends, deg, out, v, w);
            assert(has_entry(out, v, w));
        }
    }
}

/// A `C4` through the edge joining `a` and `b`, going on from `b` to `c`, then `d`, back to `a`:
/// the number of choices of its three other edges, for four distinct vertices.
pub open spec fn c4_term(edges: Seq<(usize, usize)>, a: int, b: int, c: int, d: int) -> int {
    if c != a && d != b {
        (multiplicity(edges, b, c) * multiplicity(edges, c, d) * multiplicity(edges, d, a)) as int
    } else {
        0
    }
}

/// `f(c, d)` summed over `c` and `d` in `[0, n)`.
pub open spec fn sum_square(f: spec_fn(int, int) -> int, n: int) -> int {
    sum_range(|c: int| sum_range(|d: int| f(c, d), 0, n), 0, n)
}

/// The number of `C4` through the edge joining `a` and `b`, the smaller end taken first: over the
/// two other vertices `c` and `d`, the edges joining `b` and `c`, `c` and `d`, `d` and `a`.
pub open spec fn c4_through(edges: Seq<(usize, usize)>, n: int, a: int, b: int) -> int {
    let (s, t) = if a <= b {
        (a, b)
    } else {
        (b, a)
    };
    sum_square(|c: int, d: int| c4_term(edges, s, t, c, d), n)
}

/// The number of walks of two edges from `x` to `y`.
pub open spec fn two_paths(edges: Seq<(usize, usize)>, n: int, x: int, y: int) -> int {
    sum_range(|w: int| (multiplicity(edges, x, w) * multiplicity(edges, w, y)) as int, 0, n)
}

/// The sum of a sum of two functions is the sum of their sums.
proof fn lemma_sum_add(f: spec_fn(int) -> int, g: spec_fn(int) -> int, h: spec_fn(int) -> int, lo: int, hi: int)
    requires
        forall|c: int| lo <= c < hi ==> #[trigger] h(c) == f(c) + g(c),
    ensures
        sum_range(h, lo, hi) == sum_range(f, lo, hi) + sum_range(g, lo, hi),
    decreases hi - lo,
{
    if hi > lo {
        lemma_sum_add(f, g, h, lo, hi - 1);
    }
}

/// A constant factor comes out of a sum.
proof fn lemma_sum_scale(f: spec_fn(int) -> int, g: spec_fn(int) -> int, k: int, lo: int, hi: int)
    requires
        forall|c: int| lo <= c < hi ==> #[trigger] g(c) == k * f(c),
    ensures
        sum_range(g, lo, hi) == k * sum_range(f, lo, hi),
    decreases hi - lo,
{
    if hi > lo {
        lemma_sum_scale(f, g, k, lo, hi - 1);
        vstd::arithmetic::mul::lemma_mul_is_distributive_add(k, sum_range(f, lo, hi - 1), f(hi - 1));
    }
}

/// Double sums of functions that agree agree.
proof fn lemma_square_ext(f: spec_fn(int, int) -> int, g: spec_fn(int, int) -> int, n: int)
    requires
        forall|c: int, d: int| 0 <= c < n && 0 <= d < n ==> #[trigger] f(c, d) == g(c, d),
    ensures
        sum_square(f, n) == sum_square(g, n),
{
    let rf = |c: int| sum_range(|d: int| f(c, d), 0, n);
    let rg = |c: int| sum_range(|d: int| g(c, d), 0, n);
    assert forall|c: int| 0 <= c < n implies #[trigger] rf(c) == rg(c) by {
        lemma_sum_ext(|d: int| f(c, d), |d: int| g(c, d), 0, n);
    }
    lemma_sum_ext(rf, rg, 0, n);
}

/// Changing a double sum in the row `c0` only changes it by the change of that row.
proof fn lemma_square_row(f: spec_fn(int, int) -> int, g: spec_fn(int, int) -> int, n: int, c0: int)
    requires
        0 <= c0 < n,
        forall|c: int, d: int| 0 <= c < n && 0 <= d < n && c != c0 ==> #[trigger] f(c, d) == g(c, d),
    ensures
        sum_square(g, n) == sum_square(f, n) + sum_range(|d: int| g(c0, d) - f(c0, d), 0, n),
{
    let rf = |c: int| sum_range(|d: int| f(c, d), 0, n);
    let rg = |c: int| sum_range(|d: int| g(c, d), 0, n);
    assert forall|c: int| 0 <= c < n && c != c0 implies #[trigger] rf(c) == rg(c) by {
        lemma_sum_ext(|d: int| f(c, d), |d: int| g(c, d), 0, n);
    }
    lemma_sum_update(rf, rg, 0, n, c0);
    lemma_sum_add(|d: int| f(c0, d), |d: int| g(c0, d) - f(c0, d), |d: int| g(c0, d), 0, n);
}

/// Changing a double sum in the column `d0` only changes it by the change of that column.
proof fn lemma_square_column(f: spec_fn(int, int) -> int, g: spec_fn(int, int) -> int, n: int, d0: int)
    requires
        0 <= d0 < n,
        forall|c: int, d: int| 0 <= c < n && 0 <= d < n && d != d0 ==> #[trigger] f(c, d) == g(c, d),
    ensures
        sum_square(g, n) == sum_square(f, n) + sum_range(|c: int| g(c, d0) - f(c, d0), 0, n),
{
    let rf = |c: int| sum_range(|d: int| f(c, d), 0, n);
    let rg = |c: int| sum_range(|d: int| g(c, d), 0, n);
    let delta = |c: int| g(c, d0) - f(c, d0);
    assert forall|c: int| 0 <= c < n implies #[trigger] rg(c) == rf(c) + delta(c) by {
        lemma_sum_update(|d: int| f(c, d), |d: int| g(c, d), 0, n, d0);
    }
    lemma_sum_add(rf, delta, rg, 0, n);
}

/// A double sum of terms each at most the corresponding one is at most the other, and one of
/// non-negative terms is non-negative.
proof fn lemma_square_le(f: spec_fn(int, int) -> int, g: spec_fn(int, int) -> int, n: int)
    requires
        forall|c: int, d: int| 0 <= c < n && 0 <= d < n ==> 0 <= #[trigger] f(c, d) <= g(c, d),
    ensures
        0 <= sum_square(f, n) <= sum_square(g, n),
{
    let rf = |c: int| sum_range(|d: int| f(c, d), 0, n);
    let rg = |c: int| sum_range(|d: int| g(c, d), 0, n);
    assert forall|c: int| 0 <= c < n implies 0 <= #[trigger] rf(c) <= rg(c) by {
        lemma_sum_le(|d: int| f(c, d), |d: int| g(c, d), 0, n);
        lemma_sum_nonneg(|d: int| f(c, d), 0, n);
    }
    lemma_sum_le(rf, rg, 0, n);
    lemma_sum_nonneg(rf, 0, n);
}

/// Each class of parallel edges, as an entry `(w, k)` of `adj[v]` from each end `v` to the other
/// `w`, once.
spec fn linked(edges: Seq<(usize, usize)>, n: int, ends: Seq<(usize, usize)>, adj: Seq<Vec<(usize, usize)>>) -> bool {
    &&& adj.len() == n
    &&& forall|v: int, p: int|
        0 <= v < n && 0 <= p < adj[v]@.len() ==> {
            let (w, k) = #[trigger] adj[v]@[p];
            &&& w < n
            &&& k < ends.len()
            &&& v != w
            &&& (v < w ==> ends[k as int].0 == v && ends[k as int].1 == w)
            &&& (w < v ==> ends[k as int].0 == w && ends[k as int].1 == v)
        }
    &&& forall|v: int, p: int, q: int|
        0 <= v < n && 0 <= p < adj[v]@.len() && 0 <= q < adj[v]@.len() && p != q ==> (#[trigger] adj[v]@[p]).0
            != (#[trigger] adj[v]@[q]).0
    &&& forall|x: int, y: int|
        0 <= x < n && 0 <= y < n && multiplicity(edges, x, y) > 0 ==> #[trigger] has_entry(adj, x, y)
}

/// Lists each class of parallel edges from both its ends: returns the degrees and the lists.
fn link_classes(
    n: usize,
    Ghost(edges): Ghost<Seq<(usize, usize)>>,
    class: &Vec<usize>,
    ends: &Vec<(usize, usize)>,
    mult: &Vec<usize>,
) -> (res: (Vec<usize>, Vec<Vec<(usize, usize)>>))
    requires
        valid_edges(n as int, edges),
        grouped(edges, class@, ends@, mult@),
        forall|k: int| 0 <= k < ends@.len() ==> #[trigger] ends@[k].1 < n,
        ends@.len() <= edges.len(),
    ensures
        res.0@.len() == n,
        linked(edges, n as int, ends@, res.1@),
{
    let ghost m = edges.len();
    let mut degree: Vec<usize> = vec![0; n];
    let mut k: usize = 0;
    while k < ends.len()
        invariant
            k <= ends@.len(),
            ends@.len() <= m,
            m == edges.len(),
            degree@.len() == n,
            grouped(edges, class@, ends@, mult@),
            forall|j: int| 0 <= j < ends@.len() ==> #[trigger] ends@[j].1 < n,
            forall|x: int| 0 <= x < n ==> #[trigger] degree@[x] <= k,
        decreases ends@.len() - k,
    {
        let (a, b) = ends[k];
        degree.set(a, degree[a] + 1);
        degree.set(b, degree[b] + 1);
        k = k + 1;
    }
    let mut adj: Vec<Vec<(usize, usize)>> = Vec::new();
    let mut x: usize = 0;
    while x < n
        invariant
            x <= n,
            adj@.len() == x,
            forall|y: int| 0 <= y < x ==> (#[trigger] adj@[y])@.len() == 0,
        decreases n - x,
    {
        adj.push(Vec::new());
        x = x + 1;
    }
    let mut k: usize = 0;
    while k < ends.len()
        invariant
            k <= ends@.len(),
            adj@.len() == n,
            valid_edges(n as int, edges),
            grouped(edges, class@, ends@, mult@),
            forall|j: int| 0 <= j < ends@.len() ==> #[trigger] ends@[j].1 < n,
            forall|v: int, p: int|
                0 <= v < n && 0 <= p < adj@[v]@.len() ==> {
                    let (w, j) = #[trigger] adj@[v]@[p];
                    &&& w < n
                    &&& j < k
                    &&& v != w
                    &&& (v < w ==> ends@[j as int].0 == v && ends@[j as int].1 == w)
                    &&& (w < v ==> ends@[j as int].0 == w && ends@[j as int].1 == v)
                },
            forall|v: int, p: int, q: int|
                0 <= v < n && 0 <= p < adj@[v]@.len() && 0 <= q < adj@[v]@.len() && p != q ==> (
                #[trigger] adj@[v]@[p]).0 != (#[trigger] adj@[v]@[q]).0,
            forall|j: int|
                0 <= j < k ==> has_entry(adj@, (#[trigger] ends@[j]).0 as int, ends@[j].1 as int) && has_entry(
                    adj@,
                    ends@[j].1 as int,
                    ends@[j].0 as int,
                ),
        decreases ends@.len() - k,
    {
        let (a, b) = ends[k];
        proof {
            lemma_class(edges, class@, ends@, mult@, k as int);
            assert forall|p: int| 0 <= p < adj@[a as int]@.len() implies (#[trigger] adj@[a as int]@[p]).0 != b by {
                let (w, j) = adj@[a as int]@[p];
                if w == b {
                    assert(ends@[j as int] == ends@[k as int]);
                }
            }
            assert forall|p: int| 0 <= p < adj@[b as int]@.len() implies (#[trigger] adj@[b as int]@[p]).0 != a by {
                let (w, j) = adj@[b as int]@[p];
                if w == a {
                    assert(ends@[j as int] == ends@[k as int]);
                }
            }
        }
        let ghost old_adj = adj@;
        adj[a].push((b, k));
        let ghost mid_adj = adj@;
        adj[b].push((a, k));
        proof {
            assert forall|j: int|
                0 <= j < k + 1 implies has_entry(adj@, (#[trigger] ends@[j]).0 as int, ends@[j].1 as int) && has_entry(
                adj@,
                ends@[j].1 as int,
                ends@[j].0 as int,
            ) by {
                let (s, t) = (ends@[j].0 as int, ends@[j].1 as int);
                if j < k {
                    assert(has_entry(old_adj, s, t));
                    let p = choose|p: int| 0 <= p < old_adj[s]@.len() && (#[trigger] old_adj[s]@[p]).0 == t;
                    assert(adj@[s]@[p] == old_adj[s]@[p]);
                    assert(has_entry(old_adj, t, s));
                    let p2 = choose|p2: int| 0 <= p2 < old_adj[t]@.len() && (#[trigger] old_adj[t]@[p2]).0 == s;
                    assert(adj@[t]@[p2] == old_adj[t]@[p2]);
                } else {
                    let p = mid_adj[a as int]@.len() - 1;
                    assert(adj@[a as int]@[p] == mid_adj[a as int]@[p]);
                    let p2 = adj@[b as int]@.len() - 1;
                    assert(adj@[b as int]@[p2].0 == a);
                }
            }
        }
        k = k + 1;
    }
    proof {
        assert forall|a: int, b: int| 0 <= a < n && 0 <= b < n && multiplicity(edges, a, b) > 0 implies #[trigger] has_entry(
            adj@,
            a,
            b,
        ) by {
            lemma_multiplicity_pos(n as int, edges, a, b);
            let i = choose|i: int| 0 <= i < edges.len() && #[trigger] joins(edges[i], a, b);
            let j = class@[i] as int;
            assert(ends@[j] == ends_of(edges[i]));
        }
    }
    (degree, adj)
}

/// The vertex of highest rank among `a`, `b`, `c`, `d`.
spec fn top4(deg: Seq<usize>, a: int, b: int, c: int, d: int) -> int {
    let s = if rank_lt(deg, a, b) {
        b
    } else {
        a
    };
    let t = if rank_lt(deg, c, d) {
        d
    } else {
        c
    };
    if rank_lt(deg, s, t) {
        t
    } else {
        s
    }
}

/// For the `C4` through `a`, `b`, `c`, `d` in this order, the neighbour `v` of its vertex of
/// highest rank and the vertex `y` after it, such that the walk from the top through `v` to `y`
/// holds the edge joining `a` and `b`.
spec fn step_of(deg: Seq<usize>, a: int, b: int, c: int, d: int) -> (int, int) {
    let t = top4(deg, a, b, c, d);
    if t == a {
        (b, c)
    } else if t == b {
        (a, d)
    } else if t == c {
        (b, a)
    } else {
        (a, b)
    }
}

/// The `C4` through `a`, `b`, `c`, `d` has been counted for the edge joining `a` and `b` once the
/// loop has passed its top vertex, or, at the top, the walk of `step_of`.
spec fn counted4(
    deg: Seq<usize>,
    adj: Seq<Vec<(usize, usize)>>,
    x: int,
    p: int,
    q: int,
    a: int,
    b: int,
    c: int,
    d: int,
) -> bool {
    let t = top4(deg, a, b, c, d);
    let (v, y) = step_of(deg, a, b, c, d);
    t < x || (t == x && (pos(adj, t, v) < p || (pos(adj, t, v) == p && pos(adj, v, y) < q)))
}

/// The number of `C4` through the edges joining `a` and `b` among those counted so far.
spec fn counted_c4(
    edges: Seq<(usize, usize)>,
    n: int,
    deg: Seq<usize>,
    adj: Seq<Vec<(usize, usize)>>,
    x: int,
    p: int,
    q: int,
    a: int,
    b: int,
) -> int {
    sum_square(
        |c: int, d: int|
            if counted4(deg, adj, x, p, q, a, b, c, d) {
                c4_term(edges, a, b, c, d)
            } else {
                0
            },
        n,
    )
}

/// A `C4` through `a`, `b`, `c`, `d`: four distinct vertices, the others of lower rank than the
/// top, and the walk of `step_of` listed.
proof fn lemma_cycle(
    edges: Seq<(usize, usize)>,
    n: int,
    ends: Seq<(usize, usize)>,
    deg: Seq<usize>,
    adj: Seq<Vec<(usize, usize)>>,
    a: int,
    b: int,
    c: int,
    d: int,
)
    requires
        valid_edges(n, edges),
        linked(edges, n, ends, adj),
        deg.len() == n,
        multiplicity(edges, a, b) > 0,
        c4_term(edges, a, b, c, d) != 0,
    ensures
        0 <= a < n && 0 <= b < n && 0 <= c < n && 0 <= d < n,
        a != b && a != c && a != d && b != c && b != d && c != d,
        multiplicity(edges, b, c) > 0 && multiplicity(edges, c, d) > 0 && multiplicity(edges, d, a) > 0,
        ({
            let t = top4(deg, a, b, c, d);
            let (v, y) = step_of(deg, a, b, c, d);
            &&& t == a || t == b || t == c || t == d
            &&& (a != t ==> rank_lt(deg, a, t)) && (b != t ==> rank_lt(deg, b, t))
            &&& (c != t ==> rank_lt(deg, c, t)) && (d != t ==> rank_lt(deg, d, t))
            &&& 0 <= t < n && 0 <= v < n
            &&& 0 <= pos(adj, t, v) < adj[t]@.len() && adj[t]@[pos(adj, t, v)].0 == v
            &&& 0 <= pos(adj, v, y) < adj[v]@.len() && adj[v]@[pos(adj, v, y)].0 == y
            &&& rank_lt(deg, v, t) && rank_lt(deg, y, t)
        }),
{
    let mb = multiplicity(edges, b, c) as int;
    let mc = multiplicity(edges, c, d) as int;
    let md = multiplicity(edges, d, a) as int;
    assert(mb != 0 && mc != 0 && md != 0) by {
        if mb == 0 || mc == 0 || md == 0 {
            assert(mb * mc * md == 0) by (nonlinear_arith)
                requires
                    mb == 0 || mc == 0 || md == 0,
            ;
        }
    }
    lemma_multiplicity_pos(n, edges, a, b);
    lemma_multiplicity_pos(n, edges, b, c);
    lemma_multiplicity_pos(n, edges, c, d);
    lemma_multiplicity_pos(n, edges, d, a);
    lemma_multiplicity_symmetric(edges, a, b);
    lemma_multiplicity_symmetric(edges, b, c);
    lemma_multiplicity_symmetric(edges, c, d);
    lemma_multiplicity_symmetric(edges, d, a);
    let t = top4(deg, a, b, c, d);
    let (v, y) = step_of(deg, a, b, c, d);
    assert(multiplicity(edges, t, v) > 0);
    assert(multiplicity(edges, v, y) > 0);
    assert(has_entry(adj, t, v));
    assert(has_entry(adj, v, y));
}

/// The entry of `adj[x]` at `p` is the one `pos` finds.
proof fn lemma_adj_pos_of(
    edges: Seq<(usize, usize)>,
    n: int,
    ends: Seq<(usize, usize)>,
    adj: Seq<Vec<(usize, usize)>>,
    x: int,
    p: int,
)
    requires
        linked(edges, n, ends, adj),
        0 <= x < n,
        0 <= p < adj[x]@.len(),
    ensures
        pos(adj, x, adj[x]@[p].0 as int) == p,
        adj[x]@[p].0 < n,
        adj[x]@[p].0 != x,
{
    let y = adj[x]@[p].0 as int;
    assert(has_entry(adj, x, y));
    let p2 = pos(adj, x, y);
    assert(adj[x]@[p2].0 == y);
    if p2 != p {
        assert(adj[x]@[p2].0 != adj[x]@[p].0);
    }
}

/// The walks from `x` through `w` to `y`, if `w` has lower rank than `x` and is not `v`.
spec fn rest_term(edges: Seq<(usize, usize)>, deg: Seq<usize>, x: int, v: int, y: int, w: int) -> int {
    if rank_lt(deg, w, x) && w != v {
        (multiplicity(edges, x, w) * multiplicity(edges, w, y)) as int
    } else {
        0
    }
}

/// The walks from `x` through `w` to `y`, for `w` of lower rank than `x` other than `v`.
spec fn rest_paths(edges: Seq<(usize, usize)>, n: int, deg: Seq<usize>, x: int, v: int, y: int) -> int {
    sum_range(|w: int| rest_term(edges, deg, x, v, y, w), 0, n)
}

/// A `C4` whose count changes at the walk from `x` through `v` to `y` has the top `x` and that
/// walk, and one with that top and walk is counted there.
proof fn lemma_c4_flip(
    edges: Seq<(usize, usize)>,
    n: int,
    ends: Seq<(usize, usize)>,
    deg: Seq<usize>,
    adj: Seq<Vec<(usize, usize)>>,
    x: int,
    p: int,
    q: int,
    a: int,
    b: int,
    c: int,
    d: int,
)
    requires
        valid_edges(n, edges),
        linked(edges, n, ends, adj),
        deg.len() == n,
        0 <= x < n,
        0 <= p < adj[x]@.len(),
        0 <= q < adj[adj[x]@[p].0 as int]@.len(),
        multiplicity(edges, a, b) > 0,
        c4_term(edges, a, b, c, d) != 0,
    ensures
        ({
            let v = adj[x]@[p].0 as int;
            let y = adj[v]@[q].0 as int;
            &&& counted4(deg, adj, x, p, q, a, b, c, d) != counted4(deg, adj, x, p, q + 1, a, b, c, d) ==> top4(
                deg,
                a,
                b,
                c,
                d,
            ) == x && step_of(deg, a, b, c, d) == (v, y) && rank_lt(deg, v, x) && rank_lt(deg, y, x)
            &&& top4(deg, a, b, c, d) == x && step_of(deg, a, b, c, d) == (v, y) ==> !counted4(
                deg,
                adj,
                x,
                p,
                q,
                a,
                b,
                c,
                d,
            ) && counted4(deg, adj, x, p, q + 1, a, b, c, d)
        }),
{
    let v = adj[x]@[p].0 as int;
    lemma_cycle(edges, n, ends, deg, adj, a, b, c, d);
    lemma_adj_pos_of(edges, n, ends, adj, x, p);
    lemma_adj_pos_of(edges, n, ends, adj, v, q);
}

/// Passing the walk from `x` through `v`, at `p` in `adj[x]`, to `y`, at `q` in `adj[v]`, in the
/// second pass: the count through the edges joining `x` and `v` gains those joining `v` and `y`
/// times the other walks from `x` to `y`, that through the edges joining `v` and `y` those joining
/// `x` and `v` times the same, if `v` and `y` are below `x`; the others stay.
proof fn lemma_c4_step(
    edges: Seq<(usize, usize)>,
    n: int,
    ends: Seq<(usize, usize)>,
    deg: Seq<usize>,
    adj: Seq<Vec<(usize, usize)>>,
    x: int,
    p: int,
    q: int,
    a: int,
    b: int,
)
    requires
        valid_edges(n, edges),
        linked(edges, n, ends, adj),
        deg.len() == n,
        0 <= x < n,
        0 <= p < adj[x]@.len(),
        0 <= q < adj[adj[x]@[p].0 as int]@.len(),
        multiplicity(edges, a, b) > 0,
    ensures
        ({
            let v = adj[x]@[p].0 as int;
            let y = adj[v]@[q].0 as int;
            let before = counted_c4(edges, n, deg, adj, x, p, q, a, b);
            let after = counted_c4(edges, n, deg, adj, x, p, q + 1, a, b);
            if rank_lt(deg, v, x) && rank_lt(deg, y, x) {
                if (a == x && b == v) || (a == v && b == x) {
                    after == before + multiplicity(edges, v, y) * rest_paths(edges, n, deg, x, v, y)
                } else if (a == v && b == y) || (a == y && b == v) {
                    after == before + multiplicity(edges, x, v) * rest_paths(edges, n, deg, x, v, y)
                } else {
                    after == before
                }
            } else {
                after == before
            }
        }),
{
    let v = adj[x]@[p].0 as int;
    let y = adj[v]@[q].0 as int;
    lemma_adj_pos_of(edges, n, ends, adj, x, p);
    lemma_adj_pos_of(edges, n, ends, adj, v, q);
    let f = |c: int, d: int|
        if counted4(deg, adj, x, p, q, a, b, c, d) {
            c4_term(edges, a, b, c, d)
        } else {
            0
        };
    let g = |c: int, d: int|
        if counted4(deg, adj, x, p, q + 1, a, b, c, d) {
            c4_term(edges, a, b, c, d)
        } else {
            0
        };
    let h = |w: int| rest_term(edges, deg, x, v, y, w);
    let below = rank_lt(deg, v, x) && rank_lt(deg, y, x);
    let a1 = below && a == x && b == v;
    let a2 = below && a == v && b == x;
    let b1 = below && a == v && b == y;
    let b2 = below && a == y && b == v;
    if !(a1 || a2 || b1 || b2) {
        assert forall|c: int, d: int| 0 <= c < n && 0 <= d < n implies #[trigger] f(c, d) == g(c, d) by {
            if c4_term(edges, a, b, c, d) != 0 {
                lemma_c4_flip(edges, n, ends, deg, adj, x, p, q, a, b, c, d);
            }
        }
        lemma_square_ext(f, g, n);
    } else {
        lemma_multiplicity_symmetric(edges, x, v);
        lemma_multiplicity_symmetric(edges, v, y);
        let k = if a1 || a2 {
            multiplicity(edges, v, y) as int
        } else {
            multiplicity(edges, x, v) as int
        };
        let at = if a1 {
            y
        } else if a2 {
            y
        } else if b1 {
            x
        } else {
            x
        };
        let row = a1 || b2;
        let delta = |w: int| if row {
            g(at, w) - f(at, w)
        } else {
            g(w, at) - f(w, at)
        };
        assert forall|c: int, d: int|
            0 <= c < n && 0 <= d < n && (if row {
                c != at
            } else {
                d != at
            }) implies #[trigger] f(c, d) == g(c, d) by {
            if c4_term(edges, a, b, c, d) != 0 {
                lemma_c4_flip(edges, n, ends, deg, adj, x, p, q, a, b, c, d);
            }
        }
        assert forall|w: int| 0 <= w < n implies #[trigger] delta(w) == k * h(w) by {
            let (c, d) = if row {
                (at, w)
            } else {
                (w, at)
            };
            let t = c4_term(edges, a, b, c, d);
            let mxw = multiplicity(edges, x, w) as int;
            let mwy = multiplicity(edges, w, y) as int;
            lemma_multiplicity_symmetric(edges, x, w);
            lemma_multiplicity_symmetric(edges, w, y);
            if w == v {
                assert(t == 0);
            } else {
                assert(t == k * (mxw * mwy)) by {
                    let m1 = multiplicity(edges, x, v) as int;
                    let m2 = multiplicity(edges, v, y) as int;
                    if a1 {
                        assert(t == m2 * mwy * mxw);
                    } else if a2 {
                        assert(t == mxw * mwy * m2);
                    } else if b1 {
                        assert(t == mwy * mxw * m1);
                    } else {
                        assert(t == m1 * mxw * mwy);
                    }
                    assert(m2 * mwy * mxw == m2 * (mxw * mwy)) by (nonlinear_arith);
                    assert(mxw * mwy * m2 == m2 * (mxw * mwy)) by (nonlinear_arith);
                    assert(mwy * mxw * m1 == m1 * (mxw * mwy)) by (nonlinear_arith);
                    assert(m1 * mxw * mwy == m1 * (mxw * mwy)) by (nonlinear_arith);
                }
                if t != 0 {
                    lemma_c4_flip(edges, n, ends, deg, adj, x, p, q, a, b, c, d);
                    lemma_cycle(edges, n, ends, deg, adj, a, b, c, d);
                    if rank_lt(deg, w, x) {
                        assert(top4(deg, a, b, c, d) == x);
                    } else {
                        assert(top4(deg, a, b, c, d) != x);
                    }
                } else {
                    assert(k * (mxw * mwy) == 0);
                }
            }
        }
        lemma_sum_scale(h, delta, k, 0, n);
        assert(sum_range(h, 0, n) == rest_paths(edges, n, deg, x, v, y));
        assert(counted_c4(edges, n, deg, adj, x, p, q, a, b) == sum_square(f, n));
        assert(counted_c4(edges, n, deg, adj, x, p, q + 1, a, b) == sum_square(g, n));
        if row {
            lemma_square_row(f, g, n, at);
            lemma_sum_ext(delta, |w: int| g(at, w) - f(at, w), 0, n);
        } else {
            lemma_square_column(f, g, n, at);
            lemma_sum_ext(delta, |w: int| g(w, at) - f(w, at), 0, n);
        }
        assert(sum_square(g, n) == sum_square(f, n) + k * rest_paths(edges, n, deg, x, v, y));
    }
}

/// The walk from `x` through `w` to `y` has been added in the first pass.
spec fn done1(adj: Seq<Vec<(usize, usize)>>, x: int, p: int, q: int, w: int, y: int) -> bool {
    pos(adj, x, w) < p || (pos(adj, x, w) == p && pos(adj, w, y) < q)
}

/// The walks from `x` through `w` to `y` added so far, for `w` of lower rank than `x`.
spec fn path_term(edges: Seq<(usize, usize)>, deg: Seq<usize>, adj: Seq<Vec<(usize, usize)>>, x: int, p: int, q: int, y: int, w: int) -> int {
    if rank_lt(deg, w, x) && done1(adj, x, p, q, w, y) {
        (multiplicity(edges, x, w) * multiplicity(edges, w, y)) as int
    } else {
        0
    }
}

/// The walks from `x` to `y` through a vertex of lower rank than `x`, added so far.
spec fn partial_paths(
    edges: Seq<(usize, usize)>,
    n: int,
    deg: Seq<usize>,
    adj: Seq<Vec<(usize, usize)>>,
    x: int,
    p: int,
    q: int,
    y: int,
) -> int {
    sum_range(|w: int| path_term(edges, deg, adj, x, p, q, y, w), 0, n)
}

/// The walks from `x` through `w` to `y`, if `w` has lower rank than `x`.
spec fn below_term(edges: Seq<(usize, usize)>, deg: Seq<usize>, x: int, y: int, w: int) -> int {
    if rank_lt(deg, w, x) {
        (multiplicity(edges, x, w) * multiplicity(edges, w, y)) as int
    } else {
        0
    }
}

/// The walks from `x` to `y` through a vertex of lower rank than `x`.
spec fn below_paths(edges: Seq<(usize, usize)>, n: int, deg: Seq<usize>, x: int, y: int) -> int {
    sum_range(|w: int| below_term(edges, deg, x, y, w), 0, n)
}

/// The first pass at `x`: nothing added at its start, every walk through a vertex of lower rank
/// at its end, at most those at every point; passing the entry `y` at `q` of `adj[v]`, for the
/// entry `v` at `p` of `adj[x]`, adds the walks through `v` to `y` if `v` is below `x`; and
/// passing the last entry of `adj[v]` is passing `v`.
proof fn lemma_paths(
    edges: Seq<(usize, usize)>,
    n: int,
    ends: Seq<(usize, usize)>,
    deg: Seq<usize>,
    adj: Seq<Vec<(usize, usize)>>,
    x: int,
    p: int,
    q: int,
    y: int,
)
    requires
        valid_edges(n, edges),
        linked(edges, n, ends, adj),
        deg.len() == n,
        0 <= x < n,
    ensures
        partial_paths(edges, n, deg, adj, x, 0, 0, y) == 0,
        partial_paths(edges, n, deg, adj, x, adj[x]@.len() as int, 0, y) == below_paths(edges, n, deg, x, y),
        0 <= partial_paths(edges, n, deg, adj, x, p, q, y) <= below_paths(edges, n, deg, x, y) <= two_paths(edges, n, x, y),
        0 <= p < adj[x]@.len() ==> partial_paths(edges, n, deg, adj, x, p, adj[adj[x]@[p].0 as int]@.len() as int, y)
            == partial_paths(edges, n, deg, adj, x, p + 1, 0, y),
        0 <= p < adj[x]@.len() && 0 <= q < adj[adj[x]@[p].0 as int]@.len() ==> partial_paths(
            edges,
            n,
            deg,
            adj,
            x,
            p,
            q + 1,
            y,
        ) == partial_paths(edges, n, deg, adj, x, p, q, y) + if rank_lt(deg, adj[x]@[p].0 as int, x) && y
            == adj[adj[x]@[p].0 as int]@[q].0 {
            multiplicity(edges, x, adj[x]@[p].0 as int) * multiplicity(edges, adj[x]@[p].0 as int, y)
        } else {
            0
        },
{
    let f0 = |w: int| path_term(edges, deg, adj, x, 0, 0, y, w);
    let fe = |w: int| path_term(edges, deg, adj, x, adj[x]@.len() as int, 0, y, w);
    let fv = |w: int| path_term(edges, deg, adj, x, p, q, y, w);
    let full = |w: int| below_term(edges, deg, x, y, w);
    let all = |w: int| (multiplicity(edges, x, w) * multiplicity(edges, w, y)) as int;
    let zero = |w: int| 0int;
    assert forall|w: int| 0 <= w < n implies #[trigger] f0(w) == zero(w) && fe(w) == full(w) && 0 <= fv(w) <= full(
        w,
    ) && full(w) <= all(w) by {
        let mxw = multiplicity(edges, x, w);
        let mwy = multiplicity(edges, w, y);
        if mxw > 0 && mwy > 0 {
            lemma_multiplicity_pos(n, edges, w, y);
            assert(has_entry(adj, x, w));
            assert(has_entry(adj, w, y));
        } else {
            assert(mxw * mwy == 0) by (nonlinear_arith)
                requires
                    mxw == 0 || mwy == 0,
            ;
        }
    }
    assert forall|w: int| 0 <= w < n implies #[trigger] fe(w) == full(w) by {
        assert(f0(w) == zero(w));
    }
    assert forall|w: int| 0 <= w < n implies 0 <= #[trigger] fv(w) <= full(w) by {
        assert(f0(w) == zero(w));
    }
    assert forall|w: int| 0 <= w < n implies #[trigger] full(w) <= all(w) by {
        assert(f0(w) == zero(w));
    }
    lemma_sum_ext(f0, zero, 0, n);
    lemma_sum_zero(n);
    lemma_sum_ext(fe, full, 0, n);
    lemma_sum_le(fv, full, 0, n);
    lemma_sum_nonneg(fv, 0, n);
    lemma_sum_le(full, all, 0, n);
    if 0 <= p < adj[x]@.len() {
        let v = adj[x]@[p].0 as int;
        lemma_adj_pos_of(edges, n, ends, adj, x, p);
        let fa = |w: int| path_term(edges, deg, adj, x, p, adj[v]@.len() as int, y, w);
        let fb = |w: int| path_term(edges, deg, adj, x, p + 1, 0, y, w);
        assert forall|w: int| 0 <= w < n implies #[trigger] fa(w) == fb(w) by {
            let mxw = multiplicity(edges, x, w);
            let mwy = multiplicity(edges, w, y);
            if mxw > 0 && mwy > 0 {
                lemma_multiplicity_pos(n, edges, w, y);
                assert(has_entry(adj, x, w));
                assert(has_entry(adj, w, y));
            } else {
                assert(mxw * mwy == 0) by (nonlinear_arith)
                    requires
                        mxw == 0 || mwy == 0,
                ;
            }
        }
        lemma_sum_ext(fa, fb, 0, n);
        if 0 <= q < adj[v]@.len() {
            lemma_adj_pos_of(edges, n, ends, adj, v, q);
            let ga = |w: int| path_term(edges, deg, adj, x, p, q, y, w);
            let gb = |w: int| path_term(edges, deg, adj, x, p, q + 1, y, w);
            assert forall|w: int| 0 <= w < n && w != v implies #[trigger] ga(w) == gb(w) by {
                let mxw = multiplicity(edges, x, w);
                let mwy = multiplicity(edges, w, y);
                if mxw > 0 && mwy > 0 {
                    lemma_multiplicity_pos(n, edges, w, y);
                    assert(has_entry(adj, x, w));
                    assert(has_entry(adj, w, y));
                } else {
                    assert(mxw * mwy == 0) by (nonlinear_arith)
                        requires
                            mxw == 0 || mwy == 0,
                    ;
                }
            }
            assert(v < n);
            if y != adj[v]@[q].0 {
                let mxv = multiplicity(edges, x, v);
                let mvy = multiplicity(edges, v, y);
                if mxv > 0 && mvy > 0 {
                    lemma_multiplicity_pos(n, edges, v, y);
                    assert(has_entry(adj, v, y));
                } else {
                    assert(mxv * mvy == 0) by (nonlinear_arith)
                        requires
                            mxv == 0 || mvy == 0,
                    ;
                }
            }
            lemma_sum_update(ga, gb, 0, n, v);
        }
    }
}

/// Passing the last entry of `adj[v]`, for the entry `v` at `p` of `adj[x]`, in the second pass is
/// passing that entry, and passing the last entry of `adj[x]` is passing `x`; before the first
/// vertex nothing is counted, after the last every `C4` is, and at every point at most every one.
proof fn lemma_c4_bounds(
    edges: Seq<(usize, usize)>,
    n: int,
    ends: Seq<(usize, usize)>,
    deg: Seq<usize>,
    adj: Seq<Vec<(usize, usize)>>,
    x: int,
    p: int,
    q: int,
    a: int,
    b: int,
)
    requires
        valid_edges(n, edges),
        linked(edges, n, ends, adj),
        deg.len() == n,
        multiplicity(edges, a, b) > 0,
        a < b,
    ensures
        counted_c4(edges, n, deg, adj, 0, 0, 0, a, b) == 0,
        counted_c4(edges, n, deg, adj, n, 0, 0, a, b) == c4_through(edges, n, a, b),
        0 <= counted_c4(edges, n, deg, adj, x, p, q, a, b) <= c4_through(edges, n, a, b),
        0 <= x < n && 0 <= p < adj[x]@.len() ==> counted_c4(
            edges,
            n,
            deg,
            adj,
            x,
            p,
            adj[adj[x]@[p].0 as int]@.len() as int,
            a,
            b,
        ) == counted_c4(edges, n, deg, adj, x, p + 1, 0, a, b),
        0 <= x < n ==> counted_c4(edges, n, deg, adj, x, adj[x]@.len() as int, 0, a, b) == counted_c4(
            edges,
            n,
            deg,
            adj,
            x + 1,
            0,
            0,
            a,
            b,
        ),
{
    let term = |c: int, d: int| c4_term(edges, a, b, c, d);
    let zero = |c: int, d: int| 0int;
    let f0 = |c: int, d: int| if counted4(deg, adj, 0, 0, 0, a, b, c, d) { c4_term(edges, a, b, c, d) } else { 0 };
    let fe = |c: int, d: int| if counted4(deg, adj, n, 0, 0, a, b, c, d) { c4_term(edges, a, b, c, d) } else { 0 };
    let fv = |c: int, d: int| if counted4(deg, adj, x, p, q, a, b, c, d) { c4_term(edges, a, b, c, d) } else { 0 };
    assert forall|c: int, d: int| 0 <= c < n && 0 <= d < n implies #[trigger] f0(c, d) == zero(c, d) && fe(c, d) == term(
        c,
        d,
    ) && 0 <= fv(c, d) <= term(c, d) by {
        if c4_term(edges, a, b, c, d) != 0 {
            lemma_cycle(edges, n, ends, deg, adj, a, b, c, d);
        }
        let mb = multiplicity(edges, b, c);
        let mc = multiplicity(edges, c, d);
        let md = multiplicity(edges, d, a);
        assert(mb * mc * md >= 0) by (nonlinear_arith);
    }
    assert forall|c: int, d: int| 0 <= c < n && 0 <= d < n implies #[trigger] fe(c, d) == term(c, d) by {
        assert(f0(c, d) == zero(c, d));
    }
    assert forall|c: int, d: int| 0 <= c < n && 0 <= d < n implies 0 <= #[trigger] fv(c, d) <= term(c, d) by {
        assert(f0(c, d) == zero(c, d));
    }
    lemma_square_ext(f0, zero, n);
    lemma_square_ext(fe, term, n);
    lemma_square_le(fv, term, n);
    assert(sum_square(zero, n) == 0) by {
        let rz = |c: int| sum_range(|d: int| zero(c, d), 0, n);
        assert forall|c: int| 0 <= c < n implies #[trigger] rz(c) == 0int by {
            lemma_sum_ext(|d: int| zero(c, d), |d: int| 0int, 0, n);
            lemma_sum_zero(n);
        }
        lemma_sum_ext(rz, |c: int| 0int, 0, n);
        lemma_sum_zero(n);
    }
    if 0 <= x < n && 0 <= p < adj[x]@.len() {
        lemma_adj_pos_of(edges, n, ends, adj, x, p);
        let v = adj[x]@[p].0 as int;
        let fa = |c: int, d: int|
            if counted4(deg, adj, x, p, adj[v]@.len() as int, a, b, c, d) {
                c4_term(edges, a, b, c, d)
            } else {
                0
            };
        let fb = |c: int, d: int| if counted4(deg, adj, x, p + 1, 0, a, b, c, d) { c4_term(edges, a, b, c, d) } else { 0 };
        assert forall|c: int, d: int| 0 <= c < n && 0 <= d < n implies #[trigger] fa(c, d) == fb(c, d) by {
            if c4_term(edges, a, b, c, d) != 0 {
                lemma_cycle(edges, n, ends, deg, adj, a, b, c, d);
            }
        }
        lemma_square_ext(fa, fb, n);
    }
    if 0 <= x < n {
        let fa = |c: int, d: int|
            if counted4(deg, adj, x, adj[x]@.len() as int, 0, a, b, c, d) {
                c4_term(edges, a, b, c, d)
            } else {
                0
            };
        let fb = |c: int, d: int| if counted4(deg, adj, x + 1, 0, 0, a, b, c, d) { c4_term(edges, a, b, c, d) } else { 0 };
        assert forall|c: int, d: int| 0 <= c < n && 0 <= d < n implies #[trigger] fa(c, d) == fb(c, d) by {
            if c4_term(edges, a, b, c, d) != 0 {
                lemma_cycle(edges, n, ends, deg, adj, a, b, c, d);
            }
        }
        lemma_square_ext(fa, fb, n);
    }
}

/// Skipping the entry `v` at `p` of `adj[x]`, of rank above `x`, adds no walk in the first pass and
/// counts no `C4` in the second.
proof fn lemma_skip_entry(
    edges: Seq<(usize, usize)>,
    n: int,
    ends: Seq<(usize, usize)>,
    deg: Seq<usize>,
    adj: Seq<Vec<(usize, usize)>>,
    x: int,
    p: int,
    y: int,
    a: int,
    b: int,
)
    requires
        valid_edges(n, edges),
        linked(edges, n, ends, adj),
        deg.len() == n,
        0 <= x < n,
        0 <= p < adj[x]@.len(),
        !rank_lt(deg, adj[x]@[p].0 as int, x),
        multiplicity(edges, a, b) > 0,
    ensures
        partial_paths(edges, n, deg, adj, x, p, 0, y) == partial_paths(edges, n, deg, adj, x, p + 1, 0, y),
        counted_c4(edges, n, deg, adj, x, p, 0, a, b) == counted_c4(edges, n, deg, adj, x, p + 1, 0, a, b),
{
    let v = adj[x]@[p].0 as int;
    lemma_adj_pos_of(edges, n, ends, adj, x, p);
    let fa = |w: int| path_term(edges, deg, adj, x, p, 0, y, w);
    let fb = |w: int| path_term(edges, deg, adj, x, p + 1, 0, y, w);
    assert forall|w: int| 0 <= w < n implies #[trigger] fa(w) == fb(w) by {
        let mxw = multiplicity(edges, x, w);
        let mwy = multiplicity(edges, w, y);
        if mxw > 0 && mwy > 0 {
            lemma_multiplicity_pos(n, edges, w, y);
            assert(has_entry(adj, x, w));
            assert(has_entry(adj, w, y));
            let pw = pos(adj, x, w);
            assert(adj[x]@[pw].0 == w);
            if pw == p {
                assert(w == v);
            }
        } else {
            assert(mxw * mwy == 0) by (nonlinear_arith)
                requires
                    mxw == 0 || mwy == 0,
            ;
        }
    }
    lemma_sum_ext(fa, fb, 0, n);
    let ga = |c: int, d: int| if counted4(deg, adj, x, p, 0, a, b, c, d) { c4_term(edges, a, b, c, d) } else { 0 };
    let gb = |c: int, d: int| if counted4(deg, adj, x, p + 1, 0, a, b, c, d) { c4_term(edges, a, b, c, d) } else { 0 };
    assert forall|c: int, d: int| 0 <= c < n && 0 <= d < n implies #[trigger] ga(c, d) == gb(c, d) by {
        if c4_term(edges, a, b, c, d) != 0 {
            lemma_cycle(edges, n, ends, deg, adj, a, b, c, d);
        }
    }
    lemma_square_ext(ga, gb, n);
}

/// The walks from `x` to `y` through a vertex of lower rank other than `v`, of lower rank, are
/// those through any such vertex less those through `v`.
proof fn lemma_rest(edges: Seq<(usize, usize)>, n: int, deg: Seq<usize>, x: int, v: int, y: int)
    requires
        0 <= v < n,
        rank_lt(deg, v, x),
    ensures
        rest_paths(edges, n, deg, x, v, y) == below_paths(edges, n, deg, x, y) - multiplicity(edges, x, v)
            * multiplicity(edges, v, y),
        rest_paths(edges, n, deg, x, v, y) >= 0,
{
    let f = |w: int| below_term(edges, deg, x, y, w);
    let g = |w: int| rest_term(edges, deg, x, v, y, w);
    assert forall|w: int| 0 <= w < n && w != v implies #[trigger] f(w) == g(w) by {}
    lemma_sum_update(f, g, 0, n, v);
    assert forall|w: int| 0 <= w < n implies #[trigger] g(w) >= 0 by {
        let mxw = multiplicity(edges, x, w);
        let mwy = multiplicity(edges, w, y);
        assert(mxw * mwy >= 0) by (nonlinear_arith);
    }
    lemma_sum_nonneg(g, 0, n);
}

/// The first pass at the entry `y` at `q` of `adj[v]`, for the entry `v` at `p` of `adj[x]`: adding
/// the walks through `v` to `y`, if both are below `x`, keeps `paths` the walks added so far.
proof fn lemma_pass1_step(
    edges: Seq<(usize, usize)>,
    n: int,
    class: Seq<usize>,
    ends: Seq<(usize, usize)>,
    mult: Seq<usize>,
    deg: Seq<usize>,
    adj: Seq<Vec<(usize, usize)>>,
    x: int,
    p: int,
    q: int,
    before: Seq<usize>,
)
    requires
        valid_edges(n, edges),
        grouped(edges, class, ends, mult),
        linked(edges, n, ends, adj),
        deg.len() == n,
        0 <= x < n,
        0 <= p < adj[x]@.len(),
        0 <= q < adj[adj[x]@[p].0 as int]@.len(),
        before.len() == n,
        forall|y: int|
            0 <= y < n ==> #[trigger] before[y] == (if rank_lt(deg, y, x) {
                partial_paths(edges, n, deg, adj, x, p, q, y)
            } else {
                0
            }),
    ensures
        ({
            let (v, e1) = adj[x]@[p];
            let (y, e2) = adj[v as int]@[q];
            &&& e1 < ends.len() && e2 < ends.len() && y < n
            &&& mult[e1 as int] == multiplicity(edges, x, v as int)
            &&& mult[e2 as int] == multiplicity(edges, v as int, y as int)
            &&& rank_lt(deg, v as int, x) && rank_lt(deg, y as int, x) ==> before[y as int] + mult[e1 as int] * mult[e2 as int]
                <= two_paths(edges, n, x, y as int)
            &&& forall|z: int|
                0 <= z < n ==> #[trigger] partial_paths(edges, n, deg, adj, x, p, q + 1, z) == partial_paths(
                    edges,
                    n,
                    deg,
                    adj,
                    x,
                    p,
                    q,
                    z,
                ) + if rank_lt(deg, v as int, x) && z == y {
                    mult[e1 as int] * mult[e2 as int]
                } else {
                    0
                }
        }),
{
    let (v, e1) = adj[x]@[p];
    let (y, e2) = adj[v as int]@[q];
    lemma_adj_pos_of(edges, n, ends, adj, x, p);
    lemma_adj_pos_of(edges, n, ends, adj, v as int, q);
    lemma_class(edges, class, ends, mult, e1 as int);
    lemma_class(edges, class, ends, mult, e2 as int);
    lemma_multiplicity_symmetric(edges, x, v as int);
    lemma_multiplicity_symmetric(edges, v as int, y as int);
    assert forall|z: int| 0 <= z < n implies #[trigger] partial_paths(edges, n, deg, adj, x, p, q + 1, z)
        == partial_paths(edges, n, deg, adj, x, p, q, z) + if rank_lt(deg, v as int, x) && z == y {
        mult[e1 as int] * mult[e2 as int]
    } else {
        0
    } by {
        lemma_paths(edges, n, ends, deg, adj, x, p, q, z);
    }
    lemma_paths(edges, n, ends, deg, adj, x, p, q + 1, y as int);
}

/// The second pass at the entry `y` at `q` of `adj[v]`, for the entry `v` at `p` of `adj[x]`, both
/// below `x`: the classes joining `x` and `v` and joining `v` and `y` are distinct, their counts gain
/// the products with the other walks, within their totals, and the others stay.
proof fn lemma_pass2_step(
    edges: Seq<(usize, usize)>,
    n: int,
    class: Seq<usize>,
    ends: Seq<(usize, usize)>,
    mult: Seq<usize>,
    deg: Seq<usize>,
    adj: Seq<Vec<(usize, usize)>>,
    x: int,
    p: int,
    q: int,
)
    requires
        valid_edges(n, edges),
        grouped(edges, class, ends, mult),
        linked(edges, n, ends, adj),
        deg.len() == n,
        c4_fits(edges, n, ends),
        0 <= x < n,
        0 <= p < adj[x]@.len(),
        0 <= q < adj[adj[x]@[p].0 as int]@.len(),
    ensures
        ({
            let (v, e1) = adj[x]@[p];
            let (y, e2) = adj[v as int]@[q];
            let rest = rest_paths(edges, n, deg, x, v as int, y as int);
            &&& e1 < ends.len() && e2 < ends.len() && y < n && v < n
            &&& mult[e1 as int] == multiplicity(edges, x, v as int)
            &&& mult[e2 as int] == multiplicity(edges, v as int, y as int)
            &&& rank_lt(deg, v as int, x) && rank_lt(deg, y as int, x) ==> {
                &&& e1 != e2
                &&& rest == below_paths(edges, n, deg, x, y as int) - mult[e1 as int] * mult[e2 as int]
                &&& rest >= 0
                &&& counted_c4(edges, n, deg, adj, x, p, q + 1, ends[e1 as int].0 as int, ends[e1 as int].1 as int) <= usize::MAX
                &&& counted_c4(edges, n, deg, adj, x, p, q + 1, ends[e2 as int].0 as int, ends[e2 as int].1 as int) <= usize::MAX
                &&& 0 <= counted_c4(edges, n, deg, adj, x, p, q, ends[e1 as int].0 as int, ends[e1 as int].1 as int)
                &&& 0 <= counted_c4(edges, n, deg, adj, x, p, q, ends[e2 as int].0 as int, ends[e2 as int].1 as int)
            }
            &&& forall|k: int|
                0 <= k < ends.len() ==> #[trigger] counted_c4(
                    edges,
                    n,
                    deg,
                    adj,
                    x,
                    p,
                    q + 1,
                    ends[k].0 as int,
                    ends[k].1 as int,
                ) == counted_c4(edges, n, deg, adj, x, p, q, ends[k].0 as int, ends[k].1 as int) + if rank_lt(
                    deg,
                    v as int,
                    x,
                ) && rank_lt(deg, y as int, x) {
                    if k == e1 {
                        mult[e2 as int] * rest
                    } else if k == e2 {
                        mult[e1 as int] * rest
                    } else {
                        0
                    }
                } else {
                    0
                }
        }),
{
    let (v, e1) = adj[x]@[p];
    let (y, e2) = adj[v as int]@[q];
    let rest = rest_paths(edges, n, deg, x, v as int, y as int);
    lemma_adj_pos_of(edges, n, ends, adj, x, p);
    lemma_adj_pos_of(edges, n, ends, adj, v as int, q);
    lemma_class(edges, class, ends, mult, e1 as int);
    lemma_class(edges, class, ends, mult, e2 as int);
    lemma_multiplicity_symmetric(edges, x, v as int);
    lemma_multiplicity_symmetric(edges, v as int, y as int);
    if rank_lt(deg, v as int, x) && rank_lt(deg, y as int, x) {
        lemma_rest(edges, n, deg, x, v as int, y as int);
        assert(ends[e1 as int] != ends[e2 as int]);
        lemma_c4_bounds(edges, n, ends, deg, adj, x, p, q, ends[e1 as int].0 as int, ends[e1 as int].1 as int);
        lemma_c4_bounds(edges, n, ends, deg, adj, x, p, q + 1, ends[e1 as int].0 as int, ends[e1 as int].1 as int);
        lemma_c4_bounds(edges, n, ends, deg, adj, x, p, q, ends[e2 as int].0 as int, ends[e2 as int].1 as int);
        lemma_c4_bounds(edges, n, ends, deg, adj, x, p, q + 1, ends[e2 as int].0 as int, ends[e2 as int].1 as int);
    }
    assert forall|k: int| 0 <= k < ends.len() implies #[trigger] counted_c4(
        edges,
        n,
        deg,
        adj,
        x,
        p,
        q + 1,
        ends[k].0 as int,
        ends[k].1 as int,
    ) == counted_c4(edges, n, deg, adj, x, p, q, ends[k].0 as int, ends[k].1 as int) + if rank_lt(deg, v as int, x)
        && rank_lt(deg, y as int, x) {
        if k == e1 {
            mult[e2 as int] * rest
        } else if k == e2 {
            mult[e1 as int] * rest
        } else {
            0
        }
    } else {
        0
    } by {
        lemma_class(edges, class, ends, mult, k);
        lemma_c4_step(edges, n, ends, deg, adj, x, p, q, ends[k].0 as int, ends[k].1 as int);
        if k != e1 {
            assert(ends[k] != ends[e1 as int]);
        }
        if k != e2 {
            assert(ends[k] != ends[e2 as int]);
        }
    }
}

/// Passing an entry or a vertex, or skipping an entry above `x`, in the second pass keeps every
/// count.
proof fn lemma_pass2_next(
    edges: Seq<(usize, usize)>,
    n: int,
    class: Seq<usize>,
    ends: Seq<(usize, usize)>,
    mult: Seq<usize>,
    deg: Seq<usize>,
    adj: Seq<Vec<(usize, usize)>>,
    x: int,
    p: int,
    q: int,
    x2: int,
    p2: int,
    q2: int,
    count: Seq<usize>,
)
    requires
        valid_edges(n, edges),
        grouped(edges, class, ends, mult),
        linked(edges, n, ends, adj),
        deg.len() == n,
        0 <= x < n,
        count.len() == ends.len(),
        (x2 == x + 1 && p == adj[x]@.len() && q == 0 && p2 == 0 && q2 == 0) || (x2 == x && 0 <= p < adj[x]@.len()
            && p2 == p + 1 && q2 == 0 && (q == adj[adj[x]@[p].0 as int]@.len() || (q == 0 && !rank_lt(
            deg,
            adj[x]@[p].0 as int,
            x,
        )))),
        forall|k: int|
            0 <= k < ends.len() ==> #[trigger] count[k] == counted_c4(
                edges,
                n,
                deg,
                adj,
                x,
                p,
                q,
                ends[k].0 as int,
                ends[k].1 as int,
            ),
    ensures
        forall|k: int|
            0 <= k < ends.len() ==> #[trigger] count[k] == counted_c4(
                edges,
                n,
                deg,
                adj,
                x2,
                p2,
                q2,
                ends[k].0 as int,
                ends[k].1 as int,
            ),
{
    assert forall|k: int| 0 <= k < ends.len() implies #[trigger] count[k] == counted_c4(
        edges,
        n,
        deg,
        adj,
        x2,
        p2,
        q2,
        ends[k].0 as int,
        ends[k].1 as int,
    ) by {
        lemma_class(edges, class, ends, mult, k);
        lemma_c4_bounds(edges, n, ends, deg, adj, x, p, q, ends[k].0 as int, ends[k].1 as int);
        if x2 == x && q == 0 && !rank_lt(deg, adj[x]@[p].0 as int, x) {
            lemma_skip_entry(edges, n, ends, deg, adj, x, p, 0, ends[k].0 as int, ends[k].1 as int);
        }
    }
}

/// The counts through every class of parallel edges fit in `usize`.
spec fn c4_fits(edges: Seq<(usize, usize)>, n: int, ends: Seq<(usize, usize)>) -> bool {
    forall|k: int| 0 <= k < ends.len() ==> #[trigger] c4_through(edges, n, ends[k].0 as int, ends[k].1 as int) <= usize::MAX
}

/// The number of `C4` through each edge of the undirected multigraph on `[0, n)` whose `i`-th
/// edge joins `edges[i].0` and `edges[i].1`: `c[i]` is the number of sets of four edges joining
/// `a` and `b`, `b` and `c`, `c` and `d`, `d` and `a`, for four distinct vertices, that contain the
/// `i`-th edge, which joins `a` and `b`.
pub fn count_c4(n: usize, edges: &[(usize, usize)]) -> (c: Vec<usize>)
    requires
        valid_edges(n as int, edges@),
        forall|i: int|
            0 <= i < edges@.len() ==> #[trigger] c4_through(edges@, n as int, edges@[i].0 as int, edges@[i].1 as int)
                <= usize::MAX,
        forall|x: int, y: int| 0 <= x < n && 0 <= y < n && x != y ==> #[trigger] two_paths(edges@, n as int, x, y) <= usize::MAX,
    ensures
        c@.len() == edges@.len(),
        forall|i: int|
            0 <= i < edges@.len() ==> #[trigger] c@[i] == c4_through(edges@, n as int, edges@[i].0 as int, edges@[i].1 as int),
{
    let ghost g = edges@;
    let m = edges.len();
    let (class, ends, mult) = group_edges(n, edges);
    let (degree, adj) = link_classes(n, Ghost(g), &class, &ends, &mult);
    let ghost deg = degree@;
    proof {
        assert forall|k: int| 0 <= k < ends@.len() implies #[trigger] c4_through(g, n as int, ends@[k].0 as int, ends@[k].1 as int)
            <= usize::MAX by {
            lemma_class(g, class@, ends@, mult@, k);
            let (a, b) = (ends@[k].0 as int, ends@[k].1 as int);
            lemma_multiplicity_pos(n as int, g, a, b);
            let i = choose|i: int| 0 <= i < g.len() && #[trigger] joins(g[i], a, b);
            assert(c4_through(g, n as int, g[i].0 as int, g[i].1 as int) <= usize::MAX);
        }
        assert forall|k: int| 0 <= k < ends@.len() implies #[trigger] counted_c4(g, n as int, deg, adj@, 0, 0, 0, ends@[k].0 as int, ends@[k].1 as int) == 0 by {
            lemma_class(g, class@, ends@, mult@, k);
            lemma_c4_bounds(g, n as int, ends@, deg, adj@, 0, 0, 0, ends@[k].0 as int, ends@[k].1 as int);
        }
    }
    let mut count: Vec<usize> = vec![0; ends.len()];
    let mut paths: Vec<usize> = vec![0; n];
    let mut touched: Vec<usize> = Vec::new();
    let mut x: usize = 0;
    while x < n
        invariant
            x <= n,
            g == edges@,
            m == g.len(),
            valid_edges(n as int, g),
            grouped(g, class@, ends@, mult@),
            linked(g, n as int, ends@, adj@),
            deg == degree@,
            deg.len() == n,
            c4_fits(g, n as int, ends@),
            forall|a: int, b: int| 0 <= a < n && 0 <= b < n && a != b ==> #[trigger] two_paths(g, n as int, a, b) <= usize::MAX,
            count@.len() == ends@.len(),
            paths@.len() == n,
            touched@.len() == 0,
            forall|y: int| 0 <= y < n ==> #[trigger] paths@[y] == 0,
            forall|k: int|
                0 <= k < ends@.len() ==> #[trigger] count@[k] == counted_c4(
                    g,
                    n as int,
                    deg,
                    adj@,
                    x as int,
                    0,
                    0,
                    ends@[k].0 as int,
                    ends@[k].1 as int,
                ),
        decreases n - x,
    {
        let len_x = adj[x].len();
        let ghost xi = x as int;
        proof {
            assert forall|y: int| 0 <= y < n implies #[trigger] paths@[y] == (if rank_lt(deg, y, xi) {
                partial_paths(g, n as int, deg, adj@, xi, 0, 0, y)
            } else {
                0
            }) by {
                lemma_paths(g, n as int, ends@, deg, adj@, xi, 0, 0, y);
            }
        }
        let mut p: usize = 0;
        while p < len_x
            invariant
                p <= len_x,
                x < n,
                xi == x,
                len_x == adj@[xi]@.len(),
                g == edges@,
                valid_edges(n as int, g),
                grouped(g, class@, ends@, mult@),
                linked(g, n as int, ends@, adj@),
                deg == degree@,
                deg.len() == n,
                forall|a: int, b: int| 0 <= a < n && 0 <= b < n && a != b ==> #[trigger] two_paths(g, n as int, a, b) <= usize::MAX,
                paths@.len() == n,
                forall|y: int|
                    0 <= y < n ==> #[trigger] paths@[y] == (if rank_lt(deg, y, xi) {
                        partial_paths(g, n as int, deg, adj@, xi, p as int, 0, y)
                    } else {
                        0
                    }),
                forall|y: int| 0 <= y < n && #[trigger] paths@[y] != 0 ==> touched@.contains(y as usize),
                forall|j: int| 0 <= j < touched@.len() ==> #[trigger] touched@[j] < n,
            decreases len_x - p,
        {
            let (v, e1) = adj[x][p];
            proof {
                lemma_adj_pos_of(g, n as int, ends@, adj@, xi, p as int);
            }
            if degree[v] < degree[x] || (degree[v] == degree[x] && v < x) {
                let len_v = adj[v].len();
                let mut q: usize = 0;
                while q < len_v
                    invariant
                        q <= len_v,
                        x < n,
                        xi == x,
                        p < len_x,
                        len_x == adj@[xi]@.len(),
                        v == adj@[xi]@[p as int].0,
                        e1 == adj@[xi]@[p as int].1,
                        v < n,
                        len_v == adj@[v as int]@.len(),
                        rank_lt(deg, v as int, xi),
                        g == edges@,
                        valid_edges(n as int, g),
                        grouped(g, class@, ends@, mult@),
                        linked(g, n as int, ends@, adj@),
                        deg == degree@,
                        deg.len() == n,
                        forall|a: int, b: int| 0 <= a < n && 0 <= b < n && a != b ==> #[trigger] two_paths(g, n as int, a, b) <= usize::MAX,
                        paths@.len() == n,
                        forall|y: int|
                            0 <= y < n ==> #[trigger] paths@[y] == (if rank_lt(deg, y, xi) {
                                partial_paths(g, n as int, deg, adj@, xi, p as int, q as int, y)
                            } else {
                                0
                            }),
                        forall|y: int| 0 <= y < n && #[trigger] paths@[y] != 0 ==> touched@.contains(y as usize),
                        forall|j: int| 0 <= j < touched@.len() ==> #[trigger] touched@[j] < n,
                    decreases len_v - q,
                {
                    let (y, e2) = adj[v][q];
                    let ghost before = paths@;
                    let ghost old_touched = touched@;
                    proof {
                        lemma_pass1_step(g, n as int, class@, ends@, mult@, deg, adj@, xi, p as int, q as int, before);
                    }
                    if degree[y] < degree[x] || (degree[y] == degree[x] && y < x) {
                        if paths[y] == 0 {
                            touched.push(y);
                        }
                        let add = mult[e1] * mult[e2];
                        paths.set(y, paths[y] + add);
                    }
                    proof {
                        assert forall|z: int| 0 <= z < n implies #[trigger] paths@[z] == (if rank_lt(deg, z, xi) {
                            partial_paths(g, n as int, deg, adj@, xi, p as int, q + 1, z)
                        } else {
                            0
                        }) by {
                            assert(before[z] == (if rank_lt(deg, z, xi) {
                                partial_paths(g, n as int, deg, adj@, xi, p as int, q as int, z)
                            } else {
                                0
                            }));
                        }
                        assert forall|z: int| 0 <= z < n && #[trigger] paths@[z] != 0 implies touched@.contains(z as usize) by {
                            if before[z] != 0 {
                                assert(old_touched.contains(z as usize));
                                let j = choose|j: int| 0 <= j < old_touched.len() && old_touched[j] == z as usize;
                                assert(touched@[j] == z as usize);
                            } else {
                                assert(z == y);
                                assert(touched@[touched@.len() - 1] == y);
                            }
                        }
                    }
                    q = q + 1;
                }
                proof {
                    assert forall|z: int| 0 <= z < n implies #[trigger] paths@[z] == (if rank_lt(deg, z, xi) {
                        partial_paths(g, n as int, deg, adj@, xi, p + 1, 0, z)
                    } else {
                        0
                    }) by {
                        lemma_paths(g, n as int, ends@, deg, adj@, xi, p as int, len_v as int, z);
                    }
                }
            } else {
                proof {
                    lemma_class(g, class@, ends@, mult@, e1 as int);
                    assert forall|z: int| 0 <= z < n implies #[trigger] paths@[z] == (if rank_lt(deg, z, xi) {
                        partial_paths(g, n as int, deg, adj@, xi, p + 1, 0, z)
                    } else {
                        0
                    }) by {
                        lemma_skip_entry(g, n as int, ends@, deg, adj@, xi, p as int, z, ends@[e1 as int].0 as int, ends@[e1 as int].1 as int);
                    }
                }
            }
            p = p + 1;
        }
        proof {
            assert forall|y: int| 0 <= y < n && rank_lt(deg, y, xi) implies #[trigger] paths@[y] == below_paths(g, n as int, deg, xi, y) by {
                lemma_paths(g, n as int, ends@, deg, adj@, xi, 0, 0, y);
            }
        }
        let mut p: usize = 0;
        while p < len_x
            invariant
                p <= len_x,
                x < n,
                xi == x,
                len_x == adj@[xi]@.len(),
                g == edges@,
                valid_edges(n as int, g),
                grouped(g, class@, ends@, mult@),
                linked(g, n as int, ends@, adj@),
                deg == degree@,
                deg.len() == n,
                c4_fits(g, n as int, ends@),
                paths@.len() == n,
                forall|y: int| 0 <= y < n && rank_lt(deg, y, xi) ==> #[trigger] paths@[y] == below_paths(g, n as int, deg, xi, y),
                forall|y: int| 0 <= y < n && #[trigger] paths@[y] != 0 ==> touched@.contains(y as usize),
                forall|j: int| 0 <= j < touched@.len() ==> #[trigger] touched@[j] < n,
                count@.len() == ends@.len(),
                forall|k: int|
                    0 <= k < ends@.len() ==> #[trigger] count@[k] == counted_c4(
                        g,
                        n as int,
                        deg,
                        adj@,
                        xi,
                        p as int,
                        0,
                        ends@[k].0 as int,
                        ends@[k].1 as int,
                    ),
            decreases len_x - p,
        {
            let (v, e1) = adj[x][p];
            proof {
                lemma_adj_pos_of(g, n as int, ends@, adj@, xi, p as int);
            }
            if degree[v] < degree[x] || (degree[v] == degree[x] && v < x) {
                let len_v = adj[v].len();
                let mut q: usize = 0;
                while q < len_v
                    invariant
                        q <= len_v,
                        x < n,
                        xi == x,
                        p < len_x,
                        len_x == adj@[xi]@.len(),
                        v == adj@[xi]@[p as int].0,
                        e1 == adj@[xi]@[p as int].1,
                        v < n,
                        len_v == adj@[v as int]@.len(),
                        rank_lt(deg, v as int, xi),
                        g == edges@,
                        valid_edges(n as int, g),
                        grouped(g, class@, ends@, mult@),
                        linked(g, n as int, ends@, adj@),
                        deg == degree@,
                        deg.len() == n,
                        c4_fits(g, n as int, ends@),
                        paths@.len() == n,
                        forall|y: int| 0 <= y < n && rank_lt(deg, y, xi) ==> #[trigger] paths@[y] == below_paths(g, n as int, deg, xi, y),
                        count@.len() == ends@.len(),
                        forall|k: int|
                            0 <= k < ends@.len() ==> #[trigger] count@[k] == counted_c4(
                                g,
                                n as int,
                                deg,
                                adj@,
                                xi,
                                p as int,
                                q as int,
                                ends@[k].0 as int,
                                ends@[k].1 as int,
                            ),
                    decreases len_v - q,
                {
                    let (y, e2) = adj[v][q];
                    let ghost old_count = count@;
                    proof {
                        lemma_pass2_step(g, n as int, class@, ends@, mult@, deg, adj@, xi, p as int, q as int);
                    }
                    if degree[y] < degree[x] || (degree[y] == degree[x] && y < x) {
                        let m1 = mult[e1];
                        let m2 = mult[e2];
                        let rest = paths[y] - m1 * m2;
                        count.set(e1, count[e1] + m2 * rest);
                        count.set(e2, count[e2] + m1 * rest);
                    }
                    proof {
                        assert forall|k: int| 0 <= k < ends@.len() implies #[trigger] count@[k] == counted_c4(
                            g,
                            n as int,
                            deg,
                            adj@,
                            xi,
                            p as int,
                            q + 1,
                            ends@[k].0 as int,
                            ends@[k].1 as int,
                        ) by {
                            assert(old_count[k] == counted_c4(g, n as int, deg, adj@, xi, p as int, q as int, ends@[k].0 as int, ends@[k].1 as int));
                        }
                    }
                    q = q + 1;
                }
                proof {
                    lemma_pass2_next(g, n as int, class@, ends@, mult@, deg, adj@, xi, p as int, len_v as int, xi, p + 1, 0, count@);
                }
            } else {
                proof {
                    lemma_pass2_next(g, n as int, class@, ends@, mult@, deg, adj@, xi, p as int, 0, xi, p + 1, 0, count@);
                }
            }
            p = p + 1;
        }
        proof {
            lemma_pass2_next(g, n as int, class@, ends@, mult@, deg, adj@, xi, len_x as int, 0, xi + 1, 0, 0, count@);
        }
        let mut i: usize = 0;
        while i < touched.len()
            invariant
                i <= touched@.len(),
                paths@.len() == n,
                forall|j: int| 0 <= j < touched@.len() ==> #[trigger] touched@[j] < n,
                forall|y: int|
                    0 <= y < n && #[trigger] paths@[y] != 0 ==> exists|j: int| i <= j < touched@.len() && touched@[j] == y,
            decreases touched@.len() - i,
        {
            let y = touched[i];
            paths.set(y, 0);
            i = i + 1;
        }
        touched = Vec::new();
        x = x + 1;
    }
    let mut c: Vec<usize> = Vec::new();
    let mut i: usize = 0;
    while i < m
        invariant
            i <= m,
            m == g.len(),
            g == edges@,
            valid_edges(n as int, g),
            grouped(g, class@, ends@, mult@),
            linked(g, n as int, ends@, adj@),
            deg.len() == n,
            count@.len() == ends@.len(),
            forall|k: int|
                0 <= k < ends@.len() ==> #[trigger] count@[k] == counted_c4(
                    g,
                    n as int,
                    deg,
                    adj@,
                    n as int,
                    0,
                    0,
                    ends@[k].0 as int,
                    ends@[k].1 as int,
                ),
            c@.len() == i,
            forall|j: int| 0 <= j < i ==> #[trigger] c@[j] == c4_through(g, n as int, g[j].0 as int, g[j].1 as int),
        decreases m - i,
    {
        let k = class[i];
        proof {
            lemma_class(g, class@, ends@, mult@, k as int);
            lemma_c4_bounds(g, n as int, ends@, deg, adj@, 0, 0, 0, ends@[k as int].0 as int, ends@[k as int].1 as int);
        }
        c.push(count[k]);
        i = i + 1;
    }
    c
}

} // verus!
