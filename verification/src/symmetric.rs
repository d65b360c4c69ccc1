//! The symmetric group `S_n` of the permutations of `[0, n)`, and the cycle structure of a
//! permutation.
use crate::num::divisibility::spec_is_prime;
use crate::num::factorization::{lemma_lpf_factorization, lpf_factorization};
use crate::num::lpf::{factors_view, Lpf};
use crate::num::prime::is_factorization;
use vstd::prelude::*;

verus! {

/// `p` is a permutation of `[0, p.len())`, stored with `p[i]` the image of `i`.
pub open spec fn is_permutation(p: Seq<usize>) -> bool {
    &&& forall|i: int| 0 <= i < p.len() ==> #[trigger] p[i] < p.len()
    &&& forall|i: int, j: int| 0 <= i < j < p.len() ==> p[i] != p[j]
}

/// The composition `i -> q[p[i]]` of two permutations of `[0, n)`.
pub open spec fn compose(p: Seq<usize>, q: Seq<usize>) -> Seq<usize> {
    Seq::new(p.len(), |i: int| q[p[i] as int])
}

/// The identity permutation of `[0, n)`.
pub open spec fn identity(n: nat) -> Seq<usize> {
    Seq::new(n, |i: int| i as usize)
}

/// The inverse `q` of `p`: `q[p[i]] = i`.
pub open spec fn is_inverse(p: Seq<usize>, q: Seq<usize>) -> bool {
    &&& q.len() == p.len()
    &&& forall|i: int| 0 <= i < p.len() ==> q[#[trigger] p[i] as int] == i
}

/// `c` is a cycle of `p`: its elements are distinct, each is followed by its image, the image of
/// the last is the first, and the first is the least.
pub open spec fn is_cycle(p: Seq<usize>, c: Seq<usize>) -> bool {
    &&& c.len() > 0
    &&& forall|k: int| 0 <= k < c.len() ==> #[trigger] c[k] < p.len()
    &&& forall|k: int, l: int| 0 <= k < l < c.len() ==> c[k] != c[l]
    &&& forall|k: int| 0 <= k < c.len() - 1 ==> p[#[trigger] c[k] as int] == c[k + 1]
    &&& p[c.last() as int] == c[0]
    &&& forall|k: int| 0 < k < c.len() ==> c[0] < #[trigger] c[k]
}

/// `x` occurs in one of the sequences `cs[j]`.
pub open spec fn occurs(cs: Seq<Seq<usize>>, x: int) -> bool {
    exists|j: int, k: int| 0 <= j < cs.len() && 0 <= k < cs[j].len() && #[trigger] cs[j][k] == x
}

/// `cs` is the cycle decomposition of `p`: cycles of `p` in increasing order of their first
/// elements, in which every element of `[0, n)` occurs exactly once.
pub open spec fn is_cycle_decomposition(p: Seq<usize>, cs: Seq<Seq<usize>>) -> bool {
    &&& forall|j: int| 0 <= j < cs.len() ==> is_cycle(p, #[trigger] cs[j])
    &&& forall|j: int, k: int| 0 <= j < k < cs.len() ==> cs[j][0] < cs[k][0]
    &&& forall|x: int| 0 <= x < p.len() ==> #[trigger] occurs(cs, x)
    &&& forall|j1: int, k1: int, j2: int, k2: int|
        0 <= j1 < cs.len() && 0 <= k1 < cs[j1].len() && 0 <= j2 < cs.len() && 0 <= k2
            < cs[j2].len() && (j1 != j2 || k1 != k2) ==> #[trigger] cs[j1][k1] != #[trigger] cs[j2][k2]
}

/// The symmetric group `S_n`: the permutations of `[0, n)` under composition, where `op(p, q)`
/// sends `i` to `q[p[i]]`.
#[derive(Clone, Copy)]
pub struct Symmetric(pub usize);

impl Symmetric {
    /// The degree `n`.
    pub fn degree(&self) -> (n: usize)
        ensures
            n == self.0,
    {
        self.0
    }

    /// The composition `i -> q[p[i]]`.
    pub fn op(&self, p: &Vec<usize>, q: &Vec<usize>) -> (r: Vec<usize>)
        requires
            p@.len() == self.0,
            q@.len() == self.0,
            is_permutation(p@),
            is_permutation(q@),
        ensures
            r@ == compose(p@, q@),
            is_permutation(r@),
    {
        let mut r: Vec<usize> = Vec::with_capacity(p.len());
        let mut i: usize = 0;
        while i < p.len()
            invariant
                i <= p@.len(),
                p@.len() == q@.len(),
                is_permutation(p@),
                r@ == compose(p@, q@).take(i as int),
            decreases p@.len() - i,
        {
            r.push(q[p[i]]);
            i = i + 1;
            proof {
                assert(r@ =~= compose(p@, q@).take(i as int));
            }
        }
        proof {
            assert(r@ =~= compose(p@, q@));
            assert forall|i: int, j: int| 0 <= i < j < r@.len() implies r@[i] != r@[j] by {
                assert(p@[i] != p@[j]);
                if p@[i] < p@[j] {
                    assert(q@[p@[i] as int] != q@[p@[j] as int]);
                } else {
                    assert(q@[p@[j] as int] != q@[p@[i] as int]);
                }
            }
        }
        r
    }

    /// The identity `[0, 1, ..., n - 1]`.
    pub fn id(&self) -> (r: Vec<usize>)
        ensures
            r@ == identity(self.0 as nat),
            is_permutation(r@),
    {
        let mut r: Vec<usize> = Vec::with_capacity(self.0);
        let mut i: usize = 0;
        while i < self.0
            invariant
                i <= self.0,
                r@ == identity(self.0 as nat).take(i as int),
            decreases self.0 - i,
        {
            r.push(i);
            i = i + 1;
            proof {
                assert(r@ =~= identity(self.0 as nat).take(i as int));
            }
        }
        proof {
            assert(r@ =~= identity(self.0 as nat));
        }
        r
    }

    /// The inverse `q` of `p`, with `q[p[i]] = i`.
    pub fn inv(&self, p: &Vec<usize>) -> (q: Vec<usize>)
        requires
            p@.len() == self.0,
            is_permutation(p@),
        ensures
            is_inverse(p@, q@),
            is_permutation(q@),
    {
        let n = self.0;
        let mut q: Vec<usize> = vec![0; n];
        let mut i: usize = 0;
        while i < n
            invariant
                i <= n,
                n == p@.len(),
                q@.len() == n,
                is_permutation(p@),
                forall|k: int| 0 <= k < i ==> q@[#[trigger] p@[k] as int] == k,
            decreases n - i,
        {
            let a = p[i];
            q.set(a, i);
            proof {
                assert forall|k: int| 0 <= k < i + 1 implies q@[#[trigger] p@[k] as int] == k by {
                    if k < i {
                        assert(p@[k] != p@[i as int]);
                    }
                }
            }
            i = i + 1;
        }
        proof {
            lemma_inverse_is_permutation(p@, q@);
        }
        q
    }
}

/// A permutation of `[0, n)` is onto: every `y < n` is some `p[i]`.
pub proof fn lemma_permutation_onto(p: Seq<usize>, y: int)
    requires
        is_permutation(p),
        p.len() <= usize::MAX,
        0 <= y < p.len(),
    ensures
        exists|i: int| 0 <= i < p.len() && p[i] == y,
{
    let s = p.to_set();
    let r = Set::new(|x: usize| x < p.len());
    assert(s.subset_of(r));
    lemma_seq_distinct_set_len(p);
    lemma_range_set_len(p.len());
    vstd::set_lib::lemma_subset_equality(s, r);
    assert(r.contains(y as usize));
    assert(s.contains(y as usize));
    assert(p.contains(y as usize));
}

/// The set of the elements of a sequence without repetition has its length.
pub proof fn lemma_seq_distinct_set_len(p: Seq<usize>)
    requires
        forall|i: int, j: int| 0 <= i < j < p.len() ==> p[i] != p[j],
    ensures
        p.to_set().len() == p.len(),
        p.to_set().finite(),
{
    assert(p.no_duplicates()) by {
        assert forall|i: int, j: int| 0 <= i < p.len() && 0 <= j < p.len() && i != j implies p[i]
            != p[j] by {
            if i > j {
                assert(p[j] != p[i]);
            }
        }
    }
    p.unique_seq_to_set();
}

/// `{x: usize | x < n}` has `n` elements.
pub proof fn lemma_range_set_len(n: nat)
    requires
        n <= usize::MAX + 1,
    ensures
        Set::new(|x: usize| x < n).len() == n,
        Set::new(|x: usize| x < n).finite(),
    decreases n,
{
    if n == 0 {
        assert(Set::new(|x: usize| x < n) =~= Set::<usize>::empty());
    } else {
        lemma_range_set_len((n - 1) as nat);
        assert(Set::new(|x: usize| x < n) =~= Set::new(|x: usize| x < (n - 1) as nat).insert(
            (n - 1) as usize,
        ));
    }
}

/// The inverse of a permutation is a permutation.
proof fn lemma_inverse_is_permutation(p: Seq<usize>, q: Seq<usize>)
    requires
        is_permutation(p),
        p.len() <= usize::MAX,
        is_inverse(p, q),
    ensures
        is_permutation(q),
{
    assert forall|y: int| 0 <= y < q.len() implies #[trigger] q[y] < q.len() by {
        lemma_permutation_onto(p, y);
        let i = choose|i: int| 0 <= i < p.len() && p[i] == y;
        assert(q[p[i] as int] == i);
    }
    assert forall|x: int, y: int| 0 <= x < y < q.len() implies q[x] != q[y] by {
        lemma_permutation_onto(p, x);
        lemma_permutation_onto(p, y);
        let i = choose|i: int| 0 <= i < p.len() && p[i] == x;
        let j = choose|j: int| 0 <= j < p.len() && p[j] == y;
        assert(q[p[i] as int] == i);
        assert(q[p[j] as int] == j);
    }
}

/// The views of a sequence of vectors.
pub open spec fn views(cs: Seq<Vec<usize>>) -> Seq<Seq<usize>> {
    Seq::new(cs.len(), |j: int| cs[j]@)
}

/// `p[a] = p[b]` implies `a = b`.
proof fn lemma_injective(p: Seq<usize>, a: int, b: int)
    requires
        is_permutation(p),
        0 <= a < p.len(),
        0 <= b < p.len(),
        p[a] == p[b],
    ensures
        a == b,
{
    if a < b {
        assert(p[a] != p[b]);
    } else if b < a {
        assert(p[b] != p[a]);
    }
}

/// A sequence without repetition of elements below `n` has at most `n` elements.
pub proof fn lemma_distinct_bounded_len(c: Seq<usize>, n: nat)
    requires
        n <= usize::MAX,
        forall|k: int| 0 <= k < c.len() ==> #[trigger] c[k] < n,
        forall|k: int, l: int| 0 <= k < l < c.len() ==> c[k] != c[l],
    ensures
        c.len() <= n,
{
    lemma_seq_distinct_set_len(c);
    lemma_range_set_len(n);
    let r = Set::new(|x: usize| x < n);
    assert(c.to_set().subset_of(r));
    vstd::set_lib::lemma_len_subset(c.to_set(), r);
}

/// The cycles of `p`: each cycle is `(i, p[i], p[p[i]], ...)` starting from its least element,
/// the cycles are in increasing order of that element, and fixed points are cycles of length `1`.
pub fn sym_cycles(p: &[usize]) -> (cs: Vec<Vec<usize>>)
    requires
        is_permutation(p@),
    ensures
        is_cycle_decomposition(p@, views(cs@)),
{
    let n = p.len();
    let mut seen: Vec<bool> = vec![false; n];
    let mut cycles: Vec<Vec<usize>> = Vec::new();
    let ghost mut cs: Seq<Seq<usize>> = Seq::empty();
    let mut i: usize = 0;
    while i < n
        invariant
            i <= n,
            n == p@.len(),
            is_permutation(p@),
            seen@.len() == n,
            cs == views(cycles@),
            forall|j: int| 0 <= j < cs.len() ==> is_cycle(p@, #[trigger] cs[j]),
            forall|j: int, k: int| 0 <= j < k < cs.len() ==> cs[j][0] < cs[k][0],
            forall|j: int| 0 <= j < cs.len() ==> #[trigger] cs[j][0] < i,
            forall|j1: int, k1: int, j2: int, k2: int|
                0 <= j1 < cs.len() && 0 <= k1 < cs[j1].len() && 0 <= j2 < cs.len() && 0 <= k2
                    < cs[j2].len() && (j1 != j2 || k1 != k2) ==> #[trigger] cs[j1][k1]
                    != #[trigger] cs[j2][k2],
            forall|x: int| 0 <= x < n ==> (seen@[x] <==> #[trigger] occurs(cs, x)),
            forall|x: int| 0 <= x < i ==> #[trigger] seen@[x],
        decreases n - i,
    {
        if !seen[i] {
            let mut cycle: Vec<usize> = Vec::new();
            let mut cur: usize = i;
            while !seen[cur]
                invariant
                    i < n,
                    n == p@.len(),
                    is_permutation(p@),
                    seen@.len() == n,
                    cur < n,
                    !occurs(cs, i as int),
                    forall|x: int| 0 <= x < i ==> #[trigger] seen@[x] && occurs(cs, x),
                    forall|j: int| 0 <= j < cs.len() ==> is_cycle(p@, #[trigger] cs[j]),
                    cycle@.len() == 0 ==> cur == i,
                    cycle@.len() > 0 ==> cycle@[0] == i && cur == p@[cycle@.last() as int],
                    forall|k: int| 0 <= k < cycle@.len() ==> #[trigger] cycle@[k] < n,
                    forall|k: int| 0 <= k < cycle@.len() ==> !occurs(cs, #[trigger] cycle@[k] as int),
                    forall|k: int, l: int| 0 <= k < l < cycle@.len() ==> cycle@[k] != cycle@[l],
                    forall|k: int| 0 <= k < cycle@.len() - 1 ==> p@[#[trigger] cycle@[k] as int] == cycle@[k + 1],
                    forall|x: int|
                        0 <= x < n ==> (seen@[x] <==> (occurs(cs, x) || cycle@.contains(x as usize))),
                decreases n - cycle@.len(),
            {
                proof {
                    assert(!cycle@.contains(cur));
                    let c2 = cycle@.push(cur);
                    assert forall|k: int, l: int| 0 <= k < l < c2.len() implies c2[k] != c2[l] by {
                        if l == c2.len() - 1 {
                            assert(cycle@.contains(c2[k]) ==> c2[k] != cur);
                            assert(cycle@[k] == c2[k]);
                        }
                    }
                    lemma_distinct_bounded_len(c2, n as nat);
                }
                let ghost old_cycle = cycle@;
                let ghost old_seen = seen@;
                let ghost c0 = cur;
                seen.set(cur, true);
                cycle.push(cur);
                cur = p[cur];
                proof {
                    assert forall|x: int|
                        0 <= x < n implies (seen@[x] <==> (occurs(cs, x) || cycle@.contains(
                            x as usize,
                        ))) by {
                        if old_cycle.contains(x as usize) {
                            let k = choose|k: int| 0 <= k < old_cycle.len() && old_cycle[k] == x as usize;
                            assert(cycle@[k] == x as usize);
                        }
                        if x == c0 {
                            assert(cycle@[cycle@.len() - 1] == x as usize);
                        }
                        if cycle@.contains(x as usize) && x != c0 {
                            let k = choose|k: int| 0 <= k < cycle@.len() && cycle@[k] == x as usize;
                            assert(old_cycle[k] == x as usize);
                        }
                    }
                }
            }
            proof {
                // the walk closes at its start
                if cur != i {
                    if cycle@.contains(cur) {
                        let k = choose|k: int| 0 <= k < cycle@.len() && cycle@[k] == cur;
                        assert(k > 0);
                        assert(p@[cycle@[k - 1] as int] == cur);
                        lemma_injective(p@, cycle@[k - 1] as int, cycle@.last() as int);
                        assert(cycle@[cycle@.len() - 1] == cycle@.last());
                    } else {
                        assert(occurs(cs, cur as int));
                        let (j, k) = choose|j: int, k: int|
                            0 <= j < cs.len() && 0 <= k < cs[j].len() && #[trigger] cs[j][k] == cur;
                        assert(is_cycle(p@, cs[j]));
                        let pr = if k > 0 {
                            cs[j][k - 1]
                        } else {
                            cs[j].last()
                        };
                        assert(p@[pr as int] == cur);
                        lemma_injective(p@, pr as int, cycle@.last() as int);
                        assert(cycle@[cycle@.len() - 1] == cycle@.last());
                        if k > 0 {
                            assert(occurs(cs, cs[j][k - 1] as int));
                        } else {
                            assert(cs[j][cs[j].len() - 1] == cs[j].last());
                            assert(occurs(cs, cs[j][cs[j].len() - 1] as int));
                        }
                    }
                }
            }
            let ghost c = cycle@;
            cycles.push(cycle);
            proof {
                let old_cs = cs;
                cs = cs.push(c);
                assert(cs =~= views(cycles@));
                assert(is_cycle(p@, c)) by {
                    assert forall|k: int| 0 < k < c.len() implies c[0] < #[trigger] c[k] by {
                        if c[k] < i {
                            assert(seen@[c[k] as int] && occurs(old_cs, c[k] as int));
                        }
                    }
                    assert(c[c.len() - 1] == c.last());
                }
                assert forall|j: int| 0 <= j < cs.len() implies is_cycle(p@, #[trigger] cs[j]) by {
                    if j < old_cs.len() {
                        assert(cs[j] == old_cs[j]);
                    }
                }
                assert forall|x: int| 0 <= x < n implies (seen@[x] <==> #[trigger] occurs(cs, x)) by {
                    if occurs(old_cs, x) {
                        let (j, k) = choose|j: int, k: int|
                            0 <= j < old_cs.len() && 0 <= k < old_cs[j].len() && #[trigger] old_cs[j][k] == x;
                        assert(cs[j][k] == x);
                    }
                    if c.contains(x as usize) {
                        let k = choose|k: int| 0 <= k < c.len() && c[k] == x as usize;
                        assert(cs[old_cs.len() as int][k] == x);
                    }
                    if occurs(cs, x) {
                        let (j, k) = choose|j: int, k: int|
                            0 <= j < cs.len() && 0 <= k < cs[j].len() && #[trigger] cs[j][k] == x;
                        if j < old_cs.len() {
                            assert(old_cs[j][k] == x);
                        } else {
                            assert(c[k] == x);
                        }
                    }
                }
                assert forall|j1: int, k1: int, j2: int, k2: int|
                    0 <= j1 < cs.len() && 0 <= k1 < cs[j1].len() && 0 <= j2 < cs.len() && 0 <= k2
                        < cs[j2].len() && (j1 != j2 || k1 != k2) implies #[trigger] cs[j1][k1]
                    != #[trigger] cs[j2][k2] by {
                    let last = old_cs.len() as int;
                    if j1 == last && j2 < last {
                        assert(old_cs[j2][k2] == cs[j2][k2]);
                        assert(occurs(old_cs, cs[j2][k2] as int));
                        assert(!occurs(old_cs, c[k1] as int));
                    } else if j2 == last && j1 < last {
                        assert(old_cs[j1][k1] == cs[j1][k1]);
                        assert(occurs(old_cs, cs[j1][k1] as int));
                        assert(!occurs(old_cs, c[k2] as int));
                    } else if j1 == last && j2 == last {
                        if k1 < k2 {
                            assert(c[k1] != c[k2]);
                        } else {
                            assert(c[k2] != c[k1]);
                        }
                    } else {
                        assert(cs[j1] == old_cs[j1]);
                        assert(cs[j2] == old_cs[j2]);
                    }
                }
                assert forall|j: int, k: int| 0 <= j < k < cs.len() implies cs[j][0] < cs[k][0] by {
                    if k == old_cs.len() {
                        assert(old_cs[j][0] < i);
                    } else {
                        assert(cs[j] == old_cs[j]);
                        assert(cs[k] == old_cs[k]);
                    }
                }
                assert forall|j: int| 0 <= j < cs.len() implies #[trigger] cs[j][0] < i + 1 by {
                    if j < old_cs.len() {
                        assert(cs[j] == old_cs[j]);
                    }
                }
            }
        }
        i = i + 1;
    }
    cycles
}

/// Walking a cycle `c2` of `p` from the position `k2` of `c[0]`, for another cycle `c` of `p`,
/// meets the items of `c` in order.
proof fn lemma_cycle_walk(p: Seq<usize>, c: Seq<usize>, c2: Seq<usize>, k2: int, t: int)
    requires
        is_cycle(p, c),
        is_cycle(p, c2),
        0 <= k2 < c2.len(),
        c2[k2] == c[0],
        0 <= t < c.len(),
    ensures
        c2[(k2 + t) % c2.len() as int] == c[t],
    decreases t,
{
    let l2 = c2.len() as int;
    vstd::arithmetic::div_mod::lemma_mod_pos_bound(k2 + t, l2);
    if t == 0 {
        vstd::arithmetic::div_mod::lemma_small_mod(k2 as nat, l2 as nat);
    } else {
        lemma_cycle_walk(p, c, c2, k2, t - 1);
        let i = (k2 + t - 1) % l2;
        vstd::arithmetic::div_mod::lemma_mod_pos_bound(k2 + t - 1, l2);
        assert(p[c[t - 1] as int] == c[t]);
        if i < l2 - 1 {
            assert(p[c2[i] as int] == c2[i + 1]);
            vstd::arithmetic::div_mod::lemma_fundamental_div_mod(k2 + t - 1, l2);
            vstd::arithmetic::div_mod::lemma_fundamental_div_mod_converse(k2 + t, l2, (k2 + t - 1) / l2, i + 1);
        } else {
            vstd::arithmetic::div_mod::lemma_fundamental_div_mod(k2 + t - 1, l2);
            vstd::arithmetic::div_mod::lemma_fundamental_div_mod_converse(k2 + t, l2, (k2 + t - 1) / l2 + 1, 0);
        }
    }
}

/// A cycle of `p` through the least item `c[0]` of another cycle `c` of `p` has its length.
proof fn lemma_cycle_len(p: Seq<usize>, c: Seq<usize>, c2: Seq<usize>, k2: int)
    requires
        is_cycle(p, c),
        is_cycle(p, c2),
        0 <= k2 < c2.len(),
        c2[k2] == c[0],
    ensures
        c.len() == c2.len(),
{
    let l = c.len() as int;
    let l2 = c2.len() as int;
    if l > l2 {
        lemma_cycle_walk(p, c, c2, k2, l2);
        vstd::arithmetic::div_mod::lemma_fundamental_div_mod_converse(k2 + l2, l2, 1, k2);
        assert(c[l2] == c[0]);
    } else if l < l2 {
        lemma_cycle_walk(p, c, c2, k2, l - 1);
        let x = k2 + l - 1;
        let i = x % l2;
        if x < l2 {
            vstd::arithmetic::div_mod::lemma_small_mod(x as nat, l2 as nat);
        } else {
            vstd::arithmetic::div_mod::lemma_fundamental_div_mod_converse(x, l2, 1, x - l2);
        }
        assert(p[c[l - 1] as int] == c[0]);
        if i < l2 - 1 {
            assert(p[c2[i] as int] == c2[i + 1]);
            assert(c2[i + 1] == c2[k2]);
        } else {
            assert(c2[0] == c2[k2]);
        }
    }
}

/// A cycle of `p` through the least item `c[0]` of another cycle `c` of `p` is `c`.
proof fn lemma_cycle_unique(p: Seq<usize>, c: Seq<usize>, c2: Seq<usize>, k2: int)
    requires
        is_cycle(p, c),
        is_cycle(p, c2),
        0 <= k2 < c2.len(),
        c2[k2] == c[0],
    ensures
        c2 == c,
{
    let l = c.len() as int;
    lemma_cycle_len(p, c, c2, k2);
    if k2 > 0 {
        lemma_cycle_walk(p, c, c2, k2, l - k2);
        vstd::arithmetic::div_mod::lemma_mod_self_0(l);
        assert(c2[0] < c2[k2]);
        assert(c[0] < c[l - k2]);
    }
    assert forall|t: int| 0 <= t < l implies #[trigger] c2[t] == c[t] by {
        lemma_cycle_walk(p, c, c2, 0, t);
        vstd::arithmetic::div_mod::lemma_small_mod(t as nat, l as nat);
    }
    assert(c2 =~= c);
}

/// Two strictly increasing sequences with the same items are equal.
proof fn lemma_sorted_same(a: Seq<usize>, b: Seq<usize>)
    requires
        forall|i: int, j: int| 0 <= i < j < a.len() ==> a[i] < a[j],
        forall|i: int, j: int| 0 <= i < j < b.len() ==> b[i] < b[j],
        forall|i: int| 0 <= i < a.len() ==> b.contains(#[trigger] a[i]),
        forall|i: int| 0 <= i < b.len() ==> a.contains(#[trigger] b[i]),
    ensures
        a == b,
{
    assert forall|j: int| 0 <= j < a.len() && 0 <= j < b.len() implies #[trigger] a[j] == b[j] by {
        lemma_sorted_same_at(a, b, j);
    }
    if a.len() > b.len() {
        let t = b.len() as int;
        assert(b.contains(a[t]));
        let k = choose|k: int| 0 <= k < b.len() && b[k] == a[t];
        lemma_sorted_same_at(a, b, k);
    }
    if b.len() > a.len() {
        let t = a.len() as int;
        assert(a.contains(b[t]));
        let k = choose|k: int| 0 <= k < a.len() && a[k] == b[t];
        lemma_sorted_same_at(a, b, k);
    }
    assert(a =~= b);
}

/// Two strictly increasing sequences with the same items agree at each position both have.
proof fn lemma_sorted_same_at(a: Seq<usize>, b: Seq<usize>, j: int)
    requires
        forall|i: int, k: int| 0 <= i < k < a.len() ==> a[i] < a[k],
        forall|i: int, k: int| 0 <= i < k < b.len() ==> b[i] < b[k],
        forall|i: int| 0 <= i < a.len() ==> b.contains(#[trigger] a[i]),
        forall|i: int| 0 <= i < b.len() ==> a.contains(#[trigger] b[i]),
        0 <= j < a.len(),
        j < b.len(),
    ensures
        a[j] == b[j],
    decreases j,
{
    if j > 0 {
        lemma_sorted_same_at(a, b, j - 1);
    }
    assert(b.contains(a[j]));
    let k = choose|k: int| 0 <= k < b.len() && b[k] == a[j];
    assert(a.contains(b[j]));
    let i = choose|i: int| 0 <= i < a.len() && a[i] == b[j];
    if k < j {
        lemma_sorted_same_at(a, b, k);
    }
    if i < j {
        lemma_sorted_same_at(a, b, i);
    }
}

/// The cycle decomposition of a permutation is unique.
pub proof fn lemma_cycle_decomposition_unique(p: Seq<usize>, cs1: Seq<Seq<usize>>, cs2: Seq<Seq<usize>>)
    requires
        is_cycle_decomposition(p, cs1),
        is_cycle_decomposition(p, cs2),
    ensures
        cs1 == cs2,
{
    let f1 = Seq::new(cs1.len(), |j: int| cs1[j][0]);
    let f2 = Seq::new(cs2.len(), |j: int| cs2[j][0]);
    assert forall|j: int| 0 <= j < f1.len() implies f2.contains(#[trigger] f1[j]) by {
        let c = cs1[j];
        assert(is_cycle(p, c));
        assert(occurs(cs2, c[0] as int));
        let (j2, k2) = choose|j2: int, k2: int| 0 <= j2 < cs2.len() && 0 <= k2 < cs2[j2].len() && #[trigger] cs2[j2][k2] == c[0] as int;
        assert(is_cycle(p, cs2[j2]));
        lemma_cycle_unique(p, c, cs2[j2], k2);
        assert(f2[j2] == f1[j]);
    }
    assert forall|j: int| 0 <= j < f2.len() implies f1.contains(#[trigger] f2[j]) by {
        let c = cs2[j];
        assert(is_cycle(p, c));
        assert(occurs(cs1, c[0] as int));
        let (j1, k1) = choose|j1: int, k1: int| 0 <= j1 < cs1.len() && 0 <= k1 < cs1[j1].len() && #[trigger] cs1[j1][k1] == c[0] as int;
        assert(is_cycle(p, cs1[j1]));
        lemma_cycle_unique(p, c, cs1[j1], k1);
        assert(f1[j1] == f2[j]);
    }
    lemma_sorted_same(f1, f2);
    assert forall|j: int| 0 <= j < cs1.len() implies #[trigger] cs1[j] == cs2[j] by {
        assert(f1[j] == f2[j]);
        assert(is_cycle(p, cs1[j]));
        assert(is_cycle(p, cs2[j]));
        lemma_cycle_unique(p, cs1[j], cs2[j], 0);
    }
    assert(cs1 =~= cs2);
}

/// A cycle decomposition has at most `n` cycles.
proof fn lemma_num_cycles(p: Seq<usize>, cs: Seq<Seq<usize>>)
    requires
        is_cycle_decomposition(p, cs),
        p.len() <= usize::MAX,
    ensures
        cs.len() <= p.len(),
{
    let firsts = Seq::new(cs.len(), |j: int| cs[j][0]);
    assert forall|j: int| 0 <= j < firsts.len() implies #[trigger] firsts[j] < p.len() by {
        assert(is_cycle(p, cs[j]));
    }
    lemma_distinct_bounded_len(firsts, p.len());
}

/// Whether `p` is even: its sign `(-1)^(n-c)`, where `c` is the number of cycles, is `1`.
pub fn sym_sign(p: &[usize]) -> (b: bool)
    requires
        is_permutation(p@),
    ensures
        forall|cs: Seq<Seq<usize>>|
            #[trigger] is_cycle_decomposition(p@, cs) ==> b == ((p@.len() - cs.len()) % 2 == 0),
{
    let n = p.len();
    let cs = sym_cycles(p);
    proof {
        lemma_num_cycles(p@, views(cs@));
    }
    let d = n - cs.len();
    proof {
        assert(d & 1 == d % 2) by (bit_vector);
    }
    let b = d & 1 == 0;
    proof {
        assert forall|cs2: Seq<Seq<usize>>| #[trigger] is_cycle_decomposition(p@, cs2) implies b == ((p@.len()
            - cs2.len()) % 2 == 0) by {
            lemma_cycle_decomposition_unique(p@, views(cs@), cs2);
        }
    }
    b
}

/// `p^k(x)`: `x` moved `k` times by `p`.
pub open spec fn perm_pow(p: Seq<usize>, k: nat, x: int) -> int
    decreases k,
{
    if k == 0 {
        x
    } else {
        p[perm_pow(p, (k - 1) as nat, x)] as int
    }
}

/// Along a cycle of length `l`, `p^j(c[i]) = c[(i + j) mod l]`.
proof fn lemma_cycle_pow(p: Seq<usize>, c: Seq<usize>, i: int, j: nat)
    requires
        is_cycle(p, c),
        0 <= i < c.len(),
    ensures
        perm_pow(p, j, c[i] as int) == c[(i + j) % (c.len() as int)],
    decreases j,
{
    let l = c.len() as int;
    if j == 0 {
        vstd::arithmetic::div_mod::lemma_small_mod(i as nat, l as nat);
    } else {
        lemma_cycle_pow(p, c, i, (j - 1) as nat);
        if l == 1 {
            assert(c[0] == c.last());
            assert((i + j) % l == 0) by (nonlinear_arith)
                requires
                    l == 1,
            ;
            assert((i + j - 1) % l == 0) by (nonlinear_arith)
                requires
                    l == 1,
            ;
        } else {
            let m = (i + j - 1) % l;
            vstd::arithmetic::div_mod::lemma_mod_bound(i + j - 1, l);
            vstd::arithmetic::div_mod::lemma_add_mod_noop(i + j - 1, 1, l);
            vstd::arithmetic::div_mod::lemma_small_mod(1, l as nat);
            if m < l - 1 {
                vstd::arithmetic::div_mod::lemma_small_mod((m + 1) as nat, l as nat);
            } else {
                vstd::arithmetic::div_mod::lemma_mod_self_0(l);
                assert(c[l - 1] == c.last());
            }
        }
    }
}

/// `p^k` is the identity exactly when the length of every cycle of `p` divides `k`: the order of
/// `p`, the least `k >= 1` with `p^k = id`, is the least `k >= 1` that all cycle lengths divide.
pub proof fn lemma_pow_identity(p: Seq<usize>, cs: Seq<Seq<usize>>, k: nat)
    requires
        is_permutation(p),
        is_cycle_decomposition(p, cs),
    ensures
        (forall|x: int| 0 <= x < p.len() ==> #[trigger] perm_pow(p, k, x) == x) <==> (forall|j: int|
            0 <= j < cs.len() ==> (k as int) % (#[trigger] cs[j].len() as int) == 0),
{
    if forall|x: int| 0 <= x < p.len() ==> #[trigger] perm_pow(p, k, x) == x {
        assert forall|j: int| 0 <= j < cs.len() implies (k as int) % (#[trigger] cs[j].len() as int) == 0 by {
            let c = cs[j];
            assert(is_cycle(p, c));
            let l = c.len() as int;
            lemma_cycle_pow(p, c, 0, k);
            assert(c[0] < p.len());
            assert(perm_pow(p, k, c[0] as int) == c[0]);
            let m = (0 + k) as int % l;
            vstd::arithmetic::div_mod::lemma_mod_bound(k as int, l);
            if m != 0 {
                assert(c[0] != c[m]);
            }
        }
    }
    if forall|j: int| 0 <= j < cs.len() ==> (k as int) % (#[trigger] cs[j].len() as int) == 0 {
        assert forall|x: int| 0 <= x < p.len() implies #[trigger] perm_pow(p, k, x) == x by {
            assert(occurs(cs, x));
            let (j, i) = choose|j: int, i: int| 0 <= j < cs.len() && 0 <= i < cs[j].len() && #[trigger] cs[j][i] == x;
            let c = cs[j];
            assert(is_cycle(p, c));
            let l = c.len() as int;
            lemma_cycle_pow(p, c, i, k);
            assert((k as int) % l == 0);
            vstd::arithmetic::div_mod::lemma_add_mod_noop(i, k as int, l);
            vstd::arithmetic::div_mod::lemma_small_mod(i as nat, l as nat);
            vstd::arithmetic::div_mod::lemma_mod_bound(i, l);
        }
    }
}

/// The power `p^k`: `p^0 = id` and `p^k = p^{k-1} p`.
pub fn sym_pow(p: &[usize], k: u64) -> (q: Vec<usize>)
    requires
        is_permutation(p@),
        p@.len() <= usize::MAX / 2,
    ensures
        q@.len() == p@.len(),
        forall|x: int| 0 <= x < p@.len() ==> #[trigger] q@[x] == perm_pow(p@, k as nat, x),
{
    let n = p.len();
    let mut q: Vec<usize> = vec![0; n];
    let cycles = sym_cycles(p);
    let ghost cs = views(cycles@);
    let mut j: usize = 0;
    while j < cycles.len()
        invariant
            n == p@.len(),
            n <= usize::MAX / 2,
            q@.len() == n,
            cs == views(cycles@),
            is_permutation(p@),
            is_cycle_decomposition(p@, cs),
            j <= cs.len(),
            forall|j1: int, k1: int|
                0 <= j1 < j && 0 <= k1 < cs[j1].len() ==> q@[#[trigger] cs[j1][k1] as int]
                    == perm_pow(p@, k as nat, cs[j1][k1] as int),
        decreases cs.len() - j,
    {
        let cycle = &cycles[j];
        let l = cycle.len();
        proof {
            assert(cycle@ == cs[j as int]);
            assert(is_cycle(p@, cs[j as int]));
            lemma_distinct_bounded_len(cycle@, n as nat);
        }
        let shift = (k % (l as u64)) as usize;
        let mut i: usize = 0;
        while i < l
            invariant
                n == p@.len(),
                n <= usize::MAX / 2,
                q@.len() == n,
                cs == views(cycles@),
                is_permutation(p@),
                is_cycle_decomposition(p@, cs),
                j < cs.len(),
                cycle@ == cs[j as int],
                l == cycle@.len(),
                0 < l <= n,
                shift == k % (l as u64),
                i <= l,
                forall|j1: int, k1: int|
                    0 <= j1 < j && 0 <= k1 < cs[j1].len() ==> q@[#[trigger] cs[j1][k1] as int]
                        == perm_pow(p@, k as nat, cs[j1][k1] as int),
                forall|k1: int|
                    0 <= k1 < i ==> q@[#[trigger] cycle@[k1] as int] == perm_pow(
                        p@,
                        k as nat,
                        cycle@[k1] as int,
                    ),
            decreases l - i,
        {
            let x = cycle[i];
            let y = cycle[(i + shift) % l];
            proof {
                assert(is_cycle(p@, cs[j as int]));
                lemma_cycle_pow(p@, cycle@, i as int, k as nat);
                vstd::arithmetic::div_mod::lemma_add_mod_noop_right(i as int, k as int, l as int);
                assert(x < n);
            }
            q.set(x, y);
            proof {
                assert forall|j1: int, k1: int|
                    0 <= j1 < j && 0 <= k1 < cs[j1].len() implies q@[#[trigger] cs[j1][k1] as int]
                    == perm_pow(p@, k as nat, cs[j1][k1] as int) by {
                    assert(cs[j1][k1] != cs[j as int][i as int]);
                }
                assert forall|k1: int| 0 <= k1 < i + 1 implies q@[#[trigger] cycle@[k1] as int]
                    == perm_pow(p@, k as nat, cycle@[k1] as int) by {
                    if k1 < i {
                        assert(cs[j as int][k1] != cs[j as int][i as int]);
                    }
                }
            }
            i = i + 1;
        }
        j = j + 1;
    }
    proof {
        assert forall|x: int| 0 <= x < p@.len() implies #[trigger] q@[x] == perm_pow(
            p@,
            k as nat,
            x,
        ) by {
            assert(occurs(cs, x));
            let (j1, k1) = choose|j1: int, k1: int|
                0 <= j1 < cs.len() && 0 <= k1 < cs[j1].len() && #[trigger] cs[j1][k1] == x;
        }
    }
    q
}

/// The exponent of `q` in the factorization `f`, or `0` if `q` does not occur.
pub open spec fn exponent_in(f: Seq<(nat, nat)>, q: nat) -> nat
    decreases f.len(),
{
    if f.len() == 0 {
        0
    } else if f.last().0 == q {
        f.last().1
    } else {
        exponent_in(f.drop_last(), q)
    }
}

/// The largest exponent of `q` in the lengths of the cycles `cs`: the exponent of `q` in their
/// least common multiple.
pub open spec fn max_exponent(cs: Seq<Seq<usize>>, q: nat) -> nat
    decreases cs.len(),
{
    if cs.len() == 0 {
        0
    } else {
        let a = max_exponent(cs.drop_last(), q);
        let b = exponent_in(lpf_factorization(cs.last().len()), q);
        if a < b {
            b
        } else {
            a
        }
    }
}

/// In a factorization with increasing primes, the exponent of `f[t].0` is `f[t].1`; a prime not
/// among the first entries has exponent `0` in them.
proof fn lemma_exponent_in(f: Seq<(nat, nat)>, t: int, q: nat)
    requires
        forall|i: int, j: int| 0 <= i < j < f.len() ==> f[i].0 < f[j].0,
        0 <= t <= f.len(),
    ensures
        t < f.len() ==> exponent_in(f, f[t].0) == f[t].1,
        exponent_in(f.take(t), q) == (if exists|i: int| 0 <= i < t && f[i].0 == q {
            exponent_in(f, q)
        } else {
            0
        }),
    decreases f.len(),
{
    if f.len() > 0 {
        let g = f.drop_last();
        if t < f.len() - 1 {
            lemma_exponent_in(g, t, q);
            assert(g[t] == f[t]);
            assert(f.last().0 != f[t].0) by {
                assert(f[t].0 < f[f.len() - 1].0);
            }
            assert(g.take(t) =~= f.take(t));
            if exists|i: int| 0 <= i < t && f[i].0 == q {
                let i = choose|i: int| 0 <= i < t && f[i].0 == q;
                assert(g[i].0 == q);
                assert(f[i].0 < f[f.len() - 1].0);
            }
        } else if t == f.len() - 1 {
            lemma_exponent_in(g, t, q);
            assert(g.take(t) =~= g);
            assert(f.take(t) =~= g);
            if exists|i: int| 0 <= i < t && f[i].0 == q {
                let i = choose|i: int| 0 <= i < t && f[i].0 == q;
                assert(f[i].0 < f[f.len() - 1].0);
                assert(g[i].0 == q);
            } else {
                if f.last().0 != q {
                    lemma_exponent_in(g, g.len() as int, q);
                    assert(g.take(g.len() as int) =~= g);
                }
            }
        } else {
            assert(f.take(t) =~= f);
            if f.last().0 != q {
                lemma_exponent_in(g, g.len() as int, q);
                assert(g.take(g.len() as int) =~= g);
                if exists|i: int| 0 <= i < t && f[i].0 == q {
                } else {
                    assert forall|i: int| 0 <= i < g.len() implies g[i].0 != q by {
                        assert(f[i] == g[i]);
                    }
                }
            } else {
                assert(f[f.len() - 1].0 == q);
            }
        }
    }
}

/// The order of `p`, the least `k >= 1` with `p^k = id`, as the pairs `(q, e)` of its prime
/// factorization in increasing order of `q`: `e` is the largest exponent of `q` in a cycle length.
pub fn sym_order(p: &[usize]) -> (r: Vec<(usize, u32)>)
    requires
        is_permutation(p@),
        p@.len() < 0x1_0000_0000,
        p@.len() < usize::MAX / 2,
    ensures
        forall|cs: Seq<Seq<usize>>|
            #![trigger is_cycle_decomposition(p@, cs)]
            is_cycle_decomposition(p@, cs) ==> (forall|k: int|
                0 <= k < r@.len() ==> #[trigger] r@[k].0 <= p@.len() && r@[k].1 > 0 && r@[k].1
                    == max_exponent(cs, r@[k].0 as nat)) && (forall|k: int, l: int|
                0 <= k < l < r@.len() ==> r@[k].0 < r@[l].0) && (forall|q: int|
                0 <= q <= p@.len() && #[trigger] max_exponent(cs, q as nat) > 0 ==> exists|k: int|
                    0 <= k < r@.len() && r@[k].0 == q),
{
    let n = p.len();
    let cycles = sym_cycles(p);
    let ghost cs = views(cycles@);
    let lpf = Lpf::new(n);
    let mut exp: Vec<u32> = vec![0; n + 1];
    let mut j: usize = 0;
    while j < cycles.len()
        invariant
            n == p@.len(),
            n < 0x1_0000_0000,
            lpf.spec_bound() == n,
            exp@.len() == n + 1,
            cs == views(cycles@),
            is_permutation(p@),
            is_cycle_decomposition(p@, cs),
            j <= cs.len(),
            forall|q: int| 0 <= q <= n ==> #[trigger] exp@[q] == max_exponent(cs.take(j as int), q as nat),
        decreases cs.len() - j,
    {
        let l = cycles[j].len();
        proof {
            assert(cycles@[j as int]@ == cs[j as int]);
            assert(is_cycle(p@, cs[j as int]));
            lemma_distinct_bounded_len(cs[j as int], n as nat);
        }
        let f = lpf.prime_factors(l);
        let ghost g = factors_view(f@);
        proof {
            lemma_lpf_factorization(l as nat);
            assert(cs.take(j as int + 1).drop_last() =~= cs.take(j as int));
            assert(cs.take(j as int + 1).last() == cs[j as int]);
        }
        let mut t: usize = 0;
        while t < f.len()
            invariant
                n == p@.len(),
                n < 0x1_0000_0000,
                exp@.len() == n + 1,
                1 <= l <= n,
                g == factors_view(f@),
                g == lpf_factorization(l as nat),
                is_factorization(g, l as nat),
                forall|i: int| 0 <= i < g.len() ==> #[trigger] ((l as nat) % g[i].0) == 0,
                t <= f@.len(),
                forall|q: int|
                    0 <= q <= n ==> #[trigger] exp@[q] == ({
                        let a = max_exponent(cs.take(j as int), q as nat);
                        let b = exponent_in(g.take(t as int), q as nat);
                        if a < b {
                            b
                        } else {
                            a
                        }
                    }),
            decreases f@.len() - t,
        {
            let (q, e) = f[t];
            proof {
                assert(g[t as int] == (q as nat, e as nat));
                assert(spec_is_prime(g[t as int].0));
                vstd::arithmetic::div_mod::lemma_mod_is_zero(l as nat, q as nat);
                lemma_exponent_in(g, t as int, q as nat);
                lemma_exponent_in(g, t as int + 1, q as nat);
                assert forall|x: nat| x != q implies exponent_in(g.take(t as int + 1), x)
                    == exponent_in(g.take(t as int), x) by {
                    lemma_exponent_in(g, t as int, x);
                    lemma_exponent_in(g, t as int + 1, x);
                    if exists|i: int| 0 <= i < t + 1 && g[i].0 == x {
                        let i = choose|i: int| 0 <= i < t + 1 && g[i].0 == x;
                        assert(i != t);
                    }
                }
                if exists|i: int| 0 <= i < t && g[i].0 == q {
                    let i = choose|i: int| 0 <= i < t && g[i].0 == q;
                    assert(g[i].0 < g[t as int].0);
                }
            }
            if exp[q] < e {
                exp.set(q, e);
            }
            t = t + 1;
        }
        proof {
            assert(g.take(f@.len() as int) =~= g);
        }
        j = j + 1;
    }
    proof {
        assert(cs.take(cs.len() as int) =~= cs);
    }
    let mut r: Vec<(usize, u32)> = Vec::new();
    let mut q: usize = 0;
    while q <= n
        invariant
            n == p@.len(),
            n < 0x1_0000_0000,
            n < usize::MAX / 2,
            exp@.len() == n + 1,
            q <= n + 1,
            forall|x: int| 0 <= x <= n ==> #[trigger] exp@[x] == max_exponent(cs, x as nat),
            forall|k: int|
                0 <= k < r@.len() ==> #[trigger] r@[k].0 < q && r@[k].1 > 0 && r@[k].1
                    == max_exponent(cs, r@[k].0 as nat),
            forall|k: int, l: int| 0 <= k < l < r@.len() ==> r@[k].0 < r@[l].0,
            forall|x: int|
                0 <= x < q && #[trigger] max_exponent(cs, x as nat) > 0 ==> exists|k: int|
                    0 <= k < r@.len() && r@[k].0 == x,
        decreases n + 1 - q,
    {
        let ghost old_r = r@;
        if exp[q] > 0 {
            r.push((q, exp[q]));
            proof {
                let k = r@.len() - 1;
                assert(r@[k].0 == q);
            }
        }
        proof {
            assert forall|x: int|
                0 <= x < q + 1 && #[trigger] max_exponent(cs, x as nat) > 0 implies exists|k: int|
                0 <= k < r@.len() && r@[k].0 == x by {
                if x == q {
                    assert(r@[r@.len() - 1].0 == q);
                } else {
                    let k = choose|k: int| 0 <= k < old_r.len() && old_r[k].0 == x;
                    assert(r@[k] == old_r[k]);
                }
            }
        }
        q = q + 1;
    }
    proof {
        assert forall|cs2: Seq<Seq<usize>>| #[trigger] is_cycle_decomposition(p@, cs2) implies cs2 == cs by {
            lemma_cycle_decomposition_unique(p@, cs, cs2);
        }
    }
    r
}

/// Composition is associative: `op(op(p, q), r) = op(p, op(q, r))`.
pub proof fn lemma_compose_assoc(p: Seq<usize>, q: Seq<usize>, r: Seq<usize>)
    requires
        is_permutation(p),
        is_permutation(q),
        p.len() == q.len(),
    ensures
        compose(compose(p, q), r) == compose(p, compose(q, r)),
{
    assert(compose(compose(p, q), r) =~= compose(p, compose(q, r)));
}

/// The identity is a two-sided unit: `op(id, p) = op(p, id) = p`.
pub proof fn lemma_compose_identity(p: Seq<usize>)
    requires
        is_permutation(p),
        p.len() <= usize::MAX,
    ensures
        compose(identity(p.len()), p) == p,
        compose(p, identity(p.len())) == p,
{
    assert(compose(identity(p.len()), p) =~= p);
    assert(compose(p, identity(p.len())) =~= p);
}

/// The inverse is a two-sided inverse: `op(p, inv(p)) = op(inv(p), p) = id`.
pub proof fn lemma_compose_inverse(p: Seq<usize>, q: Seq<usize>)
    requires
        is_permutation(p),
        p.len() <= usize::MAX,
        is_inverse(p, q),
    ensures
        compose(p, q) == identity(p.len()),
        compose(q, p) == identity(p.len()),
{
    assert(compose(p, q) =~= identity(p.len()));
    assert forall|y: int| 0 <= y < p.len() implies #[trigger] compose(q, p)[y] == identity(
        p.len(),
    )[y] by {
        lemma_permutation_onto(p, y);
        let i = choose|i: int| 0 <= i < p.len() && p[i] == y;
        assert(q[p[i] as int] == i);
    }
    assert(compose(q, p) =~= identity(p.len()));
}

} // verus!
