//! The number of distinct subsequences of a sequence.
use crate::algebra::{Ring, Semiring};
use crate::num::factorial::{lemma_nat_elem_add, lemma_nat_elem_valid, nat_elem};
use vstd::prelude::*;
use vstd::relations::injective_on;
use vstd::set_lib::*;

verus! {

/// `t` is a subsequence of `s`: `t` is empty, or `t` without its last item is a subsequence of
/// `s` without its last item and the two last items are equal, or `t` is a subsequence of `s`
/// without its last item.
pub open spec fn is_subsequence(t: Seq<usize>, s: Seq<usize>) -> bool
    decreases s.len(),
{
    if t.len() == 0 {
        true
    } else if s.len() == 0 {
        false
    } else {
        (t.last() == s.last() && is_subsequence(t.drop_last(), s.drop_last())) || is_subsequence(
            t,
            s.drop_last(),
        )
    }
}

/// The set of the subsequences of `s`, each counted once.
pub open spec fn subsequences(s: Seq<usize>) -> Set<Seq<usize>> {
    Set::new(|t: Seq<usize>| is_subsequence(t, s))
}

/// The number of distinct subsequences of `s`, the empty one included.
pub open spec fn num_distinct_subsequences(s: Seq<usize>) -> nat {
    subsequences(s).len()
}

/// The index of the last occurrence of `c` in `s`, or `-1` if there is none.
pub open spec fn last_index(s: Seq<usize>, c: usize) -> int
    decreases s.len(),
{
    if s.len() == 0 {
        -1
    } else if s.last() == c {
        s.len() - 1
    } else {
        last_index(s.drop_last(), c)
    }
}

/// Appending `c`.
spec fn push_fn(c: usize) -> spec_fn(Seq<usize>) -> Seq<usize> {
    |t: Seq<usize>| t.push(c)
}

/// The subsequences of `s` followed by `c`: all but the empty one ends in `c` or not.
proof fn lemma_subsequences_push(s: Seq<usize>, c: usize)
    ensures
        subsequences(s.push(c)) == subsequences(s).union(subsequences(s).map(push_fn(c))),
{
    let s2 = s.push(c);
    assert(s2.drop_last() =~= s);
    assert forall|t: Seq<usize>| #[trigger] subsequences(s2).contains(t) <==> subsequences(s).union(
        subsequences(s).map(push_fn(c)),
    ).contains(t) by {
        if t.len() > 0 && t.last() == c && is_subsequence(t.drop_last(), s) {
            assert(t.drop_last().push(c) =~= t);
            assert(subsequences(s).contains(t.drop_last()));
        }
        if subsequences(s).map(push_fn(c)).contains(t) {
            let u = choose|u: Seq<usize>| subsequences(s).contains(u) && push_fn(c)(u) == t;
            assert(t.drop_last() =~= u);
        }
    }
    assert(subsequences(s2) =~= subsequences(s).union(subsequences(s).map(push_fn(c))));
}

/// There are finitely many subsequences.
proof fn lemma_subsequences_finite(s: Seq<usize>)
    ensures
        subsequences(s).finite(),
    decreases s.len(),
{
    if s.len() == 0 {
        assert forall|t: Seq<usize>| #[trigger] subsequences(s).contains(t) implies t == Seq::<usize>::empty() by {
            assert(t =~= Seq::<usize>::empty());
        }
        assert(subsequences(s) =~= set![Seq::<usize>::empty()]);
    } else {
        let s0 = s.drop_last();
        lemma_subsequences_finite(s0);
        lemma_subsequences_push(s0, s.last());
        assert(s0.push(s.last()) =~= s);
        subsequences(s0).lemma_map_finite(push_fn(s.last()));
    }
}

/// A subsequence of `s` is one of `s` followed by anything.
proof fn lemma_subsequence_extend(t: Seq<usize>, s: Seq<usize>, c: usize)
    requires
        is_subsequence(t, s),
    ensures
        is_subsequence(t, s.push(c)),
{
    assert(s.push(c).drop_last() =~= s);
}

/// Dropping the last item of a subsequence leaves a subsequence.
proof fn lemma_subsequence_drop_last(t: Seq<usize>, s: Seq<usize>)
    requires
        is_subsequence(t, s),
        t.len() > 0,
    ensures
        is_subsequence(t.drop_last(), s),
    decreases s.len(),
{
    let s0 = s.drop_last();
    assert(s0.push(s.last()) =~= s);
    if t.last() == s.last() && is_subsequence(t.drop_last(), s0) {
        lemma_subsequence_extend(t.drop_last(), s0, s.last());
    } else {
        lemma_subsequence_drop_last(t, s0);
        lemma_subsequence_extend(t.drop_last(), s0, s.last());
    }
}

/// `u` followed by `c` is a subsequence of `s` exactly when `c` occurs in `s` and `u` is a
/// subsequence of the part of `s` before its last occurrence.
proof fn lemma_push_subsequence(u: Seq<usize>, s: Seq<usize>, c: usize)
    ensures
        -1 <= last_index(s, c) < s.len(),
        last_index(s, c) >= 0 ==> s[last_index(s, c)] == c,
        is_subsequence(u.push(c), s) <==> (last_index(s, c) >= 0 && is_subsequence(
            u,
            s.take(last_index(s, c)),
        )),
    decreases s.len(),
{
    let t = u.push(c);
    assert(t.drop_last() =~= u);
    if s.len() > 0 {
        let s0 = s.drop_last();
        if s.last() == c {
            assert(s.take(s.len() - 1) =~= s0);
            if is_subsequence(t, s0) {
                lemma_subsequence_drop_last(t, s0);
            }
        } else {
            lemma_push_subsequence(u, s0, c);
            let p = last_index(s0, c);
            if p >= 0 {
                assert(s.take(p) =~= s0.take(p));
            }
        }
    }
}

/// The subsequences that end in `c` and remain subsequences when `c` is dropped: those of the part
/// before the last occurrence of `c`, followed by `c`.
proof fn lemma_overlap(s: Seq<usize>, c: usize)
    ensures
        subsequences(s).intersect(subsequences(s).map(push_fn(c))) == if last_index(s, c) >= 0 {
            subsequences(s.take(last_index(s, c))).map(push_fn(c))
        } else {
            Set::<Seq<usize>>::empty()
        },
{
    let p = last_index(s, c);
    let lhs = subsequences(s).intersect(subsequences(s).map(push_fn(c)));
    let rhs = if p >= 0 {
        subsequences(s.take(p)).map(push_fn(c))
    } else {
        Set::<Seq<usize>>::empty()
    };
    assert forall|t: Seq<usize>| #[trigger] lhs.contains(t) <==> rhs.contains(t) by {
        if lhs.contains(t) {
            let u = choose|u: Seq<usize>| subsequences(s).contains(u) && push_fn(c)(u) == t;
            lemma_push_subsequence(u, s, c);
            assert(subsequences(s.take(p)).contains(u));
        }
        if rhs.contains(t) {
            let u = choose|u: Seq<usize>| subsequences(s.take(p)).contains(u) && push_fn(c)(u) == t;
            lemma_push_subsequence(u, s, c);
            assert(t.drop_last() =~= u);
            lemma_subsequence_drop_last(t, s);
            assert(subsequences(s).contains(u));
        }
    }
    assert(lhs =~= rhs);
}

/// Appending `c` doubles the number of subsequences, less those counted twice: the subsequences
/// of the part before the last occurrence of `c`, each followed by `c`.
proof fn lemma_count_push(s: Seq<usize>, c: usize)
    ensures
        -1 <= last_index(s, c) < s.len(),
        last_index(s, c) >= 0 ==> num_distinct_subsequences(s.take(last_index(s, c)))
            <= num_distinct_subsequences(s),
        num_distinct_subsequences(s.push(c)) == 2 * num_distinct_subsequences(s) - if last_index(s, c)
            >= 0 {
            num_distinct_subsequences(s.take(last_index(s, c)))
        } else {
            0
        },
{
    let p = last_index(s, c);
    lemma_push_subsequence(Seq::<usize>::empty(), s, c);
    let a = subsequences(s);
    let f = push_fn(c);
    let b = a.map(f);
    lemma_subsequences_finite(s);
    a.lemma_map_finite(f);
    assert(injective_on(f, a)) by {
        assert forall|x: Seq<usize>, y: Seq<usize>| a.contains(x) && a.contains(y) && #[trigger] f(x) == #[trigger] f(
            y,
        ) implies x == y by {
            assert(f(x).drop_last() =~= x);
            assert(f(y).drop_last() =~= y);
        }
    }
    lemma_map_size(a, b, f);
    lemma_subsequences_push(s, c);
    lemma_set_intersect_union_lens(a, b);
    lemma_overlap(s, c);
    lemma_len_intersect(a, b);
    if p >= 0 {
        let a0 = subsequences(s.take(p));
        lemma_subsequences_finite(s.take(p));
        assert(injective_on(f, a0)) by {
            assert forall|x: Seq<usize>, y: Seq<usize>| a0.contains(x) && a0.contains(y) && #[trigger] f(x)
                == #[trigger] f(y) implies x == y by {
                assert(f(x).drop_last() =~= x);
                assert(f(y).drop_last() =~= y);
            }
        }
        lemma_map_size(a0, a0.map(f), f);
    }
}

/// `(a + a) - b = 2a - b` for `b <= a`, as images of naturals.
proof fn lemma_double_minus<R: Ring>(r: R, a: nat, b: nat)
    requires
        r.valid(r.szero()),
        r.valid(r.sone()),
        b <= a,
    ensures
        r.sadd(r.sadd(nat_elem(r, a), nat_elem(r, a)), r.sneg(nat_elem(r, b))) == nat_elem(
            r,
            (2 * a - b) as nat,
        ),
        r.sadd(nat_elem(r, a), nat_elem(r, a)) == nat_elem(r, 2 * a),
{
    lemma_nat_elem_add(r, a, a);
    lemma_nat_elem_add(r, (2 * a - b) as nat, b);
    assert((2 * a - b) as nat + b == a + a);
    let y = nat_elem(r, (2 * a - b) as nat);
    let x = nat_elem(r, b);
    lemma_nat_elem_valid(r, (2 * a - b) as nat);
    lemma_nat_elem_valid(r, b);
    r.lemma_add_neg(x);
    r.lemma_add_assoc(y, x, r.sneg(x));
    r.lemma_add_zero(y);
}

/// The image in `ring` of the number of distinct subsequences of `s`, the empty one included, for
/// items in `[0, sigma)`: appending an item doubles the count, less the count before its previous
/// occurrence, whose subsequences followed by the item were counted already.
pub fn num_subsequences<R: Ring>(ring: &R, s: &[usize], sigma: usize) -> (r: R::Value)
    requires
        forall|i: int| 0 <= i < s@.len() ==> #[trigger] s@[i] < sigma,
    ensures
        r == nat_elem(*ring, num_distinct_subsequences(s@)),
        ring.valid(r),
{
    let mut f = ring.one();
    proof {
        ring.lemma_closed(f, f);
    }
    let mut last: Vec<Option<R::Value>> = Vec::new();
    let mut c: usize = 0;
    while c < sigma
        invariant
            c <= sigma,
            last@.len() == c,
            forall|j: int| 0 <= j < c ==> #[trigger] last@[j] is None,
        decreases sigma - c,
    {
        last.push(None);
        c = c + 1;
    }
    proof {
        let e = Seq::<usize>::empty();
        assert(s@.take(0) =~= e);
        assert forall|t: Seq<usize>| #[trigger] subsequences(e).contains(t) <==> set![e].contains(t) by {
            if subsequences(e).contains(t) {
                assert(t =~= e);
            }
        }
        assert(subsequences(e) =~= set![e]);
        assert(set![e].len() == 1) by {
            assert(set![e] =~= Set::<Seq<usize>>::empty().insert(e));
        }
        ring.lemma_add_zero(ring.sone());
        assert(nat_elem(*ring, 1) == ring.sadd(nat_elem(*ring, 0), ring.sone()));
    }
    let mut k: usize = 0;
    while k < s.len()
        invariant
            k <= s@.len(),
            forall|i: int| 0 <= i < s@.len() ==> #[trigger] s@[i] < sigma,
            last@.len() == sigma,
            ring.valid(ring.szero()),
            ring.valid(ring.sone()),
            f == nat_elem(*ring, num_distinct_subsequences(s@.take(k as int))),
            forall|c: int|
                0 <= c < sigma ==> #[trigger] last@[c] == if last_index(s@.take(k as int), c as usize) >= 0 {
                    Some(
                        nat_elem(
                            *ring,
                            num_distinct_subsequences(s@.take(last_index(s@.take(k as int), c as usize))),
                        ),
                    )
                } else {
                    None
                },
        decreases s@.len() - k,
    {
        let c = s[k];
        let ghost t = s@.take(k as int);
        proof {
            assert(s@.take(k + 1) =~= t.push(c));
            assert(t.push(c).drop_last() =~= t);
            lemma_count_push(t, c);
            let p = last_index(t, c);
            if p >= 0 {
                assert(s@.take(p) =~= t.take(p));
                lemma_nat_elem_valid(*ring, num_distinct_subsequences(s@.take(p)));
                lemma_double_minus(*ring, num_distinct_subsequences(t), num_distinct_subsequences(t.take(p)));
            } else {
                lemma_double_minus(*ring, num_distinct_subsequences(t), 0);
            }
            lemma_nat_elem_valid(*ring, num_distinct_subsequences(t));
        }
        let g = ring.add(&f, &f);
        let g = match &last[c] {
            Some(x) => ring.add(&g, &ring.neg(x)),
            None => g,
        };
        let ghost old_last = last@;
        last.set(c, Some(f));
        f = g;
        k = k + 1;
        proof {
            assert forall|d: int| 0 <= d < sigma implies #[trigger] last@[d] == if last_index(
                s@.take(k as int),
                d as usize,
            ) >= 0 {
                Some(nat_elem(*ring, num_distinct_subsequences(s@.take(last_index(s@.take(k as int), d as usize)))))
            } else {
                None
            } by {
                if d != c {
                    assert(last@[d] == old_last[d]);
                } else {
                    assert(last_index(s@.take(k as int), c) == k - 1);
                }
            }
        }
    }
    proof {
        assert(s@.take(s@.len() as int) =~= s@);
        lemma_nat_elem_valid(*ring, num_distinct_subsequences(s@));
    }
    f
}

} // verus!
