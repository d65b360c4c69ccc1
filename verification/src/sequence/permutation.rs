//! The next and previous rearrangements of a sequence in lexicographic order.
use std::cmp::Ordering;
use vstd::std_specs::cmp::OrdSpec;
use vstd::prelude::*;

verus! {

broadcast use vstd::seq_lib::group_to_multiset_ensures;

/// Exchanges `a[i]` and `a[j]` by `<[T]>::swap` of std, which panics if either is out of bounds
/// and otherwise exchanges the two items.
#[verifier::external_body]
fn swap_items<T>(a: &mut [T], i: usize, j: usize)
    requires
        i < old(a)@.len(),
        j < old(a)@.len(),
    ensures
        final(a)@ == old(a)@.update(i as int, old(a)@[j as int]).update(j as int, old(a)@[i as int]),
{
    a.swap(i, j)
}

/// `T` is totally ordered by its `cmp`: `cmp(y, x)` is the opposite of `cmp(x, y)`, and `Less`
/// or `Equal` is transitive.
pub open spec fn total_order<T: Ord>() -> bool {
    &&& T::obeys_cmp_spec()
    &&& forall|x: T, y: T| #[trigger] x.cmp_spec(&y) == Ordering::Less <==> y.cmp_spec(&x) == Ordering::Greater
    &&& forall|x: T, y: T| #[trigger] x.cmp_spec(&y) == Ordering::Equal <==> y.cmp_spec(&x) == Ordering::Equal
    &&& forall|x: T, y: T, z: T|
        #![trigger x.cmp_spec(&y), y.cmp_spec(&z), x.cmp_spec(&z)]
        x.cmp_spec(&y) != Ordering::Greater && y.cmp_spec(&z) != Ordering::Greater ==> x.cmp_spec(&z)
            != Ordering::Greater
}

/// The strict order `x < y` of `T` by its `cmp`.
pub open spec fn natural_lt<T: Ord>() -> spec_fn(T, T) -> bool {
    |x: T, y: T| x.cmp_spec(&y) == Ordering::Less
}

/// The opposite of the strict order `lt`: `x` before `y` when `y < x`.
pub open spec fn flip<T>(lt: spec_fn(T, T) -> bool) -> spec_fn(T, T) -> bool {
    |x: T, y: T| lt(y, x)
}

/// `lt` is a strict weak order: irreflexive, asymmetric, and "not before" is transitive.
pub open spec fn strict_order<T>(lt: spec_fn(T, T) -> bool) -> bool {
    &&& forall|x: T| !#[trigger] lt(x, x)
    &&& forall|x: T, y: T| #[trigger] lt(x, y) ==> !lt(y, x)
    &&& forall|x: T, y: T, z: T|
        #![trigger lt(x, y), lt(y, z), lt(x, z)]
        !lt(x, y) && !lt(y, z) ==> !lt(x, z)
}

/// Items neither before the other are equal.
pub open spec fn antisym<T>(lt: spec_fn(T, T) -> bool) -> bool {
    forall|x: T, y: T| #![trigger lt(x, y), lt(y, x)] !lt(x, y) && !lt(y, x) ==> x == y
}

/// `cmp` is antisymmetric: items that compare `Equal` are equal.
pub open spec fn antisymmetric<T: Ord>() -> bool {
    forall|x: T, y: T| #[trigger] x.cmp_spec(&y) == Ordering::Equal ==> x == y
}

/// `x` comes before `y` in the order `lt`.
pub open spec fn before<T>(lt: spec_fn(T, T) -> bool, x: T, y: T) -> bool {
    lt(x, y)
}

/// `x` comes after `y` in the order `lt`.
pub open spec fn after<T>(lt: spec_fn(T, T) -> bool, x: T, y: T) -> bool {
    lt(y, x)
}

/// The order of a totally ordered `T`, and its opposite, are strict weak orders, antisymmetric
/// when `cmp` is.
pub proof fn lemma_natural_order<T: Ord>()
    requires
        total_order::<T>(),
    ensures
        strict_order(natural_lt::<T>()),
        strict_order(flip(natural_lt::<T>())),
        antisymmetric::<T>() ==> antisym(natural_lt::<T>()) && antisym(flip(natural_lt::<T>())),
{
    let lt = natural_lt::<T>();
    assert forall|x: T| !#[trigger] lt(x, x) by {
        let a = x.cmp_spec(&x);
    }
    assert forall|x: T, y: T| #[trigger] lt(x, y) implies !lt(y, x) by {
        let a = x.cmp_spec(&y);
        let b = y.cmp_spec(&x);
    }
    assert forall|x: T, y: T, z: T|
        #![trigger lt(x, y), lt(y, z), lt(x, z)]
        !lt(x, y) && !lt(y, z) implies !lt(x, z) by {
        let a = x.cmp_spec(&y);
        let b = y.cmp_spec(&x);
        let c = y.cmp_spec(&z);
        let d = z.cmp_spec(&y);
        let e = x.cmp_spec(&z);
        let f = z.cmp_spec(&x);
    }
    let r = flip(lt);
    assert forall|x: T, y: T, z: T|
        #![trigger r(x, y), r(y, z), r(x, z)]
        !r(x, y) && !r(y, z) implies !r(x, z) by {
        assert(!lt(z, y) && !lt(y, x) ==> !lt(z, x));
    }
    if antisymmetric::<T>() {
        assert forall|x: T, y: T|
            #![trigger lt(x, y), lt(y, x)]
            !lt(x, y) && !lt(y, x) implies x == y by {
            let a = x.cmp_spec(&y);
            let b = y.cmp_spec(&x);
        }
    }
}

/// `a[i] < a[i + 1]`: the position `i` is an ascent of `a`.
pub open spec fn is_ascent<T>(lt: spec_fn(T, T) -> bool, a: Seq<T>, i: int) -> bool {
    0 <= i && i + 1 < a.len() && before(lt, a[i], a[i + 1])
}

/// `i` is the last ascent of `a`.
pub open spec fn is_last_ascent<T>(lt: spec_fn(T, T) -> bool, a: Seq<T>, i: int) -> bool {
    is_ascent(lt, a, i) && forall|k: int| i < k < a.len() ==> !#[trigger] is_ascent(lt, a, k)
}

/// `j` is the last position of `a` whose item comes after `a[i]`.
pub open spec fn is_last_above<T>(lt: spec_fn(T, T) -> bool, a: Seq<T>, i: int, j: int) -> bool {
    &&& 0 <= j < a.len()
    &&& after(lt, a[j], a[i])
    &&& forall|k: int| j < k < a.len() ==> !after(lt, #[trigger] a[k], a[i])
}

/// `a` with `a[lo..hi)` reversed.
pub open spec fn reverse_range<T>(a: Seq<T>, lo: int, hi: int) -> Seq<T> {
    Seq::new(a.len(), |k: int| if lo <= k < hi { a[lo + hi - 1 - k] } else { a[k] })
}

/// The next rearrangement of `a` given its last ascent `i` and the last position `j` of an item
/// after `a[i]`: `a[i]` and `a[j]` exchanged, then `a[i + 1..]` reversed.
pub open spec fn successor<T>(a: Seq<T>, i: int, j: int) -> Seq<T> {
    reverse_range(a.update(i, a[j]).update(j, a[i]), i + 1, a.len() as int)
}

/// `b` is lexicographically after `a`: they agree before some position `p`, where `b` has the
/// later item.
pub open spec fn lex_after<T>(lt: spec_fn(T, T) -> bool, a: Seq<T>, b: Seq<T>) -> bool {
    exists|p: int|
        0 <= p < a.len() && p < b.len() && (forall|k: int| 0 <= k < p ==> #[trigger] a[k] == b[k]) && before(
            lt,
            #[trigger] a[p],
            b[p],
        )
}

/// Exchanging two items keeps the multiset of a sequence.
proof fn lemma_swap_multiset<T>(s: Seq<T>, a: int, b: int)
    requires
        0 <= a < s.len(),
        0 <= b < s.len(),
    ensures
        s.update(a, s[b]).update(b, s[a]).to_multiset() == s.to_multiset(),
{
    broadcast use vstd::multiset::group_multiset_axioms;

    let s1 = s.update(a, s[b]);
    assert(s1.to_multiset() == s.to_multiset().insert(s[b]).remove(s[a]));
    if a == b {
        assert(s.update(a, s[b]) =~= s);
        assert(s1.update(b, s[a]) =~= s);
    } else {
        assert(s1[b] == s[b]);
        assert(s1.update(b, s[a]).to_multiset() == s1.to_multiset().insert(s[a]).remove(s[b]));
        assert(s.to_multiset().count(s[a]) > 0);
        assert(s.to_multiset().count(s[b]) > 0);
        assert(s1.update(b, s[a]).to_multiset() =~= s.to_multiset());
    }
}

/// Reverses `a[lo..hi)` in place by exchanges.
fn reverse_in_place<T>(a: &mut [T], lo: usize, hi: usize)
    requires
        lo <= hi <= old(a)@.len(),
    ensures
        final(a)@ == reverse_range(old(a)@, lo as int, hi as int),
        final(a)@.to_multiset() == old(a)@.to_multiset(),
{
    let ghost s = a@;
    let mut l = lo;
    let mut h = hi;
    while h - l > 1
        invariant
            lo <= l <= h <= hi,
            hi <= s.len(),
            l - lo == hi - h,
            a@.len() == s.len(),
            forall|k: int| 0 <= k < s.len() && (k < l || k >= h) ==> #[trigger] a@[k] == reverse_range(s, lo as int, hi as int)[k],
            forall|k: int| l <= k < h ==> #[trigger] a@[k] == s[k],
            a@.to_multiset() == s.to_multiset(),
        decreases h - l,
    {
        proof {
            lemma_swap_multiset(a@, l as int, h - 1);
        }
        swap_items(a, l, h - 1);
        l = l + 1;
        h = h - 1;
    }
    assert(a@ =~= reverse_range(s, lo as int, hi as int));
}

/// `compare` can be called on any two items and returns `ord` of them.
pub open spec fn computes<T, F: Fn(&T, &T) -> Ordering>(compare: F, ord: spec_fn(T, T) -> Ordering) -> bool {
    &&& forall|x: T, y: T| #[trigger] compare.requires((&x, &y))
    &&& forall|x: T, y: T, o: Ordering| #[trigger] compare.ensures((&x, &y), o) ==> o == ord(x, y)
}

/// `ord` is a total preorder: `ord(y, x)` is the reverse of `ord(x, y)`, and "not `Greater`" is
/// transitive.
pub open spec fn is_total_preorder<T>(ord: spec_fn(T, T) -> Ordering) -> bool {
    &&& forall|x: T, y: T| #[trigger] ord(x, y) == Ordering::Less <==> ord(y, x) == Ordering::Greater
    &&& forall|x: T, y: T| #[trigger] ord(x, y) == Ordering::Equal <==> ord(y, x) == Ordering::Equal
    &&& forall|x: T, y: T, z: T|
        #![trigger ord(x, y), ord(y, z), ord(x, z)]
        ord(x, y) != Ordering::Greater && ord(y, z) != Ordering::Greater ==> ord(x, z) != Ordering::Greater
}

/// `compare` computes a total preorder.
pub open spec fn is_comparison<T, F: Fn(&T, &T) -> Ordering>(compare: F) -> bool {
    exists|ord: spec_fn(T, T) -> Ordering| computes(compare, ord) && is_total_preorder(ord)
}

/// The strict order of a three-way comparison: `x` before `y` when `ord(x, y)` is `Less`.
pub open spec fn less_of<T>(ord: spec_fn(T, T) -> Ordering) -> spec_fn(T, T) -> bool {
    |x: T, y: T| ord(x, y) == Ordering::Less
}

/// `f` can be called on any item and returns `key` of it.
pub open spec fn computes_key<T, K, F: Fn(&T) -> K>(f: F, key: spec_fn(T) -> K) -> bool {
    &&& forall|x: T| #[trigger] f.requires((&x,))
    &&& forall|x: T, k: K| #[trigger] f.ensures((&x,), k) ==> k == key(x)
}

/// `f` is a function of the item.
pub open spec fn is_key_function<T, K, F: Fn(&T) -> K>(f: F) -> bool {
    exists|key: spec_fn(T) -> K| computes_key(f, key)
}

/// The order `lt` of the keys, carried over to the items.
pub open spec fn by_key<T, K>(lt: spec_fn(K, K) -> bool, key: spec_fn(T) -> K) -> spec_fn(T, T) -> bool {
    |x: T, y: T| lt(key(x), key(y))
}

/// The strict order of a total preorder, and its opposite, are strict weak orders.
pub proof fn lemma_preorder_strict<T>(ord: spec_fn(T, T) -> Ordering)
    requires
        is_total_preorder(ord),
    ensures
        strict_order(less_of(ord)),
        strict_order(flip(less_of(ord))),
{
    let lt = less_of(ord);
    assert forall|x: T| !#[trigger] lt(x, x) by {
        let a = ord(x, x);
    }
    assert forall|x: T, y: T| #[trigger] lt(x, y) implies !lt(y, x) by {
        let a = ord(x, y);
        let b = ord(y, x);
    }
    assert forall|x: T, y: T, z: T|
        #![trigger lt(x, y), lt(y, z), lt(x, z)]
        !lt(x, y) && !lt(y, z) implies !lt(x, z) by {
        let a = ord(x, y);
        let b = ord(y, x);
        let c = ord(y, z);
        let d = ord(z, y);
        let e = ord(x, z);
        let f = ord(z, x);
    }
    let r = flip(lt);
    assert forall|x: T, y: T, z: T|
        #![trigger r(x, y), r(y, z), r(x, z)]
        !r(x, y) && !r(y, z) implies !r(x, z) by {
        assert(!lt(z, y) && !lt(y, x) ==> !lt(z, x));
    }
}

/// A strict weak order of the keys is one of the items, and so is its opposite.
pub proof fn lemma_by_key_strict<T, K>(lt: spec_fn(K, K) -> bool, key: spec_fn(T) -> K)
    requires
        strict_order(lt),
    ensures
        strict_order(by_key(lt, key)),
        strict_order(flip(by_key(lt, key))),
{
    let b = by_key(lt, key);
    assert forall|x: T, y: T, z: T|
        #![trigger b(x, y), b(y, z), b(x, z)]
        !b(x, y) && !b(y, z) implies !b(x, z) by {
        assert(!lt(key(x), key(y)) && !lt(key(y), key(z)) ==> !lt(key(x), key(z)));
    }
    assert forall|x: T, y: T| #[trigger] b(x, y) implies !b(y, x) by {
        assert(lt(key(x), key(y)) ==> !lt(key(y), key(x)));
    }
    assert forall|x: T| !#[trigger] b(x, x) by {
        assert(!lt(key(x), key(x)));
    }
    let r = flip(b);
    assert forall|x: T, y: T, z: T|
        #![trigger r(x, y), r(y, z), r(x, z)]
        !r(x, y) && !r(y, z) implies !r(x, z) by {
        assert(!b(z, y) && !b(y, x) ==> !b(z, x));
    }
}

/// The order of the items by their keys, and its opposite, are strict weak orders, so the laws of
/// the next rearrangement apply to `next_permutation_by_key` and `prev_permutation_by_key`.
pub proof fn lemma_key_order<T, K: Ord>(key: spec_fn(T) -> K)
    requires
        total_order::<K>(),
    ensures
        strict_order(by_key(natural_lt::<K>(), key)),
        strict_order(flip(by_key(natural_lt::<K>(), key))),
{
    lemma_natural_order::<K>();
    lemma_by_key_strict(natural_lt::<K>(), key);
}

/// `b` is what the next rearrangement makes of `a` in the lexicographic order of `lt`, and `r`
/// whether `a` has an ascent: the item at the last ascent `i` is exchanged with the last item
/// after it above it, and the items after `i` are reversed; without an ascent, `a` is reversed.
pub open spec fn next_rearrangement<T>(lt: spec_fn(T, T) -> bool, a: Seq<T>, b: Seq<T>, r: bool) -> bool {
    &&& r == exists|i: int| is_ascent(lt, a, i)
    &&& !r ==> b == a.reverse()
    &&& r ==> exists|i: int, j: int|
        is_last_ascent(lt, a, i) && is_last_above(lt, a, i, j) && i < j && b == successor(a, i, j)
    &&& r ==> lex_after(lt, a, b)
}

/// `c` is a rearrangement of `a`: the same items, each as often.
pub open spec fn is_rearrangement<T>(a: Seq<T>, c: Seq<T>) -> bool {
    c.len() == a.len() && c.to_multiset() == a.to_multiset()
}

/// `b` is the least rearrangement of `a` that comes after `a` in the lexicographic order of `lt`.
pub open spec fn is_least_after<T>(lt: spec_fn(T, T) -> bool, a: Seq<T>, b: Seq<T>) -> bool {
    &&& is_rearrangement(a, b)
    &&& lex_after(lt, a, b)
    &&& forall|c: Seq<T>| is_rearrangement(a, c) && #[trigger] lex_after(lt, a, c) ==> !lex_after(lt, c, b)
}

/// No rearrangement of `a` comes after `a`, and `b` is a rearrangement of `a` after which none
/// comes before: `a` is the last rearrangement and `b` the first.
pub open spec fn wraps_around<T>(lt: spec_fn(T, T) -> bool, a: Seq<T>, b: Seq<T>) -> bool {
    &&& is_rearrangement(a, b)
    &&& forall|c: Seq<T>| is_rearrangement(a, c) ==> !#[trigger] lex_after(lt, a, c)
    &&& forall|c: Seq<T>| is_rearrangement(a, c) ==> !#[trigger] lex_after(lt, c, b)
}

/// The step of `next_rearrangement` is the least rearrangement after `a`, or the wrap-around to the
/// first when there is none: for an antisymmetric strict weak order.
pub proof fn lemma_next_rearrangement_least<T>(lt: spec_fn(T, T) -> bool, a: Seq<T>, b: Seq<T>, r: bool)
    requires
        strict_order(lt),
        next_rearrangement(lt, a, b, r),
        b.to_multiset() == a.to_multiset(),
    ensures
        !r ==> wraps_around(lt, a, b),
        r && antisym(lt) ==> is_least_after(lt, a, b),
{
    if !r {
        assert(b.len() == a.len());
        assert forall|c: Seq<T>| is_rearrangement(a, c) implies !#[trigger] lex_after(lt, a, c) by {
            lemma_reverse_is_first(lt, a, c);
        }
        assert forall|c: Seq<T>| is_rearrangement(a, c) implies !#[trigger] lex_after(lt, c, b) by {
            lemma_reverse_is_first(lt, a, c);
        }
    } else if antisym(lt) {
        let (i, j) = choose|i: int, j: int|
            is_last_ascent(lt, a, i) && is_last_above(lt, a, i, j) && i < j && b == successor(a, i, j);
        assert(b.len() == a.len());
        assert forall|c: Seq<T>| is_rearrangement(a, c) && #[trigger] lex_after(lt, a, c) implies !lex_after(lt, c, b) by {
            lemma_successor_is_next(lt, a, i, j, c);
        }
    }
}

/// `is_lt` can be called on any two items and computes every strict order that `good` admits.
spec fn computes_all<T, L: Fn(&T, &T) -> bool>(is_lt: L, good: spec_fn(spec_fn(T, T) -> bool) -> bool) -> bool {
    &&& forall|x: T, y: T| #[trigger] is_lt.requires((&x, &y))
    &&& forall|lt: spec_fn(T, T) -> bool, x: T, y: T, b: bool|
        #![trigger good(lt), is_lt.ensures((&x, &y), b)]
        good(lt) && is_lt.ensures((&x, &y), b) ==> b == lt(x, y)
}

/// Rewrites `a` as its next rearrangement in the lexicographic order of each strict order `lt`
/// that `good` admits, all of which `is_lt` computes.
fn step_permutation<T, L: Fn(&T, &T) -> bool>(
    a: &mut [T],
    is_lt: L,
    Ghost(good): Ghost<spec_fn(spec_fn(T, T) -> bool) -> bool>,
    Ghost(some): Ghost<spec_fn(T, T) -> bool>,
) -> (r: bool)
    requires
        computes_all(is_lt, good),
        good(some),
    ensures
        forall|lt: spec_fn(T, T) -> bool| good(lt) ==> #[trigger] next_rearrangement(lt, old(a)@, final(a)@, r),
        final(a)@.to_multiset() == old(a)@.to_multiset(),
{
    let ghost s = a@;
    let n = a.len();
    let mut k = n;
    while k > 1
        invariant
            k <= n,
            n == s.len(),
            a@ == s,
            computes_all(is_lt, good),
            forall|lt: spec_fn(T, T) -> bool, m: int|
                good(lt) && k - 1 <= m < n ==> !#[trigger] is_ascent(lt, s, m),
        ensures
            k <= 1 || forall|lt: spec_fn(T, T) -> bool| good(lt) ==> #[trigger] is_ascent(lt, s, k - 2),
        decreases k,
    {
        let ascent = is_lt(&a[k - 2], &a[k - 1]);
        if ascent {
            break;
        }
        k = k - 1;
    }
    if k <= 1 {
        reverse_in_place(a, 0, n);
        proof {
            assert(reverse_range(s, 0, n as int) =~= s.reverse());
            assert forall|lt: spec_fn(T, T) -> bool| good(lt) implies #[trigger] next_rearrangement(
                lt,
                s,
                a@,
                false,
            ) by {
                assert forall|m: int| !#[trigger] is_ascent(lt, s, m) by {}
            }
        }
        return false;
    }
    let i = k - 2;
    let mut j = n - 1;
    loop
        invariant
            i < j < n,
            n == s.len(),
            a@ == s,
            computes_all(is_lt, good),
            good(some),
            forall|lt: spec_fn(T, T) -> bool| good(lt) ==> #[trigger] is_ascent(lt, s, i as int),
            forall|lt: spec_fn(T, T) -> bool, m: int|
                good(lt) && j < m < n ==> !#[trigger] after(lt, s[m], s[i as int]),
        ensures
            i < j < n,
            forall|lt: spec_fn(T, T) -> bool| good(lt) ==> #[trigger] after(lt, s[j as int], s[i as int]),
            forall|lt: spec_fn(T, T) -> bool, m: int|
                good(lt) && j < m < n ==> !#[trigger] after(lt, s[m], s[i as int]),
        decreases j,
    {
        let above = is_lt(&a[i], &a[j]);
        if above {
            break;
        }
        proof {
            if j == i + 1 {
                assert(is_ascent(some, s, i as int));
                assert(before(some, s[i as int], s[i + 1]));
                assert(after(some, s[i + 1], s[i as int]));
            }
        }
        j = j - 1;
    }
    proof {
        lemma_swap_multiset(s, i as int, j as int);
    }
    swap_items(a, i, j);
    let ghost swapped = a@;
    reverse_in_place(a, i + 1, n);
    proof {
        assert(swapped == s.update(i as int, s[j as int]).update(j as int, s[i as int]));
        assert(a@ == successor(s, i as int, j as int));
        assert(a@[i as int] == s[j as int]);
        assert(forall|k: int| 0 <= k < i ==> #[trigger] s[k] == a@[k]);
        assert forall|lt: spec_fn(T, T) -> bool| good(lt) implies #[trigger] next_rearrangement(lt, s, a@, true) by {
            assert(is_ascent(lt, s, i as int));
            assert forall|m: int| i < m < n - 1 implies !#[trigger] is_ascent(lt, s, m) by {
                assert(!is_ascent(lt, s, m));
            }
            assert(is_last_ascent(lt, s, i as int));
            assert forall|m: int| j < m < n implies !after(lt, #[trigger] s[m], s[i as int]) by {
                assert(!after(lt, s[m], s[i as int]));
            }
            assert(after(lt, s[j as int], s[i as int]));
            assert(is_last_above(lt, s, i as int, j as int));
            assert(before(lt, s[i as int], a@[i as int]));
        }
    }
    true
}

/// Rewrites `a` as the next rearrangement in lexicographic order and returns `true`; if `a` is the
/// last one (no `a[i] < a[i + 1]`), it becomes the first one, `a` reversed, and `false` is
/// returned. The next one exchanges `a[i]`, at the last ascent `i`, with the last item after it,
/// and reverses `a[i + 1..]`.
pub fn next_permutation<T: Ord>(a: &mut [T]) -> (r: bool)
    requires
        total_order::<T>(),
    ensures
        next_rearrangement(natural_lt::<T>(), old(a)@, final(a)@, r),
        final(a)@.to_multiset() == old(a)@.to_multiset(),
        r && antisymmetric::<T>() ==> is_least_after(natural_lt::<T>(), old(a)@, final(a)@),
        !r ==> wraps_around(natural_lt::<T>(), old(a)@, final(a)@),
{
    let is_lt = |x: &T, y: &T| -> (b: bool)
        requires
            T::obeys_cmp_spec(),
        ensures
            b == (x.cmp_spec(y) == Ordering::Less),
        {
            match x.cmp(y) {
                Ordering::Less => true,
                _ => false,
            }
        };
    let ghost good = |lt: spec_fn(T, T) -> bool| lt == natural_lt::<T>();
    proof {
        assert(good(natural_lt::<T>()));
    }
    let r = step_permutation(a, is_lt, Ghost(good), Ghost(natural_lt::<T>()));
    proof {
        assert(good(natural_lt::<T>()));
        lemma_natural_order::<T>();
        lemma_next_rearrangement_least(natural_lt::<T>(), old(a)@, a@, r);
    }
    r
}

/// Rewrites `a` as the previous rearrangement in lexicographic order and returns `true`; if `a`
/// is the first one (no `a[i] > a[i + 1]`), it becomes the last one, `a` reversed, and `false` is
/// returned. This is the next rearrangement for the opposite order.
pub fn prev_permutation<T: Ord>(a: &mut [T]) -> (r: bool)
    requires
        total_order::<T>(),
    ensures
        next_rearrangement(flip(natural_lt::<T>()), old(a)@, final(a)@, r),
        final(a)@.to_multiset() == old(a)@.to_multiset(),
        r && antisymmetric::<T>() ==> is_least_after(flip(natural_lt::<T>()), old(a)@, final(a)@),
        !r ==> wraps_around(flip(natural_lt::<T>()), old(a)@, final(a)@),
{
    let is_gt = |x: &T, y: &T| -> (b: bool)
        requires
            T::obeys_cmp_spec(),
        ensures
            b == (y.cmp_spec(x) == Ordering::Less),
        {
            match y.cmp(x) {
                Ordering::Less => true,
                _ => false,
            }
        };
    let ghost good = |lt: spec_fn(T, T) -> bool| lt == flip(natural_lt::<T>());
    proof {
        assert(good(flip(natural_lt::<T>())));
    }
    let r = step_permutation(a, is_gt, Ghost(good), Ghost(flip(natural_lt::<T>())));
    proof {
        assert(good(flip(natural_lt::<T>())));
        lemma_natural_order::<T>();
        lemma_next_rearrangement_least(flip(natural_lt::<T>()), old(a)@, a@, r);
    }
    r
}

/// Rewrites `a` as the next rearrangement in the lexicographic order that `compare` induces, a
/// total preorder; items that compare `Equal` may be reordered among themselves. Returns `true`,
/// or, if `a` is the last one, reverses `a` and returns `false`. This holds of every three-way
/// order `ord` that `compare` computes, through the strict order `ord(x, y) == Less`.
pub fn next_permutation_by<T, F: Fn(&T, &T) -> Ordering>(a: &mut [T], compare: F) -> (r: bool)
    requires
        is_comparison(compare),
    ensures
        forall|ord: spec_fn(T, T) -> Ordering|
            computes(compare, ord) ==> #[trigger] next_rearrangement(less_of(ord), old(a)@, final(a)@, r),
        final(a)@.to_multiset() == old(a)@.to_multiset(),
        forall|ord: spec_fn(T, T) -> Ordering|
            #![trigger computes(compare, ord)]
            computes(compare, ord) && is_total_preorder(ord) ==> (!r ==> wraps_around(
                less_of(ord),
                old(a)@,
                final(a)@,
            )) && (r && antisym(less_of(ord)) ==> is_least_after(less_of(ord), old(a)@, final(a)@)),
{
    let c = &compare;
    let is_lt = move |x: &T, y: &T| -> (b: bool)
        requires
            c.requires((x, y)),
        ensures
            exists|o: Ordering| #[trigger] c.ensures((x, y), o) && b == (o == Ordering::Less),
        {
            match c(x, y) {
                Ordering::Less => true,
                _ => false,
            }
        };
    let ghost good = |lt: spec_fn(T, T) -> bool|
        exists|ord: spec_fn(T, T) -> Ordering| computes(compare, ord) && lt == less_of(ord);
    proof {
        assert forall|lt: spec_fn(T, T) -> bool, x: T, y: T, b: bool|
            #![trigger good(lt), is_lt.ensures((&x, &y), b)]
            good(lt) && is_lt.ensures((&x, &y), b) implies b == lt(x, y) by {
            let ord = choose|ord: spec_fn(T, T) -> Ordering| computes(compare, ord) && lt == less_of(ord);
            let o = choose|o: Ordering| #[trigger] c.ensures((&x, &y), o) && b == (o == Ordering::Less);
            assert(compare.ensures((&x, &y), o));
        }
    }
    let ghost ord0 = choose|ord: spec_fn(T, T) -> Ordering| computes(compare, ord) && is_total_preorder(ord);
    proof {
        assert(good(less_of(ord0)));
    }
    let r = step_permutation(a, is_lt, Ghost(good), Ghost(less_of(ord0)));
    proof {
        assert forall|ord: spec_fn(T, T) -> Ordering| computes(compare, ord) implies #[trigger] next_rearrangement(
            less_of(ord),
            old(a)@,
            a@,
            r,
        ) by {
            assert(good(less_of(ord)));
        }
        assert forall|ord: spec_fn(T, T) -> Ordering|
            #![trigger computes(compare, ord)]
            computes(compare, ord) && is_total_preorder(ord) implies (!r ==> wraps_around(
                less_of(ord),
                old(a)@,
                a@,
            )) && (r && antisym(less_of(ord)) ==> is_least_after(less_of(ord), old(a)@, a@)) by {
            assert(good(less_of(ord)));
            assert(next_rearrangement(less_of(ord), old(a)@, a@, r));
            lemma_preorder_strict(ord);
            lemma_next_rearrangement_least(less_of(ord), old(a)@, a@, r);
        }
    }
    r
}

/// Rewrites `a` as the previous rearrangement in the lexicographic order that `compare` induces:
/// the next one for the opposite order, for every three-way order that `compare` computes.
pub fn prev_permutation_by<T, F: Fn(&T, &T) -> Ordering>(a: &mut [T], compare: F) -> (r: bool)
    requires
        is_comparison(compare),
    ensures
        forall|ord: spec_fn(T, T) -> Ordering|
            computes(compare, ord) ==> #[trigger] next_rearrangement(flip(less_of(ord)), old(a)@, final(a)@, r),
        final(a)@.to_multiset() == old(a)@.to_multiset(),
        forall|ord: spec_fn(T, T) -> Ordering|
            #![trigger computes(compare, ord)]
            computes(compare, ord) && is_total_preorder(ord) ==> (!r ==> wraps_around(
                flip(less_of(ord)),
                old(a)@,
                final(a)@,
            )) && (r && antisym(flip(less_of(ord))) ==> is_least_after(flip(less_of(ord)), old(a)@, final(a)@)),
{
    let c = &compare;
    let is_gt = move |x: &T, y: &T| -> (b: bool)
        requires
            c.requires((y, x)),
        ensures
            exists|o: Ordering| #[trigger] c.ensures((y, x), o) && b == (o == Ordering::Less),
        {
            match c(y, x) {
                Ordering::Less => true,
                _ => false,
            }
        };
    let ghost good = |lt: spec_fn(T, T) -> bool|
        exists|ord: spec_fn(T, T) -> Ordering| computes(compare, ord) && lt == flip(less_of(ord));
    proof {
        assert forall|lt: spec_fn(T, T) -> bool, x: T, y: T, b: bool|
            #![trigger good(lt), is_gt.ensures((&x, &y), b)]
            good(lt) && is_gt.ensures((&x, &y), b) implies b == lt(x, y) by {
            let ord = choose|ord: spec_fn(T, T) -> Ordering| computes(compare, ord) && lt == flip(less_of(ord));
            let o = choose|o: Ordering| #[trigger] c.ensures((&y, &x), o) && b == (o == Ordering::Less);
            assert(compare.ensures((&y, &x), o));
        }
    }
    let ghost ord0 = choose|ord: spec_fn(T, T) -> Ordering| computes(compare, ord) && is_total_preorder(ord);
    proof {
        assert(good(flip(less_of(ord0))));
    }
    let r = step_permutation(a, is_gt, Ghost(good), Ghost(flip(less_of(ord0))));
    proof {
        assert forall|ord: spec_fn(T, T) -> Ordering| computes(compare, ord) implies #[trigger] next_rearrangement(
            flip(less_of(ord)),
            old(a)@,
            a@,
            r,
        ) by {
            assert(good(flip(less_of(ord))));
        }
        assert forall|ord: spec_fn(T, T) -> Ordering|
            #![trigger computes(compare, ord)]
            computes(compare, ord) && is_total_preorder(ord) implies (!r ==> wraps_around(
                flip(less_of(ord)),
                old(a)@,
                a@,
            )) && (r && antisym(flip(less_of(ord))) ==> is_least_after(flip(less_of(ord)), old(a)@, a@)) by {
            assert(good(flip(less_of(ord))));
            assert(next_rearrangement(flip(less_of(ord)), old(a)@, a@, r));
            lemma_preorder_strict(ord);
            lemma_next_rearrangement_least(flip(less_of(ord)), old(a)@, a@, r);
        }
    }
    r
}

/// Rewrites `a` as the next rearrangement in the lexicographic order of the keys that `f`
/// computes; items with equal keys may be reordered among themselves. This holds of every function
/// `key` of the items that `f` computes.
pub fn next_permutation_by_key<T, K: Ord, F: Fn(&T) -> K>(a: &mut [T], f: F) -> (r: bool)
    requires
        total_order::<K>(),
        is_key_function(f),
    ensures
        forall|key: spec_fn(T) -> K|
            computes_key(f, key) ==> #[trigger] next_rearrangement(
                by_key(natural_lt::<K>(), key),
                old(a)@,
                final(a)@,
                r,
            ),
        final(a)@.to_multiset() == old(a)@.to_multiset(),
        forall|key: spec_fn(T) -> K|
            #![trigger computes_key(f, key)]
            computes_key(f, key) ==> (!r ==> wraps_around(by_key(natural_lt::<K>(), key), old(a)@, final(a)@)) && (r
                && antisym(by_key(natural_lt::<K>(), key)) ==> is_least_after(by_key(natural_lt::<K>(), key), old(a)@, final(a)@)),
{
    let g = &f;
    let is_lt = move |x: &T, y: &T| -> (b: bool)
        requires
            g.requires((x,)),
            g.requires((y,)),
            K::obeys_cmp_spec(),
        ensures
            exists|kx: K, ky: K|
                #[trigger] g.ensures((x,), kx) && #[trigger] g.ensures((y,), ky) && b == (kx.cmp_spec(&ky)
                    == Ordering::Less),
        {
            let kx = g(x);
            let ky = g(y);
            match kx.cmp(&ky) {
                Ordering::Less => true,
                _ => false,
            }
        };
    let ghost good = |lt: spec_fn(T, T) -> bool|
        exists|key: spec_fn(T) -> K| computes_key(f, key) && lt == by_key(natural_lt::<K>(), key);
    proof {
        assert forall|lt: spec_fn(T, T) -> bool, x: T, y: T, b: bool|
            #![trigger good(lt), is_lt.ensures((&x, &y), b)]
            good(lt) && is_lt.ensures((&x, &y), b) implies b == lt(x, y) by {
            let key = choose|key: spec_fn(T) -> K| computes_key(f, key) && lt == by_key(natural_lt::<K>(), key);
            let (kx, ky) = choose|kx: K, ky: K|
                #[trigger] g.ensures((&x,), kx) && #[trigger] g.ensures((&y,), ky) && b == (kx.cmp_spec(&ky)
                    == Ordering::Less);
            assert(f.ensures((&x,), kx));
            assert(f.ensures((&y,), ky));
        }
    }
    let ghost key0 = choose|key: spec_fn(T) -> K| computes_key(f, key);
    proof {
        assert(good(by_key(natural_lt::<K>(), key0)));
    }
    let r = step_permutation(a, is_lt, Ghost(good), Ghost(by_key(natural_lt::<K>(), key0)));
    proof {
        assert forall|key: spec_fn(T) -> K| computes_key(f, key) implies #[trigger] next_rearrangement(
            by_key(natural_lt::<K>(), key),
            old(a)@,
            a@,
            r,
        ) by {
            assert(good(by_key(natural_lt::<K>(), key)));
        }
        assert forall|key: spec_fn(T) -> K|
            #![trigger computes_key(f, key)]
            computes_key(f, key) implies (!r ==> wraps_around(
            by_key(natural_lt::<K>(), key),
            old(a)@,
            a@,
        )) && (r && antisym(by_key(natural_lt::<K>(), key)) ==> is_least_after(by_key(natural_lt::<K>(), key), old(a)@, a@)) by {
            assert(good(by_key(natural_lt::<K>(), key)));
            assert(next_rearrangement(by_key(natural_lt::<K>(), key), old(a)@, a@, r));
            lemma_key_order::<T, K>(key);
            lemma_next_rearrangement_least(by_key(natural_lt::<K>(), key), old(a)@, a@, r);
        }
    }
    r
}

/// Rewrites `a` as the previous rearrangement in the lexicographic order of the keys that `f`
/// computes: the next one for the opposite order, for every function `key` that `f` computes.
pub fn prev_permutation_by_key<T, K: Ord, F: Fn(&T) -> K>(a: &mut [T], f: F) -> (r: bool)
    requires
        total_order::<K>(),
        is_key_function(f),
    ensures
        forall|key: spec_fn(T) -> K|
            computes_key(f, key) ==> #[trigger] next_rearrangement(
                flip(by_key(natural_lt::<K>(), key)),
                old(a)@,
                final(a)@,
                r,
            ),
        final(a)@.to_multiset() == old(a)@.to_multiset(),
        forall|key: spec_fn(T) -> K|
            #![trigger computes_key(f, key)]
            computes_key(f, key) ==> (!r ==> wraps_around(flip(by_key(natural_lt::<K>(), key)), old(a)@, final(a)@)) && (r
                && antisym(flip(by_key(natural_lt::<K>(), key))) ==> is_least_after(flip(by_key(natural_lt::<K>(), key)), old(a)@, final(a)@)),
{
    let g = &f;
    let is_gt = move |x: &T, y: &T| -> (b: bool)
        requires
            g.requires((x,)),
            g.requires((y,)),
            K::obeys_cmp_spec(),
        ensures
            exists|kx: K, ky: K|
                #[trigger] g.ensures((x,), kx) && #[trigger] g.ensures((y,), ky) && b == (ky.cmp_spec(&kx)
                    == Ordering::Less),
        {
            let kx = g(x);
            let ky = g(y);
            match ky.cmp(&kx) {
                Ordering::Less => true,
                _ => false,
            }
        };
    let ghost good = |lt: spec_fn(T, T) -> bool|
        exists|key: spec_fn(T) -> K| computes_key(f, key) && lt == flip(by_key(natural_lt::<K>(), key));
    proof {
        assert forall|lt: spec_fn(T, T) -> bool, x: T, y: T, b: bool|
            #![trigger good(lt), is_gt.ensures((&x, &y), b)]
            good(lt) && is_gt.ensures((&x, &y), b) implies b == lt(x, y) by {
            let key = choose|key: spec_fn(T) -> K|
                computes_key(f, key) && lt == flip(by_key(natural_lt::<K>(), key));
            let (kx, ky) = choose|kx: K, ky: K|
                #[trigger] g.ensures((&x,), kx) && #[trigger] g.ensures((&y,), ky) && b == (ky.cmp_spec(&kx)
                    == Ordering::Less);
            assert(f.ensures((&x,), kx));
            assert(f.ensures((&y,), ky));
        }
    }
    let ghost key0 = choose|key: spec_fn(T) -> K| computes_key(f, key);
    proof {
        assert(good(flip(by_key(natural_lt::<K>(), key0))));
    }
    let r = step_permutation(a, is_gt, Ghost(good), Ghost(flip(by_key(natural_lt::<K>(), key0))));
    proof {
        assert forall|key: spec_fn(T) -> K| computes_key(f, key) implies #[trigger] next_rearrangement(
            flip(by_key(natural_lt::<K>(), key)),
            old(a)@,
            a@,
            r,
        ) by {
            assert(good(flip(by_key(natural_lt::<K>(), key))));
        }
        assert forall|key: spec_fn(T) -> K|
            #![trigger computes_key(f, key)]
            computes_key(f, key) implies (!r ==> wraps_around(
            flip(by_key(natural_lt::<K>(), key)),
            old(a)@,
            a@,
        )) && (r && antisym(flip(by_key(natural_lt::<K>(), key))) ==> is_least_after(flip(by_key(natural_lt::<K>(), key)), old(a)@, a@)) by {
            assert(good(flip(by_key(natural_lt::<K>(), key))));
            assert(next_rearrangement(flip(by_key(natural_lt::<K>(), key)), old(a)@, a@, r));
            lemma_key_order::<T, K>(key);
            lemma_next_rearrangement_least(flip(by_key(natural_lt::<K>(), key)), old(a)@, a@, r);
        }
    }
    r
}

/// `before` is irreflexive and asymmetric, `after` is its converse, and two items neither before
/// the other are equal for an antisymmetric order.
proof fn lemma_before_basics<T>(lt: spec_fn(T, T) -> bool, x: T, y: T)
    requires
        strict_order(lt),
    ensures
        !before(lt, x, x),
        before(lt, x, y) ==> !before(lt, y, x),
        after(lt, x, y) <==> before(lt, y, x),
        antisym(lt) && !before(lt, x, y) && !before(lt, y, x) ==> x == y,
{
    assert(lt(x, x) || !lt(x, x));
    assert(lt(x, y) || !lt(x, y));
    assert(lt(y, x) || !lt(y, x));
}

/// "Not before" is transitive.
proof fn lemma_not_before_trans<T>(lt: spec_fn(T, T) -> bool, x: T, y: T, z: T)
    requires
        strict_order(lt),
        !before(lt, x, y),
        !before(lt, y, z),
    ensures
        !before(lt, x, z),
{
    assert(lt(x, z) || !lt(x, z));
}

/// Without ascents in `[p, m)`, `s[p]` is not before `s[m]`.
proof fn lemma_no_ascent_descending<T>(lt: spec_fn(T, T) -> bool, s: Seq<T>, p: int, m: int)
    requires
        strict_order(lt),
        0 <= p <= m < s.len(),
        forall|k: int| p <= k < m ==> !#[trigger] is_ascent(lt, s, k),
    ensures
        !before(lt, s[p], s[m]),
    decreases m - p,
{
    if m == p {
        lemma_before_basics(lt, s[p], s[p]);
    } else {
        lemma_no_ascent_descending(lt, s, p, m - 1);
        assert(!is_ascent(lt, s, m - 1));
        lemma_not_before_trans(lt, s[p], s[m - 1], s[m]);
    }
}

/// Rearrangements that agree before `p` agree as multisets from `p`, and an item of one from `p`
/// is an item of the other from `p`.
proof fn lemma_suffix_item<T>(s: Seq<T>, c: Seq<T>, p: int, q: int)
    requires
        s.len() == c.len(),
        s.to_multiset() == c.to_multiset(),
        0 <= p <= q < s.len(),
        forall|k: int| 0 <= k < p ==> #[trigger] s[k] == c[k],
    ensures
        exists|m: int| p <= m < s.len() && s[m] == c[q],
{
    broadcast use vstd::multiset::group_multiset_axioms;

    let n = s.len() as int;
    let s0 = s.subrange(0, p);
    let s1 = s.subrange(p, n);
    let c1 = c.subrange(p, n);
    assert(s0 =~= c.subrange(0, p));
    assert(s =~= s0 + s1);
    assert(c =~= s0 + c1);
    vstd::seq_lib::lemma_multiset_commutative(s0, s1);
    vstd::seq_lib::lemma_multiset_commutative(s0, c1);
    assert(s1.to_multiset() =~= c1.to_multiset()) by {
        assert forall|x: T| s1.to_multiset().count(x) == c1.to_multiset().count(x) by {
            assert(s.to_multiset().count(x) == s0.to_multiset().count(x) + s1.to_multiset().count(x));
            assert(c.to_multiset().count(x) == s0.to_multiset().count(x) + c1.to_multiset().count(x));
        }
    }
    assert(c1[q - p] == c[q]);
    vstd::seq_lib::to_multiset_contains(c1, c[q]);
    vstd::seq_lib::to_multiset_contains(s1, c[q]);
    let m = choose|m: int| 0 <= m < s1.len() && s1[m] == c[q];
    assert(s[p + m] == c[q]);
}

/// A sequence sorted in the order from `from` on, against a rearrangement agreeing with it before
/// `from`: the rearrangement is not before it.
proof fn lemma_sorted_first<T>(lt: spec_fn(T, T) -> bool, b: Seq<T>, c: Seq<T>, from: int)
    requires
        strict_order(lt),
        b.len() == c.len(),
        b.to_multiset() == c.to_multiset(),
        0 <= from <= b.len(),
        forall|k: int| 0 <= k < from ==> #[trigger] b[k] == c[k],
        forall|a: int, m: int| from <= a <= m < b.len() ==> !before(lt, #[trigger] b[m], #[trigger] b[a]),
    ensures
        !lex_after(lt, c, b),
{
    if lex_after(lt, c, b) {
        let q = choose|q: int|
            0 <= q < c.len() && q < b.len() && (forall|k: int| 0 <= k < q ==> #[trigger] c[k] == b[k]) && before(
                lt,
                #[trigger] c[q],
                b[q],
            );
        if q < from {
            lemma_before_basics(lt, c[q], b[q]);
        } else {
            lemma_suffix_item(b, c, q, q);
            let m = choose|m: int| q <= m < b.len() && b[m] == c[q];
            assert(!before(lt, b[m], b[q]));
        }
    }
}

/// A sequence agreeing with `b` before `p` and after it at `p` is not before `b`.
proof fn lemma_lex_not_before<T>(lt: spec_fn(T, T) -> bool, c: Seq<T>, b: Seq<T>, p: int)
    requires
        strict_order(lt),
        0 <= p < c.len(),
        p < b.len(),
        forall|k: int| 0 <= k < p ==> #[trigger] c[k] == b[k],
        before(lt, b[p], c[p]),
    ensures
        !lex_after(lt, c, b),
{
    if lex_after(lt, c, b) {
        let q = choose|q: int|
            0 <= q < c.len() && q < b.len() && (forall|k: int| 0 <= k < q ==> #[trigger] c[k] == b[k]) && before(
                lt,
                #[trigger] c[q],
                b[q],
            );
        lemma_before_basics(lt, c[q], b[q]);
        lemma_before_basics(lt, b[p], c[p]);
        if q > p {
            assert(c[p] == b[p]);
        }
    }
}

/// Reversing a range keeps the multiset.
proof fn lemma_reverse_range_multiset<T>(t: Seq<T>, lo: int, hi: int)
    requires
        0 <= lo <= hi <= t.len(),
    ensures
        reverse_range(t, lo, hi).to_multiset() == t.to_multiset(),
        reverse_range(t, lo, hi).len() == t.len(),
    decreases hi - lo,
{
    if hi - lo > 1 {
        let t2 = t.update(lo, t[hi - 1]).update(hi - 1, t[lo]);
        lemma_swap_multiset(t, lo, hi - 1);
        lemma_reverse_range_multiset(t2, lo + 1, hi - 1);
        assert(reverse_range(t2, lo + 1, hi - 1) =~= reverse_range(t, lo, hi));
    } else {
        assert(reverse_range(t, lo, hi) =~= t);
    }
}

/// After the exchange, the items after the last ascent are still in decreasing order, so the
/// successor is sorted from `i + 1` on.
proof fn lemma_successor_tail_sorted<T>(lt: spec_fn(T, T) -> bool, s: Seq<T>, i: int, j: int)
    requires
        strict_order(lt),
        is_last_ascent(lt, s, i),
        is_last_above(lt, s, i, j),
        i < j,
    ensures
        forall|a: int, m: int|
            i + 1 <= a <= m < s.len() ==> !before(lt, #[trigger] successor(s, i, j)[m], #[trigger] successor(s, i, j)[a]),
{
    let n = s.len() as int;
    let t = s.update(i, s[j]).update(j, s[i]);
    let b = successor(s, i, j);
    assert forall|x: int, y: int| i + 1 <= x <= y < n implies !before(lt, t[x], t[y]) by {
        assert forall|k: int| x <= k < y implies !#[trigger] is_ascent(lt, s, k) by {
            assert(k > i);
        }
        lemma_before_basics(lt, s[i], s[j]);
        if x != j && y != j {
            lemma_no_ascent_descending(lt, s, x, y);
        } else if x == j && y == j {
            lemma_before_basics(lt, s[i], s[i]);
        } else if x == j {
            assert(!after(lt, s[y], s[i]));
            lemma_before_basics(lt, s[y], s[i]);
        } else {
            assert forall|k: int| x <= k < j implies !#[trigger] is_ascent(lt, s, k) by {
                assert(k > i);
            }
            lemma_no_ascent_descending(lt, s, x, j);
            lemma_before_basics(lt, s[j], s[i]);
            lemma_not_before_trans(lt, s[x], s[j], s[i]);
        }
    }
    assert forall|a: int, m: int| i + 1 <= a <= m < n implies !before(lt, #[trigger] b[m], #[trigger] b[a]) by {
        assert(b[m] == t[i + 1 + n - 1 - m]);
        assert(b[a] == t[i + 1 + n - 1 - a]);
    }
}

/// The next rearrangement law: `successor(s, i, j)`, for the last ascent `i` of `s` and the last
/// position `j` of an item after `s[i]`, is a rearrangement of `s` after `s`, and no rearrangement
/// of `s` after `s` comes before it in lexicographic order.
pub proof fn lemma_successor_is_next<T>(lt: spec_fn(T, T) -> bool, s: Seq<T>, i: int, j: int, c: Seq<T>)
    requires
        strict_order(lt),
        antisym(lt),
        is_last_ascent(lt, s, i),
        is_last_above(lt, s, i, j),
        i < j,
        c.len() == s.len(),
        c.to_multiset() == s.to_multiset(),
        lex_after(lt, s, c),
    ensures
        successor(s, i, j).to_multiset() == s.to_multiset(),
        lex_after(lt, s, successor(s, i, j)),
        !lex_after(lt, c, successor(s, i, j)),
{
    let n = s.len() as int;
    let t = s.update(i, s[j]).update(j, s[i]);
    let b = successor(s, i, j);
    lemma_swap_multiset(s, i, j);
    lemma_reverse_range_multiset(t, i + 1, n);
    assert(b[i] == s[j]);
    lemma_before_basics(lt, s[j], s[i]);
    assert(forall|k: int| 0 <= k < i ==> #[trigger] s[k] == b[k]);
    assert(lex_after(lt, s, b));
    let p = choose|p: int|
        0 <= p < s.len() && p < c.len() && (forall|k: int| 0 <= k < p ==> #[trigger] s[k] == c[k]) && before(
            lt,
            #[trigger] s[p],
            c[p],
        );
    if p < i {
        assert(b[p] == s[p]);
        lemma_lex_not_before(lt, c, b, p);
    } else if p > i {
        lemma_suffix_item(s, c, p, p);
        let m = choose|m: int| p <= m < s.len() && s[m] == c[p];
        assert forall|k: int| p <= k < m implies !#[trigger] is_ascent(lt, s, k) by {}
        lemma_no_ascent_descending(lt, s, p, m);
    } else {
        lemma_suffix_item(s, c, i, i);
        let m = choose|m: int| i <= m < s.len() && s[m] == c[i];
        lemma_before_basics(lt, s[i], s[m]);
        lemma_before_basics(lt, s[m], s[i]);
        assert(m > i);
        assert(m <= j);
        assert forall|k: int| m <= k < j implies !#[trigger] is_ascent(lt, s, k) by {}
        lemma_no_ascent_descending(lt, s, m, j);
        if before(lt, s[j], s[m]) {
            lemma_lex_not_before(lt, c, b, i);
        } else {
            lemma_before_basics(lt, s[j], s[m]);
            assert(c[i] == b[i]);
            lemma_successor_tail_sorted(lt, s, i, j);
            assert forall|k: int| 0 <= k < i + 1 implies #[trigger] b[k] == c[k] by {
                if k < i {
                    assert(b[k] == s[k]);
                }
            }
            lemma_sorted_first(lt, b, c, i + 1);
        }
    }
}

/// Without an ascent, `s` is the last rearrangement: no rearrangement of `s` comes after it, and
/// `s` reversed is the first: no rearrangement of `s` comes before it.
pub proof fn lemma_reverse_is_first<T>(lt: spec_fn(T, T) -> bool, s: Seq<T>, c: Seq<T>)
    requires
        strict_order(lt),
        forall|k: int| !#[trigger] is_ascent(lt, s, k),
        c.len() == s.len(),
        c.to_multiset() == s.to_multiset(),
    ensures
        !lex_after(lt, s, c),
        s.reverse().to_multiset() == s.to_multiset(),
        !lex_after(lt, c, s.reverse()),
{
    let n = s.len() as int;
    if lex_after(lt, s, c) {
        let p = choose|p: int|
            0 <= p < s.len() && p < c.len() && (forall|k: int| 0 <= k < p ==> #[trigger] s[k] == c[k]) && before(
                lt,
                #[trigger] s[p],
                c[p],
            );
        lemma_suffix_item(s, c, p, p);
        let m = choose|m: int| p <= m < s.len() && s[m] == c[p];
        lemma_no_ascent_descending(lt, s, p, m);
    }
    let r = s.reverse();
    lemma_reverse_range_multiset(s, 0, n);
    assert(reverse_range(s, 0, n) =~= r);
    assert forall|a: int, m: int| 0 <= a <= m < n implies !before(lt, #[trigger] r[m], #[trigger] r[a]) by {
        lemma_no_ascent_descending(lt, s, n - 1 - m, n - 1 - a);
    }
    lemma_sorted_first(lt, r, c, 0);
}

} // verus!
