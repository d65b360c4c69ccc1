//! The suffix array of a sequence, its inverse, and the longest common prefixes of neighbouring
//! suffixes.
use crate::sequence::permutation::{lemma_natural_order, natural_lt, strict_order, total_order};
use std::cmp::Ordering;
use vstd::prelude::*;
use vstd::std_specs::cmp::OrdSpec;

verus! {

/// Neither of `x` and `y` comes before the other.
pub open spec fn equiv<T>(lt: spec_fn(T, T) -> bool, x: T, y: T) -> bool {
    !lt(x, y) && !lt(y, x)
}

/// The first `p` items of `a` and `b` are pairwise equivalent.
pub open spec fn agree_upto<T>(lt: spec_fn(T, T) -> bool, a: Seq<T>, b: Seq<T>, p: int) -> bool {
    forall|k: int| 0 <= k < p ==> #[trigger] equiv(lt, a[k], b[k])
}

/// `a` comes before `b` in the lexicographic order of `lt`: after a common prefix of length `p`,
/// either `a` ends and `b` does not, or the item of `a` comes before that of `b`.
pub open spec fn seq_less<T>(lt: spec_fn(T, T) -> bool, a: Seq<T>, b: Seq<T>) -> bool {
    exists|p: int|
        0 <= p <= a.len() && p <= b.len() && #[trigger] agree_upto(lt, a, b, p) && ((p == a.len() && p
            < b.len()) || (p < a.len() && p < b.len() && lt(a[p], b[p])))
}

/// `h` is the length of the longest common prefix of `a` and `b`.
pub open spec fn is_lcp<T>(lt: spec_fn(T, T) -> bool, a: Seq<T>, b: Seq<T>, h: int) -> bool {
    &&& 0 <= h <= a.len()
    &&& h <= b.len()
    &&& agree_upto(lt, a, b, h)
    &&& (h == a.len() || h == b.len() || !equiv(lt, a[h], b[h]))
}

/// The suffix of `s` from `i` on.
pub open spec fn suffix<T>(s: Seq<T>, i: int) -> Seq<T> {
    s.subrange(i, s.len() as int)
}

/// The order of `T` on two suffixes of `s`.
pub open spec fn suffix_before<T: Ord>(s: Seq<T>, i: int, j: int) -> bool {
    seq_less(natural_lt::<T>(), suffix(s, i), suffix(s, j))
}

/// Equivalence is transitive, and an item before an equivalent one is before the other.
proof fn lemma_equiv<T>(lt: spec_fn(T, T) -> bool, x: T, y: T, z: T)
    requires
        strict_order(lt),
    ensures
        equiv(lt, x, y) && equiv(lt, y, z) ==> equiv(lt, x, z),
        lt(x, y) && equiv(lt, y, z) ==> lt(x, z),
        equiv(lt, x, y) && lt(y, z) ==> lt(x, z),
        lt(x, y) && lt(y, z) ==> lt(x, z),
        equiv(lt, x, y) ==> equiv(lt, y, x),
{
    assert(!lt(x, y) && !lt(y, z) ==> !lt(x, z));
    assert(!lt(z, y) && !lt(y, x) ==> !lt(z, x));
    assert(!lt(x, z) && !lt(z, y) ==> !lt(x, y));
    assert(!lt(y, x) && !lt(x, z) ==> !lt(y, z));
    assert(lt(y, z) ==> !lt(z, y));
}

/// The lexicographic order is transitive.
proof fn lemma_seq_less_trans<T>(lt: spec_fn(T, T) -> bool, a: Seq<T>, b: Seq<T>, c: Seq<T>)
    requires
        strict_order(lt),
        seq_less(lt, a, b),
        seq_less(lt, b, c),
    ensures
        seq_less(lt, a, c),
{
    let p1 = choose|p: int|
        0 <= p <= a.len() && p <= b.len() && #[trigger] agree_upto(lt, a, b, p) && ((p == a.len() && p
            < b.len()) || (p < a.len() && p < b.len() && lt(a[p], b[p])));
    let p2 = choose|p: int|
        0 <= p <= b.len() && p <= c.len() && #[trigger] agree_upto(lt, b, c, p) && ((p == b.len() && p
            < c.len()) || (p < b.len() && p < c.len() && lt(b[p], c[p])));
    let p = if p1 <= p2 {
        p1
    } else {
        p2
    };
    assert forall|k: int| 0 <= k < p implies #[trigger] equiv(lt, a[k], c[k]) by {
        assert(equiv(lt, a[k], b[k]));
        assert(equiv(lt, b[k], c[k]));
        lemma_equiv(lt, a[k], b[k], c[k]);
    }
    assert(agree_upto(lt, a, c, p));
    if p1 < p2 {
        if p1 < a.len() {
            assert(equiv(lt, b[p1], c[p1]));
            lemma_equiv(lt, a[p1], b[p1], c[p1]);
        }
    } else if p2 < p1 {
        assert(equiv(lt, a[p2], b[p2]));
        lemma_equiv(lt, a[p2], b[p2], c[p2]);
    } else {
        if p < a.len() {
            lemma_equiv(lt, a[p], b[p], c[p]);
        }
    }
}

/// The lexicographic order is asymmetric.
proof fn lemma_seq_less_asym<T>(lt: spec_fn(T, T) -> bool, a: Seq<T>, b: Seq<T>)
    requires
        strict_order(lt),
        seq_less(lt, a, b),
    ensures
        !seq_less(lt, b, a),
{
    if seq_less(lt, b, a) {
        let p1 = choose|p: int|
            0 <= p <= a.len() && p <= b.len() && #[trigger] agree_upto(lt, a, b, p) && ((p == a.len()
                && p < b.len()) || (p < a.len() && p < b.len() && lt(a[p], b[p])));
        let p2 = choose|p: int|
            0 <= p <= b.len() && p <= a.len() && #[trigger] agree_upto(lt, b, a, p) && ((p == b.len()
                && p < a.len()) || (p < b.len() && p < a.len() && lt(b[p], a[p])));
        if p1 < p2 {
            assert(equiv(lt, b[p1], a[p1]));
        } else if p2 < p1 {
            assert(equiv(lt, a[p2], b[p2]));
        } else {
            if p1 < a.len() && p1 < b.len() {
                assert(lt(a[p1], b[p1]) ==> !lt(b[p1], a[p1]));
            }
        }
    }
}

/// `0`, `1` or `2` as `x` comes before `y`, neither comes before the other, or `y` before `x` in
/// the order of `T`.
fn compare_items<T: Ord>(x: &T, y: &T) -> (r: u8)
    requires
        total_order::<T>(),
    ensures
        r <= 2,
        r == 0 <==> natural_lt::<T>()(*x, *y),
        r == 2 <==> natural_lt::<T>()(*y, *x),
{
    match x.cmp(y) {
        Ordering::Less => 0,
        Ordering::Equal => 1,
        Ordering::Greater => 2,
    }
}

/// Compares the suffixes of `s` from `i` and from `j != i`: whether the first comes before the
/// second, and the length of their longest common prefix.
fn compare_suffixes<T: Ord>(s: &[T], i: usize, j: usize) -> (r: (bool, usize))
    requires
        total_order::<T>(),
        i < s@.len(),
        j < s@.len(),
        i != j,
    ensures
        r.0 ==> suffix_before(s@, i as int, j as int),
        !r.0 ==> suffix_before(s@, j as int, i as int),
        is_lcp(natural_lt::<T>(), suffix(s@, i as int), suffix(s@, j as int), r.1 as int),
{
    let n = s.len();
    let ghost lt = natural_lt::<T>();
    let ghost a = suffix(s@, i as int);
    let ghost b = suffix(s@, j as int);
    let mut p: usize = 0;
    let mut c: u8 = 1;
    while c == 1 && i + p < n && j + p < n
        invariant
            i < n,
            j < n,
            i != j,
            n == s@.len(),
            total_order::<T>(),
            lt == natural_lt::<T>(),
            a == suffix(s@, i as int),
            b == suffix(s@, j as int),
            i + p <= n,
            j + p <= n,
            c <= 2,
            agree_upto(lt, a, b, p as int),
            c != 1 ==> i + p < n && j + p < n && (c == 0 <==> lt(s@[i + p], s@[j + p])) && (c == 2
                <==> lt(s@[j + p], s@[i + p])),
        decreases n - p + if c == 1 {
            1int
        } else {
            0int
        },
    {
        let d = compare_items(&s[i + p], &s[j + p]);
        if d == 1 {
            proof {
                assert forall|k: int| 0 <= k < p + 1 implies #[trigger] equiv(lt, a[k], b[k]) by {
                    if k < p {
                        assert(equiv(lt, a[k], b[k]));
                    }
                }
            }
            p = p + 1;
        } else {
            c = d;
        }
    }
    proof {
        assert(agree_upto(lt, b, a, p as int)) by {
            assert forall|k: int| 0 <= k < p implies #[trigger] equiv(lt, b[k], a[k]) by {
                assert(equiv(lt, a[k], b[k]));
            }
        }
    }
    if c == 0 {
        proof {
            assert(a[p as int] == s@[i + p]);
            assert(b[p as int] == s@[j + p]);
        }
        (true, p)
    } else if c == 2 {
        proof {
            assert(a[p as int] == s@[i + p]);
            assert(b[p as int] == s@[j + p]);
        }
        (false, p)
    } else if i + p == n {
        (true, p)
    } else {
        (false, p)
    }
}

/// Where `a` comes before `b`, their longest common prefix ends where `a` ends or where the item of
/// `a` comes before that of `b`.
proof fn lemma_lcp_position<T>(lt: spec_fn(T, T) -> bool, a: Seq<T>, b: Seq<T>, h: int)
    requires
        strict_order(lt),
        seq_less(lt, a, b),
        is_lcp(lt, a, b, h),
    ensures
        (h == a.len() && h < b.len()) || (h < a.len() && h < b.len() && lt(a[h], b[h])),
{
    let p = choose|p: int|
        0 <= p <= a.len() && p <= b.len() && #[trigger] agree_upto(lt, a, b, p) && ((p == a.len() && p
            < b.len()) || (p < a.len() && p < b.len() && lt(a[p], b[p])));
    if p < h {
        assert(equiv(lt, a[p], b[p]));
    } else if p > h {
        assert(equiv(lt, a[h], b[h]));
    }
}

/// For `x < y < z`, the longest common prefix of `x` and `z` is the shorter of those of `x` and
/// `y` and of `y` and `z`.
proof fn lemma_lcp_min<T>(lt: spec_fn(T, T) -> bool, x: Seq<T>, y: Seq<T>, z: Seq<T>, h1: int, h2: int)
    requires
        strict_order(lt),
        seq_less(lt, x, y),
        seq_less(lt, y, z),
        is_lcp(lt, x, y, h1),
        is_lcp(lt, y, z, h2),
    ensures
        is_lcp(lt, x, z, if h1 < h2 {
            h1
        } else {
            h2
        }),
{
    let h = if h1 < h2 {
        h1
    } else {
        h2
    };
    assert forall|k: int| 0 <= k < h implies #[trigger] equiv(lt, x[k], z[k]) by {
        assert(equiv(lt, x[k], y[k]));
        assert(equiv(lt, y[k], z[k]));
        lemma_equiv(lt, x[k], y[k], z[k]);
    }
    lemma_lcp_position(lt, x, y, h1);
    lemma_lcp_position(lt, y, z, h2);
    if h1 < h2 {
        if h1 < x.len() {
            assert(equiv(lt, y[h1], z[h1]));
            lemma_equiv(lt, x[h1], y[h1], z[h1]);
            lemma_equiv(lt, z[h1], y[h1], x[h1]);
            lemma_equiv(lt, y[h1], z[h1], x[h1]);
            lemma_equiv(lt, x[h1], z[h1], y[h1]);
        }
    } else if h2 < h1 {
        if h2 < z.len() {
            assert(equiv(lt, x[h2], y[h2]));
            lemma_equiv(lt, x[h2], y[h2], z[h2]);
            lemma_equiv(lt, y[h2], x[h2], z[h2]);
            lemma_equiv(lt, z[h2], x[h2], y[h2]);
            lemma_equiv(lt, x[h2], z[h2], y[h2]);
        }
    } else {
        if h < x.len() {
            lemma_equiv(lt, x[h], y[h], z[h]);
        }
    }
}

/// The longest common prefix of two suffixes is the minimum of `lcp` between their positions in
/// the sorted order: for `a < b`, the suffixes from `sa[a]` and `sa[b]` have the longest common
/// prefix `min(lcp[a..b])`.
pub proof fn lemma_lcp_range<T: Ord>(s: Seq<T>, sa: Seq<usize>, lcp: Seq<usize>, a: int, b: int)
    requires
        total_order::<T>(),
        sa.len() == s.len(),
        lcp.len() + 1 == s.len(),
        forall|x: int, y: int| 0 <= x < y < s.len() ==> #[trigger] suffix_before(s, sa[x] as int, sa[y] as int),
        forall|k: int|
            0 <= k < lcp.len() ==> is_lcp(
                natural_lt::<T>(),
                suffix(s, sa[k] as int),
                suffix(s, sa[k + 1] as int),
                #[trigger] lcp[k] as int,
            ),
        0 <= a < b < s.len(),
    ensures
        is_lcp(natural_lt::<T>(), suffix(s, sa[a] as int), suffix(s, sa[b] as int), range_min(lcp, a, b)),
    decreases b - a,
{
    lemma_natural_order::<T>();
    if b > a + 1 {
        lemma_lcp_range(s, sa, lcp, a, b - 1);
        assert(suffix_before(s, sa[a] as int, sa[b - 1] as int));
        assert(suffix_before(s, sa[b - 1] as int, sa[b] as int));
        assert(is_lcp(natural_lt::<T>(), suffix(s, sa[b - 1] as int), suffix(s, sa[b] as int), lcp[b - 1] as int));
        lemma_lcp_min(
            natural_lt::<T>(),
            suffix(s, sa[a] as int),
            suffix(s, sa[b - 1] as int),
            suffix(s, sa[b] as int),
            range_min(lcp, a, b - 1),
            lcp[b - 1] as int,
        );
    } else {
        assert(is_lcp(natural_lt::<T>(), suffix(s, sa[a] as int), suffix(s, sa[a + 1] as int), lcp[a] as int));
    }
}

/// The number of `false` entries of `used` below `m`.
spec fn count_unused(used: Seq<bool>, m: int) -> nat
    decreases m,
{
    if m <= 0 {
        0
    } else {
        count_unused(used, m - 1) + if used[m - 1] {
            0nat
        } else {
            1nat
        }
    }
}

/// Marking the unused entry `v` as used lowers the count by one.
proof fn lemma_count_mark(used: Seq<bool>, v: int, m: int)
    requires
        0 <= v < used.len(),
        0 <= m <= used.len(),
        !used[v],
    ensures
        count_unused(used.update(v, true), m) + if v < m {
            1nat
        } else {
            0nat
        } == count_unused(used, m),
    decreases m,
{
    if m > 0 {
        lemma_count_mark(used, v, m - 1);
    }
}

/// Without an unused entry the count is zero; it is at most `m`.
proof fn lemma_count_none(used: Seq<bool>, m: int)
    requires
        0 <= m <= used.len(),
    ensures
        (forall|v: int| 0 <= v < m ==> #[trigger] used[v]) ==> count_unused(used, m) == 0,
        count_unused(used, m) <= m,
    decreases m,
{
    if m > 0 {
        lemma_count_none(used, m - 1);
    }
}

/// The range minimum `min(lcp[a..b])`, for `a < b`.
pub open spec fn range_min(lcp: Seq<usize>, a: int, b: int) -> int
    decreases b - a,
{
    if b <= a + 1 {
        lcp[a] as int
    } else {
        let m = range_min(lcp, a, b - 1);
        if lcp[b - 1] < m {
            lcp[b - 1] as int
        } else {
            m
        }
    }
}

/// The suffix array `sa` of a sequence `s` of length `n`, the permutation of `[0, n)` listing the
/// suffixes in increasing lexicographic order, with its inverse `isa`, and `lcp[k]`, the length of
/// the longest common prefix of the suffixes from `sa[k]` and `sa[k + 1]`.
pub struct SuffixArray {
    sa: Vec<usize>,
    isa: Vec<usize>,
    lcp: Vec<usize>,
}

impl SuffixArray {
    #[verifier::type_invariant]
    spec fn wf(self) -> bool {
        let n = self.sa@.len();
        &&& self.isa@.len() == n
        &&& self.lcp@.len() == if n == 0 {
            0
        } else {
            n - 1
        }
        &&& forall|k: int| 0 <= k < n ==> #[trigger] self.sa@[k] < n && self.isa@[self.sa@[k] as int] == k
        &&& forall|v: int| 0 <= v < n ==> #[trigger] self.isa@[v] < n && self.sa@[self.isa@[v] as int] == v
    }

    /// `sa`.
    pub closed spec fn spec_sa(self) -> Seq<usize> {
        self.sa@
    }

    /// `isa`.
    pub closed spec fn spec_isa(self) -> Seq<usize> {
        self.isa@
    }

    /// `lcp`.
    pub closed spec fn spec_lcp(self) -> Seq<usize> {
        self.lcp@
    }

    /// The suffix array of `s`: the suffixes sorted by selection, each comparison walking their
    /// common prefix, in O(n^3) at worst.
    pub fn from_slice<T: Ord>(s: &[T]) -> (r: Self)
        requires
            total_order::<T>(),
        ensures
            r.spec_sa().len() == s@.len(),
            forall|a: int, b: int|
                0 <= a < b < s@.len() ==> #[trigger] suffix_before(s@, r.spec_sa()[a] as int, r.spec_sa()[b] as int),
            forall|k: int| 0 <= k < s@.len() ==> #[trigger] r.spec_sa()[k] < s@.len() && r.spec_isa()[r.spec_sa()[k] as int] == k,
            forall|v: int| 0 <= v < s@.len() ==> #[trigger] r.spec_isa()[v] < s@.len() && r.spec_sa()[r.spec_isa()[v] as int] == v,
            r.spec_isa().len() == s@.len(),
            r.spec_lcp().len() == if s@.len() == 0 {
                0
            } else {
                s@.len() - 1
            },
            forall|k: int|
                0 <= k < r.spec_lcp().len() ==> is_lcp(
                    natural_lt::<T>(),
                    suffix(s@, r.spec_sa()[k] as int),
                    suffix(s@, r.spec_sa()[k + 1] as int),
                    #[trigger] r.spec_lcp()[k] as int,
                ),
    {
        let n = s.len();
        let ghost lt = natural_lt::<T>();
        proof {
            lemma_natural_order::<T>();
        }
        let mut used: Vec<bool> = Vec::new();
        while used.len() < n
            invariant
                used@.len() <= n,
                forall|v: int| 0 <= v < used@.len() ==> !#[trigger] used@[v],
            decreases n - used@.len(),
        {
            used.push(false);
        }
        proof {
            assert forall|m: int| 0 <= m <= n implies #[trigger] count_unused(used@, m) == m by {
                lemma_count_all(used@, m);
            }
        }
        let mut sa: Vec<usize> = Vec::new();
        while sa.len() < n
            invariant
                n == s@.len(),
                total_order::<T>(),
                lt == natural_lt::<T>(),
                strict_order(lt),
                used@.len() == n,
                sa@.len() <= n,
                count_unused(used@, n as int) == n - sa@.len(),
                forall|a: int| 0 <= a < sa@.len() ==> #[trigger] sa@[a] < n && used@[sa@[a] as int],
                forall|v: int| 0 <= v < n && #[trigger] used@[v] ==> sa@.contains(v as usize),
                forall|a: int, b: int|
                    0 <= a < b < sa@.len() ==> #[trigger] suffix_before(s@, sa@[a] as int, sa@[b] as int),
                forall|a: int, v: int|
                    0 <= a < sa@.len() && 0 <= v < n && !#[trigger] used@[v] ==> #[trigger] suffix_before(s@, sa@[a] as int, v),
            decreases n - sa@.len(),
        {
            let mut best: usize = n;
            let mut x: usize = 0;
            while x < n
                invariant
                    x <= n,
                    n == s@.len(),
                    total_order::<T>(),
                    lt == natural_lt::<T>(),
                    strict_order(lt),
                    used@.len() == n,
                    best == n ==> forall|y: int| 0 <= y < x ==> #[trigger] used@[y],
                    best < n ==> best < x && !used@[best as int] && forall|y: int|
                        0 <= y < x && !#[trigger] used@[y] && y != best ==> suffix_before(s@, best as int, y),
                    best <= n,
                decreases n - x,
            {
                if !used[x] {
                    if best == n {
                        best = x;
                    } else {
                        let (before, _) = compare_suffixes(s, x, best);
                        if before {
                            proof {
                                assert forall|y: int| 0 <= y < x + 1 && !#[trigger] used@[y] && y != x implies suffix_before(s@, x as int, y) by {
                                    if y != best {
                                        lemma_seq_less_trans(lt, suffix(s@, x as int), suffix(s@, best as int), suffix(s@, y));
                                    }
                                }
                            }
                            best = x;
                        }
                    }
                }
                x = x + 1;
            }
            proof {
                if best == n {
                    lemma_count_none(used@, n as int);
                }
            }
            let ghost old_used = used@;
            let ghost old_sa = sa@;
            used.set(best, true);
            sa.push(best);
            proof {
                lemma_count_mark(old_used, best as int, n as int);
                assert forall|v: int| 0 <= v < n && #[trigger] used@[v] implies sa@.contains(v as usize) by {
                    if v == best {
                        assert(sa@[sa@.len() - 1] == best);
                    } else {
                        assert(old_used[v]);
                        assert(old_sa.contains(v as usize));
                        let i = choose|i: int| 0 <= i < old_sa.len() && old_sa[i] == v as usize;
                        assert(sa@[i] == v as usize);
                    }
                }
                assert forall|a: int, b: int| 0 <= a < b < sa@.len() implies #[trigger] suffix_before(s@, sa@[a] as int, sa@[b] as int) by {
                    if b == sa@.len() - 1 {
                        assert(old_sa[a] == sa@[a]);
                        assert(!old_used[best as int]);
                    } else {
                        assert(old_sa[a] == sa@[a]);
                        assert(old_sa[b] == sa@[b]);
                    }
                }
                assert forall|a: int, v: int| 0 <= a < sa@.len() && 0 <= v < n && !#[trigger] used@[v] implies #[trigger] suffix_before(s@, sa@[a] as int, v) by {
                    assert(!old_used[v]);
                    if a < sa@.len() - 1 {
                        assert(old_sa[a] == sa@[a]);
                    }
                }
            }
        }
        proof {
            assert forall|v: int| 0 <= v < n implies #[trigger] used@[v] by {
                if !used@[v] {
                    lemma_count_mark(used@, v, n as int);
                }
            }
            assert forall|a: int, b: int| 0 <= a < n && 0 <= b < n && a != b implies sa@[a] != sa@[b] by {
                if a < b {
                    assert(suffix_before(s@, sa@[a] as int, sa@[b] as int));
                    lemma_seq_less_asym(lt, suffix(s@, sa@[a] as int), suffix(s@, sa@[b] as int));
                } else {
                    assert(suffix_before(s@, sa@[b] as int, sa@[a] as int));
                    lemma_seq_less_asym(lt, suffix(s@, sa@[b] as int), suffix(s@, sa@[a] as int));
                }
            }
        }
        let mut isa: Vec<usize> = Vec::new();
        while isa.len() < n
            invariant
                isa@.len() <= n,
            decreases n - isa@.len(),
        {
            isa.push(0);
        }
        let mut k: usize = 0;
        while k < n
            invariant
                k <= n,
                n == s@.len(),
                sa@.len() == n,
                isa@.len() == n,
                forall|a: int| 0 <= a < n ==> #[trigger] sa@[a] < n,
                forall|a: int, b: int| 0 <= a < n && 0 <= b < n && a != b ==> sa@[a] != sa@[b],
                forall|a: int| 0 <= a < k ==> #[trigger] isa@[sa@[a] as int] == a,
            decreases n - k,
        {
            let ghost old_isa = isa@;
            isa.set(sa[k], k);
            proof {
                assert forall|a: int| 0 <= a < k + 1 implies #[trigger] isa@[sa@[a] as int] == a by {
                    if a < k {
                        assert(sa@[a] != sa@[k as int]);
                        assert(old_isa[sa@[a] as int] == a);
                    }
                }
            }
            k = k + 1;
        }
        proof {
            assert forall|v: int| 0 <= v < n implies #[trigger] isa@[v] < n && sa@[isa@[v] as int] == v by {
                assert(used@[v]);
                assert(sa@.contains(v as usize));
                let a = choose|a: int| 0 <= a < sa@.len() && sa@[a] == v as usize;
                assert(isa@[sa@[a] as int] == a);
            }
        }
        let mut lcp: Vec<usize> = Vec::new();
        let mut k: usize = 1;
        while k < n
            invariant
                1 <= k,
                k <= n || k == 1,
                n == s@.len(),
                total_order::<T>(),
                sa@.len() == n,
                forall|a: int| 0 <= a < n ==> #[trigger] sa@[a] < n,
                forall|a: int, b: int| 0 <= a < n && 0 <= b < n && a != b ==> sa@[a] != sa@[b],
                lcp@.len() == k - 1,
                isa@.len() == n,
                forall|a: int| 0 <= a < n ==> #[trigger] sa@[a] < n && isa@[sa@[a] as int] == a,
                forall|v: int| 0 <= v < n ==> #[trigger] isa@[v] < n && sa@[isa@[v] as int] == v,
                forall|a: int|
                    0 <= a < k - 1 ==> is_lcp(
                        natural_lt::<T>(),
                        suffix(s@, sa@[a] as int),
                        suffix(s@, sa@[a + 1] as int),
                        #[trigger] lcp@[a] as int,
                    ),
            decreases n - k,
        {
            let (_, h) = compare_suffixes(s, sa[k - 1], sa[k]);
            lcp.push(h);
            k = k + 1;
        }
        proof {
            assert(n == 0 ==> lcp@.len() == 0);
        }
        SuffixArray { sa, isa, lcp }
    }

    /// `sa`, the starts of the suffixes in increasing order.
    pub fn sa(&self) -> (r: &[usize])
        ensures
            r@ == self.spec_sa(),
    {
        self.sa.as_slice()
    }

    /// `isa`, the inverse of `sa`.
    pub fn isa(&self) -> (r: &[usize])
        ensures
            r@ == self.spec_isa(),
    {
        self.isa.as_slice()
    }

    /// `lcp`, the common prefix lengths of neighbouring suffixes.
    pub fn lcp(&self) -> (r: &[usize])
        ensures
            r@ == self.spec_lcp(),
    {
        self.lcp.as_slice()
    }

    /// For `i = j`, the length `n - i` of the suffix; otherwise `min(lcp[a..b])` for `a < b` the
    /// positions `isa[i]` and `isa[j]`, in O(n).
    pub fn lcp_of(&self, i: usize, j: usize) -> (r: usize)
        requires
            i < self.spec_sa().len(),
            j < self.spec_sa().len(),
        ensures
            i == j ==> r == self.spec_sa().len() - i,
            i != j ==> r == range_min(
                self.spec_lcp(),
                if self.spec_isa()[i as int] < self.spec_isa()[j as int] {
                    self.spec_isa()[i as int] as int
                } else {
                    self.spec_isa()[j as int] as int
                },
                if self.spec_isa()[i as int] < self.spec_isa()[j as int] {
                    self.spec_isa()[j as int] as int
                } else {
                    self.spec_isa()[i as int] as int
                },
            ),
    {
        proof {
            use_type_invariant(self);
        }
        if i == j {
            return self.sa.len() - i;
        }
        let (a, b) = if self.isa[i] < self.isa[j] {
            (self.isa[i], self.isa[j])
        } else {
            (self.isa[j], self.isa[i])
        };
        proof {
            if a == b {
                assert(self.sa@[self.isa@[i as int] as int] == i);
                assert(self.sa@[self.isa@[j as int] as int] == j);
            }
        }
        let mut m = self.lcp[a];
        let mut k = a + 1;
        while k < b
            invariant
                a < k <= b,
                b < self.sa@.len(),
                self.lcp@.len() == self.sa@.len() - 1,
                m == range_min(self.lcp@, a as int, k as int),
            decreases b - k,
        {
            if self.lcp[k] < m {
                m = self.lcp[k];
            }
            k = k + 1;
        }
        m
    }

    /// The length `n` of the sequence.
    pub fn len(&self) -> (n: usize)
        ensures
            n == self.spec_sa().len(),
    {
        self.sa.len()
    }

    /// Whether the sequence is empty.
    pub fn is_empty(&self) -> (b: bool)
        ensures
            b <==> self.spec_sa().len() == 0,
    {
        self.sa.len() == 0
    }
}

/// With every entry unused the count is `m`.
proof fn lemma_count_all(used: Seq<bool>, m: int)
    requires
        0 <= m <= used.len(),
        forall|v: int| 0 <= v < used.len() ==> !#[trigger] used[v],
    ensures
        count_unused(used, m) == m,
    decreases m,
{
    if m > 0 {
        lemma_count_all(used, m - 1);
    }
}

} // verus!
