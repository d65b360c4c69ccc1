//! Leftmost row minima of monotone matrices.
//!
//! For a matrix `A`, `j*(i)` is the least `j` attaining `min_j A[i][j]`. `A` is monotone if `j*` is
//! non-decreasing.
use std::cmp::Ordering;
use vstd::std_specs::cmp::PartialOrdSpec;
use vstd::prelude::*;

verus! {

/// `x < y` by the comparison of `T`.
pub open spec fn less<T: PartialOrd>(x: T, y: T) -> bool {
    x.partial_cmp_spec(&y) == Some(Ordering::Less)
}

/// The comparison of `T` is a total preorder: any two values compare, reversing the arguments
/// reverses the result, and "not greater" is transitive.
pub open spec fn total_preorder<T: PartialOrd>() -> bool {
    &&& T::obeys_partial_cmp_spec()
    &&& forall|x: T, y: T| #[trigger] x.partial_cmp_spec(&y) is Some
    &&& forall|x: T, y: T|
        #[trigger] x.partial_cmp_spec(&y) == Some(Ordering::Less) <==> y.partial_cmp_spec(&x) == Some(
            Ordering::Greater,
        )
    &&& forall|x: T, y: T, z: T| #![trigger less(y, x), less(z, y), less(z, x)] !less(y, x) && !less(z, y) ==> !less(z, x)
}

/// `f` computes the `n x m` matrix `a`: it can be called at every entry, and returns it.
pub open spec fn computes_matrix<T, F: Fn(usize, usize) -> T>(f: F, n: nat, m: nat, a: spec_fn(int, int) -> T) -> bool {
    &&& forall|i: usize, j: usize| i < n && j < m ==> #[trigger] f.requires((i, j))
    &&& forall|i: usize, j: usize, v: T| i < n && j < m && #[trigger] f.ensures((i, j), v) ==> v == a(i as int, j as int)
}

/// `f` computes the monotone `n x m` matrix `a`.
pub open spec fn computes_monotone<T: PartialOrd, F: Fn(usize, usize) -> T>(f: F, n: nat, m: nat, a: spec_fn(int, int) -> T) -> bool {
    computes_matrix(f, n, m, a) && is_monotone(a, n as int, m as int)
}

/// `j` is the leftmost minimum of the row `i` among the columns `[lo, hi)`: no entry there is less,
/// and the entries before it are greater.
pub open spec fn is_min_in<T: PartialOrd>(a: spec_fn(int, int) -> T, i: int, lo: int, hi: int, j: int) -> bool {
    &&& lo <= j < hi
    &&& forall|k: int| lo <= k < hi ==> !less(#[trigger] a(i, k), a(i, j))
    &&& forall|k: int| lo <= k < j ==> less(a(i, j), #[trigger] a(i, k))
}

/// `j*(i) = j`: `j` is the leftmost minimum of the row `i` of the `m` columns.
pub open spec fn is_leftmost_min<T: PartialOrd>(a: spec_fn(int, int) -> T, i: int, m: int, j: int) -> bool {
    is_min_in(a, i, 0, m, j)
}

/// The `n x m` matrix `a` is monotone: `j*` is non-decreasing.
pub open spec fn is_monotone<T: PartialOrd>(a: spec_fn(int, int) -> T, n: int, m: int) -> bool {
    forall|i1: int, i2: int, j1: int, j2: int|
        0 <= i1 < i2 < n && #[trigger] is_leftmost_min(a, i1, m, j1) && #[trigger] is_leftmost_min(a, i2, m, j2)
            ==> j1 <= j2
}

/// In a total preorder, `<` is irreflexive, asymmetric and transitive, also through "not greater".
proof fn lemma_less<T: PartialOrd>(x: T, y: T, z: T)
    requires
        total_preorder::<T>(),
    ensures
        !less(x, x),
        less(x, y) ==> !less(y, x),
        less(x, y) && !less(z, y) ==> less(x, z),
        !less(y, x) && less(y, z) ==> less(x, z),
        less(x, y) && less(y, z) ==> less(x, z),
        !less(y, x) && !less(z, y) ==> !less(z, x),
{
    let a = x.partial_cmp_spec(&x);
    let b = x.partial_cmp_spec(&y);
    let c = y.partial_cmp_spec(&x);
    assert(less(y, x) == (x.partial_cmp_spec(&y) == Some(Ordering::Greater)));
    assert(!less(z, y) && !less(y, x) ==> !less(z, x));
    assert(!less(x, z) && !less(z, y) ==> !less(x, y));
    assert(!less(y, x) && !less(x, z) ==> !less(y, z));
}

/// Extending the columns `[lo, hi)` by `hi`: the leftmost minimum stays unless the new entry is less.
proof fn lemma_min_extend<T: PartialOrd>(a: spec_fn(int, int) -> T, i: int, lo: int, hi: int, j: int)
    requires
        total_preorder::<T>(),
        is_min_in(a, i, lo, hi, j),
    ensures
        less(a(i, hi), a(i, j)) ==> is_min_in(a, i, lo, hi + 1, hi),
        !less(a(i, hi), a(i, j)) ==> is_min_in(a, i, lo, hi + 1, j),
{
    let v = a(i, hi);
    let w = a(i, j);
    lemma_less(v, v, v);
    if less(v, w) {
        assert forall|k: int| lo <= k < hi + 1 implies !less(#[trigger] a(i, k), v) by {
            lemma_less(v, w, a(i, k));
            lemma_less(a(i, k), v, w);
        }
        assert forall|k: int| lo <= k < hi implies less(v, #[trigger] a(i, k)) by {
            lemma_less(v, w, a(i, k));
        }
    } else {
        assert forall|k: int| lo <= k < hi + 1 implies !less(#[trigger] a(i, k), w) by {}
    }
}

/// Every row of a matrix with columns has a leftmost minimum among `[0, hi)`.
proof fn lemma_min_exists<T: PartialOrd>(a: spec_fn(int, int) -> T, i: int, hi: int)
    requires
        total_preorder::<T>(),
        hi >= 1,
    ensures
        exists|j: int| #[trigger] is_min_in(a, i, 0, hi, j),
    decreases hi,
{
    if hi == 1 {
        lemma_less(a(i, 0), a(i, 0), a(i, 0));
        assert(is_min_in(a, i, 0, 1, 0));
    } else {
        lemma_min_exists(a, i, hi - 1);
        let j = choose|j: int| #[trigger] is_min_in(a, i, 0, hi - 1, j);
        lemma_min_extend(a, i, 0, hi - 1, j);
    }
}

/// A leftmost minimum among `[lo, hi)` is the leftmost minimum of the row if that lies in
/// `[lo, hi)`.
proof fn lemma_min_global<T: PartialOrd>(a: spec_fn(int, int) -> T, i: int, m: int, lo: int, hi: int, j: int, g: int)
    requires
        total_preorder::<T>(),
        is_min_in(a, i, lo, hi, j),
        is_leftmost_min(a, i, m, g),
        0 <= lo <= g < hi <= m,
    ensures
        j == g,
{
    lemma_less(a(i, j), a(i, g), a(i, j));
    if j < g {
        assert(less(a(i, g), a(i, j)));
    } else if g < j {
        assert(less(a(i, j), a(i, g)));
    }
}

/// Fills `argmin[o]` with `j*(o)` for the rows `o` in `[l, r)`, whose `j*` lie in `[cl, cr]`: the
/// middle row by a scan of `[cl, cr]`, the rows above it in `[cl, j*]`, those below in `[j*, cr]`;
/// for every monotone matrix that `f` computes.
fn minima_rec<T: PartialOrd, F: Fn(usize, usize) -> T>(
    f: &F,
    argmin: &mut Vec<usize>,
    l: usize,
    r: usize,
    cl: usize,
    cr: usize,
    Ghost(n): Ghost<nat>,
    Ghost(m): Ghost<nat>,
)
    requires
        total_preorder::<T>(),
        forall|i: usize, j: usize| i < n && j < m ==> #[trigger] f.requires((i, j)),
        old(argmin)@.len() == n,
        m <= usize::MAX,
        l <= r <= n,
        cl <= cr < m,
        forall|a: spec_fn(int, int) -> T, o: int, j: int|
            #![trigger computes_monotone(*f, n, m, a), is_leftmost_min(a, o, m as int, j)]
            computes_monotone(*f, n, m, a) && l <= o < r && is_leftmost_min(a, o, m as int, j) ==> cl <= j <= cr,
    ensures
        final(argmin)@.len() == n,
        forall|a: spec_fn(int, int) -> T, o: int|
            #![trigger computes_monotone(*f, n, m, a), final(argmin)@[o]]
            computes_monotone(*f, n, m, a) && l <= o < r ==> is_leftmost_min(a, o, m as int, final(argmin)@[o] as int),
        forall|o: int| 0 <= o < n && !(l <= o < r) ==> #[trigger] final(argmin)@[o] == old(argmin)@[o],
    decreases r - l,
{
    if l >= r {
        return;
    }
    let o = l + (r - l) / 2;
    let mut best = cl;
    let mut value = f(o, cl);
    proof {
        assert forall|a: spec_fn(int, int) -> T| #[trigger] computes_monotone(*f, n, m, a) implies value == a(
            o as int,
            cl as int,
        ) && is_min_in(a, o as int, cl as int, cl + 1, cl as int) by {
            lemma_less(a(o as int, cl as int), a(o as int, cl as int), a(o as int, cl as int));
        }
    }
    let mut j = cl + 1;
    while j <= cr
        invariant
            total_preorder::<T>(),
            forall|i: usize, j: usize| i < n && j < m ==> #[trigger] f.requires((i, j)),
            l <= o < r <= n,
            cl < j <= cr + 1,
            cr < m,
            m <= usize::MAX,
            cl <= best < j,
            forall|a: spec_fn(int, int) -> T| #[trigger] computes_monotone(*f, n, m, a) ==> value == a(
                o as int,
                best as int,
            ) && is_min_in(a, o as int, cl as int, j as int, best as int),
        decreases cr + 1 - j,
    {
        let v = f(o, j);
        let smaller = v < value;
        proof {
            assert forall|a: spec_fn(int, int) -> T| #[trigger] computes_monotone(*f, n, m, a) implies (if smaller {
                v == a(o as int, j as int) && is_min_in(a, o as int, cl as int, j + 1, j as int)
            } else {
                value == a(o as int, best as int) && is_min_in(a, o as int, cl as int, j + 1, best as int)
            }) by {
                lemma_min_extend(a, o as int, cl as int, j as int, best as int);
            }
        }
        if smaller {
            best = j;
            value = v;
        }
        j = j + 1;
    }
    argmin.set(o, best);
    let ghost mid = argmin@;
    proof {
        assert forall|a: spec_fn(int, int) -> T| #[trigger] computes_monotone(*f, n, m, a) implies is_leftmost_min(
            a,
            o as int,
            m as int,
            best as int,
        ) by {
            lemma_min_exists(a, o as int, m as int);
            let g = choose|g: int| #[trigger] is_min_in(a, o as int, 0, m as int, g);
            assert(is_leftmost_min(a, o as int, m as int, g));
            lemma_min_global(a, o as int, m as int, cl as int, cr + 1, best as int, g);
        }
        assert forall|a: spec_fn(int, int) -> T, p: int, k: int|
            #![trigger computes_monotone(*f, n, m, a), is_leftmost_min(a, p, m as int, k)]
            computes_monotone(*f, n, m, a) && l <= p < o && is_leftmost_min(a, p, m as int, k) implies cl <= k <= best by {
            assert(is_leftmost_min(a, o as int, m as int, best as int));
        }
        assert forall|a: spec_fn(int, int) -> T, p: int, k: int|
            #![trigger computes_monotone(*f, n, m, a), is_leftmost_min(a, p, m as int, k)]
            computes_monotone(*f, n, m, a) && o + 1 <= p < r && is_leftmost_min(a, p, m as int, k) implies best <= k <= cr by {
            assert(is_leftmost_min(a, o as int, m as int, best as int));
        }
    }
    minima_rec(f, argmin, l, o, cl, best, Ghost(n), Ghost(m));
    let ghost left = argmin@;
    minima_rec(f, argmin, o + 1, r, best, cr, Ghost(n), Ghost(m));
    proof {
        assert forall|a: spec_fn(int, int) -> T, p: int|
            #![trigger computes_monotone(*f, n, m, a), argmin@[p]]
            computes_monotone(*f, n, m, a) && l <= p < r implies is_leftmost_min(a, p, m as int, argmin@[p] as int) by {
            if p < o {
                assert(argmin@[p] == left[p]);
            } else if p == o {
                assert(argmin@[p] == left[p]);
                assert(left[p] == mid[p]);
                assert(is_leftmost_min(a, o as int, m as int, best as int));
            }
        }
        assert forall|p: int| 0 <= p < n && !(l <= p < r) implies #[trigger] argmin@[p] == old(argmin)@[p] by {
            assert(argmin@[p] == left[p]);
            assert(left[p] == mid[p]);
        }
    }
}

/// The leftmost minimum `j*(i)` of each row of a monotone `n x m` matrix `A[i][j] = f(i, j)`, as its
/// column: `j*(i)` is the least `j` attaining `min_j A[i][j]`, and `j*` is non-decreasing; the
/// result is that of every monotone matrix that `f` computes.
pub fn monotone_minima<T: PartialOrd, F: Fn(usize, usize) -> T>(n: usize, m: usize, f: F) -> (argmin: Vec<usize>)
    requires
        m > 0 || n == 0,
        total_preorder::<T>(),
        forall|i: usize, j: usize| i < n && j < m ==> #[trigger] f.requires((i, j)),
    ensures
        argmin@.len() == n,
        forall|a: spec_fn(int, int) -> T, i: int|
            #![trigger computes_monotone(f, n as nat, m as nat, a), argmin@[i]]
            computes_monotone(f, n as nat, m as nat, a) && 0 <= i < n ==> is_leftmost_min(a, i, m as int, argmin@[i] as int),
{
    let mut argmin: Vec<usize> = vec![0; n];
    if n > 0 {
        minima_rec(&f, &mut argmin, 0, n, 0, m - 1, Ghost(n as nat), Ghost(m as nat));
    }
    argmin
}

/// `cost` computes `c(j, i)` for the edges `j -> i`, `j < i < n`: it can be called on them and
/// returns `c`.
pub open spec fn computes_cost<F: Fn(usize, usize) -> i64>(cost: F, n: nat, c: spec_fn(int, int) -> int) -> bool {
    &&& forall|j: usize, i: usize| j < i < n ==> #[trigger] cost.requires((j, i))
    &&& forall|j: usize, i: usize, v: i64| j < i < n && #[trigger] cost.ensures((j, i), v) ==> v == c(j as int, i as int)
}

/// The matrix `C[i][j] = c(j, i)`, defined for `j < i < n`, is Monge:
/// `C[i1][j1] + C[i2][j2] <= C[i1][j2] + C[i2][j1]` for `j1 < j2 < i1 < i2`.
pub open spec fn is_monge(c: spec_fn(int, int) -> int, n: int) -> bool {
    forall|j1: int, j2: int, i1: int, i2: int|
        #![trigger c(j1, i1), c(j2, i2), c(j2, i1), c(j1, i2)]
        0 <= j1 < j2 < i1 < i2 < n ==> c(j1, i1) + c(j2, i2) <= c(j2, i1) + c(j1, i2)
}

/// `min_{lo <= j < hi} (dp(j) + c(j, i))` for `0 <= lo < hi <= i`, where `dp` is
/// [`monge_value`].
pub open spec fn range_best(z: int, c: spec_fn(int, int) -> int, i: int, lo: int, hi: int) -> int
    decreases i, hi - lo,
{
    if lo < 0 || hi <= lo || hi > i {
        0
    } else {
        let j = hi - 1;
        let v = (if j == 0 {
            z
        } else {
            range_best(z, c, j, 0, j)
        }) + c(j, i);
        if j == lo {
            v
        } else {
            let w = range_best(z, c, i, lo, j);
            if w <= v {
                w
            } else {
                v
            }
        }
    }
}

/// The shortest distance `dp(i)` from `0` to `i` in the DAG on `[0, n)` with the edges `j -> i` of
/// cost `c(j, i)` for `j < i`: `dp(0) = z` and `dp(i) = min_{j < i} (dp(j) + c(j, i))`.
pub open spec fn monge_value(z: int, c: spec_fn(int, int) -> int, i: int) -> int {
    if i == 0 {
        z
    } else {
        range_best(z, c, i, 0, i)
    }
}

/// No sum `dp(j) + c(j, i)` for `j < i < n` overflows `i64`, and neither does `z`.
pub open spec fn monge_fits(z: int, c: spec_fn(int, int) -> int, n: int) -> bool {
    &&& i64::MIN <= z <= i64::MAX
    &&& forall|j: int, i: int|
        0 <= j < i < n ==> i64::MIN <= #[trigger] (monge_value(z, c, j) + c(j, i)) <= i64::MAX
}

/// `cost` computes a Monge cost `c` under which no sum overflows.
pub open spec fn monge_cost<F: Fn(usize, usize) -> i64>(cost: F, n: nat, z: int, c: spec_fn(int, int) -> int) -> bool {
    computes_cost(cost, n, c) && is_monge(c, n as int) && monge_fits(z, c, n as int)
}

/// The range minimum is at most every candidate and equal to one of them.
proof fn lemma_range_best(z: int, c: spec_fn(int, int) -> int, i: int, lo: int, hi: int)
    requires
        0 <= lo < hi <= i,
    ensures
        forall|j: int| lo <= j < hi ==> range_best(z, c, i, lo, hi) <= #[trigger] monge_value(z, c, j) + c(j, i),
        exists|j: int| lo <= j < hi && range_best(z, c, i, lo, hi) == #[trigger] monge_value(z, c, j) + c(j, i),
    decreases hi - lo,
{
    let j = hi - 1;
    assert(monge_value(z, c, j) + c(j, i) == (if j == 0 {
        z
    } else {
        range_best(z, c, j, 0, j)
    }) + c(j, i));
    if j > lo {
        lemma_range_best(z, c, i, lo, j);
    }
}

/// The range minimum over `[lo, hi)` splits at `mid`.
proof fn lemma_range_split(z: int, c: spec_fn(int, int) -> int, i: int, lo: int, mid: int, hi: int)
    requires
        0 <= lo < mid < hi <= i,
    ensures
        range_best(z, c, i, lo, hi) == if range_best(z, c, i, lo, mid) <= range_best(z, c, i, mid, hi) {
            range_best(z, c, i, lo, mid)
        } else {
            range_best(z, c, i, mid, hi)
        },
    decreases hi - mid,
{
    if hi - 1 > mid {
        lemma_range_split(z, c, i, lo, mid, hi - 1);
    }
}

/// A candidate at most every other one is the range minimum.
proof fn lemma_range_attained(z: int, c: spec_fn(int, int) -> int, i: int, lo: int, hi: int, x: int)
    requires
        0 <= lo <= x < hi <= i,
        forall|j: int| lo <= j < hi ==> monge_value(z, c, x) + c(x, i) <= #[trigger] monge_value(z, c, j) + c(j, i),
    ensures
        range_best(z, c, i, lo, hi) == monge_value(z, c, x) + c(x, i),
{
    lemma_range_best(z, c, i, lo, hi);
    let j = choose|j: int| lo <= j < hi && range_best(z, c, i, lo, hi) == #[trigger] monge_value(z, c, j) + c(j, i);
    assert(monge_value(z, c, x) + c(x, i) <= monge_value(z, c, j) + c(j, i));
    assert(range_best(z, c, i, lo, hi) <= monge_value(z, c, x) + c(x, i));
}

/// `i64` is totally ordered by its comparison, and `less` is `<`.
proof fn lemma_i64_order()
    ensures
        total_preorder::<i64>(),
        forall|x: i64, y: i64| #[trigger] less(x, y) <==> x < y,
{
}

/// The block `A[ii][jj] = dp(l + jj) + c(l + jj, m + ii)` of a Monge cost is monotone.
proof fn lemma_block_monotone(z: int, c: spec_fn(int, int) -> int, n: int, l: int, m: int, r: int)
    requires
        is_monge(c, n),
        monge_fits(z, c, n),
        0 <= l < m < r <= n,
    ensures
        is_monotone(block_matrix(z, c, l, m), r - m, m - l),
{
    let a = block_matrix(z, c, l, m);
    lemma_i64_order();
    assert forall|i1: int, i2: int, j1: int, j2: int|
        0 <= i1 < i2 < r - m && #[trigger] is_leftmost_min(a, i1, m - l, j1) && #[trigger] is_leftmost_min(
            a,
            i2,
            m - l,
            j2,
        ) implies j1 <= j2 by {
        if j2 < j1 {
            let (ja, jb, ia, ib) = (l + j2, l + j1, m + i1, m + i2);
            assert(less(a(i1, j1), a(i1, j2)));
            assert(!less(a(i2, j1), a(i2, j2)));
            assert(0 <= ja < jb < ia < ib < n);
            assert(c(ja, ia) + c(jb, ib) <= c(jb, ia) + c(ja, ib));
            assert(a(i1, j1) == monge_value(z, c, jb) + c(jb, ia));
            assert(a(i1, j2) == monge_value(z, c, ja) + c(ja, ia));
            assert(a(i2, j1) == monge_value(z, c, jb) + c(jb, ib));
            assert(a(i2, j2) == monge_value(z, c, ja) + c(ja, ib));
        }
    }
}

/// The block `A[ii][jj] = dp(l + jj) + c(l + jj, m + ii)` as `i64` values.
pub open spec fn block_matrix(z: int, c: spec_fn(int, int) -> int, l: int, m: int) -> spec_fn(int, int) -> i64 {
    |ii: int, jj: int| (monge_value(z, c, l + jj) + c(l + jj, m + ii)) as i64
}

/// `dp(j)` fits in `i64` for `j < n`.
proof fn lemma_value_fits(z: int, c: spec_fn(int, int) -> int, n: int, j: int)
    requires
        monge_fits(z, c, n),
        0 <= j < n,
    ensures
        i64::MIN <= monge_value(z, c, j) <= i64::MAX,
{
    if j > 0 {
        lemma_range_best(z, c, j, 0, j);
        let k = choose|k: int| 0 <= k < j && range_best(z, c, j, 0, j) == #[trigger] monge_value(z, c, k) + c(k, j);
        assert(i64::MIN <= monge_value(z, c, k) + c(k, j) <= i64::MAX);
    }
}

/// `range_best(i, lo, hi)` fits in `i64` for `i < n`.
proof fn lemma_range_fits(z: int, c: spec_fn(int, int) -> int, n: int, i: int, lo: int, hi: int)
    requires
        monge_fits(z, c, n),
        0 <= lo < hi <= i < n,
    ensures
        i64::MIN <= range_best(z, c, i, lo, hi) <= i64::MAX,
{
    lemma_range_best(z, c, i, lo, hi);
    let k = choose|k: int| lo <= k < hi && range_best(z, c, i, lo, hi) == #[trigger] monge_value(z, c, k) + c(k, i);
    assert(i64::MIN <= monge_value(z, c, k) + c(k, i) <= i64::MAX);
}

/// Relaxes `dp[i]` for `i` in `[m, r)` by the block `[l, m) x [m, r)`, whose rows are monotone for a
/// Monge cost: `dp[i]` becomes `min_{j < m} (dp(j) + c(j, i))`.
fn monge_contribute<F: Fn(usize, usize) -> i64>(
    l: usize,
    m: usize,
    r: usize,
    dp: &mut Vec<Option<i64>>,
    cost: &F,
    Ghost(z): Ghost<int>,
    Ghost(n): Ghost<nat>,
    Ghost(c0): Ghost<spec_fn(int, int) -> int>,
)
    requires
        l < m < r <= n,
        old(dp)@.len() == n,
        monge_cost(*cost, n, z, c0),
        forall|c: spec_fn(int, int) -> int, j: int|
            #![trigger monge_cost(*cost, n, z, c), old(dp)@[j]]
            monge_cost(*cost, n, z, c) && l <= j < m ==> old(dp)@[j] == Some(monge_value(z, c, j) as i64),
        forall|c: spec_fn(int, int) -> int, i: int|
            #![trigger monge_cost(*cost, n, z, c), old(dp)@[i]]
            monge_cost(*cost, n, z, c) && m <= i < r ==> old(dp)@[i] == if l == 0 {
                None
            } else {
                Some(range_best(z, c, i, 0, l as int) as i64)
            },
    ensures
        final(dp)@.len() == n,
        forall|i: int| 0 <= i < n && !(m <= i < r) ==> #[trigger] final(dp)@[i] == old(dp)@[i],
        forall|c: spec_fn(int, int) -> int, i: int|
            #![trigger monge_cost(*cost, n, z, c), final(dp)@[i]]
            monge_cost(*cost, n, z, c) && m <= i < r ==> final(dp)@[i] == Some(range_best(z, c, i, 0, m as int) as i64),
{
    let rows = r - m;
    let cols = m - l;
    let argmin;
    {
        let d = &*dp;
        let f = move |ii: usize, jj: usize| -> (v: i64)
            requires
                l + jj < m,
                m + ii < r,
                l + jj < d@.len(),
                m + ii < d@.len(),
                d@[l + jj] is Some,
                cost.requires(((l + jj) as usize, (m + ii) as usize)),
                forall|w: i64| #[trigger] cost.ensures(((l + jj) as usize, (m + ii) as usize), w) ==> i64::MIN <= d@[l + jj]->0 + w
                    <= i64::MAX,
            ensures
                exists|w: i64| #[trigger] cost.ensures(((l + jj) as usize, (m + ii) as usize), w) && v == d@[l + jj]->0 + w,
            {
                let x = d[l + jj].unwrap();
                let w = cost(l + jj, m + ii);
                x + w
            };
        proof {
            lemma_i64_order();
            assert forall|ii: usize, jj: usize| ii < rows && jj < cols implies #[trigger] f.requires((ii, jj)) by {
                let (j, i) = ((l + jj) as usize, (m + ii) as usize);
                assert(d@[j as int] == Some(monge_value(z, c0, j as int) as i64));
                lemma_value_fits(z, c0, n as int, j as int);
                assert(cost.requires((j, i)));
                assert forall|w: i64| #[trigger] cost.ensures((j, i), w) implies i64::MIN <= d@[j as int]->0 + w
                    <= i64::MAX by {
                    assert(w == c0(j as int, i as int));
                    assert(i64::MIN <= monge_value(z, c0, j as int) + c0(j as int, i as int) <= i64::MAX);
                }
            }
        }
        argmin = monotone_minima(rows, cols, f);
        proof {
            assert forall|c: spec_fn(int, int) -> int| #[trigger] monge_cost(*cost, n, z, c) implies computes_monotone(
                f,
                rows as nat,
                cols as nat,
                block_matrix(z, c, l as int, m as int),
            ) by {
                let a = block_matrix(z, c, l as int, m as int);
                assert forall|ii: usize, jj: usize, v: i64|
                    ii < rows && jj < cols && #[trigger] f.ensures((ii, jj), v) implies v == a(ii as int, jj as int) by {
                    let (j, i) = ((l + jj) as usize, (m + ii) as usize);
                    let w = choose|w: i64| #[trigger] cost.ensures((j, i), w) && v == d@[j as int]->0 + w;
                    assert(w == c(j as int, i as int));
                    assert(d@[j as int] == Some(monge_value(z, c, j as int) as i64));
                    lemma_value_fits(z, c, n as int, j as int);
                    assert(i64::MIN <= monge_value(z, c, j as int) + c(j as int, i as int) <= i64::MAX);
                }
                lemma_block_monotone(z, c, n as int, l as int, m as int, r as int);
            }
        }
    }
    let ghost start = dp@;
    let mut ii: usize = 0;
    while ii < rows
        invariant
            l < m < r <= n,
            rows == r - m,
            ii <= rows,
            cols == m - l,
            dp@.len() == n,
            start.len() == n,
            start == old(dp)@,
            monge_cost(*cost, n, z, c0),
            argmin@.len() == rows,
            forall|c: spec_fn(int, int) -> int, i: int|
                #![trigger monge_cost(*cost, n, z, c), argmin@[i]]
                monge_cost(*cost, n, z, c) && 0 <= i < rows ==> is_leftmost_min(
                    block_matrix(z, c, l as int, m as int),
                    i,
                    cols as int,
                    argmin@[i] as int,
                ),
            forall|c: spec_fn(int, int) -> int, j: int|
                #![trigger monge_cost(*cost, n, z, c), start[j]]
                monge_cost(*cost, n, z, c) && l <= j < m ==> start[j] == Some(monge_value(z, c, j) as i64),
            forall|c: spec_fn(int, int) -> int, i: int|
                #![trigger monge_cost(*cost, n, z, c), start[i]]
                monge_cost(*cost, n, z, c) && m <= i < r ==> start[i] == if l == 0 {
                    None
                } else {
                    Some(range_best(z, c, i, 0, l as int) as i64)
                },
            forall|i: int| 0 <= i < n && !(m <= i < m + ii) ==> #[trigger] dp@[i] == start[i],
            forall|c: spec_fn(int, int) -> int, i: int|
                #![trigger monge_cost(*cost, n, z, c), dp@[i]]
                monge_cost(*cost, n, z, c) && m <= i < m + ii ==> dp@[i] == Some(range_best(z, c, i, 0, m as int) as i64),
        decreases rows - ii,
    {
        let i = m + ii;
        proof {
            assert(argmin@[ii as int] < cols) by {
                let a = block_matrix(z, c0, l as int, m as int);
                assert(is_leftmost_min(a, ii as int, cols as int, argmin@[ii as int] as int));
            }
        }
        let j = l + argmin[ii];
        proof {
            assert(dp@[j as int] == start[j as int]);
            assert(start[j as int] == Some(monge_value(z, c0, j as int) as i64));
            lemma_value_fits(z, c0, n as int, j as int);
        }
        let x = dp[j].unwrap();
        let w = cost(j, i);
        proof {
            assert(w == c0(j as int, i as int));
            assert(i64::MIN <= monge_value(z, c0, j as int) + c0(j as int, i as int) <= i64::MAX);
        }
        let v = x + w;
        let better = match dp[i] {
            None => true,
            Some(cur) => v < cur,
        };
        let ghost before = dp@;
        if better {
            dp.set(i, Some(v));
        }
        proof {
            assert forall|c: spec_fn(int, int) -> int, k: int|
                #![trigger monge_cost(*cost, n, z, c), dp@[k]]
                monge_cost(*cost, n, z, c) && m <= k < m + ii + 1 implies dp@[k] == Some(
                    range_best(z, c, k, 0, m as int) as i64,
                ) by {
                if k == i {
                    let a = block_matrix(z, c, l as int, m as int);
                    assert(is_leftmost_min(a, ii as int, cols as int, argmin@[ii as int] as int));
                    assert(w == c(j as int, i as int));
                    assert(start[j as int] == Some(monge_value(z, c, j as int) as i64));
                    lemma_value_fits(z, c, n as int, j as int);
                    assert(i64::MIN <= monge_value(z, c, j as int) + c(j as int, i as int) <= i64::MAX);
                    assert(v == monge_value(z, c, j as int) + c(j as int, i as int));
                    lemma_i64_order();
                    assert forall|q: int| l <= q < m implies monge_value(z, c, j as int) + c(j as int, i as int)
                        <= #[trigger] monge_value(z, c, q) + c(q, i as int) by {
                        let kk = q - l;
                        assert(!less(a(ii as int, kk), a(ii as int, j - l)));
                        lemma_value_fits(z, c, n as int, q);
                        assert(i64::MIN <= monge_value(z, c, q) + c(q, i as int) <= i64::MAX);
                        assert(a(ii as int, kk) == monge_value(z, c, q) + c(q, i as int));
                    }
                    lemma_range_attained(z, c, i as int, l as int, m as int, j as int);
                    assert(before[k] == start[k]);
                    if l > 0 {
                        lemma_range_split(z, c, i as int, 0, l as int, m as int);
                        lemma_range_fits(z, c, n as int, i as int, 0, l as int);
                        lemma_range_fits(z, c, n as int, i as int, 0, m as int);
                    } else {
                        lemma_range_fits(z, c, n as int, i as int, 0, m as int);
                    }
                } else {
                    assert(dp@[k] == before[k]);
                }
            }
        }
        ii = ii + 1;
    }
}

/// Computes `dp(i)` for `i` in `[l, r)`, in the order of the divide and conquer of CDQ, given
/// `dp(j)` for `j < l` and `dp[i] = min_{j < l} (dp(j) + c(j, i))` for `i` in `[l, r)`.
fn monge_rec<F: Fn(usize, usize) -> i64>(
    l: usize,
    r: usize,
    dp: &mut Vec<Option<i64>>,
    cost: &F,
    Ghost(z): Ghost<int>,
    Ghost(n): Ghost<nat>,
    Ghost(c0): Ghost<spec_fn(int, int) -> int>,
)
    requires
        l < r <= n,
        old(dp)@.len() == n,
        monge_cost(*cost, n, z, c0),
        forall|c: spec_fn(int, int) -> int, j: int|
            #![trigger monge_cost(*cost, n, z, c), old(dp)@[j]]
            monge_cost(*cost, n, z, c) && 0 <= j < l ==> old(dp)@[j] == Some(monge_value(z, c, j) as i64),
        forall|c: spec_fn(int, int) -> int, i: int|
            #![trigger monge_cost(*cost, n, z, c), old(dp)@[i]]
            monge_cost(*cost, n, z, c) && l <= i < r ==> old(dp)@[i] == if i == 0 {
                Some(z as i64)
            } else if l == 0 {
                None
            } else {
                Some(range_best(z, c, i, 0, l as int) as i64)
            },
    ensures
        final(dp)@.len() == n,
        forall|i: int| 0 <= i < n && !(l <= i < r) ==> #[trigger] final(dp)@[i] == old(dp)@[i],
        forall|c: spec_fn(int, int) -> int, i: int|
            #![trigger monge_cost(*cost, n, z, c), final(dp)@[i]]
            monge_cost(*cost, n, z, c) && l <= i < r ==> final(dp)@[i] == Some(monge_value(z, c, i) as i64),
    decreases r - l,
{
    if r - 1 == l {
        return;
    }
    let m = l + (r - l) / 2;
    let ghost d0 = dp@;
    monge_rec(l, m, dp, cost, Ghost(z), Ghost(n), Ghost(c0));
    let ghost d1 = dp@;
    proof {
        assert forall|c: spec_fn(int, int) -> int, i: int|
            #![trigger monge_cost(*cost, n, z, c), d1[i]]
            monge_cost(*cost, n, z, c) && m <= i < r implies d1[i] == if l == 0 {
                None
            } else {
                Some(range_best(z, c, i, 0, l as int) as i64)
            } by {
            assert(d1[i] == d0[i]);
            assert(d0[i] == old(dp)@[i]);
        }
        assert forall|c: spec_fn(int, int) -> int, j: int|
            #![trigger monge_cost(*cost, n, z, c), d1[j]]
            monge_cost(*cost, n, z, c) && l <= j < m implies d1[j] == Some(monge_value(z, c, j) as i64) by {}
    }
    monge_contribute(l, m, r, dp, cost, Ghost(z), Ghost(n), Ghost(c0));
    let ghost d2 = dp@;
    proof {
        assert forall|c: spec_fn(int, int) -> int, j: int|
            #![trigger monge_cost(*cost, n, z, c), d2[j]]
            monge_cost(*cost, n, z, c) && 0 <= j < m implies d2[j] == Some(monge_value(z, c, j) as i64) by {
            assert(d2[j] == d1[j]);
            if j < l {
                assert(d1[j] == d0[j]);
                assert(d0[j] == old(dp)@[j]);
            }
        }
        assert forall|c: spec_fn(int, int) -> int, i: int|
            #![trigger monge_cost(*cost, n, z, c), d2[i]]
            monge_cost(*cost, n, z, c) && m <= i < r implies d2[i] == if i == 0 {
                Some(z as i64)
            } else if m == 0 {
                None
            } else {
                Some(range_best(z, c, i, 0, m as int) as i64)
            } by {}
    }
    monge_rec(m, r, dp, cost, Ghost(z), Ghost(n), Ghost(c0));
    proof {
        assert forall|i: int| 0 <= i < n && !(l <= i < r) implies #[trigger] dp@[i] == old(dp)@[i] by {
            assert(dp@[i] == d2[i]);
            assert(d2[i] == d1[i]);
            assert(d1[i] == d0[i]);
        }
        assert forall|c: spec_fn(int, int) -> int, i: int|
            #![trigger monge_cost(*cost, n, z, c), dp@[i]]
            monge_cost(*cost, n, z, c) && l <= i < r implies dp@[i] == Some(monge_value(z, c, i) as i64) by {
            if i < m {
                assert(dp@[i] == d2[i]);
            }
        }
    }
}

/// The shortest distances from `0` in the DAG on `[0, n)` with the edges `j -> i` for `j < i` of a
/// Monge cost: `dp[0] = zero` and `dp[i] = min_{j < i} (dp[j] + cost(j, i))` for `1 <= i < n`;
/// empty for `n = 0`. The matrix `C[i][j] = cost(j, i)` is Monge, so the rows of each block of the
/// divide and conquer of CDQ are monotone and their minima come from `monotone_minima`. The result
/// is that of every Monge cost `c` that `cost` computes and under which no sum overflows.
pub fn monge_dp<F: Fn(usize, usize) -> i64>(n: usize, zero: i64, cost: F) -> (dp: Vec<i64>)
    requires
        exists|c: spec_fn(int, int) -> int| monge_cost(cost, n as nat, zero as int, c),
    ensures
        dp@.len() == n,
        forall|c: spec_fn(int, int) -> int, i: int|
            #![trigger monge_cost(cost, n as nat, zero as int, c), dp@[i]]
            monge_cost(cost, n as nat, zero as int, c) && 0 <= i < n ==> dp@[i] == monge_value(zero as int, c, i),
{
    let ghost z = zero as int;
    let ghost c0 = choose|c: spec_fn(int, int) -> int| monge_cost(cost, n as nat, z, c);
    let mut dp: Vec<Option<i64>> = Vec::new();
    let mut k: usize = 0;
    while k < n
        invariant
            k <= n,
            dp@.len() == k,
            forall|j: int| 0 <= j < k ==> #[trigger] dp@[j] is None,
        decreases n - k,
    {
        dp.push(None);
        k = k + 1;
    }
    if n > 0 {
        dp.set(0, Some(zero));
        monge_rec(0, n, &mut dp, &cost, Ghost(z), Ghost(n as nat), Ghost(c0));
    }
    let mut out: Vec<i64> = Vec::new();
    let mut i: usize = 0;
    while i < n
        invariant
            i <= n,
            dp@.len() == n,
            out@.len() == i,
            monge_cost(cost, n as nat, z, c0),
            forall|c: spec_fn(int, int) -> int, j: int|
                #![trigger monge_cost(cost, n as nat, z, c), dp@[j]]
                monge_cost(cost, n as nat, z, c) && 0 <= j < n ==> dp@[j] == Some(monge_value(z, c, j) as i64),
            forall|c: spec_fn(int, int) -> int, j: int|
                #![trigger monge_cost(cost, n as nat, z, c), out@[j]]
                monge_cost(cost, n as nat, z, c) && 0 <= j < i ==> out@[j] == monge_value(z, c, j),
        decreases n - i,
    {
        proof {
            assert(dp@[i as int] == Some(monge_value(z, c0, i as int) as i64));
        }
        let x = dp[i].unwrap();
        out.push(x);
        proof {
            assert forall|c: spec_fn(int, int) -> int, j: int|
                #![trigger monge_cost(cost, n as nat, z, c), out@[j]]
                monge_cost(cost, n as nat, z, c) && 0 <= j < i + 1 implies out@[j] == monge_value(z, c, j) by {
                lemma_value_fits(z, c, n as int, j);
                if j == i {
                    assert(dp@[j] == Some(monge_value(z, c, j) as i64));
                }
            }
        }
        i = i + 1;
    }
    out
}

} // verus!
