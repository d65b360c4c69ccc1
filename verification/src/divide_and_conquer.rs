//! The order of the divide and conquer of CDQ over `[0, n)`.
use vstd::prelude::*;

verus! {

/// A step of the divide and conquer: the contribution of the block `[lo, mid) x [mid, hi)`, or the
/// finishing of the index `index`.
#[derive(Clone, Copy, Debug, PartialEq, Eq)]
pub enum CdqStep {
    Contribute { lo: usize, mid: usize, hi: usize },
    Finish { index: usize },
}

/// `st` finishes `i`.
pub open spec fn finishes(st: CdqStep, i: int) -> bool {
    st matches CdqStep::Finish { index } && index == i
}

/// `st` is the contribution of a block holding the pair `(i, j)`: `lo <= i < mid <= j < hi`.
pub open spec fn covers(st: CdqStep, i: int, j: int) -> bool {
    st matches CdqStep::Contribute { lo, mid, hi } && lo <= i < mid && mid <= j < hi
}

/// `st` stays within `[l, r)`: a block `l <= lo < mid < hi <= r`, or an index in `[l, r)`.
pub open spec fn within(st: CdqStep, l: int, r: int) -> bool {
    match st {
        CdqStep::Contribute { lo, mid, hi } => l <= lo < mid < hi <= r,
        CdqStep::Finish { index } => l <= index < r,
    }
}

/// Some step of `b` finishes `i`.
pub open spec fn finished(b: Seq<CdqStep>, i: int) -> bool {
    exists|p: int| 0 <= p < b.len() && #[trigger] finishes(b[p], i)
}

/// Some step of `b` is a block holding the pair `(i, j)`.
pub open spec fn covered(b: Seq<CdqStep>, i: int, j: int) -> bool {
    exists|p: int| 0 <= p < b.len() && #[trigger] covers(b[p], i, j)
}

/// `b` is a schedule of the divide and conquer over `[l, r)`: the indices `l, ..., r - 1` are
/// finished once each, in this order; every pair `i < j` of `[l, r)` lies in exactly one block;
/// and each block comes after the finishing of each index of its first part `[lo, mid)` and
/// before that of each index of its second part `[mid, hi)`.
pub open spec fn cdq_schedule(b: Seq<CdqStep>, l: int, r: int) -> bool {
    &&& forall|p: int| 0 <= p < b.len() ==> within(#[trigger] b[p], l, r)
    &&& forall|p: int, q: int, x: int, y: int|
        0 <= p < q < b.len() && #[trigger] finishes(b[p], x) && #[trigger] finishes(b[q], y) ==> x < y
    &&& forall|i: int| l <= i < r ==> #[trigger] finished(b, i)
    &&& forall|i: int, j: int| l <= i < j < r ==> #[trigger] covered(b, i, j)
    &&& forall|p: int, q: int, i: int, j: int|
        0 <= p < b.len() && 0 <= q < b.len() && #[trigger] covers(b[p], i, j) && #[trigger] covers(b[q], i, j)
            ==> p == q
    &&& forall|p: int, q: int, x: int|
        #![trigger finishes(b[q], x), b[p]]
        0 <= p < b.len() && 0 <= q < b.len() && finishes(b[q], x) && (b[p] matches CdqStep::Contribute {
            lo,
            mid,
            hi,
        } && lo <= x < hi) ==> (q < p <==> x < b[p]->mid)
}

/// The schedule over `[l, r)`: `[l, r - 1)` split at its middle `m`, the schedule of `[l, m)`, the
/// block `[l, m) x [m, r)`, and the schedule of `[m, r)`.
pub open spec fn cdq_steps(l: int, r: int) -> Seq<CdqStep>
    decreases r - l,
{
    if r - l <= 1 {
        seq![CdqStep::Finish { index: l as usize }]
    } else {
        let m = l + (r - l) / 2;
        cdq_steps(l, m) + seq![CdqStep::Contribute { lo: l as usize, mid: m as usize, hi: r as usize }]
            + cdq_steps(m, r)
    }
}

/// The schedule of `[l, r)` has the properties of a schedule.
proof fn lemma_cdq_steps(l: int, r: int)
    requires
        0 <= l < r <= usize::MAX,
    ensures
        cdq_schedule(cdq_steps(l, r), l, r),
    decreases r - l,
{
    let b = cdq_steps(l, r);
    if r - l <= 1 {
        assert(finishes(b[0], l));
        assert(finished(b, l));
    } else {
        let m = l + (r - l) / 2;
        lemma_cdq_steps(l, m);
        lemma_cdq_steps(m, r);
        let x = cdq_steps(l, m);
        let y = cdq_steps(m, r);
        let c = CdqStep::Contribute { lo: l as usize, mid: m as usize, hi: r as usize };
        let a = x.len() as int;
        assert(b == x + seq![c] + y);
        assert forall|p: int| 0 <= p < b.len() implies #[trigger] b[p] == if p < a {
            x[p]
        } else if p == a {
            c
        } else {
            y[p - a - 1]
        } by {}
        assert forall|p: int| 0 <= p < b.len() implies within(#[trigger] b[p], l, r) by {
            if p < a {
                assert(within(x[p], l, m));
            } else if p > a {
                assert(within(y[p - a - 1], m, r));
            }
        }
        assert forall|p: int, q: int, u: int, v: int|
            0 <= p < q < b.len() && #[trigger] finishes(b[p], u) && #[trigger] finishes(b[q], v) implies u < v by {
            if q < a {
                assert(finishes(x[p], u) && finishes(x[q], v));
            } else if p > a {
                assert(finishes(y[p - a - 1], u) && finishes(y[q - a - 1], v));
            } else if p < a && q > a {
                assert(within(x[p], l, m));
                assert(within(y[q - a - 1], m, r));
            }
        }
        assert forall|i: int| l <= i < r implies #[trigger] finished(b, i) by {
            if i < m {
                assert(finished(x, i));
                let p = choose|p: int| 0 <= p < x.len() && #[trigger] finishes(x[p], i);
                assert(finishes(b[p], i));
            } else {
                assert(finished(y, i));
                let p = choose|p: int| 0 <= p < y.len() && #[trigger] finishes(y[p], i);
                assert(finishes(b[p + a + 1], i));
            }
        }
        assert forall|i: int, j: int| l <= i < j < r implies #[trigger] covered(b, i, j) by {
            if j < m {
                assert(covered(x, i, j));
                let p = choose|p: int| 0 <= p < x.len() && #[trigger] covers(x[p], i, j);
                assert(covers(b[p], i, j));
            } else if i >= m {
                assert(covered(y, i, j));
                let p = choose|p: int| 0 <= p < y.len() && #[trigger] covers(y[p], i, j);
                assert(covers(b[p + a + 1], i, j));
            } else {
                assert(covers(b[a], i, j));
            }
        }
        assert forall|p: int, q: int, i: int, j: int|
            0 <= p < b.len() && 0 <= q < b.len() && #[trigger] covers(b[p], i, j) && #[trigger] covers(b[q], i, j)
                implies p == q by {
            if p < a {
                assert(within(x[p], l, m) && covers(x[p], i, j));
            } else if p > a {
                assert(within(y[p - a - 1], m, r) && covers(y[p - a - 1], i, j));
            }
            if q < a {
                assert(within(x[q], l, m) && covers(x[q], i, j));
            } else if q > a {
                assert(within(y[q - a - 1], m, r) && covers(y[q - a - 1], i, j));
            }
            if p < a && q < a {
                assert(covers(x[p], i, j) && covers(x[q], i, j));
            }
            if p > a && q > a {
                assert(covers(y[p - a - 1], i, j) && covers(y[q - a - 1], i, j));
            }
        }
        assert forall|p: int, q: int, v: int|
            #![trigger finishes(b[q], v), b[p]]
            0 <= p < b.len() && 0 <= q < b.len() && finishes(b[q], v) && (b[p] matches CdqStep::Contribute {
                lo,
                mid,
                hi,
            } && lo <= v < hi) implies (q < p <==> v < b[p]->mid) by {
            if q < a {
                assert(within(x[q], l, m) && finishes(x[q], v));
            } else if q > a {
                assert(within(y[q - a - 1], m, r) && finishes(y[q - a - 1], v));
            }
            if p < a {
                assert(within(x[p], l, m));
                if q < a {
                    assert(finishes(x[q], v));
                }
            } else if p > a {
                assert(within(y[p - a - 1], m, r));
                if q > a {
                    assert(finishes(y[q - a - 1], v));
                    assert(q - a - 1 < p - a - 1 <==> q < p);
                }
            }
        }
    }
}

/// Appends the schedule of `[l, r)`.
fn cdq_rec(l: usize, r: usize, steps: &mut Vec<CdqStep>)
    requires
        l < r,
    ensures
        final(steps)@ == old(steps)@ + cdq_steps(l as int, r as int),
    decreases r - l,
{
    if r - 1 == l {
        steps.push(CdqStep::Finish { index: l });
        return;
    }
    let m = l + (r - l) / 2;
    cdq_rec(l, m, steps);
    steps.push(CdqStep::Contribute { lo: l, mid: m, hi: r });
    cdq_rec(m, r, steps);
    proof {
        let c = CdqStep::Contribute { lo: l, mid: m, hi: r };
        assert(cdq_steps(l as int, r as int) == cdq_steps(l as int, m as int) + seq![c] + cdq_steps(
            m as int,
            r as int,
        ));
        assert(steps@ =~= old(steps)@ + cdq_steps(l as int, r as int));
    }
}

/// The steps of the divide and conquer of CDQ over `[0, n)`, in order: the finishing of `i` for
/// `i = 0, 1, ..., n - 1` in this order, interleaved with the contributions of blocks
/// `[l, m) x [m, r)` with `l < m < r <= n`, so that every pair `i < j` lies in exactly one block,
/// each block coming after the finishing of every index of `[l, m)` and before that of every index
/// of `[m, r)`. Nothing for `n = 0`. There are `n - 1` blocks, whose widths sum to O(n log n).
pub fn cdq(n: usize) -> (steps: Vec<CdqStep>)
    ensures
        cdq_schedule(steps@, 0, n as int),
        n == 0 ==> steps@.len() == 0,
{
    let mut steps: Vec<CdqStep> = Vec::new();
    if n > 0 {
        cdq_rec(0, n, &mut steps);
        proof {
            lemma_cdq_steps(0, n as int);
            assert(steps@ =~= cdq_steps(0, n as int));
        }
    }
    steps
}

} // verus!
