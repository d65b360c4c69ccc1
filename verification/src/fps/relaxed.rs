//! Power series defined coefficient by coefficient from the ones before.
use crate::algebra::Semiring;
use crate::fps::elementary::{lemma_tail_sum_prefix, series_coef, tail_sum};
use crate::poly::all_valid;
use vstd::prelude::*;

verus! {

/// The solution `f` of `f(i) = step(i, Σ_{j=1,...,i} g(j) f(i - j))` for `0 <= i < n`, the sum
/// being the coefficient of `x^i` in `f g` without the term `g(0) f(i)`, with `g(j) = 0` past the
/// end of `g`. `step` is called for `i = 0, 1, ..., n - 1` in this order, each sum computed
/// directly, in O(n^2) and `n` calls of `step`.
pub fn semi_relaxed<R: Semiring, S: Fn(usize, R::Value) -> R::Value>(
    ring: &R,
    g: &[R::Value],
    n: usize,
    step: S,
) -> (f: Vec<R::Value>)
    requires
        all_valid(*ring, g@),
        forall|i: usize, s: R::Value| i < n && ring.valid(s) ==> #[trigger] step.requires((i, s)),
        forall|i: usize, s: R::Value, r: R::Value| #[trigger] step.ensures((i, s), r) ==> ring.valid(r),
    ensures
        f@.len() == n,
        forall|i: int| 0 <= i < n ==> #[trigger] step.ensures((i as usize, tail_sum(*ring, g@, f@, i, i + 1)), f@[i]),
{
    let mut f: Vec<R::Value> = Vec::new();
    let zero = ring.zero();
    let mut i: usize = 0;
    while i < n
        invariant
            i <= n,
            all_valid(*ring, g@),
            zero == ring.szero(),
            ring.valid(zero),
            forall|k: usize, s: R::Value| k < n && ring.valid(s) ==> #[trigger] step.requires((k, s)),
            forall|k: usize, s: R::Value, r: R::Value| #[trigger] step.ensures((k, s), r) ==> ring.valid(r),
            f@.len() == i,
            all_valid(*ring, f@),
            forall|x: int| 0 <= x < i ==> #[trigger] step.ensures((x as usize, tail_sum(*ring, g@, f@, x, x + 1)), f@[x]),
        decreases n - i,
    {
        let mut s = ring.zero();
        let mut j: usize = 1;
        while j <= i
            invariant
                1 <= j <= i + 1,
                i < n,
                f@.len() == i,
                all_valid(*ring, g@),
                all_valid(*ring, f@),
                zero == ring.szero(),
                ring.valid(zero),
                ring.valid(s),
                s == tail_sum(*ring, g@, f@, i as int, j as int),
            decreases i + 1 - j,
        {
            let gj = if j < g.len() {
                ring.add(&g[j], &zero)
            } else {
                ring.add(&zero, &zero)
            };
            proof {
                if j < g@.len() {
                    ring.lemma_add_zero(g@[j as int]);
                } else {
                    ring.lemma_add_zero(zero);
                }
                assert(gj == series_coef(*ring, g@, j as int));
            }
            let t = ring.mul(&gj, &f[i - j]);
            s = ring.add(&s, &t);
            j = j + 1;
        }
        let v = step(i, s);
        let ghost old_f = f@;
        f.push(v);
        proof {
            assert forall|x: int, m: int| 0 <= x < i + 1 && 0 <= m <= x + 1 implies #[trigger] tail_sum(*ring, g@, f@, x, m) == tail_sum(*ring, g@, old_f, x, m) by {
                lemma_tail_sum_prefix(*ring, g@, old_f, f@, x, m);
            }
            assert forall|x: int| 0 <= x < i + 1 implies #[trigger] step.ensures((x as usize, tail_sum(*ring, g@, f@, x, x + 1)), f@[x]) by {
                assert(tail_sum(*ring, g@, f@, x, x + 1) == tail_sum(*ring, g@, old_f, x, x + 1));
                if x < i {
                    assert(f@[x] == old_f[x]);
                }
            }
        }
        i = i + 1;
    }
    f
}

} // verus!
