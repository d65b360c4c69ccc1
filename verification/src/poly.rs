//! Polynomials over a semiring, as their coefficients from the constant one up.
use crate::algebra::Semiring;
use vstd::prelude::*;

pub mod calculus;
pub mod evaluation;
pub mod geometric;
pub mod geometric_law;
pub mod interpolation;
pub mod subproduct_tree;
pub mod taylor_shift;

verus! {

/// The sum `Σ_{i < m, 0 <= k - i < g.len()} f[i] g[k - i]` of the products of the coefficients
/// of `f` and `g` whose degrees add up to `k`, over the first `m` coefficients of `f`.
pub open spec fn conv_upto<R: Semiring>(r: R, f: Seq<R::Value>, g: Seq<R::Value>, k: int, m: int) -> R::Value
    decreases m,
{
    if m <= 0 {
        r.szero()
    } else if 0 <= k - (m - 1) < g.len() {
        r.sadd(conv_upto(r, f, g, k, m - 1), r.smul(f[m - 1], g[k - (m - 1)]))
    } else {
        conv_upto(r, f, g, k, m - 1)
    }
}

/// The coefficient `(fg)(k) = Σ_{i+j=k} f(i) g(j)` of the product.
pub open spec fn conv_coef<R: Semiring>(r: R, f: Seq<R::Value>, g: Seq<R::Value>, k: int) -> R::Value {
    conv_upto(r, f, g, k, f.len() as int)
}

/// Every coefficient is valid.
pub open spec fn all_valid<R: Semiring>(r: R, p: Seq<R::Value>) -> bool {
    forall|i: int| 0 <= i < p.len() ==> r.valid(#[trigger] p[i])
}

/// The first `len` coefficients of `fg`, by the schoolbook product in O(len · m).
pub(crate) fn conv_prefix<R: Semiring>(ring: &R, f: &[R::Value], g: &[R::Value], len: usize) -> (h: Vec<R::Value>)
    requires
        all_valid(*ring, f@),
        all_valid(*ring, g@),
    ensures
        h@.len() == len,
        forall|k: int| 0 <= k < len ==> #[trigger] h@[k] == conv_coef(*ring, f@, g@, k),
        all_valid(*ring, h@),
{
    let mut h: Vec<R::Value> = Vec::new();
    let mut k: usize = 0;
    while k < len
        invariant
            k <= len,
            h@.len() == k,
            forall|x: int| 0 <= x < k ==> #[trigger] h@[x] == ring.szero(),
            all_valid(*ring, h@),
        decreases len - k,
    {
        h.push(ring.zero());
        k = k + 1;
    }
    let m = f.len();
    let mut i: usize = 0;
    while i < m
        invariant
            i <= m,
            m == f@.len(),
            h@.len() == len,
            all_valid(*ring, f@),
            all_valid(*ring, g@),
            all_valid(*ring, h@),
            forall|x: int| 0 <= x < len ==> #[trigger] h@[x] == conv_upto(*ring, f@, g@, x, i as int),
        decreases m - i,
    {
        let gl = g.len();
        let mut j: usize = 0;
        while j < gl && i < len && j < len - i
            invariant
                j <= gl,
                i < m,
                m == f@.len(),
                gl == g@.len(),
                h@.len() == len,
                all_valid(*ring, f@),
                all_valid(*ring, g@),
                all_valid(*ring, h@),
                forall|x: int|
                    0 <= x < len ==> #[trigger] h@[x] == if i <= x < i + j {
                        conv_upto(*ring, f@, g@, x, i + 1)
                    } else {
                        conv_upto(*ring, f@, g@, x, i as int)
                    },
            decreases gl - j,
        {
            let t = ring.mul(&f[i], &g[j]);
            let v = ring.add(&h[i + j], &t);
            h.set(i + j, v);
            j = j + 1;
        }
        proof {
            assert forall|x: int| 0 <= x < len implies #[trigger] h@[x] == conv_upto(*ring, f@, g@, x, i + 1) by {
                if !(i <= x < i + j) {
                    assert(!(0 <= x - i < g@.len()));
                }
            }
        }
        i = i + 1;
    }
    h
}

/// The product of `f` and `g`: `(fg)(k) = Σ_{i+j=k} f(i) g(j)` for `k` in `[0, n + m - 1)`, empty
/// if either is; by the schoolbook product in O(nm).
pub fn poly_convolve<R: Semiring>(ring: &R, f: Vec<R::Value>, g: Vec<R::Value>) -> (h: Vec<R::Value>)
    requires
        all_valid(*ring, f@),
        all_valid(*ring, g@),
        f@.len() + g@.len() <= usize::MAX,
    ensures
        h@.len() == if f@.len() == 0 || g@.len() == 0 {
            0
        } else {
            f@.len() + g@.len() - 1
        },
        forall|k: int| 0 <= k < h@.len() ==> #[trigger] h@[k] == conv_coef(*ring, f@, g@, k),
{
    if f.len() == 0 || g.len() == 0 {
        return Vec::new();
    }
    let len = f.len() + g.len() - 1;
    conv_prefix(ring, f.as_slice(), g.as_slice(), len)
}

} // verus!
