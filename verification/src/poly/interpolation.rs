//! The polynomial of least degree through given points.
use crate::algebra::{Field, Ring, Semiring};
use crate::poly::subproduct_tree::{
    add_multiple, distinct_points, eval_at, lemma_eval_add, lemma_eval_scale, lemma_eval_valid,
    lemma_eval_vanishing, lemma_point_product_nonzero, lemma_point_product_root, mul_linear,
    poly_eval, poly_scale, valid_poly, vanishing,
};
use vstd::prelude::*;

verus! {

/// The coefficients, `n` of them, of the polynomial `g` of degree less than `n = xs.len()` with
/// `g(xs[j]) = ys[j]`, for distinct points; built by Newton's divided differences in O(n^2).
pub fn poly_interpolate<F: Field>(ring: &F, xs: &[F::Value], ys: &[F::Value]) -> (g: Vec<F::Value>)
    requires
        ys@.len() == xs@.len(),
        valid_poly(*ring, xs@),
        valid_poly(*ring, ys@),
        distinct_points(xs@),
    ensures
        g@.len() == xs@.len(),
        forall|j: int|
            0 <= j < ys@.len() ==> #[trigger] poly_eval(*ring, g@, xs@[j]) == ys@[j],
{
        let n = xs.len();
        let mut g: Vec<F::Value> = Vec::new();
        let mut p: Vec<F::Value> = Vec::new();
        p.push(ring.one());
        let mut k: usize = 0;
        proof {
            assert(xs@.subrange(0, 0) =~= Seq::<F::Value>::empty());
        }
        while k < n
            invariant
                k <= n,
                n == xs@.len(),
                n == ys@.len(),
                valid_poly(*ring, xs@),
                valid_poly(*ring, ys@),
                distinct_points(xs@),
                p@ == vanishing(*ring, xs@.subrange(0, k as int)),
                valid_poly(*ring, p@),
                valid_poly(*ring, g@),
                g@.len() == k,
                p@.len() == k + 1,
                forall|j: int| 0 <= j < k ==> #[trigger] poly_eval(*ring, g@, xs@[j]) == ys@[j],
            decreases n - k,
        {
            let x = &xs[k];
            let ghost pre = xs@.subrange(0, k as int);
            let v = eval_at(ring, g.as_slice(), x);
            let w = eval_at(ring, p.as_slice(), x);
            proof {
                lemma_eval_vanishing(*ring, pre, *x);
                assert forall|i: int| 0 <= i < pre.len() implies pre[i] != *x by {
                    assert(xs@[i] != xs@[k as int]);
                }
                lemma_point_product_nonzero(*ring, pre, *x);
            }
            let winv = ring.inv(&w);
            let d = ring.add(&ys[k], &ring.neg(&v));
            let c = ring.mul(&d, &winv);
            let next_g = add_multiple(ring, &g, &c, &p);
            let next_p = mul_linear(ring, &p, x);
            proof {
                let y = ys@[k as int];
                assert forall|j: int| 0 <= j <= k implies #[trigger] poly_eval(*ring, next_g@, xs@[j]) == ys@[j] by {
                    let xj = xs@[j];
                    assert(valid_poly(*ring, poly_scale(*ring, c, p@))) by {
                        assert forall|i: int| 0 <= i < p@.len() implies ring.valid(#[trigger] poly_scale(*ring, c, p@)[i]) by {
                            ring.lemma_closed(c, p@[i]);
                        }
                    }
                    lemma_eval_add(*ring, g@, poly_scale(*ring, c, p@), xj);
                    lemma_eval_scale(*ring, c, p@, xj);
                    lemma_eval_valid(*ring, g@, xj);
                    if j < k {
                        lemma_eval_vanishing(*ring, pre, xj);
                        assert(xj == pre[j]);
                        lemma_point_product_root(*ring, pre, j);
                        ring.lemma_mul_zero(c);
                        ring.lemma_add_zero(ys@[j]);
                    } else {
                        ring.lemma_add_neg(v);
                        ring.lemma_inv(w);
                        ring.lemma_mul_assoc(d, winv, w);
                        ring.lemma_mul_comm(winv, w);
                        ring.lemma_mul_one(d);
                        ring.lemma_mul_comm(c, w);
                        ring.lemma_add_comm(v, d);
                        ring.lemma_add_assoc(y, ring.sneg(v), v);
                        ring.lemma_add_comm(ring.sneg(v), v);
                        ring.lemma_add_zero(y);
                    }
                }
                assert(xs@.subrange(0, k + 1).drop_last() =~= pre);
                assert(xs@.subrange(0, k + 1).last() == *x);
            }
            g = next_g;
            p = next_p;
            k = k + 1;
        }
        g
    
}

} // verus!
