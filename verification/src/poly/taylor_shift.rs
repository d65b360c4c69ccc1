//! The polynomial `f(x + c)`.
use crate::algebra::{lemma_neg_neg, Field, Ring, Semiring};
use crate::poly::subproduct_tree::{
    coef, lemma_eval_add, lemma_eval_times_linear, lemma_eval_valid, mul_linear, poly_add,
    poly_eval, times_linear, valid_poly,
};
use vstd::prelude::*;

verus! {

/// The coefficients of `f(x + c)`, by Horner's rule: `f(x + c) = f[0] + (x + c) g(x + c)` for
/// `f = f[0] + x g`.
pub open spec fn taylor<R: Ring>(r: R, f: Seq<R::Value>, c: R::Value) -> Seq<R::Value>
    decreases f.len(),
{
    if f.len() == 0 {
        f
    } else {
        poly_add(r, seq![f[0]], times_linear(r, taylor(r, f.subrange(1, f.len() as int), c), r.sneg(c)))
    }
}

/// The shift keeps the length, and its coefficients are valid.
proof fn lemma_taylor_valid<F: Field>(f: F, p: Seq<F::Value>, c: F::Value)
    requires
        valid_poly(f, p),
        f.valid(c),
    ensures
        taylor(f, p, c).len() == p.len(),
        valid_poly(f, taylor(f, p, c)),
    decreases p.len(),
{
    if p.len() > 0 {
        let t = p.subrange(1, p.len() as int);
        lemma_taylor_valid(f, t, c);
        f.lemma_add_neg(c);
        f.lemma_closed(c, c);
        lemma_eval_times_linear(f, taylor(f, t, c), f.sneg(c), c);
        let q = times_linear(f, taylor(f, t, c), f.sneg(c));
        assert forall|i: int| 0 <= i < taylor(f, p, c).len() implies f.valid(#[trigger] taylor(f, p, c)[i]) by {
            f.lemma_closed(coef(f, seq![p[0]], i), coef(f, q, i));
        }
    }
}

/// The shift is what its name says: its value at `x` is the value of `f` at `x + c`.
pub proof fn lemma_eval_taylor<F: Field>(f: F, p: Seq<F::Value>, c: F::Value, x: F::Value)
    requires
        valid_poly(f, p),
        f.valid(c),
        f.valid(x),
    ensures
        poly_eval(f, taylor(f, p, c), x) == poly_eval(f, p, f.sadd(x, c)),
    decreases p.len(),
{
    f.lemma_closed(x, c);
    if p.len() > 0 {
        let t = p.subrange(1, p.len() as int);
        let y = f.sadd(x, c);
        lemma_eval_taylor(f, t, c, x);
        lemma_taylor_valid(f, t, c);
        f.lemma_add_neg(c);
        lemma_eval_times_linear(f, taylor(f, t, c), f.sneg(c), x);
        let a = seq![p[0]];
        assert(valid_poly(f, a));
        lemma_eval_add(f, a, times_linear(f, taylor(f, t, c), f.sneg(c)), x);
        assert(a.subrange(1, 1) =~= Seq::<F::Value>::empty());
        assert(poly_eval(f, a.subrange(1, 1), x) == f.szero());
        f.lemma_mul_zero(x);
        f.lemma_add_zero(p[0]);
        lemma_neg_neg(f, c);
        lemma_eval_valid(f, t, y);
        f.lemma_mul_comm(poly_eval(f, t, y), y);
    }
}

/// The coefficients of `a + q` for a nonempty `q`.
fn add_constant<F: Field>(ring: &F, a: &F::Value, q: &Vec<F::Value>) -> (r: Vec<F::Value>)
    requires
        ring.valid(*a),
        valid_poly(*ring, q@),
        q@.len() >= 1,
    ensures
        r@ == poly_add(*ring, seq![*a], q@),
{
    let zero = ring.zero();
    let mut r: Vec<F::Value> = Vec::new();
    r.push(ring.add(a, &q[0]));
    let mut k: usize = 1;
    while k < q.len()
        invariant
            1 <= k <= q@.len(),
            ring.valid(*a),
            zero == ring.szero(),
            valid_poly(*ring, q@),
            r@.len() == k,
            forall|i: int| 0 <= i < k ==> #[trigger] r@[i] == ring.sadd(coef(*ring, seq![*a], i), coef(*ring, q@, i)),
        decreases q@.len() - k,
    {
        proof {
            ring.lemma_closed(*a, *a);
        }
        r.push(ring.add(&zero, &q[k]));
        k = k + 1;
    }
    proof {
        assert(r@ =~= poly_add(*ring, seq![*a], q@));
    }
    r
}

/// The coefficients of `f(x + c)`, as many as those of `f`, by Horner's rule in O(n^2).
pub fn poly_taylor_shift<F: Field>(ring: &F, f: &[F::Value], c: &F::Value) -> (r: Vec<F::Value>)
    requires
        valid_poly(*ring, f@),
        ring.valid(*c),
    ensures
        r@ == taylor(*ring, f@, *c),
        r@.len() == f@.len(),
{
    let n = f.len();
    let neg_c = ring.neg(c);
    let mut acc: Vec<F::Value> = Vec::new();
    let mut i: usize = n;
    proof {
        assert(f@.subrange(n as int, n as int) =~= Seq::<F::Value>::empty());
    }
    while i > 0
        invariant
            i <= n,
            n == f@.len(),
            valid_poly(*ring, f@),
            ring.valid(*c),
            neg_c == ring.sneg(*c),
            acc@ == taylor(*ring, f@.subrange(i as int, n as int), *c),
            valid_poly(*ring, acc@),
        decreases i,
    {
        i = i - 1;
        proof {
            ring.lemma_add_neg(*c);
        }
        let q = mul_linear(ring, &acc, &neg_c);
        proof {
            lemma_eval_times_linear(*ring, acc@, neg_c, *c);
        }
        let next = add_constant(ring, &f[i], &q);
        proof {
            let s = f@.subrange(i as int, n as int);
            assert(s.subrange(1, s.len() as int) =~= f@.subrange(i + 1, n as int));
            assert(s[0] == f@[i as int]);
            lemma_taylor_valid(*ring, s, *c);
        }
        acc = next;
    }
    proof {
        assert(f@.subrange(0, n as int) =~= f@);
        lemma_taylor_valid(*ring, f@, *c);
    }
    acc
}

} // verus!
