//! Polynomials through given points: the product `Π_j (t - x(j))` of the points, the values of a
//! polynomial at the points, and the polynomial of least degree taking given values there.
use crate::algebra::{lemma_add_swap, lemma_neg_neg, lemma_neg_unique, Field, Ring, Semiring};
use crate::poly::interpolation::poly_interpolate;
use vstd::prelude::*;

verus! {

/// Every coefficient of `p` is a valid value.
pub open spec fn valid_poly<R: Semiring>(r: R, p: Seq<R::Value>) -> bool {
    forall|i: int| 0 <= i < p.len() ==> r.valid(#[trigger] p[i])
}

/// Coefficient `k` of `p`, which is zero past the end of `p`.
pub open spec fn coef<R: Semiring>(r: R, p: Seq<R::Value>, k: int) -> R::Value {
    if 0 <= k < p.len() {
        p[k]
    } else {
        r.szero()
    }
}

/// `p` without its constant coefficient: the quotient of `p` by `t`.
pub open spec fn tail<A>(p: Seq<A>) -> Seq<A> {
    if p.len() == 0 {
        p
    } else {
        p.subrange(1, p.len() as int)
    }
}

/// The value `p(x) = p[0] + x (p[1] + x (p[2] + ...))` of the polynomial with coefficients `p`.
pub open spec fn poly_eval<R: Semiring>(r: R, p: Seq<R::Value>, x: R::Value) -> R::Value
    decreases p.len(),
{
    if p.len() == 0 {
        r.szero()
    } else {
        r.sadd(p[0], r.smul(x, poly_eval(r, p.subrange(1, p.len() as int), x)))
    }
}

/// The sum `p + q`, as long as the longer of the two.
pub open spec fn poly_add<R: Semiring>(r: R, p: Seq<R::Value>, q: Seq<R::Value>) -> Seq<R::Value> {
    Seq::new(
        if p.len() >= q.len() {
            p.len()
        } else {
            q.len()
        },
        |k: int| r.sadd(coef(r, p, k), coef(r, q, k)),
    )
}

/// The multiple `c p`.
pub open spec fn poly_scale<R: Semiring>(r: R, c: R::Value, p: Seq<R::Value>) -> Seq<R::Value> {
    Seq::new(p.len(), |k: int| r.smul(c, p[k]))
}

/// The product `p (t - a)`, one longer than `p`.
pub open spec fn times_linear<R: Ring>(r: R, p: Seq<R::Value>, a: R::Value) -> Seq<R::Value> {
    poly_add(r, seq![r.szero()] + p, poly_scale(r, r.sneg(a), p))
}

/// The coefficients of `Π_j (t - xs[j])`, the product taken from the first point on.
pub open spec fn vanishing<R: Ring>(r: R, xs: Seq<R::Value>) -> Seq<R::Value>
    decreases xs.len(),
{
    if xs.len() == 0 {
        seq![r.sone()]
    } else {
        times_linear(r, vanishing(r, xs.drop_last()), xs.last())
    }
}

/// The value `Π_j (x - xs[j])`.
pub open spec fn point_product<R: Ring>(r: R, xs: Seq<R::Value>, x: R::Value) -> R::Value
    decreases xs.len(),
{
    if xs.len() == 0 {
        r.sone()
    } else {
        r.smul(point_product(r, xs.drop_last(), x), r.sadd(x, r.sneg(xs.last())))
    }
}

/// The points are distinct.
pub open spec fn distinct_points<A>(xs: Seq<A>) -> bool {
    forall|i: int, j: int| 0 <= i < xs.len() && 0 <= j < xs.len() && i != j ==> xs[i] != xs[j]
}

pub(crate) proof fn lemma_eval_valid<F: Field>(f: F, p: Seq<F::Value>, x: F::Value)
    requires
        valid_poly(f, p),
        f.valid(x),
    ensures
        f.valid(poly_eval(f, p, x)),
    decreases p.len(),
{
    f.lemma_closed(x, x);
    if p.len() > 0 {
        let t = p.subrange(1, p.len() as int);
        lemma_eval_valid(f, t, x);
        f.lemma_closed(x, poly_eval(f, t, x));
        f.lemma_closed(p[0], f.smul(x, poly_eval(f, t, x)));
    }
}

/// Horner's step, also for the empty polynomial: `p(x) = p[0] + x (p / t)(x)`.
proof fn lemma_eval_head<F: Field>(f: F, p: Seq<F::Value>, x: F::Value)
    requires
        valid_poly(f, p),
        f.valid(x),
    ensures
        poly_eval(f, p, x) == f.sadd(coef(f, p, 0), f.smul(x, poly_eval(f, tail(p), x))),
{
    f.lemma_closed(x, x);
    if p.len() == 0 {
        f.lemma_mul_zero(x);
        f.lemma_add_zero(f.szero());
    }
}

/// Evaluation is additive.
pub(crate) proof fn lemma_eval_add<F: Field>(f: F, p: Seq<F::Value>, q: Seq<F::Value>, x: F::Value)
    requires
        valid_poly(f, p),
        valid_poly(f, q),
        f.valid(x),
    ensures
        poly_eval(f, poly_add(f, p, q), x) == f.sadd(poly_eval(f, p, x), poly_eval(f, q, x)),
    decreases p.len() + q.len(),
{
    f.lemma_closed(x, x);
    let s = poly_add(f, p, q);
    lemma_eval_valid(f, p, x);
    lemma_eval_valid(f, q, x);
    if s.len() == 0 {
        f.lemma_add_zero(f.szero());
    } else {
        let (tp, tq) = (tail(p), tail(q));
        assert(s.subrange(1, s.len() as int) =~= poly_add(f, tp, tq));
        lemma_eval_add(f, tp, tq, x);
        lemma_eval_head(f, p, x);
        lemma_eval_head(f, q, x);
        lemma_eval_valid(f, tp, x);
        lemma_eval_valid(f, tq, x);
        let (ep, eq) = (poly_eval(f, tp, x), poly_eval(f, tq, x));
        f.lemma_distrib(x, ep, eq);
        f.lemma_closed(x, ep);
        f.lemma_closed(x, eq);
        lemma_add_swap(f, coef(f, p, 0), coef(f, q, 0), f.smul(x, ep), f.smul(x, eq));
    }
}

/// Evaluation commutes with multiples: `(c p)(x) = c p(x)`.
pub(crate) proof fn lemma_eval_scale<F: Field>(f: F, c: F::Value, p: Seq<F::Value>, x: F::Value)
    requires
        valid_poly(f, p),
        f.valid(c),
        f.valid(x),
    ensures
        poly_eval(f, poly_scale(f, c, p), x) == f.smul(c, poly_eval(f, p, x)),
    decreases p.len(),
{
    f.lemma_closed(x, x);
    let s = poly_scale(f, c, p);
    if p.len() == 0 {
        f.lemma_mul_zero(c);
    } else {
        let t = p.subrange(1, p.len() as int);
        assert(s.subrange(1, s.len() as int) =~= poly_scale(f, c, t));
        lemma_eval_scale(f, c, t, x);
        lemma_eval_valid(f, t, x);
        let e = poly_eval(f, t, x);
        f.lemma_mul_assoc(x, c, e);
        f.lemma_mul_assoc(c, x, e);
        f.lemma_mul_comm(x, c);
        f.lemma_closed(x, e);
        f.lemma_distrib(c, p[0], f.smul(x, e));
    }
}

/// Evaluation of `p (t - a)`: the value of `p` times `x - a`.
pub proof fn lemma_eval_times_linear<F: Field>(f: F, p: Seq<F::Value>, a: F::Value, x: F::Value)
    requires
        valid_poly(f, p),
        f.valid(a),
        f.valid(x),
    ensures
        poly_eval(f, times_linear(f, p, a), x) == f.smul(poly_eval(f, p, x), f.sadd(x, f.sneg(a))),
        valid_poly(f, times_linear(f, p, a)),
{
    f.lemma_closed(x, x);
    f.lemma_add_neg(a);
    let z = seq![f.szero()] + p;
    let s = poly_scale(f, f.sneg(a), p);
    assert(valid_poly(f, z));
    assert forall|i: int| 0 <= i < s.len() implies f.valid(#[trigger] s[i]) by {
        f.lemma_closed(f.sneg(a), p[i]);
    }
    assert forall|i: int| 0 <= i < times_linear(f, p, a).len() implies f.valid(
        #[trigger] times_linear(f, p, a)[i],
    ) by {
        f.lemma_closed(coef(f, z, i), coef(f, s, i));
    }
    lemma_eval_add(f, z, s, x);
    lemma_eval_scale(f, f.sneg(a), p, x);
    assert(z.subrange(1, z.len() as int) =~= p);
    lemma_eval_valid(f, p, x);
    let e = poly_eval(f, p, x);
    f.lemma_closed(x, e);
    f.lemma_add_zero(f.smul(x, e));
    f.lemma_distrib(e, x, f.sneg(a));
    f.lemma_mul_comm(e, x);
    f.lemma_mul_comm(e, f.sneg(a));
}

/// The coefficients of the product are valid, and its value at `x` is `Π_j (x - xs[j])`.
pub proof fn lemma_eval_vanishing<F: Field>(f: F, xs: Seq<F::Value>, x: F::Value)
    requires
        valid_poly(f, xs),
        f.valid(x),
    ensures
        valid_poly(f, vanishing(f, xs)),
        poly_eval(f, vanishing(f, xs), x) == point_product(f, xs, x),
        f.valid(point_product(f, xs, x)),
    decreases xs.len(),
{
    f.lemma_closed(x, x);
    if xs.len() == 0 {
        let one = seq![f.sone()];
        assert(one.subrange(1, 1) =~= Seq::<F::Value>::empty());
        assert(poly_eval(f, one.subrange(1, 1), x) == f.szero());
        f.lemma_mul_zero(x);
        f.lemma_add_zero(f.sone());
        assert(vanishing(f, xs) == one);
    } else {
        let d = xs.drop_last();
        lemma_eval_vanishing(f, d, x);
        lemma_eval_times_linear(f, vanishing(f, d), xs.last(), x);
        f.lemma_add_neg(xs.last());
        f.lemma_closed(x, f.sneg(xs.last()));
        f.lemma_closed(point_product(f, d, x), f.sadd(x, f.sneg(xs.last())));
    }
}

/// `x - y` is zero only for `x = y`.
proof fn lemma_sub_nonzero<F: Field>(f: F, x: F::Value, y: F::Value)
    requires
        f.valid(x),
        f.valid(y),
        x != y,
    ensures
        f.sadd(x, f.sneg(y)) != f.szero(),
{
    f.lemma_add_neg(y);
    if f.sadd(x, f.sneg(y)) == f.szero() {
        lemma_neg_unique(f, x, f.sneg(y));
        lemma_neg_neg(f, y);
        lemma_neg_neg(f, x);
    }
}

/// A product of nonzero values is nonzero.
proof fn lemma_mul_nonzero<F: Field>(f: F, a: F::Value, b: F::Value)
    requires
        f.valid(a),
        f.valid(b),
        a != f.szero(),
        b != f.szero(),
    ensures
        f.smul(a, b) != f.szero(),
{
    if f.smul(a, b) == f.szero() {
        f.lemma_inv(b);
        f.lemma_mul_assoc(a, b, f.sinv(b));
        f.lemma_mul_one(a);
        f.lemma_mul_zero(f.sinv(b));
    }
}

/// `Π_j (x - xs[j])` vanishes at each of the points.
pub(crate) proof fn lemma_point_product_root<F: Field>(f: F, xs: Seq<F::Value>, j: int)
    requires
        valid_poly(f, xs),
        0 <= j < xs.len(),
    ensures
        point_product(f, xs, xs[j]) == f.szero(),
    decreases xs.len(),
{
    let x = xs[j];
    let d = xs.drop_last();
    f.lemma_add_neg(xs.last());
    f.lemma_closed(x, f.sneg(xs.last()));
    lemma_eval_vanishing(f, d, x);
    if j == xs.len() - 1 {
        f.lemma_add_neg(x);
        f.lemma_mul_zero(point_product(f, d, x));
    } else {
        lemma_point_product_root(f, d, j);
        f.lemma_mul_zero(f.sadd(x, f.sneg(xs.last())));
    }
}

/// `Π_j (x - xs[j])` is nonzero away from the points.
pub(crate) proof fn lemma_point_product_nonzero<F: Field>(f: F, xs: Seq<F::Value>, x: F::Value)
    requires
        valid_poly(f, xs),
        f.valid(x),
        forall|i: int| 0 <= i < xs.len() ==> xs[i] != x,
    ensures
        point_product(f, xs, x) != f.szero(),
    decreases xs.len(),
{
    f.lemma_closed(x, x);
    if xs.len() == 0 {
        f.lemma_one_ne_zero();
    } else {
        let d = xs.drop_last();
        lemma_point_product_nonzero(f, d, x);
        lemma_eval_vanishing(f, d, x);
        lemma_sub_nonzero(f, x, xs.last());
        f.lemma_add_neg(xs.last());
        f.lemma_closed(x, f.sneg(xs.last()));
        lemma_mul_nonzero(f, point_product(f, d, x), f.sadd(x, f.sneg(xs.last())));
    }
}

/// A copy of `a`, as `a + 0`.
fn copy_value<F: Field>(ring: &F, a: &F::Value) -> (r: F::Value)
    requires
        ring.valid(*a),
    ensures
        r == *a,
{
    let z = ring.zero();
    proof {
        ring.lemma_add_zero(*a);
    }
    ring.add(a, &z)
}

/// The value `p(x)`, by Horner's rule.
pub(crate) fn eval_at<F: Field>(ring: &F, p: &[F::Value], x: &F::Value) -> (r: F::Value)
    requires
        valid_poly(*ring, p@),
        ring.valid(*x),
    ensures
        r == poly_eval(*ring, p@, *x),
        ring.valid(r),
{
    let m = p.len();
    let mut acc = ring.zero();
    let mut k: usize = m;
    proof {
        assert(p@.subrange(m as int, m as int) =~= Seq::<F::Value>::empty());
    }
    while k > 0
        invariant
            k <= m,
            m == p@.len(),
            valid_poly(*ring, p@),
            ring.valid(*x),
            ring.valid(acc),
            acc == poly_eval(*ring, p@.subrange(k as int, m as int), *x),
        decreases k,
    {
        k = k - 1;
        let t = ring.mul(x, &acc);
        acc = ring.add(&p[k], &t);
        proof {
            let s = p@.subrange(k as int, m as int);
            assert(s.subrange(1, s.len() as int) =~= p@.subrange(k + 1, m as int));
        }
    }
    proof {
        assert(p@.subrange(0, m as int) =~= p@);
    }
    acc
}

/// The coefficients of `p (t - a)`.
pub(crate) fn mul_linear<F: Field>(ring: &F, p: &Vec<F::Value>, a: &F::Value) -> (r: Vec<F::Value>)
    requires
        valid_poly(*ring, p@),
        ring.valid(*a),
    ensures
        r@ == times_linear(*ring, p@, *a),
        valid_poly(*ring, r@),
{
    let n = p.len();
    let neg_a = ring.neg(a);
    let mut q: Vec<F::Value> = Vec::new();
    let mut k: usize = 0;
    let ghost z = seq![ring.szero()] + p@;
    let ghost s = poly_scale(*ring, ring.sneg(*a), p@);
    while k < n
        invariant
            k <= n,
            n == p@.len(),
            valid_poly(*ring, p@),
            ring.valid(*a),
            neg_a == ring.sneg(*a),
            ring.valid(neg_a),
            z == seq![ring.szero()] + p@,
            s == poly_scale(*ring, ring.sneg(*a), p@),
            q@.len() == k,
            forall|i: int| 0 <= i < k ==> #[trigger] q@[i] == ring.sadd(coef(*ring, z, i), coef(*ring, s, i)),
        decreases n - k,
    {
        let u = if k == 0 {
            ring.zero()
        } else {
            copy_value(ring, &p[k - 1])
        };
        let v = ring.mul(&neg_a, &p[k]);
        q.push(ring.add(&u, &v));
        k = k + 1;
    }
    let u = if n == 0 {
        ring.zero()
    } else {
        copy_value(ring, &p[n - 1])
    };
    let v = ring.zero();
    q.push(ring.add(&u, &v));
    proof {
        assert(q@ =~= times_linear(*ring, p@, *a));
        lemma_eval_times_linear(*ring, p@, *a, *a);
    }
    q
}

/// The coefficients of `g + c p`, for `p` at least as long as `g`.
pub(crate) fn add_multiple<F: Field>(ring: &F, g: &Vec<F::Value>, c: &F::Value, p: &Vec<F::Value>) -> (r: Vec<F::Value>)
    requires
        valid_poly(*ring, g@),
        valid_poly(*ring, p@),
        ring.valid(*c),
        g@.len() <= p@.len(),
    ensures
        r@ == poly_add(*ring, g@, poly_scale(*ring, *c, p@)),
        valid_poly(*ring, r@),
{
    let n = p.len();
    let mut q: Vec<F::Value> = Vec::new();
    let mut k: usize = 0;
    let ghost s = poly_scale(*ring, *c, p@);
    while k < n
        invariant
            k <= n,
            n == p@.len(),
            g@.len() <= n,
            valid_poly(*ring, g@),
            valid_poly(*ring, p@),
            ring.valid(*c),
            s == poly_scale(*ring, *c, p@),
            q@.len() == k,
            forall|i: int| 0 <= i < k ==> #[trigger] q@[i] == ring.sadd(coef(*ring, g@, i), coef(*ring, s, i)),
            valid_poly(*ring, q@),
        decreases n - k,
    {
        let u = if k < g.len() {
            copy_value(ring, &g[k])
        } else {
            ring.zero()
        };
        let v = ring.mul(c, &p[k]);
        let w = ring.add(&u, &v);
        q.push(w);
        k = k + 1;
    }
    proof {
        assert(q@ =~= poly_add(*ring, g@, s));
    }
    q
}

/// The points `x(0), ..., x(n - 1)` with the coefficients of their product `Π_j (t - x(j))`.
pub struct SubproductTree<F: Field> {
    ring: F,
    xs: Vec<F::Value>,
    root: Vec<F::Value>,
}

impl<F: Field> SubproductTree<F> {
    #[verifier::type_invariant]
    spec fn wf(self) -> bool {
        &&& valid_poly(self.ring, self.xs@)
        &&& self.root@ == vanishing(self.ring, self.xs@)
    }

    /// The points.
    pub closed spec fn points(self) -> Seq<F::Value> {
        self.xs@
    }

    /// The field the points lie in.
    pub closed spec fn field(self) -> F {
        self.ring
    }

    /// The points `xs` with their product, built one linear factor at a time in O(n^2).
    pub fn new(ring: F, xs: &[F::Value]) -> (t: Self)
        requires
            valid_poly(ring, xs@),
        ensures
            t.points() == xs@,
            t.field() == ring,
    {
        let n = xs.len();
        let mut pts: Vec<F::Value> = Vec::new();
        let mut root: Vec<F::Value> = Vec::new();
        root.push(ring.one());
        let mut k: usize = 0;
        while k < n
            invariant
                k <= n,
                n == xs@.len(),
                valid_poly(ring, xs@),
                pts@ == xs@.subrange(0, k as int),
                root@ == vanishing(ring, pts@),
                valid_poly(ring, root@),
            decreases n - k,
        {
            let x = copy_value(&ring, &xs[k]);
            let next = mul_linear(&ring, &root, &x);
            pts.push(x);
            proof {
                assert(pts@.drop_last() =~= xs@.subrange(0, k as int));
                assert(pts@ =~= xs@.subrange(0, k + 1));
            }
            root = next;
            k = k + 1;
        }
        proof {
            assert(pts@ =~= xs@);
        }
        SubproductTree { ring, xs: pts, root }
    }

    /// The coefficients of the product `Π_j (t - x(j))`, `n + 1` of them; its value at any `x`
    /// is `Π_j (x - x(j))` ([`lemma_eval_vanishing`]).
    pub fn product(&self) -> (r: &[F::Value])
        ensures
            r@ == vanishing(self.field(), self.points()),
    {
        proof {
            use_type_invariant(self);
        }
        self.root.as_slice()
    }

    /// The values `f(x(0)), ..., f(x(n - 1))` of the polynomial `Σ_k f(k) t^k`, each by Horner's
    /// rule, in O(nm).
    pub fn evaluate(&self, f: &[F::Value]) -> (r: Vec<F::Value>)
        requires
            valid_poly(self.field(), f@),
        ensures
            r@.len() == self.points().len(),
            forall|j: int|
                0 <= j < r@.len() ==> #[trigger] r@[j] == poly_eval(self.field(), f@, self.points()[j]),
    {
        proof {
            use_type_invariant(self);
        }
        let n = self.xs.len();
        let mut values: Vec<F::Value> = Vec::new();
        let mut j: usize = 0;
        while j < n
            invariant
                j <= n,
                n == self.xs@.len(),
                valid_poly(self.ring, self.xs@),
                valid_poly(self.ring, f@),
                values@.len() == j,
                forall|i: int| 0 <= i < j ==> #[trigger] values@[i] == poly_eval(self.ring, f@, self.xs@[i]),
            decreases n - j,
        {
            let v = eval_at(&self.ring, f, &self.xs[j]);
            values.push(v);
            j = j + 1;
        }
        values
    }

    /// The coefficients, `n` of them, of the polynomial `g` of degree less than `n` with
    /// `g(x(j)) = ys[j]`, for distinct points; built by Newton's divided differences in O(n^2).
    pub fn interpolate(&self, ys: &[F::Value]) -> (g: Vec<F::Value>)
        requires
            ys@.len() == self.points().len(),
            valid_poly(self.field(), ys@),
            distinct_points(self.points()),
        ensures
            g@.len() == self.points().len(),
            forall|j: int|
                0 <= j < ys@.len() ==> #[trigger] poly_eval(self.field(), g@, self.points()[j]) == ys@[j],
    {
        proof {
            use_type_invariant(self);
        }
        poly_interpolate(&self.ring, self.xs.as_slice(), ys)
    }
}

} // verus!
