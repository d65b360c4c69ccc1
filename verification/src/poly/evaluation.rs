//! Evaluating a polynomial that is given by its values at `0, 1, ..., n - 1`.
use crate::algebra::{lemma_mul_neg, lemma_neg_add, lemma_neg_neg, Field, Ring, Semiring};
use crate::num::factorial::{
    fact_elem, lemma_fact_elem_valid, lemma_nat_elem_add, lemma_nat_elem_valid, nat_elem,
};
use crate::poly::subproduct_tree::{eval_at, poly_eval, valid_poly};
use vstd::prelude::*;

verus! {

/// `a - j` in the ring, with `j` standing for its image `1 + ... + 1`.
pub open spec fn minus_nat<R: Ring>(r: R, a: R::Value, j: nat) -> R::Value {
    r.sadd(a, r.sneg(nat_elem(r, j)))
}

/// `Π_{lo <= j < hi} (a - j)`, which is one for an empty range.
pub open spec fn shifted_product<R: Ring>(r: R, a: R::Value, lo: nat, hi: nat) -> R::Value
    decreases hi,
{
    if hi <= lo {
        r.sone()
    } else {
        r.smul(shifted_product(r, a, lo, (hi - 1) as nat), minus_nat(r, a, (hi - 1) as nat))
    }
}

/// `Π_{j < n, j != i} (a - j)`.
pub open spec fn product_except<R: Ring>(r: R, a: R::Value, n: nat, i: nat) -> R::Value {
    r.smul(shifted_product(r, a, 0, i), shifted_product(r, a, i + 1, n))
}

/// The `i`-th term `y(i) Π_{j != i} (c - j) / Π_{j != i} (i - j)` of Lagrange's formula for the
/// polynomial of degree less than `n = ys.len()` that takes the values `ys` on `[0, n)`.
pub open spec fn lagrange_term<F: Field>(f: F, ys: Seq<F::Value>, c: F::Value, i: nat) -> F::Value {
    f.smul(
        f.smul(ys[i as int], product_except(f, c, ys.len(), i)),
        f.sinv(product_except(f, nat_elem(f, i), ys.len(), i)),
    )
}

/// The sum of the first `k` terms of Lagrange's formula.
pub open spec fn lagrange_sum<F: Field>(f: F, ys: Seq<F::Value>, c: F::Value, k: nat) -> F::Value
    decreases k,
{
    if k == 0 {
        f.szero()
    } else {
        f.sadd(lagrange_sum(f, ys, c, (k - 1) as nat), lagrange_term(f, ys, c, (k - 1) as nat))
    }
}

/// `f(c)` for the polynomial `f` of degree less than `n = ys.len()` with `f(i) = ys[i]` on
/// `[0, n)`, by Lagrange's formula `Σ_i y(i) Π_{j != i} (c - j) / Π_{j != i} (i - j)`; zero for
/// `n = 0`.
pub open spec fn iota_value<F: Field>(f: F, ys: Seq<F::Value>, c: F::Value) -> F::Value {
    lagrange_sum(f, ys, c, ys.len())
}

/// `1, ..., n - 1` are nonzero in the ring: its characteristic is `0` or at least `n`.
pub open spec fn small_invertible<R: Semiring>(r: R, n: nat) -> bool {
    forall|k: nat| 1 <= k < n ==> #[trigger] nat_elem(r, k) != r.szero()
}

/// `a` for even `k`, `-a` for odd `k`.
spec fn signed<R: Ring>(r: R, k: nat, a: R::Value) -> R::Value {
    if k % 2 == 0 {
        a
    } else {
        r.sneg(a)
    }
}

proof fn lemma_minus_nat_valid<R: Ring>(r: R, a: R::Value, j: nat)
    requires
        r.valid(a),
    ensures
        r.valid(minus_nat(r, a, j)),
{
    r.lemma_closed(a, a);
    lemma_nat_elem_valid(r, j);
    r.lemma_add_neg(nat_elem(r, j));
    r.lemma_closed(a, r.sneg(nat_elem(r, j)));
}

proof fn lemma_shifted_product_valid<R: Ring>(r: R, a: R::Value, lo: nat, hi: nat)
    requires
        r.valid(a),
    ensures
        r.valid(shifted_product(r, a, lo, hi)),
    decreases hi,
{
    r.lemma_closed(a, a);
    if hi > lo {
        lemma_shifted_product_valid(r, a, lo, (hi - 1) as nat);
        lemma_minus_nat_valid(r, a, (hi - 1) as nat);
        r.lemma_closed(shifted_product(r, a, lo, (hi - 1) as nat), minus_nat(r, a, (hi - 1) as nat));
    }
}

/// The lowest factor can be taken off last: `Π_{lo <= j < hi} = (Π_{lo < j < hi}) (a - lo)`.
proof fn lemma_shifted_product_low<F: Field>(f: F, a: F::Value, lo: nat, hi: nat)
    requires
        f.valid(a),
        lo < hi,
    ensures
        shifted_product(f, a, lo, hi) == f.smul(shifted_product(f, a, lo + 1, hi), minus_nat(f, a, lo)),
    decreases hi,
{
    f.lemma_closed(a, a);
    lemma_minus_nat_valid(f, a, lo);
    if hi == lo + 1 {
        f.lemma_mul_one(minus_nat(f, a, lo));
        assert(shifted_product(f, a, lo, lo) == f.sone());
    } else {
        let m = (hi - 1) as nat;
        lemma_shifted_product_low(f, a, lo, m);
        let p = shifted_product(f, a, lo + 1, m);
        lemma_shifted_product_valid(f, a, lo + 1, m);
        lemma_minus_nat_valid(f, a, m);
        let x = minus_nat(f, a, lo);
        let y = minus_nat(f, a, m);
        // (p x) y = (p y) x
        f.lemma_mul_assoc(p, x, y);
        f.lemma_mul_comm(x, y);
        f.lemma_mul_assoc(p, y, x);
    }
}

/// `a - j = (a - j)` for `j <= a`, and `a - j = -(j - a)` for `j >= a`, as images of naturals.
proof fn lemma_minus_nat_elem<R: Ring>(r: R, a: nat, j: nat)
    requires
        r.valid(r.szero()),
        r.valid(r.sone()),
    ensures
        j <= a ==> minus_nat(r, nat_elem(r, a), j) == nat_elem(r, (a - j) as nat),
        a <= j ==> minus_nat(r, nat_elem(r, a), j) == r.sneg(nat_elem(r, (j - a) as nat)),
{
    if j <= a {
        let d = (a - j) as nat;
        lemma_nat_elem_add(r, d, j);
        assert(d + j == a);
        lemma_nat_elem_valid(r, d);
        lemma_nat_elem_valid(r, j);
        r.lemma_add_neg(nat_elem(r, j));
        r.lemma_add_assoc(nat_elem(r, d), nat_elem(r, j), r.sneg(nat_elem(r, j)));
        r.lemma_add_zero(nat_elem(r, d));
    }
    if a <= j {
        let d = (j - a) as nat;
        lemma_nat_elem_add(r, a, d);
        assert(a + d == j);
        lemma_nat_elem_valid(r, d);
        lemma_nat_elem_valid(r, a);
        lemma_neg_add(r, nat_elem(r, a), nat_elem(r, d));
        r.lemma_add_neg(nat_elem(r, a));
        r.lemma_add_neg(nat_elem(r, d));
        r.lemma_add_assoc(nat_elem(r, a), r.sneg(nat_elem(r, a)), r.sneg(nat_elem(r, d)));
        r.lemma_add_zero(r.sneg(nat_elem(r, d)));
    }
}

/// `Π_{lo <= j < hi} (a - j) (a - hi)! = (a - lo)!` for `lo <= hi <= a`.
proof fn lemma_falling_product<F: Field>(f: F, a: nat, lo: nat, hi: nat)
    requires
        f.valid(f.szero()),
        f.valid(f.sone()),
        lo <= hi <= a,
    ensures
        f.smul(shifted_product(f, nat_elem(f, a), lo, hi), fact_elem(f, (a - hi) as nat)) == fact_elem(
            f,
            (a - lo) as nat,
        ),
    decreases hi,
{
    lemma_nat_elem_valid(f, a);
    if hi == lo {
        lemma_fact_elem_valid(f, (a - lo) as nat);
        f.lemma_mul_one(fact_elem(f, (a - lo) as nat));
    } else {
        let h = (hi - 1) as nat;
        lemma_falling_product(f, a, lo, h);
        let p = shifted_product(f, nat_elem(f, a), lo, h);
        lemma_shifted_product_valid(f, nat_elem(f, a), lo, h);
        lemma_minus_nat_elem(f, a, h);
        let x = nat_elem(f, (a - h) as nat);
        lemma_nat_elem_valid(f, (a - h) as nat);
        let g = fact_elem(f, (a - hi) as nat);
        lemma_fact_elem_valid(f, (a - hi) as nat);
        assert(fact_elem(f, (a - h) as nat) == f.smul(g, x)) by {
            assert(((a - h) - 1) as nat == (a - hi) as nat);
        }
        // (p x) g = p (x g) = p (g x)
        f.lemma_mul_assoc(p, x, g);
        f.lemma_mul_comm(x, g);
    }
}

/// `Π_{i < j < hi} (i - j) = (-1)^{hi-1-i} (hi - 1 - i)!`.
proof fn lemma_upper_product<F: Field>(f: F, i: nat, hi: nat)
    requires
        f.valid(f.szero()),
        f.valid(f.sone()),
        i < hi,
    ensures
        shifted_product(f, nat_elem(f, i), i + 1, hi) == signed(
            f,
            (hi - 1 - i) as nat,
            fact_elem(f, (hi - 1 - i) as nat),
        ),
    decreases hi,
{
    if hi == i + 1 {
        assert(fact_elem(f, 0) == f.sone());
    } else {
        let h = (hi - 1) as nat;
        lemma_upper_product(f, i, h);
        let k = (h - 1 - i) as nat;
        let big = fact_elem(f, k);
        lemma_fact_elem_valid(f, k);
        let d = nat_elem(f, (h - i) as nat);
        lemma_nat_elem_valid(f, (h - i) as nat);
        lemma_minus_nat_elem(f, i, h);
        assert((h - i) as nat == k + 1);
        assert(fact_elem(f, k + 1) == f.smul(big, d));
        // signed(k, big) (-d) = signed(k + 1, big d)
        lemma_mul_neg(f, big, d);
        if k % 2 == 1 {
            f.lemma_add_neg(big);
            f.lemma_add_neg(d);
            f.lemma_closed(big, d);
            lemma_mul_neg(f, f.sneg(big), d);
            f.lemma_mul_comm(f.sneg(big), d);
            lemma_mul_neg(f, d, big);
            f.lemma_mul_comm(d, big);
            lemma_neg_neg(f, f.smul(big, d));
        }
    }
}

/// `a (b c) = (a b) c` rearranged: `(a b)(c d) = (a c)(b d)` in a field.
proof fn lemma_mul_swap<F: Field>(f: F, a: F::Value, b: F::Value, c: F::Value, d: F::Value)
    requires
        f.valid(a),
        f.valid(b),
        f.valid(c),
        f.valid(d),
    ensures
        f.smul(f.smul(a, b), f.smul(c, d)) == f.smul(f.smul(a, c), f.smul(b, d)),
{
    f.lemma_closed(a, b);
    f.lemma_closed(c, d);
    f.lemma_closed(b, d);
    f.lemma_closed(a, c);
    f.lemma_closed(b, c);
    f.lemma_closed(c, b);
    f.lemma_mul_assoc(a, b, f.smul(c, d));
    f.lemma_mul_assoc(b, c, d);
    f.lemma_mul_comm(b, c);
    f.lemma_mul_assoc(c, b, d);
    f.lemma_mul_assoc(a, c, f.smul(b, d));
}

/// A product of nonzero values is nonzero.
proof fn lemma_mul_nonzero<F: Field>(f: F, a: F::Value, b: F::Value)
    requires
        f.valid(a),
        f.valid(b),
        a != f.szero(),
        b != f.szero(),
    ensures
        f.smul(a, b) != f.szero(),
{
    f.lemma_inv(a);
    let z = f.sinv(a);
    f.lemma_mul_assoc(z, a, b);
    f.lemma_mul_comm(z, a);
    f.lemma_mul_one(b);
    f.lemma_mul_zero(z);
}

/// The factorials of `0, ..., n - 1` are nonzero when `1, ..., n - 1` are.
proof fn lemma_fact_nonzero<F: Field>(f: F, n: nat, k: nat)
    requires
        f.valid(f.szero()),
        f.valid(f.sone()),
        small_invertible(f, n),
        k < n,
    ensures
        fact_elem(f, k) != f.szero(),
    decreases k,
{
    if k == 0 {
        f.lemma_one_ne_zero();
    } else {
        lemma_fact_nonzero(f, n, (k - 1) as nat);
        lemma_fact_elem_valid(f, (k - 1) as nat);
        lemma_nat_elem_valid(f, k);
        assert(nat_elem(f, k) != f.szero());
        lemma_mul_nonzero(f, fact_elem(f, (k - 1) as nat), nat_elem(f, k));
    }
}

/// A value whose product with `a` is one is the inverse of `a`.
proof fn lemma_inv_unique<F: Field>(f: F, a: F::Value, z: F::Value)
    requires
        f.valid(a),
        f.valid(z),
        f.smul(a, z) == f.sone(),
    ensures
        a != f.szero(),
        z == f.sinv(a),
{
    f.lemma_closed(a, z);
    f.lemma_one_ne_zero();
    f.lemma_mul_zero(z);
    f.lemma_inv(a);
    let w = f.sinv(a);
    f.lemma_mul_assoc(z, a, w);
    f.lemma_mul_comm(z, a);
    f.lemma_mul_one(z);
    f.lemma_mul_one(w);
}

/// The denominator `Π_{j != i} (i - j)` of the `i`-th term times `(-1)^{n-1-i} / (i! (n-1-i)!)` is
/// one, so the latter is its inverse.
proof fn lemma_denominator<F: Field>(f: F, n: nat, i: nat, u: F::Value, v: F::Value)
    requires
        f.valid(f.szero()),
        f.valid(f.sone()),
        i < n,
        f.valid(u),
        f.valid(v),
        f.smul(fact_elem(f, i), u) == f.sone(),
        f.smul(fact_elem(f, (n - 1 - i) as nat), v) == f.sone(),
    ensures
        f.sinv(product_except(f, nat_elem(f, i), n, i)) == signed(f, (n - 1 - i) as nat, f.smul(u, v)),
        product_except(f, nat_elem(f, i), n, i) != f.szero(),
{
    let k = (n - 1 - i) as nat;
    let a = fact_elem(f, i);
    let b = fact_elem(f, k);
    lemma_fact_elem_valid(f, i);
    lemma_fact_elem_valid(f, k);
    lemma_falling_product(f, i, 0, i);
    lemma_nat_elem_valid(f, i);
    lemma_shifted_product_valid(f, nat_elem(f, i), 0, i);
    f.lemma_mul_one(shifted_product(f, nat_elem(f, i), 0, i));
    assert(fact_elem(f, 0) == f.sone());
    lemma_upper_product(f, i, n);
    let d = product_except(f, nat_elem(f, i), n, i);
    assert(d == f.smul(a, signed(f, k, b)));
    let z = signed(f, k, f.smul(u, v));
    f.lemma_closed(u, v);
    lemma_mul_swap(f, a, b, u, v);
    if k % 2 == 1 {
        f.lemma_add_neg(b);
        f.lemma_add_neg(f.smul(u, v));
        f.lemma_closed(a, b);
        lemma_mul_neg(f, a, b);
        f.lemma_add_neg(f.smul(a, b));
        // (-(ab)) (-(uv)) = ab uv
        lemma_mul_neg(f, f.sneg(f.smul(a, b)), f.smul(u, v));
        f.lemma_mul_comm(f.sneg(f.smul(a, b)), f.smul(u, v));
        lemma_mul_neg(f, f.smul(u, v), f.smul(a, b));
        f.lemma_mul_comm(f.smul(u, v), f.smul(a, b));
        f.lemma_closed(f.smul(a, b), f.smul(u, v));
        lemma_neg_neg(f, f.smul(f.smul(a, b), f.smul(u, v)));
    }
    f.lemma_mul_one(f.sone());
    lemma_denominator_valid(f, n, i);
    lemma_inv_unique(f, d, z);
}

proof fn lemma_denominator_valid<F: Field>(f: F, n: nat, i: nat)
    requires
        f.valid(f.szero()),
        f.valid(f.sone()),
    ensures
        f.valid(product_except(f, nat_elem(f, i), n, i)),
{
    lemma_nat_elem_valid(f, i);
    lemma_shifted_product_valid(f, nat_elem(f, i), 0, i);
    lemma_shifted_product_valid(f, nat_elem(f, i), i + 1, n);
    f.lemma_closed(shifted_product(f, nat_elem(f, i), 0, i), shifted_product(f, nat_elem(f, i), i + 1, n));
}

/// The `i`-th term as computed: `(-1)^{n-1-i} y(i) Π_{j != i} (c - j) u v` with `u = 1 / i!` and
/// `v = 1 / (n - 1 - i)!`.
proof fn lemma_term<F: Field>(f: F, ys: Seq<F::Value>, c: F::Value, i: nat, u: F::Value, v: F::Value)
    requires
        f.valid(c),
        forall|j: int| 0 <= j < ys.len() ==> f.valid(#[trigger] ys[j]),
        i < ys.len(),
        f.valid(u),
        f.valid(v),
        f.smul(fact_elem(f, i), u) == f.sone(),
        f.smul(fact_elem(f, (ys.len() - 1 - i) as nat), v) == f.sone(),
    ensures
        lagrange_term(f, ys, c, i) == signed(
            f,
            (ys.len() - 1 - i) as nat,
            f.smul(f.smul(ys[i as int], product_except(f, c, ys.len(), i)), f.smul(u, v)),
        ),
        f.valid(f.smul(f.smul(ys[i as int], product_except(f, c, ys.len(), i)), f.smul(u, v))),
{
    let n = ys.len();
    f.lemma_closed(c, c);
    lemma_denominator(f, n, i, u, v);
    lemma_shifted_product_valid(f, c, 0, i);
    lemma_shifted_product_valid(f, c, i + 1, n);
    let p = product_except(f, c, n, i);
    f.lemma_closed(shifted_product(f, c, 0, i), shifted_product(f, c, i + 1, n));
    let y = f.smul(ys[i as int], p);
    f.lemma_closed(ys[i as int], p);
    f.lemma_closed(u, v);
    f.lemma_closed(y, f.smul(u, v));
    lemma_mul_neg(f, y, f.smul(u, v));
}

/// Adding a term of sign `(-1)^k` to the alternating accumulators `a0 - a1`.
proof fn lemma_acc_step<R: Ring>(r: R, a0: R::Value, a1: R::Value, t: R::Value, k: nat)
    requires
        r.valid(a0),
        r.valid(a1),
        r.valid(t),
    ensures
        k % 2 == 0 ==> r.sadd(r.sadd(a0, t), r.sneg(a1)) == r.sadd(r.sadd(a0, r.sneg(a1)), signed(r, k, t)),
        k % 2 == 1 ==> r.sadd(a0, r.sneg(r.sadd(a1, t))) == r.sadd(r.sadd(a0, r.sneg(a1)), signed(r, k, t)),
{
    r.lemma_add_neg(a1);
    r.lemma_add_neg(t);
    let m1 = r.sneg(a1);
    r.lemma_add_assoc(a0, t, m1);
    r.lemma_add_comm(t, m1);
    r.lemma_add_assoc(a0, m1, t);
    lemma_neg_add(r, a1, t);
    r.lemma_add_assoc(a0, m1, r.sneg(t));
}

/// `(x y) z = (x z) y` in a field.
proof fn lemma_mul_swap3<F: Field>(f: F, x: F::Value, y: F::Value, z: F::Value)
    requires
        f.valid(x),
        f.valid(y),
        f.valid(z),
    ensures
        f.smul(f.smul(x, y), z) == f.smul(f.smul(x, z), y),
{
    f.lemma_mul_assoc(x, y, z);
    f.lemma_mul_comm(y, z);
    f.lemma_mul_assoc(x, z, y);
}

/// The value at `c` of the polynomial `f` of degree less than `n = ys.len()` with `f(i) = ys[i]`
/// on `[0, n)`, by Lagrange's formula in O(n); zero for `n = 0`. `1, ..., n - 1` must be nonzero
/// in the field, which makes `f` exist and be unique.
pub fn iota_evaluate<F: Field>(ring: &F, ys: &[F::Value], c: &F::Value) -> (r: F::Value)
    requires
        ring.valid(*c),
        forall|i: int| 0 <= i < ys@.len() ==> ring.valid(#[trigger] ys@[i]),
        small_invertible(*ring, ys@.len()),
        ys@.len() < usize::MAX,
    ensures
        r == iota_value(*ring, ys@, *c),
        ring.valid(r),
{
    let n = ys.len();
    if n == 0 {
        return ring.zero();
    }
    proof {
        ring.lemma_closed(*c, *c);
    }
    let one = ring.one();
    let minus_one = ring.neg(&one);
    let mut k = ring.zero();
    let mut fact = ring.one();
    let mut t: usize = 1;
    while t < n
        invariant
            1 <= t <= n,
            ring.valid(ring.szero()),
            ring.valid(ring.sone()),
            one == ring.sone(),
            k == nat_elem(*ring, (t - 1) as nat),
            fact == fact_elem(*ring, (t - 1) as nat),
        decreases n - t,
    {
        proof {
            lemma_nat_elem_valid(*ring, (t - 1) as nat);
            lemma_fact_elem_valid(*ring, (t - 1) as nat);
        }
        k = ring.add(&k, &one);
        proof {
            lemma_nat_elem_valid(*ring, t as nat);
        }
        fact = ring.mul(&fact, &k);
        t = t + 1;
    }
    let mut inv_fact: Vec<F::Value> = Vec::with_capacity(n);
    let mut suf: Vec<F::Value> = Vec::with_capacity(n + 1);
    let mut t: usize = 0;
    while t <= n
        invariant
            t <= n + 1,
            n < usize::MAX,
            inv_fact@.len() == if t < n { t } else { n },
            suf@.len() == t,
            ring.valid(ring.sone()),
            forall|j: int| 0 <= j < inv_fact@.len() ==> #[trigger] inv_fact@[j] == ring.sone(),
            forall|j: int| 0 <= j < suf@.len() ==> #[trigger] suf@[j] == ring.sone(),
        decreases n + 1 - t,
    {
        if t < n {
            inv_fact.push(ring.one());
        }
        suf.push(ring.one());
        t = t + 1;
    }
    proof {
        lemma_fact_nonzero(*ring, n as nat, (n - 1) as nat);
        lemma_fact_elem_valid(*ring, (n - 1) as nat);
        lemma_nat_elem_valid(*ring, (n - 1) as nat);
    }
    let mut inv = ring.inv(&fact);
    let mut i: usize = n;
    while i > 0
        invariant
            i <= n,
            n == ys@.len(),
            ring.valid(ring.szero()),
            ring.valid(ring.sone()),
            ring.valid(*c),
            one == ring.sone(),
            minus_one == ring.sneg(ring.sone()),
            ring.valid(minus_one),
            inv_fact@.len() == n,
            suf@.len() == n + 1,
            forall|j: int| 0 <= j < n ==> ring.valid(#[trigger] inv_fact@[j]),
            forall|j: int| i <= j <= n ==> #[trigger] suf@[j] == shifted_product(*ring, *c, j as nat, n as nat),
            forall|j: int| 0 <= j < i ==> #[trigger] suf@[j] == ring.sone(),
            forall|j: int|
                i <= j < n ==> ring.smul(fact_elem(*ring, j as nat), #[trigger] inv_fact@[j]) == ring.sone(),
            ring.valid(k),
            ring.valid(inv),
            i > 0 ==> k == nat_elem(*ring, (i - 1) as nat),
            i > 0 ==> ring.smul(fact_elem(*ring, (i - 1) as nat), inv) == ring.sone(),
        decreases i,
    {
        i = i - 1;
        proof {
            lemma_shifted_product_valid(*ring, *c, (i + 1) as nat, n as nat);
            lemma_shifted_product_low(*ring, *c, i as nat, n as nat);
            ring.lemma_add_neg(k);
        }
        let s = ring.mul(&suf[i + 1], &ring.add(c, &ring.neg(&k)));
        let ghost old_suf = suf@;
        suf.set(i, s);
        let next = ring.mul(&inv, &k);
        let ghost old_inv = inv_fact@;
        inv_fact.set(i, inv);
        proof {
            assert forall|j: int| i <= j <= n implies #[trigger] suf@[j] == shifted_product(
                *ring,
                *c,
                j as nat,
                n as nat,
            ) by {
                if j > i {
                    assert(suf@[j] == old_suf[j]);
                }
            }
            assert forall|j: int| i <= j < n implies ring.smul(fact_elem(*ring, j as nat), #[trigger] inv_fact@[j])
                == ring.sone() by {
                if j > i {
                    assert(inv_fact@[j] == old_inv[j]);
                }
            }
            if i > 0 {
                let fk = fact_elem(*ring, (i - 1) as nat);
                lemma_fact_elem_valid(*ring, (i - 1) as nat);
                lemma_nat_elem_valid(*ring, (i - 1) as nat);
                assert(fact_elem(*ring, i as nat) == ring.smul(fk, k));
                ring.lemma_mul_assoc(fk, inv, k);
                lemma_mul_swap3(*ring, fk, inv, k);
                ring.lemma_add_assoc(nat_elem(*ring, (i - 1) as nat), ring.sone(), ring.sneg(ring.sone()));
                ring.lemma_add_neg(ring.sone());
                ring.lemma_add_zero(nat_elem(*ring, (i - 1) as nat));
            }
        }
        inv = next;
        k = ring.add(&k, &minus_one);
    }
    let mut k = ring.zero();
    let mut pre = ring.one();
    let mut acc0 = ring.zero();
    let mut acc1 = ring.zero();
    proof {
        ring.lemma_add_neg(ring.szero());
    }
    let mut i: usize = 0;
    while i < n
        invariant
            i <= n,
            n == ys@.len(),
            ring.valid(ring.szero()),
            ring.valid(ring.sone()),
            ring.valid(*c),
            forall|j: int| 0 <= j < ys@.len() ==> ring.valid(#[trigger] ys@[j]),
            one == ring.sone(),
            inv_fact@.len() == n,
            suf@.len() == n + 1,
            forall|j: int| 0 <= j < n ==> ring.valid(#[trigger] inv_fact@[j]),
            forall|j: int| 0 <= j <= n ==> #[trigger] suf@[j] == shifted_product(*ring, *c, j as nat, n as nat),
            forall|j: int|
                0 <= j < n ==> ring.smul(fact_elem(*ring, j as nat), #[trigger] inv_fact@[j]) == ring.sone(),
            k == nat_elem(*ring, i as nat),
            pre == shifted_product(*ring, *c, 0, i as nat),
            ring.valid(acc0),
            ring.valid(acc1),
            ring.sadd(acc0, ring.sneg(acc1)) == lagrange_sum(*ring, ys@, *c, i as nat),
        decreases n - i,
    {
        proof {
            lemma_shifted_product_valid(*ring, *c, 0, i as nat);
            lemma_shifted_product_valid(*ring, *c, (i + 1) as nat, n as nat);
            lemma_nat_elem_valid(*ring, i as nat);
        }
        let numer = ring.mul(&pre, &suf[i + 1]);
        let denom = ring.mul(&inv_fact[i], &inv_fact[n - 1 - i]);
        let term = ring.mul(&ring.mul(&ys[i], &numer), &denom);
        proof {
            lemma_term(*ring, ys@, *c, i as nat, inv_fact@[i as int], inv_fact@[n - 1 - i]);
            lemma_acc_step(*ring, acc0, acc1, term, (n - 1 - i) as nat);
        }
        if (n - 1 - i) % 2 == 0 {
            acc0 = ring.add(&acc0, &term);
        } else {
            acc1 = ring.add(&acc1, &term);
        }
        proof {
            ring.lemma_add_neg(k);
        }
        pre = ring.mul(&pre, &ring.add(c, &ring.neg(&k)));
        k = ring.add(&k, &one);
        i = i + 1;
    }
    ring.add(&acc0, &ring.neg(&acc1))
}

/// A product with a zero factor is zero.
proof fn lemma_shifted_product_zero<R: Ring>(r: R, a: R::Value, lo: nat, hi: nat, j: nat)
    requires
        r.valid(a),
        lo <= j < hi,
        minus_nat(r, a, j) == r.szero(),
    ensures
        shifted_product(r, a, lo, hi) == r.szero(),
    decreases hi,
{
    let h = (hi - 1) as nat;
    lemma_shifted_product_valid(r, a, lo, h);
    lemma_minus_nat_valid(r, a, h);
    r.lemma_mul_zero(shifted_product(r, a, lo, h));
    if j < h {
        lemma_shifted_product_zero(r, a, lo, h, j);
        r.lemma_mul_zero(minus_nat(r, a, h));
    }
}

/// At the node `i0`, every term but the `i0`-th vanishes, and that one is `ys[i0]`.
proof fn lemma_term_at_node<F: Field>(f: F, ys: Seq<F::Value>, i0: nat, i: nat)
    requires
        forall|j: int| 0 <= j < ys.len() ==> f.valid(#[trigger] ys[j]),
        small_invertible(f, ys.len()),
        i0 < ys.len(),
        i < ys.len(),
    ensures
        lagrange_term(f, ys, nat_elem(f, i0), i) == if i == i0 {
            ys[i0 as int]
        } else {
            f.szero()
        },
{
    let n = ys.len();
    let c = nat_elem(f, i0);
    f.lemma_closed(ys[i as int], ys[i as int]);
    lemma_nat_elem_valid(f, i0);
    lemma_nat_elem_valid(f, i);
    lemma_denominator_valid(f, n, i);
    let d = product_except(f, nat_elem(f, i), n, i);
    let y = ys[i as int];
    lemma_fact_nonzero(f, n, i);
    lemma_fact_nonzero(f, n, (n - 1 - i) as nat);
    lemma_fact_elem_valid(f, i);
    lemma_fact_elem_valid(f, (n - 1 - i) as nat);
    f.lemma_inv(fact_elem(f, i));
    f.lemma_inv(fact_elem(f, (n - 1 - i) as nat));
    lemma_denominator(f, n, i, f.sinv(fact_elem(f, i)), f.sinv(fact_elem(f, (n - 1 - i) as nat)));
    f.lemma_inv(d);
    if i == i0 {
        f.lemma_mul_assoc(y, d, f.sinv(d));
        f.lemma_mul_one(y);
    } else {
        lemma_minus_nat_elem(f, i0, i0);
        assert(nat_elem(f, 0) == f.szero());
        lemma_shifted_product_valid(f, c, 0, i);
        lemma_shifted_product_valid(f, c, i + 1, n);
        if i0 < i {
            lemma_shifted_product_zero(f, c, 0, i, i0);
            f.lemma_mul_zero(shifted_product(f, c, i + 1, n));
        } else {
            lemma_shifted_product_zero(f, c, i + 1, n, i0);
            f.lemma_mul_zero(shifted_product(f, c, 0, i));
        }
        f.lemma_mul_zero(y);
        f.lemma_mul_zero(f.sinv(d));
    }
}

/// The partial sums at the node `i0`: zero before the `i0`-th term, `ys[i0]` from it on.
proof fn lemma_sum_at_node<F: Field>(f: F, ys: Seq<F::Value>, i0: nat, k: nat)
    requires
        forall|j: int| 0 <= j < ys.len() ==> f.valid(#[trigger] ys[j]),
        small_invertible(f, ys.len()),
        i0 < ys.len(),
        k <= ys.len(),
    ensures
        lagrange_sum(f, ys, nat_elem(f, i0), k) == if k > i0 {
            ys[i0 as int]
        } else {
            f.szero()
        },
    decreases k,
{
    f.lemma_closed(ys[i0 as int], ys[i0 as int]);
    if k > 0 {
        lemma_sum_at_node(f, ys, i0, (k - 1) as nat);
        lemma_term_at_node(f, ys, i0, (k - 1) as nat);
        f.lemma_add_zero(ys[i0 as int]);
        f.lemma_add_zero(f.szero());
    }
}

/// The values `f(c), f(c + 1), ..., f(c + m - 1)` of the polynomial `f` of degree less than
/// `n = ys.len()` with `f(i) = ys[i]` on `[0, n)`, each by Lagrange's formula, in O(nm).
/// `1, ..., n - 1` must be nonzero in the field.
pub fn iota_shift<F: Field>(ring: &F, ys: &[F::Value], c: &F::Value, m: usize) -> (r: Vec<F::Value>)
    requires
        ring.valid(*c),
        forall|i: int| 0 <= i < ys@.len() ==> ring.valid(#[trigger] ys@[i]),
        small_invertible(*ring, ys@.len()),
        ys@.len() < usize::MAX,
    ensures
        r@.len() == m,
        forall|k: int|
            0 <= k < m ==> #[trigger] r@[k] == iota_value(
                *ring,
                ys@,
                ring.sadd(*c, nat_elem(*ring, k as nat)),
            ),
{
    let one = ring.one();
    let mut x = ring.add(c, &ring.zero());
    proof {
        ring.lemma_add_zero(*c);
    }
    let mut values: Vec<F::Value> = Vec::new();
    let mut k: usize = 0;
    while k < m
        invariant
            k <= m,
            values@.len() == k,
            one == ring.sone(),
            ring.valid(*c),
            ring.valid(x),
            x == ring.sadd(*c, nat_elem(*ring, k as nat)),
            forall|i: int| 0 <= i < ys@.len() ==> ring.valid(#[trigger] ys@[i]),
            small_invertible(*ring, ys@.len()),
            ys@.len() < usize::MAX,
            forall|j: int|
                0 <= j < k ==> #[trigger] values@[j] == iota_value(
                    *ring,
                    ys@,
                    ring.sadd(*c, nat_elem(*ring, j as nat)),
                ),
        decreases m - k,
    {
        let v = iota_evaluate(ring, ys, &x);
        values.push(v);
        proof {
            ring.lemma_closed(*c, *c);
            lemma_nat_elem_valid(*ring, k as nat);
            ring.lemma_add_assoc(*c, nat_elem(*ring, k as nat), ring.sone());
            ring.lemma_closed(x, ring.sone());
        }
        x = ring.add(&x, &one);
        k = k + 1;
    }
    values
}

/// The values `f(xs[j])` of the polynomial `Σ_k f[k] t^k` at the points `xs`, each by Horner's
/// rule, in O(nm).
pub fn multipoint_evaluate<F: Field>(ring: &F, f: &[F::Value], xs: &[F::Value]) -> (r: Vec<F::Value>)
    requires
        valid_poly(*ring, f@),
        valid_poly(*ring, xs@),
    ensures
        r@.len() == xs@.len(),
        forall|j: int| 0 <= j < r@.len() ==> #[trigger] r@[j] == poly_eval(*ring, f@, xs@[j]),
{
    let n = xs.len();
    let mut values: Vec<F::Value> = Vec::new();
    let mut j: usize = 0;
    while j < n
        invariant
            j <= n,
            n == xs@.len(),
            valid_poly(*ring, xs@),
            valid_poly(*ring, f@),
            values@.len() == j,
            forall|i: int| 0 <= i < j ==> #[trigger] values@[i] == poly_eval(*ring, f@, xs@[i]),
        decreases n - j,
    {
        let v = eval_at(ring, f, &xs[j]);
        values.push(v);
        j = j + 1;
    }
    values
}

/// The formula interpolates: the polynomial given by the values `ys` takes the value `ys[i]` at
/// the point `i`, for each `i` in `[0, n)`.
pub proof fn lemma_iota_value_at_node<F: Field>(f: F, ys: Seq<F::Value>, i: nat)
    requires
        forall|j: int| 0 <= j < ys.len() ==> f.valid(#[trigger] ys[j]),
        small_invertible(f, ys.len()),
        i < ys.len(),
    ensures
        iota_value(f, ys, nat_elem(f, i)) == ys[i as int],
{
    lemma_sum_at_node(f, ys, i, ys.len());
}

} // verus!
