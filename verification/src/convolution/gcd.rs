//! The multiple zeta and Möbius transforms, which turn the gcd convolution on `[0, n)` into the
//! pointwise product.
use crate::algebra::{Ring, Semiring};
use vstd::arithmetic::div_mod::lemma_fundamental_div_mod;
use vstd::arithmetic::mul::{lemma_mul_inequality, lemma_mul_is_distributive_add_other_way};
use vstd::prelude::*;

verus! {

/// Every value is valid.
pub open spec fn valid_values<R: Semiring>(ring: R, f: Seq<R::Value>) -> bool {
    forall|i: int| 0 <= i < f.len() ==> ring.valid(#[trigger] f[i])
}

/// `Σ_{i = lo, ..., c} f(i d)`, added in increasing order of `i`.
pub open spec fn multiples_from<R: Semiring>(ring: R, f: Seq<R::Value>, d: int, lo: int, c: int) -> R::Value
    decreases c - lo + 1,
{
    if c < lo {
        ring.szero()
    } else {
        ring.sadd(multiples_from(ring, f, d, lo, c - 1), f[c * d])
    }
}

/// The multiple zeta transform at `d`: `f(0)` at `0`, and `f(0) + Σ_{x >= 1, d | x} f(x)` over
/// `x < n` for `d >= 1`, as `0` is divisible by every `d`.
pub open spec fn multiple_zeta<R: Semiring>(ring: R, f: Seq<R::Value>, d: int) -> R::Value {
    if d == 0 {
        f[0]
    } else {
        ring.sadd(f[0], multiples_from(ring, f, d, 1, (f.len() - 1) / d))
    }
}

/// The operations of the semilattice `(N, gcd)` on `[0, n)`.
pub struct Gcd;

/// `c d < n` for `1 <= c <= (n - 1) / d`.
proof fn lemma_multiple_bound(n: int, d: int, c: int)
    requires
        1 <= d,
        1 <= n,
        0 <= c <= (n - 1) / d,
    ensures
        c * d <= n - 1,
        d <= c * d || c == 0,
{
    lemma_fundamental_div_mod(n - 1, d);
    lemma_mul_inequality(c, (n - 1) / d, d);
    vstd::arithmetic::mul::lemma_mul_is_commutative(d, (n - 1) / d);
    if c >= 1 {
        lemma_mul_inequality(1, c, d);
    }
}

proof fn lemma_multiples_valid<R: Semiring>(ring: R, f: Seq<R::Value>, d: int, lo: int, c: int)
    requires
        valid_values(ring, f),
        f.len() >= 1,
        1 <= d,
        1 <= lo,
        c <= (f.len() - 1) / d,
    ensures
        ring.valid(multiples_from(ring, f, d, lo, c)),
    decreases c - lo + 1,
{
    ring.lemma_closed(f[0], f[0]);
    if c >= lo {
        lemma_multiples_valid(ring, f, d, lo, c - 1);
        lemma_multiple_bound(f.len() as int, d, c);
        ring.lemma_closed(multiples_from(ring, f, d, lo, c - 1), f[c * d]);
    }
}

/// The sum reads `f` only at the multiples `i d`, `lo <= i <= c`.
proof fn lemma_multiples_frame<R: Semiring>(ring: R, f: Seq<R::Value>, g: Seq<R::Value>, d: int, lo: int, c: int)
    requires
        forall|i: int| lo <= i <= c ==> #[trigger] g[i * d] == f[i * d],
    ensures
        multiples_from(ring, g, d, lo, c) == multiples_from(ring, f, d, lo, c),
    decreases c - lo + 1,
{
    if c >= lo {
        lemma_multiples_frame(ring, f, g, d, lo, c - 1);
        assert(g[c * d] == f[c * d]);
    }
}

/// The first multiple can be taken out: `Σ_{i=1..c} = f(d) + Σ_{i=2..c}`.
proof fn lemma_multiples_first<R: Semiring>(ring: R, f: Seq<R::Value>, d: int, c: int)
    requires
        valid_values(ring, f),
        f.len() >= 1,
        1 <= d,
        1 <= c <= (f.len() - 1) / d,
    ensures
        multiples_from(ring, f, d, 1, c) == ring.sadd(f[d], multiples_from(ring, f, d, 2, c)),
    decreases c,
{
    ring.lemma_closed(f[0], f[0]);
    lemma_multiple_bound(f.len() as int, d, 1);
    assert(1 * d == d);
    if c == 1 {
        assert(multiples_from(ring, f, d, 1, 0) == ring.szero());
        ring.lemma_add_zero(f[d]);
    } else {
        lemma_multiples_first(ring, f, d, c - 1);
        lemma_multiple_bound(f.len() as int, d, c);
        lemma_multiples_valid(ring, f, d, 2, c - 1);
        ring.lemma_add_assoc(f[d], multiples_from(ring, f, d, 2, c - 1), f[c * d]);
    }
}

/// `Σ_{i = lo, ..., c} f(i d)`, computed.
fn multiples_exec<R: Semiring>(ring: &R, f: &[R::Value], d: usize, lo: usize, c: usize) -> (s: R::Value)
    requires
        valid_values(*ring, f@),
        f@.len() >= 1,
        1 <= d,
        1 <= lo,
        c <= (f@.len() - 1) / (d as int),
    ensures
        s == multiples_from(*ring, f@, d as int, lo as int, c as int),
        ring.valid(s),
{
    let n = f.len();
    let mut s = ring.zero();
    proof {
        ring.lemma_closed(f@[0], f@[0]);
    }
    if c < lo {
        return s;
    }
    let mut i: usize = lo;
    proof {
        lemma_multiple_bound(n as int, d as int, lo as int);
        assert(multiples_from(*ring, f@, d as int, lo as int, lo - 1) == ring.szero());
    }
    let mut x: usize = lo * d;
    while i <= c
        invariant
            1 <= lo <= i,
            i <= c + 1,
            c <= (n - 1) / (d as int),
            n == f@.len(),
            n >= 1,
            1 <= d,
            valid_values(*ring, f@),
            i <= c ==> x == i * d,
            ring.valid(s),
            s == multiples_from(*ring, f@, d as int, lo as int, i - 1),
        decreases c + 1 - i,
    {
        proof {
            lemma_multiple_bound(n as int, d as int, i as int);
        }
        s = ring.add(&s, &f[x]);
        if i < c {
            proof {
                lemma_multiple_bound(n as int, d as int, (i + 1) as int);
                lemma_mul_is_distributive_add_other_way(d as int, i as int, 1);
            }
            x = x + d;
        }
        i = i + 1;
    }
    s
}

impl Gcd {
    /// The multiple zeta transform, in place: `f(d)` becomes `f(0) + Σ_{x >= 1, d | x} f(x)` for
    /// `d >= 1`, and `f(0)` stays; each sum taken over the multiples directly, in O(n log n).
    pub fn transform<R: Semiring>(&self, ring: &R, f: &mut [R::Value])
        requires
            valid_values(*ring, old(f)@),
        ensures
            final(f)@.len() == old(f)@.len(),
            forall|d: int| 0 <= d < final(f)@.len() ==> #[trigger] final(f)@[d] == multiple_zeta(*ring, old(f)@, d),
    {
        let ghost f0 = f@;
        let n = f.len();
        if n == 0 {
            return;
        }
        let mut g: Vec<R::Value> = Vec::new();
        let z = ring.zero();
        proof {
            ring.lemma_add_zero(f0[0]);
        }
        g.push(ring.add(&f[0], &z));
        let mut d: usize = 1;
        while d < n
            invariant
                1 <= d <= n,
                n == f0.len(),
                f@ == f0,
                valid_values(*ring, f0),
                g@.len() == d,
                forall|x: int| 0 <= x < d ==> #[trigger] g@[x] == multiple_zeta(*ring, f0, x),
            decreases n - d,
        {
            let s = multiples_exec(ring, f, d, 1, (n - 1) / d);
            g.push(ring.add(&f[0], &s));
            d = d + 1;
        }
        let mut k: usize = n;
        while k > 0
            invariant
                k <= n,
                n == f0.len(),
                f@.len() == n,
                g@.len() == k,
                forall|x: int| 0 <= x < k ==> #[trigger] g@[x] == multiple_zeta(*ring, f0, x),
                forall|x: int| k <= x < n ==> #[trigger] f@[x] == multiple_zeta(*ring, f0, x),
            decreases k,
        {
            let v = g.pop().unwrap();
            k = k - 1;
            f[k] = v;
        }
    }

    /// The multiple Möbius transform, in place: the inverse of [`Gcd::transform`], so that the
    /// zeta transform of the result is the input; from the largest `d` down, `h(d) = f(d) - f(0) -
    /// Σ_{x > d, d | x} h(x)`, in O(n log n).
    pub fn inverse_transform<R: Ring>(&self, ring: &R, f: &mut [R::Value])
        requires
            valid_values(*ring, old(f)@),
        ensures
            final(f)@.len() == old(f)@.len(),
            forall|d: int| 0 <= d < final(f)@.len() ==> #[trigger] multiple_zeta(*ring, final(f)@, d) == old(f)@[d],
    {
        let ghost f0 = f@;
        let n = f.len();
        if n == 0 {
            return;
        }
        let z = ring.zero();
        proof {
            ring.lemma_closed(f0[0], f0[0]);
            ring.lemma_add_zero(f0[0]);
        }
        let h0 = ring.add(&f[0], &z);
        let mut h: Vec<R::Value> = Vec::new();
        h.push(ring.add(&f[0], &z));
        while h.len() < n
            invariant
                1 <= h@.len() <= n,
                h@[0] == f0[0],
                ring.valid(ring.szero()),
                valid_values(*ring, h@),
            decreases n - h@.len(),
        {
            h.push(ring.zero());
        }
        let mut d: usize = n;
        while d > 1
            invariant
                1 <= d <= n,
                n == f0.len(),
                f@ == f0,
                h@.len() == n,
                h0 == f0[0],
                h@[0] == f0[0],
                valid_values(*ring, f0),
                valid_values(*ring, h@),
                forall|e: int| d <= e < n ==> #[trigger] multiple_zeta(*ring, h@, e) == f0[e],
            decreases d,
        {
            d = d - 1;
            let q = (n - 1) / d;
            proof {
                vstd::arithmetic::div_mod::lemma_div_basics((n - 1) as int);
                vstd::arithmetic::div_mod::lemma_div_is_ordered(d as int, (n - 1) as int, d as int);
            }
            let r = multiples_exec(ring, h.as_slice(), d, 2, q);
            let x = ring.add(&h0, &r);
            let v = ring.add(&f[d], &ring.neg(&x));
            let ghost old_h = h@;
            h.set(d, v);
            proof {
                assert(h@[0] == old_h[0]);
                assert(valid_values(*ring, h@));
                assert forall|e: int| d <= e < n implies #[trigger] multiple_zeta(*ring, h@, e) == f0[e] by {
                    let qe = (n - 1) / e;
                    if e > d {
                        assert(multiple_zeta(*ring, old_h, e) == f0[e]);
                        assert forall|i: int| 1 <= i <= qe implies #[trigger] h@[i * e] == old_h[i * e] by {
                            lemma_multiple_bound(n as int, e, i);
                        }
                        lemma_multiples_frame(*ring, old_h, h@, e, 1, qe);
                    } else {
                        assert forall|i: int| 2 <= i <= q implies #[trigger] h@[i * e] == old_h[i * e] by {
                            lemma_multiple_bound(n as int, e, i);
                            lemma_mul_inequality(2, i, e);
                        }
                        lemma_multiples_frame(*ring, old_h, h@, e, 2, q as int);
                        lemma_multiples_first(*ring, h@, e, q as int);
                        assert(h@[e] == v);
                        assert(multiples_from(*ring, h@, e, 2, q as int) == r);
                        ring.lemma_add_neg(x);
                        ring.lemma_closed(v, r);
                        ring.lemma_closed(h0, r);
                        ring.lemma_add_comm(h0, ring.sadd(v, r));
                        ring.lemma_add_assoc(v, r, h0);
                        ring.lemma_add_comm(r, h0);
                        ring.lemma_add_assoc(f0[e], ring.sneg(x), x);
                        ring.lemma_add_comm(ring.sneg(x), x);
                        ring.lemma_add_zero(f0[e]);
                    }
                }
            }
        }
        let ghost hf = h@;
        let mut k: usize = n;
        while k > 0
            invariant
                k <= n,
                n == f0.len(),
                f@.len() == n,
                hf.len() == n,
                h@.len() == k,
                forall|x: int| 0 <= x < k ==> #[trigger] h@[x] == hf[x],
                forall|x: int| k <= x < n ==> #[trigger] f@[x] == hf[x],
            decreases k,
        {
            let v = h.pop().unwrap();
            k = k - 1;
            f[k] = v;
        }
        proof {
            assert(f@ =~= hf);
        }
    }
}

} // verus!
