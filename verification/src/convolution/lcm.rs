//! The divisor zeta and Möbius transforms, which turn the lcm convolution on `[0, n)` into the
//! pointwise product.
use crate::algebra::{Ring, Semiring};
use crate::convolution::gcd::valid_values;
use vstd::prelude::*;

verus! {

/// `Σ_{1 <= x <= k, x | m} f(x)`, added in increasing order of `x`.
pub open spec fn divisors_upto<R: Semiring>(ring: R, f: Seq<R::Value>, m: int, k: int) -> R::Value
    decreases k,
{
    if k <= 0 {
        ring.szero()
    } else if m % k == 0 {
        ring.sadd(divisors_upto(ring, f, m, k - 1), f[k])
    } else {
        divisors_upto(ring, f, m, k - 1)
    }
}

/// `Σ_{x < k} f(x)`, added in increasing order.
pub open spec fn prefix_total<R: Semiring>(ring: R, f: Seq<R::Value>, k: int) -> R::Value
    decreases k,
{
    if k <= 0 {
        ring.szero()
    } else {
        ring.sadd(prefix_total(ring, f, k - 1), f[k - 1])
    }
}

/// `Σ_{1 <= x < k} f(x)`, added in increasing order.
pub open spec fn tail_total<R: Semiring>(ring: R, f: Seq<R::Value>, k: int) -> R::Value
    decreases k,
{
    if k <= 1 {
        ring.szero()
    } else {
        ring.sadd(tail_total(ring, f, k - 1), f[k - 1])
    }
}

/// The divisor zeta transform at `m`: `Σ_{x | m} f(x)` over `x < n`; every `x` divides `0`, and
/// `0` divides no `m >= 1`.
pub open spec fn divisor_zeta<R: Semiring>(ring: R, f: Seq<R::Value>, m: int) -> R::Value {
    if m == 0 {
        prefix_total(ring, f, f.len() as int)
    } else {
        divisors_upto(ring, f, m, m)
    }
}

/// The operations of the semilattice `(N, lcm)` on `[0, n)`.
pub struct Lcm;

proof fn lemma_divisors_valid<R: Semiring>(ring: R, f: Seq<R::Value>, m: int, k: int)
    requires
        valid_values(ring, f),
        f.len() >= 1,
        k < f.len(),
    ensures
        ring.valid(divisors_upto(ring, f, m, k)),
    decreases k,
{
    ring.lemma_closed(f[0], f[0]);
    if k > 0 {
        lemma_divisors_valid(ring, f, m, k - 1);
        ring.lemma_closed(divisors_upto(ring, f, m, k - 1), f[k]);
    }
}

proof fn lemma_tail_valid<R: Semiring>(ring: R, f: Seq<R::Value>, k: int)
    requires
        valid_values(ring, f),
        f.len() >= 1,
        k <= f.len(),
    ensures
        ring.valid(tail_total(ring, f, k)),
    decreases k,
{
    ring.lemma_closed(f[0], f[0]);
    if k > 1 {
        lemma_tail_valid(ring, f, k - 1);
        ring.lemma_closed(tail_total(ring, f, k - 1), f[k - 1]);
    }
}

/// The sums read `f` only at `1 <= x <= k`.
proof fn lemma_divisors_frame<R: Semiring>(ring: R, f: Seq<R::Value>, g: Seq<R::Value>, m: int, k: int)
    requires
        forall|x: int| 1 <= x <= k ==> #[trigger] g[x] == f[x],
    ensures
        divisors_upto(ring, g, m, k) == divisors_upto(ring, f, m, k),
        tail_total(ring, g, k + 1) == tail_total(ring, f, k + 1),
    decreases k,
{
    if k > 0 {
        lemma_divisors_frame(ring, f, g, m, k - 1);
        assert(g[k] == f[k]);
    }
}

/// The total is the first value plus the rest.
proof fn lemma_prefix_split<R: Semiring>(ring: R, f: Seq<R::Value>, k: int)
    requires
        valid_values(ring, f),
        1 <= k <= f.len(),
    ensures
        prefix_total(ring, f, k) == ring.sadd(f[0], tail_total(ring, f, k)),
    decreases k,
{
    ring.lemma_closed(f[0], f[0]);
    if k == 1 {
        ring.lemma_add_zero(f[0]);
        assert(prefix_total(ring, f, 0) == ring.szero());
    } else {
        lemma_prefix_split(ring, f, k - 1);
        lemma_tail_valid(ring, f, k - 1);
        ring.lemma_add_assoc(f[0], tail_total(ring, f, k - 1), f[k - 1]);
    }
}

/// `Σ_{1 <= x <= k, x | m} f(x)`, computed.
fn divisors_exec<R: Semiring>(ring: &R, f: &[R::Value], m: usize, k: usize) -> (s: R::Value)
    requires
        valid_values(*ring, f@),
        k < f@.len(),
    ensures
        s == divisors_upto(*ring, f@, m as int, k as int),
        ring.valid(s),
{
    let mut s = ring.zero();
    proof {
        ring.lemma_closed(f@[0], f@[0]);
    }
    let mut x: usize = 1;
    while x <= k
        invariant
            1 <= x <= k + 1,
            k < f@.len(),
            valid_values(*ring, f@),
            ring.valid(s),
            s == divisors_upto(*ring, f@, m as int, x - 1),
        decreases k + 1 - x,
    {
        if m % x == 0 {
            s = ring.add(&s, &f[x]);
        }
        x = x + 1;
    }
    s
}

impl Lcm {
    /// The divisor zeta transform, in place: `f(m)` becomes `Σ_{x | m} f(x)`, so that `f(0)` is
    /// the sum of all values; each sum over the candidates directly, in O(n^2).
    pub fn transform<R: Semiring>(&self, ring: &R, f: &mut [R::Value])
        requires
            valid_values(*ring, old(f)@),
        ensures
            final(f)@.len() == old(f)@.len(),
            forall|m: int| 0 <= m < final(f)@.len() ==> #[trigger] final(f)@[m] == divisor_zeta(*ring, old(f)@, m),
    {
        let ghost f0 = f@;
        let n = f.len();
        if n == 0 {
            return;
        }
        let mut total = ring.zero();
        proof {
            ring.lemma_closed(f0[0], f0[0]);
        }
        let mut x: usize = 0;
        while x < n
            invariant
                x <= n,
                n == f0.len(),
                f@ == f0,
                valid_values(*ring, f0),
                ring.valid(total),
                total == prefix_total(*ring, f0, x as int),
            decreases n - x,
        {
            total = ring.add(&total, &f[x]);
            x = x + 1;
        }
        let mut g: Vec<R::Value> = Vec::new();
        g.push(total);
        let mut m: usize = 1;
        while m < n
            invariant
                1 <= m <= n,
                n == f0.len(),
                f@ == f0,
                valid_values(*ring, f0),
                g@.len() == m,
                forall|y: int| 0 <= y < m ==> #[trigger] g@[y] == divisor_zeta(*ring, f0, y),
            decreases n - m,
        {
            let s = divisors_exec(ring, f, m, m);
            g.push(s);
            m = m + 1;
        }
        let ghost gf = g@;
        let mut k: usize = n;
        while k > 0
            invariant
                k <= n,
                f@.len() == n,
                gf.len() == n,
                g@.len() == k,
                forall|y: int| 0 <= y < k ==> #[trigger] g@[y] == gf[y],
                forall|y: int| k <= y < n ==> #[trigger] f@[y] == gf[y],
            decreases k,
        {
            let v = g.pop().unwrap();
            k = k - 1;
            f[k] = v;
        }
        proof {
            assert(f@ =~= gf);
        }
    }

    /// The divisor Möbius transform, in place: the inverse of [`Lcm::transform`], so that the
    /// zeta transform of the result is the input; `h(m) = f(m) - Σ_{x | m, x < m} h(x)` for
    /// `m = 1, 2, ...`, then `h(0) = f(0) - Σ_{x >= 1} h(x)`, in O(n^2).
    pub fn inverse_transform<R: Ring>(&self, ring: &R, f: &mut [R::Value])
        requires
            valid_values(*ring, old(f)@),
        ensures
            final(f)@.len() == old(f)@.len(),
            forall|m: int| 0 <= m < final(f)@.len() ==> #[trigger] divisor_zeta(*ring, final(f)@, m) == old(f)@[m],
    {
        let ghost f0 = f@;
        let n = f.len();
        if n == 0 {
            return;
        }
        proof {
            ring.lemma_closed(f0[0], f0[0]);
        }
        let mut h: Vec<R::Value> = Vec::new();
        while h.len() < n
            invariant
                h@.len() <= n,
                ring.valid(ring.szero()),
                valid_values(*ring, h@),
            decreases n - h@.len(),
        {
            h.push(ring.zero());
        }
        let mut m: usize = 1;
        while m < n
            invariant
                1 <= m <= n,
                n == f0.len(),
                f@ == f0,
                h@.len() == n,
                valid_values(*ring, f0),
                valid_values(*ring, h@),
                forall|y: int| 1 <= y < m ==> #[trigger] divisors_upto(*ring, h@, y, y) == f0[y],
            decreases n - m,
        {
            let d = divisors_exec(ring, h.as_slice(), m, m - 1);
            let v = ring.add(&f[m], &ring.neg(&d));
            let ghost old_h = h@;
            h.set(m, v);
            proof {
                assert(valid_values(*ring, h@));
                assert forall|y: int| 1 <= y < m + 1 implies #[trigger] divisors_upto(*ring, h@, y, y) == f0[y] by {
                    if y < m {
                        lemma_divisors_frame(*ring, old_h, h@, y, y);
                    } else {
                        lemma_divisors_frame(*ring, old_h, h@, y, y - 1);
                        assert(divisors_upto(*ring, h@, y, y) == ring.sadd(divisors_upto(*ring, h@, y, y - 1), h@[y]));
                        ring.lemma_add_neg(d);
                        ring.lemma_add_comm(d, v);
                        ring.lemma_add_assoc(f0[y], ring.sneg(d), d);
                        ring.lemma_add_comm(ring.sneg(d), d);
                        ring.lemma_add_zero(f0[y]);
                    }
                }
            }
            m = m + 1;
        }
        let mut t = ring.zero();
        let mut x: usize = 1;
        while x < n
            invariant
                1 <= x <= n,
                h@.len() == n,
                valid_values(*ring, h@),
                ring.valid(t),
                t == tail_total(*ring, h@, x as int),
            decreases n - x,
        {
            t = ring.add(&t, &h[x]);
            x = x + 1;
        }
        let v0 = ring.add(&f[0], &ring.neg(&t));
        let ghost old_h = h@;
        h.set(0, v0);
        proof {
            assert forall|y: int| 1 <= y < n implies #[trigger] divisors_upto(*ring, h@, y, y) == f0[y] by {
                lemma_divisors_frame(*ring, old_h, h@, y, y);
            }
            lemma_divisors_frame(*ring, old_h, h@, 0, n - 1);
            lemma_prefix_split(*ring, h@, n as int);
            ring.lemma_add_neg(t);
            ring.lemma_add_assoc(f0[0], ring.sneg(t), t);
            ring.lemma_add_comm(ring.sneg(t), t);
            ring.lemma_add_zero(f0[0]);
        }
        let ghost hf = h@;
        let mut k: usize = n;
        while k > 0
            invariant
                k <= n,
                f@.len() == n,
                hf.len() == n,
                h@.len() == k,
                forall|y: int| 0 <= y < k ==> #[trigger] h@[y] == hf[y],
                forall|y: int| k <= y < n ==> #[trigger] f@[y] == hf[y],
            decreases k,
        {
            let v = h.pop().unwrap();
            k = k - 1;
            f[k] = v;
        }
        proof {
            assert(f@ =~= hf);
            assert forall|y: int| 0 <= y < n implies #[trigger] divisor_zeta(*ring, f@, y) == f0[y] by {
                if y >= 1 {
                    assert(divisors_upto(*ring, hf, y, y) == f0[y]);
                }
            }
        }
    }
}

} // verus!
