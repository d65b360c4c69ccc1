//! The Dirichlet convolution of arithmetic functions tabulated on `[0, n)`.
use crate::algebra::Semiring;
use vstd::arithmetic::div_mod::{lemma_div_multiples_vanish, lemma_fundamental_div_mod, lemma_mod_multiples_basic};
use vstd::arithmetic::mul::{lemma_mul_is_commutative, lemma_mul_strict_inequality};
use vstd::prelude::*;

verus! {

/// `Σ_{1 <= a < k, a | m} f(a) g(m / a)`, the terms added in increasing order of `a`.
pub open spec fn divisor_sum<R: Semiring>(ring: R, f: Seq<R::Value>, g: Seq<R::Value>, m: int, k: int) -> R::Value
    decreases k,
{
    if k <= 1 {
        ring.szero()
    } else {
        let a = k - 1;
        let prev = divisor_sum(ring, f, g, m, a);
        if m % a == 0 {
            ring.sadd(prev, ring.smul(f[a], g[m / a]))
        } else {
            prev
        }
    }
}

/// The Dirichlet convolution `(f * g)(m) = Σ_{ab = m} f(a) g(b)` over `a, b >= 1`, and `0` at
/// `m = 0`.
pub open spec fn dirichlet<R: Semiring>(ring: R, f: Seq<R::Value>, g: Seq<R::Value>, m: int) -> R::Value {
    if m <= 0 {
        ring.szero()
    } else {
        divisor_sum(ring, f, g, m, m + 1)
    }
}

/// The sum stops growing past `m`: no `a > m` divides `m >= 1`.
proof fn lemma_divisor_sum_stable<R: Semiring>(ring: R, f: Seq<R::Value>, g: Seq<R::Value>, m: int, k: int)
    requires
        1 <= m,
        m + 1 <= k,
    ensures
        divisor_sum(ring, f, g, m, k) == divisor_sum(ring, f, g, m, m + 1),
    decreases k,
{
    if k > m + 1 {
        let a = k - 1;
        assert(m % a == m) by {
            vstd::arithmetic::div_mod::lemma_small_mod(m as nat, a as nat);
        }
        lemma_divisor_sum_stable(ring, f, g, m, k - 1);
    }
}

/// The Dirichlet convolution of `f` and `g` on `[0, n)`: `h(m) = Σ_{ab = m} f(a) g(b)` over
/// `a, b >= 1` for `1 <= m < n`, and `h(0) = 0`. No transform diagonalizes it, so it is computed
/// directly, over the pairs `(a, b)` with `ab < n`.
pub fn dirichlet_convolve<R: Semiring>(ring: &R, f: &[R::Value], g: &[R::Value]) -> (h: Vec<R::Value>)
    requires
        f@.len() == g@.len(),
        forall|i: int| 0 <= i < f@.len() ==> ring.valid(#[trigger] f@[i]),
        forall|i: int| 0 <= i < g@.len() ==> ring.valid(#[trigger] g@[i]),
    ensures
        h@.len() == f@.len(),
        forall|m: int| 0 <= m < h@.len() ==> #[trigger] h@[m] == dirichlet(*ring, f@, g@, m),
{
    let n = f.len();
    let mut h: Vec<R::Value> = Vec::with_capacity(n);
    let zero = ring.zero();
    let mut t: usize = 0;
    while t < n
        invariant
            zero == ring.szero(),
            ring.valid(zero),
            t <= n,
            h@.len() == t,
            forall|m: int| 0 <= m < t ==> #[trigger] h@[m] == ring.szero(),
        decreases n - t,
    {
        h.push(ring.zero());
        proof {
            assert forall|m: int| 0 <= m < h@.len() implies #[trigger] h@[m] == ring.szero() by {}
        }
        t = t + 1;
    }
    let mut a: usize = 1;
    while a < n
        invariant
            1 <= a,
            n == f@.len(),
            n == g@.len(),
            h@.len() == n,
            n >= 1 ==> a <= n,
            forall|i: int| 0 <= i < n ==> ring.valid(#[trigger] f@[i]),
            forall|i: int| 0 <= i < n ==> ring.valid(#[trigger] g@[i]),
            ring.valid(ring.szero()),
            forall|m: int| 0 <= m < n ==> ring.valid(#[trigger] h@[m]),
            h@[0] == ring.szero() || n == 0,
            forall|m: int| 1 <= m < n ==> #[trigger] h@[m] == divisor_sum(*ring, f@, g@, m, a as int),
        decreases n - a,
    {
        let mut b: usize = 1;
        let bmax = (n - 1) / a;
        proof {
            lemma_fundamental_div_mod((n - 1) as int, a as int);
            assert forall|m: int| 1 <= m < n implies #[trigger] h@[m] == if m % (a as int) == 0 && m / (a as int) < b {
                divisor_sum(*ring, f@, g@, m, a + 1)
            } else {
                divisor_sum(*ring, f@, g@, m, a as int)
            } by {
                if m % (a as int) == 0 && m / (a as int) < 1 {
                    lemma_fundamental_div_mod(m, a as int);
                }
            }
        }
        while b <= bmax
            invariant
                1 <= a < n,
                1 <= b <= bmax + 1,
                bmax == (n - 1) / (a as int),
                a * bmax <= n - 1,
                n == f@.len(),
                n == g@.len(),
                h@.len() == n,
                forall|i: int| 0 <= i < n ==> ring.valid(#[trigger] f@[i]),
                forall|i: int| 0 <= i < n ==> ring.valid(#[trigger] g@[i]),
                forall|m: int| 0 <= m < n ==> ring.valid(#[trigger] h@[m]),
                h@[0] == ring.szero(),
                forall|m: int|
                    1 <= m < n ==> #[trigger] h@[m] == if m % (a as int) == 0 && m / (a as int) < b {
                        divisor_sum(*ring, f@, g@, m, a + 1)
                    } else {
                        divisor_sum(*ring, f@, g@, m, a as int)
                    },
            decreases bmax + 1 - b,
        {
            proof {
                lemma_mul_strict_inequality(0, a as int, b as int);
                assert(a * b <= a * bmax) by (nonlinear_arith)
                    requires
                        b <= bmax,
                        a >= 1,
                ;
            }
            let i = a * b;
            proof {
                lemma_mul_is_commutative(a as int, b as int);
                lemma_mod_multiples_basic(b as int, a as int);
                lemma_div_multiples_vanish(b as int, a as int);
                assert(h@[i as int] == divisor_sum(*ring, f@, g@, i as int, a as int));
                ring.lemma_closed(f@[a as int], g@[b as int]);
                ring.lemma_closed(h@[i as int], ring.smul(f@[a as int], g@[b as int]));
            }
            let v = ring.add(&h[i], &ring.mul(&f[a], &g[b]));
            let ghost before = h@;
            h.set(i, v);
            proof {
                assert forall|m: int| 0 <= m < n implies ring.valid(#[trigger] h@[m]) by {
                    if m != i {
                        assert(h@[m] == before[m]);
                    }
                }
                assert forall|m: int| 1 <= m < n implies #[trigger] h@[m] == if m % (a as int) == 0 && m / (a as int)
                    < b + 1 {
                    divisor_sum(*ring, f@, g@, m, a + 1)
                } else {
                    divisor_sum(*ring, f@, g@, m, a as int)
                } by {
                    if m != i {
                        assert(h@[m] == before[m]);
                        if m % (a as int) == 0 && m / (a as int) == b {
                            lemma_fundamental_div_mod(m, a as int);
                            assert(m == a * b);
                        }
                    }
                }
            }
            b = b + 1;
        }
        proof {
            assert forall|m: int| 1 <= m < n implies #[trigger] h@[m] == divisor_sum(*ring, f@, g@, m, a + 1) by {
                if m % (a as int) == 0 {
                    assert(m / (a as int) <= bmax) by {
                        vstd::arithmetic::div_mod::lemma_div_is_ordered(m, (n - 1) as int, a as int);
                    }
                }
            }
        }
        a = a + 1;
    }
    proof {
        assert forall|m: int| 0 <= m < h@.len() implies #[trigger] h@[m] == dirichlet(*ring, f@, g@, m) by {
            if m >= 1 {
                lemma_divisor_sum_stable(*ring, f@, g@, m, a as int);
            }
        }
    }
    h
}

} // verus!
