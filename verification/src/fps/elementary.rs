//! The inverse of a formal power series.
use crate::algebra::{lemma_mul_neg, Field, Ring, Semiring};
use crate::fps::power::{
    lemma_series_pow_add, series_mul_exec, series_one_exec, series_pow,
};
use crate::num::factorial::nat_elem;
use crate::poly::evaluation::small_invertible;
use crate::poly::{all_valid, conv_coef, conv_upto};
use vstd::prelude::*;

verus! {

/// Coefficient `i` of `f`, zero past its end.
pub open spec fn series_coef<R: Semiring>(r: R, f: Seq<R::Value>, i: int) -> R::Value {
    if 0 <= i < f.len() {
        f[i]
    } else {
        r.szero()
    }
}

/// `Σ_{1 <= i < m} f(i) g(k - i)`, for `m <= k + 1`.
pub open spec fn tail_sum<R: Semiring>(r: R, f: Seq<R::Value>, g: Seq<R::Value>, k: int, m: int) -> R::Value
    decreases m,
{
    if m <= 1 {
        r.szero()
    } else {
        r.sadd(tail_sum(r, f, g, k, m - 1), r.smul(series_coef(r, f, m - 1), g[k - (m - 1)]))
    }
}

/// The inverse of `f` in `R[[x]]/(x^n)`, as its `n` coefficients: `g(0) = f(0)^{-1}` and
/// `g(k) = -f(0)^{-1} Σ_{i=1,...,k} f(i) g(k - i)` for `k >= 1`, with `f(i) = 0` past the end
/// of `f`; in O(n^2). `f(0)` must be nonzero, unless `n = 0`.
pub fn fps_inv<F: Field>(ring: &F, f: &[F::Value], n: usize) -> (g: Vec<F::Value>)
    requires
        all_valid(*ring, f@),
        n > 0 ==> f@.len() > 0 && f@[0] != ring.szero(),
    ensures
        g@.len() == n,
        n > 0 ==> g@[0] == ring.sinv(f@[0]),
        forall|k: int|
            1 <= k < n ==> #[trigger] g@[k] == ring.smul(ring.sneg(ring.sinv(f@[0])), tail_sum(*ring, f@, g@, k, k + 1)),
        forall|k: int| 0 <= k < n ==> #[trigger] conv_coef(*ring, f@, g@, k) == if k == 0 {
            ring.sone()
        } else {
            ring.szero()
        },
{
    let mut g: Vec<F::Value> = Vec::new();
    if n == 0 {
        return g;
    }
    let zero = ring.zero();
    let inv0 = ring.inv(&f[0]);
    let neg_inv0 = ring.neg(&inv0);
    g.push(inv0);
    let mut k: usize = 1;
    while k < n
        invariant
            1 <= k <= n,
            f@.len() > 0,
            all_valid(*ring, f@),
            zero == ring.szero(),
            ring.valid(zero),
            inv0 == ring.sinv(f@[0]),
            neg_inv0 == ring.sneg(inv0),
            ring.valid(neg_inv0),
            g@.len() == k,
            all_valid(*ring, g@),
            g@[0] == inv0,
            forall|x: int|
                1 <= x < k ==> #[trigger] g@[x] == ring.smul(neg_inv0, tail_sum(*ring, f@, g@, x, x + 1)),
        decreases n - k,
    {
        let mut s = ring.zero();
        let mut i: usize = 1;
        while i <= k
            invariant
                1 <= i <= k + 1,
                k < n,
                g@.len() == k,
                all_valid(*ring, f@),
                all_valid(*ring, g@),
                zero == ring.szero(),
                ring.valid(zero),
                ring.valid(s),
                s == tail_sum(*ring, f@, g@, k as int, i as int),
            decreases k + 1 - i,
        {
            let fi = if i < f.len() {
                ring.add(&f[i], &zero)
            } else {
                ring.add(&zero, &zero)
            };
            proof {
                if i < f@.len() {
                    ring.lemma_add_zero(f@[i as int]);
                } else {
                    ring.lemma_add_zero(zero);
                }
            }
            let t = ring.mul(&fi, &g[k - i]);
            s = ring.add(&s, &t);
            i = i + 1;
        }
        let ghost old_g = g@;
        let v = ring.mul(&neg_inv0, &s);
        g.push(v);
        proof {
            assert forall|x: int, m: int| 1 <= x < k + 1 && 0 <= m <= x + 1 implies #[trigger] tail_sum(*ring, f@, g@, x, m) == tail_sum(*ring, f@, old_g, x, m) by {
                lemma_tail_sum_prefix(*ring, f@, old_g, g@, x, m);
            }
            assert forall|x: int|
                1 <= x < k + 1 implies #[trigger] g@[x] == ring.smul(neg_inv0, tail_sum(*ring, f@, g@, x, x + 1)) by {
                if x < k {
                    assert(g@[x] == old_g[x]);
                    assert(tail_sum(*ring, f@, g@, x, x + 1) == tail_sum(*ring, f@, old_g, x, x + 1));
                } else {
                    assert(tail_sum(*ring, f@, g@, k as int, k + 1) == tail_sum(*ring, f@, old_g, k as int, k + 1));
                }
            }
        }
        k = k + 1;
    }
    proof {
        assert forall|x: int| 0 <= x < n implies #[trigger] conv_coef(*ring, f@, g@, x) == if x == 0 {
            ring.sone()
        } else {
            ring.szero()
        } by {
            lemma_inverse(*ring, f@, g@, x);
        }
    }
    g
}

/// The sum reads `g` only below `k`, so a longer `g` that agrees there gives the same sum.
pub(crate) proof fn lemma_tail_sum_prefix<R: Semiring>(r: R, f: Seq<R::Value>, g: Seq<R::Value>, h: Seq<R::Value>, k: int, m: int)
    requires
        0 <= m <= k + 1,
        k <= g.len(),
        g.len() <= h.len(),
        forall|i: int| 0 <= i < g.len() ==> #[trigger] h[i] == g[i],
    ensures
        tail_sum(r, f, h, k, m) == tail_sum(r, f, g, k, m),
    decreases m,
{
    if m > 1 {
        lemma_tail_sum_prefix(r, f, g, h, k, m - 1);
        assert(h[k - (m - 1)] == g[k - (m - 1)]);
    }
}

proof fn lemma_tail_sum_valid<R: Semiring>(r: R, f: Seq<R::Value>, g: Seq<R::Value>, k: int, m: int)
    requires
        all_valid(r, f),
        all_valid(r, g),
        g.len() > 0,
        m <= k + 1,
        k < g.len(),
    ensures
        r.valid(tail_sum(r, f, g, k, m)),
    decreases m,
{
    r.lemma_closed(g[0], g[0]);
    if m > 1 {
        lemma_tail_sum_valid(r, f, g, k, m - 1);
        r.lemma_closed(series_coef(r, f, m - 1), g[k - (m - 1)]);
        r.lemma_closed(tail_sum(r, f, g, k, m - 1), r.smul(series_coef(r, f, m - 1), g[k - (m - 1)]));
    }
}

/// The coefficient `k` of `fg` is `f(0) g(k)` plus the tail sum, over the first `m` coefficients
/// of `f`.
proof fn lemma_conv_split<R: Semiring>(r: R, f: Seq<R::Value>, g: Seq<R::Value>, k: int, m: int)
    requires
        all_valid(r, f),
        all_valid(r, g),
        1 <= m <= f.len(),
        m <= k + 1,
        k < g.len(),
    ensures
        conv_upto(r, f, g, k, m) == r.sadd(r.smul(f[0], g[k]), tail_sum(r, f, g, k, m)),
    decreases m,
{
    r.lemma_closed(f[0], g[k]);
    if m == 1 {
        r.lemma_add_zero(r.smul(f[0], g[k]));
        assert(conv_upto(r, f, g, k, 0) == r.szero());
        assert(tail_sum(r, f, g, k, 1) == r.szero());
    } else {
        lemma_conv_split(r, f, g, k, m - 1);
        assert(series_coef(r, f, m - 1) == f[m - 1]);
        assert(tail_sum(r, f, g, k, m) == r.sadd(tail_sum(r, f, g, k, m - 1), r.smul(f[m - 1], g[k - (m - 1)])));
        assert(conv_upto(r, f, g, k, m) == r.sadd(conv_upto(r, f, g, k, m - 1), r.smul(f[m - 1], g[k - (m - 1)])));
        lemma_tail_sum_valid(r, f, g, k, m - 1);
        r.lemma_closed(f[m - 1], g[k - (m - 1)]);
        r.lemma_add_assoc(r.smul(f[0], g[k]), tail_sum(r, f, g, k, m - 1), r.smul(f[m - 1], g[k - (m - 1)]));
    }
}

/// Terms past the degree `k` do not count.
proof fn lemma_conv_past<R: Semiring>(r: R, f: Seq<R::Value>, g: Seq<R::Value>, k: int, m: int)
    requires
        0 <= k + 1 <= m,
    ensures
        conv_upto(r, f, g, k, m) == conv_upto(r, f, g, k, k + 1),
    decreases m,
{
    if m > k + 1 {
        lemma_conv_past(r, f, g, k, m - 1);
    }
}

/// Coefficients of `f` past its end are zero and add nothing to the tail sum.
proof fn lemma_tail_past<R: Semiring>(r: R, f: Seq<R::Value>, g: Seq<R::Value>, k: int, m: int)
    requires
        all_valid(r, f),
        all_valid(r, g),
        1 <= f.len() <= m <= k + 1,
        k < g.len(),
    ensures
        tail_sum(r, f, g, k, m) == tail_sum(r, f, g, k, f.len() as int),
    decreases m,
{
    if m > f.len() {
        lemma_tail_past(r, f, g, k, m - 1);
        lemma_tail_sum_valid(r, f, g, k, m - 1);
        r.lemma_mul_zero(g[k - (m - 1)]);
        r.lemma_add_zero(tail_sum(r, f, g, k, m - 1));
    }
}

/// The product of `f` and the computed inverse is one in `R[[x]]/(x^n)`.
proof fn lemma_inverse<F: Field>(r: F, f: Seq<F::Value>, g: Seq<F::Value>, k: int)
    requires
        all_valid(r, f),
        all_valid(r, g),
        f.len() > 0,
        f[0] != r.szero(),
        0 <= k < g.len(),
        g[0] == r.sinv(f[0]),
        k >= 1 ==> g[k] == r.smul(r.sneg(r.sinv(f[0])), tail_sum(r, f, g, k, k + 1)),
    ensures
        conv_coef(r, f, g, k) == if k == 0 {
            r.sone()
        } else {
            r.szero()
        },
{
    let t = tail_sum(r, f, g, k, k + 1);
    lemma_tail_sum_valid(r, f, g, k, k + 1);
    if f.len() <= k + 1 {
        lemma_conv_split(r, f, g, k, f.len() as int);
        lemma_tail_past(r, f, g, k, k + 1);
    } else {
        lemma_conv_past(r, f, g, k, f.len() as int);
        lemma_conv_split(r, f, g, k, k + 1);
    }
    r.lemma_inv(f[0]);
    let i0 = r.sinv(f[0]);
    r.lemma_closed(f[0], g[0]);
    if k == 0 {
        r.lemma_add_zero(r.smul(f[0], g[0]));
    } else {
        r.lemma_add_neg(i0);
        let n0 = r.sneg(i0);
        r.lemma_mul_assoc(f[0], n0, t);
        lemma_mul_neg(r, f[0], i0);
        r.lemma_closed(r.sone(), r.sone());
        r.lemma_add_neg(r.sone());
        r.lemma_distrib(t, r.sneg(r.sone()), r.sone());
        r.lemma_mul_comm(t, r.sneg(r.sone()));
        r.lemma_mul_comm(t, r.sone());
        r.lemma_mul_one(t);
        r.lemma_mul_zero(t);
        r.lemma_add_comm(r.sneg(r.sone()), r.sone());
    }
}

/// `Σ_{1 <= i < m} (i f(i)) g(k - i)`, the part of the coefficient of `x^{k-1}` in `f' g` that the
/// first `m` coefficients of `f` make; coefficients past the ends are zero.
pub open spec fn deriv_sum<R: Semiring>(r: R, f: Seq<R::Value>, g: Seq<R::Value>, k: int, m: int) -> R::Value
    decreases m,
{
    if m <= 1 {
        r.szero()
    } else {
        r.sadd(
            deriv_sum(r, f, g, k, m - 1),
            r.smul(r.smul(nat_elem(r, (m - 1) as nat), series_coef(r, f, m - 1)), series_coef(r, g, k - (m - 1))),
        )
    }
}

/// Coefficient `i` of `f`, copied, zero past its end.
fn coef_at<R: Semiring>(ring: &R, f: &[R::Value], i: usize) -> (c: R::Value)
    requires
        all_valid(*ring, f@),
    ensures
        c == series_coef(*ring, f@, i as int),
        ring.valid(c),
{
    let zero = ring.zero();
    proof {
        ring.lemma_add_zero(zero);
    }
    if i < f.len() {
        proof {
            ring.lemma_add_zero(f@[i as int]);
        }
        ring.add(&f[i], &zero)
    } else {
        ring.add(&zero, &zero)
    }
}

/// `deriv_sum(f, g, k, m)`, computed; the image of `i` is built up as it goes.
fn deriv_sum_exec<R: Semiring>(ring: &R, f: &[R::Value], g: &[R::Value], k: usize, m: usize) -> (s: R::Value)
    requires
        all_valid(*ring, f@),
        all_valid(*ring, g@),
        m <= k + 1,
    ensures
        s == deriv_sum(*ring, f@, g@, k as int, m as int),
        ring.valid(s),
{
    let one = ring.one();
    let mut s = ring.zero();
    let mut ii = ring.zero();
    let mut i: usize = 1;
    proof {
        ring.lemma_add_zero(one);
        ring.lemma_closed(one, one);
        assert(nat_elem(*ring, 1) == ring.sadd(nat_elem(*ring, 0), ring.sone()));
    }
    ii = ring.add(&ii, &one);
    while i < m
        invariant
            1 <= i,
            i <= m || i == 1,
            m <= k + 1,
            all_valid(*ring, f@),
            all_valid(*ring, g@),
            one == ring.sone(),
            ring.valid(ring.szero()),
            ring.valid(ring.sone()),
            ii == nat_elem(*ring, i as nat),
            ring.valid(ii),
            ring.valid(s),
            s == deriv_sum(*ring, f@, g@, k as int, i as int),
        decreases m - i,
    {
        let fi = coef_at(ring, f, i);
        let gk = coef_at(ring, g, k - i);
        let a = ring.mul(&ii, &fi);
        let t = ring.mul(&a, &gk);
        s = ring.add(&s, &t);
        proof {
            ring.lemma_closed(ii, one);
        }
        ii = ring.add(&ii, &one);
        i = i + 1;
    }
    proof {
        if m <= 1 {
            assert(deriv_sum(*ring, f@, g@, k as int, m as int) == ring.szero());
            assert(deriv_sum(*ring, f@, g@, k as int, 1) == ring.szero());
        }
    }
    s
}

/// The exponential `g` of `f` in `R[[x]]/(x^n)`, as its `n` coefficients: `g(0) = 1` and
/// `g' = f' g`, that is `k g(k) = Σ_{1 <= i <= k} i f(i) g(k - i)` for `1 <= k < n`; in O(n^2).
/// `1, ..., n - 1` must be nonzero in the field. For `f(0) = 0` this is `exp f`.
pub fn fps_exp<F: Field>(ring: &F, f: &[F::Value], n: usize) -> (g: Vec<F::Value>)
    requires
        all_valid(*ring, f@),
        small_invertible(*ring, n as nat),
    ensures
        g@.len() == n,
        n > 0 ==> g@[0] == ring.sone(),
        forall|k: int|
            1 <= k < n ==> ring.smul(nat_elem(*ring, k as nat), #[trigger] g@[k]) == deriv_sum(*ring, f@, g@, k, k + 1),
{
    let mut g: Vec<F::Value> = Vec::new();
    if n == 0 {
        return g;
    }
    let one = ring.one();
    g.push(ring.one());
    let mut kk = ring.add(&ring.zero(), &one);
    proof {
        ring.lemma_closed(one, one);
        ring.lemma_add_zero(one);
        assert(nat_elem(*ring, 1) == ring.sadd(nat_elem(*ring, 0), ring.sone()));
    }
    let mut k: usize = 1;
    while k < n
        invariant
            1 <= k <= n,
            all_valid(*ring, f@),
            small_invertible(*ring, n as nat),
            one == ring.sone(),
            ring.valid(ring.szero()),
            ring.valid(one),
            kk == nat_elem(*ring, k as nat),
            ring.valid(kk),
            g@.len() == k,
            all_valid(*ring, g@),
            g@[0] == one,
            forall|x: int|
                1 <= x < k ==> ring.smul(nat_elem(*ring, x as nat), #[trigger] g@[x]) == deriv_sum(*ring, f@, g@, x, x + 1),
        decreases n - k,
    {
        let s = deriv_sum_exec(ring, f, g.as_slice(), k, k + 1);
        assert(nat_elem(*ring, k as nat) != ring.szero());
        let inv = ring.inv(&kk);
        let v = ring.mul(&inv, &s);
        let ghost old_g = g@;
        g.push(v);
        proof {
            ring.lemma_mul_assoc(kk, inv, s);
            ring.lemma_mul_one(s);
            assert forall|x: int, m: int| 1 <= x < k + 1 && 0 <= m <= x + 1 implies #[trigger] deriv_sum(*ring, f@, g@, x, m) == deriv_sum(*ring, f@, old_g, x, m) by {
                lemma_deriv_sum_prefix(*ring, f@, old_g, g@, x, m);
            }
            assert forall|x: int|
                1 <= x < k + 1 implies ring.smul(nat_elem(*ring, x as nat), #[trigger] g@[x]) == deriv_sum(*ring, f@, g@, x, x + 1) by {
                if x < k {
                    assert(g@[x] == old_g[x]);
                }
                assert(deriv_sum(*ring, f@, g@, x, x + 1) == deriv_sum(*ring, f@, old_g, x, x + 1));
            }
            ring.lemma_closed(kk, one);
        }
        kk = ring.add(&kk, &one);
        k = k + 1;
    }
    g
}

/// The sum reads `g` only below `k`.
proof fn lemma_deriv_sum_prefix<R: Semiring>(r: R, f: Seq<R::Value>, g: Seq<R::Value>, h: Seq<R::Value>, k: int, m: int)
    requires
        0 <= m <= k + 1,
        k <= g.len(),
        g.len() <= h.len(),
        forall|i: int| 0 <= i < g.len() ==> #[trigger] h[i] == g[i],
    ensures
        deriv_sum(r, f, h, k, m) == deriv_sum(r, f, g, k, m),
    decreases m,
{
    if m > 1 {
        lemma_deriv_sum_prefix(r, f, g, h, k, m - 1);
        assert(h[k - (m - 1)] == g[k - (m - 1)]);
    }
}

/// The sum reads `f` only below `m`.
proof fn lemma_deriv_sum_prefix_first<R: Semiring>(r: R, f: Seq<R::Value>, h: Seq<R::Value>, g: Seq<R::Value>, k: int, m: int)
    requires
        0 <= m <= f.len(),
        f.len() <= h.len(),
        forall|i: int| 0 <= i < f.len() ==> #[trigger] h[i] == f[i],
    ensures
        deriv_sum(r, h, g, k, m) == deriv_sum(r, f, g, k, m),
    decreases m,
{
    if m > 1 {
        lemma_deriv_sum_prefix_first(r, f, h, g, k, m - 1);
        assert(series_coef(r, h, m - 1) == series_coef(r, f, m - 1));
    }
}

/// The logarithm `g` of `f` in `R[[x]]/(x^n)`, as its `n` coefficients: `g(0) = 0` and
/// `g' f = f'`, that is `Σ_{1 <= i <= k} i g(i) f(k - i) = k f(k)` for `1 <= k < n`; in O(n^2).
/// `f(0) = 1` unless `n = 0`, and `1, ..., n - 1` must be nonzero in the field.
pub fn fps_log<F: Field>(ring: &F, f: &[F::Value], n: usize) -> (g: Vec<F::Value>)
    requires
        all_valid(*ring, f@),
        n > 0 ==> f@.len() > 0 && f@[0] == ring.sone(),
        small_invertible(*ring, n as nat),
    ensures
        g@.len() == n,
        n > 0 ==> g@[0] == ring.szero(),
        forall|k: int|
            1 <= k < n ==> #[trigger] deriv_sum(*ring, g@, f@, k, k + 1) == ring.smul(
                nat_elem(*ring, k as nat),
                series_coef(*ring, f@, k),
            ),
{
    let mut g: Vec<F::Value> = Vec::new();
    if n == 0 {
        return g;
    }
    let one = ring.one();
    g.push(ring.zero());
    let mut kk = ring.add(&ring.zero(), &one);
    proof {
        ring.lemma_closed(one, one);
        ring.lemma_add_zero(one);
        assert(nat_elem(*ring, 1) == ring.sadd(nat_elem(*ring, 0), ring.sone()));
    }
    let mut k: usize = 1;
    while k < n
        invariant
            1 <= k <= n,
            all_valid(*ring, f@),
            f@.len() > 0,
            f@[0] == ring.sone(),
            small_invertible(*ring, n as nat),
            one == ring.sone(),
            ring.valid(ring.szero()),
            ring.valid(one),
            kk == nat_elem(*ring, k as nat),
            ring.valid(kk),
            g@.len() == k,
            all_valid(*ring, g@),
            g@[0] == ring.szero(),
            forall|x: int|
                1 <= x < k ==> #[trigger] deriv_sum(*ring, g@, f@, x, x + 1) == ring.smul(
                    nat_elem(*ring, x as nat),
                    series_coef(*ring, f@, x),
                ),
        decreases n - k,
    {
        let d = deriv_sum_exec(ring, g.as_slice(), f, k, k);
        let fk = coef_at(ring, f, k);
        let a = ring.mul(&kk, &fk);
        let x = ring.add(&a, &ring.neg(&d));
        assert(nat_elem(*ring, k as nat) != ring.szero());
        let inv = ring.inv(&kk);
        let v = ring.mul(&inv, &x);
        let ghost old_g = g@;
        g.push(v);
        proof {
            ring.lemma_add_neg(d);
            ring.lemma_mul_assoc(kk, inv, x);
            ring.lemma_mul_one(x);
            assert forall|y: int, m: int| 1 <= y < k + 1 && 0 <= m <= k implies #[trigger] deriv_sum(*ring, g@, f@, y, m) == deriv_sum(*ring, old_g, f@, y, m) by {
                lemma_deriv_sum_prefix_first(*ring, old_g, g@, f@, y, m);
            }
            assert forall|y: int|
                1 <= y < k + 1 implies #[trigger] deriv_sum(*ring, g@, f@, y, y + 1) == ring.smul(
                    nat_elem(*ring, y as nat),
                    series_coef(*ring, f@, y),
                ) by {
                if y < k {
                    assert(deriv_sum(*ring, g@, f@, y, y + 1) == deriv_sum(*ring, old_g, f@, y, y + 1));
                } else {
                    assert(deriv_sum(*ring, g@, f@, y, y) == d);
                    assert(series_coef(*ring, g@, y) == v);
                    assert(series_coef(*ring, f@, 0) == one);
                    ring.lemma_closed(kk, v);
                    ring.lemma_mul_one(ring.smul(kk, v));
                    ring.lemma_add_comm(d, x);
                    ring.lemma_add_assoc(a, ring.sneg(d), d);
                    ring.lemma_add_comm(ring.sneg(d), d);
                    ring.lemma_add_zero(a);
                }
            }
            ring.lemma_closed(kk, one);
        }
        kk = ring.add(&kk, &one);
        k = k + 1;
    }
    g
}

/// The power `f^k` in `R[[x]]/(x^n)`, as its `n` coefficients: `f^0 = 1` and `f^k = f^{k-1} f`,
/// with `f(i) = 0` past the end of `f`. By binary exponentiation over the schoolbook product, in
/// O(n^2 log k).
pub fn fps_pow<R: Semiring>(ring: &R, f: &[R::Value], n: usize, k: u64) -> (g: Vec<R::Value>)
    requires
        all_valid(*ring, f@),
    ensures
        g@ == series_pow(*ring, f@, k as nat, n as nat),
{
    let _zero = ring.zero();
    let mut result = series_one_exec(ring, n);
    let unit = series_one_exec(ring, n);
    let mut base = series_mul_exec(ring, &unit, f, n);
    let mut e: u64 = k;
    let ghost mut done: nat = 0;
    let ghost mut step: nat = 1;
    proof {
        assert(series_pow(*ring, f@, 1, n as nat) == crate::fps::power::series_mul(
            *ring,
            series_pow(*ring, f@, 0, n as nat),
            f@,
            n as nat,
        ));
    }
    while e > 0
        invariant
            ring.valid(ring.szero()),
            all_valid(*ring, f@),
            result@ == series_pow(*ring, f@, done, n as nat),
            base@ == series_pow(*ring, f@, step, n as nat),
            all_valid(*ring, result@),
            all_valid(*ring, base@),
            done + step * e == k,
        decreases e,
    {
        let ghost e0 = e;
        let ghost done0 = done;
        if e % 2 == 1 {
            result = series_mul_exec(ring, &result, &base, n);
            proof {
                lemma_series_pow_add(*ring, f@, done, step, n as nat);
                done = done + step;
            }
        }
        e = e / 2;
        proof {
            assert(step * e0 == step * (e0 % 2) + (step + step) * e) by (nonlinear_arith)
                requires
                    e == e0 / 2,
            ;
            if e0 % 2 == 1 {
                assert(done == done0 + step * (e0 % 2));
            } else {
                assert(step * (e0 % 2) == 0);
                assert(done == done0 + step * (e0 % 2));
            }
            assert(done + (step + step) * e == k);
            if e == 0 {
                assert(done + step * e == k);
            }
        }
        if e > 0 {
            base = series_mul_exec(ring, &base, &base, n);
            proof {
                lemma_series_pow_add(*ring, f@, step, step, n as nat);
                step = step + step;
            }
        }
    }
    result
}

} // verus!
