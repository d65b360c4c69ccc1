//! Sums of a polynomial sequence weighted by the powers of a ratio.
use crate::algebra::{spow, Field, Ring, Semiring};
use crate::num::factorial::nat_elem;
use crate::poly::evaluation::{iota_evaluate, iota_value, small_invertible};
use vstd::prelude::*;

verus! {

/// `Σ_{i=0,...,n-1} r^i f(i)` for the polynomial `f` of degree less than `ys.len()` with
/// `f(i) = ys[i]`, with `r^0 = 1`.
pub open spec fn iota_geo_sum<F: Field>(ring: F, ys: Seq<F::Value>, r: F::Value, n: nat) -> F::Value
    decreases n,
{
    if n == 0 {
        ring.szero()
    } else {
        ring.sadd(
            iota_geo_sum(ring, ys, r, (n - 1) as nat),
            ring.smul(spow(ring, r, (n - 1) as nat), iota_value(ring, ys, nat_elem(ring, (n - 1) as nat))),
        )
    }
}

/// The sum `Σ_{i=0,...,n-1} r^i f(i)`, for the polynomial `f` of degree less than `m = ys.len()`
/// given by its values `f(i) = ys[i]` on `[0, m)`; each term by Lagrange's formula, in O(nm).
/// `1, ..., m - 1` must be nonzero in the field.
pub fn iota_geometric_sum<F: Field>(ring: &F, ys: &[F::Value], r: &F::Value, n: u64) -> (s: F::Value)
    requires
        ring.valid(*r),
        forall|i: int| 0 <= i < ys@.len() ==> ring.valid(#[trigger] ys@[i]),
        small_invertible(*ring, ys@.len()),
        ys@.len() < usize::MAX,
    ensures
        s == iota_geo_sum(*ring, ys@, *r, n as nat),
{
    let one = ring.one();
    let mut acc = ring.zero();
    let mut pw = ring.one();
    let mut x = ring.zero();
    let mut i: u64 = 0;
    while i < n
        invariant
            i <= n,
            ring.valid(*r),
            forall|k: int| 0 <= k < ys@.len() ==> ring.valid(#[trigger] ys@[k]),
            small_invertible(*ring, ys@.len()),
            ys@.len() < usize::MAX,
            one == ring.sone(),
            ring.valid(one),
            acc == iota_geo_sum(*ring, ys@, *r, i as nat),
            ring.valid(acc),
            pw == spow(*ring, *r, i as nat),
            ring.valid(pw),
            x == nat_elem(*ring, i as nat),
            ring.valid(x),
        decreases n - i,
    {
        let v = iota_evaluate(ring, ys, &x);
        let t = ring.mul(&pw, &v);
        acc = ring.add(&acc, &t);
        pw = ring.mul(&pw, r);
        x = ring.add(&x, &one);
        i = i + 1;
    }
    acc
}

/// `Σ_{i < j} r^i ys[i]`: the partial sums of the weighted values.
pub open spec fn weighted_prefix<F: Field>(ring: F, ys: Seq<F::Value>, r: F::Value, j: nat) -> F::Value
    decreases j,
{
    if j == 0 {
        ring.szero()
    } else {
        ring.sadd(weighted_prefix(ring, ys, r, (j - 1) as nat), ring.smul(spow(ring, r, (j - 1) as nat), ys[j - 1]))
    }
}

/// The binomial coefficient `C(m, j)` in the ring, by Pascal's rule.
pub open spec fn binom_elem<R: Semiring>(ring: R, m: nat, j: nat) -> R::Value
    decreases m,
{
    if j == 0 {
        ring.sone()
    } else if m == 0 {
        ring.szero()
    } else {
        ring.sadd(binom_elem(ring, (m - 1) as nat, (j - 1) as nat), binom_elem(ring, (m - 1) as nat, j))
    }
}

/// `Σ_{j < k} C(m, j) (-r)^{m - j} S(j)` with `S(j) = Σ_{i < j} r^i ys[i]`; for `k = m + 1`, the
/// operator `(E - r)^m` applied to the partial sums at `0`, `E` the shift.
pub open spec fn geo_difference<F: Field>(ring: F, ys: Seq<F::Value>, r: F::Value, m: nat, k: nat) -> F::Value
    decreases k,
{
    if k == 0 {
        ring.szero()
    } else {
        let j = (k - 1) as nat;
        ring.sadd(
            geo_difference(ring, ys, r, m, j),
            ring.smul(
                ring.smul(binom_elem(ring, m, j), spow(ring, ring.sneg(r), (m - j) as nat)),
                weighted_prefix(ring, ys, r, j),
            ),
        )
    }
}

/// The value at `1` of the generating series `A(x) = Σ_{i >= 0} r^i f(i) x^i` of the polynomial
/// `f` of degree less than `m = ys.len()` with `f(i) = ys[i]`: `A(x) = P(rx) / (1 - rx)^m` with
/// `deg P < m`, and `(E - r)^m` kills `r^k h(k)` for `deg h < m`, so applied to the partial sums
/// `S(k) = C + r^k h(k)` it gives `(1 - r)^m C`. Zero for `m = 0`.
pub open spec fn iota_geo_series<F: Field>(ring: F, ys: Seq<F::Value>, r: F::Value) -> F::Value {
    let m = ys.len() as nat;
    if m == 0 {
        ring.szero()
    } else {
        ring.smul(
            geo_difference(ring, ys, r, m, m + 1),
            ring.sinv(spow(ring, ring.sadd(ring.sone(), ring.sneg(r)), m)),
        )
    }
}

/// A power of a nonzero value of a field is nonzero.
proof fn lemma_spow_nonzero<F: Field>(ring: F, a: F::Value, k: nat)
    requires
        ring.valid(a),
        a != ring.szero(),
    ensures
        spow(ring, a, k) != ring.szero(),
        ring.valid(spow(ring, a, k)),
    decreases k,
{
    ring.lemma_closed(a, a);
    ring.lemma_one_ne_zero();
    if k > 0 {
        let k1 = (k - 1) as nat;
        lemma_spow_nonzero(ring, a, k1);
        let p = spow(ring, a, k1);
        ring.lemma_closed(p, a);
        if ring.smul(p, a) == ring.szero() {
            ring.lemma_inv(a);
            ring.lemma_mul_assoc(p, a, ring.sinv(a));
            ring.lemma_mul_one(p);
            ring.lemma_mul_zero(ring.sinv(a));
        }
    }
}

/// The sum `Σ_{i >= 0} r^i f(i)` of the series, for the polynomial `f` of degree less than
/// `m = ys.len()` given by its values `f(i) = ys[i]` on `[0, m)`, as the value `A(1)` of its
/// generating series (the sum whenever the series converges). `1 - r` must be nonzero, unless
/// `m = 0`. By Pascal's rule and the partial sums, in O(m^2).
pub fn iota_geometric_series<F: Field>(ring: &F, ys: &[F::Value], r: &F::Value) -> (s: F::Value)
    requires
        ring.valid(*r),
        forall|i: int| 0 <= i < ys@.len() ==> ring.valid(#[trigger] ys@[i]),
        ys@.len() > 0 ==> ring.sadd(ring.sone(), ring.sneg(*r)) != ring.szero(),
        ys@.len() < usize::MAX,
    ensures
        s == iota_geo_series(*ring, ys@, *r),
{
    let m = ys.len();
    if m == 0 {
        return ring.zero();
    }
    let one = ring.one();
    let zero = ring.zero();
    // the row `C(k, j)`, `j <= m`, for `k = 0, ..., m`
    let mut row: Vec<F::Value> = Vec::new();
    row.push(ring.one());
    while row.len() <= m
        invariant
            1 <= row@.len() <= m + 1,
            m < usize::MAX,
            ring.valid(zero),
            zero == ring.szero(),
            forall|j: int| 0 <= j < row@.len() ==> #[trigger] row@[j] == binom_elem(*ring, 0, j as nat),
            forall|j: int| 0 <= j < row@.len() ==> ring.valid(#[trigger] row@[j]),
        decreases m + 1 - row@.len(),
    {
        row.push(ring.zero());
    }
    let mut k: usize = 0;
    while k < m
        invariant
            k <= m,
            m < usize::MAX,
            one == ring.sone(),
            ring.valid(one),
            row@.len() == m + 1,
            forall|j: int| 0 <= j <= m ==> #[trigger] row@[j] == binom_elem(*ring, k as nat, j as nat),
            forall|j: int| 0 <= j <= m ==> ring.valid(#[trigger] row@[j]),
        decreases m - k,
    {
        let mut next: Vec<F::Value> = Vec::new();
        next.push(ring.one());
        let mut j: usize = 1;
        while j <= m
            invariant
                1 <= j <= m + 1,
                m < usize::MAX,
                row@.len() == m + 1,
                next@.len() == j,
                forall|i: int| 0 <= i <= m ==> #[trigger] row@[i] == binom_elem(*ring, k as nat, i as nat),
                forall|i: int| 0 <= i <= m ==> ring.valid(#[trigger] row@[i]),
                forall|i: int| 0 <= i < j ==> #[trigger] next@[i] == binom_elem(*ring, (k + 1) as nat, i as nat),
                forall|i: int| 0 <= i < j ==> ring.valid(#[trigger] next@[i]),
            decreases m + 1 - j,
        {
            let v = ring.add(&row[j - 1], &row[j]);
            next.push(v);
            j = j + 1;
        }
        row = next;
        k = k + 1;
    }
    // the partial sums `S(j)` and the powers `(-r)^e`, for `j, e <= m`
    let neg_r = ring.neg(r);
    let mut pre: Vec<F::Value> = Vec::new();
    let mut negp: Vec<F::Value> = Vec::new();
    let mut acc = ring.zero();
    let mut pw = ring.one();
    let mut npw = ring.one();
    let mut j: usize = 0;
    while j <= m
        invariant
            j <= m + 1,
            m < usize::MAX,
            m == ys@.len(),
            ring.valid(*r),
            forall|i: int| 0 <= i < ys@.len() ==> ring.valid(#[trigger] ys@[i]),
            neg_r == ring.sneg(*r),
            ring.valid(neg_r),
            zero == ring.szero(),
            ring.valid(zero),
            one == ring.sone(),
            ring.valid(one),
            pre@.len() == j,
            negp@.len() == j,
            j <= m ==> acc == weighted_prefix(*ring, ys@, *r, j as nat),
            ring.valid(acc),
            pw == spow(*ring, *r, j as nat),
            ring.valid(pw),
            npw == spow(*ring, neg_r, j as nat),
            ring.valid(npw),
            forall|i: int| 0 <= i < j ==> #[trigger] pre@[i] == weighted_prefix(*ring, ys@, *r, i as nat),
            forall|i: int| 0 <= i < j ==> ring.valid(#[trigger] pre@[i]),
            forall|i: int| 0 <= i < j ==> #[trigger] negp@[i] == spow(*ring, neg_r, i as nat),
            forall|i: int| 0 <= i < j ==> ring.valid(#[trigger] negp@[i]),
        decreases m + 1 - j,
    {
        let p0 = ring.add(&acc, &zero);
        proof {
            ring.lemma_add_zero(acc);
        }
        pre.push(p0);
        let q0 = ring.mul(&npw, &one);
        proof {
            ring.lemma_mul_one(npw);
        }
        negp.push(q0);
        if j < m {
            let t = ring.mul(&pw, &ys[j]);
            acc = ring.add(&acc, &t);
        }
        pw = ring.mul(&pw, r);
        npw = ring.mul(&npw, &neg_r);
        j = j + 1;
    }
    // `Σ_{j <= m} C(m, j) (-r)^{m - j} S(j)`
    let mut total = ring.zero();
    let mut i: usize = 0;
    while i <= m
        invariant
            i <= m + 1,
            m < usize::MAX,
            m == ys@.len(),
            neg_r == ring.sneg(*r),
            row@.len() == m + 1,
            pre@.len() == m + 1,
            negp@.len() == m + 1,
            forall|x: int| 0 <= x <= m ==> #[trigger] row@[x] == binom_elem(*ring, m as nat, x as nat),
            forall|x: int| 0 <= x <= m ==> ring.valid(#[trigger] row@[x]),
            forall|x: int| 0 <= x <= m ==> #[trigger] pre@[x] == weighted_prefix(*ring, ys@, *r, x as nat),
            forall|x: int| 0 <= x <= m ==> ring.valid(#[trigger] pre@[x]),
            forall|x: int| 0 <= x <= m ==> #[trigger] negp@[x] == spow(*ring, neg_r, x as nat),
            forall|x: int| 0 <= x <= m ==> ring.valid(#[trigger] negp@[x]),
            total == geo_difference(*ring, ys@, *r, m as nat, i as nat),
            ring.valid(total),
        decreases m + 1 - i,
    {
        let c = ring.mul(&row[i], &negp[m - i]);
        let t = ring.mul(&c, &pre[i]);
        total = ring.add(&total, &t);
        i = i + 1;
    }
    // `(1 - r)^m` and its inverse
    let base = ring.add(&one, &neg_r);
    let mut den = ring.one();
    let mut e: usize = 0;
    while e < m
        invariant
            e <= m,
            ring.valid(base),
            den == spow(*ring, base, e as nat),
            ring.valid(den),
        decreases m - e,
    {
        den = ring.mul(&den, &base);
        e = e + 1;
    }
    proof {
        lemma_spow_nonzero(*ring, base, m as nat);
    }
    let inv_den = ring.inv(&den);
    ring.mul(&total, &inv_den)
}

} // verus!