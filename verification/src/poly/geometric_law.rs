//! The binomial theorem for the binomial coefficients of a ring, and the recurrence that determines
//! the value of the series `Σ_{i >= 0} r^i f(i)`.
use crate::algebra::{lemma_add_swap, spow, Field, Ring, Semiring};
use crate::linear::{fsum, lemma_fsum_add, lemma_fsum_ext, lemma_fsum_mul_left, lemma_fsum_mul_right, lemma_fsum_valid};
use crate::poly::geometric::{binom_elem, geo_difference, iota_geo_series, weighted_prefix};
use vstd::prelude::*;

verus! {

proof fn lemma_binom_valid<R: Semiring>(ring: R, k: nat, j: nat)
    requires
        ring.valid(ring.szero()),
        ring.valid(ring.sone()),
    ensures
        ring.valid(binom_elem(ring, k, j)),
    decreases k,
{
    if j > 0 && k > 0 {
        lemma_binom_valid(ring, (k - 1) as nat, (j - 1) as nat);
        lemma_binom_valid(ring, (k - 1) as nat, j);
        ring.lemma_closed(binom_elem(ring, (k - 1) as nat, (j - 1) as nat), binom_elem(ring, (k - 1) as nat, j));
    }
}

/// `C(k, j) = 0` for `j > k`.
pub proof fn lemma_binom_zero_above<R: Semiring>(ring: R, k: nat, j: nat)
    requires
        ring.valid(ring.szero()),
        j > k,
    ensures
        binom_elem(ring, k, j) == ring.szero(),
    decreases k,
{
    if k > 0 {
        lemma_binom_zero_above(ring, (k - 1) as nat, (j - 1) as nat);
        lemma_binom_zero_above(ring, (k - 1) as nat, j);
        ring.lemma_add_zero(ring.szero());
    }
}

/// `Σ_{i < m} h(i - 1) = Σ_{i < m - 1} h(i)` when `h(-1) = 0`.
proof fn lemma_fsum_shift_one<R: Semiring>(ring: R, h: spec_fn(int) -> R::Value, m: int)
    requires
        ring.valid(ring.szero()),
        m >= 1,
        h(-1) == ring.szero(),
        forall|l: int| 0 <= l < m - 1 ==> ring.valid(#[trigger] h(l)),
    ensures
        fsum(ring, |i: int| h(i - 1), m) == fsum(ring, h, m - 1),
    decreases m,
{
    let s = |i: int| h(i - 1);
    if m == 1 {
        ring.lemma_add_zero(ring.szero());
        assert(fsum(ring, s, 1) == ring.sadd(fsum(ring, s, 0), s(0)));
    } else {
        lemma_fsum_shift_one(ring, h, m - 1);
        assert(fsum(ring, s, m) == ring.sadd(fsum(ring, s, m - 1), s(m - 1)));
        assert(s(m - 1) == h(m - 2));
    }
}

/// Pascal's rule on sums: `Σ_{j <= k+1} C(k+1, j) a(j) = Σ_{j <= k} C(k, j) a(j+1) + Σ_{j <= k} C(k, j) a(j)`.
proof fn lemma_pascal_split<R: Semiring>(ring: R, a: spec_fn(int) -> R::Value, k: nat)
    requires
        ring.valid(ring.szero()),
        ring.valid(ring.sone()),
        forall|j: int| 0 <= j <= k + 1 ==> ring.valid(#[trigger] a(j)),
    ensures
        fsum(ring, |j: int| ring.smul(binom_elem(ring, k + 1, j as nat), a(j)), (k + 2) as int) == ring.sadd(
            fsum(ring, |j: int| ring.smul(binom_elem(ring, k, j as nat), a(j + 1)), (k + 1) as int),
            fsum(ring, |j: int| ring.smul(binom_elem(ring, k, j as nat), a(j)), (k + 1) as int),
        ),
{
    let p = |j: int| ring.smul(binom_elem(ring, k + 1, j as nat), a(j));
    let h = |i: int| if i < 0 { ring.szero() } else { ring.smul(binom_elem(ring, k, i as nat), a(i + 1)) };
    let u = |j: int| h(j - 1);
    let v = |j: int| ring.smul(binom_elem(ring, k, j as nat), a(j));
    assert forall|j: int| 0 <= j < k + 2 implies ring.valid(#[trigger] u(j)) && ring.valid(v(j)) by {
        lemma_binom_valid(ring, k, (j - 1) as nat);
        lemma_binom_valid(ring, k, j as nat);
        ring.lemma_closed(binom_elem(ring, k, (j - 1) as nat), a(j));
        ring.lemma_closed(binom_elem(ring, k, j as nat), a(j));
    }
    assert forall|j: int| 0 <= j < k + 2 implies ring.valid(#[trigger] v(j)) by {
        assert(ring.valid(u(j)));
    }
    assert forall|j: int| 0 <= j < k + 2 implies #[trigger] p(j) == ring.sadd(u(j), v(j)) by {
        if j == 0 {
            ring.lemma_mul_one(a(0));
            ring.lemma_add_zero(a(0));
        } else {
            lemma_binom_valid(ring, k, (j - 1) as nat);
            lemma_binom_valid(ring, k, j as nat);
            ring.lemma_distrib(a(j), binom_elem(ring, k, (j - 1) as nat), binom_elem(ring, k, j as nat));
            assert((j - 1) as nat == (j as nat - 1) as nat);
        }
    }
    lemma_fsum_add(ring, u, v, (k + 2) as int);
    lemma_fsum_ext(ring, p, |j: int| ring.sadd(u(j), v(j)), (k + 2) as int);
    // the last term of `v` is zero
    lemma_binom_zero_above(ring, k, k + 1);
    ring.lemma_mul_zero(a((k + 1) as int));
    lemma_fsum_valid(ring, v, (k + 1) as int);
    ring.lemma_add_zero(fsum(ring, v, (k + 1) as int));
    // `u` is `h` shifted by one
    assert forall|l: int| 0 <= l < k + 1 implies ring.valid(#[trigger] h(l)) by {
        lemma_binom_valid(ring, k, l as nat);
        ring.lemma_closed(binom_elem(ring, k, l as nat), a(l + 1));
    }
    lemma_fsum_shift_one(ring, h, (k + 2) as int);
    lemma_fsum_ext(ring, h, |j: int| ring.smul(binom_elem(ring, k, j as nat), a(j + 1)), (k + 1) as int);
}

/// The binomial theorem: `Σ_{j <= k} C(k, j) x^{k - j} = (1 + x)^k`.
pub proof fn lemma_binomial<R: Semiring>(ring: R, x: R::Value, k: nat)
    requires
        ring.valid(x),
    ensures
        fsum(ring, |j: int| ring.smul(binom_elem(ring, k, j as nat), spow(ring, x, (k - j) as nat)), (k + 1) as int) == spow(
            ring,
            ring.sadd(ring.sone(), x),
            k,
        ),
    decreases k,
{
    ring.lemma_closed(x, x);
    let b = |j: int| ring.smul(binom_elem(ring, k, j as nat), spow(ring, x, (k - j) as nat));
    if k == 0 {
        ring.lemma_mul_one(ring.sone());
        ring.lemma_add_zero(ring.sone());
        assert(b(0) == ring.sone());
        assert(fsum(ring, b, 1) == ring.sadd(fsum(ring, b, 0), b(0)));
    } else {
        let k1 = (k - 1) as nat;
        lemma_binomial(ring, x, k1);
        let a = |j: int| spow(ring, x, (k - j) as nat);
        assert forall|j: int| 0 <= j <= k1 + 1 implies ring.valid(#[trigger] a(j)) by {
            crate::set_function::xor::lemma_spow_valid(ring, x, (k - j) as nat);
        }
        lemma_pascal_split(ring, a, k1);
        lemma_fsum_ext(ring, b, |j: int| ring.smul(binom_elem(ring, k1 + 1, j as nat), a(j)), (k + 1) as int);
        let bk = |j: int| ring.smul(binom_elem(ring, k1, j as nat), spow(ring, x, (k1 - j) as nat));
        let big = fsum(ring, bk, (k1 + 1) as int);
        // the first sum is the previous one
        lemma_fsum_ext(ring, |j: int| ring.smul(binom_elem(ring, k1, j as nat), a(j + 1)), bk, (k1 + 1) as int);
        // the second is the previous one times `x`
        assert forall|j: int| 0 <= j < k1 + 1 implies ring.valid(#[trigger] bk(j)) by {
            lemma_binom_valid(ring, k1, j as nat);
            crate::set_function::xor::lemma_spow_valid(ring, x, (k1 - j) as nat);
            ring.lemma_closed(binom_elem(ring, k1, j as nat), spow(ring, x, (k1 - j) as nat));
        }
        lemma_fsum_mul_right(ring, bk, x, (k1 + 1) as int);
        assert forall|j: int| 0 <= j < k1 + 1 implies #[trigger] ring.smul(binom_elem(ring, k1, j as nat), a(j)) == ring.smul(
            bk(j),
            x,
        ) by {
            lemma_binom_valid(ring, k1, j as nat);
            crate::set_function::xor::lemma_spow_valid(ring, x, (k1 - j) as nat);
            assert((k - j) as nat == (k1 - j) as nat + 1);
            ring.lemma_mul_assoc(binom_elem(ring, k1, j as nat), spow(ring, x, (k1 - j) as nat), x);
        }
        lemma_fsum_ext(ring, |j: int| ring.smul(binom_elem(ring, k1, j as nat), a(j)), |j: int| ring.smul(bk(j), x), (k1 + 1) as int);
        // big + big x = big (1 + x)
        lemma_fsum_valid(ring, bk, (k1 + 1) as int);
        ring.lemma_distrib(big, ring.sone(), x);
        ring.lemma_mul_one(big);
        assert(big == spow(ring, ring.sadd(ring.sone(), x), k1));
        assert(fsum(ring, |j: int| ring.smul(binom_elem(ring, k1, j as nat), a(j)), (k1 + 1) as int) == ring.smul(big, x));
        assert(fsum(ring, |j: int| ring.smul(binom_elem(ring, k1, j as nat), a(j + 1)), (k1 + 1) as int) == big);
        assert(fsum(ring, b, (k + 1) as int) == fsum(ring, |j: int| ring.smul(binom_elem(ring, k1 + 1, j as nat), a(j)), (k1 + 2) as int));
        assert(fsum(ring, b, (k + 1) as int) == ring.sadd(big, ring.smul(big, x)));
        assert(spow(ring, ring.sadd(ring.sone(), x), k) == ring.smul(big, ring.sadd(ring.sone(), x)));
    }
}

/// The differences `f(i + 1) - f(i)` of the values.
pub open spec fn differences<R: Ring>(ring: R, ys: Seq<R::Value>) -> Seq<R::Value> {
    Seq::new((ys.len() - 1) as nat, |i: int| ring.sadd(ys[i + 1], ring.sneg(ys[i])))
}

proof fn lemma_prefix_valid<F: Field>(ring: F, ys: Seq<F::Value>, r: F::Value, j: nat)
    requires
        ring.valid(r),
        forall|i: int| 0 <= i < ys.len() ==> ring.valid(#[trigger] ys[i]),
        j <= ys.len(),
    ensures
        ring.valid(weighted_prefix(ring, ys, r, j)),
    decreases j,
{
    ring.lemma_closed(r, r);
    if j > 0 {
        lemma_prefix_valid(ring, ys, r, (j - 1) as nat);
        crate::set_function::xor::lemma_spow_valid(ring, r, (j - 1) as nat);
        ring.lemma_closed(spow(ring, r, (j - 1) as nat), ys[j - 1]);
        ring.lemma_closed(
            weighted_prefix(ring, ys, r, (j - 1) as nat),
            ring.smul(spow(ring, r, (j - 1) as nat), ys[j - 1]),
        );
    }
}

proof fn lemma_differences_valid<F: Field>(ring: F, ys: Seq<F::Value>)
    requires
        forall|i: int| 0 <= i < ys.len() ==> ring.valid(#[trigger] ys[i]),
        ys.len() >= 1,
    ensures
        forall|i: int| 0 <= i < differences(ring, ys).len() ==> ring.valid(#[trigger] differences(ring, ys)[i]),
{
    assert forall|i: int| 0 <= i < differences(ring, ys).len() implies ring.valid(#[trigger] differences(ring, ys)[i]) by {
        ring.lemma_add_neg(ys[i]);
        ring.lemma_closed(ys[i + 1], ring.sneg(ys[i]));
    }
}

/// `S(j + 1) = f(0) + r (S(j) + S'(j))`, where `S` and `S'` are the partial sums of the values and
/// of their differences.
proof fn lemma_prefix_differences<F: Field>(ring: F, ys: Seq<F::Value>, r: F::Value, j: nat)
    requires
        ring.valid(r),
        forall|i: int| 0 <= i < ys.len() ==> ring.valid(#[trigger] ys[i]),
        j + 1 <= ys.len(),
    ensures
        weighted_prefix(ring, ys, r, j + 1) == ring.sadd(
            ys[0],
            ring.smul(r, ring.sadd(weighted_prefix(ring, ys, r, j), weighted_prefix(ring, differences(ring, ys), r, j))),
        ),
    decreases j,
{
    let d = differences(ring, ys);
    lemma_differences_valid(ring, ys);
    ring.lemma_closed(r, r);
    let zero = ring.szero();
    if j == 0 {
        ring.lemma_mul_one(ys[0]);
        ring.lemma_add_zero(ys[0]);
        ring.lemma_add_zero(zero);
        ring.lemma_mul_zero(r);
    } else {
        let i = (j - 1) as nat;
        lemma_prefix_differences(ring, ys, r, i);
        let s0 = weighted_prefix(ring, ys, r, i);
        let t0 = weighted_prefix(ring, d, r, i);
        lemma_prefix_valid(ring, ys, r, i);
        lemma_prefix_valid(ring, d, r, i);
        let p = spow(ring, r, i);
        crate::set_function::xor::lemma_spow_valid(ring, r, i);
        let yi = ys[i as int];
        let yj = ys[j as int];
        let ny = ring.sneg(yi);
        ring.lemma_add_neg(yi);
        assert(d[i as int] == ring.sadd(yj, ny));
        let a = ring.sadd(s0, t0);
        ring.lemma_closed(s0, t0);
        let u = ring.smul(p, yi);
        let w = ring.smul(p, ring.sadd(yj, ny));
        ring.lemma_closed(p, yi);
        ring.lemma_closed(yj, ny);
        ring.lemma_closed(p, ring.sadd(yj, ny));
        // (s0 + u) + (t0 + w) = (s0 + t0) + (u + w), and u + w = p y_j
        lemma_add_swap(ring, s0, u, t0, w);
        ring.lemma_distrib(p, yi, ring.sadd(yj, ny));
        ring.lemma_add_comm(yj, ny);
        ring.lemma_add_assoc(yi, ny, yj);
        ring.lemma_add_zero(yj);
        assert(ring.sadd(u, w) == ring.smul(p, yj));
        // r ((s0 + t0) + p y_j) = r (s0 + t0) + r^j y_j
        ring.lemma_closed(p, yj);
        ring.lemma_closed(p, r);
        ring.lemma_distrib(r, a, ring.smul(p, yj));
        ring.lemma_mul_assoc(r, p, yj);
        ring.lemma_mul_comm(r, p);
        assert(spow(ring, r, j) == ring.smul(p, r));
        ring.lemma_closed(r, a);
        ring.lemma_closed(spow(ring, r, j), yj);
        ring.lemma_add_assoc(ys[0], ring.smul(r, a), ring.smul(spow(ring, r, j), yj));
    }
}

/// The terms of `(E - r)^m` applied to the partial sums.
pub open spec fn geo_term<F: Field>(ring: F, ys: Seq<F::Value>, r: F::Value, m: nat, j: int) -> F::Value {
    ring.smul(ring.smul(binom_elem(ring, m, j as nat), spow(ring, ring.sneg(r), (m - j) as nat)), weighted_prefix(ring, ys, r, j as nat))
}

proof fn lemma_geo_fsum<F: Field>(ring: F, ys: Seq<F::Value>, r: F::Value, m: nat, k: nat)
    ensures
        geo_difference(ring, ys, r, m, k) == fsum(ring, |j: int| geo_term(ring, ys, r, m, j), k as int),
    decreases k,
{
    if k > 0 {
        lemma_geo_fsum(ring, ys, r, m, (k - 1) as nat);
    }
}

/// `(E - r)^m S(0) = (1 - r)^{m-1} f(0) + r (E - r)^{m-1} S'(0)` for `m >= 1`.
proof fn lemma_geo_step<F: Field>(ring: F, ys: Seq<F::Value>, r: F::Value)
    requires
        ring.valid(r),
        forall|i: int| 0 <= i < ys.len() ==> ring.valid(#[trigger] ys[i]),
        ys.len() >= 1,
    ensures
        ({
            let m = ys.len() as nat;
            geo_difference(ring, ys, r, m, m + 1) == ring.sadd(
                ring.smul(r, geo_difference(ring, differences(ring, ys), r, (m - 1) as nat, m)),
                ring.smul(spow(ring, ring.sadd(ring.sone(), ring.sneg(r)), (m - 1) as nat), ys[0]),
            )
        }),
{
    let m = ys.len() as nat;
    let k = (m - 1) as nat;
    let x = ring.sneg(r);
    let d = differences(ring, ys);
    let y0 = ys[0];
    ring.lemma_closed(r, r);
    ring.lemma_add_neg(r);
    lemma_differences_valid(ring, ys);
    let aa = |j: int| ring.smul(spow(ring, x, (m - j) as nat), weighted_prefix(ring, ys, r, j as nat));
    assert forall|j: int| 0 <= j <= k + 1 implies ring.valid(#[trigger] aa(j)) by {
        crate::set_function::xor::lemma_spow_valid(ring, x, (m - j) as nat);
        lemma_prefix_valid(ring, ys, r, j as nat);
        ring.lemma_closed(spow(ring, x, (m - j) as nat), weighted_prefix(ring, ys, r, j as nat));
    }
    // the left side, split by Pascal's rule
    lemma_geo_fsum(ring, ys, r, m, m + 1);
    assert forall|j: int| 0 <= j < m + 1 implies #[trigger] geo_term(ring, ys, r, m, j) == ring.smul(
        binom_elem(ring, k + 1, j as nat),
        aa(j),
    ) by {
        lemma_binom_valid(ring, m, j as nat);
        crate::set_function::xor::lemma_spow_valid(ring, x, (m - j) as nat);
        lemma_prefix_valid(ring, ys, r, j as nat);
        ring.lemma_mul_assoc(binom_elem(ring, m, j as nat), spow(ring, x, (m - j) as nat), weighted_prefix(ring, ys, r, j as nat));
    }
    lemma_fsum_ext(
        ring,
        |j: int| geo_term(ring, ys, r, m, j),
        |j: int| ring.smul(binom_elem(ring, k + 1, j as nat), aa(j)),
        (m + 1) as int,
    );
    lemma_pascal_split(ring, aa, k);
    let p1 = |j: int| ring.smul(binom_elem(ring, k, j as nat), aa(j + 1));
    let p2 = |j: int| ring.smul(binom_elem(ring, k, j as nat), aa(j));
    // the right side, term by term
    lemma_geo_fsum(ring, d, r, k, m);
    let bt = |j: int| ring.smul(binom_elem(ring, k, j as nat), spow(ring, x, (k - j) as nat));
    let q = |j: int| ring.smul(r, geo_term(ring, d, r, k, j));
    let yy = |j: int| ring.smul(bt(j), y0);
    assert forall|j: int| 0 <= j < k + 1 implies ring.valid(#[trigger] geo_term(ring, d, r, k, j)) && ring.valid(
        bt(j),
    ) by {
        lemma_binom_valid(ring, k, j as nat);
        crate::set_function::xor::lemma_spow_valid(ring, x, (k - j) as nat);
        lemma_prefix_valid(ring, d, r, j as nat);
        ring.lemma_closed(binom_elem(ring, k, j as nat), spow(ring, x, (k - j) as nat));
        ring.lemma_closed(bt(j), weighted_prefix(ring, d, r, j as nat));
    }
    assert forall|j: int| 0 <= j < k + 1 implies ring.valid(#[trigger] bt(j)) by {
        assert(ring.valid(geo_term(ring, d, r, k, j)));
    }
    let gt = |j: int| geo_term(ring, d, r, k, j);
    lemma_fsum_mul_left(ring, r, gt, m as int);
    lemma_fsum_ext(ring, |j: int| ring.smul(r, gt(j)), q, m as int);
    lemma_binomial(ring, x, k);
    lemma_fsum_mul_right(ring, bt, y0, m as int);
    lemma_fsum_ext(ring, |j: int| ring.smul(bt(j), y0), yy, m as int);
    // each term: c (S(j+1) + x S(j)) = c (r S'(j)) + c f(0), with c = C(k, j) x^{k-j}
    assert forall|j: int| 0 <= j < k + 1 implies #[trigger] ring.sadd(p1(j), p2(j)) == ring.sadd(q(j), yy(j)) by {
        let c = binom_elem(ring, k, j as nat);
        let pw = spow(ring, x, (k - j) as nat);
        let s0 = weighted_prefix(ring, ys, r, j as nat);
        let s1 = weighted_prefix(ring, ys, r, (j + 1) as nat);
        let sd = weighted_prefix(ring, d, r, j as nat);
        lemma_binom_valid(ring, k, j as nat);
        crate::set_function::xor::lemma_spow_valid(ring, x, (k - j) as nat);
        lemma_prefix_valid(ring, ys, r, j as nat);
        lemma_prefix_valid(ring, ys, r, (j + 1) as nat);
        lemma_prefix_valid(ring, d, r, j as nat);
        lemma_prefix_differences(ring, ys, r, j as nat);
        let cp = ring.smul(c, pw);
        ring.lemma_closed(c, pw);
        assert((m - (j + 1)) as nat == (k - j) as nat);
        assert((m - j) as nat == (k - j) as nat + 1);
        // p1 = cp s1, p2 = cp (x s0), q = cp (r sd), yy = cp y0
        ring.lemma_mul_assoc(c, pw, s1);
        ring.lemma_mul_assoc(pw, x, s0);
        ring.lemma_closed(x, s0);
        ring.lemma_closed(pw, ring.smul(x, s0));
        ring.lemma_mul_assoc(c, pw, ring.smul(x, s0));
        ring.lemma_closed(cp, sd);
        ring.lemma_mul_assoc(r, cp, sd);
        ring.lemma_mul_comm(r, cp);
        ring.lemma_mul_assoc(cp, r, sd);
        assert(p1(j) == ring.smul(cp, s1));
        assert(p2(j) == ring.smul(cp, ring.smul(x, s0)));
        assert(q(j) == ring.smul(cp, ring.smul(r, sd)));
        ring.lemma_closed(r, sd);
        ring.lemma_closed(r, s0);
        ring.lemma_distrib(cp, s1, ring.smul(x, s0));
        ring.lemma_distrib(cp, ring.smul(r, sd), y0);
        // s1 + x s0 = r sd + y0
        ring.lemma_distrib(r, s0, sd);
        let rs0 = ring.smul(r, s0);
        let rsd = ring.smul(r, sd);
        let xs0 = ring.smul(x, s0);
        ring.lemma_closed(rs0, rsd);
        ring.lemma_add_assoc(y0, ring.sadd(rs0, rsd), xs0);
        ring.lemma_add_comm(rs0, rsd);
        ring.lemma_add_assoc(rsd, rs0, xs0);
        ring.lemma_distrib(s0, r, x);
        ring.lemma_mul_comm(s0, r);
        ring.lemma_mul_comm(s0, x);
        ring.lemma_mul_comm(s0, ring.sadd(r, x));
        ring.lemma_mul_zero(s0);
        ring.lemma_add_zero(rsd);
        ring.lemma_add_comm(y0, rsd);
    }
    assert forall|j: int| 0 <= j < k + 1 implies ring.valid(#[trigger] p1(j)) && ring.valid(p2(j)) && ring.valid(q(j))
        && ring.valid(yy(j)) by {
        lemma_binom_valid(ring, k, j as nat);
        ring.lemma_closed(binom_elem(ring, k, j as nat), aa(j + 1));
        ring.lemma_closed(binom_elem(ring, k, j as nat), aa(j));
        ring.lemma_closed(r, geo_term(ring, d, r, k, j));
        ring.lemma_closed(bt(j), y0);
    }
    assert forall|j: int| 0 <= j < k + 1 implies ring.valid(#[trigger] p2(j)) by {
        assert(ring.valid(p1(j)));
    }
    assert forall|j: int| 0 <= j < k + 1 implies ring.valid(#[trigger] yy(j)) by {
        assert(ring.valid(p1(j)));
    }
    assert forall|j: int| 0 <= j < k + 1 implies ring.valid(#[trigger] q(j)) by {
        assert(ring.valid(p1(j)));
    }
    lemma_fsum_add(ring, p1, p2, m as int);
    lemma_fsum_add(ring, q, yy, m as int);
    lemma_fsum_ext(ring, |j: int| ring.sadd(p1(j), p2(j)), |j: int| ring.sadd(q(j), yy(j)), m as int);
    assert((k + 1) as int == m as int);
    assert((k + 2) as int == (m + 1) as int);
    let g = geo_difference(ring, ys, r, m, m + 1);
    assert(g == fsum(ring, |j: int| ring.smul(binom_elem(ring, k + 1, j as nat), aa(j)), (m + 1) as int));
    assert(g == ring.sadd(fsum(ring, p1, m as int), fsum(ring, p2, m as int)));
    assert(g == ring.sadd(fsum(ring, q, m as int), fsum(ring, yy, m as int)));
    assert(fsum(ring, q, m as int) == ring.smul(r, geo_difference(ring, d, r, k, m)));
    assert(fsum(ring, bt, m as int) == spow(ring, ring.sadd(ring.sone(), x), k));
    assert(fsum(ring, yy, m as int) == ring.smul(spow(ring, ring.sadd(ring.sone(), x), k), y0));
}

/// The value of the series `A = Σ_{i >= 0} r^i f(i)` satisfies `(1 - r) A = f(0) + r A'`, where `A'`
/// is the value for the differences `f(i + 1) - f(i)`, given by `m - 1` values, `m = ys.len() >= 1`.
/// With `A = 0` for `m = 0`, this recurrence determines `A` whenever `1 - r` is invertible.
pub proof fn lemma_geo_series_recurrence<F: Field>(ring: F, ys: Seq<F::Value>, r: F::Value)
    requires
        ring.valid(r),
        forall|i: int| 0 <= i < ys.len() ==> ring.valid(#[trigger] ys[i]),
        ys.len() >= 1,
        ring.sadd(ring.sone(), ring.sneg(r)) != ring.szero(),
    ensures
        ring.smul(ring.sadd(ring.sone(), ring.sneg(r)), iota_geo_series(ring, ys, r)) == ring.sadd(
            ys[0],
            ring.smul(r, iota_geo_series(ring, differences(ring, ys), r)),
        ),
{
    let m = ys.len() as nat;
    let k = (m - 1) as nat;
    let e1 = ring.sadd(ring.sone(), ring.sneg(r));
    ring.lemma_closed(r, r);
    ring.lemma_add_neg(r);
    ring.lemma_closed(ring.sone(), ring.sneg(r));
    let dd = spow(ring, e1, k);
    let ee = spow(ring, e1, m);
    crate::set_function::xor::lemma_spow_valid(ring, e1, k);
    lemma_spow_nonzero_field(ring, e1, k);
    lemma_spow_nonzero_field(ring, e1, m);
    assert(ee == ring.smul(dd, e1));
    let d = differences(ring, ys);
    lemma_differences_valid(ring, ys);
    lemma_geo_step(ring, ys, r);
    let g = geo_difference(ring, ys, r, m, m + 1);
    let g1 = geo_difference(ring, d, r, k, m);
    lemma_geo_valid(ring, ys, r, m, m + 1);
    lemma_geo_valid(ring, d, r, k, m);
    // `(1 - r) ee^{-1} = dd^{-1}`
    let z = ring.sinv(ee);
    ring.lemma_inv(ee);
    ring.lemma_inv(dd);
    let w = ring.smul(e1, z);
    ring.lemma_closed(e1, z);
    ring.lemma_mul_assoc(dd, e1, z);
    assert(ring.smul(dd, w) == ring.sone());
    lemma_inverse_unique(ring, dd, w);
    // the value for the differences is `g1 dd^{-1}`
    if k == 0 {
        assert(geo_difference(ring, d, r, k, 0) == ring.szero());
        ring.lemma_closed(ring.sone(), ring.sone());
        assert(g1 == ring.sadd(ring.szero(), ring.smul(ring.smul(binom_elem(ring, 0, 0), spow(ring, ring.sneg(r), 0)), weighted_prefix(ring, d, r, 0))));
        ring.lemma_mul_zero(ring.smul(binom_elem(ring, 0, 0), spow(ring, ring.sneg(r), 0)));
        ring.lemma_mul_one(ring.sone());
        ring.lemma_add_zero(ring.szero());
        ring.lemma_mul_zero(ring.sinv(dd));
        assert(iota_geo_series(ring, d, r) == ring.smul(g1, ring.sinv(dd)));
    } else {
        assert(iota_geo_series(ring, d, r) == ring.smul(g1, ring.sinv(dd)));
    }
    // e1 (g z) = g (e1 z) = g dd^{-1} = (r g1 + dd y0) dd^{-1} = r (g1 dd^{-1}) + y0
    ring.lemma_mul_assoc(e1, g, z);
    ring.lemma_mul_comm(e1, g);
    ring.lemma_mul_assoc(g, e1, z);
    let y0 = ys[0];
    let rg = ring.smul(r, g1);
    ring.lemma_closed(r, g1);
    ring.lemma_closed(dd, y0);
    ring.lemma_distrib(ring.sinv(dd), rg, ring.smul(dd, y0));
    ring.lemma_mul_comm(ring.sadd(rg, ring.smul(dd, y0)), ring.sinv(dd));
    ring.lemma_mul_comm(rg, ring.sinv(dd));
    ring.lemma_mul_comm(ring.smul(dd, y0), ring.sinv(dd));
    ring.lemma_mul_assoc(ring.sinv(dd), dd, y0);
    ring.lemma_mul_comm(ring.sinv(dd), dd);
    ring.lemma_mul_one(y0);
    ring.lemma_mul_assoc(r, g1, ring.sinv(dd));
    ring.lemma_mul_comm(ring.sinv(dd), rg);
    ring.lemma_closed(g1, ring.sinv(dd));
    ring.lemma_closed(r, ring.smul(g1, ring.sinv(dd)));
    ring.lemma_add_comm(ring.smul(r, ring.smul(g1, ring.sinv(dd))), y0);
}

/// The series for no values is zero.
pub proof fn lemma_geo_series_empty<F: Field>(ring: F, r: F::Value)
    ensures
        iota_geo_series(ring, Seq::<F::Value>::empty(), r) == ring.szero(),
{
}

proof fn lemma_geo_valid<F: Field>(ring: F, ys: Seq<F::Value>, r: F::Value, m: nat, k: nat)
    requires
        ring.valid(r),
        forall|i: int| 0 <= i < ys.len() ==> ring.valid(#[trigger] ys[i]),
        k <= ys.len() + 1,
    ensures
        ring.valid(geo_difference(ring, ys, r, m, k)),
    decreases k,
{
    ring.lemma_closed(r, r);
    ring.lemma_add_neg(r);
    if k > 0 {
        let j = (k - 1) as nat;
        lemma_geo_valid(ring, ys, r, m, j);
        lemma_binom_valid(ring, m, j);
        crate::set_function::xor::lemma_spow_valid(ring, ring.sneg(r), (m - j) as nat);
        lemma_prefix_valid(ring, ys, r, j);
        ring.lemma_closed(binom_elem(ring, m, j), spow(ring, ring.sneg(r), (m - j) as nat));
        ring.lemma_closed(
            ring.smul(binom_elem(ring, m, j), spow(ring, ring.sneg(r), (m - j) as nat)),
            weighted_prefix(ring, ys, r, j),
        );
        ring.lemma_closed(geo_difference(ring, ys, r, m, j), geo_term(ring, ys, r, m, j as int));
    }
}

/// A power of a nonzero value of a field is nonzero.
proof fn lemma_spow_nonzero_field<F: Field>(ring: F, a: F::Value, k: nat)
    requires
        ring.valid(a),
        a != ring.szero(),
    ensures
        spow(ring, a, k) != ring.szero(),
        ring.valid(spow(ring, a, k)),
    decreases k,
{
    ring.lemma_closed(a, a);
    ring.lemma_one_ne_zero();
    if k > 0 {
        let k1 = (k - 1) as nat;
        lemma_spow_nonzero_field(ring, a, k1);
        let p = spow(ring, a, k1);
        ring.lemma_closed(p, a);
        if ring.smul(p, a) == ring.szero() {
            ring.lemma_inv(a);
            ring.lemma_mul_assoc(p, a, ring.sinv(a));
            ring.lemma_mul_one(p);
            ring.lemma_mul_zero(ring.sinv(a));
        }
    }
}

/// A right inverse of a nonzero value is its inverse.
proof fn lemma_inverse_unique<F: Field>(ring: F, a: F::Value, w: F::Value)
    requires
        ring.valid(a),
        ring.valid(w),
        a != ring.szero(),
        ring.smul(a, w) == ring.sone(),
    ensures
        w == ring.sinv(a),
{
    ring.lemma_inv(a);
    let v = ring.sinv(a);
    ring.lemma_mul_assoc(v, a, w);
    ring.lemma_mul_comm(v, a);
    ring.lemma_mul_one(w);
    ring.lemma_mul_one(v);
}

} // verus!