//! Products and powers in `R[[x]]/(x^n)`, each factor read with its coefficients zero past its end
//! and at negative degrees.
use crate::algebra::Semiring;
use crate::fps::elementary::series_coef;
use crate::linear::{
    fsum, lemma_fsum_ext, lemma_fsum_mul_left, lemma_fsum_mul_right, lemma_fsum_single, lemma_fsum_swap,
    lemma_fsum_valid, lemma_fsum_zero,
};
use crate::poly::all_valid;
use vstd::prelude::*;

verus! {

/// The terms `i -> f(i) g(k - i)` of coefficient `k` of `fg`.
pub open spec fn prod_term<R: Semiring>(r: R, f: Seq<R::Value>, g: Seq<R::Value>, k: int) -> spec_fn(int) -> R::Value {
    |i: int| r.smul(series_coef(r, f, i), series_coef(r, g, k - i))
}

/// The product of `f` and `g` in `R[[x]]/(x^n)`: `(fg)(k) = Σ_{i < n} f(i) g(k - i)` for `k < n`.
pub open spec fn series_mul<R: Semiring>(r: R, f: Seq<R::Value>, g: Seq<R::Value>, n: nat) -> Seq<R::Value> {
    Seq::new(n, |k: int| fsum(r, prod_term(r, f, g, k), n as int))
}

/// The unit `1` of `R[[x]]/(x^n)`.
pub open spec fn series_one<R: Semiring>(r: R, n: nat) -> Seq<R::Value> {
    Seq::new(n, |k: int| if k == 0 { r.sone() } else { r.szero() })
}

/// `f^k` in `R[[x]]/(x^n)`: `f^0 = 1` and `f^k = f^{k-1} f`.
pub open spec fn series_pow<R: Semiring>(r: R, f: Seq<R::Value>, k: nat, n: nat) -> Seq<R::Value>
    decreases k,
{
    if k == 0 {
        series_one(r, n)
    } else {
        series_mul(r, series_pow(r, f, (k - 1) as nat, n), f, n)
    }
}

proof fn lemma_coef_valid<R: Semiring>(r: R, f: Seq<R::Value>, i: int)
    requires
        r.valid(r.szero()),
        all_valid(r, f),
    ensures
        r.valid(series_coef(r, f, i)),
{
}

proof fn lemma_term_valid<R: Semiring>(r: R, f: Seq<R::Value>, g: Seq<R::Value>, k: int, i: int)
    requires
        r.valid(r.szero()),
        all_valid(r, f),
        all_valid(r, g),
    ensures
        r.valid(prod_term(r, f, g, k)(i)),
{
    lemma_coef_valid(r, f, i);
    lemma_coef_valid(r, g, k - i);
    r.lemma_closed(series_coef(r, f, i), series_coef(r, g, k - i));
}

/// A product of valid series is valid.
pub proof fn lemma_series_mul_valid<R: Semiring>(r: R, f: Seq<R::Value>, g: Seq<R::Value>, n: nat)
    requires
        r.valid(r.szero()),
        all_valid(r, f),
        all_valid(r, g),
    ensures
        all_valid(r, series_mul(r, f, g, n)),
        series_mul(r, f, g, n).len() == n,
{
    assert forall|k: int| 0 <= k < n implies r.valid(#[trigger] series_mul(r, f, g, n)[k]) by {
        assert forall|i: int| 0 <= i < n implies r.valid(#[trigger] prod_term(r, f, g, k)(i)) by {
            lemma_term_valid(r, f, g, k, i);
        }
        lemma_fsum_valid(r, prod_term(r, f, g, k), n as int);
    }
}

/// Powers of a valid series are valid.
pub proof fn lemma_series_pow_valid<R: Semiring>(r: R, f: Seq<R::Value>, k: nat, n: nat)
    requires
        r.valid(r.szero()),
        all_valid(r, f),
    ensures
        all_valid(r, series_pow(r, f, k, n)),
        series_pow(r, f, k, n).len() == n,
    decreases k,
{
    if k == 0 {
        r.lemma_closed(r.szero(), r.szero());
    } else {
        lemma_series_pow_valid(r, f, (k - 1) as nat, n);
        lemma_series_mul_valid(r, series_pow(r, f, (k - 1) as nat, n), f, n);
    }
}

/// `Σ_{i < m} h(i - j) = Σ_{l < m - j} h(l)` when `h` is zero at the degrees `-j, ..., -1`.
proof fn lemma_fsum_shift<R: Semiring>(r: R, h: spec_fn(int) -> R::Value, j: int, m: int)
    requires
        r.valid(r.szero()),
        0 <= j <= m,
        forall|l: int| -j <= l < 0 ==> #[trigger] h(l) == r.szero(),
        forall|l: int| 0 <= l < m - j ==> r.valid(#[trigger] h(l)),
    ensures
        fsum(r, |i: int| h(i - j), m) == fsum(r, h, m - j),
    decreases m,
{
    let s = |i: int| h(i - j);
    if m == j {
        assert forall|i: int| 0 <= i < m implies #[trigger] s(i) == r.szero() by {
            assert(h(i - j) == r.szero());
        }
        lemma_fsum_zero(r, s, m);
    } else {
        lemma_fsum_shift(r, h, j, m - 1);
        assert(s(m - 1) == h(m - j - 1));
    }
}

/// Terms `h(l)` with `p <= l < m` that are zero add nothing.
proof fn lemma_fsum_zero_tail<R: Semiring>(r: R, h: spec_fn(int) -> R::Value, p: int, m: int)
    requires
        r.valid(r.szero()),
        0 <= p <= m,
        forall|l: int| p <= l < m ==> #[trigger] h(l) == r.szero(),
        forall|l: int| 0 <= l < p ==> r.valid(#[trigger] h(l)),
    ensures
        fsum(r, h, m) == fsum(r, h, p),
    decreases m,
{
    if m > p {
        lemma_fsum_zero_tail(r, h, p, m - 1);
        lemma_fsum_valid(r, h, p);
        r.lemma_add_zero(fsum(r, h, p));
    }
}

/// The inner sum of the associativity: `Σ_{i < n} g(i - j) c(k - i)` is coefficient `k - j` of
/// `gc`, zero for `j > k`.
proof fn lemma_assoc_inner<R: Semiring>(r: R, b: Seq<R::Value>, c: Seq<R::Value>, n: nat, k: int, j: int)
    requires
        r.valid(r.szero()),
        all_valid(r, b),
        all_valid(r, c),
        0 <= k < n,
        0 <= j < n,
    ensures
        fsum(r, |i: int| r.smul(series_coef(r, b, i - j), series_coef(r, c, k - i)), n as int) == series_coef(
            r,
            series_mul(r, b, c, n),
            k - j,
        ),
{
    let g = |i: int| r.smul(series_coef(r, b, i - j), series_coef(r, c, k - i));
    lemma_series_mul_valid(r, b, c, n);
    if j > k {
        assert forall|i: int| 0 <= i < n implies #[trigger] g(i) == r.szero() by {
            lemma_coef_valid(r, b, i - j);
            lemma_coef_valid(r, c, k - i);
            if i <= k {
                r.lemma_mul_zero(series_coef(r, c, k - i));
            } else {
                r.lemma_mul_zero(series_coef(r, b, i - j));
            }
        }
        lemma_fsum_zero(r, g, n as int);
    } else {
        let h = prod_term(r, b, c, k - j);
        assert forall|i: int| 0 <= i < n implies #[trigger] g(i) == h(i - j) by {}
        lemma_fsum_ext(r, g, |i: int| h(i - j), n as int);
        assert forall|l: int| -j <= l < 0 implies #[trigger] h(l) == r.szero() by {
            lemma_coef_valid(r, c, k - j - l);
            r.lemma_mul_zero(series_coef(r, c, k - j - l));
        }
        assert forall|l: int| 0 <= l < n implies r.valid(#[trigger] h(l)) by {
            lemma_term_valid(r, b, c, k - j, l);
        }
        lemma_fsum_shift(r, h, j, n as int);
        assert forall|l: int| n - j <= l < n implies #[trigger] h(l) == r.szero() by {
            lemma_coef_valid(r, b, l);
            r.lemma_mul_zero(series_coef(r, b, l));
        }
        lemma_fsum_zero_tail(r, h, n - j, n as int);
    }
}

/// The product of `R[[x]]/(x^n)` is associative.
pub proof fn lemma_series_mul_assoc<R: Semiring>(r: R, a: Seq<R::Value>, b: Seq<R::Value>, c: Seq<R::Value>, n: nat)
    requires
        all_valid(r, a),
        all_valid(r, b),
        all_valid(r, c),
        r.valid(r.szero()),
    ensures
        series_mul(r, series_mul(r, a, b, n), c, n) == series_mul(r, a, series_mul(r, b, c, n), n),
{
    let x = series_mul(r, a, b, n);
    let y = series_mul(r, b, c, n);
    lemma_series_mul_valid(r, a, b, n);
    lemma_series_mul_valid(r, b, c, n);
    assert forall|k: int| 0 <= k < n implies #[trigger] series_mul(r, x, c, n)[k] == series_mul(r, a, y, n)[k] by {
        let ff = |j: int, i: int|
            r.smul(r.smul(series_coef(r, a, j), series_coef(r, b, i - j)), series_coef(r, c, k - i));
        assert forall|j: int, i: int| 0 <= j < n && 0 <= i < n implies r.valid(#[trigger] ff(j, i)) by {
            lemma_term_valid(r, a, b, i, j);
            lemma_coef_valid(r, c, k - i);
            r.lemma_closed(r.smul(series_coef(r, a, j), series_coef(r, b, i - j)), series_coef(r, c, k - i));
        }
        // The left side as a double sum over `i`, then `j`.
        assert forall|i: int| 0 <= i < n implies #[trigger] prod_term(r, x, c, k)(i) == fsum(
            r,
            |j: int| ff(j, i),
            n as int,
        ) by {
            assert forall|j: int| 0 <= j < n implies r.valid(#[trigger] prod_term(r, a, b, i)(j)) by {
                lemma_term_valid(r, a, b, i, j);
            }
            lemma_coef_valid(r, c, k - i);
            lemma_fsum_mul_right(r, prod_term(r, a, b, i), series_coef(r, c, k - i), n as int);
            lemma_fsum_ext(
                r,
                |j: int| r.smul(prod_term(r, a, b, i)(j), series_coef(r, c, k - i)),
                |j: int| ff(j, i),
                n as int,
            );
        }
        lemma_fsum_ext(r, prod_term(r, x, c, k), |i: int| fsum(r, |j: int| ff(j, i), n as int), n as int);
        lemma_fsum_swap(r, ff, n as int, n as int);
        // The right side, term by term.
        assert forall|j: int| 0 <= j < n implies fsum(r, |i: int| ff(j, i), n as int) == #[trigger] prod_term(
            r,
            a,
            y,
            k,
        )(j) by {
            let g = |i: int| r.smul(series_coef(r, b, i - j), series_coef(r, c, k - i));
            lemma_coef_valid(r, a, j);
            assert forall|i: int| 0 <= i < n implies #[trigger] ff(j, i) == r.smul(series_coef(r, a, j), g(i)) by {
                lemma_coef_valid(r, b, i - j);
                lemma_coef_valid(r, c, k - i);
                r.lemma_mul_assoc(series_coef(r, a, j), series_coef(r, b, i - j), series_coef(r, c, k - i));
            }
            lemma_fsum_ext(r, |i: int| ff(j, i), |i: int| r.smul(series_coef(r, a, j), g(i)), n as int);
            assert forall|i: int| 0 <= i < n implies r.valid(#[trigger] g(i)) by {
                lemma_coef_valid(r, b, i - j);
                lemma_coef_valid(r, c, k - i);
                r.lemma_closed(series_coef(r, b, i - j), series_coef(r, c, k - i));
            }
            lemma_fsum_mul_left(r, series_coef(r, a, j), g, n as int);
            lemma_assoc_inner(r, b, c, n, k, j);
        }
        lemma_fsum_ext(r, |j: int| fsum(r, |i: int| ff(j, i), n as int), prod_term(r, a, y, k), n as int);
    }
    assert(series_mul(r, x, c, n) =~= series_mul(r, a, y, n));
}

/// `1` is a right unit: `f 1 = f` for `f` of length `n`.
pub proof fn lemma_series_mul_one<R: Semiring>(r: R, f: Seq<R::Value>, n: nat)
    requires
        r.valid(r.szero()),
        all_valid(r, f),
        f.len() == n,
    ensures
        series_mul(r, f, series_one(r, n), n) == f,
{
    let e = series_one(r, n);
    r.lemma_closed(r.szero(), r.szero());
    assert forall|k: int| 0 <= k < n implies #[trigger] series_mul(r, f, e, n)[k] == f[k] by {
        let t = prod_term(r, f, e, k);
        assert forall|i: int| 0 <= i < n && i != k implies #[trigger] t(i) == r.szero() by {
            lemma_coef_valid(r, f, i);
            r.lemma_mul_zero(series_coef(r, f, i));
        }
        r.lemma_mul_one(f[k]);
        lemma_fsum_single(r, t, n as int, k);
    }
    assert(series_mul(r, f, e, n) =~= f);
}

/// `f^a f^b = f^{a + b}`.
pub proof fn lemma_series_pow_add<R: Semiring>(r: R, f: Seq<R::Value>, a: nat, b: nat, n: nat)
    requires
        r.valid(r.szero()),
        all_valid(r, f),
    ensures
        series_mul(r, series_pow(r, f, a, n), series_pow(r, f, b, n), n) == series_pow(r, f, a + b, n),
    decreases b,
{
    lemma_series_pow_valid(r, f, a, n);
    if b == 0 {
        lemma_series_mul_one(r, series_pow(r, f, a, n), n);
    } else {
        lemma_series_pow_add(r, f, a, (b - 1) as nat, n);
        lemma_series_pow_valid(r, f, (b - 1) as nat, n);
        lemma_series_mul_assoc(r, series_pow(r, f, a, n), series_pow(r, f, (b - 1) as nat, n), f, n);
        assert((a + b - 1) as nat == a + (b - 1) as nat);
    }
}

/// The unit of `R[[x]]/(x^n)`, computed.
pub(crate) fn series_one_exec<R: Semiring>(ring: &R, n: usize) -> (e: Vec<R::Value>)
    ensures
        e@ == series_one(*ring, n as nat),
        all_valid(*ring, e@),
{
    let mut e: Vec<R::Value> = Vec::new();
    let mut k: usize = 0;
    while k < n
        invariant
            k <= n,
            e@.len() == k,
            forall|i: int| 0 <= i < k ==> #[trigger] e@[i] == series_one(*ring, n as nat)[i],
            all_valid(*ring, e@),
        decreases n - k,
    {
        if k == 0 {
            e.push(ring.one());
        } else {
            e.push(ring.zero());
        }
        k = k + 1;
    }
    assert(e@ =~= series_one(*ring, n as nat));
    e
}

/// The product in `R[[x]]/(x^n)`, by the schoolbook product in O(n^2).
pub(crate) fn series_mul_exec<R: Semiring>(ring: &R, f: &[R::Value], g: &[R::Value], n: usize) -> (h: Vec<
    R::Value,
>)
    requires
        all_valid(*ring, f@),
        all_valid(*ring, g@),
    ensures
        h@ == series_mul(*ring, f@, g@, n as nat),
        all_valid(*ring, h@),
{
    let zero = ring.zero();
    let mut h: Vec<R::Value> = Vec::new();
    let mut k: usize = 0;
    while k < n
        invariant
            k <= n,
            ring.valid(ring.szero()),
            zero == ring.szero(),
            all_valid(*ring, f@),
            all_valid(*ring, g@),
            h@.len() == k,
            forall|x: int| 0 <= x < k ==> #[trigger] h@[x] == series_mul(*ring, f@, g@, n as nat)[x],
            all_valid(*ring, h@),
        decreases n - k,
    {
        let mut acc = ring.zero();
        let mut i: usize = 0;
        while i < n
            invariant
                i <= n,
                k < n,
                ring.valid(ring.szero()),
                all_valid(*ring, f@),
                all_valid(*ring, g@),
                ring.valid(acc),
                acc == fsum(*ring, prod_term(*ring, f@, g@, k as int), i as int),
            decreases n - i,
        {
            proof {
                lemma_coef_valid(*ring, f@, i as int);
                lemma_coef_valid(*ring, g@, k - i);
            }
            if i < f.len() && i <= k && k - i < g.len() {
                let t = ring.mul(&f[i], &g[k - i]);
                acc = ring.add(&acc, &t);
            } else {
                proof {
                    ring.lemma_mul_zero(series_coef(*ring, f@, i as int));
                    ring.lemma_mul_zero(series_coef(*ring, g@, k - i));
                    ring.lemma_add_zero(acc);
                }
            }
            i = i + 1;
        }
        proof {
            lemma_series_mul_valid(*ring, f@, g@, n as nat);
        }
        h.push(acc);
        k = k + 1;
    }
    proof {
        lemma_series_mul_valid(*ring, f@, g@, n as nat);
    }
    assert(h@ =~= series_mul(*ring, f@, g@, n as nat));
    h
}

} // verus!
