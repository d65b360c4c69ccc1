//! Multiplicative arithmetic functions, from factorizations and tabulated by the least prime
//! factor.
use crate::algebra::{Monoid, Semigroup};
use crate::num::divisibility::{lemma_pow_ge_pow2, lemma_pow_succ, spec_is_prime};
use crate::num::factorization::{
    lemma_lpf_facts, lemma_mult_fold_prepend, lemma_multiplicity, lpf_factorization, mult_fold,
    multiplicity,
};
use crate::num::divisibility::spec_lpf;
use crate::num::prime::{factors_view_u64, linear_sieve, lpf_table};
use vstd::arithmetic::div_mod::*;
use vstd::arithmetic::mul::*;
use vstd::arithmetic::power::pow;
use vstd::prelude::*;

verus! {

/// Euler's totient at a prime power: `φ(p^e) = p^{e-1} (p - 1)`.
pub open spec fn phi_pp() -> spec_fn(nat, nat) -> int {
    |p: nat, e: nat| pow(p as int, (e - 1) as nat) * (p - 1)
}

/// The Möbius function at a prime power: `μ(p) = -1` and `μ(p^e) = 0` for `e >= 2`.
pub open spec fn mu_pp() -> spec_fn(nat, nat) -> int {
    |p: nat, e: nat|
        if e == 1 {
            -1
        } else {
            0
        }
}

/// The number of divisors at a prime power: `d(p^e) = e + 1`.
pub open spec fn d_pp() -> spec_fn(nat, nat) -> int {
    |p: nat, e: nat| (e + 1) as int
}

/// `1 + p + ... + p^e`.
pub open spec fn geometric_sum(p: nat, e: nat) -> int
    decreases e,
{
    if e == 0 {
        1
    } else {
        geometric_sum(p, (e - 1) as nat) + pow(p as int, e)
    }
}

/// The sum of divisors at a prime power: `σ(p^e) = 1 + p + ... + p^e`.
pub open spec fn sigma_pp() -> spec_fn(nat, nat) -> int {
    |p: nat, e: nat| geometric_sum(p, e)
}

/// Every pair of `f` has `p >= 2` and `e >= 1`, as in a factorization.
pub open spec fn prime_power_pairs(f: Seq<(nat, nat)>) -> bool {
    forall|i: int| 0 <= i < f.len() ==> #[trigger] f[i].0 >= 2 && f[i].1 >= 1
}

/// A prefix of the product of values at least `1` is at most the product.
proof fn lemma_mult_fold_prefix(v: Seq<(nat, nat)>, g: spec_fn(nat, nat) -> int, k: int)
    requires
        0 <= k <= v.len(),
        forall|i: int| 0 <= i < v.len() ==> g(#[trigger] v[i].0, v[i].1) >= 1,
    ensures
        1 <= mult_fold(v.take(k), g) <= mult_fold(v, g),
    decreases v.len(),
{
    if k < v.len() {
        assert(v.take(k) =~= v.drop_last().take(k));
        lemma_mult_fold_prefix(v.drop_last(), g, k);
        assert(g(v[v.len() - 1].0, v[v.len() - 1].1) >= 1);
        lemma_mul_increases(g(v.last().0, v.last().1), mult_fold(v.drop_last(), g));
        lemma_mul_is_commutative(g(v.last().0, v.last().1), mult_fold(v.drop_last(), g));
    } else {
        assert(v.take(k) =~= v);
        if v.len() > 0 {
            lemma_mult_fold_prefix(v.drop_last(), g, v.len() - 1);
            assert(v.drop_last().take(v.len() - 1) =~= v.drop_last());
            assert(g(v[v.len() - 1].0, v[v.len() - 1].1) >= 1);
            lemma_mul_strictly_positive(g(v.last().0, v.last().1), mult_fold(v.drop_last(), g));
            lemma_mul_is_commutative(g(v.last().0, v.last().1), mult_fold(v.drop_last(), g));
        }
    }
}

/// `b^e` for `b^e <= u64::MAX`, by repeated multiplication.
fn pow_u64(b: u64, e: u32) -> (r: u64)
    requires
        b >= 1,
        pow(b as int, e as nat) <= u64::MAX,
    ensures
        r == pow(b as int, e as nat),
{
    let mut r: u64 = 1;
    let mut i: u32 = 0;
    proof {
        lemma_pow_succ(b as int, 0);
    }
    while i < e
        invariant
            i <= e,
            b >= 1,
            pow(b as int, e as nat) <= u64::MAX,
            r == pow(b as int, i as nat),
        decreases e - i,
    {
        proof {
            lemma_pow_succ(b as int, i as nat);
            lemma_pow_le_mono(b as int, (i + 1) as nat, e as nat);
        }
        r = r * b;
        i = i + 1;
    }
    r
}

/// `b^i <= b^j` for `b >= 1` and `i <= j`.
pub proof fn lemma_pow_le_mono(b: int, i: nat, j: nat)
    requires
        b >= 1,
        i <= j,
    ensures
        1 <= pow(b, i) <= pow(b, j),
    decreases j,
{
    lemma_pow_succ(b, 0);
    if j > 0 {
        lemma_pow_succ(b, (j - 1) as nat);
        if i < j {
            lemma_pow_le_mono(b, i, (j - 1) as nat);
        } else {
            lemma_pow_le_mono(b, (j - 1) as nat, (j - 1) as nat);
        }
        lemma_mul_increases(b, pow(b, (j - 1) as nat));
    }
}

/// Euler's totient `φ(n) = Π p^{e-1} (p - 1)` from the factorization `n = Π p^e`.
pub fn euler_phi(factors: &[(u64, u32)]) -> (r: u64)
    requires
        prime_power_pairs(factors_view_u64(factors@)),
        mult_fold(factors_view_u64(factors@), phi_pp()) <= u64::MAX,
    ensures
        r == mult_fold(factors_view_u64(factors@), phi_pp()),
{
    let ghost v = factors_view_u64(factors@);
    proof {
        assert forall|i: int| 0 <= i < v.len() implies phi_pp()(#[trigger] v[i].0, v[i].1) >= 1 by {
            lemma_pow_le_mono(v[i].0 as int, 0, (v[i].1 - 1) as nat);
            lemma_mul_strictly_positive(pow(v[i].0 as int, (v[i].1 - 1) as nat), v[i].0 - 1);
        }
    }
    let mut acc: u64 = 1;
    let mut k: usize = 0;
    while k < factors.len()
        invariant
            k <= factors.len(),
            v == factors_view_u64(factors@),
            prime_power_pairs(v),
            forall|i: int| 0 <= i < v.len() ==> phi_pp()(#[trigger] v[i].0, v[i].1) >= 1,
            mult_fold(v, phi_pp()) <= u64::MAX,
            acc == mult_fold(v.take(k as int), phi_pp()),
        decreases factors.len() - k,
    {
        let (p, e) = factors[k];
        proof {
            assert(v.take(k as int + 1).drop_last() =~= v.take(k as int));
            assert(v[k as int] == (p as nat, e as nat));
            lemma_mult_fold_prefix(v, phi_pp(), k as int);
            lemma_mult_fold_prefix(v, phi_pp(), k as int + 1);
            lemma_mul_increases(acc as int, phi_pp()(p as nat, e as nat));
            lemma_mul_is_commutative(acc as int, phi_pp()(p as nat, e as nat));
            assert(v[k as int].0 >= 2);
            lemma_pow_le_mono(p as int, 0, (e - 1) as nat);
            lemma_mul_increases(p - 1, pow(p as int, (e - 1) as nat));
            lemma_mul_is_commutative(p - 1, pow(p as int, (e - 1) as nat));
        }
        let q = pow_u64(p, e - 1) * (p - 1);
        acc = acc * q;
        k = k + 1;
    }
    proof {
        assert(v.take(k as int) =~= v);
    }
    acc
}

/// The Möbius function `μ(n)` from the factorization `n = Π p^e`: `(-1)^r` for `n` a product of
/// `r` distinct primes and `0` if some exponent exceeds `1`.
pub fn mobius(factors: &[(u64, u32)]) -> (r: i64)
    ensures
        r == mult_fold(factors_view_u64(factors@), mu_pp()),
{
    let ghost v = factors_view_u64(factors@);
    let mut acc: i64 = 1;
    let mut k: usize = 0;
    while k < factors.len()
        invariant
            k <= factors.len(),
            v == factors_view_u64(factors@),
            acc == mult_fold(v.take(k as int), mu_pp()),
            -1 <= acc <= 1,
        decreases factors.len() - k,
    {
        let e = factors[k].1;
        proof {
            assert(v.take(k as int + 1).drop_last() =~= v.take(k as int));
            assert(v[k as int].1 == e);
        }
        let x: i64 = if e == 1 {
            -1
        } else {
            0
        };
        acc = acc * x;
        k = k + 1;
    }
    proof {
        assert(v.take(k as int) =~= v);
    }
    acc
}

/// The number of divisors `d(n) = Π (e + 1)` from the factorization `n = Π p^e`.
pub fn num_divisors(factors: &[(u64, u32)]) -> (r: u64)
    requires
        mult_fold(factors_view_u64(factors@), d_pp()) <= u64::MAX,
    ensures
        r == mult_fold(factors_view_u64(factors@), d_pp()),
{
    let ghost v = factors_view_u64(factors@);
    let mut acc: u64 = 1;
    let mut k: usize = 0;
    while k < factors.len()
        invariant
            k <= factors.len(),
            v == factors_view_u64(factors@),
            mult_fold(v, d_pp()) <= u64::MAX,
            acc == mult_fold(v.take(k as int), d_pp()),
        decreases factors.len() - k,
    {
        let e = factors[k].1;
        proof {
            assert(v.take(k as int + 1).drop_last() =~= v.take(k as int));
            assert(v[k as int].1 == e);
            lemma_mult_fold_prefix(v, d_pp(), k as int + 1);
            lemma_mult_fold_prefix(v, d_pp(), k as int);
        }
        acc = acc * (e as u64 + 1);
        k = k + 1;
    }
    proof {
        assert(v.take(k as int) =~= v);
    }
    acc
}

/// `1 + p + ... + p^e`, without computing `p^{e+1}`.
fn geometric_sum_u64(p: u64, e: u32) -> (s: u64)
    requires
        p >= 2,
        geometric_sum(p as nat, e as nat) <= u64::MAX,
    ensures
        s == geometric_sum(p as nat, e as nat),
{
    let mut s: u64 = 1;
    let mut q: u64 = 1;
    let mut i: u32 = 0;
    proof {
        lemma_pow_succ(p as int, 0);
    }
    while i < e
        invariant
            i <= e,
            p >= 2,
            geometric_sum(p as nat, e as nat) <= u64::MAX,
            q == pow(p as int, i as nat),
            s == geometric_sum(p as nat, i as nat),
        decreases e - i,
    {
        proof {
            lemma_pow_succ(p as int, i as nat);
            lemma_geometric_sum_mono(p as nat, (i + 1) as nat, e as nat);
            lemma_pow_le_mono(p as int, 0, (i + 1) as nat);
        }
        q = q * p;
        s = s + q;
        i = i + 1;
    }
    s
}

/// `1 + p + ... + p^e` increases with `e`.
proof fn lemma_geometric_sum_mono(p: nat, i: nat, j: nat)
    requires
        p >= 1,
        i <= j,
    ensures
        pow(p as int, i) <= geometric_sum(p, i) <= geometric_sum(p, j),
        geometric_sum(p, i) >= 1,
    decreases j,
{
    lemma_pow_succ(p as int, 0);
    if j > i {
        lemma_geometric_sum_mono(p, i, (j - 1) as nat);
        lemma_pow_le_mono(p as int, 0, j);
    } else if i > 0 {
        lemma_geometric_sum_mono(p, (i - 1) as nat, (i - 1) as nat);
        lemma_pow_le_mono(p as int, 0, i);
    }
}

/// The sum of divisors `σ(n) = Π (1 + p + ... + p^e)` from the factorization `n = Π p^e`.
pub fn sum_divisors(factors: &[(u64, u32)]) -> (r: u64)
    requires
        prime_power_pairs(factors_view_u64(factors@)),
        mult_fold(factors_view_u64(factors@), sigma_pp()) <= u64::MAX,
    ensures
        r == mult_fold(factors_view_u64(factors@), sigma_pp()),
{
    let ghost v = factors_view_u64(factors@);
    proof {
        assert forall|i: int| 0 <= i < v.len() implies sigma_pp()(#[trigger] v[i].0, v[i].1) >= 1 by {
            lemma_geometric_sum_mono(v[i].0, v[i].1, v[i].1);
        }
    }
    let mut acc: u64 = 1;
    let mut k: usize = 0;
    while k < factors.len()
        invariant
            k <= factors.len(),
            v == factors_view_u64(factors@),
            prime_power_pairs(v),
            forall|i: int| 0 <= i < v.len() ==> sigma_pp()(#[trigger] v[i].0, v[i].1) >= 1,
            mult_fold(v, sigma_pp()) <= u64::MAX,
            acc == mult_fold(v.take(k as int), sigma_pp()),
        decreases factors.len() - k,
    {
        let (p, e) = factors[k];
        proof {
            assert(v.take(k as int + 1).drop_last() =~= v.take(k as int));
            assert(v[k as int] == (p as nat, e as nat));
            lemma_mult_fold_prefix(v, sigma_pp(), k as int);
            lemma_mult_fold_prefix(v, sigma_pp(), k as int + 1);
            lemma_mul_increases(acc as int, sigma_pp()(p as nat, e as nat));
            lemma_mul_is_commutative(acc as int, sigma_pp()(p as nat, e as nat));
        }
        let q = geometric_sum_u64(p, e);
        acc = acc * q;
        k = k + 1;
    }
    proof {
        assert(v.take(k as int) =~= v);
    }
    acc
}

} // verus!

verus! {

/// The first step of `lpf_factorization`, as computed from the least prime factor.
proof fn lemma_peel(m: nat, p: nat, q: nat, e: nat)
    requires
        m >= 2,
        p == spec_lpf(m),
        q >= 1,
        q % p != 0,
        m == q * pow(p as int, e),
    ensures
        lpf_factorization(m) == seq![(p, e)] + lpf_factorization(q),
        q < m,
        e >= 1,
        spec_is_prime(p),
{
    lemma_lpf_facts(m);
    lemma_multiplicity(m, p, q, e);
}

/// `φ(m) <= m`.
proof fn lemma_phi_le(m: nat)
    requires
        m >= 1,
    ensures
        1 <= mult_fold(lpf_factorization(m), phi_pp()) <= m,
    decreases m,
{
    if m < 2 {
        assert(lpf_factorization(m) =~= Seq::<(nat, nat)>::empty());
    } else {
        lemma_lpf_facts(m);
        let p = spec_lpf(m);
        let e = multiplicity(m, p);
        let q = m / (pow(p as int, e) as nat);
        lemma_phi_le(q);
        lemma_mult_fold_prepend((p, e), lpf_factorization(q), phi_pp());
        let a = pow(p as int, (e - 1) as nat);
        lemma_pow_succ(p as int, (e - 1) as nat);
        lemma_pow_le_mono(p as int, 0, (e - 1) as nat);
        lemma_mul_inequality(p - 1, p as int, a);
        lemma_mul_is_commutative(p - 1, a);
        lemma_mul_is_commutative(p as int, a);
        lemma_mul_strictly_positive(a, p - 1);
        let phq = mult_fold(lpf_factorization(q), phi_pp());
        lemma_mul_upper_bound(a * (p - 1), pow(p as int, e), phq, q as int);
        lemma_mul_is_commutative(q as int, pow(p as int, e));
        lemma_mul_strictly_positive(a * (p - 1), phq);
    }
}

/// `μ(m)` is `-1`, `0` or `1`.
proof fn lemma_mu_range(f: Seq<(nat, nat)>)
    ensures
        -1 <= mult_fold(f, mu_pp()) <= 1,
    decreases f.len(),
{
    if f.len() > 0 {
        lemma_mu_range(f.drop_last());
    }
}

/// Euler's totient `φ(m)` for `0 <= m <= n`: `table[m]` is `Π p^{e-1} (p - 1)` over the
/// factorization of `m`, and `table[0] = 1`.
pub fn phi_table(n: usize) -> (table: Vec<u64>)
    requires
        n < usize::MAX / 2,
    ensures
        table.len() == n + 1,
        table@[0] == 1,
        forall|m: int|
            1 <= m <= n ==> #[trigger] table@[m] == mult_fold(lpf_factorization(m as nat), phi_pp()),
{
    let spf = linear_sieve(n);
    let mut table: Vec<u64> = Vec::with_capacity(n + 1);
    let mut m: usize = 0;
    while m <= n
        invariant
            m <= n + 1,
            n < usize::MAX / 2,
            lpf_table(spf@, n as nat),
            table.len() == m,
            m > 0 ==> table@[0] == 1,
            forall|j: int|
                1 <= j < m ==> #[trigger] table@[j] == mult_fold(
                    lpf_factorization(j as nat),
                    phi_pp(),
                ),
        decreases n + 1 - m,
    {
        if m < 2 {
            proof {
                assert(lpf_factorization(m as nat) =~= Seq::<(nat, nat)>::empty());
            }
            table.push(1);
        } else {
            let p = spf[m];
            proof {
                crate::num::divisibility::lemma_lpf(m as nat);
            }
            let (q, e) = crate::num::prime::divide_out(m as u64, p as u64);
            proof {
                lemma_peel(m as nat, p as nat, q as nat, e as nat);
                lemma_mult_fold_prepend((p as nat, e as nat), lpf_factorization(q as nat), phi_pp());
                lemma_phi_le(m as nat);
                lemma_phi_le(q as nat);
                lemma_pow_le_mono(p as int, 0, (e - 1) as nat);
                lemma_pow_le_mono(p as int, (e - 1) as nat, e as nat);
                lemma_mul_increases(q as int, pow(p as int, e as nat));
                lemma_mul_is_commutative(q as int, pow(p as int, e as nat));
                lemma_mul_increases(p - 1, pow(p as int, (e - 1) as nat));
                lemma_mul_is_commutative(p - 1, pow(p as int, (e - 1) as nat));
                let gq = phi_pp()(p as nat, e as nat);
                let fq = mult_fold(lpf_factorization(q as nat), phi_pp());
                assert(table@[q as int] == fq);
                lemma_mul_increases(fq, gq);
                lemma_mul_is_commutative(fq, gq);
                assert(gq <= m);
                assert(gq * fq <= m);
            }
            let g = pow_u64(p as u64, e - 1) * (p as u64 - 1);
            let v = table[q as usize] * g;
            table.push(v);
        }
        m = m + 1;
    }
    table
}

/// The Möbius function `μ(m)` for `0 <= m <= n`: `table[m]` is `Π μ(p^e)` over the factorization
/// of `m`, and `table[0] = 1`.
pub fn mobius_table(n: usize) -> (table: Vec<i64>)
    requires
        n < usize::MAX / 2,
    ensures
        table.len() == n + 1,
        table@[0] == 1,
        forall|m: int|
            1 <= m <= n ==> #[trigger] table@[m] == mult_fold(lpf_factorization(m as nat), mu_pp()),
{
    let spf = linear_sieve(n);
    let mut table: Vec<i64> = Vec::with_capacity(n + 1);
    let mut m: usize = 0;
    while m <= n
        invariant
            m <= n + 1,
            n < usize::MAX / 2,
            lpf_table(spf@, n as nat),
            table.len() == m,
            m > 0 ==> table@[0] == 1,
            forall|j: int|
                1 <= j < m ==> #[trigger] table@[j] == mult_fold(
                    lpf_factorization(j as nat),
                    mu_pp(),
                ),
        decreases n + 1 - m,
    {
        if m < 2 {
            proof {
                assert(lpf_factorization(m as nat) =~= Seq::<(nat, nat)>::empty());
            }
            table.push(1);
        } else {
            let p = spf[m];
            proof {
                crate::num::divisibility::lemma_lpf(m as nat);
            }
            let (q, e) = crate::num::prime::divide_out(m as u64, p as u64);
            proof {
                lemma_peel(m as nat, p as nat, q as nat, e as nat);
                lemma_mult_fold_prepend((p as nat, e as nat), lpf_factorization(q as nat), mu_pp());
                lemma_mu_range(lpf_factorization(q as nat));
                assert(table@[q as int] == mult_fold(lpf_factorization(q as nat), mu_pp()));
            }
            let g: i64 = if e == 1 {
                -1
            } else {
                0
            };
            let v = table[q as usize] * g;
            table.push(v);
        }
        m = m + 1;
    }
    table
}

/// `f` computes `fv(p, e)` from `(p, e)`: it can be called on every pair and returns `fv`.
pub open spec fn computes_pp<V, F: Fn(usize, u32) -> V>(f: F, fv: spec_fn(nat, nat) -> V) -> bool {
    &&& forall|p: usize, e: u32| #[trigger] f.requires((p, e))
    &&& forall|p: usize, e: u32, v: V| #[trigger] f.ensures((p, e), v) ==> v == fv(p as nat, e as nat)
}

/// The same for pairs of `u64` and `u32`.
pub open spec fn computes_pp64<V, F: Fn(u64, u32) -> V>(f: F, fv: spec_fn(nat, nat) -> V) -> bool {
    &&& forall|p: u64, e: u32| #[trigger] f.requires((p, e))
    &&& forall|p: u64, e: u32, v: V| #[trigger] f.ensures((p, e), v) ==> v == fv(p as nat, e as nat)
}

/// Each step of `monoid_fold(fac, fv)` is defined: the product so far with the next value.
pub open spec fn foldable<M: Monoid>(monoid: M, fac: Seq<(nat, nat)>, fv: spec_fn(nat, nat) -> M::Value) -> bool {
    forall|i: int| 0 <= i < fac.len() ==> #[trigger] monoid.defined(monoid_fold(monoid, fac.take(i), fv), fv(fac[i].0, fac[i].1))
}

/// The last step of `monoid_fold_rev(lpf_factorization(m), fv)` is defined for every
/// `2 <= m <= n`.
pub open spec fn table_foldable<M: Monoid>(monoid: M, n: nat, fv: spec_fn(nat, nat) -> M::Value) -> bool {
    forall|m: nat|
        2 <= m <= n ==> #[trigger] monoid.defined(
            monoid_fold_rev(monoid, lpf_factorization(m).skip(1), fv),
            fv(lpf_factorization(m)[0].0, lpf_factorization(m)[0].1),
        )
}

/// `Π fv(p, e)` over the pairs of `fac` in order: `fv(p_1, e_1) fv(p_2, e_2) ...`, the identity for
/// no pair.
pub open spec fn monoid_fold<M: Monoid>(monoid: M, fac: Seq<(nat, nat)>, fv: spec_fn(nat, nat) -> M::Value) -> M::Value
    decreases fac.len(),
{
    if fac.len() == 0 {
        monoid.sid()
    } else {
        monoid.sop(monoid_fold(monoid, fac.drop_last(), fv), fv(fac.last().0, fac.last().1))
    }
}

/// `Π fv(p, e)` over the pairs of `fac` from the last to the first.
pub open spec fn monoid_fold_rev<M: Monoid>(monoid: M, fac: Seq<(nat, nat)>, fv: spec_fn(nat, nat) -> M::Value) -> M::Value
    decreases fac.len(),
{
    if fac.len() == 0 {
        monoid.sid()
    } else {
        monoid.sop(monoid_fold_rev(monoid, fac.skip(1), fv), fv(fac[0].0, fac[0].1))
    }
}

/// A multiplicative function from its values `fv(p, e) = f(p^e)` at prime powers, at the number
/// with the factorization `factors`: `Π f(p^e)` in the order of `factors`, the identity for the
/// empty product. The result is that for every `fv` that `f` computes.
pub fn multiplicative<M: Monoid, F: Fn(u64, u32) -> M::Value>(monoid: &M, factors: &[(u64, u32)], f: F) -> (r: M::Value)
    requires
        forall|p: u64, e: u32| #[trigger] f.requires((p, e)),
        forall|p: u64, e: u32, v: M::Value| #[trigger] f.ensures((p, e), v) ==> monoid.valid(v),
        exists|fv: spec_fn(nat, nat) -> M::Value| #[trigger] computes_pp64(f, fv),
        forall|fv: spec_fn(nat, nat) -> M::Value|
            #[trigger] computes_pp64(f, fv) ==> foldable(*monoid, factors_view_u64(factors@), fv),
    ensures
        monoid.valid(r),
        forall|fv: spec_fn(nat, nat) -> M::Value|
            #[trigger] computes_pp64(f, fv) ==> r == monoid_fold(*monoid, factors_view_u64(factors@), fv),
{
    let ghost fv0 = choose|fv: spec_fn(nat, nat) -> M::Value| computes_pp64(f, fv);
    let mut acc = monoid.id();
    let mut i: usize = 0;
    while i < factors.len()
        invariant
            i <= factors@.len(),
            monoid.valid(acc),
            forall|p: u64, e: u32| #[trigger] f.requires((p, e)),
            forall|p: u64, e: u32, v: M::Value| #[trigger] f.ensures((p, e), v) ==> monoid.valid(v),
            computes_pp64(f, fv0),
            forall|fv: spec_fn(nat, nat) -> M::Value|
                #[trigger] computes_pp64(f, fv) ==> foldable(*monoid, factors_view_u64(factors@), fv),
            forall|fv: spec_fn(nat, nat) -> M::Value|
                #[trigger] computes_pp64(f, fv) ==> acc == monoid_fold(*monoid, factors_view_u64(factors@).take(i as int), fv),
        decreases factors@.len() - i,
    {
        let (p, e) = factors[i];
        let v = f(p, e);
        let ghost old_acc = acc;
        proof {
            let fac = factors_view_u64(factors@);
            assert(monoid.defined(monoid_fold(*monoid, fac.take(i as int), fv0), fv0(fac[i as int].0, fac[i as int].1)));
            assert(v == fv0(p as nat, e as nat));
        }
        acc = monoid.op(&acc, &v);
        proof {
            assert forall|fv: spec_fn(nat, nat) -> M::Value| #[trigger] computes_pp64(f, fv) implies acc == monoid_fold(
                *monoid,
                factors_view_u64(factors@).take(i + 1),
                fv,
            ) by {
                let t = factors_view_u64(factors@).take(i + 1);
                assert(t.drop_last() =~= factors_view_u64(factors@).take(i as int));
                assert(v == fv(p as nat, e as nat));
            }
        }
        i = i + 1;
    }
    proof {
        assert(factors_view_u64(factors@).take(factors@.len() as int) =~= factors_view_u64(factors@));
    }
    acc
}

/// A multiplicative function tabulated on `[0, n]` from its values `fv(p, e) = f(p^e)` at prime
/// powers: `table[m] = Π f(p^e)` over the factorization of `m`, from the largest prime to the
/// least, for `1 <= m <= n`; `table[0]` and `table[1]` are the identity. The result is that for
/// every `fv` that `f` computes.
pub fn multiplicative_table<M: Monoid, F: Fn(usize, u32) -> M::Value>(monoid: &M, n: usize, f: F) -> (table: Vec<M::Value>)
    requires
        n < usize::MAX / 2,
        forall|p: usize, e: u32| #[trigger] f.requires((p, e)),
        forall|p: usize, e: u32, v: M::Value| #[trigger] f.ensures((p, e), v) ==> monoid.valid(v),
        exists|fv: spec_fn(nat, nat) -> M::Value| #[trigger] computes_pp(f, fv),
        forall|fv: spec_fn(nat, nat) -> M::Value| #[trigger] computes_pp(f, fv) ==> table_foldable(*monoid, n as nat, fv),
    ensures
        table@.len() == n + 1,
        table@[0] == monoid.sid(),
        forall|fv: spec_fn(nat, nat) -> M::Value, m: int|
            #![trigger computes_pp(f, fv), table@[m]]
            computes_pp(f, fv) && 1 <= m <= n ==> table@[m] == monoid_fold_rev(*monoid, lpf_factorization(m as nat), fv),
{
    let ghost fv0 = choose|fv: spec_fn(nat, nat) -> M::Value| computes_pp(f, fv);
    let spf = linear_sieve(n);
    let mut table: Vec<M::Value> = Vec::with_capacity(n + 1);
    let mut m: usize = 0;
    while m <= n
        invariant
            m <= n + 1,
            n < usize::MAX / 2,
            lpf_table(spf@, n as nat),
            table@.len() == m,
            forall|p: usize, e: u32| #[trigger] f.requires((p, e)),
            forall|p: usize, e: u32, v: M::Value| #[trigger] f.ensures((p, e), v) ==> monoid.valid(v),
            computes_pp(f, fv0),
            table_foldable(*monoid, n as nat, fv0),
            m > 0 ==> table@[0] == monoid.sid(),
            forall|j: int| 0 <= j < m ==> monoid.valid(#[trigger] table@[j]),
            forall|fv: spec_fn(nat, nat) -> M::Value, j: int|
                #![trigger computes_pp(f, fv), table@[j]]
                computes_pp(f, fv) && 1 <= j < m ==> table@[j] == monoid_fold_rev(*monoid, lpf_factorization(j as nat), fv),
        decreases n + 1 - m,
    {
        if m < 2 {
            proof {
                assert(lpf_factorization(m as nat) =~= Seq::<(nat, nat)>::empty());
            }
            table.push(monoid.id());
        } else {
            let p = spf[m];
            proof {
                crate::num::divisibility::lemma_lpf(m as nat);
            }
            let (q, e) = crate::num::prime::divide_out(m as u64, p as u64);
            proof {
                lemma_peel(m as nat, p as nat, q as nat, e as nat);
            }
            let v = f(p, e);
            proof {
                let fac = lpf_factorization(m as nat);
                assert(fac.skip(1) =~= lpf_factorization(q as nat));
                assert(monoid.defined(monoid_fold_rev(*monoid, fac.skip(1), fv0), fv0(fac[0].0, fac[0].1)));
                assert(v == fv0(p as nat, e as nat));
                assert(table@[q as int] == monoid_fold_rev(*monoid, lpf_factorization(q as nat), fv0)) by {
                    if q >= 2 {
                    } else {
                        assert(q == 1);
                        assert(lpf_factorization(1) =~= Seq::<(nat, nat)>::empty());
                    }
                }
            }
            let w = monoid.op(&table[q as usize], &v);
            let ghost before = table@;
            table.push(w);
            proof {
                assert forall|fv: spec_fn(nat, nat) -> M::Value, j: int|
                    #![trigger computes_pp(f, fv), table@[j]]
                    computes_pp(f, fv) && 1 <= j < m + 1 implies table@[j] == monoid_fold_rev(
                    *monoid,
                    lpf_factorization(j as nat),
                    fv,
                ) by {
                    if j == m {
                        let fac = lpf_factorization(m as nat);
                        assert(fac.skip(1) =~= lpf_factorization(q as nat));
                        assert(fac[0] == (p as nat, e as nat));
                        assert(v == fv(p as nat, e as nat));
                        assert(before[q as int] == table@[q as int]);
                    } else {
                        assert(table@[j] == before[j]);
                    }
                }
            }
        }
        m = m + 1;
    }
    table
}

} // verus!
