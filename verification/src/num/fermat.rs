//! Binomial coefficients, the binomial theorem and Fermat's little theorem.
use crate::num::divisibility::{lemma_euclid, spec_is_prime};
use vstd::arithmetic::div_mod::*;
use vstd::arithmetic::mul::*;
use vstd::arithmetic::power::*;
use vstd::prelude::*;

verus! {

/// The binomial coefficient `C(n, k)`, by Pascal's rule.
pub open spec fn binom(n: nat, k: nat) -> nat
    decreases n,
{
    if k == 0 {
        1
    } else if n == 0 {
        0
    } else {
        binom((n - 1) as nat, (k - 1) as nat) + binom((n - 1) as nat, k)
    }
}

/// `C(n, k) = 0` for `k > n`.
pub proof fn lemma_binom_zero(n: nat, k: nat)
    requires
        k > n,
    ensures
        binom(n, k) == 0,
    decreases n,
{
    if n > 0 {
        lemma_binom_zero((n - 1) as nat, (k - 1) as nat);
        lemma_binom_zero((n - 1) as nat, k);
    }
}

/// `C(n, n) = 1`.
pub proof fn lemma_binom_diag(n: nat)
    ensures
        binom(n, n) == 1,
    decreases n,
{
    if n > 0 {
        lemma_binom_diag((n - 1) as nat);
        lemma_binom_zero((n - 1) as nat, n);
    }
}

/// The absorption identity `k C(n, k) = n C(n - 1, k - 1)`.
pub proof fn lemma_binom_absorb(n: nat, k: nat)
    requires
        n >= 1,
        k >= 1,
    ensures
        k * binom(n, k) == n * binom((n - 1) as nat, (k - 1) as nat),
    decreases n,
{
    let a = binom((n - 1) as nat, (k - 1) as nat);
    let b = binom((n - 1) as nat, k);
    if n == 1 {
        if k > 1 {
            lemma_binom_zero(1, k);
            lemma_binom_zero(0, (k - 1) as nat);
        }
    } else {
        // k C(n-1, k) = (n-1) C(n-2, k-1)
        lemma_binom_absorb((n - 1) as nat, k);
        let c = binom((n - 2) as nat, (k - 1) as nat);
        if k == 1 {
            assert(a == 1);
            assert(k * (a + b) == n * a) by (nonlinear_arith)
                requires
                    k == 1,
                    a == 1,
                    k * b == (n - 1) * c,
                    c == 1,
            ;
        } else {
            // (k-1) C(n-1, k-1) = (n-1) C(n-2, k-2)
            lemma_binom_absorb((n - 1) as nat, (k - 1) as nat);
            let d = binom((n - 2) as nat, (k - 2) as nat);
            assert(a == d + c);
            assert(k * (a + b) == n * a) by (nonlinear_arith)
                requires
                    k * b == (n - 1) * c,
                    (k - 1) * a == (n - 1) * d,
                    a == d + c,
            ;
        }
    }
}

/// A prime `p` divides `C(p, k)` for `0 < k < p`.
pub proof fn lemma_prime_divides_binom(p: nat, k: nat)
    requires
        spec_is_prime(p),
        0 < k < p,
    ensures
        binom(p, k) % p == 0,
{
    lemma_binom_absorb(p, k);
    let c = binom((p - 1) as nat, (k - 1) as nat);
    lemma_mod_multiples_basic(c as int, p as int);
    lemma_mul_is_commutative(p as int, c as int);
    lemma_euclid(k, binom(p, k), p);
    lemma_small_mod(k, p);
}

/// The partial sum `Σ_{k < m} C(n, k) a^k`.
pub open spec fn binom_sum(n: nat, a: int, m: nat) -> int
    decreases m,
{
    if m == 0 {
        0
    } else {
        binom_sum(n, a, (m - 1) as nat) + binom(n, (m - 1) as nat) * pow(a, (m - 1) as nat)
    }
}

proof fn lemma_binom_sum_one(n: nat, a: int)
    ensures
        binom_sum(n, a, 1) == 1,
{
    reveal(pow);
    assert(binom_sum(n, a, 0) == 0);
    assert(binom(n, 0) == 1);
    assert(pow(a, 0) == 1);
}

/// Pascal's rule on the partial sums: `S(n + 1, m + 1) = S(n, m + 1) + a S(n, m)`.
proof fn lemma_binom_sum_step(n: nat, a: int, m: nat)
    ensures
        binom_sum(n + 1, a, m + 1) == binom_sum(n, a, m + 1) + a * binom_sum(n, a, m),
    decreases m,
{
    reveal(pow);
    if m == 0 {
        lemma_binom_sum_one(n + 1, a);
        lemma_binom_sum_one(n, a);
        lemma_mul_basics(a);
    } else {
        let m1 = (m - 1) as nat;
        lemma_binom_sum_step(n, a, m1);
        // S(n+1, m+1) = S(n+1, m) + C(n+1, m) a^m = S(n, m) + a S(n, m-1) + (C(n, m-1) + C(n, m)) a^m
        let x = pow(a, m1);
        assert(pow(a, m) == a * x);
        let s0 = binom_sum(n, a, m1);
        let c0 = binom(n, m1);
        let c1 = binom(n, m);
        assert(binom(n + 1, m) == c0 + c1);
        assert(binom_sum(n, a, m) == s0 + c0 * x);
        assert(binom_sum(n, a, m + 1) == s0 + c0 * x + c1 * (a * x));
        assert(binom_sum(n + 1, a, m + 1) == binom_sum(n + 1, a, m) + (c0 + c1) * (a * x));
        assert((c0 + c1) * (a * x) == c0 * (a * x) + c1 * (a * x)) by (nonlinear_arith);
        assert(a * (s0 + c0 * x) == a * s0 + c0 * (a * x)) by (nonlinear_arith);
    }
}

/// The binomial theorem: `(a + 1)^n = Σ_{k <= n} C(n, k) a^k`.
pub proof fn lemma_binomial_theorem(n: nat, a: int)
    ensures
        pow(a + 1, n) == binom_sum(n, a, n + 1),
    decreases n,
{
    reveal(pow);
    if n == 0 {
        lemma_binom_sum_one(0, a);
    } else {
        let n1 = (n - 1) as nat;
        lemma_binomial_theorem(n1, a);
        lemma_binom_sum_step(n1, a, n);
        lemma_binom_zero(n1, n);
        assert(binom_sum(n1, a, n + 1) == binom_sum(n1, a, n));
        let b = binom_sum(n1, a, n);
        assert(pow(a + 1, n) == (a + 1) * pow(a + 1, n1));
        assert((a + 1) * b == b + a * b) by (nonlinear_arith);
    }
}

/// Modulo a prime `p`, the inner terms of `Σ_{k < m} C(p, k) a^k` vanish for `1 <= m <= p`.
proof fn lemma_binom_sum_mod(p: nat, a: int, m: nat)
    requires
        spec_is_prime(p),
        1 <= m <= p,
    ensures
        binom_sum(p, a, m) % (p as int) == 1,
    decreases m,
{
    reveal(pow);
    if m == 1 {
        lemma_binom_sum_one(p, a);
        lemma_small_mod(1, p);
    } else {
        let m1 = (m - 1) as nat;
        lemma_binom_sum_mod(p, a, m1);
        lemma_prime_divides_binom(p, m1);
        let c = binom(p, m1);
        let q = c / p;
        lemma_fundamental_div_mod(c as int, p as int);
        let x = pow(a, m1);
        assert(c * x == p * (q * x)) by (nonlinear_arith)
            requires
                c == p * q,
        ;
        lemma_mod_multiples_vanish(q * x, binom_sum(p, a, m1), p as int);
    }
}

/// The freshman's dream modulo a prime: `(a + 1)^p ≡ a^p + 1 (mod p)`.
pub proof fn lemma_freshman(p: nat, a: int)
    requires
        spec_is_prime(p),
    ensures
        pow(a + 1, p) % (p as int) == (pow(a, p) + 1) % (p as int),
{
    lemma_binomial_theorem(p, a);
    lemma_binom_sum_mod(p, a, p);
    lemma_binom_diag(p);
    assert(binom_sum(p, a, p + 1) == binom_sum(p, a, p) + pow(a, p));
    lemma_add_mod_noop(binom_sum(p, a, p), pow(a, p), p as int);
    lemma_add_mod_noop(1, pow(a, p), p as int);
    lemma_small_mod(1, p);
}

/// Fermat's little theorem: `a^p ≡ a (mod p)` for a prime `p` and `a >= 0`.
pub proof fn lemma_fermat(p: nat, a: nat)
    requires
        spec_is_prime(p),
    ensures
        pow(a as int, p) % (p as int) == (a as int) % (p as int),
    decreases a,
{
    if a == 0 {
        lemma_pow0(0);
        lemma_pow_positive_zero(p);
    } else {
        let b = (a - 1) as nat;
        lemma_fermat(p, b);
        lemma_freshman(p, b as int);
        lemma_add_mod_noop(pow(b as int, p), 1, p as int);
        lemma_add_mod_noop(b as int, 1, p as int);
    }
}

/// `0^p = 0` for `p >= 1`.
proof fn lemma_pow_positive_zero(p: nat)
    requires
        p >= 1,
    ensures
        pow(0, p) == 0,
{
    reveal(pow);
    lemma_mul_basics(pow(0, (p - 1) as nat));
}

/// Fermat's little theorem for units: `a^{p-1} ≡ 1 (mod p)` for a prime `p` not dividing `a`, so
/// that `a^{p-2}` is the inverse of `a`.
pub proof fn lemma_fermat_inverse(p: nat, a: nat)
    requires
        spec_is_prime(p),
        a % p != 0,
    ensures
        (a * (pow(a as int, (p - 2) as nat) % (p as int))) % (p as int) == 1,
{
    lemma_fermat(p, a);
    let x = pow(a as int, (p - 2) as nat);
    let pi = p as int;
    assert(a >= 1) by {
        if a == 0 {
            lemma_small_mod(0, p);
        }
    }
    lemma_pow_positive(a as int, (p - 2) as nat);
    lemma_pow_adds(a as int, 2, (p - 2) as nat);
    lemma_square_is_pow2(a as int);
    let y = a * x;
    assert(pow(a as int, p) == a * y) by {
        lemma_mul_is_associative(a as int, a as int, x);
    }
    assert(y >= 1) by (nonlinear_arith)
        requires
            a >= 1,
            x >= 1,
            y == a * x,
    ;
    lemma_sub_mod_noop(a * y, a as int, pi);
    lemma_mod_self_0(pi);
    let z = (y - 1) as nat;
    assert(a * y - a == a * z) by (nonlinear_arith)
        requires
            z == y - 1,
    ;
    assert((a as int) % pi - (a as int) % pi == 0);
    lemma_small_mod(0, p);
    assert((a * z) % p == 0);
    lemma_euclid(a, z, p);
    lemma_add_mod_noop(z as int, 1, pi);
    lemma_small_mod(1, p);
    lemma_mul_mod_noop_right(a as int, x, pi);
}

} // verus!
