//! Divisibility, primality and least prime factors, as mathematical definitions with the facts
//! about them that the algorithms of this crate rest on.
use vstd::arithmetic::div_mod::*;
use vstd::arithmetic::mul::*;
use vstd::prelude::*;

verus! {

/// `d` divides `n`.
pub open spec fn divides(d: nat, n: nat) -> bool {
    d > 0 && n % d == 0
}

/// `n` is prime: `n >= 2` and no `d` in `[2, n)` divides `n`.
pub open spec fn spec_is_prime(n: nat) -> bool {
    n >= 2 && forall|d: nat| 2 <= d < n ==> #[trigger] (n % d) != 0
}

/// The least `k` in `[d, n]` dividing `n`, for `2 <= d <= n`.
pub open spec fn least_divisor_from(n: nat, d: nat) -> nat
    decreases n - d,
{
    if d >= n {
        n
    } else if n % d == 0 {
        d
    } else {
        least_divisor_from(n, d + 1)
    }
}

/// The least prime factor of `n >= 2`: the least `d >= 2` dividing `n`.
pub open spec fn spec_lpf(n: nat) -> nat {
    least_divisor_from(n, 2)
}

pub proof fn lemma_least_divisor_from(n: nat, d: nat)
    requires
        2 <= d <= n,
    ensures
        d <= least_divisor_from(n, d) <= n,
        n % least_divisor_from(n, d) == 0,
        forall|k: nat| d <= k < least_divisor_from(n, d) ==> #[trigger] (n % k) != 0,
    decreases n - d,
{
    if d >= n {
        lemma_mod_self_0(n as int);
    } else if n % d == 0 {
    } else {
        lemma_least_divisor_from(n, d + 1);
    }
}

/// `lpf(n)` divides `n`, lies in `[2, n]`, and no smaller `d >= 2` divides `n`.
pub proof fn lemma_lpf(n: nat)
    requires
        n >= 2,
    ensures
        2 <= spec_lpf(n) <= n,
        n % spec_lpf(n) == 0,
        forall|k: nat| 2 <= k < spec_lpf(n) ==> #[trigger] (n % k) != 0,
{
    lemma_least_divisor_from(n, 2);
}

/// If `d` divides `m` and `m` divides `n`, then `d` divides `n`.
pub proof fn lemma_divides_trans(d: nat, m: nat, n: nat)
    requires
        d > 0,
        m > 0,
        m % d == 0,
        n % m == 0,
    ensures
        n % d == 0,
{
    lemma_fundamental_div_mod(m as int, d as int);
    lemma_fundamental_div_mod(n as int, m as int);
    let a = m / d;
    let b = n / m;
    assert(n == (d * a) * b);
    lemma_mul_is_associative(d as int, a as int, b as int);
    lemma_mul_is_commutative(d as int, (a * b) as int);
    lemma_mod_multiples_basic((a * b) as int, d as int);
}

/// A multiple of `d` is divisible by `d`.
pub proof fn lemma_divides_multiple(d: nat, k: nat)
    requires
        d > 0,
    ensures
        (d * k) % d == 0,
        (k * d) % d == 0,
{
    lemma_mod_multiples_basic(k as int, d as int);
    lemma_mul_is_commutative(k as int, d as int);
}

/// The least prime factor is prime.
pub proof fn lemma_lpf_is_prime(n: nat)
    requires
        n >= 2,
    ensures
        spec_is_prime(spec_lpf(n)),
{
    lemma_lpf(n);
    let q = spec_lpf(n);
    assert forall|d: nat| 2 <= d < q implies #[trigger] (q % d) != 0 by {
        if q % d == 0 {
            lemma_divides_trans(d, q, n);
        }
    }
}

/// `n >= 2` is prime iff it is its own least prime factor.
pub proof fn lemma_prime_iff_lpf(n: nat)
    requires
        n >= 2,
    ensures
        spec_is_prime(n) <==> spec_lpf(n) == n,
{
    lemma_lpf(n);
    lemma_lpf_is_prime(n);
}

/// A prime `p` is its own least prime factor.
pub proof fn lemma_lpf_of_prime(p: nat)
    requires
        spec_is_prime(p),
    ensures
        spec_lpf(p) == p,
{
    lemma_prime_iff_lpf(p);
}

/// If no `k` in `[2, d)` divides `n >= 2` and `d` divides `n`, then `d = lpf(n)`.
pub proof fn lemma_lpf_unique(n: nat, d: nat)
    requires
        n >= 2,
        2 <= d,
        n % d == 0,
        forall|k: nat| 2 <= k < d ==> #[trigger] (n % k) != 0,
    ensures
        spec_lpf(n) == d,
{
    lemma_lpf(n);
    if d > n {
        lemma_small_mod(n, d);
    }
}

/// For `n = q m` with `q = lpf(n)` and `m >= 2`, `q <= lpf(m)`: a divisor of `m` divides `n`.
pub proof fn lemma_lpf_le_lpf_cofactor(n: nat, m: nat)
    requires
        n >= 2,
        m >= 2,
        n == spec_lpf(n) * m,
    ensures
        spec_lpf(n) <= spec_lpf(m),
        spec_lpf(n) * spec_lpf(n) <= n,
{
    lemma_lpf(n);
    lemma_lpf(m);
    let q = spec_lpf(n);
    let r = spec_lpf(m);
    lemma_divides_multiple(m, q);
    lemma_divides_trans(r, m, n);
    lemma_mul_inequality(q as int, r as int, q as int);
    lemma_mul_inequality(r as int, m as int, q as int);
    lemma_mul_is_commutative(q as int, m as int);
}

/// A composite `n` (not equal to its least prime factor) is at least `lpf(n)^2`.
pub proof fn lemma_composite_lower_bound(n: nat)
    requires
        n >= 2,
        spec_lpf(n) != n,
    ensures
        spec_lpf(n) * spec_lpf(n) <= n,
        n / spec_lpf(n) >= 2,
        n == spec_lpf(n) * (n / spec_lpf(n)),
{
    lemma_lpf(n);
    let q = spec_lpf(n);
    let m = n / q;
    lemma_fundamental_div_mod(n as int, q as int);
    if m < 2 {
        if m == 0 {
            assert(n == q * 0);
        } else {
            assert(n == q * 1);
        }
    }
    lemma_lpf_le_lpf_cofactor(n, m);
}

/// Euclid's lemma for a prime `p` and `0 < a < p`: `p | ab` implies `p | b`.
proof fn lemma_euclid_reduced(a: nat, b: nat, p: nat)
    requires
        spec_is_prime(p),
        0 < a < p,
        (a * b) % p == 0,
    ensures
        b % p == 0,
    decreases a,
{
    if a == 1 {
        lemma_mul_basics(b as int);
    } else {
        let q = p / a;
        let r = p % a;
        lemma_fundamental_div_mod(p as int, a as int);
        assert(p % a != 0);
        lemma_mod_bound(p as int, a as int);
        assert(0 < r < a);
        // r b = p b - q (a b), a combination of multiples of p.
        assert(r * b == p * b - q * (a * b)) by {
            lemma_mul_is_distributive_sub_other_way(b as int, p as int, (q * a) as int);
            lemma_mul_is_associative(q as int, a as int, b as int);
            lemma_mul_is_commutative(a as int, q as int);
        }
        let k = (a * b) / p;
        lemma_fundamental_div_mod((a * b) as int, p as int);
        assert(a * b == p * k);
        assert(q * (a * b) == p * (q * k)) by {
            lemma_mul_is_associative(q as int, p as int, k as int);
            lemma_mul_is_associative(p as int, q as int, k as int);
            lemma_mul_is_commutative(q as int, p as int);
        }
        assert(r * b == p * (b - q * k)) by {
            lemma_mul_is_distributive_sub(p as int, b as int, (q * k) as int);
        }
        lemma_mul_is_commutative(p as int, (b - q * k) as int);
        lemma_mod_multiples_basic((b - q * k) as int, p as int);
        lemma_euclid_reduced(r, b, p);
    }
}

/// Euclid's lemma: a prime dividing a product divides one of the factors.
pub proof fn lemma_euclid(a: nat, b: nat, p: nat)
    requires
        spec_is_prime(p),
        (a * b) % p == 0,
    ensures
        a % p == 0 || b % p == 0,
{
    if a % p != 0 {
        let r = a % p;
        lemma_mod_bound(a as int, p as int);
        lemma_mul_mod_noop_left(a as int, b as int, p as int);
        lemma_euclid_reduced(r, b, p);
    }
}

/// For a prime `p` at most `lpf(i)`, `lpf(i p) = p`.
pub proof fn lemma_lpf_of_product(i: nat, p: nat)
    requires
        i >= 2,
        spec_is_prime(p),
        p <= spec_lpf(i),
    ensures
        spec_lpf(i * p) == p,
        i * p >= 2,
{
    lemma_lpf(i);
    lemma_mul_inequality(2, i as int, p as int);
    lemma_divides_multiple(p, i);
    assert forall|k: nat| 2 <= k < p implies #[trigger] ((i * p) % k) != 0 by {
        if (i * p) % k == 0 {
            lemma_lpf(k);
            let q = spec_lpf(k);
            lemma_lpf_is_prime(k);
            lemma_divides_trans(q, k, i * p);
            lemma_euclid(i, p, q);
            if i % q == 0 {
                assert(false);
            } else {
                assert(p % q == 0);
                assert(false);
            }
        }
    }
    lemma_lpf_unique(i * p, p);
}

} // verus!

verus! {

/// `b^(e+1) = b * b^e`.
pub proof fn lemma_pow_succ(b: int, e: nat)
    ensures
        vstd::arithmetic::power::pow(b, e + 1) == b * vstd::arithmetic::power::pow(b, e),
        vstd::arithmetic::power::pow(b, 0) == 1,
{
    reveal(vstd::arithmetic::power::pow);
}

/// A base of at least `2` gives a power at least the power of two.
pub proof fn lemma_pow_ge_pow2(b: int, e: nat)
    requires
        b >= 2,
    ensures
        vstd::arithmetic::power::pow(b, e) >= vstd::arithmetic::power2::pow2(e),
        vstd::arithmetic::power::pow(b, e) >= 1,
    decreases e,
{
    reveal(vstd::arithmetic::power::pow);
    vstd::arithmetic::power2::lemma_pow2_pos(e);
    if e > 0 {
        vstd::arithmetic::power2::lemma_pow2_unfold(e);
        lemma_pow_ge_pow2(b, (e - 1) as nat);
        lemma_mul_upper_bound(
            2,
            b,
            vstd::arithmetic::power2::pow2((e - 1) as nat) as int,
            vstd::arithmetic::power::pow(b, (e - 1) as nat),
        );
    } else {
        vstd::arithmetic::power2::lemma2_to64();
    }
}

} // verus!
