//! Primality tests, sieves and factorization by trial division.
use crate::num::divisibility::{
    divides, lemma_divides_multiple, lemma_lpf_le_lpf_cofactor, lemma_composite_lower_bound, lemma_divides_trans, lemma_lpf, lemma_lpf_is_prime,
    lemma_lpf_of_product, lemma_lpf_unique, lemma_pow_ge_pow2, lemma_pow_succ, lemma_prime_iff_lpf,
    spec_is_prime, spec_lpf,
};
use vstd::arithmetic::div_mod::*;
use vstd::arithmetic::mul::*;
use vstd::arithmetic::power::pow;
use vstd::prelude::*;

verus! {

/// An odd number has no even divisor.
pub proof fn lemma_odd_no_even_divisor(n: nat, k: nat)
    requires
        n % 2 == 1,
        k > 0,
        k % 2 == 0,
    ensures
        n % k != 0,
{
    if n % k == 0 {
        lemma_divides_trans(2, k, n);
    }
}

/// If no `k` in `[2, d)` divides `n >= 2` and `d * d > n`, then `n` is prime.
pub proof fn lemma_prime_by_trial(n: nat, d: nat)
    requires
        n >= 2,
        d * d > n,
        forall|k: nat| 2 <= k < d ==> #[trigger] (n % k) != 0,
    ensures
        spec_is_prime(n),
{
    lemma_lpf(n);
    let q = spec_lpf(n);
    if q != n {
        lemma_composite_lower_bound(n);
        if q >= d {
            lemma_mul_upper_bound(d as int, q as int, d as int, q as int);
        }
    }
    lemma_prime_iff_lpf(n);
}

/// Returns `true` if `n` is prime, by trial division.
pub fn is_prime(n: u32) -> (b: bool)
    ensures
        b == spec_is_prime(n as nat),
{
    if n < 2 {
        false
    } else if n & 1 == 0 {
        assert(n & 1 == n % 2) by (bit_vector);
        if n != 2 {
            assert(n % 2 == 0);
            assert(!spec_is_prime(n as nat));
        }
        n == 2
    } else {
        assert(n & 1 == n % 2) by (bit_vector);
        let mut d: u32 = 3;
        while d <= n / d
            invariant
                n >= 3,
                n % 2 == 1,
                3 <= d,
                d % 2 == 1,
                d <= 65537,
                forall|k: nat| 2 <= k < d ==> #[trigger] ((n as nat) % k) != 0,
            decreases n as int + 2 - d as int,
        {
            assert(d * (n / d) <= n) by {
                lemma_fundamental_div_mod(n as int, d as int);
            }
            proof {
                if d > 65535 {
                    lemma_mul_inequality(65536, d as int, (n / d) as int);
                    lemma_mul_inequality(65536, (n / d) as int, d as int);
                    lemma_mul_is_commutative(d as int, (n / d) as int);
                }
            }
            if n % d == 0 {
                assert(!spec_is_prime(n as nat)) by {
                    if d >= n {
                        lemma_mul_inequality(2, (n / d) as int, d as int);
                    }
                }
                return false;
            }
            assert forall|k: nat| 2 <= k < d + 2 implies #[trigger] ((n as nat) % k) != 0 by {
                if k == d + 1 {
                    lemma_odd_no_even_divisor(n as nat, k);
                }
            }
            d = d + 2;
        }
        assert((d as nat) * (d as nat) > n) by {
            let q = (n / d) as int;
            lemma_fundamental_div_mod(n as int, d as int);
            lemma_mod_bound(n as int, d as int);
            lemma_mul_inequality(q + 1, d as int, d as int);
            lemma_mul_is_distributive_add_other_way(d as int, q, 1);
            lemma_mul_is_commutative(d as int, q);
        }
        proof {
            lemma_prime_by_trial(n as nat, d as nat);
        }
        true
    }
}

/// The strictly increasing sequence of the primes in `[0, n)`.
pub open spec fn primes_below(s: Seq<usize>, n: nat) -> bool {
    &&& forall|i: int, j: int| 0 <= i < j < s.len() ==> s[i] < s[j]
    &&& forall|i: int| 0 <= i < s.len() ==> spec_is_prime(#[trigger] s[i] as nat) && s[i] < n
    &&& forall|q: nat| q < n && spec_is_prime(q) ==> s.contains(q as usize)
}

/// The sieve of Eratosthenes on `[0, n)`: the primes below `n`, in increasing order.
///
/// `n` is at most half the address space, as the table has `n` entries.
pub(crate) fn eratosthenes(n: usize) -> (ps: Vec<usize>)
    requires
        n < usize::MAX / 2,
    ensures
        primes_below(ps@, n as nat),
{
    let mut is_prime = vec![true; n];
    let mut ps: Vec<usize> = Vec::new();
    let mut p: usize = 2;
    proof {
        assert forall|m: int| 2 <= m < n implies #[trigger] is_prime@[m] == (spec_lpf(m as nat) >= 2) by {
            lemma_lpf(m as nat);
        }
    }
    while p < n
        invariant
            2 <= p,
            n >= 2 ==> p <= n,
            n < 2 ==> ps@.len() == 0,
            n < usize::MAX / 2,
            is_prime.len() == n,
            forall|m: int| p <= m < n ==> #[trigger] is_prime@[m] == (spec_lpf(m as nat) >= p),
            primes_below(ps@, p as nat),
        decreases n - p,
    {
        proof {
            lemma_prime_iff_lpf(p as nat);
            lemma_lpf(p as nat);
        }
        if is_prime[p] {
            let ghost old_ps = ps@;
            ps.push(p);
            if p <= (n - 1) / p {
                proof {
                    lemma_fundamental_div_mod((n - 1) as int, p as int);
                    lemma_mul_inequality(p as int, ((n - 1) as int / p as int), p as int);
                    lemma_mul_is_commutative(p as int, ((n - 1) as int / p as int));
                    lemma_divides_multiple(p as nat, p as nat);
                    lemma_mul_increases(p as int, p as int);
                    assert forall|k: int| p < k < n implies #[trigger] is_prime@[k] == (spec_lpf(
                        k as nat,
                    ) > p || (spec_lpf(k as nat) == p && k >= p * p)) by {
                        lemma_lpf(k as nat);
                        if spec_lpf(k as nat) == p {
                            lemma_composite_lower_bound(k as nat);
                        }
                    }
                }
                let mut m: usize = p * p;
                while m < n
                    invariant
                        2 <= p < n,
                        n < usize::MAX / 2,
                        spec_is_prime(p as nat),
                        is_prime.len() == n,
                        p * p <= m,
                        p <= m,
                        m % p == 0,
                        forall|k: int|
                            p < k < n ==> #[trigger] is_prime@[k] == (spec_lpf(k as nat) > p || (
                            spec_lpf(k as nat) == p && k >= m)),
                    decreases n as int + p as int - m as int,
                {
                    proof {
                        lemma_lpf(m as nat);
                    }
                    is_prime.set(m, false);
                    proof {
                        assert forall|k: int| p < k < n implies #[trigger] is_prime@[k] == (spec_lpf(
                            k as nat,
                        ) > p || (spec_lpf(k as nat) == p && k >= m + p)) by {
                            if spec_lpf(k as nat) == p && m < k < m + p {
                                lemma_lpf(k as nat);
                                lemma_mod_sub_multiples_vanish(k as int, p as int);
                                assert((k - m as int) % (p as int) == 0) by {
                                    lemma_sub_mod_noop(k as int, m as int, p as int);
                                    lemma_small_mod(0, p as nat);
                                }
                                lemma_small_mod((k - m as int) as nat, p as nat);
                            }
                        }
                        lemma_mod_add_multiples_vanish(m as int, p as int);
                    }
                    m = m + p;
                }
                proof {
                    assert forall|k: int| p < k < n implies #[trigger] is_prime@[k] == (spec_lpf(
                        k as nat,
                    ) >= p + 1) by {
                        lemma_lpf(k as nat);
                        if spec_lpf(k as nat) == p {
                            lemma_composite_lower_bound(k as nat);
                        }
                    }
                }
            } else {
                proof {
                    assert forall|k: int| p < k < n implies #[trigger] is_prime@[k] == (spec_lpf(
                        k as nat,
                    ) >= p + 1) by {
                        lemma_lpf(k as nat);
                        if spec_lpf(k as nat) == p {
                            lemma_composite_lower_bound(k as nat);
                            let q = (n - 1) as int / p as int;
                            lemma_fundamental_div_mod((n - 1) as int, p as int);
                            lemma_mod_bound((n - 1) as int, p as int);
                            lemma_mul_inequality(q + 1, p as int, p as int);
                            lemma_mul_is_distributive_add_other_way(p as int, q, 1);
                            lemma_mul_is_commutative(p as int, q);
                        }
                    }
                }
            }
            proof {
                assert forall|q: nat| q < p + 1 && spec_is_prime(q) implies ps@.contains(
                    q as usize,
                ) by {
                    if q < p {
                        assert(old_ps.contains(q as usize));
                        let j = choose|j: int| 0 <= j < old_ps.len() && old_ps[j] == q as usize;
                        assert(ps@[j] == q);
                    } else {
                        assert(ps@[ps@.len() - 1] == p);
                    }
                }
            }
        } else {
            proof {
                assert forall|k: int| p < k < n implies #[trigger] is_prime@[k] == (spec_lpf(
                    k as nat,
                ) >= p + 1) by {
                    lemma_lpf(k as nat);
                    lemma_lpf_is_prime(k as nat);
                }
            }
        }
        p = p + 1;
    }
    proof {

    }
    ps
}

} // verus!

verus! {

/// The primes below `n` in increasing order, by the sieve of Eratosthenes.
pub fn primes(n: usize) -> (ps: Vec<usize>)
    requires
        n < usize::MAX / 2,
    ensures
        primes_below(ps@, n as nat),
{
    eratosthenes(n)
}

/// The least-prime-factor table of `[0, n]`: `s[0] = 0`, `s[1] = 1` and `s[m] = lpf(m)` for
/// `2 <= m <= n`.
pub open spec fn lpf_table(s: Seq<usize>, n: nat) -> bool {
    &&& s.len() == n + 1
    &&& s[0] == 0
    &&& n >= 1 ==> s[1] == 1
    &&& forall|m: int| 2 <= m <= n ==> #[trigger] s[m] == spec_lpf(m as nat)
}

/// Whether the linear sieve has filled in `m` once the cofactors below `i` have been processed and
/// the primes below `i` have been found.
spec fn sieve_done(m: nat, i: nat) -> bool {
    if spec_lpf(m) == m {
        m < i
    } else {
        m / spec_lpf(m) < i
    }
}

/// The linear sieve: for each `i`, sets `lpf(i p) = p` for the primes `p <= lpf(i)`, so every
/// composite `m` is set exactly once, from its cofactor `m / lpf(m)`.
pub(crate) fn linear_sieve(n: usize) -> (s: Vec<usize>)
    requires
        n < usize::MAX / 2,
    ensures
        lpf_table(s@, n as nat),
{
    let mut spf: Vec<usize> = vec![0; n + 1];
    if n >= 1 {
        spf.set(1, 1);
    }
    let mut ps: Vec<usize> = Vec::new();
    let mut i: usize = 2;
    proof {
        assert forall|m: int| 2 <= m <= n implies #[trigger] spf@[m] == if sieve_done(
            m as nat,
            2,
        ) {
            spec_lpf(m as nat)
        } else {
            0
        } by {
            lemma_lpf(m as nat);
            if spec_lpf(m as nat) != m {
                lemma_composite_lower_bound(m as nat);
            }
        }
    }
    while i <= n
        invariant
            2 <= i,
            n >= 1 ==> i <= n + 1,
            n < usize::MAX / 2,
            spf.len() == n + 1,
            spf@[0] == 0,
            n >= 1 ==> spf@[1] == 1,
            forall|m: int|
                2 <= m <= n ==> #[trigger] spf@[m] == if sieve_done(m as nat, i as nat) {
                    spec_lpf(m as nat)
                } else {
                    0
                },
            primes_below(ps@, i as nat),
        decreases n + 1 - i,
    {
        proof {
            lemma_lpf(i as nat);
            lemma_prime_iff_lpf(i as nat);
            if spec_lpf(i as nat) != i {
                lemma_composite_lower_bound(i as nat);
                lemma_div_is_strictly_smaller(i as int, spec_lpf(i as nat) as int);
            }
        }
        let ghost old_ps = ps@;
        if spf[i] == 0 {
            spf.set(i, i);
            ps.push(i);
            proof {
                assert forall|q: nat| q < i + 1 && spec_is_prime(q) implies ps@.contains(
                    q as usize,
                ) by {
                    if q < i {
                        assert(old_ps.contains(q as usize));
                        let j = choose|j: int| 0 <= j < old_ps.len() && old_ps[j] == q as usize;
                        assert(ps@[j] == q);
                    } else {
                        assert(ps@[ps@.len() - 1] == i);
                    }
                }
            }
        } else {
            proof {
                assert forall|q: nat| q < i + 1 && spec_is_prime(q) implies ps@.contains(
                    q as usize,
                ) by {
                    if q == i {
                        lemma_prime_iff_lpf(q);
                    }
                }
            }
        }
        assert(spf@[i as int] == spec_lpf(i as nat));
        let mut k: usize = 0;
        while k < ps.len() && ps[k] <= spf[i] && ps[k] <= n / i
            invariant
                2 <= i <= n,
                n < usize::MAX / 2,
                k <= ps.len(),
                spf.len() == n + 1,
                spf@[0] == 0,
                n >= 1 ==> spf@[1] == 1,
                spf@[i as int] == spec_lpf(i as nat),
                primes_below(ps@, i as nat + 1),
                forall|m: int|
                    2 <= m <= n ==> #[trigger] spf@[m] == if ({
                        let q = spec_lpf(m as nat) as int;
                        if q == m {
                            m <= i
                        } else {
                            m / q < i || (m / q == i && k > 0 && q <= ps@[k - 1])
                        }
                    }) {
                        spec_lpf(m as nat)
                    } else {
                        0
                    },
            decreases ps.len() - k,
        {
            let p = ps[k];
            proof {
                lemma_fundamental_div_mod(n as int, i as int);
                lemma_mul_inequality(p as int, (n / i) as int, i as int);
                lemma_mul_is_commutative(p as int, i as int);
                lemma_mul_is_commutative((n / i) as int, i as int);
                lemma_lpf_of_product(i as nat, p as nat);
                lemma_divides_multiple(p as nat, i as nat);
            }
            let m0 = i * p;
            assert(m0 / p == i) by {
                lemma_div_multiples_vanish(i as int, p as int);
                lemma_mul_is_commutative(i as int, p as int);
            }
            spf.set(m0, p);
            proof {
                assert forall|m: int| 2 <= m <= n implies #[trigger] spf@[m] == if ({
                    let q = spec_lpf(m as nat) as int;
                    if q == m {
                        m <= i
                    } else {
                        m / q < i || (m / q == i && k + 1 > 0 && q <= ps@[k as int])
                    }
                }) {
                    spec_lpf(m as nat)
                } else {
                    0
                } by {
                    let q = spec_lpf(m as nat) as int;
                    if m != m0 && q != m && m / q == i && q <= ps@[k as int] && !(k > 0 && q
                        <= ps@[k - 1]) {
                        lemma_lpf_is_prime(m as nat);
                        lemma_composite_lower_bound(m as nat);
                        assert(ps@.contains(q as usize)) by {
                            lemma_lpf_le_lpf_cofactor(m as nat, i as nat);
                            lemma_lpf(i as nat);
                        }
                        let j = choose|j: int| 0 <= j < ps@.len() && ps@[j] == q as usize;
                        if j < k {
                            assert(ps@[j] <= ps@[k - 1]);
                        }
                        if j > k {
                            assert(ps@[k as int] < ps@[j]);
                        }
                        assert(m == q * i);
                    }
                }
            }
            k = k + 1;
        }
        proof {
            assert forall|m: int| 2 <= m <= n implies #[trigger] spf@[m] == if sieve_done(
                m as nat,
                i as nat + 1,
            ) {
                spec_lpf(m as nat)
            } else {
                0
            } by {
                let q = spec_lpf(m as nat) as int;
                if q != m && m / q == i {
                    lemma_lpf(m as nat);
                    lemma_lpf_is_prime(m as nat);
                    lemma_composite_lower_bound(m as nat);
                    lemma_lpf_le_lpf_cofactor(m as nat, i as nat);
                    lemma_lpf(i as nat);
                    assert(ps@.contains(q as usize));
                    let j = choose|j: int| 0 <= j < ps@.len() && ps@[j] == q as usize;
                    if k < ps@.len() && j >= k {
                        assert(ps@[k as int] <= ps@[j]);
                        if ps@[k as int] > spf@[i as int] {
                        } else {
                            lemma_fundamental_div_mod(n as int, i as int);
                            lemma_mod_bound(n as int, i as int);
                            lemma_mul_inequality((n / i + 1) as int, q, i as int);
                            lemma_mul_is_distributive_add_other_way(i as int, (n / i) as int, 1);
                            lemma_mul_is_commutative(i as int, (n / i) as int);
                            lemma_mul_is_commutative(i as int, q);
                        }
                    }
                    assert(k > 0 && q <= ps@[k - 1]);
                }
            }
        }
        i = i + 1;
    }
    spf
}

/// The smallest prime factor of every integer in `[0, n]` by the linear sieve; `spf[0] = 0` and
/// `spf[1] = 1`.
pub fn spf(n: usize) -> (s: Vec<usize>)
    requires
        n < usize::MAX / 2,
    ensures
        lpf_table(s@, n as nat),
{
    linear_sieve(n)
}

} // verus!

verus! {

/// The product `Π p^e` over the pairs `(p, e)` of `f`.
pub open spec fn factor_product(f: Seq<(nat, nat)>) -> int
    decreases f.len(),
{
    if f.len() == 0 {
        1
    } else {
        factor_product(f.drop_last()) * pow(f.last().0 as int, f.last().1)
    }
}

/// `f` is the prime factorization of `n`: its pairs `(p, e)` have `p` prime and `e >= 1`, in
/// strictly increasing order of `p`, and `n = Π p^e`.
pub open spec fn is_factorization(f: Seq<(nat, nat)>, n: nat) -> bool {
    &&& forall|i: int| 0 <= i < f.len() ==> spec_is_prime(#[trigger] f[i].0) && f[i].1 >= 1
    &&& forall|i: int, j: int| 0 <= i < j < f.len() ==> f[i].0 < f[j].0
    &&& factor_product(f) == n
}

/// The pairs of a factorization read as natural numbers.
pub open spec fn factors_view_u64(f: Seq<(u64, u32)>) -> Seq<(nat, nat)> {
    f.map_values(|x: (u64, u32)| (x.0 as nat, x.1 as nat))
}

/// Divides `p` out of `n` as often as it divides, returning the quotient and the count.
pub(crate) fn divide_out(n: u64, p: u64) -> (r: (u64, u32))
    requires
        n >= 1,
        p >= 2,
    ensures
        r.0 >= 1,
        r.0 % p != 0,
        n % p == 0 ==> r.1 >= 1,
        n == r.0 * pow(p as int, r.1 as nat),
{
    let mut m = n;
    let mut e: u32 = 0;
    proof {
        lemma_pow_succ(p as int, 0);
    }
    while m % p == 0
        invariant
            m >= 1,
            p >= 2,
            e < 64,
            e == 0 ==> m == n,
            n == m * pow(p as int, e as nat),
        decreases m,
    {
        proof {
            lemma_div_is_strictly_smaller(m as int, p as int);
        }
        proof {
            lemma_fundamental_div_mod(m as int, p as int);
            lemma_pow_succ(p as int, e as nat);
            let q = (m / p) as int;
            assert(m == p * q);
            lemma_mul_is_associative(q, p as int, pow(p as int, e as nat));
            lemma_mul_is_commutative(q, p as int);
            lemma_pow_ge_pow2(p as int, e as nat + 1);
            if q == 0 {
                assert(m == 0);
            }
            lemma_mul_increases(q, pow(p as int, e as nat + 1));
            if e + 1 >= 64 {
                vstd::arithmetic::power2::lemma2_to64_rest();
                if e + 1 > 64 {
                    vstd::arithmetic::power2::lemma_pow2_strictly_increases(64, e as nat + 1);
                }
            }
        }
        m = m / p;
        e = e + 1;
    }
    (m, e)
}

/// The prime factorization of `n >= 1` by trial division, in increasing order of the primes.
pub fn factorize(n: u64) -> (f: Vec<(u64, u32)>)
    requires
        n >= 1,
    ensures
        is_factorization(factors_view_u64(f@), n as nat),
{
    let mut m = n;
    let mut factors: Vec<(u64, u32)> = Vec::new();
    let mut p: u64 = 2;
    while p <= m / p
        invariant
            m >= 1,
            2 <= p <= 0x1_0000_0001,
            p == 2 || p % 2 == 1,
            p >= 3 ==> m % 2 == 1,
            forall|k: nat| 2 <= k < p ==> #[trigger] ((m as nat) % k) != 0,
            forall|i: int|
                0 <= i < factors@.len() ==> spec_is_prime(#[trigger] factors@[i].0 as nat)
                    && factors@[i].1 >= 1 && factors@[i].0 < p,
            forall|i: int, j: int| 0 <= i < j < factors@.len() ==> factors@[i].0 < factors@[j].0,
            n == factor_product(factors_view_u64(factors@)) * m,
        decreases 0x1_0000_0002 - p,
    {
        proof {
            lemma_fundamental_div_mod(m as int, p as int);
            if p > 0x1_0000_0000 {
                lemma_mul_inequality(0x1_0000_0001, p as int, (m / p) as int);
                lemma_mul_inequality(0x1_0000_0001, (m / p) as int, p as int);
                lemma_mul_is_commutative(p as int, (m / p) as int);
            }
        }
        if m % p == 0 {
            proof {
                assert forall|d: nat| 2 <= d < p implies #[trigger] ((p as nat) % d) != 0 by {
                    if (p as nat) % d == 0 {
                        lemma_divides_trans(d, p as nat, m as nat);
                    }
                }
            }
            let ghost old_f = factors@;
            let ghost old_m = m;
            let (q, e) = divide_out(m, p);
            m = q;
            factors.push((p, e));
            proof {
                let v = factors_view_u64(factors@);
                assert(v.drop_last() =~= factors_view_u64(old_f));
                lemma_mul_is_associative(
                    factor_product(factors_view_u64(old_f)),
                    pow(p as int, e as nat),
                    m as int,
                );
                lemma_mul_is_commutative(m as int, pow(p as int, e as nat));
                assert forall|k: nat| 2 <= k < p + 1 implies #[trigger] ((m as nat) % k) != 0 by {
                    if k < p && (m as nat) % k == 0 {
                        lemma_divides_multiple(m as nat, pow(p as int, e as nat) as nat);
                        lemma_pow_ge_pow2(p as int, e as nat);
                        lemma_divides_trans(k, m as nat, old_m as nat);
                    }
                }
                if p >= 3 {
                    if m % 2 == 0 {
                        lemma_divides_multiple(m as nat, pow(p as int, e as nat) as nat);
                        lemma_pow_ge_pow2(p as int, e as nat);
                        lemma_divides_trans(2, m as nat, old_m as nat);
                    }
                }
            }
        }
        proof {
            if p == 2 {
                assert(m % 2 == 1) by {
                    lemma_mod_bound(m as int, 2);
                }
            } else {
                assert forall|k: nat| 2 <= k < p + 2 implies #[trigger] ((m as nat) % k) != 0 by {
                    if k == p + 1 {
                        lemma_odd_no_even_divisor(m as nat, k);
                    }
                }
            }
        }
        p = p + if p == 2 {
            1
        } else {
            2
        };
    }
    assert((p as nat) * (p as nat) > m) by {
        let q = (m / p) as int;
        lemma_fundamental_div_mod(m as int, p as int);
        lemma_mod_bound(m as int, p as int);
        lemma_mul_inequality(q + 1, p as int, p as int);
        lemma_mul_is_distributive_add_other_way(p as int, q, 1);
        lemma_mul_is_commutative(p as int, q);
    }
    if m > 1 {
        let ghost old_f = factors@;
        proof {
            lemma_prime_by_trial(m as nat, p as nat);
            lemma_lpf(m as nat);
            if m < p {
                lemma_mod_self_0(m as int);
            }
        }
        factors.push((m, 1));
        proof {
            let v = factors_view_u64(factors@);
            assert(v.drop_last() =~= factors_view_u64(old_f));
            lemma_pow_succ(m as int, 0);
            vstd::arithmetic::power::lemma_pow1(m as int);
        }
    } else {
        proof {
            lemma_mul_basics(factor_product(factors_view_u64(factors@)));
        }
    }
    factors
}

} // verus!
