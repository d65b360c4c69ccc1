//! The factorization of an integer read off its least prime factors, and products of functions
//! over the prime powers of a factorization.
use crate::num::divisibility::{
    lemma_divides_multiple, lemma_divides_trans, lemma_lpf, lemma_lpf_is_prime,
    lemma_pow_ge_pow2, lemma_pow_succ, spec_is_prime, spec_lpf,
};
use crate::num::prime::{factor_product, is_factorization};
use vstd::arithmetic::div_mod::*;
use vstd::arithmetic::mul::*;
use vstd::arithmetic::power::pow;
use vstd::prelude::*;

verus! {

/// The number of times `p >= 2` divides `m >= 1`.
pub open spec fn multiplicity(m: nat, p: nat) -> nat
    decreases m,
{
    if p >= 2 && m > 0 && m % p == 0 {
        proof {
            lemma_div_is_strictly_smaller(m as int, p as int);
        }
        1 + multiplicity(m / p, p)
    } else {
        0
    }
}

/// `m = q p^e` with `q` not divisible by `p` determines `e` as the multiplicity of `p` in `m`
/// and `q` as `m / p^e`.
pub proof fn lemma_multiplicity(m: nat, p: nat, q: nat, e: nat)
    requires
        p >= 2,
        q >= 1,
        q % p != 0,
        m == q * pow(p as int, e),
    ensures
        multiplicity(m, p) == e,
        m / (pow(p as int, e) as nat) == q,
        pow(p as int, e) >= 1,
    decreases e,
{
    lemma_pow_ge_pow2(p as int, e);
    lemma_pow_succ(p as int, 0);
    if e == 0 {
        lemma_mul_basics(q as int);
    } else {
        let pe1 = pow(p as int, (e - 1) as nat);
        lemma_pow_succ(p as int, (e - 1) as nat);
        lemma_pow_ge_pow2(p as int, (e - 1) as nat);
        let m1 = q * pe1;
        assert(m == m1 * p) by {
            lemma_mul_is_associative(q as int, pe1, p as int);
            lemma_mul_is_commutative(pe1, p as int);
        }
        lemma_divides_multiple(p, m1 as nat);
        lemma_div_multiples_vanish(m1 as int, p as int);
        lemma_mul_is_commutative(m1 as int, p as int);
        lemma_mul_nonzero(q as int, pe1);
        lemma_multiplicity(m1 as nat, p, q, (e - 1) as nat);
    }
    lemma_div_multiples_vanish(q as int, pow(p as int, e));
    lemma_mul_is_commutative(q as int, pow(p as int, e));
}

/// The factorization of `m` obtained by dividing out least prime factors: `(p, e)` for
/// `p = lpf(m)` and `e` its multiplicity, followed by the factorization of `m / p^e`.
pub open spec fn lpf_factorization(m: nat) -> Seq<(nat, nat)>
    decreases m,
{
    if m < 2 {
        Seq::empty()
    } else {
        let p = spec_lpf(m);
        let e = multiplicity(m, p);
        let k = m / (pow(p as int, e) as nat);
        proof {
            lemma_lpf_facts(m);
        }
        seq![(p, e)] + lpf_factorization(k)
    }
}

/// The facts about the first step of `lpf_factorization(m)`.
pub proof fn lemma_lpf_facts(m: nat)
    requires
        m >= 2,
    ensures
        ({
            let p = spec_lpf(m);
            let e = multiplicity(m, p);
            let k = m / (pow(p as int, e) as nat);
            &&& spec_is_prime(p)
            &&& e >= 1
            &&& k < m
            &&& k >= 1
            &&& k % p != 0
            &&& m == k * pow(p as int, e)
            &&& pow(p as int, e) >= 2
        }),
{
    lemma_lpf(m);
    lemma_lpf_is_prime(m);
    let p = spec_lpf(m);
    // Divide `p` out repeatedly.
    let (q, e) = lemma_divide_out(m, p);
    lemma_multiplicity(m, p, q, e);
    if e == 0 {
        lemma_mul_basics(q as int);
    } else {
        lemma_pow_ge_pow2(p as int, e);
        vstd::arithmetic::power2::lemma2_to64();
        vstd::arithmetic::power2::lemma_pow2_strictly_increases(0, e);
        lemma_mul_strict_inequality(1, pow(p as int, e), q as int);
        lemma_mul_is_commutative(q as int, pow(p as int, e));
    }
    if e == 0 {
        lemma_mul_basics(q as int);
    }
}

/// `m >= 1` is `q p^e` with `p` not dividing `q`, and `e >= 1` when `p` divides `m`.
proof fn lemma_divide_out(m: nat, p: nat) -> (r: (nat, nat))
    requires
        m >= 1,
        p >= 2,
    ensures
        r.0 >= 1,
        r.0 % p != 0,
        m % p == 0 ==> r.1 >= 1,
        m == r.0 * pow(p as int, r.1),
    decreases m,
{
    lemma_pow_succ(p as int, 0);
    if m % p != 0 {
        lemma_mul_basics(m as int);
        (m, 0)
    } else {
        lemma_fundamental_div_mod(m as int, p as int);
        lemma_div_is_strictly_smaller(m as int, p as int);
        let m1 = m / p;
        if m1 == 0 {
            assert(m == p * 0);
        }
        let (q, e) = lemma_divide_out(m1, p);
        lemma_pow_succ(p as int, e);
        lemma_mul_is_associative(q as int, pow(p as int, e), p as int);
        lemma_mul_is_commutative(pow(p as int, e), p as int);
        lemma_mul_is_commutative(p as int, m1 as int);
        (q, e + 1)
    }
}

/// `Π p^e` over a pair followed by a sequence.
pub proof fn lemma_factor_product_prepend(x: (nat, nat), r: Seq<(nat, nat)>)
    ensures
        factor_product(seq![x] + r) == pow(x.0 as int, x.1) * factor_product(r),
    decreases r.len(),
{
    let s = seq![x] + r;
    if r.len() == 0 {
        assert(s.drop_last() =~= Seq::<(nat, nat)>::empty());
        assert(s.last() == x);
        assert(factor_product(s) == factor_product(s.drop_last()) * pow(x.0 as int, x.1));
        lemma_mul_basics(pow(x.0 as int, x.1));
    } else {
        assert(s.drop_last() =~= seq![x] + r.drop_last());
        assert(s.last() == r.last());
        assert(factor_product(s) == factor_product(s.drop_last()) * pow(
            r.last().0 as int,
            r.last().1,
        ));
        assert(factor_product(r) == factor_product(r.drop_last()) * pow(
            r.last().0 as int,
            r.last().1,
        ));
        lemma_factor_product_prepend(x, r.drop_last());
        lemma_mul_is_associative(
            pow(x.0 as int, x.1),
            factor_product(r.drop_last()),
            pow(r.last().0 as int, r.last().1),
        );
    }
}

/// `lpf_factorization(m)` is a factorization of `m >= 1`, whose primes are at least `lpf(m)`.
pub proof fn lemma_lpf_factorization(m: nat)
    requires
        m >= 1,
    ensures
        is_factorization(lpf_factorization(m), m),
        forall|i: int|
            0 <= i < lpf_factorization(m).len() ==> #[trigger] (m
                % lpf_factorization(m)[i].0) == 0,
    decreases m,
{
    if m < 2 {
        assert(factor_product(lpf_factorization(m)) == 1);
    } else {
        lemma_lpf_facts(m);
        let p = spec_lpf(m);
        let e = multiplicity(m, p);
        let k = m / (pow(p as int, e) as nat);
        lemma_lpf_factorization(k);
        let r = lpf_factorization(k);
        let f = lpf_factorization(m);
        assert(f == seq![(p, e)] + r);
        lemma_factor_product_prepend((p, e), r);
        lemma_mul_is_commutative(k as int, pow(p as int, e));
        lemma_divides_multiple(k, pow(p as int, e) as nat);
        assert forall|i: int| 0 <= i < f.len() implies #[trigger] (m % f[i].0) == 0 by {
            if i == 0 {
                lemma_pow_succ(p as int, (e - 1) as nat);
                lemma_pow_ge_pow2(p as int, (e - 1) as nat);
                lemma_divides_multiple(p, pow(p as int, (e - 1) as nat) as nat);
                lemma_mul_is_commutative(k as int, pow(p as int, e));
                lemma_divides_multiple(pow(p as int, e) as nat, k);
                lemma_divides_trans(p, pow(p as int, e) as nat, m);
            } else {
                assert(f[i] == r[i - 1]);
                lemma_divides_trans(r[i - 1].0, k, m);
            }
        }
        assert forall|i: int, j: int| 0 <= i < j < f.len() implies f[i].0 < f[j].0 by {
            if i == 0 {
                let q = r[j - 1].0;
                assert(spec_is_prime(q));
                lemma_divides_trans(q, k, m);
                lemma_lpf(m);
                if q == p {
                    assert(false);
                }
            }
        }
    }
}

/// The product of `g(p, e)` over the pairs `(p, e)` of `f`.
pub open spec fn mult_fold(f: Seq<(nat, nat)>, g: spec_fn(nat, nat) -> int) -> int
    decreases f.len(),
{
    if f.len() == 0 {
        1
    } else {
        mult_fold(f.drop_last(), g) * g(f.last().0, f.last().1)
    }
}

/// The product of `g` over a pair followed by a sequence.
pub proof fn lemma_mult_fold_prepend(x: (nat, nat), r: Seq<(nat, nat)>, g: spec_fn(nat, nat) -> int)
    ensures
        mult_fold(seq![x] + r, g) == g(x.0, x.1) * mult_fold(r, g),
    decreases r.len(),
{
    let s = seq![x] + r;
    if r.len() == 0 {
        assert(s.drop_last() =~= Seq::<(nat, nat)>::empty());
        assert(s.last() == x);
        assert(mult_fold(s, g) == mult_fold(s.drop_last(), g) * g(x.0, x.1));
        lemma_mul_basics(g(x.0, x.1));
    } else {
        assert(s.drop_last() =~= seq![x] + r.drop_last());
        assert(s.last() == r.last());
        assert(mult_fold(s, g) == mult_fold(s.drop_last(), g) * g(r.last().0, r.last().1));
        assert(mult_fold(r, g) == mult_fold(r.drop_last(), g) * g(r.last().0, r.last().1));
        lemma_mult_fold_prepend(x, r.drop_last(), g);
        lemma_mul_is_associative(
            g(x.0, x.1),
            mult_fold(r.drop_last(), g),
            g(r.last().0, r.last().1),
        );
    }
}

} // verus!
