//! The least prime factor of every integer up to a bound, by the linear sieve.
use crate::linear::{entry, lemma_index, lemma_position};
use crate::num::divisibility::{
    divides, lemma_divides_multiple, lemma_divides_trans, lemma_euclid, lemma_lpf,
    lemma_lpf_is_prime, lemma_pow_ge_pow2, lemma_pow_succ, lemma_prime_iff_lpf, spec_is_prime,
    spec_lpf,
};
use crate::num::factorization::{
    lemma_lpf_facts, lemma_lpf_factorization, lemma_multiplicity, lpf_factorization,
    multiplicity,
};
use crate::num::prime::{
    divide_out, factor_product, is_factorization, linear_sieve, lpf_table, primes_below,
};
use vstd::arithmetic::div_mod::*;
use vstd::arithmetic::mul::*;
use vstd::arithmetic::power::pow;
use vstd::prelude::*;

verus! {

/// The pairs of a factorization read as natural numbers.
pub open spec fn factors_view(f: Seq<(usize, u32)>) -> Seq<(nat, nat)> {
    f.map_values(|x: (usize, u32)| (x.0 as nat, x.1 as nat))
}

/// The least prime factor of every integer in `[0, n]`.
///
/// `value[m]` is `lpf(m)` for `2 <= m <= n`, `value[0] = 0` and `value[1] = 1`.
pub struct Lpf {
    value: Vec<u32>,
}

impl Lpf {
    #[verifier::type_invariant]
    spec fn wf(self) -> bool {
        &&& 1 <= self.value.len() <= 0x1_0000_0000
        &&& self.value@[0] == 0
        &&& self.value.len() > 1 ==> self.value@[1] == 1
        &&& forall|m: int| 2 <= m < self.value.len() ==> #[trigger] self.value@[m] == spec_lpf(m as nat)
    }

    /// The largest `m` the table answers for.
    pub closed spec fn spec_bound(self) -> nat {
        (self.value.len() - 1) as nat
    }

    /// Constructs the table for `[0, n]`.
    pub fn new(n: usize) -> (t: Self)
        requires
            n < 0x1_0000_0000,
            n < usize::MAX / 2,
        ensures
            t.spec_bound() == n,
    {
        let s = linear_sieve(n);
        let mut value: Vec<u32> = Vec::with_capacity(n + 1);
        let mut i: usize = 0;
        while i <= n
            invariant
                i <= n + 1,
                n < 0x1_0000_0000,
                n < usize::MAX / 2,
                lpf_table(s@, n as nat),
                value.len() == i,
                forall|m: int| 0 <= m < i ==> #[trigger] value@[m] == s@[m],
            decreases n + 1 - i,
        {
            proof {
                if i >= 2 {
                    lemma_lpf(i as nat);
                }
            }
            value.push(s[i] as u32);
            i = i + 1;
        }
        Lpf { value }
    }

    /// The largest `m` the table answers for.
    pub fn bound(&self) -> (b: usize)
        ensures
            b == self.spec_bound(),
    {
        proof {
            use_type_invariant(self);
        }
        self.value.len() - 1
    }

    /// The least prime dividing `m`.
    pub fn lpf(&self, m: usize) -> (p: usize)
        requires
            2 <= m <= self.spec_bound(),
        ensures
            p == spec_lpf(m as nat),
    {
        proof {
            use_type_invariant(self);
        }
        self.value[m] as usize
    }

    /// Whether `m` is prime: `m` is prime iff `lpf(m) = m`; `0` and `1` are not prime.
    pub fn is_prime(&self, m: usize) -> (b: bool)
        requires
            m <= self.spec_bound(),
        ensures
            b == spec_is_prime(m as nat),
    {
        proof {
            use_type_invariant(self);
            if m >= 2 {
                lemma_prime_iff_lpf(m as nat);
            }
        }
        m >= 2 && self.value[m] as usize == m
    }

    /// The prime factorization of `m`, in increasing order of the prime, as the pairs `(p, e)`.
    pub fn prime_factors(&self, m: usize) -> (f: Vec<(usize, u32)>)
        requires
            1 <= m <= self.spec_bound(),
        ensures
            factors_view(f@) == lpf_factorization(m as nat),
            is_factorization(factors_view(f@), m as nat),
    {
        proof {
            use_type_invariant(self);
            lemma_lpf_factorization(m as nat);
        }
        let mut factors: Vec<(usize, u32)> = Vec::new();
        let mut cur = m;
        while cur != 1
            invariant
                1 <= cur <= m <= self.spec_bound(),
                self.wf(),
                factors_view(factors@) + lpf_factorization(cur as nat) == lpf_factorization(
                    m as nat,
                ),
            decreases cur,
        {
            proof {
                lemma_lpf_facts(cur as nat);
                lemma_lpf(cur as nat);
            }
            let p = self.value[cur] as usize;
            let (q, e) = divide_out(cur as u64, p as u64);
            proof {
                lemma_multiplicity(cur as nat, p as nat, q as nat, e as nat);
                let v = factors_view(factors@);
                let w = factors_view(factors@.push((p, e)));
                assert(w =~= v.push((p as nat, e as nat)));
                assert(lpf_factorization(cur as nat) == seq![(p as nat, e as nat)]
                    + lpf_factorization(q as nat));
                assert(w + lpf_factorization(q as nat) =~= v + lpf_factorization(cur as nat));
            }
            factors.push((p, e));
            cur = q as usize;
        }
        proof {
            assert(lpf_factorization(1) =~= Seq::<(nat, nat)>::empty());
            assert(factors_view(factors@) + Seq::<(nat, nat)>::empty() =~= factors_view(
                factors@,
            ));
        }
        factors
    }

    /// The prime factorization of `m`, collected.
    pub fn factorize(&self, m: usize) -> (f: Vec<(usize, u32)>)
        requires
            1 <= m <= self.spec_bound(),
        ensures
            factors_view(f@) == lpf_factorization(m as nat),
            is_factorization(factors_view(f@), m as nat),
    {
        self.prime_factors(m)
    }

    /// The primes in `[2, bound()]` in increasing order.
    pub fn primes(&self) -> (ps: Vec<usize>)
        ensures
            primes_below(ps@, self.spec_bound() + 1),
    {
        proof {
            use_type_invariant(self);
        }
        let n = self.value.len() - 1;
        let mut ps: Vec<usize> = Vec::new();
        let mut i: usize = 2;
        while i <= n
            invariant
                2 <= i,
                n >= 1 ==> i <= n + 1,
                n < 2 ==> ps@.len() == 0,
                n == self.spec_bound(),
                self.wf(),
                primes_below(ps@, i as nat),
            decreases n + 1 - i,
        {
            proof {
                lemma_prime_iff_lpf(i as nat);
            }
            let ghost old_ps = ps@;
            if self.value[i] as usize == i {
                ps.push(i);
                proof {
                    assert forall|q: nat| q < i + 1 && spec_is_prime(q) implies ps@.contains(
                        q as usize,
                    ) by {
                        if q < i {
                            assert(old_ps.contains(q as usize));
                            let j = choose|j: int| 0 <= j < old_ps.len() && old_ps[j] == q as usize;
                            assert(ps@[j] == q);
                        } else {
                            assert(ps@[ps@.len() - 1] == i);
                        }
                    }
                }
            }
            i = i + 1;
        }
        ps
    }

    /// The divisors of `m`, each once: starting from `1`, for each prime power `p^e` of the
    /// factorization of `m` in turn, the list so far is followed by its multiples by `p, p^2, ...,
    /// p^e`.
    pub fn divisors(&self, m: usize) -> (ds: Vec<usize>)
        requires
            1 <= m <= self.spec_bound(),
        ensures
            divisor_list(ds@, m as nat),
    {
        let f = self.prime_factors(m);
        let ghost fv = factors_view(f@);
        let mut ds: Vec<usize> = vec![1];
        proof {
            assert(fv.take(0) =~= Seq::<(nat, nat)>::empty());
            assert forall|d: nat| #[trigger] divides(d, 1) implies exists|k: int| 0 <= k < ds@.len() && ds@[k] as nat == d by {
                lemma_divisor_le(d, 1);
                assert(ds@[0] as nat == d);
            }
            lemma_divides_multiple(1, 1);
        }
        let mut t: usize = 0;
        while t < f.len()
            invariant
                fv == factors_view(f@),
                is_factorization(fv, m as nat),
                1 <= m,
                t <= f.len(),
                divisor_list(ds@, factor_product(fv.take(t as int)) as nat),
            decreases f.len() - t,
        {
            let (p, e) = f[t];
            let ghost pn = p as nat;
            let ghost en = e as nat;
            let ghost n = factor_product(fv.take(t as int)) as nat;
            proof {
                assert(fv[t as int] == (pn, en));
                assert(spec_is_prime(fv[t as int].0));
                assert forall|i: int| 0 <= i < fv.take(t as int).len() implies spec_is_prime(#[trigger] fv.take(t as int)[i].0)
                    && fv.take(t as int)[i].0 != pn by {
                    assert(fv.take(t as int)[i] == fv[i]);
                    assert(spec_is_prime(fv[i].0));
                }
                lemma_prime_not_divides_product(fv.take(t as int), pn);
                assert(fv.take(t + 1) =~= fv.take(t as int).push((pn, en)));
                assert(fv.take(t + 1).drop_last() =~= fv.take(t as int));
                lemma_pp(pn, en);
                assert(factor_product(fv.take(t + 1)) == n * pp(pn, en));
                assert(fv =~= fv.take(t + 1) + fv.skip(t + 1));
                lemma_factor_product_append(fv.take(t + 1), fv.skip(t + 1));
                let r = fv.skip(t + 1);
                assert forall|i: int| 0 <= i < r.len() implies spec_is_prime(#[trigger] r[i].0) && r[i].0 != 0 by {
                    assert(r[i] == fv[t + 1 + i]);
                    assert(spec_is_prime(fv[t + 1 + i].0));
                }
                lemma_factor_product_positive(r);
                assert(n * pp(pn, en) > 0) by (nonlinear_arith)
                    requires
                        n >= 1,
                        pp(pn, en) >= 1,
                ;
                lemma_divides_multiple(n * pp(pn, en), factor_product(r) as nat);
            }
            let len = ds.len();
            let ghost old = ds@;
            let mut q: usize = 1;
            let mut c: u32 = 0;
            proof {
                assert forall|cc: int, i: int| 0 <= cc <= c && 0 <= i < len implies #[trigger] entry(ds@, len as int, cc, i)
                    as int == (old[i] as nat) * pp(pn, cc as nat) by {
                    lemma_pp(pn, 0);
                    assert(cc * len == 0) by (nonlinear_arith)
                        requires
                            cc == 0,
                    ;
                    assert(entry(ds@, len as int, cc, i) == ds@[i]);
                    assert(pp(pn, cc as nat) == 1);
                    assert(ds@[i] == old[i]);
                    assert((old[i] as nat) * 1 == old[i] as nat);
                }
            }
            while c < e
                invariant
                    1 <= m,
                    spec_is_prime(pn),
                    pn == p,
                    en == e,
                    n >= 1,
                    n % pn != 0,
                    divisor_list(old, n),
                    divides(n * pp(pn, en), m as nat),
                    len == old.len(),
                    c <= e,
                    q == pp(pn, c as nat),
                    ds@.len() == (c + 1) * len,
                    forall|cc: int, i: int|
                        0 <= cc <= c && 0 <= i < len ==> #[trigger] entry(ds@, len as int, cc, i) as int == (
                        old[i] as nat) * pp(pn, cc as nat),
                decreases e - c,
            {
                proof {
                    lemma_pp(pn, c as nat);
                    lemma_pp(pn, (c + 1) as nat);
                    lemma_pp(pn, en);
                    lemma_pp_adds(pn, (c + 1) as nat, (en - c - 1) as nat);
                    lemma_divides_multiple(pp(pn, (c + 1) as nat), pp(pn, (en - c - 1) as nat));
                    assert(divides(pp(pn, en), n * pp(pn, en))) by {
                        lemma_divides_multiple(pp(pn, en), n);
                        lemma_mul_is_commutative(n as int, pp(pn, en) as int);
                    }
                    lemma_divides_trans(pp(pn, (c + 1) as nat), pp(pn, en), n * pp(pn, en));
                    lemma_divides_trans(pp(pn, (c + 1) as nat), n * pp(pn, en), m as nat);
                    lemma_divisor_le(pp(pn, (c + 1) as nat), m as nat);
                }
                q = q * p;
                let mut i: usize = 0;
                while i < len
                    invariant
                        1 <= m,
                        p >= 2,
                        pn == p,
                        en == e,
                        n >= 1,
                        divisor_list(old, n),
                        divides(n * pp(pn, en), m as nat),
                        len == old.len(),
                        c < e,
                        i <= len,
                        q == pp(pn, (c + 1) as nat),
                        ds@.len() == (c + 1) * len + i,
                        forall|cc: int, i: int|
                            0 <= cc <= c && 0 <= i < len ==> #[trigger] entry(ds@, len as int, cc, i) as int == (
                            old[i] as nat) * pp(pn, cc as nat),
                        forall|j: int| 0 <= j < i ==> #[trigger] ds@[(c + 1) * len + j] as int == (old[j] as nat) * pp(
                            pn,
                            (c + 1) as nat,
                        ),
                    decreases len - i,
                {
                    proof {
                        lemma_stage_entry(old, n, pn, en, m as nat, i as int, (c + 1) as nat);
                        lemma_pp(pn, 0);
                        assert((c + 1) * len >= len && 0 * len == 0) by (nonlinear_arith)
                            requires
                                c >= 0,
                        ;
                        assert(entry(ds@, len as int, 0, i as int) == ds@[i as int]);
                        assert(entry(ds@, len as int, 0, i as int) as int == (old[i as int] as nat) * pp(pn, 0nat));
                        assert(ds@[i as int] == old[i as int]);
                    }
                    let v = ds[i] * q;
                    let ghost before = ds@;
                    ds.push(v);
                    proof {
                        assert forall|cc: int, j: int| 0 <= cc <= c && 0 <= j < len implies #[trigger] entry(
                            ds@,
                            len as int,
                            cc,
                            j,
                        ) as int == (old[j] as nat) * pp(pn, cc as nat) by {
                            lemma_index(cc, j, (c + 1) as int, len as int);
                            assert(entry(ds@, len as int, cc, j) == entry(before, len as int, cc, j));
                        }
                    }
                    i = i + 1;
                }
                proof {
                    assert forall|cc: int, j: int| 0 <= cc <= c + 1 && 0 <= j < len implies #[trigger] entry(
                        ds@,
                        len as int,
                        cc,
                        j,
                    ) as int == (old[j] as nat) * pp(pn, cc as nat) by {
                        if cc == c + 1 {
                            assert(entry(ds@, len as int, cc, j) == ds@[(c + 1) * len + j]);
                        }
                    }
                    assert((c + 1) * len + len == (c + 2) * len) by (nonlinear_arith);
                }
                c = c + 1;
            }
            proof {
                assert((c + 1) * len == len * (c + 1)) by (nonlinear_arith);
                lemma_stage_done(old, ds@, n, pn, en);
            }
            t = t + 1;
        }
        proof {
            assert(fv.take(t as int) =~= fv);
        }
        ds
    }

    /// Whether `m` is squarefree: every exponent of its factorization is `1`.
    pub fn is_squarefree(&self, m: usize) -> (b: bool)
        requires
            1 <= m <= self.spec_bound(),
        ensures
            b == (forall|i: int|
                0 <= i < lpf_factorization(m as nat).len() ==> #[trigger] lpf_factorization(
                    m as nat,
                )[i].1 == 1),
    {
        let f = self.prime_factors(m);
        let mut k: usize = 0;
        while k < f.len()
            invariant
                k <= f.len(),
                factors_view(f@) == lpf_factorization(m as nat),
                forall|i: int| 0 <= i < k ==> #[trigger] f@[i].1 == 1,
            decreases f.len() - k,
        {
            if f[k].1 != 1 {
                proof {
                    assert(factors_view(f@)[k as int].1 == f@[k as int].1);
                }
                return false;
            }
            k = k + 1;
        }
        proof {
            assert forall|i: int| 0 <= i < lpf_factorization(m as nat).len() implies #[trigger] lpf_factorization(
                m as nat,
            )[i].1 == 1 by {
                assert(factors_view(f@)[i].1 == f@[i].1);
            }
        }
        true
    }

    /// The number `ω(m)` of distinct primes dividing `m`.
    pub fn omega(&self, m: usize) -> (w: u32)
        requires
            1 <= m <= self.spec_bound(),
        ensures
            w == lpf_factorization(m as nat).len(),
    {
        let f = self.prime_factors(m);
        proof {
            use_type_invariant(self);
            lemma_omega_bound(m as nat);
        }
        f.len() as u32
    }

    /// The number `Ω(m)` of primes dividing `m`, with multiplicity.
    pub fn big_omega(&self, m: usize) -> (w: u32)
        requires
            1 <= m <= self.spec_bound(),
        ensures
            w == exponent_sum(lpf_factorization(m as nat)),
    {
        let f = self.prime_factors(m);
        proof {
            use_type_invariant(self);
            lemma_exponent_sum_bound(m as nat);
        }
        let mut s: u32 = 0;
        let mut k: usize = 0;
        while k < f.len()
            invariant
                k <= f.len(),
                factors_view(f@) == lpf_factorization(m as nat),
                exponent_sum(lpf_factorization(m as nat)) < 64,
                s == exponent_sum(factors_view(f@).take(k as int)),
            decreases f.len() - k,
        {
            proof {
                let v = factors_view(f@);
                assert(v.take(k as int + 1).drop_last() =~= v.take(k as int));
                lemma_exponent_sum_prefix(v, k as int + 1);
            }
            s = s + f[k].1;
            k = k + 1;
        }
        proof {
            assert(factors_view(f@).take(k as int) =~= factors_view(f@));
        }
        s
    }

    /// The radical `rad(m)`: the product of the distinct primes dividing `m`.
    pub fn radical(&self, m: usize) -> (r: usize)
        requires
            1 <= m <= self.spec_bound(),
        ensures
            r == prime_product(lpf_factorization(m as nat)),
    {
        let f = self.prime_factors(m);
        proof {
            lemma_prime_product_le(m as nat);
        }
        let mut r: usize = 1;
        let mut k: usize = 0;
        while k < f.len()
            invariant
                k <= f.len(),
                m <= self.spec_bound(),
                factors_view(f@) == lpf_factorization(m as nat),
                is_factorization(factors_view(f@), m as nat),
                prime_product(lpf_factorization(m as nat)) <= m,
                r == prime_product(factors_view(f@).take(k as int)),
            decreases f.len() - k,
        {
            proof {
                let v = factors_view(f@);
                assert(v.take(k as int + 1).drop_last() =~= v.take(k as int));
                assert forall|i: int| 0 <= i < v.len() implies #[trigger] v[i].0 >= 1 by {
                    assert(spec_is_prime(v[i].0));
                }
                lemma_prime_product_prefix(v, k as int + 1);
            }
            r = r * f[k].0;
            k = k + 1;
        }
        proof {
            assert(factors_view(f@).take(k as int) =~= factors_view(f@));
        }
        r
    }
}

/// The sum of the exponents of a factorization.
pub open spec fn exponent_sum(f: Seq<(nat, nat)>) -> nat
    decreases f.len(),
{
    if f.len() == 0 {
        0
    } else {
        exponent_sum(f.drop_last()) + f.last().1
    }
}

/// The product of the primes of a factorization.
pub open spec fn prime_product(f: Seq<(nat, nat)>) -> nat
    decreases f.len(),
{
    if f.len() == 0 {
        1
    } else {
        prime_product(f.drop_last()) * f.last().0
    }
}

} // verus!

verus! {

proof fn lemma_exponent_sum_prepend(x: (nat, nat), r: Seq<(nat, nat)>)
    ensures
        exponent_sum(seq![x] + r) == x.1 + exponent_sum(r),
    decreases r.len(),
{
    let s = seq![x] + r;
    if r.len() == 0 {
        assert(s.drop_last() =~= Seq::<(nat, nat)>::empty());
        assert(s.last() == x);
        assert(exponent_sum(s) == exponent_sum(s.drop_last()) + s.last().1);
    } else {
        assert(s.drop_last() =~= seq![x] + r.drop_last());
        assert(s.last() == r.last());
        assert(exponent_sum(s) == exponent_sum(s.drop_last()) + s.last().1);
        lemma_exponent_sum_prepend(x, r.drop_last());
    }
}

proof fn lemma_prime_product_prepend(x: (nat, nat), r: Seq<(nat, nat)>)
    ensures
        prime_product(seq![x] + r) == x.0 * prime_product(r),
    decreases r.len(),
{
    let s = seq![x] + r;
    if r.len() == 0 {
        assert(s.drop_last() =~= Seq::<(nat, nat)>::empty());
        assert(s.last() == x);
        assert(prime_product(s) == prime_product(s.drop_last()) * s.last().0);
        vstd::arithmetic::mul::lemma_mul_basics(x.0 as int);
    } else {
        assert(prime_product(r) == prime_product(r.drop_last()) * r.last().0);
        assert(s.drop_last() =~= seq![x] + r.drop_last());
        assert(s.last() == r.last());
        assert(prime_product(s) == prime_product(s.drop_last()) * s.last().0);
        lemma_prime_product_prepend(x, r.drop_last());
        vstd::arithmetic::mul::lemma_mul_is_associative(
            x.0 as int,
            prime_product(r.drop_last()) as int,
            r.last().0 as int,
        );
    }
}

/// `2^Ω(m) <= m`.
proof fn lemma_exponent_sum_pow2(m: nat)
    requires
        m >= 1,
    ensures
        vstd::arithmetic::power2::pow2(exponent_sum(lpf_factorization(m))) <= m,
    decreases m,
{
    if m < 2 {
        vstd::arithmetic::power2::lemma2_to64();
    } else {
        lemma_lpf_facts(m);
        let p = spec_lpf(m);
        let e = multiplicity(m, p);
        let k = m / (pow(p as int, e) as nat);
        lemma_exponent_sum_pow2(k);
        lemma_exponent_sum_prepend((p, e), lpf_factorization(k));
        lemma_pow_ge_pow2(p as int, e);
        vstd::arithmetic::power2::lemma_pow2_adds(e, exponent_sum(lpf_factorization(k)));
        vstd::arithmetic::mul::lemma_mul_upper_bound(
            vstd::arithmetic::power2::pow2(exponent_sum(lpf_factorization(k))) as int,
            k as int,
            vstd::arithmetic::power2::pow2(e) as int,
            pow(p as int, e),
        );
        vstd::arithmetic::mul::lemma_mul_is_commutative(
            vstd::arithmetic::power2::pow2(exponent_sum(lpf_factorization(k))) as int,
            vstd::arithmetic::power2::pow2(e) as int,
        );
    }
}

/// `ω(m) <= Ω(m) < 32` for `m < 2^32`.
proof fn lemma_exponent_sum_bound(m: nat)
    requires
        1 <= m < 0x1_0000_0000,
    ensures
        exponent_sum(lpf_factorization(m)) < 32,
        lpf_factorization(m).len() <= exponent_sum(lpf_factorization(m)),
{
    lemma_exponent_sum_pow2(m);
    lemma_lpf_factorization(m);
    lemma_len_le_exponent_sum(lpf_factorization(m));
    vstd::arithmetic::power2::lemma2_to64();
    if exponent_sum(lpf_factorization(m)) >= 32 {
        if exponent_sum(lpf_factorization(m)) > 32 {
            vstd::arithmetic::power2::lemma_pow2_strictly_increases(
                32,
                exponent_sum(lpf_factorization(m)),
            );
        }
    }
}

proof fn lemma_len_le_exponent_sum(f: Seq<(nat, nat)>)
    requires
        forall|i: int| 0 <= i < f.len() ==> #[trigger] f[i].1 >= 1,
    ensures
        f.len() <= exponent_sum(f),
    decreases f.len(),
{
    if f.len() > 0 {
        lemma_len_le_exponent_sum(f.drop_last());
    }
}

proof fn lemma_omega_bound(m: nat)
    requires
        1 <= m < 0x1_0000_0000,
    ensures
        lpf_factorization(m).len() < 32,
{
    lemma_exponent_sum_bound(m);
}

proof fn lemma_exponent_sum_prefix(v: Seq<(nat, nat)>, k: int)
    requires
        0 <= k <= v.len(),
    ensures
        exponent_sum(v.take(k)) <= exponent_sum(v),
    decreases v.len(),
{
    if k < v.len() {
        assert(v.take(k) =~= v.drop_last().take(k));
        lemma_exponent_sum_prefix(v.drop_last(), k);
    } else {
        assert(v.take(k) =~= v);
    }
}

/// `rad(m) <= m`.
proof fn lemma_prime_product_le(m: nat)
    requires
        m >= 1,
    ensures
        1 <= prime_product(lpf_factorization(m)) <= m,
    decreases m,
{
    if m >= 2 {
        lemma_lpf_facts(m);
        let p = spec_lpf(m);
        let e = multiplicity(m, p);
        let k = m / (pow(p as int, e) as nat);
        lemma_prime_product_le(k);
        lemma_prime_product_prepend((p, e), lpf_factorization(k));
        lemma_pow_ge_pow2(p as int, e);
        crate::num::divisibility::lemma_pow_succ(p as int, (e - 1) as nat);
        lemma_pow_ge_pow2(p as int, (e - 1) as nat);
        vstd::arithmetic::mul::lemma_mul_increases(pow(p as int, (e - 1) as nat), p as int);
        vstd::arithmetic::mul::lemma_mul_is_commutative(pow(p as int, (e - 1) as nat), p as int);
        vstd::arithmetic::mul::lemma_mul_upper_bound(
            p as int,
            pow(p as int, e),
            prime_product(lpf_factorization(k)) as int,
            k as int,
        );
        vstd::arithmetic::mul::lemma_mul_is_commutative(k as int, pow(p as int, e));
        vstd::arithmetic::mul::lemma_mul_strictly_positive(
            p as int,
            prime_product(lpf_factorization(k)) as int,
        );
    }
}

proof fn lemma_prime_product_prefix(v: Seq<(nat, nat)>, k: int)
    requires
        0 <= k <= v.len(),
        forall|i: int| 0 <= i < v.len() ==> #[trigger] v[i].0 >= 1,
    ensures
        prime_product(v.take(k)) <= prime_product(v),
    decreases v.len(),
{
    if k < v.len() {
        assert(v.take(k) =~= v.drop_last().take(k));
        lemma_prime_product_prefix(v.drop_last(), k);
        lemma_prime_product_pos(v.drop_last());
        vstd::arithmetic::mul::lemma_mul_increases(
            v.last().0 as int,
            prime_product(v.drop_last()) as int,
        );
        vstd::arithmetic::mul::lemma_mul_is_commutative(
            v.last().0 as int,
            prime_product(v.drop_last()) as int,
        );
    } else {
        assert(v.take(k) =~= v);
    }
}

proof fn lemma_prime_product_pos(v: Seq<(nat, nat)>)
    requires
        forall|i: int| 0 <= i < v.len() ==> #[trigger] v[i].0 >= 1,
    ensures
        prime_product(v) >= 1,
    decreases v.len(),
{
    if v.len() > 0 {
        lemma_prime_product_pos(v.drop_last());
        vstd::arithmetic::mul::lemma_mul_strictly_positive(
            prime_product(v.drop_last()) as int,
            v.last().0 as int,
        );
    }
}


/// Gauss's lemma for a prime: if `p` does not divide `a` and `a` divides `b p`, then `a` divides
/// `b`.
proof fn lemma_gauss_prime(a: nat, b: nat, p: nat)
    requires
        spec_is_prime(p),
        divides(a, b * p),
        a % p != 0,
    ensures
        divides(a, b),
{
    let k = (b * p) / a;
    lemma_fundamental_div_mod((b * p) as int, a as int);
    assert(a * k == b * p);
    assert((a * k) % p == 0) by {
        lemma_divides_multiple(p, b);
    }
    lemma_euclid(a, k, p);
    let k2 = k / p;
    lemma_fundamental_div_mod(k as int, p as int);
    assert(b == a * k2) by (nonlinear_arith)
        requires
            a * k == b * p,
            k == p * k2,
            p > 0,
    ;
    lemma_divides_multiple(a, k2);
}

/// A divisor of `n p^k` not divisible by the prime `p` divides `n`.
proof fn lemma_coprime_cancel_pow(y: nat, n: nat, p: nat, k: nat)
    requires
        spec_is_prime(p),
        divides(y, n * pp(p, k)),
        y % p != 0,
    ensures
        divides(y, n),
    decreases k,
{
    lemma_pp(p, k);
    if k == 0 {
        assert(n * pp(p, k) == n);
    } else {
        lemma_pp(p, (k - 1) as nat);
        assert(n * pp(p, k) == (n * pp(p, (k - 1) as nat)) * p) by {
            lemma_mul_is_associative(n as int, pp(p, (k - 1) as nat) as int, p as int);
            lemma_mul_is_commutative(pp(p, (k - 1) as nat) as int, p as int);
        }
        lemma_gauss_prime(y, n * pp(p, (k - 1) as nat), p);
        lemma_coprime_cancel_pow(y, n, p, (k - 1) as nat);
    }
}

/// `p^k` as a natural number.
pub open spec fn pp(p: nat, k: nat) -> nat {
    pow(p as int, k) as nat
}

/// `p^k >= 1`, `p^(k+1) = p^k p`, and `p^(a+b) = p^a p^b`.
proof fn lemma_pp(p: nat, k: nat)
    requires
        p >= 2,
    ensures
        pp(p, k) >= 1,
        pp(p, k + 1) == pp(p, k) * p,
        pp(p, 0) == 1,
        pow(p as int, k) == pp(p, k) as int,
{
    lemma_pow_ge_pow2(p as int, k);
    lemma_pow_succ(p as int, k);
    lemma_mul_is_commutative(p as int, pow(p as int, k));
}

/// `p^a p^b = p^(a+b)`.
proof fn lemma_pp_adds(p: nat, a: nat, b: nat)
    requires
        p >= 2,
    ensures
        pp(p, a) * pp(p, b) == pp(p, a + b),
{
    lemma_pp(p, a);
    lemma_pp(p, b);
    lemma_pp(p, a + b);
    vstd::arithmetic::power::lemma_pow_adds(p as int, a, b);
}

/// If `a` divides `b` and `c` divides `d`, then `a c` divides `b d`.
proof fn lemma_divides_product(a: nat, b: nat, c: nat, d: nat)
    requires
        divides(a, b),
        divides(c, d),
    ensures
        divides(a * c, b * d),
{
    lemma_fundamental_div_mod(b as int, a as int);
    lemma_fundamental_div_mod(d as int, c as int);
    let x = b / a;
    let y = d / c;
    assert(b * d == (a * c) * (x * y)) by (nonlinear_arith)
        requires
            b == a * x,
            d == c * y,
    ;
    assert(a * c > 0) by (nonlinear_arith)
        requires
            a > 0,
            c > 0,
    ;
    lemma_divides_multiple(a * c, x * y);
}

/// A divisor of `n >= 1` is at most `n`.
proof fn lemma_divisor_le(d: nat, n: nat)
    requires
        divides(d, n),
        n >= 1,
    ensures
        d <= n,
{
    lemma_fundamental_div_mod(n as int, d as int);
    let k = n / d;
    assert(d <= n) by (nonlinear_arith)
        requires
            n == d * k,
            n >= 1,
            d > 0,
    ;
}

/// A prime dividing a power of a prime is that prime.
proof fn lemma_prime_divides_pow(p: nat, q: nat, e: nat)
    requires
        spec_is_prime(p),
        spec_is_prime(q),
        pp(q, e) % p == 0,
    ensures
        p == q,
    decreases e,
{
    lemma_pp(q, e);
    if e == 0 {
        lemma_small_mod(1, p);
    } else {
        lemma_pp(q, (e - 1) as nat);
        lemma_euclid(pp(q, (e - 1) as nat), q, p);
        if pp(q, (e - 1) as nat) % p == 0 {
            lemma_prime_divides_pow(p, q, (e - 1) as nat);
        } else {
            assert(q % p == 0);
            lemma_divisor_le(p, q);
            if p < q {
                assert(q % p != 0);
            }
        }
    }
}

/// A prime other than the primes of `f` does not divide `Π p^e` over `f`.
proof fn lemma_prime_not_divides_product(f: Seq<(nat, nat)>, p: nat)
    requires
        spec_is_prime(p),
        forall|i: int| 0 <= i < f.len() ==> spec_is_prime(#[trigger] f[i].0) && f[i].0 != p,
    ensures
        factor_product(f) % (p as int) != 0,
        factor_product(f) >= 1,
    decreases f.len(),
{
    if f.len() == 0 {
        lemma_small_mod(1, p);
    } else {
        let g = f.drop_last();
        let (q, e) = f.last();
        assert(spec_is_prime(f[f.len() - 1].0));
        lemma_prime_not_divides_product(g, p);
        lemma_pp(q, e);
        let a = factor_product(g) as nat;
        assert(factor_product(f) == a * pp(q, e));
        assert(a * pp(q, e) >= 1) by (nonlinear_arith)
            requires
                a >= 1,
                pp(q, e) >= 1,
        ;
        if (a * pp(q, e)) % p == 0 {
            lemma_euclid(a, pp(q, e), p);
            if pp(q, e) % p == 0 {
                lemma_prime_divides_pow(p, q, e);
            }
        }
    }
}

/// `Π p^e` over a concatenation is the product of the two.
proof fn lemma_factor_product_append(a: Seq<(nat, nat)>, b: Seq<(nat, nat)>)
    ensures
        factor_product(a + b) == factor_product(a) * factor_product(b),
    decreases b.len(),
{
    if b.len() == 0 {
        assert(a + b =~= a);
        lemma_mul_basics(factor_product(a));
    } else {
        lemma_factor_product_append(a, b.drop_last());
        assert((a + b).drop_last() =~= a + b.drop_last());
        assert((a + b).last() == b.last());
        lemma_mul_is_associative(
            factor_product(a),
            factor_product(b.drop_last()),
            pow(b.last().0 as int, b.last().1),
        );
    }
}

/// A number not divisible by `p >= 2` times a power of `p`: `x = q p^c` with `p` not dividing
/// `q`.
proof fn lemma_split_power(x: nat, p: nat) -> (r: (nat, nat))
    requires
        x >= 1,
        p >= 2,
    ensures
        r.0 >= 1,
        r.0 % p != 0,
        x == r.0 * pp(p, r.1),
    decreases x,
{
    lemma_pp(p, 0);
    if x % p == 0 {
        lemma_fundamental_div_mod(x as int, p as int);
        let y = x / p;
        assert(y >= 1 && y < x) by (nonlinear_arith)
            requires
                x == p * y,
                x >= 1,
                p >= 2,
        ;
        let (q, c) = lemma_split_power(y, p);
        lemma_pp(p, c);
        assert(x == q * pp(p, c + 1)) by (nonlinear_arith)
            requires
                x == p * y,
                y == q * pp(p, c),
                pp(p, c + 1) == pp(p, c) * p,
        ;
        (q, c + 1)
    } else {
        assert(x == x * pp(p, 0));
        (x, 0)
    }
}

/// A divisor of `n p^e`, for `n` not divisible by the prime `p`, is `d p^c` for a divisor `d` of
/// `n` and `c <= e`.
proof fn lemma_divisor_decompose(x: nat, n: nat, p: nat, e: nat) -> (r: (nat, nat))
    requires
        spec_is_prime(p),
        n >= 1,
        n % p != 0,
        divides(x, n * pp(p, e)),
    ensures
        divides(r.0, n),
        r.1 <= e,
        x == r.0 * pp(p, r.1),
        r.0 % p != 0,
{
    let (q, c) = lemma_split_power(x, p);
    lemma_pp(p, c);
    lemma_pp(p, e);
    lemma_fundamental_div_mod((n * pp(p, e)) as int, x as int);
    let w = (n * pp(p, e)) / x;
    assert(n * pp(p, e) == x * w);
    if c > e {
        let k = (c - e - 1) as nat;
        lemma_pp_adds(p, e + 1, k);
        lemma_pp(p, e + 1);
        assert(n * pp(p, e) == (p * (q * pp(p, k) * w)) * pp(p, e)) by (nonlinear_arith)
            requires
                n * pp(p, e) == x * w,
                x == q * pp(p, c),
                pp(p, e + 1) * pp(p, k) == pp(p, c),
                pp(p, e + 1) == pp(p, e) * p,
        ;
        assert(n == p * (q * pp(p, k) * w)) by (nonlinear_arith)
            requires
                n * pp(p, e) == (p * (q * pp(p, k) * w)) * pp(p, e),
                pp(p, e) >= 1,
        ;
        lemma_divides_multiple(p, q * pp(p, k) * w);
        assert(false);
    }
    let k = (e - c) as nat;
    lemma_pp_adds(p, c, k);
    lemma_pp(p, k);
    assert(q * w == n * pp(p, k)) by (nonlinear_arith)
        requires
            n * pp(p, e) == x * w,
            x == q * pp(p, c),
            pp(p, c) * pp(p, k) == pp(p, e),
            pp(p, c) >= 1,
    ;
    lemma_divides_multiple(q, w);
    lemma_coprime_cancel_pow(q, n, p, k);
    (q, c)
}

/// `d p^c` determines `c` and `d` for `d` not divisible by `p`.
proof fn lemma_power_split_unique(d1: nat, c1: nat, d2: nat, c2: nat, p: nat)
    requires
        p >= 2,
        d1 >= 1,
        d2 >= 1,
        d1 % p != 0,
        d2 % p != 0,
        d1 * pp(p, c1) == d2 * pp(p, c2),
    ensures
        c1 == c2,
        d1 == d2,
{
    lemma_pp(p, c1);
    lemma_pp(p, c2);
    lemma_multiplicity(d1 * pp(p, c1), p, d1, c1);
    lemma_multiplicity(d2 * pp(p, c2), p, d2, c2);
}

/// `ds` lists each divisor of `n` once.
pub open spec fn divisor_list(ds: Seq<usize>, n: nat) -> bool {
    &&& forall|k: int| 0 <= k < ds.len() ==> divides(#[trigger] ds[k] as nat, n)
    &&& forall|a: int, b: int| 0 <= a < b < ds.len() ==> ds[a] != ds[b]
    &&& forall|d: nat| #[trigger] divides(d, n) ==> exists|k: int| 0 <= k < ds.len() && ds[k] as nat == d
}

/// An item of a divisor list of `n` is not divisible by a prime not dividing `n`.
proof fn lemma_list_item_coprime(old: Seq<usize>, n: nat, p: nat, i: int)
    requires
        divisor_list(old, n),
        0 <= i < old.len(),
        n >= 1,
        p >= 2,
        n % p != 0,
    ensures
        (old[i] as nat) % p != 0,
        old[i] >= 1,
{
    assert(divides(old[i] as nat, n));
    if (old[i] as nat) % p == 0 {
        lemma_divides_trans(p, old[i] as nat, n);
    }
}

/// `old[i] p^c`, for `c <= e`, divides `n p^e`, which divides `m`, so it is at most `m`.
proof fn lemma_stage_entry(old: Seq<usize>, n: nat, p: nat, e: nat, m: nat, i: int, c: nat)
    requires
        divisor_list(old, n),
        0 <= i < old.len(),
        c <= e,
        p >= 2,
        n >= 1,
        m >= 1,
        divides(n * pp(p, e), m),
    ensures
        divides((old[i] as nat) * pp(p, c), n * pp(p, e)),
        (old[i] as nat) * pp(p, c) <= m,
{
    lemma_pp(p, c);
    lemma_pp(p, e);
    lemma_pp_adds(p, c, (e - c) as nat);
    lemma_divides_multiple(pp(p, c), pp(p, (e - c) as nat));
    assert(divides(old[i] as nat, n));
    lemma_divides_product(old[i] as nat, n, pp(p, c), pp(p, e));
    assert(n * pp(p, e) > 0) by (nonlinear_arith)
        requires
            n >= 1,
            pp(p, e) >= 1,
    ;
    lemma_divides_trans((old[i] as nat) * pp(p, c), n * pp(p, e), m);
    lemma_divisor_le((old[i] as nat) * pp(p, c), m);
}

/// Multiplying the divisors of `n` by each of `1, p, ..., p^e`, for a prime `p` not dividing `n`,
/// lists the divisors of `n p^e`, each once.
proof fn lemma_stage_done(old: Seq<usize>, ds: Seq<usize>, n: nat, p: nat, e: nat)
    requires
        divisor_list(old, n),
        spec_is_prime(p),
        n >= 1,
        n % p != 0,
        ds.len() == old.len() * (e + 1),
        forall|c: int, i: int|
            0 <= c <= e && 0 <= i < old.len() ==> #[trigger] entry(ds, old.len() as int, c, i) as int == (
            old[i] as nat) * pp(p, c as nat),
    ensures
        divisor_list(ds, n * pp(p, e)),
{
    let len = old.len() as int;
    lemma_pp(p, e);
    assert(n * pp(p, e) >= 1) by (nonlinear_arith)
        requires
            n >= 1,
            pp(p, e) >= 1,
    ;
    assert forall|k: int| 0 <= k < ds.len() implies divides(#[trigger] ds[k] as nat, n * pp(p, e)) by {
        lemma_position(k, e + 1int, len);
        let c = k / len;
        let i = k % len;
        assert(ds[k] == entry(ds, len, c, i));
        lemma_stage_entry(old, n, p, e, n * pp(p, e), i, c as nat);
    }
    assert forall|a: int, b: int| 0 <= a < b < ds.len() implies ds[a] != ds[b] by {
        lemma_position(a, e + 1int, len);
        lemma_position(b, e + 1int, len);
        let (c1, i1) = (a / len, a % len);
        let (c2, i2) = (b / len, b % len);
        assert(ds[a] == entry(ds, len, c1, i1));
        assert(ds[b] == entry(ds, len, c2, i2));
        if ds[a] == ds[b] {
            lemma_list_item_coprime(old, n, p, i1);
            lemma_list_item_coprime(old, n, p, i2);
            lemma_power_split_unique(old[i1] as nat, c1 as nat, old[i2] as nat, c2 as nat, p);
            if i1 != i2 {
                if i1 < i2 {
                    assert(old[i1] != old[i2]);
                } else {
                    assert(old[i2] != old[i1]);
                }
            }
        }
    }
    assert forall|d: nat| #[trigger] divides(d, n * pp(p, e)) implies exists|k: int|
        0 <= k < ds.len() && ds[k] as nat == d by {
        let (d0, c) = lemma_divisor_decompose(d, n, p, e);
        assert(divides(d0, n));
        let i = choose|i: int| 0 <= i < old.len() && old[i] as nat == d0;
        lemma_index(c as int, i, e + 1int, len);
        let k = c * len + i;
        assert(ds[k] == entry(ds, len, c as int, i));
    }
}

/// A product of prime powers is positive.
proof fn lemma_factor_product_positive(f: Seq<(nat, nat)>)
    requires
        forall|i: int| 0 <= i < f.len() ==> spec_is_prime(#[trigger] f[i].0) && f[i].0 != 0,
    ensures
        factor_product(f) >= 1,
    decreases f.len(),
{
    if f.len() > 0 {
        let g = f.drop_last();
        assert forall|i: int| 0 <= i < g.len() implies spec_is_prime(#[trigger] g[i].0) && g[i].0 != 0 by {
            assert(g[i] == f[i]);
        }
        lemma_factor_product_positive(g);
        assert(spec_is_prime(f[f.len() - 1].0));
        lemma_pp(f.last().0, f.last().1);
        let a = factor_product(g);
        let b = pp(f.last().0, f.last().1);
        assert(a * b >= 1) by (nonlinear_arith)
            requires
                a >= 1,
                b >= 1,
        ;
    }
}

} // verus!
