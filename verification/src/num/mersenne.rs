//! The prime field `Z/MZ` for a Mersenne prime `M = 2^K - 1`, whose products are reduced without
//! division.
use crate::num::fermat::lemma_fermat_inverse;
use crate::num::fp::lemma_pow_mod_step;
use crate::num::divisibility::spec_is_prime;
use vstd::arithmetic::div_mod::*;
use vstd::arithmetic::mul::*;
use vstd::arithmetic::power::*;
use vstd::arithmetic::power2::*;
use vstd::bits::*;
use vstd::prelude::*;

verus! {

/// The exponents `K <= 63` for which `2^K - 1` is prime.
pub open spec fn mersenne_exponent(k: nat) -> bool {
    k == 2 || k == 3 || k == 5 || k == 7 || k == 13 || k == 17 || k == 19 || k == 31 || k == 61
}

/// The modulus `M = 2^K - 1`.
pub open spec fn mersenne_modulus(k: nat) -> nat {
    (pow2(k) - 1) as nat
}

/// `3 <= M < 2^K <= 2^61`.
pub proof fn lemma_modulus_bounds(k: nat)
    requires
        mersenne_exponent(k),
    ensures
        3 <= mersenne_modulus(k),
        mersenne_modulus(k) + 1 == pow2(k),
        pow2(k) <= 0x2000_0000_0000_0000,
        (mersenne_modulus(k) as int) * (mersenne_modulus(k) as int) < 0x4000_0000_0000_0000_0000_0000_0000_0000,
{
    lemma2_to64();
    lemma2_to64_rest();
    let m = mersenne_modulus(k) as int;
    assert(m * m <= 0x2000_0000_0000_0000 * 0x2000_0000_0000_0000) by (nonlinear_arith)
        requires
            0 <= m <= 0x2000_0000_0000_0000,
    ;
}

/// An element of `Z/MZ` for `M = 2^K - 1`, as its residue in `[0, M)`.
#[derive(Clone, Copy, PartialEq, Eq, Hash, Debug)]
pub struct Mersenne<const K: u32>(u64);

impl<const K: u32> View for Mersenne<K> {
    type V = nat;

    closed spec fn view(&self) -> nat {
        self.0 as nat
    }
}

impl<const K: u32> Mersenne<K> {
    #[verifier::type_invariant]
    spec fn wf(self) -> bool {
        mersenne_exponent(K as nat) && self.0 < mersenne_modulus(K as nat)
    }

    /// The element with residue `r`, as a mathematical value.
    pub closed spec fn from_residue(r: nat) -> Self {
        Mersenne(r as u64)
    }

    /// A residue stands for an element of `Z/MZ`.
    pub proof fn lemma_residue(r: nat)
        requires
            mersenne_exponent(K as nat),
            r < mersenne_modulus(K as nat),
        ensures
            Self::from_residue(r)@ == r,
    {
        lemma_modulus_bounds(K as nat);
    }

    /// Two elements are equal iff their residues are.
    pub proof fn lemma_view_eq(a: Self, b: Self)
        ensures
            (a@ == b@) <==> (a == b),
    {
    }

    /// The modulus `M = 2^K - 1`.
    fn modulus() -> (m: u64)
        requires
            mersenne_exponent(K as nat),
        ensures
            m == mersenne_modulus(K as nat),
    {
        proof {
            lemma_modulus_bounds(K as nat);
            lemma_u64_shl_is_mul(1, K as u64);
        }
        (1u64 << (K as u64)) - 1
    }

    /// The residue class of `n`.
    pub fn new(n: u64) -> (r: Self)
        requires
            mersenne_exponent(K as nat),
        ensures
            r@ == (n as nat) % mersenne_modulus(K as nat),
    {
        proof {
            lemma_modulus_bounds(K as nat);
        }
        Mersenne(n % Self::modulus())
    }

    /// The residue of `x` modulo `M`, for `x <= (M - 1)^2`, computed without division from
    /// `x = q 2^K + r = q M + (q + r)`.
    fn reduce(x: u128) -> (r: u64)
        requires
            mersenne_exponent(K as nat),
            x <= (mersenne_modulus(K as nat) - 1) * (mersenne_modulus(K as nat) - 1),
        ensures
            r == (x as nat) % mersenne_modulus(K as nat),
    {
        let m = Self::modulus();
        let ghost mi = m as int;
        let ghost p = pow2(K as nat) as int;
        proof {
            lemma_modulus_bounds(K as nat);
            lemma_u128_shr_is_div(x, K as u128);
            lemma_pow2_pos(K as nat);
            assert(x < (mi + 1) * (mi - 1)) by (nonlinear_arith)
                requires
                    x <= (mi - 1) * (mi - 1),
                    mi >= 3,
            ;
            lemma_multiply_divide_lt(x as int, mi + 1, mi - 1);
        }
        let hi = (x >> (K as u128)) as u64;
        let t = x as u64;
        let lo = t & m;
        proof {
            assert(t as int == x as int % 0x1_0000_0000_0000_0000) by (bit_vector)
                requires
                    t == x as u64,
            ;
            lemma_u64_low_bits_mask_is_mod(t, K as nat);
            lemma_u64_pow2_no_overflow(K as nat);
            lemma2_to64_rest();
            lemma_pow2_adds(K as nat, (64 - K) as nat);
            lemma_pow2_pos((64 - K) as nat);
            lemma_mod_mod(x as int, p, pow2((64 - K) as nat) as int);
            assert(lo as int == x as int % p);
            lemma_fundamental_div_mod(x as int, p);
            lemma_mod_bound(x as int, p);
            assert(x as int == mi * (x as int / p) + (hi + lo)) by (nonlinear_arith)
                requires
                    x as int == p * (x as int / p) + x as int % p,
                    p == mi + 1,
                    hi as int == x as int / p,
                    lo as int == x as int % p,
            ;
            lemma_mod_multiples_vanish(x as int / p, hi + lo, mi);
        }
        let y = hi + lo;
        if y >= m {
            proof {
                lemma_fundamental_div_mod_converse((hi + lo) as int, mi, 1, y - mi);
            }
            y - m
        } else {
            proof {
                lemma_small_mod(y as nat, m as nat);
            }
            y
        }
    }

    /// The residue of `self` in `[0, M)`.
    pub fn val(self) -> (v: u64)
        ensures
            v == self@,
            v < mersenne_modulus(K as nat),
            mersenne_exponent(K as nat),
    {
        proof {
            use_type_invariant(&self);
        }
        self.0
    }

    /// `self + rhs`.
    pub fn add(self, rhs: Self) -> (r: Self)
        ensures
            r@ == (self@ + rhs@) % mersenne_modulus(K as nat),
    {
        proof {
            use_type_invariant(&self);
            use_type_invariant(&rhs);
            lemma_modulus_bounds(K as nat);
        }
        let m = Self::modulus();
        let s = self.0 + rhs.0;
        if s >= m {
            proof {
                lemma_fundamental_div_mod_converse(s as int, m as int, 1, s - m);
            }
            Mersenne(s - m)
        } else {
            proof {
                lemma_small_mod(s as nat, m as nat);
            }
            Mersenne(s)
        }
    }

    /// `self - rhs`.
    pub fn sub(self, rhs: Self) -> (r: Self)
        ensures
            r@ == (self@ - rhs@) % (mersenne_modulus(K as nat) as int),
    {
        proof {
            use_type_invariant(&self);
            use_type_invariant(&rhs);
            lemma_modulus_bounds(K as nat);
        }
        let m = Self::modulus();
        if self.0 < rhs.0 {
            proof {
                lemma_fundamental_div_mod_converse(
                    self.0 - rhs.0,
                    m as int,
                    -1,
                    self.0 + m - rhs.0,
                );
            }
            Mersenne(self.0 + m - rhs.0)
        } else {
            proof {
                lemma_small_mod((self.0 - rhs.0) as nat, m as nat);
            }
            Mersenne(self.0 - rhs.0)
        }
    }

    /// `-self`.
    pub fn neg(self) -> (r: Self)
        ensures
            r@ == (0 - self@) % (mersenne_modulus(K as nat) as int),
    {
        proof {
            use_type_invariant(&self);
            lemma_modulus_bounds(K as nat);
        }
        let m = Self::modulus();
        if self.0 > 0 {
            proof {
                lemma_fundamental_div_mod_converse(0 - self.0, m as int, -1, m - self.0);
            }
            Mersenne(m - self.0)
        } else {
            proof {
                lemma_small_mod(0, m as nat);
            }
            self
        }
    }

    /// `self * rhs`.
    pub fn mul(self, rhs: Self) -> (r: Self)
        ensures
            r@ == (self@ * rhs@) % mersenne_modulus(K as nat),
    {
        proof {
            use_type_invariant(&self);
            use_type_invariant(&rhs);
            lemma_modulus_bounds(K as nat);
            let (a, b, m) = (self.0 as int, rhs.0 as int, mersenne_modulus(K as nat) as int);
            assert(a * b <= (m - 1) * (m - 1) && a * b <= m * m) by (nonlinear_arith)
                requires
                    0 <= a < m,
                    0 <= b < m,
            ;
        }
        Mersenne(Self::reduce(self.0 as u128 * rhs.0 as u128))
    }

    /// The power `self^exp`, by binary exponentiation.
    pub fn pow(self, exp: u64) -> (r: Self)
        ensures
            r@ == pow(self@ as int, exp as nat) % (mersenne_modulus(K as nat) as int),
    {
        proof {
            use_type_invariant(&self);
            lemma_modulus_bounds(K as nat);
        }
        let ghost m = mersenne_modulus(K as nat) as int;
        let mut base = self;
        let mut e = exp;
        let mut x = Mersenne::<K>(1);
        proof {
            lemma_small_mod(1, m as nat);
            lemma_mul_basics(pow(self@ as int, exp as nat));
            lemma_pow_mod_noop(self@ as int, exp as nat, m);
            lemma_small_mod(self@, m as nat);
        }
        while e > 0
            invariant
                mersenne_exponent(K as nat),
                m == mersenne_modulus(K as nat),
                m >= 3,
                x@ < m,
                base@ < m,
                (x@ * pow(base@ as int, e as nat)) % m == pow(self@ as int, exp as nat) % m,
            decreases e,
        {
            proof {
                assert(e & 1 == e % 2) by (bit_vector);
                assert(e >> 1 == e / 2) by (bit_vector);
                lemma_pow_mod_step(x@ as int, base@ as int, e as nat, m);
                lemma_mul_basics(x@ as int);
                lemma_small_mod(x@, m as nat);
            }
            if e & 1 == 1 {
                x = x.mul(base);
            }
            base = base.mul(base);
            e = e >> 1;
            proof {
                use_type_invariant(&x);
                use_type_invariant(&base);
            }
        }
        proof {
            lemma_pow0(base@ as int);
            lemma_mul_basics(x@ as int);
            lemma_small_mod(x@, m as nat);
        }
        x
    }

    /// The inverse `self^{M-2}` of a nonzero `self`: where `M` is prime, `self * r = 1`, by
    /// Fermat's little theorem.
    pub fn inv(self) -> (r: Self)
        requires
            self@ != 0,
        ensures
            r@ == pow(self@ as int, (mersenne_modulus(K as nat) - 2) as nat) % (mersenne_modulus(
                K as nat,
            ) as int),
            spec_is_prime(mersenne_modulus(K as nat)) ==> (self@ * r@) % mersenne_modulus(K as nat)
                == 1,
    {
        proof {
            use_type_invariant(&self);
            lemma_modulus_bounds(K as nat);
            if spec_is_prime(mersenne_modulus(K as nat)) {
                lemma_small_mod(self@, mersenne_modulus(K as nat));
                lemma_fermat_inverse(mersenne_modulus(K as nat), self@);
            }
        }
        self.pow(Self::modulus() - 2)
    }

    /// `self / rhs`, as `self * rhs^{-1}`.
    pub fn div(self, rhs: Self) -> (r: Self)
        requires
            rhs@ != 0,
        ensures
            r@ == (self@ * (pow(rhs@ as int, (mersenne_modulus(K as nat) - 2) as nat) % (
            mersenne_modulus(K as nat) as int))) % (mersenne_modulus(K as nat) as int),
            spec_is_prime(mersenne_modulus(K as nat)) ==> (r@ * rhs@) % mersenne_modulus(K as nat)
                == self@,
    {
        let i = rhs.inv();
        let r = self.mul(i);
        proof {
            use_type_invariant(&self);
            use_type_invariant(&i);
            lemma_modulus_bounds(K as nat);
            if spec_is_prime(mersenne_modulus(K as nat)) {
                let m = mersenne_modulus(K as nat) as int;
                lemma_mul_mod_noop_left((self@ * i@) as int, rhs@ as int, m);
                lemma_mul_is_associative(self@ as int, i@ as int, rhs@ as int);
                lemma_mul_is_commutative(i@ as int, rhs@ as int);
                lemma_mul_mod_noop_right(self@ as int, (rhs@ * i@) as int, m);
                lemma_mul_basics(self@ as int);
                lemma_small_mod(self@, m as nat);
            }
        }
        r
    }
}

} // verus!
