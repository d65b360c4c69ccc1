//! The prime field `Z/PZ` for a prime `P < 2^31`.
use crate::algebra::{Field, Ring, Semiring};
use crate::num::divisibility::spec_is_prime;
use crate::num::fermat::lemma_fermat_inverse;
use vstd::arithmetic::div_mod::*;
use vstd::arithmetic::mul::*;
use vstd::arithmetic::power::*;
use vstd::prelude::*;

verus! {

/// The moduli of [`Fp`]: the primes below `2^31`.
pub open spec fn fp_modulus(p: nat) -> bool {
    spec_is_prime(p) && p < 0x8000_0000
}

/// One step of binary exponentiation modulo `m`: with `c = b` if `e` is odd and `c = 1` otherwise,
/// `((x c mod m) ((b^2 mod m)^(e/2))) mod m = (x b^e) mod m`.
pub proof fn lemma_pow_mod_step(x: int, b: int, e: nat, m: int)
    requires
        m > 0,
    ensures
        (((x * (if e % 2 == 1 {
            b
        } else {
            1
        })) % m) * pow((b * b) % m, e / 2)) % m == (x * pow(b, e)) % m,
{
    let h = e / 2;
    let c: int = if e % 2 == 1 {
        b
    } else {
        1
    };
    lemma_pow_multiplies(b, 2, h);
    lemma_square_is_pow2(b);
    lemma_pow_adds(b, 2 * h, e % 2);
    lemma_pow1(b);
    lemma_pow0(b);
    assert(pow(b, e) == pow(b * b, h) * c);
    lemma_pow_mod_noop(b * b, h, m);
    let q = pow((b * b) % m, h);
    lemma_mul_mod_noop_left(x * c, q, m);
    lemma_mul_mod_noop_right(x * c, q, m);
    lemma_mul_mod_noop_right(x * c, pow(b * b, h), m);
    lemma_mul_is_associative(x, c, pow(b * b, h));
    lemma_mul_is_commutative(c, pow(b * b, h));
}

/// An element of the prime field `Z/PZ`, as its residue in `[0, P)`.
#[derive(Clone, Copy, PartialEq, Eq, Hash, Debug)]
pub struct Fp<const P: u32>(u32);

impl<const P: u32> View for Fp<P> {
    type V = nat;

    closed spec fn view(&self) -> nat {
        self.0 as nat
    }
}

impl<const P: u32> Fp<P> {
    #[verifier::type_invariant]
    spec fn wf(self) -> bool {
        fp_modulus(P as nat) && self.0 < P
    }

    /// The element with residue `r`, as a mathematical value.
    pub closed spec fn from_residue(r: nat) -> Self {
        Fp(r as u32)
    }

    /// A residue stands for an element of `Z/PZ`.
    pub proof fn lemma_residue(r: nat)
        requires
            r < P,
        ensures
            Self::from_residue(r)@ == r,
    {
    }

    /// Two elements are equal iff their residues are.
    pub proof fn lemma_view_eq(a: Self, b: Self)
        ensures
            (a@ == b@) <==> (a == b),
    {
    }

    /// The residue class of `n`.
    pub fn new(n: u32) -> (r: Self)
        requires
            fp_modulus(P as nat),
        ensures
            r@ == (n as nat) % (P as nat),
            r@ < P,
    {
        Fp(n % P)
    }

    /// The residue of `self` in `[0, P)`.
    pub fn val(self) -> (v: u32)
        ensures
            v == self@,
            v < P,
            fp_modulus(P as nat),
    {
        proof {
            use_type_invariant(&self);
        }
        self.0
    }

    /// `self + rhs`.
    pub fn add(self, rhs: Self) -> (r: Self)
        ensures
            r@ == (self@ + rhs@) % (P as nat),
            r@ < P,
    {
        proof {
            use_type_invariant(&self);
            use_type_invariant(&rhs);
        }
        let s = self.0 + rhs.0;
        if s >= P {
            proof {
                lemma_fundamental_div_mod_converse(s as int, P as int, 1, s - P);
            }
            Fp(s - P)
        } else {
            proof {
                lemma_small_mod(s as nat, P as nat);
            }
            Fp(s)
        }
    }

    /// `self - rhs`.
    pub fn sub(self, rhs: Self) -> (r: Self)
        ensures
            r@ == (self@ - rhs@) % (P as int),
            r@ < P,
    {
        proof {
            use_type_invariant(&self);
            use_type_invariant(&rhs);
        }
        if self.0 < rhs.0 {
            proof {
                lemma_fundamental_div_mod_converse(
                    self.0 - rhs.0,
                    P as int,
                    -1,
                    self.0 + P - rhs.0,
                );
            }
            Fp(self.0 + P - rhs.0)
        } else {
            proof {
                lemma_small_mod((self.0 - rhs.0) as nat, P as nat);
            }
            Fp(self.0 - rhs.0)
        }
    }

    /// `-self`.
    pub fn neg(self) -> (r: Self)
        ensures
            r@ == (0 - self@) % (P as int),
            r@ < P,
    {
        proof {
            use_type_invariant(&self);
        }
        if self.0 > 0 {
            proof {
                lemma_fundamental_div_mod_converse(0 - self.0, P as int, -1, P - self.0);
            }
            Fp(P - self.0)
        } else {
            proof {
                lemma_small_mod(0, P as nat);
            }
            self
        }
    }

    /// `self * rhs`.
    pub fn mul(self, rhs: Self) -> (r: Self)
        ensures
            r@ == (self@ * rhs@) % (P as nat),
            r@ < P,
    {
        proof {
            use_type_invariant(&self);
            use_type_invariant(&rhs);
            let (a, b) = (self.0, rhs.0);
            assert((a as int) * (b as int) < 0x4000_0000_0000_0000) by (nonlinear_arith)
                requires
                    a < 0x8000_0000,
                    b < 0x8000_0000,
            ;
        }
        Fp((self.0 as u64 * rhs.0 as u64 % P as u64) as u32)
    }

    /// The power `self^exp`, by binary exponentiation.
    pub fn pow(self, exp: u64) -> (r: Self)
        ensures
            r@ == pow(self@ as int, exp as nat) % (P as int),
            r@ < P,
    {
        proof {
            use_type_invariant(&self);
        }
        let mut base = self;
        let mut e = exp;
        let mut x = Fp::<P>(1);
        proof {
            lemma_small_mod(1, P as nat);
            lemma_mul_basics(pow(self@ as int, exp as nat));
            lemma_pow_mod_noop(self@ as int, exp as nat, P as int);
            lemma_small_mod(self@, P as nat);
        }
        while e > 0
            invariant
                fp_modulus(P as nat),
                x@ < P,
                base@ < P,
                (x@ * pow(base@ as int, e as nat)) % (P as int) == pow(self@ as int, exp as nat) % (
                P as int),
            decreases e,
        {
            proof {
                assert(e & 1 == e % 2) by (bit_vector);
                assert(e >> 1 == e / 2) by (bit_vector);
                lemma_pow_mod_step(x@ as int, base@ as int, e as nat, P as int);
                lemma_mul_basics(x@ as int);
                lemma_small_mod(x@, P as nat);
            }
            if e & 1 == 1 {
                x = x.mul(base);
            }
            base = base.mul(base);
            e = e >> 1;
        }
        proof {
            lemma_pow0(base@ as int);
            lemma_mul_basics(x@ as int);
            lemma_small_mod(x@, P as nat);
        }
        x
    }

    /// The inverse `self^{P-2}` of a nonzero `self`: `self * r = 1`, by Fermat's little theorem.
    pub fn inv(self) -> (r: Self)
        requires
            self@ != 0,
        ensures
            r@ == pow(self@ as int, (P - 2) as nat) % (P as int),
            r@ < P,
            (self@ * r@) % (P as nat) == 1,
    {
        proof {
            use_type_invariant(&self);
            lemma_small_mod(self@, P as nat);
            lemma_fermat_inverse(P as nat, self@);
        }
        self.pow(P as u64 - 2)
    }

    /// `self / rhs`, as `self * rhs^{-1}`.
    pub fn div(self, rhs: Self) -> (r: Self)
        requires
            rhs@ != 0,
        ensures
            r@ == (self@ * (pow(rhs@ as int, (P - 2) as nat) % (P as int))) % (P as int),
            r@ < P,
    {
        self.mul(rhs.inv())
    }
}

} // verus!

verus! {

/// The field `Z/PZ` as the structure whose values are the elements [`Fp`].
#[derive(Clone, Copy)]
pub struct FpField<const P: u32> {
    private: (),
}

impl<const P: u32> FpField<P> {
    #[verifier::type_invariant]
    spec fn wf(self) -> bool {
        fp_modulus(P as nat)
    }

    /// The field `Z/PZ`, for a prime `P < 2^31`.
    pub fn new() -> (f: Self)
        requires
            fp_modulus(P as nat),
    {
        FpField { private: () }
    }

    /// The modulus of a field is a prime below `2^31`.
    pub fn modulus_is_prime(&self)
        ensures
            fp_modulus(P as nat),
    {
        proof {
            use_type_invariant(self);
        }
    }
}

impl<const P: u32> Semiring for FpField<P> {
    type Value = Fp<P>;

    open spec fn valid(&self, a: Fp<P>) -> bool {
        fp_modulus(P as nat) && a@ < P
    }

    open spec fn szero(&self) -> Fp<P> {
        Fp::<P>::from_residue(0)
    }

    open spec fn sone(&self) -> Fp<P> {
        Fp::<P>::from_residue(1)
    }

    open spec fn sadd(&self, a: Fp<P>, b: Fp<P>) -> Fp<P> {
        Fp::<P>::from_residue((a@ + b@) % (P as nat))
    }

    open spec fn smul(&self, a: Fp<P>, b: Fp<P>) -> Fp<P> {
        Fp::<P>::from_residue((a@ * b@) % (P as nat))
    }

    fn zero(&self) -> (r: Fp<P>) {
        proof {
            use_type_invariant(self);
        }
        Fp(0)
    }

    fn one(&self) -> (r: Fp<P>) {
        proof {
            use_type_invariant(self);
        }
        Fp(1)
    }

    fn add(&self, a: &Fp<P>, b: &Fp<P>) -> (r: Fp<P>) {
        a.add(*b)
    }

    fn mul(&self, a: &Fp<P>, b: &Fp<P>) -> (r: Fp<P>) {
        a.mul(*b)
    }

    proof fn lemma_closed(&self, a: Fp<P>, b: Fp<P>) {
        lemma_mod_bound((a@ + b@) as int, P as int);
        lemma_mod_bound((a@ * b@) as int, P as int);
    }

    proof fn lemma_add_assoc(&self, a: Fp<P>, b: Fp<P>, c: Fp<P>) {
        let p = P as int;
        lemma_mod_bound((a@ + b@) as int, p);
        lemma_mod_bound((b@ + c@) as int, p);
        lemma_add_mod_noop_right(a@ as int, (b@ + c@) as int, p);
        lemma_add_mod_noop((a@ + b@) as int, c@ as int, p);
        lemma_small_mod(c@, P as nat);
        lemma_mod_twice((a@ + b@) as int, p);
    }

    proof fn lemma_add_comm(&self, a: Fp<P>, b: Fp<P>) {
    }

    proof fn lemma_add_zero(&self, a: Fp<P>) {
        lemma_small_mod(a@, P as nat);
    }

    proof fn lemma_mul_assoc(&self, a: Fp<P>, b: Fp<P>, c: Fp<P>) {
        let p = P as int;
        lemma_mod_bound((a@ * b@) as int, p);
        lemma_mod_bound((b@ * c@) as int, p);
        lemma_mul_mod_noop_left((a@ * b@) as int, c@ as int, p);
        lemma_mul_mod_noop_right(a@ as int, (b@ * c@) as int, p);
        lemma_mul_is_associative(a@ as int, b@ as int, c@ as int);
    }

    proof fn lemma_mul_one(&self, a: Fp<P>) {
        lemma_mul_basics(a@ as int);
        lemma_small_mod(a@, P as nat);
        lemma_small_mod(1, P as nat);
    }

    proof fn lemma_mul_zero(&self, a: Fp<P>) {
        lemma_mul_basics(a@ as int);
        lemma_small_mod(0, P as nat);
    }

    proof fn lemma_distrib(&self, a: Fp<P>, b: Fp<P>, c: Fp<P>) {
        let p = P as int;
        lemma_mod_bound((b@ + c@) as int, p);
        lemma_mod_bound((a@ * b@) as int, p);
        lemma_mod_bound((a@ * c@) as int, p);
        lemma_mod_bound((b@ * a@) as int, p);
        lemma_mod_bound((c@ * a@) as int, p);
        lemma_mul_mod_noop_right(a@ as int, (b@ + c@) as int, p);
        lemma_mul_mod_noop_left((b@ + c@) as int, a@ as int, p);
        lemma_mul_is_distributive_add(a@ as int, b@ as int, c@ as int);
        lemma_mul_is_distributive_add_other_way(a@ as int, b@ as int, c@ as int);
        lemma_add_mod_noop((a@ * b@) as int, (a@ * c@) as int, p);
        lemma_add_mod_noop((b@ * a@) as int, (c@ * a@) as int, p);
    }
}

impl<const P: u32> Field for FpField<P> {
    open spec fn sinv(&self, a: Fp<P>) -> Fp<P> {
        Fp::<P>::from_residue((pow(a@ as int, (P - 2) as nat) % (P as int)) as nat)
    }

    fn inv(&self, a: &Fp<P>) -> (r: Fp<P>) {
        let r = a.inv();
        proof {
            Fp::<P>::lemma_residue(r@);
            Fp::<P>::lemma_view_eq(r, self.sinv(*a));
            Fp::<P>::lemma_residue(1);
            lemma_small_mod(1, P as nat);
            Fp::<P>::lemma_view_eq(self.smul(*a, r), self.sone());
        }
        r
    }

    proof fn lemma_mul_comm(&self, a: Fp<P>, b: Fp<P>) {
        lemma_mul_is_commutative(a@ as int, b@ as int);
    }

    proof fn lemma_inv(&self, a: Fp<P>) {
        let p = P as int;
        Fp::<P>::lemma_residue(0);
        Fp::<P>::lemma_view_eq(a, self.szero());
        lemma_small_mod(a@, P as nat);
        lemma_fermat_inverse(P as nat, a@);
        let e = pow(a@ as int, (P - 2) as nat);
        lemma_mod_bound(e, p);
        Fp::<P>::lemma_residue((e % p) as nat);
        Fp::<P>::lemma_residue(1);
        lemma_small_mod(1, P as nat);
        Fp::<P>::lemma_view_eq(self.smul(a, self.sinv(a)), self.sone());
    }

    proof fn lemma_one_ne_zero(&self) {
        Fp::<P>::lemma_residue(0);
    }
}

impl<const P: u32> Ring for FpField<P> {
    open spec fn sneg(&self, a: Fp<P>) -> Fp<P> {
        Fp::<P>::from_residue(((0 - a@) % (P as int)) as nat)
    }

    fn neg(&self, a: &Fp<P>) -> (r: Fp<P>) {
        a.neg()
    }

    proof fn lemma_add_neg(&self, a: Fp<P>) {
        let p = P as int;
        lemma_mod_bound(0 - a@, p);
        lemma_add_mod_noop_right(a@ as int, 0 - a@, p);
        lemma_small_mod(0, P as nat);
        Fp::<P>::lemma_residue(((0 - a@) % p) as nat);
    }
}

} // verus!
