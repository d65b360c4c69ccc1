//! Roots of unity in the prime field `Z/PZ`: the powers of its least primitive root.
use crate::algebra::{spow, Field, Ring, RootOfUnity, Semiring};
use crate::num::divisibility::{divides, spec_is_prime};
use crate::num::factorial::nat_elem;
use crate::num::fermat::lemma_fermat_inverse;
use crate::num::fp::{fp_modulus, Fp, FpField};
use vstd::arithmetic::div_mod::*;
use vstd::arithmetic::mul::*;
use vstd::arithmetic::power::*;
use vstd::prelude::*;

verus! {

/// `g` has order `p - 1` modulo `p`: no power `g^d` with `d` a proper divisor of `p - 1` is one.
/// For a prime `p` this makes `g` a primitive root.
pub open spec fn is_generator(p: nat, g: nat) -> bool {
    forall|d: nat| 1 <= d < p - 1 && #[trigger] divides(d, (p - 1) as nat) ==> pow(g as int, d) % (p as int) != 1
}

/// The least `h >= g` below `p` that is a generator, or `0` if there is none.
pub open spec fn least_generator(p: nat, g: nat) -> nat
    decreases p - g,
{
    if g >= p {
        0
    } else if is_generator(p, g) {
        g
    } else {
        least_generator(p, g + 1)
    }
}

/// The chosen `n`-th root of unity of `Z/PZ` for a prime `p`: `r^{(p - 1)/n}` for the least
/// primitive root `r`, where `n` divides `p - 1`.
pub open spec fn fp_root(p: nat, n: nat) -> Option<nat> {
    let g = least_generator(p, 2);
    if fp_modulus(p) && n >= 1 && (p - 1) as nat % n == 0 && g != 0 {
        Some((pow(g as int, ((p - 1) as nat / n) as nat) % (p as int)) as nat)
    } else {
        None
    }
}

/// Whether `g`, `2 <= g < P`, is a generator, checking the divisors `d` of `P - 1` and their
/// cofactors for `d^2 <= P - 1`.
fn generator_check<const P: u32>(g: u32) -> (b: bool)
    requires
        fp_modulus(P as nat),
        2 <= g < P,
    ensures
        b == is_generator(P as nat, g as nat),
{
    let m: u64 = (P - 1) as u64;
    let x = Fp::<P>::new(g);
    proof {
        lemma_small_mod(g as nat, P as nat);
    }
    let mut d: u64 = 1;
    while d <= m / d
        invariant
            1 <= d <= m + 1,
            m == P - 1,
            m < 0x8000_0000,
            fp_modulus(P as nat),
            2 <= g < P,
            x@ == g,
            forall|e: nat|
                1 <= e < d && #[trigger] divides(e, m as nat) ==> (e < m ==> pow(g as int, e) % (P as int) != 1) && (
                (m as nat) / e < m ==> pow(g as int, (m as nat) / e) % (P as int) != 1),
        decreases m + 1 - d,
    {
        if m % d == 0 {
            if d < m && x.pow(d).val() == 1 {
                proof {
                    let dn = d as nat;
                    assert(m as nat == ((P as nat) - 1) as nat);
                    assert(divides(dn, ((P as nat) - 1) as nat));
                    assert(1 <= dn < (P as nat) - 1);
                    assert(pow(g as int, dn) % (P as int) == 1);
                    assert(!is_generator(P as nat, g as nat));
                }
                return false;
            }
            let e = m / d;
            if e < m && x.pow(e).val() == 1 {
                proof {
                    lemma_fundamental_div_mod(m as int, d as int);
                    assert(m as int == d * e);
                    assert(e > 0) by (nonlinear_arith)
                        requires
                            m as int == d * e,
                            m >= 1,
                    ;
                    lemma_mod_multiples_basic(d as int, e as int);
                    let en = e as nat;
                    assert(m as nat == ((P as nat) - 1) as nat);
                    assert(divides(en, ((P as nat) - 1) as nat));
                    assert(1 <= en < (P as nat) - 1);
                    assert(pow(g as int, en) % (P as int) == 1);
                    assert(!is_generator(P as nat, g as nat));
                }
                return false;
            }
        }
        d = d + 1;
    }
    proof {
        lemma_fundamental_div_mod(m as int, d as int);
        assert(d * d > m) by (nonlinear_arith)
            requires
                d > m / d,
                m == d * (m / d) + m % d,
                m % d < d,
                d >= 1,
        ;
        assert forall|e: nat| 1 <= e < m && #[trigger] divides(e, m as nat) implies pow(g as int, e) % (P as int) != 1 by {
            if e >= d {
                let c = (m as nat) / e;
                lemma_fundamental_div_mod(m as int, e as int);
                assert(m as int == e * c);
                assert(c < d) by (nonlinear_arith)
                    requires
                        m as int == e * c,
                        e >= d,
                        d * d > m,
                        d >= 1,
                        c >= 0,
                ;
                assert(c >= 1) by (nonlinear_arith)
                    requires
                        m as int == e * c,
                        m >= 1,
                        c >= 0,
                ;
                lemma_mod_multiples_basic(e as int, c as int);
                lemma_mul_is_commutative(e as int, c as int);
                assert(divides(c, m as nat));
                lemma_div_multiples_vanish(e as int, c as int);
                assert((m as nat) / c == e);
            }
        }
    }
    true
}

/// The least primitive root of `Z/PZ`, or `0` if no `g < P` passes the check.
fn least_generator_exec<const P: u32>() -> (g: u32)
    requires
        fp_modulus(P as nat),
    ensures
        g == least_generator(P as nat, 2),
{
    let mut g: u32 = 2;
    while g < P
        invariant
            2 <= g <= P,
            fp_modulus(P as nat),
            least_generator(P as nat, 2) == least_generator(P as nat, g as nat),
        decreases P - g,
    {
        if generator_check::<P>(g) {
            return g;
        }
        g = g + 1;
    }
    g = 0;
    g
}

/// Powers in the field are powers of the residues.
proof fn lemma_spow_fp<const P: u32>(f: FpField<P>, x: Fp<P>, k: nat)
    requires
        fp_modulus(P as nat),
        x@ < P,
    ensures
        spow(f, x, k)@ == pow(x@ as int, k) % (P as int),
    decreases k,
{
    reveal(pow);
    if k == 0 {
        Fp::<P>::lemma_residue(1);
        lemma_small_mod(1, P as nat);
    } else {
        lemma_spow_fp(f, x, (k - 1) as nat);
        let a = pow(x@ as int, (k - 1) as nat);
        lemma_mod_bound(a, P as int);
        Fp::<P>::lemma_residue(((a % (P as int)) * x@) as nat % (P as nat));
        lemma_mul_mod_noop_left(a, x@ as int, P as int);
        lemma_mul_is_commutative(a, x@ as int);
    }
}

/// The image of `k` is the residue of `k`.
proof fn lemma_nat_elem_fp<const P: u32>(f: FpField<P>, k: nat)
    requires
        fp_modulus(P as nat),
    ensures
        nat_elem(f, k)@ == k % (P as nat),
    decreases k,
{
    if k == 0 {
        Fp::<P>::lemma_residue(0);
    } else {
        lemma_nat_elem_fp(f, (k - 1) as nat);
        Fp::<P>::lemma_residue(1);
        lemma_add_mod_noop((k - 1) as int, 1, P as int);
        lemma_small_mod(1, P as nat);
        lemma_mod_bound((k - 1) as int, P as int);
        Fp::<P>::lemma_residue(((((k - 1) as nat % (P as nat)) + 1) % (P as nat)) as nat);
    }
}

impl<const P: u32> RootOfUnity for FpField<P> {
    open spec fn sroot(&self, n: nat) -> Option<Fp<P>> {
        match fp_root(P as nat, n) {
            Some(r) => Some(Fp::<P>::from_residue(r)),
            None => None,
        }
    }

    fn root_of_unity(&self, n: usize) -> (r: Option<Fp<P>>) {
        self.modulus_is_prime();
        let m: u32 = P - 1;
        if n == 0 || (m as usize) % n != 0 {
            return None;
        }
        let g = least_generator_exec::<P>();
        if g == 0 {
            return None;
        }
        proof {
            lemma_least_generator_range(P as nat, 2);
        }
        let e = (m as usize) / n;
        let w = Fp::<P>::new(g).pow(e as u64);
        proof {
            lemma_small_mod(g as nat, P as nat);
            Fp::<P>::lemma_view_eq(w, Fp::<P>::from_residue(w@));
            Fp::<P>::lemma_residue(w@);
        }
        Some(w)
    }

    proof fn lemma_root(&self, n: nat) {
        if let Some(r) = fp_root(P as nat, n) {
            let p = P as int;
            let g = least_generator(P as nat, 2);
            let e = ((P - 1) as nat / n) as nat;
            assert(fp_modulus(P as nat) && n >= 1 && (P - 1) as nat % n == 0 && g != 0);
            lemma_least_generator_range(P as nat, 2);
            assert(2 <= g < P);
            let a = pow(g as int, e);
            assert(r == a % p);
            lemma_mod_bound(a, p);
            let w = Fp::<P>::from_residue(r);
            Fp::<P>::lemma_residue(r);
            assert(self.sroot(n) == Some(w));
            assert(self.valid(w));
            lemma_spow_fp(*self, w, n);
            assert(spow(*self, w, n)@ == pow(r as int, n) % p);
            lemma_pow_mod_noop(a, n, p);
            assert(pow(r as int, n) % p == pow(a, n) % p);
            lemma_pow_multiplies(g as int, e, n);
            lemma_fundamental_div_mod((P - 1) as int, n as int);
            assert(e * n == P - 1) by {
                lemma_mul_is_commutative(e as int, n as int);
            }
            assert(pow(a, n) == pow(g as int, (P - 1) as nat));
            lemma_small_mod(g as nat, P as nat);
            lemma_fermat_inverse(P as nat, g as nat);
            let b = pow(g as int, (P - 2) as nat);
            assert(pow(g as int, (P - 1) as nat) == g * b) by {
                reveal(pow);
            }
            lemma_mul_mod_noop_right(g as int, b, p);
            assert(pow(g as int, (P - 1) as nat) % p == 1);
            assert(spow(*self, w, n)@ == 1);
            Fp::<P>::lemma_residue(1);
            Fp::<P>::lemma_view_eq(spow(*self, w, n), self.sone());
            assert(spow(*self, w, n) == self.sone());
            Fp::<P>::lemma_residue(0);
            Fp::<P>::lemma_view_eq(w, self.szero());
            assert forall|k: nat| 1 <= k < n implies #[trigger] spow(*self, w, k) != self.sone() by {
                lemma_spow_fp(*self, w, k);
                lemma_pow_mod_noop(a, k, p);
                lemma_pow_multiplies(g as int, e, k);
                assert(e >= 1) by (nonlinear_arith)
                    requires
                        e * n == P - 1,
                        P >= 2,
                ;
                assert(1 <= e * k < P - 1) by (nonlinear_arith)
                    requires
                        e * n == P - 1,
                        1 <= k < n,
                        e >= 1,
                ;
                if spow(*self, w, k) == self.sone() {
                    assert(pow(g as int, e * k) % p == 1);
                    lemma_generator_order(P as nat, g, e * k);
                    lemma_small_mod(e * k, (P - 1) as nat);
                }
            }
            lemma_nat_elem_fp(*self, n);
            assert(n <= P - 1) by {
                assert(e >= 1) by (nonlinear_arith)
                    requires
                        e * n == P - 1,
                        P >= 2,
                ;
                assert(n <= e * n) by (nonlinear_arith)
                    requires
                        e >= 1,
                ;
            }
            lemma_small_mod(n, P as nat);
            Fp::<P>::lemma_residue(n);
            Fp::<P>::lemma_view_eq(nat_elem(*self, n), self.szero());
            if w == self.szero() {
                assert(r == 0);
                lemma_pow_zero_base(n);
                lemma_small_mod(0, P as nat);
                assert(false);
            }
        }
    }
}

/// `g^{p - 1} = 1` modulo a prime `p` for `g` not divisible by `p`.
proof fn lemma_fermat_unit(p: nat, g: nat)
    requires
        spec_is_prime(p),
        g % p != 0,
    ensures
        pow(g as int, (p - 1) as nat) % (p as int) == 1,
{
    lemma_fermat_inverse(p, g);
    let b = pow(g as int, (p - 2) as nat);
    assert(pow(g as int, (p - 1) as nat) == g * b) by {
        reveal(pow);
    }
    lemma_mul_mod_noop_right(g as int, b, p as int);
}

/// The least `o` in `[j, p)` with `g^o = 1` modulo `p`, or `p` if there is none.
spec fn first_unit_power(p: nat, g: nat, j: nat) -> nat
    decreases p - j,
{
    if j >= p {
        p
    } else if pow(g as int, j) % (p as int) == 1 {
        j
    } else {
        first_unit_power(p, g, j + 1)
    }
}

proof fn lemma_first_unit_power(p: nat, g: nat, j: nat)
    requires
        j <= p,
    ensures
        j <= first_unit_power(p, g, j) <= p,
        first_unit_power(p, g, j) < p ==> pow(g as int, first_unit_power(p, g, j)) % (p as int) == 1,
        forall|i: nat| j <= i < first_unit_power(p, g, j) ==> #[trigger] pow(g as int, i) % (p as int) != 1,
    decreases p - j,
{
    if j < p && pow(g as int, j) % (p as int) != 1 {
        lemma_first_unit_power(p, g, j + 1);
    }
}

/// Every exponent `t >= 1` with `g^t = 1` modulo `p` is a multiple of `p - 1`, for a generator `g`
/// of a prime `p`.
proof fn lemma_generator_order(p: nat, g: nat, t: nat)
    requires
        spec_is_prime(p),
        2 <= g < p,
        is_generator(p, g),
        t >= 1,
        pow(g as int, t) % (p as int) == 1,
    ensures
        t % ((p - 1) as nat) == 0,
{
    let pi = p as int;
    lemma_small_mod(g, p);
    lemma_fermat_unit(p, g);
    lemma_first_unit_power(p, g, 1);
    let o = first_unit_power(p, g, 1);
    if o > p - 1 {
        assert(pow(g as int, (p - 1) as nat) % pi != 1);
    }
    assert(1 <= o <= p - 1);
    assert(pow(g as int, o) % pi == 1);
    assert forall|u: nat| u >= 1 && #[trigger] (pow(g as int, u) % pi) == 1 implies u % o == 0 by {
        let q = u / o;
        let r = u % o;
        lemma_fundamental_div_mod(u as int, o as int);
        assert(u == o * q + r);
        lemma_pow_adds(g as int, o * q, r);
        lemma_pow_multiplies(g as int, o, q);
        let a = pow(g as int, o);
        lemma_pow_mod_noop(a, q, pi);
        lemma1_pow(q);
        lemma_small_mod(1, p);
        assert(pow(a, q) % pi == 1);
        lemma_mul_mod_noop(pow(a, q), pow(g as int, r), pi);
        lemma_mod_bound(pow(g as int, r), pi);
        lemma_small_mod((pow(g as int, r) % pi) as nat, p);
        assert(pow(g as int, r) % pi == 1);
        if r >= 1 {
            assert(pow(g as int, r) % pi != 1);
        }
    }
    assert(((p - 1) as nat) % o == 0);
    if o < p - 1 {
        assert(divides(o, (p - 1) as nat));
        assert(pow(g as int, o) % pi != 1);
    }
    assert(t % o == 0);
}

proof fn lemma_pow_zero_base(n: nat)
    requires
        n >= 1,
    ensures
        pow(0, n) == 0,
{
    reveal(pow);
    lemma_mul_basics(pow(0, (n - 1) as nat));
}

/// A found generator lies in `[2, p)`.
proof fn lemma_least_generator_range(p: nat, g: nat)
    requires
        g >= 2,
        least_generator(p, g) != 0,
    ensures
        2 <= least_generator(p, g) < p,
        is_generator(p, least_generator(p, g)),
    decreases p - g,
{
    if g < p && !is_generator(p, g) {
        lemma_least_generator_range(p, g + 1);
    }
}

} // verus!
