use crate::num::divisibility::lemma_divides_multiple;
use vstd::arithmetic::div_mod::*;
use vstd::arithmetic::mul::*;
use vstd::prelude::*;

verus! {

/// The greatest common divisor, as defined by the Euclidean recursion:
/// `gcd(a, 0) = a` and `gcd(a, b) = gcd(b, a mod b)` for `b != 0`.
pub open spec fn spec_gcd(a: nat, b: nat) -> nat
    decreases b,
{
    if b == 0 {
        a
    } else {
        spec_gcd(b, a % b)
    }
}

/// The greatest common divisor by the Euclidean algorithm; `gcd(0, 0) = 0`.
pub fn gcd(a: u64, b: u64) -> (g: u64)
    ensures
        g == spec_gcd(a as nat, b as nat),
{
    let ghost (a0, b0) = (a as nat, b as nat);
    let mut a = a;
    let mut b = b;
    while b != 0
        invariant
            spec_gcd(a as nat, b as nat) == spec_gcd(a0, b0),
        decreases b,
    {
        let r = a % b;
        a = b;
        b = r;
    }
    a
}

/// `gcd(a, b)` divides both `a` and `b` (or is `0`, when both are).
pub proof fn lemma_gcd_divides_both(a: nat, b: nat)
    ensures
        spec_gcd(a, b) == 0 <==> (a == 0 && b == 0),
        spec_gcd(a, b) > 0 ==> a % spec_gcd(a, b) == 0 && b % spec_gcd(a, b) == 0,
    decreases b,
{
    if b == 0 {
        if a > 0 {
            lemma_mod_self_0(a as int);
            lemma_small_mod(0, a);
        }
    } else {
        let r = a % b;
        lemma_gcd_divides_both(b, r);
        let g = spec_gcd(a, b);
        lemma_fundamental_div_mod(a as int, b as int);
        // a = b (a / b) + r, and g divides b and r.
        let q = a / b;
        let kb = b / g;
        let kr = r / g;
        lemma_fundamental_div_mod(b as int, g as int);
        lemma_fundamental_div_mod(r as int, g as int);
        assert(a == g * (kb * q + kr)) by {
            lemma_mul_is_associative(g as int, kb as int, q as int);
            lemma_mul_is_distributive_add(g as int, (kb * q) as int, kr as int);
        }
        lemma_divides_multiple(g, (kb * q + kr) as nat);
    }
}

/// Every common divisor of `a` and `b` divides `gcd(a, b)`.
pub proof fn lemma_common_divisor_divides_gcd(a: nat, b: nat, d: nat)
    requires
        d > 0,
        a % d == 0,
        b % d == 0,
    ensures
        spec_gcd(a, b) % d == 0,
    decreases b,
{
    if b > 0 {
        let q = a / b;
        let r = a % b;
        lemma_fundamental_div_mod(a as int, b as int);
        lemma_fundamental_div_mod(a as int, d as int);
        lemma_fundamental_div_mod(b as int, d as int);
        let ka = a / d;
        let kb = b / d;
        assert(r == d * (ka - kb * q)) by {
            lemma_mul_is_associative(d as int, kb as int, q as int);
            lemma_mul_is_distributive_sub(d as int, ka as int, (kb * q) as int);
        }
        lemma_mod_multiples_basic(ka - kb * q, d as int);
        lemma_mul_is_commutative(d as int, ka - kb * q);
        lemma_common_divisor_divides_gcd(b, r, d);
    }
}

/// The least common multiple: `lcm(0, 0) = 0` and `lcm(a, b) * gcd(a, b) = a * b`, computed as
/// `a / gcd(a, b) * b`.
pub fn lcm(a: u64, b: u64) -> (l: u64)
    requires
        a == 0 && b == 0 || ((a as nat) / spec_gcd(a as nat, b as nat)) * b <= u64::MAX,
    ensures
        l * spec_gcd(a as nat, b as nat) == a * b,
        spec_gcd(a as nat, b as nat) == 0 ==> l == 0,
        spec_gcd(a as nat, b as nat) > 0 ==> l == ((a as nat) / spec_gcd(a as nat, b as nat)) * b,
{
    let g = gcd(a, b);
    proof {
        lemma_gcd_divides_both(a as nat, b as nat);
    }
    if g == 0 {
        return 0;
    }
    proof {
        lemma_fundamental_div_mod(a as int, g as int);
        lemma_mul_is_associative((a / g) as int, b as int, g as int);
        lemma_mul_is_commutative(b as int, g as int);
        lemma_mul_is_associative((a / g) as int, g as int, b as int);
        lemma_mul_is_commutative((a / g) as int, g as int);
    }
    a / g * b
}

} // verus!
