//! The symmetric difference convolution as a sum over all pairs of sets.
use crate::algebra::{lemma_mul_neg, lemma_neg_unique, spow, Field, Ring, Semiring};
use crate::linear::{
    fsum, lemma_fsum_ext, lemma_fsum_mul_left, lemma_fsum_mul_right, lemma_fsum_single, lemma_fsum_swap,
    lemma_fsum_valid,
};
use crate::set_function::superset::{all_valid, has_bit, lemma_bit_other, lemma_bit_set, pointwise};
use crate::set_function::walsh_sum::{
    char_sign, lemma_bits_determine, lemma_neg_mul, lemma_sign_valid, lemma_walsh_hadamard_closed, walsh_sum,
};
use crate::set_function::xor::{hadamard_seq, lemma_inverse_hadamard, lemma_spow_valid, two};
use vstd::arithmetic::power2::pow2;
use vstd::prelude::*;

verus! {

/// `V = T △ U` on the bits below `n`.
pub open spec fn is_symdiff(t: int, u: int, v: int, n: nat) -> bool {
    forall|b: nat| b < n ==> #[trigger] has_bit(v, b) == (has_bit(t, b) != has_bit(u, b))
}

/// The terms `U -> [T △ U = V] f(T) g(U)`.
pub open spec fn symdiff_term<R: Semiring>(ring: R, f: Seq<R::Value>, g: Seq<R::Value>, v: int, t: int, n: nat) -> spec_fn(int) -> R::Value {
    |u: int| if is_symdiff(t, u, v, n) { ring.smul(f[t], g[u]) } else { ring.szero() }
}

/// `Σ_{T △ U = V} f(T) g(U)`, over `T, U < 2^n`.
pub open spec fn symdiff_sum<R: Semiring>(ring: R, f: Seq<R::Value>, g: Seq<R::Value>, v: int, n: nat) -> R::Value {
    fsum(ring, |t: int| fsum(ring, symdiff_term(ring, f, g, v, t, n), pow2(n) as int), pow2(n) as int)
}

/// The set of the bits below `k` in exactly one of `t` and `u`.
spec fn differing_bits(t: int, u: int, k: nat) -> int
    decreases k,
{
    if k == 0 {
        0
    } else {
        let b = (k - 1) as nat;
        differing_bits(t, u, b) + if has_bit(t, b) != has_bit(u, b) {
            pow2(b) as int
        } else {
            0
        }
    }
}

/// A number below `2^b` has no bit at `b` or above.
proof fn lemma_no_high_bit(x: int, b: nat, c: nat)
    requires
        0 <= x < pow2(b),
        b <= c,
    ensures
        !has_bit(x, c),
{
    vstd::arithmetic::power2::lemma_pow2_pos(c);
    if b < c {
        vstd::arithmetic::power2::lemma_pow2_strictly_increases(b, c);
    }
    vstd::arithmetic::div_mod::lemma_basic_div(x, pow2(c) as int);
}

proof fn lemma_differing_bits(t: int, u: int, k: nat)
    ensures
        0 <= differing_bits(t, u, k) < pow2(k),
        is_symdiff(t, u, differing_bits(t, u, k), k),
    decreases k,
{
    vstd::arithmetic::power2::lemma_pow2_pos(k);
    if k == 0 {
        vstd::arithmetic::power2::lemma2_to64();
    } else {
        let b = (k - 1) as nat;
        lemma_differing_bits(t, u, b);
        let x = differing_bits(t, u, b);
        vstd::arithmetic::power2::lemma_pow2_unfold(k);
        if has_bit(t, b) != has_bit(u, b) {
            lemma_no_high_bit(x, b, b);
            lemma_bit_set(x, b);
            assert forall|c: nat| c < k implies #[trigger] has_bit(x + pow2(b), c) == (has_bit(t, c) != has_bit(u, c)) by {
                if c != b {
                    lemma_bit_other(x, b, c);
                }
            }
        } else {
            assert forall|c: nat| c < k implies #[trigger] has_bit(x, c) == (has_bit(t, c) != has_bit(u, c)) by {
                if c == b {
                    lemma_no_high_bit(x, b, b);
                }
            }
        }
    }
}

/// `(-a)(-b) = a b`.
proof fn lemma_neg_neg_mul<R: Ring>(ring: R, a: R::Value, b: R::Value)
    requires
        ring.valid(a),
        ring.valid(b),
    ensures
        ring.smul(ring.sneg(a), ring.sneg(b)) == ring.smul(a, b),
{
    ring.lemma_add_neg(a);
    ring.lemma_add_neg(b);
    lemma_neg_mul(ring, a, ring.sneg(b));
    lemma_mul_neg(ring, a, b);
    let ab = ring.smul(a, b);
    ring.lemma_closed(a, b);
    ring.lemma_add_neg(ab);
    ring.lemma_add_comm(ab, ring.sneg(ab));
    lemma_neg_unique(ring, ring.sneg(ab), ab);
}

/// The characters are multiplicative: `(-1)^{|S ∩ (T △ U)|} = (-1)^{|S ∩ T|} (-1)^{|S ∩ U|}`.
proof fn lemma_sign_mul<R: Ring>(ring: R, s: int, t: int, u: int, v: int, k: nat)
    requires
        ring.valid(ring.sone()),
        forall|b: nat| b < k ==> #[trigger] has_bit(v, b) == (has_bit(t, b) != has_bit(u, b)),
    ensures
        char_sign(ring, s, v, k) == ring.smul(char_sign(ring, s, t, k), char_sign(ring, s, u, k)),
    decreases k,
{
    if k == 0 {
        ring.lemma_mul_one(ring.sone());
    } else {
        let b = (k - 1) as nat;
        lemma_sign_mul(ring, s, t, u, v, b);
        let ct = char_sign(ring, s, t, b);
        let cu = char_sign(ring, s, u, b);
        lemma_sign_valid(ring, s, t, b);
        lemma_sign_valid(ring, s, u, b);
        ring.lemma_closed(ct, cu);
        assert(has_bit(v, b) == (has_bit(t, b) != has_bit(u, b)));
        if has_bit(s, b) {
            if has_bit(t, b) && has_bit(u, b) {
                lemma_neg_neg_mul(ring, ct, cu);
            } else if has_bit(t, b) {
                lemma_neg_mul(ring, ct, cu);
            } else if has_bit(u, b) {
                lemma_mul_neg(ring, ct, cu);
            }
        }
    }
}

/// `(a b)(c d) = (a c)(b d)` in a field.
proof fn lemma_mul_swap<F: Field>(ring: F, a: F::Value, b: F::Value, c: F::Value, d: F::Value)
    requires
        ring.valid(a),
        ring.valid(b),
        ring.valid(c),
        ring.valid(d),
    ensures
        ring.smul(ring.smul(a, b), ring.smul(c, d)) == ring.smul(ring.smul(a, c), ring.smul(b, d)),
{
    ring.lemma_closed(a, b);
    ring.lemma_closed(c, d);
    ring.lemma_closed(b, c);
    ring.lemma_closed(c, b);
    ring.lemma_closed(b, d);
    ring.lemma_mul_assoc(a, b, ring.smul(c, d));
    ring.lemma_mul_assoc(b, c, d);
    ring.lemma_mul_comm(b, c);
    ring.lemma_mul_assoc(c, b, d);
    ring.lemma_mul_assoc(a, c, ring.smul(b, d));
}

/// The character sum of the symmetric difference sums is the product of those of `f` and `g`.
proof fn lemma_walsh_of_symdiff_sum<F: Field>(ring: F, f: Seq<F::Value>, g: Seq<F::Value>, s: int, n: nat)
    requires
        f.len() == pow2(n),
        g.len() == pow2(n),
        all_valid(ring, f),
        all_valid(ring, g),
    ensures
        walsh_sum(ring, Seq::new(pow2(n), |v: int| symdiff_sum(ring, f, g, v, n)), s, n) == ring.smul(
            walsh_sum(ring, f, s, n),
            walsh_sum(ring, g, s, n),
        ),
{
    let len = pow2(n) as int;
    vstd::arithmetic::power2::lemma_pow2_pos(n);
    ring.lemma_closed(f[0], g[0]);
    let c = Seq::new(pow2(n), |v: int| symdiff_sum(ring, f, g, v, n));
    let chi = |v: int| char_sign(ring, s, v, n);
    assert forall|v: int| ring.valid(#[trigger] chi(v)) by {
        lemma_sign_valid(ring, s, v, n);
    }
    let ev = |v: int, t: int, u: int| ring.smul(chi(v), symdiff_term(ring, f, g, v, t, n)(u));
    assert forall|v: int, t: int, u: int| 0 <= t < len && 0 <= u < len implies ring.valid(#[trigger] ev(v, t, u)) by {
        ring.lemma_closed(f[t], g[u]);
        ring.lemma_closed(chi(v), symdiff_term(ring, f, g, v, t, n)(u));
    }
    let x = |v: int, t: int| fsum(ring, |u: int| ev(v, t, u), len);
    assert forall|v: int, t: int| 0 <= v < len && 0 <= t < len implies ring.valid(#[trigger] x(v, t)) by {
        lemma_fsum_valid(ring, |u: int| ev(v, t, u), len);
    }
    // the left side as a triple sum over `v`, `t`, `u`
    let lhs_term = |v: int| ring.smul(chi(v), c[v]);
    assert forall|v: int| 0 <= v < len implies #[trigger] lhs_term(v) == fsum(ring, |t: int| x(v, t), len) by {
        let inner = |t: int| fsum(ring, symdiff_term(ring, f, g, v, t, n), len);
        assert forall|t: int| 0 <= t < len implies ring.valid(#[trigger] inner(t)) by {
            assert forall|u: int| 0 <= u < len implies ring.valid(#[trigger] symdiff_term(ring, f, g, v, t, n)(u)) by {
                ring.lemma_closed(f[t], g[u]);
            }
            lemma_fsum_valid(ring, symdiff_term(ring, f, g, v, t, n), len);
        }
        lemma_fsum_mul_left(ring, chi(v), inner, len);
        assert forall|t: int| 0 <= t < len implies #[trigger] ring.smul(chi(v), inner(t)) == x(v, t) by {
            assert forall|u: int| 0 <= u < len implies ring.valid(#[trigger] symdiff_term(ring, f, g, v, t, n)(u)) by {
                ring.lemma_closed(f[t], g[u]);
            }
            lemma_fsum_mul_left(ring, chi(v), symdiff_term(ring, f, g, v, t, n), len);
            lemma_fsum_ext(ring, |u: int| ring.smul(chi(v), symdiff_term(ring, f, g, v, t, n)(u)), |u: int| ev(v, t, u), len);
        }
        lemma_fsum_ext(ring, |t: int| ring.smul(chi(v), inner(t)), |t: int| x(v, t), len);
    }
    assert(walsh_sum(ring, c, s, n) == fsum(ring, lhs_term, len)) by {
        lemma_fsum_ext(ring, |t: int| ring.smul(char_sign(ring, s, t, n), c[t]), lhs_term, len);
    }
    lemma_fsum_ext(ring, lhs_term, |v: int| fsum(ring, |t: int| x(v, t), len), len);
    lemma_fsum_swap(ring, x, len, len);
    // for each `t`, swap `v` and `u`, and sum over `v` first
    let pf = |t: int| ring.smul(chi(t), f[t]);
    let pg = |u: int| ring.smul(chi(u), g[u]);
    assert forall|u: int| 0 <= u < len implies ring.valid(#[trigger] pg(u)) by {
        ring.lemma_closed(chi(u), g[u]);
    }
    assert forall|t: int| 0 <= t < len implies ring.valid(#[trigger] pf(t)) by {
        ring.lemma_closed(chi(t), f[t]);
    }
    let gsum = fsum(ring, pg, len);
    lemma_fsum_valid(ring, pg, len);
    assert forall|t: int| 0 <= t < len implies fsum(ring, |v: int| x(v, t), len) == ring.smul(#[trigger] pf(t), gsum) by {
        let evt = |v: int, u: int| ev(v, t, u);
        assert forall|v: int, u: int| 0 <= v < len && 0 <= u < len implies ring.valid(#[trigger] evt(v, u)) by {}
        lemma_fsum_swap(ring, evt, len, len);
        assert forall|v: int| 0 <= v < len implies #[trigger] x(v, t) == fsum(ring, |u: int| evt(v, u), len) by {
            lemma_fsum_ext(ring, |u: int| ev(v, t, u), |u: int| evt(v, u), len);
        }
        lemma_fsum_ext(ring, |v: int| x(v, t), |v: int| fsum(ring, |u: int| evt(v, u), len), len);
        assert forall|u: int| 0 <= u < len implies fsum(ring, |v: int| evt(v, u), len) == ring.smul(pf(t), #[trigger] pg(u)) by {
            lemma_differing_bits(t, u, n);
            let v0 = differing_bits(t, u, n);
            let e = |v: int| evt(v, u);
            assert forall|v: int| 0 <= v < len && v != v0 implies #[trigger] e(v) == ring.szero() by {
                if is_symdiff(t, u, v, n) {
                    assert forall|b: nat| b < n implies #[trigger] has_bit(v, b) == has_bit(v0, b) by {}
                    lemma_bits_determine(v, v0, n);
                }
                ring.lemma_mul_zero(chi(v));
            }
            ring.lemma_closed(f[t], g[u]);
            ring.lemma_closed(chi(v0), ring.smul(f[t], g[u]));
            lemma_fsum_single(ring, e, len, v0);
            lemma_sign_mul(ring, s, t, u, v0, n);
            lemma_mul_swap(ring, chi(t), chi(u), f[t], g[u]);
        }
        lemma_fsum_ext(ring, |u: int| fsum(ring, |v: int| evt(v, u), len), |u: int| ring.smul(pf(t), pg(u)), len);
        lemma_fsum_mul_left(ring, pf(t), pg, len);
    }
    lemma_fsum_ext(ring, |t: int| fsum(ring, |v: int| x(v, t), len), |t: int| ring.smul(pf(t), gsum), len);
    lemma_fsum_mul_right(ring, pf, gsum, len);
    lemma_fsum_ext(ring, pf, |t: int| ring.smul(char_sign(ring, s, t, n), f[t]), len);
    lemma_fsum_ext(ring, pg, |t: int| ring.smul(char_sign(ring, s, t, n), g[t]), len);
}

/// The symmetric difference convolution in closed form: a sequence whose Walsh-Hadamard transform
/// is the pointwise product of those of `f` and `g` is `V -> Σ_{T △ U = V} f(T) g(U)`, where
/// `2^n` is invertible.
pub proof fn lemma_symdiff_closed<F: Field>(ring: F, f: Seq<F::Value>, g: Seq<F::Value>, h: Seq<F::Value>, n: nat)
    requires
        f.len() == pow2(n),
        g.len() == pow2(n),
        h.len() == pow2(n),
        all_valid(ring, f),
        all_valid(ring, g),
        all_valid(ring, h),
        spow(ring, two(ring), n) != ring.szero(),
        hadamard_seq(ring, h, n) == pointwise(ring, hadamard_seq(ring, f, n), hadamard_seq(ring, g, n)),
    ensures
        forall|v: int| 0 <= v < pow2(n) ==> #[trigger] h[v] == symdiff_sum(ring, f, g, v, n),
{
    let len = pow2(n) as int;
    vstd::arithmetic::power2::lemma_pow2_pos(n);
    ring.lemma_closed(f[0], g[0]);
    let c = Seq::new(pow2(n), |v: int| symdiff_sum(ring, f, g, v, n));
    assert forall|v: int| 0 <= v < len implies ring.valid(#[trigger] c[v]) by {
        assert forall|t: int| 0 <= t < len implies ring.valid(#[trigger] fsum(ring, symdiff_term(ring, f, g, v, t, n), len)) by {
            assert forall|u: int| 0 <= u < len implies ring.valid(#[trigger] symdiff_term(ring, f, g, v, t, n)(u)) by {
                ring.lemma_closed(f[t], g[u]);
            }
            lemma_fsum_valid(ring, symdiff_term(ring, f, g, v, t, n), len);
        }
        lemma_fsum_valid(ring, |t: int| fsum(ring, symdiff_term(ring, f, g, v, t, n), len), len);
    }
    assert(hadamard_seq(ring, c, n) =~= hadamard_seq(ring, h, n)) by {
        assert forall|s: int| 0 <= s < len implies #[trigger] hadamard_seq(ring, c, n)[s] == hadamard_seq(ring, h, n)[s] by {
            lemma_walsh_hadamard_closed(ring, c, s, n);
            lemma_walsh_hadamard_closed(ring, f, s, n);
            lemma_walsh_hadamard_closed(ring, g, s, n);
            lemma_walsh_of_symdiff_sum(ring, f, g, s, n);
            assert(hadamard_seq(ring, h, n)[s] == pointwise(ring, hadamard_seq(ring, f, n), hadamard_seq(ring, g, n))[s]);
        }
    }
    ring.lemma_closed(ring.sone(), ring.sone());
    lemma_spow_valid(ring, two(ring), n);
    ring.lemma_inv(spow(ring, two(ring), n));
    lemma_inverse_hadamard(ring, c, n);
    lemma_inverse_hadamard(ring, h, n);
}

} // verus!
