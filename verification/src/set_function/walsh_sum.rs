//! The Walsh-Hadamard transform as a signed sum over all sets.
use crate::algebra::{lemma_neg_add, lemma_neg_unique, Ring, Semiring};
use crate::linear::{fsum, lemma_fsum_add, lemma_fsum_ext, lemma_fsum_single, lemma_fsum_valid};
use crate::set_function::superset::{all_valid, has_bit, lemma_bit_other, lemma_bit_room, lemma_bit_set};
use crate::set_function::xor::{hadamard, lemma_bit_clear};
use vstd::arithmetic::power2::pow2;
use vstd::prelude::*;

verus! {

/// `(-1)^{|S ∩ T ∩ [0, k)|}`: the sign that the bits below `k` common to `s` and `t` give.
pub open spec fn char_sign<R: Ring>(ring: R, s: int, t: int, k: nat) -> R::Value
    decreases k,
{
    if k == 0 {
        ring.sone()
    } else {
        let b = (k - 1) as nat;
        let c = char_sign(ring, s, t, b);
        if has_bit(s, b) && has_bit(t, b) {
            ring.sneg(c)
        } else {
            c
        }
    }
}

/// `Σ_{T < 2^n} (-1)^{|S ∩ T|} f(T)`, the value of the character of `S` paired with `f`.
pub open spec fn walsh_sum<R: Ring>(ring: R, f: Seq<R::Value>, s: int, n: nat) -> R::Value {
    fsum(ring, |t: int| ring.smul(char_sign(ring, s, t, n), f[t]), pow2(n) as int)
}

/// `s` and `t` agree on the bits `k, ..., n - 1`.
pub open spec fn agree_from(s: int, t: int, k: nat, n: nat) -> bool {
    forall|b: nat| k <= b < n ==> #[trigger] has_bit(s, b) == has_bit(t, b)
}

/// The terms of the partial transform: `(-1)^{|S ∩ T ∩ [0, k)|} f(T)` for the `T` that agree with
/// `S` from the bit `k` on, zero for the others.
pub open spec fn block_term<R: Ring>(ring: R, f: Seq<R::Value>, s: int, k: nat, n: nat) -> spec_fn(int) -> R::Value {
    |t: int| if agree_from(s, t, k, n) {
        ring.smul(char_sign(ring, s, t, k), f[t])
    } else {
        ring.szero()
    }
}

pub(crate) proof fn lemma_sign_valid<R: Ring>(ring: R, s: int, t: int, k: nat)
    requires
        ring.valid(ring.sone()),
    ensures
        ring.valid(char_sign(ring, s, t, k)),
    decreases k,
{
    if k > 0 {
        lemma_sign_valid(ring, s, t, (k - 1) as nat);
        ring.lemma_add_neg(char_sign(ring, s, t, (k - 1) as nat));
    }
}

/// The sign reads only the bits of `s` below `k`.
proof fn lemma_sign_low<R: Ring>(ring: R, s: int, s2: int, t: int, k: nat)
    requires
        forall|b: nat| b < k ==> #[trigger] has_bit(s, b) == has_bit(s2, b),
    ensures
        char_sign(ring, s, t, k) == char_sign(ring, s2, t, k),
    decreases k,
{
    if k > 0 {
        let b = (k - 1) as nat;
        assert(has_bit(s, b) == has_bit(s2, b));
        lemma_sign_low(ring, s, s2, t, b);
    }
}

/// The bit `b + 1` of `s` is the bit `b` of `s / 2`.
pub(crate) proof fn lemma_bit_half(s: int, b: nat)
    requires
        s >= 0,
    ensures
        has_bit(s, b + 1) == has_bit(s / 2, b),
{
    vstd::arithmetic::power2::lemma_pow2_unfold(b + 1);
    vstd::arithmetic::power2::lemma_pow2_pos(b);
    vstd::arithmetic::div_mod::lemma_div_denominator(s, 2, pow2(b) as int);
}

/// Numbers below `2^n` with the same bits below `n` are equal.
pub(crate) proof fn lemma_bits_determine(s: int, t: int, n: nat)
    requires
        0 <= s < pow2(n),
        0 <= t < pow2(n),
        forall|b: nat| b < n ==> #[trigger] has_bit(s, b) == has_bit(t, b),
    ensures
        s == t,
    decreases n,
{
    if n == 0 {
        vstd::arithmetic::power2::lemma2_to64();
    } else {
        let m = (n - 1) as nat;
        vstd::arithmetic::power2::lemma_pow2_unfold(n);
        assert forall|b: nat| b < m implies #[trigger] has_bit(s / 2, b) == has_bit(t / 2, b) by {
            lemma_bit_half(s, b);
            lemma_bit_half(t, b);
            assert(has_bit(s, b + 1) == has_bit(t, b + 1));
        }
        lemma_bits_determine(s / 2, t / 2, m);
        assert(has_bit(s, 0) == has_bit(t, 0));
        vstd::arithmetic::power2::lemma2_to64();
    }
}

/// A sum of negatives is the negative of the sum.
proof fn lemma_fsum_neg<R: Ring>(ring: R, g: spec_fn(int) -> R::Value, k: int)
    requires
        forall|j: int| 0 <= j < k ==> ring.valid(#[trigger] g(j)),
        ring.valid(ring.szero()),
    ensures
        fsum(ring, |j: int| ring.sneg(g(j)), k) == ring.sneg(fsum(ring, g, k)),
    decreases k,
{
    let h = |j: int| ring.sneg(g(j));
    if k <= 0 {
        ring.lemma_add_zero(ring.szero());
        lemma_neg_unique(ring, ring.szero(), ring.szero());
    } else {
        lemma_fsum_neg(ring, g, k - 1);
        lemma_fsum_valid(ring, g, k - 1);
        lemma_neg_add(ring, fsum(ring, g, k - 1), g(k - 1));
    }
}

/// `(-a) b = -(a b)`.
pub(crate) proof fn lemma_neg_mul<R: Ring>(ring: R, a: R::Value, b: R::Value)
    requires
        ring.valid(a),
        ring.valid(b),
    ensures
        ring.smul(ring.sneg(a), b) == ring.sneg(ring.smul(a, b)),
{
    ring.lemma_add_neg(a);
    ring.lemma_distrib(b, a, ring.sneg(a));
    ring.lemma_closed(a, b);
    ring.lemma_closed(ring.sneg(a), b);
    ring.lemma_mul_zero(b);
    lemma_neg_unique(ring, ring.smul(a, b), ring.smul(ring.sneg(a), b));
}

/// The partial transform up to the bit `k` is the signed sum over the block of `S`.
proof fn lemma_block<R: Ring>(ring: R, f: Seq<R::Value>, s: int, k: nat, n: nat)
    requires
        f.len() == pow2(n),
        all_valid(ring, f),
        0 <= s < pow2(n),
        k <= n,
    ensures
        hadamard(ring, f, s, k) == fsum(ring, block_term(ring, f, s, k, n), pow2(n) as int),
    decreases k,
{
    let len = pow2(n) as int;
    vstd::arithmetic::power2::lemma_pow2_pos(n);
    ring.lemma_closed(f[0], f[0]);
    lemma_sign_valid(ring, s, s, 0);
    let g = block_term(ring, f, s, k, n);
    assert forall|t: int| 0 <= t < len implies ring.valid(#[trigger] g(t)) by {
        lemma_sign_valid(ring, s, t, k);
        ring.lemma_closed(char_sign(ring, s, t, k), f[t]);
    }
    if k == 0 {
        assert forall|t: int| 0 <= t < len && t != s implies #[trigger] g(t) == ring.szero() by {
            if agree_from(s, t, 0, n) {
                lemma_bits_determine(s, t, n);
            }
        }
        ring.lemma_mul_one(f[s]);
        lemma_fsum_single(ring, g, len, s);
    } else {
        let b = (k - 1) as nat;
        let (lo, hi) = if has_bit(s, b) {
            lemma_bit_clear(s, b);
            (s - pow2(b), s)
        } else {
            lemma_bit_set(s, b);
            lemma_bit_room(s, b, n);
            (s, s + pow2(b))
        };
        // the bits of `lo` and `hi`: those of `s` but at `b`, which only `hi` has
        assert forall|c: nat| c != b implies #[trigger] has_bit(lo, c) == has_bit(s, c) && has_bit(hi, c) == has_bit(s, c) by {
            if has_bit(s, b) {
                lemma_bit_other(lo, b, c);
            } else {
                lemma_bit_other(s, b, c);
            }
        }
        assert(!has_bit(lo, b) && has_bit(hi, b)) by {
            if !has_bit(s, b) {
                lemma_bit_set(s, b);
            }
        }
        assert(0 <= lo < len && 0 <= hi < len) by {
            if has_bit(s, b) {
                lemma_bit_clear(s, b);
            } else {
                lemma_bit_room(s, b, n);
            }
        }
        lemma_block(ring, f, lo, b, n);
        lemma_block(ring, f, hi, b, n);
        let gl = block_term(ring, f, lo, b, n);
        let gh = block_term(ring, f, hi, b, n);
        assert forall|t: int| 0 <= t < len implies ring.valid(#[trigger] gl(t)) by {
            lemma_sign_valid(ring, lo, t, b);
            ring.lemma_closed(char_sign(ring, lo, t, b), f[t]);
        }
        assert forall|t: int| 0 <= t < len implies ring.valid(#[trigger] gh(t)) by {
            lemma_sign_valid(ring, hi, t, b);
            ring.lemma_closed(char_sign(ring, hi, t, b), f[t]);
        }
        assert forall|c: nat| c < b implies #[trigger] has_bit(lo, c) == has_bit(s, c) by {}
        assert forall|c: nat| c < b implies #[trigger] has_bit(hi, c) == has_bit(s, c) by {}
        if has_bit(s, b) {
            let nh = |t: int| ring.sneg(gh(t));
            assert forall|t: int| 0 <= t < len implies ring.valid(#[trigger] nh(t)) by {
                ring.lemma_add_neg(gh(t));
            }
            lemma_fsum_neg(ring, gh, len);
            lemma_fsum_add(ring, gl, nh, len);
            assert forall|t: int| 0 <= t < len implies #[trigger] g(t) == ring.sadd(gl(t), nh(t)) by {
                lemma_sign_low(ring, lo, s, t, b);
                lemma_sign_valid(ring, s, t, b);
                let c = char_sign(ring, s, t, b);
                ring.lemma_closed(c, f[t]);
                ring.lemma_add_neg(ring.szero());
                ring.lemma_add_zero(ring.szero());
                lemma_neg_unique(ring, ring.szero(), ring.szero());
                if agree_from(s, t, k, n) {
                    assert forall|w: nat| b <= w < n implies #[trigger] has_bit(hi, w) == has_bit(t, w) || w == b by {
                        if w != b {
                            assert(has_bit(hi, w) == has_bit(s, w));
                            assert(has_bit(s, w) == has_bit(t, w));
                        }
                    }
                    assert forall|w: nat| b <= w < n implies #[trigger] has_bit(lo, w) == has_bit(t, w) || w == b by {
                        if w != b {
                            assert(has_bit(lo, w) == has_bit(s, w));
                            assert(has_bit(s, w) == has_bit(t, w));
                        }
                    }
                    if has_bit(t, b) {
                        assert(!agree_from(lo, t, b, n));
                        assert(agree_from(hi, t, b, n));
                        lemma_neg_mul(ring, c, f[t]);
                        ring.lemma_add_neg(ring.smul(c, f[t]));
                        ring.lemma_add_zero(ring.sneg(ring.smul(c, f[t])));
                    } else {
                        assert(agree_from(lo, t, b, n));
                        assert(!agree_from(hi, t, b, n));
                        ring.lemma_add_zero(ring.smul(c, f[t]));
                    }
                } else {
                    if agree_from(lo, t, b, n) || agree_from(hi, t, b, n) {
                        let w = choose|w: nat| k <= w < n && has_bit(s, w) != has_bit(t, w);
                        assert(has_bit(lo, w) == has_bit(s, w));
                        assert(has_bit(hi, w) == has_bit(s, w));
                    }
                }
            }
            lemma_fsum_ext(ring, g, |t: int| ring.sadd(gl(t), nh(t)), len);
        } else {
            lemma_fsum_add(ring, gl, gh, len);
            assert forall|t: int| 0 <= t < len implies #[trigger] g(t) == ring.sadd(gl(t), gh(t)) by {
                lemma_sign_low(ring, hi, s, t, b);
                lemma_sign_valid(ring, s, t, b);
                let c = char_sign(ring, s, t, b);
                ring.lemma_closed(c, f[t]);
                ring.lemma_add_zero(ring.szero());
                if agree_from(s, t, k, n) {
                    assert forall|w: nat| b <= w < n implies #[trigger] has_bit(hi, w) == has_bit(t, w) || w == b by {
                        if w != b {
                            assert(has_bit(hi, w) == has_bit(s, w));
                            assert(has_bit(s, w) == has_bit(t, w));
                        }
                    }
                    assert forall|w: nat| b <= w < n implies #[trigger] has_bit(lo, w) == has_bit(t, w) || w == b by {
                        if w != b {
                            assert(has_bit(lo, w) == has_bit(s, w));
                            assert(has_bit(s, w) == has_bit(t, w));
                        }
                    }
                    if has_bit(t, b) {
                        assert(!agree_from(lo, t, b, n));
                        assert(agree_from(hi, t, b, n));
                        ring.lemma_add_zero(ring.smul(c, f[t]));
                    } else {
                        assert(agree_from(lo, t, b, n));
                        assert(!agree_from(hi, t, b, n));
                        ring.lemma_add_zero(ring.smul(c, f[t]));
                    }
                } else {
                    if agree_from(lo, t, b, n) || agree_from(hi, t, b, n) {
                        let w = choose|w: nat| k <= w < n && has_bit(s, w) != has_bit(t, w);
                        assert(has_bit(lo, w) == has_bit(s, w));
                        assert(has_bit(hi, w) == has_bit(s, w));
                    }
                }
            }
            lemma_fsum_ext(ring, g, |t: int| ring.sadd(gl(t), gh(t)), len);
        }
    }
}

/// The Walsh-Hadamard transform in closed form: for `f` of length `2^n`, the coefficient at `S`
/// is `Σ_T (-1)^{|S ∩ T|} f(T)`.
pub proof fn lemma_walsh_hadamard_closed<R: Ring>(ring: R, f: Seq<R::Value>, s: int, n: nat)
    requires
        f.len() == pow2(n),
        all_valid(ring, f),
        0 <= s < pow2(n),
    ensures
        hadamard(ring, f, s, n) == walsh_sum(ring, f, s, n),
{
    lemma_block(ring, f, s, n, n);
    lemma_fsum_ext(
        ring,
        block_term(ring, f, s, n, n),
        |t: int| ring.smul(char_sign(ring, s, t, n), f[t]),
        pow2(n) as int,
    );
}

} // verus!
