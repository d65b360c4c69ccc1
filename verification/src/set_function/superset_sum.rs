//! The superset and subset zeta transforms as sums over all supersets and all subsets.
use crate::algebra::Semiring;
use crate::linear::{fsum, lemma_fsum_add, lemma_fsum_ext, lemma_fsum_single};
use crate::set_function::subset::subset_zeta_of;
use crate::set_function::superset::{all_valid, has_bit, lemma_bit_other, lemma_bit_room, lemma_bit_set, zeta};
use crate::set_function::xor::lemma_bit_clear;
use crate::set_function::walsh_sum::{agree_from, lemma_bits_determine};
use vstd::arithmetic::power2::pow2;
use vstd::prelude::*;

verus! {

/// `T ⊇ S` on the bits below `k`.
pub open spec fn contains_below(t: int, s: int, k: nat) -> bool {
    forall|b: nat| b < k && #[trigger] has_bit(s, b) ==> has_bit(t, b)
}

/// `Σ_{T ⊇ S, T < 2^n} f(T)`.
pub open spec fn superset_sum<R: Semiring>(ring: R, f: Seq<R::Value>, s: int, n: nat) -> R::Value {
    fsum(ring, |t: int| if contains_below(t, s, n) { f[t] } else { ring.szero() }, pow2(n) as int)
}

/// The terms of the partial transform: `f(T)` for the `T` that agree with `S` from the bit `k` on
/// and contain it below `k`, zero for the others.
pub open spec fn superset_block<R: Semiring>(ring: R, f: Seq<R::Value>, s: int, k: nat, n: nat) -> spec_fn(int) -> R::Value {
    |t: int| if agree_from(s, t, k, n) && contains_below(t, s, k) {
        f[t]
    } else {
        ring.szero()
    }
}

/// The partial transform up to the bit `k` is the sum over the block of `S`.
proof fn lemma_superset_block<R: Semiring>(ring: R, f: Seq<R::Value>, s: int, k: nat, n: nat)
    requires
        f.len() == pow2(n),
        all_valid(ring, f),
        0 <= s < pow2(n),
        k <= n,
    ensures
        zeta(ring, f, s, k) == fsum(ring, superset_block(ring, f, s, k, n), pow2(n) as int),
    decreases k,
{
    let len = pow2(n) as int;
    vstd::arithmetic::power2::lemma_pow2_pos(n);
    ring.lemma_closed(f[0], f[0]);
    let g = superset_block(ring, f, s, k, n);
    if k == 0 {
        assert forall|t: int| 0 <= t < len && t != s implies #[trigger] g(t) == ring.szero() by {
            if agree_from(s, t, 0, n) {
                lemma_bits_determine(s, t, n);
            }
        }
        assert(agree_from(s, s, 0, n));
        lemma_fsum_single(ring, g, len, s);
    } else {
        let b = (k - 1) as nat;
        if has_bit(s, b) {
            lemma_superset_block(ring, f, s, b, n);
            let gb = superset_block(ring, f, s, b, n);
            assert forall|t: int| 0 <= t < len implies #[trigger] g(t) == gb(t) by {
                if agree_from(s, t, k, n) && contains_below(t, s, k) {
                    assert(has_bit(t, b));
                    assert(agree_from(s, t, b, n));
                }
                if agree_from(s, t, b, n) && contains_below(t, s, b) {
                    assert(has_bit(s, b) == has_bit(t, b));
                    assert(agree_from(s, t, k, n));
                    assert(contains_below(t, s, k));
                }
            }
            lemma_fsum_ext(ring, g, gb, len);
        } else {
            let hi = s + pow2(b);
            lemma_bit_set(s, b);
            lemma_bit_room(s, b, n);
            assert forall|c: nat| c != b implies #[trigger] has_bit(hi, c) == has_bit(s, c) by {
                lemma_bit_other(s, b, c);
            }
            lemma_superset_block(ring, f, s, b, n);
            lemma_superset_block(ring, f, hi, b, n);
            let gl = superset_block(ring, f, s, b, n);
            let gh = superset_block(ring, f, hi, b, n);
            assert forall|t: int| 0 <= t < len implies ring.valid(#[trigger] gl(t)) by {}
            assert forall|t: int| 0 <= t < len implies ring.valid(#[trigger] gh(t)) by {}
            lemma_fsum_add(ring, gl, gh, len);
            assert forall|t: int| 0 <= t < len implies #[trigger] g(t) == ring.sadd(gl(t), gh(t)) by {
                ring.lemma_add_zero(ring.szero());
                ring.lemma_add_zero(f[t]);
                assert(contains_below(t, s, b) == contains_below(t, s, k)) by {
                    if contains_below(t, s, b) {
                        assert forall|c: nat| c < k && #[trigger] has_bit(s, c) implies has_bit(t, c) by {
                            if c < b {
                            }
                        }
                    }
                }
                assert(contains_below(t, hi, b) == contains_below(t, s, b)) by {
                    if contains_below(t, s, b) {
                        assert forall|c: nat| c < b && #[trigger] has_bit(hi, c) implies has_bit(t, c) by {
                            assert(has_bit(s, c));
                        }
                    }
                    if contains_below(t, hi, b) {
                        assert forall|c: nat| c < b && #[trigger] has_bit(s, c) implies has_bit(t, c) by {
                            assert(has_bit(hi, c));
                        }
                    }
                }
                if agree_from(s, t, k, n) {
                    if has_bit(t, b) {
                        assert(!agree_from(s, t, b, n));
                        assert forall|w: nat| b <= w < n implies #[trigger] has_bit(hi, w) == has_bit(t, w) by {
                            if w != b {
                                assert(has_bit(hi, w) == has_bit(s, w));
                                assert(has_bit(s, w) == has_bit(t, w));
                            }
                        }
                        assert(agree_from(hi, t, b, n));
                    } else {
                        assert forall|w: nat| b <= w < n implies #[trigger] has_bit(s, w) == has_bit(t, w) by {
                            if w != b {
                                assert(has_bit(s, w) == has_bit(t, w));
                            }
                        }
                        assert(agree_from(s, t, b, n));
                        assert(!agree_from(hi, t, b, n));
                    }
                } else {
                    let w = choose|w: nat| k <= w < n && has_bit(s, w) != has_bit(t, w);
                    assert(has_bit(hi, w) == has_bit(s, w));
                    assert(!agree_from(s, t, b, n));
                    assert(!agree_from(hi, t, b, n));
                }
            }
            lemma_fsum_ext(ring, g, |t: int| ring.sadd(gl(t), gh(t)), len);
        }
    }
}

/// The superset zeta transform in closed form: for `f` of length `2^n`, the coefficient at `S` is
/// `Σ_{T ⊇ S} f(T)`.
pub proof fn lemma_superset_zeta_closed<R: Semiring>(ring: R, f: Seq<R::Value>, s: int, n: nat)
    requires
        f.len() == pow2(n),
        all_valid(ring, f),
        0 <= s < pow2(n),
    ensures
        zeta(ring, f, s, n) == superset_sum(ring, f, s, n),
{
    lemma_superset_block(ring, f, s, n, n);
    assert forall|t: int| 0 <= t < pow2(n) implies #[trigger] superset_block(ring, f, s, n, n)(t) == (
    |t: int| if contains_below(t, s, n) { f[t] } else { ring.szero() })(t) by {
        assert(agree_from(s, t, n, n));
    }
    lemma_fsum_ext(
        ring,
        superset_block(ring, f, s, n, n),
        |t: int| if contains_below(t, s, n) { f[t] } else { ring.szero() },
        pow2(n) as int,
    );
}

/// `Σ_{T ⊆ S} f(T)`, over `T < 2^n`.
pub open spec fn subset_sum<R: Semiring>(ring: R, f: Seq<R::Value>, s: int, n: nat) -> R::Value {
    fsum(ring, |t: int| if contains_below(s, t, n) { f[t] } else { ring.szero() }, pow2(n) as int)
}

/// The terms of the partial subset transform: `f(T)` for the `T` that agree with `S` from the bit
/// `k` on and lie in it below `k`, zero for the others.
pub open spec fn subset_block<R: Semiring>(ring: R, f: Seq<R::Value>, s: int, k: nat, n: nat) -> spec_fn(int) -> R::Value {
    |t: int| if agree_from(s, t, k, n) && contains_below(s, t, k) {
        f[t]
    } else {
        ring.szero()
    }
}

/// The partial subset transform up to the bit `k` is the sum over the block of `S`.
proof fn lemma_subset_block<R: Semiring>(ring: R, f: Seq<R::Value>, s: int, k: nat, n: nat)
    requires
        f.len() == pow2(n),
        all_valid(ring, f),
        0 <= s < pow2(n),
        k <= n,
    ensures
        subset_zeta_of(ring, f, s, k) == fsum(ring, subset_block(ring, f, s, k, n), pow2(n) as int),
    decreases k,
{
    let len = pow2(n) as int;
    vstd::arithmetic::power2::lemma_pow2_pos(n);
    ring.lemma_closed(f[0], f[0]);
    let g = subset_block(ring, f, s, k, n);
    if k == 0 {
        assert forall|t: int| 0 <= t < len && t != s implies #[trigger] g(t) == ring.szero() by {
            if agree_from(s, t, 0, n) {
                lemma_bits_determine(s, t, n);
            }
        }
        assert(agree_from(s, s, 0, n));
        lemma_fsum_single(ring, g, len, s);
    } else {
        let b = (k - 1) as nat;
        if !has_bit(s, b) {
            lemma_subset_block(ring, f, s, b, n);
            let gb = subset_block(ring, f, s, b, n);
            assert forall|t: int| 0 <= t < len implies #[trigger] g(t) == gb(t) by {
                if agree_from(s, t, k, n) && contains_below(s, t, k) {
                    assert(!has_bit(t, b));
                    assert(agree_from(s, t, b, n));
                }
                if agree_from(s, t, b, n) && contains_below(s, t, b) {
                    assert(has_bit(s, b) == has_bit(t, b));
                    assert(agree_from(s, t, k, n));
                    assert(contains_below(s, t, k));
                }
            }
            lemma_fsum_ext(ring, g, gb, len);
        } else {
            lemma_bit_clear(s, b);
            let lo = s - pow2(b);
            assert(lo + pow2(b) == s);
            assert forall|c: nat| c != b implies #[trigger] has_bit(lo, c) == has_bit(s, c) by {
                lemma_bit_other(lo, b, c);
            }
            lemma_subset_block(ring, f, s, b, n);
            lemma_subset_block(ring, f, lo, b, n);
            let gh = subset_block(ring, f, s, b, n);
            let gl = subset_block(ring, f, lo, b, n);
            assert forall|t: int| 0 <= t < len implies ring.valid(#[trigger] gl(t)) by {}
            assert forall|t: int| 0 <= t < len implies ring.valid(#[trigger] gh(t)) by {}
            lemma_fsum_add(ring, gh, gl, len);
            assert forall|t: int| 0 <= t < len implies #[trigger] g(t) == ring.sadd(gh(t), gl(t)) by {
                ring.lemma_add_zero(ring.szero());
                ring.lemma_add_zero(f[t]);
                assert(contains_below(s, t, b) == contains_below(s, t, k)) by {
                    if contains_below(s, t, b) {
                        assert forall|c: nat| c < k && #[trigger] has_bit(t, c) implies has_bit(s, c) by {
                            if c < b {
                            }
                        }
                    }
                }
                assert(contains_below(lo, t, b) == contains_below(s, t, b)) by {
                    if contains_below(s, t, b) {
                        assert forall|c: nat| c < b && #[trigger] has_bit(t, c) implies has_bit(lo, c) by {
                            assert(has_bit(s, c));
                        }
                    }
                    if contains_below(lo, t, b) {
                        assert forall|c: nat| c < b && #[trigger] has_bit(t, c) implies has_bit(s, c) by {
                            assert(has_bit(lo, c));
                        }
                    }
                }
                if agree_from(s, t, k, n) {
                    if has_bit(t, b) {
                        assert forall|w: nat| b <= w < n implies #[trigger] has_bit(s, w) == has_bit(t, w) by {
                            if w != b {
                                assert(has_bit(s, w) == has_bit(t, w));
                            }
                        }
                        assert(agree_from(s, t, b, n));
                        assert(!agree_from(lo, t, b, n));
                    } else {
                        assert(!agree_from(s, t, b, n));
                        assert forall|w: nat| b <= w < n implies #[trigger] has_bit(lo, w) == has_bit(t, w) by {
                            if w != b {
                                assert(has_bit(lo, w) == has_bit(s, w));
                                assert(has_bit(s, w) == has_bit(t, w));
                            }
                        }
                        assert(agree_from(lo, t, b, n));
                    }
                } else {
                    let w = choose|w: nat| k <= w < n && has_bit(s, w) != has_bit(t, w);
                    assert(has_bit(lo, w) == has_bit(s, w));
                    assert(!agree_from(s, t, b, n));
                    assert(!agree_from(lo, t, b, n));
                }
            }
            lemma_fsum_ext(ring, g, |t: int| ring.sadd(gh(t), gl(t)), len);
        }
    }
}

/// The subset zeta transform in closed form: for `f` of length `2^n`, the coefficient at `S` is
/// `Σ_{T ⊆ S} f(T)`.
pub proof fn lemma_subset_zeta_closed<R: Semiring>(ring: R, f: Seq<R::Value>, s: int, n: nat)
    requires
        f.len() == pow2(n),
        all_valid(ring, f),
        0 <= s < pow2(n),
    ensures
        subset_zeta_of(ring, f, s, n) == subset_sum(ring, f, s, n),
{
    lemma_subset_block(ring, f, s, n, n);
    assert forall|t: int| 0 <= t < pow2(n) implies #[trigger] subset_block(ring, f, s, n, n)(t) == (
    |t: int| if contains_below(s, t, n) { f[t] } else { ring.szero() })(t) by {
        assert(agree_from(s, t, n, n));
    }
    lemma_fsum_ext(
        ring,
        subset_block(ring, f, s, n, n),
        |t: int| if contains_below(s, t, n) { f[t] } else { ring.szero() },
        pow2(n) as int,
    );
}

} // verus!
