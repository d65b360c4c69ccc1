//! The intersection convolution as a sum over all pairs of sets.
use crate::algebra::{Ring, Semiring};
use crate::linear::{
    fsum, lemma_fsum_ext, lemma_fsum_mul_left, lemma_fsum_mul_right, lemma_fsum_single, lemma_fsum_swap,
    lemma_fsum_valid, lemma_fsum_zero,
};
use crate::set_function::superset::{
    all_valid, has_bit, lemma_bit_other, lemma_bit_set, lemma_mobius_inverts_zeta, mobius_seq, pointwise, zeta,
    zeta_seq,
};
use crate::set_function::superset_sum::{contains_below, lemma_superset_zeta_closed, superset_sum};
use crate::set_function::walsh_sum::lemma_bits_determine;
use vstd::arithmetic::power2::pow2;
use vstd::prelude::*;

verus! {

/// `V = T ∩ U` on the bits below `n`.
pub open spec fn is_intersection(t: int, u: int, v: int, n: nat) -> bool {
    forall|b: nat| b < n ==> #[trigger] has_bit(v, b) == (has_bit(t, b) && has_bit(u, b))
}

/// The terms `U -> [T ∩ U = V] f(T) g(U)`.
pub open spec fn pair_term<R: Semiring>(ring: R, f: Seq<R::Value>, g: Seq<R::Value>, v: int, t: int, n: nat) -> spec_fn(int) -> R::Value {
    |u: int| if is_intersection(t, u, v, n) { ring.smul(f[t], g[u]) } else { ring.szero() }
}

/// `Σ_{T ∩ U = V} f(T) g(U)`, over `T, U < 2^n`.
pub open spec fn intersection_sum<R: Semiring>(ring: R, f: Seq<R::Value>, g: Seq<R::Value>, v: int, n: nat) -> R::Value {
    fsum(ring, |t: int| fsum(ring, pair_term(ring, f, g, v, t, n), pow2(n) as int), pow2(n) as int)
}

/// The set of the bits below `k` common to `t` and `u`.
spec fn common_bits(t: int, u: int, k: nat) -> int
    decreases k,
{
    if k == 0 {
        0
    } else {
        let b = (k - 1) as nat;
        common_bits(t, u, b) + if has_bit(t, b) && has_bit(u, b) {
            pow2(b) as int
        } else {
            0
        }
    }
}

/// A number below `2^b` has no bit at `b` or above.
proof fn lemma_bit_above(x: int, b: nat, c: nat)
    requires
        0 <= x < pow2(b),
        b <= c,
    ensures
        !has_bit(x, c),
{
    vstd::arithmetic::power2::lemma_pow2_pos(c);
    if b < c {
        vstd::arithmetic::power2::lemma_pow2_strictly_increases(b, c);
    }
    vstd::arithmetic::div_mod::lemma_basic_div(x, pow2(c) as int);
}

proof fn lemma_common_bits(t: int, u: int, k: nat)
    ensures
        0 <= common_bits(t, u, k) < pow2(k),
        is_intersection(t, u, common_bits(t, u, k), k),
    decreases k,
{
    vstd::arithmetic::power2::lemma_pow2_pos(k);
    if k == 0 {
        vstd::arithmetic::power2::lemma2_to64();
    } else {
        let b = (k - 1) as nat;
        lemma_common_bits(t, u, b);
        let x = common_bits(t, u, b);
        vstd::arithmetic::power2::lemma_pow2_unfold(k);
        if has_bit(t, b) && has_bit(u, b) {
            lemma_bit_above(x, b, b);
            lemma_bit_set(x, b);
            assert forall|c: nat| c < k implies #[trigger] has_bit(x + pow2(b), c) == (has_bit(t, c) && has_bit(u, c)) by {
                if c != b {
                    lemma_bit_other(x, b, c);
                }
            }
        } else {
            assert forall|c: nat| c < k implies #[trigger] has_bit(x, c) == (has_bit(t, c) && has_bit(u, c)) by {
                if c == b {
                    lemma_bit_above(x, b, b);
                }
            }
        }
    }
}

/// Summing over `V ⊇ S` the terms with `T ∩ U = V` leaves `f(T) g(U)` when `T` and `U` contain
/// `S`, and nothing otherwise.
proof fn lemma_single_intersection<R: Semiring>(
    ring: R,
    f: Seq<R::Value>,
    g: Seq<R::Value>,
    s: int,
    t: int,
    u: int,
    n: nat,
)
    requires
        f.len() == pow2(n),
        g.len() == pow2(n),
        all_valid(ring, f),
        all_valid(ring, g),
        0 <= t < pow2(n),
        0 <= u < pow2(n),
    ensures
        fsum(
            ring,
            |v: int| if contains_below(v, s, n) { pair_term(ring, f, g, v, t, n)(u) } else { ring.szero() },
            pow2(n) as int,
        ) == if contains_below(t, s, n) && contains_below(u, s, n) {
            ring.smul(f[t], g[u])
        } else {
            ring.szero()
        },
{
    let e = |v: int| if contains_below(v, s, n) { pair_term(ring, f, g, v, t, n)(u) } else { ring.szero() };
    let len = pow2(n) as int;
    ring.lemma_closed(f[t], g[u]);
    lemma_common_bits(t, u, n);
    let v0 = common_bits(t, u, n);
    if contains_below(t, s, n) && contains_below(u, s, n) {
        assert(contains_below(v0, s, n));
        assert forall|v: int| 0 <= v < len && v != v0 implies #[trigger] e(v) == ring.szero() by {
            if is_intersection(t, u, v, n) {
                assert forall|b: nat| b < n implies #[trigger] has_bit(v, b) == has_bit(v0, b) by {}
                lemma_bits_determine(v, v0, n);
            }
        }
        lemma_fsum_single(ring, e, len, v0);
    } else {
        assert forall|v: int| 0 <= v < len implies #[trigger] e(v) == ring.szero() by {
            if contains_below(v, s, n) && is_intersection(t, u, v, n) {
                assert forall|b: nat| b < n && #[trigger] has_bit(s, b) implies has_bit(t, b) && has_bit(u, b) by {
                    assert(has_bit(v, b));
                }
            }
        }
        lemma_fsum_zero(ring, e, len);
    }
}

/// The superset zeta transform carries the sums over intersections to the pointwise product.
proof fn lemma_zeta_of_intersection_sum<R: Semiring>(ring: R, f: Seq<R::Value>, g: Seq<R::Value>, s: int, n: nat)
    requires
        f.len() == pow2(n),
        g.len() == pow2(n),
        all_valid(ring, f),
        all_valid(ring, g),
        0 <= s < pow2(n),
    ensures
        superset_sum(ring, Seq::new(pow2(n), |v: int| intersection_sum(ring, f, g, v, n)), s, n) == ring.smul(
            superset_sum(ring, f, s, n),
            superset_sum(ring, g, s, n),
        ),
{
    let len = pow2(n) as int;
    vstd::arithmetic::power2::lemma_pow2_pos(n);
    ring.lemma_closed(f[0], g[0]);
    let c = Seq::new(pow2(n), |v: int| intersection_sum(ring, f, g, v, n));
    // E(v, t, u): the terms with `v ⊇ s` and `t ∩ u = v`
    let ev = |v: int, t: int, u: int| if contains_below(v, s, n) { pair_term(ring, f, g, v, t, n)(u) } else { ring.szero() };
    assert forall|v: int, t: int, u: int| 0 <= t < len && 0 <= u < len implies ring.valid(#[trigger] ev(v, t, u)) by {
        ring.lemma_closed(f[t], g[u]);
    }
    let x = |v: int, t: int| fsum(ring, |u: int| ev(v, t, u), len);
    assert forall|v: int, t: int| 0 <= v < len && 0 <= t < len implies ring.valid(#[trigger] x(v, t)) by {
        lemma_fsum_valid(ring, |u: int| ev(v, t, u), len);
    }
    // the left side as a triple sum over `v`, `t`, `u`
    let lhs_term = |v: int| if contains_below(v, s, n) { c[v] } else { ring.szero() };
    assert forall|v: int| 0 <= v < len implies #[trigger] lhs_term(v) == fsum(ring, |t: int| x(v, t), len) by {
        if contains_below(v, s, n) {
            assert forall|t: int| 0 <= t < len implies #[trigger] fsum(ring, pair_term(ring, f, g, v, t, n), len) == x(v, t) by {
                lemma_fsum_ext(ring, pair_term(ring, f, g, v, t, n), |u: int| ev(v, t, u), len);
            }
            lemma_fsum_ext(ring, |t: int| fsum(ring, pair_term(ring, f, g, v, t, n), len), |t: int| x(v, t), len);
        } else {
            assert forall|t: int| 0 <= t < len implies #[trigger] x(v, t) == ring.szero() by {
                lemma_fsum_zero(ring, |u: int| ev(v, t, u), len);
            }
            lemma_fsum_zero(ring, |t: int| x(v, t), len);
        }
    }
    lemma_fsum_ext(ring, lhs_term, |v: int| fsum(ring, |t: int| x(v, t), len), len);
    lemma_fsum_swap(ring, x, len, len);
    // for each `t`, swap `v` and `u`, and sum over `v` first
    let pf = |t: int| if contains_below(t, s, n) { f[t] } else { ring.szero() };
    let pg = |u: int| if contains_below(u, s, n) { g[u] } else { ring.szero() };
    assert forall|u: int| 0 <= u < len implies ring.valid(#[trigger] pg(u)) by {}
    let gsum = fsum(ring, pg, len);
    lemma_fsum_valid(ring, pg, len);
    assert forall|t: int| 0 <= t < len implies fsum(ring, |v: int| x(v, t), len) == ring.smul(#[trigger] pf(t), gsum) by {
        let evt = |v: int, u: int| ev(v, t, u);
        assert forall|v: int, u: int| 0 <= v < len && 0 <= u < len implies ring.valid(#[trigger] evt(v, u)) by {}
        lemma_fsum_swap(ring, evt, len, len);
        assert forall|v: int| 0 <= v < len implies #[trigger] x(v, t) == fsum(ring, |u: int| evt(v, u), len) by {
            lemma_fsum_ext(ring, |u: int| ev(v, t, u), |u: int| evt(v, u), len);
        }
        lemma_fsum_ext(ring, |v: int| x(v, t), |v: int| fsum(ring, |u: int| evt(v, u), len), len);
        assert forall|u: int| 0 <= u < len implies fsum(ring, |v: int| evt(v, u), len) == ring.smul(pf(t), #[trigger] pg(u)) by {
            lemma_single_intersection(ring, f, g, s, t, u, n);
            lemma_fsum_ext(
                ring,
                |v: int| evt(v, u),
                |v: int| if contains_below(v, s, n) { pair_term(ring, f, g, v, t, n)(u) } else { ring.szero() },
                len,
            );
            ring.lemma_mul_zero(pg(u));
            ring.lemma_mul_zero(f[t]);
        }
        lemma_fsum_ext(ring, |u: int| fsum(ring, |v: int| evt(v, u), len), |u: int| ring.smul(pf(t), pg(u)), len);
        lemma_fsum_mul_left(ring, pf(t), pg, len);
    }
    lemma_fsum_ext(ring, |t: int| fsum(ring, |v: int| x(v, t), len), |t: int| ring.smul(pf(t), gsum), len);
    assert forall|t: int| 0 <= t < len implies ring.valid(#[trigger] pf(t)) by {}
    lemma_fsum_mul_right(ring, pf, gsum, len);
}

/// The intersection convolution in closed form: a sequence whose superset zeta transform is the
/// pointwise product of those of `f` and `g` is `V -> Σ_{T ∩ U = V} f(T) g(U)`.
pub proof fn lemma_intersection_closed<R: Ring>(ring: R, f: Seq<R::Value>, g: Seq<R::Value>, h: Seq<R::Value>, n: nat)
    requires
        f.len() == pow2(n),
        g.len() == pow2(n),
        h.len() == pow2(n),
        all_valid(ring, f),
        all_valid(ring, g),
        all_valid(ring, h),
        zeta_seq(ring, h, n) == pointwise(ring, zeta_seq(ring, f, n), zeta_seq(ring, g, n)),
    ensures
        forall|v: int| 0 <= v < pow2(n) ==> #[trigger] h[v] == intersection_sum(ring, f, g, v, n),
{
    let len = pow2(n) as int;
    vstd::arithmetic::power2::lemma_pow2_pos(n);
    ring.lemma_closed(f[0], g[0]);
    let c = Seq::new(pow2(n), |v: int| intersection_sum(ring, f, g, v, n));
    assert forall|v: int| 0 <= v < len implies ring.valid(#[trigger] c[v]) by {
        assert forall|t: int| 0 <= t < len implies ring.valid(#[trigger] fsum(ring, pair_term(ring, f, g, v, t, n), len)) by {
            assert forall|u: int| 0 <= u < len implies ring.valid(#[trigger] pair_term(ring, f, g, v, t, n)(u)) by {
                ring.lemma_closed(f[t], g[u]);
            }
            lemma_fsum_valid(ring, pair_term(ring, f, g, v, t, n), len);
        }
        lemma_fsum_valid(ring, |t: int| fsum(ring, pair_term(ring, f, g, v, t, n), len), len);
    }
    assert(zeta_seq(ring, c, n) =~= zeta_seq(ring, h, n)) by {
        assert forall|s: int| 0 <= s < len implies #[trigger] zeta_seq(ring, c, n)[s] == zeta_seq(ring, h, n)[s] by {
            lemma_superset_zeta_closed(ring, c, s, n);
            lemma_superset_zeta_closed(ring, f, s, n);
            lemma_superset_zeta_closed(ring, g, s, n);
            lemma_zeta_of_intersection_sum(ring, f, g, s, n);
            assert(zeta_seq(ring, h, n)[s] == pointwise(ring, zeta_seq(ring, f, n), zeta_seq(ring, g, n))[s]);
        }
    }
    lemma_mobius_inverts_zeta(ring, c, n);
    lemma_mobius_inverts_zeta(ring, h, n);
}

} // verus!
