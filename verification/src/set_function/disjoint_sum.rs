//! The subset convolution as a sum over the splittings of each set into two disjoint parts.
use crate::algebra::{Ring, Semiring};
use crate::linear::{
    fsum, lemma_fsum_ext, lemma_fsum_mul_left, lemma_fsum_mul_right, lemma_fsum_single, lemma_fsum_swap,
    lemma_fsum_valid, lemma_fsum_zero,
};
use crate::set_function::set_power_series::{
    lemma_rank_product_valid, popcount, rank_part, rank_product, rank_products, ranked_zeta,
};
use crate::set_function::subset::{subset_mobius_of, subset_zeta_of};
use crate::set_function::subset_inverse::{lemma_subset_mobius_inverts_zeta, subset_mobius_seq, subset_zeta_seq};
use crate::set_function::superset::{all_valid, has_bit, lemma_bit_other, lemma_bit_set, log2_of};
use crate::set_function::superset_sum::{contains_below, lemma_subset_zeta_closed};
use crate::set_function::walsh_sum::{lemma_bit_half, lemma_bits_determine};
use vstd::arithmetic::power2::pow2;
use vstd::prelude::*;

verus! {

/// `W = T ∪ U` on the bits below `n`.
pub open spec fn is_union(t: int, u: int, w: int, n: nat) -> bool {
    forall|b: nat| b < n ==> #[trigger] has_bit(w, b) == (has_bit(t, b) || has_bit(u, b))
}

/// `T` and `U` share no bit below `n`.
pub open spec fn disjoint_below(t: int, u: int, n: nat) -> bool {
    forall|b: nat| b < n ==> !(#[trigger] has_bit(t, b) && has_bit(u, b))
}

/// The terms `U -> [T ∪ U = S, T ∩ U = ∅] f(T) g(U)`.
pub open spec fn split_term<R: Semiring>(ring: R, f: Seq<R::Value>, g: Seq<R::Value>, s: int, t: int, n: nat) -> spec_fn(int) -> R::Value {
    |u: int| if is_union(t, u, s, n) && disjoint_below(t, u, n) { ring.smul(f[t], g[u]) } else { ring.szero() }
}

/// `Σ_{T ∪ U = S, T ∩ U = ∅} f(T) g(U)` over `T, U < 2^n`: the sum of `f(T) g(S \ T)` over the
/// subsets `T` of `S`.
pub open spec fn disjoint_union_sum<R: Semiring>(ring: R, f: Seq<R::Value>, g: Seq<R::Value>, s: int, n: nat) -> R::Value {
    fsum(ring, |t: int| fsum(ring, split_term(ring, f, g, s, t, n), pow2(n) as int), pow2(n) as int)
}

/// The number of set bits of `s` below `k`.
spec fn bits_below(s: int, k: nat) -> nat
    decreases k,
{
    if k == 0 {
        0
    } else {
        bits_below(s, (k - 1) as nat) + if has_bit(s, (k - 1) as nat) {
            1nat
        } else {
            0nat
        }
    }
}

proof fn lemma_bits_shift(s: int, k: nat)
    requires
        s >= 0,
    ensures
        bits_below(s, k + 1) == (if has_bit(s, 0) {
            1nat
        } else {
            0nat
        }) + bits_below(s / 2, k),
    decreases k,
{
    if k == 0 {
        assert(bits_below(s, 1) == bits_below(s, 0) + (if has_bit(s, 0) {
            1nat
        } else {
            0nat
        }));
    } else {
        let j = (k - 1) as nat;
        lemma_bits_shift(s, j);
        lemma_bit_half(s, j);
        assert(j + 1 == k);
        assert(bits_below(s, k + 1) == bits_below(s, k) + (if has_bit(s, k) {
            1nat
        } else {
            0nat
        }));
        assert(bits_below(s / 2, k) == bits_below(s / 2, j) + (if has_bit(s / 2, j) {
            1nat
        } else {
            0nat
        }));
    }
}

/// The number of elements is the number of set bits below `n`.
proof fn lemma_popcount_bits(s: int, n: nat)
    requires
        0 <= s < pow2(n),
    ensures
        popcount(s) == bits_below(s, n),
    decreases n,
{
    vstd::arithmetic::power2::lemma2_to64();
    if n == 0 {
    } else {
        let m = (n - 1) as nat;
        vstd::arithmetic::power2::lemma_pow2_unfold(n);
        lemma_popcount_bits(s / 2, m);
        lemma_bits_shift(s, m);
        assert(has_bit(s, 0) == (s % 2 == 1));
        if s == 0 {
            assert(s / 2 == 0);
            assert(!has_bit(0, 0));
        }
    }
}

/// For `W = T ∪ U`, `|T| + |U| >= |W|`, with equality iff `T` and `U` are disjoint.
proof fn lemma_union_count(t: int, u: int, w: int, k: nat)
    requires
        forall|b: nat| b < k ==> #[trigger] has_bit(w, b) == (has_bit(t, b) || has_bit(u, b)),
    ensures
        bits_below(t, k) + bits_below(u, k) >= bits_below(w, k),
        (bits_below(t, k) + bits_below(u, k) == bits_below(w, k)) == disjoint_below(t, u, k),
    decreases k,
{
    if k > 0 {
        let b = (k - 1) as nat;
        lemma_union_count(t, u, w, b);
        assert(has_bit(w, b) == (has_bit(t, b) || has_bit(u, b)));
        if disjoint_below(t, u, k) {
            assert forall|c: nat| c < b implies !(#[trigger] has_bit(t, c) && has_bit(u, c)) by {
                assert(!(has_bit(t, c) && has_bit(u, c)));
            }
        }
        if disjoint_below(t, u, b) && !(has_bit(t, b) && has_bit(u, b)) {
            assert forall|c: nat| c < k implies !(#[trigger] has_bit(t, c) && has_bit(u, c)) by {
                if c < b {
                }
            }
        }
    }
}

/// A number below `2^b` has no bit at `b` or above.
proof fn lemma_high_clear(x: int, b: nat, c: nat)
    requires
        0 <= x < pow2(b),
        b <= c,
    ensures
        !has_bit(x, c),
{
    vstd::arithmetic::power2::lemma_pow2_pos(c);
    if b < c {
        vstd::arithmetic::power2::lemma_pow2_strictly_increases(b, c);
    }
    vstd::arithmetic::div_mod::lemma_basic_div(x, pow2(c) as int);
}

/// The set of the bits below `k` in `t` or `u`.
spec fn union_bits(t: int, u: int, k: nat) -> int
    decreases k,
{
    if k == 0 {
        0
    } else {
        let b = (k - 1) as nat;
        union_bits(t, u, b) + if has_bit(t, b) || has_bit(u, b) {
            pow2(b) as int
        } else {
            0
        }
    }
}

proof fn lemma_union_bits(t: int, u: int, k: nat)
    ensures
        0 <= union_bits(t, u, k) < pow2(k),
        is_union(t, u, union_bits(t, u, k), k),
    decreases k,
{
    vstd::arithmetic::power2::lemma_pow2_pos(k);
    if k == 0 {
        vstd::arithmetic::power2::lemma2_to64();
    } else {
        let b = (k - 1) as nat;
        lemma_union_bits(t, u, b);
        let x = union_bits(t, u, b);
        vstd::arithmetic::power2::lemma_pow2_unfold(k);
        if has_bit(t, b) || has_bit(u, b) {
            lemma_high_clear(x, b, b);
            lemma_bit_set(x, b);
            assert forall|c: nat| c < k implies #[trigger] has_bit(x + pow2(b), c) == (has_bit(t, c) || has_bit(u, c)) by {
                if c != b {
                    lemma_bit_other(x, b, c);
                }
            }
        } else {
            assert forall|c: nat| c < k implies #[trigger] has_bit(x, c) == (has_bit(t, c) || has_bit(u, c)) by {
                if c == b {
                    lemma_high_clear(x, b, b);
                }
            }
        }
    }
}

proof fn lemma_bits_bound(s: int, k: nat)
    ensures
        bits_below(s, k) <= k,
    decreases k,
{
    if k > 0 {
        lemma_bits_bound(s, (k - 1) as nat);
    }
}

/// The terms `T -> [T ⊆ V, |T| = i] f(T)`.
pub open spec fn rank_term<R: Semiring>(ring: R, f: Seq<R::Value>, v: int, i: nat, n: nat) -> spec_fn(int) -> R::Value {
    |t: int| if contains_below(v, t, n) && popcount(t) == i { f[t] } else { ring.szero() }
}

/// The layer `i` of the ranked subset zeta transform at `V` is `Σ_{T ⊆ V, |T| = i} f(T)`.
proof fn lemma_layer<R: Ring>(ring: R, f: Seq<R::Value>, i: nat, v: int, n: nat)
    requires
        f.len() == pow2(n),
        all_valid(ring, f),
        ring.valid(ring.szero()),
        0 <= v < pow2(n),
    ensures
        subset_zeta_of(ring, rank_part(ring, f, i), v, n) == fsum(ring, rank_term(ring, f, v, i, n), pow2(n) as int),
{
    let p = rank_part(ring, f, i);
    lemma_subset_zeta_closed(ring, p, v, n);
    lemma_fsum_ext(
        ring,
        |t: int| if contains_below(v, t, n) { p[t] } else { ring.szero() },
        rank_term(ring, f, v, i, n),
        pow2(n) as int,
    );
}

/// The rank-wise product is the sum of its terms.
proof fn lemma_rank_fsum<R: Semiring>(ring: R, a: Seq<Seq<R::Value>>, b: Seq<Seq<R::Value>>, d: int, k: int, s: int)
    requires
        0 <= k <= d,
        ring.valid(ring.szero()),
        forall|i: int| 0 <= i <= d ==> ring.valid(#[trigger] a[i][s]) && ring.valid(b[d - i][s]),
    ensures
        ring.sadd(fsum(ring, |i: int| ring.smul(a[i][s], b[d - i][s]), k), rank_product(ring, a, b, d, k, s))
            == fsum(ring, |i: int| ring.smul(a[i][s], b[d - i][s]), d + 1),
    decreases d - k,
{
    let tt = |i: int| ring.smul(a[i][s], b[d - i][s]);
    assert forall|i: int| 0 <= i <= d implies ring.valid(#[trigger] tt(i)) by {
        ring.lemma_closed(a[i][s], b[d - i][s]);
    }
    lemma_fsum_valid(ring, tt, k);
    if k == d {
        assert(b[d - d][s] == b[0][s]);
    } else {
        lemma_rank_fsum(ring, a, b, d, k + 1, s);
        assert(ring.valid(b[0][s])) by {
            assert(ring.valid(b[d - d][s]));
        }
        lemma_rank_product_valid(ring, a, b, d, k + 1, s);
        let x = fsum(ring, tt, k);
        let r1 = rank_product(ring, a, b, d, k + 1, s);
        ring.lemma_add_comm(r1, tt(k));
        ring.lemma_add_assoc(x, tt(k), r1);
    }
}

/// A product of two sums is the double sum of the products.
proof fn lemma_prod_double<R: Semiring>(ring: R, a: spec_fn(int) -> R::Value, b: spec_fn(int) -> R::Value, m: int)
    requires
        ring.valid(ring.szero()),
        forall|t: int| 0 <= t < m ==> ring.valid(#[trigger] a(t)),
        forall|u: int| 0 <= u < m ==> ring.valid(#[trigger] b(u)),
    ensures
        ring.smul(fsum(ring, a, m), fsum(ring, b, m)) == fsum(ring, |t: int| fsum(ring, |u: int| ring.smul(a(t), b(u)), m), m),
{
    lemma_fsum_valid(ring, b, m);
    let c = fsum(ring, b, m);
    lemma_fsum_mul_right(ring, a, c, m);
    assert forall|t: int| 0 <= t < m implies #[trigger] ring.smul(a(t), c) == fsum(ring, |u: int| ring.smul(a(t), b(u)), m) by {
        lemma_fsum_mul_left(ring, a(t), b, m);
    }
    lemma_fsum_ext(ring, |t: int| ring.smul(a(t), c), |t: int| fsum(ring, |u: int| ring.smul(a(t), b(u)), m), m);
}

/// The terms `[T ⊆ V, U ⊆ V, |T| + |U| = d] f(T) g(U)`.
pub open spec fn pair_in<R: Semiring>(ring: R, f: Seq<R::Value>, g: Seq<R::Value>, d: int, v: int, t: int, u: int, n: nat) -> R::Value {
    if contains_below(v, t, n) && contains_below(v, u, n) && popcount(t) + popcount(u) == d {
        ring.smul(f[t], g[u])
    } else {
        ring.szero()
    }
}

/// The rank-wise product of the ranked transforms at `V`, rank `d`, is
/// `Σ_{T, U ⊆ V, |T| + |U| = d} f(T) g(U)`.
proof fn lemma_rank_products_value<R: Ring>(ring: R, f: Seq<R::Value>, g: Seq<R::Value>, n: nat, d: int, v: int)
    requires
        f.len() == pow2(n),
        g.len() == pow2(n),
        n == log2_of(f.len() as int),
        all_valid(ring, f),
        all_valid(ring, g),
        0 <= d <= n,
        0 <= v < pow2(n),
    ensures
        rank_product(ring, ranked_zeta(ring, f), ranked_zeta(ring, g), d, 0, v) == fsum(
            ring,
            |t: int| fsum(ring, |u: int| pair_in(ring, f, g, d, v, t, u, n), pow2(n) as int),
            pow2(n) as int,
        ),
{
    let len = pow2(n) as int;
    vstd::arithmetic::power2::lemma_pow2_pos(n);
    ring.lemma_closed(f[0], g[0]);
    let va = ranked_zeta(ring, f);
    let vb = ranked_zeta(ring, g);
    assert(log2_of(g.len() as int) == n);
    assert forall|i: int| 0 <= i <= d implies #[trigger] va[i][v] == fsum(ring, rank_term(ring, f, v, i as nat, n), len)
        && vb[d - i][v] == fsum(ring, rank_term(ring, g, v, (d - i) as nat, n), len) by {
        lemma_layer(ring, f, i as nat, v, n);
        lemma_layer(ring, g, (d - i) as nat, v, n);
    }
    assert forall|i: int| 0 <= i <= d implies ring.valid(#[trigger] va[i][v]) && ring.valid(vb[d - i][v]) by {
        let ra = rank_term(ring, f, v, i as nat, n);
        let rb = rank_term(ring, g, v, (d - i) as nat, n);
        assert forall|j: int| 0 <= j < len implies ring.valid(#[trigger] ra(j)) by {}
        assert forall|j: int| 0 <= j < len implies ring.valid(#[trigger] rb(j)) by {}
        lemma_fsum_valid(ring, ra, len);
        lemma_fsum_valid(ring, rb, len);
        lemma_layer(ring, f, i as nat, v, n);
        lemma_layer(ring, g, (d - i) as nat, v, n);
    }
    lemma_rank_fsum(ring, va, vb, d, 0, v);
    assert(ring.valid(va[d][v]) && ring.valid(vb[d - d][v]));
    lemma_rank_product_valid(ring, va, vb, d, 0, v);
    ring.lemma_add_zero(rank_product(ring, va, vb, d, 0, v));
    let tt = |i: int| ring.smul(va[i][v], vb[d - i][v]);
    let x = |i: int, t: int, u: int| ring.smul(rank_term(ring, f, v, i as nat, n)(t), rank_term(ring, g, v, (d - i) as nat, n)(u));
    assert forall|i: int, t: int, u: int| 0 <= t < len && 0 <= u < len implies ring.valid(#[trigger] x(i, t, u)) by {
        ring.lemma_closed(rank_term(ring, f, v, i as nat, n)(t), rank_term(ring, g, v, (d - i) as nat, n)(u));
    }
    let y = |i: int, t: int| fsum(ring, |u: int| x(i, t, u), len);
    assert forall|i: int, t: int| 0 <= t < len implies ring.valid(#[trigger] y(i, t)) by {
        lemma_fsum_valid(ring, |u: int| x(i, t, u), len);
    }
    assert forall|i: int| 0 <= i <= d implies #[trigger] tt(i) == fsum(ring, |t: int| y(i, t), len) by {
        let a = rank_term(ring, f, v, i as nat, n);
        let b = rank_term(ring, g, v, (d - i) as nat, n);
        lemma_prod_double(ring, a, b, len);
        assert forall|t: int| 0 <= t < len implies fsum(ring, |u: int| ring.smul(a(t), b(u)), len) == #[trigger] y(i, t) by {
            lemma_fsum_ext(ring, |u: int| ring.smul(a(t), b(u)), |u: int| x(i, t, u), len);
        }
        lemma_fsum_ext(ring, |t: int| fsum(ring, |u: int| ring.smul(a(t), b(u)), len), |t: int| y(i, t), len);
    }
    lemma_fsum_ext(ring, tt, |i: int| fsum(ring, |t: int| y(i, t), len), d + 1);
    let yt = |t: int, i: int| y(i, t);
    assert forall|t: int, i: int| 0 <= t < len && 0 <= i < d + 1 implies ring.valid(#[trigger] yt(t, i)) by {}
    lemma_fsum_swap(ring, yt, len, d + 1);
    let ly = |i: int| fsum(ring, |t: int| y(i, t), len);
    let ry = |k: int| fsum(ring, |j: int| yt(j, k), len);
    assert forall|i: int| 0 <= i < d + 1 implies #[trigger] ly(i) == ry(i) by {
        lemma_fsum_ext(ring, |t: int| y(i, t), |j: int| yt(j, i), len);
    }
    lemma_fsum_ext(ring, ly, ry, d + 1);
    let zt = |t: int| fsum(ring, |k: int| yt(t, k), d + 1);
    assert forall|t: int| 0 <= t < len implies #[trigger] zt(t) == fsum(
        ring,
        |u: int| pair_in(ring, f, g, d, v, t, u, n),
        len,
    ) by {
        let xt = |i: int, u: int| x(i, t, u);
        assert forall|i: int, u: int| 0 <= i < d + 1 && 0 <= u < len implies ring.valid(#[trigger] xt(i, u)) by {}
        assert forall|i: int| 0 <= i < d + 1 implies #[trigger] yt(t, i) == fsum(ring, |u: int| xt(i, u), len) by {
            lemma_fsum_ext(ring, |u: int| x(i, t, u), |u: int| xt(i, u), len);
        }
        lemma_fsum_ext(ring, |k: int| yt(t, k), |i: int| fsum(ring, |u: int| xt(i, u), len), d + 1);
        let xs = |u: int, i: int| xt(i, u);
        assert forall|u: int, i: int| 0 <= u < len && 0 <= i < d + 1 implies ring.valid(#[trigger] xs(u, i)) by {}
        lemma_fsum_swap(ring, xs, len, d + 1);
        let lx = |i: int| fsum(ring, |u: int| xt(i, u), len);
        let rx = |k: int| fsum(ring, |j: int| xs(j, k), len);
        assert forall|i: int| 0 <= i < d + 1 implies #[trigger] lx(i) == rx(i) by {
            lemma_fsum_ext(ring, |u: int| xt(i, u), |j: int| xs(j, i), len);
        }
        lemma_fsum_ext(ring, lx, rx, d + 1);
        assert forall|u: int| 0 <= u < len implies fsum(ring, |k: int| xs(u, k), d + 1) == #[trigger] pair_in(
            ring,
            f,
            g,
            d,
            v,
            t,
            u,
            n,
        ) by {
            let e = |k: int| xs(u, k);
            ring.lemma_closed(f[t], g[u]);
            if contains_below(v, t, n) && contains_below(v, u, n) && popcount(t) + popcount(u) == d {
                let i0 = popcount(t) as int;
                assert forall|k: int| 0 <= k < d + 1 && k != i0 implies #[trigger] e(k) == ring.szero() by {
                    ring.lemma_mul_zero(rank_term(ring, g, v, (d - k) as nat, n)(u));
                }
                assert(e(i0) == ring.smul(f[t], g[u]));
                lemma_fsum_single(ring, e, d + 1, i0);
            } else {
                assert forall|k: int| 0 <= k < d + 1 implies #[trigger] e(k) == ring.szero() by {
                    ring.lemma_mul_zero(rank_term(ring, g, v, (d - k) as nat, n)(u));
                    ring.lemma_mul_zero(rank_term(ring, f, v, k as nat, n)(t));
                }
                lemma_fsum_zero(ring, e, d + 1);
            }
        }
        lemma_fsum_ext(ring, |j: int| fsum(ring, |k: int| xs(j, k), d + 1), |u: int| pair_in(ring, f, g, d, v, t, u, n), len);
    }
    lemma_fsum_ext(ring, zt, |t: int| fsum(ring, |u: int| pair_in(ring, f, g, d, v, t, u, n), len), len);
}

/// The terms `[T ∪ U = W, |T| + |U| = d] f(T) g(U)`.
pub open spec fn pair_union<R: Semiring>(ring: R, f: Seq<R::Value>, g: Seq<R::Value>, d: int, w: int, t: int, u: int, n: nat) -> R::Value {
    if is_union(t, u, w, n) && popcount(t) + popcount(u) == d {
        ring.smul(f[t], g[u])
    } else {
        ring.szero()
    }
}

/// `W -> Σ_{T ∪ U = W, |T| + |U| = d} f(T) g(U)`.
pub open spec fn union_seq<R: Semiring>(ring: R, f: Seq<R::Value>, g: Seq<R::Value>, d: int, n: nat) -> Seq<R::Value> {
    Seq::new(
        pow2(n),
        |w: int| fsum(ring, |t: int| fsum(ring, |u: int| pair_union(ring, f, g, d, w, t, u, n), pow2(n) as int), pow2(n) as int),
    )
}

proof fn lemma_union_seq_valid<R: Semiring>(ring: R, f: Seq<R::Value>, g: Seq<R::Value>, d: int, n: nat)
    requires
        f.len() == pow2(n),
        g.len() == pow2(n),
        all_valid(ring, f),
        all_valid(ring, g),
        ring.valid(ring.szero()),
    ensures
        all_valid(ring, union_seq(ring, f, g, d, n)),
{
    let len = pow2(n) as int;
    assert forall|w: int| 0 <= w < len implies ring.valid(#[trigger] union_seq(ring, f, g, d, n)[w]) by {
        let rowt = |t: int| fsum(ring, |u: int| pair_union(ring, f, g, d, w, t, u, n), len);
        assert forall|t: int| 0 <= t < len implies ring.valid(#[trigger] rowt(t)) by {
            assert forall|u: int| 0 <= u < len implies ring.valid(#[trigger] pair_union(ring, f, g, d, w, t, u, n)) by {
                ring.lemma_closed(f[t], g[u]);
            }
            lemma_fsum_valid(ring, |u: int| pair_union(ring, f, g, d, w, t, u, n), len);
        }
        lemma_fsum_valid(ring, rowt, len);
    }
}

/// Summing the union sums over the subsets `W` of `V` gives the sum over the pairs of subsets of `V`.
proof fn lemma_union_zeta<R: Semiring>(ring: R, f: Seq<R::Value>, g: Seq<R::Value>, n: nat, d: int, v: int)
    requires
        f.len() == pow2(n),
        g.len() == pow2(n),
        all_valid(ring, f),
        all_valid(ring, g),
        0 <= v < pow2(n),
    ensures
        fsum(
            ring,
            |w: int| if contains_below(v, w, n) { union_seq(ring, f, g, d, n)[w] } else { ring.szero() },
            pow2(n) as int,
        ) == fsum(ring, |t: int| fsum(ring, |u: int| pair_in(ring, f, g, d, v, t, u, n), pow2(n) as int), pow2(n) as int),
{
    let len = pow2(n) as int;
    vstd::arithmetic::power2::lemma_pow2_pos(n);
    ring.lemma_closed(f[0], g[0]);
    let c = union_seq(ring, f, g, d, n);
    let ev = |w: int, t: int, u: int| if contains_below(v, w, n) { pair_union(ring, f, g, d, w, t, u, n) } else { ring.szero() };
    assert forall|w: int, t: int, u: int| 0 <= t < len && 0 <= u < len implies ring.valid(#[trigger] ev(w, t, u)) by {
        ring.lemma_closed(f[t], g[u]);
    }
    let x = |w: int, t: int| fsum(ring, |u: int| ev(w, t, u), len);
    assert forall|w: int, t: int| 0 <= w < len && 0 <= t < len implies ring.valid(#[trigger] x(w, t)) by {
        lemma_fsum_valid(ring, |u: int| ev(w, t, u), len);
    }
    let lhs_term = |w: int| if contains_below(v, w, n) { c[w] } else { ring.szero() };
    assert forall|w: int| 0 <= w < len implies #[trigger] lhs_term(w) == fsum(ring, |t: int| x(w, t), len) by {
        if contains_below(v, w, n) {
            assert forall|t: int| 0 <= t < len implies fsum(ring, |u: int| pair_union(ring, f, g, d, w, t, u, n), len)
                == #[trigger] x(w, t) by {
                lemma_fsum_ext(ring, |u: int| pair_union(ring, f, g, d, w, t, u, n), |u: int| ev(w, t, u), len);
            }
            lemma_fsum_ext(
                ring,
                |t: int| fsum(ring, |u: int| pair_union(ring, f, g, d, w, t, u, n), len),
                |t: int| x(w, t),
                len,
            );
        } else {
            assert forall|t: int| 0 <= t < len implies #[trigger] x(w, t) == ring.szero() by {
                lemma_fsum_zero(ring, |u: int| ev(w, t, u), len);
            }
            lemma_fsum_zero(ring, |t: int| x(w, t), len);
        }
    }
    lemma_fsum_ext(ring, lhs_term, |w: int| fsum(ring, |t: int| x(w, t), len), len);
    lemma_fsum_swap(ring, x, len, len);
    let pt = |t: int| fsum(ring, |u: int| pair_in(ring, f, g, d, v, t, u, n), len);
    assert forall|t: int| 0 <= t < len implies fsum(ring, |w: int| x(w, t), len) == #[trigger] pt(t) by {
        let evt = |w: int, u: int| ev(w, t, u);
        assert forall|w: int, u: int| 0 <= w < len && 0 <= u < len implies ring.valid(#[trigger] evt(w, u)) by {}
        lemma_fsum_swap(ring, evt, len, len);
        assert forall|w: int| 0 <= w < len implies #[trigger] x(w, t) == fsum(ring, |u: int| evt(w, u), len) by {
            lemma_fsum_ext(ring, |u: int| ev(w, t, u), |u: int| evt(w, u), len);
        }
        lemma_fsum_ext(ring, |w: int| x(w, t), |w: int| fsum(ring, |u: int| evt(w, u), len), len);
        assert forall|u: int| 0 <= u < len implies fsum(ring, |w: int| evt(w, u), len) == #[trigger] pair_in(
            ring,
            f,
            g,
            d,
            v,
            t,
            u,
            n,
        ) by {
            lemma_union_bits(t, u, n);
            let w0 = union_bits(t, u, n);
            let e = |w: int| evt(w, u);
            ring.lemma_closed(f[t], g[u]);
            if contains_below(v, t, n) && contains_below(v, u, n) && popcount(t) + popcount(u) == d {
                assert forall|b: nat| b < n && #[trigger] has_bit(w0, b) implies has_bit(v, b) by {
                    assert(has_bit(t, b) || has_bit(u, b));
                }
                assert(contains_below(v, w0, n));
                assert forall|w: int| 0 <= w < len && w != w0 implies #[trigger] e(w) == ring.szero() by {
                    if is_union(t, u, w, n) {
                        assert forall|b: nat| b < n implies #[trigger] has_bit(w, b) == has_bit(w0, b) by {}
                        lemma_bits_determine(w, w0, n);
                    }
                }
                lemma_fsum_single(ring, e, len, w0);
            } else {
                assert forall|w: int| 0 <= w < len implies #[trigger] e(w) == ring.szero() by {
                    if contains_below(v, w, n) && is_union(t, u, w, n) {
                        assert forall|b: nat| b < n && #[trigger] has_bit(t, b) implies has_bit(v, b) by {
                            assert(has_bit(w, b));
                        }
                        assert forall|b: nat| b < n && #[trigger] has_bit(u, b) implies has_bit(v, b) by {
                            assert(has_bit(w, b));
                        }
                    }
                }
                lemma_fsum_zero(ring, e, len);
            }
        }
        lemma_fsum_ext(ring, |u: int| fsum(ring, |w: int| evt(w, u), len), |u: int| pair_in(ring, f, g, d, v, t, u, n), len);
    }
    lemma_fsum_ext(ring, |t: int| fsum(ring, |w: int| x(w, t), len), pt, len);
}

/// The subset convolution in closed form: the diagonal of the ranked subset Möbius transform of the
/// rank-wise product of the ranked subset zeta transforms of `f` and `g` is, at each `S`,
/// `Σ_{T ∪ U = S, T ∩ U = ∅} f(T) g(U) = Σ_{T ⊆ S} f(T) g(S \ T)`.
pub proof fn lemma_subset_convolution_closed<R: Ring>(ring: R, f: Seq<R::Value>, g: Seq<R::Value>, n: nat, s: int)
    requires
        f.len() == pow2(n),
        g.len() == pow2(n),
        n == log2_of(f.len() as int),
        all_valid(ring, f),
        all_valid(ring, g),
        0 <= s < pow2(n),
    ensures
        subset_mobius_of(
            ring,
            rank_products(ring, ranked_zeta(ring, f), ranked_zeta(ring, g), f.len())[popcount(s) as int],
            s,
            n,
        ) == disjoint_union_sum(ring, f, g, s, n),
{
    let len = pow2(n) as int;
    vstd::arithmetic::power2::lemma_pow2_pos(n);
    ring.lemma_closed(f[0], g[0]);
    lemma_popcount_bits(s, n);
    lemma_bits_bound(s, n);
    let d = popcount(s) as int;
    let q = union_seq(ring, f, g, d, n);
    let va = ranked_zeta(ring, f);
    let vb = ranked_zeta(ring, g);
    let p = rank_products(ring, va, vb, f.len())[d];
    lemma_union_seq_valid(ring, f, g, d, n);
    assert(subset_zeta_seq(ring, q, n) =~= p) by {
        assert forall|v: int| 0 <= v < len implies #[trigger] subset_zeta_seq(ring, q, n)[v] == p[v] by {
            lemma_subset_zeta_closed(ring, q, v, n);
            lemma_union_zeta(ring, f, g, n, d, v);
            lemma_rank_products_value(ring, f, g, n, d, v);
        }
    }
    lemma_subset_mobius_inverts_zeta(ring, q, n);
    assert(subset_mobius_seq(ring, p, n)[s] == q[s]);
    // `|T| + |U| = |S|` for `T ∪ U = S` exactly when `T` and `U` are disjoint
    assert forall|t: int| 0 <= t < len implies fsum(ring, |u: int| pair_union(ring, f, g, d, s, t, u, n), len)
        == #[trigger] fsum(ring, split_term(ring, f, g, s, t, n), len) by {
        assert forall|u: int| 0 <= u < len implies #[trigger] pair_union(ring, f, g, d, s, t, u, n) == split_term(
            ring,
            f,
            g,
            s,
            t,
            n,
        )(u) by {
            if is_union(t, u, s, n) {
                lemma_popcount_bits(t, n);
                lemma_popcount_bits(u, n);
                lemma_union_count(t, u, s, n);
            }
        }
        lemma_fsum_ext(ring, |u: int| pair_union(ring, f, g, d, s, t, u, n), split_term(ring, f, g, s, t, n), len);
    }
    lemma_fsum_ext(
        ring,
        |t: int| fsum(ring, |u: int| pair_union(ring, f, g, d, s, t, u, n), len),
        |t: int| fsum(ring, split_term(ring, f, g, s, t, n), len),
        len,
    );
}

} // verus!