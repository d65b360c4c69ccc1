//! Ranked subset transforms, by which set power series multiply.
use crate::algebra::{Ring, Semiring};
use crate::set_function::subset::{subset_mobius, subset_mobius_of, subset_zeta, subset_zeta_of};
use crate::set_function::disjoint_sum::{disjoint_union_sum, lemma_subset_convolution_closed};
use crate::set_function::superset::{is_pow2, log2_of};
use vstd::arithmetic::power2::pow2;
use vstd::prelude::*;

verus! {

/// The number of elements of the set `s`: the number of its set bits.
pub open spec fn popcount(s: int) -> nat
    decreases s,
{
    if s <= 0 {
        0
    } else {
        (s % 2) as nat + popcount(s / 2)
    }
}

/// A set below `2^n` has at most `n` elements, and at most as many as its index.
proof fn lemma_popcount_bound(s: int, n: nat)
    requires
        0 <= s < pow2(n),
    ensures
        popcount(s) <= n,
        popcount(s) <= s,
    decreases n,
{
    if s > 0 {
        if n == 0 {
            vstd::arithmetic::power2::lemma2_to64();
        } else {
            vstd::arithmetic::power2::lemma_pow2_unfold(n);
            lemma_popcount_bound(s / 2, (n - 1) as nat);
        }
    }
}

/// The number of elements of `s`.
fn count_members(s: usize) -> (c: usize)
    ensures
        c == popcount(s as int),
{
    let mut c: usize = 0;
    let mut x: usize = s;
    proof {
        lemma_popcount_le(s as int);
    }
    while x > 0
        invariant
            c + popcount(x as int) == popcount(s as int),
            popcount(s as int) <= s,
        decreases x,
    {
        c = c + x % 2;
        x = x / 2;
    }
    c
}

proof fn lemma_popcount_le(s: int)
    requires
        s >= 0,
    ensures
        popcount(s) <= s,
    decreases s,
{
    if s > 0 {
        lemma_popcount_le(s / 2);
    }
}

proof fn lemma_log2_eq(a: int, b: int)
    requires
        a == b,
    ensures
        log2_of(a) == log2_of(b),
{
}

/// The part of `f` of rank `i`: `f(T)` on the sets `T` of `i` elements, `0` elsewhere.
pub open spec fn rank_part<R: Semiring>(ring: R, f: Seq<R::Value>, i: nat) -> Seq<R::Value> {
    Seq::new(f.len(), |t: int| if popcount(t) == i { f[t] } else { ring.szero() })
}

/// The ranked subset zeta transform of `f`: `layers[i][S] = Σ_{T⊆S, |T|=i} f(T)`, the subset zeta
/// transform of the part of `f` of rank `i`, for `i` in `[0, n]` and `f.len() == 2^n`.
pub fn ranked_subset_zeta<R: Ring>(ring: &R, f: Vec<R::Value>) -> (layers: Vec<Vec<R::Value>>)
    requires
        is_pow2(f@.len() as int),
        forall|t: int| 0 <= t < f@.len() ==> ring.valid(#[trigger] f@[t]),
    ensures
        layers@.len() == log2_of(f@.len() as int) + 1,
        forall|i: int| 0 <= i < layers@.len() ==> (#[trigger] layers@[i])@.len() == f@.len(),
        forall|i: int, s: int|
            0 <= i < layers@.len() && 0 <= s < f@.len() ==> #[trigger] layers@[i]@[s] == subset_zeta_of(
                *ring,
                rank_part(*ring, f@, i as nat),
                s,
                log2_of(f@.len() as int),
            ),
        forall|i: int, s: int|
            0 <= i < layers@.len() && 0 <= s < f@.len() ==> ring.valid(#[trigger] layers@[i]@[s]),
{
    let ghost f0 = f@;
    let ghost nb = log2_of(f0.len() as int);
    let len = f.len();
    let mut n: usize = 0;
    let mut w: usize = 1;
    proof {
        vstd::arithmetic::power2::lemma2_to64();
        if nb > 0 {
            vstd::arithmetic::power2::lemma_pow2_strictly_increases(0, nb);
        }
        if nb > 64 {
            vstd::arithmetic::power2::lemma_pow2_strictly_increases(64, nb);
        }
    }
    while w < len
        invariant
            w == pow2(n as nat),
            pow2(nb) == len,
            n <= nb,
            nb < 64,
            w > 0,
        decreases len - w,
    {
        proof {
            if n == nb {
                assert(w == len);
            }
            vstd::arithmetic::power2::lemma_pow2_unfold((n + 1) as nat);
            if n + 1 < nb {
                vstd::arithmetic::power2::lemma_pow2_strictly_increases((n + 1) as nat, nb);
            }
        }
        w = 2 * w;
        n = n + 1;
    }
    proof {
        if n < nb {
            vstd::arithmetic::power2::lemma_pow2_strictly_increases(n as nat, nb);
        }
        assert(n == nb);
        ring.lemma_closed(f0[0], f0[0]);
    }
    let mut f = f;
    let mut layers: Vec<Vec<R::Value>> = Vec::new();
    let mut i: usize = 0;
    while i <= n
        invariant
            n == nb,
            nb == log2_of(f0.len() as int),
            nb < 64,
            pow2(nb) == len,
            len == f0.len(),
            f@.len() == len,
            i <= n + 1,
            layers@.len() == i,
            ring.valid(ring.szero()),
            forall|t: int| 0 <= t < len ==> ring.valid(#[trigger] f0[t]),
            forall|t: int| 0 <= t < len ==> #[trigger] f@[t] == if popcount(t) < i { ring.szero() } else { f0[t] },
            forall|j: int| 0 <= j < i ==> (#[trigger] layers@[j])@.len() == len,
            forall|j: int, s: int|
                0 <= j < i && 0 <= s < len ==> #[trigger] layers@[j]@[s] == subset_zeta_of(
                    *ring,
                    rank_part(*ring, f0, j as nat),
                    s,
                    nb,
                ),
            forall|j: int, s: int| 0 <= j < i && 0 <= s < len ==> ring.valid(#[trigger] layers@[j]@[s]),
        decreases n + 1 - i,
    {
        let mut layer: Vec<R::Value> = Vec::with_capacity(len);
        let mut s: usize = 0;
        while s < len
            invariant
                n == nb,
                len == f0.len(),
                f@.len() == len,
                s <= len,
                i <= n,
                layer@.len() == s,
                ring.valid(ring.szero()),
                forall|t: int| 0 <= t < len ==> ring.valid(#[trigger] f0[t]),
                forall|t: int|
                    0 <= t < len ==> #[trigger] f@[t] == if popcount(t) < i || (popcount(t) == i && t < s) {
                        ring.szero()
                    } else {
                        f0[t]
                    },
                forall|t: int| 0 <= t < s ==> #[trigger] layer@[t] == rank_part(*ring, f0, i as nat)[t],
            decreases len - s,
        {
            let mut v = ring.zero();
            if count_members(s) == i {
                f.set_and_swap(s, &mut v);
            }
            layer.push(v);
            s = s + 1;
        }
        proof {
            assert forall|t: int| 0 <= t < len implies ring.valid(#[trigger] layer@[t]) by {}
            assert(layer@ =~= rank_part(*ring, f0, i as nat));
        }
        let ghost part = layer@;
        proof {
            assert(pow2(nb) == layer@.len());
            assert(is_pow2(layer@.len() as int));
        }
        subset_zeta(ring, layer.as_mut_slice());
        let ghost lz = layer@;
        proof {
            assert(part.len() == f0.len());
            lemma_log2_eq(part.len() as int, f0.len() as int);
            assert(lz.len() == len);
            assert forall|t: int| 0 <= t < len implies #[trigger] lz[t] == subset_zeta_of(
                *ring,
                part,
                t,
                log2_of(part.len() as int),
            ) by {}
        }
        let ghost before = layers@;
        layers.push(layer);
        proof {
            assert(layers@[i as int]@ == lz);
            assert forall|j: int, t: int|
                0 <= j < i + 1 && 0 <= t < len implies #[trigger] layers@[j]@[t] == subset_zeta_of(
                *ring,
                rank_part(*ring, f0, j as nat),
                t,
                nb,
            ) && ring.valid(layers@[j]@[t]) by {
                if j < i {
                    assert(layers@[j] == before[j]);
                } else {
                    assert(lz[t] == subset_zeta_of(*ring, part, t, nb));
                }
            }
        }
        i = i + 1;
    }
    layers
}

/// The diagonal of the inverse ranked subset zeta transform, inverting `ranked_subset_zeta`:
/// `S -> Σ_{T⊆S} (-1)^{|S|-|T|} layers[|S|][T]`, the subset Möbius transform of the layer of the
/// rank of `S`, at `S`; for `n + 1` layers of length `2^n`.
pub fn ranked_subset_mobius<R: Ring>(ring: &R, layers: Vec<Vec<R::Value>>) -> (f: Vec<R::Value>)
    requires
        layers@.len() >= 1,
        is_pow2(layers@[0]@.len() as int),
        layers@.len() == log2_of(layers@[0]@.len() as int) + 1,
        forall|i: int| 0 <= i < layers@.len() ==> (#[trigger] layers@[i])@.len() == layers@[0]@.len(),
        forall|i: int, s: int|
            0 <= i < layers@.len() && 0 <= s < layers@[0]@.len() ==> ring.valid(#[trigger] layers@[i]@[s]),
    ensures
        f@.len() == layers@[0]@.len(),
        forall|s: int|
            0 <= s < f@.len() ==> #[trigger] f@[s] == subset_mobius_of(
                *ring,
                layers@[popcount(s) as int]@,
                s,
                log2_of(layers@[0]@.len() as int),
            ),
        forall|s: int| 0 <= s < f@.len() ==> ring.valid(#[trigger] f@[s]),
{
    let ghost l0 = layers@;
    let ghost len = l0[0]@.len();
    let ghost nb = log2_of(len as int);
    let mut layers = layers;
    let count = layers.len();
    let len_x = layers[0].len();
    let mut i: usize = 0;
    proof {
        vstd::arithmetic::power2::lemma_pow2_pos(nb);
        assert(pow2(nb) == len) by {
            let k = choose|k: nat| pow2(k) == len;
        }
        assert(ring.valid(l0[0]@[0]));
        ring.lemma_closed(l0[0]@[0], l0[0]@[0]);
    }
    while i < count
        invariant
            count == l0.len(),
            nb == log2_of(len as int),
            layers@.len() == count,
            len_x == len,
            i <= count,
            is_pow2(len as int),
            forall|j: int| 0 <= j < count ==> (#[trigger] layers@[j])@.len() == len,
            forall|j: int| 0 <= j < count ==> (#[trigger] l0[j])@.len() == len,
            forall|j: int, s: int| 0 <= j < count && 0 <= s < len ==> ring.valid(#[trigger] l0[j]@[s]),
            forall|j: int, s: int| 0 <= j < count && 0 <= s < len ==> ring.valid(#[trigger] layers@[j]@[s]),
            forall|j: int, s: int|
                0 <= j < i && 0 <= s < len ==> #[trigger] layers@[j]@[s] == subset_mobius_of(*ring, l0[j]@, s, nb),
            forall|j: int| i <= j < count ==> #[trigger] layers@[j] == l0[j],
        decreases count - i,
    {
        let mut layer: Vec<R::Value> = Vec::new();
        layers.set_and_swap(i, &mut layer);
        proof {
            assert(layer == l0[i as int]);
        }
        subset_mobius(ring, layer.as_mut_slice());
        let ghost lm = layer@;
        proof {
            assert(l0[i as int]@.len() == len);
            lemma_log2_eq(l0[i as int]@.len() as int, len as int);
        }
        let ghost before = layers@;
        layers.set_and_swap(i, &mut layer);
        proof {
            assert(layers@[i as int]@ == lm);
            assert forall|t: int| 0 <= t < len implies #[trigger] lm[t] == subset_mobius_of(*ring, l0[i as int]@, t, nb) by {}
        }
        proof {
            assert forall|j: int| 0 <= j < count implies (#[trigger] layers@[j])@.len() == len by {
                if j != i {
                    assert(layers@[j] == before[j]);
                }
            }
            assert forall|j: int, s: int| 0 <= j < count && 0 <= s < len implies ring.valid(#[trigger] layers@[j]@[s]) by {
                if j != i {
                    assert(layers@[j] == before[j]);
                }
            }
            assert forall|j: int, s: int|
                0 <= j < i + 1 && 0 <= s < len implies #[trigger] layers@[j]@[s] == subset_mobius_of(*ring, l0[j]@, s, nb) by {
                if j != i {
                    assert(layers@[j] == before[j]);
                }
            }
            assert forall|j: int| i + 1 <= j < count implies #[trigger] layers@[j] == l0[j] by {
                assert(layers@[j] == before[j]);
            }
        }
        i = i + 1;
    }
    let ghost transformed = layers@;
    let mut f: Vec<R::Value> = Vec::with_capacity(len_x);
    let mut s: usize = 0;
    while s < len_x
        invariant
            count == l0.len(),
            count == nb + 1,
            pow2(nb) == len,
            layers@.len() == count,
            len_x == len,
            s <= len,
            f@.len() == s,
            ring.valid(ring.szero()),
            forall|j: int| 0 <= j < count ==> (#[trigger] layers@[j])@.len() == len,
            forall|j: int, t: int|
                0 <= j < count && 0 <= t < len && !(popcount(t) == j && t < s) ==> #[trigger] layers@[j]@[t]
                    == transformed[j]@[t],
            forall|j: int, t: int|
                0 <= j < count && 0 <= t < len ==> #[trigger] transformed[j]@[t] == subset_mobius_of(*ring, l0[j]@, t, nb),
            forall|j: int, t: int| 0 <= j < count && 0 <= t < len ==> ring.valid(#[trigger] transformed[j]@[t]),
            forall|t: int| 0 <= t < s ==> #[trigger] f@[t] == subset_mobius_of(*ring, l0[popcount(t) as int]@, t, nb),
            forall|t: int| 0 <= t < s ==> ring.valid(#[trigger] f@[t]),
        decreases len - s,
    {
        proof {
            lemma_popcount_bound(s as int, nb);
        }
        let r = count_members(s);
        let mut layer: Vec<R::Value> = Vec::new();
        layers.set_and_swap(r, &mut layer);
        let mut v = ring.zero();
        proof {
            assert(layer@[s as int] == transformed[r as int]@[s as int]);
        }
        layer.set_and_swap(s, &mut v);
        let ghost before = layers@;
        layers.set_and_swap(r, &mut layer);
        f.push(v);
        proof {
            assert forall|j: int| 0 <= j < count implies (#[trigger] layers@[j])@.len() == len by {
                if j != r {
                    assert(layers@[j] == before[j]);
                }
            }
            assert forall|j: int, t: int|
                0 <= j < count && 0 <= t < len && !(popcount(t) == j && t < s + 1) implies #[trigger] layers@[j]@[t]
                    == transformed[j]@[t] by {
                if j != r {
                    assert(layers@[j] == before[j]);
                }
            }
        }
        s = s + 1;
    }
    f
}

/// `Σ_{k <= i <= d} a[i][s] b[d - i][s]`, the terms added from `i = d` down to `i = k`.
pub open spec fn rank_product<R: Semiring>(
    ring: R,
    a: Seq<Seq<R::Value>>,
    b: Seq<Seq<R::Value>>,
    d: int,
    k: int,
    s: int,
) -> R::Value
    decreases d - k,
{
    if k >= d {
        ring.smul(a[d][s], b[0][s])
    } else {
        ring.sadd(rank_product(ring, a, b, d, k + 1, s), ring.smul(a[k][s], b[d - k][s]))
    }
}

/// The ranked subset zeta transform of `f` as layers of `n + 1` sequences.
pub open spec fn ranked_zeta<R: Semiring>(ring: R, f: Seq<R::Value>) -> Seq<Seq<R::Value>> {
    Seq::new(
        log2_of(f.len() as int) + 1,
        |i: int| Seq::new(f.len(), |t: int| subset_zeta_of(ring, rank_part(ring, f, i as nat), t, log2_of(f.len() as int))),
    )
}

/// The layers of the rank-wise products: `Σ_{i <= d} a[i] b[d - i]` pointwise, for each rank `d`.
pub open spec fn rank_products<R: Semiring>(ring: R, a: Seq<Seq<R::Value>>, b: Seq<Seq<R::Value>>, len: nat) -> Seq<Seq<R::Value>> {
    Seq::new(a.len(), |d: int| Seq::new(len, |t: int| rank_product(ring, a, b, d, 0, t)))
}

pub(crate) proof fn lemma_rank_product_valid<R: Semiring>(ring: R, a: Seq<Seq<R::Value>>, b: Seq<Seq<R::Value>>, d: int, k: int, s: int)
    requires
        0 <= k,
        ring.valid(a[d][s]),
        ring.valid(b[0][s]),
        forall|i: int| k <= i < d ==> ring.valid(#[trigger] a[i][s]) && ring.valid(b[d - i][s]),
    ensures
        ring.valid(rank_product(ring, a, b, d, k, s)),
    decreases d - k,
{
    ring.lemma_closed(a[d][s], b[0][s]);
    if k < d {
        lemma_rank_product_valid(ring, a, b, d, k + 1, s);
        ring.lemma_closed(a[k][s], b[d - k][s]);
        ring.lemma_closed(rank_product(ring, a, b, d, k + 1, s), ring.smul(a[k][s], b[d - k][s]));
    }
}

/// The subset convolution of `f` and `g`, the product of set power series, by the ranked
/// transforms: the ranked subset zeta transforms of `f` and `g` are multiplied rank-wise, as
/// polynomials in the rank, and the diagonal of the ranked subset Möbius transform of the product is
/// taken. For `f.len() == g.len() == 2^n`.
pub fn subset_convolve<R: Ring>(ring: &R, f: Vec<R::Value>, g: Vec<R::Value>) -> (h: Vec<R::Value>)
    requires
        f@.len() == g@.len(),
        is_pow2(f@.len() as int),
        forall|t: int| 0 <= t < f@.len() ==> ring.valid(#[trigger] f@[t]),
        forall|t: int| 0 <= t < g@.len() ==> ring.valid(#[trigger] g@[t]),
    ensures
        h@.len() == f@.len(),
        forall|s: int|
            0 <= s < h@.len() ==> #[trigger] h@[s] == subset_mobius_of(
                *ring,
                rank_products(*ring, ranked_zeta(*ring, f@), ranked_zeta(*ring, g@), f@.len())[popcount(s) as int],
                s,
                log2_of(f@.len() as int),
            ),
        forall|s: int|
            0 <= s < h@.len() ==> #[trigger] h@[s] == disjoint_union_sum(*ring, f@, g@, s, log2_of(f@.len() as int)),
{
    let ghost f0 = f@;
    let ghost g0 = g@;
    let ghost nb = log2_of(f0.len() as int);
    let ghost len = f0.len();
    let mut a = ranked_subset_zeta(ring, f);
    let b = ranked_subset_zeta(ring, g);
    let ghost za = a@;
    let ghost zb = b@;
    let ghost va = ranked_zeta(*ring, f0);
    let ghost vb = ranked_zeta(*ring, g0);
    proof {
        assert forall|i: int, t: int| 0 <= i <= nb && 0 <= t < len implies #[trigger] va[i][t] == za[i]@[t] && vb[i][t] == zb[i]@[t] by {}
    }
    let count = a.len();
    let l = a[0].len();
    let mut s: usize = 0;
    while s < l
        invariant
            count == nb + 1,
            l == len,
            len == f0.len(),
            a@.len() == count,
            b@ == zb,
            zb.len() == count,
            forall|i: int| 0 <= i < count ==> (#[trigger] a@[i])@.len() == len,
            forall|i: int| 0 <= i < count ==> (#[trigger] zb[i])@.len() == len,
            forall|i: int, t: int| 0 <= i < count && 0 <= t < len ==> #[trigger] va[i][t] == za[i]@[t],
            forall|i: int, t: int| 0 <= i < count && 0 <= t < len ==> #[trigger] vb[i][t] == zb[i]@[t],
            forall|i: int, t: int| 0 <= i < count && 0 <= t < len ==> ring.valid(#[trigger] za[i]@[t]),
            forall|i: int, t: int| 0 <= i < count && 0 <= t < len ==> ring.valid(#[trigger] zb[i]@[t]),
            forall|i: int, t: int| 0 <= i < count && 0 <= t < len ==> ring.valid(#[trigger] a@[i]@[t]),
            forall|i: int, t: int|
                0 <= i < count && 0 <= t < s ==> #[trigger] a@[i]@[t] == rank_product(*ring, va, vb, i, 0, t),
            forall|i: int, t: int| 0 <= i < count && s <= t < len ==> #[trigger] a@[i]@[t] == za[i]@[t],
        decreases l - s,
    {
        let mut d: usize = count;
        while d > 0
            invariant
                count == nb + 1,
                l == len,
                s < len,
                d <= count,
                a@.len() == count,
                b@ == zb,
                zb.len() == count,
                forall|i: int| 0 <= i < count ==> (#[trigger] a@[i])@.len() == len,
                forall|i: int| 0 <= i < count ==> (#[trigger] zb[i])@.len() == len,
                forall|i: int, t: int| 0 <= i < count && 0 <= t < len ==> #[trigger] va[i][t] == za[i]@[t],
                forall|i: int, t: int| 0 <= i < count && 0 <= t < len ==> #[trigger] vb[i][t] == zb[i]@[t],
                forall|i: int, t: int| 0 <= i < count && 0 <= t < len ==> ring.valid(#[trigger] za[i]@[t]),
                forall|i: int, t: int| 0 <= i < count && 0 <= t < len ==> ring.valid(#[trigger] zb[i]@[t]),
                forall|i: int, t: int| 0 <= i < count && 0 <= t < len ==> ring.valid(#[trigger] a@[i]@[t]),
                forall|i: int, t: int|
                    0 <= i < count && (0 <= t < s || (t == s && d <= i)) ==> #[trigger] a@[i]@[t] == rank_product(
                        *ring,
                        va,
                        vb,
                        i,
                        0,
                        t,
                    ),
                forall|i: int, t: int|
                    0 <= i < count && s <= t < len && !(t == s && d <= i) ==> #[trigger] a@[i]@[t] == za[i]@[t],
            decreases d,
        {
            d = d - 1;
            let mut acc = ring.mul(&a[d][s], &b[0][s]);
            let mut k: usize = d;
            while k > 0
                invariant
                    count == nb + 1,
                    d < count,
                    s < len,
                    k <= d,
                    a@.len() == count,
                    b@ == zb,
                    zb.len() == count,
                    forall|i: int| 0 <= i < count ==> (#[trigger] a@[i])@.len() == len,
                    forall|i: int| 0 <= i < count ==> (#[trigger] zb[i])@.len() == len,
                    forall|i: int, t: int| 0 <= i < count && 0 <= t < len ==> #[trigger] va[i][t] == za[i]@[t],
                    forall|i: int, t: int| 0 <= i < count && 0 <= t < len ==> #[trigger] vb[i][t] == zb[i]@[t],
                    forall|i: int, t: int| 0 <= i < count && 0 <= t < len ==> ring.valid(#[trigger] zb[i]@[t]),
                    forall|i: int, t: int| 0 <= i < count && 0 <= t < len ==> ring.valid(#[trigger] a@[i]@[t]),
                    forall|i: int| 0 <= i <= d ==> #[trigger] a@[i]@[s as int] == za[i]@[s as int],
                    acc == rank_product(*ring, va, vb, d as int, k as int, s as int),
                    ring.valid(acc),
                decreases k,
            {
                k = k - 1;
                let p = ring.mul(&a[k][s], &b[d - k][s]);
                acc = ring.add(&acc, &p);
            }
            let mut layer: Vec<R::Value> = Vec::new();
            a.set_and_swap(d, &mut layer);
            layer.set(s, acc);
            let ghost before = a@;
            a.set_and_swap(d, &mut layer);
            proof {
                assert forall|i: int| 0 <= i < count implies (#[trigger] a@[i])@.len() == len by {
                    if i != d {
                        assert(a@[i] == before[i]);
                    }
                }
                assert forall|i: int, t: int| 0 <= i < count && 0 <= t < len implies ring.valid(#[trigger] a@[i]@[t]) by {
                    if i != d {
                        assert(a@[i] == before[i]);
                    }
                }
                assert forall|i: int, t: int|
                    0 <= i < count && (0 <= t < s || (t == s && d <= i)) implies #[trigger] a@[i]@[t] == rank_product(
                    *ring,
                    va,
                    vb,
                    i,
                    0,
                    t,
                ) by {
                    if i != d {
                        assert(a@[i] == before[i]);
                    }
                }
                assert forall|i: int, t: int|
                    0 <= i < count && s <= t < len && !(t == s && d <= i) implies #[trigger] a@[i]@[t] == za[i]@[t] by {
                    if i != d {
                        assert(a@[i] == before[i]);
                    }
                }
            }
        }
        s = s + 1;
    }
    let ghost prod = a@;
    proof {
        assert forall|i: int, t: int| 0 <= i < count && 0 <= t < len implies #[trigger] prod[i]@[t] == rank_products(
            *ring,
            va,
            vb,
            len,
        )[i][t] by {}
        assert(prod[0]@.len() == len);
        assert(pow2(nb) == len) by {
            let k = choose|k: nat| pow2(k) == len;
        }
        lemma_log2_eq(prod[0]@.len() as int, len as int);
    }
    let h = ranked_subset_mobius(ring, a);
    proof {
        assert forall|t: int| 0 <= t < len implies #[trigger] h@[t] == subset_mobius_of(
            *ring,
            rank_products(*ring, va, vb, len)[popcount(t) as int],
            t,
            nb,
        ) by {
            lemma_popcount_bound(t, nb);
            let r = popcount(t) as int;
            assert(prod[r]@ =~= rank_products(*ring, va, vb, len)[r]);
        }
        assert forall|t: int| 0 <= t < len implies #[trigger] h@[t] == disjoint_union_sum(*ring, f0, g0, t, nb) by {
            lemma_subset_convolution_closed(*ring, f0, g0, nb, t);
        }
    }
    h
}

} // verus!
