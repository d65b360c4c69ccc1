//! The zeta and Mobius transforms of the boolean lattice ordered by reverse inclusion, and the
//! intersection convolution.
use crate::algebra::{lemma_add_swap, lemma_neg_add, Ring, Semiring};
use vstd::arithmetic::power2::pow2;
use crate::set_function::intersection_sum::{intersection_sum, lemma_intersection_closed};
use crate::set_function::superset_sum::{lemma_superset_zeta_closed, superset_sum};
use vstd::prelude::*;

verus! {

/// The bit `b` of `s` is set.
pub open spec fn has_bit(s: int, b: nat) -> bool {
    (s / pow2(b) as int) % 2 == 1
}

/// `len` is `2^n` for some `n`.
pub open spec fn is_pow2(len: int) -> bool {
    exists|n: nat| pow2(n) == len
}

/// The sum of `f(T)` over the supersets `T` of `S` that agree with `S` from the bit `k` on: those
/// without the bit `k - 1` of `S`, and, if `S` lacks it, those with it.
pub open spec fn zeta<R: Semiring>(ring: R, f: Seq<R::Value>, s: int, k: nat) -> R::Value
    decreases k,
{
    if k == 0 {
        f[s]
    } else {
        let b = (k - 1) as nat;
        if has_bit(s, b) {
            zeta(ring, f, s, b)
        } else {
            ring.sadd(zeta(ring, f, s, b), zeta(ring, f, s + pow2(b), b))
        }
    }
}

/// The alternating sum `Σ (-1)^{|T|-|S|} f(T)` over the supersets `T` of `S` that agree with `S`
/// from the bit `k` on.
pub open spec fn mobius<R: Ring>(ring: R, f: Seq<R::Value>, s: int, k: nat) -> R::Value
    decreases k,
{
    if k == 0 {
        f[s]
    } else {
        let b = (k - 1) as nat;
        if has_bit(s, b) {
            mobius(ring, f, s, b)
        } else {
            ring.sadd(mobius(ring, f, s, b), ring.sneg(mobius(ring, f, s + pow2(b), b)))
        }
    }
}

/// `n` with `len == 2^n`.
pub open spec fn log2_of(len: int) -> nat {
    choose|n: nat| pow2(n) == len
}

/// In a block of length `2w` starting at a multiple `base` of `2w`, with `w = 2^k`, the first half
/// lacks the bit `k` and the second half has it.
pub(crate) proof fn lemma_block_bits(base: int, blk: int, i: int, k: nat)
    requires
        blk >= 0,
        base == blk * (2 * pow2(k)),
        0 <= i < 2 * pow2(k),
    ensures
        i < pow2(k) ==> !has_bit(base + i, k),
        i >= pow2(k) ==> has_bit(base + i, k),
{
    let w = pow2(k) as int;
    vstd::arithmetic::power2::lemma_pow2_pos(k);
    if i < w {
        assert(base + i == (2 * blk) * w + i) by (nonlinear_arith)
            requires
                base == blk * (2 * w),
        ;
        vstd::arithmetic::div_mod::lemma_fundamental_div_mod_converse(base + i, w, 2 * blk, i);
    } else {
        assert(base + i == (2 * blk + 1) * w + (i - w)) by (nonlinear_arith)
            requires
                base == blk * (2 * w),
        ;
        vstd::arithmetic::div_mod::lemma_fundamental_div_mod_converse(base + i, w, 2 * blk + 1, i - w);
    }
}

/// `2^k` below `2^n` divides it: the blocks of length `2^(k + 1)` tile `[0, 2^n)`.
pub(crate) proof fn lemma_blocks_tile(k: nat, n: nat, blk: int)
    requires
        k < n,
        0 <= blk,
        blk * (2 * pow2(k)) < pow2(n),
    ensures
        (blk + 1) * (2 * pow2(k)) <= pow2(n),
        2 * pow2(k) <= pow2(n),
{
    vstd::arithmetic::power2::lemma_pow2_adds((n - k - 1) as nat, (k + 1) as nat);
    vstd::arithmetic::power2::lemma_pow2_unfold((k + 1) as nat);
    vstd::arithmetic::power2::lemma_pow2_pos((n - k - 1) as nat);
    vstd::arithmetic::power2::lemma_pow2_pos(k);
    let q = pow2((n - k - 1) as nat) as int;
    let d = 2 * pow2(k) as int;
    assert(pow2(n) == q * d);
    assert(blk < q) by (nonlinear_arith)
        requires
            blk * d < q * d,
            d > 0,
    ;
    assert((blk + 1) * d <= q * d) by (nonlinear_arith)
        requires
            blk + 1 <= q,
            d > 0,
    ;
    assert(d <= q * d) by (nonlinear_arith)
        requires
            q >= 1,
            d > 0,
    ;
}

/// `s` split at the bit `b`: a multiple of `2^(b + 1)` and a remainder, at least `2^b` iff the bit
/// `b` of `s` is set.
pub(crate) proof fn lemma_bit_split(s: int, b: nat)
    requires
        s >= 0,
    ensures
        pow2(b + 1) == 2 * pow2(b),
        pow2(b) > 0,
        s == (s / pow2(b + 1) as int) * pow2(b + 1) + s % pow2(b + 1) as int,
        0 <= (s % pow2(b + 1) as int) < pow2(b + 1),
        s / pow2(b + 1) as int >= 0,
        has_bit(s, b) <==> s % pow2(b + 1) as int >= pow2(b),
{
    let d = pow2(b) as int;
    vstd::arithmetic::power2::lemma_pow2_pos(b);
    vstd::arithmetic::power2::lemma_pow2_unfold(b + 1);
    vstd::arithmetic::div_mod::lemma_fundamental_div_mod(s, d);
    vstd::arithmetic::div_mod::lemma_mod_pos_bound(s, d);
    let q = s / d;
    let r = s % d;
    assert(q >= 0) by (nonlinear_arith)
        requires
            s == d * q + r,
            0 <= r < d,
            s >= 0,
            d > 0,
    ;
    let bq = q / 2;
    let beta = q % 2;
    assert(s == bq * (2 * d) + (beta * d + r)) by (nonlinear_arith)
        requires
            s == d * q + r,
            q == 2 * bq + beta,
    ;
    assert(0 <= beta * d + r < 2 * d) by (nonlinear_arith)
        requires
            0 <= beta <= 1,
            0 <= r < d,
    ;
    vstd::arithmetic::div_mod::lemma_fundamental_div_mod_converse(s, 2 * d, bq, beta * d + r);
    assert(beta == 1 <==> beta * d + r >= d) by (nonlinear_arith)
        requires
            0 <= beta <= 1,
            0 <= r < d,
    ;
    assert(bq >= 0);
}

/// Setting the bit `b`, unset in `s`, of `s`: it is set, and the higher bits stay.
pub(crate) proof fn lemma_bit_set(s: int, b: nat)
    requires
        s >= 0,
        !has_bit(s, b),
    ensures
        has_bit(s + pow2(b), b),
        (s + pow2(b)) / pow2(b + 1) as int == s / pow2(b + 1) as int,
{
    lemma_bit_split(s, b);
    lemma_bit_split(s + pow2(b), b);
    let d2 = pow2(b + 1) as int;
    let q = s / d2;
    let r = s % d2;
    vstd::arithmetic::div_mod::lemma_fundamental_div_mod_converse(s + pow2(b), d2, q, r + pow2(b));
}

/// Setting the bit `b`, unset in `s`, keeps every other bit.
pub(crate) proof fn lemma_bit_other(s: int, b: nat, c: nat)
    requires
        s >= 0,
        b != c,
        !has_bit(s, b),
    ensures
        has_bit(s + pow2(b), c) == has_bit(s, c),
{
    lemma_bit_set(s, b);
    vstd::arithmetic::power2::lemma_pow2_pos(c);
    vstd::arithmetic::power2::lemma_pow2_pos(b);
    if c > b {
        let e = (c - b - 1) as nat;
        vstd::arithmetic::power2::lemma_pow2_adds(b + 1, e);
        vstd::arithmetic::power2::lemma_pow2_pos(e);
        vstd::arithmetic::power2::lemma_pow2_pos(b + 1);
        assert(pow2(c) == pow2(b + 1) * pow2(e));
        vstd::arithmetic::div_mod::lemma_div_denominator(s, pow2(b + 1) as int, pow2(e) as int);
        vstd::arithmetic::div_mod::lemma_div_denominator(s + pow2(b), pow2(b + 1) as int, pow2(e) as int);
    } else {
        let e = (b - c) as nat;
        vstd::arithmetic::power2::lemma_pow2_adds(e, c);
        vstd::arithmetic::power2::lemma_pow2_unfold(e);
        let k = pow2(e) as int;
        let dc = pow2(c) as int;
        vstd::arithmetic::div_mod::lemma_fundamental_div_mod(s, dc);
        vstd::arithmetic::div_mod::lemma_mod_pos_bound(s, dc);
        let q = s / dc;
        let r = s % dc;
        assert(s + pow2(b) == (q + k) * dc + r) by (nonlinear_arith)
            requires
                s == dc * q + r,
                pow2(b) == k * dc,
        ;
        vstd::arithmetic::div_mod::lemma_fundamental_div_mod_converse(s + pow2(b), dc, q + k, r);
        assert(k % 2 == 0);
    }
}

/// Setting an unset bit below `N` of a number below `2^N` keeps it below `2^N`.
pub(crate) proof fn lemma_bit_room(s: int, b: nat, n: nat)
    requires
        0 <= s < pow2(n),
        b < n,
        !has_bit(s, b),
    ensures
        s + pow2(b) < pow2(n),
{
    lemma_bit_split(s, b);
    let e = (n - b - 1) as nat;
    vstd::arithmetic::power2::lemma_pow2_adds(e, b + 1);
    vstd::arithmetic::power2::lemma_pow2_pos(e);
    let d2 = pow2(b + 1) as int;
    let p = pow2(e) as int;
    let q = s / d2;
    let r = s % d2;
    assert(pow2(n) == p * d2);
    assert(q < p) by (nonlinear_arith)
        requires
            s == q * d2 + r,
            0 <= r,
            s < p * d2,
            d2 > 0,
    ;
    assert(s + pow2(b) < pow2(n)) by (nonlinear_arith)
        requires
            s == q * d2 + r,
            r < pow2(b),
            d2 == 2 * pow2(b),
            q + 1 <= p,
            pow2(n) == p * d2,
            d2 > 0,
    ;
}

/// The superset zeta transform of `f`, in place: `f(S)` becomes `Σ_{T⊇S} f(T)`, the zeta transform
/// of the boolean lattice on `[n]` ordered by reverse inclusion, for `f.len() == 2^n`.
pub fn superset_zeta<R: Semiring>(ring: &R, f: &mut [R::Value])
    requires
        is_pow2(old(f)@.len() as int),
        forall|i: int| 0 <= i < old(f)@.len() ==> ring.valid(#[trigger] old(f)@[i]),
    ensures
        final(f)@.len() == old(f)@.len(),
        forall|s: int| 0 <= s < final(f)@.len() ==> #[trigger] final(f)@[s] == zeta(*ring, old(f)@, s, log2_of(old(f)@.len() as int)),
        forall|s: int|
            0 <= s < final(f)@.len() ==> #[trigger] final(f)@[s] == superset_sum(*ring, old(f)@, s, log2_of(old(f)@.len() as int)),
        forall|i: int| 0 <= i < final(f)@.len() ==> ring.valid(#[trigger] final(f)@[i]),
{
    let ghost f0 = f@;
    let ghost nbits = log2_of(f0.len() as int);
    let n = f.len();
    let mut w: usize = 1;
    let ghost mut k: nat = 0;
    proof {
        vstd::arithmetic::power2::lemma2_to64();
        assert forall|s: int| 0 <= s < n implies #[trigger] f@[s] == zeta(*ring, f0, s, 0) by {}
    }
    while w < n
        invariant
            f@.len() == n,
            f0.len() == n,
            pow2(nbits) == n,
            w == pow2(k),
            w > 0,
            k <= nbits,
            forall|i: int| 0 <= i < n ==> ring.valid(#[trigger] f@[i]),
            forall|s: int| 0 <= s < n ==> #[trigger] f@[s] == zeta(*ring, f0, s, k),
        decreases n - w,
    {
        proof {
            if k == nbits {
                assert(w == n);
            }
            lemma_blocks_tile(k, nbits, 0);
        }
        let ghost before = f@;
        let mut base: usize = 0;
        let ghost mut blk: int = 0;
        while base < n
            invariant
                f@.len() == n,
                pow2(nbits) == n,
                w == pow2(k),
                w > 0,
                k < nbits,
                2 * w <= n,
                before.len() == n,
                blk >= 0,
                base == blk * (2 * w),
                base <= n,
                forall|i: int| 0 <= i < n ==> ring.valid(#[trigger] f@[i]),
                forall|s: int| 0 <= s < n ==> #[trigger] before[s] == zeta(*ring, f0, s, k),
                forall|s: int| 0 <= s < base ==> #[trigger] f@[s] == zeta(*ring, f0, s, k + 1),
                forall|s: int| base <= s < n ==> #[trigger] f@[s] == before[s],
            decreases n - base,
        {
            proof {
                lemma_blocks_tile(k, nbits, blk);
                assert(base + 2 * w == (blk + 1) * (2 * w)) by (nonlinear_arith)
                    requires
                        base == blk * (2 * w),
                ;
            }
            let mut i: usize = 0;
            while i < w
                invariant
                    f@.len() == n,
                    w == pow2(k),
                    w > 0,
                    before.len() == n,
                    blk >= 0,
                    base == blk * (2 * w),
                    base + 2 * w <= n,
                    i <= w,
                    forall|j: int| 0 <= j < n ==> ring.valid(#[trigger] f@[j]),
                    forall|s: int| 0 <= s < n ==> #[trigger] before[s] == zeta(*ring, f0, s, k),
                    forall|s: int| 0 <= s < base + i ==> #[trigger] f@[s] == zeta(*ring, f0, s, k + 1),
                    forall|s: int| base + i <= s < n ==> #[trigger] f@[s] == before[s],
                decreases w - i,
            {
                let a = ring.add(&f[base + i], &f[base + w + i]);
                proof {
                    lemma_block_bits(base as int, blk, i as int, k);
                    lemma_block_bits(base as int, blk, (w + i) as int, k);
                    assert(base + i + pow2(k) == base + w + i);
                }
                f[base + i] = a;
                i = i + 1;
            }
            proof {
                assert forall|s: int| base + w <= s < base + 2 * w implies #[trigger] f@[s] == zeta(*ring, f0, s, k + 1) by {
                    lemma_block_bits(base as int, blk, s - base, k);
                }
            }
            base = base + 2 * w;
            proof {
                blk = blk + 1;
                assert(base == blk * (2 * w)) by (nonlinear_arith)
                    requires
                        base == (blk - 1) * (2 * w) + 2 * w,
                ;
            }
        }
        w = 2 * w;
        proof {
            vstd::arithmetic::power2::lemma_pow2_unfold(k + 1);
            k = k + 1;
        }
    }
    proof {
        if k < nbits {
            vstd::arithmetic::power2::lemma_pow2_strictly_increases(k, nbits);
        }
        assert forall|s: int| 0 <= s < n implies #[trigger] f@[s] == superset_sum(*ring, f0, s, nbits) by {
            lemma_superset_zeta_closed(*ring, f0, s, nbits);
        }
    }
}

/// The superset Mobius transform of `f`, in place, inverting `superset_zeta`: `f(S)` becomes
/// `Σ_{T⊇S} (-1)^{|T|-|S|} f(T)`, for `f.len() == 2^n`.
pub fn superset_mobius<R: Ring>(ring: &R, f: &mut [R::Value])
    requires
        is_pow2(old(f)@.len() as int),
        forall|i: int| 0 <= i < old(f)@.len() ==> ring.valid(#[trigger] old(f)@[i]),
    ensures
        final(f)@.len() == old(f)@.len(),
        forall|s: int| 0 <= s < final(f)@.len() ==> #[trigger] final(f)@[s] == mobius(*ring, old(f)@, s, log2_of(old(f)@.len() as int)),
        forall|s: int|
            0 <= s < final(f)@.len() ==> #[trigger] superset_sum(*ring, final(f)@, s, log2_of(old(f)@.len() as int))
                == old(f)@[s],
        forall|i: int| 0 <= i < final(f)@.len() ==> ring.valid(#[trigger] final(f)@[i]),
{
    let ghost f0 = f@;
    let ghost nbits = log2_of(f0.len() as int);
    let n = f.len();
    let mut w: usize = 1;
    let ghost mut k: nat = 0;
    proof {
        vstd::arithmetic::power2::lemma2_to64();
        assert forall|s: int| 0 <= s < n implies #[trigger] f@[s] == mobius(*ring, f0, s, 0) by {}
    }
    while w < n
        invariant
            f@.len() == n,
            f0.len() == n,
            pow2(nbits) == n,
            w == pow2(k),
            w > 0,
            k <= nbits,
            forall|i: int| 0 <= i < n ==> ring.valid(#[trigger] f@[i]),
            forall|s: int| 0 <= s < n ==> #[trigger] f@[s] == mobius(*ring, f0, s, k),
        decreases n - w,
    {
        proof {
            if k == nbits {
                assert(w == n);
            }
            lemma_blocks_tile(k, nbits, 0);
        }
        let ghost before = f@;
        let mut base: usize = 0;
        let ghost mut blk: int = 0;
        while base < n
            invariant
                f@.len() == n,
                pow2(nbits) == n,
                w == pow2(k),
                w > 0,
                k < nbits,
                2 * w <= n,
                before.len() == n,
                blk >= 0,
                base == blk * (2 * w),
                base <= n,
                forall|i: int| 0 <= i < n ==> ring.valid(#[trigger] f@[i]),
                forall|s: int| 0 <= s < n ==> #[trigger] before[s] == mobius(*ring, f0, s, k),
                forall|s: int| 0 <= s < base ==> #[trigger] f@[s] == mobius(*ring, f0, s, k + 1),
                forall|s: int| base <= s < n ==> #[trigger] f@[s] == before[s],
            decreases n - base,
        {
            proof {
                lemma_blocks_tile(k, nbits, blk);
                assert(base + 2 * w == (blk + 1) * (2 * w)) by (nonlinear_arith)
                    requires
                        base == blk * (2 * w),
                ;
            }
            let mut i: usize = 0;
            while i < w
                invariant
                    f@.len() == n,
                    w == pow2(k),
                    w > 0,
                    before.len() == n,
                    blk >= 0,
                    base == blk * (2 * w),
                    base + 2 * w <= n,
                    i <= w,
                    forall|j: int| 0 <= j < n ==> ring.valid(#[trigger] f@[j]),
                    forall|s: int| 0 <= s < n ==> #[trigger] before[s] == mobius(*ring, f0, s, k),
                    forall|s: int| 0 <= s < base + i ==> #[trigger] f@[s] == mobius(*ring, f0, s, k + 1),
                    forall|s: int| base + i <= s < n ==> #[trigger] f@[s] == before[s],
                decreases w - i,
            {
                let nb = ring.neg(&f[base + w + i]);
                let a = ring.add(&f[base + i], &nb);
                proof {
                    lemma_block_bits(base as int, blk, i as int, k);
                    lemma_block_bits(base as int, blk, (w + i) as int, k);
                    assert(base + i + pow2(k) == base + w + i);
                }
                f[base + i] = a;
                i = i + 1;
            }
            proof {
                assert forall|s: int| base + w <= s < base + 2 * w implies #[trigger] f@[s] == mobius(*ring, f0, s, k + 1) by {
                    lemma_block_bits(base as int, blk, s - base, k);
                }
            }
            base = base + 2 * w;
            proof {
                blk = blk + 1;
                assert(base == blk * (2 * w)) by (nonlinear_arith)
                    requires
                        base == (blk - 1) * (2 * w) + 2 * w,
                ;
            }
        }
        w = 2 * w;
        proof {
            vstd::arithmetic::power2::lemma_pow2_unfold(k + 1);
            k = k + 1;
        }
    }
    proof {
        if k < nbits {
            vstd::arithmetic::power2::lemma_pow2_strictly_increases(k, nbits);
        }
        assert(f@ =~= mobius_seq(*ring, f0, nbits));
        lemma_mobius_inverts_zeta(*ring, f0, nbits);
        assert forall|s: int| 0 <= s < n implies #[trigger] superset_sum(*ring, f@, s, nbits) == f0[s] by {
            assert(zeta_seq(*ring, f@, nbits)[s] == f0[s]);
            lemma_superset_zeta_closed(*ring, f@, s, nbits);
        }
    }
}

/// Every item of `g` is a valid value of `ring`.
pub open spec fn all_valid<R: Semiring>(ring: R, g: Seq<R::Value>) -> bool {
    forall|i: int| 0 <= i < g.len() ==> ring.valid(#[trigger] g[i])
}

/// The zeta transform of `f` over the bits below `k`, at every index.
pub open spec fn zeta_seq<R: Semiring>(ring: R, f: Seq<R::Value>, k: nat) -> Seq<R::Value> {
    Seq::new(f.len(), |s: int| zeta(ring, f, s, k))
}

/// The Mobius transform of `f` over the bits below `k`, at every index.
pub open spec fn mobius_seq<R: Ring>(ring: R, f: Seq<R::Value>, k: nat) -> Seq<R::Value> {
    Seq::new(f.len(), |s: int| mobius(ring, f, s, k))
}

/// One step of the zeta transform: the bit `b`.
spec fn zstage<R: Semiring>(ring: R, g: Seq<R::Value>, b: nat) -> Seq<R::Value> {
    Seq::new(g.len(), |s: int| if has_bit(s, b) {
        g[s]
    } else {
        ring.sadd(g[s], g[s + pow2(b)])
    })
}

/// One step of the Mobius transform: the bit `b`.
spec fn mstage<R: Ring>(ring: R, g: Seq<R::Value>, b: nat) -> Seq<R::Value> {
    Seq::new(g.len(), |s: int| if has_bit(s, b) {
        g[s]
    } else {
        ring.sadd(g[s], ring.sneg(g[s + pow2(b)]))
    })
}

/// The stages preserve valid values.
proof fn lemma_stages_valid<R: Ring>(ring: R, g: Seq<R::Value>, b: nat, n: nat)
    requires
        g.len() == pow2(n),
        b < n,
        all_valid(ring, g),
    ensures
        all_valid(ring, zstage(ring, g, b)),
        all_valid(ring, mstage(ring, g, b)),
{
    assert forall|s: int| 0 <= s < g.len() implies ring.valid(#[trigger] zstage(ring, g, b)[s]) && ring.valid(
        mstage(ring, g, b)[s],
    ) by {
        if !has_bit(s, b) {
            lemma_bit_room(s, b, n);
            ring.lemma_closed(g[s], g[s + pow2(b)]);
            ring.lemma_add_neg(g[s + pow2(b)]);
            ring.lemma_closed(g[s], ring.sneg(g[s + pow2(b)]));
        }
    }
    assert forall|s: int| 0 <= s < g.len() implies ring.valid(#[trigger] mstage(ring, g, b)[s]) by {
        assert(ring.valid(zstage(ring, g, b)[s]));
    }
}

/// The transforms over the bits below `k + 1` are the stage `k` after those below `k`, and keep
/// valid values.
proof fn lemma_seq_step<R: Ring>(ring: R, f: Seq<R::Value>, k: nat, n: nat)
    requires
        f.len() == pow2(n),
        k < n,
    ensures
        zeta_seq(ring, f, k + 1) == zstage(ring, zeta_seq(ring, f, k), k),
        mobius_seq(ring, f, k + 1) == mstage(ring, mobius_seq(ring, f, k), k),
{
    assert forall|s: int| 0 <= s < f.len() implies #[trigger] zeta_seq(ring, f, k + 1)[s] == zstage(
        ring,
        zeta_seq(ring, f, k),
        k,
    )[s] && mobius_seq(ring, f, k + 1)[s] == mstage(ring, mobius_seq(ring, f, k), k)[s] by {
        if !has_bit(s, k) {
            lemma_bit_room(s, k, n);
        }
    }
    assert(zeta_seq(ring, f, k + 1) =~= zstage(ring, zeta_seq(ring, f, k), k));
    assert forall|s: int| 0 <= s < f.len() implies #[trigger] mobius_seq(ring, f, k + 1)[s] == mstage(
        ring,
        mobius_seq(ring, f, k),
        k,
    )[s] by {
        assert(zeta_seq(ring, f, k + 1)[s] == zstage(ring, zeta_seq(ring, f, k), k)[s]);
    }
    assert(mobius_seq(ring, f, k + 1) =~= mstage(ring, mobius_seq(ring, f, k), k));
}

/// The transforms keep valid values.
proof fn lemma_seq_valid<R: Ring>(ring: R, f: Seq<R::Value>, k: nat, n: nat)
    requires
        f.len() == pow2(n),
        k <= n,
        all_valid(ring, f),
    ensures
        all_valid(ring, zeta_seq(ring, f, k)),
        all_valid(ring, mobius_seq(ring, f, k)),
    decreases k,
{
    if k == 0 {
        assert(zeta_seq(ring, f, 0) =~= f);
        assert(mobius_seq(ring, f, 0) =~= f);
    } else {
        lemma_seq_valid(ring, f, (k - 1) as nat, n);
        lemma_seq_step(ring, f, (k - 1) as nat, n);
        lemma_stages_valid(ring, zeta_seq(ring, f, (k - 1) as nat), (k - 1) as nat, n);
        lemma_stages_valid(ring, mobius_seq(ring, f, (k - 1) as nat), (k - 1) as nat, n);
    }
}

/// The stages of the same bit undo each other.
proof fn lemma_stage_inverse<R: Ring>(ring: R, g: Seq<R::Value>, b: nat, n: nat)
    requires
        g.len() == pow2(n),
        b < n,
        all_valid(ring, g),
    ensures
        mstage(ring, zstage(ring, g, b), b) == g,
        zstage(ring, mstage(ring, g, b), b) == g,
{
    assert forall|s: int| 0 <= s < g.len() implies #[trigger] mstage(ring, zstage(ring, g, b), b)[s] == g[s]
        && zstage(ring, mstage(ring, g, b), b)[s] == g[s] by {
        if !has_bit(s, b) {
            let d = pow2(b) as int;
            lemma_bit_room(s, b, n);
            lemma_bit_set(s, b);
            let x = g[s];
            let y = g[s + d];
            ring.lemma_add_neg(y);
            ring.lemma_add_assoc(x, y, ring.sneg(y));
            ring.lemma_add_assoc(x, ring.sneg(y), y);
            ring.lemma_add_comm(ring.sneg(y), y);
            ring.lemma_add_zero(x);
        }
    }
    assert(mstage(ring, zstage(ring, g, b), b) =~= g);
    assert forall|s: int| 0 <= s < g.len() implies #[trigger] zstage(ring, mstage(ring, g, b), b)[s] == g[s] by {
        assert(mstage(ring, zstage(ring, g, b), b)[s] == g[s]);
    }
    assert(zstage(ring, mstage(ring, g, b), b) =~= g);
}

/// A zeta stage and a Mobius stage of different bits commute.
proof fn lemma_stage_commute<R: Ring>(ring: R, g: Seq<R::Value>, b: nat, c: nat, n: nat)
    requires
        g.len() == pow2(n),
        b < n,
        c < n,
        b != c,
        all_valid(ring, g),
    ensures
        zstage(ring, mstage(ring, g, c), b) == mstage(ring, zstage(ring, g, b), c),
{
    let db = pow2(b) as int;
    let dc = pow2(c) as int;
    assert forall|s: int| 0 <= s < g.len() implies #[trigger] zstage(ring, mstage(ring, g, c), b)[s] == mstage(
        ring,
        zstage(ring, g, b),
        c,
    )[s] by {
        if !has_bit(s, b) {
            lemma_bit_room(s, b, n);
            lemma_bit_other(s, b, c);
            lemma_bit_set(s, b);
        }
        if !has_bit(s, c) {
            lemma_bit_room(s, c, n);
            lemma_bit_other(s, c, b);
            lemma_bit_set(s, c);
        }
        if !has_bit(s, b) && !has_bit(s, c) {
            lemma_bit_room(s + db, c, n);
            assert(s + db + dc == s + dc + db);
            let a = g[s];
            let x = g[s + db];
            let y = g[s + dc];
            let z = g[s + db + dc];
            ring.lemma_add_neg(y);
            ring.lemma_add_neg(z);
            lemma_add_swap(ring, a, ring.sneg(y), x, ring.sneg(z));
            lemma_neg_add(ring, y, z);
        }
    }
    assert(zstage(ring, mstage(ring, g, c), b) =~= mstage(ring, zstage(ring, g, b), c));
}

/// The transforms over the bits below `j` commute with the other's stage of a bit from `j` on.
proof fn lemma_seq_commute<R: Ring>(ring: R, g: Seq<R::Value>, j: nat, b: nat, n: nat)
    requires
        g.len() == pow2(n),
        j <= b < n,
        all_valid(ring, g),
    ensures
        mobius_seq(ring, zstage(ring, g, b), j) == zstage(ring, mobius_seq(ring, g, j), b),
        zeta_seq(ring, mstage(ring, g, b), j) == mstage(ring, zeta_seq(ring, g, j), b),
    decreases j,
{
    lemma_stages_valid(ring, g, b, n);
    if j == 0 {
        assert(mobius_seq(ring, zstage(ring, g, b), 0) =~= zstage(ring, g, b));
        assert(mobius_seq(ring, g, 0) =~= g);
        assert(zeta_seq(ring, mstage(ring, g, b), 0) =~= mstage(ring, g, b));
        assert(zeta_seq(ring, g, 0) =~= g);
    } else {
        let i = (j - 1) as nat;
        lemma_seq_commute(ring, g, i, b, n);
        lemma_seq_step(ring, zstage(ring, g, b), i, n);
        lemma_seq_step(ring, g, i, n);
        lemma_seq_step(ring, mstage(ring, g, b), i, n);
        lemma_seq_valid(ring, g, i, n);
        lemma_stage_commute(ring, mobius_seq(ring, g, i), b, i, n);
        lemma_stage_commute(ring, zeta_seq(ring, g, i), i, b, n);
    }
}

/// The Mobius transform inverts the zeta transform, and conversely: for `f` of length `2^n`,
/// `mobius(zeta(f)) = f` and `zeta(mobius(f)) = f`.
pub proof fn lemma_mobius_inverts_zeta<R: Ring>(ring: R, f: Seq<R::Value>, n: nat)
    requires
        f.len() == pow2(n),
        all_valid(ring, f),
    ensures
        mobius_seq(ring, zeta_seq(ring, f, n), n) == f,
        zeta_seq(ring, mobius_seq(ring, f, n), n) == f,
{
    lemma_inverse_upto(ring, f, n, n);
}

/// The transforms over the bits below `k` invert each other.
proof fn lemma_inverse_upto<R: Ring>(ring: R, f: Seq<R::Value>, k: nat, n: nat)
    requires
        f.len() == pow2(n),
        k <= n,
        all_valid(ring, f),
    ensures
        mobius_seq(ring, zeta_seq(ring, f, k), k) == f,
        zeta_seq(ring, mobius_seq(ring, f, k), k) == f,
    decreases k,
{
    if k == 0 {
        assert(zeta_seq(ring, f, 0) =~= f);
        assert(mobius_seq(ring, f, 0) =~= f);
        assert(mobius_seq(ring, zeta_seq(ring, f, 0), 0) =~= f);
        assert(zeta_seq(ring, mobius_seq(ring, f, 0), 0) =~= f);
    } else {
        let i = (k - 1) as nat;
        lemma_inverse_upto(ring, f, i, n);
        lemma_seq_valid(ring, f, i, n);
        let z = zeta_seq(ring, f, i);
        let m = mobius_seq(ring, f, i);
        lemma_seq_step(ring, f, i, n);
        lemma_seq_step(ring, zstage(ring, z, i), i, n);
        lemma_seq_step(ring, mstage(ring, m, i), i, n);
        lemma_seq_commute(ring, z, i, i, n);
        lemma_seq_commute(ring, m, i, i, n);
        lemma_seq_valid(ring, z, i, n);
        lemma_seq_valid(ring, m, i, n);
        lemma_stage_inverse(ring, mobius_seq(ring, z, i), i, n);
        lemma_stage_inverse(ring, zeta_seq(ring, m, i), i, n);
    }
}

/// The pointwise product of `a` and `b`.
pub open spec fn pointwise<R: Semiring>(ring: R, a: Seq<R::Value>, b: Seq<R::Value>) -> Seq<R::Value> {
    Seq::new(a.len(), |s: int| ring.smul(a[s], b[s]))
}

/// The intersection convolution of `f` and `g`, `(fg)(S) = Σ_{T∩U=S} f(T) g(U)`, computed as the
/// Mobius transform of the pointwise product of the zeta transforms: since `T ⊇ S` and `U ⊇ S` iff
/// `T ∩ U ⊇ S`, the zeta transform carries the product to the pointwise product.
pub fn and_convolve<R: Ring>(ring: &R, f: Vec<R::Value>, g: Vec<R::Value>) -> (h: Vec<R::Value>)
    requires
        f@.len() == g@.len(),
        is_pow2(f@.len() as int),
        all_valid(*ring, f@),
        all_valid(*ring, g@),
    ensures
        h@.len() == f@.len(),
        h@ == mobius_seq(
            *ring,
            pointwise(
                *ring,
                zeta_seq(*ring, f@, log2_of(f@.len() as int)),
                zeta_seq(*ring, g@, log2_of(f@.len() as int)),
            ),
            log2_of(f@.len() as int),
        ),
        zeta_seq(*ring, h@, log2_of(f@.len() as int)) == pointwise(
            *ring,
            zeta_seq(*ring, f@, log2_of(f@.len() as int)),
            zeta_seq(*ring, g@, log2_of(f@.len() as int)),
        ),
        forall|v: int|
            0 <= v < h@.len() ==> #[trigger] h@[v] == intersection_sum(*ring, f@, g@, v, log2_of(f@.len() as int)),
        all_valid(*ring, h@),
{
    let ghost n = log2_of(f@.len() as int);
    let ghost f0 = f@;
    let ghost g0 = g@;
    let mut f = f;
    let mut g = g;
    superset_zeta(ring, f.as_mut_slice());
    superset_zeta(ring, g.as_mut_slice());
    let ghost zf = f@;
    let ghost zg = g@;
    proof {
        assert(zf =~= zeta_seq(*ring, f0, n));
        assert(zg =~= zeta_seq(*ring, g0, n));
    }
    let len = f.len();
    let mut i: usize = 0;
    while i < len
        invariant
            i <= len,
            f@.len() == len,
            g@ == zg,
            zg.len() == len,
            zf.len() == len,
            all_valid(*ring, zf),
            all_valid(*ring, zg),
            forall|s: int| 0 <= s < i ==> #[trigger] f@[s] == ring.smul(zf[s], zg[s]),
            forall|s: int| i <= s < len ==> #[trigger] f@[s] == zf[s],
            forall|s: int| 0 <= s < len ==> ring.valid(#[trigger] f@[s]),
        decreases len - i,
    {
        let p = ring.mul(&f[i], &g[i]);
        f.set(i, p);
        i = i + 1;
    }
    let ghost prod = f@;
    proof {
        assert(prod =~= pointwise(*ring, zf, zg));
    }
    superset_mobius(ring, f.as_mut_slice());
    proof {
        assert(f@ =~= mobius_seq(*ring, prod, n));
        assert(pow2(n) == f0.len());
        lemma_mobius_inverts_zeta(*ring, prod, n);
        lemma_intersection_closed(*ring, f0, g0, f@, n);
    }
    f
}

} // verus!
