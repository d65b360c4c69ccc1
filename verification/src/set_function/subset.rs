//! The subset zeta and Möbius transforms of set functions, which carry the union convolution to
//! the pointwise product.
use crate::algebra::{Ring, Semiring};
use crate::set_function::superset::{has_bit, is_pow2, lemma_block_bits, lemma_blocks_tile, log2_of};
use vstd::arithmetic::power2::pow2;
use crate::set_function::subset_inverse::{lemma_subset_mobius_inverts_zeta, subset_mobius_seq, subset_zeta_seq};
use crate::set_function::superset_sum::{lemma_subset_zeta_closed, subset_sum};
use vstd::prelude::*;

verus! {

/// The sum of `f(T)` over the subsets `T` of `S` that agree with `S` from the bit `k` on: those
/// with the bit `k - 1` of `S`, and, if `S` has it, those without it.
pub open spec fn subset_zeta_of<R: Semiring>(ring: R, f: Seq<R::Value>, s: int, k: nat) -> R::Value
    decreases k,
{
    if k == 0 {
        f[s]
    } else {
        let b = (k - 1) as nat;
        if has_bit(s, b) {
            ring.sadd(subset_zeta_of(ring, f, s, b), subset_zeta_of(ring, f, s - pow2(b), b))
        } else {
            subset_zeta_of(ring, f, s, b)
        }
    }
}

/// The alternating sum `Σ (-1)^{|S|-|T|} f(T)` over the subsets `T` of `S` that agree with `S`
/// from the bit `k` on.
pub open spec fn subset_mobius_of<R: Ring>(ring: R, f: Seq<R::Value>, s: int, k: nat) -> R::Value
    decreases k,
{
    if k == 0 {
        f[s]
    } else {
        let b = (k - 1) as nat;
        if has_bit(s, b) {
            ring.sadd(subset_mobius_of(ring, f, s, b), ring.sneg(subset_mobius_of(ring, f, s - pow2(b), b)))
        } else {
            subset_mobius_of(ring, f, s, b)
        }
    }
}

/// The subset zeta transform of `f`, in place: `f(S)` becomes `Σ_{T⊆S} f(T)`, for
/// `f.len() == 2^n`. Its characters `T -> [T ⊆ S]` are multiplicative for the union, so it carries
/// the union convolution to the pointwise product.
pub fn subset_zeta<R: Semiring>(ring: &R, f: &mut [R::Value])
    requires
        is_pow2(old(f)@.len() as int),
        forall|i: int| 0 <= i < old(f)@.len() ==> ring.valid(#[trigger] old(f)@[i]),
    ensures
        final(f)@.len() == old(f)@.len(),
        forall|s: int|
            0 <= s < final(f)@.len() ==> #[trigger] final(f)@[s] == subset_zeta_of(
                *ring,
                old(f)@,
                s,
                log2_of(old(f)@.len() as int),
            ),
        forall|s: int|
            0 <= s < final(f)@.len() ==> #[trigger] final(f)@[s] == subset_sum(*ring, old(f)@, s, log2_of(old(f)@.len() as int)),
        forall|i: int| 0 <= i < final(f)@.len() ==> ring.valid(#[trigger] final(f)@[i]),
{
    let ghost f0 = f@;
    let ghost nbits = log2_of(f0.len() as int);
    let n = f.len();
    let mut w: usize = 1;
    let ghost mut k: nat = 0;
    proof {
        vstd::arithmetic::power2::lemma2_to64();
        assert forall|s: int| 0 <= s < n implies #[trigger] f@[s] == subset_zeta_of(*ring, f0, s, 0) by {}
    }
    while w < n
        invariant
            f@.len() == n,
            f0.len() == n,
            pow2(nbits) == n,
            w == pow2(k),
            w > 0,
            k <= nbits,
            forall|i: int| 0 <= i < n ==> ring.valid(#[trigger] f@[i]),
            forall|s: int| 0 <= s < n ==> #[trigger] f@[s] == subset_zeta_of(*ring, f0, s, k),
        decreases n - w,
    {
        proof {
            if k == nbits {
                assert(w == n);
            }
            lemma_blocks_tile(k, nbits, 0);
        }
        let ghost before = f@;
        let mut base: usize = 0;
        let ghost mut blk: int = 0;
        while base < n
            invariant
                f@.len() == n,
                pow2(nbits) == n,
                w == pow2(k),
                w > 0,
                k < nbits,
                2 * w <= n,
                before.len() == n,
                blk >= 0,
                base == blk * (2 * w),
                base <= n,
                forall|i: int| 0 <= i < n ==> ring.valid(#[trigger] f@[i]),
                forall|s: int| 0 <= s < n ==> #[trigger] before[s] == subset_zeta_of(*ring, f0, s, k),
                forall|s: int| 0 <= s < base ==> #[trigger] f@[s] == subset_zeta_of(*ring, f0, s, k + 1),
                forall|s: int| base <= s < n ==> #[trigger] f@[s] == before[s],
            decreases n - base,
        {
            proof {
                lemma_blocks_tile(k, nbits, blk);
                assert(base + 2 * w == (blk + 1) * (2 * w)) by (nonlinear_arith)
                    requires
                        base == blk * (2 * w),
                ;
            }
            let mut i: usize = 0;
            while i < w
                invariant
                    f@.len() == n,
                    w == pow2(k),
                    w > 0,
                    before.len() == n,
                    blk >= 0,
                    base == blk * (2 * w),
                    base + 2 * w <= n,
                    i <= w,
                    forall|j: int| 0 <= j < n ==> ring.valid(#[trigger] f@[j]),
                    forall|s: int| 0 <= s < n ==> #[trigger] before[s] == subset_zeta_of(*ring, f0, s, k),
                    forall|s: int| 0 <= s < base ==> #[trigger] f@[s] == subset_zeta_of(*ring, f0, s, k + 1),
                    forall|s: int|
                        base + w <= s < base + w + i ==> #[trigger] f@[s] == subset_zeta_of(*ring, f0, s, k + 1),
                    forall|s: int| base <= s < n && !(base + w <= s < base + w + i) ==> #[trigger] f@[s] == before[s],
                decreases w - i,
            {
                proof {
                    lemma_block_bits(base as int, blk, i as int, k);
                    lemma_block_bits(base as int, blk, (w + i) as int, k);
                    assert(base + w + i - pow2(k) == base + i);
                    assert(f@[base + i] == before[base + i]);
                    assert(f@[base + w + i] == before[base + w + i]);
                }
                let a = ring.add(&f[base + w + i], &f[base + i]);
                f[base + w + i] = a;
                i = i + 1;
            }
            proof {
                assert forall|s: int| base <= s < base + w implies #[trigger] f@[s] == subset_zeta_of(*ring, f0, s, k + 1) by {
                    lemma_block_bits(base as int, blk, s - base, k);
                }
            }
            base = base + 2 * w;
            proof {
                blk = blk + 1;
                assert(base == blk * (2 * w)) by (nonlinear_arith)
                    requires
                        base == (blk - 1) * (2 * w) + 2 * w,
                ;
            }
        }
        w = 2 * w;
        proof {
            vstd::arithmetic::power2::lemma_pow2_unfold(k + 1);
            k = k + 1;
        }
    }
    proof {
        if k < nbits {
            vstd::arithmetic::power2::lemma_pow2_strictly_increases(k, nbits);
        }
        assert forall|s: int| 0 <= s < n implies #[trigger] f@[s] == subset_sum(*ring, f0, s, nbits) by {
            lemma_subset_zeta_closed(*ring, f0, s, nbits);
        }
    }
}

/// The subset Möbius transform of `f`, in place, the inverse of `subset_zeta`: `f(S)` becomes
/// `Σ_{T⊆S} (-1)^{|S|-|T|} f(T)`, for `f.len() == 2^n`.
pub fn subset_mobius<R: Ring>(ring: &R, f: &mut [R::Value])
    requires
        is_pow2(old(f)@.len() as int),
        forall|i: int| 0 <= i < old(f)@.len() ==> ring.valid(#[trigger] old(f)@[i]),
    ensures
        final(f)@.len() == old(f)@.len(),
        forall|s: int|
            0 <= s < final(f)@.len() ==> #[trigger] final(f)@[s] == subset_mobius_of(
                *ring,
                old(f)@,
                s,
                log2_of(old(f)@.len() as int),
            ),
        forall|s: int|
            0 <= s < final(f)@.len() ==> #[trigger] subset_sum(*ring, final(f)@, s, log2_of(old(f)@.len() as int))
                == old(f)@[s],
        forall|i: int| 0 <= i < final(f)@.len() ==> ring.valid(#[trigger] final(f)@[i]),
{
    let ghost f0 = f@;
    let ghost nbits = log2_of(f0.len() as int);
    let n = f.len();
    let mut w: usize = 1;
    let ghost mut k: nat = 0;
    proof {
        vstd::arithmetic::power2::lemma2_to64();
        assert forall|s: int| 0 <= s < n implies #[trigger] f@[s] == subset_mobius_of(*ring, f0, s, 0) by {}
    }
    while w < n
        invariant
            f@.len() == n,
            f0.len() == n,
            pow2(nbits) == n,
            w == pow2(k),
            w > 0,
            k <= nbits,
            forall|i: int| 0 <= i < n ==> ring.valid(#[trigger] f@[i]),
            forall|s: int| 0 <= s < n ==> #[trigger] f@[s] == subset_mobius_of(*ring, f0, s, k),
        decreases n - w,
    {
        proof {
            if k == nbits {
                assert(w == n);
            }
            lemma_blocks_tile(k, nbits, 0);
        }
        let ghost before = f@;
        let mut base: usize = 0;
        let ghost mut blk: int = 0;
        while base < n
            invariant
                f@.len() == n,
                pow2(nbits) == n,
                w == pow2(k),
                w > 0,
                k < nbits,
                2 * w <= n,
                before.len() == n,
                blk >= 0,
                base == blk * (2 * w),
                base <= n,
                forall|i: int| 0 <= i < n ==> ring.valid(#[trigger] f@[i]),
                forall|s: int| 0 <= s < n ==> #[trigger] before[s] == subset_mobius_of(*ring, f0, s, k),
                forall|s: int| 0 <= s < base ==> #[trigger] f@[s] == subset_mobius_of(*ring, f0, s, k + 1),
                forall|s: int| base <= s < n ==> #[trigger] f@[s] == before[s],
            decreases n - base,
        {
            proof {
                lemma_blocks_tile(k, nbits, blk);
                assert(base + 2 * w == (blk + 1) * (2 * w)) by (nonlinear_arith)
                    requires
                        base == blk * (2 * w),
                ;
            }
            let mut i: usize = 0;
            while i < w
                invariant
                    f@.len() == n,
                    w == pow2(k),
                    w > 0,
                    before.len() == n,
                    blk >= 0,
                    base == blk * (2 * w),
                    base + 2 * w <= n,
                    i <= w,
                    forall|j: int| 0 <= j < n ==> ring.valid(#[trigger] f@[j]),
                    forall|s: int| 0 <= s < n ==> #[trigger] before[s] == subset_mobius_of(*ring, f0, s, k),
                    forall|s: int| 0 <= s < base ==> #[trigger] f@[s] == subset_mobius_of(*ring, f0, s, k + 1),
                    forall|s: int|
                        base + w <= s < base + w + i ==> #[trigger] f@[s] == subset_mobius_of(*ring, f0, s, k + 1),
                    forall|s: int| base <= s < n && !(base + w <= s < base + w + i) ==> #[trigger] f@[s] == before[s],
                decreases w - i,
            {
                proof {
                    lemma_block_bits(base as int, blk, i as int, k);
                    lemma_block_bits(base as int, blk, (w + i) as int, k);
                    assert(base + w + i - pow2(k) == base + i);
                    assert(f@[base + i] == before[base + i]);
                    assert(f@[base + w + i] == before[base + w + i]);
                }
                let a = ring.add(&f[base + w + i], &ring.neg(&f[base + i]));
                f[base + w + i] = a;
                i = i + 1;
            }
            proof {
                assert forall|s: int| base <= s < base + w implies #[trigger] f@[s] == subset_mobius_of(*ring, f0, s, k + 1) by {
                    lemma_block_bits(base as int, blk, s - base, k);
                }
            }
            base = base + 2 * w;
            proof {
                blk = blk + 1;
                assert(base == blk * (2 * w)) by (nonlinear_arith)
                    requires
                        base == (blk - 1) * (2 * w) + 2 * w,
                ;
            }
        }
        w = 2 * w;
        proof {
            vstd::arithmetic::power2::lemma_pow2_unfold(k + 1);
            k = k + 1;
        }
    }
    proof {
        if k < nbits {
            vstd::arithmetic::power2::lemma_pow2_strictly_increases(k, nbits);
        }
        assert(f@ =~= subset_mobius_seq(*ring, f0, nbits));
        lemma_subset_mobius_inverts_zeta(*ring, f0, nbits);
        assert forall|s: int| 0 <= s < n implies #[trigger] subset_sum(*ring, f@, s, nbits) == f0[s] by {
            assert(subset_zeta_seq(*ring, f@, nbits)[s] == f0[s]);
            lemma_subset_zeta_closed(*ring, f@, s, nbits);
        }
    }
}

} // verus!
