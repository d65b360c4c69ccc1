//! The subset zeta and Möbius transforms invert each other.
use crate::algebra::{lemma_add_swap, lemma_neg_add, Ring, Semiring};
use crate::set_function::subset::{subset_mobius_of, subset_zeta_of};
use crate::set_function::superset::{all_valid, has_bit, lemma_bit_other};
use crate::set_function::xor::lemma_bit_clear;
use vstd::arithmetic::power2::pow2;
use vstd::prelude::*;

verus! {

/// The subset zeta transform of `f` over the bits below `k`, at every index.
pub open spec fn subset_zeta_seq<R: Semiring>(ring: R, f: Seq<R::Value>, k: nat) -> Seq<R::Value> {
    Seq::new(f.len(), |s: int| subset_zeta_of(ring, f, s, k))
}

/// The subset Möbius transform of `f` over the bits below `k`, at every index.
pub open spec fn subset_mobius_seq<R: Ring>(ring: R, f: Seq<R::Value>, k: nat) -> Seq<R::Value> {
    Seq::new(f.len(), |s: int| subset_mobius_of(ring, f, s, k))
}

/// One step of the subset zeta transform: the bit `b`.
spec fn szstage<R: Semiring>(ring: R, g: Seq<R::Value>, b: nat) -> Seq<R::Value> {
    Seq::new(g.len(), |s: int| if has_bit(s, b) {
        ring.sadd(g[s], g[s - pow2(b)])
    } else {
        g[s]
    })
}

/// One step of the subset Möbius transform: the bit `b`.
spec fn smstage<R: Ring>(ring: R, g: Seq<R::Value>, b: nat) -> Seq<R::Value> {
    Seq::new(g.len(), |s: int| if has_bit(s, b) {
        ring.sadd(g[s], ring.sneg(g[s - pow2(b)]))
    } else {
        g[s]
    })
}

/// Clearing a set bit `b` keeps the other bits.
proof fn lemma_clear_other(s: int, b: nat, c: nat)
    requires
        s >= 0,
        has_bit(s, b),
        b != c,
    ensures
        0 <= s - pow2(b) < s,
        !has_bit(s - pow2(b), b),
        has_bit(s - pow2(b), c) == has_bit(s, c),
{
    lemma_bit_clear(s, b);
    vstd::arithmetic::power2::lemma_pow2_pos(b);
    lemma_bit_other(s - pow2(b), b, c);
}

proof fn lemma_sstages_valid<R: Ring>(ring: R, g: Seq<R::Value>, b: nat)
    requires
        all_valid(ring, g),
    ensures
        all_valid(ring, szstage(ring, g, b)),
        all_valid(ring, smstage(ring, g, b)),
{
    assert forall|s: int| 0 <= s < g.len() implies ring.valid(#[trigger] szstage(ring, g, b)[s]) && ring.valid(
        smstage(ring, g, b)[s],
    ) by {
        if has_bit(s, b) {
            lemma_bit_clear(s, b);
            vstd::arithmetic::power2::lemma_pow2_pos(b);
            ring.lemma_closed(g[s], g[s - pow2(b)]);
            ring.lemma_add_neg(g[s - pow2(b)]);
            ring.lemma_closed(g[s], ring.sneg(g[s - pow2(b)]));
        }
    }
    assert forall|s: int| 0 <= s < g.len() implies ring.valid(#[trigger] smstage(ring, g, b)[s]) by {
        assert(ring.valid(szstage(ring, g, b)[s]));
    }
}

proof fn lemma_sseq_step<R: Ring>(ring: R, f: Seq<R::Value>, k: nat)
    ensures
        subset_zeta_seq(ring, f, k + 1) == szstage(ring, subset_zeta_seq(ring, f, k), k),
        subset_mobius_seq(ring, f, k + 1) == smstage(ring, subset_mobius_seq(ring, f, k), k),
{
    assert forall|s: int| 0 <= s < f.len() implies #[trigger] subset_zeta_seq(ring, f, k + 1)[s] == szstage(
        ring,
        subset_zeta_seq(ring, f, k),
        k,
    )[s] && subset_mobius_seq(ring, f, k + 1)[s] == smstage(ring, subset_mobius_seq(ring, f, k), k)[s] by {
        if has_bit(s, k) {
            lemma_bit_clear(s, k);
            vstd::arithmetic::power2::lemma_pow2_pos(k);
        }
    }
    assert(subset_zeta_seq(ring, f, k + 1) =~= szstage(ring, subset_zeta_seq(ring, f, k), k));
    assert forall|s: int| 0 <= s < f.len() implies #[trigger] subset_mobius_seq(ring, f, k + 1)[s] == smstage(
        ring,
        subset_mobius_seq(ring, f, k),
        k,
    )[s] by {
        assert(subset_zeta_seq(ring, f, k + 1)[s] == szstage(ring, subset_zeta_seq(ring, f, k), k)[s]);
    }
    assert(subset_mobius_seq(ring, f, k + 1) =~= smstage(ring, subset_mobius_seq(ring, f, k), k));
}

proof fn lemma_sseq_valid<R: Ring>(ring: R, f: Seq<R::Value>, k: nat)
    requires
        all_valid(ring, f),
    ensures
        all_valid(ring, subset_zeta_seq(ring, f, k)),
        all_valid(ring, subset_mobius_seq(ring, f, k)),
    decreases k,
{
    if k == 0 {
        assert(subset_zeta_seq(ring, f, 0) =~= f);
        assert(subset_mobius_seq(ring, f, 0) =~= f);
    } else {
        lemma_sseq_valid(ring, f, (k - 1) as nat);
        lemma_sseq_step(ring, f, (k - 1) as nat);
        lemma_sstages_valid(ring, subset_zeta_seq(ring, f, (k - 1) as nat), (k - 1) as nat);
        lemma_sstages_valid(ring, subset_mobius_seq(ring, f, (k - 1) as nat), (k - 1) as nat);
    }
}

proof fn lemma_sstage_inverse<R: Ring>(ring: R, g: Seq<R::Value>, b: nat)
    requires
        all_valid(ring, g),
    ensures
        smstage(ring, szstage(ring, g, b), b) == g,
        szstage(ring, smstage(ring, g, b), b) == g,
{
    assert forall|s: int| 0 <= s < g.len() implies #[trigger] smstage(ring, szstage(ring, g, b), b)[s] == g[s]
        && szstage(ring, smstage(ring, g, b), b)[s] == g[s] by {
        if has_bit(s, b) {
            let d = pow2(b) as int;
            lemma_bit_clear(s, b);
            vstd::arithmetic::power2::lemma_pow2_pos(b);
            let x = g[s];
            let y = g[s - d];
            ring.lemma_add_neg(y);
            ring.lemma_add_assoc(x, y, ring.sneg(y));
            ring.lemma_add_assoc(x, ring.sneg(y), y);
            ring.lemma_add_comm(ring.sneg(y), y);
            ring.lemma_add_zero(x);
        }
    }
    assert(smstage(ring, szstage(ring, g, b), b) =~= g);
    assert forall|s: int| 0 <= s < g.len() implies #[trigger] szstage(ring, smstage(ring, g, b), b)[s] == g[s] by {
        assert(smstage(ring, szstage(ring, g, b), b)[s] == g[s]);
    }
    assert(szstage(ring, smstage(ring, g, b), b) =~= g);
}

proof fn lemma_sstage_commute<R: Ring>(ring: R, g: Seq<R::Value>, b: nat, c: nat)
    requires
        b != c,
        all_valid(ring, g),
    ensures
        szstage(ring, smstage(ring, g, c), b) == smstage(ring, szstage(ring, g, b), c),
{
    let db = pow2(b) as int;
    let dc = pow2(c) as int;
    assert forall|s: int| 0 <= s < g.len() implies #[trigger] szstage(ring, smstage(ring, g, c), b)[s] == smstage(
        ring,
        szstage(ring, g, b),
        c,
    )[s] by {
        if has_bit(s, b) {
            lemma_clear_other(s, b, c);
        }
        if has_bit(s, c) {
            lemma_clear_other(s, c, b);
        }
        if has_bit(s, b) && has_bit(s, c) {
            lemma_clear_other(s - db, c, b);
            assert(s - db - dc == s - dc - db);
            let a = g[s];
            let x = g[s - db];
            let y = g[s - dc];
            let z = g[s - db - dc];
            ring.lemma_add_neg(y);
            ring.lemma_add_neg(z);
            lemma_add_swap(ring, a, ring.sneg(y), x, ring.sneg(z));
            lemma_neg_add(ring, y, z);
        }
    }
    assert(szstage(ring, smstage(ring, g, c), b) =~= smstage(ring, szstage(ring, g, b), c));
}

proof fn lemma_sseq_commute<R: Ring>(ring: R, g: Seq<R::Value>, j: nat, b: nat)
    requires
        j <= b,
        all_valid(ring, g),
    ensures
        subset_mobius_seq(ring, szstage(ring, g, b), j) == szstage(ring, subset_mobius_seq(ring, g, j), b),
        subset_zeta_seq(ring, smstage(ring, g, b), j) == smstage(ring, subset_zeta_seq(ring, g, j), b),
    decreases j,
{
    lemma_sstages_valid(ring, g, b);
    if j == 0 {
        assert(subset_mobius_seq(ring, szstage(ring, g, b), 0) =~= szstage(ring, g, b));
        assert(subset_mobius_seq(ring, g, 0) =~= g);
        assert(subset_zeta_seq(ring, smstage(ring, g, b), 0) =~= smstage(ring, g, b));
        assert(subset_zeta_seq(ring, g, 0) =~= g);
    } else {
        let i = (j - 1) as nat;
        lemma_sseq_commute(ring, g, i, b);
        lemma_sseq_step(ring, szstage(ring, g, b), i);
        lemma_sseq_step(ring, g, i);
        lemma_sseq_step(ring, smstage(ring, g, b), i);
        lemma_sseq_valid(ring, g, i);
        lemma_sstage_commute(ring, subset_mobius_seq(ring, g, i), b, i);
        lemma_sstage_commute(ring, subset_zeta_seq(ring, g, i), i, b);
    }
}

proof fn lemma_subset_inverse_upto<R: Ring>(ring: R, f: Seq<R::Value>, k: nat)
    requires
        all_valid(ring, f),
    ensures
        subset_mobius_seq(ring, subset_zeta_seq(ring, f, k), k) == f,
        subset_zeta_seq(ring, subset_mobius_seq(ring, f, k), k) == f,
    decreases k,
{
    if k == 0 {
        assert(subset_zeta_seq(ring, f, 0) =~= f);
        assert(subset_mobius_seq(ring, f, 0) =~= f);
        assert(subset_mobius_seq(ring, subset_zeta_seq(ring, f, 0), 0) =~= f);
        assert(subset_zeta_seq(ring, subset_mobius_seq(ring, f, 0), 0) =~= f);
    } else {
        let i = (k - 1) as nat;
        lemma_subset_inverse_upto(ring, f, i);
        lemma_sseq_valid(ring, f, i);
        let z = subset_zeta_seq(ring, f, i);
        let m = subset_mobius_seq(ring, f, i);
        lemma_sseq_step(ring, f, i);
        lemma_sseq_step(ring, szstage(ring, z, i), i);
        lemma_sseq_step(ring, smstage(ring, m, i), i);
        lemma_sseq_commute(ring, z, i, i);
        lemma_sseq_commute(ring, m, i, i);
        lemma_sseq_valid(ring, z, i);
        lemma_sseq_valid(ring, m, i);
        lemma_sstage_inverse(ring, subset_mobius_seq(ring, z, i), i);
        lemma_sstage_inverse(ring, subset_zeta_seq(ring, m, i), i);
    }
}

/// The subset Möbius transform inverts the subset zeta transform, and conversely, over the bits
/// below `n`: `mobius(zeta(f)) = f` and `zeta(mobius(f)) = f`.
pub proof fn lemma_subset_mobius_inverts_zeta<R: Ring>(ring: R, f: Seq<R::Value>, n: nat)
    requires
        all_valid(ring, f),
    ensures
        subset_mobius_seq(ring, subset_zeta_seq(ring, f, n), n) == f,
        subset_zeta_seq(ring, subset_mobius_seq(ring, f, n), n) == f,
{
    lemma_subset_inverse_upto(ring, f, n);
}

} // verus!
