//! The Walsh-Hadamard transform, the characters of the group `(Z/2)^n`, and the symmetric
//! difference convolution.
use crate::algebra::{
    lemma_add_swap, lemma_mul_neg, lemma_neg_add, lemma_neg_neg, lemma_neg_unique, spow, Field, Ring,
    Semiring,
};
use crate::set_function::superset::{
    all_valid, has_bit, is_pow2, lemma_bit_other, lemma_bit_room, lemma_bit_set, lemma_bit_split,
    lemma_block_bits, lemma_blocks_tile, log2_of, pointwise,
};
use crate::set_function::symdiff_sum::{lemma_symdiff_closed, symdiff_sum};
use crate::set_function::walsh_sum::{lemma_walsh_hadamard_closed, walsh_sum};
use vstd::arithmetic::power2::pow2;
use vstd::prelude::*;

verus! {

/// `Σ_T (-1)^{|S∩T|} f(T)` over the `T` that agree with `S` from the bit `k` on: on the bit `k - 1`,
/// the sum for `T` without it plus, if `S` lacks it, or minus, if `S` has it, the sum for `T` with
/// it.
pub open spec fn hadamard<R: Ring>(ring: R, f: Seq<R::Value>, s: int, k: nat) -> R::Value
    decreases k,
{
    if k == 0 {
        f[s]
    } else {
        let b = (k - 1) as nat;
        if has_bit(s, b) {
            ring.sadd(hadamard(ring, f, s - pow2(b), b), ring.sneg(hadamard(ring, f, s, b)))
        } else {
            ring.sadd(hadamard(ring, f, s, b), hadamard(ring, f, s + pow2(b), b))
        }
    }
}

/// Clearing the bit `b`, set in `s`: the result lacks it, and setting it again gives `s`.
pub(crate) proof fn lemma_bit_clear(s: int, b: nat)
    requires
        s >= 0,
        has_bit(s, b),
    ensures
        s - pow2(b) >= 0,
        !has_bit(s - pow2(b), b),
{
    lemma_bit_split(s, b);
    lemma_bit_split(s - pow2(b), b);
    let d2 = pow2(b + 1) as int;
    let q = s / d2;
    let r = s % d2;
    vstd::arithmetic::div_mod::lemma_fundamental_div_mod_converse(s - pow2(b), d2, q, r - pow2(b));
}

/// The Walsh-Hadamard transform of `f`, in place: `f(S)` becomes `Σ_T (-1)^{|S∩T|} f(T)`, the
/// expansion of `f` in the characters of `(Z/2)^n`, for `f.len() == 2^n`.
pub fn walsh_hadamard<R: Ring>(ring: &R, f: &mut [R::Value])
    requires
        is_pow2(old(f)@.len() as int),
        all_valid(*ring, old(f)@),
    ensures
        final(f)@.len() == old(f)@.len(),
        forall|s: int|
            0 <= s < final(f)@.len() ==> #[trigger] final(f)@[s] == hadamard(*ring, old(f)@, s, log2_of(old(f)@.len() as int)),
        forall|s: int|
            0 <= s < final(f)@.len() ==> #[trigger] final(f)@[s] == walsh_sum(*ring, old(f)@, s, log2_of(old(f)@.len() as int)),
        all_valid(*ring, final(f)@),
{
    let ghost f0 = f@;
    let ghost nbits = log2_of(f0.len() as int);
    let n = f.len();
    let mut w: usize = 1;
    let ghost mut k: nat = 0;
    proof {
        vstd::arithmetic::power2::lemma2_to64();
        assert forall|s: int| 0 <= s < n implies #[trigger] f@[s] == hadamard(*ring, f0, s, 0) by {}
    }
    while w < n
        invariant
            f@.len() == n,
            f0.len() == n,
            pow2(nbits) == n,
            w == pow2(k),
            w > 0,
            k <= nbits,
            all_valid(*ring, f@),
            forall|s: int| 0 <= s < n ==> #[trigger] f@[s] == hadamard(*ring, f0, s, k),
        decreases n - w,
    {
        proof {
            if k == nbits {
                assert(w == n);
            }
            lemma_blocks_tile(k, nbits, 0);
        }
        let ghost before = f@;
        let mut base: usize = 0;
        let ghost mut blk: int = 0;
        while base < n
            invariant
                f@.len() == n,
                pow2(nbits) == n,
                w == pow2(k),
                w > 0,
                k < nbits,
                2 * w <= n,
                before.len() == n,
                blk >= 0,
                base == blk * (2 * w),
                base <= n,
                all_valid(*ring, f@),
                forall|s: int| 0 <= s < n ==> #[trigger] before[s] == hadamard(*ring, f0, s, k),
                forall|s: int| 0 <= s < base ==> #[trigger] f@[s] == hadamard(*ring, f0, s, k + 1),
                forall|s: int| base <= s < n ==> #[trigger] f@[s] == before[s],
            decreases n - base,
        {
            proof {
                lemma_blocks_tile(k, nbits, blk);
                assert(base + 2 * w == (blk + 1) * (2 * w)) by (nonlinear_arith)
                    requires
                        base == blk * (2 * w),
                ;
            }
            let mut i: usize = 0;
            while i < w
                invariant
                    f@.len() == n,
                    w == pow2(k),
                    w > 0,
                    before.len() == n,
                    blk >= 0,
                    base == blk * (2 * w),
                    base + 2 * w <= n,
                    i <= w,
                    all_valid(*ring, f@),
                    forall|s: int| 0 <= s < n ==> #[trigger] before[s] == hadamard(*ring, f0, s, k),
                    forall|s: int| 0 <= s < base + i ==> #[trigger] f@[s] == hadamard(*ring, f0, s, k + 1),
                    forall|s: int| base + w <= s < base + w + i ==> #[trigger] f@[s] == hadamard(*ring, f0, s, k + 1),
                    forall|s: int| base + i <= s < base + w ==> #[trigger] f@[s] == before[s],
                    forall|s: int| base + w + i <= s < n ==> #[trigger] f@[s] == before[s],
                decreases w - i,
            {
                let lo = base + i;
                let hi = base + w + i;
                let a = ring.add(&f[lo], &f[hi]);
                let nb = ring.neg(&f[hi]);
                let b = ring.add(&f[lo], &nb);
                proof {
                    lemma_block_bits(base as int, blk, i as int, k);
                    lemma_block_bits(base as int, blk, (w + i) as int, k);
                    assert(lo + pow2(k) == hi);
                }
                f[lo] = a;
                f[hi] = b;
                i = i + 1;
            }
            base = base + 2 * w;
            proof {
                blk = blk + 1;
                assert(base == blk * (2 * w)) by (nonlinear_arith)
                    requires
                        base == (blk - 1) * (2 * w) + 2 * w,
                ;
            }
        }
        w = 2 * w;
        proof {
            vstd::arithmetic::power2::lemma_pow2_unfold(k + 1);
            k = k + 1;
        }
    }
    proof {
        if k < nbits {
            vstd::arithmetic::power2::lemma_pow2_strictly_increases(k, nbits);
        }
        assert forall|s: int| 0 <= s < n implies #[trigger] f@[s] == walsh_sum(*ring, f0, s, nbits) by {
            lemma_walsh_hadamard_closed(*ring, f0, s, nbits);
        }
    }
}

/// The Walsh-Hadamard transform of `f` over the bits below `k`, at every index.
pub open spec fn hadamard_seq<R: Ring>(ring: R, f: Seq<R::Value>, k: nat) -> Seq<R::Value> {
    Seq::new(f.len(), |s: int| hadamard(ring, f, s, k))
}

/// Each value added to itself.
pub open spec fn doubled<R: Semiring>(ring: R, g: Seq<R::Value>) -> Seq<R::Value> {
    Seq::new(g.len(), |s: int| ring.sadd(g[s], g[s]))
}

/// Each value doubled `k` times: added to itself `2^k` times.
pub open spec fn doubled_times<R: Semiring>(ring: R, g: Seq<R::Value>, k: nat) -> Seq<R::Value>
    decreases k,
{
    if k == 0 {
        g
    } else {
        doubled(ring, doubled_times(ring, g, (k - 1) as nat))
    }
}

/// One step of the Walsh-Hadamard transform: the bit `b`.
spec fn hstage<R: Ring>(ring: R, g: Seq<R::Value>, b: nat) -> Seq<R::Value> {
    Seq::new(g.len(), |s: int| if has_bit(s, b) {
        ring.sadd(g[s - pow2(b)], ring.sneg(g[s]))
    } else {
        ring.sadd(g[s], g[s + pow2(b)])
    })
}

/// The stage and the doubling keep valid values.
proof fn lemma_hstage_valid<R: Ring>(ring: R, g: Seq<R::Value>, b: nat, n: nat)
    requires
        g.len() == pow2(n),
        b < n,
        all_valid(ring, g),
    ensures
        all_valid(ring, hstage(ring, g, b)),
        all_valid(ring, doubled(ring, g)),
{
    assert forall|s: int| 0 <= s < g.len() implies ring.valid(#[trigger] hstage(ring, g, b)[s]) by {
        if has_bit(s, b) {
            lemma_bit_clear(s, b);
            ring.lemma_add_neg(g[s]);
            ring.lemma_closed(g[s - pow2(b)], ring.sneg(g[s]));
        } else {
            lemma_bit_room(s, b, n);
            ring.lemma_closed(g[s], g[s + pow2(b)]);
        }
    }
    assert forall|s: int| 0 <= s < g.len() implies ring.valid(#[trigger] doubled(ring, g)[s]) by {
        ring.lemma_closed(g[s], g[s]);
    }
}

/// The transform over the bits below `k + 1` is the stage `k` after that below `k`.
proof fn lemma_hseq_step<R: Ring>(ring: R, f: Seq<R::Value>, k: nat, n: nat)
    requires
        f.len() == pow2(n),
        k < n,
    ensures
        hadamard_seq(ring, f, k + 1) == hstage(ring, hadamard_seq(ring, f, k), k),
{
    assert forall|s: int| 0 <= s < f.len() implies #[trigger] hadamard_seq(ring, f, k + 1)[s] == hstage(
        ring,
        hadamard_seq(ring, f, k),
        k,
    )[s] by {
        if has_bit(s, k) {
            lemma_bit_clear(s, k);
        } else {
            lemma_bit_room(s, k, n);
        }
    }
    assert(hadamard_seq(ring, f, k + 1) =~= hstage(ring, hadamard_seq(ring, f, k), k));
}

/// The stage of a bit twice doubles.
proof fn lemma_hstage_twice<R: Ring>(ring: R, g: Seq<R::Value>, b: nat, n: nat)
    requires
        g.len() == pow2(n),
        b < n,
        all_valid(ring, g),
    ensures
        hstage(ring, hstage(ring, g, b), b) == doubled(ring, g),
{
    let d = pow2(b) as int;
    assert forall|s: int| 0 <= s < g.len() implies #[trigger] hstage(ring, hstage(ring, g, b), b)[s] == doubled(
        ring,
        g,
    )[s] by {
        if has_bit(s, b) {
            lemma_bit_clear(s, b);
            lemma_bit_set(s - d, b);
            let x = g[s - d];
            let y = g[s];
            ring.lemma_add_neg(x);
            ring.lemma_add_neg(y);
            lemma_neg_add(ring, x, ring.sneg(y));
            lemma_neg_neg(ring, y);
            lemma_add_swap(ring, x, y, ring.sneg(x), y);
            ring.lemma_closed(y, y);
            ring.lemma_add_zero(ring.sadd(y, y));
        } else {
            lemma_bit_room(s, b, n);
            lemma_bit_set(s, b);
            let x = g[s];
            let y = g[s + d];
            ring.lemma_add_neg(y);
            lemma_add_swap(ring, x, y, x, ring.sneg(y));
            ring.lemma_closed(x, x);
            ring.lemma_add_zero(ring.sadd(x, x));
        }
    }
    assert(hstage(ring, hstage(ring, g, b), b) =~= doubled(ring, g));
}

/// Stages of different bits commute, and a stage commutes with doubling.
proof fn lemma_hstage_commute<R: Ring>(ring: R, g: Seq<R::Value>, b: nat, c: nat, n: nat)
    requires
        g.len() == pow2(n),
        b < n,
        c < n,
        b != c,
        all_valid(ring, g),
    ensures
        hstage(ring, hstage(ring, g, b), c) == hstage(ring, hstage(ring, g, c), b),
        hstage(ring, doubled(ring, g), b) == doubled(ring, hstage(ring, g, b)),
{
    let db = pow2(b) as int;
    let dc = pow2(c) as int;
    assert forall|s: int| 0 <= s < g.len() implies #[trigger] hstage(ring, hstage(ring, g, b), c)[s] == hstage(
        ring,
        hstage(ring, g, c),
        b,
    )[s] by {
        // the four corners of the square of `s` in the bits `b` and `c`
        let s0 = if has_bit(s, b) {
            s - db
        } else {
            s
        };
        let s00 = if has_bit(s, c) {
            s0 - dc
        } else {
            s0
        };
        if has_bit(s, b) {
            lemma_bit_clear(s, b);
            lemma_bit_other(s - db, b, c);
        }
        assert(s0 >= 0 && !has_bit(s0, b) && has_bit(s0, c) == has_bit(s, c));
        if has_bit(s, c) {
            lemma_bit_clear(s0, c);
            lemma_bit_other(s0 - dc, c, b);
        }
        assert(s00 >= 0 && !has_bit(s00, b) && !has_bit(s00, c));
        lemma_bit_room(s00, b, n);
        lemma_bit_other(s00, b, c);
        lemma_bit_room(s00 + db, c, n);
        lemma_bit_room(s00, c, n);
        lemma_bit_other(s00, c, b);
        lemma_bit_set(s00, b);
        lemma_bit_set(s00, c);
        lemma_bit_set(s00 + db, c);
        lemma_bit_other(s00 + db, c, b);
        lemma_bit_set(s00 + dc, b);
        lemma_bit_other(s00 + dc, b, c);
        assert(s00 + db + dc == s00 + dc + db);
        let p = g[s00];
        let q = g[s00 + db];
        let r = g[s00 + dc];
        let t = g[s00 + db + dc];
        ring.lemma_add_neg(p);
        ring.lemma_add_neg(q);
        ring.lemma_add_neg(r);
        ring.lemma_add_neg(t);
        lemma_neg_neg(ring, t);
        lemma_neg_neg(ring, q);
        lemma_neg_neg(ring, r);
        lemma_neg_add(ring, r, t);
        lemma_neg_add(ring, q, t);
        lemma_neg_add(ring, r, ring.sneg(t));
        lemma_neg_add(ring, q, ring.sneg(t));
        lemma_add_swap(ring, p, q, r, t);
        lemma_add_swap(ring, p, ring.sneg(q), r, ring.sneg(t));
        lemma_add_swap(ring, p, r, ring.sneg(q), ring.sneg(t));
        lemma_add_swap(ring, p, ring.sneg(r), q, ring.sneg(t));
        lemma_add_swap(ring, p, q, ring.sneg(r), ring.sneg(t));
        lemma_add_swap(ring, q, ring.sneg(r), ring.sneg(q), t);
        lemma_add_swap(ring, r, ring.sneg(q), ring.sneg(r), t);
        lemma_add_swap(ring, p, ring.sneg(r), ring.sneg(q), t);
        lemma_add_swap(ring, p, ring.sneg(q), ring.sneg(r), t);
    }
    assert(hstage(ring, hstage(ring, g, b), c) =~= hstage(ring, hstage(ring, g, c), b));
    assert forall|s: int| 0 <= s < g.len() implies #[trigger] hstage(ring, doubled(ring, g), b)[s] == doubled(
        ring,
        hstage(ring, g, b),
    )[s] by {
        if has_bit(s, b) {
            lemma_bit_clear(s, b);
            let x = g[s - db];
            let y = g[s];
            ring.lemma_add_neg(y);
            lemma_neg_add(ring, y, y);
            lemma_add_swap(ring, x, x, ring.sneg(y), ring.sneg(y));
        } else {
            lemma_bit_room(s, b, n);
            let x = g[s];
            let y = g[s + db];
            lemma_add_swap(ring, x, x, y, y);
        }
    }
    assert(hstage(ring, doubled(ring, g), b) =~= doubled(ring, hstage(ring, g, b)));
}

/// The transform over the bits below `j` keeps valid values, commutes with the stage of a bit
/// from `j` on, and with doubling.
proof fn lemma_hseq_commute<R: Ring>(ring: R, g: Seq<R::Value>, j: nat, b: nat, n: nat)
    requires
        g.len() == pow2(n),
        j <= b < n,
        all_valid(ring, g),
    ensures
        all_valid(ring, hadamard_seq(ring, g, j)),
        hadamard_seq(ring, hstage(ring, g, b), j) == hstage(ring, hadamard_seq(ring, g, j), b),
        hadamard_seq(ring, doubled(ring, g), j) == doubled(ring, hadamard_seq(ring, g, j)),
    decreases j,
{
    lemma_hstage_valid(ring, g, b, n);
    if j == 0 {
        assert(hadamard_seq(ring, g, 0) =~= g);
        assert(hadamard_seq(ring, hstage(ring, g, b), 0) =~= hstage(ring, g, b));
        assert(hadamard_seq(ring, doubled(ring, g), 0) =~= doubled(ring, g));
    } else {
        let i = (j - 1) as nat;
        lemma_hseq_commute(ring, g, i, b, n);
        lemma_hseq_step(ring, g, i, n);
        lemma_hseq_step(ring, hstage(ring, g, b), i, n);
        lemma_hseq_step(ring, doubled(ring, g), i, n);
        lemma_hstage_valid(ring, hadamard_seq(ring, g, i), i, n);
        lemma_hstage_commute(ring, hadamard_seq(ring, g, i), b, i, n);
        lemma_hstage_commute(ring, hadamard_seq(ring, g, i), i, b, n);
    }
}

/// The transform keeps valid values.
proof fn lemma_hseq_valid<R: Ring>(ring: R, g: Seq<R::Value>, j: nat, n: nat)
    requires
        g.len() == pow2(n),
        j <= n,
        all_valid(ring, g),
    ensures
        all_valid(ring, hadamard_seq(ring, g, j)),
    decreases j,
{
    if j == 0 {
        assert(hadamard_seq(ring, g, 0) =~= g);
    } else {
        lemma_hseq_valid(ring, g, (j - 1) as nat, n);
        lemma_hseq_step(ring, g, (j - 1) as nat, n);
        lemma_hstage_valid(ring, hadamard_seq(ring, g, (j - 1) as nat), (j - 1) as nat, n);
    }
}

/// Doubling keeps valid values.
proof fn lemma_doubled_valid<R: Ring>(ring: R, g: Seq<R::Value>, k: nat)
    requires
        all_valid(ring, g),
    ensures
        all_valid(ring, doubled_times(ring, g, k)),
        doubled_times(ring, g, k).len() == g.len(),
    decreases k,
{
    if k > 0 {
        lemma_doubled_valid(ring, g, (k - 1) as nat);
        let h = doubled_times(ring, g, (k - 1) as nat);
        assert forall|s: int| 0 <= s < h.len() implies ring.valid(#[trigger] doubled(ring, h)[s]) by {
            ring.lemma_closed(h[s], h[s]);
        }
    }
}

/// The Walsh-Hadamard transform twice adds each value to itself `2^n` times: for `f` of length
/// `2^n`, `H(H(f)) = 2^n f`.
pub proof fn lemma_hadamard_twice<R: Ring>(ring: R, f: Seq<R::Value>, n: nat)
    requires
        f.len() == pow2(n),
        all_valid(ring, f),
    ensures
        hadamard_seq(ring, hadamard_seq(ring, f, n), n) == doubled_times(ring, f, n),
{
    lemma_hadamard_twice_upto(ring, f, n, n);
}

/// The transform over the bits below `k` twice doubles `k` times.
proof fn lemma_hadamard_twice_upto<R: Ring>(ring: R, f: Seq<R::Value>, k: nat, n: nat)
    requires
        f.len() == pow2(n),
        k <= n,
        all_valid(ring, f),
    ensures
        hadamard_seq(ring, hadamard_seq(ring, f, k), k) == doubled_times(ring, f, k),
    decreases k,
{
    if k == 0 {
        assert(hadamard_seq(ring, f, 0) =~= f);
        assert(hadamard_seq(ring, hadamard_seq(ring, f, 0), 0) =~= f);
    } else {
        let i = (k - 1) as nat;
        lemma_hadamard_twice_upto(ring, f, i, n);
        let h = hadamard_seq(ring, f, i);
        lemma_hseq_commute(ring, f, i, i, n);
        lemma_hseq_step(ring, f, i, n);
        lemma_hseq_step(ring, hstage(ring, h, i), i, n);
        lemma_hseq_commute(ring, h, i, i, n);
        lemma_hstage_twice(ring, hadamard_seq(ring, h, i), i, n);
    }
}

/// Each value multiplied by `c`.
pub open spec fn scaled<R: Semiring>(ring: R, c: R::Value, g: Seq<R::Value>) -> Seq<R::Value> {
    Seq::new(g.len(), |s: int| ring.smul(c, g[s]))
}

/// `2 = 1 + 1` in `ring`.
pub open spec fn two<R: Semiring>(ring: R) -> R::Value {
    ring.sadd(ring.sone(), ring.sone())
}

/// Powers of a valid value are valid.
pub(crate) proof fn lemma_spow_valid<R: Semiring>(ring: R, a: R::Value, k: nat)
    requires
        ring.valid(a),
    ensures
        ring.valid(spow(ring, a, k)),
    decreases k,
{
    ring.lemma_closed(a, a);
    if k > 0 {
        lemma_spow_valid(ring, a, (k - 1) as nat);
        ring.lemma_closed(spow(ring, a, (k - 1) as nat), a);
    }
}

/// Doubling `k` times multiplies by `2^k`.
proof fn lemma_doubled_scaled<R: Field>(ring: R, g: Seq<R::Value>, k: nat)
    requires
        all_valid(ring, g),
    ensures
        doubled_times(ring, g, k) == scaled(ring, spow(ring, two(ring), k), g),
    decreases k,
{
    let t = two(ring);
    if k == 0 {
        assert forall|s: int| 0 <= s < g.len() implies #[trigger] scaled(ring, spow(ring, t, 0), g)[s] == g[s] by {
            ring.lemma_mul_one(g[s]);
        }
        assert(scaled(ring, spow(ring, t, 0), g) =~= g);
    } else {
        let i = (k - 1) as nat;
        lemma_doubled_scaled(ring, g, i);
        let p = spow(ring, t, i);
        assert forall|s: int| 0 <= s < g.len() implies #[trigger] doubled_times(ring, g, k)[s] == scaled(
            ring,
            spow(ring, t, k),
            g,
        )[s] by {
            ring.lemma_closed(g[s], g[s]);
            ring.lemma_closed(ring.sone(), ring.sone());
            lemma_spow_valid(ring, t, i);
            let x = ring.smul(p, g[s]);
            ring.lemma_closed(p, g[s]);
            ring.lemma_distrib(x, ring.sone(), ring.sone());
            ring.lemma_mul_one(x);
            ring.lemma_mul_assoc(t, p, g[s]);
            ring.lemma_mul_comm(t, p);
        }
        assert(doubled_times(ring, g, k) =~= scaled(ring, spow(ring, t, k), g));
    }
}

/// The stage, and so the transform, commutes with multiplying by `c`.
proof fn lemma_hseq_scaled<R: Ring>(ring: R, c: R::Value, g: Seq<R::Value>, j: nat, n: nat)
    requires
        g.len() == pow2(n),
        j <= n,
        ring.valid(c),
        all_valid(ring, g),
    ensures
        hadamard_seq(ring, scaled(ring, c, g), j) == scaled(ring, c, hadamard_seq(ring, g, j)),
    decreases j,
{
    if j == 0 {
        assert(hadamard_seq(ring, scaled(ring, c, g), 0) =~= scaled(ring, c, g));
        assert(hadamard_seq(ring, g, 0) =~= g);
    } else {
        let i = (j - 1) as nat;
        lemma_hseq_scaled(ring, c, g, i, n);
        lemma_hseq_step(ring, g, i, n);
        lemma_hseq_step(ring, scaled(ring, c, g), i, n);
        lemma_hseq_commute(ring, g, i, i, n);
        let h = hadamard_seq(ring, g, i);
        let d = pow2(i) as int;
        assert forall|s: int| 0 <= s < h.len() implies #[trigger] hstage(ring, scaled(ring, c, h), i)[s] == scaled(
            ring,
            c,
            hstage(ring, h, i),
        )[s] by {
            if has_bit(s, i) {
                lemma_bit_clear(s, i);
                ring.lemma_add_neg(h[s]);
                ring.lemma_distrib(c, h[s - d], ring.sneg(h[s]));
                lemma_mul_neg(ring, c, h[s]);
            } else {
                lemma_bit_room(s, i, n);
                ring.lemma_distrib(c, h[s], h[s + d]);
            }
        }
        assert(hstage(ring, scaled(ring, c, h), i) =~= scaled(ring, c, hstage(ring, h, i)));
    }
}

/// Multiplying by the inverse of `c` after multiplying by `c` gives back each value.
proof fn lemma_scaled_inverse<R: Field>(ring: R, c: R::Value, g: Seq<R::Value>)
    requires
        ring.valid(c),
        c != ring.szero(),
        ring.valid(ring.sinv(c)),
        ring.smul(c, ring.sinv(c)) == ring.sone(),
        all_valid(ring, g),
    ensures
        scaled(ring, ring.sinv(c), scaled(ring, c, g)) == g,
{
    assert forall|s: int| 0 <= s < g.len() implies #[trigger] scaled(ring, ring.sinv(c), scaled(ring, c, g))[s] == g[s] by {
        ring.lemma_mul_assoc(ring.sinv(c), c, g[s]);
        ring.lemma_mul_comm(ring.sinv(c), c);
        ring.lemma_mul_one(g[s]);
    }
    assert(scaled(ring, ring.sinv(c), scaled(ring, c, g)) =~= g);
}

/// The inverse Walsh-Hadamard transform of `f`, in place, inverting `walsh_hadamard`: `f(S)`
/// becomes `2^{-n} Σ_T (-1)^{|S∩T|} f(T)`, for `f.len() == 2^n` and `2^n` invertible in the
/// field, that is of characteristic `0` or odd.
pub fn inverse_walsh_hadamard<R: Field>(ring: &R, f: &mut [R::Value])
    requires
        is_pow2(old(f)@.len() as int),
        all_valid(*ring, old(f)@),
        spow(*ring, two(*ring), log2_of(old(f)@.len() as int)) != ring.szero(),
    ensures
        final(f)@ == scaled(
            *ring,
            ring.sinv(spow(*ring, two(*ring), log2_of(old(f)@.len() as int))),
            hadamard_seq(*ring, old(f)@, log2_of(old(f)@.len() as int)),
        ),
        all_valid(*ring, final(f)@),
        ring.valid(ring.sinv(spow(*ring, two(*ring), log2_of(old(f)@.len() as int)))),
        ring.smul(spow(*ring, two(*ring), log2_of(old(f)@.len() as int)), ring.sinv(spow(*ring, two(*ring), log2_of(old(f)@.len() as int)))) == ring.sone(),
        forall|s: int|
            0 <= s < final(f)@.len() ==> #[trigger] walsh_sum(*ring, final(f)@, s, log2_of(old(f)@.len() as int))
                == old(f)@[s],
{
    let ghost f0 = f@;
    let ghost nbits = log2_of(f0.len() as int);
    let n = f.len();
    walsh_hadamard(ring, f);
    let ghost hf = f@;
    let one = ring.one();
    let t = ring.add(&one, &one);
    let mut c = ring.one();
    let mut w: usize = 1;
    let ghost mut k: nat = 0;
    proof {
        vstd::arithmetic::power2::lemma2_to64();
        ring.lemma_mul_one(t);
    }
    while w < n
        invariant
            f@ == hf,
            f@.len() == n,
            pow2(nbits) == n,
            w == pow2(k),
            w > 0,
            k <= nbits,
            t == two(*ring),
            ring.valid(t),
            c == spow(*ring, t, k),
            ring.valid(c),
        decreases n - w,
    {
        proof {
            if k == nbits {
                assert(w == n);
            }
            vstd::arithmetic::power2::lemma_pow2_unfold(k + 1);
            if k + 1 > nbits {
                assert(false);
            }
            lemma_blocks_tile(k, nbits, 0);
        }
        c = ring.mul(&c, &t);
        w = 2 * w;
        proof {
            k = k + 1;
        }
    }
    proof {
        if k < nbits {
            vstd::arithmetic::power2::lemma_pow2_strictly_increases(k, nbits);
        }
    }
    let ci = ring.inv(&c);
    let mut x: usize = 0;
    while x < n
        invariant
            x <= n,
            f@.len() == n,
            hf.len() == n,
            ring.valid(ci),
            all_valid(*ring, hf),
            forall|s: int| 0 <= s < x ==> #[trigger] f@[s] == ring.smul(ci, hf[s]),
            forall|s: int| x <= s < n ==> #[trigger] f@[s] == hf[s],
            forall|s: int| 0 <= s < n ==> ring.valid(#[trigger] f@[s]),
        decreases n - x,
    {
        let v = ring.mul(&ci, &f[x]);
        f[x] = v;
        x = x + 1;
    }
    proof {
        assert(hf =~= hadamard_seq(*ring, f0, nbits));
        assert(f@ =~= scaled(*ring, ci, hf));
        lemma_inverse_hadamard(*ring, f0, nbits);
        assert forall|s: int| 0 <= s < n implies #[trigger] walsh_sum(*ring, f@, s, nbits) == f0[s] by {
            assert(hadamard_seq(*ring, f@, nbits)[s] == f0[s]);
            lemma_walsh_hadamard_closed(*ring, f@, s, nbits);
        }
    }
}

/// Inverting the Walsh-Hadamard transform after it gives back `f`, and the transform after its
/// inverse too.
pub proof fn lemma_inverse_hadamard<R: Field>(ring: R, f: Seq<R::Value>, n: nat)
    requires
        f.len() == pow2(n),
        all_valid(ring, f),
        spow(ring, two(ring), n) != ring.szero(),
        ring.valid(ring.sinv(spow(ring, two(ring), n))),
        ring.smul(spow(ring, two(ring), n), ring.sinv(spow(ring, two(ring), n))) == ring.sone(),
    ensures
        scaled(ring, ring.sinv(spow(ring, two(ring), n)), hadamard_seq(ring, hadamard_seq(ring, f, n), n)) == f,
        hadamard_seq(ring, scaled(ring, ring.sinv(spow(ring, two(ring), n)), hadamard_seq(ring, f, n)), n) == f,
{
    let c = spow(ring, two(ring), n);
    vstd::arithmetic::power2::lemma_pow2_pos(n);
    ring.lemma_closed(f[0], f[0]);
    ring.lemma_closed(ring.sone(), ring.sone());
    lemma_spow_valid(ring, two(ring), n);
    lemma_hadamard_twice(ring, f, n);
    lemma_doubled_scaled(ring, f, n);
    lemma_scaled_inverse(ring, c, f);
    lemma_hseq_valid(ring, f, n, n);
    lemma_hseq_scaled(ring, ring.sinv(c), hadamard_seq(ring, f, n), n, n);
}

/// The symmetric difference convolution of `f` and `g`, `(fg)(S) = Σ_{T△U=S} f(T) g(U)`, computed as
/// the inverse Walsh-Hadamard transform of the pointwise product of the transforms: the characters
/// are multiplicative, so the transform carries the product to the pointwise product.
pub fn xor_convolve<R: Field>(ring: &R, f: Vec<R::Value>, g: Vec<R::Value>) -> (h: Vec<R::Value>)
    requires
        f@.len() == g@.len(),
        is_pow2(f@.len() as int),
        all_valid(*ring, f@),
        all_valid(*ring, g@),
        spow(*ring, two(*ring), log2_of(f@.len() as int)) != ring.szero(),
    ensures
        h@.len() == f@.len(),
        h@ == scaled(
            *ring,
            ring.sinv(spow(*ring, two(*ring), log2_of(f@.len() as int))),
            hadamard_seq(
                *ring,
                pointwise(
                    *ring,
                    hadamard_seq(*ring, f@, log2_of(f@.len() as int)),
                    hadamard_seq(*ring, g@, log2_of(f@.len() as int)),
                ),
                log2_of(f@.len() as int),
            ),
        ),
        hadamard_seq(*ring, h@, log2_of(f@.len() as int)) == pointwise(
            *ring,
            hadamard_seq(*ring, f@, log2_of(f@.len() as int)),
            hadamard_seq(*ring, g@, log2_of(f@.len() as int)),
        ),
        forall|v: int|
            0 <= v < h@.len() ==> #[trigger] h@[v] == symdiff_sum(*ring, f@, g@, v, log2_of(f@.len() as int)),
        all_valid(*ring, h@),
{
    let ghost n = log2_of(f@.len() as int);
    let ghost f0 = f@;
    let ghost g0 = g@;
    let mut f = f;
    let mut g = g;
    walsh_hadamard(ring, f.as_mut_slice());
    walsh_hadamard(ring, g.as_mut_slice());
    let ghost hf = f@;
    let ghost hg = g@;
    proof {
        assert(hf =~= hadamard_seq(*ring, f0, n));
        assert(hg =~= hadamard_seq(*ring, g0, n));
    }
    let len = f.len();
    let mut i: usize = 0;
    while i < len
        invariant
            i <= len,
            f@.len() == len,
            g@ == hg,
            hg.len() == len,
            hf.len() == len,
            all_valid(*ring, hf),
            all_valid(*ring, hg),
            forall|s: int| 0 <= s < i ==> #[trigger] f@[s] == ring.smul(hf[s], hg[s]),
            forall|s: int| i <= s < len ==> #[trigger] f@[s] == hf[s],
            forall|s: int| 0 <= s < len ==> ring.valid(#[trigger] f@[s]),
        decreases len - i,
    {
        let p = ring.mul(&f[i], &g[i]);
        f.set(i, p);
        i = i + 1;
    }
    let ghost prod = f@;
    proof {
        assert(prod =~= pointwise(*ring, hf, hg));
    }
    inverse_walsh_hadamard(ring, f.as_mut_slice());
    proof {
        assert(pow2(n) == f0.len());
        lemma_inverse_hadamard(*ring, prod, n);
        lemma_symdiff_closed(*ring, f0, g0, f@, n);
    }
    f
}

} // verus!
