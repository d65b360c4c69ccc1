//! Set power series: functions on the subsets of `[0, n)`, as `2^n` values indexed by bit sets,
//! with the subset convolution as product, and their exponential and logarithm.
use crate::algebra::{Ring, Semiring};
use vstd::arithmetic::power2::{lemma2_to64, lemma_pow2_unfold, pow2};
use vstd::prelude::*;

verus! {

/// `t` is a subset of `r`, as bit sets.
pub open spec fn is_subset(t: usize, r: usize) -> bool {
    t & r == t
}

/// `Σ_{T < k, T ⊆ R} f(w + T) g(R - T)`: for `w = 0` and `k = 2^n` the coefficient of `R` in the
/// subset convolution `Σ_{T ⊆ R} f(T) g(R \ T)`; for `w = 2^i` and `R < w`, the sum over the
/// ways to split off a block `T ∪ {i}` from `R ∪ {i}`.
pub open spec fn split_sum<R: Semiring>(ring: R, f: Seq<R::Value>, g: Seq<R::Value>, w: int, r: usize, k: int) -> R::Value
    decreases k,
{
    if k <= 0 {
        ring.szero()
    } else {
        let t = (k - 1) as usize;
        if is_subset(t, r) {
            ring.sadd(split_sum(ring, f, g, w, r, k - 1), ring.smul(f[w + t], g[r - t]))
        } else {
            split_sum(ring, f, g, w, r, k - 1)
        }
    }
}

/// `g` is the exponential of `f` on `2^n` sets: `g(∅) = 1`, and for a set `R ∪ {i}` with `R`
/// below `2^i`, `g(R ∪ {i}) = Σ_{T ⊆ R} f(T ∪ {i}) g(R \ T)`, splitting off the block of the largest
/// element; so `g(S)` sums, over the partitions of `S`, the products of `f` on the blocks.
pub open spec fn is_exp<R: Semiring>(ring: R, f: Seq<R::Value>, g: Seq<R::Value>, n: nat) -> bool {
    &&& g.len() == pow2(n)
    &&& g[0] == ring.sone()
    &&& forall|i: nat, r: usize|
        i < n && r < pow2(i) ==> #[trigger] g[pow2(i) + r] == split_sum(ring, f, g, pow2(i) as int, r, pow2(i) as int)
}

/// Every value is valid.
pub open spec fn valid_all<R: Semiring>(ring: R, f: Seq<R::Value>) -> bool {
    forall|i: int| 0 <= i < f.len() ==> ring.valid(#[trigger] f[i])
}

proof fn lemma_subset_le(t: usize, r: usize)
    requires
        is_subset(t, r),
    ensures
        t <= r,
{
    assert(t & r == t ==> t <= r) by (bit_vector);
}

proof fn lemma_pow2_step(i: nat)
    ensures
        pow2(i + 1) == 2 * pow2(i),
        pow2(0) == 1,
{
    lemma_pow2_unfold(i + 1);
    lemma2_to64();
}

/// The sum reads `f` only at `w + T` and `g` only at `R - T`, for `T <= R`, `T < k`.
proof fn lemma_split_frame<R: Semiring>(ring: R, f: Seq<R::Value>, g: Seq<R::Value>, f2: Seq<R::Value>, g2: Seq<R::Value>, w: int, r: usize, k: int)
    requires
        forall|x: int| w <= x < w + k && x <= w + r ==> #[trigger] f2[x] == f[x],
        forall|y: int| 0 <= y <= r ==> #[trigger] g2[y] == g[y],
    ensures
        split_sum(ring, f2, g2, w, r, k) == split_sum(ring, f, g, w, r, k),
    decreases k,
{
    if k > 0 {
        lemma_split_frame(ring, f, g, f2, g2, w, r, k - 1);
        let t = (k - 1) as usize;
        if is_subset(t, r) {
            lemma_subset_le(t, r);
            assert(f2[w + t] == f[w + t]);
            assert(g2[r - t] == g[r - t]);
        }
    }
}

proof fn lemma_split_valid<R: Semiring>(ring: R, f: Seq<R::Value>, g: Seq<R::Value>, w: int, r: usize, k: int)
    requires
        valid_all(ring, f),
        valid_all(ring, g),
        ring.valid(ring.szero()),
        0 <= w,
        w + k <= f.len() + 1,
        r < g.len(),
        k <= f.len() - w,
    ensures
        ring.valid(split_sum(ring, f, g, w, r, k)),
    decreases k,
{
    if k > 0 {
        lemma_split_valid(ring, f, g, w, r, k - 1);
        let t = (k - 1) as usize;
        if is_subset(t, r) {
            lemma_subset_le(t, r);
            ring.lemma_closed(f[w + t], g[r - t]);
            ring.lemma_closed(split_sum(ring, f, g, w, r, k - 1), ring.smul(f[w + t], g[r - t]));
        }
    }
}

/// Setting the coefficient at `w + R`, zero before, to `v` adds `v F(∅) = v` to the sums for `R`
/// that reach `T = R`.
proof fn lemma_split_insert<R: Semiring>(ring: R, g: Seq<R::Value>, big: Seq<R::Value>, w: int, r: usize, v: R::Value, k: int)
    requires
        0 <= w,
        w + r < g.len(),
        g[w + r] == ring.szero(),
        big.len() > r,
        big[0] == ring.sone(),
        valid_all(ring, g),
        valid_all(ring, big),
        ring.valid(v),
        k <= g.len() - w,
        k <= usize::MAX,
    ensures
        split_sum(ring, g.update(w + r, v), big, w, r, k) == if k > r {
            ring.sadd(split_sum(ring, g, big, w, r, k), v)
        } else {
            split_sum(ring, g, big, w, r, k)
        },
    decreases k,
{
    let g2 = g.update(w + r, v);
    if k <= r {
        lemma_split_frame(ring, g, big, g2, big, w, r, k);
    } else {
        lemma_split_insert(ring, g, big, w, r, v, k - 1);
        let t = (k - 1) as usize;
        lemma_split_valid(ring, g, big, w, r, k - 1);
        ring.lemma_closed(v, v);
        assert(split_sum(ring, g2, big, w, r, k - 1) == if k - 1 > r {
            ring.sadd(split_sum(ring, g, big, w, r, k - 1), v)
        } else {
            split_sum(ring, g, big, w, r, k - 1)
        });
        if t == r {
            assert(r & r == r) by (bit_vector);
            assert(is_subset(t, r));
            assert(g2[w + t] == v);
            assert(g[w + t] == ring.szero());
            assert(big[r - t] == big[0]);
            ring.lemma_mul_one(v);
            ring.lemma_mul_zero(ring.sone());
            ring.lemma_add_zero(split_sum(ring, g, big, w, r, k - 1));
            assert(split_sum(ring, g, big, w, r, k) == split_sum(ring, g, big, w, r, k - 1));
            assert(split_sum(ring, g2, big, w, r, k) == ring.sadd(split_sum(ring, g2, big, w, r, k - 1), v));
        } else {
            if is_subset(t, r) {
                lemma_subset_le(t, r);
            }
            assert(!is_subset(t, r));
            assert(split_sum(ring, g2, big, w, r, k) == split_sum(ring, g2, big, w, r, k - 1));
            assert(split_sum(ring, g, big, w, r, k) == split_sum(ring, g, big, w, r, k - 1));
        }
    }
}

/// `split_sum(f, g, w, r, k)`, computed.
fn split_sum_exec<R: Semiring>(ring: &R, f: &[R::Value], g: &[R::Value], w: usize, r: usize, k: usize) -> (s: R::Value)
    requires
        valid_all(*ring, f@),
        valid_all(*ring, g@),
        w + k <= f@.len(),
        r < g@.len(),
    ensures
        s == split_sum(*ring, f@, g@, w as int, r, k as int),
        ring.valid(s),
{
    let fl = f.len();
    let mut s = ring.zero();
    let mut t: usize = 0;
    while t < k
        invariant
            fl == f@.len(),
            t <= k,
            w + k <= f@.len(),
            r < g@.len(),
            valid_all(*ring, f@),
            valid_all(*ring, g@),
            ring.valid(s),
            s == split_sum(*ring, f@, g@, w as int, r, t as int),
        decreases k - t,
    {
        if t & r == t {
            proof {
                lemma_subset_le(t, r);
            }
            let x = ring.mul(&f[w + t], &g[r - t]);
            s = ring.add(&s, &x);
        }
        t = t + 1;
    }
    s
}

/// `2^n` as a `usize`.
fn pow2_usize(n: usize) -> (r: usize)
    requires
        pow2(n as nat) <= usize::MAX,
    ensures
        r == pow2(n as nat),
{
    let mut r: usize = 1;
    let mut k: usize = 0;
    proof {
        lemma_pow2_step(0);
    }
    while k < n
        invariant
            k <= n,
            r == pow2(k as nat),
            pow2(n as nat) <= usize::MAX,
        decreases n - k,
    {
        proof {
            lemma_pow2_step(k as nat);
            if k + 1 < n {
                vstd::arithmetic::power2::lemma_pow2_strictly_increases((k + 1) as nat, n as nat);
            }
        }
        r = r * 2;
        k = k + 1;
    }
    r
}

/// The ring of set power series on `n` elements: values are `2^n` coefficients, one for each
/// subset of `[0, n)` as a bit set; the product is the subset convolution
/// `(fg)(S) = Σ_{T ⊆ S} f(T) g(S \ T)`, the one is the indicator of the empty set, and addition is
/// pointwise.
pub struct SetPowerSeries<R> {
    ring: R,
    n: usize,
}

impl<R: Ring> SetPowerSeries<R> {
    /// The ring of the coefficients.
    pub closed spec fn spec_ring(self) -> R {
        self.ring
    }

    /// The number `n` of elements.
    pub closed spec fn spec_n(self) -> nat {
        self.n as nat
    }

    /// The set power series on `n` elements over `ring`; `2^n` must fit in a `usize`.
    pub fn new(ring: R, n: usize) -> (s: Self)
        requires
            pow2(n as nat) <= usize::MAX,
        ensures
            s.spec_ring() == ring,
            s.spec_n() == n,
    {
        SetPowerSeries { ring, n }
    }

    /// `2^n`, the length of a value.
    pub fn len(&self) -> (r: usize)
        requires
            pow2(self.spec_n()) <= usize::MAX,
        ensures
            r == pow2(self.spec_n()),
    {
        pow2_usize(self.n)
    }

    /// `false`: a value has `2^n >= 1` coefficients.
    pub fn is_empty(&self) -> (b: bool)
        ensures
            !b,
    {
        false
    }

    /// The zero series.
    pub fn zero(&self) -> (z: Vec<R::Value>)
        requires
            pow2(self.spec_n()) <= usize::MAX,
        ensures
            z@.len() == pow2(self.spec_n()),
            forall|i: int| 0 <= i < z@.len() ==> #[trigger] z@[i] == self.spec_ring().szero(),
    {
        let len = self.len();
        let mut z: Vec<R::Value> = Vec::new();
        while z.len() < len
            invariant
                z@.len() <= len,
                forall|i: int| 0 <= i < z@.len() ==> #[trigger] z@[i] == self.ring.szero(),
            decreases len - z@.len(),
        {
            z.push(self.ring.zero());
        }
        z
    }

    /// The one: `1` on the empty set, `0` elsewhere.
    pub fn one(&self) -> (e: Vec<R::Value>)
        requires
            pow2(self.spec_n()) <= usize::MAX,
        ensures
            e@.len() == pow2(self.spec_n()),
            e@[0] == self.spec_ring().sone(),
            forall|i: int| 0 < i < e@.len() ==> #[trigger] e@[i] == self.spec_ring().szero(),
    {
        let mut e = self.zero();
        proof {
            vstd::arithmetic::power2::lemma_pow2_pos(self.n as nat);
        }
        e.set(0, self.ring.one());
        e
    }

    /// The sum, coefficient by coefficient.
    pub fn add(&self, a: &Vec<R::Value>, b: &Vec<R::Value>) -> (c: Vec<R::Value>)
        requires
            a@.len() == pow2(self.spec_n()),
            b@.len() == pow2(self.spec_n()),
            valid_all(self.spec_ring(), a@),
            valid_all(self.spec_ring(), b@),
        ensures
            c@.len() == a@.len(),
            forall|i: int| 0 <= i < c@.len() ==> #[trigger] c@[i] == self.spec_ring().sadd(a@[i], b@[i]),
    {
        let mut c: Vec<R::Value> = Vec::new();
        let mut i: usize = 0;
        while i < a.len()
            invariant
                i <= a@.len(),
                a@.len() == b@.len(),
                valid_all(self.ring, a@),
                valid_all(self.ring, b@),
                c@.len() == i,
                forall|k: int| 0 <= k < i ==> #[trigger] c@[k] == self.ring.sadd(a@[k], b@[k]),
            decreases a@.len() - i,
        {
            c.push(self.ring.add(&a[i], &b[i]));
            i = i + 1;
        }
        c
    }

    /// The negative, coefficient by coefficient.
    pub fn neg(&self, a: &Vec<R::Value>) -> (c: Vec<R::Value>)
        requires
            valid_all(self.spec_ring(), a@),
        ensures
            c@.len() == a@.len(),
            forall|i: int| 0 <= i < c@.len() ==> #[trigger] c@[i] == self.spec_ring().sneg(a@[i]),
    {
        let mut c: Vec<R::Value> = Vec::new();
        let mut i: usize = 0;
        while i < a.len()
            invariant
                i <= a@.len(),
                valid_all(self.ring, a@),
                c@.len() == i,
                forall|k: int| 0 <= k < i ==> #[trigger] c@[k] == self.ring.sneg(a@[k]),
            decreases a@.len() - i,
        {
            c.push(self.ring.neg(&a[i]));
            i = i + 1;
        }
        c
    }

    /// The exponential `g` of `f`: `g(∅) = 1`, and for `R` below `2^i`,
    /// `g(R ∪ {i}) = Σ_{T ⊆ R} f(T ∪ {i}) g(R \ T)`, so that `g(S)` sums, over the partitions of
    /// `S`, the products of `f` on the blocks; each coefficient summed over all `T`, in O(4^n).
    pub fn exp(&self, f: &[R::Value]) -> (g: Vec<R::Value>)
        requires
            pow2(self.spec_n()) <= usize::MAX,
            f@.len() == pow2(self.spec_n()),
            valid_all(self.spec_ring(), f@),
        ensures
            is_exp(self.spec_ring(), f@, g@, self.spec_n()),
    {
        let ring = &self.ring;
        let n = self.n;
        let len = self.len();
        let mut g = self.zero();
        proof {
            vstd::arithmetic::power2::lemma_pow2_pos(n as nat);
            lemma_pow2_step(0);
            ring.lemma_closed(f@[0], f@[0]);
        }
        g.set(0, ring.one());
        let mut i: usize = 0;
        let mut w: usize = 1;
        while i < n
            invariant
                i <= n,
                n == self.spec_n(),
                len == pow2(n as nat),
                len <= usize::MAX,
                w == pow2(i as nat),
                f@.len() == len,
                g@.len() == len,
                valid_all(*ring, f@),
                valid_all(*ring, g@),
                g@[0] == ring.sone(),
                forall|j: nat, r: usize|
                    j < i && r < pow2(j) ==> #[trigger] g@[pow2(j) + r] == split_sum(*ring, f@, g@, pow2(j) as int, r, pow2(j) as int),
            decreases n - i,
        {
            proof {
                lemma_pow2_step(i as nat);
                if i + 1 < n {
                    vstd::arithmetic::power2::lemma_pow2_strictly_increases((i + 1) as nat, n as nat);
                }
            }
            let mut r: usize = 0;
            while r < w
                invariant
                    i < n,
                    r <= w,
                    n == self.spec_n(),
                    len == pow2(n as nat),
                    w == pow2(i as nat),
                    2 * w <= len,
                    f@.len() == len,
                    g@.len() == len,
                    valid_all(*ring, f@),
                    valid_all(*ring, g@),
                    g@[0] == ring.sone(),
                    forall|j: nat, x: usize|
                        j < i && x < pow2(j) ==> #[trigger] g@[pow2(j) + x] == split_sum(*ring, f@, g@, pow2(j) as int, x, pow2(j) as int),
                    forall|x: usize| x < r ==> #[trigger] g@[w + x] == split_sum(*ring, f@, g@, w as int, x, w as int),
                decreases w - r,
            {
                let v = split_sum_exec(ring, f, g.as_slice(), w, r, w);
                let ghost old_g = g@;
                g.set(w + r, v);
                proof {
                    assert forall|j: nat, x: usize|
                        j < i && x < pow2(j) implies #[trigger] g@[pow2(j) + x] == split_sum(*ring, f@, g@, pow2(j) as int, x, pow2(j) as int) by {
                        lemma_pow2_step(j);
                        if j + 1 < i {
                            vstd::arithmetic::power2::lemma_pow2_strictly_increases(j + 1, i as nat);
                        }
                        assert(old_g[pow2(j) + x] == split_sum(*ring, f@, old_g, pow2(j) as int, x, pow2(j) as int));
                        lemma_split_frame(*ring, f@, old_g, f@, g@, pow2(j) as int, x, pow2(j) as int);
                    }
                    assert forall|x: usize| x < r + 1 implies #[trigger] g@[w + x] == split_sum(*ring, f@, g@, w as int, x, w as int) by {
                        lemma_split_frame(*ring, f@, old_g, f@, g@, w as int, x, w as int);
                    }
                }
                r = r + 1;
            }
            proof {
                assert forall|j: nat, x: usize|
                    j < i + 1 && x < pow2(j) implies #[trigger] g@[pow2(j) + x] == split_sum(*ring, f@, g@, pow2(j) as int, x, pow2(j) as int) by {
                    if j == i {
                        assert(g@[w + x] == split_sum(*ring, f@, g@, w as int, x, w as int));
                    }
                }
            }
            w = w * 2;
            i = i + 1;
        }
        g
    }

    /// The logarithm `g` of `F`, the inverse of `exp`: `g(∅) = 0` and `F` is the exponential of
    /// `g`; `F(∅)` must be one. Coefficient by coefficient, `g(R ∪ {i})` is `F(R ∪ {i})` minus the
    /// terms `T ⊊ R` of the exponential's sum, in O(4^n).
    pub fn log(&self, big: &[R::Value]) -> (g: Vec<R::Value>)
        requires
            pow2(self.spec_n()) <= usize::MAX,
            big@.len() == pow2(self.spec_n()),
            valid_all(self.spec_ring(), big@),
            big@[0] == self.spec_ring().sone(),
        ensures
            g@.len() == big@.len(),
            g@[0] == self.spec_ring().szero(),
            is_exp(self.spec_ring(), g@, big@, self.spec_n()),
    {
        let ring = &self.ring;
        let n = self.n;
        let len = self.len();
        let mut g = self.zero();
        proof {
            vstd::arithmetic::power2::lemma_pow2_pos(n as nat);
            lemma_pow2_step(0);
            ring.lemma_closed(big@[0], big@[0]);
        }
        let mut i: usize = 0;
        let mut w: usize = 1;
        while i < n
            invariant
                i <= n,
                n == self.spec_n(),
                len == pow2(n as nat),
                len <= usize::MAX,
                w == pow2(i as nat),
                w <= len,
                big@.len() == len,
                g@.len() == len,
                valid_all(*ring, big@),
                valid_all(*ring, g@),
                big@[0] == ring.sone(),
                g@[0] == ring.szero(),
                forall|x: int| w <= x < len ==> #[trigger] g@[x] == ring.szero(),
                forall|j: nat, r: usize|
                    j < i && r < pow2(j) ==> #[trigger] big@[pow2(j) + r] == split_sum(*ring, g@, big@, pow2(j) as int, r, pow2(j) as int),
            decreases n - i,
        {
            proof {
                lemma_pow2_step(i as nat);
                if i + 1 < n {
                    vstd::arithmetic::power2::lemma_pow2_strictly_increases((i + 1) as nat, n as nat);
                }
            }
            let mut r: usize = 0;
            while r < w
                invariant
                    i < n,
                    r <= w,
                    n == self.spec_n(),
                    len == pow2(n as nat),
                    w == pow2(i as nat),
                    2 * w <= len,
                    big@.len() == len,
                    g@.len() == len,
                    valid_all(*ring, big@),
                    valid_all(*ring, g@),
                    big@[0] == ring.sone(),
                    g@[0] == ring.szero(),
                    forall|x: int| w + r <= x < len ==> #[trigger] g@[x] == ring.szero(),
                    forall|j: nat, x: usize|
                        j < i && x < pow2(j) ==> #[trigger] big@[pow2(j) + x] == split_sum(*ring, g@, big@, pow2(j) as int, x, pow2(j) as int),
                    forall|x: usize| x < r ==> #[trigger] big@[w + x] == split_sum(*ring, g@, big@, w as int, x, w as int),
                decreases w - r,
            {
                let acc = split_sum_exec(ring, g.as_slice(), big, w, r, w);
                let v = ring.add(&big[w + r], &ring.neg(&acc));
                let ghost old_g = g@;
                g.set(w + r, v);
                proof {
                    assert(g@ == old_g.update(w + r, v));
                    lemma_split_insert(*ring, old_g, big@, w as int, r, v, w as int);
                    ring.lemma_add_neg(acc);
                    ring.lemma_add_comm(acc, v);
                    ring.lemma_add_assoc(big@[w + r], ring.sneg(acc), acc);
                    ring.lemma_add_comm(ring.sneg(acc), acc);
                    ring.lemma_add_zero(big@[w + r]);
                    assert forall|j: nat, x: usize|
                        j < i && x < pow2(j) implies #[trigger] big@[pow2(j) + x] == split_sum(*ring, g@, big@, pow2(j) as int, x, pow2(j) as int) by {
                        lemma_pow2_step(j);
                        if j + 1 < i {
                            vstd::arithmetic::power2::lemma_pow2_strictly_increases(j + 1, i as nat);
                        }
                        assert(big@[pow2(j) + x] == split_sum(*ring, old_g, big@, pow2(j) as int, x, pow2(j) as int));
                        lemma_split_frame(*ring, old_g, big@, g@, big@, pow2(j) as int, x, pow2(j) as int);
                    }
                    assert forall|x: usize| x < r + 1 implies #[trigger] big@[w + x] == split_sum(*ring, g@, big@, w as int, x, w as int) by {
                        if x < r {
                            assert(big@[w + x] == split_sum(*ring, old_g, big@, w as int, x, w as int));
                            lemma_split_frame(*ring, old_g, big@, g@, big@, w as int, x, w as int);
                        }
                    }
                }
                r = r + 1;
            }
            proof {
                assert forall|j: nat, x: usize|
                    j < i + 1 && x < pow2(j) implies #[trigger] big@[pow2(j) + x] == split_sum(*ring, g@, big@, pow2(j) as int, x, pow2(j) as int) by {
                    if j == i {
                        assert(big@[w + x] == split_sum(*ring, g@, big@, w as int, x, w as int));
                    }
                }
            }
            w = w * 2;
            i = i + 1;
        }
        g
    }

    /// The product, the subset convolution `(ab)(S) = Σ_{T ⊆ S} a(T) b(S \ T)`, each coefficient
    /// summed over all `T` in O(4^n).
    pub fn mul(&self, a: &Vec<R::Value>, b: &Vec<R::Value>) -> (c: Vec<R::Value>)
        requires
            a@.len() == pow2(self.spec_n()),
            b@.len() == pow2(self.spec_n()),
            valid_all(self.spec_ring(), a@),
            valid_all(self.spec_ring(), b@),
        ensures
            c@.len() == a@.len(),
            forall|s: int|
                0 <= s < c@.len() ==> #[trigger] c@[s] == split_sum(self.spec_ring(), a@, b@, 0, s as usize, a@.len() as int),
    {
        let len = a.len();
        let mut c: Vec<R::Value> = Vec::new();
        let mut s: usize = 0;
        while s < len
            invariant
                s <= len,
                len == a@.len(),
                len == b@.len(),
                valid_all(self.ring, a@),
                valid_all(self.ring, b@),
                c@.len() == s,
                forall|x: int| 0 <= x < s ==> #[trigger] c@[x] == split_sum(self.ring, a@, b@, 0, x as usize, len as int),
            decreases len - s,
        {
            let v = split_sum_exec(&self.ring, a.as_slice(), b.as_slice(), 0, s, len);
            c.push(v);
            s = s + 1;
        }
        c
    }
}

} // verus!
