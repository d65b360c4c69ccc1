//! Periodic functions on the integers, as functions on `Z/nZ` stored as their `n` values.
use crate::algebra::{lemma_mul_neg, lemma_neg_unique, spow, Field, Ring, RootOfUnity, Semiring};
use crate::linear::{
    fsum, lemma_fsum_ext, lemma_fsum_mul_left, lemma_fsum_mul_right, lemma_fsum_single, lemma_fsum_swap,
    lemma_fsum_valid,
};
use crate::num::factorial::{lemma_nat_elem_valid, nat_elem};
use crate::poly::all_valid;
use crate::set_function::superset::is_pow2;
use vstd::prelude::*;

verus! {

/// `Σ_{y < m} f(y) g(x - y)`, with `x - y` taken modulo `n = g.len()`.
pub open spec fn cyclic_upto<R: Semiring>(r: R, f: Seq<R::Value>, g: Seq<R::Value>, x: int, m: int) -> R::Value
    decreases m,
{
    if m <= 0 {
        r.szero()
    } else {
        r.sadd(cyclic_upto(r, f, g, x, m - 1), r.smul(f[m - 1], g[(x - (m - 1)) % (g.len() as int)]))
    }
}

/// The cyclic convolution of `f` and `g`, of one length `n`: `(fg)(x) = Σ_{y+z=x} f(y) g(z)`,
/// with `y + z` taken modulo `n`; the product of the group algebra `R[Z/nZ] = R[t]/(t^n - 1)`. By
/// the definition, in O(n^2).
pub fn cyclic_convolve<R: Semiring>(ring: &R, f: Vec<R::Value>, g: Vec<R::Value>) -> (h: Vec<R::Value>)
    requires
        f@.len() == g@.len(),
        all_valid(*ring, f@),
        all_valid(*ring, g@),
    ensures
        h@.len() == f@.len(),
        forall|x: int| 0 <= x < h@.len() ==> #[trigger] h@[x] == cyclic_upto(*ring, f@, g@, x, f@.len() as int),
{
    let n = f.len();
    let mut h: Vec<R::Value> = Vec::new();
    let mut x: usize = 0;
    while x < n
        invariant
            x <= n,
            n == f@.len(),
            n == g@.len(),
            all_valid(*ring, f@),
            all_valid(*ring, g@),
            h@.len() == x,
            forall|i: int| 0 <= i < x ==> #[trigger] h@[i] == cyclic_upto(*ring, f@, g@, i, n as int),
        decreases n - x,
    {
        let mut acc = ring.zero();
        let mut y: usize = 0;
        while y < n
            invariant
                y <= n,
                x < n,
                n == f@.len(),
                n == g@.len(),
                all_valid(*ring, f@),
                all_valid(*ring, g@),
                ring.valid(acc),
                acc == cyclic_upto(*ring, f@, g@, x as int, y as int),
            decreases n - y,
        {
            let z = if x >= y {
                x - y
            } else {
                x + (n - y)
            };
            proof {
                if x < y {
                    assert((x - y) % (n as int) == x + (n - y)) by {
                        vstd::arithmetic::div_mod::lemma_mod_add_multiples_vanish(x - y, n as int);
                        vstd::arithmetic::div_mod::lemma_small_mod((x + (n - y)) as nat, n as nat);
                    }
                } else {
                    vstd::arithmetic::div_mod::lemma_small_mod((x - y) as nat, n as nat);
                }
            }
            let t = ring.mul(&f[y], &g[z]);
            acc = ring.add(&acc, &t);
            y = y + 1;
        }
        h.push(acc);
        x = x + 1;
    }
    h
}

/// `Σ_{x < m} u^x f(x)`, added in increasing order of `x`.
pub open spec fn character_upto<R: Semiring>(r: R, f: Seq<R::Value>, u: R::Value, m: int) -> R::Value
    decreases m,
{
    if m <= 0 {
        r.szero()
    } else {
        r.sadd(character_upto(r, f, u, m - 1), r.smul(spow(r, u, (m - 1) as nat), f[m - 1]))
    }
}

/// The value at `s` of the transform of `f` by the root `w`: `Σ_x (w^s)^x f(x)`, the coefficient
/// of `f` against the character `x -> w^{sx}` of `Z/nZ`, `n = f.len()`.
pub open spec fn dft_at<R: Semiring>(r: R, f: Seq<R::Value>, w: R::Value, s: nat) -> R::Value {
    character_upto(r, f, spow(r, w, s), f.len() as int)
}

/// The values `Σ_x (w^s)^x f(x)` for all `s < n`, by the definition, in O(n^2).
fn character_sums<R: Semiring>(ring: &R, f: &[R::Value], w: &R::Value) -> (h: Vec<R::Value>)
    requires
        ring.valid(*w),
        all_valid(*ring, f@),
    ensures
        h@.len() == f@.len(),
        all_valid(*ring, h@),
        forall|s: int| 0 <= s < h@.len() ==> #[trigger] h@[s] == dft_at(*ring, f@, *w, s as nat),
{
    let n = f.len();
    let mut h: Vec<R::Value> = Vec::new();
    let mut ws = ring.one();
    let mut s: usize = 0;
    while s < n
        invariant
            s <= n,
            n == f@.len(),
            ring.valid(*w),
            all_valid(*ring, f@),
            ring.valid(ws),
            ws == spow(*ring, *w, s as nat),
            h@.len() == s,
            all_valid(*ring, h@),
            forall|i: int| 0 <= i < s ==> #[trigger] h@[i] == dft_at(*ring, f@, *w, i as nat),
        decreases n - s,
    {
        let mut acc = ring.zero();
        let mut p = ring.one();
        let mut x: usize = 0;
        while x < n
            invariant
                x <= n,
                n == f@.len(),
                all_valid(*ring, f@),
                ring.valid(ws),
                ring.valid(acc),
                ring.valid(p),
                p == spow(*ring, ws, x as nat),
                acc == character_upto(*ring, f@, ws, x as int),
            decreases n - x,
        {
            let t = ring.mul(&p, &f[x]);
            acc = ring.add(&acc, &t);
            p = ring.mul(&p, &ws);
            x = x + 1;
        }
        h.push(acc);
        ws = ring.mul(&ws, w);
        s = s + 1;
    }
    h
}

/// The discrete Fourier transform on `f`, in place: with `n = f.len()` a power of two and `ω` the
/// chosen `n`-th root of unity of the field, `f(s)` becomes `Σ_x (ω^s)^x f(x)`, the expansion of
/// `f` in the characters `x -> ω^{sx}` of `Z/nZ`. By the definition, in O(n^2).
pub fn dft<R: RootOfUnity>(ring: &R, f: &mut [R::Value])
    requires
        is_pow2(old(f)@.len() as int),
        ring.sroot(old(f)@.len() as nat) is Some,
        all_valid(*ring, old(f)@),
    ensures
        final(f)@.len() == old(f)@.len(),
        all_valid(*ring, final(f)@),
        forall|s: int|
            0 <= s < final(f)@.len() ==> #[trigger] final(f)@[s] == dft_at(
                *ring,
                old(f)@,
                ring.sroot(old(f)@.len() as nat)->0,
                s as nat,
            ),
{
    let ghost f0 = f@;
    let n = f.len();
    let w = match ring.root_of_unity(n) {
        Some(w) => w,
        None => {
            return;
        },
    };
    proof {
        ring.lemma_root(n as nat);
    }
    let mut h = character_sums(ring, f, &w);
    let mut k: usize = n;
    while k > 0
        invariant
            k <= n,
            n == f0.len(),
            f@.len() == n,
            h@.len() == k,
            all_valid(*ring, h@),
            forall|x: int| 0 <= x < k ==> #[trigger] h@[x] == dft_at(*ring, f0, w, x as nat),
            forall|x: int| k <= x < n ==> #[trigger] f@[x] == dft_at(*ring, f0, w, x as nat),
            forall|x: int| k <= x < n ==> ring.valid(#[trigger] f@[x]),
        decreases k,
    {
        let v = h.pop().unwrap();
        k = k - 1;
        f[k] = v;
    }
}

/// The inverse discrete Fourier transform on `f`, in place: with `n = f.len()` and `ω` as in
/// [`dft`], `f(x)` becomes `(Σ_s (ω^{-x})^s f(s)) n^{-1}`, where `ω^{-1}` and `n^{-1}` are the
/// inverses in the field; `n` is nonzero there wherever `ω` is chosen. By the definition, in
/// O(n^2).
pub fn inverse_dft<R: RootOfUnity>(ring: &R, f: &mut [R::Value])
    requires
        is_pow2(old(f)@.len() as int),
        ring.sroot(old(f)@.len() as nat) is Some,
        all_valid(*ring, old(f)@),
    ensures
        final(f)@.len() == old(f)@.len(),
        all_valid(*ring, final(f)@),
        forall|x: int|
            0 <= x < final(f)@.len() ==> #[trigger] final(f)@[x] == ring.smul(
                dft_at(*ring, old(f)@, ring.sinv(ring.sroot(old(f)@.len() as nat)->0), x as nat),
                ring.sinv(nat_elem(*ring, old(f)@.len() as nat)),
            ),
{
    let ghost f0 = f@;
    let n = f.len();
    let w = match ring.root_of_unity(n) {
        Some(w) => w,
        None => {
            return;
        },
    };
    proof {
        ring.lemma_root(n as nat);
    }
    let w_inv = ring.inv(&w);
    let h = character_sums(ring, f, &w_inv);
    let one = ring.one();
    let mut m = ring.zero();
    let mut k: usize = 0;
    while k < n
        invariant
            k <= n,
            ring.valid(one),
            one == ring.sone(),
            ring.valid(m),
            m == nat_elem(*ring, k as nat),
        decreases n - k,
    {
        m = ring.add(&m, &one);
        k = k + 1;
    }
    let n_inv = ring.inv(&m);
    let mut x: usize = 0;
    while x < n
        invariant
            x <= n,
            n == f0.len(),
            f@.len() == n,
            h@.len() == n,
            all_valid(*ring, h@),
            ring.valid(n_inv),
            n_inv == ring.sinv(nat_elem(*ring, n as nat)),
            forall|i: int| 0 <= i < n ==> #[trigger] h@[i] == dft_at(*ring, f0, w_inv, i as nat),
            forall|i: int| 0 <= i < x ==> #[trigger] f@[i] == ring.smul(h@[i], n_inv),
            forall|i: int| 0 <= i < x ==> ring.valid(#[trigger] f@[i]),
            forall|i: int| x <= i < n ==> #[trigger] f@[i] == f0[i],
            all_valid(*ring, f0),
        decreases n - x,
    {
        let v = ring.mul(&h[x], &n_inv);
        f[x] = v;
        x = x + 1;
    }
}

proof fn lemma_spow_valid<R: Semiring>(r: R, a: R::Value, k: nat)
    requires
        r.valid(a),
    ensures
        r.valid(spow(r, a, k)),
    decreases k,
{
    r.lemma_closed(a, a);
    if k > 0 {
        lemma_spow_valid(r, a, (k - 1) as nat);
        r.lemma_closed(spow(r, a, (k - 1) as nat), a);
    }
}

/// `a^{i + j} = a^i a^j`.
proof fn lemma_spow_add<R: Semiring>(r: R, a: R::Value, i: nat, j: nat)
    requires
        r.valid(a),
    ensures
        spow(r, a, i + j) == r.smul(spow(r, a, i), spow(r, a, j)),
    decreases j,
{
    lemma_spow_valid(r, a, i);
    if j == 0 {
        r.lemma_mul_one(spow(r, a, i));
    } else {
        lemma_spow_add(r, a, i, (j - 1) as nat);
        lemma_spow_valid(r, a, (j - 1) as nat);
        r.lemma_mul_assoc(spow(r, a, i), spow(r, a, (j - 1) as nat), a);
        assert((i + j - 1) as nat == i + (j - 1) as nat);
    }
}

/// `(a^i)^j = a^{ij}`.
proof fn lemma_spow_mul<R: Semiring>(r: R, a: R::Value, i: nat, j: nat)
    requires
        r.valid(a),
    ensures
        spow(r, spow(r, a, i), j) == spow(r, a, i * j),
    decreases j,
{
    if j == 0 {
        assert(i * j == 0);
    } else {
        let j1 = (j - 1) as nat;
        lemma_spow_mul(r, a, i, j1);
        lemma_spow_add(r, a, i * j1, i);
        assert(i * j1 + i == i * j) by (nonlinear_arith)
            requires
                j1 + 1 == j,
        ;
        assert(spow(r, spow(r, a, i), j) == r.smul(spow(r, spow(r, a, i), j1), spow(r, a, i)));
    }
}

/// `1^k = 1`.
proof fn lemma_spow_one<R: Semiring>(r: R, k: nat)
    requires
        r.valid(r.sone()),
    ensures
        spow(r, r.sone(), k) == r.sone(),
    decreases k,
{
    if k > 0 {
        lemma_spow_one(r, (k - 1) as nat);
        r.lemma_mul_one(r.sone());
    }
}

/// `(a b)^k = a^k b^k` in a field.
proof fn lemma_spow_prod<F: Field>(r: F, a: F::Value, b: F::Value, k: nat)
    requires
        r.valid(a),
        r.valid(b),
    ensures
        spow(r, r.smul(a, b), k) == r.smul(spow(r, a, k), spow(r, b, k)),
    decreases k,
{
    r.lemma_closed(a, b);
    if k == 0 {
        r.lemma_mul_one(r.sone());
    } else {
        let k1 = (k - 1) as nat;
        lemma_spow_prod(r, a, b, k1);
        let x = spow(r, a, k1);
        let y = spow(r, b, k1);
        lemma_spow_valid(r, a, k1);
        lemma_spow_valid(r, b, k1);
        r.lemma_closed(x, y);
        r.lemma_closed(y, a);
        r.lemma_closed(x, a);
        // (x y)(a b) = x (y (a b)) = x ((y a) b) = x ((a y) b) = x (a (y b)) = (x a)(y b)
        r.lemma_mul_assoc(x, y, r.smul(a, b));
        r.lemma_mul_assoc(y, a, b);
        r.lemma_mul_comm(y, a);
        r.lemma_mul_assoc(a, y, b);
        r.lemma_closed(y, b);
        r.lemma_mul_assoc(x, a, r.smul(y, b));
    }
}

/// `Σ_{s < m} 1` is the image of `m`.
proof fn lemma_fsum_ones<R: Semiring>(r: R, m: nat)
    requires
        r.valid(r.sone()),
    ensures
        fsum(r, |s: int| r.sone(), m as int) == nat_elem(r, m),
    decreases m,
{
    if m > 0 {
        lemma_fsum_ones(r, (m - 1) as nat);
    }
}

/// `(Σ_{s < m} c^s) c + 1 = Σ_{s < m + 1} c^s`.
proof fn lemma_geometric_step<R: Semiring>(r: R, c: R::Value, m: nat)
    requires
        r.valid(c),
    ensures
        r.sadd(r.smul(fsum(r, |s: int| spow(r, c, s as nat), m as int), c), r.sone()) == fsum(
            r,
            |s: int| spow(r, c, s as nat),
            (m + 1) as int,
        ),
    decreases m,
{
    let t = |s: int| spow(r, c, s as nat);
    r.lemma_closed(c, c);
    assert forall|s: int| 0 <= s < m + 2 implies r.valid(#[trigger] t(s)) by {
        lemma_spow_valid(r, c, s as nat);
    }
    if m == 0 {
        r.lemma_mul_zero(c);
        r.lemma_add_zero(r.sone());
        assert(t(0) == r.sone());
    } else {
        let m1 = (m - 1) as nat;
        lemma_geometric_step(r, c, m1);
        let g1 = fsum(r, t, m1 as int);
        lemma_fsum_valid(r, t, m1 as int);
        let cm = spow(r, c, m1);
        lemma_spow_valid(r, c, m1);
        // (g1 + c^{m-1}) c + 1 = (g1 c + 1) + c^m
        r.lemma_distrib(c, g1, cm);
        r.lemma_closed(g1, c);
        r.lemma_closed(cm, c);
        r.lemma_add_assoc(r.smul(g1, c), r.smul(cm, c), r.sone());
        r.lemma_add_comm(r.smul(cm, c), r.sone());
        r.lemma_add_assoc(r.smul(g1, c), r.sone(), r.smul(cm, c));
        assert(t(m as int) == r.smul(cm, c));
    }
}

/// `Σ_{s < n} c^s = 0` for `c^n = 1` and `c != 1`, in a field.
proof fn lemma_geometric_zero<F: Field>(r: F, c: F::Value, n: nat)
    requires
        r.valid(c),
        spow(r, c, n) == r.sone(),
        c != r.sone(),
    ensures
        fsum(r, |s: int| spow(r, c, s as nat), n as int) == r.szero(),
{
    let t = |s: int| spow(r, c, s as nat);
    let g = fsum(r, t, n as int);
    r.lemma_closed(c, c);
    assert forall|s: int| 0 <= s < n implies r.valid(#[trigger] t(s)) by {
        lemma_spow_valid(r, c, s as nat);
    }
    lemma_fsum_valid(r, t, n as int);
    lemma_geometric_step(r, c, n);
    // g c + 1 = g + c^n = g + 1, so g c = g
    let one = r.sone();
    let m1 = r.sneg(one);
    r.lemma_add_neg(one);
    r.lemma_closed(g, c);
    r.lemma_add_assoc(r.smul(g, c), one, m1);
    r.lemma_add_assoc(g, one, m1);
    r.lemma_add_zero(r.smul(g, c));
    r.lemma_add_zero(g);
    assert(r.smul(g, c) == g);
    // g (c - 1) = g c - g = 0
    let d = r.sadd(c, m1);
    r.lemma_distrib(g, c, m1);
    lemma_mul_neg(r, g, one);
    r.lemma_mul_one(g);
    r.lemma_add_neg(g);
    assert(r.smul(g, d) == r.szero());
    r.lemma_closed(c, m1);
    if d == r.szero() {
        r.lemma_add_comm(c, m1);
        r.lemma_add_neg(m1);
        lemma_neg_unique(r, m1, c);
        lemma_neg_unique(r, one, m1);
        r.lemma_add_comm(m1, one);
        lemma_neg_unique(r, m1, one);
    }
    r.lemma_inv(d);
    r.lemma_mul_assoc(g, d, r.sinv(d));
    r.lemma_mul_one(g);
    r.lemma_mul_zero(r.sinv(d));
}

/// The values `w^n = 1` of a root determine those of its inverse: `(w^{-1})^k w^k = 1`.
proof fn lemma_inverse_powers<F: Field>(r: F, w: F::Value, k: nat)
    requires
        r.valid(w),
        w != r.szero(),
    ensures
        r.smul(spow(r, r.sinv(w), k), spow(r, w, k)) == r.sone(),
{
    r.lemma_inv(w);
    lemma_spow_prod(r, r.sinv(w), w, k);
    r.lemma_mul_comm(w, r.sinv(w));
    r.lemma_closed(w, w);
    lemma_spow_one(r, k);
}

/// The recursive character sum is the sum of its terms.
proof fn lemma_character_fsum<R: Semiring>(r: R, f: Seq<R::Value>, u: R::Value, m: nat)
    ensures
        character_upto(r, f, u, m as int) == fsum(r, |x: int| r.smul(spow(r, u, x as nat), f[x]), m as int),
    decreases m,
{
    if m > 0 {
        lemma_character_fsum(r, f, u, (m - 1) as nat);
    }
}

/// The kernel of the inverse transform after the transform: for a primitive `n`-th root `w`,
/// `Σ_{s < n} (w^{-x})^s (w^s)^y` is `n` for `x = y` and `0` otherwise.
proof fn lemma_kernel<F: Field>(r: F, w: F::Value, n: nat, x: nat, y: nat)
    requires
        r.valid(w),
        w != r.szero(),
        spow(r, w, n) == r.sone(),
        forall|k: nat| 1 <= k < n ==> #[trigger] spow(r, w, k) != r.sone(),
        x < n,
        y < n,
    ensures
        fsum(r, |s: int| r.smul(spow(r, spow(r, r.sinv(w), x), s as nat), spow(r, spow(r, w, s as nat), y)), n as int)
            == if x == y {
            nat_elem(r, n)
        } else {
            r.szero()
        },
{
    let v = r.sinv(w);
    r.lemma_inv(w);
    r.lemma_closed(w, w);
    let vx = spow(r, v, x);
    let wy = spow(r, w, y);
    lemma_spow_valid(r, v, x);
    lemma_spow_valid(r, w, y);
    let c = r.smul(vx, wy);
    r.lemma_closed(vx, wy);
    let t = |s: int| r.smul(spow(r, spow(r, v, x), s as nat), spow(r, spow(r, w, s as nat), y));
    let p = |s: int| spow(r, c, s as nat);
    assert forall|s: int| 0 <= s < n implies #[trigger] t(s) == p(s) by {
        let sn = s as nat;
        lemma_spow_mul(r, w, sn, y);
        lemma_spow_mul(r, w, y, sn);
        vstd::arithmetic::mul::lemma_mul_is_commutative(sn as int, y as int);
        lemma_spow_prod(r, vx, wy, sn);
    }
    lemma_fsum_ext(r, t, p, n as int);
    lemma_inverse_powers(r, w, x);
    if x == y {
        assert(c == r.sone());
        assert forall|s: int| 0 <= s < n implies #[trigger] p(s) == (|s: int| r.sone())(s) by {
            lemma_spow_one(r, s as nat);
        }
        lemma_fsum_ext(r, p, |s: int| r.sone(), n as int);
        lemma_fsum_ones(r, n);
    } else if x < y {
        let d = (y - x) as nat;
        lemma_spow_add(r, w, x, d);
        assert(x + d == y);
        lemma_spow_valid(r, w, x);
        lemma_spow_valid(r, w, d);
        r.lemma_mul_assoc(vx, spow(r, w, x), spow(r, w, d));
        r.lemma_mul_one(spow(r, w, d));
        assert(c == spow(r, w, d));
        lemma_spow_mul(r, w, d, n);
        lemma_spow_mul(r, w, n, d);
        vstd::arithmetic::mul::lemma_mul_is_commutative(d as int, n as int);
        lemma_spow_one(r, d);
        assert(spow(r, c, n) == r.sone());
        assert(spow(r, w, d) != r.sone());
        lemma_geometric_zero(r, c, n);
    } else {
        let d = (x - y) as nat;
        lemma_spow_add(r, v, d, y);
        assert(d + y == x);
        lemma_spow_valid(r, v, d);
        lemma_spow_valid(r, v, y);
        r.lemma_mul_assoc(spow(r, v, d), spow(r, v, y), wy);
        lemma_inverse_powers(r, w, y);
        r.lemma_mul_one(spow(r, v, d));
        assert(c == spow(r, v, d));
        lemma_inverse_powers(r, w, d);
        lemma_spow_valid(r, w, d);
        r.lemma_mul_one(spow(r, w, d));
        if spow(r, v, d) == r.sone() {
            assert(spow(r, w, d) == r.sone());
        }
        lemma_inverse_powers(r, w, n);
        lemma_spow_valid(r, v, n);
        r.lemma_mul_one(spow(r, v, n));
        assert(spow(r, v, n) == r.sone());
        lemma_spow_mul(r, v, d, n);
        lemma_spow_mul(r, v, n, d);
        vstd::arithmetic::mul::lemma_mul_is_commutative(d as int, n as int);
        lemma_spow_one(r, d);
        assert(spow(r, c, n) == r.sone());
        lemma_geometric_zero(r, c, n);
    }
}

/// The inverse discrete Fourier transform undoes the transform: for `f` of length `n` with a
/// chosen `n`-th root of unity `ω`, transforming by `ω^{-1}` the values `Σ_x (ω^s)^x f(x)` and
/// multiplying by `n^{-1}` gives `f` back.
pub proof fn lemma_inverse_dft_of_dft<F: RootOfUnity>(ring: F, f: Seq<F::Value>, x: int)
    requires
        all_valid(ring, f),
        ring.sroot(f.len() as nat) is Some,
        0 <= x < f.len(),
    ensures
        ({
            let n = f.len() as nat;
            let w = ring.sroot(n)->0;
            let g = Seq::new(n, |s: int| dft_at(ring, f, w, s as nat));
            ring.smul(dft_at(ring, g, ring.sinv(w), x as nat), ring.sinv(nat_elem(ring, n))) == f[x]
        }),
{
    let r = ring;
    let n = f.len() as nat;
    let w = r.sroot(n)->0;
    r.lemma_root(n);
    let v = r.sinv(w);
    r.lemma_inv(w);
    r.lemma_closed(w, w);
    let g = Seq::new(n, |s: int| dft_at(r, f, w, s as nat));
    let a = spow(r, v, x as nat);
    lemma_spow_valid(r, v, x as nat);
    lemma_character_fsum(r, g, a, n);
    let wt = |s: int, y: int| spow(r, spow(r, w, s as nat), y as nat);
    let ff = |y: int, s: int| r.smul(r.smul(spow(r, a, s as nat), wt(s, y)), f[y]);
    assert forall|y: int, s: int| 0 <= y < n && 0 <= s < n implies r.valid(#[trigger] ff(y, s)) by {
        lemma_spow_valid(r, a, s as nat);
        lemma_spow_valid(r, w, s as nat);
        lemma_spow_valid(r, spow(r, w, s as nat), y as nat);
        r.lemma_closed(spow(r, a, s as nat), wt(s, y));
        r.lemma_closed(r.smul(spow(r, a, s as nat), wt(s, y)), f[y]);
    }
    // the outer terms, as sums over `y`
    let outer = |s: int| r.smul(spow(r, a, s as nat), g[s]);
    assert forall|s: int| 0 <= s < n implies #[trigger] outer(s) == fsum(
        r,
        |y: int| ff(y, s),
        n as int,
    ) by {
        let ws = spow(r, w, s as nat);
        lemma_spow_valid(r, w, s as nat);
        lemma_character_fsum(r, f, ws, n);
        let inner = |y: int| r.smul(spow(r, ws, y as nat), f[y]);
        assert forall|y: int| 0 <= y < n implies r.valid(#[trigger] inner(y)) by {
            lemma_spow_valid(r, ws, y as nat);
            r.lemma_closed(spow(r, ws, y as nat), f[y]);
        }
        lemma_spow_valid(r, a, s as nat);
        lemma_fsum_mul_left(r, spow(r, a, s as nat), inner, n as int);
        assert forall|y: int| 0 <= y < n implies #[trigger] r.smul(spow(r, a, s as nat), inner(y)) == ff(y, s) by {
            lemma_spow_valid(r, ws, y as nat);
            r.lemma_mul_assoc(spow(r, a, s as nat), spow(r, ws, y as nat), f[y]);
        }
        lemma_fsum_ext(r, |y: int| r.smul(spow(r, a, s as nat), inner(y)), |y: int| ff(y, s), n as int);
    }
    lemma_fsum_ext(r, outer, |s: int| fsum(r, |y: int| ff(y, s), n as int), n as int);
    lemma_fsum_swap(r, ff, n as int, n as int);
    // the sums over `s`: the kernel times `f(y)`
    let kern = |y: int| if y == x { nat_elem(r, n) } else { r.szero() };
    r.lemma_closed(w, w);
    lemma_nat_elem_valid(r, n);
    let terms = |y: int| r.smul(kern(y), f[y]);
    assert forall|y: int| 0 <= y < n implies fsum(r, |s: int| ff(y, s), n as int) == #[trigger] terms(y) by {
        let kt = |s: int| r.smul(spow(r, a, s as nat), wt(s, y));
        assert forall|s: int| 0 <= s < n implies r.valid(#[trigger] kt(s)) by {
            lemma_spow_valid(r, a, s as nat);
            lemma_spow_valid(r, w, s as nat);
            lemma_spow_valid(r, spow(r, w, s as nat), y as nat);
            r.lemma_closed(spow(r, a, s as nat), wt(s, y));
        }
        lemma_fsum_mul_right(r, kt, f[y], n as int);
        lemma_fsum_ext(r, |s: int| r.smul(kt(s), f[y]), |s: int| ff(y, s), n as int);
        lemma_kernel(r, w, n, x as nat, y as nat);
        lemma_fsum_ext(
            r,
            kt,
            |s: int| r.smul(spow(r, spow(r, r.sinv(w), x as nat), s as nat), spow(r, spow(r, w, s as nat), y as nat)),
            n as int,
        );
    }
    lemma_fsum_ext(r, |y: int| fsum(r, |s: int| ff(y, s), n as int), terms, n as int);
    assert forall|y: int| 0 <= y < n && y != x implies #[trigger] terms(y) == r.szero() by {
        r.lemma_mul_zero(f[y]);
    }
    r.lemma_closed(nat_elem(r, n), f[x]);
    lemma_fsum_single(r, terms, n as int, x);
    // n f(x) n^{-1} = f(x)
    let ne = nat_elem(r, n);
    r.lemma_inv(ne);
    r.lemma_mul_comm(ne, f[x]);
    r.lemma_mul_assoc(f[x], ne, r.sinv(ne));
    r.lemma_mul_one(f[x]);
}

} // verus!