//! The formal derivative and integral of polynomials, as coefficient sequences.
use crate::algebra::{Field, Ring, Semiring};
use crate::num::factorial::{fact_elem, lemma_fact_elem_valid, lemma_nat_elem_valid, nat_elem};
use vstd::prelude::*;

verus! {

/// The formal derivative of `f`: the `R`-linear map `x^k -> k x^{k-1}`, with coefficients
/// `(k + 1) f(k + 1)`, of length `n - 1` (and `0` for `n = 0`).
pub open spec fn derivative<R: Semiring>(r: R, f: Seq<R::Value>) -> Seq<R::Value> {
    Seq::new(
        if f.len() == 0 {
            0
        } else {
            (f.len() - 1) as nat
        },
        |k: int| r.smul(nat_elem(r, (k + 1) as nat), f[k + 1]),
    )
}

/// `g` is the integral of `f` vanishing at `0`: `g(0) = 0` and `(k + 1) g(k + 1) = f(k)`, of length
/// `n + 1`.
pub open spec fn is_integral<R: Semiring>(r: R, f: Seq<R::Value>, g: Seq<R::Value>) -> bool {
    &&& g.len() == f.len() + 1
    &&& g[0] == r.szero()
    &&& forall|k: int| 0 <= k < f.len() ==> #[trigger] r.smul(nat_elem(r, (k + 1) as nat), g[k + 1]) == f[k]
}

/// The integral is a right inverse of the derivative: the derivative of the integral of `f` is
/// `f`.
pub proof fn lemma_derivative_of_integral<R: Semiring>(r: R, f: Seq<R::Value>, g: Seq<R::Value>)
    requires
        is_integral(r, f, g),
    ensures
        derivative(r, g) == f,
{
    assert(derivative(r, g) =~= f) by {
        assert forall|k: int| 0 <= k < f.len() implies derivative(r, g)[k] == f[k] by {
            assert(r.smul(nat_elem(r, (k + 1) as nat), g[k + 1]) == f[k]);
        }
    }
}

/// The formal derivative of `f`.
pub fn poly_derivative<R: Semiring>(ring: &R, f: &[R::Value]) -> (g: Vec<R::Value>)
    requires
        ring.valid(ring.szero()),
        ring.valid(ring.sone()),
        forall|k: int| 0 <= k < f@.len() ==> ring.valid(#[trigger] f@[k]),
    ensures
        g@ == derivative(*ring, f@),
{
    let one = ring.one();
    let mut k = ring.zero();
    let mut g: Vec<R::Value> = Vec::new();
    let mut i: usize = 1;
    while i < f.len()
        invariant
            1 <= i <= f@.len() || (i == 1 && f@.len() == 0),
            one == ring.sone(),
            ring.valid(ring.szero()),
            ring.valid(ring.sone()),
            forall|k: int| 0 <= k < f@.len() ==> ring.valid(#[trigger] f@[k]),
            k == nat_elem(*ring, (i - 1) as nat),
            g@ == derivative(*ring, f@).take(i - 1),
        decreases f@.len() - i,
    {
        proof {
            lemma_nat_elem_valid(*ring, (i - 1) as nat);
        }
        k = ring.add(&k, &one);
        let v = ring.mul(&k, &f[i]);
        g.push(v);
        i = i + 1;
        proof {
            assert(g@ =~= derivative(*ring, f@).take(i - 1));
        }
    }
    proof {
        assert(g@ =~= derivative(*ring, f@));
    }
    g
}

/// The integral of `f` vanishing at `0`, where `1, ..., n` are invertible (the characteristic is
/// `0` or greater than `n`).
pub fn poly_integral<F: Field>(ring: &F, f: &[F::Value]) -> (g: Vec<F::Value>)
    requires
        ring.valid(ring.szero()),
        ring.valid(ring.sone()),
        forall|k: int| 0 <= k < f@.len() ==> ring.valid(#[trigger] f@[k]),
        f@.len() < usize::MAX,
        fact_elem(*ring, f@.len()) != ring.szero(),
    ensures
        is_integral(*ring, f@, g@),
        forall|k: int| 0 <= k < g@.len() ==> ring.valid(#[trigger] g@[k]),
{
    if f.len() == 0 {
        let z = ring.zero();
        let g = vec![z];
        assert(g@ == seq![ring.szero()]);
        return g;
    }
    let n = f.len();
    let one = ring.one();
    let minus_one = ring.neg(&one);
    let mut fact: Vec<F::Value> = Vec::with_capacity(n + 1);
    fact.push(ring.one());
    let mut k = ring.zero();
    let mut i: usize = 1;
    while i <= n
        invariant
            1 <= i <= n + 1,
            n == f@.len(),
            n < usize::MAX,
            one == ring.sone(),
            ring.valid(ring.szero()),
            ring.valid(ring.sone()),
            fact@.len() == i,
            forall|j: int| 0 <= j < i ==> #[trigger] fact@[j] == fact_elem(*ring, j as nat),
            k == nat_elem(*ring, (i - 1) as nat),
        decreases n + 1 - i,
    {
        proof {
            lemma_nat_elem_valid(*ring, (i - 1) as nat);
            lemma_fact_elem_valid(*ring, (i - 1) as nat);
            assert(fact@[i - 1] == fact_elem(*ring, (i - 1) as nat));
        }
        k = ring.add(&k, &one);
        let v = ring.mul(&fact[i - 1], &k);
        fact.push(v);
        i = i + 1;
    }
    proof {
        lemma_fact_elem_valid(*ring, n as nat);
        assert(fact@[n as int] == fact_elem(*ring, n as nat));
    }
    let mut acc = ring.inv(&fact[n]);
    let mut g: Vec<F::Value> = Vec::with_capacity(n + 1);
    let mut j: usize = 0;
    while j <= n
        invariant
            j <= n + 1,
            n < usize::MAX,
            g@.len() == j,
            ring.valid(ring.szero()),
            forall|l: int| 0 <= l < j ==> #[trigger] g@[l] == ring.szero(),
        decreases n + 1 - j,
    {
        g.push(ring.zero());
        j = j + 1;
    }
    let mut i: usize = n;
    proof {
        ring.lemma_mul_comm(fact_elem(*ring, n as nat), acc);
        ring.lemma_closed(ring.szero(), ring.szero());
    }
    while i > 0
        invariant
            i <= n,
            n == f@.len(),
            n < usize::MAX,
            one == ring.sone(),
            minus_one == ring.sneg(ring.sone()),
            ring.valid(ring.szero()),
            ring.valid(ring.sone()),
            ring.valid(minus_one),
            forall|l: int| 0 <= l < f@.len() ==> ring.valid(#[trigger] f@[l]),
            fact@.len() == n + 1,
            forall|l: int| 0 <= l <= n ==> #[trigger] fact@[l] == fact_elem(*ring, l as nat),
            ring.valid(acc),
            ring.smul(fact_elem(*ring, i as nat), acc) == ring.sone(),
            k == nat_elem(*ring, i as nat),
            g@.len() == n + 1,
            g@[0] == ring.szero(),
            forall|l: int| 0 <= l <= i ==> #[trigger] g@[l] == ring.szero(),
            forall|l: int|
                i <= l < n ==> #[trigger] ring.smul(nat_elem(*ring, (l + 1) as nat), g@[l + 1]) == f@[l],
            forall|l: int| 0 <= l <= n ==> ring.valid(#[trigger] g@[l]),
        decreases i,
    {
        let ghost i0 = i;
        proof {
            lemma_fact_elem_valid(*ring, (i - 1) as nat);
            lemma_nat_elem_valid(*ring, i as nat);
            lemma_nat_elem_valid(*ring, (i - 1) as nat);
            assert(fact@[i - 1] == fact_elem(*ring, (i - 1) as nat));
        }
        let inv_i = ring.mul(&fact[i - 1], &acc);
        let v = ring.mul(&f[i - 1], &inv_i);
        proof {
            let fi1 = fact_elem(*ring, (i - 1) as nat);
            let ki = nat_elem(*ring, i as nat);
            // i ((i-1)! acc) = ((i-1)! i) acc = i! acc = 1
            ring.lemma_mul_assoc(ki, fi1, acc);
            ring.lemma_mul_comm(ki, fi1);
            // i (f v') = f (i v') = f
            ring.lemma_closed(fi1, acc);
            ring.lemma_mul_assoc(ki, f@[i - 1], inv_i);
            ring.lemma_mul_comm(ki, f@[i - 1]);
            ring.lemma_mul_assoc(f@[i - 1], ki, inv_i);
            ring.lemma_mul_one(f@[i - 1]);
        }
        let ghost g0 = g@;
        g.set(i, v);
        let ghost acc0 = acc;
        acc = ring.mul(&acc, &k);
        proof {
            let fi1 = fact_elem(*ring, (i - 1) as nat);
            let ki = nat_elem(*ring, i as nat);
            // (i-1)! (acc0 i) = ((i-1)! i) acc0 = 1
            ring.lemma_mul_assoc(fi1, acc0, ki);
            ring.lemma_mul_comm(acc0, ki);
            ring.lemma_mul_assoc(fi1, ki, acc0);
            assert forall|l: int|
                i - 1 <= l < n implies #[trigger] ring.smul(nat_elem(*ring, (l + 1) as nat), g@[l + 1]) == f@[l] by {
                if l > i - 1 {
                    assert(g@[l + 1] == g0[l + 1]);
                }
            }
            assert forall|l: int| 0 <= l <= n implies ring.valid(#[trigger] g@[l]) by {
                if l != i {
                    assert(g@[l] == g0[l]);
                }
                ring.lemma_closed(f@[i - 1], inv_i);
            }
            ring.lemma_add_assoc(nat_elem(*ring, (i - 1) as nat), ring.sone(), ring.sneg(ring.sone()));
            ring.lemma_add_neg(ring.sone());
            ring.lemma_add_zero(nat_elem(*ring, (i - 1) as nat));
        }
        k = ring.add(&k, &minus_one);
        i = i - 1;
    }
    g
}

} // verus!
