//! Tables of factorials and their inverses in a field, and the binomial, falling factorial and
//! multinomial coefficients they give.
use crate::algebra::{Field, Ring, Semiring};
use vstd::prelude::*;

verus! {

/// The image `1 + 1 + ... + 1` (`k` times) of `k` in the ring.
pub open spec fn nat_elem<R: Semiring>(r: R, k: nat) -> R::Value
    decreases k,
{
    if k == 0 {
        r.szero()
    } else {
        r.sadd(nat_elem(r, (k - 1) as nat), r.sone())
    }
}

/// The image `1 * 1 * 2 * ... * k` of `k!` in the ring.
pub open spec fn fact_elem<R: Semiring>(r: R, k: nat) -> R::Value
    decreases k,
{
    if k == 0 {
        r.sone()
    } else {
        r.smul(fact_elem(r, (k - 1) as nat), nat_elem(r, k))
    }
}

/// The product of the images of `ks[i]!`.
pub open spec fn fact_product<R: Semiring>(r: R, ks: Seq<usize>) -> R::Value
    decreases ks.len(),
{
    if ks.len() == 0 {
        r.sone()
    } else {
        r.smul(fact_product(r, ks.drop_last()), fact_elem(r, ks.last() as nat))
    }
}

/// The sum of `ks`.
pub open spec fn seq_sum(ks: Seq<usize>) -> nat
    decreases ks.len(),
{
    if ks.len() == 0 {
        0
    } else {
        seq_sum(ks.drop_last()) + ks.last() as nat
    }
}

pub proof fn lemma_nat_elem_valid<R: Semiring>(r: R, k: nat)
    requires
        r.valid(r.szero()),
        r.valid(r.sone()),
    ensures
        r.valid(nat_elem(r, k)),
    decreases k,
{
    if k > 0 {
        lemma_nat_elem_valid(r, (k - 1) as nat);
        r.lemma_closed(nat_elem(r, (k - 1) as nat), r.sone());
    }
}

/// `nat_elem` turns sums into sums.
pub proof fn lemma_nat_elem_add<R: Semiring>(r: R, a: nat, b: nat)
    requires
        r.valid(r.szero()),
        r.valid(r.sone()),
    ensures
        nat_elem(r, a + b) == r.sadd(nat_elem(r, a), nat_elem(r, b)),
    decreases b,
{
    lemma_nat_elem_valid(r, a);
    if b == 0 {
        r.lemma_add_zero(nat_elem(r, a));
    } else {
        lemma_nat_elem_add(r, a, (b - 1) as nat);
        lemma_nat_elem_valid(r, (b - 1) as nat);
        r.lemma_add_assoc(nat_elem(r, a), nat_elem(r, (b - 1) as nat), r.sone());
        assert(nat_elem(r, (a + b) as nat) == r.sadd(nat_elem(r, (a + b - 1) as nat), r.sone()));
        assert((a + b - 1) as nat == a + (b - 1) as nat);
    }
}

pub proof fn lemma_fact_elem_valid<R: Semiring>(r: R, k: nat)
    requires
        r.valid(r.szero()),
        r.valid(r.sone()),
    ensures
        r.valid(fact_elem(r, k)),
    decreases k,
{
    if k > 0 {
        lemma_fact_elem_valid(r, (k - 1) as nat);
        lemma_nat_elem_valid(r, k);
        r.lemma_closed(fact_elem(r, (k - 1) as nat), nat_elem(r, k));
    }
}

proof fn lemma_fact_product_valid<R: Semiring>(r: R, ks: Seq<usize>)
    requires
        r.valid(r.szero()),
        r.valid(r.sone()),
    ensures
        r.valid(fact_product(r, ks)),
    decreases ks.len(),
{
    if ks.len() > 0 {
        lemma_fact_product_valid(r, ks.drop_last());
        lemma_fact_elem_valid(r, ks.last() as nat);
        r.lemma_closed(fact_product(r, ks.drop_last()), fact_elem(r, ks.last() as nat));
    }
}

/// `(x y) z = (x z) y` in a field.
proof fn lemma_swap<F: Field>(f: F, x: F::Value, y: F::Value, z: F::Value)
    requires
        f.valid(x),
        f.valid(y),
        f.valid(z),
    ensures
        f.smul(f.smul(x, y), z) == f.smul(f.smul(x, z), y),
{
    f.lemma_mul_assoc(x, y, z);
    f.lemma_mul_comm(y, z);
    f.lemma_mul_assoc(x, z, y);
}

/// If `y z = 1` then `(x z) y = x`.
proof fn lemma_cancel<F: Field>(f: F, x: F::Value, y: F::Value, z: F::Value)
    requires
        f.valid(x),
        f.valid(y),
        f.valid(z),
        f.smul(y, z) == f.sone(),
    ensures
        f.smul(f.smul(x, z), y) == x,
{
    lemma_swap(f, x, z, y);
    f.lemma_mul_assoc(x, y, z);
    f.lemma_mul_one(x);
}

/// The table of factorials `0!, 1!, ..., n!` and their inverses in a field: `factorial(i)` is the
/// image of `i!` and `inv_factorial(i)` its inverse, for `i` in `[0, n]`.
pub struct Factorial<F: Field> {
    field: F,
    fact: Vec<F::Value>,
    inv_fact: Vec<F::Value>,
}

impl<F: Field> Factorial<F> where F::Value: Copy {
    /// The field.
    pub closed spec fn spec_field(self) -> F {
        self.field
    }

    /// The bound `n`.
    pub closed spec fn spec_n(self) -> nat {
        (self.fact@.len() - 1) as nat
    }

    /// The table holds `i!` and its inverse for `i` in `[0, n]`.
    pub closed spec fn wf(self) -> bool {
        &&& self.field.valid(self.field.szero())
        &&& self.field.valid(self.field.sone())
        &&& self.fact@.len() >= 1
        &&& self.inv_fact@.len() == self.fact@.len()
        &&& forall|i: int| 0 <= i < self.fact@.len() ==> #[trigger] self.fact@[i] == fact_elem(self.field, i as nat)
        &&& forall|i: int| 0 <= i < self.fact@.len() ==> self.field.valid(#[trigger] self.inv_fact@[i])
        &&& forall|i: int|
            0 <= i < self.fact@.len() ==> self.field.smul(#[trigger] self.fact@[i], self.inv_fact@[i])
                == self.field.sone()
    }

    /// The table for `i` in `[0, n]`, in the field `field`, where `n!` is invertible.
    pub fn new(field: F, n: usize) -> (t: Self)
        requires
            field.valid(field.szero()),
            field.valid(field.sone()),
            fact_elem(field, n as nat) != field.szero(),
            n < usize::MAX,
        ensures
            t.wf(),
            t.spec_field() == field,
            t.spec_n() == n,
    {
        let one = field.one();
        let mut fact: Vec<F::Value> = Vec::with_capacity(n + 1);
        fact.push(one);
        let mut t = field.one();
        let mut x = field.one();
        proof {
            field.lemma_add_zero(field.sone());
            lemma_nat_elem_valid(field, 1);
            assert(nat_elem(field, 1) == field.sadd(nat_elem(field, 0), field.sone()));
        }
        let mut k: usize = 1;
        while k <= n
            invariant
                1 <= k <= n + 1,
                n < usize::MAX,
                field.valid(field.szero()),
                field.valid(field.sone()),
                one == field.sone(),
                field.valid(one),
                fact@.len() == k,
                forall|i: int| 0 <= i < k ==> #[trigger] fact@[i] == fact_elem(field, i as nat),
                x == fact_elem(field, (k - 1) as nat),
                t == nat_elem(field, k as nat),
            decreases n + 1 - k,
        {
            proof {
                lemma_fact_elem_valid(field, (k - 1) as nat);
                lemma_nat_elem_valid(field, k as nat);
            }
            x = field.mul(&x, &t);
            fact.push(x);
            t = field.add(&t, &one);
            k = k + 1;
        }
        proof {
            lemma_fact_elem_valid(field, n as nat);
        }
        x = field.inv(&x);
        let mut inv_fact: Vec<F::Value> = Vec::with_capacity(n + 1);
        let mut i: usize = 0;
        while i <= n
            invariant
                i <= n + 1,
                n < usize::MAX,
                inv_fact@.len() == i,
                field.valid(x),
                forall|j: int| 0 <= j < i ==> #[trigger] inv_fact@[j] == x,
            decreases n + 1 - i,
        {
            inv_fact.push(x);
            i = i + 1;
        }
        let minus_one = field.neg(&one);
        let mut k: usize = n;
        proof {
            field.lemma_mul_comm(fact_elem(field, n as nat), x);
        }
        while k > 0
            invariant
                k <= n,
                n < usize::MAX,
                field.valid(field.szero()),
                field.valid(field.sone()),
                one == field.sone(),
                minus_one == field.sneg(field.sone()),
                field.valid(one),
                field.valid(minus_one),
                fact@.len() == n + 1,
                inv_fact@.len() == n + 1,
                forall|i: int| 0 <= i <= n ==> #[trigger] fact@[i] == fact_elem(field, i as nat),
                forall|i: int| 0 <= i <= n ==> field.valid(#[trigger] inv_fact@[i]),
                x == inv_fact@[k as int],
                forall|i: int|
                    k <= i <= n ==> field.smul(#[trigger] fact@[i], inv_fact@[i]) == field.sone(),
                t == nat_elem(field, (k + 1) as nat),
            decreases k,
        {
            proof {
                lemma_nat_elem_valid(field, k as nat);
                lemma_nat_elem_valid(field, (k + 1) as nat);
                field.lemma_add_assoc(nat_elem(field, k as nat), field.sone(), field.sneg(field.sone()));
                field.lemma_add_neg(field.sone());
                field.lemma_add_zero(nat_elem(field, k as nat));
            }
            t = field.add(&t, &minus_one);
            x = field.mul(&x, &t);
            proof {
                let fk1 = fact_elem(field, (k - 1) as nat);
                lemma_fact_elem_valid(field, (k - 1) as nat);
                // (k-1)! (x_k t) = ((k-1)! t) x_k = k! x_k = 1
                assert(fact@[k as int] == fact_elem(field, k as nat));
                field.lemma_mul_assoc(fk1, inv_fact@[k as int], t);
                lemma_swap(field, fk1, inv_fact@[k as int], t);
            }
            k = k - 1;
            let ghost before = inv_fact@;
            inv_fact.set(k, x);
            proof {
                assert forall|i: int| k <= i <= n implies field.smul(#[trigger] fact@[i], inv_fact@[i]) == field.sone() by {
                    if i > k {
                        assert(inv_fact@[i] == before[i]);
                    }
                }
            }
        }
        Factorial { field, fact, inv_fact }
    }

    /// `i!`.
    pub fn factorial(&self, i: usize) -> (r: F::Value)
        requires
            self.wf(),
            i <= self.spec_n(),
        ensures
            r == fact_elem(self.spec_field(), i as nat),
    {
        self.fact[i]
    }

    /// `(i!)^{-1}`: `i! r = 1`.
    pub fn inv_factorial(&self, i: usize) -> (r: F::Value)
        requires
            self.wf(),
            i <= self.spec_n(),
        ensures
            self.spec_field().valid(r),
            self.spec_field().smul(fact_elem(self.spec_field(), i as nat), r) == self.spec_field().sone(),
    {
        proof {
            assert(self.fact@[i as int] == fact_elem(self.field, i as nat));
        }
        self.inv_fact[i]
    }

    /// `i^{-1}`, as `(i - 1)! (i!)^{-1}`: `i r = 1`.
    pub fn inv(&self, i: usize) -> (r: F::Value)
        requires
            self.wf(),
            1 <= i <= self.spec_n(),
        ensures
            self.spec_field().valid(r),
            self.spec_field().smul(nat_elem(self.spec_field(), i as nat), r) == self.spec_field().sone(),
    {
        let f = &self.field;
        proof {
            assert(self.fact@[i - 1] == fact_elem(self.field, (i - 1) as nat));
            assert(self.fact@[i as int] == fact_elem(self.field, i as nat));
            lemma_fact_elem_valid(*f, (i - 1) as nat);
        }
        let r = f.mul(&self.fact[i - 1], &self.inv_fact[i]);
        proof {
            let fi1 = fact_elem(*f, (i - 1) as nat);
            let ni = nat_elem(*f, i as nat);
            let y = self.inv_fact@[i as int];
            lemma_fact_elem_valid(*f, (i - 1) as nat);
            lemma_nat_elem_valid(*f, i as nat);
            // i ((i-1)! y) = ((i-1)! i) y = i! y = 1
            f.lemma_mul_assoc(ni, fi1, y);
            f.lemma_mul_comm(ni, fi1);
            f.lemma_closed(fi1, y);
        }
        r
    }

    /// The binomial coefficient `a! / (b! (a - b)!)` for `b <= a`, and `0` otherwise: then
    /// `r (a - b)! b! = a!`.
    pub fn binomial(&self, a: usize, b: usize) -> (r: F::Value)
        requires
            self.wf(),
            a <= self.spec_n(),
        ensures
            self.spec_field().valid(r),
            b > a ==> r == self.spec_field().szero(),
            b <= a ==> self.spec_field().smul(
                self.spec_field().smul(r, fact_elem(self.spec_field(), (a - b) as nat)),
                fact_elem(self.spec_field(), b as nat),
            ) == fact_elem(self.spec_field(), a as nat),
    {
        let f = &self.field;
        if b > a {
            f.zero()
        } else {
            proof {
                assert(self.fact@[a as int] == fact_elem(self.field, a as nat));
                assert(self.fact@[(a - b) as int] == fact_elem(self.field, (a - b) as nat));
                assert(self.fact@[b as int] == fact_elem(self.field, b as nat));
                lemma_fact_elem_valid(*f, a as nat);
            }
            let x = f.mul(&self.fact[a], &self.inv_fact[a - b]);
            let r = f.mul(&x, &self.inv_fact[b]);
            proof {
                let fa = fact_elem(*f, a as nat);
                let fab = fact_elem(*f, (a - b) as nat);
                let fb = fact_elem(*f, b as nat);
                lemma_fact_elem_valid(*f, a as nat);
                lemma_fact_elem_valid(*f, (a - b) as nat);
                lemma_fact_elem_valid(*f, b as nat);
                f.lemma_closed(fa, self.inv_fact@[(a - b) as int]);
                f.lemma_mul_comm(fb, self.inv_fact@[b as int]);
                f.lemma_mul_comm(fab, self.inv_fact@[(a - b) as int]);
                // ((x y_b) (a-b)!) b! = ((x (a-b)!) y_b) b!  and  x (a-b)! = a!
                lemma_swap(*f, x, self.inv_fact@[b as int], fab);
                lemma_cancel(*f, fa, fab, self.inv_fact@[(a - b) as int]);
                f.lemma_closed(x, fab);
                lemma_cancel(*f, fa, fb, self.inv_fact@[b as int]);
            }
            r
        }
    }

    /// The falling factorial `a (a - 1) ... (a - b + 1) = a! / (a - b)!` for `b <= a`, and `0`
    /// otherwise: then `r (a - b)! = a!`.
    pub fn falling_factorial(&self, a: usize, b: usize) -> (r: F::Value)
        requires
            self.wf(),
            a <= self.spec_n(),
        ensures
            self.spec_field().valid(r),
            b > a ==> r == self.spec_field().szero(),
            b <= a ==> self.spec_field().smul(r, fact_elem(self.spec_field(), (a - b) as nat))
                == fact_elem(self.spec_field(), a as nat),
    {
        let f = &self.field;
        if b > a {
            f.zero()
        } else {
            proof {
                assert(self.fact@[a as int] == fact_elem(self.field, a as nat));
                assert(self.fact@[(a - b) as int] == fact_elem(self.field, (a - b) as nat));
                lemma_fact_elem_valid(*f, a as nat);
            }
            let r = f.mul(&self.fact[a], &self.inv_fact[a - b]);
            proof {
                let fa = fact_elem(*f, a as nat);
                let fab = fact_elem(*f, (a - b) as nat);
                lemma_fact_elem_valid(*f, a as nat);
                lemma_fact_elem_valid(*f, (a - b) as nat);
                f.lemma_mul_comm(fab, self.inv_fact@[(a - b) as int]);
                lemma_cancel(*f, fa, fab, self.inv_fact@[(a - b) as int]);
            }
            r
        }
    }

    /// The multinomial coefficient `s! / (k_1! ... k_m!)` with `s = k_1 + ... + k_m`: then
    /// `r k_1! ... k_m! = s!`.
    pub fn multinomial(&self, ks: &[usize]) -> (r: F::Value)
        requires
            self.wf(),
            seq_sum(ks@) <= self.spec_n(),
        ensures
            self.spec_field().valid(r),
            self.spec_field().smul(r, fact_product(self.spec_field(), ks@)) == fact_elem(
                self.spec_field(),
                seq_sum(ks@),
            ),
    {
        let f = &self.field;
        let len = self.fact.len();
        let mut s: usize = 0;
        let mut i: usize = 0;
        while i < ks.len()
            invariant
                i <= ks@.len(),
                s == seq_sum(ks@.take(i as int)),
                seq_sum(ks@) <= self.spec_n(),
                len == self.fact@.len(),
                self.wf(),
            decreases ks@.len() - i,
        {
            proof {
                assert(ks@.take(i as int + 1).drop_last() =~= ks@.take(i as int));
                lemma_seq_sum_prefix(ks@, i as int + 1);
                lemma_seq_sum_take_le(ks@, i as int + 1);
            }
            s = s + ks[i];
            i = i + 1;
        }
        proof {
            assert(ks@.take(ks@.len() as int) =~= ks@);
        }
        let mut acc = self.fact[s];
        let mut i: usize = 0;
        proof {
            assert(self.fact@[s as int] == fact_elem(self.field, s as nat));
            lemma_fact_elem_valid(*f, s as nat);
            f.lemma_mul_one(acc);
            assert(fact_product(*f, ks@.take(0)) == f.sone());
        }
        while i < ks.len()
            invariant
                self.wf(),
                *f == self.field,
                i <= ks@.len(),
                s == seq_sum(ks@),
                s <= self.spec_n(),
                f.valid(acc),
                f.smul(acc, fact_product(*f, ks@.take(i as int))) == fact_elem(*f, s as nat),
            decreases ks@.len() - i,
        {
            let a = ks[i];
            proof {
                lemma_seq_sum_prefix(ks@, ks@.len() as int);
                lemma_seq_sum_le(ks@, i as int);
            }
            proof {
                assert(self.fact@[a as int] == fact_elem(self.field, a as nat));
            }
            let acc2 = f.mul(&acc, &self.inv_fact[a]);
            proof {
                let p = fact_product(*f, ks@.take(i as int));
                let fa = fact_elem(*f, a as nat);
                let y = self.inv_fact@[a as int];
                assert(ks@.take(i as int + 1).drop_last() =~= ks@.take(i as int));
                assert(fact_product(*f, ks@.take(i as int + 1)) == f.smul(p, fa));
                lemma_fact_product_valid(*f, ks@.take(i as int));
                lemma_fact_elem_valid(*f, a as nat);
                // (acc y) (p a!) = ((acc y) a!) p ... = acc p
                f.lemma_mul_assoc(acc2, p, fa);
                lemma_swap(*f, acc2, p, fa);
                f.lemma_closed(acc, y);
                f.lemma_closed(acc2, fa);
                f.lemma_mul_comm(fa, y);
                lemma_cancel(*f, acc, fa, y);
                f.lemma_mul_assoc(acc2, fa, p);
            }
            acc = acc2;
            i = i + 1;
        }
        proof {
            assert(ks@.take(ks@.len() as int) =~= ks@);
        }
        acc
    }
}

proof fn lemma_seq_sum_prefix(ks: Seq<usize>, i: int)
    requires
        0 < i <= ks.len(),
    ensures
        seq_sum(ks.take(i)) == seq_sum(ks.take(i - 1)) + ks[i - 1],
{
    assert(ks.take(i).drop_last() =~= ks.take(i - 1));
}

/// Each element is at most the sum.
proof fn lemma_seq_sum_le(ks: Seq<usize>, i: int)
    requires
        0 <= i < ks.len(),
    ensures
        ks[i] <= seq_sum(ks),
    decreases ks.len(),
{
    if i < ks.len() - 1 {
        lemma_seq_sum_le(ks.drop_last(), i);
    }
}

/// A prefix sums to at most the whole.
proof fn lemma_seq_sum_take_le(ks: Seq<usize>, i: int)
    requires
        0 <= i <= ks.len(),
    ensures
        seq_sum(ks.take(i)) <= seq_sum(ks),
    decreases ks.len(),
{
    if i < ks.len() {
        lemma_seq_sum_take_le(ks.drop_last(), i);
        assert(ks.drop_last().take(i) =~= ks.take(i));
    } else {
        assert(ks.take(i) =~= ks);
    }
}

} // verus!
