//! Algebraic structures given by a value that carries the operations, with their mathematical
//! meaning as spec functions and their laws as proof obligations of each implementation.
use vstd::prelude::*;

verus! {

/// A set with an associative binary operation, which may be defined on only some pairs of values
/// (where its result would not be representable).
pub trait Semigroup {
    type Value;

    /// The values that stand for elements of the structure.
    spec fn valid(&self, a: Self::Value) -> bool;

    /// Whether the operation is defined on `a` and `b`.
    spec fn defined(&self, a: Self::Value, b: Self::Value) -> bool;

    /// The operation, as a mathematical function.
    spec fn sop(&self, a: Self::Value, b: Self::Value) -> Self::Value;

    /// The operation.
    fn op(&self, a: &Self::Value, b: &Self::Value) -> (r: Self::Value)
        requires
            self.valid(*a),
            self.valid(*b),
            self.defined(*a, *b),
        ensures
            r == self.sop(*a, *b),
            self.valid(r),
    ;

    /// The operation on valid values is valid.
    proof fn lemma_op_closed(&self, a: Self::Value, b: Self::Value)
        requires
            self.valid(a),
            self.valid(b),
        ensures
            self.valid(self.sop(a, b)),
    ;

    /// `op` is associative.
    proof fn lemma_op_assoc(&self, a: Self::Value, b: Self::Value, c: Self::Value)
        requires
            self.valid(a),
            self.valid(b),
            self.valid(c),
            self.defined(a, b),
            self.defined(self.sop(a, b), c),
            self.defined(b, c),
            self.defined(a, self.sop(b, c)),
        ensures
            self.sop(self.sop(a, b), c) == self.sop(a, self.sop(b, c)),
    ;
}

/// A semigroup with an identity element.
pub trait Monoid: Semigroup {
    /// The identity, as a mathematical value.
    spec fn sid(&self) -> Self::Value;

    /// The identity.
    fn id(&self) -> (r: Self::Value)
        ensures
            r == self.sid(),
            self.valid(r),
    ;

    /// `id` is a two-sided identity.
    proof fn lemma_op_id(&self, a: Self::Value)
        requires
            self.valid(a),
        ensures
            self.defined(self.sid(), a),
            self.defined(a, self.sid()),
            self.sop(self.sid(), a) == a,
            self.sop(a, self.sid()) == a,
    ;
}

/// A set with addition and multiplication: `(add, zero)` is a commutative monoid, `(mul, one)` a
/// monoid, multiplication distributes over addition and `zero` annihilates.
pub trait Semiring: Sized {
    type Value;

    /// The values that stand for elements of the semiring.
    spec fn valid(&self, a: Self::Value) -> bool;

    spec fn szero(&self) -> Self::Value;

    spec fn sone(&self) -> Self::Value;

    spec fn sadd(&self, a: Self::Value, b: Self::Value) -> Self::Value;

    spec fn smul(&self, a: Self::Value, b: Self::Value) -> Self::Value;

    fn zero(&self) -> (r: Self::Value)
        ensures
            r == self.szero(),
            self.valid(r),
    ;

    fn one(&self) -> (r: Self::Value)
        ensures
            r == self.sone(),
            self.valid(r),
    ;

    fn add(&self, a: &Self::Value, b: &Self::Value) -> (r: Self::Value)
        requires
            self.valid(*a),
            self.valid(*b),
        ensures
            r == self.sadd(*a, *b),
            self.valid(r),
    ;

    fn mul(&self, a: &Self::Value, b: &Self::Value) -> (r: Self::Value)
        requires
            self.valid(*a),
            self.valid(*b),
        ensures
            r == self.smul(*a, *b),
            self.valid(r),
    ;

    /// The results of the operations on valid values are valid.
    proof fn lemma_closed(&self, a: Self::Value, b: Self::Value)
        requires
            self.valid(a),
            self.valid(b),
        ensures
            self.valid(self.sadd(a, b)),
            self.valid(self.smul(a, b)),
            self.valid(self.szero()),
            self.valid(self.sone()),
    ;

    proof fn lemma_add_assoc(&self, a: Self::Value, b: Self::Value, c: Self::Value)
        requires
            self.valid(a),
            self.valid(b),
            self.valid(c),
        ensures
            self.sadd(self.sadd(a, b), c) == self.sadd(a, self.sadd(b, c)),
    ;

    proof fn lemma_add_comm(&self, a: Self::Value, b: Self::Value)
        requires
            self.valid(a),
            self.valid(b),
        ensures
            self.sadd(a, b) == self.sadd(b, a),
    ;

    proof fn lemma_add_zero(&self, a: Self::Value)
        requires
            self.valid(a),
        ensures
            self.sadd(a, self.szero()) == a,
            self.sadd(self.szero(), a) == a,
    ;

    proof fn lemma_mul_assoc(&self, a: Self::Value, b: Self::Value, c: Self::Value)
        requires
            self.valid(a),
            self.valid(b),
            self.valid(c),
        ensures
            self.smul(self.smul(a, b), c) == self.smul(a, self.smul(b, c)),
    ;

    proof fn lemma_mul_one(&self, a: Self::Value)
        requires
            self.valid(a),
        ensures
            self.smul(a, self.sone()) == a,
            self.smul(self.sone(), a) == a,
    ;

    proof fn lemma_mul_zero(&self, a: Self::Value)
        requires
            self.valid(a),
        ensures
            self.smul(a, self.szero()) == self.szero(),
            self.smul(self.szero(), a) == self.szero(),
    ;

    proof fn lemma_distrib(&self, a: Self::Value, b: Self::Value, c: Self::Value)
        requires
            self.valid(a),
            self.valid(b),
            self.valid(c),
        ensures
            self.smul(a, self.sadd(b, c)) == self.sadd(self.smul(a, b), self.smul(a, c)),
            self.smul(self.sadd(b, c), a) == self.sadd(self.smul(b, a), self.smul(c, a)),
    ;
}

/// A semiring with additive inverses.
pub trait Ring: Semiring {
    spec fn sneg(&self, a: Self::Value) -> Self::Value;

    fn neg(&self, a: &Self::Value) -> (r: Self::Value)
        requires
            self.valid(*a),
        ensures
            r == self.sneg(*a),
            self.valid(r),
    ;

    proof fn lemma_add_neg(&self, a: Self::Value)
        requires
            self.valid(a),
        ensures
            self.sadd(a, self.sneg(a)) == self.szero(),
            self.valid(self.sneg(a)),
    ;
}

/// A commutative ring in which every nonzero element is invertible.
pub trait Field: Ring {
    spec fn sinv(&self, a: Self::Value) -> Self::Value;

    fn inv(&self, a: &Self::Value) -> (r: Self::Value)
        requires
            self.valid(*a),
            *a != self.szero(),
        ensures
            r == self.sinv(*a),
            self.valid(r),
            self.smul(*a, r) == self.sone(),
    ;

    proof fn lemma_mul_comm(&self, a: Self::Value, b: Self::Value)
        requires
            self.valid(a),
            self.valid(b),
        ensures
            self.smul(a, b) == self.smul(b, a),
    ;

    /// The inverse of a nonzero value is valid, and its product with the value is one.
    proof fn lemma_inv(&self, a: Self::Value)
        requires
            self.valid(a),
            a != self.szero(),
        ensures
            self.valid(self.sinv(a)),
            self.smul(a, self.sinv(a)) == self.sone(),
    ;

    proof fn lemma_one_ne_zero(&self)
        requires
            self.valid(self.sone()),
        ensures
            self.sone() != self.szero(),
    ;
}

/// A field with chosen roots of unity.
pub trait RootOfUnity: Field {
    /// The chosen `n`-th root of unity, or `None` where the field offers none.
    spec fn sroot(&self, n: nat) -> Option<Self::Value>;

    /// The chosen `n`-th root of unity.
    fn root_of_unity(&self, n: usize) -> (r: Option<Self::Value>)
        ensures
            r == self.sroot(n as nat),
    ;

    /// A chosen root is a primitive `n`-th root of unity: valid, nonzero, its `n`-th power is one
    /// and no smaller positive power is; and `n` is nonzero in the field wherever a root is chosen.
    proof fn lemma_root(&self, n: nat)
        ensures
            self.sroot(n) matches Some(w) ==> self.valid(w) && w != self.szero() && spow(*self, w, n) == self.sone(),
            self.sroot(n) matches Some(w) ==> forall|k: nat| 1 <= k < n ==> #[trigger] spow(*self, w, k) != self.sone(),
            self.sroot(n) is Some ==> crate::num::factorial::nat_elem(*self, n) != self.szero(),
    ;
}

/// `a^k` by repeated multiplication, `a^0 = one`.
pub open spec fn spow<R: Semiring>(ring: R, a: R::Value, k: nat) -> R::Value
    decreases k,
{
    if k == 0 {
        ring.sone()
    } else {
        ring.smul(spow(ring, a, (k - 1) as nat), a)
    }
}

/// `(a + b) + (c + d) = (a + c) + (b + d)`.
pub proof fn lemma_add_swap<R: Semiring>(ring: R, a: R::Value, b: R::Value, c: R::Value, d: R::Value)
    requires
        ring.valid(a),
        ring.valid(b),
        ring.valid(c),
        ring.valid(d),
    ensures
        ring.sadd(ring.sadd(a, b), ring.sadd(c, d)) == ring.sadd(ring.sadd(a, c), ring.sadd(b, d)),
{
    ring.lemma_closed(a, b);
    ring.lemma_closed(c, d);
    ring.lemma_closed(b, d);
    ring.lemma_closed(a, c);
    ring.lemma_closed(b, c);
    ring.lemma_closed(c, b);
    ring.lemma_add_assoc(a, b, ring.sadd(c, d));
    ring.lemma_add_assoc(b, c, d);
    ring.lemma_add_comm(b, c);
    ring.lemma_add_assoc(c, b, d);
    ring.lemma_add_assoc(a, c, ring.sadd(b, d));
}

/// The negative of a sum is the sum of the negatives.
pub proof fn lemma_neg_add<R: Ring>(ring: R, x: R::Value, y: R::Value)
    requires
        ring.valid(x),
        ring.valid(y),
    ensures
        ring.sneg(ring.sadd(x, y)) == ring.sadd(ring.sneg(x), ring.sneg(y)),
{
    let xy = ring.sadd(x, y);
    ring.lemma_closed(x, y);
    ring.lemma_add_neg(x);
    ring.lemma_add_neg(y);
    ring.lemma_add_neg(xy);
    let u = ring.sneg(xy);
    let z = ring.sadd(ring.sneg(x), ring.sneg(y));
    ring.lemma_closed(ring.sneg(x), ring.sneg(y));
    lemma_add_swap(ring, x, y, ring.sneg(x), ring.sneg(y));
    ring.lemma_add_zero(ring.szero());
    assert(ring.sadd(xy, z) == ring.szero());
    ring.lemma_add_zero(z);
    ring.lemma_add_assoc(z, xy, u);
    ring.lemma_add_comm(z, xy);
    ring.lemma_add_zero(u);
    ring.lemma_closed(z, xy);
    ring.lemma_add_comm(ring.szero(), u);
}

/// The negative of the negative is the value itself.
pub proof fn lemma_neg_neg<R: Ring>(ring: R, x: R::Value)
    requires
        ring.valid(x),
    ensures
        ring.sneg(ring.sneg(x)) == x,
{
    let y = ring.sneg(x);
    ring.lemma_add_neg(x);
    ring.lemma_add_neg(y);
    let z = ring.sneg(y);
    ring.lemma_add_assoc(x, y, z);
    ring.lemma_add_zero(x);
    ring.lemma_add_zero(z);
}

/// A value whose sum with `a` is zero is the negative of `a`.
pub proof fn lemma_neg_unique<R: Ring>(ring: R, a: R::Value, z: R::Value)
    requires
        ring.valid(a),
        ring.valid(z),
        ring.sadd(a, z) == ring.szero(),
    ensures
        z == ring.sneg(a),
{
    ring.lemma_add_neg(a);
    ring.lemma_add_zero(z);
    ring.lemma_add_assoc(z, a, ring.sneg(a));
    ring.lemma_add_comm(z, a);
    ring.lemma_add_zero(ring.sneg(a));
}

/// A multiple of a negative is the negative of the multiple.
pub proof fn lemma_mul_neg<R: Ring>(ring: R, c: R::Value, y: R::Value)
    requires
        ring.valid(c),
        ring.valid(y),
    ensures
        ring.smul(c, ring.sneg(y)) == ring.sneg(ring.smul(c, y)),
{
    ring.lemma_add_neg(y);
    ring.lemma_distrib(c, y, ring.sneg(y));
    ring.lemma_closed(c, y);
    ring.lemma_closed(c, ring.sneg(y));
    ring.lemma_mul_zero(c);
    lemma_neg_unique(ring, ring.smul(c, y), ring.smul(c, ring.sneg(y)));
}

} // verus!

