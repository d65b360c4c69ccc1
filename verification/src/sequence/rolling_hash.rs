//! Polynomial hashes of sequences and of their contiguous subsequences, over `Z/MZ` for a Mersenne
//! prime `M = 2^K - 1`.
use crate::algebra::{Monoid, Semigroup};
use crate::num::mersenne::{lemma_modulus_bounds, mersenne_exponent, mersenne_modulus, Mersenne};
use vstd::arithmetic::div_mod::*;
use vstd::arithmetic::mul::*;
use vstd::arithmetic::power::*;
use vstd::prelude::*;
use vstd::std_specs::convert::IntoSpec;

verus! {

/// The polynomial hash `(t[0] b^(n-1) + ... + t[n-1]) mod m` of `t`, by Horner's rule.
pub open spec fn poly_hash(t: Seq<int>, b: int, m: int) -> int
    decreases t.len(),
{
    if t.len() == 0 {
        0
    } else {
        (poly_hash(t.drop_last(), b, m) * b + t.last()) % m
    }
}

/// A hash is a residue: `0 <= H(t) < m`.
pub proof fn lemma_poly_hash_bound(t: Seq<int>, b: int, m: int)
    requires
        m > 0,
    ensures
        0 <= poly_hash(t, b, m) < m,
{
    if t.len() > 0 {
        lemma_mod_bound(poly_hash(t.drop_last(), b, m) * b + t.last(), m);
    }
}

/// The hash of a concatenation: `H(t u) = (H(t) b^|u| + H(u)) mod m`.
pub proof fn lemma_poly_hash_concat(t: Seq<int>, u: Seq<int>, b: int, m: int)
    requires
        m > 0,
    ensures
        poly_hash(t + u, b, m) == (poly_hash(t, b, m) * pow(b, u.len()) + poly_hash(u, b, m)) % m,
    decreases u.len(),
{
    let ht = poly_hash(t, b, m);
    lemma_poly_hash_bound(t, b, m);
    if u.len() == 0 {
        assert(t + u =~= t);
        lemma_pow0(b);
        lemma_small_mod(ht as nat, m as nat);
    } else {
        let u1 = u.drop_last();
        let c = u.last();
        assert((t + u).drop_last() =~= t + u1);
        assert((t + u).last() == c);
        lemma_poly_hash_concat(t, u1, b, m);
        let k = u1.len();
        let hu1 = poly_hash(u1, b, m);
        let x = ht * pow(b, k) + hu1;
        // H(t u) = ((x mod m) b + c) mod m = (x b + c) mod m
        lemma_mul_mod_noop_left(x, b, m);
        lemma_add_mod_noop(x * b, c, m);
        lemma_add_mod_noop((x % m) * b, c, m);
        lemma_mod_twice(x * b, m);
        lemma_mod_twice((x % m) * b, m);
        assert(poly_hash(t + u, b, m) == (x * b + c) % m);
        // x b + c = ht b^(k+1) + (hu1 b + c)
        lemma_pow_adds(b, k, 1);
        lemma_pow1(b);
        lemma_mul_is_distributive_add_other_way(b, ht * pow(b, k), hu1);
        lemma_mul_is_associative(ht, pow(b, k), b);
        assert(x * b + c == ht * pow(b, u.len()) + (hu1 * b + c));
        lemma_add_mod_noop_right(ht * pow(b, u.len()), hu1 * b + c, m);
    }
}

/// A polynomial hash of a sequence with its length and base: for a base `b` in `Z/MZ` with
/// `M = 2^K - 1`, the hash of a sequence `t` of length `m` is
/// `H(t) = t[0] b^(m-1) + t[1] b^(m-2) + ... + t[m-1]`, with each `t[i]` read in `Z/MZ`. Two
/// hashes are equal iff their values, lengths and bases are.
#[derive(Clone, Copy, PartialEq, Eq, Hash, Debug)]
pub struct SequenceHash<const K: u32> {
    value: Mersenne<K>,
    base: Mersenne<K>,
    len: usize,
}

impl<const K: u32> SequenceHash<K> {
    /// The value `H(t)`.
    pub closed spec fn spec_value(self) -> Mersenne<K> {
        self.value
    }

    /// The base `b`.
    pub closed spec fn spec_base(self) -> Mersenne<K> {
        self.base
    }

    /// The length `m` of `t`.
    pub closed spec fn spec_len(self) -> nat {
        self.len as nat
    }

    /// The hash with the given value, base and length, as a mathematical value.
    pub closed spec fn from_parts(value: Mersenne<K>, base: Mersenne<K>, len: nat) -> Self {
        SequenceHash { value, base, len: len as usize }
    }

    /// The parts of a hash determine it.
    pub proof fn lemma_from_parts(value: Mersenne<K>, base: Mersenne<K>, len: nat)
        requires
            len <= usize::MAX,
        ensures
            Self::from_parts(value, base, len).spec_value() == value,
            Self::from_parts(value, base, len).spec_base() == base,
            Self::from_parts(value, base, len).spec_len() == len,
    {
    }

    /// Two hashes are equal iff their values, bases and lengths are.
    pub proof fn lemma_eq(a: Self, b: Self)
        ensures
            (a == b) <==> (a.spec_value() == b.spec_value() && a.spec_base() == b.spec_base()
                && a.spec_len() == b.spec_len()),
    {
    }

    /// `self` is the hash of `t` with the base `b`.
    pub open spec fn is_hash_of(self, t: Seq<int>, b: Mersenne<K>) -> bool {
        &&& self.spec_value()@ == poly_hash(t, b@ as int, mersenne_modulus(K as nat) as int)
        &&& self.spec_base() == b
        &&& self.spec_len() == t.len()
    }

    /// The value `H(t)`.
    pub fn value(self) -> (v: Mersenne<K>)
        ensures
            v == self.spec_value(),
    {
        self.value
    }

    /// The length `m` of `t`.
    pub fn len(self) -> (n: usize)
        ensures
            n == self.spec_len(),
    {
        self.len
    }

    /// Whether `m = 0`.
    pub fn is_empty(self) -> (b: bool)
        ensures
            b == (self.spec_len() == 0),
    {
        self.len == 0
    }
}

/// The value of the hash of a concatenation, `(x b^|u| + y) mod M` for `x = H(t)` and `y = H(u)`.
pub open spec fn concat_value<const K: u32>(x: SequenceHash<K>, y: SequenceHash<K>) -> nat {
    let m = mersenne_modulus(K as nat) as int;
    ((x.spec_value()@ * (pow(x.spec_base()@ as int, y.spec_len()) % m) + y.spec_value()@) % m) as nat
}

/// The hash `H(t u)` of the concatenation, for `x = H(t)` and `y = H(u)` with the same base.
pub fn sequence_concat<const K: u32>(x: SequenceHash<K>, y: SequenceHash<K>) -> (z: SequenceHash<
    K,
>)
    requires
        x.spec_base() == y.spec_base(),
        x.spec_len() + y.spec_len() <= usize::MAX,
    ensures
        z.spec_value()@ == concat_value(x, y),
        z.spec_base() == x.spec_base(),
        z.spec_len() == x.spec_len() + y.spec_len(),
{
    let p = x.base.pow(y.len as u64);
    let xp = x.value.mul(p);
    let v = xp.add(y.value);
    y.value.val();
    proof {
        let m = mersenne_modulus(K as nat) as int;
        lemma_modulus_bounds(K as nat);
        lemma_add_mod_noop((x.spec_value()@ * p@) as int, y.spec_value()@ as int, m);
        lemma_small_mod(y.spec_value()@, m as nat);
    }
    SequenceHash { value: v, base: x.base, len: x.len + y.len }
}

/// The hash of a concatenation is the concatenation of the hashes: if `x = H(t)` and `y = H(u)`
/// with the base `b`, then `concat(x, y) = H(t u)`.
pub proof fn lemma_concat_hash<const K: u32>(
    x: SequenceHash<K>,
    y: SequenceHash<K>,
    t: Seq<int>,
    u: Seq<int>,
    b: Mersenne<K>,
)
    requires
        mersenne_exponent(K as nat),
        x.is_hash_of(t, b),
        y.is_hash_of(u, b),
    ensures
        concat_value(x, y) == poly_hash(t + u, b@ as int, mersenne_modulus(K as nat) as int),
{
    let m = mersenne_modulus(K as nat) as int;
    lemma_modulus_bounds(K as nat);
    let e = pow(b@ as int, u.len());
    lemma_mul_mod_noop_right(x.spec_value()@ as int, e, m);
    lemma_add_mod_noop(x.spec_value()@ * e, y.spec_value()@ as int, m);
    lemma_add_mod_noop(x.spec_value()@ * (e % m), y.spec_value()@ as int, m);
    lemma_poly_hash_concat(t, u, b@ as int, m);
}

/// The monoid of sequence hashes with the base `self.0` under [`sequence_concat`]: `op(x, y)` is
/// `concat(x, y)`, and `id()` is the hash of the empty sequence with the base `self.0`.
#[derive(Clone, Copy)]
pub struct Concat<const K: u32>(pub Mersenne<K>);

impl<const K: u32> Semigroup for Concat<K> {
    type Value = SequenceHash<K>;

    open spec fn valid(&self, a: SequenceHash<K>) -> bool {
        &&& mersenne_exponent(K as nat)
        &&& a.spec_base() == self.0
        &&& a.spec_value()@ < mersenne_modulus(K as nat)
        &&& a.spec_base()@ < mersenne_modulus(K as nat)
    }

    open spec fn defined(&self, a: SequenceHash<K>, b: SequenceHash<K>) -> bool {
        a.spec_len() + b.spec_len() <= usize::MAX
    }

    open spec fn sop(&self, a: SequenceHash<K>, b: SequenceHash<K>) -> SequenceHash<K> {
        SequenceHash::from_parts(
            Mersenne::from_residue(concat_value(a, b)),
            a.spec_base(),
            a.spec_len() + b.spec_len(),
        )
    }

    fn op(&self, a: &SequenceHash<K>, b: &SequenceHash<K>) -> (r: SequenceHash<K>) {
        let r = sequence_concat(*a, *b);
        proof {
            Mersenne::<K>::lemma_view_eq(r.spec_value(), Mersenne::from_residue(concat_value(*a, *b)));
            lemma_modulus_bounds(K as nat);
            Mersenne::<K>::lemma_residue(concat_value(*a, *b));
            SequenceHash::<K>::lemma_eq(r, self.sop(*a, *b));
        }
        r
    }

    proof fn lemma_op_closed(&self, a: SequenceHash<K>, b: SequenceHash<K>) {
        lemma_modulus_bounds(K as nat);
        let m = mersenne_modulus(K as nat) as int;
        lemma_mod_bound(
            a.spec_value()@ * (pow(a.spec_base()@ as int, b.spec_len()) % m) + b.spec_value()@,
            m,
        );
        Mersenne::<K>::lemma_residue(concat_value(a, b));
        SequenceHash::<K>::lemma_from_parts(
            Mersenne::from_residue(concat_value(a, b)),
            a.spec_base(),
            ((a.spec_len() + b.spec_len()) as usize) as nat,
        );
    }

    proof fn lemma_op_assoc(&self, a: SequenceHash<K>, b: SequenceHash<K>, c: SequenceHash<K>) {
        lemma_modulus_bounds(K as nat);
        let m = mersenne_modulus(K as nat) as int;
        let ab = self.sop(a, b);
        let bc = self.sop(b, c);
        self.lemma_op_closed(a, b);
        self.lemma_op_closed(b, c);
        self.lemma_op_closed(ab, c);
        self.lemma_op_closed(a, bc);
        let (va, vb, vc) = (a.spec_value()@ as int, b.spec_value()@ as int, c.spec_value()@ as int);
        let beta = a.spec_base()@ as int;
        let p = pow(beta, b.spec_len());
        let q = pow(beta, c.spec_len());
        lemma_pow_adds(beta, b.spec_len(), c.spec_len());
        SequenceHash::<K>::lemma_from_parts(
            Mersenne::from_residue(concat_value(a, b)),
            a.spec_base(),
            a.spec_len() + b.spec_len(),
        );
        SequenceHash::<K>::lemma_from_parts(
            Mersenne::from_residue(concat_value(b, c)),
            b.spec_base(),
            b.spec_len() + c.spec_len(),
        );
        let x = va * p + vb;
        lemma_mod_bound(va * (p % m) + vb, m);
        lemma_mod_bound(vb * (q % m) + vc, m);
        Mersenne::<K>::lemma_residue(concat_value(a, b));
        Mersenne::<K>::lemma_residue(concat_value(b, c));
        // (ab) c: ((x mod m) q + vc) mod m = (x q + vc) mod m
        lemma_mod_mul_add(va, p, vb, m);
        assert(ab.spec_value()@ == x % m);
        lemma_mod_mul_add(ab.spec_value()@ as int, q, vc, m);
        lemma_mod_mul_add_left(x, q, vc, m);
        // a (bc): (va (p q) + ((vb q + vc) mod m)) mod m = (va p q + vb q + vc) mod m
        lemma_mod_mul_add(vb, q, vc, m);
        assert(bc.spec_value()@ == (vb * q + vc) % m);
        lemma_mod_mul_add(va, p * q, bc.spec_value()@ as int, m);
        lemma_add_mod_noop_right(va * (p * q), vb * q + vc, m);
        assert(x * q + vc == va * (p * q) + (vb * q + vc)) by (nonlinear_arith)
            requires
                x == va * p + vb,
        ;
        let abc = self.sop(ab, c);
        let a_bc = self.sop(a, bc);
        SequenceHash::<K>::lemma_from_parts(
            Mersenne::from_residue(concat_value(ab, c)),
            ab.spec_base(),
            ab.spec_len() + c.spec_len(),
        );
        SequenceHash::<K>::lemma_from_parts(
            Mersenne::from_residue(concat_value(a, bc)),
            a.spec_base(),
            a.spec_len() + bc.spec_len(),
        );
        SequenceHash::<K>::lemma_eq(abc, a_bc);
    }
}

impl<const K: u32> Monoid for Concat<K> {
    open spec fn sid(&self) -> SequenceHash<K> {
        SequenceHash::from_parts(Mersenne::from_residue(0), self.0, 0)
    }

    fn id(&self) -> (r: SequenceHash<K>) {
        self.0.val();
        proof {
            lemma_modulus_bounds(K as nat);
            lemma_small_mod(0, mersenne_modulus(K as nat));
            Mersenne::<K>::lemma_residue(0);
        }
        let r = SequenceHash { value: Mersenne::new(0), base: self.0, len: 0 };
        proof {
            Mersenne::<K>::lemma_view_eq(r.value, Mersenne::from_residue(0));
            SequenceHash::<K>::lemma_eq(r, self.sid());
        }
        r
    }

    proof fn lemma_op_id(&self, a: SequenceHash<K>) {
        lemma_modulus_bounds(K as nat);
        let m = mersenne_modulus(K as nat) as int;
        let e = self.sid();
        let va = a.spec_value()@;
        Mersenne::<K>::lemma_residue(0);
        Mersenne::<K>::lemma_residue(va);
        SequenceHash::<K>::lemma_from_parts(Mersenne::from_residue(0), self.0, 0);
        lemma_pow0(a.spec_base()@ as int);
        lemma_small_mod(1, m as nat);
        lemma_small_mod(va, m as nat);
        lemma_mul_basics(va as int);
        lemma_mul_basics(pow(e.spec_base()@ as int, a.spec_len()) % m);
        SequenceHash::<K>::lemma_from_parts(Mersenne::from_residue(va), self.0, a.spec_len());
        Mersenne::<K>::lemma_view_eq(Mersenne::from_residue(va), a.spec_value());
        SequenceHash::<K>::lemma_eq(self.sop(e, a), a);
        SequenceHash::<K>::lemma_eq(self.sop(a, e), a);
    }
}

/// `(x (y mod m) + c) mod m = (x y + c) mod m`.
proof fn lemma_mod_mul_add(x: int, y: int, c: int, m: int)
    requires
        m > 0,
    ensures
        (x * (y % m) + c) % m == (x * y + c) % m,
{
    lemma_add_mod_noop(x * (y % m), c, m);
    lemma_add_mod_noop(x * y, c, m);
    lemma_mul_mod_noop_right(x, y, m);
}

/// `((x mod m) y + c) mod m = (x y + c) mod m`.
proof fn lemma_mod_mul_add_left(x: int, y: int, c: int, m: int)
    requires
        m > 0,
    ensures
        ((x % m) * y + c) % m == (x * y + c) % m,
{
    lemma_add_mod_noop((x % m) * y, c, m);
    lemma_add_mod_noop(x * y, c, m);
    lemma_mul_mod_noop_left(x, y, m);
}

/// The values of `s` as integers.
pub open spec fn as_ints(s: Seq<u64>) -> Seq<int> {
    Seq::new(s.len(), |i: int| s[i] as int)
}

/// The hashes of the contiguous subsequences of a sequence `s` of length `n` with a base `b`: gives
/// `H(s[l..r))` for `0 <= l <= r <= n`, with each `s[i]` read in `Z/MZ` through `u64`.
pub struct RollingHash<const K: u32> {
    prefix: Vec<Mersenne<K>>,
    power: Vec<Mersenne<K>>,
    base: Mersenne<K>,
    vals: Ghost<Seq<u64>>,
}

impl<const K: u32> RollingHash<K> {
    #[verifier::type_invariant]
    spec fn wf(self) -> bool {
        let m = mersenne_modulus(K as nat) as int;
        &&& mersenne_exponent(K as nat)
        &&& self.prefix.len() == self.vals@.len() + 1
        &&& self.power.len() == self.vals@.len() + 1
        &&& forall|i: int|
            0 <= i <= self.vals@.len() ==> #[trigger] self.prefix@[i]@ == poly_hash(
                as_ints(self.vals@).take(i),
                self.base@ as int,
                m,
            )
        &&& forall|i: int|
            0 <= i <= self.vals@.len() ==> #[trigger] self.power@[i]@ == pow(self.base@ as int, i as nat)
                % m
    }

    /// The values of `s` as read through `u64`.
    pub closed spec fn spec_values(self) -> Seq<u64> {
        self.vals@
    }

    /// The base `b`.
    pub closed spec fn spec_base(self) -> Mersenne<K> {
        self.base
    }

    /// The rolling hash of `s` with the base `base`.
    pub fn from_slice<T: Copy + Into<u64>>(base: Mersenne<K>, s: &[T]) -> (r: Self)
        requires
            s@.len() < usize::MAX,
        ensures
            r.spec_base() == base,
            r.spec_values().len() == s@.len(),
            forall|i: int|
                0 <= i < s@.len() ==> (T::obeys_into_spec() ==> r.spec_values()[i]
                    == #[trigger] s@[i].into_spec()),
    {
        let n = s.len();
        base.val();
        let ghost m = mersenne_modulus(K as nat) as int;
        proof {
            lemma_modulus_bounds(K as nat);
        }
        let mut prefix: Vec<Mersenne<K>> = Vec::with_capacity(n + 1);
        let mut power: Vec<Mersenne<K>> = Vec::with_capacity(n + 1);
        let ghost mut vals: Seq<u64> = Seq::empty();
        prefix.push(Mersenne::new(0));
        power.push(Mersenne::new(1));
        proof {
            lemma_small_mod(0, m as nat);
            lemma_small_mod(1, m as nat);
            lemma_pow0(base@ as int);
            assert(as_ints(vals).take(0) =~= Seq::<int>::empty());
        }
        let mut i: usize = 0;
        while i < n
            invariant
                i <= n,
                n == s@.len(),
                mersenne_exponent(K as nat),
                m == mersenne_modulus(K as nat) as int,
                m >= 3,
                vals.len() == i,
                prefix.len() == i + 1,
                power.len() == i + 1,
                forall|j: int|
                    0 <= j < i ==> (T::obeys_into_spec() ==> vals[j] == #[trigger] s@[j].into_spec()),
                forall|j: int|
                    0 <= j <= i ==> #[trigger] prefix@[j]@ == poly_hash(
                        as_ints(vals).take(j),
                        base@ as int,
                        m,
                    ),
                forall|j: int|
                    0 <= j <= i ==> #[trigger] power@[j]@ == pow(base@ as int, j as nat) % m,
            decreases n - i,
        {
            let c: u64 = s[i].into();
            let h = prefix[i].mul(base).add(Mersenne::new(c));
            let q = power[i].mul(base);
            let ghost old_vals = vals;
            proof {
                let b = base@ as int;
                vals = vals.push(c);
                assert(as_ints(vals).take(i as int) =~= as_ints(old_vals).take(i as int));
                assert(as_ints(vals).take(i as int + 1).drop_last() =~= as_ints(vals).take(i as int));
                let ph = prefix@[i as int]@ as int;
                lemma_mul_mod_noop_left(ph * b, 1, m);
                lemma_add_mod_noop(ph * b, c as int, m);
                lemma_mod_twice(ph * b, m);
                lemma_mul_mod_noop_left(pow(b, i as nat), b, m);
                lemma_pow_adds(b, i as nat, 1);
                lemma_pow1(b);
                assert(as_ints(vals).take(i as int + 1).last() == c as int);
                assert(h@ == poly_hash(as_ints(vals).take(i as int + 1), b, m));
            }
            prefix.push(h);
            power.push(q);
            i = i + 1;
            proof {
                assert forall|j: int| 0 <= j <= i implies #[trigger] prefix@[j]@ == poly_hash(
                    as_ints(vals).take(j),
                    base@ as int,
                    m,
                ) by {
                    if j < i {
                        assert(as_ints(vals).take(j) =~= as_ints(old_vals).take(j));
                    }
                }
            }
        }
        proof {
            assert(vals.len() == n);
        }
        RollingHash { prefix, power, base, vals: Ghost(vals) }
    }

    /// The hash `H(s[l..r))` of `range = [l, r)`.
    pub fn hash(&self, range: std::ops::Range<usize>) -> (h: SequenceHash<K>)
        requires
            range.start <= range.end <= self.spec_values().len(),
        ensures
            h.is_hash_of(
                as_ints(self.spec_values()).subrange(range.start as int, range.end as int),
                self.spec_base(),
            ),
    {
        proof {
            use_type_invariant(self);
            lemma_modulus_bounds(K as nat);
        }
        let l = range.start;
        let r = range.end;
        let ghost m = mersenne_modulus(K as nat) as int;
        let ghost b = self.base@ as int;
        let ghost s = as_ints(self.vals@);
        let ghost t = s.take(l as int);
        let ghost u = s.subrange(l as int, r as int);
        let v = self.prefix[r].sub(self.prefix[l].mul(self.power[r - l]));
        proof {
            assert(s.take(r as int) =~= t + u);
            lemma_poly_hash_concat(t, u, b, m);
            lemma_poly_hash_bound(u, b, m);
            let x = poly_hash(t, b, m) * pow(b, u.len());
            lemma_mul_mod_noop_right(poly_hash(t, b, m), pow(b, u.len()), m);
            lemma_sub_mod_noop(x + poly_hash(u, b, m), x, m);
            lemma_small_mod(poly_hash(u, b, m) as nat, m as nat);
            lemma_mod_twice(x, m);
        }
        SequenceHash { value: v, base: self.base, len: r - l }
    }

    /// The length `n` of `s`.
    pub fn len(&self) -> (n: usize)
        ensures
            n == self.spec_values().len(),
    {
        proof {
            use_type_invariant(self);
        }
        self.prefix.len() - 1
    }

    /// Whether `n = 0`.
    pub fn is_empty(&self) -> (b: bool)
        ensures
            b == (self.spec_values().len() == 0),
    {
        proof {
            use_type_invariant(self);
        }
        self.prefix.len() == 1
    }
}

} // verus!
