//! Matrices over a semiring, stored row by row in a flat vector.
use crate::algebra::Semiring;
use vstd::arithmetic::div_mod::lemma_fundamental_div_mod_converse;
use vstd::prelude::*;

pub mod dyn_matrix;
pub mod matrix;

verus! {

/// Every value of `s` is valid in `ring`.
pub open spec fn all_valid<R: Semiring>(ring: R, s: Seq<R::Value>) -> bool {
    forall|x: int| 0 <= x < s.len() ==> ring.valid(#[trigger] s[x])
}

/// The entry `(i, j)` of a matrix with `l` columns stored row by row in `s`: `s[il + j]`.
pub open spec fn entry<T>(s: Seq<T>, l: int, i: int, j: int) -> T {
    s[i * l + j]
}

/// `f(0) + f(1) + ... + f(k - 1)`, added from the left starting from `zero`.
pub open spec fn fsum<R: Semiring>(ring: R, f: spec_fn(int) -> R::Value, k: int) -> R::Value
    decreases k,
{
    if k <= 0 {
        ring.szero()
    } else {
        ring.sadd(fsum(ring, f, k - 1), f(k - 1))
    }
}

/// The entry `(i, j)` of the product of the `n x m` matrix `a` and the `m x l` matrix `b`:
/// `Σ_k a_ik b_kj`.
pub open spec fn dot<R: Semiring>(ring: R, a: Seq<R::Value>, b: Seq<R::Value>, m: int, l: int, i: int, j: int) -> R::Value {
    fsum(ring, |k: int| ring.smul(entry(a, m, i, k), entry(b, l, k, j)), m)
}

/// The product of the `n x m` matrix `a` and the `m x l` matrix `b`, stored row by row.
pub open spec fn mat_mul<R: Semiring>(ring: R, n: int, m: int, l: int, a: Seq<R::Value>, b: Seq<R::Value>) -> Seq<R::Value> {
    Seq::new((n * l) as nat, |x: int| dot(ring, a, b, m, l, x / l, x % l))
}

/// The `n x n` identity matrix `(δ_ij)`.
pub open spec fn identity<R: Semiring>(ring: R, n: int) -> Seq<R::Value> {
    Seq::new((n * n) as nat, |x: int| if x / n == x % n { ring.sone() } else { ring.szero() })
}

/// The position `il + j` of the entry `(i, j)` of an `n x l` matrix lies in `[0, nl)`, and gives
/// back `i` and `j` by division by `l`.
pub proof fn lemma_index(i: int, j: int, n: int, l: int)
    requires
        0 <= i < n,
        0 <= j < l,
    ensures
        0 <= i * l + j < n * l,
        (i * l + j) / l == i,
        (i * l + j) % l == j,
{
    assert(0 <= i * l + j < n * l) by (nonlinear_arith)
        requires
            0 <= i < n,
            0 <= j < l,
    ;
    lemma_fundamental_div_mod_converse(i * l + j, l, i, j);
}

/// Every position of an `n x l` matrix is that of the entry `(x / l, x % l)`.
pub proof fn lemma_position(x: int, n: int, l: int)
    requires
        0 <= n,
        0 <= x < n * l,
    ensures
        0 <= x / l < n,
        0 <= x % l < l,
        x == (x / l) * l + x % l,
{
    assert(l > 0) by (nonlinear_arith)
        requires
            0 <= x < n * l,
            0 <= n,
    ;
    vstd::arithmetic::div_mod::lemma_fundamental_div_mod(x, l);
    vstd::arithmetic::div_mod::lemma_div_pos_is_pos(x, l);
    vstd::arithmetic::div_mod::lemma_mod_bound(x, l);
    assert(x / l < n && x == (x / l) * l + x % l) by (nonlinear_arith)
        requires
            x == l * (x / l) + x % l,
            0 <= x % l,
            x < n * l,
            l > 0,
    ;
}

/// The entries of the product are the sums of products.
pub proof fn lemma_mat_mul_entry<R: Semiring>(ring: R, n: int, m: int, l: int, a: Seq<R::Value>, b: Seq<R::Value>, i: int, j: int)
    requires
        0 <= i < n,
        0 <= j < l,
    ensures
        mat_mul(ring, n, m, l, a, b).len() == n * l,
        entry(mat_mul(ring, n, m, l, a, b), l, i, j) == dot(ring, a, b, m, l, i, j),
{
    lemma_index(i, j, n, l);
}

/// The entries of the identity matrix are `one` on the diagonal and `zero` elsewhere.
pub proof fn lemma_identity_entry<R: Semiring>(ring: R, n: int, i: int, j: int)
    requires
        0 <= i < n,
        0 <= j < n,
    ensures
        identity(ring, n).len() == n * n,
        entry(identity(ring, n), n, i, j) == if i == j { ring.sone() } else { ring.szero() },
{
    lemma_index(i, j, n, n);
}

/// A sum of valid values is valid.
pub proof fn lemma_fsum_valid<R: Semiring>(ring: R, f: spec_fn(int) -> R::Value, k: int)
    requires
        ring.valid(ring.szero()),
        forall|j: int| 0 <= j < k ==> ring.valid(#[trigger] f(j)),
    ensures
        ring.valid(fsum(ring, f, k)),
    decreases k,
{
    if k > 0 {
        lemma_fsum_valid(ring, f, k - 1);
        ring.lemma_closed(fsum(ring, f, k - 1), f(k - 1));
    }
}

/// Sums of functions that agree on `[0, k)` are equal.
pub proof fn lemma_fsum_ext<R: Semiring>(ring: R, f: spec_fn(int) -> R::Value, g: spec_fn(int) -> R::Value, k: int)
    requires
        forall|j: int| 0 <= j < k ==> #[trigger] f(j) == g(j),
    ensures
        fsum(ring, f, k) == fsum(ring, g, k),
    decreases k,
{
    if k > 0 {
        lemma_fsum_ext(ring, f, g, k - 1);
    }
}

/// `(a + x) + (b + y) = (a + b) + (x + y)`.
proof fn lemma_add_swap<R: Semiring>(ring: R, a: R::Value, x: R::Value, b: R::Value, y: R::Value)
    requires
        ring.valid(a),
        ring.valid(x),
        ring.valid(b),
        ring.valid(y),
    ensures
        ring.sadd(ring.sadd(a, x), ring.sadd(b, y)) == ring.sadd(ring.sadd(a, b), ring.sadd(x, y)),
{
    ring.lemma_closed(a, x);
    ring.lemma_closed(b, y);
    ring.lemma_closed(a, b);
    ring.lemma_closed(x, y);
    ring.lemma_closed(x, b);
    ring.lemma_closed(b, x);
    ring.lemma_add_assoc(a, x, ring.sadd(b, y));
    ring.lemma_add_assoc(x, b, y);
    ring.lemma_add_comm(x, b);
    ring.lemma_add_assoc(b, x, y);
    ring.lemma_add_assoc(a, b, ring.sadd(x, y));
}

/// The sum of two sums is the sum of the pointwise sums.
pub proof fn lemma_fsum_add<R: Semiring>(ring: R, f: spec_fn(int) -> R::Value, g: spec_fn(int) -> R::Value, k: int)
    requires
        ring.valid(ring.szero()),
        forall|j: int| 0 <= j < k ==> ring.valid(#[trigger] f(j)),
        forall|j: int| 0 <= j < k ==> ring.valid(#[trigger] g(j)),
    ensures
        ring.sadd(fsum(ring, f, k), fsum(ring, g, k)) == fsum(ring, |j: int| ring.sadd(f(j), g(j)), k),
    decreases k,
{
    let h = |j: int| ring.sadd(f(j), g(j));
    if k <= 0 {
        ring.lemma_add_zero(ring.szero());
    } else {
        lemma_fsum_add(ring, f, g, k - 1);
        lemma_fsum_valid(ring, f, k - 1);
        lemma_fsum_valid(ring, g, k - 1);
        lemma_add_swap(ring, fsum(ring, f, k - 1), f(k - 1), fsum(ring, g, k - 1), g(k - 1));
        assert(fsum(ring, h, k) == ring.sadd(fsum(ring, h, k - 1), h(k - 1)));
    }
}

/// Multiplying a sum on the right by `c` multiplies each term.
pub proof fn lemma_fsum_mul_right<R: Semiring>(ring: R, f: spec_fn(int) -> R::Value, c: R::Value, k: int)
    requires
        ring.valid(ring.szero()),
        ring.valid(c),
        forall|j: int| 0 <= j < k ==> ring.valid(#[trigger] f(j)),
    ensures
        ring.smul(fsum(ring, f, k), c) == fsum(ring, |j: int| ring.smul(f(j), c), k),
    decreases k,
{
    let h = |j: int| ring.smul(f(j), c);
    if k <= 0 {
        ring.lemma_mul_zero(c);
    } else {
        lemma_fsum_mul_right(ring, f, c, k - 1);
        lemma_fsum_valid(ring, f, k - 1);
        ring.lemma_distrib(c, fsum(ring, f, k - 1), f(k - 1));
        assert(fsum(ring, h, k) == ring.sadd(fsum(ring, h, k - 1), h(k - 1)));
    }
}

/// Multiplying a sum on the left by `c` multiplies each term.
pub proof fn lemma_fsum_mul_left<R: Semiring>(ring: R, c: R::Value, f: spec_fn(int) -> R::Value, k: int)
    requires
        ring.valid(ring.szero()),
        ring.valid(c),
        forall|j: int| 0 <= j < k ==> ring.valid(#[trigger] f(j)),
    ensures
        ring.smul(c, fsum(ring, f, k)) == fsum(ring, |j: int| ring.smul(c, f(j)), k),
    decreases k,
{
    let h = |j: int| ring.smul(c, f(j));
    if k <= 0 {
        ring.lemma_mul_zero(c);
    } else {
        lemma_fsum_mul_left(ring, c, f, k - 1);
        lemma_fsum_valid(ring, f, k - 1);
        ring.lemma_distrib(c, fsum(ring, f, k - 1), f(k - 1));
        assert(fsum(ring, h, k) == ring.sadd(fsum(ring, h, k - 1), h(k - 1)));
    }
}

/// The order of a double sum can be exchanged.
pub proof fn lemma_fsum_swap<R: Semiring>(ring: R, f: spec_fn(int, int) -> R::Value, m: int, p: int)
    requires
        ring.valid(ring.szero()),
        forall|j: int, k: int| 0 <= j < m && 0 <= k < p ==> ring.valid(#[trigger] f(j, k)),
    ensures
        fsum(ring, |k: int| fsum(ring, |j: int| f(j, k), m), p) == fsum(
            ring,
            |j: int| fsum(ring, |k: int| f(j, k), p),
            m,
        ),
    decreases p,
{
    if p <= 0 {
        let z = |j: int| fsum(ring, |k: int| f(j, k), p);
        assert forall|j: int| 0 <= j < m implies #[trigger] z(j) == ring.szero() by {}
        lemma_fsum_zero(ring, z, m);
    } else {
        lemma_fsum_swap(ring, f, m, p - 1);
        let inner = |j: int| fsum(ring, |k: int| f(j, k), p - 1);
        let last = |j: int| f(j, p - 1);
        assert forall|j: int| 0 <= j < m implies ring.valid(#[trigger] inner(j)) by {
            lemma_fsum_valid(ring, |k: int| f(j, k), p - 1);
        }
        lemma_fsum_add(ring, inner, last, m);
        let outer = |j: int| fsum(ring, |k: int| f(j, k), p);
        assert forall|j: int| 0 <= j < m implies #[trigger] outer(j) == ring.sadd(inner(j), last(j)) by {}
        lemma_fsum_ext(ring, outer, |j: int| ring.sadd(inner(j), last(j)), m);
        let lhs = |k: int| fsum(ring, |j: int| f(j, k), m);
        assert(fsum(ring, lhs, p) == ring.sadd(fsum(ring, lhs, p - 1), lhs(p - 1)));
        lemma_fsum_ext(ring, |j: int| f(j, p - 1), last, m);
    }
}

/// A sum of zeros is zero.
pub proof fn lemma_fsum_zero<R: Semiring>(ring: R, f: spec_fn(int) -> R::Value, k: int)
    requires
        ring.valid(ring.szero()),
        forall|j: int| 0 <= j < k ==> #[trigger] f(j) == ring.szero(),
    ensures
        fsum(ring, f, k) == ring.szero(),
    decreases k,
{
    if k > 0 {
        lemma_fsum_zero(ring, f, k - 1);
        ring.lemma_add_zero(ring.szero());
    }
}

/// A sum whose terms are zero but at `t` is the term at `t`.
pub proof fn lemma_fsum_single<R: Semiring>(ring: R, f: spec_fn(int) -> R::Value, k: int, t: int)
    requires
        ring.valid(ring.szero()),
        0 <= t < k,
        ring.valid(f(t)),
        forall|j: int| 0 <= j < k && j != t ==> #[trigger] f(j) == ring.szero(),
    ensures
        fsum(ring, f, k) == f(t),
    decreases k,
{
    if k - 1 == t {
        lemma_fsum_zero(ring, f, k - 1);
        ring.lemma_add_zero(f(t));
    } else {
        lemma_fsum_single(ring, f, k - 1, t);
        ring.lemma_add_zero(f(t));
    }
}

/// The product of a matrix of valid values by another is valid.
pub proof fn lemma_mat_mul_valid<R: Semiring>(ring: R, n: int, m: int, l: int, a: Seq<R::Value>, b: Seq<R::Value>)
    requires
        ring.valid(ring.szero()),
        0 <= n,
        0 <= m,
        0 <= l,
        a.len() == n * m,
        b.len() == m * l,
        all_valid(ring, a),
        all_valid(ring, b),
    ensures
        all_valid(ring, mat_mul(ring, n, m, l, a, b)),
        mat_mul(ring, n, m, l, a, b).len() == n * l,
{
    assert(n * l >= 0) by (nonlinear_arith)
        requires
            0 <= n,
            0 <= l,
    ;
    let c = mat_mul(ring, n, m, l, a, b);
    assert forall|x: int| 0 <= x < c.len() implies ring.valid(#[trigger] c[x]) by {
        lemma_position(x, n, l);
        let i = x / l;
        let j = x % l;
        let f = |k: int| ring.smul(entry(a, m, i, k), entry(b, l, k, j));
        assert forall|k: int| 0 <= k < m implies ring.valid(#[trigger] f(k)) by {
            lemma_index(i, k, n, m);
            lemma_index(k, j, m, l);
            ring.lemma_closed(entry(a, m, i, k), entry(b, l, k, j));
        }
        lemma_fsum_valid(ring, f, m);
    }
}

/// Matrix multiplication is associative: `(ab)c = a(bc)` for `a` of shape `n x m`, `b` of shape
/// `m x p` and `c` of shape `p x q`.
pub proof fn lemma_mat_mul_assoc<R: Semiring>(
    ring: R,
    n: int,
    m: int,
    p: int,
    q: int,
    a: Seq<R::Value>,
    b: Seq<R::Value>,
    c: Seq<R::Value>,
)
    requires
        ring.valid(ring.szero()),
        0 <= n,
        0 <= m,
        0 <= p,
        0 <= q,
        a.len() == n * m,
        b.len() == m * p,
        c.len() == p * q,
        all_valid(ring, a),
        all_valid(ring, b),
        all_valid(ring, c),
    ensures
        mat_mul(ring, n, p, q, mat_mul(ring, n, m, p, a, b), c) == mat_mul(
            ring,
            n,
            m,
            q,
            a,
            mat_mul(ring, m, p, q, b, c),
        ),
{
    let ab = mat_mul(ring, n, m, p, a, b);
    let bc = mat_mul(ring, m, p, q, b, c);
    let lhs = mat_mul(ring, n, p, q, ab, c);
    let rhs = mat_mul(ring, n, m, q, a, bc);
    lemma_mat_mul_valid(ring, n, m, p, a, b);
    lemma_mat_mul_valid(ring, m, p, q, b, c);
    assert forall|x: int| 0 <= x < lhs.len() implies #[trigger] lhs[x] == rhs[x] by {
        lemma_position(x, n, q);
        let i = x / q;
        let t = x % q;
        lemma_mat_mul_assoc_entry(ring, n, m, p, q, a, b, c, i, t);
    }
    assert(lhs =~= rhs);
}

/// One entry of `lemma_mat_mul_assoc`.
proof fn lemma_mat_mul_assoc_entry<R: Semiring>(
    ring: R,
    n: int,
    m: int,
    p: int,
    q: int,
    a: Seq<R::Value>,
    b: Seq<R::Value>,
    c: Seq<R::Value>,
    i: int,
    t: int,
)
    requires
        ring.valid(ring.szero()),
        0 <= i < n,
        0 <= m,
        0 <= p,
        0 <= t < q,
        a.len() == n * m,
        b.len() == m * p,
        c.len() == p * q,
        all_valid(ring, a),
        all_valid(ring, b),
        all_valid(ring, c),
        all_valid(ring, mat_mul(ring, n, m, p, a, b)),
        all_valid(ring, mat_mul(ring, m, p, q, b, c)),
    ensures
        dot(ring, mat_mul(ring, n, m, p, a, b), c, p, q, i, t) == dot(ring, a, mat_mul(ring, m, p, q, b, c), m, q, i, t),
{
    let ab = mat_mul(ring, n, m, p, a, b);
    let bc = mat_mul(ring, m, p, q, b, c);
    let f3 = |j: int, k: int| ring.smul(ring.smul(entry(a, m, i, j), entry(b, p, j, k)), entry(c, q, k, t));
    let g3 = |j: int, k: int| ring.smul(entry(a, m, i, j), ring.smul(entry(b, p, j, k), entry(c, q, k, t)));
    assert forall|j: int, k: int| 0 <= j < m && 0 <= k < p implies ring.valid(#[trigger] f3(j, k)) && f3(j, k) == g3(j, k) by {
        lemma_index(i, j, n, m);
        lemma_index(j, k, m, p);
        lemma_index(k, t, p, q);
        ring.lemma_closed(entry(a, m, i, j), entry(b, p, j, k));
        ring.lemma_closed(ring.smul(entry(a, m, i, j), entry(b, p, j, k)), entry(c, q, k, t));
        ring.lemma_mul_assoc(entry(a, m, i, j), entry(b, p, j, k), entry(c, q, k, t));
    }
    // The left side: Σ_k (Σ_j a_ij b_jk) c_kt = Σ_k Σ_j (a_ij b_jk) c_kt.
    let left = |k: int| ring.smul(entry(ab, p, i, k), entry(c, q, k, t));
    let left2 = |k: int| fsum(ring, |j: int| f3(j, k), m);
    assert forall|k: int| 0 <= k < p implies #[trigger] left(k) == left2(k) by {
        lemma_index(i, k, n, p);
        lemma_index(k, t, p, q);
        let terms = |j: int| ring.smul(entry(a, m, i, j), entry(b, p, j, k));
        assert forall|j: int| 0 <= j < m implies ring.valid(#[trigger] terms(j)) by {
            lemma_index(i, j, n, m);
            lemma_index(j, k, m, p);
            ring.lemma_closed(entry(a, m, i, j), entry(b, p, j, k));
        }
        lemma_fsum_mul_right(ring, terms, entry(c, q, k, t), m);
        lemma_fsum_ext(ring, |j: int| ring.smul(terms(j), entry(c, q, k, t)), |j: int| f3(j, k), m);
    }
    lemma_fsum_ext(ring, left, left2, p);
    lemma_fsum_swap(ring, f3, m, p);
    // The right side: Σ_j a_ij (Σ_k b_jk c_kt) = Σ_j Σ_k a_ij (b_jk c_kt).
    let right = |j: int| ring.smul(entry(a, m, i, j), entry(bc, q, j, t));
    let right2 = |j: int| fsum(ring, |k: int| g3(j, k), p);
    let mid = |j: int| fsum(ring, |k: int| f3(j, k), p);
    assert forall|j: int| 0 <= j < m implies #[trigger] mid(j) == right2(j) by {
        lemma_fsum_ext(ring, |k: int| f3(j, k), |k: int| g3(j, k), p);
    }
    assert forall|j: int| 0 <= j < m implies #[trigger] right(j) == right2(j) by {
        lemma_index(i, j, n, m);
        lemma_index(j, t, m, q);
        let terms = |k: int| ring.smul(entry(b, p, j, k), entry(c, q, k, t));
        assert forall|k: int| 0 <= k < p implies ring.valid(#[trigger] terms(k)) by {
            lemma_index(j, k, m, p);
            lemma_index(k, t, p, q);
            ring.lemma_closed(entry(b, p, j, k), entry(c, q, k, t));
        }
        lemma_fsum_mul_left(ring, entry(a, m, i, j), terms, p);
        lemma_fsum_ext(ring, |k: int| ring.smul(entry(a, m, i, j), terms(k)), |k: int| g3(j, k), p);
    }
    lemma_fsum_ext(ring, right, right2, m);
    lemma_fsum_ext(ring, mid, right2, m);
}

/// The identity matrix is a right identity: `a·E = a` for `a` of shape `n x m`.
pub proof fn lemma_mat_mul_identity<R: Semiring>(ring: R, n: int, m: int, a: Seq<R::Value>)
    requires
        ring.valid(ring.szero()),
        ring.valid(ring.sone()),
        0 <= n,
        0 <= m,
        a.len() == n * m,
        all_valid(ring, a),
    ensures
        mat_mul(ring, n, m, m, a, identity(ring, m)) == a,
{
    let e = identity(ring, m);
    let c = mat_mul(ring, n, m, m, a, e);
    assert(n * m >= 0) by (nonlinear_arith)
        requires
            0 <= n,
            0 <= m,
    ;
    assert forall|x: int| 0 <= x < c.len() implies #[trigger] c[x] == a[x] by {
        lemma_position(x, n, m);
        let i = x / m;
        let j = x % m;
        let f = |k: int| ring.smul(entry(a, m, i, k), entry(e, m, k, j));
        assert forall|k: int| 0 <= k < m && k != j implies #[trigger] f(k) == ring.szero() by {
            lemma_index(i, k, n, m);
            lemma_identity_entry(ring, m, k, j);
            ring.lemma_mul_zero(entry(a, m, i, k));
        }
        lemma_index(i, j, n, m);
        lemma_identity_entry(ring, m, j, j);
        ring.lemma_mul_one(entry(a, m, i, j));
        lemma_fsum_single(ring, f, m, j);
    }
    assert(c =~= a);
}

/// The entrywise sum of two matrices of the same shape.
pub open spec fn mat_add<R: Semiring>(ring: R, a: Seq<R::Value>, b: Seq<R::Value>) -> Seq<R::Value> {
    Seq::new(a.len(), |x: int| ring.sadd(a[x], b[x]))
}

/// The zero matrix with `len` entries.
pub open spec fn mat_zero<R: Semiring>(ring: R, len: nat) -> Seq<R::Value> {
    Seq::new(len, |x: int| ring.szero())
}

/// The entrywise addition of matrices is associative and commutative, with the zero matrix as
/// identity.
pub proof fn lemma_mat_add_laws<R: Semiring>(ring: R, a: Seq<R::Value>, b: Seq<R::Value>, c: Seq<R::Value>)
    requires
        ring.valid(ring.szero()),
        a.len() == b.len(),
        b.len() == c.len(),
        all_valid(ring, a),
        all_valid(ring, b),
        all_valid(ring, c),
    ensures
        mat_add(ring, mat_add(ring, a, b), c) == mat_add(ring, a, mat_add(ring, b, c)),
        mat_add(ring, a, b) == mat_add(ring, b, a),
        mat_add(ring, a, mat_zero(ring, a.len())) == a,
{
    assert forall|x: int| 0 <= x < a.len() implies #[trigger] mat_add(ring, mat_add(ring, a, b), c)[x] == mat_add(
        ring,
        a,
        mat_add(ring, b, c),
    )[x] by {
        ring.lemma_add_assoc(a[x], b[x], c[x]);
    }
    assert forall|x: int| 0 <= x < a.len() implies #[trigger] mat_add(ring, a, b)[x] == mat_add(ring, b, a)[x] by {
        ring.lemma_add_comm(a[x], b[x]);
    }
    assert forall|x: int| 0 <= x < a.len() implies #[trigger] mat_add(ring, a, mat_zero(ring, a.len()))[x] == a[x] by {
        ring.lemma_add_zero(a[x]);
    }
    assert(mat_add(ring, mat_add(ring, a, b), c) =~= mat_add(ring, a, mat_add(ring, b, c)));
    assert(mat_add(ring, a, b) =~= mat_add(ring, b, a));
    assert(mat_add(ring, a, mat_zero(ring, a.len())) =~= a);
}

/// The identity matrix is a left identity: `E·a = a` for `a` of shape `n x m`.
pub proof fn lemma_identity_mat_mul<R: Semiring>(ring: R, n: int, m: int, a: Seq<R::Value>)
    requires
        ring.valid(ring.szero()),
        ring.valid(ring.sone()),
        0 <= n,
        0 <= m,
        a.len() == n * m,
        all_valid(ring, a),
    ensures
        mat_mul(ring, n, n, m, identity(ring, n), a) == a,
{
    let e = identity(ring, n);
    let c = mat_mul(ring, n, n, m, e, a);
    assert(n * m >= 0) by (nonlinear_arith)
        requires
            0 <= n,
            0 <= m,
    ;
    assert forall|x: int| 0 <= x < c.len() implies #[trigger] c[x] == a[x] by {
        lemma_position(x, n, m);
        let i = x / m;
        let j = x % m;
        let f = |k: int| ring.smul(entry(e, n, i, k), entry(a, m, k, j));
        assert forall|k: int| 0 <= k < n && k != i implies #[trigger] f(k) == ring.szero() by {
            lemma_index(k, j, n, m);
            lemma_identity_entry(ring, n, i, k);
            ring.lemma_mul_zero(entry(a, m, k, j));
        }
        lemma_index(i, j, n, m);
        lemma_identity_entry(ring, n, i, i);
        ring.lemma_mul_one(entry(a, m, i, j));
        lemma_fsum_single(ring, f, n, i);
    }
    assert(c =~= a);
}

/// The zero matrix annihilates: `O·a = O` and `a·O = O`.
pub proof fn lemma_mat_mul_zero<R: Semiring>(ring: R, n: int, m: int, l: int, a: Seq<R::Value>, b: Seq<R::Value>)
    requires
        ring.valid(ring.szero()),
        0 <= n,
        0 <= m,
        0 <= l,
        a.len() == n * m,
        b.len() == m * l,
        all_valid(ring, a),
        all_valid(ring, b),
    ensures
        mat_mul(ring, n, m, l, mat_zero(ring, (n * m) as nat), b) == mat_zero(ring, (n * l) as nat),
        mat_mul(ring, n, m, l, a, mat_zero(ring, (m * l) as nat)) == mat_zero(ring, (n * l) as nat),
{
    let za = mat_zero(ring, (n * m) as nat);
    let zb = mat_zero(ring, (m * l) as nat);
    assert(n * l >= 0 && n * m >= 0 && m * l >= 0) by (nonlinear_arith)
        requires
            0 <= n,
            0 <= m,
            0 <= l,
    ;
    let c1 = mat_mul(ring, n, m, l, za, b);
    let c2 = mat_mul(ring, n, m, l, a, zb);
    assert forall|x: int| 0 <= x < n * l implies #[trigger] c1[x] == ring.szero() && c2[x] == ring.szero() by {
        lemma_position(x, n, l);
        let i = x / l;
        let j = x % l;
        let f1 = |k: int| ring.smul(entry(za, m, i, k), entry(b, l, k, j));
        let f2 = |k: int| ring.smul(entry(a, m, i, k), entry(zb, l, k, j));
        assert forall|k: int| 0 <= k < m implies #[trigger] f1(k) == ring.szero() by {
            lemma_index(i, k, n, m);
            lemma_index(k, j, m, l);
            ring.lemma_mul_zero(entry(b, l, k, j));
        }
        assert forall|k: int| 0 <= k < m implies #[trigger] f2(k) == ring.szero() by {
            lemma_index(i, k, n, m);
            lemma_index(k, j, m, l);
            ring.lemma_mul_zero(entry(a, m, i, k));
        }
        lemma_fsum_zero(ring, f1, m);
        lemma_fsum_zero(ring, f2, m);
    }
    assert(c1 =~= mat_zero(ring, (n * l) as nat));
    assert(c2 =~= mat_zero(ring, (n * l) as nat));
}

/// Multiplication distributes over addition: `a(b + c) = ab + ac` and `(b + c)d = bd + cd`, for
/// `a` of shape `n x m`, `b` and `c` of shape `m x l` and `d` of shape `l x q`.
pub proof fn lemma_mat_mul_distrib<R: Semiring>(
    ring: R,
    n: int,
    m: int,
    l: int,
    q: int,
    a: Seq<R::Value>,
    b: Seq<R::Value>,
    c: Seq<R::Value>,
    d: Seq<R::Value>,
)
    requires
        ring.valid(ring.szero()),
        0 <= n,
        0 <= m,
        0 <= l,
        0 <= q,
        a.len() == n * m,
        b.len() == m * l,
        c.len() == m * l,
        d.len() == l * q,
        all_valid(ring, a),
        all_valid(ring, b),
        all_valid(ring, c),
        all_valid(ring, d),
    ensures
        mat_mul(ring, n, m, l, a, mat_add(ring, b, c)) == mat_add(
            ring,
            mat_mul(ring, n, m, l, a, b),
            mat_mul(ring, n, m, l, a, c),
        ),
        mat_mul(ring, m, l, q, mat_add(ring, b, c), d) == mat_add(
            ring,
            mat_mul(ring, m, l, q, b, d),
            mat_mul(ring, m, l, q, c, d),
        ),
{
    let bc = mat_add(ring, b, c);
    let lhs1 = mat_mul(ring, n, m, l, a, bc);
    let rhs1 = mat_add(ring, mat_mul(ring, n, m, l, a, b), mat_mul(ring, n, m, l, a, c));
    assert forall|x: int| 0 <= x < lhs1.len() implies #[trigger] lhs1[x] == rhs1[x] by {
        lemma_position(x, n, l);
        let i = x / l;
        let j = x % l;
        let fb = |k: int| ring.smul(entry(a, m, i, k), entry(b, l, k, j));
        let fc = |k: int| ring.smul(entry(a, m, i, k), entry(c, l, k, j));
        let fbc = |k: int| ring.smul(entry(a, m, i, k), entry(bc, l, k, j));
        assert forall|k: int| 0 <= k < m implies ring.valid(#[trigger] fb(k)) && ring.valid(fc(k)) && fbc(k) == ring.sadd(
            fb(k),
            fc(k),
        ) by {
            lemma_index(i, k, n, m);
            lemma_index(k, j, m, l);
            ring.lemma_closed(entry(a, m, i, k), entry(b, l, k, j));
            ring.lemma_closed(entry(a, m, i, k), entry(c, l, k, j));
            ring.lemma_distrib(entry(a, m, i, k), entry(b, l, k, j), entry(c, l, k, j));
        }
        assert forall|k: int| 0 <= k < m implies ring.valid(#[trigger] fc(k)) by {
            lemma_index(i, k, n, m);
            lemma_index(k, j, m, l);
            ring.lemma_closed(entry(a, m, i, k), entry(c, l, k, j));
        }
        lemma_fsum_add(ring, fb, fc, m);
        lemma_fsum_ext(ring, fbc, |k: int| ring.sadd(fb(k), fc(k)), m);
        lemma_index(i, j, n, l);
    }
    assert(lhs1 =~= rhs1);
    let lhs2 = mat_mul(ring, m, l, q, bc, d);
    let rhs2 = mat_add(ring, mat_mul(ring, m, l, q, b, d), mat_mul(ring, m, l, q, c, d));
    assert forall|x: int| 0 <= x < lhs2.len() implies #[trigger] lhs2[x] == rhs2[x] by {
        lemma_position(x, m, q);
        let i = x / q;
        let j = x % q;
        let fb = |k: int| ring.smul(entry(b, l, i, k), entry(d, q, k, j));
        let fc = |k: int| ring.smul(entry(c, l, i, k), entry(d, q, k, j));
        let fbc = |k: int| ring.smul(entry(bc, l, i, k), entry(d, q, k, j));
        assert forall|k: int| 0 <= k < l implies ring.valid(#[trigger] fb(k)) && ring.valid(fc(k)) && fbc(k) == ring.sadd(
            fb(k),
            fc(k),
        ) by {
            lemma_index(i, k, m, l);
            lemma_index(k, j, l, q);
            ring.lemma_closed(entry(b, l, i, k), entry(d, q, k, j));
            ring.lemma_closed(entry(c, l, i, k), entry(d, q, k, j));
            ring.lemma_distrib(entry(d, q, k, j), entry(b, l, i, k), entry(c, l, i, k));
        }
        assert forall|k: int| 0 <= k < l implies ring.valid(#[trigger] fc(k)) by {
            lemma_index(i, k, m, l);
            lemma_index(k, j, l, q);
            ring.lemma_closed(entry(c, l, i, k), entry(d, q, k, j));
        }
        lemma_fsum_add(ring, fb, fc, l);
        lemma_fsum_ext(ring, fbc, |k: int| ring.sadd(fb(k), fc(k)), l);
        lemma_index(i, j, m, q);
    }
    assert(lhs2 =~= rhs2);
}

/// The product of the `n x m` matrix `a` and the `m x l` matrix `b` over `ring`, each stored row
/// by row: `(ab)_ij = Σ_k a_ik b_kj`, the sum taken with `add` from `zero` in increasing `k`.
pub fn matrix_mul<R: Semiring>(ring: &R, n: usize, m: usize, l: usize, a: &[R::Value], b: &[R::Value]) -> (c: Vec<
    R::Value,
>)
    requires
        a@.len() == n * m,
        b@.len() == m * l,
        n * l <= usize::MAX,
        all_valid(*ring, a@),
        all_valid(*ring, b@),
    ensures
        c@ == mat_mul(*ring, n as int, m as int, l as int, a@, b@),
        all_valid(*ring, c@),
{
    let ghost r = *ring;
    let nl = n * l;
    let mut c: Vec<R::Value> = Vec::new();
    let mut x: usize = 0;
    while x < nl
        invariant
            x <= nl,
            nl == n * l,
            c@.len() == x,
            forall|y: int| 0 <= y < x ==> #[trigger] c@[y] == r.szero(),
            r == *ring,
        decreases nl - x,
    {
        c.push(ring.zero());
        x = x + 1;
    }
    let _ = ring.zero();
    let alen = a.len();
    let blen = b.len();
    proof {
        assert forall|ii: int, jj: int| 0 <= ii < n && 0 <= jj < l implies #[trigger] entry(c@, l as int, ii, jj)
            == r.szero() by {
            lemma_index(ii, jj, n as int, l as int);
        }
    }
    let mut i: usize = 0;
    while i < n
        invariant
            r == *ring,
            r.valid(r.szero()),
            a@.len() == n * m,
            b@.len() == m * l,
            alen == a@.len(),
            blen == b@.len(),
            nl == n * l,
            i <= n,
            c@.len() == nl,
            all_valid(r, a@),
            all_valid(r, b@),
            forall|y: int| 0 <= y < nl ==> r.valid(#[trigger] c@[y]),
            forall|ii: int, jj: int|
                0 <= ii < n && 0 <= jj < l ==> #[trigger] entry(c@, l as int, ii, jj) == if ii < i {
                    dot(r, a@, b@, m as int, l as int, ii, jj)
                } else {
                    r.szero()
                },
        decreases n - i,
    {
        let mut k: usize = 0;
        while k < m
            invariant
                r == *ring,
                r.valid(r.szero()),
                a@.len() == n * m,
                b@.len() == m * l,
                alen == a@.len(),
                blen == b@.len(),
                nl == n * l,
                i < n,
                k <= m,
                c@.len() == nl,
                all_valid(r, a@),
                all_valid(r, b@),
                forall|y: int| 0 <= y < nl ==> r.valid(#[trigger] c@[y]),
                forall|ii: int, jj: int|
                    0 <= ii < n && 0 <= jj < l ==> #[trigger] entry(c@, l as int, ii, jj) == if ii < i {
                        dot(r, a@, b@, m as int, l as int, ii, jj)
                    } else if ii == i {
                        fsum(r, |kk: int| r.smul(entry(a@, m as int, ii, kk), entry(b@, l as int, kk, jj)), k as int)
                    } else {
                        r.szero()
                    },
            decreases m - k,
        {
            proof {
                lemma_index(i as int, k as int, n as int, m as int);
            }
            let aik = i * m + k;
            let mut j: usize = 0;
            while j < l
                invariant
                    r == *ring,
                    r.valid(r.szero()),
                    a@.len() == n * m,
                    b@.len() == m * l,
                    alen == a@.len(),
                    blen == b@.len(),
                    nl == n * l,
                    i < n,
                    k < m,
                    j <= l,
                    aik == i * m + k,
                    aik < a@.len(),
                    c@.len() == nl,
                    all_valid(r, a@),
                    all_valid(r, b@),
                    forall|y: int| 0 <= y < nl ==> r.valid(#[trigger] c@[y]),
                    forall|ii: int, jj: int|
                        0 <= ii < n && 0 <= jj < l ==> #[trigger] entry(c@, l as int, ii, jj) == if ii < i {
                            dot(r, a@, b@, m as int, l as int, ii, jj)
                        } else if ii == i && jj < j {
                            fsum(r, |kk: int| r.smul(entry(a@, m as int, ii, kk), entry(b@, l as int, kk, jj)), k + 1)
                        } else if ii == i {
                            fsum(r, |kk: int| r.smul(entry(a@, m as int, ii, kk), entry(b@, l as int, kk, jj)), k as int)
                        } else {
                            r.szero()
                        },
                decreases l - j,
            {
                proof {
                    lemma_index(i as int, j as int, n as int, l as int);
                    lemma_index(k as int, j as int, m as int, l as int);
                }
                let idx = i * l + j;
                let t = ring.mul(&a[aik], &b[k * l + j]);
                let s = ring.add(&c[idx], &t);
                let ghost old_c = c@;
                c.set(idx, s);
                proof {
                    let f = |kk: int| r.smul(entry(a@, m as int, i as int, kk), entry(b@, l as int, kk, j as int));
                    assert(fsum(r, f, k + 1) == r.sadd(fsum(r, f, k as int), f(k as int)));
                    assert(old_c[idx as int] == entry(old_c, l as int, i as int, j as int));
                    assert forall|ii: int, jj: int|
                        0 <= ii < n && 0 <= jj < l && (ii != i || jj != j) implies #[trigger] entry(c@, l as int, ii, jj)
                        == entry(old_c, l as int, ii, jj) by {
                        lemma_index(ii, jj, n as int, l as int);
                    }
                }
                j = j + 1;
            }
            k = k + 1;
        }
        proof {
            assert forall|ii: int, jj: int| 0 <= ii < n && 0 <= jj < l && ii == i implies #[trigger] entry(
                c@,
                l as int,
                ii,
                jj,
            ) == dot(r, a@, b@, m as int, l as int, ii, jj) by {}
        }
        i = i + 1;
    }
    proof {
        let spec_c = mat_mul(r, n as int, m as int, l as int, a@, b@);
        assert forall|y: int| 0 <= y < nl implies #[trigger] c@[y] == spec_c[y] by {
            lemma_position(y, n as int, l as int);
            assert(c@[y] == entry(c@, l as int, y / (l as int), y % (l as int)));
        }
        assert(c@ =~= spec_c);
    }
    c
}

} // verus!
