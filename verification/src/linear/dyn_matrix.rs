//! Matrices over a semiring whose shape is known at run time.
use crate::algebra::{Ring, Semiring};
use crate::linear::{
    all_valid,
    entry,
    identity,
    lemma_identity_entry,
    lemma_index,
    lemma_mat_mul_assoc,
    lemma_mat_mul_identity,
    lemma_mat_mul_valid,
    lemma_position,
    mat_add,
    mat_mul,
    matrix_mul,
};
use vstd::prelude::*;

verus! {

/// `a^e` for the `n x n` matrix `a`: the identity matrix for `e = 0`, and `a^(e-1)·a` after.
pub open spec fn mat_pow<R: Semiring>(ring: R, n: int, a: Seq<R::Value>, e: nat) -> Seq<R::Value>
    decreases e,
{
    if e == 0 {
        identity(ring, n)
    } else {
        mat_mul(ring, n, n, n, mat_pow(ring, n, a, (e - 1) as nat), a)
    }
}

/// The powers of a square matrix of valid values are square matrices of valid values.
pub proof fn lemma_mat_pow_valid<R: Semiring>(ring: R, n: int, a: Seq<R::Value>, e: nat)
    requires
        ring.valid(ring.szero()),
        ring.valid(ring.sone()),
        0 <= n,
        a.len() == n * n,
        all_valid(ring, a),
    ensures
        mat_pow(ring, n, a, e).len() == n * n,
        all_valid(ring, mat_pow(ring, n, a, e)),
    decreases e,
{
    if e == 0 {
        assert(n * n >= 0) by (nonlinear_arith)
            requires
                0 <= n,
        ;
    } else {
        lemma_mat_pow_valid(ring, n, a, (e - 1) as nat);
        lemma_mat_mul_valid(ring, n, n, n, mat_pow(ring, n, a, (e - 1) as nat), a);
    }
}

/// `a^p · a^q = a^(p+q)`.
pub proof fn lemma_mat_pow_add<R: Semiring>(ring: R, n: int, a: Seq<R::Value>, p: nat, q: nat)
    requires
        ring.valid(ring.szero()),
        ring.valid(ring.sone()),
        0 <= n,
        a.len() == n * n,
        all_valid(ring, a),
    ensures
        mat_mul(ring, n, n, n, mat_pow(ring, n, a, p), mat_pow(ring, n, a, q)) == mat_pow(ring, n, a, p + q),
    decreases q,
{
    lemma_mat_pow_valid(ring, n, a, p);
    if q == 0 {
        lemma_mat_mul_identity(ring, n, n, mat_pow(ring, n, a, p));
    } else {
        lemma_mat_pow_add(ring, n, a, p, (q - 1) as nat);
        lemma_mat_pow_valid(ring, n, a, (q - 1) as nat);
        lemma_mat_mul_assoc(
            ring,
            n,
            n,
            n,
            n,
            mat_pow(ring, n, a, p),
            mat_pow(ring, n, a, (q - 1) as nat),
            a,
        );
        assert(mat_pow(ring, n, a, p + q) == mat_mul(ring, n, n, n, mat_pow(ring, n, a, (p + q - 1) as nat), a));
    }
}

/// An `n x m` matrix over a semiring, with `n > 0` and `m > 0`; the entry `(i, j)` is stored at
/// `im + j`.
pub struct DynMatrix<R: Semiring> {
    semiring: R,
    n: usize,
    m: usize,
    value: Vec<R::Value>,
}

impl<R: Semiring> DynMatrix<R> {
    /// The semiring of the entries.
    pub closed spec fn spec_semiring(self) -> R {
        self.semiring
    }

    /// The number `n` of rows.
    pub closed spec fn spec_rows(self) -> int {
        self.n as int
    }

    /// The number `m` of columns.
    pub closed spec fn spec_cols(self) -> int {
        self.m as int
    }

    /// The entries, row by row: the entry `(i, j)` is `entry(entries, m, i, j)`.
    pub closed spec fn spec_entries(self) -> Seq<R::Value> {
        self.value@
    }

    /// Both dimensions are positive, there are `nm` entries and each is valid.
    pub closed spec fn wf(self) -> bool {
        &&& self.n > 0
        &&& self.m > 0
        &&& self.value@.len() == self.n * self.m
        &&& all_valid(self.semiring, self.value@)
    }

    /// The `n x m` zero matrix, whose entries are all `zero`.
    pub fn zero(semiring: R, n: usize, m: usize) -> (r: Self)
        requires
            n > 0,
            m > 0,
            n * m <= usize::MAX,
        ensures
            r.wf(),
            r.spec_semiring() == semiring,
            r.spec_rows() == n,
            r.spec_cols() == m,
            r.spec_entries() == Seq::new((n * m) as nat, |x: int| semiring.szero()),
    {
        let nm = n * m;
        let _ = semiring.zero();
        let mut value: Vec<R::Value> = Vec::new();
        let mut x: usize = 0;
        while x < nm
            invariant
                x <= nm,
                value@.len() == x,
                forall|y: int| 0 <= y < x ==> #[trigger] value@[y] == semiring.szero(),
                semiring.valid(semiring.szero()),
            decreases nm - x,
        {
            value.push(semiring.zero());
            x = x + 1;
        }
        let r = DynMatrix { semiring, n, m, value };
        assert(r.spec_entries() =~= Seq::new((n * m) as nat, |x: int| semiring.szero()));
        r
    }

    /// The `n x n` identity matrix `(δ_ij)`.
    pub fn one(semiring: R, n: usize) -> (r: Self)
        requires
            n > 0,
            n * n <= usize::MAX,
        ensures
            r.wf(),
            r.spec_semiring() == semiring,
            r.spec_rows() == n,
            r.spec_cols() == n,
            r.spec_entries() == identity(semiring, n as int),
    {
        let mut r = Self::zero(semiring, n, n);
        let _ = r.semiring.one();
        proof {
            assert forall|ii: int, jj: int| 0 <= ii < n && 0 <= jj < n implies #[trigger] entry(r.value@, n as int, ii, jj)
                == semiring.szero() by {
                lemma_index(ii, jj, n as int, n as int);
            }
        }
        let mut i: usize = 0;
        while i < n
            invariant
                i <= n,
                n * n <= usize::MAX,
                r.wf(),
                r.semiring == semiring,
                r.n == n,
                r.m == n,
                semiring.valid(semiring.sone()),
                forall|ii: int, jj: int|
                    0 <= ii < n && 0 <= jj < n ==> #[trigger] entry(r.value@, n as int, ii, jj) == if ii == jj
                        && ii < i {
                        semiring.sone()
                    } else {
                        semiring.szero()
                    },
            decreases n - i,
        {
            proof {
                lemma_index(i as int, i as int, n as int, n as int);
            }
            let ghost old = r.value@;
            let one = r.semiring.one();
            r.value.set(i * n + i, one);
            proof {
                assert forall|ii: int, jj: int| 0 <= ii < n && 0 <= jj < n && (ii != i || jj != i) implies #[trigger] entry(
                    r.value@,
                    n as int,
                    ii,
                    jj,
                ) == entry(old, n as int, ii, jj) by {
                    lemma_index(ii, jj, n as int, n as int);
                }
            }
            i = i + 1;
        }
        proof {
            let e = identity(semiring, n as int);
            assert forall|x: int| 0 <= x < r.value@.len() implies #[trigger] r.value@[x] == e[x] by {
                lemma_position(x, n as int, n as int);
                lemma_identity_entry(semiring, n as int, x / (n as int), x % (n as int));
                assert(r.value@[x] == entry(r.value@, n as int, x / (n as int), x % (n as int)));
            }
            assert(r.value@ =~= e);
        }
        r
    }

    /// The matrix whose rows are `v`.
    pub fn from_vec(semiring: R, v: Vec<Vec<R::Value>>) -> (r: Self)
        requires
            v@.len() > 0,
            v@[0]@.len() > 0,
            forall|i: int| 0 <= i < v@.len() ==> (#[trigger] v@[i])@.len() == v@[0]@.len(),
            v@.len() * v@[0]@.len() <= usize::MAX,
            forall|i: int, j: int| 0 <= i < v@.len() && 0 <= j < v@[0]@.len() ==> semiring.valid(#[trigger] v@[i]@[j]),
        ensures
            r.wf(),
            r.spec_semiring() == semiring,
            r.spec_rows() == v@.len(),
            r.spec_cols() == v@[0]@.len(),
            forall|i: int, j: int|
                0 <= i < v@.len() && 0 <= j < v@[0]@.len() ==> #[trigger] entry(r.spec_entries(), v@[0]@.len() as int, i, j)
                    == v@[i]@[j],
    {
        let n = v.len();
        let m = v[0].len();
        let ghost rows = v@;
        let mut value: Vec<R::Value> = Vec::new();
        let mut i: usize = 0;
        for row in it: v
            invariant
                rows.len() == n,
                n > 0,
                m > 0,
                m == rows[0]@.len(),
                n * m <= usize::MAX,
                it.seq() == rows,
                forall|i: int| 0 <= i < n ==> (#[trigger] rows[i])@.len() == m,
                forall|i: int, j: int| 0 <= i < n && 0 <= j < m ==> semiring.valid(#[trigger] rows[i]@[j]),
                i == it.index(),
                value@.len() == i * m,
                forall|ii: int, jj: int|
                    0 <= ii < i && 0 <= jj < m ==> #[trigger] entry(value@, m as int, ii, jj) == rows[ii]@[jj],
                all_valid(semiring, value@),
        {
            let ghost r = row@;
            let ghost start = value@.len();
            proof {
                assert(r == rows[i as int]@);
                assert(i * m + m <= n * m) by (nonlinear_arith)
                    requires
                        i < n,
                ;
            }
            for x in jt: row
                invariant
                    jt.seq() == r,
                    r.len() == m,
                    value@.len() == start + jt.index(),
                    start == i * m,
                    i * m + m <= n * m,
                    n * m <= usize::MAX,
                    forall|ii: int, jj: int|
                        0 <= ii < i && 0 <= jj < m ==> #[trigger] entry(value@, m as int, ii, jj) == rows[ii]@[jj],
                    forall|jj: int| 0 <= jj < jt.index() ==> #[trigger] value@[start + jj] == r[jj],
                    all_valid(semiring, value@),
                    forall|j: int| 0 <= j < m ==> semiring.valid(#[trigger] r[j]),
            {
                let ghost old = value@;
                value.push(x);
                proof {
                    assert forall|ii: int, jj: int| 0 <= ii < i && 0 <= jj < m implies #[trigger] entry(
                        value@,
                        m as int,
                        ii,
                        jj,
                    ) == rows[ii]@[jj] by {
                        lemma_index(ii, jj, i as int, m as int);
                        assert(entry(old, m as int, ii, jj) == rows[ii]@[jj]);
                    }
                }
            }
            proof {
                assert(i * m + m == (i + 1) * m) by (nonlinear_arith);
                assert forall|ii: int, jj: int| 0 <= ii < i + 1 && 0 <= jj < m implies #[trigger] entry(
                    value@,
                    m as int,
                    ii,
                    jj,
                ) == rows[ii]@[jj] by {
                    if ii == i {
                        assert(value@[start + jj] == r[jj]);
                    }
                }
            }
            i = i + 1;
        }
        DynMatrix { semiring, n, m, value }
    }

    /// The row `i`: the entries `(i, 0), ..., (i, m - 1)`.
    pub fn row(&self, i: usize) -> (r: &[R::Value])
        requires
            self.wf(),
            i < self.spec_rows(),
        ensures
            r@.len() == self.spec_cols(),
            forall|j: int| 0 <= j < self.spec_cols() ==> #[trigger] r@[j] == entry(self.spec_entries(), self.spec_cols(), i as int, j),
    {
        let len = self.value.len();
        proof {
            assert((i + 1) * self.m <= self.n * self.m && i * self.m + self.m == (i + 1) * self.m) by (nonlinear_arith)
                requires
                    i < self.n,
            ;
        }
        let r = vstd::slice::slice_subrange(self.value.as_slice(), i * self.m, (i + 1) * self.m);
        proof {
            assert forall|j: int| 0 <= j < self.m implies #[trigger] r@[j] == entry(self.value@, self.m as int, i as int, j) by {}
        }
        r
    }

    /// Whether the matrix is square.
    pub fn is_square(&self) -> (r: bool)
        ensures
            r == (self.spec_rows() == self.spec_cols()),
    {
        self.n == self.m
    }

    /// The shape `(n, m)` of the matrix.
    pub fn shape(&self) -> (r: (usize, usize))
        ensures
            r.0 == self.spec_rows(),
            r.1 == self.spec_cols(),
    {
        (self.n, self.m)
    }
}

impl<R: Semiring + Copy> DynMatrix<R> {
    /// The entrywise sum of `self` and `rhs`, of the same shape, over the semiring of `self`.
    pub fn add(&self, rhs: &Self) -> (r: Self)
        requires
            self.wf(),
            rhs.wf(),
            self.spec_rows() == rhs.spec_rows(),
            self.spec_cols() == rhs.spec_cols(),
            self.spec_semiring() == rhs.spec_semiring(),
        ensures
            r.wf(),
            r.spec_semiring() == self.spec_semiring(),
            r.spec_rows() == self.spec_rows(),
            r.spec_cols() == self.spec_cols(),
            r.spec_entries() == mat_add(self.spec_semiring(), self.spec_entries(), rhs.spec_entries()),
    {
        let len = self.value.len();
        let mut value: Vec<R::Value> = Vec::with_capacity(len);
        let mut k: usize = 0;
        while k < len
            invariant
                k <= len,
                len == self.value@.len(),
                self.wf(),
                rhs.wf(),
                rhs.value@.len() == len,
                self.semiring == rhs.semiring,
                value@.len() == k,
                forall|x: int| 0 <= x < k ==> #[trigger] value@[x] == self.semiring.sadd(self.value@[x], rhs.value@[x]),
                forall|x: int| 0 <= x < k ==> self.semiring.valid(#[trigger] value@[x]),
            decreases len - k,
        {
            let v = self.semiring.add(&self.value[k], &rhs.value[k]);
            value.push(v);
            k = k + 1;
        }
        let r = DynMatrix { semiring: self.semiring, n: self.n, m: self.m, value };
        assert(r.value@ =~= mat_add(self.semiring, self.value@, rhs.value@));
        r
    }

    /// The product of `self`, of shape `n x m`, and `rhs`, of shape `m x l`, over the semiring of
    /// `self`.
    pub fn mul(&self, rhs: &Self) -> (r: Self)
        requires
            self.wf(),
            rhs.wf(),
            self.spec_cols() == rhs.spec_rows(),
            self.spec_semiring() == rhs.spec_semiring(),
            self.spec_rows() * rhs.spec_cols() <= usize::MAX,
        ensures
            r.wf(),
            r.spec_semiring() == self.spec_semiring(),
            r.spec_rows() == self.spec_rows(),
            r.spec_cols() == rhs.spec_cols(),
            r.spec_entries() == mat_mul(
                self.spec_semiring(),
                self.spec_rows(),
                self.spec_cols(),
                rhs.spec_cols(),
                self.spec_entries(),
                rhs.spec_entries(),
            ),
    {
        let value = matrix_mul(&self.semiring, self.n, self.m, rhs.m, self.value.as_slice(), rhs.value.as_slice());
        proof {
            assert(self.n * rhs.m > 0) by (nonlinear_arith)
                requires
                    self.n > 0,
                    rhs.m > 0,
            ;
        }
        DynMatrix { semiring: self.semiring, n: self.n, m: rhs.m, value }
    }

    /// `self^exp`, for a square `self`: the identity matrix for `exp = 0`.
    pub fn pow(&self, exp: u64) -> (r: Self)
        requires
            self.wf(),
            self.spec_rows() == self.spec_cols(),
        ensures
            r.wf(),
            r.spec_semiring() == self.spec_semiring(),
            r.spec_rows() == self.spec_rows(),
            r.spec_cols() == self.spec_cols(),
            r.spec_entries() == mat_pow(self.spec_semiring(), self.spec_rows(), self.spec_entries(), exp as nat),
    {
        let ghost ring = self.semiring;
        let ghost a = self.value@;
        let n = self.n;
        let vlen = self.value.len();
        let _ = self.semiring.zero();
        let _ = self.semiring.one();
        let mut len: u32 = 0;
        while len < 64 && (exp >> len) != 0
            invariant
                len <= 64,
            decreases 64 - len,
        {
            len = len + 1;
        }
        proof {
            if len == 64 {
                assert(exp >> 64u32 == 0) by (bit_vector);
            }
        }
        let mut x = Self::one(self.semiring, n);
        let mut i: u32 = len;
        while i > 0
            invariant
                i <= 64,
                n * n == vlen,
                x.wf(),
                self.wf(),
                ring == self.semiring,
                a == self.value@,
                n == self.n,
                n == self.m,
                x.semiring == ring,
                x.n == n,
                x.m == n,
                ring.valid(ring.szero()),
                ring.valid(ring.sone()),
                x.value@ == mat_pow(ring, n as int, a, (exp >> i) as nat),
            decreases i,
        {
            i = i - 1;
            let ghost h = (exp >> (i + 1) as u32) as nat;
            proof {
                assert(exp >> i == (exp >> ((i + 1) as u32)) * 2 + ((exp >> i) & 1) && ((exp >> i) & 1 == 0 || (exp >> i)
                    & 1 == 1)) by (bit_vector)
                    requires
                        i < 64,
                ;
                lemma_mat_pow_add(ring, n as int, a, h, h);
            }
            x = x.mul(&x);
            if (exp >> i) & 1 == 1 {
                x = x.mul(self);
                proof {
                    assert(mat_pow(ring, n as int, a, h + h + 1) == mat_mul(
                        ring,
                        n as int,
                        n as int,
                        n as int,
                        mat_pow(ring, n as int, a, h + h),
                        a,
                    ));
                }
            }
        }
        proof {
            assert(exp >> 0u32 == exp) by (bit_vector);
        }
        x
    }
}

impl<R: Ring + Copy> DynMatrix<R> {
    /// The entrywise negative.
    pub fn neg(&self) -> (r: Self)
        requires
            self.wf(),
        ensures
            r.wf(),
            r.spec_semiring() == self.spec_semiring(),
            r.spec_rows() == self.spec_rows(),
            r.spec_cols() == self.spec_cols(),
            r.spec_entries() == Seq::new(
                self.spec_entries().len(),
                |x: int| self.spec_semiring().sneg(self.spec_entries()[x]),
            ),
    {
        let len = self.value.len();
        let mut value: Vec<R::Value> = Vec::new();
        let mut k: usize = 0;
        while k < len
            invariant
                k <= len,
                len == self.value@.len(),
                self.wf(),
                value@.len() == k,
                forall|x: int| 0 <= x < k ==> #[trigger] value@[x] == self.semiring.sneg(self.value@[x]),
                forall|x: int| 0 <= x < k ==> self.semiring.valid(#[trigger] value@[x]),
            decreases len - k,
        {
            let v = self.semiring.neg(&self.value[k]);
            value.push(v);
            k = k + 1;
        }
        let r = DynMatrix { semiring: self.semiring, n: self.n, m: self.m, value };
        assert(r.value@ =~= Seq::new(self.value@.len(), |x: int| self.semiring.sneg(self.value@[x])));
        r
    }

    /// The entrywise difference `self + (-rhs)`.
    pub fn sub(&self, rhs: &Self) -> (r: Self)
        requires
            self.wf(),
            rhs.wf(),
            self.spec_rows() == rhs.spec_rows(),
            self.spec_cols() == rhs.spec_cols(),
            self.spec_semiring() == rhs.spec_semiring(),
        ensures
            r.wf(),
            r.spec_semiring() == self.spec_semiring(),
            r.spec_rows() == self.spec_rows(),
            r.spec_cols() == self.spec_cols(),
            r.spec_entries() == Seq::new(
                self.spec_entries().len(),
                |x: int| self.spec_semiring().sadd(self.spec_entries()[x], self.spec_semiring().sneg(rhs.spec_entries()[x])),
            ),
    {
        let len = self.value.len();
        let mut value: Vec<R::Value> = Vec::new();
        let mut k: usize = 0;
        while k < len
            invariant
                k <= len,
                len == self.value@.len(),
                self.wf(),
                rhs.wf(),
                rhs.value@.len() == len,
                self.semiring == rhs.semiring,
                value@.len() == k,
                forall|x: int| 0 <= x < k ==> #[trigger] value@[x] == self.semiring.sadd(self.value@[x], self.semiring.sneg(rhs.value@[x])),
                forall|x: int| 0 <= x < k ==> self.semiring.valid(#[trigger] value@[x]),
            decreases len - k,
        {
            let w = self.semiring.neg(&rhs.value[k]);
            let v = self.semiring.add(&self.value[k], &w);
            value.push(v);
            k = k + 1;
        }
        let r = DynMatrix { semiring: self.semiring, n: self.n, m: self.m, value };
        assert(r.value@ =~= Seq::new(
            self.value@.len(),
            |x: int| self.semiring.sadd(self.value@[x], self.semiring.sneg(rhs.value@[x])),
        ));
        r
    }
}

} // verus!
