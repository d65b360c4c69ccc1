//! Matrices over a semiring whose shape `N x M` is part of the type.
use crate::algebra::{Ring, Semiring};
use crate::linear::dyn_matrix::{mat_pow, DynMatrix};
use crate::linear::{entry, identity, mat_add, mat_mul};
use vstd::prelude::*;

verus! {

/// An `N x M` matrix over a semiring, `N > 0` and `M > 0`, the entry `(i, j)` stored at `iM + j`.
pub struct Matrix<R: Semiring, const N: usize, const M: usize> {
    inner: DynMatrix<R>,
}

impl<R: Semiring, const N: usize, const M: usize> Matrix<R, N, M> {
    #[verifier::type_invariant]
    spec fn shaped(self) -> bool {
        &&& self.inner.wf()
        &&& self.inner.spec_rows() == N
        &&& self.inner.spec_cols() == M
    }

    /// The semiring of the entries.
    pub closed spec fn spec_semiring(self) -> R {
        self.inner.spec_semiring()
    }

    /// The entries, row by row: the entry `(i, j)` is `entry(entries, M, i, j)`.
    pub closed spec fn spec_entries(self) -> Seq<R::Value> {
        self.inner.spec_entries()
    }

    /// The zero matrix over `semiring`.
    pub fn zero(semiring: R) -> (r: Self)
        requires
            N > 0,
            M > 0,
            N * M <= usize::MAX,
        ensures
            r.spec_semiring() == semiring,
            r.spec_entries() == Seq::new((N * M) as nat, |x: int| semiring.szero()),
    {
        Matrix { inner: DynMatrix::zero(semiring, N, M) }
    }

    /// The matrix with the rows `v`.
    pub fn from_array(semiring: R, v: [[R::Value; M]; N]) -> (r: Self)
        requires
            N > 0,
            M > 0,
            N * M <= usize::MAX,
            forall|i: int, j: int| 0 <= i < N && 0 <= j < M ==> semiring.valid(#[trigger] v@[i]@[j]),
        ensures
            r.spec_semiring() == semiring,
            forall|i: int, j: int| 0 <= i < N && 0 <= j < M ==> #[trigger] entry(r.spec_entries(), M as int, i, j) == v@[i]@[j],
    {
        let z = semiring.zero();
        proof {
            semiring.lemma_closed(v@[0]@[0], v@[0]@[0]);
        }
        let mut rows: Vec<Vec<R::Value>> = Vec::new();
        let mut i: usize = 0;
        while i < N
            invariant
                i <= N,
                M > 0,
                z == semiring.szero(),
                semiring.valid(z),
                forall|a: int, b: int| 0 <= a < N && 0 <= b < M ==> semiring.valid(#[trigger] v@[a]@[b]),
                rows@.len() == i,
                forall|a: int| 0 <= a < i ==> (#[trigger] rows@[a])@.len() == M,
                forall|a: int, b: int| 0 <= a < i && 0 <= b < M ==> #[trigger] rows@[a]@[b] == v@[a]@[b],
            decreases N - i,
        {
            let mut row: Vec<R::Value> = Vec::new();
            let mut j: usize = 0;
            while j < M
                invariant
                    i < N,
                    j <= M,
                    z == semiring.szero(),
                    semiring.valid(z),
                semiring.valid(z),
                    forall|a: int, b: int| 0 <= a < N && 0 <= b < M ==> semiring.valid(#[trigger] v@[a]@[b]),
                    row@.len() == j,
                    forall|b: int| 0 <= b < j ==> #[trigger] row@[b] == v@[i as int]@[b],
                decreases M - j,
            {
                proof {
                    semiring.lemma_add_zero(v@[i as int]@[j as int]);
                }
                let x = semiring.add(&v[i][j], &z);
                row.push(x);
                j = j + 1;
            }
            rows.push(row);
            proof {
                assert forall|a: int, b: int| 0 <= a < i + 1 && 0 <= b < M implies #[trigger] rows@[a]@[b] == v@[a]@[b] by {
                    if a < i {
                        assert(rows@[a] == rows@.drop_last()[a]);
                    }
                }
            }
            i = i + 1;
        }
        let inner = DynMatrix::from_vec(semiring, rows);
        Matrix { inner }
    }

    /// Whether `N = M`.
    pub fn is_square(&self) -> (r: bool)
        ensures
            r == (N == M),
    {
        N == M
    }

    /// `(N, M)`.
    pub fn shape(&self) -> (r: (usize, usize))
        ensures
            r == (N, M),
    {
        (N, M)
    }

    /// The row `i`.
    pub fn row(&self, i: usize) -> (r: &[R::Value])
        requires
            i < N,
        ensures
            r@.len() == M,
            forall|j: int| 0 <= j < M ==> #[trigger] r@[j] == entry(self.spec_entries(), M as int, i as int, j),
    {
        proof {
            use_type_invariant(self);
        }
        self.inner.row(i)
    }
}

impl<R: Semiring + Copy, const N: usize, const M: usize> Matrix<R, N, M> {
    /// The entrywise sum.
    pub fn add(&self, rhs: &Self) -> (r: Self)
        requires
            self.spec_semiring() == rhs.spec_semiring(),
        ensures
            r.spec_semiring() == self.spec_semiring(),
            r.spec_entries() == mat_add(self.spec_semiring(), self.spec_entries(), rhs.spec_entries()),
    {
        proof {
            use_type_invariant(self);
            use_type_invariant(rhs);
        }
        Matrix { inner: self.inner.add(&rhs.inner) }
    }

    /// `self = self + rhs`.
    pub fn add_assign(&mut self, rhs: &Self)
        requires
            old(self).spec_semiring() == rhs.spec_semiring(),
        ensures
            final(self).spec_semiring() == old(self).spec_semiring(),
            final(self).spec_entries() == mat_add(old(self).spec_semiring(), old(self).spec_entries(), rhs.spec_entries()),
    {
        let r = self.add(rhs);
        *self = r;
    }

    /// The product of an `N x M` and an `M x L` matrix.
    pub fn mul<const L: usize>(&self, rhs: &Matrix<R, M, L>) -> (r: Matrix<R, N, L>)
        requires
            self.spec_semiring() == rhs.spec_semiring(),
            N * L <= usize::MAX,
        ensures
            r.spec_semiring() == self.spec_semiring(),
            r.spec_entries() == mat_mul(self.spec_semiring(), N as int, M as int, L as int, self.spec_entries(), rhs.spec_entries()),
    {
        proof {
            use_type_invariant(self);
            use_type_invariant(rhs);
        }
        Matrix { inner: self.inner.mul(&rhs.inner) }
    }
}

impl<R: Semiring + Copy, const N: usize> Matrix<R, N, N> {
    /// The identity matrix over `semiring`.
    pub fn one(semiring: R) -> (r: Self)
        requires
            N > 0,
            N * N <= usize::MAX,
        ensures
            r.spec_semiring() == semiring,
            r.spec_entries() == identity(semiring, N as int),
    {
        Matrix { inner: DynMatrix::one(semiring, N) }
    }

    /// `self = self rhs`.
    pub fn mul_assign(&mut self, rhs: &Self)
        requires
            old(self).spec_semiring() == rhs.spec_semiring(),
            N * N <= usize::MAX,
        ensures
            final(self).spec_semiring() == old(self).spec_semiring(),
            final(self).spec_entries() == mat_mul(
                old(self).spec_semiring(),
                N as int,
                N as int,
                N as int,
                old(self).spec_entries(),
                rhs.spec_entries(),
            ),
    {
        let r = self.mul(rhs);
        *self = r;
    }

    /// The power `self^exp`, by repeated squaring.
    pub fn pow(&self, exp: u64) -> (r: Self)
        ensures
            r.spec_semiring() == self.spec_semiring(),
            r.spec_entries() == mat_pow(self.spec_semiring(), N as int, self.spec_entries(), exp as nat),
    {
        proof {
            use_type_invariant(self);
        }
        Matrix { inner: self.inner.pow(exp) }
    }
}

impl<R: Ring + Copy, const N: usize, const M: usize> Matrix<R, N, M> {
    /// The entrywise negative.
    pub fn neg(&self) -> (r: Self)
        ensures
            r.spec_semiring() == self.spec_semiring(),
            r.spec_entries() == Seq::new(
                self.spec_entries().len(),
                |x: int| self.spec_semiring().sneg(self.spec_entries()[x]),
            ),
    {
        proof {
            use_type_invariant(self);
        }
        Matrix { inner: self.inner.neg() }
    }

    /// The entrywise difference `self + (-rhs)`.
    pub fn sub(&self, rhs: &Self) -> (r: Self)
        requires
            self.spec_semiring() == rhs.spec_semiring(),
        ensures
            r.spec_semiring() == self.spec_semiring(),
            r.spec_entries() == Seq::new(
                self.spec_entries().len(),
                |x: int| self.spec_semiring().sadd(self.spec_entries()[x], self.spec_semiring().sneg(rhs.spec_entries()[x])),
            ),
    {
        proof {
            use_type_invariant(self);
            use_type_invariant(rhs);
        }
        Matrix { inner: self.inner.sub(&rhs.inner) }
    }

    /// `self = self - rhs`.
    pub fn sub_assign(&mut self, rhs: &Self)
        requires
            old(self).spec_semiring() == rhs.spec_semiring(),
        ensures
            final(self).spec_semiring() == old(self).spec_semiring(),
            final(self).spec_entries() == Seq::new(
                old(self).spec_entries().len(),
                |x: int| old(self).spec_semiring().sadd(
                    old(self).spec_entries()[x],
                    old(self).spec_semiring().sneg(rhs.spec_entries()[x]),
                ),
            ),
    {
        let r = self.sub(rhs);
        *self = r;
    }
}

} // verus!
