//! An owned, column-major dense matrix, and the index arithmetic that the
//! in-place kernels share.
use crate::field::ComplexField;
use crate::mat::MatRef;
use vstd::prelude::*;

verus! {

/// The position of element `(i, j)` of a column-major matrix with `m` rows.
pub open spec fn ix(i: int, j: int, m: int) -> int {
    i + j * m
}

pub proof fn lemma_ix_bound(i: int, j: int, m: int, n: int)
    requires
        0 <= i < m,
        0 <= j < n,
    ensures
        0 <= ix(i, j, m) < m * n,
        0 <= j * m <= ix(i, j, m),
{
    assert(0 <= j * m) by (nonlinear_arith)
        requires
            0 <= j,
            0 <= m,
    ;
    assert(i + j * m < m * n) by (nonlinear_arith)
        requires
            0 <= i < m,
            0 <= j < n,
    ;
}

pub proof fn lemma_ix_inj(i1: int, j1: int, i2: int, j2: int, m: int)
    requires
        0 <= i1 < m,
        0 <= i2 < m,
        ix(i1, j1, m) == ix(i2, j2, m),
    ensures
        i1 == i2,
        j1 == j2,
{
    assert(j1 == j2) by (nonlinear_arith)
        requires
            0 <= i1 < m,
            0 <= i2 < m,
            i1 + j1 * m == i2 + j2 * m,
    ;
}

/// Every position of an `m x n` matrix is the position of an element.
pub proof fn lemma_ix_cover(p: int, m: int, n: int)
    requires
        0 <= m,
        0 <= n,
        0 <= p < m * n,
    ensures
        0 <= p % m < m,
        0 <= p / m < n,
        ix(p % m, p / m, m) == p,
{
    assert(m > 0) by (nonlinear_arith)
        requires
            0 <= m,
            0 <= n,
            0 <= p < m * n,
    ;
    vstd::arithmetic::div_mod::lemma_fundamental_div_mod(p, m);
    vstd::arithmetic::div_mod::lemma_mod_pos_bound(p, m);
    assert(p / m < n) by (nonlinear_arith)
        requires
            0 <= p < m * n,
            m > 0,
            p == m * (p / m) + p % m,
            0 <= p % m < m,
    ;
    assert(0 <= p / m) by (nonlinear_arith)
        requires
            0 <= p,
            m > 0,
            p == m * (p / m) + p % m,
            0 <= p % m < m,
    ;
    assert((p / m) * m == m * (p / m)) by (nonlinear_arith);
}

/// The position of element `(i, j)` of a column-major `m x n` matrix.
pub fn flat(i: usize, j: usize, m: usize, n: usize) -> (p: usize)
    requires
        i < m,
        j < n,
        m * n <= usize::MAX,
    ensures
        p == ix(i as int, j as int, m as int),
        p < m * n,
{
    proof {
        lemma_ix_bound(i as int, j as int, m as int, n as int);
    }
    i + j * m
}

/// An owned `nrows x ncols` matrix, stored column by column.
pub struct Mat<T> {
    pub data: Vec<T>,
    pub nrows: usize,
    pub ncols: usize,
}

impl<T: ComplexField> Mat<T> {
    pub open spec fn wf(&self) -> bool {
        self.data@.len() == self.nrows * self.ncols
    }

    /// Element `(i, j)`.
    pub open spec fn at(&self, i: int, j: int) -> T {
        self.data@[ix(i, j, self.nrows as int)]
    }

    /// The `nrows x ncols` matrix of zeros.
    pub fn zeros(nrows: usize, ncols: usize) -> (r: Self)
        requires
            nrows * ncols <= usize::MAX,
        ensures
            r.wf(),
            r.nrows == nrows,
            r.ncols == ncols,
            forall|p: int| 0 <= p < r.data@.len() ==> r.data@[p] == T::zero_spec(),
    {
        let len = nrows * ncols;
        let mut data: Vec<T> = Vec::new();
        let mut p: usize = 0;
        while p < len
            invariant
                p <= len,
                data@.len() == p,
                forall|q: int| 0 <= q < p ==> data@[q] == T::zero_spec(),
            decreases len - p,
        {
            data.push(T::zero());
            p = p + 1;
        }
        Mat { data, nrows, ncols }
    }

    /// The matrix whose columns, one after another, are `data`.
    pub fn from_column_major(data: Vec<T>, nrows: usize, ncols: usize) -> (r: Self)
        requires
            data@.len() == nrows * ncols,
        ensures
            r.wf(),
            r.data == data,
            r.nrows == nrows,
            r.ncols == ncols,
    {
        Mat { data, nrows, ncols }
    }

    pub fn nrows(&self) -> (r: usize)
        ensures
            r == self.nrows,
    {
        self.nrows
    }

    pub fn ncols(&self) -> (r: usize)
        ensures
            r == self.ncols,
    {
        self.ncols
    }

    /// Element `(i, j)`.
    pub fn read(&self, i: usize, j: usize) -> (r: T)
        requires
            self.wf(),
            i < self.nrows,
            j < self.ncols,
        ensures
            r == self.at(i as int, j as int),
    {
        let len = self.data.len();
        self.data[flat(i, j, self.nrows, self.ncols)]
    }

    /// Sets element `(i, j)` to `v`, leaving the others.
    pub fn write(&mut self, i: usize, j: usize, v: T)
        requires
            old(self).wf(),
            i < old(self).nrows,
            j < old(self).ncols,
        ensures
            final(self).wf(),
            final(self).nrows == old(self).nrows,
            final(self).ncols == old(self).ncols,
            final(self).data@ == old(self).data@.update(ix(i as int, j as int, old(self).nrows as int), v),
    {
        let len = self.data.len();
        let p = flat(i, j, self.nrows, self.ncols);
        self.data.set(p, v);
    }

    /// A view of the whole matrix.
    pub fn as_ref(&self) -> (r: MatRef<'_, T>)
        requires
            self.wf(),
            self.nrows <= isize::MAX,
        ensures
            r.data_spec() == self.data@,
            r.nrows_spec() == self.nrows,
            r.ncols_spec() == self.ncols,
            r.offset_spec() == 0,
            r.row_stride_spec() == 1,
            r.col_stride_spec() == self.nrows,
            !r.conj_spec(),
    {
        MatRef::from_column_major_slice(self.data.as_slice(), self.nrows, self.ncols)
    }
}

} // verus!
