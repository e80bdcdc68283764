//! Strided, read-only matrix views over a borrowed slice.
//!
//! A view reads element `(i, j)` at position
//! `offset + i * row_stride + j * col_stride` of its slice. Strides may be
//! negative (reversed views) or zero. Every element of a view lies inside the
//! slice; that is the view's invariant, checked once where a view is made from
//! a slice, and kept by every slicing, transposing and reversing operation.
use crate::dense::{ix, Mat};
use crate::field::ComplexField;
use vstd::prelude::*;

verus! {

/// A read-only strided view of an `nrows x ncols` matrix.
pub struct MatRef<'a, T> {
    data: &'a [T],
    offset: usize,
    nrows: usize,
    ncols: usize,
    row_stride: isize,
    col_stride: isize,
    conj: bool,
}

proof fn lemma_mul_le(a: int, b: int, c: int)
    requires
        0 <= a <= b,
        0 <= c,
    ensures
        a * c <= b * c,
{
    assert(a * c <= b * c) by (nonlinear_arith)
        requires
            0 <= a <= b,
            0 <= c,
    ;
}

proof fn lemma_col_major_bound(i: int, j: int, m: int, n: int)
    requires
        0 <= i < m,
        0 <= j < n,
    ensures
        0 <= i + j * m < m * n,
        0 <= j * m,
{
    assert(0 <= j * m) by (nonlinear_arith)
        requires
            0 <= j,
            0 <= m,
    ;
    assert(i + j * m < m * n) by (nonlinear_arith)
        requires
            0 <= i < m,
            0 <= j < n,
    ;
}

proof fn lemma_shift(o: int, r: int, c: int, i: int, j: int, rs: int, cs: int)
    ensures
        (o + r * rs + c * cs) + i * rs + j * cs == o + (r + i) * rs + (c + j) * cs,
{
    assert((r + i) * rs == r * rs + i * rs) by (nonlinear_arith);
    assert((c + j) * cs == c * cs + j * cs) by (nonlinear_arith);
}

proof fn lemma_reverse(o: int, n: int, i: int, s: int)
    ensures
        (o + (n - 1) * s) + i * (-s) == o + (n - 1 - i) * s,
{
    assert((n - 1) * s + i * (-s) == (n - 1 - i) * s) by (nonlinear_arith);
}

/// Every element of an `nrows x ncols` view at `offset` with the given
/// strides lies within a slice of `len` elements.
pub open spec fn fits(len: int, offset: int, nrows: int, ncols: int, rs: int, cs: int) -> bool {
    &&& 0 <= offset <= len
    &&& forall|i: int, j: int|
        0 <= i < nrows && 0 <= j < ncols ==> 0 <= #[trigger] position(offset, i, j, rs, cs) < len
}

/// The position of element `(i, j)`.
pub open spec fn position(offset: int, i: int, j: int, rs: int, cs: int) -> int {
    offset + i * rs + j * cs
}

impl<'a, T> Copy for MatRef<'a, T> {

}

impl<'a, T> Clone for MatRef<'a, T> {
    fn clone(&self) -> (r: Self)
        ensures
            r == *self,
    {
        proof {
            use_type_invariant(self);
        }
        MatRef {
            data: self.data,
            offset: self.offset,
            nrows: self.nrows,
            ncols: self.ncols,
            row_stride: self.row_stride,
            col_stride: self.col_stride,
            conj: self.conj,
        }
    }
}

impl<'a, T> MatRef<'a, T> {
    #[verifier::type_invariant]
    spec fn inv(&self) -> bool {
        fits(
            self.data@.len() as int,
            self.offset as int,
            self.nrows as int,
            self.ncols as int,
            self.row_stride as int,
            self.col_stride as int,
        )
    }

    /// The slice that the view reads.
    pub closed spec fn data_spec(&self) -> Seq<T> {
        self.data@
    }

    /// The position of element `(0, 0)` in the slice.
    pub closed spec fn offset_spec(&self) -> int {
        self.offset as int
    }

    pub closed spec fn nrows_spec(&self) -> int {
        self.nrows as int
    }

    pub closed spec fn ncols_spec(&self) -> int {
        self.ncols as int
    }

    pub closed spec fn row_stride_spec(&self) -> int {
        self.row_stride as int
    }

    pub closed spec fn col_stride_spec(&self) -> int {
        self.col_stride as int
    }

    /// Whether elements read through the view are conjugated.
    pub closed spec fn conj_spec(&self) -> bool {
        self.conj
    }

    /// The position of element `(i, j)` in the slice.
    pub open spec fn index_spec(&self, i: int, j: int) -> int {
        position(self.offset_spec(), i, j, self.row_stride_spec(), self.col_stride_spec())
    }

    /// The two views have the same slice and conjugation; `r` reads element
    /// `(i, j)` where `self` reads `(r0 + i, c0 + j)`, on an `nr x nc` shape.
    pub open spec fn is_block_of(r: MatRef<'a, T>, s: MatRef<'a, T>, r0: int, c0: int, nr: int, nc: int) -> bool {
        &&& r.data_spec() == s.data_spec()
        &&& r.conj_spec() == s.conj_spec()
        &&& r.nrows_spec() == nr
        &&& r.ncols_spec() == nc
        &&& r.row_stride_spec() == s.row_stride_spec()
        &&& r.col_stride_spec() == s.col_stride_spec()
        &&& forall|i: int, j: int|
            0 <= i < nr && 0 <= j < nc ==> #[trigger] r.index_spec(i, j) == s.index_spec(
                r0 + i,
                c0 + j,
            )
    }

    /// Element `(i, j)` as stored in the slice, before conjugation.
    pub open spec fn stored(&self, i: int, j: int) -> T {
        self.data_spec()[self.index_spec(i, j)]
    }

    /// A column-major view of `slice`: element `(i, j)` at `i + j * nrows`.
    pub fn from_column_major_slice(slice: &'a [T], nrows: usize, ncols: usize) -> (r: Self)
        requires
            nrows * ncols == slice@.len(),
            nrows <= isize::MAX,
        ensures
            r.data_spec() == slice@,
            r.nrows_spec() == nrows,
            r.ncols_spec() == ncols,
            r.offset_spec() == 0,
            r.row_stride_spec() == 1,
            r.col_stride_spec() == nrows,
            !r.conj_spec(),
    {
        assert forall|i: int, j: int| 0 <= i < nrows && 0 <= j < ncols implies 0
            <= #[trigger] position(0, i, j, 1, nrows as int) < slice@.len() by {
            lemma_col_major_bound(i, j, nrows as int, ncols as int);
        }
        MatRef {
            data: slice,
            offset: 0,
            nrows,
            ncols,
            row_stride: 1,
            col_stride: nrows as isize,
            conj: false,
        }
    }

    /// A column-major view of `slice` whose columns start `col_stride`
    /// elements apart.
    pub fn from_column_major_slice_with_stride(
        slice: &'a [T],
        nrows: usize,
        ncols: usize,
        col_stride: usize,
    ) -> (r: Self)
        requires
            col_stride <= isize::MAX,
            nrows > 0 && ncols > 0 ==> col_stride * (ncols - 1) + (nrows - 1) < slice@.len(),
        ensures
            r.data_spec() == slice@,
            r.nrows_spec() == nrows,
            r.ncols_spec() == ncols,
            r.offset_spec() == 0,
            r.row_stride_spec() == 1,
            r.col_stride_spec() == col_stride,
            !r.conj_spec(),
    {
        assert forall|i: int, j: int| 0 <= i < nrows && 0 <= j < ncols implies 0
            <= #[trigger] position(0, i, j, 1, col_stride as int) < slice@.len() by {
            lemma_mul_le(j, ncols - 1, col_stride as int);
            assert(0 <= j * col_stride) by (nonlinear_arith)
                requires
                    0 <= j,
            ;
            assert(j * (col_stride as int) == (col_stride as int) * j) by (nonlinear_arith);
        }
        MatRef {
            data: slice,
            offset: 0,
            nrows,
            ncols,
            row_stride: 1,
            col_stride: col_stride as isize,
            conj: false,
        }
    }

    /// A row-major view of `slice`: element `(i, j)` at `i * ncols + j`.
    pub fn from_row_major_slice(slice: &'a [T], nrows: usize, ncols: usize) -> (r: Self)
        requires
            nrows * ncols == slice@.len(),
            ncols <= isize::MAX,
        ensures
            r.data_spec() == slice@,
            r.nrows_spec() == nrows,
            r.ncols_spec() == ncols,
            r.offset_spec() == 0,
            r.row_stride_spec() == ncols,
            r.col_stride_spec() == 1,
            !r.conj_spec(),
    {
        assert(ncols * nrows == nrows * ncols) by (nonlinear_arith);
        MatRef::from_column_major_slice(slice, ncols, nrows).transpose()
    }

    /// A row-major view of `slice` whose rows start `row_stride` elements
    /// apart.
    pub fn from_row_major_slice_with_stride(
        slice: &'a [T],
        nrows: usize,
        ncols: usize,
        row_stride: usize,
    ) -> (r: Self)
        requires
            row_stride <= isize::MAX,
            nrows > 0 && ncols > 0 ==> row_stride * (nrows - 1) + (ncols - 1) < slice@.len(),
        ensures
            r.data_spec() == slice@,
            r.nrows_spec() == nrows,
            r.ncols_spec() == ncols,
            r.offset_spec() == 0,
            r.row_stride_spec() == row_stride,
            r.col_stride_spec() == 1,
            !r.conj_spec(),
    {
        MatRef::from_column_major_slice_with_stride(slice, ncols, nrows, row_stride).transpose()
    }

    /// The position of element `(0, 0)` in the slice.
    pub fn as_ptr(&self) -> (r: usize)
        ensures
            r == self.offset_spec(),
    {
        self.offset
    }

    pub fn nrows(&self) -> (r: usize)
        ensures
            r == self.nrows_spec(),
    {
        self.nrows
    }

    pub fn ncols(&self) -> (r: usize)
        ensures
            r == self.ncols_spec(),
    {
        self.ncols
    }

    pub fn shape(&self) -> (r: (usize, usize))
        ensures
            r.0 == self.nrows_spec(),
            r.1 == self.ncols_spec(),
    {
        (self.nrows, self.ncols)
    }

    pub fn row_stride(&self) -> (r: isize)
        ensures
            r == self.row_stride_spec(),
    {
        self.row_stride
    }

    pub fn col_stride(&self) -> (r: isize)
        ensures
            r == self.col_stride_spec(),
    {
        self.col_stride
    }

    /// The position of element `(row, col)` in the slice; the position of
    /// element `(0, 0)` where `row` or `col` is past the end.
    pub fn ptr_at(&self, row: usize, col: usize) -> (r: usize)
        ensures
            row < self.nrows_spec() && col < self.ncols_spec() ==> r == self.index_spec(
                row as int,
                col as int,
            ),
            !(row < self.nrows_spec() && col < self.ncols_spec()) ==> r == self.offset_spec(),
            r <= self.data_spec().len(),
    {
        proof {
            use_type_invariant(self);
        }
        if row >= self.nrows || col >= self.ncols {
            self.offset
        } else {
            self.index_of(row, col)
        }
    }

    fn index_of(&self, row: usize, col: usize) -> (r: usize)
        requires
            row < self.nrows_spec(),
            col < self.ncols_spec(),
        ensures
            r == self.index_spec(row as int, col as int),
            r < self.data_spec().len(),
    {
        proof {
            use_type_invariant(self);
            let rs = self.row_stride as int;
            let cs = self.col_stride as int;
            assert(0 <= position(self.offset as int, row as int, 0, rs, cs) < self.data@.len());
            assert(0 <= position(self.offset as int, row as int, col as int, rs, cs) < self.data@.len());
            assert(0 * cs == 0);
            assert(0 <= self.offset + row * rs < self.data@.len());
        }
        let len = self.data.len();
        let head: i128 = self.offset as i128 + (row as i128) * (self.row_stride as i128);
        let at: i128 = head + (col as i128) * (self.col_stride as i128);
        at as usize
    }

    /// The view with rows and columns exchanged.
    pub fn transpose(self) -> (r: Self)
        ensures
            r.data_spec() == self.data_spec(),
            r.conj_spec() == self.conj_spec(),
            r.offset_spec() == self.offset_spec(),
            r.nrows_spec() == self.ncols_spec(),
            r.ncols_spec() == self.nrows_spec(),
            r.row_stride_spec() == self.col_stride_spec(),
            r.col_stride_spec() == self.row_stride_spec(),
            forall|i: int, j: int| #[trigger] r.index_spec(i, j) == self.index_spec(j, i),
    {
        proof {
            use_type_invariant(&self);
        }
        assert forall|i: int, j: int| 0 <= i < self.ncols && 0 <= j < self.nrows implies 0
            <= #[trigger] position(self.offset as int, i, j, self.col_stride as int, self.row_stride as int)
            < self.data@.len() by {
            assert(position(self.offset as int, j, i, self.row_stride as int, self.col_stride as int) < self.data@.len());
        }
        MatRef {
            data: self.data,
            offset: self.offset,
            nrows: self.ncols,
            ncols: self.nrows,
            row_stride: self.col_stride,
            col_stride: self.row_stride,
            conj: self.conj,
        }
    }

    /// The view whose elements are the conjugates of this one's.
    pub fn conjugate(self) -> (r: Self)
        ensures
            r.data_spec() == self.data_spec(),
            r.conj_spec() == !self.conj_spec(),
            r.offset_spec() == self.offset_spec(),
            r.nrows_spec() == self.nrows_spec(),
            r.ncols_spec() == self.ncols_spec(),
            r.row_stride_spec() == self.row_stride_spec(),
            r.col_stride_spec() == self.col_stride_spec(),
    {
        proof {
            use_type_invariant(&self);
        }
        MatRef { conj: !self.conj, ..self }
    }

    /// The conjugate transpose.
    pub fn adjoint(self) -> (r: Self)
        ensures
            r.data_spec() == self.data_spec(),
            r.conj_spec() == !self.conj_spec(),
            r.offset_spec() == self.offset_spec(),
            r.nrows_spec() == self.ncols_spec(),
            r.ncols_spec() == self.nrows_spec(),
            r.row_stride_spec() == self.col_stride_spec(),
            r.col_stride_spec() == self.row_stride_spec(),
            forall|i: int, j: int| #[trigger] r.index_spec(i, j) == self.index_spec(j, i),
    {
        self.conjugate().transpose()
    }

    /// The `nr x nc` block whose element `(0, 0)` is `(r0, c0)`.
    fn block(self, r0: usize, c0: usize, nr: usize, nc: usize) -> (r: Self)
        requires
            r0 + nr <= self.nrows_spec(),
            c0 + nc <= self.ncols_spec(),
        ensures
            Self::is_block_of(r, self, r0 as int, c0 as int, nr as int, nc as int),
    {
        proof {
            use_type_invariant(&self);
        }
        let offset = self.ptr_at(r0, c0);
        let ghost rs = self.row_stride as int;
        let ghost cs = self.col_stride as int;
        assert forall|i: int, j: int| 0 <= i < nr && 0 <= j < nc implies #[trigger] position(
            offset as int,
            i,
            j,
            rs,
            cs,
        ) == position(self.offset as int, r0 + i, c0 + j, rs, cs) by {
            lemma_shift(self.offset as int, r0 as int, c0 as int, i, j, rs, cs);
        }
        assert forall|i: int, j: int| 0 <= i < nr && 0 <= j < nc implies 0 <= #[trigger] position(
            offset as int,
            i,
            j,
            rs,
            cs,
        ) < self.data@.len() by {
            assert(0 <= position(self.offset as int, r0 + i, c0 + j, rs, cs) < self.data@.len());
        }
        MatRef {
            data: self.data,
            offset,
            nrows: nr,
            ncols: nc,
            row_stride: self.row_stride,
            col_stride: self.col_stride,
            conj: self.conj,
        }
    }

    /// The block of `nrows x ncols` elements starting at `(row_start, col_start)`.
    pub fn submatrix(self, row_start: usize, col_start: usize, nrows: usize, ncols: usize) -> (r: Self)
        requires
            row_start <= self.nrows_spec(),
            col_start <= self.ncols_spec(),
            nrows <= self.nrows_spec() - row_start,
            ncols <= self.ncols_spec() - col_start,
        ensures
            Self::is_block_of(r, self, row_start as int, col_start as int, nrows as int, ncols as int),
    {
        self.block(row_start, col_start, nrows, ncols)
    }

    /// The rows `row_start .. row_start + nrows`.
    pub fn subrows(self, row_start: usize, nrows: usize) -> (r: Self)
        requires
            row_start <= self.nrows_spec(),
            nrows <= self.nrows_spec() - row_start,
        ensures
            Self::is_block_of(r, self, row_start as int, 0, nrows as int, self.ncols_spec()),
    {
        let n = self.ncols;
        self.block(row_start, 0, nrows, n)
    }

    /// The columns `col_start .. col_start + ncols`.
    pub fn subcols(self, col_start: usize, ncols: usize) -> (r: Self)
        requires
            col_start <= self.ncols_spec(),
            ncols <= self.ncols_spec() - col_start,
        ensures
            Self::is_block_of(r, self, 0, col_start as int, self.nrows_spec(), ncols as int),
    {
        let m = self.nrows;
        self.block(0, col_start, m, ncols)
    }

    /// The four blocks that row `row` and column `col` cut the view into:
    /// top left, top right, bottom left, bottom right.
    pub fn split_at(self, row: usize, col: usize) -> (r: (Self, Self, Self, Self))
        requires
            row <= self.nrows_spec(),
            col <= self.ncols_spec(),
        ensures
            Self::is_block_of(r.0, self, 0, 0, row as int, col as int),
            Self::is_block_of(r.1, self, 0, col as int, row as int, self.ncols_spec() - col),
            Self::is_block_of(r.2, self, row as int, 0, self.nrows_spec() - row, col as int),
            Self::is_block_of(
                r.3,
                self,
                row as int,
                col as int,
                self.nrows_spec() - row,
                self.ncols_spec() - col,
            ),
    {
        let m = self.nrows;
        let n = self.ncols;
        (
            self.block(0, 0, row, col),
            self.block(0, col, row, n - col),
            self.block(row, 0, m - row, col),
            self.block(row, col, m - row, n - col),
        )
    }

    /// The rows above `row`, and the rows from `row` on.
    pub fn split_at_row(self, row: usize) -> (r: (Self, Self))
        requires
            row <= self.nrows_spec(),
        ensures
            Self::is_block_of(r.0, self, 0, 0, row as int, self.ncols_spec()),
            Self::is_block_of(r.1, self, row as int, 0, self.nrows_spec() - row, self.ncols_spec()),
    {
        let m = self.nrows;
        let n = self.ncols;
        (self.block(0, 0, row, n), self.block(row, 0, m - row, n))
    }

    /// The columns left of `col`, and the columns from `col` on.
    pub fn split_at_col(self, col: usize) -> (r: (Self, Self))
        requires
            col <= self.ncols_spec(),
        ensures
            Self::is_block_of(r.0, self, 0, 0, self.nrows_spec(), col as int),
            Self::is_block_of(r.1, self, 0, col as int, self.nrows_spec(), self.ncols_spec() - col),
    {
        let m = self.nrows;
        let n = self.ncols;
        (self.block(0, 0, m, col), self.block(0, col, m, n - col))
    }

    /// Row `i`, as a `1 x ncols` view.
    pub fn row(self, i: usize) -> (r: Self)
        requires
            i < self.nrows_spec(),
        ensures
            Self::is_block_of(r, self, i as int, 0, 1, self.ncols_spec()),
    {
        let n = self.ncols;
        self.block(i, 0, 1, n)
    }

    /// Column `j`, as an `nrows x 1` view.
    pub fn col(self, j: usize) -> (r: Self)
        requires
            j < self.ncols_spec(),
        ensures
            Self::is_block_of(r, self, 0, j as int, self.nrows_spec(), 1),
    {
        let m = self.nrows;
        self.block(0, j, m, 1)
    }

    /// The first row and the rows below it; `None` for a view without rows.
    pub fn split_first_row(self) -> (r: Option<(Self, Self)>)
        ensures
            self.nrows_spec() == 0 <==> r is None,
            r matches Some((head, tail)) ==> Self::is_block_of(head, self, 0, 0, 1, self.ncols_spec())
                && Self::is_block_of(tail, self, 1, 0, self.nrows_spec() - 1, self.ncols_spec()),
    {
        if self.nrows >= 1 {
            let (head, tail) = self.split_at_row(1);
            Some((head, tail))
        } else {
            None
        }
    }

    /// The first column and the columns right of it; `None` for a view
    /// without columns.
    pub fn split_first_col(self) -> (r: Option<(Self, Self)>)
        ensures
            self.ncols_spec() == 0 <==> r is None,
            r matches Some((head, tail)) ==> Self::is_block_of(head, self, 0, 0, self.nrows_spec(), 1)
                && Self::is_block_of(tail, self, 0, 1, self.nrows_spec(), self.ncols_spec() - 1),
    {
        if self.ncols >= 1 {
            let (head, tail) = self.split_at_col(1);
            Some((head, tail))
        } else {
            None
        }
    }

    /// The last row and the rows above it; `None` for a view without rows.
    pub fn split_last_row(self) -> (r: Option<(Self, Self)>)
        ensures
            self.nrows_spec() == 0 <==> r is None,
            r matches Some((last, head)) ==> Self::is_block_of(
                last,
                self,
                self.nrows_spec() - 1,
                0,
                1,
                self.ncols_spec(),
            ) && Self::is_block_of(head, self, 0, 0, self.nrows_spec() - 1, self.ncols_spec()),
    {
        if self.nrows > 0 {
            let (head, tail) = self.split_at_row(self.nrows - 1);
            Some((tail, head))
        } else {
            None
        }
    }

    /// The last column and the columns left of it; `None` for a view without
    /// columns.
    pub fn split_last_col(self) -> (r: Option<(Self, Self)>)
        ensures
            self.ncols_spec() == 0 <==> r is None,
            r matches Some((last, head)) ==> Self::is_block_of(
                last,
                self,
                0,
                self.ncols_spec() - 1,
                self.nrows_spec(),
                1,
            ) && Self::is_block_of(head, self, 0, 0, self.nrows_spec(), self.ncols_spec() - 1),
    {
        if self.ncols > 0 {
            let (head, tail) = self.split_at_col(self.ncols - 1);
            Some((tail, head))
        } else {
            None
        }
    }

    /// The columns, in order, each as an `nrows x 1` view.
    pub fn col_iter(self) -> (r: Vec<Self>)
        ensures
            r@.len() == self.ncols_spec(),
            forall|j: int|
                0 <= j < r@.len() ==> Self::is_block_of(#[trigger] r@[j], self, 0, j, self.nrows_spec(), 1),
    {
        let mut out: Vec<Self> = Vec::new();
        let mut j: usize = 0;
        while j < self.ncols
            invariant
                j <= self.ncols_spec(),
                out@.len() == j,
                forall|c: int|
                    0 <= c < j ==> Self::is_block_of(#[trigger] out@[c], self, 0, c, self.nrows_spec(), 1),
            decreases self.ncols_spec() - j,
        {
            out.push(self.col(j));
            j = j + 1;
        }
        out
    }

    /// The rows, in order, each as a `1 x ncols` view.
    pub fn row_iter(self) -> (r: Vec<Self>)
        ensures
            r@.len() == self.nrows_spec(),
            forall|i: int|
                0 <= i < r@.len() ==> Self::is_block_of(#[trigger] r@[i], self, i, 0, 1, self.ncols_spec()),
    {
        let mut out: Vec<Self> = Vec::new();
        let mut i: usize = 0;
        while i < self.nrows
            invariant
                i <= self.nrows_spec(),
                out@.len() == i,
                forall|c: int|
                    0 <= c < i ==> Self::is_block_of(#[trigger] out@[c], self, c, 0, 1, self.ncols_spec()),
            decreases self.nrows_spec() - i,
        {
            out.push(self.row(i));
            i = i + 1;
        }
        out
    }

    /// The same view.
    pub fn as_ref(&self) -> (r: Self)
        ensures
            r == *self,
    {
        self.clone()
    }

    /// The view with the order of its rows reversed.
    pub fn reverse_rows(self) -> (r: Self)
        requires
            self.row_stride_spec() > isize::MIN,
        ensures
            r.data_spec() == self.data_spec(),
            r.conj_spec() == self.conj_spec(),
            r.nrows_spec() == self.nrows_spec(),
            r.ncols_spec() == self.ncols_spec(),
            r.row_stride_spec() == -self.row_stride_spec(),
            r.col_stride_spec() == self.col_stride_spec(),
            forall|i: int, j: int|
                0 <= i < r.nrows_spec() && 0 <= j < r.ncols_spec() ==> #[trigger] r.index_spec(i, j)
                    == self.index_spec(self.nrows_spec() - 1 - i, j),
    {
        proof {
            use_type_invariant(&self);
        }
        let last = if self.nrows > 0 { self.nrows - 1 } else { 0 };
        let offset = self.ptr_at(last, 0);
        let ghost rs = self.row_stride as int;
        let ghost cs = self.col_stride as int;
        let ghost m = self.nrows as int;
        assert forall|i: int, j: int| 0 <= i < m && 0 <= j < self.ncols implies #[trigger] position(
            offset as int,
            i,
            j,
            -rs,
            cs,
        ) == position(self.offset as int, m - 1 - i, j, rs, cs) by {
            lemma_reverse(self.offset as int, m, i, rs);
        }
        assert forall|i: int, j: int| 0 <= i < m && 0 <= j < self.ncols implies 0 <= #[trigger] position(
            offset as int,
            i,
            j,
            -rs,
            cs,
        ) < self.data@.len() by {
            assert(0 <= position(self.offset as int, m - 1 - i, j, rs, cs) < self.data@.len());
        }
        MatRef {
            data: self.data,
            offset,
            nrows: self.nrows,
            ncols: self.ncols,
            row_stride: -self.row_stride,
            col_stride: self.col_stride,
            conj: self.conj,
        }
    }

    /// The view with the order of its columns reversed.
    pub fn reverse_cols(self) -> (r: Self)
        requires
            self.col_stride_spec() > isize::MIN,
        ensures
            r.data_spec() == self.data_spec(),
            r.conj_spec() == self.conj_spec(),
            r.nrows_spec() == self.nrows_spec(),
            r.ncols_spec() == self.ncols_spec(),
            r.row_stride_spec() == self.row_stride_spec(),
            r.col_stride_spec() == -self.col_stride_spec(),
            forall|i: int, j: int|
                0 <= i < r.nrows_spec() && 0 <= j < r.ncols_spec() ==> #[trigger] r.index_spec(i, j)
                    == self.index_spec(i, self.ncols_spec() - 1 - j),
    {
        let t = self.transpose();
        let u = t.reverse_rows();
        let r = u.transpose();
        assert forall|i: int, j: int|
            0 <= i < r.nrows_spec() && 0 <= j < r.ncols_spec() implies #[trigger] r.index_spec(i, j)
                == self.index_spec(i, self.ncols_spec() - 1 - j) by {
            assert(r.index_spec(i, j) == u.index_spec(j, i));
            assert(u.index_spec(j, i) == t.index_spec(t.nrows_spec() - 1 - j, i));
        }
        r
    }

    /// The view with the order of both its rows and its columns reversed.
    pub fn reverse_rows_and_cols(self) -> (r: Self)
        requires
            self.row_stride_spec() > isize::MIN,
            self.col_stride_spec() > isize::MIN,
        ensures
            r.data_spec() == self.data_spec(),
            r.conj_spec() == self.conj_spec(),
            r.nrows_spec() == self.nrows_spec(),
            r.ncols_spec() == self.ncols_spec(),
            r.row_stride_spec() == -self.row_stride_spec(),
            r.col_stride_spec() == -self.col_stride_spec(),
            forall|i: int, j: int|
                0 <= i < r.nrows_spec() && 0 <= j < r.ncols_spec() ==> #[trigger] r.index_spec(i, j)
                    == self.index_spec(self.nrows_spec() - 1 - i, self.ncols_spec() - 1 - j),
    {
        let a = self.reverse_rows();
        let r = a.reverse_cols();
        assert forall|i: int, j: int|
            0 <= i < r.nrows_spec() && 0 <= j < r.ncols_spec() implies #[trigger] r.index_spec(i, j)
                == self.index_spec(self.nrows_spec() - 1 - i, self.ncols_spec() - 1 - j) by {
            assert(r.index_spec(i, j) == a.index_spec(i, a.ncols_spec() - 1 - j));
        }
        r
    }

    /// The same view, where its rows are contiguous (row stride 1).
    pub fn try_as_col_major(self) -> (r: Option<Self>)
        ensures
            self.row_stride_spec() == 1 <==> r is Some,
            r matches Some(v) ==> v == self,
    {
        if self.row_stride == 1 {
            Some(self)
        } else {
            None
        }
    }

    /// The same view, where its columns are contiguous (column stride 1).
    pub fn try_as_row_major(self) -> (r: Option<Self>)
        ensures
            self.col_stride_spec() == 1 <==> r is Some,
            r matches Some(v) ==> v == self,
    {
        if self.col_stride == 1 {
            Some(self)
        } else {
            None
        }
    }

    /// A reference to element `(row, col)` as stored in the slice.
    pub fn get(self, row: usize, col: usize) -> (r: &'a T)
        requires
            row < self.nrows_spec(),
            col < self.ncols_spec(),
        ensures
            *r == self.stored(row as int, col as int),
    {
        let p = self.index_of(row, col);
        &self.data[p]
    }

    /// The rows `row_start .. row_end`.
    pub fn get_r(self, row_start: usize, row_end: usize) -> (r: Self)
        requires
            row_start <= row_end <= self.nrows_spec(),
        ensures
            Self::is_block_of(r, self, row_start as int, 0, row_end - row_start, self.ncols_spec()),
    {
        self.subrows(row_start, row_end - row_start)
    }

    /// The columns `col_start .. col_end`.
    pub fn get_c(self, col_start: usize, col_end: usize) -> (r: Self)
        requires
            col_start <= col_end <= self.ncols_spec(),
        ensures
            Self::is_block_of(r, self, 0, col_start as int, self.nrows_spec(), col_end - col_start),
    {
        self.subcols(col_start, col_end - col_start)
    }

    /// A reference to element `(i, j)` as stored in the slice.
    pub fn __at(self, ij: (usize, usize)) -> (r: &'a T)
        requires
            ij.0 < self.nrows_spec(),
            ij.1 < self.ncols_spec(),
        ensures
            *r == self.stored(ij.0 as int, ij.1 as int),
    {
        self.get(ij.0, ij.1)
    }

    /// The four blocks that row `row` and column `col` cut the view into.
    pub fn split_with(self, row: usize, col: usize) -> (r: (Self, Self, Self, Self))
        requires
            row <= self.nrows_spec(),
            col <= self.ncols_spec(),
        ensures
            Self::is_block_of(r.0, self, 0, 0, row as int, col as int),
            Self::is_block_of(r.1, self, 0, col as int, row as int, self.ncols_spec() - col),
            Self::is_block_of(r.2, self, row as int, 0, self.nrows_spec() - row, col as int),
            Self::is_block_of(
                r.3,
                self,
                row as int,
                col as int,
                self.nrows_spec() - row,
                self.ncols_spec() - col,
            ),
    {
        self.split_at(row, col)
    }

    /// The rows above `row`, and the rows from `row` on.
    pub fn split_rows_with(self, row: usize) -> (r: (Self, Self))
        requires
            row <= self.nrows_spec(),
        ensures
            Self::is_block_of(r.0, self, 0, 0, row as int, self.ncols_spec()),
            Self::is_block_of(r.1, self, row as int, 0, self.nrows_spec() - row, self.ncols_spec()),
    {
        self.split_at_row(row)
    }

    /// The columns left of `col`, and the columns from `col` on.
    pub fn split_cols_with(self, col: usize) -> (r: (Self, Self))
        requires
            col <= self.ncols_spec(),
        ensures
            Self::is_block_of(r.0, self, 0, 0, self.nrows_spec(), col as int),
            Self::is_block_of(r.1, self, 0, col as int, self.nrows_spec(), self.ncols_spec() - col),
    {
        self.split_at_col(col)
    }

    /// The main diagonal, as a `min(nrows, ncols) x 1` view.
    pub fn diagonal(self) -> (r: Self)
        requires
            self.row_stride_spec() + self.col_stride_spec() <= isize::MAX,
            self.row_stride_spec() + self.col_stride_spec() >= isize::MIN,
        ensures
            r.data_spec() == self.data_spec(),
            r.conj_spec() == self.conj_spec(),
            r.nrows_spec() == if self.nrows_spec() < self.ncols_spec() {
                self.nrows_spec()
            } else {
                self.ncols_spec()
            },
            r.ncols_spec() == 1,
            forall|i: int| 0 <= i < r.nrows_spec() ==> #[trigger] r.index_spec(i, 0) == self.index_spec(i, i),
    {
        proof {
            use_type_invariant(&self);
        }
        let k = if self.nrows < self.ncols { self.nrows } else { self.ncols };
        let s = self.row_stride + self.col_stride;
        let ghost o = self.offset as int;
        let ghost rs = self.row_stride as int;
        let ghost cs = self.col_stride as int;
        assert forall|i: int, j: int| 0 <= i < k && 0 <= j < 1 implies 0 <= #[trigger] position(
            o,
            i,
            j,
            s as int,
            0,
        ) < self.data@.len() by {
            assert(i * (rs + cs) == i * rs + i * cs) by (nonlinear_arith);
            assert(0 <= position(o, i, i, rs, cs) < self.data@.len());
        }
        let r = MatRef {
            data: self.data,
            offset: self.offset,
            nrows: k,
            ncols: 1,
            row_stride: s,
            col_stride: 0,
            conj: self.conj,
        };
        assert forall|i: int| 0 <= i < r.nrows_spec() implies #[trigger] r.index_spec(i, 0) == self.index_spec(i, i) by {
            assert(i * (rs + cs) == i * rs + i * cs) by (nonlinear_arith);
        }
        r
    }
}


impl<'a, T: ComplexField> MatRef<'a, T> {
    /// Element `(i, j)` as the view reads it: conjugated where the view is.
    pub open spec fn elem(&self, i: int, j: int) -> T {
        if self.conj_spec() {
            T::conj_spec(self.stored(i, j))
        } else {
            self.stored(i, j)
        }
    }

    /// Element `(i, j)`, conjugated where the view is.
    pub fn read(&self, i: usize, j: usize) -> (r: T)
        requires
            i < self.nrows_spec(),
            j < self.ncols_spec(),
        ensures
            r == self.elem(i as int, j as int),
    {
        let p = self.index_of(i, j);
        let v = self.data[p];
        if self.conj {
            T::conj(v)
        } else {
            v
        }
    }

    /// The elements as the view reads them, `conj` applied where asked,
    /// copied column by column into an owned matrix.
    fn copy_out(&self, conj: bool) -> (r: Mat<T>)
        requires
            self.nrows_spec() * self.ncols_spec() <= usize::MAX,
        ensures
            r.wf(),
            r.nrows == self.nrows_spec(),
            r.ncols == self.ncols_spec(),
            forall|i: int, j: int|
                0 <= i < self.nrows_spec() && 0 <= j < self.ncols_spec() ==> #[trigger] r.at(i, j) == if conj {
                    self.elem(i, j)
                } else {
                    self.stored(i, j)
                },
    {
        let m = self.nrows;
        let n = self.ncols;
        let mut data: Vec<T> = Vec::new();
        let mut j: usize = 0;
        while j < n
            invariant
                m == self.nrows_spec(),
                n == self.ncols_spec(),
                m * n <= usize::MAX,
                j <= n,
                data@.len() == j * m,
                forall|r: int, c: int|
                    0 <= r < m && 0 <= c < j ==> #[trigger] data@[ix(r, c, m as int)] == if conj {
                        self.elem(r, c)
                    } else {
                        self.stored(r, c)
                    },
            decreases n - j,
        {
            let ghost start = data@.len();
            let mut i: usize = 0;
            while i < m
                invariant
                    m == self.nrows_spec(),
                    n == self.ncols_spec(),
                    m * n <= usize::MAX,
                    j < n,
                    i <= m,
                    start == j * m,
                    data@.len() == start + i,
                    forall|r: int, c: int|
                        0 <= r < m && 0 <= c < j ==> #[trigger] data@[ix(r, c, m as int)] == if conj {
                            self.elem(r, c)
                        } else {
                            self.stored(r, c)
                        },
                    forall|r: int|
                        0 <= r < i ==> #[trigger] data@[start + r] == if conj {
                            self.elem(r, j as int)
                        } else {
                            self.stored(r, j as int)
                        },
                decreases m - i,
            {
                let ghost before = data@;
                let v = if conj { self.read(i, j) } else { *self.get(i, j) };
                data.push(v);
                proof {
                    assert forall|r: int, c: int| 0 <= r < m && 0 <= c < j implies #[trigger] data@[ix(
                        r,
                        c,
                        m as int,
                    )] == if conj {
                        self.elem(r, c)
                    } else {
                        self.stored(r, c)
                    } by {
                        crate::dense::lemma_ix_bound(r, c, m as int, j as int);
                        assert((m as int) * (j as int) == (j as int) * (m as int)) by (nonlinear_arith);
                        assert(data@ == before.push(v));
                        assert(data@[ix(r, c, m as int)] == before[ix(r, c, m as int)]);
                    }
                }
                i = i + 1;
            }
            proof {
                assert((j + 1) * m == j * m + m) by (nonlinear_arith);
                assert forall|r: int, c: int| 0 <= r < m && 0 <= c < j + 1 implies #[trigger] data@[ix(
                    r,
                    c,
                    m as int,
                )] == if conj {
                    self.elem(r, c)
                } else {
                    self.stored(r, c)
                } by {
                    if c == j {
                        assert(ix(r, c, m as int) == start + r);
                    }
                }
                assert((j as int) * (m as int) <= (n as int) * (m as int)) by (nonlinear_arith)
                    requires
                        j < n,
                ;
            }
            j = j + 1;
        }
        proof {
            assert(n * m == m * n) by (nonlinear_arith);
        }
        Mat::from_column_major(data, m, n)
    }

    /// The stored elements, copied into an owned matrix.
    pub fn cloned(&self) -> (r: Mat<T>)
        requires
            self.nrows_spec() * self.ncols_spec() <= usize::MAX,
        ensures
            r.wf(),
            r.nrows == self.nrows_spec(),
            r.ncols == self.ncols_spec(),
            forall|i: int, j: int|
                0 <= i < self.nrows_spec() && 0 <= j < self.ncols_spec() ==> #[trigger] r.at(i, j)
                    == self.stored(i, j),
    {
        self.copy_out(false)
    }

    /// The elements as the view reads them (conjugated where the view is),
    /// copied into an owned matrix.
    pub fn to_owned(&self) -> (r: Mat<T>)
        requires
            self.nrows_spec() * self.ncols_spec() <= usize::MAX,
        ensures
            r.wf(),
            r.nrows == self.nrows_spec(),
            r.ncols == self.ncols_spec(),
            forall|i: int, j: int|
                0 <= i < self.nrows_spec() && 0 <= j < self.ncols_spec() ==> #[trigger] r.at(i, j)
                    == self.elem(i, j),
    {
        self.copy_out(true)
    }
}

} // verus!
