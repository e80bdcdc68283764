//! Reconstruction of a Hermitian matrix from its Cholesky factor.
//!
//! Given the lower triangular factor `L` of `A = L * L^H`, the lower
//! triangle of `A` is `a[i][j] = L[i][0] * conj(L[j][0]) + ... +
//! L[i][j] * conj(L[j][j])` for `j <= i`; the entries of `L` above its
//! diagonal are not read.
use crate::bidiag::{row_seg, Par};
use crate::dense::{flat, ix, lemma_ix_bound, lemma_ix_inj, Mat};
use crate::field::{dot_rconj, ComplexField};
use crate::stack::{temp_mat_req, temp_mat_scratch, ScratchOverflow, StackReq};
use vstd::prelude::*;

verus! {

/// Entry `(i, j)`, `j <= i`, of `L * L^H`, where `l` holds `L` column by
/// column with `n` rows.
pub open spec fn llt_entry<T: ComplexField>(l: Seq<T>, n: int, i: int, j: int) -> T {
    dot_rconj(row_seg(l, n, i, 0, j + 1), row_seg(l, n, j, 0, j + 1), (j + 1) as nat)
}

/// The scratch requirement of `reconstruct_lower`: none.
pub fn reconstruct_lower_req(dimension: usize) -> (r: Result<StackReq, ScratchOverflow>)
    ensures
        r == Ok::<StackReq, ScratchOverflow>(StackReq { size_bytes: 0, align_bytes: 1 }),
{
    Ok(StackReq { size_bytes: 0, align_bytes: 1 })
}

/// The scratch requirement of `reconstruct_lower_in_place`: an `n x n`
/// temporary matrix.
pub fn reconstruct_lower_in_place_req<T>(dimension: usize) -> (r: Result<StackReq, ScratchOverflow>)
    ensures
        r is Ok <==> temp_mat_req::<T>(dimension as int, dimension as int) is Some,
        r matches Ok(q) ==> temp_mat_req::<T>(dimension as int, dimension as int) == Some(q),
{
    temp_mat_scratch::<T>(dimension, dimension)
}

/// Writes the lower triangle of `L * L^H` into the first `n * n` entries of
/// `dst`, read column by column with `n` rows; other entries are kept.
fn llt_lower_into<T: ComplexField>(dst: &mut Vec<T>, l: &Vec<T>, n: usize)
    requires
        old(dst)@.len() >= n * n,
        l@.len() == n * n,
    ensures
        final(dst)@.len() == old(dst)@.len(),
        forall|p: int| n * n <= p < old(dst)@.len() ==> #[trigger] final(dst)@[p] == old(dst)@[p],
        forall|i: int, j: int|
            0 <= i < n && 0 <= j < n ==> #[trigger] final(dst)@[ix(i, j, n as int)] == if j <= i {
                llt_entry(l@, n as int, i, j)
            } else {
                old(dst)@[ix(i, j, n as int)]
            },
{
    let ghost d0 = dst@;
    let dlen = dst.len();
    let llen = l.len();
    let mut j: usize = 0;
    while j < n
        invariant
            dst@.len() == d0.len(),
            d0.len() >= n * n,
            l@.len() == n * n,
            n * n <= usize::MAX,
            j <= n,
            forall|p: int| n * n <= p < d0.len() ==> #[trigger] dst@[p] == d0[p],
            forall|r: int, c: int|
                0 <= r < n && 0 <= c < n ==> #[trigger] dst@[ix(r, c, n as int)] == if c <= r && c < j {
                    llt_entry(l@, n as int, r, c)
                } else {
                    d0[ix(r, c, n as int)]
                },
        decreases n - j,
    {
        let mut i: usize = j;
        while i < n
            invariant
                dst@.len() == d0.len(),
                d0.len() >= n * n,
                l@.len() == n * n,
                n * n <= usize::MAX,
                j < n,
                j <= i <= n,
                forall|p: int| n * n <= p < d0.len() ==> #[trigger] dst@[p] == d0[p],
                forall|r: int, c: int|
                    0 <= r < n && 0 <= c < n ==> #[trigger] dst@[ix(r, c, n as int)] == if c <= r && (c
                        < j || (c == j && r < i)) {
                        llt_entry(l@, n as int, r, c)
                    } else {
                        d0[ix(r, c, n as int)]
                    },
            decreases n - i,
        {
            let ghost u = row_seg(l@, n as int, i as int, 0, j + 1);
            let ghost v = row_seg(l@, n as int, j as int, 0, j + 1);
            let mut acc = T::zero();
            let mut t: usize = 0;
            while t <= j
                invariant
                    l@.len() == n * n,
                    n * n <= usize::MAX,
                    j <= i < n,
                    t <= j + 1,
                    u == row_seg(l@, n as int, i as int, 0, j + 1),
                    v == row_seg(l@, n as int, j as int, 0, j + 1),
                    acc == dot_rconj(u, v, t as nat),
                decreases j + 1 - t,
            {
                let p = flat(i, t, n, n);
                let q = flat(j, t, n, n);
                assert(u[t as int] == l@[p as int]);
                assert(v[t as int] == l@[q as int]);
                acc = T::add(acc, T::mul(l[p], T::conj(l[q])));
                t = t + 1;
            }
            let pd = flat(i, j, n, n);
            dst.set(pd, acc);
            proof {
                assert forall|r: int, c: int| 0 <= r < n && 0 <= c < n implies #[trigger] dst@[ix(
                    r,
                    c,
                    n as int,
                )] == if c <= r && (c < j || (c == j && r < i + 1)) {
                    llt_entry(l@, n as int, r, c)
                } else {
                    d0[ix(r, c, n as int)]
                } by {
                    lemma_ix_bound(r, c, n as int, n as int);
                    if ix(r, c, n as int) == pd {
                        lemma_ix_inj(r, c, i as int, j as int, n as int);
                    }
                }
            }
            i = i + 1;
        }
        j = j + 1;
    }
}

/// Writes the lower triangle (with the diagonal) of `L * L^H` into `dst`,
/// where `L` is the lower triangle of `cholesky_factor`; the entries of
/// `dst` above its diagonal are kept.
pub fn reconstruct_lower<T: ComplexField>(dst: &mut Mat<T>, cholesky_factor: &Mat<T>, parallelism: Par)
    requires
        old(dst).wf(),
        cholesky_factor.wf(),
        cholesky_factor.nrows == cholesky_factor.ncols,
        old(dst).nrows == cholesky_factor.nrows,
        old(dst).ncols == cholesky_factor.ncols,
    ensures
        final(dst).wf(),
        final(dst).nrows == old(dst).nrows,
        final(dst).ncols == old(dst).ncols,
        forall|i: int, j: int|
            0 <= i < old(dst).nrows && 0 <= j < old(dst).ncols ==> #[trigger] final(dst).at(i, j)
                == if j <= i {
                llt_entry(cholesky_factor.data@, cholesky_factor.nrows as int, i, j)
            } else {
                old(dst).at(i, j)
            },
{
    let n = cholesky_factor.nrows;
    llt_lower_into(&mut dst.data, &cholesky_factor.data, n);
}

/// Replaces the lower triangle (with the diagonal) of `cholesky_factor` by
/// that of `L * L^H`, where `L` is its lower triangle; the entries above its
/// diagonal are kept. `stack` is scratch space of at least `n * n` entries.
pub fn reconstruct_lower_in_place<T: ComplexField>(
    cholesky_factor: &mut Mat<T>,
    parallelism: Par,
    stack: &mut Vec<T>,
)
    requires
        old(cholesky_factor).wf(),
        old(cholesky_factor).nrows == old(cholesky_factor).ncols,
        old(stack)@.len() >= old(cholesky_factor).nrows * old(cholesky_factor).nrows,
    ensures
        final(cholesky_factor).wf(),
        final(cholesky_factor).nrows == old(cholesky_factor).nrows,
        final(cholesky_factor).ncols == old(cholesky_factor).ncols,
        final(stack)@.len() == old(stack)@.len(),
        forall|i: int, j: int|
            0 <= i < old(cholesky_factor).nrows && 0 <= j < old(cholesky_factor).ncols
                ==> #[trigger] final(cholesky_factor).at(i, j) == if j <= i {
                llt_entry(old(cholesky_factor).data@, old(cholesky_factor).nrows as int, i, j)
            } else {
                old(cholesky_factor).at(i, j)
            },
{
    let n = cholesky_factor.nrows;
    let ghost l0 = cholesky_factor.data@;
    llt_lower_into(stack, &cholesky_factor.data, n);
    let ghost tmp = stack@;
    let llen = cholesky_factor.data.len();
    let mut j: usize = 0;
    while j < n
        invariant
            cholesky_factor.wf(),
            cholesky_factor.nrows == n,
            cholesky_factor.ncols == n,
            l0.len() == n * n,
            n * n <= usize::MAX,
            stack@ == tmp,
            tmp.len() >= n * n,
            j <= n,
            forall|r: int, c: int|
                0 <= r < n && 0 <= c < n ==> #[trigger] tmp[ix(r, c, n as int)] == if c <= r {
                    llt_entry(l0, n as int, r, c)
                } else {
                    tmp[ix(r, c, n as int)]
                },
            forall|r: int, c: int|
                0 <= r < n && 0 <= c < n ==> #[trigger] cholesky_factor.data@[ix(r, c, n as int)] == if c
                    <= r && c < j {
                    llt_entry(l0, n as int, r, c)
                } else {
                    l0[ix(r, c, n as int)]
                },
        decreases n - j,
    {
        let mut i: usize = j;
        while i < n
            invariant
                cholesky_factor.wf(),
                cholesky_factor.nrows == n,
                cholesky_factor.ncols == n,
                l0.len() == n * n,
                n * n <= usize::MAX,
                stack@ == tmp,
                tmp.len() >= n * n,
                j < n,
                j <= i <= n,
                forall|r: int, c: int|
                    0 <= r < n && 0 <= c < n ==> #[trigger] tmp[ix(r, c, n as int)] == if c <= r {
                        llt_entry(l0, n as int, r, c)
                    } else {
                        tmp[ix(r, c, n as int)]
                    },
                forall|r: int, c: int|
                    0 <= r < n && 0 <= c < n ==> #[trigger] cholesky_factor.data@[ix(r, c, n as int)]
                        == if c <= r && (c < j || (c == j && r < i)) {
                        llt_entry(l0, n as int, r, c)
                    } else {
                        l0[ix(r, c, n as int)]
                    },
            decreases n - i,
        {
            let p = flat(i, j, n, n);
            let v = stack[p];
            cholesky_factor.data.set(p, v);
            proof {
                assert forall|r: int, c: int| 0 <= r < n && 0 <= c < n implies #[trigger] cholesky_factor.data@[ix(
                    r,
                    c,
                    n as int,
                )] == if c <= r && (c < j || (c == j && r < i + 1)) {
                    llt_entry(l0, n as int, r, c)
                } else {
                    l0[ix(r, c, n as int)]
                } by {
                    lemma_ix_bound(r, c, n as int, n as int);
                    if ix(r, c, n as int) == p {
                        lemma_ix_inj(r, c, i as int, j as int, n as int);
                    }
                }
            }
            i = i + 1;
        }
        j = j + 1;
    }
}

} // verus!
