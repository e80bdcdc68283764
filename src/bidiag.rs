//! Reduction of a dense matrix to upper bidiagonal form by two-sided
//! Householder reflections, with the trailing-block updates deferred and
//! fused into one pass per step.
//!
//! The matrix `a` is `m x n`, stored column by column. The scratch vector
//! `w` has at least `n + m` entries: `w[j]` for `j < n` is the row vector `y`, and
//! `w[n + i]` for `i < m` is the column vector `z`.
use crate::dense::{flat, ix, lemma_ix_bound, lemma_ix_cover, lemma_ix_inj, Mat};
use crate::field::{dot_conj, dot_rconj, sum_abs2, ComplexField};
use crate::householder::{
    factor_entry, on_line, hh_inv, hh_tau, line_is_trivial, line_tail_sq, make_householder_in_place,
    reflected, upgrade_householder_factor,
};
use vstd::prelude::*;

verus! {

/// `a - b * c - d`.
pub open spec fn sub_mul_sub<T: ComplexField>(a: T, b: T, c: T, d: T) -> T {
    T::sub_spec(T::sub_spec(a, T::mul_spec(b, c)), d)
}

/// Element `(i, j)` after the pending rank-2 correction of step `k - 1`
/// is applied to the pivot column and the pivot row of step `k`.
pub open spec fn pivot_corrected<T: ComplexField>(
    a: Seq<T>,
    w: Seq<T>,
    m: int,
    n: int,
    k: int,
    i: int,
    j: int,
) -> T {
    if j == k && k <= i {
        sub_mul_sub(a[ix(i, k, m)], a[ix(i, k - 1, m)], w[k], w[n + i])
    } else if i == k && k < j {
        sub_mul_sub(a[ix(k, j, m)], a[ix(k, k - 1, m)], w[j], T::mul_spec(w[n + k], a[ix(k - 1, j, m)]))
    } else {
        a[ix(i, j, m)]
    }
}

/// Applies to column `k` (from row `k` down) and row `k` (right of the
/// diagonal) the correction that step `k - 1` left pending.
fn apply_pivot_correction<T: ComplexField>(a: &mut Vec<T>, m: usize, n: usize, k: usize, w: &Vec<T>)
    requires
        old(a)@.len() == m * n,
        0 < k < m,
        k < n,
        w@.len() >= n + m,
    ensures
        final(a)@.len() == m * n,
        forall|i: int, j: int|
            0 <= i < m && 0 <= j < n ==> #[trigger] final(a)@[ix(i, j, m as int)] == pivot_corrected(
                old(a)@,
                w@,
                m as int,
                n as int,
                k as int,
                i,
                j,
            ),
{
    let ghost a0 = a@;
    let len = a.len();
    let wlen = w.len();
    let y1 = w[k];
    let mut i: usize = k;
    while i < m
        invariant
            a@.len() == m * n,
            a0.len() == m * n,
            m * n <= usize::MAX,
            n + m <= usize::MAX,
            k <= i <= m,
            0 < k < m,
            k < n,
            w@.len() >= n + m,
            y1 == w@[k as int],
            forall|r: int, c: int|
                0 <= r < m && 0 <= c < n ==> #[trigger] a@[ix(r, c, m as int)] == if c == k && r
                    < i {
                    pivot_corrected(a0, w@, m as int, n as int, k as int, r, c)
                } else {
                    a0[ix(r, c, m as int)]
                },
        decreases m - i,
    {
        let p = flat(i, k, m, n);
        let q = flat(i, k - 1, m, n);
        let v = T::sub(T::sub(a[p], T::mul(a[q], y1)), w[n + i]);
        a.set(p, v);
        proof {
            assert forall|r: int, c: int| 0 <= r < m && 0 <= c < n implies #[trigger] a@[ix(
                r,
                c,
                m as int,
            )] == if c == k && r < i + 1 {
                pivot_corrected(a0, w@, m as int, n as int, k as int, r, c)
            } else {
                a0[ix(r, c, m as int)]
            } by {
                lemma_ix_bound(r, c, m as int, n as int);
                if ix(r, c, m as int) == p {
                    lemma_ix_inj(r, c, i as int, k as int, m as int);
                }
            }
        }
        i = i + 1;
    }
    let z1 = w[n + k];
    let pk = flat(k, k - 1, m, n);
    let mut j: usize = k + 1;
    while j < n
        invariant
            a@.len() == m * n,
            a0.len() == m * n,
            m * n <= usize::MAX,
            n + m <= usize::MAX,
            k < j <= n,
            0 < k < m,
            w@.len() >= n + m,
            z1 == w@[n + k],
            pk == ix(k as int, k - 1, m as int),
            pk < m * n,
            forall|r: int, c: int|
                0 <= r < m && 0 <= c < n ==> #[trigger] a@[ix(r, c, m as int)] == if (c == k && k
                    <= r) || (r == k && k < c < j) {
                    pivot_corrected(a0, w@, m as int, n as int, k as int, r, c)
                } else {
                    a0[ix(r, c, m as int)]
                },
        decreases n - j,
    {
        let p = flat(k, j, m, n);
        let q = flat(k - 1, j, m, n);
        let v = T::sub(T::sub(a[p], T::mul(a[pk], w[j])), T::mul(z1, a[q]));
        a.set(p, v);
        proof {
            assert forall|r: int, c: int| 0 <= r < m && 0 <= c < n implies #[trigger] a@[ix(
                r,
                c,
                m as int,
            )] == if (c == k && k <= r) || (r == k && k < c < j + 1) {
                pivot_corrected(a0, w@, m as int, n as int, k as int, r, c)
            } else {
                a0[ix(r, c, m as int)]
            } by {
                lemma_ix_bound(r, c, m as int, n as int);
                if ix(r, c, m as int) == p {
                    lemma_ix_inj(r, c, k as int, j as int, m as int);
                }
            }
        }
        j = j + 1;
    }
}


/// Row `i`, columns `j0 .. j1`.
pub open spec fn row_seg<T>(a: Seq<T>, m: int, i: int, j0: int, j1: int) -> Seq<T> {
    Seq::new((j1 - j0) as nat, |t: int| a[ix(i, j0 + t, m)])
}

/// Column `j`, rows `i0 .. i1`.
pub open spec fn col_seg<T>(a: Seq<T>, m: int, j: int, i0: int, i1: int) -> Seq<T> {
    Seq::new((i1 - i0) as nat, |t: int| a[ix(i0 + t, j, m)])
}

/// The new `y[j]` of step `k`: `(y[j] + a[k][j]) * real(tl_inv)`.
pub open spec fn rescaled<T: ComplexField>(a: Seq<T>, w: Seq<T>, m: int, k: int, j: int, tl_inv: T) -> T {
    T::mul_real_spec(T::add_spec(w[j], a[ix(k, j, m)]), tl_inv)
}

/// Rescales `y[k+1 ..]` by the left reflector's scale and subtracts the
/// result from row `k` right of the diagonal.
fn rescale_y<T: ComplexField>(a: &mut Vec<T>, m: usize, n: usize, k: usize, w: &mut Vec<T>, tl_inv: T)
    requires
        old(a)@.len() == m * n,
        k < m,
        k < n,
        old(w)@.len() >= n + m,
    ensures
        final(a)@.len() == m * n,
        final(w)@.len() == old(w)@.len(),
        forall|t: int|
            0 <= t < old(w)@.len() ==> #[trigger] final(w)@[t] == if k < t < n {
                rescaled(old(a)@, old(w)@, m as int, k as int, t, tl_inv)
            } else {
                old(w)@[t]
            },
        forall|i: int, j: int|
            0 <= i < m && 0 <= j < n ==> #[trigger] final(a)@[ix(i, j, m as int)] == if i == k && k
                < j {
                T::sub_spec(old(a)@[ix(i, j, m as int)], rescaled(old(a)@, old(w)@, m as int, k as int, j, tl_inv))
            } else {
                old(a)@[ix(i, j, m as int)]
            },
{
    let ghost a0 = a@;
    let ghost w0 = w@;
    let len = a.len();
    let wlen = w.len();
    let mut j: usize = k + 1;
    while j < n
        invariant
            a@.len() == m * n,
            a0.len() == m * n,
            m * n <= usize::MAX,
            n + m <= usize::MAX,
            k < m,
            k < j <= n,
            w@.len() == w0.len(),
            w0.len() >= n + m,
            forall|t: int|
                0 <= t < w0.len() ==> #[trigger] w@[t] == if k < t < j {
                    rescaled(a0, w0, m as int, k as int, t, tl_inv)
                } else {
                    w0[t]
                },
            forall|r: int, c: int|
                0 <= r < m && 0 <= c < n ==> #[trigger] a@[ix(r, c, m as int)] == if r == k && k < c
                    < j {
                    T::sub_spec(a0[ix(r, c, m as int)], rescaled(a0, w0, m as int, k as int, c, tl_inv))
                } else {
                    a0[ix(r, c, m as int)]
                },
        decreases n - j,
    {
        let p = flat(k, j, m, n);
        let y = T::mul_real(T::add(w[j], a[p]), tl_inv);
        w.set(j, y);
        let v = T::sub(a[p], y);
        a.set(p, v);
        proof {
            assert forall|r: int, c: int| 0 <= r < m && 0 <= c < n implies #[trigger] a@[ix(
                r,
                c,
                m as int,
            )] == if r == k && k < c < j + 1 {
                T::sub_spec(a0[ix(r, c, m as int)], rescaled(a0, w0, m as int, k as int, c, tl_inv))
            } else {
                a0[ix(r, c, m as int)]
            } by {
                lemma_ix_bound(r, c, m as int, n as int);
                if ix(r, c, m as int) == p {
                    lemma_ix_inj(r, c, k as int, j as int, m as int);
                }
            }
        }
        j = j + 1;
    }
}

/// The 2-norm of row `k` right of the diagonal, from the first entry on.
pub open spec fn row_norm<T: ComplexField>(a: Seq<T>, m: int, n: int, k: int) -> T {
    T::sqrt_spec(sum_abs2(row_seg(a, m, k, k + 1, n), (n - k - 1) as nat))
}

/// Divides row `k` right of the diagonal by its 2-norm, unless that norm is
/// zero, and returns the norm.
fn normalize_row<T: ComplexField>(a: &mut Vec<T>, m: usize, n: usize, k: usize) -> (norm: T)
    requires
        old(a)@.len() == m * n,
        k < m,
        k < n,
    ensures
        final(a)@.len() == m * n,
        norm == row_norm(old(a)@, m as int, n as int, k as int),
        forall|i: int, j: int|
            0 <= i < m && 0 <= j < n ==> #[trigger] final(a)@[ix(i, j, m as int)] == if i == k && k
                < j && !T::is_zero_spec(norm) {
                T::mul_real_spec(old(a)@[ix(i, j, m as int)], T::recip_spec(norm))
            } else {
                old(a)@[ix(i, j, m as int)]
            },
{
    let ghost a0 = a@;
    let ghost seg = row_seg(a0, m as int, k as int, k + 1, n as int);
    let len = a.len();
    let mut acc = T::zero();
    let mut j: usize = k + 1;
    while j < n
        invariant
            a@ == a0,
            a0.len() == m * n,
            m * n <= usize::MAX,
            k < m,
            k < j <= n,
            seg == row_seg(a0, m as int, k as int, k + 1, n as int),
            acc == sum_abs2(seg, (j - k - 1) as nat),
        decreases n - j,
    {
        let p = flat(k, j, m, n);
        assert(seg[j - k - 1] == a0[p as int]);
        acc = T::add(acc, T::abs2(a[p]));
        j = j + 1;
    }
    let norm = T::sqrt(acc);
    let inv = T::recip(norm);
    if !T::is_zero(norm) {
        let mut j: usize = k + 1;
        while j < n
            invariant
                a@.len() == m * n,
                a0.len() == m * n,
                m * n <= usize::MAX,
                k < m,
                k < j <= n,
                inv == T::recip_spec(norm),
                forall|r: int, c: int|
                    0 <= r < m && 0 <= c < n ==> #[trigger] a@[ix(r, c, m as int)] == if r == k && k
                        < c < j {
                        T::mul_real_spec(a0[ix(r, c, m as int)], inv)
                    } else {
                        a0[ix(r, c, m as int)]
                    },
            decreases n - j,
        {
            let p = flat(k, j, m, n);
            let v = T::mul_real(a[p], inv);
            a.set(p, v);
            proof {
                assert forall|r: int, c: int| 0 <= r < m && 0 <= c < n implies #[trigger] a@[ix(
                    r,
                    c,
                    m as int,
                )] == if r == k && k < c < j + 1 {
                    T::mul_real_spec(a0[ix(r, c, m as int)], inv)
                } else {
                    a0[ix(r, c, m as int)]
                } by {
                    lemma_ix_bound(r, c, m as int, n as int);
                    if ix(r, c, m as int) == p {
                        lemma_ix_inj(r, c, k as int, j as int, m as int);
                    }
                }
            }
            j = j + 1;
        }
    }
    norm
}

/// `conj(a[k+1][k]) * a[k+1][j] + ... + conj(a[m-1][k]) * a[m-1][j]`: the
/// reflector stored below the diagonal of column `k`, applied to column `j`.
pub open spec fn col_dot<T: ComplexField>(a: Seq<T>, m: int, k: int, j: int) -> T {
    dot_conj(col_seg(a, m, k, k + 1, m), col_seg(a, m, j, k + 1, m), (m - k - 1) as nat)
}

fn col_dot_exec<T: ComplexField>(a: &Vec<T>, m: usize, n: usize, k: usize, j: usize) -> (r: T)
    requires
        a@.len() == m * n,
        k < m,
        k < n,
        j < n,
    ensures
        r == col_dot(a@, m as int, k as int, j as int),
{
    let len = a.len();
    let ghost u = col_seg(a@, m as int, k as int, k + 1, m as int);
    let ghost v = col_seg(a@, m as int, j as int, k + 1, m as int);
    let mut acc = T::zero();
    let mut i: usize = k + 1;
    while i < m
        invariant
            a@.len() == m * n,
            m * n <= usize::MAX,
            k < i <= m,
            k < n,
            j < n,
            u == col_seg(a@, m as int, k as int, k + 1, m as int),
            v == col_seg(a@, m as int, j as int, k + 1, m as int),
            acc == dot_conj(u, v, (i - k - 1) as nat),
        decreases m - i,
    {
        let p = flat(i, k, m, n);
        let q = flat(i, j, m, n);
        assert(u[i - k - 1] == a@[p as int]);
        assert(v[i - k - 1] == a@[q as int]);
        acc = T::add(acc, T::mul(T::conj(a[p]), a[q]));
        i = i + 1;
    }
    acc
}

/// `y[j] = col_dot(a, k, j)` for every `j` right of column `k`: the first
/// step's product of the left reflector with the trailing block.
fn first_step_product<T: ComplexField>(a: &Vec<T>, m: usize, n: usize, k: usize, w: &mut Vec<T>)
    requires
        a@.len() == m * n,
        k < m,
        k < n,
        old(w)@.len() >= n + m,
    ensures
        final(w)@.len() == old(w)@.len(),
        forall|t: int|
            0 <= t < old(w)@.len() ==> #[trigger] final(w)@[t] == if k < t < n {
                col_dot(a@, m as int, k as int, t)
            } else {
                old(w)@[t]
            },
{
    let ghost w0 = w@;
    let mut j: usize = k + 1;
    while j < n
        invariant
            a@.len() == m * n,
            k < m,
            k < j <= n,
            w@.len() == w0.len(),
            w0.len() >= n + m,
            forall|t: int|
                0 <= t < w0.len() ==> #[trigger] w@[t] == if k < t < j {
                    col_dot(a@, m as int, k as int, t)
                } else {
                    w0[t]
                },
        decreases n - j,
    {
        let d = col_dot_exec(a, m, n, k, j);
        w.set(j, d);
        j = j + 1;
    }
}

/// `a[i][k+1] * conj(a[k][k+1]) + ... + a[i][n-1] * conj(a[k][n-1])`: row
/// `i` of the trailing block times the adjoint of row `k`.
pub open spec fn row_dot<T: ComplexField>(a: Seq<T>, m: int, n: int, k: int, i: int) -> T {
    dot_rconj(row_seg(a, m, i, k + 1, n), row_seg(a, m, k, k + 1, n), (n - k - 1) as nat)
}

/// `z[i] = row_dot(a, k, i)` for every `i` below row `k`.
fn trailing_times_row<T: ComplexField>(a: &Vec<T>, m: usize, n: usize, k: usize, w: &mut Vec<T>)
    requires
        a@.len() == m * n,
        k < m,
        k < n,
        old(w)@.len() >= n + m,
    ensures
        final(w)@.len() == old(w)@.len(),
        forall|t: int|
            0 <= t < old(w)@.len() ==> #[trigger] final(w)@[t] == if n + k < t < n + m {
                row_dot(a@, m as int, n as int, k as int, t - n)
            } else {
                old(w)@[t]
            },
{
    let ghost w0 = w@;
    let len = a.len();
    let wlen = w.len();
    let mut i: usize = k + 1;
    while i < m
        invariant
            a@.len() == m * n,
            m * n <= usize::MAX,
            n + m <= usize::MAX,
            k < i <= m,
            k < n,
            w@.len() == w0.len(),
            w0.len() >= n + m,
            forall|t: int|
                0 <= t < w0.len() ==> #[trigger] w@[t] == if n + k < t < n + i {
                    row_dot(a@, m as int, n as int, k as int, t - n)
                } else {
                    w0[t]
                },
        decreases m - i,
    {
        let ghost u = row_seg(a@, m as int, i as int, k + 1, n as int);
        let ghost v = row_seg(a@, m as int, k as int, k + 1, n as int);
        let mut acc = T::zero();
        let mut j: usize = k + 1;
        while j < n
            invariant
                a@.len() == m * n,
                m * n <= usize::MAX,
                k < i < m,
                k < j <= n,
                u == row_seg(a@, m as int, i as int, k + 1, n as int),
                v == row_seg(a@, m as int, k as int, k + 1, n as int),
                acc == dot_rconj(u, v, (j - k - 1) as nat),
            decreases n - j,
        {
            let p = flat(i, j, m, n);
            let q = flat(k, j, m, n);
            assert(u[j - k - 1] == a@[p as int]);
            assert(v[j - k - 1] == a@[q as int]);
            acc = T::add(acc, T::mul(a[p], T::conj(a[q])));
            j = j + 1;
        }
        w.set(n + i, acc);
        i = i + 1;
    }
}


/// Element `(i, j)` of the trailing block after the two rank-1 corrections
/// of step `k - 1`: `a[i][j] - up[i] * y[j] - z[i] * vp[j]`, where `up` is
/// column `k - 1`, `vp` is row `k - 1`, `y = w[.. n]` and `z = w[n ..]`.
pub open spec fn fused_entry<T: ComplexField>(a: Seq<T>, w: Seq<T>, m: int, n: int, k: int, i: int, j: int) -> T {
    sub_mul_sub(a[ix(i, j, m)], a[ix(i, k - 1, m)], w[j], T::mul_spec(w[n + i], a[ix(k - 1, j, m)]))
}

/// Column `j` of the trailing block (rows `k + 1 ..`) after the corrections.
pub open spec fn fused_col<T: ComplexField>(a: Seq<T>, w: Seq<T>, m: int, n: int, k: int, j: int) -> Seq<T> {
    Seq::new((m - k - 1) as nat, |t: int| fused_entry(a, w, m, n, k, k + 1 + t, j))
}

/// `a1` is `a0` with the columns `cb .. ce` of the trailing block below row
/// `k` corrected.
pub open spec fn fused_block_done<T: ComplexField>(
    a0: Seq<T>,
    w0: Seq<T>,
    a1: Seq<T>,
    m: int,
    n: int,
    k: int,
    cb: int,
    ce: int,
) -> bool {
    forall|i: int, j: int|
        0 <= i < m && 0 <= j < n ==> #[trigger] a1[ix(i, j, m)] == if k < i && cb <= j < ce {
            fused_entry(a0, w0, m, n, k, i, j)
        } else {
            a0[ix(i, j, m)]
        }
}

/// What the fused kernel leaves after it ran on the columns `cb .. ce` of
/// step `k`: those columns of the trailing block corrected, and `y[j]` for
/// those columns the product of the left reflector with the corrected
/// column; nothing else changed.
pub open spec fn fused_post<T: ComplexField>(
    a0: Seq<T>,
    w0: Seq<T>,
    a1: Seq<T>,
    w1: Seq<T>,
    m: int,
    n: int,
    k: int,
    cb: int,
    ce: int,
) -> bool {
    &&& a1.len() == m * n
    &&& w1.len() == w0.len()
    &&& fused_block_done(a0, w0, a1, m, n, k, cb, ce)
    &&& forall|t: int|
        0 <= t < w0.len() ==> #[trigger] w1[t] == if cb <= t < ce {
            col_dot(a1, m, k, t)
        } else {
            w0[t]
        }
}

proof fn lemma_col_dot_fused<T: ComplexField>(
    a0: Seq<T>,
    w0: Seq<T>,
    a1: Seq<T>,
    m: int,
    n: int,
    k: int,
    cb: int,
    ce: int,
    t: int,
)
    requires
        0 < k < m,
        k + 1 <= cb <= t < ce <= n,
        fused_block_done(a0, w0, a1, m, n, k, cb, ce),
    ensures
        col_dot(a1, m, k, t) == dot_conj(col_seg(a0, m, k, k + 1, m), fused_col(a0, w0, m, n, k, t), (m - k - 1) as nat),
{
    assert forall|s: int| 0 <= s < m - k - 1 implies #[trigger] col_seg(a1, m, k, k + 1, m)[s] == col_seg(a0, m, k, k + 1, m)[s] by {
        assert(a1[ix(k + 1 + s, k, m)] == a0[ix(k + 1 + s, k, m)]);
    }
    assert forall|s: int| 0 <= s < m - k - 1 implies #[trigger] col_seg(a1, m, t, k + 1, m)[s] == fused_col(a0, w0, m, n, k, t)[s] by {
        assert(a1[ix(k + 1 + s, t, m)] == fused_entry(a0, w0, m, n, k, k + 1 + s, t));
    }
    assert(col_seg(a1, m, k, k + 1, m) =~= col_seg(a0, m, k, k + 1, m));
    assert(col_seg(a1, m, t, k + 1, m) =~= fused_col(a0, w0, m, n, k, t));
}

/// Applies the pending corrections of step `k - 1` to the columns `cb .. ce`
/// of the trailing block below row `k`, and sets `y[j]` for those columns to
/// the product of the left reflector of step `k` (column `k` below the
/// diagonal) with the corrected column, in one pass over each column.
fn bidiag_fused_op<T: ComplexField>(
    a: &mut Vec<T>,
    m: usize,
    n: usize,
    k: usize,
    w: &mut Vec<T>,
    cb: usize,
    ce: usize,
)
    requires
        old(a)@.len() == m * n,
        0 < k < m,
        k + 1 <= cb <= ce <= n,
        old(w)@.len() >= n + m,
    ensures
        fused_post(old(a)@, old(w)@, final(a)@, final(w)@, m as int, n as int, k as int, cb as int, ce as int),
{
    let ghost a0 = a@;
    let ghost w0 = w@;
    let len = a.len();
    let wlen = w.len();
    let mut j: usize = cb;
    while j < ce
        invariant
            a@.len() == m * n,
            a0.len() == m * n,
            m * n <= usize::MAX,
            n + m <= usize::MAX,
            0 < k < m,
            k + 1 <= cb <= j <= ce <= n,
            w@.len() == w0.len(),
            w0.len() >= n + m,
            fused_block_done(a0, w0, a@, m as int, n as int, k as int, cb as int, j as int),
            forall|t: int|
                0 <= t < w0.len() ==> #[trigger] w@[t] == if cb <= t < j {
                    dot_conj(
                        col_seg(a0, m as int, k as int, k + 1, m as int),
                        fused_col(a0, w0, m as int, n as int, k as int, t),
                        (m - k - 1) as nat,
                    )
                } else {
                    w0[t]
                },
        decreases ce - j,
    {
        let yj = w[j];
        let q = flat(k - 1, j, m, n);
        let vj = a[q];
        let mut i: usize = k + 1;
        while i < m
            invariant
                a@.len() == m * n,
                a0.len() == m * n,
                m * n <= usize::MAX,
                n + m <= usize::MAX,
                0 < k < m,
                k < i <= m,
                k + 1 <= cb <= j < ce <= n,
                w@.len() == w0.len(),
                w0.len() >= n + m,
                yj == w0[j as int],
                vj == a0[ix(k - 1, j as int, m as int)],
                forall|t: int| 0 <= t < w0.len() && !(cb <= t < j) ==> #[trigger] w@[t] == w0[t],
                forall|r: int, c: int|
                    0 <= r < m && 0 <= c < n ==> #[trigger] a@[ix(r, c, m as int)] == if k < r && ((
                    cb <= c < j) || (c == j && r < i)) {
                        fused_entry(a0, w0, m as int, n as int, k as int, r, c)
                    } else {
                        a0[ix(r, c, m as int)]
                    },
            decreases m - i,
        {
            let p = flat(i, j, m, n);
            let up = flat(i, k - 1, m, n);
            let v = T::sub(T::sub(a[p], T::mul(a[up], yj)), T::mul(w[n + i], vj));
            a.set(p, v);
            proof {
                assert forall|r: int, c: int| 0 <= r < m && 0 <= c < n implies #[trigger] a@[ix(
                    r,
                    c,
                    m as int,
                )] == if k < r && ((cb <= c < j) || (c == j && r < i + 1)) {
                    fused_entry(a0, w0, m as int, n as int, k as int, r, c)
                } else {
                    a0[ix(r, c, m as int)]
                } by {
                    lemma_ix_bound(r, c, m as int, n as int);
                    if ix(r, c, m as int) == p {
                        lemma_ix_inj(r, c, i as int, j as int, m as int);
                    }
                }
            }
            i = i + 1;
        }
        let d = col_dot_exec(a, m, n, k, j);
        proof {
            lemma_col_dot_fused(a0, w0, a@, m as int, n as int, k as int, cb as int, j + 1, j as int);
        }
        w.set(j, d);
        j = j + 1;
    }
    proof {
        assert forall|t: int| 0 <= t < w0.len() implies #[trigger] w@[t] == if cb <= t < ce {
            col_dot(a@, m as int, k as int, t)
        } else {
            w0[t]
        } by {
            if cb <= t < ce {
                lemma_col_dot_fused(a0, w0, a@, m as int, n as int, k as int, cb as int, ce as int, t);
            }
        }
    }
}


/// The fused kernel's outcome is determined by its inputs: two runs on the
/// same matrix, vectors and columns leave the same matrix and vectors.
pub proof fn lemma_fused_post_unique<T: ComplexField>(
    a0: Seq<T>,
    w0: Seq<T>,
    a1: Seq<T>,
    w1: Seq<T>,
    a2: Seq<T>,
    w2: Seq<T>,
    m: int,
    n: int,
    k: int,
    cb: int,
    ce: int,
)
    requires
        0 <= m,
        0 <= n,
        fused_post(a0, w0, a1, w1, m, n, k, cb, ce),
        fused_post(a0, w0, a2, w2, m, n, k, cb, ce),
    ensures
        a1 == a2,
        w1 == w2,
{
    assert forall|p: int| 0 <= p < a1.len() implies a1[p] == a2[p] by {
        lemma_ix_cover(p, m, n);
        assert(a1[ix(p % m, p / m, m)] == a2[ix(p % m, p / m, m)]);
    }
    assert(a1 =~= a2);
    assert forall|t: int| 0 <= t < w1.len() implies w1[t] == w2[t] by {
        assert(w1[t] == w2[t]);
    }
    assert(w1 =~= w2);
}

/// Running the fused kernel on the columns `cb .. c`, then on `c .. ce`,
/// meets the contract of one run on `cb .. ce`: splitting the trailing
/// block by columns changes nothing in the result.
pub proof fn lemma_fused_split<T: ComplexField>(
    a0: Seq<T>,
    w0: Seq<T>,
    a1: Seq<T>,
    w1: Seq<T>,
    a2: Seq<T>,
    w2: Seq<T>,
    m: int,
    n: int,
    k: int,
    cb: int,
    c: int,
    ce: int,
)
    requires
        0 < k < m,
        k + 1 <= cb <= c <= ce <= n,
        a0.len() == m * n,
        w0.len() >= n + m,
        fused_post(a0, w0, a1, w1, m, n, k, cb, c),
        fused_post(a1, w1, a2, w2, m, n, k, c, ce),
    ensures
        fused_post(a0, w0, a2, w2, m, n, k, cb, ce),
{
    assert forall|i: int, j: int| 0 <= i < m && 0 <= j < n implies #[trigger] a2[ix(i, j, m)] == if k < i
        && cb <= j < ce {
        fused_entry(a0, w0, m, n, k, i, j)
    } else {
        a0[ix(i, j, m)]
    } by {
        if k < i && c <= j < ce {
            assert(a1[ix(i, j, m)] == a0[ix(i, j, m)]);
            assert(a1[ix(i, k - 1, m)] == a0[ix(i, k - 1, m)]);
            assert(a1[ix(k - 1, j, m)] == a0[ix(k - 1, j, m)]);
            assert(w1[j] == w0[j]);
            assert(w1[n + i] == w0[n + i]);
        }
    }
    assert forall|t: int| 0 <= t < w0.len() implies #[trigger] w2[t] == if cb <= t < ce {
        col_dot(a2, m, k, t)
    } else {
        w0[t]
    } by {
        if cb <= t < c {
            lemma_col_dot_fused(a0, w0, a1, m, n, k, cb, c, t);
            lemma_col_dot_fused(a0, w0, a2, m, n, k, cb, ce, t);
        }
    }
}

/// Runs the fused kernel on the columns `cb .. ce`, cut into `parts`
/// consecutive ranges of near-equal width (the wider ones first), one
/// range after another.
fn bidiag_fused_op_partitioned<T: ComplexField>(
    a: &mut Vec<T>,
    m: usize,
    n: usize,
    k: usize,
    w: &mut Vec<T>,
    cb: usize,
    ce: usize,
    parts: usize,
)
    requires
        old(a)@.len() == m * n,
        0 < k < m,
        k + 1 <= cb <= ce <= n,
        old(w)@.len() >= n + m,
        parts > 0,
    ensures
        fused_post(old(a)@, old(w)@, final(a)@, final(w)@, m as int, n as int, k as int, cb as int, ce as int),
{
    let ghost a0 = a@;
    let ghost w0 = w@;
    let total = ce - cb;
    let chunk = total / parts;
    let rem = total % parts;
    proof {
        vstd::arithmetic::div_mod::lemma_fundamental_div_mod(total as int, parts as int);
        vstd::arithmetic::div_mod::lemma_mod_pos_bound(total as int, parts as int);
        assert(chunk * parts == parts * chunk) by (nonlinear_arith);
        assert(chunk <= parts * chunk) by (nonlinear_arith)
            requires
                parts >= 1,
                chunk >= 0,
        ;
    }
    let mut cur: usize = cb;
    let mut idx: usize = 0;
    while idx < parts
        invariant
            0 < k < m,
            k + 1 <= cb <= cur <= ce <= n,
            a0.len() == m * n,
            w0.len() >= n + m,
            idx <= parts,
            total == ce - cb,
            total == parts * chunk + rem,
            0 <= rem < parts,
            chunk <= parts * chunk,
            cur == cb + idx * chunk + if idx < rem {
                idx as int
            } else {
                rem as int
            },
            fused_post(a0, w0, a@, w@, m as int, n as int, k as int, cb as int, cur as int),
        decreases parts - idx,
    {
        let width = if idx < rem { chunk + 1 } else { chunk };
        proof {
            assert((idx + 1) * chunk == idx * chunk + chunk) by (nonlinear_arith);
            assert((idx + 1) * chunk <= parts * chunk) by (nonlinear_arith)
                requires
                    idx + 1 <= parts,
                    chunk >= 0,
            ;
        }
        let next = cur + width;
        let ghost a1 = a@;
        let ghost w1 = w@;
        bidiag_fused_op(a, m, n, k, w, cur, next);
        proof {
            lemma_fused_split(a0, w0, a1, w1, a@, w@, m as int, n as int, k as int, cb as int, cur as int, next as int);
        }
        cur = next;
        idx = idx + 1;
    }
}


/// `y[k+1] + y[k+2] * conj(a[k][k+2]) + ... + y[n-1] * conj(a[k][n-1])`:
/// the product of `y` with the right reflector of step `k`.
pub open spec fn y_dot_right<T: ComplexField>(a: Seq<T>, w: Seq<T>, m: int, n: int, k: int) -> T {
    T::add_spec(
        w[k + 1],
        dot_rconj(w.subrange(k + 2, n), row_seg(a, m, k, k + 2, n), (n - k - 2) as nat),
    )
}

fn y_dot_right_exec<T: ComplexField>(a: &Vec<T>, m: usize, n: usize, k: usize, w: &Vec<T>) -> (r: T)
    requires
        a@.len() == m * n,
        k < m,
        k + 2 <= n,
        w@.len() >= n + m,
    ensures
        r == y_dot_right(a@, w@, m as int, n as int, k as int),
{
    let len = a.len();
    let ghost u = w@.subrange(k + 2, n as int);
    let ghost v = row_seg(a@, m as int, k as int, k + 2, n as int);
    let mut acc = T::zero();
    let mut j: usize = k + 2;
    while j < n
        invariant
            a@.len() == m * n,
            m * n <= usize::MAX,
            w@.len() >= n + m,
            k < m,
            k + 2 <= j <= n,
            u == w@.subrange(k + 2, n as int),
            v == row_seg(a@, m as int, k as int, k + 2, n as int),
            acc == dot_rconj(u, v, (j - k - 2) as nat),
        decreases n - j,
    {
        let p = flat(k, j, m, n);
        assert(u[j - k - 2] == w@[j as int]);
        assert(v[j - k - 2] == a@[p as int]);
        acc = T::add(acc, T::mul(w[j], T::conj(a[p])));
        j = j + 1;
    }
    T::add(w[k + 1], acc)
}

/// The new `z[i]` for the next step: the trailing block, updated by the
/// left reflector of step `k`, times the right reflector of step `k`, over
/// `tau`. `beta` is the new head of the row, `b` is `y_dot_right`, `mult`
/// the factor that scaled the row's tail (`None` where the tail was zero).
pub open spec fn z_next<T: ComplexField>(
    a: Seq<T>,
    w: Seq<T>,
    m: int,
    n: int,
    k: int,
    i: int,
    beta: T,
    mult: Option<T>,
    b: T,
    tr_inv: T,
) -> T {
    match mult {
        Some(mv) => T::mul_real_spec(
            T::sub_spec(
                T::mul_spec(
                    T::sub_spec(w[n + i], T::mul_spec(a[ix(i, k + 1, m)], T::conj_spec(beta))),
                    T::conj_spec(mv),
                ),
                T::mul_spec(a[ix(i, k, m)], b),
            ),
            tr_inv,
        ),
        None => T::mul_real_spec(T::sub_spec(a[ix(i, k + 1, m)], T::mul_spec(a[ix(i, k, m)], b)), tr_inv),
    }
}

/// Sets `z[i] = z_next(..., i, ...)` for every row `i` below row `k`.
fn update_z<T: ComplexField>(
    a: &Vec<T>,
    m: usize,
    n: usize,
    k: usize,
    w: &mut Vec<T>,
    beta: T,
    mult: Option<T>,
    b: T,
    tr_inv: T,
)
    requires
        a@.len() == m * n,
        k < m,
        k + 2 <= n,
        old(w)@.len() >= n + m,
    ensures
        final(w)@.len() == old(w)@.len(),
        forall|t: int|
            0 <= t < old(w)@.len() ==> #[trigger] final(w)@[t] == if n + k < t < n + m {
                z_next(a@, old(w)@, m as int, n as int, k as int, t - n, beta, mult, b, tr_inv)
            } else {
                old(w)@[t]
            },
{
    let ghost w0 = w@;
    let len = a.len();
    let wlen = w.len();
    let mut i: usize = k + 1;
    while i < m
        invariant
            a@.len() == m * n,
            m * n <= usize::MAX,
            n + m <= usize::MAX,
            k < i <= m,
            k + 2 <= n,
            w@.len() == w0.len(),
            w0.len() >= n + m,
            forall|t: int|
                0 <= t < w0.len() ==> #[trigger] w@[t] == if n + k < t < n + i {
                    z_next(a@, w0, m as int, n as int, k as int, t - n, beta, mult, b, tr_inv)
                } else {
                    w0[t]
                },
        decreases m - i,
    {
        let pa = flat(i, k + 1, m, n);
        let pu = flat(i, k, m, n);
        let v = match mult {
            Some(mv) => {
                let x = T::sub(w[n + i], T::mul(a[pa], T::conj(beta)));
                let x = T::mul(x, T::conj(mv));
                let x = T::sub(x, T::mul(a[pu], b));
                T::mul_real(x, tr_inv)
            },
            None => T::mul_real(T::sub(a[pa], T::mul(a[pu], b)), tr_inv),
        };
        w.set(n + i, v);
        i = i + 1;
    }
}


/// The `m x n` column-major matrix whose element `(i, j)` is `f(i, j)`.
pub open spec fn mat_of<T>(m: int, n: int, f: spec_fn(int, int) -> T) -> Seq<T> {
    Seq::new((m * n) as nat, |p: int| f(p % m, p / m))
}

proof fn lemma_mat_of<T>(s: Seq<T>, m: int, n: int, f: spec_fn(int, int) -> T)
    requires
        0 <= m,
        0 <= n,
        s.len() == m * n,
        forall|i: int, j: int| 0 <= i < m && 0 <= j < n ==> #[trigger] s[ix(i, j, m)] == f(i, j),
    ensures
        s == mat_of(m, n, f),
{
    assert forall|p: int| 0 <= p < s.len() implies s[p] == mat_of(m, n, f)[p] by {
        lemma_ix_cover(p, m, n);
        assert(s[ix(p % m, p / m, m)] == f(p % m, p / m));
    }
    assert(s =~= mat_of(m, n, f));
}

/// The scale of a reflector made on a line: `tau`, or infinity where the
/// line's tail is zero.
pub open spec fn line_tau<T: ComplexField>(a: Seq<T>, m: int, i0: int, j0: int, along_col: bool, len: int) -> T {
    if line_is_trivial(a, m, i0, j0, along_col, len) {
        T::infinity_spec()
    } else {
        hh_tau(a[ix(i0, j0, m)], line_tail_sq(a, m, i0, j0, along_col, len))
    }
}

/// The factor that scaled a line's tail, or `None` where the tail is zero.
pub open spec fn line_mult<T: ComplexField>(a: Seq<T>, m: int, i0: int, j0: int, along_col: bool, len: int) -> Option<T> {
    if line_is_trivial(a, m, i0, j0, along_col, len) {
        None
    } else {
        Some(hh_inv(a[ix(i0, j0, m)], line_tail_sq(a, m, i0, j0, along_col, len)))
    }
}

/// The state of the reduction: the matrix, the scratch vector, and the two
/// factor buffers.
pub type BidiagState<T> = (Seq<T>, Seq<T>, Seq<T>, Seq<T>);

/// The matrix after the pending correction of step `k - 1` (none at step 0).
pub open spec fn stage_pivot<T: ComplexField>(a: Seq<T>, w: Seq<T>, m: int, n: int, k: int) -> Seq<T> {
    if k > 0 {
        mat_of(m, n, |i: int, j: int| pivot_corrected(a, w, m, n, k, i, j))
    } else {
        a
    }
}

/// The matrix after the reflector of a line was made in place.
pub open spec fn stage_reflect<T: ComplexField>(a: Seq<T>, m: int, n: int, i0: int, j0: int, along_col: bool, len: int) -> Seq<T> {
    mat_of(m, n, |i: int, j: int| reflected(a, m, i0, j0, along_col, len, i, j))
}

/// The matrix after the deferred corrections reached the trailing block
/// (none at step 0).
pub open spec fn stage_fused<T: ComplexField>(a: Seq<T>, w: Seq<T>, m: int, n: int, k: int) -> Seq<T> {
    if k > 0 {
        mat_of(
            m,
            n,
            |i: int, j: int|
                if k < i && k + 1 <= j {
                    fused_entry(a, w, m, n, k, i, j)
                } else {
                    a[ix(i, j, m)]
                },
        )
    } else {
        a
    }
}

/// `y` set to the left reflector times the trailing block.
pub open spec fn stage_y<T: ComplexField>(a: Seq<T>, w: Seq<T>, m: int, n: int, k: int) -> Seq<T> {
    Seq::new(w.len(), |t: int| if k < t < n { col_dot(a, m, k, t) } else { w[t] })
}

/// `y` rescaled by the left scale.
pub open spec fn stage_rescale_y<T: ComplexField>(a: Seq<T>, w: Seq<T>, m: int, n: int, k: int, tl_inv: T) -> Seq<T> {
    Seq::new(w.len(), |t: int| if k < t < n { rescaled(a, w, m, k, t, tl_inv) } else { w[t] })
}

/// Row `k` updated by the left reflector.
pub open spec fn stage_rescale_row<T: ComplexField>(a: Seq<T>, w: Seq<T>, m: int, n: int, k: int, tl_inv: T) -> Seq<T> {
    mat_of(
        m,
        n,
        |i: int, j: int|
            if i == k && k < j {
                T::sub_spec(a[ix(i, j, m)], rescaled(a, w, m, k, j, tl_inv))
            } else {
                a[ix(i, j, m)]
            },
    )
}

/// Row `k` divided by its norm, unless that is zero.
pub open spec fn stage_normalize<T: ComplexField>(a: Seq<T>, m: int, n: int, k: int, norm: T) -> Seq<T> {
    mat_of(
        m,
        n,
        |i: int, j: int|
            if i == k && k < j && !T::is_zero_spec(norm) {
                T::mul_real_spec(a[ix(i, j, m)], T::recip_spec(norm))
            } else {
                a[ix(i, j, m)]
            },
    )
}

/// `z` set to the trailing block times the adjoint of row `k`.
pub open spec fn stage_z<T: ComplexField>(a: Seq<T>, w: Seq<T>, m: int, n: int, k: int) -> Seq<T> {
    Seq::new(w.len(), |t: int| if n + k < t < n + m { row_dot(a, m, n, k, t - n) } else { w[t] })
}

/// The left half of step `k`: the pending correction of the pivot row and
/// column, the left reflector, the deferred product `y`, and the update of
/// row `k` by the left reflector. Returns the matrix, the scratch vector,
/// the left scale and the row's norm before it was normalized.
pub open spec fn left_half<T: ComplexField>(a: Seq<T>, w: Seq<T>, m: int, n: int, k: int) -> (Seq<T>, Seq<T>, T, T) {
    let a1 = stage_pivot(a, w, m, n, k);
    let tl = line_tau(a1, m, k, k, true, m - k - 1);
    let a2 = stage_reflect(a1, m, n, k, k, true, m - k - 1);
    let tl_inv = T::recip_spec(T::real_spec(tl));
    let a3 = stage_fused(a2, w, m, n, k);
    let w1 = stage_y(a3, w, m, n, k);
    let w2 = stage_rescale_y(a3, w1, m, n, k, tl_inv);
    let a4 = stage_rescale_row(a3, w1, m, n, k, tl_inv);
    let norm = row_norm(a4, m, n, k);
    let a5 = stage_normalize(a4, m, n, k, norm);
    let w3 = stage_z(a5, w2, m, n, k);
    (a5, w3, tl, norm)
}

/// The right half of step `k`: the right reflector of row `k`, the row's
/// scale restored, and the deferred vector `z` for the next step. Returns the
/// matrix, the scratch vector and the right scale.
pub open spec fn right_half<T: ComplexField>(a: Seq<T>, w: Seq<T>, m: int, n: int, k: int, norm: T) -> (Seq<T>, Seq<T>, T) {
    let tr = line_tau(a, m, k, k + 1, false, n - k - 2);
    let mult = line_mult(a, m, k, k + 1, false, n - k - 2);
    let a6 = mat_of(m, n, |i: int, j: int| reflected(a, m, k, k + 1, false, n - k - 2, i, j));
    let beta = a6[ix(k, k + 1, m)];
    let a7 = a6.update(ix(k, k + 1, m), T::mul_real_spec(beta, norm));
    let b = y_dot_right(a7, w, m, n, k);
    let tr_inv = T::recip_spec(T::real_spec(tr));
    let w4 = Seq::new(
        w.len(),
        |t: int|
            if n + k < t < n + m {
                z_next(a7, w, m, n, k, t - n, beta, mult, b, tr_inv)
            } else {
                w[t]
            },
    );
    (a7, w4, tr)
}

/// Step `k` of the reduction of an `m x n` matrix with `size` steps; the
/// left scale goes to row 0, column `k` of the left factor buffer (with
/// `bl` rows), the right scale to row 0, column `k` of the right one.
pub open spec fn bidiag_step<T: ComplexField>(s: BidiagState<T>, m: int, n: int, bl: int, br: int, size: int, k: int) -> BidiagState<T> {
    let (a, w, hl, hr) = s;
    let (a5, w3, tl, norm) = left_half(a, w, m, n, k);
    let hl1 = hl.update(ix(0, k, bl), tl);
    if k + 1 < size {
        let (a7, w4, tr) = right_half(a5, w3, m, n, k, norm);
        (a7, w4, hl1, hr.update(ix(0, k, br), tr))
    } else {
        (a5, w3, hl1, hr)
    }
}

/// The state after the first `k` steps.
pub open spec fn bidiag_steps<T: ComplexField>(s: BidiagState<T>, m: int, n: int, bl: int, br: int, size: int, k: nat) -> BidiagState<T>
    decreases k,
{
    if k == 0 {
        s
    } else {
        bidiag_step(bidiag_steps(s, m, n, bl, br, size, (k - 1) as nat), m, n, bl, br, size, k - 1)
    }
}


/// The left half of step `k`, in place; the trailing-block update runs on
/// the column ranges that `par` asks for.
fn left_half_exec<T: ComplexField>(a: &mut Vec<T>, m: usize, n: usize, k: usize, w: &mut Vec<T>, par: &Par) -> (r: (T, T))
    requires
        old(a)@.len() == m * n,
        k < m,
        k < n,
        old(w)@.len() >= n + m,
        *par matches Par::Rayon(t) ==> t > 0,
    ensures
        final(a)@.len() == m * n,
        final(w)@.len() == old(w)@.len(),
        (final(a)@, final(w)@, r.0, r.1) == left_half(old(a)@, old(w)@, m as int, n as int, k as int),
{
    let ghost ga = a@;
    let ghost gw = w@;
    let ghost mi = m as int;
    let ghost ni = n as int;
    let ghost ki = k as int;
    if k > 0 {
        apply_pivot_correction(a, m, n, k, w);
        proof {
            lemma_mat_of(a@, mi, ni, |i: int, j: int| pivot_corrected(ga, gw, mi, ni, ki, i, j));
        }
    }
    let ghost a1 = a@;
    let (tl, _) = make_householder_in_place(a, m, n, k, k, true, m - k - 1);
    proof {
        lemma_mat_of(a@, mi, ni, |i: int, j: int| reflected(a1, mi, ki, ki, true, mi - ki - 1, i, j));
        assert(tl == line_tau(a1, mi, ki, ki, true, mi - ki - 1));
    }
    let ghost a2 = a@;
    let tl_inv = T::recip(T::real_part(tl));
    if k > 0 {
        match par {
            Par::Sequential => bidiag_fused_op(a, m, n, k, w, k + 1, n),
            Par::Rayon(nthreads) => bidiag_fused_op_partitioned(a, m, n, k, w, k + 1, n, *nthreads),
        }
        proof {
            lemma_mat_of(
                a@,
                mi,
                ni,
                |i: int, j: int|
                    if ki < i && ki + 1 <= j {
                        fused_entry(a2, gw, mi, ni, ki, i, j)
                    } else {
                        a2[ix(i, j, mi)]
                    },
            );
        }
    } else {
        first_step_product(a, m, n, k, w);
    }
    let ghost a3 = a@;
    let ghost w1 = w@;
    proof {
        assert(w1 =~= Seq::new(gw.len(), |t: int| if ki < t < ni { col_dot(a3, mi, ki, t) } else { gw[t] }));
    }
    rescale_y(a, m, n, k, w, tl_inv);
    proof {
        lemma_mat_of(
            a@,
            mi,
            ni,
            |i: int, j: int|
                if i == ki && ki < j {
                    T::sub_spec(a3[ix(i, j, mi)], rescaled(a3, w1, mi, ki, j, tl_inv))
                } else {
                    a3[ix(i, j, mi)]
                },
        );
        assert(w@ =~= Seq::new(gw.len(), |t: int| if ki < t < ni { rescaled(a3, w1, mi, ki, t, tl_inv) } else { w1[t] }));
    }
    let ghost a4 = a@;
    let ghost w2 = w@;
    let norm = normalize_row(a, m, n, k);
    proof {
        lemma_mat_of(
            a@,
            mi,
            ni,
            |i: int, j: int|
                if i == ki && ki < j && !T::is_zero_spec(norm) {
                    T::mul_real_spec(a4[ix(i, j, mi)], T::recip_spec(norm))
                } else {
                    a4[ix(i, j, mi)]
                },
        );
    }
    let ghost a5 = a@;
    trailing_times_row(a, m, n, k, w);
    proof {
        assert(w@ =~= Seq::new(gw.len(), |t: int| if ni + ki < t < ni + mi { row_dot(a5, mi, ni, ki, t - ni) } else { w2[t] }));
        assert(a1 == stage_pivot(ga, gw, mi, ni, ki));
        assert(a2 == stage_reflect(a1, mi, ni, ki, ki, true, mi - ki - 1));
        assert(a3 == stage_fused(a2, gw, mi, ni, ki));
        assert(w1 == stage_y(a3, gw, mi, ni, ki));
        assert(w2 == stage_rescale_y(a3, w1, mi, ni, ki, tl_inv));
        assert(a4 == stage_rescale_row(a3, w1, mi, ni, ki, tl_inv));
        assert(a5 == stage_normalize(a4, mi, ni, ki, norm));
        assert(w@ == stage_z(a5, w2, mi, ni, ki));
    }
    (tl, norm)
}

/// The right half of step `k`, in place, given the norm that the left half
/// divided row `k` by.
fn right_half_exec<T: ComplexField>(a: &mut Vec<T>, m: usize, n: usize, k: usize, w: &mut Vec<T>, norm: T) -> (tr: T)
    requires
        old(a)@.len() == m * n,
        k < m,
        k + 2 <= n,
        old(w)@.len() >= n + m,
    ensures
        final(a)@.len() == m * n,
        final(w)@.len() == old(w)@.len(),
        (final(a)@, final(w)@, tr) == right_half(old(a)@, old(w)@, m as int, n as int, k as int, norm),
{
    let ghost a5 = a@;
    let ghost w3 = w@;
    let ghost mi = m as int;
    let ghost ni = n as int;
    let ghost ki = k as int;
    let (tr, mult) = make_householder_in_place(a, m, n, k, k + 1, false, n - k - 2);
    proof {
        lemma_mat_of(a@, mi, ni, |i: int, j: int| reflected(a5, mi, ki, ki + 1, false, ni - ki - 2, i, j));
        assert(tr == line_tau(a5, mi, ki, ki + 1, false, ni - ki - 2));
        assert(mult == line_mult(a5, mi, ki, ki + 1, false, ni - ki - 2));
    }
    let tr_inv = T::recip(T::real_part(tr));
    let alen = a.len();
    let pos = flat(k, k + 1, m, n);
    let beta = a[pos];
    a.set(pos, T::mul_real(beta, norm));
    let b = y_dot_right_exec(a, m, n, k, w);
    let ghost a7 = a@;
    update_z(a, m, n, k, w, beta, mult, b, tr_inv);
    proof {
        assert(w@ =~= Seq::new(
            w3.len(),
            |t: int|
                if ni + ki < t < ni + mi {
                    z_next(a7, w3, mi, ni, ki, t - ni, beta, mult, b, tr_inv)
                } else {
                    w3[t]
                },
        ));
    }
    tr
}


proof fn lemma_mat_of_at<T>(m: int, n: int, f: spec_fn(int, int) -> T, i: int, j: int)
    requires
        0 <= i < m,
        0 <= j < n,
    ensures
        mat_of(m, n, f).len() == m * n,
        mat_of(m, n, f)[ix(i, j, m)] == f(i, j),
{
    lemma_ix_bound(i, j, m, n);
    assert(ix(i, j, m) == j * m + i);
    vstd::arithmetic::div_mod::lemma_fundamental_div_mod_converse(ix(i, j, m), m, j, i);
}

/// Entry `(i, j)` lies above row `k` or left of column `k`: the part that
/// the steps before `k` have finished.
pub open spec fn finished(i: int, j: int, k: int) -> bool {
    i < k || j < k
}

proof fn lemma_step_shapes<T: ComplexField>(s: BidiagState<T>, m: int, n: int, bl: int, br: int, size: int, k: int)
    requires
        0 <= m,
        0 <= n,
        0 <= k < size,
        size == reduction_size(m, n),
        s.0.len() == m * n,
    ensures
        bidiag_step(s, m, n, bl, br, size, k).0.len() == m * n,
        bidiag_step(s, m, n, bl, br, size, k).1.len() == s.1.len(),
{
    assert(0 <= m * n) by (nonlinear_arith)
        requires
            0 <= m,
            0 <= n,
    ;
    let (a, w, hl, hr) = s;
    let (a5, w3, tl, norm) = left_half(a, w, m, n, k);
    assert(a5.len() == m * n);
    assert(w3.len() == w.len());
    if k + 1 < size {
        let (a7, w4, tr) = right_half(a5, w3, m, n, k, norm);
        lemma_ix_bound(k, k + 1, m, n);
        assert(a7.len() == m * n);
        assert(w4.len() == w.len());
    }
}

proof fn lemma_pivot_keeps<T: ComplexField>(a: Seq<T>, w: Seq<T>, m: int, n: int, k: int, r: int, c: int)
    requires
        0 <= r < m,
        0 <= c < n,
        finished(r, c, k),
    ensures
        stage_pivot(a, w, m, n, k)[ix(r, c, m)] == a[ix(r, c, m)],
{
    if k > 0 {
        lemma_mat_of_at(m, n, |i: int, j: int| pivot_corrected(a, w, m, n, k, i, j), r, c);
    }
}

proof fn lemma_reflect_keeps<T: ComplexField>(
    a: Seq<T>,
    m: int,
    n: int,
    i0: int,
    j0: int,
    along_col: bool,
    len: int,
    r: int,
    c: int,
)
    requires
        0 <= r < m,
        0 <= c < n,
        !on_line(r, c, i0, j0, along_col, len),
    ensures
        stage_reflect(a, m, n, i0, j0, along_col, len)[ix(r, c, m)] == a[ix(r, c, m)],
{
    lemma_mat_of_at(m, n, |i: int, j: int| reflected(a, m, i0, j0, along_col, len, i, j), r, c);
}

proof fn lemma_fused_keeps<T: ComplexField>(a: Seq<T>, w: Seq<T>, m: int, n: int, k: int, r: int, c: int)
    requires
        0 <= r < m,
        0 <= c < n,
        finished(r, c, k),
    ensures
        stage_fused(a, w, m, n, k)[ix(r, c, m)] == a[ix(r, c, m)],
{
    if k > 0 {
        lemma_mat_of_at(
            m,
            n,
            |i: int, j: int|
                if k < i && k + 1 <= j {
                    fused_entry(a, w, m, n, k, i, j)
                } else {
                    a[ix(i, j, m)]
                },
            r,
            c,
        );
    }
}

proof fn lemma_rescale_row_keeps<T: ComplexField>(a: Seq<T>, w: Seq<T>, m: int, n: int, k: int, tl_inv: T, r: int, c: int)
    requires
        0 <= r < m,
        0 <= c < n,
        finished(r, c, k),
    ensures
        stage_rescale_row(a, w, m, n, k, tl_inv)[ix(r, c, m)] == a[ix(r, c, m)],
{
    let f = |i: int, j: int|
        if i == k && k < j {
            T::sub_spec(a[ix(i, j, m)], rescaled(a, w, m, k, j, tl_inv))
        } else {
            a[ix(i, j, m)]
        };
    lemma_mat_of_at(m, n, f, r, c);
    assert(f(r, c) == a[ix(r, c, m)]);
    assert(stage_rescale_row(a, w, m, n, k, tl_inv) == mat_of(m, n, f));
}

proof fn lemma_normalize_keeps<T: ComplexField>(a: Seq<T>, m: int, n: int, k: int, norm: T, r: int, c: int)
    requires
        0 <= r < m,
        0 <= c < n,
        finished(r, c, k),
    ensures
        stage_normalize(a, m, n, k, norm)[ix(r, c, m)] == a[ix(r, c, m)],
{
    let f = |i: int, j: int|
        if i == k && k < j && !T::is_zero_spec(norm) {
            T::mul_real_spec(a[ix(i, j, m)], T::recip_spec(norm))
        } else {
            a[ix(i, j, m)]
        };
    lemma_mat_of_at(m, n, f, r, c);
    assert(f(r, c) == a[ix(r, c, m)]);
    assert(stage_normalize(a, m, n, k, norm) == mat_of(m, n, f));
}

/// Step `k` leaves every entry above row `k` or left of column `k`
/// unchanged.
pub proof fn lemma_step_keeps_finished<T: ComplexField>(
    s: BidiagState<T>,
    m: int,
    n: int,
    bl: int,
    br: int,
    size: int,
    k: int,
    i: int,
    j: int,
)
    requires
        0 <= m,
        0 <= n,
        0 <= k < size,
        size == reduction_size(m, n),
        s.0.len() == m * n,
        0 <= i < m,
        0 <= j < n,
        finished(i, j, k),
    ensures
        bidiag_step(s, m, n, bl, br, size, k).0[ix(i, j, m)] == s.0[ix(i, j, m)],
{
    let (a, w, hl, hr) = s;
    let a1 = stage_pivot(a, w, m, n, k);
    lemma_pivot_keeps(a, w, m, n, k, i, j);
    let a2 = stage_reflect(a1, m, n, k, k, true, m - k - 1);
    lemma_reflect_keeps(a1, m, n, k, k, true, m - k - 1, i, j);
    let a3 = stage_fused(a2, w, m, n, k);
    lemma_fused_keeps(a2, w, m, n, k, i, j);
    let tl = line_tau(a1, m, k, k, true, m - k - 1);
    let tl_inv = T::recip_spec(T::real_spec(tl));
    let w1 = stage_y(a3, w, m, n, k);
    let a4 = stage_rescale_row(a3, w1, m, n, k, tl_inv);
    lemma_rescale_row_keeps(a3, w1, m, n, k, tl_inv, i, j);
    let norm = row_norm(a4, m, n, k);
    let a5 = stage_normalize(a4, m, n, k, norm);
    lemma_normalize_keeps(a4, m, n, k, norm, i, j);
    assert(a5[ix(i, j, m)] == a[ix(i, j, m)]);
    if k + 1 < size {
        lemma_reflect_keeps(a5, m, n, k, k + 1, false, n - k - 2, i, j);
        lemma_ix_bound(i, j, m, n);
        lemma_ix_bound(k, k + 1, m, n);
        if ix(i, j, m) == ix(k, k + 1, m) {
            lemma_ix_inj(i, j, k, k + 1, m);
        }
    }
}

proof fn lemma_steps_shapes<T: ComplexField>(s: BidiagState<T>, m: int, n: int, bl: int, br: int, size: int, k: nat)
    requires
        0 <= m,
        0 <= n,
        k <= size,
        size == reduction_size(m, n),
        s.0.len() == m * n,
    ensures
        bidiag_steps(s, m, n, bl, br, size, k).0.len() == m * n,
        bidiag_steps(s, m, n, bl, br, size, k).1.len() == s.1.len(),
    decreases k,
{
    if k > 0 {
        lemma_steps_shapes(s, m, n, bl, br, size, (k - 1) as nat);
        lemma_step_shapes(bidiag_steps(s, m, n, bl, br, size, (k - 1) as nat), m, n, bl, br, size, k - 1);
    }
}

/// Once the first `k` steps have run, the entries above row `k` or left of
/// column `k` hold their final values: the bidiagonal entries and the
/// reflector tails that those steps stored are never overwritten, so after
/// the reduction the entries outside the band are exactly the stored
/// reflectors of the step that finished them.
pub proof fn lemma_finished_entries_are_final<T: ComplexField>(
    s: BidiagState<T>,
    m: int,
    n: int,
    bl: int,
    br: int,
    k: nat,
    i: int,
    j: int,
)
    requires
        0 <= m,
        0 <= n,
        k <= reduction_size(m, n),
        s.0.len() == m * n,
        0 <= i < m,
        0 <= j < n,
        finished(i, j, k as int),
    ensures
        bidiag_steps(s, m, n, bl, br, reduction_size(m, n), reduction_size(m, n) as nat).0[ix(i, j, m)]
            == bidiag_steps(s, m, n, bl, br, reduction_size(m, n), k).0[ix(i, j, m)],
    decreases reduction_size(m, n) - k,
{
    let size = reduction_size(m, n);
    if k < size {
        lemma_finished_entries_are_final(s, m, n, bl, br, (k + 1) as nat, i, j);
        lemma_steps_shapes(s, m, n, bl, br, size, k);
        lemma_step_keeps_finished(bidiag_steps(s, m, n, bl, br, size, k), m, n, bl, br, size, k as int, i, j);
    }
}

/// How the trailing-block update of each step is cut up.
///
/// With `Rayon(t)` the columns of the trailing block are cut into `t`
/// consecutive ranges, each updated on its own with no data shared between
/// ranges; the ranges are run one after another. The result is the same as
/// with `Sequential` (see `lemma_fused_split` and `lemma_bidiag_post_unique`).
pub enum Par {
    /// The whole trailing block in one pass.
    Sequential,
    /// The trailing block cut into the given number of column ranges, at
    /// least one.
    Rayon(usize),
}

/// Tuning parameters of the bidiagonal reduction.
#[derive(Clone, Copy, Debug)]
pub struct BidiagParams {
    /// Trailing blocks with fewer entries than this are updated on one
    /// thread.
    pub par_threshold: usize,
}

/// The default threshold below which the trailing block is updated on one
/// thread.
pub const DEFAULT_PAR_THRESHOLD: usize = 49152;

impl BidiagParams {
    /// The default parameters.
    pub fn auto() -> (r: Self)
        ensures
            r.par_threshold == DEFAULT_PAR_THRESHOLD,
    {
        BidiagParams { par_threshold: DEFAULT_PAR_THRESHOLD }
    }
}

impl Default for BidiagParams {
    fn default() -> (r: Self)
        ensures
            r.par_threshold == DEFAULT_PAR_THRESHOLD,
    {
        Self::auto()
    }
}

/// `min(m, n)`: the number of reduction steps.
pub open spec fn reduction_size(m: int, n: int) -> int {
    if m < n {
        m
    } else {
        n
    }
}

/// Whether step `k` updates the trailing block on one thread: its
/// `(m - k - 1) x (n - k - 1)` trailing block is below the threshold.
pub open spec fn step_is_sequential(m: int, n: int, k: int, threshold: int) -> bool {
    (m - k - 1) * (n - k - 1) < threshold
}

/// Copies the scales of row 0 onto the diagonal of the `bs x bs` block of
/// `h` at column `j`.
fn scales_to_diagonal<T: ComplexField>(h: &mut Mat<T>, j: usize, bs: usize)
    requires
        old(h).wf(),
        bs <= old(h).nrows,
        j + bs <= old(h).ncols,
    ensures
        final(h).wf(),
        final(h).nrows == old(h).nrows,
        final(h).ncols == old(h).ncols,
        forall|r: int, col: int|
            0 <= r < old(h).nrows && 0 <= col < old(h).ncols ==> #[trigger] final(h).data@[ix(
                r,
                col,
                old(h).nrows as int,
            )] == if j <= col < j + bs && r == col - j {
                old(h).data@[ix(0, col, old(h).nrows as int)]
            } else {
                old(h).data@[ix(r, col, old(h).nrows as int)]
            },
{
    let ghost h0 = h.data@;
    let hm = h.nrows;
    let hn = h.ncols;
    let mut t: usize = 0;
    while t < bs
        invariant
            h.wf(),
            h.nrows == hm,
            h.ncols == hn,
            h0.len() == hm * hn,
            bs <= hm,
            j + bs <= hn,
            t <= bs,
            forall|r: int, col: int|
                0 <= r < hm && 0 <= col < hn ==> #[trigger] h.data@[ix(r, col, hm as int)] == if j <= col
                    < j + t && r == col - j {
                    h0[ix(0, col, hm as int)]
                } else {
                    h0[ix(r, col, hm as int)]
                },
        decreases bs - t,
    {
        proof {
            lemma_ix_bound(0, j + t, hm as int, hn as int);
            assert(h.data@[ix(0, j + t, hm as int)] == h0[ix(0, j + t, hm as int)]);
        }
        let v = h.read(0, j + t);
        let ghost hb = h.data@;
        h.write(t, j + t, v);
        proof {
            assert forall|r: int, col: int| 0 <= r < hm && 0 <= col < hn implies #[trigger] h.data@[ix(
                r,
                col,
                hm as int,
            )] == if j <= col < j + t + 1 && r == col - j {
                h0[ix(0, col, hm as int)]
            } else {
                h0[ix(r, col, hm as int)]
            } by {
                lemma_ix_bound(r, col, hm as int, hn as int);
                lemma_ix_bound(t as int, j + t, hm as int, hn as int);
                if ix(r, col, hm as int) == ix(t as int, j + t, hm as int) {
                    lemma_ix_inj(r, col, t as int, j + t, hm as int);
                }
                assert(hb[ix(r, col, hm as int)] == if j <= col < j + t && r == col - j {
                    h0[ix(0, col, hm as int)]
                } else {
                    h0[ix(r, col, hm as int)]
                });
            }
        }
        t = t + 1;
    }
}

/// Entry `(r, col)` of a factor buffer `h` with `hb` rows once its columns
/// were upgraded block by block, blocks of `hb` columns from column 0 on:
/// on the diagonal of a block, the scale that row 0 held; above it, the
/// products of the reflectors stored in `a`; below it, unchanged.
pub open spec fn upgraded<T: ComplexField>(
    h: Seq<T>,
    a: Seq<T>,
    hb: int,
    m: int,
    long: int,
    in_rows: bool,
    shift: int,
    r: int,
    col: int,
) -> T {
    let c = col % hb;
    let j = col - c;
    if r == c {
        h[ix(0, col, hb)]
    } else if r < c {
        factor_entry(a, m, long, in_rows, j, shift, r, c)
    } else {
        h[ix(r, col, hb)]
    }
}

proof fn lemma_block_offset(col: int, j: int, hb: int)
    requires
        hb >= 1,
        j % hb == 0,
        0 <= j <= col < j + hb,
    ensures
        col % hb == col - j,
{
    vstd::arithmetic::div_mod::lemma_fundamental_div_mod(j, hb);
    assert((j / hb) * hb == hb * (j / hb)) by (nonlinear_arith);
    assert(col == (j / hb) * hb + (col - j));
    vstd::arithmetic::div_mod::lemma_fundamental_div_mod_converse(col, hb, j / hb, col - j);
}

/// Upgrades every column of `h`, block by block, into the block factors of
/// the reflectors stored in `a`.
fn upgrade_factors<T: ComplexField>(h: &mut Mat<T>, a: &Mat<T>, in_rows: bool, shift: usize)
    requires
        old(h).wf(),
        a.wf(),
        old(h).nrows >= 1,
        in_rows ==> old(h).ncols <= a.nrows && old(h).ncols + shift <= a.ncols,
        !in_rows ==> old(h).ncols <= a.ncols && old(h).ncols + shift <= a.nrows,
    ensures
        final(h).wf(),
        final(h).nrows == old(h).nrows,
        final(h).ncols == old(h).ncols,
        forall|r: int, col: int|
            0 <= r < old(h).nrows && 0 <= col < old(h).ncols ==> #[trigger] final(h).data@[ix(
                r,
                col,
                old(h).nrows as int,
            )] == upgraded(
                old(h).data@,
                a.data@,
                old(h).nrows as int,
                a.nrows as int,
                if in_rows {
                    a.ncols as int
                } else {
                    a.nrows as int
                },
                in_rows,
                shift as int,
                r,
                col,
            ),
{
    let ghost h0 = h.data@;
    let hb = h.nrows;
    let count = h.ncols;
    let ghost long = if in_rows {
        a.ncols as int
    } else {
        a.nrows as int
    };
    let mut j: usize = 0;
    while j < count
        invariant
            h.wf(),
            a.wf(),
            h.nrows == hb,
            h.ncols == count,
            h0.len() == hb * count,
            hb >= 1,
            in_rows ==> count <= a.nrows && count + shift <= a.ncols,
            !in_rows ==> count <= a.ncols && count + shift <= a.nrows,
            long == if in_rows { a.ncols as int } else { a.nrows as int },
            j <= count,
            (j as int) % (hb as int) == 0 || j == count,
            forall|r: int, col: int|
                0 <= r < hb && 0 <= col < count ==> #[trigger] h.data@[ix(r, col, hb as int)] == if col < j {
                    upgraded(h0, a.data@, hb as int, a.nrows as int, long, in_rows, shift as int, r, col)
                } else {
                    h0[ix(r, col, hb as int)]
                },
        decreases count - j,
    {
        let bs = if hb < count - j { hb } else { count - j };
        let ghost hs = h.data@;
        scales_to_diagonal(h, j, bs);
        let ghost hd = h.data@;
        upgrade_householder_factor(h, a, j, bs, in_rows, shift);
        proof {
            assert((j as int) % (hb as int) == 0);
            assert forall|r: int, col: int| 0 <= r < hb && 0 <= col < count implies #[trigger] h.data@[ix(
                r,
                col,
                hb as int,
            )] == if col < j + bs {
                upgraded(h0, a.data@, hb as int, a.nrows as int, long, in_rows, shift as int, r, col)
            } else {
                h0[ix(r, col, hb as int)]
            } by {
                assert(hd[ix(r, col, hb as int)] == if j <= col < j + bs && r == col - j {
                    hs[ix(0, col, hb as int)]
                } else {
                    hs[ix(r, col, hb as int)]
                });
                if j <= col < j + bs {
                    lemma_block_offset(col, j as int, hb as int);
                    assert(hs[ix(0, col, hb as int)] == h0[ix(0, col, hb as int)]);
                    assert(hs[ix(r, col, hb as int)] == h0[ix(r, col, hb as int)]);
                }
            }
            if bs == hb {
                vstd::arithmetic::div_mod::lemma_mod_add_multiples_vanish(j as int, hb as int);
            }
        }
        j = j + bs;
    }
}


/// The reduction of `a` with the factor buffers `hl`, `hr` and the scratch
/// vector `w`: the state after all `min(m, n)` steps.
pub open spec fn reduced<T: ComplexField>(a: Mat<T>, hl: Mat<T>, hr: Mat<T>, w: Seq<T>) -> BidiagState<T> {
    let size = reduction_size(a.nrows as int, a.ncols as int);
    bidiag_steps(
        (a.data@, w, hl.data@, hr.data@),
        a.nrows as int,
        a.ncols as int,
        hl.nrows as int,
        hr.nrows as int,
        size,
        size as nat,
    )
}

/// What `bidiag_in_place` leaves, from `a0`, `hl0`, `hr0`, `w0`: the matrix
/// and the scratch vector of the reduction; in each factor buffer, for each
/// block of columns, the scale of each step on the block's diagonal and the
/// products of the stored reflectors above it (the right reflectors start
/// one column right of the diagonal); shapes kept. Where `min(m, n) = 0`,
/// nothing changes.
pub open spec fn bidiag_post<T: ComplexField>(
    a0: Mat<T>,
    hl0: Mat<T>,
    hr0: Mat<T>,
    w0: Seq<T>,
    a1: Mat<T>,
    hl1: Mat<T>,
    hr1: Mat<T>,
    w1: Seq<T>,
) -> bool {
    let m = a0.nrows as int;
    let n = a0.ncols as int;
    let st = reduced(a0, hl0, hr0, w0);
    &&& a1.wf()
    &&& a1.nrows == a0.nrows
    &&& a1.ncols == a0.ncols
    &&& hl1.wf()
    &&& hl1.nrows == hl0.nrows
    &&& hl1.ncols == hl0.ncols
    &&& hr1.wf()
    &&& hr1.nrows == hr0.nrows
    &&& hr1.ncols == hr0.ncols
    &&& a1.data@ == st.0
    &&& w1 == st.1
    &&& forall|r: int, col: int|
        0 <= r < hl0.nrows && 0 <= col < hl0.ncols ==> #[trigger] hl1.data@[ix(r, col, hl0.nrows as int)]
            == upgraded(st.2, st.0, hl0.nrows as int, m, m, false, 0, r, col)
    &&& forall|r: int, col: int|
        0 <= r < hr0.nrows && 0 <= col < hr0.ncols ==> #[trigger] hr1.data@[ix(r, col, hr0.nrows as int)]
            == upgraded(st.3, st.0, hr0.nrows as int, m, n, true, 1, r, col)
    &&& reduction_size(m, n) == 0 ==> a1.data@ == a0.data@ && hl1.data@ == hl0.data@ && hr1.data@
        == hr0.data@ && w1 == w0
}

/// The parallelism asked for never changes what `bidiag_in_place` leaves:
/// its contract does not depend on it, and two results that meet it for the
/// same inputs are the same.
pub proof fn lemma_bidiag_post_unique<T: ComplexField>(
    a0: Mat<T>,
    hl0: Mat<T>,
    hr0: Mat<T>,
    w0: Seq<T>,
    a1: Mat<T>,
    hl1: Mat<T>,
    hr1: Mat<T>,
    w1: Seq<T>,
    a2: Mat<T>,
    hl2: Mat<T>,
    hr2: Mat<T>,
    w2: Seq<T>,
)
    requires
        bidiag_post(a0, hl0, hr0, w0, a1, hl1, hr1, w1),
        bidiag_post(a0, hl0, hr0, w0, a2, hl2, hr2, w2),
    ensures
        a1.data@ == a2.data@,
        hl1.data@ == hl2.data@,
        hr1.data@ == hr2.data@,
        w1 == w2,
{
    let bl = hl0.nrows as int;
    let br = hr0.nrows as int;
    assert forall|p: int| 0 <= p < hl1.data@.len() implies hl1.data@[p] == hl2.data@[p] by {
        lemma_ix_cover(p, bl, hl0.ncols as int);
        assert(hl1.data@[ix(p % bl, p / bl, bl)] == hl2.data@[ix(p % bl, p / bl, bl)]);
    }
    assert(hl1.data@ =~= hl2.data@);
    assert forall|p: int| 0 <= p < hr1.data@.len() implies hr1.data@[p] == hr2.data@[p] by {
        lemma_ix_cover(p, br, hr0.ncols as int);
        assert(hr1.data@[ix(p % br, p / br, br)] == hr2.data@[ix(p % br, p / br, br)]);
    }
    assert(hr1.data@ =~= hr2.data@);
}

/// Reduces `a` (`m x n`) in place to upper bidiagonal form `U^H * a * V`.
///
/// On return the diagonal and the superdiagonal of `a` hold the bidiagonal
/// matrix; column `k` below the diagonal holds the tail of the left
/// reflector of step `k`, and row `k` right of the superdiagonal the tail of
/// the right reflector. `h_left` (`bl x min(m, n)`) and `h_right`
/// (`br x (min(m, n) - 1)`) hold the block factors of the two reflector
/// sequences, in blocks of `bl` and `br` reflectors. `stack` is scratch
/// space of at least `n + m` entries. A step whose trailing block has fewer
/// than `params.par_threshold` entries, and every step after it, updates the
/// trailing block in one pass whatever `par` asks for. For `m < n` the last
/// row keeps its entries right of the superdiagonal, divided by their norm:
/// no right reflector is made for it.
pub fn bidiag_in_place<T: ComplexField>(
    a: &mut Mat<T>,
    h_left: &mut Mat<T>,
    h_right: &mut Mat<T>,
    par: Par,
    stack: &mut Vec<T>,
    params: BidiagParams,
)
    requires
        old(a).wf(),
        old(h_left).wf(),
        old(h_right).wf(),
        old(h_left).ncols == reduction_size(old(a).nrows as int, old(a).ncols as int),
        old(h_right).ncols == if reduction_size(old(a).nrows as int, old(a).ncols as int) > 0 {
            reduction_size(old(a).nrows as int, old(a).ncols as int) - 1
        } else {
            0
        },
        old(h_left).nrows >= 1,
        old(h_right).nrows >= 1,
        old(stack)@.len() >= old(a).nrows + old(a).ncols,
        par matches Par::Rayon(t) ==> t > 0,
    ensures
        bidiag_post(*old(a), *old(h_left), *old(h_right), old(stack)@, *final(a), *final(h_left), *final(h_right), final(stack)@),
{
    let m = a.nrows;
    let n = a.ncols;
    let size = if m < n { m } else { n };
    let bl = h_left.nrows;
    let br = h_right.nrows;
    let alen = a.data.len();
    let slen = stack.len();
    let ghost a0 = a.data@;
    let ghost hl0 = h_left.data@;
    let ghost hr0 = h_right.data@;
    let ghost s0 = stack@;
    let ghost st0: BidiagState<T> = (a0, s0, hl0, hr0);
    let ghost a_in = *a;
    let ghost hl_in = *h_left;
    let ghost hr_in = *h_right;
    let mut par = par;
    let mut k: usize = 0;
    while k < size
        invariant
            a.wf(),
            a.nrows == m,
            a.ncols == n,
            m * n <= usize::MAX,
            size == reduction_size(m as int, n as int),
            h_left.wf(),
            h_left.nrows == bl,
            h_left.ncols == size,
            h_right.wf(),
            h_right.nrows == br,
            h_right.ncols == if size > 0 { size - 1 } else { 0 },
            bl >= 1,
            br >= 1,
            stack@.len() == slen,
            slen >= n + m,
            k <= size,
            par matches Par::Rayon(t) ==> t > 0,
            (a.data@, stack@, h_left.data@, h_right.data@) == bidiag_steps(
                st0,
                m as int,
                n as int,
                bl as int,
                br as int,
                size as int,
                k as nat,
            ),
        decreases size - k,
    {
        let ghost gs: BidiagState<T> = (a.data@, stack@, h_left.data@, h_right.data@);
        proof {
            assert((m - k - 1) * (n - k - 1) <= m * n) by (nonlinear_arith)
                requires
                    k < m,
                    k < n,
            ;
        }
        if (m - k - 1) * (n - k - 1) < params.par_threshold {
            par = Par::Sequential;
        }
        let (tl, norm) = left_half_exec(&mut a.data, m, n, k, stack, &par);
        h_left.write(0, k, tl);
        if k + 1 < size {
            let tr = right_half_exec(&mut a.data, m, n, k, stack, norm);
            h_right.write(0, k, tr);
        }
        proof {
            assert((a.data@, stack@, h_left.data@, h_right.data@) == bidiag_step(
                gs,
                m as int,
                n as int,
                bl as int,
                br as int,
                size as int,
                k as int,
            ));
        }
        k = k + 1;
    }
    let ghost st = reduced(a_in, hl_in, hr_in, s0);
    assert((a.data@, stack@, h_left.data@, h_right.data@) == st);
    upgrade_factors(h_left, a, false, 0);
    if size > 0 {
        upgrade_factors(h_right, a, true, 1);
    }
    proof {
        if size == 0 {
            assert(h_left.data@.len() == bl * size);
            assert(hl0.len() == bl * size);
            assert(bl * size == 0) by (nonlinear_arith)
                requires
                    size == 0,
            ;
            assert(h_left.data@ =~= hl0);
            assert(h_right.data@ =~= hr0);
        }
    }
}

} // verus!
