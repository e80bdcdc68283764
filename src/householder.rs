//! Householder reflectors stored in place, and their block factors.
//!
//! A reflector is `H = I - v * v^H / tau`, where `v` has a leading entry 1
//! that is not stored, and a tail stored in place of the entries it zeroed.
//! A block of `b` consecutive reflectors is `H_0 * ... * H_{b-1} =
//! I - V * T^{-1} * V^H`, where `T` is upper triangular, with `tau_c` on its
//! diagonal and `v_r^H * v_c` above it.
use crate::dense::{flat, ix, lemma_ix_bound, lemma_ix_inj, Mat};
use crate::field::{sum_abs2, ComplexField};
use vstd::prelude::*;

verus! {

/// The position of entry `t` of a line of an `m`-row matrix that starts at
/// `(i0, j0)` and runs down a column (`along_col`) or along a row.
pub open spec fn line_pos(m: int, i0: int, j0: int, along_col: bool, t: int) -> int {
    if along_col {
        ix(i0 + t, j0, m)
    } else {
        ix(i0, j0 + t, m)
    }
}

/// Entries `1 ..= len` of the line.
pub open spec fn line_tail<T>(a: Seq<T>, m: int, i0: int, j0: int, along_col: bool, len: int) -> Seq<T> {
    Seq::new(len as nat, |t: int| a[line_pos(m, i0, j0, along_col, t + 1)])
}

/// `(i, j)` is entry `t` of the line, for some `t` in `0 ..= len`.
pub open spec fn on_line(i: int, j: int, i0: int, j0: int, along_col: bool, len: int) -> bool {
    if along_col {
        j == j0 && i0 <= i <= i0 + len
    } else {
        i == i0 && j0 <= j <= j0 + len
    }
}

/// The index along the line of a point on it.
pub open spec fn line_index(i: int, j: int, i0: int, j0: int) -> int {
    (i - i0) + (j - j0)
}

/// `sqrt(|head|^2 + tail_sq)`: the norm of the whole vector.
pub open spec fn hh_norm<T: ComplexField>(head: T, tail_sq: T) -> T {
    T::sqrt_spec(T::add_spec(T::abs2_spec(head), tail_sq))
}

/// `head / |head|`, or one where `head` is zero.
pub open spec fn hh_sign<T: ComplexField>(head: T) -> T {
    if T::is_zero_spec(T::abs_spec(head)) {
        T::one_spec()
    } else {
        T::mul_real_spec(head, T::recip_spec(T::abs_spec(head)))
    }
}

/// The norm, with the sign of the head.
pub open spec fn hh_signed_norm<T: ComplexField>(head: T, tail_sq: T) -> T {
    T::mul_real_spec(hh_sign(head), hh_norm(head, tail_sq))
}

/// `1 / (head + signed_norm)`: the factor that scales the tail into `v`.
pub open spec fn hh_inv<T: ComplexField>(head: T, tail_sq: T) -> T {
    T::recip_spec(T::add_spec(head, hh_signed_norm(head, tail_sq)))
}

/// `tau = (1 + tail_sq * |inv|^2) / 2 = |v|^2 / 2`.
pub open spec fn hh_tau<T: ComplexField>(head: T, tail_sq: T) -> T {
    T::mul_spec(
        T::add_spec(T::one_spec(), T::mul_spec(tail_sq, T::abs2_spec(hh_inv(head, tail_sq)))),
        T::recip_spec(T::add_spec(T::one_spec(), T::one_spec())),
    )
}

/// The squared norm of the tail of the line.
pub open spec fn line_tail_sq<T: ComplexField>(a: Seq<T>, m: int, i0: int, j0: int, along_col: bool, len: int) -> T {
    sum_abs2(line_tail(a, m, i0, j0, along_col, len), len as nat)
}

/// The line has no tail to zero: its norm is zero.
pub open spec fn line_is_trivial<T: ComplexField>(a: Seq<T>, m: int, i0: int, j0: int, along_col: bool, len: int) -> bool {
    T::is_zero_spec(T::sqrt_spec(line_tail_sq(a, m, i0, j0, along_col, len)))
}

/// Entry `(i, j)` after the reflector of the line was made in place.
pub open spec fn reflected<T: ComplexField>(
    a: Seq<T>,
    m: int,
    i0: int,
    j0: int,
    along_col: bool,
    len: int,
    i: int,
    j: int,
) -> T {
    let head = a[ix(i0, j0, m)];
    let sq = line_tail_sq(a, m, i0, j0, along_col, len);
    if line_is_trivial(a, m, i0, j0, along_col, len) || !on_line(i, j, i0, j0, along_col, len) {
        a[ix(i, j, m)]
    } else if i == i0 && j == j0 {
        T::neg_spec(hh_signed_norm(head, sq))
    } else {
        T::mul_spec(a[ix(i, j, m)], hh_inv(head, sq))
    }
}

/// Makes, in place, the reflector that maps the line (a head and a tail of
/// `len` entries) to a multiple of its first unit vector: the head becomes
/// `-signed_norm`, the tail becomes the tail of `v`. Returns `tau` and the
/// factor that scaled the tail; where the tail is zero nothing changes and
/// the result is `(infinity, None)`.
pub fn make_householder_in_place<T: ComplexField>(
    a: &mut Vec<T>,
    m: usize,
    n: usize,
    i0: usize,
    j0: usize,
    along_col: bool,
    len: usize,
) -> (r: (T, Option<T>))
    requires
        old(a)@.len() == m * n,
        along_col ==> i0 + len < m && j0 < n,
        !along_col ==> i0 < m && j0 + len < n,
    ensures
        final(a)@.len() == m * n,
        line_is_trivial(old(a)@, m as int, i0 as int, j0 as int, along_col, len as int) ==> r == (
        T::infinity_spec(), None::<T>),
        !line_is_trivial(old(a)@, m as int, i0 as int, j0 as int, along_col, len as int) ==> r == (
        hh_tau(
            old(a)@[ix(i0 as int, j0 as int, m as int)],
            line_tail_sq(old(a)@, m as int, i0 as int, j0 as int, along_col, len as int),
        ),
        Some(
            hh_inv(
                old(a)@[ix(i0 as int, j0 as int, m as int)],
                line_tail_sq(old(a)@, m as int, i0 as int, j0 as int, along_col, len as int),
            ),
        )),
        forall|i: int, j: int|
            0 <= i < m && 0 <= j < n ==> #[trigger] final(a)@[ix(i, j, m as int)] == reflected(
                old(a)@,
                m as int,
                i0 as int,
                j0 as int,
                along_col,
                len as int,
                i,
                j,
            ),
{
    let ghost a0 = a@;
    let ghost tail = line_tail(a0, m as int, i0 as int, j0 as int, along_col, len as int);
    let alen = a.len();
    let mut sq = T::zero();
    let mut t: usize = 0;
    while t < len
        invariant
            a@ == a0,
            a0.len() == m * n,
            m * n <= usize::MAX,
            along_col ==> i0 + len < m && j0 < n,
            !along_col ==> i0 < m && j0 + len < n,
            t <= len,
            tail == line_tail(a0, m as int, i0 as int, j0 as int, along_col, len as int),
            sq == sum_abs2(tail, t as nat),
        decreases len - t,
    {
        let p = if along_col { flat(i0 + t + 1, j0, m, n) } else { flat(i0, j0 + t + 1, m, n) };
        assert(tail[t as int] == a0[p as int]);
        sq = T::add(sq, T::abs2(a[p]));
        t = t + 1;
    }
    let tail_norm = T::sqrt(sq);
    if T::is_zero(tail_norm) {
        return (T::infinity(), None);
    }
    let hp = flat(i0, j0, m, n);
    let head = a[hp];
    let head_abs = T::abs(head);
    let norm = T::sqrt(T::add(T::abs2(head), sq));
    let sign = if T::is_zero(head_abs) {
        T::one()
    } else {
        T::mul_real(head, T::recip(head_abs))
    };
    let signed_norm = T::mul_real(sign, norm);
    let inv = T::recip(T::add(head, signed_norm));
    let mut t: usize = 1;
    while t <= len
        invariant
            a@.len() == m * n,
            a0.len() == m * n,
            m * n <= usize::MAX,
            along_col ==> i0 + len < m && j0 < n,
            !along_col ==> i0 < m && j0 + len < n,
            1 <= t <= len + 1,
            !line_is_trivial(a0, m as int, i0 as int, j0 as int, along_col, len as int),
            head == a0[ix(i0 as int, j0 as int, m as int)],
            sq == line_tail_sq(a0, m as int, i0 as int, j0 as int, along_col, len as int),
            inv == hh_inv(head, sq),
            signed_norm == hh_signed_norm(head, sq),
            forall|i: int, j: int|
                0 <= i < m && 0 <= j < n ==> #[trigger] a@[ix(i, j, m as int)] == if on_line(
                    i,
                    j,
                    i0 as int,
                    j0 as int,
                    along_col,
                    len as int,
                ) && 1 <= line_index(i, j, i0 as int, j0 as int) < t {
                    reflected(a0, m as int, i0 as int, j0 as int, along_col, len as int, i, j)
                } else {
                    a0[ix(i, j, m as int)]
                },
        decreases len + 1 - t,
    {
        let p = if along_col { flat(i0 + t, j0, m, n) } else { flat(i0, j0 + t, m, n) };
        let v = T::mul(a[p], inv);
        a.set(p, v);
        proof {
            let (pi, pj) = if along_col { (i0 + t, j0 as int) } else { (i0 as int, j0 + t) };
            assert forall|i: int, j: int| 0 <= i < m && 0 <= j < n implies #[trigger] a@[ix(
                i,
                j,
                m as int,
            )] == if on_line(i, j, i0 as int, j0 as int, along_col, len as int) && 1 <= line_index(
                i,
                j,
                i0 as int,
                j0 as int,
            ) < t + 1 {
                reflected(a0, m as int, i0 as int, j0 as int, along_col, len as int, i, j)
            } else {
                a0[ix(i, j, m as int)]
            } by {
                lemma_ix_bound(i, j, m as int, n as int);
                if ix(i, j, m as int) == p {
                    lemma_ix_inj(i, j, pi, pj, m as int);
                }
            }
        }
        t = t + 1;
    }
    a.set(hp, T::neg(signed_norm));
    proof {
        assert forall|i: int, j: int| 0 <= i < m && 0 <= j < n implies #[trigger] a@[ix(i, j, m as int)]
            == reflected(a0, m as int, i0 as int, j0 as int, along_col, len as int, i, j) by {
            lemma_ix_bound(i, j, m as int, n as int);
            if ix(i, j, m as int) == hp {
                lemma_ix_inj(i, j, i0 as int, j0 as int, m as int);
            }
        }
    }
    let half = T::recip(T::add(T::one(), T::one()));
    let tau = T::mul(T::add(T::one(), T::mul(sq, T::abs2(inv))), half);
    (tau, Some(inv))
}


/// Entry `g` (along the long side) of the stored vector `c` of a block
/// starting at `j`: stored in row `j + c` (`in_rows`) or in column `j + c`.
pub open spec fn ess<T>(a: Seq<T>, m: int, in_rows: bool, j: int, c: int, g: int) -> T {
    if in_rows {
        a[ix(j + c, g, m)]
    } else {
        a[ix(g, j + c, m)]
    }
}

/// `conj(v_r[u]) + sum over g in u+1 ..= u+cnt of conj(v_r[g]) * v_c[g]`,
/// where `u = j + c + shift` is the position of the implicit unit entry of
/// `v_c`, and `v_r` is zero before its own unit entry.
pub open spec fn factor_sum<T: ComplexField>(
    a: Seq<T>,
    m: int,
    in_rows: bool,
    j: int,
    shift: int,
    r: int,
    c: int,
    cnt: nat,
) -> T
    decreases cnt,
{
    let u = j + c + shift;
    if cnt == 0 {
        T::conj_spec(ess(a, m, in_rows, j, r, u))
    } else {
        T::add_spec(
            factor_sum(a, m, in_rows, j, shift, r, c, (cnt - 1) as nat),
            T::mul_spec(T::conj_spec(ess(a, m, in_rows, j, r, u + cnt)), ess(a, m, in_rows, j, c, u + cnt)),
        )
    }
}

/// `v_r^H * v_c` for `r < c`, over a long side of `long` entries.
pub open spec fn factor_entry<T: ComplexField>(
    a: Seq<T>,
    m: int,
    long: int,
    in_rows: bool,
    j: int,
    shift: int,
    r: int,
    c: int,
) -> T {
    factor_sum(a, m, in_rows, j, shift, r, c, (long - (j + c + shift) - 1) as nat)
}

/// Turns the `bs x bs` block of `h` at column `j` (whose diagonal holds the
/// scales `tau`) into the block factor `T` of the `bs` reflectors stored
/// from column (or row) `j` of `a` on: entry `(r, c)` with `r < c` becomes
/// `v_r^H * v_c`; the diagonal and the entries below it are kept.
pub fn upgrade_householder_factor<T: ComplexField>(
    h: &mut Mat<T>,
    a: &Mat<T>,
    j: usize,
    bs: usize,
    in_rows: bool,
    shift: usize,
)
    requires
        old(h).wf(),
        a.wf(),
        bs <= old(h).nrows,
        j + bs <= old(h).ncols,
        in_rows ==> j + bs <= a.nrows && j + bs + shift <= a.ncols,
        !in_rows ==> j + bs <= a.ncols && j + bs + shift <= a.nrows,
    ensures
        final(h).wf(),
        final(h).nrows == old(h).nrows,
        final(h).ncols == old(h).ncols,
        forall|r: int, col: int|
            0 <= r < old(h).nrows && 0 <= col < old(h).ncols ==> #[trigger] final(h).data@[ix(
                r,
                col,
                old(h).nrows as int,
            )] == if j <= col < j + bs && r < col - j {
                factor_entry(
                    a.data@,
                    a.nrows as int,
                    if in_rows {
                        a.ncols as int
                    } else {
                        a.nrows as int
                    },
                    in_rows,
                    j as int,
                    shift as int,
                    r,
                    col - j,
                )
            } else {
                old(h).data@[ix(r, col, old(h).nrows as int)]
            },
{
    let ghost h0 = h.data@;
    let m = a.nrows;
    let n = a.ncols;
    let long = if in_rows { n } else { m };
    let hm = h.nrows;
    let hn = h.ncols;
    let alen = a.data.len();
    let hlen = h.data.len();
    let mut c: usize = 0;
    while c < bs
        invariant
            h.wf(),
            a.wf(),
            h.nrows == hm,
            h.ncols == hn,
            h0.len() == hm * hn,
            m == a.nrows,
            n == a.ncols,
            a.data@.len() <= usize::MAX,
            long == if in_rows { n } else { m },
            bs <= hm,
            j + bs <= hn,
            in_rows ==> j + bs <= m && j + bs + shift <= n,
            !in_rows ==> j + bs <= n && j + bs + shift <= m,
            c <= bs,
            forall|r: int, col: int|
                0 <= r < hm && 0 <= col < hn ==> #[trigger] h.data@[ix(r, col, hm as int)] == if j
                    <= col < j + c && r < col - j {
                    factor_entry(a.data@, m as int, long as int, in_rows, j as int, shift as int, r, col - j)
                } else {
                    h0[ix(r, col, hm as int)]
                },
        decreases bs - c,
    {
        let mut r: usize = 0;
        while r < c
            invariant
                h.wf(),
                a.wf(),
                h.nrows == hm,
                h.ncols == hn,
                h0.len() == hm * hn,
                m == a.nrows,
                n == a.ncols,
                a.data@.len() <= usize::MAX,
                long == if in_rows { n } else { m },
                bs <= hm,
                j + bs <= hn,
                in_rows ==> j + bs <= m && j + bs + shift <= n,
                !in_rows ==> j + bs <= n && j + bs + shift <= m,
                c < bs,
                r <= c,
                forall|rr: int, col: int|
                    0 <= rr < hm && 0 <= col < hn ==> #[trigger] h.data@[ix(rr, col, hm as int)] == if (j
                        <= col < j + c && rr < col - j) || (col == j + c && rr < r) {
                        factor_entry(a.data@, m as int, long as int, in_rows, j as int, shift as int, rr, col - j)
                    } else {
                        h0[ix(rr, col, hm as int)]
                    },
            decreases c - r,
        {
            let u = j + c + shift;
            let first = if in_rows { a.read(j + r, u) } else { a.read(u, j + r) };
            let mut acc = T::conj(first);
            let mut g: usize = u + 1;
            while g < long
                invariant
                    a.wf(),
                    m == a.nrows,
                    n == a.ncols,
                    long == if in_rows { n } else { m },
                    in_rows ==> j + bs <= m && j + bs + shift <= n,
                    !in_rows ==> j + bs <= n && j + bs + shift <= m,
                    r < c < bs,
                    u == j + c + shift,
                    u < g <= long,
                    acc == factor_sum(a.data@, m as int, in_rows, j as int, shift as int, r as int, c as int, (g - u - 1) as nat),
                decreases long - g,
            {
                let (er, ec) = if in_rows {
                    (a.read(j + r, g), a.read(j + c, g))
                } else {
                    (a.read(g, j + r), a.read(g, j + c))
                };
                acc = T::add(acc, T::mul(T::conj(er), ec));
                g = g + 1;
            }
            let ghost hb = h.data@;
            h.write(r, j + c, acc);
            proof {
                assert forall|rr: int, col: int| 0 <= rr < hm && 0 <= col < hn implies #[trigger] h.data@[ix(
                    rr,
                    col,
                    hm as int,
                )] == if (j <= col < j + c && rr < col - j) || (col == j + c && rr < r + 1) {
                    factor_entry(a.data@, m as int, long as int, in_rows, j as int, shift as int, rr, col - j)
                } else {
                    h0[ix(rr, col, hm as int)]
                } by {
                    lemma_ix_bound(rr, col, hm as int, hn as int);
                    lemma_ix_bound(r as int, j + c, hm as int, hn as int);
                    if ix(rr, col, hm as int) == ix(r as int, j + c, hm as int) {
                        lemma_ix_inj(rr, col, r as int, j + c, hm as int);
                    }
                    assert(hb[ix(rr, col, hm as int)] == if (j <= col < j + c && rr < col - j) || (col
                        == j + c && rr < r) {
                        factor_entry(a.data@, m as int, long as int, in_rows, j as int, shift as int, rr, col - j)
                    } else {
                        h0[ix(rr, col, hm as int)]
                    });
                }
            }
            r = r + 1;
        }
        c = c + 1;
    }
}

} // verus!
