use faer::bidiag::{bidiag_in_place, BidiagParams, Par};
use faer::cholesky::{reconstruct_lower, reconstruct_lower_in_place};
use faer::householder::{make_householder_in_place, upgrade_householder_factor};
use faer::mat::MatRef;
use faer::dense::Mat;
use faer::field::ComplexField;
use rand::rngs::StdRng;
use rand::{Rng, SeedableRng};
use rand_distr::StandardNormal;

#[derive(Clone, Copy, Debug, PartialEq)]
struct R(f64);

impl ComplexField for R {
    fn zero_spec() -> Self {
        Self::zero()
    }
    fn one_spec() -> Self {
        Self::one()
    }
    fn infinity_spec() -> Self {
        Self::infinity()
    }
    fn add_spec(a: Self, b: Self) -> Self {
        Self::add(a, b)
    }
    fn sub_spec(a: Self, b: Self) -> Self {
        Self::sub(a, b)
    }
    fn mul_spec(a: Self, b: Self) -> Self {
        Self::mul(a, b)
    }
    fn neg_spec(a: Self) -> Self {
        Self::neg(a)
    }
    fn conj_spec(a: Self) -> Self {
        Self::conj(a)
    }
    fn real_spec(a: Self) -> Self {
        Self::real_part(a)
    }
    fn mul_real_spec(a: Self, r: Self) -> Self {
        Self::mul_real(a, r)
    }
    fn recip_spec(a: Self) -> Self {
        Self::recip(a)
    }
    fn abs2_spec(a: Self) -> Self {
        Self::abs2(a)
    }
    fn abs_spec(a: Self) -> Self {
        Self::abs(a)
    }
    fn sqrt_spec(a: Self) -> Self {
        Self::sqrt(a)
    }
    fn is_zero_spec(a: Self) -> bool {
        Self::is_zero(a)
    }
    fn zero() -> Self {
        R(0.0)
    }
    fn one() -> Self {
        R(1.0)
    }
    fn infinity() -> Self {
        R(f64::INFINITY)
    }
    fn add(a: Self, b: Self) -> Self {
        R(a.0 + b.0)
    }
    fn sub(a: Self, b: Self) -> Self {
        R(a.0 - b.0)
    }
    fn mul(a: Self, b: Self) -> Self {
        R(a.0 * b.0)
    }
    fn neg(a: Self) -> Self {
        R(-a.0)
    }
    fn conj(a: Self) -> Self {
        a
    }
    fn real_part(a: Self) -> Self {
        a
    }
    fn mul_real(a: Self, r: Self) -> Self {
        R(a.0 * r.0)
    }
    fn recip(a: Self) -> Self {
        R(1.0 / a.0)
    }
    fn abs2(a: Self) -> Self {
        R(a.0 * a.0)
    }
    fn abs(a: Self) -> Self {
        R(a.0.abs())
    }
    fn sqrt(a: Self) -> Self {
        R(a.0.sqrt())
    }
    fn is_zero(a: Self) -> bool {
        a.0 == 0.0
    }
}

#[derive(Clone, Copy, Debug, PartialEq)]
struct C {
    re: f64,
    im: f64,
}

fn c(re: f64, im: f64) -> C {
    C { re, im }
}

impl ComplexField for C {
    fn zero_spec() -> Self {
        Self::zero()
    }
    fn one_spec() -> Self {
        Self::one()
    }
    fn infinity_spec() -> Self {
        Self::infinity()
    }
    fn add_spec(a: Self, b: Self) -> Self {
        Self::add(a, b)
    }
    fn sub_spec(a: Self, b: Self) -> Self {
        Self::sub(a, b)
    }
    fn mul_spec(a: Self, b: Self) -> Self {
        Self::mul(a, b)
    }
    fn neg_spec(a: Self) -> Self {
        Self::neg(a)
    }
    fn conj_spec(a: Self) -> Self {
        Self::conj(a)
    }
    fn real_spec(a: Self) -> Self {
        Self::real_part(a)
    }
    fn mul_real_spec(a: Self, r: Self) -> Self {
        Self::mul_real(a, r)
    }
    fn recip_spec(a: Self) -> Self {
        Self::recip(a)
    }
    fn abs2_spec(a: Self) -> Self {
        Self::abs2(a)
    }
    fn abs_spec(a: Self) -> Self {
        Self::abs(a)
    }
    fn sqrt_spec(a: Self) -> Self {
        Self::sqrt(a)
    }
    fn is_zero_spec(a: Self) -> bool {
        Self::is_zero(a)
    }
    fn zero() -> Self {
        c(0.0, 0.0)
    }
    fn one() -> Self {
        c(1.0, 0.0)
    }
    fn infinity() -> Self {
        c(f64::INFINITY, 0.0)
    }
    fn add(a: Self, b: Self) -> Self {
        c(a.re + b.re, a.im + b.im)
    }
    fn sub(a: Self, b: Self) -> Self {
        c(a.re - b.re, a.im - b.im)
    }
    fn mul(a: Self, b: Self) -> Self {
        c(a.re * b.re - a.im * b.im, a.re * b.im + a.im * b.re)
    }
    fn neg(a: Self) -> Self {
        c(-a.re, -a.im)
    }
    fn conj(a: Self) -> Self {
        c(a.re, -a.im)
    }
    fn real_part(a: Self) -> Self {
        c(a.re, 0.0)
    }
    fn mul_real(a: Self, r: Self) -> Self {
        c(a.re * r.re, a.im * r.re)
    }
    fn recip(a: Self) -> Self {
        if a.im == 0.0 {
            return c(1.0 / a.re, 0.0);
        }
        let d = a.re * a.re + a.im * a.im;
        c(a.re / d, -a.im / d)
    }
    fn abs2(a: Self) -> Self {
        c(a.re * a.re + a.im * a.im, 0.0)
    }
    fn abs(a: Self) -> Self {
        c(a.re.hypot(a.im), 0.0)
    }
    fn sqrt(a: Self) -> Self {
        c(a.re.sqrt(), 0.0)
    }
    fn is_zero(a: Self) -> bool {
        a.re == 0.0 && a.im == 0.0
    }
}

fn zeros<T: ComplexField>(m: usize, n: usize) -> Mat<T> {
    Mat::zeros(m, n)
}

fn get<T: ComplexField>(a: &Mat<T>, i: usize, j: usize) -> T {
    a.read(i, j)
}

fn sub<T: ComplexField>(a: T, b: T) -> T {
    T::sub(a, b)
}

/// The reflectors of `uv` applied to `a`: `a := U^H * a * V`, through the
/// block factors of `hl` (left) and `hr` (right).
fn apply_reflectors<T: ComplexField>(uv: &Mat<T>, hl: &Mat<T>, hr: &Mat<T>, a: &mut Mat<T>) {
    let m = uv.nrows();
    let n = uv.ncols();
    let size = m.min(n);
    let bl = hl.nrows();
    let br = hr.nrows();
    // left: per block, a := (I - V T^{-H} V^H) a
    let mut j = 0;
    while j < size {
        let bs = bl.min(size - j);
        let v = |g: usize, cc: usize| -> T {
            let col = j + cc;
            if g < col {
                T::zero()
            } else if g == col {
                T::one()
            } else {
                get(uv, g, col)
            }
        };
        for col in 0..n {
            let mut w: Vec<T> = (0..bs)
                .map(|cc| {
                    let mut acc = T::zero();
                    for g in 0..m {
                        acc = T::add(acc, T::mul(T::conj(v(g, cc)), get(a, g, col)));
                    }
                    acc
                })
                .collect();
            for cc in 0..bs {
                let mut x = w[cc];
                for r in 0..cc {
                    x = sub(x, T::mul(T::conj(get(hl, r, j + cc)), w[r]));
                }
                w[cc] = T::mul(x, T::recip(T::conj(get(hl, cc, j + cc))));
            }
            for g in 0..m {
                let mut acc = get(a, g, col);
                for cc in 0..bs {
                    acc = sub(acc, T::mul(v(g, cc), w[cc]));
                }
                a.write(g, col, acc);
            }
        }
        j += bs;
    }
    // right: per block, a[:, 1..] := a[:, 1..] (I - conj(E) conj(T)^{-1} E^T)
    if size > 0 {
        let s1 = size - 1;
        let mut j = 0;
        while j < s1 {
            let bs = br.min(s1 - j);
            let e = |g: usize, cc: usize| -> T {
                let row = j + cc;
                let col = g + 1;
                if g < row {
                    T::zero()
                } else if g == row {
                    T::one()
                } else {
                    get(uv, row, col)
                }
            };
            for row in 0..m {
                let mut w: Vec<T> = (0..bs)
                    .map(|cc| {
                        let mut acc = T::zero();
                        for g in 0..n - 1 {
                            acc = T::add(acc, T::mul(get(a, row, g + 1), T::conj(e(g, cc))));
                        }
                        acc
                    })
                    .collect();
                for cc in 0..bs {
                    let mut x = w[cc];
                    for r in 0..cc {
                        x = sub(x, T::mul(w[r], T::conj(get(hr, r, j + cc))));
                    }
                    w[cc] = T::mul(x, T::recip(T::conj(get(hr, cc, j + cc))));
                }
                for g in 0..n - 1 {
                    let mut acc = get(a, row, g + 1);
                    for cc in 0..bs {
                        acc = sub(acc, T::mul(w[cc], e(g, cc)));
                    }
                    a.write(row, g + 1, acc);
                }
            }
            j += bs;
        }
    }
}

fn random_real(rng: &mut StdRng, m: usize, n: usize) -> Mat<R> {
    let mut a = zeros(m, n);
    for j in 0..n {
        for i in 0..m {
            let x: f64 = rng.sample(StandardNormal);
            a.write(i, j, R(x));
        }
    }
    a
}

fn random_cplx(rng: &mut StdRng, m: usize, n: usize) -> Mat<C> {
    let mut a = zeros(m, n);
    for j in 0..n {
        for i in 0..m {
            let re: f64 = rng.sample(StandardNormal);
            let im: f64 = rng.sample(StandardNormal);
            a.write(i, j, c(re, im));
        }
    }
    a
}

fn copy<T: ComplexField>(a: &Mat<T>) -> Mat<T> {
    Mat::from_column_major(a.data.clone(), a.nrows(), a.ncols())
}

fn approx_eq(x: f64, y: f64) -> bool {
    let tol = f64::EPSILON * 128.0;
    (x - y).abs() <= tol || (x - y).abs() <= tol * x.abs().max(y.abs())
}

fn run_bidiag<T: ComplexField>(a: &Mat<T>, bl: usize, br: usize, par: Par, params: BidiagParams) -> (Mat<T>, Mat<T>, Mat<T>) {
    let m = a.nrows();
    let n = a.ncols();
    let size = m.min(n);
    let mut hl = zeros(bl, size);
    let mut hr = zeros(br, size.saturating_sub(1));
    let mut uv = copy(a);
    let mut stack: Vec<T> = vec![T::zero(); n + m];
    bidiag_in_place(&mut uv, &mut hl, &mut hr, par, &mut stack, params);
    (uv, hl, hr)
}

#[test]
fn test_bidiag_real() {
    let rng = &mut StdRng::seed_from_u64(0);

    for (m, n) in [(8, 4), (8, 8)] {
        let a = random_real(rng, m, n);
        let (mut uv, hl, hr) = run_bidiag(&a, 4, 3, Par::Sequential, BidiagParams::auto());

        let mut a = copy(&a);
        apply_reflectors(&uv, &hl, &hr, &mut a);

        for j in 0..n {
            for i in 0..m {
                if i > j || j > i + 1 {
                    uv.write(i, j, R(0.0));
                }
            }
        }
        for j in 0..n {
            for i in 0..m {
                assert!(approx_eq(get(&uv, i, j).0, get(&a, i, j).0), "({i}, {j}): {:?} vs {:?}", get(&uv, i, j), get(&a, i, j));
            }
        }
    }
}

#[test]
fn test_bidiag_cplx() {
    let rng = &mut StdRng::seed_from_u64(0);

    for (m, n) in [(8, 4), (8, 8)] {
        let a = random_cplx(rng, m, n);
        let (mut uv, hl, hr) = run_bidiag(&a, 4, 3, Par::Sequential, BidiagParams::auto());

        let mut a = copy(&a);
        apply_reflectors(&uv, &hl, &hr, &mut a);

        for j in 0..n {
            for i in 0..m {
                if i > j || j > i + 1 {
                    uv.write(i, j, c(0.0, 0.0));
                }
            }
        }
        for j in 0..n {
            for i in 0..m {
                let x = get(&uv, i, j);
                let y = get(&a, i, j);
                assert!(approx_eq(x.re, y.re) && approx_eq(x.im, y.im), "({i}, {j}): {x:?} vs {y:?}");
            }
        }
    }
}

fn check_reconstruction<T: ComplexField + std::fmt::Debug>(a: &Mat<T>, bl: usize, br: usize, close: impl Fn(T, T) -> bool) {
    let m = a.nrows();
    let n = a.ncols();
    let (mut uv, hl, hr) = run_bidiag(a, bl, br, Par::Sequential, BidiagParams::auto());
    let mut b = copy(a);
    apply_reflectors(&uv, &hl, &hr, &mut b);
    for j in 0..n {
        for i in 0..m {
            if i > j || j > i + 1 {
                uv.write(i, j, T::zero());
            }
        }
    }
    for j in 0..n {
        for i in 0..m {
            assert!(close(get(&uv, i, j), get(&b, i, j)), "({i}, {j}): {:?} vs {:?}", uv.data[i + j * m], b.data[i + j * m]);
        }
    }
}

#[test]
fn bidiag_tall_and_square_real() {
    let rng = &mut StdRng::seed_from_u64(7);
    for (m, n, bl, br) in [(9, 7, 2, 2), (6, 3, 1, 1), (4, 4, 5, 5), (5, 1, 2, 2), (2, 2, 1, 1)] {
        let a = random_real(rng, m, n);
        check_reconstruction(&a, bl, br, |x: R, y: R| approx_eq(x.0, y.0));
    }
}

#[test]
fn bidiag_tall_complex() {
    let rng = &mut StdRng::seed_from_u64(11);
    let a = random_cplx(rng, 6, 4);
    check_reconstruction(&a, 2, 3, |x: C, y: C| approx_eq(x.re, y.re) && approx_eq(x.im, y.im));
}

#[test]
fn bidiag_empty_is_noop() {
    for (m, n) in [(0, 3), (3, 0), (0, 0)] {
        let a = Mat::from_column_major(vec![R(1.5); m * n], m, n);
        let mut uv = copy(&a);
        let mut hl: Mat<R> = Mat::from_column_major(vec![], 2, 0);
        let mut hr: Mat<R> = Mat::from_column_major(vec![], 3, 0);
        let mut stack = vec![R(9.0); m + n];
        bidiag_in_place(&mut uv, &mut hl, &mut hr, Par::Rayon(2), &mut stack, BidiagParams::auto());
        assert_eq!(uv.data, a.data);
        assert_eq!((uv.nrows(), uv.ncols()), (m, n));
        assert!(hl.data.is_empty() && hr.data.is_empty());
        assert_eq!(stack, vec![R(9.0); m + n]);
    }
}

#[test]
fn bidiag_single_entry() {
    let a = Mat::from_column_major(vec![R(3.0)], 1, 1);
    let (uv, hl, hr) = run_bidiag(&a, 1, 1, Par::Sequential, BidiagParams::auto());
    assert_eq!(uv.data, vec![R(3.0)]);
    assert_eq!(hl.data, vec![R(f64::INFINITY)]);
    assert!(hr.data.is_empty());
}

#[test]
fn bidiag_single_column_reflector() {
    let a = Mat::from_column_major(vec![R(3.0), R(4.0)], 2, 1);
    let (uv, hl, _) = run_bidiag(&a, 1, 1, Par::Sequential, BidiagParams::auto());
    assert_eq!(uv.data, vec![R(-5.0), R(0.5)]);
    assert_eq!(hl.data, vec![R(0.625)]);
}

fn same_bits(x: &Mat<R>, y: &Mat<R>) -> bool {
    x.data.len() == y.data.len() && x.data.iter().zip(y.data.iter()).all(|(p, q)| p.0.to_bits() == q.0.to_bits())
}

#[test]
fn bidiag_parallel_matches_sequential() {
    let rng = &mut StdRng::seed_from_u64(3);
    let a = random_real(rng, 9, 7);
    let always = BidiagParams { par_threshold: 0 };
    let (u0, l0, r0) = run_bidiag(&a, 3, 2, Par::Sequential, always);
    for parts in [1, 2, 3, 4, 10] {
        let (u1, l1, r1) = run_bidiag(&a, 3, 2, Par::Rayon(parts), always);
        assert!(same_bits(&u0, &u1) && same_bits(&l0, &l1) && same_bits(&r0, &r1), "{parts} parts");
    }
}

#[test]
fn bidiag_small_blocks_fall_back_to_one_thread() {
    let rng = &mut StdRng::seed_from_u64(5);
    let a = random_real(rng, 6, 6);
    let (u0, l0, r0) = run_bidiag(&a, 2, 2, Par::Sequential, BidiagParams::auto());
    let (u1, l1, r1) = run_bidiag(&a, 2, 2, Par::Rayon(8), BidiagParams::auto());
    assert!(same_bits(&u0, &u1) && same_bits(&l0, &l1) && same_bits(&r0, &r1));
}

#[test]
fn householder_on_a_row() {
    // row 1 of a 2 x 3 matrix: [0, 0, 2] from column 0
    let mut a = vec![R(7.0), R(0.0), R(7.0), R(0.0), R(7.0), R(2.0)];
    let (tau, mult) = make_householder_in_place(&mut a, 2, 3, 1, 0, false, 2);
    assert_eq!(a, vec![R(7.0), R(-2.0), R(7.0), R(0.0), R(7.0), R(1.0)]);
    assert_eq!(mult, Some(R(0.5)));
    assert_eq!(tau, R(1.0));
    let mut z = vec![R(2.0), R(0.0)];
    let (tau, mult) = make_householder_in_place(&mut z, 2, 1, 0, 0, true, 1);
    assert_eq!((tau, mult), (R(f64::INFINITY), None));
    assert_eq!(z, vec![R(2.0), R(0.0)]);
}

#[test]
fn block_factor_from_stored_reflectors() {
    // reflectors in columns 0 and 1 of a 3 x 2 matrix:
    // v0 = [1, 2, 3], v1 = [0, 1, 5]; v0^H v1 = 2 + 15 = 17
    let a = Mat::from_column_major(vec![R(9.0), R(2.0), R(3.0), R(9.0), R(9.0), R(5.0)], 3, 2);
    let mut h = Mat::from_column_major(vec![R(0.5), R(-1.0), R(0.25), R(-2.0)], 2, 2);
    upgrade_householder_factor(&mut h, &a, 0, 2, false, 0);
    assert_eq!(h.data, vec![R(0.5), R(-1.0), R(17.0), R(-2.0)]);
}

#[test]
fn cholesky_reconstruction_real() {
    let l = Mat::from_column_major(vec![R(2.0), R(1.0), R(0.0), R(3.0)], 2, 2);
    let mut dst = Mat::from_column_major(vec![R(-1.0); 4], 2, 2);
    reconstruct_lower(&mut dst, &l, Par::Sequential);
    assert_eq!(dst.data, vec![R(4.0), R(2.0), R(-1.0), R(10.0)]);
    let mut f = Mat::from_column_major(vec![R(2.0), R(1.0), R(7.0), R(3.0)], 2, 2);
    let mut stack = vec![R(0.0); 4];
    reconstruct_lower_in_place(&mut f, Par::Rayon(2), &mut stack);
    assert_eq!(f.data, vec![R(4.0), R(2.0), R(7.0), R(10.0)]);
}

#[test]
fn cholesky_reconstruction_complex() {
    let l = Mat::from_column_major(vec![c(2.0, 0.0), c(1.0, 1.0), c(0.0, 0.0), c(3.0, 0.0)], 2, 2);
    let mut dst = Mat::from_column_major(vec![c(0.0, 0.0); 4], 2, 2);
    reconstruct_lower(&mut dst, &l, Par::Sequential);
    assert_eq!(dst.data, vec![c(4.0, 0.0), c(2.0, 2.0), c(0.0, 0.0), c(11.0, 0.0)]);
}

#[test]
fn view_reads_conjugate() {
    let d = vec![c(1.0, 2.0), c(3.0, -4.0)];
    let v = MatRef::from_column_major_slice(&d, 2, 1);
    assert_eq!(v.read(1, 0), c(3.0, -4.0));
    let h = v.adjoint();
    assert_eq!(h.shape(), (1, 2));
    assert_eq!(h.read(0, 1), c(3.0, 4.0));
    assert_eq!(h.conjugate().read(0, 0), c(1.0, 2.0));
}

#[test]
fn dense_matrix_basics() {
    let mut a: Mat<R> = Mat::zeros(2, 3);
    a.write(1, 2, R(5.0));
    assert_eq!(a.read(1, 2), R(5.0));
    assert_eq!(a.data[5], R(5.0));
    assert_eq!(a.as_ref().shape(), (2, 3));
    assert_eq!(*a.as_ref().get(1, 2), R(5.0));
}

#[test]
fn view_copies_into_owned_matrix() {
    let d = vec![c(1.0, 2.0), c(3.0, -4.0), c(5.0, 6.0), c(7.0, 8.0)];
    let v = MatRef::from_column_major_slice(&d, 2, 2).adjoint();
    let cl = v.cloned();
    assert_eq!((cl.nrows(), cl.ncols()), (2, 2));
    assert_eq!(cl.data, vec![c(1.0, 2.0), c(5.0, 6.0), c(3.0, -4.0), c(7.0, 8.0)]);
    let ow = v.to_owned();
    assert_eq!(ow.data, vec![c(1.0, -2.0), c(5.0, -6.0), c(3.0, 4.0), c(7.0, -8.0)]);
}
