//! The scalar abstraction that every kernel of the library is generic over.
//!
//! Real values (norms, Householder scales) are carried in the same type,
//! with a zero imaginary part. Each operation has a spec-level counterpart,
//! so that the kernels can state exactly which operations they perform, in
//! which order, on which operands.
use vstd::prelude::*;

verus! {

/// A real or complex scalar.
pub trait ComplexField: Sized + Copy {
    spec fn zero_spec() -> Self;

    spec fn one_spec() -> Self;

    spec fn infinity_spec() -> Self;

    spec fn add_spec(a: Self, b: Self) -> Self;

    spec fn sub_spec(a: Self, b: Self) -> Self;

    spec fn mul_spec(a: Self, b: Self) -> Self;

    spec fn neg_spec(a: Self) -> Self;

    spec fn conj_spec(a: Self) -> Self;

    /// The real part, as a scalar with a zero imaginary part.
    spec fn real_spec(a: Self) -> Self;

    /// `a` times the real part of `r`.
    spec fn mul_real_spec(a: Self, r: Self) -> Self;

    /// The reciprocal.
    spec fn recip_spec(a: Self) -> Self;

    /// The squared modulus, as a real scalar.
    spec fn abs2_spec(a: Self) -> Self;

    /// The modulus, as a real scalar.
    spec fn abs_spec(a: Self) -> Self;

    /// The square root of the real part.
    spec fn sqrt_spec(a: Self) -> Self;

    spec fn is_zero_spec(a: Self) -> bool;

    fn zero() -> (r: Self)
        ensures
            r == Self::zero_spec(),
    ;

    fn one() -> (r: Self)
        ensures
            r == Self::one_spec(),
    ;

    fn infinity() -> (r: Self)
        ensures
            r == Self::infinity_spec(),
    ;

    fn add(a: Self, b: Self) -> (r: Self)
        ensures
            r == Self::add_spec(a, b),
    ;

    fn sub(a: Self, b: Self) -> (r: Self)
        ensures
            r == Self::sub_spec(a, b),
    ;

    fn mul(a: Self, b: Self) -> (r: Self)
        ensures
            r == Self::mul_spec(a, b),
    ;

    fn neg(a: Self) -> (r: Self)
        ensures
            r == Self::neg_spec(a),
    ;

    fn conj(a: Self) -> (r: Self)
        ensures
            r == Self::conj_spec(a),
    ;

    fn real_part(a: Self) -> (r: Self)
        ensures
            r == Self::real_spec(a),
    ;

    fn mul_real(a: Self, r: Self) -> (s: Self)
        ensures
            s == Self::mul_real_spec(a, r),
    ;

    fn recip(a: Self) -> (r: Self)
        ensures
            r == Self::recip_spec(a),
    ;

    fn abs2(a: Self) -> (r: Self)
        ensures
            r == Self::abs2_spec(a),
    ;

    fn abs(a: Self) -> (r: Self)
        ensures
            r == Self::abs_spec(a),
    ;

    fn sqrt(a: Self) -> (r: Self)
        ensures
            r == Self::sqrt_spec(a),
    ;

    fn is_zero(a: Self) -> (r: bool)
        ensures
            r == Self::is_zero_spec(a),
    ;
}

/// `conj(u[0]) * v[0] + ... + conj(u[len-1]) * v[len-1]`, summed from the
/// first term on, starting from zero.
pub open spec fn dot_conj<T: ComplexField>(u: Seq<T>, v: Seq<T>, len: nat) -> T
    decreases len,
{
    if len == 0 {
        T::zero_spec()
    } else {
        T::add_spec(
            dot_conj(u, v, (len - 1) as nat),
            T::mul_spec(T::conj_spec(u[len - 1]), v[len - 1]),
        )
    }
}

/// `u[0] * conj(v[0]) + ... + u[len-1] * conj(v[len-1])`, summed from the
/// first term on, starting from zero.
pub open spec fn dot_rconj<T: ComplexField>(u: Seq<T>, v: Seq<T>, len: nat) -> T
    decreases len,
{
    if len == 0 {
        T::zero_spec()
    } else {
        T::add_spec(
            dot_rconj(u, v, (len - 1) as nat),
            T::mul_spec(u[len - 1], T::conj_spec(v[len - 1])),
        )
    }
}

/// `abs2(v[0]) + ... + abs2(v[len-1])`, summed from the first term on.
pub open spec fn sum_abs2<T: ComplexField>(v: Seq<T>, len: nat) -> T
    decreases len,
{
    if len == 0 {
        T::zero_spec()
    } else {
        T::add_spec(sum_abs2(v, (len - 1) as nat), T::abs2_spec(v[len - 1]))
    }
}

} // verus!
