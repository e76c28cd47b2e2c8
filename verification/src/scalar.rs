//! The numeric scalar abstraction.
//!
//! The scalar is an external collaborator: the library never computes with
//! it directly, it only composes the operations this trait exposes. Each
//! implementation fixes the meaning of the abstract spec functions, and the
//! executable methods promise to agree with them; everything the library
//! proves holds for every implementation that keeps that promise.

use vstd::prelude::*;

verus! {

/// A numeric scalar: the element type of matrices.
///
/// The spec functions are abstract: an implementation gives them meaning.
/// Each executable method must return exactly what its spec function says,
/// so that matrix contracts can speak of scalar arithmetic symbolically.
pub trait Scalar: Sized + Copy {
    /// Meaning of addition.
    spec fn add_s(a: Self, b: Self) -> Self;

    /// Meaning of subtraction.
    spec fn sub_s(a: Self, b: Self) -> Self;

    /// Meaning of multiplication.
    spec fn mul_s(a: Self, b: Self) -> Self;

    /// Meaning of division.
    spec fn div_s(a: Self, b: Self) -> Self;

    /// Meaning of negation.
    spec fn neg_s(a: Self) -> Self;

    /// Meaning of raising `base` to the power `exponent`.
    spec fn pow_s(base: Self, exponent: Self) -> Self;

    /// Meaning of the strict `a < b` comparison.
    spec fn lt_s(a: Self, b: Self) -> bool;

    /// Meaning of the strict `a > b` comparison.
    spec fn gt_s(a: Self, b: Self) -> bool;

    /// Whether `a` is a not-a-number value. A scalar type without such
    /// values reports `false` everywhere.
    spec fn nan_s(a: Self) -> bool;

    /// The scalar standing for the natural number `n`.
    spec fn from_count_s(n: usize) -> Self;

    /// The scalar closest to Euler's number, used by the logistic curve.
    spec fn euler_s() -> Self;

    fn add(a: Self, b: Self) -> (r: Self)
        ensures
            r == Self::add_s(a, b),
    ;

    fn sub(a: Self, b: Self) -> (r: Self)
        ensures
            r == Self::sub_s(a, b),
    ;

    fn mul(a: Self, b: Self) -> (r: Self)
        ensures
            r == Self::mul_s(a, b),
    ;

    fn div(a: Self, b: Self) -> (r: Self)
        ensures
            r == Self::div_s(a, b),
    ;

    fn neg(a: Self) -> (r: Self)
        ensures
            r == Self::neg_s(a),
    ;

    fn power(base: Self, exponent: Self) -> (r: Self)
        ensures
            r == Self::pow_s(base, exponent),
    ;

    fn lt(a: Self, b: Self) -> (r: bool)
        ensures
            r == Self::lt_s(a, b),
    ;

    fn gt(a: Self, b: Self) -> (r: bool)
        ensures
            r == Self::gt_s(a, b),
    ;

    fn is_nan(a: Self) -> (r: bool)
        ensures
            r == Self::nan_s(a),
    ;

    fn from_count(n: usize) -> (r: Self)
        ensures
            r == Self::from_count_s(n),
    ;

    fn euler() -> (r: Self)
        ensures
            r == Self::euler_s(),
    ;
}

/// The scalar standing for zero.
pub open spec fn zero_s<S: Scalar>() -> S {
    S::from_count_s(0)
}

/// The scalar standing for one.
pub open spec fn one_s<S: Scalar>() -> S {
    S::from_count_s(1)
}

/// The logistic curve `1 / (1 + e^(-x))`, composed from the abstract
/// scalar operations exactly as the matrix primitive computes it.
pub open spec fn sigmoid_s<S: Scalar>(x: S) -> S {
    S::div_s(one_s(), S::add_s(one_s(), S::pow_s(S::euler_s(), S::neg_s(x))))
}

/// The sign of `x`: one if positive, minus one if negative, zero otherwise.
pub open spec fn sign_s<S: Scalar>(x: S) -> S {
    if S::gt_s(x, zero_s()) {
        one_s::<S>()
    } else if S::lt_s(x, zero_s()) {
        S::neg_s(one_s())
    } else {
        zero_s::<S>()
    }
}

} // verus!
