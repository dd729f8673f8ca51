//! The element type of a multiplication: its operations as spec functions,
//! and the exact instance of wrapping `i64` arithmetic.
use vstd::prelude::*;

verus! {

/// The element type of a multiplication.
///
/// The spec functions name the element operations; the exec functions perform
/// them. Every result of the engine is stated in terms of these operations, so
/// the engine is exact for any instance, including ones whose addition is not
/// associative.
pub trait Number: Copy + Send + Sync + Sized {
    spec fn spec_zero() -> Self;

    spec fn spec_plus(a: Self, b: Self) -> Self;

    spec fn spec_times(a: Self, b: Self) -> Self;

    /// `a * b + c`, possibly fused.
    spec fn spec_mul_add(a: Self, b: Self, c: Self) -> Self;

    spec fn spec_is_zero(a: Self) -> bool;

    fn zero() -> (r: Self)
        ensures
            r == Self::spec_zero(),
    ;

    fn plus(a: Self, b: Self) -> (r: Self)
        ensures
            r == Self::spec_plus(a, b),
    ;

    fn times(a: Self, b: Self) -> (r: Self)
        ensures
            r == Self::spec_times(a, b),
    ;

    fn mul_add(a: Self, b: Self, c: Self) -> (r: Self)
        ensures
            r == Self::spec_mul_add(a, b, c),
    ;

    fn is_zero(a: Self) -> (r: bool)
        ensures
            r == Self::spec_is_zero(a),
    ;
}

/// Two's-complement integers with wrapping arithmetic: a commutative ring
/// modulo 2^64, so every blocking of a product gives the same result.
impl Number for i64 {
    open spec fn spec_zero() -> i64 {
        0
    }

    open spec fn spec_plus(a: i64, b: i64) -> i64 {
        vstd::wrapping::i64_specs::wrapping_add(a, b)
    }

    open spec fn spec_times(a: i64, b: i64) -> i64 {
        vstd::wrapping::i64_specs::wrapping_mul(a, b)
    }

    open spec fn spec_mul_add(a: i64, b: i64, c: i64) -> i64 {
        Self::spec_plus(Self::spec_times(a, b), c)
    }

    open spec fn spec_is_zero(a: i64) -> bool {
        a == 0
    }

    fn zero() -> (r: i64) {
        0
    }

    fn plus(a: i64, b: i64) -> (r: i64) {
        a.wrapping_add(b)
    }

    fn times(a: i64, b: i64) -> (r: i64) {
        a.wrapping_mul(b)
    }

    fn mul_add(a: i64, b: i64, c: i64) -> (r: i64) {
        a.wrapping_mul(b).wrapping_add(c)
    }

    fn is_zero(a: i64) -> (r: bool) {
        a == 0
    }
}

} // verus!
