//! How far rounded results lie from the exact ones.
use vstd::prelude::*;
use vstd::arithmetic::power2::*;
use crate::magnitude;
use crate::rounding;
use crate::scalar;
use crate::scalar::Scalar;

verus! {

/// A number without its sign.
pub open spec fn size(n: int) -> int {
    rounding::distance(n, 0)
}

/// How far a rounded sum lies from the exact one, in units.
pub open spec fn sum_error(a: Scalar, b: Scalar) -> int {
    rounding::distance(a.value() + b.value(), a.plus(b).value())
}

/// How far a rounded product lies from the exact one, in squares of units.
pub open spec fn product_error(a: Scalar, b: Scalar) -> int {
    rounding::distance(a.value() * b.value(), pow2(149) * a.times(b).value())
}

/// How far a rounded quotient, times the divisor, lies from the dividend, in squares
/// of units.
pub open spec fn quotient_error(a: Scalar, b: Scalar) -> int {
    rounding::distance(a.value() * pow2(149), b.value() * a.over(b).value())
}

/// How close the number nearest to `n / d` units is, either way from zero.
proof fn lemma_nearest_is_close(n: int, d: int)
    requires
        d > 0,
        scalar::nearest_value(n, d) < magnitude::units(rounding::INFINITE as int),
        -scalar::nearest_value(n, d) < magnitude::units(rounding::INFINITE as int),
    ensures
        ({
            let e = rounding::distance(n, d * scalar::nearest_value(n, d));
            0x100_0000 * e <= size(n) || 2 * e <= d
        }),
{
    let m = size(n);
    let u = magnitude::units(rounding::rounded(m, d));
    magnitude::lemma_rounded_range(m, d);
    magnitude::law_rounding_is_close(m, d);
    assert(d * (-u) == -(d * u)) by (nonlinear_arith);
}

proof fn lemma_finite_value(a: Scalar)
    requires
        a.finite(),
    ensures
        -magnitude::units(rounding::INFINITE as int) < a.value() < magnitude::units(
            rounding::INFINITE as int,
        ),
{
    magnitude::lemma_units_sign(a.magnitude());
    magnitude::lemma_units_increase(a.magnitude(), rounding::INFINITE as int);
}

/// A finite sum errs by no more than one part in two to the power 24.
pub proof fn law_sums_are_close(a: Scalar, b: Scalar)
    requires
        a.finite(),
        b.finite(),
        a.plus(b).finite(),
    ensures
        0x100_0000 * sum_error(a, b) <= size(a.value() + b.value()),
{
    scalar::lemma_plus_value(a, b);
    lemma_finite_value(a.plus(b));
    lemma_nearest_is_close(a.value() + b.value(), 1);
}

/// A finite product errs by no more than one part in two to the power 24, or by half
/// the smallest positive number.
pub proof fn law_products_are_close(a: Scalar, b: Scalar)
    requires
        a.finite(),
        b.finite(),
        a.times(b).finite(),
    ensures
        0x100_0000 * product_error(a, b) <= size(a.value() * b.value()) || 2 * product_error(a, b)
            <= pow2(149),
{
    lemma_pow2_pos(149);
    scalar::lemma_times_value(a, b);
    lemma_finite_value(a.times(b));
    lemma_nearest_is_close(a.value() * b.value(), pow2(149) as int);
}

/// A finite quotient by a positive number errs by no more than one part in two to the
/// power 24, or by half the smallest positive number.
pub proof fn law_quotients_are_close(a: Scalar, b: Scalar)
    requires
        a.finite(),
        b.finite(),
        !b.negative(),
        !b.zero(),
        a.over(b).finite(),
    ensures
        0x100_0000 * quotient_error(a, b) <= size(a.value() * pow2(149)) || 2 * quotient_error(a, b)
            <= b.value(),
{
    magnitude::lemma_units_sign(b.magnitude());
    scalar::lemma_over_value(a, b);
    lemma_finite_value(a.over(b));
    lemma_nearest_is_close(a.value() * pow2(149), b.value());
}

} // verus!
