//! What the rounded operations give, stated by the exact results alone.
use vstd::prelude::*;
use vstd::arithmetic::power2::*;
use crate::magnitude;
use crate::rounding;
use crate::scalar;
use crate::scalar::{NEGATIVE_INFINITY, POSITIVE_INFINITY, Scalar};

verus! {

/// One, in units.
pub open spec fn unit() -> int {
    pow2(149) as int
}

/// Whether no number lies nearer to `n / d` units than this one. Infinity counts at its
/// place past the finite numbers.
pub open spec fn nearest(r: Scalar, n: int, d: int) -> bool {
    &&& !r.nan()
    &&& forall|m: Scalar|
        !m.nan() ==> rounding::distance(n, d * r.value()) <= rounding::distance(
            n,
            d * #[trigger] m.value(),
        )
}

/// The infinity of a sign.
pub open spec fn infinity(negative: bool) -> Scalar {
    if negative {
        Scalar { bits: NEGATIVE_INFINITY }
    } else {
        Scalar { bits: POSITIVE_INFINITY }
    }
}

/// Whether a number is the sum of two.
pub open spec fn is_sum(r: Scalar, a: Scalar, b: Scalar) -> bool {
    if a.nan() || b.nan() {
        r.nan()
    } else if a.infinite() && b.infinite() && a.negative() != b.negative() {
        r.nan()
    } else if a.infinite() {
        r == a
    } else if b.infinite() {
        r == b
    } else {
        &&& nearest(r, a.value() + b.value(), 1)
        &&& a.value() + b.value() == 0 ==> r.zero() && r.negative() == (a.negative()
            && b.negative())
    }
}

/// Whether a number is the difference of two.
pub open spec fn is_difference(r: Scalar, a: Scalar, b: Scalar) -> bool {
    exists|c: Scalar| #[trigger] is_opposite(c, b) && is_sum(r, a, c)
}

/// Whether a number is another with its sign flipped.
pub open spec fn is_opposite(r: Scalar, a: Scalar) -> bool {
    r.negative() != a.negative() && r.magnitude() == a.magnitude()
}

/// Whether a number is the product of two.
pub open spec fn is_product(r: Scalar, a: Scalar, b: Scalar) -> bool {
    let negative = a.negative() != b.negative();
    if a.nan() || b.nan() {
        r.nan()
    } else if a.infinite() || b.infinite() {
        if a.zero() || b.zero() {
            r.nan()
        } else {
            r == infinity(negative)
        }
    } else {
        nearest(r, a.value() * b.value(), unit()) && r.negative() == negative
    }
}

/// Whether a number is the quotient of two.
pub open spec fn is_quotient(r: Scalar, a: Scalar, b: Scalar) -> bool {
    let negative = a.negative() != b.negative();
    if a.nan() || b.nan() || (a.infinite() && b.infinite()) || (a.zero() && b.zero()) {
        r.nan()
    } else if a.infinite() || b.zero() {
        r == infinity(negative)
    } else if b.infinite() {
        r.zero() && r.negative() == negative
    } else {
        &&& r.negative() == negative
        &&& if b.negative() {
            nearest(r, -(a.value() * unit()), -b.value())
        } else {
            nearest(r, a.value() * unit(), b.value())
        }
    }
}

/// Whether a number is the square root of another: the exact one lies between the
/// midpoints to its neighbors.
pub open spec fn is_root(r: Scalar, a: Scalar) -> bool {
    if a.nan() {
        r.nan()
    } else if a.zero() {
        r == a
    } else if a.negative() {
        r.nan()
    } else if a.infinite() {
        r == a
    } else {
        let m = r.magnitude();
        let low = magnitude::units(m - 1) + magnitude::units(m);
        let high = magnitude::units(m) + magnitude::units(m + 1);
        &&& r.finite() && !r.negative() && m > 0
        &&& low * low <= 4 * (a.value() * unit()) <= high * high
    }
}

pub proof fn lemma_nearest(r: Scalar, n: int, d: int)
    requires
        d > 0,
        !r.nan(),
        r.value() == scalar::nearest_value(n, d),
    ensures
        nearest(r, n, d),
{
    let v = if n < 0 {
        -n
    } else {
        n
    };
    let u = magnitude::units(rounding::rounded(v, d));
    assert(d * (-u) == -(d * u)) by (nonlinear_arith);
    assert forall|m: Scalar| !m.nan() implies rounding::distance(n, d * r.value())
        <= rounding::distance(n, d * #[trigger] m.value()) by {
        let w = magnitude::units(m.magnitude());
        magnitude::law_rounding_is_to_nearest(v, d, m.magnitude());
        magnitude::law_rounding_is_to_nearest(v, d, 0);
        magnitude::lemma_units_sign(0);
        magnitude::lemma_units_sign(m.magnitude());
        assert(d * (-w) == -(d * w) && d * w >= 0 && d * 0 == 0) by (nonlinear_arith)
            requires
                d > 0,
                w >= 0,
        ;
    }
}

/// Adding gives the sum.
pub proof fn law_plus_is_the_sum(a: Scalar, b: Scalar)
    ensures
        is_sum(a.plus(b), a, b),
{
    if a.finite() && b.finite() {
        scalar::lemma_plus_value(a, b);
        lemma_nearest(a.plus(b), a.value() + b.value(), 1);
    }
    reveal(Scalar::spec_plus);
}

/// Flipping the sign gives the opposite, whose value is the negative one.
pub proof fn law_negated_is_the_opposite(a: Scalar)
    ensures
        is_opposite(a.negated(), a),
        !a.nan() ==> a.negated().value() == -a.value(),
        a.negated().nan() == a.nan(),
{
    if !a.nan() {
        magnitude::lemma_units_sign(a.magnitude());
    }
}

/// Taking away gives the difference.
pub proof fn law_minus_is_the_difference(a: Scalar, b: Scalar)
    ensures
        is_difference(a.minus(b), a, b),
{
    law_negated_is_the_opposite(b);
    law_plus_is_the_sum(a, b.negated());
}

/// Multiplying gives the product.
pub proof fn law_times_is_the_product(a: Scalar, b: Scalar)
    ensures
        is_product(a.times(b), a, b),
{
    lemma_pow2_pos(149);
    reveal(Scalar::spec_times);
    if a.finite() && b.finite() {
        scalar::lemma_times_value(a, b);
        lemma_nearest(a.times(b), a.value() * b.value(), unit());
        let (m, n) = (magnitude::units(a.magnitude()), magnitude::units(b.magnitude()));
        magnitude::lemma_units_sign(a.magnitude());
        magnitude::lemma_units_sign(b.magnitude());
        assert(m * n >= 0) by (nonlinear_arith)
            requires
                m >= 0,
                n >= 0,
        ;
        magnitude::lemma_rounded_range(m * n, unit());
    }
}

/// Dividing gives the quotient.
pub proof fn law_over_is_the_quotient(a: Scalar, b: Scalar)
    ensures
        is_quotient(a.over(b), a, b),
{
    lemma_pow2_pos(149);
    reveal(Scalar::spec_over);
    if a.finite() && b.finite() && !b.zero() {
        let (m, n) = (magnitude::units(a.magnitude()), magnitude::units(b.magnitude()));
        magnitude::lemma_units_sign(a.magnitude());
        magnitude::lemma_units_sign(b.magnitude());
        magnitude::lemma_units_sign(0);
        let u = unit();
        assert(m * u >= 0 && (m > 0 ==> m * u > 0) && (-m) * u == -(m * u)) by (nonlinear_arith)
            requires
                m >= 0,
                u > 0,
        ;
        magnitude::lemma_rounded_range(m * u, n);
        rounding::lemma_rounded_zero(n);
        let r = a.over(b);
        if b.negative() {
            lemma_nearest(r, -(a.value() * u), -b.value());
        } else {
            lemma_nearest(r, a.value() * u, b.value());
        }
    }
}

/// Taking the root gives the root.
pub proof fn law_root_is_the_root(a: Scalar)
    ensures
        is_root(a.root(), a),
{
    if a.finite() && !a.negative() && !a.zero() {
        scalar::law_roots_are_nearest(a);
    }
    reveal(Scalar::spec_root);
}

/// An integer becomes the number nearest to it.
pub proof fn law_integers_become_the_nearest(n: u32)
    ensures
        nearest(Scalar::from_u32(n), n * unit(), 1),
        !Scalar::from_u32(n).negative(),
{
    lemma_pow2_pos(149);
    reveal(Scalar::spec_from_u32);
    let v = n * unit();
    assert(v >= 0) by (nonlinear_arith)
        requires
            v == n * unit(),
            unit() > 0,
    ;
    magnitude::lemma_rounded_range(v, 1);
    lemma_nearest(Scalar::from_u32(n), v, 1);
}

/// Nothing compares with what is no number.
pub proof fn law_what_is_no_number_does_not_compare(a: Scalar, b: Scalar)
    requires
        a.nan() || b.nan(),
    ensures
        !a.lt(b),
        !a.le(b),
{
}

/// Kept to a least number, a number stays where it is greater, and what is no number
/// becomes the least.
pub proof fn law_at_least_is_the_greater(a: Scalar, floor: Scalar)
    requires
        !floor.nan(),
    ensures
        a.at_least(floor) == a || a.at_least(floor) == floor,
        a.nan() ==> a.at_least(floor) == floor,
        !a.nan() ==> a.at_least(floor).value() >= a.value(),
        a.at_least(floor).value() >= floor.value(),
{
    scalar::lemma_orders();
}

/// Kept to a range, a number in it stays, one below goes to its lower end, one above to
/// its upper, and what is no number stays so.
pub proof fn law_clamped_is_in_the_range(a: Scalar, lo: Scalar, hi: Scalar)
    requires
        !lo.nan(),
        !hi.nan(),
        lo.value() <= hi.value(),
    ensures
        a.nan() ==> a.clamped(lo, hi) == a,
        !a.nan() && lo.value() <= a.value() <= hi.value() ==> a.clamped(lo, hi) == a,
        !a.nan() && a.value() < lo.value() ==> a.clamped(lo, hi) == lo,
        !a.nan() && a.value() > hi.value() ==> a.clamped(lo, hi) == hi,
{
    scalar::lemma_orders();
}

/// The byte of a number is its integer part, where a byte holds it, and otherwise the
/// nearest end; what is no number becomes zero.
pub proof fn law_bytes_are_integer_parts(a: Scalar)
    ensures
        a.nan() ==> a.to_byte() == 0,
        !a.nan() && a.value() < unit() ==> a.to_byte() == 0,
        !a.nan() && a.value() >= 255 * unit() ==> a.to_byte() == 255,
        !a.nan() && 0 <= a.value() < 256 * unit() ==> a.to_byte() * unit() <= a.value() < (
        a.to_byte() + 1) * unit(),
{
    lemma_pow2_pos(149);
    if !a.nan() && a.value() >= 0 {
        let (v, u) = (a.value(), unit());
        let q = v / u;
        vstd::arithmetic::div_mod::lemma_fundamental_div_mod(v, u);
        assert(u * (q + 1) == u * q + u && u * q == q * u) by (nonlinear_arith);
        assert(q >= 0 && (v < u ==> q == 0) && (v >= 255 * u ==> q >= 255) && (v < 256 * u ==> q
            < 256)) by (nonlinear_arith)
            requires
                u > 0,
                v >= 0,
                u * q <= v < u * q + u,
        ;
        assert((q + 1) * u == q * u + u) by (nonlinear_arith);
    }
}

} // verus!
