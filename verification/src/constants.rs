//! The numbers that the viewer is built on, by what they stand for.
use vstd::prelude::*;
use vstd::arithmetic::power2::*;
use crate::exact;
use crate::frame;
use crate::magnitude;
use crate::orbit;
use crate::pick;
use crate::rounding;
use crate::scalar::{HALF, MINUS_ONE, ONE, Scalar, TWO, ZERO};
use crate::scene;
use crate::state;

verus! {

/// Whether a number lies within a millionth of a fraction.
pub open spec fn about(a: Scalar, n: int, d: int) -> bool {
    a.finite() && 1_000_000 * rounding::distance(d * a.value(), n * exact::unit()) <= d
        * exact::unit()
}

/// Whether a number is an integer.
pub open spec fn equals(a: Scalar, n: int) -> bool {
    a.finite() && a.value() == n * exact::unit()
}

/// The value of a normal number by its significand and how far its exponent lies below
/// that of the unit.
pub proof fn lemma_number(bits: u32, c: int, k: nat)
    requires
        0x80_0000 <= bits < rounding::INFINITE,
        magnitude::significand(bits as int) == c,
        magnitude::exponent(bits as int) + k == 149,
    ensures
        (Scalar { bits }).value() * pow2(k) == c * exact::unit(),
        (Scalar { bits }).finite(),
{
    reveal(magnitude::units);
    let e = magnitude::exponent(bits as int);
    lemma_pow2_adds(e, k);
    let (p, q) = (pow2(e) as int, pow2(k) as int);
    assert((c * p) * q == c * (p * q)) by (nonlinear_arith);
}

/// Zero, a half, one, two and minus one.
pub proof fn law_plain_numbers()
    ensures
        equals(Scalar { bits: ZERO }, 0),
        2 * (Scalar { bits: HALF }).value() == exact::unit(),
        equals(Scalar { bits: ONE }, 1),
        equals(Scalar { bits: TWO }, 2),
        equals(Scalar { bits: MINUS_ONE }, -1),
        exact::unit() > 0x1_0000_0000_0000_0000,
{
    magnitude::lemma_unit_powers();
    magnitude::lemma_units_sign(0);
    magnitude::lemma_half_units(ONE as int);
    magnitude::lemma_half_units(TWO as int);
    lemma2_to64();
    lemma_pow2_strictly_increases(64, 149);
}

/// The home view: 0.6 and 0.45 radians; before a scene is framed, from a distance of
/// three, over sixty degrees, a third of pi.
pub proof fn law_home_numbers()
    ensures
        about(Scalar { bits: orbit::HOME_YAW }, 6, 10),
        about(Scalar { bits: orbit::HOME_PITCH }, 45, 100),
        equals(Scalar { bits: orbit::DEFAULT_DISTANCE }, 3),
        about(Scalar { bits: orbit::DEFAULT_FOV_Y }, 10_471_976, 10_000_000),
{
    lemma2_to64();
    lemma_number(orbit::HOME_YAW, 0x99_999a, 24);
    lemma_number(orbit::HOME_PITCH, 0xe6_6666, 25);
    lemma_number(orbit::DEFAULT_DISTANCE, 0xc0_0000, 22);
    lemma_number(orbit::DEFAULT_FOV_Y, 0x86_0a92, 23);
}

/// The limits: a hundredth short of half of pi either way for the pitch, and one hundredth
/// for the distance and for what lies ahead.
pub proof fn law_limits()
    ensures
        about(Scalar { bits: orbit::STEEPEST_PITCH }, 15_607_963, 10_000_000),
        about(Scalar { bits: orbit::STEEPEST_PITCH_DOWN }, -15_607_963, 10_000_000),
        (Scalar { bits: orbit::STEEPEST_PITCH_DOWN }).value() == -(Scalar {
            bits: orbit::STEEPEST_PITCH,
        }).value(),
        about(Scalar { bits: orbit::CLOSEST }, 1, 100),
        about(Scalar { bits: pick::NEAR }, 1, 100),
        (Scalar { bits: pick::NEAR }).value() == (Scalar { bits: orbit::CLOSEST }).value(),
{
    lemma2_to64();
    lemma_number(orbit::STEEPEST_PITCH, 0xc7_c82d, 23);
    lemma_number(orbit::CLOSEST, 0xa3_d70a, 30);
}

/// The steps: a tenth of the distance per zoom step, 180 degrees for pi, three quarters of
/// the diagonal to stand back, six pixels of tolerance, a gray of a fifth, and 255 for a
/// full byte.
pub proof fn law_steps()
    ensures
        about(Scalar { bits: state::ZOOM_STEP }, 1, 10),
        0x200_0000 * rounding::distance(
            10 * (Scalar { bits: state::ZOOM_STEP }).value(),
            exact::unit(),
        ) <= exact::unit(),
        0x200_0000 * rounding::distance(
            1_800_000_000 * (Scalar { bits: state::RADIANS_PER_DEGREE }).value(),
            31_415_927 * exact::unit(),
        ) <= 64_000_000 * exact::unit(),
        (Scalar { bits: state::RADIANS_PER_DEGREE }).finite(),
        4 * (Scalar { bits: scene::STAND_BACK }).value() == 3 * exact::unit(),
        equals(Scalar { bits: pick::TOLERANCE }, 6),
        about(Scalar { bits: state::DEFAULT_GRAY }, 2, 10),
        equals(Scalar { bits: frame::FULL }, 255),
        state::DEFAULT_WIDTH == 800 && state::DEFAULT_HEIGHT == 600,
{
    lemma2_to64();
    lemma_number(state::ZOOM_STEP, 0xcc_cccd, 27);
    lemma_number(state::RADIANS_PER_DEGREE, 0x8e_fa35, 29);
    lemma_number(scene::STAND_BACK, 0xc0_0000, 24);
    lemma_number(pick::TOLERANCE, 0xc0_0000, 21);
    lemma_number(state::DEFAULT_GRAY, 0xcc_cccd, 26);
    lemma_number(frame::FULL, 0xff_0000, 16);
}

} // verus!
