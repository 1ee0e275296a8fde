//! Single-precision numbers as bit patterns.
use vstd::prelude::*;
use vstd::arithmetic::power2::*;
use crate::magnitude;
use crate::rounding;

verus! {

/// The sign bit of a bit pattern.
pub const SIGN: u32 = 0x8000_0000;

/// The bit pattern that stands for every result that is no number.
pub const NOT_A_NUMBER: u32 = 0x7fc0_0000;

pub const POSITIVE_INFINITY: u32 = 0x7f80_0000;
pub const NEGATIVE_INFINITY: u32 = 0xff80_0000;
pub const ZERO: u32 = 0;
pub const HALF: u32 = 0x3f00_0000;
pub const ONE: u32 = 0x3f80_0000;
pub const TWO: u32 = 0x4000_0000;
pub const MINUS_ONE: u32 = 0xbf80_0000;

/// A binary32 number, held as its bit pattern. `==` compares the patterns; the
/// numeric order is that of `lt` and its like.
#[derive(Clone, Copy, PartialEq, Eq, Structural, Debug)]
pub struct Scalar {
    pub bits: u32,
}

impl Scalar {
    pub open spec fn negative(self) -> bool {
        self.bits >= SIGN
    }

    pub open spec fn magnitude(self) -> int {
        if self.negative() {
            self.bits - SIGN
        } else {
            self.bits as int
        }
    }

    pub open spec fn nan(self) -> bool {
        self.magnitude() > rounding::INFINITE
    }

    pub open spec fn infinite(self) -> bool {
        self.magnitude() == rounding::INFINITE
    }

    pub open spec fn zero(self) -> bool {
        self.magnitude() == 0
    }

    pub open spec fn finite(self) -> bool {
        self.magnitude() < rounding::INFINITE
    }

    /// The number in units of the smallest positive one; of infinity, a number
    /// past all finite ones.
    pub open spec fn value(self) -> int {
        if self.negative() {
            -magnitude::units(self.magnitude())
        } else {
            magnitude::units(self.magnitude())
        }
    }

    /// The pattern of a sign and a magnitude.
    pub open spec fn signed(negative: bool, m: int) -> Scalar {
        Scalar {
            bits: if negative {
                (m + SIGN) as u32
            } else {
                m as u32
            },
        }
    }

    /// The place among the numbers, counted from zero. Both zeros share it.
    pub open spec fn rank(self) -> int {
        if self.negative() {
            -self.magnitude()
        } else {
            self.magnitude()
        }
    }

    pub open spec fn spec_lt(self, other: Scalar) -> bool {
        !self.nan() && !other.nan() && self.rank() < other.rank()
    }

    pub open spec fn spec_le(self, other: Scalar) -> bool {
        !self.nan() && !other.nan() && self.rank() <= other.rank()
    }

    pub fn from_bits(bits: u32) -> (r: Scalar)
        ensures
            r.bits == bits,
    {
        Scalar { bits }
    }

    /// The place among the numbers, counted from zero.
    fn key(self) -> (k: i64)
        ensures
            k == self.rank(),
    {
        if self.bits >= SIGN {
            -((self.bits - SIGN) as i64)
        } else {
            self.bits as i64
        }
    }

    pub fn is_nan(self) -> (r: bool)
        ensures
            r == self.nan(),
    {
        self.bits % SIGN > rounding::INFINITE
    }

    /// Whether this number is less than the other; false where one is no number.
    #[verifier::when_used_as_spec(spec_lt)]
    pub fn lt(self, other: Scalar) -> (r: bool)
        ensures
            r == self.lt(other),
    {
        if self.is_nan() || other.is_nan() {
            return false;
        }
        self.key() < other.key()
    }

    /// Whether this number is at most the other; false where one is no number.
    #[verifier::when_used_as_spec(spec_le)]
    pub fn le(self, other: Scalar) -> (r: bool)
        ensures
            r == self.le(other),
    {
        if self.is_nan() || other.is_nan() {
            return false;
        }
        self.key() <= other.key()
    }

    pub open spec fn spec_negated(self) -> Scalar {
        Scalar::signed(!self.negative(), self.magnitude())
    }

    /// The number with its sign flipped.
    #[verifier::when_used_as_spec(spec_negated)]
    pub fn negated(self) -> (r: Scalar)
        ensures
            r == self.negated(),
    {
        if self.bits >= SIGN {
            Scalar { bits: self.bits - SIGN }
        } else {
            Scalar { bits: self.bits + SIGN }
        }
    }

    /// The product, rounded to the nearest number.
    #[verifier::opaque]
    pub open spec fn spec_times(self, other: Scalar) -> Scalar {
        let negative = self.negative() != other.negative();
        if self.nan() || other.nan() {
            Scalar { bits: NOT_A_NUMBER }
        } else if self.infinite() || other.infinite() {
            if self.zero() || other.zero() {
                Scalar { bits: NOT_A_NUMBER }
            } else {
                Scalar::signed(negative, rounding::INFINITE as int)
            }
        } else {
            Scalar::signed(
                negative,
                rounding::rounded(
                    magnitude::units(self.magnitude()) * magnitude::units(other.magnitude()),
                    pow2(149) as int,
                ),
            )
        }
    }

    /// The product, rounded to the nearest number.
    #[verifier::when_used_as_spec(spec_times)]
    pub fn times(self, other: Scalar) -> (r: Scalar)
        ensures
            r == self.times(other),
    {
        proof {
            reveal(Scalar::spec_times);
        }
        let negative = (self.bits >= SIGN) != (other.bits >= SIGN);
        let m: u32 = self.bits % SIGN;
        let n: u32 = other.bits % SIGN;
        if m > rounding::INFINITE || n > rounding::INFINITE {
            return Scalar { bits: NOT_A_NUMBER };
        }
        if m == rounding::INFINITE || n == rounding::INFINITE {
            if m == 0 || n == 0 {
                return Scalar { bits: NOT_A_NUMBER };
            }
            return with_sign(negative, rounding::INFINITE);
        }
        with_sign(negative, magnitude::multiply(m, n))
    }

    /// The sum, rounded to the nearest number.
    #[verifier::opaque]
    pub open spec fn spec_plus(self, other: Scalar) -> Scalar {
        let v = self.value() + other.value();
        if self.nan() || other.nan() {
            Scalar { bits: NOT_A_NUMBER }
        } else if self.infinite() {
            if other.infinite() && self.negative() != other.negative() {
                Scalar { bits: NOT_A_NUMBER }
            } else {
                self
            }
        } else if other.infinite() {
            other
        } else if v == 0 {
            Scalar::signed(self.negative() && other.negative(), 0)
        } else if v < 0 {
            Scalar::signed(true, rounding::rounded(-v, 1))
        } else {
            Scalar::signed(false, rounding::rounded(v, 1))
        }
    }

    /// The sum, rounded to the nearest number.
    #[verifier::when_used_as_spec(spec_plus)]
    pub fn plus(self, other: Scalar) -> (r: Scalar)
        ensures
            r == self.plus(other),
    {
        proof {
            reveal(Scalar::spec_plus);
        }
        let m: u32 = self.bits % SIGN;
        let n: u32 = other.bits % SIGN;
        if m > rounding::INFINITE || n > rounding::INFINITE {
            return Scalar { bits: NOT_A_NUMBER };
        }
        let same: bool = (self.bits >= SIGN) == (other.bits >= SIGN);
        if m == rounding::INFINITE {
            if n == rounding::INFINITE && !same {
                return Scalar { bits: NOT_A_NUMBER };
            }
            return self;
        }
        if n == rounding::INFINITE {
            return other;
        }
        proof {
            magnitude::lemma_units_sign(m as int);
            magnitude::lemma_units_sign(n as int);
            if m < n {
                magnitude::lemma_units_increase(m as int, n as int);
            } else if n < m {
                magnitude::lemma_units_increase(n as int, m as int);
            }
        }
        if m >= n {
            if m == n && !same {
                return Scalar { bits: 0 };
            }
            if m == 0 {
                return self;
            }
            with_sign(self.bits >= SIGN, magnitude::combine(m, n, same))
        } else {
            with_sign(other.bits >= SIGN, magnitude::combine(n, m, same))
        }
    }

    /// The difference, rounded to the nearest number.
    pub open spec fn spec_minus(self, other: Scalar) -> Scalar {
        self.spec_plus(other.spec_negated())
    }

    /// The difference, rounded to the nearest number.
    #[verifier::when_used_as_spec(spec_minus)]
    pub fn minus(self, other: Scalar) -> (r: Scalar)
        ensures
            r == self.minus(other),
    {
        self.plus(other.negated())
    }

    /// The quotient, rounded to the nearest number.
    #[verifier::opaque]
    pub open spec fn spec_over(self, other: Scalar) -> Scalar {
        let negative = self.negative() != other.negative();
        if self.nan() || other.nan() {
            Scalar { bits: NOT_A_NUMBER }
        } else if (self.infinite() && other.infinite()) || (self.zero() && other.zero()) {
            Scalar { bits: NOT_A_NUMBER }
        } else if self.infinite() || other.zero() {
            Scalar::signed(negative, rounding::INFINITE as int)
        } else if other.infinite() {
            Scalar::signed(negative, 0)
        } else {
            Scalar::signed(
                negative,
                rounding::rounded(
                    magnitude::units(self.magnitude()) * pow2(149),
                    magnitude::units(other.magnitude()),
                ),
            )
        }
    }

    /// The quotient, rounded to the nearest number.
    #[verifier::when_used_as_spec(spec_over)]
    pub fn over(self, other: Scalar) -> (r: Scalar)
        ensures
            r == self.over(other),
    {
        proof {
            reveal(Scalar::spec_over);
        }
        let negative = (self.bits >= SIGN) != (other.bits >= SIGN);
        let m: u32 = self.bits % SIGN;
        let n: u32 = other.bits % SIGN;
        if m > rounding::INFINITE || n > rounding::INFINITE {
            return Scalar { bits: NOT_A_NUMBER };
        }
        if (m == rounding::INFINITE && n == rounding::INFINITE) || (m == 0 && n == 0) {
            return Scalar { bits: NOT_A_NUMBER };
        }
        if m == rounding::INFINITE || n == 0 {
            return with_sign(negative, rounding::INFINITE);
        }
        if n == rounding::INFINITE {
            return with_sign(negative, 0);
        }
        with_sign(negative, magnitude::divide(m, n))
    }

    /// The square root, rounded to the nearest number.
    #[verifier::opaque]
    pub open spec fn spec_root(self) -> Scalar {
        if self.nan() {
            Scalar { bits: NOT_A_NUMBER }
        } else if self.zero() {
            self
        } else if self.negative() {
            Scalar { bits: NOT_A_NUMBER }
        } else if self.infinite() {
            self
        } else {
            Scalar::signed(
                false,
                rounding::rounded_root(magnitude::units(self.magnitude()) * pow2(149)),
            )
        }
    }

    /// The square root, rounded to the nearest number.
    #[verifier::when_used_as_spec(spec_root)]
    pub fn root(self) -> (r: Scalar)
        ensures
            r == self.root(),
    {
        proof {
            reveal(Scalar::spec_root);
        }
        let m: u32 = self.bits % SIGN;
        if m > rounding::INFINITE {
            return Scalar { bits: NOT_A_NUMBER };
        }
        if m == 0 {
            return self;
        }
        if self.bits >= SIGN {
            return Scalar { bits: NOT_A_NUMBER };
        }
        if m == rounding::INFINITE {
            return self;
        }
        Scalar { bits: magnitude::square_root(m) }
    }

    /// The nearest number to an integer.
    #[verifier::opaque]
    pub open spec fn spec_from_u32(n: u32) -> Scalar {
        Scalar::signed(false, rounding::rounded(n * pow2(149), 1))
    }

    /// The nearest number to an integer.
    #[verifier::when_used_as_spec(spec_from_u32)]
    pub fn from_u32(n: u32) -> (r: Scalar)
        ensures
            r == Scalar::from_u32(n),
    {
        proof {
            reveal(Scalar::spec_from_u32);
        }
        Scalar { bits: magnitude::of_integer(n) }
    }

    /// The greater of two numbers, or the one that is a number. Of two equal
    /// ones, this one.
    pub open spec fn spec_at_least(self, floor: Scalar) -> Scalar {
        if self.nan() {
            floor
        } else if self.spec_lt(floor) {
            floor
        } else {
            self
        }
    }

    /// The greater of two numbers, or the one that is a number. Of two equal
    /// ones, this one.
    #[verifier::when_used_as_spec(spec_at_least)]
    pub fn at_least(self, floor: Scalar) -> (r: Scalar)
        ensures
            r == self.at_least(floor),
    {
        if self.is_nan() {
            floor
        } else if self.lt(floor) {
            floor
        } else {
            self
        }
    }

    /// The number moved into a range; what is no number stays so.
    pub open spec fn spec_clamped(self, lo: Scalar, hi: Scalar) -> Scalar {
        if self.spec_lt(lo) {
            lo
        } else if hi.spec_lt(self) {
            hi
        } else {
            self
        }
    }

    /// The number moved into a range; what is no number stays so.
    #[verifier::when_used_as_spec(spec_clamped)]
    pub fn clamped(self, lo: Scalar, hi: Scalar) -> (r: Scalar)
        ensures
            r == self.clamped(lo, hi),
    {
        if self.lt(lo) {
            lo
        } else if hi.lt(self) {
            hi
        } else {
            self
        }
    }

    /// The integer part, kept within a byte; zero for what is no number.
    pub open spec fn spec_to_byte(self) -> u8 {
        if self.nan() || self.value() < 0 {
            0
        } else if self.value() / pow2(149) as int >= 255 {
            255
        } else {
            (self.value() / pow2(149) as int) as u8
        }
    }

    /// The integer part, kept within a byte; zero for what is no number.
    #[verifier::when_used_as_spec(spec_to_byte)]
    pub fn to_byte(self) -> (r: u8)
        ensures
            r == self.to_byte(),
    {
        if self.is_nan() {
            return 0;
        }
        proof {
            magnitude::lemma_units_sign(self.magnitude());
        }
        if self.bits >= SIGN {
            proof {
                lemma_pow2_pos(149);
                vstd::arithmetic::div_mod::lemma_div_of0(pow2(149) as int);
            }
            return 0;
        }
        magnitude::integer_part(self.bits)
    }
}

fn with_sign(negative: bool, m: u32) -> (r: Scalar)
    requires
        m < SIGN,
    ensures
        r == Scalar::signed(negative, m as int),
{
    if negative {
        Scalar { bits: m + SIGN }
    } else {
        Scalar { bits: m }
    }
}

/// The order of numbers is that of the exact values they stand for.
pub proof fn law_order_is_that_of_the_values(a: Scalar, b: Scalar)
    requires
        !a.nan(),
        !b.nan(),
    ensures
        a.lt(b) <==> a.value() < b.value(),
        a.le(b) <==> a.value() <= b.value(),
{
    let (m, n) = (a.magnitude(), b.magnitude());
    magnitude::lemma_units_sign(0);
    if m < n {
        magnitude::lemma_units_increase(m, n);
    } else if n < m {
        magnitude::lemma_units_increase(n, m);
    }
    if m > 0 {
        magnitude::lemma_units_increase(0, m);
    }
    if n > 0 {
        magnitude::lemma_units_increase(0, n);
    }
}

/// The value of the number nearest to `n / d` units.
pub open spec fn nearest_value(n: int, d: int) -> int {
    if n < 0 {
        -magnitude::units(rounding::rounded(-n, d))
    } else {
        magnitude::units(rounding::rounded(n, d))
    }
}

/// Rounding to the nearest value keeps the order of rationals.
pub proof fn lemma_nearest_value_ordered(n1: int, d1: int, n2: int, d2: int)
    requires
        d1 > 0,
        d2 > 0,
        n1 * d2 <= n2 * d1,
    ensures
        nearest_value(n1, d1) <= nearest_value(n2, d2),
{
    if n1 >= 0 {
        assert(n2 >= 0) by (nonlinear_arith)
            requires
                n1 >= 0,
                d1 > 0,
                d2 > 0,
                n1 * d2 <= n2 * d1,
        ;
        rounding::law_rounding_keeps_order(n1, d1, n2, d2);
        magnitude::lemma_rounded_range(n1, d1);
        magnitude::lemma_rounded_range(n2, d2);
        let (a, b) = (rounding::rounded(n1, d1), rounding::rounded(n2, d2));
        if a < b {
            magnitude::lemma_units_increase(a, b);
        }
    } else if n2 < 0 {
        assert((-n2) * d1 <= (-n1) * d2) by (nonlinear_arith)
            requires
                n1 * d2 <= n2 * d1,
        ;
        rounding::law_rounding_keeps_order(-n2, d2, -n1, d1);
        magnitude::lemma_rounded_range(-n1, d1);
        magnitude::lemma_rounded_range(-n2, d2);
        let (a, b) = (rounding::rounded(-n2, d2), rounding::rounded(-n1, d1));
        if a < b {
            magnitude::lemma_units_increase(a, b);
        }
    } else {
        magnitude::lemma_rounded_range(-n1, d1);
        magnitude::lemma_rounded_range(n2, d2);
        magnitude::lemma_units_sign(rounding::rounded(-n1, d1));
        magnitude::lemma_units_sign(rounding::rounded(n2, d2));
    }
}

/// The sum of two finite numbers is the one nearest to the exact sum.
pub proof fn lemma_plus_value(a: Scalar, b: Scalar)
    requires
        a.finite(),
        b.finite(),
    ensures
        !a.plus(b).nan(),
        a.plus(b).value() == nearest_value(a.value() + b.value(), 1),
{
    reveal(Scalar::spec_plus);
    let v = a.value() + b.value();
    let n = if v < 0 {
        -v
    } else {
        v
    };
    magnitude::lemma_rounded_range(n, 1);
    rounding::lemma_rounded_zero(1);
    magnitude::lemma_units_sign(0);
}

/// The product of two finite numbers is the one nearest to the exact product.
pub proof fn lemma_times_value(a: Scalar, b: Scalar)
    requires
        a.finite(),
        b.finite(),
    ensures
        !a.times(b).nan(),
        a.times(b).value() == nearest_value(a.value() * b.value(), pow2(149) as int),
{
    reveal(Scalar::spec_times);
    lemma_pow2_pos(149);
    let (m, n) = (magnitude::units(a.magnitude()), magnitude::units(b.magnitude()));
    magnitude::lemma_units_sign(a.magnitude());
    magnitude::lemma_units_sign(b.magnitude());
    assert(m * n >= 0 && (-m) * n == -(m * n) && m * (-n) == -(m * n) && (-m) * (-n) == m * n)
        by (nonlinear_arith)
        requires
            m >= 0,
            n >= 0,
    ;
    magnitude::lemma_rounded_range(m * n, pow2(149) as int);
    rounding::lemma_rounded_zero(pow2(149) as int);
    magnitude::lemma_units_sign(0);
}

/// The quotient of a finite number by a positive one is the one nearest to the exact
/// quotient.
pub proof fn lemma_over_value(a: Scalar, b: Scalar)
    requires
        a.finite(),
        b.finite(),
        !b.negative(),
        !b.zero(),
    ensures
        !a.over(b).nan(),
        a.over(b).value() == nearest_value(a.value() * pow2(149), b.value()),
{
    reveal(Scalar::spec_over);
    lemma_pow2_pos(149);
    let unit = pow2(149) as int;
    let (m, n) = (magnitude::units(a.magnitude()), magnitude::units(b.magnitude()));
    magnitude::lemma_units_sign(a.magnitude());
    magnitude::lemma_units_sign(b.magnitude());
    assert(m * unit >= 0 && (m > 0 ==> m * unit > 0) && (-m) * unit == -(m * unit))
        by (nonlinear_arith)
        requires
            m >= 0,
            unit > 0,
    ;
    magnitude::lemma_rounded_range(m * unit, n);
    rounding::lemma_rounded_zero(n);
    magnitude::lemma_units_sign(0);
}

/// The number nearest to the value of a number is that number's.
pub proof fn lemma_nearest_value_exact(a: Scalar)
    requires
        !a.nan(),
    ensures
        nearest_value(a.value(), 1) == a.value(),
{
    magnitude::law_rounding_keeps_numbers(a.magnitude());
    magnitude::lemma_units_sign(a.magnitude());
}

/// No number lies nearer to an exact sum than the rounded one; infinity counts at
/// its place past the finite numbers.
pub proof fn law_sums_are_nearest(a: Scalar, b: Scalar, m: Scalar)
    requires
        a.finite(),
        b.finite(),
        !m.nan(),
    ensures
        !a.plus(b).nan(),
        rounding::distance(a.value() + b.value(), a.plus(b).value()) <= rounding::distance(
            a.value() + b.value(),
            m.value(),
        ),
{
    let v = a.value() + b.value();
    let n = if v < 0 {
        -v
    } else {
        v
    };
    lemma_plus_value(a, b);
    magnitude::law_rounding_is_to_nearest(n, 1, m.magnitude());
    magnitude::law_rounding_is_to_nearest(n, 1, 0);
    magnitude::lemma_units_sign(0);
    magnitude::lemma_units_sign(m.magnitude());
}

/// No number lies nearer to an exact square root than the rounded one: the root lies
/// between the midpoints to the neighbors of the latter. (Squares are compared, in
/// units.)
pub proof fn law_roots_are_nearest(a: Scalar)
    requires
        a.finite(),
        !a.negative(),
        !a.zero(),
    ensures
        a.root().finite(),
        !a.root().negative(),
        ({
            let m = a.root().magnitude();
            let low = magnitude::units(m - 1) + magnitude::units(m);
            let high = magnitude::units(m) + magnitude::units(m + 1);
            &&& 0x1a00_0000 <= m
            &&& low * low <= 4 * (a.value() * pow2(149)) <= high * high
        }),
{
    reveal(Scalar::spec_root);
    magnitude::lemma_root_is_nearest(a.magnitude());
}

/// Addition does not depend on the order of its terms.
pub proof fn law_plus_commutes(a: Scalar, b: Scalar)
    ensures
        a.plus(b) == b.plus(a),
{
    reveal(Scalar::spec_plus);
}

/// Multiplication does not depend on the order of its factors.
pub proof fn law_times_commutes(a: Scalar, b: Scalar)
    ensures
        a.times(b) == b.times(a),
{
    reveal(Scalar::spec_times);
    let (m, n) = (magnitude::units(a.magnitude()), magnitude::units(b.magnitude()));
    assert(m * n == n * m) by (nonlinear_arith);
}

/// The order of the exact values, for all numbers at once.
pub proof fn lemma_orders()
    ensures
        forall|a: Scalar, b: Scalar|
            !a.nan() && !b.nan() ==> (#[trigger] a.lt(b) <==> a.value() < b.value()),
        forall|a: Scalar, b: Scalar|
            !a.nan() && !b.nan() ==> (#[trigger] a.le(b) <==> a.value() <= b.value()),
{
    assert forall|a: Scalar, b: Scalar| !a.nan() && !b.nan() implies (#[trigger] a.lt(b)
        <==> a.value() < b.value()) by {
        law_order_is_that_of_the_values(a, b);
    }
    assert forall|a: Scalar, b: Scalar| !a.nan() && !b.nan() implies (#[trigger] a.le(b)
        <==> a.value() <= b.value()) by {
        law_order_is_that_of_the_values(a, b);
    }
}

} // verus!
