//! How a scene is framed: from three quarters of its diagonal, at its middle.
use vstd::prelude::*;
use vstd::arithmetic::power2::*;
use crate::constants;
use crate::errors;
use crate::exact;
use crate::magnitude;
use crate::rounding;
use crate::scalar;
use crate::scalar::{HALF, Scalar};
use crate::scene;
use crate::spatial;
use crate::vector::Vec3;

verus! {

proof fn lemma_terms_are_finite(a: Scalar, b: Scalar)
    ensures
        a.plus(b).finite() ==> a.finite() && b.finite(),
        a.times(b).finite() ==> a.finite() && b.finite(),
{
    reveal(Scalar::spec_plus);
    reveal(Scalar::spec_times);
}

/// The square of an exact length, and of the rounded one.
proof fn lemma_square(d: int, e: int, p: int, u: int)
    requires
        u > 0,
        0x100_0000 * rounding::distance(d, e) <= errors::size(d),
        0x100_0000 * rounding::distance(e * e, u * p) <= e * e + 0x80_0000 * u,
    ensures
        d * d >= 0,
        0x100_0000 * rounding::distance(d * d, u * p) <= 5 * (d * d) + 0x80_0000 * u,
{
    let a = errors::size(d);
    let x = rounding::distance(d, e);
    assert(d * d == a * a && a * a >= 0 && e * e <= a * a + 2 * (a * x) + x * x && a * a <= e * e + 2
        * (a * x) + x * x) by (nonlinear_arith)
        requires
            a == d || a == -d,
            a >= 0,
            x >= 0,
            e == d + x || e == d - x,
    ;
    assert(0x100_0000 * (a * x) <= a * a && 0x100_0000 * (x * x) <= a * a) by (nonlinear_arith)
        requires
            a >= 0,
            x >= 0,
            0x100_0000 * x <= a,
    ;
}

/// The rounded sum of three squares.
proof fn lemma_sum_of_squares(a: int, b: int, c: int, p: int, q: int, r: int, m: int, s: int, u: int)
    requires
        u > 0,
        a >= 0,
        b >= 0,
        c >= 0,
        p >= 0,
        q >= 0,
        r >= 0,
        0x100_0000 * rounding::distance(a, u * p) <= 5 * a + 0x80_0000 * u,
        0x100_0000 * rounding::distance(b, u * q) <= 5 * b + 0x80_0000 * u,
        0x100_0000 * rounding::distance(c, u * r) <= 5 * c + 0x80_0000 * u,
        0x100_0000 * rounding::distance(p + q, m) <= p + q,
        0x100_0000 * rounding::distance(m + r, s) <= m + r,
    ensures
        s >= 0,
        0x100_0000 * rounding::distance(a + b + c, u * s) <= 11 * (a + b + c) + 0x200_0000 * u,
{
    let t = p + q + r;
    let e = s - t;
    assert(0x100_0000 * rounding::distance(s, t) <= 3 * t);
    assert(u * (t + e) == u * p + u * q + u * r + u * e) by (nonlinear_arith)
        requires
            t == p + q + r,
    ;
    let se = errors::size(e);
    assert(0x100_0000 * (u * se) <= 3 * (u * t) && -(u * se) <= u * e <= u * se && u * t == u * p + u
        * q + u * r) by (nonlinear_arith)
        requires
            0x100_0000 * se <= 3 * t,
            -se <= e <= se,
            u > 0,
            t == p + q + r,
    ;
}

/// The square of a rounded root is the number within rounding.
proof fn lemma_root_squared(a: Scalar)
    requires
        a.finite(),
        !a.negative(),
    ensures
        ({
            let r = a.root().value();
            let n = a.value() * exact::unit();
            &&& a.root().finite()
            &&& n >= 0
            &&& r == 0 || r >= 0x1_0000_0000
            &&& 0x80_0000 * rounding::distance(r * r, n) <= 4 * n
        }),
{
    lemma_pow2_pos(149);
    magnitude::lemma_units_sign(0);
    magnitude::lemma_units_sign(a.magnitude());
    let u = exact::unit();
    let n = a.value() * u;
    if a.zero() {
        reveal(Scalar::spec_root);
        assert(0 * u == 0 && 0int * 0int == 0) by (nonlinear_arith);
    } else {
        scalar::law_roots_are_nearest(a);
        let m = a.root().magnitude();
        let r = magnitude::units(m);
        let (lo, hi) = (magnitude::units(m - 1), magnitude::units(m + 1));
        magnitude::lemma_spacing(m - 1);
        magnitude::lemma_units_increase(m, m + 1);
        magnitude::lemma_spacing(m);
        magnitude::lemma_units_increase(m - 1, m);
        magnitude::lemma_units_sign(m - 1);
        magnitude::lemma_least_root();
        if m > 0x1a00_0000 {
            magnitude::lemma_units_increase(0x1a00_0000, m);
        }
        let (x, y) = (r - lo, hi - r);
        assert((lo + r) * (lo + r) == 4 * (r * r) - 4 * (r * x) + x * x && (r + hi) * (r + hi) == 4
            * (r * r) + 4 * (r * y) + y * y) by (nonlinear_arith)
            requires
                x == r - lo,
                y == hi - r,
        ;
        assert(x * x >= 0 && 0x80_0000 * (r * x) <= r * r && 0x80_0000 * (r * y) <= r * r
            && 0x80_0000 * (y * y) <= r * r) by (nonlinear_arith)
            requires
                r >= 0,
                0 <= x,
                0 <= y,
                0x80_0000 * x <= r,
                0x80_0000 * y <= r,
        ;
    }
}

/// The exact sum of three squares.
pub open spec fn squares(x: int, y: int, z: int) -> int {
    x * x + y * y + z * z
}

/// The length of a vector whose components are rounded, against the exact ones.
proof fn lemma_length(p: Vec3, x: int, y: int, z: int)
    requires
        p.dot(p).finite(),
        0x100_0000 * rounding::distance(x, p.x.value()) <= errors::size(x),
        0x100_0000 * rounding::distance(y, p.y.value()) <= errors::size(y),
        0x100_0000 * rounding::distance(z, p.z.value()) <= errors::size(z),
    ensures
        ({
            let r = p.length().value();
            &&& p.length().finite()
            &&& r == 0 || r >= 0x1_0000_0000
            &&& squares(x, y, z) >= 0
            &&& 0x100_0000 * rounding::distance(r * r, squares(x, y, z)) <= 27 * squares(x, y, z)
                + 0x300_0000 * exact::unit()
        }),
{
    let u = exact::unit();
    let (a, b, c) = (p.x.times(p.x), p.y.times(p.y), p.z.times(p.z));
    let m = a.plus(b);
    let s = m.plus(c);
    lemma_pow2_pos(149);
    lemma_terms_are_finite(m, c);
    lemma_terms_are_finite(a, b);
    lemma_terms_are_finite(p.x, p.x);
    lemma_terms_are_finite(p.y, p.y);
    lemma_terms_are_finite(p.z, p.z);
    lemma_own_square(p.x);
    lemma_own_square(p.y);
    lemma_own_square(p.z);
    errors::law_sums_are_close(a, b);
    errors::law_sums_are_close(m, c);
    lemma_square(x, p.x.value(), a.value(), u);
    lemma_square(y, p.y.value(), b.value(), u);
    lemma_square(z, p.z.value(), c.value(), u);
    lemma_sum_of_squares(
        x * x,
        y * y,
        z * z,
        a.value(),
        b.value(),
        c.value(),
        m.value(),
        s.value(),
        u,
    );
    magnitude::lemma_units_sign(m.magnitude());
    magnitude::lemma_units_sign(s.magnitude());
    if s.negative() {
        reveal(Scalar::spec_plus);
    }
    assert(!s.negative());
    lemma_root_squared(s);
    assert(u * s.value() == s.value() * u) by (nonlinear_arith);
}

/// The rounded square of a number.
proof fn lemma_own_square(a: Scalar)
    requires
        a.finite(),
        a.times(a).finite(),
    ensures
        a.times(a).value() >= 0,
        !a.times(a).negative(),
        0x100_0000 * rounding::distance(
            a.value() * a.value(),
            exact::unit() * a.times(a).value(),
        ) <= a.value() * a.value() + 0x80_0000 * exact::unit(),
{
    errors::law_products_are_close(a, a);
    exact::law_times_is_the_product(a, a);
    magnitude::lemma_units_sign(a.times(a).magnitude());
    let v = a.value();
    assert(v * v >= 0) by (nonlinear_arith);
    lemma_pow2_pos(149);
}

/// Whether a number is three quarters of the length whose square is given, within rounding.
pub open spec fn three_quarters(away: Scalar, square: int) -> bool {
    let w = away.value();
    &&& away.finite() && w >= 0
    &&& 0x100_0000 * rounding::distance(16 * (w * w), 9 * square) <= 300 * square + 0x1c00_0000
        * exact::unit()
}

/// Whether a number lies midway between two, within rounding.
pub open spec fn midway(m: Scalar, lo: Scalar, hi: Scalar) -> bool {
    let sum = lo.value() + hi.value();
    &&& m.finite()
    &&& 0x100_0000 * rounding::distance(2 * m.value(), sum) <= 3 * errors::size(sum) + 0x200_0000
}

proof fn lemma_stand_back(d: Scalar, square: int)
    requires
        d.finite(),
        d.value() == 0 || d.value() >= 0x1_0000_0000,
        square >= 0,
        0x100_0000 * rounding::distance(d.value() * d.value(), square) <= 27 * square + 0x300_0000
            * exact::unit(),
    ensures
        three_quarters(d.times(Scalar { bits: scene::STAND_BACK }), square),
{
    let back = Scalar { bits: scene::STAND_BACK };
    let away = d.times(back);
    let u = exact::unit();
    let (r, w, k) = (d.value(), away.value(), back.value());
    lemma_pow2_pos(149);
    constants::law_steps();
    constants::law_plain_numbers();
    scalar::lemma_times_value(d, back);
    scalar::lemma_nearest_value_exact(d);
    scalar::lemma_nearest_value_exact(Scalar { bits: 0 });
    magnitude::lemma_units_sign(0);
    assert(0 * u <= r * k && (r * k) * 1 <= r * u && 0 * u == 0) by (nonlinear_arith)
        requires
            r >= 0,
            4 * k == 3 * u,
            u > 0,
    ;
    scalar::lemma_nearest_value_ordered(r * k, u, r, 1);
    scalar::lemma_nearest_value_ordered(0, 1, r * k, u);
    scalar::law_order_is_that_of_the_values(away, d);
    magnitude::lemma_units_sign(away.magnitude());
    if away.infinite() {
        scalar::law_order_is_that_of_the_values(d, away);
    }
    assert(away.finite());
    errors::law_products_are_close(d, back);
    assert(4 * (r * k) == u * (3 * r)) by (nonlinear_arith)
        requires
            4 * k == 3 * u,
    ;
    let e = 4 * w - 3 * r;
    assert(4 * (u * w) - u * (3 * r) == u * e) by (nonlinear_arith)
        requires
            e == 4 * w - 3 * r,
    ;
    let se = errors::size(e);
    assert(u * se == errors::size(u * e)) by (nonlinear_arith)
        requires
            u > 0,
            se == e || se == -e,
            se >= 0,
            errors::size(u * e) == u * e || errors::size(u * e) == -(u * e),
            errors::size(u * e) >= 0,
    ;
    assert(r * k >= 0);
    assert(0x100_0000 * (u * se) <= u * (3 * r) + 0x200_0000 * u);
    assert(0x100_0000 * se <= 3 * r + 0x200_0000) by (nonlinear_arith)
        requires
            0x100_0000 * (u * se) <= u * (3 * r) + 0x200_0000 * u,
            u > 0,
    ;
    if r == 0 {
        assert(e == 0 || se == 1 || se == 2);
        assert(w == 0);
        assert(0int * 0int == 0) by (nonlinear_arith);
    } else {
        assert(0x100_0000 * se <= 4 * r);
        assert(16 * (w * w) == 9 * (r * r) + 6 * (r * e) + e * e) by (nonlinear_arith)
            requires
                4 * w == 3 * r + e,
        ;
        assert(0x100_0000 * (r * se) <= 4 * (r * r) && -(r * se) <= r * e <= r * se && 0x100_0000 * (
        e * e) <= r * r && e * e >= 0) by (nonlinear_arith)
            requires
                0x100_0000 * se <= 4 * r,
                -se <= e <= se,
                se >= 0,
                r >= 0,
        ;
    }
}

/// The value of a sum goes by the values of its terms.
proof fn lemma_same_plus(a: Scalar, b: Scalar, c: Scalar, d: Scalar)
    requires
        a.finite(),
        b.finite(),
        c.finite(),
        d.finite(),
        a.value() == c.value(),
        b.value() == d.value(),
    ensures
        a.plus(b).value() == c.plus(d).value(),
        a.plus(b).finite() ==> c.plus(d).finite(),
        c.minus(d).value() == a.minus(b).value(),
        a.minus(b).finite() ==> c.minus(d).finite(),
{
    exact::law_negated_is_the_opposite(b);
    exact::law_negated_is_the_opposite(d);
    scalar::lemma_plus_value(a, b);
    scalar::lemma_plus_value(c, d);
    scalar::lemma_plus_value(a, b.negated());
    scalar::lemma_plus_value(c, d.negated());
    scalar::lemma_orders();
    let (p, q) = (a.plus(b), c.plus(d));
    assert(p.le(q) && q.le(p));
    let (p, q) = (a.minus(b), c.minus(d));
    assert(p.le(q) && q.le(p));
}

proof fn lemma_same_times(a: Scalar, c: Scalar)
    requires
        a.finite(),
        c.finite(),
        a.value() == c.value(),
    ensures
        a.times(a).value() == c.times(c).value(),
        a.times(a).finite() ==> c.times(c).finite(),
{
    scalar::lemma_times_value(a, a);
    scalar::lemma_times_value(c, c);
    scalar::lemma_orders();
    let (p, q) = (a.times(a), c.times(c));
    assert(p.le(q) && q.le(p));
}

proof fn lemma_same_dot(p: Vec3, q: Vec3)
    requires
        p.dot(p).finite(),
        q.x.finite(),
        q.y.finite(),
        q.z.finite(),
        p.x.value() == q.x.value(),
        p.y.value() == q.y.value(),
        p.z.value() == q.z.value(),
    ensures
        q.dot(q).finite(),
{
    let (a, b, c) = (p.x.times(p.x), p.y.times(p.y), p.z.times(p.z));
    lemma_terms_are_finite(a.plus(b), c);
    lemma_terms_are_finite(a, b);
    lemma_terms_are_finite(p.x, p.x);
    lemma_terms_are_finite(p.y, p.y);
    lemma_terms_are_finite(p.z, p.z);
    lemma_same_times(p.x, q.x);
    lemma_same_times(p.y, q.y);
    lemma_same_times(p.z, q.z);
    let (d, e, f) = (q.x.times(q.x), q.y.times(q.y), q.z.times(q.z));
    lemma_same_plus(a, b, d, e);
    lemma_same_plus(a.plus(b), c, d.plus(e), f);
}

proof fn lemma_difference(a: Scalar, b: Scalar)
    requires
        a.finite(),
        b.finite(),
        a.minus(b).finite(),
    ensures
        0x100_0000 * rounding::distance(a.value() - b.value(), a.minus(b).value()) <= errors::size(
            a.value() - b.value(),
        ),
{
    exact::law_negated_is_the_opposite(b);
    errors::law_sums_are_close(a, b.negated());
}

proof fn lemma_midway(lo: Scalar, hi: Scalar)
    requires
        lo.finite(),
        hi.finite(),
        lo.plus(hi).finite(),
    ensures
        midway(lo.plus(hi).times(Scalar { bits: HALF }), lo, hi),
{
    let s = lo.plus(hi);
    let half = Scalar { bits: HALF };
    let m = s.times(half);
    let u = exact::unit();
    lemma_pow2_pos(149);
    constants::law_plain_numbers();
    errors::law_sums_are_close(lo, hi);
    scalar::lemma_times_value(s, half);
    scalar::lemma_nearest_value_exact(s);
    scalar::lemma_nearest_value_exact(Scalar { bits: 0 });
    magnitude::lemma_units_sign(0);
    let (v, h) = (s.value(), half.value());
    assert(2 * (v * h) == u * v && v * u == u * v && 0 * u == 0) by (nonlinear_arith)
        requires
            2 * h == u,
    ;
    assert((v >= 0 ==> 0 <= u * v) && (v <= 0 ==> u * v <= 0)) by (nonlinear_arith)
        requires
            u > 0,
    ;
    if v >= 0 {
        scalar::lemma_nearest_value_ordered(v * h, u, v, 1);
        scalar::lemma_nearest_value_ordered(0, 1, v * h, u);
    } else {
        scalar::lemma_nearest_value_ordered(v, 1, v * h, u);
        scalar::lemma_nearest_value_ordered(v * h, u, 0, 1);
    }
    scalar::lemma_orders();
    magnitude::lemma_units_sign(m.magnitude());
    magnitude::lemma_units_sign(s.magnitude());
    if m.infinite() {
        magnitude::lemma_units_increase(s.magnitude(), m.magnitude());
    }
    errors::law_products_are_close(s, half);
    let e = 2 * m.value() - v;
    let mv = m.value();
    assert(2 * (u * mv) - u * v == u * e) by (nonlinear_arith)
        requires
            e == 2 * mv - v,
    ;
    let se = errors::size(e);
    let sv = errors::size(v);
    assert(u * se == errors::size(u * e) && u * sv == errors::size(u * v)) by (nonlinear_arith)
        requires
            u > 0,
            se == e || se == -e,
            se >= 0,
            sv == v || sv == -v,
            sv >= 0,
            errors::size(u * e) == u * e || errors::size(u * e) == -(u * e),
            errors::size(u * e) >= 0,
            errors::size(u * v) == u * v || errors::size(u * v) == -(u * v),
            errors::size(u * v) >= 0,
    ;
    assert(0x100_0000 * (u * se) <= u * sv + 0x100_0000 * u);
    assert(0x100_0000 * se <= sv + 0x100_0000) by (nonlinear_arith)
        requires
            0x100_0000 * (u * se) <= u * sv + 0x100_0000 * u,
            u > 0,
    ;
}

/// A scene without a coordinate that is infinite or no number is framed at the middle of its
/// bounds, from three quarters of the length of their diagonal, and never from closer than
/// one half, as far as nothing overflows.
pub proof fn law_a_scene_is_framed_from_its_diagonal(means: Seq<Scalar>)
    requires
        means.len() >= 3,
        forall|i: int| 0 <= i < means.len() ==> (#[trigger] means[i]).finite(),
        ({
            let (lo, hi) = scene::bounds(means);
            hi.minus(lo).dot(hi.minus(lo)).finite()
        }),
    ensures
        ({
            let (lo, hi) = scene::bounds(means);
            let (pivot, distance) = scene::framing(means);
            let square = squares(
                hi.x.value() - lo.x.value(),
                hi.y.value() - lo.y.value(),
                hi.z.value() - lo.z.value(),
            );
            let half = (Scalar { bits: HALF }).value();
            &&& exists|away: Scalar| #[trigger]
                three_quarters(away, square) && distance.finite() && distance.value() == if away.value()
                    > half {
                    away.value()
                } else {
                    half
                }
            &&& lo.x.plus(hi.x).finite() ==> midway(pivot.x, lo.x, hi.x)
            &&& lo.y.plus(hi.y).finite() ==> midway(pivot.y, lo.y, hi.y)
            &&& lo.z.plus(hi.z).finite() ==> midway(pivot.z, lo.z, hi.z)
        }),
{
    let (lo, hi) = scene::bounds(means);
    let (a, b) = scene::running_extent(means, scene::center_count(means) as nat);
    let d = b.minus(a);
    scene::law_extent_is_that_of_the_bounds(means);
    scene::law_bounds_hold_every_splat(means);
    scalar::lemma_orders();
    let (x, y, z) = (
        hi.x.value() - lo.x.value(),
        hi.y.value() - lo.y.value(),
        hi.z.value() - lo.z.value(),
    );
    let e = hi.minus(lo);
    let (p, q, r) = (e.x.times(e.x), e.y.times(e.y), e.z.times(e.z));
    lemma_terms_are_finite(p.plus(q), r);
    lemma_terms_are_finite(p, q);
    lemma_terms_are_finite(e.x, e.x);
    lemma_terms_are_finite(e.y, e.y);
    lemma_terms_are_finite(e.z, e.z);
    lemma_same_plus(hi.x, lo.x, b.x, a.x);
    lemma_same_plus(hi.y, lo.y, b.y, a.y);
    lemma_same_plus(hi.z, lo.z, b.z, a.z);
    lemma_same_plus(lo.x, hi.x, a.x, b.x);
    lemma_same_plus(lo.y, hi.y, a.y, b.y);
    lemma_same_plus(lo.z, hi.z, a.z, b.z);
    lemma_same_dot(e, d);
    lemma_difference(b.x, a.x);
    lemma_difference(b.y, a.y);
    lemma_difference(b.z, a.z);
    lemma_length(d, x, y, z);
    let away = d.length().times(Scalar { bits: scene::STAND_BACK });
    lemma_stand_back(d.length(), squares(x, y, z));
    assert(three_quarters(away, squares(x, y, z)));
    exact::law_at_least_is_the_greater(away, Scalar { bits: HALF });
    if lo.x.plus(hi.x).finite() {
        lemma_midway(a.x, b.x);
    }
    if lo.y.plus(hi.y).finite() {
        lemma_midway(a.y, b.y);
    }
    if lo.z.plus(hi.z).finite() {
        lemma_midway(a.z, b.z);
    }
}

/// The extent that frames a scene starts from nothing, and each splat widens it where it
/// exceeds it; a coordinate that is no number is passed over.
pub proof fn law_an_extent_grows_splat_by_splat(means: Seq<Scalar>, n: nat)
    requires
        3 * n + 2 < means.len(),
    ensures
        ({
            let (a, b) = scene::running_extent(means, n);
            let (lo, hi) = scene::running_extent(means, n + 1);
            let i = n as int;
            let (x, y, z) = (means[3 * i], means[3 * i + 1], means[3 * i + 2]);
            &&& n == 0 ==> {
                &&& a == Vec3::splat(exact::infinity(false))
                &&& b == Vec3::splat(exact::infinity(true))
            }
            &&& spatial::is_lesser(lo.x, x, a.x)
            &&& spatial::is_lesser(lo.y, y, a.y)
            &&& spatial::is_lesser(lo.z, z, a.z)
            &&& spatial::is_lesser(hi.x.negated(), x.negated(), b.x.negated())
            &&& spatial::is_lesser(hi.y.negated(), y.negated(), b.y.negated())
            &&& spatial::is_lesser(hi.z.negated(), z.negated(), b.z.negated())
        }),
{
    let (a, b) = scene::running_extent(means, n);
    let p = scene::center_at(means, n as int);
    assert(scene::running_extent(means, n + 1) == (p.lesser(a), p.greater(b)));
    spatial::law_lesser_and_greater(p, a);
    spatial::law_lesser_and_greater(p, b);
}

/// Whether a distance is three quarters of a length, and at least one half, by rounded steps.
pub open spec fn stands_back(distance: Scalar, length: Scalar) -> bool {
    exists|part: Scalar, away: Scalar| #[trigger]
        constants::about(part, 3, 4) && #[trigger] exact::is_product(away, length, part) && distance
            == if away.nan() || 2 * away.value() < exact::unit() {
            Scalar { bits: HALF }
        } else {
            away
        }
}

/// A scene is framed by the extent of all its splats, whatever their coordinates: at half the sum
/// of its corners, from three quarters of the length between them.
pub proof fn law_a_scene_is_framed_by_its_extent(means: Seq<Scalar>)
    ensures
        ({
            let (lo, hi) = scene::running_extent(means, means.len() / 3);
            let (pivot, distance) = scene::framing(means);
            &&& exists|sum: Vec3| #[trigger]
                spatial::is_vector_sum(sum, lo, hi) && spatial::is_multiple(
                    pivot,
                    sum,
                    Scalar { bits: HALF },
                )
            &&& exists|across: Vec3, length: Scalar| #[trigger]
                spatial::is_vector_difference(across, hi, lo) && #[trigger] spatial::is_length(
                    length,
                    across,
                ) && stands_back(distance, length)
        }),
{
    let (lo, hi) = scene::running_extent(means, means.len() / 3);
    let (pivot, distance) = scene::framing(means);
    let half = Scalar { bits: HALF };
    let sum = lo.plus(hi);
    let across = hi.minus(lo);
    let length = across.length();
    let part = Scalar { bits: scene::STAND_BACK };
    let away = length.times(part);
    spatial::law_vectors_go_by_component(lo, hi, half);
    spatial::law_vectors_go_by_component(sum, sum, half);
    spatial::law_vectors_go_by_component(hi, lo, half);
    spatial::law_lengths_and_directions(across, across);
    exact::law_times_is_the_product(length, part);
    constants::law_steps();
    constants::law_plain_numbers();
    scalar::lemma_orders();
    assert(spatial::is_vector_sum(sum, lo, hi));
    assert(constants::about(part, 3, 4) && exact::is_product(away, length, part));
    assert(stands_back(distance, length));
    assert(spatial::is_vector_difference(across, hi, lo) && spatial::is_length(length, across));
}

/// The exact square of the diagonal of the bounds of a scene.
pub open spec fn diagonal_squared(means: Seq<Scalar>) -> int {
    let (lo, hi) = scene::bounds(means);
    squares(
        hi.x.value() - lo.x.value(),
        hi.y.value() - lo.y.value(),
        hi.z.value() - lo.z.value(),
    )
}

/// Whether a scene has finite coordinates and a diagonal that does not overflow.
pub open spec fn measurable(means: Seq<Scalar>) -> bool {
    let (lo, hi) = scene::bounds(means);
    &&& means.len() >= 3
    &&& forall|i: int| 0 <= i < means.len() ==> (#[trigger] means[i]).finite()
    &&& hi.minus(lo).dot(hi.minus(lo)).finite()
}

/// A scene twice as large is framed from twice the distance, within rounding, where neither is
/// framed from as close as one half.
pub proof fn law_twice_the_scene_is_framed_from_twice_as_far(small: Seq<Scalar>, large: Seq<Scalar>)
    requires
        measurable(small),
        measurable(large),
        diagonal_squared(large) == 4 * diagonal_squared(small),
        2 * scene::framing(small).1.value() > exact::unit(),
        2 * scene::framing(large).1.value() > exact::unit(),
    ensures
        ({
            let (d, e) = (scene::framing(small).1.value(), scene::framing(large).1.value());
            0x100_0000 * rounding::distance(16 * (e * e), 64 * (d * d)) <= 2400 * diagonal_squared(
                small,
            ) + 0x8c00_0000 * exact::unit()
        }),
{
    constants::law_plain_numbers();
    law_a_scene_is_framed_from_its_diagonal(small);
    law_a_scene_is_framed_from_its_diagonal(large);
}

} // verus!
