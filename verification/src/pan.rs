//! What panning comes to on the screen: so many pixels, whatever the distance.
use vstd::prelude::*;
use vstd::arithmetic::power2::*;
use crate::errors;
use crate::exact;
use crate::magnitude;
use crate::moves;
use crate::orbit;
use crate::orbit::{Basis, OrbitCamera};
use crate::rounding;
use crate::scalar;
use crate::scalar::{Scalar, TWO};
use crate::spatial;
use crate::state;
use crate::state::ViewerState;
use crate::vector::Vec3;

verus! {

/// The height of what is seen at the pivot, twice the distance times the tangent.
pub open spec fn seen_height(camera: OrbitCamera, tan_half_fov: Scalar) -> Scalar {
    (Scalar { bits: TWO }).times(camera.distance).times(tan_half_fov)
}

/// A finite double is exact.
pub proof fn lemma_double(a: Scalar)
    requires
        a.finite(),
        (Scalar { bits: TWO }).times(a).finite(),
    ensures
        (Scalar { bits: TWO }).times(a).value() == 2 * a.value(),
{
    reveal(Scalar::spec_times);
    let unit = pow2(149) as int;
    let m = a.magnitude();
    let u = magnitude::units(m);
    let top = rounding::INFINITE as int;
    let twice = if m < 0x80_0000 {
        2 * m
    } else {
        m + 0x80_0000
    };
    lemma_pow2_pos(149);
    magnitude::lemma_unit_powers();
    magnitude::lemma_half_units(TWO as int);
    magnitude::lemma_units_sign(m);
    assert((2 * unit) * u >= 0 && ((2 * unit) * u) * 1 == (2 * u) * unit) by (nonlinear_arith)
        requires
            unit > 0,
            u >= 0,
    ;
    rounding::lemma_rounded_of_equal((2 * unit) * u, unit, 2 * u, 1);
    magnitude::lemma_rounded_range(2 * u, 1);
    if twice > top {
        magnitude::lemma_half_units(top);
        magnitude::lemma_units_sign(top);
        magnitude::lemma_units_increase(top - 0x80_0000, m);
        magnitude::law_rounding_keeps_numbers(top);
        rounding::law_rounding_keeps_order(magnitude::units(top), 1, 2 * u, 1);
    } else {
        assert(magnitude::units(twice) == 2 * u) by {
            if m < 0x80_0000 {
                reveal(magnitude::units);
                lemma2_to64();
                assert(magnitude::significand(twice) == twice && magnitude::exponent(twice) == 0);
                assert(magnitude::significand(m) == m && magnitude::exponent(m) == 0);
                assert(twice * 1 == 2 * (m * 1));
            } else {
                magnitude::lemma_half_units(twice);
            }
        }
        magnitude::law_rounding_keeps_numbers(twice);
    }
}

/// How far the world units of one pixel, times the pixels of the surface, lie from the
/// exact height of what is seen.
pub open spec fn scale_error(camera: OrbitCamera, height: u32, tan_half_fov: Scalar) -> int {
    let twice = (Scalar { bits: TWO }).times(camera.distance);
    let h = Scalar::from_u32(orbit::at_least_one(height));
    errors::quotient_error(twice.times(tan_half_fov), h) + errors::product_error(
        twice,
        tan_half_fov,
    )
}

/// The world units that one pixel spans, times the pixels that the surface is high, are
/// twice the distance times the tangent of half the field of view, within the rounding
/// of the one product and the one quotient.
pub proof fn law_pixels_span_what_is_seen(camera: OrbitCamera, height: u32, tan_half_fov: Scalar)
    requires
        camera.distance.finite(),
        tan_half_fov.finite(),
        (Scalar { bits: TWO }).times(camera.distance).finite(),
        seen_height(camera, tan_half_fov).finite(),
    ensures
        rounding::distance(
            Scalar::from_u32(orbit::at_least_one(height)).value() * state::world_per_pixel(
                camera,
                height,
                tan_half_fov,
            ).value(),
            2 * camera.distance.value() * tan_half_fov.value(),
        ) <= scale_error(camera, height, tan_half_fov),
{
    lemma_double(camera.distance);
    let s = seen_height(camera, tan_half_fov).value();
    assert(s * pow2(149) == pow2(149) * s) by (nonlinear_arith);
}

/// How far the rounding of a pan puts the pivot from where it belongs along one axis, in
/// cubes of units: that of its sums, of the products with the directions, and of the
/// products of pixels and scale.
pub open spec fn shift_error(
    old: Scalar,
    right: Scalar,
    up: Scalar,
    dx: Scalar,
    dy: Scalar,
    scale: Scalar,
) -> int {
    let (x, y) = (dx.times(scale), dy.times(scale));
    let (a, b) = (right.times(x), up.times(y));
    let unit = pow2(149) as int;
    unit * (unit * (errors::sum_error(old, a.plus(b).negated()) + errors::sum_error(a, b))) + unit
        * (errors::product_error(right, x) + errors::product_error(up, y)) + errors::size(
        right.value(),
    ) * errors::product_error(dx, scale) + errors::size(up.value()) * errors::product_error(
        dy,
        scale,
    )
}

pub proof fn lemma_size_of_product(a: int, b: int)
    ensures
        errors::size(a * b) == errors::size(a) * errors::size(b),
{
    assert((-a) * b == -(a * b) && a * (-b) == -(a * b) && (-a) * (-b) == a * b && (a >= 0 && b >= 0
        ==> a * b >= 0) && (a < 0 && b < 0 ==> a * b >= 0) && (a >= 0 && b < 0 ==> a * b <= 0) && (a
        < 0 && b >= 0 ==> a * b <= 0)) by (nonlinear_arith);
}

/// The shift of the pivot along one axis.
proof fn lemma_shift(
    old: Scalar,
    right: Scalar,
    up: Scalar,
    dx: Scalar,
    dy: Scalar,
    scale: Scalar,
)
    requires
        ({
            let shift = right.times(dx.times(scale)).plus(up.times(dy.times(scale)));
            shift.finite()
        }),
    ensures
        ({
            let shift = right.times(dx.times(scale)).plus(up.times(dy.times(scale)));
            let unit = pow2(149) as int;
            rounding::distance(
                unit * (unit * (old.value() - old.minus(shift).value())),
                right.value() * (dx.value() * scale.value()) + up.value() * (dy.value()
                    * scale.value()),
            ) <= shift_error(old, right, up, dx, dy, scale)
        }),
{
    let (kx, ky) = (dx.times(scale), dy.times(scale));
    let (a, b) = (right.times(kx), up.times(ky));
    let shift = a.plus(b);
    let new = old.minus(shift);
    let unit = pow2(149) as int;
    let (r, p) = (right.value(), up.value());
    let (xs, ys) = (dx.value() * scale.value(), dy.value() * scale.value());
    let (x, y) = (kx.value(), ky.value());
    let e1 = unit * x - xs;
    let e2 = unit * y - ys;
    let e3 = unit * a.value() - r * x;
    let e4 = unit * b.value() - p * y;
    let e5 = shift.value() - (a.value() + b.value());
    let e6 = new.value() - (old.value() - shift.value());
    lemma_pow2_pos(149);
    assert(shift.negated().value() == -shift.value()) by {
        magnitude::lemma_units_sign(shift.magnitude());
    }
    assert(unit * (r * x) == r * (unit * x) && unit * (p * y) == p * (unit * y))
        by (nonlinear_arith);
    assert(r * (xs + e1) == r * xs + r * e1 && p * (ys + e2) == p * ys + p * e2)
        by (nonlinear_arith);
    let (av, bv) = (a.value(), b.value());
    assert(unit * (unit * (av + bv + e5 - e6)) == unit * (unit * av) + unit * (unit * bv) + unit * (
    unit * (e5 - e6))) by (nonlinear_arith);
    assert(unit * (r * x + e3) == unit * (r * x) + unit * e3 && unit * (p * y + e4) == unit * (p
        * y) + unit * e4) by (nonlinear_arith);
    lemma_size_of_product(r, e1);
    lemma_size_of_product(p, e2);
    lemma_size_of_product(unit, e3);
    lemma_size_of_product(unit, e4);
    lemma_size_of_product(unit, e5 - e6);
    lemma_size_of_product(unit, unit * (e5 - e6));
    let (s3, s4) = (errors::size(e3), errors::size(e4));
    let (s5, s6) = (errors::size(e5), errors::size(e6));
    let s56 = errors::size(e5 - e6);
    assert(unit * (s3 + s4) == unit * s3 + unit * s4) by (nonlinear_arith);
    assert(unit * (unit * s56) <= unit * (unit * (s6 + s5))) by (nonlinear_arith)
        requires
            s56 <= s6 + s5,
            unit > 0,
    ;
}

/// Whether the shift of a pan is finite along each axis.
pub open spec fn shifts_finitely(basis: Basis, dx: Scalar, dy: Scalar, scale: Scalar) -> bool {
    let shift = basis.right.scaled(dx.times(scale)).plus(basis.up.scaled(dy.times(scale)));
    shift.x.finite() && shift.y.finite() && shift.z.finite()
}

/// Panning takes the pivot back by as many pixels to the right and up, each as many
/// world units as one pixel spans, within the rounding of the sums and products.
pub proof fn law_panning_shifts_by_pixels(
    s: ViewerState,
    dx: Scalar,
    dy: Scalar,
    basis: Basis,
    tan_half_fov: Scalar,
)
    requires
        shifts_finitely(
            basis,
            dx,
            dy,
            state::world_per_pixel(s.orbit, s.height, tan_half_fov),
        ),
    ensures
        ({
            let scale = state::world_per_pixel(s.orbit, s.height, tan_half_fov);
            let (old, new) = (
                s.orbit.center,
                s.panned(dx, dy, basis, tan_half_fov).orbit.center,
            );
            let (r, u) = (basis.right, basis.up);
            let (x, y) = (dx.value() * scale.value(), dy.value() * scale.value());
            let unit = pow2(149) as int;
            &&& rounding::distance(
                unit * (unit * (old.x.value() - new.x.value())),
                r.x.value() * x + u.x.value() * y,
            ) <= shift_error(old.x, r.x, u.x, dx, dy, scale)
            &&& rounding::distance(
                unit * (unit * (old.y.value() - new.y.value())),
                r.y.value() * x + u.y.value() * y,
            ) <= shift_error(old.y, r.y, u.y, dx, dy, scale)
            &&& rounding::distance(
                unit * (unit * (old.z.value() - new.z.value())),
                r.z.value() * x + u.z.value() * y,
            ) <= shift_error(old.z, r.z, u.z, dx, dy, scale)
        }),
{
    let scale = state::world_per_pixel(s.orbit, s.height, tan_half_fov);
    let (old, r, u) = (s.orbit.center, basis.right, basis.up);
    lemma_shift(old.x, r.x, u.x, dx, dy, scale);
    lemma_shift(old.y, r.y, u.y, dx, dy, scale);
    lemma_shift(old.z, r.z, u.z, dx, dy, scale);
}

/// Whether a number is finite and greater than the least of 24 bits, either way from
/// zero, so that it has not underflowed.
pub open spec fn ample(a: Scalar) -> bool {
    a.finite() && a.magnitude() > 0x80_0000
}

/// Where neither underflows nor overflows, the number nearest to twice a rational is
/// twice the number nearest to it.
proof fn lemma_nearest_doubles(n: int, d: int, near: Scalar, far: Scalar)
    requires
        d > 0,
        ample(near),
        far.finite(),
        near.value() == scalar::nearest_value(n, d),
        far.value() == scalar::nearest_value(2 * n, d),
    ensures
        far.value() == 2 * near.value(),
{
    let v = errors::size(n);
    let least = 0x80_0000int;
    let (m, w) = (rounding::rounded(v, d), rounding::rounded(2 * v, d));
    let top = rounding::INFINITE as int;
    magnitude::lemma_rounded_range(v, d);
    magnitude::lemma_rounded_range(2 * v, d);
    magnitude::lemma_units_sign(m);
    magnitude::lemma_units_sign(w);
    magnitude::lemma_units_sign(near.magnitude());
    magnitude::lemma_units_sign(far.magnitude());
    assert(magnitude::units(m) == magnitude::units(near.magnitude()));
    assert(magnitude::units(w) == magnitude::units(far.magnitude()));
    magnitude::law_rounding_keeps_numbers(m);
    magnitude::law_rounding_keeps_numbers(near.magnitude());
    magnitude::law_rounding_keeps_numbers(w);
    magnitude::law_rounding_keeps_numbers(far.magnitude());
    assert(m == near.magnitude() && w == far.magnitude());
    if v < least * d {
        magnitude::law_rounding_keeps_numbers(least);
        assert(magnitude::units(least) == least) by {
            reveal(magnitude::units);
            lemma2_to64();
            assert(magnitude::significand(least) == least && magnitude::exponent(least) == 0);
            assert(least * 1 == least);
        }
        rounding::law_rounding_keeps_order(v, d, least, 1);
    }
    rounding::lemma_rounded_doubles(v, d);
    magnitude::lemma_half_units(w);
}

/// Twice the distance makes a pixel span twice as much, exactly, where nothing overflows
/// or underflows: panning feels the same whether the scene is tiny or huge.
pub proof fn law_a_pixel_spans_twice_as_much_twice_as_far(
    near: OrbitCamera,
    far: OrbitCamera,
    height: u32,
    tan_half_fov: Scalar,
)
    requires
        tan_half_fov.finite(),
        near.distance.finite(),
        far.distance.finite(),
        far.distance.value() == 2 * near.distance.value(),
        (Scalar { bits: TWO }).times(near.distance).finite(),
        (Scalar { bits: TWO }).times(far.distance).finite(),
        ample(seen_height(near, tan_half_fov)),
        seen_height(far, tan_half_fov).finite(),
        ample(state::world_per_pixel(near, height, tan_half_fov)),
        state::world_per_pixel(far, height, tan_half_fov).finite(),
    ensures
        state::world_per_pixel(far, height, tan_half_fov).value() == 2 * state::world_per_pixel(
            near,
            height,
            tan_half_fov,
        ).value(),
{
    let unit = pow2(149) as int;
    let two = Scalar { bits: TWO };
    let h = Scalar::from_u32(orbit::at_least_one(height));
    let (a, b) = (two.times(near.distance), two.times(far.distance));
    let (p, q) = (seen_height(near, tan_half_fov), seen_height(far, tan_half_fov));
    lemma_pow2_pos(149);
    lemma_double(near.distance);
    lemma_double(far.distance);
    let t = tan_half_fov.value();
    assert(b.value() * t == 2 * (a.value() * t)) by (nonlinear_arith)
        requires
            b.value() == 2 * a.value(),
    ;
    scalar::lemma_times_value(a, tan_half_fov);
    scalar::lemma_times_value(b, tan_half_fov);
    lemma_nearest_doubles(a.value() * t, unit, p, q);
    moves::lemma_pixel_count(orbit::at_least_one(height));
    magnitude::lemma_units_sign(h.magnitude());
    scalar::lemma_over_value(p, h);
    scalar::lemma_over_value(q, h);
    assert(q.value() * unit == 2 * (p.value() * unit)) by (nonlinear_arith)
        requires
            q.value() == 2 * p.value(),
    ;
    lemma_nearest_doubles(p.value() * unit, h.value(), p.over(h), q.over(h));
}

/// The exact dot product of two directions, in squares of units.
pub open spec fn exact_dot(p: Vec3, q: Vec3) -> int {
    p.x.value() * q.x.value() + p.y.value() * q.y.value() + p.z.value() * q.z.value()
}

/// How far one point lies from another along a direction, in squares of units.
pub open spec fn offset_along(p: Vec3, q: Vec3, dir: Vec3) -> int {
    (p.x.value() - q.x.value()) * dir.x.value() + (p.y.value() - q.y.value()) * dir.y.value() + (
    p.z.value() - q.z.value()) * dir.z.value()
}

/// What the shift errors of a pan come to along a direction.
pub open spec fn shift_error_along(
    old: Vec3,
    basis: Basis,
    dx: Scalar,
    dy: Scalar,
    scale: Scalar,
    dir: Vec3,
) -> int {
    let (r, u) = (basis.right, basis.up);
    shift_error(old.x, r.x, u.x, dx, dy, scale) * errors::size(dir.x.value()) + shift_error(
        old.y,
        r.y,
        u.y,
        dx,
        dy,
        scale,
    ) * errors::size(dir.y.value()) + shift_error(old.z, r.z, u.z, dx, dy, scale) * errors::size(
        dir.z.value(),
    )
}

proof fn lemma_term(o: int, e: int, b: int, d: int, uu: int) -> (k: int)
    requires
        rounding::distance(uu * o, e) <= b,
    ensures
        uu * (o * d) == e * d + k,
        errors::size(k) <= b * errors::size(d),
{
    let k = uu * o - e;
    assert(uu * (o * d) == (uu * o) * d && (e + k) * d == e * d + k * d) by (nonlinear_arith);
    lemma_size_of_product(k, d);
    let (a, c) = (errors::size(k), errors::size(d));
    assert(a * c <= b * c) by (nonlinear_arith)
        requires
            a <= b,
            c >= 0,
    ;
    k * d
}

/// What a pan moves the pivot back along a direction: the part of the right and the part
/// of the up that lie in it, within the shift errors.
proof fn lemma_offset(
    s: ViewerState,
    dx: Scalar,
    dy: Scalar,
    basis: Basis,
    tan_half_fov: Scalar,
    dir: Vec3,
)
    requires
        shifts_finitely(
            basis,
            dx,
            dy,
            state::world_per_pixel(s.orbit, s.height, tan_half_fov),
        ),
    ensures
        ({
            let scale = state::world_per_pixel(s.orbit, s.height, tan_half_fov);
            let (old, new) = (
                s.orbit.center,
                s.panned(dx, dy, basis, tan_half_fov).orbit.center,
            );
            let unit = pow2(149) as int;
            rounding::distance(
                (unit * unit) * offset_along(old, new, dir),
                (dx.value() * scale.value()) * exact_dot(basis.right, dir) + (dy.value()
                    * scale.value()) * exact_dot(basis.up, dir),
            ) <= shift_error_along(old, basis, dx, dy, scale, dir)
        }),
{
    let scale = state::world_per_pixel(s.orbit, s.height, tan_half_fov);
    let (old, new) = (s.orbit.center, s.panned(dx, dy, basis, tan_half_fov).orbit.center);
    let (r, u) = (basis.right, basis.up);
    let unit = pow2(149) as int;
    let uu = unit * unit;
    let (x, y) = (dx.value() * scale.value(), dy.value() * scale.value());
    let (ox, oy, oz) = (
        old.x.value() - new.x.value(),
        old.y.value() - new.y.value(),
        old.z.value() - new.z.value(),
    );
    let (gx, gy, gz) = (dir.x.value(), dir.y.value(), dir.z.value());
    let (rx, ry, rz) = (r.x.value(), r.y.value(), r.z.value());
    let (ux, uy, uz) = (u.x.value(), u.y.value(), u.z.value());
    law_panning_shifts_by_pixels(s, dx, dy, basis, tan_half_fov);
    assert(unit * (unit * ox) == uu * ox && unit * (unit * oy) == uu * oy && unit * (unit * oz)
        == uu * oz) by (nonlinear_arith)
        requires
            uu == unit * unit,
    ;
    let ex = rx * x + ux * y;
    let ey = ry * x + uy * y;
    let ez = rz * x + uz * y;
    let kx = lemma_term(ox, ex, shift_error(old.x, r.x, u.x, dx, dy, scale), gx, uu);
    let ky = lemma_term(oy, ey, shift_error(old.y, r.y, u.y, dx, dy, scale), gy, uu);
    let kz = lemma_term(oz, ez, shift_error(old.z, r.z, u.z, dx, dy, scale), gz, uu);
    assert(uu * (ox * gx + oy * gy + oz * gz) == uu * (ox * gx) + uu * (oy * gy) + uu * (oz
        * gz)) by (nonlinear_arith);
    assert(ex * gx == x * (rx * gx) + y * (ux * gx)) by (nonlinear_arith)
        requires
            ex == rx * x + ux * y,
    ;
    assert(ey * gy == x * (ry * gy) + y * (uy * gy)) by (nonlinear_arith)
        requires
            ey == ry * x + uy * y,
    ;
    assert(ez * gz == x * (rz * gz) + y * (uz * gz)) by (nonlinear_arith)
        requires
            ez == rz * x + uz * y,
    ;
    assert(x * (rx * gx + ry * gy + rz * gz) == x * (rx * gx) + x * (ry * gy) + x * (rz * gz))
        by (nonlinear_arith);
    assert(y * (ux * gx + uy * gy + uz * gz) == y * (ux * gx) + y * (uy * gy) + y * (uz * gz))
        by (nonlinear_arith);
}

/// How far from the right number of pixels the old pivot is seen along a direction of the
/// screen: by the shift errors, by the rounding of the scale, and by how far the camera's
/// directions are from being of length one and at right angles.
pub open spec fn sight_error(
    s: ViewerState,
    basis: Basis,
    dx: Scalar,
    dy: Scalar,
    tan_half_fov: Scalar,
    own: Scalar,
    dir: Vec3,
    other: Scalar,
    across: Vec3,
) -> int {
    let scale = state::world_per_pixel(s.orbit, s.height, tan_half_fov);
    let h = Scalar::from_u32(orbit::at_least_one(s.height)).value();
    let square = pow2(149) as int * pow2(149) as int;
    let span = errors::size(h * scale.value());
    h * shift_error_along(s.orbit.center, basis, dx, dy, scale, dir) + errors::size(own.value()) * (
    errors::size(exact_dot(dir, dir) - square) * span + square * scale_error(
        s.orbit,
        s.height,
        tan_half_fov,
    )) + errors::size(other.value()) * (errors::size(exact_dot(across, dir)) * span)
}

proof fn lemma_regroup(h: int, x: int, s: int, c: int)
    ensures
        h * ((x * s) * c) == x * (c * (h * s)),
{
    assert((x * s) * c == x * (c * s)) by (nonlinear_arith);
    let v = c * s;
    assert(h * (x * v) == x * (h * v)) by (nonlinear_arith);
    assert(h * (c * s) == c * (h * s)) by (nonlinear_arith);
}

proof fn lemma_sight(
    off: int,
    x: int,
    y: int,
    s: int,
    h: int,
    own: int,
    cross: int,
    goal: int,
    b: int,
    q: int,
    square: int,
)
    requires
        rounding::distance(square * off, (x * s) * own + (y * s) * cross) <= b,
        rounding::distance(h * s, goal) <= q,
        h >= 0,
        square >= 0,
    ensures
        rounding::distance(square * (h * off), square * (x * goal)) <= h * b + errors::size(x) * (
        errors::size(own - square) * errors::size(h * s) + square * q) + errors::size(y) * (
        errors::size(cross) * errors::size(h * s)),
{
    let k = square * off - ((x * s) * own + (y * s) * cross);
    let e = h * s - goal;
    let hs = h * s;
    let t = (own - square) * hs + square * e;
    assert(square * (h * off) == h * (square * off)) by (nonlinear_arith);
    lemma_regroup(h, x, s, own);
    lemma_regroup(h, y, s, cross);
    let (p, w) = ((x * s) * own, (y * s) * cross);
    assert(h * (p + w + k) == h * p + h * w + h * k) by (nonlinear_arith);
    assert(x * (own * hs) - square * (x * goal) == x * t) by (nonlinear_arith)
        requires
            t == (own - square) * hs + square * e,
            e == hs - goal,
    ;
    lemma_size_of_product(x, t);
    lemma_size_of_product(y, cross * hs);
    lemma_size_of_product(cross, hs);
    lemma_size_of_product(own - square, hs);
    lemma_size_of_product(square, e);
    lemma_size_of_product(h, k);
    let (se, sk, st, sx) = (errors::size(e), errors::size(k), errors::size(t), errors::size(x));
    let most = errors::size(own - square) * errors::size(hs) + square * q;
    assert(square * se <= square * q) by (nonlinear_arith)
        requires
            se <= q,
            square >= 0,
    ;
    assert(h * sk <= h * b) by (nonlinear_arith)
        requires
            sk <= b,
            h >= 0,
    ;
    assert(sx * st <= sx * most) by (nonlinear_arith)
        requires
            st <= most,
            sx >= 0,
    ;
}

/// After a pan the old pivot is seen so many pixels to the right of and above the middle of
/// the surface, whatever the distance and the field of view: its offset to the right, times
/// the pixels that the surface is high, is the pixels of the drag times the height of what
/// is seen at the pivot; and likewise upwards. (In units, times the square of one.)
pub proof fn law_a_pan_is_seen_as_pixels(
    s: ViewerState,
    dx: Scalar,
    dy: Scalar,
    basis: Basis,
    tan_half_fov: Scalar,
)
    requires
        s.orbit.distance.finite(),
        tan_half_fov.finite(),
        (Scalar { bits: TWO }).times(s.orbit.distance).finite(),
        seen_height(s.orbit, tan_half_fov).finite(),
        shifts_finitely(
            basis,
            dx,
            dy,
            state::world_per_pixel(s.orbit, s.height, tan_half_fov),
        ),
    ensures
        ({
            let h = Scalar::from_u32(orbit::at_least_one(s.height)).value();
            let seen = 2 * s.orbit.distance.value() * tan_half_fov.value();
            let square = pow2(149) as int * pow2(149) as int;
            let (old, new) = (
                s.orbit.center,
                s.panned(dx, dy, basis, tan_half_fov).orbit.center,
            );
            let (r, u) = (basis.right, basis.up);
            &&& rounding::distance(
                square * (h * offset_along(old, new, r)),
                square * (dx.value() * seen),
            ) <= sight_error(s, basis, dx, dy, tan_half_fov, dx, r, dy, u)
            &&& rounding::distance(
                square * (h * offset_along(old, new, u)),
                square * (dy.value() * seen),
            ) <= sight_error(s, basis, dx, dy, tan_half_fov, dy, u, dx, r)
        }),
{
    let scale = state::world_per_pixel(s.orbit, s.height, tan_half_fov);
    let pixels = Scalar::from_u32(orbit::at_least_one(s.height));
    let h = pixels.value();
    let seen = 2 * s.orbit.distance.value() * tan_half_fov.value();
    let unit = pow2(149) as int;
    let square = unit * unit;
    let (old, new) = (s.orbit.center, s.panned(dx, dy, basis, tan_half_fov).orbit.center);
    let (r, u) = (basis.right, basis.up);
    let q = scale_error(s.orbit, s.height, tan_half_fov);
    lemma_pow2_pos(149);
    moves::lemma_pixel_count(orbit::at_least_one(s.height));
    magnitude::lemma_units_sign(pixels.magnitude());
    assert(square >= 0) by (nonlinear_arith)
        requires
            square == unit * unit,
            unit > 0,
    ;
    law_pixels_span_what_is_seen(s.orbit, s.height, tan_half_fov);
    lemma_offset(s, dx, dy, basis, tan_half_fov, r);
    lemma_offset(s, dx, dy, basis, tan_half_fov, u);
    lemma_sight(
        offset_along(old, new, r),
        dx.value(),
        dy.value(),
        scale.value(),
        h,
        exact_dot(r, r),
        exact_dot(u, r),
        seen,
        shift_error_along(old, basis, dx, dy, scale, r),
        q,
        square,
    );
    lemma_sight(
        offset_along(old, new, u),
        dy.value(),
        dx.value(),
        scale.value(),
        h,
        exact_dot(u, u),
        exact_dot(r, u),
        seen,
        shift_error_along(old, basis, dx, dy, scale, u),
        q,
        square,
    );
}

/// How far the rounding puts a camera from where it belongs along one axis, in squares of
/// units.
pub open spec fn stand_error(center: Scalar, forward: Scalar, distance: Scalar) -> int {
    pow2(149) * errors::sum_error(center, forward.times(distance).negated())
        + errors::product_error(forward, distance)
}

/// What the errors of a camera's position come to along the way it looks.
pub open spec fn stand_error_along(camera: OrbitCamera, forward: Vec3) -> int {
    let (c, d) = (camera.center, camera.distance);
    stand_error(c.x, forward.x, d) * errors::size(forward.x.value()) + stand_error(
        c.y,
        forward.y,
        d,
    ) * errors::size(forward.y.value()) + stand_error(c.z, forward.z, d) * errors::size(
        forward.z.value(),
    )
}

proof fn lemma_stand(center: Scalar, forward: Scalar, distance: Scalar) -> (k: int)
    requires
        forward.times(distance).finite(),
    ensures
        ({
            let o = center.value() - center.minus(forward.times(distance)).value();
            let f = forward.value();
            &&& pow2(149) * (o * f) == distance.value() * (f * f) + k
            &&& errors::size(k) <= stand_error(center, forward, distance) * errors::size(f)
        }),
{
    let step = forward.times(distance);
    let o = center.value() - center.minus(step).value();
    let unit = pow2(149) as int;
    let (f, d) = (forward.value(), distance.value());
    let e = o - step.value();
    lemma_pow2_pos(149);
    magnitude::lemma_units_sign(step.magnitude());
    lemma_size_of_product(unit, e);
    let sv = step.value();
    assert(unit * (sv + e) == unit * sv + unit * e) by (nonlinear_arith);
    let k = lemma_term(o, f * d, stand_error(center, forward, distance), f, unit);
    assert((f * d) * f == d * (f * f)) by (nonlinear_arith);
    k
}

/// How far from the distance the old pivot lies in depth after a pan: by the shift errors,
/// by those of the camera's position, and by how far the camera's directions are from
/// being of length one and at right angles.
pub open spec fn depth_error(
    s: ViewerState,
    dx: Scalar,
    dy: Scalar,
    basis: Basis,
    tan_half_fov: Scalar,
) -> int {
    let scale = state::world_per_pixel(s.orbit, s.height, tan_half_fov);
    let after = s.panned(dx, dy, basis, tan_half_fov).orbit;
    let unit = pow2(149) as int;
    let f = basis.forward;
    shift_error_along(s.orbit.center, basis, dx, dy, scale, f) + errors::size(
        dx.value() * scale.value(),
    ) * errors::size(exact_dot(basis.right, f)) + errors::size(dy.value() * scale.value())
        * errors::size(exact_dot(basis.up, f)) + unit * (errors::size(s.orbit.distance.value())
        * errors::size(exact_dot(f, f) - unit * unit)) + unit * stand_error_along(after, f)
}

/// After a pan the old pivot still lies as far ahead of the camera as its distance. (In
/// units, times the cube of one.)
pub proof fn law_a_pan_keeps_the_depth(
    s: ViewerState,
    dx: Scalar,
    dy: Scalar,
    basis: Basis,
    tan_half_fov: Scalar,
)
    requires
        shifts_finitely(
            basis,
            dx,
            dy,
            state::world_per_pixel(s.orbit, s.height, tan_half_fov),
        ),
        basis.forward.x.times(s.orbit.distance).finite(),
        basis.forward.y.times(s.orbit.distance).finite(),
        basis.forward.z.times(s.orbit.distance).finite(),
    ensures
        ({
            let eye = s.panned(dx, dy, basis, tan_half_fov).orbit.eye(basis.forward);
            let unit = pow2(149) as int;
            rounding::distance(
                (unit * unit) * offset_along(s.orbit.center, eye, basis.forward),
                (unit * unit) * (unit * s.orbit.distance.value()),
            ) <= depth_error(s, dx, dy, basis, tan_half_fov)
        }),
{
    let scale = state::world_per_pixel(s.orbit, s.height, tan_half_fov);
    let after = s.panned(dx, dy, basis, tan_half_fov).orbit;
    let (old, new, f) = (s.orbit.center, after.center, basis.forward);
    let eye = after.eye(f);
    let unit = pow2(149) as int;
    let square = unit * unit;
    let d = s.orbit.distance.value();
    lemma_pow2_pos(149);
    lemma_offset(s, dx, dy, basis, tan_half_fov, f);
    let kx = lemma_stand(new.x, f.x, after.distance);
    let ky = lemma_stand(new.y, f.y, after.distance);
    let kz = lemma_stand(new.z, f.z, after.distance);
    let (fx, fy, fz) = (f.x.value(), f.y.value(), f.z.value());
    let (ax, ay, az) = (old.x.value(), old.y.value(), old.z.value());
    let (nx, ny, nz) = (new.x.value(), new.y.value(), new.z.value());
    let (cx, cy, cz) = (eye.x.value(), eye.y.value(), eye.z.value());
    assert((ax - cx) * fx == (ax - nx) * fx + (nx - cx) * fx) by (nonlinear_arith);
    assert((ay - cy) * fy == (ay - ny) * fy + (ny - cy) * fy) by (nonlinear_arith);
    assert((az - cz) * fz == (az - nz) * fz + (nz - cz) * fz) by (nonlinear_arith);
    let back = offset_along(new, eye, f);
    let k = kx + ky + kz;
    let (px, py, pz) = ((nx - cx) * fx, (ny - cy) * fy, (nz - cz) * fz);
    let ff = exact_dot(f, f);
    assert(unit * (px + py + pz) == unit * px + unit * py + unit * pz) by (nonlinear_arith);
    let (sx, sy, sz) = (fx * fx, fy * fy, fz * fz);
    assert(d * (sx + sy + sz) == d * sx + d * sy + d * sz) by (nonlinear_arith);
    assert(unit * back == d * ff + k);
    let ahead = offset_along(old, new, f);
    assert(square * (ahead + back) == square * ahead + unit * (unit * back)) by (nonlinear_arith)
        requires
            square == unit * unit,
    ;
    assert(unit * (d * ff + k) - square * (unit * d) == unit * (d * (ff - square)) + unit * k)
        by (nonlinear_arith)
        requires
            square == unit * unit,
    ;
    let (xs, ys) = (dx.value() * scale.value(), dy.value() * scale.value());
    lemma_size_of_product(xs, exact_dot(basis.right, f));
    lemma_size_of_product(ys, exact_dot(basis.up, f));
    lemma_size_of_product(unit, d * (ff - square));
    lemma_size_of_product(d, ff - square);
    lemma_size_of_product(unit, k);
    let (sk, most) = (errors::size(k), stand_error_along(after, f));
    assert(unit * sk <= unit * most) by (nonlinear_arith)
        requires
            sk <= most,
            unit > 0,
    ;
}

/// Whether a number is the world units that one pixel spans, by rounded steps.
pub open spec fn is_scale(scale: Scalar, camera: OrbitCamera, height: u32, tan: Scalar) -> bool {
    exists|twice: Scalar, seen: Scalar| #[trigger]
        exact::is_product(twice, Scalar { bits: TWO }, camera.distance)
            && #[trigger] exact::is_product(seen, twice, tan) && exact::is_quotient(
            scale,
            seen,
            Scalar::from_u32(if height == 0 { 1 } else { height }),
        )
}

/// Whether a pivot is another less so much to the right and so much up, by rounded steps.
pub open spec fn is_panned(new: Vec3, old: Vec3, basis: Basis, x: Scalar, y: Scalar) -> bool {
    exists|across: Vec3, along: Vec3, shift: Vec3| #[trigger]
        spatial::is_multiple(across, basis.right, x) && #[trigger] spatial::is_multiple(
            along,
            basis.up,
            y,
        ) && #[trigger] spatial::is_vector_sum(shift, across, along)
            && spatial::is_vector_difference(new, old, shift)
}

/// Panning takes the pivot back by its pixels times the scale along the right and the up of the
/// camera, for what is infinite or no number too, and changes nothing else.
pub proof fn law_panning_by_steps(
    s: ViewerState,
    dx: Scalar,
    dy: Scalar,
    basis: Basis,
    tan_half_fov: Scalar,
)
    ensures
        ({
            let o = s.panned(dx, dy, basis, tan_half_fov);
            &&& o == (ViewerState { orbit: OrbitCamera { center: o.orbit.center, ..s.orbit }, ..s })
            &&& exists|scale: Scalar, x: Scalar, y: Scalar| #[trigger]
                is_scale(scale, s.orbit, s.height, tan_half_fov) && #[trigger] exact::is_product(
                    x,
                    dx,
                    scale,
                ) && #[trigger] exact::is_product(y, dy, scale) && is_panned(
                    o.orbit.center,
                    s.orbit.center,
                    basis,
                    x,
                    y,
                )
        }),
{
    let two = Scalar { bits: TWO };
    let h = Scalar::from_u32(orbit::at_least_one(s.height));
    let twice = two.times(s.orbit.distance);
    let seen = twice.times(tan_half_fov);
    let scale = seen.over(h);
    let (x, y) = (dx.times(scale), dy.times(scale));
    let (across, along) = (basis.right.scaled(x), basis.up.scaled(y));
    let shift = across.plus(along);
    let new = s.orbit.center.minus(shift);
    exact::law_times_is_the_product(two, s.orbit.distance);
    exact::law_times_is_the_product(twice, tan_half_fov);
    exact::law_over_is_the_quotient(seen, h);
    assert(exact::is_product(twice, two, s.orbit.distance) && exact::is_product(
        seen,
        twice,
        tan_half_fov,
    ));
    assert(is_scale(scale, s.orbit, s.height, tan_half_fov));
    exact::law_times_is_the_product(dx, scale);
    exact::law_times_is_the_product(dy, scale);
    spatial::law_vectors_go_by_component(basis.right, basis.right, x);
    spatial::law_vectors_go_by_component(basis.up, basis.up, y);
    spatial::law_vectors_go_by_component(across, along, x);
    spatial::law_vectors_go_by_component(s.orbit.center, shift, x);
    assert(spatial::is_multiple(across, basis.right, x) && spatial::is_multiple(
        along,
        basis.up,
        y,
    ) && spatial::is_vector_sum(shift, across, along));
    assert(is_panned(new, s.orbit.center, basis, x, y));
    assert(exact::is_product(x, dx, scale) && exact::is_product(y, dy, scale));
}

} // verus!
