//! What moving the camera and clicking come to, within the rounding of the sums.
use vstd::prelude::*;
use vstd::arithmetic::power2::*;
use crate::errors;
use crate::magnitude;
use crate::orbit;
use crate::orbit::{Basis, OrbitCamera};
use crate::pick;
use crate::pick::Ray;
use crate::rounding;
use crate::scalar;
use crate::scalar::{HALF, ONE, Scalar, TWO, ZERO};
use crate::scene;
use crate::state::ViewerState;
use crate::vector::Vec3;

verus! {

/// Whether two finite numbers have a finite sum.
pub open spec fn sums_finitely(a: Scalar, b: Scalar) -> bool {
    a.finite() && b.finite() && a.plus(b).finite()
}

/// Whether a number lies within so many units of another.
pub open spec fn within(a: Scalar, b: Scalar, units: int) -> bool {
    !a.nan() && rounding::distance(a.value(), b.value()) <= units
}

/// Whether two points have finite sums along each axis.
pub open spec fn points_sum_finitely(p: Vec3, q: Vec3) -> bool {
    sums_finitely(p.x, q.x) && sums_finitely(p.y, q.y) && sums_finitely(p.z, q.z)
}

/// Whether a point lies, along each axis, within twice the rounding error of the sum
/// of two others from the first of them.
pub open spec fn comes_back(r: Vec3, p: Vec3, q: Vec3) -> bool {
    &&& within(r.x, p.x, 2 * errors::sum_error(p.x, q.x))
    &&& within(r.y, p.y, 2 * errors::sum_error(p.y, q.y))
    &&& within(r.z, p.z, 2 * errors::sum_error(p.z, q.z))
}

/// The point opposite to another.
pub open spec fn opposite(p: Vec3) -> Vec3 {
    Vec3 { x: p.x.negated(), y: p.y.negated(), z: p.z.negated() }
}

/// What is added and taken away again leaves a number within twice the rounding
/// error of the sum.
pub proof fn law_adding_and_taking_away(a: Scalar, b: Scalar)
    requires
        sums_finitely(a, b),
    ensures
        within(a.plus(b).minus(b), a, 2 * errors::sum_error(a, b)),
{
    scalar::law_sums_are_nearest(a.plus(b), b.negated(), a);
}

proof fn lemma_point_comes_back(p: Vec3, q: Vec3)
    requires
        points_sum_finitely(p, q),
    ensures
        comes_back(p.plus(q).minus(q), p, q),
{
    law_adding_and_taking_away(p.x, q.x);
    law_adding_and_taking_away(p.y, q.y);
    law_adding_and_taking_away(p.z, q.z);
}

/// Orbiting there and back brings each angle back within twice the rounding error of
/// the way there, and leaves all else as it was.
pub proof fn law_orbiting_there_and_back(s: ViewerState, dx: Scalar, dy: Scalar)
    requires
        sums_finitely(s.orbit.yaw, dx),
        sums_finitely(s.orbit.pitch, dy),
    ensures
        ({
            let back = s.orbited(dx, dy).orbited(dx.negated(), dy.negated());
            &&& within(back.orbit.yaw, s.orbit.yaw, 2 * errors::sum_error(s.orbit.yaw, dx))
            &&& within(back.orbit.pitch, s.orbit.pitch, 2 * errors::sum_error(s.orbit.pitch, dy))
            &&& back == (ViewerState {
                orbit: OrbitCamera { yaw: back.orbit.yaw, pitch: back.orbit.pitch, ..s.orbit },
                ..s
            })
        }),
{
    law_adding_and_taking_away(s.orbit.yaw, dx);
    law_adding_and_taking_away(s.orbit.pitch, dy);
}

/// How far the rounding puts a camera from its exact position, along each axis.
pub open spec fn position_error(camera: OrbitCamera, forward: Vec3) -> (int, int, int) {
    let step = opposite(forward.scaled(camera.distance));
    (
        errors::sum_error(camera.center.x, step.x),
        errors::sum_error(camera.center.y, step.y),
        errors::sum_error(camera.center.z, step.z),
    )
}

/// Panning moves the camera and its pivot alike, within the rounding errors of the
/// camera's position before and after.
pub proof fn law_panning_moves_eye_and_pivot_alike(
    s: ViewerState,
    dx: Scalar,
    dy: Scalar,
    basis: Basis,
    tan_half_fov: Scalar,
)
    requires
        ({
            let after = s.panned(dx, dy, basis, tan_half_fov).orbit;
            let step = opposite(basis.forward.scaled(s.orbit.distance));
            points_sum_finitely(s.orbit.center, step) && points_sum_finitely(after.center, step)
        }),
    ensures
        ({
            let before = s.orbit;
            let after = s.panned(dx, dy, basis, tan_half_fov).orbit;
            let (from, to) = (before.eye(basis.forward), after.eye(basis.forward));
            let (e, f) = (
                position_error(before, basis.forward),
                position_error(after, basis.forward),
            );
            &&& rounding::distance(
                to.x.value() - from.x.value(),
                after.center.x.value() - before.center.x.value(),
            ) <= e.0 + f.0
            &&& rounding::distance(
                to.y.value() - from.y.value(),
                after.center.y.value() - before.center.y.value(),
            ) <= e.1 + f.1
            &&& rounding::distance(
                to.z.value() - from.z.value(),
                after.center.z.value() - before.center.z.value(),
            ) <= e.2 + f.2
        }),
{
}

/// The ray of a click along a world-space direction.
pub open spec fn click(
    s: ViewerState,
    forward: Vec3,
    world_ray: Vec3,
    tan_half_fov: Scalar,
) -> Ray {
    Ray {
        origin: s.orbit.eye(forward),
        dir: world_ray.normalized(),
        cone: pick::click_cone(s.height, tan_half_fov),
    }
}

/// The viewer after a click along a world-space direction, given the angles that look
/// along it.
pub open spec fn clicked(
    s: ViewerState,
    forward: Vec3,
    world_ray: Vec3,
    tan_half_fov: Scalar,
    yaw: Scalar,
    pitch: Scalar,
) -> ViewerState {
    s.recentered(
        pick::picked(s.orbit, s.height, s.splat_means, forward, world_ray, tan_half_fov),
        yaw,
        pitch,
    )
}

/// A click makes the picked depth the distance, which is never closer than the
/// closest, puts the pivot that far along the ray from where the camera stands, and
/// turns it by the given angles. All else stays as it was.
pub proof fn law_a_click_makes_the_picked_point_the_pivot(
    s: ViewerState,
    forward: Vec3,
    world_ray: Vec3,
    tan_half_fov: Scalar,
    yaw: Scalar,
    pitch: Scalar,
)
    requires
        s.wf(),
    ensures
        ({
            let ray = click(s, forward, world_ray, tan_half_fov);
            let depth = pick::picked_depth(ray, s.splat_means, s.orbit.distance);
            &&& (Scalar { bits: orbit::CLOSEST }).le(depth)
            &&& clicked(s, forward, world_ray, tan_half_fov, yaw, pitch) == (ViewerState {
                orbit: OrbitCamera {
                    center: s.orbit.eye(forward).plus(ray.dir.scaled(depth)),
                    distance: depth,
                    yaw,
                    pitch,
                    ..s.orbit
                },
                ..s
            })
        }),
{
    let ray = click(s, forward, world_ray, tan_half_fov);
    pick::lemma_picks_keep_their_distance(ray, s.splat_means, s.orbit.distance);
}

/// A camera that turns to what was clicked stays where it stood, within twice the
/// rounding error of the step from there to the picked point.
pub proof fn law_a_click_keeps_the_eye(
    s: ViewerState,
    forward: Vec3,
    world_ray: Vec3,
    tan_half_fov: Scalar,
    yaw: Scalar,
    pitch: Scalar,
)
    requires
        s.wf(),
        ({
            let ray = click(s, forward, world_ray, tan_half_fov);
            let depth = pick::picked_depth(ray, s.splat_means, s.orbit.distance);
            points_sum_finitely(ray.origin, ray.dir.scaled(depth))
        }),
    ensures
        ({
            let ray = click(s, forward, world_ray, tan_half_fov);
            let depth = pick::picked_depth(ray, s.splat_means, s.orbit.distance);
            let eye = clicked(s, forward, world_ray, tan_half_fov, yaw, pitch).orbit.eye(ray.dir);
            comes_back(eye, s.orbit.eye(forward), ray.dir.scaled(depth))
        }),
{
    let ray = click(s, forward, world_ray, tan_half_fov);
    let depth = pick::picked_depth(ray, s.splat_means, s.orbit.distance);
    law_a_click_makes_the_picked_point_the_pivot(s, forward, world_ray, tan_half_fov, yaw, pitch);
    lemma_point_comes_back(ray.origin, ray.dir.scaled(depth));
}

/// Whether a number lies within the given rounding errors of another: that of taking
/// a step away, that of adding a step, and how far the two steps lie apart.
pub open spec fn steps_back(new: Scalar, old: Scalar, away: Scalar, back: Scalar) -> bool {
    within(
        new,
        old,
        errors::sum_error(old, away.negated()) + errors::sum_error(old.minus(away), back)
            + rounding::distance(back.value(), away.value()),
    )
}

/// Whether a point lies within the rounding errors of taking a step away and adding
/// another, along each axis.
pub open spec fn point_steps_back(new: Vec3, old: Vec3, away: Vec3, back: Vec3) -> bool {
    &&& steps_back(new.x, old.x, away.x, back.x)
    &&& steps_back(new.y, old.y, away.y, back.y)
    &&& steps_back(new.z, old.z, away.z, back.z)
}

/// Whether a viewer shows the view of another: nothing but the pivot and the angles
/// differ, the pivot lies within the rounding errors of the step from it to the camera
/// and of the step back along the same direction brought to length one, and the camera
/// stands where it stood within twice the latter.
pub open spec fn keeps_view(
    c: ViewerState,
    s: ViewerState,
    forward: Vec3,
    yaw: Scalar,
    pitch: Scalar,
) -> bool {
    let away = forward.scaled(s.orbit.distance);
    let back = forward.normalized().scaled(s.orbit.distance);
    let eye = s.orbit.eye(forward);
    &&& c == (ViewerState {
        orbit: OrbitCamera { center: c.orbit.center, yaw, pitch, ..s.orbit },
        ..s
    })
    &&& point_steps_back(c.orbit.center, s.orbit.center, away, back)
    &&& comes_back(c.orbit.eye(forward.normalized()), eye, back)
}

/// A click straight ahead, with no splat there, keeps the view.
pub proof fn law_a_click_straight_ahead_keeps_the_view(
    s: ViewerState,
    forward: Vec3,
    tan_half_fov: Scalar,
    yaw: Scalar,
    pitch: Scalar,
)
    requires
        s.wf(),
        ({
            let ray = click(s, forward, forward, tan_half_fov);
            forall|i: int|
                0 <= i < scene::center_count(s.splat_means) ==> !ray.ahead(
                    #[trigger] scene::center_at(s.splat_means, i),
                )
        }),
        points_sum_finitely(s.orbit.center, opposite(forward.scaled(s.orbit.distance))),
        points_sum_finitely(
            s.orbit.eye(forward),
            forward.normalized().scaled(s.orbit.distance),
        ),
    ensures
        keeps_view(
            clicked(s, forward, forward, tan_half_fov, yaw, pitch),
            s,
            forward,
            yaw,
            pitch,
        ),
{
    let ray = click(s, forward, forward, tan_half_fov);
    pick::law_click_lands_on_the_front_most(ray, s.splat_means, s.orbit.distance);
    law_a_click_makes_the_picked_point_the_pivot(s, forward, forward, tan_half_fov, yaw, pitch);
    law_a_click_keeps_the_eye(s, forward, forward, tan_half_fov, yaw, pitch);
}

/// A half, one and two, in units.
proof fn lemma_small_values()
    ensures
        2 * (Scalar { bits: HALF }).value() == pow2(149),
        (Scalar { bits: ONE }).value() == pow2(149),
        (Scalar { bits: TWO }).value() == 2 * pow2(149),
{
    magnitude::lemma_unit_powers();
    magnitude::lemma_half_units(ONE as int);
    magnitude::lemma_half_units(TWO as int);
}

/// The number of so many pixels is finite and at least one.
pub proof fn lemma_pixel_count(n: u32)
    requires
        n >= 1,
    ensures
        ({
            let w = Scalar::from_u32(n);
            w.finite() && !w.negative() && w.magnitude() >= ONE
        }),
{
    reveal(Scalar::spec_from_u32);
    let unit = pow2(149) as int;
    let top = 0x4f80_0000int;
    lemma_pow2_pos(149);
    magnitude::lemma_unit_powers();
    magnitude::law_rounding_keeps_numbers(ONE as int);
    magnitude::law_rounding_keeps_numbers(top);
    assert(magnitude::units(top) == 0x1_0000_0000 * unit) by {
        reveal(magnitude::units);
        lemma2_to64();
        lemma_pow2_adds(32, 149);
        lemma_pow2_adds(23, 158);
        assert(magnitude::significand(top) == 0x80_0000 && magnitude::exponent(top) == 158);
    }
    assert(unit <= n * unit && n * unit <= 0x1_0000_0000 * unit) by (nonlinear_arith)
        requires
            1 <= n <= 0xffff_ffff,
            unit > 0,
    ;
    rounding::law_rounding_keeps_order(unit, 1, n * unit, 1);
    rounding::law_rounding_keeps_order(n * unit, 1, 0x1_0000_0000 * unit, 1);
}

/// Half of a number is a half when divided by it.
proof fn lemma_half_over_whole(a: Scalar, w: Scalar)
    requires
        a.finite(),
        w.finite(),
        !a.negative(),
        !w.negative(),
        w.value() > 0,
        2 * a.value() == w.value(),
    ensures
        a.over(w) == (Scalar { bits: HALF }),
{
    reveal(Scalar::spec_over);
    let unit = pow2(149) as int;
    let half = (Scalar { bits: HALF }).value();
    lemma_small_values();
    lemma_pow2_pos(149);
    magnitude::lemma_units_sign(a.magnitude());
    magnitude::lemma_units_sign(w.magnitude());
    magnitude::law_rounding_keeps_numbers(HALF as int);
    assert((a.value() * unit) * 1 == half * w.value() && a.value() * unit >= 0) by (nonlinear_arith)
        requires
            2 * half == unit,
            2 * a.value() == w.value(),
            unit > 0,
            a.value() >= 0,
    ;
    rounding::lemma_rounded_of_equal(a.value() * unit, w.value(), half, 1);
}

/// One over one is one, and so are one times one, the root of one and twice a half.
proof fn lemma_ones()
    ensures
        ({
            let one = Scalar { bits: ONE };
            &&& one.over(one) == one
            &&& one.times(one) == one
            &&& one.root() == one
            &&& (Scalar { bits: HALF }).times(Scalar { bits: TWO }) == one
            &&& one.minus(one) == (Scalar { bits: ZERO })
        }),
{
    reveal(Scalar::spec_over);
    reveal(Scalar::spec_times);
    reveal(Scalar::spec_root);
    reveal(Scalar::spec_plus);
    let unit = pow2(149) as int;
    let half = (Scalar { bits: HALF }).value();
    lemma_small_values();
    lemma_pow2_pos(149);
    magnitude::law_rounding_keeps_numbers(ONE as int);
    assert(unit * unit * 1 == unit * unit && unit * unit >= 0) by (nonlinear_arith);
    rounding::lemma_rounded_of_equal(unit * unit, unit, unit, 1);
    rounding::lemma_root_of_square(unit);
    assert((half * (2 * unit)) * 1 == unit * unit) by (nonlinear_arith)
        requires
            2 * half == unit,
    ;
    rounding::lemma_rounded_of_equal(half * (2 * unit), unit, unit, 1);
}

/// Nothing times a number is nothing, whatever the signs, and nothing added to nothing.
proof fn lemma_nothing(a: Scalar, b: Scalar)
    requires
        a.zero(),
        b.finite(),
    ensures
        a.times(b).zero(),
        b.times(a).zero(),
        b.zero() ==> a.plus(b).zero(),
        b == (Scalar { bits: ONE }) ==> a.plus(b) == b,
{
    reveal(Scalar::spec_times);
    reveal(Scalar::spec_plus);
    lemma_pow2_pos(149);
    lemma_small_values();
    magnitude::lemma_units_sign(0);
    magnitude::law_rounding_keeps_numbers(ONE as int);
    rounding::lemma_rounded_zero(pow2(149) as int);
    let u = magnitude::units(b.magnitude());
    assert(0 * u == 0 && u * 0 == 0) by (nonlinear_arith);
}

/// Whether a camera-space direction is straight ahead: nothing to the right, nothing
/// down, and one forward.
pub open spec fn straight_ahead(p: Vec3) -> bool {
    p.x.zero() && p.y.zero() && p.z == (Scalar { bits: ONE })
}

proof fn lemma_straight(p: Vec3)
    requires
        straight_ahead(p),
    ensures
        straight_ahead(p.normalized()),
{
    lemma_ones();
    lemma_nothing(p.x, p.x);
    lemma_nothing(p.y, p.y);
    lemma_nothing(p.x.times(p.x), p.y.times(p.y));
    lemma_nothing(p.x.times(p.x).plus(p.y.times(p.y)), p.z);
    lemma_nothing(p.x, p.z);
    lemma_nothing(p.y, p.z);
}

/// Whether a pixel coordinate is the exact middle of so many pixels: half of them,
/// less a half.
pub open spec fn is_middle(pixel: Scalar, size: u32) -> bool {
    let w = Scalar::from_u32(orbit::at_least_one(size));
    pixel.finite() && 2 * pixel.value() + pow2(149) == w.value()
}

proof fn lemma_middle_coordinate(pixel: Scalar, size: u32)
    requires
        is_middle(pixel, size),
    ensures
        pick::device_coordinate(pixel, Scalar::from_u32(orbit::at_least_one(size))) == (Scalar {
            bits: ZERO,
        }),
{
    let w = Scalar::from_u32(orbit::at_least_one(size));
    let half = Scalar { bits: HALF };
    let middle = Scalar { bits: (w.bits - 0x80_0000) as u32 };
    lemma_small_values();
    lemma_pixel_count(orbit::at_least_one(size));
    magnitude::lemma_half_units(w.magnitude());
    magnitude::lemma_units_sign(w.magnitude());
    magnitude::lemma_units_sign(middle.magnitude());
    scalar::lemma_plus_value(pixel, half);
    scalar::lemma_nearest_value_exact(middle);
    let sum = pixel.plus(half);
    scalar::law_order_is_that_of_the_values(sum, middle);
    lemma_half_over_whole(sum, w);
    lemma_ones();
}

/// The ray through the exact middle of the surface goes straight ahead.
pub proof fn law_the_middle_is_straight_ahead(
    px: Scalar,
    py: Scalar,
    width: u32,
    height: u32,
    tan_half_fov: Scalar,
)
    requires
        is_middle(px, width),
        is_middle(py, height),
        tan_half_fov.finite(),
        ({
            let w = Scalar::from_u32(orbit::at_least_one(width));
            let h = Scalar::from_u32(orbit::at_least_one(height));
            w.over(h).times(tan_half_fov).finite()
        }),
    ensures
        straight_ahead(pick::ray_through(px, py, width, height, tan_half_fov)),
{
    let w = Scalar::from_u32(orbit::at_least_one(width));
    let h = Scalar::from_u32(orbit::at_least_one(height));
    let zero = Scalar { bits: ZERO };
    lemma_middle_coordinate(px, width);
    lemma_middle_coordinate(py, height);
    lemma_nothing(zero, w.over(h).times(tan_half_fov));
    lemma_nothing(zero, tan_half_fov);
    lemma_straight(
        Vec3 {
            x: zero.times(w.over(h).times(tan_half_fov)),
            y: zero.times(tan_half_fov),
            z: Scalar { bits: ONE },
        },
    );
}

/// A click on the exact middle of the surface, with no splat ahead, keeps the view as
/// a click straight ahead does, since the camera turns straight ahead into the way it
/// looks.
pub proof fn law_a_click_on_the_middle_keeps_the_view(
    s: ViewerState,
    px: Scalar,
    py: Scalar,
    forward: Vec3,
    world_ray: Vec3,
    tan_half_fov: Scalar,
    yaw: Scalar,
    pitch: Scalar,
)
    requires
        s.wf(),
        is_middle(px, s.width),
        is_middle(py, s.height),
        tan_half_fov.finite(),
        Scalar::from_u32(s.width).over(Scalar::from_u32(s.height)).times(tan_half_fov).finite(),
        straight_ahead(pick::ray_through(px, py, s.width, s.height, tan_half_fov)) ==> world_ray
            == forward,
        ({
            let ray = click(s, forward, world_ray, tan_half_fov);
            forall|i: int|
                0 <= i < scene::center_count(s.splat_means) ==> !ray.ahead(
                    #[trigger] scene::center_at(s.splat_means, i),
                )
        }),
        points_sum_finitely(s.orbit.center, opposite(forward.scaled(s.orbit.distance))),
        points_sum_finitely(
            s.orbit.eye(forward),
            forward.normalized().scaled(s.orbit.distance),
        ),
    ensures
        keeps_view(
            clicked(s, forward, world_ray, tan_half_fov, yaw, pitch),
            s,
            forward,
            yaw,
            pitch,
        ),
{
    law_the_middle_is_straight_ahead(px, py, s.width, s.height, tan_half_fov);
    law_a_click_straight_ahead_keeps_the_view(s, forward, tan_half_fov, yaw, pitch);
}

} // verus!
