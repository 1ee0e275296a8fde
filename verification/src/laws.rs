//! What holds of a viewer whatever is done with it.
use vstd::prelude::*;
use vstd::arithmetic::power2::*;
use crate::magnitude;
use crate::orbit;
use crate::orbit::{Basis, OrbitCamera};
use crate::pick::Pick;
use crate::scalar;
use crate::scalar::{ONE, Scalar, ZERO};
use crate::scene;
use crate::state;
use crate::state::{SplatSource, ViewerState};
use crate::vector::Vec3;
use crate::viewer;

verus! {

/// One operation on a viewer, with what it is given.
pub enum Operation {
    SetSize(u32, u32),
    SetFov(Scalar),
    Orbit(Scalar, Scalar),
    Pan(Scalar, Scalar, Basis, Scalar),
    RecenterAt(Pick, Scalar, Scalar),
    Zoom(Scalar),
    ResetView,
    SetBackground(Vec3),
    SetMip(bool),
    Crop(Vec3, Vec3, Option<u32>),
    ClearCrop,
    SetSplatScale(Scalar),
}

impl ViewerState {
    /// The state after one operation.
    pub open spec fn then_do(self, op: Operation) -> ViewerState {
        match op {
            Operation::SetSize(w, h) => self.sized(w, h),
            Operation::SetFov(degrees) => self.with_fov(degrees),
            Operation::Orbit(dx, dy) => self.orbited(dx, dy),
            Operation::Pan(dx, dy, basis, tan) => self.panned(dx, dy, basis, tan),
            Operation::RecenterAt(pick, yaw, pitch) => self.recentered(pick, yaw, pitch),
            Operation::Zoom(delta) => self.zoomed(delta),
            Operation::ResetView => self.at_home(),
            Operation::SetBackground(color) => self.with_background(color),
            Operation::SetMip(on) => self.with_mip(on),
            Operation::Crop(from, to, latest) => self.cropped_to(from, to, latest),
            Operation::ClearCrop => self.uncropped(),
            Operation::SetSplatScale(scale) => self.with_splat_scale(scale),
        }
    }

    /// The state after a sequence of operations.
    pub open spec fn after(self, ops: Seq<Operation>) -> ViewerState
        decreases ops.len(),
    {
        if ops.len() == 0 {
            self
        } else {
            self.after(ops.drop_last()).then_do(ops.last())
        }
    }
}

/// Every operation keeps a viewer valid: its surface is at least one pixel each
/// way, its camera keeps its distance, a splat scale that is set is not zero or
/// less, and an active crop shows exactly the splats in its box or nothing.
pub proof fn law_operations_keep_viewers_valid(s: ViewerState, op: Operation)
    requires
        s.wf(),
    ensures
        s.then_do(op).wf(),
{
}

/// No operation touches the scene or the home view.
pub proof fn law_operations_keep_the_scene(s: ViewerState, op: Operation)
    ensures
        s.then_do(op).splat_means == s.splat_means,
        s.then_do(op).scene_min == s.scene_min,
        s.then_do(op).scene_max == s.scene_max,
        s.then_do(op).home_center == s.home_center,
        s.then_do(op).home_distance == s.home_distance,
{
}

/// Orbiting changes nothing but the angles, panning nothing but the pivot, and
/// zooming nothing but the distance.
pub proof fn law_each_move_has_its_own_part(
    s: ViewerState,
    x: Scalar,
    y: Scalar,
    basis: Basis,
    tan_half_fov: Scalar,
)
    ensures
        ({
            let o = s.orbited(x, y);
            o == (ViewerState {
                orbit: OrbitCamera { yaw: o.orbit.yaw, pitch: o.orbit.pitch, ..s.orbit },
                ..s
            })
        }),
        ({
            let o = s.panned(x, y, basis, tan_half_fov);
            o == (ViewerState { orbit: OrbitCamera { center: o.orbit.center, ..s.orbit }, ..s })
        }),
        ({
            let o = s.zoomed(x);
            o == (ViewerState { orbit: OrbitCamera { distance: o.orbit.distance, ..s.orbit }, ..s })
        }),
{
}

proof fn lemma_after(s: ViewerState, ops: Seq<Operation>)
    requires
        s.wf(),
    ensures
        s.after(ops).wf(),
        s.after(ops).splat_means == s.splat_means,
        s.after(ops).home_center == s.home_center,
        s.after(ops).home_distance == s.home_distance,
    decreases ops.len(),
{
    if ops.len() > 0 {
        lemma_after(s, ops.drop_last());
        law_operations_keep_viewers_valid(s.after(ops.drop_last()), ops.last());
        law_operations_keep_the_scene(s.after(ops.drop_last()), ops.last());
    }
}

/// A freshly created viewer is valid, and so it stays.
pub proof fn law_viewers_stay_valid(
    latest: Option<u32>,
    means: Option<Seq<Scalar>>,
    ops: Seq<Operation>,
)
    ensures
        ViewerState::created(latest, means).after(ops).wf(),
{
    lemma_after(ViewerState::created(latest, means), ops);
}

/// Whatever was done since a viewer was created, resetting the view brings back
/// the pivot, the distance and the angles that it was created with.
pub proof fn law_reset_restores_the_first_view(
    latest: Option<u32>,
    means: Option<Seq<Scalar>>,
    ops: Seq<Operation>,
)
    ensures
        ({
            let first = ViewerState::created(latest, means);
            let now = first.after(ops);
            now.at_home().orbit == (OrbitCamera { fov_y: now.orbit.fov_y, ..first.orbit })
        }),
{
    lemma_after(ViewerState::created(latest, means), ops);
}

/// Resetting the view twice is the same as once.
pub proof fn law_reset_is_idempotent(s: ViewerState)
    ensures
        s.at_home().at_home() == s.at_home(),
{
}

/// Clearing the crop shows the full scene again, and undoes what any crop did.
pub proof fn law_clearing_the_crop_shows_everything(
    s: ViewerState,
    from: Vec3,
    to: Vec3,
    latest: Option<u32>,
    now: Option<u32>,
)
    ensures
        s.uncropped().shown(now) == if now is Some {
            Some(SplatSource::Full)
        } else {
            None
        },
        s.crop is None && s.cropped is None ==> s.cropped_to(from, to, latest).uncropped() == s,
        s.cropped_to(from, to, latest).uncropped() == s.uncropped(),
{
}

/// Under a crop that was set while there were splats, there is something to show
/// exactly where the box holds a splat, and it is the splats in the box.
pub proof fn law_a_crop_shows_what_is_inside(
    s: ViewerState,
    from: Vec3,
    to: Vec3,
    latest: Option<u32>,
    now: Option<u32>,
)
    requires
        latest is Some,
    ensures
        ({
            let c = s.cropped_to(from, to, latest);
            let lo = state::at_fraction(s.scene_min, s.scene_max, from);
            let hi = state::at_fraction(s.scene_min, s.scene_max, to);
            let rows = scene::kept_rows(s.splat_means, lo, hi);
            &&& c.shown(now) == if rows.len() > 0 {
                Some(SplatSource::Cropped)
            } else {
                None
            }
            &&& rows.len() > 0 ==> c.cropped == Some(rows)
        }),
{
}

/// Whether an operation does not come across splats.
pub open spec fn without_splats(op: Operation) -> bool {
    op matches Operation::Crop(_, _, latest) ==> latest is None
}

/// Until splats have been loaded, there is nothing to show or to export, whatever
/// is done with a viewer.
pub proof fn law_nothing_is_shown_before_splats(
    means: Option<Seq<Scalar>>,
    ops: Seq<Operation>,
)
    requires
        forall|i: int| 0 <= i < ops.len() ==> without_splats(#[trigger] ops[i]),
    ensures
        ViewerState::created(None, means).after(ops).cropped is None,
        ViewerState::created(None, means).after(ops).shown(None) is None,
    decreases ops.len(),
{
    if ops.len() > 0 {
        law_nothing_is_shown_before_splats(means, ops.drop_last());
        assert(without_splats(ops[ops.len() - 1]));
    }
}

/// Zero and minus zero go back to the default splat scale, as does anything less;
/// any other scale is kept as it is.
pub proof fn law_splat_scale_of_zero_is_the_default(s: ViewerState, scale: Scalar)
    ensures
        scale.zero() || scale.negative() && !scale.nan() ==> s.with_splat_scale(scale).splat_scale
            is None,
        !scale.zero() && !scale.negative() ==> s.with_splat_scale(scale).splat_scale == Some(scale),
{
}

/// Where the exact product of two positive numbers is at most the first, so is
/// the rounded one.
proof fn lemma_shrink(d: Scalar, kept: Scalar)
    requires
        d.finite(),
        kept.finite(),
        d.value() >= 0,
        kept.value() <= pow2(149),
    ensures
        !d.times(kept).nan(),
        d.times(kept).value() <= d.value(),
{
    let unit = pow2(149) as int;
    lemma_pow2_pos(149);
    scalar::lemma_times_value(d, kept);
    scalar::lemma_nearest_value_exact(d);
    let p = d.value() * kept.value();
    assert(p * 1 <= d.value() * unit) by (nonlinear_arith)
        requires
            p == d.value() * kept.value(),
            d.value() >= 0,
            kept.value() <= unit,
    ;
    scalar::lemma_nearest_value_ordered(p, unit, d.value(), 1);
}

proof fn lemma_grow(d: Scalar, kept: Scalar)
    requires
        d.finite(),
        kept.finite(),
        d.value() >= 0,
        kept.value() >= pow2(149),
    ensures
        !d.times(kept).nan(),
        d.times(kept).value() >= d.value(),
{
    let unit = pow2(149) as int;
    lemma_pow2_pos(149);
    scalar::lemma_times_value(d, kept);
    scalar::lemma_nearest_value_exact(d);
    let p = d.value() * kept.value();
    assert(d.value() * unit <= p * 1) by (nonlinear_arith)
        requires
            p == d.value() * kept.value(),
            d.value() >= 0,
            kept.value() >= unit,
    ;
    scalar::lemma_nearest_value_ordered(d.value(), 1, p, unit);
}

/// The part of the distance that a zoom step keeps: at most all of it for a
/// positive step, at least all of it for a negative one.
proof fn lemma_kept_part(delta: Scalar)
    requires
        !delta.nan(),
    ensures
        ({
            let one = Scalar { bits: ONE };
            let kept = one.minus(delta.times(Scalar { bits: state::ZOOM_STEP }));
            &&& !kept.nan()
            &&& delta.value() >= 0 ==> kept.value() <= pow2(149)
            &&& delta.value() <= 0 ==> kept.value() >= pow2(149)
        }),
{
    let one = Scalar { bits: ONE };
    let tenth = Scalar { bits: state::ZOOM_STEP };
    let zero = Scalar { bits: ZERO };
    let unit = pow2(149) as int;
    let step = delta.times(tenth);
    let back = step.negated();
    lemma_pow2_pos(149);
    magnitude::lemma_unit_powers();
    magnitude::lemma_units_sign(0);
    magnitude::lemma_units_sign(delta.magnitude());
    magnitude::lemma_units_sign(tenth.magnitude());
    scalar::lemma_nearest_value_exact(zero);
    scalar::lemma_nearest_value_exact(one);
    if delta.finite() {
        scalar::lemma_times_value(delta, tenth);
        let p = delta.value() * tenth.value();
        assert((delta.value() >= 0 ==> p >= 0) && (delta.value() <= 0 ==> p <= 0))
            by (nonlinear_arith)
            requires
                tenth.value() >= 0,
                p == delta.value() * tenth.value(),
        ;
        if delta.value() >= 0 {
            scalar::lemma_nearest_value_ordered(0, 1, p, unit);
        }
        if delta.value() <= 0 {
            scalar::lemma_nearest_value_ordered(p, unit, 0, 1);
        }
    } else {
        reveal(Scalar::spec_times);
    }
    assert(!step.nan());
    magnitude::lemma_units_sign(step.magnitude());
    assert(back.value() == -step.value());
    if step.finite() {
        scalar::lemma_plus_value(one, back);
        if delta.value() >= 0 {
            scalar::lemma_nearest_value_ordered(one.value() + back.value(), 1, one.value(), 1);
        }
        if delta.value() <= 0 {
            scalar::lemma_nearest_value_ordered(one.value(), 1, one.value() + back.value(), 1);
        }
    } else {
        reveal(Scalar::spec_plus);
        magnitude::lemma_units_increase(ONE as int, crate::rounding::INFINITE as int);
    }
}

/// A positive step never moves the camera away from the pivot, and a negative one
/// never brings it closer.
pub proof fn law_positive_steps_zoom_in(s: ViewerState, delta: Scalar)
    requires
        s.wf(),
        !delta.nan(),
    ensures
        (Scalar { bits: ZERO }).le(delta) ==> s.zoomed(delta).orbit.distance.le(s.orbit.distance),
        delta.le(Scalar { bits: ZERO }) ==> s.orbit.distance.le(s.zoomed(delta).orbit.distance),
{
    let d = s.orbit.distance;
    let one = Scalar { bits: ONE };
    let kept = one.minus(delta.times(Scalar { bits: state::ZOOM_STEP }));
    let closest = Scalar { bits: orbit::CLOSEST };
    scalar::lemma_orders();
    magnitude::lemma_units_sign(0);
    magnitude::lemma_units_sign(closest.magnitude());
    magnitude::lemma_units_sign(d.magnitude());
    lemma_kept_part(delta);
    magnitude::lemma_units_sign(kept.magnitude());
    lemma_pow2_pos(149);
    if d.finite() && kept.finite() {
        if delta.value() >= 0 {
            lemma_shrink(d, kept);
        }
        if delta.value() <= 0 {
            lemma_grow(d, kept);
        }
    } else {
        reveal(Scalar::spec_times);
        magnitude::lemma_unit_powers();
        magnitude::lemma_units_increase(ONE as int, crate::rounding::INFINITE as int);
        if d.finite() {
            magnitude::lemma_units_increase(d.magnitude(), crate::rounding::INFINITE as int);
        }
        if kept.finite() {
            magnitude::lemma_units_increase(kept.magnitude(), crate::rounding::INFINITE as int);
        }
    }
}

proof fn lemma_times_one(a: Scalar)
    requires
        a.finite(),
    ensures
        !(Scalar { bits: ONE }).times(a).nan(),
        (Scalar { bits: ONE }).times(a).value() == a.value(),
{
    let one = Scalar { bits: ONE };
    let unit = pow2(149) as int;
    lemma_pow2_pos(149);
    magnitude::lemma_unit_powers();
    scalar::lemma_times_value(one, a);
    scalar::lemma_nearest_value_exact(a);
    let p = one.value() * a.value();
    assert(p * 1 == a.value() * unit) by (nonlinear_arith)
        requires
            p == unit * a.value(),
    ;
    scalar::lemma_nearest_value_ordered(p, unit, a.value(), 1);
    scalar::lemma_nearest_value_ordered(a.value(), 1, p, unit);
}

proof fn lemma_times_zero(a: Scalar)
    requires
        a.finite(),
    ensures
        (Scalar { bits: ZERO }).times(a).finite(),
        (Scalar { bits: ZERO }).times(a).value() == 0,
{
    let zero = Scalar { bits: ZERO };
    lemma_pow2_pos(149);
    magnitude::lemma_units_sign(0);
    scalar::lemma_times_value(zero, a);
    assert(0 * a.value() == 0);
    crate::rounding::lemma_rounded_zero(pow2(149) as int);
    magnitude::lemma_units_sign(zero.times(a).magnitude());
}

/// A dot product with one axis takes that component alone.
proof fn lemma_one_component(a: Scalar, b: Scalar, c: Scalar)
    requires
        a.finite(),
        b.finite(),
        c.finite(),
    ensures
        ({
            let one = Scalar { bits: ONE };
            let zero = Scalar { bits: ZERO };
            let p = Vec3 { x: a, y: b, z: c };
            let x = (Vec3 { x: one, y: zero, z: zero }).dot(p);
            let y = (Vec3 { x: zero, y: one, z: zero }).dot(p);
            let z = (Vec3 { x: zero, y: zero, z: one }).dot(p);
            &&& !x.nan() && x.value() == a.value()
            &&& !y.nan() && y.value() == b.value()
            &&& !z.nan() && z.value() == c.value()
        }),
{
    let one = Scalar { bits: ONE };
    let zero = Scalar { bits: ZERO };
    lemma_times_one(a);
    lemma_times_one(b);
    lemma_times_one(c);
    lemma_times_zero(a);
    lemma_times_zero(b);
    lemma_times_zero(c);
    lemma_finite_value(one.times(a), a);
    lemma_finite_value(one.times(b), b);
    lemma_finite_value(one.times(c), c);
    lemma_sum_with_nothing(one.times(a), zero.times(b), a);
    lemma_sum_with_nothing(one.times(a).plus(zero.times(b)), zero.times(c), a);
    scalar::law_plus_commutes(zero.times(a), one.times(b));
    lemma_sum_with_nothing(one.times(b), zero.times(a), b);
    lemma_sum_with_nothing(zero.times(a).plus(one.times(b)), zero.times(c), b);
    magnitude::lemma_units_sign(0);
    lemma_sum_with_nothing(zero.times(a), zero.times(b), zero);
    scalar::law_plus_commutes(zero.times(a).plus(zero.times(b)), one.times(c));
    lemma_sum_with_nothing(one.times(c), zero.times(a).plus(zero.times(b)), c);
}

proof fn lemma_sum_with_nothing(a: Scalar, nothing: Scalar, b: Scalar)
    requires
        a.finite(),
        b.finite(),
        a.value() == b.value(),
        nothing.finite(),
        nothing.value() == 0,
    ensures
        a.plus(nothing).finite(),
        a.plus(nothing).value() == b.value(),
{
    scalar::lemma_plus_value(a, nothing);
    scalar::lemma_nearest_value_exact(a);
    lemma_finite_value(a.plus(nothing), a);
}

/// Whether a direction has finite components only.
pub open spec fn finite_direction(p: Vec3) -> bool {
    p.x.finite() && p.y.finite() && p.z.finite()
}

/// The directions of the world axes that a viewer gives are, axis by axis, the
/// components of the camera's right, up and forward.
pub proof fn law_axes_are_the_components(basis: Basis)
    requires
        finite_direction(basis.right),
        finite_direction(basis.up),
        finite_direction(basis.forward),
    ensures
        ({
            let axes = viewer::axes_of(basis);
            &&& axes.len() == 9
            &&& forall|i: int| 0 <= i < 9 ==> !(#[trigger] axes[i]).nan()
            &&& axes[0].value() == basis.right.x.value()
            &&& axes[1].value() == basis.up.x.value()
            &&& axes[2].value() == basis.forward.x.value()
            &&& axes[3].value() == basis.right.y.value()
            &&& axes[4].value() == basis.up.y.value()
            &&& axes[5].value() == basis.forward.y.value()
            &&& axes[6].value() == basis.right.z.value()
            &&& axes[7].value() == basis.up.z.value()
            &&& axes[8].value() == basis.forward.z.value()
        }),
{
    lemma_one_component(basis.right.x, basis.right.y, basis.right.z);
    lemma_one_component(basis.up.x, basis.up.y, basis.up.z);
    lemma_one_component(basis.forward.x, basis.forward.y, basis.forward.z);
}

/// A number within the finite ones is finite.
proof fn lemma_finite_value(a: Scalar, b: Scalar)
    requires
        !a.nan(),
        b.finite(),
        a.value() == b.value(),
    ensures
        a.finite(),
{
    scalar::law_order_is_that_of_the_values(a, b);
}

/// The bound of a crop along one axis.
pub open spec fn axis_fraction(lo: Scalar, hi: Scalar, fraction: Scalar) -> Scalar {
    lo.plus(fraction.times(hi.minus(lo)))
}

/// The fraction zero is the lower bound of the scene along an axis whose extent
/// does not overflow.
pub proof fn law_fraction_zero_is_the_lower_bound(lo: Scalar, hi: Scalar)
    requires
        lo.finite(),
        hi.minus(lo).finite(),
    ensures
        !axis_fraction(lo, hi, Scalar { bits: ZERO }).nan(),
        axis_fraction(lo, hi, Scalar { bits: ZERO }).value() == lo.value(),
{
    let none = (Scalar { bits: ZERO }).times(hi.minus(lo));
    lemma_times_zero(hi.minus(lo));
    scalar::lemma_plus_value(lo, none);
    scalar::lemma_nearest_value_exact(lo);
}

/// The fraction one is the lower bound plus the extent.
pub proof fn law_fraction_one_is_the_whole_extent(lo: Scalar, hi: Scalar)
    requires
        lo.finite(),
        hi.minus(lo).finite(),
    ensures
        !axis_fraction(lo, hi, Scalar { bits: ONE }).nan(),
        axis_fraction(lo, hi, Scalar { bits: ONE }).value() == lo.plus(hi.minus(lo)).value(),
{
    let size = hi.minus(lo);
    let whole = (Scalar { bits: ONE }).times(size);
    lemma_times_one(size);
    lemma_finite_value(whole, size);
    scalar::lemma_plus_value(lo, whole);
    scalar::lemma_plus_value(lo, size);
}

/// A sum with a fixed finite number keeps the order, past the finite numbers too.
proof fn lemma_plus_ordered(a: Scalar, b: Scalar, c: Scalar)
    requires
        a.finite(),
        b.le(c),
    ensures
        a.plus(b).le(a.plus(c)),
{
    scalar::lemma_orders();
    if b.finite() {
        scalar::lemma_plus_value(a, b);
    }
    if c.finite() {
        scalar::lemma_plus_value(a, c);
    }
    if b.finite() && c.finite() {
        scalar::lemma_nearest_value_ordered(a.value() + b.value(), 1, a.value() + c.value(), 1);
    } else {
        reveal(Scalar::spec_plus);
    }
}

/// A greater fraction never reaches less far along an axis whose extent does not
/// overflow.
pub proof fn law_greater_fractions_reach_further(lo: Scalar, hi: Scalar, f: Scalar, g: Scalar)
    requires
        lo.finite(),
        hi.minus(lo).finite(),
        hi.minus(lo).value() >= 0,
        f.finite(),
        g.finite(),
        f.le(g),
    ensures
        axis_fraction(lo, hi, f).le(axis_fraction(lo, hi, g)),
{
    let size = hi.minus(lo);
    let unit = pow2(149) as int;
    scalar::lemma_orders();
    lemma_pow2_pos(149);
    scalar::lemma_times_value(f, size);
    scalar::lemma_times_value(g, size);
    let (a, b) = (f.value() * size.value(), g.value() * size.value());
    assert(a * unit <= b * unit) by (nonlinear_arith)
        requires
            f.value() <= g.value(),
            size.value() >= 0,
            unit > 0,
            a == f.value() * size.value(),
            b == g.value() * size.value(),
    ;
    scalar::lemma_nearest_value_ordered(a, unit, b, unit);
    lemma_plus_ordered(lo, f.times(size), g.times(size));
}

/// Whether an axis of the scene is spanned by the fractions from zero to one: its
/// extent does not overflow and, added back to the lower bound, reaches the upper.
pub open spec fn spanned(lo: Scalar, hi: Scalar) -> bool {
    &&& lo.finite()
    &&& hi.minus(lo).finite()
    &&& hi.le(lo.plus(hi.minus(lo)))
}

/// Cropping from fraction zero to fraction one along each axis keeps every splat,
/// where those fractions span the scene.
pub proof fn law_whole_fractions_keep_every_splat(s: ViewerState, latest: Option<u32>)
    requires
        s.wf(),
        latest is Some,
        0 < scene::center_count(s.splat_means) <= 0x8000_0000,
        forall|i: int| 0 <= i < s.splat_means.len() ==> !(#[trigger] s.splat_means[i]).nan(),
        spanned(s.scene_min.x, s.scene_max.x),
        spanned(s.scene_min.y, s.scene_max.y),
        spanned(s.scene_min.z, s.scene_max.z),
    ensures
        ({
            let zero = Vec3::splat(Scalar { bits: ZERO });
            let one = Vec3::splat(Scalar { bits: ONE });
            let c = s.cropped_to(zero, one, latest);
            &&& c.cropped is Some
            &&& forall|i: int|
                0 <= i < scene::center_count(s.splat_means) ==> #[trigger] c.cropped->0.contains(
                    i as i32,
                )
        }),
{
    let means = s.splat_means;
    let (a, b) = (s.scene_min, s.scene_max);
    let zero = Vec3::splat(Scalar { bits: ZERO });
    let one = Vec3::splat(Scalar { bits: ONE });
    let lo = state::at_fraction(a, b, zero);
    let hi = state::at_fraction(a, b, one);
    let c = s.cropped_to(zero, one, latest);
    law_fraction_zero_is_the_lower_bound(a.x, b.x);
    law_fraction_zero_is_the_lower_bound(a.y, b.y);
    law_fraction_zero_is_the_lower_bound(a.z, b.z);
    law_fraction_one_is_the_whole_extent(a.x, b.x);
    law_fraction_one_is_the_whole_extent(a.y, b.y);
    law_fraction_one_is_the_whole_extent(a.z, b.z);
    scene::law_bounds_hold_every_splat(means);
    scene::law_crop_keeps_exactly_the_inside(means, lo, hi);
    let rows = scene::kept_rows(means, lo, hi);
    scalar::lemma_orders();
    assert forall|i: int| 0 <= i < scene::center_count(means) implies #[trigger] rows.contains(
        i as i32,
    ) by {
        let p = scene::center_at(means, i);
        assert(scene::inside(p, a, b));
        assert(scene::inside(p, lo, hi));
    }
    assert(rows.contains(0int as i32));
    assert(rows.len() > 0);
}

} // verus!
