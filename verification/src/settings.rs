//! What the operations make of a viewer, by their inputs and results.
use vstd::prelude::*;
use vstd::arithmetic::power2::*;
use crate::constants;
use crate::errors;
use crate::exact;
use crate::frame;
use crate::magnitude;
use crate::orbit;
use crate::orbit::{Camera, OrbitCamera};
use crate::pan;
use crate::pick::Pick;
use crate::rounding;
use crate::scalar;
use crate::scalar::{HALF, ONE, Scalar, ZERO};
use crate::scene;
use crate::state;
use crate::state::{SplatSource, ViewerState};
use crate::vector::Vec3;
use crate::viewer;
use crate::viewer::{BrushViewer, ExportOutcome, FramePlan, LoadAction, LoadEvent, LoadedScene};

verus! {

/// Orbiting turns the yaw by the one angle and the pitch by the other, each to the number
/// nearest to the sum, however small, and changes nothing else.
pub proof fn law_orbiting_turns_by_the_angles(s: ViewerState, dx: Scalar, dy: Scalar)
    ensures
        ({
            let o = s.orbited(dx, dy);
            &&& exact::is_sum(o.orbit.yaw, s.orbit.yaw, dx)
            &&& exact::is_sum(o.orbit.pitch, s.orbit.pitch, dy)
            &&& o == (ViewerState {
                orbit: OrbitCamera { yaw: o.orbit.yaw, pitch: o.orbit.pitch, ..s.orbit },
                ..s
            })
        }),
{
    exact::law_plus_is_the_sum(s.orbit.yaw, dx);
    exact::law_plus_is_the_sum(s.orbit.pitch, dy);
}

/// Whether a distance is another less so many tenths of it, within rounding.
pub open spec fn is_tenths_less(new: Scalar, old: Scalar, delta: Scalar) -> bool {
    let u = exact::unit();
    &&& new.finite()
    &&& 0x100_0000 * rounding::distance(
        10 * (u * new.value()),
        old.value() * (10 * u - delta.value()),
    ) <= errors::size(old.value()) * (41 * u + 15 * errors::size(delta.value())) + 0xa00_0000 * u
}

/// Whether the steps of a zoom stay finite.
pub open spec fn zooms_finitely(distance: Scalar, delta: Scalar) -> bool {
    let step = delta.times(Scalar { bits: 0x3dcc_cccd });
    let kept = (Scalar { bits: ONE }).minus(step);
    delta.finite() && distance.finite() && step.finite() && kept.finite() && distance.times(
        kept,
    ).finite()
}

/// Zooming takes a tenth of the distance away for each step, within rounding, down to one
/// hundredth and no further, and changes nothing else. A step that is no number goes to the
/// closest.
pub proof fn law_zooming_takes_tenths_away(s: ViewerState, delta: Scalar)
    ensures
        ({
            let o = s.zoomed(delta);
            let closest = Scalar { bits: 0x3c23_d70a };
            &&& o == (ViewerState {
                orbit: OrbitCamera { distance: o.orbit.distance, ..s.orbit },
                ..s
            })
            &&& constants::about(closest, 1, 100)
            &&& delta.nan() ==> o.orbit.distance == closest
            &&& closest.le(o.orbit.distance)
            &&& exists|step: Scalar, kept: Scalar, d: Scalar| #[trigger]
                exact::is_product(step, delta, Scalar { bits: 0x3dcc_cccd })
                    && #[trigger] exact::is_difference(kept, Scalar { bits: ONE }, step)
                    && #[trigger] exact::is_product(d, s.orbit.distance, kept) && o.orbit.distance
                    == if d.nan() || d.value() < closest.value() {
                    closest
                } else {
                    d
                }
            &&& zooms_finitely(s.orbit.distance, delta) ==> exists|d: Scalar| #[trigger]
                is_tenths_less(d, s.orbit.distance, delta) && o.orbit.distance.value()
                    == if d.value() > closest.value() {
                    d.value()
                } else {
                    closest.value()
                }
        }),
{
    let closest = Scalar { bits: 0x3c23_d70a };
    let tenth = Scalar { bits: 0x3dcc_cccd };
    let one = Scalar { bits: ONE };
    let step = delta.times(tenth);
    let kept = one.minus(step);
    let d = s.orbit.distance.times(kept);
    constants::law_limits();
    exact::law_at_least_is_the_greater(d, closest);
    scalar::lemma_orders();
    exact::law_times_is_the_product(delta, tenth);
    exact::law_minus_is_the_difference(one, step);
    exact::law_times_is_the_product(s.orbit.distance, kept);
    assert(exact::is_product(step, delta, tenth) && exact::is_difference(kept, one, step)
        && exact::is_product(d, s.orbit.distance, kept));
    if delta.nan() {
        reveal(Scalar::spec_times);
        reveal(Scalar::spec_plus);
    }
    if zooms_finitely(s.orbit.distance, delta) {
        lemma_tenths(s.orbit.distance, delta);
        assert(is_tenths_less(d, s.orbit.distance, delta));
    }
}

proof fn lemma_tenths(distance: Scalar, delta: Scalar)
    requires
        zooms_finitely(distance, delta),
    ensures
        is_tenths_less(
            distance.times(
                (Scalar { bits: ONE }).minus(delta.times(Scalar { bits: 0x3dcc_cccd })),
            ),
            distance,
            delta,
        ),
{
    let tenth = Scalar { bits: 0x3dcc_cccd };
    let one = Scalar { bits: ONE };
    let step = delta.times(tenth);
    let kept = one.minus(step);
    let new = distance.times(kept);
    let u = exact::unit();
    constants::law_steps();
    constants::law_plain_numbers();
    exact::law_negated_is_the_opposite(step);
    errors::law_products_are_close(delta, tenth);
    errors::law_sums_are_close(one, step.negated());
    errors::law_products_are_close(distance, kept);
    let (x, t, st, k, d, p) = (
        delta.value(),
        tenth.value(),
        step.value(),
        kept.value(),
        distance.value(),
        new.value(),
    );
    let sx = errors::size(x);
    // The step is a tenth of the delta.
    let a = 10 * st - x;
    let b = u * st - x * t;
    let g = 10 * t - u;
    assert(u * a == 10 * b + x * g) by (nonlinear_arith)
        requires
            a == 10 * st - x,
            b == u * st - x * t,
            g == 10 * t - u,
    ;
    pan::lemma_size_of_product(u, a);
    pan::lemma_size_of_product(x, g);
    pan::lemma_size_of_product(x, t);
    let (sa, sg) = (errors::size(a), errors::size(g));
    assert(0x100_0000 * (sx * sg) <= sx * u && 10 * (sx * t) <= 2 * (sx * u)) by (nonlinear_arith)
        requires
            0x200_0000 * sg <= u,
            10 * t <= 2 * u,
            sx >= 0,
            sg >= 0,
            u > 0,
    ;
    assert(0x100_0000 * (u * sa) <= 3 * (sx * u) + 0x500_0000 * u);
    assert(0x100_0000 * sa <= 3 * sx + 0x500_0000) by (nonlinear_arith)
        requires
            0x100_0000 * (u * sa) <= 3 * (sx * u) + 0x500_0000 * u,
            u > 0,
    ;
    // What is kept is one less that.
    let e = k - (u - st);
    let se = errors::size(e);
    let c = 10 * k - (10 * u - x);
    let sc = errors::size(c);
    assert(0x100_0000 * sc <= 11 * u + 5 * sx);
    // The new distance is the old one times that.
    let sd = errors::size(d);
    let q = u * p - d * k;
    assert(10 * (u * p) - d * (10 * u - x) == 10 * q + d * c) by (nonlinear_arith)
        requires
            q == u * p - d * k,
            c == 10 * k - (10 * u - x),
    ;
    pan::lemma_size_of_product(d, c);
    pan::lemma_size_of_product(d, k);
    let sk = errors::size(k);
    assert(sk <= 3 * u + sx);
    assert(0x100_0000 * (sd * sc) <= sd * (11 * u + 5 * sx) && 10 * (sd * sk) <= sd * (30 * u + 10
        * sx) && sd * (11 * u + 5 * sx) + sd * (30 * u + 10 * sx) == sd * (41 * u + 15 * sx))
        by (nonlinear_arith)
        requires
            0x100_0000 * sc <= 11 * u + 5 * sx,
            sk <= 3 * u + sx,
            sd >= 0,
    ;
}

/// The field of view is set to pi over 180 times the degrees, within rounding, and nothing else
/// changes. (Pi is taken as 3.1415927.)
pub proof fn law_the_field_of_view_is_set_in_degrees(s: ViewerState, degrees: Scalar)
    ensures
        ({
            let o = s.with_fov(degrees);
            let f = o.orbit.fov_y;
            &&& o == (ViewerState { orbit: OrbitCamera { fov_y: f, ..s.orbit }, ..s })
            &&& exact::is_product(f, degrees, Scalar { bits: 0x3c8e_fa35 })
            &&& degrees.finite() ==> f.finite() && 0x100_0000 * rounding::distance(
                1_800_000_000 * f.value(),
                31_415_927 * degrees.value(),
            ) <= 64_000_000 * errors::size(degrees.value()) + 0x80_0000 * 1_800_000_000
        }),
{
    let u = exact::unit();
    let ks = Scalar { bits: 0x3c8e_fa35 };
    let fs = degrees.times(ks);
    exact::law_times_is_the_product(degrees, ks);
    if degrees.finite() {
        constants::law_steps();
        constants::law_plain_numbers();
        lemma_pow2_pos(149);
        let (d, k) = (degrees.value(), ks.value());
        assert(0 <= k <= u);
        lemma_part_is_finite(degrees, ks);
        errors::law_products_are_close(degrees, ks);
        let f = fs.value();
        let a = u * f - d * k;
        let g = 1_800_000_000 * k - 31_415_927 * u;
        let e = 1_800_000_000 * f - 31_415_927 * d;
        assert(u * e == 1_800_000_000 * a + d * g) by (nonlinear_arith)
            requires
                a == u * f - d * k,
                g == 1_800_000_000 * k - 31_415_927 * u,
                e == 1_800_000_000 * f - 31_415_927 * d,
        ;
        let (sd, sg, se) = (errors::size(d), errors::size(g), errors::size(e));
        pan::lemma_size_of_product(u, e);
        pan::lemma_size_of_product(d, g);
        pan::lemma_size_of_product(d, k);
        assert(0x100_0000 * (sd * sg) <= 32_000_000 * (sd * u) && 1_800_000_000 * (sd * k)
            <= 31_415_930 * (sd * u)) by (nonlinear_arith)
            requires
                0x200_0000 * sg <= 64_000_000 * u,
                1_800_000_000 * k <= 31_415_930 * u,
                sd >= 0,
        ;
        assert(0x100_0000 * (u * se) <= 64_000_000 * (sd * u) + 0x80_0000 * 1_800_000_000 * u);
        assert(0x100_0000 * se <= 64_000_000 * sd + 0x80_0000 * 1_800_000_000) by (nonlinear_arith)
            requires
                0x100_0000 * (u * se) <= 64_000_000 * (sd * u) + 0x80_0000 * 1_800_000_000 * u,
                u > 0,
        ;
    }
}

/// A part of a finite number is finite.
proof fn lemma_part_is_finite(a: Scalar, part: Scalar)
    requires
        a.finite(),
        part.finite(),
        0 <= part.value() <= exact::unit(),
    ensures
        a.times(part).finite(),
{
    let u = exact::unit();
    let (v, k) = (a.value(), part.value());
    let m = a.times(part);
    lemma_pow2_pos(149);
    scalar::lemma_times_value(a, part);
    scalar::lemma_nearest_value_exact(a);
    scalar::lemma_nearest_value_exact(Scalar { bits: 0 });
    magnitude::lemma_units_sign(0);
    assert((v >= 0 ==> v * k <= v * u && 0 <= v * k) && (v <= 0 ==> v * u <= v * k && v * k <= 0) && 0
        * u == 0) by (nonlinear_arith)
        requires
            0 <= k <= u,
    ;
    if v >= 0 {
        scalar::lemma_nearest_value_ordered(v * k, u, v, 1);
        scalar::lemma_nearest_value_ordered(0, 1, v * k, u);
    } else {
        scalar::lemma_nearest_value_ordered(v, 1, v * k, u);
        scalar::lemma_nearest_value_ordered(v * k, u, 0, 1);
    }
    magnitude::lemma_units_sign(m.magnitude());
    magnitude::lemma_units_sign(a.magnitude());
    if m.infinite() {
        magnitude::lemma_units_increase(a.magnitude(), m.magnitude());
    }
}

/// Half the field of view is half of it, within rounding.
pub proof fn law_half_the_field_of_view(camera: OrbitCamera)
    ensures
        exact::is_product(camera.half_fov(), camera.fov_y, Scalar { bits: HALF }),
        2 * (Scalar { bits: HALF }).value() == exact::unit(),
{
    exact::law_times_is_the_product(camera.fov_y, Scalar { bits: HALF });
    constants::law_plain_numbers();
}

/// Whether a pitch is another moved between the steepest ones, 1.5607963 either way.
pub open spec fn is_limited_pitch(r: Scalar, pitch: Scalar) -> bool {
    exists|up: Scalar| #[trigger]
        constants::about(up, 15_607_963, 10_000_000) && {
            &&& pitch.nan() ==> r == pitch
            &&& !pitch.nan() && -up.value() <= pitch.value() <= up.value() ==> r == pitch
            &&& !pitch.nan() && pitch.value() > up.value() ==> r == up
            &&& !pitch.nan() && pitch.value() < -up.value() ==> r == up.negated()
        }
}

/// The pitch that the camera takes is its own, moved between the steepest ones.
pub proof fn law_the_pitch_is_limited(camera: OrbitCamera)
    ensures
        is_limited_pitch(camera.camera_pitch(), camera.pitch),
{
    let up = Scalar { bits: orbit::STEEPEST_PITCH };
    let down = Scalar { bits: orbit::STEEPEST_PITCH_DOWN };
    constants::law_limits();
    constants::law_plain_numbers();
    exact::law_clamped_is_in_the_range(camera.pitch, down, up);
    assert(constants::about(up, 15_607_963, 10_000_000));
}

/// Sizes, colors, anti-aliasing and splat scales are taken as they are given, but for a size
/// of no pixel, which becomes one, and a scale that is not above zero, which becomes the
/// default. Nothing else changes.
pub proof fn law_settings_are_taken_as_given(
    s: ViewerState,
    width: u32,
    height: u32,
    color: Vec3,
    mip: bool,
    scale: Scalar,
)
    ensures
        s.sized(width, height) == (ViewerState {
            width: if width == 0 { 1 } else { width },
            height: if height == 0 { 1 } else { height },
            ..s
        }),
        s.with_background(color) == (ViewerState { background: color, ..s }),
        s.with_mip(mip) == (ViewerState { mip, ..s }),
        !scale.nan() && scale.value() <= 0 ==> s.with_splat_scale(scale) == (ViewerState {
            splat_scale: None,
            ..s
        }),
        scale.nan() || scale.value() > 0 ==> s.with_splat_scale(scale) == (ViewerState {
            splat_scale: Some(scale),
            ..s
        }),
        s.uncropped() == (ViewerState { crop: None, cropped: None, ..s }),
{
    scalar::lemma_orders();
    constants::law_plain_numbers();
}

/// Resetting goes to the home pivot and distance, and to the home angles, 0.6 and 0.45. Nothing
/// else changes.
pub proof fn law_resetting_goes_home(s: ViewerState)
    ensures
        ({
            let o = s.at_home();
            &&& o.orbit.center == s.home_center
            &&& o.orbit.distance == s.home_distance
            &&& constants::about(o.orbit.yaw, 6, 10)
            &&& constants::about(o.orbit.pitch, 45, 100)
            &&& o.orbit.fov_y == s.orbit.fov_y
            &&& o == (ViewerState { orbit: o.orbit, ..s })
        }),
{
    constants::law_home_numbers();
}

/// Recentering takes the picked point, the greater of its depth and one hundredth, and the
/// given angles. Nothing else changes.
pub proof fn law_recentering_takes_the_pick(s: ViewerState, pick: Pick, yaw: Scalar, pitch: Scalar)
    ensures
        ({
            let o = s.recentered(pick, yaw, pitch);
            let closest = Scalar { bits: 0x3c23_d70a };
            &&& o.orbit.center == pick.point
            &&& o.orbit.yaw == yaw && o.orbit.pitch == pitch
            &&& o.orbit.fov_y == s.orbit.fov_y
            &&& constants::about(closest, 1, 100)
            &&& if pick.depth.nan() || pick.depth.value() < closest.value() {
                o.orbit.distance == closest
            } else {
                o.orbit.distance == pick.depth
            }
            &&& o == (ViewerState { orbit: o.orbit, ..s })
        }),
{
    constants::law_limits();
    scalar::lemma_orders();
}

/// The first view of a camera: at the origin, three away, turned by 0.6 and 0.45, over sixty
/// degrees.
pub proof fn law_the_first_camera()
    ensures
        ({
            let c = OrbitCamera::initial();
            &&& constants::equals(c.center.x, 0)
            &&& constants::equals(c.center.y, 0)
            &&& constants::equals(c.center.z, 0)
            &&& constants::equals(c.distance, 3)
            &&& constants::about(c.yaw, 6, 10)
            &&& constants::about(c.pitch, 45, 100)
            &&& constants::about(c.fov_y, 10_471_976, 10_000_000)
        }),
{
    constants::law_home_numbers();
    constants::law_plain_numbers();
}

/// A fresh viewer keeps the centers of its splats and frames them, where there are splats and
/// their centers are known; otherwise it has none and starts at the first view. The rest of it
/// does not depend on the scene.
pub proof fn law_a_fresh_viewer(latest: Option<u32>, means: Option<Seq<Scalar>>)
    ensures
        ({
            let c = ViewerState::created(latest, means);
            let first = OrbitCamera::initial();
            &&& (latest matches Some(n) && n > 0 && means is Some) ==> c.splat_means == means->0 && (
            c.orbit.center,
            c.orbit.distance,
            ) == scene::framing(means->0)
            &&& !(latest matches Some(n) && n > 0 && means is Some) ==> c.splat_means.len() == 0
                && c.orbit.center == first.center && c.orbit.distance == first.distance
            &&& c.orbit == (OrbitCamera {
                center: c.orbit.center,
                distance: c.orbit.distance,
                ..first
            })
            &&& c.home_center == c.orbit.center && c.home_distance == c.orbit.distance
            &&& (c.scene_min, c.scene_max) == scene::bounds(c.splat_means)
            &&& c.width == 800 && c.height == 600
            &&& constants::about(c.background.x, 2, 10)
            &&& constants::about(c.background.y, 2, 10)
            &&& constants::about(c.background.z, 2, 10)
            &&& c.mip && c.splat_scale is None && c.crop is None && c.cropped is None
        }),
{
    constants::law_steps();
}

/// Without a crop all splats are shown, as far as there are any; under one, the cropped ones.
pub proof fn law_what_is_shown(s: ViewerState, latest: Option<u32>)
    ensures
        s.crop is None && latest is Some ==> s.shown(latest) == Some(SplatSource::Full),
        s.crop is None && latest is None ==> s.shown(latest) is None,
        s.crop is Some && s.cropped is Some ==> s.shown(latest) == Some(SplatSource::Cropped),
        s.crop is Some && s.cropped is None ==> s.shown(latest) is None,
{
}

/// Loading failed where its end was a failure and no splats had come.
pub proof fn law_what_failed(scene: LoadedScene)
    ensures
        scene.ended == LoadEvent::Failed && scene.latest is None ==> scene.failed(),
        scene.ended != LoadEvent::Failed ==> !scene.failed(),
        scene.latest is Some ==> !scene.failed(),
{
}

/// A byte of a color between zero and one is the integer part of 255 times it, within rounding.
pub proof fn law_a_byte_is_255_parts(f: Scalar)
    requires
        f.finite(),
        0 <= f.value() <= exact::unit(),
    ensures
        ({
            let b = frame::channel(f) as int;
            let v = 255 * f.value();
            &&& 0x100_0000 * (b * exact::unit() - v) <= v + 0x80_0000
            &&& b == 255 || 0x100_0000 * (v - (b + 1) * exact::unit()) <= v + 0x80_0000
        }),
{
    let u = exact::unit();
    let full = Scalar { bits: frame::FULL };
    let zero = Scalar { bits: ZERO };
    let vs = f.times(full);
    lemma_pow2_pos(149);
    constants::law_steps();
    constants::law_plain_numbers();
    scalar::law_times_commutes(f, full);
    // The product is at most 255.
    scalar::lemma_times_value(f, full);
    scalar::lemma_nearest_value_exact(full);
    scalar::lemma_nearest_value_exact(zero);
    let x = f.value();
    assert(0 * u <= x * (255 * u) && (x * (255 * u)) * 1 <= (255 * u) * u && 0 * u == 0)
        by (nonlinear_arith)
        requires
            0 <= x <= u,
            u > 0,
    ;
    scalar::lemma_nearest_value_ordered(x * (255 * u), u, 255 * u, 1);
    scalar::lemma_nearest_value_ordered(0, 1, x * (255 * u), u);
    magnitude::lemma_units_sign(vs.magnitude());
    if vs.infinite() {
        magnitude::lemma_units_increase(full.magnitude(), vs.magnitude());
    }
    errors::law_products_are_close(f, full);
    exact::law_clamped_is_in_the_range(vs, zero, full);
    exact::law_bytes_are_integer_parts(vs);
    let w = vs.value();
    let e = w - 255 * x;
    assert(u * w - x * (255 * u) == u * e && x * (255 * u) == u * (255 * x)) by (nonlinear_arith)
        requires
            e == w - 255 * x,
    ;
    pan::lemma_size_of_product(u, e);
    let se = errors::size(e);
    assert(u * (255 * x) >= 0) by (nonlinear_arith)
        requires
            x >= 0,
            u > 0,
    ;
    assert(0x100_0000 * (u * se) <= u * (255 * x) + 0x80_0000 * u);
    assert(0x100_0000 * se <= 255 * x + 0x80_0000) by (nonlinear_arith)
        requires
            0x100_0000 * (u * se) <= u * (255 * x) + 0x80_0000 * u,
            u > 0,
    ;
}

/// A frame holds, as far as there are colors and bytes for them, an opaque alpha in every fourth
/// byte and the byte of its color in the others, and leaves the rest of the buffer as it was.
pub proof fn law_a_frame_holds_its_colors(before: Seq<u8>, colors: Seq<Scalar>, len: int)
    requires
        0 <= len <= before.len(),
    ensures
        ({
            let after = frame::filled(before, colors, frame::covered(colors, len));
            &&& after.len() == before.len()
            &&& forall|i: int|
                0 <= i < before.len() ==> #[trigger] after[i] == if i >= len || i >= colors.len() {
                    before[i]
                } else if i % 4 == 3 {
                    255u8
                } else {
                    frame::channel(colors[i])
                }
        }),
{
}

/// A frame has four bytes for each pixel, as far as 32 bits count them.
pub proof fn law_a_frame_has_four_bytes_a_pixel(width: u32, height: u32)
    ensures
        width * height * 4 <= 0xffff_ffff ==> frame::frame_size(width, height) == Some(
            width * height * 4,
        ),
        width * height * 4 > 0xffff_ffff ==> frame::frame_size(width, height) is None,
{
}

/// What is rendered for a frame: nothing without a viewer, a buffer or splats to show; else the
/// splats that the viewer shows, with its settings, its yaw, and its pitch moved between the
/// steepest ones, at the given size of at least one pixel each way.
pub proof fn law_a_frame_is_rendered_as_the_viewer_is_set(
    viewer: Option<&BrushViewer>,
    width: u32,
    height: u32,
    has_buffer: bool,
    latest: Option<u32>,
)
    ensures
        ({
            let plan = viewer::planned(viewer, width, height, has_buffer, latest);
            &&& plan is Some <==> (viewer matches Some(v) && has_buffer && v@.shown(latest) is Some)
            &&& viewer matches Some(v) ==> (plan matches Some(p) ==> {
                &&& v@.shown(latest) == Some(p.source)
                &&& p.render_mip == v@.mip
                &&& p.background == v@.background
                &&& p.splat_scale == v@.splat_scale
                &&& p.yaw == v@.orbit.yaw
                &&& is_limited_pitch(p.pitch, v@.orbit.pitch)
                &&& p.width == if width == 0 { 1 } else { width }
                &&& p.height == if height == 0 { 1 } else { height }
            })
        }),
{
    if let Some(v) = viewer {
        law_the_pitch_is_limited(v@.orbit);
    }
}

/// A frame follows the orbit: the yaw that it is rendered with is the one before plus the one
/// angle, and its pitch the one before plus the other, moved between the steepest ones.
pub proof fn law_frames_follow_the_orbit(
    before: &BrushViewer,
    after: &BrushViewer,
    dx: Scalar,
    dy: Scalar,
    width: u32,
    height: u32,
    latest: Option<u32>,
)
    requires
        after@ == before@.orbited(dx, dy),
    ensures
        ({
            let (p, q) = (
                viewer::planned(Some(before), width, height, true, latest),
                viewer::planned(Some(after), width, height, true, latest),
            );
            &&& p is Some <==> q is Some
            &&& q matches Some(now) ==> {
                &&& exact::is_sum(now.yaw, p->0.yaw, dx)
                &&& exists|pitch: Scalar| #[trigger]
                    exact::is_sum(pitch, before@.orbit.pitch, dy) && is_limited_pitch(
                        now.pitch,
                        pitch,
                    )
                &&& now == (FramePlan { yaw: now.yaw, pitch: now.pitch, ..p->0 })
            }
        }),
{
    law_orbiting_turns_by_the_angles(before@, dx, dy);
    law_the_pitch_is_limited(after@.orbit);
    law_a_frame_is_rendered_as_the_viewer_is_set(Some(before), width, height, true, latest);
    law_a_frame_is_rendered_as_the_viewer_is_set(Some(after), width, height, true, latest);
    assert(exact::is_sum(after@.orbit.pitch, before@.orbit.pitch, dy));
}

/// A frame is due where there is a plan for it, it was rendered, and 32 bits count its bytes, at
/// least one pixel each way; it then has four bytes for each pixel of the given size.
pub proof fn law_the_bytes_of_a_frame(
    viewer: Option<&BrushViewer>,
    width: u32,
    height: u32,
    latest: Option<u32>,
    rendered: Option<&[Scalar]>,
)
    ensures
        ({
            let w = if width == 0 { 1 } else { width };
            let h = if height == 0 { 1 } else { height };
            let due = viewer::frame_due(viewer, width, height, latest, rendered);
            &&& due is Some <==> (viewer matches Some(v) && v@.shown(latest) is Some && rendered is Some
                && w * h * 4 <= 0xffff_ffff)
            &&& due matches Some(n) ==> n == width * height * 4
        }),
{
}

/// What is exported is what a viewer with a path to write to shows.
pub proof fn law_what_is_exported(
    viewer: Option<&BrushViewer>,
    has_path: bool,
    latest: Option<u32>,
)
    ensures
        !has_path || viewer is None ==> viewer::exported(viewer, has_path, latest) is None,
        has_path ==> (viewer matches Some(v) ==> viewer::exported(viewer, has_path, latest)
            == v@.shown(latest)),
{
}

/// A viewer has splats where it is there and there is a latest view; its stats count them.
pub proof fn law_splats_are_counted(viewer: Option<&BrushViewer>, latest: Option<u32>)
    ensures
        viewer::has_splats(viewer, latest) <==> viewer is Some && latest is Some,
        viewer is Some ==> (latest matches Some(n) ==> viewer::stats(viewer, latest).num_splats == n
            && viewer::stats(viewer, latest).has_splats),
        viewer is None || latest is None ==> viewer::stats(viewer, latest).num_splats == 0
            && !viewer::stats(viewer, latest).has_splats,
{
}

/// A camera for a frame stands where the orbit puts it, looks over the same field, at the middle
/// of a frame of the given size, at least one pixel each way.
pub proof fn law_a_camera_for_a_frame(orbit: OrbitCamera, forward: Vec3, width: u32, height: u32)
    ensures
        ({
            let c: Camera = orbit.to_camera(forward, width, height);
            &&& c.position == orbit.eye(forward)
            &&& c.fov_y == orbit.fov_y
            &&& c.width == if width == 0 { 1 } else { width }
            &&& c.height == if height == 0 { 1 } else { height }
            &&& 2 * c.center_u.value() == exact::unit() && c.center_u.finite()
            &&& 2 * c.center_v.value() == exact::unit() && c.center_v.finite()
        }),
{
    constants::law_plain_numbers();
}

/// Loading goes on after any message but the last, stops where it is done or ends, and reports
/// a failure.
pub proof fn law_loading_goes_on_until_it_is_done(event: LoadEvent)
    ensures
        event == LoadEvent::OtherMessage <==> viewer::action_after(event)
            == LoadAction::KeepReading,
        event == LoadEvent::Failed <==> viewer::action_after(event) == LoadAction::ReportAndStop,
        event == LoadEvent::DoneLoading || event == LoadEvent::Ended <==> viewer::action_after(event)
            == LoadAction::Stop,
{
}

/// Centers are read back where there is at least one splat.
pub proof fn law_centers_are_read_where_there_are_splats(latest: Option<u32>)
    ensures
        latest is None ==> !state::has_centers(latest),
        latest == Some(0u32) ==> !state::has_centers(latest),
        (latest matches Some(n) && n >= 1) ==> state::has_centers(latest),
{
}

/// An export succeeds where a viewer with a path shows something and it was written, and not
/// where writing or encoding failed.
pub proof fn law_an_export_succeeds_when_written(
    viewer: Option<&BrushViewer>,
    has_path: bool,
    latest: Option<u32>,
    outcome: ExportOutcome,
)
    ensures
        viewer::export_succeeds(viewer, has_path, latest, outcome) <==> (viewer matches Some(v)
            && has_path && v@.shown(latest) is Some && outcome == ExportOutcome::Written),
{
}

/// A buffer holds a frame where it has four bytes for each pixel, or 32 bits do not count them.
pub proof fn law_a_buffer_that_holds_a_frame(width: u32, height: u32, len: nat)
    ensures
        frame::frame_fits(width, height, len) <==> width * height * 4 > 0xffff_ffff || width * height
            * 4 <= len,
{
}

} // verus!
