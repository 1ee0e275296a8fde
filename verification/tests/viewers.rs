use brush_viewer::frame::{channel_byte, frame_len};
use brush_viewer::orbit::{Basis, Camera, OrbitCamera};
use brush_viewer::pick::Pick;
use brush_viewer::scalar::Scalar;
use brush_viewer::state::SplatSource;
use brush_viewer::vector::Vec3;
use brush_viewer::viewer::{
    brush_viewer_create, brush_viewer_export_cropped, brush_viewer_get_axes,
    brush_viewer_get_stats, brush_viewer_has_splats, brush_viewer_orbit, brush_viewer_pan,
    brush_viewer_recenter_at, brush_viewer_render_frame, brush_viewer_reset_view,
    brush_viewer_set_background, brush_viewer_set_crop, brush_viewer_set_fov,
    brush_viewer_set_mip, brush_viewer_set_size, brush_viewer_set_splat_scale, brush_viewer_zoom,
    export_source, needs_means, next_load_action, plan_frame, BrushViewer, BrushViewerStats,
    ExportOutcome, LoadAction, LoadEvent, LoadedScene,
};

fn s(x: f32) -> Scalar {
    Scalar::from_bits(x.to_bits())
}

fn v(x: f32, y: f32, z: f32) -> Vec3 {
    Vec3 { x: s(x), y: s(y), z: s(z) }
}

fn g(p: glam::Vec3) -> Vec3 {
    v(p.x, p.y, p.z)
}

fn scalars(v: &[f32]) -> Vec<Scalar> {
    v.iter().map(|&x| s(x)).collect()
}

const CENTERS: [f32; 12] = [0.0, 0.0, 0.0, 4.0, 0.0, 3.0, 2.0, 1.0, 1.0, 1.0, -1.0, 2.0];

fn loaded() -> BrushViewer {
    let scene = LoadedScene { ended: LoadEvent::DoneLoading, latest: Some(4), means: Some(scalars(&CENTERS)) };
    brush_viewer_create(Some(scene)).unwrap()
}

fn empty() -> BrushViewer {
    brush_viewer_create(Some(LoadedScene { ended: LoadEvent::DoneLoading, latest: None, means: None })).unwrap()
}

fn basis(yaw: f32, pitch: f32) -> (glam::Quat, Basis) {
    let rotation = glam::Quat::from_axis_angle(glam::Vec3::NEG_Y, yaw)
        * glam::Quat::from_rotation_x(pitch);
    let b = Basis {
        right: g(rotation * glam::Vec3::X),
        up: g(rotation * glam::Vec3::NEG_Y),
        forward: g(rotation * glam::Vec3::Z),
    };
    (rotation, b)
}

#[test]
fn loading_reads_until_done() {
    assert_eq!(next_load_action(LoadEvent::OtherMessage), LoadAction::KeepReading);
    assert_eq!(next_load_action(LoadEvent::DoneLoading), LoadAction::Stop);
    assert_eq!(next_load_action(LoadEvent::Ended), LoadAction::Stop);
    assert_eq!(next_load_action(LoadEvent::Failed), LoadAction::ReportAndStop);
    assert!(needs_means(Some(1)));
    assert!(!needs_means(Some(0)));
    assert!(!needs_means(None));
}

#[test]
fn nothing_is_created_without_a_scene() {
    assert!(brush_viewer_create(None).is_none());
}

#[test]
fn nothing_is_created_where_loading_failed() {
    let failed = |latest| LoadedScene { ended: LoadEvent::Failed, latest, means: None };
    assert!(brush_viewer_create(Some(failed(None))).is_none());
    // Splats that came before the failure are shown.
    assert!(brush_viewer_create(Some(failed(Some(4)))).is_some());
    // A stream that ends without splats has not failed.
    let ended = LoadedScene { ended: LoadEvent::Ended, latest: None, means: None };
    assert!(!ended.failed());
    assert!(brush_viewer_create(Some(ended)).is_some());
}

#[test]
fn a_viewer_without_splats_starts_at_the_default_view() {
    let c = empty().orbit_camera();
    assert_eq!(c, OrbitCamera::new());
    assert_eq!(c.center, v(0.0, 0.0, 0.0));
    assert_eq!(c.distance, s(3.0));
    assert_eq!(c.yaw, s(0.6));
    assert_eq!(c.pitch, s(0.45));
    assert_eq!(c.fov_y, s(60.0_f32.to_radians()));
    // Centers count only where there is a splat and they could be read.
    let none = LoadedScene { ended: LoadEvent::DoneLoading, latest: Some(0), means: Some(scalars(&CENTERS)) };
    assert_eq!(brush_viewer_create(Some(none)).unwrap().orbit_camera(), OrbitCamera::new());
    let unread = LoadedScene { ended: LoadEvent::DoneLoading, latest: Some(4), means: None };
    assert_eq!(brush_viewer_create(Some(unread)).unwrap().orbit_camera(), OrbitCamera::new());
}

#[test]
fn a_loaded_scene_is_framed() {
    let c = loaded().orbit_camera();
    assert_eq!(c.center, v(2.0, 0.0, 1.5));
    let diagonal = glam::Vec3::new(4.0, 2.0, 3.0).length();
    assert_eq!(c.distance, s(diagonal * 0.75));
    assert_eq!(c.yaw, s(0.6));
}

#[test]
fn splats_are_reported_once_loaded() {
    let viewer = loaded();
    assert!(brush_viewer_has_splats(Some(&viewer), Some(4)));
    assert!(!brush_viewer_has_splats(Some(&viewer), None));
    assert!(!brush_viewer_has_splats(None, Some(4)));
    let none = BrushViewerStats { num_splats: 0, has_splats: false };
    let four = BrushViewerStats { num_splats: 4, has_splats: true };
    assert_eq!(brush_viewer_get_stats(Some(&viewer), Some(4)), four);
    assert_eq!(brush_viewer_get_stats(Some(&viewer), None), none);
    assert_eq!(brush_viewer_get_stats(None, Some(4)), none);
}

#[test]
fn a_missing_viewer_takes_every_operation() {
    let b = basis(0.0, 0.0).1;
    let p = Pick { origin: v(0.0, 0.0, 0.0), dir: v(0.0, 0.0, 1.0), depth: s(1.0), point: v(0.0, 0.0, 1.0) };
    brush_viewer_set_size(None, 1, 1);
    brush_viewer_set_fov(None, s(1.0));
    brush_viewer_orbit(None, s(1.0), s(1.0));
    brush_viewer_pan(None, s(1.0), s(1.0), b, s(1.0));
    brush_viewer_recenter_at(None, p, s(0.0), s(0.0));
    brush_viewer_zoom(None, s(1.0));
    brush_viewer_reset_view(None);
    brush_viewer_set_background(None, s(1.0), s(1.0), s(1.0));
    brush_viewer_set_mip(None, true);
    brush_viewer_set_splat_scale(None, s(1.0));
    let (z, o) = (s(0.0), s(1.0));
    brush_viewer_set_crop(None, z, z, z, o, o, o, true, Some(1));
    let mut out = vec![s(7.0); 9];
    brush_viewer_get_axes(None, b, Some(&mut out));
    assert_eq!(out, vec![s(7.0); 9]);
}

#[test]
fn the_field_of_view_is_set_in_degrees() {
    let mut viewer = empty();
    for d in [0.0f32, 1.0, 45.0, 60.0, 90.0, 123.4, -7.5] {
        brush_viewer_set_fov(Some(&mut viewer), s(d));
        assert_eq!(viewer.orbit_camera().fov_y, s(d.to_radians()));
    }
    assert_eq!(viewer.orbit_camera().half_fov(), s((-7.5f32).to_radians() * 0.5));
}

#[test]
fn orbiting_adds_to_the_angles() {
    let mut viewer = empty();
    brush_viewer_orbit(Some(&mut viewer), s(0.3), s(-0.2));
    let c = viewer.orbit_camera();
    assert_eq!(c.yaw, s(0.6 + 0.3));
    assert_eq!(c.pitch, s(0.45 + -0.2));
    assert_eq!((c.center, c.distance), (OrbitCamera::new().center, OrbitCamera::new().distance));
}

#[test]
fn the_camera_pitch_stays_short_of_straight_up() {
    let steepest = std::f32::consts::PI / 2.0 - 0.01;
    let mut viewer = empty();
    brush_viewer_orbit(Some(&mut viewer), s(0.0), s(9.0));
    assert_eq!(viewer.orbit_camera().camera_pitch(), s(steepest));
    brush_viewer_orbit(Some(&mut viewer), s(0.0), s(-20.0));
    assert_eq!(viewer.orbit_camera().camera_pitch(), s(-std::f32::consts::PI / 2.0 + 0.01));
    assert_eq!(OrbitCamera::new().camera_pitch(), s(0.45));
}

#[test]
fn the_camera_stands_behind_the_pivot() {
    let c = loaded().orbit_camera();
    let (rotation, b) = basis(0.6, 0.45);
    let (yaw_pivot, d) = (glam::Vec3::new(2.0, 0.0, 1.5), f32::from_bits(c.distance.bits));
    let position = yaw_pivot - rotation * glam::Vec3::Z * d;
    assert_eq!(c.eye(b.forward), g(position));
    let expected = Camera {
        position: g(position),
        fov_y: c.fov_y,
        width: 640,
        height: 1,
        center_u: s(0.5),
        center_v: s(0.5),
    };
    assert_eq!(c.to_camera(b.forward, 640, 0), expected);
}

#[test]
fn panning_moves_the_pivot_by_pixels() {
    let mut viewer = loaded();
    brush_viewer_set_size(Some(&mut viewer), 320, 240);
    let (_, b) = basis(0.6, 0.45);
    let before = viewer.orbit_camera();
    let d = f32::from_bits(before.distance.bits);
    let tan = (60.0_f32.to_radians() * 0.5).tan();
    let up = glam::Quat::from_axis_angle(glam::Vec3::NEG_Y, 0.6) * glam::Quat::from_rotation_x(0.45);
    let (right, up) = (up * glam::Vec3::X, up * glam::Vec3::NEG_Y);
    let per_pixel = (2.0 * d * tan) / 240.0;
    let mut center = glam::Vec3::new(2.0, 0.0, 1.5);
    center -= right * (12.0 * per_pixel) + up * (-7.0 * per_pixel);
    brush_viewer_pan(Some(&mut viewer), s(12.0), s(-7.0), b, s(tan));
    assert_eq!(viewer.orbit_camera(), OrbitCamera { center: g(center), ..before });
}

#[test]
fn zooming_scales_the_distance() {
    let mut viewer = empty();
    brush_viewer_zoom(Some(&mut viewer), s(1.0));
    assert_eq!(viewer.orbit_camera().distance, s(3.0 * (1.0 - 1.0 * 0.1)));
    brush_viewer_zoom(Some(&mut viewer), s(-2.5));
    assert_eq!(viewer.orbit_camera().distance, s((3.0f32 * (1.0 - 1.0 * 0.1)) * (1.0 - -2.5 * 0.1)));
    // Never through the pivot, whatever the step.
    for delta in [1000.0f32, f32::INFINITY, f32::NAN] {
        brush_viewer_zoom(Some(&mut viewer), s(delta));
        assert_eq!(viewer.orbit_camera().distance, s(0.01));
    }
}

#[test]
fn positive_steps_zoom_in() {
    let mut viewer = empty();
    for delta in [0.5f32, 1.0, 3.0] {
        let before = viewer.orbit_camera().distance;
        brush_viewer_zoom(Some(&mut viewer), s(delta));
        assert!(viewer.orbit_camera().distance.lt(before));
        let closer = viewer.orbit_camera().distance;
        brush_viewer_zoom(Some(&mut viewer), s(-delta));
        assert!(closer.lt(viewer.orbit_camera().distance));
    }
}

#[test]
fn recentering_turns_to_the_picked_point() {
    let mut viewer = loaded();
    brush_viewer_set_size(Some(&mut viewer), 64, 48);
    let before = viewer.orbit_camera();
    let (rotation, b) = basis(0.6, 0.45);
    let tan = (60.0_f32.to_radians() * 0.5).tan();
    let ray = viewer.click_ray(s(40.0), s(11.0), s(tan));
    let f = |x: Scalar| f32::from_bits(x.bits);
    let world = rotation * glam::Vec3::new(f(ray.x), f(ray.y), f(ray.z));
    let pick = viewer.pick_along(b.forward, g(world), s(tan));
    let dir = world.normalize();
    assert_eq!(pick.dir, g(dir));
    assert_eq!(pick.origin, before.eye(b.forward));
    let depth = f(pick.depth);
    assert_eq!(pick.point, pick.origin.plus(g(dir * depth)));
    assert_eq!(pick.yaw_legs(), (s(-dir.x), s(dir.z)));
    assert_eq!(pick.pitch_sine(), s(-dir.y));
    let (yaw, pitch) = ((-dir.x).atan2(dir.z), (-dir.y).asin());
    brush_viewer_recenter_at(Some(&mut viewer), pick, s(yaw), s(pitch));
    let after = viewer.orbit_camera();
    let expected = OrbitCamera {
        center: pick.point,
        distance: s(depth.max(0.01)),
        yaw: s(yaw),
        pitch: s(pitch),
        fov_y: before.fov_y,
    };
    assert_eq!(after, expected);
}

#[test]
fn recentering_on_an_exact_pick_keeps_the_eye() {
    let mut viewer = empty();
    let dir = v(0.0, 0.0, 1.0);
    let pick = Pick { origin: v(1.0, 2.0, 3.0), dir, depth: s(4.0), point: v(1.0, 2.0, 7.0) };
    brush_viewer_recenter_at(Some(&mut viewer), pick, s(0.0), s(0.0));
    assert_eq!(viewer.orbit_camera().eye(dir), v(1.0, 2.0, 3.0));
    // A pick closer than the camera may come is kept at that distance.
    let close = Pick { depth: s(0.001), ..pick };
    brush_viewer_recenter_at(Some(&mut viewer), close, s(0.0), s(0.0));
    assert_eq!(viewer.orbit_camera().distance, s(0.01));
}

#[test]
fn resetting_restores_the_first_view() {
    let mut viewer = loaded();
    let first = viewer.orbit_camera();
    brush_viewer_orbit(Some(&mut viewer), s(1.0), s(2.0));
    brush_viewer_zoom(Some(&mut viewer), s(3.0));
    brush_viewer_pan(Some(&mut viewer), s(5.0), s(6.0), basis(0.1, 0.2).1, s(0.5));
    brush_viewer_set_fov(Some(&mut viewer), s(30.0));
    assert!(viewer.orbit_camera().center != first.center);
    brush_viewer_reset_view(Some(&mut viewer));
    let fov_y = s(30.0_f32.to_radians());
    assert_eq!(viewer.orbit_camera(), OrbitCamera { fov_y, ..first });
    brush_viewer_reset_view(Some(&mut viewer));
    assert_eq!(viewer.orbit_camera(), OrbitCamera { fov_y, ..first });
}

#[test]
fn axes_are_given_in_camera_space() {
    let viewer = empty();
    let (rotation, b) = basis(0.6, 0.45);
    let mut out = vec![s(7.0); 10];
    brush_viewer_get_axes(Some(&viewer), b, Some(&mut out));
    let dirs = [rotation * glam::Vec3::X, rotation * glam::Vec3::NEG_Y, rotation * glam::Vec3::Z];
    for (i, e) in [glam::Vec3::X, glam::Vec3::Y, glam::Vec3::Z].iter().enumerate() {
        for (j, d) in dirs.iter().enumerate() {
            assert_eq!(out[i * 3 + j], s(e.dot(*d)));
        }
    }
    assert_eq!(out[9], s(7.0));
    assert_eq!(out[..3], [b.right.x, b.up.x, b.forward.x]);
    assert_eq!(out[6..9], [b.right.z, b.up.z, b.forward.z]);
    brush_viewer_get_axes(Some(&viewer), b, None);
}

fn crop(viewer: &mut BrushViewer, to: f32, latest: Option<u32>) {
    let (z, o) = (s(0.0), s(to));
    brush_viewer_set_crop(Some(viewer), z, z, z, o, o, o, true, latest);
}

#[test]
fn a_crop_selects_the_splats_in_its_box() {
    let mut viewer = loaded();
    assert!(viewer.cropped_rows().is_none());
    // The bounds run from (0, -1, 0) to (4, 1, 3): half of them reach (2, 0, 1.5).
    crop(&mut viewer, 0.5, Some(4));
    assert_eq!(viewer.cropped_rows(), Some(&vec![0]));
    crop(&mut viewer, 1.0, Some(4));
    assert_eq!(viewer.cropped_rows(), Some(&vec![0, 1, 2, 3]));
    crop(&mut viewer, 0.25, Some(4));
    assert_eq!(viewer.cropped_rows(), None);
    crop(&mut viewer, 1.0, None);
    assert_eq!(viewer.cropped_rows(), None);
}

#[test]
fn greater_fractions_reach_further() {
    // Along x the fractions 0, 0.25, 0.5 and 1 reach 0, 1, 2 and 4.
    let mut viewer = loaded();
    let (zero, one) = (s(0.0), s(1.0));
    let reached = [(0.0, vec![0]), (0.25, vec![0, 3]), (0.5, vec![0, 2, 3]), (1.0, vec![0, 1, 2, 3])];
    for (fraction, rows) in reached {
        let f = s(fraction);
        brush_viewer_set_crop(Some(&mut viewer), zero, zero, zero, f, one, one, true, Some(4));
        assert_eq!(viewer.cropped_rows(), Some(&rows));
    }
}

#[test]
fn nothing_is_shown_before_splats() {
    let mut viewer = empty();
    brush_viewer_zoom(Some(&mut viewer), s(1.0));
    crop(&mut viewer, 1.0, None);
    assert_eq!(export_source(Some(&viewer), true, None), None);
    assert!(plan_frame(Some(&viewer), 4, 4, true, None).is_none());
    assert!(!brush_viewer_export_cropped(Some(&viewer), true, None, ExportOutcome::Written));
}

#[test]
fn each_move_has_its_own_part() {
    let mut viewer = loaded();
    let first = viewer.orbit_camera();
    brush_viewer_orbit(Some(&mut viewer), s(0.5), s(0.25));
    let turned = viewer.orbit_camera();
    assert_eq!(turned, OrbitCamera { yaw: turned.yaw, pitch: turned.pitch, ..first });
    brush_viewer_pan(Some(&mut viewer), s(3.0), s(4.0), basis(0.0, 0.0).1, s(0.5));
    let moved = viewer.orbit_camera();
    assert_eq!(moved, OrbitCamera { center: moved.center, ..turned });
    assert_ne!(moved.center, turned.center);
    brush_viewer_zoom(Some(&mut viewer), s(2.0));
    let closer = viewer.orbit_camera();
    assert_eq!(closer, OrbitCamera { distance: closer.distance, ..moved });
    assert!(closer.distance.lt(moved.distance));
}

#[test]
fn panning_moves_eye_and_pivot_alike() {
    let mut viewer = empty();
    let b = basis(0.0, 0.0).1;
    let before = viewer.orbit_camera();
    // Six hundred pixels high, three away: a hundred pixels span half a unit.
    brush_viewer_pan(Some(&mut viewer), s(100.0), s(200.0), b, s(0.5));
    let after = viewer.orbit_camera();
    assert_eq!(after.center, v(-0.5, 1.0, 0.0));
    assert_eq!(before.eye(b.forward), v(0.0, 0.0, -3.0));
    assert_eq!(after.eye(b.forward), v(-0.5, 1.0, -3.0));
}

#[test]
fn operations_keep_the_scene() {
    let mut viewer = loaded();
    brush_viewer_set_size(Some(&mut viewer), 0, 0);
    brush_viewer_zoom(Some(&mut viewer), s(1000.0));
    assert_eq!(viewer.orbit_camera().distance, s(0.01));
    brush_viewer_set_splat_scale(Some(&mut viewer), s(-1.0));
    crop(&mut viewer, 0.25, Some(4));
    // The same crop selects the same splats as of a fresh viewer.
    let mut fresh = loaded();
    crop(&mut fresh, 1.0, Some(4));
    crop(&mut viewer, 1.0, Some(4));
    assert_eq!(viewer.cropped_rows(), fresh.cropped_rows());
    brush_viewer_reset_view(Some(&mut viewer));
    assert_eq!(viewer.orbit_camera(), fresh.orbit_camera());
    brush_viewer_reset_view(Some(&mut viewer));
    assert_eq!(viewer.orbit_camera(), fresh.orbit_camera());
}

#[test]
fn whole_fractions_may_lose_a_splat_to_rounding() {
    // 1e-8 + 1 rounds to 1, so the box ends at zero.
    let means = scalars(&[-1.0, 0.0, 0.0, 1e-8, 1.0, 1.0]);
    let scene = LoadedScene { ended: LoadEvent::DoneLoading, latest: Some(2), means: Some(means) };
    let mut viewer = brush_viewer_create(Some(scene)).unwrap();
    crop(&mut viewer, 1.0, Some(2));
    assert_eq!(viewer.cropped_rows(), Some(&vec![0]));
}

#[test]
fn an_active_crop_decides_what_is_shown() {
    let mut viewer = loaded();
    assert_eq!(export_source(Some(&viewer), true, Some(4)), Some(SplatSource::Full));
    assert_eq!(export_source(Some(&viewer), true, None), None);
    assert_eq!(export_source(Some(&viewer), false, Some(4)), None);
    assert_eq!(export_source(None, true, Some(4)), None);
    crop(&mut viewer, 0.5, Some(4));
    assert_eq!(export_source(Some(&viewer), true, Some(4)), Some(SplatSource::Cropped));
    let plan = plan_frame(Some(&viewer), 4, 4, true, Some(4)).unwrap();
    assert_eq!(plan.source, SplatSource::Cropped);
    // A box without a splat shows nothing.
    crop(&mut viewer, 0.25, Some(4));
    assert_eq!(export_source(Some(&viewer), true, Some(4)), None);
    assert!(plan_frame(Some(&viewer), 4, 4, true, Some(4)).is_none());
    // Clearing the crop shows everything again.
    let z = s(0.0);
    brush_viewer_set_crop(Some(&mut viewer), z, z, z, z, z, z, false, Some(4));
    assert_eq!(export_source(Some(&viewer), true, Some(4)), Some(SplatSource::Full));
    assert_eq!(viewer.cropped_rows(), None);
}

#[test]
fn an_export_succeeds_when_written() {
    let viewer = loaded();
    let done = |o| brush_viewer_export_cropped(Some(&viewer), true, Some(4), o);
    assert!(done(ExportOutcome::Written));
    assert!(!done(ExportOutcome::NotWritten));
    assert!(!done(ExportOutcome::NotEncoded));
    assert!(!done(ExportOutcome::BrokeDown));
    assert!(!brush_viewer_export_cropped(Some(&viewer), true, None, ExportOutcome::Written));
    assert!(!brush_viewer_export_cropped(Some(&viewer), false, Some(4), ExportOutcome::Written));
    assert!(!brush_viewer_export_cropped(None, true, Some(4), ExportOutcome::Written));
}

#[test]
fn a_plan_holds_the_settings() {
    let mut viewer = loaded();
    let plan = plan_frame(Some(&viewer), 0, 7, true, Some(4)).unwrap();
    assert_eq!((plan.width, plan.height), (1, 7));
    assert!(plan.render_mip);
    assert_eq!(plan.background, v(0.2, 0.2, 0.2));
    assert_eq!(plan.splat_scale, None);
    assert_eq!((plan.yaw, plan.pitch), (s(0.6), s(0.45)));
    brush_viewer_set_mip(Some(&mut viewer), false);
    brush_viewer_set_background(Some(&mut viewer), s(0.1), s(0.5), s(1.0));
    brush_viewer_set_splat_scale(Some(&mut viewer), s(1.5));
    let plan = plan_frame(Some(&viewer), 5, 6, true, Some(4)).unwrap();
    assert!(!plan.render_mip);
    assert_eq!(plan.background, v(0.1, 0.5, 1.0));
    assert_eq!(plan.splat_scale, Some(s(1.5)));
    assert!(plan_frame(Some(&viewer), 5, 6, false, Some(4)).is_none());
    assert!(plan_frame(Some(&viewer), 5, 6, true, None).is_none());
    assert!(plan_frame(None, 5, 6, true, Some(4)).is_none());
}

#[test]
fn a_splat_scale_of_zero_is_the_default() {
    let mut viewer = loaded();
    for (scale, kept) in [
        (0.0f32, false), (-0.0, false), (-2.0, false), (f32::NEG_INFINITY, false),
        (1.0, true), (1e-40, true), (f32::INFINITY, true), (f32::NAN, true),
    ] {
        brush_viewer_set_splat_scale(Some(&mut viewer), s(scale));
        let plan = plan_frame(Some(&viewer), 1, 1, true, Some(4)).unwrap();
        assert_eq!(plan.splat_scale, if kept { Some(s(scale)) } else { None });
    }
}

#[test]
fn channels_agree_with_the_machine() {
    let mut x: u32 = 0x2545_f491;
    for _ in 0..300_000 {
        x ^= x << 13;
        x ^= x >> 17;
        x ^= x << 5;
        for bits in [x, (x & 0x00ff_ffff) | 0x3b00_0000, (x & 0x01ff_ffff) | 0x3e00_0000] {
            let f = f32::from_bits(bits);
            assert_eq!(channel_byte(Scalar::from_bits(bits)), (f * 255.0).clamp(0.0, 255.0) as u8);
        }
    }
    for k in 0..=255u32 {
        let f = k as f32 / 255.0;
        assert_eq!(channel_byte(s(f)), (f * 255.0).clamp(0.0, 255.0) as u8);
    }
}

#[test]
fn channels_stay_within_a_byte() {
    assert_eq!(channel_byte(s(0.0)), 0);
    assert_eq!(channel_byte(s(-3.0)), 0);
    assert_eq!(channel_byte(s(f32::NAN)), 0);
    assert_eq!(channel_byte(s(0.2)), 51);
    assert_eq!(channel_byte(s(0.5)), 127);
    assert_eq!(channel_byte(s(1.0)), 255);
    assert_eq!(channel_byte(s(f32::INFINITY)), 255);
    assert!(channel_byte(s(0.3)) <= channel_byte(s(0.4)));
}

#[test]
fn frames_are_counted_in_32_bits() {
    assert_eq!(frame_len(64, 64), Some(16384));
    assert_eq!(frame_len(0, 5), Some(0));
    assert_eq!(frame_len(32768, 32767), Some(4294836224));
    assert_eq!(frame_len(32768, 32768), None);
    assert_eq!(frame_len(u32::MAX, u32::MAX), None);
}

#[test]
fn a_frame_is_written_opaque() {
    let viewer = loaded();
    let colors = scalars(&[0.2, 0.5, 1.0, 0.0, -1.0, 2.0, 0.25, 0.5]);
    let mut out = vec![9u8; 10];
    assert!(brush_viewer_render_frame(Some(&viewer), 2, 1, Some(&mut out), Some(4), Some(&colors)));
    assert_eq!(out, vec![51, 127, 255, 255, 0, 255, 63, 255, 9, 9]);
}

#[test]
fn a_short_frame_leaves_the_rest() {
    let viewer = loaded();
    let colors = scalars(&[1.0, 1.0, 1.0, 0.0, 1.0]);
    let mut out = vec![9u8; 8];
    assert!(brush_viewer_render_frame(Some(&viewer), 2, 1, Some(&mut out), Some(4), Some(&colors)));
    assert_eq!(out, vec![255, 255, 255, 255, 255, 9, 9, 9]);
    // Colors past the frame are ignored.
    let mut one = vec![9u8; 4];
    let many = scalars(&[0.0; 12]);
    assert!(brush_viewer_render_frame(Some(&viewer), 1, 1, Some(&mut one), Some(4), Some(&many)));
    assert_eq!(one, vec![0, 0, 0, 255]);
}

#[test]
fn a_frame_without_width_or_height_has_no_bytes() {
    let viewer = loaded();
    let colors = scalars(&[1.0; 4]);
    let mut out = vec![9u8; 4];
    assert!(brush_viewer_render_frame(Some(&viewer), 0, 1, Some(&mut out), Some(4), Some(&colors)));
    assert!(brush_viewer_render_frame(Some(&viewer), 1, 0, Some(&mut out), Some(4), Some(&colors)));
    assert_eq!(out, vec![9u8; 4]);
    let mut none: Vec<u8> = vec![];
    assert!(brush_viewer_render_frame(Some(&viewer), 0, 0, Some(&mut none), Some(4), Some(&colors)));
    // What is rendered has at least one pixel each way.
    let plan = plan_frame(Some(&viewer), 0, 5, true, Some(4)).unwrap();
    assert_eq!((plan.width, plan.height), (1, 5));
}

#[test]
fn a_click_on_the_middle_keeps_the_view() {
    let mut viewer = empty();
    let before = viewer.orbit_camera();
    let b = basis(0.0, 0.0).1;
    let ray = viewer.click_ray(s(399.5), s(299.5), s(0.5));
    assert_eq!(ray, v(0.0, 0.0, 1.0));
    let pick = viewer.pick_along(b.forward, b.forward, s(0.5));
    brush_viewer_recenter_at(Some(&mut viewer), pick, before.yaw, before.pitch);
    assert_eq!(viewer.orbit_camera(), before);
}

#[test]
fn a_click_straight_ahead_keeps_any_view() {
    for (yaw, pitch) in [(0.6, 0.45), (2.1, -1.2), (-0.3, 0.9)] {
        let mut viewer = empty();
        let before = viewer.orbit_camera();
        let (rotation, b) = basis(yaw, pitch);
        let ray = viewer.click_ray(s(399.5), s(299.5), s(0.5));
        assert_eq!(ray, v(0.0, 0.0, 1.0));
        let world_ray = g(rotation * glam::Vec3::new(0.0, 0.0, 1.0));
        assert_eq!(world_ray, b.forward);
        let pick = viewer.pick_along(b.forward, world_ray, s(0.5));
        brush_viewer_recenter_at(Some(&mut viewer), pick, before.yaw, before.pitch);
        let after = viewer.orbit_camera();
        assert_eq!(after, OrbitCamera { center: after.center, ..before });
        for c in [after.center.x, after.center.y, after.center.z] {
            assert!(f32::from_bits(c.bits).abs() < 1e-6);
        }
    }
}

#[test]
fn panning_feels_the_same_from_afar() {
    let (mut near, mut far) = (empty(), empty());
    // Ten steps back make the distance twice as great.
    brush_viewer_zoom(Some(&mut far), s(-10.0));
    assert_eq!(near.orbit_camera().distance, s(3.0));
    assert_eq!(far.orbit_camera().distance, s(6.0));
    let b = basis(0.0, 0.0).1;
    brush_viewer_pan(Some(&mut near), s(100.0), s(200.0), b, s(0.5));
    brush_viewer_pan(Some(&mut far), s(100.0), s(200.0), b, s(0.5));
    assert_eq!(near.orbit_camera().center, v(-0.5, 1.0, 0.0));
    assert_eq!(far.orbit_camera().center, v(-1.0, 2.0, 0.0));
}

#[test]
fn a_pan_is_seen_as_pixels() {
    let mut viewer = empty();
    brush_viewer_set_size(Some(&mut viewer), 640, 480);
    let (yaw, pitch, tan) = (0.6, 0.45, 0.577f32);
    let (rotation, b) = basis(yaw, pitch);
    brush_viewer_pan(Some(&mut viewer), s(37.0), s(-21.0), b, s(tan));
    let after = viewer.orbit_camera();
    let f = |x: Scalar| f32::from_bits(x.bits);
    let eye = after.eye(b.forward);
    // The old pivot is the origin.
    let seen = rotation.inverse() * -glam::Vec3::new(f(eye.x), f(eye.y), f(eye.z));
    let pixels = 480.0 / (2.0 * tan);
    assert!((seen.z - 3.0).abs() < 1e-4);
    assert!((seen.x / seen.z * pixels - 37.0).abs() < 1e-2);
    assert!((-seen.y / seen.z * pixels + 21.0).abs() < 1e-2);
}

#[test]
fn orbiting_there_and_back_returns() {
    let mut viewer = empty();
    let before = viewer.orbit_camera();
    brush_viewer_orbit(Some(&mut viewer), s(0.25), s(1e9));
    brush_viewer_orbit(Some(&mut viewer), s(-0.25), s(-1e9));
    let after = viewer.orbit_camera();
    assert_eq!(after, OrbitCamera { pitch: after.pitch, ..before });
    // The pitch was lost in the sum, which lies 0.45 from the exact one.
    assert_eq!(after.pitch, s(0.0));
}

#[test]
fn a_click_makes_the_picked_point_the_pivot() {
    let means = scalars(&[1.0, 0.0, 4.0, 0.0, 0.0, 2.0]);
    let scene = LoadedScene { ended: LoadEvent::DoneLoading, latest: Some(2), means: Some(means) };
    let mut viewer = brush_viewer_create(Some(scene)).unwrap();
    let b = basis(0.0, 0.0).1;
    let eye = viewer.orbit_camera().eye(b.forward);
    let pick = viewer.pick_along(b.forward, b.forward, s(0.5));
    brush_viewer_recenter_at(Some(&mut viewer), pick, s(0.0), s(0.0));
    let after = viewer.orbit_camera();
    assert_eq!(after.distance, pick.depth);
    assert_eq!(after.center, eye.plus(b.forward.scaled(pick.depth)));
    assert!(s(0.01).le(after.distance));
}

#[test]
fn a_frame_fails_without_splats_or_colors() {
    let viewer = loaded();
    let colors = scalars(&[1.0; 4]);
    let mut out = vec![9u8; 4];
    assert!(!brush_viewer_render_frame(None, 1, 1, Some(&mut out), Some(4), Some(&colors)));
    assert!(!brush_viewer_render_frame(Some(&viewer), 1, 1, None, Some(4), Some(&colors)));
    assert!(!brush_viewer_render_frame(Some(&viewer), 1, 1, Some(&mut out), None, Some(&colors)));
    assert!(!brush_viewer_render_frame(Some(&viewer), 1, 1, Some(&mut out), Some(4), None));
    assert!(!brush_viewer_render_frame(
        Some(&viewer), 40000, 40000, Some(&mut out), Some(4), Some(&colors)
    ));
    assert_eq!(out, vec![9u8; 4]);
}

#[test]
fn a_surface_is_at_least_one_pixel() {
    let mut viewer = empty();
    let tan = s(0.5);
    brush_viewer_set_size(Some(&mut viewer), 0, 0);
    let one = viewer.click_ray(s(0.0), s(0.0), tan);
    brush_viewer_set_size(Some(&mut viewer), 1, 1);
    assert_eq!(viewer.click_ray(s(0.0), s(0.0), tan), one);
    assert_eq!(one, v(0.0, 0.0, 1.0));
}
