use brush_viewer::pick::{pick_depth, pixel_ray, Ray};
use brush_viewer::scalar::Scalar;
use brush_viewer::scene::{auto_fit, bounds_of_means, crop_splats, keep_indices_in_box};
use brush_viewer::vector::Vec3;

fn s(x: f32) -> Scalar {
    Scalar::from_bits(x.to_bits())
}

fn scalars(v: &[f32]) -> Vec<Scalar> {
    v.iter().map(|&x| s(x)).collect()
}

fn v(x: f32, y: f32, z: f32) -> Vec3 {
    Vec3 { x: s(x), y: s(y), z: s(z) }
}

fn noise(n: usize) -> Vec<f32> {
    let mut x: u32 = 0x0bad_cafe;
    let mut out: Vec<f32> = Vec::new();
    for _ in 0..n {
        x ^= x << 13;
        x ^= x >> 17;
        x ^= x << 5;
        out.push((x as f32 / u32::MAX as f32) * 8.0 - 4.0);
    }
    out
}

#[test]
fn bounds_without_a_center_are_the_unit_cube() {
    assert_eq!(bounds_of_means(&[]), (v(-1.0, -1.0, -1.0), v(1.0, 1.0, 1.0)));
    assert_eq!(bounds_of_means(&scalars(&[5.0, 6.0])), (v(-1.0, -1.0, -1.0), v(1.0, 1.0, 1.0)));
}

#[test]
fn bounds_span_the_centers() {
    let m = scalars(&[1.0, -2.0, 3.0, -4.0, 5.0, 0.5, 9.0]);
    assert_eq!(bounds_of_means(&m), (v(-4.0, -2.0, 0.5), v(1.0, 5.0, 3.0)));
}

#[test]
fn bounds_agree_with_glam() {
    for n in [3usize, 10, 300] {
        let m = noise(n);
        let mut lo = glam::Vec3::splat(f32::INFINITY);
        let mut hi = glam::Vec3::splat(f32::NEG_INFINITY);
        for c in m.chunks_exact(3) {
            let p = glam::Vec3::new(c[0], c[1], c[2]);
            lo = lo.min(p);
            hi = hi.max(p);
        }
        assert_eq!(bounds_of_means(&scalars(&m)), (v(lo.x, lo.y, lo.z), v(hi.x, hi.y, hi.z)));
    }
}

#[test]
fn a_center_that_is_no_number_resets_the_bounds() {
    // A later number takes the place of one that is none, and forgets what went before.
    let m = scalars(&[1.0, 1.0, 1.0, f32::NAN, 2.0, 2.0, 3.0, 3.0, 3.0]);
    let (lo, hi) = bounds_of_means(&m);
    assert_eq!(lo, v(3.0, 1.0, 1.0));
    assert_eq!(hi, v(3.0, 3.0, 3.0));
}

#[test]
fn framing_stands_back_from_the_middle() {
    let m = scalars(&[0.0, 0.0, 0.0, 3.0, 0.0, 4.0]);
    let (center, distance) = auto_fit(&m);
    assert_eq!(center, v(1.5, 0.0, 2.0));
    assert_eq!(distance, s(5.0 * 0.75));
}

#[test]
fn framing_never_comes_closer_than_one_half() {
    let (center, distance) = auto_fit(&scalars(&[2.0, 2.0, 2.0]));
    assert_eq!(center, v(2.0, 2.0, 2.0));
    assert_eq!(distance, s(0.5));
}

#[test]
fn framing_agrees_with_glam() {
    let mut m = noise(90);
    m[5] = f32::NAN;
    m[7] = -0.0;
    m[10] = 0.0;
    let (mut lo, mut hi) = ([f32::INFINITY; 3], [f32::NEG_INFINITY; 3]);
    for i in 0..m.len() / 3 {
        for j in 0..3 {
            let x = m[i * 3 + j];
            if x < lo[j] {
                lo[j] = x;
            }
            if x > hi[j] {
                hi[j] = x;
            }
        }
    }
    let extent = glam::Vec3::new(hi[0] - lo[0], hi[1] - lo[1], hi[2] - lo[2]);
    let (center, distance) = auto_fit(&scalars(&m));
    assert_eq!(center, v((lo[0] + hi[0]) * 0.5, (lo[1] + hi[1]) * 0.5, (lo[2] + hi[2]) * 0.5));
    assert_eq!(distance, s((extent.length() * 0.75).max(0.5)));
}

#[test]
fn framing_of_nothing_has_no_middle() {
    let (center, distance) = auto_fit(&[]);
    assert!(center.x.is_nan());
    assert_eq!(distance, s(f32::INFINITY));
}

#[test]
fn a_box_keeps_the_rows_inside() {
    let m = scalars(&[0.0, 0.0, 0.0, 2.0, 0.0, 0.0, 1.0, 1.0, 1.0, f32::NAN, 0.0, 0.0, 0.5, -0.0, 0.5]);
    let keep = keep_indices_in_box(&m, v(0.0, 0.0, 0.0), v(1.0, 1.0, 1.0));
    assert_eq!(keep, vec![0, 2, 4]);
    assert_eq!(crop_splats(&m, v(0.0, 0.0, 0.0), v(1.0, 1.0, 1.0)), Some(vec![0, 2, 4]));
    assert_eq!(crop_splats(&m, v(5.0, 5.0, 5.0), v(6.0, 6.0, 6.0)), None);
    assert_eq!(crop_splats(&m, v(f32::NAN, 0.0, 0.0), v(1.0, 1.0, 1.0)), None);
}

#[test]
fn a_wider_box_keeps_more() {
    let m = scalars(&noise(300));
    let small = keep_indices_in_box(&m, v(-1.0, -1.0, -1.0), v(1.0, 1.0, 1.0));
    let wide = keep_indices_in_box(&m, v(-2.0, -2.0, -2.0), v(2.0, 2.0, 2.0));
    assert!(!small.is_empty() && small.len() < wide.len());
    assert!(small.iter().all(|r| wide.contains(r)));
}

#[test]
fn the_bounds_keep_every_row() {
    let m = scalars(&noise(300));
    let (lo, hi) = bounds_of_means(&m);
    let all: Vec<i32> = (0..100).collect();
    assert_eq!(keep_indices_in_box(&m, lo, hi), all);
}

fn forward_ray(cone: f32) -> Ray {
    Ray { origin: v(0.0, 0.0, 0.0), dir: v(0.0, 0.0, 1.0), cone: s(cone) }
}

#[test]
fn a_click_takes_the_front_most_splat_near_the_ray() {
    // Behind the camera, far off the ray, two near it.
    let m = scalars(&[0.0, 0.0, -3.0, 2.0, 0.0, 1.0, 0.01, 0.0, 7.0, 0.0, 0.01, 5.0]);
    assert_eq!(pick_depth(forward_ray(0.1), &m, s(9.0)), s(5.0));
}

#[test]
fn a_click_falls_back_to_the_nearest_to_the_ray() {
    let m = scalars(&[0.0, 0.0, -3.0, 2.0, 0.0, 1.0, 1.0, 0.0, 7.0, 3.0, 0.0, 2.0]);
    assert_eq!(pick_depth(forward_ray(0.01), &m, s(9.0)), s(7.0));
}

#[test]
fn the_first_of_equal_misses_is_taken() {
    let ray = forward_ray(0.001);
    let near_first = scalars(&[1.0, 0.0, 3.0, -1.0, 0.0, 7.0]);
    assert_eq!(pick_depth(ray, &near_first, s(9.0)), s(3.0));
    let far_first = scalars(&[-1.0, 0.0, 7.0, 1.0, 0.0, 3.0]);
    assert_eq!(pick_depth(ray, &far_first, s(9.0)), s(7.0));
}

#[test]
fn framing_spans_the_bounds() {
    let means = scalars(&[0.0, 2.0, 4.0, -0.0, 6.0, 8.0]);
    let (lo, hi) = bounds_of_means(&means);
    let (pivot, _) = auto_fit(&means);
    assert_eq!(pivot.y, lo.y.plus(hi.y).times(s(0.5)));
    assert_eq!(pivot.z, lo.z.plus(hi.z).times(s(0.5)));
}

#[test]
fn a_click_into_the_void_keeps_the_distance() {
    assert_eq!(pick_depth(forward_ray(0.1), &[], s(9.0)), s(9.0));
    let behind = scalars(&[0.0, 0.0, -3.0, 0.0, 0.0, 0.01]);
    assert_eq!(pick_depth(forward_ray(0.1), &behind, s(9.0)), s(9.0));
}

#[test]
fn picking_agrees_with_the_machine() {
    let m = noise(600);
    for (ox, dx, cone) in [(0.5f32, 0.2f32, 0.05f32), (-3.0, 0.6, 0.2), (2.0, -0.4, 0.0)] {
        let origin = glam::Vec3::new(ox, 0.25, -6.0);
        let dir = glam::Vec3::new(dx, -0.1, 1.0).normalize();
        let mut best: Option<f32> = None;
        let mut fallback: Option<f32> = None;
        let mut fallback_perp = f32::INFINITY;
        for c in m.chunks_exact(3) {
            let rel = glam::Vec3::new(c[0], c[1], c[2]) - origin;
            let t = rel.dot(dir);
            if t <= 0.01 {
                continue;
            }
            let perp = (rel - dir * t).length();
            if perp < t * cone {
                if best.map_or(true, |b| t < b) {
                    best = Some(t);
                }
            } else if perp < fallback_perp {
                fallback_perp = perp;
                fallback = Some(t);
            }
        }
        let expected = best.or(fallback).unwrap_or(3.0);
        let ray = Ray {
            origin: v(origin.x, origin.y, origin.z),
            dir: v(dir.x, dir.y, dir.z),
            cone: s(cone),
        };
        assert_eq!(pick_depth(ray, &scalars(&m), s(3.0)), s(expected));
    }
}

#[test]
fn pixel_rays_agree_with_the_machine() {
    for (px, py, w, h) in [(0.0f32, 0.0f32, 64u32, 48u32), (31.5, 23.5, 64, 48), (63.0, 10.0, 64, 0)] {
        let thfy = 0.57735026f32;
        let (fw, fh) = (w.max(1) as f32, h.max(1) as f32);
        let thfx = (fw / fh) * thfy;
        let x = ((px + 0.5) / fw) * 2.0 - 1.0;
        let y = ((py + 0.5) / fh) * 2.0 - 1.0;
        let r = glam::Vec3::new(x * thfx, y * thfy, 1.0).normalize();
        assert_eq!(pixel_ray(s(px), s(py), w, h, s(thfy)), v(r.x, r.y, r.z));
    }
    // The middle of the surface lies straight ahead.
    assert_eq!(pixel_ray(s(31.5), s(23.5), 64, 48, s(0.5)), v(0.0, 0.0, 1.0));
}
