//! What a click sees: the ray through a pixel, the splats near it, and the point picked.
use vstd::prelude::*;
use vstd::arithmetic::power2::*;
use crate::constants;
use crate::errors;
use crate::exact;
use crate::magnitude;
use crate::moves;
use crate::orbit;
use crate::orbit::OrbitCamera;
use crate::pan;
use crate::pick;
use crate::pick::{Pick, Ray};
use crate::rounding;
use crate::scalar;
use crate::scalar::{HALF, ONE, POSITIVE_INFINITY, Scalar, TWO};
use crate::scene;
use crate::spatial;
use crate::vector::Vec3;

verus! {

/// The number of so many pixels, at least one.
pub open spec fn pixels(n: u32) -> Scalar {
    Scalar::from_u32(if n == 0 { 1 } else { n })
}

/// The tolerance of a click at depth one, times the pixels that the surface is high, is
/// twelve times the tangent of half the field of view, within rounding: six pixels, of which
/// the surface holds its height over twice the tangent.
pub proof fn law_the_tolerance_is_six_pixels(height: u32, tan_half_fov: Scalar)
    requires
        tan_half_fov.finite(),
        (Scalar { bits: TWO }).times(tan_half_fov).finite(),
        (Scalar { bits: TWO }).times(tan_half_fov).over(pixels(height)).finite(),
        (Scalar { bits: TWO }).times(tan_half_fov).over(pixels(height)).times(
            Scalar { bits: 0x40c0_0000 },
        ).finite(),
    ensures
        pick::click_cone(height, tan_half_fov).finite(),
        0x100_0000 * rounding::distance(
            pixels(height).value() * pick::click_cone(height, tan_half_fov).value(),
            12 * tan_half_fov.value() * exact::unit(),
        ) <= 36 * errors::size(tan_half_fov.value() * exact::unit()) + 0x400_0000 * pixels(
            height,
        ).value(),
{
    let u = exact::unit();
    let hs = pixels(height);
    let two = (Scalar { bits: TWO }).times(tan_half_fov);
    let quotient = two.over(hs);
    let six = Scalar { bits: 0x40c0_0000 };
    let cone = quotient.times(six);
    lemma_pow2_pos(149);
    constants::law_steps();
    assert(pick::click_cone(height, tan_half_fov) == cone);
    moves::lemma_pixel_count(orbit::at_least_one(height));
    magnitude::lemma_units_sign(hs.magnitude());
    pan::lemma_double(tan_half_fov);
    errors::law_quotients_are_close(two, hs);
    errors::law_products_are_close(quotient, six);
    let (h, t, q, c) = (hs.value(), tan_half_fov.value(), quotient.value(), cone.value());
    assert(two.value() * u == 2 * (t * u)) by (nonlinear_arith)
        requires
            two.value() == 2 * t,
    ;
    let e = c - 6 * q;
    assert(u * c - q * (6 * u) == u * e && q * (6 * u) == u * (6 * q)) by (nonlinear_arith)
        requires
            e == c - 6 * q,
    ;
    pan::lemma_size_of_product(u, e);
    pan::lemma_size_of_product(u, 6 * q);
    let (se, sq) = (errors::size(e), errors::size(6 * q));
    assert(0x100_0000 * (u * se) <= u * sq + 0x80_0000 * u);
    assert(0x100_0000 * se <= sq + 0x80_0000) by (nonlinear_arith)
        requires
            0x100_0000 * (u * se) <= u * sq + 0x80_0000 * u,
            u > 0,
    ;
    pan::lemma_size_of_product(h, e);
    pan::lemma_size_of_product(h, q);
    assert(h * c == h * (6 * q) + h * e && h * (6 * q) == 6 * (h * q)) by (nonlinear_arith)
        requires
            c == 6 * q + e,
    ;
    let aq = errors::size(q);
    assert(0x100_0000 * (h * se) <= 6 * (h * aq) + 0x80_0000 * h) by (nonlinear_arith)
        requires
            0x100_0000 * se <= 6 * aq + 0x80_0000,
            h > 0,
    ;
    assert(12 * t * u == 12 * (t * u)) by (nonlinear_arith);
}

/// Whether a number is how far along a ray a point lies.
pub open spec fn is_depth(t: Scalar, ray: Ray, p: Vec3) -> bool {
    exists|rel: Vec3| #[trigger]
        spatial::is_vector_difference(rel, p, ray.origin) && spatial::is_dot(t, rel, ray.dir)
}

/// Whether a number is how far from a ray a point at a depth lies.
pub open spec fn is_miss(m: Scalar, ray: Ray, p: Vec3, t: Scalar) -> bool {
    exists|rel: Vec3, foot: Vec3, off: Vec3| #[trigger]
        spatial::is_vector_difference(rel, p, ray.origin) && #[trigger] spatial::is_multiple(
            foot,
            ray.dir,
            t,
        ) && #[trigger] spatial::is_vector_difference(off, rel, foot) && spatial::is_length(m, off)
}

/// The depth of a point is its offset from the eye along the ray, and its miss is the length
/// of what is left of that offset once the depth along the ray is taken away.
pub proof fn law_depths_and_misses(ray: Ray, p: Vec3)
    ensures
        is_depth(ray.depth(p), ray, p),
        is_miss(ray.miss(p), ray, p, ray.depth(p)),
{
    let rel = p.minus(ray.origin);
    let t = ray.depth(p);
    let foot = ray.dir.scaled(t);
    let off = rel.minus(foot);
    spatial::law_vectors_go_by_component(p, ray.origin, t);
    spatial::law_lengths_and_directions(rel, ray.dir);
    spatial::law_vectors_go_by_component(ray.dir, ray.dir, t);
    spatial::law_vectors_go_by_component(rel, foot, t);
    spatial::law_lengths_and_directions(off, off);
    assert(spatial::is_vector_difference(rel, p, ray.origin) && spatial::is_multiple(
        foot,
        ray.dir,
        t,
    ) && spatial::is_vector_difference(off, rel, foot));
}

/// Whether a depth lies in front of the camera: past one hundredth, or no number.
pub open spec fn in_front(t: Scalar) -> bool {
    t.nan() || t.value() > (Scalar { bits: 0x3c23_d70a }).value()
}

/// Whether a point in front is seen near the ray: it misses by less than the tolerance at
/// its depth.
pub open spec fn seen_near(ray: Ray, p: Vec3) -> bool {
    let (t, m) = (ray.depth(p), ray.miss(p));
    let most = t.times(ray.cone);
    in_front(t) && !m.nan() && !most.nan() && m.value() < most.value()
}

/// Whether a point in front is seen off the ray, at a finite distance.
pub open spec fn seen_off(ray: Ray, p: Vec3) -> bool {
    let (t, m) = (ray.depth(p), ray.miss(p));
    in_front(t) && !seen_near(ray, p) && !m.nan() && m.value() < (Scalar {
        bits: POSITIVE_INFINITY,
    }).value()
}

/// The splat of a row.
pub open spec fn splat(means: Seq<Scalar>, row: int) -> Vec3 {
    Vec3 { x: means[3 * row], y: means[3 * row + 1], z: means[3 * row + 2] }
}

/// Whether a row is that of a whole splat.
pub open spec fn is_row(means: Seq<Scalar>, row: int) -> bool {
    0 <= row && 3 * row + 2 < means.len()
}

/// Whether a row is that of a splat seen near the ray, and none such is closer.
pub open spec fn is_front_most(ray: Ray, means: Seq<Scalar>, row: int) -> bool {
    &&& is_row(means, row) && seen_near(ray, splat(means, row))
    &&& forall|other: int|
        is_row(means, other) && seen_near(ray, #[trigger] splat(means, other)) ==> ray.depth(
            splat(means, other),
        ).value() >= ray.depth(splat(means, row)).value()
}

/// Whether a row is that of a splat seen off the ray, none such misses it by less, and none
/// before it by as little.
pub open spec fn is_least_off(ray: Ray, means: Seq<Scalar>, row: int) -> bool {
    &&& is_row(means, row) && seen_off(ray, splat(means, row))
    &&& forall|other: int|
        is_row(means, other) && seen_off(ray, #[trigger] splat(means, other)) ==> if other < row {
            ray.miss(splat(means, other)).value() > ray.miss(splat(means, row)).value()
        } else {
            ray.miss(splat(means, other)).value() >= ray.miss(splat(means, row)).value()
        }
}

/// Whether any splat is seen near the ray.
pub open spec fn any_near(ray: Ray, means: Seq<Scalar>) -> bool {
    exists|row: int| is_row(means, row) && seen_near(ray, #[trigger] splat(means, row))
}

/// Whether any splat is seen off the ray.
pub open spec fn any_off(ray: Ray, means: Seq<Scalar>) -> bool {
    exists|row: int| is_row(means, row) && seen_off(ray, #[trigger] splat(means, row))
}

proof fn lemma_seen(ray: Ray, p: Vec3)
    ensures
        ray.hits(p) == seen_near(ray, p),
        ray.passes(p) == seen_off(ray, p),
{
    scalar::lemma_orders();
}

proof fn lemma_near_depth(ray: Ray, p: Vec3)
    requires
        seen_near(ray, p),
    ensures
        !ray.depth(p).nan(),
{
    reveal(Scalar::spec_times);
}

/// The depth of a click is that of the front-most splat seen near the ray; where there is
/// none, that of the first that misses it by least; and where none is in front, the distance.
pub proof fn law_a_click_takes_the_splat_it_sees(ray: Ray, means: Seq<Scalar>, distance: Scalar)
    ensures
        ({
            let t = pick::picked_depth(ray, means, distance);
            &&& any_near(ray, means) ==> exists|row: int|
                is_front_most(ray, means, row) && t == ray.depth(#[trigger] splat(means, row))
            &&& !any_near(ray, means) && any_off(ray, means) ==> exists|row: int|
                is_least_off(ray, means, row) && t == ray.depth(#[trigger] splat(means, row))
            &&& !any_near(ray, means) && !any_off(ray, means) ==> t == distance
        }),
{
    let t = pick::picked_depth(ray, means, distance);
    let n = scene::center_count(means);
    pick::law_click_lands_on_the_front_most(ray, means, distance);
    scalar::lemma_orders();
    assert forall|i: int| is_row(means, i) implies #[trigger] splat(means, i) == scene::center_at(
        means,
        i,
    ) && 0 <= i < n by {}
    assert forall|i: int| 0 <= i < n implies is_row(means, i) && splat(means, i)
        == #[trigger] scene::center_at(means, i) by {}
    assert forall|p: Vec3| #[trigger] ray.hits(p) == seen_near(ray, p) by {
        lemma_seen(ray, p);
    }
    assert forall|p: Vec3| #[trigger] ray.passes(p) == seen_off(ray, p) by {
        lemma_seen(ray, p);
    }
    assert forall|p: Vec3| #[trigger] seen_near(ray, p) implies ray.hits(p) && !ray.depth(
        p,
    ).nan() by {
        lemma_seen(ray, p);
        lemma_near_depth(ray, p);
    }
    assert forall|p: Vec3| #[trigger] seen_off(ray, p) implies ray.passes(p) by {
        lemma_seen(ray, p);
    }
    if any_near(ray, means) {
        let w = choose|row: int| is_row(means, row) && seen_near(ray, #[trigger] splat(means, row));
        assert(ray.hits(scene::center_at(means, w)));
        let i = choose|i: int|
            0 <= i < n && ray.hits(#[trigger] scene::center_at(means, i)) && t == ray.depth(
                scene::center_at(means, i),
            );
        assert(splat(means, i) == scene::center_at(means, i));
        assert forall|other: int|
            is_row(means, other) && seen_near(ray, #[trigger] splat(means, other)) implies ray.depth(
            splat(means, other),
        ).value() >= ray.depth(splat(means, i)).value() by {
            assert(ray.hits(scene::center_at(means, other)));
        }
        assert(is_front_most(ray, means, i));
    } else {
        assert forall|i: int| 0 <= i < n implies !ray.hits(
            #[trigger] scene::center_at(means, i),
        ) by {
            assert(splat(means, i) == scene::center_at(means, i));
        }
        if any_off(ray, means) {
            let w = choose|row: int|
                is_row(means, row) && seen_off(ray, #[trigger] splat(means, row));
            assert(ray.passes(scene::center_at(means, w)));
            let i = choose|i: int|
                {
                    &&& 0 <= i < n
                    &&& pick::first_pass(ray, means, #[trigger] scene::center_at(means, i), i)
                    &&& t == ray.depth(scene::center_at(means, i))
                    &&& forall|j: int|
                        0 <= j < n && ray.passes(#[trigger] scene::center_at(means, j))
                            ==> !ray.miss(scene::center_at(means, j)).lt(
                            ray.miss(scene::center_at(means, i)),
                        )
                };
            assert(splat(means, i) == scene::center_at(means, i));
            assert forall|other: int|
                is_row(means, other) && seen_off(
                    ray,
                    #[trigger] splat(means, other),
                ) implies if other < i {
                ray.miss(splat(means, other)).value() > ray.miss(splat(means, i)).value()
            } else {
                ray.miss(splat(means, other)).value() >= ray.miss(splat(means, i)).value()
            } by {
                assert(ray.passes(scene::center_at(means, other)));
            }
            assert(is_least_off(ray, means, i));
        } else {
            assert forall|i: int| 0 <= i < n implies !ray.passes(
                #[trigger] scene::center_at(means, i),
            ) by {
                assert(splat(means, i) == scene::center_at(means, i));
            }
        }
    }
}

/// A click picks, from where the camera stands and along the direction of its ray brought to
/// length one, the point at the depth of what it sees within the tolerance of the surface.
pub proof fn law_a_click_picks_along_its_ray(
    camera: OrbitCamera,
    height: u32,
    means: Seq<Scalar>,
    forward: Vec3,
    world_ray: Vec3,
    tan_half_fov: Scalar,
)
    ensures
        ({
            let p = pick::picked(camera, height, means, forward, world_ray, tan_half_fov);
            let ray = Ray {
                origin: p.origin,
                dir: p.dir,
                cone: pick::click_cone(height, tan_half_fov),
            };
            &&& p.origin == camera.eye(forward)
            &&& spatial::is_direction(p.dir, world_ray)
            &&& p.depth == pick::picked_depth(ray, means, camera.distance)
            &&& exists|step: Vec3| #[trigger]
                spatial::is_multiple(step, p.dir, p.depth) && spatial::is_vector_sum(
                    p.point,
                    p.origin,
                    step,
                )
        }),
{
    let p = pick::picked(camera, height, means, forward, world_ray, tan_half_fov);
    let step = p.dir.scaled(p.depth);
    spatial::law_lengths_and_directions(world_ray, world_ray);
    spatial::law_vectors_go_by_component(p.dir, p.dir, p.depth);
    spatial::law_vectors_go_by_component(p.origin, step, p.depth);
    assert(spatial::is_multiple(step, p.dir, p.depth));
}

/// A splat that a click hits is seen within six pixels of it: its miss, times the pixels that
/// the surface is high, is no more than twelve times the tangent times its depth, within
/// rounding. What is in front and seen further off is no hit.
pub proof fn law_a_hit_is_within_six_pixels(
    ray: Ray,
    p: Vec3,
    height: u32,
    tan_half_fov: Scalar,
)
    requires
        ray.cone == pick::click_cone(height, tan_half_fov),
        tan_half_fov.finite(),
        tan_half_fov.value() >= 0,
        (Scalar { bits: TWO }).times(tan_half_fov).finite(),
        (Scalar { bits: TWO }).times(tan_half_fov).over(pixels(height)).finite(),
        (Scalar { bits: TWO }).times(tan_half_fov).over(pixels(height)).times(
            Scalar { bits: 0x40c0_0000 },
        ).finite(),
        ray.depth(p).finite(),
        ray.depth(p).value() >= 0,
        ray.depth(p).times(ray.cone).finite(),
    ensures
        ({
            let h = pixels(height).value();
            let (t, m) = (ray.depth(p).value(), ray.miss(p).value());
            let six = 12 * (t * (tan_half_fov.value() * exact::unit()));
            let slack = 0x10_0000 * (5 * (t * h) + h * exact::unit());
            &&& seen_near(ray, p) ==> 0x10_0000 * (exact::unit() * (h * m)) <= 0x10_0001 * six + slack
            &&& in_front(ray.depth(p)) && !ray.miss(p).nan() && !seen_near(ray, p) ==> 0x10_0000 * (
            exact::unit() * (h * m)) >= 0x0f_ffff * six - slack
        }),
{
    let u = exact::unit();
    let hs = pixels(height);
    let h = hs.value();
    let (ts, ms, cs) = (ray.depth(p), ray.miss(p), ray.cone);
    let most = ts.times(cs);
    let (t, m, c, w) = (ts.value(), ms.value(), cs.value(), most.value());
    let k = tan_half_fov.value() * u;
    lemma_pow2_pos(149);
    law_the_tolerance_is_six_pixels(height, tan_half_fov);
    moves::lemma_pixel_count(orbit::at_least_one(height));
    magnitude::lemma_units_sign(hs.magnitude());
    errors::law_products_are_close(ts, cs);
    assert(12 * tan_half_fov.value() * u == 12 * k && k >= 0) by (nonlinear_arith)
        requires
            k == tan_half_fov.value() * u,
            tan_half_fov.value() >= 0,
            u > 0,
    ;
    let hc = h * c;
    let tc = t * c;
    let e = u * w - tc;
    // The tolerance at the depth, in pixels.
    assert(t * hc == h * tc) by (nonlinear_arith)
        requires
            hc == h * c,
            tc == t * c,
    ;
    let a = hc - 12 * k;
    let sa = errors::size(a);
    assert(t * hc == 12 * (t * k) + t * a && -(t * sa) <= t * a <= t * sa && t * k >= 0)
        by (nonlinear_arith)
        requires
            hc == 12 * k + a,
            -sa <= a <= sa,
            t >= 0,
            k >= 0,
    ;
    assert(0x100_0000 * (t * sa) <= 36 * (t * k) + 0x400_0000 * (t * h)) by (nonlinear_arith)
        requires
            0x100_0000 * sa <= 36 * k + 0x400_0000 * h,
            t >= 0,
    ;
    let se = errors::size(e);
    pan::lemma_size_of_product(h, e);
    pan::lemma_size_of_product(h, tc);
    assert(h * (u * w) == h * tc + h * e) by (nonlinear_arith)
        requires
            u * w == tc + e,
    ;
    let stc = errors::size(tc);
    assert(0x100_0000 * (h * se) <= h * stc + 0x80_0000 * (h * u)) by (nonlinear_arith)
        requires
            0x100_0000 * se <= stc + 0x80_0000 * u,
            h > 0,
    ;
    assert(t * h >= 0 && h * u > 0) by (nonlinear_arith)
        requires
            t >= 0,
            h > 0,
            u > 0,
    ;
    assert((m < w ==> u * (h * m) <= h * (u * w)) && (m >= w ==> u * (h * m) >= h * (u * w)))
        by (nonlinear_arith)
        requires
            h > 0,
            u > 0,
    ;
}

/// The place of a pixel across the surface: minus one at the near edge, one at the far edge,
/// and twice the pixel and a half, over the pixels, less one, in between, within rounding.
pub proof fn law_pixels_are_placed_across_the_surface(pixel: Scalar, size: Scalar)
    requires
        pixel.finite(),
        size.finite(),
        size.value() > 0,
        pixel.plus(Scalar { bits: HALF }).finite(),
        pixel.plus(Scalar { bits: HALF }).over(size).finite(),
        pixel.plus(Scalar { bits: HALF }).over(size).times(Scalar { bits: TWO }).finite(),
        pixel.plus(Scalar { bits: HALF }).over(size).times(Scalar { bits: TWO }).minus(
            Scalar { bits: ONE },
        ).finite(),
    ensures
        ({
            let u = exact::unit();
            let c = pick::device_coordinate(pixel, size);
            let across = 2 * pixel.value() + u;
            c.finite() && 0x100_0000 * rounding::distance(
                size.value() * c.value(),
                u * (across - size.value()),
            ) <= 8 * (u * errors::size(across)) + 2 * (size.value() * u)
        }),
{
    let u = exact::unit();
    let half = Scalar { bits: HALF };
    let two = Scalar { bits: TWO };
    let one = Scalar { bits: ONE };
    let ns = pixel.plus(half);
    let qs = ns.over(size);
    let ds = qs.times(two);
    let cs = ds.minus(one);
    lemma_pow2_pos(149);
    constants::law_plain_numbers();
    errors::law_sums_are_close(pixel, half);
    if size.negative() || size.zero() {
        magnitude::lemma_units_sign(size.magnitude());
        magnitude::lemma_units_sign(0);
    }
    errors::law_quotients_are_close(ns, size);
    scalar::law_times_commutes(qs, two);
    pan::lemma_double(qs);
    exact::law_negated_is_the_opposite(one);
    errors::law_sums_are_close(ds, one.negated());
    let (x, w, n, q, c) = (pixel.value(), size.value(), ns.value(), qs.value(), cs.value());
    let y = 2 * x + u;
    let sy = errors::size(y);
    let a = 2 * n - y;
    let b = w * q - n * u;
    let e = c - (2 * q - u);
    assert(w * c == w * (2 * q) - w * u + w * e && w * (2 * q) == 2 * (w * q)) by (nonlinear_arith)
        requires
            c == 2 * q - u + e,
    ;
    assert(2 * (n * u) == u * y + u * a && u * (y - w) == u * y - w * u) by (nonlinear_arith)
        requires
            2 * n == y + a,
    ;
    let (sa, sb, se) = (errors::size(a), errors::size(b), errors::size(e));
    assert(0x100_0000 * sa <= sy);
    pan::lemma_size_of_product(u, a);
    pan::lemma_size_of_product(u, y);
    pan::lemma_size_of_product(w, e);
    assert(0x100_0000 * (u * sa) <= u * sy) by (nonlinear_arith)
        requires
            0x100_0000 * sa <= sy,
            u > 0,
    ;
    let sd = errors::size(2 * q - u);
    assert(0x100_0000 * (w * se) <= w * sd) by (nonlinear_arith)
        requires
            0x100_0000 * se <= sd,
            w > 0,
    ;
    pan::lemma_size_of_product(w, 2 * q - u);
    assert(w * (2 * q - u) == 2 * (w * q) - w * u) by (nonlinear_arith);
    assert(w * u > 0x1_0000_0000 * w) by (nonlinear_arith)
        requires
            w > 0,
            u > 0x1_0000_0000,
    ;
}

/// Whether a camera-space direction goes through the point of a plane one ahead that lies so
/// far to the right and down.
pub open spec fn goes_through(ray: Vec3, right: Scalar, down: Scalar) -> bool {
    exists|plane: Vec3| #[trigger]
        spatial::is_direction(ray, plane) && plane.x == right && plane.y == down && constants::equals(
            plane.z,
            1,
        )
}

/// The ray of a click goes through the place of its pixel on the surface, which reaches the
/// tangent of half the field of view down, and as many times that to the right as it is wider
/// than high.
pub proof fn law_a_ray_goes_through_its_pixel(
    px: Scalar,
    py: Scalar,
    width: u32,
    height: u32,
    tan_half_fov: Scalar,
)
    ensures
        ({
            let (w, h) = (pixels(width), pixels(height));
            let ray = pick::ray_through(px, py, width, height, tan_half_fov);
            exists|aspect: Scalar, reach: Scalar, right: Scalar, down: Scalar| #[trigger]
                exact::is_quotient(aspect, w, h) && #[trigger] exact::is_product(
                    reach,
                    aspect,
                    tan_half_fov,
                ) && #[trigger] exact::is_product(right, pick::device_coordinate(px, w), reach)
                    && #[trigger] exact::is_product(
                    down,
                    pick::device_coordinate(py, h),
                    tan_half_fov,
                ) && goes_through(ray, right, down)
        }),
{
    let (w, h) = (pixels(width), pixels(height));
    let aspect = w.over(h);
    let reach = aspect.times(tan_half_fov);
    let (cx, cy) = (pick::device_coordinate(px, w), pick::device_coordinate(py, h));
    let (right, down) = (cx.times(reach), cy.times(tan_half_fov));
    let plane = Vec3 { x: right, y: down, z: Scalar { bits: ONE } };
    let ray = pick::ray_through(px, py, width, height, tan_half_fov);
    exact::law_over_is_the_quotient(w, h);
    exact::law_times_is_the_product(aspect, tan_half_fov);
    exact::law_times_is_the_product(cx, reach);
    exact::law_times_is_the_product(cy, tan_half_fov);
    spatial::law_lengths_and_directions(plane, plane);
    constants::law_plain_numbers();
    assert(spatial::is_direction(ray, plane));
    assert(goes_through(ray, right, down));
    assert(exact::is_quotient(aspect, w, h) && exact::is_product(reach, aspect, tan_half_fov)
        && exact::is_product(right, cx, reach) && exact::is_product(down, cy, tan_half_fov));
}

/// Whether a number is the place of a pixel across the surface, by rounded steps.
pub open spec fn is_place_across(c: Scalar, pixel: Scalar, size: Scalar) -> bool {
    exists|n: Scalar, q: Scalar, d: Scalar| #[trigger]
        exact::is_sum(n, pixel, Scalar { bits: HALF }) && #[trigger] exact::is_quotient(q, n, size)
            && #[trigger] exact::is_product(d, q, Scalar { bits: TWO }) && exact::is_difference(
            c,
            d,
            Scalar { bits: ONE },
        )
}

/// Whether a number is the tolerance of a click, by rounded steps.
pub open spec fn is_tolerance(c: Scalar, height: u32, tan_half_fov: Scalar) -> bool {
    exists|twice: Scalar, pixel: Scalar, six: Scalar| #[trigger]
        exact::is_product(twice, Scalar { bits: TWO }, tan_half_fov)
            && #[trigger] exact::is_quotient(pixel, twice, pixels(height))
            && #[trigger] constants::equals(six, 6) && exact::is_product(c, pixel, six)
}

/// The places of pixels and the tolerance, for what is infinite or no number too.
pub proof fn law_places_and_tolerances_by_steps(
    pixel: Scalar,
    size: Scalar,
    height: u32,
    tan_half_fov: Scalar,
)
    ensures
        is_place_across(pick::device_coordinate(pixel, size), pixel, size),
        is_tolerance(pick::click_cone(height, tan_half_fov), height, tan_half_fov),
{
    let (half, one, two) = (Scalar { bits: HALF }, Scalar { bits: ONE }, Scalar { bits: TWO });
    let n = pixel.plus(half);
    let q = n.over(size);
    let d = q.times(two);
    exact::law_plus_is_the_sum(pixel, half);
    exact::law_over_is_the_quotient(n, size);
    exact::law_times_is_the_product(q, two);
    exact::law_minus_is_the_difference(d, one);
    assert(exact::is_sum(n, pixel, half) && exact::is_quotient(q, n, size) && exact::is_product(
        d,
        q,
        two,
    ));
    let twice = two.times(tan_half_fov);
    let px = twice.over(pixels(height));
    let six = Scalar { bits: 0x40c0_0000 };
    exact::law_times_is_the_product(two, tan_half_fov);
    exact::law_over_is_the_quotient(twice, pixels(height));
    exact::law_times_is_the_product(px, six);
    constants::law_steps();
    assert(exact::is_product(twice, two, tan_half_fov) && exact::is_quotient(
        px,
        twice,
        pixels(height),
    ) && constants::equals(six, 6));
}

/// The yaw that looks along a direction has a sine and a cosine as its negated first and its
/// third component, and the pitch a sine as its negated second.
pub proof fn law_the_angles_along_a_direction(pick: Pick)
    ensures
        exact::is_opposite(pick.yaw_legs().0, pick.dir.x),
        pick.yaw_legs().1 == pick.dir.z,
        exact::is_opposite(pick.pitch_sine(), pick.dir.y),
{
    exact::law_negated_is_the_opposite(pick.dir.x);
    exact::law_negated_is_the_opposite(pick.dir.y);
}

} // verus!
