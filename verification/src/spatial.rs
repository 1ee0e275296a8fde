//! What the vector operations give, stated by the exact results of their components.
use vstd::prelude::*;
use vstd::arithmetic::power2::*;
use crate::errors;
use crate::exact;
use crate::orbit::OrbitCamera;
use crate::rounding;
use crate::scalar;
use crate::scalar::{ONE, Scalar};
use crate::vector::Vec3;

verus! {

/// Whether a vector is the sum of two.
pub open spec fn is_vector_sum(r: Vec3, p: Vec3, q: Vec3) -> bool {
    exact::is_sum(r.x, p.x, q.x) && exact::is_sum(r.y, p.y, q.y) && exact::is_sum(r.z, p.z, q.z)
}

/// Whether a vector is the difference of two.
pub open spec fn is_vector_difference(r: Vec3, p: Vec3, q: Vec3) -> bool {
    &&& exact::is_difference(r.x, p.x, q.x)
    &&& exact::is_difference(r.y, p.y, q.y)
    &&& exact::is_difference(r.z, p.z, q.z)
}

/// Whether a vector is the product of two, component by component.
pub open spec fn is_vector_product(r: Vec3, p: Vec3, q: Vec3) -> bool {
    &&& exact::is_product(r.x, p.x, q.x)
    &&& exact::is_product(r.y, p.y, q.y)
    &&& exact::is_product(r.z, p.z, q.z)
}

/// Whether a vector is another times a number.
pub open spec fn is_multiple(r: Vec3, p: Vec3, by: Scalar) -> bool {
    &&& exact::is_product(r.x, p.x, by)
    &&& exact::is_product(r.y, p.y, by)
    &&& exact::is_product(r.z, p.z, by)
}

/// Whether a number is the dot product of two vectors, added up from the left.
pub open spec fn is_dot(r: Scalar, p: Vec3, q: Vec3) -> bool {
    exists|m: Vec3, s: Scalar| #[trigger]
        is_vector_product(m, p, q) && #[trigger] exact::is_sum(s, m.x, m.y) && exact::is_sum(
            r,
            s,
            m.z,
        )
}

/// Whether a number is the length of a vector.
pub open spec fn is_length(r: Scalar, p: Vec3) -> bool {
    exists|s: Scalar| #[trigger] is_dot(s, p, p) && exact::is_root(r, s)
}

/// Whether a vector is another brought to length one.
pub open spec fn is_direction(r: Vec3, p: Vec3) -> bool {
    exists|l: Scalar, k: Scalar| #[trigger]
        is_length(l, p) && #[trigger] exact::is_quotient(k, Scalar { bits: ONE }, l)
            && is_multiple(r, p, k)
}

/// Vectors are added, taken away and multiplied component by component.
pub proof fn law_vectors_go_by_component(p: Vec3, q: Vec3, by: Scalar)
    ensures
        is_vector_sum(p.plus(q), p, q),
        is_vector_difference(p.minus(q), p, q),
        is_vector_product(p.times(q), p, q),
        is_multiple(p.scaled(by), p, by),
        Vec3::splat(by).x == by && Vec3::splat(by).y == by && Vec3::splat(by).z == by,
{
    exact::law_plus_is_the_sum(p.x, q.x);
    exact::law_plus_is_the_sum(p.y, q.y);
    exact::law_plus_is_the_sum(p.z, q.z);
    exact::law_minus_is_the_difference(p.x, q.x);
    exact::law_minus_is_the_difference(p.y, q.y);
    exact::law_minus_is_the_difference(p.z, q.z);
    exact::law_times_is_the_product(p.x, q.x);
    exact::law_times_is_the_product(p.y, q.y);
    exact::law_times_is_the_product(p.z, q.z);
    exact::law_times_is_the_product(p.x, by);
    exact::law_times_is_the_product(p.y, by);
    exact::law_times_is_the_product(p.z, by);
}

/// Dot products, lengths and directions are those of the vectors.
pub proof fn law_lengths_and_directions(p: Vec3, q: Vec3)
    ensures
        is_dot(p.dot(q), p, q),
        is_length(p.length(), p),
        is_direction(p.normalized(), p),
{
    lemma_dot(p, q);
    lemma_dot(p, p);
    exact::law_root_is_the_root(p.dot(p));
    assert(is_length(p.length(), p));
    let one = Scalar { bits: ONE };
    exact::law_over_is_the_quotient(one, p.length());
    law_vectors_go_by_component(p, p, one.over(p.length()));
}

proof fn lemma_dot(p: Vec3, q: Vec3)
    ensures
        is_dot(p.dot(q), p, q),
{
    law_vectors_go_by_component(p, q, p.x);
    let m = p.times(q);
    exact::law_plus_is_the_sum(m.x, m.y);
    exact::law_plus_is_the_sum(m.x.plus(m.y), m.z);
    assert(is_vector_product(m, p, q) && exact::is_sum(m.x.plus(m.y), m.x, m.y));
}

/// The lesser and the greater of two vectors take the lesser and the greater of each two
/// components, and the second one's where they do not compare.
pub proof fn law_lesser_and_greater(p: Vec3, q: Vec3)
    ensures
        is_lesser(p.lesser(q).x, p.x, q.x),
        is_lesser(p.lesser(q).y, p.y, q.y),
        is_lesser(p.lesser(q).z, p.z, q.z),
        is_lesser(p.greater(q).x.negated(), p.x.negated(), q.x.negated()),
        is_lesser(p.greater(q).y.negated(), p.y.negated(), q.y.negated()),
        is_lesser(p.greater(q).z.negated(), p.z.negated(), q.z.negated()),
{
    scalar::lemma_orders();
    exact::law_negated_is_the_opposite(p.x);
    exact::law_negated_is_the_opposite(p.y);
    exact::law_negated_is_the_opposite(p.z);
    exact::law_negated_is_the_opposite(q.x);
    exact::law_negated_is_the_opposite(q.y);
    exact::law_negated_is_the_opposite(q.z);
}

/// Whether a number is the lesser of two: one of them, and no greater than either.
pub open spec fn is_lesser(r: Scalar, a: Scalar, b: Scalar) -> bool {
    &&& r == a || r == b
    &&& a.nan() || b.nan() ==> r == b
    &&& !a.nan() && !b.nan() ==> r.value() <= a.value() && r.value() <= b.value()
}

/// How far rounding puts a camera from its pivot less so many times the way it looks,
/// along one axis, in squares of units.
pub open spec fn eye_error(center: Scalar, forward: Scalar, distance: Scalar) -> int {
    exact::unit() * errors::sum_error(center, forward.times(distance).negated())
        + errors::product_error(forward, distance)
}

/// Whether a coordinate of the eye lies the distance behind that of the pivot.
pub open spec fn stands_behind(
    eye: Scalar,
    center: Scalar,
    forward: Scalar,
    distance: Scalar,
) -> bool {
    rounding::distance(
        exact::unit() * eye.value(),
        exact::unit() * center.value() - forward.value() * distance.value(),
    ) <= eye_error(center, forward, distance)
}

/// The camera stands its distance behind the pivot, against the way it looks, within the
/// rounding of one product and one sum; and exactly the rounded ones give its position.
pub proof fn law_the_camera_stands_behind_the_pivot(camera: OrbitCamera, forward: Vec3)
    ensures
        ({
            let step = forward.scaled(camera.distance);
            let eye = camera.eye(forward);
            &&& is_vector_difference(eye, camera.center, step)
            &&& is_multiple(step, forward, camera.distance)
            &&& step.x.finite() ==> stands_behind(
                eye.x,
                camera.center.x,
                forward.x,
                camera.distance,
            )
            &&& step.y.finite() ==> stands_behind(
                eye.y,
                camera.center.y,
                forward.y,
                camera.distance,
            )
            &&& step.z.finite() ==> stands_behind(
                eye.z,
                camera.center.z,
                forward.z,
                camera.distance,
            )
        }),
{
    let step = forward.scaled(camera.distance);
    law_vectors_go_by_component(forward, forward, camera.distance);
    law_vectors_go_by_component(camera.center, step, camera.distance);
    lemma_behind(camera.center.x, forward.x, camera.distance);
    lemma_behind(camera.center.y, forward.y, camera.distance);
    lemma_behind(camera.center.z, forward.z, camera.distance);
}

proof fn lemma_behind(center: Scalar, forward: Scalar, distance: Scalar)
    ensures
        forward.times(distance).finite() ==> stands_behind(
            center.minus(forward.times(distance)),
            center,
            forward,
            distance,
        ),
{
    let step = forward.times(distance);
    let eye = center.minus(step);
    let u = exact::unit();
    let e = eye.value() - (center.value() - step.value());
    lemma_pow2_pos(149);
    exact::law_negated_is_the_opposite(step);
    let (c, s) = (center.value(), step.value());
    assert(u * (c - s + e) == u * c - u * s + u * e) by (nonlinear_arith);
    let se = errors::size(e);
    assert(u * e <= u * se && -(u * se) <= u * e) by (nonlinear_arith)
        requires
            -se <= e <= se,
            u > 0,
    ;
}

} // verus!
