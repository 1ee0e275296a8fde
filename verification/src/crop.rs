//! What a crop box keeps, by the coordinates of the splats and the fractions given.
use vstd::prelude::*;
use vstd::arithmetic::power2::*;
use crate::errors;
use crate::exact;
use crate::rounding;
use crate::scalar;
use crate::scalar::{MINUS_ONE, ONE, Scalar};
use crate::scene;
use crate::spatial;
use crate::state;
use crate::state::ViewerState;
use crate::vector::Vec3;

verus! {

/// Whether the splat of a row has each coordinate between those of two corners.
pub open spec fn lies_between(means: Seq<Scalar>, row: int, lo: Vec3, hi: Vec3) -> bool {
    &&& 0 <= row && 3 * row + 2 < means.len()
    &&& lo.x.le(means[3 * row]) && means[3 * row].le(hi.x)
    &&& lo.y.le(means[3 * row + 1]) && means[3 * row + 1].le(hi.y)
    &&& lo.z.le(means[3 * row + 2]) && means[3 * row + 2].le(hi.z)
}

/// Whether rows are exactly those of the splats between two corners, in ascending order.
pub open spec fn are_the_rows_between(
    rows: Seq<i32>,
    means: Seq<Scalar>,
    lo: Vec3,
    hi: Vec3,
) -> bool {
    &&& forall|row: i32| #[trigger] rows.contains(row) <==> lies_between(means, row as int, lo, hi)
    &&& forall|j: int, k: int| 0 <= j < k < rows.len() ==> rows[j] < rows[k]
}

/// Whether any splat lies between two corners.
pub open spec fn any_between(means: Seq<Scalar>, lo: Vec3, hi: Vec3) -> bool {
    exists|row: i32| #[trigger] lies_between(means, row as int, lo, hi)
}

/// The rows that are kept are those of the splats between the corners, and a crop that keeps
/// none shows nothing.
pub proof fn law_the_rows_between_the_corners_are_kept(means: Seq<Scalar>, lo: Vec3, hi: Vec3)
    requires
        means.len() <= 0x1_8000_0000,
    ensures
        are_the_rows_between(scene::kept_rows(means, lo, hi), means, lo, hi),
        scene::cropped_rows(means, lo, hi) is Some <==> any_between(means, lo, hi),
        scene::cropped_rows(means, lo, hi) matches Some(rows) ==> are_the_rows_between(
            rows,
            means,
            lo,
            hi,
        ),
{
    let rows = scene::kept_rows(means, lo, hi);
    scene::law_crop_keeps_exactly_the_inside(means, lo, hi);
    assert forall|row: i32| #[trigger] rows.contains(row) <==> lies_between(
        means,
        row as int,
        lo,
        hi,
    ) by {
        if rows.contains(row) {
            let k = choose|k: int| 0 <= k < rows.len() && rows[k] == row;
            assert(0 <= rows[k] < scene::center_count(means));
            assert(rows.contains((row as int) as i32));
        }
        if lies_between(means, row as int, lo, hi) {
            assert(rows.contains((row as int) as i32) <==> scene::inside(
                scene::center_at(means, row as int),
                lo,
                hi,
            ));
        }
    }
    if any_between(means, lo, hi) {
        let row = choose|row: i32| #[trigger] lies_between(means, row as int, lo, hi);
        assert(rows.contains(row));
        assert(rows.len() > 0);
    }
    if rows.len() > 0 {
        assert(rows.contains(rows[0]));
        assert(lies_between(means, rows[0] as int, lo, hi));
    }
}

/// The bounds of a scene are the least and the greatest of the coordinates along each axis,
/// where each is a number; a scene without a splat has those from -1 to 1.
pub proof fn law_bounds_are_least_and_greatest(means: Seq<Scalar>)
    requires
        forall|i: int| 0 <= i < means.len() ==> !(#[trigger] means[i]).nan(),
    ensures
        ({
            let (lo, hi) = scene::bounds(means);
            &&& forall|row: int|
                0 <= row && 3 * row + 2 < means.len() ==> #[trigger] lies_between(
                    means,
                    row,
                    lo,
                    hi,
                )
            &&& means.len() >= 3 ==> {
                &&& is_coordinate(means, 0, lo.x) && is_coordinate(means, 0, hi.x)
                &&& is_coordinate(means, 1, lo.y) && is_coordinate(means, 1, hi.y)
                &&& is_coordinate(means, 2, lo.z) && is_coordinate(means, 2, hi.z)
            }
            &&& means.len() < 3 ==> {
                let (one, other) = (Scalar { bits: ONE }, Scalar { bits: MINUS_ONE });
                lo == (Vec3 { x: other, y: other, z: other }) && hi == (Vec3 { x: one, y: one, z: one })
            }
        }),
{
    let (lo, hi) = scene::bounds(means);
    scene::law_bounds_hold_every_splat(means);
    assert forall|row: int| 0 <= row && 3 * row + 2 < means.len() implies #[trigger] lies_between(
        means,
        row,
        lo,
        hi,
    ) by {
        assert(scene::inside(scene::center_at(means, row), lo, hi));
    }
    if means.len() >= 3 {
        let n = scene::center_count(means);
        let i = choose|i: int| 0 <= i < n && (#[trigger] scene::center_at(means, i)).x == lo.x;
        assert(means[3 * i + 0] == lo.x);
        let i = choose|i: int| 0 <= i < n && (#[trigger] scene::center_at(means, i)).y == lo.y;
        assert(means[3 * i + 1] == lo.y);
        let i = choose|i: int| 0 <= i < n && (#[trigger] scene::center_at(means, i)).z == lo.z;
        assert(means[3 * i + 2] == lo.z);
        let i = choose|i: int| 0 <= i < n && (#[trigger] scene::center_at(means, i)).x == hi.x;
        assert(means[3 * i + 0] == hi.x);
        let i = choose|i: int| 0 <= i < n && (#[trigger] scene::center_at(means, i)).y == hi.y;
        assert(means[3 * i + 1] == hi.y);
        let i = choose|i: int| 0 <= i < n && (#[trigger] scene::center_at(means, i)).z == hi.z;
        assert(means[3 * i + 2] == hi.z);
    }
}

/// Whether a number is a coordinate of a whole splat along an axis.
pub open spec fn is_coordinate(means: Seq<Scalar>, axis: int, v: Scalar) -> bool {
    exists|row: int|
        0 <= row && 3 * row + 2 < means.len() && #[trigger] means[3 * row + axis] == v
}

/// What separates a corner of a box from its place at most, in parts of two to the power 24.
pub open spec fn corner_slack(lo: Scalar, hi: Scalar, fraction: Scalar) -> int {
    exact::unit() * errors::size(lo.value()) + 6 * errors::size(
        fraction.value() * (hi.value() - lo.value()),
    ) + 0x100_0000 * exact::unit()
}

/// The place of a fraction of the extent, in squares of units.
pub open spec fn place(lo: Scalar, hi: Scalar, fraction: Scalar) -> int {
    exact::unit() * lo.value() + fraction.value() * (hi.value() - lo.value())
}

/// Whether the sums and products of a corner stay finite along one axis.
pub open spec fn placed_finitely(lo: Scalar, hi: Scalar, fraction: Scalar) -> bool {
    &&& lo.finite() && hi.finite() && fraction.finite()
    &&& hi.minus(lo).finite()
    &&& fraction.times(hi.minus(lo)).finite()
    &&& lo.plus(fraction.times(hi.minus(lo))).finite()
}

/// Whether a coordinate of a corner is the lower bound plus the fraction of the extent: the
/// rounded one always, and the exact one within rounding where nothing overflows.
pub open spec fn is_placed(c: Scalar, lo: Scalar, hi: Scalar, fraction: Scalar) -> bool {
    &&& exists|extent: Scalar, part: Scalar| #[trigger]
        exact::is_difference(extent, hi, lo) && #[trigger] exact::is_product(part, fraction, extent)
            && exact::is_sum(c, lo, part)
    &&& placed_finitely(lo, hi, fraction) ==> c.finite() && 0x100_0000 * rounding::distance(
        exact::unit() * c.value(),
        place(lo, hi, fraction),
    ) <= corner_slack(lo, hi, fraction)
}

proof fn lemma_placed(lo: Scalar, hi: Scalar, fraction: Scalar)
    ensures
        is_placed(lo.plus(fraction.times(hi.minus(lo))), lo, hi, fraction),
{
    let extent = hi.minus(lo);
    let part = fraction.times(extent);
    let c = lo.plus(part);
    exact::law_minus_is_the_difference(hi, lo);
    exact::law_times_is_the_product(fraction, extent);
    exact::law_plus_is_the_sum(lo, part);
    assert(exact::is_difference(extent, hi, lo) && exact::is_product(part, fraction, extent));
    if placed_finitely(lo, hi, fraction) {
        let u = exact::unit();
        lemma_pow2_pos(149);
        exact::law_negated_is_the_opposite(lo);
        errors::law_sums_are_close(hi, lo.negated());
        errors::law_products_are_close(fraction, extent);
        errors::law_sums_are_close(lo, part);
        let (l, d, f) = (lo.value(), hi.value() - lo.value(), fraction.value());
        let (z, p, cv) = (extent.value(), part.value(), c.value());
        let a = z - d;
        let (sf, sa, sd) = (errors::size(f), errors::size(a), errors::size(d));
        let x = f * d;
        assert(f * z == x + f * a) by (nonlinear_arith)
            requires
                z == d + a,
                x == f * d,
        ;
        assert(0x100_0000 * (sf * sa) <= sf * sd) by (nonlinear_arith)
            requires
                0x100_0000 * sa <= sd,
                sf >= 0,
        ;
        crate::pan::lemma_size_of_product(f, a);
        crate::pan::lemma_size_of_product(f, d);
        assert(0x100_0000 * errors::size(f * a) <= errors::size(x));
        let b = cv - (l + p);
        assert(u * cv == u * l + u * p + u * b) by (nonlinear_arith)
            requires
                cv == l + p + b,
        ;
        let (sb, sl, sp) = (errors::size(b), errors::size(l), errors::size(p));
        crate::pan::lemma_size_of_product(u, b);
        crate::pan::lemma_size_of_product(u, p);
        assert(0x100_0000 * (u * sb) <= u * sl + u * sp) by (nonlinear_arith)
            requires
                0x100_0000 * sb <= sl + sp,
                u > 0,
        ;
        assert(u * sp <= 3 * errors::size(x) + u);
    }
}

/// Whether a corner lies at its fractions of a box.
pub open spec fn is_corner(c: Vec3, lo: Vec3, hi: Vec3, fraction: Vec3) -> bool {
    &&& is_placed(c.x, lo.x, hi.x, fraction.x)
    &&& is_placed(c.y, lo.y, hi.y, fraction.y)
    &&& is_placed(c.z, lo.z, hi.z, fraction.z)
}

/// A crop sets a box with both corners at their fractions of the scene bounds, shows exactly
/// the splats between them, as far as there are splats and any of them lies there, and leaves
/// all else as it was.
pub proof fn law_a_crop_lies_between_its_fractions(
    s: ViewerState,
    from: Vec3,
    to: Vec3,
    latest: Option<u32>,
)
    requires
        s.splat_means.len() <= 0x1_8000_0000,
    ensures
        ({
            let c = s.cropped_to(from, to, latest);
            &&& c == (ViewerState { crop: c.crop, cropped: c.cropped, ..s })
            &&& c.crop matches Some((lo, hi)) && {
                &&& is_corner(lo, s.scene_min, s.scene_max, from)
                &&& is_corner(hi, s.scene_min, s.scene_max, to)
                &&& c.cropped is Some <==> latest is Some && any_between(s.splat_means, lo, hi)
                &&& c.cropped matches Some(rows) ==> are_the_rows_between(
                    rows,
                    s.splat_means,
                    lo,
                    hi,
                )
            }
        }),
{
    let lo = state::at_fraction(s.scene_min, s.scene_max, from);
    let hi = state::at_fraction(s.scene_min, s.scene_max, to);
    let (a, b) = (s.scene_min, s.scene_max);
    lemma_placed(a.x, b.x, from.x);
    lemma_placed(a.y, b.y, from.y);
    lemma_placed(a.z, b.z, from.z);
    lemma_placed(a.x, b.x, to.x);
    lemma_placed(a.y, b.y, to.y);
    lemma_placed(a.z, b.z, to.z);
    law_the_rows_between_the_corners_are_kept(s.splat_means, lo, hi);
    let c = s.cropped_to(from, to, latest);
    assert(c.crop == Some((lo, hi)));
    assert(is_corner(lo, a, b, from) && is_corner(hi, a, b, to));
}

/// Whether a coordinate lies at a fraction of the extent or past it, by more than rounding.
pub open spec fn clearly_past(p: Scalar, lo: Scalar, hi: Scalar, fraction: Scalar) -> bool {
    0x100_0000 * (exact::unit() * p.value() - place(lo, hi, fraction)) > corner_slack(
        lo,
        hi,
        fraction,
    )
}

/// Whether a coordinate lies short of a fraction of the extent, by more than rounding.
pub open spec fn clearly_short(p: Scalar, lo: Scalar, hi: Scalar, fraction: Scalar) -> bool {
    0x100_0000 * (place(lo, hi, fraction) - exact::unit() * p.value()) > corner_slack(
        lo,
        hi,
        fraction,
    )
}

/// Along each axis, a splat clearly past the one fraction of the extent and clearly short of
/// the other lies between the corners, and one clearly short of the first or past the second
/// does not.
pub proof fn law_fractions_tell_what_is_between(
    p: Scalar,
    lo: Scalar,
    hi: Scalar,
    from: Scalar,
    to: Scalar,
    a: Scalar,
    b: Scalar,
)
    requires
        p.finite(),
        placed_finitely(lo, hi, from),
        placed_finitely(lo, hi, to),
        is_placed(a, lo, hi, from),
        is_placed(b, lo, hi, to),
    ensures
        clearly_past(p, lo, hi, from) ==> a.le(p),
        clearly_short(p, lo, hi, from) ==> !a.le(p),
        clearly_short(p, lo, hi, to) ==> p.le(b),
        clearly_past(p, lo, hi, to) ==> !p.le(b),
{
    scalar::lemma_orders();
    lemma_pow2_pos(149);
    let u = exact::unit();
    let (pv, av, bv) = (p.value(), a.value(), b.value());
    assert((u * pv > u * av ==> pv > av) && (u * pv < u * av ==> pv < av) && (u * pv < u * bv ==> pv
        < bv) && (u * pv > u * bv ==> pv > bv)) by (nonlinear_arith)
        requires
            u > 0,
    ;
}

proof fn lemma_bounds_of_more(means: Seq<Scalar>, more: Seq<Scalar>, n: nat)
    requires
        3 * n <= means.len(),
        means.len() <= more.len(),
        forall|i: int| 0 <= i < means.len() ==> more[i] == means[i],
    ensures
        scene::running_bounds(more, n) == scene::running_bounds(means, n),
    decreases n,
{
    if n > 0 {
        lemma_bounds_of_more(means, more, (n - 1) as nat);
        assert(scene::center_at(more, n - 1) == scene::center_at(means, n - 1));
    }
}

/// The bounds of one splat are that splat, each further one takes the place of a bound that it
/// exceeds or does not compare with, and coordinates past the last whole splat do not count.
pub proof fn law_bounds_grow_splat_by_splat(means: Seq<Scalar>, p: Vec3, rest: Seq<Scalar>)
    requires
        means.len() % 3 == 0,
        rest.len() < 3,
    ensures
        ({
            let more = means.push(p.x).push(p.y).push(p.z);
            let (lo, hi) = scene::bounds(more);
            let (a, b) = scene::bounds(means);
            &&& means.len() == 0 ==> lo == p && hi == p
            &&& means.len() > 0 ==> {
                &&& spatial::is_lesser(lo.x, a.x, p.x)
                &&& spatial::is_lesser(lo.y, a.y, p.y)
                &&& spatial::is_lesser(lo.z, a.z, p.z)
                &&& spatial::is_lesser(hi.x.negated(), b.x.negated(), p.x.negated())
                &&& spatial::is_lesser(hi.y.negated(), b.y.negated(), p.y.negated())
                &&& spatial::is_lesser(hi.z.negated(), b.z.negated(), p.z.negated())
            }
            &&& scene::bounds(more + rest) == scene::bounds(more)
        }),
{
    let more = means.push(p.x).push(p.y).push(p.z);
    let n = means.len() / 3;
    let (a, b) = scene::running_bounds(means, n);
    lemma_bounds_of_more(means, more, n);
    lemma_bounds_of_more(more, more + rest, n + 1);
    assert(scene::center_at(more, n as int) == p);
    assert(scene::running_bounds(more, n + 1) == (a.lesser(p), b.greater(p)));
    assert(scene::center_count(more + rest) == n + 1);
    spatial::law_lesser_and_greater(a, p);
    spatial::law_lesser_and_greater(b, p);
}

} // verus!
