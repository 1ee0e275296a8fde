//! What the viewer reads off the splat centers: scene bounds, the framing of a
//! freshly loaded scene, and the splats inside a crop box.
use vstd::prelude::*;
use crate::scalar::{HALF, MINUS_ONE, NEGATIVE_INFINITY, ONE, POSITIVE_INFINITY, Scalar};
use crate::vector::Vec3;

verus! {

/// Three quarters: half of the one and a half half-diagonals to stand back.
pub const STAND_BACK: u32 = 0x3f40_0000;

/// The center of a splat in a flat `[x, y, z, x, y, z, ..]` array.
pub open spec fn center_at(means: Seq<Scalar>, i: int) -> Vec3 {
    Vec3 { x: means[3 * i], y: means[3 * i + 1], z: means[3 * i + 2] }
}

/// The number of whole centers in a flat array.
pub open spec fn center_count(means: Seq<Scalar>) -> int {
    means.len() as int / 3
}

/// The center of a splat in a flat `[x, y, z, x, y, z, ..]` array.
pub fn center(means: &[Scalar], i: usize) -> (p: Vec3)
    requires
        i < center_count(means@),
    ensures
        p == center_at(means@, i as int),
{
    assert(3 * i + 2 < means.len());
    Vec3 { x: means[3 * i], y: means[3 * i + 1], z: means[3 * i + 2] }
}

/// The least and the greatest coordinates of the first `n` centers, where an
/// equal or incomparable later one takes the place of what went before.
pub open spec fn running_bounds(means: Seq<Scalar>, n: nat) -> (Vec3, Vec3)
    decreases n,
{
    if n == 0 {
        (
            Vec3::splat(Scalar { bits: POSITIVE_INFINITY }),
            Vec3::splat(Scalar { bits: NEGATIVE_INFINITY }),
        )
    } else {
        let (lo, hi) = running_bounds(means, (n - 1) as nat);
        let p = center_at(means, n - 1);
        (lo.lesser(p), hi.greater(p))
    }
}

/// The bounds of a scene; without a whole center, the cube from -1 to 1.
pub open spec fn bounds(means: Seq<Scalar>) -> (Vec3, Vec3) {
    if means.len() < 3 {
        (Vec3::splat(Scalar { bits: MINUS_ONE }), Vec3::splat(Scalar { bits: ONE }))
    } else {
        running_bounds(means, center_count(means) as nat)
    }
}

/// Axis-aligned bounds of a flat `[x, y, z, x, y, z, ..]` array of centers.
pub fn bounds_of_means(means: &[Scalar]) -> (r: (Vec3, Vec3))
    ensures
        r == bounds(means@),
{
    if means.len() < 3 {
        return (Vec3::splat(Scalar { bits: MINUS_ONE }), Vec3::splat(Scalar { bits: ONE }));
    }
    let n: usize = means.len() / 3;
    let mut lo = Vec3::splat(Scalar { bits: POSITIVE_INFINITY });
    let mut hi = Vec3::splat(Scalar { bits: NEGATIVE_INFINITY });
    for i in 0..n
        invariant
            n == center_count(means@),
            (lo, hi) == running_bounds(means@, i as nat),
    {
        let p = center(means, i);
        lo = lo.lesser(p);
        hi = hi.greater(p);
    }
    (lo, hi)
}

/// The least and the greatest coordinates of the first `n` centers, where only
/// a strictly lesser or greater later one takes the place of what went before.
pub open spec fn running_extent(means: Seq<Scalar>, n: nat) -> (Vec3, Vec3)
    decreases n,
{
    if n == 0 {
        (
            Vec3::splat(Scalar { bits: POSITIVE_INFINITY }),
            Vec3::splat(Scalar { bits: NEGATIVE_INFINITY }),
        )
    } else {
        let (lo, hi) = running_extent(means, (n - 1) as nat);
        let p = center_at(means, n - 1);
        (p.lesser(lo), p.greater(hi))
    }
}

/// The pivot and the distance that frame a scene: the middle of its extent, seen
/// from three quarters of its diagonal away, and never from closer than one half.
pub open spec fn framing(means: Seq<Scalar>) -> (Vec3, Scalar) {
    let (lo, hi) = running_extent(means, center_count(means) as nat);
    let pivot = lo.plus(hi).scaled(Scalar { bits: HALF });
    let diagonal = hi.minus(lo).length();
    (pivot, diagonal.times(Scalar { bits: STAND_BACK }).at_least(Scalar { bits: HALF }))
}

/// The pivot and the distance that frame a freshly loaded scene.
pub fn auto_fit(means: &[Scalar]) -> (r: (Vec3, Scalar))
    ensures
        r == framing(means@),
{
    let n: usize = means.len() / 3;
    let mut lo = Vec3::splat(Scalar { bits: POSITIVE_INFINITY });
    let mut hi = Vec3::splat(Scalar { bits: NEGATIVE_INFINITY });
    for i in 0..n
        invariant
            n == center_count(means@),
            (lo, hi) == running_extent(means@, i as nat),
    {
        let p = center(means, i);
        lo = p.lesser(lo);
        hi = p.greater(hi);
    }
    let pivot = lo.plus(hi).scaled(Scalar { bits: HALF });
    let diagonal = hi.minus(lo).length();
    (pivot, diagonal.times(Scalar { bits: STAND_BACK }).at_least(Scalar { bits: HALF }))
}

/// Whether a point lies in a closed box. A point or a box with a coordinate
/// that is no number never does.
pub open spec fn inside(p: Vec3, lo: Vec3, hi: Vec3) -> bool {
    &&& lo.x.le(p.x) && p.x.le(hi.x)
    &&& lo.y.le(p.y) && p.y.le(hi.y)
    &&& lo.z.le(p.z) && p.z.le(hi.z)
}

/// The rows, in ascending order, of those of the first `n` splats whose center
/// lies in the box.
pub open spec fn rows_inside(means: Seq<Scalar>, lo: Vec3, hi: Vec3, n: nat) -> Seq<i32>
    decreases n,
{
    if n == 0 {
        Seq::empty()
    } else {
        let rows = rows_inside(means, lo, hi, (n - 1) as nat);
        if inside(center_at(means, n - 1), lo, hi) {
            rows.push((n - 1) as i32)
        } else {
            rows
        }
    }
}

/// The rows of the splats whose center lies in the box.
pub open spec fn kept_rows(means: Seq<Scalar>, lo: Vec3, hi: Vec3) -> Seq<i32> {
    rows_inside(means, lo, hi, center_count(means) as nat)
}

/// Indices of the splats whose center lies inside the world-space box.
pub fn keep_indices_in_box(means: &[Scalar], wmin: Vec3, wmax: Vec3) -> (keep: Vec<i32>)
    ensures
        keep@ == kept_rows(means@, wmin, wmax),
{
    let n: usize = means.len() / 3;
    let mut keep: Vec<i32> = Vec::new();
    for i in 0..n
        invariant
            n == center_count(means@),
            keep@ == rows_inside(means@, wmin, wmax, i as nat),
    {
        let p = center(means, i);
        if wmin.x.le(p.x) && p.x.le(wmax.x) && wmin.y.le(p.y) && p.y.le(wmax.y) && wmin.z.le(p.z)
            && p.z.le(wmax.z) {
            keep.push(i as i32);
        }
    }
    keep
}

/// The rows that a crop keeps, or nothing where it excludes every splat.
pub open spec fn cropped_rows(means: Seq<Scalar>, lo: Vec3, hi: Vec3) -> Option<Seq<i32>> {
    let rows = kept_rows(means, lo, hi);
    if rows.len() == 0 {
        None
    } else {
        Some(rows)
    }
}

/// The rows to select for the splats inside the box, or nothing where the box
/// excludes every one.
pub fn crop_splats(means: &[Scalar], wmin: Vec3, wmax: Vec3) -> (rows: Option<Vec<i32>>)
    ensures
        rows is Some <==> cropped_rows(means@, wmin, wmax) is Some,
        rows matches Some(r) ==> cropped_rows(means@, wmin, wmax) == Some(r@),
{
    let keep = keep_indices_in_box(means, wmin, wmax);
    if keep.len() == 0 {
        None
    } else {
        Some(keep)
    }
}

proof fn lemma_rows_inside(means: Seq<Scalar>, lo: Vec3, hi: Vec3, n: nat)
    requires
        n <= 0x8000_0000,
    ensures
        ({
            let rows = rows_inside(means, lo, hi, n);
            &&& forall|k: int| #![trigger rows[k]]
                0 <= k < rows.len() ==> 0 <= rows[k] < n && inside(
                    center_at(means, rows[k] as int),
                    lo,
                    hi,
                )
            &&& forall|j: int, k: int| 0 <= j < k < rows.len() ==> rows[j] < rows[k]
            &&& forall|i: int|
                0 <= i < n && #[trigger] inside(center_at(means, i), lo, hi) ==> rows.contains(
                    i as i32,
                )
        }),
    decreases n,
{
    if n > 0 {
        lemma_rows_inside(means, lo, hi, (n - 1) as nat);
        let before = rows_inside(means, lo, hi, (n - 1) as nat);
        let rows = rows_inside(means, lo, hi, n);
        assert forall|i: int|
            0 <= i < n && #[trigger] inside(center_at(means, i), lo, hi) implies rows.contains(
            i as i32,
        ) by {
            if i == n - 1 {
                assert(rows[rows.len() - 1] == i as i32);
            } else {
                let k = choose|k: int| 0 <= k < before.len() && before[k] == i as i32;
                assert(rows[k] == i as i32);
            }
        }
    }
}

/// A crop keeps exactly the splats whose center lies in the box, each once and
/// in their order. (Rows are counted in 31 bits.)
pub proof fn law_crop_keeps_exactly_the_inside(means: Seq<Scalar>, lo: Vec3, hi: Vec3)
    requires
        center_count(means) <= 0x8000_0000,
    ensures
        ({
            let rows = kept_rows(means, lo, hi);
            &&& forall|i: int|
                0 <= i < center_count(means) ==> (#[trigger] rows.contains(i as i32) <==> inside(
                    center_at(means, i),
                    lo,
                    hi,
                ))
            &&& forall|k: int|
                0 <= k < rows.len() ==> 0 <= #[trigger] rows[k] < center_count(means)
            &&& forall|j: int, k: int| 0 <= j < k < rows.len() ==> rows[j] < rows[k]
        }),
{
    lemma_rows_inside(means, lo, hi, center_count(means) as nat);
}

/// Widening the box never loses a splat.
pub proof fn law_wider_box_keeps_more(
    means: Seq<Scalar>,
    lo: Vec3,
    hi: Vec3,
    wider_lo: Vec3,
    wider_hi: Vec3,
)
    requires
        center_count(means) <= 0x8000_0000,
        inside(lo, wider_lo, wider_hi),
        inside(hi, wider_lo, wider_hi),
    ensures
        forall|row: i32|
            kept_rows(means, lo, hi).contains(row) ==> #[trigger] kept_rows(
                means,
                wider_lo,
                wider_hi,
            ).contains(row),
{
    law_crop_keeps_exactly_the_inside(means, lo, hi);
    law_crop_keeps_exactly_the_inside(means, wider_lo, wider_hi);
    let rows = kept_rows(means, lo, hi);
    let wider = kept_rows(means, wider_lo, wider_hi);
    assert forall|row: i32| rows.contains(row) implies #[trigger] wider.contains(row) by {
        let k = choose|k: int| 0 <= k < rows.len() && rows[k] == row;
        assert(rows.contains(row as int as i32));
        assert(inside(center_at(means, row as int), lo, hi));
        assert(wider.contains(row as int as i32));
    }
}

/// Whether each coordinate of a box is that of one of the first `n` centers.
pub open spec fn attained(means: Seq<Scalar>, n: int, lo: Vec3, hi: Vec3) -> bool {
    &&& exists|i: int| 0 <= i < n && (#[trigger] center_at(means, i)).x == lo.x
    &&& exists|i: int| 0 <= i < n && (#[trigger] center_at(means, i)).y == lo.y
    &&& exists|i: int| 0 <= i < n && (#[trigger] center_at(means, i)).z == lo.z
    &&& exists|i: int| 0 <= i < n && (#[trigger] center_at(means, i)).x == hi.x
    &&& exists|i: int| 0 <= i < n && (#[trigger] center_at(means, i)).y == hi.y
    &&& exists|i: int| 0 <= i < n && (#[trigger] center_at(means, i)).z == hi.z
}

proof fn lemma_running_bounds(means: Seq<Scalar>, n: nat)
    requires
        n <= center_count(means),
        forall|i: int| 0 <= i < means.len() ==> !(#[trigger] means[i]).nan(),
    ensures
        ({
            let (lo, hi) = running_bounds(means, n);
            &&& !lo.x.nan() && !lo.y.nan() && !lo.z.nan()
            &&& !hi.x.nan() && !hi.y.nan() && !hi.z.nan()
            &&& forall|i: int| 0 <= i < n ==> #[trigger] inside(center_at(means, i), lo, hi)
            &&& n > 0 ==> attained(means, n as int, lo, hi)
        }),
    decreases n,
{
    if n > 0 {
        lemma_running_bounds(means, (n - 1) as nat);
        let (a, b) = running_bounds(means, (n - 1) as nat);
        let (lo, hi) = running_bounds(means, n);
        let p = center_at(means, n - 1);
        assert(!p.x.nan() && !p.y.nan() && !p.z.nan());
        assert forall|i: int| 0 <= i < n implies #[trigger] inside(
            center_at(means, i),
            lo,
            hi,
        ) by {
            let q = center_at(means, i);
            assert(!q.x.nan() && !q.y.nan() && !q.z.nan());
            if i < n - 1 {
                assert(inside(q, a, b));
            }
        }
    }
}

/// The bounds of a scene without a coordinate that is no number hold every
/// splat, so that cropping to them loses none, and are no wider than they need be.
pub proof fn law_bounds_hold_every_splat(means: Seq<Scalar>)
    requires
        forall|i: int| 0 <= i < means.len() ==> !(#[trigger] means[i]).nan(),
    ensures
        ({
            let (lo, hi) = bounds(means);
            &&& forall|i: int|
                0 <= i < center_count(means) ==> #[trigger] inside(center_at(means, i), lo, hi)
            &&& center_count(means) > 0 ==> attained(means, center_count(means), lo, hi)
            &&& center_count(means) <= 0x8000_0000 ==> forall|i: int|
                0 <= i < center_count(means) ==> #[trigger] kept_rows(means, lo, hi).contains(
                    i as i32,
                )
        }),
{
    let (lo, hi) = bounds(means);
    if means.len() >= 3 {
        lemma_running_bounds(means, center_count(means) as nat);
    }
    if center_count(means) <= 0x8000_0000 {
        law_crop_keeps_exactly_the_inside(means, lo, hi);
        assert forall|i: int| 0 <= i < center_count(means) implies #[trigger] kept_rows(
            means,
            lo,
            hi,
        ).contains(i as i32) by {
            assert(inside(center_at(means, i), lo, hi));
        }
    }
}

/// Whether two numbers are the same but for the sign of a zero.
pub open spec fn same_number(a: Scalar, b: Scalar) -> bool {
    a.le(b) && b.le(a)
}

/// Whether two points are the same but for the signs of zeros.
pub open spec fn same_point(p: Vec3, q: Vec3) -> bool {
    same_number(p.x, q.x) && same_number(p.y, q.y) && same_number(p.z, q.z)
}

proof fn lemma_running_extent(means: Seq<Scalar>, n: nat)
    requires
        n <= center_count(means),
        forall|i: int| 0 <= i < means.len() ==> !(#[trigger] means[i]).nan(),
    ensures
        same_point(running_extent(means, n).0, running_bounds(means, n).0),
        same_point(running_extent(means, n).1, running_bounds(means, n).1),
    decreases n,
{
    if n > 0 {
        lemma_running_extent(means, (n - 1) as nat);
        let p = center_at(means, n - 1);
        assert(!p.x.nan() && !p.y.nan() && !p.z.nan());
    }
}

/// The extent that frames a scene without a coordinate that is no number has the
/// corners of its bounds: it holds every splat and is no wider than it need be.
pub proof fn law_extent_is_that_of_the_bounds(means: Seq<Scalar>)
    requires
        center_count(means) > 0,
        forall|i: int| 0 <= i < means.len() ==> !(#[trigger] means[i]).nan(),
    ensures
        ({
            let (lo, hi) = running_extent(means, center_count(means) as nat);
            &&& same_point(lo, bounds(means).0)
            &&& same_point(hi, bounds(means).1)
            &&& forall|i: int|
                0 <= i < center_count(means) ==> #[trigger] inside(center_at(means, i), lo, hi)
        }),
{
    let (lo, hi) = running_extent(means, center_count(means) as nat);
    lemma_running_extent(means, center_count(means) as nat);
    law_bounds_hold_every_splat(means);
    assert forall|i: int| 0 <= i < center_count(means) implies #[trigger] inside(
        center_at(means, i),
        lo,
        hi,
    ) by {
        assert(inside(center_at(means, i), bounds(means).0, bounds(means).1));
    }
}

} // verus!
