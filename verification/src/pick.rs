//! Finding the point under a click.
use vstd::prelude::*;
use crate::orbit;
use crate::orbit::OrbitCamera;
use crate::scalar::{HALF, ONE, POSITIVE_INFINITY, Scalar, TWO};
use crate::scene;
use crate::vector::Vec3;

verus! {

/// Six, the tolerance of a click in pixels.
pub const TOLERANCE: u32 = 0x40c0_0000;

/// 0.01, the depth from which on a splat lies in front of the camera.
pub const NEAR: u32 = 0x3c23_d70a;

/// A pixel coordinate mapped to -1 at the near edge and 1 at the far edge.
pub open spec fn device_coordinate(pixel: Scalar, size: Scalar) -> Scalar {
    pixel.plus(Scalar { bits: HALF }).over(size).times(Scalar { bits: TWO }).minus(
        Scalar { bits: ONE },
    )
}

/// The camera-space direction through a pixel, +X right, +Y down, +Z forward.
pub open spec fn ray_through(
    px: Scalar,
    py: Scalar,
    width: u32,
    height: u32,
    tan_half_fov: Scalar,
) -> Vec3 {
    let w = Scalar::from_u32(orbit::at_least_one(width));
    let h = Scalar::from_u32(orbit::at_least_one(height));
    (Vec3 {
        x: device_coordinate(px, w).times(w.over(h).times(tan_half_fov)),
        y: device_coordinate(py, h).times(tan_half_fov),
        z: Scalar { bits: ONE },
    }).normalized()
}

fn to_device(pixel: Scalar, size: Scalar) -> (r: Scalar)
    ensures
        r == device_coordinate(pixel, size),
{
    pixel.plus(Scalar { bits: HALF }).over(size).times(Scalar { bits: TWO }).minus(
        Scalar { bits: ONE },
    )
}

/// The camera-space direction through a pixel, counted from the top left, given
/// the tangent of half the vertical field of view.
pub fn pixel_ray(
    px: Scalar,
    py: Scalar,
    width: u32,
    height: u32,
    tan_half_fov: Scalar,
) -> (r: Vec3)
    ensures
        r == ray_through(px, py, width, height, tan_half_fov),
{
    let w = Scalar::from_u32(orbit::pixels(width));
    let h = Scalar::from_u32(orbit::pixels(height));
    let ray = Vec3 {
        x: to_device(px, w).times(w.over(h).times(tan_half_fov)),
        y: to_device(py, h).times(tan_half_fov),
        z: Scalar { bits: ONE },
    };
    ray.normalized()
}

/// A ray from the eye, and the radius of its tolerance at depth one.
#[derive(Clone, Copy, PartialEq, Eq, Structural, Debug)]
pub struct Ray {
    pub origin: Vec3,
    pub dir: Vec3,
    pub cone: Scalar,
}

/// The closest splats that a scan has met so far.
#[derive(Clone, Copy, PartialEq, Eq, Structural, Debug)]
pub struct Scan {
    /// The least depth among the splats within the tolerance.
    pub best: Option<Scalar>,
    /// The depth of the splat nearest to the ray among the others.
    pub fallback: Option<Scalar>,
    /// How far that one misses the ray.
    pub miss: Scalar,
}

impl Ray {
    pub open spec fn spec_depth(self, p: Vec3) -> Scalar {
        p.minus(self.origin).dot(self.dir)
    }

    /// How far along the ray a point lies.
    #[verifier::when_used_as_spec(spec_depth)]
    pub fn depth(self, p: Vec3) -> (r: Scalar)
        ensures
            r == self.depth(p),
    {
        p.minus(self.origin).dot(self.dir)
    }

    pub open spec fn spec_miss(self, p: Vec3) -> Scalar {
        p.minus(self.origin).minus(self.dir.scaled(self.spec_depth(p))).length()
    }

    /// How far from the ray a point lies.
    #[verifier::when_used_as_spec(spec_miss)]
    pub fn miss(self, p: Vec3) -> (r: Scalar)
        ensures
            r == self.miss(p),
    {
        p.minus(self.origin).minus(self.dir.scaled(self.depth(p))).length()
    }

    /// Whether a point lies in front of the camera.
    pub open spec fn ahead(self, p: Vec3) -> bool {
        !self.depth(p).le(Scalar { bits: NEAR })
    }

    /// Whether a point lies in front of the camera and within the tolerance.
    pub open spec fn hits(self, p: Vec3) -> bool {
        self.ahead(p) && self.miss(p).lt(self.depth(p).times(self.cone))
    }

    /// Whether a point lies in front of the camera, past the tolerance, and at a
    /// finite distance from the ray.
    pub open spec fn passes(self, p: Vec3) -> bool {
        self.ahead(p) && !self.hits(p) && self.miss(p).lt(
            Scalar { bits: POSITIVE_INFINITY },
        )
    }
}

impl Scan {
    pub open spec fn empty() -> Scan {
        Scan { best: None, fallback: None, miss: Scalar { bits: POSITIVE_INFINITY } }
    }

    /// The scan after one more splat.
    pub open spec fn then_splat(self, ray: Ray, p: Vec3) -> Scan {
        let t = ray.depth(p);
        if !ray.ahead(p) {
            self
        } else if ray.hits(p) {
            if self.best is None || t.lt(self.best->0) {
                Scan { best: Some(t), ..self }
            } else {
                self
            }
        } else if ray.miss(p).lt(self.miss) {
            Scan { fallback: Some(t), miss: ray.miss(p), ..self }
        } else {
            self
        }
    }

    /// The depth to pick: of the front-most splat within the tolerance, else of
    /// the one nearest to the ray, else the given one.
    pub open spec fn depth_or(self, distance: Scalar) -> Scalar {
        match self.best {
            Some(t) => t,
            None => match self.fallback {
                Some(t) => t,
                None => distance,
            },
        }
    }
}

/// The scan of the first `n` splats.
pub open spec fn scan_of(ray: Ray, means: Seq<Scalar>, n: nat) -> Scan
    decreases n,
{
    if n == 0 {
        Scan::empty()
    } else {
        scan_of(ray, means, (n - 1) as nat).then_splat(ray, scene::center_at(means, n - 1))
    }
}

/// The depth along the ray of the surface under a click.
pub open spec fn picked_depth(ray: Ray, means: Seq<Scalar>, distance: Scalar) -> Scalar {
    scan_of(ray, means, scene::center_count(means) as nat).depth_or(distance)
}

/// The depth along the ray of the surface under a click, or the given distance
/// where no splat lies in front of the camera.
pub fn pick_depth(ray: Ray, means: &[Scalar], distance: Scalar) -> (t: Scalar)
    ensures
        t == picked_depth(ray, means@, distance),
{
    let n: usize = means.len() / 3;
    let mut best: Option<Scalar> = None;
    let mut fallback: Option<Scalar> = None;
    let mut closest_miss = Scalar { bits: POSITIVE_INFINITY };
    for i in 0..n
        invariant
            n == scene::center_count(means@),
            scan_of(ray, means@, i as nat) == (Scan { best, fallback, miss: closest_miss }),
    {
        let p = scene::center(means, i);
        let t = ray.depth(p);
        if !t.le(Scalar { bits: NEAR }) {
            let miss = ray.miss(p);
            if miss.lt(t.times(ray.cone)) {
                let closer: bool = match best {
                    None => true,
                    Some(b) => t.lt(b),
                };
                if closer {
                    best = Some(t);
                }
            } else if miss.lt(closest_miss) {
                closest_miss = miss;
                fallback = Some(t);
            }
        }
    }
    match best {
        Some(t) => t,
        None => match fallback {
            Some(t) => t,
            None => distance,
        },
    }
}

/// What a click picks: where the eye stands, the direction to look, and the point.
#[derive(Clone, Copy, PartialEq, Eq, Structural, Debug)]
pub struct Pick {
    pub origin: Vec3,
    pub dir: Vec3,
    pub depth: Scalar,
    pub point: Vec3,
}

/// The tolerance of a click at depth one: what six pixels span there.
pub open spec fn click_cone(height: u32, tan_half_fov: Scalar) -> Scalar {
    (Scalar { bits: TWO }).times(tan_half_fov).over(
        Scalar::from_u32(orbit::at_least_one(height)),
    ).times(Scalar { bits: TOLERANCE })
}

/// What a click along a world-space direction picks.
pub open spec fn picked(
    camera: OrbitCamera,
    height: u32,
    means: Seq<Scalar>,
    forward: Vec3,
    world_ray: Vec3,
    tan_half_fov: Scalar,
) -> Pick {
    let ray = Ray {
        origin: camera.eye(forward),
        dir: world_ray.normalized(),
        cone: click_cone(height, tan_half_fov),
    };
    let depth = picked_depth(ray, means, camera.distance);
    Pick {
        origin: ray.origin,
        dir: ray.dir,
        depth,
        point: ray.origin.plus(ray.dir.scaled(depth)),
    }
}

/// What a click picks, when the camera looks along `forward` and the pixel lies
/// in the world-space direction `world_ray`.
pub fn pick(
    camera: OrbitCamera,
    height: u32,
    means: &[Scalar],
    forward: Vec3,
    world_ray: Vec3,
    tan_half_fov: Scalar,
) -> (r: Pick)
    ensures
        r == picked(camera, height, means@, forward, world_ray, tan_half_fov),
{
    let two = Scalar { bits: TWO };
    let h = Scalar::from_u32(orbit::pixels(height));
    let ray = Ray {
        origin: camera.eye(forward),
        dir: world_ray.normalized(),
        cone: two.times(tan_half_fov).over(h).times(Scalar { bits: TOLERANCE }),
    };
    let depth = pick_depth(ray, means, camera.distance);
    Pick {
        origin: ray.origin,
        dir: ray.dir,
        depth,
        point: ray.origin.plus(ray.dir.scaled(depth)),
    }
}

impl Pick {
    pub open spec fn spec_yaw_legs(self) -> (Scalar, Scalar) {
        (self.dir.x.spec_negated(), self.dir.z)
    }

    /// The sine and cosine, up to a common factor, of the yaw that looks along
    /// the picked direction.
    #[verifier::when_used_as_spec(spec_yaw_legs)]
    pub fn yaw_legs(self) -> (r: (Scalar, Scalar))
        ensures
            r == self.yaw_legs(),
            r == (self.dir.x.negated(), self.dir.z),
    {
        (self.dir.x.negated(), self.dir.z)
    }

    pub open spec fn spec_pitch_sine(self) -> Scalar {
        self.dir.y.spec_negated()
    }

    /// The sine of the pitch that looks along the picked direction.
    #[verifier::when_used_as_spec(spec_pitch_sine)]
    pub fn pitch_sine(self) -> (r: Scalar)
        ensures
            r == self.pitch_sine(),
            r == self.dir.y.negated(),
    {
        self.dir.y.negated()
    }
}

/// Whether a splat passes the ray, and every earlier one that does misses by more.
pub open spec fn first_pass(ray: Ray, means: Seq<Scalar>, p: Vec3, i: int) -> bool {
    &&& ray.passes(p)
    &&& forall|j: int|
        0 <= j < i && ray.passes(#[trigger] scene::center_at(means, j)) ==> ray.miss(p).lt(
            ray.miss(scene::center_at(means, j)),
        )
}

proof fn lemma_scan(ray: Ray, means: Seq<Scalar>, n: nat)
    ensures
        ({
            let s = scan_of(ray, means, n);
            &&& s.best is None ==> forall|i: int|
                0 <= i < n ==> !ray.hits(#[trigger] scene::center_at(means, i))
            &&& s.best matches Some(b) ==> {
                &&& exists|i: int|
                    0 <= i < n && ray.hits(#[trigger] scene::center_at(means, i)) && b == ray.depth(
                        scene::center_at(means, i),
                    )
                &&& forall|i: int|
                    0 <= i < n && ray.hits(#[trigger] scene::center_at(means, i)) ==> !ray.depth(
                        scene::center_at(means, i),
                    ).lt(b)
            }
            &&& s.fallback is None ==> s.miss == Scan::empty().miss && forall|i: int|
                0 <= i < n ==> !ray.passes(#[trigger] scene::center_at(means, i))
            &&& s.fallback matches Some(b) ==> {
                &&& exists|i: int|
                    0 <= i < n && first_pass(ray, means, #[trigger] scene::center_at(means, i), i)
                        && b == ray.depth(scene::center_at(means, i)) && s.miss == ray.miss(
                        scene::center_at(means, i),
                    )
                &&& forall|i: int|
                    0 <= i < n && ray.passes(#[trigger] scene::center_at(means, i)) ==> !ray.miss(
                        scene::center_at(means, i),
                    ).lt(s.miss)
            }
        }),
    decreases n,
{
    if n > 0 {
        lemma_scan(ray, means, (n - 1) as nat);
        let p = scene::center_at(means, n - 1);
        let before = scan_of(ray, means, (n - 1) as nat);
        let s = scan_of(ray, means, n);
        assert(s == before.then_splat(ray, p));
        if s.best != before.best {
            assert(ray.hits(scene::center_at(means, n - 1)));
        }
        if s.fallback != before.fallback || s.miss != before.miss {
            assert(first_pass(ray, means, scene::center_at(means, n - 1), n - 1));
        }
    }
}

/// A click lands on the front-most splat within the tolerance of the ray; where
/// there is none, on the depth of the first of the splats ahead that miss the ray by
/// least; and where none lies ahead, at the current viewing distance.
pub proof fn law_click_lands_on_the_front_most(ray: Ray, means: Seq<Scalar>, distance: Scalar)
    ensures
        ({
            let t = picked_depth(ray, means, distance);
            let n = scene::center_count(means);
            let hit = exists|i: int| 0 <= i < n && ray.hits(#[trigger] scene::center_at(means, i));
            let pass = exists|i: int|
                0 <= i < n && ray.passes(#[trigger] scene::center_at(means, i));
            &&& hit ==> {
                &&& exists|i: int|
                    0 <= i < n && ray.hits(#[trigger] scene::center_at(means, i)) && t == ray.depth(
                        scene::center_at(means, i),
                    )
                &&& forall|i: int|
                    0 <= i < n && ray.hits(#[trigger] scene::center_at(means, i)) ==> !ray.depth(
                        scene::center_at(means, i),
                    ).lt(t)
            }
            &&& !hit && pass ==> exists|i: int|
                {
                    &&& 0 <= i < n
                    &&& first_pass(ray, means, #[trigger] scene::center_at(means, i), i)
                    &&& t == ray.depth(scene::center_at(means, i))
                    &&& forall|j: int|
                        0 <= j < n && ray.passes(#[trigger] scene::center_at(means, j))
                            ==> !ray.miss(scene::center_at(means, j)).lt(
                            ray.miss(scene::center_at(means, i)),
                        )
                }
            &&& !hit && !pass ==> t == distance
        }),
{
    lemma_scan(ray, means, scene::center_count(means) as nat);
}

/// A point at no depth misses a ray by no number.
proof fn lemma_miss_needs_a_depth(ray: Ray, p: Vec3)
    requires
        ray.depth(p).nan(),
    ensures
        ray.miss(p).nan(),
{
    reveal(Scalar::spec_times);
    reveal(Scalar::spec_plus);
    reveal(Scalar::spec_root);
}

/// What a click picks is never closer than the closest that a camera comes.
pub proof fn lemma_picks_keep_their_distance(ray: Ray, means: Seq<Scalar>, distance: Scalar)
    requires
        (Scalar { bits: orbit::CLOSEST }).le(distance),
    ensures
        (Scalar { bits: orbit::CLOSEST }).le(picked_depth(ray, means, distance)),
{
    let t = picked_depth(ray, means, distance);
    law_click_lands_on_the_front_most(ray, means, distance);
    if t != distance {
        let i = choose|i: int|
            {
                &&& 0 <= i < scene::center_count(means)
                &&& (ray.hits(#[trigger] scene::center_at(means, i)) || ray.passes(
                    scene::center_at(means, i),
                ))
                &&& t == ray.depth(scene::center_at(means, i))
            };
        let p = scene::center_at(means, i);
        if t.nan() {
            lemma_miss_needs_a_depth(ray, p);
        }
    }
}

} // verus!
