//! The viewer's state as a mathematical value, and what each operation makes of it.
use vstd::prelude::*;
use crate::orbit;
use crate::orbit::{Basis, OrbitCamera};
use crate::pick::Pick;
use crate::scalar::{HALF, ONE, Scalar, TWO, ZERO};
use crate::scene;
use crate::vector::Vec3;

verus! {

/// Pi over 180, the radians in a degree.
pub const RADIANS_PER_DEGREE: u32 = 0x3c8e_fa35;

/// A tenth, the part of the distance that one zoom step takes.
pub const ZOOM_STEP: u32 = 0x3dcc_cccd;

/// 0.2, each component of the background before it is set.
pub const DEFAULT_GRAY: u32 = 0x3e4c_cccd;

pub const DEFAULT_WIDTH: u32 = 800;
pub const DEFAULT_HEIGHT: u32 = 600;

/// The state of a viewer.
pub struct ViewerState {
    pub orbit: OrbitCamera,
    pub background: Vec3,
    /// The splat scale, where one was set.
    pub splat_scale: Option<Scalar>,
    pub width: u32,
    pub height: u32,
    /// Splat centers `[x, y, z, ..]`, cached at load.
    pub splat_means: Seq<Scalar>,
    /// The pivot and the distance of the home view.
    pub home_center: Vec3,
    pub home_distance: Scalar,
    /// Whether anti-aliasing is on.
    pub mip: bool,
    pub scene_min: Vec3,
    pub scene_max: Vec3,
    /// The active crop box in world coordinates.
    pub crop: Option<(Vec3, Vec3)>,
    /// The rows of the splats in the crop box, where there are any to show.
    pub cropped: Option<Seq<i32>>,
}

/// Which splats a viewer shows.
#[derive(Clone, Copy, PartialEq, Eq, Structural, Debug)]
pub enum SplatSource {
    /// All splats of the latest view.
    Full,
    /// The splats of the cropped rows.
    Cropped,
}

/// Whether the centers of the latest splats are worth reading back: only where
/// there is a splat.
pub open spec fn has_centers(latest: Option<u32>) -> bool {
    latest matches Some(n) && n > 0
}

/// The world-space point at fractions of the scene bounds.
pub open spec fn at_fraction(lo: Vec3, hi: Vec3, fraction: Vec3) -> Vec3 {
    lo.plus(fraction.times(hi.minus(lo)))
}

/// World units spanned by one pixel at the pivot.
pub open spec fn world_per_pixel(camera: OrbitCamera, height: u32, tan_half_fov: Scalar) -> Scalar {
    (Scalar { bits: TWO }).times(camera.distance).times(tan_half_fov).over(
        Scalar::from_u32(orbit::at_least_one(height)),
    )
}

impl ViewerState {
    /// What holds of every viewer.
    pub open spec fn wf(self) -> bool {
        &&& self.width >= 1
        &&& self.height >= 1
        &&& self.orbit.keeps_distance()
        &&& (Scalar { bits: HALF }).le(self.home_distance)
        &&& (self.scene_min, self.scene_max) == scene::bounds(self.splat_means)
        &&& self.splat_scale matches Some(s) ==> !s.le(Scalar { bits: ZERO })
        &&& match self.crop {
            None => self.cropped is None,
            Some((lo, hi)) => self.cropped is None || self.cropped == scene::cropped_rows(
                self.splat_means,
                lo,
                hi,
            ),
        }
    }

    /// A viewer of a freshly loaded scene, framed where its centers are known.
    pub open spec fn created(latest: Option<u32>, means: Option<Seq<Scalar>>) -> ViewerState {
        let known = has_centers(latest) && means is Some;
        let centers: Seq<Scalar> = if known {
            means->0
        } else {
            Seq::empty()
        };
        let (pivot, distance) = if known {
            scene::framing(centers)
        } else {
            (OrbitCamera::initial().center, OrbitCamera::initial().distance)
        };
        let (lo, hi) = scene::bounds(centers);
        ViewerState {
            orbit: OrbitCamera { center: pivot, distance, ..OrbitCamera::initial() },
            background: Vec3::splat(Scalar { bits: DEFAULT_GRAY }),
            splat_scale: None,
            width: DEFAULT_WIDTH,
            height: DEFAULT_HEIGHT,
            splat_means: centers,
            home_center: pivot,
            home_distance: distance,
            mip: true,
            scene_min: lo,
            scene_max: hi,
            crop: None,
            cropped: None,
        }
    }

    pub open spec fn sized(self, width: u32, height: u32) -> ViewerState {
        ViewerState {
            width: orbit::at_least_one(width),
            height: orbit::at_least_one(height),
            ..self
        }
    }

    pub open spec fn with_fov(self, degrees: Scalar) -> ViewerState {
        ViewerState {
            orbit: OrbitCamera {
                fov_y: degrees.times(Scalar { bits: RADIANS_PER_DEGREE }),
                ..self.orbit
            },
            ..self
        }
    }

    pub open spec fn orbited(self, dx: Scalar, dy: Scalar) -> ViewerState {
        ViewerState {
            orbit: OrbitCamera {
                yaw: self.orbit.yaw.plus(dx),
                pitch: self.orbit.pitch.plus(dy),
                ..self.orbit
            },
            ..self
        }
    }

    /// The pivot moved against a drag of so many pixels to the right and up.
    pub open spec fn panned(
        self,
        dx: Scalar,
        dy: Scalar,
        basis: Basis,
        tan_half_fov: Scalar,
    ) -> ViewerState {
        let scale = world_per_pixel(self.orbit, self.height, tan_half_fov);
        let shift = basis.right.scaled(dx.times(scale)).plus(basis.up.scaled(dy.times(scale)));
        ViewerState {
            orbit: OrbitCamera { center: self.orbit.center.minus(shift), ..self.orbit },
            ..self
        }
    }

    /// The camera turned to a picked point, which becomes the pivot.
    pub open spec fn recentered(self, pick: Pick, yaw: Scalar, pitch: Scalar) -> ViewerState {
        ViewerState {
            orbit: OrbitCamera {
                center: pick.point,
                distance: pick.depth.at_least(Scalar { bits: orbit::CLOSEST }),
                yaw,
                pitch,
                ..self.orbit
            },
            ..self
        }
    }

    /// The camera a tenth of its distance closer per step, up to the closest.
    pub open spec fn zoomed(self, delta: Scalar) -> ViewerState {
        let kept = (Scalar { bits: ONE }).minus(
            delta.times(Scalar { bits: ZOOM_STEP }),
        );
        ViewerState {
            orbit: OrbitCamera {
                distance: self.orbit.distance.times(kept).at_least(
                    Scalar { bits: orbit::CLOSEST },
                ),
                ..self.orbit
            },
            ..self
        }
    }

    /// The camera back at its home view, with its field of view as it is.
    pub open spec fn at_home(self) -> ViewerState {
        ViewerState {
            orbit: OrbitCamera {
                center: self.home_center,
                distance: self.home_distance,
                yaw: Scalar { bits: orbit::HOME_YAW },
                pitch: Scalar { bits: orbit::HOME_PITCH },
                ..self.orbit
            },
            ..self
        }
    }

    pub open spec fn with_background(self, background: Vec3) -> ViewerState {
        ViewerState { background, ..self }
    }

    pub open spec fn with_mip(self, mip: bool) -> ViewerState {
        ViewerState { mip, ..self }
    }

    /// The splat scale, where it is not zero or less.
    pub open spec fn with_splat_scale(self, scale: Scalar) -> ViewerState {
        ViewerState {
            splat_scale: if scale.le(Scalar { bits: ZERO }) {
                None
            } else {
                Some(scale)
            },
            ..self
        }
    }

    /// Cropped to a box between fractions of the scene bounds; without splats
    /// there is nothing to show.
    pub open spec fn cropped_to(
        self,
        from: Vec3,
        to: Vec3,
        latest: Option<u32>,
    ) -> ViewerState {
        let lo = at_fraction(self.scene_min, self.scene_max, from);
        let hi = at_fraction(self.scene_min, self.scene_max, to);
        ViewerState {
            crop: Some((lo, hi)),
            cropped: if latest is Some {
                scene::cropped_rows(self.splat_means, lo, hi)
            } else {
                None
            },
            ..self
        }
    }

    pub open spec fn uncropped(self) -> ViewerState {
        ViewerState { crop: None, cropped: None, ..self }
    }

    /// The splats to show: those of an active crop, else all of the latest view.
    pub open spec fn shown(self, latest: Option<u32>) -> Option<SplatSource> {
        if self.crop is Some {
            if self.cropped is Some {
                Some(SplatSource::Cropped)
            } else {
                None
            }
        } else if latest is Some {
            Some(SplatSource::Full)
        } else {
            None
        }
    }
}

} // verus!
