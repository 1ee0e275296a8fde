//! The orbit camera: a pivot, a distance and two angles.
use vstd::prelude::*;
use crate::scalar::{HALF, Scalar, ZERO};
use crate::vector::Vec3;

verus! {

/// The home yaw, 0.6 radians (about 34 degrees around), so that scenes do not
/// open dead-on.
pub const HOME_YAW: u32 = 0x3f19_999a;

/// The home pitch, 0.45 radians (about 26 degrees looking down).
pub const HOME_PITCH: u32 = 0x3ee6_6666;

/// Three, the distance before a scene has been framed.
pub const DEFAULT_DISTANCE: u32 = 0x4040_0000;

/// Sixty degrees, in radians.
pub const DEFAULT_FOV_Y: u32 = 0x3f86_0a92;

/// Pi over two less 0.01: the steepest pitch that a camera takes, either way.
pub const STEEPEST_PITCH: u32 = 0x3fc7_c82d;
pub const STEEPEST_PITCH_DOWN: u32 = 0xbfc7_c82d;

/// 0.01, the closest that the camera comes to its pivot.
pub const CLOSEST: u32 = 0x3c23_d70a;

/// Orbit-style camera state; the position follows from angles, distance and pivot.
#[derive(Clone, Copy, PartialEq, Eq, Structural, Debug)]
pub struct OrbitCamera {
    pub center: Vec3,
    pub distance: Scalar,
    pub yaw: Scalar,
    pub pitch: Scalar,
    pub fov_y: Scalar,
}

/// World-space directions of a camera: its right, its visual up and the way it looks.
#[derive(Clone, Copy, PartialEq, Eq, Structural, Debug)]
pub struct Basis {
    pub right: Vec3,
    pub up: Vec3,
    pub forward: Vec3,
}

/// Where a camera stands and what it takes in. The horizontal field of view is
/// the one that fills `width` pixels when `fov_y` fills `height` of them.
#[derive(Clone, Copy, PartialEq, Eq, Structural, Debug)]
pub struct Camera {
    pub position: Vec3,
    pub fov_y: Scalar,
    pub width: u32,
    pub height: u32,
    pub center_u: Scalar,
    pub center_v: Scalar,
}

/// A size that is at least one pixel.
pub open spec fn at_least_one(n: u32) -> u32 {
    if n == 0 {
        1
    } else {
        n
    }
}

pub fn pixels(n: u32) -> (r: u32)
    ensures
        r == at_least_one(n),
        r >= 1,
{
    if n == 0 {
        1
    } else {
        n
    }
}

impl OrbitCamera {
    pub open spec fn initial() -> OrbitCamera {
        OrbitCamera {
            center: Vec3::splat(Scalar { bits: ZERO }),
            distance: Scalar { bits: DEFAULT_DISTANCE },
            yaw: Scalar { bits: HOME_YAW },
            pitch: Scalar { bits: HOME_PITCH },
            fov_y: Scalar { bits: DEFAULT_FOV_Y },
        }
    }

    pub fn new() -> (r: OrbitCamera)
        ensures
            r == OrbitCamera::initial(),
    {
        OrbitCamera {
            center: Vec3::splat(Scalar { bits: ZERO }),
            distance: Scalar { bits: DEFAULT_DISTANCE },
            yaw: Scalar { bits: HOME_YAW },
            pitch: Scalar { bits: HOME_PITCH },
            fov_y: Scalar { bits: DEFAULT_FOV_Y },
        }
    }

    pub open spec fn spec_camera_pitch(self) -> Scalar {
        self.pitch.clamped(
            Scalar { bits: STEEPEST_PITCH_DOWN },
            Scalar { bits: STEEPEST_PITCH },
        )
    }

    /// The pitch that the camera takes: short of straight up and straight down.
    #[verifier::when_used_as_spec(spec_camera_pitch)]
    pub fn camera_pitch(self) -> (r: Scalar)
        ensures
            r == self.camera_pitch(),
    {
        self.pitch.clamped(Scalar { bits: STEEPEST_PITCH_DOWN }, Scalar { bits: STEEPEST_PITCH })
    }

    pub open spec fn spec_half_fov(self) -> Scalar {
        self.fov_y.times(Scalar { bits: HALF })
    }

    /// Half the vertical field of view.
    #[verifier::when_used_as_spec(spec_half_fov)]
    pub fn half_fov(self) -> (r: Scalar)
        ensures
            r == self.half_fov(),
    {
        self.fov_y.times(Scalar { bits: HALF })
    }

    pub open spec fn spec_eye(self, forward: Vec3) -> Vec3 {
        self.center.minus(forward.scaled(self.distance))
    }

    /// The position of a camera that looks along `forward` at the pivot.
    #[verifier::when_used_as_spec(spec_eye)]
    pub fn eye(self, forward: Vec3) -> (r: Vec3)
        ensures
            r == self.eye(forward),
    {
        self.center.minus(forward.scaled(self.distance))
    }

    pub open spec fn spec_to_camera(self, forward: Vec3, width: u32, height: u32) -> Camera {
        Camera {
            position: self.eye(forward),
            fov_y: self.fov_y,
            width: at_least_one(width),
            height: at_least_one(height),
            center_u: Scalar { bits: HALF },
            center_v: Scalar { bits: HALF },
        }
    }

    /// The camera for a frame of the given size, when its angles make it look
    /// along `forward`.
    #[verifier::when_used_as_spec(spec_to_camera)]
    pub fn to_camera(self, forward: Vec3, width: u32, height: u32) -> (r: Camera)
        ensures
            r == self.to_camera(forward, width, height),
            r == (Camera {
                position: self.eye(forward),
                fov_y: self.fov_y,
                width: at_least_one(width),
                height: at_least_one(height),
                center_u: Scalar { bits: HALF },
                center_v: Scalar { bits: HALF },
            }),
    {
        Camera {
            position: self.eye(forward),
            fov_y: self.fov_y,
            width: pixels(width),
            height: pixels(height),
            center_u: Scalar { bits: HALF },
            center_v: Scalar { bits: HALF },
        }
    }

    /// Whether the camera keeps its distance from the pivot.
    pub open spec fn keeps_distance(self) -> bool {
        (Scalar { bits: CLOSEST }).le(self.distance)
    }
}

} // verus!
