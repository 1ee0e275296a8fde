//! Vectors of three single-precision numbers.
use vstd::prelude::*;
use crate::scalar::{ONE, Scalar};

verus! {

#[derive(Clone, Copy, PartialEq, Eq, Structural, Debug)]
pub struct Vec3 {
    pub x: Scalar,
    pub y: Scalar,
    pub z: Scalar,
}

/// The lesser of two numbers, the second where they do not compare.
pub open spec fn lesser(a: Scalar, b: Scalar) -> Scalar {
    if a.spec_lt(b) {
        a
    } else {
        b
    }
}

/// The greater of two numbers, the second where they do not compare.
pub open spec fn greater(a: Scalar, b: Scalar) -> Scalar {
    if b.spec_lt(a) {
        a
    } else {
        b
    }
}

impl Vec3 {
    pub open spec fn spec_splat(v: Scalar) -> Vec3 {
        Vec3 { x: v, y: v, z: v }
    }

    #[verifier::when_used_as_spec(spec_splat)]
    pub fn splat(v: Scalar) -> (r: Vec3)
        ensures
            r == Vec3::splat(v),
    {
        Vec3 { x: v, y: v, z: v }
    }

    pub open spec fn spec_plus(self, other: Vec3) -> Vec3 {
        Vec3 {
            x: self.x.spec_plus(other.x),
            y: self.y.spec_plus(other.y),
            z: self.z.spec_plus(other.z),
        }
    }

    #[verifier::when_used_as_spec(spec_plus)]
    pub fn plus(self, other: Vec3) -> (r: Vec3)
        ensures
            r == self.plus(other),
    {
        Vec3 { x: self.x.plus(other.x), y: self.y.plus(other.y), z: self.z.plus(other.z) }
    }

    pub open spec fn spec_minus(self, other: Vec3) -> Vec3 {
        Vec3 {
            x: self.x.spec_minus(other.x),
            y: self.y.spec_minus(other.y),
            z: self.z.spec_minus(other.z),
        }
    }

    #[verifier::when_used_as_spec(spec_minus)]
    pub fn minus(self, other: Vec3) -> (r: Vec3)
        ensures
            r == self.minus(other),
    {
        Vec3 { x: self.x.minus(other.x), y: self.y.minus(other.y), z: self.z.minus(other.z) }
    }

    /// The product, component by component.
    pub open spec fn spec_times(self, other: Vec3) -> Vec3 {
        Vec3 {
            x: self.x.spec_times(other.x),
            y: self.y.spec_times(other.y),
            z: self.z.spec_times(other.z),
        }
    }

    /// The product, component by component.
    #[verifier::when_used_as_spec(spec_times)]
    pub fn times(self, other: Vec3) -> (r: Vec3)
        ensures
            r == self.times(other),
    {
        Vec3 { x: self.x.times(other.x), y: self.y.times(other.y), z: self.z.times(other.z) }
    }

    pub open spec fn spec_scaled(self, by: Scalar) -> Vec3 {
        Vec3 {
            x: self.x.spec_times(by),
            y: self.y.spec_times(by),
            z: self.z.spec_times(by),
        }
    }

    #[verifier::when_used_as_spec(spec_scaled)]
    pub fn scaled(self, by: Scalar) -> (r: Vec3)
        ensures
            r == self.scaled(by),
    {
        Vec3 { x: self.x.times(by), y: self.y.times(by), z: self.z.times(by) }
    }

    pub open spec fn spec_dot(self, other: Vec3) -> Scalar {
        self.x.spec_times(other.x).spec_plus(self.y.spec_times(other.y)).spec_plus(
            self.z.spec_times(other.z),
        )
    }

    #[verifier::when_used_as_spec(spec_dot)]
    pub fn dot(self, other: Vec3) -> (r: Scalar)
        ensures
            r == self.dot(other),
    {
        self.x.times(other.x).plus(self.y.times(other.y)).plus(self.z.times(other.z))
    }

    pub open spec fn spec_length(self) -> Scalar {
        self.spec_dot(self).spec_root()
    }

    #[verifier::when_used_as_spec(spec_length)]
    pub fn length(self) -> (r: Scalar)
        ensures
            r == self.length(),
    {
        self.dot(self).root()
    }

    /// The vector times the reciprocal of its length.
    pub open spec fn spec_normalized(self) -> Vec3 {
        self.spec_scaled((Scalar { bits: ONE }).spec_over(self.spec_length()))
    }

    /// The vector times the reciprocal of its length.
    #[verifier::when_used_as_spec(spec_normalized)]
    pub fn normalized(self) -> (r: Vec3)
        ensures
            r == self.normalized(),
    {
        let one = Scalar { bits: ONE };
        self.scaled(one.over(self.length()))
    }

    pub open spec fn spec_lesser(self, other: Vec3) -> Vec3 {
        Vec3 {
            x: lesser(self.x, other.x),
            y: lesser(self.y, other.y),
            z: lesser(self.z, other.z),
        }
    }

    /// The lesser of each two components, the other's where they do not compare.
    #[verifier::when_used_as_spec(spec_lesser)]
    pub fn lesser(self, other: Vec3) -> (r: Vec3)
        ensures
            r == self.lesser(other),
    {
        Vec3 {
            x: if self.x.lt(other.x) { self.x } else { other.x },
            y: if self.y.lt(other.y) { self.y } else { other.y },
            z: if self.z.lt(other.z) { self.z } else { other.z },
        }
    }

    pub open spec fn spec_greater(self, other: Vec3) -> Vec3 {
        Vec3 {
            x: greater(self.x, other.x),
            y: greater(self.y, other.y),
            z: greater(self.z, other.z),
        }
    }

    /// The greater of each two components, the other's where they do not compare.
    #[verifier::when_used_as_spec(spec_greater)]
    pub fn greater(self, other: Vec3) -> (r: Vec3)
        ensures
            r == self.greater(other),
    {
        Vec3 {
            x: if other.x.lt(self.x) { self.x } else { other.x },
            y: if other.y.lt(self.y) { self.y } else { other.y },
            z: if other.z.lt(self.z) { self.z } else { other.z },
        }
    }
}

} // verus!
