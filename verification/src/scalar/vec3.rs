//! Triples of numbers.

use vstd::prelude::*;

use crate::scalar::number::Scalar;
#[allow(unused_imports)]
use crate::scalar::number::{fadd, fdiv, fmul, fsub};
#[allow(unused_imports)]
use crate::scalar::root::fsqrt;

verus! {

/// A vector or point in space.
#[derive(Clone, Copy, Debug, PartialEq, Eq, Structural)]
pub struct Vec3 {
    pub x: Scalar,
    pub y: Scalar,
    pub z: Scalar,
}

/// `a - b`.
pub open spec fn vsub(a: Vec3, b: Vec3) -> Vec3 {
    Vec3 { x: fsub(a.x, b.x), y: fsub(a.y, b.y), z: fsub(a.z, b.z) }
}

/// `a + b`.
pub open spec fn vadd(a: Vec3, b: Vec3) -> Vec3 {
    Vec3 { x: fadd(a.x, b.x), y: fadd(a.y, b.y), z: fadd(a.z, b.z) }
}

/// Component by component.
pub open spec fn vmul(a: Vec3, b: Vec3) -> Vec3 {
    Vec3 { x: fmul(a.x, b.x), y: fmul(a.y, b.y), z: fmul(a.z, b.z) }
}

/// `a * s`.
pub open spec fn vscale(a: Vec3, s: Scalar) -> Vec3 {
    Vec3 { x: fmul(a.x, s), y: fmul(a.y, s), z: fmul(a.z, s) }
}

/// `a / s`.
pub open spec fn vdiv(a: Vec3, s: Scalar) -> Vec3 {
    Vec3 { x: fdiv(a.x, s), y: fdiv(a.y, s), z: fdiv(a.z, s) }
}

/// `(ax bx + ay by) + az bz`.
pub open spec fn vdot(a: Vec3, b: Vec3) -> Scalar {
    fadd(fadd(fmul(a.x, b.x), fmul(a.y, b.y)), fmul(a.z, b.z))
}

/// The cross product.
pub open spec fn vcross(a: Vec3, b: Vec3) -> Vec3 {
    Vec3 {
        x: fsub(fmul(a.y, b.z), fmul(a.z, b.y)),
        y: fsub(fmul(a.z, b.x), fmul(a.x, b.z)),
        z: fsub(fmul(a.x, b.y), fmul(a.y, b.x)),
    }
}

/// The length.
pub open spec fn vnorm(a: Vec3) -> Scalar {
    fsqrt(vdot(a, a))
}

impl Vec3 {
    pub fn new(x: Scalar, y: Scalar, z: Scalar) -> (r: Vec3)
        ensures
            r == (Vec3 { x, y, z }),
    {
        Vec3 { x, y, z }
    }

    pub fn minus(self, b: Vec3) -> (r: Vec3)
        ensures
            r == vsub(self, b),
    {
        Vec3 { x: self.x.sub(b.x), y: self.y.sub(b.y), z: self.z.sub(b.z) }
    }

    pub fn plus(self, b: Vec3) -> (r: Vec3)
        ensures
            r == vadd(self, b),
    {
        Vec3 { x: self.x.add(b.x), y: self.y.add(b.y), z: self.z.add(b.z) }
    }

    pub fn times(self, b: Vec3) -> (r: Vec3)
        ensures
            r == vmul(self, b),
    {
        Vec3 { x: self.x.mul(b.x), y: self.y.mul(b.y), z: self.z.mul(b.z) }
    }

    pub fn scaled(self, s: Scalar) -> (r: Vec3)
        ensures
            r == vscale(self, s),
    {
        Vec3 { x: self.x.mul(s), y: self.y.mul(s), z: self.z.mul(s) }
    }

    pub fn over(self, s: Scalar) -> (r: Vec3)
        ensures
            r == vdiv(self, s),
    {
        Vec3 { x: self.x.div(s), y: self.y.div(s), z: self.z.div(s) }
    }

    pub fn dot(self, b: Vec3) -> (r: Scalar)
        ensures
            r == vdot(self, b),
    {
        self.x.mul(b.x).add(self.y.mul(b.y)).add(self.z.mul(b.z))
    }

    pub fn cross(self, b: Vec3) -> (r: Vec3)
        ensures
            r == vcross(self, b),
    {
        Vec3 {
            x: self.y.mul(b.z).sub(self.z.mul(b.y)),
            y: self.z.mul(b.x).sub(self.x.mul(b.z)),
            z: self.x.mul(b.y).sub(self.y.mul(b.x)),
        }
    }

    pub fn norm(self) -> (r: Scalar)
        ensures
            r == vnorm(self),
    {
        self.dot(self).sqrt()
    }
}

} // verus!
