//! A robot description as read from a file: plain values, nothing resolved yet.

use vstd::prelude::*;

use crate::scalar::{Scalar, Single, Vec3};

verus! {

/// The type of a joint, as the description names it.
#[derive(Debug)]
pub enum UrdfJointType {
    Revolute,
    Continuous,
    Prismatic,
    Fixed,
    /// Any other type, by name.
    Other(String),
}

/// A `<mimic>` element.
#[derive(Debug)]
pub struct UrdfMimic {
    pub joint: String,
    pub multiplier: Option<Scalar>,
    pub offset: Option<Scalar>,
}

/// A `<joint>` element. Its origin is known by its position in the list.
#[derive(Debug)]
pub struct UrdfJoint {
    pub name: String,
    pub joint_type: UrdfJointType,
    pub parent: String,
    pub child: String,
    pub axis: Vec3,
    pub lower: Scalar,
    pub upper: Scalar,
    pub velocity: Scalar,
    pub effort: Scalar,
    pub mimic: Option<UrdfMimic>,
}

/// A color, each channel in `[0, 1]`.
#[derive(Clone, Copy, Debug, PartialEq, Eq, Structural)]
pub struct Rgba {
    pub r: Scalar,
    pub g: Scalar,
    pub b: Scalar,
    pub a: Scalar,
}

/// A color as it is shown: each channel in single precision.
#[derive(Clone, Copy, Debug, PartialEq, Eq, Structural)]
pub struct Color {
    pub r: Single,
    pub g: Single,
    pub b: Single,
    pub a: Single,
}

/// A `<material>` element.
#[derive(Debug)]
pub struct UrdfMaterial {
    pub name: String,
    pub color: Option<Rgba>,
}

/// A `<geometry>` element. For a mesh: the contents of its file where it is an
/// STL that could be read, and the path where it was found.
#[derive(Debug)]
pub enum UrdfGeometry {
    Box { size: Vec3 },
    Sphere { radius: Scalar },
    Cylinder { radius: Scalar, length: Scalar },
    Capsule { radius: Scalar, length: Scalar },
    Mesh {
        filename: String,
        scale: Option<Vec3>,
        stl: Option<Vec<u8>>,
        path: Option<String>,
    },
}

/// A `<visual>` element.
#[derive(Debug)]
pub struct UrdfVisual {
    pub geometry: UrdfGeometry,
    pub material: Option<UrdfMaterial>,
}

/// A `<link>` element. A missing `<inertial>` has mass zero.
#[derive(Debug)]
pub struct UrdfLink {
    pub name: String,
    pub mass: Scalar,
    pub collision: Vec<UrdfGeometry>,
    pub visual: Vec<UrdfVisual>,
}

/// A whole description.
#[derive(Debug)]
pub struct UrdfRobot {
    pub name: String,
    pub links: Vec<UrdfLink>,
    pub joints: Vec<UrdfJoint>,
    pub materials: Vec<UrdfMaterial>,
}

} // verus!
