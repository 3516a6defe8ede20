//! Collision and visual shapes.

use vstd::prelude::*;

use crate::scalar::{Scalar, Vec3};
use crate::text::{chars_of, string_of};

verus! {

/// A collision shape in its own frame. A box has half extents; cylinder and
/// capsule lie along `z`; a mesh is its convex hull.
#[derive(Debug)]
pub enum CollisionShape {
    Box { half: Vec3 },
    Sphere { radius: Scalar },
    Cylinder { radius: Scalar, length: Scalar },
    Capsule { radius: Scalar, length: Scalar },
    ConvexHull { points: Vec<Vec3> },
}

/// A visual shape. A mesh is not loaded: it keeps the path where it was found.
#[derive(Debug)]
pub enum VisualShape {
    Box { half: Vec3 },
    Sphere { radius: Scalar },
    Cylinder { radius: Scalar, length: Scalar },
    Capsule { radius: Scalar, length: Scalar },
    Mesh { path: Option<String>, raw: String, scale: Vec3 },
}

/// `CollisionShape` over sequences.
pub enum ShapeV {
    Box { half: Vec3 },
    Sphere { radius: Scalar },
    Cylinder { radius: Scalar, length: Scalar },
    Capsule { radius: Scalar, length: Scalar },
    ConvexHull { points: Seq<Vec3> },
}

/// `VisualShape` over sequences.
pub enum VisualV {
    Box { half: Vec3 },
    Sphere { radius: Scalar },
    Cylinder { radius: Scalar, length: Scalar },
    Capsule { radius: Scalar, length: Scalar },
    Mesh { path: Option<Seq<char>>, raw: Seq<char>, scale: Vec3 },
}

pub open spec fn shape_view(s: CollisionShape) -> ShapeV {
    match s {
        CollisionShape::Box { half } => ShapeV::Box { half },
        CollisionShape::Sphere { radius } => ShapeV::Sphere { radius },
        CollisionShape::Cylinder { radius, length } => ShapeV::Cylinder { radius, length },
        CollisionShape::Capsule { radius, length } => ShapeV::Capsule { radius, length },
        CollisionShape::ConvexHull { points } => ShapeV::ConvexHull { points: points@ },
    }
}

pub open spec fn visual_view(s: VisualShape) -> VisualV {
    match s {
        VisualShape::Box { half } => VisualV::Box { half },
        VisualShape::Sphere { radius } => VisualV::Sphere { radius },
        VisualShape::Cylinder { radius, length } => VisualV::Cylinder { radius, length },
        VisualShape::Capsule { radius, length } => VisualV::Capsule { radius, length },
        VisualShape::Mesh { path, raw, scale } => VisualV::Mesh {
            path: match path {
                Some(p) => Some(p@),
                None => None,
            },
            raw: raw@,
            scale,
        },
    }
}

pub fn copy_points(p: &Vec<Vec3>) -> (r: Vec<Vec3>)
    ensures
        r@ == p@,
{
    let mut r: Vec<Vec3> = Vec::new();
    let mut i: usize = 0;
    while i < p.len()
        invariant
            i <= p.len(),
            r@ == p@.take(i as int),
        decreases p.len() - i,
    {
        r.push(p[i]);
        i = i + 1;
        assert(p@.take(i as int) =~= p@.take(i - 1).push(p@[i - 1]));
    }
    assert(p@.take(p@.len() as int) =~= p@);
    r
}

pub fn copy_shape(s: &CollisionShape) -> (r: CollisionShape)
    ensures
        shape_view(r) == shape_view(*s),
{
    match s {
        CollisionShape::Box { half } => CollisionShape::Box { half: *half },
        CollisionShape::Sphere { radius } => CollisionShape::Sphere { radius: *radius },
        CollisionShape::Cylinder { radius, length } => CollisionShape::Cylinder {
            radius: *radius,
            length: *length,
        },
        CollisionShape::Capsule { radius, length } => CollisionShape::Capsule {
            radius: *radius,
            length: *length,
        },
        CollisionShape::ConvexHull { points } => CollisionShape::ConvexHull {
            points: copy_points(points),
        },
    }
}

pub fn copy_visual(s: &VisualShape) -> (r: VisualShape)
    ensures
        visual_view(r) == visual_view(*s),
{
    match s {
        VisualShape::Box { half } => VisualShape::Box { half: *half },
        VisualShape::Sphere { radius } => VisualShape::Sphere { radius: *radius },
        VisualShape::Cylinder { radius, length } => VisualShape::Cylinder {
            radius: *radius,
            length: *length,
        },
        VisualShape::Capsule { radius, length } => VisualShape::Capsule {
            radius: *radius,
            length: *length,
        },
        VisualShape::Mesh { path, raw, scale } => VisualShape::Mesh {
            path: match path {
                Some(p) => Some(string_of(&chars_of(p.as_str()))),
                None => None,
            },
            raw: string_of(&chars_of(raw.as_str())),
            scale: *scale,
        },
    }
}

} // verus!
