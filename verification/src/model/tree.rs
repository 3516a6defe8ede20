//! The editable tree: links and joints addressed by position, checked joint by
//! joint.

use vstd::prelude::*;

use crate::model::error::CompileError;
#[allow(unused_imports)]
use crate::model::error::CompileFault;
use crate::model::mesh::mesh_hull;
#[allow(unused_imports)]
use crate::model::mesh::hull_of_mesh;
use crate::model::shape::{CollisionShape, VisualShape};
#[allow(unused_imports)]
use crate::model::shape::{shape_view, visual_view, ShapeV, VisualV};
use crate::model::urdf::{
    Color, Rgba, UrdfGeometry, UrdfJoint, UrdfJointType, UrdfLink, UrdfMaterial, UrdfMimic, UrdfRobot,
    UrdfVisual,
};
#[allow(unused_imports)]
use crate::scalar::number::flt;
#[allow(unused_imports)]
use crate::scalar::single::narrowed;
#[allow(unused_imports)]
use crate::scalar::vec3::vdiv;
use crate::scalar::{Scalar, Single, Vec3};
use crate::text::{chars_of, string_of};

verus! {

pub const ONE_BITS: u64 = 0x3FF0_0000_0000_0000;

pub const TWO_BITS: u64 = 0x4000_0000_0000_0000;

/// What a joint does; a continuous one is revolute without limits.
#[derive(Clone, Copy, Debug, PartialEq, Eq, Structural)]
pub enum RawKind {
    Revolute,
    Prismatic,
    Fixed,
}

/// A mimic constraint whose source is still a name.
#[derive(Debug)]
pub struct RawMimic {
    pub source: String,
    pub multiplier: Scalar,
    pub offset: Scalar,
}

/// A joint between two links. Its origin is known by its position in the list.
#[derive(Debug)]
pub struct EditJoint {
    pub name: String,
    pub kind: RawKind,
    pub parent: usize,
    pub child: usize,
    pub axis: Vec3,
    pub limits: Option<(Scalar, Scalar)>,
    pub vel: Option<Scalar>,
    pub effort: Option<Scalar>,
    pub mimic: Option<RawMimic>,
}

/// A collision shape, and which element of its link it comes from.
#[derive(Debug)]
pub struct ParsedCollision {
    pub index: usize,
    pub shape: CollisionShape,
}

/// A visual shape and its color.
#[derive(Debug)]
pub struct ParsedVisual {
    pub shape: VisualShape,
    pub color: Option<Color>,
}

/// A link: whether it has a mass, its shapes, and whether a shape was dropped.
#[derive(Debug)]
pub struct EditLink {
    pub name: String,
    pub inertial: bool,
    pub collision: Vec<ParsedCollision>,
    pub dropped: bool,
    pub visual: Vec<ParsedVisual>,
}

/// The tree.
#[derive(Debug)]
pub struct RobotTree {
    pub name: String,
    pub links: Vec<EditLink>,
    pub joints: Vec<EditJoint>,
}

/// A number where it is positive.
pub open spec fn positive(x: Scalar) -> Option<Scalar> {
    if flt(Scalar { bits: 0 }, x) {
        Some(x)
    } else {
        None
    }
}

/// A pair of limits is meant only when the lower is below the upper.
pub open spec fn limit_pair(lo: Scalar, hi: Scalar) -> Option<(Scalar, Scalar)> {
    if flt(lo, hi) {
        Some((lo, hi))
    } else {
        None
    }
}

/// Position of the last of some names that is `name`.
pub open spec fn last_named(names: Seq<Seq<char>>, name: Seq<char>) -> Option<int>
    decreases names.len(),
{
    if names.len() == 0 {
        None
    } else if names.last() == name {
        Some(names.len() - 1)
    } else {
        last_named(names.drop_last(), name)
    }
}

pub open spec fn urdf_link_names(l: Seq<UrdfLink>) -> Seq<Seq<char>> {
    Seq::new(l.len(), |i: int| l[i].name@)
}

/// What is wrong with a joint, in the order of the checks.
pub open spec fn joint_fault(names: Seq<Seq<char>>, j: UrdfJoint) -> Option<CompileFault> {
    if last_named(names, j.parent@) is None {
        Some(CompileFault::DanglingLink(j.parent@))
    } else if last_named(names, j.child@) is None {
        Some(CompileFault::DanglingLink(j.child@))
    } else {
        match j.joint_type {
            UrdfJointType::Other(t) => Some(CompileFault::UnsupportedJoint(t@)),
            UrdfJointType::Fixed => if j.mimic is Some {
                Some(CompileFault::MimicUnsupportedJoint(j.name@))
            } else {
                None
            },
            _ => None,
        }
    }
}

/// What is wrong with the first bad joint, from `i` on.
pub open spec fn first_fault(names: Seq<Seq<char>>, joints: Seq<UrdfJoint>, i: int) -> Option<
    CompileFault,
>
    decreases joints.len() - i,
{
    if i < 0 || i >= joints.len() {
        None
    } else if joint_fault(names, joints[i]) is Some {
        joint_fault(names, joints[i])
    } else {
        first_fault(names, joints, i + 1)
    }
}

pub open spec fn mimic_matches(m: Option<RawMimic>, u: Option<UrdfMimic>) -> bool {
    match (m, u) {
        (Some(m), Some(u)) => {
            &&& m.source@ == u.joint@
            &&& m.multiplier == (match u.multiplier {
                Some(x) => x,
                None => Scalar { bits: ONE_BITS },
            })
            &&& m.offset == (match u.offset {
                Some(x) => x,
                None => Scalar { bits: 0 },
            })
        },
        (None, None) => true,
        _ => false,
    }
}

/// A joint without faults, resolved.
pub open spec fn joint_matches(names: Seq<Seq<char>>, j: EditJoint, u: UrdfJoint) -> bool {
    &&& j.name@ == u.name@
    &&& last_named(names, u.parent@) == Some(j.parent as int)
    &&& last_named(names, u.child@) == Some(j.child as int)
    &&& j.axis == u.axis
    &&& j.vel == positive(u.velocity)
    &&& j.effort == positive(u.effort)
    &&& mimic_matches(j.mimic, u.mimic)
    &&& match u.joint_type {
        UrdfJointType::Revolute => j.kind == RawKind::Revolute && j.limits == limit_pair(
            u.lower,
            u.upper,
        ),
        UrdfJointType::Continuous => j.kind == RawKind::Revolute && j.limits is None,
        UrdfJointType::Prismatic => j.kind == RawKind::Prismatic && j.limits == limit_pair(
            u.lower,
            u.upper,
        ),
        UrdfJointType::Fixed => j.kind == RawKind::Fixed && j.limits is None,
        UrdfJointType::Other(_) => false,
    }
}

/// A mass that counts: finite and positive.
pub open spec fn real_mass(m: Scalar) -> bool {
    m.finite() && flt(Scalar { bits: 0 }, m)
}

/// The shape of a collision element; `None` for a mesh without a hull.
pub open spec fn collision_shape(g: UrdfGeometry) -> Option<ShapeV> {
    match g {
        UrdfGeometry::Box { size } => Some(
            ShapeV::Box { half: vdiv(size, Scalar { bits: TWO_BITS }) },
        ),
        UrdfGeometry::Sphere { radius } => Some(ShapeV::Sphere { radius }),
        UrdfGeometry::Cylinder { radius, length } => Some(ShapeV::Cylinder { radius, length }),
        UrdfGeometry::Capsule { radius, length } => Some(ShapeV::Capsule { radius, length }),
        UrdfGeometry::Mesh { filename, scale, stl, path } => match stl {
            Some(b) => match hull_of_mesh(b@, scale) {
                Some(points) => Some(ShapeV::ConvexHull { points }),
                None => None,
            },
            None => None,
        },
    }
}

/// The shapes of some collision elements that have one, with their positions.
pub open spec fn collision_shapes(g: Seq<UrdfGeometry>) -> Seq<(int, ShapeV)>
    decreases g.len(),
{
    if g.len() == 0 {
        Seq::empty()
    } else {
        match collision_shape(g.last()) {
            Some(s) => collision_shapes(g.drop_last()).push((g.len() - 1, s)),
            None => collision_shapes(g.drop_last()),
        }
    }
}

pub open spec fn parsed_view(c: Seq<ParsedCollision>) -> Seq<(int, ShapeV)> {
    Seq::new(c.len(), |i: int| (c[i].index as int, shape_view(c[i].shape)))
}

/// The shape of a visual element: a mesh is kept whether or not it was found.
pub open spec fn visual_shape(g: UrdfGeometry) -> VisualV {
    match g {
        UrdfGeometry::Box { size } => VisualV::Box {
            half: vdiv(size, Scalar { bits: TWO_BITS }),
        },
        UrdfGeometry::Sphere { radius } => VisualV::Sphere { radius },
        UrdfGeometry::Cylinder { radius, length } => VisualV::Cylinder { radius, length },
        UrdfGeometry::Capsule { radius, length } => VisualV::Capsule { radius, length },
        UrdfGeometry::Mesh { filename, scale, stl, path } => VisualV::Mesh {
            path: match path {
                Some(p) => Some(p@),
                None => None,
            },
            raw: filename@,
            scale: match scale {
                Some(s) => s,
                None => Vec3 {
                    x: Scalar { bits: ONE_BITS },
                    y: Scalar { bits: ONE_BITS },
                    z: Scalar { bits: ONE_BITS },
                },
            },
        },
    }
}

/// The color of the first material of that name.
pub open spec fn named_color(m: Seq<UrdfMaterial>, name: Seq<char>, i: int) -> Option<Rgba>
    decreases m.len() - i,
{
    if i < 0 || i >= m.len() {
        None
    } else if m[i].name@ == name {
        m[i].color
    } else {
        named_color(m, name, i + 1)
    }
}

/// A color in single precision.
pub open spec fn shown_color(c: Rgba) -> Color {
    Color { r: narrowed(c.r), g: narrowed(c.g), b: narrowed(c.b), a: narrowed(c.a) }
}

/// The color of a visual: its own, else that of the material it names.
pub open spec fn visual_color(mat: Option<UrdfMaterial>, named: Seq<UrdfMaterial>) -> Option<
    Color,
> {
    match mat {
        None => None,
        Some(m) => match m.color {
            Some(c) => Some(shown_color(c)),
            None => match named_color(named, m.name@, 0) {
                Some(c) => Some(shown_color(c)),
                None => None,
            },
        },
    }
}

pub open spec fn visual_shapes(v: Seq<UrdfVisual>, named: Seq<UrdfMaterial>) -> Seq<
    (VisualV, Option<Color>),
> {
    Seq::new(
        v.len(),
        |i: int| (visual_shape(v[i].geometry), visual_color(v[i].material, named)),
    )
}

pub open spec fn parsed_visuals(v: Seq<ParsedVisual>) -> Seq<(VisualV, Option<Color>)> {
    Seq::new(v.len(), |i: int| (visual_view(v[i].shape), v[i].color))
}

/// A link, read.
pub open spec fn link_matches(l: EditLink, u: UrdfLink, materials: Seq<UrdfMaterial>) -> bool {
    &&& l.name@ == u.name@
    &&& l.inertial == real_mass(u.mass)
    &&& parsed_view(l.collision@) == collision_shapes(u.collision@)
    &&& l.dropped == (collision_shapes(u.collision@).len() < u.collision@.len())
    &&& parsed_visuals(l.visual@) == visual_shapes(u.visual@, materials)
}

/// The tree of a description without faults.
pub open spec fn tree_matches(t: RobotTree, u: UrdfRobot) -> bool {
    &&& t.name@ == u.name@
    &&& t.links@.len() == u.links@.len()
    &&& forall|i: int|
        0 <= i < t.links@.len() ==> link_matches(
            #[trigger] t.links@[i],
            u.links@[i],
            u.materials@,
        )
    &&& t.joints@.len() == u.joints@.len()
    &&& forall|i: int|
        0 <= i < t.joints@.len() ==> joint_matches(
            urdf_link_names(u.links@),
            #[trigger] t.joints@[i],
            u.joints@[i],
        )
}

/// Every joint lies between links of the tree.
pub open spec fn tree_wf(t: RobotTree) -> bool {
    forall|i: int|
        0 <= i < t.joints@.len() ==> (#[trigger] t.joints@[i]).parent < t.links@.len()
            && t.joints@[i].child < t.links@.len()
}

pub fn copy_string(s: &String) -> (r: String)
    ensures
        r@ == s@,
{
    string_of(&chars_of(s.as_str()))
}

/// Whether two strings are the same text.
pub fn same_string(a: &String, b: &String) -> (r: bool)
    ensures
        r == (a@ == b@),
{
    crate::text::is_text(&chars_of(a.as_str()), b.as_str())
}

/// Position of the last link of that name.
fn find_link(links: &Vec<UrdfLink>, name: &String) -> (r: Option<usize>)
    ensures
        match r {
            Some(i) => i < links.len() && last_named(urdf_link_names(links@), name@) == Some(
                i as int,
            ),
            None => last_named(urdf_link_names(links@), name@) is None,
        },
{
    let ghost all = urdf_link_names(links@);
    let mut i: usize = links.len();
    assert(all.take(i as int) =~= all);
    while i > 0
        invariant
            i <= links.len(),
            all == urdf_link_names(links@),
            last_named(all, name@) == last_named(all.take(i as int), name@),
        decreases i,
    {
        i = i - 1;
        assert(all.take(i + 1).drop_last() =~= all.take(i as int));
        if same_string(&links[i].name, name) {
            return Some(i);
        }
    }
    None
}

fn parse_positive(x: Scalar) -> (r: Option<Scalar>)
    ensures
        r == positive(x),
{
    if x.gt(Scalar { bits: 0 }) {
        Some(x)
    } else {
        None
    }
}

/// A pair of limits, where it is meant.
pub fn valid_limit(lo: Scalar, hi: Scalar) -> (r: Option<(Scalar, Scalar)>)
    ensures
        r == limit_pair(lo, hi),
{
    if lo.lt(hi) {
        Some((lo, hi))
    } else {
        None
    }
}

/// The shape of a collision element.
fn parse_collision(g: &UrdfGeometry) -> (r: Option<CollisionShape>)
    ensures
        match r {
            Some(s) => collision_shape(*g) == Some(shape_view(s)),
            None => collision_shape(*g) is None,
        },
{
    match g {
        UrdfGeometry::Box { size } => Some(
            CollisionShape::Box { half: size.over(Scalar { bits: TWO_BITS }) },
        ),
        UrdfGeometry::Sphere { radius } => Some(CollisionShape::Sphere { radius: *radius }),
        UrdfGeometry::Cylinder { radius, length } => Some(
            CollisionShape::Cylinder { radius: *radius, length: *length },
        ),
        UrdfGeometry::Capsule { radius, length } => Some(
            CollisionShape::Capsule { radius: *radius, length: *length },
        ),
        UrdfGeometry::Mesh { filename, scale, stl, path } => match stl {
            Some(b) => match mesh_hull(b.as_slice(), *scale) {
                Some(points) => Some(CollisionShape::ConvexHull { points }),
                None => None,
            },
            None => None,
        },
    }
}

/// The collision shapes of a link, and whether one was dropped.
fn parse_collisions(g: &Vec<UrdfGeometry>) -> (r: (Vec<ParsedCollision>, bool))
    ensures
        parsed_view(r.0@) == collision_shapes(g@),
        r.1 == (collision_shapes(g@).len() < g@.len()),
{
    let mut out: Vec<ParsedCollision> = Vec::new();
    let mut dropped: bool = false;
    let mut i: usize = 0;
    assert(parsed_view(out@) =~= Seq::empty());
    while i < g.len()
        invariant
            i <= g.len(),
            parsed_view(out@) == collision_shapes(g@.take(i as int)),
            dropped == (out.len() < i),
            out.len() <= i,
        decreases g.len() - i,
    {
        proof {
            assert(g@.take(i + 1).drop_last() =~= g@.take(i as int));
            assert(g@.take(i + 1).last() == g@[i as int]);
        }
        let shape = parse_collision(&g[i]);
        match shape {
            Some(s) => {
                let ghost before = out@;
                out.push(ParsedCollision { index: i, shape: s });
                assert(parsed_view(out@) =~= parsed_view(before).push((i as int, shape_view(s))));
            },
            None => {
                dropped = true;
            },
        }
        i = i + 1;
    }
    assert(g@.take(g@.len() as int) =~= g@);
    assert(parsed_view(out@).len() == out.len());
    (out, dropped)
}

fn show_color(c: Option<Rgba>) -> (r: Option<Color>)
    ensures
        r == (match c {
            Some(c) => Some(shown_color(c)),
            None => None,
        }),
{
    match c {
        Some(c) => Some(
            Color {
                r: Single::from_scalar(c.r),
                g: Single::from_scalar(c.g),
                b: Single::from_scalar(c.b),
                a: Single::from_scalar(c.a),
            },
        ),
        None => None,
    }
}

/// The color of a visual.
fn resolve_visual_color(mat: &Option<UrdfMaterial>, named: &Vec<UrdfMaterial>) -> (r: Option<
    Color,
>)
    ensures
        r == visual_color(*mat, named@),
{
    let m = match mat {
        Some(m) => m,
        None => {
            return None;
        },
    };
    if m.color.is_some() {
        return show_color(m.color);
    }
    let mut i: usize = 0;
    while i < named.len()
        invariant
            i <= named.len(),
            visual_color(*mat, named@) == (match named_color(named@, m.name@, 0) {
                Some(c) => Some(shown_color(c)),
                None => None,
            }),
            named_color(named@, m.name@, 0) == named_color(named@, m.name@, i as int),
        decreases named.len() - i,
    {
        if same_string(&named[i].name, &m.name) {
            return show_color(named[i].color);
        }
        i = i + 1;
    }
    None
}

/// The visual shapes of a link.
fn parse_visuals(v: &Vec<UrdfVisual>, named: &Vec<UrdfMaterial>) -> (r: Vec<ParsedVisual>)
    ensures
        parsed_visuals(r@) == visual_shapes(v@, named@),
{
    let mut out: Vec<ParsedVisual> = Vec::new();
    let mut i: usize = 0;
    while i < v.len()
        invariant
            i <= v.len(),
            out.len() == i,
            forall|k: int|
                0 <= k < i ==> (visual_view((#[trigger] out@[k]).shape), out@[k].color)
                    == visual_shapes(v@, named@)[k],
        decreases v.len() - i,
    {
        let shape = match &v[i].geometry {
            UrdfGeometry::Box { size } => VisualShape::Box {
                half: size.over(Scalar { bits: TWO_BITS }),
            },
            UrdfGeometry::Sphere { radius } => VisualShape::Sphere { radius: *radius },
            UrdfGeometry::Cylinder { radius, length } => VisualShape::Cylinder {
                radius: *radius,
                length: *length,
            },
            UrdfGeometry::Capsule { radius, length } => VisualShape::Capsule {
                radius: *radius,
                length: *length,
            },
            UrdfGeometry::Mesh { filename, scale, stl, path } => VisualShape::Mesh {
                path: match path {
                    Some(p) => Some(copy_string(p)),
                    None => None,
                },
                raw: copy_string(filename),
                scale: match scale {
                    Some(s) => *s,
                    None => Vec3 {
                        x: Scalar { bits: ONE_BITS },
                        y: Scalar { bits: ONE_BITS },
                        z: Scalar { bits: ONE_BITS },
                    },
                },
            },
        };
        let color = resolve_visual_color(&v[i].material, named);
        out.push(ParsedVisual { shape, color });
        i = i + 1;
    }
    assert(parsed_visuals(out@) =~= visual_shapes(v@, named@));
    out
}

fn parse_joint(links: &Vec<UrdfLink>, j: &UrdfJoint) -> (r: Result<EditJoint, CompileError>)
    ensures
        match r {
            Ok(e) => joint_fault(urdf_link_names(links@), *j) is None && joint_matches(
                urdf_link_names(links@),
                e,
                *j,
            ) && e.parent < links.len() && e.child < links.len(),
            Err(e) => joint_fault(urdf_link_names(links@), *j) == Some(e@),
        },
{
    let parent = match find_link(links, &j.parent) {
        Some(i) => i,
        None => {
            return Err(CompileError::DanglingLink(copy_string(&j.parent)));
        },
    };
    let child = match find_link(links, &j.child) {
        Some(i) => i,
        None => {
            return Err(CompileError::DanglingLink(copy_string(&j.child)));
        },
    };
    let (kind, limits) = match &j.joint_type {
        UrdfJointType::Revolute => (RawKind::Revolute, valid_limit(j.lower, j.upper)),
        UrdfJointType::Continuous => (RawKind::Revolute, None),
        UrdfJointType::Prismatic => (RawKind::Prismatic, valid_limit(j.lower, j.upper)),
        UrdfJointType::Fixed => (RawKind::Fixed, None),
        UrdfJointType::Other(t) => {
            return Err(CompileError::UnsupportedJoint(copy_string(t)));
        },
    };
    let mimic = match &j.mimic {
        Some(m) => {
            if kind == RawKind::Fixed {
                return Err(CompileError::MimicUnsupportedJoint(copy_string(&j.name)));
            }
            Some(
                RawMimic {
                    source: copy_string(&m.joint),
                    multiplier: match m.multiplier {
                        Some(x) => x,
                        None => Scalar { bits: ONE_BITS },
                    },
                    offset: match m.offset {
                        Some(x) => x,
                        None => Scalar { bits: 0 },
                    },
                },
            )
        },
        None => None,
    };
    Ok(
        EditJoint {
            name: copy_string(&j.name),
            kind,
            parent,
            child,
            axis: j.axis,
            limits,
            vel: parse_positive(j.velocity),
            effort: parse_positive(j.effort),
            mimic,
        },
    )
}

impl RobotTree {
    /// The tree of a description; the first bad joint decides the error.
    pub fn from_urdf(u: &UrdfRobot) -> (r: Result<RobotTree, CompileError>)
        ensures
            match r {
                Ok(t) => first_fault(urdf_link_names(u.links@), u.joints@, 0) is None
                    && tree_matches(t, *u) && tree_wf(t),
                Err(e) => first_fault(urdf_link_names(u.links@), u.joints@, 0) == Some(e@),
            },
    {
        let ghost names = urdf_link_names(u.links@);
        let mut links: Vec<EditLink> = Vec::new();
        let mut i: usize = 0;
        while i < u.links.len()
            invariant
                i <= u.links.len(),
                links.len() == i,
                forall|k: int|
                    0 <= k < i ==> link_matches(#[trigger] links@[k], u.links@[k], u.materials@),
            decreases u.links.len() - i,
        {
            let l = &u.links[i];
            let (collision, dropped) = parse_collisions(&l.collision);
            let visual = parse_visuals(&l.visual, &u.materials);
            links.push(
                EditLink {
                    name: copy_string(&l.name),
                    inertial: l.mass.is_finite() && l.mass.gt(Scalar { bits: 0 }),
                    collision,
                    dropped,
                    visual,
                },
            );
            i = i + 1;
        }
        let mut joints: Vec<EditJoint> = Vec::new();
        let mut k: usize = 0;
        while k < u.joints.len()
            invariant
                k <= u.joints.len(),
                joints.len() == k,
                names == urdf_link_names(u.links@),
                first_fault(names, u.joints@, 0) == first_fault(names, u.joints@, k as int),
                forall|x: int|
                    0 <= x < k ==> joint_matches(names, #[trigger] joints@[x], u.joints@[x])
                        && joints@[x].parent < u.links.len() && joints@[x].child < u.links.len(),
            decreases u.joints.len() - k,
        {
            match parse_joint(&u.links, &u.joints[k]) {
                Ok(j) => {
                    joints.push(j);
                },
                Err(e) => {
                    return Err(e);
                },
            }
            k = k + 1;
        }
        Ok(RobotTree { name: copy_string(&u.name), links, joints })
    }
}

} // verus!
