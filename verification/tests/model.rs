use caliper::model::gripper::{
    child_link_frame, child_link_name, find_gripper_joint, gripper_targets, is_gripper_name,
    GRIPPER_TARGET_INSET_BITS,
};
use caliper::model::meshname::{
    collision_mesh_file, is_stl, mesh_name, package_places, package_roots, Base, MeshName, Place,
};
use caliper::model::shape::{CollisionShape, VisualShape};
use caliper::model::stl::{looks_binary, parse_stl};
use caliper::model::urdf::{
    Color, Rgba, UrdfGeometry, UrdfJoint, UrdfJointType, UrdfLink, UrdfMaterial, UrdfMimic, UrdfRobot,
    UrdfVisual,
};
use caliper::model::{CompileError, JointKind, MimicInfo, Model, Robot};
use caliper::scalar::{Scalar, Single, Vec3};

fn s(x: f64) -> Scalar {
    Scalar { bits: x.to_bits() }
}

fn v(xs: &[f64]) -> Vec<Scalar> {
    xs.iter().map(|x| s(*x)).collect()
}

fn f(x: Scalar) -> f64 {
    f64::from_bits(x.bits)
}

fn vec3(p: &urdf_rs::Vec3) -> Vec3 {
    Vec3::new(s(p.0[0]), s(p.0[1]), s(p.0[2]))
}

/// The files that descriptions of these tests name.
fn file(name: &str) -> Option<Vec<u8>> {
    if name == "unit_cube.stl" {
        Some(unit_cube())
    } else {
        None
    }
}

fn geometry(g: &urdf_rs::Geometry) -> UrdfGeometry {
    match g {
        urdf_rs::Geometry::Box { size } => UrdfGeometry::Box { size: vec3(size) },
        urdf_rs::Geometry::Sphere { radius } => UrdfGeometry::Sphere { radius: s(*radius) },
        urdf_rs::Geometry::Cylinder { radius, length } => {
            UrdfGeometry::Cylinder { radius: s(*radius), length: s(*length) }
        }
        urdf_rs::Geometry::Capsule { radius, length } => {
            UrdfGeometry::Capsule { radius: s(*radius), length: s(*length) }
        }
        urdf_rs::Geometry::Mesh { filename, scale } => UrdfGeometry::Mesh {
            filename: filename.clone(),
            scale: scale.as_ref().map(vec3),
            stl: file(filename),
            path: file(filename).map(|_| format!("/meshes/{filename}")),
        },
    }
}

fn material(m: &urdf_rs::Material) -> UrdfMaterial {
    UrdfMaterial {
        name: m.name.clone(),
        color: m.color.as_ref().map(|c| Rgba {
            r: s(c.rgba.0[0]),
            g: s(c.rgba.0[1]),
            b: s(c.rgba.0[2]),
            a: s(c.rgba.0[3]),
        }),
    }
}

fn parse(text: &str) -> UrdfRobot {
    let r = urdf_rs::read_from_string(text).unwrap();
    UrdfRobot {
        name: r.name.clone(),
        links: r
            .links
            .iter()
            .map(|l| UrdfLink {
                name: l.name.clone(),
                mass: s(l.inertial.mass.value),
                collision: l.collision.iter().map(|c| geometry(&c.geometry)).collect(),
                visual: l
                    .visual
                    .iter()
                    .map(|x| UrdfVisual {
                        geometry: geometry(&x.geometry),
                        material: x.material.as_ref().map(material),
                    })
                    .collect(),
            })
            .collect(),
        joints: r
            .joints
            .iter()
            .map(|j| UrdfJoint {
                name: j.name.clone(),
                joint_type: match j.joint_type {
                    urdf_rs::JointType::Revolute => UrdfJointType::Revolute,
                    urdf_rs::JointType::Continuous => UrdfJointType::Continuous,
                    urdf_rs::JointType::Prismatic => UrdfJointType::Prismatic,
                    urdf_rs::JointType::Fixed => UrdfJointType::Fixed,
                    ref other => UrdfJointType::Other(format!("{other:?}")),
                },
                parent: j.parent.link.clone(),
                child: j.child.link.clone(),
                axis: vec3(&j.axis.xyz),
                lower: s(j.limit.lower),
                upper: s(j.limit.upper),
                velocity: s(j.limit.velocity),
                effort: s(j.limit.effort),
                mimic: j.mimic.as_ref().map(|m| UrdfMimic {
                    joint: m.joint.clone(),
                    multiplier: m.multiplier.map(s),
                    offset: m.offset.map(s),
                }),
            })
            .collect(),
        materials: r.materials.iter().map(material).collect(),
    }
}

fn compile_str(text: &str) -> Result<Model, CompileError> {
    Model::from_urdf(&parse(text))
}

fn links(names: &[&str]) -> String {
    names.iter().map(|n| format!("<link name=\"{n}\"/>")).collect()
}

fn joint(name: &str, kind: &str, parent: &str, child: &str, axis: &str, rest: &str) -> String {
    format!(
        "<joint name=\"{name}\" type=\"{kind}\"><parent link=\"{parent}\"/>\
         <child link=\"{child}\"/><axis xyz=\"{axis}\"/>{rest}</joint>"
    )
}

fn limit(lo: f64, hi: f64, effort: f64, vel: f64) -> String {
    format!("<limit lower=\"{lo}\" upper=\"{hi}\" effort=\"{effort}\" velocity=\"{vel}\"/>")
}

fn robot(body: &str) -> String {
    format!("<robot name=\"r\">{body}</robot>")
}

fn toy() -> Model {
    let l = limit(-3.14, 3.14, 10.0, 3.0);
    compile_str(&robot(&format!(
        "{}{}{}",
        links(&["base", "l1", "l2"]),
        joint("j1", "revolute", "base", "l1", "0 0 1", &l),
        joint("j2", "revolute", "l1", "l2", "0 2 0", &l)
    )))
    .unwrap()
}

fn serial(n: usize, vel: f64) -> Model {
    let names: Vec<String> = (0..=n).map(|i| format!("l{i}")).collect();
    let refs: Vec<&str> = names.iter().map(|x| x.as_str()).collect();
    let l = limit(-2.9, 2.9, 10.0, vel);
    let js: String = (0..n)
        .map(|i| {
            joint(&format!("j{}", i + 1), "revolute", &names[i], &names[i + 1], "0 0 1", &l)
        })
        .collect();
    compile_str(&robot(&format!("{}{js}", links(&refs)))).unwrap()
}

#[test]
fn compiles_toy() {
    let m = toy();
    assert_eq!(m.ndof, 2);
    assert_eq!(m.joint_names, vec!["j1", "j2"]);
    assert_eq!(m.parent, vec![None, Some(0)]);
    assert_eq!(m.kind, vec![JointKind::Revolute, JointKind::Revolute]);
    assert_eq!(m.axis[0], Vec3::new(s(0.0), s(0.0), s(1.0)));
    assert_eq!(m.axis[1], Vec3::new(s(0.0), s(1.0), s(0.0)));
    assert_eq!(m.parent_to_joint, vec![vec![0], vec![1]]);
    // every link is a frame; the tip is l2
    assert_eq!(m.frame_name(m.tip_frame()), "l2");
    assert!(m.frame_id("base").is_some());
    assert!(m.frame_id("ghost").is_none());
}

#[test]
fn parses_velocity_limits() {
    assert_eq!(toy().vel_limit, vec![Some(s(3.0)), Some(s(3.0))]);
    assert_eq!(serial(7, 1.0).vel_limit, vec![Some(s(1.0)); 7]);
    let p = prismatic();
    assert_eq!(p.vel_limit, vec![Some(s(3.0)), Some(s(1.0))]);
    assert_eq!(p.effort_limit, vec![Some(s(10.0)), Some(s(10.0))]);
}

fn prismatic() -> Model {
    compile_str(&robot(&format!(
        "{}{}{}",
        links(&["base", "l1", "l2"]),
        joint("j1", "revolute", "base", "l1", "0 0 1", &limit(-3.0, 3.0, 10.0, 3.0)),
        joint("j2", "prismatic", "l1", "l2", "0 0 1", &limit(0.0, 0.5, 10.0, 1.0))
    )))
    .unwrap()
}

fn heavy(name: &str, mass: f64) -> String {
    format!(
        "<link name=\"{name}\"><inertial><mass value=\"{mass}\"/>\
         <inertia ixx=\"1\" ixy=\"0\" ixz=\"0\" iyy=\"1\" iyz=\"0\" izz=\"1\"/></inertial></link>"
    )
}

#[test]
fn inertia_does_not_change_kinematics() {
    let l = limit(-1.0, 1.0, 1.0, 1.0);
    let m = compile_str(&robot(&format!(
        "{}{}{}{}{}",
        links(&["base"]),
        heavy("l1", 1.0),
        heavy("l2", 0.5),
        joint("j1", "revolute", "base", "l1", "0 0 1", &l),
        joint("j2", "revolute", "l1", "l2", "0 0 1", &l)
    )))
    .unwrap();
    assert_eq!(m.ndof, 2);
    assert_eq!(m.parent, vec![None, Some(0)]);
    assert!(m.has_inertia);
    assert_eq!(m.inertia.len(), 2);
    assert_eq!((m.inertia[0].dof, m.inertia[0].link), (0, 1));
    assert_eq!((m.inertia[1].dof, m.inertia[1].link), (1, 2));
}

#[test]
fn bare_fixture_reports_no_inertia() {
    let m = toy();
    assert!(!m.has_inertia);
    assert!(m.inertia.is_empty());
}

#[test]
fn fold_conserves_mass() {
    // l2 is welded to l1: both count for the one movable joint.
    let m = compile_str(&robot(&format!(
        "{}{}{}{}{}",
        links(&["base"]),
        heavy("l1", 1.0),
        heavy("l2", 0.5),
        joint("j1", "revolute", "base", "l1", "0 0 1", &limit(-1.0, 1.0, 1.0, 1.0)),
        joint("w", "fixed", "l1", "l2", "0 0 1", "")
    )))
    .unwrap();
    assert_eq!(m.ndof, 1);
    assert!(m.has_inertia);
    let on: Vec<(usize, usize)> = m.inertia.iter().map(|x| (x.dof, x.link)).collect();
    assert_eq!(on, vec![(0, 1), (0, 2)]);
    assert_eq!(m.inertia[1].chain, vec![1]);
}

#[test]
fn clamp_respects_limits() {
    let m = toy();
    let mut q = v(&[10.0, -10.0]);
    m.clamp(&mut q);
    assert!(f(q[0]) <= 3.1401 && f(q[1]) >= -3.1401);
}

#[test]
fn prismatic_compiles() {
    let m = prismatic();
    assert_eq!(m.ndof, 2);
    assert_eq!(m.kind, vec![JointKind::Revolute, JointKind::Prismatic]);
    assert_eq!(m.limits[1], Some((s(0.0), s(0.5))));
}

#[test]
fn branched_compiles_with_folded_fixed() {
    let l = limit(-1.0, 1.0, 1.0, 1.0);
    let m = compile_str(&robot(&format!(
        "{}{}{}{}{}",
        links(&["base", "mid", "fixmid", "tipA", "tipB"]),
        joint("j1", "revolute", "base", "mid", "0 0 1", &l),
        joint("f1", "fixed", "mid", "fixmid", "0 0 1", ""),
        joint("j2", "revolute", "fixmid", "tipA", "0 0 1", &l),
        joint("j3", "revolute", "fixmid", "tipB", "0 0 1", &l)
    )))
    .unwrap();
    assert_eq!(m.ndof, 3);
    for n in ["j1", "j2", "j3"] {
        assert!(m.joint_names.iter().any(|x| x == n), "missing {n}");
    }
    // the fixed joint f1 becomes a queryable frame, not a dof
    let fix = m.frame_id("fixmid").unwrap();
    assert_eq!((m.frames[fix].anchor, &m.frames[fix].chain), (Some(0), &vec![1]));
    assert!(m.frame_id("tipA").is_some() && m.frame_id("tipB").is_some());
}

#[test]
fn fixed_only_is_zero_dof() {
    let m = compile_str(&robot(&format!(
        "{}{}",
        links(&["base", "tip"]),
        joint("f", "fixed", "base", "tip", "0 0 1", "")
    )))
    .unwrap();
    assert_eq!(m.ndof, 0);
    assert_eq!(m.frame_name(m.tip_frame()), "tip");
}

#[test]
fn redundant7_compiles() {
    let m = serial(7, 1.0);
    assert_eq!(m.ndof, 7);
    // topological invariant: parent index strictly less than own index
    for (i, p) in m.parent.iter().enumerate() {
        if let Some(p) = p {
            assert!(*p < i);
        }
    }
}

fn with_collision(shape: &str) -> Model {
    compile_str(&robot(&format!(
        "<link name=\"base\"/><link name=\"l1\"><collision><geometry>{shape}</geometry>\
         </collision></link>{}",
        joint("j1", "revolute", "base", "l1", "0 0 1", &limit(-1.0, 1.0, 1.0, 1.0))
    )))
    .unwrap()
}

#[test]
fn parses_box_collisions() {
    let m = with_collision("<box size=\"0.12 0.12 0.3\"/>");
    assert_eq!(m.collision.len(), 1);
    match &m.collision[0].shape {
        CollisionShape::Box { half } => {
            assert!((f(half.x) - 0.06).abs() < 1e-12); // size 0.12 → half 0.06
            assert!((f(half.z) - 0.15).abs() < 1e-12); // size 0.3  → half 0.15
        }
        other => panic!("expected box, got {other:?}"),
    }
    assert_eq!((m.collision[0].link, m.collision[0].index), (1, 0));
}

#[test]
fn parses_shapes_and_skips_mesh() {
    let m = compile_str(&robot(&format!(
        "<link name=\"base\"/>\
         <link name=\"l1\"><collision><geometry><sphere radius=\"0.1\"/></geometry></collision>\
         </link>\
         <link name=\"l2\"><collision><geometry><cylinder radius=\"0.05\" length=\"0.2\"/>\
         </geometry></collision></link>\
         <link name=\"l3\"><collision><geometry><mesh filename=\"hand.stl\"/></geometry>\
         </collision></link>{}{}{}",
        joint("j1", "revolute", "base", "l1", "0 0 1", &limit(-1.0, 1.0, 1.0, 1.0)),
        joint("w", "fixed", "l1", "l2", "0 0 1", ""),
        joint("x", "fixed", "l2", "l3", "0 0 1", "")
    )))
    .unwrap();
    // sphere + cylinder parsed; mesh skipped → 2 colliders
    assert_eq!(m.collision.len(), 2);
    let mut saw_sphere = false;
    let mut saw_cyl = false;
    for g in &m.collision {
        match &g.shape {
            CollisionShape::Sphere { radius } => {
                saw_sphere = true;
                assert!((f(*radius) - 0.1).abs() < 1e-12);
            }
            CollisionShape::Cylinder { radius, length } => {
                saw_cyl = true;
                assert!((f(*radius) - 0.05).abs() < 1e-12 && (f(*length) - 0.2).abs() < 1e-12);
                // the cylinder rides the welded l2 frame
                assert_eq!(m.frames[g.frame].name, "l2");
                assert_eq!(m.frames[g.frame].chain, vec![1]);
            }
            other => panic!("only sphere + cylinder here, got {other:?}"),
        }
    }
    assert!(saw_sphere && saw_cyl);
    assert_eq!(m.dropped_collider_frames, vec![m.frame_id("l3").unwrap()]);
}

#[test]
fn no_collision_geometry_is_empty() {
    assert!(toy().collision.is_empty());
}

#[test]
fn parses_capsule_collision_not_dropped() {
    let m = with_collision("<capsule radius=\"0.1\" length=\"0.4\"/>");
    assert_eq!(m.collision.len(), 1, "the capsule became one collider");
    assert!(m.dropped_collider_frames.is_empty());
    match &m.collision[0].shape {
        CollisionShape::Capsule { radius, length } => {
            assert!((f(*radius) - 0.1).abs() < 1e-12);
            assert!((f(*length) - 0.4).abs() < 1e-12);
        }
        other => panic!("expected Capsule, got {other:?}"),
    }
    assert_eq!(m.collision[0].frame, m.frame_id("l1").unwrap());
}

/// A binary STL of the unit cube: two triangles per side.
fn unit_cube() -> Vec<u8> {
    let corner = |k: usize| -> [f32; 3] {
        [
            if k & 1 == 0 { -0.5 } else { 0.5 },
            if k & 2 == 0 { -0.5 } else { 0.5 },
            if k & 4 == 0 { -0.5 } else { 0.5 },
        ]
    };
    let sides = [
        [0, 1, 3, 2],
        [4, 5, 7, 6],
        [0, 1, 5, 4],
        [2, 3, 7, 6],
        [0, 2, 6, 4],
        [1, 3, 7, 5],
    ];
    let mut b = vec![0u8; 80];
    b.extend_from_slice(&12u32.to_le_bytes());
    for q in sides {
        for t in [[q[0], q[1], q[2]], [q[0], q[2], q[3]]] {
            b.extend_from_slice(&[0u8; 12]);
            for k in t {
                for c in corner(k) {
                    b.extend_from_slice(&c.to_le_bytes());
                }
            }
            b.extend_from_slice(&[0u8; 2]);
        }
    }
    b
}

#[test]
fn loads_mesh_as_convex_hull() {
    let m = with_collision("<mesh filename=\"unit_cube.stl\"/>");
    assert_eq!(m.collision.len(), 1, "the mesh became one collider");
    assert!(m.dropped_collider_frames.is_empty());
    match &m.collision[0].shape {
        CollisionShape::ConvexHull { points } => {
            assert_eq!(points.len(), 8, "unit cube hull = 8 corners");
            for p in points {
                for c in [p.x, p.y, p.z] {
                    assert!((f(c).abs() - 0.5).abs() < 1e-9);
                }
            }
        }
        other => panic!("expected ConvexHull, got {other:?}"),
    }
    assert_eq!(m.collision[0].frame, m.frame_id("l1").unwrap());
}

#[test]
fn mesh_scale_is_applied_before_hull() {
    let m = with_collision("<mesh filename=\"unit_cube.stl\" scale=\"2 2 2\"/>");
    match &m.collision[0].shape {
        CollisionShape::ConvexHull { points } => {
            assert_eq!(points.len(), 8);
            for p in points {
                for c in [p.x, p.y, p.z] {
                    assert!((f(c).abs() - 1.0).abs() < 1e-9);
                }
            }
        }
        other => panic!("expected ConvexHull, got {other:?}"),
    }
}

#[test]
fn missing_mesh_file_stays_dropped() {
    let m = with_collision("<mesh filename=\"hand.stl\"/>");
    assert!(m.collision.is_empty());
    assert_eq!(m.dropped_collider_frames.len(), 1);
}

#[test]
fn rejects_disconnected() {
    let l = limit(-1.0, 1.0, 1.0, 1.0);
    let err = compile_str(&robot(&format!(
        "{}{}{}{}",
        links(&["base", "l1", "x", "y"]),
        joint("j1", "revolute", "base", "l1", "0 0 1", &l),
        joint("j2", "revolute", "x", "y", "0 0 1", &l),
        joint("j3", "revolute", "y", "x", "0 0 1", &l)
    )))
    .unwrap_err();
    assert!(matches!(err, CompileError::Disconnected(_)), "got {err:?}");
}

fn visuals() -> Model {
    compile_str(&robot(&format!(
        "<material name=\"steel\"><color rgba=\"0.2 0.4 0.8 1\"/></material>\
         <link name=\"base\"><visual><geometry><box size=\"0.2 0.2 0.1\"/></geometry>\
         <material name=\"red\"><color rgba=\"0.9 0.1 0.1 1\"/></material></visual></link>\
         <link name=\"l1\"><visual><geometry><cylinder radius=\"0.04\" length=\"0.3\"/>\
         </geometry><material name=\"steel\"/></visual>\
         <visual><geometry><sphere radius=\"0.05\"/></geometry></visual></link>\
         <link name=\"l2\"><visual><geometry><mesh filename=\"unit_cube.stl\" scale=\"2 2 2\"/>\
         </geometry></visual>\
         <visual><geometry><mesh filename=\"ghost_missing.stl\"/></geometry></visual></link>{}{}",
        joint("j1", "revolute", "base", "l1", "0 0 1", &limit(-1.0, 1.0, 1.0, 1.0)),
        joint("j2", "revolute", "l1", "l2", "0 0 1", &limit(-1.0, 1.0, 1.0, 1.0))
    )))
    .unwrap()
}

fn rgba(r: f32, g: f32, b: f32, a: f32) -> Color {
    let s = |x: f32| Single { bits: x.to_bits() };
    Color { r: s(r), g: s(g), b: s(b), a: s(a) }
}

#[test]
fn parses_visual_primitives_with_colors() {
    let m = visuals();
    assert_eq!(m.ndof, 2, "visuals must not change kinematics");
    assert_eq!(m.visuals.len(), 5);
    let on = |link: &str| {
        let fr = m.frame_id(link).unwrap();
        m.visuals.iter().filter(move |x| x.frame == fr).collect::<Vec<_>>()
    };
    let base = on("base");
    assert_eq!(base.len(), 1);
    match &base[0].shape {
        VisualShape::Box { half } => {
            assert!((f(half.x) - 0.1).abs() < 1e-12); // size 0.2 → half 0.1
            assert!((f(half.z) - 0.05).abs() < 1e-12); // size 0.1 → half 0.05
        }
        other => panic!("expected box, got {other:?}"),
    }
    assert_eq!(base[0].color, Some(rgba(0.9, 0.1, 0.1, 1.0)), "inline rgba");
    let l1 = on("l1");
    assert_eq!(l1.len(), 2);
    match &l1[0].shape {
        VisualShape::Cylinder { radius, length } => {
            assert!((f(*radius) - 0.04).abs() < 1e-12 && (f(*length) - 0.3).abs() < 1e-12);
        }
        other => panic!("expected cylinder, got {other:?}"),
    }
    assert_eq!(l1[0].color, Some(rgba(0.2, 0.4, 0.8, 1.0)), "named material");
    match &l1[1].shape {
        VisualShape::Sphere { radius } => assert!((f(*radius) - 0.05).abs() < 1e-12),
        other => panic!("expected sphere, got {other:?}"),
    }
    assert_eq!(l1[1].color, None, "no material → no color");
    assert_eq!((l1[1].link, l1[1].index), (1, 1));
}

#[test]
fn visual_mesh_paths_resolve() {
    let m = visuals();
    match &m.visuals[3].shape {
        VisualShape::Mesh { path, raw, scale } => {
            assert_eq!(path.as_deref(), Some("/meshes/unit_cube.stl"));
            assert_eq!(raw, "unit_cube.stl");
            assert_eq!(*scale, Vec3::new(s(2.0), s(2.0), s(2.0)));
        }
        other => panic!("expected mesh, got {other:?}"),
    }
    match &m.visuals[4].shape {
        VisualShape::Mesh { path, raw, scale } => {
            assert!(path.is_none(), "ghost mesh must not resolve");
            assert_eq!(raw, "ghost_missing.stl");
            assert_eq!(*scale, Vec3::new(s(1.0), s(1.0), s(1.0)), "default scale");
        }
        other => panic!("expected mesh, got {other:?}"),
    }
}

fn gripper_mimic() -> Model {
    let l = limit(-1.0, 1.0, 1.0, 1.0);
    compile_str(&robot(&format!(
        "{}{}{}{}{}",
        links(&["base", "a", "w", "f1", "f2"]),
        joint("arm", "revolute", "base", "a", "0 0 1", &l),
        joint(
            "wrist",
            "revolute",
            "a",
            "w",
            "0 0 1",
            &format!("{l}<mimic joint=\"arm\" multiplier=\"0.5\" offset=\"0.1\"/>")
        ),
        joint("finger1", "prismatic", "w", "f1", "0 1 0", &l),
        joint(
            "finger2",
            "prismatic",
            "w",
            "f2",
            "0 1 0",
            &format!("{l}<mimic joint=\"finger1\" multiplier=\"-1\"/>")
        )
    )))
    .unwrap()
}

#[test]
fn parses_mimic_constraints() {
    let m = gripper_mimic();
    // full space is untouched: 4 movable joints, all arrays len 4
    assert_eq!(m.ndof, 4);
    assert_eq!(m.joint_names, vec!["arm", "wrist", "finger1", "finger2"]);
    assert_eq!(m.mimic.len(), 4);
    assert!(m.has_mimic());
    assert_eq!(m.mimic[0], None);
    assert_eq!(m.mimic[1], Some(MimicInfo { source: 0, multiplier: s(0.5), offset: s(0.1) }));
    assert_eq!(m.mimic[2], None);
    assert_eq!(m.mimic[3], Some(MimicInfo { source: 2, multiplier: s(-1.0), offset: s(0.0) }));
    assert_eq!(m.ndof_independent(), 2);
    assert_eq!(m.independent_dofs(), vec![0, 2]);
}

#[test]
fn mimic_defaults_multiplier_one_offset_zero() {
    let l = limit(-1.0, 1.0, 1.0, 1.0);
    let m = compile_str(&robot(&format!(
        "{}{}{}",
        links(&["a", "b", "c"]),
        joint("j1", "revolute", "a", "b", "0 0 1", &l),
        joint("j2", "revolute", "b", "c", "0 0 1", &format!("{l}<mimic joint=\"j1\"/>"))
    )))
    .unwrap();
    assert_eq!(m.mimic[1], Some(MimicInfo { source: 0, multiplier: s(1.0), offset: s(0.0) }));
}

#[test]
fn expand_reduce_round_trip() {
    let m = gripper_mimic();
    let q_red = v(&[0.7, 0.03]);
    let q_full = m.expand_mimic(&q_red);
    assert_eq!(q_full.len(), 4);
    assert_eq!(f(q_full[0]), 0.7);
    assert!((f(q_full[1]) - (0.5 * 0.7 + 0.1)).abs() < 1e-15, "wrist = 0.5*arm + 0.1");
    assert_eq!(f(q_full[2]), 0.03);
    assert!((f(q_full[3]) - (-0.03)).abs() < 1e-15, "finger2 = -finger1");
    assert_eq!(m.reduce_config(&q_full), q_red);
}

#[test]
fn no_mimic_helpers_degrade_to_identity() {
    let m = serial(6, 1.0);
    assert!(!m.has_mimic());
    assert!(m.mimic.iter().all(|x| x.is_none()));
    assert_eq!(m.mimic.len(), m.ndof);
    assert_eq!(m.ndof_independent(), m.ndof);
    assert_eq!(m.independent_dofs(), (0..m.ndof).collect::<Vec<_>>());
    let q = v(&[0.3, -0.4, 0.6, 0.2, -0.5, 0.1]);
    assert_eq!(m.expand_mimic(&q), q);
    assert_eq!(m.reduce_config(&q), q);
}

#[test]
fn rejects_mimic_of_mimic_and_unknown_source() {
    let base = |mimic2: &str| {
        let l = limit(-1.0, 1.0, 1.0, 1.0);
        robot(&format!(
            "{}{}{}{}",
            links(&["a", "b", "c", "d"]),
            joint("j1", "revolute", "a", "b", "0 0 1", &l),
            joint("j2", "revolute", "b", "c", "0 0 1", &format!("{l}<mimic joint=\"j1\"/>")),
            joint("j3", "revolute", "c", "d", "0 0 1", &format!("{l}<mimic joint=\"{mimic2}\"/>"))
        ))
    };
    let err = compile_str(&base("j2")).unwrap_err();
    assert!(
        matches!(&err, CompileError::MimicOfMimic { joint, src_joint }
            if joint == "j3" && src_joint == "j2"),
        "got {err:?}"
    );
    let err = compile_str(&base("ghost")).unwrap_err();
    assert!(
        matches!(&err, CompileError::MimicUnknownSource { joint, src_joint }
            if joint == "j3" && src_joint == "ghost"),
        "got {err:?}"
    );
}

#[test]
fn rejects_mimic_on_fixed_joint() {
    let l = limit(-1.0, 1.0, 1.0, 1.0);
    let err = compile_str(&robot(&format!(
        "{}{}{}",
        links(&["a", "b", "c"]),
        joint("j1", "revolute", "a", "b", "0 0 1", &l),
        joint("jf", "fixed", "b", "c", "0 0 1", "<mimic joint=\"j1\"/>")
    )))
    .unwrap_err();
    assert!(matches!(&err, CompileError::MimicUnsupportedJoint(j) if j == "jf"), "got {err:?}");
}

#[test]
fn descriptions_that_are_no_tree_are_refused() {
    let l = limit(-1.0, 1.0, 1.0, 1.0);
    let j = |n: &str, a: &str, b: &str| joint(n, "revolute", a, b, "0 0 1", &l);
    let err = |body: String| compile_str(&robot(&body)).unwrap_err();
    assert!(matches!(
        err(format!("{}{}", links(&["a"]), j("j1", "a", "ghost"))),
        CompileError::DanglingLink(n) if n == "ghost"
    ));
    assert!(matches!(
        err(format!("{}{}{}", links(&["a", "b", "c"]), j("j1", "a", "c"), j("j2", "b", "c"))),
        CompileError::MultiParent(n) if n == "c"
    ));
    assert!(matches!(err(links(&["a", "b"])), CompileError::MultiRoot));
    assert!(matches!(
        err(format!("{}{}{}", links(&["a", "b"]), j("j1", "a", "b"), j("j2", "b", "a"))),
        CompileError::NoRoot
    ));
    assert!(matches!(
        err(format!("{}{}", links(&["a", "b"]), joint("z", "revolute", "a", "b", "0 0 0", &l))),
        CompileError::ZeroAxis(n) if n == "z"
    ));
    assert!(matches!(
        err(format!("{}{}", links(&["a", "b"]), joint("p", "planar", "a", "b", "0 0 1", &l))),
        CompileError::UnsupportedJoint(n) if n == "Planar"
    ));
}

#[test]
fn existing_fixtures_visuals_and_kinematics_unchanged() {
    assert!(toy().visuals.is_empty());
    assert!(with_collision("<sphere radius=\"1\"/>").visuals.is_empty());
    let m = visuals();
    assert!(m.visuals.iter().all(|x| x.frame < m.frames.len()));
    let r = Robot::from_urdf(&parse(&robot(&links(&["only"])))).unwrap();
    assert_eq!(r.ndof(), 0);
}

// ---- grippers ----

#[test]
fn name_hints_are_case_insensitive_substrings() {
    assert!(is_gripper_name("gripper"));
    assert!(is_gripper_name("panda_finger_joint1"));
    assert!(is_gripper_name("LEFT_JAW"));
    assert!(is_gripper_name("Claw"));
    assert!(is_gripper_name("robotiq_hand_e"));
    assert!(!is_gripper_name("j2"));
    assert!(!is_gripper_name("wrist_roll"));
    assert!(!is_gripper_name(""));
}

#[test]
fn a_plain_arm_has_no_gripper() {
    assert_eq!(find_gripper_joint(&toy()), None);
    assert_eq!(find_gripper_joint(&serial(6, 1.0)), None);
}

#[test]
fn so101_detects_through_its_child_link() {
    // Joints numbered `1`..`3`; only the link names say what they are. Joint 2's child
    // link is `gripper` and joint 3's is `jaw`: both match, and the distal one must win.
    let l = limit(-1.0, 1.0, 1.0, 1.0);
    let m = compile_str(&robot(&format!(
        "{}{}{}{}",
        links(&["base", "wrist", "gripper", "jaw"]),
        joint("1", "revolute", "base", "wrist", "0 0 1", &l),
        joint("2", "revolute", "wrist", "gripper", "0 0 1", &l),
        joint("3", "revolute", "gripper", "jaw", "0 0 1", &l)
    )))
    .unwrap();
    let g = find_gripper_joint(&m).expect("must expose a gripper channel");
    assert_eq!(m.joint_names[g], "3");
    assert_eq!(child_link_name(&m, g), Some("jaw"));
    let (open, closed) = gripper_targets(&m, g, true).unwrap();
    let (lo, hi) = m.limits[g].unwrap();
    assert!(f(closed) > f(lo) && f(closed) < f(open) && f(open) < f(hi));
}

#[test]
fn panda_picks_the_driving_finger_not_the_mimic() {
    let m = gripper_mimic();
    let g = find_gripper_joint(&m).expect("must expose a gripper channel");
    assert_eq!(m.joint_names[g], "finger1");
    assert!(m.mimic[g].is_none());
    assert_eq!(child_link_name(&m, g), Some("f1"));
}

#[test]
fn child_link_is_the_joints_own_output_frame() {
    let m = toy();
    assert_eq!(child_link_name(&m, 0), Some("l1"));
    assert_eq!(child_link_name(&m, 1), Some("l2"));
    assert_eq!(child_link_name(&m, 2), None);
    assert_eq!(child_link_frame(&m, 9), None);
}

#[test]
fn targets_inset_from_the_limits_and_respect_the_closed_end() {
    let m = compile_str(&robot(&format!(
        "{}{}",
        links(&["base", "l1"]),
        joint("gripper", "revolute", "base", "l1", "0 0 1", &limit(-0.2, 1.7, 1.0, 1.0))
    )))
    .unwrap();
    let g = find_gripper_joint(&m).expect("the description has a `gripper` joint");
    assert_eq!(m.joint_names[g], "gripper");
    let (lo, hi) = m.limits[g].unwrap();
    let (lo, hi) = (f(lo), f(hi));
    let inset = f64::from_bits(GRIPPER_TARGET_INSET_BITS) * (hi - lo);
    assert_eq!(gripper_targets(&m, g, true), Some((s(hi - inset), s(lo + inset))));
    assert_eq!(gripper_targets(&m, g, false), Some((s(lo + inset), s(hi - inset))));
}

#[test]
fn a_limitless_name_match_is_not_a_channel() {
    let urdf = r#"<?xml version="1.0"?>
      <robot name="freehand">
        <link name="base"/><link name="hand"/>
        <joint name="wrist_to_hand" type="continuous">
          <parent link="base"/><child link="hand"/>
          <origin xyz="0 0 0.1"/><axis xyz="0 0 1"/>
        </joint>
      </robot>"#;
    let m = compile_str(urdf).unwrap();
    assert!(is_gripper_name(&m.joint_names[0]));
    assert_eq!(gripper_targets(&m, 0, true), None);
    assert_eq!(find_gripper_joint(&m), None);
}

// ---- STL ----

fn bin_tri(verts: [[f32; 3]; 3]) -> Vec<u8> {
    let mut b = vec![0u8; 80]; // header
    b.extend_from_slice(&1u32.to_le_bytes()); // count
    b.extend_from_slice(&[0u8; 12]); // normal
    for t in verts {
        for c in t {
            b.extend_from_slice(&c.to_le_bytes());
        }
    }
    b.extend_from_slice(&[0u8; 2]); // attribute
    b
}

#[test]
fn parses_binary_triangle() {
    let b = bin_tri([[0.0, 0.0, 0.0], [1.0, 0.0, 0.0], [0.0, 1.0, 0.0]]);
    assert!(looks_binary(&b));
    let t = parse_stl(&b).unwrap();
    assert_eq!(t.len(), 3);
    assert_eq!(t[1], Vec3::new(s(1.0), s(0.0), s(0.0)));
}

#[test]
fn parses_ascii_triangle() {
    let text = "solid t\nfacet normal 0 0 1\nouter loop\n\
             vertex 0 0 0\nvertex 2 0 0\nvertex 0 3 0\n\
             endloop\nendfacet\nendsolid t\n";
    assert!(!looks_binary(text.as_bytes()));
    let t = parse_stl(text.as_bytes()).unwrap();
    assert_eq!(t.len(), 3);
    assert_eq!(t[2], Vec3::new(s(0.0), s(3.0), s(0.0)));
}

#[test]
fn truncated_binary_rejected() {
    let mut b = bin_tri([[0.0, 0.0, 0.0], [1.0, 0.0, 0.0], [0.0, 1.0, 0.0]]);
    // claim two triangles but only ship one body
    b[80] = 2;
    assert!(parse_stl(&b).is_none());
}

#[test]
fn empty_or_garbage_is_none() {
    assert!(parse_stl(b"").is_none());
    assert!(parse_stl(b"solid nothing here endsolid").is_none());
    assert!(parse_stl(b"solid x vertex 1 2").is_none());
    assert!(parse_stl(b"vertex 1 2 inf").is_none());
    assert!(parse_stl(&[0xFF, 0xFE, 0x00]).is_none());
}

#[test]
fn ascii_text_beyond_ascii_is_read() {
    // the header of a text file may hold any characters
    let text = "solid größe\nvertex 1e-1 -2.5 .5\n";
    let t = parse_stl(text.as_bytes()).unwrap();
    assert_eq!(t, vec![Vec3::new(s(0.1), s(-2.5), s(0.5))]);
}

// ---- mesh names ----

#[test]
fn package_path_env_resolution() {
    let name = mesh_name("package://demo_pkg/meshes/part.stl").unwrap();
    match name {
        MeshName::InPackage { package, rest } => {
            assert_eq!((package.as_str(), rest.as_str()), ("demo_pkg", "meshes/part.stl"));
        }
        MeshName::File(_) => panic!("a package name"),
    }
    assert!(package_places(0, 0).is_empty(), "no dir, no env → nowhere");
    let places = package_places(0, 1);
    assert_eq!(places[0], Place { base: Base::Root(0), with_package: true });
    assert_eq!(package_roots("/a::/b:"), vec!["/a".to_string(), "/b".to_string()]);
    assert!(package_roots("").is_empty());
}

#[test]
fn places_are_tried_in_order() {
    let p = package_places(2, 1);
    let at = |base, with_package| Place { base, with_package };
    assert_eq!(
        p,
        vec![
            at(Base::Above(0), false),
            at(Base::Above(0), true),
            at(Base::Above(0), false),
            at(Base::Above(1), true),
            at(Base::Above(1), false),
            at(Base::Root(0), true),
            at(Base::Root(0), false),
        ]
    );
    assert_eq!(package_places(100, 0).len(), 15);
}

#[test]
fn mesh_names_are_read() {
    assert!(mesh_name("package://").is_none());
    assert!(mesh_name("package://pkg").is_none());
    assert!(mesh_name("package:///x").is_none());
    assert!(mesh_name("package://pkg/").is_none());
    assert!(matches!(mesh_name("file:///a/b.stl"), Some(MeshName::File(n)) if n == "/a/b.stl"));
    assert_eq!(collision_mesh_file("file://x.stl").as_deref(), Some("x.stl"));
    assert!(collision_mesh_file("file://package://p/x.stl").is_none());
    assert!(is_stl(Some("STL")) && is_stl(Some("stl")) && !is_stl(Some("dae")) && !is_stl(None));
}
