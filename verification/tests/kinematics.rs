use caliper::kinematics::fk::{fk_frame, fk_joints, fk_tip, frame_pose};
use caliper::kinematics::jacobian::{carrying_joints, expressed_in, jacobian, reduced_columns};
use caliper::kinematics::lint::{lint_path, Detail, LintLimits, LintOptions};
use caliper::kinematics::report::{path_report, PathReport, PathRows};
use caliper::kinematics::singular::{
    classify, ellipsoid, product_of, study_jacobian, workable, Decomposition, JacobianStudy,
    SingularityGovernor, SingularityParams, SingularityReport, Twist,
};
use caliper::kinematics::{Finding, JacFrame, LintSeverity, SingularityKind};
use caliper::model::urdf::{UrdfJoint, UrdfJointType, UrdfLink, UrdfMimic, UrdfRobot};
use caliper::model::{JointKind, Model};
use caliper::scalar::{Scalar, Vec3};
use nalgebra::{DMatrix, Isometry3, Matrix3, SymmetricEigen, Translation3, UnitQuaternion, Vector3};
use std::f64::consts::PI;

fn s(x: f64) -> Scalar {
    Scalar { bits: x.to_bits() }
}

fn v(xs: &[f64]) -> Vec<Scalar> {
    xs.iter().map(|x| s(*x)).collect()
}

fn f(x: Scalar) -> f64 {
    f64::from_bits(x.bits)
}

fn vec3(p: &urdf_rs::Vec3) -> Vec3 {
    Vec3::new(s(p.0[0]), s(p.0[1]), s(p.0[2]))
}

fn to_vec3(p: &Vector3<f64>) -> Vec3 {
    Vec3::new(s(p.x), s(p.y), s(p.z))
}

fn of_vec3(p: Vec3) -> Vector3<f64> {
    Vector3::new(f(p.x), f(p.y), f(p.z))
}

/// A compiled description with the placements of its joints.
struct Bot {
    model: Model,
    places: Vec<Isometry3<f64>>,
}

fn load(text: &str) -> Bot {
    let r = urdf_rs::read_from_string(text).unwrap();
    let description = UrdfRobot {
        name: r.name.clone(),
        links: r
            .links
            .iter()
            .map(|l| UrdfLink {
                name: l.name.clone(),
                mass: s(l.inertial.mass.value),
                collision: vec![],
                visual: vec![],
            })
            .collect(),
        joints: r
            .joints
            .iter()
            .map(|j| UrdfJoint {
                name: j.name.clone(),
                joint_type: match j.joint_type {
                    urdf_rs::JointType::Revolute => UrdfJointType::Revolute,
                    urdf_rs::JointType::Prismatic => UrdfJointType::Prismatic,
                    urdf_rs::JointType::Fixed => UrdfJointType::Fixed,
                    ref other => UrdfJointType::Other(format!("{other:?}")),
                },
                parent: j.parent.link.clone(),
                child: j.child.link.clone(),
                axis: vec3(&j.axis.xyz),
                lower: s(j.limit.lower),
                upper: s(j.limit.upper),
                velocity: s(j.limit.velocity),
                effort: s(j.limit.effort),
                mimic: j.mimic.as_ref().map(|m| UrdfMimic {
                    joint: m.joint.clone(),
                    multiplier: m.multiplier.map(s),
                    offset: m.offset.map(s),
                }),
            })
            .collect(),
        materials: vec![],
    };
    let places = r
        .joints
        .iter()
        .map(|j| {
            let (p, e) = (&j.origin.xyz.0, &j.origin.rpy.0);
            Isometry3::from_parts(
                Translation3::new(p[0], p[1], p[2]),
                UnitQuaternion::from_euler_angles(e[0], e[1], e[2]),
            )
        })
        .collect();
    Bot { model: Model::from_urdf(&description).unwrap(), places }
}

fn compose(a: Isometry3<f64>, b: Isometry3<f64>) -> Isometry3<f64> {
    a * b
}

fn moves(m: &Model, q: &[f64]) -> Vec<Isometry3<f64>> {
    (0..m.ndof)
        .map(|i| {
            let axis = of_vec3(m.axis[i]);
            match m.kind[i] {
                JointKind::Revolute => Isometry3::rotation(axis * q[i]),
                JointKind::Prismatic => {
                    let t = axis * q[i];
                    Isometry3::translation(t.x, t.y, t.z)
                }
            }
        })
        .collect()
}

impl Bot {
    fn frame(&self, q: &[f64], frame: usize) -> Isometry3<f64> {
        let mv = moves(&self.model, q);
        fk_frame(&self.model, &self.places, &mv, frame, Isometry3::identity(), &compose)
    }

    fn joints(&self, q: &[f64]) -> Vec<Isometry3<f64>> {
        let mv = moves(&self.model, q);
        fk_joints(&self.model, &self.places, &mv, Isometry3::identity(), &compose)
    }

    fn tip(&self, q: &[f64]) -> Isometry3<f64> {
        let mv = moves(&self.model, q);
        fk_tip(&self.model, &self.places, &mv, Isometry3::identity(), &compose)
    }

    fn columns(&self, q: &[f64], frame: usize, seen: JacFrame) -> (Isometry3<f64>, Vec<Twist>) {
        let jw = self.joints(q);
        let ee =
            frame_pose(&self.model, &jw, frame, &self.places, Isometry3::identity(), &compose);
        let axes: Vec<Vec3> = (0..self.model.ndof)
            .map(|i| to_vec3(&(jw[i].rotation * of_vec3(self.model.axis[i]))))
            .collect();
        let at: Vec<Vec3> = jw.iter().map(|p| to_vec3(&p.translation.vector)).collect();
        let cols = jacobian(&self.model, frame, &axes, &at, to_vec3(&ee.translation.vector));
        let back = ee.rotation.inverse();
        (ee, expressed_in(cols, seen, &|x: Vec3| to_vec3(&(back * of_vec3(x)))))
    }

    fn jac(&self, q: &[f64], frame: usize, seen: JacFrame) -> (Isometry3<f64>, DMatrix<f64>) {
        let (ee, cols) = self.columns(q, frame, seen);
        (ee, matrix(&cols))
    }

    fn frame_reduced(&self, q_red: &[f64], frame: usize) -> Isometry3<f64> {
        self.frame(&self.expand(q_red), frame)
    }

    fn expand(&self, q_red: &[f64]) -> Vec<f64> {
        self.model.expand_mimic(&v(q_red)).iter().map(|x| f(*x)).collect()
    }

    fn jac_reduced(&self, q: &[f64], frame: usize, seen: JacFrame) -> (Isometry3<f64>, DMatrix<f64>) {
        let (ee, cols) = self.columns(&self.expand(q), frame, seen);
        (ee, matrix(&reduced_columns(&self.model, &cols)))
    }

    fn analyze(&self, q: &[f64]) -> SingularityReport {
        let (_, j) = self.jac(q, self.model.tip_frame(), JacFrame::World);
        study(&j).report
    }

    fn singular_values(&self, q: &[f64]) -> Vec<Scalar> {
        let (_, j) = self.jac(q, self.model.tip_frame(), JacFrame::World);
        values(&j)
    }
}

fn matrix(cols: &[Twist]) -> DMatrix<f64> {
    DMatrix::from_fn(6, cols.len(), |r, c| {
        let t = &cols[c];
        f([t.lin.x, t.lin.y, t.lin.z, t.ang.x, t.ang.y, t.ang.z][r])
    })
}

fn values(j: &DMatrix<f64>) -> Vec<Scalar> {
    if !workable(&columns_of(j)) {
        return vec![];
    }
    j.clone().svd(false, false).singular_values.iter().map(|x| s(*x)).collect()
}

fn columns_of(j: &DMatrix<f64>) -> Vec<Twist> {
    j.column_iter()
        .map(|c| Twist {
            lin: Vec3::new(s(c[0]), s(c[1]), s(c[2])),
            ang: Vec3::new(s(c[3]), s(c[4]), s(c[5])),
        })
        .collect()
}

fn decompose(cols: &Vec<Twist>) -> Option<Decomposition> {
    let j = matrix(cols);
    let svd = j.clone().svd(true, true);
    let k = svd.singular_values.len();
    let escape: Vec<f64> = svd.v_t.as_ref()?.row(k - 1).iter().copied().collect();
    let u: Vec<f64> = svd.u.as_ref()?.column(k - 1).iter().copied().collect();
    let eig = SymmetricEigen::new(j.transpose() * j);
    Some(Decomposition {
        values: svd.singular_values.iter().map(|x| s(*x)).collect(),
        escape: v(&escape),
        lost: Twist {
            lin: Vec3::new(s(u[0]), s(u[1]), s(u[2])),
            ang: Vec3::new(s(u[3]), s(u[4]), s(u[5])),
        },
        eigenvalues: eig.eigenvalues.iter().map(|x| s(*x)).collect(),
        eigenvectors: eig.eigenvectors.column_iter().map(|c| v(c.as_slice())).collect(),
    })
}

fn study(j: &DMatrix<f64>) -> JacobianStudy {
    study_jacobian(&columns_of(j), &decompose, &SingularityParams::default())
}

fn link(name: &str) -> String {
    format!("<link name=\"{name}\"/>")
}

fn joint(name: &str, kind: &str, ends: (&str, &str), at: &str, axis: &str, rest: &str) -> String {
    format!(
        "<joint name=\"{name}\" type=\"{kind}\"><parent link=\"{}\"/><child link=\"{}\"/>\
         <origin xyz=\"{at}\"/><axis xyz=\"{axis}\"/>{rest}</joint>",
        ends.0, ends.1
    )
}

fn limit(lo: f64, hi: f64) -> String {
    format!("<limit lower=\"{lo}\" upper=\"{hi}\" effort=\"10\" velocity=\"3\"/>")
}

fn robot(parts: &[String]) -> Bot {
    load(&format!("<robot name=\"r\">{}</robot>", parts.concat()))
}

/// A planar arm of two links, its joints limited to 3.14 either way.
fn toy() -> Bot {
    let l = limit(-3.14, 3.14);
    robot(&[
        link("base"),
        link("link1"),
        link("link2"),
        link("tip"),
        joint("j1", "revolute", ("base", "link1"), "0 0 0.1", "0 0 1", &l),
        joint("j2", "revolute", ("link1", "link2"), "0.1 0 0", "0 0 1", &l),
        joint("t", "fixed", ("link2", "tip"), "0.1 0 0", "1 0 0", ""),
    ])
}

/// A serial arm from axes and offsets, with a fixed tip.
fn serial(axes: &[&str], offsets: &[&str], tip: &str) -> Bot {
    let l = limit(-6.0, 6.0);
    let n = axes.len();
    let mut parts: Vec<String> = (0..=n).map(|i| link(&format!("l{i}"))).collect();
    parts.push(link("tip"));
    for i in 0..n {
        let ends = (format!("l{i}"), format!("l{}", i + 1));
        let name = format!("j{}", i + 1);
        parts.push(joint(&name, "revolute", (&ends.0, &ends.1), offsets[i], axes[i], &l));
    }
    parts.push(joint("t", "fixed", (&format!("l{n}"), "tip"), tip, "1 0 0", ""));
    robot(&parts)
}

/// Six joints, the last three of which meet: singular when stretched out.
fn showcase6() -> Bot {
    serial(
        &["0 0 1", "0 1 0", "0 1 0", "1 0 0", "0 1 0", "1 0 0"],
        &["0 0 0.4", "0 0 0", "0 0 0.5", "0.4 0 0", "0 0 0", "0 0 0"],
        "0.1 0 0",
    )
}

fn redundant7() -> Bot {
    serial(
        &["0 0 1", "0 1 0", "1 0 0", "0 1 0", "0 0 1", "1 0 0", "0 1 0"],
        &["0 0 0.4", "0 0 0.3", "0.2 0 0.1", "0.4 0 0", "0 0.1 0.3", "0.2 0 0", "0 0 0.2"],
        "0.1 0.1 0.1",
    )
}

/// An arm with a wrist that follows it by half, and two opposed fingers.
fn gripper_mimic() -> Bot {
    let l = limit(-2.0, 2.0);
    let fl = limit(0.0, 0.04);
    robot(&[
        link("base"),
        link("upper"),
        link("palm"),
        link("finger_l"),
        link("finger_r"),
        joint("arm", "revolute", ("base", "upper"), "0 0 0.1", "0 0 1", &l),
        joint(
            "wrist",
            "revolute",
            ("upper", "palm"),
            "0.3 0 0",
            "0 1 0",
            &format!("{l}<mimic joint=\"arm\" multiplier=\"0.5\" offset=\"0.1\"/>"),
        ),
        joint("finger1", "prismatic", ("palm", "finger_l"), "0.1 0.02 0", "0 1 0", &fl),
        joint(
            "finger2",
            "prismatic",
            ("palm", "finger_r"),
            "0.1 -0.02 0",
            "0 1 0",
            &format!("{}<mimic joint=\"finger1\" multiplier=\"-1\"/>", limit(-0.04, 0.0)),
        ),
    ])
}

fn xyz(p: &Isometry3<f64>) -> [f64; 3] {
    [p.translation.x, p.translation.y, p.translation.z]
}

#[test]
fn fk_home_pose() {
    let p = xyz(&toy().tip(&[0.0, 0.0]));
    assert!((p[0] - 0.2).abs() < 1e-12);
    assert!(p[1].abs() < 1e-12);
    assert!((p[2] - 0.1).abs() < 1e-12);
}

#[test]
fn fk_revolute_rotates_tip() {
    let p = xyz(&toy().tip(&[PI / 2.0, 0.0]));
    assert!(p[0].abs() < 1e-12);
    assert!((p[1] - 0.2).abs() < 1e-12);
    assert!((p[2] - 0.1).abs() < 1e-12);
}

#[test]
fn fk_frame_matches_fk_joints() {
    let b = toy();
    let q = [0.3, -0.4];
    let jw = b.joints(&q);
    for fr in 0..b.model.frames.len() {
        let x = b.frame(&q, fr);
        let y = frame_pose(&b.model, &jw, fr, &b.places, Isometry3::identity(), &compose);
        assert!((x.to_homogeneous() - y.to_homogeneous()).norm() < 1e-12);
    }
}

fn difference(tp: &Isometry3<f64>, tm: &Isometry3<f64>, h: f64) -> [f64; 6] {
    let lin = (tp.translation.vector - tm.translation.vector) / (2.0 * h);
    let ang = (tp.rotation * tm.rotation.inverse()).scaled_axis() / (2.0 * h);
    [lin.x, lin.y, lin.z, ang.x, ang.y, ang.z]
}

fn fd_jacobian(b: &Bot, q: &[f64], frame: usize, h: f64) -> DMatrix<f64> {
    let mut out = DMatrix::<f64>::zeros(6, q.len());
    for i in 0..q.len() {
        let (mut qp, mut qm) = (q.to_vec(), q.to_vec());
        qp[i] += h;
        qm[i] -= h;
        let d = difference(&b.frame(&qp, frame), &b.frame(&qm, frame), h);
        for r in 0..6 {
            out[(r, i)] = d[r];
        }
    }
    out
}

fn fd_jacobian_reduced(b: &Bot, q: &[f64], frame: usize, h: f64) -> DMatrix<f64> {
    let mut out = DMatrix::<f64>::zeros(6, q.len());
    for i in 0..q.len() {
        let (mut qp, mut qm) = (q.to_vec(), q.to_vec());
        qp[i] += h;
        qm[i] -= h;
        let d = difference(&b.frame_reduced(&qp, frame), &b.frame_reduced(&qm, frame), h);
        for r in 0..6 {
            out[(r, i)] = d[r];
        }
    }
    out
}

#[test]
fn jacobian_matches_finite_difference() {
    let b = toy();
    let frame = b.model.tip_frame();
    for q in [[0.3, -0.4], [1.0, 0.5], [-0.7, 1.2]] {
        let (_, jac) = b.jac(&q, frame, JacFrame::World);
        assert!((&jac - fd_jacobian(&b, &q, frame, 1e-6)).norm() < 1e-6);
    }
}

#[test]
fn jacobian_body_world_consistent() {
    let b = toy();
    let q = [0.6, -0.9];
    let fr = b.model.tip_frame();
    let (ee, jw) = b.jac(&q, fr, JacFrame::World);
    let (_, cols) = b.columns(&q, fr, JacFrame::Body);
    let back =
        expressed_in(cols, JacFrame::Body, &|x: Vec3| to_vec3(&(ee.rotation * of_vec3(x))));
    assert!((matrix(&back) - &jw).norm() < 1e-12);
}

fn singular_synthetic() -> DMatrix<f64> {
    let mut m = DMatrix::<f64>::zeros(6, 3);
    m[(0, 0)] = 1.0;
    m[(1, 1)] = 1.0;
    m[(2, 2)] = 1.0;
    let c1 = m.column(1).into_owned();
    m.set_column(2, &c1);
    m
}

#[test]
fn analyze_svd_identities() {
    let b = toy();
    let (_, j) = b.jac(&[0.4, 0.7], b.model.tip_frame(), JacFrame::World);
    let JacobianStudy { report: rep, escape_direction, .. } = study(&j);
    let e = nalgebra::DVector::from_iterator(2, escape_direction.iter().map(|x| f(*x)));
    assert!((e.norm() - 1.0).abs() < 1e-9);
    assert!(((&j * &e).norm() - f(rep.sigma_min)).abs() < 1e-9);
    assert!((f(rep.manipulability) - f(product_of(&values(&j)))).abs() < 1e-12);
    assert_eq!(rep.kind, SingularityKind::Regular);
}

#[test]
fn analyze_detects_rank_deficiency() {
    let j = singular_synthetic();
    let JacobianStudy { report: rep, nullspace_basis: basis, .. } = study(&j);
    assert!(f(rep.sigma_min) < 1e-9);
    assert!(f(rep.condition_number) > 1e10);
    assert_eq!(basis.len(), 1);
    assert_ne!(rep.kind, SingularityKind::Regular);
    let null = nalgebra::DVector::from_iterator(3, basis[0].iter().map(|x| f(*x)));
    assert!((&j * &null).norm() < 1e-9);
}

#[test]
fn redundant_arm_has_structural_nullspace() {
    let b = redundant7();
    assert_eq!(b.model.ndof, 7);
    let q = [0.3, -0.4, 0.6, 0.2, -0.5, 0.1, 0.35];
    let (_, j) = b.jac(&q, b.model.tip_frame(), JacFrame::World);
    let JacobianStudy { report: rep, nullspace_basis: basis, .. } = study(&j);
    assert_eq!(rep.kind, SingularityKind::Regular);
    assert!(!basis.is_empty());
    for c in &basis {
        let n_c = nalgebra::DVector::from_iterator(7, c.iter().map(|x| f(*x)));
        assert!((n_c.norm() - 1.0).abs() < 1e-9);
        assert!((&j * &n_c).norm() < 1e-9);
    }
}

#[test]
fn governor_damping_is_continuous_and_monotone() {
    let g = SingularityGovernor::new(SingularityParams::default());
    let e = f(g.params.eps_activate);
    let d = |x: f64| f(g.damping_sq(s(x)));
    assert_eq!(d(e + 1.0), 0.0);
    assert!(d(e - 1e-12) < 1e-6);
    assert!(d(0.0) > 0.0);
    assert!(d(e * 0.5) > d(e * 0.9));
}

#[test]
fn prismatic_fk_and_jacobian() {
    let b = robot(&[
        link("base"),
        link("turn"),
        link("slide"),
        link("tip"),
        joint("j1", "revolute", ("base", "turn"), "0 0 0.2", "0 0 1", &limit(-3.0, 3.0)),
        joint("j2", "prismatic", ("turn", "slide"), "0.1 0 0", "1 0 0", &limit(0.0, 0.5)),
        joint("t", "fixed", ("slide", "tip"), "0.1 0 0", "1 0 0", ""),
    ]);
    let home = xyz(&b.tip(&[0.0, 0.0]));
    let moved = xyz(&b.tip(&[0.0, 0.25]));
    assert!((moved[0] - (home[0] + 0.25)).abs() < 1e-12);
    assert!((moved[1] - home[1]).abs() < 1e-12 && (moved[2] - home[2]).abs() < 1e-12);
    let frame = b.model.tip_frame();
    let (_, jac) = b.jac(&[0.3, 0.2], frame, JacFrame::World);
    assert!((&jac - fd_jacobian(&b, &[0.3, 0.2], frame, 1e-6)).norm() < 1e-6);
}

#[test]
fn branched_ancestor_masking() {
    let l = limit(-3.0, 3.0);
    let b = robot(&[
        link("base"),
        link("trunk"),
        link("tipA"),
        link("tipB"),
        link("a"),
        link("b"),
        joint("j1", "revolute", ("base", "trunk"), "0 0 0.2", "0 0 1", &l),
        joint("j2", "revolute", ("trunk", "a"), "0.2 0 0", "0 1 0", &l),
        joint("j3", "revolute", ("trunk", "b"), "0 0.2 0", "1 0 0", &l),
        joint("ta", "fixed", ("a", "tipA"), "0.1 0 0", "1 0 0", ""),
        joint("tb", "fixed", ("b", "tipB"), "0 0.1 0", "1 0 0", ""),
    ]);
    let m = &b.model;
    let q = vec![0.3; m.ndof];
    let (fa, fb) = (m.frame_id("tipA").unwrap(), m.frame_id("tipB").unwrap());
    let (_, ja) = b.jac(&q, fa, JacFrame::World);
    let (_, jb) = b.jac(&q, fb, JacFrame::World);
    let col = |name: &str| m.joint_names.iter().position(|n| n == name).unwrap();
    assert!(ja.column(col("j3")).norm() < 1e-15);
    assert!(jb.column(col("j2")).norm() < 1e-15);
    assert!(ja.column(col("j2")).norm() > 1e-6);
    assert!(jb.column(col("j3")).norm() > 1e-6);
    let mask = carrying_joints(m, fa);
    assert!(mask[col("j1")] && mask[col("j2")] && !mask[col("j3")]);
}

fn fixed_only() -> Bot {
    robot(&[
        link("base"),
        link("tip"),
        joint("t", "fixed", ("base", "tip"), "0 0 0.3", "1 0 0", ""),
    ])
}

#[test]
fn zero_dof_analyze_does_not_panic() {
    let b = fixed_only();
    assert_eq!(b.model.ndof, 0);
    assert_eq!(b.analyze(&[]).kind, SingularityKind::Regular);
    assert!((xyz(&b.tip(&[]))[2] - 0.3).abs() < 1e-12);
}

#[test]
fn manipulability_ellipsoid_matches_jv_svd() {
    let b = showcase6();
    let q = [0.3, -0.4, 0.6, 0.2, -0.5, 0.1];
    let (_, j) = b.jac(&q, b.model.tip_frame(), JacFrame::World);
    let jv = j.rows(0, 3).into_owned();
    let square = Matrix3::from_fn(|r, c| jv.row(r).dot(&jv.row(c)));
    let eig = SymmetricEigen::new(square);
    let e = |k: usize| s(eig.eigenvalues[k]);
    let w = |k: usize| to_vec3(&eig.eigenvectors.column(k).into());
    let ell = ellipsoid((e(0), e(1), e(2)), (w(0), w(1), w(2)));
    let mut sv: Vec<f64> = jv.svd(false, false).singular_values.iter().copied().collect();
    sv.sort_by(|x, y| y.total_cmp(x));
    let axes = [ell.a, ell.b, ell.c];
    for k in 0..3 {
        assert!((f(axes[k].radius) - sv[k]).abs() < 1e-9);
        assert!((of_vec3(axes[k].dir).norm() - 1.0).abs() < 1e-9);
        let d = of_vec3(axes[k].dir);
        assert!(d[d.iamax()] > 0.0);
    }
    let r = |k: usize| f(axes[k].radius);
    assert!(r(0) >= r(1) && r(1) >= r(2));
    assert!(of_vec3(ell.a.dir).dot(&of_vec3(ell.b.dir)).abs() < 1e-7);
    assert!(of_vec3(ell.a.dir).dot(&of_vec3(ell.c.dir)).abs() < 1e-7);
    assert!((f(ell.volume) - r(0) * r(1) * r(2)).abs() < 1e-12);
}

#[test]
fn free_analyze_matches_world_jacobian_analyze() {
    let b = showcase6();
    let q = [0.3, -0.4, 0.6, 0.2, -0.5, 0.1];
    let rep = b.analyze(&q);
    let (_, j) = b.jac(&q, b.model.tip_frame(), JacFrame::World);
    let want = study(&j).report;
    assert!((f(rep.manipulability) - f(want.manipulability)).abs() < 1e-12);
    assert!((f(rep.sigma_min) - f(want.sigma_min)).abs() < 1e-12);
    assert_eq!(rep.kind, SingularityKind::Regular);
}

#[test]
fn fk_reduced_equals_fk_of_expanded() {
    let b = gripper_mimic();
    assert_eq!(b.model.ndof_independent(), 2);
    let q_red = [0.7, 0.03];
    let q_full = b.expand(&q_red);
    for fr in 0..b.model.frames.len() {
        assert_eq!(
            b.frame_reduced(&q_red, fr).to_homogeneous(),
            b.frame(&q_full, fr).to_homogeneous()
        );
    }
}

#[test]
fn jacobian_reduced_matches_finite_difference() {
    let b = gripper_mimic();
    let m = &b.model;
    for frame in [m.frame_id("finger_r").unwrap(), m.frame_id("palm").unwrap()] {
        for q_red in [[0.7, 0.03], [-0.4, 0.01], [1.2, 0.0]] {
            let (_, j) = b.jac_reduced(&q_red, frame, JacFrame::World);
            assert_eq!(j.ncols(), 2);
            assert!((&j - fd_jacobian_reduced(&b, &q_red, frame, 1e-6)).amax() < 1e-6);
        }
    }
}

#[test]
fn jacobian_reduced_chain_rule_identity() {
    let b = gripper_mimic();
    let q_red = [0.7, 0.03];
    let frame = b.model.frame_id("finger_r").unwrap();
    let (ee_r, j_red) = b.jac_reduced(&q_red, frame, JacFrame::World);
    let (ee_f, j_full) = b.jac(&b.expand(&q_red), frame, JacFrame::World);
    assert_eq!(ee_r.to_homogeneous(), ee_f.to_homogeneous());
    let want0 = j_full.column(0) + j_full.column(1) * 0.5;
    let want1 = j_full.column(2) + j_full.column(3) * (-1.0);
    assert!((j_red.column(0) - want0).norm() < 1e-15);
    assert!((j_red.column(1) - want1).norm() < 1e-15);
}

#[test]
fn reduced_wrappers_degrade_without_mimic() {
    let b = showcase6();
    assert!(!b.model.has_mimic());
    let q = [0.3, -0.4, 0.6, 0.2, -0.5, 0.1];
    let fr = b.model.tip_frame();
    assert_eq!(b.frame_reduced(&q, fr).to_homogeneous(), b.frame(&q, fr).to_homogeneous());
    for seen in [JacFrame::World, JacFrame::Body] {
        let (er, jr) = b.jac_reduced(&q, fr, seen);
        let (ep, jp) = b.jac(&q, fr, seen);
        assert_eq!(er.to_homogeneous(), ep.to_homogeneous());
        assert_eq!(jr, jp);
    }
}

#[test]
fn analyze_rejects_nonfinite_without_hanging() {
    let mut j = DMatrix::<f64>::zeros(6, 3);
    j[(0, 0)] = f64::NAN;
    j[(2, 1)] = f64::INFINITY;
    let JacobianStudy { report: rep, escape_direction, nullspace_basis } = study(&j);
    assert_eq!(escape_direction, v(&[0.0, 0.0, 0.0]));
    assert!(nullspace_basis.is_empty() && rep.offending_joints.is_empty());
    assert_eq!(rep.sigma, [s(0.0); 3]);
    assert_eq!(rep.kind, SingularityKind::Regular);
    assert_eq!(f(rep.sigma_min), 0.0);
    assert_eq!(f(rep.manipulability), 0.0);
    assert!(f(rep.condition_number).is_infinite());
    assert_eq!(values(&j).len(), 0);
}

fn check_config(b: &Bot, q: &[f64]) {
    let frame = b.model.tip_frame();
    let r = b.tip(q).rotation.to_rotation_matrix().into_inner();
    assert!((r.transpose() * r - Matrix3::identity()).norm() < 1e-9);
    assert!((r.determinant() - 1.0).abs() < 1e-9);
    let (_, jac) = b.jac(q, frame, JacFrame::World);
    assert!((&jac - fd_jacobian(b, q, frame, 1e-6)).amax() < 1e-5);
}

fn spread(n: usize, round: usize) -> Vec<f64> {
    (0..n)
        .map(|i| {
            let x = ((round * 7919 + i * 104729 + 12345) as f64 * 0.618_033_988_749).fract();
            -2.5 + 5.0 * x
        })
        .collect()
}

#[test]
fn fk_se3_valid_and_jacobian_matches_fd_2dof() {
    let b = toy();
    for round in 0..12 {
        check_config(&b, &spread(2, round));
    }
}

#[test]
fn fk_se3_valid_and_jacobian_matches_fd_6dof() {
    let b = showcase6();
    for round in 0..12 {
        check_config(&b, &spread(6, round));
    }
}

#[test]
fn singular_direction_is_classified() {
    let dir = |lin: f64, ang: f64| Twist {
        lin: Vec3::new(s(lin), s(0.0), s(0.0)),
        ang: Vec3::new(s(0.0), s(ang), s(0.0)),
    };
    let kind = |lin: f64, ang: f64, sig: f64| classify(dir(lin, ang), s(sig), s(0.01));
    assert_eq!(kind(1.0, 0.0, 0.01), SingularityKind::Regular);
    assert_eq!(kind(0.1, 1.0, 0.001), SingularityKind::Wrist);
    assert_eq!(kind(1.0, 0.1, 0.001), SingularityKind::Boundary);
    assert_eq!(kind(0.7, 0.7, 0.001), SingularityKind::Elbow);
}

#[test]
fn governor_scales_on_the_way_in_only() {
    let g = SingularityGovernor::new(SingularityParams::default());
    let zero = Vec3::new(s(0.0), s(0.0), s(0.0));
    let unit = Twist { lin: Vec3::new(s(1.0), s(0.0), s(0.0)), ang: zero };
    let cmd = Twist { lin: Vec3::new(s(2.0), s(0.0), s(0.0)), ang: zero };
    let none = g.scale_twist(cmd, &vec![], &vec![], s(1.0));
    assert_eq!(none, cmd);
    let out = g.scale_twist(cmd, &vec![unit], &v(&[0.001]), s(0.0));
    assert_eq!(f(out.lin.x), 2.0);
    let slow = f(g.scale_twist(cmd, &vec![unit], &v(&[0.001]), s(0.5)).lin.x);
    let (sg, l2) = (0.001_f64, f(g.damping_sq(s(0.001))));
    assert_eq!(slow, 2.0 * (sg * sg / (sg * sg + l2)));
}

/// Times, positions, velocities and accelerations.
type Rows = (Vec<f64>, Vec<Vec<f64>>, Vec<Vec<f64>>, Vec<Vec<f64>>);

fn grid(rows: &[Vec<f64>]) -> Vec<Vec<Scalar>> {
    rows.iter().map(|r| v(r)).collect()
}

fn toy_rows() -> Rows {
    let times = vec![0.0, 0.5, 1.25];
    let q = vec![vec![0.0, 0.0], vec![0.3, -0.4], vec![0.6, 3.0]];
    let qd = vec![vec![0.0, 0.0], vec![1.5, -0.8], vec![0.0, 0.0]];
    let qdd = vec![vec![0.0, 0.0], vec![-2.0, 4.5], vec![0.0, 0.0]];
    (times, q, qd, qdd)
}

fn report(b: &Bot, rows: &Rows, vmax: &[f64], amax: &[f64]) -> PathReport {
    let (t, q, qd, qdd) = (v(&rows.0), grid(&rows.1), grid(&rows.2), grid(&rows.3));
    let sv: Vec<Vec<Scalar>> = rows.1.iter().map(|x| b.singular_values(x)).collect();
    let pr = PathRows { times: &t, q: &q, qd: &qd, qdd: &qdd, sv: &sv };
    path_report(b.model.ndof, &b.model.limits, &pr, &v(vmax), &v(amax))
}

#[test]
fn path_report_hand_checked_metrics() {
    let rep = report(&toy(), &toy_rows(), &[3.0, 3.0], &[10.0, 10.0]);
    assert_eq!(rep.samples, 3);
    assert!((f(rep.cycle_time) - 1.25).abs() < 1e-12);
    assert!((f(rep.limit_margin[0]) - 2.54).abs() < 1e-12);
    assert!((f(rep.limit_margin[1]) - 0.14).abs() < 1e-12);
    let (j, margin) = rep.min_limit_margin().unwrap();
    assert_eq!(j, 1);
    assert!((f(margin) - 0.14).abs() < 1e-12);
    assert!((f(rep.vel_utilization[0]) - 0.5).abs() < 1e-12);
    assert!((f(rep.vel_utilization[1]) - 0.8 / 3.0).abs() < 1e-12);
    assert_eq!(rep.worst_vel_utilization().unwrap(), (0, s(0.5)));
    assert!((f(rep.acc_utilization[0]) - 0.2).abs() < 1e-12);
    assert!((f(rep.acc_utilization[1]) - 0.45).abs() < 1e-12);
    assert_eq!(rep.worst_acc_utilization().unwrap().0, 1);
}

#[test]
fn path_report_matches_per_sample_analyze() {
    let b = toy();
    let rows = toy_rows();
    let rep = report(&b, &rows, &[3.0, 3.0], &[10.0, 10.0]);
    let mut min_manip = f64::INFINITY;
    let mut sum = 0.0;
    let mut min_sigma = f64::INFINITY;
    let mut t_min = 0.0;
    for (k, t) in rows.0.iter().enumerate() {
        let a = b.analyze(&rows.1[k]);
        min_manip = min_manip.min(f(a.manipulability));
        sum += f(a.manipulability);
        if f(a.sigma_min) < min_sigma {
            min_sigma = f(a.sigma_min);
            t_min = *t;
        }
    }
    assert!((f(rep.min_manipulability) - min_manip).abs() < 1e-12);
    assert!((f(rep.mean_manipulability) - sum / 3.0).abs() < 1e-12);
    assert!((f(rep.min_sigma_min) - min_sigma).abs() < 1e-12);
    assert_eq!(f(rep.t_min_sigma), t_min);
    let rep2 = report(&b, &rows, &[3.0, 3.0], &[10.0, 10.0]);
    assert_eq!(rep.min_sigma_min, rep2.min_sigma_min);
    assert_eq!(rep.mean_manipulability, rep2.mean_manipulability);
}

#[test]
fn path_report_empty_and_degenerate_limits() {
    let b = toy();
    let rep = report(&b, &(vec![], vec![], vec![], vec![]), &[3.0, 3.0], &[10.0, 10.0]);
    assert_eq!(rep.samples, 0);
    assert_eq!(f(rep.cycle_time), 0.0);
    assert_eq!(f(rep.min_manipulability), 0.0);
    assert_eq!(f(rep.min_sigma_min), 0.0);
    assert!(rep.limit_margin.iter().all(|mg| f(*mg).is_infinite()));
    assert!(rep.min_limit_margin().is_none());
    let rep = report(&b, &toy_rows(), &[0.0, 3.0], &[10.0, 10.0]);
    assert!(f(rep.vel_utilization[0]).is_infinite());
    assert!(f(rep.vel_utilization[1]).is_finite());
}

fn zero_rows(times: Vec<f64>, q: Vec<Vec<f64>>) -> Rows {
    let n = q[0].len();
    let z = vec![vec![0.0; n]; q.len()];
    (times, q, z.clone(), z)
}

fn lint(b: &Bot, rows: &Rows, bounds: [&[f64]; 3], opts: &LintOptions) -> Vec<Finding> {
    let (t, q, qd, qdd) = (v(&rows.0), grid(&rows.1), grid(&rows.2), grid(&rows.3));
    let sv: Vec<Vec<Scalar>> = rows.1.iter().map(|x| b.singular_values(x)).collect();
    let pr = PathRows { times: &t, q: &q, qd: &qd, qdd: &qdd, sv: &sv };
    let (vmax, amax, jmax) = (v(bounds[0]), v(bounds[1]), v(bounds[2]));
    let limits = LintLimits { vmax: &vmax, amax: &amax, jmax: &jmax };
    lint_path(b.model.ndof, &b.model.limits, &pr, &limits, opts)
}

fn lint_toy(rows: &Rows, vmax: &[f64], amax: &[f64], jmax: &[f64]) -> Vec<Finding> {
    lint(&toy(), rows, [vmax, amax, jmax], &LintOptions::default())
}

#[test]
fn lint_clean_path_zero_findings() {
    let rows = (
        vec![0.0, 0.5, 1.0],
        vec![vec![0.0, 0.0], vec![0.1, -0.1], vec![0.2, -0.2]],
        vec![vec![0.0, 0.0], vec![0.3, 0.3], vec![0.0, 0.0]],
        vec![vec![0.0, 0.0], vec![0.5, 0.5], vec![0.0, 0.0]],
    );
    let found = lint_toy(&rows, &[3.0, 3.0], &[10.0, 10.0], &[50.0, 50.0]);
    assert!(found.is_empty(), "{found:?}");
}

#[test]
fn lint_flags_position_limit_violation() {
    let rows = zero_rows(vec![0.0, 1.0], vec![vec![0.0, 3.3], vec![0.0, 3.3]]);
    let found = lint_toy(&rows, &[3.0, 3.0], &[10.0, 10.0], &[50.0, 50.0]);
    assert_eq!(found.len(), 1, "{found:?}");
    assert_eq!(found[0].code(), "T001");
    assert_eq!(found[0].severity(), LintSeverity::Error);
    assert_eq!(found[0].joint, Some(1));
    assert!((f(found[0].value.unwrap()) - (3.14 - 3.3)).abs() < 1e-12);
    assert_eq!(toy().model.joint_names[1], "j2");
    assert_eq!(found[0].detail, Detail::Position { lo: s(-3.14), hi: s(3.14) });
    assert_eq!(
        found[0].message(&toy().model, &LintOptions::default()),
        "joint 1 `j2`: position limit violated by 0.1600 rad at t=0.000 s (limits [-3.1400, 3.1400])"
    );
}

#[test]
fn every_kind_of_finding_has_words() {
    let (m, o) = (toy().model, LintOptions::default());
    let at = |detail: Detail, joint: Option<usize>, value: f64| {
        Finding { detail, joint, time: Some(s(0.5)), value: Some(s(value)) }.message(&m, &o)
    };
    let (a, b) = (s(1.25), s(2.5));
    let n = &m.joint_names[0];
    assert_eq!(
        at(Detail::Velocity { peak: a, limit: b }, Some(0), 0.5),
        format!("joint 0 `{n}`: velocity limit exceeded: max |qd| 1.2500 rad/s vs vmax 2.5000 (50.0% at t=0.500 s)")
    );
    assert!(at(Detail::Acceleration { peak: a, limit: b }, Some(0), 0.5).contains("1.2500 rad/s^2 vs amax 2.5000"));
    assert!(at(Detail::Dwell { margin: a }, Some(0), 0.25).contains("for 25.0% of samples"));
    assert!(at(Detail::Detour { travel: b, net: a, excursion: a }, Some(0), f64::INFINITY)
        .contains("(ratio inf > "));
    assert!(at(Detail::Jerk { threshold: b }, Some(0), 7.0).contains("jerk spike 7.0000 rad/s^3 at t=0.500 s"));
    assert_eq!(
        at(Detail::Corridor { from: a, to: b }, None, 0.00123456),
        format!(
            "singular corridor: σ_min falls to 1.2346e-3 (< {:.4e}) between t=1.250 s and t=2.500 s (worst at t=0.500 s)",
            f(o.sigma_min_threshold)
        )
    );
}

#[test]
fn lint_flags_velocity_limit() {
    let rows = (
        vec![0.0, 1.0],
        vec![vec![0.0, 0.0], vec![0.1, 0.0]],
        vec![vec![0.0, 0.0], vec![4.0, 0.0]],
        vec![vec![0.0, 0.0], vec![0.0, 0.0]],
    );
    let found = lint_toy(&rows, &[3.0, 3.0], &[10.0, 10.0], &[50.0, 50.0]);
    assert_eq!(found.len(), 1, "{found:?}");
    assert_eq!(found[0].code(), "T002");
    assert_eq!(found[0].severity(), LintSeverity::Error);
    assert_eq!(found[0].joint, Some(0));
    assert_eq!(found[0].time, Some(s(1.0)));
    assert!((f(found[0].value.unwrap()) - 4.0 / 3.0).abs() < 1e-15);
}

#[test]
fn lint_flags_acceleration_limit() {
    let rows = (
        vec![0.0, 1.0],
        vec![vec![0.0, 0.0], vec![0.1, 0.0]],
        vec![vec![0.0, 0.0], vec![0.0, 0.0]],
        vec![vec![0.0, 0.0], vec![0.0, 45.0]],
    );
    let found = lint_toy(&rows, &[3.0, 3.0], &[10.0, 10.0], &[200.0, 200.0]);
    assert_eq!(found.len(), 1, "{found:?}");
    assert_eq!(found[0].code(), "T003");
    assert_eq!(found[0].severity(), LintSeverity::Error);
    assert_eq!(found[0].joint, Some(1));
    assert!((f(found[0].value.unwrap()) - 4.5).abs() < 1e-15);
}

#[test]
fn lint_flags_near_limit_dwell() {
    let rows = zero_rows(
        vec![0.0, 1.0, 2.0],
        vec![vec![3.10, 0.0], vec![3.10, 0.0], vec![3.10, 0.0]],
    );
    let found = lint_toy(&rows, &[3.0, 3.0], &[10.0, 10.0], &[50.0, 50.0]);
    assert_eq!(found.len(), 1, "{found:?}");
    assert_eq!(found[0].code(), "T004");
    assert_eq!(found[0].severity(), LintSeverity::Warning);
    assert_eq!(found[0].joint, Some(0));
    assert!((f(found[0].value.unwrap()) - 1.0).abs() < 1e-15);
}

#[test]
fn lint_flags_travel_detour() {
    let rows = zero_rows(
        vec![0.0, 1.0, 2.0],
        vec![vec![0.0, 0.0], vec![2.0, 0.0], vec![0.1, 0.0]],
    );
    let found = lint_toy(&rows, &[3.0, 3.0], &[10.0, 10.0], &[50.0, 50.0]);
    assert_eq!(found.len(), 1, "{found:?}");
    assert_eq!(found[0].code(), "T005");
    assert_eq!(found[0].severity(), LintSeverity::Warning);
    assert_eq!(found[0].joint, Some(0));
    assert_eq!(found[0].time, Some(s(1.0)));
    assert!((f(found[0].value.unwrap()) - 39.0).abs() < 1e-9);
}

#[test]
fn lint_flags_jerk_spike() {
    let rows = (
        vec![0.0, 0.1, 0.2],
        vec![vec![0.0, 0.0], vec![0.01, 0.0], vec![0.02, 0.0]],
        vec![vec![0.0, 0.0], vec![0.0, 0.0], vec![0.0, 0.0]],
        vec![vec![0.0, 0.0], vec![5.0, 0.0], vec![0.0, 0.0]],
    );
    let found = lint_toy(&rows, &[3.0, 3.0], &[10.0, 10.0], &[10.0, 10.0]);
    assert_eq!(found.len(), 1, "{found:?}");
    assert_eq!(found[0].code(), "T006");
    assert_eq!(found[0].severity(), LintSeverity::Warning);
    assert_eq!(found[0].joint, Some(0));
    assert_eq!(found[0].time, Some(s(0.1)));
    assert!((f(found[0].value.unwrap()) - 50.0).abs() < 1e-9);
    assert!(!found[0].fix_hint().is_empty());
}

#[test]
fn lint_flags_singular_corridor() {
    let b = showcase6();
    let generic = vec![0.3, -0.4, 0.6, 0.2, -0.5, 0.1];
    let home = vec![0.0; 6];
    assert!(f(b.analyze(&generic).sigma_min) > 1e-2);
    assert!(f(b.analyze(&home).sigma_min) < 1e-2);
    let times = vec![0.0, 1.0, 2.0];
    let bounds: [&[f64]; 3] = [&[10.0; 6], &[10.0; 6], &[f64::INFINITY; 6]];
    let opts = LintOptions {
        near_limit_dwell_frac: s(1.1),
        travel_min: s(100.0),
        ..LintOptions::default()
    };
    let rows = zero_rows(times.clone(), vec![generic.clone(), home.clone(), generic.clone()]);
    let found = lint(&b, &rows, bounds, &opts);
    assert_eq!(found.len(), 1, "{found:?}");
    assert_eq!(found[0].code(), "T007");
    assert_eq!(found[0].severity(), LintSeverity::Warning);
    assert_eq!(found[0].joint, None);
    assert_eq!(found[0].time, Some(s(1.0)));
    assert!((f(found[0].value.unwrap()) - f(b.analyze(&home).sigma_min)).abs() < 1e-12);

    let rows2 = zero_rows(times, vec![home.clone(), generic, home]);
    let found2 = lint(&b, &rows2, bounds, &opts);
    assert_eq!(found2.len(), 2, "{found2:?}");
    assert!(found2.iter().all(|x| x.code() == "T007"));
    assert_eq!(found2[0].time, Some(s(0.0)));
    assert_eq!(found2[1].time, Some(s(2.0)));
}

#[test]
fn lint_empty_and_zero_dof() {
    let empty = (vec![], vec![], vec![], vec![]);
    assert!(lint_toy(&empty, &[3.0, 3.0], &[10.0, 10.0], &[50.0, 50.0]).is_empty());
    let b0 = fixed_only();
    assert_eq!(b0.model.ndof, 0);
    let none: Vec<Vec<f64>> = vec![vec![], vec![]];
    let rows = (vec![0.0, 1.0], none.clone(), none.clone(), none);
    assert!(lint(&b0, &rows, [&[], &[], &[]], &LintOptions::default()).is_empty());
}

#[test]
fn only_finite_columns_are_workable() {
    let zero = Vec3::new(s(0.0), s(0.0), s(0.0));
    let good = Twist { lin: Vec3::new(s(1.0), s(-2.0), s(0.0)), ang: zero };
    assert!(!workable(&Vec::new()));
    assert!(workable(&vec![good, good]));
    for bad in [f64::NAN, f64::INFINITY] {
        let off = Twist { lin: zero, ang: Vec3::new(s(0.0), s(0.0), s(bad)) };
        assert!(!workable(&vec![good, off]));
    }
}
