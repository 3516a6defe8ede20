use caliper::ik::branches::{choose_branches, fit_limits, is_canonical};
use caliper::ik::redundancy::Rates;
use caliper::ik::solve::{damping_for, norm_of_twist, Arm};
use caliper::ik::wrist::{analytic_ik_6r, detect, zyz_branches, Mount, Rotation, Trig, WristParams};
use caliper::ik::{
    ik, joint_limit_avoidance_gradient, nullspace_step, resolved_rate, IkOpts, IkResult,
    RedundancyOpts,
};
use caliper::kinematics::fk::{fk_frame, fk_joints, frame_pose};
use caliper::kinematics::jacobian::{expressed_in, jacobian};
use caliper::kinematics::singular::Twist;
use caliper::kinematics::JacFrame;
use caliper::model::urdf::{UrdfJoint, UrdfJointType, UrdfLink, UrdfMimic, UrdfRobot};
use caliper::model::{JointKind, Model};
use caliper::motion::cartesian::{CartesianMoveOpts, Outcome};
use caliper::motion::limits::{MotionLimits, MotionLimitsConfig};
use caliper::motion::shape::{
    arc_point, fit_arc, goal_is_finite, line_point, move_c, move_l, ArcGeom, Pose, Quaternion,
};
use caliper::motion::{MotionError, OnFailure, Trajectory};
use caliper::planning::reach::{ReachChecker, ReachConfig, ReachStatus};
use caliper::scalar::{Scalar, Vec3};
use nalgebra::{
    Cholesky, DMatrix, DVector, Isometry3, Matrix3, Point3, Rotation3, Translation3,
    UnitQuaternion, Vector3, Vector6,
};
use std::f64::consts::PI;

fn s(x: f64) -> Scalar {
    Scalar { bits: x.to_bits() }
}

fn v(xs: &[f64]) -> Vec<Scalar> {
    xs.iter().map(|x| s(*x)).collect()
}

fn f(x: Scalar) -> f64 {
    f64::from_bits(x.bits)
}

fn vec3(p: &urdf_rs::Vec3) -> Vec3 {
    Vec3::new(s(p.0[0]), s(p.0[1]), s(p.0[2]))
}

fn to_vec3(p: &Vector3<f64>) -> Vec3 {
    Vec3::new(s(p.x), s(p.y), s(p.z))
}

fn of_vec3(p: Vec3) -> Vector3<f64> {
    Vector3::new(f(p.x), f(p.y), f(p.z))
}

/// A compiled description with the placements of its joints.
struct Bot {
    model: Model,
    places: Vec<Isometry3<f64>>,
}

fn load(text: &str) -> Bot {
    let r = urdf_rs::read_from_string(text).unwrap();
    let description = UrdfRobot {
        name: r.name.clone(),
        links: r
            .links
            .iter()
            .map(|l| UrdfLink {
                name: l.name.clone(),
                mass: s(l.inertial.mass.value),
                collision: vec![],
                visual: vec![],
            })
            .collect(),
        joints: r
            .joints
            .iter()
            .map(|j| UrdfJoint {
                name: j.name.clone(),
                joint_type: match j.joint_type {
                    urdf_rs::JointType::Revolute => UrdfJointType::Revolute,
                    urdf_rs::JointType::Prismatic => UrdfJointType::Prismatic,
                    urdf_rs::JointType::Fixed => UrdfJointType::Fixed,
                    ref other => UrdfJointType::Other(format!("{other:?}")),
                },
                parent: j.parent.link.clone(),
                child: j.child.link.clone(),
                axis: vec3(&j.axis.xyz),
                lower: s(j.limit.lower),
                upper: s(j.limit.upper),
                velocity: s(j.limit.velocity),
                effort: s(j.limit.effort),
                mimic: j.mimic.as_ref().map(|m| UrdfMimic {
                    joint: m.joint.clone(),
                    multiplier: m.multiplier.map(s),
                    offset: m.offset.map(s),
                }),
            })
            .collect(),
        materials: vec![],
    };
    let places = r
        .joints
        .iter()
        .map(|j| {
            let (p, e) = (&j.origin.xyz.0, &j.origin.rpy.0);
            Isometry3::from_parts(
                Translation3::new(p[0], p[1], p[2]),
                UnitQuaternion::from_euler_angles(e[0], e[1], e[2]),
            )
        })
        .collect();
    Bot { model: Model::from_urdf(&description).unwrap(), places }
}

fn compose(a: Isometry3<f64>, b: Isometry3<f64>) -> Isometry3<f64> {
    a * b
}

fn moves(m: &Model, q: &[f64]) -> Vec<Isometry3<f64>> {
    (0..m.ndof)
        .map(|i| {
            let axis = of_vec3(m.axis[i]);
            match m.kind[i] {
                JointKind::Revolute => Isometry3::rotation(axis * q[i]),
                JointKind::Prismatic => {
                    let t = axis * q[i];
                    Isometry3::translation(t.x, t.y, t.z)
                }
            }
        })
        .collect()
}

impl Bot {
    fn frame(&self, q: &[f64], frame: usize) -> Isometry3<f64> {
        let mv = moves(&self.model, q);
        fk_frame(&self.model, &self.places, &mv, frame, Isometry3::identity(), &compose)
    }

    fn joints(&self, q: &[f64]) -> Vec<Isometry3<f64>> {
        let mv = moves(&self.model, q);
        fk_joints(&self.model, &self.places, &mv, Isometry3::identity(), &compose)
    }

    fn columns(&self, q: &[f64], frame: usize, seen: JacFrame) -> (Isometry3<f64>, Vec<Twist>) {
        let jw = self.joints(q);
        let ee =
            frame_pose(&self.model, &jw, frame, &self.places, Isometry3::identity(), &compose);
        let axes: Vec<Vec3> = (0..self.model.ndof)
            .map(|i| to_vec3(&(jw[i].rotation * of_vec3(self.model.axis[i]))))
            .collect();
        let at: Vec<Vec3> = jw.iter().map(|p| to_vec3(&p.translation.vector)).collect();
        let cols = jacobian(&self.model, frame, &axes, &at, to_vec3(&ee.translation.vector));
        let back = ee.rotation.inverse();
        (ee, expressed_in(cols, seen, &|x: Vec3| to_vec3(&(back * of_vec3(x)))))
    }

    fn jac(&self, q: &[f64], frame: usize, seen: JacFrame) -> (Isometry3<f64>, DMatrix<f64>) {
        let (ee, cols) = self.columns(q, frame, seen);
        (ee, matrix(&cols))
    }
}

fn matrix(cols: &[Twist]) -> DMatrix<f64> {
    DMatrix::from_fn(6, cols.len(), |r, c| {
        let t = &cols[c];
        f([t.lin.x, t.lin.y, t.lin.z, t.ang.x, t.ang.y, t.ang.z][r])
    })
}

fn link(name: &str) -> String {
    format!("<link name=\"{name}\"/>")
}

fn joint(name: &str, kind: &str, ends: (&str, &str), at: &str, axis: &str, rest: &str) -> String {
    format!(
        "<joint name=\"{name}\" type=\"{kind}\"><parent link=\"{}\"/><child link=\"{}\"/>\
         <origin xyz=\"{at}\"/><axis xyz=\"{axis}\"/>{rest}</joint>",
        ends.0, ends.1
    )
}

fn limit(lo: f64, hi: f64) -> String {
    format!("<limit lower=\"{lo}\" upper=\"{hi}\" effort=\"10\" velocity=\"3\"/>")
}

fn robot(parts: &[String]) -> Bot {
    load(&format!("<robot name=\"r\">{}</robot>", parts.concat()))
}

/// A planar arm of two links, its joints limited to 3.14 either way.
fn toy() -> Bot {
    let l = limit(-3.14, 3.14);
    robot(&[
        link("base"),
        link("link1"),
        link("link2"),
        link("tip"),
        joint("j1", "revolute", ("base", "link1"), "0 0 0.1", "0 0 1", &l),
        joint("j2", "revolute", ("link1", "link2"), "0.1 0 0", "0 0 1", &l),
        joint("t", "fixed", ("link2", "tip"), "0.1 0 0", "1 0 0", ""),
    ])
}

/// A serial arm from axes and offsets, with a fixed tip.
fn serial(axes: &[&str], offsets: &[&str], tip: &str) -> Bot {
    let l = limit(-2.9, 2.9);
    let n = axes.len();
    let mut parts: Vec<String> = (0..=n).map(|i| link(&format!("l{i}"))).collect();
    parts.push(link("tip"));
    for i in 0..n {
        let ends = (format!("l{i}"), format!("l{}", i + 1));
        let name = format!("j{}", i + 1);
        parts.push(joint(&name, "revolute", (&ends.0, &ends.1), offsets[i], axes[i], &l));
    }
    parts.push(joint("t", "fixed", (&format!("l{n}"), "tip"), tip, "1 0 0", ""));
    robot(&parts)
}

/// Six joints in the arrangement of the closed form.
fn showcase6() -> Bot {
    serial(
        &["0 0 1", "0 1 0", "0 1 0", "0 0 1", "0 1 0", "0 0 1"],
        &["0 0 0.3", "0 0 0.1", "0 0 0.4", "0 0 0.2", "0 0 0.15", "0 0 0"],
        "0 0 0.1",
    )
}

fn redundant7() -> Bot {
    serial(
        &["0 0 1", "0 1 0", "1 0 0", "0 1 0", "0 0 1", "1 0 0", "0 1 0"],
        &["0 0 0.4", "0 0 0.3", "0.2 0 0.1", "0.4 0 0", "0 0.1 0.3", "0.2 0 0", "0 0 0.2"],
        "0.1 0.1 0.1",
    )
}

/// The twist that takes the identity to a pose in unit time.
fn log(t: &Isometry3<f64>) -> Vector6<f64> {
    let w = t.rotation.scaled_axis();
    let a = w.norm();
    let p = t.translation.vector;
    let k = if a < 1e-6 {
        1.0 / 12.0
    } else {
        1.0 / (a * a) - (1.0 + a.cos()) / (2.0 * a * a.sin())
    };
    let v = p - 0.5 * w.cross(&p) + k * w.cross(&w.cross(&p));
    Vector6::new(v.x, v.y, v.z, w.x, w.y, w.z)
}

fn twist(e: &Vector6<f64>) -> Twist {
    Twist {
        lin: Vec3::new(s(e[0]), s(e[1]), s(e[2])),
        ang: Vec3::new(s(e[3]), s(e[4]), s(e[5])),
    }
}

fn reals(q: &[Scalar]) -> Vec<f64> {
    q.iter().map(|x| f(*x)).collect()
}

fn singular(j: &DMatrix<f64>) -> Vec<Scalar> {
    j.clone().svd(false, false).singular_values.iter().map(|x| s(*x)).collect()
}

impl Bot {
    fn off(&self, q: &[f64], frame: usize, target: &Isometry3<f64>) -> Vector6<f64> {
        log(&(self.frame(q, frame).inverse() * target))
    }

    fn solve(&self, frame: usize, target: &Isometry3<f64>, seed: &[f64], opts: &IkOpts) -> IkResult {
        let error = |q: &[Scalar]| twist(&self.off(&reals(q), frame, target));
        let values = |q: &[Scalar]| singular(&self.jac(&reals(q), frame, JacFrame::Body).1);
        let step = |q: &[Scalar], lambda: Scalar| {
            let x = reals(q);
            let (_, j) = self.jac(&x, frame, JacFrame::Body);
            let e = DVector::from_iterator(6, self.off(&x, frame, target).iter().copied());
            let jt = j.transpose();
            let mut h = &jt * &j;
            let g = &jt * &e;
            let diag = h.diagonal();
            for i in 0..x.len() {
                h[(i, i)] += f(lambda) * (1.0 + diag[i]);
            }
            let dq = match Cholesky::new(h) {
                Some(c) => c.solve(&g),
                None => DVector::zeros(x.len()),
            };
            v(dq.as_slice())
        };
        ik(&self.model, &Arm { error, values, step }, &v(seed), opts)
    }

    fn resolved(&self, q: &[f64], wanted: &[f64], aim: Option<&[f64]>) -> Vec<f64> {
        let m = &self.model;
        let frame = m.tip_frame();
        let values = |q: &[Scalar]| singular(&self.jac(&reals(q), frame, JacFrame::World).1);
        let inverse = |q: &[Scalar], w: &[Scalar], lambda: Scalar| {
            let (_, j) = self.jac(&reals(q), frame, JacFrame::World);
            let mut h = &j * j.transpose();
            for i in 0..6 {
                h[(i, i)] += f(lambda);
            }
            let inv = Cholesky::new(h).unwrap().inverse();
            v((j.transpose() * inv * DVector::from_vec(reals(w))).as_slice())
        };
        let project = |q: &[Scalar], z: &[Scalar]| {
            let (_, j) = self.jac(&reals(q), frame, JacFrame::World);
            let x = DVector::from_vec(reals(z));
            let mp = j.clone().svd(true, true).pseudo_inverse(1e-12).unwrap();
            v((&x - mp * (&j * &x)).as_slice())
        };
        let arm = Rates { values, inverse, project };
        let o = RedundancyOpts::default();
        reals(&match aim {
            None => resolved_rate(m, &arm, &v(q), &v(wanted), &o),
            Some(z) => nullspace_step(m, &arm, &v(q), &v(wanted), &v(z), &o),
        })
    }

    fn felt(&self, q: &[f64], qd: &[f64]) -> DVector<f64> {
        let (_, j) = self.jac(q, self.model.tip_frame(), JacFrame::World);
        &j * DVector::from_column_slice(qd)
    }

    /// Where the joints sit on the ones before them.
    fn mounted(&self) -> Vec<Isometry3<f64>> {
        self.model
            .parent_to_joint
            .iter()
            .map(|c| c.iter().fold(Isometry3::identity(), |a, i| a * self.places[*i]))
            .collect()
    }

    fn offset(&self, frame: usize) -> Isometry3<f64> {
        self.model.frames[frame].chain.iter().fold(Isometry3::identity(), |a, i| a * self.places[*i])
    }

    /// The lengths of the closed form, and the centre of the wrist on the last joint.
    fn wrist(&self, frame: usize) -> Option<(WristParams, Vector3<f64>)> {
        let at = self.mounted();
        let mounts: Vec<Mount> = at
            .iter()
            .map(|p| Mount {
                turn: columns_of(&p.rotation.to_rotation_matrix().into_inner()),
                at: to_vec3(&p.translation.vector),
            })
            .collect();
        let (mut centre, mut last) = (None, Isometry3::identity());
        if at.len() == 6 {
            let (t3, t4, t5) = (at[3], at[3] * at[4], at[3] * at[4] * at[5]);
            last = t5;
            let line = |t: &Isometry3<f64>, i: usize| {
                (t.translation.vector, t.rotation * of_vec3(self.model.axis[i]))
            };
            centre = meet(&[line(&t3, 3), line(&t4, 4), line(&t5, 5)]);
        }
        let p = detect(&self.model, frame, &mounts, centre.as_ref().map(to_vec3))?;
        Some((p, (last.inverse() * Point3::from(centre.unwrap())).coords))
    }

    fn closed_form(
        &self,
        frame: usize,
        target: &Isometry3<f64>,
        seed: Option<&[f64]>,
    ) -> Option<Vec<Vec<f64>>> {
        let (p, c6) = self.wrist(frame)?;
        let fixed = self.offset(frame);
        let centre = ((target * fixed.inverse()) * Point3::from(c6)).coords;
        let w = centre - of_vec3(p.o1);
        let (rt, rf) = (target.rotation, fixed.rotation);
        let left = |q1: Scalar, q23: Scalar| {
            let z = UnitQuaternion::from_axis_angle(&Vector3::z_axis(), f(q1));
            let y = UnitQuaternion::from_axis_angle(&Vector3::y_axis(), f(q23));
            let m = (z * y).inverse() * rt * rf.inverse();
            columns_of(&m.to_rotation_matrix().into_inner())
        };
        let residual = |q: &[Scalar]| s(self.off(&reals(q), frame, target).norm());
        let wrap = |x: Scalar| s(wrap_pi(f(x)));
        let start = seed.map(v);
        let found = analytic_ik_6r(
            &self.model,
            &p,
            to_vec3(&w),
            start.as_deref(),
            &trig(),
            &left,
            &wrap,
            &residual,
        );
        Some(found.iter().map(|q| reals(q)).collect())
    }
}

type Fun = fn(Scalar) -> Scalar;

fn trig() -> Trig<Fun, Fun, Fun, Fun, fn(Scalar, Scalar) -> Scalar> {
    Trig {
        sin: |x| s(f(x).sin()),
        cos: |x| s(f(x).cos()),
        asin: |x| s(f(x).asin()),
        acos: |x| s(f(x).acos()),
        atan2: |y, x| s(f(y).atan2(f(x))),
    }
}

fn columns_of(m: &Matrix3<f64>) -> Rotation {
    let c = |k: usize| to_vec3(&m.column(k).into_owned());
    Rotation { a: c(0), b: c(1), c: c(2) }
}

fn wrap_pi(a: f64) -> f64 {
    let mut x = (a + PI).rem_euclid(2.0 * PI) - PI;
    if x <= -PI {
        x += 2.0 * PI;
    }
    x
}

/// The point where lines meet, if they do.
fn meet(lines: &[(Vector3<f64>, Vector3<f64>)]) -> Option<Vector3<f64>> {
    let flat = |d: &Vector3<f64>| Matrix3::identity() - d.normalize() * d.normalize().transpose();
    let mut a = Matrix3::zeros();
    let mut b = Vector3::zeros();
    for (p, d) in lines {
        a += flat(d);
        b += flat(d) * p;
    }
    let x = a.try_inverse()? * b;
    let far: f64 = lines.iter().map(|(p, d)| (flat(d) * (x - p)).norm_squared()).sum();
    if far.sqrt() < 1e-7 {
        Some(x)
    } else {
        None
    }
}

/// A sequence of numbers in `[0, 1)`.
struct Numbers(u64);

impl Numbers {
    fn f(&mut self) -> f64 {
        self.0 = self.0.wrapping_add(0x9E37_79B9_7F4A_7C15);
        let mut z = self.0;
        z = (z ^ (z >> 30)).wrapping_mul(0xBF58_476D_1CE4_E5B9);
        z = (z ^ (z >> 27)).wrapping_mul(0x94D0_49BB_1331_11EB);
        z ^= z >> 31;
        (z >> 11) as f64 / ((1u64 << 53) as f64)
    }

    fn range(&mut self, lo: f64, hi: f64) -> f64 {
        lo + self.f() * (hi - lo)
    }

    fn config(&mut self) -> [f64; 6] {
        [
            self.range(-2.0, 2.0),
            self.range(-1.5, 1.5),
            self.range(-2.0, 2.0),
            self.range(-2.0, 2.0),
            self.range(0.25, 1.6),
            self.range(-2.5, 2.5),
        ]
    }
}

fn prismatic() -> Bot {
    robot(&[
        link("base"),
        link("turn"),
        link("slide"),
        link("tip"),
        joint("j1", "revolute", ("base", "turn"), "0 0 0.2", "0 0 1", &limit(-3.0, 3.0)),
        joint("j2", "prismatic", ("turn", "slide"), "0.1 0 0", "1 0 0", &limit(0.0, 0.5)),
        joint("t", "fixed", ("slide", "tip"), "0.1 0 0", "1 0 0", ""),
    ])
}

#[test]
fn ik_round_trip() {
    let b = toy();
    let frame = b.model.tip_frame();
    let opts = IkOpts::default();
    let mut rng = Numbers(0x12345);
    for _ in 0..300 {
        let q_true: Vec<f64> = (0..2).map(|_| (rng.f() - 0.5) * 2.5).collect();
        let target = b.frame(&q_true, frame);
        let seed: Vec<f64> = q_true.iter().map(|x| x + (rng.f() - 0.5) * 0.6).collect();
        let res = b.solve(frame, &target, &seed, &opts);
        assert!(res.success);
        assert!(b.off(&reals(&res.q), frame, &target).norm() < 1e-8);
    }
}

#[test]
fn ik_multi_restart_recovers() {
    let b = toy();
    let frame = b.model.tip_frame();
    let target = b.frame(&[0.8, -1.1], frame);
    let res = b.solve(frame, &target, &[3.0, 3.0], &IkOpts::default());
    assert!(res.success);
    assert!(b.off(&reals(&res.q), frame, &target).norm() < 1e-8);
}

#[test]
fn ik_redundant_7dof() {
    let b = redundant7();
    assert_eq!(b.model.ndof, 7);
    let frame = b.model.tip_frame();
    let mut rng = Numbers(0x777);
    for _ in 0..50 {
        let q_true: Vec<f64> = (0..7).map(|_| (rng.f() - 0.5) * 2.0).collect();
        let target = b.frame(&q_true, frame);
        let seed: Vec<f64> = q_true.iter().map(|x| x + (rng.f() - 0.5) * 0.4).collect();
        let res = b.solve(frame, &target, &seed, &IkOpts::default());
        assert!(res.success, "{:?}", f(res.residual));
        assert!(b.off(&reals(&res.q), frame, &target).norm() < 1e-8);
    }
}

#[test]
fn ik_prismatic_joint() {
    let b = prismatic();
    let frame = b.model.tip_frame();
    let target = b.frame(&[0.5, 0.3], frame);
    let res = b.solve(frame, &target, &[0.0, 0.1], &IkOpts::default());
    assert!(res.success);
    assert!(b.off(&reals(&res.q), frame, &target).norm() < 1e-8);
}

#[test]
fn ik_rejects_wrong_seed_length() {
    let b = toy();
    let frame = b.model.tip_frame();
    let target = b.frame(&[0.0, 0.0], frame);
    let res = b.solve(frame, &target, &[0.0, 0.0, 0.0], &IkOpts::default());
    assert!(!res.success && !f(res.residual).is_finite());
}

#[test]
fn ik_bails_on_nonfinite_seed_without_hanging() {
    let b = toy();
    let frame = b.model.tip_frame();
    let target = b.frame(&[0.3, 0.2], frame);
    let opts = IkOpts { restarts: 1, ..IkOpts::default() };
    assert!(!b.solve(frame, &target, &[f64::NAN, 0.0], &opts).success);
}

#[test]
fn ik_reports_the_best_of_its_tries() {
    let b = toy();
    let frame = b.model.tip_frame();
    let far = Isometry3::translation(10.0, 0.0, 0.1);
    let opts = IkOpts { max_iters: 20, restarts: 2, ..IkOpts::default() };
    let res = b.solve(frame, &far, &[0.1, 0.1], &opts);
    assert!(!res.success);
    assert_eq!(res.iters, 20);
    assert!(f(res.residual) > 9.0);
    let one = IkOpts { restarts: 0, ..opts };
    let first = b.solve(frame, &far, &[0.1, 0.1], &one);
    assert_eq!(first.restarts_used, 0);
    assert!(f(res.residual) <= f(first.residual));
}

#[test]
fn damping_grows_as_manipulability_falls() {
    let d = |xs: &[f64]| f(damping_for(&v(xs), s(1e-3), s(1e-10), s(1e-3)));
    assert_eq!(d(&[1.0, 1.0]), 1e-10);
    assert_eq!(d(&[1.0, 0.0]), 1e-3);
    let w: f64 = 1.0 * 5e-4;
    assert_eq!(d(&[1.0, 5e-4]), 1e-3 * ((1.0 - w / 1e-3) * (1.0 - w / 1e-3)));
    let t = twist(&Vector6::new(1.0, 2.0, 3.0, 4.0, 5.0, 6.0));
    assert_eq!(f(norm_of_twist(t)), 91.0_f64.sqrt());
}

const Q7: [f64; 7] = [0.3, -0.4, 0.6, 0.2, -0.5, 0.1, 0.35];

#[test]
fn resolved_rate_achieves_commanded_twist() {
    let b = redundant7();
    let mut rng = Numbers(0xABCDEF);
    for _ in 0..40 {
        let want: Vec<f64> = (0..6).map(|_| (rng.f() - 0.5) * 2.0).collect();
        let qd = b.resolved(&Q7, &want, None);
        assert_eq!(qd.len(), 7);
        assert!((b.felt(&Q7, &qd) - DVector::from_vec(want)).norm() < 1e-5);
    }
}

#[test]
fn pure_nullspace_motion_leaves_tip_still_but_moves_joints() {
    let b = redundant7();
    let mut rng = Numbers(0x13579);
    let mut moved_any = false;
    for _ in 0..40 {
        let z: Vec<f64> = (0..7).map(|_| (rng.f() - 0.5) * 2.0).collect();
        let qd = b.resolved(&Q7, &[0.0; 6], Some(&z));
        assert!(b.felt(&Q7, &qd).norm() < 1e-9);
        let moved = DVector::from_vec(qd).norm();
        if moved > 1e-6 {
            moved_any = true;
            assert!(moved <= DVector::from_vec(z).norm() + 1e-9);
        }
    }
    assert!(moved_any);
}

#[test]
fn nonredundant_nullspace_is_empty() {
    let b = showcase6();
    assert_eq!(b.model.ndof, 6);
    let q = [0.3, -0.4, 0.6, 0.2, -0.5, 0.1];
    let mut rng = Numbers(0x2468);
    for _ in 0..30 {
        let z: Vec<f64> = (0..6).map(|_| (rng.f() - 0.5) * 2.0).collect();
        assert!(DVector::from_vec(b.resolved(&q, &[0.0; 6], Some(&z))).norm() < 1e-6);
    }
}

#[test]
fn secondary_objective_does_not_disturb_task() {
    let b = redundant7();
    let mut rng = Numbers(0xFEED);
    for _ in 0..40 {
        let want: Vec<f64> = (0..6).map(|_| (rng.f() - 0.5) * 1.5).collect();
        let g = joint_limit_avoidance_gradient(&b.model, &v(&Q7));
        let z: Vec<f64> = g.iter().map(|x| 5.0 * f(*x)).collect();
        let qd = b.resolved(&Q7, &want, Some(&z));
        assert!((b.felt(&Q7, &qd) - DVector::from_vec(want)).norm() < 1e-5);
    }
}

#[test]
fn limit_gradient_points_to_midrange() {
    let m = redundant7().model;
    let g = joint_limit_avoidance_gradient(&m, &v(&[2.5; 7]));
    assert!(g.iter().all(|x| f(*x) < 0.0));
    assert_eq!(f(g[0]), -(2.5 - 0.0) / (5.8 * 5.8));
    let g0 = joint_limit_avoidance_gradient(&m, &v(&[0.0; 7]));
    assert!(g0.iter().all(|x| f(*x).abs() < 1e-15));
}

#[test]
fn invalid_inputs_return_zero() {
    let b = redundant7();
    assert_eq!(b.resolved(&[0.0; 3], &[0.0; 6], None), vec![0.0; 7]);
    assert_eq!(b.resolved(&Q7, &[0.0; 5], None), vec![0.0; 7]);
    let mut bad = Q7;
    bad[0] = f64::NAN;
    assert_eq!(b.resolved(&bad, &[0.0; 6], None), vec![0.0; 7]);
    assert_eq!(b.resolved(&Q7, &[0.0; 6], Some(&[0.0; 3])), vec![0.0; 7]);
}

fn wrapped_dist(a: &[f64], b: &[f64]) -> f64 {
    a.iter().zip(b).map(|(x, y)| wrap_pi(x - y).abs()).fold(0.0_f64, f64::max)
}

fn seed_dist(q: &[f64], seed: &[f64]) -> f64 {
    q.iter().zip(seed).map(|(a, b)| wrap_pi(a - b).powi(2)).sum()
}

#[test]
fn analytic_branches_reproduce_target_and_recover_truth() {
    let b = showcase6();
    let frame = b.model.tip_frame();
    let mut rng = Numbers(0xCA11_BE12);
    let mut most = 0;
    for _ in 0..400 {
        let q_true = rng.config();
        let target = b.frame(&q_true, frame);
        let seed: Vec<f64> = q_true.iter().map(|x| x + (rng.f() - 0.5) * 0.3).collect();
        let branches = b.closed_form(frame, &target, Some(&seed)).unwrap();
        assert!(!branches.is_empty());
        assert!(branches.len() <= 8);
        most = most.max(branches.len());
        for q in &branches {
            assert_eq!(q.len(), 6);
            assert!(b.off(q, frame, &target).norm() < 1e-9);
            for (qi, lim) in q.iter().zip(&b.model.limits) {
                if let Some((lo, hi)) = lim {
                    assert!(*qi >= f(*lo) - 1e-9 && *qi <= f(*hi) + 1e-9);
                }
            }
        }
        let recovered =
            branches.iter().map(|q| wrapped_dist(q, &q_true)).fold(f64::INFINITY, f64::min);
        assert!(recovered < 1e-6, "{recovered}");
    }
    assert!(most >= 2);
}

#[test]
fn seed_nearest_matches_numeric_ik() {
    let b = showcase6();
    let frame = b.model.tip_frame();
    let mut rng = Numbers(0x5EED_1234);
    let mut compared = 0;
    for _ in 0..120 {
        let q_true = rng.config();
        let target = b.frame(&q_true, frame);
        let seed: Vec<f64> = q_true.iter().map(|x| x + (rng.f() - 0.5) * 0.25).collect();
        let branches = b.closed_form(frame, &target, Some(&seed)).unwrap();
        assert!(!branches.is_empty());
        let nearest = &branches[0];
        assert!(b.off(nearest, frame, &target).norm() < 1e-9);
        for q in &branches {
            assert!(seed_dist(nearest, &seed) <= seed_dist(q, &seed) + 1e-12);
        }
        let num = b.solve(frame, &target, &seed, &IkOpts::default());
        if num.success {
            let tip = b.frame(&reals(&num.q), frame);
            assert!(log(&(tip.inverse() * b.frame(nearest, frame))).norm() < 1e-7);
            compared += 1;
        }
    }
    assert!(compared >= 90, "{compared}");
}

#[test]
fn returns_none_on_non_spherical_wrist() {
    for b in [redundant7(), toy(), prismatic()] {
        let tip = b.model.tip_frame();
        assert!(b.closed_form(tip, &Isometry3::identity(), None).is_none());
    }
}

#[test]
fn no_seed_returns_distinct_on_target_branches() {
    let b = showcase6();
    let frame = b.model.tip_frame();
    let mut rng = Numbers(0x00A1_1B00);
    for _ in 0..60 {
        let q_true = rng.config();
        let target = b.frame(&q_true, frame);
        let branches = b.closed_form(frame, &target, None).unwrap();
        assert!(!branches.is_empty());
        for (i, a) in branches.iter().enumerate() {
            assert!(b.off(a, frame, &target).norm() < 1e-9);
            for c in branches.iter().skip(i + 1) {
                assert!(wrapped_dist(a, c) > 1e-6);
            }
        }
    }
}

#[test]
fn wrist_centre_is_invariant_to_wrist_joints() {
    let b = showcase6();
    let frame = b.model.tip_frame();
    let (p, c6) = b.wrist(frame).unwrap();
    assert_eq!(p.l_a, s(0.4));
    let centre = |q: &[f64]| {
        ((b.frame(q, frame) * b.offset(frame).inverse()) * Point3::from(c6)).coords
    };
    let base = centre(&[0.3, -0.4, 0.6, 0.0, 0.7, 0.0]);
    for w in [[1.2, 0.7, -0.9], [-2.0, 1.3, 2.5], [0.5, 0.2, 1.1]] {
        assert!((centre(&[0.3, -0.4, 0.6, w[0], w[1], w[2]]) - base).norm() < 1e-12);
    }
}

#[test]
fn structure_is_told_by_joints_and_axes() {
    let b = showcase6();
    assert!(is_canonical(&b.model, b.model.tip_frame()));
    assert!(!is_canonical(&b.model, 0));
    assert!(!is_canonical(&toy().model, 2));
    assert!(detect(&b.model, b.model.tip_frame(), &vec![], None).is_none());
}

#[test]
fn straight_wrist_takes_the_seed() {
    let unit = columns_of(&Matrix3::identity());
    assert_eq!(zyz_branches(&unit, Some(s(0.5)), &trig()), vec![(s(0.5), s(0.0), s(-0.5))]);
    let turned = Rotation3::from_axis_angle(&Vector3::y_axis(), 0.5).into_inner();
    let two = zyz_branches(&columns_of(&turned), None, &trig());
    assert_eq!(two.len(), 2);
    assert!((f(two[0].1) - 0.5).abs() < 1e-12 && (f(two[1].1) + 0.5).abs() < 1e-12);
}

#[test]
fn angles_are_fitted_by_whole_turns() {
    let wrap = |x: Scalar| s(wrap_pi(f(x)));
    let limits = vec![Some((s(-1.0), s(1.0))), None];
    let q = fit_limits(&limits, &v(&[2.0 * PI + 0.5, 3.0 * PI]), &wrap).unwrap();
    assert!((f(q[0]) - 0.5).abs() < 1e-12);
    assert!((f(q[1]).abs() - PI).abs() < 1e-12);
    assert!(fit_limits(&limits, &v(&[2.0, 0.0]), &wrap).is_none());
    let near = |q: &[Scalar]| s(if f(q[0]) > 0.0 { 0.0 } else { 1.0 });
    let raws = vec![v(&[0.9, 0.0]), v(&[0.2, 0.0]), v(&[0.2, 1e-9]), v(&[-0.5, 0.0])];
    let got = choose_branches(&limits, &raws, Some(&v(&[0.0, 0.0])), &wrap, &near);
    assert_eq!(got, vec![v(&[0.2, 0.0]), v(&[0.9, 0.0])]);
}

/// Three joints that bend in a plane, with a solver for their tip.
fn bend3() -> Bot {
    serial(&["0 1 0", "0 1 0", "0 1 0"], &["0 0 0.1", "0 0 0.3", "0 0 0.3"], "0 0 0.3")
}

fn reach(b: &Bot, target: &Isometry3<f64>, free: &dyn Fn(&[f64]) -> bool) -> ReachStatus {
    let rc = ReachChecker::new(&b.model, ReachConfig::default());
    assert_eq!(rc.frame(), b.model.tip_frame());
    let solve = |seed: &[Scalar]| b.solve(rc.frame(), target, &reals(seed), &IkOpts::default());
    let ok = |q: &[Scalar]| free(&reals(q));
    let verdict = rc.status(&solve, &ok);
    assert_eq!(rc.reachable(&solve, &ok), verdict.status == ReachStatus::Reachable);
    assert_eq!(verdict.q.is_some(), verdict.status == ReachStatus::Reachable);
    verdict.status
}

#[test]
fn reachable_in_free_space() {
    let b = bend3();
    let target = b.frame(&[0.3, -0.3, 0.3], b.model.tip_frame());
    assert_eq!(reach(&b, &target, &|_| true), ReachStatus::Reachable);
}

#[test]
fn unreachable_far_pose() {
    let target = Isometry3::translation(10.0, 0.0, 0.0);
    assert_eq!(reach(&bend3(), &target, &|_| true), ReachStatus::Unreachable);
}

#[test]
fn blocked_by_world_box() {
    let b = bend3();
    let tip = b.model.tip_frame();
    let target = b.frame(&[0.3, -0.3, 0.3], tip);
    let c = target.translation.vector;
    let outside = |q: &[f64]| {
        let d = b.frame(q, tip).translation.vector - c;
        d.x.abs() > 1.0 || d.y.abs() > 1.0 || d.z.abs() > 1.0
    };
    assert_eq!(reach(&b, &target, &outside), ReachStatus::Blocked);
}

fn pose(t: &Isometry3<f64>) -> Pose {
    let r = &t.rotation;
    Pose {
        at: to_vec3(&t.translation.vector),
        turn: Quaternion { w: s(r.w), i: s(r.i), j: s(r.j), k: s(r.k) },
    }
}

fn cbrt(x: Scalar) -> Scalar {
    s(f(x).cbrt())
}

fn atan2(y: Scalar, x: Scalar) -> Scalar {
    s(f(y).atan2(f(x)))
}

impl Bot {
    fn limits(&self) -> MotionLimits {
        MotionLimits::from_model(&self.model, &MotionLimitsConfig::default()).unwrap()
    }

    fn outcome(&self, at: &Isometry3<f64>, seed: &[Scalar], opts: &CartesianMoveOpts) -> Outcome {
        let frame = self.model.tip_frame();
        let res = self.solve(frame, at, &reals(seed), &opts.tracking());
        Outcome { success: res.success, q: res.q, residual: res.residual }
    }

    fn go_line(
        &self,
        q: &[f64],
        goal: &Isometry3<f64>,
        opts: &CartesianMoveOpts,
    ) -> Result<Trajectory, MotionError> {
        let t0 = self.frame(q, self.model.tip_frame());
        let turn = (t0.inverse() * goal).rotation.angle();
        let solve = |x: Scalar, seed: &[Scalar]| {
            let p = of_vec3(line_point(pose(&t0).at, pose(goal).at, x));
            let r = t0.rotation.slerp(&goal.rotation, f(x));
            self.outcome(&Isometry3::from_parts(Translation3::from(p), r), seed, opts)
        };
        let n = self.model.ndof;
        move_l(n, &v(q), &pose(&t0), &pose(goal), s(turn), opts, &cbrt, &solve)
    }
}

const QA: [f64; 6] = [0.3, -0.4, 0.6, 0.2, -0.5, 0.1];

#[test]
fn move_l_traces_straight_line() {
    let b = showcase6();
    let tip = b.model.tip_frame();
    let ta = b.frame(&QA, tip);
    let pa = ta.translation.vector;
    let pb = pa + Vector3::new(0.0, 0.05, 0.0);
    let goal = Isometry3::from_parts(Translation3::from(pb), ta.rotation);
    let traj = b.go_line(&QA, &goal, &CartesianMoveOpts::defaults(b.limits())).unwrap();
    assert!(traj.completed());
    let u = (pb - pa).normalize();
    for k in 0..=200 {
        let t = f(traj.duration()) * k as f64 / 200.0;
        let p = b.frame(&reals(&traj.sample(s(t)).q), tip).translation.vector;
        let d = ((p - pa) - ((p - pa).dot(&u)) * u).norm();
        assert!(d < 1e-3, "{d} at {t}");
    }
    let last = b.frame(&reals(&traj.q_at(traj.duration())), tip);
    assert!((last.translation.vector - pb).norm() < 1e-4);
}

fn far_goal(b: &Bot) -> Isometry3<f64> {
    let ta = b.frame(&[0.1; 6], b.model.tip_frame());
    let p = ta.translation.vector + Vector3::new(5.0, 5.0, 5.0);
    Isometry3::from_parts(Translation3::from(p), ta.rotation)
}

#[test]
fn move_l_abort_on_unreachable() {
    let b = showcase6();
    let opts = CartesianMoveOpts {
        on_failure: OnFailure::Abort,
        ..CartesianMoveOpts::defaults(b.limits())
    };
    let r = b.go_line(&[0.1; 6], &far_goal(&b), &opts);
    assert!(matches!(r, Err(MotionError::Unreachable { .. })), "{r:?}");
}

#[test]
fn move_l_truncate_returns_prefix() {
    let b = showcase6();
    let opts = CartesianMoveOpts::defaults(b.limits());
    let traj = b.go_line(&[0.1; 6], &far_goal(&b), &opts).unwrap();
    assert!(!traj.completed());
    assert!(f(traj.reached()) < 1.0 && f(traj.reached()) >= 0.0);
    assert!(f(traj.duration()) > 0.0);
}

#[test]
fn move_l_refuses_what_it_cannot_start() {
    let b = showcase6();
    let opts = CartesianMoveOpts::defaults(b.limits());
    let t0 = b.frame(&QA, b.model.tip_frame());
    assert!(matches!(b.go_line(&QA, &t0, &opts), Err(MotionError::ZeroLengthSegment)));
    let mut lost = t0;
    lost.translation.x = f64::NAN;
    assert!(!goal_is_finite(&pose(&lost)));
    match b.go_line(&QA, &lost, &opts) {
        Err(MotionError::BadParam(p)) => assert_eq!(p.name(), "goal pose is non-finite"),
        other => panic!("{other:?}"),
    }
    let solve = |_: Scalar, seed: &[Scalar]| b.outcome(&t0, seed, &opts);
    let short = move_l(7, &v(&QA), &pose(&t0), &pose(&t0), s(0.0), &opts, &cbrt, &solve);
    assert!(matches!(short, Err(MotionError::DimMismatch)));
}

fn p3(x: f64, y: f64, z: f64) -> Vec3 {
    Vec3::new(s(x), s(y), s(z))
}

#[test]
fn arc_runs_through_the_point_on_the_way() {
    let half = fit_arc(p3(1.0, 0.0, 0.0), p3(0.0, 1.0, 0.0), p3(-1.0, 0.0, 0.0), &atan2).unwrap();
    assert!((f(half.r) - 1.0).abs() < 1e-12);
    assert!((f(half.phi) - PI).abs() < 1e-12);
    let at = |g: &ArcGeom, a: f64| of_vec3(arc_point(g, s(a.cos()), s(a.sin())));
    assert!((at(&half, PI / 2.0) - Vector3::new(0.0, 1.0, 0.0)).norm() < 1e-12);
    let long = fit_arc(p3(1.0, 0.0, 0.0), p3(-1.0, 0.0, 0.0), p3(0.0, 1.0, 0.0), &atan2).unwrap();
    assert!((f(long.phi) - 1.5 * PI).abs() < 1e-12);
    assert!((at(&long, PI) - Vector3::new(-1.0, 0.0, 0.0)).norm() < 1e-12);
    assert!((at(&long, f(long.phi)) - Vector3::new(0.0, 1.0, 0.0)).norm() < 1e-12);
    let flat = fit_arc(p3(0.0, 0.0, 0.0), p3(1.0, 0.0, 0.0), p3(2.0, 0.0, 0.0), &atan2);
    assert!(matches!(flat, Err(MotionError::CollinearArc)));
}

#[test]
fn move_c_follows_its_arc() {
    let b = showcase6();
    let tip = b.model.tip_frame();
    let opts = CartesianMoveOpts::defaults(b.limits());
    let t0 = b.frame(&QA, tip);
    let p0 = t0.translation.vector;
    let via = p0 + Vector3::new(0.02, 0.02, 0.0);
    let end = Isometry3::from_parts(
        Translation3::from(p0 + Vector3::new(0.04, 0.0, 0.0)),
        t0.rotation,
    );
    let solve = |g: &ArcGeom, x: Scalar, seed: &[Scalar]| {
        let a = f(x) * f(g.phi);
        let p = of_vec3(arc_point(g, s(a.cos()), s(a.sin())));
        b.outcome(&Isometry3::from_parts(Translation3::from(p), t0.rotation), seed, &opts)
    };
    let go = |via: Vec3| {
        let (a, e) = (pose(&t0), pose(&end));
        move_c(6, &v(&QA), &a, via, &e, s(0.0), &opts, &cbrt, &atan2, &solve)
    };
    let traj = go(to_vec3(&via)).unwrap();
    assert!(traj.completed());
    let middle = b.frame(&reals(&traj.sample(s(f(traj.duration()) / 2.0)).q), tip);
    assert!((middle.translation.vector - via).norm() < 1e-3);
    let straight = go(to_vec3(&(p0 + Vector3::new(0.02, 0.0, 0.0))));
    assert!(matches!(straight, Err(MotionError::CollinearArc)));
    assert!(matches!(go(p3(f64::NAN, 0.0, 0.0)), Err(MotionError::BadParam(_))));
}

#[test]
fn solutions_stay_within_the_joint_limits() {
    let b = prismatic();
    let frame = b.model.tip_frame();
    let mut rng = Numbers(77);
    let n = b.model.ndof;
    for _ in 0..40 {
        let q: Vec<f64> = (0..n).map(|_| (rng.f() - 0.5) * 1.2).collect();
        let seed: Vec<f64> = (0..n).map(|_| (rng.f() - 0.5) * 9.0).collect();
        let res = b.solve(frame, &b.frame(&q, frame), &seed, &IkOpts::default());
        if res.success {
            for i in 0..n {
                if let Some((lo, hi)) = b.model.limits[i] {
                    assert!(f(lo) <= f(res.q[i]) && f(res.q[i]) <= f(hi));
                }
            }
        }
    }
}
