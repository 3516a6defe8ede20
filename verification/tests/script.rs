use caliper::kinematics::singular::{JacFrame, SingularityKind};
use caliper::model::urdf::{UrdfJoint, UrdfJointType, UrdfLink, UrdfRobot};
use caliper::model::Model;
use caliper::motion::error::MotionError;
use caliper::motion::limits::{MotionLimits, MotionLimitsConfig};
use caliper::motion::movej::move_j;
use caliper::planning::reach::ReachStatus;
use caliper::scalar::{Scalar, Vec3};
use caliper::script::request::{
    check_damping, check_goal, control_request, finite_or_err, given_limits, inner_step,
    jacobian_reference, joint_move_request, kind_str, matrix_rows, motion_limits, outer_step,
    pose_request, reset_request, resolve_frame, se3_from_12, status_str, Placement, RequestError,
};
use caliper::script::table::{rollout, rollout_steps, sample_every, sample_uniform, step_count};

fn s(x: f64) -> Scalar {
    Scalar { bits: x.to_bits() }
}

fn v(xs: &[f64]) -> Vec<Scalar> {
    xs.iter().map(|x| s(*x)).collect()
}

fn f(x: Scalar) -> f64 {
    f64::from_bits(x.bits)
}

fn fs(xs: &[Scalar]) -> Vec<f64> {
    xs.iter().map(|x| f(*x)).collect()
}

fn cbrt(x: Scalar) -> Scalar {
    s(f(x).cbrt())
}

fn chain(n: usize, mass: f64) -> Model {
    let link = |i: usize| UrdfLink {
        name: format!("l{i}"),
        mass: s(mass),
        collision: Vec::new(),
        visual: Vec::new(),
    };
    let joint = |i: usize| UrdfJoint {
        name: format!("j{i}"),
        joint_type: UrdfJointType::Revolute,
        parent: format!("l{i}"),
        child: format!("l{}", i + 1),
        axis: Vec3::new(s(0.0), s(0.0), s(1.0)),
        lower: s(-3.0),
        upper: s(3.0),
        velocity: s(2.0),
        effort: s(0.0),
        mimic: None,
    };
    Model::from_urdf(&UrdfRobot {
        name: "chain".to_string(),
        links: (0..=n).map(link).collect(),
        joints: (0..n).map(joint).collect(),
        materials: Vec::new(),
    })
    .unwrap()
}

fn identity_columns() -> Vec<Vec<Scalar>> {
    vec![
        v(&[1.0, 0.0, 0.0, 0.0]),
        v(&[0.0, 1.0, 0.0, 0.0]),
        v(&[0.0, 0.0, 1.0, 0.0]),
        v(&[4.0, 5.0, 6.0, 1.0]),
    ]
}

#[test]
fn non_finite_lists_are_refused_by_name() {
    assert!(finite_or_err("q", &v(&[0.0, -1e300])).is_ok());
    for bad in [f64::NAN, f64::INFINITY, f64::NEG_INFINITY] {
        assert!(matches!(
            finite_or_err("tau", &v(&[0.0, bad])),
            Err(RequestError::NotFinite { label: "tau" })
        ));
    }
}

#[test]
fn goals_have_the_robots_length() {
    assert!(check_goal("goal", &v(&[0.1, 0.2]), 2).is_ok());
    assert!(matches!(
        check_goal("goal", &v(&[0.1]), 2),
        Err(RequestError::Length { label: "goal", got: 1, want: 2 })
    ));
    assert!(matches!(
        check_goal("goal", &v(&[0.1, f64::NAN]), 2),
        Err(RequestError::NotFinite { label: "goal" })
    ));
}

#[test]
fn frames_resolve_by_name_or_to_the_tip() {
    let m = chain(3, 0.0);
    assert_eq!(resolve_frame(&m, None).unwrap(), m.tip_frame());
    let first = resolve_frame(&m, Some("l1")).unwrap();
    assert_eq!(m.frame_name(first), "l1");
    assert!(matches!(resolve_frame(&m, Some("nope")), Err(RequestError::UnknownFrame)));
}

#[test]
fn jacobian_references_by_name() {
    assert!(matches!(jacobian_reference(None), Ok(JacFrame::World)));
    assert!(matches!(jacobian_reference(Some("world")), Ok(JacFrame::World)));
    assert!(matches!(jacobian_reference(Some("body")), Ok(JacFrame::Body)));
    assert!(matches!(jacobian_reference(Some("World")), Err(RequestError::UnknownReference)));
}

#[test]
fn kinds_and_statuses_have_tags() {
    assert_eq!(kind_str(SingularityKind::Regular), "none");
    assert_eq!(kind_str(SingularityKind::Wrist), "wrist");
    assert_eq!(kind_str(SingularityKind::Elbow), "elbow");
    assert_eq!(kind_str(SingularityKind::Boundary), "boundary");
    assert_eq!(status_str(ReachStatus::Reachable), "reachable");
    assert_eq!(status_str(ReachStatus::Blocked), "blocked");
    assert_eq!(status_str(ReachStatus::Unreachable), "unreachable");
}

#[test]
fn twelve_numbers_make_a_target() {
    let t: Vec<f64> = (1..=12).map(|i| i as f64).collect();
    let p = se3_from_12(&v(&t)).unwrap();
    assert_eq!((f(p.row0.x), f(p.row0.y), f(p.row0.z)), (1.0, 2.0, 3.0));
    assert_eq!((f(p.row2.x), f(p.row2.y), f(p.row2.z)), (7.0, 8.0, 9.0));
    assert_eq!((f(p.at.x), f(p.at.y), f(p.at.z)), (10.0, 11.0, 12.0));
    assert!(matches!(se3_from_12(&v(&t[..11])), Err(RequestError::NotTwelve)));
    let mut bad = t.clone();
    bad[4] = f64::NAN;
    assert!(matches!(se3_from_12(&v(&bad)), Err(RequestError::NotTwelve)));
}

#[test]
fn pose_requests_are_checked_in_order() {
    let m = chain(2, 0.0);
    let q = v(&[0.1, 0.2]);
    let (frame, p) = pose_request(&m, "seed", &q, &identity_columns(), Some("l1")).unwrap();
    assert_eq!(m.frame_name(frame), "l1");
    assert_eq!((f(p.row0.x), f(p.row1.y), f(p.row2.z)), (1.0, 1.0, 1.0));
    assert_eq!((f(p.at.x), f(p.at.y), f(p.at.z)), (4.0, 5.0, 6.0));

    let nan = v(&[f64::NAN, 0.0]);
    let short = identity_columns()[..3].to_vec();
    // each request is wrong in everything that is checked after the error it gives
    assert!(matches!(
        pose_request(&m, "seed", &v(&[f64::NAN]), &short, Some("nope")),
        Err(RequestError::Length { label: "seed", got: 1, want: 2 })
    ));
    assert!(matches!(
        pose_request(&m, "seed", &nan, &short, Some("nope")),
        Err(RequestError::NotFourByFour)
    ));
    let mut wild = identity_columns();
    wild[2][1] = s(f64::INFINITY);
    assert!(matches!(
        pose_request(&m, "seed", &nan, &wild, Some("nope")),
        Err(RequestError::NotFinite { label: "seed" })
    ));
    assert!(matches!(
        pose_request(&m, "seed", &q, &wild, Some("nope")),
        Err(RequestError::NotFinite { label: "target" })
    ));
    assert!(matches!(
        pose_request(&m, "seed", &q, &identity_columns(), Some("nope")),
        Err(RequestError::UnknownFrame)
    ));
    let mut ragged = identity_columns();
    ragged[1].pop();
    assert!(matches!(
        pose_request(&m, "seed", &q, &ragged, None),
        Err(RequestError::NotFourByFour)
    ));
}

#[test]
fn transposed_rows_are_a_target() {
    let m = chain(2, 0.0);
    let p = Placement {
        row0: Vec3::new(s(0.0), s(-1.0), s(0.0)),
        row1: Vec3::new(s(1.0), s(0.0), s(0.0)),
        row2: Vec3::new(s(0.0), s(0.0), s(1.0)),
        at: Vec3::new(s(0.3), s(-0.4), s(0.5)),
    };
    let rows = matrix_rows(&p);
    assert_eq!(fs(&rows[1]), vec![1.0, 0.0, 0.0, -0.4]);
    assert_eq!(fs(&rows[3]), vec![0.0, 0.0, 0.0, 1.0]);
    let columns: Vec<Vec<Scalar>> =
        (0..4).map(|c| (0..4).map(|r| rows[r][c]).collect()).collect();
    let (_, back) = pose_request(&m, "seed", &v(&[0.0, 0.0]), &columns, None).unwrap();
    assert_eq!(back, p);
}

#[test]
fn joint_moves_check_both_ends() {
    let (a, b) = (v(&[0.0, 0.0]), v(&[1.0, 1.0]));
    assert!(joint_move_request(&a, &b, 2).is_ok());
    assert!(matches!(
        joint_move_request(&v(&[0.0]), &b, 2),
        Err(RequestError::Length { label: "q_start", got: 1, want: 2 })
    ));
    assert!(matches!(
        joint_move_request(&a, &v(&[1.0]), 2),
        Err(RequestError::Length { label: "q_goal", got: 1, want: 2 })
    ));
    let nan = v(&[0.0, f64::NAN]);
    assert!(matches!(
        joint_move_request(&nan, &b, 2),
        Err(RequestError::NotFinite { label: "q_start" })
    ));
    assert!(matches!(
        joint_move_request(&a, &nan, 2),
        Err(RequestError::NotFinite { label: "q_goal" })
    ));
}

#[test]
fn limits_are_given_or_derived() {
    let l = given_limits(v(&[1.0]), v(&[2.0]), v(&[3.0])).unwrap();
    assert_eq!((f(l.vmax[0]), f(l.amax[0]), f(l.jmax[0])), (1.0, 2.0, 3.0));
    assert!(matches!(
        given_limits(v(&[1.0]), v(&[2.0, 2.0]), v(&[3.0])),
        Err(RequestError::LimitLengths)
    ));
    let m = chain(2, 0.0);
    let derived = motion_limits(&m, None).unwrap();
    assert_eq!(fs(&derived.vmax), vec![2.0, 2.0]);
    assert_eq!(fs(&derived.amax), vec![10.0, 10.0]);
    assert_eq!(fs(&derived.jmax), vec![100.0, 100.0]);
    let kept = motion_limits(&m, Some(l)).unwrap();
    assert_eq!(fs(&kept.vmax), vec![1.0]);
    let mut backward = chain(2, 0.0);
    backward.vel_limit[1] = Some(s(-1.0));
    assert!(matches!(motion_limits(&backward, None), Err(MotionError::BadLimit(1))));
}

#[test]
fn damping_feeds_no_energy_in() {
    assert!(check_damping(&v(&[0.0, 0.5])).is_ok());
    for bad in [-1e-9, f64::NAN, f64::INFINITY] {
        assert!(matches!(check_damping(&v(&[0.0, bad])), Err(RequestError::Damping)));
    }
}

#[test]
fn simulator_steps() {
    assert_eq!(f(outer_step(s(0.02))), 0.02);
    for bad in [0.0, -1.0, f64::NAN, f64::INFINITY] {
        assert_eq!(f(outer_step(s(bad))), 1e-3);
    }
    assert_eq!(f(inner_step(s(0.02), 4)), 0.005);
    assert_eq!(f(inner_step(s(0.02), 0)), 0.02);
    assert_eq!(f(inner_step(s(1e-7), 4)), 1e-6);
}

#[test]
fn resets_fill_in_zeros() {
    assert!(matches!(reset_request(None, None, 2), Ok(None)));
    let (q, qd) = reset_request(Some(v(&[0.5, 0.6])), None, 2).unwrap().unwrap();
    assert_eq!((fs(&q), fs(&qd)), (vec![0.5, 0.6], vec![0.0, 0.0]));
    let (q, qd) = reset_request(None, Some(v(&[0.5, 0.6])), 2).unwrap().unwrap();
    assert_eq!((fs(&q), fs(&qd)), (vec![0.0, 0.0], vec![0.5, 0.6]));
    let nan = || Some(v(&[f64::NAN, 0.0]));
    assert!(matches!(
        reset_request(nan(), nan(), 2),
        Err(RequestError::NotFinite { label: "q0" })
    ));
    assert!(matches!(
        reset_request(None, nan(), 2),
        Err(RequestError::NotFinite { label: "qd0" })
    ));
}

#[test]
fn control_needs_inertia_and_a_start_that_fits() {
    let (bare, heavy) = (chain(2, 0.0), chain(2, 1.0));
    assert!(matches!(control_request(&bare, &None), Err(RequestError::NoInertia)));
    assert!(control_request(&heavy, &None).is_ok());
    assert!(control_request(&heavy, &Some(v(&[0.1, 0.2]))).is_ok());
    assert!(matches!(
        control_request(&heavy, &Some(v(&[0.1]))),
        Err(RequestError::Length { label: "start", got: 1, want: 2 })
    ));
    assert!(matches!(
        control_request(&heavy, &Some(v(&[0.1, f64::NAN]))),
        Err(RequestError::NotFinite { label: "start" })
    ));
}

#[test]
fn uniform_samples_run_from_start_to_end() {
    let m = chain(2, 0.0);
    let limits = MotionLimits::from_model(&m, &MotionLimitsConfig::default()).unwrap();
    let (a, b) = (v(&[0.0, 0.5]), v(&[1.0, -0.5]));
    let traj = move_j(&m, &a, &b, &limits, &cbrt).unwrap();
    let dur = f(traj.duration());
    let t = sample_uniform(&traj, s(0.05));
    let n = (dur / 0.05).ceil() as usize + 1;
    assert_eq!((t.times.len(), t.q.len(), t.qd.len(), t.qdd.len()), (n, n, n, n));
    assert_eq!(f(t.times[0]), 0.0);
    assert_eq!(f(t.times[1]), 0.05);
    assert_eq!(f(t.times[n - 1]), dur);
    assert_eq!(fs(&t.q[0]), vec![0.0, 0.5]);
    assert!((f(t.q[n - 1][0]) - 1.0).abs() < 1e-9);
    for (k, time) in t.times.iter().enumerate() {
        assert!(f(*time) <= dur);
        assert_eq!(fs(&t.q[k]), fs(&traj.q_at(*time)));
    }
    // steps that cannot be used are a hundredth of a second, long ones ten seconds
    let usual = (dur / 0.01).ceil() as usize + 1;
    for bad in [0.0, 1e-4, -1.0, f64::NAN, f64::INFINITY] {
        assert_eq!(sample_uniform(&traj, s(bad)).times.len(), usual);
    }
    assert_eq!(sample_uniform(&traj, s(1e6)).times.len(), 2);
    assert_eq!(sample_every(&traj, s(f64::NAN)).times.len(), 2);
}

#[test]
fn rollouts_have_a_horizon() {
    assert_eq!(step_count(s(1.0), s(0.25)), 4);
    assert_eq!(step_count(s(1.1), s(0.25)), 5);
    assert_eq!(step_count(s(0.0), s(0.25)), 1);
    let (dt, n) = rollout_steps(s(1.0), None, s(0.25)).unwrap();
    assert_eq!((f(dt), n), (0.25, 4));
    let (dt, n) = rollout_steps(s(1.0), Some(s(0.5)), s(0.25)).unwrap();
    assert_eq!((f(dt), n), (0.5, 2));
    let (dt, n) = rollout_steps(s(0.001), Some(s(0.0)), s(0.25)).unwrap();
    assert_eq!((f(dt), n), (1e-4, 10));
    assert!(rollout_steps(s(600.0), None, s(0.25)).is_ok());
    for bad in [0.0, -1.0, 600.1, f64::NAN, f64::INFINITY] {
        assert!(matches!(
            rollout_steps(s(bad), None, s(0.25)),
            Err(RequestError::Horizon)
        ));
    }
}

#[test]
fn rollouts_keep_every_state() {
    let states = rollout(s(1.0), s(0.5), 3, |x: &Scalar, dt: Scalar| {
        Ok::<Scalar, String>(s(f(*x) + f(dt)))
    })
    .unwrap();
    assert_eq!(fs(&states), vec![1.0, 1.5, 2.0, 2.5]);
    let failed = rollout(s(1.0), s(0.5), 3, |x: &Scalar, dt: Scalar| {
        if f(*x) < 2.0 {
            Ok(s(f(*x) + f(dt)))
        } else {
            Err(f(*x))
        }
    });
    assert_eq!(failed.unwrap_err(), 2.0);
}
