use caliper::model::urdf::{UrdfJoint, UrdfJointType, UrdfLink, UrdfRobot};
use caliper::model::Model;
use caliper::motion::cartesian::{sample_cartesian, CartesianMoveOpts, OnFailure, Outcome};
use caliper::motion::error::{MotionError, Param};
use caliper::motion::limits::{JointOverride, MotionLimits, MotionLimitsConfig};
use caliper::motion::movej::move_j;
use caliper::motion::poses::PoseLibrary;
use caliper::motion::retime::{retime_time_optimal, retime_waypoints};
use caliper::motion::scurve::{plan_scurve, plan_scurve_to_duration};
use caliper::motion::topp::BangBang;
use caliper::motion::trajectory::{TrajKind, Trajectory};
use caliper::planning::Rng;
use caliper::scalar::{Scalar, Vec3};

fn s(x: f64) -> Scalar {
    Scalar { bits: x.to_bits() }
}

fn v(xs: &[f64]) -> Vec<Scalar> {
    xs.iter().map(|x| s(*x)).collect()
}

fn f(x: Scalar) -> f64 {
    f64::from_bits(x.bits)
}

fn fs(xs: &[Scalar]) -> Vec<f64> {
    xs.iter().map(|x| f(*x)).collect()
}

fn cbrt(x: Scalar) -> Scalar {
    s(f(x).cbrt())
}

fn rows(w: &[&[f64]]) -> Vec<Vec<Scalar>> {
    w.iter().map(|r| v(r)).collect()
}

fn chain(limits: &[(f64, f64)], velocity: f64) -> Model {
    let n = limits.len();
    let link = |i: usize| UrdfLink {
        name: format!("l{i}"),
        mass: s(0.0),
        collision: Vec::new(),
        visual: Vec::new(),
    };
    let joint = |i: usize| UrdfJoint {
        name: format!("j{i}"),
        joint_type: UrdfJointType::Revolute,
        parent: format!("l{i}"),
        child: format!("l{}", i + 1),
        axis: Vec3::new(s(0.0), s(0.0), s(1.0)),
        lower: s(limits[i].0),
        upper: s(limits[i].1),
        velocity: s(velocity),
        effort: s(0.0),
        mimic: None,
    };
    Model::from_urdf(&UrdfRobot {
        name: "chain".to_string(),
        links: (0..=n).map(link).collect(),
        joints: (0..n).map(joint).collect(),
        materials: Vec::new(),
    })
    .unwrap()
}

#[test]
fn scurve_matches_analytic_7segment() {
    // L=10, vmax=1.5, amax=2, jmax=4 => full 7-segment (cruise + accel plateau)
    let p = plan_scurve(s(10.0), s(1.5), s(2.0), s(4.0), &cbrt);
    let tj = 2.0 / 4.0; // amax/jmax
    let ta = 1.5 / 2.0 - tj; // vmax/amax - tj = 0.25
    assert!((f(p.tj) - tj).abs() < 1e-9);
    assert!((f(p.ta) - ta).abs() < 1e-9);
    assert!(f(p.tv) > 0.0, "cruise must exist");
    // total-time identity T = L/v + v/a + a/j
    let tref = 10.0 / 1.5 + 1.5 / 2.0 + 2.0 / 4.0;
    let total = f(p.total());
    assert!((total - tref).abs() < 1e-9, "total {total} vs {tref}");
    // displacement integrates to L
    let (dp, vel, acc) = p.sample(p.total());
    assert!((f(dp) - 10.0).abs() < 1e-9 && f(vel).abs() < 1e-9 && f(acc).abs() < 1e-9);
    // peak vel == vmax
    let mut vmax = 0.0f64;
    let n = 2000;
    let dt = total / n as f64;
    for k in 0..=n {
        vmax = vmax.max(f(p.sample(s(k as f64 * dt)).1).abs());
    }
    assert!((vmax - 1.5).abs() < 1e-6);
}

#[test]
fn scurve_short_move_no_cruise() {
    let p = plan_scurve(s(0.1), s(1.5), s(2.0), s(4.0), &cbrt);
    assert!(f(p.tv).abs() < 1e-12, "no cruise");
    let mut vmax = 0.0f64;
    let n = 2000;
    let dt = f(p.total()) / n as f64;
    for k in 0..=n {
        vmax = vmax.max(f(p.sample(s(k as f64 * dt)).1).abs());
    }
    assert!(vmax < 1.5 + 1e-9);
    let (dp, _, _) = p.sample(p.total());
    assert!((f(dp) - 0.1).abs() < 1e-9);
}

#[test]
fn scurve_stretches_to_a_duration() {
    let full = plan_scurve(s(-1.0), s(1.0), s(2.0), s(8.0), &cbrt);
    let slow = plan_scurve_to_duration(s(-1.0), s(5.0), s(1.0), s(2.0), s(8.0), &cbrt);
    assert!(f(full.total()) < 5.0);
    assert!((f(slow.total()) - 5.0).abs() < 1e-6);
    let (d, _, _) = slow.sample(s(5.0));
    assert!((f(d) + 1.0).abs() < 1e-6);
    let same = plan_scurve_to_duration(s(-1.0), s(0.1), s(1.0), s(2.0), s(8.0), &cbrt);
    assert_eq!(same.total(), full.total());
    let none = plan_scurve(s(1e-13), s(1.0), s(2.0), s(8.0), &cbrt);
    assert_eq!(f(none.total()), 0.0);
}

fn random_in(m: &Model, rng: &mut Rng) -> Vec<Scalar> {
    (0..m.ndof)
        .map(|i| {
            let (lo, hi) = m.limits[i].unwrap_or((s(-1.0), s(1.0)));
            rng.range(lo, hi)
        })
        .collect()
}

fn models() -> Vec<Model> {
    vec![
        chain(&[(-3.14, 3.14), (-3.14, 3.14)], 2.0),
        chain(&[(-2.9, 2.9); 6], 3.0),
        chain(&[(-2.8, 2.8); 7], 2.5),
        chain(&[(0.0, 0.5), (-1.0, 1.0)], 0.0),
    ]
}

#[test]
fn move_j_respects_limits() {
    for m in models() {
        let l = MotionLimits::from_model(&m, &MotionLimitsConfig::default()).unwrap();
        let mut rng = Rng::new(0xBEEF);
        for _ in 0..5 {
            let q0 = random_in(&m, &mut rng);
            let q1 = random_in(&m, &mut rng);
            let traj = move_j(&m, &q0, &q1, &l, &cbrt).unwrap();
            let t = f(traj.duration());
            if t < 1e-9 {
                continue;
            }
            let n = 4000usize;
            let dt = t / n as f64;
            for k in 1..n {
                let st = traj.sample(s(k as f64 * dt));
                let after = traj.sample(s(k as f64 * dt + dt));
                let before = traj.sample(s(k as f64 * dt - dt));
                for i in 0..m.ndof {
                    assert!(f(st.qd[i]).abs() <= f(l.vmax[i]) * (1.0 + 1e-6), "vel j{i}");
                    assert!(f(st.qdd[i]).abs() <= f(l.amax[i]) * (1.0 + 1e-6), "acc j{i}");
                    let jk = (f(after.qdd[i]) - f(before.qdd[i])) / (2.0 * dt);
                    assert!(jk.abs() <= f(l.jmax[i]) * (1.0 + 1e-2), "jerk j{i}={jk}");
                }
            }
        }
    }
}

#[test]
fn move_j_boundary_and_c2() {
    for m in models() {
        let l = MotionLimits::from_model(&m, &MotionLimitsConfig::default()).unwrap();
        let mut rng = Rng::new(0x1234);
        for _ in 0..5 {
            let q0 = random_in(&m, &mut rng);
            let q1 = random_in(&m, &mut rng);
            let traj = move_j(&m, &q0, &q1, &l, &cbrt).unwrap();
            let a = traj.sample(s(0.0));
            let b = traj.sample(traj.duration());
            for i in 0..m.ndof {
                assert!((f(a.q[i]) - f(q0[i])).abs() < 1e-12);
                assert!((f(b.q[i]) - f(q1[i])).abs() < 1e-12);
                assert!(f(a.qd[i]).abs() < 1e-12 && f(b.qd[i]).abs() < 1e-12);
                assert!(f(a.qdd[i]).abs() < 1e-12 && f(b.qdd[i]).abs() < 1e-12);
            }
            let t = f(traj.duration());
            if t < 1e-9 {
                continue;
            }
            let n = 4000;
            let dt = t / n as f64;
            let mut prev = traj.sample(s(0.0));
            for k in 1..=n {
                let st = traj.sample(s(k as f64 * dt));
                for i in 0..m.ndof {
                    let dv = f(st.qd[i]) - f(prev.qd[i]);
                    let da = f(st.qdd[i]) - f(prev.qdd[i]);
                    assert!(dv.abs() <= f(l.amax[i]) * dt * (1.0 + 1e-3));
                    assert!(da.abs() <= f(l.jmax[i]) * dt * (1.0 + 1e-2));
                }
                prev = st;
            }
        }
    }
}

#[test]
fn move_j_refuses() {
    let m = chain(&[(-1.0, 1.0)], 1.0);
    let l = MotionLimits::from_model(&m, &MotionLimitsConfig::default()).unwrap();
    let go = |a: &[f64], b: &[f64], l: &MotionLimits| move_j(&m, &v(a), &v(b), l, &cbrt);
    assert!(matches!(go(&[0.0, 0.0], &[0.5], &l), Err(MotionError::DimMismatch)));
    assert!(matches!(go(&[0.0], &[1.5], &l), Err(MotionError::OutOfLimits(0))));
}

fn lim2() -> MotionLimits {
    MotionLimits { vmax: v(&[1.0, 1.5]), amax: v(&[3.0, 4.0]), jmax: v(&[20.0; 2]) }
}

fn lim(n: usize) -> MotionLimits {
    MotionLimits { vmax: v(&vec![1.0; n]), amax: v(&vec![3.0; n]), jmax: v(&vec![20.0; n]) }
}

fn worst_ratios(traj: &Trajectory, l: &MotionLimits, dt: f64) -> (f64, f64) {
    let dur = f(traj.duration());
    let n = (dur / dt).ceil() as usize;
    let (mut wv, mut wa) = (0.0_f64, 0.0_f64);
    for k in 0..=n {
        let t = (k as f64 * dt).min(dur);
        let st = traj.sample(s(t));
        for i in 0..st.qd.len() {
            wv = wv.max(f(st.qd[i]).abs() / f(l.vmax[i]));
            wa = wa.max(f(st.qdd[i]).abs() / f(l.amax[i]));
        }
    }
    (wv, wa)
}

#[test]
fn bounds_velocity_and_accel_at_corners() {
    let wps = rows(&[&[0.0, 0.0], &[0.6, 0.05], &[0.62, 0.9], &[1.3, 0.1], &[0.2, 0.4]]);
    let l = lim2();
    let dt = 1e-3;
    let traj = retime_time_optimal(&wps, &l, s(dt)).unwrap();
    let (wv, wa) = worst_ratios(&traj, &l, dt);
    assert!(wv <= 1.02, "vmax exceeded: ratio {wv}");
    assert!(wa <= 1.02, "amax exceeded: ratio {wa}");
}

#[test]
fn hits_every_waypoint_at_rest() {
    // a repeated waypoint is no extra stop
    let wps = rows(&[&[0.0, 0.0], &[0.5, -0.3], &[0.5, -0.3], &[1.0, 0.2], &[0.3, 0.7]]);
    let l = lim2();
    let dt = 1e-3;
    let traj = retime_time_optimal(&wps, &l, s(dt)).unwrap();
    let dur = f(traj.duration());
    let n = (dur / dt).ceil() as usize;
    let grid: Vec<(Vec<f64>, Vec<f64>)> = (0..=n)
        .map(|k| {
            let st = traj.sample(s((k as f64 * dt).min(dur)));
            (fs(&st.q), fs(&st.qd))
        })
        .collect();
    for wp in [[0.0, 0.0], [0.5, -0.3], [1.0, 0.2], [0.3, 0.7]] {
        let mut best = f64::INFINITY;
        let mut qd_there = f64::INFINITY;
        for (q, qd) in &grid {
            let d = (0..2).map(|i| (q[i] - wp[i]).powi(2)).sum::<f64>().sqrt();
            if d < best {
                best = d;
                qd_there = qd.iter().map(|x| x.abs()).fold(0.0, f64::max);
            }
        }
        assert!(best < 2e-3, "waypoint {wp:?} not reached (min dist {best})");
        assert!(qd_there < 5e-2, "waypoint {wp:?} not a rest (|qd| {qd_there})");
    }
}

#[test]
fn rest_at_both_ends() {
    let wps = rows(&[&[0.0, 0.0], &[0.7, -0.4], &[0.2, 0.5]]);
    let traj = retime_time_optimal(&wps, &lim2(), s(1e-3)).unwrap();
    for st in [traj.sample(s(0.0)), traj.sample(traj.duration())] {
        for x in &st.qd {
            assert!(f(*x).abs() < 1e-9, "not at rest");
        }
    }
}

#[test]
fn single_segment_not_slower_than_jerk_limited() {
    let wps = rows(&[&[0.0, 0.0], &[1.0, -0.6]]);
    let l = lim2();
    let dt = 1e-4;
    let topp = retime_time_optimal(&wps, &l, s(dt)).unwrap();
    let jerk = retime_waypoints(&wps, &l, s(dt), &cbrt).unwrap();
    assert!(f(topp.duration()) <= f(jerk.duration()) + 1e-9);
    // and still within limits
    let (wv, wa) = worst_ratios(&topp, &l, dt);
    assert!(wv <= 1.02 && wa <= 1.02, "limits: v {wv} a {wa}");
}

#[test]
fn bangbang_reaches_unit_at_rest() {
    // trapezoid (cruise): low accel, high enough vcap reached
    let tp = BangBang::plan(s(1.0), s(0.5), s(2.0));
    let (x, xd, _) = tp.sample(tp.total());
    assert!((f(x) - 1.0).abs() < 1e-12 && f(xd).abs() < 1e-12);
    assert!(f(tp.t2) > f(tp.t1), "expected a cruise phase");
    // triangle (no cruise): high vcap never reached
    let tr = BangBang::plan(s(1.0), s(100.0), s(2.0));
    let (x, xd, _) = tr.sample(tr.total());
    assert!((f(x) - 1.0).abs() < 1e-12 && f(xd).abs() < 1e-12);
    assert!((f(tr.t2) - f(tr.t1)).abs() < 1e-15, "expected no cruise phase");
    // peak velocity caps honored
    assert!(f(tp.vpeak) <= 0.5 + 1e-12 && f(tr.vpeak) <= 100.0);
}

#[test]
fn topp_rejects_bad_input() {
    let l = lim2();
    let go = |w: &[&[f64]], dt: f64| retime_time_optimal(&rows(w), &l, s(dt));
    assert!(go(&[], 1e-3).is_err());
    assert!(go(&[&[0.0]], 1e-3).is_err()); // wrong ndof
    assert!(go(&[&[0.0, 0.0], &[1.0, 1.0]], 0.0).is_err()); // dt
    assert!(go(&[&[0.0, f64::NAN], &[1.0, 1.0]], 1e-3).is_err());
}

#[test]
fn topp_all_identical_is_rest() {
    let wps = rows(&[&[0.3, 0.3], &[0.3, 0.3]]);
    let traj = retime_time_optimal(&wps, &lim2(), s(1e-3)).unwrap();
    assert_eq!(traj.q_at(s(0.0)), v(&[0.3, 0.3]));
}

#[test]
fn respects_limits_and_endpoints() {
    // a repeated waypoint is a segment without length
    let wps = rows(&[&[0.0, 0.0], &[0.5, -0.3], &[0.5, -0.3], &[1.0, 0.2]]);
    let l = lim(2);
    let traj = retime_waypoints(&wps, &l, s(1e-3), &cbrt).unwrap();
    let dur = f(traj.duration());
    assert!(dur > 0.0);
    let s0 = traj.sample(s(0.0));
    let s1 = traj.sample(s(dur));
    for i in 0..2 {
        assert!((f(s0.q[i]) - f(wps[0][i])).abs() < 1e-6, "start joint {i}");
        assert!((f(s1.q[i]) - f(wps[3][i])).abs() < 1e-3, "end joint {i}");
    }
    let n = (dur / 1e-3) as usize;
    for k in 0..=n {
        let t = k as f64 * 1e-3;
        let st = traj.sample(s(t));
        for i in 0..2 {
            assert!(f(st.qd[i]).abs() <= f(l.vmax[i]) * 1.02, "vmax j{i} @ {t}");
            assert!(f(st.qdd[i]).abs() <= f(l.amax[i]) * 1.05, "amax j{i} @ {t}");
        }
    }
}

#[test]
fn waypoints_all_identical_is_rest() {
    let wps = rows(&[&[0.3, 0.3], &[0.3, 0.3]]);
    let traj = retime_waypoints(&wps, &lim(2), s(1e-3), &cbrt).unwrap();
    assert_eq!(traj.q_at(s(0.0)), v(&[0.3, 0.3]));
}

#[test]
fn waypoints_rejects_bad_input() {
    let l = lim(2);
    let go = |w: &[&[f64]], dt: f64| retime_waypoints(&rows(w), &l, s(dt), &cbrt);
    assert!(go(&[], 1e-3).is_err());
    assert!(go(&[&[0.0]], 1e-3).is_err()); // wrong ndof
    assert!(go(&[&[0.0, 0.0], &[1.0, 1.0]], 0.0).is_err()); // dt
}

#[test]
fn limits_come_from_the_model() {
    let m = chain(&[(-1.0, 1.0), (-1.0, 1.0)], 2.0);
    let mut cfg = MotionLimitsConfig::default();
    let l = MotionLimits::from_model(&m, &cfg).unwrap();
    assert_eq!(l.ndof(), 2);
    assert_eq!(f(l.vmax[0]), 2.0 * f(cfg.vel_scale));
    assert!(f(l.amax[0]) > 0.0 && f(l.jmax[0]) > 0.0);
    cfg.overrides.push(JointOverride {
        joint: 1,
        vmax: Some(s(0.25)),
        amax: None,
        jmax: Some(s(7.0)),
    });
    let l = MotionLimits::from_model(&m, &cfg).unwrap();
    assert_eq!((f(l.vmax[1]), f(l.jmax[1])), (0.25, 7.0));
    cfg.overrides[0].amax = Some(s(-1.0));
    assert!(matches!(MotionLimits::from_model(&m, &cfg), Err(MotionError::BadLimit(1))));
}

#[test]
fn poses_are_kept_by_name() {
    let mut lib = PoseLibrary::new();
    lib.upsert("home".to_string(), v(&[0.0]));
    lib.upsert("up".to_string(), v(&[1.0]));
    lib.upsert("home".to_string(), v(&[0.5]));
    assert_eq!(lib.list().len(), 2);
    assert_eq!(lib.get("home").unwrap().q, v(&[0.5]));
    assert!(lib.get("down").is_none());
    lib.remove("home");
    assert!(lib.get("home").is_none());
    assert_eq!(lib.list().len(), 1);
    lib.clear();
    assert!(lib.list().is_empty());
}

fn cartesian(on_failure: OnFailure) -> CartesianMoveOpts {
    let mut o = CartesianMoveOpts::defaults(lim(1));
    o.on_failure = on_failure;
    o
}

fn reached(q: f64) -> Outcome {
    Outcome { success: true, q: v(&[q]), residual: s(0.0) }
}

#[test]
fn a_reachable_line_is_followed_to_its_end() {
    let o = cartesian(OnFailure::Abort);
    let solve = |x: Scalar, _q: &[Scalar]| reached(0.2 * f(x));
    let t = sample_cartesian(&v(&[0.0]), s(0.1), s(0.0), TrajKind::MoveL, &o, &cbrt, &solve)
        .unwrap();
    assert!(t.completed());
    assert_eq!(f(t.reached()), 1.0);
    assert!((f(t.q_at(t.duration())[0]) - 0.2).abs() < 1e-9);
}

#[test]
fn an_unreachable_line_is_refused_or_cut_short() {
    let solve = |x: Scalar, _q: &[Scalar]| {
        let mut r = reached(0.2 * f(x));
        if f(x) > 0.5 {
            r.success = false;
            r.residual = s(0.25);
        }
        r
    };
    let go = |o: &CartesianMoveOpts| {
        sample_cartesian(&v(&[0.0]), s(0.1), s(0.0), TrajKind::MoveL, o, &cbrt, &solve)
    };
    assert!(matches!(
        go(&cartesian(OnFailure::Abort)),
        Err(MotionError::Unreachable { .. })
    ));
    let t = go(&cartesian(OnFailure::Truncate)).unwrap();
    assert!(!t.completed());
    assert!(f(t.reached()) < 1.0 && f(t.reached()) >= 0.0);
    assert!(f(t.duration()) > 0.0);
}

#[test]
fn a_jump_of_the_joints_is_noticed() {
    let solve = |x: Scalar, _q: &[Scalar]| reached(if f(x) > 0.5 { 3.0 } else { 0.0 });
    let o = cartesian(OnFailure::Abort);
    let r = sample_cartesian(&v(&[0.0]), s(0.1), s(0.0), TrajKind::MoveL, &o, &cbrt, &solve);
    assert!(matches!(r, Err(MotionError::Discontinuity { .. })));
}

#[test]
fn bad_cartesian_options_are_named() {
    let mut o = cartesian(OnFailure::Abort);
    o.a_ang = s(0.0);
    assert!(matches!(o.validate(), Err(MotionError::BadParam(Param::AAng))));
    assert_eq!(Param::AAng.name(), "a_ang");
    o.a_ang = s(1.0);
    o.dt = s(f64::NAN);
    assert!(matches!(o.validate(), Err(MotionError::BadParam(Param::Dt))));
}

#[test]
fn a_grid_has_at_least_two_samples() {
    let wps = rows(&[&[0.0, 0.0], &[0.7, -0.4]]);
    let t = retime_time_optimal(&wps, &lim2(), s(1e-3)).unwrap();
    let g = t.sample_grid(0);
    assert_eq!(g.len(), 2);
    assert_eq!(f(g[0].0), 0.0);
    assert_eq!(g[1].0, t.duration());
    assert_eq!(t.sample_grid(11).len(), 11);
}

#[test]
fn timed_paths_start_at_their_first_waypoint() {
    let wps = rows(&[&[0.25, -0.5], &[0.75, 0.5], &[0.1, 0.2]]);
    let l = lim2();
    for traj in [
        retime_time_optimal(&wps, &l, s(1e-3)).unwrap(),
        retime_waypoints(&wps, &l, s(1e-3), &cbrt).unwrap(),
    ] {
        let st = traj.sample(s(0.0));
        assert_eq!(fs(&st.q), vec![0.25, -0.5]);
        assert!(st.qd.iter().all(|x| f(*x) == 0.0));
    }
}

#[test]
fn ramps_mirror_one_another() {
    for (vcap, acap) in [(0.5, 2.0), (100.0, 2.0), (0.3, 7.0), (3.0, 0.1)] {
        let b = BangBang::plan(s(1.0), s(vcap), s(acap));
        let (x0, v0, a0) = b.sample(s(0.0));
        assert_eq!((f(x0), f(v0), f(a0)), (0.0, 0.0, acap));
        assert!((f(b.t3) - f(b.t2) - f(b.t1)).abs() <= 1e-14 * f(b.t3));
        assert!((acap * f(b.t1) - f(b.vpeak)).abs() <= 1e-14 * f(b.vpeak));
        for k in 0..=100 {
            let (_, xd, xdd) = b.sample(s(f(b.t3) * k as f64 / 100.0));
            assert!(f(xd).abs() <= f(b.vpeak) * (1.0 + 1e-13) && f(xdd).abs() <= acap);
        }
    }
}

#[test]
fn accelerations_level_off() {
    let p = plan_scurve(s(2.0), s(1.0), s(0.5), s(2.0), &cbrt);
    let (tj, ta, tv) = (f(p.tj), f(p.ta), f(p.tv));
    assert!(tj > 0.0 && ta > 0.0);
    let acc = |t: f64| f(p.sample(s(t)).2);
    assert_eq!(acc(0.0), 0.0);
    assert!((acc(tj + ta / 2.0) - f(p.apeak)).abs() < 1e-12);
    assert!(acc(2.0 * tj + ta + tv / 2.0).abs() < 1e-12);
    assert!((acc(3.0 * tj + 1.5 * ta + tv) + f(p.apeak)).abs() < 1e-12);
    assert!(acc(f(p.total())).abs() < 1e-12);
}

#[test]
fn profiles_arrive_whatever_they_reach() {
    // A cruise, a plateau, jerk alone, and a full velocity without a plateau.
    for (d, vmax, amax, jmax) in [
        (10.0, 1.5, 2.0, 4.0),
        (1.2, 1.5, 0.8, 4.0),
        (0.01, 1.5, 2.0, 4.0),
        (5.0, 0.3, 2.0, 4.0),
        (-7.25, 1.1, 0.9, 30.0),
    ] {
        let p = plan_scurve(s(d), s(vmax), s(amax), s(jmax), &cbrt);
        let (x, xd, xdd) = p.sample(p.total());
        assert!((f(x) - d).abs() < 1e-12 * d.abs().max(1.0), "{d}: {}", f(x));
        assert!(f(xd).abs() < 1e-12 && f(xdd).abs() < 1e-12);
        for k in 0..=1000 {
            let (_, xd, xdd) = p.sample(s(f(p.total()) * k as f64 / 1000.0));
            assert!(f(xd).abs() <= vmax * (1.0 + 1e-12));
            assert!(f(xdd).abs() <= amax * (1.0 + 1e-12));
        }
    }
    let cruising = plan_scurve(s(10.0), s(1.5), s(2.0), s(4.0), &cbrt);
    assert!((f(cruising.vpeak) - 1.5).abs() < 1e-12);
}

#[test]
fn timed_moves_over_one_arrive() {
    for (vcap, acap) in [(0.5, 2.0), (100.0, 2.0), (1.0, 1.0), (0.013, 7.9), (3.7e3, 11.0)] {
        let b = BangBang::plan(s(1.0), s(vcap), s(acap));
        let (x, xd, _) = b.sample(b.total());
        assert!(f(x) <= 1.0 && 1.0 - f(x) < 1e-12, "{vcap} {acap}: {}", f(x));
        assert!(f(xd).abs() < 1e-10);
        assert!(f(b.t1) >= 0.0 && f(b.t2) >= 0.0 && f(b.t3) >= f(b.t2));
    }
    // A limit right where the cruise vanishes.
    let b = BangBang::plan(s(1.0), s(f64::from_bits(1.0f64.to_bits() - 1)), s(1.0));
    assert!(f(b.t2) >= 0.0);
    let (x, _, _) = b.sample(b.total());
    assert!(1.0 - f(x) < 1e-12);
}
