use caliper::hal::setpoint::{HoldSetpoint, Setpoint, TeleopSetpoint, TrajectorySetpoint};
use caliper::hal::teleop::{JogSource, JointMap, LeaderFollowerSource, ScriptedSource};
use caliper::hal::{RobotBackend, SimBackend};
use caliper::motion::retime::retime_time_optimal;
use caliper::motion::limits::MotionLimits;
use caliper::scalar::Scalar;

fn s(x: f64) -> Scalar {
    Scalar { bits: x.to_bits() }
}

fn v(xs: &[f64]) -> Vec<Scalar> {
    xs.iter().map(|x| s(*x)).collect()
}

fn f(x: Scalar) -> f64 {
    f64::from_bits(x.bits)
}

#[test]
fn hold_is_constant() {
    let mut sp = HoldSetpoint::new(v(&[0.1, 0.2]));
    assert_eq!(sp.target(0, s(0.0)).unwrap().q, v(&[0.1, 0.2]));
    assert_eq!(sp.target(99, s(9.9)).unwrap().q, v(&[0.1, 0.2]));
}

#[test]
fn teleop_reflects_latest_set() {
    let mut sp = TeleopSetpoint::new(v(&[0.0, 0.0]));
    assert_eq!(sp.target(0, s(0.0)).unwrap().q, v(&[0.0, 0.0]));
    sp.set(v(&[0.5, -0.5]));
    assert_eq!(sp.target(1, s(0.01)).unwrap().q, v(&[0.5, -0.5]));
}

#[test]
fn teleop_goes_stale_without_refresh() {
    let mut sp = TeleopSetpoint::new(v(&[0.0])).with_tick_budget(3);
    assert!(sp.target(0, s(0.0)).is_some());
    assert!(sp.target(3, s(0.0)).is_some()); // diff == budget: still fresh
    assert!(sp.target(4, s(0.0)).is_none()); // diff > budget: stale → watchdog
    // a refresh revives it, then it can go stale again
    sp.set(v(&[0.1]));
    assert!(sp.target(5, s(0.0)).is_some());
    assert!(sp.target(9, s(0.0)).is_none());
}

#[test]
fn joint_map_affine() {
    let m = JointMap { perm: vec![1, 0], scale: v(&[2.0, -1.0]), offset: v(&[0.1, 0.0]) };
    assert_eq!(m.apply(&v(&[0.3, 0.5])), v(&[2.0 * 0.5 + 0.1, -0.3]));
}

#[test]
fn leader_follower_mirrors_leader() {
    let mut leader = SimBackend::new(2);
    leader.command_joint_positions(&v(&[0.4, -0.2])).unwrap();
    let mut src = LeaderFollowerSource::new(leader, JointMap::identity(2));
    let t = src.target(0, s(0.0)).unwrap();
    assert_eq!(t.q, v(&[0.4, -0.2]));
}

#[test]
fn scripted_steps_and_wraps() {
    let mut sp = ScriptedSource::new(vec![v(&[0.0]), v(&[1.0])], 2, true);
    assert_eq!(sp.target(0, s(0.0)).unwrap().q, v(&[0.0]));
    assert_eq!(sp.target(1, s(0.0)).unwrap().q, v(&[0.0]));
    assert_eq!(sp.target(2, s(0.0)).unwrap().q, v(&[1.0]));
    assert_eq!(sp.target(4, s(0.0)).unwrap().q, v(&[0.0])); // wrapped
}

#[test]
fn jog_integrates_velocity() {
    let mut src = JogSource::new(v(&[0.0, 0.0]), s(0.1));
    src.set(v(&[1.0, -2.0]));
    let t1 = src.target(0, s(0.0)).unwrap();
    assert!((f(t1.q[0]) - 0.1).abs() < 1e-12 && (f(t1.q[1]) + 0.2).abs() < 1e-12);
    let t2 = src.target(1, s(0.1)).unwrap();
    assert!((f(t2.q[0]) - 0.2).abs() < 1e-12 && (f(t2.q[1]) + 0.4).abs() < 1e-12);
}

#[test]
fn a_map_that_does_not_fit_gives_no_target() {
    let leader = SimBackend::new(1);
    let mut src = LeaderFollowerSource::new(leader, JointMap::identity(2));
    assert!(src.target(0, s(0.0)).is_none());
}

#[test]
fn a_script_that_does_not_wrap_holds_its_last_pose() {
    let mut sp = ScriptedSource::new(vec![v(&[0.0]), v(&[1.0])], 2, false);
    assert_eq!(sp.target(100, s(0.0)).unwrap().q, v(&[1.0]));
    assert!(ScriptedSource::new(Vec::new(), 2, true).target(0, s(0.0)).is_none());
}

#[test]
fn a_trajectory_is_followed_and_then_held_or_not() {
    let lim = MotionLimits { vmax: v(&[1.0]), amax: v(&[2.0]), jmax: v(&[10.0]) };
    let path = vec![v(&[0.0]), v(&[1.0])];
    let traj = retime_time_optimal(&path, &lim, s(1e-3)).unwrap();
    let end = traj.duration();
    let mut sp = TrajectorySetpoint::new(traj);
    assert_eq!(sp.duration(), end);
    assert_eq!(sp.dof(), 1);
    assert!((f(sp.target(0, s(0.0)).unwrap().q[0])).abs() < 1e-9);
    assert!((f(sp.target(9, s(1e3)).unwrap().q[0]) - 1.0).abs() < 1e-6);
    let mut sp = sp.no_hold();
    assert!(sp.target(9, s(1e3)).is_none());
    assert!(sp.target(9, end).is_some());
}
