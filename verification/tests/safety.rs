use caliper::hal::safety::{
    SafetyBackend, SafetyCheck, SafetyConfig, SafetyError, SafetyMonitor, WatchdogAction,
};
use caliper::hal::{Error, JointState, RobotBackend};
use caliper::scalar::Scalar;

fn s(x: f64) -> Scalar {
    Scalar { bits: x.to_bits() }
}

fn v(xs: &[f64]) -> Vec<Scalar> {
    xs.iter().map(|x| s(*x)).collect()
}

fn f(x: Scalar) -> f64 {
    f64::from_bits(x.bits)
}

fn cfg2() -> SafetyConfig {
    SafetyConfig {
        pos: vec![Some((s(-1.0), s(1.0))), Some((s(-1.0), s(1.0)))],
        vmax: vec![Some(s(2.0)), Some(s(2.0))],
        effort: vec![None, None],
        watchdog_timeout: None,
        watchdog_action: WatchdogAction::Hold,
    }
}

#[test]
fn clamps_position() {
    let mut m = SafetyMonitor::new(cfg2(), &v(&[0.0, 0.0]));
    let (q, verdict) = m.gate(&v(&[5.0, -5.0]), s(1.0)); // dt=1 → vmax step = 2.0
    // clamp to ±1 then rate-limit to ±2 from 0 → ±1 wins
    assert_eq!(q, v(&[1.0, -1.0]));
    assert!(verdict.clamped_position);
    assert_eq!(m.warnings(), 1);
}

#[test]
fn rate_limits_velocity() {
    let mut m = SafetyMonitor::new(cfg2(), &v(&[0.0, 0.0]));
    let (q, verdict) = m.gate(&v(&[0.9, 0.9]), s(0.1)); // max step = 2.0*0.1 = 0.2
    assert!((f(q[0]) - 0.2).abs() < 1e-12 && (f(q[1]) - 0.2).abs() < 1e-12);
    assert!(verdict.limited_velocity && !verdict.clamped_position);
}

#[test]
fn estop_is_sticky_and_holds() {
    let mut m = SafetyMonitor::new(cfg2(), &v(&[0.3, -0.3]));
    m.estop();
    let (q, verdict) = m.gate(&v(&[0.5, 0.5]), s(0.1));
    assert_eq!(q, v(&[0.3, -0.3])); // held, no motion
    assert!(verdict.estopped);
    m.clear_estop();
    let (q2, _) = m.gate(&v(&[0.35, -0.3]), s(0.1));
    assert!((f(q2[0]) - 0.35).abs() < 1e-12);
}

#[test]
fn watchdog_trips_and_estops() {
    let cfg = cfg2().with_watchdog(s(0.05), WatchdogAction::EStop);
    let mut m = SafetyMonitor::new(cfg, &v(&[0.0, 0.0]));
    assert!(!m.tick_idle(s(0.03)).watchdog_tripped); // 0.03 < 0.05
    let verdict = m.tick_idle(s(0.03)); // total 0.06 > 0.05
    assert!(verdict.watchdog_tripped && verdict.estopped);
    assert!(m.is_estopped());
}

/// Accepts velocities and torques and keeps the last of them.
struct RecBackend {
    dof: usize,
    last_qd: Vec<Scalar>,
    last_tau: Vec<Scalar>,
    estopped: bool,
}

impl RobotBackend for RecBackend {
    fn dof(&self) -> usize {
        self.dof
    }
    fn joint_names(&self) -> Vec<String> {
        vec!["j".to_string(); self.dof]
    }
    fn estop(&mut self) -> Result<(), Error> {
        self.estopped = true;
        Ok(())
    }
    fn clear_estop(&mut self) -> Result<(), Error> {
        self.estopped = false;
        Ok(())
    }
    fn is_estopped(&self) -> bool {
        self.estopped
    }
    fn command_joint_positions(&mut self, _q: &[Scalar]) -> Result<(), Error> {
        Ok(())
    }
    fn command_joint_velocities(&mut self, qd: &[Scalar]) -> Result<(), Error> {
        self.last_qd = qd.to_vec();
        Ok(())
    }
    fn command_joint_torques(&mut self, tau: &[Scalar]) -> Result<(), Error> {
        self.last_tau = tau.to_vec();
        Ok(())
    }
    fn read_state(&mut self) -> Result<JointState, Error> {
        Ok(JointState { tick: 0, t: s(0.0), q: v(&vec![0.0; self.dof]), qd: None, tau: None })
    }
    fn joint_positions(&self) -> Vec<Scalar> {
        v(&vec![0.0; self.dof])
    }
}

/// Rejects targets whose first joint is beyond a bound.
struct Wall(f64);

impl SafetyCheck for Wall {
    fn check(&self, q: &[Scalar]) -> Result<(), String> {
        if f(q[0]) > self.0 {
            Err("wall".to_string())
        } else {
            Ok(())
        }
    }
}

fn rec(dof: usize) -> RecBackend {
    RecBackend { dof, last_qd: Vec::new(), last_tau: Vec::new(), estopped: false }
}

#[test]
fn safety_backend_gates_velocity_and_torque() {
    let mut b: SafetyBackend<RecBackend, Wall> =
        SafetyBackend::new(rec(2), SafetyMonitor::new(cfg2(), &v(&[0.0, 0.0])), s(0.1));
    // velocity clamped to vmax (cfg2 vmax = 2.0)
    b.command_joint_velocities(&v(&[5.0, -5.0])).unwrap();
    assert_eq!(b.inner().last_qd, v(&[2.0, -2.0]));
    // non-finite rejected before delegation
    assert!(matches!(
        b.command_joint_velocities(&v(&[f64::NAN, 0.0])),
        Err(Error::NonFinite { .. })
    ));
    assert!(matches!(
        b.command_joint_torques(&v(&[0.0, f64::INFINITY])),
        Err(Error::NonFinite { .. })
    ));
    // after e-stop, both non-position paths are refused
    b.estop().unwrap();
    assert!(matches!(b.command_joint_velocities(&v(&[0.1, 0.1])), Err(Error::EStopActive)));
    assert!(matches!(b.command_joint_torques(&v(&[0.1, 0.1])), Err(Error::EStopActive)));
}

#[test]
fn monitor_new_is_defensive() {
    // short, non-finite, out-of-limit q0 → anchored at dof length, sanitized & clamped
    let m = SafetyMonitor::new(cfg2(), &v(&[5.0, f64::NAN]));
    assert_eq!(m.last(), &v(&[1.0, 0.0])[..]); // 5.0 clamped to +1.0; NaN→0.0 (within ±1)
    // a command does not panic with mismatched-length vectors
    let mut cfg = cfg2();
    cfg.vmax = vec![Some(s(2.0))]; // shorter than pos (len 2)
    let mut m2 = SafetyMonitor::new(cfg, &v(&[0.0, 0.0]));
    let (_q, _v) = m2.gate(&v(&[0.1, 0.1]), s(0.1));
}

#[test]
fn effort_fault_estops() {
    let mut cfg = cfg2();
    cfg.effort = vec![Some(s(1e-4)); 2];
    let mut m = SafetyMonitor::new(cfg, &v(&[0.0, 0.0]));
    let err = m.check_effort(&v(&[0.6, 0.4])).unwrap_err();
    assert!(matches!(err, SafetyError::EffortFault { joint: 0, .. }));
    assert!(m.is_estopped());
    let shown = "too strong".to_string();
    assert_eq!(err.to_error(shown).to_string(), "backend error: too strong");
}

#[test]
fn a_check_rejects_a_target() {
    let mut b: SafetyBackend<RecBackend, Wall> =
        SafetyBackend::new(rec(2), SafetyMonitor::new(cfg2(), &v(&[0.0, 0.0])), s(1.0));
    b.add_check(Wall(0.5));
    b.command_joint_positions(&v(&[0.4, 0.0])).unwrap();
    let err = b.command_joint_positions(&v(&[0.8, 0.0])).unwrap_err();
    assert_eq!(err.to_string(), "collision: wall");
    assert!(!b.monitor().is_estopped());
}

#[test]
fn steps_stay_within_the_caps() {
    let mut m = SafetyMonitor::new(cfg2(), &v(&[0.0, 0.0]));
    let mut last = v(&[0.0, 0.0]);
    let mut seen = m.warnings();
    for k in 0..200 {
        let x = ((k * 37) % 100) as f64 / 10.0 - 5.0;
        let (q, _) = m.gate(&v(&[x, -x]), s(0.01));
        for i in 0..2 {
            assert!(f(q[i]).abs() <= 1.0);
            assert!((f(q[i]) - f(last[i])).abs() <= 0.02 + 1e-12);
        }
        assert!(m.warnings() >= seen);
        seen = m.warnings();
        last = q;
    }
}

#[test]
fn a_held_watchdog_never_stops() {
    let cfg = cfg2().with_watchdog(s(0.05), WatchdogAction::Hold);
    let mut m = SafetyMonitor::new(cfg, &v(&[0.2, 0.2]));
    for _ in 0..100 {
        m.tick_idle(s(0.03));
    }
    assert!(!m.is_estopped());
    assert_eq!(m.last(), &v(&[0.2, 0.2])[..]);
}

#[test]
fn bad_numbers_do_not_move() {
    let mut m = SafetyMonitor::new(cfg2(), &v(&[0.2, -0.2]));
    let (q, verdict) = m.gate(&v(&[f64::NAN, f64::INFINITY]), s(0.1));
    assert_eq!(q, v(&[0.2, -0.2]));
    assert!(verdict.ok());
}

/// Rejects targets whose second joint is below a bound.
struct Floor(f64);

impl SafetyCheck for Floor {
    fn check(&self, q: &[Scalar]) -> Result<(), String> {
        if f(q[1]) < self.0 {
            Err("floor".to_string())
        } else {
            Ok(())
        }
    }
}

#[test]
fn checks_of_several_kinds_stand_together() {
    let mut b: SafetyBackend<RecBackend, Box<dyn SafetyCheck>> =
        SafetyBackend::new(rec(2), SafetyMonitor::new(cfg2(), &v(&[0.0, 0.0])), s(1.0));
    b.add_check(Box::new(Wall(0.5)));
    b.add_check(Box::new(Floor(-0.5)));
    b.command_joint_positions(&v(&[0.4, -0.4])).unwrap();
    let err = b.command_joint_positions(&v(&[0.8, 0.0])).unwrap_err();
    assert_eq!(err.to_string(), "collision: wall");
    let err = b.command_joint_positions(&v(&[0.0, -0.8])).unwrap_err();
    assert_eq!(err.to_string(), "collision: floor");
}

#[test]
fn slowed_targets_stay_within_the_limits() {
    // an outside start is brought in first, and every slowed step stays in
    let mut m = SafetyMonitor::new(cfg2(), &v(&[7.0, -7.0]));
    assert_eq!(m.last(), &v(&[1.0, -1.0])[..]);
    for _ in 0..50 {
        let (q, verdict) = m.gate(&v(&[-9.0, 9.0]), s(0.003));
        assert!(verdict.limited_velocity || f(q[0]) == -1.0);
        assert!(f(q[0]).abs() <= 1.0 && f(q[1]).abs() <= 1.0);
        m.tick_idle(s(0.001));
        assert_eq!(m.last(), &q[..]);
    }
}
