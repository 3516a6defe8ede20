use caliper::hal::physics::PhysicsGuard;
use caliper::hal::{ControlMode, Error};
use caliper::scalar::Scalar;

fn s(x: f64) -> Scalar {
    Scalar { bits: x.to_bits() }
}

fn v(xs: &[f64]) -> Vec<Scalar> {
    xs.iter().map(|x| s(*x)).collect()
}

#[test]
fn torque_blocked_until_enabled_and_mode() {
    let mut b = PhysicsGuard::new(2);
    assert!(matches!(b.check_torques(&v(&[0.0, 0.0])), Err(Error::NotEnabled)));
    b.enable().unwrap();
    b.check_torques(&v(&[0.0, 0.0])).unwrap();
    // Position teleport requires Position mode.
    assert!(matches!(
        b.check_positions(&v(&[0.1, 0.1])),
        Err(Error::UnsupportedMode(ControlMode::Position))
    ));
    b.set_mode(ControlMode::Position).unwrap();
    b.check_positions(&v(&[0.1, 0.1])).unwrap();
}

#[test]
fn estop_zeros_and_blocks() {
    let mut b = PhysicsGuard::new(2);
    b.enable().unwrap();
    b.estop();
    assert!(b.estopped && !b.enabled);
    assert!(matches!(b.check_torques(&v(&[1.0, 1.0])), Err(Error::EStopActive)));
    assert!(matches!(b.enable(), Err(Error::EStopActive)));
    b.clear_estop();
    assert!(b.enable().is_ok());
}

#[test]
fn guard_checks_lengths_and_numbers_first() {
    let b = PhysicsGuard::new(2);
    assert!(matches!(b.check_torques(&v(&[0.0])), Err(Error::DofMismatch { .. })));
    assert!(matches!(
        b.check_positions(&v(&[0.0, f64::NAN])),
        Err(Error::NonFinite { what: "q" })
    ));
    assert!(matches!(
        b.check_state(&v(&[0.0, 0.0]), &v(&[0.0, f64::INFINITY])),
        Err(Error::NonFinite { what: "qd" })
    ));
    assert!(matches!(
        b.check_state(&v(&[0.0, 0.0]), &v(&[0.0])),
        Err(Error::DofMismatch { expected: 2, got: 1 })
    ));
    assert!(b.check_state(&v(&[0.0, 0.0]), &v(&[0.0, 1.0])).is_ok());
    let mut b = b;
    assert!(matches!(
        b.set_mode(ControlMode::Velocity),
        Err(Error::UnsupportedMode(ControlMode::Velocity))
    ));
    assert_eq!(PhysicsGuard::substep(s(1e-3), s(1e-4)), s(1e-4));
    assert_eq!(PhysicsGuard::substep(s(1e-3), s(-1.0)), s(1e-3));
    assert_eq!(PhysicsGuard::substep(s(1e-3), s(f64::NAN)), s(1e-3));
}
