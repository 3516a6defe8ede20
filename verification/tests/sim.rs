use caliper::hal::{ControlMode, Error, RobotBackend, SimBackend};
use caliper::scalar::Scalar;

fn s(x: f64) -> Scalar {
    Scalar { bits: x.to_bits() }
}

fn v(xs: &[f64]) -> Vec<Scalar> {
    xs.iter().map(|x| s(*x)).collect()
}

#[test]
fn commands_and_holds() {
    let mut b = SimBackend::new(3);
    b.command_joint_positions(&v(&[0.1, 0.2, 0.3])).unwrap();
    assert_eq!(b.joint_positions(), v(&[0.1, 0.2, 0.3]));
    let st = b.read_state().unwrap();
    assert_eq!(st.q, v(&[0.1, 0.2, 0.3]));
    assert_eq!(st.qd, Some(v(&[0.0; 3])));
}

#[test]
fn sim_rejects_bad_input() {
    let mut b = SimBackend::new(2);
    assert!(matches!(b.command_joint_positions(&v(&[0.0])), Err(Error::DofMismatch { .. })));
    assert!(matches!(
        b.command_joint_positions(&v(&[0.0, f64::NAN])),
        Err(Error::NonFinite { .. })
    ));
}

#[test]
fn unsupported_modes() {
    let mut b = SimBackend::new(2);
    assert!(matches!(
        b.command_joint_velocities(&v(&[0.0, 0.0])),
        Err(Error::UnsupportedMode(ControlMode::Velocity))
    ));
    assert!(matches!(
        b.command_joint_torques(&v(&[0.0, 0.0])),
        Err(Error::UnsupportedMode(ControlMode::Torque))
    ));
    assert!(matches!(
        b.set_mode(ControlMode::Torque),
        Err(Error::UnsupportedMode(ControlMode::Torque))
    ));
}

#[test]
fn estop_latches_and_blocks() {
    let mut b = SimBackend::new(1);
    b.estop().unwrap();
    assert!(b.is_estopped() && !b.is_enabled());
    assert!(matches!(b.command_joint_positions(&v(&[0.5])), Err(Error::EStopActive)));
    assert!(matches!(b.enable(), Err(Error::EStopActive)));
    b.clear_estop().unwrap();
    b.enable().unwrap();
    b.command_joint_positions(&v(&[0.5])).unwrap();
    assert_eq!(b.joint_positions(), v(&[0.5]));
}

#[test]
fn disabled_rejects() {
    let mut b = SimBackend::new(1);
    b.disable().unwrap();
    assert!(matches!(b.command_joint_positions(&v(&[0.1])), Err(Error::NotEnabled)));
}

#[test]
fn object_safe_and_send() {
    fn assert_send<T: Send>() {}
    assert_send::<Box<dyn RobotBackend>>();
    let _b: Box<dyn RobotBackend> = Box::new(SimBackend::new(2));
}

#[test]
fn errors_are_told_in_words() {
    assert_eq!(
        Error::DofMismatch { expected: 2, got: 3 }.to_string(),
        "expected 2 joints, got 3"
    );
    assert_eq!(Error::NonFinite { what: "q" }.to_string(), "non-finite value in q");
    assert_eq!(Error::NotEnabled.to_string(), "backend not enabled");
    assert_eq!(Error::EStopActive.to_string(), "emergency stop active");
    assert_eq!(
        Error::UnsupportedMode(ControlMode::Torque).to_string(),
        "control mode Torque not supported by this backend"
    );
    assert_eq!(
        Error::JointLimit { joint: 1, value: s(2.5), lo: s(-1.0), hi: s(1e-7) }.to_string(),
        "joint 1 value 2.5 outside limit [-1, 0.0000001]"
    );
    assert_eq!(Error::Timeout.to_string(), "timeout");
    assert_eq!(Error::Backend("x".to_string()).to_string(), "backend error: x");
}

#[test]
fn starts_from_a_given_pose() {
    let b = SimBackend::new(2).with_positions(&v(&[0.5, -0.5])).unwrap();
    assert_eq!(b.joint_positions(), v(&[0.5, -0.5]));
    assert!(matches!(
        SimBackend::new(2).with_positions(&v(&[0.5])),
        Err(Error::DofMismatch { expected: 2, got: 1 })
    ));
    assert!(matches!(
        SimBackend::new(1).with_positions(&v(&[f64::INFINITY])),
        Err(Error::NonFinite { .. })
    ));
}
