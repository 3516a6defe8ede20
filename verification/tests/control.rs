use caliper::hal::control::{ControlLoop, Frame, FrameSink, FrameViewer, Gains, Pending, VecSink};
use caliper::hal::safety::{SafetyConfig, SafetyMonitor};
use caliper::hal::setpoint::{HoldSetpoint, Setpoint, Target, TrajectorySetpoint};
use caliper::hal::{ControlMode, Error, JointState, RobotBackend, SimBackend};
use caliper::model::urdf::{UrdfJoint, UrdfJointType, UrdfLink, UrdfRobot};
use caliper::model::Model;
use caliper::motion::limits::MotionLimits;
use caliper::motion::movej::move_j;
use caliper::scalar::{Scalar, Vec3};

fn s(x: f64) -> Scalar {
    Scalar { bits: x.to_bits() }
}

fn v(xs: &[f64]) -> Vec<Scalar> {
    xs.iter().map(|x| s(*x)).collect()
}

fn f(x: Scalar) -> f64 {
    f64::from_bits(x.bits)
}

/// A chain of turning joints with wide limits and 20 N·m of effort.
fn chain(n: usize) -> Model {
    let link = |i: usize| UrdfLink {
        name: format!("l{i}"),
        mass: s(0.0),
        collision: Vec::new(),
        visual: Vec::new(),
    };
    let joint = |i: usize| UrdfJoint {
        name: format!("j{i}"),
        joint_type: UrdfJointType::Revolute,
        parent: format!("l{i}"),
        child: format!("l{}", i + 1),
        axis: Vec3::new(s(0.0), s(1.0), s(0.0)),
        lower: s(-2.9),
        upper: s(2.9),
        velocity: s(3.0),
        effort: s(20.0),
        mimic: None,
    };
    Model::from_urdf(&UrdfRobot {
        name: "chain".to_string(),
        links: (0..=n).map(link).collect(),
        joints: (0..n).map(joint).collect(),
        materials: Vec::new(),
    })
    .unwrap()
}

/// What pulls the plant down.
fn pull(q: &[f64]) -> Vec<f64> {
    q.iter().map(|x| 4.0 * (x + 0.7).cos()).collect()
}

/// Unit masses under a pull that depends on the pose, driven by torques.
struct Plant {
    q: Vec<f64>,
    qd: Vec<f64>,
    tau: Vec<f64>,
}

impl Plant {
    fn at(q: &[f64]) -> Plant {
        Plant { q: q.to_vec(), qd: vec![0.0; q.len()], tau: vec![0.0; q.len()] }
    }
}

impl RobotBackend for Plant {
    fn dof(&self) -> usize {
        self.q.len()
    }
    fn mode(&self) -> ControlMode {
        ControlMode::Torque
    }
    fn command_joint_positions(&mut self, _q: &[Scalar]) -> Result<(), Error> {
        Err(Error::UnsupportedMode(ControlMode::Position))
    }
    fn command_joint_torques(&mut self, tau: &[Scalar]) -> Result<(), Error> {
        self.tau = tau.iter().map(|x| f(*x)).collect();
        Ok(())
    }
    fn read_state(&mut self) -> Result<JointState, Error> {
        Ok(JointState { tick: 0, t: s(0.0), q: v(&self.q), qd: Some(v(&self.qd)), tau: None })
    }
    fn joint_positions(&self) -> Vec<Scalar> {
        v(&self.q)
    }
    fn step(&mut self, dt: Scalar) -> Result<(), Error> {
        let g = pull(&self.q);
        for i in 0..self.q.len() {
            self.qd[i] += (self.tau[i] - g[i]) * f(dt);
            self.q[i] += self.qd[i] * f(dt);
        }
        Ok(())
    }
}

/// The dynamics of the plant: the wanted acceleration and what the pull takes.
fn dynamics(q: &[Scalar], _qd: &[Scalar], a: &[Scalar]) -> Result<Vec<Scalar>, Error> {
    let q: Vec<f64> = q.iter().map(|x| f(*x)).collect();
    let g = pull(&q);
    Ok(a.iter().zip(&g).map(|(x, y)| s(f(*x) + y)).collect())
}

fn no_dynamics(_q: &[Scalar], _qd: &[Scalar], _a: &[Scalar]) -> Result<Vec<Scalar>, Error> {
    Err(Error::Backend("none".to_string()))
}

fn fresh_loop() -> (ControlLoop<Plant>, HoldSetpoint) {
    let l = ControlLoop::new(Plant::at(&[0.5, -0.2]), &chain(2), s(1e-3)).unwrap();
    (l, HoldSetpoint::new(v(&[0.1, 0.0])))
}

fn bits_eq(a: &Frame, b: &Frame) -> bool {
    a.tick == b.tick
        && a.t == b.t
        && a.warn == b.warn
        && a.measured == b.measured
        && a.measured_qd == b.measured_qd
        && a.command == b.command
}

/// Keeps what it is shown, up to a number.
struct Keep {
    got: Vec<Frame>,
    most: usize,
}

impl FrameViewer for Keep {
    fn show(&mut self, fr: &Frame) -> bool {
        self.got.push(fr.copy());
        self.got.len() < self.most
    }
}

#[test]
fn converges_to_setpoint_under_gravity() {
    let mut loopy = ControlLoop::new(Plant::at(&[0.6, -0.4]), &chain(2), s(1e-3)).unwrap();
    let mut sp = HoldSetpoint::new(v(&[0.2, 0.1]));
    loopy.run_to(&mut sp, 6000, &dynamics).unwrap();
    let b = loopy.backend();
    let qe = ((b.q[0] - 0.2).powi(2) + (b.q[1] - 0.1).powi(2)).sqrt();
    let ve = (b.qd[0] * b.qd[0] + b.qd[1] * b.qd[1]).sqrt();
    assert!(qe < 1e-3, "position error {qe:e}");
    assert!(ve < 1e-3, "velocity error {ve:e}");
}

/// The same, with the pull taken for a push.
fn upside_down(q: &[Scalar], _qd: &[Scalar], a: &[Scalar]) -> Result<Vec<Scalar>, Error> {
    let q: Vec<f64> = q.iter().map(|x| f(*x)).collect();
    let g = pull(&q);
    Ok(a.iter().zip(&g).map(|(x, y)| s(f(*x) - y)).collect())
}

#[test]
fn gravity_ff_sign_matters() {
    let mut loopy = ControlLoop::new(Plant::at(&[0.2, 0.1]), &chain(2), s(1e-3)).unwrap();
    let mut sp = HoldSetpoint::new(v(&[0.2, 0.1]));
    loopy.run_to(&mut sp, 2000, &upside_down).unwrap();
    let b = loopy.backend();
    let err = ((b.q[0] - 0.2).powi(2) + (b.q[1] - 0.1).powi(2)).sqrt();
    assert!(err > 1e-2, "{err:e}");
}

#[test]
fn tracks_trajectory_on_kinematic_backend() {
    let m = chain(6);
    let q0 = v(&[0.0; 6]);
    let q1 = v(&[0.4, -0.3, 0.5, 0.2, -0.4, 0.1]);
    let lim = MotionLimits { vmax: v(&[1.0; 6]), amax: v(&[2.0; 6]), jmax: v(&[8.0; 6]) };
    let cbrt = |x: Scalar| s(f(x).cbrt());
    let traj = move_j(&m, &q0, &q1, &lim, &cbrt).unwrap();
    let same = move_j(&m, &q0, &q1, &lim, &cbrt).unwrap();
    let dur = f(traj.duration());
    let backend = SimBackend::new(6).with_positions(&q0).unwrap();
    let mut loopy = ControlLoop::new(backend, &m, s(1e-3)).unwrap();
    let mut sp = TrajectorySetpoint::new(traj);
    let n = (dur / f(loopy.dt())).ceil() as usize + 100;
    let mut worst = 0.0f64;
    for _ in 0..n {
        let fr = loopy.step(&mut sp, None::<&mut VecSink>, &no_dynamics).unwrap();
        let want = same.q_at(fr.t);
        let got = loopy.backend().joint_positions();
        for i in 0..6 {
            worst = worst.max((f(got[i]) - f(want[i])).abs());
        }
    }
    assert!(worst < 5e-3, "tracking error {worst:e}");
    // settled at the goal
    let end = loopy.backend().joint_positions();
    for i in 0..6 {
        assert!((f(end[i]) - f(q1[i])).abs() < 1e-6, "joint {i} not settled");
    }
}

#[test]
fn deterministic_bitwise() {
    let run = || {
        let (mut l, mut sp) = fresh_loop();
        l.run_record(&mut sp, 500, &dynamics).unwrap()
    };
    let a = run();
    let b = run();
    assert_eq!(a.len(), b.len());
    for (fa, fb) in a.iter().zip(b.iter()) {
        assert!(bits_eq(fa, fb));
    }
}

#[test]
fn torque_saturates_to_effort_cap() {
    let m = chain(2);
    let mut cfg = SafetyConfig::from_model(&m);
    cfg.effort = vec![Some(s(0.05)), Some(s(0.05))]; // far below what the pull takes
    let hold = [0.4, 0.3];
    let monitor = SafetyMonitor::new(cfg, &v(&hold));
    let mut loopy =
        ControlLoop::new(Plant::at(&hold), &m, s(1e-3)).unwrap().with_monitor(monitor);
    let mut sp = HoldSetpoint::new(v(&hold));
    loopy.run_to(&mut sp, 1500, &dynamics).unwrap();
    let q = &loopy.backend().q;
    let moved = (q[0] - hold[0]).abs().max((q[1] - hold[1]).abs());
    assert!(moved > 0.05, "effort-starved arm should sag, moved={moved:e}");
    assert!(loopy.backend().tau.iter().all(|t| t.abs() <= 0.05));
    // with the real (20 N·m) caps it holds instead
    let mut l2 = ControlLoop::new(Plant::at(&hold), &m, s(1e-3)).unwrap();
    l2.run_to(&mut HoldSetpoint::new(v(&hold)), 1500, &dynamics).unwrap();
    let q = &l2.backend().q;
    assert!((q[0] - hold[0]).abs().max((q[1] - hold[1]).abs()) < 1e-2);
}

#[test]
fn stream_matches_record_bitwise() {
    const N: usize = 500;
    let (mut l_rec, mut sp_rec) = fresh_loop();
    let recorded = l_rec.run_record(&mut sp_rec, N, &dynamics).unwrap();
    let (mut l_str, mut sp_str) = fresh_loop();
    let mut keep = Keep { got: Vec::new(), most: usize::MAX };
    let executed = l_str.run_stream(&mut sp_str, N, &mut keep, &dynamics).unwrap();
    assert_eq!(executed, N, "full run executes every tick");
    assert_eq!(keep.got.len(), recorded.len(), "same frame count");
    for (i, (a, b)) in keep.got.iter().zip(recorded.iter()).enumerate() {
        assert!(bits_eq(a, b), "frame {i} differs between stream and record");
    }
    for (i, fr) in keep.got.iter().enumerate() {
        assert_eq!(fr.tick, i as u64);
    }
}

#[test]
fn early_stop_returns_right_prefix() {
    const N: usize = 300;
    const K: usize = 37;
    let (mut l_rec, mut sp_rec) = fresh_loop();
    let recorded = l_rec.run_record(&mut sp_rec, N, &dynamics).unwrap();
    let (mut l_str, mut sp_str) = fresh_loop();
    let mut keep = Keep { got: Vec::new(), most: K };
    let executed = l_str.run_stream(&mut sp_str, N, &mut keep, &dynamics).unwrap();
    assert_eq!(executed, K, "executed exactly K ticks before cancel");
    assert_eq!(keep.got.len(), K, "collected exactly the K-frame prefix");
    for (i, (a, b)) in keep.got.iter().zip(recorded.iter()).enumerate() {
        assert!(bits_eq(a, b), "prefix frame {i} differs from record");
    }
}

#[test]
fn decimation_emits_right_count_and_subsample() {
    const N: usize = 200;
    const M: usize = 7;
    let (mut l_rec, mut sp_rec) = fresh_loop();
    let recorded = l_rec.run_record(&mut sp_rec, N, &dynamics).unwrap();
    let (mut l_str, mut sp_str) = fresh_loop();
    let mut keep = Keep { got: Vec::new(), most: usize::MAX };
    l_str.run_stream_every(&mut sp_str, N, M, &mut keep, &dynamics).unwrap();
    assert_eq!(keep.got.len(), N.div_ceil(M), "decimated count = ceil(N/M)");
    for (k, fr) in keep.got.iter().enumerate() {
        let src = k * M;
        assert_eq!(fr.tick, src as u64, "emitted frame {k} is tick {src}");
        assert!(bits_eq(fr, &recorded[src]), "decimated frame {k} != record[{src}]");
    }
}

#[test]
fn emit_every_zero_is_rejected() {
    let (mut l, mut sp) = fresh_loop();
    let mut keep = Keep { got: Vec::new(), most: usize::MAX };
    let r = l.run_stream_every(&mut sp, 10, 0, &mut keep, &dynamics);
    assert!(matches!(r, Err(Error::Backend(_))), "emit_every=0 must error");
}

#[test]
fn zero_ticks_emits_nothing() {
    let (mut l, mut sp) = fresh_loop();
    let mut keep = Keep { got: Vec::new(), most: usize::MAX };
    let executed = l.run_stream(&mut sp, 0, &mut keep, &dynamics).unwrap();
    assert_eq!(executed, 0);
    assert_eq!(keep.got.len(), 0, "no ticks → no emissions");
}

#[test]
fn bad_periods_are_refused() {
    for dt in [0.0, -1.0, f64::NAN, f64::INFINITY] {
        let r = ControlLoop::new(SimBackend::new(2), &chain(2), s(dt));
        assert!(r.is_err());
    }
    match ControlLoop::new(SimBackend::new(2), &chain(2), s(-0.5)) {
        Err(e) => assert_eq!(e.to_string(), "backend error: control dt must be > 0, got -0.5"),
        Ok(_) => panic!("a negative period was taken"),
    }
}

#[test]
fn a_stopped_loop_holds() {
    let mut l = ControlLoop::new(SimBackend::new(2), &chain(2), s(1e-2)).unwrap();
    let mut sp = HoldSetpoint::new(v(&[0.01, 0.01]));
    l.step(&mut sp, None::<&mut VecSink>, &no_dynamics).unwrap();
    l.estop().unwrap();
    assert!(l.monitor().is_estopped());
    assert!(matches!(l.step(&mut sp, None::<&mut VecSink>, &no_dynamics), Err(Error::EStopActive)));
    assert_eq!(l.tick(), 1);
}

#[test]
fn a_loop_without_dynamics_has_no_torques() {
    let (mut l, mut sp) = fresh_loop();
    let err = l.step(&mut sp, None::<&mut VecSink>, &no_dynamics).unwrap_err();
    assert_eq!(err.to_string(), "backend error: none");
    assert_eq!(l.tick(), 0);
}

/// Gives nothing.
struct Silent;

impl Setpoint for Silent {
    fn target(&mut self, _tick: u64, _t: Scalar) -> Option<Target> {
        None
    }
    fn dof(&self) -> usize {
        2
    }
}

#[test]
fn silence_holds_the_last_command() {
    let b = SimBackend::new(2).with_positions(&v(&[0.3, -0.3])).unwrap();
    let mut l = ControlLoop::new(b, &chain(2), s(1e-2)).unwrap();
    let fr = l.step(&mut Silent, None::<&mut VecSink>, &no_dynamics).unwrap();
    assert_eq!(fr.command, v(&[0.3, -0.3]));
    assert_eq!(l.backend().joint_positions(), v(&[0.3, -0.3]));
}

#[test]
fn computed_torque_by_hand() {
    let l = ControlLoop::new(Plant::at(&[0.5]), &chain(1), s(1e-3)).unwrap();
    let g = Gains::default();
    assert_eq!((g.kp, g.kd), (s(100.0), s(20.0)));
    let l = l.with_gains(Gains { kp: s(10.0), kd: s(2.0) });
    // the reference moves by at most 3.0 * 1e-3 from 0.5
    let p = Pending {
        t: s(0.0),
        q: v(&[0.5]),
        qd: v(&[0.0]),
        target_q: v(&[0.5 - 3.0 * 1e-3]),
        target_qd: v(&[0.0]),
        target_qdd: v(&[0.0]),
        warn: true,
        mode: ControlMode::Torque,
    };
    let want = 10.0 * ((0.5 - 3.0 * 1e-3) - 0.5) + 2.0 * (0.0 - 0.0);
    assert!((f(l.accelerations(&p)[0]) - want).abs() < 1e-12);
    let cmd = l.compute_command(&p, &dynamics).unwrap();
    assert!((f(cmd[0]) - (want + pull(&[0.5])[0])).abs() < 1e-12);
}

/// Counts what is pushed.
struct Tally(Vec<u64>);

impl FrameSink for Tally {
    fn push(&mut self, f: &Frame) {
        self.0.push(f.tick);
    }
}

#[test]
fn a_sink_gets_every_good_tick_once() {
    let mut l = ControlLoop::new(SimBackend::new(2), &chain(2), s(1e-2)).unwrap();
    let mut sp = HoldSetpoint::new(v(&[0.01, 0.01]));
    let mut tally = Tally(Vec::new());
    for _ in 0..3 {
        l.step(&mut sp, Some(&mut tally), &no_dynamics).unwrap();
    }
    l.estop().unwrap();
    assert!(l.step(&mut sp, Some(&mut tally), &no_dynamics).is_err());
    assert_eq!(tally.0, vec![0, 1, 2]);
}

/// Notes what it is told.
struct Listener {
    mode: ControlMode,
    told: Vec<(&'static str, Vec<Scalar>)>,
}

impl RobotBackend for Listener {
    fn dof(&self) -> usize {
        1
    }
    fn mode(&self) -> ControlMode {
        self.mode
    }
    fn command_joint_positions(&mut self, q: &[Scalar]) -> Result<(), Error> {
        self.told.push(("positions", q.to_vec()));
        Ok(())
    }
    fn command_joint_velocities(&mut self, qd: &[Scalar]) -> Result<(), Error> {
        self.told.push(("velocities", qd.to_vec()));
        Ok(())
    }
    fn command_joint_torques(&mut self, tau: &[Scalar]) -> Result<(), Error> {
        self.told.push(("torques", tau.to_vec()));
        Ok(())
    }
    fn read_state(&mut self) -> Result<JointState, Error> {
        Ok(JointState { tick: 0, t: s(0.0), q: v(&[0.0]), qd: None, tau: None })
    }
    fn joint_positions(&self) -> Vec<Scalar> {
        v(&[0.0])
    }
    fn step(&mut self, dt: Scalar) -> Result<(), Error> {
        self.told.push(("step", vec![dt]));
        Ok(())
    }
}

#[test]
fn the_command_of_the_mode_is_sent() {
    let weightless = |_: &[Scalar], _: &[Scalar], a: &[Scalar]| Ok(a.to_vec());
    let told = |mode: ControlMode| {
        let b = Listener { mode, told: Vec::new() };
        let mut l = ControlLoop::new(b, &chain(1), s(0.5)).unwrap();
        let mut sp = HoldSetpoint::new(v(&[0.01]));
        l.step(&mut sp, None::<&mut VecSink>, &weightless).unwrap();
        l.backend().told.iter().map(|(n, x)| (*n, f(x[0]))).collect::<Vec<_>>()
    };
    assert_eq!(told(ControlMode::Position), vec![("positions", 0.01)]);
    assert_eq!(told(ControlMode::Velocity), vec![("velocities", 1.0)]);
    assert_eq!(told(ControlMode::Torque), vec![("torques", 1.0), ("step", 0.5)]);
}
