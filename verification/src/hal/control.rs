//! The control loop, without a clock: `t` is the tick times the period.
//!
//! A tick reads the state, resolves a target through the safety monitor, computes a
//! command for the mode of the backend, and sends it. In torque mode a model of the
//! robot's dynamics, handed in, turns the wanted acceleration into torques.

use vstd::prelude::*;

use crate::hal::backend::{copy_scalars, zeros, ControlMode, RobotBackend};
#[allow(unused_imports)]
use crate::hal::backend::{opt_seq, zero_seq, JointState};
use crate::hal::error::{backend_error, Error};
#[allow(unused_imports)]
use crate::hal::error::ErrorV;
use crate::hal::safety::{SafetyConfig, SafetyMonitor};
#[allow(unused_imports)]
use crate::hal::safety::{
    anchored, clean, gated, idled, limits_ordered, ConfigV, MonitorV, WatchdogAction,
};
use crate::hal::setpoint::{Setpoint, Target};
#[allow(unused_imports)]
use crate::hal::setpoint::TargetV;
use crate::model::Model;
#[allow(unused_imports)]
use crate::scalar::convert::{fclamp, from_int};
#[allow(unused_imports)]
use crate::scalar::number::{fabs, fadd, flt, fmul, fneg, fsub};
use crate::scalar::show::show_number;
#[allow(unused_imports)]
use crate::scalar::show::shown;
use crate::scalar::Scalar;
use crate::text::{chars_of, push_text, string_of};

verus! {

/// Bits of `100.0` and `20.0`.
pub const KP_BITS: u64 = 0x4059_0000_0000_0000;

pub const KD_BITS: u64 = 0x4034_0000_0000_0000;

/// Gains of the velocity and torque commands.
#[derive(Clone, Copy, Debug, PartialEq, Eq, Structural)]
pub struct Gains {
    pub kp: Scalar,
    pub kd: Scalar,
}

pub open spec fn default_gains() -> Gains {
    Gains { kp: Scalar { bits: KP_BITS }, kd: Scalar { bits: KD_BITS } }
}

impl Default for Gains {
    /// Critically damped at ten radians per second.
    fn default() -> (r: Gains)
        ensures
            r == default_gains(),
    {
        Gains { kp: Scalar { bits: KP_BITS }, kd: Scalar { bits: KD_BITS } }
    }
}

/// One recorded tick: the state before the command, and the target that was sent.
#[derive(Debug)]
pub struct Frame {
    pub tick: u64,
    pub t: Scalar,
    pub measured: Vec<Scalar>,
    pub measured_qd: Vec<Scalar>,
    pub command: Vec<Scalar>,
    pub warn: bool,
}

/// `Frame` over sequences.
pub struct FrameV {
    pub tick: nat,
    pub t: Scalar,
    pub measured: Seq<Scalar>,
    pub measured_qd: Seq<Scalar>,
    pub command: Seq<Scalar>,
    pub warn: bool,
}

impl View for Frame {
    type V = FrameV;

    open spec fn view(&self) -> FrameV {
        FrameV {
            tick: self.tick as nat,
            t: self.t,
            measured: self.measured@,
            measured_qd: self.measured_qd@,
            command: self.command@,
            warn: self.warn,
        }
    }
}

impl Frame {
    /// The same frame again.
    pub fn copy(&self) -> (r: Frame)
        ensures
            r@ == self@,
    {
        Frame {
            tick: self.tick,
            t: self.t,
            measured: copy_scalars(self.measured.as_slice()),
            measured_qd: copy_scalars(self.measured_qd.as_slice()),
            command: copy_scalars(self.command.as_slice()),
            warn: self.warn,
        }
    }
}

/// Takes recorded frames.
pub trait FrameSink {
    fn push(&mut self, f: &Frame);
}

/// Keeps frames in memory.
pub struct VecSink {
    pub frames: Vec<Frame>,
}

impl Default for VecSink {
    fn default() -> (r: VecSink)
        ensures
            r.frames@.len() == 0,
    {
        VecSink { frames: Vec::new() }
    }
}

impl FrameSink for VecSink {
    fn push(&mut self, f: &Frame)
        ensures
            final(self).frames@.len() == old(self).frames@.len() + 1,
            final(self).frames@.drop_last() == old(self).frames@,
            final(self).frames@.last()@ == f@,
    {
        let ghost before = self.frames@;
        self.frames.push(f.copy());
        assert(self.frames@.drop_last() =~= before);
    }
}

/// A target that passed the monitor.
pub struct ResolvedV {
    pub q: Seq<Scalar>,
    pub qd: Seq<Scalar>,
    pub qdd: Seq<Scalar>,
    pub warn: bool,
}

pub open spec fn sized(s: Seq<Scalar>, n: nat) -> Seq<Scalar> {
    if s.len() == n {
        s
    } else {
        zero_seq(n)
    }
}

/// What a tick aims at: the target as the monitor lets it through, or the last command held by the
/// watchdog; and the monitor afterwards.
pub open spec fn resolved(m: MonitorV, target: Option<TargetV>, n: nat, dt: Scalar) -> (
    ResolvedV,
    MonitorV,
) {
    match target {
        Some(t) => {
            let (q, v, after) = gated(m, t.q, dt);
            (
                ResolvedV { q, qd: sized(t.qd, n), qdd: sized(t.qdd, n), warn: v != clean() },
                after,
            )
        },
        None => {
            let (v, after) = idled(m, dt);
            (
                ResolvedV { q: after.prev, qd: zero_seq(n), qdd: zero_seq(n), warn: v != clean() },
                after,
            )
        },
    }
}

/// A number moved into a cap. A cap that is not a number limits nothing.
pub open spec fn cap_to(x: Scalar, lim: Option<Scalar>) -> Scalar {
    match lim {
        Some(c) => if c.nan() {
            x
        } else {
            fclamp(x, fneg(fabs(c)), fabs(c))
        },
        None => x,
    }
}

pub open spec fn or_zero(s: Seq<Scalar>, i: int) -> Scalar {
    if 0 <= i < s.len() {
        s[i]
    } else {
        Scalar { bits: 0 }
    }
}

/// The velocity command: the wanted velocity, and back to the wanted pose.
pub open spec fn velocity_command(
    r: ResolvedV,
    q: Seq<Scalar>,
    g: Gains,
    cfg: ConfigV,
    n: nat,
) -> Seq<Scalar> {
    Seq::new(
        n,
        |i: int|
            cap_to(
                fadd(or_zero(r.qd, i), fmul(g.kp, fsub(r.q[i], q[i]))),
                cfg.vmax[i],
            ),
    )
}

/// The wanted acceleration of a computed torque.
pub open spec fn acceleration(
    r: ResolvedV,
    q: Seq<Scalar>,
    qd: Seq<Scalar>,
    g: Gains,
    n: nat,
) -> Seq<Scalar> {
    Seq::new(
        n,
        |i: int|
            fadd(
                fadd(or_zero(r.qdd, i), fmul(g.kp, fsub(r.q[i], q[i]))),
                fmul(g.kd, fsub(or_zero(r.qd, i), qd[i])),
            ),
    )
}

/// Torques moved into the effort caps.
pub open spec fn torque_command(tau: Seq<Scalar>, cfg: ConfigV, n: nat) -> Seq<Scalar> {
    Seq::new(n, |i: int| cap_to(tau[i], cfg.effort[i]))
}

fn capped_to(x: Scalar, lim: Option<Scalar>) -> (r: Scalar)
    ensures
        r == cap_to(x, lim),
{
    match lim {
        Some(c) => {
            if c.is_nan() {
                x
            } else {
                let hi = c.abs();
                let lo = hi.neg();
                x.clamp(lo, hi)
            }
        },
        None => x,
    }
}

fn entry(s: &Vec<Scalar>, i: usize) -> (r: Scalar)
    ensures
        r == or_zero(s@, i as int),
{
    if i < s.len() {
        s[i]
    } else {
        Scalar { bits: 0 }
    }
}

fn sized_vec(s: Vec<Scalar>, n: usize) -> (r: Vec<Scalar>)
    ensures
        r@ == sized(s@, n as nat),
{
    if s.len() == n {
        s
    } else {
        zeros(n)
    }
}

/// A tick that has read its state and knows what it aims at.
pub struct Pending {
    pub t: Scalar,
    pub q: Vec<Scalar>,
    pub qd: Vec<Scalar>,
    pub target_q: Vec<Scalar>,
    pub target_qd: Vec<Scalar>,
    pub target_qdd: Vec<Scalar>,
    pub warn: bool,
    pub mode: ControlMode,
}

impl Pending {
    pub open spec fn aim(&self) -> ResolvedV {
        ResolvedV {
            q: self.target_q@,
            qd: self.target_qd@,
            qdd: self.target_qdd@,
            warn: self.warn,
        }
    }
}

/// Resolves the target of a tick through the monitor.
pub fn resolve(m: &mut SafetyMonitor, target: Option<Target>, n: usize, dt: Scalar) -> (r: (
    Vec<Scalar>,
    Vec<Scalar>,
    Vec<Scalar>,
    bool,
))
    ensures
        final(m)@ == resolved(
            old(m)@,
            match target {
                Some(t) => Some(t@),
                None => None,
            },
            n as nat,
            dt,
        ).1,
        (ResolvedV { q: r.0@, qd: r.1@, qdd: r.2@, warn: r.3 }) == resolved(
            old(m)@,
            match target {
                Some(t) => Some(t@),
                None => None,
            },
            n as nat,
            dt,
        ).0,
{
    match target {
        Some(t) => {
            let (safe, v) = m.gate(t.q.as_slice(), dt);
            let qd = sized_vec(t.qd, n);
            let qdd = sized_vec(t.qdd, n);
            (safe, qd, qdd, !v.ok())
        },
        None => {
            let v = m.tick_idle(dt);
            let held = copy_scalars(m.last());
            (held, zeros(n), zeros(n), !v.ok())
        },
    }
}

/// Drives one backend.
pub struct ControlLoop<B: RobotBackend> {
    backend: B,
    ndof: usize,
    gains: Gains,
    monitor: SafetyMonitor,
    dt: Scalar,
    tick: u64,
}

pub open spec fn good_period(dt: Scalar) -> bool {
    dt.finite() && flt(Scalar { bits: 0 }, dt)
}

/// The envelope of a model.
pub open spec fn envelope(m: Model) -> ConfigV {
    ConfigV {
        pos: m.limits@,
        vmax: m.vel_limit@,
        effort: m.effort_limit@,
        timeout: None,
        action: WatchdogAction::Hold,
    }
}

pub open spec fn target_view(t: Option<Target>) -> Option<TargetV> {
    match t {
        Some(x) => Some(x@),
        None => None,
    }
}

/// A control loop without its robot.
pub struct LoopV {
    pub guard: MonitorV,
    pub gains: Gains,
    pub period: Scalar,
    pub ticks: nat,
    pub joints: nat,
}

impl<B: RobotBackend> ControlLoop<B> {
    pub closed spec fn drives(&self) -> B {
        self.backend
    }

    pub closed spec fn guard(&self) -> MonitorV {
        self.monitor@
    }

    pub closed spec fn tuning(&self) -> Gains {
        self.gains
    }

    pub closed spec fn period(&self) -> Scalar {
        self.dt
    }

    pub closed spec fn ticks(&self) -> nat {
        self.tick as nat
    }

    pub closed spec fn joints(&self) -> nat {
        self.ndof as nat
    }

    /// Everything but the robot.
    pub open spec fn state(&self) -> LoopV {
        LoopV {
            guard: self.guard(),
            gains: self.tuning(),
            period: self.period(),
            ticks: self.ticks(),
            joints: self.joints(),
        }
    }

    /// Enables the backend and starts from the pose that it reads.
    pub fn new(backend: B, model: &Model, dt: Scalar) -> (r: Result<Self, Error>)
        requires
            limits_ordered(model.limits@),
        ensures
            !good_period(dt) ==> (r matches Err(e) && e@ == ErrorV::Backend(
                "control dt must be > 0, got "@ + shown(dt),
            )),
            r matches Ok(c) ==> good_period(dt) && c.ticks() == 0 && c.period() == dt && c.tuning()
                == default_gains() && c.joints() == model.ndof && exists|q0: Seq<Scalar>|
                c.guard() == (MonitorV {
                    cfg: envelope(*model),
                    prev: #[trigger] anchored(envelope(*model), q0),
                    estopped: false,
                    idle: Scalar { bits: 0 },
                    warnings: 0,
                }),
            good_period(dt) ==> exists|m: &mut B, e: Result<(), Error>|
                *m == backend && #[trigger] call_ensures(B::enable, (m,), e) && match e {
                    Err(x) => r matches Err(y) && y == x,
                    Ok(_) => exists|w: &mut B, s: Result<JointState, Error>|
                        *w == *final(m) && #[trigger] call_ensures(B::read_state, (w,), s)
                            && match s {
                            Err(x) => r matches Err(y) && y == x,
                            Ok(st) => r matches Ok(c) && c.drives() == *final(w) && c.guard().prev
                                == anchored(envelope(*model), st.q@),
                        },
                },
    {
        if !(dt.is_finite() && dt.gt(Scalar { bits: 0 })) {
            let mut s = chars_of("control dt must be > 0, got ");
            push_text(&mut s, &show_number(dt));
            return Err(Error::Backend(string_of(&s)));
        }
        let mut backend = backend;
        match backend.enable() {
            Ok(_) => {},
            Err(e) => {
                return Err(e);
            },
        }
        let q0 = match backend.read_state() {
            Ok(s) => s.q,
            Err(e) => {
                return Err(e);
            },
        };
        let monitor = SafetyMonitor::new(SafetyConfig::from_model(model), q0.as_slice());
        proof {
            let q = q0@;
            assert(monitor@.prev == anchored(envelope(*model), q));
        }
        Ok(
            ControlLoop {
                backend,
                ndof: model.ndof,
                gains: Gains::default(),
                monitor,
                dt,
                tick: 0,
            },
        )
    }

    pub fn with_gains(self, gains: Gains) -> (r: Self)
        ensures
            r.drives() == self.drives(),
            r.guard() == self.guard(),
            r.tuning() == gains,
            r.period() == self.period(),
            r.ticks() == self.ticks(),
            r.joints() == self.joints(),
    {
        ControlLoop {
            backend: self.backend,
            ndof: self.ndof,
            gains,
            monitor: self.monitor,
            dt: self.dt,
            tick: self.tick,
        }
    }

    pub fn with_monitor(self, m: SafetyMonitor) -> (r: Self)
        ensures
            r.drives() == self.drives(),
            r.guard() == m@,
            r.tuning() == self.tuning(),
            r.period() == self.period(),
            r.ticks() == self.ticks(),
            r.joints() == self.joints(),
    {
        ControlLoop {
            backend: self.backend,
            ndof: self.ndof,
            gains: self.gains,
            monitor: m,
            dt: self.dt,
            tick: self.tick,
        }
    }

    pub fn dt(&self) -> (r: Scalar)
        ensures
            r == self.period(),
    {
        self.dt
    }

    /// The time of the next tick.
    pub fn time(&self) -> (r: Scalar)
        ensures
            r == fmul(from_int(self.ticks() as int), self.period()),
    {
        Scalar::from_u64(self.tick).mul(self.dt)
    }

    pub fn tick(&self) -> (r: u64)
        ensures
            r == self.ticks(),
    {
        self.tick
    }

    pub fn backend(&self) -> (r: &B)
        ensures
            *r == self.drives(),
    {
        &self.backend
    }

    pub fn backend_mut(&mut self) -> (r: &mut B)
        ensures
            *r == old(self).drives(),
            final(self).drives() == *final(r),
            final(self).guard() == old(self).guard(),
            final(self).ticks() == old(self).ticks(),
            final(self).period() == old(self).period(),
            final(self).tuning() == old(self).tuning(),
            final(self).joints() == old(self).joints(),
    {
        &mut self.backend
    }

    pub fn monitor(&self) -> (r: &SafetyMonitor)
        ensures
            r@ == self.guard(),
    {
        &self.monitor
    }

    /// Stops the monitor and the backend.
    pub fn estop(&mut self) -> (r: Result<(), Error>)
        ensures
            final(self).guard() == (MonitorV { estopped: true, ..old(self).guard() }),
            final(self).ticks() == old(self).ticks(),
            final(self).period() == old(self).period(),
            final(self).tuning() == old(self).tuning(),
            final(self).joints() == old(self).joints(),
            exists|m: &mut B|
                *m == old(self).drives() && *final(m) == final(self).drives()
                    && #[trigger] call_ensures(B::estop, (m,), r),
    {
        self.monitor.estop();
        self.backend.estop()
    }

    /// The velocity command of a tick.
    pub fn velocities(&self, p: &Pending) -> (r: Vec<Scalar>)
        requires
            p.q@.len() >= self.joints(),
            p.target_q@.len() >= self.joints(),
            self.guard().cfg.vmax.len() >= self.joints(),
        ensures
            r@ == velocity_command(
                p.aim(),
                p.q@,
                self.tuning(),
                self.guard().cfg,
                self.joints(),
            ),
    {
        let cfg = self.monitor.config();
        let mut out: Vec<Scalar> = Vec::new();
        let mut i: usize = 0;
        while i < self.ndof
            invariant
                i <= self.ndof,
                p.q@.len() >= self.ndof,
                p.target_q@.len() >= self.ndof,
                cfg@ == self.monitor@.cfg,
                cfg.vmax@.len() >= self.ndof,
                out.len() == i,
                forall|k: int|
                    0 <= k < i ==> #[trigger] out@[k] == velocity_command(
                        p.aim(),
                        p.q@,
                        self.gains,
                        self.monitor@.cfg,
                        self.ndof as nat,
                    )[k],
            decreases self.ndof - i,
        {
            let v = entry(&p.target_qd, i).add(self.gains.kp.mul(p.target_q[i].sub(p.q[i])));
            out.push(capped_to(v, cfg.vmax[i]));
            i = i + 1;
        }
        assert(out@ =~= velocity_command(
            p.aim(),
            p.q@,
            self.gains,
            self.monitor@.cfg,
            self.ndof as nat,
        ));
        out
    }

    /// The acceleration that the torques of a tick are to give.
    pub fn accelerations(&self, p: &Pending) -> (r: Vec<Scalar>)
        requires
            p.q@.len() >= self.joints(),
            p.qd@.len() >= self.joints(),
            p.target_q@.len() >= self.joints(),
        ensures
            r@ == acceleration(p.aim(), p.q@, p.qd@, self.tuning(), self.joints()),
    {
        let mut out: Vec<Scalar> = Vec::new();
        let mut i: usize = 0;
        while i < self.ndof
            invariant
                i <= self.ndof,
                p.q@.len() >= self.ndof,
                p.qd@.len() >= self.ndof,
                p.target_q@.len() >= self.ndof,
                out.len() == i,
                forall|k: int|
                    0 <= k < i ==> #[trigger] out@[k] == acceleration(
                        p.aim(),
                        p.q@,
                        p.qd@,
                        self.gains,
                        self.ndof as nat,
                    )[k],
            decreases self.ndof - i,
        {
            let e = self.gains.kp.mul(p.target_q[i].sub(p.q[i]));
            let d = self.gains.kd.mul(entry(&p.target_qd, i).sub(p.qd[i]));
            out.push(entry(&p.target_qdd, i).add(e).add(d));
            i = i + 1;
        }
        assert(out@ =~= acceleration(p.aim(), p.q@, p.qd@, self.gains, self.ndof as nat));
        out
    }

    /// Torques moved into the effort caps.
    pub fn torques(&self, tau: &Vec<Scalar>) -> (r: Vec<Scalar>)
        requires
            tau@.len() >= self.joints(),
            self.guard().cfg.effort.len() >= self.joints(),
        ensures
            r@ == torque_command(tau@, self.guard().cfg, self.joints()),
    {
        let cfg = self.monitor.config();
        let mut out: Vec<Scalar> = Vec::new();
        let mut i: usize = 0;
        while i < self.ndof
            invariant
                i <= self.ndof,
                tau@.len() >= self.ndof,
                cfg@ == self.monitor@.cfg,
                cfg.effort@.len() >= self.ndof,
                out.len() == i,
                forall|k: int|
                    0 <= k < i ==> #[trigger] out@[k] == torque_command(
                        tau@,
                        self.monitor@.cfg,
                        self.ndof as nat,
                    )[k],
            decreases self.ndof - i,
        {
            out.push(capped_to(tau[i], cfg.effort[i]));
            i = i + 1;
        }
        assert(out@ =~= torque_command(tau@, self.monitor@.cfg, self.ndof as nat));
        out
    }
}

/// A model of dynamics that is handed in behaves as `g`: the torques for a pose, a
/// velocity and a wanted acceleration, if there are any.
pub open spec fn moves_as<D: Fn(&[Scalar], &[Scalar], &[Scalar]) -> Result<Vec<Scalar>, Error>>(
    f: D,
    g: spec_fn(Seq<Scalar>, Seq<Scalar>, Seq<Scalar>) -> Option<Seq<Scalar>>,
) -> bool {
    forall|q: &[Scalar], qd: &[Scalar], a: &[Scalar], r: Result<Vec<Scalar>, Error>|
        call_ensures(f, (q, qd, a), r) ==> match r {
            Ok(t) => g(q@, qd@, a@) == Some(t@),
            Err(_) => g(q@, qd@, a@) is None,
        }
}

/// A model of dynamics can be asked anything.
pub open spec fn moves_any<D: Fn(&[Scalar], &[Scalar], &[Scalar]) -> Result<Vec<Scalar>, Error>>(
    f: D,
) -> bool {
    forall|q: &[Scalar], qd: &[Scalar], a: &[Scalar]| call_requires(f, (q, qd, a))
}

/// The command of a tick. There is none where a vector is shorter than the joints, or
/// where the dynamics have no answer.
pub open spec fn command_of(
    mode: ControlMode,
    aim: ResolvedV,
    q: Seq<Scalar>,
    qd: Seq<Scalar>,
    gains: Gains,
    cfg: ConfigV,
    n: nat,
    g: spec_fn(Seq<Scalar>, Seq<Scalar>, Seq<Scalar>) -> Option<Seq<Scalar>>,
) -> Option<Seq<Scalar>> {
    match mode {
        ControlMode::Position => Some(aim.q),
        ControlMode::Velocity => if aim.q.len() >= n && q.len() >= n && cfg.vmax.len() >= n {
            Some(velocity_command(aim, q, gains, cfg, n))
        } else {
            None
        },
        ControlMode::Torque => if aim.q.len() >= n && q.len() >= n && qd.len() >= n
            && cfg.effort.len() >= n {
            match g(q, qd, acceleration(aim, q, qd, gains, n)) {
                Some(tau) => if tau.len() >= n {
                    Some(torque_command(tau, cfg, n))
                } else {
                    None
                },
                None => None,
            }
        } else {
            None
        },
    }
}

/// Looks at frames as they come, and says whether it wants more.
pub trait FrameViewer {
    fn show(&mut self, f: &Frame) -> (more: bool);
}

/// The first of some lengths that is below `n`.
pub open spec fn short_of(n: nat, a: nat, b: nat, c: nat, d: nat) -> Option<nat> {
    if a < n {
        Some(a)
    } else if b < n {
        Some(b)
    } else if c < n {
        Some(c)
    } else if d < n {
        Some(d)
    } else {
        None
    }
}

/// An answer to what the command of a tick is: vectors that are shorter than the joints
/// are refused, and in torque mode the dynamics are asked.
pub open spec fn commands<D: Fn(&[Scalar], &[Scalar], &[Scalar]) -> Result<Vec<Scalar>, Error>>(
    mode: ControlMode,
    aim: ResolvedV,
    q: Seq<Scalar>,
    qd: Seq<Scalar>,
    gains: Gains,
    cfg: ConfigV,
    n: nat,
    dynamics: D,
    r: Result<Vec<Scalar>, Error>,
) -> bool {
    match mode {
        ControlMode::Position => r matches Ok(c) && c@ == aim.q,
        ControlMode::Velocity => match short_of(n, aim.q.len(), q.len(), n, cfg.vmax.len()) {
            Some(got) => r matches Err(e) && e@ == (ErrorV::DofMismatch { expected: n, got }),
            None => r matches Ok(c) && c@ == velocity_command(aim, q, gains, cfg, n),
        },
        ControlMode::Torque => match short_of(
            n,
            aim.q.len(),
            q.len(),
            qd.len(),
            cfg.effort.len(),
        ) {
            Some(got) => r matches Err(e) && e@ == (ErrorV::DofMismatch { expected: n, got }),
            None => exists|
                x: &[Scalar],
                v: &[Scalar],
                a: &[Scalar],
                tau: Result<Vec<Scalar>, Error>,
            |
                x@ == q && v@ == qd && a@ == acceleration(aim, q, qd, gains, n)
                    && #[trigger] call_ensures(dynamics, (x, v, a), tau) && match tau {
                    Err(e) => r matches Err(f) && f == e,
                    Ok(t) => if t@.len() < n {
                        r matches Err(e) && e@ == (ErrorV::DofMismatch {
                            expected: n,
                            got: t@.len(),
                        })
                    } else {
                        r matches Ok(c) && c@ == torque_command(t@, cfg, n)
                    },
                },
        },
    }
}

/// One tick, call by call. The robot before it, after its state was read, after the
/// command, and after the step; the source of targets before and after it was asked; and
/// what each answered.
pub struct TickV<B, S> {
    pub robot: B,
    pub read: B,
    pub sent: B,
    pub after: B,
    pub source: S,
    pub asked: S,
    pub state: Result<JointState, Error>,
    pub target: Option<Target>,
    pub mode: ControlMode,
    pub command: Result<Vec<Scalar>, Error>,
    pub taken: Result<(), Error>,
    pub moved: Result<(), Error>,
}

/// The time of the next tick.
pub open spec fn time_of(l: LoopV) -> Scalar {
    fmul(from_int(l.ticks as int), l.period)
}

/// The velocities of a reading; zeros where none were measured.
pub open spec fn speeds(s: JointState) -> Seq<Scalar> {
    match opt_seq(s.qd) {
        Some(v) => v,
        None => zero_seq(s.q@.len()),
    }
}

/// What a tick aims at, and the monitor afterwards.
pub open spec fn aimed<B, S>(x: TickV<B, S>, l: LoopV) -> (ResolvedV, MonitorV) {
    resolved(l.guard, target_view(x.target), l.joints, l.period)
}

/// The command that a tick sends, if it comes to that.
pub open spec fn sends<B, S>(x: TickV<B, S>) -> Option<Seq<Scalar>> {
    if x.state is Ok {
        match x.command {
            Ok(c) => Some(c@),
            Err(_) => None,
        }
    } else {
        None
    }
}

/// Whether a tick steps a simulation: after torques that were taken, and never else.
pub open spec fn integrates<B, S>(x: TickV<B, S>) -> bool {
    sends(x) is Some && x.mode == ControlMode::Torque && x.taken is Ok
}

/// What a tick decides between its calls: the mode is asked of the robot that was read, the
/// command is the one of that mode, and without a call nothing changes.
pub open spec fn ticked<
    B: RobotBackend,
    S,
    D: Fn(&[Scalar], &[Scalar], &[Scalar]) -> Result<Vec<Scalar>, Error>,
>(x: TickV<B, S>, l: LoopV, dynamics: D) -> bool {
    &&& x.state matches Ok(s) ==> call_ensures(B::mode, (&x.read,), x.mode) && commands(
        x.mode,
        aimed(x, l).0,
        s.q@,
        speeds(s),
        l.gains,
        l.guard.cfg,
        l.joints,
        dynamics,
        x.command,
    )
    &&& x.state is Err ==> x.asked == x.source
    &&& sends(x) is None ==> x.after == x.read
    &&& sends(x) is Some && !integrates(x) ==> x.after == x.sent
}

/// What a tick gives: the first error of its calls, or the frame.
pub open spec fn outcome<B, S>(x: TickV<B, S>, l: LoopV) -> Result<FrameV, Error> {
    match x.state {
        Err(e) => Err(e),
        Ok(s) => match x.command {
            Err(e) => Err(e),
            Ok(_) => match x.taken {
                Err(e) => Err(e),
                Ok(_) => if x.mode == ControlMode::Torque && x.moved is Err {
                    Err(x.moved->Err_0)
                } else {
                    Ok(
                        FrameV {
                            tick: l.ticks,
                            t: time_of(l),
                            measured: s.q@,
                            measured_qd: speeds(s),
                            command: aimed(x, l).0.q,
                            warn: aimed(x, l).0.warn,
                        },
                    )
                },
            },
        },
    }
}

/// A loop after a tick. One that fails is not counted.
pub open spec fn next_loop<B, S>(x: TickV<B, S>, l: LoopV) -> LoopV {
    LoopV {
        guard: if x.state is Ok {
            aimed(x, l).1
        } else {
            l.guard
        },
        ticks: if outcome(x, l) is Ok {
            l.ticks + 1
        } else {
            l.ticks
        },
        ..l
    }
}

/// A loop after the first `k` of some ticks.
#[verifier::opaque]
pub open spec fn loop_at<B, S>(xs: Seq<TickV<B, S>>, l: LoopV, k: nat) -> LoopV
    decreases k,
{
    if k == 0 {
        l
    } else {
        next_loop(xs[k - 1], loop_at(xs, l, (k - 1) as nat))
    }
}

/// The frame of tick `k`, or its error.
pub open spec fn frame_at<B, S>(xs: Seq<TickV<B, S>>, l: LoopV, k: int) -> Result<FrameV, Error> {
    outcome(xs[k], loop_at(xs, l, k as nat))
}

/// Tick `k` goes on where the one before it ended.
pub open spec fn follows<B, S>(xs: Seq<TickV<B, S>>, k: int) -> bool {
    xs[k].robot == xs[k - 1].after && xs[k].source == xs[k - 1].asked
}

/// Ticks that follow one another, from a robot and a source to a robot and a source.
pub open spec fn ran<
    B: RobotBackend,
    S,
    D: Fn(&[Scalar], &[Scalar], &[Scalar]) -> Result<Vec<Scalar>, Error>,
>(
    xs: Seq<TickV<B, S>>,
    l: LoopV,
    robot: B,
    source: S,
    after: B,
    asked: S,
    dynamics: D,
) -> bool {
    &&& xs.len() == 0 ==> after == robot && asked == source
    &&& xs.len() > 0 ==> xs[0].robot == robot && xs[0].source == source && xs.last().after
        == after && xs.last().asked == asked
    &&& forall|k: int| 1 <= k < xs.len() ==> #[trigger] follows(xs, k)
    &&& forall|k: int|
        0 <= k < xs.len() ==> ticked(#[trigger] xs[k], loop_at(xs, l, k as nat), dynamics)
}

/// The first `n` ticks give frames.
pub open spec fn all_framed<B, S>(xs: Seq<TickV<B, S>>, l: LoopV, n: int) -> bool {
    forall|k: int| 0 <= k < n ==> (#[trigger] frame_at(xs, l, k)) is Ok
}

proof fn lemma_loop_at<B, S>(xs: Seq<TickV<B, S>>, x: TickV<B, S>, l: LoopV, k: nat)
    requires
        k <= xs.len(),
    ensures
        loop_at(xs.push(x), l, k) == loop_at(xs, l, k),
    decreases k,
{
    reveal(loop_at);
    if k > 0 {
        lemma_loop_at(xs, x, l, (k - 1) as nat);
    }
}

/// One tick more.
proof fn lemma_ran<
    B: RobotBackend,
    S,
    D: Fn(&[Scalar], &[Scalar], &[Scalar]) -> Result<Vec<Scalar>, Error>,
>(xs: Seq<TickV<B, S>>, x: TickV<B, S>, l: LoopV, robot: B, source: S, dynamics: D)
    requires
        ran(xs, l, robot, source, x.robot, x.source, dynamics),
        ticked(x, loop_at(xs, l, xs.len()), dynamics),
    ensures
        ran(xs.push(x), l, robot, source, x.after, x.asked, dynamics),
        forall|k: nat|
            k <= xs.len() ==> #[trigger] loop_at(xs.push(x), l, k) == loop_at(xs, l, k),
        loop_at(xs.push(x), l, (xs.len() + 1) as nat) == next_loop(x, loop_at(xs, l, xs.len())),
{
    let all = xs.push(x);
    assert(loop_at(all, l, all.len()) == next_loop(x, loop_at(all, l, xs.len()))) by {
        reveal(loop_at);
    }
    assert forall|k: nat| k <= xs.len() implies #[trigger] loop_at(all, l, k) == loop_at(
        xs,
        l,
        k,
    ) by {
        lemma_loop_at(xs, x, l, k);
    }
    assert forall|k: int| 1 <= k < all.len() implies #[trigger] follows(all, k) by {
        if k < xs.len() {
            assert(follows(xs, k));
            assert(all[k] == xs[k] && all[k - 1] == xs[k - 1]);
        } else {
            assert(all[k - 1] == xs.last());
        }
    }
    assert forall|k: int| 0 <= k < all.len() implies ticked(
        #[trigger] all[k],
        loop_at(all, l, k as nat),
        dynamics,
    ) by {
        if k < xs.len() {
            assert(all[k] == xs[k]);
        }
    }
}

/// Where the frame that is shown as number `j` stands among all frames.
pub open spec fn nth(j: int, every: int) -> int {
    j * every
}

/// The states of a viewer, from one to another.
pub open spec fn watched<V>(vs: Seq<V>, first: V, last: V) -> bool {
    vs.len() > 0 && vs[0] == first && vs.last() == last
}

/// How many of the first `n` ticks are shown, if every `every`-th one is.
pub open spec fn shown_of(n: int, every: int) -> int {
    if n <= 0 {
        0
    } else {
        (n - 1) / every + 1
    }
}

proof fn lemma_shown(i: int, every: int)
    requires
        i >= 0,
        every > 0,
    ensures
        shown_of(i, every) >= 0,
        i % every == 0 ==> shown_of(i + 1, every) == shown_of(i, every) + 1 && i == shown_of(
            i,
            every,
        ) * every,
        i % every != 0 ==> shown_of(i + 1, every) == shown_of(i, every),
{
    vstd::arithmetic::div_mod::lemma_fundamental_div_mod(i, every);
    let d = i / every;
    let r = i % every;
    assert(every * d == d * every) by (nonlinear_arith);
    if i > 0 {
        if r == 0 {
            assert(i - 1 == every * (d - 1) + (every - 1)) by (nonlinear_arith)
                requires
                    i == every * d,
            ;
            vstd::arithmetic::div_mod::lemma_fundamental_div_mod_converse(
                i - 1,
                every,
                d - 1,
                every - 1,
            );
            assert(d >= 1) by (nonlinear_arith)
                requires
                    i == every * d,
                    i > 0,
                    every > 0,
            ;
        } else {
            vstd::arithmetic::div_mod::lemma_fundamental_div_mod_converse(i - 1, every, d, r - 1);
            vstd::arithmetic::div_mod::lemma_div_pos_is_pos(i, every);
        }
    }
}

impl<B: RobotBackend> ControlLoop<B> {
    /// The command of a tick in the mode of the backend. `dynamics` gives the torques
    /// for a pose, a velocity and a wanted acceleration.
    pub fn compute_command<
        D: Fn(&[Scalar], &[Scalar], &[Scalar]) -> Result<Vec<Scalar>, Error>,
    >(&self, p: &Pending, dynamics: &D) -> (r: Result<Vec<Scalar>, Error>)
        requires
            moves_any(*dynamics),
        ensures
            commands(
                p.mode,
                p.aim(),
                p.q@,
                p.qd@,
                self.tuning(),
                self.guard().cfg,
                self.joints(),
                *dynamics,
                r,
            ),
    {
        let n: usize = self.ndof;
        match p.mode {
            ControlMode::Position => Ok(copy_scalars(p.target_q.as_slice())),
            ControlMode::Velocity => {
                let caps: usize = self.monitor.config().vmax.len();
                match shortest(n, p.target_q.len(), p.q.len(), n, caps) {
                    Some(got) => Err(Error::DofMismatch { expected: n, got }),
                    None => Ok(self.velocities(p)),
                }
            },
            ControlMode::Torque => {
                let caps: usize = self.monitor.config().effort.len();
                match shortest(n, p.target_q.len(), p.q.len(), p.qd.len(), caps) {
                    Some(got) => {
                        return Err(Error::DofMismatch { expected: n, got });
                    },
                    None => {},
                }
                let a = self.accelerations(p);
                match dynamics(p.q.as_slice(), p.qd.as_slice(), a.as_slice()) {
                    Err(e) => Err(e),
                    Ok(tau) => {
                        if tau.len() < n {
                            return Err(Error::DofMismatch { expected: n, got: tau.len() });
                        }
                        Ok(self.torques(&tau))
                    },
                }
            },
        }
    }

    /// A tick, with what it did call by call.
    fn traced<
        S: Setpoint,
        D: Fn(&[Scalar], &[Scalar], &[Scalar]) -> Result<Vec<Scalar>, Error>,
    >(&mut self, sp: &mut S, dynamics: &D) -> (r: (Result<Frame, Error>, Ghost<TickV<B, S>>))
        requires
            moves_any(*dynamics),
            old(self).ticks() < u64::MAX,
        ensures
            ticked(r.1@, old(self).state(), *dynamics),
            r.1@.robot == old(self).drives(),
            r.1@.after == final(self).drives(),
            r.1@.source == *old(sp),
            r.1@.asked == *final(sp),
            final(self).state() == next_loop(r.1@, old(self).state()),
            match outcome(r.1@, old(self).state()) {
                Ok(f) => r.0 matches Ok(x) && x@ == f,
                Err(e) => r.0 matches Err(x) && x == e,
            },
            (exists|m: &mut B, a: Result<JointState, Error>|
                *m == r.1@.robot
                    && *final(m) == r.1@.read
                    && a == r.1@.state
                    && #[trigger] call_ensures(B::read_state, (m,), a))
            && (r.1@.state is Ok ==> exists|m: &mut S, k: u64, t: Scalar, a: Option<Target>|
                *m == r.1@.source
                    && *final(m) == r.1@.asked
                    && k == old(self).state().ticks
                    && t == time_of(old(self).state())
                    && a == r.1@.target
                    && #[trigger] call_ensures(S::target, (m, k, t), a))
            && (sends(r.1@) is Some ==> match r.1@.mode {
                ControlMode::Position => exists|m: &mut B, c: &[Scalar], a: Result<(), Error>|
                    *m == r.1@.read
                        && *final(m) == r.1@.sent
                        && sends(r.1@) == Some(c@)
                        && a == r.1@.taken
                        && #[trigger] call_ensures(B::command_joint_positions, (m, c), a),
                ControlMode::Velocity => exists|m: &mut B, c: &[Scalar], a: Result<(), Error>|
                    *m == r.1@.read
                        && *final(m) == r.1@.sent
                        && sends(r.1@) == Some(c@)
                        && a == r.1@.taken
                        && #[trigger] call_ensures(B::command_joint_velocities, (m, c), a),
                ControlMode::Torque => exists|m: &mut B, c: &[Scalar], a: Result<(), Error>|
                    *m == r.1@.read
                        && *final(m) == r.1@.sent
                        && sends(r.1@) == Some(c@)
                        && a == r.1@.taken
                        && #[trigger] call_ensures(B::command_joint_torques, (m, c), a),
            })
            && (integrates(r.1@) ==> exists|m: &mut B, h: Scalar, a: Result<(), Error>|
                *m == r.1@.sent
                    && *final(m) == r.1@.after
                    && h == old(self).state().period
                    && a == r.1@.moved
                    && #[trigger] call_ensures(B::step, (m, h), a)),
    {
        let ghost l = self.state();
        let ghost robot = self.backend;
        let ghost source = *sp;
        let t = self.time();
        let reading = self.backend.read_state();
        let ghost read = self.backend;
        let ghost blank = TickV::<B, S> {
            robot,
            read,
            sent: read,
            after: read,
            source,
            asked: source,
            state: reading,
            target: None,
            mode: ControlMode::Position,
            command: Err(Error::EStopActive),
            taken: Ok(()),
            moved: Ok(()),
        };
        assert(exists|m: &mut B, a: Result<JointState, Error>|
            *m == blank.robot && *final(m) == blank.read && a == blank.state
                && #[trigger] call_ensures(B::read_state, (m,), a));
        let measured = match reading {
            Ok(s) => s,
            Err(e) => {
                let g: Ghost<TickV<B, S>> = Ghost(blank);
                return (Err(e), g);
            },
        };
        let qd = measured.qd_or_zero();
        let k: u64 = self.tick;
        let target = sp.target(k, t);
        let ghost asked = *sp;
        let ghost aim = target;
        assert(exists|m: &mut S, k: u64, t: Scalar, a: Option<Target>|
            *m == source && *final(m) == asked && k == l.ticks && t == time_of(l) && a == aim
                && #[trigger] call_ensures(S::target, (m, k, t), a));
        let (target_q, target_qd, target_qdd, warn) = resolve(
            &mut self.monitor,
            target,
            self.ndof,
            self.dt,
        );
        let mode = self.backend.mode();
        let p = Pending { t, q: measured.q, qd, target_q, target_qd, target_qdd, warn, mode };
        let computed = self.compute_command(&p, dynamics);
        let ghost begun = TickV::<B, S> { asked, target: aim, mode, command: computed, ..blank };
        let cmd = match computed {
            Ok(c) => c,
            Err(e) => {
                let g: Ghost<TickV<B, S>> = Ghost(begun);
                return (Err(e), g);
            },
        };
        let taken = match p.mode {
            ControlMode::Torque => self.backend.command_joint_torques(cmd.as_slice()),
            ControlMode::Position => self.backend.command_joint_positions(cmd.as_slice()),
            ControlMode::Velocity => self.backend.command_joint_velocities(cmd.as_slice()),
        };
        let ghost sent = self.backend;
        let ghost done = TickV::<B, S> { sent, after: sent, taken, ..begun };
        match taken {
            Ok(_) => {},
            Err(e) => {
                let g: Ghost<TickV<B, S>> = Ghost(done);
                return (Err(e), g);
            },
        }
        let moved = match p.mode {
            ControlMode::Torque => self.backend.step(self.dt),
            _ => Ok(()),
        };
        let ghost all = TickV::<B, S> { after: self.backend, moved, ..done };
        match moved {
            Ok(_) => {},
            Err(e) => {
                let g: Ghost<TickV<B, S>> = Ghost(all);
                return (Err(e), g);
            },
        }
        let f = Frame {
            tick: self.tick,
            t: p.t,
            measured: p.q,
            measured_qd: p.qd,
            command: p.target_q,
            warn: p.warn,
        };
        self.tick = self.tick + 1;
        let g: Ghost<TickV<B, S>> = Ghost(all);
        (Ok(f), g)
    }

    /// Advances one tick. Gives what was recorded of it, and pushes it to `sink`.
    pub fn step<
        S: Setpoint,
        K: FrameSink,
        D: Fn(&[Scalar], &[Scalar], &[Scalar]) -> Result<Vec<Scalar>, Error>,
    >(&mut self, sp: &mut S, sink: Option<&mut K>, dynamics: &D) -> (r: Result<Frame, Error>)
        requires
            moves_any(*dynamics),
            old(self).ticks() < u64::MAX,
        ensures
            exists|x: TickV<B, S>|
                #[trigger] ticked(x, old(self).state(), *dynamics) && x.robot == old(self).drives()
                    && x.after == final(self).drives() && x.source == *old(sp) && x.asked
                    == *final(sp) && final(self).state() == next_loop(x, old(self).state())
                    && (match outcome(x, old(self).state()) {
                    Ok(f) => r matches Ok(y) && y@ == f,
                    Err(e) => r matches Err(y) && y == e,
                }) && (exists|m: &mut B, a: Result<JointState, Error>|
                        *m == x.robot
                            && *final(m) == x.read
                            && a == x.state
                            && #[trigger] call_ensures(B::read_state, (m,), a))
                    && (x.state is Ok ==> exists|m: &mut S, k: u64, t: Scalar, a: Option<Target>|
                        *m == x.source
                            && *final(m) == x.asked
                            && k == old(self).state().ticks
                            && t == time_of(old(self).state())
                            && a == x.target
                            && #[trigger] call_ensures(S::target, (m, k, t), a))
                    && (sends(x) is Some ==> match x.mode {
                        ControlMode::Position => exists|m: &mut B, c: &[Scalar], a: Result<(), Error>|
                            *m == x.read
                                && *final(m) == x.sent
                                && sends(x) == Some(c@)
                                && a == x.taken
                                && #[trigger] call_ensures(B::command_joint_positions, (m, c), a),
                        ControlMode::Velocity => exists|m: &mut B, c: &[Scalar], a: Result<(), Error>|
                            *m == x.read
                                && *final(m) == x.sent
                                && sends(x) == Some(c@)
                                && a == x.taken
                                && #[trigger] call_ensures(B::command_joint_velocities, (m, c), a),
                        ControlMode::Torque => exists|m: &mut B, c: &[Scalar], a: Result<(), Error>|
                            *m == x.read
                                && *final(m) == x.sent
                                && sends(x) == Some(c@)
                                && a == x.taken
                                && #[trigger] call_ensures(B::command_joint_torques, (m, c), a),
                    })
                    && (integrates(x) ==> exists|m: &mut B, h: Scalar, a: Result<(), Error>|
                        *m == x.sent
                            && *final(m) == x.after
                            && h == old(self).state().period
                            && a == x.moved
                            && #[trigger] call_ensures(B::step, (m, h), a)),
            sink matches Some(k) ==> match r {
                Ok(f) => exists|m: &mut K, g: &Frame, u: ()|
                    *m == *k && *final(m) == *final(k) && *g == f && #[trigger] call_ensures(
                        K::push,
                        (m, g),
                        u,
                    ),
                Err(_) => *final(k) == *k,
            },
    {
        let (r, x) = self.traced(sp, dynamics);
        match r {
            Ok(f) => {
                match sink {
                    Some(k) => {
                        k.push(&f);
                    },
                    None => {},
                }
                Ok(f)
            },
            Err(e) => Err(e),
        }
    }

    /// Runs `n` ticks. The first one that fails ends the run.
    pub fn run_to<
        S: Setpoint,
        D: Fn(&[Scalar], &[Scalar], &[Scalar]) -> Result<Vec<Scalar>, Error>,
    >(&mut self, sp: &mut S, n: usize, dynamics: &D) -> (r: Result<(), Error>)
        requires
            moves_any(*dynamics),
            old(self).ticks() + n <= u64::MAX,
        ensures
            exists|xs: Seq<TickV<B, S>>|
                #[trigger] ran(
                    xs,
                    old(self).state(),
                    old(self).drives(),
                    *old(sp),
                    final(self).drives(),
                    *final(sp),
                    *dynamics,
                ) && final(self).state() == loop_at(xs, old(self).state(), xs.len()) && (match r {
                    Ok(_) => xs.len() == n && all_framed(xs, old(self).state(), n as int),
                    Err(e) => 1 <= xs.len() <= n && all_framed(
                        xs,
                        old(self).state(),
                        xs.len() - 1,
                    ) && frame_at(xs, old(self).state(), xs.len() - 1) == Err::<FrameV, Error>(e),
                }) && forall|j: int|
                    0 <= j < xs.len() ==> (exists|m: &mut B, a: Result<JointState, Error>|
                        *m == (#[trigger] xs[j]).robot
                            && *final(m) == xs[j].read
                            && a == xs[j].state
                            && #[trigger] call_ensures(B::read_state, (m,), a))
                    && (xs[j].state is Ok ==> exists|m: &mut S, k: u64, t: Scalar, a: Option<Target>|
                        *m == xs[j].source
                            && *final(m) == xs[j].asked
                            && k == loop_at(xs, old(self).state(), j as nat).ticks
                            && t == time_of(loop_at(xs, old(self).state(), j as nat))
                            && a == xs[j].target
                            && #[trigger] call_ensures(S::target, (m, k, t), a))
                    && (sends(xs[j]) is Some ==> match xs[j].mode {
                        ControlMode::Position => exists|m: &mut B, c: &[Scalar], a: Result<(), Error>|
                            *m == xs[j].read
                                && *final(m) == xs[j].sent
                                && sends(xs[j]) == Some(c@)
                                && a == xs[j].taken
                                && #[trigger] call_ensures(B::command_joint_positions, (m, c), a),
                        ControlMode::Velocity => exists|m: &mut B, c: &[Scalar], a: Result<(), Error>|
                            *m == xs[j].read
                                && *final(m) == xs[j].sent
                                && sends(xs[j]) == Some(c@)
                                && a == xs[j].taken
                                && #[trigger] call_ensures(B::command_joint_velocities, (m, c), a),
                        ControlMode::Torque => exists|m: &mut B, c: &[Scalar], a: Result<(), Error>|
                            *m == xs[j].read
                                && *final(m) == xs[j].sent
                                && sends(xs[j]) == Some(c@)
                                && a == xs[j].taken
                                && #[trigger] call_ensures(B::command_joint_torques, (m, c), a),
                    })
                    && (integrates(xs[j]) ==> exists|m: &mut B, h: Scalar, a: Result<(), Error>|
                        *m == xs[j].sent
                            && *final(m) == xs[j].after
                            && h == loop_at(xs, old(self).state(), j as nat).period
                            && a == xs[j].moved
                            && #[trigger] call_ensures(B::step, (m, h), a)),
    {
        let mut i: usize = 0;
        let ghost l = self.state();
        let ghost mut xs: Seq<TickV<B, S>> = Seq::empty();
        assert(loop_at(xs, l, 0) == l) by {
            reveal(loop_at);
        }
        while i < n
            invariant
                i <= n,
                moves_any(*dynamics),
                l == old(self).state(),
                old(self).ticks() + n <= u64::MAX,
                self.ticks() == old(self).ticks() + i,
                xs.len() == i,
                ran(xs, l, old(self).drives(), *old(sp), self.drives(), *sp, *dynamics),
                self.state() == loop_at(xs, l, i as nat),
                all_framed(xs, l, i as int),
                forall|j: int|
                        0 <= j < xs.len() ==> (exists|m: &mut B, a: Result<JointState, Error>|
                            *m == (#[trigger] xs[j]).robot
                                && *final(m) == xs[j].read
                                && a == xs[j].state
                                && #[trigger] call_ensures(B::read_state, (m,), a))
                        && (xs[j].state is Ok ==> exists|m: &mut S, k: u64, t: Scalar, a: Option<Target>|
                            *m == xs[j].source
                                && *final(m) == xs[j].asked
                                && k == loop_at(xs, l, j as nat).ticks
                                && t == time_of(loop_at(xs, l, j as nat))
                                && a == xs[j].target
                                && #[trigger] call_ensures(S::target, (m, k, t), a))
                        && (sends(xs[j]) is Some ==> match xs[j].mode {
                            ControlMode::Position => exists|m: &mut B, c: &[Scalar], a: Result<(), Error>|
                                *m == xs[j].read
                                    && *final(m) == xs[j].sent
                                    && sends(xs[j]) == Some(c@)
                                    && a == xs[j].taken
                                    && #[trigger] call_ensures(B::command_joint_positions, (m, c), a),
                            ControlMode::Velocity => exists|m: &mut B, c: &[Scalar], a: Result<(), Error>|
                                *m == xs[j].read
                                    && *final(m) == xs[j].sent
                                    && sends(xs[j]) == Some(c@)
                                    && a == xs[j].taken
                                    && #[trigger] call_ensures(B::command_joint_velocities, (m, c), a),
                            ControlMode::Torque => exists|m: &mut B, c: &[Scalar], a: Result<(), Error>|
                                *m == xs[j].read
                                    && *final(m) == xs[j].sent
                                    && sends(xs[j]) == Some(c@)
                                    && a == xs[j].taken
                                    && #[trigger] call_ensures(B::command_joint_torques, (m, c), a),
                        })
                        && (integrates(xs[j]) ==> exists|m: &mut B, h: Scalar, a: Result<(), Error>|
                            *m == xs[j].sent
                                && *final(m) == xs[j].after
                                && h == loop_at(xs, l, j as nat).period
                                && a == xs[j].moved
                                && #[trigger] call_ensures(B::step, (m, h), a)),
            decreases n - i,
        {
            let ghost past = xs;
            let (r, x) = self.traced(sp, dynamics);
            proof {
                lemma_ran(past, x@, l, old(self).drives(), *old(sp), *dynamics);
                xs = past.push(x@);
                assert forall|k: int| 0 <= k < i implies (#[trigger] frame_at(xs, l, k)) is Ok by {
                    assert(frame_at(past, l, k) is Ok);
                }
            }
            assert(forall|j: int|
                        0 <= j < xs.len() ==> (exists|m: &mut B, a: Result<JointState, Error>|
                            *m == (#[trigger] xs[j]).robot
                                && *final(m) == xs[j].read
                                && a == xs[j].state
                                && #[trigger] call_ensures(B::read_state, (m,), a))
                        && (xs[j].state is Ok ==> exists|m: &mut S, k: u64, t: Scalar, a: Option<Target>|
                            *m == xs[j].source
                                && *final(m) == xs[j].asked
                                && k == loop_at(xs, l, j as nat).ticks
                                && t == time_of(loop_at(xs, l, j as nat))
                                && a == xs[j].target
                                && #[trigger] call_ensures(S::target, (m, k, t), a))
                        && (sends(xs[j]) is Some ==> match xs[j].mode {
                            ControlMode::Position => exists|m: &mut B, c: &[Scalar], a: Result<(), Error>|
                                *m == xs[j].read
                                    && *final(m) == xs[j].sent
                                    && sends(xs[j]) == Some(c@)
                                    && a == xs[j].taken
                                    && #[trigger] call_ensures(B::command_joint_positions, (m, c), a),
                            ControlMode::Velocity => exists|m: &mut B, c: &[Scalar], a: Result<(), Error>|
                                *m == xs[j].read
                                    && *final(m) == xs[j].sent
                                    && sends(xs[j]) == Some(c@)
                                    && a == xs[j].taken
                                    && #[trigger] call_ensures(B::command_joint_velocities, (m, c), a),
                            ControlMode::Torque => exists|m: &mut B, c: &[Scalar], a: Result<(), Error>|
                                *m == xs[j].read
                                    && *final(m) == xs[j].sent
                                    && sends(xs[j]) == Some(c@)
                                    && a == xs[j].taken
                                    && #[trigger] call_ensures(B::command_joint_torques, (m, c), a),
                        })
                        && (integrates(xs[j]) ==> exists|m: &mut B, h: Scalar, a: Result<(), Error>|
                            *m == xs[j].sent
                                && *final(m) == xs[j].after
                                && h == loop_at(xs, l, j as nat).period
                                && a == xs[j].moved
                                && #[trigger] call_ensures(B::step, (m, h), a)));
            match r {
                Ok(_) => {},
                Err(e) => {
                    return Err(e);
                },
            }
            i = i + 1;
        }
        Ok(())
    }

    /// Runs `n` ticks and gives what was recorded of each.
    pub fn run_record<
        S: Setpoint,
        D: Fn(&[Scalar], &[Scalar], &[Scalar]) -> Result<Vec<Scalar>, Error>,
    >(&mut self, sp: &mut S, n: usize, dynamics: &D) -> (r: Result<Vec<Frame>, Error>)
        requires
            moves_any(*dynamics),
            old(self).ticks() + n <= u64::MAX,
        ensures
            exists|xs: Seq<TickV<B, S>>|
                #[trigger] ran(
                    xs,
                    old(self).state(),
                    old(self).drives(),
                    *old(sp),
                    final(self).drives(),
                    *final(sp),
                    *dynamics,
                ) && final(self).state() == loop_at(xs, old(self).state(), xs.len()) && (match r {
                    Ok(frames) => xs.len() == n && frames@.len() == n && forall|k: int|
                        0 <= k < n ==> frame_at(xs, old(self).state(), k) == Ok::<FrameV, Error>(
                            (#[trigger] frames@[k])@,
                        ),
                    Err(e) => 1 <= xs.len() <= n && all_framed(
                        xs,
                        old(self).state(),
                        xs.len() - 1,
                    ) && frame_at(xs, old(self).state(), xs.len() - 1) == Err::<FrameV, Error>(e),
                }) && forall|j: int|
                    0 <= j < xs.len() ==> (exists|m: &mut B, a: Result<JointState, Error>|
                        *m == (#[trigger] xs[j]).robot
                            && *final(m) == xs[j].read
                            && a == xs[j].state
                            && #[trigger] call_ensures(B::read_state, (m,), a))
                    && (xs[j].state is Ok ==> exists|m: &mut S, k: u64, t: Scalar, a: Option<Target>|
                        *m == xs[j].source
                            && *final(m) == xs[j].asked
                            && k == loop_at(xs, old(self).state(), j as nat).ticks
                            && t == time_of(loop_at(xs, old(self).state(), j as nat))
                            && a == xs[j].target
                            && #[trigger] call_ensures(S::target, (m, k, t), a))
                    && (sends(xs[j]) is Some ==> match xs[j].mode {
                        ControlMode::Position => exists|m: &mut B, c: &[Scalar], a: Result<(), Error>|
                            *m == xs[j].read
                                && *final(m) == xs[j].sent
                                && sends(xs[j]) == Some(c@)
                                && a == xs[j].taken
                                && #[trigger] call_ensures(B::command_joint_positions, (m, c), a),
                        ControlMode::Velocity => exists|m: &mut B, c: &[Scalar], a: Result<(), Error>|
                            *m == xs[j].read
                                && *final(m) == xs[j].sent
                                && sends(xs[j]) == Some(c@)
                                && a == xs[j].taken
                                && #[trigger] call_ensures(B::command_joint_velocities, (m, c), a),
                        ControlMode::Torque => exists|m: &mut B, c: &[Scalar], a: Result<(), Error>|
                            *m == xs[j].read
                                && *final(m) == xs[j].sent
                                && sends(xs[j]) == Some(c@)
                                && a == xs[j].taken
                                && #[trigger] call_ensures(B::command_joint_torques, (m, c), a),
                    })
                    && (integrates(xs[j]) ==> exists|m: &mut B, h: Scalar, a: Result<(), Error>|
                        *m == xs[j].sent
                            && *final(m) == xs[j].after
                            && h == loop_at(xs, old(self).state(), j as nat).period
                            && a == xs[j].moved
                            && #[trigger] call_ensures(B::step, (m, h), a)),
    {
        let mut sink = VecSink::default();
        let mut i: usize = 0;
        let ghost l = self.state();
        let ghost mut xs: Seq<TickV<B, S>> = Seq::empty();
        assert(loop_at(xs, l, 0) == l) by {
            reveal(loop_at);
        }
        while i < n
            invariant
                i <= n,
                moves_any(*dynamics),
                l == old(self).state(),
                old(self).ticks() + n <= u64::MAX,
                self.ticks() == old(self).ticks() + i,
                xs.len() == i,
                ran(xs, l, old(self).drives(), *old(sp), self.drives(), *sp, *dynamics),
                self.state() == loop_at(xs, l, i as nat),
                sink.frames@.len() == i,
                forall|k: int|
                    0 <= k < i ==> frame_at(xs, l, k) == Ok::<FrameV, Error>(
                        (#[trigger] sink.frames@[k])@,
                    ),
                forall|j: int|
                        0 <= j < xs.len() ==> (exists|m: &mut B, a: Result<JointState, Error>|
                            *m == (#[trigger] xs[j]).robot
                                && *final(m) == xs[j].read
                                && a == xs[j].state
                                && #[trigger] call_ensures(B::read_state, (m,), a))
                        && (xs[j].state is Ok ==> exists|m: &mut S, k: u64, t: Scalar, a: Option<Target>|
                            *m == xs[j].source
                                && *final(m) == xs[j].asked
                                && k == loop_at(xs, l, j as nat).ticks
                                && t == time_of(loop_at(xs, l, j as nat))
                                && a == xs[j].target
                                && #[trigger] call_ensures(S::target, (m, k, t), a))
                        && (sends(xs[j]) is Some ==> match xs[j].mode {
                            ControlMode::Position => exists|m: &mut B, c: &[Scalar], a: Result<(), Error>|
                                *m == xs[j].read
                                    && *final(m) == xs[j].sent
                                    && sends(xs[j]) == Some(c@)
                                    && a == xs[j].taken
                                    && #[trigger] call_ensures(B::command_joint_positions, (m, c), a),
                            ControlMode::Velocity => exists|m: &mut B, c: &[Scalar], a: Result<(), Error>|
                                *m == xs[j].read
                                    && *final(m) == xs[j].sent
                                    && sends(xs[j]) == Some(c@)
                                    && a == xs[j].taken
                                    && #[trigger] call_ensures(B::command_joint_velocities, (m, c), a),
                            ControlMode::Torque => exists|m: &mut B, c: &[Scalar], a: Result<(), Error>|
                                *m == xs[j].read
                                    && *final(m) == xs[j].sent
                                    && sends(xs[j]) == Some(c@)
                                    && a == xs[j].taken
                                    && #[trigger] call_ensures(B::command_joint_torques, (m, c), a),
                        })
                        && (integrates(xs[j]) ==> exists|m: &mut B, h: Scalar, a: Result<(), Error>|
                            *m == xs[j].sent
                                && *final(m) == xs[j].after
                                && h == loop_at(xs, l, j as nat).period
                                && a == xs[j].moved
                                && #[trigger] call_ensures(B::step, (m, h), a)),
            decreases n - i,
        {
            let ghost past = xs;
            let ghost before = sink.frames@;
            let (r, x) = self.traced(sp, dynamics);
            proof {
                lemma_ran(past, x@, l, old(self).drives(), *old(sp), *dynamics);
                xs = past.push(x@);
                assert forall|k: int| 0 <= k < i implies #[trigger] frame_at(xs, l, k) == Ok::<
                    FrameV,
                    Error,
                >(before[k]@) by {
                    assert(frame_at(past, l, k) == frame_at(xs, l, k));
                }
            }
            assert(forall|j: int|
                        0 <= j < xs.len() ==> (exists|m: &mut B, a: Result<JointState, Error>|
                            *m == (#[trigger] xs[j]).robot
                                && *final(m) == xs[j].read
                                && a == xs[j].state
                                && #[trigger] call_ensures(B::read_state, (m,), a))
                        && (xs[j].state is Ok ==> exists|m: &mut S, k: u64, t: Scalar, a: Option<Target>|
                            *m == xs[j].source
                                && *final(m) == xs[j].asked
                                && k == loop_at(xs, l, j as nat).ticks
                                && t == time_of(loop_at(xs, l, j as nat))
                                && a == xs[j].target
                                && #[trigger] call_ensures(S::target, (m, k, t), a))
                        && (sends(xs[j]) is Some ==> match xs[j].mode {
                            ControlMode::Position => exists|m: &mut B, c: &[Scalar], a: Result<(), Error>|
                                *m == xs[j].read
                                    && *final(m) == xs[j].sent
                                    && sends(xs[j]) == Some(c@)
                                    && a == xs[j].taken
                                    && #[trigger] call_ensures(B::command_joint_positions, (m, c), a),
                            ControlMode::Velocity => exists|m: &mut B, c: &[Scalar], a: Result<(), Error>|
                                *m == xs[j].read
                                    && *final(m) == xs[j].sent
                                    && sends(xs[j]) == Some(c@)
                                    && a == xs[j].taken
                                    && #[trigger] call_ensures(B::command_joint_velocities, (m, c), a),
                            ControlMode::Torque => exists|m: &mut B, c: &[Scalar], a: Result<(), Error>|
                                *m == xs[j].read
                                    && *final(m) == xs[j].sent
                                    && sends(xs[j]) == Some(c@)
                                    && a == xs[j].taken
                                    && #[trigger] call_ensures(B::command_joint_torques, (m, c), a),
                        })
                        && (integrates(xs[j]) ==> exists|m: &mut B, h: Scalar, a: Result<(), Error>|
                            *m == xs[j].sent
                                && *final(m) == xs[j].after
                                && h == loop_at(xs, l, j as nat).period
                                && a == xs[j].moved
                                && #[trigger] call_ensures(B::step, (m, h), a)));
            match r {
                Ok(f) => {
                    sink.push(&f);
                    proof {
                        assert forall|k: int| 0 <= k < i + 1 implies frame_at(xs, l, k) == Ok::<
                            FrameV,
                            Error,
                        >((#[trigger] sink.frames@[k])@) by {
                            if k < i {
                                assert(sink.frames@.drop_last()[k] == before[k]);
                            } else {
                                assert(sink.frames@[k] == sink.frames@.last());
                            }
                        }
                    }
                },
                Err(e) => {
                    return Err(e);
                },
            }
            i = i + 1;
        }
        Ok(sink.frames)
    }

    /// Runs up to `ticks` ticks, shows every `emit_every`-th frame, the first one too,
    /// and stops when no more are wanted. Gives how many ticks were run.
    pub fn run_stream_every<
        S: Setpoint,
        V: FrameViewer,
        D: Fn(&[Scalar], &[Scalar], &[Scalar]) -> Result<Vec<Scalar>, Error>,
    >(&mut self, sp: &mut S, ticks: usize, emit_every: usize, viewer: &mut V, dynamics: &D) -> (r:
        Result<usize, Error>)
        requires
            moves_any(*dynamics),
            old(self).ticks() + ticks <= u64::MAX,
        ensures
            emit_every == 0 ==> (r matches Err(e) && e@ == ErrorV::Backend(
                "run_stream emit_every must be >= 1, got 0"@,
            )) && final(self).state() == old(self).state() && final(self).drives() == old(
                self,
            ).drives() && *final(sp) == *old(sp) && *final(viewer) == *old(viewer),
            emit_every > 0 ==> exists|xs: Seq<TickV<B, S>>, vs: Seq<V>|
                    #[trigger] ran(
                        xs,
                        old(self).state(),
                        old(self).drives(),
                        *old(sp),
                        final(self).drives(),
                        *final(sp),
                        *dynamics,
                    )
                    && final(self).state() == loop_at(xs, old(self).state(), xs.len())
                    && #[trigger] watched(
                        vs,
                        *old(viewer),
                        *final(viewer),
                    ) && (match r {
                        Ok(done) => xs.len() == done && done <= ticks && all_framed(
                            xs,
                            old(self).state(),
                            done as int,
                        )
                        && vs.len() == shown_of(done as int, emit_every as int) + 1
                        && (done < ticks ==> vs.len() > 1)
                            && forall|j: int|
                                0 <= j < vs.len() - 1 ==> exists|m: &mut V, f: &Frame, more: bool|
                                    *m == (#[trigger] vs[j]) && *final(m) == vs[j + 1] && frame_at(
                                        xs,
                                        old(self).state(),
                                        nth(j, emit_every as int),
                                    ) == Ok::<FrameV, Error>(f@)
                                    && (more || (j == vs.len() - 2 && done == nth(j, emit_every as int) + 1))
                                    && (done < ticks && j == vs.len() - 2 ==> !more)
                                    && #[trigger] call_ensures(
                                        V::show,
                                        (m, f),
                                        more,
                                    ),
                        Err(e) => 1 <= xs.len() <= ticks && all_framed(
                            xs,
                            old(self).state(),
                            xs.len() - 1,
                        )
                        && frame_at(xs, old(self).state(), xs.len() - 1) == Err::<FrameV, Error>(e)
                        && vs.len()
                            == shown_of(xs.len() - 1, emit_every as int) + 1 && forall|j: int|
                                0 <= j < vs.len() - 1 ==> exists|m: &mut V, f: &Frame, more: bool|
                                    *m == (#[trigger] vs[j]) && *final(m) == vs[j + 1] && frame_at(
                                        xs,
                                        old(self).state(),
                                        nth(j, emit_every as int),
                                    ) == Ok::<FrameV, Error>(f@) && (more) && #[trigger] call_ensures(
                                        V::show,
                                        (m, f),
                                        more,
                                    ),
                    }) && forall|j: int|
                        0 <= j < xs.len() ==> (exists|m: &mut B, a: Result<JointState, Error>|
                            *m == (#[trigger] xs[j]).robot
                                && *final(m) == xs[j].read
                                && a == xs[j].state
                                && #[trigger] call_ensures(B::read_state, (m,), a))
                        && (xs[j].state is Ok ==> exists|m: &mut S, k: u64, t: Scalar, a: Option<Target>|
                            *m == xs[j].source
                                && *final(m) == xs[j].asked
                                && k == loop_at(xs, old(self).state(), j as nat).ticks
                                && t == time_of(loop_at(xs, old(self).state(), j as nat))
                                && a == xs[j].target
                                && #[trigger] call_ensures(S::target, (m, k, t), a))
                        && (sends(xs[j]) is Some ==> match xs[j].mode {
                            ControlMode::Position => exists|m: &mut B, c: &[Scalar], a: Result<(), Error>|
                                *m == xs[j].read
                                    && *final(m) == xs[j].sent
                                    && sends(xs[j]) == Some(c@)
                                    && a == xs[j].taken
                                    && #[trigger] call_ensures(B::command_joint_positions, (m, c), a),
                            ControlMode::Velocity => exists|m: &mut B, c: &[Scalar], a: Result<(), Error>|
                                *m == xs[j].read
                                    && *final(m) == xs[j].sent
                                    && sends(xs[j]) == Some(c@)
                                    && a == xs[j].taken
                                    && #[trigger] call_ensures(B::command_joint_velocities, (m, c), a),
                            ControlMode::Torque => exists|m: &mut B, c: &[Scalar], a: Result<(), Error>|
                                *m == xs[j].read
                                    && *final(m) == xs[j].sent
                                    && sends(xs[j]) == Some(c@)
                                    && a == xs[j].taken
                                    && #[trigger] call_ensures(B::command_joint_torques, (m, c), a),
                        })
                        && (integrates(xs[j]) ==> exists|m: &mut B, h: Scalar, a: Result<(), Error>|
                            *m == xs[j].sent
                                && *final(m) == xs[j].after
                                && h == loop_at(xs, old(self).state(), j as nat).period
                                && a == xs[j].moved
                                && #[trigger] call_ensures(B::step, (m, h), a)),
    {
        if emit_every == 0 {
            return Err(backend_error("run_stream emit_every must be >= 1, got 0"));
        }
        let mut i: usize = 0;
        let ghost l = self.state();
        let ghost e = emit_every as int;
        let ghost mut xs: Seq<TickV<B, S>> = Seq::empty();
        let ghost mut vs: Seq<V> = seq![*viewer];
        assert(loop_at(xs, l, 0) == l) by {
            reveal(loop_at);
        }
        while i < ticks
            invariant
                i <= ticks,
                emit_every > 0,
                e == emit_every,
                moves_any(*dynamics),
                l == old(self).state(),
                old(self).ticks() + ticks <= u64::MAX,
                self.ticks() == old(self).ticks() + i,
                xs.len() == i,
                ran(xs, l, old(self).drives(), *old(sp), self.drives(), *sp, *dynamics),
                self.state() == loop_at(xs, l, i as nat),
                all_framed(xs, l, i as int),
                forall|j: int|
                        0 <= j < xs.len() ==> (exists|m: &mut B, a: Result<JointState, Error>|
                            *m == (#[trigger] xs[j]).robot
                                && *final(m) == xs[j].read
                                && a == xs[j].state
                                && #[trigger] call_ensures(B::read_state, (m,), a))
                        && (xs[j].state is Ok ==> exists|m: &mut S, k: u64, t: Scalar, a: Option<Target>|
                            *m == xs[j].source
                                && *final(m) == xs[j].asked
                                && k == loop_at(xs, l, j as nat).ticks
                                && t == time_of(loop_at(xs, l, j as nat))
                                && a == xs[j].target
                                && #[trigger] call_ensures(S::target, (m, k, t), a))
                        && (sends(xs[j]) is Some ==> match xs[j].mode {
                            ControlMode::Position => exists|m: &mut B, c: &[Scalar], a: Result<(), Error>|
                                *m == xs[j].read
                                    && *final(m) == xs[j].sent
                                    && sends(xs[j]) == Some(c@)
                                    && a == xs[j].taken
                                    && #[trigger] call_ensures(B::command_joint_positions, (m, c), a),
                            ControlMode::Velocity => exists|m: &mut B, c: &[Scalar], a: Result<(), Error>|
                                *m == xs[j].read
                                    && *final(m) == xs[j].sent
                                    && sends(xs[j]) == Some(c@)
                                    && a == xs[j].taken
                                    && #[trigger] call_ensures(B::command_joint_velocities, (m, c), a),
                            ControlMode::Torque => exists|m: &mut B, c: &[Scalar], a: Result<(), Error>|
                                *m == xs[j].read
                                    && *final(m) == xs[j].sent
                                    && sends(xs[j]) == Some(c@)
                                    && a == xs[j].taken
                                    && #[trigger] call_ensures(B::command_joint_torques, (m, c), a),
                        })
                        && (integrates(xs[j]) ==> exists|m: &mut B, h: Scalar, a: Result<(), Error>|
                            *m == xs[j].sent
                                && *final(m) == xs[j].after
                                && h == loop_at(xs, l, j as nat).period
                                && a == xs[j].moved
                                && #[trigger] call_ensures(B::step, (m, h), a)),
                vs.len() == shown_of(i as int, e) + 1,
                vs[0] == *old(viewer),
                vs.last() == *viewer,
                forall|j: int| 0 <= j < vs.len() - 1 ==> 0 <= #[trigger] nth(j, e) < i,
                forall|j: int|
                    0 <= j < vs.len() - 1 ==> exists|m: &mut V, f: &Frame, more: bool|
                        *m == (#[trigger] vs[j]) && *final(m) == vs[j + 1] && frame_at(xs, l, nth(j, e))
                            == Ok::<FrameV, Error>(f@) && more && #[trigger] call_ensures(
                            V::show,
                            (m, f),
                            more,
                        ),
            decreases ticks - i,
        {
            let ghost past = xs;
            let (r, x) = self.traced(sp, dynamics);
            proof {
                lemma_shown(i as int, e);
                lemma_ran(past, x@, l, old(self).drives(), *old(sp), *dynamics);
                xs = past.push(x@);
                assert forall|k: int| 0 <= k < i implies #[trigger] frame_at(xs, l, k) == frame_at(
                    past,
                    l,
                    k,
                ) by {
                    assert(xs[k] == past[k]);
                }
                assert forall|k: int| 0 <= k < i implies (#[trigger] frame_at(xs, l, k)) is Ok by {
                    assert(frame_at(past, l, k) is Ok);
                }
            }
            assert(forall|j: int|
                        0 <= j < xs.len() ==> (exists|m: &mut B, a: Result<JointState, Error>|
                            *m == (#[trigger] xs[j]).robot
                                && *final(m) == xs[j].read
                                && a == xs[j].state
                                && #[trigger] call_ensures(B::read_state, (m,), a))
                        && (xs[j].state is Ok ==> exists|m: &mut S, k: u64, t: Scalar, a: Option<Target>|
                            *m == xs[j].source
                                && *final(m) == xs[j].asked
                                && k == loop_at(xs, l, j as nat).ticks
                                && t == time_of(loop_at(xs, l, j as nat))
                                && a == xs[j].target
                                && #[trigger] call_ensures(S::target, (m, k, t), a))
                        && (sends(xs[j]) is Some ==> match xs[j].mode {
                            ControlMode::Position => exists|m: &mut B, c: &[Scalar], a: Result<(), Error>|
                                *m == xs[j].read
                                    && *final(m) == xs[j].sent
                                    && sends(xs[j]) == Some(c@)
                                    && a == xs[j].taken
                                    && #[trigger] call_ensures(B::command_joint_positions, (m, c), a),
                            ControlMode::Velocity => exists|m: &mut B, c: &[Scalar], a: Result<(), Error>|
                                *m == xs[j].read
                                    && *final(m) == xs[j].sent
                                    && sends(xs[j]) == Some(c@)
                                    && a == xs[j].taken
                                    && #[trigger] call_ensures(B::command_joint_velocities, (m, c), a),
                            ControlMode::Torque => exists|m: &mut B, c: &[Scalar], a: Result<(), Error>|
                                *m == xs[j].read
                                    && *final(m) == xs[j].sent
                                    && sends(xs[j]) == Some(c@)
                                    && a == xs[j].taken
                                    && #[trigger] call_ensures(B::command_joint_torques, (m, c), a),
                        })
                        && (integrates(xs[j]) ==> exists|m: &mut B, h: Scalar, a: Result<(), Error>|
                            *m == xs[j].sent
                                && *final(m) == xs[j].after
                                && h == loop_at(xs, l, j as nat).period
                                && a == xs[j].moved
                                && #[trigger] call_ensures(B::step, (m, h), a)));
            match r {
                Ok(f) => {
                    if i % emit_every == 0 {
                        let ghost known = vs;
                        let ghost told = frame_at(xs, l, i as int);
                        let more = viewer.show(&f);
                        proof {
                            vs = known.push(*viewer);
                        }
                        assert(exists|m: &mut V, f: &Frame, w: bool|
                            *m == known.last() && *final(m) == vs.last() && w == more && told
                                == Ok::<FrameV, Error>(f@) && #[trigger] call_ensures(
                                V::show,
                                (m, f),
                                w,
                            ));
                        assert(forall|j: int|
                                0 <= j < vs.len() - 1 ==> exists|m: &mut V, f: &Frame, w: bool|
                                    *m == (#[trigger] vs[j])
                                    && *final(m) == vs[j + 1]
                                    && frame_at(xs, l, nth(j, e)) == Ok::<
                                        FrameV,
                                        Error,
                                    >(f@)
                                    && (w == (more || j < vs.len() - 2))
                                    && #[trigger] call_ensures(V::show, (m, f), w));
                        assert(watched(vs, *old(viewer), *viewer));
                        if !more {
                            return Ok(i + 1);
                        }
                    }
                },
                Err(e) => {
                    assert(watched(vs, *old(viewer), *viewer));
                    return Err(e);
                },
            }
            i = i + 1;
        }
        assert(watched(vs, *old(viewer), *viewer));
        Ok(ticks)
    }

    /// Runs up to `ticks` ticks and shows every frame.
    #[verifier::rlimit(60)]
    pub fn run_stream<
        S: Setpoint,
        V: FrameViewer,
        D: Fn(&[Scalar], &[Scalar], &[Scalar]) -> Result<Vec<Scalar>, Error>,
    >(&mut self, sp: &mut S, ticks: usize, viewer: &mut V, dynamics: &D) -> (r: Result<
        usize,
        Error,
    >)
        requires
            moves_any(*dynamics),
            old(self).ticks() + ticks <= u64::MAX,
        ensures
            exists|xs: Seq<TickV<B, S>>, vs: Seq<V>|
                #[trigger] ran(
                    xs,
                    old(self).state(),
                    old(self).drives(),
                    *old(sp),
                    final(self).drives(),
                    *final(sp),
                    *dynamics,
                ) && final(self).state() == loop_at(xs, old(self).state(), xs.len()) && #[trigger] watched(
                    vs,
                    *old(viewer),
                    *final(viewer),
                ) && (match r {
                    Ok(done) => xs.len() == done && done <= ticks && all_framed(
                        xs,
                        old(self).state(),
                        done as int,
                    )
                    && vs.len() == shown_of(done as int, 1usize as int) + 1
                    && (done < ticks ==> vs.len() > 1)
                        && forall|j: int|
                            0 <= j < vs.len() - 1 ==> exists|m: &mut V, f: &Frame, more: bool|
                                *m == (#[trigger] vs[j]) && *final(m) == vs[j + 1] && frame_at(
                                    xs,
                                    old(self).state(),
                                    nth(j, 1usize as int),
                                ) == Ok::<FrameV, Error>(f@)
                                && (more || (j == vs.len() - 2 && done == nth(j, 1usize as int) + 1))
                                && (done < ticks && j == vs.len() - 2 ==> !more)
                                && #[trigger] call_ensures(
                                    V::show,
                                    (m, f),
                                    more,
                                ),
                    Err(e) => 1 <= xs.len() <= ticks && all_framed(
                        xs,
                        old(self).state(),
                        xs.len() - 1,
                    )
                    && frame_at(xs, old(self).state(), xs.len() - 1) == Err::<FrameV, Error>(e)
                    && vs.len()
                        == shown_of(xs.len() - 1, 1usize as int) + 1 && forall|j: int|
                            0 <= j < vs.len() - 1 ==> exists|m: &mut V, f: &Frame, more: bool|
                                *m == (#[trigger] vs[j]) && *final(m) == vs[j + 1] && frame_at(
                                    xs,
                                    old(self).state(),
                                    nth(j, 1usize as int),
                                ) == Ok::<FrameV, Error>(f@) && (more) && #[trigger] call_ensures(
                                    V::show,
                                    (m, f),
                                    more,
                                ),
                }) && forall|j: int|
                    0 <= j < xs.len() ==> (exists|m: &mut B, a: Result<JointState, Error>|
                        *m == (#[trigger] xs[j]).robot
                            && *final(m) == xs[j].read
                            && a == xs[j].state
                            && #[trigger] call_ensures(B::read_state, (m,), a))
                    && (xs[j].state is Ok ==> exists|m: &mut S, k: u64, t: Scalar, a: Option<Target>|
                        *m == xs[j].source
                            && *final(m) == xs[j].asked
                            && k == loop_at(xs, old(self).state(), j as nat).ticks
                            && t == time_of(loop_at(xs, old(self).state(), j as nat))
                            && a == xs[j].target
                            && #[trigger] call_ensures(S::target, (m, k, t), a))
                    && (sends(xs[j]) is Some ==> match xs[j].mode {
                        ControlMode::Position => exists|m: &mut B, c: &[Scalar], a: Result<(), Error>|
                            *m == xs[j].read
                                && *final(m) == xs[j].sent
                                && sends(xs[j]) == Some(c@)
                                && a == xs[j].taken
                                && #[trigger] call_ensures(B::command_joint_positions, (m, c), a),
                        ControlMode::Velocity => exists|m: &mut B, c: &[Scalar], a: Result<(), Error>|
                            *m == xs[j].read
                                && *final(m) == xs[j].sent
                                && sends(xs[j]) == Some(c@)
                                && a == xs[j].taken
                                && #[trigger] call_ensures(B::command_joint_velocities, (m, c), a),
                        ControlMode::Torque => exists|m: &mut B, c: &[Scalar], a: Result<(), Error>|
                            *m == xs[j].read
                                && *final(m) == xs[j].sent
                                && sends(xs[j]) == Some(c@)
                                && a == xs[j].taken
                                && #[trigger] call_ensures(B::command_joint_torques, (m, c), a),
                    })
                    && (integrates(xs[j]) ==> exists|m: &mut B, h: Scalar, a: Result<(), Error>|
                        *m == xs[j].sent
                            && *final(m) == xs[j].after
                            && h == loop_at(xs, old(self).state(), j as nat).period
                            && a == xs[j].moved
                            && #[trigger] call_ensures(B::step, (m, h), a)),
    {
        self.run_stream_every(sp, ticks, 1, viewer, dynamics)
    }
}

/// The first of some lengths that is below `n`.
fn shortest(n: usize, a: usize, b: usize, c: usize, d: usize) -> (r: Option<usize>)
    ensures
        short_of(n as nat, a as nat, b as nat, c as nat, d as nat) == (match r {
            Some(x) => Some(x as nat),
            None => None,
        }),
{
    if a < n {
        Some(a)
    } else if b < n {
        Some(b)
    } else if c < n {
        Some(c)
    } else if d < n {
        Some(d)
    } else {
        None
    }
}

/// Nothing that a stopped monitor lets through moves: the target is the last command.
pub proof fn law_stopped_loop_holds(m: MonitorV, target: Option<TargetV>, n: nat, dt: Scalar)
    requires
        m.estopped,
    ensures
        resolved(m, target, n, dt).0.q == m.prev,
        resolved(m, target, n, dt).0.warn,
        resolved(m, target, n, dt).1.estopped,
{
}

/// Dynamics that give the same answer to the same question.
pub open spec fn repeatable<D: Fn(&[Scalar], &[Scalar], &[Scalar]) -> Result<Vec<Scalar>, Error>>(
    f: D,
) -> bool {
    forall|
        q: &[Scalar],
        qd: &[Scalar],
        a: &[Scalar],
        r: Result<Vec<Scalar>, Error>,
        x: &[Scalar],
        v: &[Scalar],
        b: &[Scalar],
        s: Result<Vec<Scalar>, Error>,
    |
        q@ == x@ && qd@ == v@ && a@ == b@ && #[trigger] call_ensures(f, (q, qd, a), r)
            && #[trigger] call_ensures(f, (x, v, b), s) ==> same_torques(r, s)
}

/// Torques that are the same, or none both times.
pub open spec fn same_torques(a: Result<Vec<Scalar>, Error>, b: Result<Vec<Scalar>, Error>) -> bool {
    match (a, b) {
        (Ok(x), Ok(y)) => x@ == y@,
        (Err(_), Err(_)) => true,
        _ => false,
    }
}

/// Readings of which a loop sees the same.
pub open spec fn same_reading(a: Result<JointState, Error>, b: Result<JointState, Error>) -> bool {
    match (a, b) {
        (Ok(x), Ok(y)) => x.q@ == y.q@ && speeds(x) == speeds(y),
        (Err(_), Err(_)) => true,
        _ => false,
    }
}

/// Answers that are good, or bad, both times.
pub open spec fn same_answer(a: Result<(), Error>, b: Result<(), Error>) -> bool {
    a is Ok <==> b is Ok
}

proof fn lemma_same_tick<
    B: RobotBackend,
    S: Setpoint,
    D: Fn(&[Scalar], &[Scalar], &[Scalar]) -> Result<Vec<Scalar>, Error>,
>(
    x: TickV<B, S>,
    y: TickV<B, S>,
    l: LoopV,
    dynamics: D,
    alike: spec_fn(B, B) -> bool,
    akin: spec_fn(S, S) -> bool,
)
    requires
        (forall|m: &mut B, w: &mut B, a: Result<JointState, Error>, b: Result<JointState, Error>|
            alike(*m, *w) && #[trigger] call_ensures(B::read_state, (m,), a)
                && #[trigger] call_ensures(B::read_state, (w,), b) ==> same_reading(a, b) && alike(
                *final(m),
                *final(w),
            )),
        (forall|m: B, w: B, a: ControlMode, b: ControlMode|
            alike(m, w) && #[trigger] call_ensures(B::mode, (&m,), a) && #[trigger] call_ensures(
                B::mode,
                (&w,),
                b,
            ) ==> a == b),
        (forall|
            m: &mut B,
            w: &mut B,
            c: &[Scalar],
            d: &[Scalar],
            a: Result<(), Error>,
            b: Result<(), Error>,
        |
            alike(*m, *w) && c@ == d@ && #[trigger] call_ensures(
                B::command_joint_positions,
                (m, c),
                a,
            ) && #[trigger] call_ensures(B::command_joint_positions, (w, d), b) ==> same_answer(a, b)
                && alike(*final(m), *final(w))),
        (forall|
            m: &mut B,
            w: &mut B,
            c: &[Scalar],
            d: &[Scalar],
            a: Result<(), Error>,
            b: Result<(), Error>,
        |
            alike(*m, *w) && c@ == d@ && #[trigger] call_ensures(
                B::command_joint_velocities,
                (m, c),
                a,
            ) && #[trigger] call_ensures(B::command_joint_velocities, (w, d), b) ==> same_answer(a, b)
                && alike(*final(m), *final(w))),
        (forall|
            m: &mut B,
            w: &mut B,
            c: &[Scalar],
            d: &[Scalar],
            a: Result<(), Error>,
            b: Result<(), Error>,
        |
            alike(*m, *w) && c@ == d@ && #[trigger] call_ensures(
                B::command_joint_torques,
                (m, c),
                a,
            ) && #[trigger] call_ensures(B::command_joint_torques, (w, d), b) ==> same_answer(a, b)
                && alike(*final(m), *final(w))),
        (forall|m: &mut B, w: &mut B, h: Scalar, a: Result<(), Error>, b: Result<(), Error>|
            alike(*m, *w) && #[trigger] call_ensures(B::step, (m, h), a)
                && #[trigger] call_ensures(B::step, (w, h), b) ==> same_answer(a, b) && alike(
                *final(m),
                *final(w),
            )),
        (forall|m: &mut S, w: &mut S, k: u64, t: Scalar, a: Option<Target>, b: Option<Target>|
            akin(*m, *w) && #[trigger] call_ensures(S::target, (m, k, t), a)
                && #[trigger] call_ensures(S::target, (w, k, t), b) ==> target_view(a)
                == target_view(b) && akin(*final(m), *final(w))),
        repeatable(dynamics),
        ticked(x, l, dynamics),
        ticked(y, l, dynamics),
        alike(x.robot, y.robot),
        akin(x.source, y.source),
        (exists|m: &mut B, a: Result<JointState, Error>|
            *m == x.robot
                && *final(m) == x.read
                && a == x.state
                && #[trigger] call_ensures(B::read_state, (m,), a))
        && (x.state is Ok ==> exists|m: &mut S, k: u64, t: Scalar, a: Option<Target>|
            *m == x.source
                && *final(m) == x.asked
                && k == l.ticks
                && t == time_of(l)
                && a == x.target
                && #[trigger] call_ensures(S::target, (m, k, t), a))
        && (sends(x) is Some ==> match x.mode {
            ControlMode::Position => exists|m: &mut B, c: &[Scalar], a: Result<(), Error>|
                *m == x.read
                    && *final(m) == x.sent
                    && sends(x) == Some(c@)
                    && a == x.taken
                    && #[trigger] call_ensures(B::command_joint_positions, (m, c), a),
            ControlMode::Velocity => exists|m: &mut B, c: &[Scalar], a: Result<(), Error>|
                *m == x.read
                    && *final(m) == x.sent
                    && sends(x) == Some(c@)
                    && a == x.taken
                    && #[trigger] call_ensures(B::command_joint_velocities, (m, c), a),
            ControlMode::Torque => exists|m: &mut B, c: &[Scalar], a: Result<(), Error>|
                *m == x.read
                    && *final(m) == x.sent
                    && sends(x) == Some(c@)
                    && a == x.taken
                    && #[trigger] call_ensures(B::command_joint_torques, (m, c), a),
        })
        && (integrates(x) ==> exists|m: &mut B, h: Scalar, a: Result<(), Error>|
            *m == x.sent
                && *final(m) == x.after
                && h == l.period
                && a == x.moved
                && #[trigger] call_ensures(B::step, (m, h), a)),
        (exists|m: &mut B, a: Result<JointState, Error>|
            *m == y.robot
                && *final(m) == y.read
                && a == y.state
                && #[trigger] call_ensures(B::read_state, (m,), a))
        && (y.state is Ok ==> exists|m: &mut S, k: u64, t: Scalar, a: Option<Target>|
            *m == y.source
                && *final(m) == y.asked
                && k == l.ticks
                && t == time_of(l)
                && a == y.target
                && #[trigger] call_ensures(S::target, (m, k, t), a))
        && (sends(y) is Some ==> match y.mode {
            ControlMode::Position => exists|m: &mut B, c: &[Scalar], a: Result<(), Error>|
                *m == y.read
                    && *final(m) == y.sent
                    && sends(y) == Some(c@)
                    && a == y.taken
                    && #[trigger] call_ensures(B::command_joint_positions, (m, c), a),
            ControlMode::Velocity => exists|m: &mut B, c: &[Scalar], a: Result<(), Error>|
                *m == y.read
                    && *final(m) == y.sent
                    && sends(y) == Some(c@)
                    && a == y.taken
                    && #[trigger] call_ensures(B::command_joint_velocities, (m, c), a),
            ControlMode::Torque => exists|m: &mut B, c: &[Scalar], a: Result<(), Error>|
                *m == y.read
                    && *final(m) == y.sent
                    && sends(y) == Some(c@)
                    && a == y.taken
                    && #[trigger] call_ensures(B::command_joint_torques, (m, c), a),
        })
        && (integrates(y) ==> exists|m: &mut B, h: Scalar, a: Result<(), Error>|
            *m == y.sent
                && *final(m) == y.after
                && h == l.period
                && a == y.moved
                && #[trigger] call_ensures(B::step, (m, h), a)),
    ensures
        alike(x.after, y.after),
        akin(x.asked, y.asked),
        next_loop(x, l) == next_loop(y, l),
        outcome(x, l) is Ok <==> outcome(y, l) is Ok,
        outcome(x, l) is Ok ==> outcome(x, l)->Ok_0 == outcome(y, l)->Ok_0,
{
    assert(alike(x.read, y.read) && same_reading(x.state, y.state));
    if x.state is Ok {
        assert(akin(x.asked, y.asked) && target_view(x.target) == target_view(y.target));
        assert(x.mode == y.mode);
        assert(sends(x) == sends(y));
        if sends(x) is Some {
            assert(alike(x.sent, y.sent) && same_answer(x.taken, y.taken));
        }
    }
}

/// Two runs of the same loop, from robots and sources that are alike, tick alike: the same
/// frames, in the same order. What makes robots and sources alike is for the caller to say:
/// it takes that those that are alike answer the same question alike, and are alike
/// afterwards, and that the dynamics answer a repeated question as before.
pub proof fn law_same_start_same_ticks<
    B: RobotBackend,
    S: Setpoint,
    D: Fn(&[Scalar], &[Scalar], &[Scalar]) -> Result<Vec<Scalar>, Error>,
>(
    xs: Seq<TickV<B, S>>,
    ys: Seq<TickV<B, S>>,
    l: LoopV,
    x_start: (B, S),
    x_end: (B, S),
    y_start: (B, S),
    y_end: (B, S),
    dynamics: D,
    alike: spec_fn(B, B) -> bool,
    akin: spec_fn(S, S) -> bool,
    k: int,
)
    requires
        (forall|m: &mut B, w: &mut B, a: Result<JointState, Error>, b: Result<JointState, Error>|
            alike(*m, *w) && #[trigger] call_ensures(B::read_state, (m,), a)
                && #[trigger] call_ensures(B::read_state, (w,), b) ==> same_reading(a, b) && alike(
                *final(m),
                *final(w),
            )),
        (forall|m: B, w: B, a: ControlMode, b: ControlMode|
            alike(m, w) && #[trigger] call_ensures(B::mode, (&m,), a) && #[trigger] call_ensures(
                B::mode,
                (&w,),
                b,
            ) ==> a == b),
        (forall|
            m: &mut B,
            w: &mut B,
            c: &[Scalar],
            d: &[Scalar],
            a: Result<(), Error>,
            b: Result<(), Error>,
        |
            alike(*m, *w) && c@ == d@ && #[trigger] call_ensures(
                B::command_joint_positions,
                (m, c),
                a,
            ) && #[trigger] call_ensures(B::command_joint_positions, (w, d), b) ==> same_answer(a, b)
                && alike(*final(m), *final(w))),
        (forall|
            m: &mut B,
            w: &mut B,
            c: &[Scalar],
            d: &[Scalar],
            a: Result<(), Error>,
            b: Result<(), Error>,
        |
            alike(*m, *w) && c@ == d@ && #[trigger] call_ensures(
                B::command_joint_velocities,
                (m, c),
                a,
            ) && #[trigger] call_ensures(B::command_joint_velocities, (w, d), b) ==> same_answer(a, b)
                && alike(*final(m), *final(w))),
        (forall|
            m: &mut B,
            w: &mut B,
            c: &[Scalar],
            d: &[Scalar],
            a: Result<(), Error>,
            b: Result<(), Error>,
        |
            alike(*m, *w) && c@ == d@ && #[trigger] call_ensures(
                B::command_joint_torques,
                (m, c),
                a,
            ) && #[trigger] call_ensures(B::command_joint_torques, (w, d), b) ==> same_answer(a, b)
                && alike(*final(m), *final(w))),
        (forall|m: &mut B, w: &mut B, h: Scalar, a: Result<(), Error>, b: Result<(), Error>|
            alike(*m, *w) && #[trigger] call_ensures(B::step, (m, h), a)
                && #[trigger] call_ensures(B::step, (w, h), b) ==> same_answer(a, b) && alike(
                *final(m),
                *final(w),
            )),
        (forall|m: &mut S, w: &mut S, k: u64, t: Scalar, a: Option<Target>, b: Option<Target>|
            akin(*m, *w) && #[trigger] call_ensures(S::target, (m, k, t), a)
                && #[trigger] call_ensures(S::target, (w, k, t), b) ==> target_view(a)
                == target_view(b) && akin(*final(m), *final(w))),
        repeatable(dynamics),
        alike(x_start.0, y_start.0),
        akin(x_start.1, y_start.1),
        ran(xs, l, x_start.0, x_start.1, x_end.0, x_end.1, dynamics),
        ran(ys, l, y_start.0, y_start.1, y_end.0, y_end.1, dynamics),
        0 <= k < xs.len(),
        k < ys.len(),
        forall|j: int|
            0 <= j < xs.len() ==> (exists|m: &mut B, a: Result<JointState, Error>|
                *m == (#[trigger] xs[j]).robot
                    && *final(m) == xs[j].read
                    && a == xs[j].state
                    && #[trigger] call_ensures(B::read_state, (m,), a))
            && (xs[j].state is Ok ==> exists|m: &mut S, k: u64, t: Scalar, a: Option<Target>|
                *m == xs[j].source
                    && *final(m) == xs[j].asked
                    && k == loop_at(xs, l, j as nat).ticks
                    && t == time_of(loop_at(xs, l, j as nat))
                    && a == xs[j].target
                    && #[trigger] call_ensures(S::target, (m, k, t), a))
            && (sends(xs[j]) is Some ==> match xs[j].mode {
                ControlMode::Position => exists|m: &mut B, c: &[Scalar], a: Result<(), Error>|
                    *m == xs[j].read
                        && *final(m) == xs[j].sent
                        && sends(xs[j]) == Some(c@)
                        && a == xs[j].taken
                        && #[trigger] call_ensures(B::command_joint_positions, (m, c), a),
                ControlMode::Velocity => exists|m: &mut B, c: &[Scalar], a: Result<(), Error>|
                    *m == xs[j].read
                        && *final(m) == xs[j].sent
                        && sends(xs[j]) == Some(c@)
                        && a == xs[j].taken
                        && #[trigger] call_ensures(B::command_joint_velocities, (m, c), a),
                ControlMode::Torque => exists|m: &mut B, c: &[Scalar], a: Result<(), Error>|
                    *m == xs[j].read
                        && *final(m) == xs[j].sent
                        && sends(xs[j]) == Some(c@)
                        && a == xs[j].taken
                        && #[trigger] call_ensures(B::command_joint_torques, (m, c), a),
            })
            && (integrates(xs[j]) ==> exists|m: &mut B, h: Scalar, a: Result<(), Error>|
                *m == xs[j].sent
                    && *final(m) == xs[j].after
                    && h == loop_at(xs, l, j as nat).period
                    && a == xs[j].moved
                    && #[trigger] call_ensures(B::step, (m, h), a)),
        forall|j: int|
            0 <= j < ys.len() ==> (exists|m: &mut B, a: Result<JointState, Error>|
                *m == (#[trigger] ys[j]).robot
                    && *final(m) == ys[j].read
                    && a == ys[j].state
                    && #[trigger] call_ensures(B::read_state, (m,), a))
            && (ys[j].state is Ok ==> exists|m: &mut S, k: u64, t: Scalar, a: Option<Target>|
                *m == ys[j].source
                    && *final(m) == ys[j].asked
                    && k == loop_at(ys, l, j as nat).ticks
                    && t == time_of(loop_at(ys, l, j as nat))
                    && a == ys[j].target
                    && #[trigger] call_ensures(S::target, (m, k, t), a))
            && (sends(ys[j]) is Some ==> match ys[j].mode {
                ControlMode::Position => exists|m: &mut B, c: &[Scalar], a: Result<(), Error>|
                    *m == ys[j].read
                        && *final(m) == ys[j].sent
                        && sends(ys[j]) == Some(c@)
                        && a == ys[j].taken
                        && #[trigger] call_ensures(B::command_joint_positions, (m, c), a),
                ControlMode::Velocity => exists|m: &mut B, c: &[Scalar], a: Result<(), Error>|
                    *m == ys[j].read
                        && *final(m) == ys[j].sent
                        && sends(ys[j]) == Some(c@)
                        && a == ys[j].taken
                        && #[trigger] call_ensures(B::command_joint_velocities, (m, c), a),
                ControlMode::Torque => exists|m: &mut B, c: &[Scalar], a: Result<(), Error>|
                    *m == ys[j].read
                        && *final(m) == ys[j].sent
                        && sends(ys[j]) == Some(c@)
                        && a == ys[j].taken
                        && #[trigger] call_ensures(B::command_joint_torques, (m, c), a),
            })
            && (integrates(ys[j]) ==> exists|m: &mut B, h: Scalar, a: Result<(), Error>|
                *m == ys[j].sent
                    && *final(m) == ys[j].after
                    && h == loop_at(ys, l, j as nat).period
                    && a == ys[j].moved
                    && #[trigger] call_ensures(B::step, (m, h), a)),
    ensures
        alike(xs[k].robot, ys[k].robot),
        akin(xs[k].source, ys[k].source),
        alike(xs[k].after, ys[k].after),
        akin(xs[k].asked, ys[k].asked),
        loop_at(xs, l, k as nat) == loop_at(ys, l, k as nat),
        loop_at(xs, l, (k + 1) as nat) == loop_at(ys, l, (k + 1) as nat),
        frame_at(xs, l, k) is Ok <==> frame_at(ys, l, k) is Ok,
        frame_at(xs, l, k) is Ok ==> frame_at(xs, l, k)->Ok_0 == frame_at(ys, l, k)->Ok_0,
    decreases k,
{
    if k > 0 {
        law_same_start_same_ticks(
            xs,
            ys,
            l,
            x_start,
            x_end,
            y_start,
            y_end,
            dynamics,
            alike,
            akin,
            k - 1,
        );
        assert(follows(xs, k) && follows(ys, k));
    } else {
        assert(loop_at(xs, l, 0) == loop_at(ys, l, 0)) by {
            reveal(loop_at);
        }
    }
    lemma_same_tick(xs[k], ys[k], loop_at(xs, l, k as nat), dynamics, alike, akin);
    assert(loop_at(xs, l, (k + 1) as nat) == next_loop(xs[k], loop_at(xs, l, k as nat))
        && loop_at(ys, l, (k + 1) as nat) == next_loop(ys[k], loop_at(ys, l, k as nat))) by {
        reveal(loop_at);
    }
}

/// A stream is the recording, thinned out: what is shown as number `j` is, bit for bit,
/// frame `j * every` of what a recording gives that starts from a robot and a source that are
/// alike.
pub proof fn law_stream_shows_the_record<
    B: RobotBackend,
    S: Setpoint,
    D: Fn(&[Scalar], &[Scalar], &[Scalar]) -> Result<Vec<Scalar>, Error>,
>(
    xs: Seq<TickV<B, S>>,
    record: Seq<FrameV>,
    ys: Seq<TickV<B, S>>,
    shown: Seq<FrameV>,
    every: int,
    l: LoopV,
    x_start: (B, S),
    x_end: (B, S),
    y_start: (B, S),
    y_end: (B, S),
    dynamics: D,
    alike: spec_fn(B, B) -> bool,
    akin: spec_fn(S, S) -> bool,
    j: int,
)
    requires
        (forall|m: &mut B, w: &mut B, a: Result<JointState, Error>, b: Result<JointState, Error>|
            alike(*m, *w) && #[trigger] call_ensures(B::read_state, (m,), a)
                && #[trigger] call_ensures(B::read_state, (w,), b) ==> same_reading(a, b) && alike(
                *final(m),
                *final(w),
            )),
        (forall|m: B, w: B, a: ControlMode, b: ControlMode|
            alike(m, w) && #[trigger] call_ensures(B::mode, (&m,), a) && #[trigger] call_ensures(
                B::mode,
                (&w,),
                b,
            ) ==> a == b),
        (forall|
            m: &mut B,
            w: &mut B,
            c: &[Scalar],
            d: &[Scalar],
            a: Result<(), Error>,
            b: Result<(), Error>,
        |
            alike(*m, *w) && c@ == d@ && #[trigger] call_ensures(
                B::command_joint_positions,
                (m, c),
                a,
            ) && #[trigger] call_ensures(B::command_joint_positions, (w, d), b) ==> same_answer(a, b)
                && alike(*final(m), *final(w))),
        (forall|
            m: &mut B,
            w: &mut B,
            c: &[Scalar],
            d: &[Scalar],
            a: Result<(), Error>,
            b: Result<(), Error>,
        |
            alike(*m, *w) && c@ == d@ && #[trigger] call_ensures(
                B::command_joint_velocities,
                (m, c),
                a,
            ) && #[trigger] call_ensures(B::command_joint_velocities, (w, d), b) ==> same_answer(a, b)
                && alike(*final(m), *final(w))),
        (forall|
            m: &mut B,
            w: &mut B,
            c: &[Scalar],
            d: &[Scalar],
            a: Result<(), Error>,
            b: Result<(), Error>,
        |
            alike(*m, *w) && c@ == d@ && #[trigger] call_ensures(
                B::command_joint_torques,
                (m, c),
                a,
            ) && #[trigger] call_ensures(B::command_joint_torques, (w, d), b) ==> same_answer(a, b)
                && alike(*final(m), *final(w))),
        (forall|m: &mut B, w: &mut B, h: Scalar, a: Result<(), Error>, b: Result<(), Error>|
            alike(*m, *w) && #[trigger] call_ensures(B::step, (m, h), a)
                && #[trigger] call_ensures(B::step, (w, h), b) ==> same_answer(a, b) && alike(
                *final(m),
                *final(w),
            )),
        (forall|m: &mut S, w: &mut S, k: u64, t: Scalar, a: Option<Target>, b: Option<Target>|
            akin(*m, *w) && #[trigger] call_ensures(S::target, (m, k, t), a)
                && #[trigger] call_ensures(S::target, (w, k, t), b) ==> target_view(a)
                == target_view(b) && akin(*final(m), *final(w))),
        repeatable(dynamics),
        alike(x_start.0, y_start.0),
        akin(x_start.1, y_start.1),
        ran(xs, l, x_start.0, x_start.1, x_end.0, x_end.1, dynamics),
        ran(ys, l, y_start.0, y_start.1, y_end.0, y_end.1, dynamics),
        record.len() == xs.len(),
        forall|k: int|
            0 <= k < xs.len() ==> frame_at(xs, l, k) == Ok::<FrameV, Error>(#[trigger] record[k]),
        every > 0,
        ys.len() <= xs.len(),
        shown.len() == shown_of(ys.len() as int, every),
        forall|k: int|
            0 <= k < shown.len() ==> frame_at(ys, l, nth(k, every)) == Ok::<FrameV, Error>(
                #[trigger] shown[k],
            ),
        0 <= j < shown.len(),
        forall|j: int|
            0 <= j < xs.len() ==> (exists|m: &mut B, a: Result<JointState, Error>|
                *m == (#[trigger] xs[j]).robot
                    && *final(m) == xs[j].read
                    && a == xs[j].state
                    && #[trigger] call_ensures(B::read_state, (m,), a))
            && (xs[j].state is Ok ==> exists|m: &mut S, k: u64, t: Scalar, a: Option<Target>|
                *m == xs[j].source
                    && *final(m) == xs[j].asked
                    && k == loop_at(xs, l, j as nat).ticks
                    && t == time_of(loop_at(xs, l, j as nat))
                    && a == xs[j].target
                    && #[trigger] call_ensures(S::target, (m, k, t), a))
            && (sends(xs[j]) is Some ==> match xs[j].mode {
                ControlMode::Position => exists|m: &mut B, c: &[Scalar], a: Result<(), Error>|
                    *m == xs[j].read
                        && *final(m) == xs[j].sent
                        && sends(xs[j]) == Some(c@)
                        && a == xs[j].taken
                        && #[trigger] call_ensures(B::command_joint_positions, (m, c), a),
                ControlMode::Velocity => exists|m: &mut B, c: &[Scalar], a: Result<(), Error>|
                    *m == xs[j].read
                        && *final(m) == xs[j].sent
                        && sends(xs[j]) == Some(c@)
                        && a == xs[j].taken
                        && #[trigger] call_ensures(B::command_joint_velocities, (m, c), a),
                ControlMode::Torque => exists|m: &mut B, c: &[Scalar], a: Result<(), Error>|
                    *m == xs[j].read
                        && *final(m) == xs[j].sent
                        && sends(xs[j]) == Some(c@)
                        && a == xs[j].taken
                        && #[trigger] call_ensures(B::command_joint_torques, (m, c), a),
            })
            && (integrates(xs[j]) ==> exists|m: &mut B, h: Scalar, a: Result<(), Error>|
                *m == xs[j].sent
                    && *final(m) == xs[j].after
                    && h == loop_at(xs, l, j as nat).period
                    && a == xs[j].moved
                    && #[trigger] call_ensures(B::step, (m, h), a)),
        forall|j: int|
            0 <= j < ys.len() ==> (exists|m: &mut B, a: Result<JointState, Error>|
                *m == (#[trigger] ys[j]).robot
                    && *final(m) == ys[j].read
                    && a == ys[j].state
                    && #[trigger] call_ensures(B::read_state, (m,), a))
            && (ys[j].state is Ok ==> exists|m: &mut S, k: u64, t: Scalar, a: Option<Target>|
                *m == ys[j].source
                    && *final(m) == ys[j].asked
                    && k == loop_at(ys, l, j as nat).ticks
                    && t == time_of(loop_at(ys, l, j as nat))
                    && a == ys[j].target
                    && #[trigger] call_ensures(S::target, (m, k, t), a))
            && (sends(ys[j]) is Some ==> match ys[j].mode {
                ControlMode::Position => exists|m: &mut B, c: &[Scalar], a: Result<(), Error>|
                    *m == ys[j].read
                        && *final(m) == ys[j].sent
                        && sends(ys[j]) == Some(c@)
                        && a == ys[j].taken
                        && #[trigger] call_ensures(B::command_joint_positions, (m, c), a),
                ControlMode::Velocity => exists|m: &mut B, c: &[Scalar], a: Result<(), Error>|
                    *m == ys[j].read
                        && *final(m) == ys[j].sent
                        && sends(ys[j]) == Some(c@)
                        && a == ys[j].taken
                        && #[trigger] call_ensures(B::command_joint_velocities, (m, c), a),
                ControlMode::Torque => exists|m: &mut B, c: &[Scalar], a: Result<(), Error>|
                    *m == ys[j].read
                        && *final(m) == ys[j].sent
                        && sends(ys[j]) == Some(c@)
                        && a == ys[j].taken
                        && #[trigger] call_ensures(B::command_joint_torques, (m, c), a),
            })
            && (integrates(ys[j]) ==> exists|m: &mut B, h: Scalar, a: Result<(), Error>|
                *m == ys[j].sent
                    && *final(m) == ys[j].after
                    && h == loop_at(ys, l, j as nat).period
                    && a == ys[j].moved
                    && #[trigger] call_ensures(B::step, (m, h), a)),
    ensures
        0 <= nth(j, every) < record.len(),
        shown[j] == record[nth(j, every)],
{
    let n = ys.len() as int;
    let k = nth(j, every);
    assert(0 <= k < n) by {
        vstd::arithmetic::div_mod::lemma_fundamental_div_mod(n - 1, every);
        let d = (n - 1) / every;
        let m = (n - 1) % every;
        assert(0 <= j * every <= n - 1) by (nonlinear_arith)
            requires
                0 <= j <= d,
                every > 0,
                n - 1 == every * d + m,
                m >= 0,
        ;
    }
    law_same_start_same_ticks(
        xs,
        ys,
        l,
        x_start,
        x_end,
        y_start,
        y_end,
        dynamics,
        alike,
        akin,
        k,
    );
    assert(frame_at(xs, l, k) == Ok::<FrameV, Error>(record[k]));
    assert(frame_at(ys, l, k) == Ok::<FrameV, Error>(shown[j]));
}

/// Where the dynamics behave as a function, the command of a tick is that function's.
pub proof fn law_command_is_the_modes<
    D: Fn(&[Scalar], &[Scalar], &[Scalar]) -> Result<Vec<Scalar>, Error>,
>(
    mode: ControlMode,
    aim: ResolvedV,
    q: Seq<Scalar>,
    qd: Seq<Scalar>,
    gains: Gains,
    cfg: ConfigV,
    n: nat,
    dynamics: D,
    g: spec_fn(Seq<Scalar>, Seq<Scalar>, Seq<Scalar>) -> Option<Seq<Scalar>>,
    r: Result<Vec<Scalar>, Error>,
)
    requires
        moves_as(dynamics, g),
        commands(mode, aim, q, qd, gains, cfg, n, dynamics, r),
    ensures
        match command_of(mode, aim, q, qd, gains, cfg, n, g) {
            Some(c) => r matches Ok(x) && x@ == c,
            None => r is Err,
        },
{
}

} // verus!
