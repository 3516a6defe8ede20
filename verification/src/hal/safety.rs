//! The safety core: limits, rates, the emergency stop and the watchdog. It knows no
//! clock and does no input or output.

use vstd::prelude::*;

use crate::hal::backend::{check_finite, copy_scalars, ControlMode, JointState, RobotBackend};
#[allow(unused_imports)]
use crate::hal::backend::all_finite;
use crate::hal::error::Error;
#[allow(unused_imports)]
use crate::hal::error::ErrorV;
use crate::model::Model;
#[allow(unused_imports)]
use crate::scalar::convert::{fclamp, fmax, fsignum};
#[allow(unused_imports)]
use crate::scalar::number::{fabs, fadd, feq, fle, flt, fmul, fneg, fsub};
#[allow(unused_imports)]
use crate::scalar::order::{
    gap, law_difference_is_near, law_short_steps_stay_between, lemma_difference,
    lemma_units_monotone,
};
use crate::scalar::Scalar;

verus! {

/// What the watchdog does when commands stop arriving.
#[derive(Clone, Copy, Debug, PartialEq, Eq, Structural)]
pub enum WatchdogAction {
    /// Holds the last safe command.
    Hold,
    /// Latches an emergency stop.
    EStop,
}

impl Default for WatchdogAction {
    fn default() -> (r: WatchdogAction)
        ensures
            r == WatchdogAction::Hold,
    {
        WatchdogAction::Hold
    }
}

/// The envelope of each joint, and the watchdog.
#[derive(Debug)]
pub struct SafetyConfig {
    pub pos: Vec<Option<(Scalar, Scalar)>>,
    pub vmax: Vec<Option<Scalar>>,
    pub effort: Vec<Option<Scalar>>,
    pub watchdog_timeout: Option<Scalar>,
    pub watchdog_action: WatchdogAction,
}

/// `SafetyConfig` over sequences.
pub struct ConfigV {
    pub pos: Seq<Option<(Scalar, Scalar)>>,
    pub vmax: Seq<Option<Scalar>>,
    pub effort: Seq<Option<Scalar>>,
    pub timeout: Option<Scalar>,
    pub action: WatchdogAction,
}

impl View for SafetyConfig {
    type V = ConfigV;

    open spec fn view(&self) -> ConfigV {
        ConfigV {
            pos: self.pos@,
            vmax: self.vmax@,
            effort: self.effort@,
            timeout: self.watchdog_timeout,
            action: self.watchdog_action,
        }
    }
}

/// Every pair of limits is in order.
pub open spec fn limits_ordered(pos: Seq<Option<(Scalar, Scalar)>>) -> bool {
    forall|i: int|
        0 <= i < pos.len() ==> match #[trigger] pos[i] {
            Some((lo, hi)) => fle(lo, hi),
            None => true,
        }
}

pub open spec fn at<T>(s: Seq<Option<T>>, i: int) -> Option<T> {
    if 0 <= i < s.len() {
        s[i]
    } else {
        None
    }
}

fn copy_caps(v: &Vec<Option<Scalar>>) -> (r: Vec<Option<Scalar>>)
    ensures
        r@ == v@,
{
    let mut out: Vec<Option<Scalar>> = Vec::new();
    let mut i: usize = 0;
    while i < v.len()
        invariant
            i <= v.len(),
            out@ == v@.take(i as int),
        decreases v.len() - i,
    {
        out.push(v[i]);
        i = i + 1;
        assert(v@.take(i as int) =~= v@.take(i - 1).push(v@[i - 1]));
    }
    assert(v@.take(v@.len() as int) =~= v@);
    out
}

fn copy_limits(v: &Vec<Option<(Scalar, Scalar)>>) -> (r: Vec<Option<(Scalar, Scalar)>>)
    ensures
        r@ == v@,
{
    let mut out: Vec<Option<(Scalar, Scalar)>> = Vec::new();
    let mut i: usize = 0;
    while i < v.len()
        invariant
            i <= v.len(),
            out@ == v@.take(i as int),
        decreases v.len() - i,
    {
        out.push(v[i]);
        i = i + 1;
        assert(v@.take(i as int) =~= v@.take(i - 1).push(v@[i - 1]));
    }
    assert(v@.take(v@.len() as int) =~= v@);
    out
}

impl SafetyConfig {
    /// The limits of a model, without a watchdog.
    pub fn from_model(model: &Model) -> (r: SafetyConfig)
        ensures
            r@ == (ConfigV {
                pos: model.limits@,
                vmax: model.vel_limit@,
                effort: model.effort_limit@,
                timeout: None,
                action: WatchdogAction::Hold,
            }),
    {
        SafetyConfig {
            pos: copy_limits(&model.limits),
            vmax: copy_caps(&model.vel_limit),
            effort: copy_caps(&model.effort_limit),
            watchdog_timeout: None,
            watchdog_action: WatchdogAction::Hold,
        }
    }

    pub fn dof(&self) -> (r: usize)
        ensures
            r == self@.pos.len(),
    {
        self.pos.len()
    }

    /// With a watchdog; a timeout that is not positive turns it off.
    pub fn with_watchdog(self, timeout: Scalar, action: WatchdogAction) -> (r: SafetyConfig)
        ensures
            r@ == (ConfigV {
                timeout: if flt(Scalar { bits: 0 }, timeout) {
                    Some(timeout)
                } else {
                    None
                },
                action,
                ..self@
            }),
    {
        let on = if timeout.gt(Scalar { bits: 0 }) {
            Some(timeout)
        } else {
            None
        };
        SafetyConfig {
            pos: self.pos,
            vmax: self.vmax,
            effort: self.effort,
            watchdog_timeout: on,
            watchdog_action: action,
        }
    }
}

/// What one tick found.
#[derive(Clone, Copy, Debug, PartialEq, Eq, Structural)]
pub struct Verdict {
    pub clamped_position: bool,
    pub limited_velocity: bool,
    pub estopped: bool,
    pub watchdog_tripped: bool,
}

impl Default for Verdict {
    fn default() -> (r: Verdict)
        ensures
            r == clean(),
    {
        Verdict {
            clamped_position: false,
            limited_velocity: false,
            estopped: false,
            watchdog_tripped: false,
        }
    }
}

/// Nothing found.
pub open spec fn clean() -> Verdict {
    Verdict {
        clamped_position: false,
        limited_velocity: false,
        estopped: false,
        watchdog_tripped: false,
    }
}

impl Verdict {
    pub fn ok(&self) -> (r: bool)
        ensures
            r == (*self == clean()),
    {
        !(self.clamped_position || self.limited_velocity || self.estopped
            || self.watchdog_tripped)
    }
}

/// A fault that stops the robot.
#[derive(Clone, Debug)]
pub enum SafetyError {
    EStop,
    EffortFault { joint: usize, tau: Scalar, cap: Scalar },
    Check(String),
}

impl SafetyError {
    /// The backend error of a fault. An effort fault is reported in the words `shown`.
    pub fn to_error(self, shown: String) -> (r: Error)
        ensures
            r@ == (match self {
                SafetyError::EStop => ErrorV::EStopActive,
                SafetyError::Check(s) => ErrorV::Collision(s@),
                SafetyError::EffortFault { joint, tau, cap } => ErrorV::Backend(shown@),
            }),
    {
        match self {
            SafetyError::EStop => Error::EStopActive,
            SafetyError::Check(s) => Error::Collision(s),
            SafetyError::EffortFault { joint, tau, cap } => Error::Backend(shown),
        }
    }
}

/// The safety core. The last safe command is what rates are measured from.
#[derive(Debug)]
pub struct SafetyMonitor {
    cfg: SafetyConfig,
    q_prev: Vec<Scalar>,
    estopped: bool,
    idle: Scalar,
    warn_count: u64,
}

/// `SafetyMonitor` over sequences.
pub struct MonitorV {
    pub cfg: ConfigV,
    pub prev: Seq<Scalar>,
    pub estopped: bool,
    pub idle: Scalar,
    pub warnings: nat,
}

impl View for SafetyMonitor {
    type V = MonitorV;

    closed spec fn view(&self) -> MonitorV {
        MonitorV {
            cfg: self.cfg@,
            prev: self.q_prev@,
            estopped: self.estopped,
            idle: self.idle,
            warnings: self.warn_count as nat,
        }
    }
}

/// What a safe start is for joint `i`: the given position where it is a number, else
/// zero, moved into the limits.
pub open spec fn anchor(cfg: ConfigV, q0: Seq<Scalar>, i: int) -> Scalar {
    let q = if i < q0.len() && q0[i].finite() {
        q0[i]
    } else {
        Scalar { bits: 0 }
    };
    match cfg.pos[i] {
        Some((lo, hi)) => fclamp(q, lo, hi),
        None => q,
    }
}

/// A safe start.
pub open spec fn anchored(cfg: ConfigV, q0: Seq<Scalar>) -> Seq<Scalar> {
    Seq::new(cfg.pos.len(), |i: int| anchor(cfg, q0, i))
}

/// What is wanted of joint `i`: the desired position where it is a number, else to
/// stay.
pub open spec fn wanted(m: MonitorV, desired: Seq<Scalar>, i: int) -> Scalar {
    if i < desired.len() && desired[i].finite() {
        desired[i]
    } else {
        m.prev[i]
    }
}

/// The same, moved into the limits.
pub open spec fn bounded_target(m: MonitorV, desired: Seq<Scalar>, i: int) -> Scalar {
    match m.cfg.pos[i] {
        Some((lo, hi)) => fclamp(wanted(m, desired, i), lo, hi),
        None => wanted(m, desired, i),
    }
}

/// The longest step of joint `i` in a tick.
pub open spec fn longest_step(vmax: Scalar, dt: Scalar) -> Scalar {
    fmul(fabs(vmax), fmax(dt, Scalar { bits: 0 }))
}

/// The step of joint `i` is longer than its velocity allows.
pub open spec fn too_fast(m: MonitorV, desired: Seq<Scalar>, dt: Scalar, i: int) -> bool {
    match at(m.cfg.vmax, i) {
        Some(v) => flt(
            longest_step(v, dt),
            fabs(fsub(bounded_target(m, desired, i), m.prev[i])),
        ),
        None => false,
    }
}

/// The safe target of joint `i`.
pub open spec fn safe_target(m: MonitorV, desired: Seq<Scalar>, dt: Scalar, i: int) -> Scalar {
    let t = bounded_target(m, desired, i);
    match at(m.cfg.vmax, i) {
        Some(v) => if too_fast(m, desired, dt, i) {
            fadd(m.prev[i], fmul(fsignum(fsub(t, m.prev[i])), longest_step(v, dt)))
        } else {
            t
        },
        None => t,
    }
}

pub open spec fn out_of_limits(m: MonitorV, desired: Seq<Scalar>, i: int) -> bool {
    !feq(bounded_target(m, desired, i), wanted(m, desired, i)) && m.cfg.pos[i] is Some
}

/// The verdict on a command.
pub open spec fn command_verdict(m: MonitorV, desired: Seq<Scalar>, dt: Scalar) -> Verdict {
    Verdict {
        clamped_position: exists|i: int|
            0 <= i < m.cfg.pos.len() && #[trigger] out_of_limits(m, desired, i),
        limited_velocity: exists|i: int|
            0 <= i < m.cfg.pos.len() && #[trigger] too_fast(m, desired, dt, i),
        estopped: false,
        watchdog_tripped: false,
    }
}

pub open spec fn safe_targets(m: MonitorV, desired: Seq<Scalar>, dt: Scalar) -> Seq<Scalar> {
    Seq::new(m.cfg.pos.len(), |i: int| safe_target(m, desired, dt, i))
}

/// One warning more; a full counter stays.
pub open spec fn counted(n: nat) -> nat {
    if n < u64::MAX {
        n + 1
    } else {
        n
    }
}

/// What a command gives: the target, the verdict, and the monitor afterwards.
pub open spec fn gated(m: MonitorV, desired: Seq<Scalar>, dt: Scalar) -> (
    Seq<Scalar>,
    Verdict,
    MonitorV,
) {
    if m.estopped {
        (
            m.prev,
            Verdict { estopped: true, ..clean() },
            MonitorV { warnings: counted(m.warnings), ..m },
        )
    } else {
        let v = command_verdict(m, desired, dt);
        let q = safe_targets(m, desired, dt);
        (
            q,
            v,
            MonitorV {
                prev: q,
                idle: Scalar { bits: 0 },
                warnings: if v.clamped_position || v.limited_velocity {
                    counted(m.warnings)
                } else {
                    m.warnings
                },
                ..m
            },
        )
    }
}

/// What a tick without a command gives.
pub open spec fn idled(m: MonitorV, dt: Scalar) -> (Verdict, MonitorV) {
    if m.estopped {
        (Verdict { estopped: true, ..clean() }, m)
    } else {
        let idle = fadd(m.idle, fmax(dt, Scalar { bits: 0 }));
        let tripped = match m.cfg.timeout {
            Some(t) => flt(t, idle),
            None => false,
        };
        if tripped {
            let stop = m.cfg.action == WatchdogAction::EStop;
            (
                Verdict { watchdog_tripped: true, estopped: stop, ..clean() },
                MonitorV { idle, warnings: counted(m.warnings), estopped: stop, ..m },
            )
        } else {
            (clean(), MonitorV { idle, ..m })
        }
    }
}

/// First joint from `i` on whose torque is over its cap.
pub open spec fn overloaded(effort: Seq<Option<Scalar>>, tau: Seq<Scalar>, i: int) -> Option<int>
    decreases tau.len() - i,
{
    if i < 0 || i >= tau.len() {
        None
    } else {
        match at(effort, i) {
            Some(c) => if flt(c, fabs(tau[i])) {
                Some(i)
            } else {
                overloaded(effort, tau, i + 1)
            },
            None => overloaded(effort, tau, i + 1),
        }
    }
}

impl SafetyMonitor {
    #[verifier::type_invariant]
    spec fn valid(&self) -> bool {
        self.q_prev@.len() == self.cfg.pos@.len() && limits_ordered(self.cfg.pos@)
    }

    /// Starts from `q0`, made safe: a short or bad one does no harm.
    pub fn new(cfg: SafetyConfig, q0: &[Scalar]) -> (r: SafetyMonitor)
        requires
            limits_ordered(cfg@.pos),
        ensures
            r@ == (MonitorV {
                cfg: cfg@,
                prev: anchored(cfg@, q0@),
                estopped: false,
                idle: Scalar { bits: 0 },
                warnings: 0,
            }),
    {
        let n: usize = cfg.pos.len();
        let mut q_prev: Vec<Scalar> = Vec::new();
        let mut i: usize = 0;
        while i < n
            invariant
                i <= n,
                n == cfg.pos@.len(),
                limits_ordered(cfg.pos@),
                q_prev.len() == i,
                forall|k: int| 0 <= k < i ==> #[trigger] q_prev@[k] == anchor(cfg@, q0@, k),
            decreases n - i,
        {
            let mut q = Scalar { bits: 0 };
            if i < q0.len() {
                let given = q0[i];
                if given.is_finite() {
                    q = given;
                }
            }
            match cfg.pos[i] {
                Some((lo, hi)) => {
                    assert(cfg.pos@[i as int] == Some((lo, hi)));
                    q = q.clamp(lo, hi);
                },
                None => {},
            }
            q_prev.push(q);
            i = i + 1;
        }
        assert(q_prev@ =~= anchored(cfg@, q0@));
        SafetyMonitor {
            cfg,
            q_prev,
            estopped: false,
            idle: Scalar { bits: 0 },
            warn_count: 0,
        }
    }

    pub fn dof(&self) -> (r: usize)
        ensures
            r == self@.cfg.pos.len(),
    {
        self.cfg.dof()
    }

    pub fn config(&self) -> (r: &SafetyConfig)
        ensures
            r@ == self@.cfg,
    {
        &self.cfg
    }

    /// The last safe command.
    pub fn last(&self) -> (r: &[Scalar])
        ensures
            r@ == self@.prev,
            r@.len() == self@.cfg.pos.len(),
    {
        proof {
            use_type_invariant(self);
        }
        self.q_prev.as_slice()
    }

    /// Number of warnings so far.
    pub fn warnings(&self) -> (r: u64)
        ensures
            r == self@.warnings,
    {
        self.warn_count
    }

    pub fn is_estopped(&self) -> (r: bool)
        ensures
            r == self@.estopped,
    {
        self.estopped
    }

    pub fn estop(&mut self)
        ensures
            final(self)@ == (MonitorV { estopped: true, ..old(self)@ }),
    {
        proof {
            use_type_invariant(&*self);
        }
        self.estopped = true;
    }

    pub fn clear_estop(&mut self)
        ensures
            final(self)@ == (MonitorV {
                estopped: false,
                idle: Scalar { bits: 0 },
                ..old(self)@
            }),
    {
        proof {
            use_type_invariant(&*self);
        }
        self.estopped = false;
        self.idle = Scalar { bits: 0 };
    }

    fn warn(&mut self)
        ensures
            final(self)@ == (MonitorV { warnings: counted(old(self)@.warnings), ..old(self)@ }),
    {
        proof {
            use_type_invariant(&*self);
        }
        if self.warn_count < u64::MAX {
            self.warn_count = self.warn_count + 1;
        }
    }

    /// Makes a command safe: into the limits first, then no faster than allowed from
    /// the last safe command. While stopped, the last command is held.
    pub fn gate(&mut self, desired: &[Scalar], dt: Scalar) -> (r: (Vec<Scalar>, Verdict))
        ensures
            (r.0@, r.1, final(self)@) == gated(old(self)@, desired@, dt),
    {
        proof {
            use_type_invariant(&*self);
        }
        let ghost m = self@;
        if self.estopped {
            self.warn();
            let held = copy_scalars(self.q_prev.as_slice());
            let mut v = Verdict::default();
            v.estopped = true;
            return (held, v);
        }
        let n: usize = self.cfg.pos.len();
        let mut out: Vec<Scalar> = Vec::new();
        let mut clamped: bool = false;
        let mut limited: bool = false;
        let mut i: usize = 0;
        while i < n
            invariant
                i <= n,
                n == self.cfg.pos@.len(),
                self@ == m,
                self.q_prev@.len() == n,
                limits_ordered(self.cfg.pos@),
                out.len() == i,
                forall|k: int|
                    0 <= k < i ==> #[trigger] out@[k] == safe_target(m, desired@, dt, k),
                clamped == exists|k: int| 0 <= k < i && #[trigger] out_of_limits(m, desired@, k),
                limited == exists|k: int| 0 <= k < i && #[trigger] too_fast(m, desired@, dt, k),
            decreases n - i,
        {
            let prev = self.q_prev[i];
            let mut target = prev;
            if i < desired.len() {
                let d = desired[i];
                if d.is_finite() {
                    target = d;
                }
            }
            let mut off: bool = false;
            match self.cfg.pos[i] {
                Some((lo, hi)) => {
                    assert(self.cfg.pos@[i as int] == Some((lo, hi)));
                    let c = target.clamp(lo, hi);
                    off = !c.same(target);
                    target = c;
                },
                None => {},
            }
            assert(off == out_of_limits(m, desired@, i as int));
            assert(target == bounded_target(m, desired@, i as int));
            let mut fast: bool = false;
            if i < self.cfg.vmax.len() {
                match self.cfg.vmax[i] {
                    Some(vmax) => {
                        let max_step = vmax.abs().mul(dt.max(Scalar { bits: 0 }));
                        let delta = target.sub(prev);
                        if delta.abs().gt(max_step) {
                            target = prev.add(delta.signum().mul(max_step));
                            fast = true;
                        }
                    },
                    None => {},
                }
            }
            assert(fast == too_fast(m, desired@, dt, i as int));
            clamped = clamped || off;
            limited = limited || fast;
            out.push(target);
            i = i + 1;
        }
        assert(out@ =~= safe_targets(m, desired@, dt));
        if clamped || limited {
            self.warn();
        }
        let held = copy_scalars(out.as_slice());
        proof {
            use_type_invariant(&*self);
        }
        self.q_prev = held;
        self.idle = Scalar { bits: 0 };
        let mut v = Verdict::default();
        v.clamped_position = clamped;
        v.limited_velocity = limited;
        (out, v)
    }

    /// A tick without a command: the watchdog advances.
    pub fn tick_idle(&mut self, dt: Scalar) -> (r: Verdict)
        ensures
            (r, final(self)@) == idled(old(self)@, dt),
    {
        proof {
            use_type_invariant(&*self);
        }
        let mut v = Verdict::default();
        if self.estopped {
            v.estopped = true;
            return v;
        }
        self.idle = self.idle.add(dt.max(Scalar { bits: 0 }));
        let tripped = match self.cfg.watchdog_timeout {
            Some(t) => self.idle.gt(t),
            None => false,
        };
        if tripped {
            v.watchdog_tripped = true;
            self.warn();
            if self.cfg.watchdog_action == WatchdogAction::EStop {
                proof {
                    use_type_invariant(&*self);
                }
                self.estopped = true;
                v.estopped = true;
            }
        }
        v
    }

    /// Checks the torques that hold a pose against the caps; one over its cap stops
    /// the robot. This says nothing of motion or contact.
    pub fn check_effort(&mut self, tau: &[Scalar]) -> (r: Result<(), SafetyError>)
        ensures
            match overloaded(old(self)@.cfg.effort, tau@, 0) {
                None => r is Ok && final(self)@ == old(self)@,
                Some(i) => final(self)@ == (MonitorV { estopped: true, ..old(self)@ }) && (
                r matches Err(SafetyError::EffortFault { joint, tau: t, cap }) && joint == i && t
                    == tau@[i] && Some(cap) == old(self)@.cfg.effort[i]),
            },
    {
        proof {
            use_type_invariant(&*self);
        }
        let ghost m = self@;
        let mut i: usize = 0;
        while i < tau.len()
            invariant
                i <= tau@.len(),
                self@ == m,
                self.q_prev@.len() == self.cfg.pos@.len(),
                limits_ordered(self.cfg.pos@),
                m == old(self)@,
                overloaded(m.cfg.effort, tau@, 0) == overloaded(m.cfg.effort, tau@, i as int),
            decreases tau@.len() - i,
        {
            if i < self.cfg.effort.len() {
                match self.cfg.effort[i] {
                    Some(cap) => {
                        let t = tau[i];
                        if t.abs().gt(cap) {
                            self.estopped = true;
                            return Err(SafetyError::EffortFault { joint: i, tau: t, cap });
                        }
                    },
                    None => {},
                }
            }
            i = i + 1;
        }
        Ok(())
    }
}

/// A check of a target, such as for collisions.
pub trait SafetyCheck: Send {
    /// `Err` with the reason rejects the target.
    fn check(&self, q: &[Scalar]) -> (r: Result<(), String>);
}

/// A check lets a target pass.
pub open spec fn accepts<C: SafetyCheck>(c: C, q: Seq<Scalar>) -> bool {
    exists|a: &[Scalar], r: Result<(), String>|
        a@ == q && r is Ok && #[trigger] call_ensures(C::check, (&c, a), r)
}

/// A check rejects a target, and why.
pub open spec fn rejects<C: SafetyCheck>(c: C, q: Seq<Scalar>, why: String) -> bool {
    exists|a: &[Scalar]|
        a@ == q && #[trigger] call_ensures(C::check, (&c, a), Err::<(), String>(why))
}

/// A check behind a pointer, so that checks of several types can stand in one list.
impl<T: SafetyCheck + ?Sized> SafetyCheck for Box<T> {
    fn check(&self, q: &[Scalar]) -> (r: Result<(), String>)
        ensures
            call_ensures(T::check, (&**self, q), r),
    {
        (**self).check(q)
    }
}

/// All checks let a target pass.
pub open spec fn all_accept<C: SafetyCheck>(checks: Seq<C>, q: Seq<Scalar>) -> bool {
    forall|i: int| 0 <= i < checks.len() ==> accepts(#[trigger] checks[i], q)
}

/// A check rejects a target that those before it let pass.
pub open spec fn one_rejects<C: SafetyCheck>(checks: Seq<C>, q: Seq<Scalar>, why: String) -> bool {
    exists|i: int|
        0 <= i < checks.len() && rejects(#[trigger] checks[i], q, why) && all_accept(
            checks.take(i),
            q,
        )
}

/// Velocities moved into the caps. A cap that is not a number limits nothing.
pub open spec fn capped(vmax: Seq<Option<Scalar>>, qd: Seq<Scalar>) -> Seq<Scalar> {
    Seq::new(
        qd.len(),
        |i: int|
            match at(vmax, i) {
                Some(c) => if c.nan() {
                    qd[i]
                } else {
                    fclamp(qd[i], fneg(fabs(c)), fabs(c))
                },
                None => qd[i],
            },
    )
}

pub fn cap_velocities(vmax: &Vec<Option<Scalar>>, qd: &[Scalar]) -> (r: Vec<Scalar>)
    ensures
        r@ == capped(vmax@, qd@),
{
    let mut out: Vec<Scalar> = Vec::new();
    let mut i: usize = 0;
    while i < qd.len()
        invariant
            i <= qd@.len(),
            out.len() == i,
            forall|k: int| 0 <= k < i ==> #[trigger] out@[k] == capped(vmax@, qd@)[k],
        decreases qd@.len() - i,
    {
        let mut v = qd[i];
        if i < vmax.len() {
            match vmax[i] {
                Some(c) => {
                    if !c.is_nan() {
                        let hi = c.abs();
                        let lo = hi.neg();
                        v = v.clamp(lo, hi);
                    }
                },
                None => {},
            }
        }
        out.push(v);
        i = i + 1;
    }
    assert(out@ =~= capped(vmax@, qd@));
    out
}

/// A backend behind a monitor: every command passes it first.
pub struct SafetyBackend<B: RobotBackend, C: SafetyCheck> {
    inner: B,
    monitor: SafetyMonitor,
    checks: Vec<C>,
    dt: Scalar,
}

impl<B: RobotBackend, C: SafetyCheck> SafetyBackend<B, C> {
    pub closed spec fn inside(&self) -> B {
        self.inner
    }

    pub closed spec fn guard(&self) -> MonitorV {
        self.monitor@
    }

    pub closed spec fn judges(&self) -> Seq<C> {
        self.checks@
    }

    pub closed spec fn tick(&self) -> Scalar {
        self.dt
    }

    pub fn new(inner: B, monitor: SafetyMonitor, dt: Scalar) -> (r: Self)
        ensures
            r.inside() == inner,
            r.guard() == monitor@,
            r.judges() == Seq::<C>::empty(),
            r.tick() == dt,
    {
        SafetyBackend { inner, monitor, checks: Vec::new(), dt }
    }

    pub fn add_check(&mut self, check: C)
        ensures
            final(self).inside() == old(self).inside(),
            final(self).guard() == old(self).guard(),
            final(self).judges() == old(self).judges().push(check),
            final(self).tick() == old(self).tick(),
    {
        self.checks.push(check);
    }

    pub fn monitor(&self) -> (r: &SafetyMonitor)
        ensures
            r@ == self.guard(),
    {
        &self.monitor
    }

    pub fn inner(&self) -> (r: &B)
        ensures
            *r == self.inside(),
    {
        &self.inner
    }

    /// The reason of the first check that rejects a target.
    fn rejection(&self, q: &[Scalar]) -> (r: Option<String>)
        ensures
            match r {
                None => all_accept(self.judges(), q@),
                Some(why) => one_rejects(self.judges(), q@, why),
            },
    {
        let mut i: usize = 0;
        while i < self.checks.len()
            invariant
                i <= self.checks.len(),
                forall|k: int| 0 <= k < i ==> accepts(#[trigger] self.checks@[k], q@),
            decreases self.checks.len() - i,
        {
            match self.checks[i].check(q) {
                Ok(_) => {
                    assert(accepts(self.checks@[i as int], q@));
                },
                Err(e) => {
                    assert(rejects(self.checks@[i as int], q@, e));
                    return Some(e);
                },
            }
            i = i + 1;
        }
        None
    }

    /// Makes a position command safe, or refuses it. Which targets the checks reject
    /// is theirs to say; without checks, only the stop refuses.
    pub fn screen(&mut self, q: &[Scalar]) -> (r: Result<Vec<Scalar>, Error>)
        ensures
            final(self).inside() == old(self).inside(),
            final(self).judges() == old(self).judges(),
            final(self).tick() == old(self).tick(),
            final(self).guard() == gated(old(self).guard(), q@, old(self).tick()).2,
            match r {
                Ok(safe) => !old(self).guard().estopped && safe@ == gated(
                    old(self).guard(),
                    q@,
                    old(self).tick(),
                ).0 && all_accept(old(self).judges(), safe@),
                Err(e) => if old(self).guard().estopped {
                    e@ == ErrorV::EStopActive
                } else {
                    e matches Error::Collision(why) && one_rejects(
                        old(self).judges(),
                        gated(old(self).guard(), q@, old(self).tick()).0,
                        why,
                    )
                },
            },
    {
        let (safe, verdict) = self.monitor.gate(q, self.dt);
        let rejection = if verdict.estopped {
            None
        } else {
            self.rejection(safe.as_slice())
        };
        ruling(safe, verdict, rejection)
    }
}

/// What becomes of a safe target: nothing while stopped, nothing if a check rejects it.
pub fn ruling(safe: Vec<Scalar>, verdict: Verdict, rejection: Option<String>) -> (r: Result<
    Vec<Scalar>,
    Error,
>)
    ensures
        match r {
            Ok(q) => q@ == safe@ && !verdict.estopped && rejection is None,
            Err(e) => if verdict.estopped {
                e@ == ErrorV::EStopActive
            } else {
                rejection matches Some(why) && e == Error::Collision(why)
            },
        },
{
    if verdict.estopped {
        return Err(Error::EStopActive);
    }
    match rejection {
        Some(why) => Err(Error::Collision(why)),
        None => Ok(safe),
    }
}

impl<B: RobotBackend, C: SafetyCheck> RobotBackend for SafetyBackend<B, C> {
    fn dof(&self) -> (r: usize)
        ensures
            call_ensures(B::dof, (&self.inside(),), r),
    {
        self.inner.dof()
    }

    fn joint_names(&self) -> (r: Vec<String>)
        ensures
            call_ensures(B::joint_names, (&self.inside(),), r),
    {
        self.inner.joint_names()
    }

    fn enable(&mut self) -> (r: Result<(), Error>)
        ensures
            final(self).guard() == old(self).guard(),
            exists|m: &mut B|
                *m == old(self).inside() && *final(m) == final(self).inside()
                    && #[trigger] call_ensures(B::enable, (m,), r),
    {
        self.inner.enable()
    }

    fn disable(&mut self) -> (r: Result<(), Error>)
        ensures
            final(self).guard() == old(self).guard(),
            exists|m: &mut B|
                *m == old(self).inside() && *final(m) == final(self).inside()
                    && #[trigger] call_ensures(B::disable, (m,), r),
    {
        self.inner.disable()
    }

    fn is_enabled(&self) -> (r: bool)
        ensures
            call_ensures(B::is_enabled, (&self.inside(),), r),
    {
        self.inner.is_enabled()
    }

    fn estop(&mut self) -> (r: Result<(), Error>)
        ensures
            final(self).guard() == (MonitorV { estopped: true, ..old(self).guard() }),
            exists|m: &mut B|
                *m == old(self).inside() && *final(m) == final(self).inside()
                    && #[trigger] call_ensures(B::estop, (m,), r),
    {
        self.monitor.estop();
        self.inner.estop()
    }

    fn clear_estop(&mut self) -> (r: Result<(), Error>)
        ensures
            final(self).guard() == (MonitorV {
                estopped: false,
                idle: Scalar { bits: 0 },
                ..old(self).guard()
            }),
            exists|m: &mut B|
                *m == old(self).inside() && *final(m) == final(self).inside()
                    && #[trigger] call_ensures(B::clear_estop, (m,), r),
    {
        self.monitor.clear_estop();
        self.inner.clear_estop()
    }

    fn is_estopped(&self) -> (r: bool)
        ensures
            self.guard().estopped ==> r,
            !self.guard().estopped ==> call_ensures(B::is_estopped, (&self.inside(),), r),
    {
        self.monitor.is_estopped() || self.inner.is_estopped()
    }

    fn mode(&self) -> (r: ControlMode)
        ensures
            call_ensures(B::mode, (&self.inside(),), r),
    {
        self.inner.mode()
    }

    fn set_mode(&mut self, mode: ControlMode) -> (r: Result<(), Error>)
        ensures
            final(self).guard() == old(self).guard(),
            exists|m: &mut B|
                *m == old(self).inside() && *final(m) == final(self).inside()
                    && #[trigger] call_ensures(B::set_mode, (m, mode), r),
    {
        self.inner.set_mode(mode)
    }

    fn command_joint_positions(&mut self, q: &[Scalar]) -> (r: Result<(), Error>)
        ensures
            final(self).guard() == gated(old(self).guard(), q@, old(self).tick()).2,
            old(self).guard().estopped ==> final(self).inside() == old(self).inside() && (
            r matches Err(e) && e@ == ErrorV::EStopActive),
            !old(self).guard().estopped ==> (final(self).inside() == old(self).inside() && (
            r matches Err(e) && e matches Error::Collision(why) && one_rejects(
                old(self).judges(),
                gated(old(self).guard(), q@, old(self).tick()).0,
                why,
            ))) || exists|
                m: &mut B,
                safe: &[Scalar],
            |
                *m == old(self).inside() && *final(m) == final(self).inside() && safe@ == gated(
                    old(self).guard(),
                    q@,
                    old(self).tick(),
                ).0 && all_accept(old(self).judges(), safe@) && #[trigger] call_ensures(
                    B::command_joint_positions,
                    (m, safe),
                    r,
                ),
    {
        match self.screen(q) {
            Ok(safe) => self.inner.command_joint_positions(safe.as_slice()),
            Err(e) => Err(e),
        }
    }

    fn command_joint_velocities(&mut self, qd: &[Scalar]) -> (r: Result<(), Error>)
        ensures
            final(self).guard() == old(self).guard(),
            old(self).guard().estopped ==> final(self).inside() == old(self).inside() && (
            r matches Err(e) && e@ == ErrorV::EStopActive),
            !old(self).guard().estopped && !all_finite(qd@) ==> final(self).inside() == old(
                self,
            ).inside() && (r matches Err(e) && e@ == (ErrorV::NonFinite {
                what: "joint velocities"@,
            })),
            !old(self).guard().estopped && all_finite(qd@) ==> exists|m: &mut B, safe: &[Scalar]|
                *m == old(self).inside() && *final(m) == final(self).inside() && safe@ == capped(
                    old(self).guard().cfg.vmax,
                    qd@,
                ) && #[trigger] call_ensures(B::command_joint_velocities, (m, safe), r),
    {
        if self.monitor.is_estopped() {
            return Err(Error::EStopActive);
        }
        match check_finite("joint velocities", qd) {
            Ok(_) => {},
            Err(e) => {
                return Err(e);
            },
        }
        let safe = cap_velocities(&self.monitor.config().vmax, qd);
        self.inner.command_joint_velocities(safe.as_slice())
    }

    fn command_joint_torques(&mut self, tau: &[Scalar]) -> (r: Result<(), Error>)
        ensures
            final(self).guard() == old(self).guard(),
            old(self).guard().estopped ==> final(self).inside() == old(self).inside() && (
            r matches Err(e) && e@ == ErrorV::EStopActive),
            !old(self).guard().estopped && !all_finite(tau@) ==> final(self).inside() == old(
                self,
            ).inside() && (r matches Err(e) && e@ == (ErrorV::NonFinite {
                what: "joint torques"@,
            })),
            !old(self).guard().estopped && all_finite(tau@) ==> exists|m: &mut B|
                *m == old(self).inside() && *final(m) == final(self).inside()
                    && #[trigger] call_ensures(B::command_joint_torques, (m, tau), r),
    {
        if self.monitor.is_estopped() {
            return Err(Error::EStopActive);
        }
        match check_finite("joint torques", tau) {
            Ok(_) => {},
            Err(e) => {
                return Err(e);
            },
        }
        self.inner.command_joint_torques(tau)
    }

    fn read_state(&mut self) -> (r: Result<JointState, Error>)
        ensures
            final(self).guard() == old(self).guard(),
            exists|m: &mut B|
                *m == old(self).inside() && *final(m) == final(self).inside()
                    && #[trigger] call_ensures(B::read_state, (m,), r),
    {
        self.inner.read_state()
    }

    fn joint_positions(&self) -> (r: Vec<Scalar>)
        ensures
            call_ensures(B::joint_positions, (&self.inside(),), r),
    {
        self.inner.joint_positions()
    }

    fn step(&mut self, dt: Scalar) -> (r: Result<(), Error>)
        ensures
            final(self).guard() == old(self).guard(),
            exists|m: &mut B|
                *m == old(self).inside() && *final(m) == final(self).inside()
                    && #[trigger] call_ensures(B::step, (m, dt), r),
    {
        self.inner.step(dt)
    }
}

// ---- laws ----

/// While stopped, a command moves nothing and the stop stays.
pub proof fn law_estop_holds(m: MonitorV, desired: Seq<Scalar>, dt: Scalar)
    requires
        m.estopped,
    ensures
        gated(m, desired, dt).0 == m.prev,
        gated(m, desired, dt).1.estopped,
        gated(m, desired, dt).2.prev == m.prev,
        gated(m, desired, dt).2.estopped,
        idled(m, dt).1.estopped,
{
}

/// Limits are finite and in order.
pub open spec fn limits_finite(pos: Seq<Option<(Scalar, Scalar)>>) -> bool {
    forall|i: int|
        0 <= i < pos.len() ==> match #[trigger] pos[i] {
            Some((lo, hi)) => lo.finite() && hi.finite() && fle(lo, hi),
            None => true,
        }
}

/// A position of joint `i` is a number within its limits.
pub open spec fn within(pos: Seq<Option<(Scalar, Scalar)>>, q: Scalar, i: int) -> bool {
    q.finite() && match pos[i] {
        Some((lo, hi)) => fle(lo, q) && fle(q, hi),
        None => true,
    }
}

/// The last safe command has one position for each joint, all within the limits.
pub open spec fn settled(m: MonitorV) -> bool {
    &&& m.prev.len() == m.cfg.pos.len()
    &&& limits_finite(m.cfg.pos)
    &&& forall|i: int| 0 <= i < m.prev.len() ==> within(m.cfg.pos, #[trigger] m.prev[i], i)
}

/// A monitor starts within its limits, whatever position it is given.
pub proof fn law_starts_within_limits(cfg: ConfigV, q0: Seq<Scalar>, m: MonitorV)
    requires
        limits_finite(cfg.pos),
        m.cfg == cfg,
        m.prev == anchored(cfg, q0),
    ensures
        settled(m),
{
    assert forall|i: int| 0 <= i < m.prev.len() implies within(cfg.pos, #[trigger] m.prev[i], i) by {
        assert(m.prev[i] == anchor(cfg, q0, i));
        assert(Scalar { bits: 0 }.finite());
    }
}

proof fn lemma_bounded_target(m: MonitorV, desired: Seq<Scalar>, i: int)
    requires
        settled(m),
        0 <= i < m.cfg.pos.len(),
    ensures
        within(m.cfg.pos, bounded_target(m, desired, i), i),
{
    assert(within(m.cfg.pos, m.prev[i], i));
    match m.cfg.pos[i] {
        Some((lo, hi)) => {},
        None => {},
    }
}

proof fn lemma_longest_step(v: Scalar, dt: Scalar)
    requires
        !longest_step(v, dt).nan(),
    ensures
        longest_step(v, dt).key() >= 0,
{
    reveal(fmul);
    let a = fabs(v);
    let h = fmax(dt, Scalar { bits: 0 });
    assert(!a.negative());
    assert(h.nan() || h.key() >= 0);
    if !h.nan() && h.negative() {
        assert(h.mag() == 0);
        crate::scalar::order::lemma_no_product(a, h);
    }
}

proof fn lemma_safe_target(m: MonitorV, desired: Seq<Scalar>, dt: Scalar, i: int)
    requires
        settled(m),
        0 <= i < m.cfg.pos.len(),
    ensures
        within(m.cfg.pos, safe_target(m, desired, dt, i), i),
        at(m.cfg.vmax, i) matches Some(v) ==> too_fast(m, desired, dt, i) ==> ({
            let out = safe_target(m, desired, dt, i);
            let step = longest_step(v, dt).units();
            -(step + gap(out.mag())) < out.units() - m.prev[i].units() < step + gap(out.mag())
        }),
{
    let p = m.prev[i];
    let t = bounded_target(m, desired, i);
    assert(within(m.cfg.pos, p, i));
    lemma_bounded_target(m, desired, i);
    match at(m.cfg.vmax, i) {
        Some(v) => {
            if too_fast(m, desired, dt, i) {
                lemma_longest_step(v, dt);
                law_short_steps_stay_between(p, t, longest_step(v, dt));
            }
        },
        None => {},
    }
}

/// Whatever is commanded, a monitor that is within its limits lets through finite
/// positions within them, and is within them afterwards: one position for each joint,
/// slowed down or not.
pub proof fn law_targets_are_within_limits(m: MonitorV, desired: Seq<Scalar>, dt: Scalar)
    requires
        settled(m),
    ensures
        gated(m, desired, dt).0.len() == m.cfg.pos.len(),
        forall|i: int|
            0 <= i < m.cfg.pos.len() ==> within(
                m.cfg.pos,
                #[trigger] gated(m, desired, dt).0[i],
                i,
            ),
        gated(m, desired, dt).2.prev == gated(m, desired, dt).0,
        settled(gated(m, desired, dt).2),
        settled(idled(m, dt).1),
{
    let out = gated(m, desired, dt).0;
    assert forall|i: int| 0 <= i < m.cfg.pos.len() implies within(
        m.cfg.pos,
        #[trigger] out[i],
        i,
    ) by {
        if m.estopped {
            assert(within(m.cfg.pos, m.prev[i], i));
        } else {
            lemma_safe_target(m, desired, dt, i);
        }
    }
}

/// No joint with a velocity limit steps further than the limit times the period, up to
/// rounding: of the sum, where it is slowed down to that step, and of the difference,
/// where it is not.
pub proof fn law_steps_are_bounded(
    m: MonitorV,
    desired: Seq<Scalar>,
    dt: Scalar,
    i: int,
    v: Scalar,
)
    requires
        settled(m),
        !m.estopped,
        0 <= i < m.cfg.pos.len(),
        at(m.cfg.vmax, i) == Some(v),
        longest_step(v, dt).finite(),
    ensures
        ({
            let out = gated(m, desired, dt).0[i];
            let step = longest_step(v, dt).units();
            let moved = out.units() - m.prev[i].units();
            let slack = if too_fast(m, desired, dt, i) {
                gap(out.mag())
            } else {
                gap(fsub(out, m.prev[i]).mag())
            };
            &&& -(step + slack) < moved < step + slack
            &&& !too_fast(m, desired, dt, i) ==> fle(
                fabs(fsub(out, m.prev[i])),
                longest_step(v, dt),
            )
        }),
{
    let p = m.prev[i];
    let t = bounded_target(m, desired, i);
    let step = longest_step(v, dt);
    assert(within(m.cfg.pos, p, i));
    lemma_bounded_target(m, desired, i);
    lemma_safe_target(m, desired, dt, i);
    if !too_fast(m, desired, dt, i) {
        let d = fsub(t, p);
        lemma_longest_step(v, dt);
        lemma_difference(t, p);
        assert(fabs(d).mag() == d.mag() && !fabs(d).negative());
        law_difference_is_near(t, p);
        lemma_units_monotone(d.mag(), step.mag());
    }
}

/// The warning counter never goes back.
pub proof fn law_warnings_only_grow(m: MonitorV, desired: Seq<Scalar>, dt: Scalar)
    ensures
        gated(m, desired, dt).2.warnings >= m.warnings,
        idled(m, dt).1.warnings >= m.warnings,
{
}

/// Only clearing the stop clears it: neither a command nor a tick does.
pub proof fn law_stop_is_latched(m: MonitorV, desired: Seq<Scalar>, dt: Scalar)
    ensures
        m.estopped ==> gated(m, desired, dt).2.estopped && idled(m, dt).1.estopped,
        gated(m, desired, dt).2.estopped ==> m.estopped,
{
}

/// A watchdog that only holds never stops the robot.
pub proof fn law_hold_never_stops(m: MonitorV, dt: Scalar)
    requires
        m.cfg.action == WatchdogAction::Hold,
    ensures
        idled(m, dt).1.estopped == m.estopped,
        idled(m, dt).1.prev == m.prev,
{
}

/// What a command does not name as a number leaves its joint where it is, if that is
/// within the limits.
pub proof fn law_bad_numbers_do_not_move(m: MonitorV, desired: Seq<Scalar>, i: int)
    requires
        0 <= i < m.cfg.pos.len(),
        i >= desired.len() || !desired[i].finite(),
    ensures
        wanted(m, desired, i) == m.prev[i],
{
}

} // verus!
