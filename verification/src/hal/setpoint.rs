//! Sources of targets: one per tick, or none, and then the watchdog runs.

use vstd::prelude::*;

use crate::hal::backend::{copy_scalars, zeros};
#[allow(unused_imports)]
use crate::hal::backend::zero_seq;
use crate::motion::trajectory::Trajectory;
#[allow(unused_imports)]
use crate::motion::trajectory::{state_at, TrajV};
#[allow(unused_imports)]
use crate::scalar::convert::fmin;
#[allow(unused_imports)]
use crate::scalar::number::flt;
use crate::scalar::Scalar;

verus! {

/// Ticks that a live target lasts without being set again.
pub const DEFAULT_TELEOP_TICK_BUDGET: u64 = 100;

/// A wanted pose with its velocity and acceleration.
#[derive(Clone, Debug)]
pub struct Target {
    pub q: Vec<Scalar>,
    pub qd: Vec<Scalar>,
    pub qdd: Vec<Scalar>,
}

/// `Target` over sequences.
pub struct TargetV {
    pub q: Seq<Scalar>,
    pub qd: Seq<Scalar>,
    pub qdd: Seq<Scalar>,
}

impl View for Target {
    type V = TargetV;

    open spec fn view(&self) -> TargetV {
        TargetV { q: self.q@, qd: self.qd@, qdd: self.qdd@ }
    }
}

/// A pose at rest.
pub open spec fn at_rest(q: Seq<Scalar>) -> TargetV {
    TargetV { q, qd: zero_seq(q.len()), qdd: zero_seq(q.len()) }
}

impl Target {
    /// A pose at rest.
    pub fn hold(q: Vec<Scalar>) -> (r: Target)
        ensures
            r@ == at_rest(q@),
    {
        let n: usize = q.len();
        Target { q, qd: zeros(n), qdd: zeros(n) }
    }

    /// The same target again.
    pub fn copy(&self) -> (r: Target)
        ensures
            r@ == self@,
    {
        Target {
            q: copy_scalars(self.q.as_slice()),
            qd: copy_scalars(self.qd.as_slice()),
            qdd: copy_scalars(self.qdd.as_slice()),
        }
    }
}

/// A source of targets.
pub trait Setpoint: Send {
    /// The target of a tick, or nothing.
    fn target(&mut self, tick: u64, t: Scalar) -> (r: Option<Target>);

    fn dof(&self) -> (r: usize);
}

/// One pose, forever.
pub struct HoldSetpoint {
    q: Vec<Scalar>,
}

impl HoldSetpoint {
    pub closed spec fn pose(&self) -> Seq<Scalar> {
        self.q@
    }

    pub fn new(q: Vec<Scalar>) -> (r: HoldSetpoint)
        ensures
            r.pose() == q@,
    {
        HoldSetpoint { q }
    }
}

impl Setpoint for HoldSetpoint {
    fn target(&mut self, tick: u64, t: Scalar) -> (r: Option<Target>)
        ensures
            final(self).pose() == old(self).pose(),
            r matches Some(x) && x@ == at_rest(old(self).pose()),
    {
        Some(Target::hold(copy_scalars(self.q.as_slice())))
    }

    fn dof(&self) -> (r: usize)
        ensures
            r == self.pose().len(),
    {
        self.q.len()
    }
}

/// Follows a trajectory by the time of the loop. Afterwards it holds the last pose, or
/// gives nothing.
pub struct TrajectorySetpoint {
    traj: Trajectory,
    hold_after: bool,
}

/// The target of a trajectory at a time.
pub open spec fn target_on(traj: TrajV, hold_after: bool, t: Scalar) -> Option<TargetV> {
    if flt(traj.duration, t) && !hold_after {
        None
    } else {
        let s = state_at(traj, fmin(t, traj.duration));
        Some(TargetV { q: s.q, qd: s.qd, qdd: s.qdd })
    }
}

impl TrajectorySetpoint {
    pub closed spec fn traj(&self) -> TrajV {
        self.traj@
    }

    pub closed spec fn holds(&self) -> bool {
        self.hold_after
    }

    pub fn new(traj: Trajectory) -> (r: TrajectorySetpoint)
        ensures
            r.traj() == traj@,
            r.holds(),
    {
        TrajectorySetpoint { traj, hold_after: true }
    }

    /// Gives nothing once the trajectory has ended.
    pub fn no_hold(self) -> (r: TrajectorySetpoint)
        ensures
            r.traj() == self.traj(),
            !r.holds(),
    {
        TrajectorySetpoint { traj: self.traj, hold_after: false }
    }

    pub fn duration(&self) -> (r: Scalar)
        ensures
            r == self.traj().duration,
    {
        self.traj.duration()
    }
}

impl Setpoint for TrajectorySetpoint {
    fn target(&mut self, tick: u64, t: Scalar) -> (r: Option<Target>)
        ensures
            final(self).traj() == old(self).traj(),
            final(self).holds() == old(self).holds(),
            match r {
                Some(x) => target_on(old(self).traj(), old(self).holds(), t) == Some(x@),
                None => target_on(old(self).traj(), old(self).holds(), t) is None,
            },
    {
        let end = self.traj.duration();
        if t.gt(end) && !self.hold_after {
            return None;
        }
        let s = self.traj.sample(t.min(end));
        Some(Target { q: s.q, qd: s.qd, qdd: s.qdd })
    }

    fn dof(&self) -> (r: usize)
        ensures
            r == self.traj().ndof,
    {
        self.traj.ndof()
    }
}

/// A target set from outside. It goes stale when it is not set again in time, so a
/// dead source runs into the watchdog.
#[derive(Clone)]
pub struct TeleopSetpoint {
    dof: usize,
    current: Target,
    seq: u64,
    budget: u64,
    last_seq: u64,
    last_fresh_tick: u64,
}

/// `TeleopSetpoint` over sequences. It is fresh when it was set since the last look.
pub struct TeleopV {
    pub dof: nat,
    pub current: TargetV,
    pub fresh: bool,
    pub budget: nat,
    pub since: nat,
}

impl View for TeleopSetpoint {
    type V = TeleopV;

    closed spec fn view(&self) -> TeleopV {
        TeleopV {
            dof: self.dof as nat,
            current: self.current@,
            fresh: self.seq != self.last_seq,
            budget: self.budget as nat,
            since: self.last_fresh_tick as nat,
        }
    }
}

/// A look at a live target at a tick: what it gives and what is left.
pub open spec fn looked(s: TeleopV, tick: nat) -> (Option<TargetV>, TeleopV) {
    let since = if s.fresh {
        tick
    } else {
        s.since
    };
    (
        if tick > since && tick - since > s.budget {
            None
        } else {
            Some(s.current)
        },
        TeleopV { fresh: false, since, ..s },
    )
}

impl TeleopSetpoint {
    /// A live target that starts as the pose `q0`.
    pub fn new(q0: Vec<Scalar>) -> (r: TeleopSetpoint)
        ensures
            r@ == (TeleopV {
                dof: q0@.len(),
                current: at_rest(q0@),
                fresh: false,
                budget: DEFAULT_TELEOP_TICK_BUDGET as nat,
                since: 0,
            }),
    {
        let dof: usize = q0.len();
        TeleopSetpoint {
            dof,
            current: Target::hold(q0),
            seq: 0,
            budget: DEFAULT_TELEOP_TICK_BUDGET,
            last_seq: 0,
            last_fresh_tick: 0,
        }
    }

    /// With another number of ticks before the target goes stale.
    pub fn with_tick_budget(self, ticks: u64) -> (r: TeleopSetpoint)
        ensures
            r@ == (TeleopV { budget: ticks as nat, ..self@ }),
    {
        TeleopSetpoint {
            dof: self.dof,
            current: self.current,
            seq: self.seq,
            budget: ticks,
            last_seq: self.last_seq,
            last_fresh_tick: self.last_fresh_tick,
        }
    }

    /// Sets a pose.
    pub fn set(&mut self, q: Vec<Scalar>)
        ensures
            final(self)@ == (TeleopV { current: at_rest(q@), fresh: true, ..old(self)@ }),
    {
        self.set_target(Target::hold(q));
    }

    /// Sets a target.
    pub fn set_target(&mut self, t: Target)
        ensures
            final(self)@ == (TeleopV { current: t@, fresh: true, ..old(self)@ }),
    {
        self.current = t;
        if self.last_seq == u64::MAX {
            self.seq = 0;
        } else {
            self.seq = self.last_seq + 1;
        }
    }
}

impl Setpoint for TeleopSetpoint {
    fn target(&mut self, tick: u64, t: Scalar) -> (r: Option<Target>)
        ensures
            final(self)@ == looked(old(self)@, tick as nat).1,
            match r {
                Some(x) => looked(old(self)@, tick as nat).0 == Some(x@),
                None => looked(old(self)@, tick as nat).0 is None,
            },
    {
        if self.seq != self.last_seq {
            self.last_seq = self.seq;
            self.last_fresh_tick = tick;
        }
        if tick > self.last_fresh_tick && tick - self.last_fresh_tick > self.budget {
            return None;
        }
        Some(self.current.copy())
    }

    fn dof(&self) -> (r: usize)
        ensures
            r == self@.dof,
    {
        self.dof
    }
}

/// A target that is never set again goes stale once its budget is over, and stays so.
pub proof fn law_silence_goes_stale(s: TeleopV, tick: nat)
    requires
        !s.fresh,
        tick > s.since + s.budget,
    ensures
        looked(s, tick).0 is None,
        forall|later: nat| later >= tick ==> (#[trigger] looked(looked(s, tick).1, later)).0 is None,
{
}

/// A target that was just set is given, whatever came before.
pub proof fn law_fresh_target_is_given(s: TeleopV, t: TargetV, tick: nat)
    ensures
        looked(TeleopV { current: t, fresh: true, ..s }, tick).0 == Some(t),
{
}

} // verus!
