//! A kinematic backend that holds the last commanded pose.

use vstd::prelude::*;

use crate::hal::backend::{
    check_finite, check_len, copy_scalars, zeros, ControlMode, JointState, RobotBackend,
};
#[allow(unused_imports)]
use crate::hal::backend::{all_finite, opt_seq, zero_seq};
#[allow(unused_imports)]
use crate::hal::control::{same_answer, same_reading};
use crate::hal::error::Error;
#[allow(unused_imports)]
use crate::hal::error::ErrorV;
#[allow(unused_imports)]
use crate::scalar::number::fadd;
use crate::scalar::Scalar;

verus! {

/// Position only, and enabled from the start: a teleport target.
#[derive(Debug)]
pub struct SimBackend {
    q: Vec<Scalar>,
    enabled: bool,
    estopped: bool,
    t: Scalar,
}

/// `SimBackend` as plain values.
pub struct SimState {
    pub q: Seq<Scalar>,
    pub enabled: bool,
    pub estopped: bool,
    pub t: Scalar,
}

/// Why a position command is refused: length, finiteness, then the latches.
pub open spec fn position_fault(s: SimState, q: Seq<Scalar>) -> Option<ErrorV> {
    if q.len() != s.q.len() {
        Some(ErrorV::DofMismatch { expected: s.q.len(), got: q.len() })
    } else if !all_finite(q) {
        Some(ErrorV::NonFinite { what: "q"@ })
    } else if s.estopped {
        Some(ErrorV::EStopActive)
    } else if !s.enabled {
        Some(ErrorV::NotEnabled)
    } else {
        None
    }
}

impl View for SimBackend {
    type V = SimState;

    closed spec fn view(&self) -> SimState {
        SimState { q: self.q@, enabled: self.enabled, estopped: self.estopped, t: self.t }
    }
}

impl SimBackend {
    /// `dof` joints at zero.
    pub fn new(dof: usize) -> (r: SimBackend)
        ensures
            r@ == (SimState {
                q: zero_seq(dof as nat),
                enabled: true,
                estopped: false,
                t: Scalar { bits: 0 },
            }),
    {
        SimBackend { q: zeros(dof), enabled: true, estopped: false, t: Scalar { bits: 0 } }
    }

    /// The same backend at the pose `q`.
    pub fn with_positions(self, q: &[Scalar]) -> (r: Result<SimBackend, Error>)
        ensures
            match r {
                Ok(b) => q@.len() == self@.q.len() && all_finite(q@) && b@ == (SimState {
                    q: q@,
                    ..self@
                }),
                Err(e) => if q@.len() != self@.q.len() {
                    e@ == (ErrorV::DofMismatch { expected: self@.q.len(), got: q@.len() })
                } else {
                    !all_finite(q@) && e@ == (ErrorV::NonFinite { what: "q"@ })
                },
            },
    {
        match check_len(q.len(), self.q.len()) {
            Ok(_) => {},
            Err(e) => {
                return Err(e);
            },
        }
        match check_finite("q", q) {
            Ok(_) => {},
            Err(e) => {
                return Err(e);
            },
        }
        Ok(
            SimBackend {
                q: copy_scalars(q),
                enabled: self.enabled,
                estopped: self.estopped,
                t: self.t,
            },
        )
    }
}

impl SimBackend {
    /// Number of joints.
    pub open spec fn joints(&self) -> nat {
        self@.q.len()
    }
}

impl RobotBackend for SimBackend {
    fn dof(&self) -> (r: usize)
        ensures
            r == self.joints(),
    {
        self.q.len()
    }

    fn joint_positions(&self) -> (r: Vec<Scalar>)
        ensures
            r@ == self@.q,
    {
        copy_scalars(self.q.as_slice())
    }

    fn enable(&mut self) -> (r: Result<(), Error>)
        ensures
            match r {
                Ok(_) => !old(self)@.estopped && final(self)@ == (SimState {
                    enabled: true,
                    ..old(self)@
                }),
                Err(e) => old(self)@.estopped && e@ == ErrorV::EStopActive && final(self)@ == old(
                    self,
                )@,
            },
    {
        if self.estopped {
            return Err(Error::EStopActive);
        }
        self.enabled = true;
        Ok(())
    }

    fn disable(&mut self) -> (r: Result<(), Error>)
        ensures
            r is Ok,
            final(self)@ == (SimState { enabled: false, ..old(self)@ }),
    {
        self.enabled = false;
        Ok(())
    }

    fn is_enabled(&self) -> (r: bool)
        ensures
            r == self@.enabled,
    {
        self.enabled
    }

    fn estop(&mut self) -> (r: Result<(), Error>)
        ensures
            r is Ok,
            final(self)@ == (SimState { estopped: true, enabled: false, ..old(self)@ }),
    {
        self.estopped = true;
        self.enabled = false;
        Ok(())
    }

    fn clear_estop(&mut self) -> (r: Result<(), Error>)
        ensures
            r is Ok,
            final(self)@ == (SimState { estopped: false, ..old(self)@ }),
    {
        self.estopped = false;
        Ok(())
    }

    fn is_estopped(&self) -> (r: bool)
        ensures
            r == self@.estopped,
    {
        self.estopped
    }

    fn mode(&self) -> (r: ControlMode)
        ensures
            r == ControlMode::Position,
    {
        ControlMode::Position
    }

    fn set_mode(&mut self, mode: ControlMode) -> (r: Result<(), Error>)
        ensures
            match r {
                Ok(_) => mode == ControlMode::Position,
                Err(e) => mode != ControlMode::Position && e@ == ErrorV::UnsupportedMode(mode),
            },
            final(self)@ == old(self)@,
    {
        match mode {
            ControlMode::Position => Ok(()),
            m => Err(Error::UnsupportedMode(m)),
        }
    }

    fn command_joint_positions(&mut self, q: &[Scalar]) -> (r: Result<(), Error>)
        ensures
            match r {
                Ok(_) => position_fault(old(self)@, q@) is None && final(self)@ == (SimState {
                    q: q@,
                    ..old(self)@
                }),
                Err(e) => position_fault(old(self)@, q@) == Some(e@) && final(self)@ == old(
                    self,
                )@,
            },
    {
        match check_len(q.len(), self.q.len()) {
            Ok(_) => {},
            Err(e) => {
                return Err(e);
            },
        }
        match check_finite("q", q) {
            Ok(_) => {},
            Err(e) => {
                return Err(e);
            },
        }
        if self.estopped {
            return Err(Error::EStopActive);
        }
        if !self.enabled {
            return Err(Error::NotEnabled);
        }
        self.q = copy_scalars(q);
        Ok(())
    }

    fn command_joint_velocities(&mut self, qd: &[Scalar]) -> (r: Result<(), Error>)
        ensures
            r matches Err(e) && e@ == ErrorV::UnsupportedMode(ControlMode::Velocity),
            final(self)@ == old(self)@,
    {
        Err(Error::UnsupportedMode(ControlMode::Velocity))
    }

    fn command_joint_torques(&mut self, tau: &[Scalar]) -> (r: Result<(), Error>)
        ensures
            r matches Err(e) && e@ == ErrorV::UnsupportedMode(ControlMode::Torque),
            final(self)@ == old(self)@,
    {
        Err(Error::UnsupportedMode(ControlMode::Torque))
    }

    fn read_state(&mut self) -> (r: Result<JointState, Error>)
        ensures
            final(self)@ == old(self)@,
            match r {
                Ok(s) => s.tick == 0 && s.t == old(self)@.t && s.q@ == old(self)@.q && opt_seq(
                    s.qd,
                ) == Some(zero_seq(old(self)@.q.len())) && s.tau is None,
                Err(_) => false,
            },
    {
        let n = self.q.len();
        Ok(
            JointState {
                tick: 0,
                t: self.t,
                q: copy_scalars(self.q.as_slice()),
                qd: Some(zeros(n)),
                tau: None,
            },
        )
    }

    fn step(&mut self, dt: Scalar) -> (r: Result<(), Error>)
        ensures
            r is Ok,
            final(self)@ == (SimState { t: fadd(old(self)@.t, dt), ..old(self)@ }),
    {
        self.t = self.t.add(dt);
        Ok(())
    }
}

/// An e-stop blocks every position command until it is cleared and the backend
/// enabled again.
pub proof fn law_estop_blocks(s: SimState, q: Seq<Scalar>)
    requires
        s.estopped,
    ensures
        position_fault(s, q) is Some,
        position_fault((SimState { estopped: false, enabled: false, ..s }), q) is Some,
{
}

/// Two simulations in the same state answer alike, and are in the same state afterwards:
/// what a recording and a stream of the same move ask of their robots.
pub proof fn law_sims_answer_alike()
    ensures
        (forall|
            m: &mut SimBackend,
            w: &mut SimBackend,
            a: Result<JointState, Error>,
            b: Result<JointState, Error>,
        |
            m@ == w@ && #[trigger] call_ensures(SimBackend::read_state, (m,), a)
                && #[trigger] call_ensures(SimBackend::read_state, (w,), b) ==> same_reading(a, b)
                && final(m)@ == final(w)@),
        (forall|m: SimBackend, w: SimBackend, a: ControlMode, b: ControlMode|
            m@ == w@ && #[trigger] call_ensures(SimBackend::mode, (&m,), a)
                && #[trigger] call_ensures(SimBackend::mode, (&w,), b) ==> a == b),
        (forall|
            m: &mut SimBackend,
            w: &mut SimBackend,
            c: &[Scalar],
            d: &[Scalar],
            a: Result<(), Error>,
            b: Result<(), Error>,
        |
            m@ == w@ && c@ == d@ && #[trigger] call_ensures(
                SimBackend::command_joint_positions,
                (m, c),
                a,
            ) && #[trigger] call_ensures(SimBackend::command_joint_positions, (w, d), b)
                ==> same_answer(a, b) && final(m)@ == final(w)@),
        (forall|
            m: &mut SimBackend,
            w: &mut SimBackend,
            c: &[Scalar],
            d: &[Scalar],
            a: Result<(), Error>,
            b: Result<(), Error>,
        |
            m@ == w@ && c@ == d@ && #[trigger] call_ensures(
                SimBackend::command_joint_velocities,
                (m, c),
                a,
            ) && #[trigger] call_ensures(SimBackend::command_joint_velocities, (w, d), b)
                ==> same_answer(a, b) && final(m)@ == final(w)@),
        (forall|
            m: &mut SimBackend,
            w: &mut SimBackend,
            c: &[Scalar],
            d: &[Scalar],
            a: Result<(), Error>,
            b: Result<(), Error>,
        |
            m@ == w@ && c@ == d@ && #[trigger] call_ensures(
                SimBackend::command_joint_torques,
                (m, c),
                a,
            ) && #[trigger] call_ensures(SimBackend::command_joint_torques, (w, d), b)
                ==> same_answer(a, b) && final(m)@ == final(w)@),
        (forall|
            m: &mut SimBackend,
            w: &mut SimBackend,
            h: Scalar,
            a: Result<(), Error>,
            b: Result<(), Error>,
        |
            m@ == w@ && #[trigger] call_ensures(SimBackend::step, (m, h), a)
                && #[trigger] call_ensures(SimBackend::step, (w, h), b) ==> same_answer(a, b)
                && final(m)@ == final(w)@),
{
}

} // verus!
