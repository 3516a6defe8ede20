//! What a simulated robot lets through to its dynamics: commands are refused while it
//! is stopped, not enabled, or in another mode.

use vstd::prelude::*;

use crate::hal::backend::{check_finite, check_len, ControlMode};
#[allow(unused_imports)]
use crate::hal::backend::all_finite;
use crate::hal::error::Error;
#[allow(unused_imports)]
use crate::hal::error::ErrorV;
use crate::scalar::Scalar;

verus! {

/// Lets commands through to a simulation of `dof` joints, or refuses them.
#[derive(Clone, Copy, Debug, PartialEq, Eq, Structural)]
pub struct PhysicsGuard {
    pub mode: ControlMode,
    pub enabled: bool,
    pub estopped: bool,
    pub dof: usize,
}

/// Why some numbers are no joint vector.
pub open spec fn vector_fault(what: Seq<char>, x: Seq<Scalar>, n: nat) -> Option<ErrorV> {
    if x.len() != n {
        Some(ErrorV::DofMismatch { expected: n, got: x.len() })
    } else if !all_finite(x) {
        Some(ErrorV::NonFinite { what })
    } else {
        None
    }
}

/// Why a command in a mode is refused.
pub open spec fn command_fault(
    g: PhysicsGuard,
    what: Seq<char>,
    x: Seq<Scalar>,
    mode: ControlMode,
) -> Option<ErrorV> {
    if vector_fault(what, x, g.dof as nat) is Some {
        vector_fault(what, x, g.dof as nat)
    } else if g.estopped {
        Some(ErrorV::EStopActive)
    } else if !g.enabled {
        Some(ErrorV::NotEnabled)
    } else if g.mode != mode {
        Some(ErrorV::UnsupportedMode(mode))
    } else {
        None
    }
}

/// Why a state cannot be set.
pub open spec fn state_fault(n: nat, q: Seq<Scalar>, qd: Seq<Scalar>) -> Option<ErrorV> {
    if q.len() != n {
        Some(ErrorV::DofMismatch { expected: n, got: q.len() })
    } else if qd.len() != n {
        Some(ErrorV::DofMismatch { expected: n, got: qd.len() })
    } else if !all_finite(q) {
        Some(ErrorV::NonFinite { what: "q"@ })
    } else if !all_finite(qd) {
        Some(ErrorV::NonFinite { what: "qd"@ })
    } else {
        None
    }
}

fn check_vector(what: &'static str, x: &[Scalar], n: usize) -> (r: Result<(), Error>)
    ensures
        match r {
            Ok(_) => vector_fault(what@, x@, n as nat) is None,
            Err(e) => vector_fault(what@, x@, n as nat) == Some(e@),
        },
{
    match check_len(x.len(), n) {
        Ok(_) => check_finite(what, x),
        Err(e) => Err(e),
    }
}

impl PhysicsGuard {
    /// Driven by torques, not enabled yet.
    pub fn new(dof: usize) -> (r: PhysicsGuard)
        ensures
            r == (PhysicsGuard {
                mode: ControlMode::Torque,
                enabled: false,
                estopped: false,
                dof,
            }),
    {
        PhysicsGuard { mode: ControlMode::Torque, enabled: false, estopped: false, dof }
    }

    pub fn enable(&mut self) -> (r: Result<(), Error>)
        ensures
            match r {
                Ok(_) => !old(self).estopped && *final(self) == (PhysicsGuard {
                    enabled: true,
                    ..*old(self)
                }),
                Err(e) => old(self).estopped && e@ == ErrorV::EStopActive && *final(self) == *old(
                    self,
                ),
            },
    {
        if self.estopped {
            return Err(Error::EStopActive);
        }
        self.enabled = true;
        Ok(())
    }

    pub fn disable(&mut self)
        ensures
            *final(self) == (PhysicsGuard { enabled: false, ..*old(self) }),
    {
        self.enabled = false;
    }

    /// Latches, and disables.
    pub fn estop(&mut self)
        ensures
            *final(self) == (PhysicsGuard { estopped: true, enabled: false, ..*old(self) }),
    {
        self.estopped = true;
        self.enabled = false;
    }

    pub fn clear_estop(&mut self)
        ensures
            *final(self) == (PhysicsGuard { estopped: false, ..*old(self) }),
    {
        self.estopped = false;
    }

    pub fn set_mode(&mut self, mode: ControlMode) -> (r: Result<(), Error>)
        ensures
            match r {
                Ok(_) => mode != ControlMode::Velocity && *final(self) == (PhysicsGuard {
                    mode,
                    ..*old(self)
                }),
                Err(e) => mode == ControlMode::Velocity && e@ == ErrorV::UnsupportedMode(mode)
                    && *final(self) == *old(self),
            },
    {
        match mode {
            ControlMode::Velocity => Err(Error::UnsupportedMode(mode)),
            _ => {
                self.mode = mode;
                Ok(())
            },
        }
    }

    fn check_command(&self, what: &'static str, x: &[Scalar], mode: ControlMode) -> (r: Result<
        (),
        Error,
    >)
        ensures
            match r {
                Ok(_) => command_fault(*self, what@, x@, mode) is None,
                Err(e) => command_fault(*self, what@, x@, mode) == Some(e@),
            },
    {
        match check_vector(what, x, self.dof) {
            Ok(_) => {},
            Err(e) => {
                return Err(e);
            },
        }
        if self.estopped {
            return Err(Error::EStopActive);
        }
        if !self.enabled {
            return Err(Error::NotEnabled);
        }
        if self.mode != mode {
            return Err(Error::UnsupportedMode(mode));
        }
        Ok(())
    }

    /// Whether torques may be set.
    pub fn check_torques(&self, tau: &[Scalar]) -> (r: Result<(), Error>)
        ensures
            match r {
                Ok(_) => command_fault(*self, "tau"@, tau@, ControlMode::Torque) is None,
                Err(e) => command_fault(*self, "tau"@, tau@, ControlMode::Torque) == Some(e@),
            },
    {
        self.check_command("tau", tau, ControlMode::Torque)
    }

    /// Whether the pose may be set.
    pub fn check_positions(&self, q: &[Scalar]) -> (r: Result<(), Error>)
        ensures
            match r {
                Ok(_) => command_fault(*self, "q"@, q@, ControlMode::Position) is None,
                Err(e) => command_fault(*self, "q"@, q@, ControlMode::Position) == Some(e@),
            },
    {
        self.check_command("q", q, ControlMode::Position)
    }

    /// Whether a state may be set.
    pub fn check_state(&self, q: &[Scalar], qd: &[Scalar]) -> (r: Result<(), Error>)
        ensures
            match r {
                Ok(_) => state_fault(self.dof as nat, q@, qd@) is None,
                Err(e) => state_fault(self.dof as nat, q@, qd@) == Some(e@),
            },
    {
        match check_len(q.len(), self.dof) {
            Ok(_) => {},
            Err(e) => {
                return Err(e);
            },
        }
        match check_len(qd.len(), self.dof) {
            Ok(_) => {},
            Err(e) => {
                return Err(e);
            },
        }
        match check_finite("q", q) {
            Ok(_) => check_finite("qd", qd),
            Err(e) => Err(e),
        }
    }

    /// The longest substep to integrate with, after a wish for another one.
    pub fn substep(current: Scalar, wished: Scalar) -> (r: Scalar)
        ensures
            r == (if wished.finite() && crate::scalar::number::flt(Scalar { bits: 0 }, wished) {
                wished
            } else {
                current
            }),
    {
        if wished.is_finite() && wished.gt(Scalar { bits: 0 }) {
            wished
        } else {
            current
        }
    }
}

/// A stopped simulation takes no command, and cannot be enabled.
pub proof fn law_stopped_takes_nothing(
    g: PhysicsGuard,
    what: Seq<char>,
    x: Seq<Scalar>,
    mode: ControlMode,
)
    requires
        g.estopped,
    ensures
        command_fault(g, what, x, mode) is Some,
{
}

} // verus!
