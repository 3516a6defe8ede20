//! The backend contract: control modes, lifecycle, commands and state readback.

use vstd::prelude::*;

use crate::hal::error::{backend_error, Error};
#[allow(unused_imports)]
use crate::hal::error::ErrorV;
use crate::scalar::Scalar;
use crate::text::{chars_of, decimal_text, push_text, string_of};
#[allow(unused_imports)]
use crate::text::decimal;

verus! {

/// How a joint command is meant.
#[derive(Clone, Copy, Debug, PartialEq, Eq, Structural)]
pub enum ControlMode {
    Position,
    Velocity,
    Torque,
}

impl Default for ControlMode {
    fn default() -> (r: ControlMode)
        ensures
            r == ControlMode::Position,
    {
        ControlMode::Position
    }
}

/// One consistent reading: positions always, velocities and torques where they
/// can be measured.
#[derive(Debug)]
pub struct JointState {
    pub tick: u64,
    pub t: Scalar,
    pub q: Vec<Scalar>,
    pub qd: Option<Vec<Scalar>>,
    pub tau: Option<Vec<Scalar>>,
}

/// `n` zeros.
pub open spec fn zero_seq(n: nat) -> Seq<Scalar> {
    Seq::new(n, |i: int| Scalar { bits: 0 })
}

/// The view of an optional vector.
pub open spec fn opt_seq(v: Option<Vec<Scalar>>) -> Option<Seq<Scalar>> {
    match v {
        Some(x) => Some(x@),
        None => None,
    }
}

/// `n` zeros.
pub fn zeros(n: usize) -> (r: Vec<Scalar>)
    ensures
        r@ == zero_seq(n as nat),
{
    let mut r: Vec<Scalar> = Vec::new();
    while r.len() < n
        invariant
            r.len() <= n,
            forall|i: int| 0 <= i < r.len() ==> r@[i] == (Scalar { bits: 0 }),
        decreases n - r.len(),
    {
        r.push(Scalar { bits: 0 });
    }
    assert(r@ =~= zero_seq(n as nat));
    r
}

/// A copy of some numbers.
pub fn copy_scalars(s: &[Scalar]) -> (r: Vec<Scalar>)
    ensures
        r@ == s@,
{
    let mut r: Vec<Scalar> = Vec::new();
    let mut i: usize = 0;
    while i < s.len()
        invariant
            i <= s@.len(),
            r@ == s@.take(i as int),
        decreases s@.len() - i,
    {
        r.push(s[i]);
        i = i + 1;
        assert(s@.take(i as int) =~= s@.take(i - 1).push(s@[i - 1]));
    }
    assert(s@.take(s@.len() as int) =~= s@);
    r
}

impl JointState {
    /// The measured velocity, or zeros.
    pub fn qd_or_zero(&self) -> (r: Vec<Scalar>)
        ensures
            r@ == (match opt_seq(self.qd) {
                Some(v) => v,
                None => zero_seq(self.q@.len()),
            }),
    {
        match &self.qd {
            Some(v) => copy_scalars(v.as_slice()),
            None => zeros(self.q.len()),
        }
    }
}

/// `Err` exactly when the length is not the expected one.
pub fn check_len(got: usize, expected: usize) -> (r: Result<(), Error>)
    ensures
        match r {
            Ok(_) => got == expected,
            Err(e) => got != expected && e@ == (ErrorV::DofMismatch {
                expected: expected as nat,
                got: got as nat,
            }),
        },
{
    if got != expected {
        return Err(Error::DofMismatch { expected, got });
    }
    Ok(())
}

pub open spec fn all_finite(s: Seq<Scalar>) -> bool {
    forall|i: int| 0 <= i < s.len() ==> (#[trigger] s[i]).finite()
}

/// `Err` exactly when some number is not finite.
pub fn check_finite(what: &'static str, xs: &[Scalar]) -> (r: Result<(), Error>)
    ensures
        match r {
            Ok(_) => all_finite(xs@),
            Err(e) => !all_finite(xs@) && e@ == (ErrorV::NonFinite { what: what@ }),
        },
{
    let mut i: usize = 0;
    while i < xs.len()
        invariant
            i <= xs@.len(),
            forall|k: int| 0 <= k < i ==> (#[trigger] xs@[k]).finite(),
        decreases xs@.len() - i,
    {
        if !xs[i].is_finite() {
            assert(!xs@[i as int].finite());
            return Err(Error::NonFinite { what });
        }
        i = i + 1;
    }
    Ok(())
}

/// The name of joint `i` where a backend has none of its own.
pub open spec fn joint_label(i: nat) -> Seq<char> {
    "joint_"@ + decimal(i)
}

/// The names of `n` joints that have none.
pub fn numbered_names(n: usize) -> (r: Vec<String>)
    ensures
        r.len() == n,
        forall|i: int| 0 <= i < r.len() ==> (#[trigger] r@[i])@ == joint_label(i as nat),
{
    let mut names: Vec<String> = Vec::new();
    while names.len() < n
        invariant
            names.len() <= n,
            forall|i: int|
                0 <= i < names.len() ==> (#[trigger] names@[i])@ == joint_label(i as nat),
        decreases n - names.len(),
    {
        let mut s = chars_of("joint_");
        push_text(&mut s, &decimal_text(names.len() as u128));
        names.push(string_of(&s));
    }
    names
}

/// A robot, simulated or real, driven by the same commands. Commands are
/// validated before anything is done.
pub trait RobotBackend: Send {
    /// Number of joints.
    fn dof(&self) -> (r: usize);

    /// Unless a backend knows better, joints are named by their numbers.
    fn joint_names(&self) -> (r: Vec<String>)
        default_ensures
            forall|i: int| 0 <= i < r.len() ==> (#[trigger] r@[i])@ == joint_label(i as nat),
            exists|n: usize| r.len() == n && #[trigger] call_ensures(Self::dof, (self,), n),
    {
        numbered_names(self.dof())
    }

    fn enable(&mut self) -> (r: Result<(), Error>)
        default_ensures
            r is Ok,
    {
        Ok(())
    }

    fn disable(&mut self) -> (r: Result<(), Error>)
        default_ensures
            r is Ok,
    {
        Ok(())
    }

    fn is_enabled(&self) -> (r: bool)
        default_ensures
            r,
    {
        true
    }

    /// Latches: commands are refused until it is cleared. There is no safe
    /// default, so a backend without one fails.
    fn estop(&mut self) -> (r: Result<(), Error>)
        default_ensures
            r matches Err(e) && e@ == ErrorV::Backend(
                "estop() not implemented by this backend"@,
            ),
    {
        Err(backend_error("estop() not implemented by this backend"))
    }

    fn clear_estop(&mut self) -> (r: Result<(), Error>)
        default_ensures
            r is Ok,
    {
        Ok(())
    }

    fn is_estopped(&self) -> (r: bool)
        default_ensures
            !r,
    {
        false
    }

    fn mode(&self) -> (r: ControlMode)
        default_ensures
            r == ControlMode::Position,
    {
        ControlMode::Position
    }

    fn set_mode(&mut self, mode: ControlMode) -> (r: Result<(), Error>)
        default_ensures
            match r {
                Ok(_) => mode == ControlMode::Position,
                Err(e) => mode != ControlMode::Position && e@ == ErrorV::UnsupportedMode(mode),
            },
    {
        match mode {
            ControlMode::Position => Ok(()),
            m => Err(Error::UnsupportedMode(m)),
        }
    }

    fn command_joint_positions(&mut self, q: &[Scalar]) -> (r: Result<(), Error>);

    fn command_joint_velocities(&mut self, qd: &[Scalar]) -> (r: Result<(), Error>)
        default_ensures
            r matches Err(e) && e@ == ErrorV::UnsupportedMode(ControlMode::Velocity),
    {
        Err(Error::UnsupportedMode(ControlMode::Velocity))
    }

    fn command_joint_torques(&mut self, tau: &[Scalar]) -> (r: Result<(), Error>)
        default_ensures
            r matches Err(e) && e@ == ErrorV::UnsupportedMode(ControlMode::Torque),
    {
        Err(Error::UnsupportedMode(ControlMode::Torque))
    }

    /// One consistent reading.
    fn read_state(&mut self) -> (r: Result<JointState, Error>);

    /// The positions last known.
    fn joint_positions(&self) -> (r: Vec<Scalar>);

    /// Advances a simulation by `dt`; hardware advances itself.
    fn step(&mut self, dt: Scalar) -> (r: Result<(), Error>)
        default_ensures
            r is Ok,
    {
        Ok(())
    }
}

} // verus!
