//! Why a motion cannot be planned.

use vstd::prelude::*;

use crate::scalar::Scalar;

verus! {

/// Why a motion cannot be planned.
#[derive(Clone, Copy, Debug, PartialEq, Eq, Structural)]
pub enum MotionError {
    DimMismatch,
    OutOfLimits(usize),
    BadLimit(usize),
    SyncFailed,
    Unreachable { s: Scalar, residual: Scalar },
    Discontinuity { s: Scalar, jump: Scalar },
    CollinearArc,
    ZeroLengthSegment,
    BadParam(Param),
}

/// A parameter of a Cartesian move.
#[derive(Clone, Copy, Debug, PartialEq, Eq, Structural)]
pub enum Param {
    VLin,
    ALin,
    JLin,
    VAng,
    AAng,
    JAng,
    Dt,
    Goal,
    ViaEnd,
}

impl Param {
    pub open spec fn label(self) -> Seq<char> {
        match self {
            Param::VLin => "v_lin"@,
            Param::ALin => "a_lin"@,
            Param::JLin => "j_lin"@,
            Param::VAng => "v_ang"@,
            Param::AAng => "a_ang"@,
            Param::JAng => "j_ang"@,
            Param::Dt => "dt"@,
            Param::Goal => "goal pose is non-finite"@,
            Param::ViaEnd => "via/end pose is non-finite"@,
        }
    }

    /// What the parameter is called.
    pub fn name(self) -> (r: &'static str)
        ensures
            r@ == self.label(),
    {
        match self {
            Param::VLin => "v_lin",
            Param::ALin => "a_lin",
            Param::JLin => "j_lin",
            Param::VAng => "v_ang",
            Param::AAng => "a_ang",
            Param::JAng => "j_ang",
            Param::Dt => "dt",
            Param::Goal => "goal pose is non-finite",
            Param::ViaEnd => "via/end pose is non-finite",
        }
    }
}

} // verus!
