use vstd::prelude::*;

use crate::hal::backend::ControlMode;
use crate::scalar::Scalar;
#[allow(unused_imports)]
use crate::scalar::show::shown;
use crate::scalar::show::show_number;
use crate::text::{chars_of, decimal_text, push_lit, push_text, string_of};
#[allow(unused_imports)]
use crate::text::decimal;

verus! {

/// Why a backend refuses or fails.
#[derive(Clone, Debug)]
pub enum Error {
    DofMismatch { expected: usize, got: usize },
    NonFinite { what: &'static str },
    NotEnabled,
    EStopActive,
    UnsupportedMode(ControlMode),
    JointLimit { joint: usize, value: Scalar, lo: Scalar, hi: Scalar },
    NotConnected,
    /// Hardware that is not there, never a made-up success.
    HardwareRequired(&'static str),
    Collision(String),
    Io(String),
    Timeout,
    /// A failure of the dynamics, in its own words.
    Dyn(String),
    /// Anything else a backend reports.
    Backend(String),
}

/// `Error` over character sequences.
pub enum ErrorV {
    DofMismatch { expected: nat, got: nat },
    NonFinite { what: Seq<char> },
    NotEnabled,
    EStopActive,
    UnsupportedMode(ControlMode),
    JointLimit { joint: nat, value: Scalar, lo: Scalar, hi: Scalar },
    NotConnected,
    HardwareRequired(Seq<char>),
    Collision(Seq<char>),
    Io(Seq<char>),
    Timeout,
    Dyn(Seq<char>),
    Backend(Seq<char>),
}

impl View for Error {
    type V = ErrorV;

    open spec fn view(&self) -> ErrorV {
        match *self {
            Error::DofMismatch { expected, got } => ErrorV::DofMismatch {
                expected: expected as nat,
                got: got as nat,
            },
            Error::NonFinite { what } => ErrorV::NonFinite { what: what@ },
            Error::NotEnabled => ErrorV::NotEnabled,
            Error::EStopActive => ErrorV::EStopActive,
            Error::UnsupportedMode(m) => ErrorV::UnsupportedMode(m),
            Error::JointLimit { joint, value, lo, hi } => ErrorV::JointLimit {
                joint: joint as nat,
                value,
                lo,
                hi,
            },
            Error::NotConnected => ErrorV::NotConnected,
            Error::HardwareRequired(s) => ErrorV::HardwareRequired(s@),
            Error::Collision(s) => ErrorV::Collision(s@),
            Error::Io(s) => ErrorV::Io(s@),
            Error::Timeout => ErrorV::Timeout,
            Error::Dyn(s) => ErrorV::Dyn(s@),
            Error::Backend(s) => ErrorV::Backend(s@),
        }
    }
}

pub open spec fn mode_text(m: ControlMode) -> Seq<char> {
    match m {
        ControlMode::Position => "Position"@,
        ControlMode::Velocity => "Velocity"@,
        ControlMode::Torque => "Torque"@,
    }
}

/// The message an error is reported with.
pub open spec fn error_text(e: ErrorV) -> Seq<char> {
    match e {
        ErrorV::DofMismatch { expected, got } => "expected "@ + decimal(expected)
            + " joints, got "@ + decimal(got),
        ErrorV::NonFinite { what } => "non-finite value in "@ + what,
        ErrorV::NotEnabled => "backend not enabled"@,
        ErrorV::EStopActive => "emergency stop active"@,
        ErrorV::UnsupportedMode(m) => "control mode "@ + mode_text(m)
            + " not supported by this backend"@,
        ErrorV::JointLimit { joint, value, lo, hi } => "joint "@ + decimal(joint) + " value "@
            + shown(value) + " outside limit ["@ + shown(lo) + ", "@ + shown(hi) + "]"@,
        ErrorV::NotConnected => "not connected"@,
        ErrorV::HardwareRequired(s) => "hardware required: "@ + s,
        ErrorV::Collision(s) => "collision: "@ + s,
        ErrorV::Io(s) => "io: "@ + s,
        ErrorV::Timeout => "timeout"@,
        ErrorV::Dyn(s) => s,
        ErrorV::Backend(s) => "backend error: "@ + s,
    }
}

impl Error {
    /// The message this error is reported with.
    pub fn to_string(&self) -> (r: String)
        ensures
            r@ == error_text(self@),
    {
        let mut out: Vec<char> = Vec::new();
        match self {
            Error::DofMismatch { expected, got } => {
                push_lit(&mut out, "expected ");
                push_text(&mut out, &decimal_text(*expected as u128));
                push_lit(&mut out, " joints, got ");
                push_text(&mut out, &decimal_text(*got as u128));
            },
            Error::NonFinite { what } => {
                push_lit(&mut out, "non-finite value in ");
                push_lit(&mut out, what);
            },
            Error::NotEnabled => push_lit(&mut out, "backend not enabled"),
            Error::EStopActive => push_lit(&mut out, "emergency stop active"),
            Error::UnsupportedMode(m) => {
                push_lit(&mut out, "control mode ");
                match m {
                    ControlMode::Position => push_lit(&mut out, "Position"),
                    ControlMode::Velocity => push_lit(&mut out, "Velocity"),
                    ControlMode::Torque => push_lit(&mut out, "Torque"),
                }
                push_lit(&mut out, " not supported by this backend");
            },
            Error::JointLimit { joint, value, lo, hi } => {
                push_lit(&mut out, "joint ");
                push_text(&mut out, &decimal_text(*joint as u128));
                push_lit(&mut out, " value ");
                push_text(&mut out, &show_number(*value));
                push_lit(&mut out, " outside limit [");
                push_text(&mut out, &show_number(*lo));
                push_lit(&mut out, ", ");
                push_text(&mut out, &show_number(*hi));
                push_lit(&mut out, "]");
            },
            Error::NotConnected => push_lit(&mut out, "not connected"),
            Error::HardwareRequired(s) => {
                push_lit(&mut out, "hardware required: ");
                push_lit(&mut out, s);
            },
            Error::Collision(s) => {
                push_lit(&mut out, "collision: ");
                push_lit(&mut out, s.as_str());
            },
            Error::Io(s) => {
                push_lit(&mut out, "io: ");
                push_lit(&mut out, s.as_str());
            },
            Error::Timeout => push_lit(&mut out, "timeout"),
            Error::Dyn(s) => push_lit(&mut out, s.as_str()),
            Error::Backend(s) => {
                push_lit(&mut out, "backend error: ");
                push_lit(&mut out, s.as_str());
            },
        }
        assert(out@ =~= error_text(self@));
        string_of(&out)
    }
}

/// A backend's own message.
pub fn backend_error(msg: &str) -> (r: Error)
    ensures
        r@ == ErrorV::Backend(msg@),
{
    Error::Backend(string_of(&chars_of(msg)))
}

} // verus!
