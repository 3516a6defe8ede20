use vstd::prelude::*;

use crate::text::{chars_of, push_lit, string_of};

verus! {

/// Why a description does not compile.
#[derive(Clone, Debug)]
pub enum CompileError {
    Parse(String),
    DanglingLink(String),
    UnsupportedJoint(String),
    MultiParent(String),
    NoRoot,
    MultiRoot,
    ZeroAxis(String),
    Disconnected(String),
    MimicUnknownSource { joint: String, src_joint: String },
    MimicOfMimic { joint: String, src_joint: String },
    MimicUnsupportedJoint(String),
}

/// `CompileError` over character sequences.
pub enum CompileFault {
    Parse(Seq<char>),
    DanglingLink(Seq<char>),
    UnsupportedJoint(Seq<char>),
    MultiParent(Seq<char>),
    NoRoot,
    MultiRoot,
    ZeroAxis(Seq<char>),
    Disconnected(Seq<char>),
    MimicUnknownSource { joint: Seq<char>, src_joint: Seq<char> },
    MimicOfMimic { joint: Seq<char>, src_joint: Seq<char> },
    MimicUnsupportedJoint(Seq<char>),
}

impl View for CompileError {
    type V = CompileFault;

    open spec fn view(&self) -> CompileFault {
        match *self {
            CompileError::Parse(s) => CompileFault::Parse(s@),
            CompileError::DanglingLink(s) => CompileFault::DanglingLink(s@),
            CompileError::UnsupportedJoint(s) => CompileFault::UnsupportedJoint(s@),
            CompileError::MultiParent(s) => CompileFault::MultiParent(s@),
            CompileError::NoRoot => CompileFault::NoRoot,
            CompileError::MultiRoot => CompileFault::MultiRoot,
            CompileError::ZeroAxis(s) => CompileFault::ZeroAxis(s@),
            CompileError::Disconnected(s) => CompileFault::Disconnected(s@),
            CompileError::MimicUnknownSource { joint, src_joint } =>
                CompileFault::MimicUnknownSource { joint: joint@, src_joint: src_joint@ },
            CompileError::MimicOfMimic { joint, src_joint } => CompileFault::MimicOfMimic {
                joint: joint@,
                src_joint: src_joint@,
            },
            CompileError::MimicUnsupportedJoint(s) => CompileFault::MimicUnsupportedJoint(s@),
        }
    }
}

/// The message a fault is reported with.
pub open spec fn compile_text(f: CompileFault) -> Seq<char> {
    match f {
        CompileFault::Parse(s) => "urdf parse: "@ + s,
        CompileFault::DanglingLink(s) => "joint references unknown link `"@ + s + "`"@,
        CompileFault::UnsupportedJoint(s) => "unsupported joint type `"@ + s
            + "` (Phase 1: revolute/continuous/prismatic/fixed)"@,
        CompileFault::MultiParent(s) => "link `"@ + s
            + "` has multiple parent joints (not a tree)"@,
        CompileFault::NoRoot => "no root link found"@,
        CompileFault::MultiRoot => "multiple root links (forest not supported)"@,
        CompileFault::ZeroAxis(s) => "joint `"@ + s + "` has a zero-length axis"@,
        CompileFault::Disconnected(s) => "link `"@ + s
            + "` is unreachable from the root (cycle or disconnected subtree)"@,
        CompileFault::MimicUnknownSource { joint, src_joint } => "joint `"@ + joint
            + "` mimics unknown movable joint `"@ + src_joint + "`"@,
        CompileFault::MimicOfMimic { joint, src_joint } => "joint `"@ + joint + "` mimics `"@
            + src_joint + "`, which is itself a mimic (mimic chains not supported)"@,
        CompileFault::MimicUnsupportedJoint(s) => "mimic on joint `"@ + s
            + "` is only supported for revolute/continuous/prismatic joints"@,
    }
}

fn framed(a: &str, b: &str, c: &str) -> (r: String)
    ensures
        r@ == a@ + b@ + c@,
{
    let mut out = chars_of(a);
    push_lit(&mut out, b);
    push_lit(&mut out, c);
    string_of(&out)
}

fn framed_pair(a: &str, b: &str, c: &str, d: &str, e: &str) -> (r: String)
    ensures
        r@ == a@ + b@ + c@ + d@ + e@,
{
    let mut out = chars_of(a);
    push_lit(&mut out, b);
    push_lit(&mut out, c);
    push_lit(&mut out, d);
    push_lit(&mut out, e);
    string_of(&out)
}

impl CompileError {
    /// The message this error is reported with.
    pub fn to_string(&self) -> (r: String)
        ensures
            r@ == compile_text(self@),
    {
        proof {
            reveal_strlit("");
        }
        match self {
            CompileError::Parse(s) => {
                let r = framed("urdf parse: ", s.as_str(), "");
                assert(r@ =~= compile_text(self@));
                r
            },
            CompileError::DanglingLink(s) => framed(
                "joint references unknown link `",
                s.as_str(),
                "`",
            ),
            CompileError::UnsupportedJoint(s) => framed(
                "unsupported joint type `",
                s.as_str(),
                "` (Phase 1: revolute/continuous/prismatic/fixed)",
            ),
            CompileError::MultiParent(s) => framed(
                "link `",
                s.as_str(),
                "` has multiple parent joints (not a tree)",
            ),
            CompileError::NoRoot => string_of(&chars_of("no root link found")),
            CompileError::MultiRoot => string_of(
                &chars_of("multiple root links (forest not supported)"),
            ),
            CompileError::ZeroAxis(s) => framed(
                "joint `",
                s.as_str(),
                "` has a zero-length axis",
            ),
            CompileError::Disconnected(s) => framed(
                "link `",
                s.as_str(),
                "` is unreachable from the root (cycle or disconnected subtree)",
            ),
            CompileError::MimicUnknownSource { joint, src_joint } => framed_pair(
                "joint `",
                joint.as_str(),
                "` mimics unknown movable joint `",
                src_joint.as_str(),
                "`",
            ),
            CompileError::MimicOfMimic { joint, src_joint } => framed_pair(
                "joint `",
                joint.as_str(),
                "` mimics `",
                src_joint.as_str(),
                "`, which is itself a mimic (mimic chains not supported)",
            ),
            CompileError::MimicUnsupportedJoint(s) => framed(
                "mimic on joint `",
                s.as_str(),
                "` is only supported for revolute/continuous/prismatic joints",
            ),
        }
    }
}

} // verus!
