//! Which movable joint is the gripper, and what open and closed mean on it.
//!
//! A gripper is recognized by the name of the joint or of its child link. It needs
//! both limits, is not driven by a mimic constraint, and the most distal one wins.

use vstd::prelude::*;

use crate::model::compile::{LinkFrame, Model};
#[allow(unused_imports)]
use crate::scalar::number::{fadd, flt, fmul, fsub};
use crate::scalar::decimal::lower_from;
use crate::scalar::Scalar;
use crate::text::{chars_of, find_text};
#[allow(unused_imports)]
use crate::text::{find_from, lowered};

verus! {

/// Bits of `0.02`, the part of the range that targets keep from the limits.
pub const GRIPPER_TARGET_INSET_BITS: u64 = 0x3F94_7AE1_47AE_147B;

pub open spec fn mentions(s: Seq<char>, hint: Seq<char>) -> bool {
    find_from(lowered(s), 0, hint) is Some
}

/// A name that speaks of a gripper, in any case.
pub open spec fn gripper_name(s: Seq<char>) -> bool {
    mentions(s, "gripper"@) || mentions(s, "finger"@) || mentions(s, "jaw"@) || mentions(
        s,
        "claw"@,
    ) || mentions(s, "hand"@)
}

/// ASCII letters in lower case. No other letter becomes part of a hint in lower case:
/// the two that turn into ASCII letters give `k`, and `i` followed by a mark.
fn lower_text(s: &str) -> (r: Vec<char>)
    ensures
        r@ == lowered(s@),
{
    let c = chars_of(s);
    assert(c@.subrange(0, c@.len() as int) =~= c@);
    lower_from(&c, 0)
}

/// Whether a name speaks of a gripper.
pub fn is_gripper_name(s: &str) -> (r: bool)
    ensures
        r == gripper_name(s@),
{
    let t = lower_text(s);
    find_text(&t, 0, "gripper").is_some() || find_text(&t, 0, "finger").is_some() || find_text(
        &t,
        0,
        "jaw",
    ).is_some() || find_text(&t, 0, "claw").is_some() || find_text(&t, 0, "hand").is_some()
}

/// First frame from `i` on that sits on a movable joint.
pub open spec fn first_on(frames: Seq<LinkFrame>, joint: usize, i: int) -> Option<int>
    decreases frames.len() - i,
{
    if i < 0 || i >= frames.len() {
        None
    } else if frames[i].anchor == Some(joint) {
        Some(i)
    } else {
        first_on(frames, joint, i + 1)
    }
}

pub open spec fn child_frame(m: Model, joint: usize) -> Option<int> {
    if joint >= m.ndof {
        None
    } else {
        first_on(m.frames@, joint, 0)
    }
}

/// The frame of a joint's child link: the first that sits on the joint.
pub fn child_link_frame(m: &Model, joint: usize) -> (r: Option<usize>)
    ensures
        match r {
            Some(f) => child_frame(*m, joint) == Some(f as int) && f < m.frames@.len(),
            None => child_frame(*m, joint) is None,
        },
{
    if joint >= m.ndof {
        return None;
    }
    let mut i: usize = 0;
    while i < m.frames.len()
        invariant
            i <= m.frames.len(),
            joint < m.ndof,
            first_on(m.frames@, joint, 0) == first_on(m.frames@, joint, i as int),
        decreases m.frames.len() - i,
    {
        match m.frames[i].anchor {
            Some(a) => {
                if a == joint {
                    return Some(i);
                }
            },
            None => {},
        }
        i = i + 1;
    }
    None
}

/// The name of a joint's child link.
pub fn child_link_name<'a>(m: &'a Model, joint: usize) -> (r: Option<&'a str>)
    ensures
        match r {
            Some(s) => match child_frame(*m, joint) {
                Some(f) => s@ == m.frames@[f].name@,
                None => false,
            },
            None => child_frame(*m, joint) is None,
        },
{
    match child_link_frame(m, joint) {
        Some(f) => Some(m.frames[f].name.as_str()),
        None => None,
    }
}

/// Open and closed positions: the limits, pulled in a little.
pub open spec fn targets(
    limits: Seq<Option<(Scalar, Scalar)>>,
    joint: int,
    closed_at_lo: bool,
) -> Option<(Scalar, Scalar)> {
    if 0 <= joint < limits.len() {
        match limits[joint] {
            Some((lo, hi)) => if lo.finite() && hi.finite() && flt(lo, hi) {
                let inset = fmul(Scalar { bits: GRIPPER_TARGET_INSET_BITS }, fsub(hi, lo));
                if closed_at_lo {
                    Some((fsub(hi, inset), fadd(lo, inset)))
                } else {
                    Some((fadd(lo, inset), fsub(hi, inset)))
                }
            } else {
                None
            },
            None => None,
        }
    } else {
        None
    }
}

/// The open and the closed position of a joint; `None` without a finite range.
pub fn gripper_targets(m: &Model, joint: usize, closed_at_lo: bool) -> (r: Option<
    (Scalar, Scalar),
>)
    ensures
        r == targets(m.limits@, joint as int, closed_at_lo),
{
    if joint >= m.limits.len() {
        return None;
    }
    match m.limits[joint] {
        Some((lo, hi)) => {
            if lo.is_finite() && hi.is_finite() && hi.gt(lo) {
                let inset = Scalar { bits: GRIPPER_TARGET_INSET_BITS }.mul(hi.sub(lo));
                let lo_t = lo.add(inset);
                let hi_t = hi.sub(inset);
                if closed_at_lo {
                    Some((hi_t, lo_t))
                } else {
                    Some((lo_t, hi_t))
                }
            } else {
                None
            }
        },
        None => None,
    }
}

/// A joint that can be the gripper.
pub open spec fn grips(m: Model, i: int) -> bool {
    &&& m.mimic@[i] is None
    &&& targets(m.limits@, i, true) is Some
    &&& gripper_name(m.joint_names@[i]@) || match child_frame(m, i as usize) {
        Some(f) => gripper_name(m.frames@[f].name@),
        None => false,
    }
}

/// The gripper joint: the most distal that can be one.
pub fn find_gripper_joint(m: &Model) -> (r: Option<usize>)
    requires
        m.wf(),
    ensures
        match r {
            Some(g) => g < m.ndof && grips(*m, g as int) && forall|i: int|
                g < i < m.ndof ==> !#[trigger] grips(*m, i),
            None => forall|i: int| 0 <= i < m.ndof ==> !#[trigger] grips(*m, i),
        },
{
    let mut i: usize = m.ndof;
    while i > 0
        invariant
            i <= m.ndof,
            m.wf(),
            forall|k: int| i <= k < m.ndof ==> !#[trigger] grips(*m, k),
        decreases i,
    {
        i = i - 1;
        let named = is_gripper_name(m.joint_names[i].as_str()) || match child_link_name(m, i) {
            Some(s) => is_gripper_name(s),
            None => false,
        };
        if m.mimic[i].is_none() && gripper_targets(m, i, true).is_some() && named {
            return Some(i);
        }
    }
    None
}

} // verus!
