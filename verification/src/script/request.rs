//! Requests of a scripting front end: plain numbers and names, checked before anything
//! is computed from them.

use vstd::prelude::*;

use crate::ik::solve::MILLI_BITS;
use crate::kinematics::singular::{JacFrame, SingularityKind};
use crate::model::compile::Model;
#[allow(unused_imports)]
use crate::model::config::link_frame_names;
#[allow(unused_imports)]
use crate::model::tree::last_named;
use crate::motion::error::MotionError;
use crate::motion::limits::{MotionLimits, MotionLimitsConfig};
#[allow(unused_imports)]
use crate::motion::limits::{derived, first_bad, with_overrides, LimitsV};
use crate::planning::reach::ReachStatus;
#[allow(unused_imports)]
use crate::scalar::consts::{FIVE_BITS, MICRO_BITS, ONE_BITS, TEN_BITS};
#[allow(unused_imports)]
use crate::scalar::convert::{fmax, from_int};
#[allow(unused_imports)]
use crate::scalar::number::{fdiv, fle, flt};
use crate::scalar::{Scalar, Vec3};
use crate::text::{chars_of, is_text};

verus! {

/// Why a request is refused.
#[derive(Clone, Copy, Debug)]
pub enum RequestError {
    /// The named list is not as long as the robot has joints.
    Length { label: &'static str, got: usize, want: usize },
    /// The named list holds a NaN or an infinity.
    NotFinite { label: &'static str },
    UnknownFrame,
    UnknownReference,
    /// A target is four columns of four numbers.
    NotFourByFour,
    /// A target is twelve finite numbers.
    NotTwelve,
    /// Velocity, acceleration and jerk limits differ in length.
    LimitLengths,
    /// Damping is finite and not negative.
    Damping,
    /// A horizon is above zero and at most ten minutes.
    Horizon,
    /// Control needs a robot with inertia.
    NoInertia,
}

/// All numbers are finite.
pub open spec fn all_finite(xs: Seq<Scalar>) -> bool {
    forall|i: int| 0 <= i < xs.len() ==> (#[trigger] xs[i]).finite()
}

/// A rotation, by the rows of its matrix, and a translation.
#[derive(Clone, Copy, Debug, PartialEq, Eq, Structural)]
pub struct Placement {
    pub row0: Vec3,
    pub row1: Vec3,
    pub row2: Vec3,
    pub at: Vec3,
}

/// Four columns of four numbers.
pub open spec fn four_by_four(t: Seq<Vec<Scalar>>) -> bool {
    t.len() == 4 && forall|c: int| 0 <= c < 4 ==> (#[trigger] t[c])@.len() == 4
}

/// The placement that a matrix holds, given by its columns. Its last row is not read.
pub open spec fn read_columns(t: Seq<Seq<Scalar>>) -> Placement {
    Placement {
        row0: Vec3 { x: t[0][0], y: t[1][0], z: t[2][0] },
        row1: Vec3 { x: t[0][1], y: t[1][1], z: t[2][1] },
        row2: Vec3 { x: t[0][2], y: t[1][2], z: t[2][2] },
        at: Vec3 { x: t[3][0], y: t[3][1], z: t[3][2] },
    }
}

/// The matrix of a placement, by rows.
pub open spec fn written_rows(p: Placement) -> Seq<Seq<Scalar>> {
    let zero = Scalar { bits: 0 };
    seq![
        seq![p.row0.x, p.row0.y, p.row0.z, p.at.x],
        seq![p.row1.x, p.row1.y, p.row1.z, p.at.y],
        seq![p.row2.x, p.row2.y, p.row2.z, p.at.z],
        seq![zero, zero, zero, Scalar { bits: ONE_BITS }],
    ]
}

/// Rows of four as columns.
pub open spec fn transposed(t: Seq<Seq<Scalar>>) -> Seq<Seq<Scalar>> {
    Seq::new(4, |c: int| Seq::new(4, |r: int| t[r][c]))
}

/// The placement of nine numbers of a rotation, row by row, and three of a translation.
pub open spec fn read_twelve(t: Seq<Scalar>) -> Placement {
    Placement {
        row0: Vec3 { x: t[0], y: t[1], z: t[2] },
        row1: Vec3 { x: t[3], y: t[4], z: t[5] },
        row2: Vec3 { x: t[6], y: t[7], z: t[8] },
        at: Vec3 { x: t[9], y: t[10], z: t[11] },
    }
}

pub open spec fn columns_of(t: Seq<Vec<Scalar>>) -> Seq<Seq<Scalar>> {
    Seq::new(t.len(), |c: int| t[c]@)
}

/// Every column is finite.
pub open spec fn columns_finite(t: Seq<Vec<Scalar>>) -> bool {
    forall|c: int| 0 <= c < t.len() ==> all_finite((#[trigger] t[c])@)
}

/// The frame that a name stands for; no name stands for the tip.
pub open spec fn frame_for(m: Model, frame: Option<&str>) -> Option<int> {
    match frame {
        None => Some(m.frames@.len() - 1),
        Some(name) => last_named(link_frame_names(m.frames@), name@),
    }
}

/// Refuses a NaN or an infinity.
pub fn finite_or_err(label: &'static str, xs: &Vec<Scalar>) -> (r: Result<(), RequestError>)
    ensures
        r is Ok <==> all_finite(xs@),
        r matches Err(e) ==> e == (RequestError::NotFinite { label }),
{
    let mut i: usize = 0;
    while i < xs.len()
        invariant
            i <= xs.len(),
            forall|k: int| 0 <= k < i ==> (#[trigger] xs@[k]).finite(),
        decreases xs.len() - i,
    {
        if !xs[i].is_finite() {
            return Err(RequestError::NotFinite { label });
        }
        i = i + 1;
    }
    Ok(())
}

/// A configuration has as many numbers as the robot has joints, and they are finite.
pub fn check_goal(label: &'static str, goal: &Vec<Scalar>, ndof: usize) -> (r: Result<
    (),
    RequestError,
>)
    ensures
        goal@.len() != ndof ==> r == Err::<(), RequestError>(
            RequestError::Length { label, got: goal.len(), want: ndof },
        ),
        goal@.len() == ndof && !all_finite(goal@) ==> r == Err::<(), RequestError>(
            RequestError::NotFinite { label },
        ),
        goal@.len() == ndof && all_finite(goal@) ==> r is Ok,
{
    if goal.len() != ndof {
        return Err(RequestError::Length { label, got: goal.len(), want: ndof });
    }
    finite_or_err(label, goal)
}

/// The frame that a name stands for; no name stands for the tip.
pub fn resolve_frame(model: &Model, frame: Option<&str>) -> (r: Result<usize, RequestError>)
    requires
        frame is None ==> model.frames@.len() > 0,
    ensures
        match frame_for(*model, frame) {
            Some(f) => r matches Ok(k) && k == f,
            None => r == Err::<usize, RequestError>(RequestError::UnknownFrame),
        },
{
    match frame {
        None => Ok(model.tip_frame()),
        Some(name) => match model.frame_id(name) {
            Some(k) => Ok(k),
            None => Err(RequestError::UnknownFrame),
        },
    }
}

/// What a Jacobian is to refer to: `"world"`, which is also meant by nothing, or
/// `"body"`.
pub fn jacobian_reference(reference: Option<&str>) -> (r: Result<JacFrame, RequestError>)
    ensures
        reference is None ==> r == Ok::<JacFrame, RequestError>(JacFrame::World),
        reference matches Some(s) ==> (if s@ == "world"@ {
            r == Ok::<JacFrame, RequestError>(JacFrame::World)
        } else if s@ == "body"@ {
            r == Ok::<JacFrame, RequestError>(JacFrame::Body)
        } else {
            r == Err::<JacFrame, RequestError>(RequestError::UnknownReference)
        }),
{
    match reference {
        None => Ok(JacFrame::World),
        Some(s) => {
            let own = chars_of(s);
            if is_text(&own, "world") {
                Ok(JacFrame::World)
            } else if is_text(&own, "body") {
                Ok(JacFrame::Body)
            } else {
                Err(RequestError::UnknownReference)
            }
        },
    }
}

/// The tag of a kind of singularity.
pub fn kind_str(k: SingularityKind) -> (r: &'static str)
    ensures
        r@ == (match k {
            SingularityKind::Regular => "none"@,
            SingularityKind::Wrist => "wrist"@,
            SingularityKind::Elbow => "elbow"@,
            SingularityKind::Boundary => "boundary"@,
        }),
{
    match k {
        SingularityKind::Regular => "none",
        SingularityKind::Wrist => "wrist",
        SingularityKind::Elbow => "elbow",
        SingularityKind::Boundary => "boundary",
    }
}

/// The tag of a reachability status.
pub fn status_str(s: ReachStatus) -> (r: &'static str)
    ensures
        r@ == (match s {
            ReachStatus::Reachable => "reachable"@,
            ReachStatus::Blocked => "blocked"@,
            ReachStatus::Unreachable => "unreachable"@,
        }),
{
    match s {
        ReachStatus::Reachable => "reachable",
        ReachStatus::Blocked => "blocked",
        ReachStatus::Unreachable => "unreachable",
    }
}

/// The matrix of a placement, by rows.
pub fn matrix_rows(p: &Placement) -> (r: Vec<Vec<Scalar>>)
    ensures
        columns_of(r@) == written_rows(*p),
{
    let zero = Scalar::zero();
    let r = vec![
        vec![p.row0.x, p.row0.y, p.row0.z, p.at.x],
        vec![p.row1.x, p.row1.y, p.row1.z, p.at.y],
        vec![p.row2.x, p.row2.y, p.row2.z, p.at.z],
        vec![zero, zero, zero, Scalar { bits: ONE_BITS }],
    ];
    proof {
        let w = written_rows(*p);
        assert(r@[0]@ =~= w[0]);
        assert(r@[1]@ =~= w[1]);
        assert(r@[2]@ =~= w[2]);
        assert(r@[3]@ =~= w[3]);
        assert(columns_of(r@) =~= w);
    }
    r
}

/// Twelve numbers of a target: a rotation row by row, then a translation.
pub fn se3_from_12(t: &Vec<Scalar>) -> (r: Result<Placement, RequestError>)
    ensures
        if t@.len() == 12 && all_finite(t@) {
            r == Ok::<Placement, RequestError>(read_twelve(t@))
        } else {
            r == Err::<Placement, RequestError>(RequestError::NotTwelve)
        },
{
    if t.len() != 12 || finite_or_err("target", t).is_err() {
        return Err(RequestError::NotTwelve);
    }
    Ok(
        Placement {
            row0: Vec3::new(t[0], t[1], t[2]),
            row1: Vec3::new(t[3], t[4], t[5]),
            row2: Vec3::new(t[6], t[7], t[8]),
            at: Vec3::new(t[9], t[10], t[11]),
        },
    )
}

/// What is wrong with a request for a pose: the configuration's length, the target's
/// shape, numbers that are not finite, and then the frame's name.
pub open spec fn pose_fault(
    m: Model,
    label: &'static str,
    q: Vec<Scalar>,
    target: Seq<Vec<Scalar>>,
    frame: Option<&str>,
) -> Option<RequestError> {
    if q@.len() != m.ndof {
        Some(RequestError::Length { label, got: q.len(), want: m.ndof })
    } else if !four_by_four(target) {
        Some(RequestError::NotFourByFour)
    } else if !all_finite(q@) {
        Some(RequestError::NotFinite { label })
    } else if !columns_finite(target) {
        Some(RequestError::NotFinite { label: "target" })
    } else if frame_for(m, frame) is None {
        Some(RequestError::UnknownFrame)
    } else {
        None
    }
}

fn has_four_columns(t: &Vec<Vec<Scalar>>) -> (r: bool)
    ensures
        r == four_by_four(t@),
{
    if t.len() != 4 {
        return false;
    }
    let mut c: usize = 0;
    while c < 4
        invariant
            c <= 4,
            t.len() == 4,
            forall|k: int| 0 <= k < c ==> (#[trigger] t@[k])@.len() == 4,
        decreases 4 - c,
    {
        if t[c].len() != 4 {
            assert(t@[c as int]@.len() != 4);
            return false;
        }
        c = c + 1;
    }
    true
}

fn is_columns_finite(t: &Vec<Vec<Scalar>>) -> (r: bool)
    ensures
        r == columns_finite(t@),
{
    let mut c: usize = 0;
    while c < t.len()
        invariant
            c <= t.len(),
            forall|k: int| 0 <= k < c ==> all_finite((#[trigger] t@[k])@),
        decreases t.len() - c,
    {
        if finite_or_err("target", &t[c]).is_err() {
            assert(!all_finite(t@[c as int]@));
            return false;
        }
        c = c + 1;
    }
    true
}

/// Reads a request to reach a pose from a configuration, as inverse kinematics and
/// straight moves take it. The target is a matrix of four columns.
pub fn pose_request(
    model: &Model,
    label: &'static str,
    q: &Vec<Scalar>,
    target: &Vec<Vec<Scalar>>,
    frame: Option<&str>,
) -> (r: Result<(usize, Placement), RequestError>)
    requires
        frame is None ==> model.frames@.len() > 0,
    ensures
        match pose_fault(*model, label, *q, target@, frame) {
            Some(e) => r == Err::<(usize, Placement), RequestError>(e),
            None => r matches Ok(x) && Some(x.0 as int) == frame_for(*model, frame) && x.1
                == read_columns(columns_of(target@)),
        },
{
    if q.len() != model.ndof {
        return Err(RequestError::Length { label, got: q.len(), want: model.ndof });
    }
    if !has_four_columns(target) {
        return Err(RequestError::NotFourByFour);
    }
    match finite_or_err(label, q) {
        Ok(()) => {},
        Err(e) => {
            return Err(e);
        },
    }
    if !is_columns_finite(target) {
        return Err(RequestError::NotFinite { label: "target" });
    }
    let f = match resolve_frame(model, frame) {
        Ok(f) => f,
        Err(e) => {
            return Err(e);
        },
    };
    assert(target@[0]@.len() == 4 && target@[1]@.len() == 4 && target@[2]@.len() == 4
        && target@[3]@.len() == 4);
    let p = Placement {
        row0: Vec3::new(target[0][0], target[1][0], target[2][0]),
        row1: Vec3::new(target[0][1], target[1][1], target[2][1]),
        row2: Vec3::new(target[0][2], target[1][2], target[2][2]),
        at: Vec3::new(target[3][0], target[3][1], target[3][2]),
    };
    Ok((f, p))
}

/// Checks both ends of a joint move.
pub fn joint_move_request(q_start: &Vec<Scalar>, q_goal: &Vec<Scalar>, ndof: usize) -> (r: Result<
    (),
    RequestError,
>)
    ensures
        r is Ok <==> q_start@.len() == ndof && q_goal@.len() == ndof && all_finite(q_start@)
            && all_finite(q_goal@),
        q_start@.len() != ndof ==> r == Err::<(), RequestError>(
            RequestError::Length { label: "q_start", got: q_start.len(), want: ndof },
        ),
        q_start@.len() == ndof && q_goal@.len() != ndof ==> r == Err::<(), RequestError>(
            RequestError::Length { label: "q_goal", got: q_goal.len(), want: ndof },
        ),
        q_start@.len() == ndof && q_goal@.len() == ndof && !all_finite(q_start@) ==> r == Err::<
            (),
            RequestError,
        >(RequestError::NotFinite { label: "q_start" }),
        q_start@.len() == ndof && q_goal@.len() == ndof && all_finite(q_start@) && !all_finite(
            q_goal@,
        ) ==> r == Err::<(), RequestError>(RequestError::NotFinite { label: "q_goal" }),
{
    if q_start.len() != ndof {
        return Err(RequestError::Length { label: "q_start", got: q_start.len(), want: ndof });
    }
    if q_goal.len() != ndof {
        return Err(RequestError::Length { label: "q_goal", got: q_goal.len(), want: ndof });
    }
    match finite_or_err("q_start", q_start) {
        Ok(()) => finite_or_err("q_goal", q_goal),
        Err(e) => Err(e),
    }
}

/// Limits given joint by joint.
pub fn given_limits(vel: Vec<Scalar>, accel: Vec<Scalar>, jerk: Vec<Scalar>) -> (r: Result<
    MotionLimits,
    RequestError,
>)
    ensures
        if vel@.len() == accel@.len() && vel@.len() == jerk@.len() {
            r matches Ok(l) && l@ == (LimitsV { v: vel@, a: accel@, j: jerk@ })
        } else {
            r == Err::<MotionLimits, RequestError>(RequestError::LimitLengths)
        },
{
    if vel.len() != accel.len() || vel.len() != jerk.len() {
        return Err(RequestError::LimitLengths);
    }
    Ok(MotionLimits { vmax: vel, amax: accel, jmax: jerk })
}

/// The ratios that limits are derived by where none are given.
pub open spec fn usual(cfg: MotionLimitsConfig) -> bool {
    &&& cfg.default_vel == (Scalar { bits: ONE_BITS })
    &&& cfg.accel_ratio == (Scalar { bits: FIVE_BITS })
    &&& cfg.jerk_ratio == (Scalar { bits: TEN_BITS })
    &&& cfg.vel_scale == (Scalar { bits: ONE_BITS })
    &&& cfg.overrides@.len() == 0
}

/// The limits that were given, or else those of the model.
pub fn motion_limits(model: &Model, limits: Option<MotionLimits>) -> (r: Result<
    MotionLimits,
    MotionError,
>)
    requires
        model.wf(),
    ensures
        match limits {
            Some(l) => r == Ok::<MotionLimits, MotionError>(l),
            None => exists|cfg: MotionLimitsConfig| #[trigger]
                usual(cfg) && match first_bad(derived(*model, cfg), model.ndof as nat, 0) {
                    Some(i) => r matches Err(MotionError::BadLimit(k)) && k == i,
                    None => r matches Ok(x) && x@ == derived(*model, cfg),
                },
        },
{
    match limits {
        Some(l) => Ok(l),
        None => {
            let cfg = MotionLimitsConfig::default();
            assert(usual(cfg));
            let r = MotionLimits::from_model(model, &cfg);
            assert(with_overrides(derived(*model, cfg), cfg.overrides@, 0) == derived(*model, cfg));
            r
        },
    }
}

/// Damping is finite and not negative.
pub open spec fn damping_fits(d: Scalar) -> bool {
    d.finite() && fle(Scalar { bits: 0 }, d)
}

/// Refuses damping that would feed energy in.
pub fn check_damping(d: &Vec<Scalar>) -> (r: Result<(), RequestError>)
    ensures
        r is Ok <==> forall|i: int| 0 <= i < d@.len() ==> damping_fits(#[trigger] d@[i]),
        r matches Err(e) ==> e is Damping,
{
    let mut i: usize = 0;
    while i < d.len()
        invariant
            i <= d.len(),
            forall|k: int| 0 <= k < i ==> damping_fits(#[trigger] d@[k]),
        decreases d.len() - i,
    {
        if !(d[i].is_finite() && Scalar::zero().le(d[i])) {
            assert(!damping_fits(d@[i as int]));
            return Err(RequestError::Damping);
        }
        i = i + 1;
    }
    Ok(())
}

/// The longest inner step of a simulator that makes `substeps` of each step.
pub fn inner_step(dt: Scalar, substeps: usize) -> (r: Scalar)
    ensures
        r == fmax(
            fdiv(
                dt,
                from_int(
                    if substeps == 0 {
                        1
                    } else {
                        substeps as int
                    },
                ),
            ),
            Scalar { bits: MICRO_BITS },
        ),
{
    let n: usize = if substeps == 0 {
        1
    } else {
        substeps
    };
    dt.div(Scalar::from_usize(n)).max(Scalar { bits: MICRO_BITS })
}

/// The step of a simulator: a millisecond where the given one cannot be used.
pub fn outer_step(dt: Scalar) -> (r: Scalar)
    ensures
        r == (if dt.finite() && flt(Scalar { bits: 0 }, dt) {
            dt
        } else {
            Scalar { bits: MILLI_BITS }
        }),
{
    if dt.is_finite() && Scalar::zero().lt(dt) {
        dt
    } else {
        Scalar { bits: MILLI_BITS }
    }
}

/// Zeros, where nothing is given.
pub open spec fn or_zeros(x: Option<Vec<Scalar>>, n: nat) -> Seq<Scalar> {
    match x {
        Some(v) => v@,
        None => Seq::new(n, |i: int| Scalar { bits: 0 }),
    }
}

fn given_or_zeros(x: Option<Vec<Scalar>>, n: usize) -> (r: Vec<Scalar>)
    ensures
        r@ == or_zeros(x, n as nat),
{
    match x {
        Some(v) => v,
        None => {
            let mut z: Vec<Scalar> = Vec::new();
            let mut i: usize = 0;
            while i < n
                invariant
                    i <= n,
                    z@ =~= Seq::new(i as nat, |k: int| Scalar { bits: 0 }),
                decreases n - i,
            {
                z.push(Scalar::zero());
                i = i + 1;
            }
            z
        },
    }
}

/// The state that a simulator is to be put into; nothing where it is to go back to its
/// own first state. What is left out is zero.
pub fn reset_request(q0: Option<Vec<Scalar>>, qd0: Option<Vec<Scalar>>, ndof: usize) -> (r: Result<
    Option<(Vec<Scalar>, Vec<Scalar>)>,
    RequestError,
>)
    ensures
        ({
            let q = or_zeros(q0, ndof as nat);
            let v = or_zeros(qd0, ndof as nat);
            if q0 is None && qd0 is None {
                r matches Ok(None)
            } else if !all_finite(q) {
                r == Err::<Option<(Vec<Scalar>, Vec<Scalar>)>, RequestError>(
                    RequestError::NotFinite { label: "q0" },
                )
            } else if !all_finite(v) {
                r == Err::<Option<(Vec<Scalar>, Vec<Scalar>)>, RequestError>(
                    RequestError::NotFinite { label: "qd0" },
                )
            } else {
                r matches Ok(Some(s)) && s.0@ == q && s.1@ == v
            }
        }),
{
    if q0.is_none() && qd0.is_none() {
        return Ok(None);
    }
    let q = given_or_zeros(q0, ndof);
    let v = given_or_zeros(qd0, ndof);
    match finite_or_err("q0", &q) {
        Ok(()) => {},
        Err(e) => {
            return Err(e);
        },
    }
    match finite_or_err("qd0", &v) {
        Ok(()) => {},
        Err(e) => {
            return Err(e);
        },
    }
    Ok(Some((q, v)))
}

/// Whether a control loop may be made for a robot, from a configuration if one is given.
pub fn control_request(model: &Model, start: &Option<Vec<Scalar>>) -> (r: Result<(), RequestError>)
    ensures
        !model.has_inertia ==> r == Err::<(), RequestError>(RequestError::NoInertia),
        model.has_inertia && start is None ==> r is Ok,
        model.has_inertia ==> (start matches Some(q0) ==> {
            &&& q0@.len() != model.ndof ==> r == Err::<(), RequestError>(
                RequestError::Length { label: "start", got: q0.len(), want: model.ndof },
            )
            &&& q0@.len() == model.ndof && !all_finite(q0@) ==> r == Err::<(), RequestError>(
                RequestError::NotFinite { label: "start" },
            )
            &&& q0@.len() == model.ndof && all_finite(q0@) ==> r is Ok
        }),
{
    if !model.has_inertia {
        return Err(RequestError::NoInertia);
    }
    match start {
        Some(q0) => check_goal("start", q0, model.ndof),
        None => Ok(()),
    }
}

/// The rows of a placement's matrix, once transposed, read back as the same placement.
pub proof fn law_transposed_rows_read_back(p: Placement)
    ensures
        read_columns(transposed(written_rows(p))) == p,
{
    let t = transposed(written_rows(p));
    assert(t[0][0] == p.row0.x && t[1][0] == p.row0.y && t[2][0] == p.row0.z);
    assert(t[0][1] == p.row1.x && t[1][1] == p.row1.y && t[2][1] == p.row1.z);
    assert(t[0][2] == p.row2.x && t[1][2] == p.row2.y && t[2][2] == p.row2.z);
    assert(t[3][0] == p.at.x && t[3][1] == p.at.y && t[3][2] == p.at.z);
}

} // verus!
