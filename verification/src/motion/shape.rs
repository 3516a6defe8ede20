//! The shapes of Cartesian moves: straight lines, and arcs through a point on the way.

use vstd::prelude::*;

use crate::motion::cartesian::{sample_cartesian, CartesianMoveOpts, Outcome};
#[allow(unused_imports)]
use crate::motion::cartesian::{bad_param, cartesian, solver_fits, solves, OutcomeV};
use crate::motion::error::{MotionError, Param};
#[allow(unused_imports)]
use crate::motion::retime::seen;
#[allow(unused_imports)]
use crate::motion::scurve::computes;
use crate::motion::trajectory::{TrajKind, Trajectory};
#[allow(unused_imports)]
use crate::motion::trajectory::TrajV;
use crate::scalar::consts::{NANO_BITS, TWO_BITS};
#[allow(unused_imports)]
use crate::scalar::number::{fadd, flt, fmul, fneg};
use crate::scalar::vec3::Vec3;
#[allow(unused_imports)]
use crate::scalar::vec3::{vadd, vcross, vdiv, vdot, vnorm, vscale, vsub};
use crate::scalar::Scalar;

verus! {

/// `1e-18`.
pub const FLAT_BITS: u64 = 0x3C32_725D_D1D2_43AC;

/// A whole turn.
pub const TURN_BITS: u64 = 0x4019_21FB_5444_2D18;

/// A rotation by its quaternion.
#[derive(Clone, Copy, Debug, PartialEq, Eq, Structural)]
pub struct Quaternion {
    pub w: Scalar,
    pub i: Scalar,
    pub j: Scalar,
    pub k: Scalar,
}

/// A pose by its numbers.
#[derive(Clone, Copy, Debug, PartialEq, Eq, Structural)]
pub struct Pose {
    pub at: Vec3,
    pub turn: Quaternion,
}

pub open spec fn point_finite(p: Vec3) -> bool {
    p.x.finite() && p.y.finite() && p.z.finite()
}

fn is_point_finite(p: &Vec3) -> (r: bool)
    ensures
        r == point_finite(*p),
{
    p.x.is_finite() && p.y.is_finite() && p.z.is_finite()
}

/// All numbers of a pose are finite.
pub open spec fn pose_finite(p: Pose) -> bool {
    point_finite(p.at) && p.turn.w.finite() && p.turn.i.finite() && p.turn.j.finite()
        && p.turn.k.finite()
}

/// Whether all numbers of a pose are finite.
pub fn goal_is_finite(p: &Pose) -> (r: bool)
    ensures
        r == pose_finite(*p),
{
    is_point_finite(&p.at) && p.turn.w.is_finite() && p.turn.i.is_finite()
        && p.turn.j.is_finite() && p.turn.k.is_finite()
}

/// The point at a fraction of a straight line.
pub open spec fn between(a: Vec3, b: Vec3, s: Scalar) -> Vec3 {
    vadd(a, vscale(vsub(b, a), s))
}

pub fn line_point(a: Vec3, b: Vec3, s: Scalar) -> (r: Vec3)
    ensures
        r == between(a, b, s),
{
    a.plus(b.minus(a).scaled(s))
}

/// A circle with a start and a direction on it: its centre and radius, the unit vectors
/// to the start and along the way, and the angle to the end.
#[derive(Clone, Copy, Debug, PartialEq, Eq, Structural)]
pub struct ArcGeom {
    pub c: Vec3,
    pub r: Scalar,
    pub u: Vec3,
    pub v: Vec3,
    pub phi: Scalar,
}

pub open spec fn opposite(v: Vec3) -> Vec3 {
    Vec3 { x: fneg(v.x), y: fneg(v.y), z: fneg(v.z) }
}

/// An angle of two coordinates that is handed in behaves as `g`.
pub open spec fn points_as<T: Fn(Scalar, Scalar) -> Scalar>(
    f: T,
    g: spec_fn(Scalar, Scalar) -> Scalar,
) -> bool {
    forall|y: Scalar, x: Scalar, r: Scalar| call_ensures(f, (y, x), r) ==> r == g(y, x)
}

/// The angle of a point, from zero up to a whole turn.
pub open spec fn angle_at(
    p: Vec3,
    c: Vec3,
    u: Vec3,
    v: Vec3,
    g: spec_fn(Scalar, Scalar) -> Scalar,
) -> Scalar {
    let d = vsub(p, c);
    let y = g(vdot(d, v), vdot(d, u));
    if flt(y, Scalar { bits: 0 }) {
        fadd(y, Scalar { bits: TURN_BITS })
    } else {
        y
    }
}

/// The three points lie on a line, or so nearly that there is no circle.
pub open spec fn on_a_line(p0: Vec3, pv: Vec3, p1: Vec3) -> bool {
    let a = vsub(p0, pv);
    let b = vsub(p1, pv);
    let n = vcross(a, b);
    flt(fmul(Scalar { bits: TWO_BITS }, vdot(n, n)), Scalar { bits: FLAT_BITS }) || flt(
        vnorm(n),
        fmul(fmul(Scalar { bits: NANO_BITS }, vnorm(a)), vnorm(b)),
    )
}

/// The centre of the circle through three points.
pub open spec fn centre_of(p0: Vec3, pv: Vec3, p1: Vec3) -> Vec3 {
    let a = vsub(p0, pv);
    let b = vsub(p1, pv);
    let n = vcross(a, b);
    let sum = vadd(vscale(vcross(b, n), vdot(a, a)), vscale(vcross(n, a), vdot(b, b)));
    vadd(pv, vdiv(sum, fmul(Scalar { bits: TWO_BITS }, vdot(n, n))))
}

/// The arc from the first point over the second to the third, if there is one. It runs
/// the way on which the second comes before the third.
pub open spec fn arc_of(
    p0: Vec3,
    pv: Vec3,
    p1: Vec3,
    g: spec_fn(Scalar, Scalar) -> Scalar,
) -> Option<ArcGeom> {
    if on_a_line(p0, pv, p1) {
        None
    } else {
        let n = vcross(vsub(p0, pv), vsub(p1, pv));
        let c = centre_of(p0, pv, p1);
        let r = vnorm(vsub(p0, c));
        let u = vdiv(vsub(p0, c), r);
        let w = vcross(vdiv(n, vnorm(n)), u);
        let v = if flt(angle_at(p1, c, u, w, g), angle_at(pv, c, u, w, g)) {
            opposite(w)
        } else {
            w
        };
        Some(ArcGeom { c, r, u, v, phi: angle_at(p1, c, u, v, g) })
    }
}

fn angle_of<T: Fn(Scalar, Scalar) -> Scalar>(p: Vec3, c: Vec3, u: Vec3, v: Vec3, atan2: &T) -> (r:
    Scalar)
    requires
        forall|y: Scalar, x: Scalar| call_requires(*atan2, (y, x)),
    ensures
        forall|g: spec_fn(Scalar, Scalar) -> Scalar| #[trigger]
            points_as(*atan2, g) ==> r == angle_at(p, c, u, v, g),
{
    let d = p.minus(c);
    let y = atan2(d.dot(v), d.dot(u));
    if y.lt(Scalar { bits: 0 }) {
        y.add(Scalar { bits: TURN_BITS })
    } else {
        y
    }
}

/// Fits the circle through three points. `atan2` gives angles within half a turn.
pub fn fit_arc<T: Fn(Scalar, Scalar) -> Scalar>(p0: Vec3, pv: Vec3, p1: Vec3, atan2: &T) -> (r:
    Result<ArcGeom, MotionError>)
    requires
        forall|y: Scalar, x: Scalar| call_requires(*atan2, (y, x)),
    ensures
        on_a_line(p0, pv, p1) ==> r == Err::<ArcGeom, MotionError>(MotionError::CollinearArc),
        !on_a_line(p0, pv, p1) ==> r is Ok,
        forall|g: spec_fn(Scalar, Scalar) -> Scalar| #[trigger]
            points_as(*atan2, g) ==> match r {
                Ok(arc) => arc_of(p0, pv, p1, g) == Some(arc),
                Err(_) => arc_of(p0, pv, p1, g) is None,
            },
{
    let a = p0.minus(pv);
    let b = p1.minus(pv);
    let axb = a.cross(b);
    let denom = Scalar { bits: TWO_BITS }.mul(axb.dot(axb));
    if denom.lt(Scalar { bits: FLAT_BITS }) || axb.norm().lt(
        Scalar { bits: NANO_BITS }.mul(a.norm()).mul(b.norm()),
    ) {
        return Err(MotionError::CollinearArc);
    }
    let sum = b.cross(axb).scaled(a.dot(a)).plus(axb.cross(a).scaled(b.dot(b)));
    let c = pv.plus(sum.over(denom));
    let r = p0.minus(c).norm();
    let n = axb.over(axb.norm());
    let u = p0.minus(c).over(r);
    let w = n.cross(u);
    let first = angle_of(pv, c, u, w, atan2);
    let last = angle_of(p1, c, u, w, atan2);
    let v = if first.gt(last) {
        Vec3 { x: w.x.neg(), y: w.y.neg(), z: w.z.neg() }
    } else {
        w
    };
    let phi = angle_of(p1, c, u, v, atan2);
    Ok(ArcGeom { c, r, u, v, phi })
}

/// The point of an arc at an angle with the given cosine and sine.
pub open spec fn on_arc(arc: ArcGeom, cos: Scalar, sin: Scalar) -> Vec3 {
    vadd(arc.c, vscale(vadd(vscale(arc.u, cos), vscale(arc.v, sin)), arc.r))
}

pub fn arc_point(arc: &ArcGeom, cos: Scalar, sin: Scalar) -> (r: Vec3)
    ensures
        r == on_arc(*arc, cos, sin),
{
    arc.c.plus(arc.u.scaled(cos).plus(arc.v.scaled(sin)).scaled(arc.r))
}

/// What is wrong with a straight move before it is sampled.
pub open spec fn line_fault(
    ndof: nat,
    q: Seq<Scalar>,
    start: Pose,
    goal: Pose,
    turn: Scalar,
    o: CartesianMoveOpts,
) -> Option<MotionError> {
    let tiny = Scalar { bits: NANO_BITS };
    if q.len() != ndof {
        Some(MotionError::DimMismatch)
    } else if bad_param(o) is Some {
        Some(MotionError::BadParam(bad_param(o).unwrap()))
    } else if !pose_finite(goal) {
        Some(MotionError::BadParam(Param::Goal))
    } else if flt(vnorm(vsub(goal.at, start.at)), tiny) && flt(turn, tiny) {
        Some(MotionError::ZeroLengthSegment)
    } else {
        None
    }
}

/// A straight move of the tool from `start` to `goal`, which are `turn` apart in angle.
/// `solve` finds a configuration for a fraction of the way, from a seed.
pub fn move_l<F: Fn(Scalar) -> Scalar, S: Fn(Scalar, &[Scalar]) -> Outcome>(
    ndof: usize,
    q_start: &Vec<Scalar>,
    start: &Pose,
    goal: &Pose,
    turn: Scalar,
    opts: &CartesianMoveOpts,
    cbrt: &F,
    solve: &S,
) -> (r: Result<Trajectory, MotionError>)
    requires
        opts.limits@.v.len() >= q_start@.len(),
        forall|x: Scalar| call_requires(*cbrt, (x,)),
        solver_fits(*solve, q_start@.len()),
    ensures
        match line_fault(ndof as nat, q_start@, *start, *goal, turn, *opts) {
            Some(e) => seen(r) == Err::<TrajV, MotionError>(e),
            None => forall|
                g: spec_fn(Scalar) -> Scalar,
                p: spec_fn(Scalar, Seq<Scalar>) -> OutcomeV,
            | #[trigger]
                computes(*cbrt, g) && #[trigger] solves(*solve, p)
                    ==> seen(r) == cartesian(
                    q_start@,
                    vnorm(vsub(goal.at, start.at)),
                    turn,
                    TrajKind::MoveL,
                    *opts,
                    g,
                    p,
                ),
        },
{
    if q_start.len() != ndof {
        return Err(MotionError::DimMismatch);
    }
    match opts.validate() {
        Ok(_) => {},
        Err(e) => {
            return Err(e);
        },
    }
    if !goal_is_finite(goal) {
        return Err(MotionError::BadParam(Param::Goal));
    }
    let tiny = Scalar { bits: NANO_BITS };
    let length = goal.at.minus(start.at).norm();
    if length.lt(tiny) && turn.lt(tiny) {
        return Err(MotionError::ZeroLengthSegment);
    }
    sample_cartesian(q_start, length, turn, TrajKind::MoveL, opts, cbrt, solve)
}

/// A solver of a move along an arc that is handed in behaves as `p`.
pub open spec fn follows<S: Fn(&ArcGeom, Scalar, &[Scalar]) -> Outcome>(
    f: S,
    p: spec_fn(ArcGeom, Scalar, Seq<Scalar>) -> OutcomeV,
) -> bool {
    forall|a: &ArcGeom, s: Scalar, seed: &[Scalar], r: Outcome|
        call_ensures(f, (a, s, seed), r) ==> r@ == p(*a, s, seed@)
}

/// A solver of arcs can be asked, and answers seeds of `n` joints with as many.
pub open spec fn follower_fits<S: Fn(&ArcGeom, Scalar, &[Scalar]) -> Outcome>(f: S, n: nat) -> bool {
    &&& forall|a: &ArcGeom, s: Scalar, seed: &[Scalar]| call_requires(f, (a, s, seed))
    &&& forall|a: &ArcGeom, s: Scalar, seed: &[Scalar], r: Outcome|
        call_ensures(f, (a, s, seed), r) && seed@.len() == n ==> r.q@.len() == n
}

/// What is wrong with a move along an arc before it is sampled.
pub open spec fn arc_fault(
    ndof: nat,
    q: Seq<Scalar>,
    start: Pose,
    via: Vec3,
    end: Pose,
    o: CartesianMoveOpts,
) -> Option<MotionError> {
    if q.len() != ndof {
        Some(MotionError::DimMismatch)
    } else if bad_param(o) is Some {
        Some(MotionError::BadParam(bad_param(o).unwrap()))
    } else if !pose_finite(end) || !point_finite(via) {
        Some(MotionError::BadParam(Param::ViaEnd))
    } else if on_a_line(start.at, via, end.at) {
        Some(MotionError::CollinearArc)
    } else {
        None
    }
}

/// A move of the tool along the arc from `start` over `via` to `end`; the two poses are
/// `turn` apart in angle. `solve` finds a configuration for a fraction of the way along
/// an arc, from a seed.
pub fn move_c<
    F: Fn(Scalar) -> Scalar,
    T: Fn(Scalar, Scalar) -> Scalar,
    S: Fn(&ArcGeom, Scalar, &[Scalar]) -> Outcome,
>(
    ndof: usize,
    q_start: &Vec<Scalar>,
    start: &Pose,
    via: Vec3,
    end: &Pose,
    turn: Scalar,
    opts: &CartesianMoveOpts,
    cbrt: &F,
    atan2: &T,
    solve: &S,
) -> (r: Result<Trajectory, MotionError>)
    requires
        opts.limits@.v.len() >= q_start@.len(),
        forall|x: Scalar| call_requires(*cbrt, (x,)),
        forall|y: Scalar, x: Scalar| call_requires(*atan2, (y, x)),
        follower_fits(*solve, q_start@.len()),
    ensures
        match arc_fault(ndof as nat, q_start@, *start, via, *end, *opts) {
            Some(e) => seen(r) == Err::<TrajV, MotionError>(e),
            None => forall|
                g: spec_fn(Scalar) -> Scalar,
                h: spec_fn(Scalar, Scalar) -> Scalar,
                p: spec_fn(ArcGeom, Scalar, Seq<Scalar>) -> OutcomeV,
            |
                #![trigger computes(*cbrt, g), points_as(*atan2, h), follows(*solve, p)]
                computes(*cbrt, g) && points_as(*atan2, h) && follows(*solve, p) ==> match arc_of(
                    start.at,
                    via,
                    end.at,
                    h,
                ) {
                    Some(arc) => seen(r) == cartesian(
                        q_start@,
                        fmul(arc.r, arc.phi),
                        turn,
                        TrajKind::MoveC,
                        *opts,
                        g,
                        |s: Scalar, seed: Seq<Scalar>| p(arc, s, seed),
                    ),
                    None => false,
                },
        },
{
    if q_start.len() != ndof {
        return Err(MotionError::DimMismatch);
    }
    match opts.validate() {
        Ok(_) => {},
        Err(e) => {
            return Err(e);
        },
    }
    if !goal_is_finite(end) || !is_point_finite(&via) {
        return Err(MotionError::BadParam(Param::ViaEnd));
    }
    let arc = match fit_arc(start.at, via, end.at, atan2) {
        Ok(a) => a,
        Err(e) => {
            return Err(e);
        },
    };
    let n: usize = q_start.len();
    let along = |s: Scalar, seed: &[Scalar]| -> (o: Outcome)
        ensures
            seed@.len() == n ==> o.q@.len() == n,
            forall|p: spec_fn(ArcGeom, Scalar, Seq<Scalar>) -> OutcomeV| #[trigger]
                follows(*solve, p) ==> o@ == p(arc, s, seed@),
        { solve(&arc, s, seed) };
    let r = sample_cartesian(
        q_start,
        arc.r.mul(arc.phi),
        turn,
        TrajKind::MoveC,
        opts,
        cbrt,
        &along,
    );
    proof {
        assert forall|
            g: spec_fn(Scalar) -> Scalar,
            h: spec_fn(Scalar, Scalar) -> Scalar,
            p: spec_fn(ArcGeom, Scalar, Seq<Scalar>) -> OutcomeV,
        |
            #![trigger computes(*cbrt, g), points_as(*atan2, h), follows(*solve, p)]
            computes(*cbrt, g) && points_as(*atan2, h) && follows(*solve, p) implies match arc_of(
            start.at,
            via,
            end.at,
            h,
        ) {
            Some(a) => seen(r) == cartesian(
                q_start@,
                fmul(a.r, a.phi),
                turn,
                TrajKind::MoveC,
                *opts,
                g,
                |s: Scalar, seed: Seq<Scalar>| p(a, s, seed),
            ),
            None => false,
        } by {
            let q = |s: Scalar, seed: Seq<Scalar>| p(arc, s, seed);
            assert(solves(along, q));
            assert(arc_of(start.at, via, end.at, h) == Some(arc));
        }
    }
    r
}

} // verus!
