//! Timing of a waypoint path. Each segment is a straight move from rest to rest, so
//! no limit is broken at the corners; the whole is sampled on a uniform grid.

use vstd::prelude::*;

use crate::hal::backend::{copy_scalars, zeros};
#[allow(unused_imports)]
use crate::hal::backend::{all_finite, zero_seq};
use crate::motion::error::MotionError;
use crate::motion::limits::MotionLimits;
#[allow(unused_imports)]
use crate::motion::limits::LimitsV;
use crate::motion::scurve::{hold_in, plan_scurve, ScurveProfile};
#[allow(unused_imports)]
use crate::motion::scurve::{
    built, computes, held_in, law_moves_start_at_rest, planned, profile_at, total_of, ProfileV,
};
use crate::motion::topp::BangBang;
#[allow(unused_imports)]
use crate::motion::topp::{
    bang, bang_at, brim, law_move_keeps_acceleration, law_move_keeps_velocity,
    law_move_starts_at_rest, sound,
};
use crate::motion::trajectory::{TrajKind, Trajectory};
#[allow(unused_imports)]
use crate::motion::trajectory::{all_wide, knotted, rows_of, TrajV};
use crate::scalar::consts::{INFINITY_BITS, NANO_BITS, ONE_BITS, PICO_BITS};
#[allow(unused_imports)]
use crate::scalar::convert::{ceil_int, fmin, from_int, saturated};
#[allow(unused_imports)]
use crate::scalar::number::{fabs, fadd, fdiv, feq, fle, flt, fmul, fsub};
#[allow(unused_imports)]
use crate::scalar::order::{
    law_products_commute, law_products_keep_order, law_sums_keep_order, lemma_absolute,
    lemma_absolute_product, lemma_add_nothing, lemma_difference, lemma_sum, lemma_times_nothing,
};
use crate::scalar::Scalar;

verus! {

/// How a segment is timed.
#[derive(Clone, Copy, Debug, PartialEq, Eq, Structural)]
pub enum Law {
    /// Velocity, acceleration and jerk are limited.
    JerkLimited,
    /// Velocity and acceleration are limited.
    TimeOptimal,
}

/// The move of a segment along its length.
pub enum Timing {
    Jerk(ScurveProfile),
    Bang(BangBang),
}

/// `Timing` over sequences.
pub enum TimingV {
    Jerk(ProfileV),
    Bang(BangBang),
}

impl View for Timing {
    type V = TimingV;

    open spec fn view(&self) -> TimingV {
        match *self {
            Timing::Jerk(p) => TimingV::Jerk(p@),
            Timing::Bang(b) => TimingV::Bang(b),
        }
    }
}

pub open spec fn timing_total(t: TimingV) -> Scalar {
    match t {
        TimingV::Jerk(p) => total_of(p),
        TimingV::Bang(b) => b.t3,
    }
}

pub open spec fn timing_at(t: TimingV, time: Scalar) -> (Scalar, Scalar, Scalar) {
    match t {
        TimingV::Jerk(p) => profile_at(p, time),
        TimingV::Bang(b) => bang_at(b, time),
    }
}

/// A straight segment.
pub struct Segment {
    q0: Vec<Scalar>,
    dq: Vec<Scalar>,
    prof: Timing,
    t_start: Scalar,
    dur: Scalar,
}

/// `Segment` over sequences.
#[verifier::ext_equal]
pub struct SegmentV {
    pub q0: Seq<Scalar>,
    pub dq: Seq<Scalar>,
    pub prof: TimingV,
    pub t_start: Scalar,
    pub dur: Scalar,
}

impl View for Segment {
    type V = SegmentV;

    closed spec fn view(&self) -> SegmentV {
        SegmentV {
            q0: self.q0@,
            dq: self.dq@,
            prof: self.prof@,
            t_start: self.t_start,
            dur: self.dur,
        }
    }
}

pub open spec fn segments_of(s: Seq<Segment>) -> Seq<SegmentV> {
    Seq::new(s.len(), |i: int| s[i]@)
}

/// How the first `n` joints bound the speed along a segment. Joints that hardly move
/// do not.
pub open spec fn bound_along(dq: Seq<Scalar>, lim: Seq<Scalar>, n: nat) -> Scalar
    decreases n,
{
    if n == 0 {
        Scalar { bits: INFINITY_BITS }
    } else {
        let c = bound_along(dq, lim, (n - 1) as nat);
        let d = fabs(dq[n - 1]);
        if flt(Scalar { bits: NANO_BITS }, d) {
            fmin(c, fdiv(lim[n - 1], d))
        } else {
            c
        }
    }
}

pub open spec fn step_between(a: Seq<Scalar>, b: Seq<Scalar>) -> Seq<Scalar> {
    Seq::new(a.len(), |i: int| fsub(b[i], a[i]))
}

/// The move along a segment; `None` where it goes nowhere.
pub open spec fn timed(
    law: Law,
    dq: Seq<Scalar>,
    l: LimitsV,
    cbrt: spec_fn(Scalar) -> Scalar,
) -> Option<TimingV> {
    let v = bound_along(dq, l.v, dq.len());
    let a = bound_along(dq, l.a, dq.len());
    if !v.finite() {
        None
    } else {
        match law {
            Law::JerkLimited => Some(
                TimingV::Jerk(
                    planned(
                        Scalar { bits: ONE_BITS },
                        v,
                        a,
                        bound_along(dq, l.j, dq.len()),
                        cbrt,
                    ),
                ),
            ),
            Law::TimeOptimal => Some(TimingV::Bang(bang(Scalar { bits: ONE_BITS }, v, a))),
        }
    }
}

/// The segments between the first `k + 1` waypoints, and when they end.
pub open spec fn segmented(
    law: Law,
    w: Seq<Seq<Scalar>>,
    l: LimitsV,
    cbrt: spec_fn(Scalar) -> Scalar,
    k: nat,
) -> (Seq<SegmentV>, Scalar)
    decreases k,
{
    if k == 0 {
        (Seq::empty(), Scalar { bits: 0 })
    } else {
        let (segs, total) = segmented(law, w, l, cbrt, (k - 1) as nat);
        let dq = step_between(w[k - 1], w[k as int]);
        match timed(law, dq, l, cbrt) {
            None => (segs, total),
            Some(p) => (
                segs.push(
                    SegmentV {
                        q0: w[k - 1],
                        dq,
                        prof: p,
                        t_start: total,
                        dur: timing_total(p),
                    },
                ),
                fadd(total, timing_total(p)),
            ),
        }
    }
}

/// The segment that a time falls in, from `i` on; the last one owns the end.
pub open spec fn segment_at(segs: Seq<SegmentV>, t: Scalar, i: int) -> int
    decreases segs.len() - i,
{
    if i < 0 || i >= segs.len() - 1 || flt(
        t,
        fadd(fadd(segs[i].t_start, segs[i].dur), Scalar { bits: PICO_BITS }),
    ) {
        i
    } else {
        segment_at(segs, t, i + 1)
    }
}

/// Position, velocity and acceleration along the path.
pub open spec fn along(segs: Seq<SegmentV>, t: Scalar) -> (
    Seq<Scalar>,
    Seq<Scalar>,
    Seq<Scalar>,
) {
    let s = segs[segment_at(segs, t, 0)];
    let (x, xd, xdd) = timing_at(
        s.prof,
        held_in(fsub(t, s.t_start), Scalar { bits: 0 }, s.dur),
    );
    (
        Seq::new(s.dq.len(), |i: int| fadd(s.q0[i], fmul(s.dq[i], x))),
        Seq::new(s.dq.len(), |i: int| fmul(s.dq[i], xd)),
        Seq::new(s.dq.len(), |i: int| fmul(s.dq[i], xdd)),
    )
}

pub open spec fn tick_time(k: int, dt: Scalar, total: Scalar) -> Scalar {
    fmin(fmul(from_int(k), dt), total)
}

/// The trajectory of some segments; of none, a rest at the first waypoint.
pub open spec fn gridded(
    segs: Seq<SegmentV>,
    total: Scalar,
    first: Seq<Scalar>,
    l: LimitsV,
    dt: Scalar,
) -> TrajV {
    let one = Scalar { bits: ONE_BITS };
    if segs.len() == 0 || fle(total, Scalar { bits: NANO_BITS }) {
        let z = zero_seq(l.v.len());
        knotted(TrajKind::Plan, dt, seq![first], seq![z], seq![z], l, true, one)
    } else {
        let x = fdiv(total, dt);
        let n = (saturated(x, ceil_int(x), 0, usize::MAX as int) + 1) as nat;
        knotted(
            TrajKind::Plan,
            dt,
            Seq::new(n, |k: int| along(segs, tick_time(k, dt, total)).0),
            Seq::new(n, |k: int| along(segs, tick_time(k, dt, total)).1),
            Seq::new(n, |k: int| along(segs, tick_time(k, dt, total)).2),
            l,
            true,
            one,
        )
    }
}

pub open spec fn limit_ok(law: Law, l: LimitsV, i: int) -> bool {
    let z = Scalar { bits: 0 };
    flt(z, l.v[i]) && flt(z, l.a[i]) && (law == Law::TimeOptimal || flt(z, l.j[i]))
}

/// First joint from `i` on with a limit that is not positive.
pub open spec fn limit_fault(law: Law, l: LimitsV, i: int) -> Option<int>
    decreases l.v.len() - i,
{
    if i < 0 || i >= l.v.len() {
        None
    } else if limit_ok(law, l, i) {
        limit_fault(law, l, i + 1)
    } else {
        Some(i)
    }
}

pub open spec fn path_ok(w: Seq<Seq<Scalar>>, n: nat) -> bool {
    forall|k: int| 0 <= k < w.len() ==> (#[trigger] w[k]).len() == n && all_finite(w[k])
}

/// The timing of a path, or why there is none.
pub open spec fn retimed(
    law: Law,
    w: Seq<Seq<Scalar>>,
    l: LimitsV,
    dt: Scalar,
    cbrt: spec_fn(Scalar) -> Scalar,
) -> Result<TrajV, MotionError> {
    if w.len() == 0 || !(dt.finite() && flt(Scalar { bits: 0 }, dt)) || !path_ok(w, l.v.len()) {
        Err(MotionError::DimMismatch)
    } else {
        match limit_fault(law, l, 0) {
            Some(i) => Err(MotionError::BadLimit(i as usize)),
            None => {
                let (segs, total) = segmented(law, w, l, cbrt, (w.len() - 1) as nat);
                Ok(gridded(segs, total, w[0], l, dt))
            },
        }
    }
}

/// The view of a result.
pub open spec fn seen(r: Result<Trajectory, MotionError>) -> Result<TrajV, MotionError> {
    match r {
        Ok(t) => Ok(t@),
        Err(e) => Err(e),
    }
}

fn bound_of(dq: &Vec<Scalar>, lim: &Vec<Scalar>) -> (r: Scalar)
    requires
        lim@.len() >= dq@.len(),
    ensures
        r == bound_along(dq@, lim@, dq@.len()),
{
    let mut c = Scalar { bits: INFINITY_BITS };
    let mut i: usize = 0;
    while i < dq.len()
        invariant
            i <= dq.len(),
            lim@.len() >= dq@.len(),
            c == bound_along(dq@, lim@, i as nat),
        decreases dq.len() - i,
    {
        let d = dq[i].abs();
        if d.gt(Scalar { bits: NANO_BITS }) {
            c = c.min(lim[i].div(d));
        }
        i = i + 1;
    }
    c
}

fn step_of(a: &Vec<Scalar>, b: &Vec<Scalar>) -> (r: Vec<Scalar>)
    requires
        b@.len() >= a@.len(),
    ensures
        r@ == step_between(a@, b@),
{
    let mut out: Vec<Scalar> = Vec::new();
    let mut i: usize = 0;
    while i < a.len()
        invariant
            i <= a.len(),
            b@.len() >= a@.len(),
            out.len() == i,
            forall|k: int| 0 <= k < i ==> #[trigger] out@[k] == fsub(b@[k], a@[k]),
        decreases a.len() - i,
    {
        out.push(b[i].sub(a[i]));
        i = i + 1;
    }
    assert(out@ =~= step_between(a@, b@));
    out
}

impl Timing {
    fn total(&self) -> (r: Scalar)
        ensures
            r == timing_total(self@),
    {
        match self {
            Timing::Jerk(p) => p.total(),
            Timing::Bang(b) => b.total(),
        }
    }

    fn sample(&self, t: Scalar) -> (r: (Scalar, Scalar, Scalar))
        ensures
            r == timing_at(self@, t),
    {
        match self {
            Timing::Jerk(p) => p.sample(t),
            Timing::Bang(b) => b.sample(t),
        }
    }
}

fn time_segment<F: Fn(Scalar) -> Scalar>(
    law: Law,
    dq: &Vec<Scalar>,
    l: &MotionLimits,
    cbrt: &F,
) -> (r: Option<Timing>)
    requires
        forall|x: Scalar| call_requires(*cbrt, (x,)),
        l.vmax@.len() >= dq@.len(),
        l.amax@.len() >= dq@.len(),
        law == Law::JerkLimited ==> l.jmax@.len() >= dq@.len(),
    ensures
        forall|g: spec_fn(Scalar) -> Scalar| #[trigger]
            computes(*cbrt, g) ==> match r {
                Some(t) => timed(law, dq@, l@, g) == Some(t@),
                None => timed(law, dq@, l@, g) is None,
            },
{
    let v = bound_of(dq, &l.vmax);
    let a = bound_of(dq, &l.amax);
    if !v.is_finite() {
        return None;
    }
    match law {
        Law::JerkLimited => {
            let j = bound_of(dq, &l.jmax);
            Some(Timing::Jerk(plan_scurve(Scalar { bits: ONE_BITS }, v, a, j, cbrt)))
        },
        Law::TimeOptimal => Some(Timing::Bang(BangBang::plan(Scalar { bits: ONE_BITS }, v, a))),
    }
}

/// Every segment is `n` wide.
pub open spec fn segments_wide(s: Seq<Segment>, n: nat) -> bool {
    forall|i: int|
        0 <= i < s.len() ==> (#[trigger] s[i])@.q0.len() == n && s[i]@.dq.len() == n
}

/// Whether a time is before the end of a segment.
fn owns(s: &Segment, t: Scalar) -> (r: bool)
    ensures
        r == flt(t, fadd(fadd(s@.t_start, s@.dur), Scalar { bits: PICO_BITS })),
{
    t.lt(s.t_start.add(s.dur).add(Scalar { bits: PICO_BITS }))
}

fn sample_at(segs: &Vec<Segment>, t: Scalar, n: usize) -> (r: (
    Vec<Scalar>,
    Vec<Scalar>,
    Vec<Scalar>,
))
    requires
        segs@.len() > 0,
        segments_wide(segs@, n as nat),
    ensures
        (r.0@, r.1@, r.2@) == along(segments_of(segs@), t),
        r.0@.len() == n,
        r.1@.len() == n,
        r.2@.len() == n,
{
    let ghost v = segments_of(segs@);
    let mut i: usize = 0;
    while i < segs.len() - 1 && !owns(&segs[i], t)
        invariant
            i < segs.len(),
            v == segments_of(segs@),
            segment_at(v, t, 0) == segment_at(v, t, i as int),
        decreases segs.len() - i,
    {
        assert(v[i as int] == segs@[i as int]@);
        i = i + 1;
    }
    let s = &segs[i];
    assert(v[i as int] == s@);
    assert(segment_at(v, t, i as int) == i);
    let (x, xd, xdd) = s.prof.sample(
        hold_in(t.sub(s.t_start), Scalar { bits: 0 }, s.dur),
    );
    let mut q: Vec<Scalar> = Vec::new();
    let mut qd: Vec<Scalar> = Vec::new();
    let mut qdd: Vec<Scalar> = Vec::new();
    let mut k: usize = 0;
    while k < n
        invariant
            k <= n,
            s.q0@.len() == n,
            s.dq@.len() == n,
            q.len() == k,
            qd.len() == k,
            qdd.len() == k,
            forall|c: int| 0 <= c < k ==> #[trigger] q@[c] == fadd(s.q0@[c], fmul(s.dq@[c], x)),
            forall|c: int| 0 <= c < k ==> #[trigger] qd@[c] == fmul(s.dq@[c], xd),
            forall|c: int| 0 <= c < k ==> #[trigger] qdd@[c] == fmul(s.dq@[c], xdd),
        decreases n - k,
    {
        q.push(s.q0[k].add(s.dq[k].mul(x)));
        qd.push(s.dq[k].mul(xd));
        qdd.push(s.dq[k].mul(xdd));
        k = k + 1;
    }
    assert(q@ =~= along(v, t).0);
    assert(qd@ =~= along(v, t).1);
    assert(qdd@ =~= along(v, t).2);
    (q, qd, qdd)
}

/// Samples segments on a uniform grid.
fn grid(segs: &Vec<Segment>, total: Scalar, first: &Vec<Scalar>, l: &MotionLimits, dt: Scalar) -> (r:
    Trajectory)
    requires
        first@.len() == l@.v.len(),
        segments_wide(segs@, l@.v.len()),
    ensures
        r@ == gridded(segments_of(segs@), total, first@, l@, dt),
{
    let n: usize = l.vmax.len();
    let one = Scalar { bits: ONE_BITS };
    if segs.len() == 0 || total.le(Scalar { bits: NANO_BITS }) {
        let q: Vec<Vec<Scalar>> = vec![copy_scalars(first.as_slice())];
        let qd: Vec<Vec<Scalar>> = vec![zeros(n)];
        let qdd: Vec<Vec<Scalar>> = vec![zeros(n)];
        proof {
            assert(rows_of(q@) =~= seq![first@]);
            assert(rows_of(qd@) =~= seq![zero_seq(l@.v.len())]);
            assert(rows_of(qdd@) =~= seq![zero_seq(l@.v.len())]);
        }
        return Trajectory::from_knots(TrajKind::Plan, dt, q, qd, qdd, l.copy(), true, one);
    }
    let steps: usize = total.div(dt).ceil_usize();
    let ghost v = segments_of(segs@);
    let mut q: Vec<Vec<Scalar>> = Vec::new();
    let mut qd: Vec<Vec<Scalar>> = Vec::new();
    let mut qdd: Vec<Vec<Scalar>> = Vec::new();
    let mut k: usize = 0;
    let mut more: bool = true;
    while more
        invariant
            k <= steps,
            v == segments_of(segs@),
            segs@.len() > 0,
            segments_wide(segs@, n as nat),
            q.len() == (if more {
                k as int
            } else {
                steps + 1
            }),
            qd.len() == q.len(),
            qdd.len() == q.len(),
            all_wide(q@, n as nat),
            all_wide(qd@, n as nat),
            all_wide(qdd@, n as nat),
            forall|c: int|
                0 <= c < q.len() ==> (#[trigger] q@[c])@ == along(v, tick_time(c, dt, total)).0,
            forall|c: int|
                0 <= c < q.len() ==> (#[trigger] qd@[c])@ == along(v, tick_time(c, dt, total)).1,
            forall|c: int|
                0 <= c < q.len() ==> (#[trigger] qdd@[c])@ == along(v, tick_time(c, dt, total)).2,
        decreases
            if more {
                steps - k + 1
            } else {
                0
            },
    {
        let t = Scalar::from_usize(k).mul(dt).min(total);
        let (a, b, c) = sample_at(segs, t, n);
        q.push(a);
        qd.push(b);
        qdd.push(c);
        if k == steps {
            more = false;
        } else {
            k = k + 1;
        }
    }
    proof {
        let m = (steps + 1) as nat;
        assert(rows_of(q@) =~= Seq::new(m, |k: int| along(v, tick_time(k, dt, total)).0));
        assert(rows_of(qd@) =~= Seq::new(m, |k: int| along(v, tick_time(k, dt, total)).1));
        assert(rows_of(qdd@) =~= Seq::new(m, |k: int| along(v, tick_time(k, dt, total)).2));
    }
    Trajectory::from_knots(TrajKind::Plan, dt, q, qd, qdd, l.copy(), true, one)
}

fn path_fits(w: &Vec<Vec<Scalar>>, n: usize) -> (r: bool)
    ensures
        r == path_ok(rows_of(w@), n as nat),
{
    let ghost v = rows_of(w@);
    let mut i: usize = 0;
    while i < w.len()
        invariant
            i <= w.len(),
            v == rows_of(w@),
            forall|k: int| 0 <= k < i ==> (#[trigger] v[k]).len() == n && all_finite(v[k]),
        decreases w.len() - i,
    {
        assert(v[i as int] == w@[i as int]@);
        if w[i].len() != n {
            return false;
        }
        match crate::hal::backend::check_finite("waypoint", w[i].as_slice()) {
            Ok(_) => {},
            Err(_) => {
                return false;
            },
        }
        i = i + 1;
    }
    true
}

/// Times a path under a law.
pub fn retime<F: Fn(Scalar) -> Scalar>(
    law: Law,
    waypoints: &Vec<Vec<Scalar>>,
    limits: &MotionLimits,
    dt: Scalar,
    cbrt: &F,
) -> (r: Result<Trajectory, MotionError>)
    requires
        forall|x: Scalar| call_requires(*cbrt, (x,)),
        limits@.a.len() >= limits@.v.len(),
        law == Law::JerkLimited ==> limits@.j.len() >= limits@.v.len(),
    ensures
        forall|g: spec_fn(Scalar) -> Scalar| #[trigger]
            computes(*cbrt, g) ==> seen(r) == retimed(law, rows_of(waypoints@), limits@, dt, g),
{
    let n: usize = limits.vmax.len();
    let ghost w = rows_of(waypoints@);
    if waypoints.len() == 0 || !(dt.is_finite() && dt.gt(Scalar { bits: 0 })) || !path_fits(
        waypoints,
        n,
    ) {
        return Err(MotionError::DimMismatch);
    }
    let mut i: usize = 0;
    while i < n
        invariant
            i <= n,
            n == limits@.v.len(),
            limits@.a.len() >= n,
            law == Law::JerkLimited ==> limits@.j.len() >= n,
            w == rows_of(waypoints@),
            w.len() > 0,
            dt.finite() && flt(Scalar { bits: 0 }, dt),
            path_ok(w, n as nat),
            limit_fault(law, limits@, 0) == limit_fault(law, limits@, i as int),
        decreases n - i,
    {
        let z = Scalar { bits: 0 };
        let jerk_ok = match law {
            Law::TimeOptimal => true,
            Law::JerkLimited => limits.jmax[i].gt(z),
        };
        if !(limits.vmax[i].gt(z) && limits.amax[i].gt(z) && jerk_ok) {
            return Err(MotionError::BadLimit(i));
        }
        i = i + 1;
    }
    let mut segs: Vec<Segment> = Vec::new();
    let mut total = Scalar { bits: 0 };
    let mut k: usize = 0;
    assert(segments_of(segs@) =~= Seq::empty());
    while k < waypoints.len() - 1
        invariant
            k <= waypoints.len() - 1,
            waypoints.len() > 0,
            forall|x: Scalar| call_requires(*cbrt, (x,)),
            n == limits@.v.len(),
            limits@.a.len() >= n,
            law == Law::JerkLimited ==> limits@.j.len() >= n,
            w == rows_of(waypoints@),
            path_ok(w, n as nat),
            segments_wide(segs@, n as nat),
            forall|g: spec_fn(Scalar) -> Scalar| #[trigger]
                computes(*cbrt, g) ==> (segments_of(segs@), total) == segmented(
                    law,
                    w,
                    limits@,
                    g,
                    k as nat,
                ),
        decreases waypoints.len() - k,
    {
        let ghost before = segs@;
        let ghost t0 = total;
        proof {
            assert(w[k as int] == waypoints@[k as int]@);
            assert(w[k + 1] == waypoints@[k + 1]@);
        }
        let dq = step_of(&waypoints[k], &waypoints[k + 1]);
        match time_segment(law, &dq, limits, cbrt) {
            Some(prof) => {
                let dur = prof.total();
                let q0 = copy_scalars(waypoints[k].as_slice());
                let ghost s = SegmentV {
                    q0: q0@,
                    dq: dq@,
                    prof: prof@,
                    t_start: total,
                    dur,
                };
                segs.push(Segment { q0, dq, prof, t_start: total, dur });
                total = total.add(dur);
                assert(segments_of(segs@) =~= segments_of(before).push(s));
                assert forall|g: spec_fn(Scalar) -> Scalar| #[trigger]
                    computes(*cbrt, g) implies (segments_of(segs@), total) == segmented(
                    law,
                    w,
                    limits@,
                    g,
                    (k + 1) as nat,
                ) by {
                    assert((segments_of(before), t0) == segmented(law, w, limits@, g, k as nat));
                }
            },
            None => {
                assert forall|g: spec_fn(Scalar) -> Scalar| #[trigger]
                    computes(*cbrt, g) implies (segments_of(segs@), total) == segmented(
                    law,
                    w,
                    limits@,
                    g,
                    (k + 1) as nat,
                ) by {
                    assert((segments_of(before), t0) == segmented(law, w, limits@, g, k as nat));
                }
            },
        }
        k = k + 1;
    }
    assert(w[0] == waypoints@[0]@);
    Ok(grid(&segs, total, &waypoints[0], limits, dt))
}

/// Times a path under velocity, acceleration and jerk limits.
pub fn retime_waypoints<F: Fn(Scalar) -> Scalar>(
    waypoints: &Vec<Vec<Scalar>>,
    limits: &MotionLimits,
    dt: Scalar,
    cbrt: &F,
) -> (r: Result<Trajectory, MotionError>)
    requires
        forall|x: Scalar| call_requires(*cbrt, (x,)),
        limits@.a.len() >= limits@.v.len(),
        limits@.j.len() >= limits@.v.len(),
    ensures
        forall|g: spec_fn(Scalar) -> Scalar| #[trigger]
            computes(*cbrt, g) ==> seen(r) == retimed(
                Law::JerkLimited,
                rows_of(waypoints@),
                limits@,
                dt,
                g,
            ),
{
    retime(Law::JerkLimited, waypoints, limits, dt, cbrt)
}

/// Times a path as quickly as velocity and acceleration limits allow, stopping at
/// every corner.
pub fn retime_time_optimal(waypoints: &Vec<Vec<Scalar>>, limits: &MotionLimits, dt: Scalar) -> (r:
    Result<Trajectory, MotionError>)
    requires
        limits@.a.len() >= limits@.v.len(),
    ensures
        seen(r) == retimed(
            Law::TimeOptimal,
            rows_of(waypoints@),
            limits@,
            dt,
            |x: Scalar| x,
        ),
{
    let same = |x: Scalar| -> (r: Scalar)
        ensures
            r == x,
        { x };
    let r = retime(Law::TimeOptimal, waypoints, limits, dt, &same);
    assert(computes(same, |x: Scalar| x));
    r
}

// ---- laws ----

proof fn lemma_knots(
    segs: Seq<SegmentV>,
    total: Scalar,
    first: Seq<Scalar>,
    l: LimitsV,
    dt: Scalar,
)
    ensures
        gridded(segs, total, first, l, dt).q.len() > 0,
        gridded(segs, total, first, l, dt).completed,
        gridded(segs, total, first, l, dt).limits == l,
        gridded(segs, total, first, l, dt).kind == TrajKind::Plan,
{
    let x = fdiv(total, dt);
    assert(saturated(x, ceil_int(x), 0, usize::MAX as int) >= 0);
}

/// A path that can be timed has a trajectory, and only such a path has one.
pub proof fn law_good_paths_are_timed(
    law: Law,
    w: Seq<Seq<Scalar>>,
    l: LimitsV,
    dt: Scalar,
    cbrt: spec_fn(Scalar) -> Scalar,
)
    ensures
        retimed(law, w, l, dt, cbrt) is Ok <==> w.len() > 0 && dt.finite() && flt(
            Scalar { bits: 0 },
            dt,
        ) && path_ok(w, l.v.len()) && limit_fault(law, l, 0) is None,
        match retimed(law, w, l, dt, cbrt) {
            Ok(t) => t.q.len() > 0 && t.completed && t.limits == l && t.kind == TrajKind::Plan,
            Err(_) => true,
        },
{
    if retimed(law, w, l, dt, cbrt) is Ok {
        let (segs, total) = segmented(law, w, l, cbrt, (w.len() - 1) as nat);
        lemma_knots(segs, total, w[0], l, dt);
    }
}

/// Waypoints that are all the same are a rest: one knot, at the first of them.
pub proof fn law_no_segments_is_a_rest(
    segs: Seq<SegmentV>,
    total: Scalar,
    first: Seq<Scalar>,
    l: LimitsV,
    dt: Scalar,
)
    requires
        segs.len() == 0,
    ensures
        gridded(segs, total, first, l, dt).q == seq![first],
        gridded(segs, total, first, l, dt).qd == seq![zero_seq(l.v.len())],
{
}

/// A move that ends, with a first ramp that lasts.
pub open spec fn lasts(p: TimingV) -> bool {
    let z = Scalar { bits: 0 };
    fle(z, timing_total(p)) && match p {
        TimingV::Jerk(q) => q.jmax.finite() && flt(z, q.tj),
        TimingV::Bang(b) => sound(b),
    }
}

/// The move along a segment starts at rest where the segment does.
proof fn lemma_starts_at_rest(
    law: Law,
    dq: Seq<Scalar>,
    l: LimitsV,
    cbrt: spec_fn(Scalar) -> Scalar,
    p: TimingV,
)
    requires
        timed(law, dq, l, cbrt) == Some(p),
        lasts(p),
    ensures
        timing_at(p, Scalar { bits: 0 }).0.mag() == 0,
        timing_at(p, Scalar { bits: 0 }).1.mag() == 0,
{
    let one = Scalar { bits: ONE_BITS };
    let v = bound_along(dq, l.v, dq.len());
    let a = bound_along(dq, l.a, dq.len());
    let j = bound_along(dq, l.j, dq.len());
    match law {
        Law::JerkLimited => {
            assert(!flt(fabs(one), Scalar { bits: PICO_BITS }));
            assert(planned(one, v, a, j, cbrt).jmax == j) by {
                reveal(planned);
                reveal(built);
            }
            law_moves_start_at_rest(one, v, a, j, cbrt);
        },
        Law::TimeOptimal => {
            law_move_starts_at_rest(bang(one, v, a));
        },
    }
}

/// The first segment of a path whose first step moves.
proof fn lemma_first_segment(
    law: Law,
    w: Seq<Seq<Scalar>>,
    l: LimitsV,
    cbrt: spec_fn(Scalar) -> Scalar,
    k: nat,
    p: TimingV,
)
    requires
        k >= 1,
        timed(law, step_between(w[0], w[1]), l, cbrt) == Some(p),
    ensures
        segmented(law, w, l, cbrt, k).0.len() >= 1,
        segmented(law, w, l, cbrt, k).0[0] == (SegmentV {
            q0: w[0],
            dq: step_between(w[0], w[1]),
            prof: p,
            t_start: Scalar { bits: 0 },
            dur: timing_total(p),
        }),
    decreases k,
{
    reveal_with_fuel(segmented, 2);
    if k > 1 {
        lemma_first_segment(law, w, l, cbrt, (k - 1) as nat, p);
    }
}

/// The first tick is at the start.
proof fn lemma_first_tick(dt: Scalar, total: Scalar)
    requires
        dt.finite(),
        flt(Scalar { bits: 0 }, dt),
        !fle(total, Scalar { bits: NANO_BITS }),
    ensures
        tick_time(0, dt, total) == (Scalar { bits: 0 }),
{
    let z = Scalar { bits: 0 };
    assert(from_int(0) == z) by {
        crate::scalar::number::lemma_round_exact(0);
        assert(crate::scalar::number::mag_units(0) == 0);
        assert(0 * vstd::arithmetic::power2::pow2(1074) == 0);
    }
    lemma_times_nothing(dt, z);
    assert(fmul(z, dt) == z) by {
        reveal(fmul);
    }
}

/// A timed path whose first step moves starts at its first waypoint, at rest.
pub proof fn law_paths_start_at_rest(
    law: Law,
    w: Seq<Seq<Scalar>>,
    l: LimitsV,
    dt: Scalar,
    cbrt: spec_fn(Scalar) -> Scalar,
    p: TimingV,
    i: int,
)
    requires
        w.len() >= 2,
        timed(law, step_between(w[0], w[1]), l, cbrt) == Some(p),
        lasts(p),
        all_finite(step_between(w[0], w[1])),
        0 <= i < l.v.len(),
    ensures
        match retimed(law, w, l, dt, cbrt) {
            Ok(t) => feq(t.q[0][i], w[0][i]) && t.qd[0][i].mag() == 0,
            Err(_) => true,
        },
{
    let z = Scalar { bits: 0 };
    if retimed(law, w, l, dt, cbrt) is Ok {
        let (segs, total) = segmented(law, w, l, cbrt, (w.len() - 1) as nat);
        let t = gridded(segs, total, w[0], l, dt);
        assert(w[0].len() == l.v.len() && all_finite(w[0]));
        assert(w[0][i].finite());
        lemma_knots(segs, total, w[0], l, dt);
        lemma_first_segment(law, w, l, cbrt, (w.len() - 1) as nat, p);
        lemma_starts_at_rest(law, step_between(w[0], w[1]), l, cbrt, p);
        if !fle(total, Scalar { bits: NANO_BITS }) {
            lemma_first_tick(dt, total);
            let s = segs[0];
            assert(segment_at(segs, z, 0) == 0) by {
                lemma_past_nothing(s.dur);
            }
            assert(fsub(z, z) == z) by {
                reveal(fadd);
                assert(crate::scalar::number::mag_units(0) == 0);
            }
            assert(held_in(fsub(z, z), z, s.dur) == z);
            let (x, xd, xdd) = timing_at(p, z);
            assert(t.q[0] == along(segs, tick_time(0, dt, total)).0);
            assert(t.qd[0] == along(segs, tick_time(0, dt, total)).1);
            let d = step_between(w[0], w[1])[i];
            assert(d.finite());
            lemma_times_nothing(d, x);
            lemma_times_nothing(d, xd);
            lemma_add_nothing(w[0][i], fmul(d, x));
        }
    }
}

/// The end of the first segment is past the start.
proof fn lemma_past_nothing(dur: Scalar)
    requires
        fle(Scalar { bits: 0 }, dur),
    ensures
        flt(
            Scalar { bits: 0 },
            fadd(fadd(Scalar { bits: 0 }, dur), Scalar { bits: PICO_BITS }),
        ),
{
    let z = Scalar { bits: 0 };
    let pico = Scalar { bits: PICO_BITS };
    let x = fadd(z, dur);
    if dur.finite() {
        lemma_sum(z, dur);
        lemma_add_nothing(dur, z);
        lemma_sum(dur, z);
        assert(x.key() == dur.key());
        lemma_add_nothing(pico, z);
        lemma_sum(pico, z);
        lemma_sum(z, pico);
        lemma_sum(x, pico);
        law_sums_keep_order(z, x, pico);
    } else {
        reveal(fadd);
    }
}

/// The bound along a segment is within what every joint that moves allows.
pub proof fn lemma_bound(dq: Seq<Scalar>, lim: Seq<Scalar>, n: nat, i: int)
    requires
        0 <= i < n,
        flt(Scalar { bits: NANO_BITS }, fabs(dq[i])),
        !fdiv(lim[i], fabs(dq[i])).nan(),
    ensures
        fle(bound_along(dq, lim, n), fdiv(lim[i], fabs(dq[i]))),
    decreases n,
{
    lemma_bound_is_a_number(dq, lim, (n - 1) as nat);
    if i < n - 1 {
        lemma_bound(dq, lim, (n - 1) as nat, i);
    }
}

pub proof fn lemma_bound_is_a_number(dq: Seq<Scalar>, lim: Seq<Scalar>, n: nat)
    ensures
        !bound_along(dq, lim, n).nan(),
    decreases n,
{
    if n > 0 {
        lemma_bound_is_a_number(dq, lim, (n - 1) as nat);
    }
}

/// Every segment of a time-optimal path is the quickest move that its joints allow.
proof fn lemma_quickest(
    w: Seq<Seq<Scalar>>,
    l: LimitsV,
    cbrt: spec_fn(Scalar) -> Scalar,
    k: nat,
    j: int,
)
    requires
        0 <= j < segmented(Law::TimeOptimal, w, l, cbrt, k).0.len(),
    ensures
        ({
            let s = segmented(Law::TimeOptimal, w, l, cbrt, k).0[j];
            let n = s.dq.len();
            s.prof == TimingV::Bang(
                bang(
                    Scalar { bits: ONE_BITS },
                    bound_along(s.dq, l.v, n),
                    bound_along(s.dq, l.a, n),
                ),
            )
        }),
    decreases k,
{
    if k > 0 {
        let before = segmented(Law::TimeOptimal, w, l, cbrt, (k - 1) as nat).0;
        if j < before.len() {
            lemma_quickest(w, l, cbrt, (k - 1) as nat, j);
        }
    }
}

proof fn lemma_owner(segs: Seq<SegmentV>, t: Scalar, i: int)
    requires
        0 <= i < segs.len(),
    ensures
        i <= segment_at(segs, t, i) < segs.len(),
    decreases segs.len() - i,
{
    if i < segs.len() - 1 {
        lemma_owner(segs, t, i + 1);
    }
}

proof fn lemma_share(d: Scalar, x: Scalar, cap: Scalar)
    requires
        d.finite(),
        d.mag() > 0,
        fle(fabs(x), cap),
    ensures
        fle(fabs(fmul(d, x)), fmul(fabs(d), cap)),
{
    lemma_absolute(d);
    lemma_absolute(x);
    if x.infinite() {
        assert(cap.infinite());
        reveal(fmul);
    } else if cap.finite() {
        lemma_absolute_product(d, x);
        law_products_keep_order(fabs(x), cap, fabs(d));
        law_products_commute(fabs(x), fabs(d));
        law_products_commute(cap, fabs(d));
    } else {
        lemma_absolute_product(d, x);
        law_products_keep_order(fabs(x), fabs(x), fabs(d));
        law_products_commute(fabs(x), fabs(d));
        reveal(fmul);
    }
}

/// At every time of a time-optimal path, each joint that moves keeps its acceleration
/// limit up to the rounding of its share, and its velocity stays within the peak of the
/// segment, which its velocity limit bounds.
pub proof fn law_time_optimal_keeps_limits(
    w: Seq<Seq<Scalar>>,
    l: LimitsV,
    cbrt: spec_fn(Scalar) -> Scalar,
    k: nat,
    t: Scalar,
    i: int,
)
    requires
        segmented(Law::TimeOptimal, w, l, cbrt, k).0.len() > 0,
        t.finite(),
        ({
            let segs = segmented(Law::TimeOptimal, w, l, cbrt, k).0;
            let s = segs[segment_at(segs, t, 0)];
            &&& 0 <= i < s.dq.len()
            &&& s.dq[i].finite()
            &&& flt(Scalar { bits: NANO_BITS }, fabs(s.dq[i]))
            &&& !fdiv(l.a[i], fabs(s.dq[i])).nan()
            &&& !fdiv(l.v[i], fabs(s.dq[i])).nan()
            &&& s.t_start.finite()
            &&& s.prof matches TimingV::Bang(b) && sound(b)
        }),
    ensures
        ({
            let segs = segmented(Law::TimeOptimal, w, l, cbrt, k).0;
            let s = segs[segment_at(segs, t, 0)];
            let b = s.prof->Bang_0;
            let share = fabs(s.dq[i]);
            &&& fle(fabs(along(segs, t).2[i]), fmul(share, fdiv(l.a[i], share)))
            &&& fle(fabs(along(segs, t).1[i]), fmul(share, brim(b)))
            &&& fle(b.vpeak, fdiv(l.v[i], share))
        }),
{
    let z = Scalar { bits: 0 };
    let segs = segmented(Law::TimeOptimal, w, l, cbrt, k).0;
    lemma_owner(segs, t, 0);
    let j = segment_at(segs, t, 0);
    let s = segs[j];
    let n = s.dq.len();
    let b = s.prof->Bang_0;
    lemma_quickest(w, l, cbrt, k, j);
    lemma_bound(s.dq, l.v, n, i);
    lemma_bound(s.dq, l.a, n, i);
    let share = fabs(s.dq[i]);
    let local = held_in(fsub(t, s.t_start), z, s.dur);
    lemma_difference(t, s.t_start);
    assert(!local.nan());
    law_move_keeps_acceleration(b, local);
    law_move_keeps_velocity(b, local);
    assert(b.acap == bound_along(s.dq, l.a, n) && fle(b.vpeak, bound_along(s.dq, l.v, n))) by {
        reveal(bang);
        lemma_bound_is_a_number(s.dq, l.v, n);
    }
    lemma_share(s.dq[i], timing_at(s.prof, local).2, fdiv(l.a[i], share));
    lemma_share(s.dq[i], timing_at(s.prof, local).1, brim(b));
}

} // verus!
