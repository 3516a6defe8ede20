//! Lints of a sampled path: what breaks a limit, and what deserves a second look.

use vstd::prelude::*;

use crate::kinematics::report::{margin_at, path_report, smallest, PathReport, PathRows};
#[allow(unused_imports)]
use crate::kinematics::report::{
    margin, margin_min, report_matches, rows_fit, sigma_of, utilization_max, PathV,
};
#[allow(unused_imports)]
use crate::motion::trajectory::{all_wide, rows_of};
use crate::scalar::consts::{
    CENTI_BITS, HALF_BITS, INFINITY_BITS, MINUS_ONE_BITS, ONE_BITS, ONE_HALF_MORE_BITS,
    QUARTER_BITS, THREE_BITS, TWENTIETH_BITS,
};
#[allow(unused_imports)]
use crate::scalar::convert::from_int;
#[allow(unused_imports)]
use crate::scalar::number::{fabs, fadd, fdiv, fle, flt, fmul, fsub};
use crate::scalar::Scalar;

verus! {

/// How bad a finding is.
#[derive(Clone, Copy, Debug, PartialEq, Eq, PartialOrd, Ord, Structural)]
pub enum LintSeverity {
    /// It runs, but deserves a second look.
    Warning,
    /// A hard limit is broken.
    Error,
}

/// What was found, with the numbers it rests on.
#[derive(Clone, Copy, Debug, PartialEq, Eq, Structural)]
pub enum Detail {
    /// A position is outside its limits.
    Position { lo: Scalar, hi: Scalar },
    /// A velocity is over its limit.
    Velocity { peak: Scalar, limit: Scalar },
    /// An acceleration is over its limit.
    Acceleration { peak: Scalar, limit: Scalar },
    /// A joint stays near a limit for long.
    Dwell { margin: Scalar },
    /// A joint travels much farther than it gets.
    Detour { travel: Scalar, net: Scalar, excursion: Scalar },
    /// An acceleration changes too fast.
    Jerk { threshold: Scalar },
    /// The path runs through a singular region, between two times.
    Corridor { from: Scalar, to: Scalar },
}

/// One finding: which joint, when it is worst, and the number that gave it away.
#[derive(Clone, Copy, Debug, PartialEq, Eq, Structural)]
pub struct Finding {
    pub detail: Detail,
    pub joint: Option<usize>,
    pub time: Option<Scalar>,
    pub value: Option<Scalar>,
}

pub open spec fn code_of(d: Detail) -> Seq<char> {
    match d {
        Detail::Position { .. } => "T001"@,
        Detail::Velocity { .. } => "T002"@,
        Detail::Acceleration { .. } => "T003"@,
        Detail::Dwell { .. } => "T004"@,
        Detail::Detour { .. } => "T005"@,
        Detail::Jerk { .. } => "T006"@,
        Detail::Corridor { .. } => "T007"@,
    }
}

pub open spec fn severity_of(d: Detail) -> LintSeverity {
    match d {
        Detail::Position { .. } => LintSeverity::Error,
        Detail::Velocity { .. } => LintSeverity::Error,
        Detail::Acceleration { .. } => LintSeverity::Error,
        _ => LintSeverity::Warning,
    }
}

pub open spec fn hint_of(d: Detail) -> Seq<char> {
    match d {
        Detail::Position { .. } =>
            "re-plan the segment endpoints (or pick another IK branch) so q stays inside the position limits"@,
        Detail::Velocity { .. } =>
            "re-time the trajectory (retime_waypoints / longer segment time) or raise vmax"@,
        Detail::Acceleration { .. } =>
            "re-time the trajectory with a longer duration or raise amax"@,
        Detail::Dwell { .. } =>
            "re-seed IK (or shift the waypoints) away from the joint limit to keep escape headroom"@,
        Detail::Detour { .. } =>
            "pick the IK branch (or unwound joint angle) nearest the previous waypoint before planning this segment"@,
        Detail::Jerk { .. } =>
            "re-time with the jerk-limited S-curve (move_j / retime_waypoints) or blend the acceleration step over more samples"@,
        Detail::Corridor { .. } =>
            "re-pose the path away from the singular region (see `analyze` escape_direction) or accept DLS damping through it"@,
    }
}

impl Finding {
    /// The stable code.
    pub fn code(&self) -> (r: &'static str)
        ensures
            r@ == code_of(self.detail),
    {
        match self.detail {
            Detail::Position { .. } => "T001",
            Detail::Velocity { .. } => "T002",
            Detail::Acceleration { .. } => "T003",
            Detail::Dwell { .. } => "T004",
            Detail::Detour { .. } => "T005",
            Detail::Jerk { .. } => "T006",
            Detail::Corridor { .. } => "T007",
        }
    }

    /// How bad it is.
    pub fn severity(&self) -> (r: LintSeverity)
        ensures
            r == severity_of(self.detail),
    {
        match self.detail {
            Detail::Position { .. } => LintSeverity::Error,
            Detail::Velocity { .. } => LintSeverity::Error,
            Detail::Acceleration { .. } => LintSeverity::Error,
            _ => LintSeverity::Warning,
        }
    }

    /// A way out.
    pub fn fix_hint(&self) -> (r: &'static str)
        ensures
            r@ == hint_of(self.detail),
    {
        match self.detail {
            Detail::Position { .. } =>
                "re-plan the segment endpoints (or pick another IK branch) so q stays inside the position limits",
            Detail::Velocity { .. } =>
                "re-time the trajectory (retime_waypoints / longer segment time) or raise vmax",
            Detail::Acceleration { .. } =>
                "re-time the trajectory with a longer duration or raise amax",
            Detail::Dwell { .. } =>
                "re-seed IK (or shift the waypoints) away from the joint limit to keep escape headroom",
            Detail::Detour { .. } =>
                "pick the IK branch (or unwound joint angle) nearest the previous waypoint before planning this segment",
            Detail::Jerk { .. } =>
                "re-time with the jerk-limited S-curve (move_j / retime_waypoints) or blend the acceleration step over more samples",
            Detail::Corridor { .. } =>
                "re-pose the path away from the singular region (see `analyze` escape_direction) or accept DLS damping through it",
        }
    }
}

/// The limits that a path is held against.
pub struct LintLimits<'a> {
    pub vmax: &'a Vec<Scalar>,
    pub amax: &'a Vec<Scalar>,
    pub jmax: &'a Vec<Scalar>,
}

/// Thresholds.
#[derive(Clone, Copy, Debug, PartialEq, Eq, Structural)]
pub struct LintOptions {
    pub utilization_tol: Scalar,
    pub near_limit_margin: Scalar,
    pub near_limit_dwell_frac: Scalar,
    pub travel_ratio_max: Scalar,
    pub travel_min: Scalar,
    pub jerk_spike_ratio: Scalar,
    pub sigma_min_threshold: Scalar,
}

impl Default for LintOptions {
    fn default() -> (r: LintOptions)
        ensures
            r == (LintOptions {
                utilization_tol: Scalar { bits: CENTI_BITS },
                near_limit_margin: Scalar { bits: TWENTIETH_BITS },
                near_limit_dwell_frac: Scalar { bits: QUARTER_BITS },
                travel_ratio_max: Scalar { bits: THREE_BITS },
                travel_min: Scalar { bits: HALF_BITS },
                jerk_spike_ratio: Scalar { bits: ONE_HALF_MORE_BITS },
                sigma_min_threshold: Scalar { bits: CENTI_BITS },
            }),
    {
        LintOptions {
            utilization_tol: Scalar { bits: CENTI_BITS },
            near_limit_margin: Scalar { bits: TWENTIETH_BITS },
            near_limit_dwell_frac: Scalar { bits: QUARTER_BITS },
            travel_ratio_max: Scalar { bits: THREE_BITS },
            travel_min: Scalar { bits: HALF_BITS },
            jerk_spike_ratio: Scalar { bits: ONE_HALF_MORE_BITS },
            sigma_min_threshold: Scalar { bits: CENTI_BITS },
        }
    }
}

/// Tightest margin of joint `i` over the first `k` samples, and when it is first met.
pub open spec fn tightest_margin(p: PathV, lim: Option<(Scalar, Scalar)>, i: int, k: nat) -> (
    Scalar,
    Scalar,
)
    decreases k,
{
    if k == 0 {
        (Scalar { bits: INFINITY_BITS }, p.times[0])
    } else {
        let best = tightest_margin(p, lim, i, (k - 1) as nat);
        match lim {
            Some((lo, hi)) => if flt(margin(p.q[k - 1][i], lo, hi), best.0) {
                (margin(p.q[k - 1][i], lo, hi), p.times[k - 1])
            } else {
                best
            },
            None => best,
        }
    }
}

/// How many of the first `k` samples are near a limit.
pub open spec fn near_samples(
    p: PathV,
    lim: Option<(Scalar, Scalar)>,
    near: Scalar,
    i: int,
    k: nat,
) -> nat
    decreases k,
{
    if k == 0 {
        0
    } else {
        let head = near_samples(p, lim, near, i, (k - 1) as nat);
        match lim {
            Some((lo, hi)) => if flt(margin(p.q[k - 1][i], lo, hi), near) {
                head + 1
            } else {
                head
            },
            None => head,
        }
    }
}

/// Largest magnitude of joint `i` over the first `k` samples, and when it is first met.
pub open spec fn peak(x: Seq<Seq<Scalar>>, times: Seq<Scalar>, i: int, k: nat) -> (Scalar, Scalar)
    decreases k,
{
    if k == 0 {
        (Scalar { bits: 0 }, times[0])
    } else {
        let best = peak(x, times, i, (k - 1) as nat);
        if flt(best.0, fabs(x[k - 1][i])) {
            (fabs(x[k - 1][i]), times[k - 1])
        } else {
            best
        }
    }
}

/// How far joint `i` travels over the first `k + 1` samples.
pub open spec fn travelled(q: Seq<Seq<Scalar>>, i: int, k: nat) -> Scalar
    decreases k,
{
    if k == 0 {
        Scalar { bits: 0 }
    } else {
        fadd(travelled(q, i, (k - 1) as nat), fabs(fsub(q[k as int][i], q[k - 1][i])))
    }
}

/// How far joint `i` is from the straight line between its ends at sample `k`.
pub open spec fn off_line(p: PathV, i: int, k: int) -> Scalar {
    let last = p.times.len() - 1;
    let span = fsub(p.times[last], p.times[0]);
    let alpha = if flt(Scalar { bits: 0 }, span) {
        fdiv(fsub(p.times[k], p.times[0]), span)
    } else {
        Scalar { bits: 0 }
    };
    let chord = fadd(p.q[0][i], fmul(alpha, fsub(p.q[last][i], p.q[0][i])));
    fabs(fsub(p.q[k][i], chord))
}

/// Farthest from the line over the first `k` samples, and when it is first met.
pub open spec fn farthest(p: PathV, i: int, k: nat) -> (Scalar, Scalar)
    decreases k,
{
    if k == 0 {
        (Scalar { bits: MINUS_ONE_BITS }, p.times[0])
    } else {
        let best = farthest(p, i, (k - 1) as nat);
        if flt(best.0, off_line(p, i, k - 1)) {
            (off_line(p, i, k - 1), p.times[k - 1])
        } else {
            best
        }
    }
}

/// Largest jerk of joint `i` over the first `k` intervals, and when it is first met.
/// Intervals without length do not count.
pub open spec fn sharpest(p: PathV, i: int, k: nat) -> (Scalar, Scalar)
    decreases k,
{
    if k == 0 {
        (Scalar { bits: 0 }, p.times[0])
    } else {
        let best = sharpest(p, i, (k - 1) as nat);
        let dt = fsub(p.times[k as int], p.times[k - 1]);
        let jerk = fabs(fdiv(fsub(p.qdd[k as int][i], p.qdd[k - 1][i]), dt));
        if !fle(dt, Scalar { bits: 0 }) && flt(best.0, jerk) {
            (jerk, p.times[k as int])
        } else {
            best
        }
    }
}

/// What is to be linted.
pub struct CaseV {
    pub p: PathV,
    pub n: nat,
    pub limits: Seq<Option<(Scalar, Scalar)>>,
    pub vmax: Seq<Scalar>,
    pub amax: Seq<Scalar>,
    pub jmax: Seq<Scalar>,
    pub o: LintOptions,
}

pub open spec fn found(detail: Detail, i: int, time: Scalar, value: Scalar) -> Option<Finding> {
    Some(Finding { detail, joint: Some(i as usize), time: Some(time), value: Some(value) })
}

/// Joint `i` outside its limits.
pub open spec fn position_finding(c: CaseV, i: int) -> Option<Finding> {
    let m = margin_min(c.p.q, c.limits[i], i, c.p.times.len());
    match c.limits[i] {
        Some((lo, hi)) => if m.finite() && flt(m, Scalar { bits: 0 }) {
            found(
                Detail::Position { lo, hi },
                i,
                tightest_margin(c.p, c.limits[i], i, c.p.times.len()).1,
                m,
            )
        } else {
            None
        },
        None => None,
    }
}

pub open spec fn over(u: Scalar, o: LintOptions) -> bool {
    flt(fadd(Scalar { bits: ONE_BITS }, o.utilization_tol), u)
}

/// Joint `i` too fast.
pub open spec fn velocity_finding(c: CaseV, i: int) -> Option<Finding> {
    let u = utilization_max(c.p.qd, c.vmax[i], i, c.p.times.len());
    let (top, t) = peak(c.p.qd, c.p.times, i, c.p.times.len());
    if over(u, c.o) {
        found(Detail::Velocity { peak: top, limit: c.vmax[i] }, i, t, u)
    } else {
        None
    }
}

/// Joint `i` accelerating too much.
pub open spec fn acceleration_finding(c: CaseV, i: int) -> Option<Finding> {
    let u = utilization_max(c.p.qdd, c.amax[i], i, c.p.times.len());
    let (top, t) = peak(c.p.qdd, c.p.times, i, c.p.times.len());
    if over(u, c.o) {
        found(Detail::Acceleration { peak: top, limit: c.amax[i] }, i, t, u)
    } else {
        None
    }
}

/// Joint `i` near a limit for long, without breaking it.
pub open spec fn dwell_finding(c: CaseV, i: int) -> Option<Finding> {
    let k = c.p.times.len();
    let (m, t) = tightest_margin(c.p, c.limits[i], i, k);
    let frac = fdiv(
        from_int(near_samples(c.p, c.limits[i], c.o.near_limit_margin, i, k) as int),
        from_int(k as int),
    );
    if m.finite() && fle(Scalar { bits: 0 }, m) && flt(c.o.near_limit_dwell_frac, frac) {
        found(Detail::Dwell { margin: m }, i, t, frac)
    } else {
        None
    }
}

/// Joint `i` on a detour.
pub open spec fn detour_finding(c: CaseV, i: int) -> Option<Finding> {
    let last = c.p.times.len() - 1;
    let travel = travelled(c.p.q, i, last as nat);
    let net = fabs(fsub(c.p.q[last][i], c.p.q[0][i]));
    let (excursion, t) = farthest(c.p, i, c.p.times.len());
    if flt(c.o.travel_min, travel) && flt(fmul(c.o.travel_ratio_max, net), travel) {
        found(Detail::Detour { travel, net, excursion }, i, t, fdiv(travel, net))
    } else {
        None
    }
}

/// Joint `i` with a jerk spike. An infinite limit turns the check off.
pub open spec fn jerk_finding(c: CaseV, i: int) -> Option<Finding> {
    let threshold = fmul(c.o.jerk_spike_ratio, c.jmax[i]);
    let (top, t) = sharpest(c.p, i, (c.p.times.len() - 1) as nat);
    if threshold.finite() && flt(threshold, top) {
        found(Detail::Jerk { threshold }, i, t, top)
    } else {
        None
    }
}

/// One of the joint checks.
#[derive(Clone, Copy, Debug, PartialEq, Eq, Structural)]
pub enum Check {
    Position,
    Velocity,
    Acceleration,
    Dwell,
    Detour,
    Jerk,
}

pub open spec fn joint_finding(c: CaseV, check: Check, i: int) -> Option<Finding> {
    match check {
        Check::Position => position_finding(c, i),
        Check::Velocity => velocity_finding(c, i),
        Check::Acceleration => acceleration_finding(c, i),
        Check::Dwell => dwell_finding(c, i),
        Check::Detour => detour_finding(c, i),
        Check::Jerk => jerk_finding(c, i),
    }
}

/// The findings of a check on the first `n` joints.
pub open spec fn joint_findings(c: CaseV, check: Check, n: nat) -> Seq<Finding>
    decreases n,
{
    if n == 0 {
        Seq::empty()
    } else {
        let head = joint_findings(c, check, (n - 1) as nat);
        match joint_finding(c, check, n - 1) {
            Some(f) => head.push(f),
            None => head,
        }
    }
}

pub open spec fn singular_at(c: CaseV, k: int) -> bool {
    flt(sigma_of(c.p.sv[k]), c.o.sigma_min_threshold)
}

/// First sample from `k` on that is not singular.
pub open spec fn corridor_end(c: CaseV, k: int) -> int
    decreases c.p.times.len() - k,
{
    if 0 <= k < c.p.times.len() && singular_at(c, k) {
        corridor_end(c, k + 1)
    } else {
        k
    }
}

/// Worst of the samples from `a` to `b`, and when it is first met.
pub open spec fn corridor_worst(c: CaseV, a: int, b: int) -> (Scalar, Scalar)
    decreases b - a,
{
    if b <= a + 1 {
        (sigma_of(c.p.sv[a]), c.p.times[a])
    } else {
        let best = corridor_worst(c, a, b - 1);
        if flt(sigma_of(c.p.sv[b - 1]), best.0) {
            (sigma_of(c.p.sv[b - 1]), c.p.times[b - 1])
        } else {
            best
        }
    }
}

/// The singular corridors from sample `k` on, one finding each.
pub open spec fn corridors(c: CaseV, k: int) -> Seq<Finding>
    decreases c.p.times.len() - k,
    when 0 <= k
    via corridors_decreases
{
    if k >= c.p.times.len() {
        Seq::empty()
    } else if singular_at(c, k) {
        let end = corridor_end(c, k);
        let (worst, t) = corridor_worst(c, k, end);
        seq![
            Finding {
                detail: Detail::Corridor { from: c.p.times[k], to: c.p.times[end - 1] },
                joint: None,
                time: Some(t),
                value: Some(worst),
            },
        ] + corridors(c, end)
    } else {
        corridors(c, k + 1)
    }
}

#[via_fn]
proof fn corridors_decreases(c: CaseV, k: int) {
    lemma_corridor_end(c, k);
}

pub proof fn lemma_corridor_end(c: CaseV, k: int)
    ensures
        corridor_end(c, k) >= k,
        0 <= k < c.p.times.len() && singular_at(c, k) ==> corridor_end(c, k) > k,
        0 <= k <= c.p.times.len() ==> corridor_end(c, k) <= c.p.times.len(),
    decreases c.p.times.len() - k,
{
    if 0 <= k < c.p.times.len() && singular_at(c, k) {
        lemma_corridor_end(c, k + 1);
    }
}

/// All findings, in the order of their codes.
pub open spec fn findings(c: CaseV) -> Seq<Finding> {
    if c.p.times.len() == 0 || c.n == 0 {
        Seq::empty()
    } else {
        joint_findings(c, Check::Position, c.n) + joint_findings(c, Check::Velocity, c.n)
            + joint_findings(c, Check::Acceleration, c.n) + joint_findings(c, Check::Dwell, c.n)
            + joint_findings(c, Check::Detour, c.n) + joint_findings(c, Check::Jerk, c.n)
            + corridors(c, 0)
    }
}

/// What is linted.
struct Case<'a> {
    n: usize,
    limits: &'a Vec<Option<(Scalar, Scalar)>>,
    rows: &'a PathRows<'a>,
    bounds: &'a LintLimits<'a>,
    o: &'a LintOptions,
}

impl<'a> Case<'a> {
    spec fn view(&self) -> CaseV {
        CaseV {
            p: self.rows@,
            n: self.n as nat,
            limits: self.limits@,
            vmax: self.bounds.vmax@,
            amax: self.bounds.amax@,
            jmax: self.bounds.jmax@,
            o: *self.o,
        }
    }

    spec fn fits(&self) -> bool {
        &&& rows_fit(*self.rows, self.n as nat)
        &&& self.rows.times@.len() > 0
        &&& self.limits@.len() >= self.n
        &&& self.bounds.vmax@.len() >= self.n
        &&& self.bounds.amax@.len() >= self.n
        &&& self.bounds.jmax@.len() >= self.n
    }

    fn find_margin(&self, i: usize) -> (r: (Scalar, Scalar, usize))
        requires
            self.fits(),
            i < self.n,
        ensures
            (r.0, r.1) == tightest_margin(
                self.view().p,
                self.limits@[i as int],
                i as int,
                self.rows.times@.len(),
            ),
            r.2 == near_samples(
                self.view().p,
                self.limits@[i as int],
                self.o.near_limit_margin,
                i as int,
                self.rows.times@.len(),
            ),
    {
        let lim = self.limits[i];
        let ghost p = self.rows@;
        let mut best = Scalar { bits: INFINITY_BITS };
        let mut t = self.rows.times[0];
        let mut near: usize = 0;
        let mut k: usize = 0;
        while k < self.rows.times.len()
            invariant
                k <= self.rows.times@.len(),
                self.fits(),
                i < self.n,
                p == self.rows@,
                lim == self.limits@[i as int],
                near <= k,
                (best, t) == tightest_margin(p, lim, i as int, k as nat),
                near == near_samples(p, lim, self.o.near_limit_margin, i as int, k as nat),
            decreases self.rows.times@.len() - k,
        {
            assert(self.rows.q@[k as int]@.len() == self.n);
            match lim {
                Some((lo, hi)) => {
                    let m = margin_at(self.rows.q[k][i], lo, hi);
                    if m.lt(best) {
                        best = m;
                        t = self.rows.times[k];
                    }
                    if m.lt(self.o.near_limit_margin) {
                        near = near + 1;
                    }
                },
                None => {},
            }
            k = k + 1;
        }
        (best, t, near)
    }

    fn find_peak(&self, x: &Vec<Vec<Scalar>>, i: usize) -> (r: (Scalar, Scalar))
        requires
            self.fits(),
            i < self.n,
            x@.len() == self.rows.times@.len(),
            all_wide(x@, self.n as nat),
        ensures
            r == peak(rows_of(x@), self.rows.times@, i as int, x@.len()),
    {
        let mut best = Scalar { bits: 0 };
        let mut t = self.rows.times[0];
        let mut k: usize = 0;
        while k < x.len()
            invariant
                k <= x.len(),
                x@.len() == self.rows.times@.len(),
                i < self.n,
                all_wide(x@, self.n as nat),
                (best, t) == peak(rows_of(x@), self.rows.times@, i as int, k as nat),
            decreases x.len() - k,
        {
            assert(x@[k as int]@.len() == self.n);
            let v = x[k][i].abs();
            if v.gt(best) {
                best = v;
                t = self.rows.times[k];
            }
            k = k + 1;
        }
        (best, t)
    }

    fn find_travel(&self, i: usize) -> (r: Scalar)
        requires
            self.fits(),
            i < self.n,
        ensures
            r == travelled(self.view().p.q, i as int, (self.rows.times@.len() - 1) as nat),
    {
        let ghost p = self.rows@;
        let mut sum = Scalar { bits: 0 };
        let mut k: usize = 0;
        while k < self.rows.times.len() - 1
            invariant
                k <= self.rows.times@.len() - 1,
                self.fits(),
                i < self.n,
                p == self.rows@,
                sum == travelled(p.q, i as int, k as nat),
            decreases self.rows.times@.len() - k,
        {
            assert(self.rows.q@[k as int]@.len() == self.n);
            assert(self.rows.q@[k + 1]@.len() == self.n);
            sum = sum.add(self.rows.q[k + 1][i].sub(self.rows.q[k][i]).abs());
            k = k + 1;
        }
        sum
    }

    fn find_farthest(&self, i: usize) -> (r: (Scalar, Scalar))
        requires
            self.fits(),
            i < self.n,
        ensures
            r == farthest(self.view().p, i as int, self.rows.times@.len()),
    {
        let ghost p = self.rows@;
        let ns: usize = self.rows.times.len();
        let last: usize = ns - 1;
        assert(self.rows.q@[0]@.len() == self.n);
        assert(self.rows.q@[last as int]@.len() == self.n);
        let t0 = self.rows.times[0];
        let span = self.rows.times[last].sub(t0);
        let q0 = self.rows.q[0][i];
        let net = self.rows.q[last][i].sub(q0);
        let mut best = Scalar { bits: MINUS_ONE_BITS };
        let mut t = t0;
        let mut k: usize = 0;
        while k < ns
            invariant
                k <= ns,
                ns == self.rows.times@.len(),
                last == ns - 1,
                self.fits(),
                i < self.n,
                p == self.rows@,
                t0 == p.times[0],
                span == fsub(p.times[last as int], p.times[0]),
                q0 == p.q[0][i as int],
                net == fsub(p.q[last as int][i as int], p.q[0][i as int]),
                (best, t) == farthest(p, i as int, k as nat),
            decreases ns - k,
        {
            assert(self.rows.q@[k as int]@.len() == self.n);
            let alpha = if span.gt(Scalar { bits: 0 }) {
                self.rows.times[k].sub(t0).div(span)
            } else {
                Scalar { bits: 0 }
            };
            let d = self.rows.q[k][i].sub(q0.add(alpha.mul(net))).abs();
            assert(d == off_line(p, i as int, k as int));
            if d.gt(best) {
                best = d;
                t = self.rows.times[k];
            }
            k = k + 1;
        }
        (best, t)
    }

    fn find_sharpest(&self, i: usize) -> (r: (Scalar, Scalar))
        requires
            self.fits(),
            i < self.n,
        ensures
            r == sharpest(self.view().p, i as int, (self.rows.times@.len() - 1) as nat),
    {
        let ghost p = self.rows@;
        let mut best = Scalar { bits: 0 };
        let mut t = self.rows.times[0];
        let mut k: usize = 0;
        while k < self.rows.times.len() - 1
            invariant
                k <= self.rows.times@.len() - 1,
                self.fits(),
                i < self.n,
                p == self.rows@,
                (best, t) == sharpest(p, i as int, k as nat),
            decreases self.rows.times@.len() - k,
        {
            assert(self.rows.qdd@[k as int]@.len() == self.n);
            assert(self.rows.qdd@[k + 1]@.len() == self.n);
            let dt = self.rows.times[k + 1].sub(self.rows.times[k]);
            if !dt.le(Scalar { bits: 0 }) {
                let jerk = self.rows.qdd[k + 1][i].sub(self.rows.qdd[k][i]).div(dt).abs();
                if jerk.gt(best) {
                    best = jerk;
                    t = self.rows.times[k + 1];
                }
            }
            k = k + 1;
        }
        (best, t)
    }

    fn is_over(&self, u: Scalar) -> (r: bool)
        ensures
            r == over(u, *self.o),
    {
        u.gt(Scalar { bits: ONE_BITS }.add(self.o.utilization_tol))
    }

    fn check(&self, report: &PathReport, check: Check, i: usize) -> (r: Option<Finding>)
        requires
            self.fits(),
            i < self.n,
            report_matches(
                *report,
                self.rows@,
                self.n as nat,
                self.limits@,
                self.bounds.vmax@,
                self.bounds.amax@,
            ),
        ensures
            r == joint_finding(self.view(), check, i as int),
    {
        let zero = Scalar { bits: 0 };
        match check {
            Check::Position => {
                let m = report.limit_margin[i];
                match self.limits[i] {
                    Some((lo, hi)) => {
                        if m.is_finite() && m.lt(zero) {
                            let (_, t, _) = self.find_margin(i);
                            Some(
                                Finding {
                                    detail: Detail::Position { lo, hi },
                                    joint: Some(i),
                                    time: Some(t),
                                    value: Some(m),
                                },
                            )
                        } else {
                            None
                        }
                    },
                    None => None,
                }
            },
            Check::Velocity => {
                let u = report.vel_utilization[i];
                if self.is_over(u) {
                    let (top, t) = self.find_peak(self.rows.qd, i);
                    Some(
                        Finding {
                            detail: Detail::Velocity { peak: top, limit: self.bounds.vmax[i] },
                            joint: Some(i),
                            time: Some(t),
                            value: Some(u),
                        },
                    )
                } else {
                    None
                }
            },
            Check::Acceleration => {
                let u = report.acc_utilization[i];
                if self.is_over(u) {
                    let (top, t) = self.find_peak(self.rows.qdd, i);
                    Some(
                        Finding {
                            detail: Detail::Acceleration { peak: top, limit: self.bounds.amax[i] },
                            joint: Some(i),
                            time: Some(t),
                            value: Some(u),
                        },
                    )
                } else {
                    None
                }
            },
            Check::Dwell => {
                let (m, t, near) = self.find_margin(i);
                let frac = Scalar::from_usize(near).div(
                    Scalar::from_usize(self.rows.times.len()),
                );
                if m.is_finite() && m.ge(zero) && frac.gt(self.o.near_limit_dwell_frac) {
                    Some(
                        Finding {
                            detail: Detail::Dwell { margin: m },
                            joint: Some(i),
                            time: Some(t),
                            value: Some(frac),
                        },
                    )
                } else {
                    None
                }
            },
            Check::Detour => {
                let last: usize = self.rows.times.len() - 1;
                assert(self.rows.q@[0]@.len() == self.n);
                assert(self.rows.q@[last as int]@.len() == self.n);
                let travel = self.find_travel(i);
                let net = self.rows.q[last][i].sub(self.rows.q[0][i]).abs();
                if travel.gt(self.o.travel_min) && travel.gt(self.o.travel_ratio_max.mul(net)) {
                    let (excursion, t) = self.find_farthest(i);
                    Some(
                        Finding {
                            detail: Detail::Detour { travel, net, excursion },
                            joint: Some(i),
                            time: Some(t),
                            value: Some(travel.div(net)),
                        },
                    )
                } else {
                    None
                }
            },
            Check::Jerk => {
                let threshold = self.o.jerk_spike_ratio.mul(self.bounds.jmax[i]);
                if threshold.is_finite() {
                    let (top, t) = self.find_sharpest(i);
                    if top.gt(threshold) {
                        Some(
                            Finding {
                                detail: Detail::Jerk { threshold },
                                joint: Some(i),
                                time: Some(t),
                                value: Some(top),
                            },
                        )
                    } else {
                        None
                    }
                } else {
                    None
                }
            },
        }
    }

    fn check_joints(&self, report: &PathReport, check: Check, out: &mut Vec<Finding>)
        requires
            self.fits(),
            report_matches(
                *report,
                self.rows@,
                self.n as nat,
                self.limits@,
                self.bounds.vmax@,
                self.bounds.amax@,
            ),
        ensures
            final(out)@ == old(out)@ + joint_findings(self.view(), check, self.n as nat),
    {
        let ghost start = out@;
        let mut i: usize = 0;
        assert(start + joint_findings(self.view(), check, 0) =~= start);
        while i < self.n
            invariant
                i <= self.n,
                self.fits(),
                report_matches(
                    *report,
                    self.rows@,
                    self.n as nat,
                    self.limits@,
                    self.bounds.vmax@,
                    self.bounds.amax@,
                ),
                out@ == start + joint_findings(self.view(), check, i as nat),
            decreases self.n - i,
        {
            let ghost head = joint_findings(self.view(), check, i as nat);
            match self.check(report, check, i) {
                Some(f) => {
                    out.push(f);
                    assert((start + head).push(f) =~= start + head.push(f));
                },
                None => {},
            }
            i = i + 1;
        }
    }

    fn is_singular(&self, k: usize) -> (r: bool)
        requires
            self.fits(),
            k < self.rows.times@.len(),
        ensures
            r == singular_at(self.view(), k as int),
    {
        assert(self.rows@.sv[k as int] == self.rows.sv@[k as int]@);
        smallest(&self.rows.sv[k]).lt(self.o.sigma_min_threshold)
    }

    fn check_corridors(&self, out: &mut Vec<Finding>)
        requires
            self.fits(),
        ensures
            final(out)@ == old(out)@ + corridors(self.view(), 0),
    {
        let ghost start = out@;
        let ghost c = self.view();
        let ns: usize = self.rows.times.len();
        let mut k: usize = 0;
        while k < ns
            invariant
                k <= ns,
                ns == self.rows.times@.len(),
                self.fits(),
                c == self.view(),
                start + corridors(c, 0) == out@ + corridors(c, k as int),
            decreases ns - k,
        {
            if self.is_singular(k) {
                let from: usize = k;
                assert(c.p.sv[k as int] == self.rows.sv@[k as int]@);
                let mut worst = smallest(&self.rows.sv[k]);
                let mut t = self.rows.times[k];
                let mut e: usize = k + 1;
                while e < ns && self.is_singular(e)
                    invariant
                        from < e <= ns,
                        ns == self.rows.times@.len(),
                        self.fits(),
                        c == self.view(),
                        corridor_end(c, from as int) == corridor_end(c, e as int),
                        (worst, t) == corridor_worst(c, from as int, e as int),
                    decreases ns - e,
                {
                    assert(c.p.sv[e as int] == self.rows.sv@[e as int]@);
                    let s = smallest(&self.rows.sv[e]);
                    if s.lt(worst) {
                        worst = s;
                        t = self.rows.times[e];
                    }
                    e = e + 1;
                }
                assert(corridor_end(c, e as int) == e);
                let f = Finding {
                    detail: Detail::Corridor {
                        from: self.rows.times[from],
                        to: self.rows.times[e - 1],
                    },
                    joint: None,
                    time: Some(t),
                    value: Some(worst),
                };
                let ghost before = out@;
                out.push(f);
                proof {
                    assert(corridors(c, from as int) == seq![f] + corridors(c, e as int));
                    assert(before + (seq![f] + corridors(c, e as int)) =~= before.push(f)
                        + corridors(c, e as int));
                }
                k = e;
            } else {
                k = k + 1;
            }
        }
        assert(corridors(c, ns as int) =~= Seq::empty());
        assert(out@ + corridors(c, ns as int) =~= out@);
    }
}

/// Lints a sampled path of `n` joints. A path without samples or joints is clean.
pub fn lint_path(
    n: usize,
    limits: &Vec<Option<(Scalar, Scalar)>>,
    rows: &PathRows,
    bounds: &LintLimits,
    opts: &LintOptions,
) -> (r: Vec<Finding>)
    requires
        rows_fit(*rows, n as nat),
        limits@.len() >= n,
        bounds.vmax@.len() >= n,
        bounds.amax@.len() >= n,
        bounds.jmax@.len() >= n,
    ensures
        r@ == findings(
            CaseV {
                p: rows@,
                n: n as nat,
                limits: limits@,
                vmax: bounds.vmax@,
                amax: bounds.amax@,
                jmax: bounds.jmax@,
                o: *opts,
            },
        ),
{
    let mut out: Vec<Finding> = Vec::new();
    if rows.times.len() == 0 || n == 0 {
        return out;
    }
    let report = path_report(n, limits, rows, bounds.vmax, bounds.amax);
    let c = Case { n, limits, rows, bounds, o: opts };
    c.check_joints(&report, Check::Position, &mut out);
    c.check_joints(&report, Check::Velocity, &mut out);
    c.check_joints(&report, Check::Acceleration, &mut out);
    c.check_joints(&report, Check::Dwell, &mut out);
    c.check_joints(&report, Check::Detour, &mut out);
    c.check_joints(&report, Check::Jerk, &mut out);
    c.check_corridors(&mut out);
    assert(out@ =~= findings(c.view()));
    out
}

// ---- laws ----

proof fn lemma_joint_severity(c: CaseV, check: Check, n: nat)
    ensures
        forall|i: int|
            0 <= i < joint_findings(c, check, n).len() ==> severity_of(
                (#[trigger] joint_findings(c, check, n)[i]).detail,
            ) == (match check {
                Check::Position => LintSeverity::Error,
                Check::Velocity => LintSeverity::Error,
                Check::Acceleration => LintSeverity::Error,
                _ => LintSeverity::Warning,
            }),
    decreases n,
{
    if n > 0 {
        lemma_joint_severity(c, check, (n - 1) as nat);
        let f = joint_findings(c, check, n);
        let h = joint_findings(c, check, (n - 1) as nat);
        assert forall|i: int| 0 <= i < f.len() implies severity_of((#[trigger] f[i]).detail) == (
        match check {
            Check::Position => LintSeverity::Error,
            Check::Velocity => LintSeverity::Error,
            Check::Acceleration => LintSeverity::Error,
            _ => LintSeverity::Warning,
        }) by {
            if i < h.len() {
                assert(f[i] == h[i]);
            }
        }
    }
}

proof fn lemma_corridor_severity(c: CaseV, k: int)
    requires
        0 <= k,
    ensures
        forall|i: int|
            0 <= i < corridors(c, k).len() ==> severity_of((#[trigger] corridors(c, k)[i]).detail)
                == LintSeverity::Warning,
    decreases c.p.times.len() - k,
{
    if k < c.p.times.len() {
        lemma_corridor_end(c, k);
        if singular_at(c, k) {
            lemma_corridor_severity(c, corridor_end(c, k));
        } else {
            lemma_corridor_severity(c, k + 1);
        }
    }
}

/// Errors come before warnings.
pub proof fn law_errors_come_first(c: CaseV, i: int, j: int)
    requires
        0 <= i < j < findings(c).len(),
        severity_of(findings(c)[j].detail) == LintSeverity::Error,
    ensures
        severity_of(findings(c)[i].detail) == LintSeverity::Error,
{
    let a = joint_findings(c, Check::Position, c.n);
    let b = joint_findings(c, Check::Velocity, c.n);
    let d = joint_findings(c, Check::Acceleration, c.n);
    let e = joint_findings(c, Check::Dwell, c.n);
    let f = joint_findings(c, Check::Detour, c.n);
    let g = joint_findings(c, Check::Jerk, c.n);
    let h = corridors(c, 0);
    lemma_joint_severity(c, Check::Position, c.n);
    lemma_joint_severity(c, Check::Velocity, c.n);
    lemma_joint_severity(c, Check::Acceleration, c.n);
    lemma_joint_severity(c, Check::Dwell, c.n);
    lemma_joint_severity(c, Check::Detour, c.n);
    lemma_joint_severity(c, Check::Jerk, c.n);
    lemma_corridor_severity(c, 0);
    let n1 = a.len();
    let n2 = n1 + b.len();
    let n3 = n2 + d.len();
    let n4 = n3 + e.len();
    let n5 = n4 + f.len();
    let n6 = n5 + g.len();
    let x = findings(c)[j];
    if j >= n3 {
        if j < n4 {
            assert(x == e[j - n3]);
        } else if j < n5 {
            assert(x == f[j - n4]);
        } else if j < n6 {
            assert(x == g[j - n5]);
        } else {
            assert(x == h[j - n6]);
        }
    }
    let y = findings(c)[i];
    if i < n1 {
        assert(y == a[i]);
    } else if i < n2 {
        assert(y == b[i - n1]);
    } else if i < n3 {
        assert(y == d[i - n2]);
    }
}

} // verus!
