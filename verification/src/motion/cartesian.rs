//! Cartesian moves: the timing along the path, what is done with each solved sample,
//! and the derivatives of the result.
//!
//! The pose of a sample and the configuration that reaches it are found outside, by
//! a function from the path fraction and a seed to an outcome.

use vstd::prelude::*;

use crate::hal::backend::copy_scalars;
#[allow(unused_imports)]
use crate::hal::backend::all_finite;
use crate::ik::solve::IkOpts;
#[allow(unused_imports)]
use crate::ik::solve::{FLOOR_BITS, MILLI_BITS};
use crate::motion::error::{MotionError, Param};
use crate::motion::limits::MotionLimits;
#[allow(unused_imports)]
use crate::motion::limits::LimitsV;
#[allow(unused_imports)]
use crate::motion::retime::seen;
use crate::motion::scurve::{plan_scurve, plan_scurve_to_duration, ScurveProfile};
#[allow(unused_imports)]
use crate::motion::scurve::{computes, planned, profile_at, stretched, total_of, ProfileV};
use crate::motion::trajectory::{TrajKind, Trajectory};
#[allow(unused_imports)]
use crate::motion::trajectory::{all_wide, knotted, rows_of, TrajV};
#[allow(unused_imports)]
use crate::scalar::consts::THREE_TENTHS_BITS;
use crate::scalar::consts::{
    CENTI_BITS, FIVE_BITS, HALF_BITS, INFINITY_BITS, MICRO_BITS, NANO_BITS, ONE_BITS,
    QUARTER_BITS, TWENTY_FIVE_BITS, TWO_BITS,
};
#[allow(unused_imports)]
use crate::scalar::convert::{ceil_int, fclamp, fmax, fmin, from_int, saturated};
#[allow(unused_imports)]
use crate::scalar::number::{fabs, fdiv, fle, flt, fmul, fsub};
use crate::scalar::Scalar;

verus! {

/// How orientation goes with position.
#[derive(Clone, Copy, Debug, PartialEq, Eq, Structural)]
pub enum MoveLMode {
    Decoupled,
    Screw,
}

/// What happens when a sample cannot be reached.
#[derive(Clone, Copy, Debug, PartialEq, Eq, Structural)]
pub enum OnFailure {
    /// The whole move is refused.
    Abort,
    /// The part up to there is returned.
    Truncate,
}

/// Limits and choices of a Cartesian move.
#[derive(Debug)]
pub struct CartesianMoveOpts {
    pub limits: MotionLimits,
    pub v_lin: Scalar,
    pub a_lin: Scalar,
    pub j_lin: Scalar,
    pub v_ang: Scalar,
    pub a_ang: Scalar,
    pub j_ang: Scalar,
    pub dt: Scalar,
    /// How each sample is solved for; restarts are not used.
    pub ik: IkOpts,
    pub continuity_thresh: Scalar,
    pub on_failure: OnFailure,
    pub mode: MoveLMode,
}

pub open spec fn proper(x: Scalar) -> bool {
    x.finite() && flt(Scalar { bits: 0 }, x)
}

/// The first parameter that is not finite and positive.
pub open spec fn bad_param(o: CartesianMoveOpts) -> Option<Param> {
    if !proper(o.v_lin) {
        Some(Param::VLin)
    } else if !proper(o.a_lin) {
        Some(Param::ALin)
    } else if !proper(o.j_lin) {
        Some(Param::JLin)
    } else if !proper(o.v_ang) {
        Some(Param::VAng)
    } else if !proper(o.a_ang) {
        Some(Param::AAng)
    } else if !proper(o.j_ang) {
        Some(Param::JAng)
    } else if !proper(o.dt) {
        Some(Param::Dt)
    } else {
        None
    }
}

fn is_proper(x: Scalar) -> (r: bool)
    ensures
        r == proper(x),
{
    x.is_finite() && x.gt(Scalar { bits: 0 })
}

impl CartesianMoveOpts {
    /// `Err` exactly when a parameter is not finite and positive.
    pub fn validate(&self) -> (r: Result<(), MotionError>)
        ensures
            match bad_param(*self) {
                Some(p) => r == Err::<(), MotionError>(MotionError::BadParam(p)),
                None => r is Ok,
            },
    {
        let bad = if !is_proper(self.v_lin) {
            Some(Param::VLin)
        } else if !is_proper(self.a_lin) {
            Some(Param::ALin)
        } else if !is_proper(self.j_lin) {
            Some(Param::JLin)
        } else if !is_proper(self.v_ang) {
            Some(Param::VAng)
        } else if !is_proper(self.a_ang) {
            Some(Param::AAng)
        } else if !is_proper(self.j_ang) {
            Some(Param::JAng)
        } else if !is_proper(self.dt) {
            Some(Param::Dt)
        } else {
            None
        };
        match bad {
            Some(p) => Err(MotionError::BadParam(p)),
            None => Ok(()),
        }
    }

    /// How the samples are solved for: from the one before, without restarts.
    pub fn tracking(&self) -> (r: IkOpts)
        ensures
            r == (IkOpts { restarts: 1, ..self.ik }),
    {
        IkOpts { restarts: 1, ..self.ik }
    }

    /// The usual choices: a best-effort move at moderate speed.
    pub fn defaults(limits: MotionLimits) -> (r: CartesianMoveOpts)
        ensures
            r.limits@ == limits@,
            r.v_lin == (Scalar { bits: QUARTER_BITS }),
            r.a_lin == (Scalar { bits: ONE_BITS }),
            r.j_lin == (Scalar { bits: FIVE_BITS }),
            r.v_ang == (Scalar { bits: ONE_BITS }),
            r.a_ang == (Scalar { bits: FIVE_BITS }),
            r.j_ang == (Scalar { bits: TWENTY_FIVE_BITS }),
            r.dt == (Scalar { bits: CENTI_BITS }),
            r.ik == (IkOpts {
                tol_pos: Scalar { bits: MICRO_BITS },
                tol_rot: Scalar { bits: MICRO_BITS },
                max_iters: 200,
                restarts: 1,
                lambda0_sq: Scalar { bits: MILLI_BITS },
                lambda_floor_sq: Scalar { bits: FLOOR_BITS },
                w_thresh: Scalar { bits: MILLI_BITS },
                step_clamp: Scalar { bits: THREE_TENTHS_BITS },
                seed_rng: 0xC0FFEE,
            }),
            r.continuity_thresh == (Scalar { bits: HALF_BITS }),
            r.on_failure == OnFailure::Truncate,
            r.mode == MoveLMode::Decoupled,
    {
        CartesianMoveOpts {
            limits,
            v_lin: Scalar { bits: QUARTER_BITS },
            a_lin: Scalar { bits: ONE_BITS },
            j_lin: Scalar { bits: FIVE_BITS },
            v_ang: Scalar { bits: ONE_BITS },
            a_ang: Scalar { bits: FIVE_BITS },
            j_ang: Scalar { bits: TWENTY_FIVE_BITS },
            dt: Scalar { bits: CENTI_BITS },
            ik: IkOpts {
                tol_pos: Scalar { bits: MICRO_BITS },
                tol_rot: Scalar { bits: MICRO_BITS },
                max_iters: 200,
                restarts: 1,
                ..IkOpts::default()
            },
            continuity_thresh: Scalar { bits: HALF_BITS },
            on_failure: OnFailure::Truncate,
            mode: MoveLMode::Decoupled,
        }
    }
}

/// What solving a sample gave.
#[derive(Debug)]
pub struct Outcome {
    pub success: bool,
    pub q: Vec<Scalar>,
    pub residual: Scalar,
}

/// `Outcome` over sequences.
pub struct OutcomeV {
    pub success: bool,
    pub q: Seq<Scalar>,
    pub residual: Scalar,
}

impl View for Outcome {
    type V = OutcomeV;

    open spec fn view(&self) -> OutcomeV {
        OutcomeV { success: self.success, q: self.q@, residual: self.residual }
    }
}

/// A solver that is handed in behaves as `p`.
pub open spec fn solves<S: Fn(Scalar, &[Scalar]) -> Outcome>(
    f: S,
    p: spec_fn(Scalar, Seq<Scalar>) -> OutcomeV,
) -> bool {
    forall|s: Scalar, seed: &[Scalar], r: Outcome|
        call_ensures(f, (s, seed), r) ==> r@ == p(s, seed@)
}

/// A solver can be asked, and answers seeds of `n` joints with as many.
pub open spec fn solver_fits<S: Fn(Scalar, &[Scalar]) -> Outcome>(f: S, n: nat) -> bool {
    &&& forall|s: Scalar, seed: &[Scalar]| call_requires(f, (s, seed))
    &&& forall|s: Scalar, seed: &[Scalar], r: Outcome|
        call_ensures(f, (s, seed), r) && seed@.len() == n ==> r.q@.len() == n
}

/// The cap on the path fraction: the tighter of the two that matter.
pub open spec fn fraction_cap(lin: Scalar, ang: Scalar, len_lin: Scalar, len_ang: Scalar) -> Scalar {
    let tiny = Scalar { bits: NANO_BITS };
    let a = if flt(tiny, len_lin) {
        fmin(Scalar { bits: INFINITY_BITS }, fdiv(lin, len_lin))
    } else {
        Scalar { bits: INFINITY_BITS }
    };
    if flt(tiny, len_ang) {
        fmin(a, fdiv(ang, len_ang))
    } else {
        a
    }
}

/// Largest change of the first `n` joints.
pub open spec fn jump_between(a: Seq<Scalar>, b: Seq<Scalar>, n: nat) -> Scalar
    decreases n,
{
    if n == 0 {
        Scalar { bits: 0 }
    } else {
        fmax(jump_between(a, b, (n - 1) as nat), fabs(fsub(a[n - 1], b[n - 1])))
    }
}

/// A path that was walked: the configurations, how far it got, and why it stopped.
#[verifier::ext_equal]
pub struct WalkV {
    pub rows: Seq<Seq<Scalar>>,
    pub reached: Scalar,
    pub stop: Option<MotionError>,
}

/// A share of a path: what rounding takes past its ends is not counted.
pub open spec fn share(s: Scalar) -> Scalar {
    fclamp(s, Scalar { bits: 0 }, Scalar { bits: ONE_BITS })
}

/// Walks the samples from `k` on, each seeded by the one before it. A sample that
/// cannot be reached, or jumps, ends the walk.
pub open spec fn walked(
    p: spec_fn(Scalar, Seq<Scalar>) -> OutcomeV,
    prof: ProfileV,
    total: Scalar,
    dt: Scalar,
    thresh: Scalar,
    steps: nat,
    k: nat,
    seed: Seq<Scalar>,
    rows: Seq<Seq<Scalar>>,
    last: Scalar,
) -> WalkV
    decreases steps + 1 - k,
{
    if k > steps {
        WalkV { rows, reached: Scalar { bits: ONE_BITS }, stop: None }
    } else {
        let s = profile_at(prof, fmin(fmul(from_int(k as int), dt), total)).0;
        let o = p(s, seed);
        let jump = jump_between(o.q, seed, seed.len());
        if !o.success || !all_finite(o.q) {
            WalkV {
                rows,
                reached: share(last),
                stop: Some(MotionError::Unreachable { s, residual: o.residual }),
            }
        } else if k > 0 && flt(thresh, jump) {
            WalkV {
                rows,
                reached: share(last),
                stop: Some(MotionError::Discontinuity { s, jump }),
            }
        } else {
            walked(p, prof, total, dt, thresh, steps, k + 1, o.q, rows.push(o.q), s)
        }
    }
}

/// Time between samples, chosen so that the last one is at the end.
pub open spec fn walk_grid(prof: ProfileV, dt: Scalar) -> (Scalar, nat, Scalar) {
    let total = fmax(total_of(prof), dt);
    let x = fdiv(total, dt);
    let steps = saturated(x, ceil_int(x), 0, usize::MAX as int) as nat;
    (total, steps, fdiv(total, from_int(steps as int)))
}

pub open spec fn walk(
    p: spec_fn(Scalar, Seq<Scalar>) -> OutcomeV,
    prof: ProfileV,
    start: Seq<Scalar>,
    dt: Scalar,
    thresh: Scalar,
) -> (WalkV, Scalar) {
    let (total, steps, step) = walk_grid(prof, dt);
    (
        walked(
            p,
            prof,
            total,
            step,
            thresh,
            steps,
            0,
            start,
            Seq::empty(),
            Scalar { bits: 0 },
        ),
        step,
    )
}

/// One difference quotient: none at the start, one-sided at an end that is no rest.
pub open spec fn slope(rows: Seq<Seq<Scalar>>, dt: Scalar, rest_end: bool, k: int, i: int) -> Scalar {
    if k == 0 {
        Scalar { bits: 0 }
    } else if k + 1 == rows.len() {
        if rest_end {
            Scalar { bits: 0 }
        } else {
            fdiv(fsub(rows[k][i], rows[k - 1][i]), dt)
        }
    } else {
        fdiv(fsub(rows[k + 1][i], rows[k - 1][i]), fmul(Scalar { bits: TWO_BITS }, dt))
    }
}

/// All difference quotients, `d` wide.
pub open spec fn slopes(rows: Seq<Seq<Scalar>>, dt: Scalar, rest_end: bool, d: nat) -> Seq<
    Seq<Scalar>,
> {
    Seq::new(rows.len(), |k: int| Seq::new(d, |i: int| slope(rows, dt, rest_end, k, i)))
}

/// Largest utilization of the first `n` joints of a row, on top of `init`.
pub open spec fn worst_in(row: Seq<Scalar>, vmax: Seq<Scalar>, n: nat, init: Scalar) -> Scalar
    decreases n,
{
    if n == 0 {
        init
    } else {
        fmax(worst_in(row, vmax, (n - 1) as nat, init), fdiv(fabs(row[n - 1]), vmax[n - 1]))
    }
}

/// Largest utilization of the first `k` rows.
pub open spec fn worst_of(rows: Seq<Seq<Scalar>>, vmax: Seq<Scalar>, k: nat) -> Scalar
    decreases k,
{
    if k == 0 {
        Scalar { bits: 0 }
    } else {
        worst_in(
            rows[k - 1],
            vmax,
            rows[k - 1].len(),
            worst_of(rows, vmax, (k - 1) as nat),
        )
    }
}

/// The trajectory of a walk. One that stopped is an error where a prefix is not
/// wanted or too short; a prefix keeps the velocity it was cut at.
pub open spec fn settled(
    w: WalkV,
    step: Scalar,
    kind: TrajKind,
    l: LimitsV,
    on_failure: OnFailure,
    d: nat,
) -> Result<TrajV, MotionError> {
    if w.stop is Some && (on_failure == OnFailure::Abort || w.rows.len() < 2) {
        Err(w.stop.unwrap())
    } else {
        let qd = slopes(w.rows, step, w.stop is None, d);
        Ok(
            knotted(
                kind,
                step,
                w.rows,
                qd,
                slopes(qd, step, w.stop is None, d),
                l,
                w.stop is None,
                w.reached,
            ),
        )
    }
}

/// A Cartesian move: walked once, and once more slowed down where a joint would be
/// too fast.
pub open spec fn cartesian(
    start: Seq<Scalar>,
    len_lin: Scalar,
    len_ang: Scalar,
    kind: TrajKind,
    o: CartesianMoveOpts,
    cbrt: spec_fn(Scalar) -> Scalar,
    p: spec_fn(Scalar, Seq<Scalar>) -> OutcomeV,
) -> Result<TrajV, MotionError> {
    let one = Scalar { bits: ONE_BITS };
    let vs = fraction_cap(o.v_lin, o.v_ang, len_lin, len_ang);
    let a = fraction_cap(o.a_lin, o.a_ang, len_lin, len_ang);
    let j = fraction_cap(o.j_lin, o.j_ang, len_lin, len_ang);
    let prof = planned(one, vs, a, j, cbrt);
    let (w, step) = walk(p, prof, start, o.dt, o.continuity_thresh);
    let d = start.len();
    let qd = slopes(w.rows, step, true, d);
    let worst = worst_of(qd, o.limits@.v, qd.len());
    if w.stop is None && flt(one, worst) {
        let slower = stretched(one, fmul(fmax(total_of(prof), o.dt), worst), vs, a, j, cbrt);
        let (w2, step2) = walk(p, slower, start, o.dt, o.continuity_thresh);
        settled(w2, step2, kind, o.limits@, o.on_failure, d)
    } else {
        settled(w, step, kind, o.limits@, o.on_failure, d)
    }
}

fn cap_of(lin: Scalar, ang: Scalar, len_lin: Scalar, len_ang: Scalar) -> (r: Scalar)
    ensures
        r == fraction_cap(lin, ang, len_lin, len_ang),
{
    let tiny = Scalar { bits: NANO_BITS };
    let mut m = Scalar { bits: INFINITY_BITS };
    if len_lin.gt(tiny) {
        m = m.min(lin.div(len_lin));
    }
    if len_ang.gt(tiny) {
        m = m.min(ang.div(len_ang));
    }
    m
}

fn jump_of(a: &Vec<Scalar>, b: &Vec<Scalar>) -> (r: Scalar)
    requires
        a@.len() >= b@.len(),
    ensures
        r == jump_between(a@, b@, b@.len()),
{
    let mut m = Scalar { bits: 0 };
    let mut i: usize = 0;
    while i < b.len()
        invariant
            i <= b.len(),
            a@.len() >= b@.len(),
            m == jump_between(a@, b@, i as nat),
        decreases b.len() - i,
    {
        m = m.max(a[i].sub(b[i]).abs());
        i = i + 1;
    }
    m
}

fn finite_row(q: &Vec<Scalar>) -> (r: bool)
    ensures
        r == all_finite(q@),
{
    match crate::hal::backend::check_finite("q", q.as_slice()) {
        Ok(_) => true,
        Err(_) => false,
    }
}

/// A path that was walked.
struct Walk {
    rows: Vec<Vec<Scalar>>,
    reached: Scalar,
    stop: Option<MotionError>,
    step: Scalar,
}

spec fn walk_view(w: Walk) -> WalkV {
    WalkV { rows: rows_of(w.rows@), reached: w.reached, stop: w.stop }
}

#[verifier::rlimit(40)]
fn solve_path<S: Fn(Scalar, &[Scalar]) -> Outcome>(
    prof: &ScurveProfile,
    start: &Vec<Scalar>,
    dt: Scalar,
    thresh: Scalar,
    solve: &S,
) -> (r: Walk)
    requires
        solver_fits(*solve, start@.len()),
    ensures
        all_wide(r.rows@, start@.len()),
        r.stop is None ==> r.rows@.len() > 0,
        forall|p: spec_fn(Scalar, Seq<Scalar>) -> OutcomeV| #[trigger]
            solves(*solve, p) ==> (walk_view(r), r.step) == walk(
                p,
                prof@,
                start@,
                dt,
                thresh,
            ),
{
    let n: usize = start.len();
    let total = prof.total().max(dt);
    let steps: usize = total.div(dt).ceil_usize();
    let step = total.div(Scalar::from_usize(steps));
    let ghost pv = prof@;
    let mut rows: Vec<Vec<Scalar>> = Vec::new();
    let mut seed = copy_scalars(start.as_slice());
    let mut last = Scalar { bits: 0 };
    let mut k: usize = 0;
    let mut more: bool = true;
    assert(rows_of(rows@) =~= Seq::empty());
    while more
        invariant
            k <= steps,
            pv == prof@,
            solver_fits(*solve, n as nat),
            n == start@.len(),
            (total, steps as nat, step) == walk_grid(pv, dt),
            seed@.len() == n,
            all_wide(rows@, n as nat),
            rows@.len() == (if more {
                k as int
            } else {
                steps + 1
            }),
            forall|p: spec_fn(Scalar, Seq<Scalar>) -> OutcomeV| #[trigger]
                solves(*solve, p) ==> walk(p, pv, start@, dt, thresh).0 == walked(
                    p,
                    pv,
                    total,
                    step,
                    thresh,
                    steps as nat,
                    if more {
                        k as nat
                    } else {
                        (steps + 1) as nat
                    },
                    seed@,
                    rows_of(rows@),
                    last,
                ),
        decreases
            if more {
                steps - k + 1
            } else {
                0
            },
    {
        let t = Scalar::from_usize(k).mul(step).min(total);
        let (s, _, _) = prof.sample(t);
        let o = solve(s, seed.as_slice());
        let ghost ov = o@;
        assert(o.q@.len() == n);
        if !o.success || !finite_row(&o.q) {
            let w = Walk {
                rows,
                reached: last.clamp(Scalar { bits: 0 }, Scalar { bits: ONE_BITS }),
                stop: Some(MotionError::Unreachable { s, residual: o.residual }),
                step,
            };
            return w;
        }
        let jump = jump_of(&o.q, &seed);
        if k > 0 && jump.gt(thresh) {
            let w = Walk {
                rows,
                reached: last.clamp(Scalar { bits: 0 }, Scalar { bits: ONE_BITS }),
                stop: Some(MotionError::Discontinuity { s, jump }),
                step,
            };
            return w;
        }
        let ghost before = rows@;
        let ghost seed0 = seed@;
        let ghost last0 = last;
        seed = copy_scalars(o.q.as_slice());
        rows.push(o.q);
        last = s;
        assert(rows_of(rows@) =~= rows_of(before).push(ov.q));
        let ghost k0 = k as nat;
        if k == steps {
            more = false;
        } else {
            k = k + 1;
        }
        assert forall|p: spec_fn(Scalar, Seq<Scalar>) -> OutcomeV| #[trigger]
            solves(*solve, p) implies walk(p, pv, start@, dt, thresh).0 == walked(
            p,
            pv,
            total,
            step,
            thresh,
            steps as nat,
            k0 + 1,
            seed@,
            rows_of(rows@),
            last,
        ) by {
            assert(ov == p(s, seed0));
            assert(walk(p, pv, start@, dt, thresh).0 == walked(
                p,
                pv,
                total,
                step,
                thresh,
                steps as nat,
                k0,
                seed0,
                rows_of(before),
                last0,
            ));
        }
    }
    Walk { rows, reached: Scalar { bits: ONE_BITS }, stop: None, step }
}

/// Difference quotients of rows that are `d` wide.
pub fn difference(rows: &Vec<Vec<Scalar>>, dt: Scalar, rest_end: bool, d: usize) -> (r: Vec<
    Vec<Scalar>,
>)
    requires
        all_wide(rows@, d as nat),
    ensures
        rows_of(r@) == slopes(rows_of(rows@), dt, rest_end, d as nat),
        all_wide(r@, d as nat),
        r@.len() == rows@.len(),
{
    let ghost v = rows_of(rows@);
    let n: usize = rows.len();
    let zero = Scalar { bits: 0 };
    let mut out: Vec<Vec<Scalar>> = Vec::new();
    let mut k: usize = 0;
    while k < n
        invariant
            k <= n,
            n == rows@.len(),
            v == rows_of(rows@),
            zero == (Scalar { bits: 0 }),
            all_wide(rows@, d as nat),
            all_wide(out@, d as nat),
            out.len() == k,
            forall|c: int|
                0 <= c < k ==> (#[trigger] out@[c])@ == slopes(v, dt, rest_end, d as nat)[c],
        decreases n - k,
    {
        let mut row: Vec<Scalar> = Vec::new();
        let mut i: usize = 0;
        while i < d
            invariant
                i <= d,
                k < n,
                n == rows@.len(),
                v == rows_of(rows@),
                zero == (Scalar { bits: 0 }),
                all_wide(rows@, d as nat),
                row.len() == i,
                forall|c: int|
                    0 <= c < i ==> #[trigger] row@[c] == slope(v, dt, rest_end, k as int, c),
            decreases d - i,
        {
            assert(rows@[k as int]@.len() == d);
            let x = if k == 0 {
                zero
            } else if k == n - 1 {
                if rest_end {
                    zero
                } else {
                    assert(rows@[k - 1]@.len() == d);
                    rows[k][i].sub(rows[k - 1][i]).div(dt)
                }
            } else {
                assert(rows@[k - 1]@.len() == d);
                assert(rows@[k + 1]@.len() == d);
                rows[k + 1][i].sub(rows[k - 1][i]).div(Scalar { bits: TWO_BITS }.mul(dt))
            };
            row.push(x);
            i = i + 1;
        }
        assert(row@ =~= slopes(v, dt, rest_end, d as nat)[k as int]);
        out.push(row);
        k = k + 1;
    }
    assert(rows_of(out@) =~= slopes(v, dt, rest_end, d as nat));
    out
}

fn worst_utilization(rows: &Vec<Vec<Scalar>>, vmax: &Vec<Scalar>, d: usize) -> (r: Scalar)
    requires
        all_wide(rows@, d as nat),
        vmax@.len() >= d,
    ensures
        r == worst_of(rows_of(rows@), vmax@, rows@.len()),
{
    let ghost v = rows_of(rows@);
    let mut worst = Scalar { bits: 0 };
    let mut k: usize = 0;
    while k < rows.len()
        invariant
            k <= rows.len(),
            v == rows_of(rows@),
            all_wide(rows@, d as nat),
            vmax@.len() >= d,
            worst == worst_of(v, vmax@, k as nat),
        decreases rows.len() - k,
    {
        assert(rows@[k as int]@.len() == d);
        let ghost init = worst;
        let mut i: usize = 0;
        while i < d
            invariant
                i <= d,
                k < rows.len(),
                rows@[k as int]@.len() == d,
                vmax@.len() >= d,
                worst == worst_in(rows@[k as int]@, vmax@, i as nat, init),
            decreases d - i,
        {
            worst = worst.max(rows[k][i].abs().div(vmax[i]));
            i = i + 1;
        }
        assert(v[k as int] == rows@[k as int]@);
        k = k + 1;
    }
    worst
}

fn finish(w: Walk, kind: TrajKind, o: &CartesianMoveOpts, d: usize) -> (r: Result<
    Trajectory,
    MotionError,
>)
    requires
        kind != TrajKind::MoveJ,
        all_wide(w.rows@, d as nat),
    ensures
        seen(r) == settled(walk_view(w), w.step, kind, o.limits@, o.on_failure, d as nat),
{
    match w.stop {
        Some(e) => {
            let abort = match o.on_failure {
                OnFailure::Abort => true,
                OnFailure::Truncate => false,
            };
            if abort || w.rows.len() < 2 {
                return Err(e);
            }
        },
        None => {},
    }
    let rest = w.stop.is_none();
    let qd = difference(&w.rows, w.step, rest, d);
    let qdd = difference(&qd, w.step, rest, d);
    proof {
        if w.rows@.len() > 0 {
            assert(w.rows@[0]@.len() == d);
        }
    }
    Ok(
        Trajectory::from_knots(
            kind,
            w.step,
            w.rows,
            qd,
            qdd,
            o.limits.copy(),
            rest,
            w.reached,
        ),
    )
}

/// Samples a Cartesian path of the given lengths into a trajectory.
pub fn sample_cartesian<F: Fn(Scalar) -> Scalar, S: Fn(Scalar, &[Scalar]) -> Outcome>(
    q_start: &Vec<Scalar>,
    len_lin: Scalar,
    len_ang: Scalar,
    kind: TrajKind,
    opts: &CartesianMoveOpts,
    cbrt: &F,
    solve: &S,
) -> (r: Result<Trajectory, MotionError>)
    requires
        kind != TrajKind::MoveJ,
        opts.limits@.v.len() >= q_start@.len(),
        forall|x: Scalar| call_requires(*cbrt, (x,)),
        solver_fits(*solve, q_start@.len()),
    ensures
        forall|
            g: spec_fn(Scalar) -> Scalar,
            p: spec_fn(Scalar, Seq<Scalar>) -> OutcomeV,
        | #[trigger]
            computes(*cbrt, g) && #[trigger] solves(*solve, p) ==> seen(r) == cartesian(
                q_start@,
                len_lin,
                len_ang,
                kind,
                *opts,
                g,
                p,
            ),
{
    let one = Scalar { bits: ONE_BITS };
    let d: usize = q_start.len();
    let vs = cap_of(opts.v_lin, opts.v_ang, len_lin, len_ang);
    let a = cap_of(opts.a_lin, opts.a_ang, len_lin, len_ang);
    let j = cap_of(opts.j_lin, opts.j_ang, len_lin, len_ang);
    let prof = plan_scurve(one, vs, a, j, cbrt);
    let w = solve_path(&prof, q_start, opts.dt, opts.continuity_thresh, solve);
    if w.stop.is_none() {
        let qd = difference(&w.rows, w.step, true, d);
        let worst = worst_utilization(&qd, &opts.limits.vmax, d);
        if worst.gt(one) {
            let longer = prof.total().max(opts.dt).mul(worst);
            let slower = plan_scurve_to_duration(one, longer, vs, a, j, cbrt);
            let w2 = solve_path(&slower, q_start, opts.dt, opts.continuity_thresh, solve);
            return finish(w2, kind, opts, d);
        }
    }
    finish(w, kind, opts, d)
}

// ---- laws ----

/// A move that may not be cut short is complete or refused.
pub proof fn law_abort_never_truncates(
    start: Seq<Scalar>,
    len_lin: Scalar,
    len_ang: Scalar,
    kind: TrajKind,
    o: CartesianMoveOpts,
    cbrt: spec_fn(Scalar) -> Scalar,
    p: spec_fn(Scalar, Seq<Scalar>) -> OutcomeV,
)
    requires
        o.on_failure == OnFailure::Abort,
    ensures
        match cartesian(start, len_lin, len_ang, kind, o, cbrt, p) {
            Ok(t) => t.completed,
            Err(_) => true,
        },
{
}

proof fn lemma_reached(
    p: spec_fn(Scalar, Seq<Scalar>) -> OutcomeV,
    prof: ProfileV,
    total: Scalar,
    dt: Scalar,
    thresh: Scalar,
    steps: nat,
    k: nat,
    seed: Seq<Scalar>,
    rows: Seq<Seq<Scalar>>,
    last: Scalar,
)
    requires
        rows.len() == k,
        k <= steps + 1,
    ensures
        ({
            let w = walked(p, prof, total, dt, thresh, steps, k, seed, rows, last);
            &&& w.stop is None ==> w.reached == (Scalar { bits: ONE_BITS }) && w.rows.len() == steps
                + 1
            &&& w.rows.len() >= rows.len()
            &&& forall|i: int| 0 <= i < rows.len() ==> w.rows[i] == #[trigger] rows[i]
        }),
    decreases steps + 1 - k,
{
    if k <= steps {
        let s = profile_at(prof, fmin(fmul(from_int(k as int), dt), total)).0;
        let o = p(s, seed);
        let jump = jump_between(o.q, seed, seed.len());
        if !(!o.success || !all_finite(o.q)) && !(k > 0 && flt(thresh, jump)) {
            let next = rows.push(o.q);
            lemma_reached(p, prof, total, dt, thresh, steps, k + 1, o.q, next, s);
            assert forall|i: int| 0 <= i < rows.len() implies walked(
                p,
                prof,
                total,
                dt,
                thresh,
                steps,
                k,
                seed,
                rows,
                last,
            ).rows[i] == #[trigger] rows[i] by {
                assert(next[i] == rows[i]);
            }
        }
    }
}

/// A walk that did not stop reached the end of the path and has every sample.
pub proof fn law_complete_walk_reaches_the_end(
    p: spec_fn(Scalar, Seq<Scalar>) -> OutcomeV,
    prof: ProfileV,
    start: Seq<Scalar>,
    dt: Scalar,
    thresh: Scalar,
)
    ensures
        ({
            let (w, step) = walk(p, prof, start, dt, thresh);
            w.stop is None ==> w.reached == (Scalar { bits: ONE_BITS }) && w.rows.len()
                == walk_grid(prof, dt).1 + 1
        }),
{
    let (total, steps, step) = walk_grid(prof, dt);
    lemma_reached(
        p,
        prof,
        total,
        step,
        thresh,
        steps,
        0,
        start,
        Seq::empty(),
        Scalar { bits: 0 },
    );
}

proof fn lemma_share_reached(
    p: spec_fn(Scalar, Seq<Scalar>) -> OutcomeV,
    prof: ProfileV,
    total: Scalar,
    dt: Scalar,
    thresh: Scalar,
    steps: nat,
    k: nat,
    seed: Seq<Scalar>,
    rows: Seq<Seq<Scalar>>,
    last: Scalar,
)
    ensures
        ({
            let w = walked(p, prof, total, dt, thresh, steps, k, seed, rows, last);
            w.reached.nan() || is_share(w.reached)
        }),
    decreases steps + 1 - k,
{
    if k <= steps {
        let s = profile_at(prof, fmin(fmul(from_int(k as int), dt), total)).0;
        let o = p(s, seed);
        let jump = jump_between(o.q, seed, seed.len());
        if !(!o.success || !all_finite(o.q)) && !(k > 0 && flt(thresh, jump)) {
            let next = rows.push(o.q);
            lemma_share_reached(p, prof, total, dt, thresh, steps, k + 1, o.q, next, s);
        }
    }
}

/// Between nothing and the whole.
pub open spec fn is_share(s: Scalar) -> bool {
    fle(Scalar { bits: 0 }, s) && fle(s, Scalar { bits: ONE_BITS })
}

/// The share of the path that a move reached lies between nothing and the whole, and is the
/// whole of a complete move. Only where the profile is no number is it none either.
pub proof fn law_reached_is_a_share(
    start: Seq<Scalar>,
    len_lin: Scalar,
    len_ang: Scalar,
    kind: TrajKind,
    o: CartesianMoveOpts,
    cbrt: spec_fn(Scalar) -> Scalar,
    p: spec_fn(Scalar, Seq<Scalar>) -> OutcomeV,
)
    ensures
        match cartesian(start, len_lin, len_ang, kind, o, cbrt, p) {
            Ok(t) => (t.reached.nan() || is_share(t.reached)) && (t.completed ==> t.reached == (
            Scalar { bits: ONE_BITS })),
            Err(_) => true,
        },
{
    let one = Scalar { bits: ONE_BITS };
    let vs = fraction_cap(o.v_lin, o.v_ang, len_lin, len_ang);
    let a = fraction_cap(o.a_lin, o.a_ang, len_lin, len_ang);
    let j = fraction_cap(o.j_lin, o.j_ang, len_lin, len_ang);
    let prof = planned(one, vs, a, j, cbrt);
    lemma_walk_share(p, prof, start, o.dt, o.continuity_thresh);
    let (w, step) = walk(p, prof, start, o.dt, o.continuity_thresh);
    let qd = slopes(w.rows, step, true, start.len());
    let worst = worst_of(qd, o.limits@.v, qd.len());
    let slower = stretched(one, fmul(fmax(total_of(prof), o.dt), worst), vs, a, j, cbrt);
    lemma_walk_share(p, slower, start, o.dt, o.continuity_thresh);
}

proof fn lemma_walk_share(
    p: spec_fn(Scalar, Seq<Scalar>) -> OutcomeV,
    prof: ProfileV,
    start: Seq<Scalar>,
    dt: Scalar,
    thresh: Scalar,
)
    ensures
        ({
            let w = walk(p, prof, start, dt, thresh).0;
            &&& (w.reached.nan() || is_share(w.reached))
            &&& w.stop is None ==> w.reached == (Scalar { bits: ONE_BITS })
        }),
{
    let (total, steps, step) = walk_grid(prof, dt);
    law_complete_walk_reaches_the_end(p, prof, start, dt, thresh);
    lemma_share_reached(
        p,
        prof,
        total,
        step,
        thresh,
        steps,
        0,
        start,
        Seq::empty(),
        Scalar { bits: 0 },
    );
}

/// A move starts at rest; a complete one ends at rest.
pub proof fn law_ends_at_rest(rows: Seq<Seq<Scalar>>, dt: Scalar, rest_end: bool, i: int)
    ensures
        slope(rows, dt, rest_end, 0, i) == (Scalar { bits: 0 }),
        rest_end && rows.len() > 1 ==> slope(rows, dt, rest_end, rows.len() - 1, i) == (Scalar {
            bits: 0,
        }),
{
}

} // verus!
