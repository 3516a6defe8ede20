//! Trajectories and simulations as tables of plain numbers.

use vstd::prelude::*;

use crate::motion::trajectory::Trajectory;
#[allow(unused_imports)]
use crate::motion::trajectory::state_at;
use crate::scalar::consts::{CENTI_BITS, TEN_BITS};
#[allow(unused_imports)]
use crate::scalar::convert::{ceil_int, fmax, fmin, from_int, saturated};
#[allow(unused_imports)]
use crate::scalar::number::{fdiv, feq, fle, flt, fmul, mag_units};
#[allow(unused_imports)]
use crate::scalar::rounding::{half_even, to_mag};
#[allow(unused_imports)]
use vstd::arithmetic::power2::pow2;
use crate::scalar::Scalar;
use crate::script::request::RequestError;

verus! {

/// `1e-4`, the shortest time between samples.
pub const SHORTEST_BITS: u64 = 0x3F1A_36E2_EB1C_432D;

/// `600.0`, the longest horizon.
pub const LONGEST_BITS: u64 = 0x4082_C000_0000_0000;

/// Samples of a trajectory, one row each.
#[derive(Debug)]
pub struct Table {
    pub times: Vec<Scalar>,
    pub q: Vec<Vec<Scalar>>,
    pub qd: Vec<Vec<Scalar>>,
    pub qdd: Vec<Vec<Scalar>>,
}

/// How many whole steps of `dt` cover a time; one at least.
pub open spec fn steps_over(time: Scalar, dt: Scalar) -> int {
    let n = saturated(fdiv(time, dt), ceil_int(fdiv(time, dt)), 0, usize::MAX as int);
    if n < 1 {
        1
    } else {
        n
    }
}

/// The time of sample `k`; none is after the end.
pub open spec fn stamp(duration: Scalar, dt: Scalar, k: int) -> Scalar {
    fmin(fmul(from_int(k), dt), duration)
}

/// The step that samples are taken by: at most ten seconds, and a hundredth of a second
/// where the given one is too short or no number.
pub open spec fn sampling_step(dt: Scalar) -> Scalar {
    if dt.finite() && flt(Scalar { bits: SHORTEST_BITS }, dt) {
        fmin(dt, Scalar { bits: TEN_BITS })
    } else {
        Scalar { bits: CENTI_BITS }
    }
}

/// A table holds the states of a trajectory at the steps of `dt`.
pub open spec fn tabulates(t: Table, x: Trajectory, dt: Scalar) -> bool {
    let n = steps_over(x@.duration, dt);
    &&& t.times@.len() == n + 1
    &&& t.q@.len() == n + 1
    &&& t.qd@.len() == n + 1
    &&& t.qdd@.len() == n + 1
    &&& forall|k: int|
        0 <= k <= n ==> #[trigger] t.times@[k] == stamp(x@.duration, dt, k) && t.q@[k]@ == state_at(
            x@,
            t.times@[k],
        ).q && t.qd@[k]@ == state_at(x@, t.times@[k]).qd && t.qdd@[k]@ == state_at(
            x@,
            t.times@[k],
        ).qdd
}

/// Counts the whole steps of `dt` that cover a time; one at least.
pub fn step_count(time: Scalar, dt: Scalar) -> (r: usize)
    ensures
        r == steps_over(time, dt),
{
    let n: usize = time.div(dt).ceil_usize();
    if n < 1 {
        1
    } else {
        n
    }
}

/// Samples a trajectory every `dt` from its start to its end.
pub fn sample_every(traj: &Trajectory, dt: Scalar) -> (r: Table)
    requires
        steps_over(traj@.duration, dt) < usize::MAX,
    ensures
        tabulates(r, *traj, dt),
{
    let dur = traj.duration();
    let n: usize = step_count(dur, dt) + 1;
    let mut times: Vec<Scalar> = Vec::new();
    let mut q: Vec<Vec<Scalar>> = Vec::new();
    let mut qd: Vec<Vec<Scalar>> = Vec::new();
    let mut qdd: Vec<Vec<Scalar>> = Vec::new();
    let mut k: usize = 0;
    while k < n
        invariant
            k <= n,
            dur == traj@.duration,
            times.len() == k,
            q.len() == k,
            qd.len() == k,
            qdd.len() == k,
            forall|i: int|
                0 <= i < k ==> #[trigger] times@[i] == stamp(dur, dt, i) && q@[i]@ == state_at(
                    traj@,
                    times@[i],
                ).q && qd@[i]@ == state_at(traj@, times@[i]).qd && qdd@[i]@ == state_at(
                    traj@,
                    times@[i],
                ).qdd,
        decreases n - k,
    {
        let t = Scalar::from_usize(k).mul(dt).min(dur);
        let s = traj.sample(t);
        times.push(t);
        q.push(s.q);
        qd.push(s.qd);
        qdd.push(s.qdd);
        k = k + 1;
    }
    Table { times, q, qd, qdd }
}

/// Samples a trajectory every `dt`, or every hundredth of a second where `dt` cannot be
/// used.
pub fn sample_uniform(traj: &Trajectory, dt: Scalar) -> (r: Table)
    requires
        steps_over(traj@.duration, sampling_step(dt)) < usize::MAX,
    ensures
        tabulates(r, *traj, sampling_step(dt)),
{
    let step = if dt.is_finite() && dt.gt(Scalar { bits: SHORTEST_BITS }) {
        dt.min(Scalar { bits: TEN_BITS })
    } else {
        Scalar { bits: CENTI_BITS }
    };
    sample_every(traj, step)
}

/// The step of a rollout and how many there are. A horizon is above zero and at most ten
/// minutes.
pub fn rollout_steps(horizon: Scalar, sample_dt: Option<Scalar>, dt: Scalar) -> (r: Result<
    (Scalar, usize),
    RequestError,
>)
    ensures
        ({
            let given = match sample_dt {
                Some(s) => s,
                None => dt,
            };
            let step = fmax(given, Scalar { bits: SHORTEST_BITS });
            if horizon.finite() && flt(Scalar { bits: 0 }, horizon) && fle(
                horizon,
                Scalar { bits: LONGEST_BITS },
            ) {
                r matches Ok(x) && x.0 == step && x.1 == steps_over(horizon, step)
            } else {
                r == Err::<(Scalar, usize), RequestError>(RequestError::Horizon)
            }
        }),
{
    if !(horizon.is_finite() && Scalar::zero().lt(horizon) && horizon.le(
        Scalar { bits: LONGEST_BITS },
    )) {
        return Err(RequestError::Horizon);
    }
    let given = match sample_dt {
        Some(s) => s,
        None => dt,
    };
    let step = given.max(Scalar { bits: SHORTEST_BITS });
    Ok((step, step_count(horizon, step)))
}

/// Each state is what a step makes of the one before.
pub open spec fn steps_follow<S, E, F: Fn(&S, Scalar) -> Result<S, E>>(
    states: Seq<S>,
    dt: Scalar,
    step: F,
) -> bool {
    forall|k: int|
        1 <= k < states.len() ==> call_ensures(
            step,
            (&states[k - 1], dt),
            Ok::<S, E>(#[trigger] states[k]),
        )
}

/// A state, and those that `n` steps lead to. The first step that fails ends it.
pub fn rollout<S, E, F: Fn(&S, Scalar) -> Result<S, E>>(
    start: S,
    dt: Scalar,
    n: usize,
    step: F,
) -> (r: Result<Vec<S>, E>)
    requires
        n < usize::MAX,
        forall|s: S| call_requires(step, (&s, dt)),
    ensures
        match r {
            Ok(v) => v@.len() == n + 1 && v@[0] == start && steps_follow::<S, E, F>(v@, dt, step),
            Err(e) => exists|v: Seq<S>|
                1 <= v.len() <= n && v[0] == start && #[trigger] steps_follow::<S, E, F>(
                    v,
                    dt,
                    step,
                ) && call_ensures(step, (&v.last(), dt), Err::<S, E>(e)),
        },
{
    let mut v: Vec<S> = Vec::new();
    v.push(start);
    let mut k: usize = 0;
    while k < n
        invariant
            k <= n,
            v.len() == k + 1,
            v@[0] == start,
            steps_follow::<S, E, F>(v@, dt, step),
            forall|s: S| call_requires(step, (&s, dt)),
        decreases n - k,
    {
        let ghost before = v@;
        match step(&v[k], dt) {
            Ok(s) => {
                v.push(s);
                proof {
                    assert forall|j: int| 1 <= j < v@.len() implies call_ensures(
                        step,
                        (&v@[j - 1], dt),
                        Ok::<S, E>(#[trigger] v@[j]),
                    ) by {
                        if j < before.len() {
                            assert(v@[j] == before[j]);
                            assert(v@[j - 1] == before[j - 1]);
                        }
                    }
                }
            },
            Err(e) => {
                assert(before.last() == before[k as int]);
                return Err(e);
            },
        }
        k = k + 1;
    }
    Ok(v)
}

/// A table of a trajectory begins at zero.
pub proof fn law_samples_begin_at_zero(t: Table, x: Trajectory, dt: Scalar)
    requires
        tabulates(t, x, dt),
        dt.finite(),
        !dt.negative(),
        !x@.duration.negative(),
    ensures
        t.times@[0] == (Scalar { bits: 0 }),
{
    assert(t.times@[0] == stamp(x@.duration, dt, 0));
    assert(0nat * pow2(1074) == 0) by (nonlinear_arith);
    assert(from_int(0) == (Scalar { bits: 0 }));
    assert(fmul(Scalar { bits: 0 }, dt) == (Scalar { bits: 0 })) by {
        reveal(fmul);
        let d = pow2(1074);
        vstd::arithmetic::power2::lemma_pow2_pos(1074);
        assert(mag_units(0) == 0);
        assert(0 * mag_units(dt.mag() as nat) == 0) by (nonlinear_arith);
        assert(0nat / d == 0 && 0nat % d == 0) by (nonlinear_arith)
            requires
                d > 0,
        ;
        assert(half_even(0, d) == 0);
        assert(to_mag(0, d) == 0);
    }
}

/// No sample of a table is after the trajectory's end, and the last one is at its end
/// where the steps reach that far.
pub proof fn law_samples_end_with_the_trajectory(t: Table, x: Trajectory, dt: Scalar, k: int)
    requires
        tabulates(t, x, dt),
        0 <= k < t.times@.len(),
        !x@.duration.nan(),
    ensures
        fle(t.times@[k], x@.duration),
        fle(x@.duration, fmul(from_int(steps_over(x@.duration, dt)), dt)) ==> feq(
            t.times@.last(),
            x@.duration,
        ),
{
    let n = steps_over(x@.duration, dt);
    assert(t.times@[k] == stamp(x@.duration, dt, k));
    assert(t.times@[n] == stamp(x@.duration, dt, n));
}

} // verus!
