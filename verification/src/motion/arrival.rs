//! Time-optimal paths arrive: once the last segment is over, the path is at its last
//! waypoint.

use vstd::prelude::*;

#[allow(unused_imports)]
use crate::motion::limits::LimitsV;
#[allow(unused_imports)]
use crate::motion::retime::{
    along, bound_along, segment_at, segmented, step_between, timed, Law, TimingV,
};
#[allow(unused_imports)]
use crate::motion::scurve::held_in;
#[allow(unused_imports)]
use crate::motion::topp::{bang, bang_at, law_unit_moves_arrive, tame};
#[allow(unused_imports)]
use crate::scalar::consts::ONE_BITS;
#[allow(unused_imports)]
use crate::scalar::near::{close, law_product_is_near, size, unit};
#[allow(unused_imports)]
use crate::scalar::number::{fadd, fle, fmul, fneg, fsub};
#[allow(unused_imports)]
use crate::scalar::order::{
    gap, law_sum_is_near, lemma_negated, lemma_times_nothing, ordinary,
};
#[allow(unused_imports)]
use crate::scalar::Scalar;

verus! {

/// Almost all of a step is almost the step.
proof fn lemma_almost_all(u: int, d: int, x: int, p: int)
    requires
        u > 0 && d >= 0 && p >= 0,
        -u <= (x - u) * 0x200_0000_0000 <= 0,
        close(d * x, p * u, 1),
    ensures
        -d <= (p - d) * 0x100_0000_0000 <= d,
{
    let (dx, du, pu) = (d * x, d * u, p * u);
    assert(-du <= (dx - du) * 0x200_0000_0000 <= 0 && du >= 0 && pu >= 0) by (nonlinear_arith)
        requires
            dx == d * x && du == d * u && pu == p * u,
            -u <= (x - u) * 0x200_0000_0000 <= 0,
            d >= 0 && p >= 0 && u > 0,
    ;
    assert(-du <= (pu - du) * 0x100_0000_0000 <= du);
    assert(-d <= (p - d) * 0x100_0000_0000 <= d) by (nonlinear_arith)
        requires
            -du <= (pu - du) * 0x100_0000_0000 <= du,
            du == d * u && pu == p * u,
            u > 0,
    ;
}

/// The step to the last waypoint of the first `k + 1` is over at a time that the last
/// segment owns.
pub open spec fn over(
    w: Seq<Seq<Scalar>>,
    l: LimitsV,
    cbrt: spec_fn(Scalar) -> Scalar,
    k: nat,
    t: Scalar,
) -> bool {
    let segs = segmented(Law::TimeOptimal, w, l, cbrt, k).0;
    &&& segs.len() > 0
    &&& segment_at(segs, t, 0) == segs.len() - 1
    &&& fle(segs.last().dur, fsub(t, segs.last().t_start))
}

/// Once its last step is over, a time-optimal path is at its last waypoint: each joint up
/// to the rounding of its step and of its position, and a small part of its step.
pub proof fn law_time_optimal_paths_arrive(
    w: Seq<Seq<Scalar>>,
    l: LimitsV,
    cbrt: spec_fn(Scalar) -> Scalar,
    k: nat,
    t: Scalar,
    i: int,
)
    requires
        1 <= k < w.len(),
        0 <= i < w[k - 1].len(),
        over(w, l, cbrt, k, t),
        ({
            let dq = step_between(w[k - 1], w[k as int]);
            let v = bound_along(dq, l.v, dq.len());
            let a = bound_along(dq, l.a, dq.len());
            let b = bang(Scalar { bits: ONE_BITS }, v, a);
            &&& v.finite()
            &&& tame(v, a)
            &&& w[k - 1][i].finite() && w[k as int][i].finite() && dq[i].finite()
            &&& dq[i].mag() == 0 || ordinary(fmul(dq[i], bang_at(b, b.t3).0))
            &&& along(segmented(Law::TimeOptimal, w, l, cbrt, k).0, t).0[i].finite()
        }),
    ensures
        ({
            let dq = step_between(w[k - 1], w[k as int])[i];
            let q = along(segmented(Law::TimeOptimal, w, l, cbrt, k).0, t).0[i];
            let off = (gap(q.mag()) + gap(dq.mag())) * 0x100_0000_0000 + size(dq);
            -off <= (q.units() - w[k as int][i].units()) * 0x100_0000_0000 <= off
        }),
{
    let z = Scalar { bits: 0 };
    let (from, to) = (w[k - 1][i], w[k as int][i]);
    let steps = step_between(w[k - 1], w[k as int]);
    let dq = steps[i];
    let v = bound_along(steps, l.v, steps.len());
    let a = bound_along(steps, l.a, steps.len());
    let b = bang(Scalar { bits: ONE_BITS }, v, a);
    let segs = segmented(Law::TimeOptimal, w, l, cbrt, k).0;
    assert(timed(Law::TimeOptimal, steps, l, cbrt) == Some(TimingV::Bang(b)));
    let s = segs.last();
    assert(s.q0 == w[k - 1] && s.dq == steps && s.prof == TimingV::Bang(b) && s.dur == b.t3);
    let local = held_in(fsub(t, s.t_start), z, s.dur);
    law_unit_moves_arrive(v, a);
    assert(local == b.t3);
    let x = bang_at(b, b.t3).0;
    vstd::arithmetic::power2::lemma_pow2_pos(1074);
    assert(!x.negative());
    let p = fmul(dq, x);
    let q = fadd(from, p);
    assert(along(segs, t).0[i] == q);
    lemma_negated(from);
    law_sum_is_near(to, fneg(from));
    if dq.mag() == 0 {
        lemma_times_nothing(x, dq);
    } else {
        law_product_is_near(dq, x);
        lemma_almost_all(unit(), size(dq), size(x), size(p));
    }
    law_sum_is_near(from, p);
}

} // verus!
