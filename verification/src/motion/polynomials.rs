//! What the parts of a profile add up to, and when samples are taken.

use vstd::prelude::*;

#[allow(unused_imports)]
use crate::motion::cartesian::walk_grid;
#[allow(unused_imports)]
use crate::motion::limits::LimitsV;
#[allow(unused_imports)]
use crate::motion::scurve::{acc_after, pos_after, total_of, vel_after, ProfileV, Seg};
#[allow(unused_imports)]
use crate::motion::trajectory::{grid_time, knotted, TrajKind};
#[allow(unused_imports)]
use crate::scalar::consts::{FOUR_BITS, HALF_BITS, SIX_BITS, TWO_BITS};
#[allow(unused_imports)]
use crate::scalar::convert::from_int;
#[allow(unused_imports)]
use crate::scalar::formula::{
    is_quotient, is_sum, is_times, lemma_is_quotient, lemma_is_times, on_scale,
};
#[allow(unused_imports)]
use crate::scalar::number::{fadd, fdiv, fle, fmul};
#[allow(unused_imports)]
use crate::scalar::order::law_sum_is_near;
#[allow(unused_imports)]
use crate::scalar::rounding::INF_MAG;
#[allow(unused_imports)]
use crate::scalar::Scalar;

verus! {

/// Within a part of a profile, the acceleration has changed by the jerk, times the time.
pub proof fn law_accelerations_gain_the_jerk(s: Seg, dt: Scalar) -> (gained: Scalar)
    requires
        s.a0.finite(),
        on_scale(s.jerk, dt),
        acc_after(s, dt).finite(),
    ensures
        is_times(gained, s.jerk, dt),
        is_sum(acc_after(s, dt), s.a0, gained),
{
    lemma_is_times(s.jerk, dt);
    law_sum_is_near(s.a0, fmul(s.jerk, dt));
    fmul(s.jerk, dt)
}

/// All numbers stay on the scale on the way to a velocity.
pub open spec fn velocity_on_scale(s: Seg, dt: Scalar) -> bool {
    let h = fmul(Scalar { bits: HALF_BITS }, s.jerk);
    &&& s.v0.finite() && on_scale(s.a0, dt) && on_scale(Scalar { bits: HALF_BITS }, s.jerk)
    &&& on_scale(h, dt) && on_scale(fmul(h, dt), dt)
    &&& fadd(s.v0, fmul(s.a0, dt)).finite()
    &&& vel_after(s, dt).finite()
}

/// The velocity has changed by the acceleration, times the time, and half of the jerk, times
/// the time twice.
pub proof fn law_velocities_gain_the_acceleration(s: Seg, dt: Scalar) -> (by: (
    Scalar,
    Scalar,
    Scalar,
    Scalar,
    Scalar,
))
    requires
        velocity_on_scale(s, dt),
    ensures
        ({
            let (gained, soon, half, once, twice) = by;
            &&& is_times(gained, s.a0, dt)
            &&& is_sum(soon, s.v0, gained)
            &&& is_times(half, Scalar { bits: HALF_BITS }, s.jerk)
            &&& is_times(once, half, dt)
            &&& is_times(twice, once, dt)
            &&& is_sum(vel_after(s, dt), soon, twice)
        }),
{
    let half = fmul(Scalar { bits: HALF_BITS }, s.jerk);
    let once = fmul(half, dt);
    let twice = fmul(once, dt);
    let gained = fmul(s.a0, dt);
    let soon = fadd(s.v0, gained);
    lemma_is_times(s.a0, dt);
    lemma_is_times(Scalar { bits: HALF_BITS }, s.jerk);
    lemma_is_times(half, dt);
    lemma_is_times(once, dt);
    law_sum_is_near(s.v0, gained);
    law_sum_is_near(soon, twice);
    (gained, soon, half, once, twice)
}

/// All numbers stay on the scale on the way to a position.
pub open spec fn position_on_scale(s: Seg, dt: Scalar) -> bool {
    let h = fmul(Scalar { bits: HALF_BITS }, s.a0);
    let j = fmul(s.jerk, dt);
    let soon = fadd(s.p0, fmul(s.v0, dt));
    let later = fadd(soon, fmul(fmul(h, dt), dt));
    &&& s.p0.finite() && on_scale(s.v0, dt) && on_scale(Scalar { bits: HALF_BITS }, s.a0)
    &&& on_scale(h, dt) && on_scale(fmul(h, dt), dt)
    &&& on_scale(s.jerk, dt) && on_scale(j, dt) && on_scale(fmul(j, dt), dt)
    &&& fdiv(fmul(fmul(j, dt), dt), Scalar { bits: SIX_BITS }).mag() + 1 < INF_MAG
    &&& soon.finite() && later.finite() && pos_after(s, dt).finite()
}

/// The position has changed by the velocity, times the time, by half of the acceleration, times
/// the time twice, and by a sixth of the jerk, times the time three times.
pub proof fn law_positions_gain_the_velocity(s: Seg, dt: Scalar) -> (by: (
    (Scalar, Scalar),
    (Scalar, Scalar, Scalar, Scalar),
    (Scalar, Scalar, Scalar, Scalar),
))
    requires
        position_on_scale(s, dt),
    ensures
        ({
            let ((gained, soon), (half, once, twice, later), (j1, j2, j3, sixth)) = by;
            &&& is_times(gained, s.v0, dt) && is_sum(soon, s.p0, gained)
            &&& is_times(half, Scalar { bits: HALF_BITS }, s.a0) && is_times(once, half, dt)
                && is_times(twice, once, dt) && is_sum(later, soon, twice)
            &&& is_times(j1, s.jerk, dt) && is_times(j2, j1, dt) && is_times(j3, j2, dt)
            &&& is_quotient(sixth, j3, Scalar { bits: SIX_BITS })
            &&& is_sum(pos_after(s, dt), later, sixth)
        }),
{
    let gained = fmul(s.v0, dt);
    let soon = fadd(s.p0, gained);
    let half = fmul(Scalar { bits: HALF_BITS }, s.a0);
    let once = fmul(half, dt);
    let twice = fmul(once, dt);
    let later = fadd(soon, twice);
    let j1 = fmul(s.jerk, dt);
    let j2 = fmul(j1, dt);
    let j3 = fmul(j2, dt);
    let sixth = fdiv(j3, Scalar { bits: SIX_BITS });
    lemma_is_times(s.v0, dt);
    law_sum_is_near(s.p0, gained);
    lemma_is_times(Scalar { bits: HALF_BITS }, s.a0);
    lemma_is_times(half, dt);
    lemma_is_times(once, dt);
    law_sum_is_near(soon, twice);
    lemma_is_times(s.jerk, dt);
    lemma_is_times(j1, dt);
    lemma_is_times(j2, dt);
    lemma_is_quotient(j3, Scalar { bits: SIX_BITS });
    law_sum_is_near(later, sixth);
    ((gained, soon), (half, once, twice, later), (j1, j2, j3, sixth))
}

/// A profile lasts four times its time of jerk, twice its time of even acceleration and once
/// its time of even velocity.
pub proof fn law_profiles_last_as_long_as_their_parts(p: ProfileV) -> (by: (Scalar, Scalar, Scalar))
    requires
        on_scale(Scalar { bits: FOUR_BITS }, p.tj),
        on_scale(Scalar { bits: TWO_BITS }, p.ta),
        p.tv.finite(),
        fadd(fmul(Scalar { bits: FOUR_BITS }, p.tj), fmul(Scalar { bits: TWO_BITS }, p.ta)).finite(),
        total_of(p).finite(),
    ensures
        ({
            let (jerking, pushing, both) = by;
            &&& is_times(jerking, Scalar { bits: FOUR_BITS }, p.tj)
            &&& is_times(pushing, Scalar { bits: TWO_BITS }, p.ta)
            &&& is_sum(both, jerking, pushing)
            &&& is_sum(total_of(p), both, p.tv)
        }),
{
    let jerking = fmul(Scalar { bits: FOUR_BITS }, p.tj);
    let pushing = fmul(Scalar { bits: TWO_BITS }, p.ta);
    let both = fadd(jerking, pushing);
    lemma_is_times(Scalar { bits: FOUR_BITS }, p.tj);
    lemma_is_times(Scalar { bits: TWO_BITS }, p.ta);
    law_sum_is_near(jerking, pushing);
    law_sum_is_near(both, p.tv);
    (jerking, pushing, both)
}

/// Samples on a grid are spread evenly over the whole.
pub proof fn law_grids_are_even(duration: Scalar, n: int, k: int) -> (by: Scalar)
    requires
        on_scale(duration, from_int(k)),
        from_int(n - 1).finite() && from_int(n - 1).mag() > 0,
        grid_time(duration, n, k).mag() + 1 < INF_MAG,
    ensures
        is_times(by, duration, from_int(k)),
        is_quotient(grid_time(duration, n, k), by, from_int(n - 1)),
{
    let by = fmul(duration, from_int(k));
    lemma_is_times(duration, from_int(k));
    lemma_is_quotient(by, from_int(n - 1));
    by
}

/// A path of knots lasts from its first to its last, one step for each in between.
pub proof fn law_knots_are_evenly_spaced(
    kind: TrajKind,
    dt: Scalar,
    q: Seq<Seq<Scalar>>,
    qd: Seq<Seq<Scalar>>,
    qdd: Seq<Seq<Scalar>>,
    limits: LimitsV,
    completed: bool,
    reached: Scalar,
)
    requires
        q.len() > 0,
        on_scale(from_int(q.len() - 1), dt),
    ensures
        is_times(
            knotted(kind, dt, q, qd, qdd, limits, completed, reached).duration,
            from_int(q.len() - 1),
            dt,
        ),
{
    lemma_is_times(from_int(q.len() - 1), dt);
}

/// The steps of a walk are even, and together last as long as its profile, or one step where
/// that is longer.
pub proof fn law_walks_last_as_long_as_their_profiles(prof: ProfileV, dt: Scalar)
    requires
        dt.finite(),
        total_of(prof).finite(),
        ({
            let (total, steps, step) = walk_grid(prof, dt);
            from_int(steps as int).finite() && from_int(steps as int).mag() > 0 && step.mag() + 1
                < INF_MAG
        }),
    ensures
        ({
            let (total, steps, step) = walk_grid(prof, dt);
            &&& total == dt || total == total_of(prof)
            &&& fle(dt, total) && fle(total_of(prof), total)
            &&& is_quotient(step, total, from_int(steps as int))
        }),
{
    let (total, steps, step) = walk_grid(prof, dt);
    lemma_is_quotient(total, from_int(steps as int));
}

} // verus!
