//! What the safety monitor lets pass, and what it holds back.

use vstd::prelude::*;

#[allow(unused_imports)]
use crate::hal::safety::{
    at, bounded_target, clean, gated, idled, law_steps_are_bounded, longest_step, overloaded,
    settled, too_fast, within, MonitorV,
};
#[allow(unused_imports)]
use crate::scalar::consts::ONE_BITS;
#[allow(unused_imports)]
use crate::scalar::convert::{fmax, fsignum};
#[allow(unused_imports)]
use crate::scalar::near::{law_product_is_off_by_a_step, size, unit};
#[allow(unused_imports)]
use crate::scalar::number::{fabs, fadd, fle, flt, fmul, fsub, mag_units, of_parts};
#[allow(unused_imports)]
use crate::scalar::order::{
    gap, law_short_steps_stay_between, law_sum_is_near, lemma_absolute, lemma_difference,
    lemma_gap_positive, lemma_key_units, lemma_of_parts, lemma_signed,
};
#[allow(unused_imports)]
use crate::scalar::rounding::INF_MAG;
#[allow(unused_imports)]
use crate::scalar::Scalar;

verus! {

/// In a tick no joint moves farther than its velocity limit times the tick, in exact numbers
/// and up to the steps between those on the way.
pub proof fn law_joint_speeds_are_bounded(
    m: MonitorV,
    desired: Seq<Scalar>,
    dt: Scalar,
    i: int,
    v: Scalar,
)
    requires
        settled(m),
        !m.estopped,
        0 <= i < m.cfg.pos.len(),
        at(m.cfg.vmax, i) == Some(v),
        v.finite() && dt.finite() && !dt.negative(),
        fmul(fabs(v), dt).mag() + 1 < INF_MAG,
    ensures
        ({
            let out = gated(m, desired, dt).0[i];
            let moved = out.units() - m.prev[i].units();
            let most = size(v) * size(dt);
            let off = (gap(fmul(fabs(v), dt).mag()) + gap(out.mag()) + gap(
                fsub(out, m.prev[i]).mag(),
            )) * unit();
            -(most + off) <= moved * unit() <= most + off
        }),
{
    let out = gated(m, desired, dt).0[i];
    let s = longest_step(v, dt);
    vstd::arithmetic::power2::lemma_pow2_pos(1074);
    assert(fmax(dt, Scalar { bits: 0 }).mag() == dt.mag());
    assert(fmax(dt, Scalar { bits: 0 }) == dt);
    lemma_absolute(v);
    law_product_is_off_by_a_step(fabs(v), dt);
    law_steps_are_bounded(m, desired, dt, i, v);
    crate::hal::safety::law_targets_are_within_limits(m, desired, dt);
    assert(within(m.cfg.pos, gated(m, desired, dt).0[i], i));
    assert(within(m.cfg.pos, m.prev[i], i));
    lemma_gap_positive(out);
    let moved = out.units() - m.prev[i].units();
    let (u, su, gs, go) = (unit(), s.units(), gap(s.mag()), gap(out.mag()));
    let gd = gap(fsub(out, m.prev[i]).mag());
    lemma_gap_is_not_negative(fsub(out, m.prev[i]).mag());
    assert(-((su + go + gd) * u) <= moved * u <= (su + go + gd) * u) by (nonlinear_arith)
        requires
            -(su + go + gd) <= moved <= su + go + gd,
            u > 0,
    ;
    assert((su + go + gd) * u == su * u + (go + gd) * u && (gs + go + gd) * u == gs * u + (go + gd) * u)
        by (nonlinear_arith);
}

proof fn lemma_gap_is_not_negative(m: nat)
    ensures
        gap(m) >= 0,
{
    if m > 0 {
        lemma_units_grow((m - 1) as nat);
        lemma_units_grow(m);
    } else {
        assert(mag_units(0) == 0);
        assert(mag_units(1) == 1);
    }
}

/// Larger magnitudes are larger, whatever they stand for.
proof fn lemma_units_grow(m: nat)
    ensures
        mag_units(m) <= mag_units(m + 1),
{
    let k: nat = 0x10_0000_0000_0000;
    if m + 1 < k {
    } else if m + 1 == k {
        assert((m + 1) / k == 1 && (m + 1) % k == 0);
        vstd::arithmetic::power2::lemma2_to64();
        assert(k * vstd::arithmetic::power2::pow2(0) == k);
    } else {
        let e = m / k;
        let f = m % k;
        vstd::arithmetic::div_mod::lemma_fundamental_div_mod(m as int, k as int);
        let w = vstd::arithmetic::power2::pow2((e - 1) as nat);
        vstd::arithmetic::power2::lemma_pow2_pos((e - 1) as nat);
        if f + 1 < k {
            assert((m + 1) / k == e && (m + 1) % k == f + 1);
            assert((k + f) * w <= (k + (f + 1)) * w) by (nonlinear_arith)
                requires
                    w > 0,
            ;
        } else {
            assert((m + 1) / k == e + 1 && (m + 1) % k == 0);
            vstd::arithmetic::power2::lemma_pow2_unfold(e);
            assert((k + f) * w <= k * (2 * w)) by (nonlinear_arith)
                requires
                    f < k,
                    w > 0,
            ;
        }
    }
}

/// A target within the limits that can be reached in the tick is passed on as it is, and if
/// all are, nothing is warned of.
pub proof fn law_good_targets_pass(m: MonitorV, desired: Seq<Scalar>, dt: Scalar)
    requires
        settled(m),
        !m.estopped,
        desired.len() >= m.cfg.pos.len(),
        forall|i: int|
            0 <= i < m.cfg.pos.len() ==> within(m.cfg.pos, #[trigger] desired[i], i) && match at(
                m.cfg.vmax,
                i,
            ) {
                Some(v) => fle(
                    fabs(fsub(desired[i], m.prev[i])),
                    fmul(fabs(v), fmax(dt, Scalar { bits: 0 })),
                ),
                None => true,
            },
    ensures
        gated(m, desired, dt).0 == desired.take(m.cfg.pos.len() as int),
        gated(m, desired, dt).1 == clean(),
        gated(m, desired, dt).2.warnings == m.warnings,
{
    let (q, v, after) = gated(m, desired, dt);
    assert forall|i: int| 0 <= i < m.cfg.pos.len() implies #[trigger] q[i] == desired[i]
        && !crate::hal::safety::out_of_limits(m, desired, i) && !too_fast(m, desired, dt, i) by {
        assert(within(m.cfg.pos, desired[i], i));
        assert(bounded_target(m, desired, i) == desired[i]);
    }
    assert forall|i: int| 0 <= i < m.cfg.pos.len() implies !#[trigger] too_fast(m, desired, dt, i) by {
        assert(q[i] == desired[i]);
    }
    assert forall|i: int|
        0 <= i < m.cfg.pos.len() implies !#[trigger] crate::hal::safety::out_of_limits(
        m,
        desired,
        i,
    ) by {
        assert(q[i] == desired[i]);
    }
    assert(q =~= desired.take(m.cfg.pos.len() as int));
}

/// A target outside the limits is warned of, and so is one that is too far for the tick.
pub proof fn law_bad_targets_are_warned_of(m: MonitorV, desired: Seq<Scalar>, dt: Scalar, i: int)
    requires
        settled(m),
        !m.estopped,
        0 <= i < m.cfg.pos.len(),
        i < desired.len(),
        desired[i].finite(),
    ensures
        !within(m.cfg.pos, desired[i], i) ==> gated(m, desired, dt).1.clamped_position,
        within(m.cfg.pos, desired[i], i) ==> match at(m.cfg.vmax, i) {
            Some(v) => flt(
                fmul(fabs(v), fmax(dt, Scalar { bits: 0 })),
                fabs(fsub(desired[i], m.prev[i])),
            ) ==> gated(m, desired, dt).1.limited_velocity,
            None => true,
        },
{
    if !within(m.cfg.pos, desired[i], i) {
        assert(crate::hal::safety::out_of_limits(m, desired, i));
    } else {
        assert(bounded_target(m, desired, i) == desired[i]);
        match at(m.cfg.vmax, i) {
            Some(v) => {
                if flt(longest_step(v, dt), fabs(fsub(desired[i], m.prev[i]))) {
                    assert(too_fast(m, desired, dt, i));
                }
            },
            None => {},
        }
    }
}

/// The watchdog counts the time without targets, trips as soon as there is more of it than the
/// timeout, and starts anew with every target.
pub proof fn law_silence_is_counted(m: MonitorV, desired: Seq<Scalar>, dt: Scalar, timeout: Scalar)
    requires
        !m.estopped,
        m.cfg.timeout == Some(timeout),
        m.idle.finite() && dt.finite() && !dt.negative(),
        idled(m, dt).1.idle.finite(),
    ensures
        ({
            let (v, after) = idled(m, dt);
            let g = gap(after.idle.mag());
            &&& -g < after.idle.units() - (m.idle.units() + dt.units()) < g
            &&& v.watchdog_tripped == flt(timeout, after.idle)
            &&& after.prev == m.prev
        }),
        gated(m, desired, dt).2.idle.mag() == 0,
{
    assert(fmax(dt, Scalar { bits: 0 }) == dt);
    law_sum_is_near(m.idle, dt);
}

/// A torque is refused just where it is larger than what the joint may be given.
pub proof fn law_overloads_are_refused(effort: Seq<Option<Scalar>>, tau: Seq<Scalar>, from: int)
    requires
        0 <= from <= tau.len(),
    ensures
        match overloaded(effort, tau, from) {
            Some(i) => from <= i < tau.len() && (at(effort, i) matches Some(c) && flt(c, fabs(tau[i]))),
            None => forall|i: int|
                from <= i < tau.len() ==> match at(effort, i) {
                    Some(c) => !flt(c, fabs(#[trigger] tau[i])),
                    None => true,
                },
        },
    decreases tau.len() - from,
{
    if from < tau.len() {
        law_overloads_are_refused(effort, tau, from + 1);
    }
}

/// A target within the limits that is too far for the tick is approached as far as the tick
/// allows, up to the step between numbers there.
pub proof fn law_far_targets_are_approached(
    m: MonitorV,
    desired: Seq<Scalar>,
    dt: Scalar,
    i: int,
    v: Scalar,
)
    requires
        settled(m),
        !m.estopped,
        0 <= i < m.cfg.pos.len(),
        i < desired.len(),
        within(m.cfg.pos, desired[i], i),
        at(m.cfg.vmax, i) == Some(v),
        fmul(fabs(v), fmax(dt, Scalar { bits: 0 })).finite(),
        fle(Scalar { bits: 0 }, fmul(fabs(v), fmax(dt, Scalar { bits: 0 }))),
        flt(fmul(fabs(v), fmax(dt, Scalar { bits: 0 })), fabs(fsub(desired[i], m.prev[i]))),
        !fsub(desired[i], m.prev[i]).nan(),
    ensures
        ({
            let out = gated(m, desired, dt).0[i];
            let step = size(fmul(fabs(v), fmax(dt, Scalar { bits: 0 })));
            let moved = out.units() - m.prev[i].units();
            let g = gap(out.mag());
            if flt(m.prev[i], desired[i]) {
                moved > step - g && fle(out, desired[i])
            } else {
                -moved > step - g && fle(desired[i], out)
            }
        }),
{
    let p = m.prev[i];
    let t = desired[i];
    let step = longest_step(v, dt);
    assert(within(m.cfg.pos, p, i));
    assert(bounded_target(m, desired, i) == t);
    assert(too_fast(m, desired, dt, i));
    law_short_steps_stay_between(p, t, step);
    let d = fsub(t, p);
    let out = gated(m, desired, dt).0[i];
    assert(out == fadd(p, fmul(fsignum(d), step)));
    lemma_difference(t, p);
    lemma_absolute(d);
    lemma_signed(d.negative(), step);
    assert(mag_units(0) == 0);
    let x = fmul(fsignum(d), step);
    assert(fsignum(d) == of_parts(d.negative(), ONE_BITS as nat));
    lemma_of_parts(d.negative() != step.negative(), step.mag());
    law_sum_is_near(p, x);
    lemma_direction(p, t);
}

/// A difference points from the one to the other.
proof fn lemma_direction(p: Scalar, t: Scalar)
    requires
        p.finite() && t.finite(),
        fsub(t, p).mag() > 0,
    ensures
        fsub(t, p).negative() == !flt(p, t),
{
    lemma_difference(t, p);
    if p.key() < t.key() {
        lemma_key_units(p, t);
    } else {
        lemma_key_units(t, p);
    }
    let s = t.units() - p.units();
    crate::scalar::number::lemma_round_exact(0);
    assert(mag_units(0) == 0);
}

} // verus!
