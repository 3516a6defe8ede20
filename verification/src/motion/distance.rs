//! How far a profile goes.

use vstd::prelude::*;

#[allow(unused_imports)]
use crate::motion::scurve::{
    built, full_ramp, law_accelerations_level_off, lemma_product_by_key, lemma_units_by_key,
    planned, plateaus, pos_after, seg_at, vel_after, ProfileV, Seg,
};
#[allow(unused_imports)]
use crate::scalar::consts::{HALF_BITS, PICO_BITS, SIX_BITS, TWO_BITS};
#[allow(unused_imports)]
use crate::scalar::near::{
    close, law_product_is_near, law_quotient_is_near, law_root_is_near, law_whole_is_near,
    lemma_close_back, lemma_close_cancelled, lemma_close_chain, lemma_close_scaled, size, unit,
};
#[allow(unused_imports)]
use crate::scalar::number::{fabs, fadd, fdiv, fle, flt, fmul, fneg, fsub, mag_units};
#[allow(unused_imports)]
use crate::scalar::order::{
    gap, law_products_commute, law_sum_is_near, lemma_absolute, lemma_double, lemma_gap_positive,
    lemma_half_is_finite, lemma_negated, lemma_nothing_over, lemma_times_nothing,
    lemma_units_monotone, lemma_units_positive, ordinary,
};
#[allow(unused_imports)]
use crate::scalar::Scalar;

verus! {

/// What the velocity adds to the position in a segment.
pub open spec fn stride(s: Seg, dt: Scalar) -> Scalar {
    fmul(s.v0, dt)
}

/// What the acceleration adds.
pub open spec fn bend(s: Seg, dt: Scalar) -> Scalar {
    fmul(fmul(fmul(Scalar { bits: HALF_BITS }, s.a0), dt), dt)
}

/// What the jerk adds.
pub open spec fn twist(s: Seg, dt: Scalar) -> Scalar {
    fdiv(fmul(fmul(fmul(s.jerk, dt), dt), dt), Scalar { bits: SIX_BITS })
}

/// The position of a segment runs through numbers only.
pub open spec fn steps_are_finite(s: Seg, dt: Scalar) -> bool {
    let b = fadd(s.p0, stride(s, dt));
    &&& s.p0.finite() && s.v0.finite() && s.a0.finite() && s.jerk.finite() && dt.finite()
    &&& stride(s, dt).finite() && bend(s, dt).finite() && twist(s, dt).finite()
    &&& b.finite() && fadd(b, bend(s, dt)).finite() && pos_after(s, dt).finite()
}

/// How coarse the numbers are that the position of a segment runs through.
pub open spec fn coarse(s: Seg, dt: Scalar) -> int {
    let b = fadd(s.p0, stride(s, dt));
    gap(b.mag()) + gap(fadd(b, bend(s, dt)).mag()) + gap(pos_after(s, dt).mag())
}

/// A segment adds what its velocity, acceleration and jerk add, up to rounding.
proof fn lemma_step(s: Seg, dt: Scalar)
    requires
        steps_are_finite(s, dt),
    ensures
        ({
            let sum = s.p0.units() + stride(s, dt).units() + bend(s, dt).units() + twist(s, dt).units();
            -coarse(s, dt) < pos_after(s, dt).units() - sum < coarse(s, dt)
        }),
{
    let b = fadd(s.p0, stride(s, dt));
    law_sum_is_near(s.p0, stride(s, dt));
    law_sum_is_near(b, bend(s, dt));
    law_sum_is_near(fadd(b, bend(s, dt)), twist(s, dt));
}

/// As much acceleration the other way bends as much the other way.
proof fn lemma_bends_cancel(r: Seg, s: Seg, dt: Scalar)
    requires
        r.a0.finite() && s.a0.finite() && dt.finite(),
        bend(r, dt).finite(),
        s.a0.key() == -r.a0.key(),
    ensures
        bend(s, dt).units() == -bend(r, dt).units(),
{
    let half = Scalar { bits: HALF_BITS };
    let a = fmul(half, r.a0);
    let b = fmul(half, s.a0);
    lemma_half_is_finite(r.a0);
    law_products_commute(half, r.a0);
    law_products_commute(half, s.a0);
    lemma_product_by_key(s.a0, r.a0, half);
    assert(fmul(a, dt).finite()) by {
        reveal(fmul);
        assert(crate::scalar::number::nan_value().nan());
    }
    lemma_product_by_key(b, a, dt);
    lemma_product_by_key(fmul(b, dt), fmul(a, dt), dt);
    lemma_units_by_key(bend(s, dt), bend(r, dt));
}

/// Without acceleration there is no bend.
proof fn lemma_no_bend(s: Seg, dt: Scalar)
    requires
        s.a0.mag() == 0,
        dt.finite(),
    ensures
        bend(s, dt).units() == 0,
{
    let half = Scalar { bits: HALF_BITS };
    lemma_times_nothing(half, s.a0);
    lemma_times_nothing(dt, fmul(half, s.a0));
    lemma_times_nothing(dt, fmul(fmul(half, s.a0), dt));
    assert(mag_units(0) == 0);
}

/// As much jerk the other way twists as much the other way.
proof fn lemma_twists_cancel(r: Seg, s: Seg, dt: Scalar)
    requires
        r.jerk.finite() && dt.finite(),
        twist(r, dt).finite(),
        s.jerk == fneg(r.jerk),
    ensures
        twist(s, dt).units() == -twist(r, dt).units(),
{
    let six = Scalar { bits: SIX_BITS };
    let (a, b) = (fmul(r.jerk, dt), fmul(s.jerk, dt));
    let (c, e) = (fmul(a, dt), fmul(b, dt));
    let (f, g) = (fmul(c, dt), fmul(e, dt));
    assert(f.finite()) by {
        reveal(fdiv);
        assert(crate::scalar::number::nan_value().nan());
    }
    assert(a.finite() && c.finite()) by {
        reveal(fmul);
        assert(crate::scalar::number::nan_value().nan());
    }
    lemma_product_by_key(s.jerk, r.jerk, dt);
    lemma_product_by_key(b, a, dt);
    lemma_product_by_key(e, c, dt);
    assert(fdiv(g, six).finite() && fdiv(g, six).key() == -fdiv(f, six).key()) by {
        if f.mag() == 0 {
            lemma_nothing_over(f, six);
            lemma_nothing_over(g, six);
        } else {
            reveal(fdiv);
        }
    }
    lemma_units_by_key(fdiv(g, six), fdiv(f, six));
}

/// Without jerk there is no twist.
proof fn lemma_no_twist(s: Seg, dt: Scalar)
    requires
        s.jerk.mag() == 0,
        dt.finite(),
    ensures
        twist(s, dt).units() == 0,
{
    let a = fmul(s.jerk, dt);
    lemma_times_nothing(dt, s.jerk);
    lemma_times_nothing(dt, a);
    lemma_times_nothing(dt, fmul(a, dt));
    lemma_nothing_over(fmul(fmul(a, dt), dt), Scalar { bits: SIX_BITS });
    assert(mag_units(0) == 0);
}

/// Where a profile ends.
pub open spec fn end_of(p: ProfileV) -> Scalar {
    pos_after(p.segs[6], p.tj)
}

/// What the velocities at the starts of the segments cover in the time of each.
pub open spec fn covered(p: ProfileV) -> int {
    stride(p.segs[1], p.ta).units() + stride(p.segs[2], p.tj).units() + stride(
        p.segs[3],
        p.tv,
    ).units() + stride(p.segs[4], p.tj).units() + stride(p.segs[5], p.ta).units() + stride(
        p.segs[6],
        p.tj,
    ).units()
}

/// How coarse the numbers are that the position of a move runs through.
pub open spec fn grain(p: ProfileV) -> int {
    coarse(p.segs[0], p.tj) + coarse(p.segs[1], p.ta) + coarse(p.segs[2], p.tj) + coarse(
        p.segs[3],
        p.tv,
    ) + coarse(p.segs[4], p.tj) + coarse(p.segs[5], p.ta) + coarse(p.segs[6], p.tj)
}

/// The positions of a move run through numbers only.
pub open spec fn positions_are_finite(p: ProfileV) -> bool {
    &&& steps_are_finite(p.segs[0], p.tj) && steps_are_finite(p.segs[1], p.ta)
    &&& steps_are_finite(p.segs[2], p.tj) && steps_are_finite(p.segs[3], p.tv)
    &&& steps_are_finite(p.segs[4], p.tj) && steps_are_finite(p.segs[5], p.ta)
    &&& steps_are_finite(p.segs[6], p.tj)
}

/// What accelerations and jerks add on the way up they take back on the way down: a move
/// goes as far as the velocities at the starts of its segments take it, up to rounding.
pub proof fn law_ramps_balance(
    d: Scalar,
    vmax: Scalar,
    amax: Scalar,
    jmax: Scalar,
    cbrt: spec_fn(Scalar) -> Scalar,
)
    requires
        jmax.finite(),
        !flt(fabs(d), Scalar { bits: PICO_BITS }),
        planned(d, vmax, amax, jmax, cbrt).apeak.finite(),
        positions_are_finite(planned(d, vmax, amax, jmax, cbrt)),
    ensures
        ({
            let p = planned(d, vmax, amax, jmax, cbrt);
            -grain(p) < end_of(p).units() - covered(p) < grain(p)
        }),
{
    reveal(planned);
    reveal(built);
    let z = Scalar { bits: 0 };
    let p = planned(d, vmax, amax, jmax, cbrt);
    let (tj, ta, tv) = (p.tj, p.ta, p.tv);
    law_accelerations_level_off(d, vmax, amax, jmax, cbrt);
    let s0 = seg_at(tj, ta, tv, jmax, 0);
    let s1 = seg_at(tj, ta, tv, jmax, 1);
    let s2 = seg_at(tj, ta, tv, jmax, 2);
    let s3 = seg_at(tj, ta, tv, jmax, 3);
    let s4 = seg_at(tj, ta, tv, jmax, 4);
    let s5 = seg_at(tj, ta, tv, jmax, 5);
    let s6 = seg_at(tj, ta, tv, jmax, 6);
    assert(p.segs[0] == s0 && p.segs[1] == s1 && p.segs[2] == s2 && p.segs[3] == s3);
    assert(p.segs[4] == s4 && p.segs[5] == s5 && p.segs[6] == s6);
    lemma_step(s0, tj);
    lemma_step(s1, ta);
    lemma_step(s2, tj);
    lemma_step(s3, tv);
    lemma_step(s4, tj);
    lemma_step(s5, ta);
    lemma_step(s6, tj);
    assert(s1.p0 == pos_after(s0, tj) && s2.p0 == pos_after(s1, ta) && s3.p0 == pos_after(s2, tj));
    assert(s4.p0 == pos_after(s3, tv) && s5.p0 == pos_after(s4, tj) && s6.p0 == pos_after(s5, ta));
    assert(mag_units(0) == 0);
    assert(s0.p0.units() == 0);
    lemma_times_nothing(tj, s0.v0);
    assert(stride(s0, tj).units() == 0);
    lemma_no_bend(s0, tj);
    lemma_no_bend(s3, tv);
    lemma_no_bend(s4, tj);
    lemma_bends_cancel(s1, s5, ta);
    lemma_bends_cancel(s2, s6, tj);
    lemma_no_twist(s1, ta);
    lemma_no_twist(s3, tv);
    lemma_no_twist(s5, ta);
    lemma_twists_cancel(s0, s2, tj);
    lemma_twists_cancel(s0, s4, tj);
    assert(twist(s6, tj) == twist(s0, tj));
}

/// What the acceleration adds to the velocity in a segment.
pub open spec fn gain(s: Seg, dt: Scalar) -> Scalar {
    fmul(s.a0, dt)
}

/// What the jerk adds to the velocity.
pub open spec fn lift(s: Seg, dt: Scalar) -> Scalar {
    fmul(fmul(fmul(Scalar { bits: HALF_BITS }, s.jerk), dt), dt)
}

/// The velocity of a segment runs through numbers only.
pub open spec fn rises_are_finite(s: Seg, dt: Scalar) -> bool {
    &&& s.v0.finite() && s.a0.finite() && s.jerk.finite() && dt.finite()
    &&& gain(s, dt).finite() && lift(s, dt).finite() && fadd(s.v0, gain(s, dt)).finite()
    &&& vel_after(s, dt).finite()
}

/// How coarse the numbers are that the velocity of a segment runs through.
pub open spec fn rough(s: Seg, dt: Scalar) -> int {
    gap(fadd(s.v0, gain(s, dt)).mag()) + gap(vel_after(s, dt).mag())
}

/// A segment adds to the velocity what its acceleration and jerk add, up to rounding.
proof fn lemma_rise(s: Seg, dt: Scalar)
    requires
        rises_are_finite(s, dt),
    ensures
        ({
            let sum = s.v0.units() + gain(s, dt).units() + lift(s, dt).units();
            -rough(s, dt) < vel_after(s, dt).units() - sum < rough(s, dt)
        }),
        rough(s, dt) > 0,
{
    law_sum_is_near(s.v0, gain(s, dt));
    law_sum_is_near(fadd(s.v0, gain(s, dt)), lift(s, dt));
    lemma_gap_positive(fadd(s.v0, gain(s, dt)));
    lemma_gap_positive(vel_after(s, dt));
}

/// The velocities of a move run through numbers only.
pub open spec fn velocities_are_finite(p: ProfileV) -> bool {
    &&& rises_are_finite(p.segs[0], p.tj) && rises_are_finite(p.segs[1], p.ta)
    &&& rises_are_finite(p.segs[2], p.tj) && rises_are_finite(p.segs[3], p.tv)
    &&& rises_are_finite(p.segs[4], p.tj) && rises_are_finite(p.segs[5], p.ta)
}

/// How coarse the numbers are that the velocity of a move runs through.
pub open spec fn roughness(p: ProfileV) -> int {
    rough(p.segs[0], p.tj) + rough(p.segs[1], p.ta) + rough(p.segs[3], p.tv) + rough(
        p.segs[4],
        p.tj,
    ) + rough(p.segs[5], p.ta)
}

/// A velocity on the way up and its partner on the way down make the cruise velocity, up to
/// rounding.
pub proof fn law_velocities_pair_up(
    d: Scalar,
    vmax: Scalar,
    amax: Scalar,
    jmax: Scalar,
    cbrt: spec_fn(Scalar) -> Scalar,
)
    requires
        jmax.finite(),
        !flt(fabs(d), Scalar { bits: PICO_BITS }),
        planned(d, vmax, amax, jmax, cbrt).apeak.finite(),
        velocities_are_finite(planned(d, vmax, amax, jmax, cbrt)),
    ensures
        ({
            let p = planned(d, vmax, amax, jmax, cbrt);
            let cruise = p.segs[4].v0.units();
            &&& -roughness(p) < p.segs[1].v0.units() + p.segs[5].v0.units() - cruise < roughness(p)
            &&& -roughness(p) < p.segs[2].v0.units() + p.segs[6].v0.units() - cruise < roughness(p)
            &&& -roughness(p) < p.segs[3].v0.units() - cruise < roughness(p)
        }),
{
    reveal(planned);
    reveal(built);
    let p = planned(d, vmax, amax, jmax, cbrt);
    let (tj, ta, tv) = (p.tj, p.ta, p.tv);
    law_accelerations_level_off(d, vmax, amax, jmax, cbrt);
    let s0 = seg_at(tj, ta, tv, jmax, 0);
    let s1 = seg_at(tj, ta, tv, jmax, 1);
    let s2 = seg_at(tj, ta, tv, jmax, 2);
    let s3 = seg_at(tj, ta, tv, jmax, 3);
    let s4 = seg_at(tj, ta, tv, jmax, 4);
    let s5 = seg_at(tj, ta, tv, jmax, 5);
    let s6 = seg_at(tj, ta, tv, jmax, 6);
    assert(p.segs[0] == s0 && p.segs[1] == s1 && p.segs[2] == s2 && p.segs[3] == s3);
    assert(p.segs[4] == s4 && p.segs[5] == s5 && p.segs[6] == s6);
    lemma_rise(s0, tj);
    lemma_rise(s1, ta);
    lemma_rise(s3, tv);
    lemma_rise(s4, tj);
    lemma_rise(s5, ta);
    assert(s1.v0 == vel_after(s0, tj) && s2.v0 == vel_after(s1, ta) && s4.v0 == vel_after(s3, tv));
    assert(s5.v0 == vel_after(s4, tj) && s6.v0 == vel_after(s5, ta));
    assert(mag_units(0) == 0);
    lemma_times_nothing(tj, s0.a0);
    lemma_times_nothing(tv, s3.a0);
    lemma_times_nothing(tj, s4.a0);
    lemma_no_lift(s1, ta);
    lemma_no_lift(s3, tv);
    lemma_no_lift(s5, ta);
    lemma_lifts_cancel(s0, s4, tj);
    lemma_product_by_key(s5.a0, s1.a0, ta);
    lemma_units_by_key(gain(s5, ta), gain(s1, ta));
}

/// As much jerk the other way lifts as much the other way.
proof fn lemma_lifts_cancel(r: Seg, s: Seg, dt: Scalar)
    requires
        r.jerk.finite() && dt.finite(),
        lift(r, dt).finite(),
        s.jerk == fneg(r.jerk),
    ensures
        lift(s, dt).units() == -lift(r, dt).units(),
{
    let half = Scalar { bits: HALF_BITS };
    let a = fmul(half, r.jerk);
    let b = fmul(half, s.jerk);
    lemma_half_is_finite(r.jerk);
    law_products_commute(half, r.jerk);
    law_products_commute(half, s.jerk);
    lemma_product_by_key(s.jerk, r.jerk, half);
    assert(fmul(a, dt).finite()) by {
        reveal(fmul);
        assert(crate::scalar::number::nan_value().nan());
    }
    lemma_product_by_key(b, a, dt);
    lemma_product_by_key(fmul(b, dt), fmul(a, dt), dt);
    lemma_units_by_key(lift(s, dt), lift(r, dt));
}

/// Without jerk there is no lift.
proof fn lemma_no_lift(s: Seg, dt: Scalar)
    requires
        s.jerk.mag() == 0,
        dt.finite(),
    ensures
        lift(s, dt).units() == 0,
{
    let half = Scalar { bits: HALF_BITS };
    lemma_times_nothing(half, s.jerk);
    lemma_times_nothing(dt, fmul(half, s.jerk));
    lemma_times_nothing(dt, fmul(fmul(half, s.jerk), dt));
    assert(mag_units(0) == 0);
}

/// A stride whose size is neither tiny nor beyond the scale, or that goes nowhere.
pub open spec fn fair(s: Seg, dt: Scalar) -> bool {
    &&& !s.v0.negative() && !dt.negative()
    &&& ordinary(stride(s, dt)) || s.v0.mag() == 0 || dt.mag() == 0
}

/// A fair stride is near what it stands for.
proof fn lemma_fair(s: Seg, dt: Scalar)
    requires
        s.v0.finite() && dt.finite(),
        fair(s, dt),
    ensures
        close(size(s.v0) * size(dt), size(stride(s, dt)) * unit(), 1),
        stride(s, dt).units() == size(stride(s, dt)),
{
    assert(mag_units(0) == 0);
    if s.v0.mag() == 0 || dt.mag() == 0 {
        if dt.mag() == 0 {
            lemma_times_nothing(s.v0, dt);
        } else {
            lemma_times_nothing(dt, s.v0);
        }
        assert(size(s.v0) * size(dt) == 0) by (nonlinear_arith)
            requires
                size(s.v0) == 0 || size(dt) == 0,
        ;
        assert(0 * unit() == 0);
    } else {
        law_product_is_near(s.v0, dt);
    }
}

/// The strides of a move make what the cruise velocity covers in its time.
proof fn lemma_strides(
    u: int,
    a: int,
    t: int,
    c: int,
    v1: int,
    v2: int,
    v3: int,
    v4: int,
    v5: int,
    v6: int,
    m1: int,
    m2: int,
    m3: int,
    m4: int,
    m5: int,
    m6: int,
    e: int,
)
    requires
        u > 0 && a >= 0 && t >= 0 && c >= 0 && e >= 0,
        close(v1 * a, m1 * u, 1),
        close(v2 * t, m2 * u, 1),
        close(v3 * c, m3 * u, 1),
        close(v4 * t, m4 * u, 1),
        close(v5 * a, m5 * u, 1),
        close(v6 * t, m6 * u, 1),
        -e <= v1 + v5 - v4 <= e,
        -e <= v2 + v6 - v4 <= e,
        -e <= v3 - v4 <= e,
    ensures
        ({
            let b: int = 0x1_0000_0000_0000;
            let s = m1 + m2 + m3 + m4 + m5 + m6;
            let off = s * u + (e * (a + 2 * t + c)) * b;
            -off <= (s * u - v4 * (a + 2 * t + c)) * b <= off
        }),
{
    let b: int = 0x1_0000_0000_0000;
    assert(-(e * a) <= v1 * a + v5 * a - v4 * a <= e * a) by (nonlinear_arith)
        requires
            -e <= v1 + v5 - v4 <= e,
            a >= 0,
    ;
    assert(-(e * t) <= v2 * t + v6 * t - v4 * t <= e * t) by (nonlinear_arith)
        requires
            -e <= v2 + v6 - v4 <= e,
            t >= 0,
    ;
    assert(-(e * c) <= v3 * c - v4 * c <= e * c) by (nonlinear_arith)
        requires
            -e <= v3 - v4 <= e,
            c >= 0,
    ;
    assert(0 <= e * t) by (nonlinear_arith)
        requires
            e >= 0,
            t >= 0,
    ;
    assert(v4 * (a + 2 * t + c) == v4 * a + 2 * (v4 * t) + v4 * c) by (nonlinear_arith);
    assert(e * (a + 2 * t + c) == e * a + 2 * (e * t) + e * c) by (nonlinear_arith);
    assert((m1 + m2 + m3 + m4 + m5 + m6) * u == m1 * u + m2 * u + m3 * u + m4 * u + m5 * u + m6 * u)
        by (nonlinear_arith);
}

/// The cruise takes as long as its part of the distance needs.
proof fn lemma_times(u: int, n: int, a: int, t: int, x: int, r: int, d: int, f: int, c: int)
    requires
        u > 0 && n >= 0 && a >= 0 && t >= 0 && x >= 0 && 0 <= r <= d && f >= 0 && c >= 0,
        close(2 * t + a, x, 1),
        close(n * x, r * u, 1),
        close(d - r, f, 1),
        close(f * u, c * n, 1),
    ensures
        -(5 * (d * u)) <= (n * (a + 2 * t + c) - d * u) * 0x1_0000_0000_0000 <= 5 * (d * u),
{
    let w = 2 * t + a;
    assert(r * u >= 0 && f * u >= 0 && c * n >= 0 && (d - r) * u >= 0) by (nonlinear_arith)
        requires
            u > 0 && 0 <= r <= d && f >= 0 && c >= 0 && n >= 0,
    ;
    lemma_close_scaled(w, x, 1, n);
    assert(x * n == n * x) by (nonlinear_arith);
    lemma_close_chain(w * n, n * x, r * u, 1, 1);
    lemma_close_back(f * u, c * n, 1);
    lemma_close_scaled(d - r, f, 1, u);
    lemma_close_back((d - r) * u, f * u, 1);
    lemma_close_chain(c * n, f * u, (d - r) * u, 2, 2);
    assert(n * (a + 2 * t + c) == w * n + c * n) by (nonlinear_arith)
        requires
            w == 2 * t + a,
    ;
    assert((d - r) * u == d * u - r * u) by (nonlinear_arith);
}

/// The strides of a move are fair.
pub open spec fn strides_are_fair(p: ProfileV) -> bool {
    &&& fair(p.segs[1], p.ta) && fair(p.segs[2], p.tj) && fair(p.segs[3], p.tv)
    &&& fair(p.segs[4], p.tj) && fair(p.segs[5], p.ta) && fair(p.segs[6], p.tj)
}

/// A move goes as far as its cruise velocity takes it in its cruise and half of its ramps, up
/// to rounding.
pub proof fn law_profiles_go_as_far_as_they_cruise(
    d: Scalar,
    vmax: Scalar,
    amax: Scalar,
    jmax: Scalar,
    cbrt: spec_fn(Scalar) -> Scalar,
)
    requires
        jmax.finite(),
        !flt(fabs(d), Scalar { bits: PICO_BITS }),
        planned(d, vmax, amax, jmax, cbrt).apeak.finite(),
        positions_are_finite(planned(d, vmax, amax, jmax, cbrt)),
        velocities_are_finite(planned(d, vmax, amax, jmax, cbrt)),
        strides_are_fair(planned(d, vmax, amax, jmax, cbrt)),
    ensures
        ({
            let p = planned(d, vmax, amax, jmax, cbrt);
            let b: int = 0x1_0000_0000_0000;
            let time = size(p.ta) + 2 * size(p.tj) + size(p.tv);
            let off = covered(p) * unit() + (roughness(p) * time) * b + (grain(p) * unit()) * b;
            -off <= (end_of(p).units() * unit() - p.segs[4].v0.units() * time) * b <= off
        }),
{
    let p = planned(d, vmax, amax, jmax, cbrt);
    let u = unit();
    vstd::arithmetic::power2::lemma_pow2_pos(1074);
    law_ramps_balance(d, vmax, amax, jmax, cbrt);
    law_velocities_pair_up(d, vmax, amax, jmax, cbrt);
    lemma_fair(p.segs[1], p.ta);
    lemma_fair(p.segs[2], p.tj);
    lemma_fair(p.segs[3], p.tv);
    lemma_fair(p.segs[4], p.tj);
    lemma_fair(p.segs[5], p.ta);
    lemma_fair(p.segs[6], p.tj);
    let e = roughness(p);
    let (a, t, c) = (size(p.ta), size(p.tj), size(p.tv));
    lemma_strides(
        u,
        a,
        t,
        c,
        size(p.segs[1].v0),
        size(p.segs[2].v0),
        size(p.segs[3].v0),
        size(p.segs[4].v0),
        size(p.segs[5].v0),
        size(p.segs[6].v0),
        size(stride(p.segs[1], p.ta)),
        size(stride(p.segs[2], p.tj)),
        size(stride(p.segs[3], p.tv)),
        size(stride(p.segs[4], p.tj)),
        size(stride(p.segs[5], p.ta)),
        size(stride(p.segs[6], p.tj)),
        e,
    );
    let (end, s, g) = (end_of(p).units(), covered(p), grain(p));
    assert(-(g * u) <= end * u - s * u <= g * u) by (nonlinear_arith)
        requires
            -g < end - s < g,
            u > 0,
    ;
}

/// What a full ramp covers.
pub open spec fn reach(p: ProfileV, vmax: Scalar) -> Scalar {
    fmul(vmax, fadd(fmul(Scalar { bits: TWO_BITS }, p.tj), p.ta))
}

/// None of the numbers that the length of a cruise is computed with is tiny or beyond the
/// scale.
pub open spec fn cruise_is_fair(p: ProfileV, vmax: Scalar) -> bool {
    let two = fmul(Scalar { bits: TWO_BITS }, p.tj);
    let rest = fsub(p.d, reach(p, vmax));
    &&& vmax.finite() && vmax.mag() > 0 && !vmax.negative()
    &&& p.d.finite() && two.finite()
    &&& ordinary(fadd(two, p.ta)) && ordinary(reach(p, vmax))
    &&& rest.mag() == 0 || (ordinary(rest) && ordinary(p.tv))
}

/// A profile that cruises arrives at its distance, up to rounding and up to what its cruise
/// velocity is off its limit.
pub proof fn law_cruising_profiles_arrive(
    d: Scalar,
    vmax: Scalar,
    amax: Scalar,
    jmax: Scalar,
    cbrt: spec_fn(Scalar) -> Scalar,
)
    requires
        jmax.finite(),
        !flt(fabs(d), Scalar { bits: PICO_BITS }),
        ({
            let p = planned(d, vmax, amax, jmax, cbrt);
            let (tj, ta) = full_ramp(vmax, amax, jmax);
            &&& fle(fmul(vmax, fadd(fmul(Scalar { bits: TWO_BITS }, tj), ta)), fabs(d))
            &&& p.apeak.finite()
            &&& positions_are_finite(p) && velocities_are_finite(p) && strides_are_fair(p)
            &&& cruise_is_fair(p, vmax)
        }),
    ensures
        ({
            let p = planned(d, vmax, amax, jmax, cbrt);
            let b: int = 0x1_0000_0000_0000;
            let miss = p.segs[4].v0.units() - vmax.units();
            let time = size(p.ta) + 2 * size(p.tj) + size(p.tv);
            let off = (covered(p) + 5 * size(d)) * unit() + ((roughness(p) + (if miss < 0 {
                -miss
            } else {
                miss
            })) * time) * b + (grain(p) * unit()) * b;
            -off <= ((end_of(p).units() - size(d)) * unit()) * b <= off
        }),
{
    let b: int = 0x1_0000_0000_0000;
    let p = planned(d, vmax, amax, jmax, cbrt);
    let u = unit();
    let two = fmul(Scalar { bits: TWO_BITS }, p.tj);
    let x = fadd(two, p.ta);
    let r = reach(p, vmax);
    let rest = fsub(p.d, r);
    vstd::arithmetic::power2::lemma_pow2_pos(1074);
    assert(mag_units(0) == 0);
    assert(p.d == fabs(d) && p.tv == fdiv(rest, vmax) && fle(r, p.d) && (p.tj, p.ta) == full_ramp(
        vmax,
        amax,
        jmax,
    )) by {
        reveal(planned);
        reveal(built);
    }
    lemma_absolute(d);
    assert(!p.d.negative());
    law_profiles_go_as_far_as_they_cruise(d, vmax, amax, jmax, cbrt);
    let e = roughness(p);
    let (a, t, c) = (size(p.ta), size(p.tj), size(p.tv));
    let v = p.segs[4].v0.units();
    lemma_double(p.tj);
    assert(!two.negative()) by {
        reveal(fmul);
    }
    law_whole_is_near(two, p.ta);
    law_product_is_near(vmax, x);
    lemma_units_monotone(r.mag(), p.d.mag());
    lemma_negated(r);
    assert(close(size(p.d) - size(r), size(rest), 1) && close(
        size(rest) * u,
        c * size(vmax),
        1,
    )) by {
        if rest.mag() == 0 {
            law_sum_is_near(p.d, fneg(r));
            assert(gap(0) == 1);
            lemma_nothing_over(rest, vmax);
            assert(0 * u == 0 && 0 * size(vmax) == 0);
        } else {
            law_whole_is_near(p.d, fneg(r));
            law_quotient_is_near(rest, vmax);
        }
    }
    lemma_times(u, size(vmax), a, t, size(x), size(r), size(p.d), size(rest), c);
    let w = a + 2 * t + c;
    let n = size(vmax);
    let f = if v - n < 0 {
        n - v
    } else {
        v - n
    };
    assert(-(f * w) <= v * w - n * w <= f * w) by (nonlinear_arith)
        requires
            -f <= v - n <= f,
            w >= 0,
    ;
    let s = covered(p);
    let end = end_of(p).units();
    let g = grain(p);
    let dd = size(d);
    assert((end - dd) * u == end * u - dd * u && (s + 5 * dd) * u == s * u + 5 * (dd * u) && (e + f)
        * w == e * w + f * w) by (nonlinear_arith);
}

/// None of the numbers that a full ramp is computed with is tiny or beyond the scale.
pub open spec fn ramp_is_fair(vmax: Scalar, amax: Scalar, jmax: Scalar) -> bool {
    let (tj, ta) = full_ramp(vmax, amax, jmax);
    let peak = fmul(jmax, tj);
    &&& vmax.finite() && vmax.mag() > 0 && !vmax.negative()
    &&& amax.finite() && amax.mag() > 0 && !amax.negative()
    &&& jmax.finite() && jmax.mag() > 0 && !jmax.negative()
    &&& ordinary(tj) && ordinary(peak) && ordinary(fmul(peak, tj))
    &&& if plateaus(vmax, amax, jmax) {
        &&& ordinary(fdiv(vmax, amax)) && fle(tj, fdiv(vmax, amax))
        &&& ta.mag() == 0 || (ordinary(ta) && ordinary(fmul(peak, ta)))
    } else {
        ordinary(fdiv(vmax, jmax))
    }
}

/// With a plateau.
proof fn lemma_plateau(u: int, n: int, m: int, j: int, t: int, q: int, a: int, p: int, x: int, y: int)
    requires
        u > 0 && n >= 0 && m >= 0 && j >= 0 && t >= 0 && q >= 0 && a >= 0 && p >= 0 && x >= 0 && y >= 0,
        close(m * u, t * j, 1),
        close(j * t, p * u, 1),
        close(n * u, q * m, 1),
        close(q - t, a, 1),
        close(p * t, x * u, 1),
        close(p * a, y * u, 1),
    ensures
        close(x + y, n, 10),
{
    let w = t + a;
    assert(p * u >= 0 && w * m >= 0 && w * p >= 0 && x * u >= 0 && y * u >= 0) by (nonlinear_arith)
        requires
            u > 0 && m >= 0 && p >= 0 && x >= 0 && y >= 0,
            w >= 0,
    ;
    assert(t * j == j * t) by (nonlinear_arith);
    lemma_close_chain(m * u, j * t, p * u, 1, 1);
    lemma_close_cancelled(m, p, 3, u);
    assert(close(q, w, 1));
    lemma_close_scaled(q, w, 1, m);
    lemma_close_chain(n * u, q * m, w * m, 1, 1);
    lemma_close_scaled(m, p, 3, w);
    assert(m * w == w * m && p * w == w * p) by (nonlinear_arith);
    lemma_close_chain(n * u, w * m, w * p, 3, 3);
    assert(w * p == p * t + p * a && (x + y) * u == x * u + y * u) by (nonlinear_arith)
        requires
            w == t + a,
    ;
    assert(close(w * p, (x + y) * u, 1));
    lemma_close_chain(n * u, w * p, (x + y) * u, 7, 1);
    lemma_close_cancelled(n, x + y, 9, u);
    lemma_close_back(n, x + y, 9);
}

/// Without one.
proof fn lemma_no_plateau(u: int, n: int, j: int, z: int, t: int, p: int, x: int)
    requires
        u > 0 && n >= 0 && j >= 0 && z >= 0 && t >= 0 && p >= 0 && x >= 0,
        close(n * u, z * j, 1),
        close(z * u, t * t, 1),
        close(j * t, p * u, 1),
        close(p * t, x * u, 1),
    ensures
        close(x, n, 10),
{
    assert((z * j) * u >= 0 && (t * t) * j >= 0 && (p * u) * t >= 0 && (x * u) * u >= 0) by (nonlinear_arith)
        requires
            u > 0 && j >= 0 && z >= 0 && t >= 0 && p >= 0 && x >= 0,
    ;
    lemma_close_scaled(n * u, z * j, 1, u);
    lemma_close_scaled(z * u, t * t, 1, j);
    assert((z * u) * j == (z * j) * u) by (nonlinear_arith);
    lemma_close_chain((n * u) * u, (z * j) * u, (t * t) * j, 1, 1);
    lemma_close_scaled(j * t, p * u, 1, t);
    assert((j * t) * t == (t * t) * j) by (nonlinear_arith);
    lemma_close_chain((n * u) * u, (t * t) * j, (p * u) * t, 3, 1);
    lemma_close_scaled(p * t, x * u, 1, u);
    assert((p * t) * u == (p * u) * t) by (nonlinear_arith);
    lemma_close_chain((n * u) * u, (p * u) * t, (x * u) * u, 5, 1);
    lemma_close_cancelled(n * u, x * u, 7, u);
    lemma_close_cancelled(n, x, 7, u);
    lemma_close_back(n, x, 7);
    assert(close(x, n, 10));
}

/// What the peak of the acceleration gives over a full ramp and its plateau is the velocity
/// limit, up to rounding.
pub proof fn law_full_ramps_reach_the_limit(vmax: Scalar, amax: Scalar, jmax: Scalar)
    requires
        ramp_is_fair(vmax, amax, jmax),
    ensures
        ({
            let (tj, ta) = full_ramp(vmax, amax, jmax);
            let peak = fmul(jmax, tj);
            close(fmul(peak, tj).units() + fmul(peak, ta).units(), size(vmax), 10)
        }),
{
    let (tj, ta) = full_ramp(vmax, amax, jmax);
    let peak = fmul(jmax, tj);
    let u = unit();
    vstd::arithmetic::power2::lemma_pow2_pos(1074);
    assert(mag_units(0) == 0);
    law_product_is_near(jmax, tj);
    law_product_is_near(peak, tj);
    if ta.mag() == 0 {
        lemma_times_nothing(peak, ta);
        assert(size(peak) * 0 == 0 && 0 * u == 0);
    }
    if plateaus(vmax, amax, jmax) {
        let q = fdiv(vmax, amax);
        law_quotient_is_near(amax, jmax);
        law_quotient_is_near(vmax, amax);
        lemma_units_monotone(tj.mag(), q.mag());
        lemma_negated(tj);
        if ta.mag() == 0 {
            law_sum_is_near(q, fneg(tj));
            assert(gap(0) == 1);
        } else {
            law_whole_is_near(q, fneg(tj));
            law_product_is_near(peak, ta);
        }
        lemma_plateau(
            u,
            size(vmax),
            size(amax),
            size(jmax),
            size(tj),
            size(q),
            size(ta),
            size(peak),
            size(fmul(peak, tj)),
            size(fmul(peak, ta)),
        );
    } else {
        let z = fdiv(vmax, jmax);
        law_quotient_is_near(vmax, jmax);
        law_root_is_near(z);
        lemma_no_plateau(
            u,
            size(vmax),
            size(jmax),
            size(z),
            size(tj),
            size(peak),
            size(fmul(peak, tj)),
        );
    }
}

/// Cubed and doubled, the ramp time makes the distance.
proof fn lemma_cube(u: int, j: int, t: int, z: int, d: int, p: int, x: int)
    requires
        u > 0 && j >= 0 && t >= 0 && z >= 0 && d >= 0 && p >= 0 && x >= 0,
        close(d * u, z * (2 * j), 1),
        close((z * u) * u, (t * t) * t, 0x400),
        close(j * t, p * u, 1),
        close(p * t, x * u, 1),
    ensures
        close((2 * t) * x, d * u, 0x407),
{
    let (uu, tt) = (u * u, t * t);
    assert(uu > 0 && tt >= 0 && (tt * t) * (2 * j) >= 0 && (p * u) * (2 * tt) >= 0 && (x * u) * ((2 * t)
        * u) >= 0 && 0 <= (2 * t) * u && 0 <= (2 * t) * x) by (nonlinear_arith)
        requires
            u > 0 && j >= 0 && t >= 0 && p >= 0 && x >= 0,
            uu == u * u && tt == t * t,
    ;
    lemma_close_scaled(d * u, z * (2 * j), 1, uu);
    lemma_close_scaled((z * u) * u, tt * t, 0x400, 2 * j);
    assert(((z * u) * u) * (2 * j) == (z * (2 * j)) * uu) by (nonlinear_arith)
        requires
            uu == u * u,
    ;
    lemma_close_chain((d * u) * uu, (z * (2 * j)) * uu, (tt * t) * (2 * j), 1, 0x400);
    lemma_close_scaled(j * t, p * u, 1, 2 * tt);
    assert((j * t) * (2 * tt) == (tt * t) * (2 * j)) by (nonlinear_arith);
    lemma_close_chain((d * u) * uu, (tt * t) * (2 * j), (p * u) * (2 * tt), 0x402, 1);
    lemma_close_scaled(p * t, x * u, 1, (2 * t) * u);
    assert((p * t) * ((2 * t) * u) == (p * u) * (2 * tt)) by (nonlinear_arith)
        requires
            tt == t * t,
    ;
    lemma_close_chain((d * u) * uu, (p * u) * (2 * tt), (x * u) * ((2 * t) * u), 0x404, 1);
    assert((x * u) * ((2 * t) * u) == ((2 * t) * x) * uu) by (nonlinear_arith)
        requires
            uu == u * u,
    ;
    lemma_close_cancelled(d * u, (2 * t) * x, 0x406, uu);
    lemma_close_back(d * u, (2 * t) * x, 0x406);
}

/// A profile that is all jerk arrives at its distance, up to rounding, up to what its cruise
/// velocity is off, and as far as the cube root is accurate.
pub proof fn law_jerking_profiles_arrive(
    d: Scalar,
    vmax: Scalar,
    amax: Scalar,
    jmax: Scalar,
    cbrt: spec_fn(Scalar) -> Scalar,
)
    requires
        jmax.finite() && jmax.mag() > 0 && !jmax.negative(),
        !flt(fabs(d), Scalar { bits: PICO_BITS }),
        ({
            let p = planned(d, vmax, amax, jmax, cbrt);
            let double = fmul(Scalar { bits: TWO_BITS }, jmax);
            let z = fdiv(fabs(d), double);
            &&& p.ta == (Scalar { bits: 0 }) && p.tv == (Scalar { bits: 0 }) && p.tj == cbrt(z)
            &&& close((size(z) * unit()) * unit(), (size(p.tj) * size(p.tj)) * size(p.tj), 0x400)
            &&& d.finite() && double.finite() && ordinary(z)
            &&& ordinary(p.apeak) && ordinary(fmul(p.apeak, p.tj)) && !p.tj.negative()
            &&& positions_are_finite(p) && velocities_are_finite(p) && strides_are_fair(p)
        }),
    ensures
        ({
            let p = planned(d, vmax, amax, jmax, cbrt);
            let b: int = 0x1_0000_0000_0000;
            let miss = p.segs[4].v0.units() - fmul(p.apeak, p.tj).units();
            let time = 2 * size(p.tj);
            let off = (covered(p) + 0x407 * size(d)) * unit() + ((roughness(p) + (if miss < 0 {
                -miss
            } else {
                miss
            })) * time) * b + (grain(p) * unit()) * b;
            -off <= ((end_of(p).units() - size(d)) * unit()) * b <= off
        }),
{
    let p = planned(d, vmax, amax, jmax, cbrt);
    let u = unit();
    let double = fmul(Scalar { bits: TWO_BITS }, jmax);
    let z = fdiv(fabs(d), double);
    vstd::arithmetic::power2::lemma_pow2_pos(1074);
    assert(mag_units(0) == 0);
    assert(p.apeak == fmul(jmax, p.tj)) by {
        reveal(planned);
        reveal(built);
    }
    law_profiles_go_as_far_as_they_cruise(d, vmax, amax, jmax, cbrt);
    lemma_absolute(d);
    lemma_double(jmax);
    lemma_units_positive(jmax.mag());
    law_quotient_is_near(fabs(d), double);
    law_product_is_near(jmax, p.tj);
    let x = fmul(p.apeak, p.tj);
    law_product_is_near(p.apeak, p.tj);
    lemma_cube(u, size(jmax), size(p.tj), size(z), size(d), size(p.apeak), size(x));
    let w = 2 * size(p.tj);
    let v = p.segs[4].v0.units();
    let n = size(x);
    let f = if v - n < 0 {
        n - v
    } else {
        v - n
    };
    assert(-(f * w) <= v * w - w * n <= f * w) by (nonlinear_arith)
        requires
            -f <= v - n <= f,
            w >= 0,
    ;
    let (s, end, e, dd) = (covered(p), end_of(p).units(), roughness(p), size(d));
    assert((end - dd) * u == end * u - dd * u && (s + 0x407 * dd) * u == s * u + 0x407 * (dd * u) && (e
        + f) * w == e * w + f * w) by (nonlinear_arith);
}

} // verus!
