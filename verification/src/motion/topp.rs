//! Rest-to-rest moves of one coordinate under velocity and acceleration limits: a
//! ramp up, a cruise, a ramp down.

use vstd::prelude::*;

use crate::motion::scurve::hold_in;
#[allow(unused_imports)]
use crate::motion::scurve::held_in;
use crate::scalar::consts::{HALF_BITS, ONE_BITS, TWO_BITS};
#[allow(unused_imports)]
use crate::scalar::convert::{fclamp, fmax};
#[allow(unused_imports)]
use crate::scalar::number::{fabs, fadd, fdiv, fle, flt, fmul, fneg, fsub, mag_units, of_parts};
#[allow(unused_imports)]
use crate::scalar::order::{
    gap, law_adding_does_not_shrink, law_close_numbers_nearly_cancel,
    law_differences_reverse_order, law_products_commute, law_products_keep_order,
    law_quotients_keep_order, law_roots_are_not_negative, law_shares_make_the_whole,
    law_sum_is_near, law_sums_keep_order, lemma_absolute, lemma_add_nothing, lemma_difference,
    lemma_double, lemma_gap, lemma_gap_positive, lemma_half_is_finite, lemma_negated,
    lemma_no_sum_key, lemma_nothing_less, lemma_of_parts, lemma_signed, lemma_sum,
    lemma_times_nothing, lemma_units_monotone, lemma_units_positive, ordinary,
};
#[allow(unused_imports)]
use crate::scalar::near::{
    close, law_product_is_near, law_quotient_is_near, law_root_is_near, law_whole_is_near,
    lemma_close_back, lemma_close_cancelled, lemma_close_chain, lemma_close_scaled, size, unit,
};
#[allow(unused_imports)]
use crate::scalar::root::fsqrt;
use crate::scalar::Scalar;

verus! {

/// A trapezoid in the velocity, or a triangle when the move is short.
#[derive(Clone, Copy, Debug, PartialEq, Eq, Structural)]
pub struct BangBang {
    pub acap: Scalar,
    pub vpeak: Scalar,
    pub t1: Scalar,
    pub t2: Scalar,
    pub t3: Scalar,
    pub s1: Scalar,
    pub s2: Scalar,
}

/// Distance of a ramp of duration `t`.
pub open spec fn ramp(a: Scalar, t: Scalar) -> Scalar {
    fmul(fmul(fmul(Scalar { bits: HALF_BITS }, a), t), t)
}

/// The quickest move over `len`.
#[verifier::opaque]
pub open spec fn bang(len: Scalar, vcap: Scalar, acap: Scalar) -> BangBang {
    let v_tri = fsqrt(fmul(acap, len));
    if fle(v_tri, vcap) {
        let t1 = fdiv(v_tri, acap);
        let s1 = ramp(acap, t1);
        BangBang {
            acap,
            vpeak: v_tri,
            t1,
            t2: t1,
            t3: fmul(Scalar { bits: TWO_BITS }, t1),
            s1,
            s2: s1,
        }
    } else {
        let t_acc = fdiv(vcap, acap);
        let s_acc = ramp(acap, t_acc);
        let s_cruise = fsub(len, fmul(Scalar { bits: TWO_BITS }, s_acc));
        let t_cruise = fdiv(s_cruise, vcap);
        BangBang {
            acap,
            vpeak: vcap,
            t1: t_acc,
            t2: fadd(t_acc, t_cruise),
            t3: fadd(fmul(Scalar { bits: TWO_BITS }, t_acc), t_cruise),
            s1: s_acc,
            s2: fadd(s_acc, s_cruise),
        }
    }
}

/// Position within `0..1`, velocity and acceleration at a time.
#[verifier::opaque]
pub open spec fn bang_at(b: BangBang, time: Scalar) -> (Scalar, Scalar, Scalar) {
    let t = held_in(time, Scalar { bits: 0 }, b.t3);
    let d = fsub(t, b.t2);
    let (s, sd, sdd) = if fle(t, b.t1) {
        (ramp(b.acap, t), fmul(b.acap, t), b.acap)
    } else if fle(t, b.t2) {
        (fadd(b.s1, fmul(b.vpeak, fsub(t, b.t1))), b.vpeak, Scalar { bits: 0 })
    } else {
        (
            fsub(fadd(b.s2, fmul(b.vpeak, d)), ramp(b.acap, d)),
            fsub(b.vpeak, fmul(b.acap, d)),
            fneg(b.acap),
        )
    };
    (fclamp(s, Scalar { bits: 0 }, Scalar { bits: ONE_BITS }), sd, sdd)
}

fn ramp_of(a: Scalar, t: Scalar) -> (r: Scalar)
    ensures
        r == ramp(a, t),
{
    Scalar { bits: HALF_BITS }.mul(a).mul(t).mul(t)
}

impl BangBang {
    /// The quickest move over `len`.
    pub fn plan(len: Scalar, vcap: Scalar, acap: Scalar) -> (r: BangBang)
        ensures
            r == bang(len, vcap, acap),
    {
        reveal(bang);
        let v_tri = acap.mul(len).sqrt();
        if v_tri.le(vcap) {
            let t1 = v_tri.div(acap);
            let s1 = ramp_of(acap, t1);
            BangBang {
                acap,
                vpeak: v_tri,
                t1,
                t2: t1,
                t3: Scalar { bits: TWO_BITS }.mul(t1),
                s1,
                s2: s1,
            }
        } else {
            let t_acc = vcap.div(acap);
            let s_acc = ramp_of(acap, t_acc);
            let s_cruise = len.sub(Scalar { bits: TWO_BITS }.mul(s_acc));
            let t_cruise = s_cruise.div(vcap);
            BangBang {
                acap,
                vpeak: vcap,
                t1: t_acc,
                t2: t_acc.add(t_cruise),
                t3: Scalar { bits: TWO_BITS }.mul(t_acc).add(t_cruise),
                s1: s_acc,
                s2: s_acc.add(s_cruise),
            }
        }
    }

    /// How long the move takes.
    pub fn total(&self) -> (r: Scalar)
        ensures
            r == self.t3,
    {
        self.t3
    }

    /// Position, velocity and acceleration at a time.
    pub fn sample(&self, time: Scalar) -> (r: (Scalar, Scalar, Scalar))
        ensures
            r == bang_at(*self, time),
    {
        reveal(bang_at);
        let t = hold_in(time, Scalar { bits: 0 }, self.t3);
        let (s, sd, sdd) = if t.le(self.t1) {
            (ramp_of(self.acap, t), self.acap.mul(t), self.acap)
        } else if t.le(self.t2) {
            (self.s1.add(self.vpeak.mul(t.sub(self.t1))), self.vpeak, Scalar { bits: 0 })
        } else {
            let d = t.sub(self.t2);
            (
                self.s2.add(self.vpeak.mul(d)).sub(ramp_of(self.acap, d)),
                self.vpeak.sub(self.acap.mul(d)),
                self.acap.neg(),
            )
        };
        (s.clamp(Scalar { bits: 0 }, Scalar { bits: ONE_BITS }), sd, sdd)
    }
}

// ---- laws ----

/// A move whose phases end, none of them before it starts.
pub open spec fn sound(b: BangBang) -> bool {
    let z = Scalar { bits: 0 };
    &&& b.acap.finite() && flt(z, b.acap)
    &&& b.vpeak.finite() && fle(z, b.vpeak)
    &&& b.t1.finite() && fle(z, b.t1)
    &&& b.t2.finite() && fle(z, b.t2)
    &&& b.t3.finite() && fle(z, b.t3)
}

/// Twice a number that is not negative is no less, and tells whether it is finite.
proof fn lemma_twice(t: Scalar)
    requires
        fle(Scalar { bits: 0 }, t),
    ensures
        fle(t, fmul(Scalar { bits: TWO_BITS }, t)),
        fmul(Scalar { bits: TWO_BITS }, t).finite() ==> t.finite(),
{
    let one = Scalar { bits: ONE_BITS };
    let two = Scalar { bits: TWO_BITS };
    if t.finite() {
        law_products_keep_order(one, two, t);
        assert(of_parts(false, ONE_BITS as nat) == one);
        lemma_signed(false, t);
        if t.negative() {
            assert(t.mag() == 0);
        }
    } else {
        reveal(fmul);
    }
}

/// The quickest move under positive limits is sound, where it ends and rounding does not
/// take its cruise below nothing.
pub proof fn law_moves_are_sound(len: Scalar, vcap: Scalar, acap: Scalar)
    requires
        vcap.finite() && flt(Scalar { bits: 0 }, vcap),
        acap.finite() && flt(Scalar { bits: 0 }, acap),
        bang(len, vcap, acap).t3.finite(),
        fle(Scalar { bits: 0 }, bang(len, vcap, acap).t2),
    ensures
        sound(bang(len, vcap, acap)),
        fle(bang(len, vcap, acap).vpeak, vcap),
        bang(len, vcap, acap).acap == acap,
{
    reveal(bang);
    let z = Scalar { bits: 0 };
    let v_tri = fsqrt(fmul(acap, len));
    if fle(v_tri, vcap) {
        law_roots_are_not_negative(fmul(acap, len));
        assert(v_tri.finite());
        law_quotients_keep_order(v_tri, v_tri, acap);
        lemma_twice(fdiv(v_tri, acap));
    } else {
        let t_acc = fdiv(vcap, acap);
        let twice = fmul(Scalar { bits: TWO_BITS }, t_acc);
        law_quotients_keep_order(vcap, vcap, acap);
        lemma_twice(t_acc);
        let s_cruise = fsub(len, fmul(Scalar { bits: TWO_BITS }, ramp(acap, t_acc)));
        let c = fdiv(s_cruise, vcap);
        assert(twice.finite()) by {
            reveal(fadd);
            assert(crate::scalar::number::nan_value().nan());
        }
        law_sums_keep_order(t_acc, twice, c);
    }
}

/// A ramp that has lasted no time has gone nowhere.
proof fn lemma_no_ramp(a: Scalar)
    requires
        a.finite(),
    ensures
        ramp(a, Scalar { bits: 0 }).mag() == 0,
        fmul(a, Scalar { bits: 0 }).mag() == 0,
{
    let z = Scalar { bits: 0 };
    let ha = fmul(Scalar { bits: HALF_BITS }, a);
    lemma_half_is_finite(a);
    lemma_times_nothing(a, z);
    lemma_times_nothing(ha, z);
    lemma_times_nothing(fmul(ha, z), z);
}

/// A move starts at rest where it begins, and speeds up at once.
pub proof fn law_move_starts_at_rest(b: BangBang)
    requires
        sound(b),
    ensures
        bang_at(b, Scalar { bits: 0 }).0.mag() == 0,
        bang_at(b, Scalar { bits: 0 }).1.mag() == 0,
        bang_at(b, Scalar { bits: 0 }).2 == b.acap,
{
    reveal(bang_at);
    lemma_no_ramp(b.acap);
}

/// The acceleration of a move is its cap, none, or its cap the other way.
pub proof fn law_move_keeps_acceleration(b: BangBang, time: Scalar)
    requires
        sound(b),
    ensures
        fle(fabs(bang_at(b, time).2), b.acap),
{
    reveal(bang_at);
    lemma_absolute(b.acap);
    lemma_absolute(fneg(b.acap));
}

/// The largest velocity of a move, as its ramps compute it: its peak up to rounding.
pub open spec fn brim(b: BangBang) -> Scalar {
    fmax(fmax(b.vpeak, fmul(b.acap, b.t1)), fmul(b.acap, fsub(b.t3, b.t2)))
}

/// What is left behind a time grows with it.
pub proof fn lemma_time_left(t: Scalar, from: Scalar, end: Scalar)
    requires
        fle(Scalar { bits: 0 }, from),
        fle(from, t),
        fle(t, end),
        end.finite(),
    ensures
        fle(Scalar { bits: 0 }, fsub(t, from)),
        fle(fsub(t, from), fsub(end, from)),
        fsub(end, from).finite(),
        fsub(t, from).finite(),
{
    let z = Scalar { bits: 0 };
    lemma_difference(from, from);
    lemma_difference(t, from);
    lemma_difference(end, from);
    law_sums_keep_order(from, t, fneg(from));
    law_sums_keep_order(t, end, fneg(from));
    assert(from.units() - from.units() == 0);
    lemma_no_sum_key();
    law_differences_reverse_order(end, z, from);
    lemma_add_nothing(end, fneg(z));
}

/// What slows down is between its speed and the other way of what slows it.
proof fn lemma_slowed(v: Scalar, p: Scalar)
    requires
        v.finite(),
        fle(Scalar { bits: 0 }, v),
        fle(Scalar { bits: 0 }, p),
    ensures
        !fsub(v, p).nan(),
        -p.key() <= fsub(v, p).key() <= v.key(),
{
    let z = Scalar { bits: 0 };
    if p.finite() {
        law_differences_reverse_order(v, z, p);
        lemma_add_nothing(v, fneg(z));
        lemma_difference(v, p);
        lemma_difference(z, p);
        law_sums_keep_order(z, v, fneg(p));
        lemma_nothing_less(p);
    } else {
        reveal(fadd);
    }
}

/// The velocity of a move stays within its peak, as the ramps compute it.
pub proof fn law_move_keeps_velocity(b: BangBang, time: Scalar)
    requires
        sound(b),
        !time.nan(),
    ensures
        fle(fabs(bang_at(b, time).1), brim(b)),
{
    reveal(bang_at);
    let z = Scalar { bits: 0 };
    let t = held_in(time, z, b.t3);
    assert(fle(z, t) && fle(t, b.t3) && t.finite());
    let d = fsub(t, b.t2);
    let top = fsub(b.t3, b.t2);
    assert(b.t1.finite() && b.t2.finite());
    if fle(t, b.t1) {
        law_products_keep_order(t, b.t1, b.acap);
        law_products_commute(t, b.acap);
        law_products_commute(b.t1, b.acap);
        lemma_absolute(fmul(b.acap, t));
    } else if fle(t, b.t2) {
        lemma_absolute(b.vpeak);
    } else {
        lemma_time_left(t, b.t2, b.t3);
        law_products_keep_order(d, top, b.acap);
        law_products_commute(d, b.acap);
        law_products_commute(top, b.acap);
        lemma_slowed(b.vpeak, fmul(b.acap, d));
    }
}

/// The ramps reach the peak, up to rounding.
pub proof fn law_ramps_reach_the_peak(len: Scalar, vcap: Scalar, acap: Scalar)
    requires
        sound(bang(len, vcap, acap)),
        ordinary(bang(len, vcap, acap).t1),
        ordinary(fmul(acap, bang(len, vcap, acap).t1)),
    ensures
        ({
            let b = bang(len, vcap, acap);
            let top = mag_units(fmul(acap, b.t1).mag());
            let peak = mag_units(b.vpeak.mag());
            -peak <= (top - peak) * 0x2_0000_0000_0000 <= peak
        }),
{
    reveal(bang);
    let b = bang(len, vcap, acap);
    assert(b.t1 == fdiv(b.vpeak, acap));
    law_shares_make_the_whole(b.vpeak, acap);
}

/// The ramp down lasts as long as the ramp up, up to rounding.
pub proof fn law_ramps_last_equally(len: Scalar, vcap: Scalar, acap: Scalar)
    requires
        sound(bang(len, vcap, acap)),
        fsub(bang(len, vcap, acap).t3, bang(len, vcap, acap).t2).finite(),
    ensures
        ({
            let b = bang(len, vcap, acap);
            let down = fsub(b.t3, b.t2);
            let slack = gap(b.t2.mag()) + gap(b.t3.mag()) + gap(down.mag());
            -slack < down.units() - b.t1.units() < slack
        }),
{
    reveal(bang);
    let b = bang(len, vcap, acap);
    let two = Scalar { bits: TWO_BITS };
    let twice = fmul(two, b.t1);
    let down = fsub(b.t3, b.t2);
    lemma_negated(b.t2);
    law_sum_is_near(b.t3, fneg(b.t2));
    lemma_gap_positive(b.t2);
    lemma_gap_positive(b.t3);
    if fle(fsqrt(fmul(acap, len)), vcap) {
        lemma_double(b.t1);
    } else {
        let t_acc = fdiv(vcap, acap);
        let s_cruise = fsub(len, fmul(two, ramp(acap, t_acc)));
        let c = fdiv(s_cruise, vcap);
        lemma_twice(t_acc);
        assert(c.finite() && twice.finite()) by {
            reveal(fadd);
            assert(crate::scalar::number::nan_value().nan());
        }
        lemma_double(b.t1);
        law_sum_is_near(b.t1, c);
        law_sum_is_near(twice, c);
    }
}

/// A move that never cruises ends at rest, up to rounding: what is left of its velocity is
/// a small part of its peak.
pub proof fn law_short_moves_end_at_rest(len: Scalar, vcap: Scalar, acap: Scalar)
    requires
        fle(fsqrt(fmul(acap, len)), vcap),
        sound(bang(len, vcap, acap)),
        ordinary(bang(len, vcap, acap).t1),
        ordinary(fmul(acap, bang(len, vcap, acap).t1)),
        bang(len, vcap, acap).vpeak.mag() >= 0x31 * 0x10_0000_0000_0000,
    ensures
        ({
            let b = bang(len, vcap, acap);
            let left = bang_at(b, b.t3).1;
            left.finite() && mag_units(left.mag()) * 0x1_0000_0000_0000 <= mag_units(b.vpeak.mag())
        }),
{
    let z = Scalar { bits: 0 };
    let b = bang(len, vcap, acap);
    law_ramps_reach_the_peak(len, vcap, acap);
    assert(b.t2 == b.t1 && b.t3 == fmul(Scalar { bits: TWO_BITS }, b.t1) && b.acap == acap) by {
        reveal(bang);
    }
    lemma_double(b.t1);
    lemma_twice(b.t1);
    let d = fsub(b.t3, b.t1);
    lemma_difference(b.t3, b.t1);
    crate::scalar::number::lemma_round_exact(b.t1.mag());
    assert(d.key() == b.t1.key());
    assert(d == b.t1);
    lemma_units_positive(b.t1.mag());
    let p = fmul(acap, b.t1);
    law_products_keep_order(b.t1, b.t1, acap);
    law_products_commute(b.t1, acap);
    assert(!p.negative() && !b.vpeak.negative());
    law_close_numbers_nearly_cancel(b.vpeak, p);
    assert(bang_at(b, b.t3).1 == fsub(b.vpeak, p)) by {
        reveal(bang_at);
        assert(!fle(b.t3, b.t1)) by {
            if fle(b.t3, b.t1) {
                assert(b.t3.key() == b.t1.key());
                assert(b.t3.mag() == b.t1.mag());
            }
        }
    }
}

/// None of the numbers that a short move goes through is tiny or beyond the scale.
pub open spec fn well_scaled(b: BangBang) -> bool {
    let h = fmul(Scalar { bits: HALF_BITS }, b.acap);
    let p = fmul(b.vpeak, b.t1);
    &&& ordinary(b.t1) && ordinary(h) && ordinary(fmul(h, b.t1)) && ordinary(b.s1)
    &&& ordinary(p) && ordinary(fadd(b.s1, p)) && ordinary(fsub(fadd(b.s1, p), b.s1))
}

/// Peak by ramp time makes the length, and twice what a ramp covers.
proof fn lemma_halves(
    u: int,
    a: int,
    l: int,
    m: int,
    v: int,
    t: int,
    p: int,
    hf: int,
    h: int,
    w: int,
    s: int,
)
    requires
        u > 0 && a > 0 && l >= 0 && m >= 0 && v >= 0 && t >= 0 && p >= 0,
        h >= 0 && w >= 0 && s >= 0,
        2 * hf == u,
        close(a * l, m * u, 1),
        close(m * u, v * v, 1),
        close(v * u, t * a, 1),
        close(v * t, p * u, 1),
        close(hf * a, h * u, 1),
        close(h * t, w * u, 1),
        close(w * t, s * u, 1),
    ensures
        close(p, l, 8),
        close(p, 2 * s, 10),
{
    let (vu, vv, ta, vt) = (v * u, v * v, t * a, v * t);
    assert(vu >= 0 && vv >= 0 && ta >= 0 && vt >= 0 && vv * u >= 0 && ta * v >= 0) by (nonlinear_arith)
        requires
            u > 0 && a > 0 && v >= 0 && t >= 0,
            vu == v * u && vv == v * v && ta == t * a && vt == v * t,
    ;
    assert((p * u) * a >= 0 && a * u > 0 && p * u >= 0) by (nonlinear_arith)
        requires
            u > 0 && a > 0 && p >= 0,
    ;
    assert((2 * h) * t >= 0 && (2 * w) * u >= 0 && (2 * w) * t >= 0 && (2 * s) * u >= 0)
        by (nonlinear_arith)
        requires
            u > 0 && t >= 0 && h >= 0 && w >= 0 && s >= 0,
    ;
    // The length.
    lemma_close_scaled(a * l, m * u, 1, u);
    lemma_close_scaled(m * u, vv, 1, u);
    lemma_close_chain((a * l) * u, (m * u) * u, vv * u, 1, 1);
    lemma_close_scaled(vu, ta, 1, v);
    assert(vu * v == vv * u) by (nonlinear_arith)
        requires
            vu == v * u && vv == v * v,
    ;
    lemma_close_chain((a * l) * u, vv * u, ta * v, 3, 1);
    lemma_close_scaled(vt, p * u, 1, a);
    assert(vt * a == ta * v) by (nonlinear_arith)
        requires
            vt == v * t && ta == t * a,
    ;
    lemma_close_chain((a * l) * u, ta * v, (p * u) * a, 5, 1);
    assert((a * l) * u == l * (a * u)) by (nonlinear_arith);
    assert((p * u) * a == p * (a * u)) by (nonlinear_arith);
    lemma_close_cancelled(l, p, 7, a * u);
    lemma_close_back(l, p, 7);
    // The halves.
    lemma_close_scaled(hf * a, h * u, 1, 2);
    assert((hf * a) * 2 == a * u) by (nonlinear_arith)
        requires
            2 * hf == u,
    ;
    assert((h * u) * 2 == (2 * h) * u) by (nonlinear_arith);
    lemma_close_cancelled(a, 2 * h, 1, u);
    lemma_close_scaled(a, 2 * h, 1, t);
    assert(a * t == ta) by (nonlinear_arith)
        requires
            ta == t * a,
    ;
    lemma_close_chain(vu, ta, (2 * h) * t, 1, 1);
    lemma_close_scaled(h * t, w * u, 1, 2);
    assert((h * t) * 2 == (2 * h) * t) by (nonlinear_arith);
    assert((w * u) * 2 == (2 * w) * u) by (nonlinear_arith);
    lemma_close_chain(vu, (2 * h) * t, (2 * w) * u, 3, 1);
    lemma_close_cancelled(v, 2 * w, 5, u);
    lemma_close_scaled(v, 2 * w, 5, t);
    lemma_close_scaled(w * t, s * u, 1, 2);
    assert((w * t) * 2 == (2 * w) * t) by (nonlinear_arith);
    assert((s * u) * 2 == (2 * s) * u) by (nonlinear_arith);
    lemma_close_chain(vt, (2 * w) * t, (2 * s) * u, 5, 1);
    lemma_close_back(vt, p * u, 1);
    lemma_close_chain(p * u, vt, (2 * s) * u, 2, 7);
    lemma_close_cancelled(p, 2 * s, 10, u);
}

/// A move that never cruises arrives, up to rounding: it ends within a small part of its
/// length.
pub proof fn law_short_moves_arrive(len: Scalar, vcap: Scalar, acap: Scalar)
    requires
        flt(Scalar { bits: 0 }, len) && fle(len, Scalar { bits: ONE_BITS }),
        fle(fsqrt(fmul(acap, len)), vcap),
        ordinary(fmul(acap, len)),
        sound(bang(len, vcap, acap)),
        well_scaled(bang(len, vcap, acap)),
    ensures
        ({
            let b = bang(len, vcap, acap);
            let end = bang_at(b, b.t3).0;
            &&& end.finite() && b.t3.mag() > 0
            &&& -len.units() <= (end.units() - len.units()) * 0x1000_0000_0000 <= len.units()
        }),
{
    let z = Scalar { bits: 0 };
    let one = Scalar { bits: ONE_BITS };
    let half = Scalar { bits: HALF_BITS };
    let b = bang(len, vcap, acap);
    let u = unit();
    let m = fmul(acap, len);
    let v = b.vpeak;
    let t = b.t1;
    assert(b.t2 == t && b.t3 == fmul(Scalar { bits: TWO_BITS }, t) && b.acap == acap && v == fsqrt(m)
        && t == fdiv(v, acap) && b.s1 == ramp(acap, t) && b.s2 == b.s1) by {
        reveal(bang);
    }
    let h = fmul(half, acap);
    let w = fmul(h, t);
    let s = b.s1;
    let p = fmul(v, t);
    let y = fadd(s, p);
    let x = fsub(y, s);
    assert(u == mag_units(ONE_BITS as nat) && 2 * mag_units(HALF_BITS as nat) == u) by {
        vstd::arithmetic::power2::lemma2_to64();
        vstd::arithmetic::power2::lemma2_to64_rest();
        vstd::arithmetic::power2::lemma_pow2_adds(52, 1022);
        vstd::arithmetic::power2::lemma_pow2_adds(52, 1021);
        vstd::arithmetic::power2::lemma_pow2_unfold(1074);
    }
    vstd::arithmetic::power2::lemma_pow2_pos(1074);
    lemma_units_positive(acap.mag());
    law_product_is_near(acap, len);
    law_root_is_near(m);
    law_quotient_is_near(v, acap);
    law_product_is_near(v, t);
    law_product_is_near(half, acap);
    law_product_is_near(h, t);
    law_product_is_near(w, t);
    let (su, pu, lu) = (size(s), size(p), size(len));
    lemma_halves(
        u,
        size(acap),
        lu,
        size(m),
        size(v),
        size(t),
        pu,
        size(half),
        size(h),
        size(w),
        su,
    );
    assert(!s.negative() && !p.negative() && !len.negative());
    law_whole_is_near(s, p);
    let yu = y.units();
    lemma_negated(s);
    law_whole_is_near(y, fneg(s));
    assert(close(x.units(), pu, 7));
    lemma_close_chain(x.units(), pu, lu, 7, 8);
    lemma_double(t);
    lemma_twice(t);
    let d = fsub(b.t3, t);
    lemma_difference(b.t3, t);
    crate::scalar::number::lemma_round_exact(t.mag());
    assert(d.key() == t.key());
    assert(d == t);
    assert(bang_at(b, b.t3).0 == fclamp(x, z, one)) by {
        reveal(bang_at);
        assert(!fle(b.t3, t)) by {
            if fle(b.t3, t) {
                assert(b.t3.key() == t.key());
                assert(b.t3.mag() == t.mag());
                lemma_units_positive(t.mag());
            }
        }
    }
    if flt(one, x) {
        lemma_units_monotone(ONE_BITS as nat, x.mag());
        lemma_units_monotone(len.mag(), ONE_BITS as nat);
    }
}

/// What a ramp of another duration covers, by the peak and the duration of the ramp up.
proof fn lemma_other_ramp(
    u: int,
    a: int,
    v: int,
    t: int,
    hf: int,
    h: int,
    d: int,
    w: int,
    r: int,
)
    requires
        u > 0 && a > 0 && v >= 0 && t > 0 && h >= 0 && d >= 0 && w >= 0 && r >= 0,
        2 * hf == u,
        close(v * u, t * a, 1),
        close(hf * a, h * u, 1),
        close(h * d, w * u, 1),
        close(w * d, r * u, 1),
    ensures
        close((v * d) * d, (2 * r) * (u * t), 7),
{
    let (vu, ta, td) = (v * u, t * a, t * d);
    assert(td >= 0 && ta * d >= 0 && (2 * h) * td >= 0 && (w * u) * (2 * t) >= 0 && 2 * t > 0
        && (w * d) * (2 * t) >= 0 && (r * u) * (2 * t) >= 0 && ((2 * w) * t) * d >= 0)
        by (nonlinear_arith)
        requires
            u > 0 && a > 0 && t > 0 && h >= 0 && d >= 0 && w >= 0 && r >= 0,
            ta == t * a && td == t * d,
    ;
    lemma_close_scaled(hf * a, h * u, 1, 2);
    assert((hf * a) * 2 == a * u) by (nonlinear_arith)
        requires
            2 * hf == u,
    ;
    assert((h * u) * 2 == (2 * h) * u) by (nonlinear_arith);
    lemma_close_cancelled(a, 2 * h, 1, u);
    lemma_close_scaled(a, 2 * h, 1, td);
    lemma_close_scaled(vu, ta, 1, d);
    assert(a * td == ta * d) by (nonlinear_arith)
        requires
            ta == t * a && td == t * d,
    ;
    lemma_close_chain(vu * d, ta * d, (2 * h) * td, 1, 1);
    lemma_close_scaled(h * d, w * u, 1, 2 * t);
    assert((h * d) * (2 * t) == (2 * h) * td) by (nonlinear_arith)
        requires
            td == t * d,
    ;
    lemma_close_chain(vu * d, (2 * h) * td, (w * u) * (2 * t), 3, 1);
    assert(vu * d == (v * d) * u && (w * u) * (2 * t) == ((2 * w) * t) * u) by (nonlinear_arith)
        requires
            vu == v * u,
    ;
    lemma_close_cancelled(v * d, (2 * w) * t, 5, u);
    lemma_close_scaled(v * d, (2 * w) * t, 5, d);
    lemma_close_scaled(w * d, r * u, 1, 2 * t);
    assert((w * d) * (2 * t) == ((2 * w) * t) * d && (r * u) * (2 * t) == (2 * r) * (u * t))
        by (nonlinear_arith);
    lemma_close_chain((v * d) * d, ((2 * w) * t) * d, (2 * r) * (u * t), 5, 1);
}

/// What the ramp down goes makes up for what it took to ramp up, though it may last a
/// little longer or shorter.
proof fn lemma_ramp_down(u: int, v: int, t: int, d: int, e: int, p: int, r: int, s: int)
    requires
        u > 0 && v >= 0 && t > 0 && 0 <= d <= 2 * t && p >= 0 && r >= 0 && s >= 0,
        -e <= d - t <= e,
        0 <= e,
        close(v * d, p * u, 1),
        close((v * d) * d, (2 * r) * (u * t), 7),
        close(v * t, (2 * s) * u, 7),
    ensures
        ({
            let off = 78 * (v * t) + 0x1_0000_0000_0000 * (v * e);
            -off <= (2 * u) * (p - r - s) * 0x1_0000_0000_0000 <= off
        }),
        p * u <= 2 * (v * d),
        v * d <= 2 * (v * t),
{
    let b: int = 0x1_0000_0000_0000;
    let (g, vd, pu, su, ve) = (v * t, v * d, p * u, (2 * s) * u, v * e);
    let (vdd, rut) = (vd * d, (2 * r) * (u * t));
    assert(0 <= vd <= 2 * g && 0 <= vdd <= 4 * (g * t) && 0 <= g && 0 <= ve && 0 <= pu && 0 <= su
        && 0 <= rut && t * vd <= 2 * (g * t) && 0 <= g * t) by (nonlinear_arith)
        requires
            u > 0 && v >= 0 && t > 0 && 0 <= d <= 2 * t && p >= 0 && r >= 0 && s >= 0 && e >= 0,
            g == v * t && vd == v * d && pu == p * u && su == (2 * s) * u && ve == v * e,
            vdd == vd * d && rut == (2 * r) * (u * t),
    ;
    assert(-(2 * vd) <= (pu - vd) * b <= 2 * vd);
    assert(-(4 * (t * vd)) <= (2 * (t * pu) - 2 * (t * vd)) * b <= 4 * (t * vd)) by (nonlinear_arith)
        requires
            -(2 * vd) <= (pu - vd) * b <= 2 * vd,
            t > 0,
    ;
    assert(-(14 * vdd) <= (rut - vdd) * b <= 14 * vdd);
    assert(-(14 * g) <= (su - g) * b <= 14 * g);
    assert(-(14 * (g * t)) <= (su * t - g * t) * b <= 14 * (g * t)) by (nonlinear_arith)
        requires
            -(14 * g) <= (su - g) * b <= 14 * g,
            t > 0,
    ;
    let x = d - t;
    assert(2 * (t * vd) - vdd - g * t == -((v * x) * x)) by (nonlinear_arith)
        requires
            g == v * t && vd == v * d && vdd == vd * d && x == d - t,
    ;
    assert(0 <= (v * x) * x <= ve * t) by (nonlinear_arith)
        requires
            -e <= x <= e,
            -t <= x <= t,
            0 <= v,
            0 <= e,
            ve == v * e,
    ;
    let off = 78 * g + b * ve;
    let z = 2 * (t * pu) - rut - su * t;
    assert(-(78 * (g * t) + b * (ve * t)) <= z * b <= 78 * (g * t) + b * (ve * t));
    let ut = u * t;
    assert(t * pu == p * ut && su * t == 2 * (s * ut) && rut == 2 * (r * ut)) by (nonlinear_arith)
        requires
            ut == u * t && pu == p * u && su == (2 * s) * u && rut == (2 * r) * ut,
    ;
    assert(((2 * u) * (p - r - s)) * t == 2 * (p * ut) - 2 * (r * ut) - 2 * (s * ut))
        by (nonlinear_arith)
        requires
            ut == u * t,
    ;
    let q = (2 * u) * (p - r - s);
    assert(-off <= q * b <= off) by (nonlinear_arith)
        requires
            z == q * t,
            -(78 * (g * t) + b * (ve * t)) <= z * b <= 78 * (g * t) + b * (ve * t),
            off == 78 * g + b * ve,
            t > 0,
    ;
}

/// What the ramps lose is a small part of the whole.
proof fn lemma_little_is_lost(
    u: int,
    v: int,
    t: int,
    d: int,
    e: int,
    p: int,
    r: int,
    s: int,
    c: int,
    q: int,
)
    requires
        u > 0 && v >= 0 && t > 0 && 0 <= d <= 2 * t && p >= 0 && r >= 0 && s >= 0 && c >= 0 && q >= 0,
        -e <= d - t <= e,
        0 <= e,
        e * 0x8_0000_0000_0000 <= 8 * t + 4 * q,
        close(v * d, p * u, 1),
        close((v * d) * d, (2 * r) * (u * t), 7),
        close(v * t, (2 * s) * u, 7),
        close(c * u, q * v, 1),
        2 * s < u,
        c <= 2 * u,
    ensures
        -(80 * u) <= (p - r - s) * 0x1_0000_0000_0000 <= 80 * u,
        p <= 8 * u,
{
    lemma_ramp_down(u, v, t, d, e, p, r, s);
    let (g, ve, vq) = (v * t, v * e, q * v);
    assert((2 * s) * u <= u * u && c * u <= 2 * (u * u) && 0 <= s * u && 0 <= vq) by (nonlinear_arith)
        requires
            2 * s < u,
            c <= 2 * u,
            u > 0,
            s >= 0,
            q >= 0,
            v >= 0,
            vq == q * v,
    ;
    assert(g <= 2 * (u * u) && vq <= 4 * (u * u));
    assert(ve * 0x8_0000_0000_0000 <= 8 * g + 4 * vq) by (nonlinear_arith)
        requires
            e * 0x8_0000_0000_0000 <= 8 * t + 4 * q,
            ve == v * e,
            g == v * t,
            vq == q * v,
            v >= 0,
    ;
    let off = p - r - s;
    assert(-(80 * u) <= off * 0x1_0000_0000_0000 <= 80 * u) by (nonlinear_arith)
        requires
            -(160 * (u * u)) <= ((2 * u) * off) * 0x1_0000_0000_0000 <= 160 * (u * u),
            u > 0,
    ;
    assert(p <= 8 * u) by (nonlinear_arith)
        requires
            p * u <= 8 * (u * u),
            u > 0,
    ;
}

/// The cruise of a move that cruises, by its ramps.
pub open spec fn cruise(b: BangBang) -> Scalar {
    fsub(Scalar { bits: ONE_BITS }, fmul(Scalar { bits: TWO_BITS }, b.s1))
}

/// None of the numbers that a cruising move goes through is tiny or beyond the scale, and
/// its clock is fine enough for its ramps.
pub open spec fn well_scaled_cruise(b: BangBang) -> bool {
    let z = Scalar { bits: 0 };
    let h = fmul(Scalar { bits: HALF_BITS }, b.acap);
    let d = fsub(b.t3, b.t2);
    let p = fmul(b.vpeak, d);
    let y = fadd(b.s2, p);
    &&& ordinary(b.t1) && ordinary(b.t2) && ordinary(b.t3) && ordinary(b.s1) && ordinary(b.s2)
    &&& ordinary(cruise(b)) && ordinary(fdiv(cruise(b), b.vpeak))
    &&& ordinary(h) && ordinary(fmul(h, b.t1)) && ordinary(fmul(h, d)) && ordinary(ramp(b.acap, d))
    &&& ordinary(d) && ordinary(p) && ordinary(y) && ordinary(fsub(y, ramp(b.acap, d)))
    &&& flt(z, cruise(b))
    &&& flt(z, d) && fle(d, fmul(Scalar { bits: TWO_BITS }, b.t1))
}

/// By the clock, the ramp down of a cruising move lasts as long as the ramp up, up to small
/// parts of the move.
proof fn lemma_clock(vcap: Scalar, acap: Scalar)
    requires
        !fle(fsqrt(fmul(acap, Scalar { bits: ONE_BITS })), vcap),
        sound(bang(Scalar { bits: ONE_BITS }, vcap, acap)),
        well_scaled_cruise(bang(Scalar { bits: ONE_BITS }, vcap, acap)),
    ensures
        ({
            let b = bang(Scalar { bits: ONE_BITS }, vcap, acap);
            let d = fsub(b.t3, b.t2);
            let e = gap(b.t2.mag()) + gap(b.t3.mag()) + gap(d.mag());
            &&& 0 < size(b.t1) && 0 < size(d) <= 2 * size(b.t1)
            &&& -e <= size(d) - size(b.t1) <= e
            &&& e > 0
            &&& e * 0x8_0000_0000_0000 <= 8 * size(b.t1) + 4 * size(fdiv(cruise(b), b.vpeak))
            &&& !fle(b.t3, b.t1) && !fle(b.t3, b.t2)
            &&& !b.t1.negative() && !fdiv(cruise(b), b.vpeak).negative()
        }),
{
    let z = Scalar { bits: 0 };
    let one = Scalar { bits: ONE_BITS };
    let two = Scalar { bits: TWO_BITS };
    let b = bang(one, vcap, acap);
    let t = b.t1;
    let v = b.vpeak;
    let twice = fmul(two, t);
    let tc = fdiv(cruise(b), v);
    let d = fsub(b.t3, b.t2);
    assert(v == vcap && b.t2 == fadd(t, tc) && b.t3 == fadd(twice, tc)) by {
        reveal(bang);
    }
    lemma_units_positive(t.mag());
    lemma_units_positive(d.mag());
    assert(v.mag() > 0) by {
        if v.mag() == 0 {
            reveal(fdiv);
        }
    }
    law_quotient_is_near(cruise(b), v);
    law_ramps_last_equally(one, vcap, acap);
    lemma_gap(b.t2.mag());
    lemma_gap(b.t3.mag());
    lemma_gap(d.mag());
    lemma_twice(t);
    assert(twice.finite()) by {
        reveal(fadd);
        assert(crate::scalar::number::nan_value().nan());
    }
    lemma_double(t);
    lemma_units_monotone(d.mag(), twice.mag());
    law_whole_is_near(t, tc);
    law_whole_is_near(twice, tc);
    if fle(b.t3, b.t2) {
        lemma_difference(b.t2, b.t2);
        lemma_difference(b.t3, b.t2);
        lemma_no_sum_key();
        law_sums_keep_order(b.t3, b.t2, fneg(b.t2));
        assert(b.t2.units() - b.t2.units() == 0);
    }
    if fle(b.t3, t) {
        lemma_units_monotone(b.t3.mag(), t.mag());
    }
}

/// A move over one that cruises arrives, up to rounding.
pub proof fn law_cruising_moves_arrive(vcap: Scalar, acap: Scalar)
    requires
        !fle(fsqrt(fmul(acap, Scalar { bits: ONE_BITS })), vcap),
        sound(bang(Scalar { bits: ONE_BITS }, vcap, acap)),
        well_scaled_cruise(bang(Scalar { bits: ONE_BITS }, vcap, acap)),
    ensures
        ({
            let b = bang(Scalar { bits: ONE_BITS }, vcap, acap);
            let end = bang_at(b, b.t3).0;
            &&& end.finite() && b.t3.mag() > 0
            &&& -unit() <= (end.units() - unit()) * 0x200_0000_0000 <= 0
        }),
{
    let z = Scalar { bits: 0 };
    let one = Scalar { bits: ONE_BITS };
    let two = Scalar { bits: TWO_BITS };
    let half = Scalar { bits: HALF_BITS };
    let b = bang(one, vcap, acap);
    let u = unit();
    let v = b.vpeak;
    let t = b.t1;
    let s = b.s1;
    let twice = fmul(two, t);
    let cr = cruise(b);
    let tc = fdiv(cr, v);
    assert(b.acap == acap && v == vcap && t == fdiv(v, acap) && s == ramp(acap, t) && b.t2 == fadd(
        t,
        tc,
    ) && b.t3 == fadd(twice, tc) && b.s2 == fadd(s, cr)) by {
        reveal(bang);
    }
    let d = fsub(b.t3, b.t2);
    let h = fmul(half, acap);
    let w = fmul(h, t);
    let wd = fmul(h, d);
    let r = ramp(acap, d);
    let p = fmul(v, d);
    let y = fadd(b.s2, p);
    let x = fsub(y, r);
    assert(u == mag_units(ONE_BITS as nat) && 2 * mag_units(HALF_BITS as nat) == u) by {
        vstd::arithmetic::power2::lemma2_to64();
        vstd::arithmetic::power2::lemma2_to64_rest();
        vstd::arithmetic::power2::lemma_pow2_adds(52, 1022);
        vstd::arithmetic::power2::lemma_pow2_adds(52, 1021);
        vstd::arithmetic::power2::lemma_pow2_unfold(1074);
    }
    vstd::arithmetic::power2::lemma_pow2_pos(1074);
    lemma_units_positive(acap.mag());
    lemma_units_positive(t.mag());
    lemma_units_positive(d.mag());
    let (au, vu, tu, du) = (size(acap), size(v), size(t), size(d));
    let (su, ru, pu, cu, qu) = (size(s), size(r), size(p), size(cr), size(tc));
    // Signs and sizes.
    law_quotient_is_near(v, acap);
    law_product_is_near(half, acap);
    law_product_is_near(h, t);
    law_product_is_near(w, t);
    law_product_is_near(h, d);
    law_product_is_near(wd, d);
    law_product_is_near(v, d);
    assert(v.mag() > 0) by {
        if v.mag() == 0 {
            assert(size(v) == 0);
            assert(0 * u == 0);
            assert(0 < tu * au) by (nonlinear_arith)
                requires
                    tu > 0,
                    au > 0,
            ;
        }
    }
    law_quotient_is_near(cr, v);
    lemma_units_positive(v.mag());
    assert(!t.negative() && !s.negative() && !d.negative() && !r.negative() && !p.negative()
        && !cr.negative() && !tc.negative());
    lemma_other_ramp(u, au, vu, tu, size(half), size(h), tu, size(w), su);
    assert((2 * su) * (u * tu) == ((2 * su) * u) * tu) by (nonlinear_arith);
    lemma_close_cancelled(vu * tu, (2 * su) * u, 7, tu);
    lemma_other_ramp(u, au, vu, tu, size(half), size(h), du, size(wd), ru);
    let e = gap(b.t2.mag()) + gap(b.t3.mag()) + gap(d.mag());
    lemma_clock(vcap, acap);
    // The cruise.
    let double = fmul(two, s);
    assert(double.finite() && !double.negative()) by {
        law_products_keep_order(s, s, two);
        law_products_commute(s, two);
        reveal(fadd);
        assert(crate::scalar::number::nan_value().nan());
        reveal(fmul);
        lemma_of_parts(false, 0);
    }
    lemma_double(s);
    lemma_negated(double);
    assert(2 * su < u) by {
        lemma_difference(one, double);
        if 2 * su >= u {
            lemma_no_sum_key();
            law_sums_keep_order(double, double, fneg(double));
        }
    }
    law_whole_is_near(one, fneg(double));
    law_whole_is_near(s, cr);
    lemma_little_is_lost(u, vu, tu, du, e, pu, ru, su, cu, qu);
    law_whole_is_near(b.s2, p);
    lemma_negated(r);
    law_whole_is_near(y, fneg(r));
    let xu = x.units();
    assert(-(128 * u) <= (xu - u) * 0x1_0000_0000_0000 <= 128 * u);
    assert(bang_at(b, b.t3).0 == fclamp(x, z, one)) by {
        reveal(bang_at);
    }
    if flt(one, x) {
        lemma_units_monotone(ONE_BITS as nat, x.mag());
    }
    if !flt(one, x) && xu > u {
        lemma_units_monotone(x.mag(), ONE_BITS as nat);
    }
}

/// What the ramp down leaves of the velocity.
proof fn lemma_slowed_down(u: int, a: int, v: int, t: int, d: int, e: int, q: int, m: int)
    requires
        u > 0 && a > 0 && v >= 0 && t > 0 && 0 <= d <= 2 * t && e >= 0 && q >= 0 && m >= 0,
        -e <= d - t <= e,
        e * 0x8_0000_0000_0000 <= 8 * t + 4 * q,
        close(v * u, t * a, 1),
        close(a * d, m * u, 1),
    ensures
        -(v * (12 * t + q)) <= ((m - v) * t) * 0x1_0000_0000_0000 <= v * (12 * t + q),
{
    let b: int = 0x1_0000_0000_0000;
    let (ta, vu, ad, mu, ae) = (t * a, v * u, a * d, m * u, a * e);
    assert(ta >= 0 && vu >= 0 && 0 <= ad <= 2 * ta && mu >= 0 && -ae <= ad - ta <= ae)
        by (nonlinear_arith)
        requires
            u > 0 && a > 0 && v >= 0 && t > 0 && 0 <= d <= 2 * t && m >= 0,
            -e <= d - t <= e,
            ta == t * a && vu == v * u && ad == a * d && mu == m * u && ae == a * e,
    ;
    assert(ta <= 2 * vu);
    assert(-(5 * ta + b * ae) <= (mu - vu) * b <= 5 * ta + b * ae);
    let off = vu * (12 * t + q);
    assert((5 * ta + b * ae) * t <= off) by {
        let be = b * e;
        assert((b * ae) * t == ta * be) by (nonlinear_arith)
            requires
                ae == a * e && ta == t * a && be == b * e,
        ;
        assert(ta * be <= vu * (2 * t + q) && ta * t <= 2 * (vu * t)) by (nonlinear_arith)
            requires
                0 <= ta <= 2 * vu,
                0 <= 2 * be <= 2 * t + q,
                t > 0,
        ;
        assert(off == 10 * (vu * t) + vu * (2 * t + q)) by (nonlinear_arith)
            requires
                off == vu * (12 * t + q),
        ;
        assert((5 * ta + b * ae) * t == 5 * (ta * t) + (b * ae) * t) by (nonlinear_arith);
    }
    assert(-off <= ((mu - vu) * t) * b <= off) by (nonlinear_arith)
        requires
            -(5 * ta + b * ae) <= (mu - vu) * b <= 5 * ta + b * ae,
            (5 * ta + b * ae) * t <= off,
            t > 0,
    ;
    assert(-(v * (12 * t + q)) <= ((m - v) * t) * b <= v * (12 * t + q)) by (nonlinear_arith)
        requires
            -off <= ((mu - vu) * t) * b <= off,
            off == vu * (12 * t + q),
            vu == v * u && mu == m * u,
            u > 0,
    ;
}

/// A move over one that cruises ends at rest, up to rounding: what is left of its velocity is
/// a small part of its peak, the larger the longer it cruises beside its ramps.
pub proof fn law_cruising_moves_end_at_rest(vcap: Scalar, acap: Scalar)
    requires
        !fle(fsqrt(fmul(acap, Scalar { bits: ONE_BITS })), vcap),
        sound(bang(Scalar { bits: ONE_BITS }, vcap, acap)),
        well_scaled_cruise(bang(Scalar { bits: ONE_BITS }, vcap, acap)),
        ({
            let b = bang(Scalar { bits: ONE_BITS }, vcap, acap);
            ordinary(fmul(acap, fsub(b.t3, b.t2)))
        }),
    ensures
        ({
            let b = bang(Scalar { bits: ONE_BITS }, vcap, acap);
            let left = bang_at(b, b.t3).1;
            let part = size(b.vpeak) * (12 * size(b.t1) + size(fdiv(cruise(b), b.vpeak)));
            let off = part + (gap(left.mag()) * size(b.t1)) * 0x1_0000_0000_0000;
            left.finite() && -off <= (left.units() * size(b.t1)) * 0x1_0000_0000_0000 <= off
        }),
{
    let one = Scalar { bits: ONE_BITS };
    let b = bang(one, vcap, acap);
    let (v, t) = (b.vpeak, b.t1);
    let d = fsub(b.t3, b.t2);
    let e = gap(b.t2.mag()) + gap(b.t3.mag()) + gap(d.mag());
    let m = fmul(acap, d);
    assert(b.acap == acap && v == vcap && t == fdiv(v, acap)) by {
        reveal(bang);
    }
    lemma_clock(vcap, acap);
    vstd::arithmetic::power2::lemma_pow2_pos(1074);
    lemma_units_positive(acap.mag());
    law_quotient_is_near(v, acap);
    law_product_is_near(acap, d);
    lemma_slowed_down(
        unit(),
        size(acap),
        size(v),
        size(t),
        size(d),
        e,
        size(fdiv(cruise(b), v)),
        size(m),
    );
    let left = fsub(v, m);
    assert(bang_at(b, b.t3).1 == left) by {
        reveal(bang_at);
    }
    lemma_slowed(v, m);
    lemma_negated(m);
    law_sum_is_near(v, fneg(m));
    let (lu, vu, mu, tu, g) = (left.units(), size(v), size(m), size(t), gap(left.mag()));
    assert(-(g * tu) <= lu * tu - (vu - mu) * tu <= g * tu) by (nonlinear_arith)
        requires
            -g < lu - (vu - mu) < g,
            tu > 0,
    ;
    assert((mu - vu) * tu == -((vu - mu) * tu)) by (nonlinear_arith);
}

/// A cruise that rounding takes below nothing is short beside the ramps.
proof fn lemma_short_overrun(
    u: int,
    a: int,
    m: int,
    top: int,
    v: int,
    t: int,
    s: int,
    c: int,
    q: int,
)
    requires
        u > 0 && a > 0 && m >= 0 && 0 < v <= top && t > 0 && s >= 0 && c >= 0 && q >= 0,
        close(a * u, m * u, 1),
        close(m * u, top * top, 1),
        close(v * u, t * a, 1),
        close(v * t, (2 * s) * u, 7),
        close(c * u, q * v, 1),
        2 * s >= u,
        close(2 * s - u, c, 1),
    ensures
        q < t,
{
    let (au, tt, g, uu, su, cu, qv) = (a * u, top * top, v * t, u * u, (2 * s) * u, c * u, q * v);
    assert(v * v <= tt && tt >= 0 && uu > 0 && su >= uu && g >= 0 && qv >= 0 && cu >= 0)
        by (nonlinear_arith)
        requires
            0 < v <= top,
            tt == top * top && uu == u * u && su == (2 * s) * u && g == v * t && qv == q * v,
            cu == c * u,
            u > 0 && t > 0 && q >= 0 && c >= 0 && 2 * s >= u,
    ;
    lemma_close_chain(au, m * u, tt, 1, 1);
    lemma_close_back(au, tt, 3);
    assert(au >= 0) by (nonlinear_arith)
        requires
            au == a * u,
            a > 0 && u > 0,
    ;
    assert(tt * 0x1_0000_0000_0000 <= 0x1_0000_0000_0004 * au);
    lemma_close_scaled(v * u, t * a, 1, v);
    lemma_close_back((v * u) * v, (t * a) * v, 1);
    assert((v * u) * v == (v * v) * u && (t * a) * v == g * a && au * u == uu * a && (v * v) * u <= tt * u
        && tt * u * 0x1_0000_0000_0000 <= 0x1_0000_0000_0004 * (au * u) && 0 <= (v * v) * u)
        by (nonlinear_arith)
        requires
            g == v * t && uu == u * u && au == a * u && u > 0,
            v * v <= tt,
            tt * 0x1_0000_0000_0000 <= 0x1_0000_0000_0004 * au,
    ;
    assert(g * a * 0x1_0000_0000_0000 <= 0x1_0000_0000_0008 * (uu * a));
    assert(g * 0x1_0000_0000_0000 <= 0x1_0000_0000_0008 * uu) by (nonlinear_arith)
        requires
            g * a * 0x1_0000_0000_0000 <= 0x1_0000_0000_0008 * (uu * a),
            a > 0,
    ;
    assert(su * 0x1_0000_0000_0000 <= 0x1_0000_0000_0020 * uu);
    assert((2 * s - u) * 0x1_0000_0000_0000 <= 0x20 * u) by (nonlinear_arith)
        requires
            su == (2 * s) * u && uu == u * u && u > 0,
            su * 0x1_0000_0000_0000 <= 0x1_0000_0000_0020 * uu,
    ;
    assert(c * 0x1_0000_0000_0000 <= 0x40 * u);
    assert(cu * 0x1_0000_0000_0000 <= 0x40 * uu) by (nonlinear_arith)
        requires
            cu == c * u && uu == u * u && u > 0,
            c * 0x1_0000_0000_0000 <= 0x40 * u,
    ;
    assert(qv < g);
    assert(q < t) by (nonlinear_arith)
        requires
            qv < g,
            qv == q * v && g == v * t,
            v > 0,
    ;
}

/// A move over one never cruises for so long below nothing that it would run backwards, so
/// under positive limits it is sound.
pub proof fn law_unit_moves_are_sound(vcap: Scalar, acap: Scalar)
    requires
        vcap.finite() && flt(Scalar { bits: 0 }, vcap),
        acap.finite() && flt(Scalar { bits: 0 }, acap),
        bang(Scalar { bits: ONE_BITS }, vcap, acap).t3.finite(),
        ({
            let b = bang(Scalar { bits: ONE_BITS }, vcap, acap);
            let h = fmul(Scalar { bits: HALF_BITS }, acap);
            b.t2 != b.t1 && flt(cruise(b), Scalar { bits: 0 }) ==> {
                &&& ordinary(fmul(acap, Scalar { bits: ONE_BITS }))
                &&& ordinary(b.t1) && ordinary(h) && ordinary(fmul(h, b.t1)) && ordinary(b.s1)
                &&& ordinary(cruise(b)) && ordinary(fdiv(cruise(b), vcap))
            }
        }),
        !cruise(bang(Scalar { bits: ONE_BITS }, vcap, acap)).nan(),
    ensures
        sound(bang(Scalar { bits: ONE_BITS }, vcap, acap)),
        fle(bang(Scalar { bits: ONE_BITS }, vcap, acap).vpeak, vcap),
{
    let z = Scalar { bits: 0 };
    let one = Scalar { bits: ONE_BITS };
    let two = Scalar { bits: TWO_BITS };
    let b = bang(one, vcap, acap);
    let m = fmul(acap, one);
    let top = fsqrt(m);
    let v = vcap;
    let t = b.t1;
    let s = b.s1;
    let cr = cruise(b);
    let tc = fdiv(cr, v);
    assert(fle(z, b.t2)) by {
        if fle(top, vcap) {
            reveal(bang);
            law_roots_are_not_negative(m);
            law_quotients_keep_order(top, top, acap);
        } else {
            assert(t == fdiv(v, acap) && s == ramp(acap, t) && b.t2 == fadd(t, tc) && b.t3 == fadd(
                fmul(two, t),
                tc,
            )) by {
                reveal(bang);
            }
            law_quotients_keep_order(v, v, acap);
            lemma_twice(t);
            assert(t.finite() && tc.finite()) by {
                reveal(fadd);
                assert(crate::scalar::number::nan_value().nan());
            }
            if fle(z, cr) {
                assert(fle(z, tc)) by {
                    reveal(fdiv);
                    assert(crate::scalar::number::nan_value().nan());
                    if cr.finite() {
                        law_quotients_keep_order(cr, cr, v);
                    }
                }
                lemma_sum(t, tc);
                law_adding_does_not_shrink(t, tc);
            } else if b.t2 != t {
                lemma_overrun(vcap, acap);
            }
        }
    }
    law_moves_are_sound(one, vcap, acap);
}

/// The second phase ends no earlier than the move starts, though the cruise is below nothing.
proof fn lemma_overrun(vcap: Scalar, acap: Scalar)
    requires
        vcap.finite() && flt(Scalar { bits: 0 }, vcap),
        acap.finite() && flt(Scalar { bits: 0 }, acap),
        !fle(fsqrt(fmul(acap, Scalar { bits: ONE_BITS })), vcap),
        ({
            let b = bang(Scalar { bits: ONE_BITS }, vcap, acap);
            let h = fmul(Scalar { bits: HALF_BITS }, acap);
            &&& flt(cruise(b), Scalar { bits: 0 })
            &&& ordinary(fmul(acap, Scalar { bits: ONE_BITS }))
            &&& ordinary(b.t1) && ordinary(h) && ordinary(fmul(h, b.t1)) && ordinary(b.s1)
            &&& ordinary(cruise(b)) && ordinary(fdiv(cruise(b), vcap))
        }),
    ensures
        fle(Scalar { bits: 0 }, bang(Scalar { bits: ONE_BITS }, vcap, acap).t2),
{
    let z = Scalar { bits: 0 };
    let one = Scalar { bits: ONE_BITS };
    let two = Scalar { bits: TWO_BITS };
    let half = Scalar { bits: HALF_BITS };
    let b = bang(one, vcap, acap);
    let u = unit();
    let m = fmul(acap, one);
    let top = fsqrt(m);
    let v = vcap;
    let t = b.t1;
    let s = b.s1;
    let cr = cruise(b);
    let tc = fdiv(cr, v);
    let h = fmul(half, acap);
    let w = fmul(h, t);
    assert(t == fdiv(v, acap) && s == ramp(acap, t) && b.t2 == fadd(t, tc)) by {
        reveal(bang);
    }
    assert(u == mag_units(ONE_BITS as nat) && 2 * mag_units(HALF_BITS as nat) == u) by {
        vstd::arithmetic::power2::lemma2_to64();
        vstd::arithmetic::power2::lemma2_to64_rest();
        vstd::arithmetic::power2::lemma_pow2_adds(52, 1022);
        vstd::arithmetic::power2::lemma_pow2_adds(52, 1021);
        vstd::arithmetic::power2::lemma_pow2_unfold(1074);
    }
    vstd::arithmetic::power2::lemma_pow2_pos(1074);
    lemma_units_positive(acap.mag());
    lemma_units_positive(t.mag());
    lemma_units_positive(v.mag());
    law_product_is_near(acap, one);
    law_root_is_near(m);
    law_quotient_is_near(v, acap);
    law_product_is_near(half, acap);
    law_product_is_near(h, t);
    law_product_is_near(w, t);
    law_quotient_is_near(cr, v);
    lemma_units_monotone(v.mag(), top.mag());
    let (su, tu, cu) = (size(s), size(t), size(cr));
    lemma_other_ramp(u, size(acap), size(v), tu, size(half), size(h), tu, size(w), su);
    assert((2 * su) * (u * tu) == ((2 * su) * u) * tu) by (nonlinear_arith);
    lemma_close_cancelled(size(v) * tu, (2 * su) * u, 7, tu);
    let double = fmul(two, s);
    assert(double.finite() && !double.negative()) by {
        law_products_keep_order(s, s, two);
        law_products_commute(s, two);
        reveal(fadd);
        assert(crate::scalar::number::nan_value().nan());
        reveal(fmul);
        lemma_of_parts(false, 0);
    }
    lemma_double(s);
    lemma_negated(double);
    law_sum_is_near(one, fneg(double));
    lemma_gap(cr.mag());
    lemma_short_overrun(u, size(acap), size(m), size(top), size(v), tu, su, cu, size(tc));
    lemma_sum(t, tc);
}

/// A sound move over one whose numbers are neither tiny nor beyond the scale.
pub open spec fn tame(vcap: Scalar, acap: Scalar) -> bool {
    let one = Scalar { bits: ONE_BITS };
    let b = bang(one, vcap, acap);
    &&& sound(b)
    &&& if fle(fsqrt(fmul(acap, one)), vcap) {
        ordinary(fmul(acap, one)) && well_scaled(b)
    } else {
        well_scaled_cruise(b)
    }
}

/// A move over one arrives: it ends at one up to a small part of it, and never beyond.
pub proof fn law_unit_moves_arrive(vcap: Scalar, acap: Scalar)
    requires
        tame(vcap, acap),
    ensures
        ({
            let b = bang(Scalar { bits: ONE_BITS }, vcap, acap);
            let end = bang_at(b, b.t3).0;
            &&& end.finite() && b.t3.mag() > 0
            &&& -unit() <= (end.units() - unit()) * 0x200_0000_0000 <= 0
        }),
{
    let one = Scalar { bits: ONE_BITS };
    let b = bang(one, vcap, acap);
    if fle(fsqrt(fmul(acap, one)), vcap) {
        law_short_moves_arrive(one, vcap, acap);
        vstd::arithmetic::power2::lemma2_to64();
        vstd::arithmetic::power2::lemma2_to64_rest();
        vstd::arithmetic::power2::lemma_pow2_adds(52, 1022);
        vstd::arithmetic::power2::lemma_pow2_pos(1074);
        assert(unit() == mag_units(ONE_BITS as nat));
        let end = bang_at(b, b.t3).0;
        assert(!flt(one, end)) by {
            reveal(bang_at);
        }
        lemma_units_monotone(end.mag(), ONE_BITS as nat);
    } else {
        law_cruising_moves_arrive(vcap, acap);
    }
}

} // verus!
