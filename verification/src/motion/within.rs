//! What a profile keeps to at every time.

use vstd::prelude::*;

#[allow(unused_imports)]
use crate::motion::scurve::{
    acc_after, held_in, profile_at, rise, seg_index, total_of, vel_after, ProfileV, Seg,
};
#[allow(unused_imports)]
use crate::motion::topp::lemma_time_left;
#[allow(unused_imports)]
use crate::scalar::consts::{HALF_BITS, MINUS_ONE_BITS, ONE_BITS};
#[allow(unused_imports)]
use crate::scalar::convert::fmax;
#[allow(unused_imports)]
use crate::scalar::near::{
    close, law_product_is_near, lemma_close_back, lemma_close_cancelled, lemma_close_chain,
    lemma_close_scaled, size, unit,
};
#[allow(unused_imports)]
use crate::scalar::number::{fabs, fadd, fle, fmul, fsub, mag_units, of_parts};
#[allow(unused_imports)]
use crate::scalar::order::{
    gap, law_products_commute, law_products_keep_order, law_sum_is_near, law_sums_keep_order,
    lemma_absolute, lemma_absolute_product, lemma_add_nothing, lemma_half_is_finite, lemma_signed,
    lemma_sum, lemma_times_nothing, ordinary,
};
#[allow(unused_imports)]
use crate::scalar::Scalar;

verus! {

/// How long a segment lasts by the clock.
pub open spec fn span(p: ProfileV, k: int) -> Scalar {
    fsub(
        if k < 6 {
            p.segs[k + 1].t0
        } else {
            total_of(p)
        },
        p.segs[k].t0,
    )
}

/// The segment that a time falls in has begun, and the next one has not.
proof fn lemma_seg_index(segs: Seq<Seg>, t: Scalar, k: int)
    requires
        0 <= k <= 6,
    ensures
        k <= seg_index(segs, t, k) <= 6,
        seg_index(segs, t, k) > k ==> fle(segs[seg_index(segs, t, k)].t0, t),
        seg_index(segs, t, k) < 6 ==> !fle(segs[seg_index(segs, t, k) + 1].t0, t),
    decreases 6 - k,
{
    if k < 6 && fle(segs[k + 1].t0, t) {
        lemma_seg_index(segs, t, k + 1);
    }
}

/// A product grows with its factor, away from nothing.
proof fn lemma_product_between(c: Scalar, dt: Scalar, end: Scalar)
    requires
        c.finite(),
        dt.finite() && end.finite(),
        fle(Scalar { bits: 0 }, dt) && fle(dt, end),
        fmul(c, end).finite(),
    ensures
        fmul(c, dt).finite(),
        c.key() >= 0 ==> 0 <= fmul(c, dt).key() <= fmul(c, end).key(),
        c.key() <= 0 ==> fmul(c, end).key() <= fmul(c, dt).key() <= 0,
{
    let j = fabs(c);
    let (x, y) = (fmul(c, dt), fmul(c, end));
    lemma_absolute(c);
    lemma_absolute_product(c, dt);
    lemma_absolute_product(c, end);
    lemma_absolute(x);
    lemma_absolute(y);
    lemma_absolute(dt);
    lemma_absolute(end);
    law_products_keep_order(fabs(dt), fabs(end), j);
    law_products_commute(fabs(dt), j);
    law_products_commute(fabs(end), j);
    assert(x.finite() && x.mag() <= y.mag());
    if dt.mag() == 0 {
        lemma_times_nothing(c, dt);
    }
    if end.mag() == 0 {
        lemma_times_nothing(c, end);
    }
    if c.mag() == 0 {
        lemma_times_nothing(dt, c);
        lemma_times_nothing(end, c);
    }
    assert(x.mag() > 0 ==> x.negative() == c.negative()) by {
        reveal(fmul);
    }
    assert(y.mag() > 0 ==> y.negative() == c.negative()) by {
        reveal(fmul);
    }
}

/// A product with a square grows with it, away from nothing.
proof fn lemma_square_between(c: Scalar, dt: Scalar, end: Scalar)
    requires
        c.finite(),
        dt.finite() && end.finite(),
        fle(Scalar { bits: 0 }, dt) && fle(dt, end),
        fmul(c, end).finite(),
        fmul(fmul(c, end), end).finite(),
    ensures
        fmul(fmul(c, dt), dt).finite(),
        c.key() >= 0 ==> 0 <= fmul(fmul(c, dt), dt).key() <= fmul(fmul(c, end), end).key(),
        c.key() <= 0 ==> fmul(fmul(c, end), end).key() <= fmul(fmul(c, dt), dt).key() <= 0,
{
    let (g, h) = (fmul(c, dt), fmul(c, end));
    let (x, y) = (fmul(g, dt), fmul(h, end));
    lemma_product_between(c, dt, end);
    lemma_product_between(h, dt, end);
    let m = fmul(h, dt);
    lemma_absolute(g);
    lemma_absolute(h);
    lemma_absolute(x);
    lemma_absolute(m);
    lemma_absolute(dt);
    lemma_absolute_product(g, dt);
    lemma_absolute_product(h, dt);
    law_products_keep_order(fabs(g), fabs(h), fabs(dt));
    if dt.mag() == 0 {
        lemma_times_nothing(g, dt);
    }
    if g.mag() == 0 {
        lemma_times_nothing(dt, g);
    }
    assert(x.mag() > 0 ==> x.negative() == g.negative()) by {
        reveal(fmul);
    }
}

/// What is added to the same keeps its order.
proof fn lemma_sum_between(a: Scalar, x: Scalar, y: Scalar)
    requires
        a.finite() && x.finite() && y.finite(),
    ensures
        !fadd(a, x).nan(),
        !fadd(a, y).nan(),
        0 <= x.key() <= y.key() ==> a.key() <= fadd(a, x).key() <= fadd(a, y).key(),
        y.key() <= x.key() <= 0 ==> fadd(a, y).key() <= fadd(a, x).key() <= a.key(),
{
    let z = Scalar { bits: 0 };
    lemma_sum(a, x);
    lemma_sum(x, a);
    lemma_sum(a, y);
    lemma_sum(y, a);
    lemma_sum(z, a);
    lemma_sum(a, z);
    lemma_add_nothing(a, z);
    if 0 <= x.key() <= y.key() {
        law_sums_keep_order(z, x, a);
        law_sums_keep_order(x, y, a);
    }
    if y.key() <= x.key() <= 0 {
        law_sums_keep_order(x, z, a);
        law_sums_keep_order(y, x, a);
    }
}

/// Within a segment the acceleration lies between its ends.
proof fn lemma_acceleration_between(s: Seg, dt: Scalar, end: Scalar)
    requires
        s.a0.finite(),
        s.jerk.finite(),
        dt.finite() && end.finite(),
        fle(Scalar { bits: 0 }, dt) && fle(dt, end),
        fmul(s.jerk, end).finite(),
    ensures
        !acc_after(s, dt).nan(),
        !acc_after(s, end).nan(),
        s.a0.key() <= acc_after(s, dt).key() <= acc_after(s, end).key() || acc_after(s, end).key()
            <= acc_after(s, dt).key() <= s.a0.key(),
{
    lemma_product_between(s.jerk, dt, end);
    lemma_sum_between(s.a0, fmul(s.jerk, dt), fmul(s.jerk, end));
}

/// The acceleration of a segment does not turn round.
pub open spec fn one_way(s: Seg) -> bool {
    (s.a0.key() >= 0 && s.jerk.key() >= 0) || (s.a0.key() <= 0 && s.jerk.key() <= 0)
}

/// What a segment adds to the velocity is a number.
pub open spec fn gains_are_finite(s: Seg, end: Scalar) -> bool {
    let h = fmul(Scalar { bits: HALF_BITS }, s.jerk);
    &&& s.v0.finite() && s.a0.finite() && s.jerk.finite()
    &&& fmul(s.a0, end).finite() && fadd(s.v0, fmul(s.a0, end)).finite()
    &&& fmul(h, end).finite() && fmul(fmul(h, end), end).finite()
}

/// Within a segment whose acceleration does not turn round, the velocity lies between its
/// ends.
proof fn lemma_velocity_between(s: Seg, dt: Scalar, end: Scalar)
    requires
        one_way(s),
        gains_are_finite(s, end),
        dt.finite() && end.finite(),
        fle(Scalar { bits: 0 }, dt) && fle(dt, end),
    ensures
        !vel_after(s, dt).nan(),
        !vel_after(s, end).nan(),
        s.v0.key() <= vel_after(s, dt).key() <= vel_after(s, end).key() || vel_after(s, end).key()
            <= vel_after(s, dt).key() <= s.v0.key(),
{
    let half = Scalar { bits: HALF_BITS };
    let h = fmul(half, s.jerk);
    lemma_half_is_finite(s.jerk);
    assert((s.jerk.key() >= 0 ==> h.key() >= 0) && (s.jerk.key() <= 0 ==> h.key() <= 0)) by {
        if s.jerk.mag() == 0 {
            lemma_times_nothing(half, s.jerk);
        }
        reveal(fmul);
    }
    lemma_product_between(s.a0, dt, end);
    lemma_square_between(h, dt, end);
    let (x, y) = (fmul(s.a0, dt), fmul(s.a0, end));
    let (g, k) = (fmul(fmul(h, dt), dt), fmul(fmul(h, end), end));
    lemma_sum_between(s.v0, x, y);
    let (b, c) = (fadd(s.v0, x), fadd(s.v0, y));
    assert(b.finite());
    lemma_sum_between(b, g, k);
    lemma_sum_between(c, k, k);
    lemma_sum(b, k);
    lemma_sum(c, k);
    if s.a0.key() >= 0 && s.jerk.key() >= 0 {
        law_sums_keep_order(b, c, k);
    } else {
        law_sums_keep_order(c, b, k);
    }
}

/// How far a time is into the segment that it falls in.
proof fn lemma_in_segment(p: ProfileV, t: Scalar) -> (dt: Scalar)
    requires
        p.segs.len() == 7,
        !t.nan(),
        total_of(p).finite() && fle(Scalar { bits: 0 }, total_of(p)),
        p.segs[0].t0 == (Scalar { bits: 0 }),
        ({
            let k = seg_index(p.segs, held_in(t, Scalar { bits: 0 }, total_of(p)), 0);
            &&& fle(Scalar { bits: 0 }, p.segs[k].t0)
            &&& k < 6 ==> p.segs[k + 1].t0.finite()
        }),
    ensures
        ({
            let tt = held_in(t, Scalar { bits: 0 }, total_of(p));
            let k = seg_index(p.segs, tt, 0);
            &&& 0 <= k <= 6
            &&& dt == fsub(tt, p.segs[k].t0)
            &&& dt.finite() && span(p, k).finite()
            &&& fle(Scalar { bits: 0 }, dt) && fle(dt, span(p, k))
        }),
{
    let z = Scalar { bits: 0 };
    let tt = held_in(t, z, total_of(p));
    assert(fle(z, tt) && fle(tt, total_of(p)) && tt.finite());
    lemma_seg_index(p.segs, tt, 0);
    let k = seg_index(p.segs, tt, 0);
    let s = p.segs[k];
    let end = if k < 6 {
        p.segs[k + 1].t0
    } else {
        total_of(p)
    };
    assert(fle(s.t0, tt));
    assert(fle(tt, end));
    lemma_time_left(tt, s.t0, end);
    fsub(tt, s.t0)
}

/// At every time the acceleration of a move is no larger than at the start or the end of the
/// segment that the time falls in.
pub proof fn law_acceleration_is_largest_at_the_ends(p: ProfileV, t: Scalar)
    requires
        p.segs.len() == 7,
        p.sign == (Scalar { bits: ONE_BITS }) || p.sign == (Scalar { bits: MINUS_ONE_BITS }),
        !t.nan(),
        total_of(p).finite() && fle(Scalar { bits: 0 }, total_of(p)),
        p.segs[0].t0 == (Scalar { bits: 0 }),
        ({
            let k = seg_index(p.segs, held_in(t, Scalar { bits: 0 }, total_of(p)), 0);
            let s = p.segs[k];
            &&& s.a0.finite() && s.jerk.finite()
            &&& fle(Scalar { bits: 0 }, s.t0)
            &&& k < 6 ==> p.segs[k + 1].t0.finite()
            &&& fmul(s.jerk, span(p, k)).finite()
            &&& acc_after(s, span(p, k)).finite()
        }),
    ensures
        ({
            let k = seg_index(p.segs, held_in(t, Scalar { bits: 0 }, total_of(p)), 0);
            let s = p.segs[k];
            fle(
                fabs(profile_at(p, t).2),
                fmax(fabs(s.a0), fabs(acc_after(s, span(p, k)))),
            )
        }),
{
    let k = seg_index(p.segs, held_in(t, Scalar { bits: 0 }, total_of(p)), 0);
    let s = p.segs[k];
    let dt = lemma_in_segment(p, t);
    lemma_acceleration_between(s, dt, span(p, k));
    let a = acc_after(s, dt);
    assert(a.finite());
    assert(p.sign == of_parts(p.sign.negative(), ONE_BITS as nat));
    lemma_signed(p.sign.negative(), a);
    lemma_absolute(a);
    lemma_absolute(s.a0);
    lemma_absolute(acc_after(s, span(p, k)));
    lemma_absolute(profile_at(p, t).2);
}

/// At every time that falls in a segment whose acceleration does not turn round, the
/// velocity of a move is no larger than at the start or the end of that segment.
pub proof fn law_velocity_is_largest_at_the_ends(p: ProfileV, t: Scalar)
    requires
        p.segs.len() == 7,
        p.sign == (Scalar { bits: ONE_BITS }) || p.sign == (Scalar { bits: MINUS_ONE_BITS }),
        !t.nan(),
        total_of(p).finite() && fle(Scalar { bits: 0 }, total_of(p)),
        p.segs[0].t0 == (Scalar { bits: 0 }),
        ({
            let k = seg_index(p.segs, held_in(t, Scalar { bits: 0 }, total_of(p)), 0);
            let s = p.segs[k];
            &&& one_way(s)
            &&& gains_are_finite(s, span(p, k))
            &&& fle(Scalar { bits: 0 }, s.t0)
            &&& k < 6 ==> p.segs[k + 1].t0.finite()
            &&& vel_after(s, span(p, k)).finite()
        }),
    ensures
        ({
            let k = seg_index(p.segs, held_in(t, Scalar { bits: 0 }, total_of(p)), 0);
            let s = p.segs[k];
            fle(
                fabs(profile_at(p, t).1),
                fmax(fabs(s.v0), fabs(vel_after(s, span(p, k)))),
            )
        }),
{
    let k = seg_index(p.segs, held_in(t, Scalar { bits: 0 }, total_of(p)), 0);
    let s = p.segs[k];
    let dt = lemma_in_segment(p, t);
    lemma_velocity_between(s, dt, span(p, k));
    let v = vel_after(s, dt);
    assert(p.sign == of_parts(p.sign.negative(), ONE_BITS as nat));
    lemma_signed(p.sign.negative(), v);
    lemma_absolute(v);
    lemma_absolute(s.v0);
    lemma_absolute(vel_after(s, span(p, k)));
    lemma_absolute(profile_at(p, t).1);
}

/// A parabola is below its vertex, and above nothing as long as it takes to come back.
proof fn lemma_parabola(
    u: int,
    hf: int,
    j: int,
    h: int,
    t: int,
    a: int,
    d: int,
    x: int,
    g: int,
    y: int,
    w: int,
    r: int,
)
    requires
        u > 0 && j >= 0 && h >= 0 && t >= 0 && a >= 0 && 0 <= d <= 2 * t && x >= 0 && g >= 0 && y >= 0,
        w >= 0 && r >= 0,
        2 * hf == u,
        close(hf * j, h * u, 1),
        close(j * t, a * u, 1),
        close(a * d, x * u, 1),
        close(h * d, g * u, 1),
        close(g * d, y * u, 1),
        close(h * t, w * u, 1),
        close(w * t, r * u, 1),
    ensures
        (x - y - r) * 0x1_0000_0000_0000 <= 6 * x + 3 * y + 3 * r,
        (y - x) * 0x1_0000_0000_0000 <= 6 * x + 3 * y,
{
    let b: int = 0x1_0000_0000_0000;
    let (td, uu) = (t * d, u * u);
    assert(td >= 0 && uu > 0 && (j * t) * d >= 0 && j >= 0 && (a * u) * d >= 0 && (x * u) * u >= 0 && (g
        * u) * d >= 0 && (y * u) * u >= 0 && (w * u) * t >= 0 && (r * u) * u >= 0 && j * td >= 0)
        by (nonlinear_arith)
        requires
            u > 0 && j >= 0 && t >= 0 && a >= 0 && d >= 0 && x >= 0 && g >= 0 && y >= 0 && w >= 0 && r
                >= 0,
            td == t * d && uu == u * u,
    ;
    // Along the line.
    lemma_close_scaled(hf * j, h * u, 1, 2);
    assert((hf * j) * 2 == j * u) by (nonlinear_arith)
        requires
            2 * hf == u,
    ;
    assert((h * u) * 2 == (2 * h) * u) by (nonlinear_arith);
    lemma_close_cancelled(j, 2 * h, 1, u);
    lemma_close_back(j, 2 * h, 1);
    lemma_close_scaled(2 * h, j, 2, td);
    lemma_close_scaled(j * t, a * u, 1, d);
    assert(j * td == (j * t) * d) by (nonlinear_arith)
        requires
            td == t * d,
    ;
    lemma_close_chain((2 * h) * td, (j * t) * d, (a * u) * d, 2, 1);
    lemma_close_scaled(a * d, x * u, 1, u);
    assert((a * d) * u == (a * u) * d) by (nonlinear_arith);
    lemma_close_chain((2 * h) * td, (a * u) * d, (x * u) * u, 4, 1);
    // Down the squares.
    lemma_close_scaled(h * d, g * u, 1, d);
    lemma_close_scaled(g * d, y * u, 1, u);
    assert((g * d) * u == (g * u) * d) by (nonlinear_arith);
    lemma_close_chain((h * d) * d, (g * u) * d, (y * u) * u, 1, 1);
    lemma_close_scaled(h * t, w * u, 1, t);
    lemma_close_scaled(w * t, r * u, 1, u);
    assert((w * t) * u == (w * u) * t) by (nonlinear_arith);
    lemma_close_chain((h * t) * t, (w * u) * t, (r * u) * u, 1, 1);
    assert((2 * h) * td - (h * d) * d - (h * t) * t <= 0) by (nonlinear_arith)
        requires
            td == t * d,
            h >= 0,
    ;
    assert((h * d) * d <= (2 * h) * td) by (nonlinear_arith)
        requires
            td == t * d,
            0 <= d <= 2 * t,
            h >= 0,
    ;
    let (xu, yu, ru) = (x * uu, y * uu, r * uu);
    assert((x * u) * u == xu && (y * u) * u == yu && (r * u) * u == ru) by (nonlinear_arith)
        requires
            xu == x * uu && yu == y * uu && ru == r * uu && uu == u * u,
    ;
    assert((xu - yu - ru) * b <= 6 * xu + 3 * yu + 3 * ru);
    assert((yu - xu) * b <= 6 * xu + 3 * yu);
    assert((x - y - r) * b <= 6 * x + 3 * y + 3 * r) by (nonlinear_arith)
        requires
            (xu - yu - ru) * b <= 6 * xu + 3 * yu + 3 * ru,
            xu == x * uu && yu == y * uu && ru == r * uu,
            uu > 0,
    ;
    assert((y - x) * b <= 6 * x + 3 * y) by (nonlinear_arith)
        requires
            (yu - xu) * b <= 6 * xu + 3 * yu,
            xu == x * uu && yu == y * uu,
            uu > 0,
    ;
}

/// The acceleration of a segment starts at the peak that the jerk `j` gives in `tj`, and
/// runs down; after `dt` none of the numbers of its velocity is tiny or beyond the scale.
pub open spec fn turns(s: Seg, j: Scalar, tj: Scalar, dt: Scalar) -> bool {
    let half = Scalar { bits: HALF_BITS };
    let h = fmul(half, s.jerk);
    let x = fmul(s.a0, dt);
    &&& s.v0.finite() && s.jerk.finite() && j.finite() && tj.finite() && dt.finite()
    &&& !tj.negative() && !dt.negative() && size(dt) <= 2 * size(tj)
    &&& s.a0.mag() == fmul(j, tj).mag() && s.jerk.mag() == j.mag()
    &&& s.a0.negative() != s.jerk.negative()
    &&& ordinary(fmul(j, tj)) && ordinary(h) && ordinary(fmul(h, tj)) && ordinary(rise(s.jerk, tj))
    &&& ordinary(x) && ordinary(fmul(h, dt)) && ordinary(fmul(fmul(h, dt), dt))
    &&& fadd(s.v0, x).finite() && vel_after(s, dt).finite()
}

/// Where the acceleration runs down, the velocity stays between that at the start of the
/// segment and what a ramp of the acceleration adds to it, up to rounding.
pub proof fn law_velocity_stays_between(s: Seg, j: Scalar, tj: Scalar, dt: Scalar)
    requires
        turns(s, j, tj, dt),
    ensures
        ({
            let b: int = 0x1_0000_0000_0000;
            let x = fmul(s.a0, dt);
            let y = fmul(fmul(fmul(Scalar { bits: HALF_BITS }, s.jerk), dt), dt);
            let r = size(rise(s.jerk, tj));
            let off = 6 * size(x) + 3 * size(y) + 3 * r + (gap(fadd(s.v0, x).mag()) + gap(
                vel_after(s, dt).mag(),
            )) * b;
            let gained = if s.a0.negative() {
                s.v0.units() - vel_after(s, dt).units()
            } else {
                vel_after(s, dt).units() - s.v0.units()
            };
            -off <= gained * b && (gained - r) * b <= off
        }),
{
    let half = Scalar { bits: HALF_BITS };
    let h = fmul(half, s.jerk);
    let x = fmul(s.a0, dt);
    let g = fmul(h, dt);
    let y = fmul(g, dt);
    let w = fmul(h, tj);
    let r = fmul(w, tj);
    let u = unit();
    assert(2 * mag_units(HALF_BITS as nat) == u) by {
        vstd::arithmetic::power2::lemma2_to64();
        vstd::arithmetic::power2::lemma2_to64_rest();
        vstd::arithmetic::power2::lemma_pow2_adds(52, 1021);
        vstd::arithmetic::power2::lemma_pow2_unfold(1074);
    }
    vstd::arithmetic::power2::lemma_pow2_pos(1074);
    law_product_is_near(half, s.jerk);
    law_product_is_near(j, tj);
    law_product_is_near(s.a0, dt);
    law_product_is_near(h, dt);
    law_product_is_near(g, dt);
    law_product_is_near(h, tj);
    law_product_is_near(w, tj);
    lemma_parabola(
        u,
        size(half),
        size(j),
        size(h),
        size(tj),
        size(s.a0),
        size(dt),
        size(x),
        size(g),
        size(y),
        size(w),
        size(r),
    );
    law_sum_is_near(s.v0, x);
    law_sum_is_near(fadd(s.v0, x), y);
}

} // verus!
