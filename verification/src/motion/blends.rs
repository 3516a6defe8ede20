//! What comes out between two knots, and where limits come from.

use vstd::prelude::*;

#[allow(unused_imports)]
use crate::model::compile::Model;
#[allow(unused_imports)]
use crate::motion::limits::{derived, overridden, JointOverride, LimitsV, MotionLimitsConfig};
#[allow(unused_imports)]
use crate::motion::trajectory::{hermite_at, hermite_weights, mixed};
#[allow(unused_imports)]
use crate::scalar::consts::{MINUS_TWO_BITS, ONE_BITS, THREE_BITS, TWO_BITS};
#[allow(unused_imports)]
use crate::scalar::formula::{off_by, on_scale};
#[allow(unused_imports)]
use crate::scalar::near::{
    close, law_product_is_near, law_product_is_off_by_a_step, size, unit,
};
#[allow(unused_imports)]
use crate::scalar::number::{fadd, feq, fmul, fneg, fsub, mag_units, of_parts};
#[allow(unused_imports)]
use crate::scalar::order::{
    gap, law_products_commute, law_sum_is_near, lemma_add_nothing, lemma_gap_positive,
    lemma_negated, lemma_signed, lemma_sum, lemma_times_nothing, ordinary,
};
#[allow(unused_imports)]
use crate::scalar::Scalar;
#[allow(unused_imports)]
use vstd::arithmetic::power2::pow2;

verus! {

/// The sizes of the first few numbers.
proof fn lemma_few()
    ensures
        size(Scalar { bits: ONE_BITS }) == unit(),
        size(Scalar { bits: TWO_BITS }) == 2 * unit(),
        size(Scalar { bits: MINUS_TWO_BITS }) == 2 * unit(),
        size(Scalar { bits: THREE_BITS }) == 3 * unit(),
        unit() > 0,
{
    let k: nat = 0x10_0000_0000_0000;
    vstd::arithmetic::power2::lemma2_to64();
    vstd::arithmetic::power2::lemma2_to64_rest();
    vstd::arithmetic::power2::lemma_pow2_adds(52, 1022);
    vstd::arithmetic::power2::lemma_pow2_adds(52, 1023);
    vstd::arithmetic::power2::lemma_pow2_adds(51, 1023);
    vstd::arithmetic::power2::lemma_pow2_unfold(1075);
    vstd::arithmetic::power2::lemma_pow2_pos(1074);
    let w = pow2(1023) as int;
    assert(pow2(51) == 0x8_0000_0000_0000);
    assert(THREE_BITS as nat / k == 1024 && THREE_BITS as nat % k == 0x8_0000_0000_0000);
    assert((k + 0x8_0000_0000_0000) * w == 3 * (0x8_0000_0000_0000 * w)) by (nonlinear_arith)
        requires
            k == 0x10_0000_0000_0000,
    ;
}

/// The powers of a share, and the weights that are made of them, are numbers on the scale.
pub open spec fn weights_on_scale(t: Scalar) -> bool {
    let two = Scalar { bits: TWO_BITS };
    let three = Scalar { bits: THREE_BITS };
    let (t2, t3) = (fmul(t, t), fmul(fmul(t, t), t));
    let (h00, h10, h01, h11) = hermite_weights(t);
    &&& on_scale(t, t) && on_scale(t2, t)
    &&& on_scale(two, t3) && on_scale(three, t2) && on_scale(two, t2)
    &&& on_scale(Scalar { bits: MINUS_TWO_BITS }, t3)
    &&& fsub(fmul(two, t3), fmul(three, t2)).finite() && fsub(t3, fmul(two, t2)).finite()
    &&& h00.finite() && h10.finite() && h01.finite() && h11.finite()
}

/// How coarse the numbers are that a weight runs through.
pub open spec fn weight_steps(t: Scalar) -> int {
    let two = Scalar { bits: TWO_BITS };
    let three = Scalar { bits: THREE_BITS };
    let (t2, t3) = (fmul(t, t), fmul(fmul(t, t), t));
    let (h00, h10, h01, h11) = hermite_weights(t);
    gap(fmul(two, t3).mag()) + gap(fmul(three, t2).mag()) + gap(fmul(two, t2).mag()) + gap(
        fmul(Scalar { bits: MINUS_TWO_BITS }, t3).mag(),
    ) + gap(fsub(fmul(two, t3), fmul(three, t2)).mag()) + gap(fsub(t3, fmul(two, t2)).mag()) + gap(
        h00.mag(),
    ) + gap(h10.mag()) + gap(h01.mag()) + gap(h11.mag())
}

/// A whole number times a number is that many of it, up to a step.
proof fn lemma_times(k: Scalar, n: int, x: Scalar)
    requires
        k.units() == n * unit(),
        on_scale(k, x),
        unit() > 0,
    ensures
        -gap(fmul(k, x).mag()) < fmul(k, x).units() - n * x.units() < gap(fmul(k, x).mag()),
{
    law_product_is_off_by_a_step(k, x);
    let (p, g, u, xu) = (fmul(k, x).units(), gap(fmul(k, x).mag()), unit(), x.units());
    assert((n * u) * xu == (n * xu) * u) by (nonlinear_arith);
    let y = n * xu;
    assert(-g < p - y < g) by (nonlinear_arith)
        requires
            -(g * u) < p * u - y * u < g * u,
            u > 0,
    ;
}

/// The weights of two knots and their velocities at a share `t` of the way are
/// `2t^3 - 3t^2 + 1`, `t^3 - 2t^2 + t`, `-2t^3 + 3t^2` and `t^3 - t^2`: by the computed powers
/// of `t`, which are near the exact ones, and up to the steps between the numbers on the way.
pub proof fn law_weights_are_cubics(t: Scalar)
    requires
        weights_on_scale(t),
        t.finite(),
    ensures
        ({
            let (t2, t3) = (fmul(t, t).units(), fmul(fmul(t, t), t).units());
            let (h00, h10, h01, h11) = hermite_weights(t);
            let off = weight_steps(t);
            &&& off_by(h00.units(), 2 * t3 - 3 * t2 + unit(), off)
            &&& off_by(h10.units(), t3 - 2 * t2 + t.units(), off)
            &&& off_by(h01.units(), -2 * t3 + 3 * t2, off)
            &&& off_by(h11.units(), t3 - t2, off)
            &&& off_by(
                t2 * unit(),
                t.units() * t.units(),
                gap(fmul(t, t).mag()) * unit(),
            )
            &&& off_by(
                t3 * unit(),
                t2 * t.units(),
                gap(fmul(fmul(t, t), t).mag()) * unit(),
            )
        }),
{
    let one = Scalar { bits: ONE_BITS };
    let two = Scalar { bits: TWO_BITS };
    let three = Scalar { bits: THREE_BITS };
    let minus = Scalar { bits: MINUS_TWO_BITS };
    let t2 = fmul(t, t);
    let t3 = fmul(t2, t);
    let (h00, h10, h01, h11) = hermite_weights(t);
    lemma_few();
    law_product_is_off_by_a_step(t, t);
    law_product_is_off_by_a_step(t2, t);
    lemma_times(two, 2, t3);
    lemma_times(three, 3, t2);
    lemma_times(two, 2, t2);
    lemma_times(minus, -2, t3);
    let (a, b, c, d) = (fmul(two, t3), fmul(three, t2), fmul(two, t2), fmul(minus, t3));
    lemma_negated(b);
    lemma_negated(c);
    lemma_negated(t2);
    law_sum_is_near(a, fneg(b));
    law_sum_is_near(fsub(a, b), one);
    law_sum_is_near(t3, fneg(c));
    law_sum_is_near(fsub(t3, c), t);
    law_sum_is_near(d, b);
    law_sum_is_near(t3, fneg(t2));
    lemma_gap_positive(a);
    lemma_gap_positive(b);
    lemma_gap_positive(c);
    lemma_gap_positive(d);
    lemma_gap_positive(fsub(a, b));
    lemma_gap_positive(fsub(t3, c));
    lemma_gap_positive(h00);
    lemma_gap_positive(h10);
    lemma_gap_positive(h01);
    lemma_gap_positive(h11);
}

/// What lies between two knots is what their positions and velocities give by the weights, in
/// exact numbers and up to the steps between those on the way.
pub proof fn law_knots_are_blended(
    frac: Scalar,
    h: Scalar,
    p0: Scalar,
    p1: Scalar,
    v0: Scalar,
    v1: Scalar,
)
    requires
        ({
            let (h00, h10, h01, h11) = hermite_weights(frac);
            let (w0, w1) = (fmul(v0, h), fmul(v1, h));
            let (a, b, c, d) = (fmul(h00, p0), fmul(h10, w0), fmul(h01, p1), fmul(h11, w1));
            &&& on_scale(v0, h) && on_scale(v1, h)
            &&& on_scale(h00, p0) && on_scale(h10, w0) && on_scale(h01, p1) && on_scale(h11, w1)
            &&& fadd(a, b).finite() && fadd(fadd(a, b), c).finite()
            &&& hermite_at(frac, h, p0, p1, v0, v1).finite()
        }),
    ensures
        ({
            let (h00, h10, h01, h11) = hermite_weights(frac);
            let (w0, w1) = (fmul(v0, h), fmul(v1, h));
            let (a, b, c, d) = (fmul(h00, p0), fmul(h10, w0), fmul(h01, p1), fmul(h11, w1));
            let r = hermite_at(frac, h, p0, p1, v0, v1);
            let want = h00.units() * p0.units() + h10.units() * w0.units() + h01.units() * p1.units()
                + h11.units() * w1.units();
            let steps = gap(a.mag()) + gap(b.mag()) + gap(c.mag()) + gap(d.mag()) + gap(
                fadd(a, b).mag(),
            ) + gap(fadd(fadd(a, b), c).mag()) + gap(r.mag());
            &&& off_by(r.units() * unit(), want, steps * unit())
            &&& off_by(w0.units() * unit(), v0.units() * h.units(), gap(w0.mag()) * unit())
            &&& off_by(w1.units() * unit(), v1.units() * h.units(), gap(w1.mag()) * unit())
        }),
{
    let (h00, h10, h01, h11) = hermite_weights(frac);
    let (w0, w1) = (fmul(v0, h), fmul(v1, h));
    let (a, b, c, d) = (fmul(h00, p0), fmul(h10, w0), fmul(h01, p1), fmul(h11, w1));
    let (x, y) = (fadd(a, b), fadd(fadd(a, b), c));
    let r = hermite_at(frac, h, p0, p1, v0, v1);
    lemma_few();
    law_product_is_off_by_a_step(v0, h);
    law_product_is_off_by_a_step(v1, h);
    law_product_is_off_by_a_step(h00, p0);
    law_product_is_off_by_a_step(h10, w0);
    law_product_is_off_by_a_step(h01, p1);
    law_product_is_off_by_a_step(h11, w1);
    law_sum_is_near(a, b);
    law_sum_is_near(x, c);
    law_sum_is_near(y, d);
    let u = unit();
    let (ru, au, bu, cu, du) = (r.units(), a.units(), b.units(), c.units(), d.units());
    let g = gap(x.mag()) + gap(y.mag()) + gap(r.mag());
    assert(-(g * u) <= ru * u - (au * u + bu * u + cu * u + du * u) <= g * u) by (nonlinear_arith)
        requires
            -g < ru - (au + bu + cu + du) < g,
            u > 0,
    ;
    let (ga, gb, gc, gd) = (gap(a.mag()), gap(b.mag()), gap(c.mag()), gap(d.mag()));
    let steps = ga + gb + gc + gd + gap(x.mag()) + gap(y.mag()) + gap(r.mag());
    assert(steps * u == ga * u + gb * u + gc * u + gd * u + g * u) by (nonlinear_arith)
        requires
            steps == ga + gb + gc + gd + g,
    ;
}

/// At the first knot the blend is the first position, and at the last the last.
pub proof fn law_blends_meet_the_knots(h: Scalar, p0: Scalar, p1: Scalar, v0: Scalar, v1: Scalar)
    requires
        p0.finite() && p1.finite() && fmul(v0, h).finite() && fmul(v1, h).finite(),
    ensures
        feq(hermite_at(Scalar { bits: 0 }, h, p0, p1, v0, v1), p0),
        feq(hermite_at(Scalar { bits: ONE_BITS }, h, p0, p1, v0, v1), p1),
{
    let z = Scalar { bits: 0 };
    let one = Scalar { bits: ONE_BITS };
    let two = Scalar { bits: TWO_BITS };
    let three = Scalar { bits: THREE_BITS };
    let minus = Scalar { bits: MINUS_TWO_BITS };
    let (w0, w1) = (fmul(v0, h), fmul(v1, h));
    lemma_few();
    assert(mag_units(0) == 0);
    crate::scalar::number::lemma_round_exact(0);
    crate::scalar::number::lemma_round_exact(ONE_BITS as nat);
    assert(of_parts(false, ONE_BITS as nat) == one);
    // At nothing.
    lemma_times_nothing(z, z);
    let s2 = fmul(z, z);
    let s3 = fmul(s2, z);
    lemma_times_nothing(z, s2);
    lemma_times_nothing(two, s3);
    lemma_times_nothing(three, s2);
    lemma_times_nothing(two, s2);
    lemma_times_nothing(minus, s3);
    let (a00, a10, a01, a11) = hermite_weights(z);
    lemma_negated(fmul(three, s2));
    lemma_negated(fmul(two, s2));
    lemma_negated(s2);
    lemma_sum(fmul(two, s3), fneg(fmul(three, s2)));
    lemma_sum(s3, fneg(fmul(two, s2)));
    lemma_sum(fmul(minus, s3), fmul(three, s2));
    lemma_sum(s3, fneg(s2));
    lemma_sum(fsub(fmul(two, s3), fmul(three, s2)), one);
    lemma_sum(fsub(s3, fmul(two, s2)), z);
    assert(a00 == one && a10.mag() == 0 && a01.mag() == 0 && a11.mag() == 0);
    lemma_signed(false, p0);
    lemma_times_nothing(w0, a10);
    lemma_times_nothing(p1, a01);
    lemma_times_nothing(w1, a11);
    lemma_add_nothing(fmul(a00, p0), fmul(a10, w0));
    lemma_add_nothing(fadd(fmul(a00, p0), fmul(a10, w0)), fmul(a01, p1));
    lemma_add_nothing(
        fadd(fadd(fmul(a00, p0), fmul(a10, w0)), fmul(a01, p1)),
        fmul(a11, w1),
    );
    // At one.
    lemma_signed(false, one);
    law_products_commute(one, two);
    law_products_commute(one, three);
    law_products_commute(one, minus);
    lemma_signed(false, two);
    lemma_signed(false, three);
    lemma_signed(false, minus);
    let (b00, b10, b01, b11) = hermite_weights(one);
    lemma_negated(three);
    lemma_negated(two);
    lemma_negated(one);
    assert(fmul(two, one) == two && fmul(three, one) == three && fmul(minus, one) == minus && fmul(one, one)
        == one);
    lemma_sum(two, fneg(three));
    lemma_sum(fsub(two, three), one);
    lemma_sum(one, fneg(two));
    lemma_sum(fsub(one, two), one);
    lemma_sum(minus, three);
    lemma_sum(one, fneg(one));
    assert(fsub(two, three).units() == -unit());
    assert(fsub(one, two).units() == -unit());
    assert(b00.mag() == 0 && b10.mag() == 0 && b11.mag() == 0 && b01 == one);
    lemma_signed(false, p1);
    lemma_times_nothing(p0, b00);
    lemma_times_nothing(w0, b10);
    lemma_times_nothing(w1, b11);
    lemma_add_nothing(fmul(b00, p0), fmul(b10, w0));
    lemma_sum(fadd(fmul(b00, p0), fmul(b10, w0)), fmul(b01, p1));
    lemma_sum(fmul(b01, p1), fadd(fmul(b00, p0), fmul(b10, w0)));
    lemma_add_nothing(fmul(b01, p1), fadd(fmul(b00, p0), fmul(b10, w0)));
    lemma_add_nothing(
        fadd(fadd(fmul(b00, p0), fmul(b10, w0)), fmul(b01, p1)),
        fmul(b11, w1),
    );
}

/// A mix of two values is the one at the start and the other at the end.
pub proof fn law_mixes_meet_their_ends(a: Scalar, b: Scalar)
    requires
        a.finite() && b.finite(),
    ensures
        feq(mixed(a, b, Scalar { bits: 0 }), a),
        feq(mixed(a, b, Scalar { bits: ONE_BITS }), b),
{
    let z = Scalar { bits: 0 };
    let one = Scalar { bits: ONE_BITS };
    lemma_few();
    assert(mag_units(0) == 0);
    crate::scalar::number::lemma_round_exact(0);
    crate::scalar::number::lemma_round_exact(ONE_BITS as nat);
    assert(of_parts(false, ONE_BITS as nat) == one);
    lemma_negated(z);
    lemma_negated(one);
    lemma_sum(one, fneg(z));
    lemma_sum(one, fneg(one));
    assert(fsub(one, z) == one && fsub(one, one).mag() == 0);
    lemma_signed(false, a);
    lemma_signed(false, b);
    lemma_times_nothing(b, z);
    lemma_add_nothing(fmul(one, a), fmul(z, b));
    lemma_times_nothing(a, fsub(one, one));
    let n = fmul(fsub(one, one), a);
    lemma_sum(n, fmul(one, b));
    lemma_sum(fmul(one, b), n);
    lemma_add_nothing(fmul(one, b), n);
}

/// The limits of a joint follow from its velocity limit, or the usual one where it has none: a
/// share of it, and the ratios times that, up to rounding.
pub proof fn law_limits_follow_the_velocity(m: Model, cfg: MotionLimitsConfig, i: int)
    requires
        0 <= i < m.ndof,
        ({
            let top = match m.vel_limit@[i] {
                Some(x) => x,
                None => cfg.default_vel,
            };
            let l = derived(m, cfg);
            &&& top.finite() && cfg.vel_scale.finite() && cfg.accel_ratio.finite()
                && cfg.jerk_ratio.finite()
            &&& ordinary(l.v[i]) && ordinary(l.a[i]) && ordinary(l.j[i])
        }),
    ensures
        ({
            let top = match m.vel_limit@[i] {
                Some(x) => x,
                None => cfg.default_vel,
            };
            let l = derived(m, cfg);
            &&& close(size(cfg.vel_scale) * size(top), size(l.v[i]) * unit(), 1)
            &&& close(size(cfg.accel_ratio) * size(l.v[i]), size(l.a[i]) * unit(), 1)
            &&& close(size(cfg.jerk_ratio) * size(l.a[i]), size(l.j[i]) * unit(), 1)
        }),
{
    let top = match m.vel_limit@[i] {
        Some(x) => x,
        None => cfg.default_vel,
    };
    let l = derived(m, cfg);
    law_product_is_near(cfg.vel_scale, top);
    law_product_is_near(cfg.accel_ratio, l.v[i]);
    law_product_is_near(cfg.jerk_ratio, l.a[i]);
}

/// An override sets the limits that it names, on the joint that it names, and no other.
pub proof fn law_overrides_touch_one_joint(l: LimitsV, o: JointOverride, i: int)
    requires
        0 <= i < l.v.len(),
        l.a.len() == l.v.len() && l.j.len() == l.v.len(),
        o.joint < l.v.len(),
    ensures
        i != o.joint ==> overridden(l, o).v[i] == l.v[i] && overridden(l, o).a[i] == l.a[i]
            && overridden(l, o).j[i] == l.j[i],
        i == o.joint ==> {
            &&& match o.vmax {
                Some(x) => overridden(l, o).v[i] == x,
                None => overridden(l, o).v[i] == l.v[i],
            }
            &&& match o.amax {
                Some(x) => overridden(l, o).a[i] == x,
                None => overridden(l, o).a[i] == l.a[i],
            }
            &&& match o.jmax {
                Some(x) => overridden(l, o).j[i] == x,
                None => overridden(l, o).j[i] == l.j[i],
            }
        },
{
}

} // verus!
