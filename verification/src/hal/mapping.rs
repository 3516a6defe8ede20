//! What numbers on a bus, and numbers of another arm, mean in angles.

use vstd::prelude::*;

#[allow(unused_imports)]
use crate::hal::can_mks::{pulse_angle, pulses_of, PI_BITS, TWO_BITS, TWO_PI_BITS};
#[allow(unused_imports)]
use crate::hal::dynamixel::{tick_angle, ticks_of};
#[allow(unused_imports)]
use crate::hal::teleop::{jogged, mapped, JointMap};
#[allow(unused_imports)]
use crate::scalar::convert::{from_int, round_int, whole};
#[allow(unused_imports)]
use crate::scalar::formula::{law_multiply_add, law_multiply_then_add, off_by, on_scale};
#[allow(unused_imports)]
use crate::scalar::near::{
    close, law_product_is_near, law_quotient_is_near, lemma_close_back, lemma_close_cancelled,
    lemma_close_chain, lemma_close_scaled, size, unit,
};
#[allow(unused_imports)]
use crate::scalar::number::{fdiv, fmul, mag_units};
#[allow(unused_imports)]
use crate::scalar::order::{
    gap, lemma_gap, lemma_of_parts, lemma_round_near, lemma_units_positive, ordinary,
};
#[allow(unused_imports)]
use crate::scalar::rounding::to_mag;
#[allow(unused_imports)]
use crate::scalar::Scalar;
#[allow(unused_imports)]
use vstd::arithmetic::power2::pow2;

verus! {

/// A joint of the follower is where scale and offset put it, by the joint of the leader that
/// it is mapped to: in exact numbers, up to the steps between those on the way.
pub proof fn law_followers_mirror_the_leader(m: JointMap, leader: Seq<Scalar>, i: int)
    requires
        0 <= i < m.perm@.len(),
        m.offset@[i].finite(),
        on_scale(m.scale@[i], leader[m.perm@[i] as int]),
        mapped(m, leader)[i].finite(),
    ensures
        ({
            let r = mapped(m, leader)[i];
            let x = leader[m.perm@[i] as int];
            off_by(
                r.units() * unit(),
                m.scale@[i].units() * x.units() + m.offset@[i].units() * unit(),
                (gap(r.mag()) + gap(fmul(m.scale@[i], x).mag())) * unit(),
            )
        }),
{
    law_multiply_then_add(m.scale@[i], leader[m.perm@[i] as int], m.offset@[i]);
}

/// Jogging moves a joint by its velocity times the tick: in exact numbers, up to the steps
/// between those on the way.
pub proof fn law_jogging_integrates(q: Seq<Scalar>, v: Seq<Scalar>, dt: Scalar, i: int)
    requires
        0 <= i < q.len(),
        i < v.len(),
        q[i].finite(),
        on_scale(v[i], dt),
        jogged(q, v, dt)[i].finite(),
    ensures
        ({
            let r = jogged(q, v, dt)[i];
            off_by(
                r.units() * unit(),
                q[i].units() * unit() + v[i].units() * dt.units(),
                (gap(r.mag()) + gap(fmul(v[i], dt).mag())) * unit(),
            )
        }),
{
    law_multiply_add(q[i], v[i], dt);
}

/// A whole number is near itself.
proof fn lemma_from_int(v: int)
    requires
        v >= 0,
        ordinary(from_int(v)),
    ensures
        close(v * unit(), size(from_int(v)), 1),
        !from_int(v).negative(),
{
    let u = pow2(1074);
    let n = (v as nat) * u;
    lemma_of_parts(false, to_mag(n, 1));
    lemma_round_near(n);
    lemma_gap(from_int(v).mag());
}

/// The nearest whole number is off by no more than a half.
proof fn lemma_rounded(x: Scalar)
    requires
        x.finite() && !x.negative(),
    ensures
        -unit() <= 2 * (round_int(x) * unit() - size(x)) <= unit(),
        round_int(x) >= 0,
{
    let u = pow2(1074);
    let m = mag_units(x.mag());
    vstd::arithmetic::power2::lemma_pow2_pos(1074);
    vstd::arithmetic::div_mod::lemma_fundamental_div_mod(m as int, u as int);
    let w = whole(x.mag());
    assert((w + 1) * u == w * u + u && w * u == u * (m / u)) by (nonlinear_arith)
        requires
            w == m / u,
    ;
}

/// Rounded to a whole number, an angle over a turn, times so many to a turn.
proof fn lemma_counts(u: int, r: int, p2: int, q: int, f: int, n: int, x: int, k: int)
    requires
        u > 0 && r >= 0 && p2 > 0 && q >= 0 && f >= 0 && n >= 0 && x >= 0,
        close(r * u, q * p2, 1),
        close(n * u, f, 1),
        close(q * f, x * u, 1),
        -u <= 2 * (k * u - x) <= u,
    ensures
        off_by(
            2 * (k * p2) * 0x1_0000_0000_0000,
            2 * (r * n) * 0x1_0000_0000_0000,
            p2 * 0x1_0000_0000_0000 + 12 * (r * n),
        ),
{
    let b: int = 0x1_0000_0000_0000;
    let (ru, qp, nu, xu, rn) = (r * u, q * p2, n * u, x * u, r * n);
    assert(qp >= 0 && nu >= 0 && xu >= 0 && rn >= 0 && qp * nu >= 0 && qp * f >= 0 && xu * p2 >= 0)
        by (nonlinear_arith)
        requires
            u > 0 && r >= 0 && p2 > 0 && q >= 0 && f >= 0 && n >= 0 && x >= 0,
            qp == q * p2 && nu == n * u && xu == x * u && rn == r * n,
    ;
    lemma_close_scaled(ru, qp, 1, nu);
    lemma_close_scaled(nu, f, 1, qp);
    assert(nu * qp == qp * nu && f * qp == qp * f) by (nonlinear_arith);
    lemma_close_chain(ru * nu, qp * nu, qp * f, 1, 1);
    lemma_close_scaled(q * f, xu, 1, p2);
    assert((q * f) * p2 == qp * f) by (nonlinear_arith)
        requires
            qp == q * p2,
    ;
    lemma_close_chain(ru * nu, qp * f, xu * p2, 3, 1);
    let xp = x * p2;
    assert(ru * nu == (rn * u) * u && xu * p2 == xp * u) by (nonlinear_arith)
        requires
            ru == r * u && nu == n * u && rn == r * n && xu == x * u && xp == x * p2,
    ;
    lemma_close_cancelled(rn * u, xp, 5, u);
    assert(xp >= 0) by (nonlinear_arith)
        requires
            xp == x * p2,
            x >= 0,
            p2 > 0,
    ;
    lemma_close_back(rn * u, xp, 5);
    let kp = k * p2;
    assert(-(p2 * u) <= 2 * (kp * u - xp) <= p2 * u) by (nonlinear_arith)
        requires
            -u <= 2 * (k * u - x) <= u,
            kp == k * p2,
            xp == x * p2,
            p2 > 0,
    ;
    let ru2 = rn * u;
    assert(-(p2 * u * b + 12 * ru2) <= 2 * (kp * u) * b - 2 * ru2 * b <= p2 * u * b + 12 * ru2);
    assert(-(p2 * b + 12 * rn) <= 2 * kp * b - 2 * rn * b <= p2 * b + 12 * rn) by (nonlinear_arith)
        requires
            -(p2 * u * b + 12 * ru2) <= 2 * (kp * u) * b - 2 * ru2 * b <= p2 * u * b + 12 * ru2,
            ru2 == rn * u,
            u > 0,
    ;
}

/// The numbers of a conversion from an angle are neither tiny nor beyond the scale.
pub open spec fn angle_is_fair(rad: Scalar, per_turn: int) -> bool {
    let q = fdiv(rad, Scalar { bits: TWO_PI_BITS });
    &&& rad.finite() && !rad.negative()
    &&& per_turn > 0 && ordinary(from_int(per_turn))
    &&& ordinary(q) && ordinary(fmul(q, from_int(per_turn)))
}

/// The pulses of an angle are what the angle is of a turn, of those to a turn: to the nearest
/// whole number, up to rounding.
pub proof fn law_pulses_measure_the_angle(rad: Scalar, ppr: int)
    requires
        angle_is_fair(rad, ppr),
        pulses_of(rad, ppr) < i64::MAX,
    ensures
        ({
            let turn = size(Scalar { bits: TWO_PI_BITS });
            off_by(
                2 * (pulses_of(rad, ppr) * turn) * 0x1_0000_0000_0000,
                2 * (size(rad) * ppr) * 0x1_0000_0000_0000,
                turn * 0x1_0000_0000_0000 + 12 * (size(rad) * ppr),
            )
        }),
{
    let two_pi = Scalar { bits: TWO_PI_BITS };
    let q = fdiv(rad, two_pi);
    let f = from_int(ppr);
    let x = fmul(q, f);
    vstd::arithmetic::power2::lemma_pow2_pos(1074);
    law_quotient_is_near(rad, two_pi);
    lemma_from_int(ppr);
    law_product_is_near(q, f);
    lemma_rounded(x);
    lemma_units_positive(two_pi.mag());
    lemma_counts(unit(), size(rad), size(two_pi), size(q), size(f), ppr, size(x), round_int(x));
}

/// The ticks of an angle are half a turn more.
pub proof fn law_ticks_measure_the_angle(rad: Scalar, tpr: int)
    requires
        angle_is_fair(rad, tpr),
        tpr < 0x8000_0000,
        ticks_of(rad, tpr) < i64::MAX,
        pulses_of(rad, tpr) < i64::MAX,
    ensures
        ({
            let turn = size(Scalar { bits: TWO_PI_BITS });
            off_by(
                2 * ((ticks_of(rad, tpr) - tpr / 2) * turn) * 0x1_0000_0000_0000,
                2 * (size(rad) * tpr) * 0x1_0000_0000_0000,
                turn * 0x1_0000_0000_0000 + 12 * (size(rad) * tpr),
            )
        }),
{
    law_pulses_measure_the_angle(rad, tpr);
    let x = fmul(fdiv(rad, Scalar { bits: TWO_PI_BITS }), from_int(tpr));
    law_quotient_is_near(rad, Scalar { bits: TWO_PI_BITS });
    lemma_from_int(tpr);
    law_product_is_near(fdiv(rad, Scalar { bits: TWO_PI_BITS }), from_int(tpr));
    lemma_rounded(x);
}

/// Twice a half turn is a turn.
proof fn lemma_turn()
    ensures
        size(Scalar { bits: TWO_PI_BITS }) == 2 * size(Scalar { bits: PI_BITS }),
{
    let k: nat = 0x10_0000_0000_0000;
    let m = PI_BITS as nat;
    let n = TWO_PI_BITS as nat;
    assert(m / k == 1024 && n / k == 1025 && n % k == m % k);
    vstd::arithmetic::power2::lemma_pow2_unfold(1024);
    let (f, w) = ((k + m % k) as int, pow2(1023) as int);
    assert(f * (2 * w) == 2 * (f * w)) by (nonlinear_arith);
}

/// The numbers of a conversion to an angle are neither tiny nor beyond the scale.
pub open spec fn count_is_fair(count: int, per_turn: int) -> bool {
    let g = fdiv(from_int(count), from_int(per_turn));
    let h = fmul(g, Scalar { bits: TWO_BITS });
    &&& count >= 0 && per_turn > 0
    &&& ordinary(from_int(count)) && ordinary(from_int(per_turn)) && ordinary(g) && ordinary(h)
    &&& ordinary(fmul(h, Scalar { bits: PI_BITS }))
}

proof fn lemma_angle(u: int, c: int, g0: int, n: int, f: int, g: int, h: int, pi: int, a: int)
    requires
        u > 0 && c >= 0 && g0 >= 0 && n >= 0 && f >= 0 && g >= 0 && h >= 0 && pi >= 0 && a >= 0,
        close(c * u, g0, 1),
        close(n * u, f, 1),
        close(g0 * u, g * f, 1),
        close(2 * g, h, 1),
        close(h * pi, a * u, 1),
    ensures
        close(c * (2 * pi), a * n, 12),
{
    let p2 = 2 * pi;
    assert(g0 * u >= 0 && g * f >= 0 && (g * f) * p2 >= 0 && (h * pi) * f >= 0 && (a * u) * f >= 0 && (a * u)
        * (n * u) >= 0 && f >= 0 && n * u >= 0 && a * u >= 0 && p2 >= 0 && pi * f >= 0)
        by (nonlinear_arith)
        requires
            u > 0 && g0 >= 0 && n >= 0 && f >= 0 && g >= 0 && h >= 0 && pi >= 0 && a >= 0,
            p2 == 2 * pi,
    ;
    // c u u p2 ~ g0 u p2 ~ g f p2 ~ h pi f ~ a u f ~ a u n u
    lemma_close_scaled(c * u, g0, 1, u);
    lemma_close_chain((c * u) * u, g0 * u, g * f, 1, 1);
    lemma_close_scaled((c * u) * u, g * f, 3, p2);
    lemma_close_scaled(2 * g, h, 1, pi * f);
    assert((2 * g) * (pi * f) == (g * f) * p2 && h * (pi * f) == (h * pi) * f) by (nonlinear_arith)
        requires
            p2 == 2 * pi,
    ;
    lemma_close_chain(((c * u) * u) * p2, (g * f) * p2, (h * pi) * f, 3, 1);
    lemma_close_scaled(h * pi, a * u, 1, f);
    lemma_close_chain(((c * u) * u) * p2, (h * pi) * f, (a * u) * f, 5, 1);
    lemma_close_back(n * u, f, 1);
    assert(f >= 0);
    lemma_close_scaled(f, n * u, 2, a * u);
    assert(f * (a * u) == (a * u) * f && (n * u) * (a * u) == (a * u) * (n * u)) by (nonlinear_arith);
    lemma_close_chain(((c * u) * u) * p2, (a * u) * f, (a * u) * (n * u), 7, 2);
    assert(((c * u) * u) * p2 == ((c * p2) * u) * u && (a * u) * (n * u) == ((a * n) * u) * u)
        by (nonlinear_arith);
    lemma_close_cancelled((c * p2) * u, (a * n) * u, 10, u);
    lemma_close_cancelled(c * p2, a * n, 10, u);
    assert(a * n >= 0) by (nonlinear_arith)
        requires
            a >= 0 && n >= 0,
    ;
}

/// The angle of so many pulses is what they are of those to a turn, of a turn, up to rounding.
pub proof fn law_pulse_angles_are_shares_of_a_turn(p: int, ppr: int)
    requires
        count_is_fair(p, ppr),
    ensures
        close(
            p * size(Scalar { bits: TWO_PI_BITS }),
            size(pulse_angle(p, ppr)) * ppr,
            12,
        ),
{
    let (c, f) = (from_int(p), from_int(ppr));
    let two = Scalar { bits: TWO_BITS };
    let pi = Scalar { bits: PI_BITS };
    let g = fdiv(c, f);
    let h = fmul(g, two);
    lemma_turn();
    vstd::arithmetic::power2::lemma_pow2_pos(1074);
    lemma_from_int(p);
    lemma_from_int(ppr);
    law_quotient_is_near(c, f);
    law_product_is_near(g, two);
    law_product_is_near(h, pi);
    assert(size(two) == 2 * unit()) by {
        vstd::arithmetic::power2::lemma2_to64();
        vstd::arithmetic::power2::lemma2_to64_rest();
        vstd::arithmetic::power2::lemma_pow2_adds(52, 1023);
        vstd::arithmetic::power2::lemma_pow2_unfold(1075);
    }
    let (gu, u) = (size(g), unit());
    assert(gu * (2 * u) == (2 * gu) * u) by (nonlinear_arith);
    lemma_close_cancelled(2 * size(g), size(h), 1, unit());
    lemma_angle(
        unit(),
        p,
        size(c),
        ppr,
        size(f),
        size(g),
        size(h),
        size(pi),
        size(pulse_angle(p, ppr)),
    );
}

/// The angle of so many ticks is that of half a turn fewer.
pub proof fn law_tick_angles_start_at_half_a_turn(ticks: int, tpr: int)
    requires
        tpr > 0,
    ensures
        tick_angle(ticks, tpr) == pulse_angle(ticks - tpr / 2, tpr),
{
}

} // verus!
