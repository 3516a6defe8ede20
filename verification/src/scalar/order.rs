//! Arithmetic keeps order: what holds of rounded sums, products and quotients.

use vstd::prelude::*;

#[allow(unused_imports)]
use crate::scalar::consts::{HALF_BITS, ONE_BITS, TWO_53_BITS, TWO_BITS};
#[allow(unused_imports)]
use crate::scalar::convert::{from_int, fsignum};
#[allow(unused_imports)]
use crate::scalar::number::{
    fabs, fadd, fdiv, fle, flt, fmul, fneg, fsub, lemma_round_exact, mag_units, nan_value, of_parts,
};
#[allow(unused_imports)]
use crate::scalar::root::{fsqrt, lemma_root_is_finite, root_mag};
#[allow(unused_imports)]
use crate::scalar::rounding::{half_even, lemma_round_scale, round_mag, to_mag, INF_MAG};
#[allow(unused_imports)]
use crate::scalar::Scalar;
#[allow(unused_imports)]
use vstd::arithmetic::power2::pow2;

verus! {

proof fn lemma_half_even_monotone(a: nat, b: nat, d: nat)
    requires
        d > 0,
        a <= b,
    ensures
        a / d <= half_even(a, d) <= a / d + 1,
        half_even(a, d) <= half_even(b, d),
{
    vstd::arithmetic::div_mod::lemma_fundamental_div_mod(a as int, d as int);
    vstd::arithmetic::div_mod::lemma_fundamental_div_mod(b as int, d as int);
    vstd::arithmetic::div_mod::lemma_div_is_ordered(a as int, b as int, d as int);
}

proof fn lemma_round_floor(n: nat, d: nat)
    requires
        d > 0,
        n >= d * 0x10_0000_0000_0000,
    ensures
        round_mag(n, d) >= 0x10_0000_0000_0000,
{
    if n < d * 0x20_0000_0000_0000 {
        lemma_half_even_monotone(n, n, d);
        assert(n / d >= 0x10_0000_0000_0000) by {
            vstd::arithmetic::div_mod::lemma_div_is_ordered(
                (d * 0x10_0000_0000_0000) as int,
                n as int,
                d as int,
            );
            vstd::arithmetic::div_mod::lemma_div_multiples_vanish(
                0x10_0000_0000_0000,
                d as int,
            );
        }
    }
}

/// Rounding keeps order.
pub proof fn lemma_round_monotone(a: nat, b: nat, d: nat)
    requires
        d > 0,
        a <= b,
    ensures
        round_mag(a, d) <= round_mag(b, d),
        to_mag(a, d) <= to_mag(b, d),
    decreases b - d,
{
    if b < d * 0x20_0000_0000_0000 {
        lemma_half_even_monotone(a, b, d);
    } else if a < d * 0x20_0000_0000_0000 {
        lemma_half_even_monotone(a, a, d);
        assert(a / d < 0x20_0000_0000_0000) by {
            vstd::arithmetic::div_mod::lemma_fundamental_div_mod(a as int, d as int);
            assert(a / d < 0x20_0000_0000_0000) by (nonlinear_arith)
                requires
                    a == d * (a / d) + a % d,
                    a % d >= 0,
                    a < d * 0x20_0000_0000_0000,
                    d > 0,
            ;
        }
        lemma_round_floor(b, 2 * d);
    } else {
        lemma_round_monotone(a, b, 2 * d);
    }
}

/// Rounding keeps the order of fractions.
pub proof fn lemma_round_fractions(a: nat, c: nat, b: nat, d: nat)
    requires
        c > 0,
        d > 0,
        a * d <= b * c,
    ensures
        to_mag(a, c) <= to_mag(b, d),
{
    lemma_round_scale(a, c, d);
    lemma_round_scale(b, d, c);
    assert(c * d == d * c && c * d > 0) by (nonlinear_arith)
        requires
            c > 0,
            d > 0,
    ;
    lemma_round_monotone(a * d, b * c, c * d);
}

/// Larger magnitudes are larger values.
pub proof fn lemma_units_monotone(a: nat, b: nat)
    requires
        a <= b < INF_MAG,
    ensures
        mag_units(a) <= mag_units(b),
{
    if mag_units(a) > mag_units(b) {
        lemma_round_exact(a);
        lemma_round_exact(b);
        lemma_round_monotone(mag_units(b), mag_units(a), 1);
        assert(a == b);
    }
}

/// The magnitude with its sign of a sum of so many units.
pub open spec fn sum_key(s: int) -> int {
    if s < 0 {
        -(to_mag((-s) as nat, 1) as int)
    } else {
        to_mag(s as nat, 1) as int
    }
}

pub proof fn lemma_sum_key(a: int, b: int)
    requires
        a <= b,
    ensures
        sum_key(a) <= sum_key(b),
{
    if b < 0 {
        lemma_round_monotone((-b) as nat, (-a) as nat, 1);
    } else if a >= 0 {
        lemma_round_monotone(a as nat, b as nat, 1);
    }
}

pub proof fn lemma_key_units(a: Scalar, b: Scalar)
    requires
        a.finite(),
        b.finite(),
        a.key() <= b.key(),
    ensures
        a.units() <= b.units(),
{
    if a.negative() && b.negative() {
        lemma_units_monotone(b.mag(), a.mag());
    } else if !a.negative() && !b.negative() {
        lemma_units_monotone(a.mag(), b.mag());
    } else if !a.negative() && b.negative() {
        assert(a.mag() == 0 && b.mag() == 0);
    }
}

pub proof fn lemma_of_parts(neg: bool, mag: nat)
    requires
        mag <= INF_MAG,
    ensures
        of_parts(neg, mag).mag() == mag,
        of_parts(neg, mag).negative() == neg,
{
}

/// The sum of finite numbers, by its place on the number line.
pub proof fn lemma_sum(a: Scalar, b: Scalar)
    requires
        a.finite(),
        b.finite(),
    ensures
        !fadd(a, b).nan(),
        fadd(a, b).key() == sum_key(a.units() + b.units()),
{
    reveal(fadd);
    let s = a.units() + b.units();
    if s == 0 {
        assert(mag_units(0) == 0);
        lemma_round_exact(0);
        lemma_of_parts(a.negative() && b.negative(), 0);
    } else if s < 0 {
        lemma_of_parts(true, to_mag((-s) as nat, 1));
    } else {
        lemma_of_parts(false, to_mag(s as nat, 1));
    }
}

/// Adding the same to both keeps order.
pub proof fn law_sums_keep_order(a: Scalar, b: Scalar, c: Scalar)
    requires
        fle(a, b),
        !fadd(a, c).nan(),
        !fadd(b, c).nan(),
    ensures
        fle(fadd(a, c), fadd(b, c)),
{
    if a.finite() && b.finite() && c.finite() {
        lemma_key_units(a, b);
        lemma_sum(a, c);
        lemma_sum(b, c);
        lemma_sum_key(a.units() + c.units(), b.units() + c.units());
    } else {
        reveal(fadd);
        assert(nan_value().nan());
        if a.finite() && c.finite() {
            lemma_sum(a, c);
            assert(b.infinite() && !b.negative());
        } else if b.finite() && c.finite() {
            lemma_sum(b, c);
            assert(a.infinite() && a.negative());
        }
    }
}

/// What is not negative makes nothing smaller.
pub proof fn law_adding_does_not_shrink(a: Scalar, d: Scalar)
    requires
        fle(Scalar { bits: 0 }, d),
        !fadd(a, d).nan(),
    ensures
        !a.nan(),
        fle(a, fadd(a, d)),
{
    reveal(fadd);
    assert(nan_value().nan());
    if a.finite() && d.finite() {
        assert(d.units() >= 0);
        lemma_sum(a, d);
        lemma_sum_key(a.units(), a.units() + d.units());
        lemma_round_exact(a.mag());
    }
}

/// A root is no negative number.
pub proof fn law_roots_are_not_negative(a: Scalar)
    ensures
        fsqrt(a).nan() || fle(Scalar { bits: 0 }, fsqrt(a)),
{
    reveal(fsqrt);
    assert(nan_value().nan());
    if a.finite() {
        lemma_root_is_finite(a.mag());
        lemma_of_parts(false, root_mag(mag_units(a.mag()) * pow2(1074), 1));
    }
}

/// Products of what is not negative keep order.
pub proof fn law_products_keep_order(a: Scalar, b: Scalar, c: Scalar)
    requires
        fle(Scalar { bits: 0 }, a),
        fle(a, b),
        fle(Scalar { bits: 0 }, c),
        a.finite(),
        b.finite(),
        c.finite(),
    ensures
        fle(fmul(a, c), fmul(b, c)),
        fle(Scalar { bits: 0 }, fmul(a, c)),
{
    reveal(fmul);
    let w = pow2(1074);
    vstd::arithmetic::power2::lemma_pow2_pos(1074);
    lemma_units_monotone(a.mag(), b.mag());
    let (x, y, z) = (mag_units(a.mag()), mag_units(b.mag()), mag_units(c.mag()));
    assert(x * z <= y * z) by (nonlinear_arith)
        requires
            x <= y,
    ;
    lemma_round_monotone(x * z, y * z, w);
    assert(mag_units(0) == 0);
    if a.mag() == 0 || c.mag() == 0 {
        assert(x * z == 0) by (nonlinear_arith)
            requires
                x == 0 || z == 0,
        ;
        assert(round_mag(0, w) == 0) by {
            assert(0nat / w == 0 && 0nat % w == 0) by {
                vstd::arithmetic::div_mod::lemma_fundamental_div_mod_converse(
                    0,
                    w as int,
                    0,
                    0,
                );
            }
        }
    }
    if b.mag() == 0 || c.mag() == 0 {
        assert(y * z == 0) by (nonlinear_arith)
            requires
                y == 0 || z == 0,
        ;
        assert(round_mag(0, w) == 0) by {
            assert(0nat / w == 0 && 0nat % w == 0) by {
                vstd::arithmetic::div_mod::lemma_fundamental_div_mod_converse(
                    0,
                    w as int,
                    0,
                    0,
                );
            }
        }
    }
    lemma_of_parts(a.negative() != c.negative(), to_mag(x * z, w));
    lemma_of_parts(b.negative() != c.negative(), to_mag(y * z, w));
}

pub proof fn lemma_units_positive(m: nat)
    requires
        0 < m < INF_MAG,
    ensures
        mag_units(m) > 0,
{
    lemma_round_exact(m);
    lemma_round_exact(0);
    assert(mag_units(0) == 0);
}

/// Quotients by the same divisor keep order.
pub proof fn law_quotients_keep_order(a: Scalar, b: Scalar, c: Scalar)
    requires
        fle(Scalar { bits: 0 }, a),
        fle(a, b),
        flt(Scalar { bits: 0 }, c),
        b.finite(),
        c.finite(),
    ensures
        fle(fdiv(a, c), fdiv(b, c)),
        fle(Scalar { bits: 0 }, fdiv(a, c)),
{
    reveal(fdiv);
    let w = pow2(1074);
    lemma_units_monotone(a.mag(), b.mag());
    lemma_units_positive(c.mag());
    let (x, y, d) = (mag_units(a.mag()), mag_units(b.mag()), mag_units(c.mag()));
    assert(x * w <= y * w) by (nonlinear_arith)
        requires
            x <= y,
    ;
    lemma_round_monotone(x * w, y * w, d);
    assert(mag_units(0) == 0);
    assert(0 * w == 0);
    assert(round_mag(0, d) == 0) by {
        vstd::arithmetic::div_mod::lemma_fundamental_div_mod_converse(0, d as int, 0, 0);
        assert(0 < d * 0x20_0000_0000_0000);
    }
    lemma_of_parts(a.negative() != c.negative(), to_mag(x * w, d));
    lemma_of_parts(b.negative() != c.negative(), to_mag(y * w, d));
}

/// A whole number below `2^53`, over `2^53`, is in `[0, 1)`.
pub proof fn lemma_unit_fraction(k: nat)
    requires
        k < 0x20_0000_0000_0000,
    ensures
        ({
            let u = fdiv(from_int(k as int), Scalar { bits: TWO_53_BITS });
            fle(Scalar { bits: 0 }, u) && flt(u, Scalar { bits: ONE_BITS })
        }),
{
    reveal(fdiv);
    let w = pow2(1074);
    vstd::arithmetic::power2::lemma2_to64();
    vstd::arithmetic::power2::lemma2_to64_rest();
    vstd::arithmetic::power2::lemma_pow2_pos(1074);
    vstd::arithmetic::power2::lemma_pow2_pos(1021);
    vstd::arithmetic::power2::lemma_pow2_adds(1021, 53);
    let top: nat = 0x1F_FFFF_FFFF_FFFF;
    let x = from_int(k as int);
    assert(mag_units(0x433F_FFFF_FFFF_FFFF) == top * w);
    lemma_round_exact(0x433F_FFFF_FFFF_FFFF);
    assert(k * w <= top * w) by (nonlinear_arith)
        requires
            k <= top,
    ;
    lemma_round_monotone(k * w, top * w, 1);
    lemma_of_parts(false, to_mag(k * w, 1));
    assert(x.mag() <= 0x433F_FFFF_FFFF_FFFF);
    lemma_units_monotone(x.mag(), 0x433F_FFFF_FFFF_FFFF);
    let y = mag_units(x.mag());
    let d = mag_units(TWO_53_BITS as nat);
    assert(d == 0x10_0000_0000_0000 * pow2(1075));
    vstd::arithmetic::power2::lemma_pow2_unfold(1075);
    assert(d == 0x20_0000_0000_0000 * w);
    let one = mag_units(0x3FEF_FFFF_FFFF_FFFF);
    assert(one == top * pow2(1021));
    lemma_round_exact(0x3FEF_FFFF_FFFF_FFFF);
    let v = pow2(1021);
    assert(y * w * 1 <= one * d) by (nonlinear_arith)
        requires
            y <= top * w,
            one == top * v,
            d == 0x20_0000_0000_0000 * w,
            w == v * 0x20_0000_0000_0000,
            v > 0,
    ;
    lemma_round_fractions(y * w, d, one, 1);
    lemma_of_parts(false, to_mag(y * w, d));
}

/// Factors can change places.
pub proof fn law_products_commute(a: Scalar, b: Scalar)
    ensures
        fmul(a, b) == fmul(b, a),
{
    reveal(fmul);
    let (x, y) = (mag_units(a.mag()), mag_units(b.mag()));
    assert(x * y == y * x) by (nonlinear_arith);
}

/// Taking away more leaves less.
pub proof fn law_differences_reverse_order(c: Scalar, a: Scalar, b: Scalar)
    requires
        a.finite(),
        b.finite(),
        c.finite(),
        fle(a, b),
    ensures
        fle(fsub(c, b), fsub(c, a)),
{
    lemma_of_parts(!a.negative(), a.mag());
    lemma_of_parts(!b.negative(), b.mag());
    assert(mag_units(0) == 0);
    lemma_key_units(fneg(b), fneg(a));
    lemma_sum(c, fneg(a));
    lemma_sum(c, fneg(b));
    lemma_sum_key(c.units() + fneg(b).units(), c.units() + fneg(a).units());
}

/// One less one is zero, one by one is one.
pub proof fn lemma_ones()
    ensures
        fle(Scalar { bits: 0 }, fsub(Scalar { bits: ONE_BITS }, Scalar { bits: ONE_BITS })),
        fmul(Scalar { bits: ONE_BITS }, Scalar { bits: ONE_BITS }) == (Scalar { bits: ONE_BITS }),
{
    let one = Scalar { bits: ONE_BITS };
    let w = pow2(1074);
    vstd::arithmetic::power2::lemma2_to64();
    vstd::arithmetic::power2::lemma2_to64_rest();
    vstd::arithmetic::power2::lemma_pow2_pos(1074);
    vstd::arithmetic::power2::lemma_pow2_adds(52, 1022);
    lemma_of_parts(true, one.mag());
    lemma_sum(one, fneg(one));
    lemma_round_exact(0);
    assert(mag_units(0) == 0);
    reveal(fmul);
    assert(mag_units(ONE_BITS as nat) == 0x10_0000_0000_0000 * pow2(1022));
    assert(mag_units(ONE_BITS as nat) == w);
    lemma_round_exact(ONE_BITS as nat);
    lemma_round_scale(w, 1, w);
    assert(1 * w == w);
}

/// A positive number over itself is one.
pub proof fn lemma_over_itself(a: Scalar)
    requires
        a.finite(),
        flt(Scalar { bits: 0 }, a),
    ensures
        fdiv(a, a) == (Scalar { bits: ONE_BITS }),
{
    reveal(fdiv);
    let w = pow2(1074);
    let u = mag_units(a.mag());
    vstd::arithmetic::power2::lemma2_to64();
    vstd::arithmetic::power2::lemma2_to64_rest();
    vstd::arithmetic::power2::lemma_pow2_pos(1074);
    vstd::arithmetic::power2::lemma_pow2_adds(52, 1022);
    lemma_units_positive(a.mag());
    assert(mag_units(ONE_BITS as nat) == 0x10_0000_0000_0000 * pow2(1022));
    lemma_round_exact(ONE_BITS as nat);
    lemma_round_scale(w, 1, u);
    assert(u * w == w * u) by (nonlinear_arith);
    assert(1 * u == u);
}

/// A number less nothing is itself.
pub proof fn lemma_less_nothing(a: Scalar)
    requires
        a.finite(),
        a.mag() > 0,
    ensures
        fsub(a, Scalar { bits: 0 }) == a,
{
    reveal(fadd);
    let z = fneg(Scalar { bits: 0 });
    lemma_of_parts(true, 0);
    assert(mag_units(0) == 0);
    lemma_units_positive(a.mag());
    lemma_round_exact(a.mag());
    assert(z.units() == 0);
}

/// One, with a sign, times a number: the number with that sign on top.
pub proof fn lemma_signed(neg: bool, a: Scalar)
    requires
        a.finite(),
    ensures
        fmul(of_parts(neg, ONE_BITS as nat), a) == of_parts(neg != a.negative(), a.mag()),
{
    reveal(fmul);
    let w = pow2(1074);
    let u = mag_units(a.mag());
    vstd::arithmetic::power2::lemma2_to64();
    vstd::arithmetic::power2::lemma2_to64_rest();
    vstd::arithmetic::power2::lemma_pow2_pos(1074);
    vstd::arithmetic::power2::lemma_pow2_adds(52, 1022);
    lemma_of_parts(neg, ONE_BITS as nat);
    assert(mag_units(ONE_BITS as nat) == 0x10_0000_0000_0000 * pow2(1022));
    lemma_round_exact(a.mag());
    lemma_round_scale(u, 1, w);
    assert(w * u == u * w) by (nonlinear_arith);
    assert(1 * w == w);
}

/// Distance between the neighbours of a magnitude, in units.
pub open spec fn gap(m: nat) -> int {
    mag_units(m + 1) - mag_units(
        if m == 0 {
            0
        } else {
            (m - 1) as nat
        },
    )
}

/// Rounding moves a value by less than the distance between neighbours.
pub proof fn lemma_round_near(n: nat)
    requires
        to_mag(n, 1) < INF_MAG,
    ensures
        -gap(to_mag(n, 1)) < mag_units(to_mag(n, 1)) - n < gap(to_mag(n, 1)),
{
    let r = to_mag(n, 1);
    lemma_round_exact(r);
    if r + 1 < INF_MAG {
        lemma_round_exact(r + 1);
        if n >= mag_units(r + 1) {
            lemma_round_monotone(mag_units(r + 1), n, 1);
        }
        lemma_units_monotone(r, r + 1);
    } else {
        lemma_last_octave(n);
    }
    if r > 0 {
        let b = (r - 1) as nat;
        lemma_round_exact(b);
        lemma_units_monotone(b, r);
        if n <= mag_units(b) {
            lemma_round_monotone(n, mag_units(b), 1);
        }
    }
}

/// What rounds to a finite number is below the end of the last octave.
proof fn lemma_last_octave(n: nat)
    requires
        to_mag(n, 1) == INF_MAG - 1,
    ensures
        n < mag_units(INF_MAG as nat),
        mag_units((INF_MAG - 1) as nat) <= mag_units(INF_MAG as nat),
{
    let w = pow2(2045);
    vstd::arithmetic::power2::lemma2_to64();
    vstd::arithmetic::power2::lemma_pow2_pos(2045);
    vstd::arithmetic::power2::lemma_pow2_unfold(2046);
    assert(mag_units((INF_MAG - 1) as nat) == 0x1F_FFFF_FFFF_FFFF * w);
    assert(mag_units(INF_MAG as nat) == 0x10_0000_0000_0000 * pow2(2046));
    let top = 0x20_0000_0000_0000 * w;
    if n >= top {
        lemma_round_monotone(top, n, 1);
        crate::scalar::rounding::lemma_round_octave(top, 1, 2046);
        vstd::arithmetic::div_mod::lemma_fundamental_div_mod_converse(
            top as int,
            pow2(2046) as int,
            0x10_0000_0000_0000,
            0,
        );
        assert(false);
    }
}

/// The difference of finite numbers, by its place on the number line.
pub proof fn lemma_difference(a: Scalar, b: Scalar)
    requires
        a.finite(),
        b.finite(),
    ensures
        !fsub(a, b).nan(),
        fsub(a, b).key() == sum_key(a.units() - b.units()),
{
    lemma_of_parts(!b.negative(), b.mag());
    lemma_sum(a, fneg(b));
}

/// A step toward a number that is shorter than the way there ends between the two.
pub proof fn law_short_steps_stay_between(p: Scalar, t: Scalar, step: Scalar)
    requires
        p.finite(),
        t.finite(),
        step.key() >= 0,
        flt(step, fabs(fsub(t, p))),
    ensures
        ({
            let out = fadd(p, fmul(fsignum(fsub(t, p)), step));
            &&& out.finite()
            &&& (fle(p, out) && fle(out, t)) || (fle(t, out) && fle(out, p))
            &&& -(step.units() + gap(out.mag())) < out.units() - p.units() < step.units() + gap(
                out.mag(),
            )
        }),
{
    let d = fsub(t, p);
    let way = t.units() - p.units();
    lemma_difference(t, p);
    lemma_of_parts(false, d.mag());
    assert(mag_units(0) == 0);
    lemma_round_exact(0);
    let neg = d.negative();
    let length = if way < 0 {
        (-way) as nat
    } else {
        way as nat
    };
    assert(d.mag() == to_mag(length, 1));
    assert(step.finite());
    let u = mag_units(step.mag());
    assert(step.units() == u);
    assert(u <= length) by {
        if u > length {
            lemma_round_exact(step.mag());
            lemma_round_monotone(length, u, 1);
        }
    }
    lemma_signed(neg, step);
    let s = fmul(fsignum(d), step);
    lemma_of_parts(neg != step.negative(), step.mag());
    assert(s.finite());
    assert(s.units() == (if neg {
        -(u as int)
    } else {
        u as int
    }));
    lemma_sum(p, s);
    let out = fadd(p, s);
    let sum = p.units() + s.units();
    assert(sum_key(p.units()) == p.key()) by {
        lemma_round_exact(p.mag());
    }
    assert(sum_key(t.units()) == t.key()) by {
        lemma_round_exact(t.mag());
    }
    if neg {
        assert(way < 0);
        lemma_sum_key(t.units(), sum);
        lemma_sum_key(sum, p.units());
    } else {
        assert(way >= 0);
        lemma_sum_key(p.units(), sum);
        lemma_sum_key(sum, t.units());
    }
    if sum < 0 {
        lemma_round_near((-sum) as nat);
        assert(out.mag() == to_mag((-sum) as nat, 1));
        assert(out.units() == -mag_units(out.mag()));
    } else {
        lemma_round_near(sum as nat);
        assert(out.mag() == to_mag(sum as nat, 1));
        assert(out.units() == mag_units(out.mag()));
    }
}

/// A difference is off by less than the distance between its neighbours.
pub proof fn law_difference_is_near(a: Scalar, b: Scalar)
    requires
        a.finite(),
        b.finite(),
        fsub(a, b).finite(),
    ensures
        -(mag_units(fsub(a, b).mag()) + gap(fsub(a, b).mag())) < a.units() - b.units() < mag_units(
            fsub(a, b).mag(),
        ) + gap(fsub(a, b).mag()),
{
    let s = a.units() - b.units();
    lemma_difference(a, b);
    if s < 0 {
        lemma_round_near((-s) as nat);
    } else {
        lemma_round_near(s as nat);
    }
}

/// Times nothing is nothing.
pub proof fn lemma_no_product(a: Scalar, h: Scalar)
    requires
        h.mag() == 0,
        !fmul(a, h).nan(),
    ensures
        fmul(a, h).mag() == 0,
{
    reveal(fmul);
    let w = pow2(1074);
    vstd::arithmetic::power2::lemma_pow2_pos(1074);
    assert(nan_value().nan());
    assert(mag_units(0) == 0);
    assert(mag_units(a.mag()) * 0 == 0) by (nonlinear_arith);
    vstd::arithmetic::div_mod::lemma_fundamental_div_mod_converse(0, w as int, 0, 0);
    assert(to_mag(0, w) == 0);
    lemma_of_parts(a.negative() != h.negative(), 0);
}

/// Adding nothing changes nothing.
pub proof fn lemma_add_nothing(a: Scalar, z: Scalar)
    requires
        a.finite(),
        z.mag() == 0,
    ensures
        fadd(a, z).finite(),
        fadd(a, z).key() == a.key(),
{
    assert(mag_units(0) == 0);
    lemma_sum(a, z);
    lemma_round_exact(a.mag());
}

/// What is not negative has no sign to lose.
pub proof fn lemma_absolute(a: Scalar)
    ensures
        fabs(a).mag() == a.mag(),
        fabs(a).nan() == a.nan(),
        fabs(a).finite() == a.finite(),
        !a.nan() ==> fabs(a).key() == (if a.key() < 0 {
            -a.key()
        } else {
            a.key()
        }),
{
}

/// The size of a product is the product of the sizes.
pub proof fn lemma_absolute_product(a: Scalar, b: Scalar)
    requires
        a.finite(),
        b.finite(),
    ensures
        fabs(fmul(a, b)) == fmul(fabs(a), fabs(b)),
{
    reveal(fmul);
    let m = to_mag(mag_units(a.mag()) * mag_units(b.mag()), pow2(1074));
    lemma_of_parts(a.negative() != b.negative(), m);
    lemma_of_parts(false, m);
}

/// A finite number times nothing is nothing.
pub proof fn lemma_times_nothing(a: Scalar, z: Scalar)
    requires
        a.finite(),
        z.mag() == 0,
    ensures
        fmul(a, z).mag() == 0,
        fmul(z, a).mag() == 0,
{
    assert(!fmul(a, z).nan()) by {
        reveal(fmul);
        let m = to_mag(mag_units(a.mag()) * mag_units(z.mag()), pow2(1074));
        assert(m <= INF_MAG);
        lemma_of_parts(a.negative() != z.negative(), m);
    }
    lemma_no_product(a, z);
    law_products_commute(a, z);
}

/// Half of a finite number is finite.
pub proof fn lemma_half_is_finite(a: Scalar)
    requires
        a.finite(),
    ensures
        fmul(Scalar { bits: HALF_BITS }, a).finite(),
{
    let h = Scalar { bits: HALF_BITS };
    let one = Scalar { bits: ONE_BITS };
    let b = fabs(a);
    lemma_absolute(a);
    assert(fabs(h) == h);
    lemma_absolute_product(h, a);
    law_products_keep_order(h, one, b);
    assert(of_parts(false, ONE_BITS as nat) == one);
    lemma_signed(false, b);
    lemma_absolute(fmul(h, a));
}

/// A sum of nothing is nothing.
pub proof fn lemma_no_sum_key()
    ensures
        sum_key(0) == 0,
{
    assert(mag_units(0) == 0);
    lemma_round_exact(0);
}

/// Nothing less a number is the number the other way.
pub proof fn lemma_nothing_less(p: Scalar)
    requires
        p.finite(),
    ensures
        fsub(Scalar { bits: 0 }, p).key() == -p.key(),
{
    let z = Scalar { bits: 0 };
    assert(mag_units(0) == 0);
    lemma_difference(z, p);
    lemma_round_exact(p.mag());
}

/// Nothing shared out is nothing.
pub proof fn lemma_nothing_over(z: Scalar, c: Scalar)
    requires
        z.mag() == 0,
        c.finite(),
        c.mag() > 0,
    ensures
        fdiv(z, c).mag() == 0,
{
    reveal(fdiv);
    lemma_units_positive(c.mag());
    let d = mag_units(c.mag());
    assert(mag_units(0) == 0);
    assert(0 * pow2(1074) == 0);
    vstd::arithmetic::div_mod::lemma_fundamental_div_mod_converse(0, d as int, 0, 0);
    assert(to_mag(0, d) == 0);
    lemma_of_parts(z.negative() != c.negative(), 0);
}

/// A rounded fraction is near the fraction.
pub proof fn lemma_round_fraction_near(n: nat, d: nat)
    requires
        d > 0,
        to_mag(n, d) + 1 < INF_MAG,
    ensures
        -gap(to_mag(n, d)) * d < mag_units(to_mag(n, d)) * d - n < gap(to_mag(n, d)) * d,
{
    let r = to_mag(n, d);
    let up = mag_units(r + 1);
    let at = mag_units(r);
    lemma_round_exact(r);
    lemma_round_exact(r + 1);
    lemma_units_monotone(r, r + 1);
    if n >= up * d {
        lemma_round_fractions(up, 1, n, d);
    }
    let down = mag_units(
        if r == 0 {
            0
        } else {
            (r - 1) as nat
        },
    );
    if r > 0 {
        let b = (r - 1) as nat;
        lemma_round_exact(b);
        lemma_units_monotone(b, r);
        if n <= down * d {
            lemma_round_fractions(n, d, down, 1);
        }
        assert(n > down * d);
    } else {
        assert(mag_units(0) == 0);
        assert(down * d == 0) by (nonlinear_arith)
            requires
                down == 0,
        ;
    }
    assert(n < up * d);
    assert(down <= at <= up);
    let g = up - down;
    assert(gap(r) == g);
    assert(at * d - n < g * d && at * d - n > -g * d) by (nonlinear_arith)
        requires
            down <= at <= up,
            down * d <= n < up * d,
            n > down * d || at == 0,
            g == up - down,
            d > 0,
            at < up,
    ;
}

/// The grid is fine: around a number that is not tiny, its steps are small parts of it.
pub proof fn lemma_gap(m: nat)
    requires
        0x10_0000_0000_0000 <= m,
        m + 1 < INF_MAG,
    ensures
        0 < gap(m),
        gap(m) * 0x8_0000_0000_0000 <= mag_units(m),
{
    let k: nat = 0x10_0000_0000_0000;
    let e = (m / k - 1) as nat;
    let f = m % k;
    let w = pow2(e);
    vstd::arithmetic::power2::lemma_pow2_pos(e);
    vstd::arithmetic::power2::lemma_pow2_unfold(e + 1);
    vstd::arithmetic::div_mod::lemma_fundamental_div_mod(m as int, k as int);
    assert(mag_units(m) == (k + f) * w);
    assert(mag_units(m + 1) == (k + f + 1) * w) by {
        if f + 1 < k {
            assert((m + 1) / k == m / k && (m + 1) % k == f + 1);
        } else {
            assert((m + 1) / k == m / k + 1 && (m + 1) % k == 0);
            assert(mag_units(m + 1) == k * pow2(e + 1));
            assert(k * (2 * w) == (k + f + 1) * w) by (nonlinear_arith)
                requires
                    f + 1 == k,
            ;
        }
    }
    let b = (m - 1) as nat;
    assert((k + f - 1) * w <= mag_units(b) <= (k + f) * w) by {
        if f > 0 {
            assert(b / k == m / k && b % k == f - 1);
            assert((k + f - 1) * w <= (k + f) * w) by (nonlinear_arith);
        } else if e == 0 {
            vstd::arithmetic::power2::lemma2_to64();
            assert(b == k - 1);
        } else {
            assert(b / k == m / k - 1 && b % k == k - 1);
            let h = pow2((e - 1) as nat);
            vstd::arithmetic::power2::lemma_pow2_unfold(e);
            assert(mag_units(b) == (k + (k - 1)) * h);
            assert((k + f - 1) * w <= (k + (k - 1)) * h <= (k + f) * w) by (nonlinear_arith)
                requires
                    f == 0,
                    w == 2 * h,
                    k == 0x10_0000_0000_0000,
            ;
        }
    }
    let lo = mag_units(b);
    let g = gap(m);
    assert(g == (k + f + 1) * w - lo);
    assert(0 < g && g * 0x8_0000_0000_0000 <= (k + f) * w) by (nonlinear_arith)
        requires
            g == (k + f + 1) * w - lo,
            (k + f - 1) * w <= lo <= (k + f) * w,
            k == 0x10_0000_0000_0000,
            f >= 0,
            w > 0,
    ;
}

/// A number that is not tiny, and not at the end of the scale.
pub open spec fn ordinary(a: Scalar) -> bool {
    0x10_0000_0000_0000 <= a.mag() < INF_MAG - 1
}

/// What is shared out and taken together again is what it was, up to rounding.
pub proof fn law_shares_make_the_whole(x: Scalar, d: Scalar)
    requires
        x.finite(),
        d.finite() && d.mag() > 0,
        ordinary(fdiv(x, d)),
        ordinary(fmul(d, fdiv(x, d))),
    ensures
        ({
            let whole = mag_units(fmul(d, fdiv(x, d)).mag());
            let was = mag_units(x.mag());
            -was <= (whole - was) * 0x2_0000_0000_0000 <= was
        }),
{
    let u = pow2(1074);
    vstd::arithmetic::power2::lemma_pow2_pos(1074);
    let q = fdiv(x, d);
    let p = fmul(d, q);
    let xu = mag_units(x.mag());
    let du = mag_units(d.mag());
    let qu = mag_units(q.mag());
    let pu = mag_units(p.mag());
    lemma_units_positive(d.mag());
    assert(q.mag() == to_mag(xu * u, du)) by {
        reveal(fdiv);
        lemma_of_parts(x.negative() != d.negative(), to_mag(xu * u, du));
        lemma_of_parts(x.negative() != d.negative(), 0);
        lemma_of_parts(x.negative() != d.negative(), INF_MAG as nat);
        assert(nan_value().nan());
        if x.mag() == 0 {
            assert(mag_units(0) == 0);
            assert(0 * u == 0);
        }
    }
    assert(p.mag() == to_mag(du * qu, u)) by {
        reveal(fmul);
        lemma_of_parts(d.negative() != q.negative(), to_mag(du * qu, u));
    }
    lemma_round_fraction_near(xu * u, du);
    lemma_round_fraction_near(du * qu, u);
    lemma_gap(q.mag());
    lemma_gap(p.mag());
    let gq = gap(q.mag());
    let gp = gap(p.mag());
    // Twice rounded, each time by a small part.
    assert(-(qu * du) <= (qu * du - xu * u) * 0x8_0000_0000_0000 <= qu * du) by (nonlinear_arith)
        requires
            -gq * du < qu * du - xu * u < gq * du,
            gq * 0x8_0000_0000_0000 <= qu,
            du > 0,
    ;
    assert(-(pu * u) <= (pu * u - du * qu) * 0x8_0000_0000_0000 <= pu * u) by (nonlinear_arith)
        requires
            -gp * u < pu * u - du * qu < gp * u,
            gp * 0x8_0000_0000_0000 <= pu,
            u > 0,
    ;
    let a = pu * u;
    let m = qu * du;
    let c = xu * u;
    assert(du * qu == m) by (nonlinear_arith)
        requires
            m == qu * du,
    ;
    assert(-c <= (a - c) * 0x2_0000_0000_0000 <= c);
    assert(-xu <= (pu - xu) * 0x2_0000_0000_0000 <= xu) by (nonlinear_arith)
        requires
            a == pu * u,
            c == xu * u,
            -c <= (a - c) * 0x2_0000_0000_0000 <= c,
            u > 0,
    ;
}

/// A rounded sum is near the sum.
pub proof fn law_sum_is_near(a: Scalar, b: Scalar)
    requires
        a.finite(),
        b.finite(),
        fadd(a, b).finite(),
    ensures
        -gap(fadd(a, b).mag()) < fadd(a, b).units() - (a.units() + b.units()) < gap(
            fadd(a, b).mag(),
        ),
{
    let s = a.units() + b.units();
    lemma_sum(a, b);
    assert(mag_units(0) == 0);
    if s < 0 {
        lemma_round_near((-s) as nat);
    } else {
        lemma_round_near(s as nat);
    }
}

/// Doubling is exact.
pub proof fn lemma_double(t: Scalar)
    requires
        t.finite(),
        fmul(Scalar { bits: TWO_BITS }, t).finite(),
    ensures
        fmul(Scalar { bits: TWO_BITS }, t).units() == 2 * t.units(),
{
    let two = Scalar { bits: TWO_BITS };
    let u = pow2(1074);
    let k: nat = 0x10_0000_0000_0000;
    let m = t.mag();
    let x = mag_units(m);
    vstd::arithmetic::power2::lemma_pow2_pos(1074);
    vstd::arithmetic::power2::lemma2_to64();
    assert(mag_units(TWO_BITS as nat) == k * pow2(1023));
    assert(k * pow2(1023) == 2 * u) by {
        vstd::arithmetic::power2::lemma_pow2_adds(52, 1023);
        vstd::arithmetic::power2::lemma2_to64_rest();
        vstd::arithmetic::power2::lemma_pow2_unfold(1075);
    }
    let n = mag_units(TWO_BITS as nat) * x;
    assert(n == (2 * x) * u && u == 1 * u) by (nonlinear_arith)
        requires
            n == (2 * u) * x,
    ;
    lemma_round_scale(2 * x, 1, u);
    assert(fmul(two, t).mag() == to_mag(2 * x, 1)) by {
        reveal(fmul);
        lemma_of_parts(two.negative() != t.negative(), to_mag(n, u));
    }
    assert(fmul(two, t).negative() == t.negative()) by {
        reveal(fmul);
        lemma_of_parts(two.negative() != t.negative(), to_mag(n, u));
    }
    crate::scalar::number::lemma_decode(m);
    lemma_round_exact(m);
    if m < k {
        assert(x == m);
        assert(round_mag(2 * x, 1) == 2 * m);
        if 2 * m >= k {
            assert((2 * m) / k == 1 && (2 * m) % k == 2 * m - k);
            assert((k + (2 * m - k)) * pow2(0) == 2 * m);
        }
        assert(mag_units(2 * m) == 2 * m);
    } else {
        let e = (m / k - 1) as nat;
        let f = m % k;
        vstd::arithmetic::power2::lemma_pow2_pos(e);
        assert(x >= k) by (nonlinear_arith)
            requires
                x == (k + f) * pow2(e),
                pow2(e) >= 1,
                f >= 0,
        ;
        crate::scalar::rounding::lemma_round_double(x, 1, 1);
        assert(pow2(1) == 2);
        assert(round_mag(2 * x, 1) == k + round_mag(x, 1));
        assert((m + k) / k == m / k + 1 && (m + k) % k == f);
        vstd::arithmetic::power2::lemma_pow2_unfold(e + 1);
        assert(mag_units(m + k) == (k + f) * pow2(e + 1));
        assert((k + f) * (2 * pow2(e)) == 2 * ((k + f) * pow2(e))) by (nonlinear_arith);
    }
}

/// The grid has steps everywhere.
pub proof fn lemma_gap_positive(a: Scalar)
    requires
        a.finite(),
    ensures
        gap(a.mag()) > 0,
{
    lemma_round_exact(a.mag());
    lemma_round_near(mag_units(a.mag()));
}

/// The other way, by as much.
pub proof fn lemma_negated(a: Scalar)
    ensures
        fneg(a).finite() == a.finite(),
        fneg(a).units() == -a.units(),
{
}

/// Numbers that are close have a small difference, up to rounding.
pub proof fn law_close_numbers_nearly_cancel(a: Scalar, b: Scalar)
    requires
        a.finite() && !a.negative() && a.mag() >= 0x31 * 0x10_0000_0000_0000,
        b.finite() && !b.negative(),
        -a.units() <= (b.units() - a.units()) * 0x2_0000_0000_0000 <= a.units(),
    ensures
        fsub(a, b).finite(),
        mag_units(fsub(a, b).mag()) * 0x1_0000_0000_0000 <= mag_units(a.mag()),
{
    let k: nat = 0x10_0000_0000_0000;
    let m = a.mag();
    let e = (m / k - 1) as nat;
    let f = m % k;
    vstd::arithmetic::div_mod::lemma_fundamental_div_mod(m as int, k as int);
    assert(e >= 48);
    let small = (m - 48 * k) as nat;
    assert(small / k == m / k - 48 && small % k == f);
    let w = pow2((e - 48) as nat);
    vstd::arithmetic::power2::lemma_pow2_adds((e - 48) as nat, 48);
    vstd::arithmetic::power2::lemma2_to64_rest();
    vstd::arithmetic::power2::lemma2_to64();
    assert(pow2(48) == 0x1_0000_0000_0000);
    assert(mag_units(small) == (k + f) * w);
    assert(mag_units(m) == mag_units(small) * 0x1_0000_0000_0000) by (nonlinear_arith)
        requires
            mag_units(m) == (k + f) * pow2(e),
            mag_units(small) == (k + f) * w,
            pow2(e) == w * 0x1_0000_0000_0000,
    ;
    let s = a.units() - b.units();
    let n = (if s < 0 {
        -s
    } else {
        s
    }) as nat;
    assert(n <= mag_units(small));
    lemma_difference(a, b);
    lemma_round_monotone(n, mag_units(small), 1);
    lemma_round_exact(small);
    assert(fsub(a, b).mag() == to_mag(n, 1));
    lemma_units_monotone(to_mag(n, 1), small);
    let d = mag_units(fsub(a, b).mag());
    assert(d * 0x1_0000_0000_0000 <= mag_units(small) * 0x1_0000_0000_0000) by (nonlinear_arith)
        requires
            d <= mag_units(small),
    ;
}

} // verus!
