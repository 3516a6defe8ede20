//! `Scalar`: a binary64 number held as its bit pattern.
//!
//! The arithmetic is the IEEE 754 one, round-to-nearest with ties to even: each
//! operation is the exact result over the rationals followed by one rounding.

use vstd::arithmetic::power2::pow2;
use vstd::prelude::*;

use crate::scalar::rounding::{EXP_STEP, INF_MAG};
#[allow(unused_imports)]
use crate::scalar::rounding::{half_even, round_mag, scaled_mag, to_mag};
use crate::scalar::shift::{power, round_shift};

verus! {

/// The sign bit.
pub const SIGN: u64 = 0x8000_0000_0000_0000;

/// A binary64 number. Two values are `==` when their bits are: the two zeros
/// differ, and a NaN equals itself. `same` is the numeric comparison.
#[derive(Clone, Copy, Debug, PartialEq, Eq, Structural)]
pub struct Scalar {
    pub bits: u64,
}

/// Value of a magnitude in units of `2^-1074`.
pub open spec fn mag_units(m: nat) -> nat {
    if m < 0x10_0000_0000_0000 {
        m
    } else {
        (0x10_0000_0000_0000 + m % 0x10_0000_0000_0000) * pow2(
            (m / 0x10_0000_0000_0000 - 1) as nat,
        )
    }
}

/// The number with sign `neg` and magnitude `mag`.
pub open spec fn of_parts(neg: bool, mag: nat) -> Scalar {
    if neg {
        Scalar { bits: (SIGN + mag) as u64 }
    } else {
        Scalar { bits: mag as u64 }
    }
}

/// The not-a-number that arithmetic produces.
pub open spec fn nan_value() -> Scalar {
    Scalar { bits: 0x7FF8_0000_0000_0000 }
}

impl Scalar {
    pub open spec fn negative(self) -> bool {
        self.bits >= SIGN
    }

    pub open spec fn mag(self) -> nat {
        if self.negative() {
            (self.bits - SIGN) as nat
        } else {
            self.bits as nat
        }
    }

    pub open spec fn finite(self) -> bool {
        self.mag() < INF_MAG
    }

    pub open spec fn infinite(self) -> bool {
        self.mag() == INF_MAG
    }

    pub open spec fn nan(self) -> bool {
        self.mag() > INF_MAG
    }

    /// Position on the number line; both zeros stand at 0.
    pub open spec fn key(self) -> int {
        if self.negative() {
            -(self.mag() as int)
        } else {
            self.mag() as int
        }
    }

    /// Value of a finite number in units of `2^-1074`.
    pub open spec fn units(self) -> int {
        if self.negative() {
            -(mag_units(self.mag()) as int)
        } else {
            mag_units(self.mag()) as int
        }
    }
}

/// `a < b`.
pub open spec fn flt(a: Scalar, b: Scalar) -> bool {
    !a.nan() && !b.nan() && a.key() < b.key()
}

/// `a <= b`.
pub open spec fn fle(a: Scalar, b: Scalar) -> bool {
    !a.nan() && !b.nan() && a.key() <= b.key()
}

/// `a == b` as numbers.
pub open spec fn feq(a: Scalar, b: Scalar) -> bool {
    !a.nan() && !b.nan() && a.key() == b.key()
}

/// `-a`.
pub open spec fn fneg(a: Scalar) -> Scalar {
    of_parts(!a.negative(), a.mag())
}

/// `|a|`.
pub open spec fn fabs(a: Scalar) -> Scalar {
    of_parts(false, a.mag())
}

/// `a + b`.
#[verifier::opaque]
pub open spec fn fadd(a: Scalar, b: Scalar) -> Scalar {
    if a.nan() || b.nan() || (a.infinite() && b.infinite() && a.negative() != b.negative()) {
        nan_value()
    } else if a.infinite() {
        a
    } else if b.infinite() {
        b
    } else {
        let sum = a.units() + b.units();
        if sum == 0 {
            of_parts(a.negative() && b.negative(), 0)
        } else if sum < 0 {
            of_parts(true, to_mag((-sum) as nat, 1))
        } else {
            of_parts(false, to_mag(sum as nat, 1))
        }
    }
}

/// `a - b`.
pub open spec fn fsub(a: Scalar, b: Scalar) -> Scalar {
    fadd(a, fneg(b))
}

/// `a * b`.
#[verifier::opaque]
pub open spec fn fmul(a: Scalar, b: Scalar) -> Scalar {
    if a.nan() || b.nan() || (a.infinite() && b.mag() == 0) || (a.mag() == 0 && b.infinite()) {
        nan_value()
    } else if a.infinite() || b.infinite() {
        of_parts(a.negative() != b.negative(), INF_MAG as nat)
    } else {
        of_parts(
            a.negative() != b.negative(),
            to_mag(mag_units(a.mag()) * mag_units(b.mag()), pow2(1074)),
        )
    }
}

/// `a / b`.
#[verifier::opaque]
pub open spec fn fdiv(a: Scalar, b: Scalar) -> Scalar {
    if a.nan() || b.nan() || (a.infinite() && b.infinite()) || (a.mag() == 0 && b.mag() == 0) {
        nan_value()
    } else if a.infinite() || b.mag() == 0 {
        of_parts(a.negative() != b.negative(), INF_MAG as nat)
    } else if b.infinite() {
        of_parts(a.negative() != b.negative(), 0)
    } else {
        of_parts(
            a.negative() != b.negative(),
            to_mag(mag_units(a.mag()) * pow2(1074), mag_units(b.mag())),
        )
    }
}

/// Significand of a magnitude.
pub open spec fn significand(m: nat) -> nat {
    if m < 0x10_0000_0000_0000 {
        m
    } else {
        0x10_0000_0000_0000 + m % 0x10_0000_0000_0000
    }
}

/// Exponent steps above the unit of a magnitude.
pub open spec fn exponent(m: nat) -> nat {
    if m < 0x10_0000_0000_0000 {
        0
    } else {
        (m / 0x10_0000_0000_0000 - 1) as nat
    }
}

pub proof fn lemma_decode(m: nat)
    requires
        m < INF_MAG,
    ensures
        significand(m) < 0x20_0000_0000_0000,
        exponent(m) <= 2045,
        m == exponent(m) * 0x10_0000_0000_0000 + significand(m),
        exponent(m) > 0 ==> significand(m) >= 0x10_0000_0000_0000,
        mag_units(m) == significand(m) * pow2(exponent(m)),
{
    vstd::arithmetic::power2::lemma2_to64();
    if m < 0x10_0000_0000_0000 {
        assert(m * pow2(0) == m);
    }
}

/// A value on the grid rounds to itself.
pub proof fn lemma_round_exact(m: nat)
    requires
        m < INF_MAG,
    ensures
        round_mag(mag_units(m), 1) == m,
        to_mag(mag_units(m), 1) == m,
{
    lemma_decode(m);
    let s = significand(m);
    let e = exponent(m);
    let w = pow2(e);
    vstd::arithmetic::power2::lemma_pow2_pos(e);
    assert(1 * w == w);
    assert(s * w < w * 0x20_0000_0000_0000) by (nonlinear_arith)
        requires
            s < 0x20_0000_0000_0000,
            w > 0,
    ;
    if e > 0 {
        assert(s * w >= w * 0x10_0000_0000_0000) by (nonlinear_arith)
            requires
                s >= 0x10_0000_0000_0000,
                w > 0,
        ;
    }
    crate::scalar::rounding::lemma_round_octave(s * w, 1, e);
    vstd::arithmetic::div_mod::lemma_fundamental_div_mod_converse(
        (s * w) as int,
        w as int,
        s as int,
        0,
    );
}

/// Adding or taking away less than a quarter of the spacing rounds back.
proof fn lemma_absorb(m: nat, t: int)
    requires
        m < INF_MAG,
        exponent(m) >= 2,
        -pow2((exponent(m) - 2) as nat) < t < pow2((exponent(m) - 2) as nat),
    ensures
        mag_units(m) + t > 0,
        to_mag((mag_units(m) + t) as nat, 1) == m,
{
    lemma_decode(m);
    let s = significand(m);
    let e = exponent(m);
    let w = pow2(e) as int;
    vstd::arithmetic::power2::lemma_pow2_pos((e - 2) as nat);
    vstd::arithmetic::power2::lemma_pow2_unfold(e);
    vstd::arithmetic::power2::lemma_pow2_unfold((e - 1) as nat);
    let h = pow2((e - 1) as nat) as int;
    let n = s * w + t;
    assert(s * w >= 0x10_0000_0000_0000 * w) by (nonlinear_arith)
        requires
            s >= 0x10_0000_0000_0000,
            w > 0,
    ;
    assert(1 * pow2(e) == w);
    assert(1 * pow2((e - 1) as nat) == h);
    if t >= 0 {
        assert(n < w * 0x20_0000_0000_0000) by (nonlinear_arith)
            requires
                n == s * w + t,
                s < 0x20_0000_0000_0000,
                t < w,
                w > 0,
        ;
        crate::scalar::rounding::lemma_round_octave(n as nat, 1, e);
        vstd::arithmetic::div_mod::lemma_fundamental_div_mod_converse(n, w, s as int, t);
    } else if s > 0x10_0000_0000_0000 {
        assert(n >= w * 0x10_0000_0000_0000 && n < w * 0x20_0000_0000_0000 && n == (s - 1) * w + (w
            + t)) by (nonlinear_arith)
            requires
                n == s * w + t,
                0x10_0000_0000_0000 < s < 0x20_0000_0000_0000,
                -w < t < 0,
                w > 0,
        ;
        crate::scalar::rounding::lemma_round_octave(n as nat, 1, e);
        assert(n == (s - 1) * w + (w + t));
        vstd::arithmetic::div_mod::lemma_fundamental_div_mod_converse(n, w, s - 1, w + t);
        assert(half_even(n as nat, w as nat) == s);
    } else {
        assert(n == 0x20_0000_0000_0000 * h + t);
        crate::scalar::rounding::lemma_round_octave(n as nat, 1, (e - 1) as nat);
        assert(n == 0x1F_FFFF_FFFF_FFFF * h + (h + t));
        vstd::arithmetic::div_mod::lemma_fundamental_div_mod_converse(
            n,
            h,
            0x1F_FFFF_FFFF_FFFF,
            h + t,
        );
        assert(half_even(n as nat, h as nat) == 0x20_0000_0000_0000);
    }
}

/// `P * 2^e` with a nonnegative exponent, as `round_shift` states it.
proof fn lemma_scaled_nonneg(p: nat, e: nat)
    ensures
        scaled_mag(p, e as int) == to_mag(p * pow2(e), 1),
{
}

impl Scalar {
    /// The number zero.
    pub fn zero() -> (r: Scalar)
        ensures
            r == (Scalar { bits: 0 }),
    {
        Scalar { bits: 0 }
    }

    pub fn is_negative(self) -> (r: bool)
        ensures
            r == self.negative(),
    {
        self.bits >= SIGN
    }

    pub fn magnitude(self) -> (r: u64)
        ensures
            r == self.mag(),
    {
        if self.bits >= SIGN {
            self.bits - SIGN
        } else {
            self.bits
        }
    }

    pub fn is_finite(self) -> (r: bool)
        ensures
            r == self.finite(),
    {
        self.magnitude() < INF_MAG
    }

    pub fn is_infinite(self) -> (r: bool)
        ensures
            r == self.infinite(),
    {
        self.magnitude() == INF_MAG
    }

    pub fn is_nan(self) -> (r: bool)
        ensures
            r == self.nan(),
    {
        self.magnitude() > INF_MAG
    }

    pub(crate) fn with_sign(neg: bool, mag: u64) -> (r: Scalar)
        requires
            mag < SIGN,
        ensures
            r == of_parts(neg, mag as nat),
            r.negative() == neg,
            r.mag() == mag,
    {
        if neg {
            Scalar { bits: SIGN + mag }
        } else {
            Scalar { bits: mag }
        }
    }

    /// `self < other`.
    pub fn lt(self, other: Scalar) -> (r: bool)
        ensures
            r == flt(self, other),
    {
        let a = self.magnitude();
        let b = other.magnitude();
        if a > INF_MAG || b > INF_MAG {
            false
        } else if self.is_negative() {
            if other.is_negative() {
                b < a
            } else {
                a > 0 || b > 0
            }
        } else {
            !other.is_negative() && a < b
        }
    }

    /// `self <= other`.
    pub fn le(self, other: Scalar) -> (r: bool)
        ensures
            r == fle(self, other),
    {
        !self.is_nan() && !other.is_nan() && !other.lt(self)
    }

    /// `self > other`.
    pub fn gt(self, other: Scalar) -> (r: bool)
        ensures
            r == flt(other, self),
    {
        other.lt(self)
    }

    /// `self >= other`.
    pub fn ge(self, other: Scalar) -> (r: bool)
        ensures
            r == fle(other, self),
    {
        other.le(self)
    }

    /// `self == other` as numbers.
    pub fn same(self, other: Scalar) -> (r: bool)
        ensures
            r == feq(self, other),
    {
        self.le(other) && other.le(self)
    }

    /// `-self`.
    pub fn neg(self) -> (r: Scalar)
        ensures
            r == fneg(self),
    {
        Self::with_sign(!self.is_negative(), self.magnitude())
    }

    /// `|self|`.
    pub fn abs(self) -> (r: Scalar)
        ensures
            r == fabs(self),
    {
        Self::with_sign(false, self.magnitude())
    }

    /// Significand and exponent of a finite magnitude.
    pub(crate) fn decode(mag: u64) -> (r: (u64, u32))
        requires
            mag < INF_MAG,
        ensures
            r.0 == significand(mag as nat),
            r.1 == exponent(mag as nat),
            r.0 < 0x20_0000_0000_0000,
            r.1 <= 2045,
    {
        proof {
            lemma_decode(mag as nat);
        }
        if mag < EXP_STEP {
            (mag, 0)
        } else {
            (EXP_STEP + mag % EXP_STEP, (mag / EXP_STEP - 1) as u32)
        }
    }

    /// `self + other`.
    pub fn add(self, other: Scalar) -> (r: Scalar)
        ensures
            r == fadd(self, other),
    {
        reveal(fadd);
        if self.is_nan() || other.is_nan() {
            return Scalar { bits: 0x7FF8_0000_0000_0000 };
        }
        if self.is_infinite() {
            if other.is_infinite() && self.is_negative() != other.is_negative() {
                return Scalar { bits: 0x7FF8_0000_0000_0000 };
            }
            return self;
        }
        if other.is_infinite() {
            return other;
        }
        if self.magnitude() >= other.magnitude() {
            Self::add_ordered(self, other)
        } else {
            Self::add_ordered(other, self)
        }
    }

    /// Sum of two finite numbers, the larger magnitude first.
    fn add_ordered(hi: Scalar, lo: Scalar) -> (r: Scalar)
        requires
            hi.finite(),
            lo.finite(),
            hi.mag() >= lo.mag(),
        ensures
            r == fadd(hi, lo),
    {
        reveal(fadd);
        let (mh, eh) = Self::decode(hi.magnitude());
        let (ml, el) = Self::decode(lo.magnitude());
        proof {
            lemma_decode(hi.mag());
            lemma_decode(lo.mag());
        }
        let ghost uh = mag_units(hi.mag()) as int;
        let ghost ul = mag_units(lo.mag()) as int;
        if eh > el + 64 {
            proof {
                let w = pow2(el as nat);
                vstd::arithmetic::power2::lemma_pow2_pos(el as nat);
                vstd::arithmetic::power2::lemma2_to64_rest();
                vstd::arithmetic::power2::lemma_pow2_adds(el as nat, 53);
                crate::scalar::shift::lemma_pow2_monotone((el + 53) as nat, (eh - 2) as nat);
                assert(ml * w < w * 0x20_0000_0000_0000) by (nonlinear_arith)
                    requires
                        ml < 0x20_0000_0000_0000,
                        w > 0,
                ;
                lemma_absorb(hi.mag(), ul);
                lemma_absorb(hi.mag(), -ul);
            }
            return hi;
        }
        let w = power(eh - el);
        proof {
            crate::scalar::shift::lemma_pow2_monotone((eh - el) as nat, 64);
            vstd::arithmetic::power2::lemma2_to64();
            vstd::arithmetic::power2::lemma2_to64_rest();
            vstd::arithmetic::power2::lemma_pow2_pos(el as nat);
            vstd::arithmetic::power2::lemma_pow2_adds((eh - el) as nat, el as nat);
            assert(mh * w < 0x20_0000_0000_0000 * 0x1_0000_0000_0000_0000) by (nonlinear_arith)
                requires
                    mh < 0x20_0000_0000_0000,
                    0 < w <= 0x1_0000_0000_0000_0000,
            ;
            if eh > el {
                vstd::arithmetic::power2::lemma_pow2_unfold((eh - el) as nat);
                vstd::arithmetic::power2::lemma_pow2_pos((eh - el - 1) as nat);
                assert(mh * w >= 0x20_0000_0000_0000) by (nonlinear_arith)
                    requires
                        mh >= 0x10_0000_0000_0000,
                        w >= 2,
                ;
            } else {
                assert(mh * w == mh) by (nonlinear_arith)
                    requires
                        w == 1,
                ;
                assert(mh >= ml);
            }
        }
        let top: u128 = (mh as u128) * w;
        let p: u128 = if hi.is_negative() == lo.is_negative() {
            top + ml as u128
        } else {
            top - ml as u128
        };
        let ghost u = pow2(el as nat) as int;
        proof {
            assert(uh == (mh * w) * u) by {
                assert(mh * (w * u) == (mh * w) * u) by (nonlinear_arith);
            }
            assert((mh * w) * u + ml * u == (mh * w + ml) * u) by (nonlinear_arith);
            assert((mh * w) * u - ml * u == (mh * w - ml) * u) by (nonlinear_arith);
            assert(p * u >= 0 && (p == 0 <==> p * u == 0)) by (nonlinear_arith)
                requires
                    u > 0,
            ;
            lemma_scaled_nonneg(p as nat, el as nat);
        }
        if p == 0 {
            return Self::with_sign(hi.is_negative() && lo.is_negative(), 0);
        }
        let mag = round_shift(p, el as i32);
        Self::with_sign(hi.is_negative(), mag)
    }

    /// `self - other`.
    pub fn sub(self, other: Scalar) -> (r: Scalar)
        ensures
            r == fsub(self, other),
    {
        self.add(other.neg())
    }

    /// `self * other`.
    pub fn mul(self, other: Scalar) -> (r: Scalar)
        ensures
            r == fmul(self, other),
    {
        reveal(fmul);
        let a = self.magnitude();
        let b = other.magnitude();
        if a > INF_MAG || b > INF_MAG || (a == INF_MAG && b == 0) || (a == 0 && b == INF_MAG) {
            return Scalar { bits: 0x7FF8_0000_0000_0000 };
        }
        let neg = self.is_negative() != other.is_negative();
        if a == INF_MAG || b == INF_MAG {
            return Self::with_sign(neg, INF_MAG);
        }
        let (ma, ea) = Self::decode(a);
        let (mb, eb) = Self::decode(b);
        proof {
            lemma_decode(a as nat);
            lemma_decode(b as nat);
            assert(ma * mb < 0x20_0000_0000_0000 * 0x20_0000_0000_0000) by (nonlinear_arith)
                requires
                    ma < 0x20_0000_0000_0000,
                    mb < 0x20_0000_0000_0000,
            ;
            lemma_mul_scale(ma as nat, ea as nat, mb as nat, eb as nat);
        }
        let p: u128 = (ma as u128) * (mb as u128);
        let s: i32 = ea as i32 + eb as i32 - 1074;
        let mag = round_shift(p, s);
        Self::with_sign(neg, mag)
    }
}

/// The product of two scaled significands, brought to one shift.
proof fn lemma_mul_scale(ma: nat, ea: nat, mb: nat, eb: nat)
    ensures
        to_mag((ma * pow2(ea)) * (mb * pow2(eb)), pow2(1074)) == scaled_mag(
            ma * mb,
            ea + eb - 1074,
        ),
{
    let p = ma * mb;
    vstd::arithmetic::power2::lemma_pow2_adds(ea, eb);
    assert((ma * pow2(ea)) * (mb * pow2(eb)) == p * (pow2(ea) * pow2(eb))) by (nonlinear_arith)
        requires
            p == ma * mb,
    ;
    let s = ea + eb - 1074;
    vstd::arithmetic::power2::lemma_pow2_pos(1074);
    vstd::arithmetic::power2::lemma_pow2_pos(ea + eb);
    if s >= 0 {
        vstd::arithmetic::power2::lemma_pow2_adds(s as nat, 1074);
        let x = pow2(s as nat);
        let c = pow2(1074);
        assert(p * (x * c) == (p * x) * c) by (nonlinear_arith);
        crate::scalar::rounding::lemma_round_scale(p * x, 1, c);
        assert(1 * c == c);
    } else {
        vstd::arithmetic::power2::lemma_pow2_adds((-s) as nat, ea + eb);
        vstd::arithmetic::power2::lemma_pow2_pos((-s) as nat);
        crate::scalar::rounding::lemma_round_scale(p, pow2((-s) as nat), pow2(ea + eb));
    }
}

} // verus!
