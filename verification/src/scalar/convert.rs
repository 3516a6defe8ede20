//! Conversions to and from integers, and the choices between two numbers.

use vstd::arithmetic::power2::pow2;
use vstd::prelude::*;

use crate::scalar::number::Scalar;
#[allow(unused_imports)]
use crate::scalar::number::{fle, flt, lemma_decode, mag_units, nan_value, of_parts};
use crate::scalar::rounding::INF_MAG;
#[allow(unused_imports)]
use crate::scalar::rounding::{scaled_mag, to_mag};
use crate::scalar::shift::round_shift;

verus! {

/// `v` brought into `[lo, hi]`.
pub open spec fn bounded(v: int, lo: int, hi: int) -> int {
    if v < lo {
        lo
    } else if v > hi {
        hi
    } else {
        v
    }
}

/// Whole units of one in a magnitude.
pub open spec fn whole(mag: nat) -> nat {
    mag_units(mag) / pow2(1074)
}

/// Whether a magnitude is an integer.
pub open spec fn integral(mag: nat) -> bool {
    mag_units(mag) % pow2(1074) == 0
}

/// Whether the fractional part of a magnitude is a half or more.
pub open spec fn half_or_more(mag: nat) -> bool {
    2 * (mag_units(mag) % pow2(1074)) >= pow2(1074)
}

/// Greatest integer not above a finite `a`.
pub open spec fn floor_int(a: Scalar) -> int {
    if a.negative() {
        if integral(a.mag()) {
            -(whole(a.mag()) as int)
        } else {
            -(whole(a.mag()) as int) - 1
        }
    } else {
        whole(a.mag()) as int
    }
}

/// Least integer not below a finite `a`.
pub open spec fn ceil_int(a: Scalar) -> int {
    if a.negative() {
        -(whole(a.mag()) as int)
    } else if integral(a.mag()) {
        whole(a.mag()) as int
    } else {
        whole(a.mag()) as int + 1
    }
}

/// Integer nearest to a finite `a`, a tie going away from zero.
pub open spec fn round_int(a: Scalar) -> int {
    let m = if half_or_more(a.mag()) {
        whole(a.mag()) as int + 1
    } else {
        whole(a.mag()) as int
    };
    if a.negative() {
        -m
    } else {
        m
    }
}

/// A conversion to an integer range: NaN gives 0, everything else saturates.
pub open spec fn saturated(a: Scalar, v: int, lo: int, hi: int) -> int {
    if a.nan() {
        0
    } else if a.infinite() {
        if a.negative() {
            lo
        } else {
            hi
        }
    } else {
        bounded(v, lo, hi)
    }
}

/// The number nearest to an integer.
pub open spec fn from_int(v: int) -> Scalar {
    if v < 0 {
        of_parts(true, to_mag((-v) as nat * pow2(1074), 1))
    } else {
        of_parts(false, to_mag(v as nat * pow2(1074), 1))
    }
}

/// The larger of two numbers; a NaN loses.
pub open spec fn fmax(a: Scalar, b: Scalar) -> Scalar {
    if a.nan() || flt(a, b) {
        b
    } else {
        a
    }
}

/// The smaller of two numbers; a NaN loses.
pub open spec fn fmin(a: Scalar, b: Scalar) -> Scalar {
    if a.nan() || flt(b, a) {
        b
    } else {
        a
    }
}

/// `x` brought into `[lo, hi]`; a NaN stays.
pub open spec fn fclamp(x: Scalar, lo: Scalar, hi: Scalar) -> Scalar {
    let y = if flt(x, lo) {
        lo
    } else {
        x
    };
    if flt(hi, y) {
        hi
    } else {
        y
    }
}

/// One with the sign of `a`; a NaN stays.
pub open spec fn fsignum(a: Scalar) -> Scalar {
    if a.nan() {
        nan_value()
    } else {
        of_parts(a.negative(), 0x3FF0_0000_0000_0000)
    }
}

/// Place of `a` in the total order that sorts use: `-0` before `+0`, NaNs at the ends.
pub open spec fn total_key(a: Scalar) -> int {
    if a.negative() {
        -(a.mag() as int) - 1
    } else {
        a.mag() as int
    }
}

/// The number of a binary32 bit pattern.
pub open spec fn widened(b: u32) -> Scalar {
    let neg = b >= 0x8000_0000;
    let mag = if neg {
        b - 0x8000_0000
    } else {
        b as int
    };
    if mag > 0x7F80_0000 {
        of_parts(neg, 0x7FF8_0000_0000_0000)
    } else if mag == 0x7F80_0000 {
        of_parts(neg, INF_MAG as nat)
    } else if mag < 0x80_0000 {
        of_parts(neg, scaled_mag(mag as nat, 925))
    } else {
        of_parts(
            neg,
            scaled_mag((0x80_0000 + mag % 0x80_0000) as nat, mag / 0x80_0000 - 1 + 925),
        )
    }
}

/// Dividing `m * 2^e` by `2^(k+e)` is dividing `m` by `2^k`.
proof fn lemma_split(m: nat, e: nat, k: nat)
    ensures
        (m * pow2(e)) / pow2(k + e) == m / pow2(k),
        (m * pow2(e)) % pow2(k + e) == (m % pow2(k)) * pow2(e),
{
    let c = pow2(e);
    let d = pow2(k);
    vstd::arithmetic::power2::lemma_pow2_pos(e);
    vstd::arithmetic::power2::lemma_pow2_pos(k);
    vstd::arithmetic::power2::lemma_pow2_adds(k, e);
    let q = (m / d) as int;
    let r = (m % d) as int;
    vstd::arithmetic::div_mod::lemma_fundamental_div_mod(m as int, d as int);
    assert(m * c == q * (d * c) + r * c && 0 <= r * c < d * c) by (nonlinear_arith)
        requires
            m == d * q + r,
            0 <= r < d,
            c > 0,
    ;
    vstd::arithmetic::div_mod::lemma_fundamental_div_mod_converse(
        (m * c) as int,
        (d * c) as int,
        q,
        r * c,
    );
}

/// Whole part and fraction of a finite magnitude.
struct Parts {
    /// The whole part, or `u64::MAX` when it does not fit.
    whole: u64,
    over: bool,
    integral: bool,
    half: bool,
}

fn split(mag: u64) -> (r: Parts)
    requires
        mag < INF_MAG,
    ensures
        r.over == (whole(mag as nat) > u64::MAX),
        !r.over ==> r.whole == whole(mag as nat),
        r.over ==> r.whole == u64::MAX && r.integral && !r.half,
        r.integral == integral(mag as nat),
        r.half == half_or_more(mag as nat),
        whole(mag as nat) >= 0x20_0000_0000_0000 ==> r.integral && !r.half,
{
    let (m, e) = Scalar::decode(mag);
    proof {
        lemma_decode(mag as nat);
        vstd::arithmetic::power2::lemma2_to64();
        vstd::arithmetic::power2::lemma2_to64_rest();
        vstd::arithmetic::power2::lemma_pow2_pos(1074);
    }
    if e >= 1074 {
        let k: u32 = e - 1074;
        proof {
            let x = pow2(k as nat);
            let d = pow2(1074);
            vstd::arithmetic::power2::lemma_pow2_adds(k as nat, 1074);
            vstd::arithmetic::power2::lemma_pow2_pos(k as nat);
            assert(m * (x * d) == (m * x) * d) by (nonlinear_arith);
            vstd::arithmetic::div_mod::lemma_fundamental_div_mod_converse(
                (m * x) * d,
                d as int,
                m * x,
                0,
            );
            assert(m * x >= m) by (nonlinear_arith)
                requires
                    x >= 1,
            ;
        }
        if k >= 12 {
            proof {
                crate::scalar::shift::lemma_pow2_monotone(12, k as nat);
                assert(m * pow2(k as nat) > u64::MAX) by (nonlinear_arith)
                    requires
                        m >= 0x10_0000_0000_0000,
                        pow2(k as nat) >= 4096,
                ;
            }
            return Parts { whole: u64::MAX, over: true, integral: true, half: false };
        }
        let w = crate::scalar::shift::power(k);
        proof {
            crate::scalar::shift::lemma_pow2_monotone(k as nat, 11);
            assert(m * w <= u64::MAX) by (nonlinear_arith)
                requires
                    m < 0x20_0000_0000_0000,
                    w <= 2048,
            ;
        }
        Parts { whole: ((m as u128) * w) as u64, over: false, integral: true, half: false }
    } else {
        let k: u32 = 1074 - e;
        proof {
            lemma_split(m as nat, e as nat, k as nat);
            vstd::arithmetic::power2::lemma_pow2_pos(e as nat);
            vstd::arithmetic::power2::lemma_pow2_pos(k as nat);
            vstd::arithmetic::power2::lemma_pow2_adds(k as nat, e as nat);
            let r = m as nat % pow2(k as nat);
            let c = pow2(e as nat);
            let d = pow2(k as nat);
            assert((r * c == 0) == (r == 0)) by (nonlinear_arith)
                requires
                    c > 0,
            ;
            assert((2 * (r * c) >= d * c) == (2 * r >= d)) by (nonlinear_arith)
                requires
                    c > 0,
            ;
        }
        if k >= 64 {
            proof {
                crate::scalar::shift::lemma_pow2_monotone(64, k as nat);
                vstd::arithmetic::div_mod::lemma_fundamental_div_mod_converse(
                    m as int,
                    pow2(k as nat) as int,
                    0,
                    m as int,
                );
            }
            return Parts { whole: 0, over: false, integral: m == 0, half: false };
        }
        let w = crate::scalar::shift::power(k);
        let q: u128 = (m as u128) / w;
        let r: u128 = (m as u128) % w;
        proof {
            vstd::arithmetic::div_mod::lemma_fundamental_div_mod(m as int, w as int);
            assert(q <= m && (w >= 2 ==> 2 * q <= m)) by (nonlinear_arith)
                requires
                    m == w * q + r,
                    r >= 0,
                    w >= 1,
            ;
            crate::scalar::shift::lemma_pow2_monotone(1, k as nat);
            crate::scalar::shift::lemma_pow2_monotone(k as nat, 63);
        }
        Parts { whole: q as u64, over: false, integral: r == 0, half: 2 * r >= w }
    }
}

impl Scalar {
    /// Least integer not below `self`, saturating at the ends of `usize`.
    pub fn ceil_usize(self) -> (r: usize)
        ensures
            r == saturated(self, ceil_int(self), 0, usize::MAX as int),
    {
        if self.is_nan() {
            return 0;
        }
        if self.is_infinite() {
            return if self.is_negative() { 0 } else { usize::MAX };
        }
        if self.is_negative() {
            return 0;
        }
        let p = split(self.magnitude());
        if p.over || p.whole >= usize::MAX as u64 {
            usize::MAX
        } else if p.integral {
            p.whole as usize
        } else {
            p.whole as usize + 1
        }
    }

    /// Greatest integer not above `self`, saturating at the ends of `usize`.
    pub fn floor_usize(self) -> (r: usize)
        ensures
            r == saturated(self, floor_int(self), 0, usize::MAX as int),
    {
        if self.is_nan() {
            return 0;
        }
        if self.is_infinite() {
            return if self.is_negative() { 0 } else { usize::MAX };
        }
        if self.is_negative() {
            return 0;
        }
        let p = split(self.magnitude());
        if p.over || p.whole >= usize::MAX as u64 {
            usize::MAX
        } else {
            p.whole as usize
        }
    }

    /// Nearest integer (ties away from zero), saturating at the ends of `i64`.
    pub fn round_i64(self) -> (r: i64)
        ensures
            r == saturated(self, round_int(self), i64::MIN as int, i64::MAX as int),
    {
        if self.is_nan() {
            return 0;
        }
        if self.is_infinite() {
            return if self.is_negative() { i64::MIN } else { i64::MAX };
        }
        let p = split(self.magnitude());
        let v: u64 = if p.half {
            p.whole + 1
        } else {
            p.whole
        };
        if self.is_negative() {
            if v > i64::MAX as u64 {
                i64::MIN
            } else {
                -(v as i64)
            }
        } else if v > i64::MAX as u64 {
            i64::MAX
        } else {
            v as i64
        }
    }

    /// The number nearest to `v`.
    pub fn from_u64(v: u64) -> (r: Scalar)
        ensures
            r == from_int(v as int),
    {
        Self::with_sign(false, round_shift(v as u128, 1074))
    }

    /// The number nearest to `v`.
    pub fn from_usize(v: usize) -> (r: Scalar)
        ensures
            r == from_int(v as int),
    {
        Self::from_u64(v as u64)
    }

    /// The number nearest to `v`.
    pub fn from_i64(v: i64) -> (r: Scalar)
        ensures
            r == from_int(v as int),
    {
        if v >= 0 {
            Self::from_u64(v as u64)
        } else {
            let m: u64 = (-((v + 1) as i128)) as u64 + 1;
            Self::with_sign(true, round_shift(m as u128, 1074))
        }
    }

    /// The number of a binary32 bit pattern.
    pub fn from_f32_bits(b: u32) -> (r: Scalar)
        ensures
            r == widened(b),
    {
        let neg = b >= 0x8000_0000;
        let mag: u32 = if neg {
            b - 0x8000_0000
        } else {
            b
        };
        if mag > 0x7F80_0000 {
            Self::with_sign(neg, 0x7FF8_0000_0000_0000)
        } else if mag == 0x7F80_0000 {
            Self::with_sign(neg, INF_MAG)
        } else if mag < 0x80_0000 {
            Self::with_sign(neg, round_shift(mag as u128, 925))
        } else {
            let sig: u32 = 0x80_0000 + mag % 0x80_0000;
            let e: u32 = mag / 0x80_0000 - 1;
            Self::with_sign(neg, round_shift(sig as u128, e as i32 + 925))
        }
    }

    /// The larger of the two.
    pub fn max(self, other: Scalar) -> (r: Scalar)
        ensures
            r == fmax(self, other),
    {
        if self.is_nan() || self.lt(other) {
            other
        } else {
            self
        }
    }

    /// The smaller of the two.
    pub fn min(self, other: Scalar) -> (r: Scalar)
        ensures
            r == fmin(self, other),
    {
        if self.is_nan() || other.lt(self) {
            other
        } else {
            self
        }
    }

    /// `self` brought into `[lo, hi]`.
    pub fn clamp(self, lo: Scalar, hi: Scalar) -> (r: Scalar)
        requires
            fle(lo, hi),
        ensures
            r == fclamp(self, lo, hi),
            !self.nan() ==> fle(lo, r) && fle(r, hi),
    {
        let y = if self.lt(lo) {
            lo
        } else {
            self
        };
        if y.gt(hi) {
            hi
        } else {
            y
        }
    }

    /// One with the sign of `self`.
    pub fn signum(self) -> (r: Scalar)
        ensures
            r == fsignum(self),
    {
        if self.is_nan() {
            Scalar { bits: 0x7FF8_0000_0000_0000 }
        } else {
            Self::with_sign(self.is_negative(), 0x3FF0_0000_0000_0000)
        }
    }

    /// Whether `self` sorts strictly before `other` in the total order.
    pub fn sorts_before(self, other: Scalar) -> (r: bool)
        ensures
            r == (total_key(self) < total_key(other)),
    {
        if self.is_negative() {
            !other.is_negative() || self.magnitude() > other.magnitude()
        } else {
            !other.is_negative() && self.magnitude() < other.magnitude()
        }
    }
}

} // verus!
