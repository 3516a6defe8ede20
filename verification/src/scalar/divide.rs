//! Division and square root: an integer quotient or root with a sticky bit for
//! what was cut off, then one rounding.

use vstd::arithmetic::power2::pow2;
use vstd::prelude::*;

use crate::scalar::number::Scalar;
#[allow(unused_imports)]
use crate::scalar::number::{fdiv, lemma_decode};
use crate::scalar::rounding::INF_MAG;
#[allow(unused_imports)]
use crate::scalar::rounding::{
    half_even, lemma_round_double, lemma_round_scale, round_mag, scaled_mag, to_mag,
};
use crate::scalar::shift::{bit_length, power, round_shift};

verus! {

/// Twice the integer quotient, plus one when something remains.
pub open spec fn sticky(n: nat, d: nat) -> nat {
    2 * (n / d) + (if n % d == 0 {
        0nat
    } else {
        1nat
    })
}

/// With at least one whole bit to drop, the sticky quotient rounds as the exact one.
proof fn lemma_sticky_half_even(n: nat, d: nat, c: nat)
    requires
        d > 0,
        c > 0,
    ensures
        half_even(n, d * (2 * c)) == half_even(sticky(n, d), 2 * (2 * c)),
{
    let dd = 2 * c;
    let q = (n / d) as int;
    let r = (n % d) as int;
    vstd::arithmetic::div_mod::lemma_fundamental_div_mod(n as int, d as int);
    let a = q / (dd as int);
    let b = q % (dd as int);
    vstd::arithmetic::div_mod::lemma_fundamental_div_mod(q, dd as int);
    let sg: int = if r == 0 {
        0
    } else {
        1
    };
    let p = sticky(n, d) as int;
    assert(q >= 0) by (nonlinear_arith)
        requires
            n == d * q + r,
            0 <= r < d,
            n >= 0,
    ;
    assert(n == a * (d * dd) + (b * d + r) && 0 <= b * d + r < d * dd) by (nonlinear_arith)
        requires
            n == d * q + r,
            q == dd * a + b,
            0 <= b < dd,
            0 <= r < d,
    ;
    assert(d * dd > 0) by (nonlinear_arith)
        requires
            d > 0,
            dd > 0,
    ;
    vstd::arithmetic::div_mod::lemma_fundamental_div_mod_converse(
        n as int,
        (d * dd) as int,
        a,
        b * d + r,
    );
    assert(p == a * (2 * dd) + (2 * b + sg)) by (nonlinear_arith)
        requires
            p == 2 * q + sg,
            q == dd * a + b,
    ;
    vstd::arithmetic::div_mod::lemma_fundamental_div_mod_converse(
        p,
        2 * dd as int,
        a,
        2 * b + sg,
    );
    if r == 0 {
        assert((2 * (b * d) < d * dd) == (2 * b < dd)) by (nonlinear_arith)
            requires
                d > 0,
        ;
        assert((2 * (b * d) > d * dd) == (2 * b > dd)) by (nonlinear_arith)
            requires
                d > 0,
        ;
    } else if 2 * b < dd {
        assert(2 * b + 2 <= dd);
        assert(2 * (b * d + r) < d * dd) by (nonlinear_arith)
            requires
                2 * b + 2 <= dd,
                r < d,
                d > 0,
        ;
    } else {
        assert(2 * (b * d + r) > d * dd) by (nonlinear_arith)
            requires
                2 * b >= dd,
                r > 0,
                d > 0,
        ;
    }
}

/// The sticky quotient compares with whole bounds as the exact one.
proof fn lemma_sticky_below(n: nat, d: nat, b: nat)
    requires
        d > 0,
    ensures
        (n < d * b) == (sticky(n, d) < 2 * b),
{
    let q = (n / d) as int;
    vstd::arithmetic::div_mod::lemma_fundamental_div_mod(n as int, d as int);
    if n < d * b {
        assert(q < b) by (nonlinear_arith)
            requires
                n == d * q + n % d,
                0 <= n % d,
                n < d * b,
                d > 0,
        ;
    } else {
        assert(q >= b) by (nonlinear_arith)
            requires
                n == d * q + n % d,
                n % d < d,
                n >= d * b,
                d > 0,
        ;
    }
}

proof fn lemma_sticky_round(n: nat, d: nat, c: nat)
    requires
        d > 0,
        c > 0,
    ensures
        round_mag(n, d * (2 * c)) == round_mag(sticky(n, d), 2 * (2 * c)),
    decreases n - d * (2 * c),
{
    let dd = d * (2 * c);
    assert(dd > 0) by (nonlinear_arith)
        requires
            dd == d * (2 * c),
            d > 0,
            c > 0,
    ;
    let b = 2 * c * 0x20_0000_0000_0000;
    lemma_sticky_below(n, d, b);
    assert(d * b == dd * 0x20_0000_0000_0000) by (nonlinear_arith)
        requires
            b == 2 * c * 0x20_0000_0000_0000,
            dd == d * (2 * c),
    ;
    if n < dd * 0x20_0000_0000_0000 {
        lemma_sticky_half_even(n, d, c);
    } else {
        assert(d * (2 * (2 * c)) == 2 * dd) by (nonlinear_arith)
            requires
                dd == d * (2 * c),
        ;
        lemma_sticky_round(n, d, 2 * c);
    }
}

/// For a quotient of at least `2^60`, rounding `n / d * 2^s` is rounding the
/// sticky quotient times `2^(s-1)`.
proof fn lemma_sticky_scaled(n: nat, d: nat, s: int)
    requires
        d > 0,
        n >= d * 0x1000_0000_0000_0000,
    ensures
        scaled_mag(sticky(n, d), s - 1) == (if s >= 0 {
            to_mag(n * pow2(s as nat), d)
        } else {
            to_mag(n, d * pow2((-s) as nat))
        }),
{
    let p = sticky(n, d);
    vstd::arithmetic::power2::lemma2_to64();
    lemma_sticky_below(n, d, 0x1000_0000_0000_0000);
    if s < 0 {
        let c = pow2((-s - 1) as nat);
        vstd::arithmetic::power2::lemma_pow2_pos((-s - 1) as nat);
        vstd::arithmetic::power2::lemma_pow2_unfold((-s) as nat);
        vstd::arithmetic::power2::lemma_pow2_unfold((1 - s) as nat);
        lemma_sticky_round(n, d, c);
    } else {
        lemma_round_double(n, d, s as nat);
        lemma_sticky_round(n, d, 1);
        assert(round_mag(n, d) == 0x10_0000_0000_0000 + round_mag(n, 2 * d));
        assert(d * 2 == 2 * d);
        assert(round_mag(p, 1) == 0x10_0000_0000_0000 + round_mag(p, 2));
        assert(round_mag(p, 2) == 0x10_0000_0000_0000 + round_mag(p, 4));
        if s >= 1 {
            lemma_round_double(p, 1, (s - 1) as nat);
        } else {
            assert(pow2(1) == 2);
        }
    }
}

/// The quotient of two scaled significands, brought to one numerator and shift.
proof fn lemma_div_scale(ma: nat, ea: nat, mb: nat, eb: nat, t: nat)
    requires
        mb > 0,
    ensures
        ({
            let s = ea + 1074 - t - eb;
            to_mag((ma * pow2(ea)) * pow2(1074), mb * pow2(eb)) == (if s >= 0 {
                to_mag((ma * pow2(t)) * pow2(s as nat), mb)
            } else {
                to_mag(ma * pow2(t), mb * pow2((-s) as nat))
            })
        }),
{
    let s = ea + 1074 - t - eb;
    let x = pow2(eb);
    vstd::arithmetic::power2::lemma_pow2_adds(ea, 1074);
    vstd::arithmetic::power2::lemma_pow2_pos(eb);
    vstd::arithmetic::power2::lemma_pow2_pos(ea + 1074);
    assert((ma * pow2(ea)) * pow2(1074) == ma * (pow2(ea) * pow2(1074))) by (nonlinear_arith);
    assert(mb * x > 0) by (nonlinear_arith)
        requires
            mb > 0,
            x > 0,
    ;
    if s >= 0 {
        vstd::arithmetic::power2::lemma_pow2_adds(t, s as nat);
        vstd::arithmetic::power2::lemma_pow2_adds(t + s as nat, eb);
        let y = (ma * pow2(t)) * pow2(s as nat);
        assert(y == ma * (pow2(t) * pow2(s as nat))) by (nonlinear_arith)
            requires
                y == (ma * pow2(t)) * pow2(s as nat),
        ;
        assert(y * x == ma * (pow2(t + s as nat) * x)) by (nonlinear_arith)
            requires
                y == ma * pow2(t + s as nat),
        ;
        lemma_round_scale(y, mb, x);
    } else {
        let z = pow2(ea + 1074);
        let v = pow2((-s) as nat);
        vstd::arithmetic::power2::lemma_pow2_pos((-s) as nat);
        vstd::arithmetic::power2::lemma_pow2_pos(t);
        // ma * z / (mb * x), with x * 2^t = z * 2^-s.
        vstd::arithmetic::power2::lemma_pow2_adds(eb, t);
        vstd::arithmetic::power2::lemma_pow2_adds(ea + 1074, (-s) as nat);
        assert(x * pow2(t) == z * v);
        assert(mb * v > 0) by (nonlinear_arith)
            requires
                mb > 0,
                v > 0,
        ;
        lemma_round_scale(ma * z, mb * x, pow2(t));
        lemma_round_scale(ma * pow2(t), mb * v, z);
        assert((ma * z) * pow2(t) == (ma * pow2(t)) * z) by (nonlinear_arith);
        assert((mb * x) * pow2(t) == (mb * v) * z) by (nonlinear_arith)
            requires
                x * pow2(t) == z * v,
        ;
    }
}

impl Scalar {
    /// `self / other`.
    pub fn div(self, other: Scalar) -> (r: Scalar)
        ensures
            r == fdiv(self, other),
    {
        reveal(fdiv);
        let a = self.magnitude();
        let b = other.magnitude();
        if a > INF_MAG || b > INF_MAG || (a == INF_MAG && b == INF_MAG) || (a == 0 && b == 0) {
            return Scalar { bits: 0x7FF8_0000_0000_0000 };
        }
        let neg = self.is_negative() != other.is_negative();
        if a == INF_MAG || b == 0 {
            return Self::with_sign(neg, INF_MAG);
        }
        if b == INF_MAG {
            return Self::with_sign(neg, 0);
        }
        let (ma, ea) = Self::decode(a);
        let (mb, eb) = Self::decode(b);
        proof {
            lemma_decode(a as nat);
            lemma_decode(b as nat);
            vstd::arithmetic::power2::lemma_pow2_pos(ea as nat);
            vstd::arithmetic::power2::lemma_pow2_pos(eb as nat);
        }
        if ma == 0 {
            proof {
                assert(mb as nat * pow2(eb as nat) > 0) by (nonlinear_arith)
                    requires
                        mb > 0,
                        pow2(eb as nat) > 0,
                ;
                let d = mb as nat * pow2(eb as nat);
                vstd::arithmetic::div_mod::lemma_fundamental_div_mod_converse(0, d as int, 0, 0);
                assert((ma * pow2(ea as nat)) * pow2(1074) == 0) by (nonlinear_arith)
                    requires
                        ma == 0,
                ;
            }
            return Self::with_sign(neg, 0);
        }
        let len = bit_length(ma as u128);
        proof {
            vstd::arithmetic::power2::lemma2_to64();
            vstd::arithmetic::power2::lemma2_to64_rest();
            if len > 53 {
                crate::scalar::shift::lemma_pow2_monotone(53, (len - 1) as nat);
            }
        }
        let t: u32 = 117 - len;
        let w = power(t);
        proof {
            vstd::arithmetic::power2::lemma_pow2_adds(len as nat, t as nat);
            vstd::arithmetic::power2::lemma_pow2_adds((len - 1) as nat, t as nat);
            vstd::arithmetic::power2::lemma_pow2_adds(64, 53);
            vstd::arithmetic::power2::lemma_pow2_adds(64, 52);
            vstd::arithmetic::power2::lemma_pow2_pos(t as nat);
            assert(pow2((len - 1) as nat) * w <= ma * w < pow2(len as nat) * w)
                by (nonlinear_arith)
                requires
                    pow2((len - 1) as nat) <= ma < pow2(len as nat),
                    w > 0,
            ;
        }
        let num: u128 = (ma as u128) * w;
        let q: u128 = num / (mb as u128);
        let rem: u128 = num % (mb as u128);
        proof {
            vstd::arithmetic::div_mod::lemma_fundamental_div_mod(num as int, mb as int);
            assert(q <= num) by (nonlinear_arith)
                requires
                    num == mb * q + rem,
                    mb >= 1,
                    rem >= 0,
            ;
            assert(num >= mb * 0x1000_0000_0000_0000) by (nonlinear_arith)
                requires
                    num >= 0x10_0000_0000_0000 * 0x1_0000_0000_0000_0000,
                    mb < 0x20_0000_0000_0000,
            ;
        }
        let p: u128 = if rem == 0 {
            2 * q
        } else {
            2 * q + 1
        };
        let s: i32 = ea as i32 + 1074 - t as i32 - eb as i32;
        proof {
            lemma_div_scale(ma as nat, ea as nat, mb as nat, eb as nat, t as nat);
            lemma_sticky_scaled(num as nat, mb as nat, s as int);
        }
        let mag = round_shift(p, s - 1);
        Self::with_sign(neg, mag)
    }
}

} // verus!
