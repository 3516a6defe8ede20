//! Square root.

use vstd::arithmetic::power2::pow2;
use vstd::prelude::*;

use crate::scalar::number::Scalar;
#[allow(unused_imports)]
use crate::scalar::number::{exponent, lemma_decode, mag_units, nan_value, of_parts, significand};
use crate::scalar::rounding::INF_MAG;
#[allow(unused_imports)]
use crate::scalar::rounding::{half_even, lemma_round_double, lemma_round_octave, round_mag};
use crate::scalar::shift::{bit_length, power, round_shift};

verus! {

/// `q` is the integer part of `sqrt(n) / d`.
pub open spec fn is_floor_root(n: nat, d: nat, q: nat) -> bool {
    (q * d) * (q * d) <= n < ((q + 1) * d) * ((q + 1) * d)
}

/// `sqrt(n) / d` to the nearest integer, a tie going to the even neighbour.
pub open spec fn root_half_even(n: nat, d: nat) -> nat {
    let q = choose|q: nat| is_floor_root(n, d, q);
    let mid = ((2 * q + 1) * d) * ((2 * q + 1) * d);
    if 4 * n < mid {
        q
    } else if 4 * n > mid {
        q + 1
    } else {
        q + q % 2
    }
}

/// Magnitude of the grid point nearest to `sqrt(n) / d` units.
pub open spec fn root_mag(n: nat, d: nat) -> nat
    decreases n - d,
{
    if d == 0 || n < (d * 0x20_0000_0000_0000) * (d * 0x20_0000_0000_0000) {
        root_half_even(n, d)
    } else {
        proof {
            lemma_root_mag_decreases(n, d);
        }
        0x10_0000_0000_0000 + root_mag(n, 2 * d)
    }
}

/// `sqrt(a)`.
#[verifier::opaque]
pub open spec fn fsqrt(a: Scalar) -> Scalar {
    if a.mag() == 0 {
        a
    } else if a.nan() || a.negative() {
        nan_value()
    } else if a.infinite() {
        a
    } else {
        of_parts(false, root_mag(mag_units(a.mag()) * pow2(1074), 1))
    }
}

pub proof fn lemma_root_mag_decreases(n: nat, d: nat)
    requires
        d > 0,
        n >= (d * 0x20_0000_0000_0000) * (d * 0x20_0000_0000_0000),
    ensures
        n >= 2 * d,
{
    assert(n >= 2 * d) by (nonlinear_arith)
        requires
            d > 0,
            n >= (d * 0x20_0000_0000_0000) * (d * 0x20_0000_0000_0000),
    ;
}

proof fn lemma_square_monotone(a: int, b: int)
    requires
        0 <= a,
        0 <= b,
    ensures
        (a < b) == (a * a < b * b),
        (a == b) == (a * a == b * b),
{
    assert((a < b) == (a * a < b * b)) by (nonlinear_arith)
        requires
            0 <= a,
            0 <= b,
    ;
    assert((b < a) == (b * b < a * a)) by (nonlinear_arith)
        requires
            0 <= a,
            0 <= b,
    ;
}

proof fn lemma_floor_root_unique(n: nat, d: nat, a: nat, b: nat)
    requires
        d > 0,
        is_floor_root(n, d, a),
        is_floor_root(n, d, b),
    ensures
        a == b,
{
    if a < b {
        lemma_square_monotone(((a + 1) * d) as int, (b * d) as int);
        assert((a + 1) * d <= b * d) by (nonlinear_arith)
            requires
                a + 1 <= b,
        ;
    } else if b < a {
        lemma_square_monotone(((b + 1) * d) as int, (a * d) as int);
        assert((b + 1) * d <= a * d) by (nonlinear_arith)
            requires
                b + 1 <= a,
        ;
    }
}

proof fn lemma_root_half_even(n: nat, d: nat, q: nat)
    requires
        d > 0,
        is_floor_root(n, d, q),
    ensures
        root_half_even(n, d) == ({
            let mid = ((2 * q + 1) * d) * ((2 * q + 1) * d);
            if 4 * n < mid {
                q
            } else if 4 * n > mid {
                q + 1
            } else {
                q + q % 2
            }
        }),
{
    let c = choose|c: nat| is_floor_root(n, d, c);
    lemma_floor_root_unique(n, d, q, c);
}

/// Cancelling a common factor 2 (4 under the root).
proof fn lemma_root_scale(n: nat, d: nat, q: nat, j: nat)
    requires
        d > 0,
        d * pow2(j) > 0,
        is_floor_root(n, d * pow2(j), q),
        q < 0x20_0000_0000_0000,
        j > 0 ==> q >= 0x10_0000_0000_0000,
    ensures
        root_mag(n, d) == j * 0x10_0000_0000_0000 + root_half_even(n, d * pow2(j)),
    decreases j,
{
    vstd::arithmetic::power2::lemma2_to64();
    let b = d * 0x20_0000_0000_0000;
    if j == 0 {
        assert(d * pow2(0) == d);
        assert((q + 1) * d <= b) by (nonlinear_arith)
            requires
                q + 1 <= 0x20_0000_0000_0000,
                b == d * 0x20_0000_0000_0000,
                d > 0,
        ;
        lemma_square_monotone(((q + 1) * d) as int, b as int);
    } else {
        vstd::arithmetic::power2::lemma_pow2_unfold(j);
        vstd::arithmetic::power2::lemma_pow2_pos((j - 1) as nat);
        let w = pow2((j - 1) as nat);
        assert(d * pow2(j) == (2 * d) * w) by (nonlinear_arith)
            requires
                pow2(j) == 2 * w,
        ;
        assert(q * (d * pow2(j)) >= b) by (nonlinear_arith)
            requires
                q >= 0x10_0000_0000_0000,
                d * pow2(j) == (2 * d) * w,
                w >= 1,
                d > 0,
                b == d * 0x20_0000_0000_0000,
        ;
        lemma_square_monotone((q * (d * pow2(j))) as int, b as int);
        lemma_root_scale(n, 2 * d, q, (j - 1) as nat);
    }
}

/// Integer square root.
fn floor_sqrt(n: u128) -> (r: u128)
    requires
        n < 0x4000_0000_0000_0000_0000_0000_0000_0000,
    ensures
        r * r <= n < (r + 1) * (r + 1),
        r < 0x8000_0000_0000_0000,
{
    let mut r: u128 = 0;
    let mut b: u128 = 0x4000_0000_0000_0000;
    let mut k: u32 = 63;
    proof {
        vstd::arithmetic::power2::lemma2_to64();
        vstd::arithmetic::power2::lemma2_to64_rest();
    }
    while k > 0
        invariant
            k <= 63,
            k > 0 ==> b == pow2((k - 1) as nat),
            r * r <= n < (r + pow2(k as nat)) * (r + pow2(k as nat)),
            n < 0x4000_0000_0000_0000_0000_0000_0000_0000,
            r < 0x8000_0000_0000_0000,
        decreases k,
    {
        proof {
            vstd::arithmetic::power2::lemma_pow2_unfold(k as nat);
            crate::scalar::shift::lemma_pow2_monotone((k - 1) as nat, 62);
            vstd::arithmetic::power2::lemma2_to64_rest();
            if k > 1 {
                vstd::arithmetic::power2::lemma_pow2_unfold((k - 1) as nat);
            }
        }
        let c: u128 = r + b;
        assert(c * c <= 0xC000_0000_0000_0000 * 0xC000_0000_0000_0000) by (nonlinear_arith)
            requires
                c <= 0xC000_0000_0000_0000,
        ;
        if c * c <= n {
            proof {
                lemma_square_monotone(c as int, 0x8000_0000_0000_0000);
            }
            r = c;
        }
        b = b / 2;
        k = k - 1;
    }
    proof {
        vstd::arithmetic::power2::lemma2_to64();
    }
    r
}

/// With ten bits to drop, the sticky integer root rounds as the exact one.
proof fn lemma_root_sticky(n: nat, r: nat)
    requires
        r * r <= n < (r + 1) * (r + 1),
        0x4000_0000_0000_0000 <= r < 0x8000_0000_0000_0000,
    ensures
        ({
            let p = 2 * r + (if r * r == n {
                0nat
            } else {
                1nat
            });
            &&& 0x10_0000_0000_0000 + root_mag(n, 1) == round_mag(p, 1)
            &&& half_even(p, 2048) <= 0x20_0000_0000_0000
        }),
{
    let sg: nat = if r * r == n {
        0
    } else {
        1
    };
    let p = 2 * r + sg;
    let q = r / 1024;
    vstd::arithmetic::power2::lemma2_to64();
    assert(is_floor_root(n, 1024, q)) by {
        lemma_square_monotone((q * 1024) as int, r as int);
        lemma_square_monotone((r + 1) as int, ((q + 1) * 1024) as int);
    }
    assert(1 * pow2(10) == 1024);
    assert(1 * pow2(11) == 2048);
    lemma_root_scale(n, 1, q, 10);
    lemma_root_half_even(n, 1024, q);
    lemma_round_octave(p, 1, 11);
    let t = (2 * q + 1) * 512;
    assert(((2 * q + 1) * 1024) * ((2 * q + 1) * 1024) == 4 * (t * t)) by (nonlinear_arith)
        requires
            t == (2 * q + 1) * 512,
    ;
    lemma_square_monotone(r as int, t as int);
    lemma_square_monotone((r + 1) as int, t as int);
    assert(p / 2048 == q);
}

/// Quadrupling under the root adds one exponent step.
proof fn lemma_root_quadruple(n: nat, r: nat, h: nat)
    requires
        r * r <= n < (r + 1) * (r + 1),
        0x4000_0000_0000_0000 <= r < 0x8000_0000_0000_0000,
    ensures
        root_mag(n * pow2(2 * h), 1) == h * 0x10_0000_0000_0000 + root_mag(n, 1),
{
    vstd::arithmetic::power2::lemma2_to64();
    let q = r / 1024;
    let w = pow2(h);
    vstd::arithmetic::power2::lemma_pow2_pos(h);
    vstd::arithmetic::power2::lemma_pow2_adds(h, h);
    vstd::arithmetic::power2::lemma_pow2_adds(10, h);
    let big = n * pow2(2 * h);
    let d = pow2(10 + h);
    assert(is_floor_root(n, 1024, q)) by {
        lemma_square_monotone((q * 1024) as int, r as int);
        lemma_square_monotone((r + 1) as int, ((q + 1) * 1024) as int);
    }
    assert(big == n * (w * w));
    assert(d == 1024 * w);
    let lo = q * 1024;
    let hi = (q + 1) * 1024;
    assert(q * d == lo * w) by (nonlinear_arith)
        requires
            d == 1024 * w,
            lo == q * 1024,
    ;
    assert((q + 1) * d == hi * w) by (nonlinear_arith)
        requires
            d == 1024 * w,
            hi == (q + 1) * 1024,
    ;
    assert((lo * w) * (lo * w) == (lo * lo) * (w * w)) by (nonlinear_arith);
    assert((hi * w) * (hi * w) == (hi * hi) * (w * w)) by (nonlinear_arith);
    assert((lo * lo) * (w * w) <= n * (w * w) < (hi * hi) * (w * w)) by (nonlinear_arith)
        requires
            lo * lo <= n < hi * hi,
            w > 0,
    ;
    assert(1 * pow2(10) == 1024);
    assert(1 * d == d);
    lemma_root_scale(n, 1, q, 10);
    lemma_root_scale(big, 1, q, 10 + h);
    lemma_root_half_even(n, 1024, q);
    lemma_root_half_even(big, d, q);
    let m = (2 * q + 1) * 1024;
    assert((2 * q + 1) * d == m * w) by (nonlinear_arith)
        requires
            d == 1024 * w,
            m == (2 * q + 1) * 1024,
    ;
    assert((m * w) * (m * w) == (m * m) * (w * w)) by (nonlinear_arith);
    assert(w * w > 0) by (nonlinear_arith)
        requires
            w > 0,
    ;
    assert((4 * n < m * m) == (4 * (n * (w * w)) < (m * m) * (w * w))) by (nonlinear_arith)
        requires
            w * w > 0,
    ;
    assert((4 * n > m * m) == (4 * (n * (w * w)) > (m * m) * (w * w))) by (nonlinear_arith)
        requires
            w * w > 0,
    ;
}

proof fn lemma_floor_root_exists(n: nat, d: nat) -> (q: nat)
    requires
        d > 0,
    ensures
        is_floor_root(n, d, q),
    decreases n,
{
    if n == 0 {
        assert((0 * d) * (0 * d) == 0) by (nonlinear_arith);
        assert((1 * d) * (1 * d) > 0) by (nonlinear_arith)
            requires
                d > 0,
        ;
        0
    } else {
        let q = lemma_floor_root_exists((n - 1) as nat, d);
        if n < ((q + 1) * d) * ((q + 1) * d) {
            q
        } else {
            lemma_square_monotone(((q + 1) * d) as int, ((q + 2) * d) as int);
            assert((q + 1) * d < (q + 2) * d) by (nonlinear_arith)
                requires
                    d > 0,
            ;
            q + 1
        }
    }
}

proof fn lemma_root_bound(n: nat, d: nat, k: nat)
    requires
        d > 0,
        n < ((d * pow2(k)) * 0x20_0000_0000_0000) * ((d * pow2(k)) * 0x20_0000_0000_0000),
    ensures
        root_mag(n, d) <= k * 0x10_0000_0000_0000 + 0x20_0000_0000_0000,
    decreases k,
{
    vstd::arithmetic::power2::lemma2_to64();
    let b = d * 0x20_0000_0000_0000;
    if n < b * b {
        let q = lemma_floor_root_exists(n, d);
        lemma_root_half_even(n, d, q);
        lemma_square_monotone((q * d) as int, b as int);
        assert(q < 0x20_0000_0000_0000) by (nonlinear_arith)
            requires
                q * d < d * 0x20_0000_0000_0000,
        ;
    } else if k == 0 {
        assert(d * pow2(0) == d);
    } else {
        vstd::arithmetic::power2::lemma_pow2_unfold(k);
        let w = pow2((k - 1) as nat);
        assert(d * pow2(k) == (2 * d) * w) by (nonlinear_arith)
            requires
                pow2(k) == 2 * w,
        ;
        lemma_root_bound(n, 2 * d, (k - 1) as nat);
    }
}

/// The root of a finite number is finite.
pub proof fn lemma_root_is_finite(m: nat)
    requires
        m < INF_MAG,
    ensures
        root_mag(mag_units(m) * pow2(1074), 1) < INF_MAG,
{
    lemma_decode(m);
    let s = significand(m);
    let e = exponent(m);
    let n = mag_units(m) * pow2(1074);
    vstd::arithmetic::power2::lemma2_to64();
    vstd::arithmetic::power2::lemma2_to64_rest();
    vstd::arithmetic::power2::lemma_pow2_adds(e, 1074);
    vstd::arithmetic::power2::lemma_pow2_pos(e + 1074);
    crate::scalar::shift::lemma_pow2_monotone(e + 1074, 3119);
    vstd::arithmetic::power2::lemma_pow2_adds(53, 3119);
    vstd::arithmetic::power2::lemma_pow2_adds(1533, 53);
    vstd::arithmetic::power2::lemma_pow2_adds(1586, 1586);
    let w = pow2(e) * pow2(1074);
    assert(n == s * w) by (nonlinear_arith)
        requires
            n == (s * pow2(e)) * pow2(1074),
            w == pow2(e) * pow2(1074),
    ;
    assert(s * w < pow2(53) * pow2(3119)) by (nonlinear_arith)
        requires
            s < pow2(53),
            0 < w <= pow2(3119),
    ;
    assert(pow2(53) == 0x20_0000_0000_0000);
    assert(1 * pow2(1533) == pow2(1533));
    lemma_root_bound(n, 1, 1533);
}

/// The square of a root is near what it is the root of.
pub proof fn lemma_root_near(n: nat, d: nat)
    requires
        d > 0,
        n >= (d * 0x10_0000_0000_0000) * (d * 0x10_0000_0000_0000),
    ensures
        root_mag(n, d) >= 0x10_0000_0000_0000,
        ({
            let x = mag_units(root_mag(n, d)) * d;
            -(x * x) <= (x * x - n) * 0x4_0000_0000_0000 <= x * x
        }),
    decreases n - d,
{
    let k: nat = 0x10_0000_0000_0000;
    let r = root_mag(n, d);
    if n < (d * 0x20_0000_0000_0000) * (d * 0x20_0000_0000_0000) {
        let q = lemma_floor_root_exists(n, d);
        lemma_root_half_even(n, d, q);
        if q < k {
            lemma_square_monotone(((q + 1) * d) as int, (d * k) as int);
            assert((q + 1) * d <= d * k) by (nonlinear_arith)
                requires
                    q + 1 <= k,
            ;
        }
        if q >= 0x20_0000_0000_0000 {
            lemma_square_monotone((d * 0x20_0000_0000_0000) as int, (q * d) as int);
            assert(d * 0x20_0000_0000_0000 <= q * d) by (nonlinear_arith)
                requires
                    0x20_0000_0000_0000 <= q,
            ;
        }
        assert(q <= r <= q + 1);
        vstd::arithmetic::power2::lemma2_to64();
        assert(mag_units(r) == r) by {
            if r < 2 * k {
                assert(r / k == 1 && r % k == r - k);
                assert(mag_units(r) == (k + r % k) * pow2(0));
            } else {
                assert(r == 2 * k);
                assert(r / k == 2 && r % k == 0);
                assert(mag_units(r) == (k + r % k) * pow2(1));
            }
        }
        let y = r * d;
        assert(y - d <= q * d && (q + 1) * d <= y + d && k * d <= y && y - d >= 0)
            by (nonlinear_arith)
            requires
                y == r * d,
                k <= q <= r <= q + 1,
                k >= 1,
        ;
        lemma_square_monotone(y - d, (q * d) as int);
        lemma_square_monotone(((q + 1) * d) as int, (y + d) as int);
        assert(-(y * y) <= (y * y - n) * 0x4_0000_0000_0000 <= y * y) by (nonlinear_arith)
            requires
                (y - d) * (y - d) <= n,
                n <= (y + d) * (y + d),
                0x10_0000_0000_0000 * d <= y,
                d > 0,
        ;
    } else {
        lemma_root_mag_decreases(n, d);
        let r1 = root_mag(n, 2 * d);
        assert((2 * d) * k == d * 0x20_0000_0000_0000);
        lemma_root_near(n, 2 * d);
        assert((k + r1) / k == r1 / k + 1 && (k + r1) % k == r1 % k);
        vstd::arithmetic::power2::lemma_pow2_unfold((r1 / k) as nat);
        let e = pow2((r1 / k - 1) as nat);
        assert(mag_units(r) == 2 * mag_units(r1)) by (nonlinear_arith)
            requires
                mag_units(r) == (k + r1 % k) * (2 * e),
                mag_units(r1) == (k + r1 % k) * e,
        ;
        assert((2 * mag_units(r1)) * d == mag_units(r1) * (2 * d)) by (nonlinear_arith);
    }
}

impl Scalar {
    /// `sqrt(self)`.
    pub fn sqrt(self) -> (r: Scalar)
        ensures
            r == fsqrt(self),
    {
        reveal(fsqrt);
        let a = self.magnitude();
        if a == 0 {
            return self;
        }
        if a > INF_MAG || self.is_negative() {
            return Scalar { bits: 0x7FF8_0000_0000_0000 };
        }
        if a == INF_MAG {
            return self;
        }
        let (m, e) = Self::decode(a);
        proof {
            lemma_decode(a as nat);
            vstd::arithmetic::power2::lemma2_to64();
            vstd::arithmetic::power2::lemma2_to64_rest();
        }
        let len = bit_length(m as u128);
        proof {
            if len > 53 {
                crate::scalar::shift::lemma_pow2_monotone(53, (len - 1) as nat);
            }
        }
        let t: u32 = if (e + len) % 2 == 1 {
            125 - len
        } else {
            126 - len
        };
        let w = power(t);
        let h: u32 = (e + 1074 - t) / 2;
        proof {
            vstd::arithmetic::power2::lemma_pow2_adds(len as nat, t as nat);
            vstd::arithmetic::power2::lemma_pow2_adds((len - 1) as nat, t as nat);
            crate::scalar::shift::lemma_pow2_monotone((len + t) as nat, 126);
            crate::scalar::shift::lemma_pow2_monotone(124, (len + t - 1) as nat);
            vstd::arithmetic::power2::lemma_pow2_adds(62, 62);
            vstd::arithmetic::power2::lemma_pow2_adds(63, 63);
            vstd::arithmetic::power2::lemma_pow2_pos(t as nat);
            assert(pow2((len - 1) as nat) * w <= m * w < pow2(len as nat) * w) by (nonlinear_arith)
                requires
                    pow2((len - 1) as nat) <= m < pow2(len as nat),
                    w > 0,
            ;
        }
        let n: u128 = (m as u128) * w;
        let r = floor_sqrt(n);
        proof {
            lemma_square_monotone(0x4000_0000_0000_0000, (r + 1) as int);
            lemma_root_sticky(n as nat, r as nat);
            lemma_root_quadruple(n as nat, r as nat, h as nat);
            assert(mag_units(a as nat) * pow2(1074) == n as nat * pow2((2 * h) as nat)) by {
                vstd::arithmetic::power2::lemma_pow2_adds(e as nat, 1074);
                vstd::arithmetic::power2::lemma_pow2_adds(t as nat, (2 * h) as nat);
                assert((m * pow2(e as nat)) * pow2(1074) == m * (pow2(e as nat) * pow2(1074)))
                    by (nonlinear_arith);
                assert((m * w) * pow2((2 * h) as nat) == m * (w * pow2((2 * h) as nat)))
                    by (nonlinear_arith);
            }
        }
        assert(r * r <= n);
        let p: u128 = if r * r == n {
            2 * r
        } else {
            2 * r + 1
        };
        proof {
            lemma_round_double(p as nat, 1, (h - 1) as nat);
            lemma_round_octave(p as nat, 1, 11);
            assert(1 * pow2(11) == 2048);
        }
        let mag = round_shift(p, h as i32 - 1);
        Self::with_sign(false, mag)
    }
}

} // verus!
