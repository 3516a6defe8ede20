//! Writing a number in the fewest decimal digits that read back as the same
//! number, in plain positional notation.

use vstd::arithmetic::power2::pow2;
use vstd::prelude::*;

use crate::scalar::big::Big;
use crate::scalar::decimal::scaled_decimal;
#[allow(unused_imports)]
use crate::scalar::decimal::{decimal_mag, lemma_pow10_adds, lemma_pow10_monotone, pow10};
use crate::scalar::number::Scalar;
#[allow(unused_imports)]
use crate::scalar::number::{exponent, lemma_decode, lemma_round_exact, mag_units, significand};
#[allow(unused_imports)]
use crate::scalar::order::lemma_round_monotone;
use crate::scalar::rounding::INF_MAG;
#[allow(unused_imports)]
use crate::scalar::rounding::{lemma_round_octave, lemma_round_scale, round_mag};
use crate::text::{chars_of, decimal_text, push_lit, push_text};
#[allow(unused_imports)]
use crate::text::decimal;

verus! {

/// Some decimal of at most `k` digits reads back as `mag`.
pub open spec fn reads_back(mag: nat, k: nat) -> bool {
    exists|m: nat, x: int| m < pow10(k) && #[trigger] decimal_mag(m, x) == mag
}

/// The fewest digits that read back.
pub open spec fn least_digits(mag: nat) -> nat {
    choose|k: nat| #[trigger]
        reads_back(mag, k) && k >= 1 && forall|j: nat| 1 <= j < k ==> !reads_back(mag, j)
}

/// `mag` times `10^400`, in units of `2^-1074`.
pub open spec fn raised(mag: nat) -> nat {
    mag_units(mag) * pow10(400)
}

/// `10^(j-400)` times `10^400`, in the same units.
pub open spec fn decade_top(j: nat) -> nat {
    pow2(1074) * pow10(j)
}

/// `mag` lies in `[10^(j-401), 10^(j-400))`.
pub open spec fn in_decade(mag: nat, j: nat) -> bool {
    j >= 1 && decade_top((j - 1) as nat) <= raised(mag) < decade_top(j)
}

pub open spec fn decade(mag: nat) -> nat {
    choose|j: nat| in_decade(mag, j)
}

/// The first `k` digits of `mag`.
pub open spec fn leading(mag: nat, k: nat) -> nat {
    raised(mag) * pow10((k - 1) as nat) / decade_top((decade(mag) - 1) as nat)
}

/// Whether half or more of a last digit follows the first `k` digits.
pub open spec fn past_half(mag: nat, k: nat) -> bool {
    2 * (raised(mag) * pow10((k - 1) as nat) % decade_top((decade(mag) - 1) as nat)) >= decade_top(
        (decade(mag) - 1) as nat,
    )
}

/// The shortest decimal `m * 10^x` that reads back: of the two neighbours with
/// the fewest digits, the nearer one that does (the upper one on a tie).
pub open spec fn shortest(mag: nat) -> (nat, int) {
    let k = least_digits(mag);
    let x = decade(mag) - 400 - k;
    let lo = leading(mag, k);
    let down = decimal_mag(lo, x) == mag;
    let up = decimal_mag(lo + 1, x) == mag;
    let m = if down && !(up && past_half(mag, k)) {
        lo
    } else {
        lo + 1
    };
    if m == pow10(k) {
        (1, x + k)
    } else {
        (m, x)
    }
}

/// `n` zeros.
pub open spec fn zeros(n: nat) -> Seq<char> {
    Seq::new(n, |i: int| '0')
}

/// `m * 10^x` in positional notation.
pub open spec fn positional(m: nat, x: int) -> Seq<char> {
    let d = decimal(m);
    if x >= 0 {
        d + zeros(x as nat)
    } else if d.len() > -x {
        d.subrange(0, d.len() + x) + "."@ + d.subrange(d.len() + x, d.len() as int)
    } else {
        "0."@ + zeros((-x - d.len()) as nat) + d
    }
}

/// The text a number is written as.
pub open spec fn shown(a: Scalar) -> Seq<char> {
    let body = if a.infinite() {
        "inf"@
    } else if a.mag() == 0 {
        "0"@
    } else {
        positional(shortest(a.mag()).0, shortest(a.mag()).1)
    };
    if a.nan() {
        "NaN"@
    } else if a.negative() {
        "-"@ + body
    } else {
        body
    }
}

// ---- decimals as fractions of units ----

pub open spec fn num(m: nat, x: int) -> nat {
    if x >= 0 {
        m * pow10(x as nat) * pow2(1074)
    } else {
        m * pow2(1074)
    }
}

pub open spec fn den(x: int) -> nat {
    if x >= 0 {
        1
    } else {
        pow10((-x) as nat)
    }
}

proof fn lemma_den(x: int)
    ensures
        den(x) > 0,
{
    if x < 0 {
        lemma_pow10_monotone((-x) as nat, (-x) as nat);
    }
}

proof fn lemma_decimal_monotone(a: nat, b: nat, x: int)
    requires
        a <= b,
    ensures
        decimal_mag(a, x) <= decimal_mag(b, x),
{
    lemma_den(x);
    if x >= 0 {
        assert(a * pow10(x as nat) * pow2(1074) <= b * pow10(x as nat) * pow2(1074))
            by (nonlinear_arith)
            requires
                a <= b,
        ;
    } else {
        assert(a * pow2(1074) <= b * pow2(1074)) by (nonlinear_arith)
            requires
                a <= b,
        ;
    }
    lemma_round_monotone(num(a, x), num(b, x), den(x));
}

/// Moving factors of ten between the digits and the exponent changes nothing.
proof fn lemma_decimal_shift(m: nat, x: int, t: nat)
    ensures
        decimal_mag(m * pow10(t), x) == decimal_mag(m, x + t),
{
    lemma_den(x);
    lemma_den(x + t);
    let u = pow2(1074);
    let p = pow10(t);
    lemma_pow10_monotone(t, t);
    if x >= 0 {
        lemma_pow10_adds(t, x as nat);
        assert((m * p) * pow10(x as nat) == m * (p * pow10(x as nat))) by (nonlinear_arith);
    } else if x + t < 0 {
        let y = (-(x + t)) as nat;
        lemma_pow10_adds(y, t);
        assert((m * p) * u == (m * u) * p) by (nonlinear_arith);
        lemma_round_scale(m * u, pow10(y), p);
        assert(pow10((-x) as nat) == pow10(y) * p);
    } else {
        let y = (-x) as nat;
        let z = (x + t) as nat;
        lemma_pow10_adds(z, y);
        let c = pow10(y);
        lemma_pow10_monotone(y, y);
        assert((m * p) * u == (m * pow10(z) * u) * c) by (nonlinear_arith)
            requires
                p == pow10(z) * c,
        ;
        lemma_round_scale(m * pow10(z) * u, 1, c);
        assert(1 * c == c);
    }
}

/// The common scale of the digits of `mag` and of a decimal with exponent `x`.
proof fn lemma_common_scale(mag: nat, j: nat, k: nat, x: int) -> (g: nat)
    requires
        j >= 1,
        k >= 1,
        x == j - 400 - k,
    ensures
        g > 0,
        raised(mag) * pow10((k - 1) as nat) == g * (mag_units(mag) * den(x)),
        forall|c: nat| #![trigger num(c, x)]
            c * decade_top((j - 1) as nat) == g * num(c, x),
{
    let v = mag_units(mag);
    let u = pow2(1074);
    lemma_pow10_adds(400, (k - 1) as nat);
    let big = pow10((399 + k) as nat);
    assert(raised(mag) * pow10((k - 1) as nat) == v * big) by (nonlinear_arith)
        requires
            raised(mag) == v * pow10(400),
            big == pow10(400) * pow10((k - 1) as nat),
    ;
    let t = pow10((j - 1) as nat);
    if x >= 0 {
        let g = big;
        lemma_pow10_monotone((399 + k) as nat, (399 + k) as nat);
        lemma_pow10_adds(x as nat, (399 + k) as nat);
        let p = pow10(x as nat);
        assert(t == p * big);
        assert(v * big == g * (v * 1)) by (nonlinear_arith)
            requires
                g == big,
        ;
        assert forall|c: nat| #![trigger num(c, x)]
            c * decade_top((j - 1) as nat) == g * num(c, x) by {
            assert(c * (u * t) == big * (c * p * u)) by (nonlinear_arith)
                requires
                    t == p * big,
            ;
        }
        g
    } else {
        let g = t;
        let d = pow10((-x) as nat);
        lemma_pow10_monotone((j - 1) as nat, (j - 1) as nat);
        lemma_pow10_adds((j - 1) as nat, (-x) as nat);
        assert(big == t * d);
        assert(v * big == g * (v * d)) by (nonlinear_arith)
            requires
                g == t,
                big == t * d,
        ;
        assert forall|c: nat| #![trigger num(c, x)]
            c * decade_top((j - 1) as nat) == g * num(c, x) by {
            assert(c * (u * t) == t * (c * u)) by (nonlinear_arith);
        }
        g
    }
}

/// The two `k`-digit neighbours of `mag`.
pub open spec fn neighbours(mag: nat, j: nat, k: nat, lo: nat, r: nat) -> bool {
    let t = decade_top((j - 1) as nat);
    &&& in_decade(mag, j)
    &&& k >= 1
    &&& raised(mag) * pow10((k - 1) as nat) == lo * t + r
    &&& r < t
    &&& pow10((k - 1) as nat) <= lo < pow10(k)
}

/// A decimal at most `mag` rounds at most to `mag`, and one at least `mag` at least.
proof fn lemma_sides(mag: nat, j: nat, k: nat, lo: nat, r: nat, c: nat)
    requires
        mag < INF_MAG,
        neighbours(mag, j, k, lo, r),
    ensures
        c <= lo ==> decimal_mag(c, j - 400 - k) <= mag,
        c > lo ==> decimal_mag(c, j - 400 - k) >= mag,
        c == lo && r == 0 ==> decimal_mag(c, j - 400 - k) == mag,
{
    let x = j - 400 - k;
    let t = decade_top((j - 1) as nat);
    let g = lemma_common_scale(mag, j, k, x);
    lemma_den(x);
    let v = mag_units(mag);
    lemma_round_exact(mag);
    lemma_round_scale(v, 1, den(x));
    assert(1 * den(x) == den(x));
    assert(c * t == g * num(c, x));
    if c <= lo {
        assert(c * t <= lo * t) by (nonlinear_arith)
            requires
                c <= lo,
        ;
        assert(num(c, x) <= v * den(x)) by (nonlinear_arith)
            requires
                g > 0,
                g * num(c, x) <= g * (v * den(x)),
        ;
        lemma_round_monotone(num(c, x), v * den(x), den(x));
        if c == lo && r == 0 {
            assert(num(c, x) == v * den(x)) by (nonlinear_arith)
                requires
                    g > 0,
                    g * num(c, x) == g * (v * den(x)),
            ;
        }
    } else {
        assert(c * t >= lo * t + t) by (nonlinear_arith)
            requires
                c >= lo + 1,
        ;
        assert(num(c, x) >= v * den(x)) by (nonlinear_arith)
            requires
                g > 0,
                g * num(c, x) >= g * (v * den(x)),
        ;
        lemma_round_monotone(v * den(x), num(c, x), den(x));
    }
}

/// If any decimal of at most `k` digits reads back, one of the two neighbours does.
proof fn lemma_neighbours_suffice(mag: nat, j: nat, k: nat, lo: nat, r: nat, m: nat, y: int)
    requires
        0 < mag < INF_MAG,
        neighbours(mag, j, k, lo, r),
        m < pow10(k),
        decimal_mag(m, y) == mag,
    ensures
        decimal_mag(lo, j - 400 - k) == mag || decimal_mag(lo + 1, j - 400 - k) == mag,
{
    let x = j - 400 - k;
    if y >= x {
        let t = (y - x) as nat;
        let c = m * pow10(t);
        lemma_decimal_shift(m, x, t);
        if c <= lo {
            lemma_decimal_monotone(c, lo, x);
            lemma_sides(mag, j, k, lo, r, lo);
        } else {
            lemma_decimal_monotone(lo + 1, c, x);
            lemma_sides(mag, j, k, lo, r, lo + 1);
        }
    } else {
        let t = (x - y) as nat;
        let b = pow10((k - 1) as nat);
        lemma_decimal_shift(b, y, t);
        lemma_pow10_adds((k - 1) as nat, t);
        lemma_pow10_monotone(k, (k - 1 + t) as nat);
        lemma_decimal_monotone(m, b * pow10(t), y);
        lemma_decimal_monotone(b, lo, x);
        lemma_sides(mag, j, k, lo, r, lo);
    }
}

/// Less than half the spacing away from a grid point, rounding gives that point.
proof fn lemma_round_near(mag: nat, n: nat, d: nat)
    requires
        0 < mag < INF_MAG,
        d > 0,
        // |n/d - v| <= v / (2 * 10^16)
        20_000_000_000_000_000 * n <= 20_000_000_000_000_000 * (mag_units(mag) * d) + mag_units(mag)
            * d,
        20_000_000_000_000_000 * n >= 20_000_000_000_000_000 * (mag_units(mag) * d) - mag_units(mag)
            * d,
    ensures
        round_mag(n, d) == mag,
{
    lemma_decode(mag);
    let s = significand(mag);
    let e = exponent(mag);
    let w = pow2(e);
    vstd::arithmetic::power2::lemma_pow2_pos(e);
    let dw = d * w;
    assert(mag_units(mag) * d == s * dw) by (nonlinear_arith)
        requires
            mag_units(mag) == s * w,
            dw == d * w,
    ;
    assert(dw > 0) by (nonlinear_arith)
        requires
            dw == d * w,
            d > 0,
            w > 0,
    ;
    let vd = s * dw;
    let t = n as int - vd as int;
    assert(2 * t < dw && -(dw as int) < 2 * t) by (nonlinear_arith)
        requires
            20_000_000_000_000_000 * t <= vd,
            -(vd as int) <= 20_000_000_000_000_000 * t,
            vd == s * dw,
            s < 0x20_0000_0000_0000,
            dw > 0,
    ;
    vstd::arithmetic::power2::lemma2_to64();
    if t >= 0 {
        assert(n == s * dw + t);
        assert(n < dw * 0x20_0000_0000_0000 && (s >= 0x10_0000_0000_0000 ==> n >= dw
            * 0x10_0000_0000_0000)) by (nonlinear_arith)
            requires
                n == s * dw + t,
                s + 1 <= 0x20_0000_0000_0000,
                0 <= t < dw,
                dw > 0,
        ;
        lemma_round_octave(n, d, e);
        vstd::arithmetic::div_mod::lemma_fundamental_div_mod_converse(
            n as int,
            dw as int,
            s as int,
            t,
        );
    } else if e == 0 || s > 0x10_0000_0000_0000 {
        assert(s >= 1) by (nonlinear_arith)
            requires
                n == s * dw + t,
                t < 0,
                n >= 0,
        ;
        assert(n == (s - 1) * dw + (dw + t)) by (nonlinear_arith)
            requires
                n == s * dw + t,
        ;
        assert(n < dw * 0x20_0000_0000_0000 && (s > 0x10_0000_0000_0000 ==> n >= dw
            * 0x10_0000_0000_0000)) by (nonlinear_arith)
            requires
                n == (s - 1) * dw + (dw + t),
                s < 0x20_0000_0000_0000,
                0 < dw + t < dw,
                dw > 0,
        ;
        lemma_round_octave(n, d, e);
        vstd::arithmetic::div_mod::lemma_fundamental_div_mod_converse(
            n as int,
            dw as int,
            s - 1,
            dw + t,
        );
    } else {
        // The least significand of an octave: the spacing below is half as wide.
        let h = pow2((e - 1) as nat);
        vstd::arithmetic::power2::lemma_pow2_unfold(e);
        vstd::arithmetic::power2::lemma_pow2_pos((e - 1) as nat);
        let dh = d * h;
        assert(dw == 2 * dh && dh > 0) by (nonlinear_arith)
            requires
                dw == d * w,
                dh == d * h,
                w == 2 * h,
                d > 0,
                h > 0,
        ;
        assert(n == 0x20_0000_0000_0000 * dh + t);
        assert(-(dh as int) < 2 * t) by (nonlinear_arith)
            requires
                -(vd as int) <= 20_000_000_000_000_000 * t,
                vd == 0x10_0000_0000_0000 * dw,
                dw == 2 * dh,
                dh > 0,
        ;
        lemma_round_octave(n, d, (e - 1) as nat);
        assert(n == 0x1F_FFFF_FFFF_FFFF * dh + (dh + t));
        vstd::arithmetic::div_mod::lemma_fundamental_div_mod_converse(
            n as int,
            dh as int,
            0x1F_FFFF_FFFF_FFFF,
            dh + t,
        );
    }
}

/// Seventeen digits always read back.
proof fn lemma_seventeen(mag: nat, j: nat, lo: nat, r: nat)
    requires
        0 < mag < INF_MAG,
        neighbours(mag, j, 17, lo, r),
    ensures
        decimal_mag(lo, j - 400 - 17) == mag || decimal_mag(lo + 1, j - 400 - 17) == mag,
{
    let x = j - 400 - 17;
    let t = decade_top((j - 1) as nat);
    let g = lemma_common_scale(mag, j, 17, x);
    lemma_den(x);
    let v = mag_units(mag) * den(x);
    lemma_pow10_16();
    let c: nat = if 2 * r >= t {
        lo + 1
    } else {
        lo
    };
    let n = num(c, x);
    assert(c * t == g * n);
    let total = lo * t + r;
    assert(total == g * v);
    assert((lo + 1) * t == lo * t + t) by (nonlinear_arith);
    assert(total >= 10_000_000_000_000_000 * t) by (nonlinear_arith)
        requires
            total == lo * t + r,
            lo >= 10_000_000_000_000_000,
            r >= 0,
    ;
    assert(20_000_000_000_000_000 * n <= 20_000_000_000_000_000 * v + v) by (nonlinear_arith)
        requires
            g > 0,
            2 * (g * n) <= 2 * (g * v) + t,
            g * v >= 10_000_000_000_000_000 * t,
    ;
    assert(20_000_000_000_000_000 * n >= 20_000_000_000_000_000 * v - v) by (nonlinear_arith)
        requires
            g > 0,
            2 * (g * n) >= 2 * (g * v) - t,
            g * v >= 10_000_000_000_000_000 * t,
    ;
    lemma_round_near(mag, n, den(x));
}

proof fn lemma_pow10_16()
    ensures
        pow10(16) == 10_000_000_000_000_000,
        pow10(17) == 100_000_000_000_000_000,
{
    reveal_with_fuel(pow10, 18);
}

pub proof fn lemma_decade_unique(mag: nat, a: nat, b: nat)
    requires
        in_decade(mag, a),
        in_decade(mag, b),
    ensures
        a == b,
{
    if a < b {
        lemma_pow10_monotone(a, (b - 1) as nat);
        assert(pow2(1074) * pow10(a) <= pow2(1074) * pow10((b - 1) as nat)) by (nonlinear_arith)
            requires
                pow10(a) <= pow10((b - 1) as nat),
        ;
    } else if b < a {
        lemma_pow10_monotone(b, (a - 1) as nat);
        assert(pow2(1074) * pow10(b) <= pow2(1074) * pow10((a - 1) as nat)) by (nonlinear_arith)
            requires
                pow10(b) <= pow10((a - 1) as nat),
        ;
    }
}

proof fn lemma_least_unique(mag: nat, k: nat)
    requires
        k >= 1,
        reads_back(mag, k),
        forall|i: nat| 1 <= i < k ==> !reads_back(mag, i),
    ensures
        least_digits(mag) == k,
{
    let c = least_digits(mag);
    assert(reads_back(mag, c) && c >= 1 && forall|i: nat| 1 <= i < c ==> !reads_back(mag, i));
}

/// What stopping at `k` digits shows.
proof fn lemma_found(mag: nat, j: nat, k: nat, lo: nat, r: nat)
    requires
        0 < mag < INF_MAG,
        neighbours(mag, j, k, lo, r),
        forall|i: nat| 1 <= i < k ==> !reads_back(mag, i),
        decimal_mag(lo, j - 400 - k) == mag || decimal_mag(lo + 1, j - 400 - k) == mag,
    ensures
        least_digits(mag) == k,
        decade(mag) == j,
        leading(mag, k) == lo,
        past_half(mag, k) == (2 * r >= decade_top((j - 1) as nat)),
{
    let x = j - 400 - k;
    let t = decade_top((j - 1) as nat);
    if decimal_mag(lo, x) == mag {
        assert(reads_back(mag, k));
    } else if lo + 1 < pow10(k) {
        assert(reads_back(mag, k));
    } else {
        lemma_decimal_shift(1, x, k);
        assert(1 * pow10(k) == pow10(k));
        lemma_pow10_monotone(1, k);
        assert(pow10(1) == 10) by {
            reveal_with_fuel(pow10, 2);
        }
        assert(1 < pow10(k) && decimal_mag(1, x + k) == mag);
        assert(reads_back(mag, k));
    }
    lemma_least_unique(mag, k);
    lemma_decade_unique(mag, j, decade(mag));
    assert(t > 0);
    vstd::arithmetic::div_mod::lemma_fundamental_div_mod_converse(
        (raised(mag) * pow10((k - 1) as nat)) as int,
        t as int,
        lo as int,
        r as int,
    );
}

/// What going on past `k` digits shows.
proof fn lemma_not_found(mag: nat, j: nat, k: nat, lo: nat, r: nat)
    requires
        0 < mag < INF_MAG,
        neighbours(mag, j, k, lo, r),
        decimal_mag(lo, j - 400 - k) != mag,
        decimal_mag(lo + 1, j - 400 - k) != mag,
    ensures
        !reads_back(mag, k),
{
    if reads_back(mag, k) {
        let (m, y) = choose|m: nat, y: int|
            m < pow10(k) && #[trigger] decimal_mag(m, y) == mag;
        lemma_neighbours_suffice(mag, j, k, lo, r, m, y);
    }
}

/// A natural number of up to 64 bits.
pub(crate) fn big_of(v: u64) -> (r: Big)
    ensures
        r@ == v,
{
    let mut r = Big::from_u32((v / 0x1_0000_0000) as u32);
    r.mul_add(0x1_0000, 0);
    r.mul_add(0x1_0000, 0);
    let low_part: u32 = (v % 0x1_0000_0000) as u32;
    r.mul_add(1, low_part);
    r
}

/// `m * 2^e`.
pub(crate) fn double_times(m: Big, e: u32) -> (r: Big)
    ensures
        r@ == m@ * pow2(e as nat),
{
    let ghost m0 = m@;
    let mut r = m;
    let mut i: u32 = 0;
    proof {
        vstd::arithmetic::power2::lemma2_to64();
        assert(m0 * pow2(0) == m0);
    }
    while i < e
        invariant
            i <= e,
            r@ == m0 * pow2(i as nat),
        decreases e - i,
    {
        r.mul_add(2, 0);
        i = i + 1;
        proof {
            vstd::arithmetic::power2::lemma_pow2_unfold(i as nat);
            let w = pow2((i - 1) as nat);
            assert((m0 * w) * 2 == m0 * (2 * w)) by (nonlinear_arith);
        }
    }
    r
}

/// `mag * 10^400`, in units.
fn raise(mag: u64) -> (r: Big)
    requires
        mag < INF_MAG,
    ensures
        r@ == raised(mag as nat),
{
    let (m, e) = Scalar::decode(mag);
    proof {
        lemma_decode(mag as nat);
    }
    let mut r = double_times(big_of(m), e);
    let ghost v = r@;
    let mut i: u32 = 0;
    assert(v * pow10(0) == v) by (nonlinear_arith)
        requires
            pow10(0) == 1,
    ;
    while i < 400
        invariant
            i <= 400,
            r@ == v * pow10(i as nat),
        decreases 400 - i,
    {
        r.mul_add(10, 0);
        i = i + 1;
        assert((v * pow10((i - 1) as nat)) * 10 == v * (10 * pow10((i - 1) as nat)))
            by (nonlinear_arith);
    }
    r
}

/// Whether `m * 10^x` reads back as `mag`.
fn is_read_back(m: u64, x: i32, mag: u64) -> (r: bool)
    requires
        m <= 100_000_000_000_000_000,
        -10000 < x,
    ensures
        r == (decimal_mag(m as nat, x as int) == mag),
{
    proof {
        lemma_pow10_16();
        assert(pow10(18) == 10 * pow10(17));
    }
    scaled_decimal(big_of(m), 18, x as i128) == mag
}

/// One digit of the expansion: how often `t` goes into `r`.
pub(crate) fn next_digit(r: &mut Big, t: &Big) -> (d: u64)
    requires
        old(r)@ < 10 * t@,
    ensures
        d < 10,
        final(r)@ < t@,
        old(r)@ == d * t@ + final(r)@,
{
    let ghost r0 = r@;
    let mut d: u64 = 0;
    let mut below = r.compare(t).0;
    while !below
        invariant
            r0 < 10 * t@,
            below == (r@ < t@),
            r0 == d * t@ + r@,
            d <= 10,
        decreases 10 - d,
    {
        assert(d < 9 || r@ < t@) by (nonlinear_arith)
            requires
                r0 < 10 * t@,
                r0 == d * t@ + r@,
        ;
        let ghost r1 = r@;
        r.subtract(t);
        d = d + 1;
        assert(r0 == d * t@ + r@) by (nonlinear_arith)
            requires
                r0 == (d - 1) * t@ + r1,
                r@ == r1 - t@,
        ;
        below = r.compare(t).0;
    }
    assert(d < 10) by (nonlinear_arith)
        requires
            r0 < 10 * t@,
            r0 == d * t@ + r@,
    ;
    d
}

/// The decade of a magnitude: it and the bottom of the decade on the same scale, and which
/// decade it is.
pub(crate) fn find_decade(mag: u64) -> (r: (Big, Big, i32))
    requires
        0 < mag < INF_MAG,
    ensures
        r.0@ == raised(mag as nat),
        1 <= r.2 < 2000,
        in_decade(mag as nat, r.2 as nat),
        r.1@ == decade_top((r.2 - 1) as nat),
{
    let n = raise(mag);
    let mut t = double_times(Big::from_u32(1), 1074);
    proof {
        assert(pow2(1074) * pow10(0) == pow2(1074)) by (nonlinear_arith)
            requires
                pow10(0) == 1,
        ;
        lemma_decode(mag as nat);
        let v = mag_units(mag as nat);
        vstd::arithmetic::power2::lemma_pow2_pos(exponent(mag as nat));
        assert(v >= 1) by (nonlinear_arith)
            requires
                v == significand(mag as nat) * pow2(exponent(mag as nat)),
                significand(mag as nat) >= 1,
                pow2(exponent(mag as nat)) >= 1,
        ;
        crate::scalar::decimal::lemma_pow10_above_eights(400);
        crate::scalar::shift::lemma_pow2_monotone(1074, 1200);
        assert(v * pow10(400) >= pow2(1074)) by (nonlinear_arith)
            requires
                v >= 1,
                pow10(400) >= pow2(1074),
        ;
        lemma_raised_bound(mag as nat);
    }
    let mut cur = double_times(Big::from_u32(10), 1074);
    let mut j: i32 = 1;
    let mut below = n.compare(&cur).0;
    proof {
        lemma_decade_step(1);
    }
    while !below
        invariant
            1 <= j < 2000,
            n@ == raised(mag as nat),
            n@ < decade_top(1000),
            t@ == decade_top((j - 1) as nat),
            cur@ == decade_top(j as nat),
            t@ <= n@,
            below == (n@ < cur@),
        decreases 2000 - j,
    {
        proof {
            if j >= 1000 {
                lemma_pow10_monotone(1000, j as nat);
                assert(decade_top(1000) <= decade_top(j as nat)) by (nonlinear_arith)
                    requires
                        decade_top(1000) == pow2(1074) * pow10(1000),
                        decade_top(j as nat) == pow2(1074) * pow10(j as nat),
                        pow10(1000) <= pow10(j as nat),
                ;
            }
            lemma_decade_step(j as nat);
            lemma_decade_step((j + 1) as nat);
        }
        t.mul_add(10, 0);
        cur.mul_add(10, 0);
        j = j + 1;
        below = n.compare(&cur).0;
    }
    (n, t, j)
}

/// The shortest decimal that reads back.
fn shortest_digits(mag: u64) -> (r: (u64, i32))
    requires
        0 < mag < INF_MAG,
    ensures
        (r.0 as nat, r.1 as int) == shortest(mag as nat),
        -10000 < r.1 < 10000,
{
    let (n, t, j) = find_decade(mag);
    let mut r = n;
    let mut lo: u64 = 0;
    let mut k: i32 = 0;
    let mut p10: u64 = 1;
    proof {
        lemma_decade_step(j as nat);
    }
    loop
        invariant
            0 < mag < INF_MAG,
            1 <= j < 2000,
            0 <= k < 17,
            in_decade(mag as nat, j as nat),
            t@ == decade_top((j - 1) as nat),
            k == 0 ==> lo == 0 && r@ == raised(mag as nat) && r@ < 10 * t@,
            k > 0 ==> neighbours(mag as nat, j as nat, k as nat, lo as nat, r@),
            p10 == pow10(k as nat),
            lo < p10,
            forall|i: nat| 1 <= i <= k ==> !reads_back(mag as nat, i),
        decreases 17 - k,
    {
        let ghost r0 = r@;
        let ghost lo0 = lo;
        proof {
            lemma_pow10_16();
            lemma_pow10_monotone((k + 1) as nat, 17);
            lemma_pow10_monotone(k as nat, 16);
        }
        if k > 0 {
            r.mul_add(10, 0);
        }
        let d = next_digit(&mut r, &t);
        lo = lo * 10 + d;
        p10 = p10 * 10;
        k = k + 1;
        proof {
            lemma_digit_step(
                mag as nat,
                j as nat,
                k as nat,
                lo0 as nat,
                r0,
                d as nat,
                lo as nat,
                r@,
            );
        }
        let x: i32 = j - 400 - k;
        let down = is_read_back(lo, x, mag);
        let up = is_read_back(lo + 1, x, mag);
        if down || up {
            proof {
                lemma_found(mag as nat, j as nat, k as nat, lo as nat, r@);
            }
            r.mul_add(2, 0);
            let half = !r.compare(&t).0;
            let m: u64 = if down && !(up && half) {
                lo
            } else {
                lo + 1
            };
            return if m == p10 {
                (1, x + k)
            } else {
                (m, x)
            };
        }
        proof {
            if k == 17 {
                lemma_seventeen(mag as nat, j as nat, lo as nat, r@);
            }
            lemma_not_found(mag as nat, j as nat, k as nat, lo as nat, r@);
        }
    }
}

pub proof fn lemma_decade_step(j: nat)
    requires
        j >= 1,
    ensures
        decade_top(j) == 10 * decade_top((j - 1) as nat),
{
    let u = pow2(1074);
    let p = pow10((j - 1) as nat);
    assert(u * (10 * p) == 10 * (u * p)) by (nonlinear_arith);
}

proof fn lemma_raised_bound(mag: nat)
    requires
        mag < INF_MAG,
    ensures
        raised(mag) < decade_top(1000),
{
    lemma_decode(mag);
    let s = significand(mag);
    let e = exponent(mag);
    let w = pow2(e);
    vstd::arithmetic::power2::lemma2_to64_rest();
    crate::scalar::shift::lemma_pow2_monotone(e, 2045);
    vstd::arithmetic::power2::lemma_pow2_adds(53, 2045);
    vstd::arithmetic::power2::lemma_pow2_adds(1024, 1074);
    lemma_pow10_adds(400, 600);
    crate::scalar::decimal::lemma_pow10_above_eights(600);
    crate::scalar::shift::lemma_pow2_monotone(1024, 1800);
    lemma_pow10_monotone(400, 400);
    vstd::arithmetic::power2::lemma_pow2_pos(1074);
    assert(s * w < pow2(53) * pow2(2045)) by (nonlinear_arith)
        requires
            s < pow2(53),
            0 < w <= pow2(2045),
    ;
    let v = mag_units(mag);
    let u = pow2(1074);
    let a = pow10(400);
    let b = pow10(600);
    assert(v * a < u * (a * b)) by (nonlinear_arith)
        requires
            v < pow2(1024) * u,
            pow2(1024) <= b,
            a > 0,
            u > 0,
    ;
}

/// Appending a digit keeps the neighbours.
pub proof fn lemma_digit_step(mag: nat, j: nat, k: nat, lo0: nat, r0: nat, d: nat, lo: nat, r: nat)
    requires
        k >= 1,
        in_decade(mag, j),
        k == 1 ==> lo0 == 0 && r0 == raised(mag) && r0 == d * decade_top((j - 1) as nat) + r,
        k > 1 ==> neighbours(mag, j, (k - 1) as nat, lo0, r0) && r0 * 10 == d * decade_top(
            (j - 1) as nat,
        ) + r,
        r < decade_top((j - 1) as nat),
        d < 10,
        lo == lo0 * 10 + d,
    ensures
        neighbours(mag, j, k, lo, r),
{
    let t = decade_top((j - 1) as nat);
    let big = raised(mag);
    if k == 1 {
        assert(pow10(0) == 1 && pow10(1) == 10) by {
            reveal_with_fuel(pow10, 2);
        }
        assert(big * pow10(0) == big) by (nonlinear_arith)
            requires
                pow10(0) == 1,
        ;
        assert(d >= 1) by (nonlinear_arith)
            requires
                big == d * t + r,
                r < t,
                big >= t,
        ;
    } else {
        let p = pow10((k - 2) as nat);
        assert(pow10((k - 1) as nat) == 10 * p);
        assert(big * (10 * p) == lo * t + r) by (nonlinear_arith)
            requires
                big * p == lo0 * t + r0,
                r0 * 10 == d * t + r,
                lo == lo0 * 10 + d,
        ;
    }
}

/// `n` zeros, appended.
pub(crate) fn push_zeros(out: &mut Vec<char>, n: usize)
    ensures
        final(out)@ == old(out)@ + zeros(n as nat),
{
    let ghost start = out@;
    let mut i: usize = 0;
    while i < n
        invariant
            i <= n,
            out@ =~= start + zeros(i as nat),
        decreases n - i,
    {
        out.push('0');
        i = i + 1;
    }
}

fn positional_text(m: u64, x: i32) -> (r: Vec<char>)
    requires
        -10000 < x < 10000,
    ensures
        r@ == positional(m as nat, x as int),
{
    let d = decimal_text(m as u128);
    if x >= 0 {
        let mut r = d;
        push_zeros(&mut r, x as usize);
        return r;
    }
    let y: usize = (-x) as usize;
    let mut r: Vec<char> = Vec::new();
    if d.len() > y {
        let cut: usize = d.len() - y;
        push_text(&mut r, &crate::text::part(&d, 0, cut));
        push_lit(&mut r, ".");
        push_text(&mut r, &crate::text::part(&d, cut, d.len()));
        assert(r@ =~= positional(m as nat, x as int));
    } else {
        push_lit(&mut r, "0.");
        push_zeros(&mut r, y - d.len());
        push_text(&mut r, &d);
        assert(r@ =~= positional(m as nat, x as int));
    }
    r
}

/// Writes a number.
pub fn show_number(a: Scalar) -> (r: Vec<char>)
    ensures
        r@ == shown(a),
{
    if a.is_nan() {
        return chars_of("NaN");
    }
    let mut r: Vec<char> = Vec::new();
    if a.is_negative() {
        push_lit(&mut r, "-");
    }
    if a.is_infinite() {
        push_lit(&mut r, "inf");
    } else if a.magnitude() == 0 {
        push_lit(&mut r, "0");
    } else {
        let (m, x) = shortest_digits(a.magnitude());
        let body = positional_text(m, x);
        push_text(&mut r, &body);
    }
    assert(r@ =~= shown(a));
    r
}

} // verus!
