//! Writing a number rounded to so many decimals, for people.

use vstd::arithmetic::power2::pow2;
use vstd::prelude::*;

use crate::scalar::big::Big;
#[allow(unused_imports)]
use crate::scalar::decimal::pow10;
use crate::scalar::number::Scalar;
#[allow(unused_imports)]
use crate::scalar::number::{lemma_decode, mag_units};
#[allow(unused_imports)]
use crate::scalar::rounding::half_even;
use crate::scalar::rounding::INF_MAG;
use crate::scalar::show::{big_of, double_times, find_decade, next_digit, push_zeros};
#[allow(unused_imports)]
use crate::scalar::show::{
    decade, decade_top, in_decade, lemma_decade_step, lemma_decade_unique, lemma_digit_step,
    neighbours, raised, zeros,
};
use crate::text::{chars_of, decimal_text, digit_of, part, push_lit, push_text};
#[allow(unused_imports)]
use crate::text::decimal;

verus! {

/// Digits with a point before the last `k` of them, and one before the point at least.
pub open spec fn with_point(d: Seq<char>, k: nat) -> Seq<char> {
    let p = if d.len() > k {
        d
    } else {
        zeros((k + 1 - d.len()) as nat) + d
    };
    p.subrange(0, p.len() - k) + "."@ + p.subrange(p.len() - k, p.len() as int)
}

/// The sign and the body of a number; without a number, the words for that.
pub open spec fn signed_text(a: Scalar, body: Seq<char>) -> Seq<char> {
    let b = if a.infinite() {
        "inf"@
    } else {
        body
    };
    if a.nan() {
        "NaN"@
    } else if a.negative() {
        "-"@ + b
    } else {
        b
    }
}

/// A magnitude in units of `10^-k`, to the nearest, a tie going to the even neighbour.
pub open spec fn rounded(mag: nat, k: nat) -> nat {
    half_even(mag_units(mag) * pow10(k), pow2(1074))
}

/// A number with `k` decimals.
pub open spec fn fixed(a: Scalar, k: nat) -> Seq<char> {
    signed_text(a, with_point(decimal(rounded(a.mag(), k)), k))
}

/// The leading `k + 1` digits of a magnitude, rounded, and the power of ten of the first.
pub open spec fn leading_digits(mag: nat, k: nat) -> (nat, int) {
    let j = decade(mag);
    let n = half_even(raised(mag) * pow10(k), decade_top((j - 1) as nat));
    if n == pow10(k + 1) {
        (pow10(k), j - 400)
    } else {
        (n, j - 401)
    }
}

/// The power of ten at the end.
pub open spec fn power_text(x: int) -> Seq<char> {
    if x < 0 {
        "e-"@ + decimal((-x) as nat)
    } else {
        "e"@ + decimal(x as nat)
    }
}

/// A number with one digit before the point, `k` behind it, and a power of ten.
pub open spec fn scientific(a: Scalar, k: nat) -> Seq<char> {
    signed_text(
        a,
        if a.mag() == 0 {
            with_point(zeros(k + 1), k) + power_text(0)
        } else {
            with_point(decimal(leading_digits(a.mag(), k).0), k) + power_text(
                leading_digits(a.mag(), k).1,
            )
        },
    )
}

/// Decimal notation of a natural number of any size.
fn big_text(b: Big) -> (r: Vec<char>)
    ensures
        r@ == decimal(b@),
    decreases b@,
{
    let ghost n = b@;
    let mut rest = b;
    let d = rest.divide(10);
    let zero = Big::from_u32(0);
    if rest.compare(&zero).1 {
        let mut r: Vec<char> = Vec::new();
        r.push(digit_of(d as u8));
        assert(n < 10);
        assert(r@ =~= decimal(n));
        r
    } else {
        assert(n >= 10);
        let mut r = big_text(rest);
        r.push(digit_of(d as u8));
        r
    }
}

/// `b / 2^1074`, to the nearest, a tie going to the even neighbour.
fn round_units(b: Big) -> (r: Big)
    ensures
        r@ == half_even(b@, pow2(1074)),
{
    let ghost n = b@;
    let ghost mut low: nat = 0;
    let mut q = b;
    let mut sticky: bool = false;
    let mut i: u32 = 0;
    proof {
        vstd::arithmetic::power2::lemma2_to64();
        assert(n * pow2(0) == n);
    }
    while i < 1073
        invariant
            i <= 1073,
            n == q@ * pow2(i as nat) + low,
            low < pow2(i as nat),
            sticky == (low > 0),
        decreases 1073 - i,
    {
        let ghost q0 = q@;
        let ghost low0 = low;
        let bit = q.divide(2);
        proof {
            let w = pow2(i as nat);
            vstd::arithmetic::power2::lemma_pow2_unfold((i + 1) as nat);
            vstd::arithmetic::power2::lemma_pow2_pos(i as nat);
            vstd::arithmetic::div_mod::lemma_fundamental_div_mod(q0 as int, 2);
            low = bit as nat * w + low0;
            assert(bit as nat * w >= 0 && (bit == 0 ==> bit as nat * w == 0) && (bit == 1 ==> bit as nat
                * w == w)) by (nonlinear_arith)
                requires
                    w > 0,
            ;
            assert(q0 * w == q@ * (2 * w) + bit as nat * w) by (nonlinear_arith)
                requires
                    q0 == 2 * q@ + bit,
            ;
        }
        if bit != 0 {
            sticky = true;
        }
        i = i + 1;
    }
    let ghost q1 = q@;
    let half = q.divide(2);
    let ghost whole = q@;
    let odd = q.divide(2);
    let up: u32 = if half != 0 && (sticky || odd != 0) {
        1
    } else {
        0
    };
    q.mul_add(2, odd + up);
    proof {
        let w = pow2(1073);
        vstd::arithmetic::power2::lemma_pow2_unfold(1074);
        vstd::arithmetic::power2::lemma_pow2_pos(1073);
        vstd::arithmetic::div_mod::lemma_fundamental_div_mod(q1 as int, 2);
        vstd::arithmetic::div_mod::lemma_fundamental_div_mod(whole as int, 2);
        let left = half as nat * w + low;
        assert((half == 0 ==> half as nat * w == 0) && (half == 1 ==> half as nat * w == w))
            by (nonlinear_arith);
        assert(n == whole * (2 * w) + left) by (nonlinear_arith)
            requires
                n == q1 * w + low,
                q1 == 2 * whole + half,
                left == half as nat * w + low,
        ;
        vstd::arithmetic::div_mod::lemma_fundamental_div_mod_converse(
            n as int,
            pow2(1074) as int,
            whole as int,
            left as int,
        );
    }
    q
}

fn point_text(d: &Vec<char>, k: usize) -> (r: Vec<char>)
    requires
        k < 100,
    ensures
        r@ == with_point(d@, k as nat),
{
    let mut p: Vec<char> = Vec::new();
    if d.len() <= k {
        push_zeros(&mut p, k + 1 - d.len());
    }
    push_text(&mut p, d);
    assert(p@ =~= (if d@.len() > k {
        d@
    } else {
        zeros((k + 1 - d@.len()) as nat) + d@
    }));
    let cut: usize = p.len() - k;
    let mut r = part(&p, 0, cut);
    push_lit(&mut r, ".");
    push_text(&mut r, &part(&p, cut, p.len()));
    r
}

/// The sign before a body, or the words for what is no number.
fn sign_text(a: Scalar, body: &Vec<char>) -> (r: Vec<char>)
    ensures
        r@ == signed_text(a, body@),
{
    if a.is_nan() {
        return chars_of("NaN");
    }
    let mut r: Vec<char> = Vec::new();
    if a.is_negative() {
        push_lit(&mut r, "-");
    }
    if a.is_infinite() {
        push_lit(&mut r, "inf");
    } else {
        push_text(&mut r, body);
    }
    assert(r@ =~= signed_text(a, body@));
    r
}

/// Writes a number with `k` decimals.
pub fn show_fixed(a: Scalar, k: usize) -> (r: Vec<char>)
    requires
        k < 100,
    ensures
        r@ == fixed(a, k as nat),
{
    let none: Vec<char> = Vec::new();
    if a.is_nan() || a.is_infinite() {
        return sign_text(a, &none);
    }
    let (m, e) = Scalar::decode(a.magnitude());
    proof {
        lemma_decode(a.mag());
    }
    let mut b = double_times(big_of(m), e);
    let ghost v = b@;
    let mut i: usize = 0;
    assert(v * pow10(0) == v) by (nonlinear_arith)
        requires
            pow10(0) == 1,
    ;
    while i < k
        invariant
            i <= k,
            b@ == v * pow10(i as nat),
        decreases k - i,
    {
        b.mul_add(10, 0);
        i = i + 1;
        assert((v * pow10((i - 1) as nat)) * 10 == v * (10 * pow10((i - 1) as nat)))
            by (nonlinear_arith);
    }
    let d = big_text(round_units(b));
    sign_text(a, &point_text(&d, k))
}

/// The leading `k + 1` digits of a magnitude, rounded.
fn lead(mag: u64, k: usize) -> (r: (u64, i32))
    requires
        0 < mag < INF_MAG,
        k < 17,
    ensures
        (r.0 as nat, r.1 as int) == leading_digits(mag as nat, k as nat),
        -10000 < r.1 < 10000,
{
    let (n, t, j) = find_decade(mag);
    proof {
        lemma_decade_step(j as nat);
        lemma_decade_unique(mag as nat, j as nat, decade(mag as nat));
    }
    let mut r = n;
    let mut lo: u64 = 0;
    let mut p10: u64 = 1;
    let mut i: usize = 0;
    while i <= k
        invariant
            0 < mag < INF_MAG,
            i <= k + 1,
            k < 17,
            1 <= j < 2000,
            in_decade(mag as nat, j as nat),
            t@ == decade_top((j - 1) as nat),
            i == 0 ==> lo == 0 && r@ == raised(mag as nat) && r@ < 10 * t@,
            i > 0 ==> neighbours(mag as nat, j as nat, i as nat, lo as nat, r@),
            p10 == pow10(i as nat),
            lo < p10,
        decreases k + 1 - i,
    {
        let ghost r0 = r@;
        let ghost lo0 = lo;
        proof {
            crate::scalar::decimal::lemma_pow10_monotone((i + 1) as nat, 17);
            assert(pow10(17) == 100_000_000_000_000_000) by {
                reveal_with_fuel(pow10, 18);
            }
            assert(pow10((i + 1) as nat) == 10 * pow10(i as nat));
        }
        if i > 0 {
            r.mul_add(10, 0);
        }
        let d = next_digit(&mut r, &t);
        lo = lo * 10 + d;
        p10 = p10 * 10;
        i = i + 1;
        proof {
            lemma_digit_step(
                mag as nat,
                j as nat,
                i as nat,
                lo0 as nat,
                r0,
                d as nat,
                lo as nat,
                r@,
            );
        }
    }
    let ghost left = r@;
    r.mul_add(2, 0);
    let (below, equal) = r.compare(&t);
    let up: u64 = if below || (equal && lo % 2 == 0) {
        0
    } else {
        1
    };
    let m: u64 = lo + up;
    proof {
        let w = decade_top((j - 1) as nat);
        assert(raised(mag as nat) * pow10(k as nat) == lo * w + left);
        vstd::arithmetic::div_mod::lemma_fundamental_div_mod_converse(
            (raised(mag as nat) * pow10(k as nat)) as int,
            w as int,
            lo as int,
            left as int,
        );
        assert(m == half_even(raised(mag as nat) * pow10(k as nat), w));
        assert(pow10((k + 1) as nat) == 10 * pow10(k as nat));
    }
    if m == p10 {
        (p10 / 10, j - 400)
    } else {
        (m, j - 401)
    }
}

fn push_power(out: &mut Vec<char>, x: i32)
    requires
        -10000 < x < 10000,
    ensures
        final(out)@ == old(out)@ + power_text(x as int),
{
    let ghost start = out@;
    if x < 0 {
        push_lit(out, "e-");
        push_text(out, &decimal_text((-x) as u128));
    } else {
        push_lit(out, "e");
        push_text(out, &decimal_text(x as u128));
    }
    assert(out@ =~= start + power_text(x as int));
}

/// Writes a number with one digit before the point and `k` behind it.
pub fn show_scientific(a: Scalar, k: usize) -> (r: Vec<char>)
    requires
        k < 17,
    ensures
        r@ == scientific(a, k as nat),
{
    let none: Vec<char> = Vec::new();
    if a.is_nan() || a.is_infinite() {
        return sign_text(a, &none);
    }
    if a.magnitude() == 0 {
        let mut z: Vec<char> = Vec::new();
        push_zeros(&mut z, k + 1);
        assert(z@ =~= zeros((k + 1) as nat));
        let mut b = point_text(&z, k);
        push_power(&mut b, 0);
        return sign_text(a, &b);
    }
    let (n, x) = lead(a.magnitude(), k);
    let d = decimal_text(n as u128);
    let mut b = point_text(&d, k);
    push_power(&mut b, x);
    sign_text(a, &b)
}

} // verus!
