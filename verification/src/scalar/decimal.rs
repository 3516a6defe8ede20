//! Reading decimal notation, correctly rounded.

use vstd::arithmetic::power2::pow2;
use vstd::prelude::*;

use crate::scalar::big::Big;
use crate::scalar::number::Scalar;
#[allow(unused_imports)]
use crate::scalar::number::of_parts;
use crate::scalar::rounding::INF_MAG;
#[allow(unused_imports)]
use crate::scalar::rounding::{round_mag, to_mag};
use crate::text::{chars_of, is_digit_char, same_text};
#[allow(unused_imports)]
use crate::text::{is_digit, lower, lowered};

verus! {

/// `10^k`.
pub open spec fn pow10(k: nat) -> nat
    decreases k,
{
    if k == 0 {
        1
    } else {
        10 * pow10((k - 1) as nat)
    }
}

/// Magnitude nearest to `m * 10^x`.
pub open spec fn decimal_mag(m: nat, x: int) -> nat {
    if x >= 0 {
        to_mag(m * pow10(x as nat) * pow2(1074), 1)
    } else {
        to_mag(m * pow2(1074), pow10((-x) as nat))
    }
}

/// First position from `pos` on that is no digit.
pub open spec fn digits_end(s: Seq<char>, pos: int) -> int
    decreases s.len() - pos,
{
    if 0 <= pos < s.len() && is_digit(s[pos]) {
        digits_end(s, pos + 1)
    } else {
        pos
    }
}

/// Value of a run of digits, continuing `acc`.
pub open spec fn digits_value(s: Seq<char>, from: int, to: int, acc: nat) -> nat
    decreases to - from,
{
    if from >= to {
        acc
    } else {
        digits_value(s, from + 1, to, (acc * 10 + (s[from] as u32 - '0' as u32)) as nat)
    }
}

/// The exponent at `pos`, which must reach the end of the text; none is 0.
pub open spec fn exponent_part(s: Seq<char>, pos: int) -> Option<int> {
    if pos == s.len() {
        Some(0)
    } else if s[pos] == 'e' || s[pos] == 'E' {
        let signed = pos + 1 < s.len() && (s[pos + 1] == '-' || s[pos + 1] == '+');
        let a = if signed {
            pos + 2
        } else {
            pos + 1
        };
        if a < s.len() && digits_end(s, a) == s.len() {
            let v = digits_value(s, a, s.len() as int, 0) as int;
            if signed && s[pos + 1] == '-' {
                Some(-v)
            } else {
                Some(v)
            }
        } else {
            None
        }
    } else {
        None
    }
}

/// The magnitude that the unsigned notation at `pos` stands for: digits with an
/// optional point and exponent, to the end of the text.
pub open spec fn unsigned_part(s: Seq<char>, pos: int) -> Option<nat> {
    let a = digits_end(s, pos);
    let point = a < s.len() && s[a] == '.';
    let b = if point {
        digits_end(s, a + 1)
    } else {
        a
    };
    let frac = if point {
        b - a - 1
    } else {
        0
    };
    if a - pos + frac == 0 {
        None
    } else {
        match exponent_part(s, b) {
            None => None,
            Some(x) => {
                let whole = digits_value(s, pos, a, 0);
                let m = if point {
                    digits_value(s, a + 1, b, whole)
                } else {
                    whole
                };
                Some(decimal_mag(m, x - frac))
            },
        }
    }
}

/// The number that a text denotes: an optional sign, then `inf`, `infinity` or
/// `nan` in any case, or decimal notation.
pub open spec fn number_of(s: Seq<char>) -> Option<Scalar> {
    let signed = s.len() > 0 && (s[0] == '-' || s[0] == '+');
    let neg = signed && s[0] == '-';
    let pos: int = if signed {
        1
    } else {
        0
    };
    let word = lowered(s.subrange(pos, s.len() as int));
    if word == "inf"@ || word == "infinity"@ {
        Some(of_parts(neg, INF_MAG as nat))
    } else if word == "nan"@ {
        Some(of_parts(neg, 0x7FF8_0000_0000_0000))
    } else {
        match unsigned_part(s, pos) {
            None => None,
            Some(m) => Some(of_parts(neg, m)),
        }
    }
}

/// The magnitude nearest to `n / d` units.
fn ratio_mag(n: Big, d: Big) -> (mag: u64)
    requires
        d@ > 0,
    ensures
        mag == to_mag(n@, d@),
        mag <= INF_MAG,
{
    let ghost n0 = n@;
    let ghost d0 = d@;
    let mut top = d;
    top.mul_add(0x400_0000, 0);
    top.mul_add(0x800_0000, 0);
    let mut e: u64 = 0;
    proof {
        vstd::arithmetic::power2::lemma2_to64();
        assert(d0 * pow2(0) == d0);
        assert(top@ == d0 * 0x20_0000_0000_0000);
    }
    let ghost mut de = d0;
    let mut below_top = n.compare(&top).0;
    while !below_top && e < 2047
        invariant
            n@ == n0,
            de > 0,
            top@ == de * 0x20_0000_0000_0000,
            e <= 2047,
            below_top == (n@ < top@),
            round_mag(n0, d0) == e * 0x10_0000_0000_0000 + round_mag(n0, de),
        decreases 2047 - e,
    {
        proof {
            assert(round_mag(n0, de) == 0x10_0000_0000_0000 + round_mag(n0, 2 * de));
            de = 2 * de;
        }
        top.mul_add(2, 0);
        e = e + 1;
        below_top = n.compare(&top).0;
    }
    if !below_top {
        return INF_MAG;
    }
    let ghost t = top@ as int;
    let mut r = n;
    let mut q: u64 = 0;
    let mut k: u32 = 0;
    let ghost mut w: int = 1;
    while k < 53
        invariant
            k <= 53,
            w == pow2(k as nat),
            top@ == t,
            q < pow2(k as nat),
            r@ < t,
            n0 * w == q * t + r@,
        decreases 53 - k,
    {
        let ghost r0 = r@;
        let ghost q0 = q;
        proof {
            vstd::arithmetic::power2::lemma_pow2_unfold((k + 1) as nat);
            crate::scalar::shift::lemma_pow2_monotone((k + 1) as nat, 53);
            vstd::arithmetic::power2::lemma2_to64_rest();
        }
        r.mul_add(2, 0);
        q = 2 * q;
        let (less, _eq) = r.compare(&top);
        if !less {
            r.subtract(&top);
            q = q + 1;
        }
        proof {
            let w0 = w;
            w = 2 * w;
            assert(n0 * w == q * t + r@) by (nonlinear_arith)
                requires
                    w == 2 * w0,
                    n0 * w0 == q0 * t + r0,
                    (q == 2 * q0 && r@ == 2 * r0) || (q == 2 * q0 + 1 && r@ == 2 * r0 - t),
            ;
        }
        k = k + 1;
    }
    let ghost r1 = r@;
    r.mul_add(2, 0);
    let (below, tie) = r.compare(&top);
    proof {
        vstd::arithmetic::power2::lemma2_to64_rest();
        let m = 0x20_0000_0000_0000int;
        // n0 * m == q * (de * m) + r1, so q = n0 / de and r1 = (n0 % de) * m.
        vstd::arithmetic::div_mod::lemma_fundamental_div_mod(n0 as int, de as int);
        let qq = n0 as int / de as int;
        let rr = n0 as int % de as int;
        assert(n0 * m == qq * t + rr * m && 0 <= rr * m < t) by (nonlinear_arith)
            requires
                n0 == de * qq + rr,
                0 <= rr < de,
                t == de * m,
                m == 0x20_0000_0000_0000,
        ;
        vstd::arithmetic::div_mod::lemma_fundamental_div_mod_converse(
            n0 * m,
            t,
            qq,
            rr * m,
        );
        vstd::arithmetic::div_mod::lemma_fundamental_div_mod_converse(
            n0 * m,
            t,
            q as int,
            r1 as int,
        );
        assert(q == n0 / de);
        assert(r1 == rr * m);
    }
    let rounded: u64 = if below {
        q
    } else if tie {
        q + q % 2
    } else {
        q + 1
    };
    let mag: u64 = e * 0x10_0000_0000_0000 + rounded;
    if mag >= INF_MAG {
        INF_MAG
    } else {
        mag
    }
}

pub proof fn lemma_pow10_adds(a: nat, b: nat)
    ensures
        pow10(a + b) == pow10(a) * pow10(b),
    decreases a,
{
    if a > 0 {
        lemma_pow10_adds((a - 1) as nat, b);
        let x = pow10((a - 1) as nat);
        let y = pow10(b);
        assert((10 * x) * y == 10 * (x * y)) by (nonlinear_arith);
        assert(a + b - 1 == (a - 1) + b);
    } else {
        assert(pow10(0) * pow10(b) == pow10(b)) by (nonlinear_arith)
            requires
                pow10(0) == 1,
        ;
    }
}

pub proof fn lemma_pow10_above_eights(k: nat)
    ensures
        pow10(k) >= pow2(3 * k),
    decreases k,
{
    vstd::arithmetic::power2::lemma2_to64();
    if k > 0 {
        lemma_pow10_above_eights((k - 1) as nat);
        vstd::arithmetic::power2::lemma_pow2_adds((3 * (k - 1)) as nat, 3);
    }
}

pub proof fn lemma_pow10_monotone(a: nat, b: nat)
    requires
        a <= b,
    ensures
        0 < pow10(a) <= pow10(b),
    decreases b,
{
    if b == a {
        if a > 0 {
            lemma_pow10_monotone((a - 1) as nat, (a - 1) as nat);
        }
    } else {
        lemma_pow10_monotone(a, (b - 1) as nat);
    }
}

/// A value of at least `2^(52+e)` units has a magnitude of at least `e + 1` steps.
pub proof fn lemma_round_large(n: nat, d: nat, e: nat)
    requires
        d > 0,
        n >= d * pow2(52 + e),
    ensures
        round_mag(n, d) >= (e + 1) * 0x10_0000_0000_0000,
    decreases e,
{
    vstd::arithmetic::power2::lemma2_to64_rest();
    if e == 0 {
        if n < d * 0x20_0000_0000_0000 {
            vstd::arithmetic::div_mod::lemma_fundamental_div_mod(n as int, d as int);
            let q = (n / d) as int;
            assert(q >= 0x10_0000_0000_0000) by (nonlinear_arith)
                requires
                    n == d * q + n % d,
                    n % d < d,
                    n >= d * 0x10_0000_0000_0000,
                    d > 0,
            ;
        }
    } else {
        vstd::arithmetic::power2::lemma_pow2_unfold(52 + e);
        crate::scalar::shift::lemma_pow2_monotone(53, 52 + e);
        let w = pow2((51 + e) as nat);
        assert(d * pow2(52 + e) == (2 * d) * w) by (nonlinear_arith)
            requires
                pow2(52 + e) == 2 * w,
        ;
        assert(n >= d * 0x20_0000_0000_0000) by (nonlinear_arith)
            requires
                n >= d * pow2(52 + e),
                pow2(52 + e) >= 0x20_0000_0000_0000,
        ;
        lemma_round_large(n, 2 * d, (e - 1) as nat);
    }
}

/// From `10^400` on every decimal is past the largest finite number.
proof fn lemma_decimal_huge(m: nat, x: int)
    requires
        m > 0,
        x >= 400,
    ensures
        decimal_mag(m, x) == INF_MAG,
{
    lemma_pow10_monotone(400, x as nat);
    lemma_pow10_above_eights(400);
    crate::scalar::shift::lemma_pow2_monotone(1024, 1200);
    vstd::arithmetic::power2::lemma_pow2_adds(1024, 1074);
    vstd::arithmetic::power2::lemma_pow2_pos(1074);
    let p = pow10(x as nat);
    let u = pow2(1074);
    assert(m * p * u >= pow2(1024) * u) by (nonlinear_arith)
        requires
            m >= 1,
            p >= pow2(1024),
            u > 0,
    ;
    lemma_round_large(m * p * u, 1, 2046);
}

/// A decimal below `10^-400` rounds to zero.
proof fn lemma_decimal_tiny(m: nat, k: nat, x: int)
    requires
        m < pow10(k),
        x <= -(400 + k),
    ensures
        decimal_mag(m, x) == 0,
{
    let d = pow10((-x) as nat);
    lemma_pow10_monotone(400 + k, (-x) as nat);
    lemma_pow10_adds(400, k);
    lemma_pow10_above_eights(400);
    crate::scalar::shift::lemma_pow2_monotone(1075, 1200);
    vstd::arithmetic::power2::lemma_pow2_unfold(1075);
    vstd::arithmetic::power2::lemma_pow2_pos(1074);
    let u = pow2(1074);
    let n = m * u;
    assert(2 * n < d) by (nonlinear_arith)
        requires
            n == m * u,
            m < pow10(k),
            d >= pow10(400) * pow10(k),
            pow10(400) >= 2 * u,
            u > 0,
    ;
    vstd::arithmetic::div_mod::lemma_fundamental_div_mod_converse(n as int, d as int, 0, n as int);
}

proof fn lemma_digits_end(s: Seq<char>, pos: int)
    requires
        0 <= pos <= s.len(),
    ensures
        pos <= digits_end(s, pos) <= s.len(),
        forall|i: int| pos <= i < digits_end(s, pos) ==> is_digit(s[i]),
    decreases s.len() - pos,
{
    if pos < s.len() && is_digit(s[pos]) {
        lemma_digits_end(s, pos + 1);
    }
}

fn scan_digits(s: &Vec<char>, pos: usize) -> (r: usize)
    requires
        pos <= s.len(),
    ensures
        r == digits_end(s@, pos as int),
        pos <= r <= s.len(),
        forall|i: int| pos <= i < r ==> is_digit(s@[i]),
{
    let mut i: usize = pos;
    while i < s.len() && is_digit_char(s[i])
        invariant
            pos <= i <= s.len(),
            digits_end(s@, pos as int) == digits_end(s@, i as int),
        decreases s.len() - i,
    {
        i = i + 1;
    }
    proof {
        lemma_digits_end(s@, pos as int);
    }
    i
}

/// Appends the digits from `from` to `to`.
fn push_digits(m: &mut Big, s: &Vec<char>, from: usize, to: usize)
    requires
        from <= to <= s.len(),
        forall|i: int| from <= i < to ==> is_digit(s@[i]),
    ensures
        final(m)@ == digits_value(s@, from as int, to as int, old(m)@),
{
    let ghost start = m@;
    let mut i: usize = from;
    while i < to
        invariant
            from <= i <= to <= s.len(),
            forall|k: int| from <= k < to ==> is_digit(s@[k]),
            digits_value(s@, from as int, to as int, start) == digits_value(
                s@,
                i as int,
                to as int,
                m@,
            ),
        decreases to - i,
    {
        assert(is_digit(s@[i as int]));
        let d: u32 = (s[i] as u32) - ('0' as u32);
        m.mul_add(10, d);
        i = i + 1;
    }
}

/// Value of a run of digits, or `2^100` when it is larger.
fn capped_digits(s: &Vec<char>, from: usize, to: usize) -> (r: i128)
    requires
        from <= to <= s.len(),
        forall|i: int| from <= i < to ==> is_digit(s@[i]),
    ensures
        0 <= r <= 0x10_0000_0000_0000_0000_0000_0000,
        digits_value(s@, from as int, to as int, 0) < 0x10_0000_0000_0000_0000_0000_0000 ==> r
            == digits_value(s@, from as int, to as int, 0),
        digits_value(s@, from as int, to as int, 0) >= 0x10_0000_0000_0000_0000_0000_0000 ==> r
            == 0x10_0000_0000_0000_0000_0000_0000,
{
    let cap: i128 = 0x10_0000_0000_0000_0000_0000_0000;
    let mut r: i128 = 0;
    let mut i: usize = from;
    let ghost mut v: nat = 0;
    while i < to
        invariant
            from <= i <= to <= s.len(),
            forall|k: int| from <= k < to ==> is_digit(s@[k]),
            cap == 0x10_0000_0000_0000_0000_0000_0000,
            digits_value(s@, from as int, to as int, 0) == digits_value(s@, i as int, to as int, v),
            v < cap ==> r == v,
            v >= cap ==> r == cap,
            0 <= r <= cap,
        decreases to - i,
    {
        assert(is_digit(s@[i as int]));
        let d: i128 = ((s[i] as u32) - ('0' as u32)) as i128;
        let t: i128 = r * 10 + d;
        r = if t >= cap {
            cap
        } else {
            t
        };
        proof {
            v = (v * 10 + d) as nat;
        }
        i = i + 1;
    }
    r
}

proof fn lemma_digits_bound(s: Seq<char>, from: int, to: int, acc: nat, k: nat)
    requires
        from <= to,
        acc < pow10(k),
        forall|i: int| from <= i < to ==> is_digit(s[i]),
    ensures
        digits_value(s, from, to, acc) < pow10(k + (to - from) as nat),
    decreases to - from,
{
    if from < to {
        assert(is_digit(s[from]));
        lemma_digits_bound(
            s,
            from + 1,
            to,
            (acc * 10 + (s[from] as u32 - '0' as u32)) as nat,
            k + 1,
        );
    }
}

/// `m * 10^x`, rounded, for an `m` of at most `digits` digits.
pub(crate) fn scaled_decimal(m: Big, digits: usize, x: i128) -> (mag: u64)
    requires
        m@ < pow10(digits as nat),
        -0x20_0000_0000_0000_0000_0000_0000 < x < 0x20_0000_0000_0000_0000_0000_0000,
    ensures
        mag == decimal_mag(m@, x as int),
        mag <= INF_MAG,
{
    let zero = Big::from_u32(0);
    let (_less, none) = m.compare(&zero);
    if none {
        proof {
            if x >= 0 {
                assert(m@ * pow10(x as nat) * pow2(1074) == 0) by (nonlinear_arith)
                    requires
                        m@ == 0,
                ;
            } else {
                let d = pow10((-x) as nat);
                lemma_pow10_monotone((-x) as nat, (-x) as nat);
                assert(m@ * pow2(1074) == 0) by (nonlinear_arith)
                    requires
                        m@ == 0,
                ;
                vstd::arithmetic::div_mod::lemma_fundamental_div_mod_converse(0, d as int, 0, 0);
            }
        }
        return 0;
    }
    if x >= 400 {
        proof {
            lemma_decimal_huge(m@, x as int);
        }
        return INF_MAG;
    }
    if x <= -400 - (digits as i128) {
        proof {
            lemma_decimal_tiny(m@, digits as nat, x as int);
        }
        return 0;
    }
    let ghost m0 = m@;
    let mut n = m;
    let mut d = Big::from_u32(1);
    let mut i: i128 = 0;
    if x >= 0 {
        assert(m0 * pow10(0) == m0) by (nonlinear_arith)
            requires
                pow10(0) == 1,
        ;
        while i < x
            invariant
                0 <= i <= x,
                n@ == m0 * pow10(i as nat),
            decreases x - i,
        {
            n.mul_add(10, 0);
            i = i + 1;
            assert((m0 * pow10((i - 1) as nat)) * 10 == m0 * (10 * pow10((i - 1) as nat)))
                by (nonlinear_arith);
        }
    } else {
        let y: i128 = -x;
        while i < y
            invariant
                0 <= i <= y,
                d@ == pow10(i as nat),
            decreases y - i,
        {
            d.mul_add(10, 0);
            i = i + 1;
        }
    }
    let ghost n1 = n@;
    let mut j: u32 = 0;
    proof {
        vstd::arithmetic::power2::lemma2_to64();
        assert(n1 * pow2(0) == n1);
    }
    while j < 1074
        invariant
            j <= 1074,
            n@ == n1 * pow2(j as nat),
        decreases 1074 - j,
    {
        n.mul_add(2, 0);
        j = j + 1;
        proof {
            vstd::arithmetic::power2::lemma_pow2_unfold(j as nat);
            let w = pow2((j - 1) as nat);
            assert((n1 * w) * 2 == n1 * (2 * w)) by (nonlinear_arith);
        }
    }
    proof {
        if x < 0 {
            lemma_pow10_monotone((-x) as nat, (-x) as nat);
        }
    }
    ratio_mag(n, d)
}

/// Exponent at `pos`, capped at `2^100` in size.
fn read_exponent(s: &Vec<char>, pos: usize) -> (r: Option<i128>)
    requires
        pos <= s.len(),
    ensures
        r is Some == exponent_part(s@, pos as int) is Some,
        match (r, exponent_part(s@, pos as int)) {
            (Some(x), Some(v)) => {
                &&& -0x10_0000_0000_0000_0000_0000_0000 <= x
                    <= 0x10_0000_0000_0000_0000_0000_0000
                &&& -0x10_0000_0000_0000_0000_0000_0000 < x
                    < 0x10_0000_0000_0000_0000_0000_0000 ==> x == v
                &&& x == 0x10_0000_0000_0000_0000_0000_0000 ==> v >= x
                &&& x == -0x10_0000_0000_0000_0000_0000_0000 ==> v <= x
            },
            _ => true,
        },
{
    if pos == s.len() {
        return Some(0);
    }
    if !(s[pos] == 'e' || s[pos] == 'E') {
        return None;
    }
    let signed = pos + 1 < s.len() && (s[pos + 1] == '-' || s[pos + 1] == '+');
    let a: usize = if signed {
        pos + 2
    } else {
        pos + 1
    };
    if a >= s.len() {
        return None;
    }
    let end = scan_digits(s, a);
    if end != s.len() {
        return None;
    }
    let v = capped_digits(s, a, end);
    if signed && s[pos + 1] == '-' {
        Some(-v)
    } else {
        Some(v)
    }
}

fn read_unsigned(s: &Vec<char>, pos: usize) -> (r: Option<u64>)
    requires
        pos <= s.len(),
    ensures
        match r {
            Some(m) => unsigned_part(s@, pos as int) == Some(m as nat) && m <= INF_MAG,
            None => unsigned_part(s@, pos as int) is None,
        },
{
    let a = scan_digits(s, pos);
    let point = a < s.len() && s[a] == '.';
    let b = if point {
        scan_digits(s, a + 1)
    } else {
        a
    };
    let frac: usize = if point {
        b - a - 1
    } else {
        0
    };
    if a == pos && frac == 0 {
        return None;
    }
    match read_exponent(s, b) {
        None => None,
        Some(x) => {
            let mut m = Big::from_u32(0);
            push_digits(&mut m, s, pos, a);
            proof {
                lemma_digits_bound(s@, pos as int, a as int, 0, 0);
            }
            if point {
                let ghost whole = m@;
                push_digits(&mut m, s, a + 1, b);
                proof {
                    lemma_digits_bound(s@, a + 1, b as int, whole, (a - pos) as nat);
                }
            }
            let digits: usize = a - pos + frac;
            let y: i128 = x - (frac as i128);
            let ghost v = exponent_part(s@, b as int).unwrap() - frac;
            proof {
                assert(m@ < pow10(digits as nat));
                // A capped exponent is far past both ends, as the true one is.
                if x == 0x10_0000_0000_0000_0000_0000_0000 {
                    if m@ > 0 {
                        lemma_decimal_huge(m@, y as int);
                        lemma_decimal_huge(m@, v);
                    }
                } else if x == -0x10_0000_0000_0000_0000_0000_0000 {
                    lemma_decimal_tiny(m@, digits as nat, y as int);
                    lemma_decimal_tiny(m@, digits as nat, v);
                }
                if m@ == 0 {
                    lemma_decimal_zero(y as int);
                    lemma_decimal_zero(v);
                }
            }
            Some(scaled_decimal(m, digits, y))
        },
    }
}

proof fn lemma_decimal_zero(x: int)
    ensures
        decimal_mag(0, x) == 0,
{
    if x >= 0 {
        assert(0 * pow10(x as nat) * pow2(1074) == 0) by (nonlinear_arith);
    } else {
        let d = pow10((-x) as nat);
        lemma_pow10_monotone((-x) as nat, (-x) as nat);
        vstd::arithmetic::div_mod::lemma_fundamental_div_mod_converse(0, d as int, 0, 0);
        assert(0 * pow2(1074) == 0);
    }
}

/// ASCII lower case of the text from `pos` on.
pub fn lower_from(s: &Vec<char>, pos: usize) -> (r: Vec<char>)
    requires
        pos <= s.len(),
    ensures
        r@ == lowered(s@.subrange(pos as int, s.len() as int)),
{
    let mut r: Vec<char> = Vec::new();
    let mut i: usize = pos;
    while i < s.len()
        invariant
            pos <= i <= s.len(),
            r@ == lowered(s@.subrange(pos as int, i as int)),
        decreases s.len() - i,
    {
        let c = s[i];
        r.push(lower_char(c));
        i = i + 1;
        assert(lowered(s@.subrange(pos as int, i as int)) =~= lowered(
            s@.subrange(pos as int, i - 1),
        ).push(lower(c)));
    }
    r
}

fn lower_char(c: char) -> (r: char)
    ensures
        r == lower(c),
{
    if 'A' <= c && c <= 'Z' {
        ((c as u8) + 32) as char
    } else {
        c
    }
}

/// Reads a number.
pub fn parse_number(s: &Vec<char>) -> (r: Option<Scalar>)
    ensures
        r == number_of(s@),
{
    let signed = s.len() > 0 && (s[0] == '-' || s[0] == '+');
    let neg = signed && s[0] == '-';
    let pos: usize = if signed {
        1
    } else {
        0
    };
    let word = lower_from(s, pos);
    if same_text(&word, &chars_of("inf")) || same_text(&word, &chars_of("infinity")) {
        return Some(Scalar::with_sign(neg, INF_MAG));
    }
    if same_text(&word, &chars_of("nan")) {
        return Some(Scalar::with_sign(neg, 0x7FF8_0000_0000_0000));
    }
    match read_unsigned(s, pos) {
        None => None,
        Some(m) => Some(Scalar::with_sign(neg, m)),
    }
}

} // verus!
