//! Round-to-nearest, ties-to-even, on the grid of binary64 magnitudes.
//!
//! A nonnegative rational `n / d` stands for the real number `n / d * 2^-1074`,
//! so that the smallest positive subnormal is the unit. `round_mag` gives the
//! 63-bit magnitude (exponent and fraction fields) of the nearest grid point;
//! overflow past the largest finite magnitude is left to `to_mag`.

use vstd::arithmetic::power2::pow2;
use vstd::prelude::*;

verus! {

/// The hidden bit: one exponent step in the magnitude encoding.
pub const EXP_STEP: u64 = 0x0010_0000_0000_0000;

/// Magnitude bits of positive infinity.
pub const INF_MAG: u64 = 0x7FF0_0000_0000_0000;

/// `n / d` to the nearest integer, a tie going to the even neighbour.
pub open spec fn half_even(n: nat, d: nat) -> nat {
    let q = n / d;
    let r = n % d;
    if 2 * r < d {
        q
    } else if 2 * r > d {
        q + 1
    } else {
        q + q % 2
    }
}

/// Magnitude of the grid point nearest to `n / d` units, as if the exponent
/// field had no upper end: below `2^53` the grid is the integers, and each
/// further octave doubles the spacing and adds one exponent step.
pub open spec fn round_mag(n: nat, d: nat) -> nat
    decreases n - d,
{
    if d == 0 || n < d * 0x20_0000_0000_0000 {
        half_even(n, d)
    } else {
        0x10_0000_0000_0000 + round_mag(n, 2 * d)
    }
}

/// `round_mag`, with everything past the largest finite magnitude at infinity.
pub open spec fn to_mag(n: nat, d: nat) -> nat {
    if round_mag(n, d) >= INF_MAG {
        INF_MAG as nat
    } else {
        round_mag(n, d)
    }
}

/// `p * 2^s` as a fraction with a natural numerator and denominator.
pub open spec fn scaled_mag(p: nat, s: int) -> nat {
    if s >= 0 {
        to_mag(p * pow2(s as nat), 1)
    } else {
        to_mag(p, pow2((-s) as nat))
    }
}

pub proof fn lemma_half_even_scale(n: nat, d: nat, c: nat)
    requires
        d > 0,
        c > 0,
    ensures
        half_even(n * c, d * c) == half_even(n, d),
{
    let q = (n / d) as int;
    let r = (n % d) as int;
    vstd::arithmetic::div_mod::lemma_fundamental_div_mod(n as int, d as int);
    assert(n * c == q * (d * c) + r * c && 0 <= r * c < d * c) by (nonlinear_arith)
        requires
            n == d * q + r,
            0 <= r < d,
            c > 0,
    ;
    vstd::arithmetic::div_mod::lemma_fundamental_div_mod_converse(
        (n * c) as int,
        (d * c) as int,
        q,
        r * c,
    );
    assert((2 * r < d) == (2 * (r * c) < d * c)) by (nonlinear_arith)
        requires
            c > 0,
    ;
    assert((2 * r > d) == (2 * (r * c) > d * c)) by (nonlinear_arith)
        requires
            c > 0,
    ;
}

/// Cancelling a common factor leaves the rounded magnitude unchanged.
pub proof fn lemma_round_scale(n: nat, d: nat, c: nat)
    requires
        d > 0,
        c > 0,
    ensures
        round_mag(n * c, d * c) == round_mag(n, d),
    decreases n - d,
{
    assert(d * c > 0) by (nonlinear_arith)
        requires
            d > 0,
            c > 0,
    ;
    assert((n < d * 0x20_0000_0000_0000) == (n * c < (d * c) * 0x20_0000_0000_0000))
        by (nonlinear_arith)
        requires
            c > 0,
    ;
    if n < d * 0x20_0000_0000_0000 {
        lemma_half_even_scale(n, d, c);
    } else {
        lemma_round_scale(n, 2 * d, c);
        assert((2 * d) * c == 2 * (d * c)) by (nonlinear_arith);
    }
}

/// Doubling a value that is already at least `2^52` units adds one exponent step.
pub proof fn lemma_round_double(n: nat, d: nat, j: nat)
    requires
        d > 0,
        n >= d * 0x10_0000_0000_0000,
    ensures
        round_mag(n * pow2(j), d) == j * 0x10_0000_0000_0000 + round_mag(n, d),
    decreases j,
{
    vstd::arithmetic::power2::lemma2_to64();
    if j == 0 {
        assert(n * pow2(0) == n);
    } else {
        let m = n * pow2((j - 1) as nat);
        lemma_round_double(n, d, (j - 1) as nat);
        vstd::arithmetic::power2::lemma_pow2_unfold(j);
        vstd::arithmetic::power2::lemma_pow2_pos((j - 1) as nat);
        assert(n * pow2(j) == 2 * m) by (nonlinear_arith)
            requires
                pow2(j) == 2 * pow2((j - 1) as nat),
                m == n * pow2((j - 1) as nat),
        ;
        assert(m >= n) by (nonlinear_arith)
            requires
                m == n * pow2((j - 1) as nat),
                pow2((j - 1) as nat) >= 1,
        ;
        lemma_round_scale(m, d, 2);
        assert(m * 2 == 2 * m && d * 2 == 2 * d);
        assert(round_mag(2 * m, d) == 0x10_0000_0000_0000 + round_mag(2 * m, 2 * d));
    }
}

/// In the octave `[2^(52+e), 2^(53+e))` the spacing is `2^e`.
pub proof fn lemma_round_octave(n: nat, d: nat, e: nat)
    requires
        d > 0,
        n < d * pow2(e) * 0x20_0000_0000_0000,
        e > 0 ==> n >= d * pow2(e) * 0x10_0000_0000_0000,
    ensures
        round_mag(n, d) == e * 0x10_0000_0000_0000 + half_even(n, d * pow2(e)),
    decreases e,
{
    vstd::arithmetic::power2::lemma2_to64();
    if e == 0 {
        assert(d * pow2(0) == d);
    } else {
        vstd::arithmetic::power2::lemma_pow2_unfold(e);
        vstd::arithmetic::power2::lemma_pow2_pos((e - 1) as nat);
        let w = pow2((e - 1) as nat);
        assert(d * pow2(e) == (2 * d) * w && d * pow2(e) >= 2 * d) by (nonlinear_arith)
            requires
                pow2(e) == 2 * w,
                w >= 1,
        ;
        if e > 1 {
            assert((2 * d) * w * 0x10_0000_0000_0000 <= n);
        }
        lemma_round_octave(n, 2 * d, (e - 1) as nat);
    }
}

} // verus!
