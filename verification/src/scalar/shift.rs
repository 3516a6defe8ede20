//! Executable rounding of `p * 2^s` for a 127-bit `p`.

use vstd::arithmetic::power2::pow2;
use vstd::prelude::*;

use crate::scalar::rounding::{EXP_STEP, INF_MAG};
#[allow(unused_imports)]
use crate::scalar::rounding::{half_even, lemma_round_octave, round_mag, scaled_mag, to_mag};

verus! {

proof fn lemma_shl_one(k: u32)
    requires
        k < 128,
    ensures
        (1u128 << k) == pow2(k as nat),
    decreases k,
{
    vstd::arithmetic::power2::lemma2_to64();
    if k == 0 {
        assert(1u128 << 0u32 == 1u128) by (bit_vector);
    } else {
        let j: u32 = (k - 1) as u32;
        lemma_shl_one(j);
        vstd::arithmetic::power2::lemma_pow2_unfold(k as nat);
        assert((1u128 << k) == 2 * (1u128 << j)) by (bit_vector)
            requires
                k == j + 1,
                k < 128,
        ;
    }
}

pub proof fn lemma_pow2_monotone(a: nat, b: nat)
    requires
        a <= b,
    ensures
        0 < pow2(a) <= pow2(b),
{
    vstd::arithmetic::power2::lemma_pow2_pos(a);
    if a < b {
        vstd::arithmetic::power2::lemma_pow2_strictly_increases(a, b);
    }
}

/// `2^k`.
pub fn power(k: u32) -> (r: u128)
    requires
        k < 128,
    ensures
        r == pow2(k as nat),
{
    proof {
        lemma_shl_one(k);
    }
    1u128 << k
}

/// One halving step of the bit-length search.
proof fn lemma_length_step(p: u128, cur: u128, len: nat, step: nat, w: u128)
    requires
        w == pow2(step),
        cur >= w,
        cur * pow2(len) <= p < (cur + 1) * pow2(len),
    ensures
        (cur / w) * pow2(len + step) <= p < (cur / w + 1) * pow2(len + step),
        cur / w >= 1,
{
    vstd::arithmetic::power2::lemma_pow2_adds(len, step);
    vstd::arithmetic::power2::lemma_pow2_pos(len);
    vstd::arithmetic::power2::lemma_pow2_pos(step);
    let q = (cur / w) as int;
    vstd::arithmetic::div_mod::lemma_fundamental_div_mod(cur as int, w as int);
    let big = pow2(len) as int;
    assert(q >= 1 && q * (big * w) <= p < (q + 1) * (big * w)) by (nonlinear_arith)
        requires
            cur == w * q + cur % w,
            0 <= cur % w < w,
            cur >= w,
            w > 0,
            big > 0,
            cur * big <= p < (cur + 1) * big,
    ;
}

/// Number of significant bits of a positive `p`.
pub fn bit_length(p: u128) -> (len: u32)
    requires
        p > 0,
    ensures
        1 <= len <= 128,
        pow2((len - 1) as nat) <= p < pow2(len as nat),
{
    let mut cur: u128 = p;
    let mut len: u32 = 0;
    let mut step: u32 = 64;
    proof {
        vstd::arithmetic::power2::lemma2_to64();
        assert(cur * pow2(0) == cur && (cur + 1) * pow2(0) == cur + 1);
        vstd::arithmetic::power2::lemma_pow2_adds(64, 64);
        assert(pow2(128) == 0x1_0000_0000_0000_0000 * 0x1_0000_0000_0000_0000) by {
            vstd::arithmetic::power2::lemma2_to64_rest();
        }
    }
    while step > 0
        invariant
            cur >= 1,
            cur * pow2(len as nat) <= p < (cur + 1) * pow2(len as nat),
            step == 64 || step == 32 || step == 16 || step == 8 || step == 4 || step == 2 || step
                == 1 || step == 0,
            step > 0 ==> len + 2 * step <= 128,
            step > 0 ==> cur < pow2((2 * step) as nat),
            step == 0 ==> cur == 1,
            len <= 127,
        decreases step,
    {
        let w = power(step);
        proof {
            vstd::arithmetic::power2::lemma_pow2_adds(step as nat, step as nat);
            vstd::arithmetic::power2::lemma2_to64();
        }
        if cur >= w {
            proof {
                lemma_length_step(p, cur, len as nat, step as nat, w);
                assert(cur / w < w) by (nonlinear_arith)
                    requires
                        cur < w * w,
                        w > 0,
                ;
            }
            cur = cur / w;
            len = len + step;
        }
        step = step / 2;
    }
    proof {
        vstd::arithmetic::power2::lemma_pow2_unfold((len + 1) as nat);
    }
    len + 1
}

/// `p / 2^k` to the nearest integer, a tie going to the even neighbour.
pub fn shift_half_even(p: u128, k: u32) -> (r: u128)
    requires
        1 <= k < 128,
        p < 0x8000_0000_0000_0000_0000_0000_0000_0000,
    ensures
        r == half_even(p as nat, pow2(k as nat)),
{
    let w = power(k);
    let q: u128 = p >> k;
    proof {
        vstd::arithmetic::power2::lemma_pow2_pos(k as nat);
        vstd::arithmetic::power2::lemma_pow2_pos((k - 1) as nat);
        vstd::arithmetic::power2::lemma_pow2_unfold(k as nat);
        vstd::bits::lemma_u128_shr_is_div(p, k as u128);
        vstd::arithmetic::div_mod::lemma_fundamental_div_mod(p as int, w as int);
        assert(p >> k == p >> (k as u128)) by (bit_vector);
        assert(q * w <= p) by (nonlinear_arith)
            requires
                p == w * q + p % w,
                p % w >= 0,
        ;
        assert(w * q == q * w) by (nonlinear_arith);
        vstd::arithmetic::power2::lemma_pow2_unfold(k as nat);
        assert(q < 0x4000_0000_0000_0000_0000_0000_0000_0000) by (nonlinear_arith)
            requires
                q * w <= p < 0x8000_0000_0000_0000_0000_0000_0000_0000,
                w >= 2,
        ;
    }
    let r: u128 = p - q * w;
    let half = power(k - 1);
    if r < half {
        q
    } else if r > half {
        q + 1
    } else {
        q + q % 2
    }
}

/// The magnitude nearest to `p * 2^s` units.
pub fn round_shift(p: u128, s: i32) -> (mag: u64)
    requires
        p < 0x8000_0000_0000_0000_0000_0000_0000_0000,
        -4000 <= s <= 4000,
    ensures
        mag == scaled_mag(p as nat, s as int),
        mag <= INF_MAG,
{
    if p == 0 {
        proof {
            if s >= 0 {
                assert(p as nat * pow2(s as nat) == 0) by (nonlinear_arith)
                    requires
                        p == 0,
                ;
            } else {
                vstd::arithmetic::power2::lemma_pow2_pos((-s) as nat);
            }
        }
        return 0;
    }
    let len = bit_length(p);
    proof {
        vstd::arithmetic::power2::lemma2_to64_rest();
        vstd::arithmetic::power2::lemma2_to64();
        vstd::arithmetic::power2::lemma_pow2_adds(64, 63);
        if len == 128 {
            assert(pow2(127) <= p);
        }
    }
    let top: i32 = len as i32 + s;
    let (q, e): (u128, i32) = if top > 53 {
        // Normal: drop to 53 bits, exponent step top - 53.
        if len <= 53 {
            let w = power(53 - len);
            proof {
                lemma_normal_exact(p as nat, s as int, len as nat);
                assert(p * w < 0x20_0000_0000_0000) by {
                    vstd::arithmetic::power2::lemma_pow2_adds(len as nat, (53 - len) as nat);
                    assert(p * w < pow2(len as nat) * w) by (nonlinear_arith)
                        requires
                            p < pow2(len as nat),
                            w > 0,
                    ;
                }
            }
            (p * w, top - 53)
        } else {
            proof {
                lemma_normal_drop(p as nat, s as int, len as nat);
            }
            (shift_half_even(p, len - 53), top - 53)
        }
    } else if s >= 0 {
        let w = power(s as u32);
        proof {
            lemma_small_exact(p as nat, s as int, len as nat);
        }
        (p * w, 0)
    } else if s > -128 {
        proof {
            lemma_small_drop(p as nat, s as int, len as nat);
        }
        (shift_half_even(p, (-s) as u32), 0)
    } else {
        proof {
            lemma_vanish(p as nat, s as int);
        }
        (0, 0)
    };
    let total: u128 = q + (e as u128) * (EXP_STEP as u128);
    if total >= INF_MAG as u128 {
        INF_MAG
    } else {
        total as u64
    }
}

/// Rounding to at most `2^53` when fewer than `2^53` whole units remain.
proof fn lemma_half_even_bound(n: nat, d: nat, b: nat)
    requires
        d > 0,
        n < d * b,
    ensures
        half_even(n, d) <= b,
{
    vstd::arithmetic::div_mod::lemma_fundamental_div_mod(n as int, d as int);
    let q = (n / d) as int;
    assert(q < b) by (nonlinear_arith)
        requires
            n == d * q + n % d,
            n % d >= 0,
            n < d * b,
            d > 0,
    ;
}

proof fn lemma_half_even_exact(k: nat, d: nat)
    requires
        d > 0,
    ensures
        half_even(k * d, d) == k,
{
    vstd::arithmetic::div_mod::lemma_fundamental_div_mod_converse(
        (k * d) as int,
        d as int,
        k as int,
        0,
    );
}

/// Facts shared by the two normal cases: the octave of `p * 2^s` is `len + s - 53`.
proof fn lemma_normal_octave(p: nat, s: int, len: nat) -> (r: (nat, nat))
    requires
        len >= 1,
        pow2((len - 1) as nat) <= p < pow2(len),
        len + s > 53,
    ensures
        ({
            let (n, d) = r;
            let e = (len + s - 53) as nat;
            &&& d > 0
            &&& scaled_mag(p, s) == to_mag(n, d)
            &&& round_mag(n, d) == e * 0x10_0000_0000_0000 + half_even(n, d * pow2(e))
            &&& d == (if s >= 0 {
                1
            } else {
                pow2((-s) as nat)
            })
            &&& n == (if s >= 0 {
                p * pow2(s as nat)
            } else {
                p
            })
        }),
{
    let e = (len + s - 53) as nat;
    let n: nat = if s >= 0 {
        p * pow2(s as nat)
    } else {
        p
    };
    let d: nat = if s >= 0 {
        1
    } else {
        pow2((-s) as nat)
    };
    vstd::arithmetic::power2::lemma2_to64();
    vstd::arithmetic::power2::lemma2_to64_rest();
    vstd::arithmetic::power2::lemma_pow2_pos(e);
    if s >= 0 {
        let w = pow2(s as nat);
        vstd::arithmetic::power2::lemma_pow2_pos(s as nat);
        vstd::arithmetic::power2::lemma_pow2_adds(len, s as nat);
        vstd::arithmetic::power2::lemma_pow2_adds((len - 1) as nat, s as nat);
        vstd::arithmetic::power2::lemma_pow2_adds(e, 53);
        vstd::arithmetic::power2::lemma_pow2_adds(e, 52);
        assert(pow2(len) * w == pow2(e) * pow2(53));
        assert(pow2((len - 1) as nat) * w == pow2(e) * pow2(52));
        assert(pow2((len - 1) as nat) * w <= n < pow2(len) * w) by (nonlinear_arith)
            requires
                n == p * w,
                w > 0,
                pow2((len - 1) as nat) <= p < pow2(len),
        ;
        assert(d * pow2(e) == pow2(e));
    } else {
        vstd::arithmetic::power2::lemma_pow2_pos((-s) as nat);
        vstd::arithmetic::power2::lemma_pow2_adds((-s) as nat, e);
        vstd::arithmetic::power2::lemma_pow2_adds((len - 53) as nat, 53);
        vstd::arithmetic::power2::lemma_pow2_adds((len - 53) as nat, 52);
        assert(d * pow2(e) == pow2((len - 53) as nat));
    }
    lemma_round_octave(n, d, e);
    (n, d)
}

proof fn lemma_normal_exact(p: nat, s: int, len: nat)
    requires
        1 <= len <= 53,
        pow2((len - 1) as nat) <= p < pow2(len),
        len + s > 53,
    ensures
        scaled_mag(p, s) == ({
            let t = p * pow2((53 - len) as nat) + (len + s - 53) * 0x10_0000_0000_0000;
            if t >= INF_MAG { INF_MAG as int } else { t }
        }),
{
    let e = (len + s - 53) as nat;
    let (n, d) = lemma_normal_octave(p, s, len);
    let c = pow2((53 - len) as nat);
    vstd::arithmetic::power2::lemma_pow2_pos(e);
    vstd::arithmetic::power2::lemma_pow2_adds((53 - len) as nat, e);
    assert(n == (p * c) * pow2(e)) by {
        assert(p * (c * pow2(e)) == (p * c) * pow2(e)) by (nonlinear_arith);
    }
    assert(d * pow2(e) == pow2(e)) by (nonlinear_arith)
        requires
            d == 1,
    ;
    lemma_half_even_exact(p * c, pow2(e));
}

proof fn lemma_normal_drop(p: nat, s: int, len: nat)
    requires
        len > 53,
        pow2((len - 1) as nat) <= p < pow2(len),
        len + s > 53,
    ensures
        half_even(p, pow2((len - 53) as nat)) <= 0x20_0000_0000_0000,
        scaled_mag(p, s) == ({
            let t = half_even(p, pow2((len - 53) as nat)) + (len + s - 53) * 0x10_0000_0000_0000;
            if t >= INF_MAG { INF_MAG as int } else { t }
        }),
{
    let e = (len + s - 53) as nat;
    let (n, d) = lemma_normal_octave(p, s, len);
    let k = (len - 53) as nat;
    vstd::arithmetic::power2::lemma2_to64();
    vstd::arithmetic::power2::lemma2_to64_rest();
    vstd::arithmetic::power2::lemma_pow2_pos(k);
    if s >= 0 {
        vstd::arithmetic::power2::lemma_pow2_pos(s as nat);
        vstd::arithmetic::power2::lemma_pow2_adds(k, s as nat);
        crate::scalar::rounding::lemma_half_even_scale(p, pow2(k), pow2(s as nat));
        assert(d * pow2(e) == pow2(e)) by (nonlinear_arith)
            requires
                d == 1,
        ;
    } else {
        vstd::arithmetic::power2::lemma_pow2_adds((-s) as nat, e);
        assert(d * pow2(e) == pow2(k));
    }
    vstd::arithmetic::power2::lemma_pow2_adds(k, 53);
    lemma_half_even_bound(p, pow2(k), 0x20_0000_0000_0000);
}

proof fn lemma_small_exact(p: nat, s: int, len: nat)
    requires
        len >= 1,
        p < pow2(len),
        s >= 0,
        len + s <= 53,
    ensures
        p * pow2(s as nat) < 0x20_0000_0000_0000,
        scaled_mag(p, s) == p * pow2(s as nat),
{
    let w = pow2(s as nat);
    vstd::arithmetic::power2::lemma2_to64();
    vstd::arithmetic::power2::lemma2_to64_rest();
    vstd::arithmetic::power2::lemma_pow2_pos(s as nat);
    vstd::arithmetic::power2::lemma_pow2_adds(len, s as nat);
    lemma_pow2_monotone((len + s) as nat, 53);
    assert(p * w < pow2(len) * w) by (nonlinear_arith)
        requires
            p < pow2(len),
            w > 0,
    ;
    lemma_half_even_exact(p * w, 1);
}

proof fn lemma_small_drop(p: nat, s: int, len: nat)
    requires
        len >= 1,
        p < pow2(len),
        s < 0,
        len + s <= 53,
    ensures
        half_even(p, pow2((-s) as nat)) <= 0x20_0000_0000_0000,
        scaled_mag(p, s) == half_even(p, pow2((-s) as nat)),
{
    let k = (-s) as nat;
    vstd::arithmetic::power2::lemma2_to64();
    vstd::arithmetic::power2::lemma2_to64_rest();
    vstd::arithmetic::power2::lemma_pow2_pos(k);
    vstd::arithmetic::power2::lemma_pow2_adds(k, 53);
    lemma_pow2_monotone(len, k + 53);
    lemma_half_even_bound(p, pow2(k), 0x20_0000_0000_0000);
}

proof fn lemma_vanish(p: nat, s: int)
    requires
        p < 0x8000_0000_0000_0000_0000_0000_0000_0000,
        s <= -128,
    ensures
        scaled_mag(p, s) == 0,
{
    let w = pow2((-s) as nat);
    vstd::arithmetic::power2::lemma2_to64_rest();
    vstd::arithmetic::power2::lemma_pow2_adds(64, 64);
    lemma_pow2_monotone(128, (-s) as nat);
    vstd::arithmetic::div_mod::lemma_fundamental_div_mod_converse(p as int, w as int, 0, p as int);
}

} // verus!
