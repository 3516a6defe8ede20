//! Binary32 numbers, as bit patterns: what is kept where half the precision will do.

use vstd::arithmetic::power2::pow2;
use vstd::prelude::*;

#[allow(unused_imports)]
use crate::scalar::convert::widened;
#[allow(unused_imports)]
use crate::scalar::number::{exponent, lemma_decode, significand};
use crate::scalar::number::Scalar;
#[allow(unused_imports)]
use crate::scalar::rounding::half_even;
use crate::scalar::rounding::INF_MAG;
use crate::scalar::shift::shift_half_even;
#[allow(unused_imports)]
use crate::scalar::shift::lemma_pow2_monotone;

verus! {

/// The magnitude of the binary32 infinity.
pub const SINGLE_INF: u32 = 0x7F80_0000;

/// The magnitude from which on a number rounds to the binary32 infinity: the middle between
/// the largest binary32 number and the next power of two.
pub const SINGLE_TOP: u64 = 0x47EF_FFFF_F000_0000;

/// The magnitude of the smallest normal binary32 number.
pub const SINGLE_NORMAL: u64 = 0x3810_0000_0000_0000;

/// A binary32 number.
#[derive(Clone, Copy, Debug, PartialEq, Eq, Structural)]
pub struct Single {
    pub bits: u32,
}

/// The binary32 magnitude nearest to a finite one, a tie going to the even neighbour. A
/// normal one keeps its leading 24 bits, and the carry of the rounding goes into the
/// exponent, which counts from another zero. Below that the spacing is that of the smallest
/// normal numbers.
pub open spec fn single_mag(m: nat) -> nat {
    if m >= SINGLE_TOP {
        SINGLE_INF as nat
    } else if m >= SINGLE_NORMAL {
        (half_even(m, 0x2000_0000) - 0x1_C000_0000) as nat
    } else {
        half_even(significand(m), pow2((925 - exponent(m)) as nat))
    }
}

/// The binary32 number nearest to a number.
pub open spec fn narrowed(a: Scalar) -> Single {
    let mag = if a.nan() {
        0x7FC0_0000
    } else {
        single_mag(a.mag())
    };
    Single {
        bits: (if a.negative() {
            0x8000_0000 + mag
        } else {
            mag
        }) as u32,
    }
}

proof fn lemma_vanishes(s: nat, k: nat)
    requires
        s < 0x20_0000_0000_0000,
        k >= 54,
    ensures
        half_even(s, pow2(k)) == 0,
{
    vstd::arithmetic::power2::lemma2_to64_rest();
    lemma_pow2_monotone(54, k);
    vstd::arithmetic::div_mod::lemma_fundamental_div_mod_converse(
        s as int,
        pow2(k) as int,
        0,
        s as int,
    );
}

proof fn lemma_single_fits(m: nat)
    requires
        m <= INF_MAG,
    ensures
        single_mag(m) <= SINGLE_INF,
        SINGLE_NORMAL <= m < SINGLE_TOP ==> half_even(m, 0x2000_0000) >= 0x1_C000_0000,
{
    lemma_decode_below(m);
    if m < SINGLE_NORMAL {
        let s = significand(m);
        let k = (925 - exponent(m)) as nat;
        vstd::arithmetic::power2::lemma2_to64();
        lemma_pow2_monotone(30, k);
        let d = pow2(k);
        vstd::arithmetic::div_mod::lemma_fundamental_div_mod(s as int, d as int);
        assert(s / d <= 0x80_0000) by (nonlinear_arith)
            requires
                s == d * (s / d) + s % d,
                s % d >= 0,
                s < 0x20_0000_0000_0000,
                d >= 0x4000_0000,
        ;
    }
}

proof fn lemma_decode_below(m: nat)
    requires
        m <= INF_MAG,
    ensures
        m < SINGLE_NORMAL ==> exponent(m) <= 895 && significand(m) < 0x20_0000_0000_0000,
{
    if m < INF_MAG {
        lemma_decode(m);
    }
}

impl Single {
    /// The nearest binary32 number.
    pub fn from_scalar(a: Scalar) -> (r: Single)
        ensures
            r == narrowed(a),
    {
        let neg = a.bits >= 0x8000_0000_0000_0000;
        let m: u64 = if neg {
            a.bits - 0x8000_0000_0000_0000
        } else {
            a.bits
        };
        proof {
            if m <= INF_MAG {
                lemma_single_fits(m as nat);
                lemma_decode_below(m as nat);
            }
        }
        let mag: u32 = if m > INF_MAG {
            0x7FC0_0000
        } else if m >= SINGLE_TOP {
            SINGLE_INF
        } else if m >= SINGLE_NORMAL {
            let h = shift_half_even(m as u128, 29);
            proof {
                vstd::arithmetic::power2::lemma2_to64();
                assert(0x2000_0000 == pow2(29));
            }
            (h - 0x1_C000_0000) as u32
        } else {
            let e: u64 = m / 0x10_0000_0000_0000;
            let (s, x): (u64, u64) = if e == 0 {
                (m, 0)
            } else {
                (0x10_0000_0000_0000 + m % 0x10_0000_0000_0000, e - 1)
            };
            proof {
                lemma_decode(m as nat);
            }
            if 925 - x >= 54 {
                proof {
                    lemma_vanishes(s as nat, (925 - x) as nat);
                }
                0
            } else {
                shift_half_even(s as u128, (925 - x) as u32) as u32
            }
        };
        Single {
            bits: if neg {
                0x8000_0000 + mag
            } else {
                mag
            },
        }
    }

    /// The same number with more room.
    pub fn widen(self) -> (r: Scalar)
        ensures
            r == widened(self.bits),
    {
        Scalar::from_f32_bits(self.bits)
    }
}

} // verus!
