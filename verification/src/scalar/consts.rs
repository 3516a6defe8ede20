//! Bit patterns of common numbers.

use vstd::prelude::*;

verus! {

/// `-0.0`, what a sum starts from.
pub const MINUS_ZERO_BITS: u64 = 0x8000_0000_0000_0000;

/// `0.5`.
pub const HALF_BITS: u64 = 0x3FE0_0000_0000_0000;

/// `1.0`.
pub const ONE_BITS: u64 = 0x3FF0_0000_0000_0000;

/// `-1.0`.
pub const MINUS_ONE_BITS: u64 = 0xBFF0_0000_0000_0000;

/// `1.5`.
pub const ONE_HALF_MORE_BITS: u64 = 0x3FF8_0000_0000_0000;

/// `2.0`.
pub const TWO_BITS: u64 = 0x4000_0000_0000_0000;

/// `-2.0`.
pub const MINUS_TWO_BITS: u64 = 0xC000_0000_0000_0000;

/// `3.0`.
pub const THREE_BITS: u64 = 0x4008_0000_0000_0000;

/// `4.0`.
pub const FOUR_BITS: u64 = 0x4010_0000_0000_0000;

/// `5.0`.
pub const FIVE_BITS: u64 = 0x4014_0000_0000_0000;

/// `6.0`.
pub const SIX_BITS: u64 = 0x4018_0000_0000_0000;

/// `100.0`.
pub const HUNDRED_BITS: u64 = 0x4059_0000_0000_0000;

/// `10.0`.
pub const TEN_BITS: u64 = 0x4024_0000_0000_0000;

/// `25.0`.
pub const TWENTY_FIVE_BITS: u64 = 0x4039_0000_0000_0000;

/// `2^53`.
pub const TWO_53_BITS: u64 = 0x4340_0000_0000_0000;

/// `3.141592653589793`.
pub const PI_BITS: u64 = 0x4009_21FB_5444_2D18;

/// `-3.141592653589793`.
pub const MINUS_PI_BITS: u64 = 0xC009_21FB_5444_2D18;

/// Infinity.
pub const INFINITY_BITS: u64 = 0x7FF0_0000_0000_0000;

/// Minus infinity.
pub const MINUS_INFINITY_BITS: u64 = 0xFFF0_0000_0000_0000;

/// `1e-12`.
pub const PICO_BITS: u64 = 0x3D71_9799_812D_EA11;

/// `1e-9`.
pub const NANO_BITS: u64 = 0x3E11_2E0B_E826_D695;

/// `1e-6`.
pub const MICRO_BITS: u64 = 0x3EB0_C6F7_A0B5_ED8D;

/// `0.01`.
pub const CENTI_BITS: u64 = 0x3F84_7AE1_47AE_147B;

/// `0.05`.
pub const TWENTIETH_BITS: u64 = 0x3FA9_9999_9999_999A;

/// `0.1`.
pub const TENTH_BITS: u64 = 0x3FB9_9999_9999_999A;

/// `0.25`.
pub const QUARTER_BITS: u64 = 0x3FD0_0000_0000_0000;

/// `0.3`.
pub const THREE_TENTHS_BITS: u64 = 0x3FD3_3333_3333_3333;

} // verus!
