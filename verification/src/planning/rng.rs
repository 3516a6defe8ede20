//! A small generator of pseudo-random numbers: one seed, one sequence.

use vstd::prelude::*;

#[allow(unused_imports)]
use crate::scalar::consts::ONE_BITS;
use crate::scalar::consts::TWO_53_BITS;
#[allow(unused_imports)]
use crate::scalar::convert::from_int;
#[allow(unused_imports)]
use crate::scalar::number::{fadd, fdiv, fle, flt, fmul, fsub};
#[allow(unused_imports)]
use crate::scalar::order::lemma_unit_fraction;
use crate::scalar::Scalar;

verus! {

/// The state is the seed advanced once per number.
#[derive(Clone, Copy, Debug, PartialEq, Eq, Structural)]
pub struct Rng {
    pub state: u64,
}

pub open spec fn wrapped(x: int) -> u64 {
    (x % 0x1_0000_0000_0000_0000) as u64
}

/// The next state.
pub open spec fn advanced(s: u64) -> u64 {
    wrapped(s + 0x9E37_79B9_7F4A_7C15)
}

/// The number of a state.
pub open spec fn scrambled(s: u64) -> u64 {
    let a = wrapped((s ^ (s >> 30u64)) * 0xBF58_476D_1CE4_E5B9);
    let b = wrapped((a ^ (a >> 27u64)) * 0x94D0_49BB_1331_11EB);
    b ^ (b >> 31u64)
}

/// The number of a state, as one of the multiples of `2^-53` below one.
#[verifier::opaque]
pub open spec fn unit_of(s: u64) -> Scalar {
    fdiv(from_int((scrambled(s) >> 11u64) as int), Scalar { bits: TWO_53_BITS })
}

/// A number between `lo` and `hi`.
pub open spec fn between(s: u64, lo: Scalar, hi: Scalar) -> Scalar {
    fadd(lo, fmul(fsub(hi, lo), unit_of(s)))
}

fn wrap(x: u128) -> (r: u64)
    ensures
        r == wrapped(x as int),
{
    (x % 0x1_0000_0000_0000_0000u128) as u64
}

fn times(a: u64, b: u64) -> (r: u64)
    ensures
        r == wrapped(a * b),
{
    assert(a * b <= 0xFFFF_FFFF_FFFF_FFFF * 0xFFFF_FFFF_FFFF_FFFF) by (nonlinear_arith)
        requires
            0 <= a <= 0xFFFF_FFFF_FFFF_FFFF,
            0 <= b <= 0xFFFF_FFFF_FFFF_FFFF,
    ;
    assert(a * b >= 0) by (nonlinear_arith)
        requires
            a >= 0,
            b >= 0,
    ;
    wrap((a as u128) * (b as u128))
}

impl Rng {
    pub fn new(seed: u64) -> (r: Rng)
        ensures
            r.state == seed,
    {
        Rng { state: seed }
    }

    fn next_u64(&mut self) -> (r: u64)
        ensures
            final(self).state == advanced(old(self).state),
            r == scrambled(final(self).state),
    {
        self.state = wrap(self.state as u128 + 0x9E37_79B9_7F4A_7C15u128);
        let s = self.state;
        let a = times(s ^ (s >> 30u64), 0xBF58_476D_1CE4_E5B9);
        let b = times(a ^ (a >> 27u64), 0x94D0_49BB_1331_11EB);
        b ^ (b >> 31u64)
    }

    /// A number in `[0, 1)`.
    pub fn unit(&mut self) -> (r: Scalar)
        ensures
            final(self).state == advanced(old(self).state),
            r == unit_of(final(self).state),
    {
        reveal(unit_of);
        let z = self.next_u64();
        Scalar::from_u64(z >> 11u64).div(Scalar { bits: TWO_53_BITS })
    }

    /// A number in `[lo, hi]`.
    pub fn range(&mut self, lo: Scalar, hi: Scalar) -> (r: Scalar)
        ensures
            final(self).state == advanced(old(self).state),
            r == between(final(self).state, lo, hi),
    {
        let u = self.unit();
        lo.add(hi.sub(lo).mul(u))
    }
}

/// One number per pair of bounds, for the first `k` pairs, and the state afterwards.
pub open spec fn drawn(s: u64, bounds: Seq<(Scalar, Scalar)>, k: nat) -> (Seq<Scalar>, u64)
    decreases k,
{
    if k == 0 {
        (Seq::empty(), s)
    } else {
        let (q, t) = drawn(s, bounds, (k - 1) as nat);
        let u = advanced(t);
        (q.push(between(u, bounds[k - 1].0, bounds[k - 1].1)), u)
    }
}

/// Draws a configuration within bounds.
pub fn draw(rng: &mut Rng, bounds: &Vec<(Scalar, Scalar)>) -> (r: Vec<Scalar>)
    ensures
        (r@, final(rng).state) == drawn(old(rng).state, bounds@, bounds@.len()),
        r@.len() == bounds@.len(),
{
    let ghost s = rng.state;
    let mut q: Vec<Scalar> = Vec::new();
    let mut i: usize = 0;
    while i < bounds.len()
        invariant
            i <= bounds.len(),
            q.len() == i,
            (q@, rng.state) == drawn(s, bounds@, i as nat),
        decreases bounds.len() - i,
    {
        let (lo, hi) = bounds[i];
        let x = rng.range(lo, hi);
        q.push(x);
        i = i + 1;
    }
    q
}

/// Every number drawn is at least zero and below one.
pub proof fn law_units_are_below_one(s: u64)
    ensures
        fle(Scalar { bits: 0 }, unit_of(s)),
        flt(unit_of(s), Scalar { bits: ONE_BITS }),
{
    reveal(unit_of);
    let z = scrambled(s);
    assert(z >> 11u64 < 0x20_0000_0000_0000u64) by (bit_vector);
    lemma_unit_fraction((z >> 11u64) as nat);
}

} // verus!
