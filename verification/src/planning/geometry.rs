//! Distances and straight lines between configurations.

use vstd::prelude::*;

use crate::hal::backend::copy_scalars;
use crate::scalar::consts::MINUS_ZERO_BITS;
#[allow(unused_imports)]
use crate::scalar::number::{fadd, fdiv, feq, fle, fmul, fsub};
#[allow(unused_imports)]
use crate::scalar::root::fsqrt;
use crate::scalar::Scalar;

verus! {

pub open spec fn shorter(a: Seq<Scalar>, b: Seq<Scalar>) -> nat {
    if a.len() < b.len() {
        a.len()
    } else {
        b.len()
    }
}

/// Sum of the squared differences of the first `n` joints.
pub open spec fn square_sum(a: Seq<Scalar>, b: Seq<Scalar>, n: nat) -> Scalar
    decreases n,
{
    if n == 0 {
        Scalar { bits: MINUS_ZERO_BITS }
    } else {
        let d = fsub(a[n - 1], b[n - 1]);
        fadd(square_sum(a, b, (n - 1) as nat), fmul(d, d))
    }
}

pub open spec fn distance_sq(a: Seq<Scalar>, b: Seq<Scalar>) -> Scalar {
    square_sum(a, b, shorter(a, b))
}

pub open spec fn distance(a: Seq<Scalar>, b: Seq<Scalar>) -> Scalar {
    fsqrt(distance_sq(a, b))
}

/// The point at a fraction of the way.
pub open spec fn lerped(a: Seq<Scalar>, b: Seq<Scalar>, t: Scalar) -> Seq<Scalar> {
    Seq::new(shorter(a, b), |i: int| fadd(a[i], fmul(fsub(b[i], a[i]), t)))
}

/// A step toward `to` of at most `step`.
pub open spec fn steered(from: Seq<Scalar>, to: Seq<Scalar>, step: Scalar) -> Seq<Scalar> {
    let d = distance(from, to);
    if fle(d, step) || feq(d, Scalar { bits: 0 }) {
        to
    } else {
        lerped(from, to, fdiv(step, d))
    }
}

pub fn dist_sq(a: &Vec<Scalar>, b: &Vec<Scalar>) -> (r: Scalar)
    ensures
        r == distance_sq(a@, b@),
{
    let n: usize = if a.len() < b.len() {
        a.len()
    } else {
        b.len()
    };
    let mut s = Scalar { bits: MINUS_ZERO_BITS };
    let mut i: usize = 0;
    while i < n
        invariant
            i <= n,
            n <= a.len(),
            n <= b.len(),
            s == square_sum(a@, b@, i as nat),
        decreases n - i,
    {
        let d = a[i].sub(b[i]);
        s = s.add(d.mul(d));
        i = i + 1;
    }
    s
}

/// Euclidean distance in joint space.
pub fn dist(a: &Vec<Scalar>, b: &Vec<Scalar>) -> (r: Scalar)
    ensures
        r == distance(a@, b@),
{
    dist_sq(a, b).sqrt()
}

/// The point at a fraction of the way.
pub fn lerp(a: &Vec<Scalar>, b: &Vec<Scalar>, t: Scalar) -> (r: Vec<Scalar>)
    ensures
        r@ == lerped(a@, b@, t),
{
    let n: usize = if a.len() < b.len() {
        a.len()
    } else {
        b.len()
    };
    let mut out: Vec<Scalar> = Vec::new();
    let mut i: usize = 0;
    while i < n
        invariant
            i <= n,
            n <= a.len(),
            n <= b.len(),
            out.len() == i,
            forall|k: int|
                0 <= k < i ==> #[trigger] out@[k] == fadd(
                    a@[k],
                    fmul(fsub(b@[k], a@[k]), t),
                ),
        decreases n - i,
    {
        out.push(a[i].add(b[i].sub(a[i]).mul(t)));
        i = i + 1;
    }
    assert(out@ =~= lerped(a@, b@, t));
    out
}

/// A step toward `to` of at most `step`; `to` itself where that is enough.
pub fn steer(from: &Vec<Scalar>, to: &Vec<Scalar>, step: Scalar) -> (r: Vec<Scalar>)
    ensures
        r@ == steered(from@, to@, step),
{
    let d = dist(from, to);
    if d.le(step) || d.same(Scalar { bits: 0 }) {
        return copy_scalars(to.as_slice());
    }
    lerp(from, to, step.div(d))
}

} // verus!
