//! Joint rates for a wanted tool velocity, with a secondary aim in what the tool does
//! not feel.

use vstd::prelude::*;

use crate::hal::backend::{check_finite, zeros};
#[allow(unused_imports)]
use crate::hal::backend::{all_finite, zero_seq};
use crate::ik::solve::{damping_for, FLOOR_BITS, MILLI_BITS};
#[allow(unused_imports)]
use crate::ik::solve::damping;
use crate::model::Model;
use crate::scalar::consts::HALF_BITS;
#[allow(unused_imports)]
use crate::scalar::number::{fadd, fdiv, flt, fmul, fneg, fsub};
use crate::scalar::Scalar;

verus! {

/// Settings of the damping.
#[derive(Clone, Copy, Debug, PartialEq, Eq, Structural)]
pub struct RedundancyOpts {
    pub lambda0_sq: Scalar,
    pub lambda_floor_sq: Scalar,
    pub w_thresh: Scalar,
}

impl Default for RedundancyOpts {
    fn default() -> (r: RedundancyOpts)
        ensures
            r == (RedundancyOpts {
                lambda0_sq: Scalar { bits: MILLI_BITS },
                lambda_floor_sq: Scalar { bits: FLOOR_BITS },
                w_thresh: Scalar { bits: MILLI_BITS },
            }),
    {
        RedundancyOpts {
            lambda0_sq: Scalar { bits: MILLI_BITS },
            lambda_floor_sq: Scalar { bits: FLOOR_BITS },
            w_thresh: Scalar { bits: MILLI_BITS },
        }
    }
}

/// As many numbers as asked for, all finite.
pub open spec fn valid(q: Seq<Scalar>, n: nat) -> bool {
    q.len() == n && all_finite(q)
}

fn is_valid(q: &[Scalar], n: usize) -> (r: bool)
    ensures
        r == valid(q@, n as nat),
{
    if q.len() != n {
        return false;
    }
    match check_finite("q", q) {
        Ok(_) => true,
        Err(_) => false,
    }
}

/// What the matrices of an arm answer at a configuration: the singular values of its
/// Jacobian, the joint rates for a tool velocity under some damping, and the part of
/// joint rates that the tool does not feel.
pub struct Rates<S, I, P> {
    pub values: S,
    pub inverse: I,
    pub project: P,
}

/// `Rates` over functions.
pub struct RatesV {
    pub values: spec_fn(Seq<Scalar>) -> Seq<Scalar>,
    pub inverse: spec_fn(Seq<Scalar>, Seq<Scalar>, Scalar) -> Seq<Scalar>,
    pub project: spec_fn(Seq<Scalar>, Seq<Scalar>) -> Seq<Scalar>,
}

impl<
    S: Fn(&[Scalar]) -> Vec<Scalar>,
    I: Fn(&[Scalar], &[Scalar], Scalar) -> Vec<Scalar>,
    P: Fn(&[Scalar], &[Scalar]) -> Vec<Scalar>,
> Rates<S, I, P> {
    /// The matrices answer as `a` does.
    pub open spec fn answers(&self, a: RatesV) -> bool {
        &&& forall|q: &[Scalar], r: Vec<Scalar>|
            call_ensures(self.values, (q,), r) ==> r@ == (a.values)(q@)
        &&& forall|q: &[Scalar], v: &[Scalar], l: Scalar, r: Vec<Scalar>|
            call_ensures(self.inverse, (q, v, l), r) ==> r@ == (a.inverse)(q@, v@, l)
        &&& forall|q: &[Scalar], z: &[Scalar], r: Vec<Scalar>|
            call_ensures(self.project, (q, z), r) ==> r@ == (a.project)(q@, z@)
    }

    /// The matrices can be asked anywhere, and give one rate per joint.
    pub open spec fn usable(&self) -> bool {
        &&& forall|q: &[Scalar]| call_requires(self.values, (q,))
        &&& forall|q: &[Scalar], v: &[Scalar], l: Scalar| call_requires(self.inverse, (q, v, l))
        &&& forall|q: &[Scalar], z: &[Scalar]| call_requires(self.project, (q, z))
        &&& forall|q: &[Scalar], v: &[Scalar], l: Scalar, r: Vec<Scalar>|
            call_ensures(self.inverse, (q, v, l), r) ==> r@.len() == q@.len()
        &&& forall|q: &[Scalar], z: &[Scalar], r: Vec<Scalar>|
            call_ensures(self.project, (q, z), r) ==> r@.len() == q@.len()
    }
}

/// The rates for a wanted tool velocity.
pub open spec fn rates_for(
    a: RatesV,
    n: nat,
    q: Seq<Scalar>,
    v: Seq<Scalar>,
    o: RedundancyOpts,
) -> Seq<Scalar> {
    if !valid(q, n) || !valid(v, 6) {
        zero_seq(n)
    } else {
        (a.inverse)(q, v, damping((a.values)(q), o.lambda0_sq, o.lambda_floor_sq, o.w_thresh))
    }
}

/// Two rates at once.
pub open spec fn both(a: Seq<Scalar>, b: Seq<Scalar>) -> Seq<Scalar> {
    Seq::new(a.len(), |i: int| fadd(a[i], b[i]))
}

/// The rates for a wanted tool velocity and a secondary aim.
pub open spec fn rates_with_aim(
    a: RatesV,
    n: nat,
    q: Seq<Scalar>,
    v: Seq<Scalar>,
    z: Seq<Scalar>,
    o: RedundancyOpts,
) -> Seq<Scalar> {
    if !valid(q, n) || !valid(v, 6) || !valid(z, n) {
        zero_seq(n)
    } else {
        both(rates_for(a, n, q, v, o), (a.project)(q, z))
    }
}

/// Joint rates for a tool velocity; zeros for bad input.
pub fn resolved_rate<
    S: Fn(&[Scalar]) -> Vec<Scalar>,
    I: Fn(&[Scalar], &[Scalar], Scalar) -> Vec<Scalar>,
    P: Fn(&[Scalar], &[Scalar]) -> Vec<Scalar>,
>(model: &Model, arm: &Rates<S, I, P>, q: &[Scalar], v_desired: &[Scalar], opts: &RedundancyOpts) -> (r:
    Vec<Scalar>)
    requires
        arm.usable(),
    ensures
        forall|a: RatesV| #[trigger]
            arm.answers(a) ==> r@ == rates_for(a, model.ndof as nat, q@, v_desired@, *opts),
        r@.len() == model.ndof,
{
    if !is_valid(q, model.ndof) || !is_valid(v_desired, 6) {
        return zeros(model.ndof);
    }
    let sv = (arm.values)(q);
    let l = damping_for(&sv, opts.lambda0_sq, opts.lambda_floor_sq, opts.w_thresh);
    let r = (arm.inverse)(q, v_desired, l);
    proof {
        assert forall|a: RatesV| #[trigger] arm.answers(a) implies r@ == rates_for(
            a,
            model.ndof as nat,
            q@,
            v_desired@,
            *opts,
        ) by {
            assert(sv@ == (a.values)(q@));
        }
    }
    r
}

/// Joint rates for a tool velocity, and of `z_secondary` what the tool does not feel;
/// zeros for bad input.
pub fn nullspace_step<
    S: Fn(&[Scalar]) -> Vec<Scalar>,
    I: Fn(&[Scalar], &[Scalar], Scalar) -> Vec<Scalar>,
    P: Fn(&[Scalar], &[Scalar]) -> Vec<Scalar>,
>(
    model: &Model,
    arm: &Rates<S, I, P>,
    q: &[Scalar],
    v_desired: &[Scalar],
    z_secondary: &[Scalar],
    opts: &RedundancyOpts,
) -> (r: Vec<Scalar>)
    requires
        arm.usable(),
    ensures
        forall|a: RatesV| #[trigger]
            arm.answers(a) ==> r@ == rates_with_aim(
                a,
                model.ndof as nat,
                q@,
                v_desired@,
                z_secondary@,
                *opts,
            ),
        r@.len() == model.ndof,
{
    if !is_valid(q, model.ndof) || !is_valid(v_desired, 6) || !is_valid(z_secondary, model.ndof) {
        return zeros(model.ndof);
    }
    let primary = resolved_rate(model, arm, q, v_desired, opts);
    let unfelt = (arm.project)(q, z_secondary);
    let mut out: Vec<Scalar> = Vec::new();
    let mut i: usize = 0;
    while i < primary.len()
        invariant
            i <= primary.len(),
            primary@.len() == unfelt@.len(),
            out.len() == i,
            forall|k: int| 0 <= k < i ==> #[trigger] out@[k] == fadd(primary@[k], unfelt@[k]),
        decreases primary.len() - i,
    {
        out.push(primary[i].add(unfelt[i]));
        i = i + 1;
    }
    assert(out@ =~= both(primary@, unfelt@));
    out
}

/// How a joint is drawn to the middle of its range.
pub open spec fn pull(limit: Option<(Scalar, Scalar)>, q: Scalar) -> Scalar {
    match limit {
        Some((lo, hi)) => if flt(lo, hi) {
            let mid = fmul(Scalar { bits: HALF_BITS }, fadd(lo, hi));
            let range = fsub(hi, lo);
            fdiv(fneg(fsub(q, mid)), fmul(range, range))
        } else {
            Scalar { bits: 0 }
        },
        None => Scalar { bits: 0 },
    }
}

/// How a configuration is drawn to the middle of its ranges.
pub open spec fn pulls(
    limits: Seq<Option<(Scalar, Scalar)>>,
    n: nat,
    q: Seq<Scalar>,
) -> Seq<Scalar> {
    if valid(q, n) {
        Seq::new(
            n,
            |i: int|
                pull(
                    if i < limits.len() {
                        limits[i]
                    } else {
                        None
                    },
                    q[i],
                ),
        )
    } else {
        zero_seq(n)
    }
}

/// A secondary aim that draws every limited joint to the middle of its range; zeros
/// for bad input.
pub fn joint_limit_avoidance_gradient(model: &Model, q: &[Scalar]) -> (r: Vec<Scalar>)
    ensures
        r@ == pulls(model.limits@, model.ndof as nat, q@),
{
    if !is_valid(q, model.ndof) {
        return zeros(model.ndof);
    }
    let mut out: Vec<Scalar> = Vec::new();
    let mut i: usize = 0;
    while i < model.ndof
        invariant
            i <= model.ndof,
            valid(q@, model.ndof as nat),
            out.len() == i,
            forall|k: int|
                0 <= k < i ==> #[trigger] out@[k] == pulls(
                    model.limits@,
                    model.ndof as nat,
                    q@,
                )[k],
        decreases model.ndof - i,
    {
        let limit = if i < model.limits.len() {
            model.limits[i]
        } else {
            None
        };
        out.push(
            match limit {
                Some((lo, hi)) => if lo.lt(hi) {
                    let mid = Scalar { bits: HALF_BITS }.mul(lo.add(hi));
                    let range = hi.sub(lo);
                    q[i].sub(mid).neg().div(range.mul(range))
                } else {
                    Scalar { bits: 0 }
                },
                None => Scalar { bits: 0 },
            },
        );
        i = i + 1;
    }
    assert(out@ =~= pulls(model.limits@, model.ndof as nat, q@));
    out
}

} // verus!
