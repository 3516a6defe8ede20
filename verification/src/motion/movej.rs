//! Joint moves: every joint starts and stops at rest, all at the same times.

use vstd::prelude::*;

use crate::hal::backend::copy_scalars;
use crate::model::Model;
use crate::motion::error::MotionError;
use crate::motion::limits::MotionLimits;
#[allow(unused_imports)]
use crate::motion::limits::LimitsV;
#[allow(unused_imports)]
use crate::motion::retime::seen;
use crate::motion::scurve::{plan_scurve, plan_scurve_to_duration, ScurveProfile};
#[allow(unused_imports)]
use crate::motion::scurve::{computes, planned, stretched, total_of, ProfileV};
use crate::motion::trajectory::Trajectory;
#[allow(unused_imports)]
use crate::motion::trajectory::{joint_move, profiles_of, TrajV};
use crate::scalar::consts::NANO_BITS;
#[allow(unused_imports)]
use crate::scalar::convert::fmax;
#[allow(unused_imports)]
use crate::scalar::number::{fadd, flt, fsub};
use crate::scalar::Scalar;

verus! {

/// A position outside its limits by more than a rounding error.
pub open spec fn outside(x: Scalar, lo: Scalar, hi: Scalar) -> bool {
    flt(x, fsub(lo, Scalar { bits: NANO_BITS })) || flt(fadd(hi, Scalar { bits: NANO_BITS }), x)
}

/// First joint from `i` on whose start or goal is outside its limits.
pub open spec fn first_outside(
    limits: Seq<Option<(Scalar, Scalar)>>,
    q0: Seq<Scalar>,
    q1: Seq<Scalar>,
    i: int,
) -> Option<int>
    decreases limits.len() - i,
{
    if i < 0 || i >= limits.len() {
        None
    } else {
        match limits[i] {
            Some((lo, hi)) => if outside(q0[i], lo, hi) || outside(q1[i], lo, hi) {
                Some(i)
            } else {
                first_outside(limits, q0, q1, i + 1)
            },
            None => first_outside(limits, q0, q1, i + 1),
        }
    }
}

/// The quickest move of joint `i`.
pub open spec fn own_move(
    q0: Seq<Scalar>,
    q1: Seq<Scalar>,
    l: LimitsV,
    cbrt: spec_fn(Scalar) -> Scalar,
    i: int,
) -> ProfileV {
    planned(fsub(q1[i], q0[i]), l.v[i], l.a[i], l.j[i], cbrt)
}

/// The slowest of the first `n` joints.
pub open spec fn slowest(
    q0: Seq<Scalar>,
    q1: Seq<Scalar>,
    l: LimitsV,
    cbrt: spec_fn(Scalar) -> Scalar,
    n: nat,
) -> Scalar
    decreases n,
{
    if n == 0 {
        Scalar { bits: 0 }
    } else {
        fmax(
            slowest(q0, q1, l, cbrt, (n - 1) as nat),
            total_of(own_move(q0, q1, l, cbrt, n - 1)),
        )
    }
}

/// The move of joint `i`, stretched to the slowest joint where it is quicker.
pub open spec fn synced(
    q0: Seq<Scalar>,
    q1: Seq<Scalar>,
    l: LimitsV,
    cbrt: spec_fn(Scalar) -> Scalar,
    tmax: Scalar,
    i: int,
) -> ProfileV {
    let own = own_move(q0, q1, l, cbrt, i);
    if flt(total_of(own), fsub(tmax, Scalar { bits: NANO_BITS })) {
        stretched(fsub(q1[i], q0[i]), tmax, l.v[i], l.a[i], l.j[i], cbrt)
    } else {
        own
    }
}

/// A joint move, or why there is none.
pub open spec fn moved(
    n: nat,
    limits: Seq<Option<(Scalar, Scalar)>>,
    q0: Seq<Scalar>,
    q1: Seq<Scalar>,
    l: LimitsV,
    cbrt: spec_fn(Scalar) -> Scalar,
) -> Result<TrajV, MotionError> {
    if q0.len() != n || q1.len() != n || l.v.len() != n {
        Err(MotionError::DimMismatch)
    } else {
        match first_outside(limits, q0, q1, 0) {
            Some(i) => Err(MotionError::OutOfLimits(i as usize)),
            None => {
                let tmax = slowest(q0, q1, l, cbrt, n);
                if flt(tmax, Scalar { bits: NANO_BITS }) {
                    Ok(
                        joint_move(
                            q0,
                            Seq::new(n, |i: int| own_move(q0, q1, l, cbrt, i)),
                            Scalar { bits: 0 },
                            l,
                        ),
                    )
                } else {
                    Ok(
                        joint_move(
                            q0,
                            Seq::new(n, |i: int| synced(q0, q1, l, cbrt, tmax, i)),
                            tmax,
                            l,
                        ),
                    )
                }
            },
        }
    }
}

fn is_outside(x: Scalar, lo: Scalar, hi: Scalar) -> (r: bool)
    ensures
        r == outside(x, lo, hi),
{
    let e = Scalar { bits: NANO_BITS };
    x.lt(lo.sub(e)) || x.gt(hi.add(e))
}

/// A joint move within the limits; the quicker joints wait for the slowest.
pub fn move_j<F: Fn(Scalar) -> Scalar>(
    model: &Model,
    q0: &Vec<Scalar>,
    q1: &Vec<Scalar>,
    limits: &MotionLimits,
    cbrt: &F,
) -> (r: Result<Trajectory, MotionError>)
    requires
        forall|x: Scalar| call_requires(*cbrt, (x,)),
        model.limits@.len() <= model.ndof,
        limits@.a.len() >= limits@.v.len(),
        limits@.j.len() >= limits@.v.len(),
    ensures
        forall|g: spec_fn(Scalar) -> Scalar| #[trigger]
            computes(*cbrt, g) ==> seen(r) == moved(
                model.ndof as nat,
                model.limits@,
                q0@,
                q1@,
                limits@,
                g,
            ),
{
    let n: usize = model.ndof;
    if q0.len() != n || q1.len() != n || limits.ndof() != n {
        return Err(MotionError::DimMismatch);
    }
    let mut i: usize = 0;
    while i < model.limits.len()
        invariant
            i <= model.limits.len(),
            model.limits@.len() <= n,
            q0@.len() == n,
            q1@.len() == n,
            limits@.v.len() == n,
            n == model.ndof,
            first_outside(model.limits@, q0@, q1@, 0) == first_outside(
                model.limits@,
                q0@,
                q1@,
                i as int,
            ),
        decreases model.limits.len() - i,
    {
        match model.limits[i] {
            Some((lo, hi)) => {
                if is_outside(q0[i], lo, hi) || is_outside(q1[i], lo, hi) {
                    return Err(MotionError::OutOfLimits(i));
                }
            },
            None => {},
        }
        i = i + 1;
    }
    let mut profiles: Vec<ScurveProfile> = Vec::new();
    let mut tmax = Scalar { bits: 0 };
    let mut k: usize = 0;
    while k < n
        invariant
            k <= n,
            forall|x: Scalar| call_requires(*cbrt, (x,)),
            q0@.len() == n,
            q1@.len() == n,
            limits@.v.len() == n,
            limits@.a.len() >= n,
            limits@.j.len() >= n,
            profiles.len() == k,
            forall|g: spec_fn(Scalar) -> Scalar| #[trigger]
                computes(*cbrt, g) ==> tmax == slowest(q0@, q1@, limits@, g, k as nat),
            forall|g: spec_fn(Scalar) -> Scalar, c: int|
                #![trigger computes(*cbrt, g), profiles@[c]]
                computes(*cbrt, g) && 0 <= c < k ==> profiles@[c]@ == own_move(
                    q0@,
                    q1@,
                    limits@,
                    g,
                    c,
                ),
        decreases n - k,
    {
        let p = plan_scurve(
            q1[k].sub(q0[k]),
            limits.vmax[k],
            limits.amax[k],
            limits.jmax[k],
            cbrt,
        );
        tmax = tmax.max(p.total());
        profiles.push(p);
        k = k + 1;
    }
    let start = copy_scalars(q0.as_slice());
    if tmax.lt(Scalar { bits: NANO_BITS }) {
        proof {
            assert forall|g: spec_fn(Scalar) -> Scalar| #[trigger] computes(*cbrt, g) implies
                profiles_of(profiles@) == Seq::new(
                n as nat,
                |i: int| own_move(q0@, q1@, limits@, g, i),
            ) by {
                assert(profiles_of(profiles@) =~= Seq::new(
                    n as nat,
                    |i: int| own_move(q0@, q1@, limits@, g, i),
                ));
            }
        }
        return Ok(
            Trajectory::from_profiles(start, profiles, Scalar { bits: 0 }, limits.copy()),
        );
    }
    let mut out: Vec<ScurveProfile> = Vec::new();
    let mut c: usize = 0;
    while c < n
        invariant
            c <= n,
            forall|x: Scalar| call_requires(*cbrt, (x,)),
            q0@.len() == n,
            q1@.len() == n,
            limits@.v.len() == n,
            limits@.a.len() >= n,
            limits@.j.len() >= n,
            profiles.len() == n,
            out.len() == c,
            forall|g: spec_fn(Scalar) -> Scalar, b: int|
                #![trigger computes(*cbrt, g), profiles@[b]]
                computes(*cbrt, g) && 0 <= b < n ==> profiles@[b]@ == own_move(
                    q0@,
                    q1@,
                    limits@,
                    g,
                    b,
                ),
            forall|g: spec_fn(Scalar) -> Scalar, b: int|
                #![trigger computes(*cbrt, g), out@[b]]
                computes(*cbrt, g) && 0 <= b < c ==> out@[b]@ == synced(
                    q0@,
                    q1@,
                    limits@,
                    g,
                    tmax,
                    b,
                ),
        decreases n - c,
    {
        let own = &profiles[c];
        assert(*own == profiles@[c as int]);
        if own.total().lt(tmax.sub(Scalar { bits: NANO_BITS })) {
            let p = plan_scurve_to_duration(
                q1[c].sub(q0[c]),
                tmax,
                limits.vmax[c],
                limits.amax[c],
                limits.jmax[c],
                cbrt,
            );
            out.push(p);
        } else {
            out.push(own.copy());
        }
        c = c + 1;
    }
    proof {
        assert forall|g: spec_fn(Scalar) -> Scalar| #[trigger] computes(*cbrt, g) implies
            profiles_of(out@) == Seq::new(
            n as nat,
            |i: int| synced(q0@, q1@, limits@, g, tmax, i),
        ) by {
            assert(profiles_of(out@) =~= Seq::new(
                n as nat,
                |i: int| synced(q0@, q1@, limits@, g, tmax, i),
            ));
        }
    }
    Ok(Trajectory::from_profiles(start, out, tmax, limits.copy()))
}

} // verus!
