//! What joint rates, with something to aim at besides the motion of the tool, are made of, and
//! the geometry of an arm with a wrist.

use vstd::prelude::*;

#[allow(unused_imports)]
use crate::ik::branches::turned;
#[allow(unused_imports)]
use crate::ik::redundancy::{both, pulls, rates_for, rates_with_aim, valid, RatesV, RedundancyOpts};
#[allow(unused_imports)]
use crate::ik::wrist::{elbow_cosine, in_plane, TrigV, WristParams};
#[allow(unused_imports)]
use crate::scalar::consts::{PI_BITS, TWO_BITS};
#[allow(unused_imports)]
use crate::scalar::convert::from_int;
#[allow(unused_imports)]
use crate::scalar::formula::{
    is_difference, is_quotient, is_sum, is_times, lemma_is_difference, lemma_is_quotient,
    lemma_is_times, on_scale,
};
#[allow(unused_imports)]
use crate::scalar::number::{fadd, fmul, fsub};
#[allow(unused_imports)]
use crate::scalar::order::law_sum_is_near;
#[allow(unused_imports)]
use crate::scalar::rounding::INF_MAG;
#[allow(unused_imports)]
use crate::scalar::vec3::Vec3;
#[allow(unused_imports)]
use crate::scalar::Scalar;

verus! {

/// With something to aim at, each joint moves as it would without, and as far as the aim does
/// not move the tool on top of it.
pub proof fn law_aims_come_on_top(
    a: RatesV,
    n: nat,
    q: Seq<Scalar>,
    v: Seq<Scalar>,
    z: Seq<Scalar>,
    o: RedundancyOpts,
    i: int,
)
    requires
        valid(q, n) && valid(v, 6) && valid(z, n),
        rates_for(a, n, q, v, o).len() == n,
        0 <= i < n,
        rates_for(a, n, q, v, o)[i].finite(),
        (a.project)(q, z)[i].finite(),
        rates_with_aim(a, n, q, v, z, o)[i].finite(),
    ensures
        is_sum(
            rates_with_aim(a, n, q, v, z, o)[i],
            rates_for(a, n, q, v, o)[i],
            (a.project)(q, z)[i],
        ),
{
    law_sum_is_near(rates_for(a, n, q, v, o)[i], (a.project)(q, z)[i]);
}

/// What a joint is pulled with depends on its own limits and its own position alone.
pub proof fn law_joints_are_pulled_on_their_own(
    l1: Seq<Option<(Scalar, Scalar)>>,
    l2: Seq<Option<(Scalar, Scalar)>>,
    n: nat,
    q1: Seq<Scalar>,
    q2: Seq<Scalar>,
    i: int,
)
    requires
        valid(q1, n) && valid(q2, n),
        0 <= i < n,
        i < l1.len() && i < l2.len(),
        l1[i] == l2[i] && q1[i] == q2[i],
    ensures
        pulls(l1, n, q1)[i] == pulls(l2, n, q2)[i],
        l1[i] is None ==> pulls(l1, n, q1)[i].mag() == 0,
{
}

/// Turned by so many whole turns, an angle is off by twice as many halves of a turn.
pub proof fn law_angles_turn_by_whole_turns(val: Scalar, k: int) -> (by: (Scalar, Scalar))
    requires
        val.finite(),
        on_scale(from_int(k), Scalar { bits: TWO_BITS }),
        on_scale(fmul(from_int(k), Scalar { bits: TWO_BITS }), Scalar { bits: PI_BITS }),
        turned(val, k).finite(),
    ensures
        ({
            let (halves, angle) = by;
            &&& is_times(halves, from_int(k), Scalar { bits: TWO_BITS })
            &&& is_times(angle, halves, Scalar { bits: PI_BITS })
            &&& is_sum(turned(val, k), val, angle)
        }),
{
    let halves = fmul(from_int(k), Scalar { bits: TWO_BITS });
    let angle = fmul(halves, Scalar { bits: PI_BITS });
    lemma_is_times(from_int(k), Scalar { bits: TWO_BITS });
    lemma_is_times(halves, Scalar { bits: PI_BITS });
    law_sum_is_near(val, angle);
    (halves, angle)
}

/// All numbers stay on the scale on the way to the cosine of the elbow.
pub open spec fn elbow_on_scale(p: WristParams, dx: Scalar, dz: Scalar) -> bool {
    let two = Scalar { bits: TWO_BITS };
    let dd = fadd(fmul(dx, dx), fmul(dz, dz));
    let den = fmul(fmul(two, p.l_a), p.l_b);
    &&& on_scale(dx, dx) && on_scale(dz, dz) && dd.finite()
    &&& on_scale(p.l_a, p.l_a) && on_scale(p.l_b, p.l_b)
    &&& fsub(dd, fmul(p.l_a, p.l_a)).finite()
    &&& fsub(fsub(dd, fmul(p.l_a, p.l_a)), fmul(p.l_b, p.l_b)).finite()
    &&& on_scale(two, p.l_a) && on_scale(fmul(two, p.l_a), p.l_b) && den.mag() > 0
    &&& elbow_cosine(p, dx, dz).mag() + 1 < INF_MAG
}

/// The bend of an elbow follows the law of cosines: the square of the way from the shoulder to
/// the wrist is those of both arms and twice their product, times the cosine.
pub proof fn law_elbows_follow_the_law_of_cosines(p: WristParams, dx: Scalar, dz: Scalar) -> (by: (
    (Scalar, Scalar, Scalar),
    (Scalar, Scalar, Scalar, Scalar),
    (Scalar, Scalar),
))
    requires
        elbow_on_scale(p, dx, dz),
    ensures
        ({
            let ((xx, zz, way), (aa, bb, most, left), (double, product)) = by;
            &&& is_times(xx, dx, dx) && is_times(zz, dz, dz) && is_sum(way, xx, zz)
            &&& is_times(aa, p.l_a, p.l_a) && is_times(bb, p.l_b, p.l_b)
            &&& is_difference(most, way, aa) && is_difference(left, most, bb)
            &&& is_times(double, Scalar { bits: TWO_BITS }, p.l_a) && is_times(product, double, p.l_b)
            &&& is_quotient(elbow_cosine(p, dx, dz), left, product)
        }),
{
    let two = Scalar { bits: TWO_BITS };
    let (xx, zz) = (fmul(dx, dx), fmul(dz, dz));
    let way = fadd(xx, zz);
    let (aa, bb) = (fmul(p.l_a, p.l_a), fmul(p.l_b, p.l_b));
    let most = fsub(way, aa);
    let left = fsub(most, bb);
    let double = fmul(two, p.l_a);
    let product = fmul(double, p.l_b);
    lemma_is_times(dx, dx);
    lemma_is_times(dz, dz);
    law_sum_is_near(xx, zz);
    lemma_is_times(p.l_a, p.l_a);
    lemma_is_times(p.l_b, p.l_b);
    lemma_is_difference(way, aa);
    lemma_is_difference(most, bb);
    lemma_is_times(two, p.l_a);
    lemma_is_times(double, p.l_b);
    lemma_is_quotient(left, product);
    ((xx, zz, way), (aa, bb, most, left), (double, product))
}

/// In the plane of the arm, the wrist is as far out as it is along the direction of the first
/// joint, and both ways are counted from the shoulder.
pub proof fn law_wrists_are_seen_from_the_shoulder(p: WristParams, w: Vec3, t: TrigV, q1: Scalar) -> (by: (
    Scalar,
    Scalar,
    Scalar,
))
    requires
        on_scale(w.x, (t.cos)(q1)) && on_scale(w.y, (t.sin)(q1)),
        fadd(fmul(w.x, (t.cos)(q1)), fmul(w.y, (t.sin)(q1))).finite(),
        p.o2.x.finite() && p.o2.z.finite() && w.z.finite(),
        in_plane(p, w, t, q1).0.finite() && in_plane(p, w, t, q1).1.finite(),
    ensures
        ({
            let (along, across, out) = by;
            &&& is_times(along, w.x, (t.cos)(q1))
            &&& is_times(across, w.y, (t.sin)(q1))
            &&& is_sum(out, along, across)
            &&& is_difference(in_plane(p, w, t, q1).0, out, p.o2.x)
            &&& is_difference(in_plane(p, w, t, q1).1, w.z, p.o2.z)
        }),
{
    let along = fmul(w.x, (t.cos)(q1));
    let across = fmul(w.y, (t.sin)(q1));
    let out = fadd(along, across);
    lemma_is_times(w.x, (t.cos)(q1));
    lemma_is_times(w.y, (t.sin)(q1));
    law_sum_is_near(along, across);
    lemma_is_difference(out, p.o2.x);
    lemma_is_difference(w.z, p.o2.z);
    (along, across, out)
}

} // verus!
