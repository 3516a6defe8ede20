//! What lines, arcs and the paths sampled along them are.

use vstd::prelude::*;

#[allow(unused_imports)]
use crate::motion::cartesian::{jump_between, slope, worst_in, worst_of};
#[allow(unused_imports)]
use crate::motion::shape::{angle_at, between, on_arc, ArcGeom, TURN_BITS};
#[allow(unused_imports)]
use crate::scalar::consts::TWO_BITS;
#[allow(unused_imports)]
use crate::scalar::formula::{
    is_difference, is_quotient, is_sum, is_times, law_share_of_the_way, lemma_is_difference,
    lemma_is_quotient, lemma_is_times, off_by, on_scale,
};
#[allow(unused_imports)]
use crate::scalar::near::{close, law_root_is_near, size, unit};
#[allow(unused_imports)]
use crate::scalar::number::{fabs, fadd, fdiv, fle, flt, fmul, fsub};
#[allow(unused_imports)]
use crate::scalar::order::{gap, law_sum_is_near};
#[allow(unused_imports)]
use crate::scalar::rounding::INF_MAG;
#[allow(unused_imports)]
use crate::scalar::vec3::{vdot, vnorm, vsub, Vec3};
#[allow(unused_imports)]
use crate::scalar::Scalar;

verus! {

/// The three numbers of a point.
pub open spec fn lane3(p: Vec3, j: int) -> Scalar {
    if j == 0 {
        p.x
    } else if j == 1 {
        p.y
    } else {
        p.z
    }
}

/// A point on a line is its start and the share `s` of the way to its end.
pub proof fn law_lines_are_shares_of_the_way(a: Vec3, b: Vec3, s: Scalar, j: int)
    requires
        0 <= j < 3,
        lane3(a, j).finite() && lane3(b, j).finite(),
        lane3(vsub(b, a), j).finite(),
        on_scale(lane3(vsub(b, a), j), s),
        lane3(between(a, b, s), j).finite(),
    ensures
        ({
            let (x, y) = (lane3(a, j), lane3(b, j));
            let r = lane3(between(a, b, s), j);
            let d = lane3(vsub(b, a), j);
            off_by(
                r.units() * unit(),
                x.units() * unit() + (y.units() - x.units()) * s.units(),
                (gap(r.mag()) + gap(fmul(d, s).mag())) * unit() + gap(d.mag()) * size(s),
            )
        }),
{
    law_share_of_the_way(lane3(a, j), lane3(b, j), lane3(a, j), s);
}

/// A point of an arc is its centre and, as far as its radius, the cosine along the one axis
/// and the sine along the other.
pub proof fn law_arcs_go_round(arc: ArcGeom, cos: Scalar, sin: Scalar, j: int) -> (by: (
    Scalar,
    Scalar,
    Scalar,
    Scalar,
))
    requires
        0 <= j < 3,
        lane3(arc.c, j).finite(),
        on_scale(lane3(arc.u, j), cos),
        on_scale(lane3(arc.v, j), sin),
        ({
            let e = fadd(fmul(lane3(arc.u, j), cos), fmul(lane3(arc.v, j), sin));
            e.finite() && on_scale(e, arc.r)
        }),
        lane3(on_arc(arc, cos, sin), j).finite(),
    ensures
        ({
            let (along, across, both, out) = by;
            &&& is_times(along, lane3(arc.u, j), cos)
            &&& is_times(across, lane3(arc.v, j), sin)
            &&& is_sum(both, along, across)
            &&& is_times(out, both, arc.r)
            &&& is_sum(lane3(on_arc(arc, cos, sin), j), lane3(arc.c, j), out)
        }),
{
    let along = fmul(lane3(arc.u, j), cos);
    let across = fmul(lane3(arc.v, j), sin);
    let both = fadd(along, across);
    let out = fmul(both, arc.r);
    lemma_is_times(lane3(arc.u, j), cos);
    lemma_is_times(lane3(arc.v, j), sin);
    law_sum_is_near(along, across);
    lemma_is_times(both, arc.r);
    law_sum_is_near(lane3(arc.c, j), out);
    (along, across, both, out)
}

/// An angle on an arc is never negative.
pub proof fn law_angles_are_counted_on(
    p: Vec3,
    c: Vec3,
    u: Vec3,
    v: Vec3,
    g: spec_fn(Scalar, Scalar) -> Scalar,
)
    requires
        ({
            let y = g(vdot(vsub(p, c), v), vdot(vsub(p, c), u));
            y.finite() && fadd(y, Scalar { bits: TURN_BITS }).finite()
        }),
    ensures
        ({
            let y = g(vdot(vsub(p, c), v), vdot(vsub(p, c), u));
            let r = angle_at(p, c, u, v, g);
            &&& !flt(y, Scalar { bits: 0 }) ==> r == y
            &&& flt(y, Scalar { bits: 0 }) ==> is_sum(r, y, Scalar { bits: TURN_BITS })
        }),
{
    let y = g(vdot(vsub(p, c), v), vdot(vsub(p, c), u));
    if flt(y, Scalar { bits: 0 }) {
        law_sum_is_near(y, Scalar { bits: TURN_BITS });
    }
}

/// A length squares to the sum of the squares of all three numbers.
pub proof fn law_lengths_are_euclidean(a: Vec3) -> (by: (Scalar, Scalar, Scalar, Scalar, Scalar))
    requires
        on_scale(a.x, a.x) && on_scale(a.y, a.y) && on_scale(a.z, a.z),
        fadd(fmul(a.x, a.x), fmul(a.y, a.y)).finite(),
        vdot(a, a).finite(),
        flt(Scalar { bits: 0 }, vdot(a, a)),
    ensures
        ({
            let (xx, yy, zz, part, whole) = by;
            &&& is_times(xx, a.x, a.x) && is_times(yy, a.y, a.y) && is_times(zz, a.z, a.z)
            &&& is_sum(part, xx, yy) && is_sum(whole, part, zz)
            &&& close(size(whole) * unit(), size(vnorm(a)) * size(vnorm(a)), 1)
        }),
{
    let (xx, yy, zz) = (fmul(a.x, a.x), fmul(a.y, a.y), fmul(a.z, a.z));
    let part = fadd(xx, yy);
    let whole = fadd(part, zz);
    lemma_is_times(a.x, a.x);
    lemma_is_times(a.y, a.y);
    lemma_is_times(a.z, a.z);
    law_sum_is_near(xx, yy);
    law_sum_is_near(part, zz);
    law_root_is_near(whole);
    (xx, yy, zz, part, whole)
}

/// The velocities of a sampled path are how far its neighbours are apart, over how long it is
/// between them; it starts at rest, and ends there where it is asked to.
pub proof fn law_slopes_are_differences(
    rows: Seq<Seq<Scalar>>,
    dt: Scalar,
    rest_end: bool,
    k: int,
    i: int,
) -> (by: (Scalar, Scalar))
    requires
        0 <= k < rows.len(),
        dt.finite() && dt.mag() > 0,
        on_scale(Scalar { bits: TWO_BITS }, dt),
        fmul(Scalar { bits: TWO_BITS }, dt).mag() > 0,
        0 < k && k + 1 < rows.len() ==> rows[k + 1][i].finite() && rows[k - 1][i].finite() && fsub(
            rows[k + 1][i],
            rows[k - 1][i],
        ).finite(),
        0 < k && k + 1 == rows.len() ==> rows[k][i].finite() && rows[k - 1][i].finite() && fsub(
            rows[k][i],
            rows[k - 1][i],
        ).finite(),
        slope(rows, dt, rest_end, k, i).mag() + 1 < INF_MAG,
    ensures
        ({
            let (way, time) = by;
            let r = slope(rows, dt, rest_end, k, i);
            &&& k == 0 ==> r.mag() == 0
            &&& k + 1 == rows.len() && rest_end ==> r.mag() == 0
            &&& 0 < k && k + 1 == rows.len() && !rest_end ==> is_difference(
                way,
                rows[k][i],
                rows[k - 1][i],
            ) && is_quotient(r, way, dt)
            &&& 0 < k && k + 1 < rows.len() ==> is_difference(way, rows[k + 1][i], rows[k - 1][i])
                && is_times(time, Scalar { bits: TWO_BITS }, dt) && is_quotient(r, way, time)
        }),
{
    let time = fmul(Scalar { bits: TWO_BITS }, dt);
    lemma_is_times(Scalar { bits: TWO_BITS }, dt);
    if 0 < k && k + 1 < rows.len() {
        let way = fsub(rows[k + 1][i], rows[k - 1][i]);
        lemma_is_difference(rows[k + 1][i], rows[k - 1][i]);
        lemma_is_quotient(way, time);
        (way, time)
    } else if 0 < k {
        let way = fsub(rows[k][i], rows[k - 1][i]);
        lemma_is_difference(rows[k][i], rows[k - 1][i]);
        if !rest_end {
            lemma_is_quotient(way, dt);
        }
        (way, time)
    } else {
        (time, time)
    }
}

proof fn lemma_jump(a: Seq<Scalar>, b: Seq<Scalar>, n: nat) -> (at: int)
    requires
        forall|i: int|
            0 <= i < n ==> (#[trigger] a[i]).finite() && b[i].finite() && fsub(a[i], b[i]).finite(),
    ensures
        !jump_between(a, b, n).nan(),
        forall|i: int|
            0 <= i < n ==> fle(fabs(fsub(#[trigger] a[i], b[i])), jump_between(a, b, n)),
        n > 0 ==> jump_between(a, b, n).mag() == 0 || (0 <= at < n && jump_between(a, b, n) == fabs(
            fsub(a[at], b[at]),
        )),
    decreases n,
{
    if n == 0 {
        0
    } else {
        let before = lemma_jump(a, b, (n - 1) as nat);
        assert(a[n - 1].finite());
        if jump_between(a, b, n) == fabs(fsub(a[n - 1], b[n - 1])) {
            n - 1
        } else {
            before
        }
    }
}

/// How far two configurations are apart is how far the joint is that is farthest.
pub proof fn law_jumps_are_the_largest_change(a: Seq<Scalar>, b: Seq<Scalar>) -> (at: int)
    requires
        a.len() > 0,
        forall|i: int|
            0 <= i < a.len() ==> (#[trigger] a[i]).finite() && b[i].finite() && fsub(
                a[i],
                b[i],
            ).finite(),
    ensures
        forall|i: int|
            0 <= i < a.len() ==> fle(fabs(fsub(#[trigger] a[i], b[i])), jump_between(a, b, a.len())),
        jump_between(a, b, a.len()).mag() == 0 || (0 <= at < a.len() && jump_between(a, b, a.len())
            == fabs(fsub(a[at], b[at]))),
{
    lemma_jump(a, b, a.len())
}

proof fn lemma_worst_in(row: Seq<Scalar>, vmax: Seq<Scalar>, n: nat, init: Scalar)
    requires
        !init.nan(),
        forall|i: int| 0 <= i < n ==> !fdiv(fabs(#[trigger] row[i]), vmax[i]).nan(),
    ensures
        !worst_in(row, vmax, n, init).nan(),
        fle(init, worst_in(row, vmax, n, init)),
        forall|i: int|
            0 <= i < n ==> fle(fdiv(fabs(#[trigger] row[i]), vmax[i]), worst_in(row, vmax, n, init)),
    decreases n,
{
    if n > 0 {
        lemma_worst_in(row, vmax, (n - 1) as nat, init);
        assert(!fdiv(fabs(row[n - 1]), vmax[n - 1]).nan());
    }
}

/// The worst share of its limit that any joint uses is no smaller than that of each joint at
/// each sample.
pub proof fn law_worst_use_covers_every_joint(rows: Seq<Seq<Scalar>>, vmax: Seq<Scalar>, n: nat)
    requires
        forall|k: int, i: int|
            0 <= k < n && 0 <= i < rows[k].len() ==> !fdiv(fabs(#[trigger] rows[k][i]), vmax[i]).nan(),
    ensures
        !worst_of(rows, vmax, n).nan(),
        forall|k: int, i: int|
            0 <= k < n && 0 <= i < rows[k].len() ==> fle(
                fdiv(fabs(#[trigger] rows[k][i]), vmax[i]),
                worst_of(rows, vmax, n),
            ),
    decreases n,
{
    if n > 0 {
        law_worst_use_covers_every_joint(rows, vmax, (n - 1) as nat);
        assert forall|i: int| 0 <= i < rows[n - 1].len() implies !fdiv(
            fabs(#[trigger] rows[n - 1][i]),
            vmax[i],
        ).nan() by {}
        lemma_worst_in(
            rows[n - 1],
            vmax,
            rows[n - 1].len(),
            worst_of(rows, vmax, (n - 1) as nat),
        );
    }
}

} // verus!
