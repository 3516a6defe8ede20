//! What the columns of a Jacobian say of the motion of a frame.

use vstd::prelude::*;

#[allow(unused_imports)]
use crate::kinematics::jacobian::{carries, column_of, columns_of, with_followers};
#[allow(unused_imports)]
use crate::kinematics::singular::Twist;
#[allow(unused_imports)]
use crate::model::compile::{JointKind, MimicInfo};
#[allow(unused_imports)]
use crate::scalar::formula::{
    law_difference_of_products, law_multiply_add, lemma_scaled, off_by, on_scale,
};
#[allow(unused_imports)]
use crate::scalar::near::{size, unit};
#[allow(unused_imports)]
use crate::scalar::number::{fmul, fneg, fsub};
#[allow(unused_imports)]
use crate::scalar::order::{gap, law_sum_is_near, lemma_negated};
#[allow(unused_imports)]
use crate::scalar::vec3::{vadd, vcross, vscale, vsub};
#[allow(unused_imports)]
use crate::scalar::{Scalar, Vec3};

verus! {

/// The numbers of a cross product stay on the scale.
pub open spec fn cross_on_scale(a: Vec3, b: Vec3) -> bool {
    &&& on_scale(a.y, b.z) && on_scale(a.z, b.y) && on_scale(a.z, b.x)
    &&& on_scale(a.x, b.z) && on_scale(a.x, b.y) && on_scale(a.y, b.x)
    &&& vcross(a, b).x.finite() && vcross(a, b).y.finite() && vcross(a, b).z.finite()
}

/// One component of a velocity that a turn gives: `a * (p - q) - b * (r - s)`.
proof fn lemma_component(a: Scalar, p: Scalar, q: Scalar, b: Scalar, r: Scalar, s: Scalar)
    requires
        p.finite() && q.finite() && r.finite() && s.finite(),
        fsub(p, q).finite() && fsub(r, s).finite(),
        on_scale(a, fsub(p, q)) && on_scale(b, fsub(r, s)),
        fsub(fmul(a, fsub(p, q)), fmul(b, fsub(r, s))).finite(),
    ensures
        ({
            let (d, e) = (fsub(p, q), fsub(r, s));
            let c = fsub(fmul(a, d), fmul(b, e));
            off_by(
                c.units() * unit(),
                a.units() * (p.units() - q.units()) - b.units() * (r.units() - s.units()),
                (gap(c.mag()) + gap(fmul(a, d).mag()) + gap(fmul(b, e).mag())) * unit() + gap(d.mag())
                    * size(a) + gap(e.mag()) * size(b),
            )
        }),
{
    let (d, e) = (fsub(p, q), fsub(r, s));
    lemma_negated(q);
    lemma_negated(s);
    law_sum_is_near(p, fneg(q));
    law_sum_is_near(r, fneg(s));
    law_difference_of_products(a, d, b, e);
    let (au, bu, du, eu) = (a.units(), b.units(), d.units(), e.units());
    let (pq, rs) = (p.units() - q.units(), r.units() - s.units());
    lemma_scaled(du, pq, gap(d.mag()), au, size(a));
    lemma_scaled(eu, rs, gap(e.mag()), bu, size(b));
    assert(du * au == au * du && pq * au == au * pq && eu * bu == bu * eu && rs * bu == bu * rs)
        by (nonlinear_arith);
}

/// A joint that turns moves a frame at right angles to its axis, by how far the frame is from
/// it, and turns it about the axis; one that slides moves it along the axis and turns it not
/// at all: in exact numbers, up to the steps between those on the way.
pub proof fn law_columns_are_velocities(axis: Vec3, at: Vec3, tool: Vec3)
    requires
        at.x.finite() && at.y.finite() && at.z.finite(),
        tool.x.finite() && tool.y.finite() && tool.z.finite(),
        vsub(tool, at).x.finite() && vsub(tool, at).y.finite() && vsub(tool, at).z.finite(),
        cross_on_scale(axis, vsub(tool, at)),
    ensures
        column_of(JointKind::Revolute, axis, at, tool).ang == axis,
        column_of(JointKind::Prismatic, axis, at, tool).lin == axis,
        column_of(JointKind::Prismatic, axis, at, tool).ang.x.mag() == 0,
        column_of(JointKind::Prismatic, axis, at, tool).ang.y.mag() == 0,
        column_of(JointKind::Prismatic, axis, at, tool).ang.z.mag() == 0,
        ({
            let l = column_of(JointKind::Revolute, axis, at, tool).lin;
            let r = vsub(tool, at);
            let (x, y, z) = (
                tool.x.units() - at.x.units(),
                tool.y.units() - at.y.units(),
                tool.z.units() - at.z.units(),
            );
            &&& off_by(
                l.x.units() * unit(),
                axis.y.units() * z - axis.z.units() * y,
                (gap(l.x.mag()) + gap(fmul(axis.y, r.z).mag()) + gap(fmul(axis.z, r.y).mag()))
                    * unit() + gap(r.z.mag()) * size(axis.y) + gap(r.y.mag()) * size(axis.z),
            )
            &&& off_by(
                l.y.units() * unit(),
                axis.z.units() * x - axis.x.units() * z,
                (gap(l.y.mag()) + gap(fmul(axis.z, r.x).mag()) + gap(fmul(axis.x, r.z).mag()))
                    * unit() + gap(r.x.mag()) * size(axis.z) + gap(r.z.mag()) * size(axis.x),
            )
            &&& off_by(
                l.z.units() * unit(),
                axis.x.units() * y - axis.y.units() * x,
                (gap(l.z.mag()) + gap(fmul(axis.x, r.y).mag()) + gap(fmul(axis.y, r.x).mag()))
                    * unit() + gap(r.y.mag()) * size(axis.x) + gap(r.x.mag()) * size(axis.y),
            )
        }),
{
    lemma_component(axis.y, tool.z, at.z, axis.z, tool.y, at.y);
    lemma_component(axis.z, tool.x, at.x, axis.x, tool.z, at.z);
    lemma_component(axis.x, tool.y, at.y, axis.y, tool.x, at.x);
}

/// The parts of a Jacobian: every joint that carries the frame moves it, no other does.
pub proof fn law_only_carriers_move_the_frame(
    kind: Seq<JointKind>,
    parent: Seq<Option<usize>>,
    anchor: Option<usize>,
    axes: Seq<Vec3>,
    places: Seq<Vec3>,
    tool: Vec3,
    i: int,
)
    requires
        0 <= i < kind.len(),
    ensures
        ({
            let c = columns_of(kind, parent, anchor, axes, places, tool)[i];
            &&& !carries(parent, anchor, i) ==> c.lin.x.mag() == 0 && c.lin.y.mag() == 0
                && c.lin.z.mag() == 0 && c.ang.x.mag() == 0 && c.ang.y.mag() == 0 && c.ang.z.mag() == 0
            &&& carries(parent, anchor, i) ==> match kind[i] {
                JointKind::Revolute => c.ang == axes[i],
                JointKind::Prismatic => c.lin == axes[i],
            }
        }),
{
}

/// The column of a joint that one other follows is its own and the follower's, times the
/// multiplier: in exact numbers, up to the steps between those on the way.
pub proof fn law_followers_move_the_frame_too(
    columns: Seq<Twist>,
    mimic: Seq<Option<MimicInfo>>,
    d: int,
    f: int,
    n: nat,
)
    requires
        0 <= d < columns.len(),
        0 <= f < n <= columns.len(),
        n <= mimic.len(),
        mimic[f] matches Some(m) && m.source == d,
        forall|k: int|
            0 <= k < n && k != f ==> !(#[trigger] mimic[k] matches Some(m) && m.source == d),
        columns[d].lin.x.finite() && columns[d].ang.x.finite(),
        on_scale(columns[f].lin.x, mimic[f]->0.multiplier),
        on_scale(columns[f].ang.x, mimic[f]->0.multiplier),
        with_followers(columns, mimic, d, n).lin.x.finite(),
        with_followers(columns, mimic, d, n).ang.x.finite(),
    ensures
        ({
            let m = mimic[f]->0.multiplier;
            let c = with_followers(columns, mimic, d, n);
            &&& off_by(
                c.lin.x.units() * unit(),
                columns[d].lin.x.units() * unit() + columns[f].lin.x.units() * m.units(),
                (gap(c.lin.x.mag()) + gap(fmul(columns[f].lin.x, m).mag())) * unit(),
            )
            &&& off_by(
                c.ang.x.units() * unit(),
                columns[d].ang.x.units() * unit() + columns[f].ang.x.units() * m.units(),
                (gap(c.ang.x.mag()) + gap(fmul(columns[f].ang.x, m).mag())) * unit(),
            )
        }),
{
    lemma_one_follower(columns, mimic, d, f, n);
    let m = mimic[f]->0.multiplier;
    law_multiply_add(columns[d].lin.x, columns[f].lin.x, m);
    law_multiply_add(columns[d].ang.x, columns[f].ang.x, m);
}

proof fn lemma_no_follower(columns: Seq<Twist>, mimic: Seq<Option<MimicInfo>>, d: int, n: nat)
    requires
        n <= mimic.len(),
        forall|k: int| 0 <= k < n ==> !(#[trigger] mimic[k] matches Some(m) && m.source == d),
    ensures
        with_followers(columns, mimic, d, n) == columns[d],
    decreases n,
{
    if n > 0 {
        lemma_no_follower(columns, mimic, d, (n - 1) as nat);
        assert(!(mimic[n - 1] matches Some(m) && m.source == d));
    }
}

proof fn lemma_one_follower(
    columns: Seq<Twist>,
    mimic: Seq<Option<MimicInfo>>,
    d: int,
    f: int,
    n: nat,
)
    requires
        0 <= f < n <= mimic.len(),
        mimic[f] matches Some(m) && m.source == d,
        forall|k: int|
            0 <= k < n && k != f ==> !(#[trigger] mimic[k] matches Some(m) && m.source == d),
    ensures
        ({
            let m = mimic[f]->0.multiplier;
            with_followers(columns, mimic, d, n) == (Twist {
                lin: vadd(columns[d].lin, vscale(columns[f].lin, m)),
                ang: vadd(columns[d].ang, vscale(columns[f].ang, m)),
            })
        }),
    decreases n,
{
    if f == n - 1 {
        lemma_no_follower(columns, mimic, d, (n - 1) as nat);
    } else {
        lemma_one_follower(columns, mimic, d, f, (n - 1) as nat);
        assert(!(mimic[n - 1] matches Some(m) && m.source == d));
    }
}

} // verus!
