//! What a model takes over from what describes the robot.

use vstd::prelude::*;

#[allow(unused_imports)]
use crate::model::mesh::scaled_points;
#[allow(unused_imports)]
use crate::model::shape::ShapeV;
#[allow(unused_imports)]
use crate::model::tree::{collision_shape, joint_matches, mimic_matches, EditJoint, RawMimic};
#[allow(unused_imports)]
use crate::model::urdf::{UrdfGeometry, UrdfJoint, UrdfMimic};
#[allow(unused_imports)]
use crate::scalar::consts::{ONE_BITS, TWO_BITS};
#[allow(unused_imports)]
use crate::scalar::formula::{is_quotient, is_times, lemma_is_quotient, lemma_is_times, on_scale};
#[allow(unused_imports)]
use crate::scalar::near::unit;
#[allow(unused_imports)]
use crate::scalar::number::{fdiv, flt, mag_units};
#[allow(unused_imports)]
use crate::scalar::rounding::INF_MAG;
#[allow(unused_imports)]
use crate::scalar::vec3::Vec3;
#[allow(unused_imports)]
use crate::scalar::Scalar;

verus! {

/// A joint that can turn or slide keeps its limits just where the lower one is below the upper
/// one; one that turns on and on, or is fixed, has none.
pub proof fn law_limits_are_taken_over_in_order(names: Seq<Seq<char>>, j: EditJoint, u: UrdfJoint)
    requires
        joint_matches(names, j, u),
    ensures
        u.joint_type is Revolute || u.joint_type is Prismatic ==> (j.limits is Some <==> flt(
            u.lower,
            u.upper,
        )),
        match j.limits {
            Some((lo, hi)) => lo == u.lower && hi == u.upper && flt(lo, hi),
            None => true,
        },
        u.joint_type is Continuous || u.joint_type is Fixed ==> j.limits is None,
{
}

/// A joint is limited in speed and effort just by what is positive.
pub proof fn law_only_positive_limits_hold(names: Seq<Seq<char>>, j: EditJoint, u: UrdfJoint)
    requires
        joint_matches(names, j, u),
    ensures
        j.vel is Some <==> flt(Scalar { bits: 0 }, u.velocity),
        j.effort is Some <==> flt(Scalar { bits: 0 }, u.effort),
        j.vel is Some ==> j.vel->0 == u.velocity,
        j.effort is Some ==> j.effort->0 == u.effort,
{
}

/// A joint that follows another does so one for one and without an offset where nothing else
/// is said.
pub proof fn law_plain_followers_copy(m: RawMimic, u: UrdfMimic)
    requires
        mimic_matches(Some(m), Some(u)),
    ensures
        u.multiplier is None ==> m.multiplier.units() == unit(),
        u.offset is None ==> m.offset.units() == 0,
        u.multiplier is Some ==> m.multiplier == u.multiplier->0,
        u.offset is Some ==> m.offset == u.offset->0,
{
    vstd::arithmetic::power2::lemma2_to64();
    vstd::arithmetic::power2::lemma2_to64_rest();
    vstd::arithmetic::power2::lemma_pow2_adds(52, 1022);
    assert(mag_units(ONE_BITS as nat) == unit());
    assert(mag_units(0) == 0);
}

/// A box reaches half of its size to either side.
pub proof fn law_boxes_reach_half_their_size(size: Vec3)
    requires
        size.x.finite() && size.y.finite() && size.z.finite(),
        fdiv(size.x, Scalar { bits: TWO_BITS }).mag() + 1 < INF_MAG,
        fdiv(size.y, Scalar { bits: TWO_BITS }).mag() + 1 < INF_MAG,
        fdiv(size.z, Scalar { bits: TWO_BITS }).mag() + 1 < INF_MAG,
    ensures
        match collision_shape(UrdfGeometry::Box { size }) {
            Some(ShapeV::Box { half }) => is_quotient(half.x, size.x, Scalar { bits: TWO_BITS })
                && is_quotient(half.y, size.y, Scalar { bits: TWO_BITS }) && is_quotient(
                half.z,
                size.z,
                Scalar { bits: TWO_BITS },
            ),
            _ => false,
        },
{
    let two = Scalar { bits: TWO_BITS };
    lemma_is_quotient(size.x, two);
    lemma_is_quotient(size.y, two);
    lemma_is_quotient(size.z, two);
}

/// The points of a mesh are scaled along each axis by the scale of that axis.
pub proof fn law_meshes_are_scaled_along_each_axis(p: Seq<Vec3>, s: Vec3, i: int)
    requires
        0 <= i < p.len(),
        on_scale(p[i].x, s.x) && on_scale(p[i].y, s.y) && on_scale(p[i].z, s.z),
    ensures
        ({
            let r = scaled_points(p, Some(s));
            &&& r.len() == p.len()
            &&& is_times(r[i].x, p[i].x, s.x) && is_times(r[i].y, p[i].y, s.y) && is_times(
                r[i].z,
                p[i].z,
                s.z,
            )
        }),
        scaled_points(p, None) == p,
{
    lemma_is_times(p[i].x, s.x);
    lemma_is_times(p[i].y, s.y);
    lemma_is_times(p[i].z, s.z);
}

} // verus!
