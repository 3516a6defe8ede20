//! How joints that follow others follow them, and where a gripper goes.

use vstd::prelude::*;

#[allow(unused_imports)]
use crate::model::compile::MimicInfo;
#[allow(unused_imports)]
use crate::model::config::{clamped, expanded, rank};
#[allow(unused_imports)]
use crate::model::gripper::{targets, GRIPPER_TARGET_INSET_BITS};
#[allow(unused_imports)]
use crate::scalar::formula::{law_multiply_then_add, lemma_scaled, off_by, on_scale};
#[allow(unused_imports)]
use crate::scalar::near::{close, law_product_is_off_by_a_step, size, unit};
#[allow(unused_imports)]
use crate::scalar::number::{fle, flt, fmul, fneg, fsub};
#[allow(unused_imports)]
use crate::scalar::order::{gap, law_sum_is_near, lemma_gap_positive, lemma_negated};
#[allow(unused_imports)]
use crate::scalar::Scalar;
#[allow(unused_imports)]
use vstd::arithmetic::power2::pow2;

verus! {

/// A joint that follows another is where the multiplier and the offset put it, in exact
/// numbers and up to the steps between the numbers on the way; one that follows none is where
/// it was told to be.
pub proof fn law_followers_follow(mimic: Seq<Option<MimicInfo>>, q: Seq<Scalar>, i: int)
    requires
        0 <= i < mimic.len(),
    ensures
        match mimic[i] {
            None => expanded(mimic, q)[i] == q[rank(mimic, i as nat) as int],
            Some(m) => {
                let s = q[rank(mimic, m.source as nat) as int];
                let r = expanded(mimic, q)[i];
                m.offset.finite() && on_scale(m.multiplier, s) && r.finite() ==> off_by(
                    r.units() * unit(),
                    m.multiplier.units() * s.units() + m.offset.units() * unit(),
                    (gap(r.mag()) + gap(fmul(m.multiplier, s).mag())) * unit(),
                )
            },
        },
{
    match mimic[i] {
        None => {},
        Some(m) => {
            let s = q[rank(mimic, m.source as nat) as int];
            if m.offset.finite() && on_scale(m.multiplier, s) && expanded(mimic, q)[i].finite() {
                law_multiply_then_add(m.multiplier, s, m.offset);
            }
        },
    }
}

/// A configuration that is clamped keeps every limit, and what keeps its limit is not moved.
pub proof fn law_clamped_configurations_keep_limits(
    limits: Seq<Option<(Scalar, Scalar)>>,
    q: Seq<Scalar>,
    i: int,
)
    requires
        0 <= i < q.len(),
        !q[i].nan(),
    ensures
        i < limits.len() ==> match limits[i] {
            Some((lo, hi)) => fle(lo, hi) ==> {
                &&& fle(lo, clamped(limits, q)[i]) && fle(clamped(limits, q)[i], hi)
                &&& fle(lo, q[i]) && fle(q[i], hi) ==> clamped(limits, q)[i] == q[i]
                &&& flt(q[i], lo) ==> clamped(limits, q)[i] == lo
                &&& flt(hi, q[i]) ==> clamped(limits, q)[i] == hi
            },
            None => clamped(limits, q)[i] == q[i],
        },
{
}

/// What is open where the gripper closes at its lower limit is closed where it closes at its
/// upper one, and the other way round.
pub proof fn law_grippers_open_and_close_opposite(
    limits: Seq<Option<(Scalar, Scalar)>>,
    joint: int,
)
    ensures
        match (targets(limits, joint, true), targets(limits, joint, false)) {
            (Some((open, closed)), Some((open2, closed2))) => open == closed2 && closed == open2,
            (None, None) => true,
            _ => false,
        },
{
}

/// The part of its range that a gripper keeps from its limits is a fiftieth.
proof fn lemma_a_fiftieth()
    ensures
        close(50 * size(Scalar { bits: GRIPPER_TARGET_INSET_BITS }), unit(), 1),
{
    let k: nat = 0x10_0000_0000_0000;
    let m = GRIPPER_TARGET_INSET_BITS as nat;
    let w = pow2(1016) as int;
    vstd::arithmetic::power2::lemma2_to64();
    vstd::arithmetic::power2::lemma2_to64_rest();
    vstd::arithmetic::power2::lemma_pow2_adds(58, 1016);
    vstd::arithmetic::power2::lemma_pow2_pos(1016);
    assert(m / k == 1017 && m % k == 0x4_7AE1_47AE_147B);
    let f: int = 0x14_7AE1_47AE_147B;
    assert(size(Scalar { bits: GRIPPER_TARGET_INSET_BITS }) == f * w);
    let b: int = 0x1_0000_0000_0000;
    assert(unit() == 0x400_0000_0000_0000 * w);
    assert(50 * (f * w) == (50 * f) * w) by (nonlinear_arith);
    assert(-(0x400_0000_0000_0000 * w) <= ((50 * f) * w - 0x400_0000_0000_0000 * w) * b
        <= 0x400_0000_0000_0000 * w) by (nonlinear_arith)
        requires
            w > 0,
            f == 0x14_7AE1_47AE_147B,
            b == 0x1_0000_0000_0000,
    ;
}

/// A gripper that closes at its lower limit closes a fiftieth of its range above it, and opens
/// as much below its upper limit: in exact numbers, up to the steps between those on the way.
pub proof fn law_gripper_targets_keep_from_the_limits(
    limits: Seq<Option<(Scalar, Scalar)>>,
    joint: int,
    lo: Scalar,
    hi: Scalar,
)
    requires
        0 <= joint < limits.len(),
        limits[joint] == Some((lo, hi)),
        lo.finite() && hi.finite() && flt(lo, hi) && fsub(hi, lo).finite(),
        on_scale(Scalar { bits: GRIPPER_TARGET_INSET_BITS }, fsub(hi, lo)),
        targets(limits, joint, true) matches Some((open, closed)) && open.finite() && closed.finite(),
    ensures
        ({
            let c = Scalar { bits: GRIPPER_TARGET_INSET_BITS };
            let d = fsub(hi, lo);
            let (open, closed) = targets(limits, joint, true)->0;
            let part = size(c) * (hi.units() - lo.units());
            let off = (gap(open.mag()) + gap(closed.mag()) + gap(fmul(c, d).mag())) * unit() + gap(
                d.mag(),
            ) * size(c);
            &&& off_by(closed.units() * unit(), lo.units() * unit() + part, off)
            &&& off_by(open.units() * unit(), hi.units() * unit() - part, off)
            &&& close(50 * size(c), unit(), 1)
        }),
{
    let c = Scalar { bits: GRIPPER_TARGET_INSET_BITS };
    let d = fsub(hi, lo);
    let p = fmul(c, d);
    let (open, closed) = targets(limits, joint, true)->0;
    lemma_a_fiftieth();
    vstd::arithmetic::power2::lemma_pow2_pos(1074);
    let u = unit();
    lemma_negated(lo);
    law_sum_is_near(hi, fneg(lo));
    law_product_is_off_by_a_step(c, d);
    law_sum_is_near(lo, p);
    lemma_negated(p);
    law_sum_is_near(hi, fneg(p));
    lemma_gap_positive(open);
    lemma_gap_positive(closed);
    lemma_scaled(d.units(), hi.units() - lo.units(), gap(d.mag()), size(c), size(c));
    let (du, hl, cu) = (d.units(), hi.units() - lo.units(), size(c));
    assert(du * cu == cu * du && hl * cu == cu * hl) by (nonlinear_arith);
    let (ou, ku, pu, lu, hu) = (open.units(), closed.units(), p.units(), lo.units(), hi.units());
    let (go, gk, gp) = (gap(open.mag()), gap(closed.mag()), gap(p.mag()));
    assert(-(gk * u) <= ku * u - (lu * u + pu * u) <= gk * u) by (nonlinear_arith)
        requires
            -gk < ku - (lu + pu) < gk,
            u > 0,
    ;
    assert(-(go * u) <= ou * u - (hu * u - pu * u) <= go * u) by (nonlinear_arith)
        requires
            -go < ou - (hu - pu) < go,
            u > 0,
    ;
    assert((go + gk + gp) * u == go * u + gk * u + gp * u && go * u > 0 && gk * u > 0) by (nonlinear_arith)
        requires
            go > 0,
            gk > 0,
            u > 0,
    ;
}

} // verus!
