//! What the metrics of a path mean, and what its findings are found for.

use vstd::prelude::*;

#[allow(unused_imports)]
use crate::kinematics::lint::{
    corridor_end, corridors, findings, joint_finding, joint_findings, lemma_corridor_end, sharpest,
    singular_at, travelled, CaseV, Check, Finding,
};
#[allow(unused_imports)]
use crate::kinematics::report::{
    margin, margin_min, report_matches, utilization_max, PathReport, PathV,
};
#[allow(unused_imports)]
use crate::scalar::consts::ONE_BITS;
#[allow(unused_imports)]
use crate::scalar::near::{close, law_quotient_is_near, size, unit};
#[allow(unused_imports)]
use crate::scalar::number::{fabs, fadd, fdiv, fle, flt, fmul, fsub, lemma_round_exact, mag_units};
#[allow(unused_imports)]
use crate::scalar::order::{
    law_adding_does_not_shrink, law_quotients_keep_order, lemma_absolute, lemma_difference,
    lemma_key_units, lemma_no_sum_key, lemma_nothing_over, lemma_over_itself, lemma_round_monotone,
    lemma_times_nothing, lemma_units_monotone, lemma_units_positive, ordinary, sum_key,
};
#[allow(unused_imports)]
use crate::scalar::Scalar;
#[allow(unused_imports)]
use vstd::arithmetic::power2::pow2;

verus! {

/// A difference is negative just where the first number is the smaller.
pub proof fn lemma_sign_of_difference(a: Scalar, b: Scalar)
    requires
        a.finite() && b.finite(),
    ensures
        !fsub(a, b).nan(),
        flt(fsub(a, b), Scalar { bits: 0 }) == flt(a, b),
{
    lemma_difference(a, b);
    let s = a.units() - b.units();
    if a.key() >= b.key() {
        lemma_key_units(b, a);
        assert(sum_key(s) >= 0);
    } else {
        lemma_key_units(a, b);
        if s == 0 {
            lemma_round_exact(a.mag());
            lemma_round_exact(b.mag());
            assert(mag_units(0) == 0);
            if a.mag() > 0 {
                lemma_units_positive(a.mag());
            }
            if b.mag() > 0 {
                lemma_units_positive(b.mag());
            }
        } else {
            lemma_round_exact(1);
            assert(mag_units(1) == 1);
            lemma_round_monotone(1, (-s) as nat, 1);
            assert(sum_key(s) < 0);
        }
    }
}

/// The samples of a joint are numbers, and so are their distances to its limits.
pub open spec fn samples_are_finite(
    q: Seq<Seq<Scalar>>,
    lo: Scalar,
    hi: Scalar,
    i: int,
    n: nat,
) -> bool {
    &&& lo.finite() && hi.finite()
    &&& forall|k: int|
        0 <= k < n ==> (#[trigger] q[k])[i].finite() && fsub(q[k][i], lo).finite() && fsub(
            hi,
            q[k][i],
        ).finite()
}

/// The least margin is no larger than the distance of any sample to either limit, and is one
/// of these distances.
pub proof fn lemma_least_margin(q: Seq<Seq<Scalar>>, lo: Scalar, hi: Scalar, i: int, n: nat) -> (at: int)
    requires
        samples_are_finite(q, lo, hi, i, n),
    ensures
        ({
            let m = margin_min(q, Some((lo, hi)), i, n);
            &&& !m.nan()
            &&& forall|k: int|
                0 <= k < n ==> fle(m, fsub(#[trigger] q[k][i], lo)) && fle(m, fsub(hi, q[k][i]))
            &&& n > 0 ==> 0 <= at < n && (m == fsub(q[at][i], lo) || m == fsub(hi, q[at][i]))
        }),
    decreases n,
{
    if n == 0 {
        0
    } else {
        let before = lemma_least_margin(q, lo, hi, i, (n - 1) as nat);
        let m0 = margin_min(q, Some((lo, hi)), i, (n - 1) as nat);
        let m = margin_min(q, Some((lo, hi)), i, n);
        assert(q[n - 1][i].finite());
        let (x, y) = (fsub(q[n - 1][i], lo), fsub(hi, q[n - 1][i]));
        assert(fle(m, x) && fle(m, y) && fle(m, m0));
        if m == m0 && n > 1 {
            before
        } else {
            n - 1
        }
    }
}

/// The reported margin of a joint with limits is the least distance of any of its samples to
/// either limit.
pub proof fn law_margin_is_the_least_distance(
    r: PathReport,
    p: PathV,
    n: nat,
    limits: Seq<Option<(Scalar, Scalar)>>,
    vmax: Seq<Scalar>,
    amax: Seq<Scalar>,
    i: int,
    lo: Scalar,
    hi: Scalar,
) -> (at: int)
    requires
        report_matches(r, p, n, limits, vmax, amax),
        0 <= i < n,
        limits[i] == Some((lo, hi)),
        p.times.len() > 0,
        samples_are_finite(p.q, lo, hi, i, p.times.len()),
    ensures
        forall|k: int|
            0 <= k < p.times.len() ==> fle(r.limit_margin@[i], fsub(#[trigger] p.q[k][i], lo)) && fle(
                r.limit_margin@[i],
                fsub(hi, p.q[k][i]),
            ),
        0 <= at < p.times.len(),
        r.limit_margin@[i] == fsub(p.q[at][i], lo) || r.limit_margin@[i] == fsub(hi, p.q[at][i]),
{
    lemma_least_margin(p.q, lo, hi, i, p.times.len())
}

/// Some finding on joint `i` is of a kind.
pub open spec fn flagged(c: CaseV, check: Check, i: int) -> bool {
    exists|f: Finding| #[trigger]
        findings(c).contains(f) && f.joint == Some(i as usize) && match check {
            Check::Position => f.detail is Position,
            Check::Velocity => f.detail is Velocity,
            Check::Acceleration => f.detail is Acceleration,
            Check::Dwell => f.detail is Dwell,
            Check::Detour => f.detail is Detour,
            Check::Jerk => f.detail is Jerk,
        }
}

proof fn lemma_joint_findings(c: CaseV, check: Check, n: nat, f: Finding)
    ensures
        joint_findings(c, check, n).contains(f) ==> exists|i: int|
            0 <= i < n && #[trigger] joint_finding(c, check, i) == Some(f),
        (exists|i: int| 0 <= i < n && #[trigger] joint_finding(c, check, i) == Some(f))
            ==> joint_findings(c, check, n).contains(f),
    decreases n,
{
    if n > 0 {
        let m = (n - 1) as nat;
        lemma_joint_findings(c, check, m, f);
        let head = joint_findings(c, check, m);
        let all = joint_findings(c, check, n);
        if all.contains(f) {
            let k = choose|k: int| 0 <= k < all.len() && all[k] == f;
            if k < head.len() {
                assert(head[k] == f);
                assert(head.contains(f));
                let i = choose|i: int| 0 <= i < m && #[trigger] joint_finding(c, check, i) == Some(f);
                assert(0 <= i < n && joint_finding(c, check, i) == Some(f));
            } else {
                assert(joint_finding(c, check, n - 1) == Some(f));
            }
        }
        if exists|i: int| 0 <= i < n && #[trigger] joint_finding(c, check, i) == Some(f) {
            let i = choose|i: int| 0 <= i < n && #[trigger] joint_finding(c, check, i) == Some(f);
            if i < m {
                assert(head.contains(f));
                let k = choose|k: int| 0 <= k < head.len() && head[k] == f;
                assert(all[k] == f);
            } else {
                assert(all[head.len() as int] == f);
            }
        }
    }
}

proof fn lemma_corridors_are_corridors(c: CaseV, k: int)
    requires
        0 <= k,
    ensures
        forall|i: int|
            0 <= i < corridors(c, k).len() ==> (#[trigger] corridors(c, k)[i]).detail is Corridor,
    decreases c.p.times.len() - k,
{
    if k < c.p.times.len() {
        lemma_corridor_end(c, k);
        if singular_at(c, k) {
            lemma_corridors_are_corridors(c, corridor_end(c, k));
        } else {
            lemma_corridors_are_corridors(c, k + 1);
        }
    }
}

/// A joint is flagged just where its check finds something.
pub proof fn lemma_flagged(c: CaseV, check: Check, i: int)
    requires
        0 <= i < c.n,
        c.n <= usize::MAX,
        c.p.times.len() > 0,
    ensures
        flagged(c, check, i) == (joint_finding(c, check, i) is Some),
{
    let a = joint_findings(c, Check::Position, c.n);
    let b = joint_findings(c, Check::Velocity, c.n);
    let d = joint_findings(c, Check::Acceleration, c.n);
    let e = joint_findings(c, Check::Dwell, c.n);
    let g = joint_findings(c, Check::Detour, c.n);
    let h = joint_findings(c, Check::Jerk, c.n);
    let z = corridors(c, 0);
    let all = findings(c);
    let (n1, n2) = (a.len() as int, (a + b).len() as int);
    let (n3, n4) = ((a + b + d).len() as int, (a + b + d + e).len() as int);
    let (n5, n6) = ((a + b + d + e + g).len() as int, (a + b + d + e + g + h).len() as int);
    lemma_corridors_are_corridors(c, 0);
    if flagged(c, check, i) {
        let f = choose|f: Finding| #[trigger]
            findings(c).contains(f) && f.joint == Some(i as usize) && match check {
                Check::Position => f.detail is Position,
                Check::Velocity => f.detail is Velocity,
                Check::Acceleration => f.detail is Acceleration,
                Check::Dwell => f.detail is Dwell,
                Check::Detour => f.detail is Detour,
                Check::Jerk => f.detail is Jerk,
            };
        let k = choose|k: int| 0 <= k < all.len() && all[k] == f;
        lemma_joint_findings(c, Check::Position, c.n, f);
        lemma_joint_findings(c, Check::Velocity, c.n, f);
        lemma_joint_findings(c, Check::Acceleration, c.n, f);
        lemma_joint_findings(c, Check::Dwell, c.n, f);
        lemma_joint_findings(c, Check::Detour, c.n, f);
        lemma_joint_findings(c, Check::Jerk, c.n, f);
        let which = if k < n1 {
            assert(a[k] == f);
            Check::Position
        } else if k < n2 {
            assert(b[k - n1] == f);
            Check::Velocity
        } else if k < n3 {
            assert(d[k - n2] == f);
            Check::Acceleration
        } else if k < n4 {
            assert(e[k - n3] == f);
            Check::Dwell
        } else if k < n5 {
            assert(g[k - n4] == f);
            Check::Detour
        } else {
            if k >= n6 {
                assert(z[k - n6] == f);
            }
            assert(h[k - n5] == f);
            Check::Jerk
        };
        let j = choose|j: int| 0 <= j < c.n && #[trigger] joint_finding(c, which, j) == Some(f);
        assert(which == check);
        assert(j == i);
    }
    if joint_finding(c, check, i) is Some {
        let f = joint_finding(c, check, i)->0;
        lemma_joint_findings(c, check, c.n, f);
        let part = joint_findings(c, check, c.n);
        assert(part.contains(f));
        let k = choose|k: int| 0 <= k < part.len() && part[k] == f;
        let at = match check {
            Check::Position => k,
            Check::Velocity => n1 + k,
            Check::Acceleration => n2 + k,
            Check::Dwell => n3 + k,
            Check::Detour => n4 + k,
            Check::Jerk => n5 + k,
        };
        assert(all[at] == f);
        assert(all.contains(f));
    }
}

/// A joint is flagged for its position just where some sample is below its lower limit or
/// above its upper one.
pub proof fn law_positions_outside_are_found(c: CaseV, i: int, lo: Scalar, hi: Scalar)
    requires
        0 <= i < c.n,
        c.n <= usize::MAX,
        c.p.times.len() > 0,
        c.limits[i] == Some((lo, hi)),
        samples_are_finite(c.p.q, lo, hi, i, c.p.times.len()),
    ensures
        flagged(c, Check::Position, i) == exists|k: int|
            0 <= k < c.p.times.len() && (flt(#[trigger] c.p.q[k][i], lo) || flt(hi, c.p.q[k][i])),
{
    let n = c.p.times.len();
    let q = c.p.q;
    lemma_flagged(c, Check::Position, i);
    let at = lemma_least_margin(q, lo, hi, i, n);
    let m = margin_min(q, Some((lo, hi)), i, n);
    assert(q[at][i].finite());
    lemma_sign_of_difference(q[at][i], lo);
    lemma_sign_of_difference(hi, q[at][i]);
    if exists|k: int| 0 <= k < n && (flt(#[trigger] q[k][i], lo) || flt(hi, q[k][i])) {
        let k = choose|k: int| 0 <= k < n && (flt(#[trigger] q[k][i], lo) || flt(hi, q[k][i]));
        assert(q[k][i].finite());
        lemma_sign_of_difference(q[k][i], lo);
        lemma_sign_of_difference(hi, q[k][i]);
        assert(fle(m, fsub(q[k][i], lo)) && fle(m, fsub(hi, q[k][i])));
    }
}

/// A joint without limits is never outside them.
pub proof fn law_unlimited_joints_are_not_outside(c: CaseV, i: int)
    requires
        0 <= i < c.n,
        c.n <= usize::MAX,
        c.p.times.len() > 0,
        c.limits[i] is None,
    ensures
        !flagged(c, Check::Position, i),
{
    lemma_flagged(c, Check::Position, i);
}

/// The most that any sample uses of a limit.
proof fn lemma_most_used(x: Seq<Seq<Scalar>>, lim: Scalar, i: int, n: nat) -> (at: int)
    requires
        proper_limit(lim),
        forall|k: int| 0 <= k < n ==> (#[trigger] x[k])[i].finite(),
    ensures
        ({
            let m = utilization_max(x, lim, i, n);
            &&& !m.nan() && fle(Scalar { bits: 0 }, m)
            &&& forall|k: int|
                0 <= k < n ==> fle(fdiv(fabs(#[trigger] x[k][i]), lim), m)
            &&& (n == 0 && m == (Scalar { bits: 0 })) || m == (Scalar { bits: 0 }) || (0 <= at < n && m
                == fdiv(fabs(x[at][i]), lim))
        }),
    decreases n,
{
    if n == 0 {
        0
    } else {
        let before = lemma_most_used(x, lim, i, (n - 1) as nat);
        let m0 = utilization_max(x, lim, i, (n - 1) as nat);
        let m = utilization_max(x, lim, i, n);
        assert(x[n - 1][i].finite());
        let y = fabs(x[n - 1][i]);
        lemma_absolute(x[n - 1][i]);
        law_quotients_keep_order(y, y, lim);
        if m == m0 {
            before
        } else {
            n - 1
        }
    }
}

/// A limit that is a positive number.
pub open spec fn proper_limit(lim: Scalar) -> bool {
    lim.finite() && flt(Scalar { bits: 0 }, lim)
}

/// A joint that keeps its limit at every sample does not use more than one of it.
proof fn lemma_within_limit(x: Seq<Seq<Scalar>>, lim: Scalar, i: int, n: nat)
    requires
        proper_limit(lim),
        forall|k: int|
            0 <= k < n ==> (#[trigger] x[k])[i].finite() && fle(fabs(x[k][i]), lim),
    ensures
        fle(utilization_max(x, lim, i, n), Scalar { bits: ONE_BITS }),
{
    let at = lemma_most_used(x, lim, i, n);
    if 0 <= at < n {
        assert(fle(fabs(x[at][i]), lim));
        lemma_absolute(x[at][i]);
        law_quotients_keep_order(fabs(x[at][i]), lim, lim);
        lemma_over_itself(lim);
    }
}

/// A joint that is over its limit by more than the tolerance at a sample, and by more than
/// rounding, uses more of it than is tolerated.
proof fn lemma_over_limit(x: Seq<Seq<Scalar>>, lim: Scalar, top: Scalar, i: int, n: nat, k: int)
    requires
        proper_limit(lim),
        0 <= k < n,
        forall|j: int| 0 <= j < n ==> (#[trigger] x[j])[i].finite(),
        top.finite() && !top.negative(),
        ordinary(fdiv(fabs(x[k][i]), lim)),
        size(x[k][i]) * unit() * 0x1_0000_0000_0000 > size(lim) * size(top) * 0x1_0000_0000_0001,
    ensures
        flt(top, utilization_max(x, lim, i, n)),
{
    lemma_most_used(x, lim, i, n);
    let y = x[k][i];
    assert(y.finite());
    lemma_absolute(y);
    let q = fdiv(fabs(y), lim);
    law_quotient_is_near(fabs(y), lim);
    assert(fle(fdiv(fabs(x[k][i]), lim), utilization_max(x, lim, i, n)));
    if q.key() <= top.key() {
        lemma_units_monotone(q.mag(), top.mag());
        let (l, qu, tu) = (size(lim), size(q), size(top));
        assert(qu * l <= l * tu && 0 <= l * tu) by (nonlinear_arith)
            requires
                0 <= qu <= tu,
                l >= 0,
        ;
    }
}

/// A joint is not flagged for its velocity where it keeps its limit at every sample.
pub proof fn law_velocities_within_are_not_found(c: CaseV, i: int)
    requires
        0 <= i < c.n,
        c.n <= usize::MAX,
        c.p.times.len() > 0,
        proper_limit(c.vmax[i]),
        fle(Scalar { bits: ONE_BITS }, fadd(Scalar { bits: ONE_BITS }, c.o.utilization_tol)),
        forall|k: int|
            0 <= k < c.p.times.len() ==> (#[trigger] c.p.qd[k])[i].finite() && fle(
                fabs(c.p.qd[k][i]),
                c.vmax[i],
            ),
    ensures
        !flagged(c, Check::Velocity, i),
{
    lemma_flagged(c, Check::Velocity, i);
    lemma_within_limit(c.p.qd, c.vmax[i], i, c.p.times.len());
}

/// It is where some sample is over by more than the tolerance, and by more than rounding.
pub proof fn law_velocities_over_are_found(c: CaseV, i: int, k: int)
    requires
        0 <= i < c.n,
        c.n <= usize::MAX,
        0 <= k < c.p.times.len(),
        proper_limit(c.vmax[i]),
        forall|j: int| 0 <= j < c.p.times.len() ==> (#[trigger] c.p.qd[j])[i].finite(),
        ordinary(fdiv(fabs(c.p.qd[k][i]), c.vmax[i])),
        ({
            let top = fadd(Scalar { bits: ONE_BITS }, c.o.utilization_tol);
            &&& top.finite() && !top.negative()
            &&& size(c.p.qd[k][i]) * unit() * 0x1_0000_0000_0000 > size(c.vmax[i]) * size(top)
                * 0x1_0000_0000_0001
        }),
    ensures
        flagged(c, Check::Velocity, i),
{
    lemma_flagged(c, Check::Velocity, i);
    lemma_over_limit(
        c.p.qd,
        c.vmax[i],
        fadd(Scalar { bits: ONE_BITS }, c.o.utilization_tol),
        i,
        c.p.times.len(),
        k,
    );
}

/// A joint is not flagged for its acceleration where it keeps its limit at every sample.
pub proof fn law_accelerations_within_are_not_found(c: CaseV, i: int)
    requires
        0 <= i < c.n,
        c.n <= usize::MAX,
        c.p.times.len() > 0,
        proper_limit(c.amax[i]),
        fle(Scalar { bits: ONE_BITS }, fadd(Scalar { bits: ONE_BITS }, c.o.utilization_tol)),
        forall|k: int|
            0 <= k < c.p.times.len() ==> (#[trigger] c.p.qdd[k])[i].finite() && fle(
                fabs(c.p.qdd[k][i]),
                c.amax[i],
            ),
    ensures
        !flagged(c, Check::Acceleration, i),
{
    lemma_flagged(c, Check::Acceleration, i);
    lemma_within_limit(c.p.qdd, c.amax[i], i, c.p.times.len());
}

/// It is where some sample is over by more than the tolerance, and by more than rounding.
pub proof fn law_accelerations_over_are_found(c: CaseV, i: int, k: int)
    requires
        0 <= i < c.n,
        c.n <= usize::MAX,
        0 <= k < c.p.times.len(),
        proper_limit(c.amax[i]),
        forall|j: int| 0 <= j < c.p.times.len() ==> (#[trigger] c.p.qdd[j])[i].finite(),
        ordinary(fdiv(fabs(c.p.qdd[k][i]), c.amax[i])),
        ({
            let top = fadd(Scalar { bits: ONE_BITS }, c.o.utilization_tol);
            &&& top.finite() && !top.negative()
            &&& size(c.p.qdd[k][i]) * unit() * 0x1_0000_0000_0000 > size(c.amax[i]) * size(top)
                * 0x1_0000_0000_0001
        }),
    ensures
        flagged(c, Check::Acceleration, i),
{
    lemma_flagged(c, Check::Acceleration, i);
    lemma_over_limit(
        c.p.qdd,
        c.amax[i],
        fadd(Scalar { bits: ONE_BITS }, c.o.utilization_tol),
        i,
        c.p.times.len(),
        k,
    );
}

/// The reported use of the velocity limits: the share that every sample uses, and no more than
/// the largest of these.
pub proof fn law_utilization_is_the_largest_share(
    r: PathReport,
    p: PathV,
    n: nat,
    limits: Seq<Option<(Scalar, Scalar)>>,
    vmax: Seq<Scalar>,
    amax: Seq<Scalar>,
    i: int,
    k: int,
)
    requires
        report_matches(r, p, n, limits, vmax, amax),
        0 <= i < n,
        0 <= k < p.times.len(),
        proper_limit(vmax[i]) && proper_limit(amax[i]),
        forall|j: int| 0 <= j < p.times.len() ==> (#[trigger] p.qd[j])[i].finite(),
        forall|j: int| 0 <= j < p.times.len() ==> (#[trigger] p.qdd[j])[i].finite(),
        ordinary(fdiv(fabs(p.qd[k][i]), vmax[i])) && ordinary(r.vel_utilization@[i]),
        ordinary(fdiv(fabs(p.qdd[k][i]), amax[i])) && ordinary(r.acc_utilization@[i]),
    ensures
        ({
            let (v, a) = (size(r.vel_utilization@[i]), size(r.acc_utilization@[i]));
            &&& size(p.qd[k][i]) * unit() * 0x1_0000_0000_0000 <= v * size(vmax[i])
                * 0x1_0000_0000_0001
            &&& size(p.qdd[k][i]) * unit() * 0x1_0000_0000_0000 <= a * size(amax[i])
                * 0x1_0000_0000_0001
            &&& exists|j: int|
                0 <= j < p.times.len() && close(
                    size(#[trigger] p.qd[j][i]) * unit(),
                    v * size(vmax[i]),
                    1,
                )
            &&& exists|j: int|
                0 <= j < p.times.len() && close(
                    size(#[trigger] p.qdd[j][i]) * unit(),
                    a * size(amax[i]),
                    1,
                )
        }),
{
    let m = p.times.len();
    let at = lemma_most_used(p.qd, vmax[i], i, m);
    let bt = lemma_most_used(p.qdd, amax[i], i, m);
    lemma_share_used(p.qd[k][i], vmax[i], r.vel_utilization@[i]);
    lemma_share_used(p.qdd[k][i], amax[i], r.acc_utilization@[i]);
    assert(p.qd[at][i].finite() && p.qdd[bt][i].finite());
    lemma_absolute(p.qd[at][i]);
    lemma_absolute(p.qdd[bt][i]);
    law_quotient_is_near(fabs(p.qd[at][i]), vmax[i]);
    law_quotient_is_near(fabs(p.qdd[bt][i]), amax[i]);
}

proof fn lemma_share_used(x: Scalar, lim: Scalar, m: Scalar)
    requires
        proper_limit(lim),
        x.finite(),
        ordinary(fdiv(fabs(x), lim)) && ordinary(m) && !m.negative(),
        fle(fdiv(fabs(x), lim), m),
    ensures
        size(x) * unit() * 0x1_0000_0000_0000 <= size(m) * size(lim) * 0x1_0000_0000_0001,
{
    lemma_absolute(x);
    let q = fdiv(fabs(x), lim);
    law_quotient_is_near(fabs(x), lim);
    lemma_units_monotone(q.mag(), m.mag());
    let (l, qu, mu) = (size(lim), size(q), size(m));
    assert(qu * l <= mu * l) by (nonlinear_arith)
        requires
            0 <= qu <= mu,
            l >= 0,
    ;
}

proof fn lemma_no_jerk_found(p: PathV, i: int, n: nat)
    requires
        forall|k: int|
            0 < k <= n ==> (#[trigger] p.qdd[k])[i] == p.qdd[0][i],
        p.qdd[0][i].finite(),
        forall|k: int| 0 <= k <= n ==> (#[trigger] p.times[k]).finite(),
    ensures
        sharpest(p, i, n).0 == (Scalar { bits: 0 }),
    decreases n,
{
    if n > 0 {
        lemma_no_jerk_found(p, i, (n - 1) as nat);
        let (a, b) = (p.qdd[n as int][i], p.qdd[n - 1][i]);
        assert(a == p.qdd[0][i]);
        assert(b == p.qdd[0][i]);
        lemma_difference(a, b);
        lemma_no_sum_key();
        assert(a.units() - b.units() == 0);
        assert(p.times[n as int].finite() && p.times[n - 1].finite());
        lemma_difference(p.times[n as int], p.times[n - 1]);
        let dt = fsub(p.times[n as int], p.times[n - 1]);
        let d = fsub(a, b);
        if !fle(dt, Scalar { bits: 0 }) {
            if dt.finite() {
                lemma_nothing_over(d, dt);
            } else {
                reveal(fdiv);
            }
            lemma_absolute(fdiv(d, dt));
        }
    }
}

/// A joint whose acceleration never changes is not flagged for its jerk.
pub proof fn law_even_acceleration_is_no_jerk(c: CaseV, i: int)
    requires
        0 <= i < c.n,
        c.n <= usize::MAX,
        c.p.times.len() > 0,
        fle(Scalar { bits: 0 }, fmul(c.o.jerk_spike_ratio, c.jmax[i])),
        c.p.qdd[0][i].finite(),
        forall|k: int|
            0 < k < c.p.times.len() ==> (#[trigger] c.p.qdd[k])[i] == c.p.qdd[0][i],
        forall|k: int| 0 <= k < c.p.times.len() ==> (#[trigger] c.p.times[k]).finite(),
    ensures
        !flagged(c, Check::Jerk, i),
{
    lemma_flagged(c, Check::Jerk, i);
    lemma_no_jerk_found(c.p, i, (c.p.times.len() - 1) as nat);
}

/// The sharpest change is at least that of every interval.
proof fn lemma_sharpest(p: PathV, i: int, n: nat, k: int)
    requires
        0 < k <= n,
    ensures
        ({
            let dt = fsub(p.times[k], p.times[k - 1]);
            let jerk = fabs(fdiv(fsub(p.qdd[k][i], p.qdd[k - 1][i]), dt));
            flt(Scalar { bits: 0 }, dt) && !jerk.nan() ==> fle(jerk, sharpest(p, i, n).0)
        }),
        !sharpest(p, i, n).0.nan(),
    decreases n,
{
    lemma_sharpest_is_a_number(p, i, n);
    lemma_sharpest_is_a_number(p, i, (n - 1) as nat);
    if k < n {
        lemma_sharpest(p, i, (n - 1) as nat, k);
    }
}

proof fn lemma_sharpest_is_a_number(p: PathV, i: int, n: nat)
    ensures
        !sharpest(p, i, n).0.nan(),
    decreases n,
{
    if n > 0 {
        lemma_sharpest_is_a_number(p, i, (n - 1) as nat);
    }
}

/// A joint whose acceleration changes, in some interval, by more than the interval is long
/// times the threshold of its jerk, and by more than rounding, is flagged.
pub proof fn law_sharp_changes_are_found(c: CaseV, i: int, k: int)
    requires
        0 <= i < c.n,
        c.n <= usize::MAX,
        0 < k < c.p.times.len(),
        ({
            let top = fmul(c.o.jerk_spike_ratio, c.jmax[i]);
            let dt = fsub(c.p.times[k], c.p.times[k - 1]);
            let da = fsub(c.p.qdd[k][i], c.p.qdd[k - 1][i]);
            &&& top.finite() && !top.negative()
            &&& dt.finite() && flt(Scalar { bits: 0 }, dt) && da.finite() && ordinary(fdiv(da, dt))
            &&& size(da) * unit() * 0x1_0000_0000_0000 > size(dt) * size(top) * 0x1_0000_0000_0001
        }),
    ensures
        flagged(c, Check::Jerk, i),
{
    lemma_flagged(c, Check::Jerk, i);
    let n = (c.p.times.len() - 1) as nat;
    lemma_sharpest(c.p, i, n, k);
    let top = fmul(c.o.jerk_spike_ratio, c.jmax[i]);
    let dt = fsub(c.p.times[k], c.p.times[k - 1]);
    let da = fsub(c.p.qdd[k][i], c.p.qdd[k - 1][i]);
    let q = fdiv(da, dt);
    law_quotient_is_near(da, dt);
    lemma_absolute(q);
    if fabs(q).key() <= top.key() {
        lemma_units_monotone(q.mag(), top.mag());
        let (l, qu, tu) = (size(dt), size(q), size(top));
        assert(qu * l <= l * tu && 0 <= l * tu) by (nonlinear_arith)
            requires
                0 <= qu <= tu,
                l >= 0,
        ;
    }
}

/// How far a joint travels is at least each of its steps.
proof fn lemma_travel(q: Seq<Seq<Scalar>>, i: int, n: nat, k: int)
    requires
        forall|j: int| 0 <= j <= n ==> (#[trigger] q[j])[i].finite(),
        travelled(q, i, n).finite(),
    ensures
        fle(Scalar { bits: 0 }, travelled(q, i, n)),
        0 < k <= n ==> fle(fabs(fsub(q[k][i], q[k - 1][i])), travelled(q, i, n)),
    decreases n,
{
    if n > 0 {
        let m = (n - 1) as nat;
        assert(q[n as int][i].finite() && q[n - 1][i].finite());
        let d = fsub(q[n as int][i], q[n - 1][i]);
        lemma_difference(q[n as int][i], q[n - 1][i]);
        lemma_absolute(d);
        let t = travelled(q, i, m);
        assert(t.finite() && d.finite()) by {
            reveal(fadd);
            assert(crate::scalar::number::nan_value().nan());
        }
        assert(forall|j: int| 0 <= j <= m ==> (#[trigger] q[j])[i].finite());
        lemma_travel(q, i, m, k);
        law_adding_does_not_shrink(t, fabs(d));
        crate::scalar::order::lemma_sum(fabs(d), t);
        crate::scalar::order::lemma_sum(t, fabs(d));
        law_adding_does_not_shrink(fabs(d), t);
    }
}

/// A joint that comes back to where it started is flagged for its detour as soon as one of its
/// steps is longer than a joint may travel unasked; one that travels less is not.
pub proof fn law_round_trips_are_detours(c: CaseV, i: int, k: int)
    requires
        0 <= i < c.n,
        c.n <= usize::MAX,
        0 < k < c.p.times.len(),
        forall|j: int| 0 <= j < c.p.times.len() ==> (#[trigger] c.p.q[j])[i].finite(),
        travelled(c.p.q, i, (c.p.times.len() - 1) as nat).finite(),
        c.o.travel_min.finite() && fle(Scalar { bits: 0 }, c.o.travel_min),
        c.o.travel_ratio_max.finite(),
    ensures
        c.p.q[c.p.times.len() - 1][i] == c.p.q[0][i] && flt(
            c.o.travel_min,
            fabs(fsub(c.p.q[k][i], c.p.q[k - 1][i])),
        ) ==> flagged(c, Check::Detour, i),
        fle(travelled(c.p.q, i, (c.p.times.len() - 1) as nat), c.o.travel_min) ==> !flagged(
            c,
            Check::Detour,
            i,
        ),
{
    lemma_flagged(c, Check::Detour, i);
    let last = (c.p.times.len() - 1) as nat;
    lemma_travel(c.p.q, i, last, k);
    assert(c.p.q[last as int][i].finite() && c.p.q[0][i].finite());
    if c.p.q[last as int][i] == c.p.q[0][i] {
        let d = fsub(c.p.q[last as int][i], c.p.q[0][i]);
        lemma_difference(c.p.q[last as int][i], c.p.q[0][i]);
        lemma_no_sum_key();
        assert(c.p.q[0][i].units() - c.p.q[0][i].units() == 0);
        lemma_absolute(d);
        lemma_times_nothing(c.o.travel_ratio_max, fabs(d));
    }
}

proof fn lemma_corridor_found(c: CaseV, k: int)
    requires
        0 <= k <= c.p.times.len(),
    ensures
        (corridors(c, k).len() > 0) == exists|j: int| k <= j < c.p.times.len() && singular_at(c, j),
    decreases c.p.times.len() - k,
{
    if k < c.p.times.len() {
        lemma_corridor_end(c, k);
        if singular_at(c, k) {
            assert(corridors(c, k).len() > 0);
        } else {
            lemma_corridor_found(c, k + 1);
        }
    }
}

/// A singular corridor is found just where the smallest singular value of some sample is below
/// the threshold.
pub proof fn law_corridors_are_found(c: CaseV)
    requires
        c.p.times.len() > 0,
        c.n > 0,
    ensures
        (exists|f: Finding| #[trigger] findings(c).contains(f) && f.detail is Corridor) == exists|j: int|
            0 <= j < c.p.times.len() && flt(
                if (#[trigger] c.p.sv[j]).len() == 0 {
                    Scalar { bits: 0 }
                } else {
                    c.p.sv[j].last()
                },
                c.o.sigma_min_threshold,
            ),
{
    lemma_corridor_found(c, 0);
    lemma_corridors_are_corridors(c, 0);
    let z = corridors(c, 0);
    let all = findings(c);
    let head = joint_findings(c, Check::Position, c.n) + joint_findings(c, Check::Velocity, c.n)
        + joint_findings(c, Check::Acceleration, c.n) + joint_findings(c, Check::Dwell, c.n)
        + joint_findings(c, Check::Detour, c.n) + joint_findings(c, Check::Jerk, c.n);
    assert(all == head + z);
    if z.len() > 0 {
        assert(all[head.len() as int] == z[0]);
        assert(all.contains(z[0]));
        let j = choose|j: int| 0 <= j < c.p.times.len() && singular_at(c, j);
        assert(c.p.sv[j] == c.p.sv[j]);
    }
    if exists|f: Finding| #[trigger] all.contains(f) && f.detail is Corridor {
        let f = choose|f: Finding| #[trigger] all.contains(f) && f.detail is Corridor;
        let k = choose|k: int| 0 <= k < all.len() && all[k] == f;
        if k < head.len() {
            lemma_no_corridor(c, Check::Position, c.n, f);
            lemma_no_corridor(c, Check::Velocity, c.n, f);
            lemma_no_corridor(c, Check::Acceleration, c.n, f);
            lemma_no_corridor(c, Check::Dwell, c.n, f);
            lemma_no_corridor(c, Check::Detour, c.n, f);
            lemma_no_corridor(c, Check::Jerk, c.n, f);
            lemma_in_parts(
                joint_findings(c, Check::Position, c.n),
                joint_findings(c, Check::Velocity, c.n),
                joint_findings(c, Check::Acceleration, c.n),
                joint_findings(c, Check::Dwell, c.n),
                joint_findings(c, Check::Detour, c.n),
                joint_findings(c, Check::Jerk, c.n),
                k,
            );
        }
    }
    if exists|j: int| 0 <= j < c.p.times.len() && flt(
        if (#[trigger] c.p.sv[j]).len() == 0 {
            Scalar { bits: 0 }
        } else {
            c.p.sv[j].last()
        },
        c.o.sigma_min_threshold,
    ) {
        let j = choose|j: int| 0 <= j < c.p.times.len() && flt(
            if (#[trigger] c.p.sv[j]).len() == 0 {
                Scalar { bits: 0 }
            } else {
                c.p.sv[j].last()
            },
            c.o.sigma_min_threshold,
        );
        assert(singular_at(c, j));
    }
}

proof fn lemma_in_parts(
    a: Seq<Finding>,
    b: Seq<Finding>,
    d: Seq<Finding>,
    e: Seq<Finding>,
    g: Seq<Finding>,
    h: Seq<Finding>,
    k: int,
)
    requires
        0 <= k < (a + b + d + e + g + h).len(),
    ensures
        ({
            let f = (a + b + d + e + g + h)[k];
            a.contains(f) || b.contains(f) || d.contains(f) || e.contains(f) || g.contains(f)
                || h.contains(f)
        }),
{
    let f = (a + b + d + e + g + h)[k];
    let n1 = a.len() as int;
    let n2 = n1 + b.len();
    let n3 = n2 + d.len();
    let n4 = n3 + e.len();
    let n5 = n4 + g.len();
    if k < n1 {
        assert(a[k] == f);
    } else if k < n2 {
        assert(b[k - n1] == f);
    } else if k < n3 {
        assert(d[k - n2] == f);
    } else if k < n4 {
        assert(e[k - n3] == f);
    } else if k < n5 {
        assert(g[k - n4] == f);
    } else {
        assert(h[k - n5] == f);
    }
}

proof fn lemma_no_corridor(c: CaseV, check: Check, n: nat, f: Finding)
    requires
        f.detail is Corridor,
    ensures
        !joint_findings(c, check, n).contains(f),
{
    lemma_joint_findings(c, check, n, f);
}

} // verus!
