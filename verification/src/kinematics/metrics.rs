//! What the figures of a path report say of its samples, and what lingering near a limit is.

use vstd::prelude::*;

#[allow(unused_imports)]
use crate::kinematics::findings::{
    flagged, lemma_flagged, lemma_least_margin, lemma_sign_of_difference, samples_are_finite,
};
#[allow(unused_imports)]
use crate::kinematics::lint::{
    acceleration_finding, near_samples, peak, tightest_margin, velocity_finding, CaseV, Check,
};
#[allow(unused_imports)]
use crate::kinematics::measures::{exact_product, lemma_product_is_near, unit_power};
#[allow(unused_imports)]
use crate::kinematics::report::{
    manip_min, manip_of, manip_sum, margin, margin_min, report_matches, sigma_min, PathReport,
    PathV,
};
#[allow(unused_imports)]
use crate::kinematics::singular::product;
#[allow(unused_imports)]
use crate::scalar::consts::ONE_BITS;
#[allow(unused_imports)]
use crate::scalar::convert::from_int;
#[allow(unused_imports)]
use crate::scalar::formula::off_by;
#[allow(unused_imports)]
use crate::scalar::near::{close, law_quotient_is_off_by_a_step, size, unit};
#[allow(unused_imports)]
use crate::scalar::number::{fabs, fle, flt, fneg, fsub, mag_units};
#[allow(unused_imports)]
use crate::scalar::order::{
    gap, law_sum_is_near, lemma_negated, lemma_nothing_over, lemma_of_parts, lemma_over_itself,
    ordinary,
};
#[allow(unused_imports)]
use crate::scalar::rounding::{to_mag, INF_MAG};
#[allow(unused_imports)]
use crate::scalar::Scalar;

verus! {

/// The cycle time is how long it is from the first sample to the last.
pub proof fn law_cycle_time_is_the_span(
    r: PathReport,
    p: PathV,
    n: nat,
    limits: Seq<Option<(Scalar, Scalar)>>,
    vmax: Seq<Scalar>,
    amax: Seq<Scalar>,
)
    requires
        report_matches(r, p, n, limits, vmax, amax),
        p.times.len() > 0,
        p.times[0].finite() && p.times[p.times.len() - 1].finite(),
        r.cycle_time.finite(),
    ensures
        off_by(
            r.cycle_time.units(),
            p.times[p.times.len() - 1].units() - p.times[0].units(),
            gap(r.cycle_time.mag()),
        ),
{
    lemma_negated(p.times[0]);
    law_sum_is_near(p.times[p.times.len() - 1], fneg(p.times[0]));
}

/// The singular values of a sample are numbers with a product that is well on the scale.
pub open spec fn well_conditioned(sv: Seq<Scalar>) -> bool {
    &&& 0 < sv.len() < 0x1000
    &&& forall|i: int| 0 <= i < sv.len() ==> (#[trigger] sv[i]).finite() && !sv[i].negative()
    &&& forall|k: nat| 0 < k <= sv.len() ==> ordinary(#[trigger] product(sv, k))
}

/// `m` is the product of all of these values, up to rounding.
pub open spec fn is_product(m: Scalar, sv: Seq<Scalar>) -> bool {
    close(exact_product(sv, sv.len()) * unit(), size(m) * unit_power(sv.len()), 2 * sv.len() as int)
}

proof fn lemma_least_manipulability(sv: Seq<Seq<Scalar>>, n: nat) -> (at: int)
    requires
        forall|k: int| 0 <= k < n ==> well_conditioned(#[trigger] sv[k]),
    ensures
        !manip_min(sv, n).nan(),
        forall|k: int| 0 <= k < n ==> fle(manip_min(sv, n), manip_of(#[trigger] sv[k])),
        n > 0 ==> 0 <= at < n && manip_min(sv, n) == manip_of(sv[at]),
    decreases n,
{
    if n == 0 {
        0
    } else {
        let before = lemma_least_manipulability(sv, (n - 1) as nat);
        assert(well_conditioned(sv[n - 1]));
        lemma_product_is_near(sv[n - 1], sv[n - 1].len());
        if manip_min(sv, n) == manip_of(sv[n - 1]) {
            n - 1
        } else {
            before
        }
    }
}

/// The least manipulability is that of a sample, the product of its singular values, and no
/// sample has a smaller one.
pub proof fn law_least_manipulability_is_met(
    r: PathReport,
    p: PathV,
    n: nat,
    limits: Seq<Option<(Scalar, Scalar)>>,
    vmax: Seq<Scalar>,
    amax: Seq<Scalar>,
) -> (at: int)
    requires
        report_matches(r, p, n, limits, vmax, amax),
        p.times.len() > 0,
        forall|k: int| 0 <= k < p.times.len() ==> well_conditioned(#[trigger] p.sv[k]),
    ensures
        0 <= at < p.times.len(),
        is_product(r.min_manipulability, p.sv[at]),
        forall|k: int|
            0 <= k < p.times.len() ==> exists|m: Scalar|
                is_product(m, #[trigger] p.sv[k]) && fle(r.min_manipulability, m),
{
    let at = lemma_least_manipulability(p.sv, p.times.len());
    assert forall|k: int| 0 <= k < p.times.len() implies exists|m: Scalar|
        is_product(m, #[trigger] p.sv[k]) && fle(r.min_manipulability, m) by {
        lemma_product_is_near(p.sv[k], p.sv[k].len());
        assert(is_product(manip_of(p.sv[k]), p.sv[k]));
    }
    assert(well_conditioned(p.sv[at]));
    lemma_product_is_near(p.sv[at], p.sv[at].len());
    at
}

/// The exact sum of such measures.
pub open spec fn exact_total(m: Seq<Scalar>, k: nat) -> int
    decreases k,
{
    if k == 0 {
        0
    } else {
        exact_total(m, (k - 1) as nat) + m[k - 1].units()
    }
}

/// How coarse the sums are that run up to the whole.
pub open spec fn total_steps(sv: Seq<Seq<Scalar>>, k: nat) -> int
    decreases k,
{
    if k == 0 {
        0
    } else {
        total_steps(sv, (k - 1) as nat) + gap(manip_sum(sv, k).mag())
    }
}

proof fn lemma_total(sv: Seq<Seq<Scalar>>, m: Seq<Scalar>, n: nat)
    requires
        n <= m.len(),
        forall|k: int| 0 <= k < n ==> #[trigger] m[k] == manip_of(sv[k]) && m[k].finite(),
        forall|k: nat| k <= n ==> (#[trigger] manip_sum(sv, k)).finite(),
    ensures
        off_by(manip_sum(sv, n).units(), exact_total(m, n), total_steps(sv, n)),
    decreases n,
{
    assert(mag_units(0) == 0);
    if n > 0 {
        let j = (n - 1) as nat;
        assert(forall|k: nat| k <= j ==> (#[trigger] manip_sum(sv, k)).finite());
        lemma_total(sv, m, j);
        assert(m[n - 1].finite());
        assert(manip_sum(sv, n).finite() && manip_sum(sv, j).finite());
        law_sum_is_near(manip_sum(sv, j), m[n - 1]);
    }
}

/// The mean manipulability, times how many samples there are, is the sum of the products of
/// their singular values, up to the steps between the numbers on the way.
pub proof fn law_mean_manipulability_is_shared_out(
    r: PathReport,
    p: PathV,
    n: nat,
    limits: Seq<Option<(Scalar, Scalar)>>,
    vmax: Seq<Scalar>,
    amax: Seq<Scalar>,
) -> (m: Seq<Scalar>)
    requires
        report_matches(r, p, n, limits, vmax, amax),
        p.times.len() > 0,
        forall|k: int| 0 <= k < p.times.len() ==> well_conditioned(#[trigger] p.sv[k]),
        forall|k: nat| k <= p.times.len() ==> (#[trigger] manip_sum(p.sv, k)).finite(),
        ordinary(from_int(p.times.len() as int)),
        r.mean_manipulability.mag() + 1 < INF_MAG,
    ensures
        m.len() == p.times.len(),
        forall|k: int| 0 <= k < m.len() ==> is_product(#[trigger] m[k], p.sv[k]),
        ({
            let count = from_int(p.times.len() as int);
            off_by(
                r.mean_manipulability.units() * size(count),
                exact_total(m, m.len()) * unit(),
                gap(r.mean_manipulability.mag()) * size(count) + total_steps(p.sv, m.len()) * unit(),
            )
        }),
{
    let len = p.times.len();
    let m = Seq::new(len, |k: int| manip_of(p.sv[k]));
    assert forall|k: int| 0 <= k < len implies is_product(#[trigger] m[k], p.sv[k]) && m[k].finite() by {
        assert(well_conditioned(p.sv[k]));
        lemma_product_is_near(p.sv[k], p.sv[k].len());
    }
    lemma_total(p.sv, m, len);
    let count = from_int(len as int);
    lemma_of_parts(false, to_mag(len * vstd::arithmetic::power2::pow2(1074), 1));
    assert(manip_sum(p.sv, len).finite());
    law_quotient_is_off_by_a_step(manip_sum(p.sv, len), count);
    let (s, e, w, u) = (manip_sum(p.sv, len).units(), exact_total(m, len), total_steps(p.sv, len), unit());
    vstd::arithmetic::power2::lemma_pow2_pos(1074);
    assert(-(w * u) <= s * u - e * u <= w * u) by (nonlinear_arith)
        requires
            -w <= s - e <= w,
            u > 0,
    ;
    m
}

proof fn lemma_weakest(sv: Seq<Seq<Scalar>>, times: Seq<Scalar>, n: nat) -> (at: int)
    requires
        forall|k: int| 0 <= k < n ==> (#[trigger] sv[k]).len() > 0 && sv[k].last().finite(),
    ensures
        !sigma_min(sv, times, n).0.nan(),
        forall|k: int| 0 <= k < n ==> fle(sigma_min(sv, times, n).0, (#[trigger] sv[k]).last()),
        n > 0 ==> 0 <= at < n && sigma_min(sv, times, n) == (sv[at].last(), times[at]),
    decreases n,
{
    if n == 0 {
        0
    } else {
        let before = lemma_weakest(sv, times, (n - 1) as nat);
        assert(sv[n - 1].last().finite());
        if n == 1 || flt(sv[n - 1].last(), sigma_min(sv, times, (n - 1) as nat).0) {
            n - 1
        } else {
            before
        }
    }
}

/// The report names a moment at which the smallest singular value is smallest, and what it is
/// then.
pub proof fn law_weakest_moment_is_reported(
    r: PathReport,
    p: PathV,
    n: nat,
    limits: Seq<Option<(Scalar, Scalar)>>,
    vmax: Seq<Scalar>,
    amax: Seq<Scalar>,
) -> (at: int)
    requires
        report_matches(r, p, n, limits, vmax, amax),
        p.times.len() > 0,
        forall|k: int|
            0 <= k < p.times.len() ==> (#[trigger] p.sv[k]).len() > 0 && p.sv[k].last().finite(),
    ensures
        0 <= at < p.times.len(),
        r.min_sigma_min == p.sv[at].last() && r.t_min_sigma == p.times[at],
        forall|k: int|
            0 <= k < p.times.len() ==> fle(r.min_sigma_min, (#[trigger] p.sv[k]).last()),
{
    lemma_weakest(p.sv, p.times, p.times.len())
}

/// A sample is closer to a limit than it should be.
pub open spec fn near_a_limit(q: Scalar, lo: Scalar, hi: Scalar, near: Scalar) -> bool {
    flt(fsub(q, lo), near) || flt(fsub(hi, q), near)
}

proof fn lemma_near(p: PathV, lo: Scalar, hi: Scalar, near: Scalar, i: int, n: nat)
    requires
        samples_are_finite(p.q, lo, hi, i, n),
        near.finite(),
    ensures
        near_samples(p, Some((lo, hi)), near, i, n) <= n,
        (forall|k: int| 0 <= k < n ==> near_a_limit(#[trigger] p.q[k][i], lo, hi, near)) ==> near_samples(
            p,
            Some((lo, hi)),
            near,
            i,
            n,
        ) == n,
        (forall|k: int| 0 <= k < n ==> !near_a_limit(#[trigger] p.q[k][i], lo, hi, near)) ==> near_samples(
            p,
            Some((lo, hi)),
            near,
            i,
            n,
        ) == 0,
    decreases n,
{
    if n > 0 {
        lemma_near(p, lo, hi, near, i, (n - 1) as nat);
        assert(p.q[n - 1][i].finite());
        let x = p.q[n - 1][i];
        assert(flt(margin(x, lo, hi), near) == near_a_limit(x, lo, hi, near));
    }
}

/// One more sample counts as near a limit just where it is closer than it should be to the
/// lower limit or to the upper one.
pub proof fn law_samples_near_either_limit_count(
    p: PathV,
    lo: Scalar,
    hi: Scalar,
    near: Scalar,
    i: int,
    k: nat,
)
    requires
        samples_are_finite(p.q, lo, hi, i, k + 1),
        near.finite(),
    ensures
        near_samples(p, Some((lo, hi)), near, i, k + 1) == near_samples(p, Some((lo, hi)), near, i, k)
            + (if near_a_limit(p.q[k as int][i], lo, hi, near) {
            1int
        } else {
            0
        }),
{
    let x = p.q[k as int][i];
    assert(x.finite());
    assert(flt(margin(x, lo, hi), near) == near_a_limit(x, lo, hi, near));
}

proof fn lemma_tightest(p: PathV, lo: Scalar, hi: Scalar, i: int, n: nat)
    requires
        samples_are_finite(p.q, lo, hi, i, n),
    ensures
        tightest_margin(p, Some((lo, hi)), i, n).0 == margin_min(p.q, Some((lo, hi)), i, n),
    decreases n,
{
    if n > 0 {
        lemma_tightest(p, lo, hi, i, (n - 1) as nat);
        lemma_least_margin(p.q, lo, hi, i, (n - 1) as nat);
        assert(p.q[n - 1][i].finite());
    }
}

/// A joint that is within its limits, but too close to one of them all the time, is flagged;
/// one that never is too close is not.
pub proof fn law_lingering_near_a_limit_is_found(c: CaseV, i: int, lo: Scalar, hi: Scalar)
    requires
        0 <= i < c.n,
        c.n <= usize::MAX,
        c.p.times.len() > 0,
        c.limits[i] == Some((lo, hi)),
        samples_are_finite(c.p.q, lo, hi, i, c.p.times.len()),
        c.o.near_limit_margin.finite(),
        fle(Scalar { bits: 0 }, c.o.near_limit_dwell_frac),
        flt(c.o.near_limit_dwell_frac, Scalar { bits: ONE_BITS }),
        ordinary(from_int(c.p.times.len() as int)),
    ensures
        ({
            let near = c.o.near_limit_margin;
            let n = c.p.times.len();
            &&& (forall|k: int|
                0 <= k < n ==> near_a_limit(#[trigger] c.p.q[k][i], lo, hi, near) && fle(lo, c.p.q[k][i])
                    && fle(c.p.q[k][i], hi)) ==> flagged(c, Check::Dwell, i)
            &&& (forall|k: int| 0 <= k < n ==> !near_a_limit(#[trigger] c.p.q[k][i], lo, hi, near))
                ==> !flagged(c, Check::Dwell, i)
            &&& (exists|k: int|
                0 <= k < n && (flt(#[trigger] c.p.q[k][i], lo) || flt(hi, c.p.q[k][i])))
                ==> !flagged(c, Check::Dwell, i)
        }),
{
    let n = c.p.times.len();
    let q = c.p.q;
    let near = c.o.near_limit_margin;
    let count = from_int(n as int);
    lemma_flagged(c, Check::Dwell, i);
    lemma_near(c.p, lo, hi, near, i, n);
    lemma_tightest(c.p, lo, hi, i, n);
    let at = lemma_least_margin(q, lo, hi, i, n);
    let m = margin_min(q, Some((lo, hi)), i, n);
    assert(q[at][i].finite());
    lemma_sign_of_difference(q[at][i], lo);
    lemma_sign_of_difference(hi, q[at][i]);
    lemma_of_parts(false, to_mag(n * vstd::arithmetic::power2::pow2(1074), 1));
    lemma_over_itself(count);
    lemma_of_parts(false, 0);
    lemma_of_parts(false, to_mag(0 * vstd::arithmetic::power2::pow2(1074), 1));
    vstd::arithmetic::div_mod::lemma_fundamental_div_mod_converse(0, 1, 0, 0);
    assert(0 * vstd::arithmetic::power2::pow2(1074) == 0);
    assert(from_int(0).mag() == 0);
    lemma_nothing_over(from_int(0), count);
    if exists|k: int| 0 <= k < n && (flt(#[trigger] q[k][i], lo) || flt(hi, q[k][i])) {
        let k = choose|k: int| 0 <= k < n && (flt(#[trigger] q[k][i], lo) || flt(hi, q[k][i]));
        assert(q[k][i].finite());
        lemma_sign_of_difference(q[k][i], lo);
        lemma_sign_of_difference(hi, q[k][i]);
        assert(fle(m, fsub(q[k][i], lo)) && fle(m, fsub(hi, q[k][i])));
    }
}

proof fn lemma_peak(x: Seq<Seq<Scalar>>, times: Seq<Scalar>, i: int, n: nat) -> (at: int)
    requires
        forall|k: int| 0 <= k < n ==> (#[trigger] x[k])[i].finite(),
    ensures
        ({
            let (top, t) = peak(x, times, i, n);
            &&& !top.nan()
            &&& forall|k: int| 0 <= k < n ==> fle(fabs(#[trigger] x[k][i]), top)
            &&& top != (Scalar { bits: 0 }) ==> 0 <= at < n && top == fabs(x[at][i]) && t == times[at]
        }),
    decreases n,
{
    if n == 0 {
        0
    } else {
        let before = lemma_peak(x, times, i, (n - 1) as nat);
        let best = peak(x, times, i, (n - 1) as nat);
        assert(x[n - 1][i].finite());
        assert(!fabs(x[n - 1][i]).nan());
        if flt(best.0, fabs(x[n - 1][i])) {
            n - 1
        } else {
            before
        }
    }
}

/// A finding about the velocity of a joint names its largest speed, the moment of it, and the
/// limit.
pub proof fn law_velocity_findings_name_the_peak(c: CaseV, i: int) -> (at: int)
    requires
        velocity_finding(c, i) is Some,
        forall|k: int| 0 <= k < c.p.times.len() ==> (#[trigger] c.p.qd[k])[i].finite(),
    ensures
        ({
            let f = velocity_finding(c, i)->0;
            &&& f.joint == Some(i as usize)
            &&& f.detail is Velocity && f.detail->Velocity_limit == c.vmax[i]
            &&& forall|k: int|
                0 <= k < c.p.times.len() ==> fle(fabs(#[trigger] c.p.qd[k][i]), f.detail->Velocity_peak)
            &&& f.detail->Velocity_peak != (Scalar { bits: 0 }) ==> 0 <= at < c.p.times.len()
                && f.detail->Velocity_peak == fabs(c.p.qd[at][i]) && f.time == Some(c.p.times[at])
        }),
{
    lemma_peak(c.p.qd, c.p.times, i, c.p.times.len())
}

/// A finding about the acceleration of a joint names its largest acceleration, the moment of
/// it, and the limit.
pub proof fn law_acceleration_findings_name_the_peak(c: CaseV, i: int) -> (at: int)
    requires
        acceleration_finding(c, i) is Some,
        forall|k: int| 0 <= k < c.p.times.len() ==> (#[trigger] c.p.qdd[k])[i].finite(),
    ensures
        ({
            let f = acceleration_finding(c, i)->0;
            &&& f.joint == Some(i as usize)
            &&& f.detail is Acceleration && f.detail->Acceleration_limit == c.amax[i]
            &&& forall|k: int|
                0 <= k < c.p.times.len() ==> fle(
                    fabs(#[trigger] c.p.qdd[k][i]),
                    f.detail->Acceleration_peak,
                )
            &&& f.detail->Acceleration_peak != (Scalar { bits: 0 }) ==> 0 <= at < c.p.times.len()
                && f.detail->Acceleration_peak == fabs(c.p.qdd[at][i]) && f.time == Some(c.p.times[at])
        }),
{
    lemma_peak(c.p.qdd, c.p.times, i, c.p.times.len())
}

} // verus!
