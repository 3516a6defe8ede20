//! How fast the coordinate along a path may go, so that nothing that moves with it is too
//! fast.

use vstd::prelude::*;

#[allow(unused_imports)]
use crate::motion::cartesian::{
    bad_param, cartesian, fraction_cap, proper, settled, slopes, walk, worst_of, CartesianMoveOpts,
    OutcomeV,
};
#[allow(unused_imports)]
use crate::motion::error::MotionError;
#[allow(unused_imports)]
use crate::motion::limits::LimitsV;
#[allow(unused_imports)]
use crate::motion::movej::{first_outside, moved, own_move, slowest};
#[allow(unused_imports)]
use crate::motion::retime::{
    bound_along, lemma_bound, lemma_bound_is_a_number, segmented, Law, TimingV,
};
#[allow(unused_imports)]
use crate::motion::scurve::{
    bisected, built, planned, seg_at, stretched, total_of, ProfileV, BISECTIONS,
};
#[allow(unused_imports)]
use crate::motion::trajectory::{TrajKind, TrajV};
#[allow(unused_imports)]
use crate::scalar::consts::{HALF_BITS, NANO_BITS, ONE_BITS, PICO_BITS, TWO_BITS};
#[allow(unused_imports)]
use crate::scalar::convert::fmax;
#[allow(unused_imports)]
use crate::scalar::near::{at_most, close, law_below_a_quotient, law_quotient_is_near, size, unit};
#[allow(unused_imports)]
use crate::scalar::number::{
    fabs, fadd, fdiv, feq, fle, flt, fmul, fneg, fsub, mag_units, of_parts,
};
#[allow(unused_imports)]
use crate::scalar::order::{
    law_adding_does_not_shrink, law_differences_reverse_order, law_products_commute,
    law_products_keep_order, law_sums_keep_order, lemma_absolute,
    lemma_add_nothing, lemma_double, lemma_of_parts, lemma_signed, lemma_sum, lemma_times_nothing,
    lemma_units_monotone, ordinary,
};
#[allow(unused_imports)]
use crate::scalar::rounding::{lemma_round_scale, to_mag};
#[allow(unused_imports)]
use crate::scalar::Scalar;
#[allow(unused_imports)]
use vstd::arithmetic::power2::pow2;

verus! {

/// A positive number shared out among a positive length is a number.
proof fn lemma_share_is_a_number(lim: Scalar, len: Scalar)
    requires
        proper(lim),
        len.finite() && flt(Scalar { bits: NANO_BITS }, len),
    ensures
        !fdiv(lim, len).nan(),
        !fdiv(lim, len).negative(),
{
    reveal(fdiv);
}

/// The cap on the share of a path per time keeps both motions of the tool within their
/// limits, up to rounding, and one of them at its limit.
pub proof fn law_caps_hold_for_both_motions(
    lin: Scalar,
    ang: Scalar,
    len_lin: Scalar,
    len_ang: Scalar,
)
    requires
        proper(lin) && proper(ang),
        len_lin.finite() && len_ang.finite(),
        ordinary(fraction_cap(lin, ang, len_lin, len_ang)),
    ensures
        ({
            let tiny = Scalar { bits: NANO_BITS };
            let cap = fraction_cap(lin, ang, len_lin, len_ang);
            &&& !cap.negative()
            &&& flt(tiny, len_lin) ==> at_most(size(cap) * size(len_lin), size(lin) * unit(), 1)
            &&& flt(tiny, len_ang) ==> at_most(size(cap) * size(len_ang), size(ang) * unit(), 1)
            &&& (flt(tiny, len_lin) && close(size(lin) * unit(), size(cap) * size(len_lin), 1)) || (flt(
                tiny,
                len_ang,
            ) && close(size(ang) * unit(), size(cap) * size(len_ang), 1))
        }),
{
    let tiny = Scalar { bits: NANO_BITS };
    let cap = fraction_cap(lin, ang, len_lin, len_ang);
    if flt(tiny, len_lin) {
        lemma_share_is_a_number(lin, len_lin);
    }
    if flt(tiny, len_ang) {
        lemma_share_is_a_number(ang, len_ang);
    }
    if flt(tiny, len_lin) {
        law_below_a_quotient(cap, lin, len_lin);
        if cap == fdiv(lin, len_lin) {
            law_quotient_is_near(lin, len_lin);
        }
    }
    if flt(tiny, len_ang) {
        law_below_a_quotient(cap, ang, len_ang);
        if cap == fdiv(ang, len_ang) {
            law_quotient_is_near(ang, len_ang);
        }
    }
}

/// The bound along a step keeps every joint that moves within its limit, up to rounding.
pub proof fn law_bounds_hold_for_every_joint(dq: Seq<Scalar>, lim: Seq<Scalar>, i: int)
    requires
        0 <= i < dq.len(),
        dq[i].finite(),
        flt(Scalar { bits: NANO_BITS }, fabs(dq[i])),
        proper(lim[i]),
        ordinary(bound_along(dq, lim, dq.len())),
        !bound_along(dq, lim, dq.len()).negative(),
    ensures
        at_most(
            size(bound_along(dq, lim, dq.len())) * size(dq[i]),
            size(lim[i]) * unit(),
            1,
        ),
{
    lemma_absolute(dq[i]);
    lemma_share_is_a_number(lim[i], fabs(dq[i]));
    lemma_bound(dq, lim, dq.len(), i);
    law_below_a_quotient(bound_along(dq, lim, dq.len()), lim[i], fabs(dq[i]));
}

/// Some joint that moves is at its limit, up to rounding.
pub proof fn law_bounds_are_used(dq: Seq<Scalar>, lim: Seq<Scalar>, n: nat) -> (i: int)
    requires
        n <= dq.len(),
        forall|i: int| 0 <= i < n ==> (#[trigger] dq[i]).finite() && proper(lim[i]),
        ordinary(bound_along(dq, lim, n)),
    ensures
        0 <= i < n,
        flt(Scalar { bits: NANO_BITS }, fabs(dq[i])),
        close(size(lim[i]) * unit(), size(bound_along(dq, lim, n)) * size(dq[i]), 1),
    decreases n,
{
    let c = bound_along(dq, lim, n);
    if n == 0 {
        0
    } else {
        let d = fabs(dq[n - 1]);
        lemma_absolute(dq[n - 1]);
        lemma_bound_is_a_number(dq, lim, (n - 1) as nat);
        if c == bound_along(dq, lim, (n - 1) as nat) {
            law_bounds_are_used(dq, lim, (n - 1) as nat)
        } else {
            lemma_share_is_a_number(lim[n - 1], d);
            law_quotient_is_near(lim[n - 1], d);
            n - 1
        }
    }
}

/// Every part of a plan has the jerk it is given, that the other way, or none.
proof fn lemma_plan_jerks(
    d: Scalar,
    vmax: Scalar,
    amax: Scalar,
    jmax: Scalar,
    cbrt: spec_fn(Scalar) -> Scalar,
    m: int,
)
    requires
        !flt(fabs(d), Scalar { bits: PICO_BITS }),
        0 <= m < 7,
    ensures
        planned(d, vmax, amax, jmax, cbrt).segs.len() == 7,
        planned(d, vmax, amax, jmax, cbrt).segs[m].jerk.mag() <= jmax.mag(),
        m == 0 ==> planned(d, vmax, amax, jmax, cbrt).segs[m].jerk == jmax,
{
    reveal(planned);
    reveal(built);
    let p = planned(d, vmax, amax, jmax, cbrt);
    assert(p.segs[m] == seg_at(p.tj, p.ta, p.tv, jmax, m as nat));
    assert(fneg(jmax).mag() == jmax.mag());
}

/// Every segment of a jerk-limited path is planned under what its joints allow.
proof fn lemma_planned_segment(
    w: Seq<Seq<Scalar>>,
    l: LimitsV,
    cbrt: spec_fn(Scalar) -> Scalar,
    k: nat,
    j: int,
)
    requires
        0 <= j < segmented(Law::JerkLimited, w, l, cbrt, k).0.len(),
    ensures
        ({
            let s = segmented(Law::JerkLimited, w, l, cbrt, k).0[j];
            let n = s.dq.len();
            s.prof == TimingV::Jerk(
                planned(
                    Scalar { bits: ONE_BITS },
                    bound_along(s.dq, l.v, n),
                    bound_along(s.dq, l.a, n),
                    bound_along(s.dq, l.j, n),
                    cbrt,
                ),
            )
        }),
    decreases k,
{
    if k > 0 {
        let before = segmented(Law::JerkLimited, w, l, cbrt, (k - 1) as nat).0;
        if j < before.len() {
            lemma_planned_segment(w, l, cbrt, (k - 1) as nat, j);
        }
    }
}

/// In every part of every segment of a jerk-limited path, the jerk of each joint that moves
/// is at most its limit, up to rounding.
pub proof fn law_jerk_limited_paths_keep_jerk(
    w: Seq<Seq<Scalar>>,
    l: LimitsV,
    cbrt: spec_fn(Scalar) -> Scalar,
    k: nat,
    j: int,
    i: int,
    m: int,
)
    requires
        0 <= j < segmented(Law::JerkLimited, w, l, cbrt, k).0.len(),
        0 <= m < 7,
        ({
            let s = segmented(Law::JerkLimited, w, l, cbrt, k).0[j];
            &&& 0 <= i < s.dq.len()
            &&& s.dq[i].finite() && flt(Scalar { bits: NANO_BITS }, fabs(s.dq[i]))
            &&& proper(l.j[i])
            &&& s.prof matches TimingV::Jerk(p) ==> ordinary(p.segs[0].jerk) && !p.segs[0].jerk.negative()
        }),
    ensures
        ({
            let s = segmented(Law::JerkLimited, w, l, cbrt, k).0[j];
            s.prof matches TimingV::Jerk(p) && at_most(
                size(p.segs[m].jerk) * size(s.dq[i]),
                size(l.j[i]) * unit(),
                1,
            )
        }),
{
    let s = segmented(Law::JerkLimited, w, l, cbrt, k).0[j];
    let one = Scalar { bits: ONE_BITS };
    lemma_planned_segment(w, l, cbrt, k, j);
    let n = s.dq.len();
    let b = bound_along(s.dq, l.j, n);
    let p = s.prof->Jerk_0;
    assert(!flt(fabs(one), Scalar { bits: PICO_BITS }));
    let (v, a) = (bound_along(s.dq, l.v, n), bound_along(s.dq, l.a, n));
    lemma_plan_jerks(one, v, a, b, cbrt, m);
    lemma_plan_jerks(one, v, a, b, cbrt, 0);
    assert(p.segs[0].jerk == b);
    law_bounds_hold_for_every_joint(s.dq, l.j, i);
    lemma_units_monotone(p.segs[m].jerk.mag(), b.mag());
    let (x, y, z) = (size(p.segs[m].jerk), size(b), size(s.dq[i]));
    assert(x * z <= y * z) by (nonlinear_arith)
        requires
            x <= y,
            z >= 0,
    ;
}

/// Halving an interval stays in it.
proof fn lemma_middle(lo: Scalar, hi: Scalar)
    requires
        fle(Scalar { bits: 0 }, lo) && fle(lo, hi) && fle(hi, Scalar { bits: ONE_BITS }),
    ensures
        fle(lo, fmul(Scalar { bits: HALF_BITS }, fadd(lo, hi))),
        fle(fmul(Scalar { bits: HALF_BITS }, fadd(lo, hi)), hi),
{
    let half = Scalar { bits: HALF_BITS };
    let s = fadd(lo, hi);
    lemma_twice_halved(lo);
    lemma_twice_halved(hi);
    lemma_sum(lo, lo);
    lemma_sum(lo, hi);
    lemma_sum(hi, lo);
    lemma_sum(hi, hi);
    law_sums_keep_order(lo, hi, lo);
    law_sums_keep_order(lo, hi, hi);
    law_products_keep_order(fadd(lo, lo), s, half);
    law_products_keep_order(s, fadd(hi, hi), half);
    law_products_commute(s, half);
    law_products_commute(fadd(lo, lo), half);
    law_products_commute(fadd(hi, hi), half);
}

/// Half of twice a number is the number.
proof fn lemma_twice_halved(x: Scalar)
    requires
        fle(Scalar { bits: 0 }, x) && fle(x, Scalar { bits: ONE_BITS }),
    ensures
        fadd(x, x).finite(),
        fle(Scalar { bits: 0 }, fadd(x, x)),
        feq(fmul(Scalar { bits: HALF_BITS }, fadd(x, x)), x),
{
    let one = Scalar { bits: ONE_BITS };
    let two = Scalar { bits: TWO_BITS };
    let half = Scalar { bits: HALF_BITS };
    let u = pow2(1074);
    let m = x.mag();
    let y = fadd(x, x);
    lemma_sum(x, x);
    lemma_sum(one, one);
    lemma_sum(x, one);
    lemma_sum(one, x);
    law_sums_keep_order(x, one, x);
    law_sums_keep_order(x, one, one);
    vstd::arithmetic::power2::lemma2_to64();
    vstd::arithmetic::power2::lemma2_to64_rest();
    vstd::arithmetic::power2::lemma_pow2_adds(52, 1022);
    vstd::arithmetic::power2::lemma_pow2_adds(52, 1021);
    vstd::arithmetic::power2::lemma_pow2_adds(52, 1023);
    vstd::arithmetic::power2::lemma_pow2_unfold(1074);
    vstd::arithmetic::power2::lemma_pow2_unfold(1075);
    vstd::arithmetic::power2::lemma_pow2_pos(1074);
    let hu = mag_units(HALF_BITS as nat);
    assert(2 * hu == u && mag_units(ONE_BITS as nat) == u && mag_units(TWO_BITS as nat) == 2 * u);
    crate::scalar::number::lemma_round_exact(TWO_BITS as nat);
    assert(mag_units(0) == 0);
    assert(feq(fadd(one, one), two));
    assert(y.finite());
    let k: nat = 0x10_0000_0000_0000;
    // Doubling is exact.
    lemma_signed(false, x);
    assert(fmul(two, x).finite()) by {
        if x.mag() > 0 {
            law_products_keep_order(x, one, two);
            law_products_commute(x, two);
            lemma_signed(false, two);
            assert(of_parts(false, ONE_BITS as nat) == one);
        } else {
            lemma_times_nothing(two, x);
        }
    }
    lemma_double(x);
    let z = fmul(two, x);
    crate::scalar::number::lemma_round_exact(z.mag());
    assert(y.key() == z.key()) by {
        assert(x.units() + x.units() == z.units());
        lemma_add_nothing(z, Scalar { bits: 0 });
        lemma_sum(z, Scalar { bits: 0 });
    }
    assert(mag_units(y.mag()) == 2 * mag_units(m));
    if m == 0 {
        lemma_times_nothing(half, y);
    } else {
        let n = mag_units(m);
        reveal(fmul);
        lemma_of_parts(half.negative() != y.negative(), to_mag(hu * mag_units(y.mag()), u));
        assert(hu * (2 * n) == n * u) by (nonlinear_arith)
            requires
                2 * hu == u,
        ;
        lemma_round_scale(n, 1, u);
        assert(1 * u == u);
        crate::scalar::number::lemma_round_exact(m);
    }
}

/// The scale that a bisection finds is within the interval that it starts from.
proof fn lemma_bisected_within(
    d: Scalar,
    target: Scalar,
    vmax: Scalar,
    amax: Scalar,
    jmax: Scalar,
    cbrt: spec_fn(Scalar) -> Scalar,
    lo: Scalar,
    hi: Scalar,
    k: nat,
)
    requires
        fle(Scalar { bits: 0 }, lo) && fle(lo, hi) && fle(hi, Scalar { bits: ONE_BITS }),
    ensures
        fle(lo, bisected(d, target, vmax, amax, jmax, cbrt, lo, hi, k)),
        fle(bisected(d, target, vmax, amax, jmax, cbrt, lo, hi, k), hi),
    decreases k,
{
    if k > 0 {
        let s = fmul(Scalar { bits: HALF_BITS }, fadd(lo, hi));
        lemma_middle(lo, hi);
        lemma_bisected_within(d, target, vmax, amax, jmax, cbrt, s, hi, (k - 1) as nat);
        lemma_bisected_within(d, target, vmax, amax, jmax, cbrt, lo, s, (k - 1) as nat);
    }
}

/// A move stretched to a duration is planned under limits that are no larger than those it
/// is given.
pub proof fn law_stretching_slows_down(
    d: Scalar,
    target: Scalar,
    vmax: Scalar,
    amax: Scalar,
    jmax: Scalar,
    cbrt: spec_fn(Scalar) -> Scalar,
) -> (lims: (Scalar, Scalar, Scalar))
    requires
        !flt(fabs(d), Scalar { bits: PICO_BITS }),
        proper(vmax) && proper(amax) && proper(jmax),
    ensures
        stretched(d, target, vmax, amax, jmax, cbrt) == planned(d, lims.0, lims.1, lims.2, cbrt),
        fle(lims.0, vmax) && fle(lims.1, amax) && fle(lims.2, jmax),
        !lims.0.negative() && !lims.1.negative() && !lims.2.negative(),
{
    reveal(stretched);
    let full = planned(d, vmax, amax, jmax, cbrt);
    if fle(target, total_of(full)) {
        (vmax, amax, jmax)
    } else {
        let one = Scalar { bits: ONE_BITS };
        let lo = Scalar { bits: NANO_BITS };
        let s = bisected(d, target, vmax, amax, jmax, cbrt, lo, one, BISECTIONS as nat);
        lemma_bisected_within(d, target, vmax, amax, jmax, cbrt, lo, one, BISECTIONS as nat);
        lemma_scaled_down(s, vmax);
        lemma_scaled_down(s, amax);
        lemma_scaled_down(s, jmax);
        (fmul(s, vmax), fmul(s, amax), fmul(s, jmax))
    }
}

/// A part of a limit is no larger.
proof fn lemma_scaled_down(s: Scalar, x: Scalar)
    requires
        flt(Scalar { bits: 0 }, s) && fle(s, Scalar { bits: ONE_BITS }),
        proper(x),
    ensures
        fle(fmul(s, x), x),
        !fmul(s, x).negative(),
{
    let one = Scalar { bits: ONE_BITS };
    law_products_keep_order(s, one, x);
    assert(of_parts(false, ONE_BITS as nat) == one);
    lemma_signed(false, x);
    reveal(fmul);
    lemma_of_parts(false, to_mag(mag_units(s.mag()) * mag_units(x.mag()), pow2(1074)));
}

/// What a Cartesian move comes to when it follows a profile.
pub open spec fn follows(
    r: Result<TrajV, MotionError>,
    prof: ProfileV,
    start: Seq<Scalar>,
    kind: TrajKind,
    o: CartesianMoveOpts,
    p: spec_fn(Scalar, Seq<Scalar>) -> OutcomeV,
) -> bool {
    let (w, step) = walk(p, prof, start, o.dt, o.continuity_thresh);
    r == settled(w, step, kind, o.limits@, o.on_failure, start.len())
}

/// The jerk of a motion of the tool over `len`, in every part of a profile.
pub open spec fn jerks_within(prof: ProfileV, len: Scalar, lim: Scalar) -> bool {
    forall|m: int|
        0 <= m < 7 ==> at_most(
            size((#[trigger] prof.segs[m]).jerk) * size(len),
            size(lim) * unit(),
            1,
        )
}

/// A Cartesian move follows a profile along its path under which the jerks of the tool, where
/// it moves and where it turns, are within their limits, up to rounding. The profile is
/// planned under caps that keep its velocities and accelerations within theirs.
pub proof fn law_tool_limits_are_kept(
    start: Seq<Scalar>,
    len_lin: Scalar,
    len_ang: Scalar,
    kind: TrajKind,
    o: CartesianMoveOpts,
    cbrt: spec_fn(Scalar) -> Scalar,
    p: spec_fn(Scalar, Seq<Scalar>) -> OutcomeV,
) -> (r: (ProfileV, (Scalar, Scalar, Scalar)))
    requires
        bad_param(o) is None,
        len_lin.finite() && len_ang.finite(),
        ordinary(fraction_cap(o.v_lin, o.v_ang, len_lin, len_ang)),
        ordinary(fraction_cap(o.a_lin, o.a_ang, len_lin, len_ang)),
        ordinary(fraction_cap(o.j_lin, o.j_ang, len_lin, len_ang)),
    ensures
        ({
            let (prof, (v, a, j)) = r;
            let tiny = Scalar { bits: NANO_BITS };
            &&& follows(
                cartesian(start, len_lin, len_ang, kind, o, cbrt, p),
                prof,
                start,
                kind,
                o,
                p,
            )
            &&& prof == planned(Scalar { bits: ONE_BITS }, v, a, j, cbrt)
            &&& flt(tiny, len_lin) ==> {
                &&& jerks_within(prof, len_lin, o.j_lin)
                &&& at_most(size(v) * size(len_lin), size(o.v_lin) * unit(), 1)
                &&& at_most(size(a) * size(len_lin), size(o.a_lin) * unit(), 1)
            }
            &&& flt(tiny, len_ang) ==> {
                &&& jerks_within(prof, len_ang, o.j_ang)
                &&& at_most(size(v) * size(len_ang), size(o.v_ang) * unit(), 1)
                &&& at_most(size(a) * size(len_ang), size(o.a_ang) * unit(), 1)
            }
        }),
{
    let one = Scalar { bits: ONE_BITS };
    let tiny = Scalar { bits: NANO_BITS };
    let vs = fraction_cap(o.v_lin, o.v_ang, len_lin, len_ang);
    let ac = fraction_cap(o.a_lin, o.a_ang, len_lin, len_ang);
    let je = fraction_cap(o.j_lin, o.j_ang, len_lin, len_ang);
    law_caps_hold_for_both_motions(o.v_lin, o.v_ang, len_lin, len_ang);
    law_caps_hold_for_both_motions(o.a_lin, o.a_ang, len_lin, len_ang);
    law_caps_hold_for_both_motions(o.j_lin, o.j_ang, len_lin, len_ang);
    assert(!flt(fabs(one), Scalar { bits: PICO_BITS }));
    assert(proper(vs) && proper(ac) && proper(je));
    let full = planned(one, vs, ac, je, cbrt);
    let (w, step) = walk(p, full, start, o.dt, o.continuity_thresh);
    let qd = slopes(w.rows, step, true, start.len());
    let worst = worst_of(qd, o.limits@.v, qd.len());
    let again = w.stop is None && flt(one, worst);
    let target = fmul(fmax(total_of(full), o.dt), worst);
    let lims = if again {
        law_stretching_slows_down(one, target, vs, ac, je, cbrt)
    } else {
        (vs, ac, je)
    };
    let (v, a, j) = lims;
    let prof = planned(one, v, a, j, cbrt);
    lemma_units_monotone(v.mag(), vs.mag());
    lemma_units_monotone(a.mag(), ac.mag());
    lemma_units_monotone(j.mag(), je.mag());
    if flt(tiny, len_lin) {
        lemma_smaller_cap(size(v), size(vs), size(len_lin), size(o.v_lin) * unit());
        lemma_smaller_cap(size(a), size(ac), size(len_lin), size(o.a_lin) * unit());
    }
    if flt(tiny, len_ang) {
        lemma_smaller_cap(size(v), size(vs), size(len_ang), size(o.v_ang) * unit());
        lemma_smaller_cap(size(a), size(ac), size(len_ang), size(o.a_ang) * unit());
    }
    assert forall|m: int| 0 <= m < 7 && flt(tiny, len_lin) implies at_most(
        size((#[trigger] prof.segs[m]).jerk) * size(len_lin),
        size(o.j_lin) * unit(),
        1,
    ) by {
        lemma_plan_jerks(one, v, a, j, cbrt, m);
        lemma_units_monotone(prof.segs[m].jerk.mag(), j.mag());
        lemma_smaller_cap(size(prof.segs[m].jerk), size(je), size(len_lin), size(o.j_lin) * unit());
    }
    assert forall|m: int| 0 <= m < 7 && flt(tiny, len_ang) implies at_most(
        size((#[trigger] prof.segs[m]).jerk) * size(len_ang),
        size(o.j_ang) * unit(),
        1,
    ) by {
        lemma_plan_jerks(one, v, a, j, cbrt, m);
        lemma_units_monotone(prof.segs[m].jerk.mag(), j.mag());
        lemma_smaller_cap(size(prof.segs[m].jerk), size(je), size(len_ang), size(o.j_ang) * unit());
    }
    (prof, lims)
}

/// What is smaller keeps a limit too.
proof fn lemma_smaller_cap(x: int, y: int, z: int, n: int)
    requires
        x <= y,
        z >= 0,
        at_most(y * z, n, 1),
    ensures
        at_most(x * z, n, 1),
{
    assert(x * z <= y * z) by (nonlinear_arith)
        requires
            x <= y,
            z >= 0,
    ;
}

/// Every segment of a jerk-limited path is planned under limits along it that keep the
/// velocity and the acceleration of each joint that moves within its own, up to rounding.
pub proof fn law_jerk_limited_paths_are_planned_within(
    w: Seq<Seq<Scalar>>,
    l: LimitsV,
    cbrt: spec_fn(Scalar) -> Scalar,
    k: nat,
    j: int,
    i: int,
) -> (lims: (Scalar, Scalar, Scalar))
    requires
        0 <= j < segmented(Law::JerkLimited, w, l, cbrt, k).0.len(),
        ({
            let s = segmented(Law::JerkLimited, w, l, cbrt, k).0[j];
            &&& 0 <= i < s.dq.len()
            &&& s.dq[i].finite() && flt(Scalar { bits: NANO_BITS }, fabs(s.dq[i]))
            &&& proper(l.v[i]) && proper(l.a[i]) && proper(l.j[i])
        }),
    ensures
        ({
            let s = segmented(Law::JerkLimited, w, l, cbrt, k).0[j];
            let d = size(s.dq[i]);
            &&& s.prof == TimingV::Jerk(
                planned(Scalar { bits: ONE_BITS }, lims.0, lims.1, lims.2, cbrt),
            )
            &&& ordinary(lims.0) && !lims.0.negative() ==> at_most(size(lims.0) * d, size(l.v[i]) * unit(), 1)
            &&& ordinary(lims.1) && !lims.1.negative() ==> at_most(size(lims.1) * d, size(l.a[i]) * unit(), 1)
            &&& ordinary(lims.2) && !lims.2.negative() ==> at_most(size(lims.2) * d, size(l.j[i]) * unit(), 1)
        }),
{
    let s = segmented(Law::JerkLimited, w, l, cbrt, k).0[j];
    lemma_planned_segment(w, l, cbrt, k, j);
    let n = s.dq.len();
    let (v, a, b) = (bound_along(s.dq, l.v, n), bound_along(s.dq, l.a, n), bound_along(s.dq, l.j, n));
    if ordinary(v) && !v.negative() {
        law_bounds_hold_for_every_joint(s.dq, l.v, i);
    }
    if ordinary(a) && !a.negative() {
        law_bounds_hold_for_every_joint(s.dq, l.a, i);
    }
    if ordinary(b) && !b.negative() {
        law_bounds_hold_for_every_joint(s.dq, l.j, i);
    }
    (v, a, b)
}

/// In a joint move every joint that moves follows a plan over just its own distance, under
/// limits that are no larger than its own, and starts where the arm is.
pub proof fn law_joint_moves_keep_limits(
    n: nat,
    limits: Seq<Option<(Scalar, Scalar)>>,
    q0: Seq<Scalar>,
    q1: Seq<Scalar>,
    l: LimitsV,
    cbrt: spec_fn(Scalar) -> Scalar,
    i: int,
    m: int,
) -> (lims: (Scalar, Scalar, Scalar))
    requires
        moved(n, limits, q0, q1, l, cbrt) is Ok,
        0 <= i < n,
        0 <= m < 7,
        !flt(fabs(fsub(q1[i], q0[i])), Scalar { bits: PICO_BITS }),
        proper(l.v[i]) && proper(l.a[i]) && proper(l.j[i]),
    ensures
        ({
            let x = moved(n, limits, q0, q1, l, cbrt)->Ok_0;
            let p = x.profiles[i];
            &&& x.q0 == q0
            &&& p == planned(fsub(q1[i], q0[i]), lims.0, lims.1, lims.2, cbrt)
            &&& fle(lims.0, l.v[i]) && fle(lims.1, l.a[i]) && fle(lims.2, l.j[i])
            &&& p.segs[m].jerk.mag() <= l.j[i].mag()
            &&& p.d == fabs(fsub(q1[i], q0[i]))
            &&& p.sign.negative() == flt(fsub(q1[i], q0[i]), Scalar { bits: 0 })
        }),
{
    let d = fsub(q1[i], q0[i]);
    let x = moved(n, limits, q0, q1, l, cbrt)->Ok_0;
    let p = x.profiles[i];
    let tmax = slowest(q0, q1, l, cbrt, n);
    let own = own_move(q0, q1, l, cbrt, i);
    let lims = if p == own {
        (l.v[i], l.a[i], l.j[i])
    } else {
        law_stretching_slows_down(d, tmax, l.v[i], l.a[i], l.j[i], cbrt)
    };
    lemma_plan_jerks(d, lims.0, lims.1, lims.2, cbrt, m);
    reveal(planned);
    reveal(built);
    lims
}

/// Every joint of a joint move is given the time that the slowest one needs, and no joint
/// needs more.
pub proof fn law_joint_moves_last_as_long_as_the_slowest(
    n: nat,
    limits: Seq<Option<(Scalar, Scalar)>>,
    q0: Seq<Scalar>,
    q1: Seq<Scalar>,
    l: LimitsV,
    cbrt: spec_fn(Scalar) -> Scalar,
    i: int,
)
    requires
        moved(n, limits, q0, q1, l, cbrt) is Ok,
        0 <= i < n,
        forall|k: int|
            0 <= k < n ==> !total_of(planned(fsub(#[trigger] q1[k], q0[k]), l.v[k], l.a[k], l.j[k], cbrt)).nan(),
        !flt(slowest(q0, q1, l, cbrt, n), Scalar { bits: NANO_BITS }),
    ensures
        ({
            let x = moved(n, limits, q0, q1, l, cbrt)->Ok_0;
            fle(
                total_of(planned(fsub(q1[i], q0[i]), l.v[i], l.a[i], l.j[i], cbrt)),
                x.duration,
            )
        }),
{
    lemma_slowest(q0, q1, l, cbrt, n, i);
}

proof fn lemma_slowest(
    q0: Seq<Scalar>,
    q1: Seq<Scalar>,
    l: LimitsV,
    cbrt: spec_fn(Scalar) -> Scalar,
    n: nat,
    i: int,
)
    requires
        0 <= i < n,
        forall|k: int|
            0 <= k < n ==> !total_of(planned(fsub(#[trigger] q1[k], q0[k]), l.v[k], l.a[k], l.j[k], cbrt)).nan(),
    ensures
        fle(total_of(own_move(q0, q1, l, cbrt, i)), slowest(q0, q1, l, cbrt, n)),
    decreases n,
{
    assert(!total_of(planned(fsub(q1[n - 1], q0[n - 1]), l.v[n - 1], l.a[n - 1], l.j[n - 1], cbrt)).nan());
    assert(slowest(q0, q1, l, cbrt, 0) == (Scalar { bits: 0 }));
    if n > 1 {
        lemma_slowest(q0, q1, l, cbrt, (n - 1) as nat, if i < n - 1 {
            i
        } else {
            0
        });
    }
}

/// A joint move between configurations within the limits is not refused; one from or to a
/// configuration that is outside by more than a rounding error is.
pub proof fn law_moves_outside_the_limits_are_refused(
    n: nat,
    limits: Seq<Option<(Scalar, Scalar)>>,
    q0: Seq<Scalar>,
    q1: Seq<Scalar>,
    l: LimitsV,
    cbrt: spec_fn(Scalar) -> Scalar,
)
    requires
        q0.len() == n && q1.len() == n && l.v.len() == n && limits.len() == n,
        forall|i: int|
            0 <= i < n ==> match #[trigger] limits[i] {
                Some((lo, hi)) => lo.finite() && hi.finite(),
                None => true,
            },
    ensures
        (forall|i: int|
            0 <= i < n ==> match #[trigger] limits[i] {
                Some((lo, hi)) => fle(lo, q0[i]) && fle(q0[i], hi) && fle(lo, q1[i]) && fle(q1[i], hi),
                None => true,
            }) ==> moved(n, limits, q0, q1, l, cbrt) is Ok,
        (exists|i: int|
            0 <= i < n && match #[trigger] limits[i] {
                Some((lo, hi)) => flt(q0[i], fsub(lo, Scalar { bits: NANO_BITS })) || flt(
                    fadd(hi, Scalar { bits: NANO_BITS }),
                    q0[i],
                ) || flt(q1[i], fsub(lo, Scalar { bits: NANO_BITS })) || flt(
                    fadd(hi, Scalar { bits: NANO_BITS }),
                    q1[i],
                ),
                None => false,
            }) ==> moved(n, limits, q0, q1, l, cbrt) matches Err(MotionError::OutOfLimits(_)),
{
    lemma_first_outside(limits, q0, q1, 0);
}

proof fn lemma_first_outside(
    limits: Seq<Option<(Scalar, Scalar)>>,
    q0: Seq<Scalar>,
    q1: Seq<Scalar>,
    from: int,
)
    requires
        0 <= from <= limits.len(),
        forall|i: int|
            0 <= i < limits.len() ==> match #[trigger] limits[i] {
                Some((lo, hi)) => lo.finite() && hi.finite(),
                None => true,
            },
    ensures
        (forall|i: int|
            from <= i < limits.len() ==> match #[trigger] limits[i] {
                Some((lo, hi)) => fle(lo, q0[i]) && fle(q0[i], hi) && fle(lo, q1[i]) && fle(q1[i], hi),
                None => true,
            }) ==> first_outside(limits, q0, q1, from) is None,
        (exists|i: int|
            from <= i < limits.len() && match #[trigger] limits[i] {
                Some((lo, hi)) => flt(q0[i], fsub(lo, Scalar { bits: NANO_BITS })) || flt(
                    fadd(hi, Scalar { bits: NANO_BITS }),
                    q0[i],
                ) || flt(q1[i], fsub(lo, Scalar { bits: NANO_BITS })) || flt(
                    fadd(hi, Scalar { bits: NANO_BITS }),
                    q1[i],
                ),
                None => false,
            }) ==> first_outside(limits, q0, q1, from) is Some,
    decreases limits.len() - from,
{
    if from < limits.len() {
        lemma_first_outside(limits, q0, q1, from + 1);
        match limits[from] {
            Some((lo, hi)) => {
                lemma_widened(lo, hi);
            },
            None => {},
        }
    }
}

/// Limits widened by a little are no narrower.
proof fn lemma_widened(lo: Scalar, hi: Scalar)
    requires
        lo.finite() && hi.finite(),
    ensures
        fle(fsub(lo, Scalar { bits: NANO_BITS }), lo),
        fle(hi, fadd(hi, Scalar { bits: NANO_BITS })),
{
    let e = Scalar { bits: NANO_BITS };
    let z = Scalar { bits: 0 };
    lemma_sum(hi, e);
    law_adding_does_not_shrink(hi, e);
    law_differences_reverse_order(lo, z, e);
    lemma_add_nothing(lo, fneg(z));
}

} // verus!
