//! What a step of the search does, and what pulls a redundant arm.

use vstd::prelude::*;

#[allow(unused_imports)]
use crate::hal::backend::all_finite;
#[allow(unused_imports)]
use crate::ik::redundancy::pull;
#[allow(unused_imports)]
use crate::ik::solve::{
    attempted, boxed, damping, largest, law_solution_reaches_target, ranges_of, solved, stepped,
    ArmV, IkOpts,
};
#[allow(unused_imports)]
use crate::kinematics::singular::product;
#[allow(unused_imports)]
use crate::scalar::consts::{HALF_BITS, ONE_BITS};
#[allow(unused_imports)]
use crate::scalar::convert::fclamp;
#[allow(unused_imports)]
use crate::scalar::near::{close, law_product_is_near, law_quotient_is_near, size, unit};
#[allow(unused_imports)]
use crate::scalar::number::{
    fabs, fadd, fdiv, feq, fle, flt, fmul, fneg, fsub, mag_units, of_parts,
};
#[allow(unused_imports)]
use crate::scalar::order::{
    gap, law_products_commute, law_products_keep_order, law_sum_is_near, lemma_absolute,
    lemma_absolute_product, lemma_difference, lemma_key_units, lemma_less_nothing,
    lemma_nothing_over, lemma_signed, lemma_units_monotone, ordinary,
};
#[allow(unused_imports)]
use crate::scalar::vec3::vnorm;
#[allow(unused_imports)]
use crate::scalar::Scalar;

verus! {

proof fn lemma_largest(s: Seq<Scalar>, n: nat, i: int)
    requires
        0 <= i < n <= s.len(),
        forall|k: int| 0 <= k < n ==> (#[trigger] s[k]).finite(),
    ensures
        fle(fabs(s[i]), largest(s, n)),
        largest(s, n).finite() && !largest(s, n).negative(),
    decreases n,
{
    assert(s[n - 1].finite());
    lemma_absolute(s[n - 1]);
    assert(s[0].finite());
    lemma_absolute(s[0]);
    if n > 1 {
        lemma_largest(s, (n - 1) as nat, 0);
        if i < n - 1 {
            lemma_largest(s, (n - 1) as nat, i);
        }
    }
}

/// What is clamped into an interval that holds `q` is no farther from `q`.
proof fn lemma_clamp_is_nearer(x: Scalar, q: Scalar, lo: Scalar, hi: Scalar)
    requires
        x.finite() && q.finite() && lo.finite() && hi.finite(),
        fle(lo, q) && fle(q, hi),
    ensures
        ({
            let c = fclamp(x, lo, hi);
            &&& c.finite()
            &&& (x.units() <= c.units() <= q.units()) || (q.units() <= c.units() <= x.units())
        }),
{
    lemma_key_units(lo, q);
    lemma_key_units(q, hi);
    if flt(x, lo) {
        lemma_key_units(x, lo);
    } else if flt(hi, x) {
        lemma_key_units(hi, x);
    } else {
        if x.key() <= q.key() {
            lemma_key_units(x, q);
        } else {
            lemma_key_units(q, x);
        }
    }
}

/// A step that is short enough is taken as it is, into the limits.
pub proof fn law_short_steps_are_taken(
    q: Seq<Scalar>,
    dq: Seq<Scalar>,
    limit: Scalar,
    b: Seq<(Scalar, Scalar)>,
    i: int,
)
    requires
        0 <= i < q.len(),
        !flt(limit, largest(dq, dq.len())),
        fle(b[i].0, fadd(q[i], dq[i])) && fle(fadd(q[i], dq[i]), b[i].1),
    ensures
        stepped(q, dq, limit, b)[i] == fadd(q[i], dq[i]),
{
}

/// No joint moves farther in a step than the clamp allows, up to rounding, and none leaves its
/// limits.
pub proof fn law_steps_are_clamped(
    q: Seq<Scalar>,
    dq: Seq<Scalar>,
    limit: Scalar,
    b: Seq<(Scalar, Scalar)>,
    i: int,
)
    requires
        0 <= i < q.len(),
        q.len() == dq.len(),
        forall|k: int| 0 <= k < dq.len() ==> (#[trigger] dq[k]).finite(),
        q[i].finite() && b[i].0.finite() && b[i].1.finite(),
        fle(b[i].0, q[i]) && fle(q[i], b[i].1),
        limit.finite() && flt(Scalar { bits: 0 }, limit),
        ({
            let m = largest(dq, dq.len());
            let s = fdiv(limit, m);
            flt(limit, m) ==> ordinary(s) && ordinary(fmul(m, s)) && fadd(q[i], fmul(dq[i], s)).finite()
        }),
        fadd(q[i], dq[i]).finite(),
    ensures
        ({
            let out = stepped(q, dq, limit, b)[i];
            let m = largest(dq, dq.len());
            let x = if flt(limit, m) {
                fmul(dq[i], fdiv(limit, m))
            } else {
                dq[i]
            };
            let moved = out.units() - q[i].units();
            let b48: int = 0x1_0000_0000_0000;
            let most = size(limit) * (b48 + 3) + gap(fadd(q[i], x).mag()) * b48;
            &&& fle(b[i].0, out) && fle(out, b[i].1)
            &&& -most <= moved * b48 <= most
        }),
{
    let n = dq.len();
    let m = largest(dq, n);
    lemma_largest(dq, n, i);
    assert(dq[i].finite());
    lemma_absolute(dq[i]);
    let s = fdiv(limit, m);
    let x = if flt(limit, m) {
        fmul(dq[i], s)
    } else {
        dq[i]
    };
    let u = unit();
    vstd::arithmetic::power2::lemma_pow2_pos(1074);
    assert(mag_units(0) == 0);
    assert(size(x) * 0x1_0000_0000_0000 <= size(limit) * 0x1_0000_0000_0003 && x.finite()) by {
        if flt(limit, m) {
            law_quotient_is_near(limit, m);
            law_product_is_near(m, s);
            let top = fmul(m, s);
            lemma_absolute(s);
            lemma_absolute_product(dq[i], s);
            lemma_absolute(x);
            law_products_keep_order(fabs(dq[i]), m, s);
            assert(fabs(s) == s);
            lemma_units_monotone(x.mag(), top.mag());
            let (lu, mu, su, tu) = (size(limit), size(m), size(s), size(top));
            let (lu2, ms) = (lu * u, mu * su);
            assert(su * mu == ms) by (nonlinear_arith)
                requires
                    ms == mu * su,
            ;
            assert(tu * u * 0x1_0000_0000_0000 <= lu2 * 0x1_0000_0000_0003) by {
                assert(close(lu2, ms, 1) && close(ms, tu * u, 1));
            }
            assert(tu * 0x1_0000_0000_0000 <= lu * 0x1_0000_0000_0003) by (nonlinear_arith)
                requires
                    tu * u * 0x1_0000_0000_0000 <= lu2 * 0x1_0000_0000_0003,
                    lu2 == lu * u,
                    u > 0,
            ;
        } else {
            lemma_units_monotone(dq[i].mag(), limit.mag());
        }
    }
    law_sum_is_near(q[i], x);
    let y = fadd(q[i], x);
    lemma_clamp_is_nearer(y, q[i], b[i].0, b[i].1);
}

/// An arm that can move well is damped by the floor alone, and one that is stuck by the most
/// there is.
pub proof fn law_damping_grows_with_the_lack(
    sv: Seq<Scalar>,
    most: Scalar,
    floor: Scalar,
    thresh: Scalar,
)
    requires
        most.finite() && fle(Scalar { bits: 0 }, most),
        floor.finite() && fle(Scalar { bits: 0 }, floor),
        thresh.finite() && flt(Scalar { bits: 0 }, thresh),
    ensures
        fle(thresh, product(sv, sv.len())) ==> feq(damping(sv, most, floor, thresh), floor),
        product(sv, sv.len()).mag() == 0 ==> feq(
            damping(sv, most, floor, thresh),
            if fle(floor, most) {
                most
            } else {
                floor
            },
        ),
{
    let one = Scalar { bits: ONE_BITS };
    let w = product(sv, sv.len());
    if w.mag() == 0 {
        let r = fdiv(w, thresh);
        lemma_nothing_over(w, thresh);
        let lack = fsub(one, r);
        lemma_difference(one, r);
        assert(mag_units(0) == 0);
        lemma_less_nothing(one);
        lemma_difference(one, Scalar { bits: 0 });
        assert(lack.key() == one.key());
        assert(lack == one);
        crate::scalar::order::lemma_ones();
        assert(of_parts(false, ONE_BITS as nat) == one);
        lemma_signed(false, most);
        law_products_commute(most, one);
    }
}

/// A joint is pulled back to the middle of its range, by how far it is off against the square
/// of the range, up to rounding; in the middle it is not pulled.
pub proof fn law_joints_are_pulled_to_the_middle(lo: Scalar, hi: Scalar, q: Scalar)
    requires
        flt(lo, hi),
        lo.finite() && hi.finite() && q.finite(),
        ({
            let mid = fmul(Scalar { bits: HALF_BITS }, fadd(lo, hi));
            let range = fsub(hi, lo);
            let sq = fmul(range, range);
            &&& mid.finite() && range.finite() && sq.finite() && sq.mag() > 0
            &&& fsub(q, mid).finite()
        }),
    ensures
        ({
            let mid = fmul(Scalar { bits: HALF_BITS }, fadd(lo, hi));
            let off = fsub(q, mid);
            let range = fsub(hi, lo);
            let sq = fmul(range, range);
            let p = pull(Some((lo, hi)), q);
            &&& off.mag() == 0 ==> p.mag() == 0
            &&& ordinary(p) ==> {
                &&& p.negative() == flt(mid, q)
                &&& close(size(off) * unit(), size(p) * size(sq), 1)
            }
        }),
{
    let mid = fmul(Scalar { bits: HALF_BITS }, fadd(lo, hi));
    let off = fsub(q, mid);
    let range = fsub(hi, lo);
    let sq = fmul(range, range);
    let p = pull(Some((lo, hi)), q);
    assert(fneg(off).mag() == off.mag());
    if off.mag() == 0 {
        lemma_nothing_over(fneg(off), sq);
    }
    assert(!sq.negative()) by {
        reveal(fmul);
        crate::scalar::order::lemma_of_parts(
            false,
            crate::scalar::rounding::to_mag(
                mag_units(range.mag()) * mag_units(range.mag()),
                vstd::arithmetic::power2::pow2(1074),
            ),
        );
    }
    if ordinary(p) {
        law_quotient_is_near(fneg(off), sq);
        assert(off.mag() > 0) by {
            if off.mag() == 0 {
                lemma_nothing_over(fneg(off), sq);
            }
        }
        lemma_difference(q, mid);
        crate::scalar::number::lemma_round_exact(0);
        assert(mag_units(0) == 0);
        if mid.key() < q.key() {
            lemma_key_units(mid, q);
        } else {
            lemma_key_units(q, mid);
        }
    }
}

/// A solution that is given as one is within the tolerances of position and of rotation.
pub proof fn law_solutions_are_close(
    a: ArmV,
    limits: Seq<Option<(Scalar, Scalar)>>,
    seed: Seq<Scalar>,
    o: IkOpts,
)
    ensures
        solved(a, limits, seed, o) matches Some(r) ==> (r.success ==> flt(
            vnorm((a.error)(r.q).lin),
            o.tol_pos,
        ) && flt(vnorm((a.error)(r.q).ang), o.tol_rot)),
{
    law_solution_reaches_target(a, limits, seed, o);
}

/// A seed within the limits that is close enough is the solution.
pub proof fn law_good_seeds_are_solutions(
    a: ArmV,
    limits: Seq<Option<(Scalar, Scalar)>>,
    seed: Seq<Scalar>,
    o: IkOpts,
)
    requires
        seed.len() == limits.len(),
        o.max_iters > 0,
        all_finite(seed),
        forall|i: int|
            0 <= i < seed.len() ==> fle(ranges_of(limits)[i].0, #[trigger] seed[i]) && fle(
                seed[i],
                ranges_of(limits)[i].1,
            ),
        flt(vnorm((a.error)(seed).lin), o.tol_pos) && flt(vnorm((a.error)(seed).ang), o.tol_rot),
    ensures
        solved(a, limits, seed, o) matches Some(r) && r.success && r.q == seed && r.iters == 0,
{
    let b = ranges_of(limits);
    assert(boxed(seed, b) =~= seed);
    assert(attempted(a, seed, b, o, 0, 0).success);
}

} // verus!
