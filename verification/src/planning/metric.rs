//! What distances between configurations measure, and where steps between them lead.

use vstd::prelude::*;

#[allow(unused_imports)]
use crate::planning::geometry::{distance, distance_sq, lerped, square_sum, steered};
#[allow(unused_imports)]
use crate::planning::rng::{between, law_units_are_below_one, unit_of};
#[allow(unused_imports)]
use crate::planning::star::{gamma_of, radius};
#[allow(unused_imports)]
use crate::scalar::consts::TWO_BITS;
#[allow(unused_imports)]
use crate::scalar::formula::{law_share_of_the_way, off_by, on_scale};
#[allow(unused_imports)]
use crate::scalar::near::{
    close, law_product_is_near, law_quotient_is_near, law_root_is_near, lemma_close_chain,
    lemma_close_scaled, size, unit,
};
#[allow(unused_imports)]
use crate::scalar::number::{fdiv, fle, flt, fmul, fneg, fsub, mag_units};
#[allow(unused_imports)]
use crate::scalar::order::{
    gap, law_sum_is_near, lemma_add_nothing, lemma_difference, lemma_gap, lemma_negated,
    lemma_no_sum_key, lemma_of_parts, lemma_times_nothing, ordinary, sum_key,
};
#[allow(unused_imports)]
use crate::scalar::root::fsqrt;
#[allow(unused_imports)]
use crate::scalar::rounding::to_mag;
#[allow(unused_imports)]
use crate::scalar::Scalar;
#[allow(unused_imports)]
use vstd::arithmetic::power2::pow2;

verus! {

/// A difference and the other way round have the same square.
proof fn lemma_same_square(a: Scalar, b: Scalar)
    requires
        a.finite() && b.finite(),
    ensures
        fmul(fsub(a, b), fsub(a, b)) == fmul(fsub(b, a), fsub(b, a)),
{
    let (d, e) = (fsub(a, b), fsub(b, a));
    lemma_difference(a, b);
    lemma_difference(b, a);
    let s = a.units() - b.units();
    crate::scalar::number::lemma_round_exact(0);
    assert(mag_units(0) == 0);
    assert(sum_key(-s) == -sum_key(s));
    assert(d.mag() == e.mag());
    reveal(fmul);
}

proof fn lemma_same_sum(a: Seq<Scalar>, b: Seq<Scalar>, n: nat)
    requires
        n <= a.len() && n <= b.len(),
        forall|i: int| 0 <= i < n ==> (#[trigger] a[i]).finite() && b[i].finite(),
    ensures
        square_sum(a, b, n) == square_sum(b, a, n),
    decreases n,
{
    if n > 0 {
        lemma_same_sum(a, b, (n - 1) as nat);
        assert(a[n - 1].finite());
        lemma_same_square(a[n - 1], b[n - 1]);
    }
}

/// It is as far there as back.
pub proof fn law_distance_is_symmetric(a: Seq<Scalar>, b: Seq<Scalar>)
    requires
        a.len() == b.len(),
        forall|i: int| 0 <= i < a.len() ==> (#[trigger] a[i]).finite() && b[i].finite(),
    ensures
        distance(a, b) == distance(b, a),
{
    lemma_same_sum(a, b, a.len());
}

/// The exact sum of the squared differences.
pub open spec fn exact_squares(a: Seq<Scalar>, b: Seq<Scalar>, n: nat) -> int
    decreases n,
{
    if n == 0 {
        0
    } else {
        let d = a[n - 1].units() - b[n - 1].units();
        exact_squares(a, b, (n - 1) as nat) + d * d
    }
}

/// A difference that is neither tiny nor beyond the scale, with its square, or none.
pub open spec fn fair_difference(a: Scalar, b: Scalar) -> bool {
    &&& a.finite() && b.finite()
    &&& (a.units() == b.units()) || (ordinary(fsub(a, b)) && ordinary(fmul(fsub(a, b), fsub(a, b))))
}

proof fn lemma_square_is_near(a: Scalar, b: Scalar)
    requires
        fair_difference(a, b),
    ensures
        ({
            let x = a.units() - b.units();
            let p = fmul(fsub(a, b), fsub(a, b));
            &&& close(x * x, size(p) * unit(), 5)
            &&& p.finite() && !p.negative()
        }),
{
    let d = fsub(a, b);
    let p = fmul(d, d);
    let x = a.units() - b.units();
    vstd::arithmetic::power2::lemma_pow2_pos(1074);
    lemma_difference(a, b);
    assert(mag_units(0) == 0);
    assert(!p.negative()) by {
        reveal(fmul);
        lemma_of_parts(false, to_mag(mag_units(d.mag()) * mag_units(d.mag()), pow2(1074)));
        assert(crate::scalar::number::nan_value().nan());
    }
    if x == 0 {
        lemma_no_sum_key();
        lemma_times_nothing(d, d);
        assert(0 * unit() == 0);
    } else {
        lemma_negated(b);
        law_sum_is_near(a, fneg(b));
        lemma_gap(d.mag());
        law_product_is_near(d, d);
        let (du, u) = (d.units(), unit());
        let (ax, ad) = (if x < 0 { -x } else { x }, size(d));
        assert(close(ax, ad, 1));
        lemma_close_scaled(ax, ad, 1, ax);
        lemma_close_scaled(ax, ad, 1, ad);
        assert(ad * ax == ax * ad && ax * ax == x * x && 0 <= ad * ad && 0 <= size(p) * u) by (nonlinear_arith)
            requires
                ax == x || ax == -x,
                size(p) >= 0,
                u > 0,
        ;
        lemma_close_chain(ax * ax, ad * ax, ad * ad, 1, 1);
        lemma_close_chain(ax * ax, ad * ad, size(p) * u, 3, 1);
    }
}

proof fn lemma_sum_of_squares(a: Seq<Scalar>, b: Seq<Scalar>, n: nat)
    requires
        n <= a.len() && n <= b.len(),
        n < 0x1000,
        forall|i: int| 0 <= i < n ==> fair_difference(#[trigger] a[i], b[i]),
        forall|k: nat| 0 < k <= n ==> (ordinary(#[trigger] square_sum(a, b, k)) || square_sum(a, b, k).mag() == 0),
    ensures
        close(exact_squares(a, b, n), size(square_sum(a, b, n)) * unit(), 5 + 2 * n as int),
        square_sum(a, b, n).finite(),
        !square_sum(a, b, n).negative() || square_sum(a, b, n).mag() == 0,
        exact_squares(a, b, n) >= 0,
    decreases n,
{
    let u = unit();
    vstd::arithmetic::power2::lemma_pow2_pos(1074);
    assert(mag_units(0) == 0);
    if n == 0 {
        assert(0 * u == 0);
    } else {
        let m = (n - 1) as nat;
        assert(forall|i: int| 0 <= i < m ==> fair_difference(#[trigger] a[i], b[i]));
        lemma_sum_of_squares(a, b, m);
        assert(fair_difference(a[n - 1], b[n - 1]));
        lemma_square_is_near(a[n - 1], b[n - 1]);
        let d = fsub(a[n - 1], b[n - 1]);
        let p = fmul(d, d);
        let s = square_sum(a, b, m);
        let r = square_sum(a, b, n);
        assert(ordinary(square_sum(a, b, n)) || square_sum(a, b, n).mag() == 0);
        let x = a[n - 1].units() - b[n - 1].units();
        let k = 5 + 2 * m as int;
        let (su, pu, ru) = (size(s), size(p), size(r));
        law_sum_is_near(s, p);
        assert(s.units() == su && p.units() == pu);
        let (e0, xx) = (exact_squares(a, b, m), x * x);
        assert(xx >= 0 && su * u >= 0 && pu * u >= 0 && ru * u >= 0 && (su + pu) * u == su * u + pu * u)
            by (nonlinear_arith)
            requires
                xx == x * x,
                u > 0 && su >= 0 && pu >= 0 && ru >= 0,
        ;
        if r.mag() == 0 {
            assert(gap(0) == 1);
            assert(su + pu == 0);
            assert(0 * u == 0);
        } else {
            lemma_gap(r.mag());
            assert(!r.negative());
            assert(close(su + pu, ru, 1));
            lemma_close_scaled(su + pu, ru, 1, u);
            assert(close(e0 + xx, (su + pu) * u, k)) by {
                assert(-(k * (su * u)) <= (e0 - su * u) * 0x1_0000_0000_0000 <= k * (su * u));
                assert(k * (pu * u) >= 5 * (pu * u) && k * ((su + pu) * u) == k * (su * u) + k * (pu * u))
                    by (nonlinear_arith)
                    requires
                        k >= 5,
                        pu * u >= 0,
                        (su + pu) * u == su * u + pu * u,
                ;
            }
            lemma_close_chain(e0 + xx, (su + pu) * u, ru * u, k, 1);
        }
    }
}

/// The distance is the root of the exact sum of the squared differences, up to rounding.
pub proof fn law_distance_is_euclidean(a: Seq<Scalar>, b: Seq<Scalar>)
    requires
        a.len() == b.len(),
        a.len() < 0x1000,
        forall|i: int| 0 <= i < a.len() ==> fair_difference(#[trigger] a[i], b[i]),
        forall|k: nat| 0 < k <= a.len() ==> (ordinary(#[trigger] square_sum(a, b, k)) || square_sum(a, b, k).mag() == 0),
        distance_sq(a, b).mag() > 0,
    ensures
        close(
            exact_squares(a, b, a.len()),
            size(distance(a, b)) * size(distance(a, b)),
            7 + 2 * a.len() as int,
        ),
{
    let n = a.len();
    lemma_sum_of_squares(a, b, n);
    let s = distance_sq(a, b);
    law_root_is_near(s);
    let r = size(distance(a, b));
    assert(0 <= r * r) by (nonlinear_arith);
    lemma_close_chain(exact_squares(a, b, n), size(s) * unit(), r * r, 5 + 2 * n as int, 1);
}

/// Nothing apart, no distance.
pub proof fn law_same_place_has_no_distance(a: Seq<Scalar>, n: nat)
    requires
        n <= a.len(),
        forall|i: int| 0 <= i < n ==> (#[trigger] a[i]).finite(),
    ensures
        square_sum(a, a, n).mag() == 0,
        n == a.len() ==> distance(a, a).mag() == 0,
    decreases n,
{
    if n > 0 {
        law_same_place_has_no_distance(a, (n - 1) as nat);
        let x = a[n - 1];
        assert(x.finite());
        lemma_difference(x, x);
        lemma_no_sum_key();
        assert(x.units() - x.units() == 0);
        let d = fsub(x, x);
        lemma_times_nothing(d, d);
        lemma_add_nothing(square_sum(a, a, (n - 1) as nat), fmul(d, d));
    }
    reveal(fsqrt);
}

/// A point at a share of the way between two is there in every joint: in exact numbers, up to
/// the steps between those on the way.
pub proof fn law_lines_are_straight(a: Seq<Scalar>, b: Seq<Scalar>, t: Scalar, i: int)
    requires
        0 <= i < a.len(),
        a.len() == b.len(),
        a[i].finite() && b[i].finite() && fsub(b[i], a[i]).finite(),
        on_scale(fsub(b[i], a[i]), t),
        lerped(a, b, t)[i].finite(),
    ensures
        ({
            let d = fsub(b[i], a[i]);
            let r = lerped(a, b, t)[i];
            off_by(
                r.units() * unit(),
                a[i].units() * unit() + (b[i].units() - a[i].units()) * t.units(),
                (gap(r.mag()) + gap(fmul(d, t).mag())) * unit() + gap(d.mag()) * size(t),
            )
        }),
{
    law_share_of_the_way(a[i], b[i], a[i], t);
}

/// A step toward a configuration ends there where it is near enough; else it ends on the
/// straight line, at the share of the way that the step is of the distance, up to rounding.
pub proof fn law_steps_lead_toward_the_goal(from: Seq<Scalar>, to: Seq<Scalar>, step: Scalar, i: int)
    requires
        from.len() == to.len(),
        0 <= i < from.len(),
        step.finite() && !step.negative(),
        distance(from, to).finite() && flt(Scalar { bits: 0 }, distance(from, to)),
        from[i].finite() && to[i].finite() && fsub(to[i], from[i]).finite(),
    ensures
        fle(distance(from, to), step) ==> steered(from, to, step) == to,
        !fle(distance(from, to), step) ==> {
            let d = fsub(to[i], from[i]);
            let t = fdiv(step, distance(from, to));
            let r = steered(from, to, step)[i];
            ordinary(t) && on_scale(d, t) && r.finite() ==> {
                &&& close(size(step) * unit(), size(t) * size(distance(from, to)), 1)
                &&& !t.negative()
                &&& off_by(
                    r.units() * unit(),
                    from[i].units() * unit() + (to[i].units() - from[i].units()) * t.units(),
                    (gap(r.mag()) + gap(fmul(d, t).mag())) * unit() + gap(d.mag()) * size(t),
                )
            }
        },
{
    let dist = distance(from, to);
    let t = fdiv(step, dist);
    let d = fsub(to[i], from[i]);
    if !fle(dist, step) && ordinary(t) && on_scale(d, t) && steered(from, to, step)[i].finite() {
        law_quotient_is_near(step, dist);
        law_share_of_the_way(from[i], to[i], from[i], t);
    }
}

/// A number drawn between two bounds is at some share of the way between them.
pub proof fn law_draws_are_between(s: u64, lo: Scalar, hi: Scalar)
    requires
        lo.finite() && hi.finite() && fsub(hi, lo).finite(),
        on_scale(fsub(hi, lo), unit_of(s)),
        between(s, lo, hi).finite(),
    ensures
        ({
            let d = fsub(hi, lo);
            let t = unit_of(s);
            let r = between(s, lo, hi);
            &&& 0 <= t.units() < unit()
            &&& off_by(
                r.units() * unit(),
                lo.units() * unit() + (hi.units() - lo.units()) * t.units(),
                (gap(r.mag()) + gap(fmul(d, t).mag())) * unit() + gap(d.mag()) * size(t),
            )
        }),
{
    law_units_are_below_one(s);
    law_share_of_the_way(lo, hi, lo, unit_of(s));
    let t = unit_of(s);
    let m = crate::scalar::consts::ONE_BITS as nat;
    vstd::arithmetic::power2::lemma2_to64();
    vstd::arithmetic::power2::lemma2_to64_rest();
    vstd::arithmetic::power2::lemma_pow2_adds(52, 1022);
    assert(mag_units(m) == unit());
    assert(mag_units(0) == 0);
    crate::scalar::order::lemma_units_monotone(t.mag(), m);
    crate::scalar::number::lemma_round_exact(t.mag());
    crate::scalar::number::lemma_round_exact(m);
}

/// New nodes are wired to others that are no farther than a step, and not at all where there
/// is but one; the constant of the radius is at least twice a step.
pub proof fn law_radii_are_capped(
    bounds: Seq<(Scalar, Scalar)>,
    gamma: Scalar,
    step: Scalar,
    n: nat,
    ln: spec_fn(Scalar) -> Scalar,
    pow: spec_fn(Scalar, Scalar) -> Scalar,
)
    requires
        step.finite() && fle(Scalar { bits: 0 }, step),
        !fmul(Scalar { bits: TWO_BITS }, step).nan(),
    ensures
        fle(radius(gamma, step, n, bounds.len(), ln, pow), step),
        n <= 1 ==> radius(gamma, step, n, bounds.len(), ln, pow).mag() == 0,
        fle(fmul(Scalar { bits: TWO_BITS }, step), gamma_of(bounds, step, pow)),
{
}

} // verus!
