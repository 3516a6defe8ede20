//! What damping near a singularity does to a commanded motion.

use vstd::prelude::*;

#[allow(unused_imports)]
use crate::kinematics::singular::{
    damping, governed, kept, leading, oriented, raw_axis, twist_dot, twist_plus, SingularityParams,
    Twist,
};
#[allow(unused_imports)]
use crate::scalar::consts::ONE_BITS;
#[allow(unused_imports)]
use crate::scalar::formula::{
    is_difference, is_quotient, is_sum, is_times, law_multiply_add, lemma_is_difference,
    lemma_is_quotient, lemma_is_times, off_by, on_scale,
};
#[allow(unused_imports)]
use crate::scalar::near::{close, law_root_is_near, size, unit};
#[allow(unused_imports)]
use crate::scalar::number::{fadd, fdiv, fle, flt, fmul, fneg, fsub, mag_units};
#[allow(unused_imports)]
use crate::scalar::order::{
    gap, law_adding_does_not_shrink, law_quotients_keep_order, law_sum_is_near, lemma_negated,
    lemma_over_itself,
};
#[allow(unused_imports)]
use crate::scalar::root::fsqrt;
#[allow(unused_imports)]
use crate::scalar::rounding::INF_MAG;
#[allow(unused_imports)]
use crate::scalar::vec3::{vnorm, Vec3};
#[allow(unused_imports)]
use crate::scalar::Scalar;

verus! {

/// Below the threshold the damping is the square of the largest, times what the square of the
/// share of the threshold leaves of one.
pub proof fn law_damping_follows_the_square(p: SingularityParams, sigma_min: Scalar) -> (by: (
    Scalar,
    Scalar,
    Scalar,
    Scalar,
))
    requires
        flt(sigma_min, p.eps_activate),
        p.eps_activate.finite() && p.eps_activate.mag() > 0,
        sigma_min.finite(),
        fdiv(sigma_min, p.eps_activate).mag() + 1 < INF_MAG,
        on_scale(fdiv(sigma_min, p.eps_activate), fdiv(sigma_min, p.eps_activate)),
        on_scale(p.lambda_max, p.lambda_max),
        ({
            let r = fdiv(sigma_min, p.eps_activate);
            let left = fsub(Scalar { bits: ONE_BITS }, fmul(r, r));
            left.finite() && on_scale(fmul(p.lambda_max, p.lambda_max), left)
        }),
    ensures
        ({
            let (share, squared, left, most) = by;
            &&& is_quotient(share, sigma_min, p.eps_activate)
            &&& is_times(squared, share, share)
            &&& is_difference(left, Scalar { bits: ONE_BITS }, squared)
            &&& is_times(most, p.lambda_max, p.lambda_max)
            &&& is_times(damping(p, sigma_min), most, left)
        }),
{
    let one = Scalar { bits: ONE_BITS };
    let r = fdiv(sigma_min, p.eps_activate);
    let squared = fmul(r, r);
    let left = fsub(one, squared);
    let most = fmul(p.lambda_max, p.lambda_max);
    lemma_is_quotient(sigma_min, p.eps_activate);
    lemma_is_times(r, r);
    lemma_is_difference(one, squared);
    lemma_is_times(p.lambda_max, p.lambda_max);
    lemma_is_times(most, left);
    (r, squared, left, most)
}

/// While a singularity comes closer, of the motion along a direction the square of its
/// singular value is kept, out of that square and the damping together.
pub proof fn law_weak_directions_are_damped(s: Scalar, lambda2: Scalar) -> (by: (Scalar, Scalar))
    requires
        on_scale(s, s),
        lambda2.finite() && fle(Scalar { bits: 0 }, lambda2),
        fadd(fmul(s, s), lambda2).finite(),
        fadd(fmul(s, s), lambda2).mag() > 0,
        kept(s, lambda2, true).mag() + 1 < INF_MAG,
    ensures
        ({
            let (squared, whole) = by;
            &&& is_times(squared, s, s)
            &&& is_sum(whole, squared, lambda2)
            &&& is_quotient(kept(s, lambda2, true), squared, whole)
        }),
{
    let squared = fmul(s, s);
    let whole = fadd(squared, lambda2);
    lemma_is_times(s, s);
    law_sum_is_near(squared, lambda2);
    lemma_is_quotient(squared, whole);
    (squared, whole)
}

/// No direction is sped up.
pub proof fn law_nothing_is_sped_up(s: Scalar, lambda2: Scalar, approaching: bool)
    requires
        on_scale(s, s),
        fle(Scalar { bits: 0 }, fmul(s, s)),
        lambda2.finite() && fle(Scalar { bits: 0 }, lambda2),
        fadd(fmul(s, s), lambda2).finite(),
        flt(Scalar { bits: 0 }, fadd(fmul(s, s), lambda2)),
    ensures
        fle(kept(s, lambda2, approaching), Scalar { bits: ONE_BITS }),
{
    if approaching {
        let squared = fmul(s, s);
        let whole = fadd(squared, lambda2);
        law_adding_does_not_shrink(squared, lambda2);
        law_quotients_keep_order(squared, whole, whole);
        lemma_over_itself(whole);
    }
}

/// The six numbers of a motion.
pub open spec fn lane(t: Twist, j: int) -> Scalar {
    if j == 0 {
        t.lin.x
    } else if j == 1 {
        t.lin.y
    } else if j == 2 {
        t.lin.z
    } else if j == 3 {
        t.ang.x
    } else if j == 4 {
        t.ang.y
    } else {
        t.ang.z
    }
}

/// The first products of two motions, added up.
pub open spec fn dot_part(a: Twist, b: Twist, k: nat) -> Scalar
    decreases k,
{
    if k == 0 {
        Scalar { bits: 0 }
    } else {
        fadd(dot_part(a, b, (k - 1) as nat), fmul(lane(a, k - 1), lane(b, k - 1)))
    }
}

/// The exact sum of the products.
pub open spec fn exact_dot(a: Twist, b: Twist, k: nat) -> int
    decreases k,
{
    if k == 0 {
        0
    } else {
        exact_dot(a, b, (k - 1) as nat) + lane(a, k - 1).units() * lane(b, k - 1).units()
    }
}

/// How coarse the numbers are that the sum runs through.
pub open spec fn dot_steps(a: Twist, b: Twist, k: nat) -> int
    decreases k,
{
    if k == 0 {
        0
    } else {
        dot_steps(a, b, (k - 1) as nat) + gap(dot_part(a, b, k).mag()) + gap(
            fmul(lane(a, k - 1), lane(b, k - 1)).mag(),
        )
    }
}

/// All numbers stay on the scale while two motions are multiplied.
pub open spec fn dot_on_scale(a: Twist, b: Twist) -> bool {
    &&& forall|k: int| 0 <= k < 6 ==> on_scale(#[trigger] lane(a, k), lane(b, k))
    &&& forall|k: nat| k <= 6 ==> (#[trigger] dot_part(a, b, k)).finite()
}

proof fn lemma_dot(a: Twist, b: Twist, k: nat)
    requires
        dot_on_scale(a, b),
        k <= 6,
    ensures
        off_by(
            dot_part(a, b, k).units() * unit(),
            exact_dot(a, b, k),
            dot_steps(a, b, k) * unit(),
        ),
    decreases k,
{
    let u = unit();
    assert(mag_units(0) == 0);
    assert(0 * u == 0);
    if k > 0 {
        let j = (k - 1) as nat;
        lemma_dot(a, b, j);
        assert(dot_part(a, b, j).finite() && dot_part(a, b, k).finite());
        assert(on_scale(lane(a, k - 1), lane(b, k - 1)));
        law_multiply_add(dot_part(a, b, j), lane(a, k - 1), lane(b, k - 1));
        let (s, g, h) = (
            dot_steps(a, b, j),
            gap(dot_part(a, b, k).mag()),
            gap(fmul(lane(a, k - 1), lane(b, k - 1)).mag()),
        );
        assert((s + g + h) * u == s * u + (g + h) * u) by (nonlinear_arith);
    }
}

/// How much of one motion is along another is the sum of the products of all six of their
/// numbers, up to the steps between the numbers on the way.
pub proof fn law_all_six_numbers_count(a: Twist, b: Twist)
    requires
        dot_on_scale(a, b),
    ensures
        off_by(
            twist_dot(a, b).units() * unit(),
            a.lin.x.units() * b.lin.x.units() + a.lin.y.units() * b.lin.y.units() + a.lin.z.units()
                * b.lin.z.units() + a.ang.x.units() * b.ang.x.units() + a.ang.y.units()
                * b.ang.y.units() + a.ang.z.units() * b.ang.z.units(),
            dot_steps(a, b, 6) * unit(),
        ),
{
    reveal_with_fuel(dot_part, 7);
    reveal_with_fuel(exact_dot, 7);
    assert(twist_dot(a, b) == dot_part(a, b, 6));
    lemma_dot(a, b, 6);
}

/// Along each direction, the motion that is let through gains the direction itself, as often
/// as the commanded motion is along it, times the share that is kept.
pub proof fn law_each_direction_is_let_through(
    p: SingularityParams,
    v: Twist,
    u: Seq<Twist>,
    s: Seq<Scalar>,
    prev: Scalar,
    k: nat,
    j: int,
) -> (amount: Scalar)
    requires
        0 <= j < 6,
        lane(governed(p, v, u, s, prev, k), j).finite(),
        lane(governed(p, v, u, s, prev, k + 1), j).finite(),
        ({
            let g = kept(s[k as int], damping(p, s.last()), flt(s.last(), prev));
            let d = twist_dot(u[k as int], v);
            on_scale(d, g) && on_scale(fmul(d, g), lane(u[k as int], j))
        }),
    ensures
        is_times(
            amount,
            twist_dot(u[k as int], v),
            kept(s[k as int], damping(p, s.last()), flt(s.last(), prev)),
        ),
        ({
            let before = lane(governed(p, v, u, s, prev, k), j);
            let after = lane(governed(p, v, u, s, prev, k + 1), j);
            let x = lane(u[k as int], j);
            off_by(
                after.units() * unit(),
                before.units() * unit() + amount.units() * x.units(),
                (gap(after.mag()) + gap(fmul(amount, x).mag())) * unit(),
            )
        }),
{
    let g = kept(s[k as int], damping(p, s.last()), flt(s.last(), prev));
    let d = twist_dot(u[k as int], v);
    let amount = fmul(d, g);
    let before = governed(p, v, u, s, prev, k);
    lemma_is_times(d, g);
    law_multiply_add(lane(before, j), amount, lane(u[k as int], j));
    assert(governed(p, v, u, s, prev, k + 1) == twist_plus(before, amount, u[k as int]));
    amount
}

/// The radius of an axis squares to its value, and is nothing where the value is not positive.
pub proof fn law_radii_are_roots(value: Scalar, dir: Vec3)
    requires
        value.finite(),
    ensures
        flt(Scalar { bits: 0 }, value) ==> close(
            size(value) * unit(),
            size(raw_axis(value, dir).radius) * size(raw_axis(value, dir).radius),
            1,
        ),
        fle(value, Scalar { bits: 0 }) ==> raw_axis(value, dir).radius.mag() == 0,
        raw_axis(value, dir).dir == dir,
{
    if flt(Scalar { bits: 0 }, value) {
        law_root_is_near(value);
    } else {
        reveal(fsqrt);
    }
}

/// A direction points to where its largest number, by size, is positive, and its numbers are
/// those that it is made of over their length, all with the same sign kept or turned.
pub proof fn law_directions_point_forward(v: Vec3) -> (turned: bool)
    requires
        v.x.finite() && v.y.finite() && v.z.finite(),
        vnorm(v).finite() && flt(Scalar { bits: 0 }, vnorm(v)),
        fdiv(v.x, vnorm(v)).mag() + 1 < INF_MAG,
        fdiv(v.y, vnorm(v)).mag() + 1 < INF_MAG,
        fdiv(v.z, vnorm(v)).mag() + 1 < INF_MAG,
    ensures
        ({
            let o = oriented(v);
            let (x, y, z) = if turned {
                (fneg(o.x), fneg(o.y), fneg(o.z))
            } else {
                (o.x, o.y, o.z)
            };
            &&& is_quotient(x, v.x, vnorm(v)) && is_quotient(y, v.y, vnorm(v)) && is_quotient(
                z,
                v.z,
                vnorm(v),
            )
            &&& exists|m: Scalar|
                #![trigger m.mag()]
                (m == o.x || m == o.y || m == o.z) && fle(Scalar { bits: 0 }, m) && m.mag() >= o.x.mag()
                    && m.mag() >= o.y.mag() && m.mag() >= o.z.mag()
        }),
{
    let n = vnorm(v);
    lemma_is_quotient(v.x, n);
    lemma_is_quotient(v.y, n);
    lemma_is_quotient(v.z, n);
    let u = Vec3 { x: fdiv(v.x, n), y: fdiv(v.y, n), z: fdiv(v.z, n) };
    let o = oriented(v);
    let turned = flt(leading(u), Scalar { bits: 0 });
    lemma_negated(u.x);
    lemma_negated(u.y);
    lemma_negated(u.z);
    let l = leading(u);
    assert(l.mag() >= u.x.mag() && l.mag() >= u.y.mag() && l.mag() >= u.z.mag());
    let m = if turned {
        fneg(l)
    } else {
        l
    };
    assert(m.mag() == l.mag());
    assert(fle(Scalar { bits: 0 }, m));
    turned
}

} // verus!
