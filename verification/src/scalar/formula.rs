//! Sums of products come out as the exact ones, up to the steps between the numbers that are
//! computed on the way.

use vstd::prelude::*;

#[allow(unused_imports)]
use crate::scalar::near::{
    law_product_is_off_by_a_step, law_quotient_is_off_by_a_step, size, unit,
};
#[allow(unused_imports)]
use crate::scalar::number::{fadd, fdiv, fmul, fneg, fsub};
#[allow(unused_imports)]
use crate::scalar::order::{gap, law_sum_is_near, lemma_negated};
#[allow(unused_imports)]
use crate::scalar::rounding::INF_MAG;
#[allow(unused_imports)]
use crate::scalar::Scalar;

verus! {

/// `x` is `y` up to `off`.
pub open spec fn off_by(x: int, y: int, off: int) -> bool {
    -off <= x - y <= off
}

/// A product that stays on the scale.
pub open spec fn on_scale(a: Scalar, b: Scalar) -> bool {
    a.finite() && b.finite() && fmul(a, b).mag() + 1 < INF_MAG
}

/// `q` is `x` over `d`, up to a step between numbers.
pub open spec fn is_quotient(q: Scalar, x: Scalar, d: Scalar) -> bool {
    off_by(q.units() * d.units(), x.units() * unit(), gap(q.mag()) * size(d))
}

/// `p` is `a` times `b`, up to a step between numbers.
pub open spec fn is_times(p: Scalar, a: Scalar, b: Scalar) -> bool {
    off_by(p.units() * unit(), a.units() * b.units(), gap(p.mag()) * unit())
}

/// `s` is `a` and `b` together, up to a step between numbers.
pub open spec fn is_sum(s: Scalar, a: Scalar, b: Scalar) -> bool {
    off_by(s.units(), a.units() + b.units(), gap(s.mag()))
}

/// `s` is `a` without `b`, up to a step between numbers.
pub open spec fn is_difference(s: Scalar, a: Scalar, b: Scalar) -> bool {
    off_by(s.units(), a.units() - b.units(), gap(s.mag()))
}

/// A quotient is one, up to a step.
pub proof fn lemma_is_quotient(x: Scalar, d: Scalar)
    requires
        x.finite() && d.finite() && d.mag() > 0,
        fdiv(x, d).mag() + 1 < INF_MAG,
    ensures
        is_quotient(fdiv(x, d), x, d),
{
    law_quotient_is_off_by_a_step(x, d);
}

/// A product is one, up to a step.
pub proof fn lemma_is_times(a: Scalar, b: Scalar)
    requires
        on_scale(a, b),
    ensures
        is_times(fmul(a, b), a, b),
{
    law_product_is_off_by_a_step(a, b);
}

/// A difference is one, up to a step.
pub proof fn lemma_is_difference(a: Scalar, b: Scalar)
    requires
        a.finite() && b.finite() && fsub(a, b).finite(),
    ensures
        is_difference(fsub(a, b), a, b),
{
    lemma_negated(b);
    law_sum_is_near(a, fneg(b));
}

/// `a + b * c`.
pub proof fn law_multiply_add(a: Scalar, b: Scalar, c: Scalar)
    requires
        a.finite(),
        on_scale(b, c),
        fadd(a, fmul(b, c)).finite(),
    ensures
        off_by(
            fadd(a, fmul(b, c)).units() * unit(),
            a.units() * unit() + b.units() * c.units(),
            (gap(fadd(a, fmul(b, c)).mag()) + gap(fmul(b, c).mag())) * unit(),
        ),
{
    vstd::arithmetic::power2::lemma_pow2_pos(1074);
    let p = fmul(b, c);
    let r = fadd(a, p);
    law_product_is_off_by_a_step(b, c);
    law_sum_is_near(a, p);
    let (u, ru, au, pu, gr, gp) = (unit(), r.units(), a.units(), p.units(), gap(r.mag()), gap(p.mag()));
    assert(-(gr * u) <= ru * u - (au * u + pu * u) <= gr * u && (gr + gp) * u == gr * u + gp * u)
        by (nonlinear_arith)
        requires
            -gr < ru - (au + pu) < gr,
            u > 0,
    ;
}

/// `b * c + a`.
pub proof fn law_multiply_then_add(b: Scalar, c: Scalar, a: Scalar)
    requires
        a.finite(),
        on_scale(b, c),
        fadd(fmul(b, c), a).finite(),
    ensures
        off_by(
            fadd(fmul(b, c), a).units() * unit(),
            b.units() * c.units() + a.units() * unit(),
            (gap(fadd(fmul(b, c), a).mag()) + gap(fmul(b, c).mag())) * unit(),
        ),
{
    vstd::arithmetic::power2::lemma_pow2_pos(1074);
    let p = fmul(b, c);
    let r = fadd(p, a);
    law_product_is_off_by_a_step(b, c);
    law_sum_is_near(p, a);
    let (u, ru, au, pu, gr, gp) = (unit(), r.units(), a.units(), p.units(), gap(r.mag()), gap(p.mag()));
    assert(-(gr * u) <= ru * u - (au * u + pu * u) <= gr * u && (gr + gp) * u == gr * u + gp * u)
        by (nonlinear_arith)
        requires
            -gr < ru - (au + pu) < gr,
            u > 0,
    ;
}

/// `a * b + c * d`.
pub proof fn law_two_products(a: Scalar, b: Scalar, c: Scalar, d: Scalar)
    requires
        on_scale(a, b),
        on_scale(c, d),
        fadd(fmul(a, b), fmul(c, d)).finite(),
    ensures
        off_by(
            fadd(fmul(a, b), fmul(c, d)).units() * unit(),
            a.units() * b.units() + c.units() * d.units(),
            (gap(fadd(fmul(a, b), fmul(c, d)).mag()) + gap(fmul(a, b).mag()) + gap(
                fmul(c, d).mag(),
            )) * unit(),
        ),
{
    vstd::arithmetic::power2::lemma_pow2_pos(1074);
    let (p, q) = (fmul(a, b), fmul(c, d));
    let r = fadd(p, q);
    law_product_is_off_by_a_step(a, b);
    law_product_is_off_by_a_step(c, d);
    law_sum_is_near(p, q);
    let (u, ru, pu, qu) = (unit(), r.units(), p.units(), q.units());
    let (gr, gp, gq) = (gap(r.mag()), gap(p.mag()), gap(q.mag()));
    assert(-(gr * u) <= ru * u - (pu * u + qu * u) <= gr * u && (gr + gp + gq) * u == gr * u + gp * u
        + gq * u) by (nonlinear_arith)
        requires
            -gr < ru - (pu + qu) < gr,
            u > 0,
    ;
}

/// `a * b - c * d`.
pub proof fn law_difference_of_products(a: Scalar, b: Scalar, c: Scalar, d: Scalar)
    requires
        on_scale(a, b),
        on_scale(c, d),
        fsub(fmul(a, b), fmul(c, d)).finite(),
    ensures
        off_by(
            fsub(fmul(a, b), fmul(c, d)).units() * unit(),
            a.units() * b.units() - c.units() * d.units(),
            (gap(fsub(fmul(a, b), fmul(c, d)).mag()) + gap(fmul(a, b).mag()) + gap(
                fmul(c, d).mag(),
            )) * unit(),
        ),
{
    vstd::arithmetic::power2::lemma_pow2_pos(1074);
    let (p, q) = (fmul(a, b), fmul(c, d));
    let r = fsub(p, q);
    law_product_is_off_by_a_step(a, b);
    law_product_is_off_by_a_step(c, d);
    lemma_negated(q);
    law_sum_is_near(p, fneg(q));
    let (u, ru, pu, qu) = (unit(), r.units(), p.units(), q.units());
    let (gr, gp, gq) = (gap(r.mag()), gap(p.mag()), gap(q.mag()));
    assert(-(gr * u) <= ru * u - (pu * u - qu * u) <= gr * u && (gr + gp + gq) * u == gr * u + gp * u
        + gq * u) by (nonlinear_arith)
        requires
            -gr < ru - (pu - qu) < gr,
            u > 0,
    ;
}

/// `a + (b - c) * t`: a share of the way from `c` to `b`, on top of `a`.
pub proof fn law_share_of_the_way(a: Scalar, b: Scalar, c: Scalar, t: Scalar)
    requires
        a.finite() && b.finite() && c.finite() && fsub(b, c).finite(),
        on_scale(fsub(b, c), t),
        fadd(a, fmul(fsub(b, c), t)).finite(),
    ensures
        ({
            let d = fsub(b, c);
            let r = fadd(a, fmul(d, t));
            off_by(
                r.units() * unit(),
                a.units() * unit() + (b.units() - c.units()) * t.units(),
                (gap(r.mag()) + gap(fmul(d, t).mag())) * unit() + gap(d.mag()) * size(t),
            )
        }),
{
    let d = fsub(b, c);
    lemma_negated(c);
    law_sum_is_near(b, fneg(c));
    law_multiply_add(a, d, t);
    lemma_scaled(d.units(), b.units() - c.units(), gap(d.mag()), t.units(), size(t));
}

/// An error in a factor, times the other.
pub proof fn lemma_scaled(x: int, y: int, g: int, k: int, size: int)
    requires
        k == size || k == -size,
        size >= 0,
        -g < x - y < g,
    ensures
        -(g * size) <= x * k - y * k <= g * size,
{
    assert(-(g * size) <= x * k - y * k <= g * size) by (nonlinear_arith)
        requires
            k == size || k == -size,
            size >= 0,
            -g < x - y < g,
    ;
}

} // verus!
