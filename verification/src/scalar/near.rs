//! Rounded results are near the exact ones.

use vstd::prelude::*;

#[allow(unused_imports)]
use crate::scalar::number::{
    fadd, fdiv, fle, fmul, lemma_round_exact, mag_units, nan_value,
};
#[allow(unused_imports)]
use crate::scalar::order::{
    gap, law_sum_is_near, lemma_gap, lemma_of_parts, lemma_round_fraction_near,
    lemma_round_fractions, lemma_units_monotone, lemma_units_positive, ordinary,
};
#[allow(unused_imports)]
use crate::scalar::root::{fsqrt, lemma_root_is_finite, lemma_root_near, root_mag};
#[allow(unused_imports)]
use crate::scalar::rounding::{to_mag, INF_MAG};
#[allow(unused_imports)]
use crate::scalar::Scalar;
#[allow(unused_imports)]
use vstd::arithmetic::power2::pow2;

verus! {

/// `x` is `y` up to `k` parts in `2^48`.
pub open spec fn close(x: int, y: int, k: int) -> bool {
    -(k * y) <= (x - y) * 0x1_0000_0000_0000 <= k * y
}

/// How large a finite number is, in units of `2^-1074`.
pub open spec fn size(a: Scalar) -> int {
    mag_units(a.mag()) as int
}

/// The size of one.
pub open spec fn unit() -> int {
    pow2(1074) as int
}

/// What is close to something close is close.
pub proof fn lemma_close_chain(x: int, y: int, z: int, k: int, m: int)
    requires
        close(x, y, k),
        close(y, z, m),
        0 <= k < 0x10_0000,
        0 <= m < 0x10_0000,
        0 <= z,
    ensures
        close(x, z, k + m + 1),
{
    let b: int = 0x1_0000_0000_0000;
    let kz = k * z;
    let mz = m * z;
    let ky = k * y;
    assert(0 <= mz <= 0x10_0000 * z && k * mz <= 0x100_0000_0000 * z) by (nonlinear_arith)
        requires
            mz == m * z,
            0 <= k < 0x10_0000,
            0 <= m < 0x10_0000,
            0 <= z,
    ;
    assert(ky * b <= kz * b + k * mz) by (nonlinear_arith)
        requires
            ky == k * y,
            kz == k * z,
            (y - z) * b <= mz,
            0 <= k,
    ;
    assert((k + m + 1) * z == kz + mz + z) by (nonlinear_arith)
        requires
            kz == k * z,
            mz == m * z,
    ;
}

/// Closeness goes both ways.
pub proof fn lemma_close_back(x: int, y: int, k: int)
    requires
        close(x, y, k),
        0 <= k < 0x10_0000,
        0 <= y,
    ensures
        close(y, x, k + 1),
{
    let b: int = 0x1_0000_0000_0000;
    let ky = k * y;
    assert(0 <= ky <= 0x10_0000 * y) by (nonlinear_arith)
        requires
            ky == k * y,
            0 <= k < 0x10_0000,
            0 <= y,
    ;
    let kx = k * x;
    assert(ky * b <= kx * b + k * ky) by (nonlinear_arith)
        requires
            ky == k * y,
            kx == k * x,
            (y - x) * b <= ky,
            0 <= k,
    ;
    assert(k * ky <= 0x100_0000_0000 * y) by (nonlinear_arith)
        requires
            ky <= 0x10_0000 * y,
            0 <= k < 0x10_0000,
            0 <= y,
            0 <= ky,
    ;
    assert((k + 1) * x == kx + x) by (nonlinear_arith)
        requires
            kx == k * x,
    ;
}

/// Closeness does not depend on the scale.
pub proof fn lemma_close_scaled(x: int, y: int, k: int, w: int)
    requires
        close(x, y, k),
        0 <= w,
    ensures
        close(x * w, y * w, k),
{
    assert(-(k * (y * w)) <= (x * w - y * w) * 0x1_0000_0000_0000 <= k * (y * w))
        by (nonlinear_arith)
        requires
            -(k * y) <= (x - y) * 0x1_0000_0000_0000 <= k * y,
            0 <= w,
    ;
}

/// A common factor does not matter.
pub proof fn lemma_close_cancelled(x: int, y: int, k: int, w: int)
    requires
        close(x * w, y * w, k),
        0 < w,
    ensures
        close(x, y, k),
{
    assert(-(k * y) <= (x - y) * 0x1_0000_0000_0000 <= k * y) by (nonlinear_arith)
        requires
            -(k * (y * w)) <= (x * w - y * w) * 0x1_0000_0000_0000 <= k * (y * w),
            0 < w,
    ;
}

/// A product is near the exact one, and has its sign.
pub proof fn law_product_is_near(a: Scalar, b: Scalar)
    requires
        a.finite(),
        b.finite(),
        ordinary(fmul(a, b)),
    ensures
        close(size(a) * size(b), size(fmul(a, b)) * unit(), 1),
        fmul(a, b).negative() == (a.negative() != b.negative()),
{
    let u = pow2(1074);
    vstd::arithmetic::power2::lemma_pow2_pos(1074);
    let p = fmul(a, b);
    let n = mag_units(a.mag()) * mag_units(b.mag());
    reveal(fmul);
    lemma_of_parts(a.negative() != b.negative(), to_mag(n, u));
    lemma_round_fraction_near(n, u);
    lemma_gap(p.mag());
    let g = gap(p.mag());
    let pu = mag_units(p.mag());
    assert(-(pu * u) <= (n - pu * u) * 0x1_0000_0000_0000 <= pu * u) by (nonlinear_arith)
        requires
            -g * u < pu * u - n < g * u,
            0 < g,
            g * 0x8_0000_0000_0000 <= pu,
            u > 0,
    ;
}

/// A quotient times its divisor is near the dividend; it has the sign of the exact one.
pub proof fn law_quotient_is_near(x: Scalar, d: Scalar)
    requires
        x.finite(),
        d.finite() && d.mag() > 0,
        ordinary(fdiv(x, d)),
    ensures
        close(size(x) * unit(), size(fdiv(x, d)) * size(d), 1),
        fdiv(x, d).negative() == (x.negative() != d.negative()),
{
    let u = pow2(1074);
    let q = fdiv(x, d);
    let du = mag_units(d.mag());
    let n = mag_units(x.mag()) * u;
    lemma_units_positive(d.mag());
    reveal(fdiv);
    lemma_of_parts(x.negative() != d.negative(), to_mag(n, du));
    lemma_of_parts(x.negative() != d.negative(), 0);
    assert(nan_value().nan());
    lemma_round_fraction_near(n, du);
    lemma_gap(q.mag());
    let g = gap(q.mag());
    let qu = mag_units(q.mag());
    assert(-(qu * du) <= (n - qu * du) * 0x1_0000_0000_0000 <= qu * du) by (nonlinear_arith)
        requires
            -g * du < qu * du - n < g * du,
            0 < g,
            g * 0x8_0000_0000_0000 <= qu,
            du > 0,
    ;
}

/// The square of a root is near what it is the root of.
pub proof fn law_root_is_near(a: Scalar)
    requires
        a.finite(),
        !a.negative(),
        a.mag() > 0,
    ensures
        fsqrt(a).finite(),
        !fsqrt(a).negative(),
        fsqrt(a).mag() > 0,
        close(size(a) * unit(), size(fsqrt(a)) * size(fsqrt(a)), 1),
{
    let u = pow2(1074);
    let m = mag_units(a.mag());
    lemma_units_positive(a.mag());
    vstd::arithmetic::power2::lemma2_to64();
    vstd::arithmetic::power2::lemma2_to64_rest();
    vstd::arithmetic::power2::lemma_pow2_adds(52, 52);
    vstd::arithmetic::power2::lemma_pow2_adds(104, 970);
    vstd::arithmetic::power2::lemma_pow2_pos(970);
    assert(m * u >= (1 * 0x10_0000_0000_0000) * (1 * 0x10_0000_0000_0000)) by (nonlinear_arith)
        requires
            m >= 1,
            u == pow2(104) * pow2(970),
            pow2(104) == 0x10_0000_0000_0000 * 0x10_0000_0000_0000,
            pow2(970) >= 1,
    ;
    lemma_root_near(m * u, 1);
    lemma_root_is_finite(a.mag());
    reveal(fsqrt);
    lemma_of_parts(false, root_mag(m * u, 1));
    let r = mag_units(fsqrt(a).mag());
    assert(r * 1 == r);
    assert(0 <= r * r) by (nonlinear_arith);
}

/// A sum of numbers that are not negative is near the exact one.
pub proof fn law_whole_is_near(a: Scalar, b: Scalar)
    requires
        a.finite() && !a.negative(),
        b.finite(),
        ordinary(fadd(a, b)),
        a.units() + b.units() >= 0,
    ensures
        close(a.units() + b.units(), fadd(a, b).units(), 1),
        !fadd(a, b).negative(),
{
    let s = fadd(a, b);
    law_sum_is_near(a, b);
    lemma_gap(s.mag());
}

/// `x` is at most `y`, up to `k` parts in `2^48`.
pub open spec fn at_most(x: int, y: int, k: int) -> bool {
    (x - y) * 0x1_0000_0000_0000 <= k * y
}

/// What is no more than a quotient is, times the divisor, no more than the dividend, up to
/// rounding.
pub proof fn law_below_a_quotient(c: Scalar, x: Scalar, d: Scalar)
    requires
        x.finite() && !x.negative(),
        d.finite() && !d.negative() && d.mag() > 0,
        ordinary(c) && !c.negative(),
        fle(c, fdiv(x, d)),
    ensures
        at_most(size(c) * size(d), size(x) * unit(), 1),
{
    let u = pow2(1074);
    let q = fdiv(x, d);
    let du = mag_units(d.mag());
    let n = mag_units(x.mag()) * u;
    lemma_units_positive(d.mag());
    reveal(fdiv);
    lemma_of_parts(false, to_mag(n, du));
    lemma_of_parts(false, 0);
    assert(nan_value().nan());
    assert(mag_units(0) == 0);
    assert(0 * u == 0);
    assert(q.mag() == to_mag(n, du));
    let b = (c.mag() - 1) as nat;
    let pred = mag_units(b);
    let cu = mag_units(c.mag());
    lemma_round_exact(b);
    lemma_gap(c.mag());
    lemma_units_monotone(c.mag(), c.mag() + 1);
    if n <= pred * du {
        assert(n * 1 <= pred * du);
        lemma_round_fractions(n, du, pred, 1);
    }
    let g = gap(c.mag());
    let (cd, nn) = ((cu * du) as int, n as int);
    assert((cd - nn) * 0x8_0000_0000_0000 <= cd) by (nonlinear_arith)
        requires
            cd == cu * du,
            nn > pred * du,
            cu - pred <= g,
            g * 0x8_0000_0000_0000 <= cu,
            du > 0,
    ;
}

/// A product is off the exact one by less than the distance between its neighbours.
pub proof fn law_product_is_off_by_a_step(a: Scalar, b: Scalar)
    requires
        a.finite(),
        b.finite(),
        fmul(a, b).mag() + 1 < INF_MAG,
    ensures
        ({
            let off = gap(fmul(a, b).mag()) * unit();
            -off < fmul(a, b).units() * unit() - a.units() * b.units() < off
        }),
{
    let u = pow2(1074);
    vstd::arithmetic::power2::lemma_pow2_pos(1074);
    let p = fmul(a, b);
    let (x, y) = (mag_units(a.mag()), mag_units(b.mag()));
    let n = x * y;
    reveal(fmul);
    lemma_of_parts(a.negative() != b.negative(), to_mag(n, u));
    lemma_round_fraction_near(n, u);
    let g = gap(p.mag());
    let pu = mag_units(p.mag());
    assert((-x) * y == -(x * y) && x * (-y) == -(x * y) && (-x) * (-y) == x * y && (-pu) * u == -(pu * u)
        && (-g) * u == -(g * u)) by (nonlinear_arith);
}

/// A quotient times its divisor is off the dividend by less than the distance between the
/// neighbours of the quotient, times the divisor.
pub proof fn law_quotient_is_off_by_a_step(x: Scalar, d: Scalar)
    requires
        x.finite(),
        d.finite() && d.mag() > 0,
        fdiv(x, d).mag() + 1 < INF_MAG,
    ensures
        ({
            let off = gap(fdiv(x, d).mag()) * size(d);
            -off < fdiv(x, d).units() * d.units() - x.units() * unit() < off
        }),
{
    let u = pow2(1074);
    let q = fdiv(x, d);
    let (xu, du) = (mag_units(x.mag()), mag_units(d.mag()));
    let n = xu * u;
    lemma_units_positive(d.mag());
    reveal(fdiv);
    lemma_of_parts(x.negative() != d.negative(), to_mag(n, du));
    lemma_of_parts(x.negative() != d.negative(), 0);
    assert(nan_value().nan());
    assert(mag_units(0) == 0);
    assert(0 * u == 0);
    lemma_round_fraction_near(n, du);
    let g = gap(q.mag());
    let qu = mag_units(q.mag());
    assert((-xu) * u == -(xu * u) && (-qu) * du == -(qu * du) && qu * (-du) == -(qu * du) && (-qu) * (-du)
        == qu * du && (-g) * du == -(g * du)) by (nonlinear_arith);
}

} // verus!
