//! The centre of the circle through three points.

use vstd::prelude::*;

#[allow(unused_imports)]
use crate::motion::shape::centre_of;
#[allow(unused_imports)]
use crate::scalar::consts::TWO_BITS;
#[allow(unused_imports)]
use crate::scalar::near::unit;
#[allow(unused_imports)]
use crate::scalar::number::{fadd, fdiv, fmul, fsub};
#[allow(unused_imports)]
use crate::scalar::vec3::{vadd, vcross, vdiv, vdot, vscale, vsub, Vec3};
#[allow(unused_imports)]
use crate::scalar::Scalar;

verus! {

/// A product that needs no rounding.
pub open spec fn exact_times(a: Scalar, b: Scalar) -> bool {
    fmul(a, b).units() * unit() == a.units() * b.units()
}

/// A sum that needs no rounding.
pub open spec fn exact_plus(a: Scalar, b: Scalar) -> bool {
    fadd(a, b).units() == a.units() + b.units()
}

/// A difference that needs no rounding.
pub open spec fn exact_minus(a: Scalar, b: Scalar) -> bool {
    fsub(a, b).units() == a.units() - b.units()
}

/// The difference of two points needs no rounding.
pub open spec fn exact_way(a: Vec3, b: Vec3) -> bool {
    exact_minus(a.x, b.x) && exact_minus(a.y, b.y) && exact_minus(a.z, b.z)
}

/// The sum of two points needs no rounding.
pub open spec fn exact_together(a: Vec3, b: Vec3) -> bool {
    exact_plus(a.x, b.x) && exact_plus(a.y, b.y) && exact_plus(a.z, b.z)
}

/// A scaled point needs no rounding.
pub open spec fn exact_scaled(a: Vec3, s: Scalar) -> bool {
    exact_times(a.x, s) && exact_times(a.y, s) && exact_times(a.z, s)
}

/// An inner product needs no rounding.
pub open spec fn exact_inner(a: Vec3, b: Vec3) -> bool {
    &&& exact_times(a.x, b.x) && exact_times(a.y, b.y) && exact_times(a.z, b.z)
    &&& exact_plus(fmul(a.x, b.x), fmul(a.y, b.y))
    &&& exact_plus(fadd(fmul(a.x, b.x), fmul(a.y, b.y)), fmul(a.z, b.z))
}

/// A cross product needs no rounding.
pub open spec fn exact_cross(a: Vec3, b: Vec3) -> bool {
    &&& exact_times(a.y, b.z) && exact_times(a.z, b.y)
    &&& exact_times(a.z, b.x) && exact_times(a.x, b.z)
    &&& exact_times(a.x, b.y) && exact_times(a.y, b.x)
    &&& exact_minus(fmul(a.y, b.z), fmul(a.z, b.y))
    &&& exact_minus(fmul(a.z, b.x), fmul(a.x, b.z))
    &&& exact_minus(fmul(a.x, b.y), fmul(a.y, b.x))
}

/// A quotient needs no rounding.
pub open spec fn exact_over(x: Scalar, d: Scalar) -> bool {
    fdiv(x, d).units() * d.units() == x.units() * unit()
}

/// The square of how far two points are apart.
pub open spec fn apart(p: Vec3, q: Vec3) -> int {
    let (x, y, z) = (p.x.units() - q.x.units(), p.y.units() - q.y.units(), p.z.units() - q.z.units());
    x * x + y * y + z * z
}

/// Nothing needs rounding on the way to the centre of the circle through three points.
pub open spec fn exact_circle(p0: Vec3, pv: Vec3, p1: Vec3) -> bool {
    let a = vsub(p0, pv);
    let b = vsub(p1, pv);
    let n = vcross(a, b);
    let (aa, bb) = (vdot(a, a), vdot(b, b));
    let (s, t) = (vscale(vcross(b, n), aa), vscale(vcross(n, a), bb));
    let d = fmul(Scalar { bits: TWO_BITS }, vdot(n, n));
    &&& exact_way(p0, pv) && exact_way(p1, pv)
    &&& exact_cross(a, b) && exact_inner(a, a) && exact_inner(b, b)
    &&& exact_cross(b, n) && exact_cross(n, a)
    &&& exact_scaled(vcross(b, n), aa) && exact_scaled(vcross(n, a), bb)
    &&& exact_together(s, t) && exact_inner(n, n)
    &&& exact_times(Scalar { bits: TWO_BITS }, vdot(n, n))
    &&& exact_over(vadd(s, t).x, d) && exact_over(vadd(s, t).y, d) && exact_over(vadd(s, t).z, d)
    &&& exact_together(pv, vdiv(vadd(s, t), d))
    &&& d.units() != 0
}

/// The factors of a product change places.
proof fn lemma_places(p: int, q: int, r: int)
    ensures
        (p * q) * r == q * (r * p),
        (p * q) * r == (q * r) * p,
        (p * q) * r == (p * r) * q,
        (p * q) * r == (r * q) * p,
{
    assert((p * q) * r == q * (r * p)) by (nonlinear_arith);
    assert((p * q) * r == (q * r) * p) by (nonlinear_arith);
    assert((p * q) * r == (p * r) * q) by (nonlinear_arith);
    assert((p * q) * r == (r * q) * p) by (nonlinear_arith);
}

proof fn lemma_spread(p: int, q: int, x: int)
    ensures
        (p - q) * x == p * x - q * x,
        (p + q) * x == p * x + q * x,
        x * (p - q) == x * p - x * q,
{
    assert((p - q) * x == p * x - q * x) by (nonlinear_arith);
    assert((p + q) * x == p * x + q * x) by (nonlinear_arith);
    assert(x * (p - q) == x * p - x * q) by (nonlinear_arith);
}

/// `(b x n) . a` is `(a x b) . n`, and `(n x a) . a` is nothing.
proof fn lemma_triple(a: (int, int, int), b: (int, int, int), n: (int, int, int))
    ensures
        ({
            let (ax, ay, az) = a;
            let (bx, by, bz) = b;
            let (nx, ny, nz) = n;
            &&& (by * nz - bz * ny) * ax + (bz * nx - bx * nz) * ay + (bx * ny - by * nx) * az == (ay * bz
                - az * by) * nx + (az * bx - ax * bz) * ny + (ax * by - ay * bx) * nz
            &&& (ny * az - nz * ay) * ax + (nz * ax - nx * az) * ay + (nx * ay - ny * ax) * az == 0
        }),
{
    let (ax, ay, az) = a;
    let (bx, by, bz) = b;
    let (nx, ny, nz) = n;
    lemma_spread(by * nz, bz * ny, ax);
    lemma_spread(bz * nx, bx * nz, ay);
    lemma_spread(bx * ny, by * nx, az);
    lemma_spread(ay * bz, az * by, nx);
    lemma_spread(az * bx, ax * bz, ny);
    lemma_spread(ax * by, ay * bx, nz);
    lemma_places(ax, by, nz);
    lemma_places(ax, bz, ny);
    lemma_places(ay, bz, nx);
    lemma_places(ay, bx, nz);
    lemma_places(az, bx, ny);
    lemma_places(az, by, nx);
    lemma_spread(ny * az, nz * ay, ax);
    lemma_spread(nz * ax, nx * az, ay);
    lemma_spread(nx * ay, ny * ax, az);
    lemma_places(ny, az, ax);
    lemma_places(nz, ay, ax);
    lemma_places(nx, az, ay);
}

proof fn lemma_over_unit(u: int, p: (int, int, int), x: (int, int, int), a: (int, int, int))
    requires
        p.0 * u == a.0,
        p.1 * u == a.1,
        p.2 * u == a.2,
    ensures
        (p.0 * x.0 + p.1 * x.1 + p.2 * x.2) * u == a.0 * x.0 + a.1 * x.1 + a.2 * x.2,
{
    lemma_spread(p.0 * x.0, p.1 * x.1, u);
    lemma_spread(p.0 * x.0 + p.1 * x.1, p.2 * x.2, u);
    lemma_places(p.0, x.0, u);
    lemma_places(p.1, x.1, u);
    lemma_places(p.2, x.2, u);
}

proof fn lemma_cancel(u: int, x: int, y: int)
    requires
        x * u == y * u,
        u != 0,
    ensures
        x == y,
{
    assert(x == y) by (nonlinear_arith)
        requires
            x * u == y * u,
            u != 0,
    ;
}

/// Along one leg of a triangle: `q` is the way from the corner to the centre, `w` is the leg,
/// `ww` and `nn` are the squares of the leg and of the normal, `g` is the part of the sum that
/// is not square to the leg and `h` the one that is.
proof fn lemma_leg(
    u: int,
    q: (int, int, int),
    w: (int, int, int),
    g: (int, int, int),
    h: (int, int, int),
    gs: (int, int, int),
    hs: (int, int, int),
    ww: int,
    vv: int,
    nn: int,
)
    requires
        u > 0 && nn != 0,
        gs.0 * u == g.0 * ww && gs.1 * u == g.1 * ww && gs.2 * u == g.2 * ww,
        hs.0 * u == h.0 * vv && hs.1 * u == h.1 * vv && hs.2 * u == h.2 * vv,
        q.0 * (2 * nn) == (gs.0 + hs.0) * u,
        q.1 * (2 * nn) == (gs.1 + hs.1) * u,
        q.2 * (2 * nn) == (gs.2 + hs.2) * u,
        g.0 * w.0 + g.1 * w.1 + g.2 * w.2 == nn * u,
        h.0 * w.0 + h.1 * w.1 + h.2 * w.2 == 0,
    ensures
        2 * (q.0 * w.0 + q.1 * w.1 + q.2 * w.2) == ww * u,
{
    let (w0, w1, w2) = w;
    let dot = q.0 * w0 + q.1 * w1 + q.2 * w2;
    lemma_spread(gs.0, hs.0, u);
    lemma_spread(gs.1, hs.1, u);
    lemma_spread(gs.2, hs.2, u);
    lemma_over_unit(
        2 * nn,
        q,
        w,
        (g.0 * ww + h.0 * vv, g.1 * ww + h.1 * vv, g.2 * ww + h.2 * vv),
    );
    lemma_spread(g.0 * ww, h.0 * vv, w0);
    lemma_spread(g.1 * ww, h.1 * vv, w1);
    lemma_spread(g.2 * ww, h.2 * vv, w2);
    lemma_over_unit(ww, g, w, (g.0 * ww, g.1 * ww, g.2 * ww));
    lemma_over_unit(vv, h, w, (h.0 * vv, h.1 * vv, h.2 * vv));
    assert(0 * vv == 0);
    assert(dot * (2 * nn) == (nn * u) * ww);
    assert((2 * dot) * nn == dot * (2 * nn)) by (nonlinear_arith);
    lemma_places(nn, u, ww);
    lemma_places(ww, u, nn);
    lemma_cancel(nn, 2 * dot, ww * u);
}

proof fn lemma_equally_far(q: (int, int, int), w: (int, int, int))
    requires
        2 * (q.0 * w.0 + q.1 * w.1 + q.2 * w.2) == w.0 * w.0 + w.1 * w.1 + w.2 * w.2,
    ensures
        (q.0 - w.0) * (q.0 - w.0) + (q.1 - w.1) * (q.1 - w.1) + (q.2 - w.2) * (q.2 - w.2) == q.0 * q.0
            + q.1 * q.1 + q.2 * q.2,
{
    lemma_square(q.0, w.0);
    lemma_square(q.1, w.1);
    lemma_square(q.2, w.2);
}

proof fn lemma_square(a: int, x: int)
    ensures
        (a - x) * (a - x) == a * a - 2 * (a * x) + x * x,
{
    assert((a - x) * (a - x) == a * a - 2 * (a * x) + x * x) by (nonlinear_arith);
}

/// The centre of the circle through three points is equally far from all of them: exactly so
/// where nothing needs rounding.
pub proof fn law_centre_is_equally_far(p0: Vec3, pv: Vec3, p1: Vec3)
    requires
        exact_circle(p0, pv, p1),
    ensures
        ({
            let c = centre_of(p0, pv, p1);
            apart(c, p0) == apart(c, pv) && apart(c, p1) == apart(c, pv)
        }),
{
    let u = unit();
    vstd::arithmetic::power2::lemma_pow2_pos(1074);
    let two = Scalar { bits: TWO_BITS };
    let (va, vb) = (vsub(p0, pv), vsub(p1, pv));
    let vn = vcross(va, vb);
    let (aas, bbs, nns) = (vdot(va, va), vdot(vb, vb), vdot(vn, vn));
    let (vx, vy) = (vcross(vb, vn), vcross(vn, va));
    let (vs, vt) = (vscale(vx, aas), vscale(vy, bbs));
    let d = fmul(two, nns);
    let vq = vdiv(vadd(vs, vt), d);
    let c = centre_of(p0, pv, p1);
    let (ax, ay, az) = (va.x.units(), va.y.units(), va.z.units());
    let (bx, by, bz) = (vb.x.units(), vb.y.units(), vb.z.units());
    let (nx, ny, nz) = (vn.x.units(), vn.y.units(), vn.z.units());
    let (gx, gy, gz) = (vx.x.units(), vx.y.units(), vx.z.units());
    let (hx, hy, hz) = (vy.x.units(), vy.y.units(), vy.z.units());
    let (aa, bb, nn) = (aas.units(), bbs.units(), nns.units());
    let q = (vq.x.units(), vq.y.units(), vq.z.units());
    // The products, each over one.
    lemma_crossed(va, vb);
    lemma_crossed(vb, vn);
    lemma_crossed(vn, va);
    lemma_inner(va, va);
    lemma_inner(vb, vb);
    lemma_inner(vn, vn);
    assert(two.units() == 2 * u) by {
        vstd::arithmetic::power2::lemma2_to64();
        vstd::arithmetic::power2::lemma2_to64_rest();
        vstd::arithmetic::power2::lemma_pow2_adds(53, 1022);
        vstd::arithmetic::power2::lemma_pow2_adds(1, 1074);
        vstd::arithmetic::power2::lemma_pow2_adds(52, 1023);
        assert(TWO_BITS as nat / 0x10_0000_0000_0000 == 1024);
    }
    let du = d.units();
    assert(du == 2 * nn) by {
        lemma_places(2, u, nn);
        lemma_cancel(u, du, 2 * nn);
    }
    let (a, b, n) = ((ax, ay, az), (bx, by, bz), (nx, ny, nz));
    let (g, h) = ((gx, gy, gz), (hx, hy, hz));
    let gs = (vs.x.units(), vs.y.units(), vs.z.units());
    let hs = (vt.x.units(), vt.y.units(), vt.z.units());
    lemma_legs(u, a, b, n, g, h);
    lemma_leg(u, q, a, g, h, gs, hs, aa, bb, nn);
    lemma_equally_far(q, a);
    lemma_leg(u, q, b, h, g, hs, gs, bb, aa, nn);
    lemma_equally_far(q, b);
}

/// Along either leg one part of the sum is as the square of the normal, and the other is
/// nothing.
proof fn lemma_legs(
    u: int,
    a: (int, int, int),
    b: (int, int, int),
    n: (int, int, int),
    g: (int, int, int),
    h: (int, int, int),
)
    requires
        u > 0,
        n.0 * u == a.1 * b.2 - a.2 * b.1,
        n.1 * u == a.2 * b.0 - a.0 * b.2,
        n.2 * u == a.0 * b.1 - a.1 * b.0,
        g.0 * u == b.1 * n.2 - b.2 * n.1,
        g.1 * u == b.2 * n.0 - b.0 * n.2,
        g.2 * u == b.0 * n.1 - b.1 * n.0,
        h.0 * u == n.1 * a.2 - n.2 * a.1,
        h.1 * u == n.2 * a.0 - n.0 * a.2,
        h.2 * u == n.0 * a.1 - n.1 * a.0,
    ensures
        g.0 * a.0 + g.1 * a.1 + g.2 * a.2 == n.0 * n.0 + n.1 * n.1 + n.2 * n.2,
        h.0 * a.0 + h.1 * a.1 + h.2 * a.2 == 0,
        h.0 * b.0 + h.1 * b.1 + h.2 * b.2 == n.0 * n.0 + n.1 * n.1 + n.2 * n.2,
        g.0 * b.0 + g.1 * b.1 + g.2 * b.2 == 0,
{
    let (ax, ay, az) = a;
    let (bx, by, bz) = b;
    let (nx, ny, nz) = n;
    let ab = (ay * bz - az * by, az * bx - ax * bz, ax * by - ay * bx);
    let bn = (by * nz - bz * ny, bz * nx - bx * nz, bx * ny - by * nx);
    let na = (ny * az - nz * ay, nz * ax - nx * az, nx * ay - ny * ax);
    assert(0 * u == 0);
    lemma_over_unit(u, n, n, ab);
    lemma_triple(a, b, n);
    lemma_over_unit(u, g, a, bn);
    lemma_cancel(u, g.0 * ax + g.1 * ay + g.2 * az, nx * nx + ny * ny + nz * nz);
    lemma_over_unit(u, h, a, na);
    lemma_cancel(u, h.0 * ax + h.1 * ay + h.2 * az, 0);
    lemma_triple(n, a, b);
    lemma_over_unit(u, h, b, na);
    lemma_cancel(u, h.0 * bx + h.1 * by + h.2 * bz, nx * nx + ny * ny + nz * nz);
    lemma_over_unit(u, g, b, bn);
    lemma_flat(b, n);
    lemma_cancel(u, g.0 * bx + g.1 * by + g.2 * bz, 0);
}

/// `(b x n) . b` is nothing.
proof fn lemma_flat(b: (int, int, int), n: (int, int, int))
    ensures
        ({
            let (bx, by, bz) = b;
            let (nx, ny, nz) = n;
            (by * nz - bz * ny) * bx + (bz * nx - bx * nz) * by + (bx * ny - by * nx) * bz == 0
        }),
{
    let (bx, by, bz) = b;
    let (nx, ny, nz) = n;
    lemma_spread(by * nz, bz * ny, bx);
    lemma_spread(bz * nx, bx * nz, by);
    lemma_spread(bx * ny, by * nx, bz);
    lemma_places(by, nz, bx);
    lemma_places(bz, ny, bx);
    lemma_places(bz, nx, by);
}

proof fn lemma_crossed(a: Vec3, b: Vec3)
    requires
        exact_cross(a, b),
    ensures
        ({
            let (n, u) = (vcross(a, b), unit());
            &&& n.x.units() * u == a.y.units() * b.z.units() - a.z.units() * b.y.units()
            &&& n.y.units() * u == a.z.units() * b.x.units() - a.x.units() * b.z.units()
            &&& n.z.units() * u == a.x.units() * b.y.units() - a.y.units() * b.x.units()
        }),
{
    let u = unit();
    lemma_spread(fmul(a.y, b.z).units(), fmul(a.z, b.y).units(), u);
    lemma_spread(fmul(a.z, b.x).units(), fmul(a.x, b.z).units(), u);
    lemma_spread(fmul(a.x, b.y).units(), fmul(a.y, b.x).units(), u);
}

proof fn lemma_inner(a: Vec3, b: Vec3)
    requires
        exact_inner(a, b),
    ensures
        vdot(a, b).units() * unit() == a.x.units() * b.x.units() + a.y.units() * b.y.units()
            + a.z.units() * b.z.units(),
{
    let u = unit();
    let (x, y, z) = (fmul(a.x, b.x).units(), fmul(a.y, b.y).units(), fmul(a.z, b.z).units());
    assert((x + y + z) * u == x * u + y * u + z * u) by (nonlinear_arith);
}

} // verus!
