//! What the commands of a tick do for the arm that they track a target with.

use vstd::prelude::*;

#[allow(unused_imports)]
use crate::hal::control::{
    acceleration, cap_to, torque_command, velocity_command, Gains, ResolvedV,
};
#[allow(unused_imports)]
use crate::hal::safety::ConfigV;
#[allow(unused_imports)]
use crate::scalar::near::{law_product_is_off_by_a_step, size, unit};
#[allow(unused_imports)]
use crate::scalar::number::{fabs, fadd, feq, fle, fmul, fneg, fsub};
#[allow(unused_imports)]
use crate::scalar::order::{
    gap, law_sum_is_near, lemma_add_nothing, lemma_difference, lemma_negated, lemma_no_sum_key,
    lemma_times_nothing,
};
#[allow(unused_imports)]
use crate::scalar::rounding::INF_MAG;
#[allow(unused_imports)]
use crate::scalar::Scalar;

verus! {

/// What equals itself leaves nothing.
proof fn lemma_no_difference(a: Scalar)
    requires
        a.finite(),
    ensures
        fsub(a, a).mag() == 0,
{
    lemma_difference(a, a);
    lemma_no_sum_key();
    assert(a.units() - a.units() == 0);
}

/// An arm that is on its target is given the acceleration of the target.
pub proof fn law_on_target_the_acceleration_is_fed_forward(
    r: ResolvedV,
    q: Seq<Scalar>,
    qd: Seq<Scalar>,
    g: Gains,
    n: nat,
    i: int,
)
    requires
        0 <= i < n,
        i < r.qd.len() && i < r.qdd.len(),
        q[i] == r.q[i] && q[i].finite(),
        qd[i] == r.qd[i] && qd[i].finite(),
        r.qdd[i].finite(),
        g.kp.finite() && g.kd.finite(),
    ensures
        feq(acceleration(r, q, qd, g, n)[i], r.qdd[i]),
{
    lemma_no_difference(q[i]);
    lemma_no_difference(qd[i]);
    let (e, d) = (fsub(r.q[i], q[i]), fsub(r.qd[i], qd[i]));
    lemma_times_nothing(g.kp, e);
    lemma_times_nothing(g.kd, d);
    lemma_add_nothing(r.qdd[i], fmul(g.kp, e));
    lemma_add_nothing(fadd(r.qdd[i], fmul(g.kp, e)), fmul(g.kd, d));
}

/// The wanted acceleration of a joint is that of its target, and what the gains make of how
/// far it is behind and how much too slow: in exact numbers, up to the steps between the
/// numbers that are computed on the way.
pub proof fn law_acceleration_follows_the_errors(
    r: ResolvedV,
    q: Seq<Scalar>,
    qd: Seq<Scalar>,
    g: Gains,
    n: nat,
    i: int,
)
    requires
        0 <= i < n,
        i < r.qd.len() && i < r.qdd.len(),
        q[i].finite() && r.q[i].finite() && qd[i].finite() && r.qd[i].finite() && r.qdd[i].finite(),
        g.kp.finite() && g.kd.finite(),
        fsub(r.q[i], q[i]).finite() && fsub(r.qd[i], qd[i]).finite(),
        fmul(g.kp, fsub(r.q[i], q[i])).mag() + 1 < INF_MAG,
        fmul(g.kd, fsub(r.qd[i], qd[i])).mag() + 1 < INF_MAG,
        fadd(r.qdd[i], fmul(g.kp, fsub(r.q[i], q[i]))).finite(),
        acceleration(r, q, qd, g, n)[i].finite(),
    ensures
        ({
            let got = acceleration(r, q, qd, g, n)[i];
            let (e, d) = (fsub(r.q[i], q[i]), fsub(r.qd[i], qd[i]));
            let (x, y) = (fmul(g.kp, e), fmul(g.kd, d));
            let want = r.qdd[i].units() * unit() + g.kp.units() * (r.q[i].units() - q[i].units())
                + g.kd.units() * (r.qd[i].units() - qd[i].units());
            let steps = gap(x.mag()) + gap(y.mag()) + gap(fadd(r.qdd[i], x).mag()) + gap(got.mag());
            let off = steps * unit() + size(g.kp) * gap(e.mag()) + size(g.kd) * gap(d.mag());
            -off <= got.units() * unit() - want <= off
        }),
{
    let got = acceleration(r, q, qd, g, n)[i];
    let (e, d) = (fsub(r.q[i], q[i]), fsub(r.qd[i], qd[i]));
    let (x, y) = (fmul(g.kp, e), fmul(g.kd, d));
    let s = fadd(r.qdd[i], x);
    lemma_negated(q[i]);
    lemma_negated(qd[i]);
    law_sum_is_near(r.q[i], fneg(q[i]));
    law_sum_is_near(r.qd[i], fneg(qd[i]));
    law_product_is_off_by_a_step(g.kp, e);
    law_product_is_off_by_a_step(g.kd, d);
    law_sum_is_near(r.qdd[i], x);
    law_sum_is_near(s, y);
    vstd::arithmetic::power2::lemma_pow2_pos(1074);
    let u = unit();
    let (kp, kd) = (g.kp.units(), g.kd.units());
    let (eu, du) = (e.units(), d.units());
    let (ee, dd) = (r.q[i].units() - q[i].units(), r.qd[i].units() - qd[i].units());
    lemma_scaled_off(kp, size(g.kp), eu, ee, gap(e.mag()));
    lemma_scaled_off(kd, size(g.kd), du, dd, gap(d.mag()));
    let (gu, su, xu, yu, fu) = (got.units(), s.units(), x.units(), y.units(), r.qdd[i].units());
    let (gs, gg, gx, gy) = (gap(s.mag()), gap(got.mag()), gap(x.mag()), gap(y.mag()));
    assert(-((gs + gg) * u) <= gu * u - (fu * u + xu * u + yu * u) <= (gs + gg) * u) by (nonlinear_arith)
        requires
            -gs < su - (fu + xu) < gs,
            -gg < gu - (su + yu) < gg,
            u > 0,
    ;
    assert((gx + gy + gs + gg) * u == gx * u + gy * u + (gs + gg) * u) by (nonlinear_arith);
}

/// An error in a factor, times the other.
proof fn lemma_scaled_off(k: int, size: int, x: int, y: int, g: int)
    requires
        k == size || k == -size,
        size >= 0,
        -g < x - y < g,
    ensures
        -(size * g) <= k * x - k * y <= size * g,
{
    assert(-(size * g) <= k * x - k * y <= size * g) by (nonlinear_arith)
        requires
            k == size || k == -size,
            size >= 0,
            -g < x - y < g,
    ;
}

/// A cap keeps a command within it both ways, and changes none that is within.
pub proof fn law_caps_hold(x: Scalar, c: Scalar)
    requires
        !x.nan(),
        !c.nan(),
    ensures
        fle(fabs(cap_to(x, Some(c))), fabs(c)),
        fle(fabs(x), fabs(c)) ==> cap_to(x, Some(c)) == x,
        x.key() < 0 ==> cap_to(x, Some(c)).key() <= 0,
        x.key() > 0 ==> cap_to(x, Some(c)).key() >= 0,
        !fle(fabs(x), fabs(c)) ==> feq(fabs(cap_to(x, Some(c))), fabs(c)),
        cap_to(x, None) == x,
{
}

/// On its target a joint is told to move as the target does, within its velocity limit.
pub proof fn law_on_target_the_velocity_is_passed_on(
    r: ResolvedV,
    q: Seq<Scalar>,
    g: Gains,
    cfg: ConfigV,
    n: nat,
    i: int,
)
    requires
        0 <= i < n,
        i < r.qd.len(),
        q[i] == r.q[i] && q[i].finite(),
        r.qd[i].finite() && g.kp.finite(),
    ensures
        match cfg.vmax[i] {
            Some(c) => !c.nan() ==> {
                &&& fle(fabs(velocity_command(r, q, g, cfg, n)[i]), fabs(c))
                &&& fle(fabs(r.qd[i]), fabs(c)) ==> feq(velocity_command(r, q, g, cfg, n)[i], r.qd[i])
            },
            None => feq(velocity_command(r, q, g, cfg, n)[i], r.qd[i]),
        },
{
    let e = fsub(r.q[i], q[i]);
    lemma_no_difference(q[i]);
    lemma_times_nothing(g.kp, e);
    lemma_add_nothing(r.qd[i], fmul(g.kp, e));
}

/// Where nothing caps it, the velocity command of a joint is that of its target, and what the
/// gain makes of how far it is behind: in exact numbers, up to the steps between the numbers
/// that are computed on the way.
pub proof fn law_velocity_follows_the_error(
    r: ResolvedV,
    q: Seq<Scalar>,
    g: Gains,
    cfg: ConfigV,
    n: nat,
    i: int,
)
    requires
        0 <= i < n,
        i < r.qd.len(),
        q[i].finite() && r.q[i].finite() && r.qd[i].finite() && g.kp.finite(),
        fsub(r.q[i], q[i]).finite(),
        fmul(g.kp, fsub(r.q[i], q[i])).mag() + 1 < INF_MAG,
        velocity_command(r, q, g, cfg, n)[i].finite(),
        match cfg.vmax[i] {
            Some(c) => !c.nan() && !feq(fabs(velocity_command(r, q, g, cfg, n)[i]), fabs(c)),
            None => true,
        },
    ensures
        ({
            let got = velocity_command(r, q, g, cfg, n)[i];
            let e = fsub(r.q[i], q[i]);
            let x = fmul(g.kp, e);
            let want = r.qd[i].units() * unit() + g.kp.units() * (r.q[i].units() - q[i].units());
            let off = (gap(x.mag()) + gap(got.mag())) * unit() + size(g.kp) * gap(e.mag());
            -off <= got.units() * unit() - want <= off
        }),
{
    let got = velocity_command(r, q, g, cfg, n)[i];
    let e = fsub(r.q[i], q[i]);
    let x = fmul(g.kp, e);
    lemma_negated(q[i]);
    law_sum_is_near(r.q[i], fneg(q[i]));
    law_product_is_off_by_a_step(g.kp, e);
    crate::scalar::order::lemma_sum(r.qd[i], x);
    assert(got == fadd(r.qd[i], x));
    law_sum_is_near(r.qd[i], x);
    vstd::arithmetic::power2::lemma_pow2_pos(1074);
    let u = unit();
    lemma_scaled_off(
        g.kp.units(),
        size(g.kp),
        e.units(),
        r.q[i].units() - q[i].units(),
        gap(e.mag()),
    );
    let (gu, xu, fu) = (got.units(), x.units(), r.qd[i].units());
    let (gg, gx) = (gap(got.mag()), gap(x.mag()));
    assert(-(gg * u) <= gu * u - (fu * u + xu * u) <= gg * u) by (nonlinear_arith)
        requires
            -gg < gu - (fu + xu) < gg,
            u > 0,
    ;
    assert((gx + gg) * u == gx * u + gg * u) by (nonlinear_arith);
}

/// Torques are within their caps, and those that are within anyway are sent as they are.
pub proof fn law_torques_are_capped(tau: Seq<Scalar>, cfg: ConfigV, n: nat, i: int)
    requires
        0 <= i < n,
        !tau[i].nan(),
    ensures
        match cfg.effort[i] {
            Some(c) => !c.nan() ==> {
                &&& fle(fabs(torque_command(tau, cfg, n)[i]), fabs(c))
                &&& fle(fabs(tau[i]), fabs(c)) ==> torque_command(tau, cfg, n)[i] == tau[i]
            },
            None => torque_command(tau, cfg, n)[i] == tau[i],
        },
{
}

} // verus!
