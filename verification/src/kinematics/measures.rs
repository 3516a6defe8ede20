//! What the measures of a Jacobian measure.

use vstd::prelude::*;

#[allow(unused_imports)]
use crate::kinematics::singular::{
    indices, kind_of, largest, null_directions, product, reported, taking_part, takes_part,
    SingularityKind, SingularityParams, SingularityReport, Twist,
};
#[allow(unused_imports)]
use crate::scalar::consts::{HALF_BITS, ONE_BITS, ONE_HALF_MORE_BITS, TWO_BITS};
#[allow(unused_imports)]
use crate::scalar::near::{
    close, law_product_is_near, law_quotient_is_near, lemma_close_chain, lemma_close_scaled, size,
    unit,
};
#[allow(unused_imports)]
use crate::scalar::number::{fabs, fadd, fle, flt, fmul, lemma_round_exact, mag_units, of_parts};
#[allow(unused_imports)]
use crate::scalar::order::{
    law_products_commute, law_products_keep_order, lemma_absolute, lemma_add_nothing, lemma_double,
    lemma_of_parts, lemma_signed, lemma_times_nothing, lemma_units_positive, ordinary,
};
#[allow(unused_imports)]
use crate::scalar::root::fsqrt;
#[allow(unused_imports)]
use crate::scalar::rounding::{half_even, lemma_round_double, lemma_round_scale, to_mag, INF_MAG};
#[allow(unused_imports)]
use crate::scalar::vec3::{vdot, vnorm};
#[allow(unused_imports)]
use crate::scalar::{Scalar, Vec3};
#[allow(unused_imports)]
use vstd::arithmetic::power2::pow2;

verus! {

/// The exact product of the sizes of the first `n` numbers.
pub open spec fn exact_product(s: Seq<Scalar>, n: nat) -> int
    decreases n,
{
    if n == 0 {
        1
    } else {
        exact_product(s, (n - 1) as nat) * size(s[n - 1])
    }
}

/// The size of one, multiplied with itself `n` times.
pub open spec fn unit_power(n: nat) -> int
    decreases n,
{
    if n == 0 {
        1
    } else {
        unit_power((n - 1) as nat) * unit()
    }
}

pub proof fn lemma_product_is_near(s: Seq<Scalar>, n: nat)
    requires
        n <= s.len(),
        n < 0x1000,
        forall|i: int| 0 <= i < n ==> (#[trigger] s[i]).finite() && !s[i].negative(),
        forall|k: nat| 0 < k <= n ==> ordinary(#[trigger] product(s, k)),
    ensures
        close(exact_product(s, n) * unit(), size(product(s, n)) * unit_power(n), 2 * n as int),
        exact_product(s, n) >= 0,
        unit_power(n) > 0,
        product(s, n).finite() && !product(s, n).negative(),
    decreases n,
{
    let u = unit();
    vstd::arithmetic::power2::lemma_pow2_pos(1074);
    if n == 0 {
        vstd::arithmetic::power2::lemma2_to64();
        vstd::arithmetic::power2::lemma2_to64_rest();
        vstd::arithmetic::power2::lemma_pow2_adds(52, 1022);
        assert(mag_units(ONE_BITS as nat) == u);
        assert(1 * u == u && u * 1 == u);
    } else {
        let m = (n - 1) as nat;
        let p = product(s, m);
        let x = s[n - 1];
        assert(forall|i: int| 0 <= i < m ==> (#[trigger] s[i]).finite() && !s[i].negative());
        lemma_product_is_near(s, m);
        assert(ordinary(product(s, n)));
        law_product_is_near(p, x);
        let (e, w, pu, xu, qu) = (exact_product(s, m), unit_power(m), size(p), size(x), size(product(s, n)));
        lemma_close_scaled(e * u, pu * w, 2 * m as int, xu);
        lemma_close_scaled(pu * xu, qu * u, 1, w);
        assert((e * u) * xu == (e * xu) * u && (pu * w) * xu == (pu * xu) * w && (qu * u) * w == qu * (w * u)
            && 0 <= e * xu && w * u > 0 && 0 <= qu * (w * u)) by (nonlinear_arith)
            requires
                u > 0 && w > 0 && e >= 0 && xu >= 0 && qu >= 0,
        ;
        lemma_close_chain((e * xu) * u, (pu * xu) * w, qu * (w * u), 2 * m as int, 1);
    }
}

/// The manipulability is the product of all singular values, up to rounding.
pub proof fn law_manipulability_is_the_product(
    r: SingularityReport,
    s: Seq<Scalar>,
    escape: Seq<Scalar>,
    u_min: Twist,
    eigenvalues: Seq<Scalar>,
    p: SingularityParams,
)
    requires
        reported(r, s, escape, u_min, eigenvalues, p),
        0 < s.len() < 0x1000,
        forall|i: int| 0 <= i < s.len() ==> (#[trigger] s[i]).finite() && !s[i].negative(),
        forall|k: nat| 0 < k <= s.len() ==> ordinary(#[trigger] product(s, k)),
    ensures
        close(
            exact_product(s, s.len()) * unit(),
            size(r.manipulability) * unit_power(s.len()),
            2 * s.len() as int,
        ),
{
    lemma_product_is_near(s, s.len());
}

/// Well inside the scale.
pub open spec fn inner(x: Scalar) -> bool {
    0x10_0000_0000_0000 < x.mag() && x.mag() + 0x10_0000_0000_0000 < INF_MAG
}

/// Doubling well inside the scale goes one octave up.
proof fn lemma_doubled(p: Scalar)
    requires
        inner(p),
    ensures
        fmul(Scalar { bits: TWO_BITS }, p) == of_parts(
            p.negative(),
            p.mag() + 0x10_0000_0000_0000,
        ),
        fmul(Scalar { bits: TWO_BITS }, p).finite(),
{
    let two = Scalar { bits: TWO_BITS };
    let u = pow2(1074);
    let k: nat = 0x10_0000_0000_0000;
    let x = mag_units(p.mag());
    vstd::arithmetic::power2::lemma_pow2_pos(1074);
    vstd::arithmetic::power2::lemma2_to64();
    vstd::arithmetic::power2::lemma2_to64_rest();
    vstd::arithmetic::power2::lemma_pow2_adds(52, 1023);
    vstd::arithmetic::power2::lemma_pow2_unfold(1075);
    assert(mag_units(TWO_BITS as nat) == 2 * u);
    let n = mag_units(TWO_BITS as nat) * x;
    assert(n == (2 * x) * u && u == 1 * u) by (nonlinear_arith)
        requires
            n == (2 * u) * x,
    ;
    lemma_round_scale(2 * x, 1, u);
    lemma_round_exact(p.mag());
    assert(mag_units(k) == k) by {
        assert(k / k == 1 && k % k == 0);
        assert(k * pow2(0) == k);
    }
    crate::scalar::order::lemma_units_monotone(k, p.mag());
    lemma_round_double(x, 1, 1);
    assert(x * pow2(1) == 2 * x);
    reveal(fmul);
    lemma_of_parts(p.negative(), p.mag() + k);
}

/// Doubling a factor doubles a product.
proof fn lemma_double_times(a: Scalar, b: Scalar)
    requires
        a.finite() && b.finite(),
        inner(fmul(a, b)),
        fmul(Scalar { bits: TWO_BITS }, a).finite(),
    ensures
        fmul(fmul(Scalar { bits: TWO_BITS }, a), b) == fmul(Scalar { bits: TWO_BITS }, fmul(a, b)),
        fmul(b, fmul(Scalar { bits: TWO_BITS }, a)) == fmul(Scalar { bits: TWO_BITS }, fmul(a, b)),
{
    let two = Scalar { bits: TWO_BITS };
    let u = pow2(1074);
    let k: nat = 0x10_0000_0000_0000;
    let p = fmul(a, b);
    let da = fmul(two, a);
    let (x, y) = (mag_units(a.mag()), mag_units(b.mag()));
    let n = x * y;
    vstd::arithmetic::power2::lemma_pow2_pos(1074);
    vstd::arithmetic::power2::lemma2_to64();
    assert(p.mag() == to_mag(n, u) && p.negative() == (a.negative() != b.negative())) by {
        reveal(fmul);
        lemma_of_parts(a.negative() != b.negative(), to_mag(n, u));
    }
    lemma_double(a);
    lemma_doubled(p);
    assert(mag_units(0) == 0);
    assert(a.mag() > 0) by {
        if a.mag() == 0 {
            lemma_times_nothing(b, a);
        }
    }
    lemma_units_positive(a.mag());
    assert(mag_units(da.mag()) == 2 * x && da.negative() == a.negative()) by {
        reveal(fmul);
        lemma_of_parts(two.negative() != a.negative(), da.mag());
    }
    assert(n >= u * k) by {
        if n < u * k {
            vstd::arithmetic::div_mod::lemma_fundamental_div_mod(n as int, u as int);
            assert(n / u < k) by (nonlinear_arith)
                requires
                    n < u * k,
                    n == u * (n / u) + n % u,
                    0 <= n % u,
                    u > 0,
            ;
            assert(n < u * 0x20_0000_0000_0000) by (nonlinear_arith)
                requires
                    n < u * k,
                    k == 0x10_0000_0000_0000,
                    u > 0,
            ;
            assert(half_even(n, u) <= k);
        }
    }
    lemma_round_double(n, u, 1);
    assert((2 * x) * y == n * pow2(1)) by (nonlinear_arith)
        requires
            n == x * y,
            pow2(1) == 2,
    ;
    assert(fmul(da, b) == of_parts(p.negative(), p.mag() + k)) by {
        reveal(fmul);
    }
    law_products_commute(b, da);
}

proof fn lemma_doubled_product(s: Seq<Scalar>, i: int, n: nat)
    requires
        0 <= i < n <= s.len(),
        forall|k: int| 0 <= k < n ==> (#[trigger] s[k]).finite(),
        fmul(Scalar { bits: TWO_BITS }, s[i]).finite(),
        product(s, i as nat).finite(),
        forall|k: nat| i < k <= n ==> inner(#[trigger] product(s, k)),
    ensures
        product(s.update(i, fmul(Scalar { bits: TWO_BITS }, s[i])), n) == fmul(
            Scalar { bits: TWO_BITS },
            product(s, n),
        ),
    decreases n,
{
    let two = Scalar { bits: TWO_BITS };
    let t = s.update(i, fmul(two, s[i]));
    assert(inner(product(s, n)));
    let m = (n - 1) as nat;
    if i == m {
        lemma_same_product(s, t, m);
        law_products_commute(product(s, m), s[i]);
        lemma_double_times(s[i], product(s, m));
    } else {
        assert(inner(product(s, m)));
        lemma_doubled_product(s, i, m);
        lemma_doubled(product(s, m));
        lemma_double_times(product(s, m), s[m as int]);
    }
}

proof fn lemma_same_product(s: Seq<Scalar>, t: Seq<Scalar>, n: nat)
    requires
        n <= s.len() && n <= t.len(),
        forall|k: int| 0 <= k < n ==> s[k] == #[trigger] t[k],
    ensures
        product(s, n) == product(t, n),
    decreases n,
{
    if n > 0 {
        lemma_same_product(s, t, (n - 1) as nat);
    }
}

/// Doubling any one singular value doubles the manipulability, well inside the scale.
pub proof fn law_every_value_counts(
    r: SingularityReport,
    t: SingularityReport,
    s: Seq<Scalar>,
    i: int,
    escape: Seq<Scalar>,
    u_min: Twist,
    eigenvalues: Seq<Scalar>,
    p: SingularityParams,
)
    requires
        0 <= i < s.len(),
        reported(r, s, escape, u_min, eigenvalues, p),
        reported(
            t,
            s.update(i, fmul(Scalar { bits: TWO_BITS }, s[i])),
            escape,
            u_min,
            eigenvalues,
            p,
        ),
        forall|k: int| 0 <= k < s.len() ==> (#[trigger] s[k]).finite(),
        fmul(Scalar { bits: TWO_BITS }, s[i]).finite(),
        product(s, i as nat).finite(),
        forall|k: nat| i < k <= s.len() ==> inner(#[trigger] product(s, k)),
    ensures
        t.manipulability == fmul(Scalar { bits: TWO_BITS }, r.manipulability),
{
    lemma_doubled_product(s, i, s.len());
}

proof fn lemma_ones_product(s: Seq<Scalar>, n: nat)
    requires
        n <= s.len(),
        forall|k: int| 0 <= k < n ==> #[trigger] s[k] == (Scalar { bits: ONE_BITS }),
    ensures
        product(s, n) == (Scalar { bits: ONE_BITS }),
    decreases n,
{
    if n > 0 {
        lemma_ones_product(s, (n - 1) as nat);
        crate::scalar::order::lemma_ones();
        assert(s[n - 1] == (Scalar { bits: ONE_BITS }));
    }
}

/// Where every direction is moved as fast as the joints, the manipulability is one.
pub proof fn law_even_motion_measures_one(
    r: SingularityReport,
    s: Seq<Scalar>,
    escape: Seq<Scalar>,
    u_min: Twist,
    eigenvalues: Seq<Scalar>,
    p: SingularityParams,
)
    requires
        reported(r, s, escape, u_min, eigenvalues, p),
        forall|k: int| 0 <= k < s.len() ==> #[trigger] s[k] == (Scalar { bits: ONE_BITS }),
    ensures
        r.manipulability == (Scalar { bits: ONE_BITS }),
{
    lemma_ones_product(s, s.len());
}

/// The condition number is how much larger the largest singular value is than the smallest,
/// up to rounding.
pub proof fn law_condition_is_the_ratio(
    r: SingularityReport,
    s: Seq<Scalar>,
    escape: Seq<Scalar>,
    u_min: Twist,
    eigenvalues: Seq<Scalar>,
    p: SingularityParams,
)
    requires
        reported(r, s, escape, u_min, eigenvalues, p),
        s.len() > 0,
        s[0].finite() && !s[0].negative(),
        s.last().finite() && flt(Scalar { bits: 0 }, s.last()),
        ordinary(r.condition_number),
    ensures
        r.sigma_min == s.last(),
        close(size(s[0]) * unit(), size(r.condition_number) * size(s.last()), 1),
{
    law_quotient_is_near(s[0], s.last());
}

/// The norm of a vector is not negative.
proof fn lemma_norm(v: Vec3)
    ensures
        vnorm(v).nan() || fle(Scalar { bits: 0 }, vnorm(v)),
{
    let d = vdot(v, v);
    if d.finite() && !d.negative() {
        crate::scalar::order::law_roots_are_not_negative(d);
    }
    reveal(fsqrt);
    assert(crate::scalar::number::nan_value().nan());
}

/// Half as much again is no less.
proof fn lemma_half_more(x: Scalar)
    requires
        fle(Scalar { bits: 0 }, x),
    ensures
        fle(x, fmul(Scalar { bits: ONE_HALF_MORE_BITS }, x)),
{
    let more = Scalar { bits: ONE_HALF_MORE_BITS };
    let one = Scalar { bits: ONE_BITS };
    if x.finite() {
        law_products_keep_order(one, more, x);
        assert(of_parts(false, ONE_BITS as nat) == one);
        lemma_signed(false, x);
    } else {
        reveal(fmul);
    }
}

/// A configuration is regular where its smallest singular value is not below the threshold.
/// Below it, what a lost turn is to the wrist, a lost translation is to the boundary.
pub proof fn law_kinds_mirror_one_another(u: Twist, sigma_min: Scalar, eps: Scalar)
    requires
        !sigma_min.nan() && !eps.nan(),
    ensures
        ({
            let other = Twist { lin: u.ang, ang: u.lin };
            let (a, b) = (kind_of(u, sigma_min, eps), kind_of(other, sigma_min, eps));
            &&& (a == SingularityKind::Regular) == !flt(sigma_min, eps)
            &&& (a == SingularityKind::Wrist) == (b == SingularityKind::Boundary)
            &&& (a == SingularityKind::Elbow) == (b == SingularityKind::Elbow)
            &&& (a == SingularityKind::Wrist) ==> flt(vnorm(u.lin), vnorm(u.ang))
            &&& (a == SingularityKind::Boundary) ==> flt(vnorm(u.ang), vnorm(u.lin))
        }),
{
    let (lin, ang) = (vnorm(u.lin), vnorm(u.ang));
    lemma_norm(u.lin);
    lemma_norm(u.ang);
    if !lin.nan() {
        lemma_half_more(lin);
    }
    if !ang.nan() {
        lemma_half_more(ang);
    }
    let more = Scalar { bits: ONE_HALF_MORE_BITS };
    reveal(fmul);
    assert(crate::scalar::number::nan_value().nan());
}

/// Nothing has no length.
proof fn lemma_no_length(v: Vec3)
    requires
        v.x.mag() == 0 && v.y.mag() == 0 && v.z.mag() == 0,
    ensures
        vnorm(v).mag() == 0,
{
    lemma_times_nothing(v.x, v.x);
    lemma_times_nothing(v.y, v.y);
    lemma_times_nothing(v.z, v.z);
    let (a, b, c) = (fmul(v.x, v.x), fmul(v.y, v.y), fmul(v.z, v.z));
    lemma_add_nothing(a, b);
    lemma_add_nothing(fadd(a, b), c);
    reveal(fsqrt);
}

/// Where only turns are lost it is the wrist, where only translations, the boundary.
pub proof fn law_pure_losses_are_told_apart(u: Twist, sigma_min: Scalar, eps: Scalar)
    requires
        flt(sigma_min, eps),
    ensures
        ({
            let z = Scalar { bits: 0 };
            let (l, a) = (u.lin, u.ang);
            &&& l.x.mag() == 0 && l.y.mag() == 0 && l.z.mag() == 0 && flt(z, vnorm(a))
                ==> kind_of(u, sigma_min, eps) == SingularityKind::Wrist
            &&& a.x.mag() == 0 && a.y.mag() == 0 && a.z.mag() == 0 && flt(z, vnorm(l))
                ==> kind_of(u, sigma_min, eps) == SingularityKind::Boundary
        }),
{
    let more = Scalar { bits: ONE_HALF_MORE_BITS };
    if u.lin.x.mag() == 0 && u.lin.y.mag() == 0 && u.lin.z.mag() == 0 {
        lemma_no_length(u.lin);
        lemma_times_nothing(more, vnorm(u.lin));
    }
    if u.ang.x.mag() == 0 && u.ang.y.mag() == 0 && u.ang.z.mag() == 0 {
        lemma_no_length(u.ang);
        lemma_times_nothing(more, vnorm(u.ang));
        lemma_norm(u.lin);
        if !vnorm(u.lin).nan() {
            lemma_half_more(vnorm(u.lin));
        }
    }
}

proof fn lemma_taking_part(escape: Seq<Scalar>, n: nat, i: int)
    ensures
        taking_part(escape, n).contains(i) == (0 <= i < n && takes_part(escape, i)),
    decreases n,
{
    if n > 0 {
        lemma_taking_part(escape, (n - 1) as nat, i);
        let head = taking_part(escape, (n - 1) as nat);
        if takes_part(escape, n - 1) {
            let all = head.push(n - 1);
            assert(all[head.len() as int] == n - 1);
            if head.contains(i) {
                let k = choose|k: int| 0 <= k < head.len() && head[k] == i;
                assert(all[k] == i);
            }
            if all.contains(i) && i != n - 1 {
                let k = choose|k: int| 0 <= k < all.len() && all[k] == i;
                assert(head[k] == i);
            }
        }
    }
}

proof fn lemma_largest(s: Seq<Scalar>, n: nat, i: int)
    requires
        0 <= i < n <= s.len(),
        forall|k: int| 0 <= k < n ==> (#[trigger] s[k]).finite(),
    ensures
        fle(fabs(s[i]), largest(s, n)),
        largest(s, n).finite(),
    decreases n,
{
    assert(s[n - 1].finite());
    lemma_absolute(s[n - 1]);
    assert(largest(s, 0) == (Scalar { bits: 0 }));
    if n > 1 {
        lemma_largest(s, (n - 1) as nat, if i < n - 1 {
            i
        } else {
            0
        });
    }
    if i < n - 1 {
        lemma_largest(s, (n - 1) as nat, i);
    }
}

/// A joint that moves at least as much as one that takes part takes part, one that does not
/// move takes no part, and all that take part move more than half as much as any.
pub proof fn law_offending_joints_move_most(
    r: SingularityReport,
    s: Seq<Scalar>,
    escape: Seq<Scalar>,
    u_min: Twist,
    eigenvalues: Seq<Scalar>,
    p: SingularityParams,
    i: int,
    j: int,
)
    requires
        reported(r, s, escape, u_min, eigenvalues, p),
        0 <= i < escape.len() && 0 <= j < escape.len(),
        forall|k: int| 0 <= k < escape.len() ==> (#[trigger] escape[k]).finite(),
    ensures
        indices(r.offending_joints@).contains(j) && fle(fabs(escape[j]), fabs(escape[i]))
            ==> indices(r.offending_joints@).contains(i),
        escape[i].mag() == 0 ==> !indices(r.offending_joints@).contains(i),
        indices(r.offending_joints@).contains(j) ==> flt(
            fmul(Scalar { bits: HALF_BITS }, fabs(escape[i])),
            fabs(escape[j]),
        ),
        ordinary(escape[i]) && (forall|k: int|
            0 <= k < escape.len() ==> fle(fabs(#[trigger] escape[k]), fabs(escape[i])))
            ==> indices(r.offending_joints@).contains(i),
{
    let half = Scalar { bits: HALF_BITS };
    let n = escape.len();
    lemma_taking_part(escape, n, i);
    lemma_taking_part(escape, n, j);
    lemma_largest(escape, n, i);
    lemma_largest(escape, n, j);
    let m = largest(escape, n);
    lemma_absolute(escape[i]);
    lemma_absolute(escape[j]);
    law_products_keep_order(fabs(escape[i]), m, half);
    law_products_commute(fabs(escape[i]), half);
    law_products_commute(m, half);
    if ordinary(escape[i]) && (forall|k: int|
        0 <= k < escape.len() ==> fle(fabs(#[trigger] escape[k]), fabs(escape[i]))) {
        lemma_largest_is_met(escape, n, fabs(escape[i]));
        lemma_half_is_less(m);
    }
}

/// What nothing exceeds bounds the largest.
proof fn lemma_largest_is_met(s: Seq<Scalar>, n: nat, top: Scalar)
    requires
        n <= s.len(),
        fle(Scalar { bits: 0 }, top),
        forall|k: int| 0 <= k < n ==> fle(fabs(#[trigger] s[k]), top),
    ensures
        fle(largest(s, n), top),
    decreases n,
{
    if n > 0 {
        lemma_largest_is_met(s, (n - 1) as nat, top);
        assert(fle(fabs(s[n - 1]), top));
    }
}

proof fn lemma_half_is_less(m: Scalar)
    requires
        ordinary(m) && !m.negative(),
    ensures
        flt(fmul(Scalar { bits: HALF_BITS }, m), m),
{
    let half = Scalar { bits: HALF_BITS };
    let one = Scalar { bits: ONE_BITS };
    let x = fmul(half, m);
    law_products_keep_order(half, one, m);
    assert(of_parts(false, ONE_BITS as nat) == one);
    lemma_signed(false, m);
    if x.key() == m.key() {
        let u = unit();
        vstd::arithmetic::power2::lemma_pow2_pos(1074);
        vstd::arithmetic::power2::lemma2_to64();
        vstd::arithmetic::power2::lemma2_to64_rest();
        vstd::arithmetic::power2::lemma_pow2_adds(52, 1021);
        vstd::arithmetic::power2::lemma_pow2_unfold(1074);
        assert(2 * size(half) == u);
        law_product_is_near(half, m);
        lemma_units_positive(m.mag());
        let (hu, mu) = (size(half), size(m));
        assert(2 * (hu * mu) == mu * u && mu * u > 0) by (nonlinear_arith)
            requires
                2 * hu == u,
                u > 0,
                mu > 0,
        ;
    }
}

proof fn lemma_null(e: Seq<Scalar>, tol: Scalar, n: nat, i: int)
    ensures
        null_directions(e, tol, n).contains(i) == (0 <= i < n && flt(e[i], tol)),
    decreases n,
{
    if n > 0 {
        lemma_null(e, tol, (n - 1) as nat, i);
        let head = null_directions(e, tol, (n - 1) as nat);
        if flt(e[n - 1], tol) {
            let all = head.push(n - 1);
            assert(all[head.len() as int] == n - 1);
            if head.contains(i) {
                let k = choose|k: int| 0 <= k < head.len() && head[k] == i;
                assert(all[k] == i);
            }
            if all.contains(i) && i != n - 1 {
                let k = choose|k: int| 0 <= k < all.len() && all[k] == i;
                assert(head[k] == i);
            }
        }
    }
}

/// The null directions are those of the smallest eigenvalues: none is left out that has a
/// smaller one than another, none that has none at all, and none is taken whose eigenvalue is
/// not below the square of the largest singular value.
pub proof fn law_null_directions_move_least(
    r: SingularityReport,
    s: Seq<Scalar>,
    escape: Seq<Scalar>,
    u_min: Twist,
    eigenvalues: Seq<Scalar>,
    p: SingularityParams,
    i: int,
    j: int,
)
    requires
        reported(r, s, escape, u_min, eigenvalues, p),
        s.len() > 0,
        0 <= i < eigenvalues.len() && 0 <= j < eigenvalues.len(),
        s[0].finite() && fle(Scalar { bits: 0 }, s[0]),
        p.eps_null.finite() && fle(Scalar { bits: 0 }, p.eps_null) && fle(
            p.eps_null,
            Scalar { bits: ONE_BITS },
        ),
    ensures
        indices(r.null_directions@).contains(j) && fle(eigenvalues[i], eigenvalues[j])
            ==> indices(r.null_directions@).contains(i),
        fle(fmul(s[0], s[0]), eigenvalues[i]) ==> !indices(r.null_directions@).contains(i),
        eigenvalues[i].mag() == 0 && ordinary(fmul(p.eps_null, s[0])) && ordinary(
            fmul(fmul(p.eps_null, s[0]), fmul(p.eps_null, s[0])),
        ) ==> indices(r.null_directions@).contains(i),
{
    let one = Scalar { bits: ONE_BITS };
    let tol = fmul(p.eps_null, s[0]);
    let sq = fmul(tol, tol);
    lemma_null(eigenvalues, sq, eigenvalues.len(), i);
    lemma_null(eigenvalues, sq, eigenvalues.len(), j);
    law_products_keep_order(p.eps_null, one, s[0]);
    assert(of_parts(false, ONE_BITS as nat) == one);
    lemma_signed(false, s[0]);
    law_products_keep_order(tol, s[0], tol);
    law_products_keep_order(tol, s[0], s[0]);
    law_products_commute(s[0], tol);
    lemma_square_sign(tol);
}

proof fn lemma_square_sign(x: Scalar)
    requires
        x.finite(),
    ensures
        !fmul(x, x).negative(),
{
    reveal(fmul);
    lemma_of_parts(
        false,
        to_mag(mag_units(x.mag()) * mag_units(x.mag()), pow2(1074)),
    );
}

} // verus!
