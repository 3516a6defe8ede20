//! Singularities: what the decomposition of a Jacobian says of them, and how a
//! commanded motion is damped near them.

use vstd::prelude::*;

use crate::hal::backend::{copy_scalars, zeros};
#[allow(unused_imports)]
use crate::hal::backend::zero_seq;
use crate::scalar::consts::{
    CENTI_BITS, HALF_BITS, INFINITY_BITS, MICRO_BITS, ONE_BITS, ONE_HALF_MORE_BITS, TENTH_BITS,
};
#[allow(unused_imports)]
use crate::scalar::convert::{fmax, total_key};
#[allow(unused_imports)]
use crate::scalar::number::{fabs, fadd, fdiv, fle, flt, fmul, fneg, fsub};
#[allow(unused_imports)]
use crate::scalar::root::fsqrt;
#[allow(unused_imports)]
use crate::scalar::order::{
    law_differences_reverse_order, law_products_commute, law_products_keep_order,
    law_quotients_keep_order, lemma_less_nothing, lemma_ones, lemma_over_itself,
};
#[allow(unused_imports)]
use crate::scalar::vec3::{vdiv, vnorm};
use crate::scalar::{Scalar, Vec3};

verus! {

/// What a Jacobian refers to.
#[derive(Clone, Copy, Debug, PartialEq, Eq, Structural)]
pub enum JacFrame {
    /// World axes at the frame's origin.
    World,
    /// The frame itself.
    Body,
}

/// Which motion is lost, as far as it can be told.
#[derive(Clone, Copy, Debug, PartialEq, Eq, Structural)]
pub enum SingularityKind {
    /// No motion is lost.
    Regular,
    Wrist,
    Elbow,
    Boundary,
}

/// Tolerances.
#[derive(Clone, Copy, Debug, PartialEq, Eq, Structural)]
pub struct SingularityParams {
    /// What part of the largest singular value counts as none.
    pub eps_null: Scalar,
    /// Below which smallest singular value damping sets in.
    pub eps_activate: Scalar,
    /// The most that is damped.
    pub lambda_max: Scalar,
}

impl Default for SingularityParams {
    fn default() -> (r: SingularityParams)
        ensures
            r.eps_null == (Scalar { bits: MICRO_BITS }),
            r.eps_activate == (Scalar { bits: CENTI_BITS }),
            r.lambda_max == (Scalar { bits: TENTH_BITS }),
    {
        SingularityParams {
            eps_null: Scalar { bits: MICRO_BITS },
            eps_activate: Scalar { bits: CENTI_BITS },
            lambda_max: Scalar { bits: TENTH_BITS },
        }
    }
}

/// A direction of task space: three of translation, three of rotation.
#[derive(Clone, Copy, Debug, PartialEq, Eq, Structural)]
pub struct Twist {
    pub lin: Vec3,
    pub ang: Vec3,
}

/// Which motion is lost, from the direction of the smallest singular value.
pub open spec fn kind_of(u: Twist, sigma_min: Scalar, eps: Scalar) -> SingularityKind {
    let lin = vnorm(u.lin);
    let ang = vnorm(u.ang);
    let more = Scalar { bits: ONE_HALF_MORE_BITS };
    if fle(eps, sigma_min) {
        SingularityKind::Regular
    } else if flt(fmul(more, lin), ang) {
        SingularityKind::Wrist
    } else if flt(fmul(more, ang), lin) {
        SingularityKind::Boundary
    } else {
        SingularityKind::Elbow
    }
}

/// Which motion is lost.
pub fn classify(u: Twist, sigma_min: Scalar, eps: Scalar) -> (r: SingularityKind)
    ensures
        r == kind_of(u, sigma_min, eps),
{
    if sigma_min.ge(eps) {
        return SingularityKind::Regular;
    }
    let lin = u.lin.norm();
    let ang = u.ang.norm();
    let more = Scalar { bits: ONE_HALF_MORE_BITS };
    if ang.gt(more.mul(lin)) {
        SingularityKind::Wrist
    } else if lin.gt(more.mul(ang)) {
        SingularityKind::Boundary
    } else {
        SingularityKind::Elbow
    }
}

/// Product of the first `n` numbers.
pub open spec fn product(s: Seq<Scalar>, n: nat) -> Scalar
    decreases n,
{
    if n == 0 {
        Scalar { bits: ONE_BITS }
    } else {
        fmul(product(s, (n - 1) as nat), s[n - 1])
    }
}

/// Product of some numbers.
pub fn product_of(s: &Vec<Scalar>) -> (r: Scalar)
    ensures
        r == product(s@, s@.len()),
{
    let mut p = Scalar { bits: ONE_BITS };
    let mut i: usize = 0;
    while i < s.len()
        invariant
            i <= s.len(),
            p == product(s@, i as nat),
        decreases s.len() - i,
    {
        p = p.mul(s[i]);
        i = i + 1;
    }
    p
}

/// Largest magnitude among the first `n` numbers.
pub open spec fn largest(s: Seq<Scalar>, n: nat) -> Scalar
    decreases n,
{
    if n == 0 {
        Scalar { bits: 0 }
    } else {
        fmax(largest(s, (n - 1) as nat), fabs(s[n - 1]))
    }
}

/// A joint takes part where it moves more than half as much as the one that moves most.
pub open spec fn takes_part(escape: Seq<Scalar>, i: int) -> bool {
    let m = largest(escape, escape.len());
    flt(Scalar { bits: 0 }, m) && flt(fmul(Scalar { bits: HALF_BITS }, m), fabs(escape[i]))
}

/// The joints among the first `n` that take part.
pub open spec fn taking_part(escape: Seq<Scalar>, n: nat) -> Seq<int>
    decreases n,
{
    if n == 0 {
        Seq::empty()
    } else if takes_part(escape, n - 1) {
        taking_part(escape, (n - 1) as nat).push(n - 1)
    } else {
        taking_part(escape, (n - 1) as nat)
    }
}

/// The directions among the first `n` that move nothing: squared singular values
/// below the tolerance squared.
pub open spec fn null_directions(eigenvalues: Seq<Scalar>, tol_sq: Scalar, n: nat) -> Seq<int>
    decreases n,
{
    if n == 0 {
        Seq::empty()
    } else if flt(eigenvalues[n - 1], tol_sq) {
        null_directions(eigenvalues, tol_sq, (n - 1) as nat).push(n - 1)
    } else {
        null_directions(eigenvalues, tol_sq, (n - 1) as nat)
    }
}

/// What is reported of a Jacobian. Null directions are positions among the
/// eigenvectors.
#[derive(Debug)]
pub struct SingularityReport {
    pub manipulability: Scalar,
    pub condition_number: Scalar,
    pub sigma_min: Scalar,
    pub kind: SingularityKind,
    pub offending_joints: Vec<usize>,
    pub null_directions: Vec<usize>,
    pub sigma: [Scalar; 3],
}

/// The report on a Jacobian without information.
pub open spec fn degenerate(r: SingularityReport) -> bool {
    &&& r.manipulability == (Scalar { bits: 0 })
    &&& r.condition_number == (Scalar { bits: INFINITY_BITS })
    &&& r.sigma_min == (Scalar { bits: 0 })
    &&& r.kind == SingularityKind::Regular
    &&& r.offending_joints@.len() == 0
    &&& r.null_directions@.len() == 0
    &&& forall|i: int| 0 <= i < 3 ==> #[trigger] r.sigma@[i] == (Scalar { bits: 0 })
}

/// The report on a Jacobian without information.
pub fn degenerate_report() -> (r: SingularityReport)
    ensures
        degenerate(r),
{
    SingularityReport {
        manipulability: Scalar { bits: 0 },
        condition_number: Scalar { bits: INFINITY_BITS },
        sigma_min: Scalar { bits: 0 },
        kind: SingularityKind::Regular,
        offending_joints: Vec::new(),
        null_directions: Vec::new(),
        sigma: [Scalar { bits: 0 }, Scalar { bits: 0 }, Scalar { bits: 0 }],
    }
}

/// The `i`-th smallest of descending values, or zero.
pub open spec fn from_end(s: Seq<Scalar>, i: int) -> Scalar {
    if s.len() > i {
        s[s.len() - 1 - i]
    } else {
        Scalar { bits: 0 }
    }
}

fn nth_smallest(s: &Vec<Scalar>, i: usize) -> (r: Scalar)
    ensures
        r == from_end(s@, i as int),
{
    if s.len() > i {
        s[s.len() - 1 - i]
    } else {
        Scalar { bits: 0 }
    }
}

pub open spec fn indices(v: Seq<usize>) -> Seq<int> {
    v.map_values(|i: usize| i as int)
}

/// All of a twist is finite.
pub open spec fn twist_finite(t: Twist) -> bool {
    t.lin.x.finite() && t.lin.y.finite() && t.lin.z.finite() && t.ang.x.finite()
        && t.ang.y.finite() && t.ang.z.finite()
}

/// There are columns, and they are finite.
pub open spec fn can_be_analyzed(cols: Seq<Twist>) -> bool {
    cols.len() > 0 && forall|i: int| 0 <= i < cols.len() ==> twist_finite(#[trigger] cols[i])
}

/// Whether the Jacobian of some columns can be decomposed and analyzed.
pub fn workable(cols: &Vec<Twist>) -> (r: bool)
    ensures
        r == can_be_analyzed(cols@),
{
    let mut i: usize = 0;
    while i < cols.len()
        invariant
            i <= cols.len(),
            forall|k: int| 0 <= k < i ==> twist_finite(#[trigger] cols@[k]),
        decreases cols.len() - i,
    {
        let t = cols[i];
        if !(t.lin.x.is_finite() && t.lin.y.is_finite() && t.lin.z.is_finite()
            && t.ang.x.is_finite() && t.ang.y.is_finite() && t.ang.z.is_finite()) {
            assert(!twist_finite(cols@[i as int]));
            return false;
        }
        i = i + 1;
    }
    cols.len() > 0
}

/// What is reported of a decomposed Jacobian.
pub open spec fn reported(
    r: SingularityReport,
    s: Seq<Scalar>,
    escape: Seq<Scalar>,
    u_min: Twist,
    eigenvalues: Seq<Scalar>,
    p: SingularityParams,
) -> bool {
    &&& r.manipulability == product(s, s.len())
    &&& r.sigma_min == s.last()
    &&& r.condition_number == (if flt(Scalar { bits: 0 }, s.last()) {
        fdiv(s[0], s.last())
    } else {
        Scalar { bits: INFINITY_BITS }
    })
    &&& r.kind == kind_of(u_min, s.last(), p.eps_activate)
    &&& indices(r.offending_joints@) == taking_part(escape, escape.len())
    &&& indices(r.null_directions@) == null_directions(
        eigenvalues,
        fmul(fmul(p.eps_null, s[0]), fmul(p.eps_null, s[0])),
        eigenvalues.len(),
    )
    &&& forall|i: int| 0 <= i < 3 ==> #[trigger] r.sigma@[i] == from_end(s, i)
}

/// The report on a decomposed Jacobian: its singular values in descending order, the
/// joint and task directions of the smallest, and the eigenvalues of its square.
pub fn analyze(
    s: &Vec<Scalar>,
    escape: &Vec<Scalar>,
    u_min: Twist,
    eigenvalues: &Vec<Scalar>,
    p: &SingularityParams,
) -> (r: SingularityReport)
    requires
        s@.len() > 0,
    ensures
        reported(r, s@, escape@, u_min, eigenvalues@, *p),
{
    let sigma_max = s[0];
    let sigma_min = s[s.len() - 1];
    let condition_number = if sigma_min.gt(Scalar { bits: 0 }) {
        sigma_max.div(sigma_min)
    } else {
        Scalar { bits: INFINITY_BITS }
    };
    let tol = p.eps_null.mul(sigma_max);
    let tol_sq = tol.mul(tol);
    let mut null: Vec<usize> = Vec::new();
    let mut i: usize = 0;
    assert(indices(null@) =~= Seq::empty());
    while i < eigenvalues.len()
        invariant
            i <= eigenvalues.len(),
            indices(null@) == null_directions(eigenvalues@, tol_sq, i as nat),
        decreases eigenvalues.len() - i,
    {
        if eigenvalues[i].lt(tol_sq) {
            let ghost before = null@;
            null.push(i);
            assert(indices(null@) =~= indices(before).push(i as int));
        }
        i = i + 1;
    }
    let mut m = Scalar { bits: 0 };
    let mut k: usize = 0;
    while k < escape.len()
        invariant
            k <= escape.len(),
            m == largest(escape@, k as nat),
        decreases escape.len() - k,
    {
        m = m.max(escape[k].abs());
        k = k + 1;
    }
    let mut off: Vec<usize> = Vec::new();
    let mut c: usize = 0;
    assert(indices(off@) =~= Seq::empty());
    while c < escape.len()
        invariant
            c <= escape.len(),
            m == largest(escape@, escape@.len()),
            indices(off@) == taking_part(escape@, c as nat),
        decreases escape.len() - c,
    {
        if m.gt(Scalar { bits: 0 }) && escape[c].abs().gt(Scalar { bits: HALF_BITS }.mul(m)) {
            let ghost before = off@;
            off.push(c);
            assert(indices(off@) =~= indices(before).push(c as int));
        }
        c = c + 1;
    }
    SingularityReport {
        manipulability: product_of(s),
        condition_number,
        sigma_min,
        kind: classify(u_min, sigma_min, p.eps_activate),
        offending_joints: off,
        null_directions: null,
        sigma: [nth_smallest(s, 0), nth_smallest(s, 1), nth_smallest(s, 2)],
    }
}

/// How fast a frame can move in each direction: three axes with their radii, the
/// longest first.
#[derive(Clone, Copy, Debug, PartialEq, Eq, Structural)]
pub struct ManipulabilityEllipsoid {
    pub a: Axis,
    pub b: Axis,
    pub c: Axis,
    pub volume: Scalar,
}

/// A unit axis and its radius.
#[derive(Clone, Copy, Debug, PartialEq, Eq, Structural)]
pub struct Axis {
    pub radius: Scalar,
    pub dir: Vec3,
}

/// The radius of an eigenvalue, and the direction it belongs to.
pub open spec fn raw_axis(value: Scalar, dir: Vec3) -> Axis {
    Axis { radius: fsqrt(fmax(value, Scalar { bits: 0 })), dir }
}

/// `x` goes before `y`: its radius is larger.
pub open spec fn goes_before(x: Axis, y: Axis) -> bool {
    total_key(x.radius) > total_key(y.radius)
}

/// Three axes by descending radius; equal ones keep their order.
pub open spec fn by_radius(x: Axis, y: Axis, z: Axis) -> (Axis, Axis, Axis) {
    let (a, b) = if goes_before(y, x) {
        (y, x)
    } else {
        (x, y)
    };
    if goes_before(z, a) {
        (z, a, b)
    } else if goes_before(z, b) {
        (a, z, b)
    } else {
        (a, b, z)
    }
}

/// The component that decides the sign: the largest, the last of equals.
pub open spec fn leading(v: Vec3) -> Scalar {
    let m = if flt(fabs(v.y), fabs(v.x)) {
        v.x
    } else {
        v.y
    };
    if flt(fabs(v.z), fabs(m)) {
        m
    } else {
        v.z
    }
}

/// A unit vector whose leading component is not negative.
pub open spec fn oriented(v: Vec3) -> Vec3 {
    let n = vnorm(v);
    let u = if flt(Scalar { bits: 0 }, n) {
        vdiv(v, n)
    } else {
        v
    };
    if flt(leading(u), Scalar { bits: 0 }) {
        Vec3 { x: fneg(u.x), y: fneg(u.y), z: fneg(u.z) }
    } else {
        u
    }
}

fn make_axis(value: Scalar, dir: Vec3) -> (r: Axis)
    ensures
        r == raw_axis(value, dir),
{
    Axis { radius: value.max(Scalar { bits: 0 }).sqrt(), dir }
}

fn leading_of(v: Vec3) -> (r: Scalar)
    ensures
        r == leading(v),
{
    let m = if v.x.abs().gt(v.y.abs()) {
        v.x
    } else {
        v.y
    };
    if m.abs().gt(v.z.abs()) {
        m
    } else {
        v.z
    }
}

fn orient(v: Vec3) -> (r: Vec3)
    ensures
        r == oriented(v),
{
    let n = v.norm();
    let u = if n.gt(Scalar { bits: 0 }) {
        v.over(n)
    } else {
        v
    };
    if leading_of(u).lt(Scalar { bits: 0 }) {
        Vec3 { x: u.x.neg(), y: u.y.neg(), z: u.z.neg() }
    } else {
        u
    }
}

fn longer(x: &Axis, y: &Axis) -> (r: bool)
    ensures
        r == goes_before(*x, *y),
{
    y.radius.sorts_before(x.radius)
}

/// The ellipsoid of a block with the given eigenvalues and eigenvectors.
pub fn ellipsoid(
    values: (Scalar, Scalar, Scalar),
    vectors: (Vec3, Vec3, Vec3),
) -> (r: ManipulabilityEllipsoid)
    ensures
        ({
            let (a, b, c) = by_radius(
                raw_axis(values.0, vectors.0),
                raw_axis(values.1, vectors.1),
                raw_axis(values.2, vectors.2),
            );
            r == (ManipulabilityEllipsoid {
                a: Axis { radius: a.radius, dir: oriented(a.dir) },
                b: Axis { radius: b.radius, dir: oriented(b.dir) },
                c: Axis { radius: c.radius, dir: oriented(c.dir) },
                volume: fmul(fmul(a.radius, b.radius), c.radius),
            })
        }),
{
    let x = make_axis(values.0, vectors.0);
    let y = make_axis(values.1, vectors.1);
    let z = make_axis(values.2, vectors.2);
    let (a, b) = if longer(&y, &x) {
        (y, x)
    } else {
        (x, y)
    };
    let (a, b, c) = if longer(&z, &a) {
        (z, a, b)
    } else if longer(&z, &b) {
        (a, z, b)
    } else {
        (a, b, z)
    };
    ManipulabilityEllipsoid {
        a: Axis { radius: a.radius, dir: orient(a.dir) },
        b: Axis { radius: b.radius, dir: orient(b.dir) },
        c: Axis { radius: c.radius, dir: orient(c.dir) },
        volume: a.radius.mul(b.radius).mul(c.radius),
    }
}

/// The radii of an ellipsoid descend.
pub proof fn law_radii_descend(x: Axis, y: Axis, z: Axis)
    ensures
        ({
            let (a, b, c) = by_radius(x, y, z);
            total_key(a.radius) >= total_key(b.radius) && total_key(b.radius) >= total_key(c.radius)
        }),
{
}

/// Keeps a commanded motion safe near singularities.
#[derive(Clone, Copy, Debug, PartialEq, Eq, Structural)]
pub struct SingularityGovernor {
    pub params: SingularityParams,
}

/// The squared damping: none above the threshold, rising smoothly below it.
pub open spec fn damping(p: SingularityParams, sigma_min: Scalar) -> Scalar {
    let r = fdiv(sigma_min, p.eps_activate);
    if fle(p.eps_activate, sigma_min) {
        Scalar { bits: 0 }
    } else {
        fmul(
            fmul(p.lambda_max, p.lambda_max),
            fsub(Scalar { bits: ONE_BITS }, fmul(r, r)),
        )
    }
}

/// How much of a direction with singular value `s` is kept.
pub open spec fn kept(s: Scalar, lambda2: Scalar, approaching: bool) -> Scalar {
    if approaching {
        fdiv(fmul(s, s), fadd(fmul(s, s), lambda2))
    } else {
        Scalar { bits: ONE_BITS }
    }
}

/// Scalar product of two directions, summed in order.
pub open spec fn twist_dot(a: Twist, b: Twist) -> Scalar {
    let z = Scalar { bits: 0 };
    fadd(
        fadd(
            fadd(
                fadd(
                    fadd(fadd(z, fmul(a.lin.x, b.lin.x)), fmul(a.lin.y, b.lin.y)),
                    fmul(a.lin.z, b.lin.z),
                ),
                fmul(a.ang.x, b.ang.x),
            ),
            fmul(a.ang.y, b.ang.y),
        ),
        fmul(a.ang.z, b.ang.z),
    )
}

/// `a + c * u`.
pub open spec fn twist_plus(a: Twist, c: Scalar, u: Twist) -> Twist {
    Twist {
        lin: Vec3 {
            x: fadd(a.lin.x, fmul(c, u.lin.x)),
            y: fadd(a.lin.y, fmul(c, u.lin.y)),
            z: fadd(a.lin.z, fmul(c, u.lin.z)),
        },
        ang: Vec3 {
            x: fadd(a.ang.x, fmul(c, u.ang.x)),
            y: fadd(a.ang.y, fmul(c, u.ang.y)),
            z: fadd(a.ang.z, fmul(c, u.ang.z)),
        },
    }
}

pub open spec fn no_twist() -> Twist {
    let z = Scalar { bits: 0 };
    Twist { lin: Vec3 { x: z, y: z, z }, ang: Vec3 { x: z, y: z, z } }
}

/// The parts of a motion along the first `k` directions, each scaled.
pub open spec fn governed(
    p: SingularityParams,
    v: Twist,
    u: Seq<Twist>,
    s: Seq<Scalar>,
    prev: Scalar,
    k: nat,
) -> Twist
    decreases k,
{
    if k == 0 {
        no_twist()
    } else {
        let g = kept(s[k - 1], damping(p, s.last()), flt(s.last(), prev));
        twist_plus(
            governed(p, v, u, s, prev, (k - 1) as nat),
            fmul(twist_dot(u[k - 1], v), g),
            u[k - 1],
        )
    }
}

fn dot6(a: Twist, b: Twist) -> (r: Scalar)
    ensures
        r == twist_dot(a, b),
{
    Scalar { bits: 0 }.add(a.lin.x.mul(b.lin.x)).add(a.lin.y.mul(b.lin.y)).add(
        a.lin.z.mul(b.lin.z),
    ).add(a.ang.x.mul(b.ang.x)).add(a.ang.y.mul(b.ang.y)).add(a.ang.z.mul(b.ang.z))
}

fn plus6(a: Twist, c: Scalar, u: Twist) -> (r: Twist)
    ensures
        r == twist_plus(a, c, u),
{
    Twist {
        lin: Vec3 {
            x: a.lin.x.add(c.mul(u.lin.x)),
            y: a.lin.y.add(c.mul(u.lin.y)),
            z: a.lin.z.add(c.mul(u.lin.z)),
        },
        ang: Vec3 {
            x: a.ang.x.add(c.mul(u.ang.x)),
            y: a.ang.y.add(c.mul(u.ang.y)),
            z: a.ang.z.add(c.mul(u.ang.z)),
        },
    }
}

impl SingularityGovernor {
    pub fn new(params: SingularityParams) -> (r: SingularityGovernor)
        ensures
            r.params == params,
    {
        SingularityGovernor { params }
    }

    /// The squared damping at a smallest singular value.
    pub fn damping_sq(&self, sigma_min: Scalar) -> (r: Scalar)
        ensures
            r == damping(self.params, sigma_min),
    {
        let e = self.params.eps_activate;
        if sigma_min.ge(e) {
            Scalar { bits: 0 }
        } else {
            let q = sigma_min.div(e);
            let top = self.params.lambda_max.mul(self.params.lambda_max);
            top.mul(Scalar { bits: ONE_BITS }.sub(q.mul(q)))
        }
    }

    /// Scales a commanded motion: weak directions are damped on the way into a
    /// singularity and free on the way out. Without directions it passes unchanged.
    pub fn scale_twist(
        &self,
        v_cmd: Twist,
        u: &Vec<Twist>,
        s: &Vec<Scalar>,
        prev_sigma_min: Scalar,
    ) -> (r: Twist)
        ensures
            r == (if s@.len() == 0 || u@.len() < s@.len() {
                v_cmd
            } else {
                governed(self.params, v_cmd, u@, s@, prev_sigma_min, s@.len())
            }),
    {
        let k: usize = s.len();
        if k == 0 || u.len() < k {
            return v_cmd;
        }
        let lambda2 = self.damping_sq(s[k - 1]);
        let approaching = s[k - 1].lt(prev_sigma_min);
        let z = Scalar { bits: 0 };
        let mut out = Twist { lin: Vec3 { x: z, y: z, z }, ang: Vec3 { x: z, y: z, z } };
        let mut i: usize = 0;
        while i < k
            invariant
                i <= k,
                k == s@.len(),
                k > 0,
                u@.len() >= k,
                lambda2 == damping(self.params, s@.last()),
                approaching == flt(s@.last(), prev_sigma_min),
                out == governed(self.params, v_cmd, u@, s@, prev_sigma_min, i as nat),
            decreases k - i,
        {
            let ui = u[i];
            let c = dot6(ui, v_cmd);
            let sg = s[i];
            let gain = if approaching {
                sg.mul(sg).div(sg.mul(sg).add(lambda2))
            } else {
                Scalar { bits: ONE_BITS }
            };
            out = plus6(out, c.mul(gain), ui);
            i = i + 1;
        }
        out
    }
}

/// Far from singularities nothing is damped.
pub proof fn law_no_damping_above_threshold(p: SingularityParams, sigma_min: Scalar)
    requires
        fle(p.eps_activate, sigma_min),
    ensures
        damping(p, sigma_min) == (Scalar { bits: 0 }),
{
}

/// On the way out of a singularity every direction keeps its full part.
pub proof fn law_leaving_is_free(s: Scalar, lambda2: Scalar)
    ensures
        kept(s, lambda2, false) == (Scalar { bits: ONE_BITS }),
{
}

/// Nearer to a singularity the damping is never less.
pub proof fn law_damping_grows_toward_singularity(p: SingularityParams, a: Scalar, b: Scalar)
    requires
        p.eps_activate.finite(),
        flt(Scalar { bits: 0 }, p.eps_activate),
        p.lambda_max.finite(),
        fle(Scalar { bits: 0 }, a),
        fle(a, b),
    ensures
        !flt(damping(p, a), damping(p, b)),
{
    let zero = Scalar { bits: 0 };
    let one = Scalar { bits: ONE_BITS };
    let e = p.eps_activate;
    let l = fmul(p.lambda_max, p.lambda_max);
    if !fle(e, a) {
        lemma_square_not_negative(p.lambda_max);
        let ra = fdiv(a, e);
        lemma_share(a, e);
        let da = fsub(one, fmul(ra, ra));
        if l.finite() {
            law_products_keep_order(zero, da, l);
            law_products_commute(l, da);
            if !fle(e, b) {
                let rb = fdiv(b, e);
                lemma_share(b, e);
                law_quotients_keep_order(a, b, e);
                law_products_keep_order(ra, rb, ra);
                law_products_commute(rb, ra);
                law_products_keep_order(ra, rb, rb);
                law_differences_reverse_order(one, fmul(ra, ra), fmul(rb, rb));
                let db = fsub(one, fmul(rb, rb));
                law_products_keep_order(db, da, l);
                law_products_commute(l, db);
            }
        } else {
            reveal(fmul);
            assert(damping(p, a).nan() || damping(p, a).infinite());
        }
    }
}

proof fn lemma_square_not_negative(x: Scalar)
    requires
        x.finite(),
    ensures
        fle(Scalar { bits: 0 }, fmul(x, x)),
{
    reveal(fmul);
}

/// A part of a whole, its square, and what is left of one are in `[0, 1]`.
proof fn lemma_share(a: Scalar, e: Scalar)
    requires
        e.finite(),
        flt(Scalar { bits: 0 }, e),
        fle(Scalar { bits: 0 }, a),
        flt(a, e),
    ensures
        ({
            let zero = Scalar { bits: 0 };
            let one = Scalar { bits: ONE_BITS };
            let r = fdiv(a, e);
            let x = fmul(r, r);
            let d = fsub(one, x);
            &&& fle(zero, r) && r.finite()
            &&& fle(zero, x) && x.finite()
            &&& fle(zero, d) && d.finite()
        }),
{
    let zero = Scalar { bits: 0 };
    let one = Scalar { bits: ONE_BITS };
    let r = fdiv(a, e);
    law_quotients_keep_order(a, e, e);
    lemma_over_itself(e);
    lemma_ones();
    law_products_keep_order(r, one, r);
    law_products_commute(one, r);
    law_products_keep_order(r, one, one);
    let x = fmul(r, r);
    law_differences_reverse_order(one, x, one);
    law_differences_reverse_order(one, zero, x);
    lemma_less_nothing(one);
}

/// A Jacobian taken apart: its singular values in descending order, the joint and task
/// directions of the smallest, and the eigenvalues of its square with their directions.
pub struct Decomposition {
    pub values: Vec<Scalar>,
    pub escape: Vec<Scalar>,
    pub lost: Twist,
    pub eigenvalues: Vec<Scalar>,
    pub eigenvectors: Vec<Vec<Scalar>>,
}

impl Decomposition {
    /// There is a singular value, and a direction for every eigenvalue.
    pub open spec fn whole(&self) -> bool {
        self.values@.len() > 0 && self.eigenvectors@.len() == self.eigenvalues@.len()
    }
}

/// The report on a Jacobian, with the motion of the joints out of the singularity and the
/// motions of the joints that move nothing.
#[derive(Debug)]
pub struct JacobianStudy {
    pub report: SingularityReport,
    pub escape_direction: Vec<Scalar>,
    pub nullspace_basis: Vec<Vec<Scalar>>,
}

/// What comes of a Jacobian of `n` columns that says nothing.
pub open spec fn says_nothing(r: JacobianStudy, n: nat) -> bool {
    &&& degenerate(r.report)
    &&& r.escape_direction@ == zero_seq(n)
    &&& r.nullspace_basis@.len() == 0
}

/// What comes of a Jacobian that was taken apart.
pub open spec fn studied(r: JacobianStudy, d: Decomposition, p: SingularityParams) -> bool {
    &&& reported(r.report, d.values@, d.escape@, d.lost, d.eigenvalues@, p)
    &&& r.escape_direction@ == d.escape@
    &&& r.nullspace_basis@.len() == r.report.null_directions@.len()
    &&& forall|k: int|
        0 <= k < r.nullspace_basis@.len() ==> (#[trigger] r.nullspace_basis@[k])@
            == d.eigenvectors@[r.report.null_directions@[k] as int]@
}

proof fn lemma_null_directions(e: Seq<Scalar>, tol_sq: Scalar, n: nat, k: int)
    requires
        0 <= k < null_directions(e, tol_sq, n).len(),
    ensures
        0 <= null_directions(e, tol_sq, n)[k] < n,
    decreases n,
{
    if n > 0 && k < null_directions(e, tol_sq, (n - 1) as nat).len() {
        lemma_null_directions(e, tol_sq, (n - 1) as nat, k);
    }
}

fn nothing(n: usize) -> (r: JacobianStudy)
    ensures
        says_nothing(r, n as nat),
{
    JacobianStudy {
        report: degenerate_report(),
        escape_direction: zeros(n),
        nullspace_basis: Vec::new(),
    }
}

/// The study of the Jacobian of some columns. It is taken apart by a function that is handed
/// in, and only where its columns are finite; where they are not, or where it cannot be
/// taken apart, there is nothing to say of it.
pub fn study_jacobian<F: Fn(&Vec<Twist>) -> Option<Decomposition>>(
    cols: &Vec<Twist>,
    decompose: &F,
    p: &SingularityParams,
) -> (r: JacobianStudy)
    requires
        forall|c: &Vec<Twist>| #[trigger]
            can_be_analyzed(c@) ==> call_requires(*decompose, (c,)),
    ensures
        !can_be_analyzed(cols@) ==> says_nothing(r, cols@.len()),
        can_be_analyzed(cols@) ==> exists|d: Option<Decomposition>| #[trigger]
            call_ensures(*decompose, (cols,), d) && match d {
                Some(x) => if x.whole() {
                    studied(r, x, *p)
                } else {
                    says_nothing(r, cols@.len())
                },
                None => says_nothing(r, cols@.len()),
            },
{
    if !workable(cols) {
        return nothing(cols.len());
    }
    let found = decompose(cols);
    let ghost seen = found;
    let d = match found {
        Some(d) => d,
        None => {
            assert(call_ensures(*decompose, (cols,), seen));
            return nothing(cols.len());
        },
    };
    if d.values.len() == 0 || d.eigenvectors.len() != d.eigenvalues.len() {
        assert(call_ensures(*decompose, (cols,), seen));
        return nothing(cols.len());
    }
    let ghost whole = d;
    let report = analyze(&d.values, &d.escape, d.lost, &d.eigenvalues, p);
    let mut basis: Vec<Vec<Scalar>> = Vec::new();
    let mut k: usize = 0;
    let ghost tol = fmul(fmul(p.eps_null, d.values@[0]), fmul(p.eps_null, d.values@[0]));
    while k < report.null_directions.len()
        invariant
            k <= report.null_directions.len(),
            d.eigenvectors@.len() == d.eigenvalues@.len(),
            indices(report.null_directions@) == null_directions(
                d.eigenvalues@,
                tol,
                d.eigenvalues@.len(),
            ),
            basis.len() == k,
            forall|c: int|
                0 <= c < k ==> (#[trigger] basis@[c])@
                    == d.eigenvectors@[report.null_directions@[c] as int]@,
        decreases report.null_directions.len() - k,
    {
        proof {
            lemma_null_directions(d.eigenvalues@, tol, d.eigenvalues@.len(), k as int);
            assert(indices(report.null_directions@)[k as int] == report.null_directions@[k as int]);
        }
        basis.push(copy_scalars(d.eigenvectors[report.null_directions[k]].as_slice()));
        k = k + 1;
    }
    let r = JacobianStudy { report, escape_direction: d.escape, nullspace_basis: basis };
    proof {
        assert(studied(r, whole, *p));
        assert(call_ensures(*decompose, (cols,), seen));
    }
    r
}

} // verus!
