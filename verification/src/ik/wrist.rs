//! The branches of the closed form: shoulder front or back, elbow up or down, wrist
//! flipped or not.
//!
//! The first three joints place the centre of the wrist, which the last three do not
//! move; the last three turn the tool. Angles come from functions handed in.

use vstd::prelude::*;

#[allow(unused_imports)]
use crate::hal::safety::limits_ordered;
use crate::ik::branches::{choose_branches, is_canonical};
#[allow(unused_imports)]
use crate::ik::branches::{canonical, chosen, measures};
use crate::model::Model;
#[allow(unused_imports)]
use crate::motion::scurve::computes;
#[allow(unused_imports)]
use crate::motion::trajectory::rows_of;
use crate::scalar::consts::{MINUS_ONE_BITS, NANO_BITS, ONE_BITS, PI_BITS, TWO_BITS};
#[allow(unused_imports)]
use crate::scalar::convert::fclamp;
#[allow(unused_imports)]
use crate::scalar::number::{fabs, fadd, fdiv, fle, flt, fmul, fneg, fsub};
#[allow(unused_imports)]
use crate::scalar::root::fsqrt;
use crate::scalar::vec3::Vec3;
#[allow(unused_imports)]
use crate::scalar::vec3::vdot;
use crate::scalar::Scalar;

verus! {

/// `1e-8`: a wrist bent by less is straight.
pub const STRAIGHT_BITS: u64 = 0x3E45_798E_E230_8C3A;

/// Trigonometry that is handed in.
pub struct Trig<S, C, A, N, T> {
    pub sin: S,
    pub cos: C,
    pub asin: A,
    pub acos: N,
    pub atan2: T,
}

/// `Trig` over functions.
pub struct TrigV {
    pub sin: spec_fn(Scalar) -> Scalar,
    pub cos: spec_fn(Scalar) -> Scalar,
    pub asin: spec_fn(Scalar) -> Scalar,
    pub acos: spec_fn(Scalar) -> Scalar,
    pub atan2: spec_fn(Scalar, Scalar) -> Scalar,
}

impl<
    S: Fn(Scalar) -> Scalar,
    C: Fn(Scalar) -> Scalar,
    A: Fn(Scalar) -> Scalar,
    N: Fn(Scalar) -> Scalar,
    T: Fn(Scalar, Scalar) -> Scalar,
> Trig<S, C, A, N, T> {
    /// The functions are those of `t`.
    pub open spec fn answers(&self, t: TrigV) -> bool {
        &&& computes(self.sin, t.sin)
        &&& computes(self.cos, t.cos)
        &&& computes(self.asin, t.asin)
        &&& computes(self.acos, t.acos)
        &&& forall|y: Scalar, x: Scalar, r: Scalar|
            call_ensures(self.atan2, (y, x), r) ==> r == (t.atan2)(y, x)
    }

    /// The functions take every number.
    pub open spec fn usable(&self) -> bool {
        &&& forall|x: Scalar| call_requires(self.sin, (x,))
        &&& forall|x: Scalar| call_requires(self.cos, (x,))
        &&& forall|x: Scalar| call_requires(self.asin, (x,))
        &&& forall|x: Scalar| call_requires(self.acos, (x,))
        &&& forall|y: Scalar, x: Scalar| call_requires(self.atan2, (y, x))
    }
}

/// A rotation, by its columns.
#[derive(Clone, Copy, Debug, PartialEq, Eq, Structural)]
pub struct Rotation {
    pub a: Vec3,
    pub b: Vec3,
    pub c: Vec3,
}

/// Where a joint sits on the one before it.
#[derive(Clone, Copy, Debug, PartialEq, Eq, Structural)]
pub struct Mount {
    pub turn: Rotation,
    pub at: Vec3,
}

/// The lengths of a canonical arm.
#[derive(Clone, Copy, Debug, PartialEq, Eq, Structural)]
pub struct WristParams {
    /// Where the first joint is.
    pub o1: Vec3,
    /// Where the second joint is on the first.
    pub o2: Vec3,
    /// Upper arm.
    pub l_a: Scalar,
    /// Forearm, up to the centre of the wrist.
    pub l_b: Scalar,
    /// Sideways offset of the wrist.
    pub d_y: Scalar,
}

/// How far a rotation is from none.
pub open spec fn turned(r: Rotation) -> Scalar {
    let one = Scalar { bits: ONE_BITS };
    let a = Vec3 { x: fsub(r.a.x, one), ..r.a };
    let b = Vec3 { y: fsub(r.b.y, one), ..r.b };
    let c = Vec3 { z: fsub(r.c.z, one), ..r.c };
    fsqrt(fadd(fadd(vdot(a, a), vdot(b, b)), vdot(c, c)))
}

fn turned_by(r: Rotation) -> (x: Scalar)
    ensures
        x == turned(r),
{
    let one = Scalar { bits: ONE_BITS };
    let a = Vec3 { x: r.a.x.sub(one), y: r.a.y, z: r.a.z };
    let b = Vec3 { x: r.b.x, y: r.b.y.sub(one), z: r.b.z };
    let c = Vec3 { x: r.c.x, y: r.c.y, z: r.c.z.sub(one) };
    a.dot(a).add(b.dot(b)).add(c.dot(c)).sqrt()
}

/// The lengths of an arm, if the closed form is for it: its joints stand straight on
/// each other, its links lie along z, and its last three axes meet in `centre`, seen
/// from the third joint.
pub open spec fn params_of(
    model: Model,
    frame: int,
    mounts: Seq<Mount>,
    centre: Option<Vec3>,
) -> Option<WristParams> {
    let tol = Scalar { bits: NANO_BITS };
    if canonical(model, frame) && mounts.len() == 6 && (forall|i: int|
        0 <= i < 6 ==> !flt(tol, turned((#[trigger] mounts[i]).turn))) && !flt(
        tol,
        fabs(mounts[2].at.x),
    ) {
        match centre {
            None => None,
            Some(c) => if flt(tol, fabs(c.x)) || flt(fabs(mounts[2].at.z), tol) || flt(
                fabs(c.z),
                tol,
            ) {
                None
            } else {
                Some(
                    WristParams {
                        o1: mounts[0].at,
                        o2: mounts[1].at,
                        l_a: mounts[2].at.z,
                        l_b: c.z,
                        d_y: fadd(fadd(mounts[1].at.y, mounts[2].at.y), c.y),
                    },
                )
            },
        }
    } else {
        None
    }
}

/// Recognises an arm of the closed form.
pub fn detect(model: &Model, frame: usize, mounts: &Vec<Mount>, centre: Option<Vec3>) -> (r: Option<
    WristParams,
>)
    ensures
        r == params_of(*model, frame as int, mounts@, centre),
{
    let tol = Scalar { bits: NANO_BITS };
    if !is_canonical(model, frame) || mounts.len() != 6 {
        return None;
    }
    let mut i: usize = 0;
    while i < 6
        invariant
            i <= 6,
            mounts@.len() == 6,
            tol == (Scalar { bits: NANO_BITS }),
            forall|k: int| 0 <= k < i ==> !flt(tol, turned((#[trigger] mounts@[k]).turn)),
        decreases 6 - i,
    {
        if turned_by(mounts[i].turn).gt(tol) {
            assert(flt(tol, turned(mounts@[i as int].turn)));
            return None;
        }
        i = i + 1;
    }
    let elbow = mounts[2].at;
    if elbow.x.abs().gt(tol) {
        return None;
    }
    match centre {
        None => None,
        Some(c) => {
            if c.x.abs().gt(tol) || elbow.z.abs().lt(tol) || c.z.abs().lt(tol) {
                None
            } else {
                Some(
                    WristParams {
                        o1: mounts[0].at,
                        o2: mounts[1].at,
                        l_a: elbow.z,
                        l_b: c.z,
                        d_y: mounts[1].at.y.add(elbow.y).add(c.y),
                    },
                )
            }
        },
    }
}

/// Just over one.
pub open spec fn over_one() -> Scalar {
    fadd(Scalar { bits: ONE_BITS }, Scalar { bits: NANO_BITS })
}

/// `x` in `[-1, 1]`.
pub open spec fn to_unit(x: Scalar) -> Scalar {
    fclamp(x, Scalar { bits: MINUS_ONE_BITS }, Scalar { bits: ONE_BITS })
}

fn unit_clamp(x: Scalar) -> (r: Scalar)
    ensures
        r == to_unit(x),
{
    x.clamp(Scalar { bits: MINUS_ONE_BITS }, Scalar { bits: ONE_BITS })
}

/// The shoulder angles for a centre of the wrist at `w` from the first joint. There are
/// none over the first axis, or nearer to it than the arm is wide.
pub open spec fn shoulders(p: WristParams, w: Vec3, t: TrigV) -> Seq<Scalar> {
    let r = fsqrt(fadd(fmul(w.x, w.x), fmul(w.y, w.y)));
    let ratio = fdiv(p.d_y, r);
    if flt(r, Scalar { bits: NANO_BITS }) || flt(over_one(), fabs(ratio)) {
        Seq::empty()
    } else {
        let a = (t.asin)(to_unit(ratio));
        let phi = (t.atan2)(w.y, w.x);
        seq![fsub(phi, a), fsub(phi, fsub(Scalar { bits: PI_BITS }, a))]
    }
}

/// Where the centre of the wrist is from the second joint, in the plane of the arm.
pub open spec fn in_plane(p: WristParams, w: Vec3, t: TrigV, q1: Scalar) -> (Scalar, Scalar) {
    let x = fadd(fmul(w.x, (t.cos)(q1)), fmul(w.y, (t.sin)(q1)));
    (fsub(x, p.o2.x), fsub(w.z, p.o2.z))
}

/// The cosine of the elbow angle that reaches so far.
pub open spec fn elbow_cosine(p: WristParams, dx: Scalar, dz: Scalar) -> Scalar {
    let dd = fadd(fmul(dx, dx), fmul(dz, dz));
    fdiv(
        fsub(fsub(dd, fmul(p.l_a, p.l_a)), fmul(p.l_b, p.l_b)),
        fmul(fmul(Scalar { bits: TWO_BITS }, p.l_a), p.l_b),
    )
}

pub open spec fn upper_angle(
    p: WristParams,
    dx: Scalar,
    dz: Scalar,
    q3: Scalar,
    t: TrigV,
) -> Scalar {
    fsub(
        (t.atan2)(dx, dz),
        (t.atan2)(fmul(p.l_b, (t.sin)(q3)), fadd(p.l_a, fmul(p.l_b, (t.cos)(q3)))),
    )
}

/// The first three angles for one shoulder angle: elbow one way, then the other.
pub open spec fn elbows(p: WristParams, w: Vec3, t: TrigV, q1: Scalar) -> Seq<
    (Scalar, Scalar, Scalar),
> {
    let (dx, dz) = in_plane(p, w, t, q1);
    let c = elbow_cosine(p, dx, dz);
    if flt(over_one(), fabs(c)) {
        Seq::empty()
    } else {
        let q3 = (t.acos)(to_unit(c));
        seq![
            (q1, upper_angle(p, dx, dz, q3, t), q3),
            (q1, upper_angle(p, dx, dz, fneg(q3), t), fneg(q3)),
        ]
    }
}

/// The first three angles for the first `n` shoulder angles.
pub open spec fn arms(p: WristParams, w: Vec3, t: TrigV, n: nat) -> Seq<(Scalar, Scalar, Scalar)>
    decreases n,
{
    if n == 0 {
        Seq::empty()
    } else {
        arms(p, w, t, (n - 1) as nat) + elbows(p, w, t, shoulders(p, w, t)[n - 1])
    }
}

/// The first three angles, for every shoulder and elbow.
pub open spec fn arm_branches(p: WristParams, w: Vec3, t: TrigV) -> Seq<(Scalar, Scalar, Scalar)> {
    arms(p, w, t, shoulders(p, w, t).len())
}

/// The wrist angles about z, y and z that make a rotation. A straight wrist has but one
/// solution for each first angle, which is that of the seed, or zero.
pub open spec fn wrists(m: Rotation, seed: Option<Scalar>, t: TrigV) -> Seq<
    (Scalar, Scalar, Scalar),
> {
    let zero = Scalar { bits: 0 };
    let bend = fsqrt(fadd(fmul(m.c.x, m.c.x), fmul(m.c.y, m.c.y)));
    if flt(bend, Scalar { bits: STRAIGHT_BITS }) {
        let q4 = match seed {
            Some(x) => x,
            None => zero,
        };
        if fle(zero, m.c.z) {
            seq![(q4, zero, fsub((t.atan2)(m.a.y, m.a.x), q4))]
        } else {
            seq![
                (
                    q4,
                    Scalar { bits: PI_BITS },
                    fsub(q4, (t.atan2)(fneg(m.b.x), fneg(m.a.x))),
                ),
            ]
        }
    } else {
        let b = (t.atan2)(bend, m.c.z);
        seq![
            ((t.atan2)(m.c.y, m.c.x), b, (t.atan2)(m.b.z, fneg(m.a.z))),
            (
                (t.atan2)(fneg(m.c.y), fneg(m.c.x)),
                fneg(b),
                (t.atan2)(fneg(m.b.z), m.a.z),
            ),
        ]
    }
}

/// The rotation that is left for the wrist, handed in as a function of the shoulder
/// angle and the sum of the next two.
pub open spec fn leaves<R: Fn(Scalar, Scalar) -> Rotation>(
    f: R,
    g: spec_fn(Scalar, Scalar) -> Rotation,
) -> bool {
    forall|a: Scalar, b: Scalar, r: Rotation| call_ensures(f, (a, b), r) ==> r == g(a, b)
}

/// Six angles from three and three.
pub open spec fn six(a: (Scalar, Scalar, Scalar), b: (Scalar, Scalar, Scalar)) -> Seq<Scalar> {
    seq![a.0, a.1, a.2, b.0, b.1, b.2]
}

/// One set of first angles with each set of wrist angles.
pub open spec fn with_wrists(
    a: (Scalar, Scalar, Scalar),
    g: spec_fn(Scalar, Scalar) -> Rotation,
    seed: Option<Scalar>,
    t: TrigV,
) -> Seq<Seq<Scalar>> {
    wrists(g(a.0, fadd(a.1, a.2)), seed, t).map_values(|b: (Scalar, Scalar, Scalar)| six(a, b))
}

/// The first `n` sets of first angles with their wrist angles.
pub open spec fn whole(
    s: Seq<(Scalar, Scalar, Scalar)>,
    g: spec_fn(Scalar, Scalar) -> Rotation,
    seed: Option<Scalar>,
    t: TrigV,
    n: nat,
) -> Seq<Seq<Scalar>>
    decreases n,
{
    if n == 0 {
        Seq::empty()
    } else {
        whole(s, g, seed, t, (n - 1) as nat) + with_wrists(s[n - 1], g, seed, t)
    }
}

/// All branches, before limits and the target have been looked at.
pub open spec fn raw_branches(
    p: WristParams,
    w: Vec3,
    g: spec_fn(Scalar, Scalar) -> Rotation,
    seed: Option<Scalar>,
    t: TrigV,
) -> Seq<Seq<Scalar>> {
    whole(arm_branches(p, w, t), g, seed, t, arm_branches(p, w, t).len())
}

fn find_arms<
    S: Fn(Scalar) -> Scalar,
    C: Fn(Scalar) -> Scalar,
    A: Fn(Scalar) -> Scalar,
    N: Fn(Scalar) -> Scalar,
    T: Fn(Scalar, Scalar) -> Scalar,
>(p: &WristParams, w: Vec3, trig: &Trig<S, C, A, N, T>) -> (r: Vec<(Scalar, Scalar, Scalar)>)
    requires
        trig.usable(),
    ensures
        forall|t: TrigV| #[trigger] trig.answers(t) ==> r@ == arm_branches(*p, w, t),
{
    let mut out: Vec<(Scalar, Scalar, Scalar)> = Vec::new();
    let reach = w.x.mul(w.x).add(w.y.mul(w.y)).sqrt();
    let limit = Scalar { bits: ONE_BITS }.add(Scalar { bits: NANO_BITS });
    let ratio = p.d_y.div(reach);
    if reach.lt(Scalar { bits: NANO_BITS }) || ratio.abs().gt(limit) {
        return out;
    }
    let a = (trig.asin)(unit_clamp(ratio));
    let phi = (trig.atan2)(w.y, w.x);
    let q1s = [phi.sub(a), phi.sub(Scalar { bits: PI_BITS }.sub(a))];
    proof {
        assert forall|t: TrigV| #[trigger] trig.answers(t) implies q1s@ == shoulders(*p, w, t) by {
            assert(q1s@ =~= shoulders(*p, w, t));
        }
        assert forall|t: TrigV| #[trigger] trig.answers(t) implies out@ == arms(*p, w, t, 0) by {}
    }
    let mut i: usize = 0;
    while i < 2
        invariant
            i <= 2,
            trig.usable(),
            limit == over_one(),
            forall|t: TrigV| #[trigger]
                trig.answers(t) ==> q1s@ == shoulders(*p, w, t) && out@ == arms(
                    *p,
                    w,
                    t,
                    i as nat,
                ),
        decreases 2 - i,
    {
        let ghost before = out@;
        let q1 = q1s[i];
        let x = w.x.mul((trig.cos)(q1)).add(w.y.mul((trig.sin)(q1)));
        let dx = x.sub(p.o2.x);
        let dz = w.z.sub(p.o2.z);
        let dd = dx.mul(dx).add(dz.mul(dz));
        let c = dd.sub(p.l_a.mul(p.l_a)).sub(p.l_b.mul(p.l_b)).div(
            Scalar { bits: TWO_BITS }.mul(p.l_a).mul(p.l_b),
        );
        if !c.abs().gt(limit) {
            let m = (trig.acos)(unit_clamp(c));
            let up = find_upper(p, dx, dz, m, trig);
            let down = find_upper(p, dx, dz, m.neg(), trig);
            out.push((q1, up, m));
            out.push((q1, down, m.neg()));
            proof {
                assert forall|t: TrigV| #[trigger] trig.answers(t) implies out@ == before + elbows(
                    *p,
                    w,
                    t,
                    q1,
                ) by {
                    assert(out@ =~= before + elbows(*p, w, t, q1));
                }
            }
        } else {
            proof {
                assert forall|t: TrigV| #[trigger] trig.answers(t) implies out@ == before + elbows(
                    *p,
                    w,
                    t,
                    q1,
                ) by {
                    assert(elbows(*p, w, t, q1) =~= Seq::empty());
                    assert(out@ =~= before + elbows(*p, w, t, q1));
                }
            }
        }
        i = i + 1;
    }
    proof {
        assert forall|t: TrigV| #[trigger] trig.answers(t) implies out@ == arm_branches(
            *p,
            w,
            t,
        ) by {
            assert(shoulders(*p, w, t).len() == 2);
        }
    }
    out
}

fn find_upper<
    S: Fn(Scalar) -> Scalar,
    C: Fn(Scalar) -> Scalar,
    A: Fn(Scalar) -> Scalar,
    N: Fn(Scalar) -> Scalar,
    T: Fn(Scalar, Scalar) -> Scalar,
>(p: &WristParams, dx: Scalar, dz: Scalar, q3: Scalar, trig: &Trig<S, C, A, N, T>) -> (r: Scalar)
    requires
        trig.usable(),
    ensures
        forall|t: TrigV| #[trigger] trig.answers(t) ==> r == upper_angle(*p, dx, dz, q3, t),
{
    let a = (trig.atan2)(dx, dz);
    let y = p.l_b.mul((trig.sin)(q3));
    let x = p.l_a.add(p.l_b.mul((trig.cos)(q3)));
    a.sub((trig.atan2)(y, x))
}

/// The wrist angles about z, y and z that make a rotation.
pub fn zyz_branches<
    S: Fn(Scalar) -> Scalar,
    C: Fn(Scalar) -> Scalar,
    A: Fn(Scalar) -> Scalar,
    N: Fn(Scalar) -> Scalar,
    T: Fn(Scalar, Scalar) -> Scalar,
>(m: &Rotation, seed_q4: Option<Scalar>, trig: &Trig<S, C, A, N, T>) -> (r: Vec<
    (Scalar, Scalar, Scalar),
>)
    requires
        trig.usable(),
    ensures
        forall|t: TrigV| #[trigger] trig.answers(t) ==> r@ == wrists(*m, seed_q4, t),
{
    let zero = Scalar { bits: 0 };
    let mut out: Vec<(Scalar, Scalar, Scalar)> = Vec::new();
    let bend = m.c.x.mul(m.c.x).add(m.c.y.mul(m.c.y)).sqrt();
    if bend.lt(Scalar { bits: STRAIGHT_BITS }) {
        let q4 = match seed_q4 {
            Some(x) => x,
            None => zero,
        };
        if m.c.z.ge(zero) {
            let total = (trig.atan2)(m.a.y, m.a.x);
            out.push((q4, zero, total.sub(q4)));
        } else {
            let diff = (trig.atan2)(m.b.x.neg(), m.a.x.neg());
            out.push((q4, Scalar { bits: PI_BITS }, q4.sub(diff)));
        }
    } else {
        let b = (trig.atan2)(bend, m.c.z);
        let a1 = (trig.atan2)(m.c.y, m.c.x);
        let c1 = (trig.atan2)(m.b.z, m.a.z.neg());
        out.push((a1, b, c1));
        let a2 = (trig.atan2)(m.c.y.neg(), m.c.x.neg());
        let c2 = (trig.atan2)(m.b.z.neg(), m.a.z);
        out.push((a2, b.neg(), c2));
    }
    proof {
        assert forall|t: TrigV| #[trigger] trig.answers(t) implies out@ == wrists(
            *m,
            seed_q4,
            t,
        ) by {
            assert(out@ =~= wrists(*m, seed_q4, t));
        }
    }
    out
}

fn find_raw<
    S: Fn(Scalar) -> Scalar,
    C: Fn(Scalar) -> Scalar,
    A: Fn(Scalar) -> Scalar,
    N: Fn(Scalar) -> Scalar,
    T: Fn(Scalar, Scalar) -> Scalar,
    R: Fn(Scalar, Scalar) -> Rotation,
>(p: &WristParams, w: Vec3, seed_q4: Option<Scalar>, trig: &Trig<S, C, A, N, T>, left: &R) -> (r:
    Vec<Vec<Scalar>>)
    requires
        trig.usable(),
        forall|a: Scalar, b: Scalar| call_requires(*left, (a, b)),
    ensures
        forall|i: int| 0 <= i < r@.len() ==> (#[trigger] r@[i])@.len() == 6,
        forall|t: TrigV, g: spec_fn(Scalar, Scalar) -> Rotation|
            #![trigger trig.answers(t), leaves(*left, g)]
            trig.answers(t) && leaves(*left, g) ==> rows_of(r@) == raw_branches(
                *p,
                w,
                g,
                seed_q4,
                t,
            ),
{
    let found = find_arms(p, w, trig);
    let mut out: Vec<Vec<Scalar>> = Vec::new();
    let mut i: usize = 0;
    proof {
        assert(rows_of(out@) =~= Seq::empty());
    }
    while i < found.len()
        invariant
            i <= found.len(),
            trig.usable(),
            forall|a: Scalar, b: Scalar| call_requires(*left, (a, b)),
            forall|k: int| 0 <= k < out@.len() ==> (#[trigger] out@[k])@.len() == 6,
            forall|t: TrigV, g: spec_fn(Scalar, Scalar) -> Rotation|
                #![trigger trig.answers(t), leaves(*left, g)]
                trig.answers(t) && leaves(*left, g) ==> rows_of(out@) == whole(
                    found@,
                    g,
                    seed_q4,
                    t,
                    i as nat,
                ),
        decreases found.len() - i,
    {
        let a = found[i];
        let m = left(a.0, a.1.add(a.2));
        let turns = zyz_branches(&m, seed_q4, trig);
        let ghost before = rows_of(out@);
        let ghost added = turns@.map_values(|b: (Scalar, Scalar, Scalar)| six(a, b));
        let mut k: usize = 0;
        proof {
            assert(rows_of(out@) =~= before + added.take(0));
        }
        while k < turns.len()
            invariant
                k <= turns.len(),
                added == turns@.map_values(|b: (Scalar, Scalar, Scalar)| six(a, b)),
                rows_of(out@) == before + added.take(k as int),
                forall|k: int| 0 <= k < out@.len() ==> (#[trigger] out@[k])@.len() == 6,
            decreases turns.len() - k,
        {
            let b = turns[k];
            let mut row: Vec<Scalar> = Vec::new();
            row.push(a.0);
            row.push(a.1);
            row.push(a.2);
            row.push(b.0);
            row.push(b.1);
            row.push(b.2);
            let ghost o = out@;
            out.push(row);
            proof {
                assert(row@ =~= six(a, b));
                assert(rows_of(out@) =~= rows_of(o).push(row@));
                assert(added.take(k + 1) =~= added.take(k as int).push(added[k as int]));
                assert(rows_of(out@) =~= before + added.take(k + 1));
            }
            k = k + 1;
        }
        proof {
            assert(added.take(turns@.len() as int) =~= added);
            assert forall|t: TrigV, g: spec_fn(Scalar, Scalar) -> Rotation|
                #![trigger trig.answers(t), leaves(*left, g)]
                trig.answers(t) && leaves(*left, g) implies rows_of(out@) == whole(
                found@,
                g,
                seed_q4,
                t,
                (i + 1) as nat,
            ) by {
                assert(before == whole(found@, g, seed_q4, t, i as nat));
                assert(m == g(a.0, fadd(a.1, a.2)));
                assert(added =~= with_wrists(a, g, seed_q4, t));
            }
        }
        i = i + 1;
    }
    out
}

/// The closed form: every branch that fits the limits and reaches the target, nearest to
/// the seed first, where there is one. `w` is the centre of the wrist from the first
/// joint, `left` the rotation that is left for the wrist; `wrap` brings an angle to the
/// principal turn, and `residual` says how far a configuration is from the target.
pub fn analytic_ik_6r<
    S: Fn(Scalar) -> Scalar,
    C: Fn(Scalar) -> Scalar,
    A: Fn(Scalar) -> Scalar,
    N: Fn(Scalar) -> Scalar,
    T: Fn(Scalar, Scalar) -> Scalar,
    R: Fn(Scalar, Scalar) -> Rotation,
    W: Fn(Scalar) -> Scalar,
    M: Fn(&[Scalar]) -> Scalar,
>(
    model: &Model,
    p: &WristParams,
    w: Vec3,
    seed: Option<&[Scalar]>,
    trig: &Trig<S, C, A, N, T>,
    left: &R,
    wrap: &W,
    residual: &M,
) -> (r: Vec<Vec<Scalar>>)
    requires
        trig.usable(),
        forall|a: Scalar, b: Scalar| call_requires(*left, (a, b)),
        forall|x: Scalar| call_requires(*wrap, (x,)),
        forall|q: &[Scalar]| call_requires(*residual, (q,)),
        model.limits@.len() >= 6,
        limits_ordered(model.limits@),
        seed matches Some(s) ==> s@.len() > 3,
    ensures
        forall|
            t: TrigV,
            g: spec_fn(Scalar, Scalar) -> Rotation,
            h: spec_fn(Scalar) -> Scalar,
            m: spec_fn(Seq<Scalar>) -> Scalar,
        |
            #![trigger trig.answers(t), leaves(*left, g), computes(*wrap, h), measures(*residual, m)]
            trig.answers(t) && leaves(*left, g) && computes(*wrap, h) && measures(*residual, m)
                ==> rows_of(r@) == chosen(
                model.limits@,
                raw_branches(
                    *p,
                    w,
                    g,
                    match seed {
                        Some(s) => Some(s@[3]),
                        None => None,
                    },
                    t,
                ),
                match seed {
                    Some(s) => Some(s@),
                    None => None,
                },
                h,
                m,
            ),
{
    let seed_q4 = match seed {
        Some(s) => Some(s[3]),
        None => None,
    };
    let raws = find_raw(p, w, seed_q4, trig, left);
    choose_branches(&model.limits, &raws, seed, wrap, residual)
}

proof fn lemma_arms_count(p: WristParams, w: Vec3, t: TrigV, n: nat)
    ensures
        arms(p, w, t, n).len() <= 2 * n,
    decreases n,
{
    if n > 0 {
        lemma_arms_count(p, w, t, (n - 1) as nat);
    }
}

proof fn lemma_whole_count(
    s: Seq<(Scalar, Scalar, Scalar)>,
    g: spec_fn(Scalar, Scalar) -> Rotation,
    seed: Option<Scalar>,
    t: TrigV,
    n: nat,
)
    ensures
        whole(s, g, seed, t, n).len() <= 2 * n,
    decreases n,
{
    if n > 0 {
        lemma_whole_count(s, g, seed, t, (n - 1) as nat);
    }
}

/// There are at most eight branches.
pub proof fn law_at_most_eight_branches(
    p: WristParams,
    w: Vec3,
    g: spec_fn(Scalar, Scalar) -> Rotation,
    seed: Option<Scalar>,
    t: TrigV,
)
    ensures
        raw_branches(p, w, g, seed, t).len() <= 8,
{
    lemma_arms_count(p, w, t, shoulders(p, w, t).len());
    lemma_whole_count(arm_branches(p, w, t), g, seed, t, arm_branches(p, w, t).len());
}

} // verus!
