//! The closed form of a six-joint arm with a spherical wrist: which arms it is for, and
//! which of its branches are kept.

use vstd::prelude::*;

use crate::hal::backend::copy_scalars;
#[allow(unused_imports)]
use crate::hal::safety::limits_ordered;
use crate::model::{JointKind, Model};
#[allow(unused_imports)]
use crate::motion::scurve::computes;
#[allow(unused_imports)]
use crate::motion::trajectory::rows_of;
use crate::scalar::consts::{
    MICRO_BITS, MINUS_ZERO_BITS, NANO_BITS, ONE_BITS, PI_BITS, TWO_BITS,
};
#[allow(unused_imports)]
use crate::scalar::convert::{fclamp, from_int};
#[allow(unused_imports)]
use crate::scalar::number::{fabs, fadd, fle, flt, fmul, fsub};
use crate::scalar::vec3::Vec3;
#[allow(unused_imports)]
use crate::scalar::vec3::{vsub, vnorm};
use crate::scalar::Scalar;

verus! {

/// `1e-7`: how far a kept branch may be from the target.
pub const VERIFY_TOL_BITS: u64 = 0x3E7A_D7F2_9ABC_AF48;

pub open spec fn unit_y() -> Vec3 {
    Vec3 { x: Scalar { bits: 0 }, y: Scalar { bits: ONE_BITS }, z: Scalar { bits: 0 } }
}

pub open spec fn unit_z() -> Vec3 {
    Vec3 { x: Scalar { bits: 0 }, y: Scalar { bits: 0 }, z: Scalar { bits: ONE_BITS } }
}

/// The axis of joint `i` of a canonical arm: z, y, y, then z, y, z.
pub open spec fn wanted_axis(i: int) -> Vec3 {
    if i == 0 || i == 3 || i == 5 {
        unit_z()
    } else {
        unit_y()
    }
}

/// Six turning joints, one after the other, with the axes of a canonical arm, and a
/// frame on the last of them.
pub open spec fn canonical(model: Model, frame: int) -> bool {
    &&& model.ndof == 6
    &&& forall|i: int| 0 <= i < model.kind@.len() ==> #[trigger] model.kind@[i]
        == JointKind::Revolute
    &&& model.parent@.len() == 6
    &&& model.parent@[0] is None
    &&& forall|i: int| 1 <= i < 6 ==> #[trigger] model.parent@[i] == Some((i - 1) as usize)
    &&& 0 <= frame < model.frames@.len()
    &&& model.frames@[frame].anchor == Some(5usize)
    &&& forall|i: int|
        0 <= i < model.axis@.len() && i < 6 ==> !flt(
            Scalar { bits: NANO_BITS },
            vnorm(vsub(#[trigger] model.axis@[i], wanted_axis(i))),
        )
}

/// Whether the closed form could be for this arm, by its joints and axes.
pub fn is_canonical(model: &Model, frame: usize) -> (r: bool)
    ensures
        r == canonical(*model, frame as int),
{
    if model.ndof != 6 {
        return false;
    }
    let mut i: usize = 0;
    while i < model.kind.len()
        invariant
            i <= model.kind.len(),
            forall|k: int| 0 <= k < i ==> #[trigger] model.kind@[k] == JointKind::Revolute,
        decreases model.kind.len() - i,
    {
        if model.kind[i] != JointKind::Revolute {
            assert(model.kind@[i as int] != JointKind::Revolute);
            return false;
        }
        i = i + 1;
    }
    if model.parent.len() != 6 || model.parent[0].is_some() {
        return false;
    }
    let mut i: usize = 1;
    while i < 6
        invariant
            1 <= i <= 6,
            model.parent@.len() == 6,
            forall|k: int| 1 <= k < i ==> #[trigger] model.parent@[k] == Some((k - 1) as usize),
        decreases 6 - i,
    {
        if model.parent[i] != Some(i - 1) {
            assert(model.parent@[i as int] != Some((i - 1) as usize));
            return false;
        }
        i = i + 1;
    }
    if frame >= model.frames.len() || model.frames[frame].anchor != Some(5) {
        return false;
    }
    let mut i: usize = 0;
    while i < model.axis.len() && i < 6
        invariant
            i <= model.axis.len(),
            forall|k: int|
                0 <= k < i ==> !flt(
                    Scalar { bits: NANO_BITS },
                    vnorm(vsub(#[trigger] model.axis@[k], wanted_axis(k))),
                ),
        decreases model.axis.len() - i,
    {
        let zero = Scalar { bits: 0 };
        let one = Scalar { bits: ONE_BITS };
        let wanted = if i == 0 || i == 3 || i == 5 {
            Vec3 { x: zero, y: zero, z: one }
        } else {
            Vec3 { x: zero, y: one, z: zero }
        };
        assert(wanted == wanted_axis(i as int));
        if model.axis[i].minus(wanted).norm().gt(Scalar { bits: NANO_BITS }) {
            assert(flt(
                Scalar { bits: NANO_BITS },
                vnorm(vsub(model.axis@[i as int], wanted_axis(i as int))),
            ));
            return false;
        }
        i = i + 1;
    }
    true
}

/// An angle, `k` turns further.
pub open spec fn turned(val: Scalar, k: int) -> Scalar {
    fadd(val, fmul(fmul(from_int(k), Scalar { bits: TWO_BITS }), Scalar { bits: PI_BITS }))
}

pub open spec fn within_slack(v: Scalar, lo: Scalar, hi: Scalar) -> bool {
    fle(fsub(lo, Scalar { bits: NANO_BITS }), v) && fle(v, fadd(hi, Scalar { bits: NANO_BITS }))
}

/// An angle brought between limits by whole turns, from `k` on to two.
pub open spec fn between_limits(val: Scalar, lo: Scalar, hi: Scalar, k: int) -> Option<Scalar>
    decreases 3 - k,
{
    if k > 2 {
        None
    } else if within_slack(turned(val, k), lo, hi) {
        Some(fclamp(turned(val, k), lo, hi))
    } else {
        between_limits(val, lo, hi, k + 1)
    }
}

/// An angle brought into its range, if it can be.
pub open spec fn fitted(
    limit: Option<(Scalar, Scalar)>,
    val: Scalar,
    g: spec_fn(Scalar) -> Scalar,
) -> Option<Scalar> {
    match limit {
        None => Some(g(val)),
        Some((lo, hi)) => between_limits(val, lo, hi, -2),
    }
}

/// The first `n` angles brought into their ranges, if all can be.
pub open spec fn all_fitted(
    limits: Seq<Option<(Scalar, Scalar)>>,
    raw: Seq<Scalar>,
    g: spec_fn(Scalar) -> Scalar,
    n: nat,
) -> Option<Seq<Scalar>>
    decreases n,
{
    if n == 0 {
        Some(Seq::empty())
    } else {
        match all_fitted(limits, raw, g, (n - 1) as nat) {
            None => None,
            Some(q) => match fitted(limits[n - 1], raw[n - 1], g) {
                None => None,
                Some(v) => Some(q.push(v)),
            },
        }
    }
}

fn fit_between(val: Scalar, lo: Scalar, hi: Scalar) -> (r: Option<Scalar>)
    requires
        fle(lo, hi),
    ensures
        r == between_limits(val, lo, hi, -2),
{
    let mut k: i64 = -2;
    while k <= 2
        invariant
            -2 <= k <= 3,
            fle(lo, hi),
            between_limits(val, lo, hi, -2) == between_limits(val, lo, hi, k as int),
        decreases 3 - k,
    {
        let v = val.add(
            Scalar::from_i64(k).mul(Scalar { bits: TWO_BITS }).mul(Scalar { bits: PI_BITS }),
        );
        let nano = Scalar { bits: NANO_BITS };
        if v.ge(lo.sub(nano)) && v.le(hi.add(nano)) {
            return Some(v.clamp(lo, hi));
        }
        k = k + 1;
    }
    None
}

/// Brings every angle into its range by whole turns; `None` if one cannot be. `wrap`
/// brings an angle without limits to the principal turn.
pub fn fit_limits<W: Fn(Scalar) -> Scalar>(
    limits: &Vec<Option<(Scalar, Scalar)>>,
    raw: &Vec<Scalar>,
    wrap: &W,
) -> (r: Option<Vec<Scalar>>)
    requires
        limits@.len() >= raw@.len(),
        limits_ordered(limits@),
        forall|x: Scalar| call_requires(*wrap, (x,)),
    ensures
        forall|g: spec_fn(Scalar) -> Scalar| #[trigger]
            computes(*wrap, g) ==> match r {
                Some(q) => all_fitted(limits@, raw@, g, raw@.len()) == Some(q@),
                None => all_fitted(limits@, raw@, g, raw@.len()) is None,
            },
{
    let mut q: Vec<Scalar> = Vec::new();
    let mut i: usize = 0;
    while i < raw.len()
        invariant
            i <= raw.len(),
            limits@.len() >= raw@.len(),
            limits_ordered(limits@),
            forall|x: Scalar| call_requires(*wrap, (x,)),
            forall|g: spec_fn(Scalar) -> Scalar| #[trigger]
                computes(*wrap, g) ==> all_fitted(limits@, raw@, g, i as nat) == Some(q@),
        decreases raw.len() - i,
    {
        assert(match limits@[i as int] {
            Some((lo, hi)) => fle(lo, hi),
            None => true,
        });
        let fit = match limits[i] {
            None => Some(wrap(raw[i])),
            Some((lo, hi)) => fit_between(raw[i], lo, hi),
        };
        match fit {
            None => {
                proof {
                    assert forall|g: spec_fn(Scalar) -> Scalar| #[trigger]
                        computes(*wrap, g) implies all_fitted(
                        limits@,
                        raw@,
                        g,
                        raw@.len(),
                    ) is None by {
                        assert(all_fitted(limits@, raw@, g, i as nat) == Some(q@));
                        lemma_unfit(limits@, raw@, g, (i + 1) as nat, raw@.len());
                    }
                }
                return None;
            },
            Some(v) => {
                q.push(v);
            },
        }
        i = i + 1;
    }
    Some(q)
}

proof fn lemma_unfit(
    limits: Seq<Option<(Scalar, Scalar)>>,
    raw: Seq<Scalar>,
    g: spec_fn(Scalar) -> Scalar,
    m: nat,
    n: nat,
)
    requires
        m <= n,
        all_fitted(limits, raw, g, m) is None,
    ensures
        all_fitted(limits, raw, g, n) is None,
    decreases n - m,
{
    if m < n {
        lemma_unfit(limits, raw, g, m, (n - 1) as nat);
    }
}

pub open spec fn pairs(a: Seq<Scalar>, b: Seq<Scalar>) -> nat {
    if a.len() < b.len() {
        a.len()
    } else {
        b.len()
    }
}

/// The same configuration, up to whole turns.
pub open spec fn same_config(
    a: Seq<Scalar>,
    b: Seq<Scalar>,
    g: spec_fn(Scalar) -> Scalar,
) -> bool {
    forall|i: int|
        0 <= i < pairs(a, b) ==> flt(
            fabs(g(fsub(#[trigger] a[i], b[i]))),
            Scalar { bits: MICRO_BITS },
        )
}

pub open spec fn known(
    out: Seq<Seq<Scalar>>,
    q: Seq<Scalar>,
    g: spec_fn(Scalar) -> Scalar,
) -> bool {
    exists|i: int| 0 <= i < out.len() && same_config(#[trigger] out[i], q, g)
}

/// The branches kept of the first `n`: they fit, they reach the target, and no two are
/// the same.
pub open spec fn kept(
    limits: Seq<Option<(Scalar, Scalar)>>,
    raws: Seq<Seq<Scalar>>,
    g: spec_fn(Scalar) -> Scalar,
    residual: spec_fn(Seq<Scalar>) -> Scalar,
    n: nat,
) -> Seq<Seq<Scalar>>
    decreases n,
{
    if n == 0 {
        Seq::empty()
    } else {
        let out = kept(limits, raws, g, residual, (n - 1) as nat);
        let raw = raws[n - 1];
        match all_fitted(limits, raw, g, raw.len()) {
            None => out,
            Some(q) => if flt(residual(q), Scalar { bits: VERIFY_TOL_BITS }) && !known(out, q, g) {
                out.push(q)
            } else {
                out
            },
        }
    }
}

/// Squared distance from a seed, up to whole turns, over the first `n` joints.
pub open spec fn seed_sum(
    q: Seq<Scalar>,
    seed: Seq<Scalar>,
    g: spec_fn(Scalar) -> Scalar,
    n: nat,
) -> Scalar
    decreases n,
{
    if n == 0 {
        Scalar { bits: MINUS_ZERO_BITS }
    } else {
        let d = g(fsub(q[n - 1], seed[n - 1]));
        fadd(seed_sum(q, seed, g, (n - 1) as nat), fmul(d, d))
    }
}

pub open spec fn seed_distance(
    q: Seq<Scalar>,
    seed: Seq<Scalar>,
    g: spec_fn(Scalar) -> Scalar,
) -> Scalar {
    seed_sum(q, seed, g, pairs(q, seed))
}

/// Where an element belongs among the first `n`: behind all that are not farther.
pub open spec fn place(keys: Seq<Scalar>, key: Scalar, n: nat) -> nat
    decreases n,
{
    if n == 0 || !flt(key, keys[n - 1]) {
        n
    } else {
        place(keys, key, (n - 1) as nat)
    }
}

pub open spec fn keys_of(
    qs: Seq<Seq<Scalar>>,
    seed: Seq<Scalar>,
    g: spec_fn(Scalar) -> Scalar,
) -> Seq<Scalar> {
    Seq::new(qs.len(), |i: int| seed_distance(qs[i], seed, g))
}

/// The first `n` branches, nearest to the seed first; equals keep their order.
pub open spec fn ordered(
    qs: Seq<Seq<Scalar>>,
    seed: Seq<Scalar>,
    g: spec_fn(Scalar) -> Scalar,
    n: nat,
) -> Seq<Seq<Scalar>>
    decreases n,
{
    if n == 0 {
        Seq::empty()
    } else {
        let before = ordered(qs, seed, g, (n - 1) as nat);
        let at = place(
            keys_of(before, seed, g),
            seed_distance(qs[n - 1], seed, g),
            before.len(),
        );
        before.insert(at as int, qs[n - 1])
    }
}

/// The branches that are given, for raw ones.
pub open spec fn chosen(
    limits: Seq<Option<(Scalar, Scalar)>>,
    raws: Seq<Seq<Scalar>>,
    seed: Option<Seq<Scalar>>,
    g: spec_fn(Scalar) -> Scalar,
    residual: spec_fn(Seq<Scalar>) -> Scalar,
) -> Seq<Seq<Scalar>> {
    let out = kept(limits, raws, g, residual, raws.len());
    match seed {
        None => out,
        Some(s) => ordered(out, s, g, out.len()),
    }
}

/// A measure of configurations that is handed in behaves as `m`.
pub open spec fn measures<M: Fn(&[Scalar]) -> Scalar>(
    f: M,
    m: spec_fn(Seq<Scalar>) -> Scalar,
) -> bool {
    forall|a: &[Scalar], r: Scalar| call_ensures(f, (a,), r) ==> r == m(a@)
}

fn is_same<W: Fn(Scalar) -> Scalar>(a: &Vec<Scalar>, b: &Vec<Scalar>, wrap: &W) -> (r: bool)
    requires
        forall|x: Scalar| call_requires(*wrap, (x,)),
    ensures
        forall|g: spec_fn(Scalar) -> Scalar| #[trigger]
            computes(*wrap, g) ==> r == same_config(a@, b@, g),
{
    let mut i: usize = 0;
    while i < a.len() && i < b.len()
        invariant
            i <= a.len(),
            i <= b.len(),
            forall|x: Scalar| call_requires(*wrap, (x,)),
            forall|g: spec_fn(Scalar) -> Scalar, k: int|
                #![trigger computes(*wrap, g), a@[k]]
                computes(*wrap, g) && 0 <= k < i ==> flt(
                    fabs(g(fsub(a@[k], b@[k]))),
                    Scalar { bits: MICRO_BITS },
                ),
        decreases a.len() - i,
    {
        let d = wrap(a[i].sub(b[i]));
        if !d.abs().lt(Scalar { bits: MICRO_BITS }) {
            proof {
                assert forall|g: spec_fn(Scalar) -> Scalar| #[trigger]
                    computes(*wrap, g) implies !same_config(a@, b@, g) by {
                    assert(d == g(fsub(a@[i as int], b@[i as int])));
                }
            }
            return false;
        }
        i = i + 1;
    }
    true
}

fn is_known<W: Fn(Scalar) -> Scalar>(out: &Vec<Vec<Scalar>>, q: &Vec<Scalar>, wrap: &W) -> (r: bool)
    requires
        forall|x: Scalar| call_requires(*wrap, (x,)),
    ensures
        forall|g: spec_fn(Scalar) -> Scalar| #[trigger]
            computes(*wrap, g) ==> r == known(rows_of(out@), q@, g),
{
    let ghost v = rows_of(out@);
    let mut i: usize = 0;
    while i < out.len()
        invariant
            i <= out.len(),
            v == rows_of(out@),
            forall|x: Scalar| call_requires(*wrap, (x,)),
            forall|g: spec_fn(Scalar) -> Scalar, k: int|
                #![trigger computes(*wrap, g), v[k]]
                computes(*wrap, g) && 0 <= k < i ==> !same_config(v[k], q@, g),
        decreases out.len() - i,
    {
        assert(v[i as int] == out@[i as int]@);
        if is_same(&out[i], q, wrap) {
            proof {
                assert forall|g: spec_fn(Scalar) -> Scalar| #[trigger]
                    computes(*wrap, g) implies known(v, q@, g) by {
                    assert(same_config(v[i as int], q@, g));
                }
            }
            return true;
        }
        i = i + 1;
    }
    false
}

fn distance_to_seed<W: Fn(Scalar) -> Scalar>(q: &Vec<Scalar>, seed: &[Scalar], wrap: &W) -> (r:
    Scalar)
    requires
        forall|x: Scalar| call_requires(*wrap, (x,)),
    ensures
        forall|g: spec_fn(Scalar) -> Scalar| #[trigger]
            computes(*wrap, g) ==> r == seed_distance(q@, seed@, g),
{
    let mut s = Scalar { bits: MINUS_ZERO_BITS };
    let mut i: usize = 0;
    while i < q.len() && i < seed.len()
        invariant
            i <= q.len(),
            i <= seed.len(),
            forall|x: Scalar| call_requires(*wrap, (x,)),
            forall|g: spec_fn(Scalar) -> Scalar| #[trigger]
                computes(*wrap, g) ==> s == seed_sum(q@, seed@, g, i as nat),
        decreases q.len() - i,
    {
        let d = wrap(q[i].sub(seed[i]));
        let next = s.add(d.mul(d));
        proof {
            assert forall|g: spec_fn(Scalar) -> Scalar| #[trigger]
                computes(*wrap, g) implies next == seed_sum(q@, seed@, g, (i + 1) as nat) by {
                assert(d == g(fsub(q@[i as int], seed@[i as int])));
            }
        }
        s = next;
        i = i + 1;
    }
    s
}

fn order<W: Fn(Scalar) -> Scalar>(qs: &Vec<Vec<Scalar>>, seed: &[Scalar], wrap: &W) -> (r: Vec<
    Vec<Scalar>,
>)
    requires
        forall|x: Scalar| call_requires(*wrap, (x,)),
    ensures
        forall|g: spec_fn(Scalar) -> Scalar| #[trigger]
            computes(*wrap, g) ==> rows_of(r@) == ordered(rows_of(qs@), seed@, g, qs@.len()),
{
    let ghost v = rows_of(qs@);
    let mut out: Vec<Vec<Scalar>> = Vec::new();
    let mut keys: Vec<Scalar> = Vec::new();
    let mut i: usize = 0;
    assert(rows_of(out@) =~= Seq::empty());
    assert forall|g: spec_fn(Scalar) -> Scalar| #[trigger] computes(*wrap, g) implies keys@
        == keys_of(rows_of(out@), seed@, g) by {
        assert(keys@ =~= keys_of(rows_of(out@), seed@, g));
    }
    while i < qs.len()
        invariant
            i <= qs.len(),
            v == rows_of(qs@),
            out.len() == i,
            keys.len() == i,
            forall|x: Scalar| call_requires(*wrap, (x,)),
            forall|g: spec_fn(Scalar) -> Scalar| #[trigger]
                computes(*wrap, g) ==> rows_of(out@) == ordered(v, seed@, g, i as nat) && keys@
                    == keys_of(rows_of(out@), seed@, g),
        decreases qs.len() - i,
    {
        assert(v[i as int] == qs@[i as int]@);
        let key = distance_to_seed(&qs[i], seed, wrap);
        let mut at: usize = out.len();
        let ghost n = at as nat;
        while at > 0 && key.lt(keys[at - 1])
            invariant
                at <= keys.len(),
                keys.len() == n,
                place(keys@, key, n) == place(keys@, key, at as nat),
            decreases at,
        {
            at = at - 1;
        }
        assert(at == place(keys@, key, n));
        let ghost ov = out@;
        let ghost kv = keys@;
        let q = copy_scalars(qs[i].as_slice());
        out.insert(at, q);
        keys.insert(at, key);
        proof {
            assert(rows_of(out@) =~= rows_of(ov).insert(at as int, v[i as int]));
            assert forall|g: spec_fn(Scalar) -> Scalar| #[trigger] computes(*wrap, g) implies
                rows_of(out@) == ordered(v, seed@, g, (i + 1) as nat) && keys@ == keys_of(
                rows_of(out@),
                seed@,
                g,
            ) by {
                assert(rows_of(ov) == ordered(v, seed@, g, i as nat));
                assert(key == seed_distance(v[i as int], seed@, g));
                assert(keys@ =~= keys_of(rows_of(out@), seed@, g)) by {
                    assert forall|k: int| 0 <= k < keys@.len() implies keys@[k] == keys_of(
                        rows_of(out@),
                        seed@,
                        g,
                    )[k] by {
                        if k < at {
                            assert(kv[k] == keys_of(rows_of(ov), seed@, g)[k]);
                        } else if k > at {
                            assert(kv[k - 1] == keys_of(rows_of(ov), seed@, g)[k - 1]);
                        }
                    }
                }
            }
        }
        i = i + 1;
    }
    out
}

/// Of the raw branches, those that fit the limits and reach the target, without
/// repeats; nearest to the seed first, where there is one. `wrap` brings an angle to
/// the principal turn, and `residual` says how far a configuration is from the target.
pub fn choose_branches<W: Fn(Scalar) -> Scalar, M: Fn(&[Scalar]) -> Scalar>(
    limits: &Vec<Option<(Scalar, Scalar)>>,
    raws: &Vec<Vec<Scalar>>,
    seed: Option<&[Scalar]>,
    wrap: &W,
    residual: &M,
) -> (r: Vec<Vec<Scalar>>)
    requires
        limits_ordered(limits@),
        forall|i: int| 0 <= i < raws@.len() ==> (#[trigger] raws@[i])@.len() <= limits@.len(),
        forall|x: Scalar| call_requires(*wrap, (x,)),
        forall|a: &[Scalar]| call_requires(*residual, (a,)),
    ensures
        forall|g: spec_fn(Scalar) -> Scalar, m: spec_fn(Seq<Scalar>) -> Scalar|
            #![trigger computes(*wrap, g), measures(*residual, m)]
            computes(*wrap, g) && measures(*residual, m) ==> rows_of(r@) == chosen(
                limits@,
                rows_of(raws@),
                match seed {
                    Some(s) => Some(s@),
                    None => None,
                },
                g,
                m,
            ),
{
    let ghost v = rows_of(raws@);
    let mut out: Vec<Vec<Scalar>> = Vec::new();
    let mut i: usize = 0;
    assert(rows_of(out@) =~= Seq::empty());
    while i < raws.len()
        invariant
            i <= raws.len(),
            v == rows_of(raws@),
            limits_ordered(limits@),
            forall|i: int| 0 <= i < raws@.len() ==> (#[trigger] raws@[i])@.len() <= limits@.len(),
            forall|x: Scalar| call_requires(*wrap, (x,)),
            forall|a: &[Scalar]| call_requires(*residual, (a,)),
            forall|g: spec_fn(Scalar) -> Scalar, m: spec_fn(Seq<Scalar>) -> Scalar|
                #![trigger computes(*wrap, g), measures(*residual, m)]
                computes(*wrap, g) && measures(*residual, m) ==> rows_of(out@) == kept(
                    limits@,
                    v,
                    g,
                    m,
                    i as nat,
                ),
        decreases raws.len() - i,
    {
        assert(v[i as int] == raws@[i as int]@);
        let ghost ov = out@;
        match fit_limits(limits, &raws[i], wrap) {
            None => {},
            Some(q) => {
                let d = residual(q.as_slice());
                let ghost qv = q@;
                let seen = is_known(&out, &q, wrap);
                let good = d.lt(Scalar { bits: VERIFY_TOL_BITS });
                if good && !seen {
                    out.push(q);
                }
                proof {
                    if good && !seen {
                        assert(rows_of(out@) =~= rows_of(ov).push(qv));
                    }
                    assert forall|
                        g: spec_fn(Scalar) -> Scalar,
                        m: spec_fn(Seq<Scalar>) -> Scalar,
                    |
                        #![trigger computes(*wrap, g), measures(*residual, m)]
                        computes(*wrap, g) && measures(*residual, m) implies rows_of(out@) == kept(
                        limits@,
                        v,
                        g,
                        m,
                        (i + 1) as nat,
                    ) by {
                        assert(rows_of(ov) == kept(limits@, v, g, m, i as nat));
                        assert(all_fitted(limits@, v[i as int], g, v[i as int].len()) == Some(qv));
                        assert(d == m(qv));
                        assert(seen == known(rows_of(ov), qv, g));
                    }
                }
            },
        }
        i = i + 1;
    }
    match seed {
        None => out,
        Some(s) => order(&out, s, wrap),
    }
}

// ---- laws ----

/// Every kept branch reaches the target.
pub proof fn law_kept_branches_reach_target(
    limits: Seq<Option<(Scalar, Scalar)>>,
    raws: Seq<Seq<Scalar>>,
    g: spec_fn(Scalar) -> Scalar,
    residual: spec_fn(Seq<Scalar>) -> Scalar,
    n: nat,
    i: int,
)
    requires
        0 <= i < kept(limits, raws, g, residual, n).len(),
    ensures
        flt(residual(kept(limits, raws, g, residual, n)[i]), Scalar { bits: VERIFY_TOL_BITS }),
    decreases n,
{
    if n > 0 {
        let out = kept(limits, raws, g, residual, (n - 1) as nat);
        if i < out.len() {
            law_kept_branches_reach_target(limits, raws, g, residual, (n - 1) as nat, i);
        }
    }
}

/// No kept branch repeats an earlier one.
pub proof fn law_kept_branches_differ(
    limits: Seq<Option<(Scalar, Scalar)>>,
    raws: Seq<Seq<Scalar>>,
    g: spec_fn(Scalar) -> Scalar,
    residual: spec_fn(Seq<Scalar>) -> Scalar,
    n: nat,
    i: int,
    j: int,
)
    requires
        0 <= i < j < kept(limits, raws, g, residual, n).len(),
    ensures
        !same_config(
            kept(limits, raws, g, residual, n)[i],
            kept(limits, raws, g, residual, n)[j],
            g,
        ),
    decreases n,
{
    if n > 0 {
        let out = kept(limits, raws, g, residual, (n - 1) as nat);
        if j < out.len() {
            law_kept_branches_differ(limits, raws, g, residual, (n - 1) as nat, i, j);
        } else {
            let r = kept(limits, raws, g, residual, n);
            assert(r[i] == out[i]);
        }
    }
}

proof fn lemma_ordered_members(
    qs: Seq<Seq<Scalar>>,
    seed: Seq<Scalar>,
    g: spec_fn(Scalar) -> Scalar,
    n: nat,
)
    requires
        n <= qs.len(),
    ensures
        ordered(qs, seed, g, n).len() == n,
        forall|i: int| 0 <= i < n ==> qs.contains(#[trigger] ordered(qs, seed, g, n)[i]),
    decreases n,
{
    if n > 0 {
        lemma_ordered_members(qs, seed, g, (n - 1) as nat);
        let before = ordered(qs, seed, g, (n - 1) as nat);
        let keys = keys_of(before, seed, g);
        let key = seed_distance(qs[n - 1], seed, g);
        lemma_place(keys, key, before.len());
        let at = place(keys, key, before.len()) as int;
        let r = ordered(qs, seed, g, n);
        assert forall|i: int| 0 <= i < n implies qs.contains(#[trigger] r[i]) by {
            if i < at {
                assert(r[i] == before[i]);
            } else if i == at {
                assert(r[i] == qs[n - 1]);
            } else {
                assert(r[i] == before[i - 1]);
            }
        }
    }
}

proof fn lemma_place(keys: Seq<Scalar>, key: Scalar, n: nat)
    requires
        n <= keys.len(),
    ensures
        place(keys, key, n) <= n,
        forall|i: int| place(keys, key, n) <= i < n ==> flt(key, #[trigger] keys[i]),
        place(keys, key, n) > 0 ==> !flt(key, keys[place(keys, key, n) - 1]),
    decreases n,
{
    if n > 0 && flt(key, keys[n - 1]) {
        lemma_place(keys, key, (n - 1) as nat);
    }
}

proof fn lemma_ordered_sorted(
    qs: Seq<Seq<Scalar>>,
    seed: Seq<Scalar>,
    g: spec_fn(Scalar) -> Scalar,
    n: nat,
)
    requires
        n <= qs.len(),
        forall|i: int|
            0 <= i < qs.len() ==> !seed_distance(#[trigger] qs[i], seed, g).nan(),
    ensures
        forall|i: int, j: int|
            0 <= i < j < n ==> !flt(
                seed_distance(#[trigger] ordered(qs, seed, g, n)[j], seed, g),
                seed_distance(#[trigger] ordered(qs, seed, g, n)[i], seed, g),
            ),
    decreases n,
{
    if n > 0 {
        let m = (n - 1) as nat;
        lemma_ordered_sorted(qs, seed, g, m);
        lemma_ordered_members(qs, seed, g, m);
        let before = ordered(qs, seed, g, m);
        let keys = keys_of(before, seed, g);
        let key = seed_distance(qs[n - 1], seed, g);
        lemma_place(keys, key, before.len());
        let at = place(keys, key, before.len()) as int;
        let r = ordered(qs, seed, g, n);
        assert forall|i: int| 0 <= i < m implies !seed_distance(
            #[trigger] before[i],
            seed,
            g,
        ).nan() by {
            assert(qs.contains(before[i]));
        }
        assert forall|i: int, j: int| 0 <= i < j < n implies !flt(
            seed_distance(#[trigger] r[j], seed, g),
            seed_distance(#[trigger] r[i], seed, g),
        ) by {
            let a = if i < at {
                i
            } else {
                i - 1
            };
            let b = if j < at {
                j
            } else {
                j - 1
            };
            if i == at {
                assert(r[i] == qs[n - 1] && r[j] == before[b]);
                assert(flt(key, keys[b]));
            } else if j == at {
                assert(r[j] == qs[n - 1] && r[i] == before[a]);
                if a < at - 1 {
                    assert(!flt(
                        seed_distance(before[at - 1], seed, g),
                        seed_distance(before[a], seed, g),
                    ));
                }
                assert(!flt(key, keys[at - 1]));
            } else {
                assert(r[i] == before[a] && r[j] == before[b]);
            }
        }
    }
}

/// Every branch that is given is one that was kept.
proof fn lemma_chosen_kept(
    limits: Seq<Option<(Scalar, Scalar)>>,
    raws: Seq<Seq<Scalar>>,
    seed: Option<Seq<Scalar>>,
    g: spec_fn(Scalar) -> Scalar,
    residual: spec_fn(Seq<Scalar>) -> Scalar,
    i: int,
)
    requires
        0 <= i < chosen(limits, raws, seed, g, residual).len(),
    ensures
        kept(limits, raws, g, residual, raws.len()).contains(
            chosen(limits, raws, seed, g, residual)[i],
        ),
{
    let out = kept(limits, raws, g, residual, raws.len());
    match seed {
        None => {},
        Some(s) => {
            lemma_ordered_members(out, s, g, out.len());
        },
    }
}

/// Every branch that is given reaches the target.
pub proof fn law_given_branches_reach_target(
    limits: Seq<Option<(Scalar, Scalar)>>,
    raws: Seq<Seq<Scalar>>,
    seed: Option<Seq<Scalar>>,
    g: spec_fn(Scalar) -> Scalar,
    residual: spec_fn(Seq<Scalar>) -> Scalar,
    i: int,
)
    requires
        0 <= i < chosen(limits, raws, seed, g, residual).len(),
    ensures
        flt(
            residual(chosen(limits, raws, seed, g, residual)[i]),
            Scalar { bits: VERIFY_TOL_BITS },
        ),
{
    lemma_chosen_kept(limits, raws, seed, g, residual, i);
    let out = kept(limits, raws, g, residual, raws.len());
    let q = chosen(limits, raws, seed, g, residual)[i];
    let k = choose|k: int| 0 <= k < out.len() && out[k] == q;
    law_kept_branches_reach_target(limits, raws, g, residual, raws.len(), k);
}

proof fn lemma_between(val: Scalar, lo: Scalar, hi: Scalar, k: int)
    requires
        fle(lo, hi),
    ensures
        between_limits(val, lo, hi, k) matches Some(v) ==> fle(lo, v) && fle(v, hi),
    decreases 3 - k,
{
    if k <= 2 && !within_slack(turned(val, k), lo, hi) {
        lemma_between(val, lo, hi, k + 1);
    }
}

proof fn lemma_all_fitted(
    limits: Seq<Option<(Scalar, Scalar)>>,
    raw: Seq<Scalar>,
    g: spec_fn(Scalar) -> Scalar,
    n: nat,
)
    requires
        limits_ordered(limits),
        n <= raw.len() <= limits.len(),
    ensures
        all_fitted(limits, raw, g, n) matches Some(q) ==> q.len() == n && forall|j: int|
            0 <= j < n ==> match limits[j] {
                Some((lo, hi)) => fle(lo, #[trigger] q[j]) && fle(q[j], hi),
                None => true,
            },
    decreases n,
{
    if n > 0 {
        lemma_all_fitted(limits, raw, g, (n - 1) as nat);
        match limits[n - 1] {
            Some((lo, hi)) => {
                lemma_between(raw[n - 1], lo, hi, -2);
            },
            None => {},
        }
    }
}

/// Every branch that is given keeps the limits of the joints.
pub proof fn law_given_branches_keep_limits(
    limits: Seq<Option<(Scalar, Scalar)>>,
    raws: Seq<Seq<Scalar>>,
    seed: Option<Seq<Scalar>>,
    g: spec_fn(Scalar) -> Scalar,
    residual: spec_fn(Seq<Scalar>) -> Scalar,
    i: int,
    j: int,
)
    requires
        limits_ordered(limits),
        forall|k: int| 0 <= k < raws.len() ==> (#[trigger] raws[k]).len() <= limits.len(),
        0 <= i < chosen(limits, raws, seed, g, residual).len(),
        0 <= j < chosen(limits, raws, seed, g, residual)[i].len(),
    ensures
        j < limits.len(),
        match limits[j] {
            Some((lo, hi)) => {
                let v = chosen(limits, raws, seed, g, residual)[i][j];
                fle(lo, v) && fle(v, hi)
            },
            None => true,
        },
{
    lemma_chosen_kept(limits, raws, seed, g, residual, i);
    let out = kept(limits, raws, g, residual, raws.len());
    let q = chosen(limits, raws, seed, g, residual)[i];
    let k = choose|k: int| 0 <= k < out.len() && out[k] == q;
    lemma_kept_fitted(limits, raws, g, residual, raws.len(), k);
    let m = choose|m: int|
        0 <= m < raws.len() && all_fitted(limits, #[trigger] raws[m], g, raws[m].len()) == Some(q);
    lemma_all_fitted(limits, raws[m], g, raws[m].len());
}

proof fn lemma_kept_fitted(
    limits: Seq<Option<(Scalar, Scalar)>>,
    raws: Seq<Seq<Scalar>>,
    g: spec_fn(Scalar) -> Scalar,
    residual: spec_fn(Seq<Scalar>) -> Scalar,
    n: nat,
    i: int,
)
    requires
        n <= raws.len(),
        0 <= i < kept(limits, raws, g, residual, n).len(),
    ensures
        exists|m: int|
            0 <= m < raws.len() && all_fitted(limits, #[trigger] raws[m], g, raws[m].len())
                == Some(kept(limits, raws, g, residual, n)[i]),
    decreases n,
{
    if n > 0 {
        let out = kept(limits, raws, g, residual, (n - 1) as nat);
        if i < out.len() {
            lemma_kept_fitted(limits, raws, g, residual, (n - 1) as nat, i);
        } else {
            let r = kept(limits, raws, g, residual, n);
            assert(all_fitted(limits, raws[n - 1], g, raws[n - 1].len()) == Some(r[i]));
        }
    }
}

/// The branch nearest to the seed is given first, where distances are numbers.
pub proof fn law_nearest_branch_is_first(
    limits: Seq<Option<(Scalar, Scalar)>>,
    raws: Seq<Seq<Scalar>>,
    seed: Seq<Scalar>,
    g: spec_fn(Scalar) -> Scalar,
    residual: spec_fn(Seq<Scalar>) -> Scalar,
    i: int,
)
    requires
        forall|k: int|
            0 <= k < kept(limits, raws, g, residual, raws.len()).len() ==> !seed_distance(
                #[trigger] kept(limits, raws, g, residual, raws.len())[k],
                seed,
                g,
            ).nan(),
        0 <= i < chosen(limits, raws, Some(seed), g, residual).len(),
    ensures
        !flt(
            seed_distance(chosen(limits, raws, Some(seed), g, residual)[i], seed, g),
            seed_distance(chosen(limits, raws, Some(seed), g, residual)[0], seed, g),
        ),
{
    let out = kept(limits, raws, g, residual, raws.len());
    lemma_ordered_members(out, seed, g, out.len());
    lemma_ordered_sorted(out, seed, g, out.len());
}

/// No more branches are given than there were.
pub proof fn law_no_more_branches_than_raw(
    limits: Seq<Option<(Scalar, Scalar)>>,
    raws: Seq<Seq<Scalar>>,
    seed: Option<Seq<Scalar>>,
    g: spec_fn(Scalar) -> Scalar,
    residual: spec_fn(Seq<Scalar>) -> Scalar,
)
    ensures
        chosen(limits, raws, seed, g, residual).len() <= raws.len(),
{
    let out = kept(limits, raws, g, residual, raws.len());
    lemma_kept_count(limits, raws, g, residual, raws.len());
    match seed {
        None => {},
        Some(s) => {
            lemma_ordered_members(out, s, g, out.len());
        },
    }
}

proof fn lemma_kept_count(
    limits: Seq<Option<(Scalar, Scalar)>>,
    raws: Seq<Seq<Scalar>>,
    g: spec_fn(Scalar) -> Scalar,
    residual: spec_fn(Seq<Scalar>) -> Scalar,
    n: nat,
)
    ensures
        kept(limits, raws, g, residual, n).len() <= n,
    decreases n,
{
    if n > 0 {
        lemma_kept_count(limits, raws, g, residual, (n - 1) as nat);
    }
}

} // verus!
