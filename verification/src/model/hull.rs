//! Convex hulls of point clouds, bounded and checked: the hull is used only when
//! every point of the cloud lies inside or on it, else the cloud itself is.

use vstd::prelude::*;

#[allow(unused_imports)]
use crate::scalar::convert::{fmax, from_int, total_key};
#[allow(unused_imports)]
use crate::scalar::number::{fabs, fle, flt, fmul, fneg};
#[allow(unused_imports)]
use crate::scalar::vec3::{vadd, vcross, vdiv, vdot, vnorm, vscale, vsub};
use crate::scalar::{Scalar, Vec3};

verus! {

/// Most points that a hull is built from.
pub const MAX_HULL_INPUT: usize = 1024;

/// Bits of `1e-9` and `1e-7`.
pub const NANO_BITS: u64 = 0x3E11_2E0B_E826_D695;

pub const TENTH_MICRO_BITS: u64 = 0x3E7A_D7F2_9ABC_AF48;

pub const ONE_BITS: u64 = 0x3FF0_0000_0000_0000;

/// A face: three points, its outward normal, and a point on it.
#[derive(Clone, Copy, Debug, PartialEq, Eq, Structural)]
pub struct Face {
    pub a: usize,
    pub b: usize,
    pub c: usize,
    pub n: Vec3,
    pub p0: Vec3,
}

pub open spec fn lane_max(a: Scalar, b: Scalar) -> Scalar {
    if fle(b, a) {
        a
    } else {
        b
    }
}

pub open spec fn lane_min(a: Scalar, b: Scalar) -> Scalar {
    if fle(a, b) {
        a
    } else {
        b
    }
}

/// Componentwise bounds of the first `k` points.
pub open spec fn bounds(p: Seq<Vec3>, k: nat) -> (Vec3, Vec3)
    decreases k,
{
    if k == 0 {
        (p[0], p[0])
    } else {
        let (lo, hi) = bounds(p, (k - 1) as nat);
        let q = p[k - 1];
        (
            Vec3 { x: lane_min(lo.x, q.x), y: lane_min(lo.y, q.y), z: lane_min(lo.z, q.z) },
            Vec3 { x: lane_max(hi.x, q.x), y: lane_max(hi.y, q.y), z: lane_max(hi.z, q.z) },
        )
    }
}

/// Largest extent of a cloud, at least one.
#[verifier::opaque]
pub open spec fn cloud_scale(p: Seq<Vec3>) -> Scalar {
    let (lo, hi) = bounds(p, p.len());
    let d = vsub(hi, lo);
    fmax(
        lane_max(lane_max(fabs(d.x), fabs(d.y)), fabs(d.z)),
        Scalar { bits: ONE_BITS },
    )
}

/// Some point of `out` lies within the tolerance of `p`.
pub open spec fn near_some(out: Seq<Vec3>, p: Vec3, tol2: Scalar) -> bool {
    exists|k: int|
        0 <= k < out.len() && fle(vdot(vsub(p, #[trigger] out[k]), vsub(p, out[k])), tol2)
}

/// The points, without those near an earlier one.
pub open spec fn deduped(p: Seq<Vec3>, tol2: Scalar) -> Seq<Vec3>
    decreases p.len(),
{
    if p.len() == 0 {
        Seq::empty()
    } else {
        let out = deduped(p.drop_last(), tol2);
        if near_some(out, p.last(), tol2) {
            out
        } else {
            out.push(p.last())
        }
    }
}

pub open spec fn dedup_tol2(p: Seq<Vec3>) -> Scalar {
    let tol = fmul(Scalar { bits: NANO_BITS }, cloud_scale(p));
    fmul(tol, tol)
}

/// The distinct points of a cloud.
pub open spec fn unique_points(p: Seq<Vec3>) -> Seq<Vec3> {
    if p.len() == 0 {
        Seq::empty()
    } else {
        deduped(p, dedup_tol2(p))
    }
}

pub open spec fn component(p: Vec3, axis: int) -> Scalar {
    if axis == 0 {
        p.x
    } else if axis == 1 {
        p.y
    } else {
        p.z
    }
}

/// First extreme of the first `n` points along an axis: the least or the greatest.
pub open spec fn extreme(p: Seq<Vec3>, axis: int, greatest: bool, n: nat) -> int
    decreases n,
{
    if n <= 1 {
        0
    } else {
        let m = extreme(p, axis, greatest, (n - 1) as nat);
        let x = component(p[n - 1], axis);
        let y = component(p[m], axis);
        if (greatest && flt(y, x)) || (!greatest && flt(x, y)) {
            n - 1
        } else {
            m
        }
    }
}

/// The six extremes in order.
pub open spec fn extremes(p: Seq<Vec3>) -> Seq<int> {
    seq![
        extreme(p, 0, false, p.len()),
        extreme(p, 0, true, p.len()),
        extreme(p, 1, false, p.len()),
        extreme(p, 1, true, p.len()),
        extreme(p, 2, false, p.len()),
        extreme(p, 2, true, p.len()),
    ]
}

/// Without repetitions.
pub open spec fn distinct(s: Seq<int>) -> Seq<int>
    decreases s.len(),
{
    if s.len() == 0 {
        Seq::empty()
    } else if distinct(s.drop_last()).contains(s.last()) {
        distinct(s.drop_last())
    } else {
        distinct(s.drop_last()).push(s.last())
    }
}

/// Every `stride`-th position that is not kept yet, until `cap` are.
pub open spec fn strided(kept: Seq<int>, n: nat, i: int, stride: int, cap: nat, acc: Seq<int>) -> Seq<
    int,
>
    decreases
            if i < n {
                n - i
            } else {
                0
            },
{
    if stride <= 0 || i < 0 || i >= n || acc.len() >= cap {
        acc
    } else {
        strided(
            kept,
            n,
            i + stride,
            stride,
            cap,
            if kept.contains(i) {
                acc
            } else {
                acc.push(i)
            },
        )
    }
}

/// Positions that a large cloud is cut down to: its extremes, then evenly spaced ones.
pub open spec fn sample_positions(p: Seq<Vec3>, cap: nat) -> Seq<int> {
    let ext = distinct(extremes(p));
    let budget: int = if cap > ext.len() {
        cap - ext.len()
    } else {
        1
    };
    strided(ext, p.len(), 0, (p.len() + budget - 1) / budget, cap, ext)
}

/// A cloud of at most `cap` points stays; a larger one is cut down.
pub open spec fn subsampled(p: Seq<Vec3>, cap: nat) -> Seq<Vec3> {
    if p.len() <= cap {
        p
    } else {
        sample_positions(p, cap).map_values(|i: int| p[i])
    }
}

/// Sum of the first `k` points.
pub open spec fn point_sum(p: Seq<Vec3>, k: nat) -> Vec3
    decreases k,
{
    if k == 0 {
        Vec3 { x: Scalar { bits: 0 }, y: Scalar { bits: 0 }, z: Scalar { bits: 0 } }
    } else {
        vadd(point_sum(p, (k - 1) as nat), p[k - 1])
    }
}

pub open spec fn centroid(p: Seq<Vec3>) -> Vec3 {
    vdiv(point_sum(p, p.len()), from_int(p.len() as int))
}

/// Last of the first `n` positions whose key is greatest in the total order.
pub open spec fn last_max(keys: Seq<Scalar>, n: nat) -> int
    decreases n,
{
    if n <= 1 {
        0
    } else {
        let m = last_max(keys, (n - 1) as nat);
        if total_key(keys[m]) <= total_key(keys[n - 1]) {
            n - 1
        } else {
            m
        }
    }
}

pub open spec fn line_dist(p: Vec3, a: Vec3, dir: Vec3) -> Scalar {
    let ap = vsub(p, a);
    vnorm(vsub(ap, vscale(dir, vdot(ap, dir))))
}

/// The face of three points, turned away from the centroid.
#[verifier::opaque]
pub open spec fn face_of(p: Seq<Vec3>, mid: Vec3, a: int, b: int, c: int) -> Face {
    let raw = vcross(vsub(p[b], p[a]), vsub(p[c], p[a]));
    let len = vnorm(raw);
    let unit = if flt(Scalar { bits: 0 }, len) {
        vdiv(raw, len)
    } else {
        raw
    };
    let out = if flt(vdot(unit, vsub(p[a], mid)), Scalar { bits: 0 }) {
        Vec3 { x: fneg(unit.x), y: fneg(unit.y), z: fneg(unit.z) }
    } else {
        unit
    };
    Face { a: a as usize, b: b as usize, c: c as usize, n: out, p0: p[a] }
}

/// Whether a point lies in front of a face.
pub open spec fn sees(f: Face, q: Vec3, eps: Scalar) -> bool {
    flt(eps, vdot(f.n, vsub(q, f.p0)))
}

/// The faces that a point does not lie in front of.
pub open spec fn hidden(faces: Seq<Face>, q: Vec3, eps: Scalar) -> Seq<Face>
    decreases faces.len(),
{
    if faces.len() == 0 {
        Seq::empty()
    } else if sees(faces.last(), q, eps) {
        hidden(faces.drop_last(), q, eps)
    } else {
        hidden(faces.drop_last(), q, eps).push(faces.last())
    }
}

pub open spec fn edge(a: int, b: int) -> (int, int) {
    if a < b {
        (a, b)
    } else {
        (b, a)
    }
}

/// The edges of the faces that a point lies in front of.
pub open spec fn seen_edges(faces: Seq<Face>, q: Vec3, eps: Scalar) -> Seq<(int, int)>
    decreases faces.len(),
{
    if faces.len() == 0 {
        Seq::empty()
    } else {
        let head = seen_edges(faces.drop_last(), q, eps);
        let f = faces.last();
        if sees(f, q, eps) {
            head.push(edge(f.a as int, f.b as int)).push(edge(f.b as int, f.c as int)).push(
                edge(f.c as int, f.a as int),
            )
        } else {
            head
        }
    }
}

/// Whether the edge at `i` occurs nowhere else.
pub open spec fn single(edges: Seq<(int, int)>, i: int) -> bool {
    forall|k: int| 0 <= k < edges.len() && k != i ==> #[trigger] edges[k] != edges[i]
}

/// The faces from the horizon, which are the edges seen once, to the new point.
pub open spec fn horizon_faces(
    edges: Seq<(int, int)>,
    k: nat,
    p: Seq<Vec3>,
    mid: Vec3,
    idx: int,
) -> Seq<Face>
    decreases k,
{
    if k == 0 {
        Seq::empty()
    } else {
        let head = horizon_faces(edges, (k - 1) as nat, p, mid, idx);
        if single(edges, k - 1) {
            head.push(face_of(p, mid, edges[k - 1].0, edges[k - 1].1, idx))
        } else {
            head
        }
    }
}

pub open spec fn sat64(x: int) -> int {
    if x > u64::MAX {
        u64::MAX as int
    } else {
        x
    }
}

pub open spec fn work_budget(n: int) -> int {
    sat64(sat64(sat64(n * n) * 4) + 1_000_000)
}

/// The faces behind the points from `idx` on. A sweep that grows past its budget
/// gives up.
pub open spec fn sweep(
    p: Seq<Vec3>,
    mid: Vec3,
    eps: Scalar,
    seed: Seq<int>,
    idx: int,
    faces: Seq<Face>,
    work: int,
) -> Option<Seq<Face>>
    decreases p.len() - idx,
{
    if idx < 0 || idx >= p.len() {
        Some(faces)
    } else if seed.contains(idx) {
        sweep(p, mid, eps, seed, idx + 1, faces, work)
    } else {
        let w = sat64(work + faces.len());
        let kept = hidden(faces, p[idx], eps);
        let edges = seen_edges(faces, p[idx], eps);
        let added = horizon_faces(edges, edges.len(), p, mid, idx);
        if w > work_budget(p.len() as int) {
            None
        } else if kept.len() == faces.len() {
            sweep(p, mid, eps, seed, idx + 1, faces, w)
        } else if kept.len() + added.len() > 64 * p.len() + 64 {
            None
        } else {
            sweep(p, mid, eps, seed, idx + 1, kept + added, w)
        }
    }
}

/// The four points that a hull starts from; `None` for a cloud without volume.
#[verifier::opaque]
pub open spec fn seed_points(p: Seq<Vec3>) -> Option<Seq<int>> {
    let eps = fmul(Scalar { bits: NANO_BITS }, cloud_scale(p));
    let n = p.len();
    let i1 = last_max(Seq::new(n, |k: int| vnorm(vsub(p[k], p[0]))), n);
    let d = vsub(p[i1], p[0]);
    let line = vdiv(d, vnorm(d));
    let i2 = last_max(Seq::new(n, |k: int| line_dist(p[k], p[0], line)), n);
    let raw = vcross(d, vsub(p[i2], p[0]));
    let pn = vnorm(raw);
    let plane = vdiv(raw, pn);
    let i3 = last_max(Seq::new(n, |k: int| fabs(vdot(vsub(p[k], p[0]), plane))), n);
    if fle(vnorm(d), eps) || fle(line_dist(p[i2], p[0], line), eps) || fle(pn, fmul(eps, eps))
        || fle(fabs(vdot(vsub(p[i3], p[0]), plane)), eps) {
        None
    } else {
        Some(seq![0int, i1, i2, i3])
    }
}

/// The faces of a hull; `None` for a cloud without volume.
#[verifier::opaque]
pub open spec fn hull_faces(p: Seq<Vec3>) -> Option<Seq<Face>> {
    if p.len() < 4 {
        None
    } else {
        match seed_points(p) {
            None => None,
            Some(s) => {
                let mid = centroid(p);
                let start = seq![
                    face_of(p, mid, s[0], s[1], s[2]),
                    face_of(p, mid, s[0], s[1], s[3]),
                    face_of(p, mid, s[0], s[2], s[3]),
                    face_of(p, mid, s[1], s[2], s[3]),
                ];
                sweep(
                    p,
                    mid,
                    fmul(Scalar { bits: NANO_BITS }, cloud_scale(p)),
                    s,
                    0,
                    start,
                    0,
                )
            },
        }
    }
}

pub open spec fn on_face(faces: Seq<Face>, i: int) -> bool {
    exists|k: int|
        0 <= k < faces.len() && ((#[trigger] faces[k]).a == i || faces[k].b == i || faces[k].c
            == i)
}

/// The first `k` points that are corners of a face.
pub open spec fn corners(p: Seq<Vec3>, faces: Seq<Face>, k: nat) -> Seq<Vec3>
    decreases k,
{
    if k == 0 {
        Seq::empty()
    } else if on_face(faces, k - 1) {
        corners(p, faces, (k - 1) as nat).push(p[k - 1])
    } else {
        corners(p, faces, (k - 1) as nat)
    }
}

/// Every point lies inside or on every face, within a tolerance.
pub open spec fn within(faces: Seq<Face>, all: Seq<Vec3>, eps: Scalar) -> bool {
    forall|i: int, k: int|
        #![trigger all[i], faces[k]]
        0 <= i < all.len() && 0 <= k < faces.len() ==> behind(faces[k], all[i], eps)
}

pub open spec fn behind(f: Face, q: Vec3, eps: Scalar) -> bool {
    fle(vdot(f.n, vsub(q, f.p0)), eps)
}

/// Every point lies inside or on the hull of `hull`.
pub open spec fn contains_all(all: Seq<Vec3>, hull: Seq<Vec3>) -> bool {
    match hull_faces(hull) {
        None => false,
        Some(faces) => within(
            faces,
            all,
            fmul(Scalar { bits: TENTH_MICRO_BITS }, cloud_scale(all)),
        ),
    }
}

/// The hull of the points, or the distinct points where it has none or fails to
/// contain one of them.
#[verifier::opaque]
pub open spec fn hull_of(p: Seq<Vec3>) -> Seq<Vec3> {
    let u = unique_points(subsampled(p, MAX_HULL_INPUT as nat));
    match hull_faces(u) {
        None => u,
        Some(faces) => {
            let h = corners(u, faces, u.len());
            if h.len() >= 4 && contains_all(u, h) {
                h
            } else {
                u
            }
        },
    }
}

pub fn lane_greater(a: Scalar, b: Scalar) -> (r: Scalar)
    ensures
        r == lane_max(a, b),
{
    if b.le(a) {
        a
    } else {
        b
    }
}

fn lane_lesser(a: Scalar, b: Scalar) -> (r: Scalar)
    ensures
        r == lane_min(a, b),
{
    if a.le(b) {
        a
    } else {
        b
    }
}

fn scale_of(p: &Vec<Vec3>) -> (r: Scalar)
    requires
        p.len() > 0,
    ensures
        r == cloud_scale(p@),
{
    let mut lo: Vec3 = p[0];
    let mut hi: Vec3 = p[0];
    let mut i: usize = 0;
    while i < p.len()
        invariant
            i <= p.len(),
            (lo, hi) == bounds(p@, i as nat),
        decreases p.len() - i,
    {
        let q = p[i];
        lo = Vec3 {
            x: lane_lesser(lo.x, q.x),
            y: lane_lesser(lo.y, q.y),
            z: lane_lesser(lo.z, q.z),
        };
        hi = Vec3 {
            x: lane_greater(hi.x, q.x),
            y: lane_greater(hi.y, q.y),
            z: lane_greater(hi.z, q.z),
        };
        i = i + 1;
    }
    reveal(cloud_scale);
    let d = hi.minus(lo);
    lane_greater(lane_greater(d.x.abs(), d.y.abs()), d.z.abs()).max(Scalar { bits: ONE_BITS })
}

fn dedup(p: &Vec<Vec3>) -> (r: Vec<Vec3>)
    ensures
        r@ == unique_points(p@),
{
    let mut out: Vec<Vec3> = Vec::new();
    if p.len() == 0 {
        return out;
    }
    let tol = Scalar { bits: NANO_BITS }.mul(scale_of(p));
    let tol2 = tol.mul(tol);
    let mut i: usize = 0;
    while i < p.len()
        invariant
            i <= p.len(),
            out@ == deduped(p@.take(i as int), tol2),
        decreases p.len() - i,
    {
        let q = p[i];
        proof {
            assert(p@.take(i + 1).drop_last() =~= p@.take(i as int));
            assert(p@.take(i + 1).last() == q);
        }
        let mut near: bool = false;
        let mut k: usize = 0;
        while k < out.len() && !near
            invariant
                k <= out.len(),
                near ==> near_some(out@, q, tol2),
                !near ==> forall|j: int|
                    0 <= j < k ==> !fle(
                        vdot(vsub(q, #[trigger] out@[j]), vsub(q, out@[j])),
                        tol2,
                    ),
            decreases out.len() - k,
        {
            let d = q.minus(out[k]);
            if d.dot(d).le(tol2) {
                near = true;
                assert(fle(vdot(vsub(q, out@[k as int]), vsub(q, out@[k as int])), tol2));
            }
            k = k + 1;
        }
        if !near {
            out.push(q);
        }
        i = i + 1;
    }
    assert(p@.take(p@.len() as int) =~= p@);
    out
}

fn axis_of(p: Vec3, axis: u8) -> (r: Scalar)
    ensures
        r == component(p, axis as int),
{
    if axis == 0 {
        p.x
    } else if axis == 1 {
        p.y
    } else {
        p.z
    }
}

fn find_extreme(p: &Vec<Vec3>, axis: u8, greatest: bool) -> (r: usize)
    requires
        p.len() > 0,
    ensures
        r == extreme(p@, axis as int, greatest, p@.len()),
        r < p.len(),
{
    let mut m: usize = 0;
    let mut i: usize = 1;
    while i < p.len()
        invariant
            1 <= i <= p.len(),
            m < i,
            m == extreme(p@, axis as int, greatest, i as nat),
        decreases p.len() - i,
    {
        let x = axis_of(p[i], axis);
        let y = axis_of(p[m], axis);
        if (greatest && x.gt(y)) || (!greatest && x.lt(y)) {
            m = i;
        }
        i = i + 1;
    }
    m
}

pub open spec fn positions(v: Seq<usize>) -> Seq<int> {
    v.map_values(|i: usize| i as int)
}

fn holds(v: &Vec<usize>, x: usize) -> (r: bool)
    ensures
        r == positions(v@).contains(x as int),
{
    let mut i: usize = 0;
    while i < v.len()
        invariant
            i <= v.len(),
            forall|k: int| 0 <= k < i ==> v@[k] != x,
        decreases v.len() - i,
    {
        if v[i] == x {
            assert(positions(v@)[i as int] == x);
            return true;
        }
        i = i + 1;
    }
    assert forall|k: int| 0 <= k < positions(v@).len() implies positions(v@)[k] != x by {
        assert(v@[k] != x);
    }
    false
}

fn push_distinct(v: &mut Vec<usize>, x: usize, all: Ghost<Seq<int>>)
    requires
        positions(old(v)@) == distinct(all@),
    ensures
        positions(final(v)@) == distinct(all@.push(x as int)),
        forall|k: int|
            0 <= k < final(v)@.len() ==> #[trigger] final(v)@[k] == x || old(v)@.contains(
                final(v)@[k],
            ),
        final(v)@.len() <= old(v)@.len() + 1,
{
    assert(all@.push(x as int).drop_last() =~= all@);
    let ghost before = v@;
    if !holds(v, x) {
        v.push(x);
        assert(positions(v@) =~= positions(before).push(x as int));
    }
    assert forall|k: int| 0 <= k < v@.len() implies #[trigger] v@[k] == x || before.contains(
        v@[k],
    ) by {
        if k < before.len() {
            assert(before[k] == v@[k]);
        }
    }
}

fn extreme_positions(p: &Vec<Vec3>) -> (r: Vec<usize>)
    requires
        p.len() > 0,
    ensures
        positions(r@) == distinct(extremes(p@)),
        forall|k: int| 0 <= k < r@.len() ==> #[trigger] r@[k] < p.len(),
        r.len() <= 6,
{
    let e0 = find_extreme(p, 0, false);
    let e1 = find_extreme(p, 0, true);
    let e2 = find_extreme(p, 1, false);
    let e3 = find_extreme(p, 1, true);
    let e4 = find_extreme(p, 2, false);
    let e5 = find_extreme(p, 2, true);
    let mut ext: Vec<usize> = Vec::new();
    let ghost s0 = Seq::<int>::empty();
    assert(positions(ext@) =~= distinct(s0));
    push_distinct(&mut ext, e0, Ghost(s0));
    let ghost s1 = s0.push(e0 as int);
    push_distinct(&mut ext, e1, Ghost(s1));
    let ghost s2 = s1.push(e1 as int);
    push_distinct(&mut ext, e2, Ghost(s2));
    let ghost s3 = s2.push(e2 as int);
    push_distinct(&mut ext, e3, Ghost(s3));
    let ghost s4 = s3.push(e3 as int);
    push_distinct(&mut ext, e4, Ghost(s4));
    let ghost s5 = s4.push(e4 as int);
    push_distinct(&mut ext, e5, Ghost(s5));
    assert(s5.push(e5 as int) =~= extremes(p@));
    ext
}

/// Cuts a cloud down to at most `cap` points.
pub fn subsample(p: &Vec<Vec3>, cap: usize) -> (r: Vec<Vec3>)
    ensures
        r@ == subsampled(p@, cap as nat),
{
    let n: usize = p.len();
    if n <= cap {
        return crate::model::shape::copy_points(p);
    }
    let ext = extreme_positions(p);
    let ghost kept = positions(ext@);
    let budget: usize = if cap > ext.len() {
        cap - ext.len()
    } else {
        1
    };
    let stride: usize = 1 + (n - 1) / budget;
    proof {
        assert(kept.len() == ext.len());
        assert(stride == (n + budget - 1) / (budget as int)) by {
            vstd::arithmetic::div_mod::lemma_div_plus_one((n - 1) as int, budget as int);
        }
    }
    let mut out: Vec<usize> = Vec::new();
    let mut c: usize = 0;
    while c < ext.len()
        invariant
            c <= ext.len(),
            out@ == ext@.take(c as int),
        decreases ext.len() - c,
    {
        out.push(ext[c]);
        c = c + 1;
        assert(ext@.take(c as int) =~= ext@.take(c - 1).push(ext@[c - 1]));
    }
    assert(ext@.take(ext@.len() as int) =~= ext@);
    let mut i: usize = 0;
    let mut more: bool = true;
    while more && out.len() < cap
        invariant
            n == p.len(),
            stride >= 1,
            kept == positions(ext@),
            more ==> i < n,
            forall|k: int| 0 <= k < out@.len() ==> #[trigger] out@[k] < n,
            strided(kept, n as nat, 0, stride as int, cap as nat, kept) == (if more {
                strided(kept, n as nat, i as int, stride as int, cap as nat, positions(out@))
            } else {
                positions(out@)
            }),
        decreases
            if more {
                n - i
            } else {
                0
            },
    {
        let ghost before = out@;
        if !holds(&ext, i) {
            out.push(i);
            assert(positions(out@) =~= positions(before).push(i as int));
        }
        let ghost next = i + stride;
        assert(strided(kept, n as nat, i as int, stride as int, cap as nat, positions(before))
            == strided(kept, n as nat, next, stride as int, cap as nat, positions(out@)));
        if n - i <= stride {
            more = false;
            assert(strided(kept, n as nat, next, stride as int, cap as nat, positions(out@))
                == positions(out@));
        } else {
            i = i + stride;
        }
    }
    let mut r: Vec<Vec3> = Vec::new();
    let mut k: usize = 0;
    let ghost want = sample_positions(p@, cap as nat).map_values(|i: int| p@[i]);
    assert(positions(out@) == sample_positions(p@, cap as nat));
    while k < out.len()
        invariant
            k <= out.len(),
            n == p.len(),
            forall|j: int| 0 <= j < out@.len() ==> #[trigger] out@[j] < n,
            positions(out@) == sample_positions(p@, cap as nat),
            want == sample_positions(p@, cap as nat).map_values(|i: int| p@[i]),
            r.len() == k,
            forall|j: int| 0 <= j < k ==> #[trigger] r@[j] == want[j],
        decreases out.len() - k,
    {
        assert(positions(out@)[k as int] == out@[k as int]);
        r.push(p[out[k]]);
        k = k + 1;
    }
    assert(r@ =~= want);
    r
}

/// The face of three points.
fn make_face(p: &Vec<Vec3>, mid: Vec3, a: usize, b: usize, c: usize) -> (r: Face)
    requires
        a < p.len(),
        b < p.len(),
        c < p.len(),
    ensures
        r == face_of(p@, mid, a as int, b as int, c as int),
        r.a == a && r.b == b && r.c == c,
{
    reveal(face_of);
    let raw = p[b].minus(p[a]).cross(p[c].minus(p[a]));
    let len = raw.norm();
    let unit = if len.gt(Scalar { bits: 0 }) {
        raw.over(len)
    } else {
        raw
    };
    let out = if unit.dot(p[a].minus(mid)).lt(Scalar { bits: 0 }) {
        Vec3 { x: unit.x.neg(), y: unit.y.neg(), z: unit.z.neg() }
    } else {
        unit
    };
    Face { a, b, c, n: out, p0: p[a] }
}

/// Last position of the greatest key.
fn argmax(keys: &Vec<Scalar>) -> (r: usize)
    requires
        keys.len() > 0,
    ensures
        r == last_max(keys@, keys@.len()),
        r < keys.len(),
{
    let mut m: usize = 0;
    let mut i: usize = 1;
    while i < keys.len()
        invariant
            1 <= i <= keys.len(),
            m < i,
            m == last_max(keys@, i as nat),
        decreases keys.len() - i,
    {
        if !keys[i].sorts_before(keys[m]) {
            m = i;
        }
        i = i + 1;
    }
    m
}

fn middle(p: &Vec<Vec3>) -> (r: Vec3)
    ensures
        r == centroid(p@),
{
    let mut s: Vec3 = Vec3 {
        x: Scalar { bits: 0 },
        y: Scalar { bits: 0 },
        z: Scalar { bits: 0 },
    };
    let mut i: usize = 0;
    while i < p.len()
        invariant
            i <= p.len(),
            s == point_sum(p@, i as nat),
        decreases p.len() - i,
    {
        s = s.plus(p[i]);
        i = i + 1;
    }
    s.over(Scalar::from_usize(p.len()))
}

fn dist_to_line(p: Vec3, a: Vec3, dir: Vec3) -> (r: Scalar)
    ensures
        r == line_dist(p, a, dir),
{
    let ap = p.minus(a);
    ap.minus(dir.scaled(ap.dot(dir))).norm()
}

/// The four points that a hull starts from.
fn find_seed(p: &Vec<Vec3>, eps: Scalar) -> (r: Option<(usize, usize, usize)>)
    requires
        p.len() > 0,
        eps == fmul(Scalar { bits: NANO_BITS }, cloud_scale(p@)),
    ensures
        match r {
            Some((i1, i2, i3)) => seed_points(p@) == Some(
                seq![0int, i1 as int, i2 as int, i3 as int],
            ) && i1 < p.len() && i2 < p.len() && i3 < p.len(),
            None => seed_points(p@) is None,
        },
{
    reveal(seed_points);
    let n: usize = p.len();
    let mut keys: Vec<Scalar> = Vec::new();
    while keys.len() < n
        invariant
            n == p.len(),
            n > 0,
            keys.len() <= n,
            forall|k: int| 0 <= k < keys.len() ==> #[trigger] keys@[k] == vnorm(vsub(p@[k], p@[0])),
        decreases n - keys.len(),
    {
        let k: usize = keys.len();
        keys.push(p[k].minus(p[0]).norm());
    }
    assert(keys@ =~= Seq::new(n as nat, |k: int| vnorm(vsub(p@[k], p@[0]))));
    let i1 = argmax(&keys);
    let d = p[i1].minus(p[0]);
    if d.norm().le(eps) {
        return None;
    }
    let line = d.over(d.norm());
    let mut keys2: Vec<Scalar> = Vec::new();
    while keys2.len() < n
        invariant
            n == p.len(),
            n > 0,
            keys2.len() <= n,
            forall|k: int|
                0 <= k < keys2.len() ==> #[trigger] keys2@[k] == line_dist(p@[k], p@[0], line),
        decreases n - keys2.len(),
    {
        let k: usize = keys2.len();
        keys2.push(dist_to_line(p[k], p[0], line));
    }
    assert(keys2@ =~= Seq::new(n as nat, |k: int| line_dist(p@[k], p@[0], line)));
    let i2 = argmax(&keys2);
    if dist_to_line(p[i2], p[0], line).le(eps) {
        return None;
    }
    let raw = d.cross(p[i2].minus(p[0]));
    let pn = raw.norm();
    if pn.le(eps.mul(eps)) {
        return None;
    }
    let plane = raw.over(pn);
    let mut keys3: Vec<Scalar> = Vec::new();
    while keys3.len() < n
        invariant
            n == p.len(),
            n > 0,
            keys3.len() <= n,
            forall|k: int|
                0 <= k < keys3.len() ==> #[trigger] keys3@[k] == fabs(
                    vdot(vsub(p@[k], p@[0]), plane),
                ),
        decreases n - keys3.len(),
    {
        let k: usize = keys3.len();
        keys3.push(p[k].minus(p[0]).dot(plane).abs());
    }
    assert(keys3@ =~= Seq::new(n as nat, |k: int| fabs(vdot(vsub(p@[k], p@[0]), plane))));
    let i3 = argmax(&keys3);
    if p[i3].minus(p[0]).dot(plane).abs().le(eps) {
        return None;
    }
    Some((i1, i2, i3))
}

pub open spec fn edges_view(e: Seq<(usize, usize)>) -> Seq<(int, int)> {
    Seq::new(e.len(), |i: int| (e[i].0 as int, e[i].1 as int))
}

fn make_edge(a: usize, b: usize) -> (r: (usize, usize))
    ensures
        (r.0 as int, r.1 as int) == edge(a as int, b as int),
        r.0 == a && r.1 == b || r.0 == b && r.1 == a,
{
    if a < b {
        (a, b)
    } else {
        (b, a)
    }
}

/// Faces whose corners are among the first `n` points.
pub open spec fn faces_in(faces: Seq<Face>, n: nat) -> bool {
    forall|k: int|
        0 <= k < faces.len() ==> (#[trigger] faces[k]).a < n && faces[k].b < n && faces[k].c < n
}

/// The faces that stay, and the edges of those that go.
fn split_faces(faces: &Vec<Face>, q: Vec3, eps: Scalar, n: usize) -> (r: (
    Vec<Face>,
    Vec<(usize, usize)>,
))
    requires
        faces_in(faces@, n as nat),
    ensures
        r.0@ == hidden(faces@, q, eps),
        edges_view(r.1@) == seen_edges(faces@, q, eps),
        faces_in(r.0@, n as nat),
        forall|k: int| 0 <= k < r.1@.len() ==> (#[trigger] r.1@[k]).0 < n && r.1@[k].1 < n,
        r.0@.len() <= faces@.len(),
{
    let mut kept: Vec<Face> = Vec::new();
    let mut edges: Vec<(usize, usize)> = Vec::new();
    let mut i: usize = 0;
    assert(edges_view(edges@) =~= Seq::empty());
    while i < faces.len()
        invariant
            i <= faces.len(),
            faces_in(faces@, n as nat),
            kept@ == hidden(faces@.take(i as int), q, eps),
            edges_view(edges@) == seen_edges(faces@.take(i as int), q, eps),
            faces_in(kept@, n as nat),
            forall|k: int| 0 <= k < edges@.len() ==> (#[trigger] edges@[k]).0 < n && edges@[k].1 < n,
            kept.len() <= i,
        decreases faces.len() - i,
    {
        let f = faces[i];
        proof {
            assert(faces@.take(i + 1).drop_last() =~= faces@.take(i as int));
            assert(faces@.take(i + 1).last() == f);
            assert(f == faces@[i as int]);
        }
        if f.n.dot(q.minus(f.p0)).gt(eps) {
            let ghost before = edges@;
            let e0 = make_edge(f.a, f.b);
            let e1 = make_edge(f.b, f.c);
            let e2 = make_edge(f.c, f.a);
            edges.push(e0);
            edges.push(e1);
            edges.push(e2);
            assert(edges_view(edges@) =~= edges_view(before).push(
                edge(f.a as int, f.b as int),
            ).push(edge(f.b as int, f.c as int)).push(edge(f.c as int, f.a as int)));
        } else {
            kept.push(f);
        }
        i = i + 1;
    }
    assert(faces@.take(faces@.len() as int) =~= faces@);
    (kept, edges)
}

/// Whether the edge at `i` occurs nowhere else.
fn is_single(edges: &Vec<(usize, usize)>, i: usize) -> (r: bool)
    requires
        i < edges.len(),
    ensures
        r == single(edges_view(edges@), i as int),
{
    let ghost v = edges_view(edges@);
    let mut k: usize = 0;
    while k < edges.len()
        invariant
            k <= edges.len(),
            i < edges.len(),
            v == edges_view(edges@),
            forall|j: int| 0 <= j < k && j != i ==> #[trigger] v[j] != v[i as int],
        decreases edges.len() - k,
    {
        if k != i && edges[k].0 == edges[i].0 && edges[k].1 == edges[i].1 {
            assert(v[k as int] == v[i as int]);
            return false;
        }
        assert(k != i ==> v[k as int] != v[i as int]);
        k = k + 1;
    }
    true
}

/// The faces from the horizon to point `idx`.
fn cover_horizon(edges: &Vec<(usize, usize)>, p: &Vec<Vec3>, mid: Vec3, idx: usize) -> (r: Vec<
    Face,
>)
    requires
        idx < p.len(),
        forall|k: int|
            0 <= k < edges@.len() ==> (#[trigger] edges@[k]).0 < p.len() && edges@[k].1 < p.len(),
    ensures
        r@ == horizon_faces(
            edges_view(edges@),
            edges@.len(),
            p@,
            mid,
            idx as int,
        ),
        faces_in(r@, p@.len()),
{
    let ghost v = edges_view(edges@);
    let mut out: Vec<Face> = Vec::new();
    let mut k: usize = 0;
    while k < edges.len()
        invariant
            k <= edges.len(),
            idx < p.len(),
            v == edges_view(edges@),
            forall|j: int|
                0 <= j < edges@.len() ==> (#[trigger] edges@[j]).0 < p.len() && edges@[j].1
                    < p.len(),
            out@ == horizon_faces(v, k as nat, p@, mid, idx as int),
            faces_in(out@, p@.len()),
        decreases edges.len() - k,
    {
        assert(edges@[k as int].0 < p.len());
        if is_single(edges, k) {
            out.push(make_face(p, mid, edges[k].0, edges[k].1, idx));
        }
        k = k + 1;
    }
    out
}

fn saturating_sum(a: u64, b: u64) -> (r: u64)
    ensures
        r == sat64(a + b),
{
    if a > u64::MAX - b {
        u64::MAX
    } else {
        a + b
    }
}

fn budget_of(n: u64) -> (r: u64)
    ensures
        r == work_budget(n as int),
{
    assert(n * n <= 0xFFFF_FFFF_FFFF_FFFF * 0xFFFF_FFFF_FFFF_FFFF) by (nonlinear_arith)
        requires
            0 <= n <= 0xFFFF_FFFF_FFFF_FFFF,
    ;
    let sq: u128 = (n as u128) * (n as u128);
    let s: u64 = if sq > u64::MAX as u128 {
        u64::MAX
    } else {
        sq as u64
    };
    let f: u64 = if s > u64::MAX / 4 {
        u64::MAX
    } else {
        s * 4
    };
    saturating_sum(f, 1_000_000)
}

/// The faces of the hull of a cloud.
pub fn build_faces(p: &Vec<Vec3>) -> (r: Option<Vec<Face>>)
    ensures
        match r {
            Some(f) => hull_faces(p@) == Some(f@) && faces_in(f@, p@.len()),
            None => hull_faces(p@) is None,
        },
{
    reveal(hull_faces);
    let ghost target = hull_faces(p@);
    let n: usize = p.len();
    if n < 4 {
        return None;
    }
    let eps = Scalar { bits: NANO_BITS }.mul(scale_of(p));
    let mid = middle(p);
    let (i1, i2, i3) = match find_seed(p, eps) {
        Some(s) => s,
        None => {
            return None;
        },
    };
    let ghost seed = seq![0int, i1 as int, i2 as int, i3 as int];
    let mut faces: Vec<Face> = Vec::new();
    faces.push(make_face(p, mid, 0, i1, i2));
    faces.push(make_face(p, mid, 0, i1, i3));
    faces.push(make_face(p, mid, 0, i2, i3));
    faces.push(make_face(p, mid, i1, i2, i3));
    let ghost start = faces@;
    assert(start =~= seq![
        face_of(p@, mid, seed[0], seed[1], seed[2]),
        face_of(p@, mid, seed[0], seed[1], seed[3]),
        face_of(p@, mid, seed[0], seed[2], seed[3]),
        face_of(p@, mid, seed[1], seed[2], seed[3]),
    ]);
    assert(target == sweep(p@, mid, eps, seed, 0, start, 0));
    let budget = budget_of(n as u64);
    let cap: u128 = 64 * (n as u128) + 64;
    let mut work: u64 = 0;
    let mut idx: usize = 0;
    while idx < n
        invariant
            idx <= n,
            n == p.len(),
            seed == seq![0int, i1 as int, i2 as int, i3 as int],
            budget == work_budget(n as int),
            cap == 64 * n + 64,
            faces_in(faces@, p@.len()),
            target == hull_faces(p@),
            target == sweep(p@, mid, eps, seed, idx as int, faces@, work as int),
        decreases n - idx,
    {
        let seeded = idx == 0 || idx == i1 || idx == i2 || idx == i3;
        proof {
            assert(seeded == seed.contains(idx as int)) by {
                assert(seed[0] == 0 && seed[1] == i1 && seed[2] == i2 && seed[3] == i3);
                if seed.contains(idx as int) {
                    let k = choose|k: int| 0 <= k < seed.len() && seed[k] == idx;
                }
            }
        }
        if !seeded {
            work = saturating_sum(work, faces.len() as u64);
            if work > budget {
                return None;
            }
            let (kept, edges) = split_faces(&faces, p[idx], eps, n);
            if kept.len() < faces.len() {
                let mut added = cover_horizon(&edges, p, mid, idx);
                if (kept.len() as u128) + (added.len() as u128) > cap {
                    return None;
                }
                let ghost kv = kept@;
                let ghost av = added@;
                let mut next = kept;
                next.append(&mut added);
                assert(next@ =~= kv + av);
                assert(faces_in(next@, p@.len())) by {
                    assert forall|k: int| 0 <= k < next@.len() implies (#[trigger] next@[k]).a
                        < p@.len() && next@[k].b < p@.len() && next@[k].c < p@.len() by {
                        if k < kv.len() {
                            assert(next@[k] == kv[k]);
                        } else {
                            assert(next@[k] == av[k - kv.len()]);
                        }
                    }
                }
                faces = next;
            }
        }
        idx = idx + 1;
    }
    Some(faces)
}

fn is_behind(f: &Face, q: Vec3, eps: Scalar) -> (r: bool)
    ensures
        r == behind(*f, q, eps),
{
    f.n.dot(q.minus(f.p0)).le(eps)
}

fn all_behind(faces: &Vec<Face>, all: &Vec<Vec3>, eps: Scalar) -> (r: bool)
    ensures
        r == within(faces@, all@, eps),
{
    let mut i: usize = 0;
    while i < all.len()
        invariant
            i <= all.len(),
            forall|x: int, k: int|
                #![trigger all@[x], faces@[k]]
                0 <= x < i && 0 <= k < faces@.len() ==> behind(faces@[k], all@[x], eps),
        decreases all.len() - i,
    {
        let mut k: usize = 0;
        while k < faces.len()
            invariant
                k <= faces.len(),
                i < all.len(),
                forall|y: int| 0 <= y < k ==> behind(#[trigger] faces@[y], all@[i as int], eps),
            decreases faces.len() - k,
        {
            if !is_behind(&faces[k], all[i], eps) {
                assert(!behind(faces@[k as int], all@[i as int], eps));
                return false;
            }
            k = k + 1;
        }
        i = i + 1;
    }
    true
}

/// Whether every point lies inside or on the hull.
fn verify(all: &Vec<Vec3>, hull: &Vec<Vec3>) -> (r: bool)
    requires
        all.len() > 0,
    ensures
        r == contains_all(all@, hull@),
{
    let eps = Scalar { bits: TENTH_MICRO_BITS }.mul(scale_of(all));
    match build_faces(hull) {
        Some(faces) => all_behind(&faces, all, eps),
        None => false,
    }
}

/// The corners of some faces.
fn face_corners(p: &Vec<Vec3>, faces: &Vec<Face>) -> (r: Vec<Vec3>)
    ensures
        r@ == corners(p@, faces@, p@.len()),
{
    let mut out: Vec<Vec3> = Vec::new();
    let mut i: usize = 0;
    while i < p.len()
        invariant
            i <= p.len(),
            out@ == corners(p@, faces@, i as nat),
        decreases p.len() - i,
    {
        let mut used: bool = false;
        let mut k: usize = 0;
        while k < faces.len() && !used
            invariant
                k <= faces.len(),
                used ==> on_face(faces@, i as int),
                !used ==> forall|j: int|
                    0 <= j < k ==> !((#[trigger] faces@[j]).a == i || faces@[j].b == i
                        || faces@[j].c == i),
            decreases faces.len() - k,
        {
            let f = faces[k];
            if f.a == i || f.b == i || f.c == i {
                used = true;
                assert(faces@[k as int].a == i || faces@[k as int].b == i || faces@[k as int].c
                    == i);
            }
            k = k + 1;
        }
        if used {
            out.push(p[i]);
        }
        i = i + 1;
    }
    out
}

/// The points whose hull is the hull of the cloud: its corners, or the distinct
/// points themselves. At most [`MAX_HULL_INPUT`] points are looked at.
pub fn convex_hull(points: &Vec<Vec3>) -> (r: Vec<Vec3>)
    ensures
        r@ == hull_of(points@),
{
    reveal(hull_of);
    reveal(hull_faces);
    let capped = subsample(points, MAX_HULL_INPUT);
    let unique = dedup(&capped);
    if unique.len() < 4 {
        return unique;
    }
    match build_faces(&unique) {
        None => unique,
        Some(faces) => {
            let hull = face_corners(&unique, &faces);
            if hull.len() >= 4 && verify(&unique, &hull) {
                hull
            } else {
                unique
            }
        },
    }
}

// ---- laws ----

pub open spec fn all_from(a: Seq<Vec3>, b: Seq<Vec3>) -> bool {
    forall|i: int| 0 <= i < a.len() ==> b.contains(#[trigger] a[i])
}

proof fn lemma_deduped_from(p: Seq<Vec3>, tol2: Scalar)
    ensures
        all_from(deduped(p, tol2), p),
    decreases p.len(),
{
    if p.len() > 0 {
        lemma_deduped_from(p.drop_last(), tol2);
        let d = deduped(p, tol2);
        let h = deduped(p.drop_last(), tol2);
        assert forall|i: int| 0 <= i < d.len() implies p.contains(#[trigger] d[i]) by {
            if i < h.len() {
                assert(d[i] == h[i]);
                let j = choose|j: int| 0 <= j < p.drop_last().len() && p.drop_last()[j] == h[i];
                assert(p[j] == d[i]);
            } else {
                assert(p[p.len() - 1] == d[i]);
            }
        }
    }
}

proof fn lemma_corners_from(p: Seq<Vec3>, faces: Seq<Face>, k: nat)
    requires
        k <= p.len(),
    ensures
        all_from(corners(p, faces, k), p),
    decreases k,
{
    if k > 0 {
        lemma_corners_from(p, faces, (k - 1) as nat);
        let c = corners(p, faces, k);
        let h = corners(p, faces, (k - 1) as nat);
        assert forall|i: int| 0 <= i < c.len() implies p.contains(#[trigger] c[i]) by {
            if i < h.len() {
                assert(c[i] == h[i]);
            } else {
                assert(p[k - 1] == c[i]);
            }
        }
    }
}

proof fn lemma_strided_in(kept: Seq<int>, n: nat, i: int, stride: int, cap: nat, acc: Seq<int>)
    requires
        forall|k: int| 0 <= k < acc.len() ==> 0 <= #[trigger] acc[k] < n,
        acc.len() <= cap,
    ensures
        ({
            let s = strided(kept, n, i, stride, cap, acc);
            &&& forall|k: int| 0 <= k < s.len() ==> 0 <= #[trigger] s[k] < n
            &&& s.len() <= cap
            &&& s.len() >= acc.len()
            &&& forall|k: int| 0 <= k < acc.len() ==> s[k] == #[trigger] acc[k]
        }),
    decreases
            if i < n {
                n - i
            } else {
                0
            },
{
    if !(stride <= 0 || i < 0 || i >= n || acc.len() >= cap) {
        let next = if kept.contains(i) {
            acc
        } else {
            acc.push(i)
        };
        lemma_strided_in(kept, n, i + stride, stride, cap, next);
        assert forall|k: int| 0 <= k < acc.len() implies strided(kept, n, i, stride, cap, acc)[k]
            == #[trigger] acc[k] by {
            assert(next[k] == acc[k]);
        }
    }
}

proof fn lemma_extreme_in(p: Seq<Vec3>, axis: int, greatest: bool, n: nat)
    ensures
        n > 0 ==> 0 <= extreme(p, axis, greatest, n) < n,
    decreases n,
{
    if n > 1 {
        lemma_extreme_in(p, axis, greatest, (n - 1) as nat);
    }
}

proof fn lemma_distinct_in(s: Seq<int>, n: int)
    requires
        forall|k: int| 0 <= k < s.len() ==> 0 <= #[trigger] s[k] < n,
    ensures
        forall|k: int| 0 <= k < distinct(s).len() ==> 0 <= #[trigger] distinct(s)[k] < n,
        distinct(s).len() <= s.len(),
        forall|k: int| 0 <= k < s.len() ==> distinct(s).contains(#[trigger] s[k]),
    decreases s.len(),
{
    if s.len() > 0 {
        let h = s.drop_last();
        lemma_distinct_in(h, n);
        let d = distinct(s);
        let dh = distinct(h);
        assert(s[s.len() - 1] == s.last());
        assert forall|k: int| 0 <= k < s.len() implies d.contains(#[trigger] s[k]) by {
            if k < h.len() {
                assert(h[k] == s[k]);
                let j = choose|j: int| 0 <= j < dh.len() && dh[j] == h[k];
                assert(d[j] == s[k]);
            } else if !dh.contains(s.last()) {
                assert(d[dh.len() as int] == s.last());
            }
        }
    }
}

proof fn lemma_extremes_in(p: Seq<Vec3>)
    requires
        p.len() > 0,
    ensures
        ({
            let e = distinct(extremes(p));
            &&& forall|k: int| 0 <= k < e.len() ==> 0 <= #[trigger] e[k] < p.len()
            &&& e.len() <= 6
            &&& forall|k: int| 0 <= k < 6 ==> e.contains(#[trigger] extremes(p)[k])
        }),
{
    lemma_extreme_in(p, 0, false, p.len());
    lemma_extreme_in(p, 0, true, p.len());
    lemma_extreme_in(p, 1, false, p.len());
    lemma_extreme_in(p, 1, true, p.len());
    lemma_extreme_in(p, 2, false, p.len());
    lemma_extreme_in(p, 2, true, p.len());
    lemma_distinct_in(extremes(p), p.len() as int);
}

/// The cut-down cloud has at most `cap` points, all of them from the cloud.
pub proof fn law_subsample_is_bounded(p: Seq<Vec3>, cap: nat)
    requires
        cap >= 6,
    ensures
        subsampled(p, cap).len() <= cap,
        all_from(subsampled(p, cap), p),
        p.len() <= cap ==> subsampled(p, cap) == p,
{
    if p.len() > cap {
        lemma_extremes_in(p);
        let ext = distinct(extremes(p));
        let budget: int = cap - ext.len();
        if cap > ext.len() {
            lemma_strided_in(ext, p.len(), 0, (p.len() + budget - 1) / budget, cap, ext);
        } else {
            lemma_strided_in(ext, p.len(), 0, (p.len() + 1 - 1) / 1, cap, ext);
        }
        let s = sample_positions(p, cap);
        let out = subsampled(p, cap);
        assert forall|i: int| 0 <= i < out.len() implies p.contains(#[trigger] out[i]) by {
            assert(0 <= s[i] < p.len());
            assert(p[s[i]] == out[i]);
        }
    }
}

/// The extremes of the cloud along each axis survive the cut.
pub proof fn law_subsample_keeps_extremes(p: Seq<Vec3>, cap: nat, k: int)
    requires
        cap >= 6,
        p.len() > cap,
        0 <= k < 6,
    ensures
        sample_positions(p, cap).contains(extremes(p)[k]),
{
    lemma_extremes_in(p);
    let ext = distinct(extremes(p));
    let budget: int = cap - ext.len();
    if cap > ext.len() {
        lemma_strided_in(ext, p.len(), 0, (p.len() + budget - 1) / budget, cap, ext);
    } else {
        lemma_strided_in(ext, p.len(), 0, (p.len() + 1 - 1) / 1, cap, ext);
    }
    let j = choose|j: int| 0 <= j < ext.len() && ext[j] == extremes(p)[k];
    assert(sample_positions(p, cap)[j] == ext[j]);
}

/// Whatever comes out is from the cloud: no point is made up.
pub proof fn law_hull_is_from_cloud(p: Seq<Vec3>)
    ensures
        all_from(hull_of(p), p),
{
    reveal(hull_of);
    let s = subsampled(p, MAX_HULL_INPUT as nat);
    let u = unique_points(s);
    law_subsample_is_bounded(p, MAX_HULL_INPUT as nat);
    if s.len() > 0 {
        lemma_deduped_from(s, dedup_tol2(s));
    }
    assert(all_from(u, p)) by {
        assert forall|i: int| 0 <= i < u.len() implies p.contains(#[trigger] u[i]) by {
            assert(s.contains(u[i]));
            let j = choose|j: int| 0 <= j < s.len() && s[j] == u[i];
            assert(p.contains(s[j]));
        }
    }
    match hull_faces(u) {
        None => {},
        Some(faces) => {
            lemma_corners_from(u, faces, u.len());
            let h = corners(u, faces, u.len());
            assert forall|i: int| 0 <= i < h.len() implies p.contains(#[trigger] h[i]) by {
                assert(u.contains(h[i]));
                let j = choose|j: int| 0 <= j < u.len() && u[j] == h[i];
                assert(p.contains(u[j]));
            }
        },
    }
}

/// A hull that drops points of the cut-down cloud contains all of them.
pub proof fn law_hull_contains_cloud(p: Seq<Vec3>)
    ensures
        ({
            let u = unique_points(subsampled(p, MAX_HULL_INPUT as nat));
            hull_of(p) == u || contains_all(u, hull_of(p))
        }),
{
    reveal(hull_of);
}

proof fn lemma_deduped_size(p: Seq<Vec3>, tol2: Scalar)
    ensures
        deduped(p, tol2).len() <= p.len(),
        p.len() > 0 ==> deduped(p, tol2).len() > 0,
    decreases p.len(),
{
    if p.len() > 0 {
        lemma_deduped_size(p.drop_last(), tol2);
    }
}

proof fn lemma_corners_size(p: Seq<Vec3>, faces: Seq<Face>, k: nat)
    ensures
        corners(p, faces, k).len() <= k,
    decreases k,
{
    if k > 0 {
        lemma_corners_size(p, faces, (k - 1) as nat);
    }
}

/// A hull has no more points than its cloud and than the cap, and none only where the cloud
/// has none.
pub proof fn law_hull_is_small(p: Seq<Vec3>)
    ensures
        hull_of(p).len() <= p.len(),
        hull_of(p).len() <= MAX_HULL_INPUT,
        hull_of(p).len() == 0 <==> p.len() == 0,
{
    reveal(hull_of);
    let s = subsampled(p, MAX_HULL_INPUT as nat);
    law_subsample_is_bounded(p, MAX_HULL_INPUT as nat);
    if p.len() > MAX_HULL_INPUT {
        law_subsample_keeps_extremes(p, MAX_HULL_INPUT as nat, 0);
    }
    assert(p.len() > 0 ==> s.len() > 0);
    let u = unique_points(s);
    lemma_deduped_size(s, dedup_tol2(s));
    match hull_faces(u) {
        None => {},
        Some(faces) => {
            lemma_corners_size(u, faces, u.len());
        },
    }
}

proof fn lemma_deduped_near(p: Seq<Vec3>, tol2: Scalar, i: int)
    requires
        0 <= i < p.len(),
    ensures
        deduped(p, tol2).contains(p[i]) || near_some(deduped(p, tol2), p[i], tol2),
    decreases p.len(),
{
    let h = p.drop_last();
    let out = deduped(h, tol2);
    let all = deduped(p, tol2);
    if i < h.len() {
        assert(h[i] == p[i]);
        lemma_deduped_near(h, tol2, i);
        if out.contains(p[i]) {
            let k = choose|k: int| 0 <= k < out.len() && out[k] == p[i];
            assert(all[k] == p[i]);
        } else {
            let k = choose|k: int|
                0 <= k < out.len() && fle(
                    vdot(vsub(p[i], #[trigger] out[k]), vsub(p[i], out[k])),
                    tol2,
                );
            assert(all[k] == out[k]);
        }
    } else if !near_some(out, p.last(), tol2) {
        assert(all[out.len() as int] == p[i]);
    }
}

/// `q` is `p`, or lies within the tolerance of it.
pub open spec fn stands_for(p: Vec3, q: Vec3, tol2: Scalar) -> bool {
    p == q || fle(vdot(vsub(p, q), vsub(p, q)), tol2)
}

/// `q` is a corner of the hull, or lies inside or on it.
pub open spec fn held_by(hull: Seq<Vec3>, q: Vec3, eps: Scalar) -> bool {
    hull.contains(q) || match hull_faces(hull) {
        None => false,
        Some(faces) => forall|k: int|
            0 <= k < faces.len() ==> behind(#[trigger] faces[k], q, eps),
    }
}

/// A hull reaches as far along every axis as its cloud, up to its tolerances: a point that
/// stands for the extreme one is a corner of the hull, or lies inside or on it.
pub proof fn law_hull_keeps_extremes(p: Seq<Vec3>, k: int)
    requires
        p.len() > 0,
        0 <= k < 6,
    ensures
        ({
            let s = subsampled(p, MAX_HULL_INPUT as nat);
            let u = unique_points(s);
            exists|j: int|
                #![trigger u[j]]
                0 <= j < u.len() && stands_for(p[extremes(p)[k]], u[j], dedup_tol2(s)) && held_by(
                    hull_of(p),
                    u[j],
                    fmul(Scalar { bits: TENTH_MICRO_BITS }, cloud_scale(u)),
                )
        }),
{
    reveal(hull_of);
    let cap = MAX_HULL_INPUT as nat;
    let s = subsampled(p, cap);
    let e = p[extremes(p)[k]];
    lemma_extremes_in(p);
    assert(distinct(extremes(p)).contains(extremes(p)[k]));
    let at: int = if p.len() > cap {
        law_subsample_keeps_extremes(p, cap, k);
        let i = choose|i: int|
            0 <= i < sample_positions(p, cap).len() && sample_positions(p, cap)[i] == extremes(
                p,
            )[k];
        i
    } else {
        extremes(p)[k]
    };
    assert(0 <= at < s.len() && s[at] == e);
    let tol2 = dedup_tol2(s);
    let u = unique_points(s);
    lemma_deduped_near(s, tol2, at);
    let j = if u.contains(e) {
        choose|j: int| 0 <= j < u.len() && u[j] == e
    } else {
        choose|j: int|
            0 <= j < u.len() && fle(vdot(vsub(e, #[trigger] u[j]), vsub(e, u[j])), tol2)
    };
    assert(0 <= j < u.len() && stands_for(e, u[j], tol2));
    let eps = fmul(Scalar { bits: TENTH_MICRO_BITS }, cloud_scale(u));
    law_hull_contains_cloud(p);
    let h = hull_of(p);
    if h == u {
        assert(h.contains(u[j]));
    } else {
        let faces = hull_faces(h).unwrap();
        assert(within(faces, u, eps));
        assert forall|c: int| 0 <= c < faces.len() implies behind(#[trigger] faces[c], u[j], eps) by {
            assert(u[j] == u[j]);
        }
    }
    assert(held_by(h, u[j], eps));
}

} // verus!
