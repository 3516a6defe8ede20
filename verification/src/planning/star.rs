//! A search tree that keeps improving: every new node takes the parent through which it
//! is nearest to the root, and its neighbours move under it where that is shorter for
//! them.

use vstd::prelude::*;

use crate::hal::backend::copy_scalars;
#[allow(unused_imports)]
use crate::motion::scurve::computes;
#[allow(unused_imports)]
use crate::motion::trajectory::rows_of;
use crate::planning::geometry::{dist, dist_sq, steer};
#[allow(unused_imports)]
use crate::planning::geometry::{distance, distance_sq, steered};
use crate::planning::rng::{draw, Rng};
#[allow(unused_imports)]
use crate::planning::rng::{advanced, drawn, unit_of};
#[allow(unused_imports)]
use crate::planning::smooth::{askable, judges};
#[allow(unused_imports)]
use crate::planning::tree::{lemma_nearest, nearest_of};
use crate::scalar::consts::{INFINITY_BITS, ONE_BITS, PICO_BITS, PI_BITS, TWO_BITS};
#[allow(unused_imports)]
use crate::scalar::convert::{fmax, fmin, from_int};
#[allow(unused_imports)]
use crate::scalar::number::{fadd, fdiv, fle, flt, fmul, fsub};
#[allow(unused_imports)]
use crate::scalar::order::{law_adding_does_not_shrink, law_roots_are_not_negative};
use crate::scalar::Scalar;

verus! {

/// `1.1`.
pub const SLACK_BITS: u64 = 0x3FF1_9999_9999_999A;

/// Settings of the search.
#[derive(Clone, Copy, Debug, PartialEq, Eq, Structural)]
pub struct StarParams {
    pub seed: u64,
    pub iters: usize,
    /// Longest step, and the largest neighbourhood.
    pub step: Scalar,
    /// How often the goal is the sample.
    pub goal_bias: Scalar,
}

// ---- the neighbourhood ----

/// Volume of the unit ball in `d` dimensions.
pub open spec fn ball(d: nat) -> Scalar
    decreases d,
{
    if d == 0 {
        Scalar { bits: ONE_BITS }
    } else if d == 1 {
        Scalar { bits: TWO_BITS }
    } else {
        fmul(
            ball((d - 2) as nat),
            fdiv(
                fmul(Scalar { bits: TWO_BITS }, Scalar { bits: PI_BITS }),
                from_int(d as int),
            ),
        )
    }
}

/// Volume of the unit ball in `d` dimensions.
pub fn unit_ball_volume(d: usize) -> (r: Scalar)
    ensures
        r == ball(d as nat),
    decreases d,
{
    if d == 0 {
        Scalar { bits: ONE_BITS }
    } else if d == 1 {
        Scalar { bits: TWO_BITS }
    } else {
        let turn = Scalar { bits: TWO_BITS }.mul(Scalar { bits: PI_BITS });
        unit_ball_volume(d - 2).mul(turn.div(Scalar::from_usize(d)))
    }
}

/// Volume of the first `n` ranges; one that is turned round has none.
pub open spec fn box_volume(bounds: Seq<(Scalar, Scalar)>, n: nat) -> Scalar
    decreases n,
{
    if n == 0 {
        Scalar { bits: ONE_BITS }
    } else {
        fmul(
            box_volume(bounds, (n - 1) as nat),
            fmax(fsub(bounds[n - 1].1, bounds[n - 1].0), Scalar { bits: 0 }),
        )
    }
}

/// A power that is handed in behaves as `g`.
pub open spec fn raises<P: Fn(Scalar, Scalar) -> Scalar>(
    f: P,
    g: spec_fn(Scalar, Scalar) -> Scalar,
) -> bool {
    forall|x: Scalar, y: Scalar, r: Scalar| call_ensures(f, (x, y), r) ==> r == g(x, y)
}

/// The constant of the shrinking neighbourhood: over what the volume of the ranges asks
/// for, and at least two steps.
pub open spec fn gamma_of(
    bounds: Seq<(Scalar, Scalar)>,
    step: Scalar,
    pow: spec_fn(Scalar, Scalar) -> Scalar,
) -> Scalar {
    let one = Scalar { bits: ONE_BITS };
    let two = Scalar { bits: TWO_BITS };
    let e = fdiv(one, from_int(bounds.len() as int));
    let share = fdiv(box_volume(bounds, bounds.len()), ball(bounds.len()));
    let g = fmul(
        fmul(fmul(two, pow(fadd(one, e), e)), pow(share, e)),
        Scalar { bits: SLACK_BITS },
    );
    if g.finite() && flt(Scalar { bits: 0 }, g) {
        fmax(g, fmul(two, step))
    } else {
        fmul(two, step)
    }
}

pub fn radius_gamma<P: Fn(Scalar, Scalar) -> Scalar>(
    bounds: &Vec<(Scalar, Scalar)>,
    step: Scalar,
    pow: &P,
) -> (r: Scalar)
    requires
        forall|x: Scalar, y: Scalar| call_requires(*pow, (x, y)),
    ensures
        forall|g: spec_fn(Scalar, Scalar) -> Scalar| #[trigger]
            raises(*pow, g) ==> r == gamma_of(bounds@, step, g),
{
    let one = Scalar { bits: ONE_BITS };
    let two = Scalar { bits: TWO_BITS };
    let mut mu = one;
    let mut i: usize = 0;
    while i < bounds.len()
        invariant
            i <= bounds.len(),
            mu == box_volume(bounds@, i as nat),
        decreases bounds.len() - i,
    {
        let (lo, hi) = bounds[i];
        mu = mu.mul(hi.sub(lo).max(Scalar { bits: 0 }));
        i = i + 1;
    }
    let e = one.div(Scalar::from_usize(bounds.len()));
    let first = pow(one.add(e), e);
    let second = pow(mu.div(unit_ball_volume(bounds.len())), e);
    let g = two.mul(first).mul(second).mul(Scalar { bits: SLACK_BITS });
    if g.is_finite() && g.gt(Scalar { bits: 0 }) {
        g.max(two.mul(step))
    } else {
        two.mul(step)
    }
}

/// The neighbourhood among `n` nodes in `d` dimensions.
pub open spec fn radius(
    gamma: Scalar,
    step: Scalar,
    n: nat,
    d: nat,
    ln: spec_fn(Scalar) -> Scalar,
    pow: spec_fn(Scalar, Scalar) -> Scalar,
) -> Scalar {
    if n > 1 {
        let x = from_int(n as int);
        let e = fdiv(Scalar { bits: ONE_BITS }, from_int(d as int));
        fmin(fmul(gamma, pow(fdiv(ln(x), x), e)), step)
    } else {
        Scalar { bits: 0 }
    }
}

fn radius_at<L: Fn(Scalar) -> Scalar, P: Fn(Scalar, Scalar) -> Scalar>(
    gamma: Scalar,
    step: Scalar,
    n: usize,
    d: usize,
    ln: &L,
    pow: &P,
) -> (r: Scalar)
    requires
        forall|x: Scalar| call_requires(*ln, (x,)),
        forall|x: Scalar, y: Scalar| call_requires(*pow, (x, y)),
    ensures
        forall|h: spec_fn(Scalar) -> Scalar, g: spec_fn(Scalar, Scalar) -> Scalar|
            #![trigger computes(*ln, h), raises(*pow, g)]
            computes(*ln, h) && raises(*pow, g) ==> r == radius(
                gamma,
                step,
                n as nat,
                d as nat,
                h,
                g,
            ),
{
    if n > 1 {
        let x = Scalar::from_usize(n);
        let e = Scalar { bits: ONE_BITS }.div(Scalar::from_usize(d));
        let l = ln(x);
        gamma.mul(pow(l.div(x), e)).min(step)
    } else {
        Scalar { bits: 0 }
    }
}

// ---- the tree ----

/// A tree. Node 0 is the root; the rank of every other node is above that of its parent.
#[verifier::ext_equal]
pub struct StarV {
    pub nodes: Seq<Seq<Scalar>>,
    pub parent: Seq<int>,
    pub rank: Seq<nat>,
}

pub open spec fn sound(t: StarV) -> bool {
    &&& t.nodes.len() > 0
    &&& t.parent.len() == t.nodes.len()
    &&& t.rank.len() == t.nodes.len()
    &&& forall|i: int|
        0 < i < t.nodes.len() ==> 0 <= #[trigger] t.parent[i] < t.nodes.len()
            && t.rank[t.parent[i]] < t.rank[i]
}

/// A node that hangs on another one of lower rank.
pub open spec fn hangs(t: StarV, i: int) -> bool {
    0 < i < t.nodes.len() && 0 <= t.parent[i] < t.nodes.len() && t.rank[t.parent[i]] < t.rank[i]
}

/// Length of the way from the root to a node.
pub open spec fn cost(t: StarV, i: int) -> Scalar
    decreases t.rank[i],
{
    if hangs(t, i) {
        fadd(cost(t, t.parent[i]), distance(t.nodes[t.parent[i]], t.nodes[i]))
    } else {
        Scalar { bits: 0 }
    }
}

/// The configurations from the root to a node.
pub open spec fn way(t: StarV, i: int) -> Seq<Seq<Scalar>>
    decreases t.rank[i],
{
    if hangs(t, i) {
        way(t, t.parent[i]).push(t.nodes[i])
    } else {
        seq![t.nodes[i]]
    }
}

/// Node `i` is `m` or hangs below it.
pub open spec fn below(t: StarV, i: int, m: int) -> bool
    decreases t.rank[i],
{
    i == m || (hangs(t, i) && below(t, t.parent[i], m))
}

pub open spec fn rooted_at(q: Seq<Scalar>) -> StarV {
    StarV { nodes: seq![q], parent: seq![0int], rank: seq![0nat] }
}

pub open spec fn grown(t: StarV, q: Seq<Scalar>, p: int) -> StarV {
    StarV {
        nodes: t.nodes.push(q),
        parent: t.parent.push(p),
        rank: t.rank.push(t.rank[p] + 1),
    }
}

/// Node `m` and what hangs below it, moved under `p`.
pub open spec fn moved(t: StarV, m: int, p: int) -> StarV {
    StarV {
        nodes: t.nodes,
        parent: t.parent.update(m, p),
        rank: Seq::new(
            t.rank.len(),
            |i: int|
                if below(t, i, m) {
                    t.rank[i] + t.rank[p] + 1
                } else {
                    t.rank[i]
                },
        ),
    }
}

proof fn lemma_grown(t: StarV, q: Seq<Scalar>, p: int, i: int)
    requires
        sound(t),
        0 <= p < t.nodes.len(),
        0 <= i < t.nodes.len(),
    ensures
        sound(grown(t, q, p)),
        cost(grown(t, q, p), i) == cost(t, i),
    decreases t.rank[i],
{
    let u = grown(t, q, p);
    assert forall|k: int| 0 < k < u.nodes.len() implies 0 <= #[trigger] u.parent[k]
        < u.nodes.len() && u.rank[u.parent[k]] < u.rank[k] by {
        if k < t.nodes.len() {
            assert(t.parent[k] == u.parent[k]);
        }
    }
    if hangs(t, i) {
        lemma_grown(t, q, p, t.parent[i]);
    }
    if i > 0 {
        assert(0 <= t.parent[i] < t.nodes.len());
    }
}

proof fn lemma_moved_sound(t: StarV, m: int, p: int)
    requires
        sound(t),
        0 < m < t.nodes.len(),
        0 <= p < t.nodes.len(),
        !below(t, p, m),
    ensures
        sound(moved(t, m, p)),
{
    let u = moved(t, m, p);
    assert forall|k: int| 0 < k < u.nodes.len() implies 0 <= #[trigger] u.parent[k]
        < u.nodes.len() && u.rank[u.parent[k]] < u.rank[k] by {
        assert(0 <= t.parent[k] < t.nodes.len() && t.rank[t.parent[k]] < t.rank[k]);
        assert(hangs(t, k));
        if k == m {
            assert(below(t, m, m));
        } else {
            assert(below(t, k, m) == below(t, t.parent[k], m));
        }
    }
}

/// Moving a node changes no way that does not lead through it.
proof fn lemma_moved_cost(t: StarV, m: int, p: int, i: int)
    requires
        sound(t),
        0 < m < t.nodes.len(),
        0 <= p < t.nodes.len(),
        !below(t, p, m),
        0 <= i < t.nodes.len(),
        !below(t, i, m),
    ensures
        cost(moved(t, m, p), i) == cost(t, i),
    decreases t.rank[i],
{
    lemma_moved_sound(t, m, p);
    let u = moved(t, m, p);
    if i > 0 {
        assert(0 <= t.parent[i] < t.nodes.len());
        assert(0 <= u.parent[i] < u.nodes.len());
        assert(hangs(t, i));
        lemma_moved_cost(t, m, p, t.parent[i]);
    }
}

/// A way is no shorter than the ways to the nodes it leads through.
proof fn lemma_cost_grows(t: StarV, i: int, m: int)
    requires
        sound(t),
        0 <= i < t.nodes.len(),
        below(t, i, m),
        !cost(t, i).nan(),
    ensures
        fle(cost(t, m), cost(t, i)),
    decreases t.rank[i],
{
    if i != m {
        let p = t.parent[i];
        let d = distance(t.nodes[p], t.nodes[i]);
        law_roots_are_not_negative(distance_sq(t.nodes[p], t.nodes[i]));
        if d.nan() {
            reveal(fadd);
        }
        law_adding_does_not_shrink(cost(t, p), d);
        lemma_cost_grows(t, p, m);
    }
}

/// A node that would be nearer to the root under another one does not carry it.
proof fn lemma_not_carried(t: StarV, new: int, m: int, d: Scalar)
    requires
        sound(t),
        0 <= new < t.nodes.len(),
        fle(Scalar { bits: 0 }, d) || d.nan(),
        flt(fadd(fadd(cost(t, new), d), Scalar { bits: PICO_BITS }), cost(t, m)),
    ensures
        !below(t, new, m),
{
    if below(t, new, m) {
        let c = cost(t, new);
        let x = fadd(c, d);
        let pico = Scalar { bits: PICO_BITS };
        law_adding_does_not_shrink(x, pico);
        if d.nan() {
            reveal(fadd);
        }
        law_adding_does_not_shrink(c, d);
        lemma_cost_grows(t, new, m);
    }
}

// ---- one round ----

/// The nodes among the first `n` that are within `r` of `q`.
pub open spec fn neighbours(nodes: Seq<Seq<Scalar>>, q: Seq<Scalar>, r: Scalar, n: nat) -> Seq<int>
    decreases n,
{
    if n == 0 {
        Seq::empty()
    } else {
        let before = neighbours(nodes, q, r, (n - 1) as nat);
        if fle(distance(nodes[n - 1], q), r) {
            before.push(n - 1)
        } else {
            before
        }
    }
}

/// The parent of a new node among the nearest one and the first `n` neighbours, and how
/// far the new node is from the root through it.
pub open spec fn best_parent(
    t: StarV,
    q: Seq<Scalar>,
    nearest: int,
    near: Seq<int>,
    e: spec_fn(Seq<Scalar>, Seq<Scalar>) -> bool,
    n: nat,
) -> (int, Scalar)
    decreases n,
{
    if n == 0 {
        (nearest, fadd(cost(t, nearest), distance(t.nodes[nearest], q)))
    } else {
        let best = best_parent(t, q, nearest, near, e, (n - 1) as nat);
        let m = near[n - 1];
        let c = fadd(cost(t, m), distance(t.nodes[m], q));
        if m != nearest && flt(fadd(c, Scalar { bits: PICO_BITS }), best.1) && e(
            t.nodes[m],
            q,
        ) {
            (m, c)
        } else {
            best
        }
    }
}

/// The first `n` neighbours moved under a new node, where that is shorter for them.
pub open spec fn rewired(
    t: StarV,
    near: Seq<int>,
    parent: int,
    new: int,
    length: Scalar,
    e: spec_fn(Seq<Scalar>, Seq<Scalar>) -> bool,
    n: nat,
) -> StarV
    decreases n,
{
    if n == 0 {
        t
    } else {
        let u = rewired(t, near, parent, new, length, e, (n - 1) as nat);
        let m = near[n - 1];
        let c = fadd(length, distance(t.nodes[new], t.nodes[m]));
        if m != parent && m != new && flt(fadd(c, Scalar { bits: PICO_BITS }), cost(u, m)) && e(
            t.nodes[new],
            t.nodes[m],
        ) {
            moved(u, m, new)
        } else {
            u
        }
    }
}

/// What is handed in, as functions.
pub struct StarFns {
    pub edge: spec_fn(Seq<Scalar>, Seq<Scalar>) -> bool,
    pub ln: spec_fn(Scalar) -> Scalar,
    pub pow: spec_fn(Scalar, Scalar) -> Scalar,
}

/// The sample of a round, and the state of the generator afterwards.
pub open spec fn sampled(
    s: u64,
    goal: Seq<Scalar>,
    bounds: Seq<(Scalar, Scalar)>,
    bias: Scalar,
) -> (Seq<Scalar>, u64) {
    if flt(unit_of(advanced(s)), bias) {
        (goal, advanced(s))
    } else {
        drawn(advanced(s), bounds, bounds.len())
    }
}

/// The tree after a round toward a sample.
pub open spec fn extended(
    t: StarV,
    sample: Seq<Scalar>,
    gamma: Scalar,
    step: Scalar,
    d: nat,
    f: StarFns,
) -> StarV {
    let ni = nearest_of(t.nodes, sample, t.nodes.len()).0;
    let q = steered(t.nodes[ni], sample, step);
    if flt(distance(t.nodes[ni], q), Scalar { bits: PICO_BITS }) || !(f.edge)(t.nodes[ni], q) {
        t
    } else {
        let r = radius(gamma, step, t.nodes.len(), d, f.ln, f.pow);
        let near = neighbours(t.nodes, q, r, t.nodes.len());
        let (p, length) = best_parent(t, q, ni, near, f.edge, near.len());
        rewired(
            grown(t, q, p),
            near,
            p,
            t.nodes.len() as int,
            length,
            f.edge,
            near.len(),
        )
    }
}

/// The tree after `n` rounds from a generator state, and the state afterwards.
pub open spec fn searched(
    start: Seq<Scalar>,
    goal: Seq<Scalar>,
    bounds: Seq<(Scalar, Scalar)>,
    p: StarParams,
    f: StarFns,
    n: nat,
) -> (StarV, u64)
    decreases n,
{
    if n == 0 {
        (rooted_at(start), p.seed)
    } else {
        let (t, s) = searched(start, goal, bounds, p, f, (n - 1) as nat);
        let (sample, next) = sampled(s, goal, bounds, p.goal_bias);
        (
            extended(t, sample, gamma_of(bounds, p.step, f.pow), p.step, start.len(), f),
            next,
        )
    }
}

/// The best of the first `n` nodes from which the goal is one edge away, and how long
/// the whole way is through it.
pub open spec fn best_last(
    t: StarV,
    goal: Seq<Scalar>,
    e: spec_fn(Seq<Scalar>, Seq<Scalar>) -> bool,
    n: nat,
) -> Option<(int, Scalar)>
    decreases n,
{
    if n == 0 {
        None
    } else {
        let best = best_last(t, goal, e, (n - 1) as nat);
        let q = t.nodes[n - 1];
        if e(q, goal) {
            let total = fadd(cost(t, n - 1), distance(q, goal));
            match best {
                None => Some((n - 1, total)),
                Some((i, b)) => if flt(total, b) {
                    Some((n - 1, total))
                } else {
                    Some((i, b))
                },
            }
        } else {
            best
        }
    }
}

/// The way from the root over a node to the goal.
pub open spec fn whole_way(t: StarV, i: int, goal: Seq<Scalar>) -> Seq<Seq<Scalar>> {
    let w = way(t, i);
    if flt(Scalar { bits: PICO_BITS }, distance(w.last(), goal)) {
        w.push(goal)
    } else {
        w
    }
}

/// What the search answers.
pub open spec fn star_path(
    start: Seq<Scalar>,
    goal: Seq<Scalar>,
    bounds: Seq<(Scalar, Scalar)>,
    p: StarParams,
    f: StarFns,
) -> Option<Seq<Seq<Scalar>>> {
    let t = searched(start, goal, bounds, p, f, p.iters as nat).0;
    match best_last(t, goal, f.edge, t.nodes.len()) {
        None => None,
        Some((i, _)) => Some(whole_way(t, i, goal)),
    }
}

proof fn lemma_below_root(t: StarV, i: int)
    requires
        sound(t),
        0 <= i < t.nodes.len(),
    ensures
        below(t, i, 0),
    decreases t.rank[i],
{
    if i > 0 {
        assert(0 <= t.parent[i] < t.nodes.len() && t.rank[t.parent[i]] < t.rank[i]);
        lemma_below_root(t, t.parent[i]);
    }
}

/// A neighbour that is moved under the new node leaves the tree sound, and the new node
/// where it was.
proof fn lemma_rewire(t: StarV, new: int, m: int, length: Scalar)
    requires
        sound(t),
        0 <= new < t.nodes.len(),
        0 <= m < t.nodes.len(),
        cost(t, new) == length,
        flt(
            fadd(
                fadd(length, distance(t.nodes[new], t.nodes[m])),
                Scalar { bits: PICO_BITS },
            ),
            cost(t, m),
        ),
    ensures
        0 < m,
        !below(t, new, m),
        sound(moved(t, m, new)),
        cost(moved(t, m, new), new) == length,
{
    law_roots_are_not_negative(distance_sq(t.nodes[new], t.nodes[m]));
    lemma_not_carried(t, new, m, distance(t.nodes[new], t.nodes[m]));
    lemma_below_root(t, new);
    lemma_moved_sound(t, m, new);
    lemma_moved_cost(t, m, new, new);
}

proof fn lemma_new_cost(t: StarV, q: Seq<Scalar>, p: int)
    requires
        sound(t),
        0 <= p < t.nodes.len(),
    ensures
        cost(grown(t, q, p), t.nodes.len() as int) == fadd(
            cost(t, p),
            distance(t.nodes[p], q),
        ),
{
    lemma_grown(t, q, p, p);
    let u = grown(t, q, p);
    assert(u.parent[t.nodes.len() as int] == p);
    assert(hangs(u, t.nodes.len() as int));
}

// ---- the search ----

/// The tree as it is kept.
struct StarTree {
    nodes: Vec<Vec<Scalar>>,
    parent: Vec<usize>,
    rank: Ghost<Seq<nat>>,
}

pub open spec fn as_ints(v: Seq<usize>) -> Seq<int> {
    v.map_values(|i: usize| i as int)
}

impl StarTree {
    spec fn seen(&self) -> StarV {
        StarV { nodes: rows_of(self.nodes@), parent: as_ints(self.parent@), rank: self.rank@ }
    }

    fn new(root: Vec<Scalar>) -> (r: StarTree)
        ensures
            r.seen() == rooted_at(root@),
            sound(r.seen()),
    {
        let nodes: Vec<Vec<Scalar>> = vec![root];
        let parent: Vec<usize> = vec![0];
        let r = StarTree { nodes, parent, rank: Ghost(Seq::new(1, |i: int| 0nat)) };
        assert(r.seen() =~= rooted_at(root@));
        r
    }

    fn nearest(&self, q: &Vec<Scalar>) -> (r: usize)
        requires
            sound(self.seen()),
        ensures
            r == nearest_of(self.seen().nodes, q@, self.seen().nodes.len()).0,
            r < self.nodes@.len(),
    {
        let mut best: usize = 0;
        let mut best_d = Scalar { bits: INFINITY_BITS };
        let mut i: usize = 0;
        while i < self.nodes.len()
            invariant
                i <= self.nodes.len(),
                best < self.nodes.len(),
                (best as int, best_d) == nearest_of(self.seen().nodes, q@, i as nat),
            decreases self.nodes.len() - i,
        {
            let d = dist_sq(&self.nodes[i], q);
            assert(self.seen().nodes[i as int] == self.nodes@[i as int]@);
            if d.lt(best_d) {
                best_d = d;
                best = i;
            }
            i = i + 1;
        }
        best
    }

    fn near(&self, q: &Vec<Scalar>, r: Scalar) -> (out: Vec<usize>)
        ensures
            as_ints(out@) == neighbours(self.seen().nodes, q@, r, self.seen().nodes.len()),
            forall|k: int| 0 <= k < out@.len() ==> #[trigger] out@[k] < self.nodes@.len(),
    {
        let mut out: Vec<usize> = Vec::new();
        let mut i: usize = 0;
        assert(as_ints(out@) =~= Seq::empty());
        while i < self.nodes.len()
            invariant
                i <= self.nodes.len(),
                as_ints(out@) == neighbours(self.seen().nodes, q@, r, i as nat),
                forall|k: int| 0 <= k < out@.len() ==> #[trigger] out@[k] < self.nodes@.len(),
            decreases self.nodes.len() - i,
        {
            assert(self.seen().nodes[i as int] == self.nodes@[i as int]@);
            if dist(&self.nodes[i], q).le(r) {
                let ghost before = out@;
                out.push(i);
                assert(as_ints(out@) =~= as_ints(before).push(i as int));
            }
            i = i + 1;
        }
        out
    }

    fn cost(&self, i: usize) -> (r: Scalar)
        requires
            sound(self.seen()),
            i < self.nodes@.len(),
        ensures
            r == cost(self.seen(), i as int),
        decreases self.seen().rank[i as int],
    {
        if i == 0 {
            return Scalar { bits: 0 };
        }
        let p = self.parent[i];
        assert(self.seen().parent[i as int] == p);
        assert(hangs(self.seen(), i as int));
        assert(self.seen().nodes[i as int] == self.nodes@[i as int]@);
        assert(self.seen().nodes[p as int] == self.nodes@[p as int]@);
        self.cost(p).add(dist(&self.nodes[p], &self.nodes[i]))
    }

    fn way(&self, i: usize) -> (r: Vec<Vec<Scalar>>)
        requires
            sound(self.seen()),
            i < self.nodes@.len(),
        ensures
            rows_of(r@) == way(self.seen(), i as int),
            r@.len() > 0,
        decreases self.seen().rank[i as int],
    {
        assert(self.seen().nodes[i as int] == self.nodes@[i as int]@);
        let q = copy_scalars(self.nodes[i].as_slice());
        if i == 0 {
            let r = vec![q];
            assert(rows_of(r@) =~= way(self.seen(), 0));
            return r;
        }
        let p = self.parent[i];
        assert(self.seen().parent[i as int] == p);
        assert(hangs(self.seen(), i as int));
        let mut r = self.way(p);
        let ghost before = r@;
        r.push(q);
        assert(rows_of(r@) =~= rows_of(before).push(q@));
        r
    }

    fn grow(&mut self, q: Vec<Scalar>, p: usize)
        requires
            sound(old(self).seen()),
            p < old(self).nodes@.len(),
        ensures
            final(self).seen() == grown(old(self).seen(), q@, p as int),
            sound(final(self).seen()),
    {
        let ghost before = self.seen();
        let ghost qv = q@;
        proof {
            lemma_grown(before, qv, p as int, 0);
        }
        self.nodes.push(q);
        self.parent.push(p);
        self.rank = Ghost(self.rank@.push(self.rank@[p as int] + 1));
        assert(self.seen() =~= grown(before, qv, p as int));
    }

    fn shift(&mut self, m: usize, p: usize)
        requires
            sound(old(self).seen()),
            0 < m < old(self).nodes@.len(),
            p < old(self).nodes@.len(),
            !below(old(self).seen(), p as int, m as int),
        ensures
            final(self).seen() == moved(old(self).seen(), m as int, p as int),
            sound(final(self).seen()),
    {
        let ghost before = self.seen();
        proof {
            lemma_moved_sound(before, m as int, p as int);
        }
        self.parent.set(m, p);
        self.rank = Ghost(moved(before, m as int, p as int).rank);
        assert(self.seen() =~= moved(before, m as int, p as int));
    }
}

/// What is handed in behaves as `f`.
pub open spec fn handed<
    E: Fn(&[Scalar], &[Scalar]) -> bool,
    L: Fn(Scalar) -> Scalar,
    P: Fn(Scalar, Scalar) -> Scalar,
>(valid: E, ln: L, pow: P, f: StarFns) -> bool {
    judges(valid, f.edge) && computes(ln, f.ln) && raises(pow, f.pow)
}

/// What is handed in takes everything.
pub open spec fn takes_all<
    E: Fn(&[Scalar], &[Scalar]) -> bool,
    L: Fn(Scalar) -> Scalar,
    P: Fn(Scalar, Scalar) -> Scalar,
>(valid: E, ln: L, pow: P) -> bool {
    &&& askable(valid)
    &&& forall|x: Scalar| call_requires(ln, (x,))
    &&& forall|x: Scalar, y: Scalar| call_requires(pow, (x, y))
}

fn choose_parent<E: Fn(&[Scalar], &[Scalar]) -> bool>(
    tree: &StarTree,
    q: &Vec<Scalar>,
    nearest: usize,
    near: &Vec<usize>,
    valid: &E,
) -> (r: (usize, Scalar))
    requires
        sound(tree.seen()),
        nearest < tree.nodes@.len(),
        forall|k: int| 0 <= k < near@.len() ==> #[trigger] near@[k] < tree.nodes@.len(),
        askable(*valid),
    ensures
        r.0 < tree.nodes@.len(),
        r.1 == fadd(
            cost(tree.seen(), r.0 as int),
            distance(tree.seen().nodes[r.0 as int], q@),
        ),
        forall|e: spec_fn(Seq<Scalar>, Seq<Scalar>) -> bool| #[trigger]
            judges(*valid, e) ==> (r.0 as int, r.1) == best_parent(
                tree.seen(),
                q@,
                nearest as int,
                as_ints(near@),
                e,
                near@.len(),
            ),
{
    assert(tree.seen().nodes[nearest as int] == tree.nodes@[nearest as int]@);
    let mut best: usize = nearest;
    let mut length = tree.cost(nearest).add(dist(&tree.nodes[nearest], q));
    let mut k: usize = 0;
    while k < near.len()
        invariant
            k <= near.len(),
            sound(tree.seen()),
            nearest < tree.nodes@.len(),
            best < tree.nodes@.len(),
            forall|k: int| 0 <= k < near@.len() ==> #[trigger] near@[k] < tree.nodes@.len(),
            askable(*valid),
            length == fadd(
                cost(tree.seen(), best as int),
                distance(tree.seen().nodes[best as int], q@),
            ),
            forall|e: spec_fn(Seq<Scalar>, Seq<Scalar>) -> bool| #[trigger]
                judges(*valid, e) ==> (best as int, length) == best_parent(
                    tree.seen(),
                    q@,
                    nearest as int,
                    as_ints(near@),
                    e,
                    k as nat,
                ),
        decreases near.len() - k,
    {
        let m = near[k];
        assert(as_ints(near@)[k as int] == m);
        assert(tree.seen().nodes[m as int] == tree.nodes@[m as int]@);
        if m != nearest {
            let c = tree.cost(m).add(dist(&tree.nodes[m], q));
            if c.add(Scalar { bits: PICO_BITS }).lt(length) && valid(
                tree.nodes[m].as_slice(),
                q.as_slice(),
            ) {
                length = c;
                best = m;
            }
        }
        k = k + 1;
    }
    (best, length)
}

fn rewire<E: Fn(&[Scalar], &[Scalar]) -> bool>(
    tree: &mut StarTree,
    near: &Vec<usize>,
    parent: usize,
    new: usize,
    length: Scalar,
    valid: &E,
)
    requires
        sound(old(tree).seen()),
        new < old(tree).nodes@.len(),
        cost(old(tree).seen(), new as int) == length,
        forall|k: int| 0 <= k < near@.len() ==> #[trigger] near@[k] < old(tree).nodes@.len(),
        askable(*valid),
    ensures
        sound(final(tree).seen()),
        forall|e: spec_fn(Seq<Scalar>, Seq<Scalar>) -> bool| #[trigger]
            judges(*valid, e) ==> final(tree).seen() == rewired(
                old(tree).seen(),
                as_ints(near@),
                parent as int,
                new as int,
                length,
                e,
                near@.len(),
            ),
{
    let ghost t0 = tree.seen();
    let mut k: usize = 0;
    while k < near.len()
        invariant
            k <= near.len(),
            sound(tree.seen()),
            t0 == old(tree).seen(),
            tree.seen().nodes == t0.nodes,
            new < tree.nodes@.len(),
            cost(tree.seen(), new as int) == length,
            forall|k: int| 0 <= k < near@.len() ==> #[trigger] near@[k] < tree.nodes@.len(),
            askable(*valid),
            forall|e: spec_fn(Seq<Scalar>, Seq<Scalar>) -> bool| #[trigger]
                judges(*valid, e) ==> tree.seen() == rewired(
                    t0,
                    as_ints(near@),
                    parent as int,
                    new as int,
                    length,
                    e,
                    k as nat,
                ),
        decreases near.len() - k,
    {
        let m = near[k];
        assert(as_ints(near@)[k as int] == m);
        assert(tree.seen().nodes[m as int] == tree.nodes@[m as int]@);
        assert(tree.seen().nodes[new as int] == tree.nodes@[new as int]@);
        let ghost v = tree.seen();
        let ghost n = tree.nodes@.len();
        assert(v.nodes.len() == n);
        if m != parent && m != new {
            let c = length.add(dist(&tree.nodes[new], &tree.nodes[m]));
            if c.add(Scalar { bits: PICO_BITS }).lt(tree.cost(m)) && valid(
                tree.nodes[new].as_slice(),
                tree.nodes[m].as_slice(),
            ) {
                proof {
                    lemma_rewire(v, new as int, m as int, length);
                }
                tree.shift(m, new);
                assert(tree.seen().nodes.len() == tree.nodes@.len());
            }
        }
        k = k + 1;
    }
}

fn extend<
    E: Fn(&[Scalar], &[Scalar]) -> bool,
    L: Fn(Scalar) -> Scalar,
    P: Fn(Scalar, Scalar) -> Scalar,
>(
    tree: &mut StarTree,
    sample: &Vec<Scalar>,
    gamma: Scalar,
    step: Scalar,
    d: usize,
    valid: &E,
    ln: &L,
    pow: &P,
)
    requires
        sound(old(tree).seen()),
        takes_all(*valid, *ln, *pow),
    ensures
        sound(final(tree).seen()),
        forall|f: StarFns| #[trigger]
            handed(*valid, *ln, *pow, f) ==> final(tree).seen() == extended(
                old(tree).seen(),
                sample@,
                gamma,
                step,
                d as nat,
                f,
            ),
{
    let ghost t = tree.seen();
    assert(t.nodes.len() == tree.nodes@.len());
    let ni = tree.nearest(sample);
    assert(t.nodes[ni as int] == tree.nodes@[ni as int]@);
    let q = steer(&tree.nodes[ni], sample, step);
    if dist(&tree.nodes[ni], &q).lt(Scalar { bits: PICO_BITS }) || !valid(
        tree.nodes[ni].as_slice(),
        q.as_slice(),
    ) {
        return ;
    }
    let r = radius_at(gamma, step, tree.nodes.len(), d, ln, pow);
    let near = tree.near(&q, r);
    let (p, length) = choose_parent(tree, &q, ni, &near, valid);
    let new: usize = tree.nodes.len();
    proof {
        lemma_new_cost(t, q@, p as int);
    }
    let ghost qv = q@;
    tree.grow(q, p);
    assert(tree.seen().nodes.len() == tree.nodes@.len());
    rewire(tree, &near, p, new, length, valid);
}

/// How a request is answered: by the path that the functions handed in lead to.
pub open spec fn star_answered<
    E: Fn(&[Scalar], &[Scalar]) -> bool,
    L: Fn(Scalar) -> Scalar,
    P: Fn(Scalar, Scalar) -> Scalar,
>(
    start: Seq<Scalar>,
    goal: Seq<Scalar>,
    bounds: Seq<(Scalar, Scalar)>,
    params: StarParams,
    valid: E,
    ln: L,
    pow: P,
    r: Option<Vec<Vec<Scalar>>>,
) -> bool {
    forall|f: StarFns| #[trigger]
        handed(valid, ln, pow, f) ==> match r {
            Some(path) => star_path(start, goal, bounds, params, f) == Some(rows_of(path@)),
            None => star_path(start, goal, bounds, params, f) is None,
        }
}

/// Runs the search. `valid` says whether a straight edge is free; `ln` and `pow` are the
/// natural logarithm and the power.
pub fn rrt_star<
    E: Fn(&[Scalar], &[Scalar]) -> bool,
    L: Fn(Scalar) -> Scalar,
    P: Fn(Scalar, Scalar) -> Scalar,
>(
    start: &Vec<Scalar>,
    goal: &Vec<Scalar>,
    bounds: &Vec<(Scalar, Scalar)>,
    params: &StarParams,
    valid: &E,
    ln: &L,
    pow: &P,
) -> (r: Option<Vec<Vec<Scalar>>>)
    requires
        takes_all(*valid, *ln, *pow),
    ensures
        star_answered(start@, goal@, bounds@, *params, *valid, *ln, *pow, r),
{
    let gamma = radius_gamma(bounds, params.step, pow);
    let mut rng = Rng::new(params.seed);
    let mut tree = StarTree::new(copy_scalars(start.as_slice()));
    let mut k: usize = 0;
    while k < params.iters
        invariant
            k <= params.iters,
            takes_all(*valid, *ln, *pow),
            sound(tree.seen()),
            forall|f: StarFns| #[trigger]
                handed(*valid, *ln, *pow, f) ==> gamma == gamma_of(bounds@, params.step, f.pow)
                    && (tree.seen(), rng.state) == searched(
                    start@,
                    goal@,
                    bounds@,
                    *params,
                    f,
                    k as nat,
                ),
        decreases params.iters - k,
    {
        let coin = rng.unit();
        let sample = if coin.lt(params.goal_bias) {
            copy_scalars(goal.as_slice())
        } else {
            draw(&mut rng, bounds)
        };
        extend(&mut tree, &sample, gamma, params.step, start.len(), valid, ln, pow);
        k = k + 1;
    }
    let ghost t = tree.seen();
    assert(t.nodes.len() == tree.nodes@.len());
    let mut best: Option<(usize, Scalar)> = None;
    let mut i: usize = 0;
    while i < tree.nodes.len()
        invariant
            i <= tree.nodes.len(),
            t == tree.seen(),
            sound(t),
            takes_all(*valid, *ln, *pow),
            best matches Some((b, _)) ==> b < tree.nodes@.len(),
            forall|f: StarFns| #[trigger]
                handed(*valid, *ln, *pow, f) ==> best_last(t, goal@, f.edge, i as nat) == (
                match best {
                    Some((b, x)) => Some((b as int, x)),
                    None => None,
                }),
        decreases tree.nodes.len() - i,
    {
        assert(t.nodes[i as int] == tree.nodes@[i as int]@);
        if valid(tree.nodes[i].as_slice(), goal.as_slice()) {
            let total = tree.cost(i).add(dist(&tree.nodes[i], goal));
            let better = match best {
                None => true,
                Some((_, b)) => total.lt(b),
            };
            if better {
                best = Some((i, total));
            }
        }
        i = i + 1;
    }
    match best {
        None => None,
        Some((b, _)) => {
            let mut path = tree.way(b);
            let ghost w = rows_of(path@);
            assert(w.last() == path@[path@.len() - 1]@);
            if dist(&path[path.len() - 1], goal).gt(Scalar { bits: PICO_BITS }) {
                let ghost before = path@;
                let last = copy_scalars(goal.as_slice());
                path.push(last);
                assert(rows_of(path@) =~= rows_of(before).push(goal@));
            }
            Some(path)
        },
    }
}

// ---- laws ----

/// A sound tree from a start whose edges were all accepted.
pub open spec fn accepted_tree(
    t: StarV,
    start: Seq<Scalar>,
    e: spec_fn(Seq<Scalar>, Seq<Scalar>) -> bool,
) -> bool {
    &&& sound(t)
    &&& t.nodes[0] == start
    &&& forall|i: int|
        0 < i < t.nodes.len() ==> e(t.nodes[t.parent[i]], #[trigger] t.nodes[i])
}

proof fn lemma_neighbours(nodes: Seq<Seq<Scalar>>, q: Seq<Scalar>, r: Scalar, n: nat)
    ensures
        forall|k: int|
            0 <= k < neighbours(nodes, q, r, n).len() ==> 0 <= #[trigger] neighbours(
                nodes,
                q,
                r,
                n,
            )[k] < n,
    decreases n,
{
    if n > 0 {
        lemma_neighbours(nodes, q, r, (n - 1) as nat);
        let before = neighbours(nodes, q, r, (n - 1) as nat);
        let all = neighbours(nodes, q, r, n);
        assert forall|k: int| 0 <= k < all.len() implies 0 <= #[trigger] all[k] < n by {
            if k < before.len() {
                assert(all[k] == before[k]);
            }
        }
    }
}

proof fn lemma_best_parent(
    t: StarV,
    q: Seq<Scalar>,
    nearest: int,
    near: Seq<int>,
    e: spec_fn(Seq<Scalar>, Seq<Scalar>) -> bool,
    n: nat,
)
    requires
        0 <= nearest < t.nodes.len(),
        e(t.nodes[nearest], q),
        n <= near.len(),
        forall|k: int| 0 <= k < near.len() ==> 0 <= #[trigger] near[k] < t.nodes.len(),
    ensures
        ({
            let (p, c) = best_parent(t, q, nearest, near, e, n);
            &&& 0 <= p < t.nodes.len()
            &&& e(t.nodes[p], q)
            &&& c == fadd(cost(t, p), distance(t.nodes[p], q))
        }),
    decreases n,
{
    if n > 0 {
        lemma_best_parent(t, q, nearest, near, e, (n - 1) as nat);
    }
}

proof fn lemma_rewired(
    t: StarV,
    start: Seq<Scalar>,
    near: Seq<int>,
    parent: int,
    new: int,
    length: Scalar,
    e: spec_fn(Seq<Scalar>, Seq<Scalar>) -> bool,
    n: nat,
)
    requires
        accepted_tree(t, start, e),
        0 <= new < t.nodes.len(),
        cost(t, new) == length,
        n <= near.len(),
        forall|k: int| 0 <= k < near.len() ==> 0 <= #[trigger] near[k] < t.nodes.len(),
    ensures
        accepted_tree(rewired(t, near, parent, new, length, e, n), start, e),
        rewired(t, near, parent, new, length, e, n).nodes == t.nodes,
        cost(rewired(t, near, parent, new, length, e, n), new) == length,
    decreases n,
{
    if n > 0 {
        lemma_rewired(t, start, near, parent, new, length, e, (n - 1) as nat);
        let u = rewired(t, near, parent, new, length, e, (n - 1) as nat);
        let m = near[n - 1];
        let c = fadd(length, distance(t.nodes[new], t.nodes[m]));
        if m != parent && m != new && flt(fadd(c, Scalar { bits: PICO_BITS }), cost(u, m)) && e(
            t.nodes[new],
            t.nodes[m],
        ) {
            lemma_rewire(u, new, m, length);
            let v = moved(u, m, new);
            assert forall|i: int| 0 < i < v.nodes.len() implies e(
                v.nodes[v.parent[i]],
                #[trigger] v.nodes[i],
            ) by {
                assert(e(u.nodes[u.parent[i]], u.nodes[i]));
            }
        }
    }
}

proof fn lemma_extended(
    t: StarV,
    start: Seq<Scalar>,
    sample: Seq<Scalar>,
    gamma: Scalar,
    step: Scalar,
    d: nat,
    f: StarFns,
)
    requires
        accepted_tree(t, start, f.edge),
    ensures
        accepted_tree(extended(t, sample, gamma, step, d, f), start, f.edge),
{
    let ni = nearest_of(t.nodes, sample, t.nodes.len()).0;
    lemma_nearest(t.nodes, sample, t.nodes.len());
    let q = steered(t.nodes[ni], sample, step);
    if !(flt(distance(t.nodes[ni], q), Scalar { bits: PICO_BITS }) || !(f.edge)(t.nodes[ni], q)) {
        let r = radius(gamma, step, t.nodes.len(), d, f.ln, f.pow);
        let near = neighbours(t.nodes, q, r, t.nodes.len());
        lemma_neighbours(t.nodes, q, r, t.nodes.len());
        lemma_best_parent(t, q, ni, near, f.edge, near.len());
        let (p, length) = best_parent(t, q, ni, near, f.edge, near.len());
        let u = grown(t, q, p);
        lemma_grown(t, q, p, 0);
        lemma_new_cost(t, q, p);
        assert forall|i: int| 0 < i < u.nodes.len() implies (f.edge)(
            u.nodes[u.parent[i]],
            #[trigger] u.nodes[i],
        ) by {
            if i < t.nodes.len() {
                assert((f.edge)(t.nodes[t.parent[i]], t.nodes[i]));
                assert(0 <= t.parent[i] < t.nodes.len());
            }
        }
        lemma_rewired(u, start, near, p, t.nodes.len() as int, length, f.edge, near.len());
    }
}

proof fn lemma_searched(
    start: Seq<Scalar>,
    goal: Seq<Scalar>,
    bounds: Seq<(Scalar, Scalar)>,
    p: StarParams,
    f: StarFns,
    n: nat,
)
    ensures
        accepted_tree(searched(start, goal, bounds, p, f, n).0, start, f.edge),
    decreases n,
{
    if n > 0 {
        lemma_searched(start, goal, bounds, p, f, (n - 1) as nat);
        let (t, s) = searched(start, goal, bounds, p, f, (n - 1) as nat);
        let (sample, next) = sampled(s, goal, bounds, p.goal_bias);
        lemma_extended(
            t,
            start,
            sample,
            gamma_of(bounds, p.step, f.pow),
            p.step,
            start.len(),
            f,
        );
    }
}

proof fn lemma_way(t: StarV, start: Seq<Scalar>, e: spec_fn(Seq<Scalar>, Seq<Scalar>) -> bool, i: int)
    requires
        accepted_tree(t, start, e),
        0 <= i < t.nodes.len(),
    ensures
        way(t, i).len() > 0,
        way(t, i)[0] == start,
        way(t, i).last() == t.nodes[i],
        forall|k: int|
            0 <= k < way(t, i).len() - 1 ==> e(#[trigger] way(t, i)[k], way(t, i)[k + 1]),
    decreases t.rank[i],
{
    if i > 0 {
        assert(0 <= t.parent[i] < t.nodes.len() && t.rank[t.parent[i]] < t.rank[i]);
        lemma_way(t, start, e, t.parent[i]);
        let w = way(t, t.parent[i]);
        let v = way(t, i);
        assert(v == w.push(t.nodes[i]));
        assert forall|k: int| 0 <= k < v.len() - 1 implies e(#[trigger] v[k], v[k + 1]) by {
            assert(v[k] == w[k]);
            if k < w.len() - 1 {
                assert(v[k + 1] == w[k + 1]);
            } else {
                assert(e(t.nodes[t.parent[i]], t.nodes[i]));
            }
        }
    }
}

proof fn lemma_best_last(
    t: StarV,
    goal: Seq<Scalar>,
    e: spec_fn(Seq<Scalar>, Seq<Scalar>) -> bool,
    n: nat,
)
    ensures
        best_last(t, goal, e, n) matches Some((i, _)) ==> 0 <= i < n && e(t.nodes[i], goal),
    decreases n,
{
    if n > 0 {
        lemma_best_last(t, goal, e, (n - 1) as nat);
    }
}

/// A path that is found runs from the start to the goal, or to within `1e-12` of it.
pub proof fn law_star_path_connects_the_ends(
    start: Seq<Scalar>,
    goal: Seq<Scalar>,
    bounds: Seq<(Scalar, Scalar)>,
    p: StarParams,
    f: StarFns,
)
    ensures
        star_path(start, goal, bounds, p, f) matches Some(w) ==> w.len() > 0 && w[0] == start && (
        w.last() == goal || !flt(Scalar { bits: PICO_BITS }, distance(w.last(), goal))),
{
    let t = searched(start, goal, bounds, p, f, p.iters as nat).0;
    lemma_searched(start, goal, bounds, p, f, p.iters as nat);
    lemma_best_last(t, goal, f.edge, t.nodes.len());
    match best_last(t, goal, f.edge, t.nodes.len()) {
        Some((i, _)) => {
            lemma_way(t, start, f.edge, i);
        },
        None => {},
    }
}

/// Every edge of a path that is found was accepted.
pub proof fn law_star_path_edges_were_accepted(
    start: Seq<Scalar>,
    goal: Seq<Scalar>,
    bounds: Seq<(Scalar, Scalar)>,
    p: StarParams,
    f: StarFns,
)
    ensures
        star_path(start, goal, bounds, p, f) matches Some(w) ==> forall|k: int|
            0 <= k < w.len() - 1 ==> (f.edge)(#[trigger] w[k], w[k + 1]),
{
    let t = searched(start, goal, bounds, p, f, p.iters as nat).0;
    lemma_searched(start, goal, bounds, p, f, p.iters as nat);
    lemma_best_last(t, goal, f.edge, t.nodes.len());
    match best_last(t, goal, f.edge, t.nodes.len()) {
        Some((i, _)) => {
            lemma_way(t, start, f.edge, i);
            let v = way(t, i);
            let w = whole_way(t, i, goal);
            assert forall|k: int| 0 <= k < w.len() - 1 implies (f.edge)(
                #[trigger] w[k],
                w[k + 1],
            ) by {
                assert(w[k] == v[k]);
                if k < v.len() - 1 {
                    assert(w[k + 1] == v[k + 1]);
                }
            }
        },
        None => {},
    }
}

/// Moving a node under another one brings it nearer to the root.
pub proof fn law_rewiring_shortens(t: StarV, new: int, m: int)
    requires
        sound(t),
        0 <= new < t.nodes.len(),
        0 <= m < t.nodes.len(),
        m != new,
        flt(
            fadd(
                fadd(cost(t, new), distance(t.nodes[new], t.nodes[m])),
                Scalar { bits: PICO_BITS },
            ),
            cost(t, m),
        ),
    ensures
        sound(moved(t, m, new)),
        flt(cost(moved(t, m, new), m), cost(t, m)),
{
    lemma_rewire(t, new, m, cost(t, new));
    let v = moved(t, m, new);
    let c = fadd(cost(t, new), distance(t.nodes[new], t.nodes[m]));
    law_adding_does_not_shrink(c, Scalar { bits: PICO_BITS });
    assert(v.parent[m] == new);
    assert(hangs(v, m));
    assert(cost(v, m) == c);
}

/// The same request, the seed in its parameters among it, is answered by the same path.
pub proof fn law_same_seed_same_star_path<
    E: Fn(&[Scalar], &[Scalar]) -> bool,
    L: Fn(Scalar) -> Scalar,
    P: Fn(Scalar, Scalar) -> Scalar,
>(
    start: Seq<Scalar>,
    goal: Seq<Scalar>,
    bounds: Seq<(Scalar, Scalar)>,
    params: StarParams,
    valid: E,
    ln: L,
    pow: P,
    f: StarFns,
    ra: Option<Vec<Vec<Scalar>>>,
    rb: Option<Vec<Vec<Scalar>>>,
)
    requires
        handed(valid, ln, pow, f),
        star_answered(start, goal, bounds, params, valid, ln, pow, ra),
        star_answered(start, goal, bounds, params, valid, ln, pow, rb),
    ensures
        match (ra, rb) {
            (Some(x), Some(y)) => rows_of(x@) == rows_of(y@),
            (None, None) => true,
            _ => false,
        },
{
}

} // verus!
