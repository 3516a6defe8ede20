//! The planner: two trees grow toward each other from the start and the goal until
//! they meet; the path between them is smoothed.

use vstd::prelude::*;

use crate::hal::backend::{check_finite, copy_scalars};
#[allow(unused_imports)]
use crate::hal::backend::all_finite;
use crate::model::Model;
use crate::motion::error::MotionError;
use crate::motion::limits::MotionLimits;
use crate::motion::retime::{retime_waypoints, Law};
#[allow(unused_imports)]
use crate::motion::retime::retimed;
#[allow(unused_imports)]
use crate::motion::scurve::computes;
#[allow(unused_imports)]
use crate::motion::trajectory::rows_of;
use crate::motion::trajectory::Trajectory;
use crate::planning::geometry::{dist, lerp, steer};
#[allow(unused_imports)]
use crate::planning::geometry::{distance, lerped, steered};
use crate::planning::rng::{draw, Rng};
#[allow(unused_imports)]
use crate::planning::rng::{advanced, drawn, unit_of};
use crate::planning::smooth::shortcut_smooth;
#[allow(unused_imports)]
use crate::planning::smooth::{
    has_edge, judges, law_smoothed_edges_are_valid, law_smoothing_adds_no_node,
    law_smoothing_keeps_ends, smoothed,
};
use crate::planning::tree::Tree;
#[allow(unused_imports)]
use crate::planning::tree::{
    added, law_path_follows_parents, lemma_nearest, nearest_node, path_up, rooted, single, TreeV,
};
use crate::scalar::consts::{
    HALF_BITS, NANO_BITS, PI_BITS, THREE_TENTHS_BITS, TWENTIETH_BITS,
};
#[allow(unused_imports)]
use crate::scalar::convert::{ceil_int, from_int, saturated};
#[allow(unused_imports)]
use crate::scalar::number::{fdiv, flt, fmul, fneg};
use crate::scalar::Scalar;

verus! {

/// Parameters of the search.
#[derive(Clone, Copy, Debug, PartialEq, Eq, Structural)]
pub struct PlannerConfig {
    pub seed: u64,
    pub max_iters: usize,
    /// Longest step of a tree.
    pub step: Scalar,
    /// How often the other root is the sample.
    pub goal_bias: Scalar,
    /// Spacing of the checks along an edge.
    pub edge_resolution: Scalar,
    pub shortcut_iters: usize,
    pub margin: Scalar,
    /// Half the range of a joint without limits.
    pub unbounded_range: Scalar,
}

impl Default for PlannerConfig {
    fn default() -> (r: PlannerConfig)
        ensures
            r == (PlannerConfig {
                seed: 0xCA11,
                max_iters: 10_000,
                step: Scalar { bits: THREE_TENTHS_BITS },
                goal_bias: Scalar { bits: TWENTIETH_BITS },
                edge_resolution: Scalar { bits: TWENTIETH_BITS },
                shortcut_iters: 200,
                margin: Scalar { bits: 0 },
                unbounded_range: Scalar { bits: PI_BITS },
            }),
    {
        PlannerConfig {
            seed: 0xCA11,
            max_iters: 10_000,
            step: Scalar { bits: THREE_TENTHS_BITS },
            goal_bias: Scalar { bits: TWENTIETH_BITS },
            edge_resolution: Scalar { bits: TWENTIETH_BITS },
            shortcut_iters: 200,
            margin: Scalar { bits: 0 },
            unbounded_range: Scalar { bits: PI_BITS },
        }
    }
}

/// Why there is no plan.
#[derive(Clone, Debug)]
pub enum PlanError {
    Dim { expected: usize, got: usize },
    NonFinite(&'static str),
    StartInCollision(String),
    GoalInCollision(String),
    Collision(String),
    Unreachable(usize),
    IkUnreachable(Scalar),
    Retime(MotionError),
}

/// `PlanError` over character sequences.
pub enum PlanFault {
    Dim { expected: nat, got: nat },
    NonFinite(Seq<char>),
    StartInCollision(Seq<char>),
    GoalInCollision(Seq<char>),
    Collision(Seq<char>),
    Unreachable(nat),
    IkUnreachable(Scalar),
    Retime(MotionError),
}

impl View for PlanError {
    type V = PlanFault;

    open spec fn view(&self) -> PlanFault {
        match *self {
            PlanError::Dim { expected, got } => PlanFault::Dim {
                expected: expected as nat,
                got: got as nat,
            },
            PlanError::NonFinite(s) => PlanFault::NonFinite(s@),
            PlanError::StartInCollision(s) => PlanFault::StartInCollision(s@),
            PlanError::GoalInCollision(s) => PlanFault::GoalInCollision(s@),
            PlanError::Collision(s) => PlanFault::Collision(s@),
            PlanError::Unreachable(n) => PlanFault::Unreachable(n as nat),
            PlanError::IkUnreachable(x) => PlanFault::IkUnreachable(x),
            PlanError::Retime(s) => PlanFault::Retime(s),
        }
    }
}

/// What a query at an end of the path said.
#[derive(Clone, Debug)]
pub enum Endpoint {
    Free,
    /// In collision, and how.
    Blocked(String),
    /// The query failed, and why.
    Failed(String),
}

pub open spec fn endpoint_fault(e: Endpoint, is_start: bool) -> Option<PlanFault> {
    match e {
        Endpoint::Free => None,
        Endpoint::Blocked(s) => Some(
            if is_start {
                PlanFault::StartInCollision(s@)
            } else {
                PlanFault::GoalInCollision(s@)
            },
        ),
        Endpoint::Failed(s) => Some(PlanFault::Collision(s@)),
    }
}

/// What is wrong with one end as a configuration of `n` joints.
pub open spec fn config_fault(name: Seq<char>, q: Seq<Scalar>, n: nat) -> Option<PlanFault> {
    if q.len() != n {
        Some(PlanFault::Dim { expected: n, got: q.len() })
    } else if !all_finite(q) {
        Some(PlanFault::NonFinite(name))
    } else {
        None
    }
}

/// Why a plan is not even tried, in the order of the checks.
pub open spec fn query_fault(
    start: Seq<Scalar>,
    goal: Seq<Scalar>,
    n: nat,
    at_start: Endpoint,
    at_goal: Endpoint,
) -> Option<PlanFault> {
    if config_fault("start"@, start, n) is Some {
        config_fault("start"@, start, n)
    } else if config_fault("goal"@, goal, n) is Some {
        config_fault("goal"@, goal, n)
    } else if endpoint_fault(at_start, true) is Some {
        endpoint_fault(at_start, true)
    } else {
        endpoint_fault(at_goal, false)
    }
}

/// A judge of configurations that is handed in behaves as `p`.
pub open spec fn decides<F: Fn(&[Scalar]) -> bool>(f: F, p: spec_fn(Seq<Scalar>) -> bool) -> bool {
    forall|a: &[Scalar], r: bool| call_ensures(f, (a,), r) ==> r == p(a@)
}

/// A judge of configurations can be asked anything.
pub open spec fn open_to_all<F: Fn(&[Scalar]) -> bool>(f: F) -> bool {
    forall|a: &[Scalar]| call_requires(f, (a,))
}

/// A configuration that can be used: finite and free.
pub open spec fn clear(q: Seq<Scalar>, p: spec_fn(Seq<Scalar>) -> bool) -> bool {
    all_finite(q) && p(q)
}

/// How many checks an edge needs.
pub open spec fn edge_steps(a: Seq<Scalar>, b: Seq<Scalar>, res: Scalar) -> int {
    let x = fdiv(distance(a, b), res);
    let n = saturated(x, ceil_int(x), 0, usize::MAX as int);
    if n < 1 {
        1
    } else {
        n
    }
}

/// Check `i` of an edge.
pub open spec fn edge_point(a: Seq<Scalar>, b: Seq<Scalar>, steps: int, i: int) -> Seq<Scalar> {
    lerped(a, b, fdiv(from_int(i), from_int(steps)))
}

/// Every check of an edge from `first` on is clear.
pub open spec fn edge_clear(
    a: Seq<Scalar>,
    b: Seq<Scalar>,
    res: Scalar,
    first: int,
    p: spec_fn(Seq<Scalar>) -> bool,
) -> bool {
    let steps = edge_steps(a, b, res);
    forall|i: int| first <= i <= steps ==> clear(#[trigger] edge_point(a, b, steps, i), p)
}

/// An edge can be driven, its start taken for granted.
pub open spec fn motion_clear(
    a: Seq<Scalar>,
    b: Seq<Scalar>,
    res: Scalar,
    p: spec_fn(Seq<Scalar>) -> bool,
) -> bool {
    edge_clear(a, b, res, 1, p)
}

/// What came of growing a tree.
#[derive(Clone, Copy, Debug, PartialEq, Eq, Structural)]
pub enum Extend {
    Reached,
    Advanced,
    Trapped,
}

/// A tree grown by one step toward a target.
pub open spec fn grown(
    t: TreeV,
    target: Seq<Scalar>,
    cfg: PlannerConfig,
    p: spec_fn(Seq<Scalar>) -> bool,
) -> (Extend, TreeV) {
    let near = nearest_node(t, target);
    let from = t.nodes[near];
    let q = steered(from, target, cfg.step);
    if motion_clear(from, q, cfg.edge_resolution, p) {
        (
            if flt(distance(q, target), Scalar { bits: NANO_BITS }) {
                Extend::Reached
            } else {
                Extend::Advanced
            },
            added(t, q, near),
        )
    } else {
        (Extend::Trapped, t)
    }
}

/// A tree grown toward a target for at most `k` steps: the node that reached it, if
/// one did.
pub open spec fn connected(
    t: TreeV,
    target: Seq<Scalar>,
    cfg: PlannerConfig,
    p: spec_fn(Seq<Scalar>) -> bool,
    k: nat,
) -> (Option<int>, TreeV)
    decreases k,
{
    if k == 0 {
        (None, t)
    } else {
        let (e, u) = grown(t, target, cfg, p);
        match e {
            Extend::Reached => (Some(u.nodes.len() - 1), u),
            Extend::Advanced => connected(u, target, cfg, p, (k - 1) as nat),
            Extend::Trapped => (None, u),
        }
    }
}

/// How many steps a connection may take.
pub open spec fn connect_cap(t: TreeV, target: Seq<Scalar>, step: Scalar) -> nat {
    let x = fdiv(distance(t.nodes[nearest_node(t, target)], target), step);
    let n = saturated(x, ceil_int(x), 0, usize::MAX as int);
    (if n > usize::MAX - 4 {
        usize::MAX as int
    } else {
        n + 4
    }) as nat
}

/// A sample: the other root at times, else one within the bounds; and the state of
/// the generator afterwards.
pub open spec fn sampled(
    s: u64,
    bounds: Seq<(Scalar, Scalar)>,
    root: Seq<Scalar>,
    bias: Scalar,
) -> (Seq<Scalar>, u64) {
    let u = advanced(s);
    if flt(unit_of(u), bias) {
        (root, u)
    } else {
        drawn(u, bounds, bounds.len())
    }
}

/// The path through both trees by a pair of nodes that met.
pub open spec fn joined(ta: TreeV, tb: TreeV, a: int, b: int) -> Seq<Seq<Scalar>> {
    path_up(ta, a) + path_up(tb, b).reverse().skip(1)
}

/// One round of the search: a tree grows toward a sample and the other one toward
/// what it grew. Gives the grown trees, and the nodes that met.
pub open spec fn round(
    grow: TreeV,
    other: TreeV,
    q: Seq<Scalar>,
    cfg: PlannerConfig,
    p: spec_fn(Seq<Scalar>) -> bool,
) -> (TreeV, TreeV, Option<(int, int)>) {
    let (e, g) = grown(grow, q, cfg, p);
    if e == Extend::Trapped {
        (g, other, None)
    } else {
        let i = g.nodes.len() - 1;
        let (hit, o) = connected(
            other,
            g.nodes[i],
            cfg,
            p,
            connect_cap(other, g.nodes[i], cfg.step),
        );
        (
            g,
            o,
            match hit {
                Some(j) => Some((i, j)),
                None => None,
            },
        )
    }
}

/// The search from iteration `k` on. The trees take turns.
pub open spec fn searched(
    cfg: PlannerConfig,
    bounds: Seq<(Scalar, Scalar)>,
    s: u64,
    ta: TreeV,
    tb: TreeV,
    k: nat,
    p: spec_fn(Seq<Scalar>) -> bool,
) -> Option<Seq<Seq<Scalar>>>
    decreases cfg.max_iters - k,
{
    if k >= cfg.max_iters {
        None
    } else if k % 2 == 0 {
        let (q, u) = sampled(s, bounds, tb.nodes[0], cfg.goal_bias);
        let (a, b, met) = round(ta, tb, q, cfg, p);
        match met {
            Some((i, j)) => Some(joined(a, b, i, j)),
            None => searched(cfg, bounds, u, a, b, k + 1, p),
        }
    } else {
        let (q, u) = sampled(s, bounds, ta.nodes[0], cfg.goal_bias);
        let (b, a, met) = round(tb, ta, q, cfg, p);
        match met {
            Some((i, j)) => Some(joined(a, b, j, i)),
            None => searched(cfg, bounds, u, a, b, k + 1, p),
        }
    }
}

/// The plan between two configurations.
pub open spec fn plan_of(
    cfg: PlannerConfig,
    bounds: Seq<(Scalar, Scalar)>,
    start: Seq<Scalar>,
    goal: Seq<Scalar>,
    p: spec_fn(Seq<Scalar>) -> bool,
) -> Option<Seq<Seq<Scalar>>> {
    match searched(cfg, bounds, cfg.seed, single(start), single(goal), 0, p) {
        None => None,
        Some(raw) => Some(
            smoothed(
                raw,
                cfg.seed ^ 5u64,
                |a: Seq<Scalar>, b: Seq<Scalar>| motion_clear(a, b, cfg.edge_resolution, p),
                cfg.shortcut_iters as nat,
            ),
        ),
    }
}

/// A path that holds at twice the resolution, ends and corners included.
pub open spec fn path_verified(
    path: Seq<Seq<Scalar>>,
    res: Scalar,
    p: spec_fn(Seq<Scalar>) -> bool,
) -> bool {
    &&& path.len() > 0
    &&& clear(path[0], p)
    &&& clear(path.last(), p)
    &&& forall|k: int|
        0 <= k < path.len() - 1 ==> edge_clear(#[trigger] path[k], path[k + 1], res, 0, p)
}

/// The range of each joint.
pub open spec fn bounds_of(limits: Seq<Option<(Scalar, Scalar)>>, n: nat, range: Scalar) -> Seq<
    (Scalar, Scalar),
> {
    Seq::new(
        n,
        |i: int|
            match limits[i] {
                Some(b) => b,
                None => (fneg(range), range),
            },
    )
}

fn is_clear<F: Fn(&[Scalar]) -> bool>(q: &Vec<Scalar>, free: &F) -> (r: bool)
    requires
        open_to_all(*free),
    ensures
        forall|p: spec_fn(Seq<Scalar>) -> bool| #[trigger] decides(*free, p) ==> r == clear(q@, p),
{
    match check_finite("q", q.as_slice()) {
        Ok(_) => free(q.as_slice()),
        Err(_) => false,
    }
}

fn edge_is_clear<F: Fn(&[Scalar]) -> bool>(
    a: &Vec<Scalar>,
    b: &Vec<Scalar>,
    res: Scalar,
    first: usize,
    free: &F,
) -> (r: bool)
    requires
        open_to_all(*free),
        first <= 1,
    ensures
        forall|p: spec_fn(Seq<Scalar>) -> bool| #[trigger]
            decides(*free, p) ==> r == edge_clear(a@, b@, res, first as int, p),
{
    let c: usize = dist(a, b).div(res).ceil_usize();
    let steps: usize = if c < 1 {
        1
    } else {
        c
    };
    assert(steps == edge_steps(a@, b@, res));
    let mut i: usize = first;
    let mut more: bool = true;
    while more
        invariant
            first <= i <= steps,
            steps == edge_steps(a@, b@, res),
            open_to_all(*free),
            forall|p: spec_fn(Seq<Scalar>) -> bool, k: int|
                #![trigger decides(*free, p), edge_point(a@, b@, steps as int, k)]
                decides(*free, p) && first <= k && (k < i || (!more && k <= steps)) ==> clear(
                    edge_point(a@, b@, steps as int, k),
                    p,
                ),
        decreases
            if more {
                steps - i + 1
            } else {
                0
            },
    {
        let q = lerp(a, b, Scalar::from_usize(i).div(Scalar::from_usize(steps)));
        assert(q@ == edge_point(a@, b@, steps as int, i as int));
        if !is_clear(&q, free) {
            return false;
        }
        if i == steps {
            more = false;
        } else {
            i = i + 1;
        }
    }
    true
}

/// A planner over the joint ranges of a model.
pub struct Planner {
    cfg: PlannerConfig,
    bounds: Vec<(Scalar, Scalar)>,
}

/// How a planner answers a request: by what is wrong with it, or else by the path that its
/// settings lead to.
pub open spec fn answered<F: Fn(&[Scalar]) -> bool>(
    a: Planner,
    start: Seq<Scalar>,
    goal: Seq<Scalar>,
    at_start: Endpoint,
    at_goal: Endpoint,
    free: F,
    r: Result<Vec<Vec<Scalar>>, PlanError>,
) -> bool {
    match query_fault(start, goal, a.ranges().len(), at_start, at_goal) {
        Some(f) => r matches Err(e) && e@ == f,
        None => forall|p: spec_fn(Seq<Scalar>) -> bool| #[trigger]
            decides(free, p) ==> match r {
                Ok(path) => plan_of(
                    a.settings(),
                    a.ranges(),
                    start,
                    goal,
                    p,
                ) == Some(rows_of(path@)),
                Err(e) => plan_of(
                    a.settings(),
                    a.ranges(),
                    start,
                    goal,
                    p,
                ) is None && e@ == PlanFault::Unreachable(
                    a.settings().max_iters as nat,
                ),
            },
    }
}

impl Planner {
    pub closed spec fn settings(&self) -> PlannerConfig {
        self.cfg
    }

    pub closed spec fn ranges(&self) -> Seq<(Scalar, Scalar)> {
        self.bounds@
    }

    pub fn new(model: &Model, cfg: PlannerConfig) -> (r: Planner)
        requires
            model.wf(),
        ensures
            r.settings() == cfg,
            r.ranges() == bounds_of(model.limits@, model.ndof as nat, cfg.unbounded_range),
    {
        let mut bounds: Vec<(Scalar, Scalar)> = Vec::new();
        let mut i: usize = 0;
        while i < model.ndof
            invariant
                i <= model.ndof,
                model.wf(),
                bounds.len() == i,
                forall|k: int|
                    0 <= k < i ==> #[trigger] bounds@[k] == bounds_of(
                        model.limits@,
                        model.ndof as nat,
                        cfg.unbounded_range,
                    )[k],
            decreases model.ndof - i,
        {
            bounds.push(
                match model.limits[i] {
                    Some(b) => b,
                    None => (cfg.unbounded_range.neg(), cfg.unbounded_range),
                },
            );
            i = i + 1;
        }
        assert(bounds@ =~= bounds_of(model.limits@, model.ndof as nat, cfg.unbounded_range));
        Planner { cfg, bounds }
    }

    pub fn ndof(&self) -> (r: usize)
        ensures
            r == self.ranges().len(),
    {
        self.bounds.len()
    }

    pub fn config(&self) -> (r: &PlannerConfig)
        ensures
            *r == self.settings(),
    {
        &self.cfg
    }

    fn extend<F: Fn(&[Scalar]) -> bool>(&self, tree: &mut Tree, target: &Vec<Scalar>, free: &F) -> (r:
        Extend)
        requires
            open_to_all(*free),
        ensures
            forall|p: spec_fn(Seq<Scalar>) -> bool| #[trigger]
                decides(*free, p) ==> (r, final(tree)@) == grown(
                    old(tree)@,
                    target@,
                    self.settings(),
                    p,
                ),
            r != Extend::Trapped ==> final(tree)@.nodes.len() > 0,
            final(tree)@.nodes[0] == old(tree)@.nodes[0],
    {
        let near = tree.nearest(target);
        let ghost before = tree@;
        let from = copy_scalars(tree.node(near).as_slice());
        let q = steer(&from, target, self.cfg.step);
        if edge_is_clear(&from, &q, self.cfg.edge_resolution, 1, free) {
            let reached = dist(&q, target).lt(Scalar { bits: NANO_BITS });
            let _i = tree.add(q, near);
            if reached {
                Extend::Reached
            } else {
                Extend::Advanced
            }
        } else {
            Extend::Trapped
        }
    }

    fn connect<F: Fn(&[Scalar]) -> bool>(&self, tree: &mut Tree, target: &Vec<Scalar>, free: &F) -> (r:
        Option<usize>)
        requires
            open_to_all(*free),
        ensures
            forall|p: spec_fn(Seq<Scalar>) -> bool| #[trigger]
                decides(*free, p) ==> final(tree)@ == connected(
                    old(tree)@,
                    target@,
                    self.settings(),
                    p,
                    connect_cap(old(tree)@, target@, self.settings().step),
                ).1 && match r {
                    Some(j) => connected(
                        old(tree)@,
                        target@,
                        self.settings(),
                        p,
                        connect_cap(old(tree)@, target@, self.settings().step),
                    ).0 == Some(j as int),
                    None => connected(
                        old(tree)@,
                        target@,
                        self.settings(),
                        p,
                        connect_cap(old(tree)@, target@, self.settings().step),
                    ).0 is None,
                },
            r matches Some(j) ==> j < final(tree)@.nodes.len(),
            final(tree)@.nodes[0] == old(tree)@.nodes[0],
    {
        let ghost t0 = tree@;
        let near = tree.nearest(target);
        let c: usize = dist(tree.node(near), target).div(self.cfg.step).ceil_usize();
        let cap: usize = if c > usize::MAX - 4 {
            usize::MAX
        } else {
            c + 4
        };
        assert(cap == connect_cap(t0, target@, self.cfg.step));
        let mut k: usize = 0;
        while k < cap
            invariant
                k <= cap,
                open_to_all(*free),
                tree@.nodes[0] == t0.nodes[0],
                t0 == old(tree)@,
                cap == connect_cap(t0, target@, self.cfg.step),
                forall|p: spec_fn(Seq<Scalar>) -> bool| #[trigger]
                    decides(*free, p) ==> connected(
                        t0,
                        target@,
                        self.cfg,
                        p,
                        cap as nat,
                    ) == connected(tree@, target@, self.cfg, p, (cap - k) as nat),
            decreases cap - k,
        {
            let ghost before = tree@;
            let e = self.extend(tree, target, free);
            proof {
                assert forall|p: spec_fn(Seq<Scalar>) -> bool| #[trigger]
                    decides(*free, p) implies connected(t0, target@, self.cfg, p, cap as nat) == (
                match e {
                    Extend::Reached => (Some(tree@.nodes.len() - 1), tree@),
                    Extend::Advanced => connected(
                        tree@,
                        target@,
                        self.cfg,
                        p,
                        (cap - k - 1) as nat,
                    ),
                    Extend::Trapped => (None, tree@),
                }) by {
                    assert((e, tree@) == grown(before, target@, self.cfg, p));
                }
            }
            match e {
                Extend::Reached => {
                    let n = tree.len();
                    return Some(n - 1);
                },
                Extend::Advanced => {},
                Extend::Trapped => {
                    return None;
                },
            }
            k = k + 1;
        }
        None
    }

    /// One round: gives the nodes that met.
    fn run_round<F: Fn(&[Scalar]) -> bool>(
        &self,
        grow: &mut Tree,
        other: &mut Tree,
        q: &Vec<Scalar>,
        free: &F,
    ) -> (r: Option<(usize, usize)>)
        requires
            open_to_all(*free),
        ensures
            forall|p: spec_fn(Seq<Scalar>) -> bool| #[trigger]
                decides(*free, p) ==> (
                    final(grow)@,
                    final(other)@,
                    match r {
                        Some((i, j)) => Some((i as int, j as int)),
                        None => None,
                    },
                ) == round(old(grow)@, old(other)@, q@, self.settings(), p),
            r matches Some((i, j)) ==> i < final(grow)@.nodes.len() && j
                < final(other)@.nodes.len(),
            final(grow)@.nodes[0] == old(grow)@.nodes[0],
            final(other)@.nodes[0] == old(other)@.nodes[0],
    {
        match self.extend(grow, q, free) {
            Extend::Trapped => None,
            _ => {
                let i: usize = grow.len() - 1;
                let tip = copy_scalars(grow.node(i).as_slice());
                match self.connect(other, &tip, free) {
                    Some(j) => Some((i, j)),
                    None => None,
                }
            },
        }
    }

    fn sample(&self, rng: &mut Rng, root: &Vec<Scalar>) -> (r: Vec<Scalar>)
        ensures
            (r@, final(rng).state) == sampled(
                old(rng).state,
                self.ranges(),
                root@,
                self.settings().goal_bias,
            ),
    {
        let u = rng.unit();
        if u.lt(self.cfg.goal_bias) {
            return copy_scalars(root.as_slice());
        }
        draw(rng, &self.bounds)
    }

    fn search<F: Fn(&[Scalar]) -> bool>(&self, start: &Vec<Scalar>, goal: &Vec<Scalar>, free: &F) -> (r:
        Option<Vec<Vec<Scalar>>>)
        requires
            open_to_all(*free),
        ensures
            forall|p: spec_fn(Seq<Scalar>) -> bool| #[trigger]
                decides(*free, p) ==> match r {
                    Some(path) => searched(
                        self.settings(),
                        self.ranges(),
                        self.settings().seed,
                        single(start@),
                        single(goal@),
                        0,
                        p,
                    ) == Some(rows_of(path@)),
                    None => searched(
                        self.settings(),
                        self.ranges(),
                        self.settings().seed,
                        single(start@),
                        single(goal@),
                        0,
                        p,
                    ) is None,
                },
    {
        let mut rng = Rng::new(self.cfg.seed);
        let mut ta = Tree::new(copy_scalars(start.as_slice()));
        let mut tb = Tree::new(copy_scalars(goal.as_slice()));
        let ghost cfg = self.cfg;
        let ghost bounds = self.bounds@;
        let mut k: usize = 0;
        while k < self.cfg.max_iters
            invariant
                k <= self.cfg.max_iters,
                cfg == self.cfg,
                bounds == self.bounds@,
                open_to_all(*free),
                forall|p: spec_fn(Seq<Scalar>) -> bool| #[trigger]
                    decides(*free, p) ==> searched(
                        cfg,
                        bounds,
                        cfg.seed,
                        single(start@),
                        single(goal@),
                        0,
                        p,
                    ) == searched(cfg, bounds, rng.state, ta@, tb@, k as nat, p),
            decreases self.cfg.max_iters - k,
        {
            let ghost s0 = rng.state;
            let ghost a0 = ta@;
            let ghost b0 = tb@;
            if k % 2 == 0 {
                let q = self.sample(&mut rng, tb.root());
                let met = self.run_round(&mut ta, &mut tb, &q, free);
                let ghost rv = match met {
                    Some((i, j)) => Some((i as int, j as int)),
                    None => None::<(int, int)>,
                };
                proof {
                    assert forall|p: spec_fn(Seq<Scalar>) -> bool| #[trigger]
                        decides(*free, p) implies searched(
                        cfg,
                        bounds,
                        cfg.seed,
                        single(start@),
                        single(goal@),
                        0,
                        p,
                    ) == (match rv {
                        Some((i, j)) => Some(joined(ta@, tb@, i, j)),
                        None => searched(cfg, bounds, rng.state, ta@, tb@, (k + 1) as nat, p),
                    }) by {
                        assert((ta@, tb@, rv) == round(a0, b0, q@, cfg, p));
                        assert(searched(cfg, bounds, s0, a0, b0, k as nat, p) == (match rv {
                            Some((i, j)) => Some(joined(ta@, tb@, i, j)),
                            None => searched(cfg, bounds, rng.state, ta@, tb@, (k + 1) as nat, p),
                        }));
                    }
                }
                match met {
                    Some((i, j)) => {
                        return Some(assemble(&ta, &tb, i, j));
                    },
                    None => {},
                }
            } else {
                let q = self.sample(&mut rng, ta.root());
                let met = self.run_round(&mut tb, &mut ta, &q, free);
                let ghost rv = match met {
                    Some((i, j)) => Some((i as int, j as int)),
                    None => None::<(int, int)>,
                };
                proof {
                    assert forall|p: spec_fn(Seq<Scalar>) -> bool| #[trigger]
                        decides(*free, p) implies searched(
                        cfg,
                        bounds,
                        cfg.seed,
                        single(start@),
                        single(goal@),
                        0,
                        p,
                    ) == (match rv {
                        Some((i, j)) => Some(joined(ta@, tb@, j, i)),
                        None => searched(cfg, bounds, rng.state, ta@, tb@, (k + 1) as nat, p),
                    }) by {
                        assert((tb@, ta@, rv) == round(b0, a0, q@, cfg, p));
                        assert(searched(cfg, bounds, s0, a0, b0, k as nat, p) == (match rv {
                            Some((i, j)) => Some(joined(ta@, tb@, j, i)),
                            None => searched(cfg, bounds, rng.state, ta@, tb@, (k + 1) as nat, p),
                        }));
                    }
                }
                match met {
                    Some((i, j)) => {
                        return Some(assemble(&ta, &tb, j, i));
                    },
                    None => {},
                }
            }
            k = k + 1;
        }
        None
    }

    /// Plans a path from `start` to `goal`. What the collision query said of the two
    /// ends is handed in; `free` answers for all other configurations.
    pub fn plan<F: Fn(&[Scalar]) -> bool>(
        &self,
        start: &Vec<Scalar>,
        goal: &Vec<Scalar>,
        at_start: Endpoint,
        at_goal: Endpoint,
        free: &F,
    ) -> (r: Result<Vec<Vec<Scalar>>, PlanError>)
        requires
            open_to_all(*free),
        ensures
            answered(*self, start@, goal@, at_start, at_goal, *free, r),
    {
        match check_config("start", start, self.bounds.len()) {
            Ok(_) => {},
            Err(e) => {
                return Err(e);
            },
        }
        match check_config("goal", goal, self.bounds.len()) {
            Ok(_) => {},
            Err(e) => {
                return Err(e);
            },
        }
        match at_start {
            Endpoint::Free => {},
            Endpoint::Blocked(s) => {
                return Err(PlanError::StartInCollision(s));
            },
            Endpoint::Failed(s) => {
                return Err(PlanError::Collision(s));
            },
        }
        match at_goal {
            Endpoint::Free => {},
            Endpoint::Blocked(s) => {
                return Err(PlanError::GoalInCollision(s));
            },
            Endpoint::Failed(s) => {
                return Err(PlanError::Collision(s));
            },
        }
        match self.search(start, goal, free) {
            Some(raw) => Ok(self.smooth(raw, free)),
            None => Err(PlanError::Unreachable(self.cfg.max_iters)),
        }
    }

    /// Plans a path and times it under motion limits.
    pub fn plan_trajectory<F: Fn(&[Scalar]) -> bool, R: Fn(Scalar) -> Scalar>(
        &self,
        start: &Vec<Scalar>,
        goal: &Vec<Scalar>,
        ends: (Endpoint, Endpoint),
        free: &F,
        limits: &MotionLimits,
        dt: Scalar,
        cbrt: &R,
    ) -> (r: Result<Trajectory, PlanError>)
        requires
            open_to_all(*free),
            forall|x: Scalar| call_requires(*cbrt, (x,)),
            limits@.a.len() >= limits@.v.len(),
            limits@.j.len() >= limits@.v.len(),
        ensures
            match query_fault(start@, goal@, self.ranges().len(), ends.0, ends.1) {
                Some(f) => r matches Err(e) && e@ == f,
                None => forall|p: spec_fn(Seq<Scalar>) -> bool, g: spec_fn(Scalar) -> Scalar|
                    #![trigger decides(*free, p), computes(*cbrt, g)]
                    decides(*free, p) && computes(*cbrt, g) ==> match plan_of(
                        self.settings(),
                        self.ranges(),
                        start@,
                        goal@,
                        p,
                    ) {
                        None => r matches Err(e) && e@ == PlanFault::Unreachable(
                            self.settings().max_iters as nat,
                        ),
                        Some(path) => match retimed(Law::JerkLimited, path, limits@, dt, g) {
                            Ok(t) => r matches Ok(x) && x@ == t,
                            Err(m) => r matches Err(e) && e@ == PlanFault::Retime(m),
                        },
                    },
            },
    {
        match self.plan(start, goal, ends.0, ends.1, free) {
            Err(e) => Err(e),
            Ok(path) => match retime_waypoints(&path, limits, dt, cbrt) {
                Ok(t) => Ok(t),
                Err(m) => Err(PlanError::Retime(m)),
            },
        }
    }

    /// Plans to the configuration that inverse kinematics found for a pose, if it did.
    pub fn plan_to_pose<F: Fn(&[Scalar]) -> bool>(
        &self,
        start: &Vec<Scalar>,
        goal: Result<Vec<Scalar>, Scalar>,
        at_start: Endpoint,
        at_goal: Endpoint,
        free: &F,
    ) -> (r: Result<Vec<Vec<Scalar>>, PlanError>)
        requires
            open_to_all(*free),
        ensures
            match goal {
                Err(residual) => r matches Err(e) && e@ == PlanFault::IkUnreachable(residual),
                Ok(q) => match query_fault(start@, q@, self.ranges().len(), at_start, at_goal) {
                    Some(f) => r matches Err(e) && e@ == f,
                    None => forall|p: spec_fn(Seq<Scalar>) -> bool| #[trigger]
                        decides(*free, p) ==> match r {
                            Ok(path) => plan_of(
                                self.settings(),
                                self.ranges(),
                                start@,
                                q@,
                                p,
                            ) == Some(rows_of(path@)),
                            Err(e) => plan_of(
                                self.settings(),
                                self.ranges(),
                                start@,
                                q@,
                                p,
                            ) is None && e@ == PlanFault::Unreachable(
                                self.settings().max_iters as nat,
                            ),
                        },
                },
            },
    {
        match goal {
            Err(residual) => Err(PlanError::IkUnreachable(residual)),
            Ok(q) => self.plan(start, &q, at_start, at_goal, free),
        }
    }

    fn smooth<F: Fn(&[Scalar]) -> bool>(&self, raw: Vec<Vec<Scalar>>, free: &F) -> (r: Vec<
        Vec<Scalar>,
    >)
        requires
            open_to_all(*free),
        ensures
            forall|p: spec_fn(Seq<Scalar>) -> bool| #[trigger]
                decides(*free, p) ==> rows_of(r@) == smoothed(
                    rows_of(raw@),
                    self.settings().seed ^ 5u64,
                    |a: Seq<Scalar>, b: Seq<Scalar>|
                        motion_clear(a, b, self.settings().edge_resolution, p),
                    self.settings().shortcut_iters as nat,
                ),
    {
        let res = self.cfg.edge_resolution;
        let edge = |a: &[Scalar], b: &[Scalar]| -> (ok: bool)
            ensures
                forall|p: spec_fn(Seq<Scalar>) -> bool| #[trigger]
                    decides(*free, p) ==> ok == motion_clear(a@, b@, res, p),
            {
                let x = copy_scalars(a);
                let y = copy_scalars(b);
                edge_is_clear(&x, &y, res, 1, free)
            };
        let r = shortcut_smooth(raw, self.cfg.shortcut_iters, self.cfg.seed ^ 5u64, &edge);
        proof {
            assert forall|p: spec_fn(Seq<Scalar>) -> bool| #[trigger] decides(*free, p) implies
                rows_of(r@) == smoothed(
                rows_of(raw@),
                self.cfg.seed ^ 5u64,
                |a: Seq<Scalar>, b: Seq<Scalar>| motion_clear(a, b, res, p),
                self.cfg.shortcut_iters as nat,
            ) by {
                let e = |a: Seq<Scalar>, b: Seq<Scalar>| motion_clear(a, b, res, p);
                assert(judges(edge, e));
            }
        }
        r
    }

    /// Whether a path holds at twice the resolution.
    pub fn verify_path<F: Fn(&[Scalar]) -> bool>(&self, path: &Vec<Vec<Scalar>>, free: &F) -> (r:
        bool)
        requires
            open_to_all(*free),
        ensures
            forall|p: spec_fn(Seq<Scalar>) -> bool| #[trigger]
                decides(*free, p) ==> r == path_verified(
                    rows_of(path@),
                    fmul(self.settings().edge_resolution, Scalar { bits: HALF_BITS }),
                    p,
                ),
    {
        let ghost v = rows_of(path@);
        if path.len() == 0 {
            return false;
        }
        let res = self.cfg.edge_resolution.mul(Scalar { bits: HALF_BITS });
        assert(v[0] == path@[0]@ && v.last() == path@[path@.len() - 1]@);
        if !is_clear(&path[0], free) || !is_clear(&path[path.len() - 1], free) {
            return false;
        }
        let mut k: usize = 0;
        while k < path.len() - 1
            invariant
                k <= path.len() - 1,
                path.len() > 0,
                v == rows_of(path@),
                open_to_all(*free),
                res == fmul(self.cfg.edge_resolution, Scalar { bits: HALF_BITS }),
                forall|p: spec_fn(Seq<Scalar>) -> bool, c: int|
                    #![trigger decides(*free, p), v[c]]
                    decides(*free, p) && 0 <= c < k ==> edge_clear(v[c], v[c + 1], res, 0, p),
            decreases path.len() - k,
        {
            assert(v[k as int] == path@[k as int]@ && v[k + 1] == path@[k + 1]@);
            if !edge_is_clear(&path[k], &path[k + 1], res, 0, free) {
                return false;
            }
            k = k + 1;
        }
        true
    }
}

fn check_config(name: &'static str, q: &Vec<Scalar>, n: usize) -> (r: Result<(), PlanError>)
    ensures
        match config_fault(name@, q@, n as nat) {
            Some(f) => r matches Err(e) && e@ == f,
            None => r is Ok,
        },
{
    if q.len() != n {
        return Err(PlanError::Dim { expected: n, got: q.len() });
    }
    match check_finite(name, q.as_slice()) {
        Ok(_) => Ok(()),
        Err(_) => Err(PlanError::NonFinite(name)),
    }
}

/// The path through both trees.
fn assemble(ta: &Tree, tb: &Tree, a: usize, b: usize) -> (r: Vec<Vec<Scalar>>)
    requires
        a < ta@.nodes.len(),
        b < tb@.nodes.len(),
    ensures
        rows_of(r@) == joined(ta@, tb@, a as int, b as int),
{
    let mut path = ta.path_to(a);
    let mut tail = tb.path_to(b);
    let ghost head = rows_of(path@);
    let ghost back = rows_of(tail@);
    let _ = tail.pop();
    let ghost rest = back.take(tail@.len() as int);
    proof {
        assert(rows_of(tail@) =~= rest);
        if back.len() > 0 {
            assert(back.reverse().skip(1) =~= rest.reverse());
        } else {
            assert(path_up(tb@, b as int).len() == 0);
        }
    }
    while tail.len() > 0
        invariant
            tail.len() <= rest.len(),
            rows_of(tail@) == rest.take(tail@.len() as int),
            rows_of(path@) == head + rest.skip(tail@.len() as int).reverse(),
        decreases tail.len(),
    {
        let ghost tv = tail@;
        let ghost pv = path@;
        match tail.pop() {
            Some(q) => {
                let ghost e = q@;
                path.push(q);
                proof {
                    let k = tail@.len() as int;
                    assert(tail@ =~= tv.drop_last());
                    assert(rows_of(tv)[k] == rest.take(k + 1)[k]);
                    assert(rest[k] == e);
                    assert(rows_of(tail@) =~= rest.take(k)) by {
                        assert forall|j: int| 0 <= j < k implies rows_of(tail@)[j] == rest[j] by {
                            assert(rows_of(tv)[j] == rest.take(k + 1)[j]);
                        }
                    }
                    assert(rows_of(path@) =~= rows_of(pv).push(e));
                    assert(rest.skip(k).reverse() =~= rest.skip(k + 1).reverse().push(e));
                    assert((head + rest.skip(k + 1).reverse()).push(e) =~= head + rest.skip(
                        k,
                    ).reverse());
                }
            },
            None => {},
        }
    }
    proof {
        assert(rest.skip(0) =~= rest);
        lemma_path_len(tb@, b as int);
    }
    path
}

proof fn lemma_path_len(t: TreeV, i: int)
    ensures
        path_up(t, i).len() > 0,
    decreases i,
{
    if i > 0 && 0 <= t.parent[i] < i {
        lemma_path_len(t, t.parent[i]);
    }
}

// ---- laws ----

/// A tree each of whose edges can be driven from parent to child.
pub open spec fn driven(t: TreeV, res: Scalar, p: spec_fn(Seq<Scalar>) -> bool) -> bool {
    &&& rooted(t)
    &&& forall|k: int|
        0 < k < t.nodes.len() ==> motion_clear(t.nodes[t.parent[k]], #[trigger] t.nodes[k], res, p)
}

/// Two configurations that a search takes for one.
pub open spec fn touching(a: Seq<Scalar>, b: Seq<Scalar>) -> bool {
    flt(distance(a, b), Scalar { bits: NANO_BITS }) || flt(
        distance(b, a),
        Scalar { bits: NANO_BITS },
    )
}

/// An edge from `b` that can be driven to a configuration taken for `a`.
pub open spec fn clear_to_twin(
    a: Seq<Scalar>,
    b: Seq<Scalar>,
    twin: Seq<Scalar>,
    res: Scalar,
    p: spec_fn(Seq<Scalar>) -> bool,
) -> bool {
    touching(a, twin) && motion_clear(b, twin, res, p)
}

/// An edge that was checked: as it is, backwards, or backwards up to a configuration
/// that the search took for its end.
pub open spec fn checked_edge(
    a: Seq<Scalar>,
    b: Seq<Scalar>,
    res: Scalar,
    p: spec_fn(Seq<Scalar>) -> bool,
) -> bool {
    ||| motion_clear(a, b, res, p)
    ||| motion_clear(b, a, res, p)
    ||| exists|twin: Seq<Scalar>| #[trigger] clear_to_twin(a, b, twin, res, p)
}

proof fn lemma_added(
    t: TreeV,
    q: Seq<Scalar>,
    near: int,
    res: Scalar,
    p: spec_fn(Seq<Scalar>) -> bool,
)
    requires
        driven(t, res, p),
        0 <= near < t.nodes.len(),
        motion_clear(t.nodes[near], q, res, p),
    ensures
        driven(added(t, q, near), res, p),
        added(t, q, near).nodes[0] == t.nodes[0],
{
    let u = added(t, q, near);
    assert forall|i: int| 0 < i < u.parent.len() implies 0 <= #[trigger] u.parent[i] < i by {
        if i < t.parent.len() {
            assert(u.parent[i] == t.parent[i]);
        }
    }
    assert forall|k: int| 0 < k < u.nodes.len() implies motion_clear(
        u.nodes[u.parent[k]],
        #[trigger] u.nodes[k],
        res,
        p,
    ) by {
        if k < t.nodes.len() {
            assert(u.nodes[k] == t.nodes[k]);
            assert(u.parent[k] == t.parent[k]);
            assert(0 <= t.parent[k] < k);
            assert(u.nodes[u.parent[k]] == t.nodes[t.parent[k]]);
        } else {
            assert(u.nodes[u.parent[k]] == t.nodes[near]);
        }
    }
}

proof fn lemma_grown(
    t: TreeV,
    target: Seq<Scalar>,
    cfg: PlannerConfig,
    p: spec_fn(Seq<Scalar>) -> bool,
)
    requires
        driven(t, cfg.edge_resolution, p),
    ensures
        driven(grown(t, target, cfg, p).1, cfg.edge_resolution, p),
        grown(t, target, cfg, p).1.nodes[0] == t.nodes[0],
        grown(t, target, cfg, p).0 != Extend::Trapped ==> grown(t, target, cfg, p).1.nodes.len()
            == t.nodes.len() + 1,
        grown(t, target, cfg, p).0 == Extend::Reached ==> flt(
            distance(grown(t, target, cfg, p).1.nodes.last(), target),
            Scalar { bits: NANO_BITS },
        ),
{
    lemma_nearest(t.nodes, target, t.nodes.len());
    let near = nearest_node(t, target);
    let q = steered(t.nodes[near], target, cfg.step);
    if motion_clear(t.nodes[near], q, cfg.edge_resolution, p) {
        lemma_added(t, q, near, cfg.edge_resolution, p);
    }
}

proof fn lemma_connected(
    t: TreeV,
    target: Seq<Scalar>,
    cfg: PlannerConfig,
    p: spec_fn(Seq<Scalar>) -> bool,
    k: nat,
)
    requires
        driven(t, cfg.edge_resolution, p),
    ensures
        ({
            let (hit, u) = connected(t, target, cfg, p, k);
            &&& driven(u, cfg.edge_resolution, p)
            &&& u.nodes[0] == t.nodes[0]
            &&& hit matches Some(j) ==> 0 < j < u.nodes.len() && flt(
                distance(u.nodes[j], target),
                Scalar { bits: NANO_BITS },
            )
        }),
    decreases k,
{
    if k > 0 {
        lemma_grown(t, target, cfg, p);
        let (e, u) = grown(t, target, cfg, p);
        if e == Extend::Advanced {
            lemma_connected(u, target, cfg, p, (k - 1) as nat);
        }
    }
}

proof fn lemma_round(
    grow: TreeV,
    other: TreeV,
    q: Seq<Scalar>,
    cfg: PlannerConfig,
    p: spec_fn(Seq<Scalar>) -> bool,
)
    requires
        driven(grow, cfg.edge_resolution, p),
        driven(other, cfg.edge_resolution, p),
    ensures
        ({
            let (g, o, met) = round(grow, other, q, cfg, p);
            &&& driven(g, cfg.edge_resolution, p)
            &&& driven(o, cfg.edge_resolution, p)
            &&& g.nodes[0] == grow.nodes[0]
            &&& o.nodes[0] == other.nodes[0]
            &&& met matches Some((i, j)) ==> 0 < i < g.nodes.len() && 0 < j < o.nodes.len()
                && touching(g.nodes[i], o.nodes[j])
        }),
{
    lemma_grown(grow, q, cfg, p);
    let (e, g) = grown(grow, q, cfg, p);
    if e != Extend::Trapped {
        let tip = g.nodes[g.nodes.len() - 1];
        lemma_connected(other, tip, cfg, p, connect_cap(other, tip, cfg.step));
    }
}

/// A path whose ends and edges are as they should be.
spec fn good_path(
    path: Seq<Seq<Scalar>>,
    from: Seq<Scalar>,
    to: Seq<Scalar>,
    res: Scalar,
    p: spec_fn(Seq<Scalar>) -> bool,
) -> bool {
    &&& path.len() > 0
    &&& path[0] == from
    &&& path.last() == to
    &&& forall|c: int|
        0 <= c < path.len() - 1 ==> checked_edge(#[trigger] path[c], path[c + 1], res, p)
}

proof fn lemma_joined(
    ta: TreeV,
    tb: TreeV,
    a: int,
    b: int,
    res: Scalar,
    p: spec_fn(Seq<Scalar>) -> bool,
)
    requires
        driven(ta, res, p),
        driven(tb, res, p),
        0 <= a < ta.nodes.len(),
        0 < b < tb.nodes.len(),
        touching(ta.nodes[a], tb.nodes[b]),
    ensures
        good_path(joined(ta, tb, a, b), ta.nodes[0], tb.nodes[0], res, p),
{
    let e = |x: Seq<Scalar>, y: Seq<Scalar>| motion_clear(x, y, res, p);
    law_path_follows_parents(ta, a, e);
    law_path_follows_parents(tb, b, e);
    assert(0 <= tb.parent[b] < b);
    law_path_follows_parents(tb, tb.parent[b], e);
    let head = path_up(ta, a);
    let up = path_up(tb, b);
    let n = up.len() as int;
    assert(n >= 2);
    let tail = up.reverse().skip(1);
    let path = joined(ta, tb, a, b);
    assert(tail.last() == up[0]);
    assert forall|c: int| 0 <= c < path.len() - 1 implies checked_edge(
        #[trigger] path[c],
        path[c + 1],
        res,
        p,
    ) by {
        let h = head.len() as int;
        if c < h - 1 {
            assert(path[c] == head[c] && path[c + 1] == head[c + 1]);
            assert(e(head[c], head[c + 1]));
        } else if c == h - 1 {
            assert(path[c] == ta.nodes[a]);
            assert(path[c + 1] == up[n - 2]);
            assert(e(up[n - 2], up[n - 1]));
            assert(clear_to_twin(path[c], path[c + 1], tb.nodes[b], res, p));
        } else {
            let m = n - 2 - (c - h);
            assert(path[c] == up[m] && path[c + 1] == up[m - 1]);
            assert(e(up[m - 1], up[m]));
        }
    }
}

proof fn lemma_searched(
    cfg: PlannerConfig,
    bounds: Seq<(Scalar, Scalar)>,
    s: u64,
    ta: TreeV,
    tb: TreeV,
    k: nat,
    p: spec_fn(Seq<Scalar>) -> bool,
)
    requires
        driven(ta, cfg.edge_resolution, p),
        driven(tb, cfg.edge_resolution, p),
    ensures
        searched(cfg, bounds, s, ta, tb, k, p) matches Some(path) ==> good_path(
            path,
            ta.nodes[0],
            tb.nodes[0],
            cfg.edge_resolution,
            p,
        ),
    decreases cfg.max_iters - k,
{
    if k < cfg.max_iters {
        if k % 2 == 0 {
            let (q, u) = sampled(s, bounds, tb.nodes[0], cfg.goal_bias);
            lemma_round(ta, tb, q, cfg, p);
            let (a, b, met) = round(ta, tb, q, cfg, p);
            match met {
                Some((i, j)) => {
                    lemma_joined(a, b, i, j, cfg.edge_resolution, p);
                },
                None => {
                    lemma_searched(cfg, bounds, u, a, b, k + 1, p);
                },
            }
        } else {
            let (q, u) = sampled(s, bounds, ta.nodes[0], cfg.goal_bias);
            lemma_round(tb, ta, q, cfg, p);
            let (b, a, met) = round(tb, ta, q, cfg, p);
            match met {
                Some((i, j)) => {
                    lemma_joined(a, b, j, i, cfg.edge_resolution, p);
                },
                None => {
                    lemma_searched(cfg, bounds, u, a, b, k + 1, p);
                },
            }
        }
    }
}

proof fn lemma_planned(
    cfg: PlannerConfig,
    bounds: Seq<(Scalar, Scalar)>,
    start: Seq<Scalar>,
    goal: Seq<Scalar>,
    p: spec_fn(Seq<Scalar>) -> bool,
)
    ensures
        plan_of(cfg, bounds, start, goal, p) matches Some(path) ==> good_path(
            path,
            start,
            goal,
            cfg.edge_resolution,
            p,
        ),
{
    let ta = single(start);
    let tb = single(goal);
    lemma_searched(cfg, bounds, cfg.seed, ta, tb, 0, p);
    match searched(cfg, bounds, cfg.seed, ta, tb, 0, p) {
        Some(raw) => {
            let e = |a: Seq<Scalar>, b: Seq<Scalar>| motion_clear(a, b, cfg.edge_resolution, p);
            let k = cfg.shortcut_iters as nat;
            let path = smoothed(raw, cfg.seed ^ 5u64, e, k);
            law_smoothing_keeps_ends(raw, cfg.seed ^ 5u64, e, k);
            assert forall|c: int| 0 <= c < path.len() - 1 implies checked_edge(
                #[trigger] path[c],
                path[c + 1],
                cfg.edge_resolution,
                p,
            ) by {
                law_smoothed_edges_are_valid(raw, cfg.seed ^ 5u64, e, k, c);
                if has_edge(raw, path[c], path[c + 1]) {
                    let m = choose|m: int|
                        0 <= m < raw.len() - 1 && (#[trigger] raw[m]) == path[c] && raw[m + 1]
                            == path[c + 1];
                    assert(checked_edge(raw[m], raw[m + 1], cfg.edge_resolution, p));
                }
            }
        },
        None => {},
    }
}

/// A plan starts at the start and ends at the goal, exactly.
pub proof fn law_plan_connects_the_ends(
    cfg: PlannerConfig,
    bounds: Seq<(Scalar, Scalar)>,
    start: Seq<Scalar>,
    goal: Seq<Scalar>,
    p: spec_fn(Seq<Scalar>) -> bool,
)
    ensures
        plan_of(cfg, bounds, start, goal, p) matches Some(path) ==> path.len() > 0 && path[0]
            == start && path.last() == goal,
{
    lemma_planned(cfg, bounds, start, goal, p);
}

/// Every edge of a plan was checked at the planner's resolution.
pub proof fn law_plan_edges_were_checked(
    cfg: PlannerConfig,
    bounds: Seq<(Scalar, Scalar)>,
    start: Seq<Scalar>,
    goal: Seq<Scalar>,
    p: spec_fn(Seq<Scalar>) -> bool,
    c: int,
)
    requires
        plan_of(cfg, bounds, start, goal, p) matches Some(path) && 0 <= c < path.len() - 1,
    ensures
        plan_of(cfg, bounds, start, goal, p) matches Some(path) && checked_edge(
            path[c],
            path[c + 1],
            cfg.edge_resolution,
            p,
        ),
{
    lemma_planned(cfg, bounds, start, goal, p);
}

/// Planners of the same settings, the seed among them, and the same ranges give the same
/// plan for the same request, whatever judge of configurations they ask, as long as its
/// verdicts do not change.
pub proof fn law_same_seed_same_plan<F: Fn(&[Scalar]) -> bool>(
    a: Planner,
    b: Planner,
    start: Seq<Scalar>,
    goal: Seq<Scalar>,
    at_start: Endpoint,
    at_goal: Endpoint,
    free: F,
    p: spec_fn(Seq<Scalar>) -> bool,
    ra: Result<Vec<Vec<Scalar>>, PlanError>,
    rb: Result<Vec<Vec<Scalar>>, PlanError>,
)
    requires
        a.settings() == b.settings(),
        a.ranges() == b.ranges(),
        decides(free, p),
        answered(a, start, goal, at_start, at_goal, free, ra),
        answered(b, start, goal, at_start, at_goal, free, rb),
    ensures
        match (ra, rb) {
            (Ok(x), Ok(y)) => rows_of(x@) == rows_of(y@),
            (Err(x), Err(y)) => x@ == y@,
            _ => false,
        },
{
}

/// Every node has `n` numbers.
pub open spec fn all_sized(nodes: Seq<Seq<Scalar>>, n: nat) -> bool {
    forall|k: int| 0 <= k < nodes.len() ==> (#[trigger] nodes[k]).len() == n
}

proof fn lemma_drawn_len(s: u64, bounds: Seq<(Scalar, Scalar)>, k: nat)
    ensures
        drawn(s, bounds, k).0.len() == k,
    decreases k,
{
    if k > 0 {
        lemma_drawn_len(s, bounds, (k - 1) as nat);
    }
}

proof fn lemma_grown_sized(
    t: TreeV,
    target: Seq<Scalar>,
    cfg: PlannerConfig,
    p: spec_fn(Seq<Scalar>) -> bool,
    n: nat,
)
    requires
        rooted(t),
        all_sized(t.nodes, n),
        target.len() == n,
    ensures
        rooted(grown(t, target, cfg, p).1),
        all_sized(grown(t, target, cfg, p).1.nodes, n),
        grown(t, target, cfg, p).1.nodes[0] == t.nodes[0],
{
    lemma_nearest(t.nodes, target, t.nodes.len());
    let near = nearest_node(t, target);
    assert(t.nodes[near].len() == n);
    let q = steered(t.nodes[near], target, cfg.step);
    assert(q.len() == n);
    let u = added(t, q, near);
    assert(rooted(u)) by {
        assert forall|i: int| 0 < i < u.parent.len() implies 0 <= #[trigger] u.parent[i] < i by {
            if i < t.parent.len() {
                assert(u.parent[i] == t.parent[i]);
            }
        }
    }
    assert forall|k: int| 0 <= k < u.nodes.len() implies (#[trigger] u.nodes[k]).len() == n by {
        if k < t.nodes.len() {
            assert(u.nodes[k] == t.nodes[k]);
        }
    }
}

proof fn lemma_connected_sized(
    t: TreeV,
    target: Seq<Scalar>,
    cfg: PlannerConfig,
    p: spec_fn(Seq<Scalar>) -> bool,
    k: nat,
    n: nat,
)
    requires
        rooted(t),
        all_sized(t.nodes, n),
        target.len() == n,
    ensures
        ({
            let (hit, u) = connected(t, target, cfg, p, k);
            &&& rooted(u)
            &&& all_sized(u.nodes, n)
            &&& u.nodes[0] == t.nodes[0]
            &&& hit matches Some(j) ==> 0 <= j < u.nodes.len()
        }),
    decreases k,
{
    if k > 0 {
        lemma_grown_sized(t, target, cfg, p, n);
        let (e, u) = grown(t, target, cfg, p);
        if e == Extend::Advanced {
            lemma_connected_sized(u, target, cfg, p, (k - 1) as nat, n);
        }
    }
}

proof fn lemma_round_sized(
    grow: TreeV,
    other: TreeV,
    q: Seq<Scalar>,
    cfg: PlannerConfig,
    p: spec_fn(Seq<Scalar>) -> bool,
    n: nat,
)
    requires
        rooted(grow),
        rooted(other),
        all_sized(grow.nodes, n),
        all_sized(other.nodes, n),
        q.len() == n,
    ensures
        ({
            let (g, o, met) = round(grow, other, q, cfg, p);
            &&& rooted(g)
            &&& rooted(o)
            &&& all_sized(g.nodes, n)
            &&& all_sized(o.nodes, n)
            &&& met matches Some((i, j)) ==> 0 <= i < g.nodes.len() && 0 <= j < o.nodes.len()
        }),
{
    lemma_grown_sized(grow, q, cfg, p, n);
    let (e, g) = grown(grow, q, cfg, p);
    if e != Extend::Trapped {
        let tip = g.nodes[g.nodes.len() - 1];
        lemma_connected_sized(other, tip, cfg, p, connect_cap(other, tip, cfg.step), n);
    }
}

proof fn lemma_path_up_sized(t: TreeV, i: int, n: nat)
    requires
        rooted(t),
        all_sized(t.nodes, n),
        i < t.nodes.len(),
    ensures
        all_sized(path_up(t, i), n),
    decreases i,
{
    if i > 0 {
        assert(0 <= t.parent[i] < i);
        lemma_path_up_sized(t, t.parent[i], n);
    }
}

proof fn lemma_joined_sized(ta: TreeV, tb: TreeV, a: int, b: int, n: nat)
    requires
        rooted(ta),
        rooted(tb),
        all_sized(ta.nodes, n),
        all_sized(tb.nodes, n),
        0 <= a < ta.nodes.len(),
        0 <= b < tb.nodes.len(),
    ensures
        all_sized(joined(ta, tb, a, b), n),
{
    lemma_path_up_sized(ta, a, n);
    lemma_path_up_sized(tb, b, n);
    let up = path_up(tb, b);
    let tail = up.reverse().skip(1);
    assert forall|k: int| 0 <= k < tail.len() implies (#[trigger] tail[k]).len() == n by {
        assert(tail[k] == up[up.len() - 2 - k]);
    }
}

proof fn lemma_searched_sized(
    cfg: PlannerConfig,
    bounds: Seq<(Scalar, Scalar)>,
    s: u64,
    ta: TreeV,
    tb: TreeV,
    k: nat,
    p: spec_fn(Seq<Scalar>) -> bool,
)
    requires
        rooted(ta),
        rooted(tb),
        all_sized(ta.nodes, bounds.len()),
        all_sized(tb.nodes, bounds.len()),
    ensures
        searched(cfg, bounds, s, ta, tb, k, p) matches Some(path) ==> all_sized(
            path,
            bounds.len(),
        ),
    decreases cfg.max_iters - k,
{
    let n = bounds.len();
    if k < cfg.max_iters {
        lemma_drawn_len(advanced(s), bounds, n);
        assert(ta.nodes[0].len() == n && tb.nodes[0].len() == n);
        if k % 2 == 0 {
            let (q, u) = sampled(s, bounds, tb.nodes[0], cfg.goal_bias);
            lemma_round_sized(ta, tb, q, cfg, p, n);
            let (a, b, met) = round(ta, tb, q, cfg, p);
            match met {
                Some((i, j)) => {
                    lemma_joined_sized(a, b, i, j, n);
                },
                None => {
                    lemma_searched_sized(cfg, bounds, u, a, b, k + 1, p);
                },
            }
        } else {
            let (q, u) = sampled(s, bounds, ta.nodes[0], cfg.goal_bias);
            lemma_round_sized(tb, ta, q, cfg, p, n);
            let (b, a, met) = round(tb, ta, q, cfg, p);
            match met {
                Some((i, j)) => {
                    lemma_joined_sized(a, b, j, i, n);
                },
                None => {
                    lemma_searched_sized(cfg, bounds, u, a, b, k + 1, p);
                },
            }
        }
    }
}

/// Every waypoint of a plan has as many numbers as there are joints.
pub proof fn law_waypoints_fit_the_robot(
    cfg: PlannerConfig,
    bounds: Seq<(Scalar, Scalar)>,
    start: Seq<Scalar>,
    goal: Seq<Scalar>,
    p: spec_fn(Seq<Scalar>) -> bool,
)
    requires
        start.len() == bounds.len(),
        goal.len() == bounds.len(),
    ensures
        plan_of(cfg, bounds, start, goal, p) matches Some(path) ==> all_sized(path, bounds.len()),
{
    let n = bounds.len();
    lemma_searched_sized(cfg, bounds, cfg.seed, single(start), single(goal), 0, p);
    match searched(cfg, bounds, cfg.seed, single(start), single(goal), 0, p) {
        Some(raw) => {
            law_smoothing_adds_no_node(
                raw,
                cfg.seed ^ 5u64,
                |a: Seq<Scalar>, b: Seq<Scalar>| motion_clear(a, b, cfg.edge_resolution, p),
                cfg.shortcut_iters as nat,
                |q: Seq<Scalar>| q.len() == n,
            );
        },
        None => {},
    }
}

} // verus!
