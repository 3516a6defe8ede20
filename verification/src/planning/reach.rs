//! Whether a pose can be reached without a collision: inverse kinematics is tried from
//! several seeds until a free configuration is found.

use vstd::prelude::*;

use crate::hal::backend::zeros;
#[allow(unused_imports)]
use crate::hal::backend::zero_seq;
use crate::ik::solve::IkResult;
#[allow(unused_imports)]
use crate::ik::solve::ResultV;
use crate::model::Model;
#[allow(unused_imports)]
use crate::planning::planner::{bounds_of, decides, open_to_all};
use crate::planning::rng::{draw, Rng};
#[allow(unused_imports)]
use crate::planning::rng::drawn;
use crate::scalar::consts::{INFINITY_BITS, PI_BITS};
#[allow(unused_imports)]
use crate::scalar::convert::fmin;
use crate::scalar::Scalar;

verus! {

/// What is known of a pose.
#[derive(Clone, Copy, Debug, PartialEq, Eq, Structural)]
pub enum ReachStatus {
    /// Some solution is free.
    Reachable,
    /// There are solutions, and all that were found collide.
    Blocked,
    /// No solution was found.
    Unreachable,
}

/// What is known of a pose, the best residual, and a free configuration if there is one.
#[derive(Debug)]
pub struct ReachVerdict {
    pub status: ReachStatus,
    pub residual: Scalar,
    pub q: Option<Vec<Scalar>>,
}

/// `ReachVerdict` over sequences.
pub struct VerdictV {
    pub status: ReachStatus,
    pub residual: Scalar,
    pub q: Option<Seq<Scalar>>,
}

impl View for ReachVerdict {
    type V = VerdictV;

    open spec fn view(&self) -> VerdictV {
        VerdictV {
            status: self.status,
            residual: self.residual,
            q: match self.q {
                Some(q) => Some(q@),
                None => None,
            },
        }
    }
}

/// Settings of a reach check.
#[derive(Clone, Copy, Debug, PartialEq, Eq, Structural)]
pub struct ReachConfig {
    /// The frame that reaches; the tip if none is named.
    pub frame: Option<usize>,
    pub seeds: usize,
    pub seed: u64,
    pub margin: Scalar,
    pub unbounded_range: Scalar,
}

impl Default for ReachConfig {
    fn default() -> (r: ReachConfig)
        ensures
            r == (ReachConfig {
                frame: None,
                seeds: 8,
                seed: 0xCA11,
                margin: Scalar { bits: 0 },
                unbounded_range: Scalar { bits: PI_BITS },
            }),
    {
        ReachConfig {
            frame: None,
            seeds: 8,
            seed: 0xCA11,
            margin: Scalar { bits: 0 },
            unbounded_range: Scalar { bits: PI_BITS },
        }
    }
}

/// A solver that is handed in behaves as `g`.
pub open spec fn solves<K: Fn(&[Scalar]) -> IkResult>(
    f: K,
    g: spec_fn(Seq<Scalar>) -> ResultV,
) -> bool {
    forall|a: &[Scalar], r: IkResult| call_ensures(f, (a,), r) ==> r@ == g(a@)
}

/// The verdict from seed `k` on: the first free solution, else what was found.
pub open spec fn judged(
    bounds: Seq<(Scalar, Scalar)>,
    s: u64,
    k: nat,
    total: nat,
    best: Scalar,
    converged: bool,
    solve: spec_fn(Seq<Scalar>) -> ResultV,
    free: spec_fn(Seq<Scalar>) -> bool,
) -> VerdictV
    decreases total - k,
{
    if k >= total {
        VerdictV {
            status: if converged {
                ReachStatus::Blocked
            } else {
                ReachStatus::Unreachable
            },
            residual: best,
            q: None,
        }
    } else {
        let (q, t) = if k == 0 {
            (zero_seq(bounds.len()), s)
        } else {
            drawn(s, bounds, bounds.len())
        };
        let r = solve(q);
        if r.success && free(r.q) {
            VerdictV { status: ReachStatus::Reachable, residual: r.residual, q: Some(r.q) }
        } else {
            judged(
                bounds,
                t,
                k + 1,
                total,
                fmin(best, r.residual),
                converged || r.success,
                solve,
                free,
            )
        }
    }
}

/// At least one seed is tried.
pub open spec fn seeds_of(cfg: ReachConfig) -> nat {
    if cfg.seeds < 1 {
        1
    } else {
        cfg.seeds as nat
    }
}

/// The verdict of a check.
pub open spec fn verdict_of(
    cfg: ReachConfig,
    bounds: Seq<(Scalar, Scalar)>,
    solve: spec_fn(Seq<Scalar>) -> ResultV,
    free: spec_fn(Seq<Scalar>) -> bool,
) -> VerdictV {
    judged(
        bounds,
        cfg.seed,
        0,
        seeds_of(cfg),
        Scalar { bits: INFINITY_BITS },
        false,
        solve,
        free,
    )
}

/// A check over the joint ranges of a model.
pub struct ReachChecker {
    frame: usize,
    bounds: Vec<(Scalar, Scalar)>,
    cfg: ReachConfig,
}

impl ReachChecker {
    pub closed spec fn settings(&self) -> ReachConfig {
        self.cfg
    }

    pub closed spec fn ranges(&self) -> Seq<(Scalar, Scalar)> {
        self.bounds@
    }

    pub closed spec fn at_frame(&self) -> usize {
        self.frame
    }

    pub fn new(model: &Model, cfg: ReachConfig) -> (r: ReachChecker)
        requires
            model.wf(),
            cfg.frame is None ==> model.frames@.len() > 0,
        ensures
            r.settings() == cfg,
            r.ranges() == bounds_of(model.limits@, model.ndof as nat, cfg.unbounded_range),
            r.at_frame() == (match cfg.frame {
                Some(f) => f as int,
                None => model.frames@.len() - 1,
            }),
    {
        let frame = match cfg.frame {
            Some(f) => f,
            None => model.tip_frame(),
        };
        let mut bounds: Vec<(Scalar, Scalar)> = Vec::new();
        let mut i: usize = 0;
        while i < model.ndof
            invariant
                i <= model.ndof,
                model.wf(),
                bounds.len() == i,
                forall|k: int|
                    0 <= k < i ==> #[trigger] bounds@[k] == bounds_of(
                        model.limits@,
                        model.ndof as nat,
                        cfg.unbounded_range,
                    )[k],
            decreases model.ndof - i,
        {
            bounds.push(
                match model.limits[i] {
                    Some(b) => b,
                    None => (cfg.unbounded_range.neg(), cfg.unbounded_range),
                },
            );
            i = i + 1;
        }
        assert(bounds@ =~= bounds_of(model.limits@, model.ndof as nat, cfg.unbounded_range));
        ReachChecker { frame, bounds, cfg }
    }

    /// The frame that reaches.
    pub fn frame(&self) -> (r: usize)
        ensures
            r == self.at_frame(),
    {
        self.frame
    }

    /// What is known of a pose. `solve` runs inverse kinematics for it from a seed, and
    /// `free` answers for configurations.
    pub fn status<K: Fn(&[Scalar]) -> IkResult, F: Fn(&[Scalar]) -> bool>(
        &self,
        solve: &K,
        free: &F,
    ) -> (r: ReachVerdict)
        requires
            forall|a: &[Scalar]| call_requires(*solve, (a,)),
            open_to_all(*free),
        ensures
            forall|g: spec_fn(Seq<Scalar>) -> ResultV, p: spec_fn(Seq<Scalar>) -> bool|
                #![trigger solves(*solve, g), decides(*free, p)]
                solves(*solve, g) && decides(*free, p) ==> r@ == verdict_of(
                    self.settings(),
                    self.ranges(),
                    g,
                    p,
                ),
            r.status == ReachStatus::Reachable <==> r.q is Some,
    {
        let n: usize = self.bounds.len();
        let mut rng = Rng::new(self.cfg.seed);
        let mut best = Scalar { bits: INFINITY_BITS };
        let mut converged: bool = false;
        let total: usize = if self.cfg.seeds < 1 {
            1
        } else {
            self.cfg.seeds
        };
        let ghost b = self.bounds@;
        let mut k: usize = 0;
        while k < total
            invariant
                k <= total,
                n == b.len(),
                b == self.bounds@,
                total as nat == seeds_of(self.cfg),
                forall|a: &[Scalar]| call_requires(*solve, (a,)),
                open_to_all(*free),
                forall|g: spec_fn(Seq<Scalar>) -> ResultV, p: spec_fn(Seq<Scalar>) -> bool|
                    #![trigger solves(*solve, g), decides(*free, p)]
                    solves(*solve, g) && decides(*free, p) ==> verdict_of(self.cfg, b, g, p)
                        == judged(
                        b,
                        rng.state,
                        k as nat,
                        total as nat,
                        best,
                        converged,
                        g,
                        p,
                    ),
            decreases total - k,
        {
            let ghost s0 = rng.state;
            let ghost best0 = best;
            let ghost conv0 = converged;
            let seed_q = if k == 0 {
                zeros(n)
            } else {
                draw(&mut rng, &self.bounds)
            };
            let res = solve(seed_q.as_slice());
            let ghost rv = res@;
            let open = if res.success {
                free(res.q.as_slice())
            } else {
                false
            };
            proof {
                assert forall|g: spec_fn(Seq<Scalar>) -> ResultV, p: spec_fn(Seq<Scalar>) -> bool|
                    #![trigger solves(*solve, g), decides(*free, p)]
                    solves(*solve, g) && decides(*free, p) implies verdict_of(self.cfg, b, g, p)
                    == (if open {
                    VerdictV {
                        status: ReachStatus::Reachable,
                        residual: rv.residual,
                        q: Some(rv.q),
                    }
                } else {
                    judged(
                        b,
                        rng.state,
                        (k + 1) as nat,
                        total as nat,
                        fmin(best0, rv.residual),
                        conv0 || rv.success,
                        g,
                        p,
                    )
                }) by {
                    assert(verdict_of(self.cfg, b, g, p) == judged(
                        b,
                        s0,
                        k as nat,
                        total as nat,
                        best0,
                        conv0,
                        g,
                        p,
                    ));
                    assert(rv == g(seed_q@));
                    if rv.success {
                        assert(open == p(rv.q));
                    }
                }
            }
            if open {
                return ReachVerdict {
                    status: ReachStatus::Reachable,
                    residual: res.residual,
                    q: Some(res.q),
                };
            }
            best = best.min(res.residual);
            converged = converged || res.success;
            k = k + 1;
        }
        ReachVerdict {
            status: if converged {
                ReachStatus::Blocked
            } else {
                ReachStatus::Unreachable
            },
            residual: best,
            q: None,
        }
    }

    /// Whether a pose can be reached.
    pub fn reachable<K: Fn(&[Scalar]) -> IkResult, F: Fn(&[Scalar]) -> bool>(
        &self,
        solve: &K,
        free: &F,
    ) -> (r: bool)
        requires
            forall|a: &[Scalar]| call_requires(*solve, (a,)),
            open_to_all(*free),
        ensures
            forall|g: spec_fn(Seq<Scalar>) -> ResultV, p: spec_fn(Seq<Scalar>) -> bool|
                #![trigger solves(*solve, g), decides(*free, p)]
                solves(*solve, g) && decides(*free, p) ==> r == (verdict_of(
                    self.settings(),
                    self.ranges(),
                    g,
                    p,
                ).status == ReachStatus::Reachable),
    {
        self.status(solve, free).status == ReachStatus::Reachable
    }
}

/// How many of the first `n` can be reached.
pub open spec fn reached(s: Seq<ReachStatus>, n: nat) -> nat
    decreases n,
{
    if n == 0 {
        0
    } else {
        reached(s, (n - 1) as nat) + (if s[n - 1] == ReachStatus::Reachable {
            1nat
        } else {
            0nat
        })
    }
}

/// How many poses can be reached, and how many there are.
pub fn sweep(statuses: &Vec<ReachStatus>) -> (r: (usize, usize))
    ensures
        r.0 == reached(statuses@, statuses@.len()),
        r.1 == statuses@.len(),
{
    let mut count: usize = 0;
    let mut i: usize = 0;
    while i < statuses.len()
        invariant
            i <= statuses.len(),
            count == reached(statuses@, i as nat),
            count <= i,
        decreases statuses.len() - i,
    {
        if statuses[i] == ReachStatus::Reachable {
            count = count + 1;
        }
        i = i + 1;
    }
    (count, statuses.len())
}

// ---- laws ----

proof fn lemma_judged(
    bounds: Seq<(Scalar, Scalar)>,
    s: u64,
    k: nat,
    total: nat,
    best: Scalar,
    converged: bool,
    solve: spec_fn(Seq<Scalar>) -> ResultV,
    free: spec_fn(Seq<Scalar>) -> bool,
)
    ensures
        ({
            let v = judged(bounds, s, k, total, best, converged, solve, free);
            &&& v.status == ReachStatus::Reachable <==> v.q is Some
            &&& v.q matches Some(q) ==> free(q)
        }),
    decreases total - k,
{
    if k < total {
        let (q, t) = if k == 0 {
            (zero_seq(bounds.len()), s)
        } else {
            drawn(s, bounds, bounds.len())
        };
        let r = solve(q);
        if !(r.success && free(r.q)) {
            lemma_judged(
                bounds,
                t,
                k + 1,
                total,
                fmin(best, r.residual),
                converged || r.success,
                solve,
                free,
            );
        }
    }
}

/// A pose counts as reachable exactly when a configuration for it is given, and that
/// one is free.
pub proof fn law_reachable_means_free(
    cfg: ReachConfig,
    bounds: Seq<(Scalar, Scalar)>,
    solve: spec_fn(Seq<Scalar>) -> ResultV,
    free: spec_fn(Seq<Scalar>) -> bool,
)
    ensures
        ({
            let v = verdict_of(cfg, bounds, solve, free);
            &&& v.status == ReachStatus::Reachable <==> v.q is Some
            &&& v.q matches Some(q) ==> free(q)
        }),
{
    lemma_judged(
        bounds,
        cfg.seed,
        0,
        seeds_of(cfg),
        Scalar { bits: INFINITY_BITS },
        false,
        solve,
        free,
    );
}

} // verus!
