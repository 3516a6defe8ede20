//! What a verdict on whether a target can be reached means.

use vstd::prelude::*;

#[allow(unused_imports)]
use crate::hal::backend::zero_seq;
#[allow(unused_imports)]
use crate::ik::solve::ResultV;
#[allow(unused_imports)]
use crate::planning::reach::{judged, seeds_of, verdict_of, ReachConfig, ReachStatus};
#[allow(unused_imports)]
use crate::planning::rng::drawn;
#[allow(unused_imports)]
use crate::scalar::consts::INFINITY_BITS;
#[allow(unused_imports)]
use crate::scalar::convert::fmin;
#[allow(unused_imports)]
use crate::scalar::number::fle;
#[allow(unused_imports)]
use crate::scalar::Scalar;

verus! {

proof fn lemma_judged(
    bounds: Seq<(Scalar, Scalar)>,
    s: u64,
    k: nat,
    total: nat,
    best: Scalar,
    converged: bool,
    solve: spec_fn(Seq<Scalar>) -> ResultV,
    free: spec_fn(Seq<Scalar>) -> bool,
)
    requires
        k <= total,
        !best.nan(),
        forall|q: Seq<Scalar>| !(#[trigger] solve(q)).residual.nan(),
    ensures
        ({
            let v = judged(bounds, s, k, total, best, converged, solve, free);
            &&& v.status == ReachStatus::Blocked ==> converged || exists|q: Seq<Scalar>|
                (#[trigger] solve(q)).success && !free(solve(q).q)
            &&& v.status == ReachStatus::Unreachable ==> !converged
            &&& v.status == ReachStatus::Reachable <==> v.q is Some
            &&& v.status != ReachStatus::Reachable ==> fle(v.residual, best)
            &&& (forall|q: Seq<Scalar>| !(#[trigger] solve(q)).success) ==> v.status == (if converged {
                ReachStatus::Blocked
            } else {
                ReachStatus::Unreachable
            })
            &&& k < total && (forall|q: Seq<Scalar>| (#[trigger] solve(q)).success && !free(solve(q).q))
                ==> v.status == ReachStatus::Blocked
            &&& k < total && (forall|q: Seq<Scalar>| (#[trigger] solve(q)).success && free(solve(q).q))
                ==> v.status == ReachStatus::Reachable
        }),
    decreases total - k,
{
    if k < total {
        let (q, t) = if k == 0 {
            (zero_seq(bounds.len()), s)
        } else {
            drawn(s, bounds, bounds.len())
        };
        let r = solve(q);
        assert(!solve(q).residual.nan());
        if !(r.success && free(r.q)) {
            lemma_judged(
                bounds,
                t,
                k + 1,
                total,
                fmin(best, r.residual),
                converged || r.success,
                solve,
                free,
            );
        }
    }
}

/// A target is reachable where every attempt arrives freely, blocked where every one arrives
/// but none freely, and unreachable where none arrives; it is blocked only where some attempt
/// arrives, and comes with a configuration just where it is reachable.
pub proof fn law_verdicts_tell_why(
    cfg: ReachConfig,
    bounds: Seq<(Scalar, Scalar)>,
    solve: spec_fn(Seq<Scalar>) -> ResultV,
    free: spec_fn(Seq<Scalar>) -> bool,
)
    requires
        forall|q: Seq<Scalar>| !(#[trigger] solve(q)).residual.nan(),
    ensures
        ({
            let v = verdict_of(cfg, bounds, solve, free);
            &&& v.status == ReachStatus::Blocked ==> exists|q: Seq<Scalar>|
                (#[trigger] solve(q)).success && !free(solve(q).q)
            &&& v.status == ReachStatus::Reachable <==> v.q is Some
            &&& (forall|q: Seq<Scalar>| !(#[trigger] solve(q)).success) ==> v.status
                == ReachStatus::Unreachable
            &&& (forall|q: Seq<Scalar>| (#[trigger] solve(q)).success && !free(solve(q).q)) ==> v.status
                == ReachStatus::Blocked
            &&& (forall|q: Seq<Scalar>| (#[trigger] solve(q)).success && free(solve(q).q)) ==> v.status
                == ReachStatus::Reachable
        }),
{
    lemma_judged(
        bounds,
        cfg.seed,
        0,
        seeds_of(cfg),
        Scalar { bits: INFINITY_BITS },
        false,
        solve,
        free,
    );
}

} // verus!
