//! The numeric solver: damped steps from a seed, restarted where they do not arrive.

use vstd::prelude::*;

use crate::hal::backend::{check_finite, copy_scalars, zeros};
#[allow(unused_imports)]
use crate::hal::backend::{all_finite, zero_seq};
#[allow(unused_imports)]
use crate::hal::safety::limits_ordered;
use crate::kinematics::singular::{product_of, Twist};
#[allow(unused_imports)]
use crate::kinematics::singular::product;
use crate::model::hull::lane_greater;
#[allow(unused_imports)]
use crate::model::hull::lane_max;
use crate::model::Model;
use crate::planning::rng::Rng;
#[allow(unused_imports)]
use crate::planning::rng::{advanced, unit_of};
use crate::scalar::consts::{
    INFINITY_BITS, MINUS_PI_BITS, NANO_BITS, ONE_BITS, PI_BITS, THREE_TENTHS_BITS,
};
#[allow(unused_imports)]
use crate::scalar::convert::{fclamp, fmax};
#[allow(unused_imports)]
use crate::scalar::number::{fabs, fadd, fdiv, fle, flt, fmul, fsub};
#[allow(unused_imports)]
use crate::scalar::root::fsqrt;
#[allow(unused_imports)]
use crate::scalar::vec3::{vdot, vnorm};
use crate::scalar::Scalar;

verus! {

/// `1e6`: how far a joint without limits may go.
pub const UNBOUNDED_BITS: u64 = 0x412E_8480_0000_0000;

/// `-1e6`.
pub const MINUS_UNBOUNDED_BITS: u64 = 0xC12E_8480_0000_0000;

/// `-5e5`: a lower limit below this is taken for none.
pub const OPEN_BELOW_BITS: u64 = 0xC11E_8480_0000_0000;

/// `1e-3`.
pub const MILLI_BITS: u64 = 0x3F50_624D_D2F1_A9FC;

/// `1e-10`.
pub const FLOOR_BITS: u64 = 0x3DDB_7CDF_D9D7_BDBB;

/// Settings of the solver.
#[derive(Clone, Copy, Debug, PartialEq, Eq, Structural)]
pub struct IkOpts {
    pub tol_pos: Scalar,
    pub tol_rot: Scalar,
    pub max_iters: usize,
    pub restarts: usize,
    pub lambda0_sq: Scalar,
    /// Damping that is always on, so that the step can be solved for.
    pub lambda_floor_sq: Scalar,
    pub w_thresh: Scalar,
    pub step_clamp: Scalar,
    pub seed_rng: u64,
}

impl Default for IkOpts {
    fn default() -> (r: IkOpts)
        ensures
            r == (IkOpts {
                tol_pos: Scalar { bits: NANO_BITS },
                tol_rot: Scalar { bits: NANO_BITS },
                max_iters: 100,
                restarts: 8,
                lambda0_sq: Scalar { bits: MILLI_BITS },
                lambda_floor_sq: Scalar { bits: FLOOR_BITS },
                w_thresh: Scalar { bits: MILLI_BITS },
                step_clamp: Scalar { bits: THREE_TENTHS_BITS },
                seed_rng: 0xC0FFEE,
            }),
    {
        IkOpts {
            tol_pos: Scalar { bits: NANO_BITS },
            tol_rot: Scalar { bits: NANO_BITS },
            max_iters: 100,
            restarts: 8,
            lambda0_sq: Scalar { bits: MILLI_BITS },
            lambda_floor_sq: Scalar { bits: FLOOR_BITS },
            w_thresh: Scalar { bits: MILLI_BITS },
            step_clamp: Scalar { bits: THREE_TENTHS_BITS },
            seed_rng: 0xC0FFEE,
        }
    }
}

/// Where the solver ended.
#[derive(Debug)]
pub struct IkResult {
    pub success: bool,
    pub q: Vec<Scalar>,
    pub residual: Scalar,
    pub iters: usize,
    pub restarts_used: usize,
}

/// `IkResult` over sequences.
#[verifier::ext_equal]
pub struct ResultV {
    pub success: bool,
    pub q: Seq<Scalar>,
    pub residual: Scalar,
    pub iters: nat,
    pub restarts: nat,
}

impl View for IkResult {
    type V = ResultV;

    open spec fn view(&self) -> ResultV {
        ResultV {
            success: self.success,
            q: self.q@,
            residual: self.residual,
            iters: self.iters as nat,
            restarts: self.restarts_used as nat,
        }
    }
}

/// What the solver asks of an arm at a configuration: how far the tool is from its
/// target, the singular values of the tool's Jacobian, and the step that damping by
/// a given amount leads to.
pub struct Arm<E, S, D> {
    pub error: E,
    pub values: S,
    pub step: D,
}

/// `Arm` over functions.
pub struct ArmV {
    pub error: spec_fn(Seq<Scalar>) -> Twist,
    pub values: spec_fn(Seq<Scalar>) -> Seq<Scalar>,
    pub step: spec_fn(Seq<Scalar>, Scalar) -> Seq<Scalar>,
}

impl<
    E: Fn(&[Scalar]) -> Twist,
    S: Fn(&[Scalar]) -> Vec<Scalar>,
    D: Fn(&[Scalar], Scalar) -> Vec<Scalar>,
> Arm<E, S, D> {
    /// The arm answers as `a` does.
    pub open spec fn answers(&self, a: ArmV) -> bool {
        &&& forall|q: &[Scalar], r: Twist|
            call_ensures(self.error, (q,), r) ==> r == (a.error)(q@)
        &&& forall|q: &[Scalar], r: Vec<Scalar>|
            call_ensures(self.values, (q,), r) ==> r@ == (a.values)(q@)
        &&& forall|q: &[Scalar], l: Scalar, r: Vec<Scalar>|
            call_ensures(self.step, (q, l), r) ==> r@ == (a.step)(q@, l)
    }

    /// The arm can be asked at every configuration, and a step has one number per joint.
    pub open spec fn usable(&self) -> bool {
        &&& forall|q: &[Scalar]| call_requires(self.error, (q,))
        &&& forall|q: &[Scalar]| call_requires(self.values, (q,))
        &&& forall|q: &[Scalar], l: Scalar| call_requires(self.step, (q, l))
        &&& forall|q: &[Scalar], l: Scalar, r: Vec<Scalar>|
            call_ensures(self.step, (q, l), r) ==> r@.len() == q@.len()
    }
}

/// Length of a twist.
pub open spec fn twist_norm(t: Twist) -> Scalar {
    let a = fadd(vdot(t.lin, t.lin), fmul(t.ang.x, t.ang.x));
    fsqrt(fadd(fadd(a, fmul(t.ang.y, t.ang.y)), fmul(t.ang.z, t.ang.z)))
}

pub fn norm_of_twist(t: Twist) -> (r: Scalar)
    ensures
        r == twist_norm(t),
{
    let a = t.lin.dot(t.lin).add(t.ang.x.mul(t.ang.x));
    a.add(t.ang.y.mul(t.ang.y)).add(t.ang.z.mul(t.ang.z)).sqrt()
}

/// Damping for singular values: none above the threshold, more toward a singularity,
/// and never below the floor.
pub open spec fn damping(sv: Seq<Scalar>, most: Scalar, floor: Scalar, thresh: Scalar) -> Scalar {
    let w = product(sv, sv.len());
    let lack = fsub(Scalar { bits: ONE_BITS }, fdiv(w, thresh));
    fmax(
        if fle(thresh, w) {
            Scalar { bits: 0 }
        } else {
            fmul(most, fmul(lack, lack))
        },
        floor,
    )
}

pub fn damping_for(sv: &Vec<Scalar>, most: Scalar, floor: Scalar, thresh: Scalar) -> (r: Scalar)
    ensures
        r == damping(sv@, most, floor, thresh),
{
    let w = product_of(sv);
    let base = if w.ge(thresh) {
        Scalar { bits: 0 }
    } else {
        let lack = Scalar { bits: ONE_BITS }.sub(w.div(thresh));
        most.mul(lack.mul(lack))
    };
    base.max(floor)
}

/// The largest of the first `n` magnitudes.
pub open spec fn largest(s: Seq<Scalar>, n: nat) -> Scalar
    decreases n,
{
    if n == 0 {
        Scalar { bits: 0 }
    } else if n == 1 {
        fabs(s[0])
    } else {
        lane_max(largest(s, (n - 1) as nat), fabs(s[n - 1]))
    }
}

fn largest_of(s: &Vec<Scalar>) -> (r: Scalar)
    ensures
        r == largest(s@, s@.len()),
{
    if s.len() == 0 {
        return Scalar { bits: 0 };
    }
    let mut m = s[0].abs();
    let mut i: usize = 1;
    while i < s.len()
        invariant
            1 <= i <= s.len(),
            m == largest(s@, i as nat),
        decreases s.len() - i,
    {
        m = lane_greater(m, s[i].abs());
        i = i + 1;
    }
    m
}

/// Pairs of bounds, one per joint, each in order.
pub open spec fn in_order(b: Seq<(Scalar, Scalar)>) -> bool {
    forall|i: int| 0 <= i < b.len() ==> fle((#[trigger] b[i]).0, b[i].1)
}

/// A configuration moved into its bounds.
pub open spec fn boxed(q: Seq<Scalar>, b: Seq<(Scalar, Scalar)>) -> Seq<Scalar> {
    Seq::new(q.len(), |i: int| fclamp(q[i], b[i].0, b[i].1))
}

/// A configuration after a step that is held to `limit` and to the bounds.
pub open spec fn stepped(
    q: Seq<Scalar>,
    dq: Seq<Scalar>,
    limit: Scalar,
    b: Seq<(Scalar, Scalar)>,
) -> Seq<Scalar> {
    let m = largest(dq, dq.len());
    let scale = fdiv(limit, m);
    Seq::new(
        q.len(),
        |i: int|
            fclamp(
                fadd(
                    q[i],
                    if flt(limit, m) {
                        fmul(dq[i], scale)
                    } else {
                        dq[i]
                    },
                ),
                b[i].0,
                b[i].1,
            ),
    )
}

/// The tool is where it should be.
pub open spec fn arrived(t: Twist, o: IkOpts) -> bool {
    flt(vnorm(t.lin), o.tol_pos) && flt(vnorm(t.ang), o.tol_rot)
}

/// One configuration later.
pub open spec fn next_config(
    a: ArmV,
    q: Seq<Scalar>,
    b: Seq<(Scalar, Scalar)>,
    o: IkOpts,
) -> Seq<Scalar> {
    let l = damping((a.values)(q), o.lambda0_sq, o.lambda_floor_sq, o.w_thresh);
    stepped(q, (a.step)(q, l), o.step_clamp, b)
}

/// Where an attempt ends that is at `q` after `it` steps.
pub open spec fn attempted(
    a: ArmV,
    q: Seq<Scalar>,
    b: Seq<(Scalar, Scalar)>,
    o: IkOpts,
    restart: nat,
    it: nat,
) -> ResultV
    decreases o.max_iters - it,
{
    if it >= o.max_iters {
        ResultV {
            success: false,
            q,
            residual: twist_norm((a.error)(q)),
            iters: o.max_iters as nat,
            restarts: restart,
        }
    } else if !all_finite(q) {
        ResultV {
            success: false,
            q,
            residual: Scalar { bits: INFINITY_BITS },
            iters: it,
            restarts: restart,
        }
    } else if arrived((a.error)(q), o) {
        ResultV {
            success: true,
            q,
            residual: twist_norm((a.error)(q)),
            iters: it,
            restarts: restart,
        }
    } else {
        attempted(a, next_config(a, q, b, o), b, o, restart, it + 1)
    }
}

/// The bounds of each joint.
pub open spec fn ranges_of(limits: Seq<Option<(Scalar, Scalar)>>) -> Seq<(Scalar, Scalar)> {
    Seq::new(
        limits.len(),
        |i: int|
            match limits[i] {
                Some(b) => b,
                None => (
                    Scalar { bits: MINUS_UNBOUNDED_BITS },
                    Scalar { bits: UNBOUNDED_BITS },
                ),
            },
    )
}

/// Where a joint starts anew: within its bounds, or within a turn if it has none.
pub open spec fn start_range(b: (Scalar, Scalar)) -> (Scalar, Scalar) {
    if fle(b.0, Scalar { bits: OPEN_BELOW_BITS }) {
        (Scalar { bits: MINUS_PI_BITS }, Scalar { bits: PI_BITS })
    } else {
        b
    }
}

/// The first `n` joints of a fresh start, and the state of the generator afterwards.
pub open spec fn fresh(s: u64, b: Seq<(Scalar, Scalar)>, n: nat) -> (Seq<Scalar>, u64)
    decreases n,
{
    if n == 0 {
        (Seq::empty(), s)
    } else {
        let (q, t) = fresh(s, b, (n - 1) as nat);
        let u = advanced(t);
        let (lo, hi) = start_range(b[n - 1]);
        (q.push(fadd(lo, fmul(unit_of(u), fsub(hi, lo)))), u)
    }
}

/// The better of the best attempt so far and another one.
pub open spec fn better(best: Option<ResultV>, r: ResultV) -> ResultV {
    match best {
        None => r,
        Some(x) => if flt(r.residual, x.residual) {
            r
        } else {
            x
        },
    }
}

/// Attempts from number `k` on: the first that arrives, else the one that came nearest.
pub open spec fn tried(
    a: ArmV,
    seed: Seq<Scalar>,
    b: Seq<(Scalar, Scalar)>,
    o: IkOpts,
    s: u64,
    best: Option<ResultV>,
    k: nat,
    total: nat,
) -> Option<ResultV>
    decreases total - k,
{
    if k >= total {
        best
    } else {
        let (q, t) = if k == 0 {
            (seed, s)
        } else {
            fresh(s, b, b.len())
        };
        let r = attempted(a, boxed(q, b), b, o, k, 0);
        if r.success {
            Some(r)
        } else {
            tried(a, seed, b, o, t, Some(better(best, r)), k + 1, total)
        }
    }
}

/// At least one attempt is made.
pub open spec fn attempts(o: IkOpts) -> nat {
    if o.restarts < 1 {
        1
    } else {
        o.restarts as nat
    }
}

/// What the solver gives.
pub open spec fn solved(
    a: ArmV,
    limits: Seq<Option<(Scalar, Scalar)>>,
    seed: Seq<Scalar>,
    o: IkOpts,
) -> Option<ResultV> {
    if seed.len() != limits.len() {
        Some(
            ResultV {
                success: false,
                q: zero_seq(limits.len()),
                residual: Scalar { bits: INFINITY_BITS },
                iters: 0,
                restarts: 0,
            },
        )
    } else {
        tried(a, seed, ranges_of(limits), o, o.seed_rng, None, 0, attempts(o))
    }
}

fn box_config(q: &Vec<Scalar>, b: &Vec<(Scalar, Scalar)>) -> (r: Vec<Scalar>)
    requires
        q@.len() == b@.len(),
        in_order(b@),
    ensures
        r@ == boxed(q@, b@),
{
    let mut out: Vec<Scalar> = Vec::new();
    let mut i: usize = 0;
    while i < q.len()
        invariant
            i <= q.len(),
            q@.len() == b@.len(),
            in_order(b@),
            out.len() == i,
            forall|k: int| 0 <= k < i ==> #[trigger] out@[k] == boxed(q@, b@)[k],
        decreases q.len() - i,
    {
        let (lo, hi) = b[i];
        assert(fle(b@[i as int].0, b@[i as int].1));
        out.push(q[i].clamp(lo, hi));
        i = i + 1;
    }
    assert(out@ =~= boxed(q@, b@));
    out
}

fn take_step(q: &Vec<Scalar>, dq: &Vec<Scalar>, limit: Scalar, b: &Vec<(Scalar, Scalar)>) -> (r:
    Vec<Scalar>)
    requires
        q@.len() == b@.len(),
        dq@.len() == q@.len(),
        in_order(b@),
    ensures
        r@ == stepped(q@, dq@, limit, b@),
{
    let m = largest_of(dq);
    let over = m.gt(limit);
    let scale = limit.div(m);
    let mut out: Vec<Scalar> = Vec::new();
    let mut i: usize = 0;
    while i < q.len()
        invariant
            i <= q.len(),
            q@.len() == b@.len(),
            dq@.len() == q@.len(),
            in_order(b@),
            m == largest(dq@, dq@.len()),
            over == flt(limit, m),
            scale == fdiv(limit, m),
            out.len() == i,
            forall|k: int| 0 <= k < i ==> #[trigger] out@[k] == stepped(q@, dq@, limit, b@)[k],
        decreases q.len() - i,
    {
        let (lo, hi) = b[i];
        assert(fle(b@[i as int].0, b@[i as int].1));
        let d = if over {
            dq[i].mul(scale)
        } else {
            dq[i]
        };
        out.push(q[i].add(d).clamp(lo, hi));
        i = i + 1;
    }
    assert(out@ =~= stepped(q@, dq@, limit, b@));
    out
}

/// One attempt from `q`.
pub fn solve_one<
    E: Fn(&[Scalar]) -> Twist,
    S: Fn(&[Scalar]) -> Vec<Scalar>,
    D: Fn(&[Scalar], Scalar) -> Vec<Scalar>,
>(
    arm: &Arm<E, S, D>,
    q: Vec<Scalar>,
    bounds: &Vec<(Scalar, Scalar)>,
    opts: &IkOpts,
    restart: usize,
) -> (r: IkResult)
    requires
        arm.usable(),
        q@.len() == bounds@.len(),
        in_order(bounds@),
    ensures
        forall|a: ArmV| #[trigger]
            arm.answers(a) ==> r@ == attempted(a, q@, bounds@, *opts, restart as nat, 0),
        r.q@.len() == q@.len(),
{
    let ghost q0 = q@;
    let mut at = q;
    let mut it: usize = 0;
    while it < opts.max_iters
        invariant
            it <= opts.max_iters,
            arm.usable(),
            q0 == q@,
            at@.len() == q0.len(),
            at@.len() == bounds@.len(),
            in_order(bounds@),
            forall|a: ArmV| #[trigger]
                arm.answers(a) ==> attempted(a, q0, bounds@, *opts, restart as nat, 0)
                    == attempted(a, at@, bounds@, *opts, restart as nat, it as nat),
        decreases opts.max_iters - it,
    {
        match check_finite("q", at.as_slice()) {
            Ok(_) => {},
            Err(_) => {
                return IkResult {
                    success: false,
                    q: at,
                    residual: Scalar { bits: INFINITY_BITS },
                    iters: it,
                    restarts_used: restart,
                };
            },
        }
        let error = (arm.error)(at.as_slice());
        if error.lin.norm().lt(opts.tol_pos) && error.ang.norm().lt(opts.tol_rot) {
            return IkResult {
                success: true,
                q: at,
                residual: norm_of_twist(error),
                iters: it,
                restarts_used: restart,
            };
        }
        let sv = (arm.values)(at.as_slice());
        let l = damping_for(&sv, opts.lambda0_sq, opts.lambda_floor_sq, opts.w_thresh);
        let dq = (arm.step)(at.as_slice(), l);
        let next = take_step(&at, &dq, opts.step_clamp, bounds);
        proof {
            assert forall|a: ArmV| #[trigger] arm.answers(a) implies attempted(
                a,
                q0,
                bounds@,
                *opts,
                restart as nat,
                0,
            ) == attempted(a, next@, bounds@, *opts, restart as nat, (it + 1) as nat) by {
                assert(error == (a.error)(at@));
                assert(sv@ == (a.values)(at@));
                assert(dq@ == (a.step)(at@, l));
                assert(next@ == next_config(a, at@, bounds@, *opts));
            }
        }
        at = next;
        it = it + 1;
    }
    let error = (arm.error)(at.as_slice());
    IkResult {
        success: false,
        q: at,
        residual: norm_of_twist(error),
        iters: opts.max_iters,
        restarts_used: restart,
    }
}

proof fn lemma_open_range()
    ensures
        fle(Scalar { bits: MINUS_UNBOUNDED_BITS }, Scalar { bits: UNBOUNDED_BITS }),
{
}

fn joint_ranges(model: &Model) -> (r: Vec<(Scalar, Scalar)>)
    requires
        limits_ordered(model.limits@),
    ensures
        r@ == ranges_of(model.limits@),
        in_order(r@),
{
    proof {
        lemma_open_range();
    }
    let mut out: Vec<(Scalar, Scalar)> = Vec::new();
    let mut i: usize = 0;
    while i < model.limits.len()
        invariant
            i <= model.limits.len(),
            limits_ordered(model.limits@),
            out.len() == i,
            in_order(out@),
            fle(Scalar { bits: MINUS_UNBOUNDED_BITS }, Scalar { bits: UNBOUNDED_BITS }),
            forall|k: int| 0 <= k < i ==> #[trigger] out@[k] == ranges_of(model.limits@)[k],
        decreases model.limits.len() - i,
    {
        assert(match model.limits@[i as int] {
            Some((lo, hi)) => fle(lo, hi),
            None => true,
        });
        out.push(
            match model.limits[i] {
                Some(b) => b,
                None => (
                    Scalar { bits: MINUS_UNBOUNDED_BITS },
                    Scalar { bits: UNBOUNDED_BITS },
                ),
            },
        );
        i = i + 1;
    }
    assert(out@ =~= ranges_of(model.limits@));
    out
}

fn random_in_limits(b: &Vec<(Scalar, Scalar)>, rng: &mut Rng) -> (r: Vec<Scalar>)
    ensures
        (r@, final(rng).state) == fresh(old(rng).state, b@, b@.len()),
        r@.len() == b@.len(),
{
    let ghost s = rng.state;
    let mut q: Vec<Scalar> = Vec::new();
    let mut i: usize = 0;
    while i < b.len()
        invariant
            i <= b.len(),
            q.len() == i,
            (q@, rng.state) == fresh(s, b@, i as nat),
        decreases b.len() - i,
    {
        let (l, h) = b[i];
        let (lo, hi) = if l.le(Scalar { bits: OPEN_BELOW_BITS }) {
            (Scalar { bits: MINUS_PI_BITS }, Scalar { bits: PI_BITS })
        } else {
            (l, h)
        };
        let u = rng.unit();
        q.push(lo.add(u.mul(hi.sub(lo))));
        i = i + 1;
    }
    q
}

/// Looks for a configuration that brings the tool to its target, from `seed` and then
/// from fresh starts.
pub fn ik<
    E: Fn(&[Scalar]) -> Twist,
    S: Fn(&[Scalar]) -> Vec<Scalar>,
    D: Fn(&[Scalar], Scalar) -> Vec<Scalar>,
>(model: &Model, arm: &Arm<E, S, D>, seed: &[Scalar], opts: &IkOpts) -> (r: IkResult)
    requires
        arm.usable(),
        model.wf(),
        limits_ordered(model.limits@),
    ensures
        forall|a: ArmV| #[trigger]
            arm.answers(a) ==> Some(r@) == solved(a, model.limits@, seed@, *opts),
        r.q@.len() == model.ndof,
        seed@.len() != model.ndof ==> r@ == (ResultV {
            success: false,
            q: zero_seq(model.ndof as nat),
            residual: Scalar { bits: INFINITY_BITS },
            iters: 0,
            restarts: 0,
        }),
{
    if seed.len() != model.ndof {
        return IkResult {
            success: false,
            q: zeros(model.ndof),
            residual: Scalar { bits: INFINITY_BITS },
            iters: 0,
            restarts_used: 0,
        };
    }
    let bounds = joint_ranges(model);
    let mut rng = Rng::new(opts.seed_rng);
    let start = copy_scalars(seed);
    let q0 = box_config(&start, &bounds);
    let mut best = solve_one(arm, q0, &bounds, opts, 0);
    if best.success {
        return best;
    }
    let total: usize = if opts.restarts < 1 {
        1
    } else {
        opts.restarts
    };
    let ghost b = bounds@;
    let ghost o = *opts;
    proof {
        assert forall|a: ArmV| #[trigger] arm.answers(a) implies solved(
            a,
            model.limits@,
            seed@,
            o,
        ) == tried(a, seed@, b, o, rng.state, Some(best@), 1, total as nat) by {
            assert(best@ == attempted(a, boxed(seed@, b), b, o, 0, 0));
            assert(better(None, best@) == best@);
        }
    }
    let mut k: usize = 1;
    while k < total
        invariant
            1 <= k <= total,
            total as nat == attempts(o),
            arm.usable(),
            b == bounds@,
            o == *opts,
            in_order(b),
            bounds@.len() == model.ndof,
            seed@.len() == model.ndof,
            best.q@.len() == model.ndof,
            forall|a: ArmV| #[trigger]
                arm.answers(a) ==> solved(a, model.limits@, seed@, o) == tried(
                    a,
                    seed@,
                    b,
                    o,
                    rng.state,
                    Some(best@),
                    k as nat,
                    total as nat,
                ),
        decreases total - k,
    {
        let ghost s0 = rng.state;
        let ghost before = best@;
        let raw = random_in_limits(&bounds, &mut rng);
        let q = box_config(&raw, &bounds);
        let res = solve_one(arm, q, &bounds, opts, k);
        proof {
            assert forall|a: ArmV| #[trigger] arm.answers(a) implies solved(
                a,
                model.limits@,
                seed@,
                o,
            ) == (if res.success {
                Some(res@)
            } else {
                tried(
                    a,
                    seed@,
                    b,
                    o,
                    rng.state,
                    Some(better(Some(before), res@)),
                    (k + 1) as nat,
                    total as nat,
                )
            }) by {
                assert(res@ == attempted(a, boxed(raw@, b), b, o, k as nat, 0));
                assert((raw@, rng.state) == fresh(s0, b, b.len()));
            }
        }
        if res.success {
            return res;
        }
        if res.residual.lt(best.residual) {
            best = res;
        }
        k = k + 1;
    }
    best
}

// ---- laws ----

/// An attempt that succeeds ends within tolerance of the target.
pub proof fn law_success_is_arrival(
    a: ArmV,
    q: Seq<Scalar>,
    b: Seq<(Scalar, Scalar)>,
    o: IkOpts,
    restart: nat,
    it: nat,
)
    ensures
        attempted(a, q, b, o, restart, it).success ==> arrived(
            (a.error)(attempted(a, q, b, o, restart, it).q),
            o,
        ) && all_finite(attempted(a, q, b, o, restart, it).q),
    decreases o.max_iters - it,
{
    if it < o.max_iters && all_finite(q) && !arrived((a.error)(q), o) {
        law_success_is_arrival(a, next_config(a, q, b, o), b, o, restart, it + 1);
    }
}

proof fn lemma_tried(
    a: ArmV,
    seed: Seq<Scalar>,
    b: Seq<(Scalar, Scalar)>,
    o: IkOpts,
    s: u64,
    best: Option<ResultV>,
    k: nat,
    total: nat,
)
    requires
        best matches Some(x) ==> !x.success,
    ensures
        tried(a, seed, b, o, s, best, k, total) matches Some(r) ==> (r.success ==> arrived(
            (a.error)(r.q),
            o,
        ) && all_finite(r.q)),
    decreases total - k,
{
    if k < total {
        let (q, t) = if k == 0 {
            (seed, s)
        } else {
            fresh(s, b, b.len())
        };
        let r = attempted(a, boxed(q, b), b, o, k, 0);
        law_success_is_arrival(a, boxed(q, b), b, o, k, 0);
        if !r.success {
            lemma_tried(a, seed, b, o, t, Some(better(best, r)), k + 1, total);
        }
    }
}

/// A solution is a finite configuration that brings the tool within tolerance of its
/// target.
pub proof fn law_solution_reaches_target(
    a: ArmV,
    limits: Seq<Option<(Scalar, Scalar)>>,
    seed: Seq<Scalar>,
    o: IkOpts,
)
    ensures
        solved(a, limits, seed, o) matches Some(r) ==> (r.success ==> arrived((a.error)(r.q), o)
            && all_finite(r.q)),
{
    if seed.len() == limits.len() {
        lemma_tried(a, seed, ranges_of(limits), o, o.seed_rng, None, 0, attempts(o));
    }
}

/// Every number of a configuration, where it is one, is within its bounds.
pub open spec fn held_within(q: Seq<Scalar>, b: Seq<(Scalar, Scalar)>) -> bool {
    &&& q.len() == b.len()
    &&& forall|i: int|
        0 <= i < q.len() ==> (#[trigger] q[i]).nan() || (fle(b[i].0, q[i]) && fle(q[i], b[i].1))
}

proof fn lemma_attempt_within(
    a: ArmV,
    q: Seq<Scalar>,
    b: Seq<(Scalar, Scalar)>,
    o: IkOpts,
    restart: nat,
    it: nat,
)
    requires
        in_order(b),
        held_within(q, b),
    ensures
        held_within(attempted(a, q, b, o, restart, it).q, b),
    decreases o.max_iters - it,
{
    if it < o.max_iters && all_finite(q) && !arrived((a.error)(q), o) {
        let next = next_config(a, q, b, o);
        assert forall|i: int| 0 <= i < next.len() implies (#[trigger] next[i]).nan() || (fle(
            b[i].0,
            next[i],
        ) && fle(next[i], b[i].1)) by {
            assert(fle(b[i].0, b[i].1));
        }
        lemma_attempt_within(a, next, b, o, restart, it + 1);
    }
}

proof fn lemma_fresh_len(s: u64, b: Seq<(Scalar, Scalar)>, n: nat)
    ensures
        fresh(s, b, n).0.len() == n,
    decreases n,
{
    if n > 0 {
        lemma_fresh_len(s, b, (n - 1) as nat);
    }
}

proof fn lemma_tried_within(
    a: ArmV,
    seed: Seq<Scalar>,
    b: Seq<(Scalar, Scalar)>,
    o: IkOpts,
    s: u64,
    best: Option<ResultV>,
    k: nat,
    total: nat,
)
    requires
        in_order(b),
        seed.len() == b.len(),
        best matches Some(x) ==> held_within(x.q, b),
    ensures
        tried(a, seed, b, o, s, best, k, total) matches Some(r) ==> held_within(r.q, b),
    decreases total - k,
{
    if k < total {
        lemma_fresh_len(s, b, b.len());
        let (q, t) = if k == 0 {
            (seed, s)
        } else {
            fresh(s, b, b.len())
        };
        let start = boxed(q, b);
        assert forall|i: int| 0 <= i < start.len() implies (#[trigger] start[i]).nan() || (fle(
            b[i].0,
            start[i],
        ) && fle(start[i], b[i].1)) by {
            assert(fle(b[i].0, b[i].1));
        }
        lemma_attempt_within(a, start, b, o, k, 0);
        let r = attempted(a, start, b, o, k, 0);
        if !r.success {
            lemma_tried_within(a, seed, b, o, t, Some(better(best, r)), k + 1, total);
        }
    }
}

/// A solution keeps every joint within its limits, and has one number for each joint.
pub proof fn law_solution_keeps_limits(
    a: ArmV,
    limits: Seq<Option<(Scalar, Scalar)>>,
    seed: Seq<Scalar>,
    o: IkOpts,
    i: int,
)
    requires
        in_order(ranges_of(limits)),
        0 <= i < limits.len(),
    ensures
        solved(a, limits, seed, o) matches Some(r) ==> (r.success ==> r.q.len() == limits.len()
            && match limits[i] {
            Some((lo, hi)) => fle(lo, r.q[i]) && fle(r.q[i], hi),
            None => true,
        }),
{
    law_solution_reaches_target(a, limits, seed, o);
    if seed.len() == limits.len() {
        let b = ranges_of(limits);
        lemma_tried_within(a, seed, b, o, o.seed_rng, None, 0, attempts(o));
        match solved(a, limits, seed, o) {
            Some(r) => {
                if r.success {
                    assert(r.q[i].finite());
                }
            },
            None => {},
        }
    }
}

} // verus!
