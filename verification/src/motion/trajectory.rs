//! Trajectories: closed-form for joint moves, knots on a uniform grid for the rest.

use vstd::prelude::*;

use crate::hal::backend::copy_scalars;
use crate::motion::limits::MotionLimits;
#[allow(unused_imports)]
use crate::motion::limits::LimitsV;
use crate::motion::scurve::{hold_in, ScurveProfile};
#[allow(unused_imports)]
use crate::motion::scurve::{held_in, profile_at, ProfileV};
use crate::scalar::consts::{MINUS_TWO_BITS, ONE_BITS, THREE_BITS, TWO_BITS};
#[allow(unused_imports)]
use crate::scalar::convert::{floor_int, from_int, saturated};
#[allow(unused_imports)]
use crate::scalar::number::{fadd, fdiv, fmul, fsub};
use crate::scalar::Scalar;

verus! {

/// How a trajectory came about.
#[derive(Clone, Copy, Debug, PartialEq, Eq, Structural)]
pub enum TrajKind {
    MoveJ,
    MoveL,
    MoveC,
    /// A planned path, retimed onto a grid.
    Plan,
}

/// Positions, velocities and accelerations at one time.
#[derive(Debug)]
pub struct TrajState {
    pub q: Vec<Scalar>,
    pub qd: Vec<Scalar>,
    pub qdd: Vec<Scalar>,
}

/// `TrajState` over sequences.
#[verifier::ext_equal]
pub struct StateV {
    pub q: Seq<Scalar>,
    pub qd: Seq<Scalar>,
    pub qdd: Seq<Scalar>,
}

impl View for TrajState {
    type V = StateV;

    open spec fn view(&self) -> StateV {
        StateV { q: self.q@, qd: self.qd@, qdd: self.qdd@ }
    }
}

/// A trajectory of all joints on one clock.
#[derive(Debug)]
pub struct Trajectory {
    kind: TrajKind,
    ndof: usize,
    duration: Scalar,
    limits: MotionLimits,
    completed: bool,
    reached: Scalar,
    q0: Vec<Scalar>,
    profiles: Vec<ScurveProfile>,
    dt: Scalar,
    knots_q: Vec<Vec<Scalar>>,
    knots_qd: Vec<Vec<Scalar>>,
    knots_qdd: Vec<Vec<Scalar>>,
}

/// `Trajectory` over sequences.
#[verifier::ext_equal]
pub struct TrajV {
    pub kind: TrajKind,
    pub ndof: nat,
    pub duration: Scalar,
    pub limits: LimitsV,
    pub completed: bool,
    pub reached: Scalar,
    pub q0: Seq<Scalar>,
    pub profiles: Seq<ProfileV>,
    pub dt: Scalar,
    pub q: Seq<Seq<Scalar>>,
    pub qd: Seq<Seq<Scalar>>,
    pub qdd: Seq<Seq<Scalar>>,
}

pub open spec fn rows_of(v: Seq<Vec<Scalar>>) -> Seq<Seq<Scalar>> {
    Seq::new(v.len(), |i: int| v[i]@)
}

pub open spec fn profiles_of(v: Seq<ScurveProfile>) -> Seq<ProfileV> {
    Seq::new(v.len(), |i: int| v[i]@)
}

/// Every row has `n` entries.
pub open spec fn all_wide(rows: Seq<Vec<Scalar>>, n: nat) -> bool {
    forall|k: int| 0 <= k < rows.len() ==> (#[trigger] rows[k])@.len() == n
}

impl View for Trajectory {
    type V = TrajV;

    closed spec fn view(&self) -> TrajV {
        TrajV {
            kind: self.kind,
            ndof: self.ndof as nat,
            duration: self.duration,
            limits: self.limits@,
            completed: self.completed,
            reached: self.reached,
            q0: self.q0@,
            profiles: profiles_of(self.profiles@),
            dt: self.dt,
            q: rows_of(self.knots_q@),
            qd: rows_of(self.knots_qd@),
            qdd: rows_of(self.knots_qdd@),
        }
    }
}

/// A joint move of given profiles.
pub open spec fn joint_move(
    q0: Seq<Scalar>,
    profiles: Seq<ProfileV>,
    duration: Scalar,
    limits: LimitsV,
) -> TrajV {
    TrajV {
        kind: TrajKind::MoveJ,
        ndof: q0.len(),
        duration,
        limits,
        completed: true,
        reached: Scalar { bits: ONE_BITS },
        q0,
        profiles,
        dt: Scalar { bits: 0 },
        q: Seq::empty(),
        qd: Seq::empty(),
        qdd: Seq::empty(),
    }
}

/// A trajectory through knots that are `dt` apart.
pub open spec fn knotted(
    kind: TrajKind,
    dt: Scalar,
    q: Seq<Seq<Scalar>>,
    qd: Seq<Seq<Scalar>>,
    qdd: Seq<Seq<Scalar>>,
    limits: LimitsV,
    completed: bool,
    reached: Scalar,
) -> TrajV {
    TrajV {
        kind,
        ndof: if q.len() == 0 {
            0
        } else {
            q[0].len()
        },
        duration: if q.len() == 0 {
            Scalar { bits: 0 }
        } else {
            fmul(from_int(q.len() - 1), dt)
        },
        limits,
        completed,
        reached,
        q0: Seq::empty(),
        profiles: Seq::empty(),
        dt,
        q,
        qd,
        qdd,
    }
}

/// The cubic Hermite weights.
pub open spec fn hermite_weights(t: Scalar) -> (Scalar, Scalar, Scalar, Scalar) {
    let two = Scalar { bits: TWO_BITS };
    let three = Scalar { bits: THREE_BITS };
    let t2 = fmul(t, t);
    let t3 = fmul(t2, t);
    (
        fadd(fsub(fmul(two, t3), fmul(three, t2)), Scalar { bits: ONE_BITS }),
        fadd(fsub(t3, fmul(two, t2)), t),
        fadd(fmul(Scalar { bits: MINUS_TWO_BITS }, t3), fmul(three, t2)),
        fsub(t3, t2),
    )
}

/// A value between two, at a fraction.
pub open spec fn mixed(a: Scalar, b: Scalar, frac: Scalar) -> Scalar {
    fadd(fmul(fsub(Scalar { bits: ONE_BITS }, frac), a), fmul(frac, b))
}

/// A position between two knots.
pub open spec fn hermite_at(
    frac: Scalar,
    h: Scalar,
    p0: Scalar,
    p1: Scalar,
    v0: Scalar,
    v1: Scalar,
) -> Scalar {
    let (h00, h10, h01, h11) = hermite_weights(frac);
    fadd(
        fadd(fadd(fmul(h00, p0), fmul(h10, fmul(v0, h))), fmul(h01, p1)),
        fmul(h11, fmul(v1, h)),
    )
}

/// The state between knots. The last knot holds from the end on.
pub open spec fn knots_at(x: TrajV, t: Scalar) -> StateV {
    let n = x.q.len();
    let tt = held_in(t, Scalar { bits: 0 }, x.duration);
    let k = saturated(fdiv(tt, x.dt), floor_int(fdiv(tt, x.dt)), 0, usize::MAX as int);
    let frac = fdiv(fsub(tt, fmul(from_int(k), x.dt)), x.dt);
    if n == 0 {
        StateV { q: Seq::empty(), qd: Seq::empty(), qdd: Seq::empty() }
    } else if k >= n - 1 {
        StateV { q: x.q[n - 1], qd: x.qd[n - 1], qdd: x.qdd[n - 1] }
    } else {
        StateV {
            q: Seq::new(
                x.ndof,
                |i: int|
                    hermite_at(
                        frac,
                        x.dt,
                        x.q[k][i],
                        x.q[k + 1][i],
                        x.qd[k][i],
                        x.qd[k + 1][i],
                    ),
            ),
            qd: Seq::new(x.ndof, |i: int| mixed(x.qd[k][i], x.qd[k + 1][i], frac)),
            qdd: Seq::new(x.ndof, |i: int| mixed(x.qdd[k][i], x.qdd[k + 1][i], frac)),
        }
    }
}

/// The state at a time.
pub open spec fn state_at(x: TrajV, t: Scalar) -> StateV {
    match x.kind {
        TrajKind::MoveJ => StateV {
            q: Seq::new(x.ndof, |i: int| fadd(x.q0[i], profile_at(x.profiles[i], t).0)),
            qd: Seq::new(x.ndof, |i: int| profile_at(x.profiles[i], t).1),
            qdd: Seq::new(x.ndof, |i: int| profile_at(x.profiles[i], t).2),
        },
        _ => knots_at(x, t),
    }
}

/// Time of sample `k` of `n`.
pub open spec fn grid_time(duration: Scalar, n: int, k: int) -> Scalar {
    fdiv(fmul(duration, from_int(k)), from_int(n - 1))
}

fn hermite(t: Scalar) -> (r: (Scalar, Scalar, Scalar, Scalar))
    ensures
        r == hermite_weights(t),
{
    let two = Scalar { bits: TWO_BITS };
    let three = Scalar { bits: THREE_BITS };
    let t2 = t.mul(t);
    let t3 = t2.mul(t);
    (
        two.mul(t3).sub(three.mul(t2)).add(Scalar { bits: ONE_BITS }),
        t3.sub(two.mul(t2)).add(t),
        Scalar { bits: MINUS_TWO_BITS }.mul(t3).add(three.mul(t2)),
        t3.sub(t2),
    )
}

fn mix(a: Scalar, b: Scalar, frac: Scalar) -> (r: Scalar)
    ensures
        r == mixed(a, b, frac),
{
    Scalar { bits: ONE_BITS }.sub(frac).mul(a).add(frac.mul(b))
}

impl Trajectory {
    #[verifier::type_invariant]
    spec fn valid(&self) -> bool {
        &&& self.kind == TrajKind::MoveJ ==> self.q0@.len() == self.ndof && self.profiles@.len()
            == self.ndof
        &&& self.knots_qd@.len() == self.knots_q@.len()
        &&& self.knots_qdd@.len() == self.knots_q@.len()
        &&& all_wide(self.knots_q@, self.ndof as nat)
        &&& all_wide(self.knots_qd@, self.ndof as nat)
        &&& all_wide(self.knots_qdd@, self.ndof as nat)
    }

    /// A joint move of given profiles.
    pub fn from_profiles(
        q0: Vec<Scalar>,
        profiles: Vec<ScurveProfile>,
        duration: Scalar,
        limits: MotionLimits,
    ) -> (r: Trajectory)
        requires
            profiles@.len() == q0@.len(),
        ensures
            r@ == joint_move(q0@, profiles_of(profiles@), duration, limits@),
    {
        let r = Trajectory {
            kind: TrajKind::MoveJ,
            ndof: q0.len(),
            duration,
            limits,
            completed: true,
            reached: Scalar { bits: ONE_BITS },
            q0,
            profiles,
            dt: Scalar { bits: 0 },
            knots_q: Vec::new(),
            knots_qd: Vec::new(),
            knots_qdd: Vec::new(),
        };
        assert(r@ =~= joint_move(q0@, profiles_of(profiles@), duration, limits@));
        r
    }

    /// A trajectory through knots.
    pub fn from_knots(
        kind: TrajKind,
        dt: Scalar,
        q: Vec<Vec<Scalar>>,
        qd: Vec<Vec<Scalar>>,
        qdd: Vec<Vec<Scalar>>,
        limits: MotionLimits,
        completed: bool,
        reached: Scalar,
    ) -> (r: Trajectory)
        requires
            kind != TrajKind::MoveJ,
            qd@.len() == q@.len(),
            qdd@.len() == q@.len(),
            q@.len() > 0 ==> all_wide(q@, q@[0]@.len()) && all_wide(qd@, q@[0]@.len())
                && all_wide(qdd@, q@[0]@.len()),
        ensures
            r@ == knotted(
                kind,
                dt,
                rows_of(q@),
                rows_of(qd@),
                rows_of(qdd@),
                limits@,
                completed,
                reached,
            ),
    {
        let ndof: usize = if q.len() == 0 {
            0
        } else {
            q[0].len()
        };
        let duration = if q.len() == 0 {
            Scalar { bits: 0 }
        } else {
            Scalar::from_usize(q.len() - 1).mul(dt)
        };
        let r = Trajectory {
            kind,
            ndof,
            duration,
            limits,
            completed,
            reached,
            q0: Vec::new(),
            profiles: Vec::new(),
            dt,
            knots_q: q,
            knots_qd: qd,
            knots_qdd: qdd,
        };
        assert(r@ =~= knotted(
            kind,
            dt,
            rows_of(q@),
            rows_of(qd@),
            rows_of(qdd@),
            limits@,
            completed,
            reached,
        ));
        r
    }

    pub fn kind(&self) -> (r: TrajKind)
        ensures
            r == self@.kind,
    {
        self.kind
    }

    pub fn ndof(&self) -> (r: usize)
        ensures
            r == self@.ndof,
    {
        self.ndof
    }

    pub fn duration(&self) -> (r: Scalar)
        ensures
            r == self@.duration,
    {
        self.duration
    }

    pub fn limits(&self) -> (r: &MotionLimits)
        ensures
            r@ == self@.limits,
    {
        &self.limits
    }

    /// Whether the whole path was realized.
    pub fn completed(&self) -> (r: bool)
        ensures
            r == self@.completed,
    {
        self.completed
    }

    /// What part of the path was realized.
    pub fn reached(&self) -> (r: Scalar)
        ensures
            r == self@.reached,
    {
        self.reached
    }

    fn sample_joints(&self, t: Scalar) -> (r: TrajState)
        requires
            self@.kind == TrajKind::MoveJ,
        ensures
            r@ == state_at(self@, t),
    {
        proof {
            use_type_invariant(self);
        }
        let mut q: Vec<Scalar> = Vec::new();
        let mut qd: Vec<Scalar> = Vec::new();
        let mut qdd: Vec<Scalar> = Vec::new();
        let ghost x = self@;
        let mut i: usize = 0;
        while i < self.ndof
            invariant
                i <= self.ndof,
                x == self@,
                self.q0@.len() == self.ndof,
                self.profiles@.len() == self.ndof,
                q.len() == i,
                qd.len() == i,
                qdd.len() == i,
                forall|k: int|
                    0 <= k < i ==> #[trigger] q@[k] == fadd(
                        x.q0[k],
                        profile_at(x.profiles[k], t).0,
                    ),
                forall|k: int| 0 <= k < i ==> #[trigger] qd@[k] == profile_at(x.profiles[k], t).1,
                forall|k: int| 0 <= k < i ==> #[trigger] qdd@[k] == profile_at(x.profiles[k], t).2,
            decreases self.ndof - i,
        {
            let (dp, v, a) = self.profiles[i].sample(t);
            assert(x.profiles[i as int] == self.profiles@[i as int]@);
            q.push(self.q0[i].add(dp));
            qd.push(v);
            qdd.push(a);
            i = i + 1;
        }
        let r = TrajState { q, qd, qdd };
        assert(r@ =~= state_at(x, t));
        r
    }

    fn sample_knots(&self, t: Scalar) -> (r: TrajState)
        ensures
            r@ == knots_at(self@, t),
    {
        proof {
            use_type_invariant(self);
        }
        let ghost x = self@;
        let n: usize = self.knots_q.len();
        if n == 0 {
            return TrajState { q: Vec::new(), qd: Vec::new(), qdd: Vec::new() };
        }
        let tt = hold_in(t, Scalar { bits: 0 }, self.duration);
        let k: usize = tt.div(self.dt).floor_usize();
        if k >= n - 1 {
            return TrajState {
                q: copy_scalars(self.knots_q[n - 1].as_slice()),
                qd: copy_scalars(self.knots_qd[n - 1].as_slice()),
                qdd: copy_scalars(self.knots_qdd[n - 1].as_slice()),
            };
        }
        let frac = tt.sub(Scalar::from_usize(k).mul(self.dt)).div(self.dt);
        let h = self.dt;
        let (h00, h10, h01, h11) = hermite(frac);
        let mut q: Vec<Scalar> = Vec::new();
        let mut qd: Vec<Scalar> = Vec::new();
        let mut qdd: Vec<Scalar> = Vec::new();
        let mut i: usize = 0;
        while i < self.ndof
            invariant
                i <= self.ndof,
                x == self@,
                k + 1 < n,
                n == self.knots_q@.len(),
                self.knots_qd@.len() == n,
                self.knots_qdd@.len() == n,
                all_wide(self.knots_q@, self.ndof as nat),
                all_wide(self.knots_qd@, self.ndof as nat),
                all_wide(self.knots_qdd@, self.ndof as nat),
                h == self.dt,
                (h00, h10, h01, h11) == hermite_weights(frac),
                q.len() == i,
                qd.len() == i,
                qdd.len() == i,
                forall|c: int|
                    0 <= c < i ==> #[trigger] q@[c] == hermite_at(
                        frac,
                        x.dt,
                        x.q[k as int][c],
                        x.q[k + 1][c],
                        x.qd[k as int][c],
                        x.qd[k + 1][c],
                    ),
                forall|c: int|
                    0 <= c < i ==> #[trigger] qd@[c] == mixed(
                        x.qd[k as int][c],
                        x.qd[k + 1][c],
                        frac,
                    ),
                forall|c: int|
                    0 <= c < i ==> #[trigger] qdd@[c] == mixed(
                        x.qdd[k as int][c],
                        x.qdd[k + 1][c],
                        frac,
                    ),
            decreases self.ndof - i,
        {
            proof {
                assert(self.knots_q@[k as int]@.len() == self.ndof);
                assert(self.knots_q@[k + 1]@.len() == self.ndof);
                assert(self.knots_qd@[k as int]@.len() == self.ndof);
                assert(self.knots_qd@[k + 1]@.len() == self.ndof);
                assert(self.knots_qdd@[k as int]@.len() == self.ndof);
                assert(self.knots_qdd@[k + 1]@.len() == self.ndof);
            }
            let p0 = self.knots_q[k][i];
            let p1 = self.knots_q[k + 1][i];
            let v0 = self.knots_qd[k][i];
            let v1 = self.knots_qd[k + 1][i];
            let m0 = v0.mul(h);
            let m1 = v1.mul(h);
            q.push(h00.mul(p0).add(h10.mul(m0)).add(h01.mul(p1)).add(h11.mul(m1)));
            qd.push(mix(v0, v1, frac));
            qdd.push(mix(self.knots_qdd[k][i], self.knots_qdd[k + 1][i], frac));
            i = i + 1;
        }
        let r = TrajState { q, qd, qdd };
        assert(r@ =~= knots_at(x, t));
        r
    }

    /// The state at a time.
    pub fn sample(&self, t: Scalar) -> (r: TrajState)
        ensures
            r@ == state_at(self@, t),
    {
        match self.kind {
            TrajKind::MoveJ => self.sample_joints(t),
            _ => self.sample_knots(t),
        }
    }

    /// The positions at a time.
    pub fn q_at(&self, t: Scalar) -> (r: Vec<Scalar>)
        ensures
            r@ == state_at(self@, t).q,
    {
        self.sample(t).q
    }

    /// At least two samples, evenly spaced over the whole duration.
    pub fn sample_grid(&self, n: usize) -> (r: Vec<(Scalar, TrajState)>)
        ensures
            r@.len() == (if n < 2 {
                2nat
            } else {
                n as nat
            }),
            forall|k: int|
                0 <= k < r@.len() ==> (#[trigger] r@[k]).0 == grid_time(
                    self@.duration,
                    r@.len() as int,
                    k,
                ) && r@[k].1@ == state_at(self@, grid_time(self@.duration, r@.len() as int, k)),
    {
        let m: usize = if n < 2 {
            2
        } else {
            n
        };
        let mut out: Vec<(Scalar, TrajState)> = Vec::new();
        let mut k: usize = 0;
        while k < m
            invariant
                k <= m,
                m >= 2,
                out.len() == k,
                forall|i: int|
                    0 <= i < k ==> (#[trigger] out@[i]).0 == grid_time(
                        self@.duration,
                        m as int,
                        i,
                    ) && out@[i].1@ == state_at(self@, grid_time(self@.duration, m as int, i)),
            decreases m - k,
        {
            let t = self.duration.mul(Scalar::from_usize(k)).div(Scalar::from_usize(m - 1));
            out.push((t, self.sample(t)));
            k = k + 1;
        }
        out
    }
}

/// A trajectory through knots holds its last knot from its last interval on.
pub proof fn law_last_knot_holds(x: TrajV, t: Scalar)
    requires
        x.kind != TrajKind::MoveJ,
        x.q.len() > 0,
        ({
            let tt = held_in(t, Scalar { bits: 0 }, x.duration);
            saturated(fdiv(tt, x.dt), floor_int(fdiv(tt, x.dt)), 0, usize::MAX as int) >= x.q.len()
                - 1
        }),
    ensures
        state_at(x, t) == (StateV {
            q: x.q.last(),
            qd: x.qd[x.q.len() - 1],
            qdd: x.qdd[x.q.len() - 1],
        }),
{
}

} // verus!
