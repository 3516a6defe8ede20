//! Teleoperation as sources of targets: scripts, a leader, and a velocity jog.

use vstd::prelude::*;

use crate::hal::backend::{copy_scalars, zeros, RobotBackend};
#[allow(unused_imports)]
use crate::hal::backend::{zero_seq, JointState};
#[allow(unused_imports)]
use crate::hal::error::Error;
use crate::hal::setpoint::{Setpoint, Target};
#[allow(unused_imports)]
use crate::hal::setpoint::at_rest;
#[allow(unused_imports)]
use crate::scalar::number::{fadd, fmul};
use crate::scalar::Scalar;

verus! {

pub const ONE_BITS: u64 = 0x3FF0_0000_0000_0000;

/// How the joints of a follower go with those of a leader:
/// `scale[i] * leader[perm[i]] + offset[i]`.
#[derive(Debug)]
pub struct JointMap {
    pub perm: Vec<usize>,
    pub scale: Vec<Scalar>,
    pub offset: Vec<Scalar>,
}

/// The follower's pose.
pub open spec fn mapped(m: JointMap, leader: Seq<Scalar>) -> Seq<Scalar> {
    Seq::new(
        m.perm@.len(),
        |i: int| fadd(fmul(m.scale@[i], leader[m.perm@[i] as int]), m.offset@[i]),
    )
}

/// The map fits poses of `n` joints.
pub open spec fn map_fits(m: JointMap, n: nat) -> bool {
    &&& m.scale@.len() >= m.perm@.len()
    &&& m.offset@.len() >= m.perm@.len()
    &&& forall|i: int| 0 <= i < m.perm@.len() ==> #[trigger] m.perm@[i] < n
}

impl JointMap {
    /// Joint by joint.
    pub fn identity(n: usize) -> (r: JointMap)
        ensures
            r.perm@ == Seq::new(n as nat, |i: int| i as usize),
            r.scale@ == Seq::new(n as nat, |i: int| (Scalar { bits: ONE_BITS })),
            r.offset@ == zero_seq(n as nat),
    {
        let mut perm: Vec<usize> = Vec::new();
        let mut scale: Vec<Scalar> = Vec::new();
        while perm.len() < n
            invariant
                perm.len() <= n,
                perm.len() == scale.len(),
                forall|i: int| 0 <= i < perm.len() ==> #[trigger] perm@[i] == i,
                forall|i: int|
                    0 <= i < scale.len() ==> #[trigger] scale@[i] == (Scalar { bits: ONE_BITS }),
            decreases n - perm.len(),
        {
            perm.push(perm.len());
            scale.push(Scalar { bits: ONE_BITS });
        }
        assert(perm@ =~= Seq::new(n as nat, |i: int| i as usize));
        assert(scale@ =~= Seq::new(n as nat, |i: int| (Scalar { bits: ONE_BITS })));
        JointMap { perm, scale, offset: zeros(n) }
    }

    /// The follower's pose.
    pub fn apply(&self, leader_q: &[Scalar]) -> (r: Vec<Scalar>)
        requires
            map_fits(*self, leader_q@.len()),
        ensures
            r@ == mapped(*self, leader_q@),
    {
        let mut out: Vec<Scalar> = Vec::new();
        let mut i: usize = 0;
        while i < self.perm.len()
            invariant
                i <= self.perm.len(),
                map_fits(*self, leader_q@.len()),
                out.len() == i,
                forall|k: int| 0 <= k < i ==> #[trigger] out@[k] == mapped(*self, leader_q@)[k],
            decreases self.perm.len() - i,
        {
            out.push(self.scale[i].mul(leader_q[self.perm[i]]).add(self.offset[i]));
            i = i + 1;
        }
        assert(out@ =~= mapped(*self, leader_q@));
        out
    }

    pub fn dof(&self) -> (r: usize)
        ensures
            r == self.perm@.len(),
    {
        self.perm.len()
    }

    /// Whether the map fits poses of `n` joints.
    pub fn fits(&self, n: usize) -> (r: bool)
        ensures
            r == map_fits(*self, n as nat),
    {
        if self.scale.len() < self.perm.len() || self.offset.len() < self.perm.len() {
            return false;
        }
        let mut i: usize = 0;
        while i < self.perm.len()
            invariant
                i <= self.perm.len(),
                forall|k: int| 0 <= k < i ==> #[trigger] self.perm@[k] < n,
            decreases self.perm.len() - i,
        {
            if self.perm[i] >= n {
                assert(!(self.perm@[i as int] < n));
                return false;
            }
            i = i + 1;
        }
        true
    }
}

/// Follows the measured pose of a leader.
pub struct LeaderFollowerSource<L: RobotBackend> {
    leader: L,
    map: JointMap,
}

impl<L: RobotBackend> LeaderFollowerSource<L> {
    pub closed spec fn leads(&self) -> L {
        self.leader
    }

    pub closed spec fn table(&self) -> JointMap {
        self.map
    }

    pub fn new(leader: L, map: JointMap) -> (r: Self)
        ensures
            r.leads() == leader,
            r.table() == map,
    {
        LeaderFollowerSource { leader, map }
    }

    /// The leader, to be driven.
    pub fn leader_mut(&mut self) -> (r: &mut L)
        ensures
            *r == old(self).leads(),
            final(self).leads() == *final(r),
            final(self).table() == old(self).table(),
    {
        &mut self.leader
    }
}

impl<L: RobotBackend> Setpoint for LeaderFollowerSource<L> {
    /// The leader's pose, mapped; nothing when it cannot be read or the map does not
    /// fit the reading.
    fn target(&mut self, tick: u64, t: Scalar) -> (r: Option<Target>)
        ensures
            final(self).table() == old(self).table(),
            exists|m: &mut L, s: Result<JointState, Error>|
                *m == old(self).leads() && *final(m) == final(self).leads()
                    && #[trigger] call_ensures(L::read_state, (m,), s) && match s {
                    Ok(x) => if map_fits(old(self).table(), x.q@.len()) {
                        r matches Some(t) && t@ == at_rest(mapped(old(self).table(), x.q@))
                    } else {
                        r is None
                    },
                    Err(_) => r is None,
                },
    {
        match self.leader.read_state() {
            Ok(s) => {
                if !self.map.fits(s.q.len()) {
                    return None;
                }
                let q = self.map.apply(s.q.as_slice());
                assert(q@ == mapped(self.map, s.q@));
                Some(Target::hold(q))
            },
            Err(_) => None,
        }
    }

    fn dof(&self) -> (r: usize)
        ensures
            r == self.table().perm@.len(),
    {
        self.map.dof()
    }
}

/// Poses in turn, each for a number of ticks.
pub struct ScriptedSource {
    poses: Vec<Vec<Scalar>>,
    hold: u64,
    wrap: bool,
}

/// Which of `n` poses a script is at. It starts over or stays at the last one.
pub open spec fn script_index(n: nat, hold: nat, wrap: bool, tick: nat) -> int {
    let i = (tick / hold) as int;
    if wrap {
        i % (n as int)
    } else if i >= n {
        n - 1
    } else {
        i
    }
}

impl ScriptedSource {
    pub closed spec fn script(&self) -> Seq<Vec<Scalar>> {
        self.poses@
    }

    pub closed spec fn held(&self) -> nat {
        self.hold as nat
    }

    pub closed spec fn wraps(&self) -> bool {
        self.wrap
    }

    #[verifier::type_invariant]
    spec fn valid(&self) -> bool {
        self.hold >= 1
    }

    pub fn new(poses: Vec<Vec<Scalar>>, hold: u64, wrap: bool) -> (r: ScriptedSource)
        ensures
            r.script() == poses@,
            r.held() == (if hold < 1 {
                1nat
            } else {
                hold as nat
            }),
            r.wraps() == wrap,
    {
        ScriptedSource {
            poses,
            hold: if hold < 1 {
                1
            } else {
                hold
            },
            wrap,
        }
    }
}

impl Setpoint for ScriptedSource {
    fn target(&mut self, tick: u64, t: Scalar) -> (r: Option<Target>)
        ensures
            *final(self) == *old(self),
            match r {
                None => old(self).script().len() == 0,
                Some(x) => old(self).script().len() > 0 && x@ == at_rest(
                    old(self).script()[script_index(
                        old(self).script().len(),
                        old(self).held(),
                        old(self).wraps(),
                        tick as nat,
                    )]@,
                ),
            },
    {
        proof {
            use_type_invariant(&*self);
        }
        let n: usize = self.poses.len();
        if n == 0 {
            return None;
        }
        let i: u64 = tick / self.hold;
        let k: u64 = if self.wrap {
            i % (n as u64)
        } else if i >= n as u64 {
            (n - 1) as u64
        } else {
            i
        };
        Some(Target::hold(copy_scalars(self.poses[k as usize].as_slice())))
    }

    fn dof(&self) -> (r: usize)
        ensures
            r == (if self.script().len() == 0 {
                0nat
            } else {
                self.script()[0]@.len()
            }),
    {
        if self.poses.len() == 0 {
            0
        } else {
            self.poses[0].len()
        }
    }
}

/// A pose that moves with a velocity set from outside.
pub struct JogSource {
    q: Vec<Scalar>,
    v: Vec<Scalar>,
    dt: Scalar,
}

/// A pose moved for one tick; joints without a velocity stay.
pub open spec fn jogged(q: Seq<Scalar>, v: Seq<Scalar>, dt: Scalar) -> Seq<Scalar> {
    Seq::new(
        q.len(),
        |i: int|
            fadd(
                q[i],
                fmul(
                    if i < v.len() {
                        v[i]
                    } else {
                        Scalar { bits: 0 }
                    },
                    dt,
                ),
            ),
    )
}

impl JogSource {
    pub closed spec fn pose(&self) -> Seq<Scalar> {
        self.q@
    }

    pub closed spec fn velocity(&self) -> Seq<Scalar> {
        self.v@
    }

    pub closed spec fn period(&self) -> Scalar {
        self.dt
    }

    /// At rest at `q0`.
    pub fn new(q0: Vec<Scalar>, dt: Scalar) -> (r: JogSource)
        ensures
            r.pose() == q0@,
            r.velocity() == zero_seq(q0@.len()),
            r.period() == dt,
    {
        let n: usize = q0.len();
        JogSource { q: q0, v: zeros(n), dt }
    }

    /// Sets the velocity.
    pub fn set(&mut self, v: Vec<Scalar>)
        ensures
            final(self).pose() == old(self).pose(),
            final(self).velocity() == v@,
            final(self).period() == old(self).period(),
    {
        self.v = v;
    }
}

impl Setpoint for JogSource {
    fn target(&mut self, tick: u64, t: Scalar) -> (r: Option<Target>)
        ensures
            final(self).pose() == jogged(
                old(self).pose(),
                old(self).velocity(),
                old(self).period(),
            ),
            final(self).velocity() == old(self).velocity(),
            final(self).period() == old(self).period(),
            r matches Some(x) && x@ == at_rest(final(self).pose()),
    {
        let ghost start = self.q@;
        let mut i: usize = 0;
        while i < self.q.len()
            invariant
                i <= self.q.len(),
                self.q@.len() == start.len(),
                self.v@ == old(self).v@,
                self.dt == old(self).dt,
                start == old(self).q@,
                forall|k: int|
                    0 <= k < start.len() ==> #[trigger] self.q@[k] == (if k < i {
                        jogged(start, self.v@, self.dt)[k]
                    } else {
                        start[k]
                    }),
            decreases self.q.len() - i,
        {
            let mut v = Scalar { bits: 0 };
            if i < self.v.len() {
                v = self.v[i];
            }
            let x = self.q[i].add(v.mul(self.dt));
            self.q.set(i, x);
            i = i + 1;
        }
        assert(self.q@ =~= jogged(start, self.v@, self.dt));
        Some(Target::hold(copy_scalars(self.q.as_slice())))
    }

    fn dof(&self) -> (r: usize)
        ensures
            r == self.pose().len(),
    {
        self.q.len()
    }
}

proof fn lemma_script_index(n: nat, hold: nat, wrap: bool, tick: nat)
    requires
        n > 0,
        hold > 0,
    ensures
        0 <= script_index(n, hold, wrap, tick) < n,
{
    let i = (tick / hold) as int;
    assert(0 <= i % (n as int) < n);
}

/// A script is always at one of its poses, and a script that does not start over
/// stays at its last pose.
pub proof fn law_script_stays_in_range(n: nat, hold: nat, wrap: bool, tick: nat)
    requires
        n > 0,
        hold > 0,
    ensures
        0 <= script_index(n, hold, wrap, tick) < n,
        !wrap && tick / hold >= n ==> script_index(n, hold, wrap, tick) == n - 1,
{
    lemma_script_index(n, hold, wrap, tick);
}

} // verus!
