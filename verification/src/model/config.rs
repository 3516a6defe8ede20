//! Reading a model: frames by name, limits, and the reduced configuration space of
//! the joints that no mimic constraint drives.

use vstd::prelude::*;

use crate::model::compile::{compile, LinkFrame, MimicInfo, Model};
#[allow(unused_imports)]
use crate::model::compile::{compile_fault, model_matches, opt_int, visited};
use crate::model::error::CompileError;
use crate::model::tree::{copy_string, RobotTree};
#[allow(unused_imports)]
use crate::model::tree::{first_fault, last_named, tree_matches, tree_wf, urdf_link_names};
use crate::model::urdf::UrdfRobot;
#[allow(unused_imports)]
use crate::scalar::convert::fclamp;
#[allow(unused_imports)]
use crate::scalar::number::{fadd, fle, fmul};
use crate::scalar::Scalar;
use crate::text::{chars_of, is_text};

verus! {

pub open spec fn link_frame_names(f: Seq<LinkFrame>) -> Seq<Seq<char>> {
    Seq::new(f.len(), |i: int| f[i].name@)
}

/// How many of the first `i` joints no mimic constraint drives.
pub open spec fn rank(mimic: Seq<Option<MimicInfo>>, i: nat) -> nat
    decreases i,
{
    if i == 0 {
        0
    } else {
        rank(mimic, (i - 1) as nat) + (if mimic[i - 1] is None {
            1nat
        } else {
            0
        })
    }
}

/// The joints among the first `i` that no mimic constraint drives.
pub open spec fn free_joints(mimic: Seq<Option<MimicInfo>>, i: nat) -> Seq<int>
    decreases i,
{
    if i == 0 {
        Seq::empty()
    } else if mimic[i - 1] is None {
        free_joints(mimic, (i - 1) as nat).push(i - 1)
    } else {
        free_joints(mimic, (i - 1) as nat)
    }
}

/// A full configuration from a reduced one: free joints in order, driven ones from
/// their sources.
pub open spec fn expanded(mimic: Seq<Option<MimicInfo>>, q: Seq<Scalar>) -> Seq<Scalar> {
    Seq::new(
        mimic.len(),
        |i: int|
            match mimic[i] {
                None => q[rank(mimic, i as nat) as int],
                Some(m) => fadd(
                    fmul(m.multiplier, q[rank(mimic, m.source as nat) as int]),
                    m.offset,
                ),
            },
    )
}

/// The free entries of a full configuration.
pub open spec fn reduced(mimic: Seq<Option<MimicInfo>>, q: Seq<Scalar>) -> Seq<Scalar> {
    free_joints(mimic, mimic.len()).map_values(|i: int| q[i])
}

/// Every driven joint has a free source.
pub open spec fn sources_free(mimic: Seq<Option<MimicInfo>>) -> bool {
    forall|i: int|
        0 <= i < mimic.len() ==> match #[trigger] mimic[i] {
            Some(m) => m.source < mimic.len() && mimic[m.source as int] is None,
            None => true,
        }
}

/// A configuration moved into the limits.
pub open spec fn clamped(limits: Seq<Option<(Scalar, Scalar)>>, q: Seq<Scalar>) -> Seq<Scalar> {
    Seq::new(
        q.len(),
        |i: int|
            if i < limits.len() {
                match limits[i] {
                    Some((lo, hi)) => fclamp(q[i], lo, hi),
                    None => q[i],
                }
            } else {
                q[i]
            },
    )
}

proof fn lemma_rank(mimic: Seq<Option<MimicInfo>>, i: nat, j: nat)
    requires
        i <= j,
    ensures
        rank(mimic, i) <= rank(mimic, j),
        i < j && mimic[i as int] is None ==> rank(mimic, i) < rank(mimic, j),
    decreases j,
{
    if i < j {
        lemma_rank(mimic, i, (j - 1) as nat);
    }
}

pub proof fn lemma_free_joints(mimic: Seq<Option<MimicInfo>>, i: nat)
    requires
        i <= mimic.len(),
    ensures
        free_joints(mimic, i).len() == rank(mimic, i),
        forall|k: int|
            0 <= k < free_joints(mimic, i).len() ==> 0 <= #[trigger] free_joints(mimic, i)[k] < i
                && mimic[free_joints(mimic, i)[k]] is None && rank(
                mimic,
                free_joints(mimic, i)[k] as nat,
            ) == k,
    decreases i,
{
    if i > 0 {
        lemma_free_joints(mimic, (i - 1) as nat);
        let f = free_joints(mimic, i);
        let h = free_joints(mimic, (i - 1) as nat);
        assert forall|k: int| 0 <= k < f.len() implies 0 <= #[trigger] f[k] < i
            && mimic[f[k]] is None && rank(mimic, f[k] as nat) == k by {
            if k < h.len() {
                assert(f[k] == h[k]);
            }
        }
    }
}

impl Model {
    /// Reads a description and freezes it.
    pub fn from_urdf(u: &UrdfRobot) -> (r: Result<Model, CompileError>)
        ensures
            match first_fault(urdf_link_names(u.links@), u.joints@, 0) {
                Some(f) => r matches Err(e) && e@ == f,
                None => exists|t: RobotTree| #[trigger]
                    tree_matches(t, *u) && tree_wf(t) && match r {
                        Ok(m) => compile_fault(t) is None && match visited(t) {
                            Ok(d) => model_matches(t, m, d),
                            Err(_) => false,
                        },
                        Err(e) => compile_fault(t) == Some(e@),
                    },
            },
    {
        match RobotTree::from_urdf(u) {
            Ok(t) => compile(&t),
            Err(e) => Err(e),
        }
    }

    /// The frame of that name.
    pub fn frame_id(&self, name: &str) -> (r: Option<usize>)
        ensures
            opt_int(r) == last_named(link_frame_names(self.frames@), name@),
    {
        let ghost all = link_frame_names(self.frames@);
        let mut k: usize = self.frames.len();
        assert(all.take(k as int) =~= all);
        while k > 0
            invariant
                k <= self.frames.len(),
                all == link_frame_names(self.frames@),
                last_named(all, name@) == last_named(all.take(k as int), name@),
            decreases k,
        {
            k = k - 1;
            proof {
                assert(all.take(k + 1).last() == all[k as int]);
                assert(all.take(k + 1).drop_last() =~= all.take(k as int));
            }
            let own = chars_of(self.frames[k].name.as_str());
            if is_text(&own, name) {
                return Some(k);
            }
        }
        None
    }

    /// The frame placed last, where a tool is likely to be.
    pub fn tip_frame(&self) -> (r: usize)
        requires
            self.frames@.len() > 0,
        ensures
            r == self.frames@.len() - 1,
    {
        self.frames.len() - 1
    }

    pub fn frame_name(&self, f: usize) -> (r: &str)
        requires
            f < self.frames@.len(),
        ensures
            r@ == self.frames@[f as int].name@,
    {
        self.frames[f].name.as_str()
    }

    /// Moves a configuration into the joint limits.
    pub fn clamp(&self, q: &mut Vec<Scalar>)
        requires
            forall|i: int|
                0 <= i < self.limits@.len() ==> match #[trigger] self.limits@[i] {
                    Some((lo, hi)) => fle(lo, hi) && i < old(q)@.len(),
                    None => true,
                },
        ensures
            final(q)@ == clamped(self.limits@, old(q)@),
    {
        let ghost start = q@;
        let mut i: usize = 0;
        while i < self.limits.len()
            invariant
                i <= self.limits.len(),
                q@.len() == start.len(),
                forall|i: int|
                    0 <= i < self.limits@.len() ==> match #[trigger] self.limits@[i] {
                        Some((lo, hi)) => fle(lo, hi) && i < start.len(),
                        None => true,
                    },
                forall|k: int|
                    0 <= k < start.len() ==> #[trigger] q@[k] == (if k < i {
                        clamped(self.limits@, start)[k]
                    } else {
                        start[k]
                    }),
            decreases self.limits.len() - i,
        {
            match self.limits[i] {
                Some((lo, hi)) => {
                    assert(self.limits@[i as int] == Some((lo, hi)));
                    let v = q[i].clamp(lo, hi);
                    q.set(i, v);
                },
                None => {},
            }
            i = i + 1;
        }
        assert(q@ =~= clamped(self.limits@, start));
    }

    /// Whether some joint is driven by a mimic constraint.
    pub fn has_mimic(&self) -> (r: bool)
        ensures
            r == exists|i: int| 0 <= i < self.mimic@.len() && #[trigger] self.mimic@[i] is Some,
    {
        let mut i: usize = 0;
        while i < self.mimic.len()
            invariant
                i <= self.mimic.len(),
                forall|k: int| 0 <= k < i ==> #[trigger] self.mimic@[k] is None,
            decreases self.mimic.len() - i,
        {
            if self.mimic[i].is_some() {
                assert(self.mimic@[i as int] is Some);
                return true;
            }
            i = i + 1;
        }
        false
    }

    /// Number of joints that no mimic constraint drives.
    pub fn ndof_independent(&self) -> (r: usize)
        ensures
            r == rank(self.mimic@, self.mimic@.len()),
    {
        let mut n: usize = 0;
        let mut i: usize = 0;
        while i < self.mimic.len()
            invariant
                i <= self.mimic.len(),
                n <= i,
                n == rank(self.mimic@, i as nat),
            decreases self.mimic.len() - i,
        {
            if self.mimic[i].is_none() {
                n = n + 1;
            }
            i = i + 1;
        }
        n
    }

    /// The joints that no mimic constraint drives, in order.
    pub fn independent_dofs(&self) -> (r: Vec<usize>)
        requires
            self.wf(),
        ensures
            r@.len() == free_joints(self.mimic@, self.ndof as nat).len(),
            forall|k: int|
                0 <= k < r@.len() ==> #[trigger] r@[k] == free_joints(
                    self.mimic@,
                    self.ndof as nat,
                )[k],
    {
        let mut out: Vec<usize> = Vec::new();
        let mut i: usize = 0;
        while i < self.ndof
            invariant
                i <= self.ndof,
                self.wf(),
                out@.len() == free_joints(self.mimic@, i as nat).len(),
                forall|k: int|
                    0 <= k < out@.len() ==> #[trigger] out@[k] == free_joints(
                        self.mimic@,
                        i as nat,
                    )[k],
            decreases self.ndof - i,
        {
            if self.mimic[i].is_none() {
                out.push(i);
            }
            i = i + 1;
        }
        out
    }

    /// The full configuration of a reduced one.
    pub fn expand_mimic(&self, q_red: &[Scalar]) -> (r: Vec<Scalar>)
        requires
            self.wf(),
            sources_free(self.mimic@),
            q_red@.len() == rank(self.mimic@, self.mimic@.len()),
        ensures
            r@ == expanded(self.mimic@, q_red@),
    {
        let ghost want = expanded(self.mimic@, q_red@);
        let n: usize = self.ndof;
        let mut q: Vec<Scalar> = Vec::new();
        let mut k: usize = 0;
        let mut i: usize = 0;
        while i < n
            invariant
                i <= n,
                n == self.mimic@.len(),
                q.len() == i,
                q_red@.len() == rank(self.mimic@, n as nat),
                want == expanded(self.mimic@, q_red@),
                k == rank(self.mimic@, i as nat),
                forall|j: int|
                    0 <= j < i && self.mimic@[j] is None ==> #[trigger] q@[j] == want[j],
            decreases n - i,
        {
            if self.mimic[i].is_none() {
                proof {
                    lemma_rank(self.mimic@, i as nat, n as nat);
                }
                q.push(q_red[k]);
                k = k + 1;
            } else {
                q.push(Scalar { bits: 0 });
            }
            i = i + 1;
        }
        let mut c: usize = 0;
        while c < n
            invariant
                c <= n,
                n == self.mimic@.len(),
                q.len() == n,
                sources_free(self.mimic@),
                want == expanded(self.mimic@, q_red@),
                forall|j: int|
                    0 <= j < n && (j < c || self.mimic@[j] is None) ==> #[trigger] q@[j]
                        == want[j],
            decreases n - c,
        {
            match self.mimic[c] {
                Some(m) => {
                    assert(self.mimic@[c as int] == Some(m));
                    assert(q@[m.source as int] == want[m.source as int]);
                    let v = m.multiplier.mul(q[m.source]).add(m.offset);
                    q.set(c, v);
                },
                None => {},
            }
            c = c + 1;
        }
        assert(q@ =~= want);
        q
    }

    /// The free entries of a full configuration.
    pub fn reduce_config(&self, q_full: &[Scalar]) -> (r: Vec<Scalar>)
        requires
            self.wf(),
            q_full@.len() == self.ndof,
        ensures
            r@ == reduced(self.mimic@, q_full@),
    {
        let mut out: Vec<Scalar> = Vec::new();
        let mut i: usize = 0;
        while i < self.ndof
            invariant
                i <= self.ndof,
                self.wf(),
                q_full@.len() == self.ndof,
                out@.len() == free_joints(self.mimic@, i as nat).len(),
                forall|k: int|
                    0 <= k < out@.len() ==> #[trigger] out@[k] == q_full@[free_joints(
                        self.mimic@,
                        i as nat,
                    )[k]],
            decreases self.ndof - i,
        {
            if self.mimic[i].is_none() {
                out.push(q_full[i]);
            }
            i = i + 1;
        }
        assert(out@ =~= reduced(self.mimic@, q_full@));
        out
    }
}

/// A model under the name that programs show.
#[derive(Debug)]
pub struct Robot {
    pub name: String,
    pub joint_names: Vec<String>,
    pub model: Model,
}

impl Robot {
    pub fn from_urdf(u: &UrdfRobot) -> (r: Result<Robot, CompileError>)
        ensures
            match first_fault(urdf_link_names(u.links@), u.joints@, 0) {
                Some(f) => r matches Err(e) && e@ == f,
                None => exists|t: RobotTree| #[trigger]
                    tree_matches(t, *u) && tree_wf(t) && match r {
                        Ok(b) => compile_fault(t) is None && match visited(t) {
                            Ok(d) => model_matches(t, b.model, d),
                            Err(_) => false,
                        } && b.name@ == b.model.name@ && b.joint_names@.len()
                            == b.model.joint_names@.len() && forall|i: int|
                            0 <= i < b.joint_names@.len() ==> (#[trigger] b.joint_names@[i])@
                                == b.model.joint_names@[i]@,
                        Err(e) => compile_fault(t) == Some(e@),
                    },
            },
    {
        let model = match Model::from_urdf(u) {
            Ok(m) => m,
            Err(e) => {
                return Err(e);
            },
        };
        let mut joint_names: Vec<String> = Vec::new();
        let mut i: usize = 0;
        while i < model.joint_names.len()
            invariant
                i <= model.joint_names.len(),
                joint_names.len() == i,
                forall|k: int|
                    0 <= k < i ==> (#[trigger] joint_names@[k])@ == model.joint_names@[k]@,
            decreases model.joint_names.len() - i,
        {
            joint_names.push(copy_string(&model.joint_names[i]));
            i = i + 1;
        }
        Ok(Robot { name: copy_string(&model.name), joint_names, model })
    }

    pub fn ndof(&self) -> (r: usize)
        ensures
            r == self.model.ndof,
    {
        self.model.ndof
    }
}

/// Reducing an expanded configuration gives back the reduced one.
pub proof fn law_reduce_undoes_expand(mimic: Seq<Option<MimicInfo>>, q: Seq<Scalar>)
    requires
        q.len() == rank(mimic, mimic.len()),
    ensures
        reduced(mimic, expanded(mimic, q)) == q,
{
    lemma_free_joints(mimic, mimic.len());
    let r = reduced(mimic, expanded(mimic, q));
    let f = free_joints(mimic, mimic.len());
    assert forall|k: int| 0 <= k < q.len() implies r[k] == q[k] by {
        assert(mimic[f[k]] is None && rank(mimic, f[k] as nat) == k);
    }
    assert(r =~= q);
}

/// A configuration that meets its mimic constraints survives reducing and expanding.
pub proof fn law_expand_undoes_reduce(mimic: Seq<Option<MimicInfo>>, q: Seq<Scalar>)
    requires
        sources_free(mimic),
        q.len() == mimic.len(),
        forall|i: int|
            0 <= i < mimic.len() ==> match #[trigger] mimic[i] {
                Some(m) => q[i] == fadd(fmul(m.multiplier, q[m.source as int]), m.offset),
                None => true,
            },
    ensures
        expanded(mimic, reduced(mimic, q)) == q,
{
    let e = expanded(mimic, reduced(mimic, q));
    assert forall|i: int| 0 <= i < q.len() implies e[i] == q[i] by {
        match mimic[i] {
            None => {
                lemma_free_at(mimic, q, i);
            },
            Some(m) => {
                lemma_free_at(mimic, q, m.source as int);
            },
        }
    }
    assert(e =~= q);
}

proof fn lemma_free_at(mimic: Seq<Option<MimicInfo>>, q: Seq<Scalar>, i: int)
    requires
        0 <= i < mimic.len(),
        mimic[i] is None,
    ensures
        reduced(mimic, q)[rank(mimic, i as nat) as int] == q[i],
        rank(mimic, i as nat) < reduced(mimic, q).len(),
{
    lemma_free_joints(mimic, mimic.len());
    lemma_rank(mimic, i as nat, mimic.len());
    let f = free_joints(mimic, mimic.len());
    let k = rank(mimic, i as nat) as int;
    assert(rank(mimic, f[k] as nat) == k && mimic[f[k]] is None);
    if f[k] < i {
        lemma_rank(mimic, f[k] as nat, i as nat);
    } else if i < f[k] {
        lemma_rank(mimic, i as nat, f[k] as nat);
    }
}

/// There are as many free joints as the reduced space has coordinates.
pub proof fn law_free_joint_count(mimic: Seq<Option<MimicInfo>>)
    ensures
        free_joints(mimic, mimic.len()).len() == rank(mimic, mimic.len()),
{
    lemma_free_joints(mimic, mimic.len());
}

} // verus!
