//! The frozen model: joints in visiting order, fixed joints folded into the
//! placements of what hangs on them.
//!
//! A placement is a chain of joints of the tree; the pose it stands for is the
//! product of their origins, in order.

use vstd::prelude::*;

#[allow(unused_imports)]
use crate::hal::safety::limits_ordered;
#[allow(unused_imports)]
use crate::kinematics::fk::{chain_fits, linked};
#[allow(unused_imports)]
use crate::model::config::sources_free;
use crate::model::error::CompileError;
#[allow(unused_imports)]
use crate::model::error::CompileFault;
use crate::model::shape::{copy_shape, copy_visual, CollisionShape, VisualShape};
#[allow(unused_imports)]
use crate::model::shape::{shape_view, visual_view, ShapeV, VisualV};
use crate::model::tree::{copy_string, same_string, EditJoint, RawKind, RobotTree};
#[allow(unused_imports)]
use crate::model::tree::{last_named, tree_wf};
use crate::model::urdf::Color;
#[allow(unused_imports)]
use crate::scalar::number::{fle, flt};
#[allow(unused_imports)]
use crate::scalar::vec3::{vdiv, vnorm};
use crate::scalar::{Scalar, Vec3};

verus! {

/// Bits of `1e-12`, the shortest axis that still points somewhere.
pub const SHORT_AXIS_BITS: u64 = 0x3D71_9799_812D_EA11;

/// How a movable joint moves.
#[derive(Clone, Copy, Debug, PartialEq, Eq, Structural)]
pub enum JointKind {
    Revolute,
    Prismatic,
}

/// A mimic constraint, resolved: the joint is at `multiplier * source + offset`.
#[derive(Clone, Copy, Debug, PartialEq, Eq, Structural)]
pub struct MimicInfo {
    pub source: usize,
    pub multiplier: Scalar,
    pub offset: Scalar,
}

/// A link of the tree, placed on the movable joint that carries it.
#[derive(Debug)]
pub struct LinkFrame {
    pub name: String,
    pub anchor: Option<usize>,
    pub chain: Vec<usize>,
}

/// A link whose inertia counts for a movable joint, and where it sits there.
#[derive(Debug)]
pub struct Share {
    pub dof: usize,
    pub link: usize,
    pub chain: Vec<usize>,
}

/// A collision shape on a frame, and the element of the link it comes from.
#[derive(Debug)]
pub struct CollisionGeom {
    pub frame: usize,
    pub link: usize,
    pub index: usize,
    pub shape: CollisionShape,
}

/// A visual shape on a frame, and the element of the link it comes from.
#[derive(Debug)]
pub struct VisualGeom {
    pub frame: usize,
    pub link: usize,
    pub index: usize,
    pub shape: VisualShape,
    pub color: Option<Color>,
}

/// The frozen model.
#[derive(Debug)]
pub struct Model {
    pub name: String,
    pub ndof: usize,
    pub joint_names: Vec<String>,
    pub kind: Vec<JointKind>,
    pub parent: Vec<Option<usize>>,
    pub parent_to_joint: Vec<Vec<usize>>,
    pub axis: Vec<Vec3>,
    pub limits: Vec<Option<(Scalar, Scalar)>>,
    pub vel_limit: Vec<Option<Scalar>>,
    pub effort_limit: Vec<Option<Scalar>>,
    pub frames: Vec<LinkFrame>,
    pub inertia: Vec<Share>,
    pub has_inertia: bool,
    pub collision: Vec<CollisionGeom>,
    pub dropped_collider_frames: Vec<usize>,
    pub visuals: Vec<VisualGeom>,
    pub mimic: Vec<Option<MimicInfo>>,
}

impl Model {
    /// Every table of joints has a row for each joint.
    pub open spec fn wf(&self) -> bool {
        &&& self.joint_names@.len() == self.ndof
        &&& self.kind@.len() == self.ndof
        &&& self.parent@.len() == self.ndof
        &&& self.parent_to_joint@.len() == self.ndof
        &&& self.axis@.len() == self.ndof
        &&& self.limits@.len() == self.ndof
        &&& self.vel_limit@.len() == self.ndof
        &&& self.effort_limit@.len() == self.ndof
        &&& self.mimic@.len() == self.ndof
    }
}

// ---- what compiling means ----

/// A movable joint: which joint of the tree it is, the movable joint before it,
/// its placement on that one, and its unit axis.
pub struct Dof {
    pub joint: int,
    pub parent: Option<int>,
    pub chain: Seq<int>,
    pub axis: Vec3,
}

/// A placed link.
pub struct Placed {
    pub link: int,
    pub anchor: Option<int>,
    pub chain: Seq<int>,
}

/// A model under construction. The links on the stack wait for their children.
#[verifier::ext_equal]
pub struct Draft {
    pub dofs: Seq<Dof>,
    pub frames: Seq<Placed>,
    pub shares: Seq<(int, int, Seq<int>)>,
    pub full: bool,
    pub stack: Seq<int>,
}

/// An earlier joint has the same child.
pub open spec fn clashes(js: Seq<EditJoint>, i: int) -> bool {
    exists|k: int| 0 <= k < i && (#[trigger] js[k]).child == js[i].child
}

/// The first joint from `i` on whose child has a parent already.
pub open spec fn first_clash(js: Seq<EditJoint>, i: int) -> Option<int>
    decreases js.len() - i,
{
    if i < 0 || i >= js.len() {
        None
    } else if clashes(js, i) {
        Some(i)
    } else {
        first_clash(js, i + 1)
    }
}

/// No joint leads to the link.
pub open spec fn is_root(js: Seq<EditJoint>, l: int) -> bool {
    forall|k: int| 0 <= k < js.len() ==> (#[trigger] js[k]).child != l
}

/// The roots among the first `n` links.
pub open spec fn roots(js: Seq<EditJoint>, n: nat) -> Seq<int>
    decreases n,
{
    if n == 0 {
        Seq::empty()
    } else if is_root(js, n - 1) {
        roots(js, (n - 1) as nat).push(n - 1)
    } else {
        roots(js, (n - 1) as nat)
    }
}

pub open spec fn pointed(axis: Vec3) -> bool {
    flt(Scalar { bits: SHORT_AXIS_BITS }, vnorm(axis))
}

/// Follows one joint from a link placed at `at`: a fixed one folds its child onto
/// the same movable joint, a movable one starts a new placement.
pub open spec fn visit_joint(t: RobotTree, d: Draft, at: Placed, ji: int) -> Result<
    Draft,
    CompileFault,
> {
    let j = t.joints@[ji];
    let c = j.child as int;
    let chain = at.chain.push(ji);
    let heavy = t.links@[c].inertial;
    match j.kind {
        RawKind::Fixed => Ok(
            Draft {
                dofs: d.dofs,
                frames: d.frames.push(Placed { link: c, anchor: at.anchor, chain }),
                shares: match at.anchor {
                    Some(a) => if heavy {
                        d.shares.push((a, c, chain))
                    } else {
                        d.shares
                    },
                    None => d.shares,
                },
                full: d.full && (at.anchor is None || heavy),
                stack: d.stack.push(c),
            },
        ),
        _ => if !pointed(j.axis) {
            Err(CompileFault::ZeroAxis(j.name@))
        } else {
            let n = d.dofs.len() as int;
            Ok(
                Draft {
                    dofs: d.dofs.push(
                        Dof {
                            joint: ji,
                            parent: at.anchor,
                            chain,
                            axis: vdiv(j.axis, vnorm(j.axis)),
                        },
                    ),
                    frames: d.frames.push(
                        Placed { link: c, anchor: Some(n), chain: Seq::empty() },
                    ),
                    shares: if heavy {
                        d.shares.push((n, c, Seq::empty()))
                    } else {
                        d.shares
                    },
                    full: d.full && heavy,
                    stack: d.stack.push(c),
                },
            )
        },
    }
}

/// Follows the joints of a link in order, from `ji` on.
pub open spec fn visit_from(t: RobotTree, d: Draft, at: Placed, ji: int) -> Result<
    Draft,
    CompileFault,
>
    decreases t.joints@.len() - ji,
{
    if ji < 0 || ji >= t.joints@.len() {
        Ok(d)
    } else if t.joints@[ji].parent != at.link {
        visit_from(t, d, at, ji + 1)
    } else {
        match visit_joint(t, d, at, ji) {
            Ok(d2) => visit_from(t, d2, at, ji + 1),
            Err(e) => Err(e),
        }
    }
}

/// The placement of a link.
pub open spec fn placed(frames: Seq<Placed>, link: int) -> Placed
    decreases frames.len(),
{
    if frames.len() == 0 {
        Placed { link, anchor: None, chain: Seq::empty() }
    } else if frames.last().link == link {
        frames.last()
    } else {
        placed(frames.drop_last(), link)
    }
}

/// The link on top of the stack, taken off.
pub open spec fn popped(d: Draft) -> Draft {
    Draft {
        dofs: d.dofs,
        frames: d.frames,
        shares: d.shares,
        full: d.full,
        stack: d.stack.drop_last(),
    }
}

/// Visits the tree depth first; `fuel` links at most.
pub open spec fn visit(t: RobotTree, d: Draft, fuel: nat) -> Result<Draft, CompileFault>
    decreases fuel,
{
    if fuel == 0 || d.stack.len() == 0 {
        Ok(d)
    } else {
        match visit_from(t, popped(d), placed(d.frames, d.stack.last()), 0) {
            Ok(d2) => visit(t, d2, (fuel - 1) as nat),
            Err(e) => Err(e),
        }
    }
}

pub open spec fn draft_at(root: int) -> Draft {
    Draft {
        dofs: Seq::empty(),
        frames: seq![Placed { link: root, anchor: None, chain: Seq::empty() }],
        shares: Seq::empty(),
        full: true,
        stack: seq![root],
    }
}

/// The tree, visited from its root.
pub open spec fn visited(t: RobotTree) -> Result<Draft, CompileFault> {
    visit(t, draft_at(roots(t.joints@, t.links@.len())[0]), t.links@.len())
}

pub open spec fn frame_names(t: RobotTree, frames: Seq<Placed>) -> Seq<Seq<char>> {
    Seq::new(frames.len(), |i: int| t.links@[frames[i].link].name@)
}

pub open spec fn dof_names(t: RobotTree, dofs: Seq<Dof>) -> Seq<Seq<char>> {
    Seq::new(dofs.len(), |i: int| t.joints@[dofs[i].joint].name@)
}

/// Name of the first link from `i` on that no frame is named after.
pub open spec fn orphan(t: RobotTree, names: Seq<Seq<char>>, i: int) -> Seq<char>
    decreases t.links@.len() - i,
{
    if i < 0 || i >= t.links@.len() {
        Seq::empty()
    } else if last_named(names, t.links@[i].name@) is None {
        t.links@[i].name@
    } else {
        orphan(t, names, i + 1)
    }
}

/// What is wrong with the mimic constraint of a movable joint. Its source is a
/// movable joint without one.
pub open spec fn mimic_fault(t: RobotTree, dofs: Seq<Dof>, i: int) -> Option<CompileFault> {
    let j = t.joints@[dofs[i].joint];
    match j.mimic {
        None => None,
        Some(raw) => match last_named(dof_names(t, dofs), raw.source@) {
            None => Some(
                CompileFault::MimicUnknownSource { joint: j.name@, src_joint: raw.source@ },
            ),
            Some(s) => if t.joints@[dofs[s].joint].mimic is Some {
                Some(CompileFault::MimicOfMimic { joint: j.name@, src_joint: raw.source@ })
            } else {
                None
            },
        },
    }
}

pub open spec fn first_mimic_fault(t: RobotTree, dofs: Seq<Dof>, i: int) -> Option<CompileFault>
    decreases dofs.len() - i,
{
    if i < 0 || i >= dofs.len() {
        None
    } else if mimic_fault(t, dofs, i) is Some {
        mimic_fault(t, dofs, i)
    } else {
        first_mimic_fault(t, dofs, i + 1)
    }
}

/// Why a tree does not compile.
pub open spec fn compile_fault(t: RobotTree) -> Option<CompileFault> {
    let n = t.links@.len();
    match first_clash(t.joints@, 0) {
        Some(i) => Some(
            CompileFault::MultiParent(t.links@[t.joints@[i].child as int].name@),
        ),
        None => if roots(t.joints@, n).len() == 0 {
            Some(CompileFault::NoRoot)
        } else if roots(t.joints@, n).len() > 1 {
            Some(CompileFault::MultiRoot)
        } else {
            match visited(t) {
                Err(e) => Some(e),
                Ok(d) => if d.frames.len() != n {
                    Some(CompileFault::Disconnected(orphan(t, frame_names(t, d.frames), 0)))
                } else {
                    first_mimic_fault(t, d.dofs, 0)
                },
            }
        },
    }
}

pub open spec fn opt_int(x: Option<usize>) -> Option<int> {
    match x {
        Some(v) => Some(v as int),
        None => None,
    }
}

pub open spec fn ints(v: Seq<usize>) -> Seq<int> {
    Seq::new(v.len(), |i: int| v[i] as int)
}

/// The collision shapes of the first `n` links: frame, link, element, shape.
pub open spec fn colliders(t: RobotTree, names: Seq<Seq<char>>, n: nat) -> Seq<
    (int, int, int, ShapeV),
>
    decreases n,
{
    if n == 0 {
        Seq::empty()
    } else {
        let l = t.links@[n - 1];
        let head = colliders(t, names, (n - 1) as nat);
        match last_named(names, l.name@) {
            None => head,
            Some(f) => head + Seq::new(
                l.collision@.len(),
                |k: int|
                    (
                        f,
                        n - 1,
                        l.collision@[k].index as int,
                        shape_view(l.collision@[k].shape),
                    ),
            ),
        }
    }
}

/// The frames of the first `n` links that lost a collision shape.
pub open spec fn uncovered(t: RobotTree, names: Seq<Seq<char>>, n: nat) -> Seq<int>
    decreases n,
{
    if n == 0 {
        Seq::empty()
    } else {
        let l = t.links@[n - 1];
        let head = uncovered(t, names, (n - 1) as nat);
        match last_named(names, l.name@) {
            Some(f) if l.dropped => head.push(f),
            _ => head,
        }
    }
}

/// The visual shapes of the first `n` links: frame, link, element, shape, color.
pub open spec fn drawn(t: RobotTree, names: Seq<Seq<char>>, n: nat) -> Seq<
    (int, int, int, VisualV, Option<Color>),
>
    decreases n,
{
    if n == 0 {
        Seq::empty()
    } else {
        let l = t.links@[n - 1];
        let head = drawn(t, names, (n - 1) as nat);
        match last_named(names, l.name@) {
            None => head,
            Some(f) => head + Seq::new(
                l.visual@.len(),
                |k: int| (f, n - 1, k, visual_view(l.visual@[k].shape), l.visual@[k].color),
            ),
        }
    }
}

pub open spec fn collision_views(c: Seq<CollisionGeom>) -> Seq<(int, int, int, ShapeV)> {
    Seq::new(
        c.len(),
        |i: int|
            (c[i].frame as int, c[i].link as int, c[i].index as int, shape_view(c[i].shape)),
    )
}

pub open spec fn visual_views(c: Seq<VisualGeom>) -> Seq<
    (int, int, int, VisualV, Option<Color>),
> {
    Seq::new(
        c.len(),
        |i: int|
            (
                c[i].frame as int,
                c[i].link as int,
                c[i].index as int,
                visual_view(c[i].shape),
                c[i].color,
            ),
    )
}

pub open spec fn share_views(c: Seq<Share>) -> Seq<(int, int, Seq<int>)> {
    Seq::new(c.len(), |i: int| (c[i].dof as int, c[i].link as int, ints(c[i].chain@)))
}

/// A mimic constraint without faults, resolved.
pub open spec fn mimic_of(t: RobotTree, dofs: Seq<Dof>, i: int) -> Option<MimicInfo> {
    match t.joints@[dofs[i].joint].mimic {
        None => None,
        Some(raw) => match last_named(dof_names(t, dofs), raw.source@) {
            None => None,
            Some(s) => Some(
                MimicInfo {
                    source: s as usize,
                    multiplier: raw.multiplier,
                    offset: raw.offset,
                },
            ),
        },
    }
}

/// Movable joint `i` of the model is the `i`-th visited.
pub open spec fn dof_matches(t: RobotTree, m: Model, d: Draft, i: int) -> bool {
    let x = d.dofs[i];
    let j = t.joints@[x.joint];
    &&& m.joint_names@[i]@ == j.name@
    &&& m.kind@[i] == (if j.kind is Prismatic {
        JointKind::Prismatic
    } else {
        JointKind::Revolute
    })
    &&& opt_int(m.parent@[i]) == x.parent
    &&& ints(m.parent_to_joint@[i]@) == x.chain
    &&& m.axis@[i] == x.axis
    &&& m.limits@[i] == j.limits
    &&& m.vel_limit@[i] == j.vel
    &&& m.effort_limit@[i] == j.effort
    &&& m.mimic@[i] == mimic_of(t, d.dofs, i)
}

pub open spec fn frame_matches(t: RobotTree, f: LinkFrame, p: Placed) -> bool {
    &&& f.name@ == t.links@[p.link].name@
    &&& opt_int(f.anchor) == p.anchor
    &&& ints(f.chain@) == p.chain
}

/// The model of a tree that was visited.
pub open spec fn model_matches(t: RobotTree, m: Model, d: Draft) -> bool {
    let n = d.dofs.len();
    let names = frame_names(t, d.frames);
    &&& m.name@ == t.name@
    &&& m.ndof == n
    &&& m.wf()
    &&& forall|i: int| 0 <= i < n ==> #[trigger] dof_matches(t, m, d, i)
    &&& m.frames@.len() == d.frames.len()
    &&& forall|i: int|
        0 <= i < m.frames@.len() ==> frame_matches(t, #[trigger] m.frames@[i], d.frames[i])
    &&& share_views(m.inertia@) == d.shares
    &&& m.has_inertia == (d.full && n > 0)
    &&& collision_views(m.collision@) == colliders(t, names, t.links@.len())
    &&& ints(m.dropped_collider_frames@) == uncovered(t, names, t.links@.len())
    &&& visual_views(m.visuals@) == drawn(t, names, t.links@.len())
}

// ---- the visit stays finite ----

/// Joint `j` has been followed: its parent is done, or is `cur` and `j` is below `b`.
pub open spec fn followed(t: RobotTree, done: Seq<int>, cur: int, b: int, j: int) -> bool {
    done.contains(t.joints@[j].parent as int) || (t.joints@[j].parent == cur && j < b)
}

pub open spec fn is_frame(frames: Seq<Placed>, l: int) -> bool {
    exists|k: int| 0 <= k < frames.len() && (#[trigger] frames[k]).link == l
}

/// Some followed joint leads to the link.
pub open spec fn reached(t: RobotTree, done: Seq<int>, cur: int, b: int, l: int) -> bool {
    exists|j: int|
        0 <= j < t.joints@.len() && (#[trigger] t.joints@[j]).child == l && followed(
            t,
            done,
            cur,
            b,
            j,
        )
}

/// Every entry of a chain is one of `n` joints.
pub open spec fn chain_within(c: Seq<int>, n: nat) -> bool {
    forall|m: int| 0 <= m < c.len() ==> 0 <= #[trigger] c[m] < n
}

/// What holds while joints are followed: every frame is a different link, every
/// link waits, is done or is `cur`, and only followed joints have led to frames.
#[verifier::opaque]
pub open spec fn steady(t: RobotTree, root: int, done: Seq<int>, cur: int, b: int, d: Draft) -> bool {
    &&& forall|k: int|
        0 <= k < d.frames.len() ==> 0 <= (#[trigger] d.frames[k]).link < t.links@.len()
    &&& forall|i: int, j: int|
        0 <= i < j < d.frames.len() ==> (#[trigger] d.frames[i]).link != (
        #[trigger] d.frames[j]).link
    &&& done.len() + d.stack.len() + (if cur >= 0 {
        1int
    } else {
        0
    }) == d.frames.len()
    &&& forall|k: int|
        0 <= k < d.stack.len() ==> is_frame(d.frames, #[trigger] d.stack[k]) && !done.contains(
            d.stack[k],
        ) && d.stack[k] != cur
    &&& forall|i: int, j: int|
        0 <= i < j < d.stack.len() ==> #[trigger] d.stack[i] != #[trigger] d.stack[j]
    &&& forall|k: int| 0 <= k < done.len() ==> is_frame(d.frames, #[trigger] done[k])
    &&& cur >= 0 ==> is_frame(d.frames, cur) && !done.contains(cur)
    &&& forall|k: int|
        0 <= k < d.frames.len() ==> (#[trigger] d.frames[k]).link == root || reached(
            t,
            done,
            cur,
            b,
            d.frames[k].link,
        )
    &&& forall|k: int|
        0 <= k < d.frames.len() ==> match (#[trigger] d.frames[k]).anchor {
            Some(a) => 0 <= a < d.dofs.len(),
            None => true,
        }
    &&& forall|i: int|
        0 <= i < d.dofs.len() ==> 0 <= (#[trigger] d.dofs[i]).joint < t.joints@.len() && (
        match d.dofs[i].parent {
            Some(p) => 0 <= p < i,
            None => true,
        }) && chain_within(d.dofs[i].chain, t.joints@.len())
    &&& forall|k: int|
        0 <= k < d.frames.len() ==> chain_within(
            (#[trigger] d.frames[k]).chain,
            t.joints@.len(),
        )
}

/// A tree without shared children and its root.
pub open spec fn sound(t: RobotTree, root: int) -> bool {
    &&& tree_wf(t)
    &&& first_clash(t.joints@, 0) is None
    &&& 0 <= root < t.links@.len()
    &&& is_root(t.joints@, root)
}

proof fn lemma_no_clash(js: Seq<EditJoint>, i: int, a: int, b: int)
    requires
        first_clash(js, i) is None,
        0 <= i,
        i <= b < js.len(),
        0 <= a < b,
    ensures
        js[a].child != js[b].child,
    decreases js.len() - i,
{
    if i < b {
        lemma_no_clash(js, i + 1, a, b);
    } else {
        assert(!clashes(js, b));
        assert(js[a].child != js[b].child);
    }
}

proof fn lemma_new_child(t: RobotTree, root: int, done: Seq<int>, cur: int, ji: int, d: Draft)
    requires
        sound(t, root),
        steady(t, root, done, cur, ji, d),
        cur >= 0,
        0 <= ji < t.joints@.len(),
        t.joints@[ji].parent == cur,
    ensures
        !is_frame(d.frames, t.joints@[ji].child as int),
{
    reveal(steady);
    let c = t.joints@[ji].child as int;
    if is_frame(d.frames, c) {
        let k = choose|k: int| 0 <= k < d.frames.len() && (#[trigger] d.frames[k]).link == c;
        assert(c != root);
        assert(reached(t, done, cur, ji, d.frames[k].link));
        let j = choose|j: int|
            0 <= j < t.joints@.len() && (#[trigger] t.joints@[j]).child == c && followed(
                t,
                done,
                cur,
                ji,
                j,
            );
        if j < ji {
            lemma_no_clash(t.joints@, 0, j, ji);
        } else if ji < j {
            lemma_no_clash(t.joints@, 0, ji, j);
        }
        assert(j == ji);
    }
}

/// Following one joint keeps the state steady.
proof fn lemma_visit_joint(
    t: RobotTree,
    root: int,
    done: Seq<int>,
    cur: int,
    ji: int,
    at: Placed,
    d: Draft,
)
    requires
        sound(t, root),
        steady(t, root, done, cur, ji, d),
        cur >= 0,
        0 <= ji < t.joints@.len(),
        t.joints@[ji].parent == cur,
        at.link == cur,
        match at.anchor {
            Some(a) => 0 <= a < d.dofs.len(),
            None => true,
        },
        chain_within(at.chain, t.joints@.len()),
    ensures
        match visit_joint(t, d, at, ji) {
            Ok(d2) => steady(t, root, done, cur, ji + 1, d2) && d2.dofs.len() >= d.dofs.len()
                && d2.frames.len() == d.frames.len() + 1 && d2.stack.len() == d.stack.len() + 1,
            Err(e) => true,
        },
{
    reveal(steady);
    lemma_new_child(t, root, done, cur, ji, d);
    let c = t.joints@[ji].child as int;
    match visit_joint(t, d, at, ji) {
        Ok(d2) => {
            assert forall|l: int| #[trigger] is_frame(d.frames, l) implies is_frame(
                d2.frames,
                l,
            ) by {
                let k = choose|k: int|
                    0 <= k < d.frames.len() && (#[trigger] d.frames[k]).link == l;
                assert(d2.frames[k].link == l);
            }
            assert(is_frame(d2.frames, c)) by {
                assert(d2.frames[d.frames.len() as int].link == c);
            }
            assert forall|l: int| #[trigger] reached(t, done, cur, ji, l) implies reached(
                t,
                done,
                cur,
                ji + 1,
                l,
            ) by {
                let j = choose|j: int|
                    0 <= j < t.joints@.len() && (#[trigger] t.joints@[j]).child == l && followed(
                        t,
                        done,
                        cur,
                        ji,
                        j,
                    );
                assert(followed(t, done, cur, ji + 1, j));
            }
            assert(reached(t, done, cur, ji + 1, c)) by {
                assert(followed(t, done, cur, ji + 1, ji));
            }
            assert forall|k: int| 0 <= k < d2.frames.len() implies 0 <= (
            #[trigger] d2.frames[k]).link < t.links@.len() && (d2.frames[k].link == root
                || reached(t, done, cur, ji + 1, d2.frames[k].link)) && (match d2.frames[k].anchor {
                Some(a) => 0 <= a < d2.dofs.len(),
                None => true,
            }) && chain_within(d2.frames[k].chain, t.joints@.len()) by {
                if k < d.frames.len() {
                    assert(d2.frames[k] == d.frames[k]);
                }
            }
            assert forall|i: int, j: int| 0 <= i < j < d2.frames.len() implies (
            #[trigger] d2.frames[i]).link != (#[trigger] d2.frames[j]).link by {
                assert(d2.frames[i] == d.frames[i]);
                if j < d.frames.len() {
                    assert(d2.frames[j] == d.frames[j]);
                } else {
                    assert(is_frame(d.frames, d.frames[i].link));
                }
            }
            assert forall|k: int| 0 <= k < d2.stack.len() implies is_frame(
                d2.frames,
                #[trigger] d2.stack[k],
            ) && !done.contains(d2.stack[k]) && d2.stack[k] != cur by {
                if k < d.stack.len() {
                    assert(d2.stack[k] == d.stack[k]);
                    assert(is_frame(d.frames, d.stack[k]));
                } else {
                    if done.contains(c) {
                        let x = choose|x: int| 0 <= x < done.len() && done[x] == c;
                        assert(is_frame(d.frames, done[x]));
                    }
                }
            }
            assert forall|i: int, j: int| 0 <= i < j < d2.stack.len() implies
                #[trigger] d2.stack[i] != #[trigger] d2.stack[j] by {
                assert(d2.stack[i] == d.stack[i]);
                assert(is_frame(d.frames, d.stack[i]));
                if j < d.stack.len() {
                    assert(d2.stack[j] == d.stack[j]);
                }
            }
            assert forall|k: int| 0 <= k < done.len() implies is_frame(
                d2.frames,
                #[trigger] done[k],
            ) by {
                assert(is_frame(d.frames, done[k]));
            }
            assert forall|i: int| 0 <= i < d2.dofs.len() implies 0 <= (
            #[trigger] d2.dofs[i]).joint < t.joints@.len() && (match d2.dofs[i].parent {
                Some(p) => 0 <= p < i,
                None => true,
            }) && chain_within(d2.dofs[i].chain, t.joints@.len()) by {
                if i < d.dofs.len() {
                    assert(d2.dofs[i] == d.dofs[i]);
                }
            }
        },
        Err(e) => {},
    }
}

/// A joint of another link leaves the state steady.
proof fn lemma_skip_joint(t: RobotTree, root: int, done: Seq<int>, cur: int, ji: int, d: Draft)
    requires
        steady(t, root, done, cur, ji, d),
        0 <= ji < t.joints@.len(),
        t.joints@[ji].parent != cur,
    ensures
        steady(t, root, done, cur, ji + 1, d),
{
    reveal(steady);
    assert forall|k: int| 0 <= k < d.frames.len() implies (#[trigger] d.frames[k]).link == root
        || reached(t, done, cur, ji + 1, d.frames[k].link) by {
        if d.frames[k].link != root {
            let l = d.frames[k].link;
            assert(reached(t, done, cur, ji, l));
            let j = choose|j: int|
                0 <= j < t.joints@.len() && (#[trigger] t.joints@[j]).child == l && followed(
                    t,
                    done,
                    cur,
                    ji,
                    j,
                );
            assert(followed(t, done, cur, ji + 1, j));
        }
    }
}

/// Taking a link off the stack to follow its joints.
proof fn lemma_pop(t: RobotTree, root: int, done: Seq<int>, b: int, d: Draft)
    requires
        steady(t, root, done, -1, b, d),
        d.stack.len() > 0,
        d.stack.last() >= 0,
    ensures
        steady(t, root, done, d.stack.last(), 0, popped(d)),
{
    reveal(steady);
    let p = popped(d);
    let cur = d.stack.last();
    assert(d.stack[d.stack.len() - 1] == cur);
    assert forall|k: int| 0 <= k < p.stack.len() implies is_frame(p.frames, #[trigger] p.stack[k])
        && !done.contains(p.stack[k]) && p.stack[k] != cur by {
        assert(p.stack[k] == d.stack[k]);
    }
    assert forall|i: int, j: int| 0 <= i < j < p.stack.len() implies #[trigger] p.stack[i]
        != #[trigger] p.stack[j] by {
        assert(p.stack[i] == d.stack[i] && p.stack[j] == d.stack[j]);
    }
    assert forall|k: int| 0 <= k < p.frames.len() implies (#[trigger] p.frames[k]).link == root
        || reached(t, done, cur, 0, p.frames[k].link) by {
        assert(p.frames[k] == d.frames[k]);
        if p.frames[k].link != root {
            let l = p.frames[k].link;
            assert(reached(t, done, -1, b, l));
            let j = choose|j: int|
                0 <= j < t.joints@.len() && (#[trigger] t.joints@[j]).child == l && followed(
                    t,
                    done,
                    -1,
                    b,
                    j,
                );
            assert(followed(t, done, cur, 0, j));
        }
    }
}

/// The link whose joints have all been followed is done.
proof fn lemma_finish(t: RobotTree, root: int, done: Seq<int>, cur: int, d: Draft)
    requires
        steady(t, root, done, cur, t.joints@.len() as int, d),
        cur >= 0,
    ensures
        steady(t, root, done.push(cur), -1, 0, d),
{
    reveal(steady);
    let after = done.push(cur);
    assert forall|x: int| #[trigger] after.contains(x) implies done.contains(x) || x == cur by {
        let k = choose|k: int| 0 <= k < after.len() && after[k] == x;
        if k < done.len() {
            assert(done[k] == x);
        }
    }
    assert forall|x: int| #[trigger] done.contains(x) implies after.contains(x) by {
        let k = choose|k: int| 0 <= k < done.len() && done[k] == x;
        assert(after[k] == x);
    }
    assert(after[done.len() as int] == cur);
    assert forall|k: int| 0 <= k < after.len() implies is_frame(
        d.frames,
        #[trigger] after[k],
    ) by {
        if k < done.len() {
            assert(after[k] == done[k]);
        }
    }
    assert forall|k: int| 0 <= k < d.frames.len() implies (#[trigger] d.frames[k]).link == root
        || reached(t, after, -1, 0, d.frames[k].link) by {
        if d.frames[k].link != root {
            let l = d.frames[k].link;
            assert(reached(t, done, cur, t.joints@.len() as int, l));
            let j = choose|j: int|
                0 <= j < t.joints@.len() && (#[trigger] t.joints@[j]).child == l && followed(
                    t,
                    done,
                    cur,
                    t.joints@.len() as int,
                    j,
                );
            assert(followed(t, after, -1, 0, j));
        }
    }
}

/// There are no more frames than links.
proof fn lemma_frame_count(t: RobotTree, root: int, done: Seq<int>, cur: int, b: int, d: Draft)
    requires
        steady(t, root, done, cur, b, d),
    ensures
        d.frames.len() <= t.links@.len(),
{
    reveal(steady);
    let s = Seq::new(d.frames.len(), |k: int| d.frames[k].link);
    assert(s.no_duplicates()) by {
        assert forall|i: int, j: int| 0 <= i < s.len() && 0 <= j < s.len() && i != j implies s[i]
            != s[j] by {
            if i < j {
                assert(d.frames[i].link != d.frames[j].link);
            } else {
                assert(d.frames[j].link != d.frames[i].link);
            }
        }
    }
    let n = t.links@.len() as int;
    s.unique_seq_to_set();
    vstd::set_lib::lemma_int_range(0, n);
    assert(s.to_set().subset_of(vstd::set_lib::set_int_range(0, n))) by {
        assert forall|x: int| s.to_set().contains(x) implies #[trigger] vstd::set_lib::set_int_range(
            0,
            n,
        ).contains(x) by {
            let k = choose|k: int| 0 <= k < s.len() && s[k] == x;
            assert(0 <= d.frames[k].link < n);
        }
    }
    vstd::set_lib::lemma_len_subset(s.to_set(), vstd::set_lib::set_int_range(0, n));
}

/// The placement of a link is the frame it is.
proof fn lemma_placed(frames: Seq<Placed>, k: int)
    requires
        0 <= k < frames.len(),
        forall|i: int, j: int|
            0 <= i < j < frames.len() ==> (#[trigger] frames[i]).link != (
            #[trigger] frames[j]).link,
    ensures
        placed(frames, frames[k].link) == frames[k],
    decreases frames.len(),
{
    if k < frames.len() - 1 {
        let h = frames.drop_last();
        assert forall|i: int, j: int| 0 <= i < j < h.len() implies (#[trigger] h[i]).link != (
        #[trigger] h[j]).link by {
            assert(frames[i].link != frames[j].link);
        }
        assert(frames[k].link != frames[frames.len() - 1].link);
        lemma_placed(h, k);
        assert(h[k] == frames[k]);
    }
}

proof fn lemma_visit_from(
    t: RobotTree,
    root: int,
    done: Seq<int>,
    at: Placed,
    ji: int,
    d: Draft,
)
    requires
        sound(t, root),
        steady(t, root, done, at.link, ji, d),
        at.link >= 0,
        0 <= ji <= t.joints@.len(),
        match at.anchor {
            Some(a) => 0 <= a < d.dofs.len(),
            None => true,
        },
        chain_within(at.chain, t.joints@.len()),
    ensures
        match visit_from(t, d, at, ji) {
            Ok(d2) => steady(t, root, done, at.link, t.joints@.len() as int, d2),
            Err(e) => true,
        },
    decreases t.joints@.len() - ji,
{
    if ji < t.joints@.len() {
        if t.joints@[ji].parent != at.link {
            lemma_skip_joint(t, root, done, at.link, ji, d);
            lemma_visit_from(t, root, done, at, ji + 1, d);
        } else {
            lemma_visit_joint(t, root, done, at.link, ji, at, d);
            match visit_joint(t, d, at, ji) {
                Ok(d2) => {
                    lemma_visit_from(t, root, done, at, ji + 1, d2);
                },
                Err(e) => {},
            }
        }
    }
}

/// One turn of the visit: a link is taken off the stack and done.
proof fn lemma_turn(t: RobotTree, root: int, done: Seq<int>, d: Draft)
    requires
        sound(t, root),
        steady(t, root, done, -1, 0, d),
        d.stack.len() > 0,
    ensures
        done.len() < t.links@.len(),
        match visit_from(t, popped(d), placed(d.frames, d.stack.last()), 0) {
            Ok(d2) => steady(t, root, done.push(d.stack.last()), -1, 0, d2),
            Err(_) => true,
        },
{
    let cur = d.stack.last();
    let at = placed(d.frames, cur);
    lemma_frame_count(t, root, done, -1, 0, d);
    assert(cur >= 0 && at.link == cur && (match at.anchor {
        Some(a) => 0 <= a < d.dofs.len(),
        None => true,
    }) && chain_within(at.chain, t.joints@.len()) && done.len() < d.frames.len()) by {
        reveal(steady);
        assert(is_frame(d.frames, d.stack[d.stack.len() - 1]));
        let k = choose|k: int| 0 <= k < d.frames.len() && (#[trigger] d.frames[k]).link == cur;
        lemma_placed(d.frames, k);
        assert(0 <= d.frames[k].link);
    }
    lemma_pop(t, root, done, 0, d);
    lemma_visit_from(t, root, done, at, 0, popped(d));
    match visit_from(t, popped(d), at, 0) {
        Ok(d2) => {
            lemma_finish(t, root, done, cur, d2);
        },
        Err(_) => {},
    }
}

proof fn lemma_visit(t: RobotTree, root: int, done: Seq<int>, d: Draft, fuel: nat) -> (r: Seq<int>)
    requires
        sound(t, root),
        steady(t, root, done, -1, 0, d),
    ensures
        match visit(t, d, fuel) {
            Ok(d2) => steady(t, root, r, -1, 0, d2),
            Err(e) => true,
        },
    decreases fuel,
{
    if fuel == 0 || d.stack.len() == 0 {
        done
    } else {
        lemma_turn(t, root, done, d);
        match visit_from(t, popped(d), placed(d.frames, d.stack.last()), 0) {
            Ok(d2) => lemma_visit(t, root, done.push(d.stack.last()), d2, (fuel - 1) as nat),
            Err(e) => done,
        }
    }
}

proof fn lemma_start(t: RobotTree, root: int)
    requires
        sound(t, root),
    ensures
        steady(t, root, Seq::empty(), -1, 0, draft_at(root)),
{
    reveal(steady);
    let d = draft_at(root);
    assert(d.frames[0].link == root);
    assert(is_frame(d.frames, root));
}

// ---- compiling ----

struct Step {
    joint: usize,
    parent: Option<usize>,
    chain: Vec<usize>,
    axis: Vec3,
}

struct Spot {
    link: usize,
    anchor: Option<usize>,
    chain: Vec<usize>,
}

struct Stage {
    dofs: Vec<Step>,
    frames: Vec<Spot>,
    shares: Vec<Share>,
    full: bool,
    stack: Vec<usize>,
}

spec fn step_view(s: Step) -> Dof {
    Dof {
        joint: s.joint as int,
        parent: opt_int(s.parent),
        chain: ints(s.chain@),
        axis: s.axis,
    }
}

spec fn spot_view(s: Spot) -> Placed {
    Placed { link: s.link as int, anchor: opt_int(s.anchor), chain: ints(s.chain@) }
}

spec fn dofs_of(v: Seq<Step>) -> Seq<Dof> {
    Seq::new(v.len(), |i: int| step_view(v[i]))
}

spec fn frames_of(v: Seq<Spot>) -> Seq<Placed> {
    Seq::new(v.len(), |i: int| spot_view(v[i]))
}

spec fn draft_of(s: Stage) -> Draft {
    Draft {
        dofs: dofs_of(s.dofs@),
        frames: frames_of(s.frames@),
        shares: share_views(s.shares@),
        full: s.full,
        stack: ints(s.stack@),
    }
}

fn copy_chain(v: &Vec<usize>) -> (r: Vec<usize>)
    ensures
        r@ == v@,
{
    let mut out: Vec<usize> = Vec::new();
    let mut i: usize = 0;
    while i < v.len()
        invariant
            i <= v.len(),
            out@ == v@.take(i as int),
        decreases v.len() - i,
    {
        out.push(v[i]);
        i = i + 1;
        assert(v@.take(i as int) =~= v@.take(i - 1).push(v@[i - 1]));
    }
    assert(v@.take(v@.len() as int) =~= v@);
    out
}

/// The root of the tree, where it has one and no link has two parents.
fn find_root(t: &RobotTree) -> (r: Result<usize, CompileError>)
    requires
        tree_wf(*t),
    ensures
        match r {
            Ok(x) => first_clash(t.joints@, 0) is None && roots(t.joints@, t.links@.len())
                == seq![x as int] && x < t.links.len() && is_root(t.joints@, x as int),
            Err(e) => compile_fault(*t) == Some(e@) && match first_clash(t.joints@, 0) {
                Some(_) => true,
                None => roots(t.joints@, t.links@.len()).len() != 1,
            },
        },
{
    let n: usize = t.links.len();
    let mut led: Vec<bool> = Vec::new();
    while led.len() < n
        invariant
            led.len() <= n,
            forall|k: int| 0 <= k < led.len() ==> !#[trigger] led@[k],
        decreases n - led.len(),
    {
        led.push(false);
    }
    let ghost js = t.joints@;
    let mut ji: usize = 0;
    while ji < t.joints.len()
        invariant
            ji <= t.joints.len(),
            js == t.joints@,
            tree_wf(*t),
            led.len() == n,
            n == t.links.len(),
            first_clash(js, 0) == first_clash(js, ji as int),
            forall|l: int|
                0 <= l < n ==> #[trigger] led@[l] == (exists|k: int|
                    0 <= k < ji && (#[trigger] js[k]).child == l),
        decreases t.joints.len() - ji,
    {
        let c: usize = t.joints[ji].child;
        assert(led@[c as int] == clashes(js, ji as int));
        if led[c] {
            assert(first_clash(js, 0) == Some(ji as int));
            return Err(CompileError::MultiParent(copy_string(&t.links[c].name)));
        }
        let ghost before = led@;
        led.set(c, true);
        assert forall|l: int| 0 <= l < n implies #[trigger] led@[l] == (exists|k: int|
            0 <= k < ji + 1 && (#[trigger] js[k]).child == l) by {
            if l == c {
                assert(js[ji as int].child == l);
            } else {
                assert(led@[l] == before[l]);
                if before[l] {
                    let k = choose|k: int| 0 <= k < ji && (#[trigger] js[k]).child == l;
                    assert(js[k].child == l);
                }
            }
        }
        ji = ji + 1;
    }
    let mut found: Vec<usize> = Vec::new();
    let mut l: usize = 0;
    assert(ints(found@) =~= Seq::empty());
    while l < n
        invariant
            l <= n,
            led.len() == n,
            js == t.joints@,
            forall|l: int|
                0 <= l < n ==> #[trigger] led@[l] == (exists|k: int|
                    0 <= k < js.len() && (#[trigger] js[k]).child == l),
            ints(found@) == roots(js, l as nat),
            forall|k: int|
                0 <= k < found.len() ==> #[trigger] found@[k] < n && is_root(js, found@[k] as int),
        decreases n - l,
    {
        let up = led[l];
        proof {
            assert(led@[l as int] == (exists|k: int|
                0 <= k < js.len() && (#[trigger] js[k]).child == l));
            if !up {
                assert forall|k: int| 0 <= k < js.len() implies (#[trigger] js[k]).child != l by {}
            }
            assert(is_root(js, l as int) == !up);
        }
        if !up {
            let ghost before = found@;
            found.push(l);
            assert(ints(found@) =~= ints(before).push(l as int));
        }
        l = l + 1;
    }
    assert(ints(found@).len() == found.len());
    if found.len() == 0 {
        return Err(CompileError::NoRoot);
    }
    if found.len() > 1 {
        return Err(CompileError::MultiRoot);
    }
    assert(ints(found@) =~= seq![found@[0] as int]);
    Ok(found[0])
}

/// Follows one joint.
fn follow(t: &RobotTree, st: &mut Stage, at: &Spot, ji: usize) -> (r: Result<(), CompileError>)
    requires
        tree_wf(*t),
        ji < t.joints.len(),
    ensures
        match r {
            Ok(_) => visit_joint(*t, draft_of(*old(st)), spot_view(*at), ji as int) == Ok::<
                Draft,
                CompileFault,
            >(draft_of(*final(st))),
            Err(e) => visit_joint(*t, draft_of(*old(st)), spot_view(*at), ji as int) == Err::<
                Draft,
                CompileFault,
            >(e@),
        },
{
    let ghost d0 = draft_of(*st);
    let ghost s0 = *st;
    let j = &t.joints[ji];
    let c: usize = j.child;
    let heavy: bool = t.links[c].inertial;
    let mut chain = copy_chain(&at.chain);
    chain.push(ji);
    assert(ints(chain@) =~= ints(at.chain@).push(ji as int));
    let fixed = match j.kind {
        RawKind::Fixed => true,
        _ => false,
    };
    if fixed {
        match at.anchor {
            Some(a) => {
                if heavy {
                    let own = copy_chain(&chain);
                    st.shares.push(Share { dof: a, link: c, chain: own });
                    assert(share_views(st.shares@) =~= share_views(s0.shares@).push(
                        (a as int, c as int, ints(chain@)),
                    ));
                } else {
                    st.full = false;
                }
            },
            None => {},
        }
        st.frames.push(Spot { link: c, anchor: at.anchor, chain });
        st.stack.push(c);
        proof {
            let ghost g = Placed {
                link: c as int,
                anchor: opt_int(at.anchor),
                chain: ints(at.chain@).push(ji as int),
            };
            assert(frames_of(st.frames@) =~= frames_of(s0.frames@).push(g));
            assert(ints(st.stack@) =~= ints(s0.stack@).push(c as int));
        }
    } else {
        let len = j.axis.norm();
        if !len.gt(Scalar { bits: SHORT_AXIS_BITS }) {
            return Err(CompileError::ZeroAxis(copy_string(&j.name)));
        }
        let n: usize = st.dofs.len();
        st.dofs.push(Step { joint: ji, parent: at.anchor, chain, axis: j.axis.over(len) });
        if heavy {
            st.shares.push(Share { dof: n, link: c, chain: Vec::new() });
        } else {
            st.full = false;
        }
        st.frames.push(Spot { link: c, anchor: Some(n), chain: Vec::new() });
        st.stack.push(c);
        proof {
            let ghost x = Dof {
                joint: ji as int,
                parent: opt_int(at.anchor),
                chain: ints(at.chain@).push(ji as int),
                axis: vdiv(j.axis, vnorm(j.axis)),
            };
            assert(ints(Seq::<usize>::empty()) =~= Seq::<int>::empty());
            assert(dofs_of(st.dofs@) =~= dofs_of(s0.dofs@).push(x));
            if heavy {
                assert(share_views(st.shares@) =~= share_views(s0.shares@).push(
                    (n as int, c as int, Seq::empty()),
                ));
            }
            assert(frames_of(st.frames@) =~= frames_of(s0.frames@).push(
                Placed { link: c as int, anchor: Some(n as int), chain: Seq::empty() },
            ));
            assert(ints(st.stack@) =~= ints(s0.stack@).push(c as int));
        }
    }
    proof {
        let ghost d1 = draft_of(*st);
        match visit_joint(*t, d0, spot_view(*at), ji as int) {
            Ok(d2) => {
                assert(d1 =~= d2);
            },
            Err(_) => {},
        }
    }
    Ok(())
}

/// Follows the joints of a link.
fn visit_link(t: &RobotTree, st: &mut Stage, at: &Spot) -> (r: Result<(), CompileError>)
    requires
        tree_wf(*t),
    ensures
        match r {
            Ok(_) => visit_from(*t, draft_of(*old(st)), spot_view(*at), 0) == Ok::<
                Draft,
                CompileFault,
            >(draft_of(*final(st))),
            Err(e) => visit_from(*t, draft_of(*old(st)), spot_view(*at), 0) == Err::<
                Draft,
                CompileFault,
            >(e@),
        },
{
    let ghost target = visit_from(*t, draft_of(*st), spot_view(*at), 0);
    let mut ji: usize = 0;
    while ji < t.joints.len()
        invariant
            ji <= t.joints.len(),
            tree_wf(*t),
            target == visit_from(*t, draft_of(*old(st)), spot_view(*at), 0),
            target == visit_from(*t, draft_of(*st), spot_view(*at), ji as int),
        decreases t.joints.len() - ji,
    {
        if t.joints[ji].parent == at.link {
            match follow(t, st, at, ji) {
                Ok(_) => {},
                Err(e) => {
                    return Err(e);
                },
            }
        }
        ji = ji + 1;
    }
    Ok(())
}

/// The placement of a link that is a frame.
fn spot_of(frames: &Vec<Spot>, link: usize) -> (r: Spot)
    ensures
        spot_view(r) == placed(frames_of(frames@), link as int),
{
    let ghost all = frames_of(frames@);
    let mut k: usize = frames.len();
    assert(all.take(k as int) =~= all);
    while k > 0
        invariant
            k <= frames.len(),
            all == frames_of(frames@),
            placed(all, link as int) == placed(all.take(k as int), link as int),
        decreases k,
    {
        k = k - 1;
        proof {
            assert(all.take(k + 1).last() == all[k as int]);
            assert(all.take(k + 1).drop_last() =~= all.take(k as int));
        }
        if frames[k].link == link {
            let chain = copy_chain(&frames[k].chain);
            return Spot { link, anchor: frames[k].anchor, chain };
        }
    }
    let r = Spot { link, anchor: None, chain: Vec::new() };
    assert(ints(r.chain@) =~= Seq::empty());
    r
}

/// Visits the tree from its root.
fn visit_all(t: &RobotTree, root: usize) -> (r: Result<Stage, CompileError>)
    requires
        sound(*t, root as int),
        roots(t.joints@, t.links@.len()) == seq![root as int],
    ensures
        match r {
            Ok(st) => visited(*t) == Ok::<Draft, CompileFault>(draft_of(st)) && exists|
                done: Seq<int>,
            | #[trigger]
                steady(*t, root as int, done, -1, 0, draft_of(st)),
            Err(e) => visited(*t) == Err::<Draft, CompileFault>(e@),
        },
{
    let mut frames: Vec<Spot> = Vec::new();
    frames.push(Spot { link: root, anchor: None, chain: Vec::new() });
    let mut stack: Vec<usize> = Vec::new();
    stack.push(root);
    let mut st = Stage {
        dofs: Vec::new(),
        frames,
        shares: Vec::new(),
        full: true,
        stack,
    };
    let ghost mut done: Seq<int> = Seq::empty();
    let ghost n = t.links@.len();
    let ghost target = visited(*t);
    proof {
        assert(ints(Seq::<usize>::empty()) =~= Seq::<int>::empty());
        assert(draft_of(st).frames =~= draft_at(root as int).frames);
        assert(draft_of(st).stack =~= draft_at(root as int).stack);
        assert(draft_of(st) =~= draft_at(root as int));
        lemma_start(*t, root as int);
    }
    while st.stack.len() > 0
        invariant
            sound(*t, root as int),
            n == t.links@.len(),
            steady(*t, root as int, done, -1, 0, draft_of(st)),
            target == visited(*t),
            done.len() <= n,
            target == visit(*t, draft_of(st), (n - done.len()) as nat),
        decreases n - done.len(),
    {
        let ghost d = draft_of(st);
        let ghost before = st.stack@;
        proof {
            lemma_turn(*t, root as int, done, d);
            assert(d.stack.len() == st.stack@.len());
        }
        let link: usize = match st.stack.pop() {
            Some(x) => x,
            None => {
                return Ok(st);
            },
        };
        let at = spot_of(&st.frames, link);
        proof {
            assert(ints(before).last() == link);
            assert(ints(st.stack@) =~= ints(before).drop_last());
            assert(draft_of(st) =~= popped(d));
        }
        match visit_link(t, &mut st, &at) {
            Ok(_) => {
                proof {
                    done = done.push(link as int);
                }
            },
            Err(e) => {
                return Err(e);
            },
        }
    }
    proof {
        let d = draft_of(st);
        assert(d.stack.len() == 0);
        assert(visit(*t, d, (n - done.len()) as nat) == Ok::<Draft, CompileFault>(d));
        assert(steady(*t, root as int, done, -1, 0, d));
    }
    Ok(st)
}

/// Position of the last frame of that name.
fn find_frame(t: &RobotTree, frames: &Vec<Spot>, name: &String) -> (r: Option<usize>)
    requires
        forall|k: int| 0 <= k < frames.len() ==> (#[trigger] frames@[k]).link < t.links.len(),
    ensures
        opt_int(r) == last_named(frame_names(*t, frames_of(frames@)), name@),
        match r {
            Some(k) => k < frames.len(),
            None => true,
        },
{
    let ghost all = frame_names(*t, frames_of(frames@));
    let mut k: usize = frames.len();
    assert(all.take(k as int) =~= all);
    while k > 0
        invariant
            k <= frames.len(),
            forall|k: int| 0 <= k < frames.len() ==> (#[trigger] frames@[k]).link < t.links.len(),
            all == frame_names(*t, frames_of(frames@)),
            last_named(all, name@) == last_named(all.take(k as int), name@),
        decreases k,
    {
        k = k - 1;
        proof {
            assert(all.take(k + 1).last() == all[k as int]);
            assert(all.take(k + 1).drop_last() =~= all.take(k as int));
            assert(frames_of(frames@)[k as int].link == frames@[k as int].link);
        }
        if same_string(&t.links[frames[k].link].name, name) {
            return Some(k);
        }
    }
    None
}

/// Position of the last movable joint of that name.
fn find_dof(t: &RobotTree, dofs: &Vec<Step>, name: &String) -> (r: Option<usize>)
    requires
        forall|k: int| 0 <= k < dofs.len() ==> (#[trigger] dofs@[k]).joint < t.joints.len(),
    ensures
        opt_int(r) == last_named(dof_names(*t, dofs_of(dofs@)), name@),
        match r {
            Some(k) => k < dofs.len(),
            None => true,
        },
{
    let ghost all = dof_names(*t, dofs_of(dofs@));
    let mut k: usize = dofs.len();
    assert(all.take(k as int) =~= all);
    while k > 0
        invariant
            k <= dofs.len(),
            forall|k: int| 0 <= k < dofs.len() ==> (#[trigger] dofs@[k]).joint < t.joints.len(),
            all == dof_names(*t, dofs_of(dofs@)),
            last_named(all, name@) == last_named(all.take(k as int), name@),
        decreases k,
    {
        k = k - 1;
        proof {
            assert(all.take(k + 1).last() == all[k as int]);
            assert(all.take(k + 1).drop_last() =~= all.take(k as int));
            assert(dofs_of(dofs@)[k as int].joint == dofs@[k as int].joint);
        }
        if same_string(&t.joints[dofs[k].joint].name, name) {
            return Some(k);
        }
    }
    None
}

/// Name of the first link that no frame is named after.
fn find_orphan(t: &RobotTree, frames: &Vec<Spot>) -> (r: String)
    requires
        forall|k: int| 0 <= k < frames.len() ==> (#[trigger] frames@[k]).link < t.links.len(),
    ensures
        r@ == orphan(*t, frame_names(*t, frames_of(frames@)), 0),
{
    let ghost names = frame_names(*t, frames_of(frames@));
    let mut i: usize = 0;
    while i < t.links.len()
        invariant
            i <= t.links.len(),
            forall|k: int| 0 <= k < frames.len() ==> (#[trigger] frames@[k]).link < t.links.len(),
            names == frame_names(*t, frames_of(frames@)),
            orphan(*t, names, 0) == orphan(*t, names, i as int),
        decreases t.links.len() - i,
    {
        if find_frame(t, frames, &t.links[i].name).is_none() {
            return copy_string(&t.links[i].name);
        }
        i = i + 1;
    }
    let empty: Vec<char> = Vec::new();
    crate::text::string_of(&empty)
}

/// Resolves the mimic constraints.
fn resolve_mimics(t: &RobotTree, dofs: &Vec<Step>) -> (r: Result<
    Vec<Option<MimicInfo>>,
    CompileError,
>)
    requires
        forall|k: int| 0 <= k < dofs.len() ==> (#[trigger] dofs@[k]).joint < t.joints.len(),
    ensures
        match r {
            Ok(v) => first_mimic_fault(*t, dofs_of(dofs@), 0) is None && v.len() == dofs.len()
                && forall|i: int|
                0 <= i < v.len() ==> #[trigger] v@[i] == mimic_of(*t, dofs_of(dofs@), i),
            Err(e) => first_mimic_fault(*t, dofs_of(dofs@), 0) == Some(e@),
        },
{
    let ghost all = dofs_of(dofs@);
    let mut out: Vec<Option<MimicInfo>> = Vec::new();
    let mut i: usize = 0;
    while i < dofs.len()
        invariant
            i <= dofs.len(),
            out.len() == i,
            forall|k: int| 0 <= k < dofs.len() ==> (#[trigger] dofs@[k]).joint < t.joints.len(),
            all == dofs_of(dofs@),
            first_mimic_fault(*t, all, 0) == first_mimic_fault(*t, all, i as int),
            forall|k: int| 0 <= k < i ==> #[trigger] out@[k] == mimic_of(*t, all, k),
        decreases dofs.len() - i,
    {
        let j = &t.joints[dofs[i].joint];
        assert(all[i as int].joint == dofs@[i as int].joint);
        match &j.mimic {
            None => {
                out.push(None);
            },
            Some(raw) => {
                match find_dof(t, dofs, &raw.source) {
                    None => {
                        return Err(
                            CompileError::MimicUnknownSource {
                                joint: copy_string(&j.name),
                                src_joint: copy_string(&raw.source),
                            },
                        );
                    },
                    Some(s) => {
                        assert(all[s as int].joint == dofs@[s as int].joint);
                        if t.joints[dofs[s].joint].mimic.is_some() {
                            return Err(
                                CompileError::MimicOfMimic {
                                    joint: copy_string(&j.name),
                                    src_joint: copy_string(&raw.source),
                                },
                            );
                        }
                        out.push(
                            Some(
                                MimicInfo {
                                    source: s,
                                    multiplier: raw.multiplier,
                                    offset: raw.offset,
                                },
                            ),
                        );
                    },
                }
            },
        }
        i = i + 1;
    }
    Ok(out)
}

/// The collision shapes on their frames, and the frames that lost one.
fn attach_collisions(t: &RobotTree, frames: &Vec<Spot>) -> (r: (Vec<CollisionGeom>, Vec<usize>))
    requires
        forall|k: int| 0 <= k < frames.len() ==> (#[trigger] frames@[k]).link < t.links.len(),
    ensures
        collision_views(r.0@) == colliders(
            *t,
            frame_names(*t, frames_of(frames@)),
            t.links@.len(),
        ),
        ints(r.1@) == uncovered(*t, frame_names(*t, frames_of(frames@)), t.links@.len()),
{
    let ghost names = frame_names(*t, frames_of(frames@));
    let mut out: Vec<CollisionGeom> = Vec::new();
    let mut lost: Vec<usize> = Vec::new();
    let mut l: usize = 0;
    assert(collision_views(out@) =~= Seq::empty());
    assert(ints(lost@) =~= Seq::empty());
    while l < t.links.len()
        invariant
            l <= t.links.len(),
            forall|k: int| 0 <= k < frames.len() ==> (#[trigger] frames@[k]).link < t.links.len(),
            names == frame_names(*t, frames_of(frames@)),
            collision_views(out@) == colliders(*t, names, l as nat),
            ints(lost@) == uncovered(*t, names, l as nat),
        decreases t.links.len() - l,
    {
        let link = &t.links[l];
        match find_frame(t, frames, &link.name) {
            Some(f) => {
                let ghost head = collision_views(out@);
                let ghost tail = Seq::new(
                    link.collision@.len(),
                    |k: int|
                        (
                            f as int,
                            l as int,
                            link.collision@[k].index as int,
                            shape_view(link.collision@[k].shape),
                        ),
                );
                let mut k: usize = 0;
                assert(head + tail.take(0) =~= head);
                while k < link.collision.len()
                    invariant
                        k <= link.collision.len(),
                        collision_views(out@) == head + tail.take(k as int),
                        tail == Seq::new(
                            link.collision@.len(),
                            |k: int|
                                (
                                    f as int,
                                    l as int,
                                    link.collision@[k].index as int,
                                    shape_view(link.collision@[k].shape),
                                ),
                        ),
                    decreases link.collision.len() - k,
                {
                    let ghost before = out@;
                    let c = &link.collision[k];
                    let shape = copy_shape(&c.shape);
                    out.push(CollisionGeom { frame: f, link: l, index: c.index, shape });
                    k = k + 1;
                    assert(collision_views(out@) =~= collision_views(before).push(tail[k - 1]));
                    assert(head + tail.take(k as int) =~= (head + tail.take(k - 1)).push(
                        tail[k - 1],
                    ));
                }
                assert(tail.take(tail.len() as int) =~= tail);
                assert(collision_views(out@) == head + tail);
                assert(last_named(names, link.name@) == Some(f as int));
                assert(colliders(*t, names, (l + 1) as nat) =~= head + tail);
                if link.dropped {
                    let ghost before = lost@;
                    lost.push(f);
                    assert(ints(lost@) =~= ints(before).push(f as int));
                }
            },
            None => {},
        }
        l = l + 1;
    }
    (out, lost)
}

/// The visual shapes on their frames.
fn attach_visuals(t: &RobotTree, frames: &Vec<Spot>) -> (r: Vec<VisualGeom>)
    requires
        forall|k: int| 0 <= k < frames.len() ==> (#[trigger] frames@[k]).link < t.links.len(),
    ensures
        visual_views(r@) == drawn(*t, frame_names(*t, frames_of(frames@)), t.links@.len()),
{
    let ghost names = frame_names(*t, frames_of(frames@));
    let mut out: Vec<VisualGeom> = Vec::new();
    let mut l: usize = 0;
    assert(visual_views(out@) =~= Seq::empty());
    while l < t.links.len()
        invariant
            l <= t.links.len(),
            forall|k: int| 0 <= k < frames.len() ==> (#[trigger] frames@[k]).link < t.links.len(),
            names == frame_names(*t, frames_of(frames@)),
            visual_views(out@) == drawn(*t, names, l as nat),
        decreases t.links.len() - l,
    {
        let link = &t.links[l];
        match find_frame(t, frames, &link.name) {
            Some(f) => {
                let ghost head = visual_views(out@);
                let ghost tail = Seq::new(
                    link.visual@.len(),
                    |k: int|
                        (
                            f as int,
                            l as int,
                            k,
                            visual_view(link.visual@[k].shape),
                            link.visual@[k].color,
                        ),
                );
                let mut k: usize = 0;
                assert(head + tail.take(0) =~= head);
                while k < link.visual.len()
                    invariant
                        k <= link.visual.len(),
                        visual_views(out@) == head + tail.take(k as int),
                        tail == Seq::new(
                            link.visual@.len(),
                            |k: int|
                                (
                                    f as int,
                                    l as int,
                                    k,
                                    visual_view(link.visual@[k].shape),
                                    link.visual@[k].color,
                                ),
                        ),
                    decreases link.visual.len() - k,
                {
                    let ghost before = out@;
                    let v = &link.visual[k];
                    let shape = copy_visual(&v.shape);
                    out.push(VisualGeom { frame: f, link: l, index: k, shape, color: v.color });
                    k = k + 1;
                    assert(visual_views(out@) =~= visual_views(before).push(tail[k - 1]));
                    assert(head + tail.take(k as int) =~= (head + tail.take(k - 1)).push(
                        tail[k - 1],
                    ));
                }
                assert(tail.take(tail.len() as int) =~= tail);
                assert(visual_views(out@) == head + tail);
                assert(last_named(names, link.name@) == Some(f as int));
                assert(drawn(*t, names, (l + 1) as nat) =~= head + tail);
            },
            None => {},
        }
        l = l + 1;
    }
    out
}

/// The named frames.
fn name_frames(t: &RobotTree, frames: &Vec<Spot>) -> (r: Vec<LinkFrame>)
    requires
        forall|k: int| 0 <= k < frames.len() ==> (#[trigger] frames@[k]).link < t.links.len(),
    ensures
        r.len() == frames.len(),
        forall|i: int|
            0 <= i < r.len() ==> frame_matches(*t, #[trigger] r@[i], frames_of(frames@)[i]),
{
    let mut out: Vec<LinkFrame> = Vec::new();
    let mut i: usize = 0;
    while i < frames.len()
        invariant
            i <= frames.len(),
            out.len() == i,
            forall|k: int| 0 <= k < frames.len() ==> (#[trigger] frames@[k]).link < t.links.len(),
            forall|k: int|
                0 <= k < i ==> frame_matches(*t, #[trigger] out@[k], frames_of(frames@)[k]),
        decreases frames.len() - i,
    {
        let f = &frames[i];
        let chain = copy_chain(&f.chain);
        out.push(
            LinkFrame { name: copy_string(&t.links[f.link].name), anchor: f.anchor, chain },
        );
        i = i + 1;
    }
    out
}

/// Freezes what was visited.
fn freeze(t: &RobotTree, st: Stage, mimic: Vec<Option<MimicInfo>>) -> (m: Model)
    requires
        forall|k: int| 0 <= k < st.frames.len() ==> (#[trigger] st.frames@[k]).link < t.links.len(),
        forall|k: int| 0 <= k < st.dofs.len() ==> (#[trigger] st.dofs@[k]).joint < t.joints.len(),
        mimic.len() == st.dofs.len(),
        forall|i: int|
            0 <= i < mimic.len() ==> #[trigger] mimic@[i] == mimic_of(*t, dofs_of(st.dofs@), i),
    ensures
        model_matches(*t, m, draft_of(st)),
{
    let n: usize = st.dofs.len();
    let (collision, dropped_collider_frames) = attach_collisions(t, &st.frames);
    let visuals = attach_visuals(t, &st.frames);
    let frames = name_frames(t, &st.frames);
    let mut joint_names: Vec<String> = Vec::new();
    let mut kind: Vec<JointKind> = Vec::new();
    let mut parent: Vec<Option<usize>> = Vec::new();
    let mut parent_to_joint: Vec<Vec<usize>> = Vec::new();
    let mut axis: Vec<Vec3> = Vec::new();
    let mut limits: Vec<Option<(Scalar, Scalar)>> = Vec::new();
    let mut vel_limit: Vec<Option<Scalar>> = Vec::new();
    let mut effort_limit: Vec<Option<Scalar>> = Vec::new();
    let ghost d = draft_of(st);
    let mut i: usize = 0;
    while i < n
        invariant
            i <= n,
            n == st.dofs.len(),
            d == draft_of(st),
            forall|k: int|
                0 <= k < st.dofs.len() ==> (#[trigger] st.dofs@[k]).joint < t.joints.len(),
            joint_names.len() == i,
            kind.len() == i,
            parent.len() == i,
            parent_to_joint.len() == i,
            axis.len() == i,
            limits.len() == i,
            vel_limit.len() == i,
            effort_limit.len() == i,
            forall|k: int|
                #![trigger d.dofs[k]]
                0 <= k < i ==> {
                    let x = d.dofs[k];
                    let j = t.joints@[x.joint];
                    &&& joint_names@[k]@ == j.name@
                    &&& kind@[k] == (if j.kind is Prismatic {
                        JointKind::Prismatic
                    } else {
                        JointKind::Revolute
                    })
                    &&& opt_int(parent@[k]) == x.parent
                    &&& ints(parent_to_joint@[k]@) == x.chain
                    &&& axis@[k] == x.axis
                    &&& limits@[k] == j.limits
                    &&& vel_limit@[k] == j.vel
                    &&& effort_limit@[k] == j.effort
                },
        decreases n - i,
    {
        let x = &st.dofs[i];
        let j = &t.joints[x.joint];
        assert(d.dofs[i as int] == step_view(*x));
        joint_names.push(copy_string(&j.name));
        kind.push(
            match j.kind {
                RawKind::Prismatic => JointKind::Prismatic,
                _ => JointKind::Revolute,
            },
        );
        parent.push(x.parent);
        parent_to_joint.push(copy_chain(&x.chain));
        axis.push(x.axis);
        limits.push(j.limits);
        vel_limit.push(j.vel);
        effort_limit.push(j.effort);
        i = i + 1;
    }
    let m = Model {
        name: copy_string(&t.name),
        ndof: n,
        joint_names,
        kind,
        parent,
        parent_to_joint,
        axis,
        limits,
        vel_limit,
        effort_limit,
        frames,
        inertia: st.shares,
        has_inertia: st.full && n > 0,
        collision,
        dropped_collider_frames,
        visuals,
        mimic,
    };
    assert forall|i: int| 0 <= i < n implies #[trigger] dof_matches(*t, m, d, i) by {
        let x = d.dofs[i];
        assert(m.mimic@[i] == mimic_of(*t, d.dofs, i));
    }
    m
}

/// Freezes a tree into a model: one root, no shared children, every link reached,
/// mimic sources that exist and are independent.
pub fn compile(t: &RobotTree) -> (r: Result<Model, CompileError>)
    requires
        tree_wf(*t),
    ensures
        match r {
            Ok(m) => compile_fault(*t) is None && match visited(*t) {
                Ok(d) => model_matches(*t, m, d),
                Err(_) => false,
            },
            Err(e) => compile_fault(*t) == Some(e@),
        },
{
    let root = match find_root(t) {
        Ok(r) => r,
        Err(e) => {
            return Err(e);
        },
    };
    let st = match visit_all(t, root) {
        Ok(s) => s,
        Err(e) => {
            return Err(e);
        },
    };
    let ghost d = draft_of(st);
    proof {
        reveal(steady);
        let done = choose|done: Seq<int>| #[trigger] steady(*t, root as int, done, -1, 0, d);
        assert forall|k: int| 0 <= k < st.frames.len() implies (#[trigger] st.frames@[k]).link
            < t.links.len() by {
            assert(d.frames[k].link == st.frames@[k].link);
        }
        assert forall|k: int| 0 <= k < st.dofs.len() implies (#[trigger] st.dofs@[k]).joint
            < t.joints.len() by {
            assert(d.dofs[k].joint == st.dofs@[k].joint);
        }
        assert(d.frames.len() == st.frames.len());
    }
    if st.frames.len() != t.links.len() {
        return Err(CompileError::Disconnected(find_orphan(t, &st.frames)));
    }
    let mimic = match resolve_mimics(t, &st.dofs) {
        Ok(m) => m,
        Err(e) => {
            return Err(e);
        },
    };
    Ok(freeze(t, st, mimic))
}

// ---- laws ----

proof fn lemma_roots(js: Seq<EditJoint>, n: nat)
    ensures
        forall|k: int|
            0 <= k < roots(js, n).len() ==> 0 <= #[trigger] roots(js, n)[k] < n && is_root(
                js,
                roots(js, n)[k],
            ),
    decreases n,
{
    if n > 0 {
        lemma_roots(js, (n - 1) as nat);
        let r = roots(js, n);
        let h = roots(js, (n - 1) as nat);
        assert forall|k: int| 0 <= k < r.len() implies 0 <= #[trigger] r[k] < n && is_root(
            js,
            r[k],
        ) by {
            if k < h.len() {
                assert(r[k] == h[k]);
            }
        }
    }
}

/// Of a tree that compiles, every link is exactly one frame.
pub proof fn law_every_link_is_one_frame(t: RobotTree, l: int)
    requires
        tree_wf(t),
        compile_fault(t) is None,
        0 <= l < t.links@.len(),
    ensures
        match visited(t) {
            Ok(d) => exists|k: int|
                0 <= k < d.frames.len() && (#[trigger] d.frames[k]).link == l && forall|i: int|
                    0 <= i < d.frames.len() && (#[trigger] d.frames[i]).link == l ==> i == k,
            Err(_) => false,
        },
{
    lemma_roots(t.joints@, t.links@.len());
    let root = roots(t.joints@, t.links@.len())[0];
    lemma_start(t, root);
    let done = lemma_visit(t, root, Seq::empty(), draft_at(root), t.links@.len());
    reveal(steady);
    match visited(t) {
        Ok(d) => {
            let s = Seq::new(d.frames.len(), |k: int| d.frames[k].link);
            let n = t.links@.len() as int;
            assert(s.no_duplicates()) by {
                assert forall|i: int, j: int|
                    0 <= i < s.len() && 0 <= j < s.len() && i != j implies s[i] != s[j] by {
                    if i < j {
                        assert(d.frames[i].link != d.frames[j].link);
                    } else {
                        assert(d.frames[j].link != d.frames[i].link);
                    }
                }
            }
            s.unique_seq_to_set();
            vstd::set_lib::lemma_int_range(0, n);
            let range = vstd::set_lib::set_int_range(0, n);
            assert(s.to_set().subset_of(range)) by {
                assert forall|x: int| s.to_set().contains(x) implies #[trigger] range.contains(
                    x,
                ) by {
                    let k = choose|k: int| 0 <= k < s.len() && s[k] == x;
                    assert(0 <= d.frames[k].link < n);
                }
            }
            vstd::set_lib::lemma_subset_equality(s.to_set(), range);
            assert(range.contains(l));
            assert(s.to_set().contains(l));
            let k = choose|k: int| 0 <= k < s.len() && s[k] == l;
            assert(d.frames[k].link == l);
            assert forall|i: int|
                0 <= i < d.frames.len() && (#[trigger] d.frames[i]).link == l implies i == k by {
                assert(s[i] == l);
            }
        },
        Err(_) => {},
    }
}

/// A movable joint hangs on one that was visited before it.
pub proof fn law_parents_come_first(t: RobotTree, i: int)
    requires
        tree_wf(t),
        compile_fault(t) is None,
    ensures
        match visited(t) {
            Ok(d) => 0 <= i < d.dofs.len() ==> match d.dofs[i].parent {
                Some(p) => 0 <= p < i,
                None => true,
            },
            Err(_) => false,
        },
{
    lemma_roots(t.joints@, t.links@.len());
    let root = roots(t.joints@, t.links@.len())[0];
    lemma_start(t, root);
    let done = lemma_visit(t, root, Seq::empty(), draft_at(root), t.links@.len());
    reveal(steady);
}

proof fn lemma_last_named(names: Seq<Seq<char>>, name: Seq<char>)
    ensures
        match last_named(names, name) {
            Some(k) => 0 <= k < names.len() && names[k] == name,
            None => true,
        },
    decreases names.len(),
{
    if names.len() > 0 {
        lemma_last_named(names.drop_last(), name);
    }
}

proof fn lemma_no_mimic_fault(t: RobotTree, dofs: Seq<Dof>, i: int, k: int)
    requires
        first_mimic_fault(t, dofs, i) is None,
        0 <= i <= k < dofs.len(),
    ensures
        mimic_fault(t, dofs, k) is None,
    decreases dofs.len() - i,
{
    if i < k {
        lemma_no_mimic_fault(t, dofs, i + 1, k);
    }
}

/// The source of a mimic constraint is a movable joint without one.
pub proof fn law_sources_are_independent(t: RobotTree, m: Model, d: Draft, i: int)
    requires
        compile_fault(t) is None,
        visited(t) == Ok::<Draft, CompileFault>(d),
        model_matches(t, m, d),
        0 <= i < m.ndof,
    ensures
        match m.mimic@[i] {
            Some(x) => x.source < m.ndof && m.mimic@[x.source as int] is None,
            None => true,
        },
{
    assert(dof_matches(t, m, d, i));
    lemma_no_mimic_fault(t, d.dofs, 0, i);
    match t.joints@[d.dofs[i].joint].mimic {
        Some(raw) => {
            lemma_last_named(dof_names(t, d.dofs), raw.source@);
            match last_named(dof_names(t, d.dofs), raw.source@) {
                Some(s) => {
                    assert(dof_matches(t, m, d, s));
                },
                None => {},
            }
        },
        None => {},
    }
}

/// The limits of a description are in order at every joint that has some.
pub open spec fn described_in_order(t: RobotTree) -> bool {
    forall|j: int|
        0 <= j < t.joints@.len() ==> match (#[trigger] t.joints@[j]).limits {
            Some((lo, hi)) => fle(lo, hi),
            None => true,
        }
}

/// What later functions ask of a model holds of every compiled one. Joints come after the
/// joints that carry them, frames hang on joints of the model, every placement is a chain
/// of the description's joints, mimic sources are free, and limits are in order where the
/// description's are.
pub proof fn law_compiled_models_are_sound(t: RobotTree, m: Model, d: Draft)
    requires
        tree_wf(t),
        compile_fault(t) is None,
        visited(t) == Ok::<Draft, CompileFault>(d),
        model_matches(t, m, d),
    ensures
        linked(m, t.joints@.len()),
        sources_free(m.mimic@),
        described_in_order(t) ==> limits_ordered(m.limits@),
        m.frames@.len() > 0,
        m.wf(),
{
    let n = t.joints@.len();
    lemma_roots(t.joints@, t.links@.len());
    let root = roots(t.joints@, t.links@.len())[0];
    lemma_start(t, root);
    let done = lemma_visit(t, root, Seq::empty(), draft_at(root), t.links@.len());
    reveal(steady);
    assert forall|i: int| 0 <= i < m.ndof implies chain_fits(
        #[trigger] m.parent_to_joint@[i]@,
        n,
    ) by {
        assert(dof_matches(t, m, d, i));
        let c = m.parent_to_joint@[i]@;
        assert forall|k: int| 0 <= k < c.len() implies #[trigger] c[k] < n by {
            assert(ints(c)[k] == d.dofs[i].chain[k]);
        }
    }
    assert forall|f: int| 0 <= f < m.frames@.len() implies chain_fits(
        (#[trigger] m.frames@[f]).chain@,
        n,
    ) && (m.frames@[f].anchor matches Some(a) ==> a < m.ndof) by {
        assert(frame_matches(t, m.frames@[f], d.frames[f]));
        let c = m.frames@[f].chain@;
        assert forall|k: int| 0 <= k < c.len() implies #[trigger] c[k] < n by {
            assert(ints(c)[k] == d.frames[f].chain[k]);
        }
    }
    assert forall|i: int| 0 <= i < m.parent@.len() implies match #[trigger] m.parent@[i] {
        Some(p) => p < i,
        None => true,
    } by {
        assert(dof_matches(t, m, d, i));
        assert(d.dofs[i].joint < n);
    }
    assert forall|i: int| 0 <= i < m.mimic@.len() implies match #[trigger] m.mimic@[i] {
        Some(x) => x.source < m.mimic@.len() && m.mimic@[x.source as int] is None,
        None => true,
    } by {
        law_sources_are_independent(t, m, d, i);
    }
    if described_in_order(t) {
        assert forall|i: int| 0 <= i < m.limits@.len() implies match #[trigger] m.limits@[i] {
            Some((lo, hi)) => fle(lo, hi),
            None => true,
        } by {
            assert(dof_matches(t, m, d, i));
            assert(0 <= d.dofs[i].joint < n);
        }
    }
}

} // verus!
