//! The geometric Jacobian: one column per joint, from where the joints are in the world.

use vstd::prelude::*;

use crate::kinematics::singular::{JacFrame, Twist};
use crate::model::{JointKind, Model};
#[allow(unused_imports)]
use crate::model::config::{free_joints, lemma_free_joints};
#[allow(unused_imports)]
use crate::model::MimicInfo;
use crate::scalar::vec3::Vec3;
#[allow(unused_imports)]
use crate::scalar::vec3::{vadd, vcross, vscale, vsub};
use crate::scalar::Scalar;

verus! {

/// Every joint hangs on an earlier one.
pub open spec fn parents_first(parent: Seq<Option<usize>>) -> bool {
    forall|i: int|
        0 <= i < parent.len() ==> match #[trigger] parent[i] {
            Some(p) => p < i,
            None => true,
        }
}

/// Joint `i` is `cur` or one that `cur` hangs on.
pub open spec fn carries(parent: Seq<Option<usize>>, cur: Option<usize>, i: int) -> bool
    decreases
            match cur {
                Some(j) => j + 1,
                None => 0int,
            },
{
    match cur {
        None => false,
        Some(j) => j == i || match parent[j as int] {
            Some(p) => p < j && carries(parent, Some(p), i),
            None => false,
        },
    }
}

pub open spec fn origin() -> Vec3 {
    Vec3 { x: Scalar { bits: 0 }, y: Scalar { bits: 0 }, z: Scalar { bits: 0 } }
}

/// What a joint adds to the velocity of the tool: its axis and place in the world, and
/// the place of the tool.
pub open spec fn column_of(kind: JointKind, axis: Vec3, at: Vec3, tool: Vec3) -> Twist {
    match kind {
        JointKind::Revolute => Twist { lin: vcross(axis, vsub(tool, at)), ang: axis },
        JointKind::Prismatic => Twist { lin: axis, ang: origin() },
    }
}

/// The columns: zero for a joint that does not carry the frame.
pub open spec fn columns_of(
    kind: Seq<JointKind>,
    parent: Seq<Option<usize>>,
    anchor: Option<usize>,
    axes: Seq<Vec3>,
    places: Seq<Vec3>,
    tool: Vec3,
) -> Seq<Twist> {
    Seq::new(
        kind.len(),
        |i: int|
            if carries(parent, anchor, i) {
                column_of(kind[i], axes[i], places[i], tool)
            } else {
                Twist { lin: origin(), ang: origin() }
            },
    )
}

/// Which joints carry a frame.
pub fn carrying_joints(model: &Model, frame: usize) -> (r: Vec<bool>)
    requires
        frame < model.frames@.len(),
        model.wf(),
        parents_first(model.parent@),
        model.frames@[frame as int].anchor matches Some(a) ==> a < model.ndof,
    ensures
        r@ == Seq::new(
            model.ndof as nat,
            |i: int| carries(model.parent@, model.frames@[frame as int].anchor, i),
        ),
{
    let n: usize = model.ndof;
    let mut mask: Vec<bool> = Vec::new();
    while mask.len() < n
        invariant
            mask.len() <= n,
            forall|i: int| 0 <= i < mask.len() ==> !#[trigger] mask@[i],
        decreases n - mask.len(),
    {
        mask.push(false);
    }
    let ghost anchor = model.frames@[frame as int].anchor;
    let mut cur = model.frames[frame].anchor;
    while cur.is_some()
        invariant
            mask.len() == n,
            n == model.parent@.len(),
            parents_first(model.parent@),
            cur matches Some(a) ==> a < n,
            forall|i: int|
                0 <= i < n ==> carries(model.parent@, anchor, i) == (#[trigger] mask@[i]
                    || carries(model.parent@, cur, i)),
        decreases
                match cur {
                    Some(j) => j + 1,
                    None => 0int,
                },
    {
        match cur {
            Some(j) => {
                let ghost before = mask@;
                mask.set(j, true);
                assert(match model.parent@[j as int] {
                    Some(p) => p < j,
                    None => true,
                });
                cur = model.parent[j];
                assert forall|i: int| 0 <= i < n implies carries(model.parent@, anchor, i) == (
                #[trigger] mask@[i] || carries(model.parent@, cur, i)) by {
                    assert(carries(model.parent@, anchor, i) == (before[i] || carries(
                        model.parent@,
                        Some(j),
                        i,
                    )));
                }
            },
            None => {},
        }
    }
    assert(mask@ =~= Seq::new(n as nat, |i: int| carries(model.parent@, anchor, i)));
    mask
}

/// The columns of the Jacobian of a frame, from the axes and places of the joints and
/// the place of the frame in the world.
pub fn jacobian(model: &Model, frame: usize, axes: &Vec<Vec3>, places: &Vec<Vec3>, tool: Vec3) -> (r:
    Vec<Twist>)
    requires
        frame < model.frames@.len(),
        model.wf(),
        axes@.len() == model.ndof,
        places@.len() == model.ndof,
        parents_first(model.parent@),
        model.frames@[frame as int].anchor matches Some(a) ==> a < model.ndof,
    ensures
        r@ == columns_of(
            model.kind@,
            model.parent@,
            model.frames@[frame as int].anchor,
            axes@,
            places@,
            tool,
        ),
{
    let mask = carrying_joints(model, frame);
    let zero = Scalar { bits: 0 };
    let none = Vec3 { x: zero, y: zero, z: zero };
    let ghost target = columns_of(
        model.kind@,
        model.parent@,
        model.frames@[frame as int].anchor,
        axes@,
        places@,
        tool,
    );
    let mut out: Vec<Twist> = Vec::new();
    let mut i: usize = 0;
    while i < model.ndof
        invariant
            i <= model.ndof,
            model.wf(),
            axes@.len() == model.ndof,
            places@.len() == model.ndof,
            mask@.len() == model.ndof,
            none == origin(),
            target == columns_of(
                model.kind@,
                model.parent@,
                model.frames@[frame as int].anchor,
                axes@,
                places@,
                tool,
            ),
            forall|k: int|
                0 <= k < model.ndof ==> #[trigger] mask@[k] == carries(
                    model.parent@,
                    model.frames@[frame as int].anchor,
                    k,
                ),
            out.len() == i,
            forall|k: int| 0 <= k < i ==> #[trigger] out@[k] == target[k],
        decreases model.ndof - i,
    {
        out.push(
            if mask[i] {
                match model.kind[i] {
                    JointKind::Revolute => Twist {
                        lin: axes[i].cross(tool.minus(places[i])),
                        ang: axes[i],
                    },
                    JointKind::Prismatic => Twist { lin: axes[i], ang: none },
                }
            } else {
                Twist { lin: none, ang: none }
            },
        );
        i = i + 1;
    }
    assert(out@ =~= target);
    out
}

/// A turn into the frame that is handed in behaves as `g`.
pub open spec fn turns_as<T: Fn(Vec3) -> Vec3>(f: T, g: spec_fn(Vec3) -> Vec3) -> bool {
    forall|v: Vec3, r: Vec3| call_ensures(f, (v,), r) ==> r == g(v)
}

/// Columns as seen from the world, or turned into the frame.
pub open spec fn seen_from(columns: Seq<Twist>, frame: JacFrame, g: spec_fn(Vec3) -> Vec3) -> Seq<
    Twist,
> {
    match frame {
        JacFrame::World => columns,
        JacFrame::Body => columns.map_values(|c: Twist| Twist { lin: g(c.lin), ang: g(c.ang) }),
    }
}

/// The columns of a Jacobian in the frame they are wanted in.
pub fn expressed_in<T: Fn(Vec3) -> Vec3>(columns: Vec<Twist>, frame: JacFrame, turn: &T) -> (r:
    Vec<Twist>)
    requires
        forall|v: Vec3| call_requires(*turn, (v,)),
    ensures
        forall|g: spec_fn(Vec3) -> Vec3| #[trigger]
            turns_as(*turn, g) ==> r@ == seen_from(columns@, frame, g),
{
    match frame {
        JacFrame::World => columns,
        JacFrame::Body => {
            let mut out: Vec<Twist> = Vec::new();
            let mut i: usize = 0;
            while i < columns.len()
                invariant
                    i <= columns.len(),
                    out.len() == i,
                    forall|v: Vec3| call_requires(*turn, (v,)),
                    forall|g: spec_fn(Vec3) -> Vec3, k: int|
                        #![trigger turns_as(*turn, g), out@[k]]
                        turns_as(*turn, g) && 0 <= k < i ==> out@[k] == (Twist {
                            lin: g(columns@[k].lin),
                            ang: g(columns@[k].ang),
                        }),
                decreases columns.len() - i,
            {
                out.push(Twist { lin: turn(columns[i].lin), ang: turn(columns[i].ang) });
                i = i + 1;
            }
            assert forall|g: spec_fn(Vec3) -> Vec3| #[trigger] turns_as(*turn, g) implies out@
                == seen_from(columns@, JacFrame::Body, g) by {
                assert(out@ =~= seen_from(columns@, JacFrame::Body, g));
            }
            out
        },
    }
}

/// A column with those of the first `n` joints that follow joint `d`.
pub open spec fn with_followers(
    columns: Seq<Twist>,
    mimic: Seq<Option<MimicInfo>>,
    d: int,
    n: nat,
) -> Twist
    decreases n,
{
    if n == 0 {
        columns[d]
    } else {
        let c = with_followers(columns, mimic, d, (n - 1) as nat);
        match mimic[n - 1] {
            Some(m) => if m.source == d {
                Twist {
                    lin: vadd(c.lin, vscale(columns[n - 1].lin, m.multiplier)),
                    ang: vadd(c.ang, vscale(columns[n - 1].ang, m.multiplier)),
                }
            } else {
                c
            },
            None => c,
        }
    }
}

/// The columns of the independent joints alone: each with what its followers add.
pub fn reduced_columns(model: &Model, columns: &Vec<Twist>) -> (r: Vec<Twist>)
    requires
        columns@.len() == model.mimic@.len(),
        model.wf(),
    ensures
        r@.len() == free_joints(model.mimic@, model.mimic@.len()).len(),
        forall|k: int|
            0 <= k < r@.len() ==> #[trigger] r@[k] == with_followers(
                columns@,
                model.mimic@,
                free_joints(model.mimic@, model.mimic@.len())[k],
                columns@.len(),
            ),
{
    let free = model.independent_dofs();
    proof {
        lemma_free_joints(model.mimic@, model.mimic@.len());
    }
    let mut out: Vec<Twist> = Vec::new();
    let mut k: usize = 0;
    while k < free.len()
        invariant
            k <= free.len(),
            columns@.len() == model.mimic@.len(),
            forall|m: int| 0 <= m < free@.len() ==> (#[trigger] free@[m]) < columns@.len(),
            out.len() == k,
            forall|m: int|
                0 <= m < k ==> #[trigger] out@[m] == with_followers(
                    columns@,
                    model.mimic@,
                    free@[m] as int,
                    columns@.len(),
                ),
        decreases free.len() - k,
    {
        let d = free[k];
        assert(free@[k as int] < columns@.len());
        let mut c = columns[d];
        let mut i: usize = 0;
        while i < columns.len()
            invariant
                i <= columns.len(),
                d < columns.len(),
                columns@.len() == model.mimic@.len(),
                c == with_followers(columns@, model.mimic@, d as int, i as nat),
            decreases columns.len() - i,
        {
            match model.mimic[i] {
                Some(m) => {
                    if m.source == d {
                        c = Twist {
                            lin: c.lin.plus(columns[i].lin.scaled(m.multiplier)),
                            ang: c.ang.plus(columns[i].ang.scaled(m.multiplier)),
                        };
                    }
                },
                None => {},
            }
            i = i + 1;
        }
        out.push(c);
        k = k + 1;
    }
    out
}

/// A joint that does not carry a frame does not move it.
pub proof fn law_other_branches_do_not_move_the_frame(
    kind: Seq<JointKind>,
    parent: Seq<Option<usize>>,
    anchor: Option<usize>,
    axes: Seq<Vec3>,
    places: Seq<Vec3>,
    tool: Vec3,
    i: int,
)
    requires
        0 <= i < kind.len(),
        !carries(parent, anchor, i),
    ensures
        columns_of(kind, parent, anchor, axes, places, tool)[i] == (Twist {
            lin: origin(),
            ang: origin(),
        }),
{
}

} // verus!
