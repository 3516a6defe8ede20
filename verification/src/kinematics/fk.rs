//! Forward kinematics: where every joint and frame is in the world.
//!
//! A pose is whatever the caller composes poses with. Where a joint sits on the one
//! before it is the composition of the placements along its chain.

use vstd::prelude::*;

#[allow(unused_imports)]
use crate::kinematics::jacobian::{carries, parents_first};
use crate::model::Model;

verus! {

/// A composition of poses that is handed in behaves as `g`.
pub open spec fn composes<P, C: Fn(P, P) -> P>(f: C, g: spec_fn(P, P) -> P) -> bool {
    forall|a: P, b: P, r: P| call_ensures(f, (a, b), r) ==> r == g(a, b)
}

/// Any two poses can be composed.
pub open spec fn composes_any<P, C: Fn(P, P) -> P>(f: C) -> bool {
    forall|a: P, b: P| call_requires(f, (a, b))
}

/// The first `n` placements of a chain, one on the other.
pub open spec fn along<P>(
    chain: Seq<usize>,
    places: Seq<P>,
    rest: P,
    g: spec_fn(P, P) -> P,
    n: nat,
) -> P
    decreases n,
{
    if n == 0 {
        rest
    } else {
        g(along(chain, places, rest, g, (n - 1) as nat), places[chain[n - 1] as int])
    }
}

/// The pose that a chain stands for.
pub open spec fn placement<P>(
    chain: Seq<usize>,
    places: Seq<P>,
    rest: P,
    g: spec_fn(P, P) -> P,
) -> P {
    along(chain, places, rest, g, chain.len())
}

/// The pose of a joint in the world: on the joint before it, at its placement, moved.
pub open spec fn joint_pose<P>(
    parent: Seq<Option<usize>>,
    mounts: Seq<P>,
    moves: Seq<P>,
    rest: P,
    g: spec_fn(P, P) -> P,
    j: int,
) -> P
    decreases j,
{
    let base = match parent[j] {
        Some(p) => if 0 <= p < j {
            joint_pose(parent, mounts, moves, rest, g, p as int)
        } else {
            rest
        },
        None => rest,
    };
    g(g(base, mounts[j]), moves[j])
}

/// Where the joints sit on the ones before them.
pub open spec fn mounts_of<P>(
    chains: Seq<Vec<usize>>,
    places: Seq<P>,
    rest: P,
    g: spec_fn(P, P) -> P,
) -> Seq<P> {
    Seq::new(chains.len(), |i: int| placement(chains[i]@, places, rest, g))
}

/// The poses of all joints.
pub open spec fn joint_poses<P>(
    m: Model,
    places: Seq<P>,
    moves: Seq<P>,
    rest: P,
    g: spec_fn(P, P) -> P,
) -> Seq<P> {
    Seq::new(
        m.ndof as nat,
        |j: int|
            joint_pose(
                m.parent@,
                mounts_of(m.parent_to_joint@, places, rest, g),
                moves,
                rest,
                g,
                j,
            ),
    )
}

/// The pose of a frame on the joint that carries it.
pub open spec fn on_joint<P>(
    m: Model,
    frame: int,
    joints: Seq<P>,
    places: Seq<P>,
    rest: P,
    g: spec_fn(P, P) -> P,
) -> P {
    let base = match m.frames@[frame].anchor {
        Some(j) => joints[j as int],
        None => rest,
    };
    g(base, placement(m.frames@[frame].chain@, places, rest, g))
}

/// The links of a chain are placements that are there.
pub open spec fn chain_fits(chain: Seq<usize>, n: nat) -> bool {
    forall|k: int| 0 <= k < chain.len() ==> #[trigger] chain[k] < n
}

/// A model whose joints and frames hang together, over `n` placements.
pub open spec fn linked(m: Model, n: nat) -> bool {
    &&& m.wf()
    &&& parents_first(m.parent@)
    &&& forall|i: int| 0 <= i < m.ndof ==> chain_fits(#[trigger] m.parent_to_joint@[i]@, n)
    &&& forall|f: int|
        0 <= f < m.frames@.len() ==> chain_fits((#[trigger] m.frames@[f]).chain@, n) && (
        m.frames@[f].anchor matches Some(a) ==> a < m.ndof)
}

fn compose_along<P: Copy, C: Fn(P, P) -> P>(
    chain: &Vec<usize>,
    places: &Vec<P>,
    rest: P,
    compose: &C,
) -> (r: P)
    requires
        composes_any::<P, C>(*compose),
        chain_fits(chain@, places@.len()),
    ensures
        forall|g: spec_fn(P, P) -> P| #[trigger]
            composes(*compose, g) ==> r == placement(chain@, places@, rest, g),
{
    let mut at = rest;
    let mut k: usize = 0;
    while k < chain.len()
        invariant
            k <= chain.len(),
            composes_any::<P, C>(*compose),
            chain_fits(chain@, places@.len()),
            forall|g: spec_fn(P, P) -> P| #[trigger]
                composes(*compose, g) ==> at == along(chain@, places@, rest, g, k as nat),
        decreases chain.len() - k,
    {
        assert(chain@[k as int] < places@.len());
        at = compose(at, places[chain[k]]);
        k = k + 1;
    }
    at
}

/// The world poses of all joints, each from the one before it. `places` are the
/// placements of the joints of the tree, `moves` what each movable joint does.
pub fn fk_joints<P: Copy, C: Fn(P, P) -> P>(
    model: &Model,
    places: &Vec<P>,
    moves: &Vec<P>,
    rest: P,
    compose: &C,
) -> (r: Vec<P>)
    requires
        composes_any::<P, C>(*compose),
        linked(*model, places@.len()),
        moves@.len() == model.ndof,
    ensures
        r@.len() == model.ndof,
        forall|g: spec_fn(P, P) -> P| #[trigger]
            composes(*compose, g) ==> r@ == joint_poses(*model, places@, moves@, rest, g),
{
    let mut out: Vec<P> = Vec::new();
    let mut i: usize = 0;
    while i < model.ndof
        invariant
            i <= model.ndof,
            out.len() == i,
            composes_any::<P, C>(*compose),
            linked(*model, places@.len()),
            moves@.len() == model.ndof,
            forall|g: spec_fn(P, P) -> P, k: int|
                #![trigger composes(*compose, g), out@[k]]
                composes(*compose, g) && 0 <= k < i ==> out@[k] == joint_pose(
                    model.parent@,
                    mounts_of(model.parent_to_joint@, places@, rest, g),
                    moves@,
                    rest,
                    g,
                    k,
                ),
        decreases model.ndof - i,
    {
        assert(match model.parent@[i as int] {
            Some(p) => p < i,
            None => true,
        });
        let base = match model.parent[i] {
            Some(p) => out[p],
            None => rest,
        };
        assert(chain_fits(model.parent_to_joint@[i as int]@, places@.len()));
        let mount = compose_along(&model.parent_to_joint[i], places, rest, compose);
        let pose = compose(compose(base, mount), moves[i]);
        assert forall|g: spec_fn(P, P) -> P| #[trigger] composes(*compose, g) implies pose
            == joint_pose(
            model.parent@,
            mounts_of(model.parent_to_joint@, places@, rest, g),
            moves@,
            rest,
            g,
            i as int,
        ) by {
            let mounts = mounts_of(model.parent_to_joint@, places@, rest, g);
            assert(mounts[i as int] == mount);
            match model.parent@[i as int] {
                Some(p) => {
                    assert(out@[p as int] == joint_pose(
                        model.parent@,
                        mounts,
                        moves@,
                        rest,
                        g,
                        p as int,
                    ));
                },
                None => {},
            }
        }
        out.push(pose);
        i = i + 1;
    }
    assert forall|g: spec_fn(P, P) -> P| #[trigger] composes(*compose, g) implies out@
        == joint_poses(*model, places@, moves@, rest, g) by {
        assert(out@ =~= joint_poses(*model, places@, moves@, rest, g));
    }
    out
}

/// The world pose of a frame, from those of the joints.
pub fn frame_pose<P: Copy, C: Fn(P, P) -> P>(
    model: &Model,
    joints: &Vec<P>,
    frame: usize,
    places: &Vec<P>,
    rest: P,
    compose: &C,
) -> (r: P)
    requires
        composes_any::<P, C>(*compose),
        linked(*model, places@.len()),
        joints@.len() == model.ndof,
        frame < model.frames@.len(),
    ensures
        forall|g: spec_fn(P, P) -> P| #[trigger]
            composes(*compose, g) ==> r == on_joint(
                *model,
                frame as int,
                joints@,
                places@,
                rest,
                g,
            ),
{
    assert(chain_fits(model.frames@[frame as int].chain@, places@.len()));
    let base = match model.frames[frame].anchor {
        Some(j) => joints[j],
        None => rest,
    };
    let offset = compose_along(&model.frames[frame].chain, places, rest, compose);
    compose(base, offset)
}

fn fk_movable<P: Copy, C: Fn(P, P) -> P>(
    model: &Model,
    places: &Vec<P>,
    moves: &Vec<P>,
    rest: P,
    compose: &C,
    j: usize,
) -> (r: P)
    requires
        composes_any::<P, C>(*compose),
        linked(*model, places@.len()),
        moves@.len() == model.ndof,
        j < model.ndof,
    ensures
        forall|g: spec_fn(P, P) -> P| #[trigger]
            composes(*compose, g) ==> r == joint_pose(
                model.parent@,
                mounts_of(model.parent_to_joint@, places@, rest, g),
                moves@,
                rest,
                g,
                j as int,
            ),
    decreases j,
{
    assert(match model.parent@[j as int] {
        Some(p) => p < j,
        None => true,
    });
    let base = match model.parent[j] {
        Some(p) => fk_movable(model, places, moves, rest, compose, p),
        None => rest,
    };
    assert(chain_fits(model.parent_to_joint@[j as int]@, places@.len()));
    let mount = compose_along(&model.parent_to_joint[j], places, rest, compose);
    compose(compose(base, mount), moves[j])
}

/// The world pose of one frame, by walking down to it.
pub fn fk_frame<P: Copy, C: Fn(P, P) -> P>(
    model: &Model,
    places: &Vec<P>,
    moves: &Vec<P>,
    frame: usize,
    rest: P,
    compose: &C,
) -> (r: P)
    requires
        composes_any::<P, C>(*compose),
        linked(*model, places@.len()),
        moves@.len() == model.ndof,
        frame < model.frames@.len(),
    ensures
        forall|g: spec_fn(P, P) -> P| #[trigger]
            composes(*compose, g) ==> r == on_joint(
                *model,
                frame as int,
                joint_poses(*model, places@, moves@, rest, g),
                places@,
                rest,
                g,
            ),
{
    assert(chain_fits(model.frames@[frame as int].chain@, places@.len()));
    let base = match model.frames[frame].anchor {
        Some(j) => fk_movable(model, places, moves, rest, compose, j),
        None => rest,
    };
    let offset = compose_along(&model.frames[frame].chain, places, rest, compose);
    compose(base, offset)
}

/// The world pose of the last frame.
pub fn fk_tip<P: Copy, C: Fn(P, P) -> P>(
    model: &Model,
    places: &Vec<P>,
    moves: &Vec<P>,
    rest: P,
    compose: &C,
) -> (r: P)
    requires
        composes_any::<P, C>(*compose),
        linked(*model, places@.len()),
        moves@.len() == model.ndof,
        model.frames@.len() > 0,
    ensures
        forall|g: spec_fn(P, P) -> P| #[trigger]
            composes(*compose, g) ==> r == on_joint(
                *model,
                model.frames@.len() - 1,
                joint_poses(*model, places@, moves@, rest, g),
                places@,
                rest,
                g,
            ),
{
    fk_frame(model, places, moves, model.tip_frame(), rest, compose)
}

/// A joint that does not carry a frame's joint leaves its pose as it is.
pub proof fn law_pose_depends_on_carriers_alone<P>(
    parent: Seq<Option<usize>>,
    mounts: Seq<P>,
    moves: Seq<P>,
    other: Seq<P>,
    rest: P,
    g: spec_fn(P, P) -> P,
    j: int,
)
    requires
        parents_first(parent),
        0 <= j < parent.len(),
        j <= usize::MAX,
        forall|i: int|
            0 <= i < parent.len() && #[trigger] carries(
                parent,
                Some(j as usize),
                i,
            ) ==> moves[i] == other[i],
    ensures
        joint_pose(parent, mounts, moves, rest, g, j) == joint_pose(
            parent,
            mounts,
            other,
            rest,
            g,
            j,
        ),
    decreases j,
{
    assert(carries(parent, Some(j as usize), j));
    match parent[j] {
        Some(p) => {
            assert forall|i: int|
                0 <= i < parent.len() && #[trigger] carries(
                    parent,
                    Some(p),
                    i,
                ) implies moves[i] == other[i] by {
                assert(carries(parent, Some(j as usize), i));
            }
            law_pose_depends_on_carriers_alone(parent, mounts, moves, other, rest, g, p as int);
        },
        None => {},
    }
}

} // verus!
