//! How the poses along a chain are put together.

use vstd::prelude::*;

#[allow(unused_imports)]
use crate::kinematics::fk::{along, joint_pose, placement};

verus! {

/// Poses are put together one after the other, whichever are taken together first.
pub open spec fn associative<P>(g: spec_fn(P, P) -> P) -> bool {
    forall|a: P, b: P, c: P| #[trigger] g(g(a, b), c) == g(a, g(b, c))
}

proof fn lemma_split<P>(
    first: Seq<usize>,
    second: Seq<usize>,
    places: Seq<P>,
    rest: P,
    g: spec_fn(P, P) -> P,
    n: nat,
)
    requires
        associative(g),
        forall|a: P| #[trigger] g(a, rest) == a,
        n <= second.len(),
    ensures
        along(first + second, places, rest, g, first.len() + n) == g(
            along(first, places, rest, g, first.len()),
            along(second, places, rest, g, n),
        ),
    decreases n,
{
    if n == 0 {
        lemma_prefix(first, second, places, rest, g, first.len());
    } else {
        lemma_split(first, second, places, rest, g, (n - 1) as nat);
        let at = first.len() + n;
        assert((first + second)[at - 1] == second[n - 1]);
        let (x, y, z) = (
            along(first, places, rest, g, first.len()),
            along(second, places, rest, g, (n - 1) as nat),
            places[second[n - 1] as int],
        );
        assert(g(g(x, y), z) == g(x, g(y, z)));
    }
}

proof fn lemma_prefix<P>(
    first: Seq<usize>,
    second: Seq<usize>,
    places: Seq<P>,
    rest: P,
    g: spec_fn(P, P) -> P,
    n: nat,
)
    requires
        n <= first.len(),
    ensures
        along(first + second, places, rest, g, n) == along(first, places, rest, g, n),
    decreases n,
{
    if n > 0 {
        lemma_prefix(first, second, places, rest, g, (n - 1) as nat);
        assert((first + second)[n - 1] == first[n - 1]);
    }
}

/// The pose at the end of two chains, one after the other, is that of the first and, seen from
/// there, that of the second.
pub proof fn law_chains_follow_one_another<P>(
    first: Seq<usize>,
    second: Seq<usize>,
    places: Seq<P>,
    rest: P,
    g: spec_fn(P, P) -> P,
)
    requires
        associative(g),
        forall|a: P| #[trigger] g(a, rest) == a,
    ensures
        placement(first + second, places, rest, g) == g(
            placement(first, places, rest, g),
            placement(second, places, rest, g),
        ),
{
    lemma_split(first, second, places, rest, g, second.len());
}

/// A chain of one place leads to that place.
pub proof fn law_single_places_are_themselves<P>(
    i: usize,
    places: Seq<P>,
    rest: P,
    g: spec_fn(P, P) -> P,
)
    requires
        0 <= i < places.len(),
        forall|a: P| #[trigger] g(rest, a) == a,
    ensures
        placement(seq![i], places, rest, g) == places[i as int],
{
    reveal_with_fuel(along, 2);
    assert(g(rest, places[i as int]) == places[i as int]);
}

/// A robot that is put elsewhere has each of its joints put elsewhere alike.
pub proof fn law_joints_move_with_the_base<P>(
    parent: Seq<Option<usize>>,
    mounts: Seq<P>,
    moves: Seq<P>,
    rest: P,
    by: P,
    g: spec_fn(P, P) -> P,
    j: int,
)
    requires
        associative(g),
        0 <= j,
    ensures
        joint_pose(parent, mounts, moves, g(by, rest), g, j) == g(
            by,
            joint_pose(parent, mounts, moves, rest, g, j),
        ),
    decreases j,
{
    let base = match parent[j] {
        Some(p) => if 0 <= p < j {
            law_joints_move_with_the_base(parent, mounts, moves, rest, by, g, p as int);
            joint_pose(parent, mounts, moves, rest, g, p as int)
        } else {
            rest
        },
        None => rest,
    };
    assert(g(g(by, base), mounts[j]) == g(by, g(base, mounts[j])));
    assert(g(g(by, g(base, mounts[j])), moves[j]) == g(by, g(g(base, mounts[j]), moves[j])));
}

/// A joint is where its parent is, but for where it is mounted on it and how far it is moved:
/// the mount first, as if both were one place.
pub proof fn law_joints_follow_their_parents<P>(
    parent: Seq<Option<usize>>,
    mounts: Seq<P>,
    moves: Seq<P>,
    rest: P,
    g: spec_fn(P, P) -> P,
    j: int,
    p: usize,
)
    requires
        associative(g),
        0 <= p < j,
        parent[j] == Some(p),
    ensures
        joint_pose(parent, mounts, moves, rest, g, j) == g(
            joint_pose(parent, mounts, moves, rest, g, p as int),
            g(mounts[j], moves[j]),
        ),
{
    let base = joint_pose(parent, mounts, moves, rest, g, p as int);
    assert(g(g(base, mounts[j]), moves[j]) == g(base, g(mounts[j], moves[j])));
}

} // verus!
