//! Which node is nearest, and which comes next.

use vstd::prelude::*;

#[allow(unused_imports)]
use crate::planning::geometry::distance_sq;
#[allow(unused_imports)]
use crate::planning::prm::next_nearest;
#[allow(unused_imports)]
use crate::planning::tree::{nearest_node, nearest_of, TreeV};
#[allow(unused_imports)]
use crate::scalar::convert::total_key;
#[allow(unused_imports)]
use crate::scalar::number::fle;
#[allow(unused_imports)]
use crate::scalar::Scalar;

verus! {

proof fn lemma_nearest_so_far(nodes: Seq<Seq<Scalar>>, q: Seq<Scalar>, n: nat)
    requires
        n <= nodes.len(),
        forall|i: int| 0 <= i < n ==> distance_sq(#[trigger] nodes[i], q).finite(),
    ensures
        ({
            let (at, d) = nearest_of(nodes, q, n);
            &&& n > 0 ==> 0 <= at < n && d == distance_sq(nodes[at], q)
            &&& !d.nan()
            &&& forall|i: int| 0 <= i < n ==> fle(d, distance_sq(#[trigger] nodes[i], q))
        }),
    decreases n,
{
    if n > 0 {
        lemma_nearest_so_far(nodes, q, (n - 1) as nat);
        assert(distance_sq(nodes[n - 1], q).finite());
    }
}

/// No node is nearer than the nearest.
pub proof fn law_no_node_is_nearer(t: TreeV, q: Seq<Scalar>, i: int)
    requires
        0 <= i < t.nodes.len(),
        forall|k: int| 0 <= k < t.nodes.len() ==> distance_sq(#[trigger] t.nodes[k], q).finite(),
    ensures
        0 <= nearest_node(t, q) < t.nodes.len(),
        fle(distance_sq(t.nodes[nearest_node(t, q)], q), distance_sq(t.nodes[i], q)),
{
    lemma_nearest_so_far(t.nodes, q, t.nodes.len());
    assert(distance_sq(t.nodes[i], q).finite());
}

/// `k` is farther than the last one, or as far and behind it, and is not the node itself.
pub open spec fn still_open(d: Seq<Scalar>, skip: int, last: Option<int>, k: int) -> bool {
    &&& k != skip
    &&& match last {
        None => true,
        Some(l) => total_key(d[l]) < total_key(d[k]) || (total_key(d[l]) == total_key(d[k]) && l < k),
    }
}

/// The next nearest is open, and of all that are, none is nearer; where there is no next one,
/// none is open.
pub proof fn law_neighbours_come_in_turn(d: Seq<Scalar>, skip: int, last: Option<int>, n: nat)
    requires
        n <= d.len(),
    ensures
        match next_nearest(d, skip, last, n) {
            Some(j) => 0 <= j < n && still_open(d, skip, last, j) && (forall|k: int|
                0 <= k < n && #[trigger] still_open(d, skip, last, k) ==> total_key(d[j]) <= total_key(
                    d[k],
                )),
            None => forall|k: int| 0 <= k < n ==> !(#[trigger] still_open(d, skip, last, k)),
        },
    decreases n,
{
    if n > 0 {
        law_neighbours_come_in_turn(d, skip, last, (n - 1) as nat);
    }
}

} // verus!
