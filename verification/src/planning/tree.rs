//! A search tree of configurations. The first node is the root; every other one hangs
//! on an earlier one.

use vstd::prelude::*;

use crate::hal::backend::copy_scalars;
#[allow(unused_imports)]
use crate::motion::trajectory::rows_of;
use crate::planning::geometry::dist_sq;
#[allow(unused_imports)]
use crate::planning::geometry::distance_sq;
use crate::scalar::consts::INFINITY_BITS;
#[allow(unused_imports)]
use crate::scalar::number::flt;
use crate::scalar::Scalar;

verus! {

/// A search tree.
pub struct Tree {
    nodes: Vec<Vec<Scalar>>,
    parent: Vec<usize>,
}

/// `Tree` over sequences.
#[verifier::ext_equal]
pub struct TreeV {
    pub nodes: Seq<Seq<Scalar>>,
    pub parent: Seq<int>,
}

impl View for Tree {
    type V = TreeV;

    closed spec fn view(&self) -> TreeV {
        TreeV {
            nodes: rows_of(self.nodes@),
            parent: Seq::new(self.parent@.len(), |i: int| self.parent@[i] as int),
        }
    }
}

/// Parents come before children.
pub open spec fn rooted(t: TreeV) -> bool {
    &&& t.nodes.len() > 0
    &&& t.parent.len() == t.nodes.len()
    &&& forall|i: int| 0 < i < t.parent.len() ==> 0 <= #[trigger] t.parent[i] < i
}

pub open spec fn single(q: Seq<Scalar>) -> TreeV {
    TreeV { nodes: seq![q], parent: seq![0int] }
}

pub open spec fn added(t: TreeV, q: Seq<Scalar>, parent: int) -> TreeV {
    TreeV { nodes: t.nodes.push(q), parent: t.parent.push(parent) }
}

/// The nearest of the first `n` nodes, the first of equals, and how far it is.
pub open spec fn nearest_of(nodes: Seq<Seq<Scalar>>, q: Seq<Scalar>, n: nat) -> (int, Scalar)
    decreases n,
{
    if n == 0 {
        (0, Scalar { bits: INFINITY_BITS })
    } else {
        let best = nearest_of(nodes, q, (n - 1) as nat);
        let d = distance_sq(nodes[n - 1], q);
        if flt(d, best.1) {
            (n - 1, d)
        } else {
            best
        }
    }
}

pub open spec fn nearest_node(t: TreeV, q: Seq<Scalar>) -> int {
    nearest_of(t.nodes, q, t.nodes.len()).0
}

/// The configurations from the root to a node.
pub open spec fn path_up(t: TreeV, i: int) -> Seq<Seq<Scalar>>
    decreases i,
{
    if i <= 0 || !(0 <= t.parent[i] < i) {
        seq![t.nodes[0]]
    } else {
        path_up(t, t.parent[i]).push(t.nodes[i])
    }
}

pub proof fn lemma_nearest(nodes: Seq<Seq<Scalar>>, q: Seq<Scalar>, n: nat)
    ensures
        n > 0 ==> 0 <= nearest_of(nodes, q, n).0 < n,
        n == 0 ==> nearest_of(nodes, q, n).0 == 0,
    decreases n,
{
    if n > 0 {
        lemma_nearest(nodes, q, (n - 1) as nat);
    }
}

impl Tree {
    #[verifier::type_invariant]
    spec fn valid(&self) -> bool {
        &&& self.nodes@.len() > 0
        &&& self.parent@.len() == self.nodes@.len()
        &&& forall|i: int| 0 < i < self.parent@.len() ==> #[trigger] self.parent@[i] < i
    }

    pub fn new(root: Vec<Scalar>) -> (r: Tree)
        ensures
            r@ == single(root@),
    {
        let nodes: Vec<Vec<Scalar>> = vec![root];
        let parent: Vec<usize> = vec![0];
        let r = Tree { nodes, parent };
        assert(r@ =~= single(root@));
        r
    }

    pub fn len(&self) -> (r: usize)
        ensures
            r == self@.nodes.len(),
            rooted(self@),
    {
        proof {
            use_type_invariant(self);
        }
        assert(rooted(self@)) by {
            assert forall|i: int| 0 < i < self@.parent.len() implies 0
                <= #[trigger] self@.parent[i] < i by {
                assert(self.parent@[i] < i);
            }
        }
        self.nodes.len()
    }

    pub fn node(&self, i: usize) -> (r: &Vec<Scalar>)
        requires
            i < self@.nodes.len(),
        ensures
            r@ == self@.nodes[i as int],
    {
        &self.nodes[i]
    }

    pub fn root(&self) -> (r: &Vec<Scalar>)
        ensures
            r@ == self@.nodes[0],
    {
        proof {
            use_type_invariant(self);
        }
        &self.nodes[0]
    }

    /// Adds a node under `parent`; gives its index.
    pub fn add(&mut self, q: Vec<Scalar>, parent: usize) -> (r: usize)
        requires
            parent < old(self)@.nodes.len(),
        ensures
            final(self)@ == added(old(self)@, q@, parent as int),
            r == old(self)@.nodes.len(),
    {
        proof {
            use_type_invariant(&*self);
        }
        let ghost before = self@;
        let ghost qv = q@;
        let mut whole = Tree::new(Vec::new());
        std::mem::swap(self, &mut whole);
        proof {
            use_type_invariant(&whole);
        }
        let mut nodes = whole.nodes;
        let mut parents = whole.parent;
        nodes.push(q);
        parents.push(parent);
        let i: usize = nodes.len() - 1;
        let grown = Tree { nodes, parent: parents };
        *self = grown;
        assert(self@ =~= added(before, qv, parent as int));
        i
    }

    /// The node nearest to `q`, the first of equals.
    pub fn nearest(&self, q: &Vec<Scalar>) -> (r: usize)
        ensures
            r == nearest_node(self@, q@),
            r < self@.nodes.len(),
    {
        proof {
            use_type_invariant(self);
        }
        let mut best: usize = 0;
        let mut best_d = Scalar { bits: INFINITY_BITS };
        let mut i: usize = 0;
        while i < self.nodes.len()
            invariant
                i <= self.nodes.len(),
                best < self.nodes.len(),
                (best as int, best_d) == nearest_of(self@.nodes, q@, i as nat),
            decreases self.nodes.len() - i,
        {
            let d = dist_sq(&self.nodes[i], q);
            assert(self@.nodes[i as int] == self.nodes@[i as int]@);
            if d.lt(best_d) {
                best_d = d;
                best = i;
            }
            i = i + 1;
        }
        best
    }

    /// The configurations from the root to a node.
    pub fn path_to(&self, idx: usize) -> (r: Vec<Vec<Scalar>>)
        requires
            idx < self@.nodes.len(),
        ensures
            rows_of(r@) == path_up(self@, idx as int),
    {
        proof {
            use_type_invariant(self);
        }
        let mut back: Vec<Vec<Scalar>> = Vec::new();
        let mut i: usize = idx;
        let ghost t = self@;
        assert(path_up(t, idx as int) =~= path_up(t, i as int) + rows_of(back@).reverse());
        while i > 0
            invariant
                i < self.nodes.len(),
                t == self@,
                self.nodes@.len() > 0,
                self.parent@.len() == self.nodes@.len(),
                forall|i: int| 0 < i < self.parent@.len() ==> #[trigger] self.parent@[i] < i,
                path_up(t, idx as int) == path_up(t, i as int) + rows_of(back@).reverse(),
            decreases i,
        {
            let ghost before = back@;
            back.push(copy_scalars(self.nodes[i].as_slice()));
            proof {
                let q = t.nodes[i as int];
                assert(rows_of(back@) =~= rows_of(before).push(q));
                assert(rows_of(back@).reverse() =~= seq![q] + rows_of(before).reverse());
                assert(self.parent@[i as int] < i);
                assert(t.parent[i as int] == self.parent@[i as int]);
                assert(path_up(t, i as int) == path_up(t, t.parent[i as int]).push(q));
                assert(path_up(t, t.parent[i as int]).push(q) + rows_of(before).reverse()
                    =~= path_up(t, t.parent[i as int]) + (seq![q] + rows_of(before).reverse()));
            }
            i = self.parent[i];
        }
        let mut out: Vec<Vec<Scalar>> = Vec::new();
        out.push(copy_scalars(self.nodes[0].as_slice()));
        assert(rows_of(out@) =~= path_up(t, 0));
        let ghost full = rows_of(back@);
        while back.len() > 0
            invariant
                back.len() <= full.len(),
                rows_of(back@) == full.take(back@.len() as int),
                rows_of(out@) == path_up(t, 0) + full.skip(back@.len() as int).reverse(),
            decreases back.len(),
        {
            let ghost bv = back@;
            let ghost ov = out@;
            match back.pop() {
                Some(q) => {
                    let ghost e = q@;
                    out.push(q);
                    proof {
                        let k = back@.len() as int;
                        assert(back@ =~= bv.drop_last());
                        assert(rows_of(bv)[k] == full.take(k + 1)[k]);
                        assert(full[k] == e);
                        assert(rows_of(back@) =~= full.take(k)) by {
                            assert forall|j: int| 0 <= j < k implies rows_of(back@)[j]
                                == full[j] by {
                                assert(rows_of(bv)[j] == full.take(k + 1)[j]);
                            }
                        }
                        assert(rows_of(out@) =~= rows_of(ov).push(e));
                        assert(full.skip(k).reverse() =~= full.skip(k + 1).reverse().push(e));
                        assert((path_up(t, 0) + full.skip(k + 1).reverse()).push(e) =~= path_up(
                            t,
                            0,
                        ) + full.skip(k).reverse());
                    }
                },
                None => {},
            }
        }
        assert(full.skip(0) =~= full);
        out
    }
}

/// A path to a node starts at the root, ends at the node, and follows parents.
pub proof fn law_path_follows_parents(t: TreeV, i: int, edge: spec_fn(
    Seq<Scalar>,
    Seq<Scalar>,
) -> bool)
    requires
        rooted(t),
        0 <= i < t.nodes.len(),
        forall|k: int|
            0 < k < t.nodes.len() ==> edge(
                t.nodes[t.parent[k]],
                #[trigger] t.nodes[k],
            ),
    ensures
        path_up(t, i).len() > 0,
        path_up(t, i)[0] == t.nodes[0],
        path_up(t, i).last() == t.nodes[i],
        forall|k: int|
            0 <= k < path_up(t, i).len() - 1 ==> edge(
                #[trigger] path_up(t, i)[k],
                path_up(t, i)[k + 1],
            ),
    decreases i,
{
    if i > 0 {
        assert(0 <= t.parent[i] < i);
        law_path_follows_parents(t, t.parent[i], edge);
        let p = path_up(t, t.parent[i]);
        let q = path_up(t, i);
        assert forall|k: int| 0 <= k < q.len() - 1 implies edge(#[trigger] q[k], q[k + 1]) by {
            assert(q[k] == p[k]);
            if k < p.len() - 1 {
                assert(q[k + 1] == p[k + 1]);
            } else {
                assert(q[k + 1] == t.nodes[i]);
            }
        }
    }
}

} // verus!
