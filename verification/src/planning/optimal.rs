//! Why the path through a roadmap is a shortest one: no walk along the edges adds up to
//! less, with sums rounded as they are computed.

use vstd::prelude::*;

#[allow(unused_imports)]
use crate::planning::prm::{
    closed_links, explored, frontier, lemma_trail, relaxed, search_from, shortest, trail, SearchV,
};
#[allow(unused_imports)]
use crate::scalar::consts::INFINITY_BITS;
#[allow(unused_imports)]
use crate::scalar::number::{fadd, fle, flt};
#[allow(unused_imports)]
use crate::scalar::order::{law_adding_does_not_shrink, law_sums_keep_order, lemma_sum};
#[allow(unused_imports)]
use crate::scalar::Scalar;

verus! {

/// No edge has a negative length.
pub open spec fn lengths_fit(adj: Seq<Seq<(usize, Scalar)>>) -> bool {
    forall|i: int, k: int|
        0 <= i < adj.len() && 0 <= k < adj[i].len() ==> fle(
            Scalar { bits: 0 },
            (#[trigger] adj[i][k]).1,
        )
}

/// Nodes one after the other, and which edge leads from each to the next.
pub struct Walk {
    pub nodes: Seq<int>,
    pub edges: Seq<int>,
}

/// A walk along edges from `src`.
pub open spec fn walks(adj: Seq<Seq<(usize, Scalar)>>, w: Walk, src: int) -> bool {
    &&& w.nodes.len() > 0
    &&& w.nodes[0] == src
    &&& w.edges.len() == w.nodes.len() - 1
    &&& 0 <= src < adj.len()
    &&& forall|i: int|
        0 <= i < w.edges.len() ==> {
            let u = #[trigger] w.nodes[i];
            &&& 0 <= u < adj.len()
            &&& 0 <= w.edges[i] < adj[u].len()
            &&& adj[u][w.edges[i]].0 == w.nodes[i + 1]
        }
}

/// Length of the first `i` edges of a walk.
pub open spec fn walked(adj: Seq<Seq<(usize, Scalar)>>, w: Walk, i: nat) -> Scalar
    decreases i,
{
    if i == 0 {
        Scalar { bits: 0 }
    } else {
        fadd(
            walked(adj, w, (i - 1) as nat),
            adj[w.nodes[i - 1]][w.edges[i - 1]].1,
        )
    }
}

pub open spec fn walk_length(adj: Seq<Seq<(usize, Scalar)>>, w: Walk) -> Scalar {
    walked(adj, w, w.edges.len())
}

proof fn lemma_sum_not_negative(a: Scalar, b: Scalar)
    requires
        fle(Scalar { bits: 0 }, a),
        fle(Scalar { bits: 0 }, b),
    ensures
        !fadd(a, b).nan(),
        fle(a, fadd(a, b)),
        fle(Scalar { bits: 0 }, fadd(a, b)),
{
    assert(!fadd(a, b).nan()) by {
        if a.finite() && b.finite() {
            lemma_sum(a, b);
        } else {
            reveal(fadd);
        }
    }
    law_adding_does_not_shrink(a, b);
}

/// What holds of a search between two nodes: lengths are numbers, what is done is no
/// farther than what is not, and the edges of what is done have been tried.
spec fn orderly(adj: Seq<Seq<(usize, Scalar)>>, s: SearchV, src: int, dst: int) -> bool {
    &&& s.d.len() == adj.len()
    &&& s.prev.len() == adj.len()
    &&& s.done.len() == adj.len()
    &&& 0 <= src < adj.len()
    &&& 0 <= dst < adj.len()
    &&& s.d[src] == (Scalar { bits: 0 })
    &&& s.prev[src] >= adj.len()
    &&& !s.done[dst]
    &&& forall|i: int| 0 <= i < adj.len() ==> fle(Scalar { bits: 0 }, #[trigger] s.d[i])
    &&& forall|x: int, y: int|
        0 <= x < adj.len() && 0 <= y < adj.len() && s.done[x] && !s.done[y] ==> fle(
            #[trigger] s.d[x],
            #[trigger] s.d[y],
        )
    &&& forall|x: int, k: int|
        0 <= x < adj.len() && s.done[x] && 0 <= k < adj[x].len() ==> fle(
            s.d[(#[trigger] adj[x][k]).0 as int],
            fadd(s.d[x], adj[x][k].1),
        )
    &&& forall|y: int|
        0 <= y < adj.len() && y != src && (#[trigger] s.d[y]).finite() ==> led(adj, s, y)
}

/// A node is as far as the done node before it and an edge between them.
spec fn led(adj: Seq<Seq<(usize, Scalar)>>, s: SearchV, y: int) -> bool {
    &&& s.prev[y] < adj.len()
    &&& s.done[s.prev[y] as int]
    &&& exists|k: int| #[trigger] leads(adj, s, y, k)
}

spec fn leads(adj: Seq<Seq<(usize, Scalar)>>, s: SearchV, y: int, k: int) -> bool {
    let u = s.prev[y] as int;
    0 <= k < adj[u].len() && adj[u][k].0 == y && s.d[y] == fadd(s.d[u], adj[u][k].1)
}

/// The edge that leads to a node.
spec fn edge_to(adj: Seq<Seq<(usize, Scalar)>>, s: SearchV, y: int) -> int {
    choose|k: int| leads(adj, s, y, k)
}

proof fn lemma_start(adj: Seq<Seq<(usize, Scalar)>>, src: int, dst: int)
    requires
        0 <= src < adj.len(),
        0 <= dst < adj.len(),
        adj.len() <= usize::MAX,
    ensures
        orderly(adj, search_from(adj.len(), src), src, dst),
{
}

proof fn lemma_frontier_least(s: SearchV, n: nat)
    requires
        n <= s.d.len(),
        s.done.len() == s.d.len(),
        forall|i: int| 0 <= i < s.d.len() ==> !(#[trigger] s.d[i]).nan(),
    ensures
        ({
            let (o, b) = frontier(s, n);
            &&& !b.nan()
            &&& forall|i: int| 0 <= i < n && !s.done[i] ==> fle(b, #[trigger] s.d[i])
            &&& match o {
                Some(u) => 0 <= u < n && !s.done[u] && s.d[u] == b,
                None => b == (Scalar { bits: INFINITY_BITS }),
            }
        }),
    decreases n,
{
    if n > 0 {
        lemma_frontier_least(s, (n - 1) as nat);
        assert(!s.d[n - 1].nan());
    }
}

/// What trying edges of the node `u` leaves alone, and what it brings about.
proof fn lemma_tried(adj: Seq<Seq<(usize, Scalar)>>, t: SearchV, u: int, n: nat, src: int)
    requires
        closed_links(adj),
        lengths_fit(adj),
        adj.len() <= usize::MAX,
        0 <= u < adj.len(),
        0 <= src < adj.len(),
        n <= adj[u].len(),
        t.d.len() == adj.len(),
        t.prev.len() == adj.len(),
        t.done.len() == adj.len(),
        t.d[src] == (Scalar { bits: 0 }),
        t.done[u],
        forall|i: int| 0 <= i < adj.len() ==> fle(Scalar { bits: 0 }, #[trigger] t.d[i]),
        forall|x: int| 0 <= x < adj.len() && t.done[x] ==> fle(#[trigger] t.d[x], t.d[u]),
        forall|y: int| 0 <= y < adj.len() && !t.done[y] ==> fle(t.d[u], #[trigger] t.d[y]),
    ensures
        ({
            let r = relaxed(t, adj[u], u, n);
            &&& r.d.len() == adj.len()
            &&& r.prev.len() == adj.len()
            &&& r.done == t.done
            &&& r.d[src] == t.d[src]
            &&& forall|x: int|
                0 <= x < adj.len() && t.done[x] ==> #[trigger] r.d[x] == t.d[x] && r.prev[x]
                    == t.prev[x]
            &&& forall|y: int|
                0 <= y < adj.len() ==> fle(Scalar { bits: 0 }, #[trigger] r.d[y]) && fle(
                    r.d[y],
                    t.d[y],
                )
            &&& forall|y: int|
                0 <= y < adj.len() && !t.done[y] ==> fle(t.d[u], #[trigger] r.d[y])
            &&& forall|k: int|
                0 <= k < n ==> fle(
                    r.d[(#[trigger] adj[u][k]).0 as int],
                    fadd(t.d[u], adj[u][k].1),
                )
            &&& forall|y: int|
                0 <= y < adj.len() ==> (#[trigger] r.d[y] == t.d[y] && r.prev[y] == t.prev[y])
                    || (y != src && r.prev[y] == u && exists|k: int| #[trigger]
                    leads(adj, r, y, k))
        }),
    decreases n,
{
    if n > 0 {
        lemma_tried(adj, t, u, (n - 1) as nat, src);
        let m = relaxed(t, adj[u], u, (n - 1) as nat);
        let r = relaxed(t, adj[u], u, n);
        let (w, c) = adj[u][n - 1];
        assert(adj[u][n - 1].0 < adj.len());
        assert(fle(Scalar { bits: 0 }, adj[u][n - 1].1));
        assert(m.d[u] == t.d[u]);
        let nd = fadd(m.d[u], c);
        lemma_sum_not_negative(m.d[u], c);
        let x = w as int;
        assert(fle(Scalar { bits: 0 }, m.d[x]) && fle(m.d[x], t.d[x]));
        if flt(nd, m.d[x]) {
            if t.done[x] {
                assert(m.d[x] == t.d[x]);
                assert(fle(t.d[x], t.d[u]));
                assert(false);
            }
            assert(x != src) by {
                if x == src {
                    assert(m.d[x] == t.d[src]);
                }
            }
            assert(x != u);
            assert(r.d == m.d.update(x, nd));
            assert(r.prev == m.prev.update(x, u as usize));
            assert(r.d[u] == t.d[u]);
            assert forall|k: int| 0 <= k < n implies fle(
                r.d[(#[trigger] adj[u][k]).0 as int],
                fadd(t.d[u], adj[u][k].1),
            ) by {
                let y = adj[u][k].0 as int;
                assert(adj[u][k].0 < adj.len());
                if k < n - 1 {
                    assert(fle(m.d[y], fadd(t.d[u], adj[u][k].1)));
                }
            }
            assert forall|y: int| 0 <= y < adj.len() implies (#[trigger] r.d[y] == t.d[y]
                && r.prev[y] == t.prev[y]) || (y != src && r.prev[y] == u && exists|k: int|
                #[trigger]
                leads(adj, r, y, k)) by {
                if y == x {
                    assert(leads(adj, r, y, n - 1));
                } else if !(m.d[y] == t.d[y] && m.prev[y] == t.prev[y]) {
                    assert((m.d[y] == t.d[y] && m.prev[y] == t.prev[y]) || (y != src && m.prev[y]
                        == u && exists|k: int| #[trigger] leads(adj, m, y, k)));
                    assert(y != src);
                    assert(m.prev[y] == u);
                    let k = choose|k: int| #[trigger] leads(adj, m, y, k);
                    assert(leads(adj, m, y, k));
                    assert(r.d[y] == m.d[y] && r.d[u] == m.d[u] && r.prev[y] == m.prev[y]);
                    assert(leads(adj, r, y, k));
                }
            }
        } else {
            assert(r == m);
            assert(fle(m.d[x], nd));
            assert forall|k: int| 0 <= k < n implies fle(
                r.d[(#[trigger] adj[u][k]).0 as int],
                fadd(t.d[u], adj[u][k].1),
            ) by {
                if k < n - 1 {
                    assert(fle(m.d[adj[u][k].0 as int], fadd(t.d[u], adj[u][k].1)));
                }
            }
        }
    } else {
        assert forall|y: int| 0 <= y < adj.len() implies fle(
            Scalar { bits: 0 },
            #[trigger] t.d[y],
        ) && fle(t.d[y], t.d[y]) by {}
    }
}

/// A round keeps the search orderly.
proof fn lemma_round(adj: Seq<Seq<(usize, Scalar)>>, s: SearchV, src: int, dst: int, u: int)
    requires
        closed_links(adj),
        lengths_fit(adj),
        adj.len() <= usize::MAX,
        orderly(adj, s, src, dst),
        frontier(s, s.d.len()).0 == Some(u),
        u != dst,
    ensures
        0 <= u < adj.len(),
        !s.done[u],
        ({
            let t = SearchV { done: s.done.update(u, true), ..s };
            orderly(adj, relaxed(t, adj[u], u, adj[u].len()), src, dst)
        }),
{
    assert forall|i: int| 0 <= i < s.d.len() implies !(#[trigger] s.d[i]).nan() by {
        assert(fle(Scalar { bits: 0 }, s.d[i]));
    }
    lemma_frontier_least(s, s.d.len());
    let t = SearchV { done: s.done.update(u, true), ..s };
    assert forall|x: int| 0 <= x < adj.len() && t.done[x] implies fle(#[trigger] t.d[x], t.d[u]) by {
        assert(fle(Scalar { bits: 0 }, s.d[u]));
        if x != u {
            assert(s.done[x]);
        }
    }
    assert forall|y: int| 0 <= y < adj.len() && !t.done[y] implies fle(t.d[u], #[trigger] t.d[y]) by {
        assert(!s.done[y]);
    }
    let r = relaxed(t, adj[u], u, adj[u].len());
    lemma_tried(adj, t, u, adj[u].len(), src);
    assert(r.d[src] == t.d[src]);
    assert forall|x: int, y: int|
        0 <= x < adj.len() && 0 <= y < adj.len() && r.done[x] && !r.done[y] implies fle(
        #[trigger] r.d[x],
        #[trigger] r.d[y],
    ) by {
        assert(t.done[x] && !t.done[y]);
        assert(r.d[x] == t.d[x]);
        assert(fle(t.d[x], t.d[u]));
        assert(fle(t.d[u], r.d[y]));
    }
    assert forall|x: int, k: int|
        0 <= x < adj.len() && r.done[x] && 0 <= k < adj[x].len() implies fle(
        r.d[(#[trigger] adj[x][k]).0 as int],
        fadd(r.d[x], adj[x][k].1),
    ) by {
        let y = adj[x][k].0 as int;
        assert(adj[x][k].0 < adj.len());
        assert(t.done[x]);
        assert(r.d[x] == t.d[x]);
        if x != u {
            assert(s.done[x]);
            assert(fle(s.d[y], fadd(s.d[x], adj[x][k].1)));
            assert(fle(r.d[y], t.d[y]));
        }
    }
    assert forall|y: int|
        0 <= y < adj.len() && y != src && (#[trigger] r.d[y]).finite() implies led(adj, r, y) by {
        if r.d[y] == t.d[y] && r.prev[y] == t.prev[y] {
            assert(s.d[y].finite());
            assert(led(adj, s, y));
            let k = choose|k: int| #[trigger] leads(adj, s, y, k);
            let v = s.prev[y] as int;
            assert(t.done[v]);
            assert(r.d[v] == t.d[v]);
            assert(leads(adj, r, y, k));
        } else {
            let k = choose|k: int| #[trigger] leads(adj, r, y, k);
            assert(leads(adj, r, y, k));
            assert(r.done[u]);
        }
    }
}

/// How many of the first `n` nodes are not done.
spec fn undone(done: Seq<bool>, n: nat) -> nat
    decreases n,
{
    if n == 0 {
        0
    } else {
        undone(done, (n - 1) as nat) + (if done[n - 1] {
            0nat
        } else {
            1nat
        })
    }
}

proof fn lemma_undone(done: Seq<bool>, u: int, n: nat)
    requires
        0 <= u < done.len(),
        !done[u],
        n <= done.len(),
    ensures
        undone(done.update(u, true), n) == undone(done, n) - (if u < n {
            1int
        } else {
            0int
        }),
    decreases n,
{
    if n > 0 {
        lemma_undone(done, u, (n - 1) as nat);
    }
}

proof fn lemma_undone_bound(done: Seq<bool>, n: nat)
    requires
        n <= done.len(),
    ensures
        undone(done, n) <= n,
    decreases n,
{
    if n > 0 {
        lemma_undone_bound(done, (n - 1) as nat);
    }
}

/// A search that has run its course is orderly, and nothing that is not done is nearer
/// than the goal.
proof fn lemma_explored_least(
    adj: Seq<Seq<(usize, Scalar)>>,
    s: SearchV,
    src: int,
    dst: int,
    n: nat,
)
    requires
        closed_links(adj),
        lengths_fit(adj),
        adj.len() <= usize::MAX,
        orderly(adj, s, src, dst),
        undone(s.done, adj.len()) <= n,
    ensures
        ({
            let r = explored(adj, s, dst, n);
            &&& orderly(adj, r, src, dst)
            &&& forall|y: int|
                0 <= y < adj.len() && !r.done[y] ==> fle(r.d[dst], #[trigger] r.d[y])
        }),
    decreases n,
{
    assert forall|i: int| 0 <= i < s.d.len() implies !(#[trigger] s.d[i]).nan() by {
        assert(fle(Scalar { bits: 0 }, s.d[i]));
    }
    lemma_frontier_least(s, s.d.len());
    match frontier(s, s.d.len()).0 {
        None => {
            let b = Scalar { bits: INFINITY_BITS };
            assert forall|y: int| 0 <= y < adj.len() && !s.done[y] implies fle(
                s.d[dst],
                #[trigger] s.d[y],
            ) by {
                assert(fle(b, s.d[y]));
                assert(!s.d[dst].nan());
            }
        },
        Some(u) => {
            if u == dst {
            } else {
                lemma_undone(s.done, u, adj.len());
                if n > 0 {
                    let t = SearchV { done: s.done.update(u, true), ..s };
                    lemma_round(adj, s, src, dst, u);
                    lemma_tried_done(t, adj[u], u, adj[u].len());
                    lemma_explored_least(
                        adj,
                        relaxed(t, adj[u], u, adj[u].len()),
                        src,
                        dst,
                        (n - 1) as nat,
                    );
                } else {
                    lemma_undone_bound(s.done.update(u, true), adj.len());
                    assert(false);
                }
            }
        },
    }
}

proof fn lemma_tried_done(t: SearchV, list: Seq<(usize, Scalar)>, u: int, n: nat)
    ensures
        relaxed(t, list, u, n).done == t.done,
    decreases n,
{
    if n > 0 {
        lemma_tried_done(t, list, u, (n - 1) as nat);
    }
}

/// Lengths along a walk are numbers that do not fall.
proof fn lemma_walked(adj: Seq<Seq<(usize, Scalar)>>, w: Walk, src: int, i: nat, j: nat)
    requires
        lengths_fit(adj),
        walks(adj, w, src),
        i <= j <= w.edges.len(),
    ensures
        fle(Scalar { bits: 0 }, walked(adj, w, i)),
        fle(walked(adj, w, i), walked(adj, w, j)),
    decreases j,
{
    if j > 0 {
        let u = w.nodes[j - 1];
        let k = w.edges[j - 1];
        assert(0 <= k < adj[u].len());
        assert(fle(Scalar { bits: 0 }, adj[u][k].1));
        if i < j {
            lemma_walked(adj, w, src, i, (j - 1) as nat);
            lemma_walked(adj, w, src, (j - 1) as nat, (j - 1) as nat);
        } else {
            lemma_walked(adj, w, src, (j - 1) as nat, (j - 1) as nat);
        }
        lemma_sum_not_negative(walked(adj, w, (j - 1) as nat), adj[u][k].1);
    }
}

/// While a walk stays on done nodes, it is no shorter than the search found.
proof fn lemma_done_prefix(adj: Seq<Seq<(usize, Scalar)>>, s: SearchV, w: Walk, src: int, dst: int, i: nat)
    requires
        closed_links(adj),
        lengths_fit(adj),
        orderly(adj, s, src, dst),
        walks(adj, w, src),
        i <= w.edges.len(),
        forall|k: int| 0 <= k < i ==> s.done[#[trigger] w.nodes[k]],
    ensures
        0 <= w.nodes[i as int] < adj.len(),
        fle(s.d[w.nodes[i as int]], walked(adj, w, i)),
    decreases i,
{
    if i > 0 {
        let m = (i - 1) as nat;
        lemma_done_prefix(adj, s, w, src, dst, m);
        let u = w.nodes[m as int];
        let k = w.edges[m as int];
        let c = adj[u][k].1;
        assert(adj[u][k].0 < adj.len());
        assert(s.done[u]);
        assert(fle(Scalar { bits: 0 }, c));
        assert(fle(Scalar { bits: 0 }, s.d[u]));
        lemma_walked(adj, w, src, m, m);
        lemma_sum_not_negative(s.d[u], c);
        lemma_sum_not_negative(walked(adj, w, m), c);
        law_sums_keep_order(s.d[u], walked(adj, w, m), c);
        assert(fle(s.d[adj[u][k].0 as int], fadd(s.d[u], c)));
    }
}

/// The first node of a walk that is not done.
proof fn lemma_first_undone(s: SearchV, w: Walk, n: nat) -> (i: nat)
    requires
        n < w.nodes.len(),
        !s.done[w.nodes[n as int]],
    ensures
        i <= n,
        !s.done[w.nodes[i as int]],
        forall|k: int| 0 <= k < i ==> s.done[#[trigger] w.nodes[k]],
    decreases n,
{
    if exists|k: int| 0 <= k < n && !s.done[#[trigger] w.nodes[k]] {
        let k = choose|k: int| 0 <= k < n && !s.done[#[trigger] w.nodes[k]];
        lemma_first_undone(s, w, k as nat)
    } else {
        n
    }
}

/// No walk from one node to another is shorter than the length that the search ends
/// with; where it ends with none, no walk has a finite length.
pub proof fn law_no_walk_is_shorter(
    adj: Seq<Seq<(usize, Scalar)>>,
    src: int,
    dst: int,
    w: Walk,
)
    requires
        closed_links(adj),
        lengths_fit(adj),
        adj.len() <= usize::MAX,
        0 <= dst < adj.len(),
        walks(adj, w, src),
        w.nodes.last() == dst,
    ensures
        fle(
            explored(adj, search_from(adj.len(), src), dst, adj.len()).d[dst],
            walk_length(adj, w),
        ),
        shortest(adj, src, dst) is None ==> !walk_length(adj, w).finite(),
{
    let s0 = search_from(adj.len(), src);
    lemma_start(adj, src, dst);
    lemma_undone_bound(s0.done, adj.len());
    lemma_explored_least(adj, s0, src, dst, adj.len());
    let s = explored(adj, s0, dst, adj.len());
    let n = w.edges.len();
    let i = lemma_first_undone(s, w, n);
    lemma_done_prefix(adj, s, w, src, dst, i);
    lemma_walked(adj, w, src, i, n);
    assert(fle(s.d[dst], s.d[w.nodes[i as int]]));
}

/// The nodes that the search leads back through are a walk of exactly the length that
/// it ends with.
pub proof fn law_found_trail_is_a_walk(
    adj: Seq<Seq<(usize, Scalar)>>,
    src: int,
    dst: int,
    left: nat,
) -> (w: Walk)
    requires
        closed_links(adj),
        lengths_fit(adj),
        adj.len() <= usize::MAX,
        0 <= src < adj.len(),
        0 <= dst < adj.len(),
        shortest(adj, src, dst) matches Some(prev) && trail(prev, src, dst, left) is Some,
    ensures
        walks(adj, w, src),
        shortest(adj, src, dst) matches Some(prev) && trail(prev, src, dst, left) == Some(w.nodes),
        walk_length(adj, w) == explored(
            adj,
            search_from(adj.len(), src),
            dst,
            adj.len(),
        ).d[dst],
{
    let s0 = search_from(adj.len(), src);
    lemma_start(adj, src, dst);
    lemma_undone_bound(s0.done, adj.len());
    lemma_explored_least(adj, s0, src, dst, adj.len());
    let s = explored(adj, s0, dst, adj.len());
    let t = trail(s.prev, src, dst, left).unwrap();
    lemma_trail(s.prev, src, dst, left);
    let w = Walk {
        nodes: t,
        edges: Seq::new((t.len() - 1) as nat, |c: int| edge_to(adj, s, t[c + 1])),
    };
    lemma_trail_lengths(adj, s, src, dst, t, w, (t.len() - 1) as nat);
    w
}

proof fn lemma_trail_lengths(
    adj: Seq<Seq<(usize, Scalar)>>,
    s: SearchV,
    src: int,
    dst: int,
    t: Seq<int>,
    w: Walk,
    n: nat,
)
    requires
        closed_links(adj),
        lengths_fit(adj),
        orderly(adj, s, src, dst),
        s.d[dst].finite(),
        t.len() > 0,
        t[0] == src,
        t.last() == dst,
        n < t.len(),
        forall|c: int|
            0 <= c < t.len() - 1 ==> 0 <= #[trigger] t[c + 1] < s.prev.len() && s.prev[t[c + 1]]
                == t[c] && t[c] < s.prev.len(),
        w == (Walk {
            nodes: t,
            edges: Seq::new(
                (t.len() - 1) as nat,
                |c: int| edge_to(adj, s, t[c + 1]),
            ),
        }),
    ensures
        walks(adj, w, src),
        walked(adj, w, n) == s.d[t[n as int]],
    decreases n,
{
    lemma_trail_fits(adj, s, src, dst, t);
    assert forall|i: int| 0 <= i < w.edges.len() implies {
        let u = #[trigger] w.nodes[i];
        &&& 0 <= u < adj.len()
        &&& 0 <= w.edges[i] < adj[u].len()
        &&& adj[u][w.edges[i]].0 == w.nodes[i + 1]
    } by {
        let y = t[i + 1];
        assert(s.prev[y] == t[i]);
        assert(led(adj, s, y));
        let k = edge_to(adj, s, y);
        assert(leads(adj, s, y, k));
        assert(w.edges[i] == k);
    }
    if n > 0 {
        lemma_trail_lengths(adj, s, src, dst, t, w, (n - 1) as nat);
        let y = t[n - 1 + 1];
        assert(s.prev[y] == t[n - 1]);
        assert(led(adj, s, y));
        let k = edge_to(adj, s, y);
        assert(leads(adj, s, y, k));
        assert(w.edges[n - 1] == k);
    }
}

/// Every node of a trail but the first is led to, since the last one is.
proof fn lemma_trail_fits(adj: Seq<Seq<(usize, Scalar)>>, s: SearchV, src: int, dst: int, t: Seq<int>)
    requires
        closed_links(adj),
        lengths_fit(adj),
        orderly(adj, s, src, dst),
        s.d[dst].finite(),
        t.len() > 0,
        t[0] == src,
        t.last() == dst,
        forall|c: int|
            0 <= c < t.len() - 1 ==> 0 <= #[trigger] t[c + 1] < s.prev.len() && s.prev[t[c + 1]]
                == t[c] && t[c] < s.prev.len(),
    ensures
        forall|c: int| 0 <= c < t.len() - 1 ==> led(adj, s, #[trigger] t[c + 1]),
{
    assert forall|c: int| 0 <= c < t.len() - 1 implies led(adj, s, #[trigger] t[c + 1]) by {
        lemma_trail_back(adj, s, src, dst, t, (t.len() - 2 - c) as nat);
    }
}

proof fn lemma_trail_back(
    adj: Seq<Seq<(usize, Scalar)>>,
    s: SearchV,
    src: int,
    dst: int,
    t: Seq<int>,
    j: nat,
)
    requires
        closed_links(adj),
        lengths_fit(adj),
        orderly(adj, s, src, dst),
        s.d[dst].finite(),
        t.len() > 1,
        t.last() == dst,
        j <= t.len() - 2,
        forall|c: int|
            0 <= c < t.len() - 1 ==> 0 <= #[trigger] t[c + 1] < s.prev.len() && s.prev[t[c + 1]]
                == t[c] && t[c] < s.prev.len(),
    ensures
        s.d[t[t.len() - 1 - j]].finite(),
        led(adj, s, t[t.len() - 1 - j]),
    decreases j,
{
    let c = t.len() - 2 - j;
    let y = t[c + 1];
    assert(0 <= y < s.prev.len() && s.prev[y] == t[c]);
    if j > 0 {
        lemma_trail_back(adj, s, src, dst, t, (j - 1) as nat);
        let z = t[c + 1 + 1];
        assert(s.prev[z] == t[c + 1]);
        let k = choose|k: int| leads(adj, s, z, k);
        assert(leads(adj, s, z, k));
        assert(fle(Scalar { bits: 0 }, s.d[y]));
        assert(fle(Scalar { bits: 0 }, adj[y][k].1));
        lemma_sum_not_negative(s.d[y], adj[y][k].1);
    }
}

} // verus!
