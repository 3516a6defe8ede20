//! A roadmap: free configurations joined to their nearest neighbours once, and then
//! asked for as many paths as wanted.

use vstd::prelude::*;

use crate::hal::backend::copy_scalars;
#[allow(unused_imports)]
use crate::motion::trajectory::rows_of;
use crate::planning::geometry::dist;
#[allow(unused_imports)]
use crate::planning::geometry::distance;
#[allow(unused_imports)]
use crate::planning::planner::{decides, open_to_all};
use crate::planning::rng::{draw, Rng};
#[allow(unused_imports)]
use crate::planning::rng::drawn;
#[allow(unused_imports)]
use crate::planning::smooth::{askable, judges};
use crate::scalar::consts::INFINITY_BITS;
#[allow(unused_imports)]
use crate::scalar::convert::total_key;
#[allow(unused_imports)]
use crate::scalar::number::{fadd, flt};
use crate::scalar::Scalar;

verus! {

/// Settings of a roadmap.
#[derive(Clone, Copy, Debug, PartialEq, Eq, Structural)]
pub struct PrmParams {
    pub seed: u64,
    pub samples: usize,
    pub k: usize,
}

/// The neighbours of every node, with the lengths of the edges to them.
pub type Links = Vec<Vec<(usize, Scalar)>>;

pub open spec fn links(v: Seq<Vec<(usize, Scalar)>>) -> Seq<Seq<(usize, Scalar)>> {
    Seq::new(v.len(), |i: int| v[i]@)
}

// ---- sampling ----

/// Free samples: those found so far, after some more attempts.
pub open spec fn gathered(
    bounds: Seq<(Scalar, Scalar)>,
    s: u64,
    found: Seq<Seq<Scalar>>,
    wanted: nat,
    attempts: nat,
    p: spec_fn(Seq<Scalar>) -> bool,
) -> Seq<Seq<Scalar>>
    decreases attempts,
{
    if found.len() >= wanted || attempts == 0 {
        found
    } else {
        let (q, t) = drawn(s, bounds, bounds.len());
        gathered(
            bounds,
            t,
            if p(q) {
                found.push(q)
            } else {
                found
            },
            wanted,
            (attempts - 1) as nat,
            p,
        )
    }
}

/// How many samples are drawn at most.
pub open spec fn attempt_cap(samples: usize) -> nat {
    let x = samples * 40 + 1000;
    if x > usize::MAX {
        usize::MAX as nat
    } else {
        x as nat
    }
}

fn cap_of(samples: usize) -> (r: usize)
    ensures
        r == attempt_cap(samples),
{
    let x: u128 = samples as u128 * 40 + 1000;
    if x > usize::MAX as u128 {
        usize::MAX
    } else {
        x as usize
    }
}

fn gather<F: Fn(&[Scalar]) -> bool>(
    bounds: &Vec<(Scalar, Scalar)>,
    params: &PrmParams,
    free: &F,
) -> (r: Vec<Vec<Scalar>>)
    requires
        open_to_all(*free),
    ensures
        forall|p: spec_fn(Seq<Scalar>) -> bool| #[trigger]
            decides(*free, p) ==> rows_of(r@) == gathered(
                bounds@,
                params.seed,
                Seq::empty(),
                params.samples as nat,
                attempt_cap(params.samples),
                p,
            ),
{
    let mut rng = Rng::new(params.seed);
    let mut nodes: Vec<Vec<Scalar>> = Vec::new();
    let cap = cap_of(params.samples);
    let mut attempts: usize = 0;
    assert(rows_of(nodes@) =~= Seq::empty());
    while nodes.len() < params.samples && attempts < cap
        invariant
            attempts <= cap,
            cap == attempt_cap(params.samples),
            open_to_all(*free),
            forall|p: spec_fn(Seq<Scalar>) -> bool| #[trigger]
                decides(*free, p) ==> gathered(
                    bounds@,
                    params.seed,
                    Seq::empty(),
                    params.samples as nat,
                    cap as nat,
                    p,
                ) == gathered(
                    bounds@,
                    rng.state,
                    rows_of(nodes@),
                    params.samples as nat,
                    (cap - attempts) as nat,
                    p,
                ),
        decreases cap - attempts,
    {
        let ghost s0 = rng.state;
        let ghost before = nodes@;
        let q = draw(&mut rng, bounds);
        let ghost qv = q@;
        let ok = free(q.as_slice());
        if ok {
            nodes.push(q);
        }
        proof {
            if ok {
                assert(rows_of(nodes@) =~= rows_of(before).push(qv));
            }
            assert forall|p: spec_fn(Seq<Scalar>) -> bool| #[trigger] decides(*free, p) implies
                gathered(
                bounds@,
                params.seed,
                Seq::empty(),
                params.samples as nat,
                cap as nat,
                p,
            ) == gathered(
                bounds@,
                rng.state,
                rows_of(nodes@),
                params.samples as nat,
                (cap - attempts - 1) as nat,
                p,
            ) by {
                assert(ok == p(qv));
                assert(gathered(
                    bounds@,
                    s0,
                    rows_of(before),
                    params.samples as nat,
                    (cap - attempts) as nat,
                    p,
                ) == gathered(
                    bounds@,
                    rng.state,
                    rows_of(nodes@),
                    params.samples as nat,
                    (cap - attempts - 1) as nat,
                    p,
                ));
            }
        }
        attempts = attempts + 1;
    }
    nodes
}

// ---- nearest neighbours ----

/// Distances from a configuration to all nodes.
pub open spec fn distances(nodes: Seq<Seq<Scalar>>, q: Seq<Scalar>) -> Seq<Scalar> {
    Seq::new(nodes.len(), |j: int| distance(q, nodes[j]))
}

/// Nearer, or as near with a smaller index.
pub open spec fn nearer(d: Seq<Scalar>, a: int, b: int) -> bool {
    total_key(d[a]) < total_key(d[b]) || (total_key(d[a]) == total_key(d[b]) && a < b)
}

/// The nearest of the first `n` nodes that comes after `last`, `skip` left out.
pub open spec fn next_nearest(d: Seq<Scalar>, skip: int, last: Option<int>, n: nat) -> Option<int>
    decreases n,
{
    if n == 0 {
        None
    } else {
        let best = next_nearest(d, skip, last, (n - 1) as nat);
        let j = n - 1;
        let open = j != skip && match last {
            None => true,
            Some(l) => nearer(d, l, j),
        };
        if open && match best {
            None => true,
            Some(b) => nearer(d, j, b),
        } {
            Some(j)
        } else {
            best
        }
    }
}

fn measure(nodes: &Vec<Vec<Scalar>>, q: &Vec<Scalar>) -> (r: Vec<Scalar>)
    ensures
        r@ == distances(rows_of(nodes@), q@),
{
    let ghost v = rows_of(nodes@);
    let mut d: Vec<Scalar> = Vec::new();
    let mut j: usize = 0;
    while j < nodes.len()
        invariant
            j <= nodes.len(),
            v == rows_of(nodes@),
            d.len() == j,
            forall|k: int| 0 <= k < j ==> #[trigger] d@[k] == distance(q@, v[k]),
        decreases nodes.len() - j,
    {
        assert(v[j as int] == nodes@[j as int]@);
        d.push(dist(q, &nodes[j]));
        j = j + 1;
    }
    assert(d@ =~= distances(v, q@));
    d
}

fn is_nearer(d: &Vec<Scalar>, a: usize, b: usize) -> (r: bool)
    requires
        a < d@.len(),
        b < d@.len(),
    ensures
        r == nearer(d@, a as int, b as int),
{
    if d[a].sorts_before(d[b]) {
        return true;
    }
    if d[b].sorts_before(d[a]) {
        return false;
    }
    a < b
}

fn find_next(d: &Vec<Scalar>, skip: Option<usize>, last: Option<usize>) -> (r: Option<usize>)
    requires
        last matches Some(l) ==> l < d@.len(),
    ensures
        ({
            let s: int = match skip {
                Some(x) => x as int,
                None => -1,
            };
            let l: Option<int> = match last {
                Some(x) => Some(x as int),
                None => None,
            };
            match r {
                Some(j) => next_nearest(d@, s, l, d@.len()) == Some(j as int) && j < d@.len()
                    && j != s,
                None => next_nearest(d@, s, l, d@.len()) is None,
            }
        }),
{
    let ghost s: int = match skip {
        Some(x) => x as int,
        None => -1,
    };
    let ghost l: Option<int> = match last {
        Some(x) => Some(x as int),
        None => None,
    };
    let mut best: Option<usize> = None;
    let mut j: usize = 0;
    while j < d.len()
        invariant
            j <= d.len(),
            last matches Some(x) ==> x < d@.len(),
            s == (match skip {
                Some(x) => x as int,
                None => -1,
            }),
            l == (match last {
                Some(x) => Some(x as int),
                None => None,
            }),
            match best {
                Some(b) => b < j && b != s && next_nearest(d@, s, l, j as nat) == Some(b as int),
                None => next_nearest(d@, s, l, j as nat) is None,
            },
        decreases d.len() - j,
    {
        let skipped = match skip {
            Some(x) => x == j,
            None => false,
        };
        let open = !skipped && match last {
            None => true,
            Some(x) => is_nearer(d, x, j),
        };
        let take = open && match best {
            None => true,
            Some(b) => is_nearer(d, j, b),
        };
        if take {
            best = Some(j);
        }
        j = j + 1;
    }
    best
}

// ---- joining ----

/// An edge between two nodes, in both directions.
pub open spec fn linked(
    adj: Seq<Seq<(usize, Scalar)>>,
    i: int,
    j: int,
    d: Scalar,
) -> Seq<Seq<(usize, Scalar)>> {
    let one = adj.update(i, adj[i].push((j as usize, d)));
    one.update(j, one[j].push((i as usize, d)))
}

pub open spec fn has_link(list: Seq<(usize, Scalar)>, j: int) -> bool {
    exists|k: int| 0 <= k < list.len() && (#[trigger] list[k]).0 == j
}

/// Node `i` joined to the `left` nearest nodes after `last`.
pub open spec fn joined_near(
    adj: Seq<Seq<(usize, Scalar)>>,
    nodes: Seq<Seq<Scalar>>,
    i: int,
    e: spec_fn(Seq<Scalar>, Seq<Scalar>) -> bool,
    last: Option<int>,
    left: nat,
) -> Seq<Seq<(usize, Scalar)>>
    decreases left,
{
    let d = distances(nodes, nodes[i]);
    if left == 0 {
        adj
    } else {
        match next_nearest(d, i, last, d.len()) {
            None => adj,
            Some(j) => joined_near(
                if !has_link(adj[i], j) && e(nodes[i], nodes[j]) {
                    linked(adj, i, j, d[j])
                } else {
                    adj
                },
                nodes,
                i,
                e,
                Some(j),
                (left - 1) as nat,
            ),
        }
    }
}

/// The first `n` nodes joined to their `k` nearest neighbours.
pub open spec fn joined_up_to(
    nodes: Seq<Seq<Scalar>>,
    k: nat,
    e: spec_fn(Seq<Scalar>, Seq<Scalar>) -> bool,
    n: nat,
) -> Seq<Seq<(usize, Scalar)>>
    decreases n,
{
    if n == 0 {
        Seq::new(nodes.len(), |i: int| Seq::empty())
    } else {
        joined_near(joined_up_to(nodes, k, e, (n - 1) as nat), nodes, n - 1, e, None, k)
    }
}

fn holds_link(list: &Vec<(usize, Scalar)>, j: usize) -> (r: bool)
    ensures
        r == has_link(list@, j as int),
{
    let mut k: usize = 0;
    while k < list.len()
        invariant
            k <= list.len(),
            forall|m: int| 0 <= m < k ==> (#[trigger] list@[m]).0 != j,
        decreases list.len() - k,
    {
        if list[k].0 == j {
            assert(list@[k as int].0 == j);
            return true;
        }
        k = k + 1;
    }
    false
}

fn add_link(adj: &mut Links, i: usize, j: usize, d: Scalar)
    requires
        i < old(adj)@.len(),
        j < old(adj)@.len(),
        i != j,
    ensures
        links(final(adj)@) == linked(links(old(adj)@), i as int, j as int, d),
        final(adj)@.len() == old(adj)@.len(),
        closed_links(links(old(adj)@)) ==> closed_links(links(final(adj)@)),
{
    let ghost before = links(adj@);
    let _n: usize = adj.len();
    let mut a: Vec<(usize, Scalar)> = Vec::new();
    adj.set_and_swap(i, &mut a);
    a.push((j, d));
    adj.set(i, a);
    let ghost mid = links(adj@);
    assert(mid =~= before.update(i as int, before[i as int].push((j, d))));
    let mut b: Vec<(usize, Scalar)> = Vec::new();
    adj.set_and_swap(j, &mut b);
    b.push((i, d));
    adj.set(j, b);
    assert(links(adj@) =~= mid.update(j as int, mid[j as int].push((i, d))));
    proof {
        if closed_links(before) {
            lemma_linked_closed(before, i as int, j as int, d);
        }
    }
}

proof fn lemma_linked_closed(adj: Seq<Seq<(usize, Scalar)>>, i: int, j: int, d: Scalar)
    requires
        0 <= i < adj.len() <= usize::MAX,
        0 <= j < adj.len(),
        i != j,
        closed_links(adj),
    ensures
        closed_links(linked(adj, i, j, d)),
{
    let r = linked(adj, i, j, d);
    assert forall|m: int, k: int| 0 <= m < r.len() && 0 <= k < r[m].len() implies (
    #[trigger] r[m][k]).0 < r.len() by {
        if k < adj[m].len() {
            assert(adj[m][k].0 < adj.len());
            assert(r[m][k] == adj[m][k]);
        }
    }
}

fn blank(n: usize) -> (r: Links)
    ensures
        links(r@) == Seq::new(n as nat, |i: int| Seq::<(usize, Scalar)>::empty()),
        r@.len() == n,
        closed_links(links(r@)),
{
    let mut adj: Links = Vec::new();
    let mut i: usize = 0;
    while i < n
        invariant
            i <= n,
            adj.len() == i,
            forall|k: int| 0 <= k < i ==> (#[trigger] adj@[k])@ == Seq::<(usize, Scalar)>::empty(),
        decreases n - i,
    {
        adj.push(Vec::new());
        i = i + 1;
    }
    assert(links(adj@) =~= Seq::new(n as nat, |i: int| Seq::<(usize, Scalar)>::empty()));
    adj
}

fn join_one<E: Fn(&[Scalar], &[Scalar]) -> bool>(
    adj: &mut Links,
    nodes: &Vec<Vec<Scalar>>,
    i: usize,
    k: usize,
    valid: &E,
)
    requires
        askable(*valid),
        i < nodes@.len(),
        old(adj)@.len() == nodes@.len(),
        closed_links(links(old(adj)@)),
    ensures
        final(adj)@.len() == nodes@.len(),
        closed_links(links(final(adj)@)),
        forall|e: spec_fn(Seq<Scalar>, Seq<Scalar>) -> bool| #[trigger]
            judges(*valid, e) ==> links(final(adj)@) == joined_near(
                links(old(adj)@),
                rows_of(nodes@),
                i as int,
                e,
                None,
                k as nat,
            ),
{
    let ghost v = rows_of(nodes@);
    let ghost start = links(adj@);
    assert(v[i as int] == nodes@[i as int]@);
    let d = measure(nodes, &nodes[i]);
    let mut last: Option<usize> = None;
    let mut left: usize = k;
    while left > 0
        invariant
            left <= k,
            askable(*valid),
            i < nodes@.len(),
            v == rows_of(nodes@),
            start == links(old(adj)@),
            adj@.len() == nodes@.len(),
            closed_links(links(adj@)),
            d@ == distances(v, v[i as int]),
            d@.len() == nodes@.len(),
            last matches Some(x) ==> x < d@.len(),
            forall|e: spec_fn(Seq<Scalar>, Seq<Scalar>) -> bool| #[trigger]
                judges(*valid, e) ==> joined_near(start, v, i as int, e, None, k as nat)
                    == joined_near(
                    links(adj@),
                    v,
                    i as int,
                    e,
                    match last {
                        Some(x) => Some(x as int),
                        None => None,
                    },
                    left as nat,
                ),
        decreases left,
    {
        let ghost before = links(adj@);
        match find_next(&d, Some(i), last) {
            None => {
                return;
            },
            Some(j) => {
                assert(v[i as int] == nodes@[i as int]@);
                assert(v[j as int] == nodes@[j as int]@);
                assert(before[i as int] == adj@[i as int]@);
                let known = holds_link(&adj[i], j);
                let ok = if known {
                    false
                } else {
                    valid(nodes[i].as_slice(), nodes[j].as_slice())
                };
                if ok {
                    add_link(adj, i, j, d[j]);
                }
                proof {
                    assert forall|e: spec_fn(Seq<Scalar>, Seq<Scalar>) -> bool| #[trigger]
                        judges(*valid, e) implies joined_near(
                        start,
                        v,
                        i as int,
                        e,
                        None,
                        k as nat,
                    ) == joined_near(
                        links(adj@),
                        v,
                        i as int,
                        e,
                        Some(j as int),
                        (left - 1) as nat,
                    ) by {
                        if !known {
                            assert(ok == e(v[i as int], v[j as int]));
                        }
                    }
                }
                last = Some(j);
            },
        }
        left = left - 1;
    }
}

/// Joins every node to its nearest neighbours.
fn connect_knn<E: Fn(&[Scalar], &[Scalar]) -> bool>(
    nodes: &Vec<Vec<Scalar>>,
    k: usize,
    valid: &E,
) -> (r: Links)
    requires
        askable(*valid),
    ensures
        r@.len() == nodes@.len(),
        closed_links(links(r@)),
        forall|e: spec_fn(Seq<Scalar>, Seq<Scalar>) -> bool| #[trigger]
            judges(*valid, e) ==> links(r@) == joined_up_to(
                rows_of(nodes@),
                k as nat,
                e,
                nodes@.len(),
            ),
{
    let ghost v = rows_of(nodes@);
    let mut adj = blank(nodes.len());
    let mut i: usize = 0;
    while i < nodes.len()
        invariant
            i <= nodes.len(),
            v == rows_of(nodes@),
            adj@.len() == nodes@.len(),
            closed_links(links(adj@)),
            askable(*valid),
            forall|e: spec_fn(Seq<Scalar>, Seq<Scalar>) -> bool| #[trigger]
                judges(*valid, e) ==> links(adj@) == joined_up_to(v, k as nat, e, i as nat),
        decreases nodes.len() - i,
    {
        join_one(&mut adj, nodes, i, k, valid);
        i = i + 1;
    }
    adj
}

// ---- shortest paths ----

/// Where a search for the shortest path is: the lengths so far, the nodes before, and
/// which nodes are done.
#[verifier::ext_equal]
pub struct SearchV {
    pub d: Seq<Scalar>,
    pub prev: Seq<usize>,
    pub done: Seq<bool>,
}

/// The nearest node of the first `n` that is not done, the first of equals.
pub open spec fn frontier(s: SearchV, n: nat) -> (Option<int>, Scalar)
    decreases n,
{
    if n == 0 {
        (None, Scalar { bits: INFINITY_BITS })
    } else {
        let best = frontier(s, (n - 1) as nat);
        if !s.done[n - 1] && flt(s.d[n - 1], best.1) {
            (Some(n - 1), s.d[n - 1])
        } else {
            best
        }
    }
}

/// The first `n` edges of a node tried.
pub open spec fn relaxed(s: SearchV, list: Seq<(usize, Scalar)>, u: int, n: nat) -> SearchV
    decreases n,
{
    if n == 0 {
        s
    } else {
        let t = relaxed(s, list, u, (n - 1) as nat);
        let (w, cost) = list[n - 1];
        let nd = fadd(t.d[u], cost);
        if flt(nd, t.d[w as int]) {
            SearchV {
                d: t.d.update(w as int, nd),
                prev: t.prev.update(w as int, u as usize),
                done: t.done,
            }
        } else {
            t
        }
    }
}

/// The search after at most `n` more nodes.
pub open spec fn explored(
    adj: Seq<Seq<(usize, Scalar)>>,
    s: SearchV,
    dst: int,
    n: nat,
) -> SearchV
    decreases n,
{
    match frontier(s, s.d.len()).0 {
        None => s,
        Some(u) => if u == dst || n == 0 {
            s
        } else {
            let t = SearchV { done: s.done.update(u, true), ..s };
            explored(adj, relaxed(t, adj[u], u, adj[u].len()), dst, (n - 1) as nat)
        },
    }
}

pub open spec fn search_from(n: nat, src: int) -> SearchV {
    SearchV {
        d: Seq::new(n, |i: int| Scalar { bits: INFINITY_BITS }).update(src, Scalar { bits: 0 }),
        prev: Seq::new(n, |i: int| usize::MAX),
        done: Seq::new(n, |i: int| false),
    }
}

/// The nodes before each node on the shortest paths from `src`, if `dst` is reached.
pub open spec fn shortest(adj: Seq<Seq<(usize, Scalar)>>, src: int, dst: int) -> Option<
    Seq<usize>,
> {
    let s = explored(adj, search_from(adj.len(), src), dst, adj.len());
    if s.d[dst].finite() {
        Some(s.prev)
    } else {
        None
    }
}

/// Every edge leads to a node.
pub open spec fn closed_links(adj: Seq<Seq<(usize, Scalar)>>) -> bool {
    forall|i: int, k: int|
        0 <= i < adj.len() && 0 <= k < adj[i].len() ==> (#[trigger] adj[i][k]).0 < adj.len()
}

/// The state of a running search.
struct Search {
    d: Vec<Scalar>,
    prev: Vec<usize>,
    done: Vec<bool>,
}

impl View for Search {
    type V = SearchV;

    closed spec fn view(&self) -> SearchV {
        SearchV { d: self.d@, prev: self.prev@, done: self.done@ }
    }
}

impl Search {
    spec fn sized(&self, n: nat) -> bool {
        self.d@.len() == n && self.prev@.len() == n && self.done@.len() == n
    }

    fn start(n: usize, src: usize) -> (r: Search)
        requires
            src < n,
        ensures
            r@ == search_from(n as nat, src as int),
            r.sized(n as nat),
    {
        let mut d: Vec<Scalar> = Vec::new();
        let mut prev: Vec<usize> = Vec::new();
        let mut done: Vec<bool> = Vec::new();
        let mut i: usize = 0;
        while i < n
            invariant
                i <= n,
                d.len() == i,
                prev.len() == i,
                done.len() == i,
                forall|k: int| 0 <= k < i ==> #[trigger] d@[k] == (Scalar { bits: INFINITY_BITS }),
                forall|k: int| 0 <= k < i ==> #[trigger] prev@[k] == usize::MAX,
                forall|k: int| 0 <= k < i ==> !#[trigger] done@[k],
            decreases n - i,
        {
            d.push(Scalar { bits: INFINITY_BITS });
            prev.push(usize::MAX);
            done.push(false);
            i = i + 1;
        }
        d.set(src, Scalar { bits: 0 });
        let r = Search { d, prev, done };
        assert(r@ =~= search_from(n as nat, src as int));
        r
    }

    fn pick(&self, n: usize) -> (r: Option<usize>)
        requires
            self.sized(n as nat),
        ensures
            match r {
                Some(u) => frontier(self@, n as nat).0 == Some(u as int) && u < n,
                None => frontier(self@, n as nat).0 is None,
            },
    {
        let mut u: Option<usize> = None;
        let mut best = Scalar { bits: INFINITY_BITS };
        let mut i: usize = 0;
        while i < n
            invariant
                i <= n,
                self.sized(n as nat),
                best == frontier(self@, i as nat).1,
                match u {
                    Some(x) => frontier(self@, i as nat).0 == Some(x as int) && x < n,
                    None => frontier(self@, i as nat).0 is None,
                },
            decreases n - i,
        {
            if !self.done[i] && self.d[i].lt(best) {
                best = self.d[i];
                u = Some(i);
            }
            i = i + 1;
        }
        u
    }

    fn relax(&mut self, list: &Vec<(usize, Scalar)>, u: usize, n: usize)
        requires
            old(self).sized(n as nat),
            u < n,
            forall|k: int| 0 <= k < list@.len() ==> (#[trigger] list@[k]).0 < n,
        ensures
            final(self).sized(n as nat),
            final(self)@ == relaxed(old(self)@, list@, u as int, list@.len()),
    {
        let ghost start = self@;
        let mut k: usize = 0;
        while k < list.len()
            invariant
                k <= list.len(),
                self.sized(n as nat),
                u < n,
                forall|k: int| 0 <= k < list@.len() ==> (#[trigger] list@[k]).0 < n,
                self@ == relaxed(start, list@, u as int, k as nat),
            decreases list.len() - k,
        {
            let (w, cost) = list[k];
            assert(list@[k as int].0 < n);
            let nd = self.d[u].add(cost);
            let ghost t = self@;
            if nd.lt(self.d[w]) {
                self.d.set(w, nd);
                self.prev.set(w, u);
                assert(self@ =~= (SearchV {
                    d: t.d.update(w as int, nd),
                    prev: t.prev.update(w as int, u),
                    done: t.done,
                }));
            }
            k = k + 1;
        }
    }
}

/// The nodes before each node on the shortest paths from `src`, if `dst` is reached;
/// `usize::MAX` where there is none.
pub fn dijkstra(adj: &Links, src: usize, dst: usize) -> (r: Option<Vec<usize>>)
    requires
        src < adj@.len(),
        dst < adj@.len(),
        closed_links(links(adj@)),
    ensures
        match r {
            Some(prev) => shortest(links(adj@), src as int, dst as int) == Some(prev@)
                && prev@.len() == adj@.len(),
            None => shortest(links(adj@), src as int, dst as int) is None,
        },
{
    let n: usize = adj.len();
    let ghost v = links(adj@);
    let mut s = Search::start(n, src);
    let ghost first = s@;
    let mut left: usize = n;
    let mut more: bool = true;
    while more
        invariant
            left <= n,
            n == adj@.len(),
            v == links(adj@),
            v.len() == n,
            closed_links(v),
            s.sized(n as nat),
            more ==> explored(v, first, dst as int, n as nat) == explored(
                v,
                s@,
                dst as int,
                left as nat,
            ),
            !more ==> explored(v, first, dst as int, n as nat) == s@,
        decreases
            left + (if more {
                1int
            } else {
                0int
            }),
    {
        match s.pick(n) {
            None => {
                more = false;
            },
            Some(u) => {
                if u == dst || left == 0 {
                    more = false;
                } else {
                    let ghost before = s@;
                    s.done.set(u, true);
                    assert(s@ =~= (SearchV { done: before.done.update(u as int, true), ..before }));
                    assert(v[u as int] == adj@[u as int]@);
                    assert forall|k: int| 0 <= k < adj@[u as int]@.len() implies (
                    #[trigger] adj@[u as int]@[k]).0 < n by {
                        assert(v[u as int][k].0 < v.len());
                    }
                    s.relax(&adj[u], u, n);
                    left = left - 1;
                }
            },
        }
    }
    if s.d[dst].is_finite() {
        Some(s.prev)
    } else {
        None
    }
}

// ---- the roadmap ----

/// Free configurations and the edges between them.
pub struct Roadmap {
    nodes: Vec<Vec<Scalar>>,
    adj: Links,
}

/// The configurations of a roadmap.
pub open spec fn milestones(
    bounds: Seq<(Scalar, Scalar)>,
    params: PrmParams,
    p: spec_fn(Seq<Scalar>) -> bool,
) -> Seq<Seq<Scalar>> {
    gathered(
        bounds,
        params.seed,
        Seq::empty(),
        params.samples as nat,
        attempt_cap(params.samples),
        p,
    )
}

/// A roadmap is the one that its parameters and judges lead to.
pub open spec fn surveyed<F: Fn(&[Scalar]) -> bool, E: Fn(&[Scalar], &[Scalar]) -> bool>(
    bounds: Seq<(Scalar, Scalar)>,
    params: PrmParams,
    free: F,
    valid: E,
    r: Roadmap,
) -> bool {
    forall|p: spec_fn(Seq<Scalar>) -> bool, e: spec_fn(Seq<Scalar>, Seq<Scalar>) -> bool|
        #![trigger decides(free, p), judges(valid, e)]
        decides(free, p) && judges(valid, e) ==> r.places() == milestones(
            bounds,
            params,
            p,
        ) && r.edges() == joined_up_to(
            milestones(bounds, params, p),
            params.k as nat,
            e,
            milestones(bounds, params, p).len(),
        )
}

/// Samples free configurations and joins them.
pub fn build_roadmap<F: Fn(&[Scalar]) -> bool, E: Fn(&[Scalar], &[Scalar]) -> bool>(
    bounds: &Vec<(Scalar, Scalar)>,
    params: &PrmParams,
    free: &F,
    valid: &E,
) -> (r: Roadmap)
    requires
        open_to_all(*free),
        askable(*valid),
    ensures
        surveyed(bounds@, *params, *free, *valid, r),
{
    let nodes = gather(bounds, params, free);
    let adj = connect_knn(&nodes, params.k, valid);
    assert(rows_of(nodes@).len() == nodes@.len());
    Roadmap { nodes, adj }
}

/// Two more nodes without edges.
pub open spec fn with_ends(adj: Seq<Seq<(usize, Scalar)>>) -> Seq<Seq<(usize, Scalar)>> {
    adj.push(Seq::empty()).push(Seq::empty())
}

/// Node `qi` at `q` joined to the nearest nodes that it can reach, `more` of them at
/// most, among those after `last`.
pub open spec fn attached(
    adj: Seq<Seq<(usize, Scalar)>>,
    nodes: Seq<Seq<Scalar>>,
    qi: int,
    q: Seq<Scalar>,
    e: spec_fn(Seq<Scalar>, Seq<Scalar>) -> bool,
    more: nat,
    last: Option<int>,
    left: nat,
) -> Seq<Seq<(usize, Scalar)>>
    decreases left,
{
    let d = distances(nodes, q);
    if more == 0 || left == 0 {
        adj
    } else {
        match next_nearest(d, -1, last, d.len()) {
            None => adj,
            Some(j) => if e(q, nodes[j]) {
                attached(
                    linked(adj, qi, j, d[j]),
                    nodes,
                    qi,
                    q,
                    e,
                    (more - 1) as nat,
                    Some(j),
                    (left - 1) as nat,
                )
            } else {
                attached(adj, nodes, qi, q, e, more, Some(j), (left - 1) as nat)
            },
        }
    }
}

/// A roadmap with the two ends of a query joined to it.
pub open spec fn queried(
    adj: Seq<Seq<(usize, Scalar)>>,
    nodes: Seq<Seq<Scalar>>,
    start: Seq<Scalar>,
    goal: Seq<Scalar>,
    k: nat,
    e: spec_fn(Seq<Scalar>, Seq<Scalar>) -> bool,
) -> Seq<Seq<(usize, Scalar)>> {
    let n = nodes.len();
    let a = attached(with_ends(adj), nodes, n as int, start, e, k, None, n);
    let b = attached(a, nodes, n + 1int, goal, e, k, None, n);
    if e(start, goal) {
        linked(b, n as int, n + 1int, distance(start, goal))
    } else {
        b
    }
}

/// The nodes from `src` to `at`, by the node before each; at most `left` steps back.
pub open spec fn trail(prev: Seq<usize>, src: int, at: int, left: nat) -> Option<Seq<int>>
    decreases left,
{
    if at == src {
        Some(seq![src])
    } else if left == 0 || !(0 <= at < prev.len()) || prev[at] >= prev.len() {
        None
    } else {
        match trail(prev, src, prev[at] as int, (left - 1) as nat) {
            None => None,
            Some(t) => Some(t.push(at)),
        }
    }
}

/// The configuration of a node.
pub open spec fn at_node(
    nodes: Seq<Seq<Scalar>>,
    start: Seq<Scalar>,
    goal: Seq<Scalar>,
    i: int,
) -> Seq<Scalar> {
    if i == nodes.len() {
        start
    } else if i == nodes.len() + 1 {
        goal
    } else {
        nodes[i]
    }
}

/// The path that answers a query.
pub open spec fn answer(
    adj: Seq<Seq<(usize, Scalar)>>,
    nodes: Seq<Seq<Scalar>>,
    start: Seq<Scalar>,
    goal: Seq<Scalar>,
    k: nat,
    e: spec_fn(Seq<Scalar>, Seq<Scalar>) -> bool,
) -> Option<Seq<Seq<Scalar>>> {
    let n = nodes.len();
    match shortest(queried(adj, nodes, start, goal, k, e), n as int, n + 1int) {
        None => None,
        Some(prev) => match trail(prev, n as int, n + 1int, n + 2) {
            None => None,
            Some(t) => Some(Seq::new(t.len(), |i: int| at_node(nodes, start, goal, t[i]))),
        },
    }
}

fn copy_links(adj: &Links) -> (r: Links)
    ensures
        links(r@) == links(adj@),
        r@.len() == adj@.len(),
{
    let mut out: Links = Vec::new();
    let mut i: usize = 0;
    while i < adj.len()
        invariant
            i <= adj.len(),
            out.len() == i,
            forall|k: int| 0 <= k < i ==> (#[trigger] out@[k])@ == adj@[k]@,
        decreases adj.len() - i,
    {
        let mut list: Vec<(usize, Scalar)> = Vec::new();
        let mut k: usize = 0;
        while k < adj[i].len()
            invariant
                i < adj.len(),
                k <= adj@[i as int]@.len(),
                list@ == adj@[i as int]@.take(k as int),
            decreases adj@[i as int]@.len() - k,
        {
            list.push(adj[i][k]);
            k = k + 1;
            assert(adj@[i as int]@.take(k as int) =~= adj@[i as int]@.take(k - 1).push(
                adj@[i as int]@[k - 1],
            ));
        }
        assert(list@ =~= adj@[i as int]@);
        out.push(list);
        i = i + 1;
    }
    assert(links(out@) =~= links(adj@));
    out
}

fn attach<E: Fn(&[Scalar], &[Scalar]) -> bool>(
    adj: &mut Links,
    nodes: &Vec<Vec<Scalar>>,
    qi: usize,
    q: &Vec<Scalar>,
    k: usize,
    valid: &E,
)
    requires
        askable(*valid),
        nodes@.len() <= qi < old(adj)@.len(),
        old(adj)@.len() == nodes@.len() + 2,
        closed_links(links(old(adj)@)),
    ensures
        final(adj)@.len() == old(adj)@.len(),
        closed_links(links(final(adj)@)),
        forall|e: spec_fn(Seq<Scalar>, Seq<Scalar>) -> bool| #[trigger]
            judges(*valid, e) ==> links(final(adj)@) == attached(
                links(old(adj)@),
                rows_of(nodes@),
                qi as int,
                q@,
                e,
                k as nat,
                None,
                nodes@.len(),
            ),
{
    let ghost v = rows_of(nodes@);
    let ghost start = links(adj@);
    let n: usize = nodes.len();
    let d = measure(nodes, q);
    let mut last: Option<usize> = None;
    let mut more: usize = k;
    let mut left: usize = n;
    while more > 0 && left > 0
        invariant
            more <= k,
            left <= n,
            askable(*valid),
            v == rows_of(nodes@),
            n == nodes@.len(),
            nodes@.len() <= qi < adj@.len(),
            adj@.len() == old(adj)@.len(),
            adj@.len() == nodes@.len() + 2,
            closed_links(links(adj@)),
            d@ == distances(v, q@),
            d@.len() == nodes@.len(),
            last matches Some(x) ==> x < d@.len(),
            start == links(old(adj)@),
            forall|e: spec_fn(Seq<Scalar>, Seq<Scalar>) -> bool| #[trigger]
                judges(*valid, e) ==> attached(start, v, qi as int, q@, e, k as nat, None, n as nat)
                    == attached(
                    links(adj@),
                    v,
                    qi as int,
                    q@,
                    e,
                    more as nat,
                    match last {
                        Some(x) => Some(x as int),
                        None => None,
                    },
                    left as nat,
                ),
        decreases left,
    {
        match find_next(&d, None, last) {
            None => {
                return;
            },
            Some(j) => {
                let ghost m0 = more;
                assert(v[j as int] == nodes@[j as int]@);
                let ok = valid(q.as_slice(), nodes[j].as_slice());
                if ok {
                    add_link(adj, qi, j, d[j]);
                    more = more - 1;
                }
                proof {
                    assert forall|e: spec_fn(Seq<Scalar>, Seq<Scalar>) -> bool| #[trigger]
                        judges(*valid, e) implies attached(
                        start,
                        v,
                        qi as int,
                        q@,
                        e,
                        k as nat,
                        None,
                        n as nat,
                    ) == attached(
                        links(adj@),
                        v,
                        qi as int,
                        q@,
                        e,
                        more as nat,
                        Some(j as int),
                        (left - 1) as nat,
                    ) by {
                        assert(ok == e(q@, v[j as int]));
                    }
                }
                last = Some(j);
            },
        }
        left = left - 1;
    }
}

/// The nodes from `src` to `dst`, the last first, if they lead there.
fn walk_back(prev: &Vec<usize>, src: usize, dst: usize) -> (r: Option<Vec<usize>>)
    requires
        src < prev@.len(),
        dst < prev@.len(),
    ensures
        match r {
            Some(t) => {
                &&& trail(prev@, src as int, dst as int, prev@.len()) == Some(
                    Seq::new(t@.len(), |i: int| t@[t@.len() - 1 - i] as int),
                )
                &&& forall|i: int| 0 <= i < t@.len() ==> #[trigger] t@[i] < prev@.len()
            },
            None => trail(prev@, src as int, dst as int, prev@.len()) is None,
        },
{
    let n: usize = prev.len();
    let mut out: Vec<usize> = Vec::new();
    let mut at: usize = dst;
    let mut left: usize = n;
    let ghost tail = Seq::new(out@.len(), |i: int| out@[out@.len() - 1 - i] as int);
    assert(tail =~= Seq::empty());
    proof {
        let goal = trail(prev@, src as int, dst as int, n as nat);
        match goal {
            Some(t) => {
                assert(t + tail =~= t);
            },
            None => {},
        }
    }
    while at != src
        invariant
            at < n,
            left <= n,
            n == prev@.len(),
            forall|i: int| 0 <= i < out@.len() ==> #[trigger] out@[i] < n,
            trail(prev@, src as int, dst as int, n as nat) == (match trail(
                prev@,
                src as int,
                at as int,
                left as nat,
            ) {
                Some(t) => Some(
                    t + Seq::new(out@.len(), |i: int| out@[out@.len() - 1 - i] as int),
                ),
                None => None,
            }),
        decreases left,
    {
        if left == 0 || prev[at] >= n {
            return None;
        }
        let ghost before = out@;
        let ghost b = Seq::new(before.len(), |i: int| before[before.len() - 1 - i] as int);
        out.push(at);
        proof {
            let a = Seq::new(out@.len(), |i: int| out@[out@.len() - 1 - i] as int);
            match trail(prev@, src as int, prev@[at as int] as int, (left - 1) as nat) {
                Some(t) => {
                    assert(t.push(at as int) + b =~= t + a);
                },
                None => {},
            }
        }
        at = prev[at];
        left = left - 1;
    }
    let ghost before = out@;
    let ghost b = Seq::new(before.len(), |i: int| before[before.len() - 1 - i] as int);
    out.push(src);
    proof {
        let a = Seq::new(out@.len(), |i: int| out@[out@.len() - 1 - i] as int);
        assert(seq![src as int] + b =~= a);
    }
    Some(out)
}

impl Roadmap {
    #[verifier::type_invariant]
    spec fn sound(&self) -> bool {
        self.adj@.len() == self.nodes@.len() && closed_links(links(self.adj@))
    }

    pub closed spec fn places(&self) -> Seq<Seq<Scalar>> {
        rows_of(self.nodes@)
    }

    pub closed spec fn edges(&self) -> Seq<Seq<(usize, Scalar)>> {
        links(self.adj@)
    }

    /// Number of configurations.
    pub fn len(&self) -> (r: usize)
        ensures
            r == self.places().len(),
    {
        self.nodes.len()
    }

    /// The shortest path by the roadmap from `start` to `goal`, if it joins them.
    pub fn query<E: Fn(&[Scalar], &[Scalar]) -> bool>(
        &self,
        start: &Vec<Scalar>,
        goal: &Vec<Scalar>,
        k: usize,
        valid: &E,
    ) -> (r: Option<Vec<Vec<Scalar>>>)
        requires
            askable(*valid),
            self.places().len() + 2 <= usize::MAX,
        ensures
            forall|e: spec_fn(Seq<Scalar>, Seq<Scalar>) -> bool| #[trigger]
                judges(*valid, e) ==> match r {
                    Some(path) => answer(
                        self.edges(),
                        self.places(),
                        start@,
                        goal@,
                        k as nat,
                        e,
                    ) == Some(rows_of(path@)),
                    None => answer(
                        self.edges(),
                        self.places(),
                        start@,
                        goal@,
                        k as nat,
                        e,
                    ) is None,
                },
    {
        proof {
            use_type_invariant(self);
        }
        let n: usize = self.nodes.len();
        let ghost v = rows_of(self.nodes@);
        let mut adj = copy_links(&self.adj);
        let ghost a0 = links(adj@);
        adj.push(Vec::new());
        adj.push(Vec::new());
        proof {
            assert(links(adj@) =~= with_ends(a0));
            assert(closed_links(links(adj@))) by {
                let w = links(adj@);
                assert forall|i: int, m: int| 0 <= i < w.len() && 0 <= m < w[i].len() implies (
                #[trigger] w[i][m]).0 < w.len() by {
                    assert(w[i] == a0[i]);
                    assert(a0[i][m].0 < a0.len());
                }
            }
        }
        attach(&mut adj, &self.nodes, n, start, k, valid);
        attach(&mut adj, &self.nodes, n + 1, goal, k, valid);
        let direct = valid(start.as_slice(), goal.as_slice());
        if direct {
            add_link(&mut adj, n, n + 1, dist(start, goal));
        }
        let ghost full = links(adj@);
        proof {
            assert forall|e: spec_fn(Seq<Scalar>, Seq<Scalar>) -> bool| #[trigger]
                judges(*valid, e) implies full == queried(a0, v, start@, goal@, k as nat, e) by {
                assert(direct == e(start@, goal@));
            }
        }
        match dijkstra(&adj, n, n + 1) {
            None => None,
            Some(prev) => {
                let back = walk_back(&prev, n, n + 1);
                match back {
                    None => None,
                    Some(t) => {
                        let mut out: Vec<Vec<Scalar>> = Vec::new();
                        let mut i: usize = 0;
                        while i < t.len()
                            invariant
                                i <= t.len(),
                                n + 2 <= usize::MAX,
                                n == self.nodes@.len(),
                                v == rows_of(self.nodes@),
                                out.len() == i,
                                forall|m: int| 0 <= m < t@.len() ==> #[trigger] t@[m] < n + 2,
                                forall|m: int|
                                    0 <= m < i ==> (#[trigger] out@[m])@ == at_node(
                                        v,
                                        start@,
                                        goal@,
                                        t@[t@.len() - 1 - m] as int,
                                    ),
                            decreases t.len() - i,
                        {
                            let at = t[t.len() - 1 - i];
                            let q = if at == n {
                                copy_scalars(start.as_slice())
                            } else if at == n + 1 {
                                copy_scalars(goal.as_slice())
                            } else {
                                assert(v[at as int] == self.nodes@[at as int]@);
                                copy_scalars(self.nodes[at].as_slice())
                            };
                            out.push(q);
                            i = i + 1;
                        }
                        proof {
                            let tv = Seq::new(t@.len(), |i: int| t@[t@.len() - 1 - i] as int);
                            assert(rows_of(out@) =~= Seq::new(
                                tv.len(),
                                |i: int| at_node(v, start@, goal@, tv[i]),
                            ));
                        }
                        Some(out)
                    },
                }
            },
        }
    }
}

// ---- laws ----

pub proof fn lemma_trail(prev: Seq<usize>, src: int, at: int, left: nat)
    ensures
        trail(prev, src, at, left) matches Some(t) ==> t.len() > 0 && t[0] == src && t.last() == at
            && forall|c: int|
            0 <= c < t.len() - 1 ==> 0 <= #[trigger] t[c + 1] < prev.len() && prev[t[c + 1]]
                == t[c] && t[c] < prev.len(),
    decreases left,
{
    if at != src && left > 0 && 0 <= at < prev.len() && prev[at] < prev.len() {
        lemma_trail(prev, src, prev[at] as int, (left - 1) as nat);
        match trail(prev, src, prev[at] as int, (left - 1) as nat) {
            Some(t) => {
                let u = t.push(at);
                assert forall|c: int| 0 <= c < u.len() - 1 implies 0 <= #[trigger] u[c + 1]
                    < prev.len() && prev[u[c + 1]] == u[c] && u[c] < prev.len() by {
                    if c + 1 < t.len() {
                        assert(u[c + 1] == t[c + 1]);
                        assert(u[c] == t[c]);
                    } else {
                        assert(u[c] == t.last());
                    }
                }
            },
            None => {},
        }
    }
}

/// A path of a roadmap starts at the start and ends at the goal, exactly.
pub proof fn law_answer_connects_the_ends(
    adj: Seq<Seq<(usize, Scalar)>>,
    nodes: Seq<Seq<Scalar>>,
    start: Seq<Scalar>,
    goal: Seq<Scalar>,
    k: nat,
    e: spec_fn(Seq<Scalar>, Seq<Scalar>) -> bool,
)
    ensures
        answer(adj, nodes, start, goal, k, e) matches Some(path) ==> path.len() > 0 && path[0]
            == start && path.last() == goal,
{
    let n = nodes.len();
    match shortest(queried(adj, nodes, start, goal, k, e), n as int, n + 1int) {
        None => {},
        Some(prev) => {
            lemma_trail(prev, n as int, n + 1int, n + 2);
        },
    }
}

proof fn lemma_gathered(
    bounds: Seq<(Scalar, Scalar)>,
    s: u64,
    found: Seq<Seq<Scalar>>,
    wanted: nat,
    attempts: nat,
    p: spec_fn(Seq<Scalar>) -> bool,
    i: int,
)
    requires
        forall|j: int| 0 <= j < found.len() ==> p(#[trigger] found[j]),
        0 <= i < gathered(bounds, s, found, wanted, attempts, p).len(),
    ensures
        p(gathered(bounds, s, found, wanted, attempts, p)[i]),
    decreases attempts,
{
    if found.len() < wanted && attempts > 0 {
        let (q, t) = drawn(s, bounds, bounds.len());
        let next = if p(q) {
            found.push(q)
        } else {
            found
        };
        lemma_gathered(bounds, t, next, wanted, (attempts - 1) as nat, p, i);
    }
}

/// Every configuration of a roadmap is free.
pub proof fn law_milestones_are_free(
    bounds: Seq<(Scalar, Scalar)>,
    params: PrmParams,
    p: spec_fn(Seq<Scalar>) -> bool,
    i: int,
)
    requires
        0 <= i < milestones(bounds, params, p).len(),
    ensures
        p(milestones(bounds, params, p)[i]),
{
    lemma_gathered(
        bounds,
        params.seed,
        Seq::empty(),
        params.samples as nat,
        attempt_cap(params.samples),
        p,
        i,
    );
}

/// An edge that was accepted, in one direction or the other.
pub open spec fn accepted(
    a: Seq<Scalar>,
    b: Seq<Scalar>,
    e: spec_fn(Seq<Scalar>, Seq<Scalar>) -> bool,
) -> bool {
    e(a, b) || e(b, a)
}

/// Every edge was accepted, `f` giving the configuration of a node.
pub open spec fn all_accepted(
    adj: Seq<Seq<(usize, Scalar)>>,
    f: spec_fn(int) -> Seq<Scalar>,
    e: spec_fn(Seq<Scalar>, Seq<Scalar>) -> bool,
) -> bool {
    forall|i: int, k: int|
        0 <= i < adj.len() && 0 <= k < adj[i].len() ==> accepted(
            f(i),
            f((#[trigger] adj[i][k]).0 as int),
            e,
        )
}

proof fn lemma_next_nearest(d: Seq<Scalar>, skip: int, last: Option<int>, n: nat)
    ensures
        next_nearest(d, skip, last, n) matches Some(j) ==> 0 <= j < n && j != skip,
    decreases n,
{
    if n > 0 {
        lemma_next_nearest(d, skip, last, (n - 1) as nat);
    }
}

proof fn lemma_linked_accepted(
    adj: Seq<Seq<(usize, Scalar)>>,
    i: int,
    j: int,
    d: Scalar,
    f: spec_fn(int) -> Seq<Scalar>,
    e: spec_fn(Seq<Scalar>, Seq<Scalar>) -> bool,
)
    requires
        0 <= i < adj.len() <= usize::MAX,
        0 <= j < adj.len(),
        i != j,
        all_accepted(adj, f, e),
        accepted(f(i), f(j), e),
    ensures
        all_accepted(linked(adj, i, j, d), f, e),
{
    let r = linked(adj, i, j, d);
    assert forall|m: int, k: int| 0 <= m < r.len() && 0 <= k < r[m].len() implies accepted(
        f(m),
        f((#[trigger] r[m][k]).0 as int),
        e,
    ) by {
        if k < adj[m].len() {
            assert(r[m][k] == adj[m][k]);
            assert(accepted(f(m), f(adj[m][k].0 as int), e));
        }
    }
}

proof fn lemma_joined_near(
    adj: Seq<Seq<(usize, Scalar)>>,
    nodes: Seq<Seq<Scalar>>,
    i: int,
    e: spec_fn(Seq<Scalar>, Seq<Scalar>) -> bool,
    last: Option<int>,
    left: nat,
)
    requires
        adj.len() == nodes.len() <= usize::MAX,
        0 <= i < nodes.len(),
        all_accepted(adj, |x: int| nodes[x], e),
    ensures
        joined_near(adj, nodes, i, e, last, left).len() == nodes.len(),
        all_accepted(joined_near(adj, nodes, i, e, last, left), |x: int| nodes[x], e),
    decreases left,
{
    let d = distances(nodes, nodes[i]);
    if left > 0 {
        lemma_next_nearest(d, i, last, d.len());
        match next_nearest(d, i, last, d.len()) {
            None => {},
            Some(j) => {
                let next = if !has_link(adj[i], j) && e(nodes[i], nodes[j]) {
                    linked(adj, i, j, d[j])
                } else {
                    adj
                };
                if !has_link(adj[i], j) && e(nodes[i], nodes[j]) {
                    lemma_linked_accepted(adj, i, j, d[j], |x: int| nodes[x], e);
                }
                lemma_joined_near(next, nodes, i, e, Some(j), (left - 1) as nat);
            },
        }
    }
}

/// Every edge of a roadmap was accepted.
pub proof fn law_roadmap_edges_were_accepted(
    nodes: Seq<Seq<Scalar>>,
    k: nat,
    e: spec_fn(Seq<Scalar>, Seq<Scalar>) -> bool,
    n: nat,
)
    requires
        n <= nodes.len() <= usize::MAX,
    ensures
        joined_up_to(nodes, k, e, n).len() == nodes.len(),
        all_accepted(joined_up_to(nodes, k, e, n), |x: int| nodes[x], e),
    decreases n,
{
    if n > 0 {
        law_roadmap_edges_were_accepted(nodes, k, e, (n - 1) as nat);
        lemma_joined_near(
            joined_up_to(nodes, k, e, (n - 1) as nat),
            nodes,
            n - 1,
            e,
            None,
            k,
        );
    }
}

proof fn lemma_attached(
    adj: Seq<Seq<(usize, Scalar)>>,
    nodes: Seq<Seq<Scalar>>,
    qi: int,
    q: Seq<Scalar>,
    e: spec_fn(Seq<Scalar>, Seq<Scalar>) -> bool,
    more: nat,
    last: Option<int>,
    left: nat,
    f: spec_fn(int) -> Seq<Scalar>,
)
    requires
        adj.len() == nodes.len() + 2,
        adj.len() <= usize::MAX,
        nodes.len() <= qi < adj.len(),
        f(qi) == q,
        forall|x: int| 0 <= x < nodes.len() ==> #[trigger] f(x) == nodes[x],
        all_accepted(adj, f, e),
        closed_links(adj),
    ensures
        attached(adj, nodes, qi, q, e, more, last, left).len() == adj.len(),
        all_accepted(attached(adj, nodes, qi, q, e, more, last, left), f, e),
        closed_links(attached(adj, nodes, qi, q, e, more, last, left)),
    decreases left,
{
    let d = distances(nodes, q);
    if more > 0 && left > 0 {
        lemma_next_nearest(d, -1, last, d.len());
        match next_nearest(d, -1, last, d.len()) {
            None => {},
            Some(j) => {
                if e(q, nodes[j]) {
                    assert(f(j) == nodes[j]);
                    lemma_linked_accepted(adj, qi, j, d[j], f, e);
                    lemma_linked_closed(adj, qi, j, d[j]);
                    lemma_attached(
                        linked(adj, qi, j, d[j]),
                        nodes,
                        qi,
                        q,
                        e,
                        (more - 1) as nat,
                        Some(j),
                        (left - 1) as nat,
                        f,
                    );
                } else {
                    lemma_attached(adj, nodes, qi, q, e, more, Some(j), (left - 1) as nat, f);
                }
            },
        }
    }
}

proof fn lemma_queried(
    adj: Seq<Seq<(usize, Scalar)>>,
    nodes: Seq<Seq<Scalar>>,
    start: Seq<Scalar>,
    goal: Seq<Scalar>,
    k: nat,
    e: spec_fn(Seq<Scalar>, Seq<Scalar>) -> bool,
)
    requires
        adj.len() == nodes.len(),
        nodes.len() + 2 <= usize::MAX,
        closed_links(adj),
        all_accepted(adj, |x: int| nodes[x], e),
    ensures
        queried(adj, nodes, start, goal, k, e).len() == nodes.len() + 2,
        closed_links(queried(adj, nodes, start, goal, k, e)),
        all_accepted(
            queried(adj, nodes, start, goal, k, e),
            |x: int| at_node(nodes, start, goal, x),
            e,
        ),
{
    let n = nodes.len();
    let f = |x: int| at_node(nodes, start, goal, x);
    let g = |x: int| nodes[x];
    let w = with_ends(adj);
    assert(all_accepted(w, f, e)) by {
        assert forall|i: int, m: int| 0 <= i < w.len() && 0 <= m < w[i].len() implies accepted(
            f(i),
            f((#[trigger] w[i][m]).0 as int),
            e,
        ) by {
            assert(w[i] == adj[i]);
            assert(adj[i][m].0 < adj.len());
            assert(accepted(g(i), g(adj[i][m].0 as int), e));
        }
    }
    assert(closed_links(w)) by {
        assert forall|i: int, m: int| 0 <= i < w.len() && 0 <= m < w[i].len() implies (
        #[trigger] w[i][m]).0 < w.len() by {
            assert(w[i] == adj[i]);
            assert(adj[i][m].0 < adj.len());
        }
    }
    lemma_attached(w, nodes, n as int, start, e, k, None, n, f);
    let a = attached(w, nodes, n as int, start, e, k, None, n);
    lemma_attached(a, nodes, n + 1int, goal, e, k, None, n, f);
    let b = attached(a, nodes, n + 1int, goal, e, k, None, n);
    if e(start, goal) {
        lemma_linked_accepted(b, n as int, n + 1int, distance(start, goal), f, e);
        lemma_linked_closed(b, n as int, n + 1int, distance(start, goal));
    }
}

/// The node before a node is one with an edge to it.
spec fn led_by_edges(adj: Seq<Seq<(usize, Scalar)>>, s: SearchV) -> bool {
    &&& s.d.len() == adj.len()
    &&& s.prev.len() == adj.len()
    &&& s.done.len() == adj.len()
    &&& forall|w: int|
        0 <= w < adj.len() && (#[trigger] s.prev[w]) < adj.len() ==> has_link(
            adj[s.prev[w] as int],
            w,
        )
}

proof fn lemma_relaxed(adj: Seq<Seq<(usize, Scalar)>>, s: SearchV, u: int, n: nat)
    requires
        adj.len() <= usize::MAX,
        0 <= u < adj.len(),
        n <= adj[u].len(),
        closed_links(adj),
        led_by_edges(adj, s),
    ensures
        led_by_edges(adj, relaxed(s, adj[u], u, n)),
    decreases n,
{
    if n > 0 {
        lemma_relaxed(adj, s, u, (n - 1) as nat);
        let t = relaxed(s, adj[u], u, (n - 1) as nat);
        let (w, cost) = adj[u][n - 1];
        assert(adj[u][n - 1].0 < adj.len());
        let r = relaxed(s, adj[u], u, n);
        assert forall|x: int| 0 <= x < adj.len() && (#[trigger] r.prev[x]) < adj.len() implies
            has_link(adj[r.prev[x] as int], x) by {
            if r.prev[x] == t.prev[x] {
                assert(has_link(adj[t.prev[x] as int], x));
            } else {
                assert(x == w);
                assert(adj[u][n - 1].0 == x);
            }
        }
    }
}

proof fn lemma_frontier(s: SearchV, n: nat)
    ensures
        frontier(s, n).0 matches Some(u) ==> 0 <= u < n,
    decreases n,
{
    if n > 0 {
        lemma_frontier(s, (n - 1) as nat);
    }
}

proof fn lemma_explored(adj: Seq<Seq<(usize, Scalar)>>, s: SearchV, dst: int, n: nat)
    requires
        adj.len() <= usize::MAX,
        closed_links(adj),
        led_by_edges(adj, s),
    ensures
        led_by_edges(adj, explored(adj, s, dst, n)),
    decreases n,
{
    lemma_frontier(s, s.d.len());
    match frontier(s, s.d.len()).0 {
        None => {},
        Some(u) => {
            if u != dst && n > 0 {
                let t = SearchV { done: s.done.update(u, true), ..s };
                lemma_relaxed(adj, t, u, adj[u].len());
                lemma_explored(adj, relaxed(t, adj[u], u, adj[u].len()), dst, (n - 1) as nat);
            }
        },
    }
}

/// Every edge of a path of a roadmap was accepted.
pub proof fn law_answer_edges_were_accepted(
    adj: Seq<Seq<(usize, Scalar)>>,
    nodes: Seq<Seq<Scalar>>,
    start: Seq<Scalar>,
    goal: Seq<Scalar>,
    k: nat,
    e: spec_fn(Seq<Scalar>, Seq<Scalar>) -> bool,
    c: int,
)
    requires
        adj.len() == nodes.len(),
        nodes.len() + 2 <= usize::MAX,
        closed_links(adj),
        all_accepted(adj, |x: int| nodes[x], e),
        answer(adj, nodes, start, goal, k, e) matches Some(path) && 0 <= c < path.len() - 1,
    ensures
        answer(adj, nodes, start, goal, k, e) matches Some(path) && accepted(
            path[c],
            path[c + 1],
            e,
        ),
{
    let n = nodes.len();
    let full = queried(adj, nodes, start, goal, k, e);
    let f = |x: int| at_node(nodes, start, goal, x);
    lemma_queried(adj, nodes, start, goal, k, e);
    lemma_explored(full, search_from(full.len(), n as int), n + 1int, full.len());
    let s = explored(full, search_from(full.len(), n as int), n + 1int, full.len());
    lemma_trail(s.prev, n as int, n + 1int, n + 2);
    match trail(s.prev, n as int, n + 1int, n + 2) {
        Some(t) => {
            let w = t[c + 1];
            let u = t[c];
            assert(s.prev[w] == u);
            assert(has_link(full[u], w));
            let m = choose|m: int| 0 <= m < full[u].len() && (#[trigger] full[u][m]).0 == w;
            assert(accepted(f(u), f(full[u][m].0 as int), e));
        },
        None => {},
    }
}

/// Roadmaps of the same parameters, the seed among them, and the same judges are the same.
pub proof fn law_same_seed_same_roadmap<
    F: Fn(&[Scalar]) -> bool,
    E: Fn(&[Scalar], &[Scalar]) -> bool,
>(
    bounds: Seq<(Scalar, Scalar)>,
    params: PrmParams,
    free: F,
    valid: E,
    p: spec_fn(Seq<Scalar>) -> bool,
    e: spec_fn(Seq<Scalar>, Seq<Scalar>) -> bool,
    ra: Roadmap,
    rb: Roadmap,
)
    requires
        decides(free, p),
        judges(valid, e),
        surveyed(bounds, params, free, valid, ra),
        surveyed(bounds, params, free, valid, rb),
    ensures
        ra.places() == rb.places(),
        ra.edges() == rb.edges(),
{
}

} // verus!
