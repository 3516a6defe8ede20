//! Shortcuts: parts of a path are replaced by straight edges where those are valid.

use vstd::prelude::*;

#[allow(unused_imports)]
use crate::motion::trajectory::rows_of;
use crate::planning::geometry::dist;
#[allow(unused_imports)]
use crate::planning::geometry::distance;
use crate::planning::rng::Rng;
#[allow(unused_imports)]
use crate::planning::rng::{advanced, unit_of};
use crate::scalar::consts::{MINUS_ZERO_BITS, ONE_BITS};
#[allow(unused_imports)]
use crate::scalar::convert::{floor_int, from_int, saturated};
#[allow(unused_imports)]
use crate::scalar::number::{fadd, fle, fmul};
#[allow(unused_imports)]
use crate::scalar::order::law_sums_keep_order;
use crate::scalar::Scalar;

verus! {

/// Length of the first `k` edges.
pub open spec fn length_of(path: Seq<Seq<Scalar>>, k: nat) -> Scalar
    decreases k,
{
    if k == 0 {
        Scalar { bits: MINUS_ZERO_BITS }
    } else {
        fadd(length_of(path, (k - 1) as nat), distance(path[k - 1], path[k as int]))
    }
}

/// Length of a path.
pub fn path_length(path: &Vec<Vec<Scalar>>) -> (r: Scalar)
    ensures
        r == length_of(
            rows_of(path@),
            if path@.len() == 0 {
                0
            } else {
                (path@.len() - 1) as nat
            },
        ),
{
    let ghost v = rows_of(path@);
    let mut s = Scalar { bits: MINUS_ZERO_BITS };
    let mut i: usize = 0;
    if path.len() == 0 {
        return s;
    }
    while i < path.len() - 1
        invariant
            i <= path.len() - 1,
            path.len() > 0,
            v == rows_of(path@),
            s == length_of(v, i as nat),
        decreases path.len() - i,
    {
        assert(v[i as int] == path@[i as int]@ && v[i + 1] == path@[i + 1]@);
        s = s.add(dist(&path[i], &path[i + 1]));
        i = i + 1;
    }
    s
}

/// A judge of edges that is handed in behaves as `e`.
pub open spec fn judges<E: Fn(&[Scalar], &[Scalar]) -> bool>(
    f: E,
    e: spec_fn(Seq<Scalar>, Seq<Scalar>) -> bool,
) -> bool {
    forall|a: &[Scalar], b: &[Scalar], r: bool| call_ensures(f, (a, b), r) ==> r == e(a@, b@)
}

/// A judge of edges can be asked anything.
pub open spec fn askable<E: Fn(&[Scalar], &[Scalar]) -> bool>(f: E) -> bool {
    forall|a: &[Scalar], b: &[Scalar]| call_requires(f, (a, b))
}

/// A whole number below `n`, drawn.
pub open spec fn pick(u: Scalar, n: Scalar) -> int {
    let x = fmul(u, n);
    saturated(x, floor_int(x), 0, usize::MAX as int)
}

/// The ends of a shortcut in a path of `n` nodes: at least one node lies between.
pub open spec fn ends(s: u64, n: int) -> (int, int) {
    let i0 = pick(unit_of(advanced(s)), from_int(n - 2));
    let i = if i0 > n - 3 {
        n - 3
    } else {
        i0
    };
    let j = i + 2 + pick(
        unit_of(advanced(advanced(s))),
        fadd(from_int(n - 2 - i), Scalar { bits: ONE_BITS }),
    );
    (
        i,
        if j > n - 1 {
            n - 1
        } else {
            j
        },
    )
}

/// A path without the nodes between `i` and `j`.
pub open spec fn cut(path: Seq<Seq<Scalar>>, i: int, j: int) -> Seq<Seq<Scalar>> {
    path.take(i + 1) + path.skip(j)
}

/// A path after `k` rounds of shortcuts.
pub open spec fn smoothed(
    path: Seq<Seq<Scalar>>,
    s: u64,
    e: spec_fn(Seq<Scalar>, Seq<Scalar>) -> bool,
    k: nat,
) -> Seq<Seq<Scalar>>
    decreases k,
{
    if k == 0 || path.len() <= 2 {
        path
    } else {
        let (i, j) = ends(s, path.len() as int);
        smoothed(
            if e(path[i], path[j]) {
                cut(path, i, j)
            } else {
                path
            },
            advanced(advanced(s)),
            e,
            (k - 1) as nat,
        )
    }
}

fn pick_below(u: Scalar, n: Scalar) -> (r: usize)
    ensures
        r == pick(u, n),
{
    u.mul(n).floor_usize()
}

fn pick_ends(rng: &mut Rng, n: usize) -> (r: (usize, usize))
    requires
        n > 2,
    ensures
        final(rng).state == advanced(advanced(old(rng).state)),
        (r.0 as int, r.1 as int) == ends(old(rng).state, n as int),
        r.0 + 2 <= r.1 < n,
{
    let u = rng.unit();
    let i0 = pick_below(u, Scalar::from_usize(n - 2));
    let i: usize = if i0 > n - 3 {
        n - 3
    } else {
        i0
    };
    let v = rng.unit();
    let x = pick_below(v, Scalar::from_usize(n - 2 - i).add(Scalar { bits: ONE_BITS }));
    let j: usize = if x > n - 3 - i {
        n - 1
    } else {
        i + 2 + x
    };
    (i, j)
}

/// Removes the nodes between `i` and `j`.
fn cut_nodes(path: Vec<Vec<Scalar>>, i: usize, j: usize) -> (r: Vec<Vec<Scalar>>)
    requires
        i < j < path@.len(),
    ensures
        rows_of(r@) == cut(rows_of(path@), i as int, j as int),
        r@.len() == i + 1 + path@.len() - j,
{
    let ghost v = path@;
    let mut rest = path;
    let mut tail = rest.split_off(j);
    let mut middle = rest.split_off(i + 1);
    rest.append(&mut tail);
    assert(rest@ =~= v.take(i + 1) + v.skip(j as int));
    assert(rows_of(rest@) =~= cut(rows_of(v), i as int, j as int));
    rest
}

/// Tries `iters` random shortcuts. The ends stay, and every new edge is one that
/// `valid_edge` accepted.
pub fn shortcut_smooth<E: Fn(&[Scalar], &[Scalar]) -> bool>(
    path: Vec<Vec<Scalar>>,
    iters: usize,
    seed: u64,
    valid_edge: &E,
) -> (r: Vec<Vec<Scalar>>)
    requires
        askable(*valid_edge),
    ensures
        forall|e: spec_fn(Seq<Scalar>, Seq<Scalar>) -> bool| #[trigger]
            judges(*valid_edge, e) ==> rows_of(r@) == smoothed(
                rows_of(path@),
                seed,
                e,
                iters as nat,
            ),
{
    let ghost start = rows_of(path@);
    let mut path = path;
    let mut rng = Rng::new(seed);
    let mut k: usize = 0;
    while k < iters && path.len() > 2
        invariant
            k <= iters,
            askable(*valid_edge),
            forall|e: spec_fn(Seq<Scalar>, Seq<Scalar>) -> bool| #[trigger]
                judges(*valid_edge, e) ==> smoothed(start, seed, e, iters as nat) == smoothed(
                    rows_of(path@),
                    rng.state,
                    e,
                    (iters - k) as nat,
                ),
        decreases iters - k,
    {
        let n: usize = path.len();
        let ghost before = rows_of(path@);
        let ghost s0 = rng.state;
        let (i, j) = pick_ends(&mut rng, n);
        let ok = valid_edge(path[i].as_slice(), path[j].as_slice());
        if ok {
            path = cut_nodes(path, i, j);
        }
        proof {
            assert forall|e: spec_fn(Seq<Scalar>, Seq<Scalar>) -> bool| #[trigger]
                judges(*valid_edge, e) implies smoothed(start, seed, e, iters as nat) == smoothed(
                rows_of(path@),
                rng.state,
                e,
                (iters - k - 1) as nat,
            ) by {
                assert(smoothed(start, seed, e, iters as nat) == smoothed(
                    before,
                    s0,
                    e,
                    (iters - k) as nat,
                ));
                assert(ok == e(before[i as int], before[j as int]));
            }
        }
        k = k + 1;
    }
    path
}

// ---- laws ----

proof fn lemma_ends(s: u64, n: int)
    requires
        n > 2,
    ensures
        0 <= ends(s, n).0,
        ends(s, n).0 + 2 <= ends(s, n).1 < n,
{
}

/// Smoothing keeps the ends of a path and never adds a node.
pub proof fn law_smoothing_keeps_ends(
    path: Seq<Seq<Scalar>>,
    s: u64,
    e: spec_fn(Seq<Scalar>, Seq<Scalar>) -> bool,
    k: nat,
)
    requires
        path.len() > 0,
    ensures
        smoothed(path, s, e, k).len() > 0,
        smoothed(path, s, e, k).len() <= path.len(),
        smoothed(path, s, e, k)[0] == path[0],
        smoothed(path, s, e, k).last() == path.last(),
    decreases k,
{
    if k > 0 && path.len() > 2 {
        lemma_ends(s, path.len() as int);
        let (i, j) = ends(s, path.len() as int);
        let next = if e(path[i], path[j]) {
            cut(path, i, j)
        } else {
            path
        };
        law_smoothing_keeps_ends(next, advanced(advanced(s)), e, (k - 1) as nat);
    }
}

/// An edge of a path.
pub open spec fn has_edge(path: Seq<Seq<Scalar>>, a: Seq<Scalar>, b: Seq<Scalar>) -> bool {
    exists|k: int| 0 <= k < path.len() - 1 && (#[trigger] path[k]) == a && path[k + 1] == b
}

/// Every edge of a smoothed path was an edge before, or was accepted.
pub proof fn law_smoothed_edges_are_valid(
    path: Seq<Seq<Scalar>>,
    s: u64,
    e: spec_fn(Seq<Scalar>, Seq<Scalar>) -> bool,
    k: nat,
    c: int,
)
    requires
        0 <= c < smoothed(path, s, e, k).len() - 1,
    ensures
        ({
            let r = smoothed(path, s, e, k);
            has_edge(path, r[c], r[c + 1]) || e(r[c], r[c + 1])
        }),
    decreases k,
{
    let r = smoothed(path, s, e, k);
    if k == 0 || path.len() <= 2 {
        assert(path[c] == r[c]);
    } else {
        lemma_ends(s, path.len() as int);
        let (i, j) = ends(s, path.len() as int);
        let next = if e(path[i], path[j]) {
            cut(path, i, j)
        } else {
            path
        };
        law_smoothed_edges_are_valid(next, advanced(advanced(s)), e, (k - 1) as nat, c);
        if has_edge(next, r[c], r[c + 1]) && !e(r[c], r[c + 1]) {
            let m = choose|m: int|
                0 <= m < next.len() - 1 && (#[trigger] next[m]) == r[c] && next[m + 1] == r[c + 1];
            if e(path[i], path[j]) {
                if m < i {
                    assert(next[m] == path[m]);
                    assert(next[m + 1] == path[m + 1]);
                } else if m > i {
                    let x = m - (i + 1) + j;
                    assert(next[m] == path[x]);
                    assert(next[m + 1] == path[x + 1]);
                } else {
                    assert(next[m] == path[i]);
                    assert(next[m + 1] == path[j]);
                }
            }
        }
    }
}

/// A shortcut from node `i` to node `j` is no longer than the way along the path, as
/// running sums from the start of the path have it.
pub open spec fn shortens(path: Seq<Seq<Scalar>>, i: int, j: int) -> bool {
    fle(
        fadd(length_of(path, i as nat), distance(path[i], path[j])),
        length_of(path, j as nat),
    )
}

/// Every shortcut that is taken in `k` rounds is no longer than what it replaces.
pub open spec fn cuts_shorten(
    path: Seq<Seq<Scalar>>,
    s: u64,
    e: spec_fn(Seq<Scalar>, Seq<Scalar>) -> bool,
    k: nat,
) -> bool
    decreases k,
{
    k == 0 || path.len() <= 2 || {
        let (i, j) = ends(s, path.len() as int);
        &&& e(path[i], path[j]) ==> shortens(path, i, j)
        &&& cuts_shorten(
            if e(path[i], path[j]) {
                cut(path, i, j)
            } else {
                path
            },
            advanced(advanced(s)),
            e,
            (k - 1) as nat,
        )
    }
}

/// The length of a whole path.
pub open spec fn whole_length(path: Seq<Seq<Scalar>>) -> Scalar {
    length_of(
        path,
        if path.len() == 0 {
            0
        } else {
            (path.len() - 1) as nat
        },
    )
}

proof fn lemma_length_prefix(a: Seq<Seq<Scalar>>, b: Seq<Seq<Scalar>>, k: nat)
    requires
        k < a.len(),
        k < b.len(),
        forall|m: int| 0 <= m <= k ==> a[m] == b[m],
    ensures
        length_of(a, k) == length_of(b, k),
    decreases k,
{
    if k > 0 {
        lemma_length_prefix(a, b, (k - 1) as nat);
        assert(a[k as int] == b[k as int] && a[k - 1] == b[k - 1]);
    }
}

/// The lengths of two paths that go on alike.
proof fn lemma_length_suffix(
    a: Seq<Seq<Scalar>>,
    at: nat,
    b: Seq<Seq<Scalar>>,
    from: nat,
    n: nat,
)
    requires
        at + n < a.len(),
        from + n < b.len(),
        forall|m: int| at <= m <= at + n ==> #[trigger] a[m] == b[m - at + from],
        fle(length_of(a, at), length_of(b, from)),
        !length_of(b, from + n).nan(),
        !length_of(a, at + n).nan(),
    ensures
        fle(length_of(a, at + n), length_of(b, from + n)),
    decreases n,
{
    if n > 0 {
        let m = (n - 1) as nat;
        assert(a[(at + m) as int] == b[(from + m) as int] && a[(at + n) as int] == b[(from + n) as int]);
        assert(length_of(a, at + n) == fadd(
            length_of(a, at + m),
            distance(a[(at + m) as int], a[(at + n) as int]),
        ));
        assert(length_of(b, from + n) == fadd(
            length_of(b, from + m),
            distance(b[(from + m) as int], b[(from + n) as int]),
        ));
        assert(!length_of(a, at + m).nan() && !length_of(b, from + m).nan()) by {
            reveal(fadd);
        }
        lemma_length_suffix(a, at, b, from, m);
        law_sums_keep_order(
            length_of(a, at + m),
            length_of(b, from + m),
            distance(a[(at + m) as int], a[(at + n) as int]),
        );
    }
}

/// Smoothing does not lengthen a path. Left out are a length that is no number, before or
/// after, and shortcuts that only rounding makes longer than the way they replace.
pub proof fn law_smoothing_does_not_lengthen(
    path: Seq<Seq<Scalar>>,
    s: u64,
    e: spec_fn(Seq<Scalar>, Seq<Scalar>) -> bool,
    k: nat,
)
    requires
        path.len() > 0,
        cuts_shorten(path, s, e, k),
        lengths_are_numbers(path, s, e, k),
    ensures
        fle(whole_length(smoothed(path, s, e, k)), whole_length(path)),
    decreases k,
{
    if k > 0 && path.len() > 2 {
        lemma_ends(s, path.len() as int);
        let (i, j) = ends(s, path.len() as int);
        let t = advanced(advanced(s));
        if e(path[i], path[j]) {
            let next = cut(path, i, j);
            law_smoothing_does_not_lengthen(next, t, e, (k - 1) as nat);
            assert forall|m: int| 0 <= m <= i implies next[m] == path[m] by {}
            lemma_length_prefix(next, path, i as nat);
            assert(next[i + 1] == path[j]);
            assert(length_of(next, (i + 1) as nat) == fadd(
                length_of(path, i as nat),
                distance(path[i], path[j]),
            ));
            let n = (path.len() - 1 - j) as nat;
            assert(next.len() == i + 2 + n);
            assert forall|m: int| i + 1 <= m <= i + 1 + n implies #[trigger] next[m] == path[m - (i
                + 1) + j] by {}
            lemma_length_suffix(next, (i + 1) as nat, path, j as nat, n);
        } else {
            law_smoothing_does_not_lengthen(path, t, e, (k - 1) as nat);
        }
    }
}

/// The path and all that it is smoothed to on the way have numbers for lengths.
pub open spec fn lengths_are_numbers(
    path: Seq<Seq<Scalar>>,
    s: u64,
    e: spec_fn(Seq<Scalar>, Seq<Scalar>) -> bool,
    k: nat,
) -> bool
    decreases k,
{
    !whole_length(path).nan() && (k == 0 || path.len() <= 2 || {
        let (i, j) = ends(s, path.len() as int);
        lengths_are_numbers(
            if e(path[i], path[j]) {
                cut(path, i, j)
            } else {
                path
            },
            advanced(advanced(s)),
            e,
            (k - 1) as nat,
        )
    })
}

/// What holds of every node of a path holds of every node of the smoothed path.
pub proof fn law_smoothing_adds_no_node(
    path: Seq<Seq<Scalar>>,
    s: u64,
    e: spec_fn(Seq<Scalar>, Seq<Scalar>) -> bool,
    k: nat,
    good: spec_fn(Seq<Scalar>) -> bool,
)
    requires
        forall|c: int| 0 <= c < path.len() ==> good(#[trigger] path[c]),
    ensures
        forall|c: int|
            0 <= c < smoothed(path, s, e, k).len() ==> good(#[trigger] smoothed(path, s, e, k)[c]),
    decreases k,
{
    if k > 0 && path.len() > 2 {
        lemma_ends(s, path.len() as int);
        let (i, j) = ends(s, path.len() as int);
        let next = if e(path[i], path[j]) {
            cut(path, i, j)
        } else {
            path
        };
        assert forall|c: int| 0 <= c < next.len() implies good(#[trigger] next[c]) by {
            if e(path[i], path[j]) {
                if c <= i {
                    assert(next[c] == path[c]);
                } else {
                    assert(next[c] == path[j + c - i - 1]);
                }
            }
        }
        let t = advanced(advanced(s));
        law_smoothing_adds_no_node(next, t, e, (k - 1) as nat, good);
        assert(smoothed(path, s, e, k) == smoothed(next, t, e, (k - 1) as nat));
    }
}

} // verus!
