//! What the statistics of an episode say of its frames.

use vstd::prelude::*;

#[allow(unused_imports)]
use crate::hal::recorder::{greatest, least, mean_part, share, stats_of, variance_part};
#[allow(unused_imports)]
use crate::scalar::convert::from_int;
#[allow(unused_imports)]
use crate::scalar::formula::{off_by, on_scale};
#[allow(unused_imports)]
use crate::scalar::near::{
    close, law_product_is_off_by_a_step, law_quotient_is_off_by_a_step, law_root_is_near, size, unit,
};
#[allow(unused_imports)]
use crate::scalar::number::{fdiv, fle, fmul, fsub, mag_units};
#[allow(unused_imports)]
use crate::scalar::order::{gap, law_sum_is_near};
#[allow(unused_imports)]
use crate::scalar::rounding::INF_MAG;
#[allow(unused_imports)]
use crate::scalar::Scalar;

verus! {

proof fn lemma_extremes(rows: Seq<Seq<Scalar>>, j: int, n: nat) -> (at: (int, int))
    requires
        forall|k: int| 0 <= k < n ==> (#[trigger] rows[k])[j].finite(),
    ensures
        !least(rows, j, n).nan() && !greatest(rows, j, n).nan(),
        forall|k: int|
            0 <= k < n ==> fle(least(rows, j, n), #[trigger] rows[k][j]) && fle(
                rows[k][j],
                greatest(rows, j, n),
            ),
        n > 0 ==> 0 <= at.0 < n && least(rows, j, n) == rows[at.0][j],
        n > 0 ==> 0 <= at.1 < n && greatest(rows, j, n) == rows[at.1][j],
    decreases n,
{
    if n == 0 {
        (0, 0)
    } else {
        let before = lemma_extremes(rows, j, (n - 1) as nat);
        let x = rows[n - 1][j];
        assert(rows[n - 1][j].finite());
        assert(least(rows, j, 0).infinite() && greatest(rows, j, 0).infinite());
        (
            if least(rows, j, n) == x {
                n - 1
            } else {
                before.0
            },
            if greatest(rows, j, n) == x {
                n - 1
            } else {
                before.1
            },
        )
    }
}

/// The least and the greatest of a column are among its numbers, and none is beyond them.
pub proof fn law_extremes_bound_the_column(rows: Seq<Seq<Scalar>>, width: nat, j: int) -> (at: (int, int))
    requires
        0 <= j < width,
        rows.len() > 0,
        forall|k: int| 0 <= k < rows.len() ==> (#[trigger] rows[k])[j].finite(),
    ensures
        ({
            let s = stats_of(rows, width);
            &&& forall|k: int|
                0 <= k < rows.len() ==> fle(s.min[j], #[trigger] rows[k][j]) && fle(
                    rows[k][j],
                    s.max[j],
                )
            &&& 0 <= at.0 < rows.len() && s.min[j] == rows[at.0][j]
            &&& 0 <= at.1 < rows.len() && s.max[j] == rows[at.1][j]
            &&& s.count == rows.len()
        }),
{
    lemma_extremes(rows, j, rows.len())
}

/// The exact sum of a column.
pub open spec fn exact_sum(rows: Seq<Seq<Scalar>>, j: int, k: nat) -> int
    decreases k,
{
    if k == 0 {
        0
    } else {
        exact_sum(rows, j, (k - 1) as nat) + rows[k - 1][j].units()
    }
}

/// How coarse the numbers are that a mean runs through.
pub open spec fn mean_steps(rows: Seq<Seq<Scalar>>, j: int, n: Scalar, k: nat) -> int
    decreases k,
{
    if k == 0 {
        0
    } else {
        mean_steps(rows, j, n, (k - 1) as nat) + gap(mean_part(rows, j, n, k).mag()) + gap(
            fdiv(rows[k - 1][j], n).mag(),
        )
    }
}

proof fn lemma_mean(rows: Seq<Seq<Scalar>>, j: int, n: Scalar, k: nat)
    requires
        n.finite() && n.mag() > 0 && !n.negative(),
        forall|i: int|
            0 <= i < k ==> (#[trigger] rows[i])[j].finite() && fdiv(rows[i][j], n).mag() + 1 < INF_MAG,
        forall|i: nat| i <= k ==> (#[trigger] mean_part(rows, j, n, i)).finite(),
    ensures
        off_by(
            mean_part(rows, j, n, k).units() * size(n),
            exact_sum(rows, j, k) * unit(),
            mean_steps(rows, j, n, k) * size(n),
        ),
    decreases k,
{
    let w = size(n);
    assert(mag_units(0) == 0);
    if k == 0 {
        assert(0 * w == 0 && 0 * unit() == 0);
    } else {
        let m = (k - 1) as nat;
        assert(forall|i: nat| i <= m ==> (#[trigger] mean_part(rows, j, n, i)).finite());
        lemma_mean(rows, j, n, m);
        let x = rows[k - 1][j];
        assert(x.finite());
        let q = fdiv(x, n);
        law_quotient_is_off_by_a_step(x, n);
        assert(mean_part(rows, j, n, m).finite() && mean_part(rows, j, n, k).finite());
        let (a, r) = (mean_part(rows, j, n, m), mean_part(rows, j, n, k));
        law_sum_is_near(a, q);
        let (ru, au, qu, gr, gq) = (r.units(), a.units(), q.units(), gap(r.mag()), gap(q.mag()));
        assert(-(gr * w) <= ru * w - (au * w + qu * w) <= gr * w) by (nonlinear_arith)
            requires
                -gr < ru - (au + qu) < gr,
                w >= 0,
        ;
        let (e, s) = (exact_sum(rows, j, m), mean_steps(rows, j, n, m));
        assert((e + x.units()) * unit() == e * unit() + x.units() * unit() && (s + gr + gq) * w == s * w
            + gr * w + gq * w) by (nonlinear_arith);
    }
}

/// The mean of a column, times how many there are, is their exact sum, up to the steps between
/// the numbers on the way.
pub proof fn law_mean_is_the_sum_shared_out(rows: Seq<Seq<Scalar>>, width: nat, j: int)
    requires
        0 <= j < width,
        rows.len() > 0,
        share(rows).finite() && share(rows).mag() > 0,
        forall|i: int|
            0 <= i < rows.len() ==> (#[trigger] rows[i])[j].finite() && fdiv(rows[i][j], share(rows)).mag()
                + 1 < INF_MAG,
        forall|i: nat|
            i <= rows.len() ==> (#[trigger] mean_part(rows, j, share(rows), i)).finite(),
    ensures
        off_by(
            stats_of(rows, width).mean[j].units() * size(from_int(rows.len() as int)),
            exact_sum(rows, j, rows.len()) * unit(),
            mean_steps(rows, j, from_int(rows.len() as int), rows.len()) * size(
                from_int(rows.len() as int),
            ),
        ),
{
    let n = share(rows);
    assert(n == from_int(rows.len() as int));
    assert(!n.negative());
    lemma_mean(rows, j, n, rows.len());
}

/// The exact sum of the squares of how far the numbers of a column are off its mean.
pub open spec fn exact_spread(rows: Seq<Seq<Scalar>>, j: int, mean: Scalar, k: nat) -> int
    decreases k,
{
    if k == 0 {
        0
    } else {
        let d = fsub(rows[k - 1][j], mean).units();
        exact_spread(rows, j, mean, (k - 1) as nat) + d * d
    }
}

/// How coarse the numbers are that a variance runs through.
pub open spec fn spread_steps(rows: Seq<Seq<Scalar>>, j: int, mean: Scalar, n: Scalar, k: nat) -> int
    decreases k,
{
    if k == 0 {
        0
    } else {
        let d = fsub(rows[k - 1][j], mean);
        spread_steps(rows, j, mean, n, (k - 1) as nat) + (gap(
            variance_part(rows, j, mean, n, k).mag(),
        ) + gap(fdiv(fmul(d, d), n).mag())) * size(n) + gap(fmul(d, d).mag()) * unit()
    }
}

proof fn lemma_spread(rows: Seq<Seq<Scalar>>, j: int, mean: Scalar, n: Scalar, k: nat)
    requires
        n.finite() && n.mag() > 0 && !n.negative(),
        forall|i: int|
            0 <= i < k ==> ({
                let d = fsub((#[trigger] rows[i])[j], mean);
                on_scale(d, d) && fdiv(fmul(d, d), n).mag() + 1 < INF_MAG
            }),
        forall|i: nat| i <= k ==> (#[trigger] variance_part(rows, j, mean, n, i)).finite(),
    ensures
        off_by(
            variance_part(rows, j, mean, n, k).units() * size(n),
            exact_spread(rows, j, mean, k),
            spread_steps(rows, j, mean, n, k),
        ),
    decreases k,
{
    let w = size(n);
    assert(mag_units(0) == 0);
    if k == 0 {
        assert(0 * w == 0);
    } else {
        let m = (k - 1) as nat;
        assert(forall|i: nat| i <= m ==> (#[trigger] variance_part(rows, j, mean, n, i)).finite());
        lemma_spread(rows, j, mean, n, m);
        assert(rows[k - 1] == rows[k - 1]);
        let d = fsub(rows[k - 1][j], mean);
        let p = fmul(d, d);
        let q = fdiv(p, n);
        law_product_is_off_by_a_step(d, d);
        law_quotient_is_off_by_a_step(p, n);
        assert(variance_part(rows, j, mean, n, m).finite() && variance_part(rows, j, mean, n, k).finite());
        let (a, r) = (variance_part(rows, j, mean, n, m), variance_part(rows, j, mean, n, k));
        law_sum_is_near(a, q);
        let (ru, au, qu, gr, gq) = (r.units(), a.units(), q.units(), gap(r.mag()), gap(q.mag()));
        assert(-(gr * w) <= ru * w - (au * w + qu * w) <= gr * w) by (nonlinear_arith)
            requires
                -gr < ru - (au + qu) < gr,
                w >= 0,
        ;
        assert((gr + gq) * w == gr * w + gq * w) by (nonlinear_arith);
    }
}

/// The square of the deviation of a column, times how many numbers there are, is the exact sum
/// of the squares of how far they are off the mean: the root up to rounding, what is under it
/// up to the steps between the numbers on the way.
pub proof fn law_deviation_measures_the_spread(rows: Seq<Seq<Scalar>>, width: nat, j: int) -> (v: Scalar)
    requires
        0 <= j < width,
        rows.len() > 0,
        share(rows).finite() && share(rows).mag() > 0,
        forall|i: int|
            0 <= i < rows.len() ==> ({
                let d = fsub((#[trigger] rows[i])[j], stats_of(rows, width).mean[j]);
                on_scale(d, d) && fdiv(fmul(d, d), share(rows)).mag() + 1 < INF_MAG
            }),
        forall|i: nat|
            i <= rows.len() ==> (#[trigger] variance_part(
                rows,
                j,
                stats_of(rows, width).mean[j],
                share(rows),
                i,
            )).finite(),
    ensures
        ({
            let s = stats_of(rows, width);
            let n = from_int(rows.len() as int);
            &&& off_by(
                v.units() * size(n),
                exact_spread(rows, j, s.mean[j], rows.len()),
                spread_steps(rows, j, s.mean[j], n, rows.len()),
            )
            &&& v.mag() > 0 && !v.negative() ==> close(
                size(v) * unit(),
                size(s.std[j]) * size(s.std[j]),
                1,
            )
        }),
{
    let n = share(rows);
    let s = stats_of(rows, width);
    assert(n == from_int(rows.len() as int));
    assert(!n.negative());
    lemma_spread(rows, j, s.mean[j], n, rows.len());
    assert(variance_part(rows, j, s.mean[j], n, rows.len()).finite());
    let v = variance_part(rows, j, s.mean[j], n, rows.len());
    if v.mag() > 0 && !v.negative() {
        law_root_is_near(v);
    }
    v
}

} // verus!
