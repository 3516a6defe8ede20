//! Path quality: cycle time, conditioning, limit margins and utilization of a
//! sampled path.

use vstd::prelude::*;

use crate::kinematics::singular::product_of;
#[allow(unused_imports)]
use crate::kinematics::singular::product;
#[allow(unused_imports)]
use crate::model::hull::last_max;
#[allow(unused_imports)]
use crate::motion::trajectory::{all_wide, rows_of};
use crate::scalar::consts::INFINITY_BITS;
#[allow(unused_imports)]
use crate::scalar::convert::{fmax, fmin, from_int, total_key};
#[allow(unused_imports)]
use crate::scalar::number::{fabs, fadd, fdiv, feq, flt, fsub};
use crate::scalar::Scalar;

verus! {

/// A sampled path: times, joint states, and the singular values of the Jacobian of
/// each sample in descending order, none where there are none.
pub struct PathRows<'a> {
    pub times: &'a Vec<Scalar>,
    pub q: &'a Vec<Vec<Scalar>>,
    pub qd: &'a Vec<Vec<Scalar>>,
    pub qdd: &'a Vec<Vec<Scalar>>,
    pub sv: &'a Vec<Vec<Scalar>>,
}

/// `PathRows` over sequences.
pub struct PathV {
    pub times: Seq<Scalar>,
    pub q: Seq<Seq<Scalar>>,
    pub qd: Seq<Seq<Scalar>>,
    pub qdd: Seq<Seq<Scalar>>,
    pub sv: Seq<Seq<Scalar>>,
}

impl<'a> View for PathRows<'a> {
    type V = PathV;

    open spec fn view(&self) -> PathV {
        PathV {
            times: self.times@,
            q: rows_of(self.q@),
            qd: rows_of(self.qd@),
            qdd: rows_of(self.qdd@),
            sv: rows_of(self.sv@),
        }
    }
}

/// As many rows as times, each `n` wide.
pub open spec fn rows_fit(rows: PathRows, n: nat) -> bool {
    &&& rows.q@.len() == rows.times@.len()
    &&& rows.qd@.len() == rows.times@.len()
    &&& rows.qdd@.len() == rows.times@.len()
    &&& rows.sv@.len() == rows.times@.len()
    &&& all_wide(rows.q@, n)
    &&& all_wide(rows.qd@, n)
    &&& all_wide(rows.qdd@, n)
}

/// How well a sample is conditioned: all singular values together.
pub open spec fn manip_of(sv: Seq<Scalar>) -> Scalar {
    if sv.len() == 0 {
        Scalar { bits: 0 }
    } else {
        product(sv, sv.len())
    }
}

/// How well a sample is conditioned: the smallest singular value.
pub open spec fn sigma_of(sv: Seq<Scalar>) -> Scalar {
    if sv.len() == 0 {
        Scalar { bits: 0 }
    } else {
        sv.last()
    }
}

/// Sum over the first `k` samples.
pub open spec fn manip_sum(sv: Seq<Seq<Scalar>>, k: nat) -> Scalar
    decreases k,
{
    if k == 0 {
        Scalar { bits: 0 }
    } else {
        fadd(manip_sum(sv, (k - 1) as nat), manip_of(sv[k - 1]))
    }
}

/// Least of the first `k` samples.
pub open spec fn manip_min(sv: Seq<Seq<Scalar>>, k: nat) -> Scalar
    decreases k,
{
    if k == 0 {
        Scalar { bits: INFINITY_BITS }
    } else {
        fmin(manip_min(sv, (k - 1) as nat), manip_of(sv[k - 1]))
    }
}

/// Smallest singular value of the first `k` samples, and when.
pub open spec fn sigma_min(sv: Seq<Seq<Scalar>>, times: Seq<Scalar>, k: nat) -> (Scalar, Scalar)
    decreases k,
{
    if k == 0 {
        (Scalar { bits: INFINITY_BITS }, Scalar { bits: 0 })
    } else {
        let best = sigma_min(sv, times, (k - 1) as nat);
        if flt(sigma_of(sv[k - 1]), best.0) {
            (sigma_of(sv[k - 1]), times[k - 1])
        } else {
            best
        }
    }
}

/// Distance to the nearer limit; negative outside.
pub open spec fn margin(q: Scalar, lo: Scalar, hi: Scalar) -> Scalar {
    fmin(fsub(q, lo), fsub(hi, q))
}

/// Least margin of joint `i` over the first `k` samples.
pub open spec fn margin_min(q: Seq<Seq<Scalar>>, lim: Option<(Scalar, Scalar)>, i: int, k: nat) -> Scalar
    decreases k,
{
    if k == 0 {
        Scalar { bits: INFINITY_BITS }
    } else {
        match lim {
            Some((lo, hi)) => fmin(
                margin_min(q, lim, i, (k - 1) as nat),
                margin(q[k - 1][i], lo, hi),
            ),
            None => margin_min(q, lim, i, (k - 1) as nat),
        }
    }
}

/// What part of a limit is used. A limit that is not positive is used up by any motion.
pub open spec fn utilization(x: Scalar, lim: Scalar) -> Scalar {
    if flt(Scalar { bits: 0 }, lim) {
        fdiv(fabs(x), lim)
    } else if feq(x, Scalar { bits: 0 }) {
        Scalar { bits: 0 }
    } else {
        Scalar { bits: INFINITY_BITS }
    }
}

/// Largest utilization of joint `i` over the first `k` samples.
pub open spec fn utilization_max(x: Seq<Seq<Scalar>>, lim: Scalar, i: int, k: nat) -> Scalar
    decreases k,
{
    if k == 0 {
        Scalar { bits: 0 }
    } else {
        fmax(utilization_max(x, lim, i, (k - 1) as nat), utilization(x[k - 1][i], lim))
    }
}

/// The metrics of a path.
#[derive(Debug)]
pub struct PathReport {
    pub cycle_time: Scalar,
    pub samples: usize,
    pub min_manipulability: Scalar,
    pub mean_manipulability: Scalar,
    pub min_sigma_min: Scalar,
    pub t_min_sigma: Scalar,
    /// Infinite for a joint without limits.
    pub limit_margin: Vec<Scalar>,
    pub vel_utilization: Vec<Scalar>,
    pub acc_utilization: Vec<Scalar>,
}

/// Least finite entry from `i` on, the first of equals.
pub open spec fn least_finite(v: Seq<Scalar>, n: nat) -> Option<int>
    decreases n,
{
    if n == 0 {
        None
    } else {
        match least_finite(v, (n - 1) as nat) {
            None => if v[n - 1].finite() {
                Some(n - 1)
            } else {
                None
            },
            Some(m) => if v[n - 1].finite() && total_key(v[n - 1]) < total_key(v[m]) {
                Some(n - 1)
            } else {
                Some(m)
            },
        }
    }
}

fn worst(v: &Vec<Scalar>) -> (r: Option<(usize, Scalar)>)
    ensures
        match r {
            Some((i, x)) => v@.len() > 0 && i == last_max(v@, v@.len()) && i < v@.len() && x
                == v@[i as int],
            None => v@.len() == 0,
        },
{
    if v.len() == 0 {
        return None;
    }
    let mut m: usize = 0;
    let mut i: usize = 1;
    while i < v.len()
        invariant
            1 <= i <= v.len(),
            m < i,
            m == last_max(v@, i as nat),
        decreases v.len() - i,
    {
        if !v[i].sorts_before(v[m]) {
            m = i;
        }
        i = i + 1;
    }
    Some((m, v[m]))
}

impl PathReport {
    /// The joint whose velocity limit is used most, the last of equals.
    pub fn worst_vel_utilization(&self) -> (r: Option<(usize, Scalar)>)
        ensures
            match r {
                Some((i, x)) => self.vel_utilization@.len() > 0 && i == last_max(
                    self.vel_utilization@,
                    self.vel_utilization@.len(),
                ) && x == self.vel_utilization@[i as int],
                None => self.vel_utilization@.len() == 0,
            },
    {
        worst(&self.vel_utilization)
    }

    /// The joint whose acceleration limit is used most, the last of equals.
    pub fn worst_acc_utilization(&self) -> (r: Option<(usize, Scalar)>)
        ensures
            match r {
                Some((i, x)) => self.acc_utilization@.len() > 0 && i == last_max(
                    self.acc_utilization@,
                    self.acc_utilization@.len(),
                ) && x == self.acc_utilization@[i as int],
                None => self.acc_utilization@.len() == 0,
            },
    {
        worst(&self.acc_utilization)
    }

    /// The joint that is nearest to a limit, the first of equals; nothing where no
    /// joint has limits.
    pub fn min_limit_margin(&self) -> (r: Option<(usize, Scalar)>)
        ensures
            match r {
                Some((i, x)) => least_finite(self.limit_margin@, self.limit_margin@.len()) == Some(
                    i as int,
                ) && i < self.limit_margin@.len() && x == self.limit_margin@[i as int],
                None => least_finite(self.limit_margin@, self.limit_margin@.len()) is None,
            },
    {
        let v = &self.limit_margin;
        let mut best: Option<usize> = None;
        let mut i: usize = 0;
        while i < v.len()
            invariant
                i <= v.len(),
                match best {
                    Some(m) => m < i && least_finite(v@, i as nat) == Some(m as int),
                    None => least_finite(v@, i as nat) is None,
                },
            decreases v.len() - i,
        {
            if v[i].is_finite() {
                match best {
                    Some(m) => {
                        if v[i].sorts_before(v[m]) {
                            best = Some(i);
                        }
                    },
                    None => {
                        best = Some(i);
                    },
                }
            }
            i = i + 1;
        }
        match best {
            Some(m) => Some((m, v[m])),
            None => None,
        }
    }
}

/// The report of a path.
pub open spec fn report_matches(
    r: PathReport,
    p: PathV,
    n: nat,
    limits: Seq<Option<(Scalar, Scalar)>>,
    vmax: Seq<Scalar>,
    amax: Seq<Scalar>,
) -> bool {
    let k = p.times.len();
    &&& r.samples == k
    &&& r.limit_margin@ == Seq::new(n, |i: int| margin_min(p.q, limits[i], i, k))
    &&& r.vel_utilization@ == Seq::new(n, |i: int| utilization_max(p.qd, vmax[i], i, k))
    &&& r.acc_utilization@ == Seq::new(n, |i: int| utilization_max(p.qdd, amax[i], i, k))
    &&& if k == 0 {
        &&& r.cycle_time == (Scalar { bits: 0 })
        &&& r.min_manipulability == (Scalar { bits: 0 })
        &&& r.mean_manipulability == (Scalar { bits: 0 })
        &&& r.min_sigma_min == (Scalar { bits: 0 })
        &&& r.t_min_sigma == (Scalar { bits: 0 })
    } else {
        &&& r.cycle_time == fsub(p.times.last(), p.times[0])
        &&& r.min_manipulability == manip_min(p.sv, k)
        &&& r.mean_manipulability == fdiv(manip_sum(p.sv, k), from_int(k as int))
        &&& r.min_sigma_min == sigma_min(p.sv, p.times, k).0
        &&& r.t_min_sigma == sigma_min(p.sv, p.times, k).1
    }
}

/// The smallest singular value of a sample.
pub fn smallest(sv: &Vec<Scalar>) -> (r: Scalar)
    ensures
        r == sigma_of(sv@),
{
    if sv.len() == 0 {
        Scalar { bits: 0 }
    } else {
        sv[sv.len() - 1]
    }
}

/// Distance to the nearer limit.
pub fn margin_at(q: Scalar, lo: Scalar, hi: Scalar) -> (r: Scalar)
    ensures
        r == margin(q, lo, hi),
{
    q.sub(lo).min(hi.sub(q))
}

fn utilized(x: Scalar, lim: Scalar) -> (r: Scalar)
    ensures
        r == utilization(x, lim),
{
    if lim.gt(Scalar { bits: 0 }) {
        x.abs().div(lim)
    } else if x.same(Scalar { bits: 0 }) {
        Scalar { bits: 0 }
    } else {
        Scalar { bits: INFINITY_BITS }
    }
}

fn tightest(q: &Vec<Vec<Scalar>>, lim: Option<(Scalar, Scalar)>, i: usize, n: usize) -> (r: Scalar)
    requires
        i < n,
        all_wide(q@, n as nat),
    ensures
        r == margin_min(rows_of(q@), lim, i as int, q@.len()),
{
    let mut m = Scalar { bits: INFINITY_BITS };
    let mut k: usize = 0;
    while k < q.len()
        invariant
            k <= q.len(),
            i < n,
            all_wide(q@, n as nat),
            m == margin_min(rows_of(q@), lim, i as int, k as nat),
        decreases q.len() - k,
    {
        assert(q@[k as int]@.len() == n);
        match lim {
            Some((lo, hi)) => {
                m = m.min(margin_at(q[k][i], lo, hi));
            },
            None => {},
        }
        k = k + 1;
    }
    m
}

fn most_used(x: &Vec<Vec<Scalar>>, lim: Scalar, i: usize, n: usize) -> (r: Scalar)
    requires
        i < n,
        all_wide(x@, n as nat),
    ensures
        r == utilization_max(rows_of(x@), lim, i as int, x@.len()),
{
    let mut m = Scalar { bits: 0 };
    let mut k: usize = 0;
    while k < x.len()
        invariant
            k <= x.len(),
            i < n,
            all_wide(x@, n as nat),
            m == utilization_max(rows_of(x@), lim, i as int, k as nat),
        decreases x.len() - k,
    {
        assert(x@[k as int]@.len() == n);
        m = m.max(utilized(x[k][i], lim));
        k = k + 1;
    }
    m
}

/// The metrics of a sampled path of `n` joints. A path without samples has none.
pub fn path_report(
    n: usize,
    limits: &Vec<Option<(Scalar, Scalar)>>,
    rows: &PathRows,
    vmax: &Vec<Scalar>,
    amax: &Vec<Scalar>,
) -> (r: PathReport)
    requires
        rows_fit(*rows, n as nat),
        limits@.len() >= n,
        vmax@.len() >= n,
        amax@.len() >= n,
    ensures
        report_matches(r, rows@, n as nat, limits@, vmax@, amax@),
{
    let zero = Scalar { bits: 0 };
    let ghost p = rows@;
    let ns: usize = rows.times.len();
    let mut limit_margin: Vec<Scalar> = Vec::new();
    let mut vel_utilization: Vec<Scalar> = Vec::new();
    let mut acc_utilization: Vec<Scalar> = Vec::new();
    let mut i: usize = 0;
    while i < n
        invariant
            i <= n,
            p == rows@,
            ns == p.times.len(),
            rows_fit(*rows, n as nat),
            limits@.len() >= n,
            vmax@.len() >= n,
            amax@.len() >= n,
            limit_margin.len() == i,
            vel_utilization.len() == i,
            acc_utilization.len() == i,
            forall|c: int|
                0 <= c < i ==> #[trigger] limit_margin@[c] == margin_min(
                    p.q,
                    limits@[c],
                    c,
                    ns as nat,
                ),
            forall|c: int|
                0 <= c < i ==> #[trigger] vel_utilization@[c] == utilization_max(
                    p.qd,
                    vmax@[c],
                    c,
                    ns as nat,
                ),
            forall|c: int|
                0 <= c < i ==> #[trigger] acc_utilization@[c] == utilization_max(
                    p.qdd,
                    amax@[c],
                    c,
                    ns as nat,
                ),
        decreases n - i,
    {
        limit_margin.push(tightest(rows.q, limits[i], i, n));
        vel_utilization.push(most_used(rows.qd, vmax[i], i, n));
        acc_utilization.push(most_used(rows.qdd, amax[i], i, n));
        i = i + 1;
    }
    proof {
        assert(limit_margin@ =~= Seq::new(
            n as nat,
            |i: int| margin_min(p.q, limits@[i], i, ns as nat),
        ));
        assert(vel_utilization@ =~= Seq::new(
            n as nat,
            |i: int| utilization_max(p.qd, vmax@[i], i, ns as nat),
        ));
        assert(acc_utilization@ =~= Seq::new(
            n as nat,
            |i: int| utilization_max(p.qdd, amax@[i], i, ns as nat),
        ));
    }
    if ns == 0 {
        return PathReport {
            cycle_time: zero,
            samples: 0,
            min_manipulability: zero,
            mean_manipulability: zero,
            min_sigma_min: zero,
            t_min_sigma: zero,
            limit_margin,
            vel_utilization,
            acc_utilization,
        };
    }
    let mut sum = zero;
    let mut least = Scalar { bits: INFINITY_BITS };
    let mut sigma = Scalar { bits: INFINITY_BITS };
    let mut t_sigma = zero;
    let mut k: usize = 0;
    while k < ns
        invariant
            k <= ns,
            p == rows@,
            ns == p.times.len(),
            rows_fit(*rows, n as nat),
            sum == manip_sum(p.sv, k as nat),
            least == manip_min(p.sv, k as nat),
            (sigma, t_sigma) == sigma_min(p.sv, p.times, k as nat),
        decreases ns - k,
    {
        let sv = &rows.sv[k];
        assert(p.sv[k as int] == sv@);
        let m = if sv.len() == 0 {
            Scalar { bits: 0 }
        } else {
            product_of(sv)
        };
        let s = smallest(sv);
        sum = sum.add(m);
        least = least.min(m);
        if s.lt(sigma) {
            sigma = s;
            t_sigma = rows.times[k];
        }
        k = k + 1;
    }
    PathReport {
        cycle_time: rows.times[ns - 1].sub(rows.times[0]),
        samples: ns,
        min_manipulability: least,
        mean_manipulability: sum.div(Scalar::from_usize(ns)),
        min_sigma_min: sigma,
        t_min_sigma: t_sigma,
        limit_margin,
        vel_utilization,
        acc_utilization,
    }
}

/// A joint without limits has an infinite margin.
pub proof fn law_unlimited_margin_is_infinite(q: Seq<Seq<Scalar>>, i: int, k: nat)
    ensures
        margin_min(q, None, i, k) == (Scalar { bits: INFINITY_BITS }),
    decreases k,
{
    if k > 0 {
        law_unlimited_margin_is_infinite(q, i, (k - 1) as nat);
    }
}

} // verus!
