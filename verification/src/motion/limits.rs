//! Velocity, acceleration and jerk limits of each joint.

use vstd::prelude::*;

use crate::hal::backend::copy_scalars;
use crate::model::Model;
use crate::motion::error::MotionError;
use crate::scalar::consts::{FIVE_BITS, ONE_BITS, TEN_BITS};
#[allow(unused_imports)]
use crate::scalar::number::{flt, fmul};
use crate::scalar::Scalar;

verus! {

/// The limits of each joint.
#[derive(Debug)]
pub struct MotionLimits {
    pub vmax: Vec<Scalar>,
    pub amax: Vec<Scalar>,
    pub jmax: Vec<Scalar>,
}

/// `MotionLimits` over sequences.
#[verifier::ext_equal]
pub struct LimitsV {
    pub v: Seq<Scalar>,
    pub a: Seq<Scalar>,
    pub j: Seq<Scalar>,
}

impl View for MotionLimits {
    type V = LimitsV;

    open spec fn view(&self) -> LimitsV {
        LimitsV { v: self.vmax@, a: self.amax@, j: self.jmax@ }
    }
}

/// Limits of one joint, given by hand.
#[derive(Clone, Copy, Debug)]
pub struct JointOverride {
    pub joint: usize,
    pub vmax: Option<Scalar>,
    pub amax: Option<Scalar>,
    pub jmax: Option<Scalar>,
}

/// How limits come from a model.
#[derive(Debug)]
pub struct MotionLimitsConfig {
    /// Velocity of a joint without a velocity limit.
    pub default_vel: Scalar,
    /// Acceleration per velocity.
    pub accel_ratio: Scalar,
    /// Jerk per acceleration.
    pub jerk_ratio: Scalar,
    /// What part of the velocity limits is used.
    pub vel_scale: Scalar,
    pub overrides: Vec<JointOverride>,
}

impl Default for MotionLimitsConfig {
    fn default() -> (r: MotionLimitsConfig)
        ensures
            r.default_vel == (Scalar { bits: ONE_BITS }),
            r.accel_ratio == (Scalar { bits: FIVE_BITS }),
            r.jerk_ratio == (Scalar { bits: TEN_BITS }),
            r.vel_scale == (Scalar { bits: ONE_BITS }),
            r.overrides@.len() == 0,
    {
        MotionLimitsConfig {
            default_vel: Scalar { bits: ONE_BITS },
            accel_ratio: Scalar { bits: FIVE_BITS },
            jerk_ratio: Scalar { bits: TEN_BITS },
            vel_scale: Scalar { bits: ONE_BITS },
            overrides: Vec::new(),
        }
    }
}

/// The limits that follow from the velocity limits alone.
pub open spec fn derived(m: Model, cfg: MotionLimitsConfig) -> LimitsV {
    let n = m.ndof as nat;
    let v = Seq::new(
        n,
        |i: int|
            fmul(
                cfg.vel_scale,
                match m.vel_limit@[i] {
                    Some(x) => x,
                    None => cfg.default_vel,
                },
            ),
    );
    let a = Seq::new(n, |i: int| fmul(cfg.accel_ratio, v[i]));
    LimitsV { v, a, j: Seq::new(n, |i: int| fmul(cfg.jerk_ratio, a[i])) }
}

pub open spec fn put(s: Seq<Scalar>, i: int, x: Option<Scalar>) -> Seq<Scalar> {
    match x {
        Some(v) => s.update(i, v),
        None => s,
    }
}

/// One override on top.
pub open spec fn overridden(l: LimitsV, o: JointOverride) -> LimitsV {
    LimitsV {
        v: put(l.v, o.joint as int, o.vmax),
        a: put(l.a, o.joint as int, o.amax),
        j: put(l.j, o.joint as int, o.jmax),
    }
}

/// The first `k` overrides on top, in order.
pub open spec fn with_overrides(l: LimitsV, o: Seq<JointOverride>, k: nat) -> LimitsV
    decreases k,
{
    if k == 0 {
        l
    } else {
        overridden(with_overrides(l, o, (k - 1) as nat), o[k - 1])
    }
}

pub open spec fn positive_at(l: LimitsV, i: int) -> bool {
    flt(Scalar { bits: 0 }, l.v[i]) && flt(Scalar { bits: 0 }, l.a[i]) && flt(
        Scalar { bits: 0 },
        l.j[i],
    )
}

/// First joint from `i` on with a limit that is not positive.
pub open spec fn first_bad(l: LimitsV, n: nat, i: int) -> Option<int>
    decreases n - i,
{
    if i < 0 || i >= n {
        None
    } else if positive_at(l, i) {
        first_bad(l, n, i + 1)
    } else {
        Some(i)
    }
}

pub open spec fn overrides_fit(o: Seq<JointOverride>, n: nat) -> bool {
    forall|k: int| 0 <= k < o.len() ==> (#[trigger] o[k]).joint < n
}

fn is_positive(x: Scalar) -> (r: bool)
    ensures
        r == flt(Scalar { bits: 0 }, x),
{
    x.gt(Scalar { bits: 0 })
}

proof fn lemma_override_lens(l: LimitsV, o: Seq<JointOverride>, k: nat)
    requires
        k <= o.len(),
        overrides_fit(o, l.v.len()),
        l.a.len() == l.v.len(),
        l.j.len() == l.v.len(),
    ensures
        with_overrides(l, o, k).v.len() == l.v.len(),
        with_overrides(l, o, k).a.len() == l.a.len(),
        with_overrides(l, o, k).j.len() == l.j.len(),
    decreases k,
{
    if k > 0 {
        lemma_override_lens(l, o, (k - 1) as nat);
        assert(o[k - 1].joint < l.v.len());
    }
}

impl MotionLimits {
    pub fn ndof(&self) -> (r: usize)
        ensures
            r == self@.v.len(),
    {
        self.vmax.len()
    }

    /// The same limits again.
    pub fn copy(&self) -> (r: MotionLimits)
        ensures
            r@ == self@,
    {
        MotionLimits {
            vmax: copy_scalars(self.vmax.as_slice()),
            amax: copy_scalars(self.amax.as_slice()),
            jmax: copy_scalars(self.jmax.as_slice()),
        }
    }

    /// The limits of a model: velocities scaled, acceleration and jerk in proportion,
    /// then the overrides. All of them have to be positive.
    pub fn from_model(model: &Model, cfg: &MotionLimitsConfig) -> (r: Result<
        MotionLimits,
        MotionError,
    >)
        requires
            model.wf(),
        ensures
            ({
                let n = model.ndof as nat;
                let o = cfg.overrides@;
                let l = with_overrides(derived(*model, *cfg), o, o.len());
                if !overrides_fit(o, n) {
                    r == Err::<MotionLimits, MotionError>(MotionError::DimMismatch)
                } else {
                    match first_bad(l, n, 0) {
                        Some(i) => r matches Err(MotionError::BadLimit(k)) && k == i,
                        None => r matches Ok(x) && x@ == l,
                    }
                }
            }),
    {
        let n: usize = model.ndof;
        let ghost base = derived(*model, *cfg);
        let mut vmax: Vec<Scalar> = Vec::new();
        let mut amax: Vec<Scalar> = Vec::new();
        let mut jmax: Vec<Scalar> = Vec::new();
        let mut i: usize = 0;
        while i < n
            invariant
                i <= n,
                n == model.ndof,
                model.wf(),
                base == derived(*model, *cfg),
                vmax.len() == i,
                amax.len() == i,
                jmax.len() == i,
                forall|k: int| 0 <= k < i ==> #[trigger] vmax@[k] == base.v[k],
                forall|k: int| 0 <= k < i ==> #[trigger] amax@[k] == base.a[k],
                forall|k: int| 0 <= k < i ==> #[trigger] jmax@[k] == base.j[k],
            decreases n - i,
        {
            let own = match model.vel_limit[i] {
                Some(x) => x,
                None => cfg.default_vel,
            };
            let v = cfg.vel_scale.mul(own);
            let a = cfg.accel_ratio.mul(v);
            let j = cfg.jerk_ratio.mul(a);
            vmax.push(v);
            amax.push(a);
            jmax.push(j);
            i = i + 1;
        }
        let mut l = MotionLimits { vmax, amax, jmax };
        assert(l@ =~= base);
        let mut k: usize = 0;
        while k < cfg.overrides.len()
            invariant
                k <= cfg.overrides.len(),
                n == model.ndof,
                base == derived(*model, *cfg),
                l@ == with_overrides(base, cfg.overrides@, k as nat),
                l.vmax.len() == n,
                l.amax.len() == n,
                l.jmax.len() == n,
                forall|i: int| 0 <= i < k ==> (#[trigger] cfg.overrides@[i]).joint < n,
            decreases cfg.overrides.len() - k,
        {
            let o = cfg.overrides[k];
            if o.joint >= n {
                assert(!(cfg.overrides@[k as int].joint < n));
                return Err(MotionError::DimMismatch);
            }
            match o.vmax {
                Some(v) => {
                    l.vmax.set(o.joint, v);
                },
                None => {},
            }
            match o.amax {
                Some(a) => {
                    l.amax.set(o.joint, a);
                },
                None => {},
            }
            match o.jmax {
                Some(j) => {
                    l.jmax.set(o.joint, j);
                },
                None => {},
            }
            k = k + 1;
            assert(l@ =~= with_overrides(base, cfg.overrides@, k as nat));
        }
        let mut c: usize = 0;
        while c < n
            invariant
                c <= n,
                l.vmax.len() == n,
                l.amax.len() == n,
                l.jmax.len() == n,
                first_bad(l@, n as nat, 0) == first_bad(l@, n as nat, c as int),
                n == model.ndof,
                overrides_fit(cfg.overrides@, n as nat),
                l@ == with_overrides(derived(*model, *cfg), cfg.overrides@, cfg.overrides@.len()),
            decreases n - c,
        {
            if !(is_positive(l.vmax[c]) && is_positive(l.amax[c]) && is_positive(l.jmax[c])) {
                return Err(MotionError::BadLimit(c));
            }
            c = c + 1;
        }
        Ok(l)
    }
}

proof fn lemma_no_bad(l: LimitsV, n: nat, i: int, k: int)
    requires
        first_bad(l, n, i) is None,
        0 <= i <= k < n,
    ensures
        positive_at(l, k),
    decreases n - i,
{
    if i < k {
        lemma_no_bad(l, n, i + 1, k);
    }
}

/// The limits of a model are positive at every joint.
pub proof fn law_limits_are_positive(m: Model, cfg: MotionLimitsConfig, k: int)
    requires
        overrides_fit(cfg.overrides@, m.ndof as nat),
        first_bad(
            with_overrides(derived(m, cfg), cfg.overrides@, cfg.overrides@.len()),
            m.ndof as nat,
            0,
        ) is None,
        0 <= k < m.ndof,
    ensures
        positive_at(with_overrides(derived(m, cfg), cfg.overrides@, cfg.overrides@.len()), k),
        with_overrides(derived(m, cfg), cfg.overrides@, cfg.overrides@.len()).v.len() == m.ndof,
{
    let l = with_overrides(derived(m, cfg), cfg.overrides@, cfg.overrides@.len());
    lemma_override_lens(derived(m, cfg), cfg.overrides@, cfg.overrides@.len());
    lemma_no_bad(l, m.ndof as nat, 0, k);
}

} // verus!
