//! Rest-to-rest moves of one coordinate under velocity, acceleration and jerk limits:
//! seven segments of constant jerk.
//!
//! The cube root of one branch is taken outside, by a function that is handed in.

use vstd::prelude::*;

use crate::scalar::consts::{
    FOUR_BITS, HALF_BITS, MINUS_ONE_BITS, NANO_BITS, ONE_BITS, PICO_BITS, SIX_BITS, THREE_BITS,
    TWO_BITS,
};
#[allow(unused_imports)]
use crate::scalar::convert::{fclamp, fmax};
#[allow(unused_imports)]
use crate::scalar::number::{fabs, fadd, fdiv, fle, flt, fmul, fneg, fsub, mag_units};
#[allow(unused_imports)]
use crate::scalar::order::{
    gap, law_products_commute, law_shares_make_the_whole, law_sum_is_near, lemma_add_nothing,
    lemma_difference, lemma_gap_positive, lemma_half_is_finite, lemma_no_sum_key,
    lemma_nothing_over, lemma_sum, lemma_times_nothing, ordinary,
};
#[allow(unused_imports)]
use crate::scalar::root::fsqrt;
use crate::scalar::Scalar;

verus! {

/// A segment: when it starts, the state there, and its jerk.
#[derive(Clone, Copy, Debug, PartialEq, Eq, Structural)]
pub struct Seg {
    pub t0: Scalar,
    pub p0: Scalar,
    pub v0: Scalar,
    pub a0: Scalar,
    pub jerk: Scalar,
}

/// A move over the distance `d` in the direction `sign`.
#[derive(Debug)]
pub struct ScurveProfile {
    pub d: Scalar,
    pub sign: Scalar,
    pub tj: Scalar,
    pub ta: Scalar,
    pub tv: Scalar,
    pub vpeak: Scalar,
    pub apeak: Scalar,
    pub jmax: Scalar,
    segs: Vec<Seg>,
}

/// `ScurveProfile` over sequences.
#[verifier::ext_equal]
pub struct ProfileV {
    pub d: Scalar,
    pub sign: Scalar,
    pub tj: Scalar,
    pub ta: Scalar,
    pub tv: Scalar,
    pub vpeak: Scalar,
    pub apeak: Scalar,
    pub jmax: Scalar,
    pub segs: Seq<Seg>,
}

impl View for ScurveProfile {
    type V = ProfileV;

    closed spec fn view(&self) -> ProfileV {
        ProfileV {
            d: self.d,
            sign: self.sign,
            tj: self.tj,
            ta: self.ta,
            tv: self.tv,
            vpeak: self.vpeak,
            apeak: self.apeak,
            jmax: self.jmax,
            segs: self.segs@,
        }
    }
}

/// A function that is handed in behaves as `g`.
pub open spec fn computes<F: Fn(Scalar) -> Scalar>(f: F, g: spec_fn(Scalar) -> Scalar) -> bool {
    forall|x: Scalar, r: Scalar| call_ensures(f, (x,), r) ==> r == g(x)
}

/// `a`, held within the interval; one that is empty or not a number gives its start.
pub open spec fn held_in(a: Scalar, lo: Scalar, hi: Scalar) -> Scalar {
    if fle(lo, hi) {
        fclamp(a, lo, hi)
    } else {
        lo
    }
}

/// Acceleration after `dt` in a segment.
pub open spec fn acc_after(s: Seg, dt: Scalar) -> Scalar {
    fadd(s.a0, fmul(s.jerk, dt))
}

/// Velocity after `dt` in a segment.
pub open spec fn vel_after(s: Seg, dt: Scalar) -> Scalar {
    fadd(
        fadd(s.v0, fmul(s.a0, dt)),
        fmul(fmul(fmul(Scalar { bits: HALF_BITS }, s.jerk), dt), dt),
    )
}

/// Position after `dt` in a segment.
pub open spec fn pos_after(s: Seg, dt: Scalar) -> Scalar {
    fadd(
        fadd(
            fadd(s.p0, fmul(s.v0, dt)),
            fmul(fmul(fmul(Scalar { bits: HALF_BITS }, s.a0), dt), dt),
        ),
        fdiv(fmul(fmul(fmul(s.jerk, dt), dt), dt), Scalar { bits: SIX_BITS }),
    )
}

/// Jerk of segment `i`.
pub open spec fn jerk_of(jmax: Scalar, i: int) -> Scalar {
    if i == 0 || i == 6 {
        jmax
    } else if i == 2 || i == 4 {
        fneg(jmax)
    } else {
        Scalar { bits: 0 }
    }
}

/// Duration of segment `i`.
pub open spec fn length_of(tj: Scalar, ta: Scalar, tv: Scalar, i: int) -> Scalar {
    if i == 1 || i == 5 {
        ta
    } else if i == 3 {
        tv
    } else {
        tj
    }
}

/// Segment `i`: each starts where the one before it ends.
pub open spec fn seg_at(tj: Scalar, ta: Scalar, tv: Scalar, jmax: Scalar, i: nat) -> Seg
    decreases i,
{
    if i == 0 {
        Seg {
            t0: Scalar { bits: 0 },
            p0: Scalar { bits: 0 },
            v0: Scalar { bits: 0 },
            a0: Scalar { bits: 0 },
            jerk: jerk_of(jmax, 0),
        }
    } else {
        let s = seg_at(tj, ta, tv, jmax, (i - 1) as nat);
        let dt = length_of(tj, ta, tv, i - 1);
        Seg {
            t0: fadd(s.t0, dt),
            p0: pos_after(s, dt),
            v0: vel_after(s, dt),
            a0: acc_after(s, dt),
            jerk: jerk_of(jmax, i as int),
        }
    }
}

/// Largest start velocity of the first `k` segments.
pub open spec fn peak_of(segs: Seq<Seg>, k: nat) -> Scalar
    decreases k,
{
    if k == 0 {
        Scalar { bits: 0 }
    } else {
        fmax(peak_of(segs, (k - 1) as nat), segs[k - 1].v0)
    }
}

/// The profile of given durations.
#[verifier::opaque]
pub open spec fn built(
    d: Scalar,
    sign: Scalar,
    tj: Scalar,
    ta: Scalar,
    tv: Scalar,
    jmax: Scalar,
) -> ProfileV {
    let segs = Seq::new(7, |i: int| seg_at(tj, ta, tv, jmax, i as nat));
    ProfileV {
        d,
        sign,
        tj,
        ta,
        tv,
        vpeak: peak_of(segs, 7),
        apeak: fmul(jmax, tj),
        jmax,
        segs,
    }
}

pub open spec fn zero_seg() -> Seg {
    Seg {
        t0: Scalar { bits: 0 },
        p0: Scalar { bits: 0 },
        v0: Scalar { bits: 0 },
        a0: Scalar { bits: 0 },
        jerk: Scalar { bits: 0 },
    }
}

/// No move.
pub open spec fn at_rest() -> ProfileV {
    ProfileV {
        d: Scalar { bits: 0 },
        sign: Scalar { bits: ONE_BITS },
        tj: Scalar { bits: 0 },
        ta: Scalar { bits: 0 },
        tv: Scalar { bits: 0 },
        vpeak: Scalar { bits: 0 },
        apeak: Scalar { bits: 0 },
        jmax: Scalar { bits: ONE_BITS },
        segs: Seq::new(7, |i: int| zero_seg()),
    }
}

/// How long a move takes.
pub open spec fn total_of(p: ProfileV) -> Scalar {
    fadd(
        fadd(fmul(Scalar { bits: FOUR_BITS }, p.tj), fmul(Scalar { bits: TWO_BITS }, p.ta)),
        p.tv,
    )
}

/// The segment that a time falls in, from segment `k` on.
pub open spec fn seg_index(segs: Seq<Seg>, t: Scalar, k: int) -> int
    decreases 6 - k,
{
    if k < 0 || k >= 6 || !fle(segs[k + 1].t0, t) {
        k
    } else {
        seg_index(segs, t, k + 1)
    }
}

/// Displacement, velocity and acceleration at a time.
pub open spec fn profile_at(p: ProfileV, t: Scalar) -> (Scalar, Scalar, Scalar) {
    let tt = held_in(t, Scalar { bits: 0 }, total_of(p));
    let s = p.segs[seg_index(p.segs, tt, 0)];
    let dt = fsub(tt, s.t0);
    (
        fmul(p.sign, pos_after(s, dt)),
        fmul(p.sign, vel_after(s, dt)),
        fmul(p.sign, acc_after(s, dt)),
    )
}

/// Whether the acceleration reaches its limit before the velocity does.
pub open spec fn plateaus(vmax: Scalar, amax: Scalar, jmax: Scalar) -> bool {
    fle(fmul(amax, fdiv(amax, jmax)), vmax)
}

/// Ramp and plateau that lead to the full velocity.
pub open spec fn full_ramp(vmax: Scalar, amax: Scalar, jmax: Scalar) -> (Scalar, Scalar) {
    let tj = fdiv(amax, jmax);
    if plateaus(vmax, amax, jmax) {
        (tj, fsub(fdiv(vmax, amax), tj))
    } else {
        (fsqrt(fdiv(vmax, jmax)), Scalar { bits: 0 })
    }
}

/// Plateau of a move that never cruises.
pub open spec fn short_plateau(d: Scalar, amax: Scalar, tj: Scalar) -> Scalar {
    let b = fmul(fmul(Scalar { bits: THREE_BITS }, amax), tj);
    let c = fsub(fmul(fmul(fmul(Scalar { bits: TWO_BITS }, amax), tj), tj), d);
    let disc = fmax(
        fsub(fmul(b, b), fmul(fmul(Scalar { bits: FOUR_BITS }, amax), c)),
        Scalar { bits: 0 },
    );
    fdiv(fadd(fneg(b), fsqrt(disc)), fmul(Scalar { bits: TWO_BITS }, amax))
}

/// The quickest move over a signed distance. `cbrt` is the cube root.
#[verifier::opaque]
pub open spec fn planned(
    d_signed: Scalar,
    vmax: Scalar,
    amax: Scalar,
    jmax: Scalar,
    cbrt: spec_fn(Scalar) -> Scalar,
) -> ProfileV {
    let d = fabs(d_signed);
    let sign = if flt(d_signed, Scalar { bits: 0 }) {
        Scalar { bits: MINUS_ONE_BITS }
    } else {
        Scalar { bits: ONE_BITS }
    };
    let (tj, ta) = full_ramp(vmax, amax, jmax);
    let d_reach = fmul(vmax, fadd(fmul(Scalar { bits: TWO_BITS }, tj), ta));
    let short = short_plateau(d, amax, tj);
    if flt(d, Scalar { bits: PICO_BITS }) {
        at_rest()
    } else if fle(d_reach, d) {
        built(d, sign, tj, ta, fdiv(fsub(d, d_reach), vmax), jmax)
    } else if plateaus(vmax, amax, jmax) && fle(Scalar { bits: 0 }, short) {
        built(d, sign, tj, short, Scalar { bits: 0 }, jmax)
    } else {
        built(
            d,
            sign,
            cbrt(fdiv(d, fmul(Scalar { bits: TWO_BITS }, jmax))),
            Scalar { bits: 0 },
            Scalar { bits: 0 },
            jmax,
        )
    }
}

/// The move with all limits scaled by `s`.
pub open spec fn scaled_plan(
    d: Scalar,
    s: Scalar,
    vmax: Scalar,
    amax: Scalar,
    jmax: Scalar,
    cbrt: spec_fn(Scalar) -> Scalar,
) -> ProfileV {
    planned(d, fmul(s, vmax), fmul(s, amax), fmul(s, jmax), cbrt)
}

/// The lower end of the scale after `k` halvings of `lo..hi`.
pub open spec fn bisected(
    d: Scalar,
    target: Scalar,
    vmax: Scalar,
    amax: Scalar,
    jmax: Scalar,
    cbrt: spec_fn(Scalar) -> Scalar,
    lo: Scalar,
    hi: Scalar,
    k: nat,
) -> Scalar
    decreases k,
{
    if k == 0 {
        lo
    } else {
        let s = fmul(Scalar { bits: HALF_BITS }, fadd(lo, hi));
        if flt(target, total_of(scaled_plan(d, s, vmax, amax, jmax, cbrt))) {
            bisected(d, target, vmax, amax, jmax, cbrt, s, hi, (k - 1) as nat)
        } else {
            bisected(d, target, vmax, amax, jmax, cbrt, lo, s, (k - 1) as nat)
        }
    }
}

/// Halvings of the scale.
pub const BISECTIONS: u32 = 60;

/// The move stretched to a duration; one that takes longer already stays.
#[verifier::opaque]
pub open spec fn stretched(
    d: Scalar,
    target: Scalar,
    vmax: Scalar,
    amax: Scalar,
    jmax: Scalar,
    cbrt: spec_fn(Scalar) -> Scalar,
) -> ProfileV {
    let full = planned(d, vmax, amax, jmax, cbrt);
    if flt(fabs(d), Scalar { bits: PICO_BITS }) {
        at_rest()
    } else if fle(target, total_of(full)) {
        full
    } else {
        scaled_plan(
            d,
            bisected(
                d,
                target,
                vmax,
                amax,
                jmax,
                cbrt,
                Scalar { bits: NANO_BITS },
                Scalar { bits: ONE_BITS },
                BISECTIONS as nat,
            ),
            vmax,
            amax,
            jmax,
            cbrt,
        )
    }
}

/// `a`, held within an interval.
pub fn hold_in(a: Scalar, lo: Scalar, hi: Scalar) -> (r: Scalar)
    ensures
        r == held_in(a, lo, hi),
{
    if lo.le(hi) {
        a.clamp(lo, hi)
    } else {
        lo
    }
}

fn run_acc(s: Seg, dt: Scalar) -> (r: Scalar)
    ensures
        r == acc_after(s, dt),
{
    s.a0.add(s.jerk.mul(dt))
}

fn run_vel(s: Seg, dt: Scalar) -> (r: Scalar)
    ensures
        r == vel_after(s, dt),
{
    s.v0.add(s.a0.mul(dt)).add(Scalar { bits: HALF_BITS }.mul(s.jerk).mul(dt).mul(dt))
}

fn run_pos(s: Seg, dt: Scalar) -> (r: Scalar)
    ensures
        r == pos_after(s, dt),
{
    let bend = Scalar { bits: HALF_BITS }.mul(s.a0).mul(dt).mul(dt);
    let twist = s.jerk.mul(dt).mul(dt).mul(dt).div(Scalar { bits: SIX_BITS });
    s.p0.add(s.v0.mul(dt)).add(bend).add(twist)
}

impl ScurveProfile {
    #[verifier::type_invariant]
    spec fn valid(&self) -> bool {
        self.segs@.len() == 7
    }

    /// How long the move takes.
    pub fn total(&self) -> (r: Scalar)
        ensures
            r == total_of(self@),
    {
        Scalar { bits: FOUR_BITS }.mul(self.tj).add(Scalar { bits: TWO_BITS }.mul(self.ta)).add(
            self.tv,
        )
    }

    /// The same profile again.
    pub fn copy(&self) -> (r: ScurveProfile)
        ensures
            r@ == self@,
    {
        proof {
            use_type_invariant(self);
        }
        let mut segs: Vec<Seg> = Vec::new();
        let mut i: usize = 0;
        while i < 7
            invariant
                i <= 7,
                self.segs@.len() == 7,
                segs.len() == i,
                forall|k: int| 0 <= k < i ==> #[trigger] segs@[k] == self.segs@[k],
            decreases 7 - i,
        {
            segs.push(self.segs[i]);
            i = i + 1;
        }
        assert(segs@ =~= self.segs@);
        ScurveProfile {
            d: self.d,
            sign: self.sign,
            tj: self.tj,
            ta: self.ta,
            tv: self.tv,
            vpeak: self.vpeak,
            apeak: self.apeak,
            jmax: self.jmax,
            segs,
        }
    }

    fn rest() -> (r: ScurveProfile)
        ensures
            r@ == at_rest(),
    {
        let z = Seg {
            t0: Scalar { bits: 0 },
            p0: Scalar { bits: 0 },
            v0: Scalar { bits: 0 },
            a0: Scalar { bits: 0 },
            jerk: Scalar { bits: 0 },
        };
        let segs: Vec<Seg> = vec![z, z, z, z, z, z, z];
        assert(segs@ =~= Seq::new(7, |i: int| zero_seg()));
        ScurveProfile {
            d: Scalar { bits: 0 },
            sign: Scalar { bits: ONE_BITS },
            tj: Scalar { bits: 0 },
            ta: Scalar { bits: 0 },
            tv: Scalar { bits: 0 },
            vpeak: Scalar { bits: 0 },
            apeak: Scalar { bits: 0 },
            jmax: Scalar { bits: ONE_BITS },
            segs,
        }
    }

    /// Displacement, velocity and acceleration at a time; the ends hold before and
    /// after the move.
    pub fn sample(&self, t: Scalar) -> (r: (Scalar, Scalar, Scalar))
        ensures
            r == profile_at(self@, t),
    {
        proof {
            use_type_invariant(self);
        }
        let tt = hold_in(t, Scalar { bits: 0 }, self.total());
        let mut k: usize = 0;
        while k < 6 && self.segs[k + 1].t0.le(tt)
            invariant
                k <= 6,
                self.segs@.len() == 7,
                seg_index(self.segs@, tt, 0) == seg_index(self.segs@, tt, k as int),
            decreases 6 - k,
        {
            k = k + 1;
        }
        let s = self.segs[k];
        let dt = tt.sub(s.t0);
        (
            self.sign.mul(run_pos(s, dt)),
            self.sign.mul(run_vel(s, dt)),
            self.sign.mul(run_acc(s, dt)),
        )
    }

    fn build(
        d: Scalar,
        sign: Scalar,
        tj: Scalar,
        ta: Scalar,
        tv: Scalar,
        jmax: Scalar,
    ) -> (r: ScurveProfile)
        ensures
            r@ == built(d, sign, tj, ta, tv, jmax),
    {
        reveal(built);
        let zero = Scalar { bits: 0 };
        let back = jmax.neg();
        let mut segs: Vec<Seg> = Vec::new();
        let mut s = Seg { t0: zero, p0: zero, v0: zero, a0: zero, jerk: jmax };
        let mut vpeak = zero;
        let mut i: usize = 0;
        while i < 7
            invariant
                i <= 7,
                zero == (Scalar { bits: 0 }),
                back == fneg(jmax),
                segs.len() == i,
                i < 7 ==> s == seg_at(tj, ta, tv, jmax, i as nat),
                forall|k: int|
                    0 <= k < i ==> #[trigger] segs@[k] == seg_at(tj, ta, tv, jmax, k as nat),
                vpeak == peak_of(
                    Seq::new(7, |k: int| seg_at(tj, ta, tv, jmax, k as nat)),
                    i as nat,
                ),
            decreases 7 - i,
        {
            segs.push(s);
            vpeak = vpeak.max(s.v0);
            let dt = if i == 1 || i == 5 {
                ta
            } else if i == 3 {
                tv
            } else {
                tj
            };
            let next: usize = i + 1;
            let jerk = if next == 6 {
                jmax
            } else if next == 2 || next == 4 {
                back
            } else {
                zero
            };
            s = Seg {
                t0: s.t0.add(dt),
                p0: run_pos(s, dt),
                v0: run_vel(s, dt),
                a0: run_acc(s, dt),
                jerk,
            };
            i = next;
        }
        assert(segs@ =~= Seq::new(7, |k: int| seg_at(tj, ta, tv, jmax, k as nat)));
        ScurveProfile {
            d,
            sign,
            tj,
            ta,
            tv,
            vpeak,
            apeak: jmax.mul(tj),
            jmax,
            segs,
        }
    }
}

/// The quickest rest-to-rest move over a signed distance within the limits.
pub fn plan_scurve<F: Fn(Scalar) -> Scalar>(
    d_signed: Scalar,
    vmax: Scalar,
    amax: Scalar,
    jmax: Scalar,
    cbrt: &F,
) -> (r: ScurveProfile)
    requires
        forall|x: Scalar| call_requires(*cbrt, (x,)),
    ensures
        forall|g: spec_fn(Scalar) -> Scalar| #[trigger]
            computes(*cbrt, g) ==> r@ == planned(d_signed, vmax, amax, jmax, g),
{
    reveal(planned);
    let d = d_signed.abs();
    let sign = if d_signed.lt(Scalar { bits: 0 }) {
        Scalar { bits: MINUS_ONE_BITS }
    } else {
        Scalar { bits: ONE_BITS }
    };
    if d.lt(Scalar { bits: PICO_BITS }) {
        return ScurveProfile::rest();
    }
    let tj_full = amax.div(jmax);
    let reaches = vmax.ge(amax.mul(tj_full));
    let (tj, ta) = if reaches {
        (tj_full, vmax.div(amax).sub(tj_full))
    } else {
        (vmax.div(jmax).sqrt(), Scalar { bits: 0 })
    };
    let d_reach = vmax.mul(Scalar { bits: TWO_BITS }.mul(tj).add(ta));
    if d.ge(d_reach) {
        let tv = d.sub(d_reach).div(vmax);
        return ScurveProfile::build(d, sign, tj, ta, tv, jmax);
    }
    if reaches {
        let b = Scalar { bits: THREE_BITS }.mul(amax).mul(tj);
        let c = Scalar { bits: TWO_BITS }.mul(amax).mul(tj).mul(tj).sub(d);
        let disc = b.mul(b).sub(Scalar { bits: FOUR_BITS }.mul(amax).mul(c)).max(
            Scalar { bits: 0 },
        );
        let short = b.neg().add(disc.sqrt()).div(Scalar { bits: TWO_BITS }.mul(amax));
        if short.ge(Scalar { bits: 0 }) {
            return ScurveProfile::build(d, sign, tj, short, Scalar { bits: 0 }, jmax);
        }
    }
    let root = cbrt(d.div(Scalar { bits: TWO_BITS }.mul(jmax)));
    ScurveProfile::build(d, sign, root, Scalar { bits: 0 }, Scalar { bits: 0 }, jmax)
}

/// The move stretched to take `target_t`, by scaling all limits down together.
pub fn plan_scurve_to_duration<F: Fn(Scalar) -> Scalar>(
    d_signed: Scalar,
    target_t: Scalar,
    vmax: Scalar,
    amax: Scalar,
    jmax: Scalar,
    cbrt: &F,
) -> (r: ScurveProfile)
    requires
        forall|x: Scalar| call_requires(*cbrt, (x,)),
    ensures
        forall|g: spec_fn(Scalar) -> Scalar| #[trigger]
            computes(*cbrt, g) ==> r@ == stretched(d_signed, target_t, vmax, amax, jmax, g),
{
    reveal(stretched);
    if d_signed.abs().lt(Scalar { bits: PICO_BITS }) {
        return ScurveProfile::rest();
    }
    let full = plan_scurve(d_signed, vmax, amax, jmax, cbrt);
    if full.total().ge(target_t) {
        return full;
    }
    let mut lo = Scalar { bits: NANO_BITS };
    let mut hi = Scalar { bits: ONE_BITS };
    let mut k: u32 = 0;
    while k < BISECTIONS
        invariant
            k <= BISECTIONS,
            forall|x: Scalar| call_requires(*cbrt, (x,)),
            forall|g: spec_fn(Scalar) -> Scalar| #[trigger]
                computes(*cbrt, g) ==> bisected(
                    d_signed,
                    target_t,
                    vmax,
                    amax,
                    jmax,
                    g,
                    Scalar { bits: NANO_BITS },
                    Scalar { bits: ONE_BITS },
                    BISECTIONS as nat,
                ) == bisected(
                    d_signed,
                    target_t,
                    vmax,
                    amax,
                    jmax,
                    g,
                    lo,
                    hi,
                    (BISECTIONS - k) as nat,
                ),
        decreases BISECTIONS - k,
    {
        let s = Scalar { bits: HALF_BITS }.mul(lo.add(hi));
        let t = plan_scurve(d_signed, s.mul(vmax), s.mul(amax), s.mul(jmax), cbrt).total();
        if t.gt(target_t) {
            lo = s;
        } else {
            hi = s;
        }
        k = k + 1;
    }
    plan_scurve(d_signed, lo.mul(vmax), lo.mul(amax), lo.mul(jmax), cbrt)
}

/// A move over nothing rests: it takes no time and stays where it is.
pub proof fn law_tiny_move_rests(
    d: Scalar,
    vmax: Scalar,
    amax: Scalar,
    jmax: Scalar,
    cbrt: spec_fn(Scalar) -> Scalar,
)
    requires
        flt(fabs(d), Scalar { bits: PICO_BITS }),
    ensures
        planned(d, vmax, amax, jmax, cbrt) == at_rest(),
{
    reveal(planned);
}

/// Before its start and after its end a profile stays at its ends.
pub proof fn law_profile_holds_its_ends(p: ProfileV, t: Scalar)
    requires
        fle(Scalar { bits: 0 }, total_of(p)),
    ensures
        flt(t, Scalar { bits: 0 }) ==> profile_at(p, t) == profile_at(p, Scalar { bits: 0 }),
        flt(total_of(p), t) ==> profile_at(p, t) == profile_at(p, total_of(p)),
{
    let z = Scalar { bits: 0 };
    assert(fle(z, z));
}

/// Where a segment starts from rest at the origin, no time later it is still there.
proof fn lemma_still(s: Seg, dt: Scalar)
    requires
        s.p0.mag() == 0,
        s.v0.mag() == 0,
        s.a0.mag() == 0,
        s.jerk.finite(),
        dt.mag() == 0,
    ensures
        pos_after(s, dt).mag() == 0,
        vel_after(s, dt).mag() == 0,
        acc_after(s, dt).mag() == 0,
{
    let half = Scalar { bits: HALF_BITS };
    lemma_times_nothing(s.jerk, dt);
    lemma_times_nothing(s.v0, dt);
    lemma_times_nothing(s.a0, dt);
    lemma_half_is_finite(s.jerk);
    let hj = fmul(half, s.jerk);
    lemma_times_nothing(hj, dt);
    lemma_times_nothing(fmul(hj, dt), dt);
    lemma_times_nothing(half, s.a0);
    let ha = fmul(half, s.a0);
    lemma_times_nothing(ha, dt);
    lemma_times_nothing(fmul(ha, dt), dt);
    let jt = fmul(s.jerk, dt);
    lemma_times_nothing(jt, dt);
    lemma_times_nothing(fmul(jt, dt), dt);
    lemma_nothing_over(fmul(fmul(jt, dt), dt), Scalar { bits: SIX_BITS });
    lemma_add_nothing(s.a0, jt);
    lemma_add_nothing(s.v0, fmul(s.a0, dt));
    lemma_add_nothing(fadd(s.v0, fmul(s.a0, dt)), fmul(fmul(hj, dt), dt));
    let p1 = fadd(s.p0, fmul(s.v0, dt));
    lemma_add_nothing(s.p0, fmul(s.v0, dt));
    let p2 = fadd(p1, fmul(fmul(ha, dt), dt));
    lemma_add_nothing(p1, fmul(fmul(ha, dt), dt));
    lemma_add_nothing(p2, fdiv(fmul(fmul(jt, dt), dt), Scalar { bits: SIX_BITS }));
}

/// A move starts at rest where it begins, where its first ramp lasts.
pub proof fn law_moves_start_at_rest(
    d: Scalar,
    vmax: Scalar,
    amax: Scalar,
    jmax: Scalar,
    cbrt: spec_fn(Scalar) -> Scalar,
)
    requires
        jmax.finite(),
        !flt(fabs(d), Scalar { bits: PICO_BITS }),
        flt(Scalar { bits: 0 }, planned(d, vmax, amax, jmax, cbrt).tj),
    ensures
        profile_at(planned(d, vmax, amax, jmax, cbrt), Scalar { bits: 0 }).0.mag() == 0,
        profile_at(planned(d, vmax, amax, jmax, cbrt), Scalar { bits: 0 }).1.mag() == 0,
        profile_at(planned(d, vmax, amax, jmax, cbrt), Scalar { bits: 0 }).2.mag() == 0,
{
    reveal(planned);
    reveal(built);
    reveal_with_fuel(seg_at, 2);
    let z = Scalar { bits: 0 };
    let p = planned(d, vmax, amax, jmax, cbrt);
    let tt = held_in(z, z, total_of(p));
    assert(tt == z);
    let first = p.segs[0];
    assert(first == seg_at(p.tj, p.ta, p.tv, jmax, 0));
    assert(p.segs[1] == seg_at(p.tj, p.ta, p.tv, jmax, 1));
    assert(p.segs[1].t0 == fadd(z, p.tj));
    assert(flt(z, fadd(z, p.tj))) by {
        if p.tj.finite() {
            lemma_sum(z, p.tj);
            lemma_add_nothing(p.tj, z);
            lemma_sum(p.tj, z);
        } else {
            reveal(fadd);
        }
    }
    assert(seg_index(p.segs, z, 0) == 0);
    let dt = fsub(z, z);
    lemma_difference(z, z);
    lemma_no_sum_key();
    assert(dt.mag() == 0);
    lemma_still(first, dt);
    lemma_times_nothing(p.sign, pos_after(first, dt));
    lemma_times_nothing(p.sign, vel_after(first, dt));
    lemma_times_nothing(p.sign, acc_after(first, dt));
}

/// Adding to nothing.
proof fn lemma_from_nothing(z: Scalar, x: Scalar)
    requires
        z.mag() == 0,
        x.finite(),
    ensures
        fadd(z, x).finite(),
        fadd(z, x).key() == x.key(),
{
    lemma_sum(z, x);
    lemma_sum(x, z);
    lemma_add_nothing(x, z);
}

/// Adding what is as large the other way.
proof fn lemma_cancels(a: Scalar, b: Scalar)
    requires
        a.finite(),
        b.finite(),
        a.key() == -b.key(),
    ensures
        fadd(a, b).mag() == 0,
{
    lemma_sum(a, b);
    lemma_no_sum_key();
}

/// A jerk the other way gives as much the other way.
proof fn lemma_other_way(j: Scalar, t: Scalar)
    requires
        j.finite(),
        t.finite(),
        fmul(j, t).finite(),
    ensures
        fmul(fneg(j), t).finite(),
        fmul(fneg(j), t).key() == -fmul(j, t).key(),
{
    reveal(fmul);
}

/// The acceleration of a move rises to its peak and levels off there, is nothing while the
/// move cruises, falls to the peak the other way, and is nothing again at the end.
pub proof fn law_accelerations_level_off(
    d: Scalar,
    vmax: Scalar,
    amax: Scalar,
    jmax: Scalar,
    cbrt: spec_fn(Scalar) -> Scalar,
)
    requires
        jmax.finite(),
        !flt(fabs(d), Scalar { bits: PICO_BITS }),
        ({
            let p = planned(d, vmax, amax, jmax, cbrt);
            p.tj.finite() && p.ta.finite() && p.tv.finite() && p.apeak.finite()
        }),
    ensures
        ({
            let p = planned(d, vmax, amax, jmax, cbrt);
            &&& p.segs.len() == 7
            &&& p.segs[0].a0.mag() == 0
            &&& p.segs[1].a0.key() == p.apeak.key()
            &&& p.segs[2].a0.key() == p.apeak.key()
            &&& p.segs[3].a0.mag() == 0
            &&& p.segs[4].a0.mag() == 0
            &&& p.segs[5].a0.key() == -p.apeak.key()
            &&& p.segs[6].a0.key() == -p.apeak.key()
            &&& acc_after(p.segs[6], p.tj).mag() == 0
        }),
{
    reveal(planned);
    reveal(built);
    let z = Scalar { bits: 0 };
    let p = planned(d, vmax, amax, jmax, cbrt);
    let (tj, ta, tv) = (p.tj, p.ta, p.tv);
    let up = fmul(jmax, tj);
    let down = fmul(fneg(jmax), tj);
    assert(p.apeak == up);
    lemma_other_way(jmax, tj);
    lemma_times_nothing(ta, z);
    lemma_times_nothing(tv, z);
    let s0 = seg_at(tj, ta, tv, jmax, 0);
    let s1 = seg_at(tj, ta, tv, jmax, 1);
    let s2 = seg_at(tj, ta, tv, jmax, 2);
    let s3 = seg_at(tj, ta, tv, jmax, 3);
    let s4 = seg_at(tj, ta, tv, jmax, 4);
    let s5 = seg_at(tj, ta, tv, jmax, 5);
    let s6 = seg_at(tj, ta, tv, jmax, 6);
    assert(s1.a0 == fadd(s0.a0, up));
    lemma_from_nothing(s0.a0, up);
    assert(s2.a0 == fadd(s1.a0, fmul(z, ta)));
    lemma_add_nothing(s1.a0, fmul(z, ta));
    assert(s3.a0 == fadd(s2.a0, down));
    lemma_cancels(s2.a0, down);
    assert(s4.a0 == fadd(s3.a0, fmul(z, tv)));
    lemma_add_nothing(s3.a0, fmul(z, tv));
    assert(s5.a0 == fadd(s4.a0, down));
    lemma_from_nothing(s4.a0, down);
    assert(s6.a0 == fadd(s5.a0, fmul(z, ta)));
    lemma_add_nothing(s5.a0, fmul(z, ta));
    assert(acc_after(s6, tj) == fadd(s6.a0, up));
    lemma_cancels(s6.a0, up);
}

/// What is gained in the first and lost in the last ramp of the acceleration.
pub open spec fn rise(j: Scalar, tj: Scalar) -> Scalar {
    fmul(fmul(fmul(Scalar { bits: HALF_BITS }, j), tj), tj)
}

/// The velocities of a move are numbers.
pub open spec fn speeds_are_finite(p: ProfileV) -> bool {
    &&& p.jmax.finite() && p.tj.finite() && p.ta.finite() && p.tv.finite() && p.apeak.finite()
    &&& fmul(p.apeak, p.ta).finite() && fmul(p.apeak, p.tj).finite() && rise(
        p.jmax,
        p.tj,
    ).finite()
    &&& forall|i: int| 0 <= i < 7 ==> (#[trigger] p.segs[i]).v0.finite()
    &&& fadd(p.segs[2].v0, fmul(p.apeak, p.tj)).finite()
    &&& fsub(p.segs[6].v0, fmul(p.apeak, p.tj)).finite()
    &&& vel_after(p.segs[6], p.tj).finite()
}

/// How coarse the numbers are that the velocity of a move runs through.
pub open spec fn slack(p: ProfileV) -> int {
    let a = fmul(p.apeak, p.tj);
    gap(p.segs[2].v0.mag()) + gap(fadd(p.segs[2].v0, a).mag()) + gap(p.segs[3].v0.mag()) + gap(
        p.segs[5].v0.mag(),
    ) + gap(p.segs[6].v0.mag()) + gap(fsub(p.segs[6].v0, a).mag()) + gap(
        vel_after(p.segs[6], p.tj).mag(),
    )
}

/// A product with what is as large, the one way or the other.
pub proof fn lemma_product_by_key(a: Scalar, b: Scalar, t: Scalar)
    requires
        a.finite(),
        b.finite(),
        t.finite(),
        fmul(b, t).finite(),
        a.key() == b.key() || a.key() == -b.key(),
    ensures
        fmul(a, t).finite(),
        a.key() == b.key() ==> fmul(a, t).key() == fmul(b, t).key(),
        a.key() == -b.key() ==> fmul(a, t).key() == -fmul(b, t).key(),
{
    assert(a.mag() == b.mag());
    if a.mag() == 0 {
        lemma_times_nothing(t, a);
        lemma_times_nothing(t, b);
    }
    reveal(fmul);
}

/// The same place on the number line, the same units.
pub proof fn lemma_units_by_key(a: Scalar, b: Scalar)
    requires
        a.finite(),
        b.finite(),
    ensures
        a.key() == b.key() ==> a.units() == b.units(),
        a.key() == -b.key() ==> a.units() == -b.units(),
{
    assert(mag_units(0) == 0);
}

/// A move ends at rest, up to rounding: what is left of its velocity is less than the steps
/// between the numbers that it ran through. In between it cruises, up to as much, at what
/// the peak of its acceleration gives over a ramp and a plateau.
#[verifier::rlimit(40)]
pub proof fn law_moves_end_at_rest(
    d: Scalar,
    vmax: Scalar,
    amax: Scalar,
    jmax: Scalar,
    cbrt: spec_fn(Scalar) -> Scalar,
)
    requires
        jmax.finite(),
        !flt(fabs(d), Scalar { bits: PICO_BITS }),
        speeds_are_finite(planned(d, vmax, amax, jmax, cbrt)),
    ensures
        ({
            let p = planned(d, vmax, amax, jmax, cbrt);
            let left = vel_after(p.segs[6], p.tj).units();
            -slack(p) < left < slack(p)
        }),
        ({
            let p = planned(d, vmax, amax, jmax, cbrt);
            let cruise = p.segs[3].v0.units();
            let want = fmul(p.apeak, p.tj).units() + fmul(p.apeak, p.ta).units();
            -slack(p) < cruise - want < slack(p)
        }),
{
    reveal(planned);
    reveal(built);
    law_accelerations_level_off(d, vmax, amax, jmax, cbrt);
    let z = Scalar { bits: 0 };
    let half = Scalar { bits: HALF_BITS };
    let p = planned(d, vmax, amax, jmax, cbrt);
    let (tj, ta, tv) = (p.tj, p.ta, p.tv);
    let s0 = seg_at(tj, ta, tv, jmax, 0);
    let s1 = seg_at(tj, ta, tv, jmax, 1);
    let s2 = seg_at(tj, ta, tv, jmax, 2);
    let s3 = seg_at(tj, ta, tv, jmax, 3);
    let s4 = seg_at(tj, ta, tv, jmax, 4);
    let s5 = seg_at(tj, ta, tv, jmax, 5);
    let s6 = seg_at(tj, ta, tv, jmax, 6);
    assert(p.segs[0] == s0 && p.segs[1] == s1 && p.segs[2] == s2 && p.segs[3] == s3);
    assert(p.segs[4] == s4 && p.segs[5] == s5 && p.segs[6] == s6);
    let up = fmul(jmax, tj);
    let h = rise(jmax, tj);
    let a = fmul(up, tj);
    let b = fmul(up, ta);
    assert(p.apeak == up);
    lemma_half_is_finite(jmax);
    lemma_rise_other_way(jmax, tj);
    let down = fmul(fmul(fmul(half, fneg(jmax)), tj), tj);
    lemma_no_jerk(ta);
    lemma_no_jerk(tv);
    let flat_a = fmul(fmul(fmul(half, z), ta), ta);
    let flat_v = fmul(fmul(fmul(half, z), tv), tv);
    // The acceleration rises.
    lemma_times_nothing(tj, s0.a0);
    let m0 = fadd(s0.v0, fmul(s0.a0, tj));
    lemma_add_nothing(s0.v0, fmul(s0.a0, tj));
    lemma_from_nothing(m0, h);
    assert(s1.v0 == fadd(m0, h));
    lemma_units_by_key(s1.v0, h);
    // It levels off.
    lemma_finite_by_key(s1.a0, up);
    lemma_product_by_key(s1.a0, up, ta);
    let b1 = fmul(s1.a0, ta);
    lemma_units_by_key(b1, b);
    let m1 = fadd(s1.v0, b1);
    assert(s2.v0 == fadd(m1, flat_a));
    lemma_undone(m1, flat_a);
    lemma_units_by_key(s2.v0, m1);
    law_sum_is_near(s1.v0, b1);
    // It falls.
    lemma_finite_by_key(s2.a0, up);
    lemma_product_by_key(s2.a0, up, tj);
    let a2 = fmul(s2.a0, tj);
    lemma_units_by_key(a2, a);
    let m2 = fadd(s2.v0, a2);
    lemma_sum(s2.v0, a2);
    lemma_sum(s2.v0, a);
    law_sum_is_near(s2.v0, a2);
    assert(s3.v0 == fadd(m2, down));
    law_sum_is_near(m2, down);
    lemma_units_by_key(down, h);
    // The move cruises.
    lemma_times_nothing(tv, s3.a0);
    let m3 = fadd(s3.v0, fmul(s3.a0, tv));
    lemma_add_nothing(s3.v0, fmul(s3.a0, tv));
    lemma_add_nothing(m3, flat_v);
    assert(s4.v0 == fadd(m3, flat_v));
    lemma_units_by_key(s4.v0, s3.v0);
    // It slows down in the same way.
    lemma_times_nothing(tj, s4.a0);
    let m4 = fadd(s4.v0, fmul(s4.a0, tj));
    lemma_add_nothing(s4.v0, fmul(s4.a0, tj));
    lemma_units_by_key(m4, s4.v0);
    assert(s5.v0 == fadd(m4, down));
    law_sum_is_near(m4, down);
    lemma_finite_by_key(s5.a0, up);
    lemma_product_by_key(s5.a0, up, ta);
    let b5 = fmul(s5.a0, ta);
    lemma_units_by_key(b5, b);
    let m5 = fadd(s5.v0, b5);
    assert(s6.v0 == fadd(m5, flat_a));
    lemma_undone(m5, flat_a);
    lemma_units_by_key(s6.v0, m5);
    law_sum_is_near(s5.v0, b5);
    lemma_finite_by_key(s6.a0, up);
    lemma_product_by_key(s6.a0, up, tj);
    let a6 = fmul(s6.a0, tj);
    lemma_units_by_key(a6, a);
    let m6 = fadd(s6.v0, a6);
    lemma_sum(s6.v0, a6);
    lemma_difference(s6.v0, a);
    law_sum_is_near(s6.v0, a6);
    let end = vel_after(s6, tj);
    assert(end == fadd(m6, h));
    law_sum_is_near(m6, h);
    lemma_gap_positive(s5.v0);
    lemma_gap_positive(s6.v0);
    lemma_gap_positive(m6);
    lemma_gap_positive(end);
}

proof fn lemma_finite_by_key(a: Scalar, b: Scalar)
    requires
        b.finite(),
        a.key() == b.key() || a.key() == -b.key(),
    ensures
        a.finite(),
        a.mag() == b.mag(),
{
}

/// Adding nothing undone.
proof fn lemma_undone(m: Scalar, z: Scalar)
    requires
        z.mag() == 0,
        fadd(m, z).finite(),
    ensures
        m.finite(),
        fadd(m, z).key() == m.key(),
{
    assert(m.finite()) by {
        reveal(fadd);
        assert(crate::scalar::number::nan_value().nan());
    }
    lemma_add_nothing(m, z);
}

/// Without jerk nothing comes of it.
proof fn lemma_no_jerk(t: Scalar)
    requires
        t.finite(),
    ensures
        fmul(fmul(fmul(Scalar { bits: HALF_BITS }, Scalar { bits: 0 }), t), t).mag() == 0,
{
    let half = Scalar { bits: HALF_BITS };
    let z = Scalar { bits: 0 };
    lemma_times_nothing(half, z);
    lemma_times_nothing(t, fmul(half, z));
    lemma_times_nothing(t, fmul(fmul(half, z), t));
}

/// A jerk the other way takes as much as it gives.
proof fn lemma_rise_other_way(j: Scalar, t: Scalar)
    requires
        j.finite(),
        t.finite(),
        rise(j, t).finite(),
    ensures
        ({
            let other = fmul(fmul(fmul(Scalar { bits: HALF_BITS }, fneg(j)), t), t);
            other.finite() && other.key() == -rise(j, t).key()
        }),
{
    let half = Scalar { bits: HALF_BITS };
    let a = fmul(half, j);
    let b = fmul(half, fneg(j));
    lemma_half_is_finite(j);
    law_products_commute(half, j);
    law_products_commute(half, fneg(j));
    lemma_product_by_key(fneg(j), j, half);
    assert(fmul(a, t).finite()) by {
        reveal(fmul);
        assert(crate::scalar::number::nan_value().nan());
    }
    lemma_product_by_key(b, a, t);
    lemma_product_by_key(fmul(b, t), fmul(a, t), t);
}

/// Where a move has time to, its acceleration peaks at its limit, up to rounding.
pub proof fn law_acceleration_peaks_at_its_limit(
    d: Scalar,
    vmax: Scalar,
    amax: Scalar,
    jmax: Scalar,
    cbrt: spec_fn(Scalar) -> Scalar,
)
    requires
        amax.finite(),
        jmax.finite() && jmax.mag() > 0,
        !flt(fabs(d), Scalar { bits: PICO_BITS }),
        planned(d, vmax, amax, jmax, cbrt).tj == fdiv(amax, jmax),
        ordinary(planned(d, vmax, amax, jmax, cbrt).tj),
        ordinary(planned(d, vmax, amax, jmax, cbrt).apeak),
    ensures
        ({
            let peak = mag_units(planned(d, vmax, amax, jmax, cbrt).apeak.mag());
            let limit = mag_units(amax.mag());
            -limit <= (peak - limit) * 0x2_0000_0000_0000 <= limit
        }),
{
    reveal(planned);
    reveal(built);
    law_shares_make_the_whole(amax, jmax);
}

} // verus!
