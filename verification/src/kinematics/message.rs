//! Findings in words, with numbers rounded for people.

use vstd::prelude::*;

use crate::kinematics::lint::{Detail, Finding, LintOptions};
use crate::model::{JointKind, Model};
use crate::scalar::consts::HUNDRED_BITS;
#[allow(unused_imports)]
use crate::scalar::fixed::{fixed, scientific};
use crate::scalar::fixed::{show_fixed, show_scientific};
#[allow(unused_imports)]
use crate::scalar::number::{fmul, fneg};
use crate::scalar::Scalar;
#[allow(unused_imports)]
use crate::text::decimal;
use crate::text::{chars_of, decimal_text, push_lit, push_text, string_of};

verus! {

/// The unit of a quantity of a joint, by its order of derivation.
pub open spec fn unit_of(joint: Option<usize>, m: Model, order: int) -> Seq<char> {
    match joint {
        Some(i) => if i >= m.kind@.len() {
            ""@
        } else {
            match m.kind@[i as int] {
                JointKind::Revolute => if order == 0 {
                    "rad"@
                } else if order == 1 {
                    "rad/s"@
                } else if order == 2 {
                    "rad/s^2"@
                } else {
                    "rad/s^3"@
                },
                JointKind::Prismatic => if order == 0 {
                    "m"@
                } else if order == 1 {
                    "m/s"@
                } else if order == 2 {
                    "m/s^2"@
                } else {
                    "m/s^3"@
                },
            }
        },
        None => ""@,
    }
}

/// The number and the name of a joint.
pub open spec fn who(joint: Option<usize>, m: Model) -> Seq<char> {
    match joint {
        Some(i) => if i >= m.joint_names@.len() {
            Seq::empty()
        } else {
            "joint "@ + decimal(i as nat) + " `"@ + m.joint_names@[i as int]@ + "`"@
        },
        None => Seq::empty(),
    }
}

pub open spec fn percent(x: Scalar) -> Scalar {
    fmul(x, Scalar { bits: HUNDRED_BITS })
}

pub open spec fn or_zero(x: Option<Scalar>) -> Scalar {
    match x {
        Some(s) => s,
        None => Scalar { bits: 0 },
    }
}

fn given(x: Option<Scalar>) -> (r: Scalar)
    ensures
        r == or_zero(x),
{
    match x {
        Some(s) => s,
        None => Scalar { bits: 0 },
    }
}

fn in_percent(x: Scalar) -> (r: Scalar)
    ensures
        r == percent(x),
{
    x.mul(Scalar { bits: HUNDRED_BITS })
}

/// What a finding says.
pub open spec fn message_of(f: Finding, m: Model, o: LintOptions) -> Seq<char> {
    let t = or_zero(f.time);
    let v = or_zero(f.value);
    match f.detail {
        Detail::Position { lo, hi } => who(f.joint, m)
            + ": position limit violated by "@
            + fixed(fneg(v), 4)
            + " "@
            + unit_of(f.joint, m, 0)
            + " at t="@
            + fixed(t, 3)
            + " s (limits ["@
            + fixed(lo, 4)
            + ", "@
            + fixed(hi, 4)
            + "])"@,
        Detail::Velocity { peak, limit } => who(f.joint, m)
            + ": velocity limit exceeded: max |qd| "@
            + fixed(peak, 4)
            + " "@
            + unit_of(f.joint, m, 1)
            + " vs vmax "@
            + fixed(limit, 4)
            + " ("@
            + fixed(percent(v), 1)
            + "% at t="@
            + fixed(t, 3)
            + " s)"@,
        Detail::Acceleration { peak, limit } => who(f.joint, m)
            + ": acceleration limit exceeded: max |qdd| "@
            + fixed(peak, 4)
            + " "@
            + unit_of(f.joint, m, 2)
            + " vs amax "@
            + fixed(limit, 4)
            + " ("@
            + fixed(percent(v), 1)
            + "% at t="@
            + fixed(t, 3)
            + " s)"@,
        Detail::Dwell { margin } => who(f.joint, m)
            + ": within "@
            + fixed(o.near_limit_margin, 3)
            + " "@
            + unit_of(f.joint, m, 0)
            + " of a position limit for "@
            + fixed(percent(v), 1)
            + "% of samples (> "@
            + fixed(percent(o.near_limit_dwell_frac), 1)
            + "% allowed); tightest margin "@
            + fixed(margin, 4)
            + " at t="@
            + fixed(t, 3)
            + " s"@,
        Detail::Detour { travel, net, excursion } => who(f.joint, m)
            + ": travels "@
            + fixed(travel, 4)
            + " "@
            + unit_of(f.joint, m, 0)
            + " for a net change of "@
            + fixed(net, 4)
            + " "@
            + unit_of(f.joint, m, 0)
            + " (ratio "@
            + fixed(v, 1)
            + " > "@
            + fixed(o.travel_ratio_max, 1)
            + ") — wrap-around detour; peak excursion "@
            + fixed(excursion, 4)
            + " "@
            + unit_of(f.joint, m, 0)
            + " at t="@
            + fixed(t, 3)
            + " s"@,
        Detail::Jerk { threshold } => who(f.joint, m)
            + ": jerk spike "@
            + fixed(v, 4)
            + " "@
            + unit_of(f.joint, m, 3)
            + " at t="@
            + fixed(t, 3)
            + " s exceeds "@
            + fixed(o.jerk_spike_ratio, 1)
            + " x jmax = "@
            + fixed(threshold, 4)
            + " "@
            + unit_of(f.joint, m, 3),
        Detail::Corridor { from, to } => "singular corridor: σ_min falls to "@
            + scientific(v, 4)
            + " (< "@
            + scientific(o.sigma_min_threshold, 4)
            + ") between t="@
            + fixed(from, 3)
            + " s and t="@
            + fixed(to, 3)
            + " s (worst at t="@
            + fixed(t, 3)
            + " s)"@,
    }
}

impl Finding {
    fn unit(&self, m: &Model, order: u8) -> (r: &'static str)
        ensures
            r@ == unit_of(self.joint, *m, order as int),
    {
        let i: usize = match self.joint {
            Some(i) => i,
            None => {
                return "";
            },
        };
        if i >= m.kind.len() {
            return "";
        }
        match m.kind[i] {
            JointKind::Revolute => match order {
                0 => "rad",
                1 => "rad/s",
                2 => "rad/s^2",
                _ => "rad/s^3",
            },
            JointKind::Prismatic => match order {
                0 => "m",
                1 => "m/s",
                2 => "m/s^2",
                _ => "m/s^3",
            },
        }
    }

    fn who(&self, m: &Model) -> (r: Vec<char>)
        ensures
            r@ == who(self.joint, *m),
    {
        let mut out: Vec<char> = Vec::new();
        if let Some(i) = self.joint {
            if i < m.joint_names.len() {
                push_lit(&mut out, "joint ");
                push_text(&mut out, &decimal_text(i as u128));
                push_lit(&mut out, " `");
                push_text(&mut out, &chars_of(m.joint_names[i].as_str()));
                push_lit(&mut out, "`");
                assert(out@ =~= who(self.joint, *m));
            }
        }
        out
    }

    /// What it says.
    pub fn message(&self, m: &Model, o: &LintOptions) -> (r: String)
        ensures
            r@ == message_of(*self, *m, *o),
    {
        let t = given(self.time);
        let v = given(self.value);
        let who = self.who(m);
        let mut out: Vec<char> = Vec::new();
        match self.detail {
            Detail::Position { lo, hi } => {
                push_text(&mut out, &who);
                push_lit(&mut out, ": position limit violated by ");
                push_text(&mut out, &show_fixed(v.neg(), 4));
                push_lit(&mut out, " ");
                push_lit(&mut out, self.unit(m, 0));
                push_lit(&mut out, " at t=");
                push_text(&mut out, &show_fixed(t, 3));
                push_lit(&mut out, " s (limits [");
                push_text(&mut out, &show_fixed(lo, 4));
                push_lit(&mut out, ", ");
                push_text(&mut out, &show_fixed(hi, 4));
                push_lit(&mut out, "])");
            },
            Detail::Velocity { peak, limit } => {
                push_text(&mut out, &who);
                push_lit(&mut out, ": velocity limit exceeded: max |qd| ");
                push_text(&mut out, &show_fixed(peak, 4));
                push_lit(&mut out, " ");
                push_lit(&mut out, self.unit(m, 1));
                push_lit(&mut out, " vs vmax ");
                push_text(&mut out, &show_fixed(limit, 4));
                push_lit(&mut out, " (");
                push_text(&mut out, &show_fixed(in_percent(v), 1));
                push_lit(&mut out, "% at t=");
                push_text(&mut out, &show_fixed(t, 3));
                push_lit(&mut out, " s)");
            },
            Detail::Acceleration { peak, limit } => {
                push_text(&mut out, &who);
                push_lit(&mut out, ": acceleration limit exceeded: max |qdd| ");
                push_text(&mut out, &show_fixed(peak, 4));
                push_lit(&mut out, " ");
                push_lit(&mut out, self.unit(m, 2));
                push_lit(&mut out, " vs amax ");
                push_text(&mut out, &show_fixed(limit, 4));
                push_lit(&mut out, " (");
                push_text(&mut out, &show_fixed(in_percent(v), 1));
                push_lit(&mut out, "% at t=");
                push_text(&mut out, &show_fixed(t, 3));
                push_lit(&mut out, " s)");
            },
            Detail::Dwell { margin } => {
                push_text(&mut out, &who);
                push_lit(&mut out, ": within ");
                push_text(&mut out, &show_fixed(o.near_limit_margin, 3));
                push_lit(&mut out, " ");
                push_lit(&mut out, self.unit(m, 0));
                push_lit(&mut out, " of a position limit for ");
                push_text(&mut out, &show_fixed(in_percent(v), 1));
                push_lit(&mut out, "% of samples (> ");
                push_text(&mut out, &show_fixed(in_percent(o.near_limit_dwell_frac), 1));
                push_lit(&mut out, "% allowed); tightest margin ");
                push_text(&mut out, &show_fixed(margin, 4));
                push_lit(&mut out, " at t=");
                push_text(&mut out, &show_fixed(t, 3));
                push_lit(&mut out, " s");
            },
            Detail::Detour { travel, net, excursion } => {
                push_text(&mut out, &who);
                push_lit(&mut out, ": travels ");
                push_text(&mut out, &show_fixed(travel, 4));
                push_lit(&mut out, " ");
                push_lit(&mut out, self.unit(m, 0));
                push_lit(&mut out, " for a net change of ");
                push_text(&mut out, &show_fixed(net, 4));
                push_lit(&mut out, " ");
                push_lit(&mut out, self.unit(m, 0));
                push_lit(&mut out, " (ratio ");
                push_text(&mut out, &show_fixed(v, 1));
                push_lit(&mut out, " > ");
                push_text(&mut out, &show_fixed(o.travel_ratio_max, 1));
                push_lit(&mut out, ") — wrap-around detour; peak excursion ");
                push_text(&mut out, &show_fixed(excursion, 4));
                push_lit(&mut out, " ");
                push_lit(&mut out, self.unit(m, 0));
                push_lit(&mut out, " at t=");
                push_text(&mut out, &show_fixed(t, 3));
                push_lit(&mut out, " s");
            },
            Detail::Jerk { threshold } => {
                push_text(&mut out, &who);
                push_lit(&mut out, ": jerk spike ");
                push_text(&mut out, &show_fixed(v, 4));
                push_lit(&mut out, " ");
                push_lit(&mut out, self.unit(m, 3));
                push_lit(&mut out, " at t=");
                push_text(&mut out, &show_fixed(t, 3));
                push_lit(&mut out, " s exceeds ");
                push_text(&mut out, &show_fixed(o.jerk_spike_ratio, 1));
                push_lit(&mut out, " x jmax = ");
                push_text(&mut out, &show_fixed(threshold, 4));
                push_lit(&mut out, " ");
                push_lit(&mut out, self.unit(m, 3));
            },
            Detail::Corridor { from, to } => {
                push_lit(&mut out, "singular corridor: σ_min falls to ");
                push_text(&mut out, &show_scientific(v, 4));
                push_lit(&mut out, " (< ");
                push_text(&mut out, &show_scientific(o.sigma_min_threshold, 4));
                push_lit(&mut out, ") between t=");
                push_text(&mut out, &show_fixed(from, 3));
                push_lit(&mut out, " s and t=");
                push_text(&mut out, &show_fixed(to, 3));
                push_lit(&mut out, " s (worst at t=");
                push_text(&mut out, &show_fixed(t, 3));
                push_lit(&mut out, " s)");
            },
        }
        assert(out@ =~= message_of(*self, *m, *o));
        string_of(&out)
    }
}

/// Every finding says something.
pub proof fn law_findings_say_something(f: Finding, m: Model, o: LintOptions)
    ensures
        message_of(f, m, o).len() > 0,
{
    reveal_strlit(": position limit violated by ");
    reveal_strlit(": velocity limit exceeded: max |qd| ");
    reveal_strlit(": acceleration limit exceeded: max |qdd| ");
    reveal_strlit(": within ");
    reveal_strlit(": travels ");
    reveal_strlit(": jerk spike ");
    reveal_strlit("singular corridor: σ_min falls to ");
}

} // verus!
