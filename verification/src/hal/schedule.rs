//! Which pose of a script is shown when, what a trajectory asks for when, and what the words
//! on the bus count.

use vstd::prelude::*;

#[allow(unused_imports)]
use crate::hal::bytes::{be_bytes, be_value, lemma_be_round_trip, pow256, residue};
#[allow(unused_imports)]
use crate::hal::can_mks::{clamped24, position_body, reply_pulses, MKS_PULSES_PER_REV, POS_24_MAX};
#[allow(unused_imports)]
use crate::hal::setpoint::target_on;
#[allow(unused_imports)]
use crate::hal::teleop::script_index;
#[allow(unused_imports)]
use crate::motion::trajectory::TrajV;
#[allow(unused_imports)]
use crate::scalar::number::{fle, flt};
#[allow(unused_imports)]
use crate::scalar::Scalar;

verus! {

/// Each pose of a script is held for as many ticks as it should be, one after the other.
pub proof fn law_poses_are_held_in_turn(n: nat, hold: nat, wrap: bool, tick: nat)
    requires
        hold > 0,
        tick < n * hold,
    ensures
        ({
            let i = script_index(n, hold, wrap, tick);
            i * hold <= tick < (i + 1) * hold
        }),
{
    vstd::arithmetic::div_mod::lemma_fundamental_div_mod(tick as int, hold as int);
    let d = (tick / hold) as int;
    assert(d * hold <= tick < (d + 1) * hold) by (nonlinear_arith)
        requires
            tick == hold * d + (tick as int) % (hold as int),
            0 <= (tick as int) % (hold as int) < hold,
    ;
    assert(d < n) by (nonlinear_arith)
        requires
            d * hold <= tick,
            tick < n * hold,
            hold > 0,
    ;
    vstd::arithmetic::div_mod::lemma_small_mod(d as nat, n);
}

/// A script that wraps starts over after all of its poses; one that does not stays at its last.
pub proof fn law_scripts_start_over_or_stay(n: nat, hold: nat, tick: nat)
    requires
        n > 0,
        hold > 0,
    ensures
        script_index(n, hold, true, tick + n * hold) == script_index(n, hold, true, tick),
        script_index(n, hold, false, tick + n * hold) == n - 1,
{
    vstd::arithmetic::div_mod::lemma_hoist_over_denominator(tick as int, n as int, hold);
    let d = (tick / hold) as int;
    vstd::arithmetic::div_mod::lemma_mod_add_multiples_vanish(d, n as int);
    assert(d >= 0) by {
        vstd::arithmetic::div_mod::lemma_div_pos_is_pos(tick as int, hold as int);
    }
}

/// Up to its end a trajectory asks for what it holds then. After it, where it is to be held, it
/// goes on asking for what it held at its end, and else for nothing.
pub proof fn law_ends_are_held_or_left(traj: TrajV, hold_after: bool, t: Scalar)
    requires
        traj.duration.finite() && t.finite(),
    ensures
        target_on(traj, hold_after, t) is None <==> flt(traj.duration, t) && !hold_after,
        flt(traj.duration, t) && hold_after ==> target_on(traj, hold_after, t) == target_on(
            traj,
            hold_after,
            traj.duration,
        ),
        fle(t, traj.duration) ==> target_on(traj, hold_after, t) == target_on(traj, !hold_after, t),
{
}

/// A reply counts whole turns, either way, and what is beyond them.
pub proof fn law_replies_count_turns(data: Seq<u8>, turns: int, rest: nat)
    requires
        data.len() == 8,
        -0x8000_0000 <= turns < 0x8000_0000,
        rest < 0x1_0000,
        data.subrange(1, 5) == be_bytes(residue(turns, 0x1_0000_0000), 4),
        data.subrange(5, 7) == be_bytes(rest, 2),
    ensures
        reply_pulses(data) == turns * 16384 + rest,
{
    reveal_with_fuel(pow256, 5);
    let r = residue(turns, 0x1_0000_0000);
    assert(r == if turns >= 0 {
        turns
    } else {
        turns + 0x1_0000_0000
    }) by {
        if turns >= 0 {
            vstd::arithmetic::div_mod::lemma_small_mod(turns as nat, 0x1_0000_0000);
        } else {
            vstd::arithmetic::div_mod::lemma_fundamental_div_mod_converse(
                turns,
                0x1_0000_0000,
                -1,
                turns + 0x1_0000_0000,
            );
        }
    }
    lemma_be_round_trip(r, 4);
    lemma_be_round_trip(rest, 2);
    assert(MKS_PULSES_PER_REV == 16384);
}

/// The last bytes of a command hold the pulses that it asks for, either way, as far as they go.
pub proof fn law_commands_hold_the_pulses(pulses: int, speed: nat, accel: u8)
    requires
        speed < 0x1_0000,
    ensures
        ({
            let body = position_body(pulses, speed, accel);
            let v = be_value(body.subrange(4, 7)) as int;
            let asked = if v >= 0x80_0000 {
                v - 0x100_0000
            } else {
                v
            };
            &&& body.len() == 7
            &&& be_value(body.subrange(1, 3)) == speed
            &&& body[3] == accel
            &&& -0x7F_FFFF <= pulses <= 0x7F_FFFF ==> asked == pulses
            &&& pulses > 0x7F_FFFF ==> asked == 0x7F_FFFF
            &&& pulses < -0x7F_FFFF ==> asked == -0x7F_FFFF
        }),
{
    reveal_with_fuel(pow256, 4);
    assert(POS_24_MAX == 0x7F_FFFF);
    let c = clamped24(pulses);
    let r = residue(c, 0x100_0000);
    assert(r == if c >= 0 {
        c
    } else {
        c + 0x100_0000
    }) by {
        if c >= 0 {
            vstd::arithmetic::div_mod::lemma_small_mod(c as nat, 0x100_0000);
        } else {
            vstd::arithmetic::div_mod::lemma_fundamental_div_mod_converse(
                c,
                0x100_0000,
                -1,
                c + 0x100_0000,
            );
        }
    }
    lemma_be_round_trip(r, 3);
    lemma_be_round_trip(speed, 2);
    let body = position_body(pulses, speed, accel);
    assert(body.subrange(4, 7) == be_bytes(r, 3));
    assert(body.subrange(1, 3) == be_bytes(speed, 2));
}

} // verus!
