//! Dynamixel Protocol 2.0: the packet codec, and a backend whose bus is not bound.

use vstd::prelude::*;

use crate::hal::backend::{
    check_finite, check_len, copy_scalars, zeros, ControlMode, JointState, RobotBackend,
};
#[allow(unused_imports)]
use crate::hal::backend::zero_seq;
use crate::hal::bytes::{push_bytes, residue32, wrapped32};
#[allow(unused_imports)]
use crate::hal::bytes::{le_bytes, lemma_le4, lemma_le_len, residue, wrap32};
use crate::hal::can_mks::{PI_BITS, TWO_BITS, TWO_PI_BITS};
#[allow(unused_imports)]
use crate::hal::can_mks::{command_fault, BusState};
use crate::hal::crc::crc;
#[allow(unused_imports)]
use crate::hal::crc::{crc_of, law_crc_detects_one_byte};
use crate::hal::error::Error;
#[allow(unused_imports)]
use crate::hal::error::ErrorV;
#[allow(unused_imports)]
use crate::scalar::convert::{bounded, from_int, round_int, saturated};
#[allow(unused_imports)]
use crate::scalar::number::{fdiv, fmul};
use crate::scalar::Scalar;

verus! {

/// Ticks of one revolution.
pub const DXL_TICKS_PER_REV: i64 = 4096;

pub const ADDR_TORQUE_ENABLE: u16 = 64;

pub const ADDR_GOAL_POSITION: u16 = 116;

pub const ADDR_PRESENT_POSITION: u16 = 132;

pub const INST_READ: u8 = 0x02;

pub const INST_WRITE: u8 = 0x03;

pub const INST_SYNC_WRITE: u8 = 0x83;

pub const BROADCAST_ID: u8 = 0xFE;

/// Largest parameter block that the length field can describe.
pub const MAX_PARAMS: usize = 65532;

/// The CRC of the protocol: polynomial `0x8005`, register zero.
pub open spec fn dxl_crc(data: Seq<u8>) -> u16 {
    crc_of(data, 0, 0x8005)
}

/// Header, id, length, instruction and parameters. The length counts the
/// parameters, the instruction and the CRC.
pub open spec fn packet_head(id: u8, instruction: u8, params: Seq<u8>) -> Seq<u8> {
    seq![0xFFu8, 0xFF, 0xFD, 0x00, id] + le_bytes(params.len() + 3, 2) + seq![instruction] + params
}

/// A whole packet: the CRC follows, low byte first.
pub open spec fn packet(id: u8, instruction: u8, params: Seq<u8>) -> Seq<u8> {
    let head = packet_head(id, instruction, params);
    head + le_bytes(dxl_crc(head) as nat, 2)
}

/// The parameters as far as the length field reaches.
pub open spec fn capped_params(params: Seq<u8>) -> Seq<u8> {
    if params.len() > MAX_PARAMS {
        params.take(MAX_PARAMS as int)
    } else {
        params
    }
}

/// The last two bytes are the CRC of the others.
pub open spec fn packet_checks(p: Seq<u8>) -> bool {
    p.len() >= 2 && p.subrange(p.len() - 2, p.len() as int) == le_bytes(
        dxl_crc(p.subrange(0, p.len() - 2)) as nat,
        2,
    )
}

/// Half of `t`, cut towards zero.
pub open spec fn half_of(t: int) -> int {
    if t >= 0 {
        t / 2
    } else {
        -((-t) / 2)
    }
}

/// What a position of `rad` radians is in ticks, zero at half range; saturated.
pub open spec fn ticks_of(rad: Scalar, tpr: int) -> int {
    let p = fmul(fdiv(rad, Scalar { bits: TWO_PI_BITS }), from_int(tpr));
    bounded(
        saturated(p, round_int(p), i64::MIN as int, i64::MAX as int) + half_of(tpr),
        i64::MIN as int,
        i64::MAX as int,
    )
}

/// What `ticks` are in radians.
pub open spec fn tick_angle(ticks: int, tpr: int) -> Scalar {
    fmul(
        fmul(fdiv(from_int(ticks - half_of(tpr)), from_int(tpr)), Scalar { bits: TWO_BITS }),
        Scalar { bits: PI_BITS },
    )
}

/// The parameters of a synchronised goal write: address, width, then one id and
/// goal for each servo.
pub open spec fn sync_params(servos: Seq<(u8, i32)>) -> Seq<u8>
    decreases servos.len(),
{
    if servos.len() == 0 {
        le_bytes(ADDR_GOAL_POSITION as nat, 2) + seq![4u8, 0]
    } else {
        sync_params(servos.drop_last()) + seq![servos.last().0] + le_bytes(
            residue(servos.last().1 as int, 0x1_0000_0000),
            4,
        )
    }
}

/// The CRC of some bytes.
pub fn crc16(data: &[u8]) -> (r: u16)
    ensures
        r == dxl_crc(data@),
{
    crc(data, 0, 0x8005)
}

proof fn lemma_le2(v: nat)
    ensures
        le_bytes(v, 2) == seq![(v % 256) as u8, ((v / 256) % 256) as u8],
{
    reveal_with_fuel(le_bytes, 3);
    assert(le_bytes(v, 2) =~= seq![(v % 256) as u8, ((v / 256) % 256) as u8]);
}

fn push_le2(out: &mut Vec<u8>, v: u16)
    ensures
        final(out)@ == old(out)@ + le_bytes(v as nat, 2),
{
    let ghost start = out@;
    proof {
        lemma_le2(v as nat);
    }
    out.push((v % 256) as u8);
    out.push((v / 256) as u8);
    assert(out@ =~= start + le_bytes(v as nat, 2));
}

fn push_le4(out: &mut Vec<u8>, v: i32)
    ensures
        final(out)@ == old(out)@ + le_bytes(residue(v as int, 0x1_0000_0000), 4),
{
    let ghost start = out@;
    let u = residue32(v);
    proof {
        lemma_le4(u as nat);
    }
    out.push((u % 256) as u8);
    out.push(((u / 256) % 256) as u8);
    out.push(((u / 65536) % 256) as u8);
    out.push(((u / 16777216) % 256) as u8);
    assert(out@ =~= start + le_bytes(u as nat, 4));
}

/// Builds an instruction packet. Parameters past what the length field can
/// describe are cut off.
pub fn build_packet(id: u8, instruction: u8, params: &[u8]) -> (r: Vec<u8>)
    ensures
        r@ == packet(id, instruction, capped_params(params@)),
{
    let n: usize = if params.len() > MAX_PARAMS {
        MAX_PARAMS
    } else {
        params.len()
    };
    let body = vstd::slice::slice_subrange(params, 0, n);
    assert(body@ =~= capped_params(params@));
    let len: u16 = (n + 3) as u16;
    let mut pkt: Vec<u8> = Vec::new();
    pkt.push(0xFF);
    pkt.push(0xFF);
    pkt.push(0xFD);
    pkt.push(0x00);
    pkt.push(id);
    assert(pkt@ =~= seq![0xFFu8, 0xFF, 0xFD, 0x00, id]);
    push_le2(&mut pkt, len);
    pkt.push(instruction);
    push_bytes(&mut pkt, body);
    assert(pkt@ =~= packet_head(id, instruction, body@));
    let c = crc16(pkt.as_slice());
    push_le2(&mut pkt, c);
    pkt
}

/// Half of `t`, cut towards zero.
fn half(t: i64) -> (r: i64)
    ensures
        r == half_of(t as int),
{
    if t >= 0 {
        t / 2
    } else {
        let m: u128 = (-(t as i128)) as u128 / 2;
        -(m as i64)
    }
}

/// Radians to ticks.
pub fn rad_to_ticks(rad: Scalar, tpr: i64) -> (r: i64)
    ensures
        r == ticks_of(rad, tpr as int),
{
    let t = rad.div(Scalar { bits: TWO_PI_BITS }).mul(Scalar::from_i64(tpr)).round_i64();
    let sum: i128 = (t as i128) + (half(tpr) as i128);
    if sum > i64::MAX as i128 {
        i64::MAX
    } else if sum < i64::MIN as i128 {
        i64::MIN
    } else {
        sum as i64
    }
}

/// Ticks to radians.
pub fn ticks_to_rad(ticks: i64, tpr: i64) -> (r: Scalar)
    requires
        i64::MIN <= ticks - half_of(tpr as int) <= i64::MAX,
    ensures
        r == tick_angle(ticks as int, tpr as int),
{
    Scalar::from_i64(ticks - half(tpr)).div(Scalar::from_i64(tpr)).mul(
        Scalar { bits: TWO_BITS },
    ).mul(Scalar { bits: PI_BITS })
}

/// Pings a servo.
pub fn encode_ping(id: u8) -> (r: Vec<u8>)
    ensures
        r@ == packet(id, 0x01, Seq::empty()),
{
    let params: Vec<u8> = Vec::new();
    assert(capped_params(params@) =~= Seq::empty());
    build_packet(id, 0x01, params.as_slice())
}

/// Switches the torque of a servo on or off.
pub fn encode_torque_enable(id: u8, on: bool) -> (r: Vec<u8>)
    ensures
        r@ == packet(
            id,
            INST_WRITE,
            le_bytes(ADDR_TORQUE_ENABLE as nat, 2) + seq![
                if on {
                    1u8
                } else {
                    0u8
                },
            ],
        ),
{
    let mut params: Vec<u8> = Vec::new();
    push_le2(&mut params, ADDR_TORQUE_ENABLE);
    params.push(
        if on {
            1
        } else {
            0
        },
    );
    proof {
        lemma_le_len(ADDR_TORQUE_ENABLE as nat, 2);
        assert(params@ =~= le_bytes(ADDR_TORQUE_ENABLE as nat, 2) + seq![
            if on {
                1u8
            } else {
                0u8
            },
        ]);
    }
    build_packet(id, INST_WRITE, params.as_slice())
}

/// Writes the goal of one servo.
pub fn encode_goal_position(id: u8, ticks: i32) -> (r: Vec<u8>)
    ensures
        r@ == packet(
            id,
            INST_WRITE,
            le_bytes(ADDR_GOAL_POSITION as nat, 2) + le_bytes(
                residue(ticks as int, 0x1_0000_0000),
                4,
            ),
        ),
{
    let mut params: Vec<u8> = Vec::new();
    push_le2(&mut params, ADDR_GOAL_POSITION);
    push_le4(&mut params, ticks);
    proof {
        lemma_le_len(ADDR_GOAL_POSITION as nat, 2);
        lemma_le_len(residue(ticks as int, 0x1_0000_0000), 4);
        assert(params@ =~= le_bytes(ADDR_GOAL_POSITION as nat, 2) + le_bytes(
            residue(ticks as int, 0x1_0000_0000),
            4,
        ));
    }
    build_packet(id, INST_WRITE, params.as_slice())
}

/// Asks for the present position.
pub fn encode_read_position(id: u8) -> (r: Vec<u8>)
    ensures
        r@ == packet(
            id,
            INST_READ,
            le_bytes(ADDR_PRESENT_POSITION as nat, 2) + seq![4u8, 0],
        ),
{
    let mut params: Vec<u8> = Vec::new();
    push_le2(&mut params, ADDR_PRESENT_POSITION);
    params.push(4);
    params.push(0);
    proof {
        lemma_le_len(ADDR_PRESENT_POSITION as nat, 2);
        assert(params@ =~= le_bytes(ADDR_PRESENT_POSITION as nat, 2) + seq![4u8, 0]);
    }
    build_packet(id, INST_READ, params.as_slice())
}

/// Writes the goals of many servos at once.
pub fn encode_sync_write_goal(servos: &[(u8, i32)]) -> (r: Vec<u8>)
    ensures
        r@ == packet(BROADCAST_ID, INST_SYNC_WRITE, capped_params(sync_params(servos@))),
{
    let mut params: Vec<u8> = Vec::new();
    push_le2(&mut params, ADDR_GOAL_POSITION);
    params.push(4);
    params.push(0);
    assert(params@ =~= sync_params(servos@.take(0)));
    let mut i: usize = 0;
    while i < servos.len()
        invariant
            i <= servos@.len(),
            params@ == sync_params(servos@.take(i as int)),
        decreases servos@.len() - i,
    {
        let (id, ticks) = servos[i];
        proof {
            assert(servos@.take(i + 1).drop_last() =~= servos@.take(i as int));
            assert(servos@.take(i + 1).last() == servos@[i as int]);
        }
        let ghost before = params@;
        params.push(id);
        assert(params@ =~= before + seq![id]);
        push_le4(&mut params, ticks);
        i = i + 1;
    }
    assert(servos@.take(servos@.len() as int) =~= servos@);
    build_packet(BROADCAST_ID, INST_SYNC_WRITE, params.as_slice())
}

/// Every packet that is built passes its own check.
pub proof fn law_built_packets_check(id: u8, instruction: u8, params: Seq<u8>)
    ensures
        packet_checks(packet(id, instruction, params)),
{
    let head = packet_head(id, instruction, params);
    let p = packet(id, instruction, params);
    let tail = le_bytes(dxl_crc(head) as nat, 2);
    lemma_le_len(dxl_crc(head) as nat, 2);
    assert(p.subrange(0, p.len() - 2) =~= head);
    assert(p.subrange(p.len() - 2, p.len() as int) =~= tail);
}

/// A packet with exactly one byte changed fails its check.
pub proof fn law_one_changed_byte_is_caught(good: Seq<u8>, bad: Seq<u8>, k: int)
    requires
        packet_checks(good),
        good.len() == bad.len(),
        0 <= k < good.len(),
        good[k] != bad[k],
        forall|i: int| 0 <= i < good.len() && i != k ==> good[i] == bad[i],
    ensures
        !packet_checks(bad),
{
    let n = good.len() - 2;
    let hg = good.subrange(0, n);
    let hb = bad.subrange(0, n);
    let tg = good.subrange(n, n + 2);
    let tb = bad.subrange(n, n + 2);
    if k >= n {
        assert(hg =~= hb);
        assert(tg[k - n] != tb[k - n]);
    } else {
        assert(0x8005u16 & 1 == 1) by (bit_vector);
        assert forall|i: int| 0 <= i < n && i != k implies hg[i] == hb[i] by {
            assert(good[i] == bad[i]);
        }
        assert(hg[k] != hb[k]);
        law_crc_detects_one_byte(hg, hb, k, 0, 0x8005);
        assert(tg =~= tb);
        let a = dxl_crc(hg) as nat;
        let b = dxl_crc(hb) as nat;
        lemma_le2(a);
        lemma_le2(b);
        if packet_checks(bad) {
            assert(le_bytes(a, 2) == le_bytes(b, 2));
            assert(le_bytes(a, 2)[0] == le_bytes(b, 2)[0]);
            assert(le_bytes(a, 2)[1] == le_bytes(b, 2)[1]);
            assert(a % 256 == b % 256 && (a / 256) % 256 == (b / 256) % 256);
        }
    }
}

/// The length field tells how many bytes follow it.
pub proof fn law_length_field(id: u8, instruction: u8, params: Seq<u8>)
    requires
        params.len() <= MAX_PARAMS,
    ensures
        ({
            let p = packet(id, instruction, params);
            p.len() == 7 + p[5] + 256 * p[6]
        }),
{
    lemma_le2(params.len() + 3);
    lemma_le_len(dxl_crc(packet_head(id, instruction, params)) as nat, 2);
}

/// One servo: its id and its resolution.
#[derive(Clone, Copy, Debug)]
pub struct DxlServo {
    pub id: u8,
    pub tpr: i64,
}

/// Servos on a serial bus that is not bound: commands are validated and encoded,
/// and then refused.
#[derive(Debug)]
pub struct DynamixelBackend {
    servos: Vec<DxlServo>,
    q: Vec<Scalar>,
    enabled: bool,
    estopped: bool,
}

/// The goals of a position command.
pub open spec fn goals(servos: Seq<DxlServo>, q: Seq<Scalar>) -> Seq<(u8, i32)> {
    Seq::new(
        servos.len(),
        |i: int| (servos[i].id, wrap32(ticks_of(q[i], servos[i].tpr as int)) as i32),
    )
}

impl DynamixelBackend {
    pub closed spec fn servo_seq(self) -> Seq<DxlServo> {
        self.servos@
    }

    pub closed spec fn state(self) -> BusState {
        BusState { q: self.q@, enabled: self.enabled, estopped: self.estopped }
    }

    /// One servo per joint.
    pub fn new(servos: Vec<DxlServo>) -> (r: DynamixelBackend)
        ensures
            r.servo_seq() == servos@,
            r.state() == (BusState {
                q: zero_seq(servos@.len()),
                enabled: false,
                estopped: false,
            }),
    {
        let n = servos.len();
        DynamixelBackend { servos, q: zeros(n), enabled: false, estopped: false }
    }

    /// The packet that a position command would send.
    pub fn encode_command(&self, q: &[Scalar]) -> (r: Result<Vec<u8>, Error>)
        ensures
            match r {
                Ok(p) => command_fault(self.servo_seq().len(), q@) is None && p@ == packet(
                    BROADCAST_ID,
                    INST_SYNC_WRITE,
                    capped_params(sync_params(goals(self.servo_seq(), q@))),
                ),
                Err(e) => command_fault(self.servo_seq().len(), q@) == Some(e@),
            },
    {
        match check_len(q.len(), self.servos.len()) {
            Ok(_) => {},
            Err(e) => {
                return Err(e);
            },
        }
        match check_finite("q", q) {
            Ok(_) => {},
            Err(e) => {
                return Err(e);
            },
        }
        let ghost want = goals(self.servos@, q@);
        let mut out: Vec<(u8, i32)> = Vec::new();
        let mut i: usize = 0;
        while i < self.servos.len()
            invariant
                i <= self.servos.len(),
                q@.len() == self.servos.len(),
                out.len() == i,
                want == goals(self.servos@, q@),
                forall|k: int| 0 <= k < i ==> #[trigger] out@[k] == want[k],
            decreases self.servos.len() - i,
        {
            let s = self.servos[i];
            let t = rad_to_ticks(q[i], s.tpr);
            out.push((s.id, wrapped32(t)));
            i = i + 1;
        }
        assert(out@ =~= want);
        Ok(encode_sync_write_goal(out.as_slice()))
    }
}

impl DynamixelBackend {
    /// Number of joints.
    pub closed spec fn joints(&self) -> nat {
        self.servos@.len()
    }
}

impl RobotBackend for DynamixelBackend {
    fn dof(&self) -> (r: usize)
        ensures
            r == self.joints(),
    {
        self.servos.len()
    }

    fn joint_positions(&self) -> (r: Vec<Scalar>)
        ensures
            r@ == self.state().q,
    {
        copy_scalars(self.q.as_slice())
    }

    fn is_enabled(&self) -> (r: bool)
        ensures
            r == self.state().enabled,
    {
        self.enabled
    }

    fn is_estopped(&self) -> (r: bool)
        ensures
            r == self.state().estopped,
    {
        self.estopped
    }

    fn estop(&mut self) -> (r: Result<(), Error>)
        ensures
            r is Ok,
            final(self).state() == (BusState { enabled: false, estopped: true, ..old(self).state() }),
            final(self).servo_seq() == old(self).servo_seq(),
    {
        self.estopped = true;
        self.enabled = false;
        Ok(())
    }

    fn clear_estop(&mut self) -> (r: Result<(), Error>)
        ensures
            r is Ok,
            final(self).state() == (BusState { estopped: false, ..old(self).state() }),
            final(self).servo_seq() == old(self).servo_seq(),
    {
        self.estopped = false;
        Ok(())
    }

    fn enable(&mut self) -> (r: Result<(), Error>)
        ensures
            r matches Err(e) && e@ == ErrorV::HardwareRequired(
                "Dynamixel serial bus not connected"@,
            ),
            *final(self) == *old(self),
    {
        Err(Error::HardwareRequired("Dynamixel serial bus not connected"))
    }

    fn disable(&mut self) -> (r: Result<(), Error>)
        ensures
            r matches Err(e) && e@ == ErrorV::HardwareRequired(
                "Dynamixel serial bus not connected"@,
            ),
            *final(self) == *old(self),
    {
        Err(Error::HardwareRequired("Dynamixel serial bus not connected"))
    }

    fn command_joint_positions(&mut self, q: &[Scalar]) -> (r: Result<(), Error>)
        ensures
            r matches Err(e) && e@ == (match command_fault(old(self).servo_seq().len(), q@) {
                Some(f) => f,
                None => ErrorV::HardwareRequired("Dynamixel serial bus not connected"@),
            }),
            *final(self) == *old(self),
    {
        match self.encode_command(q) {
            Ok(_) => Err(Error::HardwareRequired("Dynamixel serial bus not connected")),
            Err(e) => Err(e),
        }
    }

    fn read_state(&mut self) -> (r: Result<JointState, Error>)
        ensures
            r matches Err(e) && e@ == ErrorV::HardwareRequired(
                "Dynamixel serial bus not connected"@,
            ),
            *final(self) == *old(self),
    {
        Err(Error::HardwareRequired("Dynamixel serial bus not connected"))
    }

    fn mode(&self) -> (r: ControlMode)
        ensures
            r == ControlMode::Position,
    {
        ControlMode::Position
    }
}

} // verus!
