//! MKS SERVO42D/57D motors over CAN: the frame codec, and a backend whose bus is
//! not bound.

use vstd::prelude::*;

use crate::hal::backend::{
    check_finite, check_len, copy_scalars, zeros, ControlMode, JointState, RobotBackend,
};
#[allow(unused_imports)]
use crate::hal::backend::{all_finite, zero_seq};
use crate::hal::bytes::wrapped32;
#[allow(unused_imports)]
use crate::hal::bytes::{be_bytes, be_value, residue, wrap32};
use crate::hal::error::{backend_error, Error};
#[allow(unused_imports)]
use crate::hal::error::ErrorV;
#[allow(unused_imports)]
use crate::scalar::convert::{from_int, round_int, saturated};
#[allow(unused_imports)]
use crate::scalar::number::{fdiv, fmul};
use crate::scalar::Scalar;

verus! {

/// Encoder pulses of one revolution.
pub const MKS_PULSES_PER_REV: i64 = 16384;

/// Largest position that 24 signed bits hold.
pub const POS_24_MAX: i32 = 0x7F_FF_FF;

/// Bits of two pi, of two, and of pi.
pub const TWO_PI_BITS: u64 = 0x4019_21FB_5444_2D18;

pub const TWO_BITS: u64 = 0x4000_0000_0000_0000;

pub const PI_BITS: u64 = 0x4009_21FB_5444_2D18;

/// A CAN frame: an 11-bit id and the data, whose last byte is the checksum.
#[derive(Clone, Debug, PartialEq, Eq)]
pub struct MksFrame {
    pub id: u16,
    pub data: Vec<u8>,
}

/// Sum of some bytes.
pub open spec fn byte_sum(s: Seq<u8>) -> nat
    decreases s.len(),
{
    if s.len() == 0 {
        0
    } else {
        byte_sum(s.drop_last()) + s.last() as nat
    }
}

/// `(id + sum of the body)`, modulo 256.
pub open spec fn checksum(id: nat, body: Seq<u8>) -> u8 {
    ((id + byte_sum(body)) % 256) as u8
}

/// The body with its checksum behind it.
pub open spec fn framed(id: nat, body: Seq<u8>) -> Seq<u8> {
    body.push(checksum(id, body))
}

/// The last byte is the checksum of the others.
pub open spec fn checks(id: nat, data: Seq<u8>) -> bool {
    data.len() > 0 && data.last() == checksum(id, data.drop_last())
}

/// `v` brought into the 24-bit range.
pub open spec fn clamped24(v: int) -> int {
    if v < -POS_24_MAX {
        -POS_24_MAX as int
    } else if v > POS_24_MAX {
        POS_24_MAX as int
    } else {
        v
    }
}

/// The body of a position move: speed, acceleration, 24-bit position.
pub open spec fn position_body(pulses: int, speed: nat, accel: u8) -> Seq<u8> {
    seq![0xF5u8] + be_bytes(speed, 2) + seq![accel] + be_bytes(
        residue(clamped24(pulses), 0x100_0000),
        3,
    )
}

/// What a position of `rad` radians is in pulses: rounded, saturated.
pub open spec fn pulses_of(rad: Scalar, ppr: int) -> int {
    let p = fmul(fdiv(rad, Scalar { bits: TWO_PI_BITS }), from_int(ppr));
    saturated(p, round_int(p), i64::MIN as int, i64::MAX as int)
}

/// What `p` pulses are in radians.
pub open spec fn pulse_angle(p: int, ppr: int) -> Scalar {
    fmul(
        fmul(fdiv(from_int(p), from_int(ppr)), Scalar { bits: TWO_BITS }),
        Scalar { bits: PI_BITS },
    )
}

/// A reply to the encoder query that can be trusted.
pub open spec fn good_reply(id: nat, data: Seq<u8>) -> bool {
    data.len() == 8 && data[0] == 0x30 && checks(id, data)
}

/// The 32-bit two's complement value of four bytes, most significant first.
pub open spec fn signed_value(s: Seq<u8>) -> int {
    if be_value(s) >= 0x8000_0000 {
        be_value(s) - 0x1_0000_0000
    } else {
        be_value(s) as int
    }
}

/// Whole revolutions times the resolution, plus the position in the revolution.
pub open spec fn reply_pulses(data: Seq<u8>) -> int {
    signed_value(data.subrange(1, 5)) * MKS_PULSES_PER_REV + be_value(data.subrange(5, 7))
}

/// The checksum of a body.
pub fn mks_checksum(id: u16, body: &[u8]) -> (r: u8)
    ensures
        r == checksum(id as nat, body@),
{
    let mut s: u32 = (id % 256) as u32;
    let mut i: usize = 0;
    while i < body.len()
        invariant
            i <= body@.len(),
            s < 256,
            s == (id + byte_sum(body@.take(i as int))) % 256,
        decreases body@.len() - i,
    {
        s = (s + body[i] as u32) % 256;
        i = i + 1;
        assert(body@.take(i as int).drop_last() =~= body@.take(i - 1));
    }
    assert(body@.take(body@.len() as int) =~= body@);
    s as u8
}

impl MksFrame {
    fn with_checksum(id: u16, body: Vec<u8>) -> (r: MksFrame)
        ensures
            r.id == id,
            r.data@ == framed(id as nat, body@),
    {
        let crc = mks_checksum(id, body.as_slice());
        let mut data = body;
        data.push(crc);
        MksFrame { id, data }
    }

    /// The command byte.
    pub fn command(&self) -> (r: Option<u8>)
        ensures
            r == (if self.data@.len() > 0 {
                Some(self.data@[0])
            } else {
                None
            }),
    {
        if self.data.len() > 0 {
            Some(self.data[0])
        } else {
            None
        }
    }

    /// Whether the checksum is right.
    pub fn checksum_ok(&self) -> (r: bool)
        ensures
            r == checks(self.id as nat, self.data@),
    {
        data_checks(self.id, self.data.as_slice())
    }
}

fn data_checks(id: u16, data: &[u8]) -> (r: bool)
    ensures
        r == checks(id as nat, data@),
{
    let n = data.len();
    if n == 0 {
        return false;
    }
    let body = vstd::slice::slice_subrange(data, 0, n - 1);
    assert(data@.subrange(0, n - 1) =~= data@.drop_last());
    mks_checksum(id, body) == data[n - 1]
}

/// Radians to pulses.
pub fn rad_to_pulses(rad: Scalar, ppr: i64) -> (r: i64)
    ensures
        r == pulses_of(rad, ppr as int),
{
    rad.div(Scalar { bits: TWO_PI_BITS }).mul(Scalar::from_i64(ppr)).round_i64()
}

/// Pulses to radians.
pub fn pulses_to_rad(p: i64, ppr: i64) -> (r: Scalar)
    ensures
        r == pulse_angle(p as int, ppr as int),
{
    Scalar::from_i64(p).div(Scalar::from_i64(ppr)).mul(Scalar { bits: TWO_BITS }).mul(
        Scalar { bits: PI_BITS },
    )
}

/// Switches a motor on or off.
pub fn encode_enable(id: u16, enable: bool) -> (r: MksFrame)
    ensures
        r.id == id,
        r.data@ == framed(
            id as nat,
            seq![
                0xF3u8,
                if enable {
                    1u8
                } else {
                    0u8
                },
            ],
        ),
{
    let mut body: Vec<u8> = Vec::new();
    body.push(0xF3);
    body.push(
        if enable {
            1
        } else {
            0
        },
    );
    assert(body@ =~= seq![
        0xF3u8,
        if enable {
            1u8
        } else {
            0u8
        },
    ]);
    MksFrame::with_checksum(id, body)
}

proof fn lemma_be3(v: nat)
    ensures
        be_bytes(v, 3) == seq![
            ((v / 65536) % 256) as u8,
            ((v / 256) % 256) as u8,
            (v % 256) as u8,
        ],
{
    reveal_with_fuel(be_bytes, 4);
    assert(v / 256 / 256 == v / 65536);
    assert(be_bytes(v, 3) =~= seq![
        ((v / 65536) % 256) as u8,
        ((v / 256) % 256) as u8,
        (v % 256) as u8,
    ]);
}

/// Moves to an absolute position.
pub fn encode_set_position(id: u16, pulses: i32, speed: u16, accel: u8) -> (r: MksFrame)
    ensures
        r.id == id,
        r.data@ == framed(id as nat, position_body(pulses as int, speed as nat, accel)),
{
    let p: i32 = if pulses < -POS_24_MAX {
        -POS_24_MAX
    } else if pulses > POS_24_MAX {
        POS_24_MAX
    } else {
        pulses
    };
    let u: u32 = if p >= 0 {
        p as u32
    } else {
        (p + 0x100_0000) as u32
    };
    let mut body: Vec<u8> = Vec::new();
    body.push(0xF5);
    body.push((speed / 256) as u8);
    body.push((speed % 256) as u8);
    body.push(accel);
    body.push((u / 65536) as u8);
    body.push(((u / 256) % 256) as u8);
    body.push((u % 256) as u8);
    proof {
        assert(u == residue(clamped24(pulses as int), 0x100_0000));
        crate::hal::bytes::lemma_be2(speed as nat);
        lemma_be3(u as nat);
        assert(body@ =~= position_body(pulses as int, speed as nat, accel));
    }
    MksFrame::with_checksum(id, body)
}

/// Asks for the encoder.
pub fn encode_read_encoder(id: u16) -> (r: MksFrame)
    ensures
        r.id == id,
        r.data@ == framed(id as nat, seq![0x30u8]),
{
    let mut body: Vec<u8> = Vec::new();
    body.push(0x30);
    assert(body@ =~= seq![0x30u8]);
    MksFrame::with_checksum(id, body)
}

proof fn lemma_value2(a: u8, b: u8)
    ensures
        be_value(seq![a, b]) == a * 256 + b,
{
    let s = seq![a, b];
    reveal_with_fuel(be_value, 3);
    assert(s.drop_last() =~= seq![a]);
    assert(seq![a].drop_last() =~= Seq::<u8>::empty());
}

proof fn lemma_value4(a: u8, b: u8, c: u8, d: u8)
    ensures
        be_value(seq![a, b, c, d]) == ((a * 256 + b) * 256 + c) * 256 + d,
{
    lemma_value2(a, b);
    let s = seq![a, b, c, d];
    assert(s.drop_last() =~= seq![a, b, c]);
    assert(seq![a, b, c].drop_last() =~= seq![a, b]);
    assert(be_value(seq![a, b, c]) == be_value(seq![a, b]) * 256 + c);
}

/// Reads a reply to the encoder query. `id` is the id it came in on.
pub fn decode_encoder_reply(id: u16, data: &[u8]) -> (r: Result<i64, Error>)
    ensures
        match r {
            Ok(p) => good_reply(id as nat, data@) && p == reply_pulses(data@),
            Err(e) => !good_reply(id as nat, data@) && e@ == ErrorV::Backend(
                "malformed 0x30 encoder reply"@,
            ),
        },
{
    if data.len() != 8 || data[0] != 0x30 || !data_checks(id, data) {
        return Err(backend_error("malformed 0x30 encoder reply"));
    }
    let u: u32 = (data[1] as u32) * 0x100_0000 + (data[2] as u32) * 0x1_0000 + (data[3] as u32)
        * 0x100 + data[4] as u32;
    let carry: i64 = if u >= 0x8000_0000 {
        (u as i64) - 0x1_0000_0000
    } else {
        u as i64
    };
    let value: i64 = (data[5] as i64) * 0x100 + data[6] as i64;
    proof {
        assert(data@.subrange(1, 5) =~= seq![data@[1], data@[2], data@[3], data@[4]]);
        assert(data@.subrange(5, 7) =~= seq![data@[5], data@[6]]);
        lemma_value4(data@[1], data@[2], data@[3], data@[4]);
        lemma_value2(data@[5], data@[6]);
    }
    Ok(carry * MKS_PULSES_PER_REV + value)
}

/// Every frame that is built passes its own check.
pub proof fn law_built_frames_check(id: nat, body: Seq<u8>)
    ensures
        checks(id, framed(id, body)),
{
    assert(framed(id, body).drop_last() =~= body);
}

proof fn lemma_sum_differs(a: Seq<u8>, b: Seq<u8>, k: int)
    requires
        a.len() == b.len(),
        0 <= k < a.len(),
        forall|i: int| 0 <= i < a.len() && i != k ==> a[i] == b[i],
    ensures
        byte_sum(a) - byte_sum(b) == a[k] - b[k],
    decreases a.len(),
{
    if k == a.len() - 1 {
        assert(a.drop_last() =~= b.drop_last());
    } else {
        lemma_sum_differs(a.drop_last(), b.drop_last(), k);
        assert(a.last() == b.last());
    }
}

/// A frame with exactly one byte changed fails its check.
pub proof fn law_one_changed_byte_is_caught(id: nat, good: Seq<u8>, bad: Seq<u8>, k: int)
    requires
        checks(id, good),
        good.len() == bad.len(),
        0 <= k < good.len(),
        good[k] != bad[k],
        forall|i: int| 0 <= i < good.len() && i != k ==> good[i] == bad[i],
    ensures
        !checks(id, bad),
{
    if k == good.len() - 1 {
        assert(good.drop_last() =~= bad.drop_last());
    } else {
        lemma_sum_differs(good.drop_last(), bad.drop_last(), k);
        let a = id + byte_sum(good.drop_last());
        let b = id + byte_sum(bad.drop_last());
        assert(a % 256 != b % 256) by {
            if a % 256 == b % 256 {
                assert((a - b) % 256 == 0);
            }
        }
    }
}

/// One motor: its id and its resolution.
#[derive(Clone, Copy, Debug)]
pub struct MksMotor {
    pub id: u16,
    pub ppr: i64,
}

/// Motors on a CAN bus that is not bound: commands are validated and encoded,
/// and then refused.
#[derive(Debug)]
pub struct CanMksBackend {
    motors: Vec<MksMotor>,
    speed: u16,
    accel: u8,
    q: Vec<Scalar>,
    enabled: bool,
    estopped: bool,
}

/// What a bus backend holds apart from its devices.
pub struct BusState {
    pub q: Seq<Scalar>,
    pub enabled: bool,
    pub estopped: bool,
}

pub open spec fn frame_seq(f: Seq<MksFrame>) -> Seq<(u16, Seq<u8>)> {
    Seq::new(f.len(), |i: int| (f[i].id, f[i].data@))
}

/// The frames of a position command.
pub open spec fn command_frames(motors: Seq<MksMotor>, q: Seq<Scalar>) -> Seq<(u16, Seq<u8>)> {
    Seq::new(
        motors.len(),
        |i: int|
            (
                motors[i].id,
                framed(
                    motors[i].id as nat,
                    position_body(
                        wrap32(pulses_of(q[i], motors[i].ppr as int)),
                        600,
                        2,
                    ),
                ),
            ),
    )
}

/// Why a command of length `n` values is refused before anything is encoded.
pub open spec fn command_fault(joints: nat, q: Seq<Scalar>) -> Option<ErrorV> {
    if q.len() != joints {
        Some(ErrorV::DofMismatch { expected: joints, got: q.len() })
    } else if !all_finite(q) {
        Some(ErrorV::NonFinite { what: "q"@ })
    } else {
        None
    }
}

impl CanMksBackend {
    pub closed spec fn motor_seq(self) -> Seq<MksMotor> {
        self.motors@
    }

    pub closed spec fn state(self) -> BusState {
        BusState { q: self.q@, enabled: self.enabled, estopped: self.estopped }
    }

    #[verifier::type_invariant]
    spec fn inv(self) -> bool {
        self.speed == 600 && self.accel == 2
    }

    /// One motor per joint.
    pub fn new(motors: Vec<MksMotor>) -> (r: CanMksBackend)
        ensures
            r.motor_seq() == motors@,
            r.state() == (BusState {
                q: zero_seq(motors@.len()),
                enabled: false,
                estopped: false,
            }),
    {
        let n = motors.len();
        CanMksBackend { motors, speed: 600, accel: 2, q: zeros(n), enabled: false, estopped: false }
    }

    /// The frames that a position command would send.
    pub fn encode_command(&self, q: &[Scalar]) -> (r: Result<Vec<MksFrame>, Error>)
        ensures
            match r {
                Ok(f) => command_fault(self.motor_seq().len(), q@) is None && frame_seq(f@)
                    == command_frames(self.motor_seq(), q@),
                Err(e) => command_fault(self.motor_seq().len(), q@) == Some(e@),
            },
    {
        proof {
            use_type_invariant(self);
        }
        match check_len(q.len(), self.motors.len()) {
            Ok(_) => {},
            Err(e) => {
                return Err(e);
            },
        }
        match check_finite("q", q) {
            Ok(_) => {},
            Err(e) => {
                return Err(e);
            },
        }
        let speed = self.speed;
        let accel = self.accel;
        let ghost want = command_frames(self.motors@, q@);
        let mut out: Vec<MksFrame> = Vec::new();
        let mut i: usize = 0;
        while i < self.motors.len()
            invariant
                i <= self.motors.len(),
                q@.len() == self.motors.len(),
                out.len() == i,
                speed == 600,
                accel == 2,
                want == command_frames(self.motors@, q@),
                forall|k: int|
                    0 <= k < i ==> ((#[trigger] out@[k]).id, out@[k].data@) == want[k],
            decreases self.motors.len() - i,
        {
            let m = self.motors[i];
            let p = rad_to_pulses(q[i], m.ppr);
            out.push(encode_set_position(m.id, wrapped32(p), speed, accel));
            i = i + 1;
        }
        assert(frame_seq(out@) =~= want);
        Ok(out)
    }
}

impl CanMksBackend {
    /// Number of joints.
    pub closed spec fn joints(&self) -> nat {
        self.motors@.len()
    }
}

impl RobotBackend for CanMksBackend {
    fn dof(&self) -> (r: usize)
        ensures
            r == self.joints(),
    {
        self.motors.len()
    }

    fn joint_positions(&self) -> (r: Vec<Scalar>)
        ensures
            r@ == self.state().q,
    {
        copy_scalars(self.q.as_slice())
    }

    fn is_enabled(&self) -> (r: bool)
        ensures
            r == self.state().enabled,
    {
        self.enabled
    }

    fn is_estopped(&self) -> (r: bool)
        ensures
            r == self.state().estopped,
    {
        self.estopped
    }

    fn estop(&mut self) -> (r: Result<(), Error>)
        ensures
            r is Ok,
            final(self).state() == (BusState { enabled: false, estopped: true, ..old(self).state() }),
            final(self).motor_seq() == old(self).motor_seq(),
    {
        proof {
            use_type_invariant(&*self);
        }
        self.estopped = true;
        self.enabled = false;
        Ok(())
    }

    fn clear_estop(&mut self) -> (r: Result<(), Error>)
        ensures
            r is Ok,
            final(self).state() == (BusState { estopped: false, ..old(self).state() }),
            final(self).motor_seq() == old(self).motor_seq(),
    {
        proof {
            use_type_invariant(&*self);
        }
        self.estopped = false;
        Ok(())
    }

    fn enable(&mut self) -> (r: Result<(), Error>)
        ensures
            r matches Err(e) && e@ == ErrorV::HardwareRequired("CAN/MKS bus not connected"@),
            *final(self) == *old(self),
    {
        Err(Error::HardwareRequired("CAN/MKS bus not connected"))
    }

    fn disable(&mut self) -> (r: Result<(), Error>)
        ensures
            r matches Err(e) && e@ == ErrorV::HardwareRequired("CAN/MKS bus not connected"@),
            *final(self) == *old(self),
    {
        Err(Error::HardwareRequired("CAN/MKS bus not connected"))
    }

    fn command_joint_positions(&mut self, q: &[Scalar]) -> (r: Result<(), Error>)
        ensures
            r matches Err(e) && e@ == (match command_fault(old(self).motor_seq().len(), q@) {
                Some(f) => f,
                None => ErrorV::HardwareRequired("CAN/MKS bus not connected"@),
            }),
            *final(self) == *old(self),
    {
        match self.encode_command(q) {
            Ok(_) => Err(Error::HardwareRequired("CAN/MKS bus not connected")),
            Err(e) => Err(e),
        }
    }

    fn read_state(&mut self) -> (r: Result<JointState, Error>)
        ensures
            r matches Err(e) && e@ == ErrorV::HardwareRequired("CAN/MKS bus not connected"@),
            *final(self) == *old(self),
    {
        Err(Error::HardwareRequired("CAN/MKS bus not connected"))
    }

    fn mode(&self) -> (r: ControlMode)
        ensures
            r == ControlMode::Position,
    {
        ControlMode::Position
    }
}

} // verus!
