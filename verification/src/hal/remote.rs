//! A remote peer: the frame codec, and a backend whose transport is not bound.
//!
//! A frame is a two-byte marker, a command byte, the payload length (two bytes),
//! the payload (eight bytes for each number) and a CRC-16 over everything between
//! the marker and itself; all of it most significant byte first.

use vstd::prelude::*;

use crate::hal::backend::{
    check_finite, check_len, copy_scalars, zeros, ControlMode, JointState, RobotBackend,
};
#[allow(unused_imports)]
use crate::hal::backend::{all_finite, zero_seq};
#[allow(unused_imports)]
use crate::hal::bytes::{
    be_bytes, be_value, lemma_be2, lemma_be_len, lemma_be_rewrite, lemma_be_round_trip, pow256,
};
#[allow(unused_imports)]
use crate::hal::can_mks::BusState;
use crate::hal::crc::crc;
#[allow(unused_imports)]
use crate::hal::crc::{crc_of, law_crc_detects_one_byte};
use crate::hal::error::{backend_error, Error};
#[allow(unused_imports)]
use crate::hal::error::ErrorV;
use crate::scalar::Scalar;
use crate::text::{chars_of, decimal_text, push_lit, push_text, string_of};
#[allow(unused_imports)]
use crate::text::decimal;

verus! {

/// The two marker bytes.
pub const MAGIC_0: u8 = 0xCA;

pub const MAGIC_1: u8 = 0x11;

/// Bytes in front of the payload, of the CRC, and of an empty frame.
pub const HEADER_LEN: usize = 5;

pub const CRC_LEN: usize = 2;

pub const MIN_FRAME: usize = 7;

/// Most numbers that the length field can describe.
pub const MAX_NDOF: usize = 8191;

/// What a frame is: a command to the robot, or a state from it.
#[derive(Clone, Copy, Debug, PartialEq, Eq, Structural)]
pub enum RemoteCmd {
    Command,
    State,
}

/// The command byte.
pub open spec fn cmd_code(c: RemoteCmd) -> u8 {
    match c {
        RemoteCmd::Command => 0x01,
        RemoteCmd::State => 0x02,
    }
}

/// The CRC of the framing: polynomial `0x1021`, register all ones.
pub open spec fn frame_crc(data: Seq<u8>) -> u16 {
    crc_of(data, 0xFFFF, 0x1021)
}

/// Eight bytes for each number.
pub open spec fn payload(values: Seq<Scalar>) -> Seq<u8>
    decreases values.len(),
{
    if values.len() == 0 {
        Seq::empty()
    } else {
        payload(values.drop_last()) + be_bytes(values.last().bits as nat, 8)
    }
}

/// What the CRC covers.
pub open spec fn frame_body(cmd: RemoteCmd, values: Seq<Scalar>) -> Seq<u8> {
    seq![cmd_code(cmd)] + be_bytes(8 * values.len(), 2) + payload(values)
}

/// A whole frame.
pub open spec fn frame(cmd: RemoteCmd, values: Seq<Scalar>) -> Seq<u8> {
    let body = frame_body(cmd, values);
    seq![MAGIC_0, MAGIC_1] + body + be_bytes(frame_crc(body) as nat, 2)
}

pub open spec fn hex_digit(d: nat) -> char {
    if d < 10 {
        (('0' as u32) + d) as char
    } else {
        (('A' as u32) + d - 10) as char
    }
}

/// Payload length that a buffer announces.
pub open spec fn announced(buf: Seq<u8>) -> nat {
    be_value(buf.subrange(3, 5))
}

/// Why a buffer is no frame, in the order of the checks.
pub open spec fn frame_fault(buf: Seq<u8>) -> Option<Seq<char>> {
    if buf.len() < MIN_FRAME {
        Some("remote frame too short"@)
    } else if buf[0] != MAGIC_0 || buf[1] != MAGIC_1 {
        Some("remote frame bad magic"@)
    } else if buf[2] != 0x01 && buf[2] != 0x02 {
        Some(
            "remote frame unknown cmd 0x"@ + seq![
                hex_digit((buf[2] / 16) as nat),
                hex_digit((buf[2] % 16) as nat),
            ],
        )
    } else if announced(buf) % 8 != 0 {
        Some("remote frame payload not f64-aligned"@)
    } else if buf.len() != HEADER_LEN + announced(buf) + CRC_LEN {
        Some("remote frame length mismatch"@)
    } else if be_value(buf.subrange(buf.len() - 2, buf.len() as int)) != frame_crc(
        buf.subrange(2, buf.len() - 2),
    ) {
        Some("remote frame crc mismatch"@)
    } else {
        None
    }
}

/// The command of a frame.
pub open spec fn frame_cmd(buf: Seq<u8>) -> RemoteCmd {
    if buf[2] == 0x01 {
        RemoteCmd::Command
    } else {
        RemoteCmd::State
    }
}

/// The numbers of a frame.
pub open spec fn frame_values(buf: Seq<u8>) -> Seq<Scalar> {
    Seq::new(
        announced(buf) / 8,
        |i: int| Scalar { bits: be_value(buf.subrange(5 + 8 * i, 13 + 8 * i)) as u64 },
    )
}

/// Why values are not framed.
pub open spec fn encode_fault(values: Seq<Scalar>) -> Option<ErrorV> {
    if !all_finite(values) {
        Some(ErrorV::NonFinite { what: "frame payload"@ })
    } else if values.len() > MAX_NDOF {
        Some(
            ErrorV::Backend(
                "remote frame ndof "@ + decimal(values.len()) + " exceeds u16 length field"@,
            ),
        )
    } else {
        None
    }
}

impl RemoteCmd {
    fn code(self) -> (r: u8)
        ensures
            r == cmd_code(self),
    {
        match self {
            RemoteCmd::Command => 0x01,
            RemoteCmd::State => 0x02,
        }
    }

    /// The command of a byte.
    pub fn from_u8(b: u8) -> (r: Option<RemoteCmd>)
        ensures
            match r {
                Some(c) => cmd_code(c) == b,
                None => b != 0x01 && b != 0x02,
            },
    {
        if b == 0x01 {
            Some(RemoteCmd::Command)
        } else if b == 0x02 {
            Some(RemoteCmd::State)
        } else {
            None
        }
    }
}

/// The CRC of some bytes.
pub fn crc16_ccitt(data: &[u8]) -> (r: u16)
    ensures
        r == frame_crc(data@),
{
    crc(data, 0xFFFF, 0x1021)
}

fn push_be2(out: &mut Vec<u8>, v: u16)
    ensures
        final(out)@ == old(out)@ + be_bytes(v as nat, 2),
{
    let ghost start = out@;
    proof {
        lemma_be2(v as nat);
    }
    out.push((v / 256) as u8);
    out.push((v % 256) as u8);
    assert(out@ =~= start + be_bytes(v as nat, 2));
}

/// Appends the low `n` bytes of `v`, most significant first.
fn push_be(out: &mut Vec<u8>, v: u64, n: usize)
    requires
        n <= 8,
    ensures
        final(out)@ == old(out)@ + be_bytes(v as nat, n as nat),
    decreases n,
{
    let ghost start = out@;
    if n == 0 {
        assert(out@ =~= start + be_bytes(v as nat, 0));
    } else {
        push_be(out, v / 256, n - 1);
        out.push((v % 256) as u8);
        assert(out@ =~= start + be_bytes(v as nat, n as nat));
    }
}

/// The number in `n` bytes at `o`.
fn read_be(b: &[u8], o: usize, n: usize) -> (r: u64)
    requires
        n <= 8,
        o + n <= b@.len(),
    ensures
        r == be_value(b@.subrange(o as int, o + n)),
{
    let mut r: u64 = 0;
    let mut i: usize = 0;
    let total: usize = b.len();
    let ghost all = b@.subrange(o as int, o + n);
    assert(pow256(8) == 0x1_0000_0000_0000_0000) by {
        reveal_with_fuel(pow256, 9);
    }
    while i < n
        invariant
            i <= n <= 8,
            total == b@.len(),
            o + n <= b@.len(),
            all == b@.subrange(o as int, o + n),
            r == be_value(all.take(i as int)),
            pow256(8) == 0x1_0000_0000_0000_0000,
        decreases n - i,
    {
        proof {
            let next = all.take(i + 1);
            assert(next.drop_last() =~= all.take(i as int));
            assert(next.last() == b@[o + i]);
            lemma_be_rewrite(next);
            lemma_pow256_monotone((i + 1) as nat, 8);
        }
        r = r * 256 + b[o + i] as u64;
        i = i + 1;
    }
    assert(all.take(n as int) =~= all);
    r
}

proof fn lemma_pow256_monotone(a: nat, b: nat)
    requires
        a <= b,
    ensures
        pow256(a) <= pow256(b),
    decreases b - a,
{
    if a < b {
        lemma_pow256_monotone(a, (b - 1) as nat);
    }
}

/// Frames some values. What is not finite is never put on the wire.
pub fn encode_frame(cmd: RemoteCmd, values: &[Scalar]) -> (r: Result<Vec<u8>, Error>)
    ensures
        match r {
            Ok(f) => encode_fault(values@) is None && f@ == frame(cmd, values@),
            Err(e) => encode_fault(values@) == Some(e@),
        },
{
    match check_finite("frame payload", values) {
        Ok(_) => {},
        Err(e) => {
            return Err(e);
        },
    }
    if values.len() > MAX_NDOF {
        let mut m = chars_of("remote frame ndof ");
        push_text(&mut m, &decimal_text(values.len() as u128));
        push_lit(&mut m, " exceeds u16 length field");
        return Err(Error::Backend(string_of(&m)));
    }
    let mut body: Vec<u8> = Vec::new();
    body.push(cmd.code());
    push_be2(&mut body, (values.len() * 8) as u16);
    let ghost head = body@;
    assert(head =~= seq![cmd_code(cmd)] + be_bytes(8 * values@.len(), 2));
    let mut i: usize = 0;
    assert(body@ =~= head + payload(values@.take(0)));
    while i < values.len()
        invariant
            i <= values@.len(),
            body@ == head + payload(values@.take(i as int)),
        decreases values@.len() - i,
    {
        proof {
            assert(values@.take(i + 1).drop_last() =~= values@.take(i as int));
            assert(values@.take(i + 1).last() == values@[i as int]);
        }
        push_be(&mut body, values[i].bits, 8);
        i = i + 1;
        assert(body@ =~= head + payload(values@.take(i as int)));
    }
    assert(values@.take(values@.len() as int) =~= values@);
    assert(body@ =~= frame_body(cmd, values@));
    let c = crc16_ccitt(body.as_slice());
    let mut out: Vec<u8> = Vec::new();
    out.push(MAGIC_0);
    out.push(MAGIC_1);
    assert(out@ =~= seq![MAGIC_0, MAGIC_1]);
    crate::hal::bytes::push_bytes(&mut out, body.as_slice());
    push_be2(&mut out, c);
    Ok(out)
}

fn hex_char(d: u8) -> (r: char)
    requires
        d < 16,
    ensures
        r == hex_digit(d as nat),
{
    if d < 10 {
        (48 + d) as char
    } else {
        (55 + d) as char
    }
}

/// Reads one whole frame. A buffer that is short, lacks the marker, carries an
/// unknown command, announces another length or fails the CRC is refused.
pub fn decode_frame(buf: &[u8]) -> (r: Result<(RemoteCmd, Vec<Scalar>), Error>)
    ensures
        match r {
            Ok((cmd, values)) => frame_fault(buf@) is None && cmd == frame_cmd(buf@) && values@
                == frame_values(buf@),
            Err(e) => frame_fault(buf@) matches Some(m) && e@ == ErrorV::Backend(m),
        },
{
    let n = buf.len();
    if n < MIN_FRAME {
        return Err(backend_error("remote frame too short"));
    }
    if buf[0] != MAGIC_0 || buf[1] != MAGIC_1 {
        return Err(backend_error("remote frame bad magic"));
    }
    let cmd = match RemoteCmd::from_u8(buf[2]) {
        Some(c) => c,
        None => {
            let mut m = chars_of("remote frame unknown cmd 0x");
            let ghost start = m@;
            m.push(hex_char(buf[2] / 16));
            m.push(hex_char(buf[2] % 16));
            assert(m@ =~= start + seq![
                hex_digit((buf@[2] / 16) as nat),
                hex_digit((buf@[2] % 16) as nat),
            ]);
            return Err(Error::Backend(string_of(&m)));
        },
    };
    let payload_len = read_be(buf, 3, 2) as usize;
    proof {
        lemma_be_rewrite(buf@.subrange(3, 5));
        assert(pow256(2) == 0x1_0000) by {
            reveal_with_fuel(pow256, 3);
        }
    }
    if payload_len % 8 != 0 {
        return Err(backend_error("remote frame payload not f64-aligned"));
    }
    if n - MIN_FRAME != payload_len {
        return Err(backend_error("remote frame length mismatch"));
    }
    let crc_at: usize = HEADER_LEN + payload_len;
    let want = read_be(buf, crc_at, 2);
    let got = crc16_ccitt(vstd::slice::slice_subrange(buf, 2, crc_at));
    if got as u64 != want {
        return Err(backend_error("remote frame crc mismatch"));
    }
    let count: usize = payload_len / 8;
    let mut values: Vec<Scalar> = Vec::new();
    let mut i: usize = 0;
    while i < count
        invariant
            i <= count,
            count == announced(buf@) / 8,
            n == buf@.len(),
            n == 7 + 8 * count,
            values@ =~= frame_values(buf@).take(i as int),
        decreases count - i,
    {
        let v = read_be(buf, 5 + 8 * i, 8);
        values.push(Scalar { bits: v });
        i = i + 1;
    }
    assert(values@ =~= frame_values(buf@));
    Ok((cmd, values))
}

proof fn lemma_payload(values: Seq<Scalar>)
    ensures
        payload(values).len() == 8 * values.len(),
        forall|i: int|
            0 <= i < values.len() ==> payload(values).subrange(8 * i, 8 * i + 8) == be_bytes(
                (#[trigger] values[i]).bits as nat,
                8,
            ),
    decreases values.len(),
{
    if values.len() > 0 {
        let h = values.drop_last();
        lemma_payload(h);
        lemma_be_len(values.last().bits as nat, 8);
        let p = payload(values);
        assert forall|i: int| 0 <= i < values.len() implies p.subrange(8 * i, 8 * i + 8)
            == be_bytes((#[trigger] values[i]).bits as nat, 8) by {
            if i < h.len() {
                assert(h[i] == values[i]);
                assert(p.subrange(8 * i, 8 * i + 8) =~= payload(h).subrange(8 * i, 8 * i + 8));
            } else {
                assert(p.subrange(8 * i, 8 * i + 8) =~= be_bytes(values.last().bits as nat, 8));
            }
        }
    }
}

/// Where the parts of a frame lie.
proof fn lemma_frame_layout(cmd: RemoteCmd, values: Seq<Scalar>)
    ensures
        ({
            let f = frame(cmd, values);
            let body = frame_body(cmd, values);
            &&& f.len() == 7 + 8 * values.len()
            &&& f[0] == MAGIC_0
            &&& f[1] == MAGIC_1
            &&& f[2] == cmd_code(cmd)
            &&& f.subrange(3, 5) == be_bytes(8 * values.len(), 2)
            &&& f.subrange(5, f.len() - 2) == payload(values)
            &&& f.subrange(2, f.len() - 2) == body
            &&& f.subrange(f.len() - 2, f.len() as int) == be_bytes(frame_crc(body) as nat, 2)
        }),
{
    let f = frame(cmd, values);
    let body = frame_body(cmd, values);
    lemma_payload(values);
    lemma_be_len(8 * values.len(), 2);
    lemma_be_len(frame_crc(body) as nat, 2);
    assert(body.len() == 3 + 8 * values.len());
    assert(f.subrange(3, 5) =~= be_bytes(8 * values.len(), 2));
    assert(f.subrange(5, f.len() - 2) =~= payload(values));
    assert(f.subrange(2, f.len() - 2) =~= body);
    assert(f.subrange(f.len() - 2, f.len() as int) =~= be_bytes(frame_crc(body) as nat, 2));
}

/// What is framed reads back bit for bit, with its command.
pub proof fn law_frame_round_trip(cmd: RemoteCmd, values: Seq<Scalar>)
    requires
        values.len() <= MAX_NDOF,
    ensures
        frame_fault(frame(cmd, values)) is None,
        frame_cmd(frame(cmd, values)) == cmd,
        frame_values(frame(cmd, values)) == values,
{
    let body = frame_body(cmd, values);
    let f = frame(cmd, values);
    let n = values.len();
    lemma_frame_layout(cmd, values);
    assert(pow256(2) == 0x1_0000) by {
        reveal_with_fuel(pow256, 3);
    }
    lemma_be_round_trip(8 * n, 2);
    lemma_be_round_trip(frame_crc(body) as nat, 2);
    assert(announced(f) == 8 * n);
    assert forall|i: int| 0 <= i < n implies frame_values(f)[i] == values[i] by {
        lemma_value_at(cmd, values, i);
    }
    assert(frame_values(f) =~= values);
}

proof fn lemma_value_at(cmd: RemoteCmd, values: Seq<Scalar>, i: int)
    requires
        0 <= i < values.len(),
    ensures
        be_value(frame(cmd, values).subrange(5 + 8 * i, 13 + 8 * i)) == values[i].bits,
{
    let f = frame(cmd, values);
    lemma_frame_layout(cmd, values);
    lemma_payload(values);
    let p = payload(values);
    assert(f.subrange(5, f.len() - 2).subrange(8 * i, 8 * i + 8) =~= f.subrange(
        5 + 8 * i,
        13 + 8 * i,
    ));
    assert(p.subrange(8 * i, 8 * i + 8) == be_bytes(values[i].bits as nat, 8));
    assert(pow256(8) == 0x1_0000_0000_0000_0000) by {
        reveal_with_fuel(pow256, 9);
    }
    lemma_be_round_trip(values[i].bits as nat, 8);
}

/// A frame with exactly one byte changed is refused, whichever byte it is.
pub proof fn law_one_changed_byte_is_refused(good: Seq<u8>, bad: Seq<u8>, k: int)
    requires
        frame_fault(good) is None,
        good.len() == bad.len(),
        0 <= k < good.len(),
        good[k] != bad[k],
        forall|i: int| 0 <= i < good.len() && i != k ==> good[i] == bad[i],
    ensures
        frame_fault(bad) is Some,
{
    let n = good.len() as int;
    if k == 3 || k == 4 {
        let a = good.subrange(3, 5);
        let b = bad.subrange(3, 5);
        lemma_be_rewrite(a);
        lemma_be_rewrite(b);
        assert(a[k - 3] != b[k - 3]);
        assert(be_value(a) != be_value(b));
    } else if k >= 2 && k < n - 2 {
        let a = good.subrange(2, n - 2);
        let b = bad.subrange(2, n - 2);
        assert(0x1021u16 & 1 == 1) by (bit_vector);
        assert(a[k - 2] != b[k - 2]);
        assert forall|i: int| 0 <= i < a.len() && i != k - 2 implies a[i] == b[i] by {
            assert(good[i + 2] == bad[i + 2]);
        }
        law_crc_detects_one_byte(a, b, k - 2, 0xFFFF, 0x1021);
        assert(good.subrange(n - 2, n) =~= bad.subrange(n - 2, n));
    } else if k >= n - 2 {
        let a = good.subrange(n - 2, n);
        let b = bad.subrange(n - 2, n);
        lemma_be_rewrite(a);
        lemma_be_rewrite(b);
        assert(a[k - (n - 2)] != b[k - (n - 2)]);
        assert(good.subrange(2, n - 2) =~= bad.subrange(2, n - 2));
    }
}

/// A peer whose transport is not bound: commands are validated and encoded, and
/// then refused.
#[derive(Debug)]
pub struct RemoteBackend {
    dof: usize,
    addr: String,
    q: Vec<Scalar>,
    connected: bool,
    enabled: bool,
    estopped: bool,
}

/// Why a position command is refused before it is sent.
pub open spec fn remote_fault(joints: nat, q: Seq<Scalar>) -> Option<ErrorV> {
    if q.len() != joints {
        Some(ErrorV::DofMismatch { expected: joints, got: q.len() })
    } else {
        encode_fault(q)
    }
}

impl RemoteBackend {
    pub closed spec fn address(self) -> Seq<char> {
        self.addr@
    }

    pub closed spec fn live(self) -> bool {
        self.connected
    }

    pub closed spec fn state(self) -> BusState {
        BusState { q: self.q@, enabled: self.enabled, estopped: self.estopped }
    }

    /// `dof` joints behind the address `addr`. Nothing is opened.
    pub fn new(dof: usize, addr: &str) -> (r: RemoteBackend)
        ensures
            r.joints() == dof,
            r.address() == addr@,
            !r.live(),
            r.state() == (BusState { q: zero_seq(dof as nat), enabled: false, estopped: false }),
    {
        RemoteBackend {
            dof,
            addr: string_of(&chars_of(addr)),
            q: zeros(dof),
            connected: false,
            enabled: false,
            estopped: false,
        }
    }

    /// The address.
    pub fn addr(&self) -> (r: &str)
        ensures
            r@ == self.address(),
    {
        self.addr.as_str()
    }

    /// Whether a transport is live.
    pub fn is_connected(&self) -> (r: bool)
        ensures
            r == self.live(),
    {
        self.connected
    }

    /// Opens the transport: there is none, so this always fails.
    pub fn connect(&mut self) -> (r: Result<(), Error>)
        ensures
            r matches Err(e) && e@ == ErrorV::NotConnected,
            *final(self) == *old(self),
    {
        Err(Error::NotConnected)
    }

    /// The bytes that a position command would send.
    pub fn encode_command(&self, q: &[Scalar]) -> (r: Result<Vec<u8>, Error>)
        ensures
            match r {
                Ok(f) => remote_fault(self.joints(), q@) is None && f@ == frame(
                    RemoteCmd::Command,
                    q@,
                ),
                Err(e) => remote_fault(self.joints(), q@) == Some(e@),
            },
    {
        match check_len(q.len(), self.dof) {
            Ok(_) => {},
            Err(e) => {
                return Err(e);
            },
        }
        encode_frame(RemoteCmd::Command, q)
    }
}

impl RemoteBackend {
    /// Number of joints.
    pub closed spec fn joints(&self) -> nat {
        self.dof as nat
    }
}

impl RobotBackend for RemoteBackend {
    fn dof(&self) -> (r: usize)
        ensures
            r == self.joints(),
    {
        self.dof
    }

    fn joint_positions(&self) -> (r: Vec<Scalar>)
        ensures
            r@ == self.state().q,
    {
        copy_scalars(self.q.as_slice())
    }

    fn is_enabled(&self) -> (r: bool)
        ensures
            r == self.state().enabled,
    {
        self.enabled
    }

    fn is_estopped(&self) -> (r: bool)
        ensures
            r == self.state().estopped,
    {
        self.estopped
    }

    fn estop(&mut self) -> (r: Result<(), Error>)
        ensures
            r is Ok,
            final(self).state() == (BusState { enabled: false, estopped: true, ..old(self).state() }),
            final(self).joints() == old(self).joints(),
            final(self).address() == old(self).address(),
            final(self).live() == old(self).live(),
    {
        self.estopped = true;
        self.enabled = false;
        Ok(())
    }

    fn clear_estop(&mut self) -> (r: Result<(), Error>)
        ensures
            r is Ok,
            final(self).state() == (BusState { estopped: false, ..old(self).state() }),
            final(self).joints() == old(self).joints(),
            final(self).address() == old(self).address(),
            final(self).live() == old(self).live(),
    {
        self.estopped = false;
        Ok(())
    }

    fn enable(&mut self) -> (r: Result<(), Error>)
        ensures
            r matches Err(e) && e@ == ErrorV::NotConnected,
            *final(self) == *old(self),
    {
        Err(Error::NotConnected)
    }

    fn disable(&mut self) -> (r: Result<(), Error>)
        ensures
            r matches Err(e) && e@ == ErrorV::NotConnected,
            *final(self) == *old(self),
    {
        Err(Error::NotConnected)
    }

    fn command_joint_positions(&mut self, q: &[Scalar]) -> (r: Result<(), Error>)
        ensures
            r matches Err(e) && e@ == (match remote_fault(old(self).joints(), q@) {
                Some(f) => f,
                None => ErrorV::NotConnected,
            }),
            *final(self) == *old(self),
    {
        match self.encode_command(q) {
            Ok(_) => Err(Error::NotConnected),
            Err(e) => Err(e),
        }
    }

    fn read_state(&mut self) -> (r: Result<JointState, Error>)
        ensures
            r matches Err(e) && e@ == ErrorV::NotConnected,
            *final(self) == *old(self),
    {
        Err(Error::NotConnected)
    }

    fn mode(&self) -> (r: ControlMode)
        ensures
            r == ControlMode::Position,
    {
        ControlMode::Position
    }
}

} // verus!
