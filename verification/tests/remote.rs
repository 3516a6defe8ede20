use caliper::hal::remote::{
    crc16_ccitt, decode_frame, encode_frame, RemoteBackend, RemoteCmd, CRC_LEN, HEADER_LEN,
    MAGIC_0, MAGIC_1, MAX_NDOF, MIN_FRAME,
};
use caliper::hal::{Error, RobotBackend};
use caliper::scalar::Scalar;

fn s(x: f64) -> Scalar {
    Scalar { bits: x.to_bits() }
}

fn v(xs: &[f64]) -> Vec<Scalar> {
    xs.iter().map(|x| s(*x)).collect()
}

#[test]
fn command_frame_roundtrips_exactly() {
    let q = v(&[0.0, -1.5707963267948966, 3.141592653589793, 0.25, -0.75, 2.5]);
    let bytes = encode_frame(RemoteCmd::Command, &q).unwrap();
    // header(5) + 6*8 payload + 2 crc
    assert_eq!(bytes.len(), HEADER_LEN + q.len() * 8 + CRC_LEN);
    assert_eq!(&bytes[..2], &[MAGIC_0, MAGIC_1]);
    assert_eq!(RemoteCmd::from_u8(bytes[2]), Some(RemoteCmd::Command));
    let (cmd, back) = decode_frame(&bytes).unwrap();
    assert_eq!(cmd, RemoteCmd::Command);
    // exact bit-for-bit recovery (no rounding in the codec)
    assert_eq!(back, q);
}

#[test]
fn state_frame_roundtrips_and_is_distinguished() {
    let q = v(&[1.0, 2.0, 3.0]);
    let bytes = encode_frame(RemoteCmd::State, &q).unwrap();
    let (cmd, back) = decode_frame(&bytes).unwrap();
    assert_eq!(cmd, RemoteCmd::State);
    assert_eq!(back, q);
    // a state frame is not mistaken for a command frame
    assert_ne!(bytes[2], encode_frame(RemoteCmd::Command, &q).unwrap()[2]);
}

#[test]
fn empty_payload_roundtrips() {
    let bytes = encode_frame(RemoteCmd::State, &[]).unwrap();
    assert_eq!(bytes.len(), MIN_FRAME);
    let (cmd, back) = decode_frame(&bytes).unwrap();
    assert_eq!(cmd, RemoteCmd::State);
    assert!(back.is_empty());
}

#[test]
fn corrupt_payload_fails_crc() {
    let mut bytes = encode_frame(RemoteCmd::Command, &v(&[0.5, 1.5])).unwrap();
    // flip one payload bit → CRC must catch it
    bytes[HEADER_LEN] ^= 0x01;
    assert!(matches!(decode_frame(&bytes), Err(Error::Backend(_))));
}

#[test]
fn flipped_crc_is_rejected() {
    let mut bytes = encode_frame(RemoteCmd::Command, &v(&[0.5])).unwrap();
    let n = bytes.len();
    bytes[n - 1] ^= 0xFF;
    assert!(matches!(decode_frame(&bytes), Err(Error::Backend(_))));
}

#[test]
fn short_frame_is_rejected() {
    let bytes = encode_frame(RemoteCmd::Command, &v(&[0.5, 1.0])).unwrap();
    // truncated below a full frame
    assert!(matches!(decode_frame(&bytes[..6]), Err(Error::Backend(_))));
    assert!(matches!(decode_frame(&[]), Err(Error::Backend(_))));
}

#[test]
fn bad_magic_is_rejected() {
    let mut bytes = encode_frame(RemoteCmd::Command, &v(&[0.5])).unwrap();
    bytes[0] ^= 0xFF;
    assert!(matches!(decode_frame(&bytes), Err(Error::Backend(_))));
}

#[test]
fn unknown_command_is_rejected() {
    let mut bytes = encode_frame(RemoteCmd::Command, &v(&[0.5])).unwrap();
    bytes[2] = 0x7F; // not a known RemoteCmd
    assert!(matches!(decode_frame(&bytes), Err(Error::Backend(_))));
}

#[test]
fn length_field_inconsistent_is_rejected() {
    let bytes = encode_frame(RemoteCmd::Command, &v(&[0.5, 1.0])).unwrap();
    // claim a longer payload than the buffer holds
    let mut tampered = bytes.clone();
    tampered[3] = 0xFF;
    tampered[4] = 0xFF;
    assert!(matches!(decode_frame(&tampered), Err(Error::Backend(_))));
    // claim a payload length that is no multiple of a number's
    let mut misaligned = bytes;
    misaligned[4] = misaligned[4].wrapping_sub(1);
    assert!(matches!(decode_frame(&misaligned), Err(Error::Backend(_))));
}

#[test]
fn nonfinite_payload_is_refused() {
    assert!(matches!(
        encode_frame(RemoteCmd::Command, &v(&[0.0, f64::NAN])),
        Err(Error::NonFinite { .. })
    ));
    assert!(matches!(
        encode_frame(RemoteCmd::Command, &v(&[f64::INFINITY])),
        Err(Error::NonFinite { .. })
    ));
}

#[test]
fn crc16_distinguishes_single_bit_flips() {
    // a real CRC must change when any input byte changes
    let a = crc16_ccitt(&[0x01, 0x00, 0x08, 0x3F, 0xF0, 0x00, 0x00, 0x00, 0x00, 0x00, 0x00]);
    let mut data = [0x01, 0x00, 0x08, 0x3F, 0xF0, 0x00, 0x00, 0x00, 0x00, 0x00, 0x00];
    data[5] ^= 0x01;
    assert_ne!(a, crc16_ccitt(&data));
}

#[test]
fn bus_ops_require_connection() {
    let mut b = RemoteBackend::new(3, "tcp://127.0.0.1:9000");
    assert_eq!(b.dof(), 3);
    assert_eq!(b.addr(), "tcp://127.0.0.1:9000");
    // codec works without a socket
    let frame = b.encode_command(&v(&[0.1, 0.2, 0.3])).unwrap();
    assert_eq!(decode_frame(&frame).unwrap().1, v(&[0.1, 0.2, 0.3]));
    // but every transport op refuses — never a fake success
    assert!(matches!(b.connect(), Err(Error::NotConnected)));
    assert!(matches!(b.enable(), Err(Error::NotConnected)));
    assert!(matches!(b.disable(), Err(Error::NotConnected)));
    assert!(matches!(
        b.command_joint_positions(&v(&[0.1, 0.2, 0.3])),
        Err(Error::NotConnected)
    ));
    assert!(matches!(b.read_state(), Err(Error::NotConnected)));
    assert!(!b.is_connected());
}

#[test]
fn command_validates_dof_before_encoding() {
    let b = RemoteBackend::new(3, "tcp://x");
    assert!(matches!(b.encode_command(&v(&[0.1, 0.2])), Err(Error::DofMismatch { .. })));
}

#[test]
fn estop_latches_locally() {
    let mut b = RemoteBackend::new(2, "tcp://x");
    b.estop().unwrap();
    assert!(b.is_estopped());
    assert!(!b.is_enabled());
    b.clear_estop().unwrap();
    assert!(!b.is_estopped());
}

#[test]
fn crc_of_the_standard_check_string() {
    assert_eq!(crc16_ccitt(b"123456789"), 0x29B1);
}

#[test]
fn too_many_joints_do_not_fit_a_frame() {
    let many = v(&vec![0.0; MAX_NDOF + 1]);
    assert!(encode_frame(RemoteCmd::Command, &many).is_err());
    let most = v(&vec![0.0; MAX_NDOF]);
    let bytes = encode_frame(RemoteCmd::Command, &most).unwrap();
    assert_eq!(decode_frame(&bytes).unwrap().1.len(), MAX_NDOF);
}
