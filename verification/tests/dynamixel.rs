use caliper::hal::dynamixel::{
    build_packet, crc16, encode_goal_position, encode_ping, encode_read_position,
    encode_sync_write_goal, encode_torque_enable, rad_to_ticks, ticks_to_rad, DxlServo,
    DynamixelBackend, BROADCAST_ID, DXL_TICKS_PER_REV, INST_READ, INST_SYNC_WRITE, INST_WRITE,
};
use caliper::hal::{ControlMode, Error, RobotBackend};
use caliper::scalar::Scalar;
use std::f64::consts::PI;

fn s(x: f64) -> Scalar {
    Scalar { bits: x.to_bits() }
}

fn v(xs: &[f64]) -> Vec<Scalar> {
    xs.iter().map(|x| s(*x)).collect()
}

fn f(x: Scalar) -> f64 {
    f64::from_bits(x.bits)
}

#[test]
fn crc16_matches_robotis_ping_vector() {
    // Published Protocol-2.0 Ping(ID=1): FF FF FD 00 01 03 00 01 -> CRC 0x4E19.
    let head = [0xFF, 0xFF, 0xFD, 0x00, 0x01, 0x03, 0x00, 0x01];
    assert_eq!(crc16(&head), 0x4E19);
    // and the full built packet carries it little-endian.
    let pkt = encode_ping(1);
    assert_eq!(&pkt, &[0xFF, 0xFF, 0xFD, 0x00, 0x01, 0x03, 0x00, 0x01, 0x19, 0x4E]);
}

#[test]
fn packet_length_field() {
    let pkt = encode_goal_position(2, 2048);
    // params = addr(2) + ticks(4) = 6; length = 6 + 3 = 9
    assert_eq!(pkt[5], 9);
    assert_eq!(pkt[6], 0);
    assert_eq!(pkt[7], INST_WRITE);
    // crc verifies
    let n = pkt.len();
    let crc = u16::from_le_bytes([pkt[n - 2], pkt[n - 1]]);
    assert_eq!(crc16(&pkt[..n - 2]), crc);
}

#[test]
fn ticks_rad_invert() {
    for &deg in &[0.0, 90.0, -45.0, 179.0] {
        let rad = deg * PI / 180.0;
        let t = rad_to_ticks(s(rad), DXL_TICKS_PER_REV);
        let back = f(ticks_to_rad(t, DXL_TICKS_PER_REV));
        assert!((back - rad).abs() < 2e-3, "deg={deg}");
    }
    assert_eq!(rad_to_ticks(s(0.0), DXL_TICKS_PER_REV), 2048); // centered
}

#[test]
fn rad_to_ticks_saturates_on_extreme_input() {
    assert_eq!(rad_to_ticks(s(f64::MAX), DXL_TICKS_PER_REV), i64::MAX);
    assert_eq!(
        rad_to_ticks(s(f64::MIN), DXL_TICKS_PER_REV),
        i64::MIN.saturating_add(DXL_TICKS_PER_REV / 2)
    );
    // ordinary inputs are unaffected by the guard
    assert_eq!(rad_to_ticks(s(0.0), DXL_TICKS_PER_REV), 2048);
}

#[test]
fn sync_write_layout() {
    let pkt = encode_sync_write_goal(&[(1, 100), (2, 200)]);
    assert_eq!(pkt[4], BROADCAST_ID);
    assert_eq!(pkt[7], INST_SYNC_WRITE);
    // params: addr(2)=116,0 len(2)=4,0 then 2*(id + 4 ticks) = 10 → total 14
    assert_eq!(pkt[8], 116);
    assert_eq!(pkt[10], 4);
    let crc = u16::from_le_bytes([pkt[pkt.len() - 2], pkt[pkt.len() - 1]]);
    assert_eq!(crc16(&pkt[..pkt.len() - 2]), crc);
}

#[test]
fn dynamixel_bus_ops_require_hardware() {
    let mut b = DynamixelBackend::new(vec![DxlServo { id: 1, tpr: DXL_TICKS_PER_REV }]);
    assert!(!b.encode_command(&v(&[0.3])).unwrap().is_empty());
    assert!(matches!(b.enable(), Err(Error::HardwareRequired(_))));
    assert!(matches!(b.command_joint_positions(&v(&[0.3])), Err(Error::HardwareRequired(_))));
    assert!(matches!(b.read_state(), Err(Error::HardwareRequired(_))));
}

#[test]
fn dynamixel_packets_by_hand() {
    assert_eq!(&encode_torque_enable(3, true)[7..11], &[INST_WRITE, 64, 0, 1]);
    assert_eq!(&encode_torque_enable(3, false)[7..11], &[INST_WRITE, 64, 0, 0]);
    assert_eq!(&encode_read_position(9)[7..12], &[INST_READ, 132, 0, 4, 0]);
    assert_eq!(&encode_goal_position(1, -2)[8..14], &[116, 0, 0xFE, 0xFF, 0xFF, 0xFF]);
    let pkt = build_packet(7, 0x55, &[1, 2, 3]);
    assert_eq!(&pkt[..11], &[0xFF, 0xFF, 0xFD, 0, 7, 6, 0, 0x55, 1, 2, 3]);
}

#[test]
fn dynamixel_refuses_bad_commands() {
    let b = DynamixelBackend::new(vec![DxlServo { id: 1, tpr: DXL_TICKS_PER_REV }]);
    assert!(matches!(
        b.encode_command(&v(&[0.1, 0.2])),
        Err(Error::DofMismatch { expected: 1, got: 2 })
    ));
    assert!(matches!(b.encode_command(&v(&[f64::NAN])), Err(Error::NonFinite { .. })));
    assert_eq!(b.mode(), ControlMode::Position);
    assert_eq!(b.joint_names(), vec!["joint_0".to_string()]);
}

#[test]
fn ticks_match_hardware_floats() {
    for &rad in &[0.0, 1.0, -2.5, 3.2, 1e18, -1e18, f64::NAN, f64::INFINITY] {
        for &tpr in &[4096i64, 1, 200] {
            let raw = (rad / (2.0 * PI) * tpr as f64).round();
            let want = (raw.clamp(i64::MIN as f64, i64::MAX as f64) as i64).saturating_add(tpr / 2);
            assert_eq!(rad_to_ticks(s(rad), tpr), want, "{rad} {tpr}");
        }
    }
}
