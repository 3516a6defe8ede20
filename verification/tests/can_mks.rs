use caliper::hal::can_mks::{
    decode_encoder_reply, encode_enable, encode_read_encoder, encode_set_position, mks_checksum,
    pulses_to_rad, rad_to_pulses, CanMksBackend, MksMotor, MKS_PULSES_PER_REV,
};
use caliper::hal::{ControlMode, Error, RobotBackend};
use caliper::scalar::Scalar;
use std::f64::consts::PI;

fn s(x: f64) -> Scalar {
    Scalar { bits: x.to_bits() }
}

fn v(xs: &[f64]) -> Vec<Scalar> {
    xs.iter().map(|x| s(*x)).collect()
}

fn f(x: Scalar) -> f64 {
    f64::from_bits(x.bits)
}

#[test]
fn checksum_roundtrip() {
    let f = encode_set_position(1, 12345, 600, 2);
    assert!(f.checksum_ok());
    assert_eq!(f.command(), Some(0xF5));
    // tamper → checksum fails
    let mut bad = f.clone();
    bad.data[1] ^= 0xFF;
    assert!(!bad.checksum_ok());
}

#[test]
fn position_encoding_is_24bit_be() {
    let f = encode_set_position(3, 0x01_23_45, 0x02_58, 5);
    assert_eq!(&f.data[..7], &[0xF5, 0x02, 0x58, 0x05, 0x01, 0x23, 0x45]);
    assert_eq!(f.data.len(), 8);
}

#[test]
fn pulses_rad_invert() {
    for &deg in &[0.0, 90.0, -123.4, 359.9] {
        let rad = deg * PI / 180.0;
        let p = rad_to_pulses(s(rad), MKS_PULSES_PER_REV);
        let back = f(pulses_to_rad(p, MKS_PULSES_PER_REV));
        assert!((back - rad).abs() < 1e-3, "deg={deg}");
    }
}

#[test]
fn pulses_match_hardware_floats() {
    for &rad in &[0.0, 1.0, -2.5, 1e300, -1e300, f64::NAN, f64::INFINITY, 0.000191, 3.14159] {
        for &ppr in &[16384i64, 1, -7, 200] {
            assert_eq!(
                rad_to_pulses(s(rad), ppr),
                (rad / (2.0 * PI) * ppr as f64).round() as i64
            );
        }
    }
    assert_eq!(
        pulses_to_rad(12345, 16384).bits,
        (12345f64 / 16384f64 * 2.0 * PI).to_bits()
    );
}

#[test]
fn encoder_reply_decodes() {
    // carry=2 rev, value=8192 (half rev) → 2*16384 + 8192 = 40960 pulses.
    let data = [0x30, 0, 0, 0, 2, 0x20, 0x00, 0x53];
    assert_eq!(decode_encoder_reply(1, &data).unwrap(), 2 * 16384 + 8192);
}

#[test]
fn negative_carry_decodes() {
    let body = [0x30, 0xFF, 0xFF, 0xFF, 0xFF, 0x00, 0x01];
    let mut data = body.to_vec();
    data.push(mks_checksum(9, &body));
    assert_eq!(decode_encoder_reply(9, &data).unwrap(), -16384 + 1);
}

#[test]
fn encoder_reply_rejects_bad_frames() {
    let good = [0x30, 0, 0, 0, 2, 0x20, 0x00, 0x53];
    assert!(decode_encoder_reply(1, &good).is_ok());
    // short frame (truncated)
    assert!(matches!(
        decode_encoder_reply(1, &good[..6]),
        Err(Error::Backend(_))
    ));
    // overlong frame
    let long = [0x30, 0, 0, 0, 2, 0x20, 0x00, 0x53, 0x00];
    assert!(matches!(
        decode_encoder_reply(1, &long),
        Err(Error::Backend(_))
    ));
    // wrong command/identity byte
    let mut wrong_cmd = good;
    wrong_cmd[0] = 0x31;
    assert!(matches!(
        decode_encoder_reply(1, &wrong_cmd),
        Err(Error::Backend(_))
    ));
    // corrupt payload → checksum mismatch
    let mut corrupt = good;
    corrupt[5] ^= 0xFF;
    assert!(matches!(
        decode_encoder_reply(1, &corrupt),
        Err(Error::Backend(_))
    ));
    // valid bytes but wrong id → checksum mismatch
    assert!(matches!(
        decode_encoder_reply(2, &good),
        Err(Error::Backend(_))
    ));
    let e = decode_encoder_reply(2, &good).unwrap_err();
    assert_eq!(e.to_string(), "backend error: malformed 0x30 encoder reply");
}

#[test]
fn enable_frame() {
    let f = encode_enable(7, true);
    assert_eq!(&f.data[..2], &[0xF3, 0x01]);
    assert!(f.checksum_ok());
}

#[test]
fn read_encoder_frame() {
    let f = encode_read_encoder(0x102);
    assert_eq!(f.id, 0x102);
    assert_eq!(f.data, vec![0x30, 0x32]);
    assert_eq!(encode_enable(7, false).data, vec![0xF3, 0, 0xFA]);
}

#[test]
fn positions_clamp_to_24_bits() {
    let up = encode_set_position(1, i32::MAX, 600, 2);
    assert_eq!(&up.data[4..7], &[0x7F, 0xFF, 0xFF]);
    let down = encode_set_position(1, i32::MIN, 600, 2);
    assert_eq!(&down.data[4..7], &[0x80, 0x00, 0x01]);
    let minus_one = encode_set_position(1, -1, 600, 2);
    assert_eq!(&minus_one.data[4..7], &[0xFF, 0xFF, 0xFF]);
}

#[test]
fn every_single_byte_change_is_caught() {
    let f = encode_set_position(5, -777, 600, 2);
    for k in 0..f.data.len() {
        for d in 1..=255u8 {
            let mut bad = f.clone();
            bad.data[k] = bad.data[k].wrapping_add(d);
            assert!(!bad.checksum_ok());
        }
    }
}

#[test]
fn can_mks_bus_ops_require_hardware() {
    let mut b = CanMksBackend::new(vec![MksMotor {
        id: 1,
        ppr: MKS_PULSES_PER_REV,
    }]);
    // codec works
    assert_eq!(b.encode_command(&v(&[0.5])).unwrap().len(), 1);
    // but the bus does not
    assert!(matches!(b.enable(), Err(Error::HardwareRequired(_))));
    assert!(matches!(b.disable(), Err(Error::HardwareRequired(_))));
    assert!(matches!(
        b.command_joint_positions(&v(&[0.5])),
        Err(Error::HardwareRequired(_))
    ));
    assert!(matches!(b.read_state(), Err(Error::HardwareRequired(_))));
    assert!(matches!(
        b.command_joint_positions(&v(&[0.5, 0.5])),
        Err(Error::DofMismatch { expected: 1, got: 2 })
    ));
    assert!(matches!(
        b.encode_command(&v(&[f64::NAN])),
        Err(Error::NonFinite { what: "q" })
    ));
    b.estop().unwrap();
    assert!(b.is_estopped() && !b.is_enabled());
    b.clear_estop().unwrap();
    assert!(!b.is_estopped());
    assert_eq!(b.mode(), ControlMode::Position);
    assert_eq!(b.joint_names(), vec!["joint_0".to_string()]);
    assert_eq!(f(b.joint_positions()[0]), 0.0);
}
