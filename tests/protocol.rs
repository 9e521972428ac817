use mindfry::protocol::{ErrorCode, EventMask, LineageStatus, MfbpCodec, MfbpError, OpCode, PhysicsParam};

#[test]
fn test_opcode_roundtrip() {
    let op = OpCode::LineageCreate;
    assert_eq!(OpCode::from_byte(op.as_byte()), Some(op));
}

#[test]
fn test_opcode_ranges() {
    assert!(OpCode::LineageCreate.as_byte() >= 0x10);
    assert!(OpCode::LineageCreate.as_byte() < 0x20);
    assert!(OpCode::BondConnect.as_byte() >= 0x20);
    assert!(OpCode::BondConnect.as_byte() < 0x30);
    assert!(OpCode::ResponseOk.is_response());
    assert!(!OpCode::SysPing.is_response());
}

#[test]
fn every_byte_round_trips_or_is_unknown() {
    let mut known = 0;
    for b in 0..=255u8 {
        if let Some(op) = OpCode::from_byte(b) {
            assert_eq!(op.as_byte(), b);
            known += 1;
        }
    }
    assert_eq!(known, 24);
    assert_eq!(OpCode::from_byte(0x15), None);
}

#[test]
fn test_event_mask() {
    assert_eq!(EventMask::LineageCreated.bits(), 1);
    assert_eq!(EventMask::SnapshotCreated.bits(), 64);
    assert_eq!(EventMask::All.bits(), 0xFFFF_FFFF);
}

#[test]
fn error_codes_and_params() {
    assert_eq!(ErrorCode::from_byte(0x11), ErrorCode::LineageExists);
    assert_eq!(ErrorCode::from_byte(0x99), ErrorCode::Unknown);
    assert_eq!(ErrorCode::Internal.as_byte(), 0xFF);
    assert_eq!(PhysicsParam::from_byte(3), Some(PhysicsParam::BondPruneThreshold));
    assert_eq!(PhysicsParam::from_byte(9), None);
}

#[test]
fn frame_layout() {
    let frame = MfbpCodec::wrap_frame(OpCode::SysPing, &[7, 8]);
    assert_eq!(frame, vec![3, 0, 0, 0, 0x40, 7, 8]);
}

#[test]
fn string_field_round_trip() {
    let mut buf = Vec::new();
    MfbpCodec::write_string(&mut buf, "fire");
    assert_eq!(buf, vec![4, 0, b'f', b'i', b'r', b'e']);
    let mut cursor = 0usize;
    assert_eq!(MfbpCodec::read_string(&buf, &mut cursor), Ok("fire".to_string()));
    assert_eq!(cursor, 6);
    assert_eq!(MfbpCodec::read_string(&buf, &mut cursor), Err(MfbpError::PayloadTooShort));
}

#[test]
fn string_field_errors() {
    let mut cursor = 0usize;
    assert_eq!(MfbpCodec::read_string(&[5, 0, b'a'], &mut cursor), Err(MfbpError::PayloadTooShort));
    let mut cursor = 0usize;
    assert_eq!(MfbpCodec::read_string(&[2, 0, 0xFF, 0xFE], &mut cursor), Err(MfbpError::InvalidUtf8));
}

#[test]
fn integer_fields() {
    let buf = [0x78, 0x56, 0x34, 0x12, 0x09];
    let mut cursor = 0usize;
    assert_eq!(MfbpCodec::read_u32(&buf, &mut cursor), Ok(0x1234_5678));
    assert_eq!(MfbpCodec::read_u8(&buf, &mut cursor), Ok(9));
    assert_eq!(cursor, 5);
    assert_eq!(MfbpCodec::read_u8(&buf, &mut cursor), Err(MfbpError::PayloadTooShort));
    assert_eq!(MfbpCodec::read_u32(&buf, &mut cursor), Err(MfbpError::PayloadTooShort));
}

#[test]
fn lineage_status_bytes() {
    assert_eq!(LineageStatus::Found.as_byte(), 0);
    assert_eq!(LineageStatus::Dormant.as_byte(), 3);
}
