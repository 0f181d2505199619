//! Frame parser behaviour on concrete read windows.

use serial_logger::parse_serial;
use serial_logger::wire::acquisition_action;
use serial_logger::FrameError;
use serial_logger::LoopAction;
use serial_logger::OpCode;

#[test]
fn parses_complete_frame_with_zero_fill() {
    // opcode 55, size 4, payload "678" (3 chars + 1 for the terminator).
    let rec = parse_serial(b"554678\r\n\0\0").unwrap();
    assert_eq!(rec.opcode, Some(OpCode::CommStart));
    assert_eq!(rec.size, 4);
    assert_eq!(rec.data, 678);
}

#[test]
fn parses_frame_ending_exactly_at_window_boundary() {
    // No terminator: the payload runs to the end of the window.
    let rec = parse_serial(b"55612345").unwrap();
    assert_eq!(rec.opcode, Some(OpCode::CommStart));
    assert_eq!(rec.size, 6);
    assert_eq!(rec.data, 12345);
}

#[test]
fn payload_stops_at_first_terminator() {
    // Bytes after the terminator pair are not part of the payload.
    let rec = parse_serial(b"5527\r\n99\0\0").unwrap();
    assert_eq!(rec.size, 2);
    assert_eq!(rec.data, 7);
}

#[test]
fn maps_every_known_opcode() {
    let cases: [(&[u8; 10], OpCode); 5] = [
        (b"5527\r\n\0\0\0\0", OpCode::CommStart),
        (b"5627\r\n\0\0\0\0", OpCode::CommEnd),
        (b"5727\r\n\0\0\0\0", OpCode::CommHalt),
        (b"5827\r\n\0\0\0\0", OpCode::CommError),
        (b"5927\r\n\0\0\0\0", OpCode::CommSend),
    ];
    for (window, op) in cases {
        let rec = parse_serial(window).unwrap();
        assert_eq!(rec.opcode, Some(op));
        assert_eq!(rec.data, 7);
    }
}

#[test]
fn unknown_opcode_still_yields_record() {
    // Opcode 60 is outside the mapped set, but the frame is valid.
    let rec = parse_serial(b"604678\r\n\0\0").unwrap();
    assert_eq!(rec.opcode, None);
    assert_eq!(rec.size, 4);
    assert_eq!(rec.data, 678);
}

#[test]
fn declared_size_against_measured_length() {
    // "55056789\r\n": opcode 55, declared size 0, payload "56789".
    // The measured length 5 plus one is 6, not 0: rejected.
    assert_eq!(parse_serial(b"55056789\r\n"), Err(FrameError::LengthMismatch));
}

#[test]
fn length_mismatch_when_size_overstates() {
    // Payload "678" measures 3 + 1 = 4, but the frame declares 9.
    assert_eq!(parse_serial(b"559678\r\n\0\0"), Err(FrameError::LengthMismatch));
}

#[test]
fn rejects_non_digit_opcode() {
    assert_eq!(parse_serial(b"5a4678\r\n\0\0"), Err(FrameError::BadOpcode));
}

#[test]
fn rejects_window_of_only_zero_fill() {
    assert_eq!(parse_serial(b"\0\0\0\0\0\0\0\0\0\0"), Err(FrameError::BadOpcode));
}

#[test]
fn rejects_non_digit_size() {
    assert_eq!(parse_serial(b"55x678\r\n\0\0"), Err(FrameError::BadSize));
}

#[test]
fn rejects_non_numeric_payload() {
    assert_eq!(parse_serial(b"554abc\r\n\0\0"), Err(FrameError::BadPayload));
}

#[test]
fn rejects_empty_payload() {
    assert_eq!(parse_serial(b"554\r\n\0\0\0\0\0"), Err(FrameError::BadPayload));
}

#[test]
fn rejects_payload_beyond_sixteen_bits() {
    // 99999 does not fit in 16 bits, even though the length would check out.
    assert_eq!(parse_serial(b"55699999\r\n"), Err(FrameError::BadPayload));
}

#[test]
fn rejects_non_text_byte() {
    let window: [u8; 10] = [0x35, 0x35, 0x34, 0x36, 0x80, 0x38, 13, 10, 0, 0];
    assert_eq!(parse_serial(&window), Err(FrameError::NotText));
}

#[test]
fn from_u8_maps_the_five_control_codes() {
    assert_eq!(OpCode::from_u8(55), Ok(OpCode::CommStart));
    assert_eq!(OpCode::from_u8(56), Ok(OpCode::CommEnd));
    assert_eq!(OpCode::from_u8(57), Ok(OpCode::CommHalt));
    assert_eq!(OpCode::from_u8(58), Ok(OpCode::CommError));
    assert_eq!(OpCode::from_u8(59), Ok(OpCode::CommSend));
}

#[test]
fn from_u8_rejects_values_outside_the_set() {
    assert!(OpCode::from_u8(54).is_err());
    assert!(OpCode::from_u8(60).is_err());
    assert!(OpCode::from_u8(0).is_err());
}

#[test]
fn handshake_policy_per_opcode() {
    assert_eq!(acquisition_action(&Some(OpCode::CommStart)), LoopAction::AcknowledgeStart);
    assert_eq!(acquisition_action(&Some(OpCode::CommEnd)), LoopAction::AnnounceEnd);
    assert_eq!(acquisition_action(&Some(OpCode::CommHalt)), LoopAction::Ignore);
    assert_eq!(acquisition_action(&Some(OpCode::CommSend)), LoopAction::Ignore);
    assert_eq!(acquisition_action(&None), LoopAction::Ignore);
}
