//! The frame wire format: exact bytes, the framing guarantees, parsing as
//! the exact inverse, and compatibility of the serialized layout with the
//! postcard encoding it documents.

use rfconf::dispatch::write_register_command;
use rfconf::framing::{
    frame_packet, parse_frame, serialize_packet, CommandID, FrameError, Packet,
    WriteRegisterFrame, FRAME_MARKER, FRAME_TRAILER,
};

#[test]
fn write_register_command_exact_bytes() {
    let out = write_register_command(0x0B, 0x47);
    assert_eq!(out, vec![0x45, 0x01, 0x02, 0x0B, 0x47, 0xFF]);
}

#[test]
fn write_register_frame_payload_bytes() {
    let frame = WriteRegisterFrame { address: 0x2E, value: 0xC0 };
    assert_eq!(frame.to_payload(), vec![0x2E, 0xC0]);
}

#[test]
fn frame_starts_with_marker_and_adds_two_bytes() {
    // for any packet: first byte 0x45, length = serialized length + 2
    for payload in [vec![], vec![1u8], vec![7u8; 200], vec![0u8; 1000]] {
        let packet = Packet { command_id: CommandID::PerformAction, payload };
        let serialized = serialize_packet(&packet);
        let framed = frame_packet(&packet);
        assert_eq!(framed[0], FRAME_MARKER);
        assert_eq!(framed.len(), serialized.len() + 2);
        assert_eq!(framed.last(), Some(&FRAME_TRAILER));
        assert_eq!(&framed[1..framed.len() - 1], &serialized[..]);
    }
}

#[test]
fn empty_payload_frame() {
    let packet = Packet { command_id: CommandID::Ping, payload: vec![] };
    assert_eq!(frame_packet(&packet), vec![0x45, 0x00, 0x00, 0xFF]);
}

#[test]
fn long_payload_uses_two_byte_length() {
    let packet = Packet { command_id: CommandID::ReadRegister, payload: vec![9u8; 130] };
    let framed = frame_packet(&packet);
    // 130 = 0b1000_0010: varint low byte 0x82, then 0x01
    assert_eq!(framed[..4], [0x45, 0x02, 0x82, 0x01]);
    assert_eq!(framed.len(), 1 + 1 + 2 + 130 + 1);
}

#[test]
fn command_bytes_are_ordinals() {
    assert_eq!(CommandID::Ping.wire_byte(), 0);
    assert_eq!(CommandID::WriteRegister.wire_byte(), 1);
    assert_eq!(CommandID::ReadRegister.wire_byte(), 2);
    assert_eq!(CommandID::PerformAction.wire_byte(), 3);
    assert_eq!(CommandID::from_wire_byte(3), Some(CommandID::PerformAction));
    assert_eq!(CommandID::from_wire_byte(4), None);
}

#[test]
fn parse_inverts_frame() {
    for payload in [vec![], vec![0x0B, 0x47], vec![5u8; 300]] {
        let packet = Packet { command_id: CommandID::WriteRegister, payload };
        let framed = frame_packet(&packet);
        assert_eq!(parse_frame(&framed), Ok(packet));
    }
}

#[test]
fn parse_rejects_short_input() {
    assert_eq!(parse_frame(&[]), Err(FrameError::TooShort));
    assert_eq!(parse_frame(&[0x45, 0x00, 0x00]), Err(FrameError::TooShort));
}

#[test]
fn parse_rejects_bad_marker() {
    assert_eq!(parse_frame(&[0x44, 0x00, 0x00, 0xFF]), Err(FrameError::BadMarker));
}

#[test]
fn parse_rejects_unknown_command() {
    assert_eq!(parse_frame(&[0x45, 0x09, 0x00, 0xFF]), Err(FrameError::BadCommand));
}

#[test]
fn parse_rejects_wrong_length() {
    // length field says one payload byte, none present
    assert_eq!(parse_frame(&[0x45, 0x00, 0x01, 0xFF]), Err(FrameError::BadLength));
    // length field says none, one present
    assert_eq!(parse_frame(&[0x45, 0x00, 0x00, 0x33, 0xFF]), Err(FrameError::BadLength));
}

#[test]
fn parse_rejects_padded_length_field() {
    // 0x80 0x00 denotes zero in two bytes; only the one-byte form is a frame
    assert_eq!(
        parse_frame(&[0x45, 0x00, 0x80, 0x00, 0xFF]),
        Err(FrameError::BadLength)
    );
}

#[test]
fn parse_rejects_unterminated_length_field() {
    assert_eq!(
        parse_frame(&[0x45, 0x00, 0x80, 0x80, 0x80]),
        Err(FrameError::TooShort)
    );
}

#[test]
fn parse_rejects_bad_trailer() {
    assert_eq!(parse_frame(&[0x45, 0x00, 0x00, 0xFE]), Err(FrameError::BadTrailer));
}

#[test]
fn serialized_layout_matches_postcard() {
    // the documented wire layout (ordinal command byte, varint-length-prefixed
    // payload) is exactly what postcard produces for the same data
    for payload in [vec![], vec![0x0B, 0x47], vec![0xABu8; 130]] {
        let packet = Packet { command_id: CommandID::WriteRegister, payload: payload.clone() };
        let ours = serialize_packet(&packet);
        let theirs = postcard::to_allocvec(&(1u8, payload)).unwrap();
        assert_eq!(ours, theirs);
    }
}
