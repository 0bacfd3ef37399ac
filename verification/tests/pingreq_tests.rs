//! Decoding tests for the PingReq packet.

use mqtt_broker::errors::ErrorKind;
use mqtt_broker::pingreq::PingReq;

#[test]
fn test_valid() {
    let control_byte = 0b11000000;
    let remaining_bytes = vec![0b00000000];
    let packet = PingReq::read_from(&remaining_bytes, control_byte);
    assert!(packet.is_ok());
}

#[test]
fn test_invalid_packet_type() {
    let control_byte = 0b11100000;
    let remaining_bytes = vec![0b00000000];
    let packet = PingReq::read_from(&remaining_bytes, control_byte);
    assert!(packet.is_err());
    assert_eq!(
        packet.err().unwrap().kind(),
        ErrorKind::InvalidControlPacketType
    );
}

#[test]
fn test_invalid_reserved_bytes() {
    let control_byte = 0b11000010;
    let remaining_bytes = vec![0b00000000];
    let packet = PingReq::read_from(&remaining_bytes, control_byte);
    assert!(packet.is_err());
}

#[test]
fn test_invalid_remaining_length() {
    let control_byte = 0b11000000;
    let remaining_bytes = vec![0b00000001, 0b00000000];
    let packet = PingReq::read_from(&remaining_bytes, control_byte);
    assert!(packet.is_err());
}
