//! Decoding tests for the Unsubscribe packet.

use mqtt_broker::errors::{ErrorKind, PacketError};
use mqtt_broker::unsubscribe::Unsubscribe;
use mqtt_broker::utf8::Field;

#[test]
fn test_unsubscribe_packet_with_empty_topic_filter_should_raise_invalid_protocol_error() {
    let control_byte = 0b10100010u8;
    let v: Vec<u8> = vec![2, 0, 1]; // remaining length + packet id + no payload
    let result = Unsubscribe::read_from(&v, control_byte).unwrap_err();
    let expected_error = PacketError::new_kind(
        "Unsubscribe packet must contain at least one topic filter",
        ErrorKind::InvalidProtocol,
    );
    assert_eq!(result, expected_error);
}

#[test]
fn test_unsubscribe_packet_with_empty_string_as_topic_filter_should_raise_invalid_protocol_error() {
    let control_byte = 0b10100010u8;
    let v: Vec<u8> = vec![4, 0, 1, 0, 0]; // remaining length + packet id + two bytes as 0 indicating empty string as topic filter
    let result = Unsubscribe::read_from(&v, control_byte).unwrap_err();
    let expected_error = PacketError::new_kind(
        "Topic filter must be at least one character long",
        ErrorKind::InvalidProtocol,
    );
    assert_eq!(result, expected_error);
}

#[test]
fn test_unsubscribe_packet_with_control_byte_other_than_10_should_raise_invalid_control_packet_type_error(
) {
    let control_byte = 0b10000010u8; // control byte 8 + 0010 reserved bits
    let mut topic = Field::new_from_string("temperatura/uruguay").unwrap().encode();
    let mut v: Vec<u8> = vec![23, 0, 1]; // remaining length + packet id
    v.append(&mut topic); // + payload
    let result = Unsubscribe::read_from(&v, control_byte).unwrap_err();
    let expected_error = PacketError::new_kind(
        "Packet type must be 10 for a Unsubscribe packet",
        ErrorKind::InvalidControlPacketType,
    );
    assert_eq!(result, expected_error);
}

#[test]
fn test_unsubscribe_packet_with_reserved_bits_other_than_2_should_raise_error() {
    let control_byte = 0b10100000u8; // control byte 10 + reserved bits 0000
    let mut topic = Field::new_from_string("temperatura/uruguay").unwrap().encode();
    let mut v: Vec<u8> = vec![23, 0, 1]; // remaining length + packet id
    v.append(&mut topic); // + payload
    let result = Unsubscribe::read_from(&v, control_byte).unwrap_err();
    let expected_error = PacketError::new_kind(
        "Reserved bits are not equal to 2",
        ErrorKind::InvalidReservedBits,
    );
    assert_eq!(result, expected_error);
}

#[test]
fn test_valid_unsubscribe_packet_with_one_topic() {
    let control_byte = 0b10100010u8; // control byte 10 + reserved bits 0010
    let mut topic = Field::new_from_string("temperatura/uruguay").unwrap().encode();
    let mut v: Vec<u8> = vec![23, 0, 1]; // remaining length + packet id
    v.append(&mut topic); // + payload
    let result = Unsubscribe::read_from(&v, control_byte).unwrap();
    assert_eq!(result.packet_id(), 1u16);
    assert_eq!(
        *result.topic_filters(),
        vec!["temperatura/uruguay".to_string()]
    );
}

#[test]
fn test_valid_unsubscribe_packet_with_two_topics() {
    let control_byte = 0b10100010u8; // control byte 10 + reserved bits 0010
    let mut topic_uruguay = Field::new_from_string("temperatura/uruguay").unwrap().encode();
    let mut topic_argentina = Field::new_from_string("temperatura/argentina").unwrap().encode();
    let mut v: Vec<u8> = vec![46, 0, 1]; // remaining length + packet id
    v.append(&mut topic_uruguay); // + payload
    v.append(&mut topic_argentina); // + payload
    let result = Unsubscribe::read_from(&v, control_byte).unwrap();
    let expected_id = 1u16;
    let expected_topic_filters = vec![
        "temperatura/uruguay".to_string(),
        "temperatura/argentina".to_string(),
    ];
    assert_eq!(result.packet_id(), expected_id);
    assert_eq!(*result.topic_filters(), expected_topic_filters);
}
