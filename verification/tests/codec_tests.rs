//! Unit tests for the codec: the remaining-length varint, round trips
//! of whole packets, wildcard matching, and retained-message rules.

use mqtt_broker::connack::Connack;
use mqtt_broker::disconnect::Disconnect;
use mqtt_broker::errors::ErrorKind;
use mqtt_broker::packet::{get_code_type, PacketType};
use mqtt_broker::packet_reader::{encode_remaining_length, read_remaining_length};
use mqtt_broker::pingresp::PingResp;
use mqtt_broker::puback::Puback;
use mqtt_broker::publish::Publish;
use mqtt_broker::qos::QoSLevel;
use mqtt_broker::suback::Suback;
use mqtt_broker::topic_filter::{filter_matches, is_valid_filter};
use mqtt_broker::traits::{MQTTDecoding, MQTTEncoding};
use mqtt_broker::unsuback::Unsuback;

#[test]
fn remaining_length_round_trips() {
    for n in [0u32, 127, 128, 16383, 16384, 2097151, 2097152, 268435455] {
        let bytes = encode_remaining_length(n).unwrap();
        let (value, consumed) = read_remaining_length(&bytes, 0).unwrap();
        assert_eq!(value, n);
        assert_eq!(consumed, bytes.len());
    }
}

#[test]
fn remaining_length_over_maximum_is_rejected() {
    let err = encode_remaining_length(268435456).unwrap_err();
    assert_eq!(err.kind(), ErrorKind::MalformedLength);
    // five continuation bytes never form a valid varint
    let err = read_remaining_length(&[0x80, 0x80, 0x80, 0x80, 0x01], 0).unwrap_err();
    assert_eq!(err.kind(), ErrorKind::MalformedLength);
}

#[test]
fn remaining_length_wire_forms() {
    assert_eq!(encode_remaining_length(0).unwrap(), vec![0x00]);
    assert_eq!(encode_remaining_length(127).unwrap(), vec![0x7F]);
    assert_eq!(encode_remaining_length(128).unwrap(), vec![0x80, 0x01]);
    assert_eq!(encode_remaining_length(16383).unwrap(), vec![0xFF, 0x7F]);
    assert_eq!(
        encode_remaining_length(268435455).unwrap(),
        vec![0xFF, 0xFF, 0xFF, 0x7F]
    );
}

fn roundtrip<T: MQTTEncoding + MQTTDecoding>(p: &T) -> T {
    let bytes = p.encode().unwrap();
    <T as MQTTDecoding>::read_from(&bytes[1..], bytes[0]).unwrap()
}

#[test]
fn publish_round_trip() {
    let p = Publish::new(
        true,
        QoSLevel::QoSLevel1,
        true,
        "a/b/c",
        b"payload".to_vec(),
        Some(777),
    )
    .unwrap();
    let q = roundtrip(&p);
    assert_eq!(q.dup(), true);
    assert_eq!(q.qos(), QoSLevel::QoSLevel1);
    assert_eq!(q.retain(), true);
    assert_eq!(q.topic_name(), "a/b/c");
    assert_eq!(*q.payload(), b"payload".to_vec());
    assert_eq!(q.packet_id(), Some(777));
}

#[test]
fn publish_qos0_round_trip() {
    let p = Publish::new(false, QoSLevel::QoSLevel0, false, "t", b"".to_vec(), None).unwrap();
    let q = roundtrip(&p);
    assert_eq!(q.packet_id(), None);
    assert_eq!(q.qos(), QoSLevel::QoSLevel0);
    assert_eq!(*q.payload(), Vec::<u8>::new());
}

#[test]
fn small_packets_round_trip() {
    let q = roundtrip(&Puback::new(4242));
    assert_eq!(q.packet_id(), 4242);
    let q = roundtrip(&Unsuback::new(77));
    assert_eq!(q.packet_id(), 77);
    let q = roundtrip(&Connack::new(true, 5).unwrap());
    assert!(q.session_present());
    assert_eq!(q.return_code(), 5);
    let bytes = Disconnect::new().encode().unwrap();
    assert_eq!(bytes, vec![0xE0, 0x00]);
    let bytes = PingResp::new().encode().unwrap();
    assert_eq!(bytes, vec![0xD0, 0x00]);
    let q = roundtrip(&Suback::new(3, vec![0, 1, 128]));
    assert_eq!(q.packet_id(), 3);
    assert_eq!(*q.return_codes(), vec![0u8, 1, 128]);
}

#[test]
fn publish_with_wildcard_topic_is_rejected() {
    assert!(Publish::new(false, QoSLevel::QoSLevel0, false, "a/+/b", b"x".to_vec(), None).is_err());
    assert!(Publish::new(false, QoSLevel::QoSLevel0, false, "", b"x".to_vec(), None).is_err());
    assert!(Publish::new(false, QoSLevel::QoSLevel0, false, "ok", b"x".to_vec(), Some(1)).is_err());
}

#[test]
fn code_types() {
    assert_eq!(get_code_type(1).unwrap(), PacketType::Connect);
    assert_eq!(get_code_type(3).unwrap(), PacketType::Publish);
    assert_eq!(get_code_type(14).unwrap(), PacketType::Disconnect);
    assert_eq!(
        get_code_type(5).unwrap_err().kind(),
        ErrorKind::InvalidControlPacketType
    );
    assert_eq!(
        get_code_type(0).unwrap_err().kind(),
        ErrorKind::InvalidControlPacketType
    );
}

#[test]
fn wildcard_matching() {
    assert!(filter_matches("sensors/+/temp", "sensors/room1/temp"));
    assert!(!filter_matches("sensors/+/temp", "sensors/room1/hum"));
    assert!(!filter_matches("sensors/+/temp", "sensors/a/b/temp"));
    assert!(filter_matches("sport/#", "sport"));
    assert!(filter_matches("sport/#", "sport/tennis/player1"));
    assert!(filter_matches("#", "a/b/c"));
    assert!(filter_matches("+/+", "/finance"));
    assert!(filter_matches("/+", "/finance"));
    assert!(!filter_matches("+", "/finance"));
    assert!(filter_matches("a/b", "a/b"));
    assert!(!filter_matches("a/b", "a/b/c"));
    // topics beginning with $ do not match wildcards at the root
    assert!(!filter_matches("#", "$SYS/foo"));
    assert!(!filter_matches("+/foo", "$SYS/foo"));
    assert!(filter_matches("$SYS/#", "$SYS/foo"));
}

#[test]
fn filter_validity() {
    assert!(is_valid_filter("a/b/c"));
    assert!(is_valid_filter("#"));
    assert!(is_valid_filter("a/+/b"));
    assert!(is_valid_filter("a/#"));
    assert!(is_valid_filter("/"));
    assert!(!is_valid_filter(""));
    assert!(!is_valid_filter("a/#/b"));
    assert!(!is_valid_filter("a+/b"));
    assert!(!is_valid_filter("a/b#"));
}

#[test]
fn connack_codes() {
    assert!(Connack::new(false, 6).is_err());
    for code in 0u8..=5 {
        assert_eq!(Connack::new(false, code).unwrap().return_code(), code);
    }
}

#[test]
fn invalid_utf8_field_is_rejected() {
    // an unsubscribe whose filter bytes are not UTF-8
    let v: Vec<u8> = vec![6, 0, 1, 0, 2, 0xC3, 0x28];
    let err = mqtt_broker::unsubscribe::Unsubscribe::read_from(&v, 0xA2).unwrap_err();
    assert_eq!(err.kind(), ErrorKind::InvalidUtf8);
    // a field containing U+0000 is rejected too
    let v: Vec<u8> = vec![6, 0, 1, 0, 2, 0x61, 0x00];
    let err = mqtt_broker::unsubscribe::Unsubscribe::read_from(&v, 0xA2).unwrap_err();
    assert_eq!(err.kind(), ErrorKind::InvalidUtf8);
}

#[test]
fn truncated_packets_are_rejected() {
    // a Puback whose body ends before the packet identifier
    let err = <Puback as MQTTDecoding>::read_from(&[2, 0], 0x40).unwrap_err();
    assert_eq!(err.kind(), ErrorKind::UnexpectedEof);
    // a declared body longer than the bytes that follow
    let err = <Puback as MQTTDecoding>::read_from(&[9, 0, 1], 0x40).unwrap_err();
    assert_eq!(err.kind(), ErrorKind::UnexpectedEof);
    // a wrong remaining length for a Puback
    let err = <Puback as MQTTDecoding>::read_from(&[3, 0, 1, 0], 0x40).unwrap_err();
    assert_eq!(err.kind(), ErrorKind::MalformedLength);
}
