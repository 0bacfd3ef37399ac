//! Decoding tests for the Connect packet.

use mqtt_broker::connect::Connect;
use mqtt_broker::errors::ErrorKind;
use mqtt_broker::utf8::Field;

const HEADER_1: u8 = 0b00010000;

#[test]
fn test_keep_alive() {
    let mut v = Field::new_from_string("MQTT").unwrap().encode();
    v.push(4u8); // level
    v.push(0u8); // flags
    v.append(&mut vec![16u8, 60u8]); // keep alive
    v.append(&mut Field::new_from_string("id").unwrap().encode());

    let headers = [HEADER_1, v.len() as u8];

    assert_eq!(
        *Connect::new(headers, &v).unwrap().keep_alive(),
        ((16 << 8) + 60) as u16
    );
}

#[test]
fn test_invalid_protocol() {
    let mut v = Field::new_from_string("Not MQTT").unwrap().encode();
    v.push(4u8); // level
    v.push(0u8); // flags
    v.append(&mut vec![0u8, 60u8]); // keep alive
    v.append(&mut Field::new_from_string("id").unwrap().encode());

    let headers = [HEADER_1, v.len() as u8];

    assert_eq!(
        Connect::new(headers, &v).unwrap_err().kind(),
        ErrorKind::InvalidProtocol
    );
}

#[test]
fn test_invalid_protocol_level() {
    let mut v = Field::new_from_string("MQTT").unwrap().encode();
    v.push(7u8); // level
    v.push(0u8); // flags
    v.append(&mut vec![0u8, 60u8]); // keep alive
    v.append(&mut Field::new_from_string("id").unwrap().encode());

    let headers = [HEADER_1, v.len() as u8];

    assert_eq!(
        Connect::new(headers, &v).unwrap_err().kind(),
        ErrorKind::InvalidProtocolLevel
    );
}

#[test]
fn test_invalid_reserved_flag() {
    let mut v = Field::new_from_string("MQTT").unwrap().encode();
    v.push(4u8); // level
    v.push(0x1u8); // flags with the reserved bit set
    v.append(&mut vec![0u8, 60u8]); // keep alive
    v.append(&mut Field::new_from_string("id").unwrap().encode());

    let headers = [HEADER_1, v.len() as u8];

    assert_eq!(
        Connect::new(headers, &v).unwrap_err().kind(),
        ErrorKind::InvalidFlags
    );
}

#[test]
fn test_will_flag_0_topic_message_1() {
    let mut v = Field::new_from_string("MQTT").unwrap().encode();
    v.push(4u8); // level
    v.push(0x8u8 | 0x10u8 | 0x20u8); // will qos and retain without the will flag
    v.append(&mut Field::new_from_string("id").unwrap().encode());
    v.append(&mut vec![0u8, 60u8]); // keep alive

    let headers = [HEADER_1, v.len() as u8];

    assert_eq!(
        Connect::new(headers, &v).unwrap_err().kind(),
        ErrorKind::InvalidFlags
    );
}

#[test]
fn test_username_missing_but_needed() {
    let mut v = Field::new_from_string("MQTT").unwrap().encode();
    v.push(4u8); // level
    v.push(0x80u8); // user name flag
    v.append(&mut vec![0u8, 60u8]); // keep alive
    v.append(&mut Field::new_from_string("id").unwrap().encode());

    let headers = [HEADER_1, v.len() as u8];

    assert!(Connect::new(headers, &v).is_err());
}

#[test]
fn test_username_present_but_shouldnt() {
    let mut v = Field::new_from_string("MQTT").unwrap().encode();
    v.push(4u8); // level
    v.push(0); // flags
    v.append(&mut vec![0u8, 60u8]); // keep alive
    v.append(&mut Field::new_from_string("id").unwrap().encode());
    v.append(&mut Field::new_from_string("unNombre").unwrap().encode());

    let headers = [HEADER_1, v.len() as u8];

    assert!(Connect::new(headers, &v).is_err());
}

#[test]
fn test_connect_clean_session() {
    let mut v = Field::new_from_string("MQTT").unwrap().encode();
    v.push(4u8); // level
    v.push(0x2u8); // clean session flag
    v.append(&mut vec![0u8, 60u8]); // keep alive
    v.append(&mut Field::new_from_string("id").unwrap().encode());

    let headers = [HEADER_1, v.len() as u8];

    assert!(*Connect::new(headers, &v).unwrap().clean_session());
}

#[test]
fn test_will_flag() {
    let mut v = Field::new_from_string("MQTT").unwrap().encode();
    v.push(4u8); // level
    v.push(0x4u8 | 0x20u8); // will flag and will retain
    v.append(&mut vec![0u8, 60u8]); // keep alive
    v.append(&mut Field::new_from_string("id").unwrap().encode());
    v.append(&mut Field::new_from_string("soyUnTopic").unwrap().encode());
    v.append(&mut Field::new_from_string("soyUnMensaje").unwrap().encode());

    let headers = [HEADER_1, v.len() as u8];
    let packet = Connect::new(headers, &v).unwrap();
    let will = packet.last_will().unwrap();

    assert!(will.retain);
    assert_eq!(will.topic, "soyUnTopic");
    assert_eq!(will.message, "soyUnMensaje");
}

#[test]
fn test_will_flag_username_password() {
    let mut v = Field::new_from_string("MQTT").unwrap().encode();
    v.push(4u8); // level
    v.push(0x4u8 | 0x20u8 | 0x80u8 | 0x40u8); // will flag, will retain, user name, password
    v.append(&mut vec![0u8, 60u8]); // keep alive
    v.append(&mut Field::new_from_string("id").unwrap().encode());
    v.append(&mut Field::new_from_string("soyUnTopic").unwrap().encode());
    v.append(&mut Field::new_from_string("soyUnMensaje").unwrap().encode());
    v.append(&mut Field::new_from_string("siAlguienLeeEstoFelicitaciones").unwrap().encode());
    v.append(&mut Field::new_from_string("contraseñaSuperSecreta").unwrap().encode());

    let headers = [HEADER_1, v.len() as u8];
    let packet = Connect::new(headers, &v).unwrap();
    let will = packet.last_will().unwrap();

    assert!(will.retain);
    assert_eq!(will.topic, "soyUnTopic");
    assert_eq!(will.message, "soyUnMensaje");
    assert_eq!(
        packet.user_name().unwrap(),
        "siAlguienLeeEstoFelicitaciones"
    );
    assert_eq!(packet.password().unwrap(), "contraseñaSuperSecreta");
}
