//! Behavior of the topic handler through the broker: retained
//! override, quality-of-service downgrade, and unsubscription.

use mqtt_broker::packet::Packet;
use mqtt_broker::publish::Publish;
use mqtt_broker::qos::QoSLevel;
use mqtt_broker::server::{Action, Server};
use mqtt_broker::subscribe::Subscribe;
use mqtt_broker::unsubscribe::Unsubscribe;
use mqtt_broker::utf8::Field;

fn decode_connect(client_id: &str, clean_session: bool) -> mqtt_broker::connect::Connect {
    let mut v = Field::new_from_string("MQTT").unwrap().encode();
    v.push(4u8);
    v.push(if clean_session { 0x2 } else { 0x0 });
    v.append(&mut vec![0u8, 60u8]);
    v.append(&mut Field::new_from_string(client_id).unwrap().encode());
    mqtt_broker::connect::Connect::new([0x10, v.len() as u8], &v).unwrap()
}

fn decode_subscribe(packet_id: u16, filter: &str, qos: u8) -> Subscribe {
    let mut body = vec![(packet_id >> 8) as u8, packet_id as u8];
    body.append(&mut Field::new_from_string(filter).unwrap().encode());
    body.push(qos);
    let mut v = vec![body.len() as u8];
    v.append(&mut body);
    Subscribe::read_from(&v, 0x82).unwrap()
}

fn decode_unsubscribe(packet_id: u16, filter: &str) -> Unsubscribe {
    let mut body = vec![(packet_id >> 8) as u8, packet_id as u8];
    body.append(&mut Field::new_from_string(filter).unwrap().encode());
    let mut v = vec![body.len() as u8];
    v.append(&mut body);
    Unsubscribe::read_from(&v, 0xA2).unwrap()
}

fn connect(server: &mut Server, id: &str, clean: bool) {
    let outcome = server.connect_client(decode_connect(id, clean), 0);
    assert_eq!(outcome.connack.return_code, 0);
}

fn publishes_of(actions: &[Action]) -> Vec<(&str, &Publish)> {
    let mut out = Vec::new();
    for a in actions {
        if let Action::SendPublish(m) = a {
            out.push((m.client_id.as_str(), &m.packet));
        }
    }
    out
}

#[test]
fn retained_override_clears_the_topic() {
    let mut server = Server::new(None);
    connect(&mut server, "a", true);
    let set = Publish::new(false, QoSLevel::QoSLevel0, true, "tw", b"P".to_vec(), None).unwrap();
    server.handle_packet(Packet::PublishType(set), "a", 0).unwrap();
    let clear = Publish::new(false, QoSLevel::QoSLevel0, true, "tw", b"".to_vec(), None).unwrap();
    server.handle_packet(Packet::PublishType(clear), "a", 0).unwrap();

    connect(&mut server, "b", true);
    let sub = decode_subscribe(1, "tw", 1);
    let actions = server.handle_packet(Packet::SubscribeType(sub), "b", 0).unwrap();
    assert!(publishes_of(&actions).is_empty());
}

#[test]
fn qos_downgrade_is_the_minimum() {
    let mut server = Server::new(None);
    connect(&mut server, "low", true);
    connect(&mut server, "high", true);
    connect(&mut server, "p", true);
    let s0 = decode_subscribe(1, "t", 0);
    server.handle_packet(Packet::SubscribeType(s0), "low", 0).unwrap();
    let s1 = decode_subscribe(2, "t", 1);
    server.handle_packet(Packet::SubscribeType(s1), "high", 0).unwrap();

    // published at QoS 1: each subscriber receives min(granted, published)
    let p = Publish::new(false, QoSLevel::QoSLevel1, false, "t", b"m".to_vec(), Some(5)).unwrap();
    let actions = server.handle_packet(Packet::PublishType(p), "p", 0).unwrap();
    let pubs = publishes_of(&actions);
    assert_eq!(pubs.len(), 2);
    for (to, packet) in pubs {
        match to {
            "low" => assert_eq!(packet.qos(), QoSLevel::QoSLevel0),
            "high" => assert_eq!(packet.qos(), QoSLevel::QoSLevel1),
            other => panic!("unexpected receiver {}", other),
        }
    }

    // published at QoS 0: everyone receives QoS 0
    let p = Publish::new(false, QoSLevel::QoSLevel0, false, "t", b"m".to_vec(), None).unwrap();
    let actions = server.handle_packet(Packet::PublishType(p), "p", 0).unwrap();
    for (_, packet) in publishes_of(&actions) {
        assert_eq!(packet.qos(), QoSLevel::QoSLevel0);
    }
}

#[test]
fn unsubscribe_stops_delivery() {
    let mut server = Server::new(None);
    connect(&mut server, "a", true);
    connect(&mut server, "b", true);
    let sub = decode_subscribe(1, "news", 0);
    server.handle_packet(Packet::SubscribeType(sub), "b", 0).unwrap();

    let unsub = decode_unsubscribe(2, "news");
    let actions = server
        .handle_packet(Packet::UnsubscribeType(unsub), "b", 0)
        .unwrap();
    match &actions[0] {
        Action::SendUnsuback(to, unsuback) => {
            assert_eq!(to, "b");
            assert_eq!(unsuback.packet_id(), 2);
        }
        other => panic!("expected an Unsuback, got {:?}", other),
    }

    let p = Publish::new(false, QoSLevel::QoSLevel0, false, "news", b"m".to_vec(), None).unwrap();
    let actions = server.handle_packet(Packet::PublishType(p), "a", 0).unwrap();
    assert!(publishes_of(&actions).is_empty());
}

#[test]
fn puback_settles_inflight() {
    let mut server = Server::new(None);
    connect(&mut server, "a", true);
    connect(&mut server, "b", true);
    let sub = decode_subscribe(1, "t", 1);
    server.handle_packet(Packet::SubscribeType(sub), "b", 0).unwrap();
    let p = Publish::new(false, QoSLevel::QoSLevel1, false, "t", b"m".to_vec(), Some(5)).unwrap();
    let actions = server.handle_packet(Packet::PublishType(p), "a", 0).unwrap();
    let sent_id = publishes_of(&actions)[0].1.packet_id().unwrap();

    // before the acknowledgement the publish is resent with the
    // duplicate flag; afterwards it is settled
    let resends = server.handle_timeout("b", 0, 10);
    let resent = publishes_of(&resends);
    assert_eq!(resent.len(), 1);
    assert!(resent[0].1.dup());

    let ack = mqtt_broker::puback::Puback::new(sent_id);
    server.handle_packet(Packet::PubackType(ack), "b", 0).unwrap();
    let resends = server.handle_timeout("b", 0, 20);
    assert!(publishes_of(&resends).is_empty());

    // acknowledging twice is a protocol violation
    let ack = mqtt_broker::puback::Puback::new(sent_id);
    assert!(server.handle_packet(Packet::PubackType(ack), "b", 0).is_err());
}
