//! End-to-end scenarios over the broker core: each drives a fresh
//! broker with decoded packets and checks the packets it decides to
//! send.

use mqtt_broker::connect::Connect;
use mqtt_broker::packet::Packet;
use mqtt_broker::publish::Publish;
use mqtt_broker::qos::QoSLevel;
use mqtt_broker::server::{Action, Server};
use mqtt_broker::subscribe::Subscribe;
use mqtt_broker::utf8::Field;

/// The bytes after the fixed header of a Connect packet.
fn connect_body(
    client_id: &str,
    clean_session: bool,
    will: Option<(&str, &str, u8, bool)>,
) -> Vec<u8> {
    let mut v = Field::new_from_string("MQTT").unwrap().encode();
    v.push(4u8);
    let mut flags = 0u8;
    if clean_session {
        flags |= 0x2;
    }
    if let Some((_, _, qos, retain)) = will {
        flags |= 0x4;
        if qos == 1 {
            flags |= 0x8;
        }
        if retain {
            flags |= 0x20;
        }
    }
    v.push(flags);
    v.append(&mut vec![0u8, 60u8]);
    v.append(&mut Field::new_from_string(client_id).unwrap().encode());
    if let Some((topic, message, _, _)) = will {
        v.append(&mut Field::new_from_string(topic).unwrap().encode());
        v.append(&mut Field::new_from_string(message).unwrap().encode());
    }
    v
}

fn decode_connect(client_id: &str, clean_session: bool, will: Option<(&str, &str, u8, bool)>) -> Connect {
    let v = connect_body(client_id, clean_session, will);
    Connect::new([0x10, v.len() as u8], &v).unwrap()
}

fn decode_subscribe(packet_id: u16, filter: &str, qos: u8) -> Subscribe {
    let mut body = vec![(packet_id >> 8) as u8, packet_id as u8];
    body.append(&mut Field::new_from_string(filter).unwrap().encode());
    body.push(qos);
    let mut v = vec![body.len() as u8];
    v.append(&mut body);
    Subscribe::read_from(&v, 0x82).unwrap()
}

fn connect(server: &mut Server, id: &str, clean: bool, will: Option<(&str, &str, u8, bool)>) -> (u8, bool) {
    let c = decode_connect(id, clean, will);
    let outcome = server.connect_client(c, 0);
    (outcome.connack.return_code, outcome.connack.session_present)
}

fn publishes_of(actions: &[Action]) -> Vec<(&str, &Publish)> {
    let mut out = Vec::new();
    for a in actions {
        if let Action::SendPublish(m) = a {
            out.push((m.client_id.as_str(), &m.packet));
        }
    }
    out
}

#[test]
fn pub_sub_basic() {
    let mut server = Server::new(None);
    assert_eq!(connect(&mut server, "a", true, None), (0, false));
    assert_eq!(connect(&mut server, "b", true, None), (0, false));

    let sub = decode_subscribe(7, "sensors/+/temp", 1);
    let actions = server
        .handle_packet(Packet::SubscribeType(sub), "b", 0)
        .unwrap();
    match &actions[0] {
        Action::SendSuback(to, suback) => {
            assert_eq!(to, "b");
            assert_eq!(suback.packet_id(), 7);
            assert_eq!(*suback.return_codes(), vec![1u8]);
        }
        other => panic!("expected a Suback, got {:?}", other),
    }

    let p = Publish::new(
        false,
        QoSLevel::QoSLevel1,
        false,
        "sensors/room1/temp",
        b"21.5".to_vec(),
        Some(42),
    )
    .unwrap();
    let actions = server
        .handle_packet(Packet::PublishType(p), "a", 0)
        .unwrap();
    match &actions[0] {
        Action::SendPuback(to, puback) => {
            assert_eq!(to, "a");
            assert_eq!(puback.packet_id(), 42);
        }
        other => panic!("expected a Puback, got {:?}", other),
    }
    let pubs = publishes_of(&actions);
    assert_eq!(pubs.len(), 1);
    let (to, packet) = pubs[0];
    assert_eq!(to, "b");
    assert_eq!(packet.topic_name(), "sensors/room1/temp");
    assert_eq!(*packet.payload(), b"21.5".to_vec());
    assert_eq!(packet.qos(), QoSLevel::QoSLevel1);
    assert!(!packet.dup());
}

#[test]
fn retained_replay() {
    let mut server = Server::new(None);
    assert_eq!(connect(&mut server, "a", true, None), (0, false));
    let p = Publish::new(false, QoSLevel::QoSLevel0, true, "status", b"UP".to_vec(), None).unwrap();
    let actions = server.handle_packet(Packet::PublishType(p), "a", 0).unwrap();
    assert!(publishes_of(&actions).is_empty());
    let actions = server.handle_packet(
        Packet::DisconnectType(mqtt_broker::disconnect::Disconnect::new()),
        "a",
        0,
    );
    assert!(actions.is_ok());

    assert_eq!(connect(&mut server, "b", true, None), (0, false));
    let sub = decode_subscribe(1, "status", 0);
    let actions = server.handle_packet(Packet::SubscribeType(sub), "b", 0).unwrap();
    let pubs = publishes_of(&actions);
    assert_eq!(pubs.len(), 1);
    let (to, packet) = pubs[0];
    assert_eq!(to, "b");
    assert_eq!(packet.topic_name(), "status");
    assert_eq!(*packet.payload(), b"UP".to_vec());
    assert!(packet.retain());
}

#[test]
fn last_will_on_ungraceful_disconnect() {
    let mut server = Server::new(None);
    assert_eq!(
        connect(&mut server, "a", true, Some(("dead", "X", 0, false))),
        (0, false)
    );
    assert_eq!(connect(&mut server, "b", true, None), (0, false));
    let sub = decode_subscribe(1, "dead", 0);
    server.handle_packet(Packet::SubscribeType(sub), "b", 0).unwrap();

    // the transport drops without a Disconnect packet
    let actions = server.handle_disconnect("a", false, 0);
    let pubs = publishes_of(&actions);
    assert_eq!(pubs.len(), 1);
    let (to, packet) = pubs[0];
    assert_eq!(to, "b");
    assert_eq!(packet.topic_name(), "dead");
    assert_eq!(*packet.payload(), b"X".to_vec());
}

#[test]
fn last_will_discarded_on_graceful_disconnect() {
    let mut server = Server::new(None);
    assert_eq!(
        connect(&mut server, "a", true, Some(("dead", "X", 0, false))),
        (0, false)
    );
    assert_eq!(connect(&mut server, "b", true, None), (0, false));
    let sub = decode_subscribe(1, "dead", 0);
    server.handle_packet(Packet::SubscribeType(sub), "b", 0).unwrap();

    let actions = server
        .handle_packet(
            Packet::DisconnectType(mqtt_broker::disconnect::Disconnect::new()),
            "a",
            0,
        )
        .unwrap();
    assert!(publishes_of(&actions).is_empty());
}

#[test]
fn client_take_over() {
    let mut server = Server::new(None);
    assert_eq!(connect(&mut server, "x", false, None), (0, false));
    let sub = decode_subscribe(1, "t/#", 0);
    server.handle_packet(Packet::SubscribeType(sub), "x", 0).unwrap();

    // a second connection arrives with the same identifier
    let (code, session_present) = connect(&mut server, "x", false, None);
    assert_eq!(code, 0);
    assert!(session_present);

    assert_eq!(connect(&mut server, "b", true, None), (0, false));
    let p = Publish::new(false, QoSLevel::QoSLevel0, false, "t/a", b"hi".to_vec(), None).unwrap();
    let actions = server.handle_packet(Packet::PublishType(p), "b", 0).unwrap();
    let pubs = publishes_of(&actions);
    assert_eq!(pubs.len(), 1);
    assert_eq!(pubs[0].0, "x");
}

#[test]
fn wildcard_does_not_match_dollar_topics() {
    let mut server = Server::new(None);
    assert_eq!(connect(&mut server, "a", true, None), (0, false));
    let sub = decode_subscribe(1, "#", 0);
    server.handle_packet(Packet::SubscribeType(sub), "a", 0).unwrap();

    assert_eq!(connect(&mut server, "b", true, None), (0, false));
    let p = Publish::new(false, QoSLevel::QoSLevel0, false, "$SYS/foo", b"s".to_vec(), None)
        .unwrap();
    let actions = server.handle_packet(Packet::PublishType(p), "b", 0).unwrap();
    assert!(publishes_of(&actions).is_empty());
}

#[test]
fn restart_restores_durable_session() {
    let mut server = Server::new(None);
    assert_eq!(connect(&mut server, "a", false, None), (0, false));
    let sub = decode_subscribe(1, "z", 1);
    server.handle_packet(Packet::SubscribeType(sub), "a", 0).unwrap();

    // the broker dumps and restarts
    let sessions = server.export_sessions();
    let subs: Vec<(String, String, QoSLevel)> = server
        .export_subscriptions()
        .iter()
        .map(|s| (s.client_id().to_string(), s.filter().to_string(), s.qos()))
        .collect();
    let retained = server.export_retained();

    let mut server = Server::new(None);
    for s in sessions {
        assert!(server.restore_session(s.id, s.clean_session, s.keep_alive, s.last_will));
    }
    for (client, filter, qos) in subs {
        assert!(server.restore_subscription(&client, &filter, qos));
    }
    for p in retained {
        server.restore_retained(&p);
    }

    assert_eq!(connect(&mut server, "b", true, None), (0, false));
    let p = Publish::new(false, QoSLevel::QoSLevel1, false, "z", b"42".to_vec(), Some(9)).unwrap();
    let actions = server.handle_packet(Packet::PublishType(p), "b", 0).unwrap();
    // the subscriber is offline: the message waits in its session
    assert!(publishes_of(&actions).is_empty());

    // the subscriber reconnects and its stored subscription is in force
    let (code, session_present) = connect(&mut server, "a", false, None);
    assert_eq!(code, 0);
    assert!(session_present);
    let actions = server.handle_timeout("a", 0, 1000);
    let pubs = publishes_of(&actions);
    assert_eq!(pubs.len(), 1);
    assert_eq!(pubs[0].0, "a");
    assert_eq!(pubs[0].1.topic_name(), "z");
    assert_eq!(*pubs[0].1.payload(), b"42".to_vec());
}

#[test]
fn restart_restores_inflight_publishes() {
    let mut server = Server::new(None);
    assert_eq!(connect(&mut server, "a", false, None), (0, false));
    let sub = decode_subscribe(1, "q", 1);
    server.handle_packet(Packet::SubscribeType(sub), "a", 0).unwrap();
    server.handle_disconnect("a", false, 0);

    assert_eq!(connect(&mut server, "b", true, None), (0, false));
    let p = Publish::new(false, QoSLevel::QoSLevel1, false, "q", b"later".to_vec(), Some(3)).unwrap();
    let actions = server.handle_packet(Packet::PublishType(p), "b", 0).unwrap();
    assert!(publishes_of(&actions).is_empty());

    // the broker dumps and restarts; the queued publish survives
    let sessions = server.export_sessions();
    let subs: Vec<(String, String, QoSLevel)> = server
        .export_subscriptions()
        .iter()
        .map(|s| (s.client_id().to_string(), s.filter().to_string(), s.qos()))
        .collect();

    let mut server = Server::new(None);
    for s in sessions {
        assert!(server.restore_session(s.id.clone(), s.clean_session, s.keep_alive, s.last_will));
        for p in s.inflight {
            assert!(server.restore_inflight(&s.id, p, 0));
        }
    }
    for (client, filter, qos) in subs {
        assert!(server.restore_subscription(&client, &filter, qos));
    }

    let (code, session_present) = connect(&mut server, "a", false, None);
    assert_eq!(code, 0);
    assert!(session_present);
    let actions = server.handle_timeout("a", 0, 5000);
    let pubs = publishes_of(&actions);
    assert_eq!(pubs.len(), 1);
    assert_eq!(pubs[0].1.topic_name(), "q");
    assert_eq!(*pubs[0].1.payload(), b"later".to_vec());
}
