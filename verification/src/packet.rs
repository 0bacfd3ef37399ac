//! Control packets as one type: the type codes, the decoded packets,
//! and the dispatcher that reads whichever packet a control byte
//! announces.

use vstd::prelude::*;
use crate::connack::Connack;
use crate::connect::{Connect, ConnectView};
use crate::disconnect::Disconnect;
use crate::errors::{ErrorKind, PacketError, PacketResult};
use crate::packet_reader::MAX_REMAINING_LENGTH;
use crate::pingreq::PingReq;
use crate::pingresp::PingResp;
use crate::puback::Puback;
use crate::publish::{Publish, PublishView};
use crate::suback::{Suback, SubackView};
use crate::subscribe::{Subscribe, SubscribeView};
use crate::traits::MQTTDecoding;
use crate::unsuback::Unsuback;
use crate::unsubscribe::{Unsubscribe, UnsubscribeView};

verus! {

/// The type of a control packet, as its control byte announces it.
#[derive(Clone, Copy, Debug, PartialEq, Eq, Structural)]
pub enum PacketType {
    Connect,
    Connack,
    Publish,
    Puback,
    Subscribe,
    Suback,
    Unsubscribe,
    Unsuback,
    Pingreq,
    Pingresp,
    Disconnect,
}

/// The packet type a code names, if any: 1 to 14, without the three
/// codes of the unsupported QoS 2 flow.
pub open spec fn spec_code_type(code: u8) -> Option<PacketType> {
    if code == 1 {
        Some(PacketType::Connect)
    } else if code == 2 {
        Some(PacketType::Connack)
    } else if code == 3 {
        Some(PacketType::Publish)
    } else if code == 4 {
        Some(PacketType::Puback)
    } else if code == 8 {
        Some(PacketType::Subscribe)
    } else if code == 9 {
        Some(PacketType::Suback)
    } else if code == 10 {
        Some(PacketType::Unsubscribe)
    } else if code == 11 {
        Some(PacketType::Unsuback)
    } else if code == 12 {
        Some(PacketType::Pingreq)
    } else if code == 13 {
        Some(PacketType::Pingresp)
    } else if code == 14 {
        Some(PacketType::Disconnect)
    } else {
        None
    }
}

/// The packet type named by a code, or an error for a code the broker
/// does not know.
pub fn get_code_type(code: u8) -> (r: PacketResult<PacketType>)
    ensures
        match r {
            Ok(t) => spec_code_type(code) == Some(t),
            Err(e) => spec_code_type(code) is None && e.kind == ErrorKind::InvalidControlPacketType,
        },
{
    match code {
        1 => Ok(PacketType::Connect),
        2 => Ok(PacketType::Connack),
        3 => Ok(PacketType::Publish),
        4 => Ok(PacketType::Puback),
        8 => Ok(PacketType::Subscribe),
        9 => Ok(PacketType::Suback),
        10 => Ok(PacketType::Unsubscribe),
        11 => Ok(PacketType::Unsuback),
        12 => Ok(PacketType::Pingreq),
        13 => Ok(PacketType::Pingresp),
        14 => Ok(PacketType::Disconnect),
        _ => Err(PacketError::new_kind(
            "unknown or unsupported control packet type",
            ErrorKind::InvalidControlPacketType,
        )),
    }
}

/// A decoded control packet.
#[derive(Debug)]
pub enum Packet {
    ConnectType(Connect),
    ConnackType(Connack),
    PublishType(Publish),
    PubackType(Puback),
    SubscribeType(Subscribe),
    SubackType(Suback),
    UnsubscribeType(Unsubscribe),
    UnsubackType(Unsuback),
    PingReqType(PingReq),
    PingRespType(PingResp),
    DisconnectType(Disconnect),
}

/// The mathematical content of a control packet.
pub ghost enum PacketView {
    Connect(ConnectView),
    Connack(Connack),
    Publish(PublishView),
    Puback(Puback),
    Subscribe(SubscribeView),
    Suback(SubackView),
    Unsubscribe(UnsubscribeView),
    Unsuback(Unsuback),
    PingReq(PingReq),
    PingResp(PingResp),
    Disconnect(Disconnect),
}

impl View for Packet {
    type V = PacketView;

    open spec fn view(&self) -> PacketView {
        match self {
            Packet::ConnectType(p) => PacketView::Connect(p@),
            Packet::ConnackType(p) => PacketView::Connack(*p),
            Packet::PublishType(p) => PacketView::Publish(p@),
            Packet::PubackType(p) => PacketView::Puback(*p),
            Packet::SubscribeType(p) => PacketView::Subscribe(p@),
            Packet::SubackType(p) => PacketView::Suback(p@),
            Packet::UnsubscribeType(p) => PacketView::Unsubscribe(p@),
            Packet::UnsubackType(p) => PacketView::Unsuback(*p),
            Packet::PingReqType(p) => PacketView::PingReq(*p),
            Packet::PingRespType(p) => PacketView::PingResp(*p),
            Packet::DisconnectType(p) => PacketView::Disconnect(*p),
        }
    }
}

impl PacketView {
    /// Holds when the packet could have come off the wire.
    pub open spec fn wf(&self) -> bool {
        match self {
            PacketView::Connect(v) => v.wf(),
            PacketView::Connack(v) => v.wf(),
            PacketView::Publish(v) => v.wf(),
            PacketView::Puback(_) => true,
            PacketView::Subscribe(v) => v.wf(),
            PacketView::Suback(v) => v.wf(),
            PacketView::Unsubscribe(v) => v.wf(),
            PacketView::Unsuback(_) => true,
            PacketView::PingReq(_) => true,
            PacketView::PingResp(_) => true,
            PacketView::Disconnect(_) => true,
        }
    }

    /// Holds when the packet's body fits the remaining-length varint.
    pub open spec fn fits(&self) -> bool {
        match self {
            PacketView::Connect(v) => v.spec_mqtt_body().len() <= MAX_REMAINING_LENGTH,
            PacketView::Publish(v) => v.spec_mqtt_body().len() <= MAX_REMAINING_LENGTH,
            PacketView::Subscribe(v) => v.spec_mqtt_body().len() <= MAX_REMAINING_LENGTH,
            PacketView::Suback(v) => v.spec_mqtt_body().len() <= MAX_REMAINING_LENGTH,
            PacketView::Unsubscribe(v) => v.spec_mqtt_body().len() <= MAX_REMAINING_LENGTH,
            _ => true,
        }
    }

    /// The full wire form.
    pub open spec fn spec_enc(&self) -> Seq<u8> {
        match self {
            PacketView::Connect(v) => v.spec_enc(),
            PacketView::Connack(v) => v.spec_enc(),
            PacketView::Publish(v) => v.spec_enc(),
            PacketView::Puback(v) => v.spec_enc(),
            PacketView::Subscribe(v) => v.spec_enc(),
            PacketView::Suback(v) => v.spec_enc(),
            PacketView::Unsubscribe(v) => v.spec_enc(),
            PacketView::Unsuback(v) => v.spec_enc(),
            PacketView::PingReq(v) => v.spec_enc(),
            PacketView::PingResp(v) => v.spec_enc(),
            PacketView::Disconnect(v) => v.spec_enc(),
        }
    }

    /// What reading the bytes after the control byte yields, for
    /// whichever packet type the control byte announces.
    pub open spec fn spec_parse(control_byte: u8, bytes: Seq<u8>) -> Result<PacketView, ErrorKind> {
        match spec_code_type(control_byte / 16) {
            None => Err(ErrorKind::InvalidControlPacketType),
            Some(t) => match t {
                PacketType::Connect => match ConnectView::spec_parse(control_byte, bytes) {
                    Ok(v) => Ok(PacketView::Connect(v)),
                    Err(k) => Err(k),
                },
                PacketType::Connack => match Connack::spec_parse(control_byte, bytes) {
                    Ok(v) => Ok(PacketView::Connack(v)),
                    Err(k) => Err(k),
                },
                PacketType::Publish => match PublishView::spec_parse(control_byte, bytes) {
                    Ok(v) => Ok(PacketView::Publish(v)),
                    Err(k) => Err(k),
                },
                PacketType::Puback => match Puback::spec_parse(control_byte, bytes) {
                    Ok(v) => Ok(PacketView::Puback(v)),
                    Err(k) => Err(k),
                },
                PacketType::Subscribe => match SubscribeView::spec_parse(control_byte, bytes) {
                    Ok(v) => Ok(PacketView::Subscribe(v)),
                    Err(k) => Err(k),
                },
                PacketType::Suback => match SubackView::spec_parse(control_byte, bytes) {
                    Ok(v) => Ok(PacketView::Suback(v)),
                    Err(k) => Err(k),
                },
                PacketType::Unsubscribe => match UnsubscribeView::spec_parse(control_byte, bytes) {
                    Ok(v) => Ok(PacketView::Unsubscribe(v)),
                    Err(k) => Err(k),
                },
                PacketType::Unsuback => match Unsuback::spec_parse(control_byte, bytes) {
                    Ok(v) => Ok(PacketView::Unsuback(v)),
                    Err(k) => Err(k),
                },
                PacketType::Pingreq => match PingReq::spec_parse(control_byte, bytes) {
                    Ok(v) => Ok(PacketView::PingReq(v)),
                    Err(k) => Err(k),
                },
                PacketType::Pingresp => match PingResp::spec_parse(control_byte, bytes) {
                    Ok(v) => Ok(PacketView::PingResp(v)),
                    Err(k) => Err(k),
                },
                PacketType::Disconnect => match Disconnect::spec_parse(control_byte, bytes) {
                    Ok(v) => Ok(PacketView::Disconnect(v)),
                    Err(k) => Err(k),
                },
            },
        }
    }

    /// Round trip of the whole codec: every well-formed control packet
    /// that fits the remaining length parses back, bit for bit, from
    /// its own wire form, whatever bytes follow it.
    pub proof fn lemma_roundtrip(pv: PacketView, rest: Seq<u8>)
        requires
            pv.wf(),
            pv.fits(),
        ensures
            PacketView::spec_parse(pv.spec_enc()[0], pv.spec_enc().skip(1) + rest) == Ok::<
                PacketView,
                ErrorKind,
            >(pv),
    {
        match pv {
            PacketView::Connect(v) => ConnectView::lemma_roundtrip(v, rest),
            PacketView::Connack(v) => Connack::lemma_roundtrip(v, rest),
            PacketView::Publish(v) => PublishView::lemma_roundtrip(v, rest),
            PacketView::Puback(v) => Puback::lemma_roundtrip(v, rest),
            PacketView::Subscribe(v) => SubscribeView::lemma_roundtrip(v, rest),
            PacketView::Suback(v) => SubackView::lemma_roundtrip(v, rest),
            PacketView::Unsubscribe(v) => UnsubscribeView::lemma_roundtrip(v, rest),
            PacketView::Unsuback(v) => Unsuback::lemma_roundtrip(v, rest),
            PacketView::PingReq(v) => PingReq::lemma_roundtrip(v, rest),
            PacketView::PingResp(v) => PingResp::lemma_roundtrip(v, rest),
            PacketView::Disconnect(v) => Disconnect::lemma_roundtrip(v, rest),
        }
    }
}

/// Reads whichever client-to-broker packet the control byte announces.
///
/// The broker never receives a Connack, Suback, Unsuback, or PingResp;
/// one of those, though well-formed, is refused here.
pub fn decode_packet(bytes: &[u8], control_byte: u8) -> (r: PacketResult<Packet>)
    ensures
        match r {
            Ok(p) => PacketView::spec_parse(control_byte, bytes@) == Ok::<PacketView, ErrorKind>(p@)
                && p@.wf(),
            Err(e) => match spec_code_type(control_byte / 16) {
                None => e.kind == ErrorKind::InvalidControlPacketType,
                Some(t) => if t == PacketType::Connack || t == PacketType::Suback || t
                    == PacketType::Unsuback || t == PacketType::Pingresp {
                    e.kind == ErrorKind::Other
                } else {
                    PacketView::spec_parse(control_byte, bytes@) == Err::<PacketView, ErrorKind>(
                        e.kind,
                    )
                },
            },
        },
{
    let code = control_byte / 16;
    let t = match get_code_type(code) {
        Ok(t) => t,
        Err(e) => {
            return Err(e);
        },
    };
    match t {
        PacketType::Connect => match Connect::read_from(bytes, control_byte) {
            Ok(p) => Ok(Packet::ConnectType(p)),
            Err(e) => Err(e),
        },
        PacketType::Publish => match <Publish as MQTTDecoding>::read_from(bytes, control_byte) {
            Ok(p) => Ok(Packet::PublishType(p)),
            Err(e) => Err(e),
        },
        PacketType::Puback => match <Puback as MQTTDecoding>::read_from(bytes, control_byte) {
            Ok(p) => Ok(Packet::PubackType(p)),
            Err(e) => Err(e),
        },
        PacketType::Subscribe => match Subscribe::read_from(bytes, control_byte) {
            Ok(p) => Ok(Packet::SubscribeType(p)),
            Err(e) => Err(e),
        },
        PacketType::Unsubscribe => match Unsubscribe::read_from(bytes, control_byte) {
            Ok(p) => Ok(Packet::UnsubscribeType(p)),
            Err(e) => Err(e),
        },
        PacketType::Pingreq => match PingReq::read_from(bytes, control_byte) {
            Ok(p) => Ok(Packet::PingReqType(p)),
            Err(e) => Err(e),
        },
        PacketType::Disconnect => match <Disconnect as MQTTDecoding>::read_from(
            bytes,
            control_byte,
        ) {
            Ok(p) => Ok(Packet::DisconnectType(p)),
            Err(e) => Err(e),
        },
        _ => Err(PacketError::new_kind(
            "unexpected packet type from a client",
            ErrorKind::Other,
        )),
    }
}

} // verus!
