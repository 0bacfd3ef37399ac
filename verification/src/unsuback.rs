//! The Unsuback packet: acknowledgement of an Unsubscribe.

use vstd::prelude::*;
use crate::errors::{ErrorKind, PacketError, PacketResult};
use crate::packet_reader::{encode_with_header, lemma_be16_value, lemma_body_roundtrip,
    read_body_bounds, read_u16, spec_be16, spec_body, spec_rl_enc, spec_u16_be, write_u16};
use crate::traits::{MQTTDecoding, MQTTEncoding};

verus! {

/// Packet type code of Unsuback.
pub const UNSUBACK_PACKET_TYPE: u8 = 11;

/// Acknowledges one Unsubscribe, naming its packet identifier.
#[derive(Clone, Copy, Debug, PartialEq, Eq, Structural)]
pub struct Unsuback {
    pub packet_id: u16,
}

impl Unsuback {
    /// The two-byte body: the packet identifier, big-endian.
    pub open spec fn spec_mqtt_body(&self) -> Seq<u8> {
        spec_be16(self.packet_id)
    }

    /// The full wire form.
    pub open spec fn spec_enc(&self) -> Seq<u8> {
        seq![176u8] + spec_rl_enc(2) + self.spec_mqtt_body()
    }

    /// What reading the bytes after the control byte yields.
    pub open spec fn spec_parse(control_byte: u8, bytes: Seq<u8>) -> Result<Unsuback, ErrorKind> {
        if control_byte / 16 != UNSUBACK_PACKET_TYPE {
            Err(ErrorKind::InvalidControlPacketType)
        } else if control_byte % 16 != 0 {
            Err(ErrorKind::InvalidReservedBits)
        } else {
            match spec_body(bytes) {
                Err(k) => Err(k),
                Ok(b) => if b.len() == 2 {
                    Ok(Unsuback { packet_id: spec_u16_be(b[0], b[1]) as u16 })
                } else {
                    Err(ErrorKind::MalformedLength)
                },
            }
        }
    }

    /// Creates an Unsuback for the given packet identifier.
    pub fn new(packet_id: u16) -> (r: Unsuback)
        ensures
            r == (Unsuback { packet_id }),
    {
        Unsuback { packet_id }
    }

    /// The packet identifier being acknowledged.
    pub fn packet_id(&self) -> (r: u16)
        ensures
            r == self.packet_id,
    {
        self.packet_id
    }

    /// Round trip: an Unsuback parses back from its own wire form,
    /// whatever bytes follow it.
    pub proof fn lemma_roundtrip(p: Unsuback, rest: Seq<u8>)
        ensures
            Unsuback::spec_parse(p.spec_enc()[0], p.spec_enc().skip(1) + rest) == Ok::<
                Unsuback,
                ErrorKind,
            >(p),
    {
        let body = p.spec_mqtt_body();
        lemma_body_roundtrip(body, rest);
        lemma_be16_value(p.packet_id);
        assert(p.spec_enc()[0] == 176);
        assert(p.spec_enc().skip(1) + rest =~= spec_rl_enc(2) + body + rest);
    }
}

impl MQTTEncoding for Unsuback {
    /// The wire form of an Unsuback; never fails.
    fn encode(&self) -> (r: PacketResult<Vec<u8>>)
        ensures
            r matches Ok(v) && v@ == self.spec_enc(),
    {
        let mut body: Vec<u8> = Vec::new();
        write_u16(&mut body, self.packet_id);
        let r = encode_with_header(176, body.as_slice());
        proof {
            assert(body@ =~= self.spec_mqtt_body());
        }
        r
    }
}

impl MQTTDecoding for Unsuback {
    /// Reads an Unsuback from the bytes after its control byte.
    fn read_from(bytes: &[u8], control_byte: u8) -> (r: PacketResult<Unsuback>)
        ensures
            match r {
                Ok(p) => Unsuback::spec_parse(control_byte, bytes@) == Ok::<Unsuback, ErrorKind>(p),
                Err(e) => Unsuback::spec_parse(control_byte, bytes@) == Err::<Unsuback, ErrorKind>(
                    e.kind,
                ),
            },
    {
        if control_byte / 16 != UNSUBACK_PACKET_TYPE {
            return Err(PacketError::new_kind(
                "control packet type must be 11 for an Unsuback packet",
                ErrorKind::InvalidControlPacketType,
            ));
        }
        if control_byte % 16 != 0 {
            return Err(PacketError::new_kind(
                "reserved bits of an Unsuback packet must be 0",
                ErrorKind::InvalidReservedBits,
            ));
        }
        let (s, e) = match read_body_bounds(bytes) {
            Ok(v) => v,
            Err(err) => {
                return Err(err);
            },
        };
        if e - s != 2 {
            return Err(PacketError::new_kind(
                "remaining length of an Unsuback packet must be 2",
                ErrorKind::MalformedLength,
            ));
        }
        let (id, _) = match read_u16(bytes, s) {
            Ok(v) => v,
            Err(err) => {
                return Err(err);
            },
        };
        proof {
            let b = bytes@.subrange(s as int, e as int);
            assert(b[0] == bytes@[s as int] && b[1] == bytes@[s as int + 1]);
        }
        Ok(Unsuback { packet_id: id })
    }
}

} // verus!
