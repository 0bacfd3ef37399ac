//! The Disconnect packet: a bare header announcing a graceful close.

use vstd::prelude::*;
use crate::errors::{ErrorKind, PacketError, PacketResult};
use crate::packet_reader::{encode_with_header, read_body_bounds, spec_body, spec_rl_enc};
use crate::traits::{MQTTDecoding, MQTTEncoding};

verus! {

/// Packet type code of Disconnect.
pub const DISCONNECT_PACKET_TYPE: u8 = 14;

/// Sent by a client to announce a graceful disconnection; the broker
/// then discards the client's last will.
#[derive(Clone, Copy, Debug, PartialEq, Eq, Structural)]
pub struct Disconnect;

impl Disconnect {
    /// The full wire form: control byte 0xE0 and remaining length 0.
    pub open spec fn spec_enc(&self) -> Seq<u8> {
        seq![224u8] + spec_rl_enc(0) + Seq::<u8>::empty()
    }

    /// What reading the bytes after the control byte yields.
    pub open spec fn spec_parse(control_byte: u8, bytes: Seq<u8>) -> Result<Disconnect, ErrorKind> {
        if control_byte / 16 != DISCONNECT_PACKET_TYPE {
            Err(ErrorKind::InvalidControlPacketType)
        } else if control_byte % 16 != 0 {
            Err(ErrorKind::InvalidReservedBits)
        } else {
            match spec_body(bytes) {
                Err(k) => Err(k),
                Ok(b) => if b.len() == 0 {
                    Ok(Disconnect)
                } else {
                    Err(ErrorKind::MalformedLength)
                },
            }
        }
    }

    /// Creates a new Disconnect packet.
    pub fn new() -> (r: Disconnect)
        ensures
            r == Disconnect,
    {
        Disconnect
    }

    /// Round trip: a Disconnect parses back from its own wire form,
    /// whatever bytes follow it.
    pub proof fn lemma_roundtrip(p: Disconnect, rest: Seq<u8>)
        ensures
            Disconnect::spec_parse(p.spec_enc()[0], p.spec_enc().skip(1) + rest) == Ok::<
                Disconnect,
                ErrorKind,
            >(p),
    {
        let body = Seq::<u8>::empty();
        crate::packet_reader::lemma_body_roundtrip(body, rest);
        assert(p.spec_enc()[0] == 224);
        assert(p.spec_enc().skip(1) + rest =~= spec_rl_enc(0) + body + rest);
    }
}

impl MQTTEncoding for Disconnect {
    /// The wire form of a Disconnect; never fails.
    fn encode(&self) -> (r: PacketResult<Vec<u8>>)
        ensures
            r matches Ok(v) && v@ == self.spec_enc(),
    {
        let body: Vec<u8> = Vec::new();
        let r = encode_with_header(224, body.as_slice());
        proof {
            assert(body@ =~= Seq::<u8>::empty());
        }
        r
    }
}

impl MQTTDecoding for Disconnect {
    /// Reads a Disconnect from the bytes after its control byte.
    fn read_from(bytes: &[u8], control_byte: u8) -> (r: PacketResult<Disconnect>)
        ensures
            match r {
                Ok(p) => Disconnect::spec_parse(control_byte, bytes@) == Ok::<Disconnect, ErrorKind>(p),
                Err(e) => Disconnect::spec_parse(control_byte, bytes@) == Err::<Disconnect, ErrorKind>(
                    e.kind,
                ),
            },
    {
        if control_byte / 16 != DISCONNECT_PACKET_TYPE {
            return Err(PacketError::new_kind(
                "control packet type must be 14 for a Disconnect packet",
                ErrorKind::InvalidControlPacketType,
            ));
        }
        if control_byte % 16 != 0 {
            return Err(PacketError::new_kind(
                "reserved bits of a Disconnect packet must be 0",
                ErrorKind::InvalidReservedBits,
            ));
        }
        let (s, e) = match read_body_bounds(bytes) {
            Ok(v) => v,
            Err(err) => {
                return Err(err);
            },
        };
        if e != s {
            return Err(PacketError::new_kind(
                "remaining length of a Disconnect packet must be 0",
                ErrorKind::MalformedLength,
            ));
        }
        Ok(Disconnect)
    }
}

impl Default for Disconnect {
    /// Same as `Disconnect::new`.
    fn default() -> (r: Disconnect)
        ensures
            r == Disconnect,
    {
        Disconnect
    }
}

} // verus!
