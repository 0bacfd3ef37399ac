//! The PingReq packet, sent by a client during the keep-alive process.

use vstd::prelude::*;
use crate::errors::{ErrorKind, PacketError, PacketResult};
use crate::packet_reader::{encode_with_header, read_body_bounds, spec_body, spec_rl_enc};
use crate::traits::{MQTTDecoding, MQTTEncoding};

verus! {

/// Packet type code of PingReq.
pub const PINGREQ_PACKET_TYPE: u8 = 12;

/// Sent from a client to the broker during the keep-alive process; the
/// broker answers with a PingResp.
#[derive(Clone, Copy, Debug, PartialEq, Eq, Structural)]
pub struct PingReq;

impl PingReq {
    /// The full wire form: control byte 0xC0 and remaining length 0.
    pub open spec fn spec_enc(&self) -> Seq<u8> {
        seq![192u8] + spec_rl_enc(0) + Seq::<u8>::empty()
    }

    /// What reading the bytes after the control byte yields.
    pub open spec fn spec_parse(control_byte: u8, bytes: Seq<u8>) -> Result<PingReq, ErrorKind> {
        if control_byte / 16 != PINGREQ_PACKET_TYPE {
            Err(ErrorKind::InvalidControlPacketType)
        } else if control_byte % 16 != 0 {
            Err(ErrorKind::InvalidReservedBits)
        } else {
            match spec_body(bytes) {
                Err(k) => Err(k),
                Ok(b) => if b.len() == 0 {
                    Ok(PingReq)
                } else {
                    Err(ErrorKind::MalformedLength)
                },
            }
        }
    }

    /// Reads a PingReq from the bytes after its control byte.
    ///
    /// Fails unless the control byte carries type 12 with reserved bits
    /// 0 and the remaining length is 0.
    pub fn read_from(bytes: &[u8], control_byte: u8) -> (r: PacketResult<PingReq>)
        ensures
            match r {
                Ok(p) => PingReq::spec_parse(control_byte, bytes@) == Ok::<PingReq, ErrorKind>(p),
                Err(e) => PingReq::spec_parse(control_byte, bytes@) == Err::<PingReq, ErrorKind>(
                    e.kind,
                ),
            },
    {
        match PingReq::check_packet_type(control_byte) {
            Ok(_) => (),
            Err(e) => {
                return Err(e);
            },
        }
        match PingReq::check_reserved_bytes(control_byte) {
            Ok(_) => (),
            Err(e) => {
                return Err(e);
            },
        }
        let (s, e) = match read_body_bounds(bytes) {
            Ok(v) => v,
            Err(err) => {
                return Err(err);
            },
        };
        if e != s {
            return Err(PacketError::new_kind(
                "remaining length of a PingReq packet must be 0",
                ErrorKind::MalformedLength,
            ));
        }
        Ok(PingReq)
    }

    fn check_packet_type(control_byte: u8) -> (r: PacketResult<()>)
        ensures
            match r {
                Ok(_) => control_byte / 16 == PINGREQ_PACKET_TYPE,
                Err(e) => control_byte / 16 != PINGREQ_PACKET_TYPE && e.kind
                    == ErrorKind::InvalidControlPacketType,
            },
    {
        if control_byte / 16 != PINGREQ_PACKET_TYPE {
            Err(PacketError::new_kind(
                "control packet type must be 12 for a PingReq packet",
                ErrorKind::InvalidControlPacketType,
            ))
        } else {
            Ok(())
        }
    }

    fn check_reserved_bytes(control_byte: u8) -> (r: PacketResult<()>)
        ensures
            match r {
                Ok(_) => control_byte % 16 == 0,
                Err(e) => control_byte % 16 != 0 && e.kind == ErrorKind::InvalidReservedBits,
            },
    {
        if control_byte % 16 != 0 {
            Err(PacketError::new_kind(
                "reserved bits of a PingReq packet must be 0",
                ErrorKind::InvalidReservedBits,
            ))
        } else {
            Ok(())
        }
    }

    /// Round trip: a PingReq parses back from its own wire form,
    /// whatever bytes follow it.
    pub proof fn lemma_roundtrip(p: PingReq, rest: Seq<u8>)
        ensures
            PingReq::spec_parse(p.spec_enc()[0], p.spec_enc().skip(1) + rest) == Ok::<
                PingReq,
                ErrorKind,
            >(p),
    {
        let body = Seq::<u8>::empty();
        crate::packet_reader::lemma_body_roundtrip(body, rest);
        assert(p.spec_enc()[0] == 192);
        assert(p.spec_enc().skip(1) + rest =~= spec_rl_enc(0) + body + rest);
    }
}

impl MQTTEncoding for PingReq {
    /// The wire form of a PingReq; never fails.
    fn encode(&self) -> (r: PacketResult<Vec<u8>>)
        ensures
            r matches Ok(v) && v@ == self.spec_enc(),
    {
        let body: Vec<u8> = Vec::new();
        let r = encode_with_header(192, body.as_slice());
        proof {
            assert(body@ =~= Seq::<u8>::empty());
        }
        r
    }
}

impl MQTTDecoding for PingReq {
    /// Same as `PingReq::read_from`.
    fn read_from(bytes: &[u8], control_byte: u8) -> (r: PacketResult<PingReq>)
        ensures
            match r {
                Ok(p) => PingReq::spec_parse(control_byte, bytes@) == Ok::<PingReq, ErrorKind>(p),
                Err(e) => PingReq::spec_parse(control_byte, bytes@) == Err::<PingReq, ErrorKind>(
                    e.kind,
                ),
            },
    {
        PingReq::read_from(bytes, control_byte)
    }
}

} // verus!
