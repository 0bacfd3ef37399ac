//! The PingResp packet, the broker's answer to a PingReq.

use vstd::prelude::*;
use crate::errors::{ErrorKind, PacketError, PacketResult};
use crate::packet_reader::{encode_with_header, read_body_bounds, spec_body, spec_rl_enc};
use crate::traits::{MQTTDecoding, MQTTEncoding};

verus! {

/// Packet type code of PingResp.
pub const PINGRESP_PACKET_TYPE: u8 = 13;

/// Sent by the broker in answer to a PingReq.
#[derive(Clone, Copy, Debug, PartialEq, Eq, Structural)]
pub struct PingResp;

impl PingResp {
    /// The full wire form: control byte 0xD0 and remaining length 0.
    pub open spec fn spec_enc(&self) -> Seq<u8> {
        seq![208u8] + spec_rl_enc(0) + Seq::<u8>::empty()
    }

    /// What reading the bytes after the control byte yields.
    pub open spec fn spec_parse(control_byte: u8, bytes: Seq<u8>) -> Result<PingResp, ErrorKind> {
        if control_byte / 16 != PINGRESP_PACKET_TYPE {
            Err(ErrorKind::InvalidControlPacketType)
        } else if control_byte % 16 != 0 {
            Err(ErrorKind::InvalidReservedBits)
        } else {
            match spec_body(bytes) {
                Err(k) => Err(k),
                Ok(b) => if b.len() == 0 {
                    Ok(PingResp)
                } else {
                    Err(ErrorKind::MalformedLength)
                },
            }
        }
    }

    /// Creates a new PingResp packet.
    pub fn new() -> (r: PingResp)
        ensures
            r == PingResp,
    {
        PingResp
    }

    /// Round trip: a PingResp parses back from its own wire form,
    /// whatever bytes follow it.
    pub proof fn lemma_roundtrip(p: PingResp, rest: Seq<u8>)
        ensures
            PingResp::spec_parse(p.spec_enc()[0], p.spec_enc().skip(1) + rest) == Ok::<
                PingResp,
                ErrorKind,
            >(p),
    {
        let body = Seq::<u8>::empty();
        crate::packet_reader::lemma_body_roundtrip(body, rest);
        assert(p.spec_enc()[0] == 208);
        assert(p.spec_enc().skip(1) + rest =~= spec_rl_enc(0) + body + rest);
    }
}

impl MQTTEncoding for PingResp {
    /// The wire form of a PingResp; never fails.
    fn encode(&self) -> (r: PacketResult<Vec<u8>>)
        ensures
            r matches Ok(v) && v@ == self.spec_enc(),
    {
        let body: Vec<u8> = Vec::new();
        let r = encode_with_header(208, body.as_slice());
        proof {
            assert(body@ =~= Seq::<u8>::empty());
        }
        r
    }
}

impl MQTTDecoding for PingResp {
    /// Reads a PingResp from the bytes after its control byte.
    fn read_from(bytes: &[u8], control_byte: u8) -> (r: PacketResult<PingResp>)
        ensures
            match r {
                Ok(p) => PingResp::spec_parse(control_byte, bytes@) == Ok::<PingResp, ErrorKind>(p),
                Err(e) => PingResp::spec_parse(control_byte, bytes@) == Err::<PingResp, ErrorKind>(
                    e.kind,
                ),
            },
    {
        if control_byte / 16 != PINGRESP_PACKET_TYPE {
            return Err(PacketError::new_kind(
                "control packet type must be 13 for a PingResp packet",
                ErrorKind::InvalidControlPacketType,
            ));
        }
        if control_byte % 16 != 0 {
            return Err(PacketError::new_kind(
                "reserved bits of a PingResp packet must be 0",
                ErrorKind::InvalidReservedBits,
            ));
        }
        let (s, e) = match read_body_bounds(bytes) {
            Ok(v) => v,
            Err(err) => {
                return Err(err);
            },
        };
        if e != s {
            return Err(PacketError::new_kind(
                "remaining length of a PingResp packet must be 0",
                ErrorKind::MalformedLength,
            ));
        }
        Ok(PingResp)
    }
}

} // verus!
