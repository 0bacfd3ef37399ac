//! The Connack packet: the broker's answer to a Connect.

use vstd::prelude::*;
use crate::errors::{ErrorKind, PacketError, PacketResult};
use crate::packet_reader::{encode_with_header, lemma_body_roundtrip, read_body_bounds, spec_body,
    spec_rl_enc};
use crate::traits::{MQTTDecoding, MQTTEncoding};

verus! {

/// Packet type code of Connack.
pub const CONNACK_PACKET_TYPE: u8 = 2;

/// Connection accepted.
pub const CONNACK_ACCEPTED: u8 = 0;

/// Connection refused: unacceptable protocol version.
pub const CONNACK_UNACCEPTABLE_PROTOCOL: u8 = 1;

/// Connection refused: client identifier rejected.
pub const CONNACK_IDENTIFIER_REJECTED: u8 = 2;

/// Connection refused: server unavailable.
pub const CONNACK_SERVER_UNAVAILABLE: u8 = 3;

/// Connection refused: bad user name or password.
pub const CONNACK_BAD_CREDENTIALS: u8 = 4;

/// Connection refused: not authorized.
pub const CONNACK_NOT_AUTHORIZED: u8 = 5;

/// The broker's answer to a Connect: whether a session was resumed and
/// a return code between 0 (accepted) and 5 (not authorized).
#[derive(Clone, Copy, Debug, PartialEq, Eq, Structural)]
pub struct Connack {
    pub session_present: bool,
    pub return_code: u8,
}

impl Connack {
    /// Holds when the return code is one the protocol defines.
    pub open spec fn wf(&self) -> bool {
        self.return_code <= 5
    }

    /// The two-byte body: the acknowledge-flags byte, then the return
    /// code.
    pub open spec fn spec_mqtt_body(&self) -> Seq<u8> {
        seq![if self.session_present { 1u8 } else { 0u8 }, self.return_code]
    }

    /// The full wire form.
    pub open spec fn spec_enc(&self) -> Seq<u8> {
        seq![32u8] + spec_rl_enc(2) + self.spec_mqtt_body()
    }

    /// What reading the bytes after the control byte yields.
    pub open spec fn spec_parse(control_byte: u8, bytes: Seq<u8>) -> Result<Connack, ErrorKind> {
        if control_byte / 16 != CONNACK_PACKET_TYPE {
            Err(ErrorKind::InvalidControlPacketType)
        } else if control_byte % 16 != 0 {
            Err(ErrorKind::InvalidReservedBits)
        } else {
            match spec_body(bytes) {
                Err(k) => Err(k),
                Ok(b) => if b.len() != 2 {
                    Err(ErrorKind::MalformedLength)
                } else if b[0] > 1 {
                    Err(ErrorKind::InvalidFlags)
                } else if b[1] > 5 {
                    Err(ErrorKind::InvalidProtocol)
                } else {
                    Ok(Connack { session_present: b[0] == 1, return_code: b[1] })
                },
            }
        }
    }

    /// Creates a Connack.
    pub fn new(session_present: bool, return_code: u8) -> (r: PacketResult<Connack>)
        ensures
            match r {
                Ok(p) => return_code <= 5 && p == (Connack { session_present, return_code }),
                Err(e) => return_code > 5 && e.kind == ErrorKind::InvalidProtocol,
            },
    {
        if return_code > 5 {
            return Err(PacketError::new_kind(
                "Connack return code must be between 0 and 5",
                ErrorKind::InvalidProtocol,
            ));
        }
        Ok(Connack { session_present, return_code })
    }

    /// True when the broker resumed a stored session.
    pub fn session_present(&self) -> (r: bool)
        ensures
            r == self.session_present,
    {
        self.session_present
    }

    /// The return code.
    pub fn return_code(&self) -> (r: u8)
        ensures
            r == self.return_code,
    {
        self.return_code
    }

    /// Round trip: a well-formed Connack parses back from its own wire
    /// form, whatever bytes follow it.
    pub proof fn lemma_roundtrip(p: Connack, rest: Seq<u8>)
        requires
            p.wf(),
        ensures
            Connack::spec_parse(p.spec_enc()[0], p.spec_enc().skip(1) + rest) == Ok::<
                Connack,
                ErrorKind,
            >(p),
    {
        let body = p.spec_mqtt_body();
        lemma_body_roundtrip(body, rest);
        assert(p.spec_enc()[0] == 32);
        assert(p.spec_enc().skip(1) + rest =~= spec_rl_enc(2) + body + rest);
    }
}

impl MQTTEncoding for Connack {
    /// The wire form of a Connack; never fails on a well-formed value.
    fn encode(&self) -> (r: PacketResult<Vec<u8>>)
        ensures
            r matches Ok(v) && v@ == self.spec_enc(),
    {
        let mut body: Vec<u8> = Vec::new();
        body.push(if self.session_present { 1 } else { 0 });
        body.push(self.return_code);
        let r = encode_with_header(32, body.as_slice());
        proof {
            assert(body@ =~= self.spec_mqtt_body());
        }
        r
    }
}

impl MQTTDecoding for Connack {
    /// Reads a Connack from the bytes after its control byte.
    fn read_from(bytes: &[u8], control_byte: u8) -> (r: PacketResult<Connack>)
        ensures
            match r {
                Ok(p) => Connack::spec_parse(control_byte, bytes@) == Ok::<Connack, ErrorKind>(p)
                    && p.wf(),
                Err(e) => Connack::spec_parse(control_byte, bytes@) == Err::<Connack, ErrorKind>(
                    e.kind,
                ),
            },
    {
        if control_byte / 16 != CONNACK_PACKET_TYPE {
            return Err(PacketError::new_kind(
                "control packet type must be 2 for a Connack packet",
                ErrorKind::InvalidControlPacketType,
            ));
        }
        if control_byte % 16 != 0 {
            return Err(PacketError::new_kind(
                "reserved bits of a Connack packet must be 0",
                ErrorKind::InvalidReservedBits,
            ));
        }
        let (s, e) = match read_body_bounds(bytes) {
            Ok(v) => v,
            Err(err) => {
                return Err(err);
            },
        };
        if e - s != 2 {
            return Err(PacketError::new_kind(
                "remaining length of a Connack packet must be 2",
                ErrorKind::MalformedLength,
            ));
        }
        let flags = bytes[s];
        let code = bytes[s + 1];
        proof {
            let b = bytes@.subrange(s as int, e as int);
            assert(b[0] == bytes@[s as int] && b[1] == bytes@[s as int + 1]);
        }
        if flags > 1 {
            return Err(PacketError::new_kind(
                "acknowledge flags of a Connack packet must be 0 or 1",
                ErrorKind::InvalidFlags,
            ));
        }
        if code > 5 {
            return Err(PacketError::new_kind(
                "Connack return code must be between 0 and 5",
                ErrorKind::InvalidProtocol,
            ));
        }
        Ok(Connack { session_present: flags == 1, return_code: code })
    }
}

} // verus!
