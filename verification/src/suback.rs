//! The Suback packet: the broker's answer to a Subscribe, one return
//! code per requested filter.

use vstd::prelude::*;
use vstd::slice::{slice_subrange, slice_to_vec};
use crate::errors::{ErrorKind, PacketError, PacketResult};
use crate::packet_reader::{encode_with_header, lemma_be16_value, lemma_body_roundtrip, push_all,
    read_body_bounds, read_u16, spec_be16, spec_body, spec_rl_enc, spec_u16_be, write_u16,
    MAX_REMAINING_LENGTH};
use crate::traits::{MQTTDecoding, MQTTEncoding};

verus! {

/// Packet type code of Suback.
pub const SUBACK_PACKET_TYPE: u8 = 9;

/// Return code granting quality of service 0.
pub const SUBACK_GRANTED_QOS0: u8 = 0;

/// Return code granting quality of service 1.
pub const SUBACK_GRANTED_QOS1: u8 = 1;

/// Return code refusing the subscription.
pub const SUBACK_FAILURE: u8 = 128;

/// Holds when a byte is one of the three return codes the protocol
/// defines.
pub open spec fn spec_code_ok(c: u8) -> bool {
    c == 0 || c == 1 || c == 128
}

/// The mathematical content of a Suback packet.
pub ghost struct SubackView {
    pub packet_id: u16,
    pub return_codes: Seq<u8>,
}

impl SubackView {
    /// Holds when every return code is one the protocol defines.
    pub open spec fn wf(&self) -> bool {
        forall|i: int| 0 <= i < self.return_codes.len() ==> spec_code_ok(#[trigger] self.return_codes[i])
    }

    /// The body: the packet identifier, then the return codes.
    pub open spec fn spec_mqtt_body(&self) -> Seq<u8> {
        spec_be16(self.packet_id) + self.return_codes
    }

    /// The full wire form, control byte 0x90.
    pub open spec fn spec_enc(&self) -> Seq<u8> {
        seq![144u8] + spec_rl_enc(self.spec_mqtt_body().len() as int) + self.spec_mqtt_body()
    }

    /// What reading the bytes after the control byte yields.
    pub open spec fn spec_parse(control_byte: u8, bytes: Seq<u8>) -> Result<SubackView, ErrorKind> {
        if control_byte / 16 != SUBACK_PACKET_TYPE {
            Err(ErrorKind::InvalidControlPacketType)
        } else if control_byte % 16 != 0 {
            Err(ErrorKind::InvalidReservedBits)
        } else {
            match spec_body(bytes) {
                Err(k) => Err(k),
                Ok(b) => if b.len() < 2 {
                    Err(ErrorKind::UnexpectedEof)
                } else if exists|i: int| 2 <= i < b.len() && !spec_code_ok(#[trigger] b[i]) {
                    Err(ErrorKind::InvalidProtocol)
                } else {
                    Ok(SubackView {
                        packet_id: spec_u16_be(b[0], b[1]) as u16,
                        return_codes: b.skip(2),
                    })
                },
            }
        }
    }

    /// Round trip: a well-formed Suback that fits the remaining length
    /// parses back from its own wire form.
    pub proof fn lemma_roundtrip(v: SubackView, rest: Seq<u8>)
        requires
            v.wf(),
            v.spec_mqtt_body().len() <= MAX_REMAINING_LENGTH,
        ensures
            SubackView::spec_parse(v.spec_enc()[0], v.spec_enc().skip(1) + rest) == Ok::<
                SubackView,
                ErrorKind,
            >(v),
    {
        let body = v.spec_mqtt_body();
        lemma_body_roundtrip(body, rest);
        assert(v.spec_enc()[0] == 144);
        assert(v.spec_enc().skip(1) + rest =~= spec_rl_enc(body.len() as int) + body + rest);
        lemma_be16_value(v.packet_id);
        assert(body.skip(2) =~= v.return_codes);
    }
}

/// Acknowledges one Subscribe, reporting what was granted per filter.
#[derive(Debug)]
pub struct Suback {
    packet_id: u16,
    return_codes: Vec<u8>,
}

impl View for Suback {
    type V = SubackView;

    closed spec fn view(&self) -> SubackView {
        SubackView { packet_id: self.packet_id, return_codes: self.return_codes@ }
    }
}

impl Suback {
    /// Creates a Suback with the given return codes.
    pub fn new(packet_id: u16, return_codes: Vec<u8>) -> (r: Suback)
        ensures
            r@.packet_id == packet_id,
            r@.return_codes == return_codes@,
    {
        Suback { packet_id, return_codes }
    }

    /// Gets the packet identifier of this packet.
    pub fn packet_id(&self) -> (r: u16)
        ensures
            r == self@.packet_id,
    {
        self.packet_id
    }

    /// Gets the return codes of this packet.
    pub fn return_codes(&self) -> (r: &Vec<u8>)
        ensures
            r@ == self@.return_codes,
    {
        &self.return_codes
    }

    /// Reads a Suback from the bytes after its control byte.
    #[verifier::loop_isolation(false)]
    pub fn read_from(bytes: &[u8], control_byte: u8) -> (r: PacketResult<Suback>)
        ensures
            match r {
                Ok(p) => SubackView::spec_parse(control_byte, bytes@) == Ok::<SubackView, ErrorKind>(
                    p@,
                ) && p@.wf(),
                Err(e) => SubackView::spec_parse(control_byte, bytes@) == Err::<
                    SubackView,
                    ErrorKind,
                >(e.kind),
            },
    {
        if control_byte / 16 != SUBACK_PACKET_TYPE {
            return Err(PacketError::new_kind(
                "control packet type must be 9 for a Suback packet",
                ErrorKind::InvalidControlPacketType,
            ));
        }
        if control_byte % 16 != 0 {
            return Err(PacketError::new_kind(
                "reserved bits of a Suback packet must be 0",
                ErrorKind::InvalidReservedBits,
            ));
        }
        let (s, e) = match read_body_bounds(bytes) {
            Ok(v) => v,
            Err(err) => {
                return Err(err);
            },
        };
        let body: &[u8] = slice_subrange(bytes, s, e);
        let (packet_id, _) = match read_u16(body, 0) {
            Ok(v) => v,
            Err(err) => {
                return Err(err);
            },
        };
        let mut i: usize = 2;
        while i < body.len()
            invariant
                2 <= i <= body@.len(),
                forall|j: int| 2 <= j < i ==> spec_code_ok(#[trigger] body@[j]),
            decreases body@.len() - i,
        {
            let c = body[i];
            if !(c == 0 || c == 1 || c == 128) {
                return Err(PacketError::new_kind(
                    "Suback return code must be 0, 1, or 128",
                    ErrorKind::InvalidProtocol,
                ));
            }
            i += 1;
        }
        let return_codes = slice_to_vec(slice_subrange(body, 2, body.len()));
        proof {
            assert(return_codes@ =~= body@.skip(2));
        }
        Ok(Suback { packet_id, return_codes })
    }
}

impl MQTTEncoding for Suback {
    /// The wire form of a Suback; fails only when a return code is not
    /// one the protocol defines or the body is longer than the
    /// remaining length can say.
    fn encode(&self) -> (r: PacketResult<Vec<u8>>)
        ensures
            match r {
                Ok(v) => self@.wf() && self@.spec_mqtt_body().len() <= MAX_REMAINING_LENGTH && v@
                    == self@.spec_enc(),
                Err(e) => (e.kind == ErrorKind::InvalidProtocol && !self@.wf()) || (e.kind
                    == ErrorKind::MalformedLength && self@.spec_mqtt_body().len()
                    > MAX_REMAINING_LENGTH),
            },
    {
        let mut i: usize = 0;
        while i < self.return_codes.len()
            invariant
                i <= self.return_codes@.len(),
                forall|j: int| 0 <= j < i ==> spec_code_ok(#[trigger] self.return_codes@[j]),
            decreases self.return_codes@.len() - i,
        {
            let c = self.return_codes[i];
            if !(c == 0 || c == 1 || c == 128) {
                proof {
                    assert(!spec_code_ok(self@.return_codes[i as int]));
                }
                return Err(PacketError::new_kind(
                    "Suback return code must be 0, 1, or 128",
                    ErrorKind::InvalidProtocol,
                ));
            }
            i += 1;
        }
        let mut body: Vec<u8> = Vec::new();
        write_u16(&mut body, self.packet_id);
        push_all(&mut body, self.return_codes.as_slice());
        proof {
            assert(body@ == self@.spec_mqtt_body());
        }
        encode_with_header(144, body.as_slice())
    }
}

impl MQTTDecoding for Suback {
    /// Same as `Suback::read_from`.
    fn read_from(bytes: &[u8], control_byte: u8) -> (r: PacketResult<Suback>)
        ensures
            match r {
                Ok(p) => SubackView::spec_parse(control_byte, bytes@) == Ok::<SubackView, ErrorKind>(
                    p@,
                ) && p@.wf(),
                Err(e) => SubackView::spec_parse(control_byte, bytes@) == Err::<
                    SubackView,
                    ErrorKind,
                >(e.kind),
            },
    {
        Suback::read_from(bytes, control_byte)
    }
}

} // verus!
