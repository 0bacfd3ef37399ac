//! The Publish packet: an application message for a topic, with its
//! flags, optional packet identifier, and payload.

use vstd::prelude::*;
use vstd::slice::{slice_subrange, slice_to_vec};
use vstd::string::StrSliceExecFns;
use vstd::utf8::encode_utf8;
use crate::errors::{ErrorKind, PacketError, PacketResult};
use crate::packet_reader::{encode_with_header, lemma_be16_value, lemma_body_roundtrip,
    read_body_bounds, read_u16, spec_be16, spec_body, spec_rl_enc, spec_u16_be, write_u16,
    MAX_REMAINING_LENGTH};
use crate::qos::{spec_qos_value, QoSLevel};
use crate::traits::{MQTTDecoding, MQTTEncoding};
use crate::utf8::{lemma_field_roundtrip, spec_field_enc, spec_field_ok, spec_field_parse, Field};

verus! {

/// Packet type code of Publish.
pub const PUBLISH_PACKET_TYPE: u8 = 3;

/// Holds when the UTF-8 bytes of a topic name are acceptable for a
/// publish: at least one byte and no wildcard. The wildcard bytes 43
/// (`+`) and 35 (`#`) stand only for those characters in UTF-8.
pub open spec fn spec_topic_name_ok(b: Seq<u8>) -> bool {
    &&& b.len() >= 1
    &&& forall|i: int| 0 <= i < b.len() ==> b[i] != 43 && b[i] != 35
}

/// The mathematical content of a Publish packet.
pub ghost struct PublishView {
    pub dup: bool,
    pub qos: QoSLevel,
    pub retain: bool,
    pub topic: Seq<char>,
    pub packet_id: Option<u16>,
    pub payload: Seq<u8>,
}

impl PublishView {
    /// Holds when the packet could have come off the wire: a carriable
    /// wildcard-free topic, and a packet identifier exactly when the
    /// quality of service asks for one.
    pub open spec fn wf(&self) -> bool {
        &&& spec_field_ok(self.topic)
        &&& spec_topic_name_ok(encode_utf8(self.topic))
        &&& (self.packet_id is Some <==> self.qos != QoSLevel::QoSLevel0)
    }

    /// How this packet is stored as a retained message: duplicate flag
    /// cleared, retain set, the packet identifier left out.
    pub open spec fn as_retained(&self) -> PublishView {
        PublishView {
            dup: false,
            qos: self.qos,
            retain: true,
            topic: self.topic,
            packet_id: None,
            payload: self.payload,
        }
    }

    /// The flags nibble: duplicate-delivery bit, quality of service,
    /// retain bit.
    pub open spec fn spec_flags(&self) -> u8 {
        ((if self.dup {
            8int
        } else {
            0int
        }) + 2 * spec_qos_value(self.qos) + (if self.retain {
            1int
        } else {
            0int
        })) as u8
    }

    /// The body: the topic field, the packet identifier when the
    /// quality of service asks for one, then the payload.
    pub open spec fn spec_mqtt_body(&self) -> Seq<u8> {
        spec_field_enc(self.topic) + (match self.packet_id {
            Some(id) => spec_be16(id),
            None => Seq::<u8>::empty(),
        }) + self.payload
    }

    /// The full wire form.
    pub open spec fn spec_enc(&self) -> Seq<u8> {
        seq![(48 + self.spec_flags()) as u8] + spec_rl_enc(self.spec_mqtt_body().len() as int)
            + self.spec_mqtt_body()
    }

    /// What reading the bytes after the control byte yields. A quality
    /// of service of 2 on the wire is downgraded to 1; 3 is invalid.
    pub open spec fn spec_parse(control_byte: u8, bytes: Seq<u8>) -> Result<PublishView, ErrorKind> {
        let qos_bits = (control_byte / 2) % 4;
        let dup = (control_byte % 16) / 8 == 1;
        let retain = control_byte % 2 == 1;
        if control_byte / 16 != PUBLISH_PACKET_TYPE {
            Err(ErrorKind::InvalidControlPacketType)
        } else if qos_bits == 3 {
            Err(ErrorKind::InvalidFlags)
        } else {
            match spec_body(bytes) {
                Err(k) => Err(k),
                Ok(b) => match spec_field_parse(b) {
                    Err(k) => Err(k),
                    Ok(tc) => if !spec_topic_name_ok(encode_utf8(tc.0)) {
                        Err(ErrorKind::InvalidProtocol)
                    } else if qos_bits == 0 {
                        Ok(PublishView {
                            dup,
                            qos: QoSLevel::QoSLevel0,
                            retain,
                            topic: tc.0,
                            packet_id: None,
                            payload: b.skip(tc.1),
                        })
                    } else if b.len() < tc.1 + 2 {
                        Err(ErrorKind::UnexpectedEof)
                    } else {
                        Ok(PublishView {
                            dup,
                            qos: QoSLevel::QoSLevel1,
                            retain,
                            topic: tc.0,
                            packet_id: Some(spec_u16_be(b[tc.1], b[tc.1 + 1]) as u16),
                            payload: b.skip(tc.1 + 2),
                        })
                    },
                },
            }
        }
    }

    /// Round trip: a well-formed Publish that fits the remaining length
    /// parses back from its own wire form.
    #[verifier::rlimit(50)]
    pub proof fn lemma_roundtrip(v: PublishView, rest: Seq<u8>)
        requires
            v.wf(),
            v.spec_mqtt_body().len() <= MAX_REMAINING_LENGTH,
        ensures
            PublishView::spec_parse(v.spec_enc()[0], v.spec_enc().skip(1) + rest) == Ok::<
                PublishView,
                ErrorKind,
            >(v),
    {
        let body = v.spec_mqtt_body();
        lemma_body_roundtrip(body, rest);
        let cb: u8 = (48 + v.spec_flags()) as u8;
        assert(v.spec_enc()[0] == cb);
        let d: int = if v.dup { 1 } else { 0 };
        let q: int = spec_qos_value(v.qos) as int;
        let rt: int = if v.retain { 1 } else { 0 };
        assert(cb == 48 + 8 * d + 2 * q + rt);
        assert(0 <= d <= 1 && 0 <= q <= 1 && 0 <= rt <= 1);
        assert(cb / 16 == 3 && (cb / 2) % 4 == q && (cb % 16) / 8 == d && cb % 2 == rt) by (nonlinear_arith)
            requires
                cb == 48 + 8 * d + 2 * q + rt,
                0 <= d <= 1,
                0 <= q <= 1,
                0 <= rt <= 1,
        ;
        assert((cb / 2) % 4 != 3);
        assert(((cb % 16) / 8 == 1) == v.dup);
        assert((cb % 2 == 1) == v.retain);
        assert(v.spec_enc().skip(1) + rest =~= spec_rl_enc(body.len() as int) + body + rest);
        let mid = match v.packet_id {
            Some(id) => spec_be16(id),
            None => Seq::<u8>::empty(),
        };
        lemma_field_roundtrip(v.topic, mid + v.payload);
        assert(body =~= spec_field_enc(v.topic) + (mid + v.payload));
        let c: int = 2 + encode_utf8(v.topic).len() as int;
        assert(spec_field_parse(body) == Ok::<(Seq<char>, int), ErrorKind>((v.topic, c)));
        match v.packet_id {
            Some(id) => {
                lemma_be16_value(id);
                assert(body[c] == spec_be16(id)[0] && body[c + 1] == spec_be16(id)[1]);
                assert(body.skip(c + 2) =~= v.payload);
            },
            None => {
                assert(body.skip(c) =~= v.payload);
            },
        }
    }
}

/// An application message on its way through the broker.
#[derive(Debug, Clone)]
pub struct Publish {
    dup: bool,
    qos: QoSLevel,
    retain: bool,
    topic: String,
    packet_id: Option<u16>,
    payload: Vec<u8>,
}

impl DeepView for Publish {
    type V = PublishView;

    open spec fn deep_view(&self) -> PublishView {
        self.view()
    }
}

impl View for Publish {
    type V = PublishView;

    closed spec fn view(&self) -> PublishView {
        PublishView {
            dup: self.dup,
            qos: self.qos,
            retain: self.retain,
            topic: self.topic@,
            packet_id: self.packet_id,
            payload: self.payload@,
        }
    }
}

impl Publish {
    /// Creates a Publish, rejecting a topic that cannot be carried by a
    /// field or contains a wildcard, and a packet identifier that does
    /// not fit the quality of service.
    pub fn new(
        dup: bool,
        qos: QoSLevel,
        retain: bool,
        topic: &str,
        payload: Vec<u8>,
        packet_id: Option<u16>,
    ) -> (r: PacketResult<Publish>)
        ensures
            match r {
                Ok(p) => {
                    &&& p@ == (PublishView {
                        dup,
                        qos,
                        retain,
                        topic: topic@,
                        packet_id,
                        payload: payload@,
                    })
                    &&& p@.wf()
                },
                Err(e) => {
                    &&& (e.kind == ErrorKind::InvalidUtf8 && !spec_field_ok(topic@)) || (e.kind
                        == ErrorKind::InvalidProtocol && !(spec_field_ok(topic@)
                        ==> (spec_topic_name_ok(encode_utf8(topic@)) && (packet_id is Some <==> qos
                        != QoSLevel::QoSLevel0))))
                    &&& !(PublishView { dup, qos, retain, topic: topic@, packet_id, payload: payload@ }).wf()
                },
            },
    {
        let f = match Field::new_from_string(topic) {
            Some(f) => f,
            None => {
                return Err(PacketError::new_kind(
                    "topic name cannot be carried by a UTF-8 field",
                    ErrorKind::InvalidUtf8,
                ));
            },
        };
        if !Publish::check_topic_name(topic) {
            return Err(PacketError::new_kind(
                "topic name must be non-empty and contain no wildcard",
                ErrorKind::InvalidProtocol,
            ));
        }
        let id_matches_qos = match (packet_id, qos) {
            (Some(_), QoSLevel::QoSLevel1) => true,
            (None, QoSLevel::QoSLevel0) => true,
            _ => false,
        };
        if !id_matches_qos {
            return Err(PacketError::new_kind(
                "packet identifier must be present exactly for quality of service 1",
                ErrorKind::InvalidProtocol,
            ));
        }
        Ok(Publish { dup, qos, retain, topic: f.value, packet_id, payload })
    }

    /// Builds a Publish from parts already known to be acceptable, or
    /// deliberately partial ones, such as a forwarded message whose
    /// packet identifier the session will assign on send.
    pub(crate) fn make(
        dup: bool,
        qos: QoSLevel,
        retain: bool,
        topic: String,
        packet_id: Option<u16>,
        payload: Vec<u8>,
    ) -> (r: Publish)
        ensures
            r@ == (PublishView { dup, qos, retain, topic: topic@, packet_id, payload: payload@ }),
    {
        Publish { dup, qos, retain, topic, packet_id, payload }
    }

    /// A copy of this packet.
    pub fn duplicate(&self) -> (r: Publish)
        ensures
            r@ == self@,
    {
        Publish {
            dup: self.dup,
            qos: self.qos,
            retain: self.retain,
            topic: self.topic.clone(),
            packet_id: self.packet_id,
            payload: vstd::slice::slice_to_vec(self.payload.as_slice()),
        }
    }

    /// True when the topic bytes are non-empty and wildcard-free.
    fn check_topic_name(topic: &str) -> (r: bool)
        ensures
            r == spec_topic_name_ok(encode_utf8(topic@)),
    {
        let b = topic.as_bytes_vec();
        if b.len() == 0 {
            return false;
        }
        let mut i: usize = 0;
        while i < b.len()
            invariant
                i <= b@.len(),
                b@ == encode_utf8(topic@),
                b@.len() >= 1,
                forall|j: int| 0 <= j < i ==> b@[j] != 43 && b@[j] != 35,
            decreases b@.len() - i,
        {
            if b[i] == 43 || b[i] == 35 {
                return false;
            }
            i += 1;
        }
        true
    }

    /// Whether this packet satisfies the protocol rules a decoded
    /// packet satisfies.
    pub fn check_wf(&self) -> (r: bool)
        ensures
            r == self@.wf(),
    {
        let field_ok = match Field::new_from_string(self.topic.as_str()) {
            Some(_) => true,
            None => false,
        };
        let id_ok = match (self.packet_id, self.qos) {
            (Some(_), QoSLevel::QoSLevel1) => true,
            (None, QoSLevel::QoSLevel0) => true,
            _ => false,
        };
        field_ok && Publish::check_topic_name(self.topic.as_str()) && id_ok
    }

    /// The duplicate-delivery flag.
    pub fn dup(&self) -> (r: bool)
        ensures
            r == self@.dup,
    {
        self.dup
    }

    /// Marks or clears duplicate delivery; everything else stays.
    pub fn set_dup(&mut self, dup: bool)
        ensures
            final(self)@ == (PublishView { dup, ..old(self)@ }),
    {
        self.dup = dup;
    }

    /// The quality of service.
    pub fn qos(&self) -> (r: QoSLevel)
        ensures
            r == self@.qos,
    {
        self.qos
    }

    /// The retain flag.
    pub fn retain(&self) -> (r: bool)
        ensures
            r == self@.retain,
    {
        self.retain
    }

    /// The topic name.
    pub fn topic_name(&self) -> (r: &str)
        ensures
            r@ == self@.topic,
    {
        self.topic.as_str()
    }

    /// The packet identifier, present exactly for quality of service 1.
    pub fn packet_id(&self) -> (r: Option<u16>)
        ensures
            r == self@.packet_id,
    {
        self.packet_id
    }

    /// The payload bytes.
    pub fn payload(&self) -> (r: &Vec<u8>)
        ensures
            r@ == self@.payload,
    {
        &self.payload
    }
}

impl MQTTEncoding for Publish {
    /// The wire form of a Publish; fails only when the topic cannot be
    /// carried by a field or the body is longer than the remaining
    /// length can say.
    fn encode(&self) -> (r: PacketResult<Vec<u8>>)
        ensures
            match r {
                Ok(v) => spec_field_ok(self@.topic) && self@.spec_mqtt_body().len()
                    <= MAX_REMAINING_LENGTH && v@ == self@.spec_enc(),
                Err(e) => (e.kind == ErrorKind::InvalidUtf8 && !spec_field_ok(self@.topic)) || (
                e.kind == ErrorKind::MalformedLength && self@.spec_mqtt_body().len()
                    > MAX_REMAINING_LENGTH),
            },
    {
        match Field::new_from_string(self.topic.as_str()) {
            Some(_) => (),
            None => {
                return Err(PacketError::new_kind(
                    "topic name cannot be carried by a UTF-8 field",
                    ErrorKind::InvalidUtf8,
                ));
            },
        }
        let mut body: Vec<u8> = Vec::new();
        Field::write_field(&mut body, self.topic.as_str());
        match self.packet_id {
            Some(id) => write_u16(&mut body, id),
            None => (),
        }
        crate::packet_reader::push_all(&mut body, self.payload.as_slice());
        proof {
            assert(body@ =~= self@.spec_mqtt_body());
        }
        let flags: u8 = (if self.dup {
            8u8
        } else {
            0u8
        }) + 2 * self.qos.value() + (if self.retain {
            1u8
        } else {
            0u8
        });
        encode_with_header(48 + flags, body.as_slice())
    }
}

impl MQTTDecoding for Publish {
    /// Reads a Publish from the bytes after its control byte.
    ///
    /// Fails unless the control byte carries type 3 with a quality of
    /// service of at most 2, the topic is a non-empty wildcard-free
    /// UTF-8 field, and a packet identifier follows it when the
    /// quality of service asks for one. The rest of the body is the
    /// payload.
    fn read_from(bytes: &[u8], control_byte: u8) -> (r: PacketResult<Publish>)
        ensures
            match r {
                Ok(p) => PublishView::spec_parse(control_byte, bytes@) == Ok::<
                    PublishView,
                    ErrorKind,
                >(p@) && p@.wf(),
                Err(e) => PublishView::spec_parse(control_byte, bytes@) == Err::<
                    PublishView,
                    ErrorKind,
                >(e.kind),
            },
    {
        if control_byte / 16 != PUBLISH_PACKET_TYPE {
            return Err(PacketError::new_kind(
                "control packet type must be 3 for a Publish packet",
                ErrorKind::InvalidControlPacketType,
            ));
        }
        let qos_bits = (control_byte / 2) % 4;
        if qos_bits == 3 {
            return Err(PacketError::new_kind(
                "quality of service of a Publish packet must be at most 2",
                ErrorKind::InvalidFlags,
            ));
        }
        let dup = (control_byte % 16) / 8 == 1;
        let retain = control_byte % 2 == 1;
        let (s, e) = match read_body_bounds(bytes) {
            Ok(v) => v,
            Err(err) => {
                return Err(err);
            },
        };
        let body: &[u8] = slice_subrange(bytes, s, e);
        proof {
            assert(body@.skip(0) =~= body@);
        }
        let (topic, after_topic) = match Field::read_at(body, 0) {
            Ok(v) => v,
            Err(err) => {
                return Err(err);
            },
        };
        if !Publish::check_topic_name(topic.value.as_str()) {
            return Err(PacketError::new_kind(
                "topic name must be non-empty and contain no wildcard",
                ErrorKind::InvalidProtocol,
            ));
        }
        if qos_bits == 0 {
            let payload = slice_to_vec(slice_subrange(body, after_topic, body.len()));
            proof {
                assert(payload@ =~= body@.skip(after_topic as int));
            }
            return Ok(Publish {
                dup,
                qos: QoSLevel::QoSLevel0,
                retain,
                topic: topic.value,
                packet_id: None,
                payload,
            });
        }
        let (id, after_id) = match read_u16(body, after_topic) {
            Ok(v) => v,
            Err(err) => {
                return Err(err);
            },
        };
        let payload = slice_to_vec(slice_subrange(body, after_id, body.len()));
        proof {
            assert(payload@ =~= body@.skip(after_topic as int + 2));
            assert(body@[after_topic as int] == body@.subrange(after_topic as int, after_topic as int
                + 2)[0]);
        }
        Ok(Publish {
            dup,
            qos: QoSLevel::QoSLevel1,
            retain,
            topic: topic.value,
            packet_id: Some(id),
            payload,
        })
    }
}

} // verus!
