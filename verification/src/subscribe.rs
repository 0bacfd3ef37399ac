//! The Subscribe packet: a packet identifier and one or more topic
//! filters, each with a requested quality of service.

use vstd::prelude::*;
use vstd::slice::slice_subrange;
use vstd::utf8::encode_utf8;
use crate::errors::{ErrorKind, PacketError, PacketResult};
use crate::packet_reader::{encode_with_header, lemma_be16_value, lemma_body_roundtrip,
    read_body_bounds, read_u16, spec_be16, spec_body, spec_rl_enc, spec_u16_be, write_u16,
    MAX_REMAINING_LENGTH};
use crate::qos::{spec_qos_value, QoSLevel};
use crate::suback::Suback;
use crate::traits::{MQTTDecoding, MQTTEncoding};
use crate::utf8::{lemma_field_roundtrip, spec_field_enc, spec_field_ok, spec_field_parse, Field};

verus! {

/// Packet type code of Subscribe.
pub const SUBSCRIBE_PACKET_TYPE: u8 = 8;

/// One topic filter of a Subscribe, with its requested quality of
/// service.
#[derive(Debug)]
pub struct TopicFilter {
    pub name: String,
    pub qos: QoSLevel,
}

/// The mathematical content of one topic filter.
pub ghost struct TopicFilterView {
    pub name: Seq<char>,
    pub qos: QoSLevel,
}

impl View for TopicFilter {
    type V = TopicFilterView;

    open spec fn view(&self) -> TopicFilterView {
        TopicFilterView { name: self.name@, qos: self.qos }
    }
}

impl DeepView for TopicFilter {
    type V = TopicFilterView;

    open spec fn deep_view(&self) -> TopicFilterView {
        self.view()
    }
}

impl TopicFilter {
    /// Creates a topic filter entry.
    pub fn new(name: String, qos: QoSLevel) -> (r: TopicFilter)
        ensures
            r@.name == name@ && r@.qos == qos,
    {
        TopicFilter { name, qos }
    }

    /// The filter string.
    pub fn name(&self) -> (r: &str)
        ensures
            r@ == self@.name,
    {
        self.name.as_str()
    }

    /// The requested quality of service.
    pub fn qos(&self) -> (r: QoSLevel)
        ensures
            r == self@.qos,
    {
        self.qos
    }
}

/// The wire form of a list of filter entries: a field and a
/// quality-of-service byte for each.
pub open spec fn spec_enc_topics(ts: Seq<TopicFilterView>) -> Seq<u8>
    decreases ts.len(),
{
    if ts.len() == 0 {
        Seq::empty()
    } else {
        spec_field_enc(ts[0].name) + seq![spec_qos_value(ts[0].qos)] + spec_enc_topics(
            ts.drop_first(),
        )
    }
}

/// Filter entries read one after another until the body ends. An empty
/// filter is a protocol error; a quality-of-service byte of 2 is
/// downgraded to 1 and one above 2 is a flags error.
pub open spec fn spec_parse_topics(b: Seq<u8>) -> Result<Seq<TopicFilterView>, ErrorKind>
    decreases b.len(),
{
    if b.len() == 0 {
        Ok(Seq::empty())
    } else {
        match spec_field_parse(b) {
            Err(k) => Err(k),
            Ok(sc) => if sc.0.len() == 0 {
                Err(ErrorKind::InvalidProtocol)
            } else if b.len() < sc.1 + 1 {
                Err(ErrorKind::UnexpectedEof)
            } else if b[sc.1] > 2 {
                Err(ErrorKind::InvalidFlags)
            } else {
                match spec_parse_topics(b.skip(sc.1 + 1)) {
                    Err(k) => Err(k),
                    Ok(rest) => Ok(
                        seq![
                            TopicFilterView {
                                name: sc.0,
                                qos: if b[sc.1] == 0 {
                                    QoSLevel::QoSLevel0
                                } else {
                                    QoSLevel::QoSLevel1
                                },
                            },
                        ] + rest,
                    ),
                }
            },
        }
    }
}

/// The entries already read, followed by whatever the rest parses to.
pub open spec fn spec_topics_then(
    done: Seq<TopicFilterView>,
    r: Result<Seq<TopicFilterView>, ErrorKind>,
) -> Result<Seq<TopicFilterView>, ErrorKind> {
    match r {
        Ok(rest) => Ok(done + rest),
        Err(k) => Err(k),
    }
}

/// Appending one entry extends the wire form by one field and one byte.
pub proof fn lemma_enc_topics_snoc(ts: Seq<TopicFilterView>, t: TopicFilterView)
    ensures
        spec_enc_topics(ts.push(t)) == spec_enc_topics(ts) + spec_field_enc(t.name) + seq![
            spec_qos_value(t.qos),
        ],
    decreases ts.len(),
{
    let p = ts.push(t);
    let tail = spec_field_enc(t.name) + seq![spec_qos_value(t.qos)];
    if ts.len() == 0 {
        assert(p[0] == t);
        assert(p.drop_first() =~= Seq::<TopicFilterView>::empty());
        assert(spec_enc_topics(p.drop_first()) == Seq::<u8>::empty());
        assert(spec_enc_topics(p) == spec_field_enc(t.name) + seq![spec_qos_value(t.qos)]
            + Seq::<u8>::empty());
        assert(spec_field_enc(t.name) + seq![spec_qos_value(t.qos)] + Seq::<u8>::empty()
            =~= spec_enc_topics(ts) + spec_field_enc(t.name) + seq![spec_qos_value(t.qos)]);
    } else {
        assert(p[0] == ts[0]);
        assert(p.drop_first() =~= ts.drop_first().push(t));
        lemma_enc_topics_snoc(ts.drop_first(), t);
        assert(spec_enc_topics(p) == spec_field_enc(ts[0].name) + seq![spec_qos_value(ts[0].qos)]
            + (spec_enc_topics(ts.drop_first()) + spec_field_enc(t.name) + seq![
                spec_qos_value(t.qos),
            ]));
        assert(spec_field_enc(ts[0].name) + seq![spec_qos_value(ts[0].qos)] + (spec_enc_topics(
            ts.drop_first(),
        ) + spec_field_enc(t.name) + seq![spec_qos_value(t.qos)]) =~= (spec_field_enc(ts[0].name)
            + seq![spec_qos_value(ts[0].qos)] + spec_enc_topics(ts.drop_first()))
            + spec_field_enc(t.name) + seq![spec_qos_value(t.qos)]);
        assert(spec_enc_topics(ts) == spec_field_enc(ts[0].name) + seq![spec_qos_value(ts[0].qos)]
            + spec_enc_topics(ts.drop_first()));
    }
}

/// Round trip of an entry list: carriable, non-empty filters parse back
/// from their own wire form.
pub proof fn lemma_topics_roundtrip(ts: Seq<TopicFilterView>)
    requires
        forall|i: int|
            0 <= i < ts.len() ==> spec_field_ok(#[trigger] ts[i].name) && ts[i].name.len() >= 1,
    ensures
        spec_parse_topics(spec_enc_topics(ts)) == Ok::<Seq<TopicFilterView>, ErrorKind>(ts),
    decreases ts.len(),
{
    if ts.len() == 0 {
        assert(ts =~= Seq::<TopicFilterView>::empty());
    } else {
        let t0 = ts[0];
        let rest = ts.drop_first();
        let enc_rest = spec_enc_topics(rest);
        let qb = seq![spec_qos_value(t0.qos)];
        lemma_field_roundtrip(t0.name, qb + enc_rest);
        let c: int = 2 + encode_utf8(t0.name).len() as int;
        let whole = spec_enc_topics(ts);
        assert(whole =~= spec_field_enc(t0.name) + (qb + enc_rest));
        assert(whole.len() >= c + 1);
        assert(spec_field_parse(whole) == Ok::<(Seq<char>, int), ErrorKind>((t0.name, c)));
        assert(whole[c] == spec_qos_value(t0.qos));
        assert(whole.skip(c + 1) =~= enc_rest);
        assert(forall|i: int|
            0 <= i < rest.len() ==> spec_field_ok(#[trigger] rest[i].name) && rest[i].name.len()
                >= 1) by {
            assert(forall|i: int| 0 <= i < rest.len() ==> rest[i] == ts[i + 1]);
        };
        lemma_topics_roundtrip(rest);
        assert(spec_qos_value(t0.qos) <= 2);
        assert((if whole[c] == 0 {
            QoSLevel::QoSLevel0
        } else {
            QoSLevel::QoSLevel1
        }) == t0.qos);
        assert(spec_parse_topics(whole) == Ok::<Seq<TopicFilterView>, ErrorKind>(seq![t0] + rest));
        assert(seq![t0] + rest =~= ts);
    }
}

/// The mathematical content of a Subscribe packet.
pub ghost struct SubscribeView {
    pub packet_id: u16,
    pub topics: Seq<TopicFilterView>,
}

impl SubscribeView {
    /// Holds when the packet could have come off the wire: at least one
    /// entry, each filter non-empty and carriable by a field.
    pub open spec fn wf(&self) -> bool {
        &&& self.topics.len() >= 1
        &&& forall|i: int|
            0 <= i < self.topics.len() ==> spec_field_ok(#[trigger] self.topics[i].name)
                && self.topics[i].name.len() >= 1
    }

    /// The body: the packet identifier, then the entries.
    pub open spec fn spec_mqtt_body(&self) -> Seq<u8> {
        spec_be16(self.packet_id) + spec_enc_topics(self.topics)
    }

    /// The full wire form, control byte 0x82.
    pub open spec fn spec_enc(&self) -> Seq<u8> {
        seq![130u8] + spec_rl_enc(self.spec_mqtt_body().len() as int) + self.spec_mqtt_body()
    }

    /// What reading the bytes after the control byte yields.
    pub open spec fn spec_parse(control_byte: u8, bytes: Seq<u8>) -> Result<
        SubscribeView,
        ErrorKind,
    > {
        if control_byte / 16 != SUBSCRIBE_PACKET_TYPE {
            Err(ErrorKind::InvalidControlPacketType)
        } else if control_byte % 16 != 2 {
            Err(ErrorKind::InvalidReservedBits)
        } else {
            match spec_body(bytes) {
                Err(k) => Err(k),
                Ok(b) => if b.len() < 2 {
                    Err(ErrorKind::UnexpectedEof)
                } else {
                    match spec_parse_topics(b.skip(2)) {
                        Err(k) => Err(k),
                        Ok(ts) => if ts.len() == 0 {
                            Err(ErrorKind::InvalidProtocol)
                        } else {
                            Ok(SubscribeView {
                                packet_id: spec_u16_be(b[0], b[1]) as u16,
                                topics: ts,
                            })
                        },
                    }
                },
            }
        }
    }

    /// Round trip: a well-formed Subscribe that fits the remaining
    /// length parses back from its own wire form.
    pub proof fn lemma_roundtrip(v: SubscribeView, rest: Seq<u8>)
        requires
            v.wf(),
            v.spec_mqtt_body().len() <= MAX_REMAINING_LENGTH,
        ensures
            SubscribeView::spec_parse(v.spec_enc()[0], v.spec_enc().skip(1) + rest) == Ok::<
                SubscribeView,
                ErrorKind,
            >(v),
    {
        let body = v.spec_mqtt_body();
        lemma_body_roundtrip(body, rest);
        assert(v.spec_enc()[0] == 130);
        assert(v.spec_enc().skip(1) + rest =~= spec_rl_enc(body.len() as int) + body + rest);
        lemma_be16_value(v.packet_id);
        assert(body.skip(2) =~= spec_enc_topics(v.topics));
        lemma_topics_roundtrip(v.topics);
    }
}

/// A request to add one or more subscriptions.
#[derive(Debug)]
pub struct Subscribe {
    packet_id: u16,
    topics: Vec<TopicFilter>,
}

impl View for Subscribe {
    type V = SubscribeView;

    closed spec fn view(&self) -> SubscribeView {
        SubscribeView { packet_id: self.packet_id, topics: self.topics.deep_view() }
    }
}

impl Subscribe {
    /// Reads a Subscribe from the bytes after its control byte.
    ///
    /// Fails unless the control byte carries type 8 with reserved bits
    /// 0b0010, the body holds a packet identifier, and every entry is a
    /// non-empty UTF-8 field followed by a quality-of-service byte of
    /// at most 2; at least one entry must be present. A requested
    /// quality of service of 2 is downgraded to 1.
    #[verifier::loop_isolation(false)]
    pub fn read_from(bytes: &[u8], control_byte: u8) -> (r: PacketResult<Subscribe>)
        ensures
            match r {
                Ok(p) => SubscribeView::spec_parse(control_byte, bytes@) == Ok::<
                    SubscribeView,
                    ErrorKind,
                >(p@) && p@.wf(),
                Err(e) => SubscribeView::spec_parse(control_byte, bytes@) == Err::<
                    SubscribeView,
                    ErrorKind,
                >(e.kind),
            },
    {
        if control_byte / 16 != SUBSCRIBE_PACKET_TYPE {
            return Err(PacketError::new_kind(
                "Packet type must be 8 for a Subscribe packet",
                ErrorKind::InvalidControlPacketType,
            ));
        }
        if control_byte % 16 != 2 {
            return Err(PacketError::new_kind(
                "Reserved bits are not equal to 2",
                ErrorKind::InvalidReservedBits,
            ));
        }
        let (s, e) = match read_body_bounds(bytes) {
            Ok(v) => v,
            Err(err) => {
                return Err(err);
            },
        };
        let body: &[u8] = slice_subrange(bytes, s, e);
        let (packet_id, _) = match read_u16(body, 0) {
            Ok(v) => v,
            Err(err) => {
                return Err(err);
            },
        };
        let mut topics: Vec<TopicFilter> = Vec::new();
        let mut pos: usize = 2;
        while pos < body.len()
            invariant
                2 <= pos <= body@.len(),
                spec_topics_then(topics.deep_view(), spec_parse_topics(body@.skip(pos as int)))
                    == spec_parse_topics(body@.skip(2)),
                forall|i: int|
                    0 <= i < topics.deep_view().len() ==> spec_field_ok(
                        #[trigger] topics.deep_view()[i].name,
                    ) && topics.deep_view()[i].name.len() >= 1,
            decreases body@.len() - pos,
        {
            let ghost pre = topics.deep_view();
            let (topic_filter, after_name) = match Field::read_at(body, pos) {
                Ok(v) => v,
                Err(err) => {
                    return Err(err);
                },
            };
            if topic_filter.is_empty() {
                return Err(PacketError::new_kind(
                    "Topic filter must be at least one character long",
                    ErrorKind::InvalidProtocol,
                ));
            }
            if after_name >= body.len() {
                return Err(PacketError::new_kind(
                    "packet ends before the quality-of-service byte",
                    ErrorKind::UnexpectedEof,
                ));
            }
            let qos_byte = body[after_name];
            if qos_byte > 2 {
                return Err(PacketError::new_kind(
                    "requested quality of service must be at most 2",
                    ErrorKind::InvalidFlags,
                ));
            }
            let qos = if qos_byte == 0 {
                QoSLevel::QoSLevel0
            } else {
                QoSLevel::QoSLevel1
            };
            let next = after_name + 1;
            let ghost c: int = after_name - pos;
            let ghost tv = TopicFilterView { name: topic_filter.value@, qos };
            proof {
                assert(body@.skip(pos as int)[c] == body@[after_name as int]);
                assert(body@.skip(pos as int).skip(c + 1) =~= body@.skip(next as int));
            }
            topics.push(TopicFilter { name: topic_filter.value, qos });
            proof {
                assert(topics.deep_view() =~= pre.push(tv));
                if spec_parse_topics(body@.skip(next as int)) is Ok {
                    let rest = spec_parse_topics(body@.skip(next as int))->Ok_0;
                    assert(pre.push(tv) + rest =~= pre + (seq![tv] + rest));
                }
            }
            pos = next;
        }
        proof {
            assert(body@.skip(pos as int) =~= Seq::<u8>::empty());
        }
        if topics.is_empty() {
            return Err(PacketError::new_kind(
                "Subscribe packet must contain at least one topic filter",
                ErrorKind::InvalidProtocol,
            ));
        }
        proof {
            assert(topics.deep_view() + Seq::<TopicFilterView>::empty() =~= topics.deep_view());
        }
        Ok(Subscribe { packet_id, topics })
    }

    /// Gets the packet identifier of this packet.
    pub fn packet_id(&self) -> (r: u16)
        ensures
            r == self@.packet_id,
    {
        self.packet_id
    }

    /// Gets the filter entries of this packet.
    pub fn topics(&self) -> (r: &Vec<TopicFilter>)
        ensures
            r.deep_view() == self@.topics,
    {
        &self.topics
    }

    /// The Suback answering this packet: one return code per entry,
    /// echoing the granted quality of service.
    pub fn response(&self) -> (r: Suback)
        ensures
            r@.packet_id == self@.packet_id,
            r@.return_codes.len() == self@.topics.len(),
            forall|i: int|
                0 <= i < self@.topics.len() ==> r@.return_codes[i] == spec_qos_value(
                    #[trigger] self@.topics[i].qos,
                ),
    {
        let mut return_codes: Vec<u8> = Vec::new();
        let mut i: usize = 0;
        while i < self.topics.len()
            invariant
                i <= self.topics@.len(),
                return_codes@.len() == i,
                forall|j: int|
                    0 <= j < i ==> return_codes@[j] == spec_qos_value(
                        #[trigger] self.topics.deep_view()[j].qos,
                    ),
            decreases self.topics@.len() - i,
        {
            return_codes.push(self.topics[i].qos.value());
            i += 1;
        }
        Suback::new(self.packet_id, return_codes)
    }
}

impl MQTTEncoding for Subscribe {
    /// The wire form of a Subscribe; fails only when a filter cannot be
    /// carried by a field or the body is longer than the remaining
    /// length can say.
    fn encode(&self) -> (r: PacketResult<Vec<u8>>)
        ensures
            match r {
                Ok(v) => {
                    &&& forall|i: int|
                        0 <= i < self@.topics.len() ==> spec_field_ok(
                            #[trigger] self@.topics[i].name,
                        )
                    &&& self@.spec_mqtt_body().len() <= MAX_REMAINING_LENGTH
                    &&& v@ == self@.spec_enc()
                },
                Err(e) => (e.kind == ErrorKind::InvalidUtf8 && exists|i: int|
                    0 <= i < self@.topics.len() && !spec_field_ok(#[trigger] self@.topics[i].name))
                    || (e.kind == ErrorKind::MalformedLength && self@.spec_mqtt_body().len()
                    > MAX_REMAINING_LENGTH),
            },
    {
        let mut body: Vec<u8> = Vec::new();
        write_u16(&mut body, self.packet_id);
        let mut i: usize = 0;
        while i < self.topics.len()
            invariant
                i <= self.topics@.len(),
                body@ == spec_be16(self@.packet_id) + spec_enc_topics(
                    self@.topics.subrange(0, i as int),
                ),
                forall|j: int| 0 <= j < i ==> spec_field_ok(#[trigger] self@.topics[j].name),
            decreases self.topics@.len() - i,
        {
            match Field::new_from_string(self.topics[i].name.as_str()) {
                Some(_) => (),
                None => {
                    return Err(PacketError::new_kind(
                        "topic filter cannot be carried by a UTF-8 field",
                        ErrorKind::InvalidUtf8,
                    ));
                },
            }
            Field::write_field(&mut body, self.topics[i].name.as_str());
            body.push(self.topics[i].qos.value());
            proof {
                lemma_enc_topics_snoc(self@.topics.subrange(0, i as int),
                    self@.topics[i as int]);
                assert(self@.topics.subrange(0, i as int).push(self@.topics[i as int])
                    =~= self@.topics.subrange(0, i as int + 1));
                assert(body@ =~= spec_be16(self@.packet_id) + spec_enc_topics(
                    self@.topics.subrange(0, i as int + 1),
                ));
            }
            i += 1;
        }
        proof {
            assert(self@.topics.subrange(0, self.topics@.len() as int) =~= self@.topics);
            assert(body@ == self@.spec_mqtt_body());
        }
        encode_with_header(130, body.as_slice())
    }
}

impl MQTTDecoding for Subscribe {
    /// Same as `Subscribe::read_from`.
    fn read_from(bytes: &[u8], control_byte: u8) -> (r: PacketResult<Subscribe>)
        ensures
            match r {
                Ok(p) => SubscribeView::spec_parse(control_byte, bytes@) == Ok::<
                    SubscribeView,
                    ErrorKind,
                >(p@) && p@.wf(),
                Err(e) => SubscribeView::spec_parse(control_byte, bytes@) == Err::<
                    SubscribeView,
                    ErrorKind,
                >(e.kind),
            },
    {
        Subscribe::read_from(bytes, control_byte)
    }
}

} // verus!
