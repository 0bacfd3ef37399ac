//! The Unsubscribe packet: a packet identifier and one or more topic
//! filters the client no longer wants.

use vstd::prelude::*;
use vstd::slice::slice_subrange;
use vstd::utf8::encode_utf8;
use crate::errors::{ErrorKind, PacketError, PacketResult};
use crate::packet_reader::{encode_with_header, lemma_be16_value, lemma_body_roundtrip,
    read_body_bounds, read_u16, spec_be16, spec_body, spec_rl_enc, spec_u16_be, write_u16,
    MAX_REMAINING_LENGTH};
use crate::traits::{MQTTDecoding, MQTTEncoding};
use crate::utf8::{lemma_field_roundtrip, spec_field_enc, spec_field_ok, spec_field_parse, Field};

verus! {

/// Packet type code of Unsubscribe.
pub const UNSUBSCRIBE_PACKET_TYPE: u8 = 10;

/// The wire form of a list of filters, one field after another.
pub open spec fn spec_enc_filters(fs: Seq<Seq<char>>) -> Seq<u8>
    decreases fs.len(),
{
    if fs.len() == 0 {
        Seq::empty()
    } else {
        spec_field_enc(fs[0]) + spec_enc_filters(fs.drop_first())
    }
}

/// Fields read one after another until the body ends; an empty filter
/// is a protocol error.
pub open spec fn spec_parse_filters(b: Seq<u8>) -> Result<Seq<Seq<char>>, ErrorKind>
    decreases b.len(),
{
    if b.len() == 0 {
        Ok(Seq::empty())
    } else {
        match spec_field_parse(b) {
            Err(k) => Err(k),
            Ok(sc) => if sc.0.len() == 0 {
                Err(ErrorKind::InvalidProtocol)
            } else {
                match spec_parse_filters(b.skip(sc.1)) {
                    Err(k) => Err(k),
                    Ok(rest) => Ok(seq![sc.0] + rest),
                }
            },
        }
    }
}

/// The filters already read, followed by whatever the rest parses to.
pub open spec fn spec_filters_then(
    done: Seq<Seq<char>>,
    r: Result<Seq<Seq<char>>, ErrorKind>,
) -> Result<Seq<Seq<char>>, ErrorKind> {
    match r {
        Ok(rest) => Ok(done + rest),
        Err(k) => Err(k),
    }
}

/// Appending one filter extends the wire form by one field.
pub proof fn lemma_enc_filters_snoc(fs: Seq<Seq<char>>, f: Seq<char>)
    ensures
        spec_enc_filters(fs.push(f)) == spec_enc_filters(fs) + spec_field_enc(f),
    decreases fs.len(),
{
    let p = fs.push(f);
    if fs.len() == 0 {
        assert(p[0] == f);
        assert(p.drop_first() =~= Seq::<Seq<char>>::empty());
        assert(spec_enc_filters(p.drop_first()) == Seq::<u8>::empty());
        assert(spec_enc_filters(p) == spec_field_enc(f) + Seq::<u8>::empty());
        assert(spec_field_enc(f) + Seq::<u8>::empty() =~= spec_enc_filters(fs) + spec_field_enc(f));
    } else {
        assert(p[0] == fs[0]);
        assert(p.drop_first() =~= fs.drop_first().push(f));
        lemma_enc_filters_snoc(fs.drop_first(), f);
        assert(spec_enc_filters(p) == spec_field_enc(fs[0]) + (spec_enc_filters(fs.drop_first())
            + spec_field_enc(f)));
        assert(spec_field_enc(fs[0]) + (spec_enc_filters(fs.drop_first()) + spec_field_enc(f))
            =~= (spec_field_enc(fs[0]) + spec_enc_filters(fs.drop_first())) + spec_field_enc(f));
        assert(spec_enc_filters(fs) == spec_field_enc(fs[0]) + spec_enc_filters(fs.drop_first()));
    }
}

/// Round trip of a filter list: carriable, non-empty filters parse back
/// from their own wire form.
pub proof fn lemma_filters_roundtrip(fs: Seq<Seq<char>>)
    requires
        forall|i: int| 0 <= i < fs.len() ==> spec_field_ok(#[trigger] fs[i]) && fs[i].len() >= 1,
    ensures
        spec_parse_filters(spec_enc_filters(fs)) == Ok::<Seq<Seq<char>>, ErrorKind>(fs),
    decreases fs.len(),
{
    if fs.len() == 0 {
        assert(fs =~= Seq::<Seq<char>>::empty());
    } else {
        let f0 = fs[0];
        let rest = fs.drop_first();
        let enc_rest = spec_enc_filters(rest);
        lemma_field_roundtrip(f0, enc_rest);
        let c: int = 2 + encode_utf8(f0).len() as int;
        let whole = spec_enc_filters(fs);
        assert(whole == spec_field_enc(f0) + enc_rest);
        assert(whole.len() >= c);
        assert(spec_field_parse(whole) == Ok::<(Seq<char>, int), ErrorKind>((f0, c)));
        assert(whole.skip(c) =~= enc_rest);
        assert(forall|i: int|
            0 <= i < rest.len() ==> spec_field_ok(#[trigger] rest[i]) && rest[i].len() >= 1) by {
            assert(forall|i: int| 0 <= i < rest.len() ==> rest[i] == fs[i + 1]);
        };
        lemma_filters_roundtrip(rest);
        assert(spec_parse_filters(whole) == Ok::<Seq<Seq<char>>, ErrorKind>(seq![f0] + rest));
        assert(seq![f0] + rest =~= fs);
    }
}

/// The mathematical content of an Unsubscribe packet.
pub ghost struct UnsubscribeView {
    pub packet_id: u16,
    pub topic_filters: Seq<Seq<char>>,
}

impl UnsubscribeView {
    /// Holds when the packet could have come off the wire: at least one
    /// filter, each non-empty and carriable by a field.
    pub open spec fn wf(&self) -> bool {
        &&& self.topic_filters.len() >= 1
        &&& forall|i: int|
            0 <= i < self.topic_filters.len() ==> spec_field_ok(#[trigger] self.topic_filters[i])
                && self.topic_filters[i].len() >= 1
    }

    /// The body: the packet identifier, then the filters.
    pub open spec fn spec_mqtt_body(&self) -> Seq<u8> {
        spec_be16(self.packet_id) + spec_enc_filters(self.topic_filters)
    }

    /// The full wire form, control byte 0xA2.
    pub open spec fn spec_enc(&self) -> Seq<u8> {
        seq![162u8] + spec_rl_enc(self.spec_mqtt_body().len() as int) + self.spec_mqtt_body()
    }

    /// What reading the bytes after the control byte yields.
    pub open spec fn spec_parse(control_byte: u8, bytes: Seq<u8>) -> Result<
        UnsubscribeView,
        ErrorKind,
    > {
        if control_byte / 16 != UNSUBSCRIBE_PACKET_TYPE {
            Err(ErrorKind::InvalidControlPacketType)
        } else if control_byte % 16 != 2 {
            Err(ErrorKind::InvalidReservedBits)
        } else {
            match spec_body(bytes) {
                Err(k) => Err(k),
                Ok(b) => if b.len() < 2 {
                    Err(ErrorKind::UnexpectedEof)
                } else {
                    match spec_parse_filters(b.skip(2)) {
                        Err(k) => Err(k),
                        Ok(fs) => if fs.len() == 0 {
                            Err(ErrorKind::InvalidProtocol)
                        } else {
                            Ok(UnsubscribeView {
                                packet_id: spec_u16_be(b[0], b[1]) as u16,
                                topic_filters: fs,
                            })
                        },
                    }
                },
            }
        }
    }

    /// Round trip: a well-formed Unsubscribe that fits the remaining
    /// length parses back from its own wire form.
    pub proof fn lemma_roundtrip(v: UnsubscribeView, rest: Seq<u8>)
        requires
            v.wf(),
            v.spec_mqtt_body().len() <= MAX_REMAINING_LENGTH,
        ensures
            UnsubscribeView::spec_parse(v.spec_enc()[0], v.spec_enc().skip(1) + rest) == Ok::<
                UnsubscribeView,
                ErrorKind,
            >(v),
    {
        let body = v.spec_mqtt_body();
        lemma_body_roundtrip(body, rest);
        assert(v.spec_enc()[0] == 162);
        assert(v.spec_enc().skip(1) + rest =~= spec_rl_enc(body.len() as int) + body + rest);
        lemma_be16_value(v.packet_id);
        assert(body.skip(2) =~= spec_enc_filters(v.topic_filters));
        lemma_filters_roundtrip(v.topic_filters);
    }
}

/// A request to drop one or more subscriptions.
#[derive(Debug)]
pub struct Unsubscribe {
    packet_id: u16,
    topic_filters: Vec<String>,
}

impl View for Unsubscribe {
    type V = UnsubscribeView;

    closed spec fn view(&self) -> UnsubscribeView {
        UnsubscribeView {
            packet_id: self.packet_id,
            topic_filters: self.topic_filters.deep_view(),
        }
    }
}

impl Unsubscribe {
    /// Reads an Unsubscribe from the bytes after its control byte.
    ///
    /// Fails unless the control byte carries type 10 with reserved bits
    /// 0b0010, the body holds a packet identifier, and every filter is
    /// a non-empty UTF-8 field; at least one filter must be present.
    #[verifier::loop_isolation(false)]
    pub fn read_from(bytes: &[u8], control_byte: u8) -> (r: PacketResult<Unsubscribe>)
        ensures
            match r {
                Ok(p) => UnsubscribeView::spec_parse(control_byte, bytes@) == Ok::<
                    UnsubscribeView,
                    ErrorKind,
                >(p@) && p@.wf(),
                Err(e) => UnsubscribeView::spec_parse(control_byte, bytes@) == Err::<
                    UnsubscribeView,
                    ErrorKind,
                >(e.kind),
            },
    {
        match Unsubscribe::verify_control_packet_type(&control_byte) {
            Ok(_) => (),
            Err(e) => {
                return Err(e);
            },
        }
        match Unsubscribe::verify_reserved_bits(&control_byte) {
            Ok(_) => (),
            Err(e) => {
                return Err(e);
            },
        }
        let (s, e) = match read_body_bounds(bytes) {
            Ok(v) => v,
            Err(err) => {
                return Err(err);
            },
        };
        let body: &[u8] = slice_subrange(bytes, s, e);
        let packet_id = match Unsubscribe::read_packet_id(body) {
            Ok(v) => v,
            Err(err) => {
                return Err(err);
            },
        };
        let mut topic_filters: Vec<String> = Vec::new();
        match Unsubscribe::read_topic_filters(body, &mut topic_filters) {
            Ok(_) => (),
            Err(err) => {
                return Err(err);
            },
        }
        Ok(Unsubscribe { packet_id, topic_filters })
    }

    /// Gets the packet identifier of this packet.
    pub fn packet_id(&self) -> (r: u16)
        ensures
            r == self@.packet_id,
    {
        self.packet_id
    }

    /// Gets the topic filters of this packet.
    pub fn topic_filters(&self) -> (r: &Vec<String>)
        ensures
            r.deep_view() == self@.topic_filters,
    {
        &self.topic_filters
    }

    fn verify_control_packet_type(control_byte: &u8) -> (r: PacketResult<()>)
        ensures
            match r {
                Ok(_) => control_byte / 16 == UNSUBSCRIBE_PACKET_TYPE,
                Err(e) => control_byte / 16 != UNSUBSCRIBE_PACKET_TYPE && e.kind
                    == ErrorKind::InvalidControlPacketType,
            },
    {
        if control_byte / 16 != UNSUBSCRIBE_PACKET_TYPE {
            return Err(PacketError::new_kind(
                "Packet type must be 10 for a Unsubscribe packet",
                ErrorKind::InvalidControlPacketType,
            ));
        }
        Ok(())
    }

    fn verify_reserved_bits(control_byte: &u8) -> (r: PacketResult<()>)
        ensures
            match r {
                Ok(_) => control_byte % 16 == 2,
                Err(e) => control_byte % 16 != 2 && e.kind == ErrorKind::InvalidReservedBits,
            },
    {
        if control_byte % 16 != 2 {
            return Err(PacketError::new_kind(
                "Reserved bits are not equal to 2",
                ErrorKind::InvalidReservedBits,
            ));
        }
        Ok(())
    }

    fn read_packet_id(body: &[u8]) -> (r: PacketResult<u16>)
        ensures
            match r {
                Ok(id) => body@.len() >= 2 && id == spec_u16_be(body@[0], body@[1]),
                Err(e) => body@.len() < 2 && e.kind == ErrorKind::UnexpectedEof,
            },
    {
        match read_u16(body, 0) {
            Ok((id, _)) => Ok(id),
            Err(e) => Err(e),
        }
    }

    #[verifier::loop_isolation(false)]
    fn read_topic_filters(body: &[u8], topic_filters_buffer: &mut Vec<String>) -> (r: PacketResult<
        (),
    >)
        requires
            old(topic_filters_buffer)@.len() == 0,
            body@.len() >= 2,
        ensures
            match r {
                Ok(_) => {
                    &&& spec_parse_filters(body@.skip(2)) == Ok::<Seq<Seq<char>>, ErrorKind>(
                        final(topic_filters_buffer).deep_view(),
                    )
                    &&& final(topic_filters_buffer).deep_view().len() >= 1
                    &&& forall|i: int|
                        0 <= i < final(topic_filters_buffer).deep_view().len() ==> spec_field_ok(
                            #[trigger] final(topic_filters_buffer).deep_view()[i],
                        ) && final(topic_filters_buffer).deep_view()[i].len() >= 1
                },
                Err(e) => match spec_parse_filters(body@.skip(2)) {
                    Ok(fs) => fs.len() == 0 && e.kind == ErrorKind::InvalidProtocol,
                    Err(k) => e.kind == k,
                },
            },
    {
        let mut pos: usize = 2;
        while pos < body.len()
            invariant
                2 <= pos <= body@.len(),
                spec_filters_then(topic_filters_buffer.deep_view(), spec_parse_filters(body@.skip(pos as int)))
                    == spec_parse_filters(body@.skip(2)),
                forall|i: int|
                    0 <= i < topic_filters_buffer.deep_view().len() ==> spec_field_ok(
                        #[trigger] topic_filters_buffer.deep_view()[i],
                    ) && topic_filters_buffer.deep_view()[i].len() >= 1,
            decreases body@.len() - pos,
        {
            let ghost pre = topic_filters_buffer.deep_view();
            let (topic_filter, next) = match Field::read_at(body, pos) {
                Ok(v) => v,
                Err(err) => {
                    return Err(err);
                },
            };
            match Unsubscribe::verify_at_least_one_character_long_topic_filter(&topic_filter) {
                Ok(_) => (),
                Err(err) => {
                    return Err(err);
                },
            }
            let ghost c: int = next - pos;
            let ghost fv: Seq<char> = topic_filter.value@;
            proof {
                assert(body@.skip(pos as int).skip(c) =~= body@.skip(next as int));
            }
            topic_filters_buffer.push(topic_filter.value);
            proof {
                assert(topic_filters_buffer.deep_view() =~= pre.push(fv));
                if spec_parse_filters(body@.skip(next as int)) is Ok {
                    let rest = spec_parse_filters(body@.skip(next as int))->Ok_0;
                    assert(pre.push(fv) + rest =~= pre + (seq![fv] + rest));
                }
            }
            pos = next;
        }
        proof {
            assert(body@.skip(pos as int) =~= Seq::<u8>::empty());
        }
        if topic_filters_buffer.is_empty() {
            return Err(PacketError::new_kind(
                "Unsubscribe packet must contain at least one topic filter",
                ErrorKind::InvalidProtocol,
            ));
        }
        proof {
            assert(topic_filters_buffer.deep_view() + Seq::<Seq<char>>::empty()
                =~= topic_filters_buffer.deep_view());
        }
        Ok(())
    }

    fn verify_at_least_one_character_long_topic_filter(topic_filter: &Field) -> (r: PacketResult<
        (),
    >)
        ensures
            match r {
                Ok(_) => topic_filter.value@.len() >= 1,
                Err(e) => topic_filter.value@.len() == 0 && e.kind == ErrorKind::InvalidProtocol,
            },
    {
        if topic_filter.is_empty() {
            return Err(PacketError::new_kind(
                "Topic filter must be at least one character long",
                ErrorKind::InvalidProtocol,
            ));
        }
        Ok(())
    }
}

impl MQTTEncoding for Unsubscribe {
    /// The wire form of an Unsubscribe; fails only when a filter cannot
    /// be carried by a field or the body is longer than the remaining
    /// length can say.
    fn encode(&self) -> (r: PacketResult<Vec<u8>>)
        ensures
            match r {
                Ok(v) => {
                    &&& forall|i: int|
                        0 <= i < self@.topic_filters.len() ==> spec_field_ok(
                            #[trigger] self@.topic_filters[i],
                        )
                    &&& self@.spec_mqtt_body().len() <= MAX_REMAINING_LENGTH
                    &&& v@ == self@.spec_enc()
                },
                Err(e) => (e.kind == ErrorKind::InvalidUtf8 && exists|i: int|
                    0 <= i < self@.topic_filters.len() && !spec_field_ok(
                        #[trigger] self@.topic_filters[i],
                    )) || (e.kind == ErrorKind::MalformedLength && self@.spec_mqtt_body().len()
                    > MAX_REMAINING_LENGTH),
            },
    {
        let mut body: Vec<u8> = Vec::new();
        write_u16(&mut body, self.packet_id);
        let mut i: usize = 0;
        while i < self.topic_filters.len()
            invariant
                i <= self.topic_filters@.len(),
                body@ == spec_be16(self@.packet_id) + spec_enc_filters(
                    self@.topic_filters.subrange(0, i as int),
                ),
                forall|j: int| 0 <= j < i ==> spec_field_ok(#[trigger] self@.topic_filters[j]),
            decreases self.topic_filters@.len() - i,
        {
            match Field::new_from_string(self.topic_filters[i].as_str()) {
                Some(_) => (),
                None => {
                    return Err(PacketError::new_kind(
                        "topic filter cannot be carried by a UTF-8 field",
                        ErrorKind::InvalidUtf8,
                    ));
                },
            }
            Field::write_field(&mut body, self.topic_filters[i].as_str());
            proof {
                lemma_enc_filters_snoc(self@.topic_filters.subrange(0, i as int),
                    self@.topic_filters[i as int]);
                assert(self@.topic_filters.subrange(0, i as int).push(self@.topic_filters[i as int])
                    =~= self@.topic_filters.subrange(0, i as int + 1));
                assert(body@ =~= spec_be16(self@.packet_id) + spec_enc_filters(
                    self@.topic_filters.subrange(0, i as int + 1),
                ));
            }
            i += 1;
        }
        proof {
            assert(self@.topic_filters.subrange(0, self.topic_filters@.len() as int)
                =~= self@.topic_filters);
            assert(body@ == self@.spec_mqtt_body());
        }
        encode_with_header(162, body.as_slice())
    }
}

impl MQTTDecoding for Unsubscribe {
    /// Same as `Unsubscribe::read_from`.
    fn read_from(bytes: &[u8], control_byte: u8) -> (r: PacketResult<Unsubscribe>)
        ensures
            match r {
                Ok(p) => UnsubscribeView::spec_parse(control_byte, bytes@) == Ok::<
                    UnsubscribeView,
                    ErrorKind,
                >(p@) && p@.wf(),
                Err(e) => UnsubscribeView::spec_parse(control_byte, bytes@) == Err::<
                    UnsubscribeView,
                    ErrorKind,
                >(e.kind),
            },
    {
        Unsubscribe::read_from(bytes, control_byte)
    }
}

} // verus!
