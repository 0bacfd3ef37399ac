//! The topic handler: which client subscribed to which filter at which
//! quality of service, and the retained message of each topic. It
//! decides the fan-out of every publish.

use vstd::prelude::*;
use vstd::slice::slice_to_vec;
use vstd::utf8::encode_utf8;
use crate::publish::{Publish, PublishView};
use crate::qos::{spec_qos_min, QoSLevel};
use crate::subscribe::{Subscribe, TopicFilterView};
use crate::topic_filter::{filter_matches, spec_filter_matches, spec_valid_filter};
use crate::unsubscribe::Unsubscribe;
use crate::utf8::str_eq;

verus! {

/// One subscription: a client, a filter, and the granted quality of
/// service.
#[derive(Debug)]
pub struct Subscription {
    client_id: String,
    filter: String,
    qos: QoSLevel,
}

impl Subscription {
    /// The subscribed client.
    pub fn client_id(&self) -> (r: &str)
        ensures
            r@ == self@.client_id,
    {
        self.client_id.as_str()
    }

    /// The granted filter.
    pub fn filter(&self) -> (r: &str)
        ensures
            r@ == self@.filter,
    {
        self.filter.as_str()
    }

    /// The granted quality of service.
    pub fn qos(&self) -> (r: QoSLevel)
        ensures
            r == self@.qos,
    {
        self.qos
    }
}

/// The mathematical content of one subscription.
pub ghost struct SubscriptionView {
    pub client_id: Seq<char>,
    pub filter: Seq<char>,
    pub qos: QoSLevel,
}

impl View for Subscription {
    type V = SubscriptionView;

    closed spec fn view(&self) -> SubscriptionView {
        SubscriptionView { client_id: self.client_id@, filter: self.filter@, qos: self.qos }
    }
}

impl DeepView for Subscription {
    type V = SubscriptionView;

    open spec fn deep_view(&self) -> SubscriptionView {
        self.view()
    }
}

/// One retained message, kept under its exact topic name.
#[derive(Debug)]
struct Retained {
    topic: String,
    packet: Publish,
}

/// The mathematical content of one retained entry.
pub ghost struct RetainedView {
    pub topic: Seq<char>,
    pub packet: PublishView,
}

impl View for Retained {
    type V = RetainedView;

    closed spec fn view(&self) -> RetainedView {
        RetainedView { topic: self.topic@, packet: self.packet@ }
    }
}

impl DeepView for Retained {
    type V = RetainedView;

    open spec fn deep_view(&self) -> RetainedView {
        self.view()
    }
}

/// A publish on its way to one client.
#[derive(Debug)]
pub struct Message {
    pub client_id: String,
    pub packet: Publish,
}

/// The mathematical content of one outgoing message.
pub ghost struct MessageView {
    pub client_id: Seq<char>,
    pub packet: PublishView,
}

impl View for Message {
    type V = MessageView;

    open spec fn view(&self) -> MessageView {
        MessageView { client_id: self.client_id@, packet: self.packet@ }
    }
}

impl DeepView for Message {
    type V = MessageView;

    open spec fn deep_view(&self) -> MessageView {
        self.view()
    }
}

/// The mathematical content of the topic handler.
pub ghost struct TopicHandlerView {
    pub subs: Seq<SubscriptionView>,
    pub retained: Seq<RetainedView>,
}

/// Whether the subscription's filter matches the topic name.
pub open spec fn spec_sub_matches(s: SubscriptionView, topic: Seq<char>) -> bool {
    spec_filter_matches(encode_utf8(s.filter), encode_utf8(topic))
}

/// The message a matching subscription receives: the publish with the
/// duplicate flag cleared, the quality of service lowered to what was
/// granted, and the packet identifier left for the session to assign.
pub open spec fn spec_msg(s: SubscriptionView, p: PublishView) -> MessageView {
    MessageView {
        client_id: s.client_id,
        packet: PublishView {
            dup: false,
            qos: spec_qos_min(p.qos, s.qos),
            retain: p.retain,
            topic: p.topic,
            packet_id: None,
            payload: p.payload,
        },
    }
}

/// One message per matching subscription, in subscription order.
pub open spec fn spec_deliveries(subs: Seq<SubscriptionView>, p: PublishView) -> Seq<MessageView>
    decreases subs.len(),
{
    if subs.len() == 0 {
        Seq::empty()
    } else {
        let rest = spec_deliveries(subs.drop_first(), p);
        if spec_sub_matches(subs[0], p.topic) {
            seq![spec_msg(subs[0], p)] + rest
        } else {
            rest
        }
    }
}

/// The retained store with every entry for `topic` gone.
pub open spec fn spec_remove_retained(rs: Seq<RetainedView>, topic: Seq<char>) -> Seq<RetainedView>
    decreases rs.len(),
{
    if rs.len() == 0 {
        Seq::empty()
    } else if rs[0].topic == topic {
        spec_remove_retained(rs.drop_first(), topic)
    } else {
        seq![rs[0]] + spec_remove_retained(rs.drop_first(), topic)
    }
}

/// The retained store with `p` stored under its topic: the first entry
/// for that topic replaced, or a new entry appended.
pub open spec fn spec_set_retained(rs: Seq<RetainedView>, p: PublishView) -> Seq<RetainedView>
    decreases rs.len(),
{
    if rs.len() == 0 {
        seq![RetainedView { topic: p.topic, packet: p }]
    } else if rs[0].topic == p.topic {
        seq![RetainedView { topic: p.topic, packet: p }] + rs.drop_first()
    } else {
        seq![rs[0]] + spec_set_retained(rs.drop_first(), p)
    }
}

/// The subscription list with `(c, t.name)` granted `t.qos`: the first
/// entry of that client and filter updated, or a new entry appended.
pub open spec fn spec_upsert_sub(
    subs: Seq<SubscriptionView>,
    c: Seq<char>,
    t: TopicFilterView,
) -> Seq<SubscriptionView>
    decreases subs.len(),
{
    if subs.len() == 0 {
        seq![SubscriptionView { client_id: c, filter: t.name, qos: t.qos }]
    } else if subs[0].client_id == c && subs[0].filter == t.name {
        seq![SubscriptionView { client_id: c, filter: t.name, qos: t.qos }] + subs.drop_first()
    } else {
        seq![subs[0]] + spec_upsert_sub(subs.drop_first(), c, t)
    }
}

/// The subscription list after granting every entry of a Subscribe, in
/// order.
pub open spec fn spec_upsert_all(
    subs: Seq<SubscriptionView>,
    c: Seq<char>,
    ts: Seq<TopicFilterView>,
) -> Seq<SubscriptionView>
    decreases ts.len(),
{
    if ts.len() == 0 {
        subs
    } else {
        spec_upsert_all(spec_upsert_sub(subs, c, ts[0]), c, ts.drop_first())
    }
}

/// The replay a subscription entry gets of one retained packet: retain
/// kept set, quality of service lowered to what was granted, packet
/// identifier left for the session.
pub open spec fn spec_replay_packet(p: PublishView, granted: QoSLevel) -> PublishView {
    PublishView {
        dup: false,
        qos: spec_qos_min(p.qos, granted),
        retain: true,
        topic: p.topic,
        packet_id: None,
        payload: p.payload,
    }
}

/// The retained messages one filter entry reaches, in store order.
pub open spec fn spec_replays_one(rs: Seq<RetainedView>, t: TopicFilterView) -> Seq<PublishView>
    decreases rs.len(),
{
    if rs.len() == 0 {
        Seq::empty()
    } else {
        let rest = spec_replays_one(rs.drop_first(), t);
        if spec_filter_matches(encode_utf8(t.name), encode_utf8(rs[0].topic)) {
            seq![spec_replay_packet(rs[0].packet, t.qos)] + rest
        } else {
            rest
        }
    }
}

/// The retained messages a whole Subscribe reaches: those of each
/// filter entry, in order.
pub open spec fn spec_replays(rs: Seq<RetainedView>, ts: Seq<TopicFilterView>) -> Seq<PublishView>
    decreases ts.len(),
{
    if ts.len() == 0 {
        Seq::empty()
    } else {
        spec_replays_one(rs, ts[0]) + spec_replays(rs, ts.drop_first())
    }
}

/// The subscription list with every entry of client `c` whose filter
/// the predicate selects removed; `fs` names the filters to drop, or
/// all of them when `all` is set.
pub open spec fn spec_remove_subs(
    subs: Seq<SubscriptionView>,
    c: Seq<char>,
    fs: Seq<Seq<char>>,
    all: bool,
) -> Seq<SubscriptionView>
    decreases subs.len(),
{
    if subs.len() == 0 {
        Seq::empty()
    } else if subs[0].client_id == c && (all || fs.contains(subs[0].filter)) {
        spec_remove_subs(subs.drop_first(), c, fs, all)
    } else {
        seq![subs[0]] + spec_remove_subs(subs.drop_first(), c, fs, all)
    }
}

impl TopicHandlerView {
    /// The invariants of the store: retained topics are unique, each
    /// retained packet sits under its own non-empty-payload topic with
    /// its retain flag set, and every filter is acceptable.
    pub open spec fn wf(&self) -> bool {
        &&& forall|i: int, j: int|
            0 <= i < j < self.retained.len() ==> (#[trigger] self.retained[i]).topic != (
            #[trigger] self.retained[j]).topic
        &&& forall|i: int|
            0 <= i < self.retained.len() ==> (#[trigger] self.retained[i]).packet.topic
                == self.retained[i].topic && self.retained[i].packet.retain
                && self.retained[i].packet.payload.len() >= 1
        &&& forall|i: int|
            0 <= i < self.subs.len() ==> spec_valid_filter(
                encode_utf8((#[trigger] self.subs[i]).filter),
            )
    }
}

/// Routes publishes to subscribers and keeps retained messages.
#[derive(Debug)]
pub struct TopicHandler {
    subs: Vec<Subscription>,
    retained: Vec<Retained>,
}

impl View for TopicHandler {
    type V = TopicHandlerView;

    closed spec fn view(&self) -> TopicHandlerView {
        TopicHandlerView { subs: self.subs.deep_view(), retained: self.retained.deep_view() }
    }
}

impl TopicHandler {
    /// A handler with no subscriptions and no retained messages.
    pub fn new() -> (r: TopicHandler)
        ensures
            r@.subs.len() == 0,
            r@.retained.len() == 0,
            r@.wf(),
    {
        let r = TopicHandler { subs: Vec::new(), retained: Vec::new() };
        proof {
            assert(r@.subs =~= Seq::<SubscriptionView>::empty());
            assert(r@.retained =~= Seq::<RetainedView>::empty());
        }
        r
    }

    /// Routes a publish: one message per matching subscription, with
    /// the quality of service lowered to what that subscription was
    /// granted. A retained publish is then stored under its topic; one
    /// with an empty payload clears the topic instead.
    #[verifier::loop_isolation(false)]
    pub fn publish(&mut self, packet: &Publish) -> (r: Vec<Message>)
        requires
            old(self)@.wf(),
            packet@.wf(),
        ensures
            final(self)@.wf(),
            r.deep_view() == spec_deliveries(old(self)@.subs, packet@),
            final(self)@.subs == old(self)@.subs,
            !packet@.retain ==> final(self)@.retained == old(self)@.retained,
            packet@.retain && packet@.payload.len() == 0 ==> final(self)@.retained
                == spec_remove_retained(old(self)@.retained, packet@.topic),
            packet@.retain && packet@.payload.len() >= 1 ==> final(self)@.retained
                == spec_set_retained(old(self)@.retained, packet@.as_retained()),
    {
        let ghost subs0 = self@.subs;
        let mut r: Vec<Message> = Vec::new();
        let mut i: usize = 0;
        proof {
            assert(r.deep_view() =~= Seq::<MessageView>::empty());
            assert(subs0.skip(0) =~= subs0);
        }
        while i < self.subs.len()
            invariant
                i <= self.subs@.len(),
                r.deep_view() + spec_deliveries(subs0.skip(i as int), packet@) == spec_deliveries(
                    subs0,
                    packet@,
                ),
            decreases self.subs@.len() - i,
        {
            let ghost pre = r.deep_view();
            proof {
                assert(subs0.skip(i as int)[0] == subs0[i as int]);
                assert(subs0.skip(i as int).drop_first() =~= subs0.skip(i as int + 1));
            }
            if filter_matches(self.subs[i].filter.as_str(), packet.topic_name()) {
                let out = Publish::make(
                    false,
                    packet.qos().min(self.subs[i].qos),
                    packet.retain(),
                    packet.topic_name().to_owned(),
                    None,
                    slice_to_vec(packet.payload().as_slice()),
                );
                r.push(Message { client_id: self.subs[i].client_id.clone(), packet: out });
                proof {
                    assert(r.deep_view() =~= pre.push(spec_msg(subs0[i as int], packet@)));
                    assert(pre.push(spec_msg(subs0[i as int], packet@)) + spec_deliveries(
                        subs0.skip(i as int + 1),
                        packet@,
                    ) =~= pre + spec_deliveries(subs0.skip(i as int), packet@));
                }
            }
            i += 1;
        }
        proof {
            assert(subs0.skip(self.subs@.len() as int) =~= Seq::<SubscriptionView>::empty());
            assert(r.deep_view() + Seq::<MessageView>::empty() =~= r.deep_view());
        }
        if packet.retain() {
            if packet.payload().len() == 0 {
                self.remove_retained(packet.topic_name());
            } else {
                self.store_retained(packet);
            }
        }
        r
    }

    /// Drops every retained entry under the topic.
    #[verifier::loop_isolation(false)]
    fn remove_retained(&mut self, topic: &str)
        requires
            old(self)@.wf(),
        ensures
            final(self)@.wf(),
            final(self)@.subs == old(self)@.subs,
            final(self)@.retained == spec_remove_retained(old(self)@.retained, topic@),
    {
        let ghost rs0 = self@.retained;
        let mut kept: Vec<Retained> = Vec::new();
        let mut i: usize = 0;
        proof {
            lemma_remove_retained_keeps(rs0, topic@);
            assert(kept.deep_view() =~= Seq::<RetainedView>::empty());
            assert(rs0.skip(0) =~= rs0);
        }
        while i < self.retained.len()
            invariant
                i <= self.retained@.len(),
                kept.deep_view() + spec_remove_retained(rs0.skip(i as int), topic@)
                    == spec_remove_retained(rs0, topic@),
            decreases self.retained@.len() - i,
        {
            let ghost pre = kept.deep_view();
            proof {
                assert(rs0.skip(i as int)[0] == rs0[i as int]);
                assert(rs0.skip(i as int).drop_first() =~= rs0.skip(i as int + 1));
            }
            if !str_eq(self.retained[i].topic.as_str(), topic) {
                let entry = Retained {
                    topic: self.retained[i].topic.clone(),
                    packet: self.retained[i].packet.duplicate(),
                };
                kept.push(entry);
                proof {
                    assert(kept.deep_view() =~= pre.push(rs0[i as int]));
                    assert(pre.push(rs0[i as int]) + spec_remove_retained(
                        rs0.skip(i as int + 1),
                        topic@,
                    ) =~= pre + spec_remove_retained(rs0.skip(i as int), topic@));
                }
            }
            i += 1;
        }
        proof {
            assert(rs0.skip(self.retained@.len() as int) =~= Seq::<RetainedView>::empty());
            assert(kept.deep_view() + Seq::<RetainedView>::empty() =~= kept.deep_view());
        }
        self.retained = kept;
        proof {
            let out = spec_remove_retained(rs0, topic@);
            assert forall|k: int|
                0 <= k < out.len() implies (#[trigger] out[k]).packet.topic == out[k].topic
                && out[k].packet.retain && out[k].packet.payload.len() >= 1 by {
                let e = out[k];
                assert(rs0.contains(e));
                let m = choose|m: int| 0 <= m < rs0.len() && rs0[m] == e;
                assert(rs0[m].packet.topic == rs0[m].topic && rs0[m].packet.retain
                    && rs0[m].packet.payload.len() >= 1);
            };
        }
    }

    /// Stores the packet as the retained message of its topic.
    #[verifier::loop_isolation(false)]
    fn store_retained(&mut self, packet: &Publish)
        requires
            old(self)@.wf(),
            packet@.wf(),
            packet@.retain,
            packet@.payload.len() >= 1,
        ensures
            final(self)@.wf(),
            final(self)@.subs == old(self)@.subs,
            final(self)@.retained == spec_set_retained(
                old(self)@.retained,
                packet@.as_retained(),
            ),
    {
        let ghost rs0 = self@.retained;
        let ghost pv = packet@.as_retained();
        let stored = Publish::make(
            false,
            packet.qos(),
            true,
            packet.topic_name().to_owned(),
            None,
            slice_to_vec(packet.payload().as_slice()),
        );
        let mut i: usize = 0;
        while i < self.retained.len()
            invariant
                i <= self.retained@.len(),
                forall|j: int| 0 <= j < i ==> (#[trigger] rs0[j]).topic != packet@.topic,
                self@.retained == rs0,
                self@.subs == old(self)@.subs,
                stored@ == pv,
            decreases self.retained@.len() - i,
        {
            if str_eq(self.retained[i].topic.as_str(), packet.topic_name()) {
                let entry = Retained { topic: packet.topic_name().to_owned(), packet: stored };
                self.retained.remove(i);
                self.retained.insert(i, entry);
                proof {
                    lemma_set_retained_at(rs0, pv, i as int);
                    let nv = RetainedView { topic: pv.topic, packet: pv };
                    assert(self@.retained =~= rs0.update(i as int, nv));
                    let upd = rs0.update(i as int, nv);
                    assert(pv.topic == rs0[i as int].topic);
                    assert forall|k: int, l: int|
                        0 <= k < l < upd.len() implies (#[trigger] upd[k]).topic != (
                    #[trigger] upd[l]).topic by {
                        assert(upd[k].topic == rs0[k].topic && upd[l].topic == rs0[l].topic);
                    };
                }
                return ;
            }
            i += 1;
        }
        let entry = Retained { topic: packet.topic_name().to_owned(), packet: stored };
        self.retained.push(entry);
        proof {
            lemma_set_retained_absent(rs0, pv);
            let nv = RetainedView { topic: pv.topic, packet: pv };
            assert(self@.retained =~= rs0.push(nv));
            let upd = rs0.push(nv);
            assert forall|k: int, l: int|
                0 <= k < l < upd.len() implies (#[trigger] upd[k]).topic != (#[trigger] upd[l]).topic
                by {
                if l < rs0.len() {
                    assert(upd[k] == rs0[k] && upd[l] == rs0[l]);
                } else {
                    assert(upd[l] == nv && upd[k] == rs0[k]);
                }
            };
        }
    }

    /// Installs every entry of a Subscribe for the client, updating
    /// the granted quality of service of a filter already held, and
    /// returns the retained messages the new entries reach, each with
    /// its retain flag set and its quality of service lowered to what
    /// was granted.
    #[verifier::loop_isolation(false)]
    pub fn subscribe(&mut self, sub: &Subscribe, client_id: &str) -> (r: Vec<Publish>)
        requires
            old(self)@.wf(),
            forall|i: int|
                0 <= i < sub@.topics.len() ==> spec_valid_filter(
                    encode_utf8((#[trigger] sub@.topics[i]).name),
                ),
        ensures
            final(self)@.wf(),
            final(self)@.retained == old(self)@.retained,
            final(self)@.subs == spec_upsert_all(old(self)@.subs, client_id@, sub@.topics),
            r.deep_view() == spec_replays(old(self)@.retained, sub@.topics),
    {
        let ghost subs0 = self@.subs;
        let ghost rs0 = self@.retained;
        let ghost ts = sub@.topics;
        let topics = sub.topics();
        let mut r: Vec<Publish> = Vec::new();
        let mut i: usize = 0;
        proof {
            assert(ts.take(0) =~= Seq::<TopicFilterView>::empty());
            assert(ts.skip(0) =~= ts);
            assert(r.deep_view() =~= Seq::<PublishView>::empty());
        }
        while i < topics.len()
            invariant
                i <= topics@.len(),
                self@.wf(),
                self@.retained == rs0,
                self@.subs == spec_upsert_all(subs0, client_id@, ts.take(i as int)),
                r.deep_view() + spec_replays(rs0, ts.skip(i as int)) == spec_replays(rs0, ts),
            decreases topics@.len() - i,
        {
            let ghost pre_subs = self@.subs;
            let ghost t = ts[i as int];
            proof {
                assert(topics.deep_view()[i as int] == topics@[i as int]@);
                assert(ts.take(i as int).push(t) =~= ts.take(i as int + 1));
                lemma_upsert_all_snoc(subs0, client_id@, ts.take(i as int), t);
            }
            self.upsert_sub(client_id, &topics[i]);
            let mut chunk = self.collect_replays(&topics[i]);
            let ghost pre_r = r.deep_view();
            r.append(&mut chunk);
            proof {
                assert(r.deep_view() =~= pre_r + spec_replays_one(rs0, t));
                assert(ts.skip(i as int)[0] == t);
                assert(ts.skip(i as int).drop_first() =~= ts.skip(i as int + 1));
                assert((pre_r + spec_replays_one(rs0, t)) + spec_replays(rs0, ts.skip(i as int + 1))
                    =~= pre_r + spec_replays(rs0, ts.skip(i as int)));
            }
            i += 1;
        }
        proof {
            assert(ts.take(topics@.len() as int) =~= ts);
            assert(ts.skip(topics@.len() as int) =~= Seq::<TopicFilterView>::empty());
            assert(r.deep_view() + Seq::<PublishView>::empty() =~= r.deep_view());
        }
        r
    }

    /// Installs or updates one subscription entry.
    #[verifier::loop_isolation(false)]
    fn upsert_sub(&mut self, client_id: &str, t: &crate::subscribe::TopicFilter)
        requires
            old(self)@.wf(),
            spec_valid_filter(encode_utf8(t@.name)),
        ensures
            final(self)@.wf(),
            final(self)@.retained == old(self)@.retained,
            final(self)@.subs == spec_upsert_sub(old(self)@.subs, client_id@, t@),
    {
        let ghost subs0 = self@.subs;
        let ghost nv = SubscriptionView { client_id: client_id@, filter: t@.name, qos: t@.qos };
        let mut j: usize = 0;
        while j < self.subs.len()
            invariant
                j <= self.subs@.len(),
                self@.subs == subs0,
                self@.retained == old(self)@.retained,
                forall|k: int|
                    0 <= k < j ==> !((#[trigger] subs0[k]).client_id == client_id@ && subs0[k].filter
                        == t@.name),
            decreases self.subs@.len() - j,
        {
            if str_eq(self.subs[j].client_id.as_str(), client_id) && str_eq(
                self.subs[j].filter.as_str(),
                t.name(),
            ) {
                let entry = Subscription {
                    client_id: client_id.to_owned(),
                    filter: t.name().to_owned(),
                    qos: t.qos(),
                };
                self.subs.remove(j);
                self.subs.insert(j, entry);
                proof {
                    lemma_upsert_at(subs0, client_id@, t@, j as int);
                    assert(self@.subs =~= subs0.update(j as int, nv));
                    assert forall|k: int|
                        0 <= k < self@.subs.len() implies spec_valid_filter(
                        encode_utf8((#[trigger] self@.subs[k]).filter)) by {
                        if k != j {
                            assert(self@.subs[k] == subs0[k]);
                        }
                    };
                }
                return ;
            }
            j += 1;
        }
        let entry = Subscription {
            client_id: client_id.to_owned(),
            filter: t.name().to_owned(),
            qos: t.qos(),
        };
        self.subs.push(entry);
        proof {
            lemma_upsert_absent(subs0, client_id@, t@);
            assert(self@.subs =~= subs0.push(nv));
            assert forall|k: int|
                0 <= k < self@.subs.len() implies spec_valid_filter(
                encode_utf8((#[trigger] self@.subs[k]).filter)) by {
                if k < subs0.len() {
                    assert(self@.subs[k] == subs0[k]);
                } else {
                    assert(self@.subs[k] == nv);
                }
            };
        }
    }

    /// The retained messages one filter entry reaches.
    #[verifier::loop_isolation(false)]
    fn collect_replays(&self, t: &crate::subscribe::TopicFilter) -> (r: Vec<Publish>)
        requires
            self@.wf(),
        ensures
            r.deep_view() == spec_replays_one(self@.retained, t@),
    {
        let ghost rs = self@.retained;
        let mut r: Vec<Publish> = Vec::new();
        let mut j: usize = 0;
        proof {
            assert(r.deep_view() =~= Seq::<PublishView>::empty());
            assert(rs.skip(0) =~= rs);
        }
        while j < self.retained.len()
            invariant
                j <= self.retained@.len(),
                r.deep_view() + spec_replays_one(rs.skip(j as int), t@) == spec_replays_one(rs, t@),
            decreases self.retained@.len() - j,
        {
            let ghost pre = r.deep_view();
            proof {
                assert(rs.skip(j as int)[0] == rs[j as int]);
                assert(rs.skip(j as int).drop_first() =~= rs.skip(j as int + 1));
            }
            if filter_matches(t.name(), self.retained[j].topic.as_str()) {
                proof {
                    assert(rs[j as int].packet.topic == rs[j as int].topic);
                }
                let out = Publish::make(
                    false,
                    self.retained[j].packet.qos().min(t.qos()),
                    true,
                    self.retained[j].packet.topic_name().to_owned(),
                    None,
                    slice_to_vec(self.retained[j].packet.payload().as_slice()),
                );
                r.push(out);
                proof {
                    assert(r.deep_view() =~= pre.push(spec_replay_packet(rs[j as int].packet, t@.qos)));
                    assert(pre.push(spec_replay_packet(rs[j as int].packet, t@.qos))
                        + spec_replays_one(rs.skip(j as int + 1), t@) =~= pre + spec_replays_one(
                        rs.skip(j as int),
                        t@,
                    ));
                }
            }
            j += 1;
        }
        proof {
            assert(rs.skip(self.retained@.len() as int) =~= Seq::<RetainedView>::empty());
            assert(r.deep_view() + Seq::<PublishView>::empty() =~= r.deep_view());
        }
        r
    }

    /// Reinstalls one subscription, as a subscribe for that filter
    /// would; nothing happens for a filter that breaks the wildcard
    /// rules.
    pub fn restore_subscription(&mut self, client_id: &str, filter: &str, qos: QoSLevel) -> (r:
        bool)
        requires
            old(self)@.wf(),
        ensures
            final(self)@.wf(),
            final(self)@.retained == old(self)@.retained,
            r == spec_valid_filter(encode_utf8(filter@)),
            r ==> final(self)@.subs == spec_upsert_sub(
                old(self)@.subs,
                client_id@,
                TopicFilterView { name: filter@, qos },
            ),
            !r ==> final(self)@ == old(self)@,
    {
        if !crate::topic_filter::is_valid_filter(filter) {
            return false;
        }
        let entry = crate::subscribe::TopicFilter::new(filter.to_owned(), qos);
        self.upsert_sub(client_id, &entry);
        true
    }

    /// The subscription list, for persistence.
    pub fn subscriptions(&self) -> (r: &Vec<Subscription>)
        ensures
            r.deep_view() == self@.subs,
    {
        &self.subs
    }

    /// The retained packets, for persistence; each carries its topic.
    #[verifier::loop_isolation(false)]
    pub fn retained_packets(&self) -> (r: Vec<Publish>)
        ensures
            r.deep_view().len() == self@.retained.len(),
            forall|i: int|
                0 <= i < self@.retained.len() ==> r.deep_view()[i] == (#[trigger] self@.retained[i]).packet,
    {
        let mut r: Vec<Publish> = Vec::new();
        let mut i: usize = 0;
        while i < self.retained.len()
            invariant
                i <= self.retained@.len(),
                r.deep_view().len() == i,
                forall|j: int|
                    0 <= j < i ==> r.deep_view()[j] == (#[trigger] self@.retained[j]).packet,
            decreases self.retained@.len() - i,
        {
            r.push(self.retained[i].packet.duplicate());
            i += 1;
        }
        r
    }

    /// Removes the client's subscriptions to the given filters.
    pub fn unsubscribe(&mut self, unsub: &Unsubscribe, client_id: &str)
        requires
            old(self)@.wf(),
        ensures
            final(self)@.wf(),
            final(self)@.retained == old(self)@.retained,
            final(self)@.subs == spec_remove_subs(
                old(self)@.subs,
                client_id@,
                unsub@.topic_filters,
                false,
            ),
    {
        let filters = unsub.topic_filters();
        self.remove_subs_matching(client_id, Some(filters));
    }

    /// Removes every subscription of the client.
    pub fn remove_client(&mut self, client_id: &str)
        requires
            old(self)@.wf(),
        ensures
            final(self)@.wf(),
            final(self)@.retained == old(self)@.retained,
            final(self)@.subs == spec_remove_subs(
                old(self)@.subs,
                client_id@,
                Seq::empty(),
                true,
            ),
    {
        self.remove_subs_matching(client_id, None);
    }

    /// Removes the client's subscriptions: those whose filter is in
    /// the list, or all of them when no list is given.
    #[verifier::loop_isolation(false)]
    fn remove_subs_matching(&mut self, client_id: &str, filters: Option<&Vec<String>>)
        requires
            old(self)@.wf(),
        ensures
            final(self)@.wf(),
            final(self)@.retained == old(self)@.retained,
            final(self)@.subs == spec_remove_subs(
                old(self)@.subs,
                client_id@,
                match filters {
                    Some(fs) => fs.deep_view(),
                    None => Seq::empty(),
                },
                filters is None,
            ),
    {
        let ghost subs0 = self@.subs;
        let ghost fsv: Seq<Seq<char>> = match filters {
            Some(fs) => fs.deep_view(),
            None => Seq::empty(),
        };
        let ghost all = filters is None;
        let mut kept: Vec<Subscription> = Vec::new();
        let mut j: usize = 0;
        proof {
            assert(kept.deep_view() =~= Seq::<SubscriptionView>::empty());
            assert(subs0.skip(0) =~= subs0);
        }
        while j < self.subs.len()
            invariant
                j <= self.subs@.len(),
                kept.deep_view() + spec_remove_subs(subs0.skip(j as int), client_id@, fsv, all)
                    == spec_remove_subs(subs0, client_id@, fsv, all),
            decreases self.subs@.len() - j,
        {
            let ghost pre = kept.deep_view();
            proof {
                assert(subs0.skip(j as int)[0] == subs0[j as int]);
                assert(subs0.skip(j as int).drop_first() =~= subs0.skip(j as int + 1));
            }
            let client_hit = str_eq(self.subs[j].client_id.as_str(), client_id);
            let drop_entry = client_hit && (match filters {
                Some(fs) => contains_str(fs, self.subs[j].filter.as_str()),
                None => true,
            });
            if !drop_entry {
                let entry = Subscription {
                    client_id: self.subs[j].client_id.clone(),
                    filter: self.subs[j].filter.clone(),
                    qos: self.subs[j].qos,
                };
                kept.push(entry);
                proof {
                    assert(kept.deep_view() =~= pre.push(subs0[j as int]));
                    assert(pre.push(subs0[j as int]) + spec_remove_subs(
                        subs0.skip(j as int + 1),
                        client_id@,
                        fsv,
                        all,
                    ) =~= pre + spec_remove_subs(subs0.skip(j as int), client_id@, fsv, all));
                }
            }
            j += 1;
        }
        proof {
            assert(subs0.skip(self.subs@.len() as int) =~= Seq::<SubscriptionView>::empty());
            assert(kept.deep_view() + Seq::<SubscriptionView>::empty() =~= kept.deep_view());
        }
        self.subs = kept;
        proof {
            let out = spec_remove_subs(subs0, client_id@, fsv, all);
            lemma_remove_subs_keeps(subs0, client_id@, fsv, all);
            assert forall|k: int|
                0 <= k < out.len() implies spec_valid_filter(
                encode_utf8((#[trigger] out[k]).filter)) by {
                assert(subs0.contains(out[k]));
                let m = choose|m: int| 0 <= m < subs0.len() && subs0[m] == out[k];
                assert(spec_valid_filter(encode_utf8(subs0[m].filter)));
            };
        }
    }

}

/// The deep view of a vector of strings indexes to the element's own
/// characters.
proof fn lemma_deep_index_str(v: &Vec<String>, j: int)
    requires
        0 <= j < v@.len(),
    ensures
        v.deep_view()[j] == v@[j]@,
        v.deep_view().len() == v@.len(),
{
}

/// Whether the list holds a string with these characters.
#[verifier::loop_isolation(false)]
fn contains_str(list: &Vec<String>, s: &str) -> (r: bool)
    ensures
        r == list.deep_view().contains(s@),
{
    let mut i: usize = 0;
    while i < list.len()
        invariant
            i <= list@.len(),
            forall|j: int| 0 <= j < i ==> list.deep_view()[j] != s@,
        decreases list@.len() - i,
    {
        proof {
            lemma_deep_index_str(list, i as int);
        }
        if str_eq(list[i].as_str(), s) {
            proof {
                assert(list.deep_view()[i as int] == s@);
            }
            return true;
        }
        i += 1;
    }
    proof {
        if list.deep_view().contains(s@) {
            let j = choose|j: int| 0 <= j < list.deep_view().len() && list.deep_view()[j] == s@;
            assert(list.deep_view()[j] != s@);
        }
    }
    false
}

/// Granting over the first entry of the pair is an update in place,
/// when no earlier entry has the pair.
proof fn lemma_upsert_at(subs: Seq<SubscriptionView>, c: Seq<char>, t: TopicFilterView, i: int)
    requires
        0 <= i < subs.len(),
        subs[i].client_id == c && subs[i].filter == t.name,
        forall|j: int|
            0 <= j < i ==> !((#[trigger] subs[j]).client_id == c && subs[j].filter == t.name),
    ensures
        spec_upsert_sub(subs, c, t) == subs.update(
            i,
            SubscriptionView { client_id: c, filter: t.name, qos: t.qos },
        ),
    decreases subs.len(),
{
    let nv = SubscriptionView { client_id: c, filter: t.name, qos: t.qos };
    if i == 0 {
        assert(spec_upsert_sub(subs, c, t) =~= subs.update(0, nv));
    } else {
        lemma_upsert_at(subs.drop_first(), c, t, i - 1);
        assert(subs.drop_first().update(i - 1, nv) =~= subs.update(i, nv).drop_first());
        assert(spec_upsert_sub(subs, c, t) =~= subs.update(i, nv));
    }
}

/// Granting a pair nobody holds appends the new entry.
proof fn lemma_upsert_absent(subs: Seq<SubscriptionView>, c: Seq<char>, t: TopicFilterView)
    requires
        forall|j: int|
            0 <= j < subs.len() ==> !((#[trigger] subs[j]).client_id == c && subs[j].filter
                == t.name),
    ensures
        spec_upsert_sub(subs, c, t) == subs.push(
            SubscriptionView { client_id: c, filter: t.name, qos: t.qos },
        ),
    decreases subs.len(),
{
    let nv = SubscriptionView { client_id: c, filter: t.name, qos: t.qos };
    if subs.len() == 0 {
        assert(spec_upsert_sub(subs, c, t) =~= subs.push(nv));
    } else {
        lemma_upsert_absent(subs.drop_first(), c, t);
        assert(spec_upsert_sub(subs, c, t) =~= subs.push(nv));
    }
}

/// Granting one entry after a run of grants is the run extended by it.
proof fn lemma_upsert_all_snoc(
    subs: Seq<SubscriptionView>,
    c: Seq<char>,
    ts: Seq<TopicFilterView>,
    t: TopicFilterView,
)
    ensures
        spec_upsert_all(subs, c, ts.push(t)) == spec_upsert_sub(spec_upsert_all(subs, c, ts), c, t),
    decreases ts.len(),
{
    let p = ts.push(t);
    if ts.len() == 0 {
        assert(p[0] == t);
        assert(p.drop_first() =~= Seq::<TopicFilterView>::empty());
        assert(spec_upsert_all(spec_upsert_sub(subs, c, t), c, Seq::<TopicFilterView>::empty())
            == spec_upsert_sub(subs, c, t));
        assert(spec_upsert_all(subs, c, p) == spec_upsert_sub(subs, c, t));
    } else {
        assert(p[0] == ts[0]);
        assert(p.drop_first() =~= ts.drop_first().push(t));
        assert(spec_upsert_all(subs, c, p) == spec_upsert_all(
            spec_upsert_sub(subs, c, ts[0]),
            c,
            ts.drop_first().push(t),
        ));
        lemma_upsert_all_snoc(spec_upsert_sub(subs, c, ts[0]), c, ts.drop_first(), t);
        assert(spec_upsert_all(subs, c, ts) == spec_upsert_all(
            spec_upsert_sub(subs, c, ts[0]),
            c,
            ts.drop_first(),
        ));
    }
}

/// A removal keeps only entries of the list.
proof fn lemma_remove_subs_keeps(
    subs: Seq<SubscriptionView>,
    c: Seq<char>,
    fs: Seq<Seq<char>>,
    all: bool,
)
    ensures
        forall|i: int|
            0 <= i < spec_remove_subs(subs, c, fs, all).len() ==> subs.contains(
                #[trigger] spec_remove_subs(subs, c, fs, all)[i],
            ),
    decreases subs.len(),
{
    if subs.len() > 0 {
        let rest = subs.drop_first();
        lemma_remove_subs_keeps(rest, c, fs, all);
        let out = spec_remove_subs(subs, c, fs, all);
        let outr = spec_remove_subs(rest, c, fs, all);
        assert forall|i: int| 0 <= i < out.len() implies subs.contains(#[trigger] out[i]) by {
            if subs[0].client_id == c && (all || fs.contains(subs[0].filter)) {
                assert(out[i] == outr[i]);
                assert(rest.contains(outr[i]));
                let k = choose|k: int| 0 <= k < rest.len() && rest[k] == outr[i];
                assert(rs_index_shift_sub(subs, k) == out[i]);
            } else {
                if i == 0 {
                    assert(subs[0] == out[0]);
                } else {
                    assert(out[i] == outr[i - 1]);
                    assert(rest.contains(outr[i - 1]));
                    let k = choose|k: int| 0 <= k < rest.len() && rest[k] == outr[i - 1];
                    assert(rs_index_shift_sub(subs, k) == out[i]);
                }
            }
        };
    }
}

/// The element one past `k` of a list; names the witness index when an
/// element of the tail is found in the whole list.
spec fn rs_index_shift_sub(subs: Seq<SubscriptionView>, k: int) -> SubscriptionView {
    subs[k + 1]
}

/// Fan-out is sound and complete: every delivery is the message of a
/// matching subscription, with the quality of service lowered to the
/// granted one as `spec_msg` says, and every matching subscription
/// gets its message.
pub proof fn lemma_delivery_qos(subs: Seq<SubscriptionView>, p: PublishView)
    ensures
        forall|i: int|
            0 <= i < spec_deliveries(subs, p).len() ==> exists|j: int|
                0 <= j < subs.len() && spec_sub_matches(subs[j], p.topic) && #[trigger] spec_deliveries(
                    subs,
                    p,
                )[i] == spec_msg(subs[j], p),
        forall|j: int|
            0 <= j < subs.len() && spec_sub_matches(#[trigger] subs[j], p.topic)
                ==> spec_deliveries(subs, p).contains(spec_msg(subs[j], p)),
    decreases subs.len(),
{
    if subs.len() > 0 {
        let rest = subs.drop_first();
        lemma_delivery_qos(rest, p);
        let out = spec_deliveries(subs, p);
        let outr = spec_deliveries(rest, p);
        let hit = spec_sub_matches(subs[0], p.topic);
        assert forall|i: int|
            0 <= i < out.len() implies exists|j: int|
                0 <= j < subs.len() && spec_sub_matches(subs[j], p.topic) && #[trigger] out[i]
                    == spec_msg(subs[j], p) by {
            if hit && i == 0 {
                assert(0 <= 0 < subs.len() && spec_sub_matches(subs[0], p.topic) && out[0]
                    == spec_msg(subs[0], p));
            } else {
                let ir: int = if hit {
                    i - 1
                } else {
                    i
                };
                assert(out[i] == outr[ir]);
                let j = choose|j: int|
                    0 <= j < rest.len() && spec_sub_matches(rest[j], p.topic) && outr[ir]
                        == spec_msg(rest[j], p);
                assert(rest[j] == subs[j + 1]);
                assert(0 <= j + 1 < subs.len() && spec_sub_matches(subs[j + 1], p.topic) && out[i]
                    == spec_msg(subs[j + 1], p));
            }
        };
        assert forall|j: int|
            0 <= j < subs.len() && spec_sub_matches(#[trigger] subs[j], p.topic) implies out.contains(
            spec_msg(subs[j], p)) by {
            if j == 0 {
                assert(out[0] == spec_msg(subs[0], p));
            } else {
                assert(rest[j - 1] == subs[j]);
                assert(outr.contains(spec_msg(rest[j - 1], p)));
                let i = choose|i: int| 0 <= i < outr.len() && outr[i] == spec_msg(rest[j - 1], p);
                if hit {
                    assert(out[i + 1] == outr[i]);
                } else {
                    assert(out[i] == outr[i]);
                }
            }
        };
    }
}

/// After the retained message of a topic is cleared, no entry for the
/// topic remains.
pub proof fn lemma_remove_no_topic(rs: Seq<RetainedView>, topic: Seq<char>)
    ensures
        forall|i: int|
            0 <= i < spec_remove_retained(rs, topic).len() ==> (#[trigger] spec_remove_retained(
                rs,
                topic,
            )[i]).topic != topic,
    decreases rs.len(),
{
    if rs.len() > 0 {
        lemma_remove_no_topic(rs.drop_first(), topic);
    }
}

/// No replay comes from a topic absent from the store.
pub proof fn lemma_replays_one_topics(rs: Seq<RetainedView>, t: TopicFilterView, topic: Seq<char>)
    requires
        forall|j: int| 0 <= j < rs.len() ==> (#[trigger] rs[j]).topic != topic,
        forall|j: int| 0 <= j < rs.len() ==> (#[trigger] rs[j]).packet.topic == rs[j].topic,
    ensures
        forall|i: int|
            0 <= i < spec_replays_one(rs, t).len() ==> (#[trigger] spec_replays_one(rs, t)[i]).topic
                != topic,
    decreases rs.len(),
{
    if rs.len() > 0 {
        let rest = rs.drop_first();
        assert(forall|j: int| 0 <= j < rest.len() ==> rest[j] == rs[j + 1]);
        lemma_replays_one_topics(rest, t, topic);
    }
}

/// Retained override: once the retained message of a topic is cleared
/// by an empty-payload retained publish, a later subscribe replays
/// nothing for that topic, whatever filters it brings.
pub proof fn lemma_retained_override(rs: Seq<RetainedView>, topic: Seq<char>, ts: Seq<
    TopicFilterView,
>)
    requires
        forall|j: int| 0 <= j < rs.len() ==> (#[trigger] rs[j]).packet.topic == rs[j].topic,
    ensures
        forall|i: int|
            0 <= i < spec_replays(spec_remove_retained(rs, topic), ts).len() ==> (
            #[trigger] spec_replays(spec_remove_retained(rs, topic), ts)[i]).topic != topic,
    decreases ts.len(),
{
    let cleared = spec_remove_retained(rs, topic);
    lemma_remove_no_topic(rs, topic);
    assert forall|j: int|
        0 <= j < cleared.len() implies (#[trigger] cleared[j]).packet.topic
        == cleared[j].topic by {
        lemma_remove_retained_contains(rs, topic);
        assert(rs.contains(cleared[j]));
        let k = choose|k: int| 0 <= k < rs.len() && rs[k] == cleared[j];
        assert(rs[k].packet.topic == rs[k].topic);
    };
    if ts.len() > 0 {
        lemma_replays_one_topics(cleared, ts[0], topic);
        lemma_retained_override(rs, topic, ts.drop_first());
        let out = spec_replays(cleared, ts);
        let head = spec_replays_one(cleared, ts[0]);
        let tail = spec_replays(cleared, ts.drop_first());
        assert forall|i: int| 0 <= i < out.len() implies (#[trigger] out[i]).topic != topic by {
            if i < head.len() {
                assert(out[i] == head[i]);
            } else {
                assert(out[i] == tail[i - head.len()]);
            }
        };
    }
}

/// Every entry a removal keeps was in the store.
proof fn lemma_remove_retained_contains(rs: Seq<RetainedView>, topic: Seq<char>)
    ensures
        forall|i: int|
            0 <= i < spec_remove_retained(rs, topic).len() ==> rs.contains(
                #[trigger] spec_remove_retained(rs, topic)[i],
            ),
    decreases rs.len(),
{
    if rs.len() > 0 {
        let rest = rs.drop_first();
        lemma_remove_retained_contains(rest, topic);
        let out = spec_remove_retained(rs, topic);
        let outr = spec_remove_retained(rest, topic);
        assert forall|i: int| 0 <= i < out.len() implies rs.contains(#[trigger] out[i]) by {
            if rs[0].topic == topic {
                assert(out[i] == outr[i]);
                assert(rest.contains(outr[i]));
                let k = choose|k: int| 0 <= k < rest.len() && rest[k] == outr[i];
                assert(rs[k + 1] == out[i]);
            } else {
                if i == 0 {
                    assert(rs[0] == out[0]);
                } else {
                    assert(out[i] == outr[i - 1]);
                    assert(rest.contains(outr[i - 1]));
                    let k = choose|k: int| 0 <= k < rest.len() && rest[k] == outr[i - 1];
                    assert(rs[k + 1] == out[i]);
                }
            }
        };
    }
}

/// A removal never keeps the removed topic, keeps only entries of the
/// store, and keeps distinct topics distinct.
pub proof fn lemma_remove_retained_keeps(rs: Seq<RetainedView>, topic: Seq<char>)
    requires
        forall|i: int, j: int|
            0 <= i < j < rs.len() ==> (#[trigger] rs[i]).topic != (#[trigger] rs[j]).topic,
    ensures
        forall|i: int|
            0 <= i < spec_remove_retained(rs, topic).len() ==> (#[trigger] spec_remove_retained(
                rs,
                topic,
            )[i]).topic != topic && rs.contains(spec_remove_retained(rs, topic)[i]),
        forall|i: int, j: int|
            0 <= i < j < spec_remove_retained(rs, topic).len() ==> (#[trigger] spec_remove_retained(
                rs,
                topic,
            )[i]).topic != (#[trigger] spec_remove_retained(rs, topic)[j]).topic,
    decreases rs.len(),
{
    if rs.len() > 0 {
        let rest = rs.drop_first();
        assert(forall|i: int, j: int|
            0 <= i < j < rest.len() ==> (#[trigger] rest[i]).topic != (#[trigger] rest[j]).topic)
            by {
            assert(forall|i: int| 0 <= i < rest.len() ==> rest[i] == rs[i + 1]);
        };
        lemma_remove_retained_keeps(rest, topic);
        assert(forall|e: RetainedView| rest.contains(e) ==> rs.contains(e)) by {
            assert(forall|k: int| 0 <= k < rest.len() ==> rest[k] == rs[k + 1]);
        };
        let out = spec_remove_retained(rs, topic);
        if rs[0].topic != topic {
            let outr = spec_remove_retained(rest, topic);
            assert(out == seq![rs[0]] + outr);
            assert(forall|j: int|
                0 <= j < outr.len() ==> (#[trigger] outr[j]).topic != rs[0].topic) by {
                assert(forall|j: int| 0 <= j < outr.len() ==> rest.contains(#[trigger] outr[j]));
                assert(forall|e: RetainedView|
                    rest.contains(e) ==> e.topic != rs[0].topic) by {
                    assert(forall|k: int|
                        0 <= k < rest.len() ==> (#[trigger] rest[k]).topic != rs[0].topic);
                };
            };
        }
    }
}

/// Storing over the first matching entry is an update in place, when
/// no earlier entry matches.
pub proof fn lemma_set_retained_at(rs: Seq<RetainedView>, p: PublishView, i: int)
    requires
        0 <= i < rs.len(),
        rs[i].topic == p.topic,
        forall|j: int| 0 <= j < i ==> (#[trigger] rs[j]).topic != p.topic,
    ensures
        spec_set_retained(rs, p) == rs.update(i, RetainedView { topic: p.topic, packet: p }),
    decreases rs.len(),
{
    if i == 0 {
        assert(spec_set_retained(rs, p) =~= rs.update(0, RetainedView { topic: p.topic, packet: p }));
    } else {
        lemma_set_retained_at(rs.drop_first(), p, i - 1);
        assert(rs.drop_first().update(i - 1, RetainedView { topic: p.topic, packet: p })
            =~= rs.update(i, RetainedView { topic: p.topic, packet: p }).drop_first());
        assert(spec_set_retained(rs, p) =~= rs.update(i, RetainedView { topic: p.topic, packet: p }));
    }
}

/// Storing a topic nobody retained appends the new entry.
pub proof fn lemma_set_retained_absent(rs: Seq<RetainedView>, p: PublishView)
    requires
        forall|j: int| 0 <= j < rs.len() ==> (#[trigger] rs[j]).topic != p.topic,
    ensures
        spec_set_retained(rs, p) == rs.push(RetainedView { topic: p.topic, packet: p }),
    decreases rs.len(),
{
    if rs.len() == 0 {
        assert(spec_set_retained(rs, p) =~= rs.push(RetainedView { topic: p.topic, packet: p }));
    } else {
        lemma_set_retained_absent(rs.drop_first(), p);
        assert(spec_set_retained(rs, p) =~= rs.push(RetainedView { topic: p.topic, packet: p }));
    }
}

} // verus!
