//! The broker core: one state, the packet-processing decisions, and
//! the actions the surrounding connection threads must carry out. All
//! reading and writing of transports stays outside; this type maps
//! each decoded packet to the packets that must go out.

use vstd::prelude::*;
use crate::clients_manager::{Account, ClientsManager, ConnectInfo, ShutdownInfo, spec_has_id,
    spec_index_of, spec_session_of};
use crate::connack::Connack;
use crate::connect::{Connect, LastWill};
use crate::errors::{ErrorKind, PacketError, PacketResult};
use crate::packet::Packet;
use crate::pingresp::PingResp;
use crate::puback::Puback;
use crate::publish::Publish;
use crate::qos::QoSLevel;
use crate::suback::Suback;
use crate::connect::LastWillView;
use crate::publish::{spec_topic_name_ok, PublishView};
use crate::session::SessionView;
use crate::subscribe::Subscribe;
use crate::topic_filter::{is_valid_filter, spec_valid_filter};
use crate::topic_handler::{Message, MessageView, TopicHandler};
use crate::unsuback::Unsuback;
use crate::utf8::spec_field_ok;
use vstd::utf8::encode_utf8;

verus! {

/// One thing a connection thread must do after a packet was processed.
#[derive(Debug)]
pub enum Action {
    /// Write this publish to this client's transport.
    SendPublish(Message),
    /// Write this acknowledgement to this client's transport.
    SendPuback(String, Puback),
    /// Write this subscription acknowledgement to this client's
    /// transport.
    SendSuback(String, Suback),
    /// Write this unsubscription acknowledgement to this client's
    /// transport.
    SendUnsuback(String, Unsuback),
    /// Write a PingResp to this client's transport.
    SendPingResp(String, PingResp),
    /// Close this client's transport; the session was already
    /// detached.
    Close(String),
}

/// What the broker decided for a Connect.
#[derive(Debug)]
pub struct ConnectOutcome {
    /// The acknowledgement to write back.
    pub connack: Connack,
    /// The session's identifier when the connection was accepted; the
    /// transport must close after the Connack when it is absent.
    pub client_id: Option<String>,
    /// The publishes owed to other clients: a taken-over session's
    /// last will.
    pub actions: Vec<Action>,
}

/// Whether a client both holds a session and has its transport
/// attached.
pub open spec fn spec_client_connected(ss: Seq<SessionView>, cid: Seq<char>) -> bool {
    spec_has_id(ss, cid) && spec_session_of(ss, cid).connected
}

/// Whether the action writes the prepared message to its client: the
/// packet may differ only in the identifier the session assigned,
/// present exactly for quality of service 1.
pub open spec fn spec_action_delivers(a: Action, d: MessageView) -> bool {
    a matches Action::SendPublish(m) && (m.client_id@ == d.client_id && m.packet@ == (PublishView {
        dup: false,
        packet_id: m.packet@.packet_id,
        ..d.packet
    }) && ((m.packet@.packet_id is Some) <==> d.packet.qos == QoSLevel::QoSLevel1))
}

/// Whether the action delivers one of the prepared messages, to a
/// client connected in `ss`.
pub open spec fn spec_action_sound(a: Action, ds: Seq<MessageView>, ss: Seq<SessionView>) -> bool {
    exists|j: int|
        0 <= j < ds.len() && spec_action_delivers(a, #[trigger] ds[j]) && spec_client_connected(
            ss,
            ds[j].client_id,
        )
}

/// Whether some action from `start` on delivers the message.
pub open spec fn spec_delivered_in(actions: Seq<Action>, start: int, d: MessageView) -> bool {
    exists|k: int| start <= k < actions.len() && spec_action_delivers(#[trigger] actions[k], d)
}

/// Whether an inflight entry carries the prepared message: the same
/// packet, marked undelivered, under the entry's own identifier.
pub open spec fn spec_entry_carries(e: crate::session::InflightView, d: MessageView) -> bool {
    e.packet == (PublishView { dup: false, packet_id: Some(e.packet_id), ..d.packet })
}

/// Whether the message sits in its client's inflight queue.
pub open spec fn spec_queued_for(ss: Seq<SessionView>, d: MessageView) -> bool {
    spec_has_id(ss, d.client_id) && exists|m: int|
        0 <= m < spec_session_of(ss, d.client_id).inflight.len() && spec_entry_carries(
            #[trigger] spec_session_of(ss, d.client_id).inflight[m],
            d,
        )
}

/// Every prepared QoS 1 message to a client that holds a session,
/// connected or not, ends up in that session's inflight queue when
/// there is room for the whole batch.
pub open spec fn spec_dispatch_queued(
    post: Seq<SessionView>,
    ds: Seq<MessageView>,
    ss: Seq<SessionView>,
) -> bool {
    forall|j: int|
        (0 <= j < ds.len() && spec_has_id(ss, (#[trigger] ds[j]).client_id) && ds[j].packet.qos
            == QoSLevel::QoSLevel1 && spec_session_of(ss, ds[j].client_id).inflight.len()
            + ds.len() <= 65535) ==> spec_queued_for(post, ds[j])
}

/// Soundness of a fan-out: every action from `start` on delivers one
/// of the prepared messages, to a client that was connected.
pub open spec fn spec_dispatch_sound(
    actions: Seq<Action>,
    start: int,
    ds: Seq<MessageView>,
    ss: Seq<SessionView>,
) -> bool {
    forall|k: int| start <= k < actions.len() ==> spec_action_sound(#[trigger] actions[k], ds, ss)
}

/// Completeness of a fan-out: every prepared message whose client was
/// connected, with room in its inflight queue for the whole batch, is
/// delivered by some action.
pub open spec fn spec_dispatch_complete(
    actions: Seq<Action>,
    start: int,
    ds: Seq<MessageView>,
    ss: Seq<SessionView>,
) -> bool {
    forall|j: int|
        (0 <= j < ds.len() && spec_client_connected(ss, (#[trigger] ds[j]).client_id)
            && spec_session_of(ss, ds[j].client_id).inflight.len() + ds.len() <= 65535)
            ==> spec_delivered_in(actions, start, ds[j])
}

/// The per-session frame a fan-out keeps: identity, liveness, flags
/// and keep-alive stay; each inflight queue grows by at most `grow`.
pub open spec fn spec_sessions_frame(
    post: Seq<SessionView>,
    pre: Seq<SessionView>,
    grow: int,
) -> bool {
    &&& post.len() == pre.len()
    &&& forall|i: int|
        0 <= i < pre.len() ==> ((#[trigger] post[i]).id == pre[i].id && post[i].connected
            == pre[i].connected && post[i].clean_session == pre[i].clean_session
            && post[i].keep_alive == pre[i].keep_alive && post[i].last_will == pre[i].last_will
            && pre[i].inflight.is_prefix_of(post[i].inflight) && post[i].inflight.len()
            <= pre[i].inflight.len() + grow)
}

/// The publish a last will becomes when the broker emits it.
pub open spec fn spec_will_publish(w: LastWillView) -> PublishView {
    PublishView {
        dup: false,
        qos: w.qos,
        retain: w.retain,
        topic: w.topic,
        packet_id: if w.qos == QoSLevel::QoSLevel1 {
            Some(1u16)
        } else {
            None
        },
        payload: encode_utf8(w.message),
    }
}

/// Whether a will can be published: its topic is a carriable,
/// wildcard-free topic name.
pub open spec fn spec_will_ok(w: LastWillView) -> bool {
    spec_field_ok(w.topic) && spec_topic_name_ok(encode_utf8(w.topic))
}

/// Sessions with pointwise-equal identifiers hold the same set of
/// identifiers.
proof fn lemma_frame_has_id(post: Seq<SessionView>, pre: Seq<SessionView>)
    requires
        post.len() == pre.len(),
        forall|i: int| 0 <= i < pre.len() ==> (#[trigger] post[i]).id == pre[i].id,
    ensures
        forall|cid: Seq<char>| spec_has_id(post, cid) == spec_has_id(pre, cid),
{
    assert forall|cid: Seq<char>| spec_has_id(post, cid) == spec_has_id(pre, cid) by {
        if spec_has_id(pre, cid) {
            let w = choose|w: int| 0 <= w < pre.len() && (#[trigger] pre[w]).id == cid;
            assert(post[w].id == cid);
        }
        if spec_has_id(post, cid) {
            let w = choose|w: int| 0 <= w < post.len() && (#[trigger] post[w]).id == cid;
            assert(pre[w].id == cid);
        }
    };
}

/// With distinct identifiers, a client's session keeps its position
/// under a pointwise-identifier-preserving change.
proof fn lemma_index_stable(post: Seq<SessionView>, pre: Seq<SessionView>, cid: Seq<char>)
    requires
        post.len() == pre.len(),
        forall|i: int| 0 <= i < pre.len() ==> (#[trigger] post[i]).id == pre[i].id,
        forall|i: int, j: int|
            0 <= i < j < pre.len() ==> (#[trigger] pre[i]).id != (#[trigger] pre[j]).id,
        spec_has_id(pre, cid),
    ensures
        spec_has_id(post, cid),
        0 <= spec_index_of(pre, cid) < pre.len(),
        pre[spec_index_of(pre, cid)].id == cid,
        spec_index_of(post, cid) == spec_index_of(pre, cid),
{
    let ip = crate::clients_manager::spec_index_of(pre, cid);
    assert(pre[ip].id == cid);
    assert(post[ip].id == cid);
    let iq = crate::clients_manager::spec_index_of(post, cid);
    assert(post[iq].id == cid);
    assert(pre[iq].id == cid);
}

/// The per-session shape a fan-out keeps, with no bound on how much
/// each inflight queue grew.
pub open spec fn spec_sessions_shape(post: Seq<SessionView>, pre: Seq<SessionView>) -> bool {
    &&& post.len() == pre.len()
    &&& forall|i: int|
        0 <= i < pre.len() ==> ((#[trigger] post[i]).id == pre[i].id && post[i].connected
            == pre[i].connected && post[i].clean_session == pre[i].clean_session
            && post[i].keep_alive == pre[i].keep_alive && post[i].last_will == pre[i].last_will
            && pre[i].inflight.len() <= post[i].inflight.len())
}

/// The subscription store with every listed client's subscriptions
/// removed, in order.
pub open spec fn spec_scrub_all(
    subs: Seq<crate::topic_handler::SubscriptionView>,
    ids: Seq<Seq<char>>,
) -> Seq<crate::topic_handler::SubscriptionView>
    decreases ids.len(),
{
    if ids.len() == 0 {
        subs
    } else {
        spec_scrub_all(
            crate::topic_handler::spec_remove_subs(subs, ids[0], Seq::empty(), true),
            ids.drop_first(),
        )
    }
}

/// Scrubbing one more client extends the run by one removal.
proof fn lemma_scrub_all_snoc(
    subs: Seq<crate::topic_handler::SubscriptionView>,
    ids: Seq<Seq<char>>,
    c: Seq<char>,
)
    ensures
        spec_scrub_all(subs, ids.push(c)) == crate::topic_handler::spec_remove_subs(
            spec_scrub_all(subs, ids),
            c,
            Seq::empty(),
            true,
        ),
    decreases ids.len(),
{
    let p = ids.push(c);
    if ids.len() == 0 {
        assert(p[0] == c);
        assert(p.drop_first() =~= Seq::<Seq<char>>::empty());
        assert(spec_scrub_all(
            crate::topic_handler::spec_remove_subs(subs, c, Seq::empty(), true),
            Seq::<Seq<char>>::empty(),
        ) == crate::topic_handler::spec_remove_subs(subs, c, Seq::empty(), true));
    } else {
        assert(p[0] == ids[0]);
        assert(p.drop_first() =~= ids.drop_first().push(c));
        lemma_scrub_all_snoc(
            crate::topic_handler::spec_remove_subs(subs, ids[0], Seq::empty(), true),
            ids.drop_first(),
            c,
        );
    }
}

/// A shutdown detaches every session it keeps.
proof fn lemma_shutdown_detached(ss: Seq<SessionView>)
    ensures
        forall|i: int|
            0 <= i < crate::clients_manager::spec_shutdown_sessions(ss).len() ==> !(
            #[trigger] crate::clients_manager::spec_shutdown_sessions(ss)[i]).connected,
    decreases ss.len(),
{
    if ss.len() > 0 {
        lemma_shutdown_detached(ss.drop_first());
    }
}

/// Under a fan-out frame, a client's session keeps its identity,
/// liveness, flags and keep-alive, and its inflight queue only grows.
proof fn lemma_frame_session_of(
    post: Seq<SessionView>,
    pre: Seq<SessionView>,
    grow: int,
    cid: Seq<char>,
)
    requires
        spec_sessions_frame(post, pre, grow),
        forall|i: int, j: int|
            0 <= i < j < pre.len() ==> (#[trigger] pre[i]).id != (#[trigger] pre[j]).id,
        spec_has_id(pre, cid),
    ensures
        spec_has_id(post, cid),
        spec_session_of(post, cid).connected == spec_session_of(pre, cid).connected,
        spec_session_of(post, cid).clean_session == spec_session_of(pre, cid).clean_session,
        spec_session_of(post, cid).keep_alive == spec_session_of(pre, cid).keep_alive,
        spec_session_of(post, cid).last_will == spec_session_of(pre, cid).last_will,
        spec_session_of(pre, cid).inflight.len() <= spec_session_of(post, cid).inflight.len(),
        spec_session_of(post, cid).inflight.len() <= spec_session_of(pre, cid).inflight.len()
            + grow,
{
    lemma_index_stable(post, pre, cid);
}

/// The broker's state: who is connected, who subscribed to what, and
/// what is retained.
pub struct Server {
    clients_manager: ClientsManager,
    topic_handler: TopicHandler,
}

impl Server {
    /// A broker with no sessions, no subscriptions, and no retained
    /// messages.
    pub fn new(accounts: Option<Vec<Account>>) -> (r: Server)
        ensures
            r.wf(),
            r.spec_clients().sessions.len() == 0,
            r.spec_topics().subs.len() == 0,
            r.spec_topics().retained.len() == 0,
    {
        Server {
            clients_manager: ClientsManager::new(accounts),
            topic_handler: TopicHandler::new(),
        }
    }

    /// The sessions and accounts, mathematically.
    pub closed spec fn spec_clients(&self) -> crate::clients_manager::ClientsManagerView {
        self.clients_manager@
    }

    /// The subscriptions and retained messages, mathematically.
    pub closed spec fn spec_topics(&self) -> crate::topic_handler::TopicHandlerView {
        self.topic_handler@
    }

    /// The state invariant the broker maintains across every
    /// operation. The session count stays under a fixed bound, so a
    /// connect beyond it is refused as server-unavailable and
    /// identifier generation stays total.
    pub closed spec fn wf(&self) -> bool {
        &&& self.clients_manager@.wf()
        &&& self.topic_handler@.wf()
        &&& self.clients_manager@.sessions.len() <= 1000000
    }

    /// Routes one publish to every matching subscription, through each
    /// receiver's session: exactly the topic handler's deliveries are
    /// attempted, and the writes owed to connected receivers come back.
    fn broadcast_publish(&mut self, publish: &Publish, now: u64) -> (r: Vec<Action>)
        requires
            old(self).wf(),
            publish@.wf(),
        ensures
            final(self).wf(),
            final(self).spec_clients().accounts == old(self).spec_clients().accounts,
            spec_sessions_frame(
                final(self).spec_clients().sessions,
                old(self).spec_clients().sessions,
                crate::topic_handler::spec_deliveries(old(self).spec_topics().subs, publish@).len() as int,
            ),
            forall|cid: Seq<char>|
                spec_has_id(final(self).spec_clients().sessions, cid) == spec_has_id(
                    old(self).spec_clients().sessions,
                    cid,
                ),
            final(self).spec_topics().subs == old(self).spec_topics().subs,
            spec_dispatch_sound(
                r@,
                0,
                crate::topic_handler::spec_deliveries(old(self).spec_topics().subs, publish@),
                old(self).spec_clients().sessions,
            ),
            spec_dispatch_complete(
                r@,
                0,
                crate::topic_handler::spec_deliveries(old(self).spec_topics().subs, publish@),
                old(self).spec_clients().sessions,
            ),
            spec_dispatch_queued(
                final(self).spec_clients().sessions,
                crate::topic_handler::spec_deliveries(old(self).spec_topics().subs, publish@),
                old(self).spec_clients().sessions,
            ),
            !publish@.retain ==> final(self).spec_topics().retained == old(
                self,
            ).spec_topics().retained,
            publish@.retain && publish@.payload.len() == 0 ==> final(self).spec_topics().retained
                == crate::topic_handler::spec_remove_retained(
                old(self).spec_topics().retained,
                publish@.topic,
            ),
            publish@.retain && publish@.payload.len() >= 1 ==> final(self).spec_topics().retained
                == crate::topic_handler::spec_set_retained(
                old(self).spec_topics().retained,
                publish@.as_retained(),
            ),
    {
        let messages = self.topic_handler.publish(publish);
        self.dispatch_messages(messages, now)
    }

    /// Routes prepared messages through their sessions. Every returned
    /// action delivers one of the messages to a client that was
    /// connected, and every message to a connected client with room in
    /// its inflight queue is delivered.
    #[verifier::loop_isolation(false)]
    #[verifier::rlimit(100)]
    #[verifier::spinoff_prover]
    fn dispatch_messages(&mut self, messages: Vec<Message>, now: u64) -> (r: Vec<Action>)
        requires
            old(self).wf(),
        ensures
            final(self).wf(),
            final(self).spec_clients().accounts == old(self).spec_clients().accounts,
            spec_sessions_frame(
                final(self).spec_clients().sessions,
                old(self).spec_clients().sessions,
                messages.deep_view().len() as int,
            ),
            forall|cid: Seq<char>|
                spec_has_id(final(self).spec_clients().sessions, cid) == spec_has_id(
                    old(self).spec_clients().sessions,
                    cid,
                ),
            final(self).spec_topics() == old(self).spec_topics(),
            spec_dispatch_sound(r@, 0, messages.deep_view(), old(self).spec_clients().sessions),
            spec_dispatch_complete(r@, 0, messages.deep_view(), old(self).spec_clients().sessions),
            spec_dispatch_queued(
                final(self).spec_clients().sessions,
                messages.deep_view(),
                old(self).spec_clients().sessions,
            ),
    {
        let ghost ss0 = self.spec_clients().sessions;
        let ghost mv = messages.deep_view();
        let mut actions: Vec<Action> = Vec::new();
        let mut messages = messages;
        let ghost mut k: int = 0;
        proof {
            assert(mv.skip(0) =~= mv);
        }
        while messages.len() > 0
            invariant
                self.wf(),
                0 <= k <= mv.len(),
                messages.deep_view() == mv.skip(k),
                self.spec_clients().accounts == old(self).spec_clients().accounts,
                spec_sessions_frame(self.spec_clients().sessions, ss0, k),
                forall|cid: Seq<char>|
                    spec_has_id(self.spec_clients().sessions, cid) == spec_has_id(ss0, cid),
                self.spec_topics() == old(self).spec_topics(),
                spec_dispatch_sound(actions@, 0, mv, ss0),
                forall|j: int|
                    (0 <= j < k && spec_client_connected(ss0, (#[trigger] mv[j]).client_id)
                        && spec_session_of(ss0, mv[j].client_id).inflight.len() + mv.len() <= 65535)
                        ==> spec_delivered_in(actions@, 0, mv[j]),
                forall|j: int|
                    (0 <= j < k && spec_has_id(ss0, (#[trigger] mv[j]).client_id)
                        && mv[j].packet.qos == QoSLevel::QoSLevel1 && spec_session_of(
                        ss0,
                        mv[j].client_id,
                    ).inflight.len() + mv.len() <= 65535) ==> spec_queued_for(
                        self.spec_clients().sessions,
                        mv[j],
                    ),
            decreases messages@.len(),
        {
            let ghost d = mv[k];
            let ghost cur = self.spec_clients().sessions;
            proof {
                assert(messages.deep_view()[0] == messages@[0]@);
                assert(mv.skip(k)[0] == mv[k]);
            }
            let ghost prev = messages@;
            let m = messages.remove(0);
            proof {
                assert(messages@ =~= prev.subrange(1, prev.len() as int));
                assert forall|j: int|
                    0 <= j < messages@.len() implies messages.deep_view()[j] == mv.skip(k + 1)[j] by {
                    assert(messages@[j] == prev[j + 1]);
                    assert(messages.deep_view()[j] == messages@[j]@);
                    assert(mv.skip(k)[j + 1] == prev[j + 1]@);
                };
                assert(messages.deep_view() =~= mv.skip(k + 1));
                assert(m@ == d);
                // the connection state of the message's client is the
                // same now as it was at entry
                if spec_has_id(ss0, d.client_id) {
                    lemma_index_stable(cur, ss0, d.client_id);
                }
                lemma_frame_has_id(cur, ss0);
            }
            let connected = self.clients_manager.is_connected(m.client_id.as_str());
            proof {
                assert(connected == spec_client_connected(ss0, d.client_id));
            }
            let ghost pre_actions = actions@;
            let sent = self.clients_manager.send_publish(m.client_id.as_str(), &m.packet, now);
            match sent {
                Some(out) => {
                    if connected {
                        actions.push(Action::SendPublish(Message { client_id: m.client_id, packet: out }));
                        proof {
                            assert(spec_action_delivers(actions@[pre_actions.len() as int], d));
                            assert(spec_action_sound(actions@[pre_actions.len() as int], mv, ss0));
                        }
                    }
                },
                None => (),
            }
            proof {
                // the frame grows by at most one inflight entry
                let nxt = self.spec_clients().sessions;
                if nxt != cur {
                    let jx = spec_index_of(cur, d.client_id);
                    assert(spec_sessions_frame(nxt, ss0, k + 1));
                } else {
                    assert(spec_sessions_frame(nxt, ss0, k + 1));
                }
                lemma_frame_has_id(nxt, ss0);
                // completeness for this message
                if spec_client_connected(ss0, d.client_id) && spec_session_of(
                    ss0,
                    d.client_id,
                ).inflight.len() + mv.len() <= 65535 {
                    let ix = spec_index_of(ss0, d.client_id);
                    assert(cur[ix].inflight.len() <= ss0[ix].inflight.len() + k);
                    assert(spec_session_of(cur, d.client_id) == cur[ix]);
                    assert(spec_session_of(cur, d.client_id).inflight.len() < 65535);
                    assert(sent is Some);
                    assert(actions@.len() == pre_actions.len() + 1);
                }
                assert forall|j: int|
                    (0 <= j < k + 1 && spec_client_connected(ss0, (#[trigger] mv[j]).client_id)
                        && spec_session_of(ss0, mv[j].client_id).inflight.len() + mv.len() <= 65535)
                        implies spec_delivered_in(actions@, 0, mv[j]) by {
                    if j < k {
                        let a = choose|a: int|
                            0 <= a < pre_actions.len() && spec_action_delivers(
                                #[trigger] pre_actions[a],
                                mv[j],
                            );
                        assert(actions@[a] == pre_actions[a]);
                        assert(spec_action_delivers(actions@[a], mv[j]));
                    } else {
                        assert(spec_action_delivers(actions@[actions@.len() - 1], d));
                    }
                };
                assert forall|a: int|
                    0 <= a < actions@.len() implies spec_action_sound(
                    #[trigger] actions@[a],
                    mv,
                    ss0,
                ) by {
                    if a < pre_actions.len() {
                        assert(actions@[a] == pre_actions[a]);
                        assert(spec_action_sound(pre_actions[a], mv, ss0));
                    }
                };
                let nxt = self.spec_clients().sessions;
                assert forall|j: int|
                    (0 <= j < k + 1 && spec_has_id(ss0, (#[trigger] mv[j]).client_id)
                        && mv[j].packet.qos == QoSLevel::QoSLevel1 && spec_session_of(
                        ss0,
                        mv[j].client_id,
                    ).inflight.len() + mv.len() <= 65535) implies spec_queued_for(nxt, mv[j]) by {
                    let cid = mv[j].client_id;
                    let ix = spec_index_of(ss0, cid);
                    assert(ss0[ix].id == cid);
                    lemma_index_stable(nxt, ss0, cid);
                    lemma_index_stable(cur, ss0, cid);
                    if j < k {
                        assert(spec_queued_for(cur, mv[j]));
                        let m = choose|m: int|
                            0 <= m < spec_session_of(cur, cid).inflight.len() && spec_entry_carries(
                                #[trigger] spec_session_of(cur, cid).inflight[m],
                                mv[j],
                            );
                        assert(spec_session_of(cur, cid) == cur[ix]);
                        assert(spec_session_of(nxt, cid) == nxt[ix]);
                        assert(nxt[ix].inflight[m] == cur[ix].inflight[m]);
                        assert(spec_entry_carries(spec_session_of(nxt, cid).inflight[m], mv[j]));
                    } else {
                        // this very message was enqueued
                        assert(cur[ix].inflight.len() <= ss0[ix].inflight.len() + k);
                        assert(spec_session_of(cur, cid) == cur[ix]);
                        assert(spec_session_of(cur, cid).inflight.len() < 65535);
                        assert(sent is Some);
                        let out = sent->Some_0;
                        let jxc = spec_index_of(cur, cid);
                        assert(jxc == ix);
                        let entry = crate::session::InflightView {
                            packet_id: out@.packet_id->0,
                            packet: out@,
                            last_send: now,
                        };
                        assert(spec_session_of(nxt, cid) == nxt[ix]);
                        assert(nxt[ix].inflight == cur[ix].inflight.push(entry));
                        let m = cur[ix].inflight.len() as int;
                        assert(nxt[ix].inflight[m] == entry);
                        assert(spec_entry_carries(entry, mv[j]));
                    }
                };
                k = k + 1;
            }
        }
        proof {
            assert(mv.skip(k) =~= Seq::<MessageView>::empty());
        }
        actions
    }

    /// Publishes a last will on behalf of a client: the will becomes a
    /// publish and fans out like any other, unless its topic is no
    /// acceptable topic name, in which case nothing happens.
    fn send_last_will(&mut self, last_will: LastWill, now: u64) -> (r: Vec<Action>)
        requires
            old(self).wf(),
        ensures
            final(self).wf(),
            final(self).spec_clients().accounts == old(self).spec_clients().accounts,
            final(self).spec_topics().subs == old(self).spec_topics().subs,
            forall|cid: Seq<char>|
                spec_has_id(final(self).spec_clients().sessions, cid) == spec_has_id(
                    old(self).spec_clients().sessions,
                    cid,
                ),
            spec_sessions_frame(
                final(self).spec_clients().sessions,
                old(self).spec_clients().sessions,
                crate::topic_handler::spec_deliveries(
                    old(self).spec_topics().subs,
                    spec_will_publish(last_will@),
                ).len() as int,
            ),
            !spec_will_ok(last_will@) ==> r@.len() == 0 && final(self).spec_clients() == old(
                self,
            ).spec_clients() && final(self).spec_topics() == old(self).spec_topics(),
            spec_will_ok(last_will@) ==> {
                let wp = spec_will_publish(last_will@);
                let ds = crate::topic_handler::spec_deliveries(old(self).spec_topics().subs, wp);
                &&& spec_dispatch_sound(r@, 0, ds, old(self).spec_clients().sessions)
                &&& spec_dispatch_complete(r@, 0, ds, old(self).spec_clients().sessions)
                &&& (!wp.retain ==> final(self).spec_topics().retained == old(
                    self,
                ).spec_topics().retained)
                &&& (wp.retain && wp.payload.len() == 0 ==> final(self).spec_topics().retained
                    == crate::topic_handler::spec_remove_retained(
                    old(self).spec_topics().retained,
                    wp.topic,
                ))
                &&& (wp.retain && wp.payload.len() >= 1 ==> final(self).spec_topics().retained
                    == crate::topic_handler::spec_set_retained(
                    old(self).spec_topics().retained,
                    wp.as_retained(),
                ))
            },
    {
        let payload = crate::utf8::str_bytes(last_will.message.as_str());
        let packet_id: Option<u16> = match last_will.qos {
            QoSLevel::QoSLevel0 => None,
            QoSLevel::QoSLevel1 => Some(1),
        };
        match Publish::new(
            false,
            last_will.qos,
            last_will.retain,
            last_will.topic.as_str(),
            payload,
            packet_id,
        ) {
            Ok(publish) => {
                proof {
                    assert(publish@ == spec_will_publish(last_will@));
                }
                self.broadcast_publish(&publish, now)
            },
            Err(_) => {
                proof {
                    assert(!spec_will_ok(last_will@));
                    assert(spec_sessions_frame(
                        self.spec_clients().sessions,
                        self.spec_clients().sessions,
                        0,
                    ));
                }
                Vec::new()
            },
        }
    }

    /// Opens a session for a Connect: decides the Connack (0 accepted,
    /// 2 identifier rejected, 3 at capacity, 4 bad credentials), the
    /// session identifier, and the fan-out of a taken-over session's
    /// will. Acceptance is owed whenever the credentials pass, the
    /// identifier rule is met, and the broker is under its capacity.
    #[verifier::rlimit(100)]
    #[verifier::spinoff_prover]
    pub fn connect_client(&mut self, connect: Connect, now: u64) -> (r: ConnectOutcome)
        requires
            old(self).wf(),
        ensures
            final(self).wf(),
            r.connack.wf(),
            (r.client_id is Some) == (r.connack.return_code == 0),
            r.connack.return_code == 0 || r.connack.return_code == 2 || r.connack.return_code == 3
                || r.connack.return_code == 4,
            final(self).spec_topics().subs == old(self).spec_topics().subs,
            r.connack.return_code != 0 ==> final(self).spec_clients() == old(self).spec_clients()
                && final(self).spec_topics() == old(self).spec_topics() && r.actions@.len() == 0,
            old(self).spec_clients().sessions.len() >= 1000000 ==> r.connack.return_code == 3,
            old(self).spec_clients().sessions.len() < 1000000 ==> {
                let auth = crate::clients_manager::spec_auth_ok(
                    old(self).spec_clients().accounts,
                    connect@.user_name,
                    connect@.password,
                );
                &&& (r.connack.return_code == 4) == !auth
                &&& (r.connack.return_code == 2) == (auth && connect@.client_id.len() == 0
                    && !connect@.clean_session)
                &&& (r.connack.return_code == 0) == (auth && (connect@.client_id.len() > 0
                    || connect@.clean_session))
            },
            r.connack.return_code == 0 ==> {
                let cid = r.client_id->Some_0@;
                &&& (connect@.client_id.len() > 0 ==> cid == connect@.client_id)
                &&& spec_client_connected(final(self).spec_clients().sessions, cid)
                &&& spec_session_of(final(self).spec_clients().sessions, cid).clean_session
                    == connect@.clean_session
                &&& spec_session_of(final(self).spec_clients().sessions, cid).keep_alive
                    == connect@.keep_alive
                &&& r.connack.session_present == (spec_has_id(
                    old(self).spec_clients().sessions,
                    cid,
                ) && !spec_session_of(old(self).spec_clients().sessions, cid).clean_session
                    && !connect@.clean_session)
            },
            r.connack.return_code == 0 ==> {
                let cid = r.client_id->Some_0@;
                let had = spec_has_id(old(self).spec_clients().sessions, cid);
                let old_sv = spec_session_of(old(self).spec_clients().sessions, cid);
                let taking = had && old_sv.connected && !old_sv.clean_session;
                &&& (!(taking && old_sv.last_will is Some) ==> final(self).spec_topics()
                    == old(self).spec_topics() && r.actions@.len() == 0)
                &&& (taking ==> (old_sv.last_will matches Some(w) ==> {
                    let wp = spec_will_publish(w);
                    let ds = crate::topic_handler::spec_deliveries(old(self).spec_topics().subs, wp);
                    &&& (!spec_will_ok(w) ==> r.actions@.len() == 0 && final(self).spec_topics()
                        == old(self).spec_topics())
                    &&& (spec_will_ok(w) ==> {
                        &&& spec_dispatch_sound(
                            r.actions@,
                            0,
                            ds,
                            final(self).spec_clients().sessions,
                        )
                        &&& spec_dispatch_complete(
                            r.actions@,
                            0,
                            ds,
                            final(self).spec_clients().sessions,
                        )
                        &&& (!wp.retain ==> final(self).spec_topics().retained
                            == old(self).spec_topics().retained)
                        &&& (wp.retain && wp.payload.len() == 0
                            ==> final(self).spec_topics().retained
                            == crate::topic_handler::spec_remove_retained(
                            old(self).spec_topics().retained,
                            wp.topic,
                        ))
                        &&& (wp.retain && wp.payload.len() >= 1
                            ==> final(self).spec_topics().retained
                            == crate::topic_handler::spec_set_retained(
                            old(self).spec_topics().retained,
                            wp.as_retained(),
                        ))
                    })
                }))
            },
    {
        if self.clients_manager.session_count() >= 1000000 {
            return ConnectOutcome {
                connack: Connack { session_present: false, return_code: 3 },
                client_id: None,
                actions: Vec::new(),
            };
        }
        let ghost ss0 = self.spec_clients().sessions;
        match self.clients_manager.new_session(connect) {
            Err(code) => ConnectOutcome {
                connack: Connack { session_present: false, return_code: code },
                client_id: None,
                actions: Vec::new(),
            },
            Ok(info) => {
                let ConnectInfo { id, session_present, takeover_last_will } = info;
                let ghost mid = self.spec_clients().sessions;
                let ghost had = spec_has_id(ss0, id@);
                proof {
                    if had {
                        let jx = spec_index_of(ss0, id@);
                        assert(ss0[jx].id == id@);
                        assert(mid[jx].id == id@);
                        assert(spec_has_id(mid, id@));
                        let ch = spec_index_of(mid, id@);
                        assert(mid[ch].id == id@);
                        assert forall|a: int, b: int|
                            0 <= a < b < mid.len() implies (#[trigger] mid[a]).id != (
                        #[trigger] mid[b]).id by {
                            assert(mid[a].id == ss0[a].id && mid[b].id == ss0[b].id);
                        };
                        assert(ch == jx);
                        assert(spec_session_of(mid, id@) == mid[jx]);
                    } else {
                        assert(mid[mid.len() - 1].id == id@);
                        assert(spec_has_id(mid, id@));
                        let ch = spec_index_of(mid, id@);
                        assert(mid[ch].id == id@);
                        if ch < ss0.len() {
                            assert(mid[ch] == ss0[ch]);
                        }
                        assert(spec_session_of(mid, id@) == mid[mid.len() - 1]);
                    }
                    assert(spec_session_of(mid, id@).connected);
                    assert(spec_session_of(mid, id@).clean_session == connect@.clean_session);
                    assert(spec_session_of(mid, id@).keep_alive == connect@.keep_alive);
                }
                let actions = match takeover_last_will {
                    Some(w) => self.send_last_will(w, now),
                    None => Vec::new(),
                };
                proof {
                    let fin = self.spec_clients().sessions;
                    if takeover_last_will is Some {
                        let ghost grow = crate::topic_handler::spec_deliveries(
                            old(self).spec_topics().subs,
                            spec_will_publish(takeover_last_will->Some_0@),
                        ).len() as int;
                        lemma_frame_session_of(fin, mid, grow, id@);
                        // connectivity judged after the will's fan-out is
                        // the same as before it, for every client
                        let ds = crate::topic_handler::spec_deliveries(
                            old(self).spec_topics().subs,
                            spec_will_publish(takeover_last_will->Some_0@),
                        );
                        if spec_will_ok(takeover_last_will->Some_0@) {
                            assert forall|k: int|
                                0 <= k < actions@.len() implies spec_action_sound(
                                #[trigger] actions@[k],
                                ds,
                                fin,
                            ) by {
                                assert(spec_action_sound(actions@[k], ds, mid));
                                let j = choose|j: int|
                                    0 <= j < ds.len() && spec_action_delivers(
                                        actions@[k],
                                        #[trigger] ds[j],
                                    ) && spec_client_connected(mid, ds[j].client_id);
                                lemma_frame_session_of(fin, mid, grow, ds[j].client_id);
                                assert(spec_client_connected(fin, ds[j].client_id));
                            };
                            assert forall|j: int|
                                (0 <= j < ds.len() && spec_client_connected(
                                    fin,
                                    (#[trigger] ds[j]).client_id,
                                ) && spec_session_of(fin, ds[j].client_id).inflight.len() + ds.len()
                                    <= 65535) implies spec_delivered_in(actions@, 0, ds[j]) by {
                                lemma_frame_has_id(fin, mid);
                                lemma_frame_session_of(fin, mid, grow, ds[j].client_id);
                                assert(spec_client_connected(mid, ds[j].client_id));
                                assert(spec_session_of(mid, ds[j].client_id).inflight.len()
                                    + ds.len() <= 65535);
                            };
                        }
                    } else {
                        assert(fin == mid);
                    }
                    assert(spec_client_connected(fin, id@));
                    assert(spec_session_of(fin, id@).clean_session == connect@.clean_session);
                    assert(spec_session_of(fin, id@).keep_alive == connect@.keep_alive);
                }
                ConnectOutcome {
                    connack: Connack { session_present, return_code: 0 },
                    client_id: Some(id),
                    actions,
                }
            },
        }
    }

    /// Processes one decoded packet from a connected client and
    /// decides the packets that must go out. A protocol violation
    /// comes back as an error; the caller must then close the
    /// transport ungracefully.
    pub fn handle_packet(&mut self, packet: Packet, client_id: &str, now: u64) -> (r: PacketResult<
        Vec<Action>,
    >)
        requires
            old(self).wf(),
        ensures
            final(self).wf(),
            packet@ matches crate::packet::PacketView::Publish(p) ==> {
                &&& (r is Err) == !p.wf()
                &&& (r is Err ==> final(self).spec_clients() == old(self).spec_clients()
                    && final(self).spec_topics() == old(self).spec_topics())
                &&& (r matches Ok(actions) ==> {
                    let start: int = if p.packet_id is Some {
                        1
                    } else {
                        0
                    };
                    let ds = crate::topic_handler::spec_deliveries(old(self).spec_topics().subs, p);
                    &&& (p.packet_id matches Some(pid) ==> actions@.len() >= 1 && (actions@[0]
                        matches Action::SendPuback(c, pb) && c@ == client_id@ && pb.packet_id
                        == pid))
                    &&& spec_dispatch_sound(actions@, start, ds, old(self).spec_clients().sessions)
                    &&& spec_dispatch_complete(
                        actions@,
                        start,
                        ds,
                        old(self).spec_clients().sessions,
                    )
                    &&& spec_dispatch_queued(
                        final(self).spec_clients().sessions,
                        ds,
                        old(self).spec_clients().sessions,
                    )
                    &&& final(self).spec_topics().subs == old(self).spec_topics().subs
                    &&& spec_sessions_frame(
                        final(self).spec_clients().sessions,
                        old(self).spec_clients().sessions,
                        ds.len() as int,
                    )
                    &&& (!p.retain ==> final(self).spec_topics().retained == old(
                        self,
                    ).spec_topics().retained)
                    &&& (p.retain && p.payload.len() == 0 ==> final(self).spec_topics().retained
                        == crate::topic_handler::spec_remove_retained(
                        old(self).spec_topics().retained,
                        p.topic,
                    ))
                    &&& (p.retain && p.payload.len() >= 1 ==> final(self).spec_topics().retained
                        == crate::topic_handler::spec_set_retained(
                        old(self).spec_topics().retained,
                        p.as_retained(),
                    ))
                })
            },
            packet@ matches crate::packet::PacketView::Subscribe(sub) ==> ((r is Err) == !(
            forall|j: int|
                0 <= j < sub.topics.len() ==> spec_valid_filter(
                    encode_utf8((#[trigger] sub.topics[j]).name),
                )) && (r matches Ok(actions) ==> {
                &&& actions@.len() >= 1
                &&& (actions@[0] matches Action::SendSuback(c, sb) && (c@ == client_id@
                    && sb@.packet_id == sub.packet_id && sb@.return_codes.len() == sub.topics.len()
                    && (forall|i: int|
                    0 <= i < sub.topics.len() ==> sb@.return_codes[i] == crate::qos::spec_qos_value(
                        (#[trigger] sub.topics[i]).qos,
                    ))))
                &&& final(self).spec_topics().subs == crate::topic_handler::spec_upsert_all(
                    old(self).spec_topics().subs,
                    client_id@,
                    sub.topics,
                )
                &&& final(self).spec_topics().retained == old(self).spec_topics().retained
                &&& spec_sessions_frame(
                    final(self).spec_clients().sessions,
                    old(self).spec_clients().sessions,
                    crate::topic_handler::spec_replays(
                        old(self).spec_topics().retained,
                        sub.topics,
                    ).len() as int,
                )
            })),
            packet@ matches crate::packet::PacketView::Unsubscribe(u) ==> (r matches Ok(actions)
                && {
                &&& actions@.len() == 1
                &&& (actions@[0] matches Action::SendUnsuback(c, ub) && (c@ == client_id@
                    && ub.packet_id == u.packet_id))
                &&& final(self).spec_topics().subs == crate::topic_handler::spec_remove_subs(
                    old(self).spec_topics().subs,
                    client_id@,
                    u.topic_filters,
                    false,
                )
                &&& final(self).spec_topics().retained == old(self).spec_topics().retained
            }),
            packet@ matches crate::packet::PacketView::PingReq(_) ==> (r matches Ok(actions) && (
            actions@.len() == 1 && (actions@[0] matches Action::SendPingResp(c, _) && c@
                == client_id@)) && *final(self) == *old(self)),
            packet@ matches crate::packet::PacketView::Puback(pb) ==> ((r is Ok) == (
            crate::clients_manager::spec_has_id(old(self).spec_clients().sessions, client_id@)
                && crate::session::spec_inflight_ids(
                spec_session_of(old(self).spec_clients().sessions, client_id@).inflight,
            ).contains(pb.packet_id))),
            (packet@ matches crate::packet::PacketView::Connect(_) || packet@ matches
                crate::packet::PacketView::Connack(_) || packet@ matches
                crate::packet::PacketView::Suback(_) || packet@ matches
                crate::packet::PacketView::Unsuback(_) || packet@ matches
                crate::packet::PacketView::PingResp(_)) ==> r is Err && *final(self) == *old(self),
    {
        match packet {
            Packet::PublishType(publish) => self.handle_publish(publish, client_id, now),
            Packet::PubackType(puback) => {
                match self.clients_manager.acknowledge(client_id, &puback) {
                    Ok(_) => Ok(Vec::new()),
                    Err(e) => Err(e),
                }
            },
            Packet::SubscribeType(subscribe) => self.handle_subscribe(subscribe, client_id, now),
            Packet::UnsubscribeType(unsubscribe) => {
                let unsuback = Unsuback::new(unsubscribe.packet_id());
                self.topic_handler.unsubscribe(&unsubscribe, client_id);
                let mut actions: Vec<Action> = Vec::new();
                actions.push(Action::SendUnsuback(client_id.to_owned(), unsuback));
                Ok(actions)
            },
            Packet::PingReqType(_) => {
                let mut actions: Vec<Action> = Vec::new();
                actions.push(Action::SendPingResp(client_id.to_owned(), PingResp::new()));
                Ok(actions)
            },
            Packet::DisconnectType(_) => {
                let actions = self.handle_disconnect(client_id, true, now);
                Ok(actions)
            },
            _ => Err(PacketError::new_kind(
                "unexpected packet type from a connected client",
                ErrorKind::InvalidProtocol,
            )),
        }
    }

    /// A publish from a client: acknowledge it when it asks for
    /// acknowledgement, fan it out to every matching subscription, and
    /// store or clear the retained message when the retain flag asks.
    #[verifier::rlimit(100)]
    #[verifier::spinoff_prover]
    fn handle_publish(&mut self, publish: Publish, client_id: &str, now: u64) -> (r: PacketResult<
        Vec<Action>,
    >)
        requires
            old(self).wf(),
        ensures
            final(self).wf(),
            (r is Err) == !publish@.wf(),
            r is Err ==> final(self).spec_clients() == old(self).spec_clients()
                && final(self).spec_topics() == old(self).spec_topics(),
            r matches Ok(actions) ==> {
                let start: int = if publish@.packet_id is Some {
                    1
                } else {
                    0
                };
                let ds = crate::topic_handler::spec_deliveries(
                    old(self).spec_topics().subs,
                    publish@,
                );
                &&& (publish@.packet_id matches Some(pid) ==> actions@.len() >= 1 && (actions@[0]
                    matches Action::SendPuback(c, pb) && c@ == client_id@ && pb.packet_id == pid))
                &&& spec_dispatch_sound(actions@, start, ds, old(self).spec_clients().sessions)
                &&& spec_dispatch_complete(actions@, start, ds, old(self).spec_clients().sessions)
                &&& spec_dispatch_queued(
                    final(self).spec_clients().sessions,
                    ds,
                    old(self).spec_clients().sessions,
                )
                &&& final(self).spec_topics().subs == old(self).spec_topics().subs
                &&& spec_sessions_frame(
                    final(self).spec_clients().sessions,
                    old(self).spec_clients().sessions,
                    ds.len() as int,
                )
                &&& (!publish@.retain ==> final(self).spec_topics().retained == old(
                    self,
                ).spec_topics().retained)
                &&& (publish@.retain && publish@.payload.len() == 0
                    ==> final(self).spec_topics().retained
                    == crate::topic_handler::spec_remove_retained(
                    old(self).spec_topics().retained,
                    publish@.topic,
                ))
                &&& (publish@.retain && publish@.payload.len() >= 1
                    ==> final(self).spec_topics().retained
                    == crate::topic_handler::spec_set_retained(
                    old(self).spec_topics().retained,
                    publish@.as_retained(),
                ))
            },
    {
        if !publish.check_wf() {
            return Err(PacketError::new_kind(
                "publish packet does not satisfy the protocol rules",
                ErrorKind::InvalidProtocol,
            ));
        }
        let mut actions: Vec<Action> = Vec::new();
        match publish.packet_id() {
            Some(pid) => {
                actions.push(Action::SendPuback(client_id.to_owned(), Puback::new(pid)));
            },
            None => (),
        }
        let ghost first = actions@;
        let ghost start: int = first.len() as int;
        let mut rest = self.broadcast_publish(&publish, now);
        let ghost rv = rest@;
        actions.append(&mut rest);
        proof {
            if publish@.packet_id is Some {
                assert(actions@[0] == first[0]);
            }
            let ds = crate::topic_handler::spec_deliveries(old(self).spec_topics().subs, publish@);
            let ss = old(self).spec_clients().sessions;
            assert forall|k: int|
                start <= k < actions@.len() implies spec_action_sound(
                #[trigger] actions@[k],
                ds,
                ss,
            ) by {
                assert(actions@[k] == rv[k - start]);
                assert(spec_action_sound(rv[k - start], ds, ss));
            };
            assert forall|j: int|
                (0 <= j < ds.len() && spec_client_connected(ss, (#[trigger] ds[j]).client_id)
                    && spec_session_of(ss, ds[j].client_id).inflight.len() + ds.len() <= 65535)
                    implies spec_delivered_in(actions@, start, ds[j]) by {
                assert(spec_delivered_in(rv, 0, ds[j]));
                let a = choose|a: int|
                    0 <= a < rv.len() && spec_action_delivers(#[trigger] rv[a], ds[j]);
                assert(actions@[a + start] == rv[a]);
                assert(spec_action_delivers(actions@[a + start], ds[j]));
            };
            assert(start == (if publish@.packet_id is Some { 1int } else { 0int }));
        }
        Ok(actions)
    }

    /// A subscribe from a client: check the filters, install them,
    /// acknowledge with the granted qualities of service, and replay
    /// the retained messages the new filters reach.
    #[verifier::loop_isolation(false)]
    #[verifier::rlimit(100)]
    #[verifier::spinoff_prover]
    fn handle_subscribe(&mut self, subscribe: Subscribe, client_id: &str, now: u64) -> (r:
        PacketResult<Vec<Action>>)
        requires
            old(self).wf(),
        ensures
            final(self).wf(),
            (r is Err) == !(forall|j: int|
                0 <= j < subscribe@.topics.len() ==> spec_valid_filter(
                    encode_utf8((#[trigger] subscribe@.topics[j]).name),
                )),
            r is Err ==> final(self).spec_clients() == old(self).spec_clients()
                && final(self).spec_topics() == old(self).spec_topics(),
            r matches Ok(actions) ==> {
                &&& actions@.len() >= 1
                &&& (actions@[0] matches Action::SendSuback(c, sb) && (c@ == client_id@
                    && sb@.packet_id == subscribe@.packet_id && sb@.return_codes.len()
                    == subscribe@.topics.len() && (forall|i: int|
                    0 <= i < subscribe@.topics.len() ==> sb@.return_codes[i]
                        == crate::qos::spec_qos_value((#[trigger] subscribe@.topics[i]).qos))))
                &&& final(self).spec_topics().subs == crate::topic_handler::spec_upsert_all(
                    old(self).spec_topics().subs,
                    client_id@,
                    subscribe@.topics,
                )
                &&& final(self).spec_topics().retained == old(self).spec_topics().retained
                &&& spec_sessions_frame(
                    final(self).spec_clients().sessions,
                    old(self).spec_clients().sessions,
                    crate::topic_handler::spec_replays(
                        old(self).spec_topics().retained,
                        subscribe@.topics,
                    ).len() as int,
                )
            },
    {
        let topics = subscribe.topics();
        let mut i: usize = 0;
        while i < topics.len()
            invariant
                self.wf(),
                i <= topics@.len(),
                topics.deep_view() == subscribe@.topics,
                forall|j: int|
                    0 <= j < i ==> spec_valid_filter(
                        encode_utf8((#[trigger] subscribe@.topics[j]).name),
                    ),
            decreases topics@.len() - i,
        {
            proof {
                assert(topics.deep_view()[i as int] == topics@[i as int]@);
            }
            if !is_valid_filter(topics[i].name()) {
                return Err(PacketError::new_kind(
                    "topic filter breaks the wildcard rules",
                    ErrorKind::InvalidProtocol,
                ));
            }
            i += 1;
        }
        let suback = subscribe.response();
        let mut actions: Vec<Action> = Vec::new();
        actions.push(Action::SendSuback(client_id.to_owned(), suback));
        let ghost first = actions@;
        let replays = self.topic_handler.subscribe(&subscribe, client_id);
        let ghost rv0 = replays.deep_view();
        let mut msgs: Vec<Message> = Vec::new();
        let mut replays = replays;
        while replays.len() > 0
            invariant
                msgs@.len() + replays@.len() == rv0.len(),
            decreases replays@.len(),
        {
            let p = replays.remove(0);
            msgs.push(Message { client_id: client_id.to_owned(), packet: p });
        }
        let mut rest = self.dispatch_messages(msgs, now);
        actions.append(&mut rest);
        proof {
            assert(actions@[0] == first[0]);
        }
        Ok(actions)
    }

    /// Ends a client's connection: gracefully on a Disconnect packet,
    /// where the will is discarded; ungracefully on a transport error
    /// or a keep-alive timeout, where the will fans out to matching
    /// subscribers. A clean session's subscriptions are scrubbed; a
    /// durable session stays, detached and without its will. The last
    /// action always closes the client's transport.
    #[verifier::rlimit(100)]
    #[verifier::spinoff_prover]
    pub fn handle_disconnect(&mut self, client_id: &str, gracefully: bool, now: u64) -> (r: Vec<
        Action,
    >)
        requires
            old(self).wf(),
        ensures
            final(self).wf(),
            r@.len() >= 1 && (r@[r@.len() - 1] matches Action::Close(c) && c@ == client_id@),
            gracefully ==> final(self).spec_topics().retained == old(self).spec_topics().retained
                && r@.len() == 1,
            !spec_has_id(old(self).spec_clients().sessions, client_id@)
                ==> final(self).spec_clients() == old(self).spec_clients()
                && final(self).spec_topics() == old(self).spec_topics() && r@.len() == 1,
            spec_has_id(old(self).spec_clients().sessions, client_id@) ==> {
                let jx = spec_index_of(old(self).spec_clients().sessions, client_id@);
                let old_sv = spec_session_of(old(self).spec_clients().sessions, client_id@);
                let dropped = old(self).spec_clients().sessions.remove(jx);
                let detached = old(self).spec_clients().sessions.update(
                    jx,
                    crate::session::SessionView { connected: false, last_will: None, ..old_sv },
                );
                &&& (old_sv.clean_session ==> !spec_has_id(
                    final(self).spec_clients().sessions,
                    client_id@,
                ) && final(self).spec_topics().subs == crate::topic_handler::spec_remove_subs(
                    old(self).spec_topics().subs,
                    client_id@,
                    Seq::empty(),
                    true,
                ))
                &&& (!old_sv.clean_session ==> spec_has_id(
                    final(self).spec_clients().sessions,
                    client_id@,
                ) && !spec_session_of(final(self).spec_clients().sessions, client_id@).connected
                    && spec_session_of(final(self).spec_clients().sessions, client_id@).last_will
                    is None && final(self).spec_topics().subs == old(self).spec_topics().subs)
                &&& ((gracefully || old_sv.last_will is None) ==> r@.len() == 1
                    && final(self).spec_topics().retained == old(self).spec_topics().retained
                    && (old_sv.clean_session ==> final(self).spec_clients().sessions == dropped)
                    && (!old_sv.clean_session ==> final(self).spec_clients().sessions == detached))
                &&& (!gracefully ==> (old_sv.last_will matches Some(w) ==> {
                    let wp = spec_will_publish(w);
                    let subs_at = if old_sv.clean_session {
                        crate::topic_handler::spec_remove_subs(
                            old(self).spec_topics().subs,
                            client_id@,
                            Seq::empty(),
                            true,
                        )
                    } else {
                        old(self).spec_topics().subs
                    };
                    let ds = crate::topic_handler::spec_deliveries(subs_at, wp);
                    &&& (!spec_will_ok(w) ==> r@.len() == 1 && final(self).spec_topics().retained
                        == old(self).spec_topics().retained)
                    &&& (spec_will_ok(w) ==> {
                        &&& spec_dispatch_sound(
                            r@.take(r@.len() - 1),
                            0,
                            ds,
                            final(self).spec_clients().sessions,
                        )
                        &&& spec_dispatch_complete(
                            r@.take(r@.len() - 1),
                            0,
                            ds,
                            final(self).spec_clients().sessions,
                        )
                        &&& (!wp.retain ==> final(self).spec_topics().retained
                            == old(self).spec_topics().retained)
                        &&& (wp.retain && wp.payload.len() == 0
                            ==> final(self).spec_topics().retained
                            == crate::topic_handler::spec_remove_retained(
                            old(self).spec_topics().retained,
                            wp.topic,
                        ))
                        &&& (wp.retain && wp.payload.len() >= 1
                            ==> final(self).spec_topics().retained
                            == crate::topic_handler::spec_set_retained(
                            old(self).spec_topics().retained,
                            wp.as_retained(),
                        ))
                    })
                }))
            },
    {
        let ghost ss0 = self.spec_clients().sessions;
        let ghost had = spec_has_id(ss0, client_id@);
        let ghost jx = spec_index_of(ss0, client_id@);
        let ghost old_sv = spec_session_of(ss0, client_id@);
        proof {
            if had {
                assert(ss0[jx].id == client_id@);
            }
        }
        let info = self.clients_manager.disconnect(client_id, gracefully);
        let mut actions: Vec<Action> = Vec::new();
        match info.clean_session_id {
            Some(id) => {
                self.topic_handler.remove_client(id.as_str());
            },
            None => (),
        }
        let ghost mid = self.spec_clients().sessions;
        proof {
            if had && old_sv.clean_session {
                assert forall|w: int|
                    0 <= w < mid.len() implies (#[trigger] mid[w]).id != client_id@ by {
                    if w < jx {
                        assert(mid[w] == ss0[w]);
                        assert(ss0[w].id != ss0[jx].id);
                    } else {
                        assert(mid[w] == ss0[w + 1]);
                        assert(ss0[w + 1].id != ss0[jx].id);
                    }
                };
                if spec_has_id(mid, client_id@) {
                    let w = choose|w: int|
                        0 <= w < mid.len() && (#[trigger] mid[w]).id == client_id@;
                }
            }
            if had && !old_sv.clean_session {
                assert(mid[jx].id == client_id@ && !mid[jx].connected && mid[jx].last_will
                    is None);
            }
        }
        match info.last_will {
            Some(w) => {
                let mut will_actions = self.send_last_will(w, now);
                proof {
                    let fin = self.spec_clients().sessions;
                    let ghost grow = crate::topic_handler::spec_deliveries(
                        self.spec_topics().subs,
                        spec_will_publish(w@),
                    ).len() as int;
                    if had && !old_sv.clean_session {
                        lemma_frame_session_of(fin, mid, grow, client_id@);
                    }
                    if spec_will_ok(w@) {
                        let ds = crate::topic_handler::spec_deliveries(
                            self.spec_topics().subs,
                            spec_will_publish(w@),
                        );
                        assert forall|k: int|
                            0 <= k < will_actions@.len() implies spec_action_sound(
                            #[trigger] will_actions@[k],
                            ds,
                            fin,
                        ) by {
                            assert(spec_action_sound(will_actions@[k], ds, mid));
                            let j = choose|j: int|
                                0 <= j < ds.len() && spec_action_delivers(
                                    will_actions@[k],
                                    #[trigger] ds[j],
                                ) && spec_client_connected(mid, ds[j].client_id);
                            lemma_frame_session_of(fin, mid, grow, ds[j].client_id);
                            assert(spec_client_connected(fin, ds[j].client_id));
                        };
                        assert forall|j: int|
                            (0 <= j < ds.len() && spec_client_connected(
                                fin,
                                (#[trigger] ds[j]).client_id,
                            ) && spec_session_of(fin, ds[j].client_id).inflight.len() + ds.len()
                                <= 65535) implies spec_delivered_in(will_actions@, 0, ds[j]) by {
                            lemma_frame_has_id(fin, mid);
                            lemma_frame_session_of(fin, mid, grow, ds[j].client_id);
                            assert(spec_client_connected(mid, ds[j].client_id));
                            assert(spec_session_of(mid, ds[j].client_id).inflight.len() + ds.len()
                                <= 65535);
                        };
                    }
                }
                actions.append(&mut will_actions);
            },
            None => (),
        }
        let ghost pre_close = actions@;
        actions.push(Action::Close(client_id.to_owned()));
        proof {
            assert(actions@.take(actions@.len() - 1) =~= pre_close);
        }
        actions
    }

    /// A read timeout on a client's transport: rewrite its overdue
    /// inflight publishes with the duplicate flag.
    #[verifier::loop_isolation(false)]
    pub fn handle_timeout(&mut self, client_id: &str, min_elapsed_ms: u64, now: u64) -> (r: Vec<
        Action,
    >)
        requires
            old(self).wf(),
        ensures
            final(self).wf(),
            !spec_has_id(old(self).spec_clients().sessions, client_id@) ==> r@.len() == 0
                && final(self).spec_clients() == old(self).spec_clients()
                && final(self).spec_topics() == old(self).spec_topics(),
            spec_has_id(old(self).spec_clients().sessions, client_id@) ==> {
                let resent = crate::session::spec_resent_out(
                    spec_session_of(old(self).spec_clients().sessions, client_id@).inflight,
                    min_elapsed_ms,
                    now,
                );
                &&& r@.len() == resent.len()
                &&& forall|i: int|
                    0 <= i < r@.len() ==> (#[trigger] r@[i] matches Action::SendPublish(m) && (
                    m.client_id@ == client_id@ && m.packet@ == resent[i]))
            },
    {
        let mut actions: Vec<Action> = Vec::new();
        let resends = match self.clients_manager.send_unacknowledged(client_id, min_elapsed_ms, now) {
            Some(v) => v,
            None => {
                return actions;
            },
        };
        let ghost rv = resends.deep_view();
        let mut resends = resends;
        let ghost mut k: int = 0;
        proof {
            assert(rv.skip(0) =~= rv);
        }
        while resends.len() > 0
            invariant
                self.wf(),
                0 <= k <= rv.len(),
                resends.deep_view() == rv.skip(k),
                actions@.len() == k,
                forall|i: int|
                    0 <= i < k ==> (#[trigger] actions@[i] matches Action::SendPublish(m) && (
                    m.client_id@ == client_id@ && m.packet@ == rv[i])),
            decreases resends@.len(),
        {
            proof {
                assert(rv.skip(k)[0] == rv[k]);
                assert(resends.deep_view()[0] == resends@[0]@);
            }
            let ghost prev = resends@;
            let p = resends.remove(0);
            proof {
                assert(resends@ =~= prev.subrange(1, prev.len() as int));
                assert forall|j: int|
                    0 <= j < resends@.len() implies resends.deep_view()[j] == rv.skip(k + 1)[j] by {
                    assert(resends@[j] == prev[j + 1]);
                    assert(resends.deep_view()[j] == resends@[j]@);
                    assert(rv.skip(k)[j + 1] == prev[j + 1]@);
                };
                assert(resends.deep_view() =~= rv.skip(k + 1));
            }
            actions.push(
                Action::SendPublish(Message { client_id: client_id.to_owned(), packet: p }),
            );
            proof {
                k = k + 1;
            }
        }
        proof {
            assert(rv.skip(k) =~= Seq::<crate::publish::PublishView>::empty());
        }
        actions
    }

    /// Stops serving: detaches every session, drops the clean ones and
    /// scrubs their subscriptions, and, when asked, publishes the
    /// wills of the connected ones. Every transport is already
    /// detached when the wills fan out, so no writes come back; the
    /// wills act on the retained store and the surviving sessions'
    /// queues.
    #[verifier::loop_isolation(false)]
    #[verifier::rlimit(100)]
    pub fn shutdown(&mut self, publish_lwt: bool, now: u64) -> (r: Vec<Action>)
        requires
            old(self).wf(),
        ensures
            final(self).wf(),
            final(self).spec_clients().accounts == old(self).spec_clients().accounts,
            spec_sessions_shape(
                final(self).spec_clients().sessions,
                crate::clients_manager::spec_shutdown_sessions(old(self).spec_clients().sessions),
            ),
            !publish_lwt ==> final(self).spec_clients().sessions
                == crate::clients_manager::spec_shutdown_sessions(old(self).spec_clients().sessions),
            final(self).spec_topics().subs == spec_scrub_all(
                old(self).spec_topics().subs,
                crate::clients_manager::spec_clean_ids(old(self).spec_clients().sessions),
            ),
            !publish_lwt ==> final(self).spec_topics().retained == old(
                self,
            ).spec_topics().retained,
            r@.len() == 0,
    {
        let ShutdownInfo { last_wills, clean_session_ids } = self.clients_manager.shutdown(
            publish_lwt,
        );
        let ghost detached = self.spec_clients().sessions;
        let ghost subs0 = self.spec_topics().subs;
        let ghost idv = clean_session_ids.deep_view();
        let mut ids = clean_session_ids;
        let ghost mut k: int = 0;
        proof {
            assert(idv.take(0) =~= Seq::<Seq<char>>::empty());
        }
        while ids.len() > 0
            invariant
                self.wf(),
                0 <= k <= idv.len(),
                ids.deep_view() == idv.skip(k),
                self.spec_clients().sessions == detached,
                self.spec_clients().accounts == old(self).spec_clients().accounts,
                self.spec_topics().retained == old(self).spec_topics().retained,
                self.spec_topics().subs == spec_scrub_all(subs0, idv.take(k)),
            decreases ids@.len(),
        {
            proof {
                assert(ids.deep_view()[0] == ids@[0]@);
                assert(idv.skip(k)[0] == idv[k]);
            }
            let ghost prev = ids@;
            let id = ids.remove(0);
            proof {
                assert(ids@ =~= prev.subrange(1, prev.len() as int));
                assert forall|j: int|
                    0 <= j < ids@.len() implies ids.deep_view()[j] == idv.skip(k + 1)[j] by {
                    assert(ids@[j] == prev[j + 1]);
                    assert(idv.skip(k)[j + 1] == prev[j + 1]@);
                };
                assert(ids.deep_view() =~= idv.skip(k + 1));
            }
            self.topic_handler.remove_client(id.as_str());
            proof {
                lemma_scrub_all_snoc(subs0, idv.take(k), idv[k]);
                assert(idv.take(k).push(idv[k]) =~= idv.take(k + 1));
                k = k + 1;
            }
        }
        proof {
            assert(idv.take(k) =~= idv);
        }
        let mut actions: Vec<Action> = Vec::new();
        let mut wills = last_wills;
        proof {
            lemma_shutdown_detached(old(self).spec_clients().sessions);
            assert(spec_sessions_shape(detached, detached));
        }
        while wills.len() > 0
            invariant
                self.wf(),
                actions@.len() == 0,
                self.spec_clients().accounts == old(self).spec_clients().accounts,
                spec_sessions_shape(self.spec_clients().sessions, detached),
                forall|i: int|
                    0 <= i < self.spec_clients().sessions.len() ==> !(
                    #[trigger] self.spec_clients().sessions[i]).connected,
                self.spec_topics().subs == spec_scrub_all(subs0, idv),
                !publish_lwt ==> wills@.len() == 0,
                !publish_lwt ==> self.spec_clients().sessions == detached
                    && self.spec_topics().retained == old(self).spec_topics().retained,
            decreases wills@.len(),
        {
            let ghost pre_ss = self.spec_clients().sessions;
            let w = wills.remove(0);
            let chunk = self.send_last_will(w, now);
            proof {
                // nobody is attached, so the will cannot owe a write
                assert(chunk@.len() == 0) by {
                    if chunk@.len() > 0 {
                        assert(spec_will_ok(w@));
                        let ds = crate::topic_handler::spec_deliveries(
                            spec_scrub_all(subs0, idv),
                            spec_will_publish(w@),
                        );
                        assert(spec_action_sound(chunk@[0], ds, pre_ss));
                        let j = choose|j: int|
                            0 <= j < ds.len() && spec_action_delivers(chunk@[0], #[trigger] ds[j])
                                && spec_client_connected(pre_ss, ds[j].client_id);
                        let ix = spec_index_of(pre_ss, ds[j].client_id);
                        assert(pre_ss[ix].id == ds[j].client_id);
                        assert(!pre_ss[ix].connected);
                        assert(spec_session_of(pre_ss, ds[j].client_id).connected);
                        assert(spec_session_of(pre_ss, ds[j].client_id) == pre_ss[ix]);
                    }
                };
                let fin = self.spec_clients().sessions;
                assert(spec_sessions_shape(fin, detached)) by {
                    assert forall|i: int|
                        0 <= i < detached.len() implies ((#[trigger] fin[i]).id == detached[i].id
                        && fin[i].connected == detached[i].connected && fin[i].clean_session
                        == detached[i].clean_session && fin[i].keep_alive == detached[i].keep_alive
                        && fin[i].last_will == detached[i].last_will && detached[i].inflight.len()
                        <= fin[i].inflight.len()) by {
                        assert(pre_ss[i].id == detached[i].id);
                    };
                };
            }
            let mut chunk = chunk;
            actions.append(&mut chunk);
        }
        actions
    }

    /// Restores one stored session after a restart, present but
    /// detached. An identifier already present is left alone.
    pub fn restore_session(
        &mut self,
        id: String,
        clean_session: bool,
        keep_alive: u16,
        last_will: Option<LastWill>,
    ) -> (r: bool)
        requires
            old(self).wf(),
            old(self).spec_clients().sessions.len() < 999999,
        ensures
            final(self).wf(),
            final(self).spec_topics() == old(self).spec_topics(),
            r == !spec_has_id(old(self).spec_clients().sessions, id@),
            !r ==> final(self).spec_clients() == old(self).spec_clients(),
            r ==> final(self).spec_clients().sessions == old(self).spec_clients().sessions.push(
                crate::session::SessionView {
                    id: id@,
                    clean_session,
                    keep_alive,
                    last_will: match last_will {
                        Some(w) => Some(w@),
                        None => None::<crate::connect::LastWillView>,
                    },
                    inflight: Seq::empty(),
                    next_packet_id: 1,
                    connected: false,
                },
            ),
    {
        self.clients_manager.restore_session(id, clean_session, keep_alive, last_will)
    }

    /// Reinstalls one stored subscription after a restart; nothing
    /// happens for a filter that breaks the wildcard rules.
    pub fn restore_subscription(&mut self, client_id: &str, filter: &str, qos: QoSLevel) -> (r:
        bool)
        requires
            old(self).wf(),
        ensures
            final(self).wf(),
            final(self).spec_clients() == old(self).spec_clients(),
            final(self).spec_topics().retained == old(self).spec_topics().retained,
            r == spec_valid_filter(encode_utf8(filter@)),
            r ==> final(self).spec_topics().subs == crate::topic_handler::spec_upsert_sub(
                old(self).spec_topics().subs,
                client_id@,
                crate::subscribe::TopicFilterView { name: filter@, qos },
            ),
            !r ==> final(self).spec_topics() == old(self).spec_topics(),
    {
        self.topic_handler.restore_subscription(client_id, filter, qos)
    }

    /// Re-stores one retained message after a restart; nothing happens
    /// for a packet that is not a well-formed retained publish with a
    /// payload.
    pub fn restore_retained(&mut self, packet: &Publish) -> (r: bool)
        requires
            old(self).wf(),
        ensures
            final(self).wf(),
            final(self).spec_clients() == old(self).spec_clients(),
            final(self).spec_topics().subs == old(self).spec_topics().subs,
            r == (packet@.wf() && packet@.retain && packet@.payload.len() >= 1),
            r ==> final(self).spec_topics().retained == crate::topic_handler::spec_set_retained(
                old(self).spec_topics().retained,
                packet@.as_retained(),
            ),
            !r ==> final(self).spec_topics() == old(self).spec_topics(),
    {
        if !packet.check_wf() || !packet.retain() || packet.payload().len() == 0 {
            return false;
        }
        let _ = self.topic_handler.publish(packet);
        true
    }

    /// Requeues one stored inflight publish of a client after a
    /// restart; it goes out again through the resend pass. Nothing
    /// happens without a session for the client, without a usable
    /// packet identifier, or with a full queue.
    pub fn restore_inflight(&mut self, client_id: &str, packet: Publish, now: u64) -> (r: bool)
        requires
            old(self).wf(),
        ensures
            final(self).wf(),
            final(self).spec_topics() == old(self).spec_topics(),
            r == (spec_has_id(old(self).spec_clients().sessions, client_id@)
                && packet@.packet_id is Some && packet@.packet_id->0 >= 1
                && !crate::session::spec_inflight_ids(
                spec_session_of(old(self).spec_clients().sessions, client_id@).inflight,
            ).contains(packet@.packet_id->0) && spec_session_of(
                old(self).spec_clients().sessions,
                client_id@,
            ).inflight.len() < 65535),
            !r ==> final(self).spec_clients() == old(self).spec_clients(),
            r ==> final(self).spec_clients().sessions == old(self).spec_clients().sessions.update(
                spec_index_of(old(self).spec_clients().sessions, client_id@),
                crate::session::SessionView {
                    inflight: spec_session_of(
                        old(self).spec_clients().sessions,
                        client_id@,
                    ).inflight.push(
                        crate::session::InflightView {
                            packet_id: packet@.packet_id->0,
                            packet: packet@,
                            last_send: now,
                        },
                    ),
                    ..spec_session_of(old(self).spec_clients().sessions, client_id@)
                },
            ),
    {
        self.clients_manager.restore_inflight(client_id, packet, now)
    }

    /// Publishes a will on a client's behalf: after a restart, every
    /// stored session ended ungracefully and its will is owed. The
    /// will fans out like any publish; a will whose topic is no
    /// acceptable topic name is dropped.
    pub fn publish_will(&mut self, will: LastWill, now: u64) -> (r: Vec<Action>)
        requires
            old(self).wf(),
        ensures
            final(self).wf(),
            final(self).spec_clients().accounts == old(self).spec_clients().accounts,
            final(self).spec_topics().subs == old(self).spec_topics().subs,
            spec_sessions_frame(
                final(self).spec_clients().sessions,
                old(self).spec_clients().sessions,
                crate::topic_handler::spec_deliveries(
                    old(self).spec_topics().subs,
                    spec_will_publish(will@),
                ).len() as int,
            ),
            !spec_will_ok(will@) ==> r@.len() == 0 && final(self).spec_clients() == old(
                self,
            ).spec_clients() && final(self).spec_topics() == old(self).spec_topics(),
            spec_will_ok(will@) ==> {
                let wp = spec_will_publish(will@);
                let ds = crate::topic_handler::spec_deliveries(old(self).spec_topics().subs, wp);
                &&& spec_dispatch_sound(r@, 0, ds, old(self).spec_clients().sessions)
                &&& spec_dispatch_complete(r@, 0, ds, old(self).spec_clients().sessions)
                &&& (!wp.retain ==> final(self).spec_topics().retained == old(
                    self,
                ).spec_topics().retained)
                &&& (wp.retain && wp.payload.len() == 0 ==> final(self).spec_topics().retained
                    == crate::topic_handler::spec_remove_retained(
                    old(self).spec_topics().retained,
                    wp.topic,
                ))
                &&& (wp.retain && wp.payload.len() >= 1 ==> final(self).spec_topics().retained
                    == crate::topic_handler::spec_set_retained(
                    old(self).spec_topics().retained,
                    wp.as_retained(),
                ))
            },
    {
        self.send_last_will(will, now)
    }

    /// Scrubs a client's subscriptions, as the end of a clean session
    /// does; used for the clean sessions of a prior run.
    pub fn scrub_client(&mut self, client_id: &str)
        requires
            old(self).wf(),
        ensures
            final(self).wf(),
            final(self).spec_clients() == old(self).spec_clients(),
            final(self).spec_topics().retained == old(self).spec_topics().retained,
            final(self).spec_topics().subs == crate::topic_handler::spec_remove_subs(
                old(self).spec_topics().subs,
                client_id@,
                Seq::empty(),
                true,
            ),
    {
        self.topic_handler.remove_client(client_id);
    }

    /// How many sessions exist.
    pub fn session_count(&self) -> (r: usize)
        ensures
            r == self.spec_clients().sessions.len(),
    {
        self.clients_manager.session_count()
    }

    /// The keep-alive of a session, for the caller's read timeouts.
    pub fn keep_alive_of(&self, client_id: &str) -> (r: Option<u16>)
        requires
            self.wf(),
        ensures
            (r is Some) == spec_has_id(self.spec_clients().sessions, client_id@),
            r matches Some(k) ==> k == spec_session_of(
                self.spec_clients().sessions,
                client_id@,
            ).keep_alive,
    {
        self.clients_manager.keep_alive_of(client_id)
    }

    /// The sessions to persist: identity, flags, will, and inflight
    /// publishes of each.
    pub fn export_sessions(&self) -> (r: Vec<crate::clients_manager::SessionSnapshot>)
        requires
            self.wf(),
        ensures
            r@.len() == self.spec_clients().sessions.len(),
            forall|i: int|
                0 <= i < r@.len() ==> {
                    let sv = #[trigger] self.spec_clients().sessions[i];
                    &&& r@[i].id@ == sv.id
                    &&& r@[i].clean_session == sv.clean_session
                    &&& r@[i].keep_alive == sv.keep_alive
                    &&& (r@[i].last_will is Some) == (sv.last_will is Some)
                    &&& (r@[i].last_will matches Some(w) ==> sv.last_will == Some(w@))
                    &&& r@[i].inflight.deep_view().len() == sv.inflight.len()
                    &&& (forall|m: int|
                        0 <= m < sv.inflight.len() ==> r@[i].inflight.deep_view()[m] == (
                        #[trigger] sv.inflight[m]).packet)
                },
    {
        self.clients_manager.export_sessions()
    }

    /// The subscriptions to persist.
    pub fn export_subscriptions(&self) -> (r: &Vec<crate::topic_handler::Subscription>)
        requires
            self.wf(),
        ensures
            r.deep_view() == self.spec_topics().subs,
    {
        self.topic_handler.subscriptions()
    }

    /// The retained messages to persist; each carries its topic.
    pub fn export_retained(&self) -> (r: Vec<Publish>)
        requires
            self.wf(),
        ensures
            r.deep_view().len() == self.spec_topics().retained.len(),
            forall|i: int|
                0 <= i < self.spec_topics().retained.len() ==> r.deep_view()[i] == (
                #[trigger] self.spec_topics().retained[i]).packet,
    {
        self.topic_handler.retained_packets()
    }
}

} // verus!
