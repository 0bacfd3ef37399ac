//! One client's session: identity, liveness, last will, and the
//! inflight QoS 1 publishes awaiting acknowledgement.

use vstd::prelude::*;
use vstd::seq_lib::*;
use vstd::set_lib::*;
use crate::connect::{LastWill, LastWillView};
use crate::errors::{ErrorKind, PacketError, PacketResult};
use crate::puback::Puback;
use crate::publish::{Publish, PublishView};
use crate::qos::QoSLevel;

verus! {

/// One publish sent at QoS 1 and not yet acknowledged.
struct Inflight {
    packet_id: u16,
    packet: Publish,
    last_send: u64,
}

/// The mathematical content of one inflight entry.
#[verifier::ext_equal]
pub ghost struct InflightView {
    pub packet_id: u16,
    pub packet: PublishView,
    pub last_send: u64,
}

impl View for Inflight {
    type V = InflightView;

    closed spec fn view(&self) -> InflightView {
        InflightView { packet_id: self.packet_id, packet: self.packet@, last_send: self.last_send }
    }
}

impl DeepView for Inflight {
    type V = InflightView;

    open spec fn deep_view(&self) -> InflightView {
        self.view()
    }
}

/// The packet identifiers of the inflight entries, in order.
pub open spec fn spec_inflight_ids(s: Seq<InflightView>) -> Seq<u16> {
    s.map_values(|e: InflightView| e.packet_id)
}

/// The inflight entries with the given identifier gone.
pub open spec fn spec_remove_inflight(s: Seq<InflightView>, id: u16) -> Seq<InflightView>
    decreases s.len(),
{
    if s.len() == 0 {
        Seq::empty()
    } else if s[0].packet_id == id {
        spec_remove_inflight(s.drop_first(), id)
    } else {
        seq![s[0]] + spec_remove_inflight(s.drop_first(), id)
    }
}

/// Whether an entry is due for a resend.
pub open spec fn spec_due(e: InflightView, min_elapsed_ms: u64, now: u64) -> bool {
    now >= e.last_send + min_elapsed_ms
}

/// The inflight entries after a resend pass: every due entry carries
/// its packet marked duplicate and the new send time.
pub open spec fn spec_resent_inflight(s: Seq<InflightView>, min_elapsed_ms: u64, now: u64) -> Seq<
    InflightView,
> {
    Seq::new(
        s.len(),
        |i: int|
            if spec_due(s[i], min_elapsed_ms, now) {
                InflightView {
                    packet_id: s[i].packet_id,
                    packet: PublishView { dup: true, ..s[i].packet },
                    last_send: now,
                }
            } else {
                s[i]
            },
    )
}

/// The packets a resend pass writes out: the due ones, marked
/// duplicate, in order.
pub open spec fn spec_resent_out(s: Seq<InflightView>, min_elapsed_ms: u64, now: u64) -> Seq<
    PublishView,
>
    decreases s.len(),
{
    if s.len() == 0 {
        Seq::empty()
    } else {
        let rest = spec_resent_out(s.drop_first(), min_elapsed_ms, now);
        if spec_due(s[0], min_elapsed_ms, now) {
            seq![PublishView { dup: true, ..s[0].packet }] + rest
        } else {
            rest
        }
    }
}

/// The mathematical content of a session.
#[verifier::ext_equal]
pub ghost struct SessionView {
    pub id: Seq<char>,
    pub clean_session: bool,
    pub keep_alive: u16,
    pub last_will: Option<LastWillView>,
    pub inflight: Seq<InflightView>,
    pub next_packet_id: u16,
    pub connected: bool,
}

impl SessionView {
    /// The invariants of a session: inflight packet identifiers are
    /// non-zero and unique, and the counter stays a valid identifier.
    pub open spec fn wf(&self) -> bool {
        &&& spec_inflight_ids(self.inflight).no_duplicates()
        &&& forall|i: int| 0 <= i < self.inflight.len() ==> (#[trigger] self.inflight[i]).packet_id >= 1
        &&& 1 <= self.next_packet_id <= 65535
    }
}

/// State carried for one client between its Connect and the end of its
/// session.
pub struct Session {
    id: String,
    clean_session: bool,
    keep_alive: u16,
    last_will: Option<LastWill>,
    inflight: Vec<Inflight>,
    next_packet_id: u16,
    connected: bool,
}

impl DeepView for Session {
    type V = SessionView;

    open spec fn deep_view(&self) -> SessionView {
        self.view()
    }
}

impl View for Session {
    type V = SessionView;

    closed spec fn view(&self) -> SessionView {
        SessionView {
            id: self.id@,
            clean_session: self.clean_session,
            keep_alive: self.keep_alive,
            last_will: match self.last_will {
                Some(w) => Some(w@),
                None => None,
            },
            inflight: self.inflight.deep_view(),
            next_packet_id: self.next_packet_id,
            connected: self.connected,
        }
    }
}

/// Fewer than 65535 distinct identifiers leave some identifier free.
proof fn lemma_free_id_exists(ids: Seq<u16>)
    requires
        ids.no_duplicates(),
        ids.len() < 65535,
    ensures
        exists|v: u16| 1 <= v <= 65535 && !ids.contains(v),
{
    broadcast use vstd::set::group_set_axioms;

    if forall|v: u16| 1 <= v <= 65535 ==> #[trigger] ids.contains(v) {
        let cands: Seq<u16> = Seq::new(65535, |i: int| (i + 1) as u16);
        assert(cands.no_duplicates()) by {
            assert(forall|i: int, j: int|
                0 <= i < j < 65535 ==> #[trigger] cands[i] != #[trigger] cands[j]);
        };
        cands.unique_seq_to_set();
        ids.unique_seq_to_set();
        assert(cands.to_set().subset_of(ids.to_set())) by {
            assert forall|v: u16| cands.to_set().contains(v) implies ids.to_set().contains(v) by {
                assert(cands.contains(v));
                let i = choose|i: int| 0 <= i < cands.len() && cands[i] == v;
                assert(1 <= v <= 65535);
                assert(ids.contains(v));
            };
        };
        lemma_len_subset(cands.to_set(), ids.to_set());
    }
}

impl Session {
    /// A fresh, connected session with nothing inflight.
    pub fn new(id: String, clean_session: bool, keep_alive: u16, last_will: Option<LastWill>) -> (r:
        Session)
        ensures
            r@.id == id@,
            r@.clean_session == clean_session,
            r@.keep_alive == keep_alive,
            r@.last_will == (match last_will {
                Some(w) => Some(w@),
                None => None::<LastWillView>,
            }),
            r@.inflight.len() == 0,
            r@.next_packet_id == 1,
            r@.connected,
            r@.wf(),
    {
        let r = Session {
            id,
            clean_session,
            keep_alive,
            last_will,
            inflight: Vec::new(),
            next_packet_id: 1,
            connected: true,
        };
        proof {
            assert(r@.inflight =~= Seq::<InflightView>::empty());
            assert(spec_inflight_ids(r@.inflight) =~= Seq::<u16>::empty());
        }
        r
    }

    /// The old session resumed by a new connection: identity and
    /// inflight queue carry over; the transport, keep-alive, and last
    /// will are the new connection's.
    pub fn resumed(old_session: Session, keep_alive: u16, last_will: Option<LastWill>) -> (r:
        Session)
        requires
            old_session@.wf(),
        ensures
            r@ == (SessionView {
                keep_alive,
                last_will: match last_will {
                    Some(w) => Some(w@),
                    None => None::<LastWillView>,
                },
                connected: true,
                ..old_session@
            }),
            r@.wf(),
    {
        let mut s = old_session;
        s.keep_alive = keep_alive;
        s.last_will = last_will;
        s.connected = true;
        s
    }

    /// How many publishes are inflight.
    pub fn inflight_count(&self) -> (r: usize)
        ensures
            r == self@.inflight.len(),
    {
        self.inflight.len()
    }

    /// The client identifier.
    pub fn id(&self) -> (r: &str)
        ensures
            r@ == self@.id,
    {
        self.id.as_str()
    }

    /// Whether the session is ephemeral.
    pub fn clean_session(&self) -> (r: bool)
        ensures
            r == self@.clean_session,
    {
        self.clean_session
    }

    /// The keep-alive the client declared, in seconds; 0 means none.
    pub fn keep_alive(&self) -> (r: u16)
        ensures
            r == self@.keep_alive,
    {
        self.keep_alive
    }

    /// Whether a transport is attached.
    pub fn connected(&self) -> (r: bool)
        ensures
            r == self@.connected,
    {
        self.connected
    }

    /// The inflight publishes, each carrying its packet identifier,
    /// for persistence.
    #[verifier::loop_isolation(false)]
    pub fn export_inflight(&self) -> (r: Vec<Publish>)
        ensures
            r.deep_view().len() == self@.inflight.len(),
            forall|i: int|
                0 <= i < self@.inflight.len() ==> r.deep_view()[i] == (
                #[trigger] self@.inflight[i]).packet,
    {
        let mut r: Vec<Publish> = Vec::new();
        let mut i: usize = 0;
        while i < self.inflight.len()
            invariant
                i <= self.inflight@.len(),
                r.deep_view().len() == i,
                forall|j: int|
                    0 <= j < i ==> r.deep_view()[j] == (#[trigger] self@.inflight[j]).packet,
            decreases self.inflight@.len() - i,
        {
            r.push(self.inflight[i].packet.duplicate());
            i += 1;
        }
        r
    }

    /// Requeues one stored inflight publish after a restart. Nothing
    /// happens, and false comes back, for a packet without a non-zero
    /// identifier, an identifier already inflight, or a full queue.
    pub fn restore_inflight(&mut self, packet: Publish, now: u64) -> (r: bool)
        requires
            old(self)@.wf(),
        ensures
            final(self)@.wf(),
            r == (packet@.packet_id is Some && packet@.packet_id->0 >= 1 && !spec_inflight_ids(
                old(self)@.inflight,
            ).contains(packet@.packet_id->0) && old(self)@.inflight.len() < 65535),
            !r ==> *final(self) == *old(self),
            r ==> (packet@.packet_id matches Some(pid) && pid >= 1 && !spec_inflight_ids(
                old(self)@.inflight,
            ).contains(pid) && final(self)@ == (SessionView {
                inflight: old(self)@.inflight.push(
                    InflightView { packet_id: pid, packet: packet@, last_send: now },
                ),
                ..old(self)@
            })),
    {
        let id = match packet.packet_id() {
            Some(id) => id,
            None => {
                return false;
            },
        };
        if id == 0 || self.has_inflight_id(id) || self.inflight.len() >= 65535 {
            return false;
        }
        let ghost pre = self@.inflight;
        let entry = Inflight { packet_id: id, packet, last_send: now };
        self.inflight.push(entry);
        proof {
            assert(self@.inflight =~= pre.push(
                InflightView { packet_id: id, packet: entry.packet@, last_send: now },
            ));
            assert(spec_inflight_ids(self@.inflight) =~= spec_inflight_ids(pre).push(id));
            assert forall|j: int|
                0 <= j < spec_inflight_ids(pre).len() implies #[trigger] spec_inflight_ids(
                pre,
            )[j] != id by {
                if spec_inflight_ids(pre)[j] == id {
                    assert(spec_inflight_ids(pre).contains(id));
                }
            };
            assert(spec_inflight_ids(self@.inflight).no_duplicates());
        }
        true
    }

    /// A copy of the last will, for persistence.
    pub fn last_will_copy(&self) -> (r: Option<LastWill>)
        ensures
            (r is Some) == (self@.last_will is Some),
            r matches Some(w) ==> self@.last_will == Some(w@),
    {
        match &self.last_will {
            Some(w) => Some(
                LastWill {
                    retain: w.retain,
                    qos: w.qos,
                    topic: w.topic.clone(),
                    message: w.message.clone(),
                },
            ),
            None => None,
        }
    }

    /// Attaches or detaches the transport.
    pub fn set_connected(&mut self, connected: bool)
        ensures
            final(self)@ == (SessionView { connected, ..old(self)@ }),
    {
        self.connected = connected;
    }

    /// Replaces the last will.
    pub fn set_last_will(&mut self, last_will: Option<LastWill>)
        ensures
            final(self)@ == (SessionView {
                last_will: match last_will {
                    Some(w) => Some(w@),
                    None => None::<LastWillView>,
                },
                ..old(self)@
            }),
    {
        self.last_will = last_will;
    }

    /// Replaces the keep-alive.
    pub fn set_keep_alive(&mut self, keep_alive: u16)
        ensures
            final(self)@ == (SessionView { keep_alive, ..old(self)@ }),
    {
        self.keep_alive = keep_alive;
    }

    /// Takes the last will, leaving none.
    pub fn take_last_will(&mut self) -> (r: Option<LastWill>)
        ensures
            final(self)@ == (SessionView { last_will: None, ..old(self)@ }),
            (r is Some) == (old(self)@.last_will is Some),
            r matches Some(w) ==> old(self)@.last_will == Some(w@),
    {
        self.last_will.take()
    }

    /// Whether some inflight entry carries this identifier.
    fn has_inflight_id(&self, id: u16) -> (r: bool)
        ensures
            r == spec_inflight_ids(self@.inflight).contains(id),
    {
        let ghost ids = spec_inflight_ids(self@.inflight);
        let mut i: usize = 0;
        while i < self.inflight.len()
            invariant
                i <= self.inflight@.len(),
                ids == spec_inflight_ids(self@.inflight),
                ids.len() == self.inflight@.len(),
                forall|j: int| 0 <= j < i ==> ids[j] != id,
            decreases self.inflight@.len() - i,
        {
            if self.inflight[i].packet_id == id {
                proof {
                    assert(ids[i as int] == id);
                }
                return true;
            }
            i += 1;
        }
        proof {
            if ids.contains(id) {
                let j = choose|j: int| 0 <= j < ids.len() && ids[j] == id;
                assert(ids[j] != id);
            }
        }
        false
    }

    /// A packet identifier no inflight entry carries, searched upward
    /// from the counter with wrap-around.
    #[verifier::loop_isolation(false)]
    fn find_free_id(&self) -> (r: u16)
        requires
            self@.wf(),
            self@.inflight.len() < 65535,
        ensures
            1 <= r <= 65535,
            !spec_inflight_ids(self@.inflight).contains(r),
    {
        let ghost ids = spec_inflight_ids(self@.inflight);
        let start: u16 = self.next_packet_id;
        let mut cand: u16 = start;
        let mut steps: u32 = 0;
        while steps < 65535
            invariant
                1 <= cand <= 65535,
                steps <= 65535,
                (steps == 0 && cand == start) || (steps >= 1 && spec_wrap_dist(start, cand)
                    == steps as int),
                forall|v: u16|
                    1 <= v <= 65535 && spec_wrap_dist(start, v) <= steps as int ==> ids.contains(v),
            decreases 65535 - steps,
        {
            let next = if cand == 65535 {
                1
            } else {
                cand + 1
            };
            proof {
                assert(spec_wrap_dist(start, next) == steps as int + 1);
            }
            if !self.has_inflight_id(next) {
                return next;
            }
            proof {
                assert forall|v: u16|
                    1 <= v <= 65535 && spec_wrap_dist(start, v) <= steps as int + 1 implies ids.contains(
                    v) by {
                    if spec_wrap_dist(start, v) == steps as int + 1 {
                        assert(v == next);
                    }
                };
            }
            cand = next;
            steps += 1;
        }
        proof {
            assert forall|v: u16| 1 <= v <= 65535 implies ids.contains(v) by {
                assert(1 <= spec_wrap_dist(start, v) <= 65535);
            };
            assert(ids.no_duplicates());
            assert(ids.len() < 65535);
            lemma_free_id_exists(ids);
            let free = choose|v: u16| 1 <= v <= 65535 && !ids.contains(v);
            assert(ids.contains(free));
        }
        1
    }

    /// Prepares a publish for this client's transport. A QoS 0 packet
    /// goes out as it is, with the duplicate flag cleared and no
    /// identifier. A QoS 1 packet is given a fresh identifier and
    /// enqueued as inflight until its Puback arrives.
    pub fn send_publish(&mut self, packet: &Publish, now: u64) -> (r: Publish)
        requires
            old(self)@.wf(),
            old(self)@.inflight.len() < 65535,
        ensures
            final(self)@.wf(),
            packet@.qos == QoSLevel::QoSLevel0 ==> {
                &&& r@ == (PublishView { dup: false, packet_id: None, ..packet@ })
                &&& *final(self) == *old(self)
            },
            packet@.qos == QoSLevel::QoSLevel1 ==> {
                &&& r@ == (PublishView {
                    dup: false,
                    packet_id: Some(final(self)@.next_packet_id),
                    ..packet@
                })
                &&& !spec_inflight_ids(old(self)@.inflight).contains(final(self)@.next_packet_id)
                &&& final(self)@.inflight == old(self)@.inflight.push(
                    InflightView { packet_id: final(self)@.next_packet_id, packet: r@, last_send: now },
                )
                &&& final(self)@ == (SessionView {
                    inflight: final(self)@.inflight,
                    next_packet_id: final(self)@.next_packet_id,
                    ..old(self)@
                })
            },
    {
        match packet.qos() {
            QoSLevel::QoSLevel0 => {
                Publish::make(
                    false,
                    QoSLevel::QoSLevel0,
                    packet.retain(),
                    packet.topic_name().to_owned(),
                    None,
                    vstd::slice::slice_to_vec(packet.payload().as_slice()),
                )
            },
            QoSLevel::QoSLevel1 => {
                let id = self.find_free_id();
                let out = Publish::make(
                    false,
                    QoSLevel::QoSLevel1,
                    packet.retain(),
                    packet.topic_name().to_owned(),
                    Some(id),
                    vstd::slice::slice_to_vec(packet.payload().as_slice()),
                );
                let entry = Inflight { packet_id: id, packet: out.duplicate(), last_send: now };
                let ghost pre = self@.inflight;
                self.inflight.push(entry);
                self.next_packet_id = id;
                proof {
                    assert(self@.inflight =~= pre.push(
                        InflightView { packet_id: id, packet: out@, last_send: now },
                    ));
                    assert(spec_inflight_ids(self@.inflight) =~= spec_inflight_ids(pre).push(id));
                    assert forall|j: int|
                        0 <= j < spec_inflight_ids(pre).len() implies #[trigger] spec_inflight_ids(
                        pre,
                    )[j] != id by {
                        if spec_inflight_ids(pre)[j] == id {
                            assert(spec_inflight_ids(pre).contains(id));
                        }
                    };
                    assert(spec_inflight_ids(self@.inflight).no_duplicates());
                }
                out
            },
        }
    }

    /// Settles the inflight publish a Puback acknowledges; it is a
    /// protocol violation if none carries its identifier.
    pub fn acknowledge(&mut self, puback: &Puback) -> (r: PacketResult<()>)
        requires
            old(self)@.wf(),
        ensures
            final(self)@.wf(),
            match r {
                Ok(_) => {
                    &&& spec_inflight_ids(old(self)@.inflight).contains(puback.packet_id)
                    &&& final(self)@ == (SessionView {
                        inflight: spec_remove_inflight(old(self)@.inflight, puback.packet_id),
                        ..old(self)@
                    })
                },
                Err(e) => {
                    &&& !spec_inflight_ids(old(self)@.inflight).contains(puback.packet_id)
                    &&& e.kind == ErrorKind::InvalidProtocol
                    &&& *final(self) == *old(self)
                },
            },
    {
        let id = puback.packet_id();
        if !self.has_inflight_id(id) {
            return Err(PacketError::new_kind(
                "Puback for a packet identifier that is not inflight",
                ErrorKind::InvalidProtocol,
            ));
        }
        let ghost s0 = self@.inflight;
        let mut kept: Vec<Inflight> = Vec::new();
        let mut i: usize = 0;
        proof {
            assert(kept.deep_view() =~= Seq::<InflightView>::empty());
            assert(s0.skip(0) =~= s0);
        }
        while i < self.inflight.len()
            invariant
                i <= self.inflight@.len(),
                self@.inflight == s0,
                kept.deep_view() + spec_remove_inflight(s0.skip(i as int), id) == spec_remove_inflight(
                    s0,
                    id,
                ),
            decreases self.inflight@.len() - i,
        {
            let ghost pre = kept.deep_view();
            proof {
                assert(s0.skip(i as int)[0] == s0[i as int]);
                assert(s0.skip(i as int).drop_first() =~= s0.skip(i as int + 1));
            }
            if self.inflight[i].packet_id != id {
                let entry = Inflight {
                    packet_id: self.inflight[i].packet_id,
                    packet: self.inflight[i].packet.duplicate(),
                    last_send: self.inflight[i].last_send,
                };
                kept.push(entry);
                proof {
                    assert(kept.deep_view() =~= pre.push(s0[i as int]));
                    assert(pre.push(s0[i as int]) + spec_remove_inflight(s0.skip(i as int + 1), id)
                        =~= pre + spec_remove_inflight(s0.skip(i as int), id));
                }
            }
            i += 1;
        }
        proof {
            assert(s0.skip(self.inflight@.len() as int) =~= Seq::<InflightView>::empty());
            assert(kept.deep_view() + Seq::<InflightView>::empty() =~= kept.deep_view());
        }
        self.inflight = kept;
        proof {
            lemma_remove_inflight_wf(s0, id);
        }
        Ok(())
    }

    /// The inflight publishes due for another send: older than the
    /// given elapsed time, rewritten with the duplicate flag, and
    /// stamped with the new send time.
    #[verifier::loop_isolation(false)]
    pub fn send_unacknowledged(&mut self, min_elapsed_ms: u64, now: u64) -> (r: Vec<Publish>)
        requires
            old(self)@.wf(),
        ensures
            final(self)@.wf(),
            final(self)@ == (SessionView {
                inflight: spec_resent_inflight(old(self)@.inflight, min_elapsed_ms, now),
                ..old(self)@
            }),
            r.deep_view() == spec_resent_out(old(self)@.inflight, min_elapsed_ms, now),
    {
        let ghost s0 = self@.inflight;
        let mut out: Vec<Publish> = Vec::new();
        let mut i: usize = 0;
        proof {
            assert(out.deep_view() =~= Seq::<PublishView>::empty());
            assert(s0.skip(0) =~= s0);
        }
        while i < self.inflight.len()
            invariant
                i <= self.inflight@.len(),
                self.inflight@.len() == s0.len(),
                self@ == (SessionView { inflight: self@.inflight, ..old(self)@ }),
                forall|j: int|
                    i <= j < s0.len() ==> self@.inflight[j] == s0[j],
                forall|j: int|
                    0 <= j < i ==> self@.inflight[j] == spec_resent_inflight(
                        s0,
                        min_elapsed_ms,
                        now,
                    )[j],
                out.deep_view() + spec_resent_out(s0.skip(i as int), min_elapsed_ms, now)
                    == spec_resent_out(s0, min_elapsed_ms, now),
            decreases self.inflight@.len() - i,
        {
            let ghost pre = out.deep_view();
            proof {
                assert(s0.skip(i as int)[0] == s0[i as int]);
                assert(s0.skip(i as int).drop_first() =~= s0.skip(i as int + 1));
            }
            let due = now >= min_elapsed_ms && self.inflight[i].last_send <= now - min_elapsed_ms;
            proof {
                assert(due == spec_due(s0[i as int], min_elapsed_ms, now));
            }
            if due {
                let mut resent = self.inflight[i].packet.duplicate();
                resent.set_dup(true);
                let entry = Inflight {
                    packet_id: self.inflight[i].packet_id,
                    packet: resent.duplicate(),
                    last_send: now,
                };
                let ghost cur = self@.inflight;
                let ghost ev = InflightView {
                    packet_id: s0[i as int].packet_id,
                    packet: PublishView { dup: true, ..s0[i as int].packet },
                    last_send: now,
                };
                self.inflight.remove(i);
                self.inflight.insert(i, entry);
                out.push(resent);
                proof {
                    assert(self@.inflight =~= cur.update(i as int, ev));
                    assert(out.deep_view() =~= pre.push(
                        PublishView { dup: true, ..s0[i as int].packet },
                    ));
                    assert(pre.push(PublishView { dup: true, ..s0[i as int].packet })
                        + spec_resent_out(s0.skip(i as int + 1), min_elapsed_ms, now) =~= pre
                        + spec_resent_out(s0.skip(i as int), min_elapsed_ms, now));
                    assert(forall|j: int|
                        i < j < s0.len() ==> self@.inflight[j] == s0[j]);
                }
            }
            i += 1;
        }
        proof {
            assert(s0.skip(s0.len() as int) =~= Seq::<InflightView>::empty());
            assert(spec_resent_out(s0.skip(s0.len() as int), min_elapsed_ms, now)
                =~= Seq::<PublishView>::empty());
            assert(out.deep_view() + Seq::<PublishView>::empty() =~= out.deep_view());
            assert(self@.inflight =~= spec_resent_inflight(s0, min_elapsed_ms, now));
            assert(spec_inflight_ids(self@.inflight) =~= spec_inflight_ids(s0));
        }
        out
    }
}

/// How many upward wrap-around steps lead from `start` to `v`, both in
/// the identifier range; `start` itself lies 65535 steps away.
pub open spec fn spec_wrap_dist(start: u16, v: u16) -> int {
    if v > start {
        v - start
    } else {
        v - start + 65535
    }
}

/// Removing an identifier keeps the identifiers unique and non-zero.
proof fn lemma_remove_inflight_wf(s: Seq<InflightView>, id: u16)
    requires
        spec_inflight_ids(s).no_duplicates(),
        forall|i: int| 0 <= i < s.len() ==> (#[trigger] s[i]).packet_id >= 1,
    ensures
        spec_inflight_ids(spec_remove_inflight(s, id)).no_duplicates(),
        forall|i: int|
            0 <= i < spec_remove_inflight(s, id).len() ==> (#[trigger] spec_remove_inflight(
                s,
                id,
            )[i]).packet_id >= 1,
    decreases s.len(),
{
    if s.len() > 0 {
        let rest = s.drop_first();
        assert(spec_inflight_ids(rest).no_duplicates()) by {
            assert(forall|i: int|
                0 <= i < rest.len() ==> #[trigger] spec_inflight_ids(rest)[i] == spec_inflight_ids(
                    s,
                )[i + 1]);
        };
        assert(forall|i: int| 0 <= i < rest.len() ==> (#[trigger] rest[i]).packet_id >= 1);
        lemma_remove_inflight_wf(rest, id);
        if s[0].packet_id != id {
            let out = spec_remove_inflight(s, id);
            let outr = spec_remove_inflight(rest, id);
            assert(out == seq![s[0]] + outr);
            lemma_remove_inflight_sub(rest, id);
            assert forall|i: int, j: int|
                0 <= i < j < spec_inflight_ids(out).len() implies spec_inflight_ids(out)[i]
                != spec_inflight_ids(out)[j] by {
                if i == 0 {
                    lemma_remove_inflight_sub(rest, id);
                    assert(spec_inflight_ids(out)[j] == outr[j - 1].packet_id);
                    let k = choose|k: int|
                        0 <= k < rest.len() && rest[k].packet_id == outr[j - 1].packet_id;
                    assert(s[k + 1] == rest[k]);
                    assert(spec_inflight_ids(s)[0] == s[0].packet_id);
                    assert(spec_inflight_ids(s)[k + 1] == s[k + 1].packet_id);
                    assert(spec_inflight_ids(s)[0] != spec_inflight_ids(s)[k + 1]);
                } else {
                    assert(spec_inflight_ids(out)[i] == spec_inflight_ids(outr)[i - 1]);
                    assert(spec_inflight_ids(out)[j] == spec_inflight_ids(outr)[j - 1]);
                }
            };
        }
    }
}

/// Every identifier kept by a removal was inflight before it.
proof fn lemma_remove_inflight_sub(s: Seq<InflightView>, id: u16)
    ensures
        forall|i: int|
            0 <= i < spec_remove_inflight(s, id).len() ==> exists|k: int|
                0 <= k < s.len() && s[k].packet_id == (#[trigger] spec_remove_inflight(
                    s,
                    id,
                )[i]).packet_id,
    decreases s.len(),
{
    if s.len() > 0 {
        let rest = s.drop_first();
        lemma_remove_inflight_sub(rest, id);
        let out = spec_remove_inflight(s, id);
        let outr = spec_remove_inflight(rest, id);
        assert forall|i: int|
            0 <= i < out.len() implies exists|k: int|
                0 <= k < s.len() && s[k].packet_id == (#[trigger] out[i]).packet_id by {
            if s[0].packet_id == id {
                assert(out[i] == outr[i]);
                let k = choose|k: int|
                    0 <= k < rest.len() && rest[k].packet_id == outr[i].packet_id;
                assert(s[k + 1].packet_id == out[i].packet_id);
            } else if i == 0 {
                assert(s[0].packet_id == out[0].packet_id);
            } else {
                assert(out[i] == outr[i - 1]);
                let k = choose|k: int|
                    0 <= k < rest.len() && rest[k].packet_id == outr[i - 1].packet_id;
                assert(s[k + 1].packet_id == out[i].packet_id);
            }
        };
    }
}

} // verus!
