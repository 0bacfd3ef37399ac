//! The clients manager: the set of sessions, keyed by client
//! identifier, with authentication, take-over, and disconnection.
//!
//! Its central invariant is that at most one session exists per client
//! identifier, whatever interleaving of connect and disconnect events
//! produced the current state: every operation here both requires and
//! re-establishes `ClientsManagerView::wf`.

use vstd::prelude::*;
use vstd::seq_lib::*;
use vstd::set_lib::*;
use vstd::string::StringExecFns;
use crate::connect::{Connect, LastWill, LastWillView};
use crate::errors::PacketResult;
use crate::puback::Puback;
use crate::publish::{Publish, PublishView};
use crate::session::{spec_inflight_ids, InflightView, Session, SessionView};
use crate::utf8::str_eq;

verus! {

/// One user the broker accepts.
#[derive(Debug)]
pub struct Account {
    pub user: String,
    pub password: String,
}

/// The mathematical content of one account.
pub ghost struct AccountView {
    pub user: Seq<char>,
    pub password: Seq<char>,
}

impl View for Account {
    type V = AccountView;

    open spec fn view(&self) -> AccountView {
        AccountView { user: self.user@, password: self.password@ }
    }
}

impl DeepView for Account {
    type V = AccountView;

    open spec fn deep_view(&self) -> AccountView {
        self.view()
    }
}

/// What a successful connect decided.
#[derive(Debug)]
pub struct ConnectInfo {
    /// The session's identifier, server-generated when the client sent
    /// an empty one.
    pub id: String,
    /// Whether a stored session was resumed.
    pub session_present: bool,
    /// The last will of a connected session that was taken over, owed
    /// a publication.
    pub takeover_last_will: Option<LastWill>,
}

/// What a disconnect decided.
#[derive(Debug)]
pub struct DisconnectInfo {
    /// The last will to publish, present only after an ungraceful
    /// disconnect of a session that had one.
    pub last_will: Option<LastWill>,
    /// The identifier to scrub from the topic handler, present only
    /// when a clean session ended.
    pub clean_session_id: Option<String>,
}

/// The mathematical content of the clients manager.
pub ghost struct ClientsManagerView {
    pub sessions: Seq<SessionView>,
    pub accounts: Option<Seq<AccountView>>,
}

/// Whether some session carries this identifier.
pub open spec fn spec_has_id(ss: Seq<SessionView>, id: Seq<char>) -> bool {
    exists|i: int| 0 <= i < ss.len() && (#[trigger] ss[i]).id == id
}

/// Whether the credentials pass: always when no accounts are
/// configured, else exactly when the pair is one of them.
pub open spec fn spec_auth_ok(
    accounts: Option<Seq<AccountView>>,
    user: Option<Seq<char>>,
    password: Option<Seq<char>>,
) -> bool {
    match accounts {
        None => true,
        Some(accs) => match (user, password) {
            (Some(u), Some(p)) => exists|k: int|
                0 <= k < accs.len() && (#[trigger] accs[k]).user == u && accs[k].password == p,
            _ => false,
        },
    }
}

impl ClientsManagerView {
    /// At most one session per client identifier, each internally
    /// consistent.
    pub open spec fn wf(&self) -> bool {
        &&& forall|i: int, j: int|
            0 <= i < j < self.sessions.len() ==> (#[trigger] self.sessions[i]).id != (
            #[trigger] self.sessions[j]).id
        &&& forall|i: int| 0 <= i < self.sessions.len() ==> (#[trigger] self.sessions[i]).wf()
    }
}

/// The position of the session with this identifier; meaningful only
/// when one exists.
pub open spec fn spec_index_of(ss: Seq<SessionView>, id: Seq<char>) -> int {
    choose|i: int| 0 <= i < ss.len() && (#[trigger] ss[i]).id == id
}

/// The session with this identifier; meaningful only when one exists.
pub open spec fn spec_session_of(ss: Seq<SessionView>, id: Seq<char>) -> SessionView {
    ss[spec_index_of(ss, id)]
}

/// The sessions left by a shutdown: clean sessions gone, the rest
/// detached with their wills taken.
pub open spec fn spec_shutdown_sessions(ss: Seq<SessionView>) -> Seq<SessionView>
    decreases ss.len(),
{
    if ss.len() == 0 {
        Seq::empty()
    } else if ss[0].clean_session {
        spec_shutdown_sessions(ss.drop_first())
    } else {
        seq![SessionView { connected: false, last_will: None, ..ss[0] }] + spec_shutdown_sessions(
            ss.drop_first(),
        )
    }
}

/// The wills a shutdown collects: one per connected session that had
/// one, in order.
pub open spec fn spec_shutdown_wills(ss: Seq<SessionView>) -> Seq<LastWillView>
    decreases ss.len(),
{
    if ss.len() == 0 {
        Seq::empty()
    } else {
        let rest = spec_shutdown_wills(ss.drop_first());
        match ss[0].last_will {
            Some(w) => if ss[0].connected {
                seq![w] + rest
            } else {
                rest
            },
            None => rest,
        }
    }
}

/// The identifiers of the clean sessions, in order.
pub open spec fn spec_clean_ids(ss: Seq<SessionView>) -> Seq<Seq<char>>
    decreases ss.len(),
{
    if ss.len() == 0 {
        Seq::empty()
    } else {
        let rest = spec_clean_ids(ss.drop_first());
        if ss[0].clean_session {
            seq![ss[0].id] + rest
        } else {
            rest
        }
    }
}

/// A shutdown keeps well-formed sessions with distinct identifiers.
proof fn lemma_shutdown_props(ss: Seq<SessionView>)
    requires
        forall|i: int, j: int|
            0 <= i < j < ss.len() ==> (#[trigger] ss[i]).id != (#[trigger] ss[j]).id,
        forall|i: int| 0 <= i < ss.len() ==> (#[trigger] ss[i]).wf(),
    ensures
        spec_shutdown_sessions(ss).len() <= ss.len(),
        forall|i: int|
            0 <= i < spec_shutdown_sessions(ss).len() ==> (#[trigger] spec_shutdown_sessions(
                ss,
            )[i]).wf() && exists|k: int|
                0 <= k < ss.len() && (#[trigger] ss[k]).id == spec_shutdown_sessions(ss)[i].id,
        forall|i: int, j: int|
            0 <= i < j < spec_shutdown_sessions(ss).len() ==> (#[trigger] spec_shutdown_sessions(
                ss,
            )[i]).id != (#[trigger] spec_shutdown_sessions(ss)[j]).id,
    decreases ss.len(),
{
    if ss.len() > 0 {
        let rest = ss.drop_first();
        assert(forall|i: int| 0 <= i < rest.len() ==> rest[i] == ss[i + 1]);
        lemma_shutdown_props(rest);
        let out = spec_shutdown_sessions(ss);
        let outr = spec_shutdown_sessions(rest);
        if ss[0].clean_session {
            assert forall|i: int|
                0 <= i < out.len() implies (#[trigger] out[i]).wf() && exists|k: int|
                    0 <= k < ss.len() && (#[trigger] ss[k]).id == out[i].id by {
                assert(out[i] == outr[i]);
                let k = choose|k: int| 0 <= k < rest.len() && (#[trigger] rest[k]).id == outr[i].id;
                assert(ss[k + 1].id == out[i].id);
            };
        } else {
            let h = SessionView { connected: false, last_will: None, ..ss[0] };
            assert(out == seq![h] + outr);
            assert forall|i: int|
                0 <= i < out.len() implies (#[trigger] out[i]).wf() && exists|k: int|
                    0 <= k < ss.len() && (#[trigger] ss[k]).id == out[i].id by {
                if i == 0 {
                    assert(ss[0].id == out[0].id);
                    assert(spec_inflight_ids(h.inflight) == spec_inflight_ids(ss[0].inflight));
                } else {
                    assert(out[i] == outr[i - 1]);
                    let k = choose|k: int|
                        0 <= k < rest.len() && (#[trigger] rest[k]).id == outr[i - 1].id;
                    assert(ss[k + 1].id == out[i].id);
                }
            };
            assert forall|i: int, j: int|
                0 <= i < j < out.len() implies (#[trigger] out[i]).id != (#[trigger] out[j]).id by {
                if i == 0 {
                    assert(out[j] == outr[j - 1]);
                    let k = choose|k: int|
                        0 <= k < rest.len() && (#[trigger] rest[k]).id == outr[j - 1].id;
                    assert(ss[0].id != ss[k + 1].id);
                } else {
                    assert(out[i] == outr[i - 1] && out[j] == outr[j - 1]);
                }
            };
        }
    }
}

/// The decimal digit characters.
pub open spec fn spec_digit_char(d: int) -> char {
    if d == 0 {
        '0'
    } else if d == 1 {
        '1'
    } else if d == 2 {
        '2'
    } else if d == 3 {
        '3'
    } else if d == 4 {
        '4'
    } else if d == 5 {
        '5'
    } else if d == 6 {
        '6'
    } else if d == 7 {
        '7'
    } else if d == 8 {
        '8'
    } else {
        '9'
    }
}

/// The decimal form of a number, most significant digit first.
pub open spec fn spec_dec(n: int) -> Seq<char>
    decreases n,
{
    if n < 10 {
        seq![spec_digit_char(n)]
    } else {
        spec_dec(n / 10) + seq![spec_digit_char(n % 10)]
    }
}

/// The identifier the broker generates for the `k`-th attempt.
pub open spec fn spec_gen_id(k: int) -> Seq<char> {
    seq!['a', 'u', 't', 'o', '-'] + spec_dec(k)
}

proof fn lemma_dec_len_pos(n: int)
    ensures
        spec_dec(n).len() >= 1,
    decreases n,
{
    if n >= 10 {
        lemma_dec_len_pos(n / 10);
    }
}

/// Distinct numbers have distinct decimal forms.
proof fn lemma_dec_injective(a: int, b: int)
    requires
        0 <= a,
        0 <= b,
        spec_dec(a) == spec_dec(b),
    ensures
        a == b,
    decreases a + b,
{
    assert(spec_dec(a).last() == spec_digit_char(a % 10)) by {
        if a >= 10 {
            lemma_dec_len_pos(a / 10);
        }
    };
    assert(spec_dec(b).last() == spec_digit_char(b % 10)) by {
        if b >= 10 {
            lemma_dec_len_pos(b / 10);
        }
    };
    assert(a % 10 == b % 10);
    if a < 10 && b < 10 {
        assert(a == a % 10 && b == b % 10);
    } else if a < 10 {
        lemma_dec_len_pos(b / 10);
        assert(spec_dec(b).len() >= 2 && spec_dec(a).len() == 1);
    } else if b < 10 {
        lemma_dec_len_pos(a / 10);
        assert(spec_dec(a).len() >= 2 && spec_dec(b).len() == 1);
    } else {
        assert(spec_dec(a).drop_last() =~= spec_dec(a / 10));
        assert(spec_dec(b).drop_last() =~= spec_dec(b / 10));
        lemma_dec_injective(a / 10, b / 10);
        vstd::arithmetic::div_mod::lemma_fundamental_div_mod(a, 10);
        vstd::arithmetic::div_mod::lemma_fundamental_div_mod(b, 10);
    }
}

/// Distinct attempts generate distinct identifiers.
proof fn lemma_gen_id_injective(a: int, b: int)
    requires
        0 <= a,
        0 <= b,
        spec_gen_id(a) == spec_gen_id(b),
    ensures
        a == b,
{
    assert(spec_gen_id(a).skip(5) =~= spec_dec(a));
    assert(spec_gen_id(b).skip(5) =~= spec_dec(b));
    lemma_dec_injective(a, b);
}

/// More distinct candidates than taken values leave some candidate
/// free.
proof fn lemma_fresh_exists<A>(cands: Seq<A>, taken: Seq<A>)
    requires
        cands.no_duplicates(),
        taken.no_duplicates(),
        cands.len() > taken.len(),
    ensures
        exists|i: int| 0 <= i < cands.len() && !taken.contains(#[trigger] cands[i]),
{
    broadcast use vstd::set::group_set_axioms;

    if forall|i: int| 0 <= i < cands.len() ==> taken.contains(#[trigger] cands[i]) {
        cands.unique_seq_to_set();
        taken.unique_seq_to_set();
        assert(cands.to_set().subset_of(taken.to_set())) by {
            assert forall|v: A| cands.to_set().contains(v) implies taken.to_set().contains(v) by {
                assert(cands.contains(v));
                let i = choose|i: int| 0 <= i < cands.len() && cands[i] == v;
                assert(taken.contains(cands[i]));
            };
        };
        lemma_len_subset(cands.to_set(), taken.to_set());
    }
}

/// One digit as a string.
fn digit_str(d: u64) -> (r: &'static str)
    requires
        d < 10,
    ensures
        r@ == seq![spec_digit_char(d as int)],
{
    let r: &'static str = match d {
        0 => "0",
        1 => "1",
        2 => "2",
        3 => "3",
        4 => "4",
        5 => "5",
        6 => "6",
        7 => "7",
        8 => "8",
        _ => "9",
    };
    proof {
        reveal_strlit("0");
        reveal_strlit("1");
        reveal_strlit("2");
        reveal_strlit("3");
        reveal_strlit("4");
        reveal_strlit("5");
        reveal_strlit("6");
        reveal_strlit("7");
        reveal_strlit("8");
        reveal_strlit("9");
        assert(r@ =~= seq![spec_digit_char(d as int)]);
    }
    r
}

/// Appends the decimal form of `n`.
fn push_dec(s: &mut String, n: u64)
    ensures
        final(s)@ == old(s)@ + spec_dec(n as int),
    decreases n,
{
    if n < 10 {
        s.append(digit_str(n));
        proof {
            assert(old(s)@ + seq![spec_digit_char(n as int)] =~= old(s)@ + spec_dec(n as int));
        }
    } else {
        push_dec(s, n / 10);
        s.append(digit_str(n % 10));
        proof {
            assert(old(s)@ + spec_dec(n as int / 10) + seq![spec_digit_char(n as int % 10)]
                =~= old(s)@ + spec_dec(n as int));
        }
    }
}

/// The identifier generated for attempt `k`.
fn gen_id(k: u64) -> (r: String)
    ensures
        r@ == spec_gen_id(k as int),
{
    let mut s = String::from_str("auto-");
    proof {
        reveal_strlit("auto-");
        assert(s@ =~= seq!['a', 'u', 't', 'o', '-']);
    }
    push_dec(&mut s, k);
    proof {
        assert(s@ =~= spec_gen_id(k as int));
    }
    s
}

/// Owns every session, exclusively.
pub struct ClientsManager {
    sessions: Vec<Session>,
    accounts: Option<Vec<Account>>,
}

impl View for ClientsManager {
    type V = ClientsManagerView;

    closed spec fn view(&self) -> ClientsManagerView {
        ClientsManagerView {
            sessions: self.sessions.deep_view(),
            accounts: match self.accounts {
                Some(ref accs) => Some(accs.deep_view()),
                None => None,
            },
        }
    }
}

impl ClientsManager {
    /// A manager with no sessions; with no accounts, every client is
    /// accepted.
    pub fn new(accounts: Option<Vec<Account>>) -> (r: ClientsManager)
        ensures
            r@.sessions.len() == 0,
            r@.wf(),
            (r@.accounts is Some) == (accounts is Some),
    {
        let r = ClientsManager { sessions: Vec::new(), accounts };
        proof {
            assert(r@.sessions =~= Seq::<SessionView>::empty());
        }
        r
    }

    /// The index of the session with this identifier.
    #[verifier::loop_isolation(false)]
    fn find_index(&self, id: &str) -> (r: Option<usize>)
        ensures
            match r {
                Some(i) => i < self@.sessions.len() && self@.sessions[i as int].id == id@,
                None => !spec_has_id(self@.sessions, id@),
            },
    {
        let mut i: usize = 0;
        while i < self.sessions.len()
            invariant
                i <= self.sessions@.len(),
                forall|j: int| 0 <= j < i ==> (#[trigger] self@.sessions[j]).id != id@,
            decreases self.sessions@.len() - i,
        {
            proof {
                assert(self@.sessions[i as int] == self.sessions@[i as int]@);
            }
            if str_eq(self.sessions[i].id(), id) {
                return Some(i);
            }
            i += 1;
        }
        proof {
            if spec_has_id(self@.sessions, id@) {
                let j = choose|j: int|
                    0 <= j < self@.sessions.len() && (#[trigger] self@.sessions[j]).id == id@;
                assert(self@.sessions[j].id != id@);
            }
        }
        None
    }

    /// Whether the connect's credentials pass.
    #[verifier::loop_isolation(false)]
    fn authenticate(&self, connect: &Connect) -> (r: bool)
        ensures
            r == spec_auth_ok(self@.accounts, connect@.user_name, connect@.password),
    {
        let accs = match &self.accounts {
            None => {
                return true;
            },
            Some(accs) => accs,
        };
        proof {
            assert(self@.accounts == Some(accs.deep_view()));
        }
        let user = match connect.user_name() {
            Some(u) => u,
            None => {
                return false;
            },
        };
        let password = match connect.password() {
            Some(p) => p,
            None => {
                return false;
            },
        };
        let mut k: usize = 0;
        while k < accs.len()
            invariant
                k <= accs@.len(),
                forall|j: int|
                    0 <= j < k ==> !((#[trigger] accs.deep_view()[j]).user == user@
                        && accs.deep_view()[j].password == password@),
            decreases accs@.len() - k,
        {
            proof {
                assert(accs.deep_view()[k as int] == accs@[k as int]@);
            }
            if str_eq(accs[k].user.as_str(), user.as_str()) && str_eq(
                accs[k].password.as_str(),
                password.as_str(),
            ) {
                proof {
                    assert(connect@.user_name == Some(user@));
                    assert(connect@.password == Some(password@));
                    let aseq = self@.accounts->Some_0;
                    assert(aseq == accs.deep_view());
                    assert(aseq[k as int].user == user@ && aseq[k as int].password == password@);
                }
                return true;
            }
            k += 1;
        }
        proof {
            if spec_auth_ok(self@.accounts, connect@.user_name, connect@.password) {
                let j = choose|j: int|
                    0 <= j < accs.deep_view().len() && (#[trigger] accs.deep_view()[j]).user
                        == user@ && accs.deep_view()[j].password == password@;
                assert(!(accs.deep_view()[j].user == user@));
            }
        }
        false
    }

    /// An identifier no session holds, from the generated namespace.
    #[verifier::loop_isolation(false)]
    fn fresh_generated_id(&self) -> (r: String)
        requires
            self@.wf(),
            self@.sessions.len() < 1000000,
        ensures
            !spec_has_id(self@.sessions, r@),
    {
        // one more candidate is enumerated than there are sessions,
        // so some candidate is always free
        let mut k: u64 = 0;
        let n = self.sessions.len();
        while k <= n as u64
            invariant
                k <= n as u64 + 1,
                n == self@.sessions.len(),
                forall|j: int| 0 <= j < k ==> spec_has_id(self@.sessions, spec_gen_id(j)),
            decreases n as u64 + 1 - k,
        {
            let candidate = gen_id(k);
            match self.find_index(candidate.as_str()) {
                None => {
                    return candidate;
                },
                Some(_) => (),
            }
            proof {
                assert forall|j: int|
                    0 <= j < k + 1 implies spec_has_id(self@.sessions, spec_gen_id(j)) by {
                    if j < k {
                    } else {
                        assert(spec_has_id(self@.sessions, spec_gen_id(k as int)));
                    }
                };
            }
            k += 1;
        }
        proof {
            let cands: Seq<Seq<char>> = Seq::new((n + 1) as nat, |j: int| spec_gen_id(j));
            let taken: Seq<Seq<char>> = self@.sessions.map_values(|s: SessionView| s.id);
            assert(cands.no_duplicates()) by {
                assert forall|i: int, j: int|
                    0 <= i < j < cands.len() implies cands[i] != cands[j] by {
                    if cands[i] == cands[j] {
                        lemma_gen_id_injective(i, j);
                    }
                };
            };
            assert(taken.no_duplicates()) by {
                assert forall|i: int, j: int|
                    0 <= i < j < taken.len() implies taken[i] != taken[j] by {
                    assert(self@.sessions[i].id != self@.sessions[j].id);
                };
            };
            lemma_fresh_exists(cands, taken);
            let i = choose|i: int| 0 <= i < cands.len() && !taken.contains(cands[i]);
            assert(spec_has_id(self@.sessions, spec_gen_id(i)));
            let m = choose|m: int|
                0 <= m < self@.sessions.len() && (#[trigger] self@.sessions[m]).id == spec_gen_id(i);
            assert(taken[m] == spec_gen_id(i));
            assert(taken.contains(cands[i]));
        }
        // never reached: the loop cannot find every candidate taken
        String::new()
    }
}

/// One session as persisted: identity, flags, will, and inflight
/// publishes.
#[derive(Debug)]
pub struct SessionSnapshot {
    pub id: String,
    pub clean_session: bool,
    pub keep_alive: u16,
    pub last_will: Option<LastWill>,
    pub inflight: Vec<Publish>,
}

/// What a shutdown collected.
#[derive(Debug)]
pub struct ShutdownInfo {
    /// The wills of the connected sessions, owed a publication when
    /// requested.
    pub last_wills: Vec<LastWill>,
    /// The identifiers of the clean sessions that ended, to scrub from
    /// the topic handler.
    pub clean_session_ids: Vec<String>,
}

impl ClientsManager {
    /// Opens a session for a Connect, enforcing authentication,
    /// identifier rules, take-over, and resumption. On refusal the
    /// Connack return code comes back: 4 for bad credentials, 2 for a
    /// rejected identifier.
    #[verifier::rlimit(100)]
    pub fn new_session(&mut self, connect: Connect) -> (r: Result<ConnectInfo, u8>)
        requires
            old(self)@.wf(),
            old(self)@.sessions.len() < 1000000,
        ensures
            final(self)@.wf(),
            final(self)@.accounts == old(self)@.accounts,
            match r {
                Err(code) => {
                    &&& final(self)@ == old(self)@
                    &&& (code == 4 || code == 2)
                    &&& (code == 4) == !spec_auth_ok(
                        old(self)@.accounts,
                        connect@.user_name,
                        connect@.password,
                    )
                    &&& code == 2 ==> connect@.client_id.len() == 0 && !connect@.clean_session
                },
                Ok(info) => {
                    &&& spec_auth_ok(old(self)@.accounts, connect@.user_name, connect@.password)
                    &&& (connect@.client_id.len() == 0 ==> connect@.clean_session && !spec_has_id(
                        old(self)@.sessions,
                        info.id@,
                    ))
                    &&& (connect@.client_id.len() > 0 ==> info.id@ == connect@.client_id)
                    &&& {
                        let had = spec_has_id(old(self)@.sessions, info.id@);
                        let old_sv = spec_session_of(old(self)@.sessions, info.id@);
                        let resumed = had && !old_sv.clean_session && !connect@.clean_session;
                        let fresh = SessionView {
                            id: info.id@,
                            clean_session: connect@.clean_session,
                            keep_alive: connect@.keep_alive,
                            last_will: connect@.last_will,
                            inflight: Seq::empty(),
                            next_packet_id: 1,
                            connected: true,
                        };
                        let carried = SessionView {
                            keep_alive: connect@.keep_alive,
                            last_will: connect@.last_will,
                            connected: true,
                            ..old_sv
                        };
                        let new_sv = if resumed {
                            carried
                        } else {
                            fresh
                        };
                        &&& info.session_present == resumed
                        &&& (had ==> final(self)@.sessions == old(self)@.sessions.update(
                            spec_index_of(old(self)@.sessions, info.id@),
                            new_sv,
                        ))
                        &&& (!had ==> final(self)@.sessions == old(self)@.sessions.push(fresh))
                        &&& {
                            let taking = had && old_sv.connected && !old_sv.clean_session;
                            &&& (info.takeover_last_will is Some) == (taking && old_sv.last_will
                                is Some)
                            &&& (info.takeover_last_will matches Some(w) ==> old_sv.last_will
                                == Some(w@))
                        }
                    }
                },
            },
    {
        let mut connect = connect;
        if !self.authenticate(&connect) {
            return Err(4);
        }
        let id: String = if connect.client_id().is_empty() {
            if !*connect.clean_session() {
                return Err(2);
            }
            self.fresh_generated_id()
        } else {
            connect.client_id().to_owned()
        };
        let keep_alive = *connect.keep_alive();
        let clean = *connect.clean_session();
        let lw = connect.take_last_will();
        let ghost ss0 = self@.sessions;
        match self.find_index(id.as_str()) {
            None => {
                let s = Session::new(id.clone(), clean, keep_alive, lw);
                let ghost sv = s@;
                self.sessions.push(s);
                proof {
                    assert(sv =~= (SessionView {
                        id: id@,
                        clean_session: clean,
                        keep_alive,
                        last_will: sv.last_will,
                        inflight: Seq::empty(),
                        next_packet_id: 1,
                        connected: true,
                    }));
                    assert(self@.sessions =~~= ss0.push(sv));
                    assert forall|i: int, j: int|
                        0 <= i < j < self@.sessions.len() implies (#[trigger] self@.sessions[i]).id
                        != (#[trigger] self@.sessions[j]).id by {
                        if j == ss0.len() {
                            assert(self@.sessions[i] == ss0[i]);
                        }
                    };
                }
                Ok(ConnectInfo { id, session_present: false, takeover_last_will: None })
            },
            Some(j) => {
                proof {
                    let ch = spec_index_of(ss0, id@);
                    assert(ss0[ch].id == id@);
                    assert(ch == j);
                }
                let mut old_s = self.sessions.remove(j);
                let was_connected = old_s.connected();
                let old_clean = old_s.clean_session();
                let old_will = old_s.take_last_will();
                let takeover_last_will = if was_connected && !old_clean {
                    old_will
                } else {
                    None
                };
                let resume = !old_clean && !clean;
                let new_s = if resume {
                    Session::resumed(old_s, keep_alive, lw)
                } else {
                    Session::new(id.clone(), clean, keep_alive, lw)
                };
                let ghost sv = new_s@;
                self.sessions.insert(j, new_s);
                proof {
                    if !resume {
                        assert(sv.inflight =~= Seq::<InflightView>::empty());
                        assert(sv =~= (SessionView {
                            id: id@,
                            clean_session: clean,
                            keep_alive,
                            last_will: sv.last_will,
                            inflight: Seq::empty(),
                            next_packet_id: 1,
                            connected: true,
                        }));
                    }
                    assert(self@.sessions =~~= ss0.update(j as int, sv));
                    assert(sv.id == id@);
                    assert forall|a: int, b: int|
                        0 <= a < b < self@.sessions.len() implies (#[trigger] self@.sessions[a]).id
                        != (#[trigger] self@.sessions[b]).id by {
                        assert(self@.sessions[a].id == ss0[a].id && self@.sessions[b].id
                            == ss0[b].id);
                    };
                }
                Ok(ConnectInfo { id, session_present: resume, takeover_last_will })
            },
        }
    }

    /// Ends or suspends the session of a client: the transport
    /// detaches, the will comes back for publication only after an
    /// ungraceful end, and a clean session is dropped entirely, its
    /// identifier returned for topic-handler cleanup. A client without
    /// a session is ignored.
    pub fn disconnect(&mut self, id: &str, gracefully: bool) -> (r: DisconnectInfo)
        requires
            old(self)@.wf(),
        ensures
            final(self)@.wf(),
            final(self)@.accounts == old(self)@.accounts,
            !spec_has_id(old(self)@.sessions, id@) ==> final(self)@ == old(self)@ && r.last_will
                is None && r.clean_session_id is None,
            spec_has_id(old(self)@.sessions, id@) ==> {
                let jx = spec_index_of(old(self)@.sessions, id@);
                let old_sv = spec_session_of(old(self)@.sessions, id@);
                &&& (r.last_will is Some) == (!gracefully && old_sv.last_will is Some)
                &&& (r.last_will matches Some(w) ==> old_sv.last_will == Some(w@))
                &&& (old_sv.clean_session ==> final(self)@.sessions == old(self)@.sessions.remove(
                    jx,
                ) && (r.clean_session_id matches Some(c) && c@ == id@))
                &&& (!old_sv.clean_session ==> final(self)@.sessions == old(self)@.sessions.update(
                    jx,
                    SessionView { connected: false, last_will: None, ..old_sv },
                ) && r.clean_session_id is None)
            },
    {
        let ghost ss0 = self@.sessions;
        let j = match self.find_index(id) {
            Some(j) => j,
            None => {
                return DisconnectInfo { last_will: None, clean_session_id: None };
            },
        };
        proof {
            let ch = spec_index_of(ss0, id@);
            assert(ss0[ch].id == id@);
            assert(ch == j);
        }
        let mut s = self.sessions.remove(j);
        let lw = s.take_last_will();
        let last_will = if !gracefully {
            lw
        } else {
            None
        };
        if s.clean_session() {
            proof {
                assert(self@.sessions =~= ss0.remove(j as int));
                assert forall|a: int, b: int|
                    0 <= a < b < self@.sessions.len() implies (#[trigger] self@.sessions[a]).id != (
                #[trigger] self@.sessions[b]).id by {
                    let a0: int = if a < j {
                        a
                    } else {
                        a + 1
                    };
                    let b0: int = if b < j {
                        b
                    } else {
                        b + 1
                    };
                    assert(self@.sessions[a] == ss0[a0] && self@.sessions[b] == ss0[b0]);
                };
            }
            DisconnectInfo { last_will, clean_session_id: Some(s.id().to_owned()) }
        } else {
            s.set_connected(false);
            let ghost sv = s@;
            self.sessions.insert(j, s);
            proof {
                assert(self@.sessions =~= ss0.update(j as int, sv));
                assert forall|a: int, b: int|
                    0 <= a < b < self@.sessions.len() implies (#[trigger] self@.sessions[a]).id != (
                #[trigger] self@.sessions[b]).id by {
                    assert(self@.sessions[a].id == ss0[a].id && self@.sessions[b].id == ss0[b].id);
                };
            }
            DisconnectInfo { last_will, clean_session_id: None }
        }
    }

    /// Detaches every session for a broker shutdown: clean sessions
    /// end, the rest stay for resumption with their transports gone
    /// and wills taken. The wills of the connected sessions come back
    /// when their publication is requested, and the clean identifiers
    /// always do.
    #[verifier::loop_isolation(false)]
    pub fn shutdown(&mut self, publish_lwt: bool) -> (r: ShutdownInfo)
        requires
            old(self)@.wf(),
        ensures
            final(self)@.wf(),
            final(self)@.accounts == old(self)@.accounts,
            final(self)@.sessions == spec_shutdown_sessions(old(self)@.sessions),
            final(self)@.sessions.len() <= old(self)@.sessions.len(),
            publish_lwt ==> r.last_wills.deep_view() == spec_shutdown_wills(old(self)@.sessions),
            !publish_lwt ==> r.last_wills@.len() == 0,
            r.clean_session_ids.deep_view() == spec_clean_ids(old(self)@.sessions),
    {
        let ghost ss0 = self@.sessions;
        let mut kept: Vec<Session> = Vec::new();
        let mut last_wills: Vec<LastWill> = Vec::new();
        let mut clean_session_ids: Vec<String> = Vec::new();
        let ghost mut k: int = 0;
        proof {
            assert(kept.deep_view() =~= Seq::<SessionView>::empty());
            assert(last_wills.deep_view() =~= Seq::<LastWillView>::empty());
            assert(clean_session_ids.deep_view() =~= Seq::<Seq<char>>::empty());
            assert(ss0.skip(0) =~= ss0);
        }
        while self.sessions.len() > 0
            invariant
                0 <= k <= ss0.len(),
                self@.sessions == ss0.skip(k),
                self@.accounts == old(self)@.accounts,
                kept.deep_view() + spec_shutdown_sessions(ss0.skip(k)) == spec_shutdown_sessions(
                    ss0,
                ),
                publish_lwt ==> last_wills.deep_view() + spec_shutdown_wills(ss0.skip(k))
                    == spec_shutdown_wills(ss0),
                !publish_lwt ==> last_wills@.len() == 0,
                clean_session_ids.deep_view() + spec_clean_ids(ss0.skip(k)) == spec_clean_ids(ss0),
            decreases self.sessions@.len(),
        {
            let ghost pre_kept = kept.deep_view();
            let ghost pre_wills = last_wills.deep_view();
            let ghost pre_ids = clean_session_ids.deep_view();
            proof {
                assert(ss0.skip(k)[0] == ss0[k]);
                assert(ss0.skip(k).drop_first() =~= ss0.skip(k + 1));
            }
            let mut s = self.sessions.remove(0);
            proof {
                assert(self@.sessions =~= ss0.skip(k + 1));
            }
            let was_connected = s.connected();
            let lw = s.take_last_will();
            if publish_lwt && was_connected {
                match lw {
                    Some(w) => {
                        last_wills.push(w);
                        proof {
                            match ss0[k].last_will {
                                Some(wv) => {
                                    assert(last_wills.deep_view() =~= pre_wills.push(wv));
                                    assert(pre_wills.push(wv) + spec_shutdown_wills(ss0.skip(k + 1))
                                        =~= pre_wills + spec_shutdown_wills(ss0.skip(k)));
                                },
                                None => (),
                            }
                        }
                    },
                    None => (),
                }
            }
            if s.clean_session() {
                clean_session_ids.push(s.id().to_owned());
                proof {
                    assert(clean_session_ids.deep_view() =~= pre_ids.push(ss0[k].id));
                    assert(pre_ids.push(ss0[k].id) + spec_clean_ids(ss0.skip(k + 1)) =~= pre_ids
                        + spec_clean_ids(ss0.skip(k)));
                }
            } else {
                s.set_connected(false);
                let ghost sv = s@;
                kept.push(s);
                proof {
                    assert(sv =~= (SessionView { connected: false, last_will: None, ..ss0[k] }));
                    assert(kept.deep_view() =~= pre_kept.push(sv));
                    assert(pre_kept.push(sv) + spec_shutdown_sessions(ss0.skip(k + 1)) =~= pre_kept
                        + spec_shutdown_sessions(ss0.skip(k)));
                }
            }
            proof {
                k = k + 1;
            }
        }
        proof {
            assert(ss0.skip(k) =~= Seq::<SessionView>::empty());
            assert(kept.deep_view() + Seq::<SessionView>::empty() =~= kept.deep_view());
            assert(last_wills.deep_view() + Seq::<LastWillView>::empty()
                =~= last_wills.deep_view());
            assert(clean_session_ids.deep_view() + Seq::<Seq<char>>::empty()
                =~= clean_session_ids.deep_view());
        }
        self.sessions = kept;
        proof {
            lemma_shutdown_props(ss0);
        }
        ShutdownInfo { last_wills, clean_session_ids }
    }

    /// Adds back a stored session after a restart: present but
    /// detached. An identifier already present is left alone and the
    /// session is dropped.
    pub fn restore_session(
        &mut self,
        id: String,
        clean_session: bool,
        keep_alive: u16,
        last_will: Option<LastWill>,
    ) -> (r: bool)
        requires
            old(self)@.wf(),
        ensures
            final(self)@.wf(),
            final(self)@.accounts == old(self)@.accounts,
            r == !spec_has_id(old(self)@.sessions, id@),
            !r ==> final(self)@ == old(self)@,
            r ==> final(self)@.sessions == old(self)@.sessions.push(
                SessionView {
                    id: id@,
                    clean_session,
                    keep_alive,
                    last_will: match last_will {
                        Some(w) => Some(w@),
                        None => None::<LastWillView>,
                    },
                    inflight: Seq::empty(),
                    next_packet_id: 1,
                    connected: false,
                },
            ),
    {
        let ghost ss0 = self@.sessions;
        match self.find_index(id.as_str()) {
            Some(_) => {
                proof {
                    assert(spec_has_id(ss0, id@));
                }
                false
            },
            None => {
                let mut s = Session::new(id, clean_session, keep_alive, last_will);
                s.set_connected(false);
                let ghost sv = s@;
                self.sessions.push(s);
                proof {
                    assert(sv.inflight =~= Seq::<InflightView>::empty());
                    assert(self@.sessions =~~= ss0.push(sv));
                    assert forall|i: int, j: int|
                        0 <= i < j < self@.sessions.len() implies (#[trigger] self@.sessions[i]).id
                        != (#[trigger] self@.sessions[j]).id by {
                        if j == ss0.len() {
                            assert(self@.sessions[i] == ss0[i]);
                        }
                    };
                }
                true
            },
        }
    }

    /// Routes one outgoing publish through the client's session (see
    /// `Session::send_publish`); nothing happens for an unknown client
    /// or a full inflight queue.
    pub fn send_publish(&mut self, id: &str, packet: &Publish, now: u64) -> (r: Option<Publish>)
        requires
            old(self)@.wf(),
        ensures
            final(self)@.wf(),
            final(self)@.accounts == old(self)@.accounts,
            r is None ==> final(self)@ == old(self)@ && (!spec_has_id(old(self)@.sessions, id@)
                || spec_session_of(old(self)@.sessions, id@).inflight.len() >= 65535),
            r matches Some(out) ==> {
                let jx = spec_index_of(old(self)@.sessions, id@);
                let old_sv = spec_session_of(old(self)@.sessions, id@);
                &&& spec_has_id(old(self)@.sessions, id@)
                &&& (packet@.qos == crate::qos::QoSLevel::QoSLevel0 ==> out@ == (PublishView {
                    dup: false,
                    packet_id: None,
                    ..packet@
                }) && final(self)@ == old(self)@)
                &&& (packet@.qos == crate::qos::QoSLevel::QoSLevel1 ==> {
                    &&& out@.packet_id is Some
                    &&& !crate::session::spec_inflight_ids(old_sv.inflight).contains(
                        out@.packet_id->0,
                    )
                    &&& out@ == (PublishView {
                        dup: false,
                        packet_id: Some(out@.packet_id->0),
                        ..packet@
                    })
                    &&& final(self)@.sessions == old(self)@.sessions.update(
                        jx,
                        SessionView {
                            inflight: old_sv.inflight.push(
                                InflightView {
                                    packet_id: out@.packet_id->0,
                                    packet: out@,
                                    last_send: now,
                                },
                            ),
                            next_packet_id: out@.packet_id->0,
                            ..old_sv
                        },
                    )
                })
            },
    {
        let ghost ss0 = self@.sessions;
        let j = match self.find_index(id) {
            Some(j) => j,
            None => {
                return None;
            },
        };
        proof {
            let ch = spec_index_of(ss0, id@);
            assert(ss0[ch].id == id@);
            assert(ch == j);
        }
        let mut s = self.sessions.remove(j);
        if s.inflight_count() >= 65535 {
            self.sessions.insert(j, s);
            proof {
                assert(self@.sessions =~= ss0);
            }
            return None;
        }
        let out = s.send_publish(packet, now);
        let ghost sv = s@;
        self.sessions.insert(j, s);
        proof {
            assert(self@.sessions =~~= ss0.update(j as int, sv));
            if packet@.qos == crate::qos::QoSLevel::QoSLevel0 {
                assert(self@.sessions =~~= ss0);
            }
            assert forall|a: int, b: int|
                0 <= a < b < self@.sessions.len() implies (#[trigger] self@.sessions[a]).id != (
            #[trigger] self@.sessions[b]).id by {
                assert(self@.sessions[a].id == ss0[a].id && self@.sessions[b].id == ss0[b].id);
            };
        }
        Some(out)
    }

    /// Settles an inflight publish of the client (see
    /// `Session::acknowledge`).
    pub fn acknowledge(&mut self, id: &str, puback: &Puback) -> (r: PacketResult<()>)
        requires
            old(self)@.wf(),
        ensures
            final(self)@.wf(),
            final(self)@.accounts == old(self)@.accounts,
            r is Err ==> final(self)@ == old(self)@,
            !spec_has_id(old(self)@.sessions, id@) ==> r is Err,
            r is Err ==> !(spec_has_id(old(self)@.sessions, id@)
                && crate::session::spec_inflight_ids(
                spec_session_of(old(self)@.sessions, id@).inflight,
            ).contains(puback.packet_id)),
            r is Ok ==> {
                let jx = spec_index_of(old(self)@.sessions, id@);
                let old_sv = spec_session_of(old(self)@.sessions, id@);
                &&& spec_has_id(old(self)@.sessions, id@)
                &&& crate::session::spec_inflight_ids(old_sv.inflight).contains(puback.packet_id)
                &&& final(self)@.sessions == old(self)@.sessions.update(
                    jx,
                    SessionView {
                        inflight: crate::session::spec_remove_inflight(
                            old_sv.inflight,
                            puback.packet_id,
                        ),
                        ..old_sv
                    },
                )
            },
    {
        let ghost ss0 = self@.sessions;
        let j = match self.find_index(id) {
            Some(j) => j,
            None => {
                return Err(crate::errors::PacketError::new_kind(
                    "Puback from a client without a session",
                    crate::errors::ErrorKind::Other,
                ));
            },
        };
        proof {
            let ch = spec_index_of(ss0, id@);
            assert(ss0[ch].id == id@);
            assert(ch == j);
        }
        let mut s = self.sessions.remove(j);
        let r = s.acknowledge(puback);
        let ghost sv = s@;
        self.sessions.insert(j, s);
        proof {
            assert(self@.sessions =~~= ss0.update(j as int, sv));
            if r is Err {
                assert(self@.sessions =~~= ss0);
            }
            assert forall|a: int, b: int|
                0 <= a < b < self@.sessions.len() implies (#[trigger] self@.sessions[a]).id != (
            #[trigger] self@.sessions[b]).id by {
                assert(self@.sessions[a].id == ss0[a].id && self@.sessions[b].id == ss0[b].id);
            };
        }
        r
    }

    /// Rewrites the client's overdue inflight publishes (see
    /// `Session::send_unacknowledged`); nothing for an unknown client.
    pub fn send_unacknowledged(&mut self, id: &str, min_elapsed_ms: u64, now: u64) -> (r: Option<
        Vec<Publish>,
    >)
        requires
            old(self)@.wf(),
        ensures
            final(self)@.wf(),
            final(self)@.accounts == old(self)@.accounts,
            (r is Some) == spec_has_id(old(self)@.sessions, id@),
            r is None ==> final(self)@ == old(self)@,
            r matches Some(out) ==> {
                let jx = spec_index_of(old(self)@.sessions, id@);
                let old_sv = spec_session_of(old(self)@.sessions, id@);
                &&& out.deep_view() == crate::session::spec_resent_out(
                    old_sv.inflight,
                    min_elapsed_ms,
                    now,
                )
                &&& final(self)@.sessions == old(self)@.sessions.update(
                    jx,
                    SessionView {
                        inflight: crate::session::spec_resent_inflight(
                            old_sv.inflight,
                            min_elapsed_ms,
                            now,
                        ),
                        ..old_sv
                    },
                )
            },
    {
        let ghost ss0 = self@.sessions;
        let j = match self.find_index(id) {
            Some(j) => j,
            None => {
                return None;
            },
        };
        proof {
            let ch = spec_index_of(ss0, id@);
            assert(ss0[ch].id == id@);
            assert(ch == j);
        }
        let mut s = self.sessions.remove(j);
        let out = s.send_unacknowledged(min_elapsed_ms, now);
        let ghost sv = s@;
        self.sessions.insert(j, s);
        proof {
            assert(self@.sessions =~~= ss0.update(j as int, sv));
            assert forall|a: int, b: int|
                0 <= a < b < self@.sessions.len() implies (#[trigger] self@.sessions[a]).id != (
            #[trigger] self@.sessions[b]).id by {
                assert(self@.sessions[a].id == ss0[a].id && self@.sessions[b].id == ss0[b].id);
            };
        }
        Some(out)
    }

    /// The sessions to persist: identity, flags, and will of each.
    #[verifier::loop_isolation(false)]
    pub fn export_sessions(&self) -> (r: Vec<SessionSnapshot>)
        ensures
            r@.len() == self@.sessions.len(),
            forall|i: int|
                0 <= i < r@.len() ==> {
                    let sv = #[trigger] self@.sessions[i];
                    &&& r@[i].id@ == sv.id
                    &&& r@[i].clean_session == sv.clean_session
                    &&& r@[i].keep_alive == sv.keep_alive
                    &&& (r@[i].last_will is Some) == (sv.last_will is Some)
                    &&& (r@[i].last_will matches Some(w) ==> sv.last_will == Some(w@))
                    &&& r@[i].inflight.deep_view().len() == sv.inflight.len()
                    &&& (forall|m: int|
                        0 <= m < sv.inflight.len() ==> r@[i].inflight.deep_view()[m] == (
                        #[trigger] sv.inflight[m]).packet)
                },
    {
        let mut r: Vec<SessionSnapshot> = Vec::new();
        let mut i: usize = 0;
        while i < self.sessions.len()
            invariant
                i <= self.sessions@.len(),
                r@.len() == i,
                forall|j: int|
                    0 <= j < i ==> {
                        let sv = #[trigger] self@.sessions[j];
                        &&& r@[j].id@ == sv.id
                        &&& r@[j].clean_session == sv.clean_session
                        &&& r@[j].keep_alive == sv.keep_alive
                        &&& (r@[j].last_will is Some) == (sv.last_will is Some)
                        &&& (r@[j].last_will matches Some(w) ==> sv.last_will == Some(w@))
                        &&& r@[j].inflight.deep_view().len() == sv.inflight.len()
                        &&& (forall|m: int|
                            0 <= m < sv.inflight.len() ==> r@[j].inflight.deep_view()[m] == (
                            #[trigger] sv.inflight[m]).packet)
                    },
            decreases self.sessions@.len() - i,
        {
            proof {
                assert(self@.sessions[i as int] == self.sessions@[i as int]@);
            }
            let snap = SessionSnapshot {
                id: self.sessions[i].id().to_owned(),
                clean_session: self.sessions[i].clean_session(),
                keep_alive: self.sessions[i].keep_alive(),
                last_will: self.sessions[i].last_will_copy(),
                inflight: self.sessions[i].export_inflight(),
            };
            r.push(snap);
            i += 1;
        }
        r
    }

    /// Requeues one stored inflight publish of the client (see
    /// `Session::restore_inflight`); nothing for an unknown client.
    pub fn restore_inflight(&mut self, id: &str, packet: Publish, now: u64) -> (r: bool)
        requires
            old(self)@.wf(),
        ensures
            final(self)@.wf(),
            final(self)@.accounts == old(self)@.accounts,
            final(self)@.sessions.len() == old(self)@.sessions.len(),
            !r ==> final(self)@ == old(self)@,
            r == (spec_has_id(old(self)@.sessions, id@) && packet@.packet_id is Some
                && packet@.packet_id->0 >= 1 && !crate::session::spec_inflight_ids(
                spec_session_of(old(self)@.sessions, id@).inflight,
            ).contains(packet@.packet_id->0) && spec_session_of(
                old(self)@.sessions,
                id@,
            ).inflight.len() < 65535),
            r ==> final(self)@.sessions == old(self)@.sessions.update(
                spec_index_of(old(self)@.sessions, id@),
                SessionView {
                    inflight: spec_session_of(old(self)@.sessions, id@).inflight.push(
                        InflightView {
                            packet_id: packet@.packet_id->0,
                            packet: packet@,
                            last_send: now,
                        },
                    ),
                    ..spec_session_of(old(self)@.sessions, id@)
                },
            ),
    {
        let ghost ss0 = self@.sessions;
        let j = match self.find_index(id) {
            Some(j) => j,
            None => {
                return false;
            },
        };
        proof {
            let ch = spec_index_of(ss0, id@);
            assert(ss0[ch].id == id@);
            assert(ch == j);
        }
        let mut s = self.sessions.remove(j);
        let r = s.restore_inflight(packet, now);
        let ghost sv = s@;
        self.sessions.insert(j, s);
        proof {
            assert(self@.sessions =~~= ss0.update(j as int, sv));
            if !r {
                assert(self@.sessions =~~= ss0);
            }
            assert forall|a: int, b: int|
                0 <= a < b < self@.sessions.len() implies (#[trigger] self@.sessions[a]).id != (
            #[trigger] self@.sessions[b]).id by {
                assert(self@.sessions[a].id == ss0[a].id && self@.sessions[b].id == ss0[b].id);
            };
        }
        r
    }

    /// How many sessions exist.
    pub fn session_count(&self) -> (r: usize)
        ensures
            r == self@.sessions.len(),
    {
        self.sessions.len()
    }

    /// Whether a session with this identifier exists.
    pub fn has_session(&self, id: &str) -> (r: bool)
        ensures
            r == spec_has_id(self@.sessions, id@),
    {
        match self.find_index(id) {
            Some(_) => {
                proof {
                    assert(spec_has_id(self@.sessions, id@));
                }
                true
            },
            None => false,
        }
    }

    /// The keep-alive of the session, when one exists.
    pub fn keep_alive_of(&self, id: &str) -> (r: Option<u16>)
        requires
            self@.wf(),
        ensures
            (r is Some) == spec_has_id(self@.sessions, id@),
            r matches Some(k) ==> k == spec_session_of(self@.sessions, id@).keep_alive,
    {
        let ghost ss0 = self@.sessions;
        match self.find_index(id) {
            Some(j) => {
                proof {
                    let ch = spec_index_of(ss0, id@);
                    assert(ss0[ch].id == id@);
                    assert(ch == j);
                }
                Some(self.sessions[j].keep_alive())
            },
            None => None,
        }
    }

    /// Whether the session of this identifier is connected.
    pub fn is_connected(&self, id: &str) -> (r: bool)
        requires
            self@.wf(),
        ensures
            r == (spec_has_id(self@.sessions, id@) && spec_session_of(
                self@.sessions,
                id@,
            ).connected),
    {
        let ghost ss0 = self@.sessions;
        match self.find_index(id) {
            Some(j) => {
                proof {
                    let ch = spec_index_of(ss0, id@);
                    assert(ss0[ch].id == id@);
                    assert(ch == j);
                }
                self.sessions[j].connected()
            },
            None => false,
        }
    }
}

} // verus!
