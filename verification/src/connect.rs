//! The Connect packet: protocol handshake, session flags, keep-alive,
//! client identifier, optional last will and credentials.

use vstd::prelude::*;
use vstd::slice::slice_subrange;
use vstd::string::StrSliceExecFns;
use vstd::utf8::{encode_utf8, is_ascii_chars, is_ascii_chars_encode_utf8};
use crate::connack::Connack;
use crate::errors::{ErrorKind, PacketError, PacketResult};
use crate::packet_reader::{encode_with_header, lemma_be16_value, lemma_body_roundtrip, push_all,
    read_body_bounds, read_u16, spec_be16, spec_body, spec_rl_enc, spec_u16_be, write_u16,
    MAX_REMAINING_LENGTH};
use crate::qos::QoSLevel;
use crate::traits::{MQTTDecoding, MQTTEncoding};
use crate::utf8::{lemma_field_roundtrip, lemma_utf8_injective, spec_field_enc, spec_field_ok,
    spec_field_parse, Field};

verus! {

/// Packet type code of Connect.
pub const CONNECT_PACKET_TYPE: u8 = 1;

/// The protocol name field carries these characters.
pub open spec fn spec_protocol_name() -> Seq<char> {
    seq!['M', 'Q', 'T', 'T']
}

/// A message the broker publishes on behalf of a client that
/// disconnected without a Disconnect packet.
#[derive(Debug)]
pub struct LastWill {
    pub retain: bool,
    pub qos: QoSLevel,
    pub topic: String,
    pub message: String,
}

/// The mathematical content of a last will.
pub ghost struct LastWillView {
    pub retain: bool,
    pub qos: QoSLevel,
    pub topic: Seq<char>,
    pub message: Seq<char>,
}

impl DeepView for LastWill {
    type V = LastWillView;

    open spec fn deep_view(&self) -> LastWillView {
        self.view()
    }
}

impl View for LastWill {
    type V = LastWillView;

    open spec fn view(&self) -> LastWillView {
        LastWillView {
            retain: self.retain,
            qos: self.qos,
            topic: self.topic@,
            message: self.message@,
        }
    }
}

impl LastWill {
    /// Creates a last will.
    pub fn new(topic: String, message: String, retain: bool, qos: QoSLevel) -> (r: LastWill)
        ensures
            r@ == (LastWillView { retain, qos, topic: topic@, message: message@ }),
    {
        LastWill { retain, qos, topic, message }
    }
}

/// The mathematical content of a Connect packet.
pub ghost struct ConnectView {
    pub client_id: Seq<char>,
    pub clean_session: bool,
    pub user_name: Option<Seq<char>>,
    pub password: Option<Seq<char>>,
    pub last_will: Option<LastWillView>,
    pub keep_alive: u16,
}

impl ConnectView {
    /// Holds when every string of the packet can be carried by a field.
    pub open spec fn wf(&self) -> bool {
        &&& spec_field_ok(self.client_id)
        &&& match self.user_name {
            Some(u) => spec_field_ok(u),
            None => true,
        }
        &&& match self.password {
            Some(p) => spec_field_ok(p),
            None => true,
        }
        &&& match self.last_will {
            Some(w) => spec_field_ok(w.topic) && spec_field_ok(w.message),
            None => true,
        }
    }

    /// The connect-flags byte: reserved bit 0 clear, then clean
    /// session, will flag, will quality of service, will retain,
    /// password flag, user-name flag.
    pub open spec fn spec_flags(&self) -> u8 {
        ((if self.clean_session {
            2int
        } else {
            0int
        }) + (match self.last_will {
            Some(w) => 4 + (if w.qos == QoSLevel::QoSLevel1 {
                8int
            } else {
                0int
            }) + (if w.retain {
                32int
            } else {
                0int
            }),
            None => 0int,
        }) + (if self.password is Some {
            64int
        } else {
            0int
        }) + (if self.user_name is Some {
            128int
        } else {
            0int
        })) as u8
    }

    /// The body: protocol name and level, flags, keep-alive, client
    /// identifier, then the optional will, user name, and password.
    pub open spec fn spec_mqtt_body(&self) -> Seq<u8> {
        spec_field_enc(spec_protocol_name()) + seq![4u8, self.spec_flags()] + spec_be16(
            self.keep_alive,
        ) + spec_field_enc(self.client_id) + (match self.last_will {
            Some(w) => spec_field_enc(w.topic) + spec_field_enc(w.message),
            None => Seq::<u8>::empty(),
        }) + (match self.user_name {
            Some(u) => spec_field_enc(u),
            None => Seq::<u8>::empty(),
        }) + (match self.password {
            Some(p) => spec_field_enc(p),
            None => Seq::<u8>::empty(),
        })
    }

    /// The full wire form, control byte 0x10.
    pub open spec fn spec_enc(&self) -> Seq<u8> {
        seq![16u8] + spec_rl_enc(self.spec_mqtt_body().len() as int) + self.spec_mqtt_body()
    }

    /// What reading the bytes after the control byte yields.
    pub open spec fn spec_parse(control_byte: u8, bytes: Seq<u8>) -> Result<ConnectView, ErrorKind> {
        if control_byte / 16 != CONNECT_PACKET_TYPE {
            Err(ErrorKind::InvalidControlPacketType)
        } else if control_byte % 16 != 0 {
            Err(ErrorKind::InvalidReservedBits)
        } else {
            match spec_body(bytes) {
                Err(k) => Err(k),
                Ok(b) => ConnectView::spec_parse_body(b),
            }
        }
    }

    /// Parses the body: protocol name, level, flags, keep-alive, then
    /// the payload fields.
    pub open spec fn spec_parse_body(b: Seq<u8>) -> Result<ConnectView, ErrorKind> {
        match spec_field_parse(b) {
            Err(k) => Err(k),
            Ok(proto) => if proto.0 != spec_protocol_name() {
                Err(ErrorKind::InvalidProtocol)
            } else if b.len() < proto.1 + 4 {
                Err(ErrorKind::UnexpectedEof)
            } else if b[proto.1] != 4 {
                Err(ErrorKind::InvalidProtocolLevel)
            } else {
                let f = b[proto.1 + 1];
                if f % 2 != 0 {
                    Err(ErrorKind::InvalidFlags)
                } else if f / 4 % 2 == 0 && (f / 8 % 2 != 0 || f / 16 % 2 != 0 || f / 32 % 2
                    != 0) {
                    Err(ErrorKind::InvalidFlags)
                } else {
                    let ka = spec_u16_be(b[proto.1 + 2], b[proto.1 + 3]) as u16;
                    match spec_field_parse(b.skip(proto.1 + 4)) {
                        Err(k) => Err(k),
                        Ok(cid) => ConnectView::spec_parse_will(
                            b,
                            proto.1 + 4 + cid.1,
                            f,
                            ka,
                            cid.0,
                        ),
                    }
                }
            },
        }
    }

    /// Parses the will topic and message when the will flag is set.
    #[verifier::opaque]
    pub open spec fn spec_parse_will(b: Seq<u8>, p: int, f: u8, ka: u16, cid: Seq<char>) -> Result<
        ConnectView,
        ErrorKind,
    > {
        if f / 4 % 2 == 1 {
            match spec_field_parse(b.skip(p)) {
                Err(k) => Err(k),
                Ok(wt) => match spec_field_parse(b.skip(p + wt.1)) {
                    Err(k) => Err(k),
                    Ok(wm) => ConnectView::spec_parse_auth(
                        b,
                        p + wt.1 + wm.1,
                        f,
                        ka,
                        cid,
                        Some(
                            LastWillView {
                                retain: f / 32 % 2 == 1,
                                qos: if f / 8 % 2 == 0 {
                                    QoSLevel::QoSLevel0
                                } else {
                                    QoSLevel::QoSLevel1
                                },
                                topic: wt.0,
                                message: wm.0,
                            },
                        ),
                    ),
                },
            }
        } else {
            ConnectView::spec_parse_auth(b, p, f, ka, cid, None)
        }
    }

    /// Parses the user name and password when their flags are set; the
    /// body must end exactly after them.
    #[verifier::opaque]
    pub open spec fn spec_parse_auth(
        b: Seq<u8>,
        p: int,
        f: u8,
        ka: u16,
        cid: Seq<char>,
        lw: Option<LastWillView>,
    ) -> Result<ConnectView, ErrorKind> {
        let done = |q: int, un: Option<Seq<char>>, pw: Option<Seq<char>>|
            {
                if q == b.len() {
                    Ok(ConnectView {
                        client_id: cid,
                        clean_session: f / 2 % 2 == 1,
                        user_name: un,
                        password: pw,
                        last_will: lw,
                        keep_alive: ka,
                    })
                } else {
                    Err(ErrorKind::Other)
                }
            };
        if f / 128 % 2 == 1 {
            match spec_field_parse(b.skip(p)) {
                Err(k) => Err(k),
                Ok(un) => if f / 64 % 2 == 1 {
                    match spec_field_parse(b.skip(p + un.1)) {
                        Err(k) => Err(k),
                        Ok(pw) => done(p + un.1 + pw.1, Some(un.0), Some(pw.0)),
                    }
                } else {
                    done(p + un.1, Some(un.0), None)
                },
            }
        } else if f / 64 % 2 == 1 {
            match spec_field_parse(b.skip(p)) {
                Err(k) => Err(k),
                Ok(pw) => done(p + pw.1, None, Some(pw.0)),
            }
        } else {
            done(p, None, None)
        }
    }
}

impl ConnectView {
    /// How the flags byte carries each flag.
    pub proof fn lemma_flags(v: ConnectView)
        ensures
            ({
                let f = v.spec_flags();
                &&& f % 2 == 0
                &&& (f / 2 % 2 == 1) == v.clean_session
                &&& (f / 4 % 2 == 1) == (v.last_will is Some)
                &&& f / 8 % 2 == (match v.last_will {
                    Some(w) => if w.qos == QoSLevel::QoSLevel1 {
                        1u8
                    } else {
                        0u8
                    },
                    None => 0u8,
                })
                &&& f / 16 % 2 == 0
                &&& (f / 32 % 2 == 1) == (match v.last_will {
                    Some(w) => w.retain,
                    None => false,
                })
                &&& (f / 64 % 2 == 1) == (v.password is Some)
                &&& (f / 128 % 2 == 1) == (v.user_name is Some)
            }),
    {
        let f = v.spec_flags();
        let cs: u8 = if v.clean_session { 1 } else { 0 };
        let w_: u8 = if v.last_will is Some { 1 } else { 0 };
        let wq: u8 = match v.last_will {
            Some(w) => if w.qos == QoSLevel::QoSLevel1 { 1 } else { 0 },
            None => 0,
        };
        let wr: u8 = match v.last_will {
            Some(w) => if w.retain { 1 } else { 0 },
            None => 0,
        };
        let pf: u8 = if v.password is Some { 1 } else { 0 };
        let uf: u8 = if v.user_name is Some { 1 } else { 0 };
        assert(f == 2 * cs + 4 * w_ + 8 * wq + 32 * wr + 64 * pf + 128 * uf);
        assert(f % 2 == 0 && f / 2 % 2 == cs && f / 4 % 2 == w_ && f / 8 % 2 == wq && f / 16 % 2
            == 0 && f / 32 % 2 == wr && f / 64 % 2 == pf && f / 128 % 2 == uf) by (bit_vector)
            requires
                f == 2 * cs + 4 * w_ + 8 * wq + 32 * wr + 64 * pf + 128 * uf,
                cs <= 1,
                w_ <= 1,
                wq <= 1,
                wr <= 1,
                pf <= 1,
                uf <= 1,
        ;
    }

    /// The tail of the body after the client identifier: the optional
    /// will, user name, and password fields, and nothing else.
    pub open spec fn spec_tail_enc(&self) -> Seq<u8> {
        (match self.last_will {
            Some(w) => spec_field_enc(w.topic) + spec_field_enc(w.message),
            None => Seq::<u8>::empty(),
        }) + (match self.user_name {
            Some(u) => spec_field_enc(u),
            None => Seq::<u8>::empty(),
        }) + (match self.password {
            Some(p) => spec_field_enc(p),
            None => Seq::<u8>::empty(),
        })
    }

    /// Parsing the head of the body reaches the will stage with the
    /// right arguments.
    #[verifier::rlimit(100)]
    #[verifier::spinoff_prover]
    proof fn lemma_roundtrip_head(v: ConnectView)
        requires
            v.wf(),
        ensures
            ({
                let b = v.spec_mqtt_body();
                let p = 12 + encode_utf8(v.client_id).len() as int;
                &&& ConnectView::spec_parse_body(b) == ConnectView::spec_parse_will(
                    b,
                    p,
                    v.spec_flags(),
                    v.keep_alive,
                    v.client_id,
                )
                &&& b.skip(p) == v.spec_tail_enc()
                &&& b.len() == p + v.spec_tail_enc().len()
            }),
    {
        let b = v.spec_mqtt_body();
        let f = v.spec_flags();
        let proto_e = spec_field_enc(spec_protocol_name());
        let hdr = seq![4u8, f];
        let ka_e = spec_be16(v.keep_alive);
        let cid_e = spec_field_enc(v.client_id);
        let tail = v.spec_tail_enc();
        ConnectView::lemma_flags(v);
        lemma_protocol_name_bytes();
        assert(spec_field_ok(spec_protocol_name())) by {
            let pb = seq![77u8, 81u8, 84u8, 84u8];
            assert(forall|i: int| 0 <= i < 4 ==> #[trigger] pb[i] != 0);
        };
        let rest_a = hdr + ka_e + cid_e + tail;
        assert(b =~= proto_e + rest_a);
        lemma_field_roundtrip(spec_protocol_name(), rest_a);
        assert(proto_e.len() == 6);
        assert(spec_field_parse(b) == Ok::<(Seq<char>, int), ErrorKind>((spec_protocol_name(), 6)));
        assert(b.len() >= 10);
        assert(b[6] == 4 && b[7] == f && b[8] == ka_e[0] && b[9] == ka_e[1]) by {
            assert(rest_a[0] == 4 && rest_a[1] == f && rest_a[2] == ka_e[0] && rest_a[3]
                == ka_e[1]);
        };
        lemma_be16_value(v.keep_alive);
        assert(b.skip(10) =~= cid_e + tail);
        lemma_field_roundtrip(v.client_id, tail);
        let p: int = 12 + encode_utf8(v.client_id).len() as int;
        assert(b.skip(p) =~= tail);
    }

    /// How far into the body the authentication fields begin.
    pub open spec fn spec_auth_pos(&self) -> int {
        12 + encode_utf8(self.client_id).len() as int + (match self.last_will {
            Some(w) => 4 + encode_utf8(w.topic).len() as int + encode_utf8(w.message).len() as int,
            None => 0int,
        })
    }

    /// Parsing the will fields reaches the authentication stage.
    #[verifier::rlimit(100)]
    #[verifier::spinoff_prover]
    proof fn lemma_roundtrip_will(v: ConnectView)
        requires
            v.wf(),
            v.spec_mqtt_body().skip(12 + encode_utf8(v.client_id).len() as int)
                == v.spec_tail_enc(),
        ensures
            ({
                let b = v.spec_mqtt_body();
                let p = 12 + encode_utf8(v.client_id).len() as int;
                ConnectView::spec_parse_will(b, p, v.spec_flags(), v.keep_alive, v.client_id)
                    == ConnectView::spec_parse_auth(
                    b,
                    v.spec_auth_pos(),
                    v.spec_flags(),
                    v.keep_alive,
                    v.client_id,
                    v.last_will,
                )
            }),
    {
        reveal(ConnectView::spec_parse_will);
        let b = v.spec_mqtt_body();
        let f = v.spec_flags();
        let p: int = 12 + encode_utf8(v.client_id).len() as int;
        let un_e = match v.user_name {
            Some(u) => spec_field_enc(u),
            None => Seq::<u8>::empty(),
        };
        let pw_e = match v.password {
            Some(pw) => spec_field_enc(pw),
            None => Seq::<u8>::empty(),
        };
        ConnectView::lemma_flags(v);
        assert(b.skip(p) == v.spec_tail_enc());
        match v.last_will {
            Some(w) => {
                let rest_w1 = spec_field_enc(w.message) + (un_e + pw_e);
                assert(b.skip(p) =~= spec_field_enc(w.topic) + rest_w1);
                lemma_field_roundtrip(w.topic, rest_w1);
                let cw1: int = 2 + encode_utf8(w.topic).len() as int;
                assert(b.skip(p).skip(cw1) =~= b.skip(p + cw1));
                assert(b.skip(p + cw1) =~= spec_field_enc(w.message) + (un_e + pw_e));
                lemma_field_roundtrip(w.message, un_e + pw_e);
                assert((if f / 8 % 2 == 0 {
                    QoSLevel::QoSLevel0
                } else {
                    QoSLevel::QoSLevel1
                }) == w.qos);
                assert((f / 32 % 2 == 1) == w.retain);
                assert(Some(LastWillView { retain: f / 32 % 2 == 1, qos: w.qos, topic: w.topic,
                    message: w.message }) == v.last_will);
            },
            None => (),
        }
    }

    /// Parsing the authentication fields yields the packet back.
    #[verifier::rlimit(100)]
    #[verifier::spinoff_prover]
    proof fn lemma_roundtrip_auth(v: ConnectView)
        requires
            v.wf(),
            v.spec_mqtt_body().skip(v.spec_auth_pos()) == (match v.user_name {
                Some(u) => spec_field_enc(u),
                None => Seq::<u8>::empty(),
            }) + (match v.password {
                Some(pw) => spec_field_enc(pw),
                None => Seq::<u8>::empty(),
            }),
            v.spec_mqtt_body().len() == v.spec_auth_pos() + (match v.user_name {
                Some(u) => spec_field_enc(u).len() as int,
                None => 0int,
            }) + (match v.password {
                Some(pw) => spec_field_enc(pw).len() as int,
                None => 0int,
            }),
        ensures
            ConnectView::spec_parse_auth(
                v.spec_mqtt_body(),
                v.spec_auth_pos(),
                v.spec_flags(),
                v.keep_alive,
                v.client_id,
                v.last_will,
            ) == Ok::<ConnectView, ErrorKind>(v),
    {
        reveal(ConnectView::spec_parse_auth);
        let b = v.spec_mqtt_body();
        let f = v.spec_flags();
        let p2: int = v.spec_auth_pos();
        let un_e = match v.user_name {
            Some(u) => spec_field_enc(u),
            None => Seq::<u8>::empty(),
        };
        let pw_e = match v.password {
            Some(pw) => spec_field_enc(pw),
            None => Seq::<u8>::empty(),
        };
        ConnectView::lemma_flags(v);
        assert(b.skip(p2) == un_e + pw_e);
        let p3: int = match v.user_name {
            Some(u) => {
                assert(b.skip(p2) =~= spec_field_enc(u) + pw_e);
                lemma_field_roundtrip(u, pw_e);
                let cu: int = 2 + encode_utf8(u).len() as int;
                assert(b.skip(p2).skip(cu) =~= b.skip(p2 + cu));
                p2 + cu
            },
            None => p2,
        };
        assert(b.skip(p3) =~= pw_e);
        let p4: int = match v.password {
            Some(pw) => {
                assert(b.skip(p3) =~= spec_field_enc(pw) + Seq::<u8>::empty());
                lemma_field_roundtrip(pw, Seq::<u8>::empty());
                p3 + 2 + encode_utf8(pw).len() as int
            },
            None => p3,
        };
        assert(p4 == b.len());
        assert((f / 2 % 2 == 1) == v.clean_session);
    }

    /// Round trip: a well-formed Connect that fits the remaining
    /// length parses back from its own wire form.
    #[verifier::rlimit(100)]
    #[verifier::spinoff_prover]
    pub proof fn lemma_roundtrip(v: ConnectView, rest: Seq<u8>)
        requires
            v.wf(),
            v.spec_mqtt_body().len() <= MAX_REMAINING_LENGTH,
        ensures
            ConnectView::spec_parse(v.spec_enc()[0], v.spec_enc().skip(1) + rest) == Ok::<
                ConnectView,
                ErrorKind,
            >(v),
    {
        let b = v.spec_mqtt_body();
        lemma_body_roundtrip(b, rest);
        assert(v.spec_enc()[0] == 16);
        assert(v.spec_enc().skip(1) + rest =~= spec_rl_enc(b.len() as int) + b + rest);
        ConnectView::lemma_roundtrip_head(v);
        let bb = v.spec_mqtt_body();
        let p: int = 12 + encode_utf8(v.client_id).len() as int;
        let will_e = match v.last_will {
            Some(w) => spec_field_enc(w.topic) + spec_field_enc(w.message),
            None => Seq::<u8>::empty(),
        };
        let un_e = match v.user_name {
            Some(u) => spec_field_enc(u),
            None => Seq::<u8>::empty(),
        };
        let pw_e = match v.password {
            Some(pw) => spec_field_enc(pw),
            None => Seq::<u8>::empty(),
        };
        assert(v.spec_tail_enc() == will_e + un_e + pw_e);
        let p2: int = v.spec_auth_pos();
        assert(p2 == p + will_e.len());
        assert(bb.skip(p).skip(will_e.len() as int) =~= bb.skip(p2));
        assert((will_e + un_e + pw_e).skip(will_e.len() as int) =~= un_e + pw_e);
        assert(bb.skip(p2) == un_e + pw_e);
        assert(bb.len() == p2 + un_e.len() + pw_e.len());
        ConnectView::lemma_roundtrip_will(v);
        ConnectView::lemma_roundtrip_auth(v);
    }
}

/// A client's request to open a session.
#[derive(Debug)]
pub struct Connect {
    client_id: String,
    clean_session: bool,
    user_name: Option<String>,
    password: Option<String>,
    last_will: Option<LastWill>,
    keep_alive: u16,
}

impl View for Connect {
    type V = ConnectView;

    closed spec fn view(&self) -> ConnectView {
        ConnectView {
            client_id: self.client_id@,
            clean_session: self.clean_session,
            user_name: match self.user_name {
                Some(u) => Some(u@),
                None => None,
            },
            password: match self.password {
                Some(p) => Some(p@),
                None => None,
            },
            last_will: match self.last_will {
                Some(w) => Some(w@),
                None => None,
            },
            keep_alive: self.keep_alive,
        }
    }
}

impl Connect {
    /// Reads a Connect from a fixed header and the bytes that follow
    /// it. The second header byte begins the remaining length, which
    /// continues in `bytes`; the first is not examined, as the caller
    /// dispatched on it already.
    pub fn new(fixed_header: [u8; 2], bytes: &[u8]) -> (r: PacketResult<Connect>)
        ensures
            match r {
                Ok(p) => ConnectView::spec_parse(16, seq![fixed_header@[1]] + bytes@) == Ok::<
                    ConnectView,
                    ErrorKind,
                >(p@) && p@.wf(),
                Err(e) => ConnectView::spec_parse(16, seq![fixed_header@[1]] + bytes@) == Err::<
                    ConnectView,
                    ErrorKind,
                >(e.kind),
            },
    {
        let mut full: Vec<u8> = Vec::new();
        full.push(fixed_header[1]);
        push_all(&mut full, bytes);
        proof {
            assert(full@ =~= seq![fixed_header@[1]] + bytes@);
        }
        Connect::read_from(full.as_slice(), 16)
    }

    /// Reads a Connect from the bytes after its control byte.
    ///
    /// Fails unless the control byte carries type 1 with reserved bits
    /// 0, the protocol name is `MQTT` at level 4, the flags byte keeps
    /// its reserved bit clear and claims no will options without the
    /// will flag, and the payload holds exactly the fields the flags
    /// announce.
    #[verifier::rlimit(100)]
    #[verifier::spinoff_prover]
    pub fn read_from(bytes: &[u8], control_byte: u8) -> (r: PacketResult<Connect>)
        ensures
            match r {
                Ok(p) => ConnectView::spec_parse(control_byte, bytes@) == Ok::<
                    ConnectView,
                    ErrorKind,
                >(p@) && p@.wf(),
                Err(e) => ConnectView::spec_parse(control_byte, bytes@) == Err::<
                    ConnectView,
                    ErrorKind,
                >(e.kind),
            },
    {
        if control_byte / 16 != CONNECT_PACKET_TYPE {
            return Err(PacketError::new_kind(
                "control packet type must be 1 for a Connect packet",
                ErrorKind::InvalidControlPacketType,
            ));
        }
        if control_byte % 16 != 0 {
            return Err(PacketError::new_kind(
                "reserved bits of a Connect packet must be 0",
                ErrorKind::InvalidReservedBits,
            ));
        }
        let (s, e) = match read_body_bounds(bytes) {
            Ok(v) => v,
            Err(err) => {
                return Err(err);
            },
        };
        let body: &[u8] = slice_subrange(bytes, s, e);
        proof {
            assert(body@.skip(0) =~= body@);
        }
        let (proto, p1) = match Field::read_at(body, 0) {
            Ok(v) => v,
            Err(err) => {
                return Err(err);
            },
        };
        if !Connect::verify_protocol(&proto) {
            return Err(PacketError::new_kind("Invalid protocol", ErrorKind::InvalidProtocol));
        }
        if body.len() - p1 < 4 {
            return Err(PacketError::new_kind(
                "packet ends inside the variable header",
                ErrorKind::UnexpectedEof,
            ));
        }
        if body[p1] != 4 {
            return Err(PacketError::new_kind(
                "Invalid protocol level",
                ErrorKind::InvalidProtocolLevel,
            ));
        }
        let f = body[p1 + 1];
        if f % 2 != 0 {
            return Err(PacketError::new_kind("Reserved bits are not zero", ErrorKind::InvalidFlags));
        }
        if f / 4 % 2 == 0 && (f / 8 % 2 != 0 || f / 16 % 2 != 0 || f / 32 % 2 != 0) {
            return Err(PacketError::new_kind("Invalid flags", ErrorKind::InvalidFlags));
        }
        let (keep_alive, _) = match read_u16(body, p1 + 2) {
            Ok(v) => v,
            Err(err) => {
                return Err(err);
            },
        };
        let (cid, p2) = match Field::read_at(body, p1 + 4) {
            Ok(v) => v,
            Err(err) => {
                return Err(err);
            },
        };
        Connect::read_payload(body, p2, f, keep_alive, cid)
    }

    /// Reads the optional will, user name, and password fields; the
    /// body must end exactly after them.
    #[verifier::rlimit(100)]
    #[verifier::spinoff_prover]
    fn read_payload(body: &[u8], p2: usize, f: u8, keep_alive: u16, cid: Field) -> (r: PacketResult<
        Connect,
    >)
        requires
            p2 <= body@.len(),
            spec_field_ok(cid.value@),
        ensures
            match r {
                Ok(pk) => ConnectView::spec_parse_will(body@, p2 as int, f, keep_alive, cid.value@)
                    == Ok::<ConnectView, ErrorKind>(pk@) && pk@.wf(),
                Err(e) => ConnectView::spec_parse_will(body@, p2 as int, f, keep_alive, cid.value@)
                    == Err::<ConnectView, ErrorKind>(e.kind),
            },
    {
        proof {
            reveal(ConnectView::spec_parse_will);
            reveal(ConnectView::spec_parse_auth);
        }
        let mut pos = p2;
        let last_will: Option<LastWill> = if f / 4 % 2 == 1 {
            let (wt, p3) = match Field::read_at(body, pos) {
                Ok(v) => v,
                Err(err) => {
                    return Err(err);
                },
            };
            let (wm, p4) = match Field::read_at(body, p3) {
                Ok(v) => v,
                Err(err) => {
                    return Err(err);
                },
            };
            pos = p4;
            Some(LastWill {
                retain: f / 32 % 2 == 1,
                qos: if f / 8 % 2 == 0 {
                    QoSLevel::QoSLevel0
                } else {
                    QoSLevel::QoSLevel1
                },
                topic: wt.value,
                message: wm.value,
            })
        } else {
            None
        };
        let user_name: Option<String> = if f / 128 % 2 == 1 {
            let (un, p5) = match Field::read_at(body, pos) {
                Ok(v) => v,
                Err(err) => {
                    return Err(err);
                },
            };
            pos = p5;
            Some(un.value)
        } else {
            None
        };
        let password: Option<String> = if f / 64 % 2 == 1 {
            let (pw, p6) = match Field::read_at(body, pos) {
                Ok(v) => v,
                Err(err) => {
                    return Err(err);
                },
            };
            pos = p6;
            Some(pw.value)
        } else {
            None
        };
        if pos != body.len() {
            return Err(PacketError::new_kind(
                "unexpected bytes after the Connect payload",
                ErrorKind::Other,
            ));
        }
        Ok(Connect {
            client_id: cid.value,
            clean_session: f / 2 % 2 == 1,
            user_name,
            password,
            last_will,
            keep_alive,
        })
    }

    /// True when the field carries exactly the protocol name `MQTT`.
    fn verify_protocol(proto: &Field) -> (r: bool)
        ensures
            r == (proto.value@ == spec_protocol_name()),
    {
        let b = proto.value.as_str().as_bytes_vec();
        let r = b.len() == 4 && b[0] == 77 && b[1] == 81 && b[2] == 84 && b[3] == 84;
        proof {
            lemma_protocol_name_bytes();
            if r {
                assert(b@ =~= encode_utf8(spec_protocol_name()));
                lemma_utf8_injective(proto.value@, spec_protocol_name());
            } else {
                if proto.value@ == spec_protocol_name() {
                    assert(b@ == encode_utf8(spec_protocol_name()));
                    assert(b@.len() == 4 && b@[0] == 77 && b@[1] == 81 && b@[2] == 84 && b@[3]
                        == 84);
                }
            }
        }
        r
    }

    /// Get a reference to the connect's client id.
    pub fn client_id(&self) -> (r: &str)
        ensures
            r@ == self@.client_id,
    {
        self.client_id.as_str()
    }

    /// Get a reference to the connect's clean session.
    pub fn clean_session(&self) -> (r: &bool)
        ensures
            *r == self@.clean_session,
    {
        &self.clean_session
    }

    /// Get a reference to the connect's user name.
    pub fn user_name(&self) -> (r: Option<&String>)
        ensures
            (r is Some) == (self@.user_name is Some),
            r matches Some(u) ==> self@.user_name == Some(u@),
    {
        self.user_name.as_ref()
    }

    /// Get a reference to the connect's password.
    pub fn password(&self) -> (r: Option<&String>)
        ensures
            (r is Some) == (self@.password is Some),
            r matches Some(p) ==> self@.password == Some(p@),
    {
        self.password.as_ref()
    }

    /// Get a reference to the connect's last will.
    pub fn last_will(&self) -> (r: Option<&LastWill>)
        ensures
            (r is Some) == (self@.last_will is Some),
            r matches Some(w) ==> self@.last_will == Some(w@),
    {
        self.last_will.as_ref()
    }

    /// Take the last will, replacing it with nothing. If it was
    /// already gone, nothing is returned.
    pub fn take_last_will(&mut self) -> (r: Option<LastWill>)
        ensures
            final(self)@ == (ConnectView { last_will: None, ..old(self)@ }),
            (r is Some) == (old(self)@.last_will is Some),
            r matches Some(w) ==> old(self)@.last_will == Some(w@),
    {
        self.last_will.take()
    }

    /// Get a reference to the connect's keep alive.
    pub fn keep_alive(&self) -> (r: &u16)
        ensures
            *r == self@.keep_alive,
    {
        &self.keep_alive
    }

    /// Set the client id if it is empty. If not empty, it silently
    /// does nothing.
    pub fn set_id(&mut self, id: String)
        ensures
            old(self)@.client_id.len() == 0 ==> final(self)@ == (ConnectView {
                client_id: id@,
                ..old(self)@
            }),
            old(self)@.client_id.len() != 0 ==> *final(self) == *old(self),
    {
        if self.client_id.as_str().is_empty() {
            self.client_id = id;
        }
    }

    /// The acknowledgement of this connect before any stored session
    /// is considered: accepted, nothing resumed.
    pub fn response(&self) -> (r: Connack)
        ensures
            r == (Connack { session_present: false, return_code: 0 }),
    {
        Connack { session_present: false, return_code: 0 }
    }
}

/// The UTF-8 bytes of the protocol name.
pub proof fn lemma_protocol_name_bytes()
    ensures
        encode_utf8(spec_protocol_name()) == seq![77u8, 81u8, 84u8, 84u8],
{
    let s = spec_protocol_name();
    assert(is_ascii_chars(s)) by {
        assert(forall|i: int| 0 <= i < s.len() ==> '\0' <= #[trigger] s[i] <= '\u{7f}');
    };
    is_ascii_chars_encode_utf8(s);
    assert(encode_utf8(s) =~= seq![77u8, 81u8, 84u8, 84u8]);
}

impl MQTTEncoding for Connect {
    /// The wire form of a Connect; fails only when a string cannot be
    /// carried by a field or the body is longer than the remaining
    /// length can say.
    #[verifier::rlimit(100)]
    fn encode(&self) -> (r: PacketResult<Vec<u8>>)
        ensures
            match r {
                Ok(v) => self@.wf() && self@.spec_mqtt_body().len() <= MAX_REMAINING_LENGTH && v@
                    == self@.spec_enc(),
                Err(e) => (e.kind == ErrorKind::InvalidUtf8 && !self@.wf()) || (e.kind
                    == ErrorKind::MalformedLength && self@.spec_mqtt_body().len()
                    > MAX_REMAINING_LENGTH),
            },
    {
        if !check_carriable(self.client_id.as_str()) {
            return Err(field_too_long_error());
        }
        match &self.last_will {
            Some(w) => {
                if !check_carriable(w.topic.as_str()) || !check_carriable(w.message.as_str()) {
                    return Err(field_too_long_error());
                }
            },
            None => (),
        }
        match &self.user_name {
            Some(u) => {
                if !check_carriable(u.as_str()) {
                    return Err(field_too_long_error());
                }
            },
            None => (),
        }
        match &self.password {
            Some(p) => {
                if !check_carriable(p.as_str()) {
                    return Err(field_too_long_error());
                }
            },
            None => (),
        }
        let mut flags: u8 = 0;
        if self.clean_session {
            flags = flags + 2;
        }
        match &self.last_will {
            Some(w) => {
                flags = flags + 4;
                if w.qos.value() == 1 {
                    flags = flags + 8;
                }
                if w.retain {
                    flags = flags + 32;
                }
            },
            None => (),
        }
        if self.password.is_some() {
            flags = flags + 64;
        }
        if self.user_name.is_some() {
            flags = flags + 128;
        }
        proof {
            assert(flags == self@.spec_flags());
        }
        let ghost s1 = spec_field_enc(spec_protocol_name()) + seq![4u8, self@.spec_flags()]
            + spec_be16(self@.keep_alive) + spec_field_enc(self@.client_id);
        let ghost s2 = s1 + (match self@.last_will {
            Some(w) => spec_field_enc(w.topic) + spec_field_enc(w.message),
            None => Seq::<u8>::empty(),
        });
        let ghost s3 = s2 + (match self@.user_name {
            Some(u) => spec_field_enc(u),
            None => Seq::<u8>::empty(),
        });
        let mut body: Vec<u8> = Vec::new();
        let mut proto: Vec<u8> = Vec::new();
        proto.push(77);
        proto.push(81);
        proto.push(84);
        proto.push(84);
        write_u16(&mut body, 4);
        push_all(&mut body, proto.as_slice());
        proof {
            lemma_protocol_name_bytes();
            assert(body@ =~= spec_field_enc(spec_protocol_name()));
        }
        body.push(4);
        body.push(flags);
        write_u16(&mut body, self.keep_alive);
        Field::write_field(&mut body, self.client_id.as_str());
        proof {
            assert(body@ =~= s1);
        }
        match &self.last_will {
            Some(w) => {
                Field::write_field(&mut body, w.topic.as_str());
                Field::write_field(&mut body, w.message.as_str());
                proof {
                    assert(body@ =~= s2);
                }
            },
            None => {
                proof {
                    assert(body@ =~= s2);
                }
            },
        }
        match &self.user_name {
            Some(u) => Field::write_field(&mut body, u.as_str()),
            None => (),
        }
        proof {
            assert(body@ =~= s3);
        }
        match &self.password {
            Some(p) => Field::write_field(&mut body, p.as_str()),
            None => (),
        }
        proof {
            assert(body@ =~= self@.spec_mqtt_body());
        }
        encode_with_header(16, body.as_slice())
    }
}

impl MQTTDecoding for Connect {
    /// Same as `Connect::read_from`.
    fn read_from(bytes: &[u8], control_byte: u8) -> (r: PacketResult<Connect>)
        ensures
            match r {
                Ok(p) => ConnectView::spec_parse(control_byte, bytes@) == Ok::<
                    ConnectView,
                    ErrorKind,
                >(p@) && p@.wf(),
                Err(e) => ConnectView::spec_parse(control_byte, bytes@) == Err::<
                    ConnectView,
                    ErrorKind,
                >(e.kind),
            },
    {
        Connect::read_from(bytes, control_byte)
    }
}

/// True when the string can be carried by a field.
fn check_carriable(s: &str) -> (r: bool)
    ensures
        r == spec_field_ok(s@),
{
    match Field::new_from_string(s) {
        Some(_) => true,
        None => false,
    }
}

/// The error every encoder returns for a string no field can carry.
fn field_too_long_error() -> (r: PacketError)
    ensures
        r.kind == ErrorKind::InvalidUtf8,
{
    PacketError::new_kind("string cannot be carried by a UTF-8 field", ErrorKind::InvalidUtf8)
}

} // verus!
