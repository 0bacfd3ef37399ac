//! Error taxonomy of the packet codec.

use vstd::prelude::*;

verus! {

/// The kind of a malformed-packet error, as the MQTT v3.1.1 framing
/// rules classify it.
#[derive(Clone, Copy, Debug, PartialEq, Eq, Structural)]
pub enum ErrorKind {
    /// The upper nibble of the control byte is not a known packet type.
    InvalidControlPacketType,
    /// The lower nibble of the control byte differs from the fixed value
    /// the packet type requires.
    InvalidReservedBits,
    /// A flags byte inside the packet breaks a protocol rule.
    InvalidFlags,
    /// A field breaks a protocol rule (wrong protocol name, empty topic
    /// filter, missing packet identifier, ...).
    InvalidProtocol,
    /// The protocol level byte of a Connect packet is not 4.
    InvalidProtocolLevel,
    /// The remaining-length varint is over four bytes long, or the packet
    /// extends past its declared remaining length.
    MalformedLength,
    /// A length-prefixed field is not valid UTF-8 or contains U+0000.
    InvalidUtf8,
    /// The packet ends before its declared contents do.
    UnexpectedEof,
    /// Any other framing error.
    Other,
}

/// An error produced while reading or writing a control packet.
#[derive(Clone, Debug)]
pub struct PacketError {
    /// Human-readable description.
    pub msg: String,
    /// Machine-readable classification.
    pub kind: ErrorKind,
}

/// Result alias used throughout the codec.
pub type PacketResult<T> = Result<T, PacketError>;

impl PacketError {
    /// A generic error with the default kind.
    pub fn new() -> (r: PacketError)
        ensures
            r.kind == ErrorKind::Other,
    {
        PacketError { msg: String::new(), kind: ErrorKind::Other }
    }

    /// An error with a message and the default kind.
    pub fn new_msg(msg: &str) -> (r: PacketError)
        ensures
            r.kind == ErrorKind::Other,
            r.msg@ == msg@,
    {
        PacketError { msg: msg.to_owned(), kind: ErrorKind::Other }
    }

    /// An error with a message and an explicit kind.
    pub fn new_kind(msg: &str, kind: ErrorKind) -> (r: PacketError)
        ensures
            r.kind == kind,
            r.msg@ == msg@,
    {
        PacketError { msg: msg.to_owned(), kind }
    }

    /// The kind of this error.
    pub fn kind(&self) -> (r: ErrorKind)
        ensures
            r == self.kind,
    {
        self.kind
    }
}

impl PartialEq for PacketError {
    fn eq(&self, other: &PacketError) -> (r: bool) {
        self.kind == other.kind && self.msg == other.msg
    }
}

impl vstd::std_specs::cmp::PartialEqSpecImpl for PacketError {
    open spec fn obeys_eq_spec() -> bool {
        true
    }

    open spec fn eq_spec(&self, other: &PacketError) -> bool {
        self.kind == other.kind && self.msg@ == other.msg@
    }
}

} // verus!
