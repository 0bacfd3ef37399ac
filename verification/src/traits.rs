//! Interfaces shared by the control packets.

use vstd::prelude::*;
use crate::errors::PacketResult;

verus! {

/// A packet that can be written to the wire.
pub trait MQTTEncoding {
    /// The full wire form: control byte, remaining length, body.
    fn encode(&self) -> PacketResult<Vec<u8>>;
}

/// A packet that can be read from the wire, after its control byte.
pub trait MQTTDecoding {
    /// Reads a packet from the bytes that follow its control byte.
    fn read_from(bytes: &[u8], control_byte: u8) -> PacketResult<Self> where Self: Sized;
}

} // verus!
