//! Core of an MQTT v3.1.1 broker: packet codec, topic handler with
//! wildcard matching and retained messages, client session management,
//! and the per-connection packet-processing state machine.
//!
//! All I/O (TCP transports, persistence files, thread pools) lives in the
//! surrounding application; this crate works on plain bytes and values.

pub mod clients_manager;
pub mod connack;
pub mod connect;
pub mod disconnect;
pub mod errors;
pub mod packet;
pub mod packet_reader;
pub mod pingreq;
pub mod pingresp;
pub mod puback;
pub mod publish;
pub mod qos;
pub mod server;
pub mod session;
pub mod suback;
pub mod subscribe;
pub mod topic_filter;
pub mod topic_handler;
pub mod traits;
pub mod unsuback;
pub mod unsubscribe;
pub mod utf8;
