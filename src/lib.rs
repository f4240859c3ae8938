//! A server-side WebSocket engine: the handshake, the frame codec, the
//! reassembly of fragmented messages and the per-connection state machine
//! that a readiness loop drives.

pub mod message;
pub mod handshake;
pub mod user_message;
pub mod server;
