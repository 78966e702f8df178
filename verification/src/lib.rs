//! DNS over WebSocket (DoWS): the protocol logic of a proxy that accepts
//! WebSocket connections and forwards the DNS messages in them over TCP.

pub mod accept;
pub mod client;
pub mod close;
pub mod forward;
pub mod framing;
pub mod handshake;
pub mod http;
pub mod policy;
pub mod text;
pub mod translate;
pub mod upstream;
