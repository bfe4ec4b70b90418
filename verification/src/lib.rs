//! Verified core of an HTTPS edge worker that plays three roles behind one
//! entry point: a Trojan-over-WebSocket tunnel terminator, a container
//! registry reverse proxy, and a generic HTTPS mirror.
//!
//! The library holds the request router, the per-role request/response
//! transformations, the DoH resolver's wire codec with its CIDR classifier,
//! and the Trojan framing. The hosting runtime's transport (HTTP plumbing,
//! raw sockets, WebSocket pairs) stays outside; callers hand the library
//! plain values and perform the I/O it decides on.

pub mod address;
pub mod api;
pub mod cidr;
pub mod config;
pub mod dns;
pub mod router;
pub mod text;
pub mod tj;
pub mod websocket;
