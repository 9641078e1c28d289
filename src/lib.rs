//! Core of a userspace mesh router: the carrier-frame and microframe
//! codecs, the in-memory envelope, the frame switch's decisions, the route
//! table, the reassembly collector, the seen-frame journal and the peering
//! session state machine.
pub mod api;
pub mod codec;
pub mod collector;
pub mod endpoint;
pub mod envelope;
pub mod error;
pub mod header;
pub mod journal;
pub mod micro;
pub mod routes;
pub mod send;
pub mod session;
pub mod switch;
pub mod types;
