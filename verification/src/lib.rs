//! Control-plane library for a local hub that drives isolated agent sandboxes:
//! a connection registry, a durable message store, a JSON relay protocol with
//! chunked transport, sandbox lifecycle records, and port allocation.

pub mod chunk;
pub mod json;
pub mod ports;
pub mod registry;
pub mod relay;
pub mod sandbox;
pub mod store;
