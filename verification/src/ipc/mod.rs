//! Control-socket protocol: 4-byte little-endian length-prefixed JSON envelopes.

pub mod client;
pub mod connection;
pub mod envelope;
pub mod error;
pub mod frame;
pub mod handler;
pub mod transport;
