//! HTTP API decisions: error replies and request checks.

pub mod error;
pub mod routes;
