//! openpfe: verified core of the project-local problem-graph server.
//!
//! Wire framing and envelopes for the control socket, the JSON-RPC
//! dispatcher, LLM catalog and download bookkeeping, and graph algorithms.

pub mod text;
pub mod time;
pub mod json;
pub mod ipc;
pub mod mcp;
pub mod server;
pub mod llm;
pub mod ui;
pub mod graph;
