//! LLM configuration (`llm.json`), model registry, downloads and service decisions.

pub mod digest;
pub mod download;
pub mod error;
pub mod paths;
pub mod registry;
pub mod service;
pub mod types;

