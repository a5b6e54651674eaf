//! Property keys stored on nodes and edges.
//!
//! The stable openpfe id is not the store's internal node id; it lives in [`ID`].

use vstd::prelude::*;

verus! {

/// Canonical UUID string (openpfe node id). Required on every node.
pub const ID: &'static str = "id";
pub const TITLE: &'static str = "title";
pub const DESCRIPTION: &'static str = "description";
pub const STATUS: &'static str = "status";
/// Denormalized filter helper; must agree with `member_of` edges.
pub const CLUSTER_ID: &'static str = "cluster_id";
/// Optional embedding vector for vector / hybrid search.
pub const EMBEDDING: &'static str = "embedding";
pub const CONTRACT_BODY: &'static str = "contract_body";
pub const VERSION: &'static str = "version";
pub const CONSUMER_ID: &'static str = "consumer_id";
pub const PROVIDER_ID: &'static str = "provider_id";

} // verus!
