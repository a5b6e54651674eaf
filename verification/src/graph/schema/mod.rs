//! Mapping of PFE node and edge types onto the store's labels,
//! relationship names and property keys.

pub mod label;
pub mod rel;
pub mod prop;

use vstd::prelude::*;

verus! {

/// Default embedding width when creating the vector index.
pub const DEFAULT_EMBEDDING_DIMENSIONS: usize = 384;

/// The relationship names that a bounded subgraph walk follows:
/// `depends_on`, `member_of` and `interfaces`.
pub open spec fn is_subgraph_edge_type(t: Seq<char>) -> bool {
    t == "depends_on"@ || t == "member_of"@ || t == "interfaces"@
}

/// Whether `t` is one of the relationship names a subgraph walk follows.
pub fn subgraph_edge_type(t: &str) -> (r: bool)
    ensures
        r == is_subgraph_edge_type(t@),
{
    crate::text::str_eq(t, rel::DEPENDS_ON) || crate::text::str_eq(t, rel::MEMBER_OF)
        || crate::text::str_eq(t, rel::INTERFACES)
}

} // verus!
