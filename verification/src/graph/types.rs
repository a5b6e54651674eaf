//! Nodes, edges, filters and limits of the problem graph.

use vstd::prelude::*;
use crate::json::Json;

verus! {

/// An openpfe node: its stable id, its PFE `type` (the store label) and its
/// JSON properties (the `id` property is not repeated here).
#[derive(Debug, PartialEq)]
pub struct Node {
    pub id: String,
    pub node_type: String,
    pub properties: Vec<(String, Json)>,
}

/// Which nodes `list_nodes` returns: of one type, of one cluster (by the
/// `cluster_id` property), and at most how many.
#[derive(Debug, Clone)]
pub struct NodeFilter {
    pub node_type: Option<String>,
    pub cluster_id: Option<String>,
    pub limit: Option<usize>,
}

impl Default for NodeFilter {
    fn default() -> (f: Self)
        ensures
            f.node_type is None,
            f.cluster_id is None,
            f.limit is None,
    {
        NodeFilter { node_type: None, cluster_id: None, limit: None }
    }
}

/// Bounds of a subgraph walk: how many hops from the root, and how many nodes.
#[derive(Debug, Clone, Copy, PartialEq, Eq)]
pub struct SubgraphLimits {
    pub max_depth: u32,
    pub max_nodes: usize,
}

impl Default for SubgraphLimits {
    fn default() -> (l: Self)
        ensures
            l == (SubgraphLimits { max_depth: 3, max_nodes: 200 }),
    {
        SubgraphLimits { max_depth: 3, max_nodes: 200 }
    }
}

/// An edge between two openpfe nodes, with its relationship name and properties.
#[derive(Debug, PartialEq)]
pub struct Edge {
    pub src_id: String,
    pub dst_id: String,
    pub edge_type: String,
    pub properties: Vec<(String, Json)>,
}

/// The nodes and edges of a bounded subgraph.
#[derive(Debug, PartialEq)]
pub struct SubgraphResult {
    pub nodes: Vec<Node>,
    pub edges: Vec<Edge>,
}

/// An edge as the store reports it: its store id, its endpoints (store node
/// ids) and its relationship name.
#[derive(Debug, Clone, PartialEq, Eq)]
pub struct EdgeRecord {
    pub id: u64,
    pub src: u64,
    pub dst: u64,
    pub edge_type: String,
}

/// Errors of the graph store: one reported by the store engine (its text),
/// or a message of the graph layer.
#[derive(Debug, Clone, PartialEq, Eq)]
pub enum GraphError {
    Grafeo(String),
    Message(String),
}

impl GraphError {
    /// A graph-layer message.
    pub fn msg(s: String) -> (e: GraphError)
        ensures
            e == GraphError::Message(s),
    {
        GraphError::Message(s)
    }
}

} // verus!
