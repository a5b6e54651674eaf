//! Problem graph: node and edge types, the stable-id index, and the graph
//! algorithms (neighbours, bounded subgraph walk, dependency cycles).

pub mod types;
pub mod schema;
pub mod index;
pub mod walk;
pub mod cycles;
pub mod listing;
