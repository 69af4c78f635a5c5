//! Estimates how memory in a key-value store's namespaces is spread over
//! groups of keys that share a delimited prefix (`user:123:profile`), from a
//! sample of keys: a prefix tree, a fold over it, its simplification, and the
//! aggregation of observed counts and memory.
pub mod fold;
pub mod keyspace_info;
pub mod prefix_map;
pub mod retry;
pub mod simplify;
pub mod stats;
pub mod text;
pub mod totals;

pub use keyspace_info::{KeyspaceId, KeyspaceInfo, KeyspacesInfo};
pub use prefix_map::PrefixMap;
pub use stats::KeyspaceTreeNodeInfo;
