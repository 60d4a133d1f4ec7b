//! In-memory data structures for a fleet of devices: a weighted directed
//! graph with bounded reachability and lowest-cost path queries, a message
//! priority queue, a search tree, a path registry, a leveled transaction log
//! and two comparison sorts.

pub mod adj_list;
pub mod btree;
pub mod conversions;
pub mod graph_model;
pub mod heap_struct;
pub mod search;
pub mod skip_list;
pub mod sorting;
pub mod tentative;
pub mod trie;
