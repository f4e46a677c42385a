//! Core of an embedded database that keeps a vector, a payload and a graph edge list under
//! one node identifier: the node table and its transactions, payload filters, bounded graph
//! algorithms, and the decisions of the hybrid search pipeline.
pub mod bindings;
pub mod collections;
pub mod database;
pub mod error;
pub mod filter;
pub mod filter_laws;
pub mod graph;
pub mod hook;
pub mod json;
pub mod node;
pub mod number;
pub mod order_laws;
pub mod patch;
pub mod ranking;
pub mod sorting;
pub mod storage;
pub mod sums;
pub mod text;
pub mod vector;
