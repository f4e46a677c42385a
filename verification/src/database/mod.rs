//! The database around the node table.
pub mod builder;
pub mod commit_laws;
pub mod config;
pub mod facade;
pub mod fusion;
pub mod mutation;
pub mod pipeline;
pub mod recovery;
pub mod search_laws;
pub mod store;
pub mod transaction;
