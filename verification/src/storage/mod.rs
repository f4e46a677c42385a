//! The in-memory node table and the log records that describe its changes.
pub mod frame;
pub mod memtable;
pub mod wal;
