//! Errors that the library reports.
use vstd::prelude::*;

use crate::graph::budget::BudgetDimension;

verus! {

/// Every way in which an operation of the library, or of the storage around it, can fail.
#[derive(Debug)]
pub enum TriviumError {
    /// An I/O failure, described in words.
    Io(String),
    /// A failure to encode or decode a record.
    Serialization(String),
    /// A vector has another length than the table.
    DimensionMismatch { expected: usize, got: usize },
    /// No node has this identifier.
    NodeNotFound(u64),
    /// A vector holds a component that is not a finite number.
    InvalidVector { reason: String },
    /// An encoded payload is longer than the limit.
    PayloadTooLarge { size_bytes: usize, max_bytes: usize },
    /// A node with this identifier exists already.
    NodeAlreadyExists(u64),
    /// Another process holds the database file.
    DatabaseLocked(String),
    /// A write was asked of a handle that only reads.
    ReadOnlyViolation { operation: String },
    /// The write-ahead log has to be replayed by a writable handle first.
    RecoveryRequired { wal_path: String },
    /// An immutable generation is incomplete or fails its checksum.
    ImmutableArtifactInvalid { reason: String },
    /// A generation is still in use by a reader.
    GenerationBusy { generation_id: String },
    /// A database file is damaged.
    CorruptedFile(String),
    /// A query could not be parsed.
    QueryParse(String),
    /// A query could not be executed.
    QueryExecution(String),
    /// A hook library could not be loaded.
    HookLoadError(String),
    /// A hook failed at one stage of the search pipeline.
    HookExecutionError { stage: String, reason: String },
    /// The write-ahead log no longer accepts entries.
    WalClosed,
    /// A capacity reservation would break the memory limit.
    CapacityReservationRejected {
        requested_nodes: usize,
        estimated_bytes: usize,
        current_bytes: usize,
        memory_limit: usize,
    },
    /// A capacity computation overflowed or the allocator refused.
    CapacityAllocationFailed { reason: String },
    /// The database is closed.
    DatabaseClosed,
    /// The log was written by a newer version.
    UnsupportedWalVersion { found: u16, supported: u16 },
    /// The database file was written by an unsupported version.
    UnsupportedDatabaseVersion { found: u16, minimum_supported: u16, current: u16 },
    /// A sidecar file was written by an unsupported version.
    UnsupportedSidecarVersion { found: u16, supported: u16 },
    /// A caller uses a form of the interface that was removed.
    ApiMigrationRequired { reason: String },
    /// A traversal ran out of one dimension of its budget.
    TraversalBudgetExceeded {
        dimension: BudgetDimension,
        visited_nodes: usize,
        examined_edges: usize,
        peak_frontier_size: usize,
        depth_reached: usize,
    },
    /// A parameter is out of range.
    InvalidInput(String),
    /// Any other failure.
    Generic(String),
}

/// Result of a fallible operation of the library.
pub type Result<T> = core::result::Result<T, TriviumError>;

/// Whether `error` is `InvalidInput` with exactly this message.
pub open spec fn is_invalid_input(error: TriviumError, message: Seq<char>) -> bool {
    error matches TriviumError::InvalidInput(text) && text@ == message
}

/// Whether `error` is `QueryExecution` with exactly this message.
pub open spec fn is_query_execution(error: TriviumError, message: Seq<char>) -> bool {
    error matches TriviumError::QueryExecution(text) && text@ == message
}

/// An `InvalidInput` error with the given message.
pub fn invalid_input(message: &str) -> (error: TriviumError)
    ensures
        is_invalid_input(error, message@),
{
    TriviumError::InvalidInput(message.to_owned())
}

/// A `QueryExecution` error with the given message.
pub fn query_execution(message: &str) -> (error: TriviumError)
    ensures
        is_query_execution(error, message@),
{
    TriviumError::QueryExecution(message.to_owned())
}

} // verus!
