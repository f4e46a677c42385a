//! The database: a node table whose every change is logged before it is made.
use vstd::prelude::*;
use vstd::std_specs::iter::IteratorSpec;

use crate::collections::{increasing, sort_dedup};
use crate::database::config::{is_dimension_fault, Config, StorageMode, MAX_DIM};
use crate::database::transaction::{
    apply_change, apply_changes, check_payload, commit_ops, ids_fit, inserted_ids, is_committable,
    is_rejected, op_views, plan, Op, TxOp, MAX_PAYLOAD_BYTES,
};
use crate::error::{Result, TriviumError};
use crate::filter::{holds, Filter, FilterView};
use crate::graph::pathfinding::k_hop_neighbors;
use crate::graph::walk::{outgoing, within};
use crate::json::Json;
use crate::node::{
    duplicate_edges, edge_views, Edge, EdgeView, NodeId, NodeView, Payload, PayloadView,
};
use crate::patch::{apply_patch, is_patch_result};
use crate::storage::memtable::{
    distinct_edges, is_vector_fault, lemma_edge_position, plain_edge, upsert, valid_vector,
    MemTable, NodeSpec, Table,
};
use crate::storage::wal::{changes, Change, WalEntry};
use crate::vector::{copy_slice, VectorType};

verus! {

/// A database. What is written to the log goes through a function that the caller hands in; a
/// change is made only after that function has accepted its record.
#[derive(Debug)]
pub struct Database<T: VectorType> {
    table: MemTable<T>,
    memory_limit: usize,
    storage_mode: StorageMode,
}

/// Whether an encoded payload is longer than the limit.
pub open spec fn is_oversized(payload: PayloadView) -> bool {
    vstd::utf8::encode_utf8(payload.text).len() > MAX_PAYLOAD_BYTES
}

/// Whether `error` says that an encoded payload is too long.
pub open spec fn is_size_fault(payload: PayloadView, error: TriviumError) -> bool {
    error matches TriviumError::PayloadTooLarge { size_bytes, max_bytes } && size_bytes
        == vstd::utf8::encode_utf8(payload.text).len() && max_bytes == MAX_PAYLOAD_BYTES
}

/// Whether a change was handed to the log and made, or was refused by the log with this error and
/// not made.
pub open spec fn logged_first<T: VectorType, F: FnOnce(&WalEntry<T>) -> Result<()>>(
    before: Table<T>,
    after: Table<T>,
    change: Change<T>,
    append: F,
    failure: Option<TriviumError>,
) -> bool {
    exists|entry: WalEntry<T>, logged: Result<()>|
        entry@ == change && #[trigger] call_ensures(append, (&entry,), logged) && match logged {
            Ok(_) => failure is None && after == apply_change(before, change),
            Err(error) => failure == Some(error) && after == before,
        }
}

/// The error of a result.
pub open spec fn failure_of<A>(result: Result<A>) -> Option<TriviumError> {
    match result {
        Ok(_) => None,
        Err(error) => Some(error),
    }
}

impl<T: VectorType> Database<T> {
    /// The node table as mathematical values.
    pub closed spec fn table(&self) -> Table<T> {
        self.table@
    }

    /// Whether the node table keeps its rules.
    pub closed spec fn inv(&self) -> bool {
        self.table.inv()
    }

    /// The memory limit in bytes; zero is no limit.
    pub closed spec fn limit(&self) -> usize {
        self.memory_limit
    }

    /// How the database is stored.
    pub closed spec fn storage(&self) -> StorageMode {
        self.storage_mode
    }

    /// The node table keeps its rules.
    pub proof fn lemma_inv(&self)
        requires
            self.inv(),
        ensures
            self.table().well_formed(),
    {
        self.table.lemma_inv();
    }

    /// An empty database, where the settings allow one.
    pub fn create(config: Config) -> (result: Result<Database<T>>)
        requires
            config.dim <= usize::MAX / 4,
        ensures
            result is Ok <==> 0 < config.dim <= MAX_DIM,
            result matches Err(error) ==> is_dimension_fault(config.dim, error),
            result matches Ok(db) ==> {
                &&& db.inv()
                &&& db.table().dim == config.dim
                &&& db.table().next_id == 1
                &&& db.table().nodes == Map::<NodeId, NodeSpec<T>>::empty()
                &&& db.limit() == 0
                &&& db.storage() == config.storage_mode
            },
    {
        match config.validate() {
            Ok(()) => Ok(
                Database {
                    table: MemTable::new(config.dim),
                    memory_limit: 0,
                    storage_mode: config.storage_mode,
                },
            ),
            Err(error) => Err(error),
        }
    }

    /// A database with the nodes of a loaded table.
    pub fn from_table(table: MemTable<T>, storage_mode: StorageMode) -> (db: Database<T>)
        requires
            table.inv(),
        ensures
            db.inv(),
            db.table() == table@,
            db.limit() == 0,
            db.storage() == storage_mode,
    {
        Database { table, memory_limit: 0, storage_mode }
    }

    /// The node table.
    pub fn memtable(&self) -> (table: &MemTable<T>)
        ensures
            table@ == self.table(),
            table.inv() == self.inv(),
    {
        &self.table
    }

    /// Replays the records of a log.
    pub fn recover(&mut self, entries: &Vec<WalEntry<T>>)
        requires
            old(self).inv(),
            forall|i: int|
                0 <= i < entries@.len() ==> crate::database::transaction::loggable(
                    (#[trigger] entries@[i])@,
                ),
        ensures
            final(self).inv(),
            final(self).table() == apply_changes(
                old(self).table(),
                changes(entries@),
                entries@.len() as int,
            ),
            final(self).limit() == old(self).limit(),
            final(self).storage() == old(self).storage(),
    {
        crate::database::transaction::replay(&mut self.table, entries);
    }

    /// Sets the memory limit in bytes; zero is no limit.
    pub fn set_memory_limit(&mut self, bytes: usize)
        ensures
            final(self).limit() == bytes,
            final(self).table() == old(self).table(),
            final(self).inv() == old(self).inv(),
            final(self).storage() == old(self).storage(),
    {
        self.memory_limit = bytes;
    }

    /// The memory limit in bytes; zero is no limit.
    pub fn memory_limit(&self) -> (bytes: usize)
        ensures
            bytes == self.limit(),
    {
        self.memory_limit
    }

    /// Whether `usage` bytes are more than the limit, so that the database has to be flushed.
    pub fn is_under_pressure(&self, usage: usize) -> (result: bool)
        ensures
            result == (self.limit() > 0 && usage > self.limit()),
    {
        self.memory_limit > 0 && usage > self.memory_limit
    }

    /// How the database is stored.
    pub fn storage_mode(&self) -> (mode: StorageMode)
        ensures
            mode == self.storage(),
    {
        self.storage_mode
    }

    /// Hands a record to the log and, once it is accepted, makes the change.
    fn log_then_apply<F: FnOnce(&WalEntry<T>) -> Result<()>>(
        &mut self,
        entry: WalEntry<T>,
        append: F,
    ) -> (result: Result<()>)
        requires
            old(self).inv(),
            crate::database::transaction::loggable(entry@),
            call_requires(append, (&entry,)),
        ensures
            final(self).inv(),
            final(self).limit() == old(self).limit(),
            final(self).storage() == old(self).storage(),
            logged_first(
                old(self).table(),
                final(self).table(),
                entry@,
                append,
                failure_of(result),
            ),
    {
        let logged = append(&entry);
        match logged {
            Ok(()) => {
                assert(call_ensures(append, (&entry,), logged));
                crate::database::transaction::replay_entry(&mut self.table, &entry);
                Ok(())
            },
            Err(error) => {
                assert(call_ensures(append, (&entry,), logged));
                Err(error)
            },
        }
    }

    /// Inserts a node and returns the identifier that it got.
    pub fn insert<F: FnOnce(&WalEntry<T>) -> Result<()>>(
        &mut self,
        vector: &[T],
        payload: Payload,
        append: F,
    ) -> (result: Result<NodeId>)
        requires
            old(self).inv(),
            old(self).table().next_id < u64::MAX,
            forall|entry: &WalEntry<T>| call_requires(append, (entry,)),
        ensures
            final(self).inv(),
            final(self).limit() == old(self).limit(),
            final(self).storage() == old(self).storage(),
            ({
                let before = old(self).table();
                let id = before.next_id as NodeId;
                if is_oversized(payload@) {
                    final(self).table() == before && (result matches Err(error) && is_size_fault(
                        payload@,
                        error,
                    ))
                } else if !valid_vector(before.dim, vector@) {
                    final(self).table() == before && (result matches Err(error) && is_vector_fault(
                        before.dim,
                        vector@,
                        error,
                    ))
                } else {
                    &&& logged_first(
                        before,
                        final(self).table(),
                        Change::Insert { id, vector: vector@, payload: payload@ },
                        append,
                        failure_of(result),
                    )
                    &&& result matches Ok(given) ==> given == id && final(self).table()
                        == before.insert(id, vector@, payload@)
                }
            }),
    {
        proof {
            self.lemma_inv();
        }
        match check_payload(&payload) {
            Ok(()) => {},
            Err(error) => {
                return Err(error);
            },
        }
        match self.table.validate_insert(vector) {
            Ok(()) => {},
            Err(error) => {
                return Err(error);
            },
        }
        let id: NodeId = self.table.next_id_value();
        match self.log_then_apply(
            WalEntry::Insert { id, vector: copy_slice(vector), payload },
            append,
        ) {
            Ok(()) => Ok(id),
            Err(error) => Err(error),
        }
    }

    /// Inserts a node under a chosen identifier.
    pub fn insert_with_id<F: FnOnce(&WalEntry<T>) -> Result<()>>(
        &mut self,
        id: NodeId,
        vector: &[T],
        payload: Payload,
        append: F,
    ) -> (result: Result<()>)
        requires
            old(self).inv(),
            id < u64::MAX,
            forall|entry: &WalEntry<T>| call_requires(append, (entry,)),
        ensures
            final(self).inv(),
            final(self).limit() == old(self).limit(),
            final(self).storage() == old(self).storage(),
            ({
                let before = old(self).table();
                if is_oversized(payload@) {
                    final(self).table() == before && (result matches Err(error) && is_size_fault(
                        payload@,
                        error,
                    ))
                } else if before.nodes.contains_key(id) {
                    final(self).table() == before && result == Err::<(), TriviumError>(
                        TriviumError::NodeAlreadyExists(id),
                    )
                } else if !valid_vector(before.dim, vector@) {
                    final(self).table() == before && (result matches Err(error) && is_vector_fault(
                        before.dim,
                        vector@,
                        error,
                    ))
                } else {
                    &&& logged_first(
                        before,
                        final(self).table(),
                        Change::Insert { id, vector: vector@, payload: payload@ },
                        append,
                        failure_of(result),
                    )
                    &&& result is Ok ==> final(self).table() == before.insert(
                        id,
                        vector@,
                        payload@,
                    )
                }
            }),
    {
        match check_payload(&payload) {
            Ok(()) => {},
            Err(error) => {
                return Err(error);
            },
        }
        match self.table.validate_insert_with_id(id, vector) {
            Ok(()) => {},
            Err(error) => {
                return Err(error);
            },
        }
        self.log_then_apply(WalEntry::Insert { id, vector: copy_slice(vector), payload }, append)
    }

    /// Sets the edge from one node to another under a label.
    pub fn link<F: FnOnce(&WalEntry<T>) -> Result<()>>(
        &mut self,
        src: NodeId,
        dst: NodeId,
        label: &str,
        weight: u32,
        append: F,
    ) -> (result: Result<()>)
        requires
            old(self).inv(),
            forall|entry: &WalEntry<T>| call_requires(append, (entry,)),
        ensures
            final(self).inv(),
            final(self).limit() == old(self).limit(),
            final(self).storage() == old(self).storage(),
            ({
                let before = old(self).table();
                if !before.nodes.contains_key(src) {
                    final(self).table() == before && result == Err::<(), TriviumError>(
                        TriviumError::NodeNotFound(src),
                    )
                } else if !before.nodes.contains_key(dst) {
                    final(self).table() == before && result == Err::<(), TriviumError>(
                        TriviumError::NodeNotFound(dst),
                    )
                } else {
                    &&& logged_first(
                        before,
                        final(self).table(),
                        Change::Link { src, dst, label: label@, weight, metadata: "null"@ },
                        append,
                        failure_of(result),
                    )
                    &&& result is Ok ==> final(self).table() == before.link(
                        src,
                        plain_edge(dst, label@, weight),
                    )
                }
            }),
    {
        match self.table.validate_link(src, dst) {
            Ok(()) => {},
            Err(error) => {
                return Err(error);
            },
        }
        self.log_then_apply(
            WalEntry::Link {
                src,
                dst,
                label: label.to_owned(),
                weight,
                metadata: "null".to_owned(),
            },
            append,
        )
    }

    /// Sets an edge with metadata.
    pub fn upsert_edge<F: FnOnce(&WalEntry<T>) -> Result<()>>(
        &mut self,
        src: NodeId,
        dst: NodeId,
        label: &str,
        weight: u32,
        metadata: &str,
        append: F,
    ) -> (result: Result<()>)
        requires
            old(self).inv(),
            forall|entry: &WalEntry<T>| call_requires(append, (entry,)),
        ensures
            final(self).inv(),
            final(self).limit() == old(self).limit(),
            final(self).storage() == old(self).storage(),
            ({
                let before = old(self).table();
                if !before.nodes.contains_key(src) {
                    final(self).table() == before && result == Err::<(), TriviumError>(
                        TriviumError::NodeNotFound(src),
                    )
                } else if !before.nodes.contains_key(dst) {
                    final(self).table() == before && result == Err::<(), TriviumError>(
                        TriviumError::NodeNotFound(dst),
                    )
                } else {
                    &&& logged_first(
                        before,
                        final(self).table(),
                        Change::Link { src, dst, label: label@, weight, metadata: metadata@ },
                        append,
                        failure_of(result),
                    )
                    &&& result is Ok ==> final(self).table() == before.link(
                        src,
                        (EdgeView { target: dst, label: label@, weight, metadata: metadata@ }),
                    )
                }
            }),
    {
        match self.table.validate_link(src, dst) {
            Ok(()) => {},
            Err(error) => {
                return Err(error);
            },
        }
        self.log_then_apply(
            WalEntry::Link {
                src,
                dst,
                label: label.to_owned(),
                weight,
                metadata: metadata.to_owned(),
            },
            append,
        )
    }

    /// Removes the edge from one node to another under a label.
    pub fn unlink_label<F: FnOnce(&WalEntry<T>) -> Result<()>>(
        &mut self,
        src: NodeId,
        dst: NodeId,
        label: &str,
        append: F,
    ) -> (result: Result<()>)
        requires
            old(self).inv(),
            forall|entry: &WalEntry<T>| call_requires(append, (entry,)),
        ensures
            final(self).inv(),
            final(self).limit() == old(self).limit(),
            final(self).storage() == old(self).storage(),
            ({
                let before = old(self).table();
                if !before.nodes.contains_key(src) {
                    final(self).table() == before && result == Err::<(), TriviumError>(
                        TriviumError::NodeNotFound(src),
                    )
                } else {
                    &&& logged_first(
                        before,
                        final(self).table(),
                        Change::UnlinkLabel { src, dst, label: label@ },
                        append,
                        failure_of(result),
                    )
                    &&& result is Ok ==> final(self).table() == before.unlink_label(
                        src,
                        dst,
                        label@,
                    )
                }
            }),
    {
        match self.table.validate_node(src) {
            Ok(()) => {},
            Err(error) => {
                return Err(error);
            },
        }
        self.log_then_apply(
            WalEntry::UnlinkLabel { src, dst, label: label.to_owned() },
            append,
        )
    }

    /// Deletes a node with every edge from it and to it.
    pub fn delete<F: FnOnce(&WalEntry<T>) -> Result<()>>(&mut self, id: NodeId, append: F) -> (result:
        Result<()>)
        requires
            old(self).inv(),
            forall|entry: &WalEntry<T>| call_requires(append, (entry,)),
        ensures
            final(self).inv(),
            final(self).limit() == old(self).limit(),
            final(self).storage() == old(self).storage(),
            ({
                let before = old(self).table();
                if !before.nodes.contains_key(id) {
                    final(self).table() == before && result == Err::<(), TriviumError>(
                        TriviumError::NodeNotFound(id),
                    )
                } else {
                    &&& logged_first(
                        before,
                        final(self).table(),
                        Change::Delete { id },
                        append,
                        failure_of(result),
                    )
                    &&& result is Ok ==> final(self).table() == before.delete(id)
                }
            }),
    {
        match self.table.validate_node(id) {
            Ok(()) => {},
            Err(error) => {
                return Err(error);
            },
        }
        self.log_then_apply(WalEntry::Delete { id }, append)
    }

    /// Removes every edge from one node to another; there need not be any.
    pub fn unlink<F: FnOnce(&WalEntry<T>) -> Result<()>>(
        &mut self,
        src: NodeId,
        dst: NodeId,
        append: F,
    ) -> (result: Result<()>)
        requires
            old(self).inv(),
            forall|entry: &WalEntry<T>| call_requires(append, (entry,)),
        ensures
            final(self).inv(),
            final(self).limit() == old(self).limit(),
            final(self).storage() == old(self).storage(),
            ({
                let before = old(self).table();
                if !before.nodes.contains_key(src) {
                    final(self).table() == before && result == Err::<(), TriviumError>(
                        TriviumError::NodeNotFound(src),
                    )
                } else {
                    &&& logged_first(
                        before,
                        final(self).table(),
                        Change::Unlink { src, dst },
                        append,
                        failure_of(result),
                    )
                    &&& result is Ok ==> final(self).table() == before.unlink(src, dst)
                }
            }),
    {
        match self.table.validate_node(src) {
            Ok(()) => {},
            Err(error) => {
                return Err(error);
            },
        }
        self.log_then_apply(WalEntry::Unlink { src, dst }, append)
    }

    /// Replaces the payload of a node.
    pub fn update_payload<F: FnOnce(&WalEntry<T>) -> Result<()>>(
        &mut self,
        id: NodeId,
        payload: Payload,
        append: F,
    ) -> (result: Result<()>)
        requires
            old(self).inv(),
            forall|entry: &WalEntry<T>| call_requires(append, (entry,)),
        ensures
            final(self).inv(),
            final(self).limit() == old(self).limit(),
            final(self).storage() == old(self).storage(),
            ({
                let before = old(self).table();
                if is_oversized(payload@) {
                    final(self).table() == before && (result matches Err(error) && is_size_fault(
                        payload@,
                        error,
                    ))
                } else if !before.nodes.contains_key(id) {
                    final(self).table() == before && result == Err::<(), TriviumError>(
                        TriviumError::NodeNotFound(id),
                    )
                } else {
                    &&& logged_first(
                        before,
                        final(self).table(),
                        Change::UpdatePayload { id, payload: payload@ },
                        append,
                        failure_of(result),
                    )
                    &&& result is Ok ==> final(self).table() == before.set_payload(id, payload@)
                }
            }),
    {
        match check_payload(&payload) {
            Ok(()) => {},
            Err(error) => {
                return Err(error);
            },
        }
        match self.table.validate_node(id) {
            Ok(()) => {},
            Err(error) => {
                return Err(error);
            },
        }
        self.log_then_apply(WalEntry::UpdatePayload { id, payload }, append)
    }

    /// Changes some members of the payload of a node, as [`apply_patch`] does. `plus` adds numbers
    /// in double precision, `encode` gives the encoding of the payload.
    pub fn patch_payload<
        A: Fn(u64, u64) -> u64,
        E: FnOnce(&Json) -> String,
        F: FnOnce(&WalEntry<T>) -> Result<()>,
    >(&mut self, id: NodeId, patch: &Json, plus: &A, encode: E, append: F) -> (result: Result<()>)
        requires
            old(self).inv(),
            forall|x: u64, y: u64| call_requires(plus, (x, y)),
            forall|json: &Json| call_requires(encode, (json,)),
            forall|entry: &WalEntry<T>| call_requires(append, (entry,)),
        ensures
            final(self).inv(),
            final(self).limit() == old(self).limit(),
            final(self).storage() == old(self).storage(),
            ({
                let before = old(self).table();
                if !before.nodes.contains_key(id) {
                    final(self).table() == before && result == Err::<(), TriviumError>(
                        TriviumError::NodeNotFound(id),
                    )
                } else {
                    exists|patched: Result<Json>| #[trigger]
                        is_patch_result(
                            *plus,
                            before.nodes[id].payload.value,
                            patch@,
                            patched,
                        ) && match patched {
                            Err(error) => result == Err::<(), TriviumError>(error)
                                && final(self).table() == before,
                            Ok(json) => exists|text: String| #[trigger]
                                call_ensures(encode, (&json,), text) && {
                                    let payload = PayloadView { text: text@, value: json@ };
                                    if is_oversized(payload) {
                                        final(self).table() == before && (result matches Err(error)
                                            && is_size_fault(payload, error))
                                    } else {
                                        &&& logged_first(
                                            before,
                                            final(self).table(),
                                            Change::UpdatePayload { id, payload },
                                            append,
                                            failure_of(result),
                                        )
                                        &&& result is Ok ==> final(self).table()
                                            == before.set_payload(id, payload)
                                    }
                                },
                        }
                }
            }),
    {
        match self.table.get_payload(id) {
            None => Err(TriviumError::NodeNotFound(id)),
            Some(payload) => {
                let patched = apply_patch(&payload.value, patch, plus);
                assert(is_patch_result(
                    *plus,
                    self.table().nodes[id].payload.value,
                    patch@,
                    patched,
                ));
                match patched {
                    Err(error) => Err(error),
                    Ok(value) => {
                        let text = encode(&value);
                        assert(call_ensures(encode, (&value,), text));
                        self.update_payload(id, Payload { text, value }, append)
                    },
                }
            },
        }
    }

    /// Replaces the vector of a node.
    pub fn update_vector<F: FnOnce(&WalEntry<T>) -> Result<()>>(
        &mut self,
        id: NodeId,
        vector: &[T],
        append: F,
    ) -> (result: Result<()>)
        requires
            old(self).inv(),
            forall|entry: &WalEntry<T>| call_requires(append, (entry,)),
        ensures
            final(self).inv(),
            final(self).limit() == old(self).limit(),
            final(self).storage() == old(self).storage(),
            ({
                let before = old(self).table();
                if !before.nodes.contains_key(id) {
                    final(self).table() == before && result == Err::<(), TriviumError>(
                        TriviumError::NodeNotFound(id),
                    )
                } else if !valid_vector(before.dim, vector@) {
                    final(self).table() == before && (result matches Err(error) && is_vector_fault(
                        before.dim,
                        vector@,
                        error,
                    ))
                } else {
                    &&& logged_first(
                        before,
                        final(self).table(),
                        Change::UpdateVector { id, vector: vector@ },
                        append,
                        failure_of(result),
                    )
                    &&& result is Ok ==> final(self).table() == before.set_vector(id, vector@)
                }
            }),
    {
        match self.table.validate_update_vector(id, vector) {
            Ok(()) => {},
            Err(error) => {
                return Err(error);
            },
        }
        self.log_then_apply(WalEntry::UpdateVector { id, vector: copy_slice(vector) }, append)
    }

    /// Commits a list of operations: all of them or none.
    pub fn commit_ops<F: FnOnce(&Vec<WalEntry<T>>) -> Result<()>>(
        &mut self,
        ops: &Vec<TxOp<T>>,
        append: F,
    ) -> (result: Result<Vec<NodeId>>)
        requires
            old(self).inv(),
            ids_fit(old(self).table(), op_views(ops@)),
            forall|entries: &Vec<WalEntry<T>>| #[trigger] call_requires(append, (entries,)),
        ensures
            final(self).inv(),
            final(self).limit() == old(self).limit(),
            final(self).storage() == old(self).storage(),
            committed(old(self).table(), final(self).table(), op_views(ops@), append, result),
    {
        commit_ops(&mut self.table, ops, append)
    }

    /// Everything stored under an identifier.
    pub fn get(&self, id: NodeId) -> (result: Option<NodeView<T>>)
        ensures
            result is Some <==> self.table().nodes.contains_key(id),
            result matches Some(node) ==> {
                &&& node.id == id
                &&& node.vector@ == self.table().nodes[id].vector
                &&& node.payload@ == self.table().nodes[id].payload
                &&& edge_views(node.edges@) == self.table().nodes[id].edges
            },
    {
        match (self.table.get_payload(id), self.table.get_vector(id), self.table.get_edges(id)) {
            (Some(payload), Some(vector), Some(edges)) => Some(
                NodeView {
                    id,
                    vector: copy_slice(vector.as_slice()),
                    payload: payload.duplicate(),
                    edges: duplicate_edges(edges),
                },
            ),
            _ => None,
        }
    }

    /// The payload of a node.
    pub fn get_payload(&self, id: NodeId) -> (result: Option<Payload>)
        ensures
            match result {
                Some(payload) => self.table().nodes.contains_key(id) && payload@
                    == self.table().nodes[id].payload,
                None => !self.table().nodes.contains_key(id),
            },
    {
        match self.table.get_payload(id) {
            Some(payload) => Some(payload.duplicate()),
            None => None,
        }
    }

    /// The edges of a node; none where there is no such node.
    pub fn get_edges(&self, id: NodeId) -> (edges: Vec<Edge>)
        ensures
            edge_views(edges@) == self.table().edges_of(id),
    {
        match self.table.get_edges(id) {
            Some(edges) => duplicate_edges(edges),
            None => {
                let edges: Vec<Edge> = Vec::new();
                assert(edge_views(edges@) =~= Seq::empty());
                edges
            },
        }
    }

    /// The nodes within `depth` steps of a node, without the node itself, in ascending order.
    pub fn neighbors(&self, id: NodeId, depth: usize) -> (ids: Vec<NodeId>)
        requires
            self.inv(),
        ensures
            increasing(ids@),
            forall|other: NodeId| #[trigger]
                ids@.contains(other) <==> other != id && within(
                    outgoing(self.table(), None),
                    id,
                    other,
                    depth as nat,
                ),
    {
        let distances = k_hop_neighbors(&self.table, id, depth, None);
        let mut found: Vec<NodeId> = Vec::new();
        let source = distances.keys();
        let ghost all = source.remaining();
        for key in iter: source
            invariant
                iter.seq() == all,
                forall|other: NodeId| #[trigger]
                    found@.contains(other) <==> other != id && all.unref().take(
                        iter.index(),
                    ).contains(other),
        {
            let ghost before = found@;
            if *key != id {
                found.push(*key);
            }
            proof {
                let few = all.unref().take(iter.index());
                assert(all.unref().take(iter.index() + 1) =~= few.push(*key));
                assert forall|other: NodeId| #[trigger] found@.contains(other) <==> other != id
                    && all.unref().take(iter.index() + 1).contains(other) by {
                    crate::collections::lemma_contains_push(few, *key, other);
                    crate::collections::lemma_contains_push(before, *key, other);
                }
            }
        }
        let ids = sort_dedup(&found);
        proof {
            assert(all.unref().take(all.len() as int) =~= all.unref());
            assert forall|other: NodeId| #[trigger] ids@.contains(other) <==> other != id && within(
                outgoing(self.table(), None),
                id,
                other,
                depth as nat,
            ) by {
                assert(all.unref().contains(other) <==> distances@.contains_key(other)) by {
                    assert(all.unref().to_set().contains(other) <==> distances@.dom().contains(
                        other,
                    ));
                }
            }
        }
        ids
    }

    /// A database with the same nodes, payloads and edges, whose vectors have another number of
    /// components, all zero. Edges keep their labels and weights, not their metadata.
    pub fn migrate(&self, new_dim: usize, zero: T) -> (result: Result<Database<T>>)
        requires
            self.inv(),
            new_dim <= usize::MAX / 4,
            zero.finite(),
        ensures
            result is Ok <==> 0 < new_dim <= MAX_DIM,
            result matches Err(error) ==> is_dimension_fault(new_dim, error),
            result matches Ok(db) ==> {
                &&& db.inv()
                &&& is_migrated(self.table(), db.table(), new_dim as nat, zero)
                &&& db.limit() == 0
                &&& db.storage() == StorageMode::Mmap
            },
    {
        let config = Config { dim: new_dim, ..Config::default() };
        match config.validate() {
            Ok(()) => {},
            Err(error) => {
                return Err(error);
            },
        }
        proof {
            self.table.lemma_inv();
        }
        let ghost from = self.table@;
        let ids = self.table.all_node_ids();
        let mut zeros: Vec<T> = Vec::new();
        while zeros.len() < new_dim
            invariant
                zeros@.len() <= new_dim,
                forall|i: int| 0 <= i < zeros@.len() ==> (#[trigger] zeros@[i]) == zero,
            decreases new_dim - zeros@.len(),
        {
            zeros.push(zero);
        }
        let ghost blank = Seq::new(new_dim as nat, |i: int| zero);
        assert(zeros@ =~= blank);
        let mut table: MemTable<T> = MemTable::new(new_dim);
        let mut i: usize = 0;
        assert(ids@.take(0).to_set() =~= Set::<NodeId>::empty());
        while i < ids.len()
            invariant
                self.table.inv(),
                from == self.table@,
                from.well_formed(),
                zero.finite(),
                blank == Seq::new(new_dim as nat, |i: int| zero),
                zeros@ == blank,
                increasing(ids@),
                ids@.to_set() == from.nodes.dom(),
                i <= ids@.len(),
                table.inv(),
                table@.dim == new_dim,
                table@.next_id == if i == 0 {
                    1
                } else {
                    highest(1, ids@[i - 1] as nat + 1)
                },
                forall|id: NodeId| #[trigger]
                    table@.nodes.contains_key(id) <==> ids@.take(i as int).contains(id),
                forall|id: NodeId| #[trigger]
                    table@.nodes.contains_key(id) ==> table@.nodes[id] == (NodeSpec {
                        vector: blank,
                        payload: from.nodes[id].payload,
                        edges: Seq::empty(),
                    }),
            decreases ids@.len() - i,
        {
            let id: NodeId = ids[i];
            proof {
                assert(ids@.contains(id));
                assert(ids@.to_set().contains(id));
                assert(from.nodes.contains_key(id));
                assert(!table@.nodes.contains_key(id)) by {
                    if ids@.take(i as int).contains(id) {
                        let k = choose|k: int| 0 <= k < i && ids@.take(i as int)[k] == id;
                        assert(ids@[k] < ids@[i as int]);
                    }
                }
                assert(valid_vector(table@.dim, zeros@));
                if i > 0 {
                    assert(ids@[i - 1] < ids@[i as int]);
                }
            }
            let ghost before = table@;
            let payload = self.table.get_payload(id).unwrap();
            let next: NodeId = self.table.next_id_value();
            assert(id < next);
            let _ = table.insert_with_id(id, zeros.as_slice(), payload);
            proof {
                assert(ids@.take(i + 1) =~= ids@.take(i as int).push(id));
                assert forall|other: NodeId| #[trigger]
                    table@.nodes.contains_key(other) <==> ids@.take(i + 1).contains(other) by {
                    crate::collections::lemma_contains_push(ids@.take(i as int), id, other);
                    assert(before.nodes.contains_key(other) <==> ids@.take(i as int).contains(
                        other,
                    ));
                }
            }
            i += 1;
        }
        proof {
            assert(ids@.take(i as int) =~= ids@);
            assert forall|id: NodeId| #[trigger] table@.nodes.contains_key(id)
                <==> from.nodes.contains_key(id) by {
                assert(ids@.to_set().contains(id) <==> ids@.contains(id));
            }
            assert forall|n: int| 0 <= n < ids@.len() implies table@.nodes[#[trigger] ids@[n]]
                == (NodeSpec {
                vector: blank,
                payload: from.nodes[ids@[n]].payload,
                edges: Seq::empty(),
            }) by {
                assert(ids@.contains(ids@[n]));
                assert(table@.nodes.contains_key(ids@[n]));
            }
            if table@.next_id > 1 {
                assert(ids@.contains(ids@[ids@.len() - 1]));
            }
        }
        let ghost next_id = table@.next_id;
        let mut k: usize = 0;
        while k < ids.len()
            invariant
                self.table.inv(),
                from == self.table@,
                from.well_formed(),
                increasing(ids@),
                ids@.to_set() == from.nodes.dom(),
                k <= ids@.len(),
                table.inv(),
                table@.dim == new_dim,
                table@.next_id == next_id,
                next_id >= 1,
                next_id > 1 ==> from.nodes.contains_key((next_id - 1) as NodeId),
                forall|id: NodeId| #[trigger]
                    table@.nodes.contains_key(id) <==> from.nodes.contains_key(id),
                forall|n: int|
                    0 <= n < ids@.len() ==> table@.nodes[#[trigger] ids@[n]] == (NodeSpec {
                        vector: blank,
                        payload: from.nodes[ids@[n]].payload,
                        edges: if n < k {
                            plain_edges(from.nodes[ids@[n]].edges)
                        } else {
                            Seq::empty()
                        },
                    }),
            decreases ids@.len() - k,
        {
            let id: NodeId = ids[k];
            proof {
                assert(ids@.contains(id));
                assert(ids@.to_set().contains(id));
                assert(from.nodes.contains_key(id));
            }
            let edges = self.table.get_edges(id).unwrap();
            let ghost views = edge_views(edges@);
            let mut j: usize = 0;
            assert(plain_edges(views.take(0)) =~= Seq::empty());
            while j < edges.len()
                invariant
                    self.table.inv(),
                    from == self.table@,
                    from.well_formed(),
                    increasing(ids@),
                    ids@.to_set() == from.nodes.dom(),
                    k < ids@.len(),
                    id == ids@[k as int],
                    from.nodes.contains_key(id),
                    views == edge_views(edges@),
                    views == from.nodes[id].edges,
                    j <= edges@.len(),
                    table.inv(),
                    table@.dim == new_dim,
                    table@.next_id == next_id,
                    forall|other: NodeId| #[trigger]
                        table@.nodes.contains_key(other) <==> from.nodes.contains_key(other),
                    forall|n: int|
                        0 <= n < ids@.len() ==> table@.nodes[#[trigger] ids@[n]] == (NodeSpec {
                            vector: blank,
                            payload: from.nodes[ids@[n]].payload,
                            edges: if n < k {
                                plain_edges(from.nodes[ids@[n]].edges)
                            } else if n == k {
                                plain_edges(views.take(j as int))
                            } else {
                                Seq::empty()
                            },
                        }),
                decreases edges@.len() - j,
            {
                let edge = &edges[j];
                let ghost before = table@;
                proof {
                    assert(views[j as int] == edge@);
                    assert(from.nodes.contains_key(from.nodes[id].edges[j as int].target));
                }
                let _ = table.link(id, edge.target_id, edge.label.as_str(), edge.weight);
                proof {
                    lemma_plain_edges_next(views, j as int);
                    assert forall|n: int| 0 <= n < ids@.len() implies table@.nodes[
                    #[trigger] ids@[n]] == (NodeSpec {
                        vector: blank,
                        payload: from.nodes[ids@[n]].payload,
                        edges: if n < k {
                            plain_edges(from.nodes[ids@[n]].edges)
                        } else if n == k {
                            plain_edges(views.take(j + 1))
                        } else {
                            Seq::empty()
                        },
                    }) by {
                        if n != k {
                            if n < k {
                                assert(ids@[n] < ids@[k as int]);
                            } else {
                                assert(ids@[k as int] < ids@[n]);
                            }
                            assert(table@.nodes[ids@[n]] == before.nodes[ids@[n]]);
                        } else {
                            assert(before.nodes[ids@[n]].edges == plain_edges(
                                views.take(j as int),
                            ));
                        }
                    }
                }
                j += 1;
            }
            assert(views.len() == edges@.len());
            assert(views.take(j as int) =~= views);
            k += 1;
        }
        proof {
            assert(table@.nodes.dom() =~= from.nodes.dom());
            assert forall|id: NodeId| #[trigger] from.nodes.contains_key(id) implies table@.nodes[id]
                == (NodeSpec {
                vector: blank,
                payload: from.nodes[id].payload,
                edges: plain_edges(from.nodes[id].edges),
            }) by {
                assert(ids@.to_set().contains(id));
                let n = choose|n: int| 0 <= n < ids@.len() && ids@[n] == id;
                assert(table@.nodes[ids@[n]].payload == from.nodes[id].payload);
            }
        }
        Ok(Database { table, memory_limit: 0, storage_mode: StorageMode::Mmap })
    }

    /// The nodes whose payload satisfies a filter, in ascending order.
    pub fn filter_where(&self, condition: &Filter) -> (found: Vec<NodeView<T>>)
        ensures
            are_matches(self.table(), condition@, found@),
    {
        let ids = self.table.all_node_ids();
        let mut found: Vec<NodeView<T>> = Vec::new();
        let mut i: usize = 0;
        while i < ids.len()
            invariant
                i <= ids@.len(),
                increasing(ids@),
                ids@.to_set() == self.table().nodes.dom(),
                forall|k: int|
                    0 <= k < found@.len() ==> is_node(self.table(), #[trigger] found@[k]) && holds(
                        condition@,
                        self.table().nodes[found@[k].id].payload.value,
                    ),
                forall|k: int, l: int|
                    0 <= k < l < found@.len() ==> (#[trigger] found@[k]).id < (#[trigger]
                    found@[l]).id,
                forall|k: int, n: int|
                    0 <= k < found@.len() && i <= n < ids@.len() ==> (#[trigger] found@[k]).id
                        < #[trigger] ids@[n],
                forall|n: int|
                    0 <= n < i && holds(
                        condition@,
                        self.table().nodes[#[trigger] ids@[n]].payload.value,
                    ) ==> has_match(found@, ids@[n]),
            decreases ids@.len() - i,
        {
            let id: NodeId = ids[i];
            let ghost before = found@;
            proof {
                assert(ids@.contains(id));
                assert(self.table().nodes.dom().contains(id));
            }
            match self.get(id) {
                Some(node) => {
                    if condition.matches(&node.payload.value) {
                        found.push(node);
                        assert(found@[before.len() as int].id == id);
                    }
                },
                None => {},
            }
            proof {
                assert forall|n: int|
                    0 <= n < i + 1 && holds(
                        condition@,
                        self.table().nodes[#[trigger] ids@[n]].payload.value,
                    ) implies has_match(found@, ids@[n]) by {
                    if n < i {
                        let k = choose|k: int|
                            0 <= k < before.len() && (#[trigger] before[k]).id == ids@[n];
                        assert(found@[k].id == ids@[n]);
                    }
                }
            }
            i += 1;
        }
        proof {
            assert forall|id: NodeId|
                self.table().nodes.contains_key(id) && holds(
                    condition@,
                    self.table().nodes[id].payload.value,
                ) implies #[trigger] has_match(found@, id) by {
                assert(ids@.to_set().contains(id));
                let n = choose|n: int| 0 <= n < ids@.len() && ids@[n] == id;
                assert(has_match(found@, ids@[n]));
            }
        }
        found
    }

    /// The nodes that have this value in a field, in ascending order.
    pub fn filter(&self, key: &str, value: &Json) -> (found: Vec<NodeView<T>>)
        ensures
            are_matches(self.table(), FilterView::Eq(key@, value@), found@),
    {
        self.filter_where(&Filter::eq(key, value.duplicate()))
    }

    /// The number of nodes.
    pub fn node_count(&self) -> (count: usize)
        ensures
            count == self.table().nodes.dom().len(),
    {
        self.table.node_count()
    }

    /// Whether there is a node with this identifier.
    pub fn contains(&self, id: NodeId) -> (result: bool)
        ensures
            result == self.table().nodes.contains_key(id),
    {
        self.table.contains(id)
    }

    /// The number of components of the vectors.
    pub fn dim(&self) -> (dim: usize)
        ensures
            dim == self.table().dim,
    {
        self.table.dim()
    }

    /// All identifiers, in ascending order.
    pub fn all_node_ids(&self) -> (ids: Vec<NodeId>)
        ensures
            ids@.to_set() == self.table().nodes.dom(),
            increasing(ids@),
    {
        self.table.all_node_ids()
    }
}

/// Whether a node is what the table holds under its identifier.
pub open spec fn is_node<T: VectorType>(table: Table<T>, node: NodeView<T>) -> bool {
    &&& table.nodes.contains_key(node.id)
    &&& node.vector@ == table.nodes[node.id].vector
    &&& node.payload@ == table.nodes[node.id].payload
    &&& edge_views(node.edges@) == table.nodes[node.id].edges
}

/// Whether a node is among those found.
pub open spec fn has_match<T: VectorType>(found: Seq<NodeView<T>>, id: NodeId) -> bool {
    exists|k: int| 0 <= k < found.len() && (#[trigger] found[k]).id == id
}

/// Whether these are the nodes of a table that satisfy a filter, in ascending order.
pub open spec fn are_matches<T: VectorType>(
    table: Table<T>,
    condition: FilterView,
    found: Seq<NodeView<T>>,
) -> bool {
    &&& forall|k: int|
        0 <= k < found.len() ==> is_node(table, #[trigger] found[k]) && holds(
            condition,
            table.nodes[found[k].id].payload.value,
        )
    &&& forall|k: int, l: int|
        0 <= k < l < found.len() ==> (#[trigger] found[k]).id < (#[trigger] found[l]).id
    &&& forall|id: NodeId|
        table.nodes.contains_key(id) && holds(condition, table.nodes[id].payload.value)
            ==> #[trigger] has_match(found, id)
}

/// The greater of two numbers.
pub open spec fn highest(a: nat, b: nat) -> nat {
    if a < b {
        b
    } else {
        a
    }
}

/// Edges without their metadata.
pub open spec fn plain_edges(edges: Seq<EdgeView>) -> Seq<EdgeView> {
    edges.map_values(|edge: EdgeView| plain_edge(edge.target, edge.label, edge.weight))
}

/// Whether a table has the same nodes, payloads and edges as another, with vectors of `dim`
/// components that are all `zero`. The next identifier is the one after the largest.
pub open spec fn is_migrated<T: VectorType>(
    from: Table<T>,
    to: Table<T>,
    dim: nat,
    zero: T,
) -> bool {
    &&& to.dim == dim
    &&& to.next_id >= 1
    &&& to.next_id > 1 ==> to.nodes.contains_key((to.next_id - 1) as NodeId)
    &&& to.nodes.dom() == from.nodes.dom()
    &&& forall|id: NodeId| #[trigger]
        from.nodes.contains_key(id) ==> to.nodes[id] == (NodeSpec {
            vector: Seq::new(dim, |i: int| zero),
            payload: from.nodes[id].payload,
            edges: plain_edges(from.nodes[id].edges),
        })
}

/// Setting edges one after the other appends them, where no two have the same target and label.
proof fn lemma_plain_edges_next(edges: Seq<EdgeView>, n: int)
    requires
        0 <= n < edges.len(),
        distinct_edges(edges),
    ensures
        upsert(
            plain_edges(edges.take(n)),
            plain_edge(edges[n].target, edges[n].label, edges[n].weight),
        ) == plain_edges(edges.take(n + 1)),
{
    let few = plain_edges(edges.take(n));
    let edge = plain_edge(edges[n].target, edges[n].label, edges[n].weight);
    lemma_edge_position(few, edge.target, edge.label);
    let position = crate::storage::memtable::edge_position(few, edge.target, edge.label);
    if position < few.len() {
        assert(edges[position].target == few[position].target);
        assert(edges[position].label == few[position].label);
        assert(edges[n].target == edge.target);
    }
    assert(plain_edges(edges.take(n + 1)) =~= few.push(edge));
}

/// What committing operations comes to: all of them are made after the log has accepted their
/// records, or none is made.
pub open spec fn committed<T: VectorType, F: FnOnce(&Vec<WalEntry<T>>) -> Result<()>>(
    before: Table<T>,
    after: Table<T>,
    ops: Seq<Op<T>>,
    append: F,
    result: Result<Vec<NodeId>>,
) -> bool {
    match result {
        Ok(ids) => {
            &&& is_committable(before, ops)
            &&& ids@ == inserted_ids(before, ops, ops.len() as int)
            &&& after == apply_changes(before, plan(before, ops), ops.len() as int)
            &&& ops.len() > 0 ==> exists|entries: Vec<WalEntry<T>>, logged: Result<()>|
                changes(entries@) == plan(before, ops) && logged is Ok && #[trigger] call_ensures(
                    append,
                    (&entries,),
                    logged,
                )
        },
        Err(error) => {
            &&& after == before
            &&& ops.len() > 0
            &&& is_rejected(before, ops, error) || (is_committable(before, ops) && exists|
                entries: Vec<WalEntry<T>>,
            |
                changes(entries@) == plan(before, ops) && #[trigger] call_ensures(
                    append,
                    (&entries,),
                    Err(error),
                ))
        },
    }
}

} // verus!
