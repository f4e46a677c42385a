//! Databases by what may be done with them: a reader has nothing that changes the table, a writer
//! hands out the whole database.
use vstd::prelude::*;

use crate::collections::increasing;
use crate::database::config::{AccessMode, Config};
use crate::database::store::{is_node, Database};
use crate::error::{is_invalid_input, Result};
use crate::graph::walk::{outgoing, within};
use crate::node::{edge_views, Edge, EdgeView, IncomingEdge, NodeId, NodeView, Payload};
use crate::storage::memtable::{
    edge_position, is_listed, label_view, lemma_edge_position, MemTable, Table,
};
use crate::text::same_text;
use crate::vector::VectorType;

verus! {

/// A database that is only read.
#[derive(Debug)]
pub struct DatabaseReader<T: VectorType> {
    inner: Database<T>,
}

/// A database that is read and written.
#[derive(Debug)]
pub struct DatabaseWriter<T: VectorType> {
    inner: Database<T>,
}

/// The edge from a node to another with a label, if there is one.
pub open spec fn edge_between<T: VectorType>(
    table: Table<T>,
    src: NodeId,
    dst: NodeId,
    label: Seq<char>,
) -> Option<EdgeView> {
    let edges = table.edges_of(src);
    let position = edge_position(edges, dst, label);
    if position < edges.len() {
        Some(edges[position])
    } else {
        None
    }
}

impl<T: VectorType> DatabaseReader<T> {
    /// What the database holds.
    pub closed spec fn table(&self) -> Table<T> {
        self.inner.table()
    }

    /// Whether the database is in order.
    pub closed spec fn inv(&self) -> bool {
        self.inner.inv()
    }

    /// Opens a loaded table for reading. Settings for writing are refused.
    pub fn open_with_config(config: &Config, table: MemTable<T>) -> (result: Result<
        DatabaseReader<T>,
    >)
        requires
            table.inv(),
        ensures
            match result {
                Ok(reader) => config.access_mode != AccessMode::ReadWrite && reader.inv()
                    && reader.table() == table@,
                Err(error) => config.access_mode == AccessMode::ReadWrite && is_invalid_input(
                    error,
                    "DatabaseReader 只接受 ReadOnly 或 Immutable 配置"@,
                ),
            },
    {
        match config.check_reader() {
            Ok(()) => Ok(DatabaseReader { inner: Database::from_table(table, config.storage_mode) }),
            Err(error) => Err(error),
        }
    }

    /// The node table.
    pub fn memtable(&self) -> (table: &MemTable<T>)
        ensures
            table@ == self.table(),
            table.inv() == self.inv(),
    {
        self.inner.memtable()
    }

    /// Everything stored under an identifier.
    pub fn get(&self, id: NodeId) -> (result: Option<NodeView<T>>)
        ensures
            result is Some <==> self.table().nodes.contains_key(id),
            result matches Some(node) ==> node.id == id && is_node(self.table(), node),
    {
        self.inner.get(id)
    }

    /// The payload of a node.
    pub fn get_payload(&self, id: NodeId) -> (result: Option<Payload>)
        ensures
            match result {
                Some(payload) => self.table().nodes.contains_key(id) && payload@
                    == self.table().nodes[id].payload,
                None => !self.table().nodes.contains_key(id),
            },
    {
        self.inner.get_payload(id)
    }

    /// The edges of a node; none where there is no such node.
    pub fn get_edges(&self, id: NodeId) -> (edges: Vec<Edge>)
        ensures
            edge_views(edges@) == self.table().edges_of(id),
    {
        self.inner.get_edges(id)
    }

    /// The edge from a node to another with a label.
    pub fn get_edge(&self, src: NodeId, dst: NodeId, label: &str) -> (result: Option<Edge>)
        ensures
            match result {
                Some(edge) => edge_between(self.table(), src, dst, label@) == Some(edge@),
                None => edge_between(self.table(), src, dst, label@) is None,
            },
    {
        let edges = self.inner.get_edges(src);
        let ghost all = edge_views(edges@);
        let ghost position = edge_position(all, dst, label@);
        proof {
            lemma_edge_position(all, dst, label@);
        }
        let mut i: usize = 0;
        while i < edges.len()
            invariant
                i <= edges@.len(),
                all == edge_views(edges@),
                all == self.table().edges_of(src),
                position == edge_position(all, dst, label@),
                0 <= position <= all.len(),
                i <= position,
                forall|k: int|
                    0 <= k < position ==> !((#[trigger] all[k]).target == dst && all[k].label
                        == label@),
                position < all.len() ==> all[position].target == dst && all[position].label
                    == label@,
            decreases edges@.len() - i,
        {
            let edge = &edges[i];
            assert(all[i as int] == edge@);
            if edge.target_id == dst && same_text(edge.label.as_str(), label) {
                return Some(edge.duplicate());
            }
            i += 1;
        }
        None
    }

    /// The edges to a node, those with this label where one is given.
    pub fn get_incoming_edges(&self, id: NodeId, label: Option<&str>) -> (edges: Vec<IncomingEdge>)
        requires
            self.inv(),
        ensures
            forall|k: int|
                0 <= k < edges@.len() ==> self.table().is_incoming(
                    id,
                    label_view(label),
                    (#[trigger] edges@[k])@,
                ),
            forall|edge: crate::node::IncomingView| #[trigger]
                self.table().is_incoming(id, label_view(label), edge) ==> is_listed(edges@, edge),
    {
        self.inner.memtable().get_incoming_edges(id, label)
    }

    /// The nodes within `depth` steps of a node, without the node itself, in ascending order.
    pub fn neighbors(&self, id: NodeId, depth: usize) -> (ids: Vec<NodeId>)
        requires
            self.inv(),
        ensures
            increasing(ids@),
            forall|other: NodeId| #[trigger]
                ids@.contains(other) <==> other != id && within(
                    outgoing(self.table(), None),
                    id,
                    other,
                    depth as nat,
                ),
    {
        self.inner.neighbors(id, depth)
    }

    /// The number of nodes.
    pub fn node_count(&self) -> (count: usize)
        ensures
            count == self.table().nodes.dom().len(),
    {
        self.inner.node_count()
    }

    /// Whether there is a node with this identifier.
    pub fn contains(&self, id: NodeId) -> (result: bool)
        ensures
            result == self.table().nodes.contains_key(id),
    {
        self.inner.contains(id)
    }

    /// The number of components of the vectors.
    pub fn dim(&self) -> (dim: usize)
        ensures
            dim == self.table().dim,
    {
        self.inner.dim()
    }

    /// All identifiers, in ascending order.
    pub fn all_node_ids(&self) -> (ids: Vec<NodeId>)
        ensures
            ids@.to_set() == self.table().nodes.dom(),
            increasing(ids@),
    {
        self.inner.all_node_ids()
    }
}

impl<T: VectorType> DatabaseWriter<T> {
    /// The database.
    pub closed spec fn database(&self) -> Database<T> {
        self.inner
    }

    /// Opens a loaded table for writing. Settings for reading are refused.
    pub fn open_with_config(config: &Config, table: MemTable<T>) -> (result: Result<
        DatabaseWriter<T>,
    >)
        requires
            table.inv(),
        ensures
            match result {
                Ok(writer) => config.access_mode == AccessMode::ReadWrite
                    && writer.database().inv() && writer.database().table() == table@
                    && writer.database().storage() == config.storage_mode
                    && writer.database().limit() == config.memory_limit,
                Err(error) => config.access_mode != AccessMode::ReadWrite && is_invalid_input(
                    error,
                    "DatabaseWriter 只接受 ReadWrite 配置"@,
                ),
            },
    {
        match config.check_writer() {
            Ok(()) => {
                let mut inner = Database::from_table(table, config.storage_mode);
                inner.set_memory_limit(config.memory_limit);
                Ok(DatabaseWriter { inner })
            },
            Err(error) => Err(error),
        }
    }

    /// The database to read.
    pub fn deref(&self) -> (database: &Database<T>)
        ensures
            *database == self.database(),
    {
        &self.inner
    }

    /// The database to work with.
    pub fn into_inner(self) -> (database: Database<T>)
        ensures
            database == self.database(),
    {
        self.inner
    }
}

} // verus!
