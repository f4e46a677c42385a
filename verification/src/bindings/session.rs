//! What Python hands over: options by name, and transactions that end with their block.
use vstd::prelude::*;

use crate::bindings::options::{
    gives, memory_limit_bytes, spec_element_type, spec_sync_mode, ElementType, Parse,
};
use crate::database::builder::TxBuilder;
use crate::database::config::{AccessMode, Config, MissingIndexPolicy, StorageMode};
use crate::database::transaction::Op;
use crate::graph::reachability::ReachabilityDirection;
use crate::node::{NodeId, Payload};
use crate::storage::wal::SyncMode;
use crate::text::same_text;
use crate::vector::VectorType;

verus! {

/// What Python is told of options that are refused.
#[derive(Debug)]
pub enum OptionFault {
    Value(String),
    Overflow(String),
}

/// Whether a database may be written to, by name.
pub open spec fn access_mode_of(name: Seq<char>) -> Option<AccessMode> {
    if name == "read_write"@ {
        Some(AccessMode::ReadWrite)
    } else if name == "read_only"@ {
        Some(AccessMode::ReadOnly)
    } else if name == "immutable"@ {
        Some(AccessMode::Immutable)
    } else {
        None
    }
}

/// Whether a database may be written to.
pub fn parse_access_mode(name: &str) -> (result: Parse<AccessMode>)
    ensures
        gives(
            result,
            access_mode_of(name@),
            "access_mode 必须是 read_write / read_only / immutable"@,
        ),
{
    if same_text(name, "read_write") {
        Ok(AccessMode::ReadWrite)
    } else if same_text(name, "read_only") {
        Ok(AccessMode::ReadOnly)
    } else if same_text(name, "immutable") {
        Ok(AccessMode::Immutable)
    } else {
        Err("access_mode 必须是 read_write / read_only / immutable".to_owned())
    }
}

/// What happens where an index is missing, by name.
pub open spec fn missing_index_policy_of(name: Seq<char>) -> Option<MissingIndexPolicy> {
    if name == "fallback"@ {
        Some(MissingIndexPolicy::Fallback)
    } else if name == "build_in_memory"@ {
        Some(MissingIndexPolicy::BuildInMemory)
    } else if name == "error"@ {
        Some(MissingIndexPolicy::Error)
    } else {
        None
    }
}

/// What happens where an index is missing.
pub fn parse_missing_index_policy(name: &str) -> (result: Parse<MissingIndexPolicy>)
    ensures
        gives(
            result,
            missing_index_policy_of(name@),
            "missing_index_policy 必须是 fallback / build_in_memory / error"@,
        ),
{
    if same_text(name, "fallback") {
        Ok(MissingIndexPolicy::Fallback)
    } else if same_text(name, "build_in_memory") {
        Ok(MissingIndexPolicy::BuildInMemory)
    } else if same_text(name, "error") {
        Ok(MissingIndexPolicy::Error)
    } else {
        Err("missing_index_policy 必须是 fallback / build_in_memory / error".to_owned())
    }
}

/// The direction of a traversal, by name.
pub open spec fn direction_of(name: Seq<char>) -> Option<ReachabilityDirection> {
    if name == "outgoing"@ {
        Some(ReachabilityDirection::Outgoing)
    } else if name == "incoming"@ {
        Some(ReachabilityDirection::Incoming)
    } else if name == "both"@ {
        Some(ReachabilityDirection::Both)
    } else {
        None
    }
}

/// The direction of a traversal.
pub fn parse_direction(name: &str) -> (result: Parse<ReachabilityDirection>)
    ensures
        gives(result, direction_of(name@), "direction 必须是 outgoing / incoming / both"@),
{
    if same_text(name, "outgoing") {
        Ok(ReachabilityDirection::Outgoing)
    } else if same_text(name, "incoming") {
        Ok(ReachabilityDirection::Incoming)
    } else if same_text(name, "both") {
        Ok(ReachabilityDirection::Both)
    } else {
        Err("direction 必须是 outgoing / incoming / both".to_owned())
    }
}

/// How a database is opened.
#[derive(Debug)]
pub struct OpenOptions {
    pub dim: usize,
    pub dtype: String,
    pub sync_mode: String,
    pub load_text_index: bool,
    pub auto_build_quiver: bool,
    pub expected_nodes: Option<usize>,
    pub memory_limit_mb: usize,
    pub access_mode: String,
    pub missing_index_policy: String,
}

/// Why options are refused, the first reason in the order in which they are read.
pub open spec fn open_fault(options: OpenOptions) -> Option<(bool, Seq<char>)> {
    if spec_sync_mode(options.sync_mode@) is None {
        Some((false, "syncMode 必须是 full / normal / off"@))
    } else if options.memory_limit_mb * 1048576 > usize::MAX {
        Some((true, "memory_limit_mb 换算字节时溢出"@))
    } else if access_mode_of(options.access_mode@) is None {
        Some((false, "access_mode 必须是 read_write / read_only / immutable"@))
    } else if missing_index_policy_of(options.missing_index_policy@) is None {
        Some((false, "missing_index_policy 必须是 fallback / build_in_memory / error"@))
    } else if spec_element_type(options.dtype@) is None {
        Some((false, "Unsupported dtype. Use 'f32', 'f16', or 'u64'"@))
    } else {
        None
    }
}

/// Whether a fault is the one that options are refused for.
pub open spec fn is_open_fault(expected: (bool, Seq<char>), fault: OptionFault) -> bool {
    match fault {
        OptionFault::Value(text) => !expected.0 && text@ == expected.1,
        OptionFault::Overflow(text) => expected.0 && text@ == expected.1,
    }
}

impl OpenOptions {
    /// The settings of a database and the type of its components.
    pub fn resolve(&self) -> (result: core::result::Result<(Config, ElementType), OptionFault>)
        ensures
            match result {
                Err(fault) => open_fault(*self) matches Some(expected) && is_open_fault(
                    expected,
                    fault,
                ),
                Ok((config, element)) => {
                    &&& open_fault(*self) is None
                    &&& config.dim == self.dim
                    &&& Some(config.sync_mode) == spec_sync_mode(self.sync_mode@)
                    &&& config.storage_mode == StorageMode::Mmap
                    &&& config.auto_build_quiver == self.auto_build_quiver
                    &&& config.load_text_index == self.load_text_index
                    &&& config.expected_nodes == self.expected_nodes
                    &&& config.memory_limit == self.memory_limit_mb * 1048576
                    &&& Some(config.access_mode) == access_mode_of(self.access_mode@)
                    &&& Some(config.missing_index_policy) == missing_index_policy_of(
                        self.missing_index_policy@,
                    )
                    &&& Some(element) == spec_element_type(self.dtype@)
                },
            },
    {
        let sync_mode = match SyncMode::parse(self.sync_mode.as_str()) {
            Some(mode) => mode,
            None => {
                return Err(
                    OptionFault::Value("syncMode 必须是 full / normal / off".to_owned()),
                );
            },
        };
        let memory_limit: usize = match memory_limit_bytes(self.memory_limit_mb) {
            Some(bytes) => bytes,
            None => {
                return Err(OptionFault::Overflow("memory_limit_mb 换算字节时溢出".to_owned()));
            },
        };
        let access_mode = match parse_access_mode(self.access_mode.as_str()) {
            Ok(mode) => mode,
            Err(text) => {
                return Err(OptionFault::Value(text));
            },
        };
        let missing_index_policy = match parse_missing_index_policy(
            self.missing_index_policy.as_str(),
        ) {
            Ok(policy) => policy,
            Err(text) => {
                return Err(OptionFault::Value(text));
            },
        };
        let dtype = self.dtype.as_str();
        let element = if same_text(dtype, "f32") {
            ElementType::F32
        } else if same_text(dtype, "f16") {
            ElementType::F16
        } else if same_text(dtype, "u64") {
            ElementType::U64
        } else {
            return Err(
                OptionFault::Value("Unsupported dtype. Use 'f32', 'f16', or 'u64'".to_owned()),
            );
        };
        Ok(
            (
                Config {
                    dim: self.dim,
                    sync_mode,
                    storage_mode: StorageMode::Mmap,
                    auto_build_quiver: self.auto_build_quiver,
                    load_text_index: self.load_text_index,
                    expected_nodes: self.expected_nodes,
                    memory_limit,
                    access_mode,
                    missing_index_policy,
                },
                element,
            ),
        )
    }
}

/// A transaction that is handed to Python. It takes operations until it has been committed or
/// rolled back.
#[derive(Debug)]
pub struct PyTransaction<T> {
    builder: Option<TxBuilder<T>>,
}

/// What becomes of a transaction at the end of its block.
#[derive(Debug)]
pub enum BlockEnd<T> {
    Finished,
    Discarded,
    Commit(TxBuilder<T>),
}

impl<T: VectorType> PyTransaction<T> {
    /// The operations of a transaction that is not finished.
    pub closed spec fn pending(&self) -> Option<Seq<Op<T>>> {
        match self.builder {
            Some(builder) => Some(builder@),
            None => None,
        }
    }

    /// Whether one more operation was taken, or the transaction is finished and refuses it.
    pub open spec fn takes(self, after: PyTransaction<T>, op: Op<T>, result: Parse<()>) -> bool {
        match self.pending() {
            Some(ops) => result is Ok && after.pending() == Some(ops.push(op)),
            None => after == self && (result matches Err(text) && text@
                == "事务已结束（已提交或已回滚），不能继续添加操作"@),
        }
    }

    /// A transaction without operations.
    pub fn new() -> (tx: PyTransaction<T>)
        ensures
            tx.pending() == Some(Seq::<Op<T>>::empty()),
    {
        PyTransaction { builder: Some(TxBuilder::new()) }
    }

    /// The operations to add to, unless the transaction is finished.
    fn open(&mut self) -> (result: Parse<TxBuilder<T>>)
        ensures
            match old(self).pending() {
                Some(ops) => result matches Ok(builder) && builder@ == ops
                    && final(self).pending() is None,
                None => *final(self) == *old(self) && (result matches Err(text) && text@
                    == "事务已结束（已提交或已回滚），不能继续添加操作"@),
            },
    {
        match self.builder.take() {
            Some(builder) => Ok(builder),
            None => Err("事务已结束（已提交或已回滚），不能继续添加操作".to_owned()),
        }
    }

    /// Asks for a node to be inserted.
    pub fn insert(&mut self, vector: &[T], payload: Payload) -> (result: Parse<()>)
        ensures
            old(self).takes(
                *final(self),
                Op::Insert { vector: vector@, payload: payload@ },
                result,
            ),
    {
        match self.open() {
            Ok(mut builder) => {
                builder.insert(vector, payload);
                self.builder = Some(builder);
                Ok(())
            },
            Err(text) => Err(text),
        }
    }

    /// Asks for a node to be inserted under a chosen identifier.
    pub fn insert_with_id(&mut self, id: NodeId, vector: &[T], payload: Payload) -> (result: Parse<
        (),
    >)
        ensures
            old(self).takes(
                *final(self),
                Op::InsertWithId { id, vector: vector@, payload: payload@ },
                result,
            ),
    {
        match self.open() {
            Ok(mut builder) => {
                builder.insert_with_id(id, vector, payload);
                self.builder = Some(builder);
                Ok(())
            },
            Err(text) => Err(text),
        }
    }

    /// Asks for an edge to be set.
    pub fn link(&mut self, src: NodeId, dst: NodeId, label: &str, weight: u32) -> (result: Parse<()>)
        ensures
            old(self).takes(
                *final(self),
                Op::Link { src, dst, label: label@, weight, metadata: "null"@ },
                result,
            ),
    {
        match self.open() {
            Ok(mut builder) => {
                builder.link(src, dst, label, weight);
                self.builder = Some(builder);
                Ok(())
            },
            Err(text) => Err(text),
        }
    }

    /// Asks for a node to be deleted.
    pub fn delete(&mut self, id: NodeId) -> (result: Parse<()>)
        ensures
            old(self).takes(*final(self), Op::Delete { id }, result),
    {
        match self.open() {
            Ok(mut builder) => {
                builder.delete(id);
                self.builder = Some(builder);
                Ok(())
            },
            Err(text) => Err(text),
        }
    }

    /// Asks for edges to be removed: the one under a label, or all where none is given.
    pub fn unlink(&mut self, src: NodeId, dst: NodeId, label: Option<&str>) -> (result: Parse<()>)
        ensures
            old(self).takes(
                *final(self),
                match label {
                    Some(text) => Op::UnlinkLabel { src, dst, label: text@ },
                    None => Op::Unlink { src, dst },
                },
                result,
            ),
    {
        match self.open() {
            Ok(mut builder) => {
                match label {
                    Some(text) => builder.unlink_label(src, dst, text),
                    None => builder.unlink(src, dst),
                }
                self.builder = Some(builder);
                Ok(())
            },
            Err(text) => Err(text),
        }
    }

    /// Asks for a payload to be replaced.
    pub fn update_payload(&mut self, id: NodeId, payload: Payload) -> (result: Parse<()>)
        ensures
            old(self).takes(*final(self), Op::UpdatePayload { id, payload: payload@ }, result),
    {
        match self.open() {
            Ok(mut builder) => {
                builder.update_payload(id, payload);
                self.builder = Some(builder);
                Ok(())
            },
            Err(text) => Err(text),
        }
    }

    /// Asks for a vector to be replaced.
    pub fn update_vector(&mut self, id: NodeId, vector: &[T]) -> (result: Parse<()>)
        ensures
            old(self).takes(*final(self), Op::UpdateVector { id, vector: vector@ }, result),
    {
        match self.open() {
            Ok(mut builder) => {
                builder.update_vector(id, vector);
                self.builder = Some(builder);
                Ok(())
            },
            Err(text) => Err(text),
        }
    }

    /// The number of operations; none once the transaction is finished.
    pub fn pending_count(&self) -> (count: usize)
        ensures
            count == match self.pending() {
                Some(ops) => ops.len(),
                None => 0,
            },
    {
        match &self.builder {
            Some(builder) => builder.pending_count(),
            None => 0,
        }
    }

    /// Finishes the transaction and hands out its operations to be committed.
    pub fn commit(&mut self) -> (result: Parse<TxBuilder<T>>)
        ensures
            final(self).pending() is None,
            match old(self).pending() {
                Some(ops) => result matches Ok(builder) && builder@ == ops,
                None => result matches Err(text) && text@
                    == "事务已结束（已提交或已回滚），不能重复提交"@,
            },
    {
        match self.builder.take() {
            Some(builder) => Ok(builder),
            None => Err("事务已结束（已提交或已回滚），不能重复提交".to_owned()),
        }
    }

    /// Finishes the transaction and forgets its operations.
    pub fn rollback(&mut self) -> (result: Parse<()>)
        ensures
            final(self).pending() is None,
            match old(self).pending() {
                Some(_) => result is Ok,
                None => result matches Err(text) && text@
                    == "事务已结束（已提交或已回滚），不能重复回滚"@,
            },
    {
        match self.builder.take() {
            Some(_) => Ok(()),
            None => Err("事务已结束（已提交或已回滚），不能重复回滚".to_owned()),
        }
    }

    /// What happens at the end of the transaction's block: nothing where it is finished, otherwise
    /// it is forgotten where the block failed, and committed where not.
    pub fn end_block(&mut self, failed: bool) -> (end: BlockEnd<T>)
        ensures
            final(self).pending() is None,
            match old(self).pending() {
                None => end is Finished,
                Some(ops) => if failed {
                    end is Discarded
                } else {
                    end matches BlockEnd::Commit(builder) && builder@ == ops
                },
            },
    {
        match self.builder.take() {
            None => BlockEnd::Finished,
            Some(builder) => if failed {
                BlockEnd::Discarded
            } else {
                BlockEnd::Commit(builder)
            },
        }
    }
}

} // verus!
