//! Transactions and log replay.
//!
//! A transaction is a list of buffered operations. Committing it checks every operation
//! against a simulated state, translates the operations to log records, hands the records to
//! the log, and only then changes the table.
use std::collections::HashSet;
use vstd::prelude::*;

use crate::error::{Result, TriviumError};
use crate::node::{EdgeView, NodeId, Payload, PayloadView};
use crate::storage::memtable::{
    is_vector_fault, law_delete_leaves_no_trace, law_unlink_label_removes_one_edge,
    lemma_edge_position, lemma_upsert, lemma_without_target, upsert, valid_vector, without_label,
    without_target, MemTable, Table,
};
use crate::storage::wal::{changes, Change, WalEntry};
use crate::vector::{copy_slice, VectorType};

verus! {

/// The longest encoded payload that is accepted, in bytes.
pub const MAX_PAYLOAD_BYTES: usize = 8_388_608;

/// A buffered operation. Weights are single precision bit patterns.
#[derive(Debug)]
pub enum TxOp<T> {
    Insert { vector: Vec<T>, payload: Payload },
    InsertWithId { id: NodeId, vector: Vec<T>, payload: Payload },
    Link { src: NodeId, dst: NodeId, label: String, weight: u32 },
    UpsertEdge { src: NodeId, dst: NodeId, label: String, weight: u32, metadata: String },
    Delete { id: NodeId },
    Unlink { src: NodeId, dst: NodeId },
    UnlinkLabel { src: NodeId, dst: NodeId, label: String },
    UpdatePayload { id: NodeId, payload: Payload },
    UpdateVector { id: NodeId, vector: Vec<T> },
}

/// A buffered operation as mathematical values.
pub enum Op<T> {
    Insert { vector: Seq<T>, payload: PayloadView },
    InsertWithId { id: NodeId, vector: Seq<T>, payload: PayloadView },
    Link { src: NodeId, dst: NodeId, label: Seq<char>, weight: u32, metadata: Seq<char> },
    Delete { id: NodeId },
    Unlink { src: NodeId, dst: NodeId },
    UnlinkLabel { src: NodeId, dst: NodeId, label: Seq<char> },
    UpdatePayload { id: NodeId, payload: PayloadView },
    UpdateVector { id: NodeId, vector: Seq<T> },
}

impl<T> View for TxOp<T> {
    type V = Op<T>;

    open spec fn view(&self) -> Op<T> {
        match *self {
            TxOp::Insert { vector, payload } => Op::Insert { vector: vector@, payload: payload@ },
            TxOp::InsertWithId { id, vector, payload } => Op::InsertWithId {
                id,
                vector: vector@,
                payload: payload@,
            },
            TxOp::Link { src, dst, label, weight } => Op::Link {
                src,
                dst,
                label: label@,
                weight,
                metadata: "null"@,
            },
            TxOp::UpsertEdge { src, dst, label, weight, metadata } => Op::Link {
                src,
                dst,
                label: label@,
                weight,
                metadata: metadata@,
            },
            TxOp::Delete { id } => Op::Delete { id },
            TxOp::Unlink { src, dst } => Op::Unlink { src, dst },
            TxOp::UnlinkLabel { src, dst, label } => Op::UnlinkLabel { src, dst, label: label@ },
            TxOp::UpdatePayload { id, payload } => Op::UpdatePayload { id, payload: payload@ },
            TxOp::UpdateVector { id, vector } => Op::UpdateVector { id, vector: vector@ },
        }
    }
}

/// The views of a list of operations.
pub open spec fn op_views<T>(ops: Seq<TxOp<T>>) -> Seq<Op<T>> {
    ops.map_values(|op: TxOp<T>| op@)
}

// ---------------------------------------------------------------------------------------
// Log replay
// ---------------------------------------------------------------------------------------
/// What replaying one log record does to a table. An insert of a node that exists, or of a
/// vector with another dimension, is skipped, but its identifier is never handed out again.
/// Every other record acts only where the nodes that it names exist.
pub open spec fn apply_change<T: VectorType>(table: Table<T>, change: Change<T>) -> Table<T> {
    match change {
        Change::Insert { id, vector, payload } => {
            let stored = if !table.nodes.contains_key(id) && vector.len() == table.dim {
                table.insert(id, vector, payload)
            } else {
                table
            };
            Table {
                next_id: if stored.next_id <= id { id as nat + 1 } else { stored.next_id },
                ..stored
            }
        },
        Change::Link { src, dst, label, weight, metadata } => if table.nodes.contains_key(src)
            && table.nodes.contains_key(dst) {
            table.link(src, EdgeView { target: dst, label, weight, metadata })
        } else {
            table
        },
        Change::Delete { id } => if table.nodes.contains_key(id) {
            table.delete(id)
        } else {
            table
        },
        Change::Unlink { src, dst } => if table.nodes.contains_key(src) {
            table.unlink(src, dst)
        } else {
            table
        },
        Change::UnlinkLabel { src, dst, label } => if table.nodes.contains_key(src) {
            table.unlink_label(src, dst, label)
        } else {
            table
        },
        Change::UpdatePayload { id, payload } => if table.nodes.contains_key(id) {
            table.set_payload(id, payload)
        } else {
            table
        },
        Change::UpdateVector { id, vector } => if table.nodes.contains_key(id) && vector.len()
            == table.dim {
            table.set_vector(id, vector)
        } else {
            table
        },
        Change::Marker => table,
    }
}

/// What replaying the first `count` records does to a table.
pub open spec fn apply_changes<T: VectorType>(
    table: Table<T>,
    log: Seq<Change<T>>,
    count: int,
) -> Table<T>
    decreases count,
{
    if count <= 0 {
        table
    } else {
        apply_change(apply_changes(table, log, count - 1), log[count - 1])
    }
}

/// The largest identifier cannot be given to a node: there would be no next one.
pub open spec fn loggable<T>(change: Change<T>) -> bool {
    change matches Change::Insert { id, .. } ==> id < u64::MAX
}

/// Replays one log record.
pub fn replay_entry<T: VectorType>(table: &mut MemTable<T>, entry: &WalEntry<T>)
    requires
        old(table).inv(),
        loggable(entry@),
    ensures
        final(table).inv(),
        final(table)@ == apply_change(old(table)@, entry@),
{
    match entry {
        WalEntry::Insert { id, vector, payload } => {
            let _ = table.raw_insert(*id, vector.as_slice(), payload);
            table.advance_next_id(*id + 1);
        },
        WalEntry::Link { src, dst, label, weight, metadata } => {
            let _ = table.upsert_edge(*src, *dst, label.as_str(), *weight, metadata.as_str());
        },
        WalEntry::Delete { id } => {
            let _ = table.delete(*id);
        },
        WalEntry::Unlink { src, dst } => {
            let _ = table.unlink(*src, *dst);
        },
        WalEntry::UnlinkLabel { src, dst, label } => {
            let _ = table.unlink_label(*src, *dst, label.as_str());
        },
        WalEntry::UpdatePayload { id, payload } => {
            let _ = table.update_payload(*id, payload);
        },
        WalEntry::UpdateVector { id, vector } => {
            let _ = table.raw_update_vector(*id, vector.as_slice());
        },
        WalEntry::TxBegin { .. } => {},
        WalEntry::TxCommit { .. } => {},
    }
}

/// Replays a log, record by record.
pub fn replay<T: VectorType>(table: &mut MemTable<T>, entries: &Vec<WalEntry<T>>)
    requires
        old(table).inv(),
        forall|i: int| 0 <= i < entries@.len() ==> loggable((#[trigger] entries@[i])@),
    ensures
        final(table).inv(),
        final(table)@ == apply_changes(old(table)@, changes(entries@), entries@.len() as int),
{
    let ghost start = table@;
    let mut i: usize = 0;
    while i < entries.len()
        invariant
            i <= entries@.len(),
            table.inv(),
            forall|j: int| 0 <= j < entries@.len() ==> loggable((#[trigger] entries@[j])@),
            table@ == apply_changes(start, changes(entries@), i as int),
        decreases entries@.len() - i,
    {
        replay_entry(table, &entries[i]);
        assert(changes(entries@)[i as int] == entries@[i as int]@);
        i += 1;
    }
}

// ---------------------------------------------------------------------------------------
// Checking a transaction
// ---------------------------------------------------------------------------------------
/// The state that the check of a transaction simulates: the identifier that the next new node
/// will get, the identifiers inserted so far and those deleted so far and not inserted again.
pub struct Simulation {
    pub next: nat,
    pub inserted: Set<NodeId>,
    pub deleted: Set<NodeId>,
}

/// Whether a node counts as existing at this point of the check.
pub open spec fn sim_exists<T>(table: Table<T>, sim: Simulation, id: NodeId) -> bool {
    !sim.deleted.contains(id) && (sim.inserted.contains(id) || table.nodes.contains_key(id))
}

/// Whether the check accepts an operation.
pub open spec fn accepts<T: VectorType>(table: Table<T>, sim: Simulation, op: Op<T>) -> bool {
    match op {
        Op::Insert { vector, .. } => valid_vector(table.dim, vector),
        Op::InsertWithId { id, vector, .. } => !sim_exists(table, sim, id) && valid_vector(
            table.dim,
            vector,
        ),
        Op::Link { src, dst, .. } => sim_exists(table, sim, src) && sim_exists(table, sim, dst),
        Op::Delete { id } => sim_exists(table, sim, id),
        Op::Unlink { src, .. } => sim_exists(table, sim, src),
        Op::UnlinkLabel { src, .. } => sim_exists(table, sim, src),
        Op::UpdatePayload { id, .. } => sim_exists(table, sim, id),
        Op::UpdateVector { id, vector } => sim_exists(table, sim, id) && valid_vector(
            table.dim,
            vector,
        ),
    }
}

/// Whether `error` is the one with which the check refuses an operation.
pub open spec fn is_refusal<T: VectorType>(
    table: Table<T>,
    sim: Simulation,
    op: Op<T>,
    error: TriviumError,
) -> bool {
    match op {
        Op::Insert { vector, .. } => is_vector_fault(table.dim, vector, error),
        Op::InsertWithId { id, vector, .. } => if sim_exists(table, sim, id) {
            error == TriviumError::NodeAlreadyExists(id)
        } else {
            is_vector_fault(table.dim, vector, error)
        },
        Op::Link { src, dst, .. } => error == TriviumError::NodeNotFound(
            if !sim_exists(table, sim, src) {
                src
            } else {
                dst
            },
        ),
        Op::Delete { id } => error == TriviumError::NodeNotFound(id),
        Op::Unlink { src, .. } => error == TriviumError::NodeNotFound(src),
        Op::UnlinkLabel { src, .. } => error == TriviumError::NodeNotFound(src),
        Op::UpdatePayload { id, .. } => error == TriviumError::NodeNotFound(id),
        Op::UpdateVector { id, vector } => if !sim_exists(table, sim, id) {
            error == TriviumError::NodeNotFound(id)
        } else {
            is_vector_fault(table.dim, vector, error)
        },
    }
}

/// The simulated state after one more operation.
pub open spec fn sim_step<T>(sim: Simulation, op: Op<T>) -> Simulation {
    match op {
        Op::Insert { .. } => Simulation {
            next: sim.next + 1,
            inserted: sim.inserted.insert(sim.next as u64),
            deleted: sim.deleted.remove(sim.next as u64),
        },
        Op::InsertWithId { id, .. } => Simulation {
            next: if sim.next <= id { id as nat + 1 } else { sim.next },
            inserted: sim.inserted.insert(id),
            deleted: sim.deleted.remove(id),
        },
        Op::Delete { id } => Simulation { deleted: sim.deleted.insert(id), ..sim },
        _ => sim,
    }
}

/// The simulated state after the first `count` operations.
pub open spec fn sim_after<T>(table: Table<T>, ops: Seq<Op<T>>, count: int) -> Simulation
    decreases count,
{
    if count <= 0 {
        Simulation { next: table.next_id, inserted: Set::empty(), deleted: Set::empty() }
    } else {
        sim_step(sim_after(table, ops, count - 1), ops[count - 1])
    }
}

/// Whether the check accepts the first `count` operations.
pub open spec fn accepts_first<T: VectorType>(
    table: Table<T>,
    ops: Seq<Op<T>>,
    count: int,
) -> bool {
    forall|k: int|
        0 <= k < count ==> accepts(table, sim_after(table, ops, k), #[trigger] ops[k])
}

/// Whether the identifiers that the transaction uses leave a next one. Counting stops where
/// the check refuses an operation.
pub open spec fn ids_fit<T: VectorType>(table: Table<T>, ops: Seq<Op<T>>) -> bool {
    forall|count: int|
        0 <= count <= ops.len() && accepts_first(table, ops, count) ==> (#[trigger] sim_after(
            table,
            ops,
            count,
        )).next <= u64::MAX
}

// ---------------------------------------------------------------------------------------
// Translating a transaction to log records
// ---------------------------------------------------------------------------------------
/// The payload that an operation stores, if any.
pub open spec fn stored_payload<T>(op: Op<T>) -> Option<PayloadView> {
    match op {
        Op::Insert { payload, .. } => Some(payload),
        Op::InsertWithId { payload, .. } => Some(payload),
        Op::UpdatePayload { payload, .. } => Some(payload),
        _ => None,
    }
}

/// The number of bytes of the payload that an operation stores.
pub open spec fn payload_bytes<T>(op: Op<T>) -> nat {
    match stored_payload(op) {
        Some(payload) => vstd::utf8::encode_utf8(payload.text).len(),
        None => 0,
    }
}

/// Whether the payloads of the first `count` operations are within the limit.
pub open spec fn payloads_fit<T>(ops: Seq<Op<T>>, count: int) -> bool {
    forall|k: int| 0 <= k < count ==> payload_bytes(#[trigger] ops[k]) <= MAX_PAYLOAD_BYTES
}

/// The log record of an operation that follows this simulated state.
pub open spec fn planned_change<T>(sim: Simulation, op: Op<T>) -> Change<T> {
    match op {
        Op::Insert { vector, payload } => Change::Insert { id: sim.next as u64, vector, payload },
        Op::InsertWithId { id, vector, payload } => Change::Insert { id, vector, payload },
        Op::Link { src, dst, label, weight, metadata } => Change::Link {
            src,
            dst,
            label,
            weight,
            metadata,
        },
        Op::Delete { id } => Change::Delete { id },
        Op::Unlink { src, dst } => Change::Unlink { src, dst },
        Op::UnlinkLabel { src, dst, label } => Change::UnlinkLabel { src, dst, label },
        Op::UpdatePayload { id, payload } => Change::UpdatePayload { id, payload },
        Op::UpdateVector { id, vector } => Change::UpdateVector { id, vector },
    }
}

/// The log records of a transaction.
pub open spec fn plan<T: VectorType>(table: Table<T>, ops: Seq<Op<T>>) -> Seq<Change<T>> {
    Seq::new(ops.len(), |k: int| planned_change(sim_after(table, ops, k), ops[k]))
}

/// The identifiers of the nodes that the first `count` operations insert, in order.
pub open spec fn inserted_ids<T: VectorType>(
    table: Table<T>,
    ops: Seq<Op<T>>,
    count: int,
) -> Seq<NodeId>
    decreases count,
{
    if count <= 0 {
        Seq::empty()
    } else {
        let before = inserted_ids(table, ops, count - 1);
        match ops[count - 1] {
            Op::Insert { .. } => before.push(sim_after(table, ops, count - 1).next as u64),
            Op::InsertWithId { id, .. } => before.push(id),
            _ => before,
        }
    }
}

/// Whether a transaction is refused before anything is logged, with this error: by the check
/// of its first unacceptable operation, or, where the check accepts all of them, for its first
/// payload beyond the limit.
pub open spec fn is_rejected<T: VectorType>(
    table: Table<T>,
    ops: Seq<Op<T>>,
    error: TriviumError,
) -> bool {
    ||| exists|k: int|
        0 <= k < ops.len() && accepts_first(table, ops, k) && !accepts(
            table,
            sim_after(table, ops, k),
            #[trigger] ops[k],
        ) && is_refusal(table, sim_after(table, ops, k), ops[k], error)
    ||| accepts_first(table, ops, ops.len() as int) && exists|k: int|
        0 <= k < ops.len() && payloads_fit(ops, k) && payload_bytes(#[trigger] ops[k])
            > MAX_PAYLOAD_BYTES && (error matches TriviumError::PayloadTooLarge {
            size_bytes,
            max_bytes,
        } && size_bytes == payload_bytes(ops[k]) && max_bytes == MAX_PAYLOAD_BYTES)
}

/// Whether a transaction can be committed.
pub open spec fn is_committable<T: VectorType>(table: Table<T>, ops: Seq<Op<T>>) -> bool {
    accepts_first(table, ops, ops.len() as int) && payloads_fit(ops, ops.len() as int)
}

/// The log records of a transaction and the identifiers that it hands out.
#[derive(Debug)]
pub struct CommitPlan<T> {
    pub entries: Vec<WalEntry<T>>,
    pub ids: Vec<NodeId>,
}

/// Whether a node counts as existing at this point of the check.
fn exists_in<T: VectorType>(
    table: &MemTable<T>,
    inserted: &HashSet<NodeId>,
    deleted: &HashSet<NodeId>,
    id: NodeId,
    Ghost(sim): Ghost<Simulation>,
) -> (result: bool)
    requires
        inserted@ == sim.inserted,
        deleted@ == sim.deleted,
    ensures
        result == sim_exists(table@, sim, id),
{
    !deleted.contains(&id) && (inserted.contains(&id) || table.contains(id))
}

/// `Ok` where the node counts as existing at this point of the check.
fn require_node<T: VectorType>(
    table: &MemTable<T>,
    inserted: &HashSet<NodeId>,
    deleted: &HashSet<NodeId>,
    id: NodeId,
    Ghost(sim): Ghost<Simulation>,
) -> (result: Result<()>)
    requires
        inserted@ == sim.inserted,
        deleted@ == sim.deleted,
    ensures
        result == (if sim_exists(table@, sim, id) {
            Ok(())
        } else {
            Err(TriviumError::NodeNotFound(id))
        }),
{
    if exists_in(table, inserted, deleted, id, Ghost(sim)) {
        Ok(())
    } else {
        Err(TriviumError::NodeNotFound(id))
    }
}

/// Checks every operation and assigns the identifiers of new nodes, without touching the table.
/// The result holds, for each operation, the identifier of the node that it inserts.
fn dry_run<T: VectorType>(table: &MemTable<T>, ops: &Vec<TxOp<T>>) -> (result: Result<
    Vec<Option<NodeId>>,
>)
    requires
        ids_fit(table@, op_views(ops@)),
    ensures
        match result {
            Ok(assigned) => {
                &&& accepts_first(table@, op_views(ops@), ops@.len() as int)
                &&& assigned@.len() == ops@.len()
                &&& forall|k: int|
                    0 <= k < ops@.len() ==> (op_views(ops@)[k] is Insert ==> (
                    #[trigger] assigned@[k]) == Some(
                        sim_after(table@, op_views(ops@), k).next as u64,
                    ))
            },
            Err(error) => exists|k: int|
                0 <= k < ops@.len() && accepts_first(table@, op_views(ops@), k) && !accepts(
                    table@,
                    sim_after(table@, op_views(ops@), k),
                    #[trigger] op_views(ops@)[k],
                ) && is_refusal(
                    table@,
                    sim_after(table@, op_views(ops@), k),
                    op_views(ops@)[k],
                    error,
                ),
        },
{
    let ghost views = op_views(ops@);
    let mut next: NodeId = table.next_id_value();
    let mut inserted: HashSet<NodeId> = HashSet::new();
    let mut deleted: HashSet<NodeId> = HashSet::new();
    let mut assigned: Vec<Option<NodeId>> = Vec::new();
    let mut i: usize = 0;
    while i < ops.len()
        invariant
            i <= ops@.len(),
            views == op_views(ops@),
            ids_fit(table@, views),
            accepts_first(table@, views, i as int),
            assigned@.len() == i,
            next == sim_after(table@, views, i as int).next,
            inserted@ == sim_after(table@, views, i as int).inserted,
            deleted@ == sim_after(table@, views, i as int).deleted,
            forall|k: int|
                0 <= k < i ==> (views[k] is Insert ==> (#[trigger] assigned@[k]) == Some(
                    sim_after(table@, views, k).next as u64,
                )),
        decreases ops@.len() - i,
    {
        let ghost sim = sim_after(table@, views, i as int);
        assert(views[i as int] == ops@[i as int]@);
        let checked: Result<()> = match &ops[i] {
            TxOp::Insert { vector, .. } => table.validate_insert(vector.as_slice()),
            TxOp::InsertWithId { id, vector, .. } => {
                if exists_in(table, &inserted, &deleted, *id, Ghost(sim)) {
                    Err(TriviumError::NodeAlreadyExists(*id))
                } else {
                    table.validate_insert(vector.as_slice())
                }
            },
            TxOp::Link { src, dst, .. } => {
                match require_node(table, &inserted, &deleted, *src, Ghost(sim)) {
                    Ok(()) => require_node(table, &inserted, &deleted, *dst, Ghost(sim)),
                    Err(error) => Err(error),
                }
            },
            TxOp::UpsertEdge { src, dst, .. } => {
                match require_node(table, &inserted, &deleted, *src, Ghost(sim)) {
                    Ok(()) => require_node(table, &inserted, &deleted, *dst, Ghost(sim)),
                    Err(error) => Err(error),
                }
            },
            TxOp::Delete { id } => require_node(table, &inserted, &deleted, *id, Ghost(sim)),
            TxOp::Unlink { src, .. } => require_node(table, &inserted, &deleted, *src, Ghost(sim)),
            TxOp::UnlinkLabel { src, .. } => {
                require_node(table, &inserted, &deleted, *src, Ghost(sim))
            },
            TxOp::UpdatePayload { id, .. } => {
                require_node(table, &inserted, &deleted, *id, Ghost(sim))
            },
            TxOp::UpdateVector { id, vector } => {
                match require_node(table, &inserted, &deleted, *id, Ghost(sim)) {
                    Ok(()) => table.validate_insert(vector.as_slice()),
                    Err(error) => Err(error),
                }
            },
        };
        match checked {
            Ok(()) => {},
            Err(error) => {
                assert(is_refusal(table@, sim, views[i as int], error));
                return Err(error);
            },
        }
        proof {
            assert(accepts(table@, sim, views[i as int]));
            assert(accepts_first(table@, views, i + 1));
            assert(sim_after(table@, views, i + 1) == sim_step(sim, views[i as int]));
            assert(sim_after(table@, views, i + 1).next <= u64::MAX);
        }
        match &ops[i] {
            TxOp::Insert { .. } => {
                assigned.push(Some(next));
                inserted.insert(next);
                let _ = deleted.remove(&next);
                next += 1;
            },
            TxOp::InsertWithId { id, .. } => {
                assigned.push(Some(*id));
                inserted.insert(*id);
                let _ = deleted.remove(id);
                if *id >= next {
                    next = *id + 1;
                }
            },
            TxOp::Delete { id } => {
                deleted.insert(*id);
                assigned.push(None);
            },
            _ => {
                assigned.push(None);
            },
        }
        i += 1;
    }
    Ok(assigned)
}

/// The identifier after all that a list of operations can use.
pub open spec fn id_bound<T: VectorType>(table: Table<T>, ops: Seq<Op<T>>, count: int) -> nat
    decreases count,
{
    if count <= 0 {
        table.next_id
    } else {
        let before = id_bound(table, ops, count - 1);
        match ops[count - 1] {
            Op::InsertWithId { id, .. } => if before <= id {
                id as nat + 1
            } else {
                before
            },
            Op::Insert { .. } => before + 1,
            _ => before,
        }
    }
}

/// The simulated state never runs past the bound.
proof fn lemma_id_bound<T: VectorType>(table: Table<T>, ops: Seq<Op<T>>, count: int)
    requires
        0 <= count <= ops.len(),
    ensures
        sim_after(table, ops, count).next == id_bound(table, ops, count),
        forall|few: int|
            0 <= few <= count ==> (#[trigger] sim_after(table, ops, few)).next <= id_bound(
                table,
                ops,
                count,
            ),
    decreases count,
{
    if count > 0 {
        lemma_id_bound(table, ops, count - 1);
    }
}

/// Whether the identifiers that a transaction can use all leave a next one.
pub fn leaves_next_id<T: VectorType>(table: &MemTable<T>, ops: &Vec<TxOp<T>>) -> (result: bool)
    ensures
        result == (id_bound(table@, op_views(ops@), ops@.len() as int) <= u64::MAX),
        result ==> ids_fit(table@, op_views(ops@)),
{
    let ghost views = op_views(ops@);
    let mut next: u64 = table.next_id_value();
    let mut i: usize = 0;
    while i < ops.len()
        invariant
            i <= ops@.len(),
            views == op_views(ops@),
            next == id_bound(table@, views, i as int),
        decreases ops@.len() - i,
    {
        assert(views[i as int] == ops@[i as int]@);
        let bound: u64 = match &ops[i] {
            TxOp::InsertWithId { id, .. } => *id,
            TxOp::Insert { .. } => next,
            _ => 0,
        };
        let inserts = match &ops[i] {
            TxOp::InsertWithId { .. } => true,
            TxOp::Insert { .. } => true,
            _ => false,
        };
        if inserts && next <= bound {
            if bound == u64::MAX {
                proof {
                    lemma_bound_grows(table@, views, i + 1, views.len() as int);
                }
                return false;
            }
            next = bound + 1;
        }
        i += 1;
    }
    proof {
        lemma_id_bound(table@, views, views.len() as int);
    }
    true
}

/// More operations use no fewer identifiers.
proof fn lemma_bound_grows<T: VectorType>(table: Table<T>, ops: Seq<Op<T>>, few: int, many: int)
    requires
        few <= many,
    ensures
        id_bound(table, ops, few) <= id_bound(table, ops, many),
    decreases many - few,
{
    if few < many {
        lemma_bound_grows(table, ops, few, many - 1);
    }
}

/// Rejects a payload beyond the limit.
pub fn check_payload(payload: &Payload) -> (result: Result<()>)
    ensures
        result == (if vstd::utf8::encode_utf8(payload@.text).len() > MAX_PAYLOAD_BYTES {
            Err(
                TriviumError::PayloadTooLarge {
                    size_bytes: vstd::utf8::encode_utf8(payload@.text).len() as usize,
                    max_bytes: MAX_PAYLOAD_BYTES,
                },
            )
        } else {
            Ok(())
        }),
        vstd::utf8::encode_utf8(payload@.text).len() <= usize::MAX,
{
    let size: usize = payload.text.as_str().as_bytes().len();
    if size > MAX_PAYLOAD_BYTES {
        return Err(TriviumError::PayloadTooLarge { size_bytes: size, max_bytes: MAX_PAYLOAD_BYTES });
    }
    Ok(())
}

/// Checks a transaction and translates it to log records, without touching the table.
pub fn plan_commit<T: VectorType>(table: &MemTable<T>, ops: &Vec<TxOp<T>>) -> (result: Result<
    CommitPlan<T>,
>)
    requires
        table.inv(),
        ids_fit(table@, op_views(ops@)),
    ensures
        match result {
            Ok(planned) => {
                &&& is_committable(table@, op_views(ops@))
                &&& changes(planned.entries@) == plan(table@, op_views(ops@))
                &&& planned.ids@ == inserted_ids(table@, op_views(ops@), ops@.len() as int)
            },
            Err(error) => is_rejected(table@, op_views(ops@), error),
        },
{
    let ghost views = op_views(ops@);
    let assigned = match dry_run(table, ops) {
        Ok(assigned) => assigned,
        Err(error) => {
            return Err(error);
        },
    };
    let mut entries: Vec<WalEntry<T>> = Vec::new();
    let mut ids: Vec<NodeId> = Vec::new();
    let mut i: usize = 0;
    while i < ops.len()
        invariant
            i <= ops@.len(),
            views == op_views(ops@),
            accepts_first(table@, views, ops@.len() as int),
            ids_fit(table@, views),
            assigned@.len() == ops@.len(),
            forall|k: int|
                0 <= k < ops@.len() ==> (views[k] is Insert ==> (#[trigger] assigned@[k]) == Some(
                    sim_after(table@, views, k).next as u64,
                )),
            payloads_fit(views, i as int),
            changes(entries@) == plan(table@, views).subrange(0, i as int),
            ids@ == inserted_ids(table@, views, i as int),
        decreases ops@.len() - i,
    {
        let ghost sim = sim_after(table@, views, i as int);
        let ghost logged = entries@;
        assert(views[i as int] == ops@[i as int]@);
        let checked: Result<()> = match &ops[i] {
            TxOp::Insert { payload, .. } => check_payload(payload),
            TxOp::InsertWithId { payload, .. } => check_payload(payload),
            TxOp::UpdatePayload { payload, .. } => check_payload(payload),
            _ => Ok(()),
        };
        match checked {
            Ok(()) => {},
            Err(error) => {
                assert(payload_bytes(views[i as int]) > MAX_PAYLOAD_BYTES);
                return Err(error);
            },
        }
        let entry: WalEntry<T> = match &ops[i] {
            TxOp::Insert { vector, payload } => {
                assert(assigned@[i as int] == Some(sim.next as u64));
                let id: NodeId = assigned[i].unwrap();
                ids.push(id);
                WalEntry::Insert {
                    id,
                    vector: copy_slice(vector.as_slice()),
                    payload: payload.duplicate(),
                }
            },
            TxOp::InsertWithId { id, vector, payload } => {
                ids.push(*id);
                WalEntry::Insert {
                    id: *id,
                    vector: copy_slice(vector.as_slice()),
                    payload: payload.duplicate(),
                }
            },
            TxOp::Link { src, dst, label, weight } => WalEntry::Link {
                src: *src,
                dst: *dst,
                label: label.clone(),
                weight: *weight,
                metadata: "null".to_owned(),
            },
            TxOp::UpsertEdge { src, dst, label, weight, metadata } => WalEntry::Link {
                src: *src,
                dst: *dst,
                label: label.clone(),
                weight: *weight,
                metadata: metadata.clone(),
            },
            TxOp::Delete { id } => WalEntry::Delete { id: *id },
            TxOp::Unlink { src, dst } => WalEntry::Unlink { src: *src, dst: *dst },
            TxOp::UnlinkLabel { src, dst, label } => WalEntry::UnlinkLabel {
                src: *src,
                dst: *dst,
                label: label.clone(),
            },
            TxOp::UpdatePayload { id, payload } => WalEntry::UpdatePayload {
                id: *id,
                payload: payload.duplicate(),
            },
            TxOp::UpdateVector { id, vector } => WalEntry::UpdateVector {
                id: *id,
                vector: copy_slice(vector.as_slice()),
            },
        };
        entries.push(entry);
        proof {
            assert(entry@ == planned_change(sim, views[i as int]));
            assert(changes(entries@) =~= changes(logged).push(entry@));
            assert(plan(table@, views).subrange(0, i + 1) =~= plan(table@, views).subrange(
                0,
                i as int,
            ).push(plan(table@, views)[i as int]));
        }
        i += 1;
    }
    assert(plan(table@, views).subrange(0, i as int) =~= plan(table@, views));
    Ok(CommitPlan { entries, ids })
}

/// Commits a transaction: checks it, hands its log records to `append`, and changes the table
/// only when `append` succeeded. An empty transaction logs nothing.
pub fn commit_ops<T: VectorType, F: FnOnce(&Vec<WalEntry<T>>) -> Result<()>>(
    table: &mut MemTable<T>,
    ops: &Vec<TxOp<T>>,
    append: F,
) -> (result: Result<Vec<NodeId>>)
    requires
        old(table).inv(),
        ids_fit(old(table)@, op_views(ops@)),
        forall|entries: &Vec<WalEntry<T>>|
            changes(entries@) == plan(old(table)@, op_views(ops@)) ==> #[trigger] call_requires(
                append,
                (entries,),
            ),
    ensures
        final(table).inv(),
        match result {
            Ok(ids) => {
                &&& is_committable(old(table)@, op_views(ops@))
                &&& ids@ == inserted_ids(old(table)@, op_views(ops@), ops@.len() as int)
                &&& final(table)@ == apply_changes(
                    old(table)@,
                    plan(old(table)@, op_views(ops@)),
                    ops@.len() as int,
                )
                &&& ops@.len() > 0 ==> exists|entries: Vec<WalEntry<T>>, logged: Result<()>|
                    changes(entries@) == plan(old(table)@, op_views(ops@)) && logged is Ok
                        && #[trigger] call_ensures(append, (&entries,), logged)
            },
            Err(error) => {
                &&& final(table)@ == old(table)@
                &&& ops@.len() > 0
                &&& is_rejected(old(table)@, op_views(ops@), error) || (is_committable(
                    old(table)@,
                    op_views(ops@),
                ) && exists|entries: Vec<WalEntry<T>>|
                    changes(entries@) == plan(old(table)@, op_views(ops@))
                        && #[trigger] call_ensures(append, (&entries,), Err(error)))
            },
        },
{
    let ghost start = table@;
    let ghost views = op_views(ops@);
    if ops.len() == 0 {
        return Ok(Vec::new());
    }
    let planned = match plan_commit(table, ops) {
        Ok(planned) => planned,
        Err(error) => {
            return Err(error);
        },
    };
    let logged = append(&planned.entries);
    match logged {
        Ok(()) => {},
        Err(error) => {
            return Err(error);
        },
    }
    proof {
        assert(changes(planned.entries@).len() == planned.entries@.len());
        assert forall|i: int| 0 <= i < planned.entries@.len() implies loggable(
            (#[trigger] planned.entries@[i])@,
        ) by {
            assert(changes(planned.entries@)[i] == planned.entries@[i]@);
            assert(accepts_first(start, views, i + 1));
            assert(sim_after(start, views, i + 1) == sim_step(
                sim_after(start, views, i),
                views[i],
            ));
            assert(sim_after(start, views, i + 1).next <= u64::MAX);
        }
    }
    replay(table, &planned.entries);
    Ok(planned.ids)
}

// ---------------------------------------------------------------------------------------
// Laws
// ---------------------------------------------------------------------------------------
/// Replaying a record keeps the table well formed and never lowers the next identifier; the
/// identifier of a replayed insert is never handed out again.
pub proof fn law_replay_keeps_table_sound<T: VectorType>(table: Table<T>, change: Change<T>)
    requires
        table.well_formed(),
    ensures
        apply_change(table, change).well_formed(),
        apply_change(table, change).dim == table.dim,
        apply_change(table, change).next_id >= table.next_id,
        change matches Change::Insert { id, .. } ==> apply_change(table, change).next_id > id,
{
    let after = apply_change(table, change);
    match change {
        Change::Link { src, dst, label, weight, metadata } => {
            if table.nodes.contains_key(src) && table.nodes.contains_key(dst) {
                let edge = EdgeView { target: dst, label, weight, metadata };
                let edges = table.nodes[src].edges;
                lemma_upsert(edges, edge);
                assert forall|id: NodeId, i: int|
                    after.nodes.contains_key(id) && 0 <= i
                        < after.nodes[id].edges.len() implies after.nodes.contains_key(
                    (#[trigger] after.nodes[id].edges[i]).target,
                ) by {
                    if id != src {
                        assert(table.nodes.contains_key(table.nodes[id].edges[i].target));
                    } else if upsert(edges, edge)[i] != edge {
                        assert(edges.contains(upsert(edges, edge)[i]));
                        let j = choose|j: int|
                            0 <= j < edges.len() && edges[j] == upsert(edges, edge)[i];
                        assert(table.nodes.contains_key(table.nodes[src].edges[j].target));
                    }
                }
            }
        },
        Change::Delete { id } => {
            law_delete_leaves_no_trace(table, id);
        },
        Change::Unlink { src, dst } => {
            if table.nodes.contains_key(src) {
                let edges = table.nodes[src].edges;
                lemma_without_target(edges, dst);
                assert forall|id: NodeId, i: int|
                    after.nodes.contains_key(id) && 0 <= i
                        < after.nodes[id].edges.len() implies after.nodes.contains_key(
                    (#[trigger] after.nodes[id].edges[i]).target,
                ) by {
                    if id != src {
                        assert(table.nodes.contains_key(table.nodes[id].edges[i].target));
                    } else {
                        assert(edges.contains(without_target(edges, dst)[i]));
                        let j = choose|j: int|
                            0 <= j < edges.len() && edges[j] == without_target(edges, dst)[i];
                        assert(table.nodes.contains_key(table.nodes[src].edges[j].target));
                    }
                }
            }
        },
        Change::UnlinkLabel { src, dst, label } => {
            if table.nodes.contains_key(src) {
                law_unlink_label_removes_one_edge(table, src, dst, label);
            }
        },
        _ => {
            assert forall|id: NodeId, i: int|
                after.nodes.contains_key(id) && 0 <= i
                    < after.nodes[id].edges.len() implies after.nodes.contains_key(
                (#[trigger] after.nodes[id].edges[i]).target,
            ) by {
                assert(table.nodes.contains_key(table.nodes[id].edges[i].target));
            }
        },
    }
}

/// Setting the same edge twice is setting it once.
proof fn lemma_upsert_twice(edges: Seq<EdgeView>, edge: EdgeView)
    ensures
        upsert(upsert(edges, edge), edge) == upsert(edges, edge),
{
    let once = upsert(edges, edge);
    lemma_edge_position(edges, edge.target, edge.label);
    lemma_edge_position(once, edge.target, edge.label);
    let first = edge_at(edges, edge);
    let second = edge_at(once, edge);
    assert(once[if first < edges.len() { first } else { edges.len() as int }] == edge);
    if second < first {
        assert(edges[second] == once[second]);
    }
    assert(upsert(once, edge) =~= once);
}

/// Where `edge` is set in `edges`.
spec fn edge_at(edges: Seq<EdgeView>, edge: EdgeView) -> int {
    crate::storage::memtable::edge_position(edges, edge.target, edge.label)
}

/// Taking an edge out twice is taking it out once.
proof fn lemma_without_label_twice(edges: Seq<EdgeView>, target: NodeId, label: Seq<char>)
    ensures
        without_label(without_label(edges, target, label), target, label) == without_label(
            edges,
            target,
            label,
        ),
    decreases edges.len(),
{
    reveal(Seq::filter);
    if edges.len() > 0 {
        let keep = |edge: EdgeView| !(edge.target == target && edge.label == label);
        let shorter = edges.drop_last();
        let kept = without_label(shorter, target, label);
        lemma_without_label_twice(shorter, target, label);
        if keep(edges.last()) {
            let all = kept.push(edges.last());
            assert(without_label(edges, target, label) == all);
            assert(all.drop_last() =~= kept);
            assert(without_label(all, target, label) == without_label(kept, target, label).push(
                edges.last(),
            ));
        }
    }
}

/// Replaying a record twice has the same effect as replaying it once.
pub proof fn law_replay_is_idempotent<T: VectorType>(table: Table<T>, change: Change<T>)
    requires
        table.well_formed(),
    ensures
        apply_change(apply_change(table, change), change) == apply_change(table, change),
{
    let once = apply_change(table, change);
    let twice = apply_change(once, change);
    match change {
        Change::Insert { id, vector, .. } => {},
        Change::Link { src, dst, label, weight, metadata } => {
            if table.nodes.contains_key(src) && table.nodes.contains_key(dst) {
                lemma_upsert_twice(
                    table.nodes[src].edges,
                    EdgeView { target: dst, label, weight, metadata },
                );
                assert(twice.nodes =~= once.nodes);
            }
        },
        Change::Delete { id } => {
            law_delete_leaves_no_trace(table, id);
        },
        Change::Unlink { src, dst } => {
            if table.nodes.contains_key(src) {
                let edges = table.nodes[src].edges;
                lemma_without_target(edges, dst);
                assert(!crate::storage::memtable::leads_to(without_target(edges, dst), dst));
                lemma_without_target(without_target(edges, dst), dst);
                assert(twice.nodes =~= once.nodes);
            }
        },
        Change::UnlinkLabel { src, dst, label } => {
            if table.nodes.contains_key(src) {
                lemma_without_label_twice(table.nodes[src].edges, dst, label);
                assert(twice.nodes =~= once.nodes);
            }
        },
        Change::UpdatePayload { id, .. } => {
            assert(twice.nodes =~= once.nodes);
        },
        Change::UpdateVector { id, .. } => {
            assert(twice.nodes =~= once.nodes);
        },
        Change::Marker => {},
    }
}

/// What holds of the table and of the simulated state after the first `count` operations of a
/// transaction that the check accepts that far: both agree on the next identifier and on which
/// nodes exist.
pub open spec fn in_step<T: VectorType>(table: Table<T>, ops: Seq<Op<T>>, count: int) -> bool {
    let now = apply_changes(table, plan(table, ops), count);
    let sim = sim_after(table, ops, count);
    &&& now.well_formed()
    &&& now.dim == table.dim
    &&& now.next_id == sim.next
    &&& forall|id: NodeId| #[trigger] sim_exists(table, sim, id) <==> now.nodes.contains_key(id)
}

/// The check and the table stay in step.
pub proof fn law_check_simulates_commit<T: VectorType>(
    table: Table<T>,
    ops: Seq<Op<T>>,
    count: int,
)
    requires
        table.well_formed(),
        ids_fit(table, ops),
        0 <= count <= ops.len(),
        accepts_first(table, ops, count),
    ensures
        in_step(table, ops, count),
    decreases count,
{
    if count > 0 {
        let k = count - 1;
        assert(accepts_first(table, ops, k));
        law_check_simulates_commit(table, ops, k);
        let before = apply_changes(table, plan(table, ops), k);
        let now = apply_changes(table, plan(table, ops), count);
        let old_sim = sim_after(table, ops, k);
        let sim = sim_after(table, ops, count);
        assert(plan(table, ops)[k] == planned_change(old_sim, ops[k]));
        assert(now == apply_change(before, plan(table, ops)[k]));
        assert(accepts(table, old_sim, ops[k]));
        assert(sim.next <= u64::MAX);
        law_replay_keeps_table_sound(before, plan(table, ops)[k]);
        assert forall|id: NodeId| #[trigger]
            sim_exists(table, sim, id) <==> now.nodes.contains_key(id) by {
            assert(sim_exists(table, old_sim, id) <==> before.nodes.contains_key(id));
            match ops[k] {
                Op::Delete { id: gone } => {
                    law_delete_leaves_no_trace(before, gone);
                    assert(now.nodes.contains_key(id) <==> before.delete(gone).nodes.contains_key(
                        id,
                    ));
                },
                _ => {},
            }
        }
    }
}

/// Applying a transaction that the check accepts cannot fail: each of its operations finds the
/// nodes that it needs in the state that the ones before it left, and acts; a node is inserted
/// under an identifier that no node has.
pub proof fn law_checked_operations_act<T: VectorType>(table: Table<T>, ops: Seq<Op<T>>, k: int)
    requires
        table.well_formed(),
        ids_fit(table, ops),
        0 <= k < ops.len(),
        accepts_first(table, ops, ops.len() as int),
    ensures
        ({
            let before = apply_changes(table, plan(table, ops), k);
            let after = apply_changes(table, plan(table, ops), k + 1);
            let sim = sim_after(table, ops, k);
            match ops[k] {
                Op::Insert { vector, payload } => !before.nodes.contains_key(sim.next as u64)
                    && after == before.insert(sim.next as u64, vector, payload),
                Op::InsertWithId { id, vector, payload } => !before.nodes.contains_key(id) && after
                    == before.insert(id, vector, payload),
                Op::Link { src, dst, label, weight, metadata } => before.nodes.contains_key(src)
                    && before.nodes.contains_key(dst) && after == before.link(
                    src,
                    (EdgeView { target: dst, label, weight, metadata }),
                ),
                Op::Delete { id } => before.nodes.contains_key(id) && after == before.delete(id),
                Op::Unlink { src, dst } => before.nodes.contains_key(src) && after
                    == before.unlink(src, dst),
                Op::UnlinkLabel { src, dst, label } => before.nodes.contains_key(src) && after
                    == before.unlink_label(src, dst, label),
                Op::UpdatePayload { id, payload } => before.nodes.contains_key(id) && after
                    == before.set_payload(id, payload),
                Op::UpdateVector { id, vector } => before.nodes.contains_key(id) && after
                    == before.set_vector(id, vector),
            }
        }),
{
    assert(accepts_first(table, ops, k));
    assert(accepts_first(table, ops, k + 1));
    law_check_simulates_commit(table, ops, k);
    let before = apply_changes(table, plan(table, ops), k);
    let sim = sim_after(table, ops, k);
    assert(plan(table, ops)[k] == planned_change(sim, ops[k]));
    assert(apply_changes(table, plan(table, ops), k + 1) == apply_change(
        before,
        plan(table, ops)[k],
    ));
    assert(accepts(table, sim, ops[k]));
    assert(sim_after(table, ops, k + 1).next <= u64::MAX);
    if let Op::InsertWithId { id, .. } = ops[k] {
        assert(sim_exists(table, sim, id) <==> before.nodes.contains_key(id));
    }
}

} // verus!
