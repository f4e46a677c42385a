//! Collecting the operations of a transaction.
use vstd::prelude::*;

use crate::database::store::{committed, Database};
use crate::database::transaction::{ids_fit, op_views, Op, TxOp};
use crate::error::Result;
use crate::node::{NodeId, Payload};
use crate::storage::wal::WalEntry;
use crate::vector::{copy_slice, VectorType};

verus! {

/// Operations that have been asked for and not yet been made.
#[derive(Debug)]
pub struct TxBuilder<T> {
    ops: Vec<TxOp<T>>,
}

impl<T> View for TxBuilder<T> {
    type V = Seq<Op<T>>;

    closed spec fn view(&self) -> Seq<Op<T>> {
        op_views(self.ops@)
    }
}

impl<T: VectorType> TxBuilder<T> {
    /// No operations.
    pub fn new() -> (builder: TxBuilder<T>)
        ensures
            builder@ == Seq::<Op<T>>::empty(),
    {
        let builder = TxBuilder { ops: Vec::new() };
        assert(builder@ =~= Seq::<Op<T>>::empty());
        builder
    }

    /// Adds an operation at the end.
    fn push(&mut self, op: TxOp<T>)
        ensures
            final(self)@ == old(self)@.push(op@),
    {
        let ghost before = self.ops@;
        self.ops.push(op);
        assert(op_views(self.ops@) =~= op_views(before).push(op@));
    }

    /// Asks for a node to be inserted.
    pub fn insert(&mut self, vector: &[T], payload: Payload)
        ensures
            final(self)@ == old(self)@.push(Op::Insert { vector: vector@, payload: payload@ }),
    {
        self.push(TxOp::Insert { vector: copy_slice(vector), payload });
    }

    /// Asks for a node to be inserted under a chosen identifier.
    pub fn insert_with_id(&mut self, id: NodeId, vector: &[T], payload: Payload)
        ensures
            final(self)@ == old(self)@.push(
                Op::InsertWithId { id, vector: vector@, payload: payload@ },
            ),
    {
        self.push(TxOp::InsertWithId { id, vector: copy_slice(vector), payload });
    }

    /// Asks for a node to have a vector and a payload: one that is known gets others, and one that
    /// is not is inserted.
    pub fn upsert_with_id(&mut self, known: bool, id: NodeId, vector: &[T], payload: Payload)
        ensures
            final(self)@ == if known {
                old(self)@.push(Op::UpdateVector { id, vector: vector@ }).push(
                    Op::UpdatePayload { id, payload: payload@ },
                )
            } else {
                old(self)@.push(Op::InsertWithId { id, vector: vector@, payload: payload@ })
            },
    {
        if known {
            self.update_vector(id, vector);
            self.update_payload(id, payload);
        } else {
            self.insert_with_id(id, vector, payload);
        }
    }

    /// Asks for an edge to be set.
    pub fn link(&mut self, src: NodeId, dst: NodeId, label: &str, weight: u32)
        ensures
            final(self)@ == old(self)@.push(
                Op::Link { src, dst, label: label@, weight, metadata: "null"@ },
            ),
    {
        self.push(TxOp::Link { src, dst, label: label.to_owned(), weight });
    }

    /// Asks for an edge to be set, with metadata.
    pub fn upsert_edge(
        &mut self,
        src: NodeId,
        dst: NodeId,
        label: &str,
        weight: u32,
        metadata: &str,
    )
        ensures
            final(self)@ == old(self)@.push(
                Op::Link { src, dst, label: label@, weight, metadata: metadata@ },
            ),
    {
        self.push(
            TxOp::UpsertEdge {
                src,
                dst,
                label: label.to_owned(),
                weight,
                metadata: metadata.to_owned(),
            },
        );
    }

    /// Asks for the edge from one node to another under a label to be removed.
    pub fn unlink_label(&mut self, src: NodeId, dst: NodeId, label: &str)
        ensures
            final(self)@ == old(self)@.push(Op::UnlinkLabel { src, dst, label: label@ }),
    {
        self.push(TxOp::UnlinkLabel { src, dst, label: label.to_owned() });
    }

    /// Asks for a node to be deleted.
    pub fn delete(&mut self, id: NodeId)
        ensures
            final(self)@ == old(self)@.push(Op::Delete { id }),
    {
        self.push(TxOp::Delete { id });
    }

    /// Asks for the edges from one node to another to be removed.
    pub fn unlink(&mut self, src: NodeId, dst: NodeId)
        ensures
            final(self)@ == old(self)@.push(Op::Unlink { src, dst }),
    {
        self.push(TxOp::Unlink { src, dst });
    }

    /// Asks for a payload to be replaced.
    pub fn update_payload(&mut self, id: NodeId, payload: Payload)
        ensures
            final(self)@ == old(self)@.push(Op::UpdatePayload { id, payload: payload@ }),
    {
        self.push(TxOp::UpdatePayload { id, payload });
    }

    /// Asks for a vector to be replaced.
    pub fn update_vector(&mut self, id: NodeId, vector: &[T])
        ensures
            final(self)@ == old(self)@.push(Op::UpdateVector { id, vector: vector@ }),
    {
        self.push(TxOp::UpdateVector { id, vector: copy_slice(vector) });
    }

    /// The number of operations.
    pub fn pending_count(&self) -> (count: usize)
        ensures
            count == self@.len(),
    {
        self.ops.len()
    }

    /// The operations, in the order in which they were asked for.
    pub fn into_ops(self) -> (ops: Vec<TxOp<T>>)
        ensures
            op_views(ops@) == self@,
    {
        self.ops
    }
}

impl<T: VectorType> Default for TxBuilder<T> {
    fn default() -> (builder: TxBuilder<T>)
        ensures
            builder@ == Seq::<Op<T>>::empty(),
    {
        TxBuilder::new()
    }
}

impl<T: VectorType> Database<T> {
    /// Starts a transaction.
    pub fn begin_tx(&self) -> (tx: Transaction<T>)
        ensures
            tx@ == Seq::<Op<T>>::empty(),
    {
        Transaction { pending: TxBuilder::new() }
    }

    /// Commits what a builder collected: all of it or none.
    pub fn commit_tx<F: FnOnce(&Vec<WalEntry<T>>) -> Result<()>>(
        &mut self,
        builder: TxBuilder<T>,
        append: F,
    ) -> (result: Result<Vec<NodeId>>)
        requires
            old(self).inv(),
            ids_fit(old(self).table(), builder@),
            forall|entries: &Vec<WalEntry<T>>| #[trigger] call_requires(append, (entries,)),
        ensures
            final(self).inv(),
            final(self).limit() == old(self).limit(),
            final(self).storage() == old(self).storage(),
            committed(old(self).table(), final(self).table(), builder@, append, result),
    {
        let ops = builder.into_ops();
        self.commit_ops(&ops, append)
    }
}

/// A transaction: operations that take effect together when it is committed, and not at all when
/// it is rolled back or dropped.
#[derive(Debug)]
pub struct Transaction<T> {
    pending: TxBuilder<T>,
}

impl<T> View for Transaction<T> {
    type V = Seq<Op<T>>;

    closed spec fn view(&self) -> Seq<Op<T>> {
        self.pending@
    }
}

impl<T: VectorType> Transaction<T> {
    /// Asks for a node to be inserted.
    pub fn insert(&mut self, vector: &[T], payload: Payload)
        ensures
            final(self)@ == old(self)@.push(Op::Insert { vector: vector@, payload: payload@ }),
    {
        self.pending.insert(vector, payload);
    }

    /// Asks for a node to be inserted under a chosen identifier.
    pub fn insert_with_id(&mut self, id: NodeId, vector: &[T], payload: Payload)
        ensures
            final(self)@ == old(self)@.push(
                Op::InsertWithId { id, vector: vector@, payload: payload@ },
            ),
    {
        self.pending.insert_with_id(id, vector, payload);
    }

    /// Asks for an edge to be set.
    pub fn link(&mut self, src: NodeId, dst: NodeId, label: &str, weight: u32)
        ensures
            final(self)@ == old(self)@.push(
                Op::Link { src, dst, label: label@, weight, metadata: "null"@ },
            ),
    {
        self.pending.link(src, dst, label, weight);
    }

    /// Asks for an edge to be set, with metadata.
    pub fn upsert_edge(
        &mut self,
        src: NodeId,
        dst: NodeId,
        label: &str,
        weight: u32,
        metadata: &str,
    )
        ensures
            final(self)@ == old(self)@.push(
                Op::Link { src, dst, label: label@, weight, metadata: metadata@ },
            ),
    {
        self.pending.upsert_edge(src, dst, label, weight, metadata);
    }

    /// Asks for the edge from one node to another under a label to be removed.
    pub fn unlink_label(&mut self, src: NodeId, dst: NodeId, label: &str)
        ensures
            final(self)@ == old(self)@.push(Op::UnlinkLabel { src, dst, label: label@ }),
    {
        self.pending.unlink_label(src, dst, label);
    }

    /// Asks for a node to be deleted.
    pub fn delete(&mut self, id: NodeId)
        ensures
            final(self)@ == old(self)@.push(Op::Delete { id }),
    {
        self.pending.delete(id);
    }

    /// Asks for the edges from one node to another to be removed.
    pub fn unlink(&mut self, src: NodeId, dst: NodeId)
        ensures
            final(self)@ == old(self)@.push(Op::Unlink { src, dst }),
    {
        self.pending.unlink(src, dst);
    }

    /// Asks for a payload to be replaced.
    pub fn update_payload(&mut self, id: NodeId, payload: Payload)
        ensures
            final(self)@ == old(self)@.push(Op::UpdatePayload { id, payload: payload@ }),
    {
        self.pending.update_payload(id, payload);
    }

    /// Asks for a vector to be replaced.
    pub fn update_vector(&mut self, id: NodeId, vector: &[T])
        ensures
            final(self)@ == old(self)@.push(Op::UpdateVector { id, vector: vector@ }),
    {
        self.pending.update_vector(id, vector);
    }

    /// The number of operations.
    pub fn pending_count(&self) -> (count: usize)
        ensures
            count == self@.len(),
    {
        self.pending.pending_count()
    }

    /// Makes all changes, after the log has accepted their records, or none.
    pub fn commit<F: FnOnce(&Vec<WalEntry<T>>) -> Result<()>>(
        self,
        db: &mut Database<T>,
        append: F,
    ) -> (result: Result<Vec<NodeId>>)
        requires
            old(db).inv(),
            ids_fit(old(db).table(), self@),
            forall|entries: &Vec<WalEntry<T>>| #[trigger] call_requires(append, (entries,)),
        ensures
            final(db).inv(),
            final(db).limit() == old(db).limit(),
            final(db).storage() == old(db).storage(),
            committed(old(db).table(), final(db).table(), self@, append, result),
    {
        db.commit_tx(self.pending, append)
    }

    /// Drops the operations and returns how many there were.
    pub fn rollback(self) -> (dropped: usize)
        ensures
            dropped == self@.len(),
    {
        self.pending.pending_count()
    }
}

} // verus!
