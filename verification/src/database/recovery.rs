//! Recovery: a log may be replayed again on a table that holds its changes already.
use vstd::prelude::*;

use crate::database::transaction::{
    accepts, accepts_first, apply_change, apply_changes, ids_fit, is_committable,
    law_checked_operations_act, law_replay_keeps_table_sound, plan, planned_change, sim_after, Op,
};
use crate::node::{EdgeView, NodeId, PayloadView};
use crate::storage::memtable::{
    distinct_edges, edge_position, law_delete_leaves_no_trace, lemma_edge_position,
    lemma_without_label, lemma_without_target, upsert, without_target, Table,
};
use crate::storage::wal::Change;
use crate::vector::VectorType;

verus! {

/// Whether a change has an effect on a table: what it names is there, or is not there yet.
pub open spec fn acts<T: VectorType>(table: Table<T>, change: Change<T>) -> bool {
    match change {
        Change::Insert { id, vector, .. } => !table.nodes.contains_key(id) && vector.len()
            == table.dim,
        Change::Link { src, dst, .. } => table.nodes.contains_key(src) && table.nodes.contains_key(
            dst,
        ),
        Change::Delete { id } => table.nodes.contains_key(id),
        Change::Unlink { src, .. } => table.nodes.contains_key(src),
        Change::UnlinkLabel { src, .. } => table.nodes.contains_key(src),
        Change::UpdatePayload { id, .. } => table.nodes.contains_key(id),
        Change::UpdateVector { id, vector } => table.nodes.contains_key(id) && vector.len()
            == table.dim,
        Change::Marker => true,
    }
}

/// Whether each change of a log has an effect when it comes.
pub open spec fn is_working_log<T: VectorType>(table: Table<T>, log: Seq<Change<T>>) -> bool {
    forall|i: int|
        0 <= i < log.len() ==> acts(apply_changes(table, log, i), #[trigger] log[i])
}

/// The vector of a node, if there is one.
pub open spec fn vector_of<T: VectorType>(table: Table<T>, id: NodeId) -> Option<Seq<T>> {
    if table.nodes.contains_key(id) {
        Some(table.nodes[id].vector)
    } else {
        None
    }
}

/// The payload of a node, if there is one.
pub open spec fn payload_of<T: VectorType>(table: Table<T>, id: NodeId) -> Option<PayloadView> {
    if table.nodes.contains_key(id) {
        Some(table.nodes[id].payload)
    } else {
        None
    }
}

/// Whether a node has an edge.
pub open spec fn holds_edge<T: VectorType>(table: Table<T>, src: NodeId, edge: EdgeView) -> bool {
    table.edges_of(src).contains(edge)
}

/// Whether two tables agree on the edge from one node to another with a label.
pub open spec fn agree_on_edge<T: VectorType>(
    a: Table<T>,
    b: Table<T>,
    src: NodeId,
    dst: NodeId,
    label: Seq<char>,
) -> bool {
    forall|edge: EdgeView|
        edge.target == dst && edge.label == label ==> (#[trigger] holds_edge(a, src, edge)
            <==> holds_edge(b, src, edge))
}

/// Whether two tables hold the same, up to the order of the edges of a node.
pub open spec fn same_contents<T: VectorType>(a: Table<T>, b: Table<T>) -> bool {
    &&& a.dim == b.dim
    &&& a.next_id == b.next_id
    &&& forall|id: NodeId| #[trigger] vector_of(a, id) == vector_of(b, id)
    &&& forall|id: NodeId| #[trigger] payload_of(a, id) == payload_of(b, id)
    &&& forall|src: NodeId, edge: EdgeView| #[trigger]
        holds_edge(a, src, edge) <==> holds_edge(b, src, edge)
}

/// Whether a table is, in each part, as one or as another.
spec fn is_between<T: VectorType>(now: Table<T>, then: Table<T>, end: Table<T>) -> bool {
    &&& now.well_formed()
    &&& then.well_formed()
    &&& end.well_formed()
    &&& now.dim == end.dim
    &&& then.dim == end.dim
    &&& now.next_id == end.next_id
    &&& forall|id: NodeId| #[trigger]
        vector_of(now, id) == vector_of(then, id) || vector_of(now, id) == vector_of(end, id)
    &&& forall|id: NodeId| #[trigger]
        payload_of(now, id) == payload_of(then, id) || payload_of(now, id) == payload_of(end, id)
    &&& forall|src: NodeId, dst: NodeId, label: Seq<char>|
        #![trigger agree_on_edge(now, then, src, dst, label)]
        #![trigger agree_on_edge(now, end, src, dst, label)]
        agree_on_edge(now, then, src, dst, label) || agree_on_edge(now, end, src, dst, label)
}

/// What a list of edges holds after an edge has been set.
proof fn lemma_upsert_holds(edges: Seq<EdgeView>, edge: EdgeView, other: EdgeView)
    requires
        distinct_edges(edges),
    ensures
        upsert(edges, edge).contains(other) <==> other == edge || (edges.contains(other) && !(
        other.target == edge.target && other.label == edge.label)),
{
    lemma_edge_position(edges, edge.target, edge.label);
    let position = edge_position(edges, edge.target, edge.label);
    let after = upsert(edges, edge);
    if position < edges.len() {
        assert(after[position] == edge);
    } else {
        assert(after[edges.len() as int] == edge);
    }
    if edges.contains(other) && !(other.target == edge.target && other.label == edge.label) {
        let i = choose|i: int| 0 <= i < edges.len() && edges[i] == other;
        assert(i != position);
        assert(after[i] == other);
    }
    if after.contains(other) && other != edge {
        let i = choose|i: int| 0 <= i < after.len() && after[i] == other;
        assert(i != position);
        assert(i < edges.len());
        assert(edges[i] == other);
        if other.target == edge.target && other.label == edge.label {
            assert(position < edges.len());
            if i < position {
                assert(!(edges[i].target == edges[position].target && edges[i].label
                    == edges[position].label));
            } else {
                assert(!(edges[position].target == edges[i].target && edges[position].label
                    == edges[i].label));
            }
        }
    }
}

/// What a list of edges holds without those to a target.
proof fn lemma_without_holds(edges: Seq<EdgeView>, target: NodeId, other: EdgeView)
    ensures
        without_target(edges, target).contains(other) <==> edges.contains(other) && other.target
            != target,
{
    let keep = |edge: EdgeView| edge.target != target;
    let kept = edges.filter(keep);
    lemma_without_target(edges, target);
    if kept.contains(other) {
        let i = choose|i: int| 0 <= i < kept.len() && kept[i] == other;
        assert(without_target(edges, target)[i] == other);
    }
    if edges.contains(other) && other.target != target {
        let i = choose|i: int| 0 <= i < edges.len() && edges[i] == other;
        edges.lemma_filter_contains(keep, i);
    }
}

/// A node whose edges are known is there.
proof fn lemma_edge_ends<T: VectorType>(table: Table<T>, src: NodeId, edge: EdgeView)
    requires
        table.well_formed(),
        holds_edge(table, src, edge),
    ensures
        table.nodes.contains_key(src),
        table.nodes.contains_key(edge.target),
{
    let edges = table.edges_of(src);
    let i = choose|i: int| 0 <= i < edges.len() && edges[i] == edge;
    assert(table.nodes.contains_key(table.nodes[src].edges[i].target));
}

/// The edges of a table after a change.
spec fn holds_after<T: VectorType>(
    table: Table<T>,
    change: Change<T>,
    src: NodeId,
    edge: EdgeView,
) -> bool {
    match change {
        Change::Link { src: from, dst, label, weight, metadata } => {
            let set = EdgeView { target: dst, label, weight, metadata };
            if acts(table, change) && src == from && edge.target == dst && edge.label == label {
                edge == set
            } else {
                holds_edge(table, src, edge)
            }
        },
        Change::Delete { id } => holds_edge(table, src, edge) && src != id && edge.target != id,
        Change::Unlink { src: from, dst } => holds_edge(table, src, edge) && !(src == from
            && edge.target == dst),
        Change::UnlinkLabel { src: from, dst, label } => holds_edge(table, src, edge) && !(src
            == from && edge.target == dst && edge.label == label),
        _ => holds_edge(table, src, edge),
    }
}

/// The edges of a table after a change.
proof fn lemma_holds_after<T: VectorType>(
    table: Table<T>,
    change: Change<T>,
    src: NodeId,
    edge: EdgeView,
)
    requires
        table.well_formed(),
    ensures
        holds_edge(apply_change(table, change), src, edge) <==> holds_after(
            table,
            change,
            src,
            edge,
        ),
{
    let after = apply_change(table, change);
    if holds_edge(table, src, edge) {
        lemma_edge_ends(table, src, edge);
    }
    match change {
        Change::Insert { id, .. } => {
            if src == id && !table.nodes.contains_key(id) {
                assert(after.edges_of(src).len() == 0);
                assert(table.edges_of(src).len() == 0);
            }
        },
        Change::Link { src: from, dst, label, weight, metadata } => {
            if acts(table, change) && src == from {
                lemma_upsert_holds(
                    table.nodes[from].edges,
                    EdgeView { target: dst, label, weight, metadata },
                    edge,
                );
            }
        },
        Change::Delete { id } => {
            if table.nodes.contains_key(id) {
                law_delete_leaves_no_trace(table, id);
                if src != id && table.nodes.contains_key(src) {
                    assert(after.nodes.contains_key(src));
                    assert(after.nodes[src].edges == without_target(table.nodes[src].edges, id));
                    lemma_without_holds(table.nodes[src].edges, id, edge);
                } else {
                    assert(after.edges_of(src).len() == 0) by {
                        if after.nodes.contains_key(src) {
                            assert(table.nodes.contains_key(src));
                        }
                    }
                }
            }
        },
        Change::Unlink { src: from, dst } => {
            if table.nodes.contains_key(from) && src == from {
                lemma_without_holds(table.nodes[from].edges, dst, edge);
            }
        },
        Change::UnlinkLabel { src: from, dst, label } => {
            if table.nodes.contains_key(from) && src == from {
                lemma_without_label(table.nodes[from].edges, dst, label);
            }
        },
        _ => {},
    }
}

/// A change that has an effect on a table keeps another table between it and the end.
#[verifier::spinoff_prover]
proof fn lemma_nodes_between<T: VectorType>(
    now: Table<T>,
    then: Table<T>,
    end: Table<T>,
    change: Change<T>,
    id: NodeId,
)
    requires
        is_between(now, then, end),
        acts(then, change),
    ensures
        ({
            let next = apply_change(now, change);
            let after = apply_change(then, change);
            &&& vector_of(next, id) == vector_of(after, id) || vector_of(next, id) == vector_of(
                end,
                id,
            )
            &&& payload_of(next, id) == payload_of(after, id) || payload_of(next, id)
                == payload_of(end, id)
        }),
{
    let next = apply_change(now, change);
    let after = apply_change(then, change);
    assert(vector_of(now, id) == vector_of(then, id) || vector_of(now, id) == vector_of(end, id));
    assert(payload_of(now, id) == payload_of(then, id) || payload_of(now, id) == payload_of(
        end,
        id,
    ));
    if let Change::Delete { id: gone } = change {
        law_delete_leaves_no_trace(now, gone);
        law_delete_leaves_no_trace(then, gone);
        assert(after.nodes.contains_key(id) ==> then.delete(gone).nodes.contains_key(id));
        assert(next.nodes.contains_key(id) ==> now.nodes.contains_key(id));
    }
}

/// A change that has an effect on a table keeps the edges of another table between.
#[verifier::spinoff_prover]
proof fn lemma_edges_between<T: VectorType>(
    now: Table<T>,
    then: Table<T>,
    end: Table<T>,
    change: Change<T>,
    src: NodeId,
    dst: NodeId,
    label: Seq<char>,
)
    requires
        is_between(now, then, end),
        acts(then, change),
    ensures
        agree_on_edge(apply_change(now, change), apply_change(then, change), src, dst, label)
            || agree_on_edge(apply_change(now, change), end, src, dst, label),
{
    let next = apply_change(now, change);
    let after = apply_change(then, change);
    assert(agree_on_edge(now, then, src, dst, label) || agree_on_edge(now, end, src, dst, label));
    assert forall|edge: EdgeView| true implies (#[trigger] holds_edge(next, src, edge)
        <==> holds_after(now, change, src, edge)) by {
        lemma_holds_after(now, change, src, edge);
    }
    assert forall|edge: EdgeView| true implies (#[trigger] holds_edge(after, src, edge)
        <==> holds_after(then, change, src, edge)) by {
        lemma_holds_after(then, change, src, edge);
    }
    match change {
        Change::Link { src: from, dst: to, label: text, .. } => {
            if from == src && to == dst && text == label {
                if acts(now, change) {
                    assert(agree_on_edge(next, after, src, dst, label));
                } else {
                    let missing = if now.nodes.contains_key(from) {
                        to
                    } else {
                        from
                    };
                    assert(vector_of(now, missing) == vector_of(end, missing)) by {
                        assert(vector_of(now, missing) == vector_of(then, missing) || vector_of(
                            now,
                            missing,
                        ) == vector_of(end, missing));
                    }
                    assert forall|edge: EdgeView|
                        edge.target == dst && edge.label == label implies (#[trigger] holds_edge(
                        next,
                        src,
                        edge,
                    ) <==> holds_edge(end, src, edge)) by {
                        if holds_edge(now, src, edge) {
                            lemma_edge_ends(now, src, edge);
                        }
                        if holds_edge(end, src, edge) {
                            lemma_edge_ends(end, src, edge);
                        }
                    }
                    assert(agree_on_edge(next, end, src, dst, label));
                }
            } else if agree_on_edge(now, then, src, dst, label) {
                assert(agree_on_edge(next, after, src, dst, label));
            } else {
                assert(agree_on_edge(next, end, src, dst, label));
            }
        },
        Change::Delete { id } => {
            if src == id || dst == id {
                assert(agree_on_edge(next, after, src, dst, label));
            } else if agree_on_edge(now, then, src, dst, label) {
                assert(agree_on_edge(next, after, src, dst, label));
            } else {
                assert(agree_on_edge(next, end, src, dst, label));
            }
        },
        Change::Unlink { src: from, dst: to } => {
            if src == from && dst == to {
                assert(agree_on_edge(next, after, src, dst, label));
            } else if agree_on_edge(now, then, src, dst, label) {
                assert(agree_on_edge(next, after, src, dst, label));
            } else {
                assert(agree_on_edge(next, end, src, dst, label));
            }
        },
        Change::UnlinkLabel { src: from, dst: to, label: text } => {
            if src == from && dst == to && label == text {
                assert(agree_on_edge(next, after, src, dst, label));
            } else if agree_on_edge(now, then, src, dst, label) {
                assert(agree_on_edge(next, after, src, dst, label));
            } else {
                assert(agree_on_edge(next, end, src, dst, label));
            }
        },
        _ => {
            if agree_on_edge(now, then, src, dst, label) {
                assert(agree_on_edge(next, after, src, dst, label));
            } else {
                assert(agree_on_edge(next, end, src, dst, label));
            }
        },
    }
}

/// A log replayed up to some change leaves a well formed table with the same dimension, and later
/// changes do not lower the next identifier.
proof fn lemma_replayed<T: VectorType>(table: Table<T>, log: Seq<Change<T>>, few: int, many: int)
    requires
        table.well_formed(),
        0 <= few <= many <= log.len(),
    ensures
        apply_changes(table, log, many).well_formed(),
        apply_changes(table, log, many).dim == table.dim,
        apply_changes(table, log, few).next_id <= apply_changes(table, log, many).next_id,
    decreases many,
{
    if many > 0 {
        if few < many {
            lemma_replayed(table, log, few, many - 1);
        } else {
            lemma_replayed(table, log, many - 1, many - 1);
        }
        law_replay_keeps_table_sound(apply_changes(table, log, many - 1), log[many - 1]);
    }
}

/// The second replay stays between the first replay and its end.
proof fn lemma_second_replay<T: VectorType>(table: Table<T>, log: Seq<Change<T>>, count: int)
    requires
        table.well_formed(),
        is_working_log(table, log),
        0 <= count <= log.len(),
    ensures
        is_between(
            apply_changes(apply_changes(table, log, log.len() as int), log, count),
            apply_changes(table, log, count),
            apply_changes(table, log, log.len() as int),
        ),
    decreases count,
{
    let end = apply_changes(table, log, log.len() as int);
    lemma_replayed(table, log, count, log.len() as int);
    lemma_replayed(table, log, 0, count);
    if count > 0 {
        lemma_second_replay(table, log, count - 1);
        let now = apply_changes(end, log, count - 1);
        let then = apply_changes(table, log, count - 1);
        let change = log[count - 1];
        assert(acts(then, change));
        law_replay_keeps_table_sound(now, change);
        law_replay_keeps_table_sound(then, change);
        let next = apply_change(now, change);
        let after = apply_change(then, change);
        assert forall|id: NodeId| #[trigger]
            vector_of(next, id) == vector_of(after, id) || vector_of(next, id) == vector_of(
                end,
                id,
            ) by {
            lemma_nodes_between(now, then, end, change, id);
        }
        assert forall|id: NodeId| #[trigger]
            payload_of(next, id) == payload_of(after, id) || payload_of(next, id) == payload_of(
                end,
                id,
            ) by {
            lemma_nodes_between(now, then, end, change, id);
        }
        assert forall|src: NodeId, dst: NodeId, label: Seq<char>|
            #![trigger agree_on_edge(next, after, src, dst, label)]
            #![trigger agree_on_edge(next, end, src, dst, label)]
            agree_on_edge(next, after, src, dst, label) || agree_on_edge(
                next,
                end,
                src,
                dst,
                label,
            ) by {
            lemma_edges_between(now, then, end, change, src, dst, label);
        }
    }
}

/// A log whose changes all had an effect may be replayed again on the table that it led to: the
/// table holds the same afterwards. The order of the edges of a node may change, where a node was
/// deleted and inserted again.
pub proof fn law_replaying_again_changes_nothing<T: VectorType>(
    table: Table<T>,
    log: Seq<Change<T>>,
)
    requires
        table.well_formed(),
        is_working_log(table, log),
    ensures
        same_contents(
            apply_changes(apply_changes(table, log, log.len() as int), log, log.len() as int),
            apply_changes(table, log, log.len() as int),
        ),
{
    let end = apply_changes(table, log, log.len() as int);
    let again = apply_changes(end, log, log.len() as int);
    lemma_second_replay(table, log, log.len() as int);
    assert forall|src: NodeId, edge: EdgeView| #[trigger] holds_edge(again, src, edge)
        <==> holds_edge(end, src, edge) by {
        assert(agree_on_edge(again, end, src, edge.target, edge.label));
    }
}

/// A log reads back the table that it was written for: where each record was written with the
/// change that it describes, replaying all of them on the table as it was gives the table as it is.
pub proof fn law_log_reads_back<T: VectorType>(tables: Seq<Table<T>>, log: Seq<Change<T>>, count: int)
    requires
        tables.len() == log.len() + 1,
        0 <= count <= log.len(),
        forall|i: int|
            0 <= i < log.len() ==> tables[i + 1] == apply_change(tables[i], #[trigger] log[i]),
    ensures
        apply_changes(tables[0], log, count) == tables[count],
    decreases count,
{
    if count > 0 {
        law_log_reads_back(tables, log, count - 1);
        assert(tables[count - 1 + 1] == apply_change(tables[count - 1], log[count - 1]));
    }
}

/// A database that is opened again holds what it held: where the table was saved after some of the
/// records and the log still has those after them, replaying these on the saved table gives the
/// table as it is.
pub proof fn law_opening_again_restores<T: VectorType>(
    tables: Seq<Table<T>>,
    log: Seq<Change<T>>,
    saved: int,
)
    requires
        tables.len() == log.len() + 1,
        0 <= saved <= log.len(),
        forall|i: int|
            0 <= i < log.len() ==> tables[i + 1] == apply_change(tables[i], #[trigger] log[i]),
    ensures
        apply_changes(tables[saved], log.skip(saved), log.len() - saved) == tables.last(),
{
    let later = tables.skip(saved);
    let kept = log.skip(saved);
    assert forall|i: int| 0 <= i < kept.len() implies later[i + 1] == apply_change(
        later[i],
        #[trigger] kept[i],
    ) by {
        assert(tables[saved + i + 1] == apply_change(tables[saved + i], log[saved + i]));
    }
    law_log_reads_back(later, kept, kept.len() as int);
}

/// The log of a transaction that was accepted may be replayed again.
pub proof fn law_commits_can_be_replayed_again<T: VectorType>(table: Table<T>, ops: Seq<Op<T>>)
    requires
        table.well_formed(),
        ids_fit(table, ops),
        is_committable(table, ops),
    ensures
        is_working_log(table, plan(table, ops)),
        same_contents(
            apply_changes(
                apply_changes(table, plan(table, ops), ops.len() as int),
                plan(table, ops),
                ops.len() as int,
            ),
            apply_changes(table, plan(table, ops), ops.len() as int),
        ),
{
    let log = plan(table, ops);
    assert forall|i: int| 0 <= i < log.len() implies acts(
        apply_changes(table, log, i),
        #[trigger] log[i],
    ) by {
        law_checked_operations_act(table, ops, i);
        assert(accepts_first(table, ops, i + 1));
        assert(accepts(table, sim_after(table, ops, i), ops[i]));
        lemma_replayed(table, log, 0, i);
        assert(log[i] == planned_change(sim_after(table, ops, i), ops[i]));
    }
    law_replaying_again_changes_nothing(table, log);
}

} // verus!
