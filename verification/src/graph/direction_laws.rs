//! Which edges a traversal and an expansion follow.
use vstd::prelude::*;

use crate::database::config::EdgeDirection;
use crate::graph::betweenness::source_count;
use crate::graph::reachability::{
    can_step, is_step, step_edge, ReachabilityConfig, ReachabilityDirection, StepView,
};
use crate::graph::traversal::{
    arriving, edges_at, is_considered, law_arriving_edges_are_turned, Spreading,
};
use crate::node::{EdgeView, NodeId};
use crate::number::{F32_INFINITY, F32_SIGN};
use crate::storage::memtable::Table;
use crate::vector::VectorType;

verus! {

/// Whether a label is one of those that are followed; none is every label.
pub open spec fn is_wanted(labels: Option<Vec<String>>, label: Seq<char>) -> bool {
    labels is None || exists|i: int|
        0 <= i < labels->0@.len() && (#[trigger] labels->0@[i])@ == label
}

/// Whether the table holds an edge from one node to another with a label that is followed.
pub open spec fn has_wanted_edge<T: VectorType>(
    table: Table<T>,
    labels: Option<Vec<String>>,
    from: NodeId,
    to: NodeId,
) -> bool {
    exists|edge: EdgeView| #[trigger]
        table.edges_of(from).contains(edge) && edge.target == to && is_wanted(labels, edge.label)
}

/// A traversal of outgoing edges goes from the source of an edge to its target, one of incoming
/// edges from the target to the source, and one of both either way; along edges with labels that are
/// followed, and no others.
pub proof fn law_steps_follow_the_direction<T: VectorType>(
    table: Table<T>,
    config: ReachabilityConfig,
    from: NodeId,
    to: NodeId,
)
    ensures
        config.direction == ReachabilityDirection::Outgoing ==> (can_step(table, config, from, to)
            <==> has_wanted_edge(table, config.labels, from, to)),
        config.direction == ReachabilityDirection::Incoming ==> (can_step(table, config, from, to)
            <==> has_wanted_edge(table, config.labels, to, from)),
        config.direction == ReachabilityDirection::Both ==> (can_step(table, config, from, to)
            <==> has_wanted_edge(table, config.labels, from, to) || has_wanted_edge(
            table,
            config.labels,
            to,
            from,
        )),
{
    if can_step(table, config, from, to) {
        let step = choose|step: StepView| #[trigger]
            is_step(table, config, step) && step.from == from && step.to == to;
        let edge = step_edge(step);
        assert(table.edges_of(step.edge_source).contains(edge));
        assert(is_wanted(config.labels, edge.label));
        assert(has_wanted_edge(table, config.labels, step.edge_source, step.edge_target));
    }
    if has_wanted_edge(table, config.labels, from, to) && config.direction
        != ReachabilityDirection::Incoming {
        let edge = choose|edge: EdgeView| #[trigger]
            table.edges_of(from).contains(edge) && edge.target == to && is_wanted(
                config.labels,
                edge.label,
            );
        let step = StepView {
            from,
            to,
            edge_source: from,
            edge_target: to,
            label: edge.label,
            weight: edge.weight,
            metadata: edge.metadata,
        };
        assert(step_edge(step) == edge);
        assert(is_step(table, config, step));
    }
    if has_wanted_edge(table, config.labels, to, from) && config.direction
        != ReachabilityDirection::Outgoing {
        let edge = choose|edge: EdgeView| #[trigger]
            table.edges_of(to).contains(edge) && edge.target == from && is_wanted(
                config.labels,
                edge.label,
            );
        let step = StepView {
            from,
            to,
            edge_source: to,
            edge_target: from,
            label: edge.label,
            weight: edge.weight,
            metadata: edge.metadata,
        };
        assert(step_edge(step) == edge);
        assert(is_step(table, config, step));
    }
}

/// Whether an edge, seen from a node, leads there: another node holds it with the node as its
/// target.
pub open spec fn leads_here<T: VectorType>(table: Table<T>, id: NodeId, edge: EdgeView) -> bool {
    table.nodes.contains_key(edge.target) && table.nodes[edge.target].edges.contains(
        (EdgeView { target: id, ..edge }),
    )
}

/// An expansion of outgoing edges follows the edges of a node, one of incoming edges those that
/// other nodes have to it, each seen from the node, and one of both follows all of them.
pub proof fn law_expansions_follow_the_direction<T: VectorType>(
    table: Table<T>,
    id: NodeId,
    edge: EdgeView,
)
    requires
        table.well_formed(),
    ensures
        edges_at(table, EdgeDirection::Outgoing, id).contains(edge) <==> table.edges_of(id).contains(
            edge,
        ),
        edges_at(table, EdgeDirection::Incoming, id).contains(edge) <==> leads_here(
            table,
            id,
            edge,
        ),
        edges_at(table, EdgeDirection::Both, id).contains(edge) <==> table.edges_of(id).contains(
            edge,
        ) || leads_here(table, id, edge),
{
    law_arriving_edges_are_turned(table, id, edge);
    let own = table.edges_of(id);
    let others = arriving(table, id);
    let all = edges_at(table, EdgeDirection::Both, id);
    if own.contains(edge) {
        let n = own.index_of(edge);
        assert(all[n] == edge);
    }
    if others.contains(edge) {
        let n = others.index_of(edge);
        assert(all[own.len() + n] == edge);
    }
    if all.contains(edge) {
        let n = all.index_of(edge);
        if n < own.len() {
            assert(own[n] == edge);
        } else {
            assert(others[n - own.len()] == edge);
        }
    }
}

/// An expansion considers an edge where its label is followed and its weight is a finite number
/// other than zero; with a least weight only where the weight is positive and at least that.
pub proof fn law_considered_edges<'a>(settings: Spreading<'a>, edge: EdgeView)
    requires
        settings.min_edge_weight < F32_INFINITY,
    ensures
        is_considered(settings, edge) <==> {
            &&& settings.expand_labels is None || exists|i: int|
                0 <= i < settings.expand_labels->0@.len() && (
                #[trigger] settings.expand_labels->0@[i])@ == edge.label
            &&& 0 < edge.weight < F32_INFINITY || F32_SIGN < edge.weight < F32_SIGN + F32_INFINITY
            &&& settings.min_edge_weight > 0 ==> settings.min_edge_weight <= edge.weight
                < F32_INFINITY
        },
{
}

/// The nodes from which paths are searched: all of them, or as many as the sample, never more than
/// there are.
pub proof fn law_samples_stay_within_the_nodes(sample: Option<usize>, nodes: nat)
    ensures
        source_count(sample, nodes) <= nodes,
        sample is None ==> source_count(sample, nodes) == nodes,
        sample matches Some(size) ==> source_count(sample, nodes) <= size,
        sample matches Some(size) ==> size <= nodes ==> source_count(sample, nodes) == size,
        sample matches Some(size) ==> size > nodes ==> source_count(sample, nodes) == nodes,
{
}

} // verus!
