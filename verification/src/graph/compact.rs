//! Reachability without paths: only the nodes and their distances.
use std::collections::{HashMap, VecDeque};
use vstd::prelude::*;

use crate::collections::{increasing, lemma_increasing_distinct, sort_dedup};
use crate::error::{is_query_execution, query_execution, Result, TriviumError};
use crate::graph::pathfinding::{depth_view, queued};
use crate::graph::reachability::{
    allowed, can_step, incoming_steps_known, is_query_fault, is_reach, is_step, is_wanted,
    label_allowed, lemma_can_step_in_table, lemma_can_step_incoming, lemma_can_step_outgoing,
    reach_steps, valid_config, validate, ReachabilityConfig, ReachabilityDirection,
};
use crate::graph::sweep::{
    are_targets_of, bound_message, deep_count, is_found, is_sweep, is_sweeping, lemma_node_found,
    lemma_sweep_stops, lemma_sweeping, sweep_after, Bound, Sweep,
};
use crate::graph::walk::{
    closed_below, is_distance, lemma_closed_below, lemma_within_grows, lemma_within_step, within,
};
use crate::node::{edge_views, NodeId};
use crate::sorting::{
    law_sorted, lemma_sorted_contains, order_of, sort_items, sorted, views, SortItem,
};
use crate::storage::memtable::{MemTable, Table};
use crate::vector::VectorType;

verus! {

/// A node that was reached, with its distance.
#[derive(Debug, Clone, Copy, PartialEq, Eq, Structural)]
pub struct ReachabilityHit {
    pub target_id: NodeId,
    pub depth: usize,
}

impl View for ReachabilityHit {
    type V = ReachabilityHit;

    open spec fn view(&self) -> ReachabilityHit {
        *self
    }
}

impl SortItem for ReachabilityHit {
    open spec fn goes_before(a: ReachabilityHit, b: ReachabilityHit) -> bool {
        a.depth < b.depth || (a.depth == b.depth && a.target_id < b.target_id)
    }

    proof fn lemma_order(a: ReachabilityHit, b: ReachabilityHit, c: ReachabilityHit) {
    }

    fn is_before(&self, other: &ReachabilityHit) -> (result: bool) {
        self.depth < other.depth || (self.depth == other.depth && self.target_id < other.target_id)
    }
}

/// Outcome of a reachability query without paths.
#[derive(Debug)]
pub struct CompactReachabilityOutput {
    pub results: Vec<ReachabilityHit>,
    pub visited_nodes: usize,
    pub traversed_edges: usize,
}

/// The number of nodes that one step leads to.
pub open spec fn target_count<T: VectorType>(
    table: Table<T>,
    config: ReachabilityConfig,
    from: NodeId,
) -> nat {
    table.nodes.dom().filter(|to: NodeId| can_step(table, config, from, to)).len()
}

/// The sum of the target counts of those of `ids` that are in `chosen`.
pub open spec fn targets_of<T: VectorType>(
    table: Table<T>,
    config: ReachabilityConfig,
    ids: Seq<NodeId>,
    chosen: Set<NodeId>,
) -> nat
    decreases ids.len(),
{
    if ids.len() == 0 {
        0
    } else {
        targets_of(table, config, ids.drop_last(), chosen) + if chosen.contains(ids.last()) {
            target_count(table, config, ids.last())
        } else {
            0
        }
    }
}

/// One more chosen node adds its own target count.
pub(crate) proof fn lemma_targets_insert<T: VectorType>(
    table: Table<T>,
    config: ReachabilityConfig,
    ids: Seq<NodeId>,
    chosen: Set<NodeId>,
    id: NodeId,
)
    requires
        ids.no_duplicates(),
        !chosen.contains(id),
    ensures
        targets_of(table, config, ids, chosen.insert(id)) == targets_of(table, config, ids, chosen)
            + if ids.contains(id) {
            target_count(table, config, id)
        } else {
            0
        },
    decreases ids.len(),
{
    if ids.len() > 0 {
        let rest = ids.drop_last();
        assert(rest.no_duplicates()) by {
            assert forall|i: int, j: int|
                0 <= i < rest.len() && 0 <= j < rest.len() && i != j implies rest[i]
                != rest[j] by {
                assert(ids[i] != ids[j]);
            }
        }
        lemma_targets_insert(table, config, rest, chosen, id);
        if ids.contains(id) && ids.last() != id {
            let n = choose|n: int| 0 <= n < ids.len() && ids[n] == id;
            assert(rest[n] == id);
        }
        if rest.contains(id) {
            let n = choose|n: int| 0 <= n < rest.len() && rest[n] == id;
            assert(ids[n] == id);
            assert(ids[n] != ids[ids.len() - 1]);
        }
        if ids.last() == id {
            assert(ids[ids.len() - 1] == id);
        }
    }
}

/// Whether `total` is the number of steps out of the nodes that are nearer than the depth bound,
/// steps to the same node counted once.
pub open spec fn is_edge_total<T: VectorType>(
    table: Table<T>,
    config: ReachabilityConfig,
    source: NodeId,
    total: nat,
) -> bool {
    exists|ids: Seq<NodeId>, near: Set<NodeId>|
        {
            &&& increasing(ids)
            &&& ids.to_set() == table.nodes.dom()
            &&& forall|id: NodeId| #[trigger]
                near.contains(id) <==> config.max_depth > 0 && within(
                    reach_steps(table, config),
                    source,
                    id,
                    (config.max_depth - 1) as nat,
                )
            &&& total == #[trigger] targets_of(table, config, ids, near)
        }
}

/// More chosen nodes have at least as many targets.
proof fn lemma_targets_grow<T: VectorType>(
    table: Table<T>,
    config: ReachabilityConfig,
    ids: Seq<NodeId>,
    few: Set<NodeId>,
    many: Set<NodeId>,
)
    requires
        forall|id: NodeId| #[trigger] few.contains(id) ==> many.contains(id),
    ensures
        targets_of(table, config, ids, few) <= targets_of(table, config, ids, many),
    decreases ids.len(),
{
    if ids.len() > 0 {
        lemma_targets_grow(table, config, ids.drop_last(), few, many);
        if few.contains(ids.last()) {
            assert(many.contains(ids.last()));
        }
    }
}

/// The steps out of nodes that are nearer than the depth bound are counted in the total.
pub(crate) proof fn lemma_total_covers<T: VectorType>(
    table: Table<T>,
    config: ReachabilityConfig,
    source: NodeId,
    ids: Seq<NodeId>,
    chosen: Set<NodeId>,
)
    requires
        increasing(ids),
        ids.to_set() == table.nodes.dom(),
        forall|id: NodeId| #[trigger]
            chosen.contains(id) ==> config.max_depth > 0 && within(
                reach_steps(table, config),
                source,
                id,
                (config.max_depth - 1) as nat,
            ),
    ensures
        exists|total: nat| #[trigger]
            is_edge_total(table, config, source, total) && total >= targets_of(
                table,
                config,
                ids,
                chosen,
            ),
{
    let near = Set::new(
        |id: NodeId|
            config.max_depth > 0 && within(
                reach_steps(table, config),
                source,
                id,
                (config.max_depth - 1) as nat,
            ),
    );
    lemma_targets_grow(table, config, ids, chosen, near);
    assert(is_edge_total(table, config, source, targets_of(table, config, ids, near)));
}

/// A count as far as a machine word can hold it.
pub open spec fn saturated(count: nat) -> nat {
    if count > usize::MAX {
        usize::MAX as nat
    } else {
        count
    }
}

/// Whether a node is among the hits.
pub open spec fn hit_reported(hits: Seq<ReachabilityHit>, id: NodeId) -> bool {
    exists|i: int| 0 <= i < hits.len() && (#[trigger] hits[i]).target_id == id
}

/// Whether `hits` lists the wanted nodes with their distances, ordered by depth and identifier.
pub open spec fn is_hit_list<T: VectorType>(
    table: Table<T>,
    config: ReachabilityConfig,
    source: NodeId,
    hits: Seq<ReachabilityHit>,
) -> bool {
    &&& forall|i: int|
        0 <= i < hits.len() ==> is_distance(
            reach_steps(table, config),
            source,
            (#[trigger] hits[i]).target_id,
            hits[i].depth as nat,
        ) && config.min_depth <= hits[i].depth <= config.max_depth
    &&& forall|i: int, j: int|
        0 <= i < j < hits.len() ==> ReachabilityHit::goes_before(
            #[trigger] hits[i],
            #[trigger] hits[j],
        )
    &&& forall|id: NodeId| #[trigger]
        hit_reported(hits, id) <==> is_wanted(table, config, source, id)
}

/// Whether `output` answers a query completely, within its bounds.
pub open spec fn is_compact_answer<T: VectorType>(
    table: Table<T>,
    config: ReachabilityConfig,
    source: NodeId,
    output: CompactReachabilityOutput,
) -> bool {
    &&& is_hit_list(table, config, source, output.results@)
    &&& exists|reached: Set<NodeId>| #[trigger]
        is_reach(table, config, source, reached) && output.visited_nodes == reached.len()
    &&& exists|total: nat| #[trigger]
        is_edge_total(table, config, source, total) && output.traversed_edges == saturated(total)
    &&& output.traversed_edges <= config.max_edges
    &&& output.visited_nodes <= config.max_visited_nodes || output.visited_nodes == 1
    &&& output.results@.len() <= config.max_results
}

/// Message for the bound on examined edges.
pub open spec fn edges_message() -> Seq<char> {
    "图扩展检查边数超过预算 (Graph expansion examined-edge budget exceeded)"@
}

/// Message for the bound on visited nodes.
pub open spec fn visited_message() -> Seq<char> {
    "图扩展访问节点数超过预算 (Graph expansion visited-node budget exceeded)"@
}

/// Message for the bound on results.
pub open spec fn results_message() -> Seq<char> {
    "图扩展结果数超过预算 (Graph expansion result budget exceeded)"@
}

/// Message for the bound on the frontier.
pub open spec fn frontier_message() -> Seq<char> {
    "图扩展前沿超过预算 (Graph expansion frontier budget exceeded)"@
}

/// Whether the bounds of a query cover the whole table.
pub open spec fn compact_covers<T: VectorType>(
    table: Table<T>,
    config: ReachabilityConfig,
) -> bool {
    let nodes = table.nodes.dom().len();
    &&& config.max_visited_nodes >= nodes
    &&& config.max_results >= nodes
    &&& config.max_frontier_size >= nodes
    &&& config.max_edges >= nodes * nodes
}

/// Whether `error` reports a bound that the query breaks: the nodes within the depth bound are
/// more than may be visited, the wanted nodes more than may be returned, or the bound on edges
/// or on the frontier does not cover the table.
pub open spec fn is_compact_refusal<T: VectorType>(
    table: Table<T>,
    config: ReachabilityConfig,
    source: NodeId,
    error: TriviumError,
) -> bool {
    let nodes = table.nodes.dom().len();
    ||| is_query_execution(error, edges_message()) && config.max_edges < nodes * nodes
        && exists|total: nat| #[trigger]
        is_edge_total(table, config, source, total) && total > config.max_edges
    ||| is_query_execution(error, visited_message()) && exists|reached: Set<NodeId>| #[trigger]
        is_reach(table, config, source, reached) && reached.len() > config.max_visited_nodes
    ||| is_query_execution(error, results_message()) && exists|wanted: Set<NodeId>|
        {
            &&& forall|id: NodeId| #[trigger]
                wanted.contains(id) <==> is_wanted(table, config, source, id)
            &&& wanted.finite()
            &&& #[trigger] wanted.len() > config.max_results
        }
    ||| is_query_execution(error, frontier_message()) && config.max_frontier_size < nodes
}

/// The nodes that one step leads to, in ascending order.
pub(crate) fn collect_targets<T: VectorType>(
    db: &MemTable<T>,
    current: NodeId,
    config: &ReachabilityConfig,
) -> (targets: Vec<NodeId>)
    requires
        db.inv(),
    ensures
        increasing(targets@),
        forall|to: NodeId| #[trigger]
            targets@.contains(to) <==> can_step(db@, *config, current, to),
        targets@.len() == target_count(db@, *config, current),
        targets@.len() <= db@.nodes.dom().len(),
{
    proof {
        db.lemma_inv();
    }
    let mut found: Vec<NodeId> = Vec::new();
    if config.direction != ReachabilityDirection::Incoming {
        match db.get_edges(current) {
            None => {},
            Some(edges) => {
                let mut i: usize = 0;
                while i < edges.len()
                    invariant
                        i <= edges@.len(),
                        config.direction != ReachabilityDirection::Incoming,
                        db@.nodes.contains_key(current),
                        edge_views(edges@) == db@.edges_of(current),
                        forall|n: int|
                            0 <= n < found@.len() ==> can_step(
                                db@,
                                *config,
                                current,
                                #[trigger] found@[n],
                            ),
                        forall|j: int|
                            0 <= j < i && label_allowed(
                                config.labels,
                                (#[trigger] db@.edges_of(current)[j]).label,
                            ) ==> found@.contains(db@.edges_of(current)[j].target),
                    decreases edges@.len() - i,
                {
                    let ghost before = found@;
                    assert(edges@[i as int]@ == db@.edges_of(current)[i as int]);
                    if allowed(edges[i].label.as_str(), &config.labels) {
                        found.push(edges[i].target_id);
                        proof {
                            lemma_can_step_outgoing(db@, *config, current, i as int);
                            assert(found@[before.len() as int] == edges@[i as int].target_id);
                        }
                    }
                    proof {
                        assert forall|id: NodeId| #[trigger] before.contains(id) implies
                            found@.contains(id) by {
                            let n = choose|n: int| 0 <= n < before.len() && before[n] == id;
                            assert(found@[n] == id);
                        }
                    }
                    i += 1;
                }
            },
        }
    }
    let ghost outward = found@;
    if config.direction != ReachabilityDirection::Outgoing {
        let incoming = db.get_incoming_edges(current, None);
        let mut i: usize = 0;
        while i < incoming.len()
            invariant
                i <= incoming@.len(),
                config.direction != ReachabilityDirection::Outgoing,
                db@.well_formed(),
                forall|k: int|
                    0 <= k < incoming@.len() ==> db@.is_incoming(
                        current,
                        None,
                        (#[trigger] incoming@[k])@,
                    ),
                forall|n: int|
                    0 <= n < found@.len() ==> can_step(db@, *config, current, #[trigger] found@[n]),
                forall|id: NodeId| #[trigger] outward.contains(id) ==> found@.contains(id),
                forall|j: int|
                    0 <= j < i && label_allowed(config.labels, (#[trigger] incoming@[j])@.label)
                        ==> found@.contains(incoming@[j].source_id),
            decreases incoming@.len() - i,
        {
            let ghost before = found@;
            if allowed(incoming[i].label.as_str(), &config.labels) {
                found.push(incoming[i].source_id);
                proof {
                    lemma_can_step_incoming(db@, *config, current, incoming@[i as int]@);
                    assert(found@[before.len() as int] == incoming@[i as int].source_id);
                }
            }
            proof {
                assert forall|id: NodeId| #[trigger] before.contains(id) implies found@.contains(
                    id,
                ) by {
                    let n = choose|n: int| 0 <= n < before.len() && before[n] == id;
                    assert(found@[n] == id);
                }
            }
            i += 1;
        }
        proof {
            incoming_steps_known(db@, *config, current, incoming@, found@);
        }
    }
    let targets = sort_dedup(&found);
    proof {
        assert forall|to: NodeId| #[trigger] targets@.contains(to) <==> can_step(
            db@,
            *config,
            current,
            to,
        ) by {
            if found@.contains(to) {
                let n = choose|n: int| 0 <= n < found@.len() && found@[n] == to;
                assert(can_step(db@, *config, current, found@[n]));
            }
            if can_step(db@, *config, current, to) {
                let step = choose|step: crate::graph::reachability::StepView| #[trigger]
                    is_step(db@, *config, step) && step.from == current && step.to == to;
                if config.direction != ReachabilityDirection::Incoming && step.from
                    == step.edge_source && step.to == step.edge_target {
                    let edges = db@.edges_of(current);
                    let j = choose|j: int|
                        0 <= j < edges.len() && edges[j]
                            == crate::graph::reachability::step_edge(step);
                    assert(label_allowed(config.labels, edges[j].label));
                    assert(outward.contains(db@.edges_of(current)[j].target));
                    assert(found@.contains(to));
                } else {
                    assert(found@.contains(to));
                }
            }
        }
        let all = db@.nodes.dom().filter(|to: NodeId| can_step(db@, *config, current, to));
        assert(targets@.to_set() =~= all) by {
            assert forall|to: NodeId| #[trigger] targets@.to_set().contains(to) <==> all.contains(
                to,
            ) by {
                if targets@.contains(to) {
                    lemma_can_step_in_table(db@, *config, current, to);
                }
            }
        }
        targets@.unique_seq_to_set();
        vstd::set_lib::lemma_len_subset(all, db@.nodes.dom());
    }
    targets
}

/// What holds of the nodes found so far: their depths are distances, and those in the range are
/// the results.
pub(crate) open spec fn hits_sound<T: VectorType>(
    table: Table<T>,
    config: ReachabilityConfig,
    source: NodeId,
    depths: Map<NodeId, nat>,
    hits: Seq<ReachabilityHit>,
) -> bool {
    &&& depths.dom().finite()
    &&& depths.dom().subset_of(table.nodes.dom())
    &&& depths.contains_key(source)
    &&& depths[source] == 0
    &&& forall|id: NodeId| #[trigger]
        depths.contains_key(id) ==> depths[id] <= config.max_depth && is_distance(
            reach_steps(table, config),
            source,
            id,
            depths[id],
        )
    &&& forall|i: int|
        0 <= i < hits.len() ==> depths.contains_key((#[trigger] hits[i]).target_id)
            && depths[hits[i].target_id] == hits[i].depth && config.min_depth <= hits[i].depth
    &&& forall|i: int, j: int|
        0 <= i < j < hits.len() ==> (#[trigger] hits[i]).target_id != (
        #[trigger] hits[j]).target_id
    &&& hits.len() <= config.max_results
}

/// Whether every node found so far whose depth is in the range is reported.
pub(crate) open spec fn hits_complete(
    config: ReachabilityConfig,
    depths: Map<NodeId, nat>,
    hits: Seq<ReachabilityHit>,
) -> bool {
    forall|id: NodeId| #[trigger]
        depths.contains_key(id) && config.min_depth <= depths[id] ==> hit_reported(hits, id)
}

/// What holds of the queue: it is sorted by depth, from `level` to the next, holds no node twice,
/// and every node but `current` that is not in it has been expanded.
spec fn queue_advancing<T: VectorType>(
    table: Table<T>,
    config: ReachabilityConfig,
    depths: Map<NodeId, nat>,
    queue: Seq<(NodeId, usize)>,
    level: nat,
    current: Option<NodeId>,
) -> bool {
    &&& forall|id: NodeId| #[trigger] depths.contains_key(id) ==> depths[id] <= level + 1
    &&& forall|i: int|
        0 <= i < queue.len() ==> depths.contains_key((#[trigger] queue[i]).0) && depths[queue[i].0]
            == queue[i].1 && level <= queue[i].1
    &&& forall|i: int, j: int|
        0 <= i < j < queue.len() ==> (#[trigger] queue[i]).1 <= (#[trigger] queue[j]).1
            && queue[i].0 != queue[j].0
    &&& forall|i: int| 0 <= i < queue.len() ==> Some((#[trigger] queue[i]).0) != current
    &&& forall|from: NodeId, to: NodeId|
        depths.contains_key(from) && depths[from] < config.max_depth && current != Some(from)
            && !queued(queue, from) && #[trigger] reach_steps(table, config)(from, to)
            ==> depths.contains_key(to) && depths[to] <= depths[from] + 1
}

/// The nodes within the depth bound, as a set.
pub open spec fn reach_set<T: VectorType>(
    table: Table<T>,
    config: ReachabilityConfig,
    source: NodeId,
) -> Set<NodeId> {
    table.nodes.dom().filter(
        |id: NodeId|
            within(reach_steps(table, config), source, id, config.max_depth as nat),
    )
}

/// The nodes in the range of depths, as a set.
pub open spec fn wanted_set<T: VectorType>(
    table: Table<T>,
    config: ReachabilityConfig,
    source: NodeId,
) -> Set<NodeId> {
    table.nodes.dom().filter(|id: NodeId| is_wanted(table, config, source, id))
}

/// Whatever can be reached is in the table.
pub(crate) proof fn lemma_within_in_table<T: VectorType>(
    table: Table<T>,
    config: ReachabilityConfig,
    source: NodeId,
    id: NodeId,
    steps: nat,
)
    requires
        table.well_formed(),
        table.nodes.contains_key(source),
        within(reach_steps(table, config), source, id, steps),
    ensures
        table.nodes.contains_key(id),
    decreases steps,
{
    let adjacency = reach_steps(table, config);
    if steps > 0 {
        if within(adjacency, source, id, (steps - 1) as nat) {
            lemma_within_in_table(table, config, source, id, (steps - 1) as nat);
        } else {
            let via = choose|via: NodeId|
                within(adjacency, source, via, (steps - 1) as nat) && #[trigger] adjacency(via, id);
            lemma_can_step_in_table(table, config, via, id);
        }
    }
}

/// The sets of reached and of wanted nodes are what their names say.
pub(crate) proof fn lemma_reach_sets<T: VectorType>(
    table: Table<T>,
    config: ReachabilityConfig,
    source: NodeId,
)
    requires
        table.well_formed(),
        table.nodes.contains_key(source),
    ensures
        is_reach(table, config, source, reach_set(table, config, source)),
        wanted_set(table, config, source).finite(),
        forall|id: NodeId| #[trigger]
            wanted_set(table, config, source).contains(id) <==> is_wanted(
                table,
                config,
                source,
                id,
            ),
{
    let adjacency = reach_steps(table, config);
    let reached = reach_set(table, config, source);
    let wanted = wanted_set(table, config, source);
    assert forall|id: NodeId| #[trigger] reached.contains(id) <==> within(
        adjacency,
        source,
        id,
        config.max_depth as nat,
    ) by {
        if within(adjacency, source, id, config.max_depth as nat) {
            lemma_within_in_table(table, config, source, id, config.max_depth as nat);
        }
    }
    assert forall|id: NodeId| #[trigger] wanted.contains(id) <==> is_wanted(
        table,
        config,
        source,
        id,
    ) by {
        if is_wanted(table, config, source, id) {
            let depth = choose|depth: nat| #[trigger]
                is_distance(adjacency, source, id, depth) && config.min_depth <= depth
                    <= config.max_depth;
            lemma_within_in_table(table, config, source, id, depth);
        }
    }
}

/// More nodes than may be visited, or more wanted nodes than may be returned, are there once one
/// more than the bound has been found.
pub(crate) proof fn lemma_too_many<T: VectorType>(
    table: Table<T>,
    config: ReachabilityConfig,
    source: NodeId,
    depths: Map<NodeId, nat>,
    hits: Seq<ReachabilityHit>,
    found: NodeId,
    depth: nat,
)
    requires
        table.well_formed(),
        table.nodes.contains_key(source),
        hits_sound(table, config, source, depths, hits),
        !depths.contains_key(found),
        depth <= config.max_depth,
        is_distance(reach_steps(table, config), source, found, depth),
    ensures
        reach_set(table, config, source).len() >= depths.dom().len() + 1,
        config.min_depth <= depth ==> wanted_set(table, config, source).len() >= hits.len() + 1,
{
    let adjacency = reach_steps(table, config);
    lemma_reach_sets(table, config, source);
    let reached = reach_set(table, config, source);
    let limit = config.max_depth as nat;
    assert(depths.dom().insert(found).subset_of(reached)) by {
        assert forall|id: NodeId| depths.dom().insert(found).contains(id) implies reached.contains(
            id,
        ) by {
            if id == found {
                lemma_within_grows(adjacency, source, id, depth, limit);
            } else {
                assert(depths.contains_key(id));
                lemma_within_grows(adjacency, source, id, depths[id], limit);
            }
        }
    }
    vstd::set_lib::lemma_len_subset(depths.dom().insert(found), reached);
    if config.min_depth <= depth {
        let wanted = wanted_set(table, config, source);
        let targets = hits.map_values(|hit: ReachabilityHit| hit.target_id);
        lemma_hit_targets(hits, targets);
        assert(targets.to_set().insert(found).subset_of(wanted)) by {
            assert forall|id: NodeId| targets.to_set().insert(found).contains(id) implies
                wanted.contains(id) by {
                if id == found {
                    assert(is_wanted(table, config, source, id));
                } else {
                    let i = choose|i: int| 0 <= i < targets.len() && targets[i] == id;
                    assert(hits[i].target_id == id);
                    assert(depths.contains_key(id));
                    assert(is_distance(adjacency, source, id, depths[id]));
                    assert(is_wanted(table, config, source, id));
                }
            }
        }
        assert(!targets.to_set().contains(found)) by {
            if targets.contains(found) {
                let i = choose|i: int| 0 <= i < targets.len() && targets[i] == found;
                assert(depths.contains_key(hits[i].target_id));
            }
        }
        vstd::set_lib::lemma_len_subset(targets.to_set().insert(found), wanted);
    }
}

/// Distinct hits have as many targets.
pub(crate) proof fn lemma_hit_targets(hits: Seq<ReachabilityHit>, targets: Seq<NodeId>)
    requires
        targets == hits.map_values(|hit: ReachabilityHit| hit.target_id),
        forall|i: int, j: int|
            0 <= i < j < hits.len() ==> (#[trigger] hits[i]).target_id != (
            #[trigger] hits[j]).target_id,
    ensures
        targets.to_set().len() == hits.len(),
        targets.to_set().finite(),
{
    assert(targets.no_duplicates()) by {
        assert forall|i: int, j: int|
            0 <= i < targets.len() && 0 <= j < targets.len() && i != j implies targets[i]
            != targets[j] by {
            if i < j {
                assert(hits[i].target_id != hits[j].target_id);
            } else {
                assert(hits[j].target_id != hits[i].target_id);
            }
        }
    }
    targets.unique_seq_to_set();
}

/// A node that is found first from a node at `level` is one step further away.
proof fn lemma_next_depth<T: VectorType>(
    table: Table<T>,
    config: ReachabilityConfig,
    source: NodeId,
    depths: Map<NodeId, nat>,
    hits: Seq<ReachabilityHit>,
    queue: Seq<(NodeId, usize)>,
    level: nat,
    current: NodeId,
    found: NodeId,
)
    requires
        hits_sound(table, config, source, depths, hits),
        queue_advancing(table, config, depths, queue, level, Some(current)),
        level < config.max_depth,
        depths.contains_key(current),
        depths[current] == level,
        !depths.contains_key(found),
        can_step(table, config, current, found),
    ensures
        is_distance(reach_steps(table, config), source, found, level + 1),
{
    let adjacency = reach_steps(table, config);
    assert(adjacency(current, found));
    lemma_within_step(adjacency, source, current, found, level);
    assert(closed_below(adjacency, depths, level)) by {
        assert forall|from: NodeId, to: NodeId|
            depths.contains_key(from) && depths[from] < level && #[trigger] adjacency(
                from,
                to,
            ) implies depths.contains_key(to) && depths[to] <= depths[from] + 1 by {
            assert(!queued(queue, from)) by {
                if queued(queue, from) {
                    let i = choose|i: int| 0 <= i < queue.len() && (#[trigger] queue[i]).0 == from;
                    assert(level <= queue[i].1);
                }
            }
        }
    }
    assert forall|fewer: nat| fewer < level + 1 implies !#[trigger] within(
        adjacency,
        source,
        found,
        fewer,
    ) by {
        if within(adjacency, source, found, fewer) {
            lemma_closed_below(adjacency, source, depths, level, found, fewer);
        }
    }
}

/// Depths that are closed up to the bound, with their hits sorted, answer the query.
pub(crate) proof fn lemma_compact_answer<T: VectorType>(
    table: Table<T>,
    config: ReachabilityConfig,
    source: NodeId,
    depths: Map<NodeId, nat>,
    hits: Seq<ReachabilityHit>,
    listed: Seq<ReachabilityHit>,
)
    requires
        table.well_formed(),
        table.nodes.contains_key(source),
        hits_sound(table, config, source, depths, hits),
        hits_complete(config, depths, hits),
        closed_below(reach_steps(table, config), depths, config.max_depth as nat),
        listed == sorted(hits, order_of::<ReachabilityHit>()),
    ensures
        is_hit_list(table, config, source, listed),
        is_reach(table, config, source, depths.dom()),
        listed.len() == hits.len(),
        forall|id: NodeId, steps: nat|
            steps <= config.max_depth ==> (#[trigger] within(
                reach_steps(table, config),
                source,
                id,
                steps,
            ) <==> depths.contains_key(id) && depths[id] <= steps),
{
    let adjacency = reach_steps(table, config);
    let limit = config.max_depth as nat;
    law_sorted::<ReachabilityHit>(hits);
    assert forall|hit: ReachabilityHit| #[trigger] listed.contains(hit) <==> hits.contains(hit) by {
        lemma_sorted_contains::<ReachabilityHit>(hits, hit);
    }
    assert forall|id: NodeId, steps: nat| steps <= limit implies (#[trigger] within(
        adjacency,
        source,
        id,
        steps,
    ) <==> depths.contains_key(id) && depths[id] <= steps) by {
        if within(adjacency, source, id, steps) {
            lemma_closed_below(adjacency, source, depths, limit, id, steps);
        }
        if depths.contains_key(id) && depths[id] <= steps {
            lemma_within_grows(adjacency, source, id, depths[id], steps);
        }
    }
    assert forall|i: int| 0 <= i < listed.len() implies is_distance(
        adjacency,
        source,
        (#[trigger] listed[i]).target_id,
        listed[i].depth as nat,
    ) && config.min_depth <= listed[i].depth <= config.max_depth && hits.contains(listed[i]) by {
        assert(listed.contains(listed[i]));
        let k = choose|k: int| 0 <= k < hits.len() && hits[k] == listed[i];
        assert(depths.contains_key(hits[k].target_id));
    }
    assert(hits.no_duplicates()) by {
        assert forall|i: int, j: int|
            0 <= i < hits.len() && 0 <= j < hits.len() && i != j implies hits[i] != hits[j] by {
            if i < j {
                assert(hits[i].target_id != hits[j].target_id);
            } else {
                assert(hits[j].target_id != hits[i].target_id);
            }
        }
    }
    assert(listed.no_duplicates()) by {
        hits.lemma_multiset_has_no_duplicates();
        listed.lemma_multiset_has_no_duplicates_conv();
    }
    assert forall|i: int, j: int| 0 <= i < j < listed.len() implies ReachabilityHit::goes_before(
        #[trigger] listed[i],
        #[trigger] listed[j],
    ) by {
        assert(!order_of::<ReachabilityHit>()(listed[j], listed[i]));
        assert(listed[i] != listed[j]);
    }
    assert forall|id: NodeId| #[trigger] hit_reported(listed, id) <==> is_wanted(
        table,
        config,
        source,
        id,
    ) by {
        if hit_reported(listed, id) {
            let i = choose|i: int| 0 <= i < listed.len() && (#[trigger] listed[i]).target_id == id;
            assert(is_distance(adjacency, source, id, listed[i].depth as nat));
        }
        if is_wanted(table, config, source, id) {
            let depth = choose|depth: nat| #[trigger]
                is_distance(adjacency, source, id, depth) && config.min_depth <= depth
                    <= config.max_depth;
            lemma_closed_below(adjacency, source, depths, limit, id, depth);
            assert(is_distance(adjacency, source, id, depths[id]));
            if depths[id] < depth {
                assert(within(adjacency, source, id, depths[id]));
            }
            assert(hit_reported(hits, id));
            let k = choose|k: int| 0 <= k < hits.len() && (#[trigger] hits[k]).target_id == id;
            assert(hits.contains(hits[k]));
            assert(listed.contains(hits[k]));
            let i = choose|i: int| 0 <= i < listed.len() && listed[i] == hits[k];
            assert(listed[i].target_id == id);
        }
    }
    assert forall|id: NodeId| #[trigger] depths.dom().contains(id) <==> within(
        adjacency,
        source,
        id,
        limit,
    ) by {
        if depths.contains_key(id) {
            assert(depths[id] <= limit);
        }
    }
}

/// Whether a search stands where `sweep` says.
spec fn traces(
    config: ReachabilityConfig,
    best_depth: Map<NodeId, usize>,
    queue: Seq<(NodeId, usize)>,
    hits: Seq<ReachabilityHit>,
    edges: usize,
    sweep: Sweep,
) -> bool {
    &&& sweep.stop is None
    &&& best_depth.dom().len() == sweep.found.len()
    &&& forall|id: NodeId| #[trigger] best_depth.contains_key(id) <==> is_found(sweep.found, id)
    &&& edges == sweep.edges
    &&& hits.len() == deep_count(config, sweep.found)
    &&& queue.len() == sweep.waiting
    &&& sweep.waiting <= sweep.found.len()
    &&& forall|i: int|
        0 <= i < queue.len() ==> (#[trigger] queue[i]).0 == sweep.found[sweep.found.len()
            - sweep.waiting + i].0 && queue[i].1 == sweep.found[sweep.found.len() - sweep.waiting
            + i].1
}

/// Whether `result` is what a search gives: an answer where no bound is reached, and otherwise an
/// error that names the bound.
pub open spec fn is_compact_outcome<T: VectorType>(
    table: Table<T>,
    config: ReachabilityConfig,
    source: NodeId,
    result: Result<CompactReachabilityOutput>,
) -> bool {
    exists|sweep: Sweep| #[trigger]
        is_sweep(table, config, source, sweep) && match sweep.stop {
            None => result is Ok,
            Some(bound) => result matches Err(error) && is_query_execution(
                error,
                bound_message(bound),
            ),
        }
}

/// The nodes in the range of depths, found in breadth-first order.
///
/// An answer is always complete; a bound that does not suffice is an error.
#[verifier::spinoff_prover]
#[verifier::rlimit(80)]
pub fn traverse_compact<T: VectorType>(
    db: &MemTable<T>,
    source_id: NodeId,
    config: &ReachabilityConfig,
) -> (result: Result<CompactReachabilityOutput>)
    requires
        db.inv(),
    ensures
        !(db@.nodes.contains_key(source_id) && valid_config(*config)) ==> (result matches Err(error)
            && is_query_fault(db@, source_id, *config, error)),
        db@.nodes.contains_key(source_id) && valid_config(*config) ==> match result {
            Ok(output) => is_compact_answer(db@, *config, source_id, output),
            Err(error) => is_compact_refusal(db@, *config, source_id, error),
        },
        db@.nodes.contains_key(source_id) && valid_config(*config) ==> is_compact_outcome(
            db@,
            *config,
            source_id,
            result,
        ),
        db@.nodes.contains_key(source_id) && valid_config(*config) && compact_covers(db@, *config)
            ==> result is Ok,
{
    match validate(db, source_id, config) {
        Ok(()) => {},
        Err(error) => {
            return Err(error);
        },
    }
    proof {
        db.lemma_inv();
        lemma_reach_sets(db@, *config, source_id);
        vstd::set_lib::lemma_len_subset(reach_set(db@, *config, source_id), db@.nodes.dom());
        vstd::set_lib::lemma_len_subset(wanted_set(db@, *config, source_id), db@.nodes.dom());
    }
    let ghost adjacency = reach_steps(db@, *config);
    let ghost nodes = db@.nodes.dom().len();
    let ids = db.all_node_ids();
    let mut best_depth: HashMap<NodeId, usize> = HashMap::new();
    best_depth.insert(source_id, 0);
    let mut queue: VecDeque<(NodeId, usize)> = VecDeque::new();
    queue.push_back((source_id, 0));
    let mut hits: Vec<ReachabilityHit> = Vec::new();
    if config.min_depth == 0 {
        hits.push(ReachabilityHit { target_id: source_id, depth: 0 });
    }
    let mut traversed_edges: usize = 0;
    let ghost mut level: nat = 0;
    let ghost mut done: Set<NodeId> = Set::empty();
    let ghost mut popped: nat = 0;
    proof {
        lemma_increasing_distinct(ids@);
        lemma_compact_starts(db@, *config, source_id, best_depth@, queue@, hits@);
        lemma_targets_none(db@, *config, ids@);
    }
    let ghost mut lists: Seq<Seq<NodeId>> = Seq::empty();
    proof {
        let start = Sweep::start(source_id);
        lemma_node_found(*config, Seq::empty(), (source_id, 0));
        assert(start.found =~= Seq::empty().push((source_id, 0nat)));
        assert forall|id: NodeId| #[trigger] best_depth@.contains_key(id) <==> is_found(
            start.found,
            id,
        ) by {
            assert(is_found(start.found, id) <==> is_found(Seq::empty(), id) || id == source_id);
        }
        assert(traces(*config, best_depth@, queue@, hits@, traversed_edges, start));
    }
    while queue.len() > 0
        invariant
            lists.len() == popped,
            is_sweeping(db@, *config, source_id, lists),
            traces(
                *config,
                best_depth@,
                queue@,
                hits@,
                traversed_edges,
                sweep_after(*config, source_id, lists, lists.len()),
            ),
            db.inv(),
            db@.well_formed(),
            db@.nodes.contains_key(source_id),
            valid_config(*config),
            adjacency == reach_steps(db@, *config),
            nodes == db@.nodes.dom().len(),
            increasing(ids@),
            ids@.no_duplicates(),
            ids@.to_set() == db@.nodes.dom(),
            is_reach(db@, *config, source_id, reach_set(db@, *config, source_id)),
            wanted_set(db@, *config, source_id).finite(),
            reach_set(db@, *config, source_id).len() <= nodes,
            wanted_set(db@, *config, source_id).len() <= nodes,
            forall|id: NodeId| #[trigger]
                wanted_set(db@, *config, source_id).contains(id) <==> is_wanted(
                    db@,
                    *config,
                    source_id,
                    id,
                ),
            hits_sound(db@, *config, source_id, depth_view(best_depth@), hits@),
            hits_complete(*config, depth_view(best_depth@), hits@),
            queue_advancing(db@, *config, depth_view(best_depth@), queue@, level, None),
            best_depth@.dom().len() <= config.max_visited_nodes || best_depth@.dom().len() == 1,
            queue@.len() + popped == best_depth@.dom().len(),
            popped <= nodes,
            traversed_edges <= config.max_edges,
            traversed_edges == targets_of(db@, *config, ids@, done),
            traversed_edges <= popped * nodes,
            forall|id: NodeId| #[trigger]
                done.contains(id) <==> depth_view(best_depth@).contains_key(id) && !queued(
                    queue@,
                    id,
                ) && depth_view(best_depth@)[id] < config.max_depth,
        decreases nodes - popped,
    {
        let ghost before = queue@;
        let ghost known = depth_view(best_depth@);
        let ghost sweep = sweep_after(*config, source_id, lists, lists.len());
        let (current, depth) = queue.pop_front().unwrap();
        proof {
            assert(sweep.found[lists.len() as int] == (before[0].0, before[0].1 as nat));
            assert(traces(
                *config,
                best_depth@,
                queue@,
                hits@,
                traversed_edges,
                sweep.popped(),
            )) by {
                assert forall|i: int| 0 <= i < queue@.len() implies (#[trigger] queue@[i]).0
                    == sweep.found[sweep.found.len() - (sweep.waiting - 1) + i].0 && queue@[i].1
                    == sweep.found[sweep.found.len() - (sweep.waiting - 1) + i].1 by {
                    assert(queue@[i] == before[i + 1]);
                }
            }
            assert(before[0] == (current, depth));
            assert(known.contains_key(before[0].0));
            lemma_pop(db@, *config, known, before, queue@, level, current, depth);
            level = depth as nat;
            assert(best_depth@.dom() =~= known.dom());
            vstd::set_lib::lemma_len_subset(best_depth@.dom(), db@.nodes.dom());
            assert(popped * nodes + nodes == (popped + 1) * nodes) by (nonlinear_arith);
            popped = popped + 1;
            assert(popped * nodes <= nodes * nodes) by (nonlinear_arith)
                requires
                    popped <= nodes,
            ;
        }
        if depth < config.max_depth {
            let targets = collect_targets(db, current, config);
            let ghost base = traversed_edges as nat;
            proof {
                assert(!done.contains(current)) by {
                    assert(queued(before, current)) by {
                        assert(before[0].0 == current);
                    }
                }
                assert(ids@.contains(current)) by {
                    assert(ids@.to_set().contains(current));
                }
                lemma_targets_insert(db@, *config, ids@, done, current);
                assert forall|id: NodeId| #[trigger] done.insert(current).contains(
                    id,
                ) implies config.max_depth > 0 && within(
                    adjacency,
                    source_id,
                    id,
                    (config.max_depth - 1) as nat,
                ) by {
                    assert(known.contains_key(id));
                    assert(is_distance(adjacency, source_id, id, known[id]));
                    lemma_within_grows(
                        adjacency,
                        source_id,
                        id,
                        known[id],
                        (config.max_depth - 1) as nat,
                    );
                }
                lemma_total_covers(db@, *config, source_id, ids@, done.insert(current));
            }
            let mut i: usize = 0;
            while i < targets.len()
                invariant
                    i <= targets@.len(),
                    sweep == sweep_after(*config, source_id, lists, lists.len()),
                    is_sweeping(db@, *config, source_id, lists),
                    sweep.stop is None,
                    lists.len() < sweep.found.len(),
                    sweep.found[lists.len() as int] == (current, depth as nat),
                    are_targets_of(
                        db@,
                        *config,
                        sweep.found[lists.len() as int],
                        targets@,
                    ),
                    traces(
                        *config,
                        best_depth@,
                        queue@,
                        hits@,
                        traversed_edges,
                        sweep.popped().after_targets(
                            *config,
                            depth as nat,
                            targets@,
                            i as nat,
                        ),
                    ),
                    exists|total: nat| #[trigger]
                        is_edge_total(db@, *config, source_id, total) && total >= base
                            + targets@.len(),
                    db@.well_formed(),
                    db@.nodes.contains_key(source_id),
                    valid_config(*config),
                    adjacency == reach_steps(db@, *config),
                    nodes == db@.nodes.dom().len(),
                    is_reach(db@, *config, source_id, reach_set(db@, *config, source_id)),
                    wanted_set(db@, *config, source_id).finite(),
                    reach_set(db@, *config, source_id).len() <= nodes,
                    wanted_set(db@, *config, source_id).len() <= nodes,
                    forall|id: NodeId| #[trigger]
                        wanted_set(db@, *config, source_id).contains(id) <==> is_wanted(
                            db@,
                            *config,
                            source_id,
                            id,
                        ),
                    forall|to: NodeId| #[trigger]
                        targets@.contains(to) <==> can_step(db@, *config, current, to),
                    targets@.len() <= nodes,
                    level == depth,
                    depth < config.max_depth,
                    depth_view(best_depth@).contains_key(current),
                    depth_view(best_depth@)[current] == level,
                    hits_sound(db@, *config, source_id, depth_view(best_depth@), hits@),
                    hits_complete(*config, depth_view(best_depth@), hits@),
                    queue_advancing(
                        db@,
                        *config,
                        depth_view(best_depth@),
                        queue@,
                        level,
                        Some(current),
                    ),
                    best_depth@.dom().len() <= config.max_visited_nodes || best_depth@.dom().len()
                        == 1,
                    queue@.len() + popped == best_depth@.dom().len(),
                    1 <= popped <= nodes,
                    traversed_edges <= config.max_edges,
                    traversed_edges == base + i,
                    base + nodes <= popped * nodes,
                    popped * nodes <= nodes * nodes,
                    forall|j: int|
                        0 <= j < i ==> depth_view(best_depth@).contains_key(
                            #[trigger] targets@[j],
                        ) && depth_view(best_depth@)[targets@[j]] <= level + 1,
                    forall|id: NodeId| #[trigger]
                        known.contains_key(id) ==> depth_view(best_depth@).contains_key(id)
                            && depth_view(best_depth@)[id] == known[id],
                    forall|id: NodeId| #[trigger]
                        depth_view(best_depth@).contains_key(id) && !known.contains_key(id)
                            ==> queued(queue@, id),
                    forall|id: NodeId| #[trigger]
                        queued(queue@, id) && known.contains_key(id) ==> queued(before, id) && id
                            != current,
                    forall|id: NodeId| #[trigger]
                        queued(before, id) && id != current ==> queued(queue@, id),
                decreases targets@.len() - i,
            {
                let target: NodeId = targets[i];
                let ghost seen = depth_view(best_depth@);
                let ghost waiting = queue@;
                let ghost held = hits@;
                let ghost passed = sweep.popped().after_targets(
                    *config,
                    depth as nat,
                    targets@,
                    i as nat,
                );
                let ghost next = passed.after_target(*config, depth as nat, target);
                proof {
                    lemma_node_found(*config, passed.found, (target, (depth + 1) as nat));
                    if next.stop is Some {
                        lemma_sweep_stops(
                            db@,
                            *config,
                            source_id,
                            lists,
                            targets@,
                            (i + 1) as nat,
                        );
                    }
                    assert(targets@.contains(target));
                    assert(can_step(db@, *config, current, target));
                    assert(best_depth@.dom() =~= seen.dom());
                }
                if traversed_edges >= config.max_edges {
                    assert(next.stop == Some(Bound::Edges));
                    return Err(
                        query_execution(
                            "图扩展检查边数超过预算 (Graph expansion examined-edge budget exceeded)",
                        ),
                    );
                }
                traversed_edges += 1;
                let next_depth: usize = depth + 1;
                let skip = match best_depth.get(&target) {
                    Some(recorded) => *recorded <= next_depth,
                    None => false,
                };
                proof {
                    if best_depth@.contains_key(target) {
                        assert(seen.contains_key(target));
                    }
                }
                if !skip {
                    proof {
                        lemma_next_depth(
                            db@,
                            *config,
                            source_id,
                            seen,
                            held,
                            waiting,
                            level,
                            current,
                            target,
                        );
                        lemma_too_many(
                            db@,
                            *config,
                            source_id,
                            seen,
                            held,
                            target,
                            next_depth as nat,
                        );
                        lemma_can_step_in_table(db@, *config, current, target);
                    }
                    if best_depth.len() >= config.max_visited_nodes {
                        assert(is_reach(
                            db@,
                            *config,
                            source_id,
                            reach_set(db@, *config, source_id),
                        ));
                        assert(next.stop == Some(Bound::Visits));
                        return Err(
                            query_execution(
                                "图扩展访问节点数超过预算 (Graph expansion visited-node budget exceeded)",
                            ),
                        );
                    }
                    best_depth.insert(target, next_depth);
                    if next_depth >= config.min_depth {
                        if hits.len() >= config.max_results {
                            assert(wanted_set(db@, *config, source_id).len() > config.max_results);
                            assert(next.stop == Some(Bound::Results));
                            return Err(
                                query_execution(
                                    "图扩展结果数超过预算 (Graph expansion result budget exceeded)",
                                ),
                            );
                        }
                        hits.push(ReachabilityHit { target_id: target, depth: next_depth });
                    }
                    proof {
                        assert(depth_view(best_depth@) =~= seen.insert(target, next_depth as nat));
                        assert(best_depth@.dom() =~= seen.dom().insert(target));
                        vstd::set_lib::lemma_len_subset(
                            best_depth@.dom().insert(target),
                            db@.nodes.dom(),
                        );
                    }
                    if queue.len() >= config.max_frontier_size {
                        assert(best_depth@.dom().subset_of(db@.nodes.dom())) by {
                            assert(best_depth@.dom() =~= seen.dom().insert(target));
                        }
                        proof {
                            vstd::set_lib::lemma_len_subset(best_depth@.dom(), db@.nodes.dom());
                        }
                        assert(next.stop == Some(Bound::Frontier));
                        return Err(
                            query_execution(
                                "图扩展前沿超过预算 (Graph expansion frontier budget exceeded)",
                            ),
                        );
                    }
                    queue.push_back((target, next_depth));
                    proof {
                        lemma_found(
                            db@,
                            *config,
                            source_id,
                            seen,
                            depth_view(best_depth@),
                            held,
                            hits@,
                            waiting,
                            queue@,
                            level,
                            current,
                            target,
                            next_depth,
                        );
                    }
                }
                proof {
                    assert(traces(*config, best_depth@, queue@, hits@, traversed_edges, next)) by {
                        assert forall|k: int| 0 <= k < queue@.len() implies (
                        #[trigger] queue@[k]).0 == next.found[next.found.len() - next.waiting
                            + k].0 && queue@[k].1 == next.found[next.found.len() - next.waiting
                            + k].1 by {
                            if k < waiting.len() {
                                assert(queue@[k] == waiting[k]);
                            }
                        }
                    }
                    assert forall|j: int| 0 <= j < i + 1 implies depth_view(
                        best_depth@,
                    ).contains_key(#[trigger] targets@[j]) && depth_view(best_depth@)[targets@[j]]
                        <= level + 1 by {
                        if j < i {
                            assert(seen.contains_key(targets@[j]));
                        } else if skip {
                            assert(seen.contains_key(target));
                        }
                    }
                }
                i += 1;
            }
            proof {
                lemma_sweeping(db@, *config, source_id, lists, targets@);
                lists = lists.push(targets@);
                done = done.insert(current);
                let depths = depth_view(best_depth@);
                assert forall|from: NodeId, to: NodeId|
                    depths.contains_key(from) && depths[from] < config.max_depth
                        && None::<NodeId> != Some(from) && !queued(queue@, from)
                        && #[trigger] adjacency(from, to) implies depths.contains_key(to)
                    && depths[to] <= depths[from] + 1 by {
                    if from == current {
                        assert(targets@.contains(to));
                        let j = choose|j: int| 0 <= j < targets@.len() && targets@[j] == to;
                        assert(depths.contains_key(targets@[j]));
                    }
                }
                assert(!queued(queue@, current)) by {
                    if queued(queue@, current) {
                        assert(known.contains_key(current));
                    }
                }
                assert forall|id: NodeId| #[trigger] done.contains(id) <==> depths.contains_key(id)
                    && !queued(queue@, id) && depths[id] < config.max_depth by {
                    if id != current {
                        if known.contains_key(id) {
                            assert(queued(queue@, id) <==> queued(before, id));
                        }
                    }
                }
            }
        } else {
            proof {
                lemma_sweeping(db@, *config, source_id, lists, Seq::empty());
                lists = lists.push(Seq::empty());
                assert forall|id: NodeId| #[trigger] done.contains(id) <==> known.contains_key(id)
                    && !queued(queue@, id) && known[id] < config.max_depth by {
                    if id != current {
                        assert(queued(before, id) <==> queued(queue@, id));
                    }
                }
            }
        }
    }
    let ghost depths = depth_view(best_depth@);
    let listed = sort_items(hits);
    proof {
        assert(views(hits@) =~= hits@);
        assert(views(listed@) =~= listed@);
        assert(closed_below(adjacency, depths, config.max_depth as nat)) by {
            assert forall|from: NodeId, to: NodeId|
                depths.contains_key(from) && depths[from] < config.max_depth
                    && #[trigger] adjacency(from, to) implies depths.contains_key(to) && depths[to]
                <= depths[from] + 1 by {
                assert(!queued(queue@, from));
            }
        }
        lemma_compact_answer(db@, *config, source_id, depths, hits@, listed@);
        assert(best_depth@.dom() =~= depths.dom());
        assert forall|id: NodeId| #[trigger] done.contains(id) <==> config.max_depth > 0 && within(
            adjacency,
            source_id,
            id,
            (config.max_depth - 1) as nat,
        ) by {
            assert(!queued(queue@, id));
        }
        assert(is_edge_total(db@, *config, source_id, traversed_edges as nat)) by {
            assert(traversed_edges == targets_of(db@, *config, ids@, done));
        }
        assert(is_sweep(
            db@,
            *config,
            source_id,
            sweep_after(*config, source_id, lists, lists.len()),
        ));
    }
    Ok(
        CompactReachabilityOutput {
            results: listed,
            visited_nodes: best_depth.len(),
            traversed_edges,
        },
    )
}

/// Nothing chosen counts nothing.
pub(crate) proof fn lemma_targets_none<T: VectorType>(
    table: Table<T>,
    config: ReachabilityConfig,
    ids: Seq<NodeId>,
)
    ensures
        targets_of(table, config, ids, Set::empty()) == 0,
    decreases ids.len(),
{
    if ids.len() > 0 {
        lemma_targets_none(table, config, ids.drop_last());
    }
}

/// A traversal before its first step.
proof fn lemma_compact_starts<T: VectorType>(
    table: Table<T>,
    config: ReachabilityConfig,
    source: NodeId,
    best_depth: Map<NodeId, usize>,
    queue: Seq<(NodeId, usize)>,
    hits: Seq<ReachabilityHit>,
)
    requires
        table.well_formed(),
        table.nodes.contains_key(source),
        valid_config(config),
        best_depth == Map::<NodeId, usize>::empty().insert(source, 0usize),
        queue == Seq::<(NodeId, usize)>::empty().push((source, 0usize)),
        hits == (if config.min_depth == 0 {
            Seq::<ReachabilityHit>::empty().push(ReachabilityHit { target_id: source, depth: 0 })
        } else {
            Seq::<ReachabilityHit>::empty()
        }),
    ensures
        hits_sound(table, config, source, depth_view(best_depth), hits),
        hits_complete(config, depth_view(best_depth), hits),
        queue_advancing(table, config, depth_view(best_depth), queue, 0, None),
        best_depth.dom().len() == 1,
        forall|id: NodeId| #[trigger] depth_view(best_depth).contains_key(id) ==> queued(queue, id),
{
    let depths = depth_view(best_depth);
    assert(depths =~= Map::<NodeId, nat>::empty().insert(source, 0nat));
    assert(best_depth.dom() =~= Set::<NodeId>::empty().insert(source));
    assert(depths.dom() =~= Set::<NodeId>::empty().insert(source));
    assert(is_distance(reach_steps(table, config), source, source, 0));
    assert forall|id: NodeId| #[trigger] depths.contains_key(id) implies queued(queue, id) by {
        assert(queue[0].0 == id);
    }
    if config.min_depth == 0 {
        assert(hits[0].target_id == source);
        assert(hit_reported(hits, source));
    }
}

/// Taking the first node out of the queue.
proof fn lemma_pop<T: VectorType>(
    table: Table<T>,
    config: ReachabilityConfig,
    depths: Map<NodeId, nat>,
    before: Seq<(NodeId, usize)>,
    after: Seq<(NodeId, usize)>,
    level: nat,
    current: NodeId,
    depth: usize,
)
    requires
        queue_advancing(table, config, depths, before, level, None),
        before.len() > 0,
        before[0] == (current, depth),
        after == before.drop_first(),
    ensures
        depths.contains_key(current),
        depths[current] == depth,
        queue_advancing(table, config, depths, after, depth as nat, Some(current)),
        depth >= config.max_depth ==> queue_advancing(
            table,
            config,
            depths,
            after,
            depth as nat,
            None,
        ),
        forall|id: NodeId| #[trigger] queued(after, id) <==> queued(before, id) && id != current,
{
    assert(depths.contains_key(before[0].0));
    assert forall|id: NodeId| #[trigger] queued(after, id) <==> queued(before, id) && id
        != current by {
        if queued(before, id) && id != current {
            let n = choose|n: int| 0 <= n < before.len() && (#[trigger] before[n]).0 == id;
            assert(after[n - 1].0 == id);
        }
        if queued(after, id) {
            let n = choose|n: int| 0 <= n < after.len() && (#[trigger] after[n]).0 == id;
            assert(before[n + 1].0 == id);
            assert(before[0].0 != before[n + 1].0);
        }
    }
    assert forall|i: int| 0 <= i < after.len() implies depths.contains_key(
        (#[trigger] after[i]).0,
    ) && depths[after[i].0] == after[i].1 && depth <= after[i].1 && after[i].0 != current by {
        assert(after[i] == before[i + 1]);
        assert(before[0].1 <= before[i + 1].1);
    }
    assert forall|i: int, j: int| 0 <= i < j < after.len() implies (#[trigger] after[i]).1 <= (
    #[trigger] after[j]).1 && after[i].0 != after[j].0 by {
        assert(after[i] == before[i + 1] && after[j] == before[j + 1]);
    }
}

/// Recording a new node.
proof fn lemma_found<T: VectorType>(
    table: Table<T>,
    config: ReachabilityConfig,
    source: NodeId,
    seen: Map<NodeId, nat>,
    depths: Map<NodeId, nat>,
    held: Seq<ReachabilityHit>,
    hits: Seq<ReachabilityHit>,
    waiting: Seq<(NodeId, usize)>,
    queue: Seq<(NodeId, usize)>,
    level: nat,
    current: NodeId,
    target: NodeId,
    next_depth: usize,
)
    requires
        hits_sound(table, config, source, seen, held),
        hits_complete(config, seen, held),
        queue_advancing(table, config, seen, waiting, level, Some(current)),
        seen.contains_key(current),
        !seen.contains_key(target),
        table.nodes.contains_key(target),
        next_depth == level + 1,
        next_depth <= config.max_depth,
        is_distance(reach_steps(table, config), source, target, next_depth as nat),
        depths == seen.insert(target, next_depth as nat),
        queue == waiting.push((target, next_depth)),
        config.min_depth <= next_depth ==> held.len() < config.max_results && hits == held.push(
            ReachabilityHit { target_id: target, depth: next_depth },
        ),
        config.min_depth > next_depth ==> hits == held,
    ensures
        hits_sound(table, config, source, depths, hits),
        hits_complete(config, depths, hits),
        queue_advancing(table, config, depths, queue, level, Some(current)),
        forall|id: NodeId| #[trigger] queued(queue, id) <==> queued(waiting, id) || id == target,
{
    let adjacency = reach_steps(table, config);
    assert forall|id: NodeId| #[trigger] queued(queue, id) <==> queued(waiting, id) || id
        == target by {
        if queued(waiting, id) {
            let n = choose|n: int| 0 <= n < waiting.len() && (#[trigger] waiting[n]).0 == id;
            assert(queue[n].0 == id);
        }
        assert(queue[waiting.len() as int].0 == target);
        if queued(queue, id) && id != target {
            let n = choose|n: int| 0 <= n < queue.len() && (#[trigger] queue[n]).0 == id;
            assert(waiting[n].0 == id);
        }
    }
    assert forall|id: NodeId| #[trigger] depths.contains_key(id) implies depths[id]
        <= config.max_depth && depths[id] <= level + 1 && is_distance(
        adjacency,
        source,
        id,
        depths[id],
    ) by {
        if id != target {
            assert(seen.contains_key(id));
        }
    }
    assert(depths.dom() =~= seen.dom().insert(target));
    assert forall|i: int| 0 <= i < hits.len() implies depths.contains_key(
        (#[trigger] hits[i]).target_id,
    ) && depths[hits[i].target_id] == hits[i].depth && config.min_depth <= hits[i].depth by {
        if i < held.len() {
            assert(hits[i] == held[i]);
            assert(seen.contains_key(held[i].target_id));
        }
    }
    assert forall|i: int, j: int| 0 <= i < j < hits.len() implies (#[trigger] hits[i]).target_id
        != (#[trigger] hits[j]).target_id by {
        assert(hits[i] == held[i]);
        assert(seen.contains_key(held[i].target_id));
        if j < held.len() {
            assert(hits[j] == held[j]);
        }
    }
    assert forall|id: NodeId| #[trigger]
        depths.contains_key(id) && config.min_depth <= depths[id] implies hit_reported(
        hits,
        id,
    ) by {
        if id == target {
            assert(hits[held.len() as int].target_id == target);
        } else {
            assert(seen.contains_key(id));
            assert(hit_reported(held, id));
            let i = choose|i: int| 0 <= i < held.len() && (#[trigger] held[i]).target_id == id;
            assert(hits[i].target_id == id);
        }
    }
    assert forall|i: int| 0 <= i < queue.len() implies depths.contains_key(
        (#[trigger] queue[i]).0,
    ) && depths[queue[i].0] == queue[i].1 && level <= queue[i].1 && Some(queue[i].0) != Some(
        current,
    ) by {
        if i < waiting.len() {
            assert(queue[i] == waiting[i]);
            assert(seen.contains_key(waiting[i].0));
        }
    }
    assert forall|i: int, j: int| 0 <= i < j < queue.len() implies (#[trigger] queue[i]).1 <= (
    #[trigger] queue[j]).1 && queue[i].0 != queue[j].0 by {
        assert(queue[i] == waiting[i]);
        assert(seen.contains_key(waiting[i].0));
        if j < waiting.len() {
            assert(queue[j] == waiting[j]);
        }
    }
    assert forall|from: NodeId, to: NodeId|
        depths.contains_key(from) && depths[from] < config.max_depth && Some(current) != Some(from)
            && !queued(queue, from) && #[trigger] adjacency(from, to) implies depths.contains_key(
        to,
    ) && depths[to] <= depths[from] + 1 by {
        assert(seen.contains_key(from));
        assert(seen.contains_key(to));
    }
}

} // verus!
