//! Reachability by breadth-first search, aware of direction, labels and budgets.
//!
//! Nodes are found in order of their distance, and the steps out of a node are followed in a
//! fixed order, so that the result does not depend on how the table came about. Every bound of
//! the budget is checked before work is done; under the `Error` policy nothing is cut off
//! silently.
use std::collections::{HashMap, VecDeque};
use vstd::prelude::*;

use crate::collections::sort_dedup;
use crate::error::{
    invalid_input, is_invalid_input, is_query_execution, query_execution, Result, TriviumError,
};
use crate::graph::budget::{
    exhausted, is_budget_exceeded, BudgetDimension, BudgetExhaustionPolicy, TraversalBudget,
    TraversalMetrics,
};
use crate::graph::compact::results_message;
use crate::graph::course::{
    course_after, depth_of, is_course, is_known, is_under_way, lemma_stopped, lemma_under_way,
    lemma_way_found, results_of, Course, Stop, Way,
};
use crate::graph::walk::{
    closed_below, connects, is_distance, lemma_closed_below, lemma_walk_push, lemma_within_grows,
    lemma_within_step, law_walk_bounds_distance, within, Adjacency,
};
use crate::node::{edge_views, EdgeView, IncomingView, NodeId, Payload};
use crate::sorting::{
    law_sorted, lemma_sorted_contains, order_of, ranks_determine, sort_distinct, sort_items,
    sorted, strictly_ordered, views, SortItem,
};
use crate::storage::memtable::{
    distinct_edges, incoming_of, is_listed, label_view, MemTable, Table,
};
use crate::text::{
    law_text_order_irreflexive, law_text_order_total, law_text_order_transitive, same_text,
    text_before, text_less,
};
use crate::vector::{copy_slice, VectorType};

verus! {

/// Which way edges are followed.
#[derive(Debug, Clone, Copy, PartialEq, Eq, Structural)]
pub enum ReachabilityDirection {
    Outgoing,
    Incoming,
    Both,
}

impl Default for ReachabilityDirection {
    fn default() -> (direction: Self)
        ensures
            direction == ReachabilityDirection::Outgoing,
    {
        ReachabilityDirection::Outgoing
    }
}

/// What a reachability query asks for. `labels` restricts the edges that are followed.
#[derive(Debug)]
pub struct ReachabilityConfig {
    pub min_depth: usize,
    pub max_depth: usize,
    pub labels: Option<Vec<String>>,
    pub direction: ReachabilityDirection,
    pub max_visited_nodes: usize,
    pub max_results: usize,
    pub max_edges: usize,
    pub max_frontier_size: usize,
    pub exhaustion_policy: BudgetExhaustionPolicy,
}

impl Default for ReachabilityConfig {
    fn default() -> (config: Self)
        ensures
            config.min_depth == 1,
            config.max_depth == 1,
            config.labels is None,
            config.direction == ReachabilityDirection::Outgoing,
            config.max_visited_nodes == 10_000,
            config.max_results == 10_000,
            config.max_edges == 50_000,
            config.max_frontier_size == 10_000,
            config.exhaustion_policy == BudgetExhaustionPolicy::Error,
    {
        ReachabilityConfig {
            min_depth: 1,
            max_depth: 1,
            labels: None,
            direction: ReachabilityDirection::Outgoing,
            max_visited_nodes: 10_000,
            max_results: 10_000,
            max_edges: 50_000,
            max_frontier_size: 10_000,
            exhaustion_policy: BudgetExhaustionPolicy::Error,
        }
    }
}

/// One step of a path: from which node to which, and the edge that was followed.
#[derive(Debug)]
pub struct ReachabilityStep {
    pub from: NodeId,
    pub to: NodeId,
    pub edge_source: NodeId,
    pub edge_target: NodeId,
    pub label: String,
    pub weight: u32,
    pub metadata: String,
}

/// A step as mathematical values.
pub struct StepView {
    pub from: NodeId,
    pub to: NodeId,
    pub edge_source: NodeId,
    pub edge_target: NodeId,
    pub label: Seq<char>,
    pub weight: u32,
    pub metadata: Seq<char>,
}

impl View for ReachabilityStep {
    type V = StepView;

    open spec fn view(&self) -> StepView {
        StepView {
            from: self.from,
            to: self.to,
            edge_source: self.edge_source,
            edge_target: self.edge_target,
            label: self.label@,
            weight: self.weight,
            metadata: self.metadata@,
        }
    }
}

impl ReachabilityStep {
    /// A step with the same contents.
    pub fn duplicate(&self) -> (result: ReachabilityStep)
        ensures
            result == *self,
    {
        ReachabilityStep {
            from: self.from,
            to: self.to,
            edge_source: self.edge_source,
            edge_target: self.edge_target,
            label: self.label.clone(),
            weight: self.weight,
            metadata: self.metadata.clone(),
        }
    }
}

/// Whether edges with this label are followed.
pub open spec fn label_allowed(labels: Option<Vec<String>>, label: Seq<char>) -> bool {
    labels matches Some(list) ==> exists|i: int|
        0 <= i < list@.len() && (#[trigger] list@[i])@ == label
}

/// The edge of a step, as its source holds it.
pub open spec fn step_edge(step: StepView) -> EdgeView {
    EdgeView {
        target: step.edge_target,
        label: step.label,
        weight: step.weight,
        metadata: step.metadata,
    }
}

/// Whether a query may take this step.
pub open spec fn is_step<T: VectorType>(
    table: Table<T>,
    config: ReachabilityConfig,
    step: StepView,
) -> bool {
    &&& label_allowed(config.labels, step.label)
    &&& table.edges_of(step.edge_source).contains(step_edge(step))
    &&& (config.direction != ReachabilityDirection::Incoming && step.from == step.edge_source
        && step.to == step.edge_target) || (config.direction != ReachabilityDirection::Outgoing
        && step.from == step.edge_target && step.to == step.edge_source)
}

/// Whether a query may go from one node to another in one step.
pub open spec fn can_step<T: VectorType>(
    table: Table<T>,
    config: ReachabilityConfig,
    from: NodeId,
    to: NodeId,
) -> bool {
    exists|step: StepView| #[trigger]
        is_step(table, config, step) && step.from == from && step.to == to
}

/// The steps that a query may take.
pub open spec fn reach_steps<T: VectorType>(
    table: Table<T>,
    config: ReachabilityConfig,
) -> Adjacency {
    |from: NodeId, to: NodeId| can_step(table, config, from, to)
}

/// Whether edges with this label are followed.
pub(crate) fn allowed(label: &str, labels: &Option<Vec<String>>) -> (result: bool)
    ensures
        result == label_allowed(*labels, label@),
{
    match labels {
        None => true,
        Some(list) => {
            let mut i: usize = 0;
            while i < list.len()
                invariant
                    i <= list@.len(),
                    *labels == Some(*list),
                    forall|j: int| 0 <= j < i ==> (#[trigger] list@[j])@ != label@,
                decreases list@.len() - i,
            {
                if same_text(list[i].as_str(), label) {
                    assert(labels->0 == *list);
                    assert(list@[i as int]@ == label@);
                    return true;
                }
                i += 1;
            }
            false
        },
    }
}

/// The order in which the steps out of a node are taken: by the node they lead to, then by
/// label, then by the ends of the edge.
pub open spec fn step_before(a: StepView, b: StepView) -> bool {
    if a.to != b.to {
        a.to < b.to
    } else if a.label != b.label {
        text_before(a.label, b.label)
    } else if a.edge_source != b.edge_source {
        a.edge_source < b.edge_source
    } else {
        a.edge_target < b.edge_target
    }
}

impl SortItem for ReachabilityStep {
    open spec fn goes_before(a: StepView, b: StepView) -> bool {
        step_before(a, b)
    }

    proof fn lemma_order(a: StepView, b: StepView, c: StepView) {
        law_text_order_total(a.label, b.label);
        law_text_order_total(b.label, c.label);
        law_text_order_total(a.label, c.label);
        law_text_order_irreflexive(a.label);
        if text_before(a.label, b.label) && text_before(b.label, c.label) {
            law_text_order_transitive(a.label, b.label, c.label);
        }
        if text_before(c.label, a.label) && text_before(a.label, b.label) {
            law_text_order_transitive(c.label, a.label, b.label);
        }
    }

    fn is_before(&self, other: &ReachabilityStep) -> (result: bool) {
        if self.to != other.to {
            self.to < other.to
        } else if !same_text(self.label.as_str(), other.label.as_str()) {
            text_less(self.label.as_str(), other.label.as_str())
        } else if self.edge_source != other.edge_source {
            self.edge_source < other.edge_source
        } else {
            self.edge_target < other.edge_target
        }
    }
}

/// Whether `steps` lists the steps out of a node, each once and in order.
pub open spec fn is_step_list<T: VectorType>(
    table: Table<T>,
    config: ReachabilityConfig,
    from: NodeId,
    steps: Seq<StepView>,
) -> bool {
    &&& forall|i: int, j: int|
        0 <= i < j < steps.len() ==> step_before(#[trigger] steps[i], #[trigger] steps[j])
    &&& forall|step: StepView| #[trigger]
        steps.contains(step) <==> is_step(table, config, step) && step.from == from
}

/// The step along an outgoing edge.
pub open spec fn forward_step(from: NodeId, edge: EdgeView) -> StepView {
    StepView {
        from,
        to: edge.target,
        edge_source: from,
        edge_target: edge.target,
        label: edge.label,
        weight: edge.weight,
        metadata: edge.metadata,
    }
}

/// The step against an incoming edge.
pub open spec fn backward_step(from: NodeId, edge: IncomingView) -> StepView {
    StepView {
        from,
        to: edge.source,
        edge_source: edge.source,
        edge_target: from,
        label: edge.label,
        weight: edge.weight,
        metadata: edge.metadata,
    }
}

/// Two steps of a well-formed table that agree in what orders them are the same step.
proof fn lemma_step_determined<T: VectorType>(
    table: Table<T>,
    config: ReachabilityConfig,
    a: StepView,
    b: StepView,
)
    requires
        table.well_formed(),
        is_step(table, config, a),
        is_step(table, config, b),
        a.from == b.from,
        !step_before(a, b),
        !step_before(b, a),
    ensures
        a == b,
{
    law_text_order_total(a.label, b.label);
    let edges = table.edges_of(a.edge_source);
    let i = choose|i: int| 0 <= i < edges.len() && edges[i] == step_edge(a);
    let j = choose|j: int| 0 <= j < edges.len() && edges[j] == step_edge(b);
    assert(a.edge_source == b.edge_source && a.edge_target == b.edge_target);
    assert(table.nodes.contains_key(a.edge_source));
    assert(distinct_edges(table.nodes[a.edge_source].edges));
    if i < j {
        assert(edges[i].target == edges[j].target);
    } else if j < i {
        assert(edges[j].target == edges[i].target);
    }
}

/// The steps out of a node, each once and in order.
fn collect_steps<T: VectorType>(
    db: &MemTable<T>,
    current: NodeId,
    c: &ReachabilityConfig,
) -> (steps: Vec<ReachabilityStep>)
    requires
        db.inv(),
    ensures
        is_step_list(db@, *c, current, views(steps@)),
{
    proof {
        db.lemma_inv();
    }
    let mut found: Vec<ReachabilityStep> = Vec::new();
    if c.direction != ReachabilityDirection::Incoming {
        match db.get_edges(current) {
            None => {},
            Some(edges) => {
                let mut i: usize = 0;
                while i < edges.len()
                    invariant
                        i <= edges@.len(),
                        c.direction != ReachabilityDirection::Incoming,
                        db@.nodes.contains_key(current),
                        edge_views(edges@) == db@.edges_of(current),
                        forall|n: int|
                            0 <= n < found@.len() ==> is_step(db@, *c, (#[trigger] found@[n])@)
                                && found@[n].from == current,
                        forall|j: int|
                            0 <= j < i && label_allowed(
                                c.labels,
                                (#[trigger] db@.edges_of(current)[j]).label,
                            ) ==> views(found@).contains(
                                forward_step(current, db@.edges_of(current)[j]),
                            ),
                    decreases edges@.len() - i,
                {
                    let ghost before = found@;
                    assert(edges@[i as int]@ == db@.edges_of(current)[i as int]);
                    if allowed(edges[i].label.as_str(), &c.labels) {
                        let step = ReachabilityStep {
                            from: current,
                            to: edges[i].target_id,
                            edge_source: current,
                            edge_target: edges[i].target_id,
                            label: edges[i].label.clone(),
                            weight: edges[i].weight,
                            metadata: edges[i].metadata.clone(),
                        };
                        found.push(step);
                        proof {
                            assert(step@ == forward_step(current, db@.edges_of(current)[i as int]));
                            assert(db@.edges_of(current)[i as int] == step_edge(step@));
                            assert(views(found@)[before.len() as int] == step@);
                        }
                    }
                    proof {
                        lemma_views_grow(before, found@);
                    }
                    i += 1;
                }
            },
        }
    }
    let ghost outward = found@;
    proof {
        assert forall|edge: EdgeView|
            c.direction != ReachabilityDirection::Incoming && #[trigger] db@.edges_of(
                current,
            ).contains(edge) && label_allowed(c.labels, edge.label) implies views(
            found@,
        ).contains(forward_step(current, edge)) by {
            let j = choose|j: int|
                0 <= j < db@.edges_of(current).len() && db@.edges_of(current)[j] == edge;
            assert(db@.edges_of(current)[j].label == edge.label);
        }
    }
    if c.direction != ReachabilityDirection::Outgoing {
        let incoming = db.get_incoming_edges(current, None);
        let mut i: usize = 0;
        while i < incoming.len()
            invariant
                i <= incoming@.len(),
                c.direction != ReachabilityDirection::Outgoing,
                forall|k: int|
                    0 <= k < incoming@.len() ==> db@.is_incoming(
                        current,
                        None,
                        (#[trigger] incoming@[k])@,
                    ),
                forall|n: int|
                    0 <= n < found@.len() ==> is_step(db@, *c, (#[trigger] found@[n])@)
                        && found@[n].from == current,
                forall|step: StepView| #[trigger]
                    views(outward).contains(step) ==> views(found@).contains(step),
                forall|j: int|
                    0 <= j < i && label_allowed(c.labels, (#[trigger] incoming@[j])@.label)
                        ==> views(found@).contains(backward_step(current, incoming@[j]@)),
            decreases incoming@.len() - i,
        {
            let ghost before = found@;
            if allowed(incoming[i].label.as_str(), &c.labels) {
                let step = ReachabilityStep {
                    from: current,
                    to: incoming[i].source_id,
                    edge_source: incoming[i].source_id,
                    edge_target: current,
                    label: incoming[i].label.clone(),
                    weight: incoming[i].weight,
                    metadata: incoming[i].metadata.clone(),
                };
                found.push(step);
                proof {
                    let edge = incoming@[i as int]@;
                    assert(db@.is_incoming(current, None, edge));
                    let m = choose|m: int|
                        0 <= m < db@.nodes[edge.source].edges.len() && #[trigger] incoming_of(
                            edge.source,
                            db@.nodes[edge.source].edges[m],
                        ) == edge && db@.nodes[edge.source].edges[m].target == current;
                    assert(db@.edges_of(edge.source)[m] == step_edge(step@));
                    assert(step@ == backward_step(current, edge));
                    assert(views(found@)[before.len() as int] == step@);
                }
            }
            proof {
                lemma_views_grow(before, found@);
            }
            i += 1;
        }
        proof {
            assert forall|source: NodeId, edge: EdgeView| #[trigger]
                db@.edges_of(source).contains(edge) && edge.target == current && label_allowed(
                    c.labels,
                    edge.label,
                ) implies views(found@).contains(
                backward_step(current, incoming_of(source, edge)),
            ) by {
                let m = choose|m: int|
                    0 <= m < db@.edges_of(source).len() && db@.edges_of(source)[m] == edge;
                let seen = incoming_of(source, edge);
                assert(db@.nodes.contains_key(source));
                assert(incoming_of(seen.source, db@.nodes[seen.source].edges[m]) == seen);
                assert(db@.is_incoming(current, label_view(None), seen));
                assert(is_listed(incoming@, seen));
                let k = choose|k: int|
                    0 <= k < incoming@.len() && (#[trigger] incoming@[k])@ == seen;
                assert(label_allowed(c.labels, incoming@[k]@.label));
            }
        }
    }
    let ghost gathered = views(found@);
    proof {
        assert forall|step: StepView| #[trigger] gathered.contains(step) <==> is_step(
            db@,
            *c,
            step,
        ) && step.from == current by {
            if gathered.contains(step) {
                let n = choose|n: int| 0 <= n < gathered.len() && gathered[n] == step;
                assert(found@[n]@ == step);
            }
            if is_step(db@, *c, step) && step.from == current {
                let edge = step_edge(step);
                assert(db@.edges_of(step.edge_source).contains(edge));
                if c.direction != ReachabilityDirection::Incoming && step.from == step.edge_source
                    && step.to == step.edge_target {
                    assert(step == forward_step(current, edge));
                    assert(views(outward).contains(step));
                } else {
                    assert(step == backward_step(current, incoming_of(step.edge_source, edge)));
                }
            }
        }
    }
    proof {
        assert(ranks_determine(gathered, order_of::<ReachabilityStep>())) by {
            assert forall|a: StepView, b: StepView|
                #![trigger gathered.contains(a), gathered.contains(b)]
                gathered.contains(a) && gathered.contains(b) && !step_before(a, b) && !step_before(
                    b,
                    a,
                ) implies a == b by {
                lemma_step_determined(db@, *c, a, b);
            }
        }
    }
    let steps = sort_distinct(found);
    proof {
        let result = views(steps@);
        assert forall|i: int, j: int| 0 <= i < j < result.len() implies step_before(
            #[trigger] result[i],
            #[trigger] result[j],
        ) by {
            assert(order_of::<ReachabilityStep>()(result[i], result[j]));
        }
    }
    steps
}

/// What was listed stays listed.
proof fn lemma_views_grow<X: View>(few: Seq<X>, many: Seq<X>)
    requires
        few.len() <= many.len(),
        forall|i: int| 0 <= i < few.len() ==> few[i] == many[i],
    ensures
        forall|item: X::V| #[trigger] views(few).contains(item) ==> views(many).contains(item),
{
    assert forall|item: X::V| #[trigger] views(few).contains(item) implies views(many).contains(
        item,
    ) by {
        let n = choose|n: int| 0 <= n < views(few).len() && views(few)[n] == item;
        assert(views(many)[n] == item);
    }
}

// ---------------------------------------------------------------------------------------
// Traversal with paths
// ---------------------------------------------------------------------------------------
/// A node that was reached, with a shortest path to it.
#[derive(Debug)]
pub struct ReachabilityResult {
    pub source_id: NodeId,
    pub target_id: NodeId,
    pub depth: usize,
    pub path: Vec<NodeId>,
    pub steps: Vec<ReachabilityStep>,
}

/// A result as mathematical values.
pub struct ResultView {
    pub source: NodeId,
    pub target: NodeId,
    pub depth: nat,
    pub path: Seq<NodeId>,
    pub steps: Seq<StepView>,
}

impl View for ReachabilityResult {
    type V = ResultView;

    open spec fn view(&self) -> ResultView {
        ResultView {
            source: self.source_id,
            target: self.target_id,
            depth: self.depth as nat,
            path: self.path@,
            steps: views(self.steps@),
        }
    }
}

impl SortItem for ReachabilityResult {
    open spec fn goes_before(a: ResultView, b: ResultView) -> bool {
        a.depth < b.depth || (a.depth == b.depth && a.target < b.target)
    }

    proof fn lemma_order(a: ResultView, b: ResultView, c: ResultView) {
    }

    fn is_before(&self, other: &ReachabilityResult) -> (result: bool) {
        self.depth < other.depth || (self.depth == other.depth && self.target_id < other.target_id)
    }
}

/// Outcome of a reachability query.
#[derive(Debug)]
pub struct ReachabilityOutput {
    pub results: Vec<ReachabilityResult>,
    pub visited_nodes: usize,
    pub traversed_edges: usize,
    pub peak_frontier_size: usize,
    pub depth_reached: usize,
    pub truncated: bool,
}

/// Whether `steps` are steps of the query that lead along `path`.
pub open spec fn follows<T: VectorType>(
    table: Table<T>,
    config: ReachabilityConfig,
    path: Seq<NodeId>,
    steps: Seq<StepView>,
) -> bool {
    path.len() == steps.len() + 1 && forall|i: int|
        0 <= i < steps.len() ==> is_step(table, config, #[trigger] steps[i]) && steps[i].from
            == path[i] && steps[i].to == path[i + 1]
}

/// Whether `result` reports a node at its distance, with steps of the query that lead to it.
pub open spec fn is_result<T: VectorType>(
    table: Table<T>,
    config: ReachabilityConfig,
    source: NodeId,
    result: ResultView,
) -> bool {
    &&& result.source == source
    &&& result.path.len() == result.depth + 1
    &&& connects(reach_steps(table, config), result.path, source, result.target)
    &&& is_distance(reach_steps(table, config), source, result.target, result.depth)
    &&& follows(table, config, result.path, result.steps)
    &&& config.min_depth <= result.depth <= config.max_depth
}

/// Whether a node's distance is in the range that is asked for.
pub open spec fn is_wanted<T: VectorType>(
    table: Table<T>,
    config: ReachabilityConfig,
    source: NodeId,
    target: NodeId,
) -> bool {
    exists|depth: nat| #[trigger]
        is_distance(reach_steps(table, config), source, target, depth) && config.min_depth <= depth
            <= config.max_depth
}

/// Whether the query is well posed.
pub open spec fn valid_config(config: ReachabilityConfig) -> bool {
    config.min_depth <= config.max_depth && config.max_visited_nodes > 0 && config.max_results > 0
        && config.max_edges > 0 && config.max_frontier_size > 0
}

/// Whether `error` says why a query is refused: an unknown source first, then an empty range of
/// depths, then a bound of zero.
pub open spec fn is_query_fault<T: VectorType>(
    table: Table<T>,
    source: NodeId,
    config: ReachabilityConfig,
    error: TriviumError,
) -> bool {
    if !table.nodes.contains_key(source) {
        error == TriviumError::NodeNotFound(source)
    } else if config.min_depth > config.max_depth {
        is_invalid_input(error, "Reachability min_depth 不能大于 max_depth"@)
    } else {
        is_invalid_input(error, "Reachability 查询预算必须大于 0"@)
    }
}

/// Checks that a query is well posed.
pub(crate) fn validate<T: VectorType>(
    db: &MemTable<T>,
    source_id: NodeId,
    c: &ReachabilityConfig,
) -> (result: Result<()>)
    ensures
        result is Ok <==> db@.nodes.contains_key(source_id) && valid_config(*c),
        result matches Err(error) ==> is_query_fault(db@, source_id, *c, error),
{
    if !db.contains(source_id) {
        return Err(TriviumError::NodeNotFound(source_id));
    }
    if c.min_depth > c.max_depth {
        return Err(invalid_input("Reachability min_depth 不能大于 max_depth"));
    }
    if c.max_visited_nodes == 0 || c.max_results == 0 || c.max_edges == 0 || c.max_frontier_size
        == 0 {
        return Err(invalid_input("Reachability 查询预算必须大于 0"));
    }
    Ok(())
}

/// The budget of a query.
pub open spec fn query_budget(config: ReachabilityConfig) -> TraversalBudget {
    TraversalBudget {
        max_visited_nodes: config.max_visited_nodes,
        max_examined_edges: config.max_edges,
        max_frontier_size: config.max_frontier_size,
        max_depth: config.max_depth,
        exhaustion_policy: config.exhaustion_policy,
    }
}

/// Whether no node has more than `bound` steps out of it.
pub open spec fn steps_bounded<T: VectorType>(
    table: Table<T>,
    config: ReachabilityConfig,
    bound: nat,
) -> bool {
    forall|from: NodeId, steps: Seq<StepView>| #[trigger]
        is_step_list(table, config, from, steps) ==> steps.len() <= bound
}

/// Whether the bounds of a query cover the whole table, in which no node has more than `bound`
/// steps out of it.
pub open spec fn query_covers<T: VectorType>(
    table: Table<T>,
    config: ReachabilityConfig,
    bound: nat,
) -> bool {
    let nodes = table.nodes.dom().len();
    &&& steps_bounded(table, config, bound)
    &&& config.max_visited_nodes >= nodes
    &&& config.max_results >= nodes
    &&& config.max_frontier_size >= nodes
    &&& config.max_edges >= nodes * bound
}

/// A node whose steps are still to be taken, with the way to it.
struct PathState {
    node: NodeId,
    path: Vec<NodeId>,
    steps: Vec<ReachabilityStep>,
}

/// The state of a traversal.
struct Traversal {
    queue: VecDeque<PathState>,
    best_depth: HashMap<NodeId, usize>,
    results: Vec<ReachabilityResult>,
    traversed_edges: usize,
    peak_frontier_size: usize,
    depth_reached: usize,
    truncated: bool,
}

/// Whether a node waits in the queue.
spec fn waits(queue: Seq<PathState>, id: NodeId) -> bool {
    exists|i: int| 0 <= i < queue.len() && (#[trigger] queue[i]).node == id
}

/// Whether a node is among the results.
pub open spec fn reports(results: Seq<ReachabilityResult>, id: NodeId) -> bool {
    exists|i: int| 0 <= i < results.len() && (#[trigger] results[i]).target_id == id
}

/// The recorded depths.
spec fn known_depths(best_depth: Map<NodeId, usize>) -> Map<NodeId, nat> {
    best_depth.map_values(|depth: usize| depth as nat)
}

/// What holds of a traversal, whether or not it was truncated: recorded depths are distances,
/// every result is one of them, and the bounds are kept.
spec fn sound<T: VectorType>(
    table: Table<T>,
    config: ReachabilityConfig,
    source: NodeId,
    walk: Traversal,
) -> bool {
    let steps = reach_steps(table, config);
    let depths = known_depths(walk.best_depth@);
    &&& depths.contains_key(source)
    &&& depths[source] == 0
    &&& walk.best_depth@.dom().finite()
    &&& walk.best_depth@.dom().subset_of(table.nodes.dom())
    &&& forall|id: NodeId| #[trigger]
        depths.contains_key(id) ==> depths[id] <= config.max_depth && is_distance(
            steps,
            source,
            id,
            depths[id],
        )
    &&& forall|i: int|
        0 <= i < walk.results@.len() ==> is_result(
            table,
            config,
            source,
            (#[trigger] walk.results@[i])@,
        ) && depths.contains_key(walk.results@[i].target_id)
    &&& forall|i: int, j: int|
        0 <= i < j < walk.results@.len() ==> (#[trigger] walk.results@[i]).target_id != (
        #[trigger] walk.results@[j]).target_id
    &&& walk.results@.len() <= config.max_results
    &&& walk.traversed_edges <= config.max_edges
    &&& depth_peak(depths, walk.depth_reached as nat)
    &&& walk.depth_reached <= config.max_depth
}

/// What holds of a traversal that is not truncated: the queue is sorted by depth, from `level`
/// to the next, and every node but `current` that is not in the queue has been expanded.
spec fn advancing<T: VectorType>(
    table: Table<T>,
    config: ReachabilityConfig,
    source: NodeId,
    walk: Traversal,
    level: nat,
    current: Option<NodeId>,
) -> bool {
    let steps = reach_steps(table, config);
    let depths = known_depths(walk.best_depth@);
    &&& forall|id: NodeId| #[trigger] depths.contains_key(id) ==> depths[id] <= level + 1
    &&& forall|i: int|
        0 <= i < walk.queue@.len() ==> waiting_state(
            table,
            config,
            source,
            depths,
            level,
            #[trigger] walk.queue@[i],
        )
    &&& forall|i: int, j: int|
        0 <= i <= j < walk.queue@.len() ==> (#[trigger] walk.queue@[i]).path@.len() <= (
        #[trigger] walk.queue@[j]).path@.len()
    &&& forall|from: NodeId, to: NodeId|
        depths.contains_key(from) && depths[from] < config.max_depth && current != Some(from)
            && !waits(walk.queue@, from) && #[trigger] steps(from, to) ==> depths.contains_key(to)
            && depths[to] <= depths[from] + 1
    &&& forall|id: NodeId| #[trigger]
        walk.best_depth@.contains_key(id) && config.min_depth <= walk.best_depth@[id] ==> reports(
            walk.results@,
            id,
        )
}

/// Whether a state in the queue holds a walk to its node, at or after `level`.
spec fn waiting_state<T: VectorType>(
    table: Table<T>,
    config: ReachabilityConfig,
    source: NodeId,
    depths: Map<NodeId, nat>,
    level: nat,
    state: PathState,
) -> bool {
    &&& depths.contains_key(state.node)
    &&& state.path@.len() == depths[state.node] + 1
    &&& connects(reach_steps(table, config), state.path@, source, state.node)
    &&& follows(table, config, state.path@, views(state.steps@))
    &&& level <= depths[state.node]
}

/// Whether `peak` is the greatest recorded depth.
spec fn depth_peak(depths: Map<NodeId, nat>, peak: nat) -> bool {
    &&& forall|id: NodeId| #[trigger] depths.contains_key(id) ==> depths[id] <= peak
    &&& exists|id: NodeId| #[trigger] depths.contains_key(id) && depths[id] == peak
}

/// The nodes that wait in a queue.
spec fn queue_nodes(queue: Seq<PathState>) -> Seq<NodeId> {
    Seq::new(queue.len(), |i: int| queue[i].node)
}

/// Whether `added` are the nodes that were found and put at the end of the queue.
spec fn enqueues(before: Traversal, after: Traversal, added: Seq<NodeId>) -> bool {
    &&& queue_nodes(after.queue@) == queue_nodes(before.queue@) + added
    &&& added.no_duplicates()
    &&& forall|id: NodeId| #[trigger]
        after.best_depth@.contains_key(id) <==> before.best_depth@.contains_key(id)
            || added.contains(id)
    &&& forall|i: int| 0 <= i < added.len() ==> !before.best_depth@.contains_key(#[trigger] added[i])
}

/// Whether the frontier figure is within its bounds.
spec fn frontier_fits(config: ReachabilityConfig, walk: Traversal) -> bool {
    &&& 1 <= walk.peak_frontier_size
    &&& walk.queue@.len() <= walk.peak_frontier_size
    &&& walk.peak_frontier_size <= config.max_frontier_size || walk.peak_frontier_size == 1
    &&& walk.peak_frontier_size <= walk.best_depth@.dom().len()
}

/// The number of steps out of expanded nodes.
pub open spec fn step_count(visits: Seq<(NodeId, Seq<StepView>)>) -> nat
    decreases visits.len(),
{
    if visits.len() == 0 {
        0
    } else {
        step_count(visits.drop_last()) + visits.last().1.len()
    }
}

/// Whether a node was expanded.
pub open spec fn is_visited(visits: Seq<(NodeId, Seq<StepView>)>, id: NodeId) -> bool {
    exists|i: int| 0 <= i < visits.len() && (#[trigger] visits[i]).0 == id
}

/// Whether each node was expanded once, along all of its steps.
pub open spec fn are_expansions<T: VectorType>(
    table: Table<T>,
    config: ReachabilityConfig,
    visits: Seq<(NodeId, Seq<StepView>)>,
) -> bool {
    &&& forall|i: int|
        0 <= i < visits.len() ==> is_step_list(
            table,
            config,
            (#[trigger] visits[i]).0,
            visits[i].1,
        )
    &&& forall|i: int, j: int|
        0 <= i < j < visits.len() ==> (#[trigger] visits[i]).0 != (#[trigger] visits[j]).0
}

/// Whether these are the expansions of a complete traversal: of the nodes that are nearer than the
/// depth bound.
pub open spec fn are_visits<T: VectorType>(
    table: Table<T>,
    config: ReachabilityConfig,
    source: NodeId,
    visits: Seq<(NodeId, Seq<StepView>)>,
) -> bool {
    &&& are_expansions(table, config, visits)
    &&& forall|id: NodeId| #[trigger]
        is_visited(visits, id) <==> exists|depth: nat| #[trigger]
            is_distance(reach_steps(table, config), source, id, depth) && depth < config.max_depth
}

/// One more expansion.
proof fn lemma_visit<T: VectorType>(
    table: Table<T>,
    config: ReachabilityConfig,
    visits: Seq<(NodeId, Seq<StepView>)>,
    id: NodeId,
    list: Seq<StepView>,
)
    requires
        are_expansions(table, config, visits),
        !is_visited(visits, id),
        is_step_list(table, config, id, list),
    ensures
        are_expansions(table, config, visits.push((id, list))),
        step_count(visits.push((id, list))) == step_count(visits) + list.len(),
        forall|other: NodeId| #[trigger]
            is_visited(visits.push((id, list)), other) <==> is_visited(visits, other) || other == id,
{
    let more = visits.push((id, list));
    assert(more.drop_last() =~= visits);
    assert forall|i: int, j: int| 0 <= i < j < more.len() implies (#[trigger] more[i]).0 != (
    #[trigger] more[j]).0 by {
        assert(more[i] == visits[i]);
        if j < visits.len() {
            assert(more[j] == visits[j]);
        } else if visits[i].0 == id {
            assert(is_visited(visits, id));
        }
    }
    assert forall|i: int| 0 <= i < more.len() implies is_step_list(
        table,
        config,
        (#[trigger] more[i]).0,
        more[i].1,
    ) by {
        if i < visits.len() {
            assert(more[i] == visits[i]);
        }
    }
    assert forall|other: NodeId| #[trigger] is_visited(more, other) <==> is_visited(visits, other)
        || other == id by {
        if is_visited(visits, other) {
            let i = choose|i: int| 0 <= i < visits.len() && (#[trigger] visits[i]).0 == other;
            assert(more[i].0 == other);
        }
        assert(more[visits.len() as int].0 == id);
        if is_visited(more, other) && other != id {
            let i = choose|i: int| 0 <= i < more.len() && (#[trigger] more[i]).0 == other;
            assert(visits[i].0 == other);
        }
    }
}

/// The way that a state holds.
spec fn way_of(state: PathState) -> Way {
    Way { path: state.path@, steps: views(state.steps@) }
}

/// Whether a traversal is where `course` says.
spec fn mirrors(
    config: ReachabilityConfig,
    source: NodeId,
    walk: Traversal,
    course: Course,
) -> bool {
    &&& walk.best_depth@.dom().len() == course.ways.len()
    &&& forall|id: NodeId| #[trigger]
        walk.best_depth@.contains_key(id) <==> is_known(course.ways, id)
    &&& walk.traversed_edges == course.edges
    &&& walk.peak_frontier_size == course.peak
    &&& walk.depth_reached == depth_of(course.ways)
    &&& views(walk.results@) == course.results(config, source)
    &&& walk.truncated == (course.stop is Some)
    &&& course.stop is None ==> {
        &&& walk.queue@.len() == course.waiting
        &&& course.waiting <= course.ways.len()
        &&& forall|i: int|
            0 <= i < walk.queue@.len() ==> way_of(#[trigger] walk.queue@[i])
                == course.ways[course.ways.len() - course.waiting + i]
    }
}

/// Whether a step or an expansion ends as the course says: with an error only where a bound of
/// the budget is reached under the `Error` policy.
spec fn ends_as(
    config: ReachabilityConfig,
    source: NodeId,
    walk: Traversal,
    course: Course,
    result: Result<()>,
) -> bool {
    match result {
        Ok(()) => {
            &&& mirrors(config, source, walk, course)
            &&& course.stop matches Some(Stop::Budget(_)) ==> config.exhaustion_policy
                == BudgetExhaustionPolicy::Partial
        },
        Err(error) => {
            &&& course.is_refusal(error)
            &&& config.exhaustion_policy == BudgetExhaustionPolicy::Error
        },
    }
}

/// Copies of a list of steps.
fn duplicate_steps(steps: &Vec<ReachabilityStep>) -> (result: Vec<ReachabilityStep>)
    ensures
        result@ == steps@,
{
    let mut result: Vec<ReachabilityStep> = Vec::new();
    let mut i: usize = 0;
    while i < steps.len()
        invariant
            i <= steps@.len(),
            result@ == steps@.subrange(0, i as int),
        decreases steps@.len() - i,
    {
        result.push(steps[i].duplicate());
        proof {
            assert(steps@.subrange(0, i + 1) =~= steps@.subrange(0, i as int).push(
                steps@[i as int],
            ));
        }
        i += 1;
    }
    assert(steps@.subrange(0, i as int) =~= steps@);
    result
}

/// Records `step` out of the node at the end of `state`, if it leads to a new node. Afterwards
/// either the traversal is truncated, or the node that the step leads to is known.
#[verifier::spinoff_prover]
#[verifier::rlimit(40)]
fn take_step<T: VectorType>(
    db: &MemTable<T>,
    source_id: NodeId,
    config: &ReachabilityConfig,
    budget: &TraversalBudget,
    state: &PathState,
    step: &ReachabilityStep,
    walk: &mut Traversal,
    Ghost(course): Ghost<Course>,
) -> (result: Result<()>)
    requires
        mirrors(*config, source_id, *old(walk), course),
        db@.well_formed(),
        valid_config(*config),
        *budget == query_budget(*config),
        !old(walk).truncated,
        sound(db@, *config, source_id, *old(walk)),
        waiting_state(
            db@,
            *config,
            source_id,
            known_depths(old(walk).best_depth@),
            0,
            *state,
        ),
        known_depths(old(walk).best_depth@)[state.node] < config.max_depth,
        is_step(db@, *config, step@),
        step.from == state.node,
        frontier_fits(*config, *old(walk)),
        old(walk).queue@.len() < old(walk).best_depth@.dom().len(),
        advancing(
            db@,
            *config,
            source_id,
            *old(walk),
            known_depths(old(walk).best_depth@)[state.node],
            Some(state.node),
        ),
    ensures
        ends_as(
            *config,
            source_id,
            *final(walk),
            course.after_step(*config, source_id, way_of(*state), step@),
            result,
        ),
        result is Ok ==> frontier_fits(*config, *final(walk)),
        result is Ok ==> sound(db@, *config, source_id, *final(walk)),
        result is Ok && !final(walk).truncated ==> {
            &&& advancing(
                db@,
                *config,
                source_id,
                *final(walk),
                known_depths(old(walk).best_depth@)[state.node],
                Some(state.node),
            )
            &&& known_depths(final(walk).best_depth@).contains_key(step.to)
            &&& known_depths(final(walk).best_depth@)[step.to] <= known_depths(
                old(walk).best_depth@,
            )[state.node] + 1
            &&& forall|id: NodeId| #[trigger]
                known_depths(old(walk).best_depth@).contains_key(id) ==> known_depths(
                    final(walk).best_depth@,
                ).contains_key(id) && known_depths(final(walk).best_depth@)[id] == known_depths(
                    old(walk).best_depth@,
                )[id]
            &&& final(walk).traversed_edges == old(walk).traversed_edges + 1
            &&& enqueues(
                *old(walk),
                *final(walk),
                if old(walk).best_depth@.contains_key(step.to) {
                    Seq::empty()
                } else {
                    seq![step.to]
                },
            )
            &&& final(walk).best_depth@.dom().len() - final(walk).queue@.len() == old(
                walk,
            ).best_depth@.dom().len() - old(walk).queue@.len()
            &&& final(walk).best_depth@.dom().len() >= old(walk).best_depth@.dom().len()
        },
        result is Ok && final(walk).truncated ==> config.exhaustion_policy
            == BudgetExhaustionPolicy::Partial || final(walk).results@.len() == config.max_results,
        result is Err || final(walk).truncated ==> old(walk).traversed_edges >= config.max_edges || (
        !old(walk).best_depth@.contains_key(step.to) && (old(walk).best_depth@.dom().len()
            >= config.max_visited_nodes || old(walk).results@.len() >= config.max_results || old(
            walk,
        ).queue@.len() >= config.max_frontier_size)),
{
    let ghost steps = reach_steps(db@, *config);
    let ghost first = *walk;
    let ghost depths = known_depths(walk.best_depth@);
    let ghost level = depths[state.node];
    let ghost after = course.after_step(*config, source_id, way_of(*state), step@);
    let depth: usize = state.path.len() - 1;
    if walk.traversed_edges >= config.max_edges {
        let metrics = TraversalMetrics {
            visited_nodes: walk.best_depth.len(),
            examined_edges: walk.traversed_edges,
            peak_frontier_size: walk.peak_frontier_size,
            depth_reached: walk.depth_reached,
        };
        return match exhausted(budget, BudgetDimension::ExaminedEdges, metrics) {
            Ok(_) => {
                walk.truncated = true;
                Ok(())
            },
            Err(error) => {
                assert(after.is_measured(metrics));
                assert(is_budget_exceeded(error, BudgetDimension::ExaminedEdges, metrics));
                Err(error)
            },
        };
    }
    walk.traversed_edges = walk.traversed_edges + 1;
    let next_depth: usize = depth + 1;
    let known = match walk.best_depth.get(&step.to) {
        Some(recorded) => *recorded <= next_depth,
        None => false,
    };
    proof {
        if walk.best_depth@.contains_key(step.to) {
            assert(depths.contains_key(step.to));
            assert(depths[step.to] <= level + 1);
        }
    }
    if known {
        assert(queue_nodes(walk.queue@) =~= queue_nodes(first.queue@) + Seq::<NodeId>::empty());
        return Ok(());
    }
    if walk.best_depth.len() >= config.max_visited_nodes {
        let metrics = TraversalMetrics {
            visited_nodes: walk.best_depth.len(),
            examined_edges: walk.traversed_edges,
            peak_frontier_size: walk.peak_frontier_size,
            depth_reached: walk.depth_reached,
        };
        return match exhausted(budget, BudgetDimension::VisitedNodes, metrics) {
            Ok(_) => {
                walk.truncated = true;
                Ok(())
            },
            Err(error) => {
                assert(after.is_measured(metrics));
                assert(is_budget_exceeded(error, BudgetDimension::VisitedNodes, metrics));
                Err(error)
            },
        };
    }
    walk.best_depth.insert(step.to, next_depth);
    if walk.depth_reached < next_depth {
        walk.depth_reached = next_depth;
    }
    let mut path: Vec<NodeId> = copy_slice(state.path.as_slice());
    path.push(step.to);
    let mut taken: Vec<ReachabilityStep> = duplicate_steps(&state.steps);
    taken.push(step.duplicate());
    let ghost now = known_depths(walk.best_depth@);
    proof {
        assert(now =~= depths.insert(step.to, next_depth as nat));
        assert(can_step(db@, *config, state.node, step.to)) by {
            assert(is_step(db@, *config, step@));
        }
        lemma_walk_push(steps, state.path@, step.to);
        assert(views(taken@) =~= views(state.steps@).push(step@));
        lemma_way_found(*config, source_id, course.ways, way_of(*state).then_step(step@));
        assert(way_of(*state).then_step(step@).node() == step.to);
        assert(!is_known(course.ways, step.to));
        assert(follows(db@, *config, path@, views(taken@))) by {
            assert forall|i: int| 0 <= i < views(taken@).len() implies is_step(
                db@,
                *config,
                #[trigger] views(taken@)[i],
            ) && views(taken@)[i].from == path@[i] && views(taken@)[i].to == path@[i + 1] by {
                if i < state.steps@.len() {
                    assert(views(taken@)[i] == views(state.steps@)[i]);
                }
            }
        }
        law_walk_bounds_distance(steps, path@);
        lemma_new_depth(db@, *config, source_id, first, level, state.node, step.to);
        lemma_step_in_table(db@, *config, step@);
        assert(walk.best_depth@.dom() =~= first.best_depth@.dom().insert(step.to));
        assert(walk.best_depth@.dom().subset_of(db@.nodes.dom()));
        assert forall|id: NodeId| #[trigger] now.contains_key(id) implies now[id]
            <= config.max_depth && now[id] <= level + 1 && is_distance(
            steps,
            source_id,
            id,
            now[id],
        ) by {
            if id != step.to {
                assert(depths.contains_key(id));
            }
        }
        assert(now.contains_key(step.to));
        assert(depth_peak(now, walk.depth_reached as nat)) by {
            let top = choose|id: NodeId| #[trigger]
                depths.contains_key(id) && depths[id] == first.depth_reached;
            assert(now.contains_key(top));
            assert forall|id: NodeId| #[trigger] now.contains_key(id) implies now[id]
                <= walk.depth_reached by {
                if id != step.to {
                    assert(depths.contains_key(id));
                }
            }
        }
        assert(sound(db@, *config, source_id, *walk));
    }
    if next_depth >= config.min_depth {
        if walk.results.len() >= config.max_results {
            walk.truncated = true;
            proof {
                assert(after.ways.drop_last() =~= course.ways);
                assert(mirrors(*config, source_id, *walk, after));
            }
            return Ok(());
        }
        let ghost held = walk.results@;
        let found = ReachabilityResult {
            source_id,
            target_id: step.to,
            depth: next_depth,
            path: copy_slice(path.as_slice()),
            steps: duplicate_steps(&taken),
        };
        walk.results.push(found);
        proof {
            assert(is_result(db@, *config, source_id, found@));
            assert(views(walk.results@) =~= views(held).push(found@));
            assert(found@.path =~= way_of(*state).then_step(step@).path);
            assert(found@.steps =~= way_of(*state).then_step(step@).steps);
            assert forall|i: int| 0 <= i < walk.results@.len() implies is_result(
                db@,
                *config,
                source_id,
                (#[trigger] walk.results@[i])@,
            ) && now.contains_key(walk.results@[i].target_id) by {
                if i < held.len() {
                    assert(walk.results@[i] == held[i]);
                    assert(depths.contains_key(held[i].target_id));
                }
            }
            assert forall|i: int, j: int| 0 <= i < j < walk.results@.len() implies (
            #[trigger] walk.results@[i]).target_id != (#[trigger] walk.results@[j]).target_id by {
                assert(walk.results@[i] == held[i]);
                assert(depths.contains_key(held[i].target_id));
                if j < held.len() {
                    assert(walk.results@[j] == held[j]);
                }
            }
            assert(sound(db@, *config, source_id, *walk));
            assert(walk.results@[held.len() as int].target_id == step.to);
            assert(reports(walk.results@, step.to));
            assert forall|id: NodeId| reports(held, id) implies #[trigger] reports(
                walk.results@,
                id,
            ) by {
                let i = choose|i: int| 0 <= i < held.len() && (#[trigger] held[i]).target_id == id;
                assert(walk.results@[i].target_id == id);
            }
        }
    }
    if walk.queue.len() >= config.max_frontier_size {
        let metrics = TraversalMetrics {
            visited_nodes: walk.best_depth.len(),
            examined_edges: walk.traversed_edges,
            peak_frontier_size: if walk.peak_frontier_size < walk.queue.len() {
                walk.queue.len()
            } else {
                walk.peak_frontier_size
            },
            depth_reached: walk.depth_reached,
        };
        return match exhausted(budget, BudgetDimension::FrontierSize, metrics) {
            Ok(_) => {
                walk.truncated = true;
                Ok(())
            },
            Err(error) => {
                assert(after.is_measured(metrics));
                assert(is_budget_exceeded(error, BudgetDimension::FrontierSize, metrics));
                Err(error)
            },
        };
    }
    let next = PathState { node: step.to, path, steps: taken };
    walk.queue.push_back(next);
    if walk.peak_frontier_size < walk.queue.len() {
        walk.peak_frontier_size = walk.queue.len();
    }
    proof {
        assert(walk.queue@ == first.queue@.push(next));
        assert(way_of(next) == way_of(*state).then_step(step@));
        assert(mirrors(*config, source_id, *walk, after)) by {
            assert forall|i: int| 0 <= i < walk.queue@.len() implies way_of(
                #[trigger] walk.queue@[i],
            ) == after.ways[after.ways.len() - after.waiting + i] by {
                if i < first.queue@.len() {
                    assert(walk.queue@[i] == first.queue@[i]);
                }
            }
        }
        assert(queue_nodes(walk.queue@) =~= queue_nodes(first.queue@) + seq![step.to]);
        assert(seq![step.to].contains(seq![step.to][0]));
        assert(!first.best_depth@.contains_key(step.to));
        assert forall|id: NodeId| waits(first.queue@, id) implies #[trigger] waits(
            walk.queue@,
            id,
        ) by {
            let i = choose|i: int|
                0 <= i < first.queue@.len() && (#[trigger] first.queue@[i]).node == id;
            assert(walk.queue@[i].node == id);
        }
        assert(walk.queue@[first.queue@.len() as int].node == step.to);
        assert(waits(walk.queue@, step.to));
        assert forall|i: int| 0 <= i < walk.queue@.len() implies waiting_state(
            db@,
            *config,
            source_id,
            now,
            level,
            #[trigger] walk.queue@[i],
        ) by {
            if i < first.queue@.len() {
                assert(walk.queue@[i] == first.queue@[i]);
                assert(waiting_state(db@, *config, source_id, depths, level, first.queue@[i]));
            }
        }
        assert forall|i: int, j: int| 0 <= i <= j < walk.queue@.len() implies (
        #[trigger] walk.queue@[i]).path@.len() <= (#[trigger] walk.queue@[j]).path@.len() by {
            if i < first.queue@.len() {
                assert(waiting_state(db@, *config, source_id, depths, level, first.queue@[i]));
                assert(walk.queue@[i] == first.queue@[i]);
                if j < first.queue@.len() {
                    assert(walk.queue@[j] == first.queue@[j]);
                }
            }
        }
        assert forall|from: NodeId, to: NodeId|
            now.contains_key(from) && now[from] < config.max_depth && Some(state.node) != Some(from)
                && !waits(walk.queue@, from) && #[trigger] steps(from, to) implies now.contains_key(
            to,
        ) && now[to] <= now[from] + 1 by {
            assert(from != step.to);
            assert(depths.contains_key(from));
            assert(depths.contains_key(to));
        }
        assert forall|id: NodeId| #[trigger]
            walk.best_depth@.contains_key(id) && config.min_depth
                <= walk.best_depth@[id] implies reports(walk.results@, id) by {
            if id != step.to {
                assert(first.best_depth@.contains_key(id));
                assert(reports(first.results@, id));
            }
        }
    }
    Ok(())
}

/// The ends of every step are nodes of the table.
proof fn lemma_step_in_table<T: VectorType>(
    table: Table<T>,
    config: ReachabilityConfig,
    step: StepView,
)
    requires
        table.well_formed(),
        is_step(table, config, step),
    ensures
        table.nodes.contains_key(step.from),
        table.nodes.contains_key(step.to),
{
    let edges = table.edges_of(step.edge_source);
    let m = choose|m: int| 0 <= m < edges.len() && edges[m] == step_edge(step);
    assert(table.nodes.contains_key(step.edge_source));
    assert(table.nodes.contains_key(table.nodes[step.edge_source].edges[m].target));
}

/// A node that is found first from a node at `level` is one step further away.
proof fn lemma_new_depth<T: VectorType>(
    table: Table<T>,
    config: ReachabilityConfig,
    source: NodeId,
    walk: Traversal,
    level: nat,
    current: NodeId,
    found: NodeId,
)
    requires
        sound(table, config, source, walk),
        advancing(table, config, source, walk, level, Some(current)),
        level < config.max_depth,
        known_depths(walk.best_depth@).contains_key(current),
        known_depths(walk.best_depth@)[current] == level,
        !walk.best_depth@.contains_key(found),
        reach_steps(table, config)(current, found),
    ensures
        is_distance(reach_steps(table, config), source, found, level + 1),
{
    let steps = reach_steps(table, config);
    let depths = known_depths(walk.best_depth@);
    lemma_within_step(steps, source, current, found, level);
    assert(closed_below(steps, depths, level)) by {
        assert forall|from: NodeId, to: NodeId|
            depths.contains_key(from) && depths[from] < level && #[trigger] steps(
                from,
                to,
            ) implies depths.contains_key(to) && depths[to] <= depths[from] + 1 by {
            assert(!waits(walk.queue@, from)) by {
                if waits(walk.queue@, from) {
                    let i = choose|i: int|
                        0 <= i < walk.queue@.len() && (#[trigger] walk.queue@[i]).node == from;
                    assert(waiting_state(table, config, source, depths, level, walk.queue@[i]));
                }
            }
        }
    }
    assert forall|fewer: nat| fewer < level + 1 implies !#[trigger] within(
        steps,
        source,
        found,
        fewer,
    ) by {
        if within(steps, source, found, fewer) {
            lemma_closed_below(steps, source, depths, level, found, fewer);
        }
    }
}

/// Takes every step out of the node at the end of `state`, until the traversal is truncated.
#[verifier::spinoff_prover]
#[verifier::rlimit(30)]
fn expand_state<T: VectorType>(
    db: &MemTable<T>,
    source_id: NodeId,
    config: &ReachabilityConfig,
    budget: &TraversalBudget,
    state: &PathState,
    walk: &mut Traversal,
    Ghost(course): Ghost<Course>,
) -> (result: Result<()>)
    requires
        db.inv(),
        mirrors(*config, source_id, *old(walk), course),
        valid_config(*config),
        *budget == query_budget(*config),
        !old(walk).truncated,
        sound(db@, *config, source_id, *old(walk)),
        waiting_state(
            db@,
            *config,
            source_id,
            known_depths(old(walk).best_depth@),
            0,
            *state,
        ),
        known_depths(old(walk).best_depth@)[state.node] < config.max_depth,
        advancing(
            db@,
            *config,
            source_id,
            *old(walk),
            known_depths(old(walk).best_depth@)[state.node],
            Some(state.node),
        ),
        old(walk).queue@.len() < old(walk).best_depth@.dom().len(),
        frontier_fits(*config, *old(walk)),
    ensures
        exists|list: Seq<StepView>| #[trigger]
            is_step_list(db@, *config, state.node, list) && ends_as(
                *config,
                source_id,
                *final(walk),
                course.after_steps(*config, source_id, way_of(*state), list, list.len()),
                result,
            ) && (result is Ok && !final(walk).truncated ==> final(walk).traversed_edges == old(
                walk,
            ).traversed_edges + list.len()),
        result is Ok ==> frontier_fits(*config, *final(walk)),
        result is Ok && !final(walk).truncated ==> exists|added: Seq<NodeId>| #[trigger]
            enqueues(*old(walk), *final(walk), added),
        result is Ok && !final(walk).truncated ==> forall|id: NodeId| #[trigger]
            old(walk).best_depth@.contains_key(id) ==> final(walk).best_depth@[id] == old(
                walk,
            ).best_depth@[id],
        result is Ok ==> sound(db@, *config, source_id, *final(walk)),
        result is Ok && !final(walk).truncated ==> {
            &&& advancing(
                db@,
                *config,
                source_id,
                *final(walk),
                known_depths(old(walk).best_depth@)[state.node],
                None,
            )
            &&& final(walk).best_depth@.dom().len() - final(walk).queue@.len() == old(
                walk,
            ).best_depth@.dom().len() - old(walk).queue@.len()
            &&& final(walk).best_depth@.dom().len() >= old(walk).best_depth@.dom().len()
            &&& forall|bound: nat| #[trigger]
                steps_bounded(db@, *config, bound) ==> final(walk).traversed_edges <= old(
                    walk,
                ).traversed_edges + bound
        },
        result is Ok && final(walk).truncated ==> config.exhaustion_policy
            == BudgetExhaustionPolicy::Partial || final(walk).results@.len() == config.max_results,
        result is Err || final(walk).truncated ==> forall|bound: nat| #[trigger]
            steps_bounded(db@, *config, bound) ==> {
                ||| old(walk).traversed_edges + bound > config.max_edges
                ||| config.max_visited_nodes < db@.nodes.dom().len()
                ||| config.max_results < db@.nodes.dom().len()
                ||| config.max_frontier_size < db@.nodes.dom().len()
            },
{
    proof {
        db.lemma_inv();
    }
    let ghost start = *walk;
    let ghost level = known_depths(walk.best_depth@)[state.node];
    let ghost steps = reach_steps(db@, *config);
    let listed = collect_steps(db, state.node, config);
    let ghost mut added: Seq<NodeId> = Seq::empty();
    assert(queue_nodes(walk.queue@) =~= queue_nodes(start.queue@) + added);
    let mut i: usize = 0;
    while i < listed.len()
        invariant
            i <= listed@.len(),
            mirrors(
                *config,
                source_id,
                *walk,
                course.after_steps(
                    *config,
                    source_id,
                    way_of(*state),
                    views(listed@),
                    i as nat,
                ),
            ),
            frontier_fits(*config, *walk),
            enqueues(start, *walk, added),
            forall|id: NodeId| #[trigger]
                start.best_depth@.contains_key(id) ==> walk.best_depth@[id]
                    == start.best_depth@[id],
            db@.well_formed(),
            valid_config(*config),
            *budget == query_budget(*config),
            is_step_list(db@, *config, state.node, views(listed@)),
            start == *old(walk),
            level == known_depths(start.best_depth@)[state.node],
            level < config.max_depth,
            start.queue@.len() < start.best_depth@.dom().len(),
            !walk.truncated,
            sound(db@, *config, source_id, *walk),
            waiting_state(
                db@,
                *config,
                source_id,
                known_depths(walk.best_depth@),
                0,
                *state,
            ),
            known_depths(walk.best_depth@)[state.node] == level,
            advancing(db@, *config, source_id, *walk, level, Some(state.node)),
            walk.best_depth@.dom().len() - walk.queue@.len() == start.best_depth@.dom().len()
                - start.queue@.len(),
            walk.best_depth@.dom().len() >= start.best_depth@.dom().len(),
            walk.traversed_edges == start.traversed_edges + i,
            forall|j: int|
                0 <= j < i ==> known_depths(walk.best_depth@).contains_key(
                    (#[trigger] listed@[j]).to,
                ) && known_depths(walk.best_depth@)[listed@[j].to] <= level + 1,
        decreases listed@.len() - i,
    {
        let ghost before = *walk;
        proof {
            assert(views(listed@)[i as int] == listed@[i as int]@);
            assert(views(listed@).contains(listed@[i as int]@));
        }
        let ghost reached = course.after_steps(
            *config,
            source_id,
            way_of(*state),
            views(listed@),
            i as nat,
        );
        let taken = take_step(
            db,
            source_id,
            config,
            budget,
            state,
            &listed[i],
            walk,
            Ghost(reached),
        );
        proof {
            if taken is Err || walk.truncated {
                lemma_stopped(
                    course,
                    *config,
                    source_id,
                    way_of(*state),
                    views(listed@),
                    (i + 1) as nat,
                    listed@.len() as nat,
                );
            }
            if taken is Err || walk.truncated {
                lemma_step_in_table(db@, *config, listed@[i as int]@);
                lemma_out_of_budget(
                    db@,
                    *config,
                    source_id,
                    start,
                    before,
                    state.node,
                    views(listed@),
                    i as nat,
                );
            }
        }
        match taken {
            Ok(()) => {},
            Err(error) => {
                return Err(error);
            },
        }
        if walk.truncated {
            return Ok(());
        }
        proof {
            assert forall|j: int| 0 <= j < i + 1 implies known_depths(
                walk.best_depth@,
            ).contains_key((#[trigger] listed@[j]).to) && known_depths(
                walk.best_depth@,
            )[listed@[j].to] <= level + 1 by {
                if j < i {
                    assert(known_depths(before.best_depth@).contains_key(listed@[j].to));
                }
            }
            assert(known_depths(before.best_depth@).contains_key(state.node));
            assert forall|id: NodeId| #[trigger]
                start.best_depth@.contains_key(id) implies walk.best_depth@[id]
                == start.best_depth@[id] by {
                assert(known_depths(before.best_depth@).contains_key(id));
            }
            let step_to = listed@[i as int].to;
            let new: Seq<NodeId> = if before.best_depth@.contains_key(step_to) {
                Seq::empty()
            } else {
                seq![step_to]
            };
            lemma_enqueues(start, before, *walk, added, new);
            added = added + new;
        }
        i += 1;
    }
    proof {
        let depths = known_depths(walk.best_depth@);
        assert forall|from: NodeId, to: NodeId|
            depths.contains_key(from) && depths[from] < config.max_depth && None::<NodeId> != Some(
                from,
            ) && !waits(walk.queue@, from) && #[trigger] steps(from, to) implies
            depths.contains_key(to) && depths[to] <= depths[from] + 1 by {
            if from == state.node {
                let step = choose|step: StepView| #[trigger]
                    is_step(db@, *config, step) && step.from == from && step.to == to;
                assert(views(listed@).contains(step));
                let j = choose|j: int| 0 <= j < views(listed@).len() && views(listed@)[j] == step;
                assert(listed@[j].to == to);
            }
        }
        assert(is_step_list(db@, *config, state.node, views(listed@)));
        assert(views(listed@).len() == listed@.len());
    }
    Ok(())
}

/// Nodes that are added after others.
proof fn lemma_enqueues(
    start: Traversal,
    before: Traversal,
    after: Traversal,
    added: Seq<NodeId>,
    new: Seq<NodeId>,
)
    requires
        enqueues(start, before, added),
        enqueues(before, after, new),
    ensures
        enqueues(start, after, added + new),
{
    let all = added + new;
    assert(queue_nodes(after.queue@) =~= queue_nodes(start.queue@) + all);
    assert forall|id: NodeId| all.contains(id) <==> added.contains(id) || new.contains(id) by {
        if added.contains(id) {
            let i = choose|i: int| 0 <= i < added.len() && added[i] == id;
            assert(all[i] == id);
        }
        if new.contains(id) {
            let i = choose|i: int| 0 <= i < new.len() && new[i] == id;
            assert(all[added.len() + i] == id);
        }
        if all.contains(id) {
            let i = choose|i: int| 0 <= i < all.len() && all[i] == id;
            if i < added.len() {
                assert(added[i] == id);
            } else {
                assert(new[i - added.len()] == id);
            }
        }
    }
    assert forall|id: NodeId| #[trigger] after.best_depth@.contains_key(id)
        <==> start.best_depth@.contains_key(id) || all.contains(id) by {
        assert(before.best_depth@.contains_key(id) <==> start.best_depth@.contains_key(id)
            || added.contains(id));
    }
    assert forall|i: int| 0 <= i < all.len() implies !start.best_depth@.contains_key(
        #[trigger] all[i],
    ) by {
        if i < added.len() {
            assert(all[i] == added[i]);
        } else {
            assert(all[i] == new[i - added.len()]);
            assert(!before.best_depth@.contains_key(new[i - added.len()]));
        }
    }
    assert(all.no_duplicates()) by {
        assert forall|i: int, j: int|
            0 <= i < all.len() && 0 <= j < all.len() && i != j implies all[i] != all[j] by {
            if i < added.len() && j < added.len() {
                assert(added[i] != added[j]);
            } else if i < added.len() {
                assert(added.contains(added[i]));
                assert(before.best_depth@.contains_key(added[i]));
                assert(!before.best_depth@.contains_key(new[j - added.len()]));
            } else if j < added.len() {
                assert(added.contains(added[j]));
                assert(before.best_depth@.contains_key(added[j]));
                assert(!before.best_depth@.contains_key(new[i - added.len()]));
            } else {
                assert(new[i - added.len()] != new[j - added.len()]);
            }
        }
    }
}

/// When a step cannot be taken, one of the bounds does not cover the table.
proof fn lemma_out_of_budget<T: VectorType>(
    table: Table<T>,
    config: ReachabilityConfig,
    source: NodeId,
    start: Traversal,
    walk: Traversal,
    current: NodeId,
    listed: Seq<StepView>,
    taken: nat,
)
    requires
        table.well_formed(),
        sound(table, config, source, walk),
        is_step_list(table, config, current, listed),
        taken < listed.len(),
        table.nodes.contains_key(listed[taken as int].to),
        walk.traversed_edges == start.traversed_edges + taken,
        walk.queue@.len() < walk.best_depth@.dom().len(),
        walk.traversed_edges >= config.max_edges || (!walk.best_depth@.contains_key(
            listed[taken as int].to,
        ) && (walk.best_depth@.dom().len() >= config.max_visited_nodes || walk.results@.len()
            >= config.max_results || walk.queue@.len() >= config.max_frontier_size)),
    ensures
        forall|bound: nat| #[trigger]
            steps_bounded(table, config, bound) ==> {
                ||| start.traversed_edges + bound > config.max_edges
                ||| config.max_visited_nodes < table.nodes.dom().len()
                ||| config.max_results < table.nodes.dom().len()
                ||| config.max_frontier_size < table.nodes.dom().len()
            },
{
    assert forall|bound: nat| #[trigger] steps_bounded(table, config, bound) implies ({
        ||| start.traversed_edges + bound > config.max_edges
        ||| config.max_visited_nodes < table.nodes.dom().len()
        ||| config.max_results < table.nodes.dom().len()
        ||| config.max_frontier_size < table.nodes.dom().len()
    }) by {
        assert(is_step_list(table, config, current, listed));
        if walk.traversed_edges < config.max_edges {
            let known = walk.best_depth@.dom();
            let found = listed[taken as int].to;
            assert(known.insert(found).subset_of(table.nodes.dom()));
            vstd::set_lib::lemma_len_subset(known.insert(found), table.nodes.dom());
            lemma_results_known(walk, known);
        }
    }
}

/// There are no more results than recorded nodes.
proof fn lemma_results_known(walk: Traversal, known: Set<NodeId>)
    requires
        known == walk.best_depth@.dom(),
        known.finite(),
        forall|i: int|
            0 <= i < walk.results@.len() ==> known_depths(walk.best_depth@).contains_key(
                (#[trigger] walk.results@[i]).target_id,
            ),
        forall|i: int, j: int|
            0 <= i < j < walk.results@.len() ==> (#[trigger] walk.results@[i]).target_id != (
            #[trigger] walk.results@[j]).target_id,
    ensures
        walk.results@.len() <= known.len(),
{
    let targets = walk.results@.map_values(|result: ReachabilityResult| result.target_id);
    assert(targets.no_duplicates()) by {
        assert forall|i: int, j: int|
            0 <= i < targets.len() && 0 <= j < targets.len() && i != j implies targets[i]
            != targets[j] by {
            if i < j {
                assert(walk.results@[i].target_id != walk.results@[j].target_id);
            } else {
                assert(walk.results@[j].target_id != walk.results@[i].target_id);
            }
        }
    }
    targets.unique_seq_to_set();
    assert(targets.to_set().subset_of(known)) by {
        assert forall|id: NodeId| targets.to_set().contains(id) implies known.contains(id) by {
            let i = choose|i: int| 0 <= i < targets.len() && targets[i] == id;
            assert(known_depths(walk.best_depth@).contains_key(walk.results@[i].target_id));
        }
    }
    vstd::set_lib::lemma_len_subset(targets.to_set(), known);
}

/// Whether `reached` is the set of nodes within the depth bound.
pub open spec fn is_reach<T: VectorType>(
    table: Table<T>,
    config: ReachabilityConfig,
    source: NodeId,
    reached: Set<NodeId>,
) -> bool {
    reached.finite() && forall|id: NodeId| #[trigger]
        reached.contains(id) <==> within(
            reach_steps(table, config),
            source,
            id,
            config.max_depth as nat,
        )
}

/// The nodes whose distance from the source is in the range that is asked for, each with a
/// shortest path, ordered by depth and identifier.
///
/// Without truncation the result is complete, and a truncated one is marked. Under the `Error`
/// policy only the bound on the number of results truncates; any other bound that runs out is an
/// error. Bounds that cover the table never run out.
#[verifier::spinoff_prover]
#[verifier::rlimit(80)]
pub fn traverse_detailed<T: VectorType>(
    db: &MemTable<T>,
    source_id: NodeId,
    config: &ReachabilityConfig,
) -> (result: Result<ReachabilityOutput>)
    requires
        db.inv(),
    ensures
        !(db@.nodes.contains_key(source_id) && valid_config(*config)) ==> (result matches Err(error)
            && is_query_fault(db@, source_id, *config, error)),
        db@.nodes.contains_key(source_id) && valid_config(*config) ==> (result matches Ok(output)
            ==> is_traversal(db@, *config, source_id, output)),
        db@.nodes.contains_key(source_id) && valid_config(*config) ==> is_query_outcome(
            db@,
            *config,
            source_id,
            result,
        ),
        forall|bound: nat|
            db@.nodes.contains_key(source_id) && valid_config(*config) && #[trigger] query_covers(
                db@,
                *config,
                bound,
            ) ==> (result matches Ok(output) && !output.truncated),
{
    match validate(db, source_id, config) {
        Ok(()) => {},
        Err(error) => {
            return Err(error);
        },
    }
    proof {
        db.lemma_inv();
    }
    let ghost steps = reach_steps(db@, *config);
    let budget = TraversalBudget {
        max_visited_nodes: config.max_visited_nodes,
        max_examined_edges: config.max_edges,
        max_frontier_size: config.max_frontier_size,
        max_depth: config.max_depth,
        exhaustion_policy: config.exhaustion_policy,
    };
    let mut best_depth: HashMap<NodeId, usize> = HashMap::new();
    best_depth.insert(source_id, 0);
    let mut start_path: Vec<NodeId> = Vec::new();
    start_path.push(source_id);
    let mut queue: VecDeque<PathState> = VecDeque::new();
    queue.push_back(
        PathState { node: source_id, path: copy_slice(start_path.as_slice()), steps: Vec::new() },
    );
    let mut results: Vec<ReachabilityResult> = Vec::new();
    if config.min_depth == 0 {
        results.push(
            ReachabilityResult {
                source_id,
                target_id: source_id,
                depth: 0,
                path: start_path,
                steps: Vec::new(),
            },
        );
    }
    let mut walk = Traversal {
        queue,
        best_depth,
        results,
        traversed_edges: 0,
        peak_frontier_size: 1,
        depth_reached: 0,
        truncated: false,
    };
    proof {
        if config.min_depth == 0 {
            assert(walk.results@[0]@.steps =~= Seq::<StepView>::empty());
            assert(walk.results@[0]@.path =~= seq![source_id]);
        }
        assert(walk.queue@[0].path@ =~= seq![source_id]);
        lemma_traversal_starts(db@, *config, source_id, walk);
        vstd::set_lib::lemma_len_subset(walk.best_depth@.dom(), db@.nodes.dom());
    }
    let ghost mut level: nat = 0;
    let ghost mut order: Seq<NodeId> = seq![source_id];
    let ghost mut visits: Seq<(NodeId, Seq<StepView>)> = Seq::empty();
    proof {
        assert(queue_nodes(walk.queue@) =~= order.skip(0));
        assert(order.contains(order[0]));
    }
    let ghost mut expanded: nat = 0;
    let ghost mut lists: Seq<Seq<StepView>> = Seq::empty();
    proof {
        lemma_course_starts(*config, source_id, walk);
    }
    while walk.queue.len() > 0 && !walk.truncated
        invariant
            is_under_way(db@, *config, source_id, lists),
            mirrors(
                *config,
                source_id,
                walk,
                course_after(*config, source_id, lists, lists.len()),
            ),
            course_after(*config, source_id, lists, lists.len()).stop matches Some(
                Stop::Budget(_),
            ) ==> config.exhaustion_policy == BudgetExhaustionPolicy::Partial,
            !walk.truncated ==> lists.len() == expanded,
            db.inv(),
            db@.well_formed(),
            db@.nodes.contains_key(source_id),
            valid_config(*config),
            budget == query_budget(*config),
            steps == reach_steps(db@, *config),
            sound(db@, *config, source_id, walk),
            walk.truncated ==> config.exhaustion_policy == BudgetExhaustionPolicy::Partial
                || walk.results@.len() == config.max_results,
            walk.truncated ==> forall|bound: nat| !#[trigger] query_covers(db@, *config, bound),
            !walk.truncated ==> advancing(db@, *config, source_id, walk, level, None),
            !walk.truncated ==> walk.queue@.len() + expanded == walk.best_depth@.dom().len(),
            !walk.truncated ==> forall|bound: nat| #[trigger]
                steps_bounded(db@, *config, bound) ==> walk.traversed_edges <= expanded * bound,
            expanded <= db@.nodes.dom().len(),
            frontier_fits(*config, walk),
            !walk.truncated ==> {
                &&& order.no_duplicates()
                &&& expanded <= order.len()
                &&& queue_nodes(walk.queue@) == order.skip(expanded as int)
                &&& forall|id: NodeId| #[trigger]
                    walk.best_depth@.contains_key(id) <==> order.contains(id)
                &&& are_expansions(db@, *config, visits)
                &&& walk.traversed_edges == step_count(visits)
                &&& forall|id: NodeId| #[trigger]
                    is_visited(visits, id) <==> order.take(expanded as int).contains(id)
                        && walk.best_depth@[id] < config.max_depth
            },
        decreases
                db@.nodes.dom().len() - expanded,
                (if walk.truncated {
                    0int
                } else {
                    1int
                }),
    {
        let ghost before = walk;
        let ghost course = course_after(*config, source_id, lists, lists.len());
        let state = walk.queue.pop_front().unwrap();
        let ghost depths = known_depths(walk.best_depth@);
        proof {
            lemma_popped_course(*config, source_id, before, walk, course, lists.len() as int);
            assert(before.queue@[0] == state);
            assert(waiting_state(db@, *config, source_id, depths, level, before.queue@[0]));
            level = depths[state.node];
            lemma_popped(db@, *config, source_id, before, walk, state, level);
            vstd::set_lib::lemma_len_subset(walk.best_depth@.dom(), db@.nodes.dom());
            expanded = expanded + 1;
            let reached = expanded - 1;
            assert(queue_nodes(before.queue@) == order.skip(reached));
            assert(queue_nodes(before.queue@).len() == before.queue@.len());
            assert(order.skip(reached).len() == order.len() - reached);
            assert(order.skip(reached)[0] == order[reached + 0]);
            assert(queue_nodes(before.queue@)[0] == state.node);
            assert(order[expanded - 1] == state.node);
            assert forall|i: int| 0 <= i < queue_nodes(walk.queue@).len() implies #[trigger]
                queue_nodes(walk.queue@)[i] == order[expanded + i] by {
                assert(walk.queue@[i] == before.queue@[i + 1]);
                assert(queue_nodes(before.queue@)[i + 1] == order.skip(reached)[i + 1]);
            }
            assert(queue_nodes(walk.queue@) =~= order.skip(expanded as int));
            assert(order.take(expanded as int) =~= order.take(expanded - 1).push(state.node));
            assert(!order.take(expanded - 1).contains(state.node)) by {
                if order.take(expanded - 1).contains(state.node) {
                    let few = order.take(expanded - 1);
                    let n = choose|n: int| 0 <= n < few.len() && few[n] == state.node;
                    assert(order[n] == order[expanded - 1]);
                }
            }
            assert(order.contains(order[expanded - 1]));
            assert forall|id: NodeId| #[trigger]
                order.take(expanded as int).contains(id) <==> order.take(expanded - 1).contains(id)
                    || id == state.node by {
                crate::collections::lemma_contains_push(
                    order.take(expanded - 1),
                    state.node,
                    id,
                );
            }
            assert(!is_visited(visits, state.node));
        }
        let ghost popped = walk;
        if state.path.len() - 1 < config.max_depth {
            let expansion = expand_state(
                db,
                source_id,
                config,
                &budget,
                &state,
                &mut walk,
                Ghost(course.popped()),
            );
            proof {
                let list = choose|list: Seq<StepView>| #[trigger]
                    is_step_list(db@, *config, state.node, list) && ends_as(
                        *config,
                        source_id,
                        walk,
                        course.popped().after_steps(
                            *config,
                            source_id,
                            way_of(state),
                            list,
                            list.len(),
                        ),
                        expansion,
                    ) && (expansion is Ok && !walk.truncated ==> walk.traversed_edges
                        == popped.traversed_edges + list.len());
                lemma_under_way(db@, *config, source_id, lists, list);
                lists = lists.push(list);
                if expansion is Err {
                    assert(is_course(
                        db@,
                        *config,
                        source_id,
                        course_after(*config, source_id, lists, lists.len()),
                    ));
                }
                if expansion is Err || walk.truncated {
                    assert forall|bound: nat| !#[trigger] query_covers(db@, *config, bound) by {
                        if query_covers(db@, *config, bound) {
                            assert(steps_bounded(db@, *config, bound));
                            let nodes = db@.nodes.dom().len();
                            assert((expanded - 1) * bound + bound == expanded * bound)
                                by (nonlinear_arith)
                                requires
                                    expanded >= 1,
                            ;
                            assert(expanded * bound <= nodes * bound) by (nonlinear_arith)
                                requires
                                    expanded <= nodes,
                            ;
                        }
                    }
                }
                if expansion is Ok && !walk.truncated {
                    lemma_visit(db@, *config, visits, state.node, list);
                    let added = choose|added: Seq<NodeId>| #[trigger]
                        enqueues(popped, walk, added);
                    lemma_order_grows(order, popped, walk, added, expanded as int);
                    assert(popped.best_depth@.contains_key(state.node));
                    let earlier = visits;
                    visits = visits.push((state.node, list));
                    assert forall|id: NodeId| #[trigger] is_visited(visits, id) <==> (order
                        + added).take(expanded as int).contains(id) && walk.best_depth@[id]
                        < config.max_depth by {
                        assert((order + added).take(expanded as int) =~= order.take(
                            expanded as int,
                        ));
                        assert(is_visited(visits, id) <==> is_visited(earlier, id) || id
                            == state.node);
                        assert(order.take(expanded as int).contains(id) <==> order.take(
                            expanded - 1,
                        ).contains(id) || id == state.node);
                        if order.take(expanded as int).contains(id) {
                            let few = order.take(expanded as int);
                            let n = choose|n: int| 0 <= n < few.len() && few[n] == id;
                            assert(order[n] == id);
                            assert(order.contains(id));
                            assert(popped.best_depth@.contains_key(id));
                            assert(walk.best_depth@[id] == popped.best_depth@[id]);
                        }
                    }
                    order = order + added;
                    vstd::set_lib::lemma_len_subset(walk.best_depth@.dom(), db@.nodes.dom());
                    assert forall|bound: nat| #[trigger]
                        steps_bounded(db@, *config, bound) implies walk.traversed_edges <= expanded
                        * bound by {
                        assert((expanded - 1) * bound + bound == expanded * bound)
                            by (nonlinear_arith)
                            requires
                                expanded >= 1,
                        ;
                    }
                }
            }
            match expansion {
                Ok(()) => {},
                Err(error) => {
                    return Err(error);
                },
            }
        } else {
            proof {
                lemma_skipped(db@, *config, source_id, walk, state.node, level);
                lemma_under_way(db@, *config, source_id, lists, Seq::empty());
                lists = lists.push(Seq::empty());
                assert(known_depths(walk.best_depth@)[state.node]
                    == walk.best_depth@[state.node]);
                assert(walk.best_depth@[state.node] >= config.max_depth);
                assert forall|id: NodeId| #[trigger] is_visited(visits, id) <==> order.take(
                    expanded as int,
                ).contains(id) && walk.best_depth@[id] < config.max_depth by {
                    assert(order.take(expanded as int).contains(id) <==> order.take(
                        expanded - 1,
                    ).contains(id) || id == state.node);
                }
                assert forall|bound: nat| #[trigger]
                    steps_bounded(db@, *config, bound) implies walk.traversed_edges <= expanded
                    * bound by {
                    assert((expanded - 1) * bound <= expanded * bound) by (nonlinear_arith)
                        requires
                            expanded >= 1,
                    ;
                }
            }
        }
    }
    let ghost found = walk.results@;
    let ghost last = walk;
    proof {
        if !walk.truncated {
            lemma_traversal_complete(db@, *config, source_id, walk, level);
        }
    }
    let sorted_results = sort_items(walk.results);
    proof {
        lemma_results_sorted(db@, *config, source_id, found, sorted_results@);
    }
    let output = ReachabilityOutput {
        results: sorted_results,
        visited_nodes: walk.best_depth.len(),
        traversed_edges: walk.traversed_edges,
        peak_frontier_size: walk.peak_frontier_size,
        depth_reached: walk.depth_reached,
        truncated: walk.truncated,
    };
    proof {
        let depths = known_depths(last.best_depth@);
        let top = choose|id: NodeId| #[trigger]
            depths.contains_key(id) && depths[id] == last.depth_reached;
        assert(is_distance(steps, source_id, top, output.depth_reached as nat));
        if !output.truncated {
            assert(is_reach(db@, *config, source_id, last.best_depth@.dom()));
            assert(queue_nodes(last.queue@).len() == 0);
            assert(order.take(expanded as int) =~= order);
            assert forall|id: NodeId| #[trigger] is_visited(visits, id) <==> exists|depth: nat|
                #[trigger] is_distance(steps, source_id, id, depth) && depth < config.max_depth by {
                if is_visited(visits, id) {
                    assert(order.contains(id));
                    assert(depths.contains_key(id));
                    assert(is_distance(steps, source_id, id, depths[id]));
                }
                if exists|depth: nat| #[trigger]
                    is_distance(steps, source_id, id, depth) && depth < config.max_depth {
                    let depth = choose|depth: nat| #[trigger]
                        is_distance(steps, source_id, id, depth) && depth < config.max_depth;
                    lemma_within_grows(steps, source_id, id, depth, config.max_depth as nat);
                    assert(last.best_depth@.dom().contains(id));
                    assert(depths.contains_key(id));
                    assert(is_distance(steps, source_id, id, depths[id]));
                    assert(depths[id] == depth) by {
                        if depths[id] < depth {
                            assert(within(steps, source_id, id, depths[id]));
                        }
                        if depth < depths[id] {
                            assert(within(steps, source_id, id, depth));
                        }
                    }
                    assert(order.contains(id));
                }
            }
            assert(are_visits(db@, *config, source_id, visits));
            assert(output.visited_nodes == last.best_depth@.dom().len());
        }
        assert(is_traversal(db@, *config, source_id, output));
        assert(is_course(
            db@,
            *config,
            source_id,
            course_after(*config, source_id, lists, lists.len()),
        ));
    }
    Ok(output)
}

/// The order in which nodes were found, with those that one expansion adds.
proof fn lemma_order_grows(
    order: Seq<NodeId>,
    before: Traversal,
    after: Traversal,
    added: Seq<NodeId>,
    expanded: int,
)
    requires
        order.no_duplicates(),
        0 <= expanded <= order.len(),
        queue_nodes(before.queue@) == order.skip(expanded),
        forall|id: NodeId| #[trigger]
            before.best_depth@.contains_key(id) <==> order.contains(id),
        enqueues(before, after, added),
    ensures
        (order + added).no_duplicates(),
        queue_nodes(after.queue@) == (order + added).skip(expanded),
        forall|id: NodeId| #[trigger]
            after.best_depth@.contains_key(id) <==> (order + added).contains(id),
{
    let all = order + added;
    assert(all.skip(expanded) =~= order.skip(expanded) + added);
    assert forall|i: int, j: int|
        0 <= i < all.len() && 0 <= j < all.len() && i != j implies all[i] != all[j] by {
        if i < order.len() && j < order.len() {
            assert(order[i] != order[j]);
        } else if i < order.len() {
            assert(order.contains(order[i]));
            assert(!before.best_depth@.contains_key(added[j - order.len()]));
        } else if j < order.len() {
            assert(order.contains(order[j]));
            assert(!before.best_depth@.contains_key(added[i - order.len()]));
        } else {
            assert(added[i - order.len()] != added[j - order.len()]);
        }
    }
    assert forall|id: NodeId| #[trigger] after.best_depth@.contains_key(id)
        <==> all.contains(id) by {
        if order.contains(id) {
            let i = choose|i: int| 0 <= i < order.len() && order[i] == id;
            assert(all[i] == id);
        }
        if added.contains(id) {
            let i = choose|i: int| 0 <= i < added.len() && added[i] == id;
            assert(all[order.len() + i] == id);
        }
        if all.contains(id) {
            let i = choose|i: int| 0 <= i < all.len() && all[i] == id;
            if i < order.len() {
                assert(order[i] == id);
            } else {
                assert(added[i - order.len()] == id);
            }
        }
    }
}

/// Whether `output` answers a query.
pub open spec fn is_traversal<T: VectorType>(
    table: Table<T>,
    config: ReachabilityConfig,
    source: NodeId,
    output: ReachabilityOutput,
) -> bool {
    &&& forall|i: int|
        0 <= i < output.results@.len() ==> is_result(
            table,
            config,
            source,
            (#[trigger] output.results@[i])@,
        )
    &&& forall|i: int, j: int|
        0 <= i < j < output.results@.len() ==> ReachabilityResult::goes_before(
            (#[trigger] output.results@[i])@,
            (#[trigger] output.results@[j])@,
        )
    &&& !output.truncated ==> forall|id: NodeId| #[trigger]
        reports(output.results@, id) <==> is_wanted(table, config, source, id)
    &&& !output.truncated ==> exists|reached: Set<NodeId>| #[trigger]
        is_reach(table, config, source, reached) && output.visited_nodes == reached.len()
    &&& !output.truncated ==> forall|id: NodeId, depth: nat| #[trigger]
        is_distance(reach_steps(table, config), source, id, depth) && depth <= config.max_depth
            ==> depth <= output.depth_reached
    &&& exists|id: NodeId| #[trigger]
        is_distance(reach_steps(table, config), source, id, output.depth_reached as nat)
    &&& output.depth_reached <= config.max_depth
    &&& !output.truncated ==> exists|visits: Seq<(NodeId, Seq<StepView>)>| #[trigger]
        are_visits(table, config, source, visits) && output.traversed_edges == step_count(visits)
    &&& 1 <= output.peak_frontier_size <= output.visited_nodes
    &&& output.peak_frontier_size <= config.max_frontier_size || output.peak_frontier_size == 1
    &&& output.traversed_edges <= config.max_edges
    &&& output.results@.len() <= config.max_results
    &&& output.truncated ==> config.exhaustion_policy == BudgetExhaustionPolicy::Partial
        || output.results@.len() == config.max_results
}

/// Whether `result` is what a query gives: an error where a bound of the budget is reached under
/// the `Error` policy, and otherwise what was found until then, in order.
pub open spec fn is_query_outcome<T: VectorType>(
    table: Table<T>,
    config: ReachabilityConfig,
    source: NodeId,
    result: Result<ReachabilityOutput>,
) -> bool {
    exists|course: Course| #[trigger]
        is_course(table, config, source, course) && match result {
            Ok(output) => {
                &&& course.stop matches Some(Stop::Budget(_)) ==> config.exhaustion_policy
                    == BudgetExhaustionPolicy::Partial
                &&& views(output.results@) == sorted(
                    course.results(config, source),
                    order_of::<ReachabilityResult>(),
                )
                &&& output.truncated == (course.stop is Some)
                &&& course.is_measured(
                    (TraversalMetrics {
                        visited_nodes: output.visited_nodes,
                        examined_edges: output.traversed_edges,
                        peak_frontier_size: output.peak_frontier_size,
                        depth_reached: output.depth_reached,
                    }),
                )
            },
            Err(error) => {
                &&& course.is_refusal(error)
                &&& config.exhaustion_policy == BudgetExhaustionPolicy::Error
            },
        }
}

/// A traversal before its first step is at the start of its course.
proof fn lemma_course_starts(config: ReachabilityConfig, source: NodeId, walk: Traversal)
    requires
        walk.best_depth@ == Map::<NodeId, usize>::empty().insert(source, 0usize),
        walk.queue@.len() == 1,
        walk.queue@[0].path@ == seq![source],
        walk.queue@[0].steps@.len() == 0,
        walk.results@.len() == (if config.min_depth == 0 {
            1int
        } else {
            0int
        }),
        config.min_depth == 0 ==> walk.results@[0]@ == (ResultView {
            source,
            target: source,
            depth: 0,
            path: seq![source],
            steps: Seq::empty(),
        }),
        walk.traversed_edges == 0,
        walk.peak_frontier_size == 1,
        walk.depth_reached == 0,
        !walk.truncated,
    ensures
        mirrors(config, source, walk, Course::start(source)),
{
    let course = Course::start(source);
    let way = course.ways[0];
    lemma_way_found(config, source, Seq::empty(), way);
    assert(course.ways =~= Seq::<Way>::empty().push(way));
    assert(walk.best_depth@.dom() =~= Set::<NodeId>::empty().insert(source));
    assert(views(walk.queue@[0].steps@) =~= Seq::<StepView>::empty());
    assert(way_of(walk.queue@[0]) == way);
    assert forall|id: NodeId| #[trigger] walk.best_depth@.contains_key(id) <==> is_known(
        course.ways,
        id,
    ) by {
        assert(is_known(course.ways, id) <==> is_known(Seq::<Way>::empty(), id) || id == source);
    }
    assert(views(walk.results@) =~= results_of(config, source, course.ways));
}

/// A traversal before its first step.
proof fn lemma_traversal_starts<T: VectorType>(
    table: Table<T>,
    config: ReachabilityConfig,
    source: NodeId,
    walk: Traversal,
)
    requires
        table.well_formed(),
        table.nodes.contains_key(source),
        valid_config(config),
        walk.best_depth@ == Map::<NodeId, usize>::empty().insert(source, 0usize),
        walk.queue@.len() == 1,
        walk.queue@[0].node == source,
        walk.queue@[0].path@ == seq![source],
        walk.queue@[0].steps@.len() == 0,
        walk.results@.len() == (if config.min_depth == 0 {
            1int
        } else {
            0int
        }),
        config.min_depth == 0 ==> walk.results@[0]@ == (ResultView {
            source,
            target: source,
            depth: 0,
            path: seq![source],
            steps: Seq::empty(),
        }),
        walk.traversed_edges == 0,
        walk.peak_frontier_size == 1,
        walk.depth_reached == 0,
    ensures
        frontier_fits(config, walk),
        sound(table, config, source, walk),
        advancing(table, config, source, walk, 0, None),
        walk.best_depth@.dom().len() == 1,
{
    let steps = reach_steps(table, config);
    let depths = known_depths(walk.best_depth@);
    assert(depths =~= Map::<NodeId, nat>::empty().insert(source, 0nat));
    assert(walk.best_depth@.dom() =~= Set::<NodeId>::empty().insert(source));
    assert(depths.contains_key(source));
    assert(is_distance(steps, source, source, 0));
    assert(connects(steps, seq![source], source, source));
    assert(views(walk.queue@[0].steps@) =~= Seq::<StepView>::empty());
    assert forall|from: NodeId| depths.contains_key(from) implies waits(walk.queue@, from) by {
        assert(walk.queue@[0].node == from);
    }
    if config.min_depth == 0 {
        assert(is_result(table, config, source, walk.results@[0]@));
        assert(walk.results@[0].target_id == source);
        assert(reports(walk.results@, source));
    }
}

/// Taking the first state out of the queue.
proof fn lemma_popped<T: VectorType>(
    table: Table<T>,
    config: ReachabilityConfig,
    source: NodeId,
    before: Traversal,
    after: Traversal,
    state: PathState,
    level: nat,
)
    requires
        exists|earlier: nat| #[trigger] advancing(table, config, source, before, earlier, None),
        before.queue@.len() > 0,
        before.queue@[0] == state,
        after.queue@ == before.queue@.drop_first(),
        after.best_depth@ == before.best_depth@,
        after.results@ == before.results@,
        level == known_depths(before.best_depth@)[state.node],
    ensures
        advancing(table, config, source, after, level, Some(state.node)),
        waiting_state(table, config, source, known_depths(after.best_depth@), 0, state),
{
    let earlier = choose|earlier: nat| #[trigger]
        advancing(table, config, source, before, earlier, None);
    let depths = known_depths(before.best_depth@);
    assert(waiting_state(table, config, source, depths, earlier, before.queue@[0]));
    assert forall|i: int| 0 <= i < after.queue@.len() implies waiting_state(
        table,
        config,
        source,
        depths,
        level,
        #[trigger] after.queue@[i],
    ) by {
        assert(after.queue@[i] == before.queue@[i + 1]);
        assert(waiting_state(table, config, source, depths, earlier, before.queue@[i + 1]));
        assert(before.queue@[0].path@.len() <= before.queue@[i + 1].path@.len());
    }
    assert forall|i: int, j: int| 0 <= i <= j < after.queue@.len() implies (
    #[trigger] after.queue@[i]).path@.len() <= (#[trigger] after.queue@[j]).path@.len() by {
        assert(after.queue@[i] == before.queue@[i + 1]);
        assert(after.queue@[j] == before.queue@[j + 1]);
    }
    assert forall|id: NodeId| waits(before.queue@, id) && id != state.node implies #[trigger] waits(
        after.queue@,
        id,
    ) by {
        let n = choose|n: int| 0 <= n < before.queue@.len() && (#[trigger] before.queue@[n]).node
            == id;
        assert(after.queue@[n - 1].node == id);
    }
}

/// Taking the first state out of the queue, in terms of the course.
proof fn lemma_popped_course(
    config: ReachabilityConfig,
    source: NodeId,
    before: Traversal,
    after: Traversal,
    course: Course,
    expanded: int,
)
    requires
        mirrors(config, source, before, course),
        course.stop is None,
        before.queue@.len() > 0,
        before.queue@.len() + expanded == before.best_depth@.dom().len(),
        after.queue@ == before.queue@.drop_first(),
        after.best_depth@ == before.best_depth@,
        after.results@ == before.results@,
        after.traversed_edges == before.traversed_edges,
        after.peak_frontier_size == before.peak_frontier_size,
        after.depth_reached == before.depth_reached,
        after.truncated == before.truncated,
    ensures
        mirrors(config, source, after, course.popped()),
        expanded < course.ways.len(),
        way_of(before.queue@[0]) == course.ways[expanded],
{
    assert(course.ways.len() - course.waiting == expanded);
    assert(way_of(before.queue@[0]) == course.ways[expanded + 0]);
    assert forall|i: int| 0 <= i < after.queue@.len() implies way_of(#[trigger] after.queue@[i])
        == course.ways[course.ways.len() - (course.waiting - 1) + i] by {
        assert(after.queue@[i] == before.queue@[i + 1]);
    }
}

/// A node at the depth bound is not expanded.
proof fn lemma_skipped<T: VectorType>(
    table: Table<T>,
    config: ReachabilityConfig,
    source: NodeId,
    walk: Traversal,
    current: NodeId,
    level: nat,
)
    requires
        advancing(table, config, source, walk, level, Some(current)),
        known_depths(walk.best_depth@)[current] >= config.max_depth,
    ensures
        advancing(table, config, source, walk, level, None),
{
}

/// A traversal whose queue is empty has found everything within the depth bound.
proof fn lemma_traversal_complete<T: VectorType>(
    table: Table<T>,
    config: ReachabilityConfig,
    source: NodeId,
    walk: Traversal,
    level: nat,
)
    requires
        sound(table, config, source, walk),
        advancing(table, config, source, walk, level, None),
        walk.queue@.len() == 0,
    ensures
        is_reach(table, config, source, walk.best_depth@.dom()),
        forall|id: NodeId| #[trigger]
            reports(walk.results@, id) <==> is_wanted(table, config, source, id),
        forall|id: NodeId, depth: nat| #[trigger]
            is_distance(reach_steps(table, config), source, id, depth) && depth <= config.max_depth
                ==> depth <= walk.depth_reached,
{
    let steps = reach_steps(table, config);
    let depths = known_depths(walk.best_depth@);
    let limit = config.max_depth as nat;
    assert(closed_below(steps, depths, limit)) by {
        assert forall|from: NodeId, to: NodeId|
            depths.contains_key(from) && depths[from] < limit && #[trigger] steps(
                from,
                to,
            ) implies depths.contains_key(to) && depths[to] <= depths[from] + 1 by {
            assert(!waits(walk.queue@, from));
        }
    }
    assert forall|id: NodeId| #[trigger] walk.best_depth@.dom().contains(id) <==> within(
        steps,
        source,
        id,
        limit,
    ) by {
        if within(steps, source, id, limit) {
            lemma_closed_below(steps, source, depths, limit, id, limit);
        }
        if depths.contains_key(id) {
            lemma_within_grows(steps, source, id, depths[id], limit);
        }
    }
    assert forall|id: NodeId, depth: nat| #[trigger]
        is_distance(steps, source, id, depth) && depth <= limit implies depths.contains_key(id)
        && depths[id] == depth by {
        lemma_closed_below(steps, source, depths, limit, id, depth);
        assert(is_distance(steps, source, id, depths[id]));
        if depths[id] < depth {
            assert(within(steps, source, id, depths[id]));
        }
    }
    assert forall|id: NodeId| #[trigger] reports(walk.results@, id) <==> is_wanted(
        table,
        config,
        source,
        id,
    ) by {
        if reports(walk.results@, id) {
            let i = choose|i: int|
                0 <= i < walk.results@.len() && (#[trigger] walk.results@[i]).target_id == id;
            assert(is_result(table, config, source, walk.results@[i]@));
        }
        if is_wanted(table, config, source, id) {
            let depth = choose|depth: nat| #[trigger]
                is_distance(steps, source, id, depth) && config.min_depth <= depth
                    <= config.max_depth;
            assert(depths.contains_key(id) && depths[id] == depth);
            assert(walk.best_depth@.contains_key(id));
        }
    }
}

/// Sorting the results orders them and keeps what they report.
proof fn lemma_results_sorted<T: VectorType>(
    table: Table<T>,
    config: ReachabilityConfig,
    source: NodeId,
    found: Seq<ReachabilityResult>,
    listed: Seq<ReachabilityResult>,
)
    requires
        views(listed) == sorted(views(found), order_of::<ReachabilityResult>()),
        forall|i: int|
            0 <= i < found.len() ==> is_result(table, config, source, (#[trigger] found[i])@),
        forall|i: int, j: int|
            0 <= i < j < found.len() ==> (#[trigger] found[i]).target_id != (
            #[trigger] found[j]).target_id,
    ensures
        listed.len() == found.len(),
        forall|i: int|
            0 <= i < listed.len() ==> is_result(table, config, source, (#[trigger] listed[i])@),
        forall|i: int, j: int|
            0 <= i < j < listed.len() ==> ReachabilityResult::goes_before(
                (#[trigger] listed[i])@,
                (#[trigger] listed[j])@,
            ),
        forall|id: NodeId| #[trigger] reports(listed, id) <==> reports(found, id),
{
    let given = views(found);
    let all = views(listed);
    law_sorted::<ReachabilityResult>(given);
    assert(all.len() == listed.len());
    assert forall|i: int| 0 <= i < listed.len() implies exists|k: int|
        0 <= k < found.len() && (#[trigger] found[k])@ == (#[trigger] listed[i])@ by {
        assert(all[i] == listed[i]@);
        assert(all.contains(all[i]));
        lemma_sorted_contains::<ReachabilityResult>(given, all[i]);
        let k = choose|k: int| 0 <= k < given.len() && given[k] == all[i];
        assert(found[k]@ == listed[i]@);
    }
    assert forall|i: int| 0 <= i < listed.len() implies is_result(
        table,
        config,
        source,
        (#[trigger] listed[i])@,
    ) by {
        let k = choose|k: int| 0 <= k < found.len() && (#[trigger] found[k])@ == listed[i]@;
        assert(is_result(table, config, source, found[k]@));
    }
    assert(given.no_duplicates()) by {
        assert forall|i: int, j: int|
            0 <= i < given.len() && 0 <= j < given.len() && i != j implies given[i]
            != given[j] by {
            if i < j {
                assert(found[i].target_id != found[j].target_id);
            } else {
                assert(found[j].target_id != found[i].target_id);
            }
            assert(given[i] == found[i]@ && given[j] == found[j]@);
        }
    }
    assert(all.no_duplicates()) by {
        broadcast use vstd::seq_lib::group_to_multiset_ensures;

        given.lemma_multiset_has_no_duplicates();
        all.lemma_multiset_has_no_duplicates_conv();
    }
    assert forall|i: int, j: int| 0 <= i < j < listed.len() implies
        ReachabilityResult::goes_before(
        (#[trigger] listed[i])@,
        (#[trigger] listed[j])@,
    ) by {
        assert(all[i] == listed[i]@ && all[j] == listed[j]@);
        assert(!order_of::<ReachabilityResult>()(all[j], all[i]));
        if !ReachabilityResult::goes_before(listed[i]@, listed[j]@) {
            let a = choose|a: int| 0 <= a < found.len() && (#[trigger] found[a])@ == listed[i]@;
            let b = choose|b: int| 0 <= b < found.len() && (#[trigger] found[b])@ == listed[j]@;
            assert(found[a]@.target == found[b]@.target);
            if a < b {
                assert(found[a].target_id != found[b].target_id);
            } else if b < a {
                assert(found[b].target_id != found[a].target_id);
            }
            assert(all[i] == all[j]);
        }
    }
    assert forall|id: NodeId| #[trigger] reports(listed, id) <==> reports(found, id) by {
        if reports(listed, id) {
            let i = choose|i: int| 0 <= i < listed.len() && (#[trigger] listed[i]).target_id == id;
            let k = choose|k: int| 0 <= k < found.len() && (#[trigger] found[k])@ == listed[i]@;
            assert(found[k].target_id == id);
        }
        if reports(found, id) {
            let k = choose|k: int| 0 <= k < found.len() && (#[trigger] found[k]).target_id == id;
            assert(given[k] == found[k]@);
            assert(given.contains(given[k]));
            lemma_sorted_contains::<ReachabilityResult>(given, given[k]);
            let i = choose|i: int| 0 <= i < all.len() && all[i] == given[k];
            assert(listed[i]@ == found[k]@);
            assert(listed[i].target_id == id);
        }
    }
}

/// A step leads from a node of the table to a node of the table.
pub proof fn lemma_can_step_in_table<T: VectorType>(
    table: Table<T>,
    config: ReachabilityConfig,
    from: NodeId,
    to: NodeId,
)
    requires
        table.well_formed(),
        can_step(table, config, from, to),
    ensures
        table.nodes.contains_key(from),
        table.nodes.contains_key(to),
{
    let step = choose|step: StepView| #[trigger]
        is_step(table, config, step) && step.from == from && step.to == to;
    lemma_step_in_table(table, config, step);
}

/// An allowed edge of a node can be followed.
pub proof fn lemma_can_step_outgoing<T: VectorType>(
    table: Table<T>,
    config: ReachabilityConfig,
    from: NodeId,
    i: int,
)
    requires
        config.direction != ReachabilityDirection::Incoming,
        0 <= i < table.edges_of(from).len(),
        label_allowed(config.labels, table.edges_of(from)[i].label),
    ensures
        can_step(table, config, from, table.edges_of(from)[i].target),
{
    let edge = table.edges_of(from)[i];
    let step = forward_step(from, edge);
    assert(step_edge(step) == edge);
    assert(is_step(table, config, step));
}

/// An allowed edge to a node can be followed backwards.
pub proof fn lemma_can_step_incoming<T: VectorType>(
    table: Table<T>,
    config: ReachabilityConfig,
    from: NodeId,
    edge: IncomingView,
)
    requires
        config.direction != ReachabilityDirection::Outgoing,
        table.is_incoming(from, None, edge),
        label_allowed(config.labels, edge.label),
    ensures
        can_step(table, config, from, edge.source),
{
    let m = choose|m: int|
        0 <= m < table.nodes[edge.source].edges.len() && #[trigger] incoming_of(
            edge.source,
            table.nodes[edge.source].edges[m],
        ) == edge && table.nodes[edge.source].edges[m].target == from;
    let step = backward_step(from, edge);
    assert(table.edges_of(edge.source)[m] == step_edge(step));
    assert(is_step(table, config, step));
}

/// The sources of all allowed edges to a node are known once all edges to it have been seen.
pub proof fn incoming_steps_known<T: VectorType>(
    table: Table<T>,
    config: ReachabilityConfig,
    current: NodeId,
    incoming: Seq<crate::node::IncomingEdge>,
    found: Seq<NodeId>,
)
    requires
        table.well_formed(),
        forall|edge: IncomingView| #[trigger]
            table.is_incoming(current, label_view(None), edge) ==> is_listed(incoming, edge),
        forall|j: int|
            0 <= j < incoming.len() && label_allowed(config.labels, (#[trigger] incoming[j])@.label)
                ==> found.contains(incoming[j].source_id),
    ensures
        forall|step: StepView| #[trigger]
            is_step(table, config, step) && step.from == current && step.from == step.edge_target
                && step.to == step.edge_source ==> found.contains(step.to),
{
    assert forall|step: StepView| #[trigger]
        is_step(table, config, step) && step.from == current && step.from == step.edge_target
            && step.to == step.edge_source implies found.contains(step.to) by {
        let source = step.edge_source;
        let edge = step_edge(step);
        let m = choose|m: int|
            0 <= m < table.edges_of(source).len() && table.edges_of(source)[m] == edge;
        let seen = incoming_of(source, edge);
        assert(table.nodes.contains_key(source));
        assert(incoming_of(seen.source, table.nodes[seen.source].edges[m]) == seen);
        assert(table.is_incoming(current, label_view(None), seen));
        assert(is_listed(incoming, seen));
        let k = choose|k: int| 0 <= k < incoming.len() && (#[trigger] incoming[k])@ == seen;
        assert(label_allowed(config.labels, incoming[k]@.label));
    }
}

/// The nodes whose distance is in the range that is asked for, each with a shortest path. Under the
/// `Error` policy the result is complete: a bound that is reached, the one on results among them,
/// is an error.
pub fn traverse<T: VectorType>(
    db: &MemTable<T>,
    source_id: NodeId,
    config: &ReachabilityConfig,
) -> (result: Result<Vec<ReachabilityResult>>)
    requires
        db.inv(),
    ensures
        !(db@.nodes.contains_key(source_id) && valid_config(*config)) ==> (result matches Err(error)
            && is_query_fault(db@, source_id, *config, error)),
        db@.nodes.contains_key(source_id) && valid_config(*config) ==> match result {
            Ok(results) => exists|output: ReachabilityOutput| #[trigger]
                is_traversal(db@, *config, source_id, output) && output.results == results
                    && is_query_outcome(db@, *config, source_id, Ok(output)) && (output.truncated
                    ==> config.exhaustion_policy == BudgetExhaustionPolicy::Partial),
            Err(error) => is_query_outcome(db@, *config, source_id, Err(error)) || (
            config.exhaustion_policy == BudgetExhaustionPolicy::Error && is_query_execution(
                error,
                results_message(),
            ) && exists|output: ReachabilityOutput| #[trigger]
                is_query_outcome(db@, *config, source_id, Ok(output)) && output.truncated),
        },
        config.exhaustion_policy == BudgetExhaustionPolicy::Error ==> (result matches Ok(results)
            ==> forall|id: NodeId| #[trigger]
            reports(results@, id) <==> is_wanted(db@, *config, source_id, id)),
        forall|bound: nat|
            db@.nodes.contains_key(source_id) && valid_config(*config) && #[trigger] query_covers(
                db@,
                *config,
                bound,
            ) ==> (result matches Ok(results) && forall|id: NodeId| #[trigger]
                reports(results@, id) <==> is_wanted(db@, *config, source_id, id)),
{
    match traverse_detailed(db, source_id, config) {
        Ok(output) => {
            if output.truncated {
                match config.exhaustion_policy {
                    BudgetExhaustionPolicy::Error => {
                        assert(is_query_outcome(db@, *config, source_id, Ok(output)));
                        return Err(
                            query_execution(
                                "图扩展结果数超过预算 (Graph expansion result budget exceeded)",
                            ),
                        );
                    },
                    BudgetExhaustionPolicy::Partial => {},
                }
            }
            let ghost answer = output;
            let results = output.results;
            assert(is_traversal(db@, *config, source_id, answer) && answer.results == results);
            Ok(results)
        },
        Err(error) => Err(error),
    }
}

// ---------------------------------------------------------------------------------------
// Subgraphs
// ---------------------------------------------------------------------------------------
/// A node of a subgraph.
#[derive(Debug)]
pub struct SubgraphNode {
    pub id: NodeId,
    pub payload: Payload,
}

/// An edge of a subgraph.
#[derive(Debug)]
pub struct SubgraphEdge {
    pub source_id: NodeId,
    pub target_id: NodeId,
    pub label: String,
    pub weight: u32,
    pub metadata: String,
}

/// An edge of a subgraph as mathematical values.
pub struct SubgraphEdgeView {
    pub source: NodeId,
    pub edge: EdgeView,
}

impl View for SubgraphEdge {
    type V = SubgraphEdgeView;

    open spec fn view(&self) -> SubgraphEdgeView {
        SubgraphEdgeView {
            source: self.source_id,
            edge: EdgeView {
                target: self.target_id,
                label: self.label@,
                weight: self.weight,
                metadata: self.metadata@,
            },
        }
    }
}

/// The order of the edges of a subgraph: by source, then by target, then by label.
pub open spec fn edge_before(a: SubgraphEdgeView, b: SubgraphEdgeView) -> bool {
    if a.source != b.source {
        a.source < b.source
    } else if a.edge.target != b.edge.target {
        a.edge.target < b.edge.target
    } else {
        text_before(a.edge.label, b.edge.label)
    }
}

impl SortItem for SubgraphEdge {
    open spec fn goes_before(a: SubgraphEdgeView, b: SubgraphEdgeView) -> bool {
        edge_before(a, b)
    }

    proof fn lemma_order(a: SubgraphEdgeView, b: SubgraphEdgeView, c: SubgraphEdgeView) {
        law_text_order_total(a.edge.label, b.edge.label);
        law_text_order_total(b.edge.label, c.edge.label);
        law_text_order_total(a.edge.label, c.edge.label);
        law_text_order_irreflexive(a.edge.label);
        if text_before(a.edge.label, b.edge.label) && text_before(b.edge.label, c.edge.label) {
            law_text_order_transitive(a.edge.label, b.edge.label, c.edge.label);
        }
        if text_before(c.edge.label, a.edge.label) && text_before(a.edge.label, b.edge.label) {
            law_text_order_transitive(c.edge.label, a.edge.label, b.edge.label);
        }
    }

    fn is_before(&self, other: &SubgraphEdge) -> (result: bool) {
        if self.source_id != other.source_id {
            self.source_id < other.source_id
        } else if self.target_id != other.target_id {
            self.target_id < other.target_id
        } else {
            text_less(self.label.as_str(), other.label.as_str())
        }
    }
}

/// The part of a graph that a query reaches.
#[derive(Debug)]
pub struct SubgraphResult {
    pub nodes: Vec<SubgraphNode>,
    pub edges: Vec<SubgraphEdge>,
    pub visited_nodes: usize,
    pub traversed_edges: usize,
    pub truncated: bool,
}

/// The edge that a step follows.
pub open spec fn followed_edge(step: StepView) -> SubgraphEdgeView {
    SubgraphEdgeView { source: step.edge_source, edge: step_edge(step) }
}

/// Whether a node is on the path of one of the results.
pub open spec fn on_a_path(results: Seq<ReachabilityResult>, id: NodeId) -> bool {
    exists|i: int| 0 <= i < results.len() && (#[trigger] results[i]).path@.contains(id)
}

/// Whether an edge is followed by one of the results.
pub open spec fn on_a_route(results: Seq<ReachabilityResult>, edge: SubgraphEdgeView) -> bool {
    exists|i: int, j: int|
        0 <= i < results.len() && 0 <= j < (#[trigger] results[i]).steps@.len() && followed_edge(
            (#[trigger] results[i].steps@[j])@,
        ) == edge
}

/// Whether a node is listed.
pub open spec fn lists_node(nodes: Seq<SubgraphNode>, id: NodeId) -> bool {
    exists|i: int| 0 <= i < nodes.len() && (#[trigger] nodes[i]).id == id
}

/// Whether `subgraph` is the part of the table that `output` covers: the source and the nodes on
/// the paths, with their payloads, and the edges that the paths follow.
pub open spec fn is_subgraph_of<T: VectorType>(
    table: Table<T>,
    source: NodeId,
    output: ReachabilityOutput,
    subgraph: SubgraphResult,
) -> bool {
    &&& forall|i: int, j: int|
        0 <= i < j < subgraph.nodes@.len() ==> (#[trigger] subgraph.nodes@[i]).id < (
        #[trigger] subgraph.nodes@[j]).id
    &&& forall|i: int|
        0 <= i < subgraph.nodes@.len() ==> table.nodes.contains_key(
            (#[trigger] subgraph.nodes@[i]).id,
        ) && subgraph.nodes@[i].payload@ == table.nodes[subgraph.nodes@[i].id].payload
    &&& forall|id: NodeId| #[trigger]
        lists_node(subgraph.nodes@, id) <==> (id == source || on_a_path(output.results@, id))
    &&& strictly_ordered(views(subgraph.edges@), order_of::<SubgraphEdge>())
    &&& forall|edge: SubgraphEdgeView| #[trigger]
        views(subgraph.edges@).contains(edge) <==> on_a_route(output.results@, edge)
    &&& subgraph.visited_nodes == output.visited_nodes
    &&& subgraph.traversed_edges == output.traversed_edges
    &&& subgraph.truncated == output.truncated
}

/// The subgraph that a query reaches.
pub fn query_subgraph<T: VectorType>(
    db: &MemTable<T>,
    source_id: NodeId,
    config: &ReachabilityConfig,
) -> (result: Result<SubgraphResult>)
    requires
        db.inv(),
    ensures
        !(db@.nodes.contains_key(source_id) && valid_config(*config)) ==> (result matches Err(error)
            && is_query_fault(db@, source_id, *config, error)),
        db@.nodes.contains_key(source_id) && valid_config(*config) ==> match result {
            Ok(subgraph) => exists|output: ReachabilityOutput| #[trigger]
                is_traversal(db@, *config, source_id, output) && is_subgraph_of(
                    db@,
                    source_id,
                    output,
                    subgraph,
                ) && is_query_outcome(db@, *config, source_id, Ok(output)),
            Err(error) => is_query_outcome(db@, *config, source_id, Err(error)),
        },
        forall|bound: nat|
            db@.nodes.contains_key(source_id) && valid_config(*config) && #[trigger] query_covers(
                db@,
                *config,
                bound,
            ) ==> (result matches Ok(subgraph) && !subgraph.truncated),
{
    let output = match traverse_detailed(db, source_id, config) {
        Ok(output) => output,
        Err(error) => {
            return Err(error);
        },
    };
    proof {
        db.lemma_inv();
    }
    let mut ids: Vec<NodeId> = Vec::new();
    ids.push(source_id);
    let mut found: Vec<SubgraphEdge> = Vec::new();
    let mut i: usize = 0;
    assert(ids@[0] == source_id);
    while i < output.results.len()
        invariant
            i <= output.results@.len(),
            ids@.contains(source_id),
            forall|id: NodeId| #[trigger]
                ids@.contains(id) <==> id == source_id || on_a_path(
                    output.results@.subrange(0, i as int),
                    id,
                ),
            forall|edge: SubgraphEdgeView| #[trigger]
                views(found@).contains(edge) <==> on_a_route(
                    output.results@.subrange(0, i as int),
                    edge,
                ),
        decreases output.results@.len() - i,
    {
        let ghost done = output.results@.subrange(0, i as int);
        let ghost more = output.results@.subrange(0, i + 1);
        let ghost before_ids = ids@;
        let ghost before_edges = found@;
        let result = &output.results[i];
        let mut j: usize = 0;
        while j < result.path.len()
            invariant
                j <= result.path@.len(),
                forall|id: NodeId| #[trigger]
                    ids@.contains(id) <==> before_ids.contains(id) || result.path@.subrange(
                        0,
                        j as int,
                    ).contains(id),
            decreases result.path@.len() - j,
        {
            let ghost held = ids@;
            ids.push(result.path[j]);
            proof {
                assert(result.path@.subrange(0, j + 1) =~= result.path@.subrange(0, j as int).push(
                    result.path@[j as int],
                ));
                assert forall|id: NodeId| #[trigger] ids@.contains(id) <==> before_ids.contains(id)
                    || result.path@.subrange(0, j + 1).contains(id) by {
                    crate::collections::lemma_contains_push(held, result.path@[j as int], id);
                    crate::collections::lemma_contains_push(
                        result.path@.subrange(0, j as int),
                        result.path@[j as int],
                        id,
                    );
                    assert(held.contains(id) <==> before_ids.contains(id)
                        || result.path@.subrange(0, j as int).contains(id));
                }
            }
            j += 1;
        }
        assert(result.path@.subrange(0, j as int) =~= result.path@);
        let mut k: usize = 0;
        while k < result.steps.len()
            invariant
                k <= result.steps@.len(),
                forall|edge: SubgraphEdgeView| #[trigger]
                    views(found@).contains(edge) <==> views(before_edges).contains(edge) || exists|
                        n: int,
                    |
                        0 <= n < k && followed_edge((#[trigger] result.steps@[n])@) == edge,
            decreases result.steps@.len() - k,
        {
            let ghost held = found@;
            let step = &result.steps[k];
            let edge = SubgraphEdge {
                source_id: step.edge_source,
                target_id: step.edge_target,
                label: step.label.clone(),
                weight: step.weight,
                metadata: step.metadata.clone(),
            };
            found.push(edge);
            proof {
                assert(edge@ == followed_edge(result.steps@[k as int]@));
                assert(views(found@) =~= views(held).push(edge@));
                assert forall|other: SubgraphEdgeView| #[trigger]
                    views(found@).contains(other) <==> views(before_edges).contains(other)
                        || exists|n: int|
                        0 <= n < k + 1 && followed_edge((#[trigger] result.steps@[n])@) == other by {
                    crate::collections::lemma_contains_push(views(held), edge@, other);
                    assert(views(held).contains(other) <==> views(before_edges).contains(other)
                        || exists|n: int|
                        0 <= n < k && followed_edge((#[trigger] result.steps@[n])@) == other);
                    if other == edge@ {
                        assert(followed_edge(result.steps@[k as int]@) == other);
                    }
                    if exists|n: int|
                        0 <= n < k + 1 && followed_edge((#[trigger] result.steps@[n])@) == other {
                        let n = choose|n: int|
                            0 <= n < k + 1 && followed_edge((#[trigger] result.steps@[n])@)
                                == other;
                        if n < k {
                            assert(followed_edge(result.steps@[n]@) == other);
                        }
                    }
                }
            }
            k += 1;
        }
        proof {
            assert(more =~= done.push(*result));
            assert forall|id: NodeId| #[trigger] ids@.contains(id) <==> id == source_id
                || on_a_path(more, id) by {
                assert(before_ids.contains(id) <==> id == source_id || on_a_path(done, id));
                if on_a_path(done, id) {
                    let n = choose|n: int|
                        0 <= n < done.len() && (#[trigger] done[n]).path@.contains(id);
                    assert(more[n].path@.contains(id));
                }
                if result.path@.contains(id) {
                    assert(more[i as int].path@.contains(id));
                }
                if on_a_path(more, id) {
                    let n = choose|n: int|
                        0 <= n < more.len() && (#[trigger] more[n]).path@.contains(id);
                    if n < i {
                        assert(done[n].path@.contains(id));
                    }
                }
            }
            assert forall|edge: SubgraphEdgeView| #[trigger] views(found@).contains(edge)
                <==> on_a_route(more, edge) by {
                assert(views(before_edges).contains(edge) <==> on_a_route(done, edge));
                if on_a_route(done, edge) {
                    let (n, m) = choose|n: int, m: int|
                        0 <= n < done.len() && 0 <= m < (#[trigger] done[n]).steps@.len()
                            && followed_edge((#[trigger] done[n].steps@[m])@) == edge;
                    assert(more[n] == done[n]);
                    assert(followed_edge(more[n].steps@[m]@) == edge);
                }
                if exists|n: int|
                    0 <= n < result.steps@.len() && followed_edge((#[trigger] result.steps@[n])@)
                        == edge {
                    let m = choose|m: int|
                        0 <= m < result.steps@.len() && followed_edge(
                            (#[trigger] result.steps@[m])@,
                        ) == edge;
                    assert(more[i as int] == *result);
                    assert(followed_edge(more[i as int].steps@[m]@) == edge);
                }
                if on_a_route(more, edge) {
                    let (n, m) = choose|n: int, m: int|
                        0 <= n < more.len() && 0 <= m < (#[trigger] more[n]).steps@.len()
                            && followed_edge((#[trigger] more[n].steps@[m])@) == edge;
                    if n < i {
                        assert(done[n] == more[n]);
                        assert(followed_edge(done[n].steps@[m]@) == edge);
                    } else {
                        assert(followed_edge(result.steps@[m]@) == edge);
                    }
                }
            }
        }
        i += 1;
    }
    proof {
        assert(output.results@.subrange(0, i as int) =~= output.results@);
        lemma_routes_in_table(db@, *config, source_id, output);
        let gathered = views(found@);
        assert(ranks_determine(gathered, order_of::<SubgraphEdge>())) by {
            assert forall|a: SubgraphEdgeView, b: SubgraphEdgeView|
                #![trigger gathered.contains(a), gathered.contains(b)]
                gathered.contains(a) && gathered.contains(b) && !edge_before(a, b) && !edge_before(
                    b,
                    a,
                ) implies a == b by {
                law_text_order_total(a.edge.label, b.edge.label);
                assert(on_a_route(output.results@, a) && on_a_route(output.results@, b));
                let edges = db@.edges_of(a.source);
                assert(edges.contains(a.edge) && db@.edges_of(b.source).contains(b.edge));
                let p = choose|p: int| 0 <= p < edges.len() && edges[p] == a.edge;
                let q = choose|q: int| 0 <= q < edges.len() && edges[q] == b.edge;
                assert(db@.nodes.contains_key(a.source));
                assert(distinct_edges(db@.nodes[a.source].edges));
                if p < q {
                    assert(edges[p].target == edges[q].target);
                } else if q < p {
                    assert(edges[q].target == edges[p].target);
                }
            }
        }
    }
    let listed = sort_dedup(&ids);
    proof {
        assert forall|k: int| 0 <= k < listed@.len() implies db@.nodes.contains_key(
            #[trigger] listed@[k],
        ) by {
            assert(listed@.contains(listed@[k]));
            assert(ids@.contains(listed@[k]));
        }
    }
    let mut nodes: Vec<SubgraphNode> = Vec::new();
    let mut n: usize = 0;
    while n < listed.len()
        invariant
            n <= listed@.len(),
            nodes@.len() == n,
            forall|k: int| 0 <= k < listed@.len() ==> db@.nodes.contains_key(#[trigger] listed@[k]),
            forall|k: int|
                0 <= k < n ==> (#[trigger] nodes@[k]).id == listed@[k] && nodes@[k].payload@
                    == db@.nodes[listed@[k]].payload,
        decreases listed@.len() - n,
    {
        match db.get_payload(listed[n]) {
            Some(payload) => {
                nodes.push(SubgraphNode { id: listed[n], payload: payload.duplicate() });
            },
            None => {
                assert(db@.nodes.contains_key(listed@[n as int]));
            },
        }
        n += 1;
    }
    let edges = sort_distinct(found);
    let subgraph = SubgraphResult {
        nodes,
        edges,
        visited_nodes: output.visited_nodes,
        traversed_edges: output.traversed_edges,
        truncated: output.truncated,
    };
    proof {
        assert forall|id: NodeId| #[trigger] lists_node(subgraph.nodes@, id) <==> (id == source_id
            || on_a_path(output.results@, id)) by {
            assert(listed@.contains(id) <==> ids@.contains(id));
            if listed@.contains(id) {
                let k = choose|k: int| 0 <= k < listed@.len() && listed@[k] == id;
                assert(subgraph.nodes@[k].id == id);
            }
            if lists_node(subgraph.nodes@, id) {
                let k = choose|k: int|
                    0 <= k < subgraph.nodes@.len() && (#[trigger] subgraph.nodes@[k]).id == id;
                assert(listed@[k] == id);
            }
        }
        assert forall|i: int, j: int| 0 <= i < j < subgraph.nodes@.len() implies (
        #[trigger] subgraph.nodes@[i]).id < (#[trigger] subgraph.nodes@[j]).id by {
            assert(listed@[i] < listed@[j]);
        }
        assert forall|i: int| 0 <= i < subgraph.nodes@.len() implies db@.nodes.contains_key(
            (#[trigger] subgraph.nodes@[i]).id,
        ) && subgraph.nodes@[i].payload@ == db@.nodes[subgraph.nodes@[i].id].payload by {
            assert(db@.nodes.contains_key(listed@[i]));
        }
        assert(is_subgraph_of(db@, source_id, output, subgraph));
    }
    Ok(subgraph)
}

/// The nodes and edges of the results are in the table.
proof fn lemma_routes_in_table<T: VectorType>(
    table: Table<T>,
    config: ReachabilityConfig,
    source: NodeId,
    output: ReachabilityOutput,
)
    requires
        table.well_formed(),
        table.nodes.contains_key(source),
        is_traversal(table, config, source, output),
    ensures
        forall|id: NodeId| #[trigger]
            on_a_path(output.results@, id) ==> table.nodes.contains_key(id),
        forall|edge: SubgraphEdgeView| #[trigger]
            on_a_route(output.results@, edge) ==> table.edges_of(edge.source).contains(edge.edge),
{
    assert forall|id: NodeId| #[trigger] on_a_path(output.results@, id) implies
        table.nodes.contains_key(id) by {
        let i = choose|i: int|
            0 <= i < output.results@.len() && (#[trigger] output.results@[i]).path@.contains(id);
        let result = output.results@[i]@;
        assert(is_result(table, config, source, result));
        let k = choose|k: int| 0 <= k < result.path.len() && result.path[k] == id;
        if k > 0 {
            assert(is_step(table, config, result.steps[k - 1]));
            lemma_step_in_table(table, config, result.steps[k - 1]);
        }
    }
    assert forall|edge: SubgraphEdgeView| #[trigger] on_a_route(output.results@, edge) implies
        table.edges_of(edge.source).contains(edge.edge) by {
        let (i, j) = choose|i: int, j: int|
            0 <= i < output.results@.len() && 0 <= j < (
            #[trigger] output.results@[i]).steps@.len() && followed_edge(
                (#[trigger] output.results@[i].steps@[j])@,
            ) == edge;
        let result = output.results@[i]@;
        assert(is_result(table, config, source, result));
        assert(result.steps[j] == output.results@[i].steps@[j]@);
        assert(is_step(table, config, result.steps[j]));
    }
}

} // verus!
