//! Enumerating simple paths within a budget.
use std::collections::{BTreeSet, HashSet};
use vstd::prelude::*;

use crate::collections::lemma_to_set_push;
use crate::database::fusion::F32_ONE;
use crate::error::{invalid_input, is_invalid_input, Result, TriviumError};
use crate::graph::budget::{
    exhausted, is_budget_exceeded, zero_budget_message, BudgetDimension, BudgetExhaustionPolicy,
    TraversalBudget, TraversalMetrics,
};
use crate::graph::trial::{
    after_edges, after_route, extended, lemma_halted, next_edges, Halt, Trial,
};
use crate::node::{duplicate_edges, edge_views, Edge, EdgeView, NodeId};
use crate::number::{f32_total_key, f32_total_less};
use crate::sorting::{
    in_order, law_sorted, lemma_sorted_contains, order_of, sort_items, sorted, views, SortItem,
};
use crate::storage::memtable::{MemTable, Table};
use crate::text::{
    law_text_order_irreflexive, law_text_order_total, law_text_order_transitive, same_text,
    text_before, text_less,
};
use crate::vector::{copy_slice, VectorType};

verus! {

/// A path with the weights and labels of its edges, and its strength: the product and the average
/// of the weights. Weights and strengths are single precision bit patterns.
#[derive(Debug)]
pub struct BoundedPath {
    pub nodes: Vec<NodeId>,
    pub edge_weights: Vec<u32>,
    pub labels: Vec<String>,
    pub strength_product: u32,
    pub strength_average: u32,
}

/// What a path consists of.
pub struct Route {
    pub nodes: Seq<NodeId>,
    pub weights: Seq<u32>,
    pub labels: Seq<Seq<char>>,
}

/// A path as mathematical values.
pub struct BoundedPathView {
    pub route: Route,
    pub product: u32,
    pub average: u32,
}

/// The views of a list of labels.
pub open spec fn label_views(labels: Seq<String>) -> Seq<Seq<char>> {
    labels.map_values(|label: String| label@)
}

impl View for BoundedPath {
    type V = BoundedPathView;

    open spec fn view(&self) -> BoundedPathView {
        BoundedPathView {
            route: Route {
                nodes: self.nodes@,
                weights: self.edge_weights@,
                labels: label_views(self.labels@),
            },
            product: self.strength_product,
            average: self.strength_average,
        }
    }
}

/// Outcome of an enumeration.
#[derive(Debug)]
pub struct BoundedPathsOutput {
    pub paths: Vec<BoundedPath>,
    pub metrics: TraversalMetrics,
    pub truncated: bool,
}

/// Which paths are enumerated. With a label sequence, the edge at each position must have the
/// label at that position, and a path has at most as many edges as the sequence has labels.
#[derive(Debug)]
pub struct BoundedPathConfig {
    pub max_depth: usize,
    pub max_paths: usize,
    pub label_sequence: Option<Vec<String>>,
    pub forbidden_nodes: BTreeSet<NodeId>,
}

/// Whether the label sequence allows this label at this position.
pub open spec fn position_allows(
    config: BoundedPathConfig,
    position: int,
    label: Seq<char>,
) -> bool {
    config.label_sequence matches Some(sequence) ==> position < sequence@.len()
        && sequence@[position]@ == label
}

/// Whether edge number `i` of a route may be taken: the table has it, its label fits its
/// position, and it does not lead to a forbidden node.
pub open spec fn edge_taken<T: VectorType>(
    table: Table<T>,
    config: BoundedPathConfig,
    route: Route,
    i: int,
) -> bool {
    &&& has_weighted_edge(
        table,
        route.nodes[i],
        route.nodes[i + 1],
        route.labels[i],
        route.weights[i],
    )
    &&& position_allows(config, i, route.labels[i])
    &&& !config.forbidden_nodes@.contains(route.nodes[i + 1])
}

/// Whether the table has an edge with these ends, this label and this weight.
pub open spec fn has_weighted_edge<T: VectorType>(
    table: Table<T>,
    from: NodeId,
    to: NodeId,
    label: Seq<char>,
    weight: u32,
) -> bool {
    exists|k: int|
        0 <= k < table.edges_of(from).len() && (#[trigger] table.edges_of(from)[k]).target == to
            && table.edges_of(from)[k].label == label && table.edges_of(from)[k].weight == weight
}

/// Whether a route starts at `src`, takes only edges that it may, and enters no node twice.
pub open spec fn is_route<T: VectorType>(
    table: Table<T>,
    config: BoundedPathConfig,
    src: NodeId,
    route: Route,
) -> bool {
    &&& route.nodes.len() > 0
    &&& route.weights.len() == route.nodes.len() - 1
    &&& route.labels.len() == route.nodes.len() - 1
    &&& route.nodes[0] == src
    &&& route.nodes.no_duplicates()
    &&& forall|i: int|
        0 <= i < route.nodes.len() - 1 ==> #[trigger] edge_taken(table, config, route, i)
}

/// Whether a route is one that the enumeration looks for.
pub open spec fn is_bounded_route<T: VectorType>(
    table: Table<T>,
    config: BoundedPathConfig,
    max_depth: nat,
    src: NodeId,
    dst: NodeId,
    route: Route,
) -> bool {
    is_route(table, config, src, route) && route.nodes.last() == dst && route.nodes.len()
        <= max_depth + 1
}

/// Whether a route begins with another.
pub open spec fn begins_with(route: Route, start: Route) -> bool {
    &&& start.nodes.is_prefix_of(route.nodes)
    &&& start.weights.is_prefix_of(route.weights)
    &&& start.labels.is_prefix_of(route.labels)
}

/// Whether one of the paths takes this route.
pub open spec fn lists_route(paths: Seq<BoundedPath>, route: Route) -> bool {
    exists|i: int| 0 <= i < paths.len() && (#[trigger] paths[i])@.route == route
}

/// Whether `a` comes before `b` in lexicographic order.
pub open spec fn ids_before(a: Seq<NodeId>, b: Seq<NodeId>) -> bool
    decreases a.len(),
{
    if b.len() == 0 {
        false
    } else if a.len() == 0 {
        true
    } else if a[0] != b[0] {
        a[0] < b[0]
    } else {
        ids_before(a.drop_first(), b.drop_first())
    }
}

/// Lexicographic order is strict and total.
pub proof fn lemma_ids_order(a: Seq<NodeId>, b: Seq<NodeId>)
    ensures
        !ids_before(a, a),
        ids_before(a, b) || ids_before(b, a) || a == b,
        !(ids_before(a, b) && ids_before(b, a)),
    decreases a.len(),
{
    if a.len() > 0 {
        let rest = if b.len() > 0 { b.drop_first() } else { b };
        lemma_ids_order(a.drop_first(), rest);
        if b.len() > 0 && a[0] == b[0] && a.drop_first() == b.drop_first() {
            assert(a =~= seq![a[0]] + a.drop_first());
            assert(b =~= seq![b[0]] + b.drop_first());
        }
    } else if b.len() == 0 {
        assert(a =~= b);
    }
}

/// Lexicographic order is transitive.
pub proof fn lemma_ids_transitive(a: Seq<NodeId>, b: Seq<NodeId>, c: Seq<NodeId>)
    requires
        ids_before(a, b),
        ids_before(b, c),
    ensures
        ids_before(a, c),
    decreases a.len(),
{
    if a.len() > 0 && b.len() > 0 && c.len() > 0 && a[0] == b[0] && b[0] == c[0] {
        lemma_ids_transitive(a.drop_first(), b.drop_first(), c.drop_first());
    }
}

/// Whether `a` comes before `b` in lexicographic order.
pub(crate) fn ids_less(a: &Vec<NodeId>, b: &Vec<NodeId>) -> (less: bool)
    ensures
        less == ids_before(a@, b@),
{
    let mut i: usize = 0;
    assert(a@.subrange(0, a@.len() as int) =~= a@);
    assert(b@.subrange(0, b@.len() as int) =~= b@);
    while i < a.len() && i < b.len()
        invariant
            i <= a@.len(),
            i <= b@.len(),
            ids_before(a@, b@) == ids_before(
                a@.subrange(i as int, a@.len() as int),
                b@.subrange(i as int, b@.len() as int),
            ),
        decreases a@.len() - i,
    {
        let ghost rest_a = a@.subrange(i as int, a@.len() as int);
        let ghost rest_b = b@.subrange(i as int, b@.len() as int);
        proof {
            assert(rest_a[0] == a@[i as int] && rest_b[0] == b@[i as int]);
            assert(rest_a.drop_first() =~= a@.subrange(i + 1, a@.len() as int));
            assert(rest_b.drop_first() =~= b@.subrange(i + 1, b@.len() as int));
        }
        if a[i] != b[i] {
            return a[i] < b[i];
        }
        i += 1;
    }
    i < b.len()
}

impl SortItem for BoundedPath {
    open spec fn goes_before(a: BoundedPathView, b: BoundedPathView) -> bool {
        ids_before(a.route.nodes, b.route.nodes)
    }

    proof fn lemma_order(a: BoundedPathView, b: BoundedPathView, c: BoundedPathView) {
        let x = a.route.nodes;
        let y = b.route.nodes;
        let z = c.route.nodes;
        lemma_ids_order(x, y);
        lemma_ids_order(y, z);
        lemma_ids_order(x, z);
        if ids_before(x, y) && ids_before(y, z) {
            lemma_ids_transitive(x, y, z);
        }
        if ids_before(z, x) && ids_before(x, y) {
            lemma_ids_transitive(z, x, y);
        }
    }

    fn is_before(&self, other: &BoundedPath) -> (result: bool) {
        ids_less(&self.nodes, &other.nodes)
    }
}

/// The order in which edges are tried: by target, then by label, then by weight.
pub open spec fn tried_before(a: EdgeView, b: EdgeView) -> bool {
    if a.target != b.target {
        a.target < b.target
    } else if a.label != b.label {
        text_before(a.label, b.label)
    } else {
        f32_total_key(a.weight) < f32_total_key(b.weight)
    }
}

impl SortItem for Edge {
    open spec fn goes_before(a: EdgeView, b: EdgeView) -> bool {
        tried_before(a, b)
    }

    proof fn lemma_order(a: EdgeView, b: EdgeView, c: EdgeView) {
        law_text_order_total(a.label, b.label);
        law_text_order_total(b.label, c.label);
        law_text_order_total(a.label, c.label);
        law_text_order_irreflexive(a.label);
        if text_before(a.label, b.label) && text_before(b.label, c.label) {
            law_text_order_transitive(a.label, b.label, c.label);
        }
        if text_before(c.label, a.label) && text_before(a.label, b.label) {
            law_text_order_transitive(c.label, a.label, b.label);
        }
    }

    fn is_before(&self, other: &Edge) -> (result: bool) {
        if self.target_id != other.target_id {
            self.target_id < other.target_id
        } else if !same_text(self.label.as_str(), other.label.as_str()) {
            text_less(self.label.as_str(), other.label.as_str())
        } else {
            f32_total_less(self.weight, other.weight)
        }
    }
}

/// The state of an enumeration: the paths found, the path that is being tried, and what has been
/// used of the budget.
struct BoundedPathState {
    results: Vec<BoundedPath>,
    visited: HashSet<NodeId>,
    nodes: Vec<NodeId>,
    weights: Vec<u32>,
    labels: Vec<String>,
    metrics: TraversalMetrics,
    truncated: bool,
}

/// The path that is being tried.
spec fn tried(state: BoundedPathState) -> Route {
    Route { nodes: state.nodes@, weights: state.weights@, labels: label_views(state.labels@) }
}

/// What holds of the state: the path that is being tried is a route, its nodes are marked, and
/// everything found so far is one of the routes looked for.
spec fn enumerating<T: VectorType, F: Fn(&Vec<u32>) -> (u32, u32)>(
    table: Table<T>,
    config: BoundedPathConfig,
    max_depth: nat,
    src: NodeId,
    dst: NodeId,
    strength: F,
    state: BoundedPathState,
) -> bool {
    &&& is_route(table, config, src, tried(state))
    &&& state.visited@ == state.nodes@.to_set()
    &&& forall|i: int|
        0 <= i < state.results@.len() ==> is_found(
            table,
            config,
            max_depth,
            src,
            dst,
            strength,
            (#[trigger] state.results@[i])@,
        )
    &&& state.results@.len() <= config.max_paths
}

/// Whether a path is one that the enumeration looks for, with a strength that `strength` gives
/// for its weights; a path without edges has the strength one.
pub open spec fn is_found<T: VectorType, F: Fn(&Vec<u32>) -> (u32, u32)>(
    table: Table<T>,
    config: BoundedPathConfig,
    max_depth: nat,
    src: NodeId,
    dst: NodeId,
    strength: F,
    path: BoundedPathView,
) -> bool {
    is_bounded_route(table, config, max_depth, src, dst, path.route) && if path.route.weights.len()
        == 0 {
        path.product == F32_ONE && path.average == F32_ONE
    } else {
        exists|weights: &Vec<u32>|
            weights@ == path.route.weights && #[trigger] call_ensures(
                strength,
                (weights,),
                (path.product, path.average),
            )
    }
}

/// Copies of a list of labels.
fn duplicate_labels(labels: &Vec<String>) -> (result: Vec<String>)
    ensures
        label_views(result@) == label_views(labels@),
{
    let mut result: Vec<String> = Vec::new();
    let mut i: usize = 0;
    while i < labels.len()
        invariant
            i <= labels@.len(),
            result@.len() == i,
            forall|j: int| 0 <= j < i ==> (#[trigger] result@[j])@ == labels@[j]@,
        decreases labels@.len() - i,
    {
        result.push(labels[i].clone());
        i += 1;
    }
    assert(label_views(result@) =~= label_views(labels@));
    result
}

/// Whether the label sequence allows this label at this position.
fn label_at(config: &BoundedPathConfig, position: usize, label: &str) -> (allowed: bool)
    ensures
        allowed == position_allows(*config, position as int, label@),
{
    match &config.label_sequence {
        None => true,
        Some(sequence) => position < sequence.len() && same_text(
            sequence[position].as_str(),
            label,
        ),
    }
}

/// The routes of a list of paths.
pub open spec fn routes_of(paths: Seq<BoundedPathView>) -> Seq<Route> {
    paths.map_values(|path: BoundedPathView| path.route)
}

/// Whether an enumeration is where `trial` says.
spec fn mirrors(state: BoundedPathState, trial: Trial) -> bool {
    &&& routes_of(views(state.results@)) == trial.found
    &&& trial.is_measured(state.metrics)
    &&& state.truncated == (trial.halt is Some)
}

/// Whether a part of an enumeration ends as `trial` says: with an error only where a bound of the
/// budget is reached under the `Error` policy.
spec fn ends_as(
    budget: TraversalBudget,
    state: BoundedPathState,
    trial: Trial,
    result: Result<()>,
) -> bool {
    match result {
        Ok(()) => {
            &&& mirrors(state, trial)
            &&& trial.halt matches Some(Halt::Budget(_)) ==> budget.exhaustion_policy
                == BudgetExhaustionPolicy::Partial
        },
        Err(error) => {
            &&& trial.is_refusal(error)
            &&& budget.exhaustion_policy == BudgetExhaustionPolicy::Error
        },
    }
}

/// Taking one more edge keeps a route a route.
proof fn lemma_extended<T: VectorType>(
    table: Table<T>,
    config: BoundedPathConfig,
    src: NodeId,
    route: Route,
    k: int,
)
    requires
        is_route(table, config, src, route),
        0 <= k < table.edges_of(route.nodes.last()).len(),
        position_allows(
            config,
            route.nodes.len() - 1,
            table.edges_of(route.nodes.last())[k].label,
        ),
        !config.forbidden_nodes@.contains(table.edges_of(route.nodes.last())[k].target),
        !route.nodes.contains(table.edges_of(route.nodes.last())[k].target),
    ensures
        is_route(
            table,
            config,
            src,
            extended(route, table.edges_of(route.nodes.last())[k]),
        ),
{
    let edge = table.edges_of(route.nodes.last())[k];
    let longer = extended(route, edge);
    assert forall|i: int, j: int|
        0 <= i < longer.nodes.len() && 0 <= j < longer.nodes.len() && i != j implies longer.nodes[i]
        != longer.nodes[j] by {
        if i < route.nodes.len() && j < route.nodes.len() {
            assert(route.nodes[i] != route.nodes[j]);
        } else if i < route.nodes.len() {
            assert(route.nodes.contains(route.nodes[i]));
        } else {
            assert(route.nodes.contains(route.nodes[j]));
        }
    }
    assert forall|i: int| 0 <= i < longer.nodes.len() - 1 implies #[trigger] edge_taken(
        table,
        config,
        longer,
        i,
    ) by {
        if i < route.nodes.len() - 1 {
            assert(edge_taken(table, config, route, i));
        } else {
            assert(table.edges_of(longer.nodes[i])[k].target == longer.nodes[i + 1]);
        }
    }
}

/// A longer route that begins with `start` takes an edge of its last node next.
proof fn lemma_next_edge<T: VectorType>(
    table: Table<T>,
    config: BoundedPathConfig,
    src: NodeId,
    start: Route,
    route: Route,
) -> (k: int)
    requires
        is_route(table, config, src, start),
        is_route(table, config, src, route),
        begins_with(route, start),
        route.nodes.len() > start.nodes.len(),
    ensures
        0 <= k < table.edges_of(start.nodes.last()).len(),
        begins_with(route, extended(start, table.edges_of(start.nodes.last())[k])),
        position_allows(
            config,
            start.nodes.len() - 1,
            table.edges_of(start.nodes.last())[k].label,
        ),
        !config.forbidden_nodes@.contains(table.edges_of(start.nodes.last())[k].target),
        !start.nodes.contains(table.edges_of(start.nodes.last())[k].target),
{
    let at = start.nodes.len() - 1;
    assert(edge_taken(table, config, route, at));
    assert(route.nodes[at] == start.nodes.last());
    let k = choose|k: int|
        0 <= k < table.edges_of(route.nodes[at]).len() && (
        #[trigger] table.edges_of(route.nodes[at])[k]).target == route.nodes[at + 1]
            && table.edges_of(route.nodes[at])[k].label == route.labels[at] && table.edges_of(
            route.nodes[at],
        )[k].weight == route.weights[at];
    let edge = table.edges_of(start.nodes.last())[k];
    let longer = extended(start, edge);
    assert(longer.nodes =~= route.nodes.subrange(0, longer.nodes.len() as int));
    assert(longer.weights =~= route.weights.subrange(0, longer.weights.len() as int));
    assert(longer.labels =~= route.labels.subrange(0, longer.labels.len() as int));
    if start.nodes.contains(edge.target) {
        let n = choose|n: int| 0 <= n < start.nodes.len() && start.nodes[n] == edge.target;
        assert(route.nodes[n] == start.nodes[n]);
        assert(route.nodes[n] != route.nodes[at + 1]);
    }
    k
}

/// How many edges there are to look at in so many steps, where no node has more than `bound`.
pub open spec fn tree_edges(bound: nat, depth: nat) -> nat
    decreases depth,
{
    if depth == 0 {
        0
    } else {
        bound * (1 + tree_edges(bound, (depth - 1) as nat))
    }
}

/// Whether a budget is enough for any paths of so many steps, where no node has more than `bound`
/// edges.
pub open spec fn allows_all<T: VectorType>(
    table: Table<T>,
    budget: TraversalBudget,
    depth: nat,
    bound: nat,
) -> bool {
    &&& forall|id: NodeId| (#[trigger] table.edges_of(id)).len() <= bound
    &&& bound <= budget.max_frontier_size
    &&& tree_edges(bound, depth) <= budget.max_examined_edges
    &&& tree_edges(bound, depth) < budget.max_visited_nodes
}

/// Whether what is left of a budget is enough for so many more steps.
spec fn is_enough<T: VectorType>(
    table: Table<T>,
    budget: TraversalBudget,
    examined: nat,
    depth: nat,
    bound: nat,
) -> bool {
    &&& forall|id: NodeId| (#[trigger] table.edges_of(id)).len() <= bound
    &&& bound <= budget.max_frontier_size
    &&& examined + tree_edges(bound, depth) <= budget.max_examined_edges
    &&& examined + tree_edges(bound, depth) < budget.max_visited_nodes
}

/// The edges behind the first `count` of a node with no more than `bound` edges.
proof fn lemma_tree_part(bound: nat, count: nat, below: nat)
    requires
        count < bound,
    ensures
        count * (1 + below) + 1 + below <= bound * (1 + below),
        count * (1 + below) + 1 + below == (count + 1) * (1 + below),
{
    assert(count * (1 + below) + 1 + below == (count + 1) * (1 + below)) by (nonlinear_arith);
    assert((count + 1) * (1 + below) <= bound * (1 + below)) by (nonlinear_arith)
        requires
            count + 1 <= bound,
    ;
}

/// Tries every continuation of the path that is being tried, within the budget.
#[verifier::spinoff_prover]
#[verifier::rlimit(40)]
fn bounded_path_dfs<T: VectorType, F: Fn(&Vec<u32>) -> (u32, u32)>(
    mt: &MemTable<T>,
    dst: NodeId,
    config: &BoundedPathConfig,
    budget: &TraversalBudget,
    max_depth: usize,
    strength: &F,
    state: &mut BoundedPathState,
    Ghost(src): Ghost<NodeId>,
    Ghost(bound): Ghost<nat>,
    Ghost(trial): Ghost<Trial>,
) -> (result: Result<()>)
    requires
        mirrors(*old(state), trial),
        trial.halt is None,
        old(state).metrics.visited_nodes <= old(state).metrics.examined_edges + 1,
        forall|weights: &Vec<u32>| call_requires(*strength, (weights,)),
        old(state).truncated || old(state).results@.len() < config.max_paths,
        old(state).nodes@.len() <= max_depth + 1,
        enumerating(mt@, *config, max_depth as nat, src, dst, *strength, *old(state)),
        old(state).metrics.examined_edges <= budget.max_examined_edges,
    ensures
        ends_as(
            *budget,
            *final(state),
            after_route(
                mt@,
                *config,
                *budget,
                max_depth as nat,
                dst,
                tried(*old(state)),
                trial,
            ),
            result,
        ),
        result matches Ok(()) ==> {
            &&& enumerating(
                mt@,
                *config,
                max_depth as nat,
                src,
                dst,
                *strength,
                *final(state),
            )
            &&& final(state).nodes@ == old(state).nodes@
            &&& final(state).weights@ == old(state).weights@
            &&& label_views(final(state).labels@) == label_views(old(state).labels@)
            &&& old(state).results@.is_prefix_of(final(state).results@)
            &&& !final(state).truncated ==> !old(state).truncated
                && final(state).results@.len() < config.max_paths && forall|route: Route|
                #[trigger]
                is_bounded_route(mt@, *config, max_depth as nat, src, dst, route)
                    && begins_with(route, tried(*old(state))) ==> lists_route(
                    final(state).results@,
                    route,
                )
            &&& final(state).truncated ==> old(state).truncated || budget.exhaustion_policy
                == BudgetExhaustionPolicy::Partial || final(state).results@.len()
                == config.max_paths
            &&& final(state).metrics.examined_edges <= budget.max_examined_edges
        },
        final(state).metrics.visited_nodes <= final(state).metrics.examined_edges + 1,
        is_enough(
            mt@,
            *budget,
            old(state).metrics.examined_edges as nat,
            (max_depth + 1 - old(state).nodes@.len()) as nat,
            bound,
        ) ==> {
            &&& result is Ok
            &&& final(state).metrics.examined_edges <= old(state).metrics.examined_edges
                + tree_edges(bound, (max_depth + 1 - old(state).nodes@.len()) as nat)
            &&& final(state).truncated ==> old(state).truncated || final(state).results@.len()
                == config.max_paths
        },
    decreases max_depth + 1 - old(state).nodes@.len(),
{
    let ghost left = (max_depth + 1 - state.nodes@.len()) as nat;
    let ghost enough = is_enough(
        mt@,
        *budget,
        state.metrics.examined_edges as nat,
        left,
        bound,
    );
    let ghost below: nat = if left > 0 {
        tree_edges(bound, (left - 1) as nat)
    } else {
        0
    };
    let ghost start = *state;
    let ghost route_here = tried(*state);
    let ghost outcome = after_route(
        mt@,
        *config,
        *budget,
        max_depth as nat,
        dst,
        route_here,
        trial,
    );
    proof {
        assert(state.results@ =~= state.results@.subrange(0, state.results@.len() as int));
    }
    if state.truncated {
        return Ok(());
    }
    let depth: usize = state.weights.len();
    if state.metrics.depth_reached < depth {
        state.metrics.depth_reached = depth;
    }
    let current: NodeId = state.nodes[state.nodes.len() - 1];
    if current == dst {
        let found_strength: (u32, u32) = if state.weights.len() == 0 {
            (F32_ONE, F32_ONE)
        } else {
            strength(&state.weights)
        };
        let weights = copy_slice(state.weights.as_slice());
        let found = BoundedPath {
            nodes: copy_slice(state.nodes.as_slice()),
            edge_weights: weights,
            labels: duplicate_labels(&state.labels),
            strength_product: found_strength.0,
            strength_average: found_strength.1,
        };
        let ghost held = state.results@;
        proof {
            assert(found@.route == route_here);
            assert(is_found(mt@, *config, max_depth as nat, src, dst, *strength, found@)) by {
                if start.weights@.len() > 0 {
                    assert(call_ensures(*strength, (&start.weights,), found_strength));
                }
                assert(found_strength == (found@.product, found@.average));
                assert(start.weights@ == found@.route.weights);
                assert(is_bounded_route(
                    mt@,
                    *config,
                    max_depth as nat,
                    src,
                    dst,
                    found@.route,
                ));
            }
        }
        state.results.push(found);
        proof {
            assert(state.results@[held.len() as int]@.route == route_here);
            assert(routes_of(views(state.results@)) =~= routes_of(views(held)).push(route_here));
            assert(lists_route(state.results@, route_here));
            assert(held =~= state.results@.subrange(0, held.len() as int));
            assert forall|route: Route| #[trigger]
                is_bounded_route(mt@, *config, max_depth as nat, src, dst, route) && begins_with(
                    route,
                    route_here,
                ) implies route == route_here by {
                let at = route_here.nodes.len() - 1;
                assert(route.nodes[at] == dst);
                if route.nodes.len() > route_here.nodes.len() {
                    assert(route.nodes[at] != route.nodes[route.nodes.len() - 1]);
                }
                assert(route.nodes =~= route_here.nodes);
                assert(route.weights =~= route_here.weights);
                assert(route.labels =~= route_here.labels);
            }
        }
        if state.results.len() >= config.max_paths {
            state.truncated = true;
        }
        return Ok(());
    }
    if depth >= max_depth {
        proof {
            assert forall|route: Route| #[trigger]
                is_bounded_route(mt@, *config, max_depth as nat, src, dst, route) && begins_with(
                    route,
                    route_here,
                ) implies false by {
                assert(route.nodes =~= route_here.nodes);
            }
        }
        return Ok(());
    }
    let ghost table_edges = mt@.edges_of(current);
    let unsorted: Vec<Edge> = match mt.get_edges(current) {
        Some(edges) => duplicate_edges(edges),
        None => Vec::new(),
    };
    let edges = sort_items(unsorted);
    proof {
        assert(views(unsorted@) =~= edge_views(unsorted@));
        assert(edge_views(unsorted@) =~= table_edges);
        assert(views(edges@) == next_edges(mt@, route_here));
        law_sorted::<Edge>(table_edges);
        assert forall|edge: EdgeView| #[trigger] views(edges@).contains(edge)
            <==> table_edges.contains(edge) by {
            lemma_sorted_contains::<Edge>(table_edges, edge);
        }
    }
    if state.metrics.peak_frontier_size < edges.len() {
        state.metrics.peak_frontier_size = edges.len();
    }
    let ghost wider = Trial {
        depth: state.metrics.depth_reached as nat,
        peak: state.metrics.peak_frontier_size as nat,
        ..trial
    };
    assert(mirrors(*state, wider));
    if edges.len() > budget.max_frontier_size {
        assert(outcome == wider.halted(BudgetDimension::FrontierSize));
        assert(outcome.is_measured(state.metrics));
        return match exhausted(budget, BudgetDimension::FrontierSize, state.metrics) {
            Ok(stop) => {
                state.truncated = stop;
                Ok(())
            },
            Err(error) => {
                assert(is_budget_exceeded(error, BudgetDimension::FrontierSize, state.metrics));
                Err(error)
            },
        };
    }
    assert(outcome == after_edges(
        mt@,
        *config,
        *budget,
        max_depth as nat,
        dst,
        route_here,
        wider,
        edges@.len() as nat,
    ));
    let mut i: usize = 0;
    while i < edges.len()
        invariant
            i <= edges@.len(),
            views(edges@) == next_edges(mt@, route_here),
            outcome == after_edges(
                mt@,
                *config,
                *budget,
                max_depth as nat,
                dst,
                route_here,
                wider,
                edges@.len() as nat,
            ),
            outcome == after_route(
                mt@,
                *config,
                *budget,
                max_depth as nat,
                dst,
                tried(*old(state)),
                trial,
            ),
            route_here.nodes.len() <= max_depth,
            mirrors(
                *state,
                after_edges(
                    mt@,
                    *config,
                    *budget,
                    max_depth as nat,
                    dst,
                    route_here,
                    wider,
                    i as nat,
                ),
            ),
            forall|weights: &Vec<u32>| call_requires(*strength, (weights,)),
            start == *old(state),
            route_here == tried(start),
            !start.truncated,
            depth == start.weights@.len(),
            depth < max_depth,
            current == start.nodes@.last(),
            current != dst,
            table_edges == mt@.edges_of(current),
            forall|edge: EdgeView| #[trigger]
                views(edges@).contains(edge) <==> table_edges.contains(edge),
            !state.truncated,
            state.results@.len() < config.max_paths,
            enumerating(mt@, *config, max_depth as nat, src, dst, *strength, *state),
            tried(*state) == route_here,
            state.nodes@ == start.nodes@,
            state.weights@ == start.weights@,
            label_views(state.labels@) == label_views(start.labels@),
            start.results@.is_prefix_of(state.results@),
            state.metrics.examined_edges <= budget.max_examined_edges,
            state.metrics.visited_nodes <= state.metrics.examined_edges + 1,
            left == (max_depth + 1 - start.nodes@.len()) as nat,
            left > 0,
            below == tree_edges(bound, (left - 1) as nat),
            tree_edges(bound, left) == bound * (1 + below),
            enough == is_enough(
                mt@,
                *budget,
                start.metrics.examined_edges as nat,
                left,
                bound,
            ),
            edges@.len() == table_edges.len(),
            enough ==> state.metrics.examined_edges <= start.metrics.examined_edges + i * (1
                + below),
            forall|j: int, route: Route|
                0 <= j < i && #[trigger] is_bounded_route(
                    mt@,
                    *config,
                    max_depth as nat,
                    src,
                    dst,
                    route,
                ) && begins_with(route, #[trigger] extended(route_here, views(edges@)[j]))
                    ==> lists_route(state.results@, route),
        decreases edges@.len() - i,
    {
        let ghost before = *state;
        let ghost edge_here = views(edges@)[i as int];
        let ghost passed = after_edges(
            mt@,
            *config,
            *budget,
            max_depth as nat,
            dst,
            route_here,
            wider,
            i as nat,
        );
        let ghost reached = after_edges(
            mt@,
            *config,
            *budget,
            max_depth as nat,
            dst,
            route_here,
            wider,
            (i + 1) as nat,
        );
        proof {
            if reached.halt is Some {
                lemma_halted(
                    mt@,
                    *config,
                    *budget,
                    max_depth as nat,
                    dst,
                    route_here,
                    wider,
                    (i + 1) as nat,
                    edges@.len() as nat,
                );
            }
            assert(edge_here == edges@[i as int]@);
            assert(views(edges@).contains(edge_here));
        }
        let target: NodeId = edges[i].target_id;
        proof {
            if enough {
                assert(mt@.edges_of(current).len() <= bound);
                lemma_tree_part(bound, i as nat, below);
            }
        }
        if state.metrics.examined_edges >= budget.max_examined_edges {
            assert(reached == passed.halted(BudgetDimension::ExaminedEdges));
            assert(reached.is_measured(state.metrics));
            return match exhausted(budget, BudgetDimension::ExaminedEdges, state.metrics) {
                Ok(stop) => {
                    state.truncated = stop;
                    Ok(())
                },
                Err(error) => {
                    assert(is_budget_exceeded(
                        error,
                        BudgetDimension::ExaminedEdges,
                        state.metrics,
                    ));
                    Err(error)
                },
            };
        }
        state.metrics.examined_edges = state.metrics.examined_edges + 1;
        let ghost k = choose|k: int| 0 <= k < table_edges.len() && table_edges[k] == edge_here;
        if label_at(config, depth, edges[i].label.as_str()) && !config.forbidden_nodes.contains(
            &target,
        ) && !state.visited.contains(&target) {
            if state.metrics.visited_nodes >= budget.max_visited_nodes {
                assert(reached.is_measured(state.metrics));
                return match exhausted(budget, BudgetDimension::VisitedNodes, state.metrics) {
                    Ok(stop) => {
                        state.truncated = stop;
                        Ok(())
                    },
                    Err(error) => {
                        assert(is_budget_exceeded(
                            error,
                            BudgetDimension::VisitedNodes,
                            state.metrics,
                        ));
                        Err(error)
                    },
                };
            }
            state.metrics.visited_nodes = state.metrics.visited_nodes + 1;
            state.visited.insert(target);
            state.nodes.push(target);
            state.weights.push(edges[i].weight);
            state.labels.push(edges[i].label.clone());
            proof {
                assert(!start.nodes@.contains(target));
                lemma_extended(mt@, *config, src, route_here, k);
                assert(label_views(state.labels@) =~= label_views(before.labels@).push(
                    edge_here.label,
                ));
                assert(tried(*state) == extended(route_here, edge_here));
                lemma_to_set_push(before.nodes@, target);
            }
            let ghost deeper = *state;
            let ghost counted = Trial {
                visited: passed.visited + 1,
                examined: passed.examined + 1,
                ..passed
            };
            assert(reached == after_route(
                mt@,
                *config,
                *budget,
                max_depth as nat,
                dst,
                extended(route_here, edge_here),
                counted,
            ));
            match bounded_path_dfs(
                mt,
                dst,
                config,
                budget,
                max_depth,
                strength,
                state,
                Ghost(src),
                Ghost(bound),
                Ghost(counted),
            ) {
                Ok(()) => {},
                Err(error) => {
                    return Err(error);
                },
            }
            let ghost returned = *state;
            let _ = state.labels.pop();
            let _ = state.weights.pop();
            let _ = state.nodes.pop();
            let _ = state.visited.remove(&target);
            proof {
                assert(returned.labels@.len() == label_views(returned.labels@).len());
                assert(label_views(returned.labels@).len() == label_views(before.labels@).len() + 1);
                assert(label_views(state.labels@) =~= label_views(before.labels@)) by {
                    assert(label_views(state.labels@) =~= label_views(returned.labels@).drop_last());
                    assert(label_views(before.labels@).push(edge_here.label).drop_last()
                        =~= label_views(before.labels@));
                }
                assert(state.weights@ =~= before.weights@);
                assert(state.nodes@ =~= before.nodes@);
                assert(state.visited@ =~= before.visited@) by {
                    assert(returned.visited@ == before.nodes@.push(target).to_set());
                    lemma_to_set_push(before.nodes@, target);
                }
                assert(start.results@.is_prefix_of(state.results@));
                assert forall|route: Route| lists_route(before.results@, route) implies
                    #[trigger] lists_route(state.results@, route) by {
                    let n = choose|n: int|
                        0 <= n < before.results@.len() && (#[trigger] before.results@[n])@.route
                            == route;
                    assert(state.results@[n] == before.results@[n]);
                }
            }
            if state.truncated {
                return Ok(());
            }
        }
        proof {
            assert forall|j: int, route: Route|
                0 <= j < i + 1 && #[trigger] is_bounded_route(
                    mt@,
                    *config,
                    max_depth as nat,
                    src,
                    dst,
                    route,
                ) && begins_with(
                    route,
                    #[trigger] extended(route_here, views(edges@)[j]),
                ) implies lists_route(state.results@, route) by {
                if j == i {
                    let longer = extended(route_here, edge_here);
                    let at = route_here.nodes.len() - 1;
                    assert(route.nodes[at + 1] == longer.nodes[at + 1]);
                    assert(route.labels[at] == longer.labels[at]);
                    assert(edge_taken(mt@, *config, route, at));
                    assert(!start.nodes@.contains(target)) by {
                        if start.nodes@.contains(target) {
                            let n = choose|n: int|
                                0 <= n < start.nodes@.len() && start.nodes@[n] == target;
                            assert(longer.nodes[n] == start.nodes@[n]);
                            assert(route.nodes[n] == longer.nodes[n]);
                            assert(route.nodes[n] != route.nodes[at + 1]);
                        }
                    }
                } else {
                    assert(lists_route(before.results@, route));
                }
            }
        }
        i += 1;
    }
    proof {
        if enough {
            assert(mt@.edges_of(current).len() <= bound);
            let count = i as nat;
            assert(count * (1 + below) <= bound * (1 + below)) by (nonlinear_arith)
                requires
                    count <= bound,
            ;
        }
        assert forall|route: Route| #[trigger]
            is_bounded_route(mt@, *config, max_depth as nat, src, dst, route) && begins_with(
                route,
                route_here,
            ) implies lists_route(state.results@, route) by {
            if route.nodes.len() == route_here.nodes.len() {
                assert(route.nodes =~= route_here.nodes);
            }
            let k = lemma_next_edge(mt@, *config, src, route_here, route);
            assert(table_edges.contains(table_edges[k]));
            assert(views(edges@).contains(table_edges[k]));
            let j = choose|j: int| 0 <= j < views(edges@).len() && views(edges@)[j]
                == table_edges[k];
            assert(begins_with(route, extended(route_here, views(edges@)[j])));
        }
    }
    Ok(())
}

/// The greatest number of edges of a path: the smaller of both bounds.
pub open spec fn depth_bound(config: BoundedPathConfig, budget: TraversalBudget) -> nat {
    if config.max_depth < budget.max_depth {
        config.max_depth as nat
    } else {
        budget.max_depth as nat
    }
}

/// Whether `result` is what an enumeration gives: an error where a bound of the budget is reached
/// under the `Error` policy, and otherwise the paths found until then, sorted by their nodes.
pub open spec fn is_enumeration<T: VectorType, F: Fn(&Vec<u32>) -> (u32, u32)>(
    table: Table<T>,
    config: BoundedPathConfig,
    budget: TraversalBudget,
    src: NodeId,
    dst: NodeId,
    strength: F,
    result: Result<BoundedPathsOutput>,
) -> bool {
    let max_depth = depth_bound(config, budget);
    let trial = after_route(
        table,
        config,
        budget,
        max_depth,
        dst,
        (Route { nodes: seq![src], weights: Seq::empty(), labels: Seq::empty() }),
        Trial::start(),
    );
    match result {
        Ok(output) => {
            &&& trial.halt matches Some(Halt::Budget(_)) ==> budget.exhaustion_policy
                == BudgetExhaustionPolicy::Partial
            &&& output.truncated == (trial.halt is Some)
            &&& trial.is_measured(output.metrics)
            &&& exists|found: Seq<BoundedPathView>|
                #![trigger routes_of(found)]
                routes_of(found) == trial.found && views(output.paths@) == sorted(
                    found,
                    order_of::<BoundedPath>(),
                ) && forall|i: int|
                    0 <= i < found.len() ==> is_found(
                        table,
                        config,
                        max_depth,
                        src,
                        dst,
                        strength,
                        #[trigger] found[i],
                    )
        },
        Err(error) => {
            &&& trial.is_refusal(error)
            &&& budget.exhaustion_policy == BudgetExhaustionPolicy::Error
        },
    }
}

/// The simple paths from `src` to `dst` that the configuration allows, sorted by their nodes.
///
/// Without truncation all of them are returned. `strength` computes the product and the average
/// of a list of weights.
pub fn bounded_all_paths<T: VectorType, F: Fn(&Vec<u32>) -> (u32, u32)>(
    mt: &MemTable<T>,
    src: NodeId,
    dst: NodeId,
    config: &BoundedPathConfig,
    budget: &TraversalBudget,
    strength: F,
) -> (result: Result<BoundedPathsOutput>)
    requires
        forall|weights: &Vec<u32>| call_requires(strength, (weights,)),
    ensures
        !budget.spec_valid() ==> (result matches Err(error) && is_invalid_input(
            error,
            zero_budget_message(),
        )),
        budget.spec_valid() && !mt@.nodes.contains_key(src) ==> result == Err::<
            BoundedPathsOutput,
            TriviumError,
        >(TriviumError::NodeNotFound(src)),
        budget.spec_valid() && mt@.nodes.contains_key(src) && !mt@.nodes.contains_key(dst)
            ==> result == Err::<BoundedPathsOutput, TriviumError>(TriviumError::NodeNotFound(dst)),
        budget.spec_valid() && mt@.nodes.contains_key(src) && mt@.nodes.contains_key(dst)
            && config.max_paths == 0 ==> (result matches Err(error) && is_invalid_input(
            error,
            "最大路径数必须大于 0 (max_paths must be greater than zero)"@,
        )),
        budget.spec_valid() && mt@.nodes.contains_key(src) && mt@.nodes.contains_key(dst)
            && config.max_paths > 0 ==> {
            let max_depth = depth_bound(*config, *budget);
            result matches Ok(output) ==> {
                &&& forall|i: int|
                    0 <= i < output.paths@.len() ==> is_found(
                        mt@,
                        *config,
                        max_depth,
                        src,
                        dst,
                        strength,
                        (#[trigger] output.paths@[i])@,
                    )
                &&& in_order(views(output.paths@), order_of::<BoundedPath>())
                &&& !output.truncated ==> forall|route: Route| #[trigger]
                    is_bounded_route(mt@, *config, max_depth, src, dst, route) ==> lists_route(
                        output.paths@,
                        route,
                    )
                &&& output.paths@.len() <= config.max_paths
                &&& !output.truncated ==> output.paths@.len() < config.max_paths
                &&& output.truncated ==> budget.exhaustion_policy
                    == BudgetExhaustionPolicy::Partial || output.paths@.len()
                    == config.max_paths
                &&& output.metrics.examined_edges <= budget.max_examined_edges
            }
        },
        budget.spec_valid() && mt@.nodes.contains_key(src) && mt@.nodes.contains_key(dst)
            && config.max_paths > 0 ==> is_enumeration(
            mt@,
            *config,
            *budget,
            src,
            dst,
            strength,
            result,
        ),
        forall|bound: nat|
            budget.spec_valid() && mt@.nodes.contains_key(src) && mt@.nodes.contains_key(dst)
                && config.max_paths > 0 && #[trigger] allows_all(
                mt@,
                *budget,
                depth_bound(*config, *budget),
                bound,
            ) ==> (result matches Ok(output) && (output.truncated ==> output.paths@.len()
                == config.max_paths)),
{
    match budget.validate() {
        Ok(()) => {},
        Err(error) => {
            return Err(error);
        },
    }
    match mt.validate_link(src, dst) {
        Ok(()) => {},
        Err(error) => {
            return Err(error);
        },
    }
    if config.max_paths == 0 {
        return Err(
            invalid_input("最大路径数必须大于 0 (max_paths must be greater than zero)"),
        );
    }
    let max_depth: usize = if config.max_depth < budget.max_depth {
        config.max_depth
    } else {
        budget.max_depth
    };
    let mut visited: HashSet<NodeId> = HashSet::new();
    visited.insert(src);
    let mut nodes: Vec<NodeId> = Vec::new();
    nodes.push(src);
    let mut state = BoundedPathState {
        results: Vec::new(),
        visited,
        nodes,
        weights: Vec::new(),
        labels: Vec::new(),
        metrics: TraversalMetrics {
            visited_nodes: 1,
            examined_edges: 0,
            peak_frontier_size: 1,
            depth_reached: 0,
        },
        truncated: false,
    };
    proof {
        lemma_to_set_push(Seq::<NodeId>::empty(), src);
        assert(Seq::<NodeId>::empty().to_set() =~= Set::<NodeId>::empty());
        assert(label_views(state.labels@) =~= Seq::<Seq<char>>::empty());
        assert(is_route(mt@, *config, src, tried(state)));
        assert(state.nodes@ =~= seq![src]);
        assert(state.weights@ =~= Seq::<u32>::empty());
        assert(routes_of(views(state.results@)) =~= Seq::<Route>::empty());
    }
    let ghost start = tried(state);
    let ghost bound = choose|bound: nat| #[trigger]
        allows_all(mt@, *budget, max_depth as nat, bound);
    match bounded_path_dfs(
        mt,
        dst,
        config,
        budget,
        max_depth,
        &strength,
        &mut state,
        Ghost(src),
        Ghost(bound),
        Ghost(Trial::start()),
    ) {
        Ok(()) => {},
        Err(error) => {
            return Err(error);
        },
    }
    let ghost found = state.results@;
    let paths = sort_items(state.results);
    proof {
        let given = views(found);
        let all = views(paths@);
        law_sorted::<BoundedPath>(given);
        assert forall|i: int| 0 <= i < given.len() implies is_found(
            mt@,
            *config,
            max_depth as nat,
            src,
            dst,
            strength,
            #[trigger] given[i],
        ) by {
            assert(given[i] == found[i]@);
        }
        assert forall|i: int| 0 <= i < paths@.len() implies is_found(
            mt@,
            *config,
            max_depth as nat,
            src,
            dst,
            strength,
            (#[trigger] paths@[i])@,
        ) by {
            assert(all[i] == paths@[i]@);
            assert(all.contains(all[i]));
            lemma_sorted_contains::<BoundedPath>(given, all[i]);
            let n = choose|n: int| 0 <= n < given.len() && given[n] == all[i];
            assert(found[n]@ == paths@[i]@);
        }
        if !state.truncated {
            assert forall|route: Route| #[trigger]
                is_bounded_route(mt@, *config, max_depth as nat, src, dst, route) implies
                lists_route(paths@, route) by {
                assert(begins_with(route, start)) by {
                    assert(start.nodes =~= route.nodes.subrange(0, 1));
                    assert(start.weights =~= route.weights.subrange(0, 0));
                    assert(start.labels =~= route.labels.subrange(0, 0));
                }
                assert(lists_route(found, route));
                let n = choose|n: int| 0 <= n < found.len() && (#[trigger] found[n])@.route == route;
                assert(given[n] == found[n]@);
                assert(given.contains(given[n]));
                lemma_sorted_contains::<BoundedPath>(given, given[n]);
                let i = choose|i: int| 0 <= i < all.len() && all[i] == given[n];
                assert(paths@[i]@ == found[n]@);
            }
        }
    }
    Ok(BoundedPathsOutput { paths, metrics: state.metrics, truncated: state.truncated })
}

} // verus!
