//! The course of an enumeration of paths under bounds: which routes are tried in which order, and
//! which bound ends it.
use vstd::prelude::*;

use crate::error::TriviumError;
use crate::graph::bounded::{position_allows, BoundedPathConfig, Route};
use crate::graph::budget::{
    is_budget_exceeded, BudgetDimension, TraversalBudget, TraversalMetrics,
};
use crate::node::{Edge, EdgeView, NodeId};
use crate::sorting::{order_of, sorted};
use crate::storage::memtable::Table;
use crate::vector::VectorType;

verus! {

/// What ends an enumeration early: a bound of the budget, or the bound on paths.
pub ghost enum Halt {
    Budget(BudgetDimension),
    Paths,
}

/// How far an enumeration has come: the routes found, in the order in which they were found, and
/// what was used of the budget.
pub ghost struct Trial {
    pub found: Seq<Route>,
    pub visited: nat,
    pub examined: nat,
    pub peak: nat,
    pub depth: nat,
    pub halt: Option<Halt>,
}

impl Trial {
    /// An enumeration that has not begun.
    pub open spec fn start() -> Trial {
        Trial { found: Seq::empty(), visited: 1, examined: 0, peak: 1, depth: 0, halt: None }
    }

    /// Whether `metrics` counts what the enumeration used.
    pub open spec fn is_measured(self, metrics: TraversalMetrics) -> bool {
        &&& metrics.visited_nodes == self.visited
        &&& metrics.examined_edges == self.examined
        &&& metrics.peak_frontier_size == self.peak
        &&& metrics.depth_reached == self.depth
    }

    /// Whether `error` reports the bound of the budget that ended the enumeration.
    pub open spec fn is_refusal(self, error: TriviumError) -> bool {
        self.halt matches Some(Halt::Budget(dimension)) && exists|metrics: TraversalMetrics|
            self.is_measured(metrics) && #[trigger] is_budget_exceeded(error, dimension, metrics)
    }

    /// A bound of the budget ends the enumeration.
    pub open spec fn halted(self, dimension: BudgetDimension) -> Trial {
        Trial { halt: Some(Halt::Budget(dimension)), ..self }
    }
}

/// A route with one more edge.
pub open spec fn extended(route: Route, edge: EdgeView) -> Route {
    Route {
        nodes: route.nodes.push(edge.target),
        weights: route.weights.push(edge.weight),
        labels: route.labels.push(edge.label),
    }
}

/// Whether a route may go on along an edge: its label fits its position, and it leads to a node
/// that is neither forbidden nor on the route.
pub open spec fn may_take(config: BoundedPathConfig, route: Route, edge: EdgeView) -> bool {
    &&& position_allows(config, route.nodes.len() - 1, edge.label)
    &&& !config.forbidden_nodes@.contains(edge.target)
    &&& !route.nodes.contains(edge.target)
}

/// The edges out of the last node of a route, in the order in which they are tried.
pub open spec fn next_edges<T: VectorType>(table: Table<T>, route: Route) -> Seq<EdgeView> {
    sorted(table.edges_of(route.nodes.last()), order_of::<Edge>())
}

/// The enumeration after a route and everything that it can be continued to has been tried. A
/// route that ends at `dst` is found and not continued.
pub open spec fn after_route<T: VectorType>(
    table: Table<T>,
    config: BoundedPathConfig,
    budget: TraversalBudget,
    max_depth: nat,
    dst: NodeId,
    route: Route,
    trial: Trial,
) -> Trial
    decreases max_depth + 1 - route.nodes.len(), 1nat, 0nat,
{
    let depth = (route.nodes.len() - 1) as nat;
    let deeper = Trial {
        depth: if trial.depth < depth {
            depth
        } else {
            trial.depth
        },
        ..trial
    };
    let edges = next_edges(table, route);
    let wider = Trial {
        peak: if deeper.peak < edges.len() {
            edges.len()
        } else {
            deeper.peak
        },
        ..deeper
    };
    if trial.halt is Some {
        trial
    } else if route.nodes.last() == dst {
        Trial {
            found: trial.found.push(route),
            halt: if trial.found.len() + 1 >= config.max_paths {
                Some(Halt::Paths)
            } else {
                None
            },
            ..deeper
        }
    } else if depth >= max_depth {
        deeper
    } else if edges.len() > budget.max_frontier_size {
        wider.halted(BudgetDimension::FrontierSize)
    } else {
        after_edges(table, config, budget, max_depth, dst, route, wider, edges.len())
    }
}

/// The enumeration after the first `count` edges out of the last node of a route have been tried.
pub open spec fn after_edges<T: VectorType>(
    table: Table<T>,
    config: BoundedPathConfig,
    budget: TraversalBudget,
    max_depth: nat,
    dst: NodeId,
    route: Route,
    trial: Trial,
    count: nat,
) -> Trial
    decreases max_depth + 1 - route.nodes.len(), 0nat, count,
{
    if count == 0 || route.nodes.len() > max_depth {
        trial
    } else {
        let before = after_edges(
            table,
            config,
            budget,
            max_depth,
            dst,
            route,
            trial,
            (count - 1) as nat,
        );
        let edge = next_edges(table, route)[count - 1];
        let looked = Trial { examined: before.examined + 1, ..before };
        if before.halt is Some {
            before
        } else if before.examined >= budget.max_examined_edges {
            before.halted(BudgetDimension::ExaminedEdges)
        } else if !may_take(config, route, edge) {
            looked
        } else if before.visited >= budget.max_visited_nodes {
            looked.halted(BudgetDimension::VisitedNodes)
        } else {
            after_route(
                table,
                config,
                budget,
                max_depth,
                dst,
                extended(route, edge),
                (Trial { visited: before.visited + 1, ..looked }),
            )
        }
    }
}

/// Once a bound has ended the enumeration, no further edge changes anything.
pub proof fn lemma_halted<T: VectorType>(
    table: Table<T>,
    config: BoundedPathConfig,
    budget: TraversalBudget,
    max_depth: nat,
    dst: NodeId,
    route: Route,
    trial: Trial,
    count: nat,
    more: nat,
)
    requires
        count <= more,
        after_edges(table, config, budget, max_depth, dst, route, trial, count).halt is Some,
    ensures
        after_edges(table, config, budget, max_depth, dst, route, trial, more) == after_edges(
            table,
            config,
            budget,
            max_depth,
            dst,
            route,
            trial,
            count,
        ),
    decreases more,
{
    if count < more {
        lemma_halted(
            table,
            config,
            budget,
            max_depth,
            dst,
            route,
            trial,
            count,
            (more - 1) as nat,
        );
    }
}

} // verus!
