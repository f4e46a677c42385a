//! One budget for every traversal, and what happens when it runs out.
//!
//! A budget bounds the visited nodes, the examined edges, the size of the frontier and the
//! depth. By default a traversal that runs out of budget fails; only the `Partial` policy
//! lets it return what it has found so far, flagged as truncated.
use vstd::prelude::*;

use crate::error::{invalid_input, is_invalid_input, Result, TriviumError};

verus! {

/// What a traversal does when its budget runs out.
#[derive(Debug, Clone, Copy, PartialEq, Eq, Structural)]
pub enum BudgetExhaustionPolicy {
    /// Fail.
    Error,
    /// Return a truncated result.
    Partial,
}

/// Upper bounds on the work of one traversal.
#[derive(Debug, Clone, Copy, PartialEq, Eq, Structural)]
pub struct TraversalBudget {
    pub max_visited_nodes: usize,
    pub max_examined_edges: usize,
    pub max_frontier_size: usize,
    pub max_depth: usize,
    pub exhaustion_policy: BudgetExhaustionPolicy,
}

impl Default for TraversalBudget {
    fn default() -> (budget: Self)
        ensures
            budget == (TraversalBudget {
                max_visited_nodes: 10_000,
                max_examined_edges: 50_000,
                max_frontier_size: 10_000,
                max_depth: 10,
                exhaustion_policy: BudgetExhaustionPolicy::Error,
            }),
            budget.spec_valid(),
    {
        TraversalBudget {
            max_visited_nodes: 10_000,
            max_examined_edges: 50_000,
            max_frontier_size: 10_000,
            max_depth: 10,
            exhaustion_policy: BudgetExhaustionPolicy::Error,
        }
    }
}

/// Message of the error that `TraversalBudget::validate` gives.
pub open spec fn zero_budget_message() -> Seq<char> {
    "遍历预算必须大于 0 (Traversal budgets must be greater than zero)"@
}

impl TraversalBudget {
    /// A budget is usable when it admits at least one node, one edge and one frontier entry.
    /// A depth bound of zero is allowed.
    pub open spec fn spec_valid(&self) -> bool {
        self.max_visited_nodes > 0 && self.max_examined_edges > 0 && self.max_frontier_size > 0
    }

    /// Rejects a budget that admits no work at all.
    pub fn validate(&self) -> (result: Result<()>)
        ensures
            result is Ok <==> self.spec_valid(),
            result matches Err(error) ==> is_invalid_input(error, zero_budget_message()),
    {
        if self.max_visited_nodes == 0 || self.max_examined_edges == 0 || self.max_frontier_size
            == 0 {
            return Err(
                invalid_input("遍历预算必须大于 0 (Traversal budgets must be greater than zero)"),
            );
        }
        Ok(())
    }
}

/// What a traversal has used of its budget.
#[derive(Debug, Clone, Copy, PartialEq, Eq, Structural)]
pub struct TraversalMetrics {
    pub visited_nodes: usize,
    pub examined_edges: usize,
    pub peak_frontier_size: usize,
    pub depth_reached: usize,
}

impl Default for TraversalMetrics {
    fn default() -> (metrics: Self)
        ensures
            metrics == (TraversalMetrics {
                visited_nodes: 0,
                examined_edges: 0,
                peak_frontier_size: 0,
                depth_reached: 0,
            }),
    {
        TraversalMetrics {
            visited_nodes: 0,
            examined_edges: 0,
            peak_frontier_size: 0,
            depth_reached: 0,
        }
    }
}

/// The four bounds of a budget.
#[derive(Debug, Clone, Copy, PartialEq, Eq, Structural)]
pub enum BudgetDimension {
    VisitedNodes,
    ExaminedEdges,
    FrontierSize,
    Depth,
}

/// Whether `error` reports that `dimension` ran out, with these metrics.
pub open spec fn is_budget_exceeded(
    error: TriviumError,
    dimension: BudgetDimension,
    metrics: TraversalMetrics,
) -> bool {
    error == (TriviumError::TraversalBudgetExceeded {
        dimension,
        visited_nodes: metrics.visited_nodes,
        examined_edges: metrics.examined_edges,
        peak_frontier_size: metrics.peak_frontier_size,
        depth_reached: metrics.depth_reached,
    })
}

/// Decides what happens when one dimension of the budget has run out: under `Partial` the
/// traversal goes on to return a truncated result, under `Error` it fails with the metrics.
pub fn exhausted(
    budget: &TraversalBudget,
    dimension: BudgetDimension,
    metrics: TraversalMetrics,
) -> (result: Result<bool>)
    ensures
        budget.exhaustion_policy == BudgetExhaustionPolicy::Partial ==> result == Ok::<
            bool,
            TriviumError,
        >(true),
        budget.exhaustion_policy == BudgetExhaustionPolicy::Error ==> (result matches Err(error)
            && is_budget_exceeded(error, dimension, metrics)),
{
    match budget.exhaustion_policy {
        BudgetExhaustionPolicy::Partial => Ok(true),
        BudgetExhaustionPolicy::Error => Err(
            TriviumError::TraversalBudgetExceeded {
                dimension,
                visited_nodes: metrics.visited_nodes,
                examined_edges: metrics.examined_edges,
                peak_frontier_size: metrics.peak_frontier_size,
                depth_reached: metrics.depth_reached,
            },
        ),
    }
}

} // verus!
