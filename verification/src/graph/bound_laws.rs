//! What the bounds of a traversal promise.
use vstd::prelude::*;

use crate::graph::bounded::{BoundedPathConfig, Route};
use crate::graph::budget::{BudgetDimension, TraversalBudget};
use crate::graph::course::{course_after, is_under_way, results_of, Course, Stop, Way};
use crate::graph::reachability::{ReachabilityConfig, StepView};
use crate::graph::sweep::{deep_count, is_sweeping, sweep_after, Bound, Sweep};
use crate::graph::trial::{after_edges, after_route, extended, may_take, next_edges, Halt, Trial};
use crate::node::NodeId;
use crate::storage::memtable::Table;
use crate::vector::VectorType;

verus! {

/// A bound, which counts as one where it is zero.
pub open spec fn at_least_one(bound: usize) -> int {
    if bound == 0 {
        1
    } else {
        bound as int
    }
}

/// Whether a traversal is within its bounds, and has ended early only where one of them is used up:
/// every step that it may look at has been, every node that it may record, every result that it may
/// report or every place among the waiting nodes.
pub open spec fn is_within_bounds(
    course: Course,
    config: ReachabilityConfig,
    source: NodeId,
) -> bool {
    &&& course.edges <= config.max_edges
    &&& 1 <= course.ways.len() <= at_least_one(config.max_visited_nodes)
    &&& course.results(config, source).len() <= at_least_one(config.max_results)
    &&& course.waiting <= course.peak <= at_least_one(config.max_frontier_size)
    &&& match course.stop {
        None => true,
        Some(Stop::Budget(BudgetDimension::ExaminedEdges)) => course.edges == config.max_edges,
        Some(Stop::Budget(BudgetDimension::VisitedNodes)) => course.ways.len()
            >= config.max_visited_nodes,
        Some(Stop::Budget(BudgetDimension::FrontierSize)) => course.waiting
            >= config.max_frontier_size,
        Some(Stop::Budget(_)) => false,
        Some(Stop::Results) => course.results(config, source).len() >= config.max_results
            && course.ways.len() > 1 && course.ways.last().depth() >= config.min_depth,
    }
}

/// One more way makes at most one more result.
proof fn lemma_one_more_way(config: ReachabilityConfig, source: NodeId, ways: Seq<Way>, way: Way)
    ensures
        results_of(config, source, ways.push(way)).len() == results_of(config, source, ways).len()
            + if way.depth() >= config.min_depth {
            1nat
        } else {
            0nat
        },
{
    assert(ways.push(way).drop_last() =~= ways);
}

/// One step keeps to the bounds.
proof fn lemma_step_within(
    course: Course,
    config: ReachabilityConfig,
    source: NodeId,
    way: Way,
    step: StepView,
    left: nat,
)
    requires
        is_within_bounds(course, config, source),
        course.stop is None ==> course.waiting + left == course.ways.len(),
    ensures
        ({
            let after = course.after_step(config, source, way, step);
            &&& is_within_bounds(after, config, source)
            &&& after.stop is None ==> after.waiting + left == after.ways.len()
        }),
{
    let next = way.then_step(step);
    lemma_one_more_way(config, source, course.ways, next);
    assert(course.ways.push(next).drop_last() =~= course.ways);
    assert(course.ways.push(next).last() == next);
}

/// The steps out of a node keep to the bounds.
proof fn lemma_steps_within(
    course: Course,
    config: ReachabilityConfig,
    source: NodeId,
    way: Way,
    list: Seq<StepView>,
    count: nat,
    left: nat,
)
    requires
        is_within_bounds(course, config, source),
        course.stop is None ==> course.waiting + left == course.ways.len(),
        count <= list.len(),
    ensures
        ({
            let after = course.after_steps(config, source, way, list, count);
            &&& is_within_bounds(after, config, source)
            &&& after.stop is None ==> after.waiting + left == after.ways.len()
        }),
    decreases count,
{
    if count > 0 {
        lemma_steps_within(course, config, source, way, list, (count - 1) as nat, left);
        let before = course.after_steps(config, source, way, list, (count - 1) as nat);
        lemma_step_within(before, config, source, way, list[count - 1], left);
    }
}

/// A traversal never goes beyond its bounds, and one that ends early has used up the bound that it
/// reports.
pub proof fn law_traversals_keep_to_their_bounds<T: VectorType>(
    table: Table<T>,
    config: ReachabilityConfig,
    source: NodeId,
    lists: Seq<Seq<StepView>>,
    count: nat,
)
    requires
        is_under_way(table, config, source, lists),
        count <= lists.len(),
    ensures
        is_within_bounds(course_after(config, source, lists, count), config, source),
        course_after(config, source, lists, count).stop is None ==> course_after(
            config,
            source,
            lists,
            count,
        ).waiting + count == course_after(config, source, lists, count).ways.len(),
    decreases count,
{
    if count == 0 {
        let start = Course::start(source);
        lemma_one_more_way(config, source, Seq::empty(), start.ways[0]);
        assert(Seq::<Way>::empty().push(start.ways[0]) =~= start.ways);
    } else {
        let last = (count - 1) as nat;
        law_traversals_keep_to_their_bounds(table, config, source, lists, last);
        let before = course_after(config, source, lists, last);
        let way = before.ways[last as int];
        let list = lists[last as int];
        assert(before.stop is None);
        assert(last < before.ways.len());
        lemma_steps_within(before.popped(), config, source, way, list, list.len(), count);
    }
}

/// Whether a search without paths is within its bounds, and has ended early only where one of them
/// is used up.
pub open spec fn is_sweep_within(sweep: Sweep, config: ReachabilityConfig) -> bool {
    &&& sweep.edges <= config.max_edges
    &&& 1 <= sweep.found.len() <= at_least_one(config.max_visited_nodes)
    &&& sweep.waiting <= at_least_one(config.max_frontier_size)
    &&& sweep.stop != Some(Bound::Results) ==> deep_count(config, sweep.found) <= at_least_one(
        config.max_results,
    )
    &&& match sweep.stop {
        None => true,
        Some(Bound::Edges) => sweep.edges == config.max_edges,
        Some(Bound::Visits) => sweep.found.len() >= config.max_visited_nodes,
        Some(Bound::Frontier) => sweep.waiting >= config.max_frontier_size,
        Some(Bound::Results) => deep_count(config, sweep.found) > config.max_results
            && deep_count(config, sweep.found) <= at_least_one(config.max_results) + 1,
    }
}

/// One target keeps to the bounds.
proof fn lemma_target_within(
    sweep: Sweep,
    config: ReachabilityConfig,
    depth: nat,
    to: NodeId,
    left: nat,
)
    requires
        is_sweep_within(sweep, config),
        sweep.stop is None ==> sweep.waiting + left == sweep.found.len(),
    ensures
        ({
            let after = sweep.after_target(config, depth, to);
            &&& is_sweep_within(after, config)
            &&& after.stop is None ==> after.waiting + left == after.found.len()
        }),
{
    let found = sweep.found.push((to, depth + 1));
    assert(found.drop_last() =~= sweep.found);
    assert(found.last() == (to, depth + 1));
}

/// The targets of a node keep to the bounds.
proof fn lemma_targets_within(
    sweep: Sweep,
    config: ReachabilityConfig,
    depth: nat,
    targets: Seq<NodeId>,
    count: nat,
    left: nat,
)
    requires
        is_sweep_within(sweep, config),
        sweep.stop is None ==> sweep.waiting + left == sweep.found.len(),
        count <= targets.len(),
    ensures
        ({
            let after = sweep.after_targets(config, depth, targets, count);
            &&& is_sweep_within(after, config)
            &&& after.stop is None ==> after.waiting + left == after.found.len()
        }),
    decreases count,
{
    if count > 0 {
        lemma_targets_within(sweep, config, depth, targets, (count - 1) as nat, left);
        let before = sweep.after_targets(config, depth, targets, (count - 1) as nat);
        lemma_target_within(before, config, depth, targets[count - 1], left);
    }
}

/// A search without paths never goes beyond its bounds, and one that ends early has used up the
/// bound that it reports.
pub proof fn law_sweeps_keep_to_their_bounds<T: VectorType>(
    table: Table<T>,
    config: ReachabilityConfig,
    source: NodeId,
    lists: Seq<Seq<NodeId>>,
    count: nat,
)
    requires
        is_sweeping(table, config, source, lists),
        count <= lists.len(),
    ensures
        is_sweep_within(sweep_after(config, source, lists, count), config),
        sweep_after(config, source, lists, count).stop is None ==> sweep_after(
            config,
            source,
            lists,
            count,
        ).waiting + count == sweep_after(config, source, lists, count).found.len(),
    decreases count,
{
    if count == 0 {
        let start = Sweep::start(source);
        assert(start.found.drop_last() =~= Seq::<(NodeId, nat)>::empty());
        assert(deep_count(config, Seq::empty()) == 0);
        assert(deep_count(config, start.found) <= 1);
    } else {
        let last = (count - 1) as nat;
        law_sweeps_keep_to_their_bounds(table, config, source, lists, last);
        let before = sweep_after(config, source, lists, last);
        let list = lists[last as int];
        assert(before.stop is None);
        assert(last < before.found.len());
        lemma_targets_within(
            before.popped(),
            config,
            before.found[last as int].1,
            list,
            list.len(),
            count,
        );
    }
}

/// Whether an enumeration of paths is within its bounds, and has ended early only where one of them
/// is used up.
pub open spec fn is_trial_within(
    trial: Trial,
    config: BoundedPathConfig,
    budget: TraversalBudget,
) -> bool {
    &&& trial.examined <= budget.max_examined_edges
    &&& 1 <= trial.visited <= at_least_one(budget.max_visited_nodes)
    &&& trial.found.len() <= at_least_one(config.max_paths)
    &&& trial.halt is None ==> trial.found.len() < at_least_one(config.max_paths) && trial.peak
        <= at_least_one(budget.max_frontier_size)
    &&& match trial.halt {
        None => true,
        Some(Halt::Budget(BudgetDimension::ExaminedEdges)) => trial.examined
            == budget.max_examined_edges,
        Some(Halt::Budget(BudgetDimension::VisitedNodes)) => trial.visited
            >= budget.max_visited_nodes,
        Some(Halt::Budget(BudgetDimension::FrontierSize)) => trial.peak > budget.max_frontier_size,
        Some(Halt::Budget(_)) => false,
        Some(Halt::Paths) => trial.found.len() >= config.max_paths,
    }
}

/// An enumeration never goes beyond its bounds, whatever route is tried next: it finds at most as
/// many paths as asked for, looks at at most as many edges and enters at most as many nodes as the
/// budget allows; and one that ends early has used up the bound that it reports.
pub proof fn law_enumerations_keep_to_their_bounds<T: VectorType>(
    table: Table<T>,
    config: BoundedPathConfig,
    budget: TraversalBudget,
    max_depth: nat,
    dst: NodeId,
    route: Route,
    trial: Trial,
)
    requires
        is_trial_within(trial, config, budget),
    ensures
        is_trial_within(
            after_route(table, config, budget, max_depth, dst, route, trial),
            config,
            budget,
        ),
    decreases max_depth + 1 - route.nodes.len(), 1nat, 0nat,
{
    let depth = (route.nodes.len() - 1) as nat;
    let deeper = Trial {
        depth: if trial.depth < depth {
            depth
        } else {
            trial.depth
        },
        ..trial
    };
    let edges = next_edges(table, route);
    let wider = Trial {
        peak: if deeper.peak < edges.len() {
            edges.len()
        } else {
            deeper.peak
        },
        ..deeper
    };
    if trial.halt is None && route.nodes.last() != dst && depth < max_depth && edges.len()
        <= budget.max_frontier_size {
        lemma_edges_within(
            table,
            config,
            budget,
            max_depth,
            dst,
            route,
            wider,
            edges.len(),
        );
    }
}

/// The edges out of a route keep to the bounds.
proof fn lemma_edges_within<T: VectorType>(
    table: Table<T>,
    config: BoundedPathConfig,
    budget: TraversalBudget,
    max_depth: nat,
    dst: NodeId,
    route: Route,
    trial: Trial,
    count: nat,
)
    requires
        is_trial_within(trial, config, budget),
    ensures
        is_trial_within(
            after_edges(table, config, budget, max_depth, dst, route, trial, count),
            config,
            budget,
        ),
    decreases max_depth + 1 - route.nodes.len(), 0nat, count,
{
    if count > 0 && route.nodes.len() <= max_depth {
        let fewer = (count - 1) as nat;
        lemma_edges_within(table, config, budget, max_depth, dst, route, trial, fewer);
        let before = after_edges(table, config, budget, max_depth, dst, route, trial, fewer);
        let edge = next_edges(table, route)[count - 1];
        let looked = Trial { examined: before.examined + 1, ..before };
        if before.halt is None && before.examined < budget.max_examined_edges && may_take(
            config,
            route,
            edge,
        ) && before.visited < budget.max_visited_nodes {
            law_enumerations_keep_to_their_bounds(
                table,
                config,
                budget,
                max_depth,
                dst,
                extended(route, edge),
                (Trial { visited: before.visited + 1, ..looked }),
            );
        }
    }
}

} // verus!
