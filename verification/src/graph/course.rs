//! The course of a breadth-first traversal under bounds: which node is found by which step, and
//! which bound ends it.
use vstd::prelude::*;

use crate::error::TriviumError;
use crate::graph::budget::{is_budget_exceeded, BudgetDimension, TraversalMetrics};
use crate::graph::reachability::{is_step_list, ReachabilityConfig, ResultView, StepView};
use crate::node::NodeId;
use crate::storage::memtable::Table;
use crate::vector::VectorType;

verus! {

/// The way to a node: the nodes on it, and the steps between them.
pub ghost struct Way {
    pub path: Seq<NodeId>,
    pub steps: Seq<StepView>,
}

impl Way {
    /// The node at the end.
    pub open spec fn node(self) -> NodeId {
        self.path.last()
    }

    /// The number of steps.
    pub open spec fn depth(self) -> nat {
        self.steps.len()
    }

    /// The way with one more step.
    pub open spec fn then_step(self, step: StepView) -> Way {
        Way { path: self.path.push(step.to), steps: self.steps.push(step) }
    }
}

/// What ends a traversal early: a bound of the budget, or the bound on results.
pub ghost enum Stop {
    Budget(BudgetDimension),
    Results,
}

/// How far a traversal has come: the ways to the nodes found, in the order in which they were
/// found, the number of nodes that wait to be expanded, the number of steps looked at, and the
/// greatest number of nodes that have waited.
pub ghost struct Course {
    pub ways: Seq<Way>,
    pub waiting: nat,
    pub edges: nat,
    pub peak: nat,
    pub stop: Option<Stop>,
}

/// Whether a node has been found.
pub open spec fn is_known(ways: Seq<Way>, id: NodeId) -> bool {
    exists|i: int| 0 <= i < ways.len() && (#[trigger] ways[i]).node() == id
}

/// The greatest depth of a node found.
pub open spec fn depth_of(ways: Seq<Way>) -> nat
    decreases ways.len(),
{
    if ways.len() == 0 {
        0
    } else if depth_of(ways.drop_last()) < ways.last().depth() {
        ways.last().depth()
    } else {
        depth_of(ways.drop_last())
    }
}

/// The results that the ways to nodes make: those that are deep enough.
pub open spec fn results_of(
    config: ReachabilityConfig,
    source: NodeId,
    ways: Seq<Way>,
) -> Seq<ResultView>
    decreases ways.len(),
{
    if ways.len() == 0 {
        Seq::empty()
    } else {
        let fewer = results_of(config, source, ways.drop_last());
        let last = ways.last();
        if last.depth() >= config.min_depth {
            fewer.push(
                ResultView {
                    source,
                    target: last.node(),
                    depth: last.depth(),
                    path: last.path,
                    steps: last.steps,
                },
            )
        } else {
            fewer
        }
    }
}

impl Course {
    /// A traversal that has found its source only.
    pub open spec fn start(source: NodeId) -> Course {
        Course {
            ways: seq![Way { path: seq![source], steps: Seq::empty() }],
            waiting: 1,
            edges: 0,
            peak: 1,
            stop: None,
        }
    }

    /// What the traversal reports: a node that the bound on results left no room for is missing.
    pub open spec fn results(self, config: ReachabilityConfig, source: NodeId) -> Seq<ResultView> {
        if self.stop == Some(Stop::Results) {
            results_of(config, source, self.ways.drop_last())
        } else {
            results_of(config, source, self.ways)
        }
    }

    /// Whether `metrics` counts what the traversal used.
    pub open spec fn is_measured(self, metrics: TraversalMetrics) -> bool {
        &&& metrics.visited_nodes == self.ways.len()
        &&& metrics.examined_edges == self.edges
        &&& metrics.peak_frontier_size == self.peak
        &&& metrics.depth_reached == depth_of(self.ways)
    }

    /// Whether `error` reports the bound of the budget that ended the traversal.
    pub open spec fn is_refusal(self, error: TriviumError) -> bool {
        self.stop matches Some(Stop::Budget(dimension)) && exists|metrics: TraversalMetrics|
            self.is_measured(metrics) && #[trigger] is_budget_exceeded(error, dimension, metrics)
    }

    /// One step out of the node at the end of `way`. A bound that is reached ends the traversal: on
    /// steps before the step is looked at, on nodes before a new node is recorded, on results
    /// before it is reported, and on waiting nodes before it is put among them.
    pub open spec fn after_step(
        self,
        config: ReachabilityConfig,
        source: NodeId,
        way: Way,
        step: StepView,
    ) -> Course {
        let next = way.then_step(step);
        let ways = self.ways.push(next);
        if self.stop is Some {
            self
        } else if self.edges >= config.max_edges {
            Course { stop: Some(Stop::Budget(BudgetDimension::ExaminedEdges)), ..self }
        } else if is_known(self.ways, step.to) {
            Course { edges: self.edges + 1, ..self }
        } else if self.ways.len() >= config.max_visited_nodes {
            Course {
                edges: self.edges + 1,
                stop: Some(Stop::Budget(BudgetDimension::VisitedNodes)),
                ..self
            }
        } else if next.depth() >= config.min_depth && results_of(config, source, self.ways).len()
            >= config.max_results {
            Course { ways, edges: self.edges + 1, stop: Some(Stop::Results), ..self }
        } else if self.waiting >= config.max_frontier_size {
            Course {
                ways,
                edges: self.edges + 1,
                stop: Some(Stop::Budget(BudgetDimension::FrontierSize)),
                ..self
            }
        } else {
            Course {
                ways,
                waiting: self.waiting + 1,
                edges: self.edges + 1,
                peak: if self.peak < self.waiting + 1 {
                    self.waiting + 1
                } else {
                    self.peak
                },
                stop: None,
            }
        }
    }

    /// The first `count` steps out of the node at the end of `way`.
    pub open spec fn after_steps(
        self,
        config: ReachabilityConfig,
        source: NodeId,
        way: Way,
        list: Seq<StepView>,
        count: nat,
    ) -> Course
        decreases count,
    {
        if count == 0 {
            self
        } else {
            self.after_steps(config, source, way, list, (count - 1) as nat).after_step(
                config,
                source,
                way,
                list[count - 1],
            )
        }
    }

    /// The next waiting node is taken out.
    pub open spec fn popped(self) -> Course {
        Course { waiting: (self.waiting - 1) as nat, ..self }
    }
}

/// The course after the first `count` nodes found have been expanded along these steps.
pub open spec fn course_after(
    config: ReachabilityConfig,
    source: NodeId,
    lists: Seq<Seq<StepView>>,
    count: nat,
) -> Course
    decreases count,
{
    if count == 0 {
        Course::start(source)
    } else {
        let before = course_after(config, source, lists, (count - 1) as nat);
        before.popped().after_steps(
            config,
            source,
            before.ways[count - 1],
            lists[count - 1],
            lists[count - 1].len(),
        )
    }
}

/// Whether `list` holds the steps to take out of the node at the end of `way`: none from a node
/// at the depth bound, and all in order from any other.
pub open spec fn are_steps_of<T: VectorType>(
    table: Table<T>,
    config: ReachabilityConfig,
    way: Way,
    list: Seq<StepView>,
) -> bool {
    if way.depth() < config.max_depth {
        is_step_list(table, config, way.node(), list)
    } else {
        list.len() == 0
    }
}

/// Whether the first nodes found are expanded in turn along these steps, before any bound ends the
/// traversal.
pub open spec fn is_under_way<T: VectorType>(
    table: Table<T>,
    config: ReachabilityConfig,
    source: NodeId,
    lists: Seq<Seq<StepView>>,
) -> bool {
    forall|k: int|
        0 <= k < lists.len() ==> {
            let before = course_after(config, source, lists, k as nat);
            &&& before.stop is None
            &&& k < before.ways.len()
            &&& are_steps_of(table, config, before.ways[k], #[trigger] lists[k])
        }
}

/// Whether a traversal takes this course: nodes are expanded in the order in which they are found,
/// until a bound is reached or every node found is expanded.
pub open spec fn is_course<T: VectorType>(
    table: Table<T>,
    config: ReachabilityConfig,
    source: NodeId,
    course: Course,
) -> bool {
    exists|lists: Seq<Seq<StepView>>| #[trigger]
        is_under_way(table, config, source, lists) && course == course_after(
            config,
            source,
            lists,
            lists.len(),
        ) && (course.stop is Some || course.ways.len() == lists.len())
}

/// Once a bound is reached, no step changes anything.
pub proof fn lemma_stopped(
    course: Course,
    config: ReachabilityConfig,
    source: NodeId,
    way: Way,
    list: Seq<StepView>,
    count: nat,
    more: nat,
)
    requires
        count <= more,
        course.after_steps(config, source, way, list, count).stop is Some,
    ensures
        course.after_steps(config, source, way, list, more) == course.after_steps(
            config,
            source,
            way,
            list,
            count,
        ),
    decreases more,
{
    if count < more {
        lemma_stopped(course, config, source, way, list, count, (more - 1) as nat);
    }
}

/// One more list of steps does not change the course before it.
pub proof fn lemma_course_prefix(
    config: ReachabilityConfig,
    source: NodeId,
    lists: Seq<Seq<StepView>>,
    list: Seq<StepView>,
    count: nat,
)
    requires
        count <= lists.len(),
    ensures
        course_after(config, source, lists.push(list), count) == course_after(
            config,
            source,
            lists,
            count,
        ),
    decreases count,
{
    if count > 0 {
        lemma_course_prefix(config, source, lists, list, (count - 1) as nat);
    }
}

/// One more node is expanded.
#[verifier::spinoff_prover]
#[verifier::rlimit(50)]
pub proof fn lemma_under_way<T: VectorType>(
    table: Table<T>,
    config: ReachabilityConfig,
    source: NodeId,
    lists: Seq<Seq<StepView>>,
    list: Seq<StepView>,
)
    requires
        is_under_way(table, config, source, lists),
        course_after(config, source, lists, lists.len()).stop is None,
        lists.len() < course_after(config, source, lists, lists.len()).ways.len(),
        are_steps_of(
            table,
            config,
            course_after(config, source, lists, lists.len()).ways[lists.len() as int],
            list,
        ),
    ensures
        is_under_way(table, config, source, lists.push(list)),
        ({
            let before = course_after(config, source, lists, lists.len());
            course_after(config, source, lists.push(list), lists.len() + 1)
                == before.popped().after_steps(
                config,
                source,
                before.ways[lists.len() as int],
                list,
                list.len(),
            )
        }),
{
    let more = lists.push(list);
    lemma_course_prefix(config, source, lists, list, lists.len());
    assert forall|k: int| 0 <= k < more.len() implies {
        let before = course_after(config, source, more, k as nat);
        &&& before.stop is None
        &&& k < before.ways.len()
        &&& are_steps_of(table, config, before.ways[k], #[trigger] more[k])
    } by {
        lemma_course_prefix(config, source, lists, list, k as nat);
        assert(course_after(config, source, more, k as nat) == course_after(
            config,
            source,
            lists,
            k as nat,
        ));
        if k < lists.len() {
            assert(more[k] == lists[k]);
        } else {
            assert(more[k] == list);
        }
    }
    assert(more[lists.len() as int] == list);
}

/// What one more way adds.
pub proof fn lemma_way_found(
    config: ReachabilityConfig,
    source: NodeId,
    ways: Seq<Way>,
    way: Way,
)
    ensures
        depth_of(ways.push(way)) == if depth_of(ways) < way.depth() {
            way.depth()
        } else {
            depth_of(ways)
        },
        results_of(config, source, ways.push(way)) == if way.depth() >= config.min_depth {
            results_of(config, source, ways).push(
                ResultView {
                    source,
                    target: way.node(),
                    depth: way.depth(),
                    path: way.path,
                    steps: way.steps,
                },
            )
        } else {
            results_of(config, source, ways)
        },
        forall|id: NodeId| #[trigger]
            is_known(ways.push(way), id) <==> is_known(ways, id) || id == way.node(),
{
    let more = ways.push(way);
    assert(more.drop_last() =~= ways);
    assert forall|id: NodeId| #[trigger] is_known(more, id) <==> is_known(ways, id) || id
        == way.node() by {
        if is_known(ways, id) {
            let i = choose|i: int| 0 <= i < ways.len() && (#[trigger] ways[i]).node() == id;
            assert(more[i].node() == id);
        }
        assert(more[ways.len() as int] == way);
        if is_known(more, id) && id != way.node() {
            let i = choose|i: int| 0 <= i < more.len() && (#[trigger] more[i]).node() == id;
            assert(ways[i].node() == id);
        }
    }
}

} // verus!
