//! The rounds of a breadth-first search from both ends, and what each costs.
use vstd::prelude::*;

use crate::graph::budget::{BudgetDimension, TraversalBudget, TraversalMetrics};
use crate::graph::walk::{connects, reversed, within, Adjacency};
use crate::node::NodeId;

verus! {

/// The nodes within `level` steps of a root.
pub open spec fn ball(steps: Adjacency, root: NodeId, level: nat) -> Set<NodeId> {
    Set::new(|id: NodeId| within(steps, root, id, level))
}

/// The nodes `level` steps from a root, and no fewer.
pub open spec fn sphere(steps: Adjacency, root: NodeId, level: nat) -> Set<NodeId> {
    Set::new(
        |id: NodeId|
            within(steps, root, id, level) && (level == 0 || !within(
                steps,
                root,
                id,
                (level - 1) as nat,
            )),
    )
}

/// The steps from the nodes at one level.
pub open spec fn level_edges(steps: Adjacency, root: NodeId, level: nat) -> Set<(NodeId, NodeId)> {
    Set::new(
        |edge: (NodeId, NodeId)|
            sphere(steps, root, level).contains(edge.0) && steps(edge.0, edge.1),
    )
}

/// The steps from the nodes below one level.
pub open spec fn edges_below(steps: Adjacency, root: NodeId, level: nat) -> Set<(NodeId, NodeId)> {
    Set::new(
        |edge: (NodeId, NodeId)|
            level > 0 && within(steps, root, edge.0, (level - 1) as nat) && steps(edge.0, edge.1),
    )
}

/// The deepest level up to `level` at which there are nodes.
pub open spec fn deepest(steps: Adjacency, root: NodeId, level: nat) -> nat
    decreases level,
{
    if level == 0 || sphere(steps, root, level).len() > 0 {
        level
    } else {
        deepest(steps, root, (level - 1) as nat)
    }
}

/// Whether a step is taken before another: by its start, then by its end.
pub open spec fn is_earlier(one: (NodeId, NodeId), other: (NodeId, NodeId)) -> bool {
    one.0 < other.0 || (one.0 == other.0 && one.1 < other.1)
}

/// The steps from the nodes at one level that are taken before a given one.
pub open spec fn edges_before(
    steps: Adjacency,
    root: NodeId,
    level: nat,
    edge: (NodeId, NodeId),
) -> Set<(NodeId, NodeId)> {
    Set::new(
        |other: (NodeId, NodeId)|
            level_edges(steps, root, level).contains(other) && is_earlier(other, edge),
    )
}

/// Whether one of the steps leads to a node.
pub open spec fn leads_to(edges: Set<(NodeId, NodeId)>, to: NodeId) -> bool {
    exists|from: NodeId| #[trigger] edges.contains((from, to))
}

/// The nodes beyond `level` that the steps lead to.
pub open spec fn found_by(
    steps: Adjacency,
    root: NodeId,
    level: nat,
    edges: Set<(NodeId, NodeId)>,
) -> Set<NodeId> {
    Set::new(|id: NodeId| !within(steps, root, id, level) && leads_to(edges, id))
}

/// The bound that does not let a step be taken, after what `metrics` counts and the steps of the
/// level that come before it.
pub open spec fn edge_stop(
    budget: TraversalBudget,
    steps: Adjacency,
    root: NodeId,
    level: nat,
    metrics: TraversalMetrics,
    edge: (NodeId, NodeId),
) -> Option<BudgetDimension> {
    let earlier = edges_before(steps, root, level, edge);
    let found = found_by(steps, root, level, earlier);
    if metrics.examined_edges + earlier.len() >= budget.max_examined_edges {
        Some(BudgetDimension::ExaminedEdges)
    } else if !within(steps, root, edge.1, level) && !found.contains(edge.1)
        && metrics.visited_nodes + found.len() >= budget.max_visited_nodes {
        Some(BudgetDimension::VisitedNodes)
    } else {
        None
    }
}

/// Whether every step of a level can be taken.
pub open spec fn level_fits(
    budget: TraversalBudget,
    steps: Adjacency,
    root: NodeId,
    level: nat,
    metrics: TraversalMetrics,
) -> bool {
    forall|edge: (NodeId, NodeId)| #[trigger]
        level_edges(steps, root, level).contains(edge) ==> edge_stop(
            budget,
            steps,
            root,
            level,
            metrics,
            edge,
        ) is None
}

/// Whether `edge` is the first step of a level that cannot be taken, for want of `dimension`, and
/// `last` counts what was used up to it.
pub open spec fn is_cut_at(
    budget: TraversalBudget,
    steps: Adjacency,
    root: NodeId,
    level: nat,
    metrics: TraversalMetrics,
    edge: (NodeId, NodeId),
    dimension: BudgetDimension,
    last: TraversalMetrics,
) -> bool {
    let earlier = edges_before(steps, root, level, edge);
    let found = found_by(steps, root, level, earlier);
    &&& level_edges(steps, root, level).contains(edge)
    &&& edge_stop(budget, steps, root, level, metrics, edge) == Some(dimension)
    &&& forall|other: (NodeId, NodeId)| #[trigger]
        earlier.contains(other) ==> edge_stop(budget, steps, root, level, metrics, other) is None
    &&& last.visited_nodes == metrics.visited_nodes + found.len()
    &&& last.examined_edges == metrics.examined_edges + earlier.len() + (if dimension
        == BudgetDimension::VisitedNodes {
        1int
    } else {
        0
    })
    &&& last.peak_frontier_size == metrics.peak_frontier_size
    &&& last.depth_reached == if found.len() > 0 && metrics.depth_reached < level + 1 {
        level + 1
    } else {
        metrics.depth_reached as nat
    }
}

/// Whether a level is cut short for want of `dimension`, and `last` counts what was used.
pub open spec fn is_cut_short(
    budget: TraversalBudget,
    steps: Adjacency,
    root: NodeId,
    level: nat,
    metrics: TraversalMetrics,
    dimension: BudgetDimension,
    last: TraversalMetrics,
) -> bool {
    exists|edge: (NodeId, NodeId)| #[trigger]
        is_cut_at(budget, steps, root, level, metrics, edge, dimension, last)
}

/// A search from both ends.
pub ghost struct TwoEnds {
    pub steps: Adjacency,
    pub src: NodeId,
    pub dst: NodeId,
}

impl TwoEnds {
    /// The steps of one side.
    pub open spec fn side(self, forward: bool) -> Adjacency {
        if forward {
            self.steps
        } else {
            reversed(self.steps)
        }
    }

    /// Where one side starts.
    pub open spec fn root(self, forward: bool) -> NodeId {
        if forward {
            self.src
        } else {
            self.dst
        }
    }

    /// How deep both sides are after some rounds: each round takes the side with fewer nodes at
    /// its last level one level deeper, and the forward side where there are as many.
    pub open spec fn levels(self, rounds: nat) -> (nat, nat)
        decreases rounds,
    {
        if rounds == 0 {
            (0, 0)
        } else {
            let (forward, backward) = self.levels((rounds - 1) as nat);
            if sphere(self.side(true), self.src, forward).len() <= sphere(
                self.side(false),
                self.dst,
                backward,
            ).len() {
                (forward + 1, backward)
            } else {
                (forward, backward + 1)
            }
        }
    }

    /// How deep one side is after some rounds.
    pub open spec fn level(self, rounds: nat, forward: bool) -> nat {
        if forward {
            self.levels(rounds).0
        } else {
            self.levels(rounds).1
        }
    }

    /// The nodes at the last level of one side.
    pub open spec fn front(self, rounds: nat, forward: bool) -> Set<NodeId> {
        sphere(self.side(forward), self.root(forward), self.level(rounds, forward))
    }

    /// How many nodes both last levels hold.
    pub open spec fn front_size(self, rounds: nat) -> nat {
        self.front(rounds, true).len() + self.front(rounds, false).len()
    }

    /// Whether the forward side comes next.
    pub open spec fn goes_forward(self, rounds: nat) -> bool {
        self.front(rounds, true).len() <= self.front(rounds, false).len()
    }

    /// The most nodes that both last levels have held.
    pub open spec fn peak(self, rounds: nat) -> nat
        decreases rounds,
    {
        if rounds == 0 {
            2
        } else if self.peak((rounds - 1) as nat) < self.front_size(rounds) {
            self.front_size(rounds)
        } else {
            self.peak((rounds - 1) as nat)
        }
    }

    /// Whether `metrics` counts what some complete rounds use.
    pub open spec fn is_measured(self, rounds: nat, metrics: TraversalMetrics) -> bool {
        let (forward, backward) = self.levels(rounds);
        let ahead = deepest(self.side(true), self.src, forward);
        let behind = deepest(self.side(false), self.dst, backward);
        &&& metrics.visited_nodes == ball(self.side(true), self.src, forward).len() + ball(
            self.side(false),
            self.dst,
            backward,
        ).len()
        &&& metrics.examined_edges == edges_below(self.side(true), self.src, forward).len()
            + edges_below(self.side(false), self.dst, backward).len()
        &&& metrics.peak_frontier_size == self.peak(rounds)
        &&& metrics.depth_reached == if ahead < behind {
            behind
        } else {
            ahead
        }
    }

    /// Whether a side has nowhere to go.
    pub open spec fn is_idle(self, rounds: nat) -> bool {
        self.front(rounds, true).len() == 0 || self.front(rounds, false).len() == 0
    }

    /// Whether the budget lets the next round be completed.
    pub open spec fn fits(
        self,
        budget: TraversalBudget,
        rounds: nat,
        metrics: TraversalMetrics,
    ) -> bool {
        let forward = self.goes_forward(rounds);
        level_fits(
            budget,
            self.side(forward),
            self.root(forward),
            self.level(rounds, forward),
            metrics,
        )
    }

    /// Whether the search goes on after some rounds: the ends have not met and can still meet, and
    /// the budget allows for another round.
    pub open spec fn goes_on(self, budget: TraversalBudget, rounds: nat) -> bool {
        &&& !self.is_idle(rounds)
        &&& !within(self.steps, self.src, self.dst, rounds)
        &&& rounds < budget.max_depth
        &&& exists|metrics: TraversalMetrics| #[trigger]
            self.is_measured(rounds, metrics) && self.fits(budget, rounds, metrics)
        &&& self.front_size(rounds + 1) <= budget.max_frontier_size
    }

    /// Whether the search ends in the round after `rounds`, with `last` complete rounds, these
    /// final metrics and, where the budget ran out, the bound that was reached.
    pub open spec fn is_end(
        self,
        budget: TraversalBudget,
        rounds: nat,
        first: TraversalMetrics,
        last: nat,
        metrics: TraversalMetrics,
        stop: Option<BudgetDimension>,
    ) -> bool {
        let forward = self.goes_forward(rounds);
        &&& self.is_measured(rounds, first)
        &&& forall|earlier: nat| earlier < rounds ==> #[trigger] self.goes_on(budget, earlier)
        &&& if self.is_idle(rounds) || within(self.steps, self.src, self.dst, rounds) {
            last == rounds && metrics == first && stop is None
        } else if rounds >= budget.max_depth {
            last == rounds && metrics == first && stop == Some(BudgetDimension::Depth)
        } else if !self.fits(budget, rounds, first) {
            last == rounds && stop is Some && is_cut_short(
                budget,
                self.side(forward),
                self.root(forward),
                self.level(rounds, forward),
                first,
                stop->0,
                metrics,
            )
        } else {
            &&& self.front_size(rounds + 1) > budget.max_frontier_size
            &&& last == rounds + 1
            &&& self.is_measured(last, metrics)
            &&& stop == Some(BudgetDimension::FrontierSize)
        }
    }

    /// Whether `path` is the one that the search picks where both sides meet after `split` steps
    /// from the start: the middle node is the least one, and on either side each node is the least
    /// one from which the next can be reached.
    pub open spec fn is_picked(self, split: nat, path: Seq<NodeId>) -> bool {
        let length = (path.len() - 1) as nat;
        &&& connects(self.steps, path, self.src, self.dst)
        &&& split <= length
        &&& forall|id: NodeId|
            within(self.steps, self.src, id, split) && #[trigger] within(
                reversed(self.steps),
                self.dst,
                id,
                (length - split) as nat,
            ) ==> path[split as int] <= id
        &&& forall|n: int, id: NodeId|
            0 <= n < split && within(self.steps, self.src, id, n as nat) && #[trigger] (self.steps)(
                id,
                path[n + 1],
            ) ==> path[n] <= id
        &&& forall|n: int, id: NodeId|
            split < n <= length && within(
                reversed(self.steps),
                self.dst,
                id,
                (length - n) as nat,
            ) && #[trigger] (self.steps)(path[n - 1], id) ==> path[n] <= id
    }

    /// Whether a path is the answer after some complete rounds: one as long as the rounds where
    /// the ends are that close, and none otherwise.
    pub open spec fn is_answer(self, rounds: nat, path: Option<Vec<NodeId>>) -> bool {
        match path {
            Some(found) => {
                &&& within(self.steps, self.src, self.dst, rounds)
                &&& found@.len() == rounds + 1
                &&& self.is_picked(self.levels(rounds).0, found@)
            },
            None => !within(self.steps, self.src, self.dst, rounds),
        }
    }
}

/// The deepest level is no deeper than the level asked for.
pub proof fn lemma_deepest(steps: Adjacency, root: NodeId, level: nat)
    ensures
        deepest(steps, root, level) <= level,
    decreases level,
{
    if level > 0 && sphere(steps, root, level).len() == 0 {
        lemma_deepest(steps, root, (level - 1) as nat);
    }
}

/// The steps below the next level are those below this one and those from this one.
pub proof fn lemma_edges_below(steps: Adjacency, root: NodeId, level: nat)
    requires
        edges_below(steps, root, level).finite(),
        level_edges(steps, root, level).finite(),
    ensures
        edges_below(steps, root, level + 1).finite(),
        edges_below(steps, root, level + 1).len() == edges_below(steps, root, level).len()
            + level_edges(steps, root, level).len(),
{
    let below = edges_below(steps, root, level);
    let from = level_edges(steps, root, level);
    assert forall|edge: (NodeId, NodeId)|
        edges_below(steps, root, level + 1).contains(edge) <==> below.contains(edge)
            || from.contains(edge) by {
        if level > 0 && within(steps, root, edge.0, (level - 1) as nat) {
            assert(within(steps, root, edge.0, level));
        }
    }
    assert(edges_below(steps, root, level + 1) =~= below.union(from));
    assert(below.disjoint(from));
    vstd::set_lib::lemma_set_disjoint_lens(below, from);
}

impl TwoEnds {
    /// Each round takes one side one level deeper.
    pub proof fn lemma_levels(self, rounds: nat)
        ensures
            self.levels(rounds).0 + self.levels(rounds).1 == rounds,
            self.level(rounds + 1, true) == self.level(rounds, true) + (if self.goes_forward(
                rounds,
            ) {
                1int
            } else {
                0
            }),
            self.level(rounds + 1, false) == self.level(rounds, false) + (if self.goes_forward(
                rounds,
            ) {
                0int
            } else {
                1
            }),
        decreases rounds,
    {
        if rounds > 0 {
            self.lemma_levels((rounds - 1) as nat);
        }
    }

    /// What a complete round adds to the metrics.
    pub proof fn lemma_next_round(
        self,
        rounds: nat,
        first: TraversalMetrics,
        metrics: TraversalMetrics,
    )
        requires
            self.is_measured(rounds, first),
            ({
                let forward = self.goes_forward(rounds);
                let steps = self.side(forward);
                let root = self.root(forward);
                let level = self.level(rounds, forward);
                &&& edges_below(steps, root, level).finite()
                &&& level_edges(steps, root, level).finite()
                &&& metrics.visited_nodes == ball(steps, root, level + 1).len() + ball(
                    self.side(!forward),
                    self.root(!forward),
                    self.level(rounds, !forward),
                ).len()
                &&& metrics.examined_edges == first.examined_edges + level_edges(
                    steps,
                    root,
                    level,
                ).len()
                &&& metrics.depth_reached == if sphere(steps, root, level + 1).len() > 0
                    && first.depth_reached < level + 1 {
                    level + 1
                } else {
                    first.depth_reached as nat
                }
            }),
            metrics.peak_frontier_size == if first.peak_frontier_size < self.front_size(
                rounds + 1,
            ) {
                self.front_size(rounds + 1)
            } else {
                first.peak_frontier_size as nat
            },
        ensures
            self.is_measured(rounds + 1, metrics),
            edges_below(
                self.side(self.goes_forward(rounds)),
                self.root(self.goes_forward(rounds)),
                self.level(rounds, self.goes_forward(rounds)) + 1,
            ).finite(),
    {
        let forward = self.goes_forward(rounds);
        self.lemma_levels(rounds);
        lemma_edges_below(self.side(forward), self.root(forward), self.level(rounds, forward));
        lemma_deepest(self.side(true), self.src, self.level(rounds, true));
        lemma_deepest(self.side(false), self.dst, self.level(rounds, false));
    }
}

/// Whether the steps lead between some nodes, and are among some pairs of them.
pub open spec fn spans(
    steps: Adjacency,
    nodes: Set<NodeId>,
    edges: Set<(NodeId, NodeId)>,
) -> bool {
    &&& nodes.finite()
    &&& edges.finite()
    &&& forall|a: NodeId, b: NodeId| #[trigger]
        steps(a, b) ==> nodes.contains(a) && nodes.contains(b) && edges.contains((a, b))
}

/// The pairs the other way round.
pub open spec fn mirrored(edges: Set<(NodeId, NodeId)>) -> Set<(NodeId, NodeId)> {
    Set::new(|edge: (NodeId, NodeId)| edges.contains((edge.1, edge.0)))
}

/// There are as many pairs the other way round.
proof fn lemma_mirrored(edges: Set<(NodeId, NodeId)>)
    requires
        edges.finite(),
    ensures
        mirrored(edges).finite(),
        mirrored(edges).len() == edges.len(),
    decreases edges.len(),
{
    if edges.len() == 0 {
        assert(edges =~= Set::empty());
        assert(mirrored(edges) =~= Set::empty());
    } else {
        let edge = edges.choose();
        let back = (edge.1, edge.0);
        lemma_mirrored(edges.remove(edge));
        assert(mirrored(edges) =~= mirrored(edges.remove(edge)).insert(back));
    }
}

/// Steps between some nodes span the same nodes the other way round.
proof fn lemma_spans_back(steps: Adjacency, nodes: Set<NodeId>, edges: Set<(NodeId, NodeId)>)
    requires
        spans(steps, nodes, edges),
    ensures
        spans(reversed(steps), nodes, mirrored(edges)),
        mirrored(edges).len() == edges.len(),
{
    lemma_mirrored(edges);
    assert forall|a: NodeId, b: NodeId| #[trigger] reversed(steps)(a, b) implies nodes.contains(a)
        && nodes.contains(b) && mirrored(edges).contains((a, b)) by {
        assert(steps(b, a));
    }
}

/// What can be reached lies among the nodes that the steps span.
proof fn lemma_within_spanned(
    steps: Adjacency,
    nodes: Set<NodeId>,
    edges: Set<(NodeId, NodeId)>,
    root: NodeId,
    id: NodeId,
    level: nat,
)
    requires
        spans(steps, nodes, edges),
        nodes.contains(root),
        within(steps, root, id, level),
    ensures
        nodes.contains(id),
    decreases level,
{
    if level > 0 {
        if within(steps, root, id, (level - 1) as nat) {
            lemma_within_spanned(steps, nodes, edges, root, id, (level - 1) as nat);
        } else {
            let via = choose|via: NodeId|
                within(steps, root, via, (level - 1) as nat) && #[trigger] steps(via, id);
            assert(nodes.contains(id));
        }
    }
}

/// One side never holds more than there is.
proof fn lemma_side_bounds(
    steps: Adjacency,
    nodes: Set<NodeId>,
    edges: Set<(NodeId, NodeId)>,
    root: NodeId,
    level: nat,
)
    requires
        spans(steps, nodes, edges),
        nodes.contains(root),
    ensures
        ball(steps, root, level).finite(),
        ball(steps, root, level).subset_of(nodes),
        ball(steps, root, level).len() <= nodes.len(),
        sphere(steps, root, level).len() <= nodes.len(),
        edges_below(steps, root, level).finite(),
        edges_below(steps, root, level).subset_of(edges),
        edges_below(steps, root, level).len() <= edges.len(),
{
    assert forall|id: NodeId| #[trigger] ball(steps, root, level).contains(id) implies nodes.contains(
        id,
    ) by {
        lemma_within_spanned(steps, nodes, edges, root, id, level);
    }
    assert(sphere(steps, root, level).subset_of(ball(steps, root, level)));
    vstd::set_lib::lemma_len_subset(ball(steps, root, level), nodes);
    vstd::set_lib::lemma_len_subset(sphere(steps, root, level), nodes);
    assert forall|edge: (NodeId, NodeId)| #[trigger]
        edges_below(steps, root, level).contains(edge) implies edges.contains(edge) by {
        assert(steps(edge.0, edge.1));
    }
    vstd::set_lib::lemma_len_subset(edges_below(steps, root, level), edges);
}

/// Where the other side holds no more than there is, a budget of twice what there is lets every
/// step of a level be taken.
proof fn lemma_spanned_level_fits(
    budget: TraversalBudget,
    steps: Adjacency,
    nodes: Set<NodeId>,
    edges: Set<(NodeId, NodeId)>,
    root: NodeId,
    level: nat,
    metrics: TraversalMetrics,
    other_nodes: nat,
    other_edges: nat,
)
    requires
        spans(steps, nodes, edges),
        nodes.contains(root),
        budget.max_visited_nodes >= 2 * nodes.len(),
        budget.max_examined_edges >= 2 * edges.len(),
        other_nodes <= nodes.len(),
        other_edges <= edges.len(),
        metrics.visited_nodes == ball(steps, root, level).len() + other_nodes,
        metrics.examined_edges == edges_below(steps, root, level).len() + other_edges,
    ensures
        level_fits(budget, steps, root, level, metrics),
{
    let reached = ball(steps, root, level);
    let below = edges_below(steps, root, level);
    lemma_side_bounds(steps, nodes, edges, root, level);
    assert forall|edge: (NodeId, NodeId)| #[trigger]
        level_edges(steps, root, level).contains(edge) implies edge_stop(
        budget,
        steps,
        root,
        level,
        metrics,
        edge,
    ) is None by {
        let earlier = edges_before(steps, root, level, edge);
        let found = found_by(steps, root, level, earlier);
        assert(steps(edge.0, edge.1));
        assert forall|other: (NodeId, NodeId)| #[trigger] earlier.contains(other) implies edges.remove(
            edge,
        ).contains(other) by {
            assert(steps(other.0, other.1));
        }
        assert(earlier.subset_of(edges.remove(edge)));
        assert(below.subset_of(edges.remove(edge))) by {
            assert forall|other: (NodeId, NodeId)| #[trigger] below.contains(other) implies
                edges.remove(edge).contains(other) by {
                assert(sphere(steps, root, level).contains(edge.0));
            }
        }
        assert(below.disjoint(earlier)) by {
            assert forall|other: (NodeId, NodeId)| below.contains(other) implies !earlier.contains(
                other,
            ) by {
                if earlier.contains(other) {
                    assert(level_edges(steps, root, level).contains(other));
                    assert(sphere(steps, root, level).contains(other.0));
                }
            }
        }
        vstd::set_lib::lemma_len_subset(earlier, edges.remove(edge));
        vstd::set_lib::lemma_set_disjoint_lens(below, earlier);
        assert((below + earlier).subset_of(edges.remove(edge)));
        vstd::set_lib::lemma_len_subset(below + earlier, edges.remove(edge));
        assert(metrics.examined_edges + earlier.len() < budget.max_examined_edges);
        if !within(steps, root, edge.1, level) && !found.contains(edge.1) {
            let rest = nodes.remove(edge.1);
            assert forall|id: NodeId| #[trigger] found.contains(id) implies rest.contains(id) by {
                let from = choose|from: NodeId| #[trigger] earlier.contains((from, id));
                assert(steps(from, id));
            }
            assert(found.subset_of(rest));
            assert(reached.subset_of(rest));
            assert(reached.disjoint(found));
            vstd::set_lib::lemma_len_subset(found, rest);
            vstd::set_lib::lemma_set_disjoint_lens(reached, found);
            assert((reached + found).subset_of(rest));
            vstd::set_lib::lemma_len_subset(reached + found, rest);
            assert(metrics.visited_nodes + found.len() < budget.max_visited_nodes);
        }
    }
}

impl TwoEnds {
    /// A budget of twice the nodes and twice the edges runs out of nothing but depth.
    pub proof fn lemma_only_depth_runs_out(
        self,
        budget: TraversalBudget,
        nodes: Set<NodeId>,
        edges: Set<(NodeId, NodeId)>,
        rounds: nat,
        first: TraversalMetrics,
        last: nat,
        metrics: TraversalMetrics,
        stop: Option<BudgetDimension>,
    )
        requires
            spans(self.steps, nodes, edges),
            nodes.contains(self.src),
            nodes.contains(self.dst),
            budget.max_visited_nodes >= 2 * nodes.len(),
            budget.max_frontier_size >= 2 * nodes.len(),
            budget.max_examined_edges >= 2 * edges.len(),
            self.is_end(budget, rounds, first, last, metrics, stop),
        ensures
            stop is None || (stop == Some(BudgetDimension::Depth) && last >= budget.max_depth),
    {
        lemma_spans_back(self.steps, nodes, edges);
        let (ahead, behind) = self.levels(rounds);
        let back = mirrored(edges);
        lemma_side_bounds(self.side(true), nodes, edges, self.src, ahead);
        lemma_side_bounds(self.side(false), nodes, back, self.dst, behind);
        if self.goes_forward(rounds) {
            lemma_spanned_level_fits(
                budget,
                self.side(true),
                nodes,
                edges,
                self.src,
                ahead,
                first,
                ball(self.side(false), self.dst, behind).len(),
                edges_below(self.side(false), self.dst, behind).len(),
            );
        } else {
            lemma_spanned_level_fits(
                budget,
                self.side(false),
                nodes,
                back,
                self.dst,
                behind,
                first,
                ball(self.side(true), self.src, ahead).len(),
                edges_below(self.side(true), self.src, ahead).len(),
            );
        }
        assert(self.fits(budget, rounds, first));
        lemma_side_bounds(self.side(true), nodes, edges, self.src, self.level(rounds + 1, true));
        lemma_side_bounds(self.side(false), nodes, back, self.dst, self.level(rounds + 1, false));
        assert(self.front_size(rounds + 1) <= 2 * nodes.len());
    }
}

} // verus!
