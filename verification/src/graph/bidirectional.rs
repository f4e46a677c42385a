//! Shortest paths by a breadth-first search from both ends.
use std::collections::HashMap;
use vstd::prelude::*;

use crate::collections::{increasing, lemma_increasing_distinct, sort_dedup};
use crate::error::{is_invalid_input, Result, TriviumError};
use crate::graph::budget::{
    exhausted, is_budget_exceeded, zero_budget_message, BudgetDimension, BudgetExhaustionPolicy,
    TraversalBudget, TraversalMetrics,
};
use crate::graph::pathfinding::{
    edge_allowed, is_shortest_answer, is_shortest_path, law_neighborhood_matches_shortest_path, Path,
};
use crate::graph::rounds::{
    ball, edge_stop, edges_before, edges_below, found_by, is_cut_at, is_cut_short, leads_to,
    level_edges, level_fits, spans, sphere, TwoEnds,
};
use crate::graph::walk::{
    closed_below, connects, has_edge, is_walk, label_fits, law_walk_bounds_distance,
    lemma_closed_below, lemma_walk_push, lemma_within_concat, lemma_within_grows, lemma_within_step, outgoing, reversed,
    step_at, within, Adjacency,
};
use crate::node::{edge_views, NodeId};
use crate::storage::memtable::{incoming_of, is_listed, label_view, MemTable, Table};
use crate::vector::VectorType;

verus! {

/// Outcome of a shortest path query.
#[derive(Debug)]
pub struct ShortestPathOutput {
    pub path: Option<Path>,
    pub metrics: TraversalMetrics,
    pub truncated: bool,
    pub bidirectional: bool,
}

/// What one side of the search has reached: depth and predecessor of each node.
pub type Reached = HashMap<NodeId, (usize, Option<NodeId>)>;

/// The depths that one side has recorded.
pub open spec fn reached_depths(reached: Map<NodeId, (usize, Option<NodeId>)>) -> Map<NodeId, nat> {
    reached.map_values(|entry: (usize, Option<NodeId>)| entry.0 as nat)
}

/// Whether the predecessors form a tree of steps with this root.
pub open spec fn is_tree(
    adjacency: Adjacency,
    root: NodeId,
    reached: Map<NodeId, (usize, Option<NodeId>)>,
) -> bool {
    &&& reached.contains_key(root)
    &&& reached[root] == (0usize, None::<NodeId>)
    &&& forall|id: NodeId| #[trigger]
        reached.contains_key(id) && id != root ==> (reached[id].1 matches Some(parent)
            && reached.contains_key(parent) && reached[id].0 == reached[parent].0 + 1 && adjacency(
            parent,
            id,
        ))
}

/// The steps that one side of the search takes.
pub open spec fn side_steps<T: VectorType>(
    table: Table<T>,
    label: Option<Seq<char>>,
    forward: bool,
) -> Adjacency {
    if forward {
        outgoing(table, label)
    } else {
        reversed(outgoing(table, label))
    }
}

/// The recorded depth of a node is the length of a walk to it.
proof fn lemma_tree_within(
    adjacency: Adjacency,
    root: NodeId,
    reached: Map<NodeId, (usize, Option<NodeId>)>,
    id: NodeId,
)
    requires
        is_tree(adjacency, root, reached),
        reached.contains_key(id),
    ensures
        within(adjacency, root, id, reached[id].0 as nat),
    decreases reached[id].0,
{
    if id != root {
        let parent = reached[id].1->0;
        lemma_tree_within(adjacency, root, reached, parent);
        lemma_within_step(adjacency, root, parent, id, reached[parent].0 as nat);
    }
}

/// The nodes one step away, in ascending order.
fn step_targets<T: VectorType>(
    mt: &MemTable<T>,
    current: NodeId,
    forward: bool,
    label_filter: Option<&str>,
) -> (targets: Vec<NodeId>)
    requires
        mt.inv(),
    ensures
        increasing(targets@),
        forall|to: NodeId| #[trigger]
            targets@.contains(to) <==> side_steps(mt@, label_view(label_filter), forward)(
                current,
                to,
            ),
        targets@.to_set().subset_of(mt@.nodes.dom()),
{
    let ghost label = label_view(label_filter);
    let ghost steps = side_steps(mt@, label, forward);
    let mut found: Vec<NodeId> = Vec::new();
    proof {
        mt.lemma_inv();
    }
    if forward {
        match mt.get_edges(current) {
            None => {
                assert(mt@.edges_of(current).len() == 0);
            },
            Some(edges) => {
                let mut i: usize = 0;
                while i < edges.len()
                    invariant
                        i <= edges@.len(),
                        forward,
                        label == label_view(label_filter),
                        steps == side_steps(mt@, label, forward),
                        mt@.nodes.contains_key(current),
                        edge_views(edges@) == mt@.edges_of(current),
                        forall|n: int| 0 <= n < found@.len() ==> steps(current, #[trigger] found@[n]),
                        forall|j: int|
                            0 <= j < i && label_fits(label, #[trigger] mt@.edges_of(current)[j])
                                ==> found@.contains(mt@.edges_of(current)[j].target),
                    decreases edges@.len() - i,
                {
                    let ghost before = found@;
                    assert(edges@[i as int]@ == mt@.edges_of(current)[i as int]);
                    if edge_allowed(&edges[i], label_filter) {
                        found.push(edges[i].target_id);
                        assert(has_edge(mt@, label, current, edges@[i as int].target_id));
                        assert(found@[before.len() as int] == edges@[i as int].target_id);
                    }
                    proof {
                        assert forall|id: NodeId| before.contains(id) implies found@.contains(
                            id,
                        ) by {
                            let n = choose|n: int| 0 <= n < before.len() && before[n] == id;
                            assert(found@[n] == id);
                        }
                    }
                    i += 1;
                }
                proof {
                    assert forall|to: NodeId| steps(current, to) implies found@.contains(to) by {
                        assert(has_edge(mt@, label, current, to));
                        let j = choose|j: int|
                            0 <= j < mt@.edges_of(current).len() && (
                            #[trigger] mt@.edges_of(current)[j]).target == to && label_fits(
                                label,
                                mt@.edges_of(current)[j],
                            );
                        assert(found@.contains(mt@.edges_of(current)[j].target));
                    }
                }
            },
        }
    } else {
        let incoming = mt.get_incoming_edges(current, label_filter);
        let mut i: usize = 0;
        while i < incoming.len()
            invariant
                i <= incoming@.len(),
                found@.len() == i,
                forall|n: int| 0 <= n < i ==> found@[n] == (#[trigger] incoming@[n]).source_id,
            decreases incoming@.len() - i,
        {
            found.push(incoming[i].source_id);
            i += 1;
        }
        proof {
            assert forall|n: int| 0 <= n < found@.len() implies steps(
                current,
                #[trigger] found@[n],
            ) by {
                let edge = incoming@[n]@;
                assert(mt@.is_incoming(current, label, edge));
                let m = choose|m: int|
                    0 <= m < mt@.nodes[edge.source].edges.len() && #[trigger] incoming_of(
                        edge.source,
                        mt@.nodes[edge.source].edges[m],
                    ) == edge && mt@.nodes[edge.source].edges[m].target == current;
                assert(mt@.edges_of(edge.source)[m].target == current);
                assert(label_fits(label, mt@.edges_of(edge.source)[m]));
                assert(has_edge(mt@, label, edge.source, current));
            }
            assert forall|to: NodeId| steps(current, to) implies found@.contains(to) by {
                assert(has_edge(mt@, label, to, current));
                let j = choose|j: int|
                    0 <= j < mt@.edges_of(to).len() && (#[trigger] mt@.edges_of(to)[j]).target
                        == current && label_fits(label, mt@.edges_of(to)[j]);
                let edge = incoming_of(to, mt@.edges_of(to)[j]);
                assert(mt@.nodes.contains_key(to));
                assert(mt@.nodes[edge.source].edges[j].target == current);
                assert(incoming_of(edge.source, mt@.nodes[edge.source].edges[j]) == edge);
                assert(mt@.is_incoming(current, label, edge));
                assert(is_listed(incoming@, edge));
                let n = choose|n: int| 0 <= n < incoming@.len() && (#[trigger] incoming@[n])@ == edge;
                assert(found@[n] == to);
            }
        }
    }
    let targets = sort_dedup(&found);
    proof {
        assert forall|to: NodeId| #[trigger] targets@.contains(to) <==> steps(current, to) by {
            if found@.contains(to) {
                let n = choose|n: int| 0 <= n < found@.len() && found@[n] == to;
                assert(steps(current, found@[n]));
            }
        }
        assert forall|to: NodeId| targets@.to_set().contains(to) implies mt@.nodes.contains_key(
            to,
        ) by {
            assert(targets@.contains(to));
            if forward {
                assert(has_edge(mt@, label, current, to));
                let j = choose|j: int|
                    0 <= j < mt@.edges_of(current).len() && (
                    #[trigger] mt@.edges_of(current)[j]).target == to && label_fits(
                        label,
                        mt@.edges_of(current)[j],
                    );
                assert(mt@.nodes[current].edges[j].target == to);
            } else {
                assert(has_edge(mt@, label, to, current));
            }
        }
    }
    targets
}

/// Whether each node has the least predecessor at the level above it.
pub open spec fn least_parents(
    steps: Adjacency,
    root: NodeId,
    reached: Map<NodeId, (usize, Option<NodeId>)>,
) -> bool {
    forall|from: NodeId, id: NodeId|
        reached.contains_key(id) && id != root && reached.contains_key(from) && reached[from].0 + 1
            == reached[id].0 && #[trigger] steps(from, id) ==> reached[id].1->0 <= from
}

/// What holds of one side between two levels: the tree is complete up to `level`, and the
/// frontier lists the nodes at that level.
pub open spec fn side_at(
    steps: Adjacency,
    root: NodeId,
    reached: Map<NodeId, (usize, Option<NodeId>)>,
    level: nat,
    frontier: Seq<NodeId>,
) -> bool {
    &&& is_tree(steps, root, reached)
    &&& least_parents(steps, root, reached)
    &&& reached.dom().finite()
    &&& forall|id: NodeId| #[trigger] reached.contains_key(id) ==> reached[id].0 <= level
    &&& closed_below(steps, reached_depths(reached), level)
    &&& forall|id: NodeId| #[trigger]
        frontier.contains(id) <==> reached.contains_key(id) && reached[id].0 == level
}

/// Whether `error` says that the budget ran out, with metrics that show it.
pub open spec fn ran_out(budget: TraversalBudget, error: TriviumError) -> bool {
    budget.exhaustion_policy == BudgetExhaustionPolicy::Error && exists|
        dimension: BudgetDimension,
        metrics: TraversalMetrics,
    | #[trigger]
        is_budget_exceeded(error, dimension, metrics) && match dimension {
            BudgetDimension::ExaminedEdges => metrics.examined_edges >= budget.max_examined_edges,
            BudgetDimension::VisitedNodes => metrics.visited_nodes >= budget.max_visited_nodes,
            BudgetDimension::FrontierSize => metrics.peak_frontier_size >= budget.max_frontier_size,
            BudgetDimension::Depth => true,
        }
}

/// A level that was expanded completely: the nodes found, and those that the other side knows.
struct Level {
    next: Vec<NodeId>,
    meeting: Vec<NodeId>,
}

/// Expands one level of one side. `None` means that the budget ran out and the result is to be
/// truncated.
#[verifier::spinoff_prover]
#[verifier::rlimit(40)]
fn expand_level<T: VectorType>(
    mt: &MemTable<T>,
    forward: bool,
    label_filter: Option<&str>,
    budget: &TraversalBudget,
    own: &mut Reached,
    other: &Reached,
    frontier: &Vec<NodeId>,
    level: usize,
    metrics: &mut TraversalMetrics,
    Ghost(root): Ghost<NodeId>,
) -> (result: Result<Option<Level>>)
    requires
        mt.inv(),
        level < usize::MAX,
        side_at(
            side_steps(mt@, label_view(label_filter), forward),
            root,
            old(own)@,
            level as nat,
            frontier@,
        ),
        increasing(frontier@),
        old(own)@.dom().subset_of(mt@.nodes.dom()),
        old(metrics).visited_nodes == old(own)@.dom().len() + other@.dom().len(),
        old(metrics).examined_edges <= budget.max_examined_edges,
    ensures
        final(own)@.dom().subset_of(mt@.nodes.dom()),
        is_tree(
            side_steps(mt@, label_view(label_filter), forward),
            root,
            final(own)@,
        ),
        final(metrics).examined_edges <= budget.max_examined_edges,
        match result {
            Ok(Some(found)) => {
                &&& side_at(
                    side_steps(mt@, label_view(label_filter), forward),
                    root,
                    final(own)@,
                    (level + 1) as nat,
                    found.next@,
                )
                &&& found.next@.no_duplicates()
                &&& found.next@.len() == final(own)@.dom().len() - old(own)@.dom().len()
                &&& forall|id: NodeId| #[trigger]
                    found.meeting@.contains(id) ==> final(own)@.contains_key(id)
                        && other@.contains_key(id)
                &&& forall|id: NodeId| #[trigger]
                    final(own)@.contains_key(id) && other@.contains_key(id) ==> old(
                        own,
                    )@.contains_key(id) || found.meeting@.contains(id)
                &&& final(metrics).visited_nodes == final(own)@.dom().len() + other@.dom().len()
                &&& final(metrics).examined_edges <= old(metrics).examined_edges + frontier@.len()
                    * mt@.nodes.dom().len()
                &&& is_level_taken(
                    *budget,
                    side_steps(mt@, label_view(label_filter), forward),
                    root,
                    level as nat,
                    *old(metrics),
                    found.next@.len(),
                    *final(metrics),
                )
            },
            Ok(None) => {
                &&& exists|dimension: BudgetDimension| #[trigger]
                    is_cut_short(
                        *budget,
                        side_steps(mt@, label_view(label_filter), forward),
                        root,
                        level as nat,
                        *old(metrics),
                        dimension,
                        *final(metrics),
                    )
                &&& budget.exhaustion_policy == BudgetExhaustionPolicy::Partial
                &&& level_too_large(
                    *budget,
                    mt@.nodes.dom().len(),
                    *old(metrics),
                    frontier@.len(),
                    final(own)@.dom().len(),
                    other@.dom().len(),
                )
            },
            Err(error) => {
                &&& budget.exhaustion_policy == BudgetExhaustionPolicy::Error
                &&& exists|dimension: BudgetDimension|
                    is_budget_exceeded(error, dimension, *final(metrics))
                        && #[trigger] is_cut_short(
                        *budget,
                        side_steps(mt@, label_view(label_filter), forward),
                        root,
                        level as nat,
                        *old(metrics),
                        dimension,
                        *final(metrics),
                    )
                &&& ran_out(*budget, error)
                &&& !is_depth_error(error)
                &&& level_too_large(
                    *budget,
                    mt@.nodes.dom().len(),
                    *old(metrics),
                    frontier@.len(),
                    final(own)@.dom().len(),
                    other@.dom().len(),
                )
            },
        },
{
    let ghost steps = side_steps(mt@, label_view(label_filter), forward);
    let ghost start = own@;
    let ghost first = *metrics;
    let ghost count = mt@.nodes.dom().len();
    let mut next: Vec<NodeId> = Vec::new();
    let mut meeting: Vec<NodeId> = Vec::new();
    let ghost mut taken: Set<(NodeId, NodeId)> = Set::empty();
    proof {
        mt.lemma_inv();
        lemma_side_ball(steps, root, own@, level as nat, frontier@);
        assert(frontier@.take(0) =~= Seq::<NodeId>::empty());
        assert(Seq::<NodeId>::empty().take(0) =~= Seq::<NodeId>::empty());
        assert(is_progress(steps, frontier@, 0, Seq::empty(), 0, taken));
        assert(is_found(*budget, steps, root, level as nat, first, start, own@, taken));
    }
    let mut i: usize = 0;
    while i < frontier.len()
        invariant
            i <= frontier@.len(),
            mt.inv(),
            mt@.nodes.dom().finite(),
            level < usize::MAX,
            steps == side_steps(mt@, label_view(label_filter), forward),
            start == old(own)@,
            first == *old(metrics),
            count == mt@.nodes.dom().len(),
            side_at(steps, root, start, level as nat, frontier@),
            expanding(steps, root, start, own@, level as nat, next@, meeting@, other@),
            own@.dom().subset_of(mt@.nodes.dom()),
            metrics.visited_nodes == own@.dom().len() + other@.dom().len(),
            metrics.examined_edges <= budget.max_examined_edges,
            metrics.examined_edges <= first.examined_edges + i * count,
            metrics.peak_frontier_size == first.peak_frontier_size,
            is_progress(steps, frontier@, i as int, Seq::empty(), 0, taken),
            increasing(frontier@),
            start.dom() == ball(steps, root, level as nat),
            forall|id: NodeId| #[trigger]
                frontier@.contains(id) <==> sphere(steps, root, level as nat).contains(id),
            is_found(*budget, steps, root, level as nat, first, start, own@, taken),
            metrics.examined_edges == first.examined_edges + taken.len(),
            metrics.visited_nodes == first.visited_nodes + own@.dom().len() - start.dom().len(),
            is_depth_after(level as nat, first, next@.len(), *metrics),
            forall|n: int, to: NodeId|
                0 <= n < i && #[trigger] steps(frontier@[n], to) ==> own@.contains_key(to),
        decreases frontier@.len() - i,
    {
        let current: NodeId = frontier[i];
        let targets = step_targets(mt, current, forward, label_filter);
        proof {
            assert(frontier@.contains(current));
            lemma_increasing_distinct(targets@);
            targets@.unique_seq_to_set();
            vstd::set_lib::lemma_len_subset(targets@.to_set(), mt@.nodes.dom());
            assert(targets@.len() <= count);
            assert((i + 1) * count == i * count + count) by (nonlinear_arith);
            assert((i + 1) * count <= frontier@.len() * count) by (nonlinear_arith)
                requires
                    i + 1 <= frontier@.len(),
            ;
        }
        assert(is_progress(steps, frontier@, i as int, targets@, 0, taken)) by {
            assert(targets@.take(0) =~= Seq::<NodeId>::empty());
        }
        let mut j: usize = 0;
        while j < targets.len()
            invariant
                j <= targets@.len(),
                i < frontier@.len(),
                current == frontier@[i as int],
                targets@.len() <= count,
                mt@.nodes.dom().finite(),
                (i + 1) * count == i * count + count,
                (i + 1) * count <= frontier@.len() * count,
                level < usize::MAX,
                steps == side_steps(mt@, label_view(label_filter), forward),
                start == old(own)@,
                first == *old(metrics),
                count == mt@.nodes.dom().len(),
                start.contains_key(current),
                start[current].0 == level,
                side_at(steps, root, start, level as nat, frontier@),
                expanding(steps, root, start, own@, level as nat, next@, meeting@, other@),
                own@.dom().subset_of(mt@.nodes.dom()),
                targets@.to_set().subset_of(mt@.nodes.dom()),
                metrics.visited_nodes == own@.dom().len() + other@.dom().len(),
                metrics.examined_edges <= budget.max_examined_edges,
                metrics.examined_edges <= first.examined_edges + i * count + j,
                metrics.peak_frontier_size == first.peak_frontier_size,
                increasing(targets@),
                is_progress(steps, frontier@, i as int, targets@, j as int, taken),
                increasing(frontier@),
                start.dom() == ball(steps, root, level as nat),
                forall|id: NodeId| #[trigger]
                    frontier@.contains(id) <==> sphere(steps, root, level as nat).contains(id),
                is_found(*budget, steps, root, level as nat, first, start, own@, taken),
                metrics.examined_edges == first.examined_edges + taken.len(),
                metrics.visited_nodes == first.visited_nodes + own@.dom().len() - start.dom().len(),
                is_depth_after(level as nat, first, next@.len(), *metrics),
                forall|to: NodeId| #[trigger] targets@.contains(to) <==> steps(current, to),
                forall|n: int, to: NodeId|
                    0 <= n < i && #[trigger] steps(frontier@[n], to) ==> own@.contains_key(to),
                forall|n: int| 0 <= n < j ==> own@.contains_key(#[trigger] targets@[n]),
            decreases targets@.len() - j,
        {
            let neighbor: NodeId = targets[j];
            assert(targets@.contains(neighbor));
            assert(targets@.to_set().contains(neighbor));
            let ghost edge = (current, neighbor);
            let ghost earlier = taken;
            proof {
                lemma_progress(
                    steps,
                    root,
                    level as nat,
                    frontier@,
                    i as int,
                    targets@,
                    j as int,
                    taken,
                );
                lemma_edge_stop(
                    *budget,
                    steps,
                    root,
                    level as nat,
                    first,
                    start,
                    own@,
                    taken,
                    edge,
                );
            }
            if metrics.examined_edges >= budget.max_examined_edges {
                assert(is_cut_at(
                    *budget,
                    steps,
                    root,
                    level as nat,
                    first,
                    edge,
                    BudgetDimension::ExaminedEdges,
                    *metrics,
                ));
                assert(is_cut_short(
                    *budget,
                    steps,
                    root,
                    level as nat,
                    first,
                    BudgetDimension::ExaminedEdges,
                    *metrics,
                ));
                return match exhausted(budget, BudgetDimension::ExaminedEdges, *metrics) {
                    Ok(_) => Ok(None),
                    Err(error) => {
                        assert(is_budget_exceeded(
                            error,
                            BudgetDimension::ExaminedEdges,
                            *metrics,
                        ));
                        Err(error)
                    },
                };
            }
            metrics.examined_edges = metrics.examined_edges + 1;
            let ghost held = own@;
            let ghost listed = next@;
            if !own.contains_key(&neighbor) {
                if metrics.visited_nodes >= budget.max_visited_nodes {
                    proof {
                        assert(own@.dom().insert(neighbor).subset_of(mt@.nodes.dom()));
                        vstd::set_lib::lemma_len_subset(
                            own@.dom().insert(neighbor),
                            mt@.nodes.dom(),
                        );
                    }
                    assert(is_cut_at(
                        *budget,
                        steps,
                        root,
                        level as nat,
                        first,
                        edge,
                        BudgetDimension::VisitedNodes,
                        *metrics,
                    ));
                    assert(is_cut_short(
                        *budget,
                        steps,
                        root,
                        level as nat,
                        first,
                        BudgetDimension::VisitedNodes,
                        *metrics,
                    ));
                    return match exhausted(budget, BudgetDimension::VisitedNodes, *metrics) {
                        Ok(_) => Ok(None),
                        Err(error) => {
                            assert(is_budget_exceeded(
                                error,
                                BudgetDimension::VisitedNodes,
                                *metrics,
                            ));
                            Err(error)
                        },
                    };
                }
                own.insert(neighbor, (level + 1, Some(current)));
                metrics.visited_nodes = metrics.visited_nodes + 1;
                if metrics.depth_reached < level + 1 {
                    metrics.depth_reached = level + 1;
                }
                next.push(neighbor);
                proof {
                    assert(own@.dom() =~= held.dom().insert(neighbor));
                    assert(!start.contains_key(neighbor));
                    assert(held.contains_key(current)) by {
                        assert(start.contains_key(current));
                    }
                    assert(next@[listed.len() as int] == neighbor);
                    assert(is_tree(steps, root, own@)) by {
                        assert forall|id: NodeId| #[trigger]
                            own@.contains_key(id) && id != root implies (
                        own@[id].1 matches Some(parent) && own@.contains_key(parent) && own@[id].0
                            == own@[parent].0 + 1 && steps(parent, id)) by {
                            if id != neighbor {
                                assert(held.contains_key(id));
                            }
                        }
                    }
                    assert forall|id: NodeId| #[trigger] next@.contains(id) <==> (own@.contains_key(
                        id,
                    ) && !start.contains_key(id)) by {
                        if listed.contains(id) {
                            let n = choose|n: int| 0 <= n < listed.len() && listed[n] == id;
                            assert(next@[n] == id);
                        }
                        if next@.contains(id) && id != neighbor {
                            let n = choose|n: int| 0 <= n < next@.len() && next@[n] == id;
                            assert(listed[n] == id);
                        }
                    }
                    assert(!listed.contains(neighbor));
                    assert(least_parents(steps, root, own@)) by {
                        assert forall|from: NodeId, id: NodeId|
                            own@.contains_key(id) && id != root && own@.contains_key(from)
                                && own@[from].0 + 1 == own@[id].0 && #[trigger] steps(
                                from,
                                id,
                            ) implies own@[id].1->0 <= from by {
                            if id == neighbor {
                                assert(start.contains_key(from) && start[from].0 == level);
                                assert(frontier@.contains(from));
                                let n = choose|n: int|
                                    0 <= n < frontier@.len() && frontier@[n] == from;
                                assert(steps(frontier@[n], neighbor));
                                assert(n >= i);
                            } else if from == neighbor {
                                assert(own@[id].0 == level + 2);
                                assert(start.contains_key(id) ==> start[id].0 <= level);
                                assert(held.contains_key(id));
                            } else {
                                assert(held.contains_key(id) && held.contains_key(from));
                            }
                        }
                    }
                }
            }
            proof {
                taken = taken.insert(edge);
                lemma_leads_insert(earlier, edge);
                assert(is_found(
                    *budget,
                    steps,
                    root,
                    level as nat,
                    first,
                    start,
                    own@,
                    taken,
                )) by {
                    assert forall|id: NodeId| #[trigger]
                        own@.contains_key(id) <==> start.contains_key(id) || leads_to(taken, id) by {
                        assert(held.contains_key(id) <==> start.contains_key(id) || leads_to(
                            earlier,
                            id,
                        ));
                        assert(leads_to(taken, id) <==> leads_to(earlier, id) || id == neighbor);
                    }
                }
            }
            let ghost met = meeting@;
            if other.contains_key(&neighbor) {
                meeting.push(neighbor);
                assert(meeting@[met.len() as int] == neighbor);
            }
            proof {
                assert forall|id: NodeId| #[trigger] meeting@.contains(id) implies own@.contains_key(
                    id,
                ) && other@.contains_key(id) by {
                    let n = choose|n: int| 0 <= n < meeting@.len() && meeting@[n] == id;
                    if n < met.len() {
                        assert(met[n] == id);
                        assert(met.contains(id));
                    }
                }
                assert forall|id: NodeId| #[trigger]
                    own@.contains_key(id) && other@.contains_key(id) implies start.contains_key(id)
                    || meeting@.contains(id) by {
                    if held.contains_key(id) && !start.contains_key(id) {
                        assert(met.contains(id));
                        let n = choose|n: int| 0 <= n < met.len() && met[n] == id;
                        assert(meeting@[n] == id);
                    }
                }
            }
            j += 1;
        }
        proof {
            lemma_progress_node(steps, frontier@, i as int, targets@, taken, Seq::empty());
            assert forall|n: int, to: NodeId|
                0 <= n < i + 1 && #[trigger] steps(frontier@[n], to) implies own@.contains_key(
                to,
            ) by {
                if n == i {
                    assert(targets@.contains(to));
                    let m = choose|m: int| 0 <= m < targets@.len() && targets@[m] == to;
                    assert(own@.contains_key(targets@[m]));
                }
            }
        }
        i += 1;
    }
    proof {
        assert(frontier@.take(i as int) =~= frontier@);
        assert forall|edge: (NodeId, NodeId)|
            taken.contains(edge) <==> level_edges(steps, root, level as nat).contains(edge) by {
            assert(frontier@.contains(edge.0) <==> sphere(steps, root, level as nat).contains(
                edge.0,
            ));
        }
        assert(taken =~= level_edges(steps, root, level as nat));
        let depths = reached_depths(own@);
        assert forall|from: NodeId, to: NodeId|
            depths.contains_key(from) && depths[from] < level + 1 && #[trigger] steps(
                from,
                to,
            ) implies depths.contains_key(to) && depths[to] <= depths[from] + 1 by {
            assert(own@.contains_key(from));
            assert(start.contains_key(from));
            if start[from].0 < level {
                assert(reached_depths(start).contains_key(from));
                assert(reached_depths(start).contains_key(to));
                assert(start.contains_key(to));
            } else {
                assert(frontier@.contains(from));
                let n = choose|n: int| 0 <= n < frontier@.len() && frontier@[n] == from;
                assert(steps(frontier@[n], to));
                assert(own@.contains_key(to));
            }
        }
        assert forall|id: NodeId| #[trigger] next@.contains(id) <==> own@.contains_key(id)
            && own@[id].0 == level + 1 by {
            if own@.contains_key(id) && start.contains_key(id) {
                assert(start[id].0 <= level);
            }
        }
    }
    Ok(Some(Level { next, meeting }))
}

/// What holds while a level is expanded: `own` extends `start` by the nodes in `next`, all one
/// level deeper, and `meeting` lists those of them that the other side knows.
spec fn expanding(
    steps: Adjacency,
    root: NodeId,
    start: Map<NodeId, (usize, Option<NodeId>)>,
    own: Map<NodeId, (usize, Option<NodeId>)>,
    level: nat,
    next: Seq<NodeId>,
    meeting: Seq<NodeId>,
    other: Map<NodeId, (usize, Option<NodeId>)>,
) -> bool {
    &&& is_tree(steps, root, own)
    &&& least_parents(steps, root, own)
    &&& own.dom().finite()
    &&& start.dom().finite()
    &&& forall|id: NodeId| #[trigger]
        start.contains_key(id) ==> own.contains_key(id) && own[id] == start[id]
    &&& forall|id: NodeId| #[trigger]
        own.contains_key(id) && !start.contains_key(id) ==> own[id].0 == level + 1
    &&& forall|id: NodeId| #[trigger]
        next.contains(id) <==> (own.contains_key(id) && !start.contains_key(id))
    &&& next.no_duplicates()
    &&& next.len() == own.dom().len() - start.dom().len()
    &&& forall|id: NodeId| #[trigger]
        meeting.contains(id) ==> own.contains_key(id) && other.contains_key(id)
    &&& forall|id: NodeId| #[trigger]
        own.contains_key(id) && other.contains_key(id) ==> start.contains_key(id)
            || meeting.contains(id)
}

/// What a complete level adds to the metrics, where it finds this many nodes.
spec fn is_level_taken(
    budget: TraversalBudget,
    steps: Adjacency,
    root: NodeId,
    level: nat,
    first: TraversalMetrics,
    found: nat,
    last: TraversalMetrics,
) -> bool {
    &&& level_fits(budget, steps, root, level, first)
    &&& level_edges(steps, root, level).finite()
    &&& last.examined_edges == first.examined_edges + level_edges(steps, root, level).len()
    &&& last.peak_frontier_size == first.peak_frontier_size
    &&& is_depth_after(level, first, found, last)
}

/// The depth reached where a level finds this many nodes.
spec fn is_depth_after(
    level: nat,
    first: TraversalMetrics,
    found: nat,
    last: TraversalMetrics,
) -> bool {
    last.depth_reached == if found > 0 && first.depth_reached < level + 1 {
        level + 1
    } else {
        first.depth_reached as nat
    }
}

/// What a side knows in terms of distances.
proof fn lemma_side_ball(
    steps: Adjacency,
    root: NodeId,
    reached: Map<NodeId, (usize, Option<NodeId>)>,
    level: nat,
    frontier: Seq<NodeId>,
)
    requires
        side_at(steps, root, reached, level, frontier),
    ensures
        reached.dom() == ball(steps, root, level),
        frontier.to_set() == sphere(steps, root, level),
        forall|id: NodeId| #[trigger]
            frontier.contains(id) <==> sphere(steps, root, level).contains(id),
        forall|id: NodeId, near: nat|
            near <= level ==> (#[trigger] within(steps, root, id, near) <==> reached.contains_key(
                id,
            ) && reached[id].0 <= near),
{
    assert forall|id: NodeId, near: nat| near <= level implies (#[trigger] within(
        steps,
        root,
        id,
        near,
    ) <==> reached.contains_key(id) && reached[id].0 <= near) by {
        if within(steps, root, id, near) {
            lemma_closed_below(steps, root, reached_depths(reached), level, id, near);
            assert(reached_depths(reached)[id] == reached[id].0);
        }
        if reached.contains_key(id) && reached[id].0 <= near {
            lemma_tree_within(steps, root, reached, id);
            lemma_within_grows(steps, root, id, reached[id].0 as nat, near);
        }
    }
    assert forall|id: NodeId| #[trigger] frontier.contains(id) <==> sphere(
        steps,
        root,
        level,
    ).contains(id) by {
        if level > 0 {
            assert(within(steps, root, id, (level - 1) as nat) <==> reached.contains_key(id)
                && reached[id].0 <= level - 1);
        }
        assert(within(steps, root, id, level) <==> reached.contains_key(id) && reached[id].0
            <= level);
    }
    assert(reached.dom() =~= ball(steps, root, level)) by {
        assert forall|id: NodeId| reached.contains_key(id) <==> within(steps, root, id, level) by {}
    }
    assert(frontier.to_set() =~= sphere(steps, root, level));
}

/// What one more element adds to a prefix.
proof fn lemma_prefix_grows(ids: Seq<NodeId>, i: int)
    requires
        0 <= i < ids.len(),
    ensures
        forall|id: NodeId| #[trigger]
            ids.take(i + 1).contains(id) <==> ids.take(i).contains(id) || id == ids[i],
{
    assert forall|id: NodeId| #[trigger] ids.take(i + 1).contains(id) <==> ids.take(i).contains(id)
        || id == ids[i] by {
        if ids.take(i).contains(id) {
            let n = choose|n: int| 0 <= n < i && ids.take(i)[n] == id;
            assert(ids.take(i + 1)[n] == id);
        }
        if id == ids[i] {
            assert(ids.take(i + 1)[i] == id);
        }
        if ids.take(i + 1).contains(id) && id != ids[i] {
            let n = choose|n: int| 0 <= n < i + 1 && #[trigger] ids.take(i + 1)[n] == id;
            assert(ids.take(i)[n] == id);
        }
    }
}

/// The elements before a given one in increasing order are the smaller ones.
proof fn lemma_prefix_smaller(ids: Seq<NodeId>, i: int)
    requires
        0 <= i < ids.len(),
        increasing(ids),
    ensures
        forall|id: NodeId| #[trigger]
            ids.take(i).contains(id) <==> ids.contains(id) && id < ids[i],
{
    assert forall|id: NodeId| #[trigger] ids.take(i).contains(id) <==> ids.contains(id) && id
        < ids[i] by {
        if ids.take(i).contains(id) {
            let n = choose|n: int| 0 <= n < i && ids.take(i)[n] == id;
            assert(ids[n] == id);
        }
        if ids.contains(id) && id < ids[i] {
            let n = choose|n: int| 0 <= n < ids.len() && ids[n] == id;
            if n > i {
                assert(ids[i] < ids[n]);
            }
            assert(ids.take(i)[n] == id);
        }
    }
}

/// The steps taken so far: those from the first nodes of the frontier, and the first ones of the
/// current node.
spec fn is_progress(
    steps: Adjacency,
    frontier: Seq<NodeId>,
    i: int,
    targets: Seq<NodeId>,
    j: int,
    taken: Set<(NodeId, NodeId)>,
) -> bool {
    &&& taken.finite()
    &&& forall|edge: (NodeId, NodeId)| #[trigger]
        taken.contains(edge) <==> (steps(edge.0, edge.1) && frontier.take(i).contains(edge.0)) || (i
            < frontier.len() && edge.0 == frontier[i] && targets.take(j).contains(edge.1))
}

/// The steps taken so far are those before the next one.
proof fn lemma_progress(
    steps: Adjacency,
    root: NodeId,
    level: nat,
    frontier: Seq<NodeId>,
    i: int,
    targets: Seq<NodeId>,
    j: int,
    taken: Set<(NodeId, NodeId)>,
)
    requires
        0 <= i < frontier.len(),
        0 <= j < targets.len(),
        increasing(frontier),
        increasing(targets),
        forall|id: NodeId| #[trigger]
            frontier.contains(id) <==> sphere(steps, root, level).contains(id),
        forall|to: NodeId| #[trigger] targets.contains(to) <==> steps(frontier[i], to),
        is_progress(steps, frontier, i, targets, j, taken),
    ensures
        taken == edges_before(steps, root, level, (frontier[i], targets[j])),
        level_edges(steps, root, level).contains((frontier[i], targets[j])),
        !taken.contains((frontier[i], targets[j])),
        is_progress(
            steps,
            frontier,
            i,
            targets,
            j + 1,
            taken.insert((frontier[i], targets[j])),
        ),
{
    lemma_prefix_smaller(frontier, i);
    lemma_prefix_smaller(targets, j);
    lemma_prefix_grows(targets, j);
    assert(frontier.contains(frontier[i]));
    assert(targets.contains(targets[j]));
    let edge = (frontier[i], targets[j]);
    assert forall|other: (NodeId, NodeId)|
        taken.contains(other) <==> edges_before(steps, root, level, edge).contains(other) by {
        assert(frontier.take(i).contains(other.0) <==> frontier.contains(other.0) && other.0
            < frontier[i]);
        if other.0 == frontier[i] {
            assert(targets.take(j).contains(other.1) <==> targets.contains(other.1) && other.1
                < targets[j]);
            assert(targets.contains(other.1) <==> steps(frontier[i], other.1));
        }
        assert(frontier.contains(other.0) <==> sphere(steps, root, level).contains(other.0));
    }
    assert(taken =~= edges_before(steps, root, level, edge));
}

/// All steps of a node have been taken.
proof fn lemma_progress_node(
    steps: Adjacency,
    frontier: Seq<NodeId>,
    i: int,
    targets: Seq<NodeId>,
    taken: Set<(NodeId, NodeId)>,
    next: Seq<NodeId>,
)
    requires
        0 <= i < frontier.len(),
        forall|to: NodeId| #[trigger] targets.contains(to) <==> steps(frontier[i], to),
        is_progress(steps, frontier, i, targets, targets.len() as int, taken),
    ensures
        is_progress(steps, frontier, i + 1, next, 0, taken),
{
    lemma_prefix_grows(frontier, i);
    assert(targets.take(targets.len() as int) =~= targets);
    assert(next.take(0) =~= Seq::<NodeId>::empty());
    assert forall|edge: (NodeId, NodeId)| #[trigger]
        taken.contains(edge) <==> (steps(edge.0, edge.1) && frontier.take(i + 1).contains(edge.0))
            || (i + 1 < frontier.len() && edge.0 == frontier[i + 1] && next.take(0).contains(
            edge.1,
        )) by {
        assert(frontier.take(i + 1).contains(edge.0) <==> frontier.take(i).contains(edge.0)
            || edge.0 == frontier[i]);
        if edge.0 == frontier[i] {
            assert(targets.contains(edge.1) <==> steps(frontier[i], edge.1));
        }
    }
}

/// What is reached while a level is expanded, in terms of the steps taken.
spec fn is_found(
    budget: TraversalBudget,
    steps: Adjacency,
    root: NodeId,
    level: nat,
    first: TraversalMetrics,
    start: Map<NodeId, (usize, Option<NodeId>)>,
    own: Map<NodeId, (usize, Option<NodeId>)>,
    taken: Set<(NodeId, NodeId)>,
) -> bool {
    &&& forall|id: NodeId| #[trigger]
        own.contains_key(id) <==> start.contains_key(id) || leads_to(taken, id)
    &&& forall|edge: (NodeId, NodeId)| #[trigger]
        taken.contains(edge) ==> edge_stop(budget, steps, root, level, first, edge) is None
}

/// What the next step decides.
proof fn lemma_edge_stop(
    budget: TraversalBudget,
    steps: Adjacency,
    root: NodeId,
    level: nat,
    first: TraversalMetrics,
    start: Map<NodeId, (usize, Option<NodeId>)>,
    own: Map<NodeId, (usize, Option<NodeId>)>,
    taken: Set<(NodeId, NodeId)>,
    edge: (NodeId, NodeId),
)
    requires
        start.dom() == ball(steps, root, level),
        start.dom().finite(),
        own.dom().finite(),
        forall|id: NodeId| #[trigger] start.contains_key(id) ==> own.contains_key(id),
        is_found(budget, steps, root, level, first, start, own, taken),
        taken == edges_before(steps, root, level, edge),
    ensures
        found_by(steps, root, level, taken).len() == own.dom().len() - start.dom().len(),
        edge_stop(budget, steps, root, level, first, edge) == if first.examined_edges + taken.len()
            >= budget.max_examined_edges {
            Some(BudgetDimension::ExaminedEdges)
        } else if !own.contains_key(edge.1) && first.visited_nodes + own.dom().len()
            - start.dom().len() >= budget.max_visited_nodes {
            Some(BudgetDimension::VisitedNodes)
        } else {
            None
        },
{
    let found = found_by(steps, root, level, taken);
    assert forall|id: NodeId| start.contains_key(id) <==> within(steps, root, id, level) by {
        assert(start.dom().contains(id) <==> ball(steps, root, level).contains(id));
    }
    assert forall|id: NodeId| found.contains(id) <==> own.dom().contains(id)
        && !start.dom().contains(id) by {
        assert(own.contains_key(id) <==> start.contains_key(id) || leads_to(taken, id));
    }
    assert(found =~= own.dom().difference(start.dom()));
    assert(own.dom() =~= found.union(start.dom()));
    vstd::set_lib::lemma_set_disjoint_lens(found, start.dom());
    assert(own.contains_key(edge.1) <==> start.contains_key(edge.1) || leads_to(taken, edge.1));
}

/// One more step taken leads to one more node.
proof fn lemma_leads_insert(taken: Set<(NodeId, NodeId)>, edge: (NodeId, NodeId))
    ensures
        forall|id: NodeId| #[trigger]
            leads_to(taken.insert(edge), id) <==> leads_to(taken, id) || id == edge.1,
{
    assert forall|id: NodeId| #[trigger]
        leads_to(taken.insert(edge), id) <==> leads_to(taken, id) || id == edge.1 by {
        if leads_to(taken, id) {
            let from = choose|from: NodeId| #[trigger] taken.contains((from, id));
            assert(taken.insert(edge).contains((from, id)));
        }
        if id == edge.1 {
            assert(taken.insert(edge).contains((edge.0, id)));
        }
        if leads_to(taken.insert(edge), id) && id != edge.1 {
            let from = choose|from: NodeId| #[trigger] taken.insert(edge).contains((from, id));
            assert(taken.contains((from, id)));
        }
    }
}

/// Whether a level does not fit in the budget.
pub open spec fn level_too_large(
    budget: TraversalBudget,
    nodes: nat,
    metrics: TraversalMetrics,
    frontier: nat,
    own: nat,
    other: nat,
) -> bool {
    metrics.examined_edges + frontier * nodes > budget.max_examined_edges || (own < nodes && own
        + other >= budget.max_visited_nodes)
}

/// Whether `error` reports the depth bound.
pub open spec fn is_depth_error(error: TriviumError) -> bool {
    error matches TriviumError::TraversalBudgetExceeded { dimension, .. } && dimension
        == BudgetDimension::Depth
}

/// One more step before a walk.
proof fn lemma_within_prepend(
    adjacency: Adjacency,
    from: NodeId,
    via: NodeId,
    to: NodeId,
    steps: nat,
)
    requires
        adjacency(from, via),
        within(adjacency, via, to, steps),
    ensures
        within(adjacency, from, to, steps + 1),
    decreases steps,
{
    if steps == 0 {
        assert(within(adjacency, from, from, 0));
        lemma_within_step(adjacency, from, from, to, 0);
    } else if within(adjacency, via, to, (steps - 1) as nat) {
        lemma_within_prepend(adjacency, from, via, to, (steps - 1) as nat);
        lemma_within_grows(adjacency, from, to, steps, steps + 1);
    } else {
        let last = choose|last: NodeId|
            within(adjacency, via, last, (steps - 1) as nat) && #[trigger] adjacency(last, to);
        lemma_within_prepend(adjacency, from, via, last, (steps - 1) as nat);
        lemma_within_step(adjacency, from, last, to, steps);
    }
}

/// A walk can be cut anywhere: its first part is walked forwards from the start, its second part
/// backwards from the end.
pub proof fn lemma_within_split(
    adjacency: Adjacency,
    from: NodeId,
    to: NodeId,
    first: nat,
    second: nat,
) -> (middle: NodeId)
    requires
        within(adjacency, from, to, first + second),
    ensures
        within(adjacency, from, middle, first),
        within(reversed(adjacency), to, middle, second),
    decreases second,
{
    if second == 0 {
        to
    } else if within(adjacency, from, to, (first + second - 1) as nat) {
        let middle = lemma_within_split(adjacency, from, to, first, (second - 1) as nat);
        lemma_within_grows(reversed(adjacency), to, middle, (second - 1) as nat, second);
        middle
    } else {
        let via = choose|via: NodeId|
            within(adjacency, from, via, (first + second - 1) as nat) && #[trigger] adjacency(
                via,
                to,
            );
        let middle = lemma_within_split(adjacency, from, via, first, (second - 1) as nat);
        assert(reversed(adjacency)(to, via));
        lemma_within_prepend(reversed(adjacency), to, via, middle, (second - 1) as nat);
        middle
    }
}

/// Whether `best` is the common node of both sides with the smallest sum of depths, the smaller
/// identifier first among equals.
pub open spec fn is_best_meeting(
    forward: Map<NodeId, (usize, Option<NodeId>)>,
    backward: Map<NodeId, (usize, Option<NodeId>)>,
    best: Option<(usize, NodeId)>,
) -> bool {
    match best {
        None => forall|id: NodeId| #[trigger]
            forward.contains_key(id) ==> !backward.contains_key(id),
        Some((distance, meeting)) => {
            &&& forward.contains_key(meeting)
            &&& backward.contains_key(meeting)
            &&& distance == forward[meeting].0 + backward[meeting].0
            &&& forall|id: NodeId| #[trigger]
                forward.contains_key(id) && backward.contains_key(id) ==> distance < forward[id].0
                    + backward[id].0 || (distance == forward[id].0 + backward[id].0 && meeting
                    <= id)
        },
    }
}

/// Two complete sides miss no walk that is as short as their levels together.
proof fn lemma_sides_cover(
    adjacency: Adjacency,
    src: NodeId,
    dst: NodeId,
    forward: Map<NodeId, (usize, Option<NodeId>)>,
    backward: Map<NodeId, (usize, Option<NodeId>)>,
    forward_level: nat,
    backward_level: nat,
    forward_frontier: Seq<NodeId>,
    backward_frontier: Seq<NodeId>,
    steps: nat,
) -> (middle: NodeId)
    requires
        side_at(adjacency, src, forward, forward_level, forward_frontier),
        side_at(reversed(adjacency), dst, backward, backward_level, backward_frontier),
        steps <= forward_level + backward_level,
        within(adjacency, src, dst, steps),
    ensures
        forward.contains_key(middle),
        backward.contains_key(middle),
        forward[middle].0 + backward[middle].0 <= steps,
{
    let first = if steps <= forward_level { steps } else { forward_level };
    let second = (steps - first) as nat;
    let middle = lemma_within_split(adjacency, src, dst, first, second);
    lemma_closed_below(
        adjacency,
        src,
        reached_depths(forward),
        forward_level,
        middle,
        first,
    );
    lemma_closed_below(
        reversed(adjacency),
        dst,
        reached_depths(backward),
        backward_level,
        middle,
        second,
    );
    assert(reached_depths(forward)[middle] == forward[middle].0);
    assert(reached_depths(backward)[middle] == backward[middle].0);
    middle
}

/// The ends are as close as the depths of a common node say.
proof fn lemma_meeting_near(
    adjacency: Adjacency,
    src: NodeId,
    dst: NodeId,
    forward: Map<NodeId, (usize, Option<NodeId>)>,
    backward: Map<NodeId, (usize, Option<NodeId>)>,
    meeting: NodeId,
)
    requires
        is_tree(adjacency, src, forward),
        is_tree(reversed(adjacency), dst, backward),
        forward.contains_key(meeting),
        backward.contains_key(meeting),
    ensures
        within(adjacency, src, dst, (forward[meeting].0 + backward[meeting].0) as nat),
{
    let left = backward[meeting].0 as nat;
    lemma_tree_within(adjacency, src, forward, meeting);
    lemma_tree_within(reversed(adjacency), dst, backward, meeting);
    let end = lemma_within_split(reversed(adjacency), dst, meeting, 0, left);
    assert(reversed(reversed(adjacency)) =~= adjacency);
    lemma_within_concat(adjacency, src, meeting, dst, forward[meeting].0 as nat, left);
}

/// A side whose frontier is empty has reached everything that can be reached.
proof fn lemma_exhausted_side(
    steps: Adjacency,
    root: NodeId,
    reached: Map<NodeId, (usize, Option<NodeId>)>,
    level: nat,
    to: NodeId,
    count: nat,
)
    requires
        side_at(steps, root, reached, level, Seq::empty()),
        within(steps, root, to, count),
    ensures
        reached.contains_key(to),
{
    let depths = reached_depths(reached);
    assert(closed_below(steps, depths, count)) by {
        assert forall|from: NodeId, next: NodeId|
            depths.contains_key(from) && depths[from] < count && #[trigger] steps(
                from,
                next,
            ) implies depths.contains_key(next) && depths[next] <= depths[from] + 1 by {
            assert(reached.contains_key(from));
            assert(!Seq::<NodeId>::empty().contains(from));
            assert(reached[from].0 < level);
        }
    }
    lemma_closed_below(steps, root, depths, count, to, count);
}

/// Whether `path[n]` is the predecessor of `path[n + 1]`, which is `n + 1` steps from the start.
spec fn links_forward(
    reached: Map<NodeId, (usize, Option<NodeId>)>,
    path: Seq<NodeId>,
    n: int,
) -> bool {
    &&& reached.contains_key(path[n + 1])
    &&& reached[path[n + 1]].0 == n + 1
    &&& reached[path[n + 1]].1 == Some(path[n])
}

/// Whether `path[n + 1]` is the predecessor of `path[n]`, which is `left` steps from the end.
spec fn links_backward(
    reached: Map<NodeId, (usize, Option<NodeId>)>,
    path: Seq<NodeId>,
    n: int,
    left: int,
) -> bool {
    &&& reached.contains_key(path[n])
    &&& reached[path[n]].0 == left
    &&& reached[path[n]].1 == Some(path[n + 1])
}

/// The walk through a common node: back to the start along the forward tree, then on to the end
/// along the backward tree.
fn reconstruct_bidirectional(
    meeting: NodeId,
    forward: &Reached,
    backward: &Reached,
    Ghost(adjacency): Ghost<Adjacency>,
    Ghost(src): Ghost<NodeId>,
    Ghost(dst): Ghost<NodeId>,
) -> (path: Path)
    requires
        is_tree(adjacency, src, forward@),
        is_tree(reversed(adjacency), dst, backward@),
        forward@.contains_key(meeting),
        backward@.contains_key(meeting),
    ensures
        connects(adjacency, path@, src, dst),
        path@.len() == forward@[meeting].0 + backward@[meeting].0 + 1,
        path@[forward@[meeting].0 as int] == meeting,
        forall|n: int|
            0 <= n < forward@[meeting].0 ==> #[trigger] links_forward(forward@, path@, n),
        forall|n: int|
            forward@[meeting].0 <= n < path@.len() - 1 ==> #[trigger] links_backward(
                backward@,
                path@,
                n,
                path@.len() - 1 - n,
            ),
{
    let mut chain: Path = Vec::new();
    chain.push(meeting);
    let mut current: NodeId = meeting;
    let mut parent: Option<NodeId> = forward.get(&current).unwrap().1;
    while parent.is_some()
        invariant
            is_tree(adjacency, src, forward@),
            forward@.contains_key(current),
            parent == forward@[current].1,
            chain@.len() > 0,
            chain@[0] == meeting,
            chain@.last() == current,
            chain@.len() + forward@[current].0 == forward@[meeting].0 + 1,
            forall|n: int|
                0 <= n < chain@.len() - 1 ==> adjacency(chain@[n + 1], #[trigger] chain@[n]),
            forall|n: int|
                0 <= n < chain@.len() - 1 ==> forward@.contains_key(#[trigger] chain@[n])
                    && forward@[chain@[n]].0 == forward@[meeting].0 - n && forward@[chain@[n]].1
                    == Some(chain@[n + 1]),
        decreases forward@[current].0,
    {
        let above: NodeId = parent.unwrap();
        assert(current != src);
        chain.push(above);
        current = above;
        parent = forward.get(&current).unwrap().1;
    }
    proof {
        assert(current == src) by {
            if current != src {
                assert(forward@[current].1 is Some);
            }
        }
    }
    let mut path: Path = Vec::new();
    let mut k: usize = chain.len();
    while k > 0
        invariant
            k <= chain@.len(),
            chain@.len() > 0,
            path@.len() == chain@.len() - k,
            forall|n: int| 0 <= n < path@.len() ==> #[trigger] path@[n] == chain@[chain@.len() - 1 - n],
        decreases k,
    {
        k -= 1;
        path.push(chain[k]);
    }
    proof {
        assert(path@[0] == chain@[chain@.len() - 1]);
        assert(path@[path@.len() - 1] == chain@[0]);
        assert forall|n: int| 0 <= n < path@.len() - 1 implies #[trigger] step_at(
            adjacency,
            path@,
            n,
        ) by {
            let m = chain@.len() - 2 - n;
            assert(path@[n] == chain@[m + 1]);
            assert(path@[n + 1] == chain@[m]);
            assert(adjacency(chain@[m + 1], chain@[m]));
        }
        assert forall|n: int| 0 <= n < forward@[meeting].0 implies #[trigger] links_forward(
            forward@,
            path@,
            n,
        ) by {
            let m = chain@.len() - 2 - n;
            assert(path@[n] == chain@[m + 1]);
            assert(path@[n + 1] == chain@[m]);
        }
    }
    current = meeting;
    parent = backward.get(&current).unwrap().1;
    while parent.is_some()
        invariant
            is_tree(reversed(adjacency), dst, backward@),
            backward@.contains_key(current),
            parent == backward@[current].1,
            is_walk(adjacency, path@),
            path@[0] == src,
            path@.last() == current,
            path@.len() + backward@[current].0 == forward@[meeting].0 + backward@[meeting].0 + 1,
            path@.len() > forward@[meeting].0,
            path@[forward@[meeting].0 as int] == meeting,
            forall|n: int|
                0 <= n < forward@[meeting].0 ==> #[trigger] links_forward(forward@, path@, n),
            forall|n: int|
                forward@[meeting].0 <= n < path@.len() - 1 ==> #[trigger] links_backward(
                    backward@,
                    path@,
                    n,
                    forward@[meeting].0 + backward@[meeting].0 - n,
                ),
        decreases backward@[current].0,
    {
        let above: NodeId = parent.unwrap();
        assert(current != dst);
        proof {
            assert(reversed(adjacency)(above, current));
            lemma_walk_push(adjacency, path@, above);
        }
        let ghost walked = path@;
        path.push(above);
        proof {
            assert forall|n: int| 0 <= n < forward@[meeting].0 implies #[trigger] links_forward(
                forward@,
                path@,
                n,
            ) by {
                assert(links_forward(forward@, walked, n));
            }
            assert forall|n: int|
                forward@[meeting].0 <= n < path@.len() - 1 implies #[trigger] links_backward(
                backward@,
                path@,
                n,
                forward@[meeting].0 + backward@[meeting].0 - n,
            ) by {
                if n < walked.len() - 1 {
                    assert(links_backward(
                        backward@,
                        walked,
                        n,
                        forward@[meeting].0 + backward@[meeting].0 - n,
                    ));
                }
            }
        }
        current = above;
        parent = backward.get(&current).unwrap().1;
    }
    proof {
        assert(current == dst) by {
            if current != dst {
                assert(backward@[current].1 is Some);
            }
        }
    }
    path
}

/// The path through the least common node is the one to pick.
#[verifier::spinoff_prover]
#[verifier::rlimit(40)]
proof fn lemma_picked(
    ends: TwoEnds,
    forward: Map<NodeId, (usize, Option<NodeId>)>,
    backward: Map<NodeId, (usize, Option<NodeId>)>,
    forward_level: nat,
    backward_level: nat,
    forward_frontier: Seq<NodeId>,
    backward_frontier: Seq<NodeId>,
    meeting: NodeId,
    path: Seq<NodeId>,
)
    requires
        side_at(ends.steps, ends.src, forward, forward_level, forward_frontier),
        side_at(reversed(ends.steps), ends.dst, backward, backward_level, backward_frontier),
        is_best_meeting(
            forward,
            backward,
            Some(((forward_level + backward_level) as usize, meeting)),
        ),
        forward_level + backward_level <= usize::MAX,
        connects(ends.steps, path, ends.src, ends.dst),
        path.len() == forward_level + backward_level + 1,
        path[forward[meeting].0 as int] == meeting,
        forall|n: int| 0 <= n < forward[meeting].0 ==> #[trigger] links_forward(forward, path, n),
        forall|n: int|
            forward[meeting].0 <= n < path.len() - 1 ==> #[trigger] links_backward(
                backward,
                path,
                n,
                path.len() - 1 - n,
            ),
    ensures
        ends.is_picked(forward_level, path),
{
    let length = (path.len() - 1) as nat;
    let split = forward_level;
    lemma_side_ball(ends.steps, ends.src, forward, forward_level, forward_frontier);
    lemma_side_ball(reversed(ends.steps), ends.dst, backward, backward_level, backward_frontier);
    assert(forward[meeting].0 <= forward_level && backward[meeting].0 <= backward_level);
    assert(forward[meeting].0 == split);
    assert forall|id: NodeId|
        within(ends.steps, ends.src, id, split) && #[trigger] within(
            reversed(ends.steps),
            ends.dst,
            id,
            (length - split) as nat,
        ) implies path[split as int] <= id by {
        assert(forward.contains_key(id) && backward.contains_key(id));
    }
    assert forall|n: int, id: NodeId|
        0 <= n < split && within(ends.steps, ends.src, id, n as nat) && #[trigger] (ends.steps)(
            id,
            path[n + 1],
        ) implies path[n] <= id by {
        assert(links_forward(forward, path, n));
        assert(forward.contains_key(id) && forward[id].0 <= n);
        assert(reached_depths(forward).contains_key(id));
        assert(reached_depths(forward)[path[n + 1]] <= reached_depths(forward)[id] + 1);
        assert(path[n + 1] != ends.src);
    }
    assert forall|n: int, id: NodeId|
        split < n <= length && within(
            reversed(ends.steps),
            ends.dst,
            id,
            (length - n) as nat,
        ) && #[trigger] (ends.steps)(path[n - 1], id) implies path[n] <= id by {
        assert(links_backward(backward, path, n - 1, path.len() - 1 - (n - 1)));
        assert(backward.contains_key(id) && backward[id].0 <= length - n);
        assert(reversed(ends.steps)(id, path[n - 1]));
        assert(reached_depths(backward).contains_key(id));
        assert(reached_depths(backward)[path[n - 1]] <= reached_depths(backward)[id] + 1);
        assert(path[n - 1] != ends.dst);
    }
}

/// A level that is cut short does not fit.
proof fn lemma_cut_does_not_fit(
    budget: TraversalBudget,
    steps: Adjacency,
    root: NodeId,
    level: nat,
    first: TraversalMetrics,
    dimension: BudgetDimension,
    last: TraversalMetrics,
)
    requires
        is_cut_short(budget, steps, root, level, first, dimension, last),
    ensures
        !level_fits(budget, steps, root, level, first),
{
    let edge = choose|edge: (NodeId, NodeId)| #[trigger]
        is_cut_at(budget, steps, root, level, first, edge, dimension, last);
    assert(level_edges(steps, root, level).contains(edge));
}

/// Whether `result` is the reply to a search that ended after `rounds` complete rounds with these
/// metrics: an error where a bound was reached under the `Error` policy, and otherwise the path
/// as far as one was found.
pub open spec fn is_reply(
    ends: TwoEnds,
    budget: TraversalBudget,
    rounds: nat,
    metrics: TraversalMetrics,
    stop: Option<BudgetDimension>,
    result: Result<ShortestPathOutput>,
) -> bool {
    if stop is Some && budget.exhaustion_policy == BudgetExhaustionPolicy::Error {
        result matches Err(error) && is_budget_exceeded(error, stop->0, metrics)
    } else {
        result matches Ok(output) && output.bidirectional && output.truncated == (stop is Some)
            && output.metrics == metrics && ends.is_answer(rounds, output.path)
    }
}

/// Whether `result` is what a search between two ends gives.
pub open spec fn is_outcome(
    ends: TwoEnds,
    budget: TraversalBudget,
    result: Result<ShortestPathOutput>,
) -> bool {
    exists|
        rounds: nat,
        first: TraversalMetrics,
        last: nat,
        metrics: TraversalMetrics,
        stop: Option<BudgetDimension>,
    | #[trigger]
        ends.is_end(budget, rounds, first, last, metrics, stop) && is_reply(
            ends,
            budget,
            last,
            metrics,
            stop,
            result,
        )
}

/// Whether a budget covers a search of a whole table from both ends.
pub open spec fn covers(budget: TraversalBudget, nodes: nat) -> bool {
    budget.max_visited_nodes >= 2 * nodes && budget.max_frontier_size >= 2 * nodes
        && budget.max_examined_edges >= 2 * nodes * nodes
}

/// Whether a search from both ends gives this: a path that is returned is a shortest one within the
/// depth bound; without a path and without truncation there is none of any length; and a budget
/// that covers the table does not run out before a path within the depth bound is found.
pub open spec fn is_path_answer(
    adjacency: Adjacency,
    src: NodeId,
    dst: NodeId,
    budget: TraversalBudget,
    nodes: nat,
    result: Result<ShortestPathOutput>,
) -> bool {
    let near = within(adjacency, src, dst, budget.max_depth as nat);
    match result {
        Ok(output) => {
            &&& output.bidirectional
            &&& output.path matches Some(path) ==> is_shortest_path(
                adjacency,
                path@,
                src,
                dst,
            ) && path@.len() <= budget.max_depth + 1
            &&& output.path is None && !output.truncated ==> forall|steps: nat|
                !#[trigger] within(adjacency, src, dst, steps)
            &&& output.truncated ==> budget.exhaustion_policy
                == BudgetExhaustionPolicy::Partial
            &&& covers(budget, nodes) && near ==> output.path is Some
                && !output.truncated
            &&& output.metrics.examined_edges <= budget.max_examined_edges
            &&& output.metrics.depth_reached <= budget.max_depth
        },
        Err(error) => {
            &&& src != dst
            &&& ran_out(budget, error)
            &&& is_depth_error(error) ==> !near
            &&& !(covers(budget, nodes) && near)
        },
    }
}

/// Whether a search from both ends between nodes of the table gives this.
pub open spec fn is_search_result(
    adjacency: Adjacency,
    src: NodeId,
    dst: NodeId,
    budget: TraversalBudget,
    nodes: nat,
    result: Result<ShortestPathOutput>,
) -> bool {
    &&& src == dst ==> (result matches Ok(output) && output.path is Some && output.path->0@
        == seq![src] && output.bidirectional && !output.truncated && output.metrics == (
    TraversalMetrics {
        visited_nodes: 1,
        examined_edges: 0,
        peak_frontier_size: 1,
        depth_reached: 0,
    }))
    &&& src != dst ==> is_outcome((TwoEnds { steps: adjacency, src, dst }), budget, result)
    &&& is_path_answer(adjacency, src, dst, budget, nodes, result)
}

/// A search from both ends, under the `Partial` policy and a budget of twice the nodes and twice
/// the edges, agrees with a search from one end: both find a path or neither does, and the paths
/// are as long.
pub proof fn law_searches_agree(
    adjacency: Adjacency,
    nodes: Set<NodeId>,
    edges: Set<(NodeId, NodeId)>,
    src: NodeId,
    dst: NodeId,
    budget: TraversalBudget,
    both: Result<ShortestPathOutput>,
    single: Option<Path>,
)
    requires
        spans(adjacency, nodes, edges),
        nodes.contains(src),
        nodes.contains(dst),
        budget.max_visited_nodes >= 2 * nodes.len(),
        budget.max_frontier_size >= 2 * nodes.len(),
        budget.max_examined_edges >= 2 * edges.len(),
        budget.exhaustion_policy == BudgetExhaustionPolicy::Partial,
        is_search_result(adjacency, src, dst, budget, nodes.len(), both),
        is_shortest_answer(adjacency, src, dst, budget.max_depth as nat, single),
    ensures
        both matches Ok(output) && (output.path is Some <==> single is Some) && (output.path is Some
            ==> output.path->0@.len() == single->0@.len()),
{
    let ends = TwoEnds { steps: adjacency, src, dst };
    if src != dst {
        let (rounds, first, last, metrics, stop) = choose|
            rounds: nat,
            first: TraversalMetrics,
            last: nat,
            metrics: TraversalMetrics,
            stop: Option<BudgetDimension>,
        | #[trigger]
            ends.is_end(budget, rounds, first, last, metrics, stop) && is_reply(
                ends,
                budget,
                last,
                metrics,
                stop,
                both,
            );
        ends.lemma_only_depth_runs_out(
            budget,
            nodes,
            edges,
            rounds,
            first,
            last,
            metrics,
            stop,
        );
        if both->Ok_0.path is None && single is Some {
            if stop is Some {
                lemma_within_grows(adjacency, src, dst, budget.max_depth as nat, last);
            }
        }
    }
    if let Ok(output) = both {
        if let Some(path) = output.path {
            law_walk_bounds_distance(adjacency, path@);
            lemma_within_grows(
                adjacency,
                src,
                dst,
                (path@.len() - 1) as nat,
                budget.max_depth as nat,
            );
            law_neighborhood_matches_shortest_path(
                adjacency,
                path@,
                src,
                dst,
                (single->0@.len() - 1) as nat,
            );
        }
    }
}

/// The pairs of nodes that an edge with the label joins.
pub open spec fn joined_pairs<T: VectorType>(table: Table<T>, label: Option<Seq<char>>) -> Set<
    (NodeId, NodeId),
> {
    Set::new(|pair: (NodeId, NodeId)| outgoing(table, label)(pair.0, pair.1))
}

/// Finitely many nodes make finitely many pairs.
proof fn lemma_pairs_finite(some: Set<NodeId>, nodes: Set<NodeId>)
    requires
        some.finite(),
        nodes.finite(),
    ensures
        Set::new(
            |pair: (NodeId, NodeId)| some.contains(pair.0) && nodes.contains(pair.1),
        ).finite(),
    decreases some.len(),
{
    let pairs = Set::new(
        |pair: (NodeId, NodeId)| some.contains(pair.0) && nodes.contains(pair.1),
    );
    if some.len() == 0 {
        assert(pairs =~= Set::empty());
    } else {
        let one = some.choose();
        let rest = some.remove(one);
        lemma_pairs_finite(rest, nodes);
        let before = Set::new(
            |pair: (NodeId, NodeId)| rest.contains(pair.0) && nodes.contains(pair.1),
        );
        let own = nodes.map(|id: NodeId| (one, id));
        nodes.lemma_map_finite(|id: NodeId| (one, id));
        assert forall|pair: (NodeId, NodeId)| pairs.contains(pair) implies before.union(
            own,
        ).contains(pair) by {
            if pair.0 == one {
                assert(own.contains((one, pair.1)));
            }
        }
        assert(pairs.subset_of(before.union(own)));
        vstd::set_lib::lemma_set_subset_finite(before.union(own), pairs);
    }
}

/// In a table, a search from both ends agrees with a search from one end, under the `Partial`
/// policy and bounds of twice the nodes and twice the pairs of nodes that are joined.
pub proof fn law_searches_agree_on_a_table<T: VectorType>(
    table: Table<T>,
    label: Option<Seq<char>>,
    src: NodeId,
    dst: NodeId,
    budget: TraversalBudget,
    both: Result<ShortestPathOutput>,
    single: Option<Path>,
)
    requires
        table.well_formed(),
        table.nodes.contains_key(src),
        table.nodes.contains_key(dst),
        budget.max_visited_nodes >= 2 * table.nodes.dom().len(),
        budget.max_frontier_size >= 2 * table.nodes.dom().len(),
        budget.max_examined_edges >= 2 * joined_pairs(table, label).len(),
        budget.exhaustion_policy == BudgetExhaustionPolicy::Partial,
        is_search_result(
            outgoing(table, label),
            src,
            dst,
            budget,
            table.nodes.dom().len(),
            both,
        ),
        is_shortest_answer(outgoing(table, label), src, dst, budget.max_depth as nat, single),
    ensures
        both matches Ok(output) && (output.path is Some <==> single is Some) && (output.path is Some
            ==> output.path->0@.len() == single->0@.len()),
{
    let adjacency = outgoing(table, label);
    let nodes = table.nodes.dom();
    let pairs = joined_pairs(table, label);
    assert forall|a: NodeId, b: NodeId| #[trigger] adjacency(a, b) implies nodes.contains(a)
        && nodes.contains(b) && pairs.contains((a, b)) by {
        assert(has_edge(table, label, a, b));
    }
    lemma_pairs_finite(nodes, nodes);
    let all = Set::new(
        |pair: (NodeId, NodeId)| nodes.contains(pair.0) && nodes.contains(pair.1),
    );
    assert forall|pair: (NodeId, NodeId)| #[trigger] pairs.contains(pair) implies all.contains(
        pair,
    ) by {
        assert(adjacency(pair.0, pair.1));
    }
    vstd::set_lib::lemma_set_subset_finite(all, pairs);
    law_searches_agree(adjacency, nodes, pairs, src, dst, budget, both, single);
}

/// A shortest path from `src` to `dst` along edges with the label, searched from both ends.
///
/// The side with fewer nodes at its last level goes one level deeper in each round, until the
/// sides meet, one of them has nowhere to go, or a bound of the budget is reached. A path that is
/// returned is a shortest one, and among those the one with the least nodes as seen from where
/// the sides meet. Without a path and without truncation `dst` cannot be reached. The search fails
/// when a bound is reached under the `Error` policy; a budget that covers the table does not run
/// out before a path within the depth bound is found.
#[verifier::spinoff_prover]
#[verifier::rlimit(60)]
pub fn shortest_path_bidirectional<T: VectorType>(
    mt: &MemTable<T>,
    src: NodeId,
    dst: NodeId,
    label_filter: Option<&str>,
    budget: &TraversalBudget,
) -> (result: Result<ShortestPathOutput>)
    requires
        mt.inv(),
    ensures
        !budget.spec_valid() ==> (result matches Err(error) && is_invalid_input(
            error,
            zero_budget_message(),
        )),
        budget.spec_valid() && !mt@.nodes.contains_key(src) ==> result == Err::<
            ShortestPathOutput,
            TriviumError,
        >(TriviumError::NodeNotFound(src)),
        budget.spec_valid() && mt@.nodes.contains_key(src) && !mt@.nodes.contains_key(dst)
            ==> result == Err::<ShortestPathOutput, TriviumError>(TriviumError::NodeNotFound(dst)),
        budget.spec_valid() && mt@.nodes.contains_key(src) && mt@.nodes.contains_key(dst)
            ==> is_search_result(
            outgoing(mt@, label_view(label_filter)),
            src,
            dst,
            *budget,
            mt@.nodes.dom().len(),
            result,
        ),
{
    match budget.validate() {
        Ok(()) => {},
        Err(error) => {
            return Err(error);
        },
    }
    match mt.validate_link(src, dst) {
        Ok(()) => {},
        Err(error) => {
            return Err(error);
        },
    }
    let ghost adjacency = outgoing(mt@, label_view(label_filter));
    let ghost near = within(adjacency, src, dst, budget.max_depth as nat);
    let ghost count = mt@.nodes.dom().len();
    let ghost ends = TwoEnds { steps: adjacency, src, dst };
    proof {
        mt.lemma_inv();
    }
    if src == dst {
        let mut path: Path = Vec::new();
        path.push(src);
        assert(path@ =~= seq![src]);
        return Ok(
            ShortestPathOutput {
                path: Some(path),
                metrics: TraversalMetrics {
                    visited_nodes: 1,
                    examined_edges: 0,
                    peak_frontier_size: 1,
                    depth_reached: 0,
                },
                truncated: false,
                bidirectional: true,
            },
        );
    }
    let mut forward: Reached = HashMap::new();
    forward.insert(src, (0, None));
    let mut backward: Reached = HashMap::new();
    backward.insert(dst, (0, None));
    let mut forward_frontier: Vec<NodeId> = Vec::new();
    forward_frontier.push(src);
    let mut backward_frontier: Vec<NodeId> = Vec::new();
    backward_frontier.push(dst);
    let mut forward_level: usize = 0;
    let mut backward_level: usize = 0;
    let mut metrics = TraversalMetrics {
        visited_nodes: 2,
        examined_edges: 0,
        peak_frontier_size: 2,
        depth_reached: 0,
    };
    let mut truncated = false;
    let mut best: Option<(usize, NodeId)> = None;
    let ghost mut rounds: nat = 0;
    let ghost mut last: nat = 0;
    let ghost mut first = metrics;
    let ghost mut stop: Option<BudgetDimension> = None;
    proof {
        lemma_first_side(adjacency, src, forward@, forward_frontier@);
        lemma_first_side(reversed(adjacency), dst, backward@, backward_frontier@);
        lemma_side_ball(adjacency, src, forward@, 0, forward_frontier@);
        lemma_side_ball(reversed(adjacency), dst, backward@, 0, backward_frontier@);
        assert(edges_below(adjacency, src, 0) =~= Set::empty());
        assert(edges_below(reversed(adjacency), dst, 0) =~= Set::empty());
        forward_frontier@.unique_seq_to_set();
        backward_frontier@.unique_seq_to_set();
        assert(ends.is_measured(0, metrics));
        assert(forward@.dom().subset_of(mt@.nodes.dom()));
        assert(backward@.dom().subset_of(mt@.nodes.dom()));
        vstd::set_lib::lemma_len_subset(forward@.dom(), mt@.nodes.dom());
        assert(2 * count * count >= 0) by (nonlinear_arith);
        assert((forward@.dom().len() - forward_frontier@.len() + backward@.dom().len()
            - backward_frontier@.len()) * count == 0) by (nonlinear_arith)
            requires
                forward@.dom().len() - forward_frontier@.len() + backward@.dom().len()
                    - backward_frontier@.len() == 0,
        ;
    }
    while forward_frontier.len() > 0 && backward_frontier.len() > 0
        invariant_except_break
            !truncated,
            stop is None,
            first == metrics,
            last == rounds,
            rounds == forward_level + backward_level,
            ends.front(rounds, true).len() == forward_frontier@.len(),
            ends.front(rounds, false).len() == backward_frontier@.len(),
        invariant
            mt.inv(),
            mt@.well_formed(),
            src != dst,
            ends == (TwoEnds { steps: adjacency, src, dst }),
            ends.is_measured(rounds, first),
            forall|earlier: nat| earlier < rounds ==> #[trigger] ends.goes_on(*budget, earlier),
            increasing(forward_frontier@),
            increasing(backward_frontier@),
            !truncated ==> edges_below(adjacency, src, forward_level as nat).finite(),
            !truncated ==> edges_below(
                reversed(adjacency),
                dst,
                backward_level as nat,
            ).finite(),
            !truncated || best is Some ==> ends.levels(last) == (
                forward_level as nat,
                backward_level as nat,
            ),
            best is Some <==> within(adjacency, src, dst, last),
            best matches Some((distance, _)) ==> distance == forward_level + backward_level
                && distance == last,

            budget.spec_valid(),
            adjacency == outgoing(mt@, label_view(label_filter)),
            near == within(adjacency, src, dst, budget.max_depth as nat),
            count == mt@.nodes.dom().len(),
            mt@.nodes.contains_key(src),
            mt@.nodes.contains_key(dst),
            is_tree(adjacency, src, forward@),
            is_tree(reversed(adjacency), dst, backward@),
            forward_level + backward_level <= budget.max_depth,
            !truncated || best is Some ==> side_at(
                adjacency,
                src,
                forward@,
                forward_level as nat,
                forward_frontier@,
            ),
            !truncated || best is Some ==> side_at(
                reversed(adjacency),
                dst,
                backward@,
                backward_level as nat,
                backward_frontier@,
            ),
            !truncated || best is Some ==> is_best_meeting(forward@, backward@, best),
            !truncated ==> forward@.dom().subset_of(mt@.nodes.dom()),
            !truncated ==> backward@.dom().subset_of(mt@.nodes.dom()),
            !truncated ==> forward_frontier@.len() <= forward@.dom().len(),
            !truncated ==> backward_frontier@.len() <= backward@.dom().len(),
            !truncated ==> metrics.visited_nodes == forward@.dom().len() + backward@.dom().len(),
            !truncated ==> metrics.examined_edges <= (forward@.dom().len() - forward_frontier@.len()
                + backward@.dom().len() - backward_frontier@.len()) * count,
            metrics.examined_edges <= budget.max_examined_edges,
            metrics.depth_reached <= budget.max_depth,
            truncated ==> budget.exhaustion_policy == BudgetExhaustionPolicy::Partial,
            truncated ==> !(covers(*budget, count) && near),
        ensures
            truncated || best is Some || forward_frontier@.len() == 0 || backward_frontier@.len()
                == 0,
            ends.is_end(*budget, rounds, first, last, metrics, stop),
            truncated <==> stop is Some,
        decreases budget.max_depth - forward_level - backward_level,
    {
        let combined: usize = forward_level + backward_level;
        proof {
            lemma_side_ball(
                adjacency,
                src,
                forward@,
                forward_level as nat,
                forward_frontier@,
            );
            lemma_side_ball(
                reversed(adjacency),
                dst,
                backward@,
                backward_level as nat,
                backward_frontier@,
            );
        }
        if best.is_some() {
            break;
        }
        if combined >= budget.max_depth {
            proof {
                if near {
                    let middle = lemma_sides_cover(
                        adjacency,
                        src,
                        dst,
                        forward@,
                        backward@,
                        forward_level as nat,
                        backward_level as nat,
                        forward_frontier@,
                        backward_frontier@,
                        budget.max_depth as nat,
                    );
                    assert(forward@.contains_key(middle));
                }
            }
            proof {
                stop = Some(BudgetDimension::Depth);
                assert(ends.is_end(*budget, rounds, first, last, metrics, stop));
            }
            match exhausted(budget, BudgetDimension::Depth, metrics) {
                Ok(_) => {
                    truncated = true;
                },
                Err(error) => {
                    assert(is_budget_exceeded(error, BudgetDimension::Depth, metrics));
                    return Err(error);
                },
            }
            break;
        }
        let expand_forward = forward_frontier.len() <= backward_frontier.len();
        proof {
            vstd::set_lib::lemma_len_subset(forward@.dom(), mt@.nodes.dom());
            vstd::set_lib::lemma_len_subset(backward@.dom(), mt@.nodes.dom());
            lemma_level_fits(
                count,
                forward@.dom().len(),
                forward_frontier@.len(),
                backward@.dom().len(),
                backward_frontier@.len(),
                expand_forward,
            );
        }
        let expanded = if expand_forward {
            expand_level(
                mt,
                true,
                label_filter,
                budget,
                &mut forward,
                &backward,
                &forward_frontier,
                forward_level,
                &mut metrics,
                Ghost(src),
            )
        } else {
            expand_level(
                mt,
                false,
                label_filter,
                budget,
                &mut backward,
                &forward,
                &backward_frontier,
                backward_level,
                &mut metrics,
                Ghost(dst),
            )
        };
        proof {
            vstd::set_lib::lemma_len_subset(forward@.dom(), mt@.nodes.dom());
            vstd::set_lib::lemma_len_subset(backward@.dom(), mt@.nodes.dom());
        }
        let level = match expanded {
            Err(error) => {
                proof {
                    let dimension = choose|dimension: BudgetDimension|
                        is_budget_exceeded(error, dimension, metrics) && #[trigger] is_cut_short(
                            *budget,
                            ends.side(expand_forward),
                            ends.root(expand_forward),
                            ends.level(rounds, expand_forward),
                            first,
                            dimension,
                            metrics,
                        );
                    lemma_cut_does_not_fit(
                        *budget,
                        ends.side(expand_forward),
                        ends.root(expand_forward),
                        ends.level(rounds, expand_forward),
                        first,
                        dimension,
                        metrics,
                    );
                    assert(ends.is_end(*budget, rounds, first, last, metrics, Some(dimension)));
                }
                return Err(error);
            },
            Ok(None) => {
                proof {
                    let dimension = choose|dimension: BudgetDimension| #[trigger]
                        is_cut_short(
                            *budget,
                            ends.side(expand_forward),
                            ends.root(expand_forward),
                            ends.level(rounds, expand_forward),
                            first,
                            dimension,
                            metrics,
                        );
                    lemma_cut_does_not_fit(
                        *budget,
                        ends.side(expand_forward),
                        ends.root(expand_forward),
                        ends.level(rounds, expand_forward),
                        first,
                        dimension,
                        metrics,
                    );
                    stop = Some(dimension);
                    assert(ends.is_end(*budget, rounds, first, last, metrics, stop));
                }
                truncated = true;
                break;
            },
            Ok(Some(level)) => level,
        };
        let mut k: usize = 0;
        while k < level.meeting.len()
            invariant
                k <= level.meeting@.len(),
                forall|id: NodeId| #[trigger]
                    level.meeting@.contains(id) ==> forward@.contains_key(id)
                        && backward@.contains_key(id),
                forall|id: NodeId| #[trigger]
                    forward@.contains_key(id) && backward@.contains_key(id)
                        ==> level.meeting@.contains(id),
                forall|id: NodeId| #[trigger]
                    forward@.contains_key(id) && backward@.contains_key(id) ==> forward@[id].0
                        + backward@[id].0 <= budget.max_depth,
                match best {
                    None => k == 0,
                    Some((distance, meeting)) => {
                        &&& forward@.contains_key(meeting)
                        &&& backward@.contains_key(meeting)
                        &&& distance == forward@[meeting].0 + backward@[meeting].0
                        &&& forall|n: int|
                            0 <= n < k ==> distance < forward@[#[trigger] level.meeting@[n]].0
                                + backward@[level.meeting@[n]].0 || (distance
                                == forward@[level.meeting@[n]].0 + backward@[level.meeting@[n]].0
                                && meeting <= level.meeting@[n])
                    },
                },
            decreases level.meeting@.len() - k,
        {
            let node: NodeId = level.meeting[k];
            assert(level.meeting@.contains(node));
            let distance: usize = forward.get(&node).unwrap().0 + backward.get(&node).unwrap().0;
            best =
            match best {
                None => Some((distance, node)),
                Some((known, meeting)) => if distance < known || (distance == known && node
                    < meeting) {
                    Some((distance, node))
                } else {
                    Some((known, meeting))
                },
            };
            k += 1;
        }
        proof {
            assert(is_best_meeting(forward@, backward@, best)) by {
                match best {
                    None => {},
                    Some((distance, meeting)) => {
                        assert forall|id: NodeId| #[trigger]
                            forward@.contains_key(id) && backward@.contains_key(id) implies distance
                            < forward@[id].0 + backward@[id].0 || (distance == forward@[id].0
                            + backward@[id].0 && meeting <= id) by {
                            assert(level.meeting@.contains(id));
                            let n = choose|n: int|
                                0 <= n < level.meeting@.len() && level.meeting@[n] == id;
                            assert(level.meeting@[n] == id);
                        }
                    },
                }
            }
        }
        let next = sort_dedup(&level.next);
        let ghost next_len = next@.len();
        let next_size: usize = if expand_forward {
            forward_frontier = next;
            forward_level += 1;
            forward_frontier.len() + backward_frontier.len()
        } else {
            backward_frontier = next;
            backward_level += 1;
            backward_frontier.len() + forward_frontier.len()
        };
        if metrics.peak_frontier_size < next_size {
            metrics.peak_frontier_size = next_size;
        }
        proof {
            last = rounds + 1;
            ends.lemma_levels(rounds);
            lemma_side_ball(
                adjacency,
                src,
                forward@,
                forward_level as nat,
                forward_frontier@,
            );
            lemma_side_ball(
                reversed(adjacency),
                dst,
                backward@,
                backward_level as nat,
                backward_frontier@,
            );
            lemma_increasing_distinct(forward_frontier@);
            lemma_increasing_distinct(backward_frontier@);
            forward_frontier@.unique_seq_to_set();
            backward_frontier@.unique_seq_to_set();
            assert(ends.front(last, true).len() == forward_frontier@.len());
            assert(ends.front(last, false).len() == backward_frontier@.len());
            ends.lemma_next_round(rounds, first, metrics);
            assert(ends.fits(*budget, rounds, first));
            if within(adjacency, src, dst, last) {
                let middle = lemma_sides_cover(
                    adjacency,
                    src,
                    dst,
                    forward@,
                    backward@,
                    forward_level as nat,
                    backward_level as nat,
                    forward_frontier@,
                    backward_frontier@,
                    last,
                );
                assert(best is Some);
            }
            if let Some((distance, meeting)) = best {
                lemma_meeting_near(
                    adjacency,
                    src,
                    dst,
                    forward@,
                    backward@,
                    meeting,
                );
                lemma_within_grows(adjacency, src, dst, distance as nat, last);
                if distance < last {
                    lemma_within_grows(adjacency, src, dst, distance as nat, rounds);
                }
            }
        }
        if next_size > budget.max_frontier_size {
            proof {
                stop = Some(BudgetDimension::FrontierSize);
                assert(ends.is_end(*budget, rounds, first, last, metrics, stop));
            }
            match exhausted(budget, BudgetDimension::FrontierSize, metrics) {
                Ok(_) => {
                    truncated = true;
                },
                Err(error) => {
                    assert(is_budget_exceeded(error, BudgetDimension::FrontierSize, metrics));
                    return Err(error);
                },
            }
            break;
        }
        proof {
            assert(ends.goes_on(*budget, rounds));
            rounds = last;
            first = metrics;
        }
    }
    let path = match best {
        None => {
            proof {
                if !truncated {
                    assert forall|steps: nat| !#[trigger] within(adjacency, src, dst, steps) by {
                        if within(adjacency, src, dst, steps) {
                            if forward_frontier@.len() == 0 {
                                assert(forward_frontier@ =~= Seq::<NodeId>::empty());
                                lemma_exhausted_side(
                                    adjacency,
                                    src,
                                    forward@,
                                    forward_level as nat,
                                    dst,
                                    steps,
                                );
                                assert(backward@.contains_key(dst));
                            } else {
                                assert(backward_frontier@ =~= Seq::<NodeId>::empty());
                                let start = lemma_within_split(adjacency, src, dst, 0, steps);
                                assert(start == src);
                                lemma_exhausted_side(
                                    reversed(adjacency),
                                    dst,
                                    backward@,
                                    backward_level as nat,
                                    src,
                                    steps,
                                );
                                assert(forward@.contains_key(src));
                            }
                        }
                    }
                }
            }
            None
        },
        Some((distance, meeting)) => {
            let found = reconstruct_bidirectional(
                meeting,
                &forward,
                &backward,
                Ghost(adjacency),
                Ghost(src),
                Ghost(dst),
            );
            proof {
                law_walk_bounds_distance(adjacency, found@);
                lemma_picked(
                    ends,
                    forward@,
                    backward@,
                    forward_level as nat,
                    backward_level as nat,
                    forward_frontier@,
                    backward_frontier@,
                    meeting,
                    found@,
                );
                assert forall|fewer: nat| fewer < found@.len() - 1 implies !#[trigger] within(
                    adjacency,
                    src,
                    dst,
                    fewer,
                ) by {
                    if within(adjacency, src, dst, fewer) {
                        let middle = lemma_sides_cover(
                            adjacency,
                            src,
                            dst,
                            forward@,
                            backward@,
                            forward_level as nat,
                            backward_level as nat,
                            forward_frontier@,
                            backward_frontier@,
                            fewer,
                        );
                        assert(forward@.contains_key(middle));
                    }
                }
            }
            Some(found)
        },
    };
    let output = ShortestPathOutput { path, metrics, truncated, bidirectional: true };
    assert(is_reply(ends, *budget, last, metrics, stop, Ok(output)));
    Ok(output)
}

/// One side before its first level.
proof fn lemma_first_side(
    steps: Adjacency,
    root: NodeId,
    reached: Map<NodeId, (usize, Option<NodeId>)>,
    frontier: Seq<NodeId>,
)
    requires
        reached == Map::<NodeId, (usize, Option<NodeId>)>::empty().insert(
            root,
            (0usize, None::<NodeId>),
        ),
        frontier == Seq::<NodeId>::empty().push(root),
    ensures
        side_at(steps, root, reached, 0, frontier),
        reached.dom().len() == 1,
        frontier.len() == 1,
{
    assert(reached.dom() =~= Set::<NodeId>::empty().insert(root));
    assert forall|id: NodeId| #[trigger] frontier.contains(id) <==> reached.contains_key(id)
        && reached[id].0 == 0 by {
        assert(frontier[0] == root);
    }
}

/// A level of a search that a covering budget allows for fits in that budget.
proof fn lemma_level_fits(
    nodes: nat,
    forward: nat,
    forward_frontier: nat,
    backward: nat,
    backward_frontier: nat,
    expand_forward: bool,
)
    requires
        forward <= nodes,
        backward <= nodes,
        forward_frontier <= forward,
        backward_frontier <= backward,
    ensures
        (forward - forward_frontier + backward - backward_frontier) * nodes + (if expand_forward {
            forward_frontier
        } else {
            backward_frontier
        }) * nodes <= 2 * nodes * nodes,
        (forward - forward_frontier + backward - backward_frontier) * nodes + forward_frontier
            * nodes == (forward + backward - backward_frontier) * nodes,
        (forward - forward_frontier + backward - backward_frontier) * nodes + backward_frontier
            * nodes == (forward - forward_frontier + backward) * nodes,
{
    assert((forward - forward_frontier + backward - backward_frontier) * nodes + forward_frontier
        * nodes == (forward + backward - backward_frontier) * nodes) by (nonlinear_arith);
    assert((forward - forward_frontier + backward - backward_frontier) * nodes + backward_frontier
        * nodes == (forward - forward_frontier + backward) * nodes) by (nonlinear_arith);
    assert((forward + backward - backward_frontier) * nodes <= (2 * nodes) * nodes)
        by (nonlinear_arith)
        requires
            forward + backward - backward_frontier <= 2 * nodes,
    ;
    assert((forward - forward_frontier + backward) * nodes <= (2 * nodes) * nodes)
        by (nonlinear_arith)
        requires
            forward - forward_frontier + backward <= 2 * nodes,
    ;
}

} // verus!
