//! Paths of least cost.
use std::collections::{BTreeMap, BTreeSet};
use vstd::prelude::*;

use crate::collections::{lemma_contains_push, lemma_to_set_push, map_keys};
use crate::error::{
    invalid_input, is_invalid_input, is_query_execution, query_execution, Result, TriviumError,
};
use crate::graph::bounded::{ids_before, ids_less, lemma_ids_order, lemma_ids_transitive};
use crate::graph::workspace::{names, GraphWorkspace};
use crate::node::NodeId;
use crate::number::{f32_finite, f32_is_finite, f32_less, spec_f32_less, F64_INFINITY};

verus! {

/// A path and its cost, a double precision bit pattern.
#[derive(Debug)]
pub struct WeightedPath {
    pub nodes: Vec<NodeId>,
    pub cost: u64,
}

/// Whether a weight can be part of a cost: a finite number that is not negative.
pub open spec fn is_weight(weight: u32) -> bool {
    f32_finite(weight) && !spec_f32_less(weight, 0)
}

/// Whether every weight can be part of a cost.
pub open spec fn has_weights(graph: &GraphWorkspace) -> bool {
    forall|id: NodeId, i: int|
        graph.nodes().contains(id) && 0 <= i < graph.weighted@[id]@.len() ==> is_weight(
            (#[trigger] graph.weighted@[id]@[i]).1,
        )
}

/// A cost with one more weight.
pub open spec fn cost_sum<F: Fn(u64, u32) -> u64>(plus: F, cost: u64, weight: u32) -> u64 {
    choose|sum: u64| call_ensures(plus, (cost, weight), sum)
}

/// Whether a function adds a weight to a cost as numbers are added: always, with one result, that
/// is no less than the cost and grows with it. Costs are the encodings up to that of infinity,
/// whose order as integers is that of the numbers.
pub open spec fn adds_costs<F: Fn(u64, u32) -> u64>(plus: F) -> bool {
    &&& forall|cost: u64, weight: u32| call_requires(plus, (cost, weight))
    &&& forall|cost: u64, weight: u32, sum: u64|
        call_ensures(plus, (cost, weight), sum) ==> sum == cost_sum(plus, cost, weight)
    &&& forall|cost: u64, weight: u32|
        cost <= F64_INFINITY && is_weight(weight) ==> cost <= #[trigger] cost_sum(
            plus,
            cost,
            weight,
        ) <= F64_INFINITY
    &&& forall|low: u64, high: u64, weight: u32|
        low <= high <= F64_INFINITY && is_weight(weight) ==> #[trigger] cost_sum(plus, low, weight)
            <= #[trigger] cost_sum(plus, high, weight)
}

/// What a search has to avoid: some nodes, and some first steps.
pub struct Detour {
    pub source: NodeId,
    pub banned: Set<NodeId>,
    pub banned_next: Set<NodeId>,
}

/// The weight of the edge from one node to another.
pub open spec fn weight_of(graph: &GraphWorkspace, from: NodeId, to: NodeId) -> u32 {
    choose|weight: u32| graph.weighted@[from]@.contains((to, weight))
}

/// Whether a search may take a step.
pub open spec fn is_open(graph: &GraphWorkspace, detour: Detour, from: NodeId, to: NodeId) -> bool {
    graph.has(from, to) && !detour.banned.contains(to) && !(from == detour.source
        && detour.banned_next.contains(to))
}

/// Whether a search may take a step of a path.
pub open spec fn is_step(
    graph: &GraphWorkspace,
    detour: Detour,
    path: Seq<NodeId>,
    i: int,
) -> bool {
    is_open(graph, detour, path[i], path[i + 1])
}

/// Whether a path starts at the source and takes only steps that a search may take.
pub open spec fn is_route(graph: &GraphWorkspace, detour: Detour, path: Seq<NodeId>) -> bool {
    &&& path.len() > 0
    &&& path[0] == detour.source
    &&& graph.nodes().contains(detour.source)
    &&& !detour.banned.contains(detour.source)
    &&& forall|i: int|
        0 <= i < path.len() - 1 ==> #[trigger] is_step(graph, detour, path, i)
}

/// The cost of a path: the weights of its edges, added up from its start.
pub open spec fn route_cost<F: Fn(u64, u32) -> u64>(
    graph: &GraphWorkspace,
    plus: F,
    path: Seq<NodeId>,
) -> u64
    decreases path.len(),
{
    if path.len() <= 1 {
        0
    } else {
        cost_sum(
            plus,
            route_cost(graph, plus, path.drop_last()),
            weight_of(graph, path[path.len() - 2], path.last()),
        )
    }
}

/// Whether the cost of a path before its last step is finite.
pub open spec fn is_affordable<F: Fn(u64, u32) -> u64>(
    graph: &GraphWorkspace,
    plus: F,
    path: Seq<NodeId>,
) -> bool {
    path.len() == 1 || route_cost(graph, plus, path.drop_last()) < F64_INFINITY
}

/// Whether a path is preferred to another: it costs less, or as much and comes first.
pub open spec fn is_preferred(
    cost: u64,
    path: Seq<NodeId>,
    other_cost: u64,
    other: Seq<NodeId>,
) -> bool {
    cost < other_cost || (cost == other_cost && ids_before(path, other))
}

/// The costs and paths that a search found.
#[derive(Debug)]
pub struct PathSearch {
    pub distances: BTreeMap<NodeId, u64>,
    pub paths: BTreeMap<NodeId, Vec<NodeId>>,
}

/// Whether the path to a node is the path to the node before it with one more step.
pub open spec fn is_linked(paths: Map<NodeId, Vec<NodeId>>, id: NodeId) -> bool {
    let path = paths[id]@;
    path.len() > 1 ==> paths.contains_key(path[path.len() - 2]) && path.drop_last()
        == paths[path[path.len() - 2]]@
}

/// What every stage of a search keeps.
pub open spec fn is_search<F: Fn(u64, u32) -> u64>(
    graph: &GraphWorkspace,
    plus: F,
    detour: Detour,
    distances: Map<NodeId, u64>,
    paths: Map<NodeId, Vec<NodeId>>,
    settled: Set<NodeId>,
) -> bool {
    &&& distances.dom() == graph.nodes()
    &&& forall|id: NodeId| #[trigger] distances.contains_key(id) ==> distances[id] <= F64_INFINITY
    &&& forall|id: NodeId| #[trigger]
        paths.contains_key(id) ==> {
            &&& distances.contains_key(id)
            &&& is_route(graph, detour, paths[id]@)
            &&& paths[id]@.last() == id
            &&& paths[id]@.no_duplicates()
            &&& route_cost(graph, plus, paths[id]@) == distances[id]
            &&& is_affordable(graph, plus, paths[id]@)
        }
    &&& forall|id: NodeId, i: int|
        paths.contains_key(id) && 0 <= i < paths[id]@.len() - 1 ==> settled.contains(
            #[trigger] paths[id]@[i],
        )
    &&& forall|id: NodeId| #[trigger] paths.contains_key(id) ==> is_linked(paths, id)
    &&& forall|id: NodeId| #[trigger]
        distances.contains_key(id) && !paths.contains_key(id) ==> distances[id] == F64_INFINITY
    &&& forall|id: NodeId| #[trigger]
        settled.contains(id) ==> paths.contains_key(id) && distances[id] < F64_INFINITY
    &&& forall|near: NodeId, far: NodeId|
        #![trigger settled.contains(near), paths.contains_key(far)]
        settled.contains(near) && paths.contains_key(far) && !settled.contains(far) ==> is_preferred(
            distances[near],
            paths[near]@,
            distances[far],
            paths[far]@,
        )
}

/// Whether no step from a settled node leads to a better path.
pub open spec fn is_relaxed<F: Fn(u64, u32) -> u64>(
    graph: &GraphWorkspace,
    plus: F,
    detour: Detour,
    distances: Map<NodeId, u64>,
    paths: Map<NodeId, Vec<NodeId>>,
    from: NodeId,
    to: NodeId,
) -> bool {
    &&& paths.contains_key(to)
    &&& !is_preferred(
        cost_sum(plus, distances[from], weight_of(graph, from, to)),
        paths[from]@.push(to),
        distances[to],
        paths[to]@,
    )
}

/// Whether every step from a settled node other than the target has been looked at.
pub open spec fn all_relaxed<F: Fn(u64, u32) -> u64>(
    graph: &GraphWorkspace,
    plus: F,
    detour: Detour,
    distances: Map<NodeId, u64>,
    paths: Map<NodeId, Vec<NodeId>>,
    settled: Set<NodeId>,
    target: Option<NodeId>,
) -> bool {
    forall|from: NodeId, to: NodeId|
        settled.contains(from) && target != Some(from) && #[trigger] is_open(
            graph,
            detour,
            from,
            to,
        ) ==> is_relaxed(graph, plus, detour, distances, paths, from, to)
}

/// An edge is in the weighted list once, with its weight.
pub(crate) proof fn lemma_weight(graph: &GraphWorkspace, from: NodeId, i: int)
    requires
        graph.well_formed(),
        graph.nodes().contains(from),
        0 <= i < graph.weighted@[from]@.len(),
    ensures
        graph.has(from, graph.weighted@[from]@[i].0),
        weight_of(graph, from, graph.weighted@[from]@[i].0) == graph.weighted@[from]@[i].1,
{
    let list = graph.weighted@[from]@;
    let targets = graph.directed@[from]@;
    let to = list[i].0;
    assert(names(list, targets));
    assert(targets[i] == to);
    assert(targets.contains(to));
    assert(list.contains((to, list[i].1))) by {
        assert(list[i] == (to, list[i].1));
    }
    let weight = weight_of(graph, from, to);
    assert(list.contains((to, weight)));
    let k = choose|k: int| 0 <= k < list.len() && list[k] == (to, weight);
    assert(targets[k] == to);
    if k < i {
        assert(targets[k] < targets[i]);
    } else if i < k {
        assert(targets[i] < targets[k]);
    }
}

/// Every edge is in the weighted list.
pub(crate) proof fn lemma_edge_listed(graph: &GraphWorkspace, from: NodeId, to: NodeId) -> (i: int)
    requires
        graph.well_formed(),
        graph.has(from, to),
    ensures
        graph.nodes().contains(from),
        0 <= i < graph.weighted@[from]@.len(),
        graph.weighted@[from]@[i].0 == to,
        graph.weighted@[from]@[i].1 == weight_of(graph, from, to),
{
    let targets = graph.directed@[from]@;
    let k = choose|k: int| 0 <= k < targets.len() && targets[k] == to;
    assert(names(graph.weighted@[from]@, targets));
    assert(graph.weighted@[from]@[k].0 == to);
    lemma_weight(graph, from, k);
    k
}

/// Preference is strict and transitive, and total on different paths.
pub(crate) proof fn lemma_preferred(
    a: u64,
    x: Seq<NodeId>,
    b: u64,
    y: Seq<NodeId>,
    c: u64,
    z: Seq<NodeId>,
)
    ensures
        !is_preferred(a, x, a, x),
        is_preferred(a, x, b, y) ==> !is_preferred(b, y, a, x),
        is_preferred(a, x, b, y) && is_preferred(b, y, c, z) ==> is_preferred(a, x, c, z),
        is_preferred(a, x, b, y) && !is_preferred(c, z, b, y) ==> is_preferred(a, x, c, z),
        x != y ==> is_preferred(a, x, b, y) || is_preferred(b, y, a, x),
{
    lemma_ids_order(x, y);
    lemma_ids_order(y, z);
    lemma_ids_order(x, z);
    lemma_ids_order(z, y);
    if ids_before(x, y) && ids_before(y, z) {
        lemma_ids_transitive(x, y, z);
    }
    if ids_before(z, x) && ids_before(x, y) {
        lemma_ids_transitive(z, x, y);
    }
}

/// A longer path comes after its start.
proof fn lemma_extension_after(path: Seq<NodeId>, next: NodeId)
    ensures
        ids_before(path, path.push(next)),
    decreases path.len(),
{
    if path.len() > 0 {
        lemma_extension_after(path.drop_first(), next);
        assert(path.push(next).drop_first() =~= path.drop_first().push(next));
    }
}

/// Appending a step to a route.
proof fn lemma_route_push<F: Fn(u64, u32) -> u64>(
    graph: &GraphWorkspace,
    plus: F,
    detour: Detour,
    path: Seq<NodeId>,
    next: NodeId,
)
    requires
        is_route(graph, detour, path),
        is_open(graph, detour, path.last(), next),
    ensures
        is_route(graph, detour, path.push(next)),
        route_cost(graph, plus, path.push(next)) == cost_sum(
            plus,
            route_cost(graph, plus, path),
            weight_of(graph, path.last(), next),
        ),
{
    let longer = path.push(next);
    assert(longer.drop_last() =~= path);
    assert forall|i: int| 0 <= i < longer.len() - 1 implies #[trigger] is_step(graph, detour, longer, i) by {
        if i < path.len() - 1 {
            assert(is_step(graph, detour, path, i));
        }
    }
}

/// The settled nodes and the work that their edges took.
pub open spec fn settled_work(graph: &GraphWorkspace, order: Seq<NodeId>) -> nat
    decreases order.len(),
{
    if order.len() == 0 {
        0
    } else {
        settled_work(graph, order.drop_last()) + graph.weighted@[order.last()]@.len()
    }
}

/// Whether a node is settled by a route that costs a finite amount, and no more than any route to
/// the target.
pub open spec fn is_near<F: Fn(u64, u32) -> u64>(
    graph: &GraphWorkspace,
    plus: F,
    detour: Detour,
    target: Option<NodeId>,
    id: NodeId,
) -> bool {
    exists|path: Seq<NodeId>| #[trigger]
        is_route(graph, detour, path) && path.last() == id && route_cost(graph, plus, path)
            < F64_INFINITY && (target matches Some(goal) ==> forall|other: Seq<NodeId>| #[trigger]
            is_route(graph, detour, other) && other.last() == goal ==> route_cost(graph, plus, path)
                <= route_cost(graph, plus, other))
}

/// Whether `order` lists different nodes, each no farther than the target.
pub open spec fn are_near<F: Fn(u64, u32) -> u64>(
    graph: &GraphWorkspace,
    plus: F,
    detour: Detour,
    target: Option<NodeId>,
    order: Seq<NodeId>,
) -> bool {
    order.no_duplicates() && forall|i: int|
        0 <= i < order.len() ==> is_near(graph, plus, detour, target, #[trigger] order[i])
}

/// Whether `order` has every node that is nearer than the target.
pub open spec fn has_nearer<F: Fn(u64, u32) -> u64>(
    graph: &GraphWorkspace,
    plus: F,
    detour: Detour,
    target: Option<NodeId>,
    search: PathSearch,
    order: Seq<NodeId>,
) -> bool {
    forall|path: Seq<NodeId>| #[trigger]
        is_route(graph, detour, path) && route_cost(graph, plus, path) < F64_INFINITY && (
        target matches Some(goal) ==> path.last() != goal && route_cost(graph, plus, path)
            < search.distances@[goal]) ==> order.contains(path.last())
}

/// Whether a search is complete for a node: its distance is the least cost of a route to it, and
/// it has a path where a route can be afforded.
pub open spec fn is_settled_for<F: Fn(u64, u32) -> u64>(
    graph: &GraphWorkspace,
    plus: F,
    detour: Detour,
    search: PathSearch,
    id: NodeId,
) -> bool {
    &&& search.paths@.contains_key(id) ==> {
        let path = search.paths@[id]@;
        &&& is_route(graph, detour, path)
        &&& path.last() == id
        &&& path.no_duplicates()
        &&& is_affordable(graph, plus, path)
        &&& route_cost(graph, plus, path) == search.distances@[id]
    }
    &&& !search.paths@.contains_key(id) && graph.nodes().contains(id) ==> search.distances@[id]
        == F64_INFINITY
    &&& forall|path: Seq<NodeId>| #[trigger]
        is_route(graph, detour, path) && path.last() == id ==> search.distances@[id] <= route_cost(
            graph,
            plus,
            path,
        ) && (is_affordable(graph, plus, path) ==> search.paths@.contains_key(id))
}

/// Whether a search is complete: every node that can be reached is settled, or the target is; the
/// path to each node is that to the node before it with one more step, and no step from another
/// settled node makes a path that is preferred to it.
pub open spec fn is_complete<F: Fn(u64, u32) -> u64>(
    graph: &GraphWorkspace,
    plus: F,
    detour: Detour,
    target: Option<NodeId>,
    search: PathSearch,
    settled: Set<NodeId>,
) -> bool {
    &&& is_search(graph, plus, detour, search.distances@, search.paths@, settled)
    &&& all_relaxed(
        graph,
        plus,
        detour,
        search.distances@,
        search.paths@,
        settled,
        target,
    )
    &&& (forall|id: NodeId| #[trigger]
        search.distances@.contains_key(id) && !settled.contains(id) ==> search.distances@[id]
            >= F64_INFINITY) || (target matches Some(goal) && settled.contains(goal))
}

/// Whether a path is the one that a complete search has for its end.
pub open spec fn is_first_choice<F: Fn(u64, u32) -> u64>(
    graph: &GraphWorkspace,
    plus: F,
    detour: Detour,
    target: NodeId,
    path: Seq<NodeId>,
) -> bool {
    exists|search: PathSearch, settled: Set<NodeId>| #[trigger]
        is_complete(graph, plus, detour, Some(target), search, settled)
            && search.paths@.contains_key(target) && search.paths@[target]@ == path
}

/// A route costs no less than its start, and every cost is one.
pub(crate) proof fn lemma_cost_grows<F: Fn(u64, u32) -> u64>(
    graph: &GraphWorkspace,
    plus: F,
    detour: Detour,
    path: Seq<NodeId>,
)
    requires
        graph.well_formed(),
        has_weights(graph),
        adds_costs(plus),
        is_route(graph, detour, path),
    ensures
        route_cost(graph, plus, path) <= F64_INFINITY,
        path.len() > 1 ==> is_route(graph, detour, path.drop_last()) && route_cost(
            graph,
            plus,
            path.drop_last(),
        ) <= route_cost(graph, plus, path) && is_weight(
            weight_of(graph, path[path.len() - 2], path.last()),
        ) && graph.nodes().contains(path.last()),
    decreases path.len(),
{
    if path.len() > 1 {
        let start = path.drop_last();
        assert(is_route(graph, detour, start)) by {
            assert forall|i: int| 0 <= i < start.len() - 1 implies #[trigger] is_step(
                graph,
                detour,
                start,
                i,
            ) by {
                assert(is_step(graph, detour, path, i));
                assert(path[i] == start[i] && path[i + 1] == start[i + 1]);
            }
        }
        lemma_cost_grows(graph, plus, detour, start);
        let from = path[path.len() - 2];
        let to = path.last();
        assert(is_step(graph, detour, path, path.len() - 2));
        let k = lemma_edge_listed(graph, from, to);
        assert(is_weight(graph.weighted@[from]@[k].1));
    }
}

/// A route costs no less than what the search knows of its end, or than what every node that is
/// still open costs.
proof fn lemma_route_bound<F: Fn(u64, u32) -> u64>(
    graph: &GraphWorkspace,
    plus: F,
    detour: Detour,
    distances: Map<NodeId, u64>,
    paths: Map<NodeId, Vec<NodeId>>,
    settled: Set<NodeId>,
    target: Option<NodeId>,
    bound: u64,
    path: Seq<NodeId>,
)
    requires
        graph.well_formed(),
        has_weights(graph),
        adds_costs(plus),
        is_search(graph, plus, detour, distances, paths, settled),
        all_relaxed(graph, plus, detour, distances, paths, settled, target),
        paths.contains_key(detour.source),
        distances[detour.source] == 0,
        forall|id: NodeId| #[trigger]
            distances.contains_key(id) && (!settled.contains(id) || target == Some(id)) ==> bound
                <= distances[id],
        is_route(graph, detour, path),
    ensures
        distances[path.last()] <= route_cost(graph, plus, path) || bound <= route_cost(
            graph,
            plus,
            path,
        ),
    decreases path.len(),
{
    if path.len() > 1 {
        let start = path.drop_last();
        let from = start.last();
        let to = path.last();
        lemma_cost_grows(graph, plus, detour, path);
        lemma_cost_grows(graph, plus, detour, start);
        lemma_route_bound(
            graph,
            plus,
            detour,
            distances,
            paths,
            settled,
            target,
            bound,
            start,
        );
        assert(is_step(graph, detour, path, path.len() - 2));
        let weight = weight_of(graph, from, to);
        assert(distances.contains_key(from)) by {
            assert(graph.has(from, to));
        }
        assert(distances.contains_key(to)) by {
            assert(graph.has(from, to));
        }
        if distances[from] <= route_cost(graph, plus, start) && settled.contains(from) && target
            != Some(from) {
            assert(is_relaxed(graph, plus, detour, distances, paths, from, to));
            assert(cost_sum(plus, distances[from], weight) <= cost_sum(
                plus,
                route_cost(graph, plus, start),
                weight,
            ));
        }
    } else {
        assert(path.last() == detour.source);
    }
}

/// The node whose path is preferred among those that are still open and can be reached.
fn select_nearest(
    ids: &Vec<NodeId>,
    distances: &BTreeMap<NodeId, u64>,
    paths: &BTreeMap<NodeId, Vec<NodeId>>,
    settled: &BTreeSet<NodeId>,
) -> (nearest: Option<NodeId>)
    requires
        ids@.to_set() == distances@.dom(),
        forall|id: NodeId| #[trigger]
            distances@.contains_key(id) && distances@[id] < F64_INFINITY ==> paths@.contains_key(
                id,
            ),
        forall|id: NodeId| #[trigger]
            paths@.contains_key(id) ==> paths@[id]@.len() > 0 && paths@[id]@.last() == id,
    ensures
        match nearest {
            Some(id) => {
                &&& distances@.contains_key(id)
                &&& !settled@.contains(id)
                &&& distances@[id] < F64_INFINITY
                &&& forall|other: NodeId| #[trigger]
                    distances@.contains_key(other) && !settled@.contains(other) && distances@[other]
                        < F64_INFINITY && other != id ==> is_preferred(
                        distances@[id],
                        paths@[id]@,
                        distances@[other],
                        paths@[other]@,
                    )
            },
            None => forall|other: NodeId| #[trigger]
                distances@.contains_key(other) && !settled@.contains(other) ==> distances@[other]
                    >= F64_INFINITY,
        },
{
    let mut nearest: Option<NodeId> = None;
    let mut i: usize = 0;
    while i < ids.len()
        invariant
            ids@.to_set() == distances@.dom(),
            forall|id: NodeId| #[trigger]
                distances@.contains_key(id) && distances@[id] < F64_INFINITY
                    ==> paths@.contains_key(id),
            forall|id: NodeId| #[trigger]
                paths@.contains_key(id) ==> paths@[id]@.len() > 0 && paths@[id]@.last() == id,
            i <= ids@.len(),
            match nearest {
                Some(id) => {
                    &&& distances@.contains_key(id)
                    &&& !settled@.contains(id)
                    &&& distances@[id] < F64_INFINITY
                    &&& forall|k: int|
                        0 <= k < i && !settled@.contains(#[trigger] ids@[k])
                            && distances@[ids@[k]] < F64_INFINITY && ids@[k] != id ==> is_preferred(
                            distances@[id],
                            paths@[id]@,
                            distances@[ids@[k]],
                            paths@[ids@[k]]@,
                        )
                },
                None => forall|k: int|
                    0 <= k < i && !settled@.contains(#[trigger] ids@[k]) ==> distances@[ids@[k]]
                        >= F64_INFINITY,
            },
        decreases ids@.len() - i,
    {
        let id: NodeId = ids[i];
        proof {
            assert(ids@.contains(id));
            assert(ids@.to_set().contains(id));
        }
        let cost: u64 = *distances.get(&id).unwrap();
        if !settled.contains(&id) && cost < F64_INFINITY {
            let better = match nearest {
                None => true,
                Some(known) => {
                    let known_cost: u64 = *distances.get(&known).unwrap();
                    cost < known_cost || (cost == known_cost && ids_less(
                        paths.get(&id).unwrap(),
                        paths.get(&known).unwrap(),
                    ))
                },
            };
            proof {
                if nearest is Some {
                    let known = nearest->0;
                    assert forall|k: int|
                        0 <= k < i && !settled@.contains(#[trigger] ids@[k])
                            && distances@[ids@[k]] < F64_INFINITY && better && ids@[k]
                            != id implies is_preferred(
                        distances@[id],
                        paths@[id]@,
                        distances@[ids@[k]],
                        paths@[ids@[k]]@,
                    ) by {
                        lemma_preferred(
                            distances@[id],
                            paths@[id]@,
                            distances@[known],
                            paths@[known]@,
                            distances@[ids@[k]],
                            paths@[ids@[k]]@,
                        );
                    }
                    if !better && id != known {
                        assert(paths@[id]@.last() != paths@[known]@.last());
                        lemma_preferred(
                            distances@[id],
                            paths@[id]@,
                            distances@[known],
                            paths@[known]@,
                            0,
                            Seq::empty(),
                        );
                    }
                }
            }
            if better {
                nearest = Some(id);
            }
        }
        i += 1;
    }
    proof {
        assert forall|other: NodeId| #[trigger] distances@.contains_key(other) implies exists|k: int|
            0 <= k < ids@.len() && #[trigger] ids@[k] == other by {
            assert(ids@.to_set().contains(other));
        }
    }
    nearest
}

/// Whether an error says that the work allowed was not enough.
pub open spec fn is_work_fault(max_work: usize, error: TriviumError) -> bool {
    is_query_execution(
        error,
        if max_work == usize::MAX {
            "加权路径工作预算溢出"@
        } else {
            "加权路径超过工作预算 (Weighted path exceeds work budget)"@
        },
    )
}

/// Looks for the paths of least cost from a node, to all nodes or until the target is reached.
/// `work` counts the edges that were looked at. Where paths cost the same, the one that comes
/// first is taken.
pub(crate) fn shortest_weighted_path<F: Fn(u64, u32) -> u64>(
    graph: &GraphWorkspace,
    source: NodeId,
    target: Option<NodeId>,
    banned: &BTreeSet<NodeId>,
    banned_next: &BTreeSet<NodeId>,
    work: usize,
    max_work: usize,
    plus: &F,
) -> (result: Result<(PathSearch, usize)>)
    requires
        graph.well_formed(),
        has_weights(graph),
        adds_costs(*plus),
        work <= max_work,
    ensures
        ({
            let detour = Detour { source, banned: banned@, banned_next: banned_next@ };
            match result {
                Ok((search, spent)) => {
                    &&& search.distances@.dom() == graph.nodes()
                    &&& match target {
                        Some(goal) => is_settled_for(graph, *plus, detour, search, goal),
                        None => forall|id: NodeId| #[trigger]
                            graph.nodes().contains(id) ==> is_settled_for(
                                graph,
                                *plus,
                                detour,
                                search,
                                id,
                            ),
                    }
                    &&& target matches Some(goal) ==> (search.paths@.contains_key(goal)
                        ==> is_first_choice(graph, *plus, detour, goal, search.paths@[goal]@))
                    &&& spent <= max_work
                    &&& exists|order: Seq<NodeId>| #[trigger]
                        are_near(graph, *plus, detour, target, order) && has_nearer(
                            graph,
                            *plus,
                            detour,
                            target,
                            search,
                            order,
                        ) && spent == work + settled_work(graph, order)
                },
                Err(error) => is_work_fault(max_work, error) && exists|order: Seq<NodeId>|
                    #[trigger] are_near(graph, *plus, detour, target, order) && work
                        + settled_work(graph, order) > max_work,
            }
        }),
{
    let ghost detour = Detour { source, banned: banned@, banned_next: banned_next@ };
    let ids = map_keys(&graph.weighted);
    let mut distances: BTreeMap<NodeId, u64> = BTreeMap::new();
    let mut n: usize = 0;
    assert(distances@.dom() =~= ids@.take(0).to_set());
    while n < ids.len()
        invariant
            n <= ids@.len(),
            distances@.dom() == ids@.take(n as int).to_set(),
            forall|id: NodeId| #[trigger]
                distances@.contains_key(id) ==> distances@[id] == F64_INFINITY,
        decreases ids@.len() - n,
    {
        distances.insert(ids[n], F64_INFINITY);
        proof {
            assert(ids@.take(n + 1) =~= ids@.take(n as int).push(ids@[n as int]));
            lemma_to_set_push(ids@.take(n as int), ids@[n as int]);
            assert(distances@.dom() =~= ids@.take(n + 1).to_set());
        }
        n += 1;
    }
    assert(ids@.take(n as int) =~= ids@);
    let mut paths: BTreeMap<NodeId, Vec<NodeId>> = BTreeMap::new();
    if banned.contains(&source) || !distances.contains_key(&source) {
        let search = PathSearch { distances, paths };
        proof {
            assert(are_near(graph, *plus, detour, target, Seq::empty()));
            assert(has_nearer(graph, *plus, detour, target, search, Seq::empty()));
            assert(settled_work(graph, Seq::empty()) == 0);
        }
        return Ok((search, work));
    }
    distances.insert(source, 0);
    let mut first: Vec<NodeId> = Vec::new();
    first.push(source);
    paths.insert(source, first);
    let mut settled: BTreeSet<NodeId> = BTreeSet::new();
    let mut spent: usize = work;
    let ghost mut order: Seq<NodeId> = Seq::empty();
    proof {
        assert(distances@.dom() =~= graph.nodes());
        assert(first@ =~= seq![source]);
        assert(is_search(graph, *plus, detour, distances@, paths@, settled@));
    }
    let mut done = false;
    while !done
        invariant
            graph.well_formed(),
            has_weights(graph),
            adds_costs(*plus),
            detour == (Detour { source, banned: banned@, banned_next: banned_next@ }),
            ids@.to_set() == graph.nodes(),
            work <= max_work,
            work <= spent <= max_work,
            is_search(graph, *plus, detour, distances@, paths@, settled@),
            all_relaxed(graph, *plus, detour, distances@, paths@, settled@, target),
            paths@.contains_key(source),
            distances@[source] == 0,
            are_near(graph, *plus, detour, target, order),
            spent == work + settled_work(graph, order),
            settled@.finite(),
            settled@.subset_of(graph.nodes()),
            forall|id: NodeId| #[trigger]
                order.contains(id) <==> settled@.contains(id) && target != Some(id),
            done ==> (forall|id: NodeId| #[trigger]
                distances@.contains_key(id) && !settled@.contains(id) ==> distances@[id]
                    >= F64_INFINITY) || (target matches Some(goal) && settled@.contains(goal)),
            !done ==> (target matches Some(goal) ==> !settled@.contains(goal)),
        decreases graph.nodes().len() - settled@.len(), !done as int,
    {
        proof {
            vstd::set_lib::lemma_len_subset(settled@, graph.nodes());
        }
        match select_nearest(&ids, &distances, &paths, &settled) {
            None => {
                done = true;
            },
            Some(node) => {
                let ghost before = settled@;
                let cost: u64 = *distances.get(&node).unwrap();
                settled.insert(node);
                proof {
                    assert(settled@.remove(node) =~= before);
                    assert forall|id: NodeId| #[trigger]
                        settled@.contains(id) && id != node implies is_preferred(
                        distances@[id],
                        paths@[id]@,
                        distances@[node],
                        paths@[node]@,
                    ) by {
                        assert(before.contains(id));
                        assert(paths@.contains_key(node));
                    }
                    vstd::set_lib::lemma_len_subset(settled@, graph.nodes());
                    assert forall|id: NodeId| #[trigger]
                        paths@.contains_key(id) && !settled@.contains(id) implies is_preferred(
                        distances@[node],
                        paths@[node]@,
                        distances@[id],
                        paths@[id]@,
                    ) by {
                        assert(distances@.contains_key(id));
                    }
                    assert(is_search(graph, *plus, detour, distances@, paths@, settled@));
                }
                let reached = match target {
                    Some(goal) => goal == node,
                    None => false,
                };
                if reached {
                    proof {
                        assert(all_relaxed(
                            graph,
                            *plus,
                            detour,
                            distances@,
                            paths@,
                            settled@,
                            target,
                        ));
                    }
                    done = true;
                } else {
                    proof {
                        lemma_node_near(
                            graph,
                            *plus,
                            detour,
                            distances@,
                            paths@,
                            before,
                            target,
                            node,
                        );
                        lemma_near_push(graph, *plus, detour, target, order, node, before);
                    }
                    let edges = graph.weighted.get(&node).unwrap();
                    assert(settled_work(graph, order.push(node)) == settled_work(graph, order)
                        + edges@.len()) by {
                        assert(order.push(node).drop_last() =~= order);
                    }
                    if edges.len() > max_work - spent {
                        proof {
                            assert(are_near(graph, *plus, detour, target, order.push(node)));
                        }
                        if max_work == usize::MAX {
                            return Err(query_execution("加权路径工作预算溢出"));
                        }
                        return Err(
                            query_execution(
                                "加权路径超过工作预算 (Weighted path exceeds work budget)",
                            ),
                        );
                    }
                    spent += edges.len();
                    proof {
                        let longer = order.push(node);
                        assert forall|id: NodeId| #[trigger] longer.contains(id)
                            <==> settled@.contains(id) && target != Some(id) by {
                            lemma_contains_push(order, node, id);
                        }
                        order = longer;
                    }
                    proof {
                        reveal(is_relaxing);
                    }
                    relax_edges(
                        graph,
                        Ghost(detour),
                        node,
                        cost,
                        banned,
                        banned_next,
                        source,
                        &settled,
                        &mut distances,
                        &mut paths,
                        plus,
                        Ghost(target),
                    );
                }
            },
        }
    }
    let search = PathSearch { distances, paths };
    proof {
        lemma_search_done(graph, *plus, detour, search, settled@, target, order);
        assert(is_complete(graph, *plus, detour, target, search, settled@));
    }
    Ok((search, spent))
}

/// What holds while the edges of a node that was just settled are looked at.
#[verifier::opaque]
spec fn is_relaxing<F: Fn(u64, u32) -> u64>(
    graph: &GraphWorkspace,
    plus: F,
    detour: Detour,
    distances: Map<NodeId, u64>,
    paths: Map<NodeId, Vec<NodeId>>,
    settled: Set<NodeId>,
    target: Option<NodeId>,
    node: NodeId,
) -> bool {
    &&& settled.contains(node)
    &&& paths.contains_key(node)
    &&& paths.contains_key(detour.source)
    &&& distances[detour.source] == 0
    &&& is_search(graph, plus, detour, distances, paths, settled)
    &&& all_relaxed(graph, plus, detour, distances, paths, settled.remove(node), target)
    &&& forall|id: NodeId| #[trigger]
        settled.contains(id) && id != node ==> is_preferred(
            distances[id],
            paths[id]@,
            distances[node],
            paths[node]@,
        )
}

/// A step to a settled node is no better than what is known of it.
proof fn lemma_settled_relaxed<F: Fn(u64, u32) -> u64>(
    graph: &GraphWorkspace,
    plus: F,
    detour: Detour,
    distances: Map<NodeId, u64>,
    paths: Map<NodeId, Vec<NodeId>>,
    settled: Set<NodeId>,
    target: Option<NodeId>,
    node: NodeId,
    neighbor: NodeId,
)
    requires
        adds_costs(plus),
        is_relaxing(graph, plus, detour, distances, paths, settled, target, node),
        is_weight(weight_of(graph, node, neighbor)),
        settled.contains(neighbor),
    ensures
        is_relaxed(graph, plus, detour, distances, paths, node, neighbor),
{
    reveal(is_relaxing);
    let cost = distances[node];
    let prefix = paths[node]@;
    let sum = cost_sum(plus, cost, weight_of(graph, node, neighbor));
    assert(distances.contains_key(node));
    lemma_extension_after(prefix, neighbor);
    assert(is_preferred(cost, prefix, sum, prefix.push(neighbor)));
    lemma_preferred(
        distances[neighbor],
        paths[neighbor]@,
        cost,
        prefix,
        sum,
        prefix.push(neighbor),
    );
    lemma_preferred(
        distances[neighbor],
        paths[neighbor]@,
        sum,
        prefix.push(neighbor),
        0,
        Seq::empty(),
    );
    lemma_preferred(cost, prefix, sum, prefix.push(neighbor), 0, Seq::empty());
}

/// A step to a node that is not settled makes a path without repetition.
proof fn lemma_candidate<F: Fn(u64, u32) -> u64>(
    graph: &GraphWorkspace,
    plus: F,
    detour: Detour,
    distances: Map<NodeId, u64>,
    paths: Map<NodeId, Vec<NodeId>>,
    settled: Set<NodeId>,
    target: Option<NodeId>,
    node: NodeId,
    neighbor: NodeId,
)
    requires
        is_relaxing(graph, plus, detour, distances, paths, settled, target, node),
        is_open(graph, detour, node, neighbor),
        !settled.contains(neighbor),
    ensures
        is_route(graph, detour, paths[node]@.push(neighbor)),
        route_cost(graph, plus, paths[node]@.push(neighbor)) == cost_sum(
            plus,
            distances[node],
            weight_of(graph, node, neighbor),
        ),
        paths[node]@.push(neighbor).no_duplicates(),
{
    reveal(is_relaxing);
    let prefix = paths[node]@;
    let longer = prefix.push(neighbor);
    lemma_route_push(graph, plus, detour, prefix, neighbor);
    assert forall|a: int, b: int|
        0 <= a < longer.len() && 0 <= b < longer.len() && a != b implies longer[a] != longer[b] by {
        let (x, y) = if a < b {
            (a, b)
        } else {
            (b, a)
        };
        if y < prefix.len() {
            assert(prefix[x] != prefix[y]);
        } else {
            assert(longer[x] == prefix[x]);
            if x < prefix.len() - 1 {
                assert(settled.contains(paths[node]@[x]));
            } else {
                assert(prefix.last() == node);
            }
        }
    }
}

/// What the loop over the edges needs to know.
proof fn lemma_relaxing_facts<F: Fn(u64, u32) -> u64>(
    graph: &GraphWorkspace,
    plus: F,
    detour: Detour,
    distances: Map<NodeId, u64>,
    paths: Map<NodeId, Vec<NodeId>>,
    settled: Set<NodeId>,
    target: Option<NodeId>,
    node: NodeId,
)
    requires
        is_relaxing(graph, plus, detour, distances, paths, settled, target, node),
    ensures
        settled.contains(node),
        distances.dom() == graph.nodes(),
        distances.contains_key(node),
        paths.contains_key(node),
{
    reveal(is_relaxing);
}

/// Looks at the edges of a node that was just settled.
fn relax_edges<F: Fn(u64, u32) -> u64>(
    graph: &GraphWorkspace,
    Ghost(detour): Ghost<Detour>,
    node: NodeId,
    cost: u64,
    banned: &BTreeSet<NodeId>,
    banned_next: &BTreeSet<NodeId>,
    source: NodeId,
    settled: &BTreeSet<NodeId>,
    distances: &mut BTreeMap<NodeId, u64>,
    paths: &mut BTreeMap<NodeId, Vec<NodeId>>,
    plus: &F,
    Ghost(target): Ghost<Option<NodeId>>,
)
    requires
        graph.well_formed(),
        has_weights(graph),
        adds_costs(*plus),
        detour == (Detour { source, banned: banned@, banned_next: banned_next@ }),
        target != Some(node),
        cost == old(distances)@[node],
        is_relaxing(
            graph,
            *plus,
            detour,
            old(distances)@,
            old(paths)@,
            settled@,
            target,
            node,
        ),
    ensures
        is_search(graph, *plus, detour, final(distances)@, final(paths)@, settled@),
        all_relaxed(
            graph,
            *plus,
            detour,
            final(distances)@,
            final(paths)@,
            settled@,
            target,
        ),
        final(paths)@.contains_key(source),
        final(distances)@[source] == 0,
{
    proof {
        lemma_relaxing_facts(
            graph,
            *plus,
            detour,
            distances@,
            paths@,
            settled@,
            target,
            node,
        );
    }
    let edges = graph.weighted.get(&node).unwrap();
    let prefix: Vec<NodeId> = crate::vector::copy_slice(paths.get(&node).unwrap().as_slice());
    let mut i: usize = 0;
    while i < edges.len()
        invariant
            graph.well_formed(),
            has_weights(graph),
            adds_costs(*plus),
            detour == (Detour { source, banned: banned@, banned_next: banned_next@ }),
            graph.nodes().contains(node),
            *edges == graph.weighted@[node],
            i <= edges@.len(),
            cost == distances@[node],
            prefix@ == paths@[node]@,
            is_relaxing(
                graph,
                *plus,
                detour,
                distances@,
                paths@,
                settled@,
                target,
                node,
            ),
            forall|k: int|
                0 <= k < i && is_open(graph, detour, node, (#[trigger] edges@[k]).0) ==> is_relaxed(
                    graph,
                    *plus,
                    detour,
                    distances@,
                    paths@,
                    node,
                    edges@[k].0,
                ),
        decreases edges@.len() - i,
    {
        let (neighbor, weight): (NodeId, u32) = edges[i];
        let ghost before = distances@;
        let ghost before_paths = paths@;
        proof {
            lemma_weight(graph, node, i as int);
            assert(is_weight(graph.weighted@[node]@[i as int].1));
            lemma_relaxing_facts(
                graph,
                *plus,
                detour,
                distances@,
                paths@,
                settled@,
                target,
                node,
            );
            assert(graph.has(node, neighbor));
            assert(distances@.contains_key(neighbor));
        }
        if banned.contains(&neighbor) || (node == source && banned_next.contains(&neighbor)) {
            assert(!is_open(graph, detour, node, neighbor));
        } else if settled.contains(&neighbor) {
            proof {
                lemma_settled_relaxed(
                    graph,
                    *plus,
                    detour,
                    distances@,
                    paths@,
                    settled@,
                    target,
                    node,
                    neighbor,
                );
            }
        } else {
            let candidate_cost: u64 = plus(cost, weight);
            let mut candidate: Vec<NodeId> = crate::vector::copy_slice(prefix.as_slice());
            candidate.push(neighbor);
            let current: u64 = *distances.get(&neighbor).unwrap();
            let replace = candidate_cost < current || (candidate_cost == current
                && match paths.get(&neighbor) {
                None => true,
                Some(known) => ids_less(&candidate, known),
            });
            proof {
                assert(is_open(graph, detour, node, neighbor));
                lemma_candidate(
                    graph,
                    *plus,
                    detour,
                    distances@,
                    paths@,
                    settled@,
                    target,
                    node,
                    neighbor,
                );
            }
            if replace {
                distances.insert(neighbor, candidate_cost);
                paths.insert(neighbor, candidate);
                proof {
                    lemma_relaxing_replaced(
                        graph,
                        *plus,
                        detour,
                        before,
                        before_paths,
                        settled@,
                        target,
                        node,
                        neighbor,
                        candidate_cost,
                        candidate,
                        distances@,
                        paths@,
                    );
                }
            } else {
                proof {
                    lemma_known_path(
                        graph,
                        *plus,
                        detour,
                        distances@,
                        paths@,
                        settled@,
                        target,
                        node,
                        neighbor,
                    );
                }
                assert(is_relaxed(graph, *plus, detour, distances@, paths@, node, neighbor));
            }
        }
        proof {
            assert forall|k: int|
                0 <= k < i + 1 && is_open(
                    graph,
                    detour,
                    node,
                    (#[trigger] edges@[k]).0,
                ) implies is_relaxed(
                graph,
                *plus,
                detour,
                distances@,
                paths@,
                node,
                edges@[k].0,
            ) by {
                if k < i {
                    assert(is_relaxed(
                        graph,
                        *plus,
                        detour,
                        before,
                        before_paths,
                        node,
                        edges@[k].0,
                    ));
                    assert(names(edges@, graph.directed@[node]@));
                    assert(graph.directed@[node]@[k] < graph.directed@[node]@[i as int]);
                }
            }
        }
        i += 1;
    }
    proof {
        reveal(is_relaxing);
        assert forall|from: NodeId, to: NodeId|
            settled@.contains(from) && target != Some(from) && #[trigger] is_open(
                graph,
                detour,
                from,
                to,
            ) implies is_relaxed(graph, *plus, detour, distances@, paths@, from, to) by {
            if from == node {
                let k = lemma_edge_listed(graph, node, to);
                assert(edges@[k].0 == to);
            } else {
                assert(settled@.remove(node).contains(from));
            }
        }
    }
}

/// A node whose known cost is no more than a finite one, or as much as any, has a path.
proof fn lemma_known_path<F: Fn(u64, u32) -> u64>(
    graph: &GraphWorkspace,
    plus: F,
    detour: Detour,
    distances: Map<NodeId, u64>,
    paths: Map<NodeId, Vec<NodeId>>,
    settled: Set<NodeId>,
    target: Option<NodeId>,
    node: NodeId,
    neighbor: NodeId,
)
    requires
        is_relaxing(graph, plus, detour, distances, paths, settled, target, node),
        adds_costs(plus),
        is_weight(weight_of(graph, node, neighbor)),
        distances.contains_key(neighbor),
        ({
            let sum = cost_sum(plus, distances[node], weight_of(graph, node, neighbor));
            !(sum < distances[neighbor]) && (sum == distances[neighbor] ==> paths.contains_key(
                neighbor,
            ))
        }),
    ensures
        paths.contains_key(neighbor),
{
    reveal(is_relaxing);
    assert(distances.contains_key(node));
    let sum = cost_sum(plus, distances[node], weight_of(graph, node, neighbor));
    assert(sum <= F64_INFINITY);
}

/// A better path takes the place of another.
proof fn lemma_relaxing_replaced<F: Fn(u64, u32) -> u64>(
    graph: &GraphWorkspace,
    plus: F,
    detour: Detour,
    distances: Map<NodeId, u64>,
    paths: Map<NodeId, Vec<NodeId>>,
    settled: Set<NodeId>,
    target: Option<NodeId>,
    node: NodeId,
    neighbor: NodeId,
    cost: u64,
    candidate: Vec<NodeId>,
    distances_after: Map<NodeId, u64>,
    paths_after: Map<NodeId, Vec<NodeId>>,
)
    requires
        graph.well_formed(),
        has_weights(graph),
        adds_costs(plus),
        is_relaxing(graph, plus, detour, distances, paths, settled, target, node),
        distances.contains_key(neighbor),
        !settled.contains(neighbor),
        is_open(graph, detour, node, neighbor),
        is_weight(weight_of(graph, node, neighbor)),
        cost == cost_sum(plus, distances[node], weight_of(graph, node, neighbor)),
        candidate@ == paths[node]@.push(neighbor),
        candidate@.no_duplicates(),
        is_route(graph, detour, candidate@),
        route_cost(graph, plus, candidate@) == cost,
        cost < distances[neighbor] || (cost == distances[neighbor] && (!paths.contains_key(neighbor)
            || ids_before(candidate@, paths[neighbor]@))),
        distances_after == distances.insert(neighbor, cost),
        paths_after == paths.insert(neighbor, candidate),
    ensures
        is_relaxing(
            graph,
            plus,
            detour,
            distances_after,
            paths_after,
            settled,
            target,
            node,
        ),
        is_relaxed(graph, plus, detour, distances_after, paths_after, node, neighbor),
        distances_after[node] == distances[node],
        paths_after[node] == paths[node],
{
    reveal(is_relaxing);
    lemma_replaced(
        graph,
        plus,
        detour,
        distances,
        paths,
        settled,
        target,
        node,
        neighbor,
        cost,
        candidate,
        distances_after,
        paths_after,
    );
}

/// A node that is about to be settled is no farther than the target.
proof fn lemma_node_near<F: Fn(u64, u32) -> u64>(
    graph: &GraphWorkspace,
    plus: F,
    detour: Detour,
    distances: Map<NodeId, u64>,
    paths: Map<NodeId, Vec<NodeId>>,
    settled: Set<NodeId>,
    target: Option<NodeId>,
    node: NodeId,
)
    requires
        graph.well_formed(),
        has_weights(graph),
        adds_costs(plus),
        is_search(graph, plus, detour, distances, paths, settled),
        all_relaxed(graph, plus, detour, distances, paths, settled, target),
        paths.contains_key(detour.source),
        distances[detour.source] == 0,
        target matches Some(goal) ==> !settled.contains(goal),
        paths.contains_key(node),
        distances[node] < F64_INFINITY,
        forall|other: NodeId| #[trigger]
            distances.contains_key(other) && !settled.contains(other) && distances[other]
                < F64_INFINITY && other != node ==> is_preferred(
                distances[node],
                paths[node]@,
                distances[other],
                paths[other]@,
            ),
    ensures
        is_near(graph, plus, detour, target, node),
{
    let path = paths[node]@;
    assert(is_route(graph, detour, path) && path.last() == node);
    if target is Some {
        let goal = target->0;
        assert forall|other: Seq<NodeId>| #[trigger]
            is_route(graph, detour, other) && other.last() == goal implies route_cost(
            graph,
            plus,
            path,
        ) <= route_cost(graph, plus, other) by {
            lemma_route_bound(
                graph,
                plus,
                detour,
                distances,
                paths,
                settled,
                target,
                distances[node],
                other,
            );
            lemma_cost_grows(graph, plus, detour, other);
            assert(distances.contains_key(goal));
        }
    }
}

/// One more node.
proof fn lemma_near_push<F: Fn(u64, u32) -> u64>(
    graph: &GraphWorkspace,
    plus: F,
    detour: Detour,
    target: Option<NodeId>,
    order: Seq<NodeId>,
    node: NodeId,
    settled: Set<NodeId>,
)
    requires
        are_near(graph, plus, detour, target, order),
        is_near(graph, plus, detour, target, node),
        !settled.contains(node),
        forall|id: NodeId| #[trigger]
            order.contains(id) <==> settled.contains(id) && target != Some(id),
    ensures
        are_near(graph, plus, detour, target, order.push(node)),
{
    let longer = order.push(node);
    assert(!order.contains(node));
    assert forall|i: int| 0 <= i < longer.len() implies is_near(
        graph,
        plus,
        detour,
        target,
        #[trigger] longer[i],
    ) by {
        if i < order.len() {
            assert(is_near(graph, plus, detour, target, order[i]));
        }
    }
}

/// A better path in the place of another makes a search, too.
proof fn lemma_replaced_search<F: Fn(u64, u32) -> u64>(
    graph: &GraphWorkspace,
    plus: F,
    detour: Detour,
    distances: Map<NodeId, u64>,
    paths: Map<NodeId, Vec<NodeId>>,
    settled: Set<NodeId>,
    target: Option<NodeId>,
    node: NodeId,
    neighbor: NodeId,
    cost: u64,
    candidate: Vec<NodeId>,
    distances_after: Map<NodeId, u64>,
    paths_after: Map<NodeId, Vec<NodeId>>,
)
    requires
        graph.well_formed(),
        has_weights(graph),
        adds_costs(plus),
        is_search(graph, plus, detour, distances, paths, settled),
        all_relaxed(graph, plus, detour, distances, paths, settled.remove(node), target),
        settled.contains(node),
        paths.contains_key(node),
        paths.contains_key(detour.source),
        distances[detour.source] == 0,
        forall|id: NodeId| #[trigger]
            settled.contains(id) && id != node ==> is_preferred(
                distances[id],
                paths[id]@,
                distances[node],
                paths[node]@,
            ),
        distances.contains_key(neighbor),
        !settled.contains(neighbor),
        is_open(graph, detour, node, neighbor),
        is_weight(weight_of(graph, node, neighbor)),
        cost == cost_sum(plus, distances[node], weight_of(graph, node, neighbor)),
        candidate@ == paths[node]@.push(neighbor),
        candidate@.no_duplicates(),
        is_route(graph, detour, candidate@),
        route_cost(graph, plus, candidate@) == cost,
        cost < distances[neighbor] || (cost == distances[neighbor] && (!paths.contains_key(neighbor)
            || ids_before(candidate@, paths[neighbor]@))),
        distances_after == distances.insert(neighbor, cost),
        paths_after == paths.insert(neighbor, candidate),
    ensures
        is_search(graph, plus, detour, distances_after, paths_after, settled),
{
    let prefix = paths[node]@;
    assert(cost <= F64_INFINITY && distances[node] <= cost);
    assert(distances_after.dom() =~= graph.nodes());
    assert(candidate@.drop_last() =~= prefix);
    lemma_extension_after(prefix, neighbor);
    assert(is_preferred(distances[node], prefix, cost, candidate@));
    assert forall|id: NodeId| #[trigger] paths_after.contains_key(id) implies {
        &&& distances_after.contains_key(id)
        &&& is_route(graph, detour, paths_after[id]@)
        &&& paths_after[id]@.last() == id
        &&& paths_after[id]@.no_duplicates()
        &&& route_cost(graph, plus, paths_after[id]@) == distances_after[id]
        &&& is_affordable(graph, plus, paths_after[id]@)
    } by {
        if id != neighbor {
            assert(paths.contains_key(id));
        }
    }
    assert forall|id: NodeId, i: int|
        paths_after.contains_key(id) && 0 <= i < paths_after[id]@.len() - 1 implies settled.contains(
        #[trigger] paths_after[id]@[i],
    ) by {
        if id == neighbor {
            if i < prefix.len() - 1 {
                assert(settled.contains(paths[node]@[i]));
                assert(candidate@[i] == prefix[i]);
            } else {
                assert(candidate@[i] == prefix.last());
            }
        } else {
            assert(paths_after[id] == paths[id]);
        }
    }
    assert forall|near: NodeId, far: NodeId|
        #![trigger settled.contains(near), paths_after.contains_key(far)]
        settled.contains(near) && paths_after.contains_key(far) && !settled.contains(far) implies
        is_preferred(
        distances_after[near],
        paths_after[near]@,
        distances_after[far],
        paths_after[far]@,
    ) by {
        if far == neighbor {
            if near != node {
                lemma_preferred(
                    distances[near],
                    paths[near]@,
                    distances[node],
                    prefix,
                    cost,
                    candidate@,
                );
            }
        } else {
            assert(paths.contains_key(far));
        }
    }
}

/// A better path takes the place of another.
proof fn lemma_replaced<F: Fn(u64, u32) -> u64>(
    graph: &GraphWorkspace,
    plus: F,
    detour: Detour,
    distances: Map<NodeId, u64>,
    paths: Map<NodeId, Vec<NodeId>>,
    settled: Set<NodeId>,
    target: Option<NodeId>,
    node: NodeId,
    neighbor: NodeId,
    cost: u64,
    candidate: Vec<NodeId>,
    distances_after: Map<NodeId, u64>,
    paths_after: Map<NodeId, Vec<NodeId>>,
)
    requires
        graph.well_formed(),
        has_weights(graph),
        adds_costs(plus),
        is_search(graph, plus, detour, distances, paths, settled),
        all_relaxed(graph, plus, detour, distances, paths, settled.remove(node), target),
        settled.contains(node),
        paths.contains_key(node),
        paths.contains_key(detour.source),
        distances[detour.source] == 0,
        forall|id: NodeId| #[trigger]
            settled.contains(id) && id != node ==> is_preferred(
                distances[id],
                paths[id]@,
                distances[node],
                paths[node]@,
            ),
        distances.contains_key(neighbor),
        !settled.contains(neighbor),
        is_open(graph, detour, node, neighbor),
        is_weight(weight_of(graph, node, neighbor)),
        cost == cost_sum(plus, distances[node], weight_of(graph, node, neighbor)),
        candidate@ == paths[node]@.push(neighbor),
        candidate@.no_duplicates(),
        is_route(graph, detour, candidate@),
        route_cost(graph, plus, candidate@) == cost,
        cost < distances[neighbor] || (cost == distances[neighbor] && (!paths.contains_key(neighbor)
            || ids_before(candidate@, paths[neighbor]@))),
        distances_after == distances.insert(neighbor, cost),
        paths_after == paths.insert(neighbor, candidate),
    ensures
        is_search(graph, plus, detour, distances_after, paths_after, settled),
        all_relaxed(
            graph,
            plus,
            detour,
            distances_after,
            paths_after,
            settled.remove(node),
            target,
        ),
        is_relaxed(graph, plus, detour, distances_after, paths_after, node, neighbor),
        distances_after[node] == distances[node],
        paths_after[node] == paths[node],
        paths_after.contains_key(detour.source),
        distances_after[detour.source] == 0,
        forall|id: NodeId| #[trigger]
            settled.contains(id) && id != node ==> is_preferred(
                distances_after[id],
                paths_after[id]@,
                distances_after[node],
                paths_after[node]@,
            ),
{
    let prefix = paths[node]@;
    assert(settled.contains(detour.source)) by {
        if prefix.len() > 1 {
            assert(settled.contains(paths[node]@[0]));
        } else {
            assert(prefix.last() == prefix[0]);
        }
    }
    lemma_replaced_search(
        graph,
        plus,
        detour,
        distances,
        paths,
        settled,
        target,
        node,
        neighbor,
        cost,
        candidate,
        distances_after,
        paths_after,
    );
    assert forall|from: NodeId, to: NodeId|
        settled.remove(node).contains(from) && target != Some(from) && #[trigger] is_open(
            graph,
            detour,
            from,
            to,
        ) implies is_relaxed(graph, plus, detour, distances_after, paths_after, from, to) by {
        assert(is_relaxed(graph, plus, detour, distances, paths, from, to));
        if to == neighbor {
            lemma_preferred(
                cost_sum(plus, distances[from], weight_of(graph, from, to)),
                paths[from]@.push(to),
                cost,
                candidate@,
                distances[neighbor],
                paths[neighbor]@,
            );
        }
    }
    lemma_preferred(cost, candidate@, cost, candidate@, 0, Seq::empty());
}

/// What a finished search has found.
proof fn lemma_search_done<F: Fn(u64, u32) -> u64>(
    graph: &GraphWorkspace,
    plus: F,
    detour: Detour,
    search: PathSearch,
    settled: Set<NodeId>,
    target: Option<NodeId>,
    order: Seq<NodeId>,
)
    requires
        graph.well_formed(),
        has_weights(graph),
        adds_costs(plus),
        is_search(graph, plus, detour, search.distances@, search.paths@, settled),
        all_relaxed(graph, plus, detour, search.distances@, search.paths@, settled, target),
        search.paths@.contains_key(detour.source),
        search.distances@[detour.source] == 0,
        forall|id: NodeId| #[trigger]
            order.contains(id) <==> settled.contains(id) && target != Some(id),
        (forall|id: NodeId| #[trigger]
            search.distances@.contains_key(id) && !settled.contains(id) ==> search.distances@[id]
                >= F64_INFINITY) || (target matches Some(goal) && settled.contains(goal)),
    ensures
        match target {
            Some(goal) => is_settled_for(graph, plus, detour, search, goal),
            None => forall|id: NodeId| #[trigger]
                graph.nodes().contains(id) ==> is_settled_for(graph, plus, detour, search, id),
        },
        has_nearer(graph, plus, detour, target, search, order),
{
    let distances = search.distances@;
    let paths = search.paths@;
    let stopped = target matches Some(goal) && settled.contains(goal);
    let bound = if stopped {
        distances[target->0]
    } else {
        F64_INFINITY
    };
    assert forall|id: NodeId| #[trigger]
        distances.contains_key(id) && (!settled.contains(id) || target == Some(id)) implies bound
        <= distances[id] by {
        if stopped {
            let goal = target->0;
            if !settled.contains(id) {
                if paths.contains_key(id) {
                    assert(is_preferred(
                        distances[goal],
                        paths[goal]@,
                        distances[id],
                        paths[id]@,
                    ));
                }
            }
        }
    }
    assert forall|path: Seq<NodeId>| #[trigger] is_route(graph, detour, path) implies
        distances.contains_key(path.last()) && (distances[path.last()] <= route_cost(
        graph,
        plus,
        path,
    ) || bound <= route_cost(graph, plus, path)) by {
        lemma_route_bound(
            graph,
            plus,
            detour,
            distances,
            paths,
            settled,
            target,
            bound,
            path,
        );
        lemma_cost_grows(graph, plus, detour, path);
    }
    assert forall|id: NodeId|
        graph.nodes().contains(id) && (stopped ==> target == Some(id)) implies #[trigger]
        is_settled_for(graph, plus, detour, search, id) by {
        assert forall|path: Seq<NodeId>| #[trigger]
            is_route(graph, detour, path) && path.last() == id implies distances[id] <= route_cost(
            graph,
            plus,
            path,
        ) && (is_affordable(graph, plus, path) ==> paths.contains_key(id)) by {
            if !stopped && is_affordable(graph, plus, path) && path.len() > 1 {
                let start = path.drop_last();
                lemma_cost_grows(graph, plus, detour, path);
                assert(is_route(graph, detour, start));
                let from = start.last();
                assert(distances[from] < F64_INFINITY);
                assert(settled.contains(from));
                assert(is_step(graph, detour, path, path.len() - 2));
                if target == Some(from) {
                    assert(target->0 == from);
                } else {
                    assert(is_relaxed(graph, plus, detour, distances, paths, from, id));
                }
            } else if path.len() == 1 {
                assert(path.last() == detour.source);
            }
        }
    }
    if target is Some {
        let goal = target->0;
        if !graph.nodes().contains(goal) {
            assert forall|path: Seq<NodeId>| #[trigger]
                is_route(graph, detour, path) && path.last() == goal implies false by {
                lemma_cost_grows(graph, plus, detour, path);
            }
            assert(is_settled_for(graph, plus, detour, search, goal));
        } else {
            assert(is_settled_for(graph, plus, detour, search, goal));
        }
    } else {
        assert forall|id: NodeId| #[trigger] graph.nodes().contains(id) implies is_settled_for(
            graph,
            plus,
            detour,
            search,
            id,
        ) by {
            assert(!stopped);
        }
    }
    assert forall|path: Seq<NodeId>| #[trigger]
        is_route(graph, detour, path) && route_cost(graph, plus, path) < F64_INFINITY && (
        target matches Some(goal) ==> path.last() != goal && route_cost(graph, plus, path)
            < distances[goal]) implies order.contains(path.last()) by {
        let id = path.last();
        assert(distances.contains_key(id));
        if stopped {
            assert(distances[id] < bound);
        }
        assert(settled.contains(id));
    }
}

/// Checks that every weight can be part of a cost.
pub(crate) fn validate_weighted_graph(graph: &GraphWorkspace) -> (result: Result<()>)
    requires
        graph.well_formed(),
    ensures
        result is Ok <==> has_weights(graph),
        result matches Err(error) ==> is_invalid_input(
            error,
            "加权算法要求非负有限边权 (Weighted algorithms require finite non-negative edge weights)"@,
        ),
{
    let ids = map_keys(&graph.weighted);
    let mut i: usize = 0;
    while i < ids.len()
        invariant
            graph.well_formed(),
            ids@.to_set() == graph.nodes(),
            i <= ids@.len(),
            forall|n: int, k: int|
                0 <= n < i && 0 <= k < graph.weighted@[ids@[n]]@.len() ==> is_weight(
                    (#[trigger] graph.weighted@[ids@[n]]@[k]).1,
                ),
        decreases ids@.len() - i,
    {
        let id: NodeId = ids[i];
        proof {
            assert(ids@.contains(id));
            assert(ids@.to_set().contains(id));
        }
        let edges = graph.weighted.get(&id).unwrap();
        let mut j: usize = 0;
        while j < edges.len()
            invariant
                graph.nodes().contains(id),
                *edges == graph.weighted@[id],
                j <= edges@.len(),
                forall|k: int| 0 <= k < j ==> is_weight((#[trigger] edges@[k]).1),
            decreases edges@.len() - j,
        {
            let weight: u32 = edges[j].1;
            if !f32_is_finite(weight) || f32_less(weight, 0) {
                assert(!is_weight(graph.weighted@[id]@[j as int].1));
                return Err(
                    invalid_input(
                        "加权算法要求非负有限边权 (Weighted algorithms require finite non-negative edge weights)",
                    ),
                );
            }
            j += 1;
        }
        i += 1;
    }
    proof {
        assert forall|id: NodeId, k: int|
            graph.nodes().contains(id) && 0 <= k < graph.weighted@[id]@.len() implies is_weight(
            (#[trigger] graph.weighted@[id]@[k]).1,
        ) by {
            assert(ids@.to_set().contains(id));
            let n = choose|n: int| 0 <= n < ids@.len() && ids@[n] == id;
            assert(is_weight(graph.weighted@[ids@[n]]@[k].1));
        }
    }
    Ok(())
}

/// The detour that avoids nothing.
pub open spec fn direct(source: NodeId) -> Detour {
    Detour { source, banned: Set::empty(), banned_next: Set::empty() }
}

/// Whether a path is one of least cost to a node.
pub open spec fn is_cheapest<F: Fn(u64, u32) -> u64>(
    graph: &GraphWorkspace,
    plus: F,
    detour: Detour,
    target: NodeId,
    path: WeightedPath,
) -> bool {
    &&& is_route(graph, detour, path.nodes@)
    &&& path.nodes@.last() == target
    &&& path.nodes@.no_duplicates()
    &&& is_affordable(graph, plus, path.nodes@)
    &&& path.cost == route_cost(graph, plus, path.nodes@)
    &&& forall|other: Seq<NodeId>| #[trigger]
        is_route(graph, detour, other) && other.last() == target ==> path.cost <= route_cost(
            graph,
            plus,
            other,
        )
}

/// Whether a node cannot be reached at a finite cost.
pub open spec fn is_unreachable<F: Fn(u64, u32) -> u64>(
    graph: &GraphWorkspace,
    plus: F,
    detour: Detour,
    target: NodeId,
) -> bool {
    forall|path: Seq<NodeId>| #[trigger]
        is_route(graph, detour, path) && path.last() == target ==> !is_affordable(
            graph,
            plus,
            path,
        )
}

/// Whether the work of settling every node nearer than `limit` is within bounds.
pub open spec fn is_within_work<F: Fn(u64, u32) -> u64>(
    graph: &GraphWorkspace,
    plus: F,
    source: NodeId,
    target: NodeId,
    limit: u64,
    max_work: usize,
) -> bool {
    exists|order: Seq<NodeId>| #[trigger]
        are_near(graph, plus, direct(source), Some(target), order) && settled_work(graph, order)
            <= max_work && forall|path: Seq<NodeId>| #[trigger]
            is_route(graph, direct(source), path) && path.last() != target && route_cost(
                graph,
                plus,
                path,
            ) < limit ==> order.contains(path.last())
}

/// A path of least cost from one node to another. `plus` adds a weight to a cost. Where the last
/// step can be taken from several nodes at the same cost, the path that comes first is taken.
pub fn weighted_dijkstra<F: Fn(u64, u32) -> u64>(
    graph: &GraphWorkspace,
    source: NodeId,
    target: NodeId,
    max_work: usize,
    plus: &F,
) -> (result: Result<Option<WeightedPath>>)
    requires
        graph.well_formed(),
        adds_costs(*plus),
    ensures
        !has_weights(graph) ==> (result matches Err(error) && is_invalid_input(
            error,
            "加权算法要求非负有限边权 (Weighted algorithms require finite non-negative edge weights)"@,
        )),
        has_weights(graph) ==> match result {
            Ok(Some(path)) => is_cheapest(graph, *plus, direct(source), target, path)
                && is_first_choice(graph, *plus, direct(source), target, path.nodes@)
                && is_within_work(graph, *plus, source, target, path.cost, max_work),
            Ok(None) => is_unreachable(graph, *plus, direct(source), target) && (
            graph.nodes().contains(target) ==> is_within_work(
                graph,
                *plus,
                source,
                target,
                F64_INFINITY,
                max_work,
            )),
            Err(error) => is_work_fault(max_work, error) && exists|order: Seq<NodeId>| #[trigger]
                are_near(graph, *plus, direct(source), Some(target), order) && settled_work(
                    graph,
                    order,
                ) > max_work,
        },
{
    match validate_weighted_graph(graph) {
        Ok(()) => {},
        Err(error) => {
            return Err(error);
        },
    }
    let nothing: BTreeSet<NodeId> = BTreeSet::new();
    proof {
        assert(nothing@ =~= Set::empty());
        assert(direct(source) == (Detour {
            source,
            banned: nothing@,
            banned_next: nothing@,
        }));
    }
    let (search, _) = match shortest_weighted_path(
        graph,
        source,
        Some(target),
        &nothing,
        &nothing,
        0,
        max_work,
        plus,
    ) {
        Ok(found) => found,
        Err(error) => {
            return Err(error);
        },
    };
    proof {
        let order = choose|order: Seq<NodeId>| #[trigger]
            are_near(graph, *plus, direct(source), Some(target), order) && has_nearer(
                graph,
                *plus,
                direct(source),
                Some(target),
                search,
                order,
            ) && settled_work(graph, order) <= max_work;
        assert(are_near(graph, *plus, direct(source), Some(target), order));
        assert(is_settled_for(graph, *plus, direct(source), search, target));
        if graph.nodes().contains(target) {
            if search.paths@.contains_key(target) {
                lemma_cost_grows(graph, *plus, direct(source), search.paths@[target]@);
            }
            assert(search.distances@[target] <= F64_INFINITY);
            assert(is_within_work(
                graph,
                *plus,
                source,
                target,
                search.distances@[target],
                max_work,
            ));
        }
    }
    match search.paths.get(&target) {
        Some(nodes) => {
            let nodes = crate::vector::copy_slice(nodes.as_slice());
            proof {
                assert(search.paths@.contains_key(target));
                lemma_cost_grows(graph, *plus, direct(source), nodes@);
                assert(graph.nodes().contains(target));
            }
            let cost: u64 = *search.distances.get(&target).unwrap();
            Ok(Some(WeightedPath { nodes, cost }))
        },
        None => Ok(None),
    }
}

} // verus!
