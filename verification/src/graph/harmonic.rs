//! How near the nodes of a graph are to all others.
use std::collections::{BTreeMap, BTreeSet};
use vstd::prelude::*;

use crate::collections::{increasing, lemma_to_set_push, map_keys};
use crate::error::{is_invalid_input, Result};
use crate::graph::weighted::{
    adds_costs, are_near, direct, has_nearer, has_weights, is_route, is_settled_for, is_work_fault,
    route_cost, settled_work, shortest_weighted_path, validate_weighted_graph, Detour, PathSearch,
};
use crate::graph::workspace::GraphWorkspace;
use crate::graph::yen::{is_log, lemma_log_push, log_work};
use crate::node::NodeId;
use crate::number::F64_INFINITY;

verus! {

/// Whether a map gives the least cost of reaching each node: that of some route, and infinity
/// where there is none.
pub open spec fn are_distances<F: Fn(u64, u32) -> u64>(
    graph: &GraphWorkspace,
    plus: F,
    source: NodeId,
    distances: Map<NodeId, u64>,
) -> bool {
    &&& distances.dom() == graph.nodes()
    &&& forall|path: Seq<NodeId>| #[trigger]
        is_route(graph, direct(source), path) ==> distances[path.last()] <= route_cost(
            graph,
            plus,
            path,
        )
    &&& forall|id: NodeId| #[trigger]
        distances.contains_key(id) && distances[id] != F64_INFINITY ==> exists|path: Seq<NodeId>|
            #[trigger] is_route(graph, direct(source), path) && path.last() == id && route_cost(
                graph,
                plus,
                path,
            ) == distances[id]
}

/// The distances of the first `count` nodes that are neither the source, nor out of reach, nor at
/// no distance.
pub open spec fn counted_distances(
    ids: Seq<NodeId>,
    distances: Map<NodeId, u64>,
    source: NodeId,
    count: int,
) -> Seq<u64>
    decreases count,
{
    if count <= 0 {
        Seq::empty()
    } else {
        let before = counted_distances(ids, distances, source, count - 1);
        let id = ids[count - 1];
        if id != source && 0 < distances[id] < F64_INFINITY {
            before.push(distances[id])
        } else {
            before
        }
    }
}

/// Whether a score is what the distances from a node come to.
pub open spec fn is_harmonic<F: Fn(u64, u32) -> u64, S: Fn(&Vec<u64>) -> u64>(
    graph: &GraphWorkspace,
    plus: F,
    score: S,
    source: NodeId,
    value: u64,
) -> bool {
    exists|ids: Seq<NodeId>, distances: Map<NodeId, u64>, list: Vec<u64>|
        {
            &&& #[trigger] increasing(ids)
            &&& ids.to_set() == graph.nodes()
            &&& #[trigger] are_distances(graph, plus, source, distances)
            &&& list@ == counted_distances(ids, distances, source, ids.len() as int)
            &&& #[trigger] call_ensures(score, (&list,), value)
        }
}

/// Whether a search has settled every node that it can reach.
pub open spec fn settles_all<F: Fn(u64, u32) -> u64>(
    graph: &GraphWorkspace,
    plus: F,
    source: NodeId,
    order: Seq<NodeId>,
) -> bool {
    forall|path: Seq<NodeId>| #[trigger]
        is_route(graph, direct(source), path) && route_cost(graph, plus, path) < F64_INFINITY
            ==> order.contains(path.last())
}

/// Whether a log is that of the searches from the first nodes, in ascending order, of which the
/// first `done` were completed.
pub open spec fn is_source_log<F: Fn(u64, u32) -> u64>(
    graph: &GraphWorkspace,
    plus: F,
    ids: Seq<NodeId>,
    log: Seq<(Detour, Seq<NodeId>)>,
    done: int,
) -> bool {
    &&& increasing(ids)
    &&& ids.to_set() == graph.nodes()
    &&& done <= log.len() <= ids.len()
    &&& is_log(graph, plus, None, log)
    &&& forall|j: int| 0 <= j < log.len() ==> (#[trigger] log[j]).0 == direct(ids[j])
    &&& forall|j: int|
        0 <= j < done ==> settles_all(graph, plus, ids[j], (#[trigger] log[j]).1)
}

/// The harmonic centrality of every node. `plus` adds a weight to a cost, `score` adds up the
/// inverses of distances.
pub fn harmonic_centrality<F: Fn(u64, u32) -> u64, S: Fn(&Vec<u64>) -> u64>(
    graph: &GraphWorkspace,
    max_work: usize,
    plus: &F,
    score: &S,
) -> (result: Result<BTreeMap<NodeId, u64>>)
    requires
        graph.well_formed(),
        adds_costs(*plus),
        forall|list: &Vec<u64>| call_requires(*score, (list,)),
    ensures
        !has_weights(graph) ==> (result matches Err(error) && is_invalid_input(
            error,
            "加权算法要求非负有限边权 (Weighted algorithms require finite non-negative edge weights)"@,
        )),
        has_weights(graph) ==> match result {
            Ok(scores) => {
                &&& scores@.dom() == graph.nodes()
                &&& forall|id: NodeId| #[trigger]
                    scores@.contains_key(id) ==> is_harmonic(graph, *plus, *score, id, scores@[id])
            },
            Err(error) => is_work_fault(max_work, error),
        },
        has_weights(graph) ==> exists|
            ids: Seq<NodeId>,
            log: Seq<(Detour, Seq<NodeId>)>,
            done: int,
        |
            {
                &&& #[trigger] is_source_log(graph, *plus, ids, log, done)
                &&& match result {
                    Ok(_) => done == ids.len() && log_work(graph, log) <= max_work,
                    Err(_) => done == log.len() - 1 && log_work(graph, log) > max_work,
                }
            },
{
    match validate_weighted_graph(graph) {
        Ok(()) => {},
        Err(error) => {
            return Err(error);
        },
    }
    let nothing: BTreeSet<NodeId> = BTreeSet::new();
    assert(nothing@ =~= Set::empty());
    let ids = map_keys(&graph.weighted);
    let mut scores: BTreeMap<NodeId, u64> = BTreeMap::new();
    let mut work: usize = 0;
    let ghost mut log: Seq<(Detour, Seq<NodeId>)> = Seq::empty();
    let mut i: usize = 0;
    assert(scores@.dom() =~= ids@.take(0).to_set());
    while i < ids.len()
        invariant
            graph.well_formed(),
            has_weights(graph),
            adds_costs(*plus),
            forall|list: &Vec<u64>| call_requires(*score, (list,)),
            nothing@ == Set::<NodeId>::empty(),
            increasing(ids@),
            ids@.to_set() == graph.nodes(),
            i <= ids@.len(),
            work <= max_work,
            is_source_log(graph, *plus, ids@, log, i as int),
            log.len() == i,
            work == log_work(graph, log),
            scores@.dom() == ids@.take(i as int).to_set(),
            forall|id: NodeId| #[trigger]
                scores@.contains_key(id) ==> is_harmonic(graph, *plus, *score, id, scores@[id]),
        decreases ids@.len() - i,
    {
        let source: NodeId = ids[i];
        let ghost detour = direct(source);
        proof {
            assert(detour == (Detour { source, banned: nothing@, banned_next: nothing@ }));
        }
        let (search, spent) = match shortest_weighted_path(
            graph,
            source,
            None,
            &nothing,
            &nothing,
            work,
            max_work,
            plus,
        ) {
            Ok(found) => found,
            Err(error) => {
                proof {
                    let order = choose|order: Seq<NodeId>| #[trigger]
                        are_near(graph, *plus, detour, None, order) && work + settled_work(
                            graph,
                            order,
                        ) > max_work;
                    lemma_log_push(graph, *plus, None, log, detour, order);
                    let longer = log.push((detour, order));
                    assert forall|j: int| 0 <= j < longer.len() implies (
                    #[trigger] longer[j]).0 == direct(ids@[j]) by {
                        if j < log.len() {
                            assert(longer[j] == log[j]);
                        }
                    }
                    assert forall|j: int| 0 <= j < i implies settles_all(
                        graph,
                        *plus,
                        ids@[j],
                        (#[trigger] longer[j]).1,
                    ) by {
                        assert(longer[j] == log[j]);
                    }
                    assert(is_source_log(graph, *plus, ids@, longer, i as int));
                }
                return Err(error);
            },
        };
        proof {
            let order = choose|order: Seq<NodeId>| #[trigger]
                are_near(graph, *plus, detour, None, order) && has_nearer(
                    graph,
                    *plus,
                    detour,
                    None,
                    search,
                    order,
                ) && spent == work + settled_work(graph, order);
            lemma_log_push(graph, *plus, None, log, detour, order);
            let longer = log.push((detour, order));
            assert(settles_all(graph, *plus, source, order));
            assert forall|j: int| 0 <= j < longer.len() implies (#[trigger] longer[j]).0 == direct(
                ids@[j],
            ) && settles_all(graph, *plus, ids@[j], longer[j].1) by {
                if j < log.len() {
                    assert(longer[j] == log[j]);
                }
            }
            log = longer;
            lemma_distances(graph, *plus, source, search);
        }
        work = spent;
        let mut list: Vec<u64> = Vec::new();
        let mut j: usize = 0;
        while j < ids.len()
            invariant
                ids@.to_set() == graph.nodes(),
                search.distances@.dom() == graph.nodes(),
                j <= ids@.len(),
                list@ == counted_distances(ids@, search.distances@, source, j as int),
            decreases ids@.len() - j,
        {
            let id: NodeId = ids[j];
            proof {
                assert(ids@.contains(id));
                assert(ids@.to_set().contains(id));
            }
            let distance: u64 = *search.distances.get(&id).unwrap();
            if id != source && 0 < distance && distance < F64_INFINITY {
                list.push(distance);
            }
            j += 1;
        }
        let value: u64 = score(&list);
        scores.insert(source, value);
        proof {
            assert(is_harmonic(graph, *plus, *score, source, value)) by {
                assert(increasing(ids@));
                assert(are_distances(graph, *plus, source, search.distances@));
                assert(call_ensures(*score, (&list,), value));
            }
            assert(ids@.take(i + 1) =~= ids@.take(i as int).push(source));
            lemma_to_set_push(ids@.take(i as int), source);
            assert(scores@.dom() =~= ids@.take(i + 1).to_set());
        }
        i += 1;
    }
    assert(ids@.take(i as int) =~= ids@);
    assert(is_source_log(graph, *plus, ids@, log, ids@.len() as int));
    Ok(scores)
}

/// A search without a target finds the least cost of reaching each node.
proof fn lemma_distances<F: Fn(u64, u32) -> u64>(
    graph: &GraphWorkspace,
    plus: F,
    source: NodeId,
    search: PathSearch,
)
    requires
        graph.well_formed(),
        has_weights(graph),
        adds_costs(plus),
        search.distances@.dom() == graph.nodes(),
        forall|id: NodeId| #[trigger]
            graph.nodes().contains(id) ==> is_settled_for(graph, plus, direct(source), search, id),
    ensures
        are_distances(graph, plus, source, search.distances@),
{
    let distances = search.distances@;
    assert forall|path: Seq<NodeId>| #[trigger] is_route(graph, direct(source), path) implies
        distances[path.last()] <= route_cost(graph, plus, path) by {
        crate::graph::weighted::lemma_cost_grows(graph, plus, direct(source), path);
        assert(graph.nodes().contains(path.last())) by {
            if path.len() == 1 {
                assert(path.last() == source);
            }
        }
        assert(is_settled_for(graph, plus, direct(source), search, path.last()));
    }
    assert forall|id: NodeId| #[trigger]
        distances.contains_key(id) && distances[id] != F64_INFINITY implies exists|
        path: Seq<NodeId>,
    | #[trigger]
        is_route(graph, direct(source), path) && path.last() == id && route_cost(graph, plus, path)
            == distances[id] by {
        assert(is_settled_for(graph, plus, direct(source), search, id));
        let path = search.paths@[id]@;
        assert(is_route(graph, direct(source), path));
    }
}

} // verus!
