//! Core numbers.
use std::collections::{BTreeMap, BTreeSet};
use vstd::prelude::*;

use crate::collections::{increasing, lemma_increasing_distinct, map_keys};
use crate::graph::workspace::{lists, GraphWorkspace};
use crate::node::NodeId;

verus! {

/// The neighbours of a node within a set.
pub open spec fn neighbors_in(graph: &GraphWorkspace, id: NodeId, among: Set<NodeId>) -> Set<
    NodeId,
> {
    among.filter(|other: NodeId| graph.joined(id, other))
}

/// Whether every node of a set has at least `degree` neighbours in it.
pub open spec fn is_core(graph: &GraphWorkspace, among: Set<NodeId>, degree: nat) -> bool {
    among.finite() && among.subset_of(graph.nodes()) && forall|id: NodeId| #[trigger]
        among.contains(id) ==> neighbors_in(graph, id, among).len() >= degree
}

/// Whether `number` is the core number of a node: the greatest degree for which it belongs to a
/// core.
pub open spec fn is_core_number(graph: &GraphWorkspace, id: NodeId, number: nat) -> bool {
    &&& exists|among: Set<NodeId>| #[trigger] is_core(graph, among, number) && among.contains(id)
    &&& forall|among: Set<NodeId>, degree: nat| #[trigger]
        is_core(graph, among, degree) && among.contains(id) ==> degree <= number
}

/// What holds while nodes are taken away: the recorded degrees are those among the remaining
/// nodes, a core of the current degree holds them all, no core that lost a node has a greater
/// degree, and the nodes taken away have their core numbers.
spec fn peeling(
    graph: &GraphWorkspace,
    remaining: Set<NodeId>,
    degree: Map<NodeId, usize>,
    core: nat,
    output: Map<NodeId, u64>,
) -> bool {
    &&& remaining.finite()
    &&& remaining.subset_of(graph.nodes())
    &&& forall|id: NodeId| #[trigger]
        remaining.contains(id) ==> degree.contains_key(id) && degree[id] == neighbors_in(
            graph,
            id,
            remaining,
        ).len()
    &&& exists|among: Set<NodeId>| #[trigger]
        is_core(graph, among, core) && remaining.subset_of(among)
    &&& forall|among: Set<NodeId>, other: nat| #[trigger]
        is_core(graph, among, other) && !among.subset_of(remaining) ==> other <= core
    &&& forall|id: NodeId| #[trigger]
        output.contains_key(id) <==> graph.nodes().contains(id) && !remaining.contains(id)
    &&& forall|id: NodeId| #[trigger]
        output.contains_key(id) ==> is_core_number(graph, id, output[id] as nat)
}

/// Losing one node costs its neighbours one neighbour each.
proof fn lemma_degree_after(
    graph: &GraphWorkspace,
    remaining: Set<NodeId>,
    gone: NodeId,
    id: NodeId,
)
    requires
        remaining.finite(),
        remaining.contains(gone),
    ensures
        neighbors_in(graph, id, remaining).len() == neighbors_in(
            graph,
            id,
            remaining.remove(gone),
        ).len() + if graph.joined(id, gone) {
            1nat
        } else {
            0nat
        },
{
    let before = neighbors_in(graph, id, remaining);
    let after = neighbors_in(graph, id, remaining.remove(gone));
    if graph.joined(id, gone) {
        assert(after =~= before.remove(gone));
        assert(before.contains(gone));
    } else {
        assert(after =~= before);
    }
}

/// The core number of every node.
pub fn k_core(graph: &GraphWorkspace) -> (output: BTreeMap<NodeId, u64>)
    requires
        graph.well_formed(),
    ensures
        output@.dom() == graph.nodes(),
        forall|id: NodeId| #[trigger]
            output@.contains_key(id) ==> is_core_number(graph, id, output@[id] as nat),
{
    let ids = map_keys(&graph.undirected);
    proof {
        lemma_increasing_distinct(ids@);
    }
    let mut degree: BTreeMap<NodeId, usize> = BTreeMap::new();
    let mut remaining: BTreeSet<NodeId> = BTreeSet::new();
    let mut i: usize = 0;
    while i < ids.len()
        invariant
            i <= ids@.len(),
            graph.well_formed(),
            increasing(ids@),
            ids@.to_set() == graph.nodes(),
            forall|id: NodeId| #[trigger]
                remaining@.contains(id) <==> exists|k: int| 0 <= k < i && (#[trigger] ids@[k]) == id,
            remaining@.finite(),
            forall|k: int|
                0 <= k < i ==> degree@.contains_key(#[trigger] ids@[k]) && degree@[ids@[k]]
                    == neighbors_in(graph, ids@[k], graph.nodes()).len(),
        decreases ids@.len() - i,
    {
        let id: NodeId = ids[i];
        let ghost held = degree@;
        let ghost left = remaining@;
        proof {
            assert(ids@.contains(id));
            assert(ids@.to_set().contains(id));
        }
        let neighbors = graph.undirected.get(&id).unwrap();
        degree.insert(id, neighbors.len());
        remaining.insert(id);
        proof {
            assert(lists(graph.undirected@[id]@, |other: NodeId| graph.joined(id, other)));
            let all = neighbors_in(graph, id, graph.nodes());
            assert(neighbors@.to_set() =~= all) by {
                assert forall|other: NodeId| #[trigger] neighbors@.to_set().contains(other)
                    <==> all.contains(other) by {
                    assert(neighbors@.contains(other) <==> graph.joined(id, other));
                    if graph.joined(id, other) {
                        if graph.has(id, other) {
                            assert(graph.nodes().contains(other));
                        }
                    }
                }
            }
            lemma_increasing_distinct(neighbors@);
            neighbors@.unique_seq_to_set();
            assert forall|other: NodeId| #[trigger] remaining@.contains(other) <==> exists|k: int|
                0 <= k < i + 1 && (#[trigger] ids@[k]) == other by {
                assert(left.contains(other) <==> exists|k: int|
                    0 <= k < i && (#[trigger] ids@[k]) == other);
                if left.contains(other) {
                    let k = choose|k: int| 0 <= k < i && (#[trigger] ids@[k]) == other;
                    assert(ids@[k] == other);
                }
                if other == id {
                    assert(ids@[i as int] == other);
                }
                if exists|k: int| 0 <= k < i + 1 && (#[trigger] ids@[k]) == other {
                    let k = choose|k: int| 0 <= k < i + 1 && (#[trigger] ids@[k]) == other;
                    if k < i {
                        assert(ids@[k] == other);
                    }
                }
            }
            assert forall|k: int| 0 <= k < i + 1 implies degree@.contains_key(#[trigger] ids@[k])
                && degree@[ids@[k]] == neighbors_in(graph, ids@[k], graph.nodes()).len() by {
                if k < i {
                    assert(held.contains_key(ids@[k]));
                    assert(ids@[k] < ids@[i as int]);
                }
            }
        }
        i += 1;
    }
    let mut output: BTreeMap<NodeId, u64> = BTreeMap::new();
    let mut core: usize = 0;
    proof {
        assert(remaining@ =~= graph.nodes()) by {
            assert forall|id: NodeId| #[trigger] remaining@.contains(id) <==> graph.nodes().contains(
                id,
            ) by {
                if graph.nodes().contains(id) {
                    assert(ids@.to_set().contains(id));
                    let k = choose|k: int| 0 <= k < ids@.len() && ids@[k] == id;
                    assert(ids@[k] == id);
                }
                if remaining@.contains(id) {
                    let k = choose|k: int| 0 <= k < i && (#[trigger] ids@[k]) == id;
                    assert(ids@.contains(ids@[k]));
                    assert(ids@.to_set().contains(id));
                }
            }
        }
        assert forall|id: NodeId| #[trigger] remaining@.contains(id) implies degree@.contains_key(id)
            && degree@[id] == neighbors_in(graph, id, remaining@).len() by {
            let k = choose|k: int| 0 <= k < i && (#[trigger] ids@[k]) == id;
            assert(degree@.contains_key(ids@[k]));
        }
        assert(is_core(graph, remaining@, 0));
    }
    while !remaining.is_empty()
        invariant
            graph.well_formed(),
            ids@.to_set() == graph.nodes(),
            peeling(graph, remaining@, degree@, core as nat, output@),
        decreases remaining@.len(),
    {
        let ghost left = remaining@;
        let ghost degrees = degree@;
        let ghost old_core = core as nat;
        let (node, node_degree) = least_degree(&ids, &remaining, &degree);
        remaining.remove(&node);
        if core < node_degree {
            core = node_degree;
        }
        output.insert(node, core as u64);
        let neighbors = graph.undirected.get(&node).unwrap();
        proof {
            assert(lists(graph.undirected@[node]@, |other: NodeId| graph.joined(node, other)));
        }
        let mut j: usize = 0;
        while j < neighbors.len()
            invariant
                j <= neighbors@.len(),
                graph.well_formed(),
                left.finite(),
                left.contains(node),
                left.subset_of(graph.nodes()),
                remaining@ == left.remove(node),
                increasing(neighbors@),
                forall|other: NodeId| #[trigger]
                    neighbors@.contains(other) <==> graph.joined(node, other),
                forall|id: NodeId| #[trigger]
                    left.contains(id) ==> degrees.contains_key(id) && degrees[id] == neighbors_in(
                        graph,
                        id,
                        left,
                    ).len(),
                forall|id: NodeId| #[trigger]
                    remaining@.contains(id) ==> degree@.contains_key(id) && degree@[id]
                        == degrees[id] - if neighbors@.subrange(0, j as int).contains(id) {
                        1int
                    } else {
                        0int
                    },
            decreases neighbors@.len() - j,
        {
            let neighbor: NodeId = neighbors[j];
            let ghost held = degree@;
            proof {
                assert(neighbors@.contains(neighbor));
            }
            if remaining.contains(&neighbor) {
                proof {
                    assert(!neighbors@.subrange(0, j as int).contains(neighbor)) by {
                        if neighbors@.subrange(0, j as int).contains(neighbor) {
                            let n = choose|n: int|
                                0 <= n < j && neighbors@.subrange(0, j as int)[n] == neighbor;
                            assert(neighbors@[n] < neighbors@[j as int]);
                        }
                    }
                    assert(graph.joined(neighbor, node));
                    lemma_degree_after(graph, left, node, neighbor);
                }
                let current: usize = *degree.get(&neighbor).unwrap();
                degree.insert(neighbor, current - 1);
            }
            proof {
                let few = neighbors@.subrange(0, j as int);
                assert(neighbors@.subrange(0, j + 1) =~= few.push(neighbor));
                assert forall|id: NodeId| #[trigger] remaining@.contains(id) implies
                    degree@.contains_key(id) && degree@[id] == degrees[id]
                    - if neighbors@.subrange(0, j + 1).contains(id) {
                    1int
                } else {
                    0int
                } by {
                    crate::collections::lemma_contains_push(few, neighbor, id);
                    assert(held.contains_key(id));
                }
            }
            j += 1;
        }
        proof {
            assert(neighbors@.subrange(0, j as int) =~= neighbors@);
            assert forall|id: NodeId| #[trigger] remaining@.contains(id) implies degree@.contains_key(
                id,
            ) && degree@[id] == neighbors_in(graph, id, remaining@).len() by {
                lemma_degree_after(graph, left, node, id);
                assert(graph.joined(node, id) == graph.joined(id, node));
            }
            lemma_peeled(
                graph,
                left,
                degrees,
                old_core,
                output@,
                remaining@,
                node,
                node_degree as nat,
                core as nat,
            );
        }
    }
    proof {
        assert(output@.dom() =~= graph.nodes());
    }
    output
}

/// The remaining node with the smallest degree, and among those the smallest identifier.
fn least_degree(
    ids: &Vec<NodeId>,
    remaining: &BTreeSet<NodeId>,
    degree: &BTreeMap<NodeId, usize>,
) -> (least: (NodeId, usize))
    requires
        !remaining@.is_empty(),
        remaining@.subset_of(ids@.to_set()),
        forall|id: NodeId| #[trigger] remaining@.contains(id) ==> degree@.contains_key(id),
    ensures
        remaining@.contains(least.0),
        least.1 == degree@[least.0],
        forall|id: NodeId| #[trigger] remaining@.contains(id) ==> least.1 <= degree@[id],
{
    let mut best: Option<(NodeId, usize)> = None;
    let mut i: usize = 0;
    while i < ids.len()
        invariant
            i <= ids@.len(),
            forall|id: NodeId| #[trigger] remaining@.contains(id) ==> degree@.contains_key(id),
            best matches Some((id, least)) ==> remaining@.contains(id) && least == degree@[id],
            forall|k: int|
                0 <= k < i && remaining@.contains(#[trigger] ids@[k]) ==> (best matches Some(
                    (_, least),
                ) && least <= degree@[ids@[k]]),
        decreases ids@.len() - i,
    {
        let id: NodeId = ids[i];
        if remaining.contains(&id) {
            let current: usize = *degree.get(&id).unwrap();
            best =
            match best {
                None => Some((id, current)),
                Some((known, least)) => if current < least {
                    Some((id, current))
                } else {
                    Some((known, least))
                },
            };
        }
        i += 1;
    }
    proof {
        let some = choose|id: NodeId| remaining@.contains(id);
        assert(remaining@.contains(some));
        assert forall|id: NodeId| #[trigger] remaining@.contains(id) implies (best matches Some(
            (_, least),
        ) && least <= degree@[id]) by {
            assert(ids@.to_set().contains(id));
            let k = choose|k: int| 0 <= k < ids@.len() && ids@[k] == id;
            assert(remaining@.contains(ids@[k]));
        }
    }
    best.unwrap()
}

/// Taking away a node of smallest degree settles its core number.
proof fn lemma_peeled(
    graph: &GraphWorkspace,
    left: Set<NodeId>,
    degrees: Map<NodeId, usize>,
    old_core: nat,
    output: Map<NodeId, u64>,
    remaining: Set<NodeId>,
    node: NodeId,
    node_degree: nat,
    core: nat,
)
    requires
        graph.well_formed(),
        left.contains(node),
        remaining == left.remove(node),
        output.contains_key(node),
        output[node] == core,
        peeling(graph, left, degrees, old_core, output.remove(node)),
        node_degree == degrees[node],
        forall|id: NodeId| #[trigger] left.contains(id) ==> node_degree <= degrees[id],
        core == if old_core < node_degree {
            node_degree
        } else {
            old_core
        },
    ensures
        exists|among: Set<NodeId>| #[trigger]
            is_core(graph, among, core) && remaining.subset_of(among),
        forall|among: Set<NodeId>, other: nat| #[trigger]
            is_core(graph, among, other) && !among.subset_of(remaining) ==> other <= core,
        forall|id: NodeId| #[trigger]
            output.contains_key(id) <==> graph.nodes().contains(id) && !remaining.contains(id),
        forall|id: NodeId| #[trigger]
            output.contains_key(id) ==> is_core_number(graph, id, output[id] as nat),
{
    let before = output.remove(node);
    let among = if old_core < node_degree {
        assert(is_core(graph, left, node_degree)) by {
            assert forall|id: NodeId| #[trigger] left.contains(id) implies neighbors_in(
                graph,
                id,
                left,
            ).len() >= node_degree by {
                assert(degrees.contains_key(id));
            }
        }
        left
    } else {
        choose|among: Set<NodeId>| #[trigger]
            is_core(graph, among, old_core) && left.subset_of(among)
    };
    assert(is_core(graph, among, core) && remaining.subset_of(among));
    assert forall|other: Set<NodeId>, level: nat| #[trigger]
        is_core(graph, other, level) && !other.subset_of(remaining) implies level <= core by {
        if other.subset_of(left) {
            assert(other.contains(node)) by {
                if !other.contains(node) {
                    assert(other.subset_of(remaining));
                }
            }
            assert(neighbors_in(graph, node, other).subset_of(neighbors_in(graph, node, left)));
            vstd::set_lib::lemma_len_subset(
                neighbors_in(graph, node, other),
                neighbors_in(graph, node, left),
            );
        }
    }
    assert forall|id: NodeId| #[trigger] output.contains_key(id) implies is_core_number(
        graph,
        id,
        output[id] as nat,
    ) by {
        if id == node {
            assert(is_core(graph, among, core) && among.contains(node));
            assert forall|other: Set<NodeId>, level: nat| #[trigger]
                is_core(graph, other, level) && other.contains(node) implies level <= core by {
                assert(!other.subset_of(remaining));
            }
        } else {
            assert(before.contains_key(id));
        }
    }
    assert forall|id: NodeId| #[trigger] output.contains_key(id) <==> graph.nodes().contains(id)
        && !remaining.contains(id) by {
        if id != node {
            assert(before.contains_key(id) <==> graph.nodes().contains(id) && !left.contains(id));
        }
    }
}

} // verus!
