//! Algorithms on the subgraph of a chosen set of nodes.
use std::collections::{BTreeMap, BTreeSet};
use vstd::prelude::*;

use crate::collections::{lemma_contains_push, lemma_increasing_unique, sort_dedup};
use crate::error::{is_query_execution, query_execution, Result};
use crate::graph::bounded::{ids_before, ids_less, lemma_ids_order, lemma_ids_transitive};
use crate::graph::walk::{
    lemma_reaches_step, lemma_reaches_transitive, reaches, within, Adjacency,
};
use crate::graph::workspace::{
    is_edge_count, is_scan, law_scans_agree, lists, same_lists, scan_subgraph,
    scan_subgraph_parallel, scans_nodes, GraphWorkspace, NodeScan,
};
use crate::node::NodeId;
use crate::sorting::{
    lemma_strictly_ordered_unique, order_of, sort_items, sorted, strictly_ordered, views, SortItem,
};
use crate::storage::memtable::{label_view, MemTable, Table};
use crate::vector::VectorType;

verus! {

/// How good the answer of an algorithm is.
#[derive(Debug, Clone, Copy, PartialEq, Eq, Structural)]
pub enum GraphAlgorithmQuality {
    Exact,
    DeterministicApproximate,
}

/// What an algorithm does with a graph.
#[derive(Debug, Clone, Copy)]
pub struct GraphAlgorithmSemantics {
    pub name: &'static str,
    pub quality: GraphAlgorithmQuality,
    pub directed: bool,
    pub weighted: bool,
    pub induced_subgraph: bool,
}

/// Components are listed by size, the largest first, and components of the same size by their
/// nodes.
impl SortItem for Vec<NodeId> {
    open spec fn goes_before(a: Seq<NodeId>, b: Seq<NodeId>) -> bool {
        a.len() > b.len() || (a.len() == b.len() && ids_before(a, b))
    }

    proof fn lemma_order(a: Seq<NodeId>, b: Seq<NodeId>, c: Seq<NodeId>) {
        lemma_ids_order(a, b);
        lemma_ids_order(b, c);
        lemma_ids_order(a, c);
        if ids_before(a, b) && ids_before(b, c) {
            lemma_ids_transitive(a, b, c);
        }
        if ids_before(c, a) && ids_before(a, b) {
            lemma_ids_transitive(c, a, b);
        }
    }

    fn is_before(&self, other: &Vec<NodeId>) -> (result: bool) {
        self.len() > other.len() || (self.len() == other.len() && ids_less(self, other))
    }
}

/// Whether `component` lists the nodes that a node reaches along edges in either direction, in
/// ascending order.
pub open spec fn is_component_of(
    graph: &GraphWorkspace,
    start: NodeId,
    component: Seq<NodeId>,
) -> bool {
    lists(component, |id: NodeId| reaches(graph.links(), start, id))
}

/// Whether `component` is the component of some node of the graph.
pub open spec fn is_component(graph: &GraphWorkspace, component: Seq<NodeId>) -> bool {
    exists|start: NodeId|
        graph.nodes().contains(start) && #[trigger] is_component_of(graph, start, component)
}

/// Whether one of `components` is the component of a node.
pub open spec fn has_component_of(
    graph: &GraphWorkspace,
    components: Seq<Seq<NodeId>>,
    id: NodeId,
) -> bool {
    exists|i: int|
        0 <= i < components.len() && #[trigger] is_component_of(graph, id, components[i])
}

/// Whether `components` are the connected components of a graph, each once, the largest first.
pub open spec fn are_components(graph: &GraphWorkspace, components: Seq<Seq<NodeId>>) -> bool {
    &&& strictly_ordered(components, order_of::<Vec<NodeId>>())
    &&& forall|i: int| 0 <= i < components.len() ==> is_component(graph, #[trigger] components[i])
    &&& forall|id: NodeId| #[trigger]
        graph.nodes().contains(id) ==> has_component_of(graph, components, id)
}

/// A set that no step leaves holds what its nodes reach.
proof fn lemma_closed_within(
    adjacency: Adjacency,
    among: Set<NodeId>,
    from: NodeId,
    to: NodeId,
    steps: nat,
)
    requires
        among.contains(from),
        forall|a: NodeId, b: NodeId| among.contains(a) && #[trigger] adjacency(a, b)
            ==> among.contains(b),
        within(adjacency, from, to, steps),
    ensures
        among.contains(to),
    decreases steps,
{
    if steps > 0 {
        if within(adjacency, from, to, (steps - 1) as nat) {
            lemma_closed_within(adjacency, among, from, to, (steps - 1) as nat);
        } else {
            let via = choose|via: NodeId|
                within(adjacency, from, via, (steps - 1) as nat) && #[trigger] adjacency(via, to);
            lemma_closed_within(adjacency, among, from, via, (steps - 1) as nat);
        }
    }
}

/// A set that no step leaves holds what its nodes reach.
pub proof fn lemma_closed_reaches(
    adjacency: Adjacency,
    among: Set<NodeId>,
    from: NodeId,
    to: NodeId,
)
    requires
        among.contains(from),
        forall|a: NodeId, b: NodeId| among.contains(a) && #[trigger] adjacency(a, b)
            ==> among.contains(b),
        reaches(adjacency, from, to),
    ensures
        among.contains(to),
{
    let steps = choose|steps: nat| #[trigger] within(adjacency, from, to, steps);
    lemma_closed_within(adjacency, among, from, to, steps);
}

/// Along edges in either direction, what one node reaches reaches it.
pub proof fn lemma_links_symmetric(graph: &GraphWorkspace, a: NodeId, b: NodeId)
    requires
        reaches(graph.links(), a, b),
    ensures
        reaches(graph.links(), b, a),
{
    let links = graph.links();
    let back = Set::new(|id: NodeId| reaches(links, id, a));
    lemma_reaches_step(links, a, a);
    assert forall|x: NodeId, y: NodeId| back.contains(x) && #[trigger] links(x, y) implies
        back.contains(y) by {
        assert(links(y, x));
        lemma_reaches_step(links, y, x);
        lemma_reaches_transitive(links, y, x, a);
    }
    lemma_closed_reaches(links, back, a, b);
}

/// The steps that lists of neighbours allow.
pub open spec fn listed_steps(neighbors: Map<NodeId, Vec<NodeId>>) -> Adjacency {
    |a: NodeId, b: NodeId| neighbors.contains_key(a) && neighbors[a]@.contains(b)
}

/// Takes the nodes that `start` reaches out of `unseen`, in ascending order.
pub(crate) fn take_connected(
    lists_of: &BTreeMap<NodeId, Vec<NodeId>>,
    start: NodeId,
    unseen: &mut BTreeSet<NodeId>,
) -> (component: Vec<NodeId>)
    requires
        old(unseen)@.contains(start),
        old(unseen)@.finite(),
        old(unseen)@.subset_of(lists_of@.dom()),
        forall|a: NodeId, b: NodeId|
            old(unseen)@.contains(a) && #[trigger] listed_steps(lists_of@)(a, b) ==> old(
                unseen,
            )@.contains(b),
    ensures
        lists(component@, |id: NodeId| reaches(listed_steps(lists_of@), start, id)),
        final(unseen)@ == old(unseen)@.difference(component@.to_set()),
        component@.to_set().subset_of(old(unseen)@),
        component@.contains(start),
{
    let ghost all = unseen@;
    let ghost links = listed_steps(lists_of@);
    unseen.remove(&start);
    let mut found: Vec<NodeId> = Vec::new();
    found.push(start);
    let mut next: usize = 0;
    proof {
        lemma_reaches_step(links, start, start);
        assert(found@.contains(start)) by {
            assert(found@[0] == start);
        }
        assert forall|id: NodeId| #[trigger] all.contains(id) <==> unseen@.contains(id)
            || found@.contains(id) by {
            if found@.contains(id) {
                let k = choose|k: int| 0 <= k < found@.len() && found@[k] == id;
                assert(k == 0);
            }
        }
    }
    while next < found.len()
        invariant
            links == listed_steps(lists_of@),
            all.finite(),
            all.subset_of(lists_of@.dom()),
            forall|a: NodeId, b: NodeId|
                all.contains(a) && #[trigger] links(a, b) ==> all.contains(b),
            next <= found@.len(),
            found@.contains(start),
            unseen@.subset_of(all),
            forall|id: NodeId| #[trigger]
                all.contains(id) <==> unseen@.contains(id) || found@.contains(id),
            forall|id: NodeId| #[trigger] found@.contains(id) ==> !unseen@.contains(id),
            forall|id: NodeId| #[trigger] found@.contains(id) ==> reaches(links, start, id),
            forall|n: int, b: NodeId|
                0 <= n < next && #[trigger] links(found@[n], b) ==> found@.contains(b),
        decreases unseen@.len() + found@.len() - next, unseen@.len(),
    {
        let id: NodeId = found[next];
        let ghost before = unseen@;
        let ghost before_found = found@;
        assert(found@.contains(id));
        assert(all.contains(id));
        let neighbors = lists_of.get(&id).unwrap();
        let mut j: usize = 0;
        while j < neighbors.len()
            invariant
                links == listed_steps(lists_of@),
                all.finite(),
                forall|a: NodeId, b: NodeId|
                    all.contains(a) && #[trigger] links(a, b) ==> all.contains(b),
                all.contains(id),
                lists_of@.contains_key(id),
                *neighbors == lists_of@[id],
                j <= neighbors@.len(),
                next < found@.len(),
                id == found@[next as int],
                found@.contains(id),
                found@.contains(start),
                unseen@.subset_of(all),
                unseen@.len() + found@.len() == before.len() + before_found.len(),
                unseen@.len() <= before.len(),
                forall|other: NodeId| #[trigger]
                    all.contains(other) <==> unseen@.contains(other) || found@.contains(other),
                forall|other: NodeId| #[trigger] found@.contains(other) ==> !unseen@.contains(other),
                forall|other: NodeId| #[trigger]
                    found@.contains(other) ==> reaches(links, start, other),
                forall|n: int, b: NodeId|
                    0 <= n < next && #[trigger] links(found@[n], b) ==> found@.contains(b),
                forall|k: int| 0 <= k < j ==> found@.contains(#[trigger] neighbors@[k]),
            decreases neighbors@.len() - j,
        {
            let neighbor: NodeId = neighbors[j];
            let ghost held = found@;
            let ghost left = unseen@;
            assert(neighbors@.contains(neighbor));
            assert(links(id, neighbor));
            if unseen.remove(&neighbor) {
                found.push(neighbor);
                proof {
                    lemma_reaches_step(links, id, neighbor);
                    assert(links(id, neighbor));
                    lemma_reaches_transitive(links, start, id, neighbor);
                    assert forall|other: NodeId| #[trigger] found@.contains(other)
                        <==> held.contains(other) || other == neighbor by {
                        lemma_contains_push(held, neighbor, other);
                    }
                }
            } else {
                assert(all.contains(neighbor));
                assert(found@.contains(neighbor));
            }
            proof {
                assert forall|k: int| 0 <= k < j + 1 implies found@.contains(
                    #[trigger] neighbors@[k],
                ) by {
                    if k < j {
                        assert(held.contains(neighbors@[k]));
                        lemma_contains_push(held, neighbor, neighbors@[k]);
                    } else {
                        lemma_contains_push(held, neighbor, neighbor);
                    }
                }
                assert forall|n: int, b: NodeId|
                    0 <= n < next && #[trigger] links(found@[n], b) implies found@.contains(
                    b,
                ) by {
                    assert(held[n] == found@[n]);
                    assert(held.contains(b));
                    lemma_contains_push(held, neighbor, b);
                }
            }
            j += 1;
        }
        proof {
            assert forall|n: int, b: NodeId|
                0 <= n < next + 1 && #[trigger] links(found@[n], b) implies found@.contains(
                b,
            ) by {
                if n == next {
                    assert(neighbors@.contains(b));
                    let k = choose|k: int| 0 <= k < neighbors@.len() && neighbors@[k] == b;
                    assert(found@.contains(neighbors@[k]));
                }
            }
        }
        next += 1;
    }
    let component = sort_dedup(&found);
    proof {
        let among = found@.to_set();
        assert forall|a: NodeId, b: NodeId| among.contains(a) && #[trigger] links(a, b) implies
            among.contains(b) by {
            let n = choose|n: int| 0 <= n < found@.len() && found@[n] == a;
            assert(links(found@[n], b));
        }
        assert forall|id: NodeId| #[trigger] component@.contains(id) <==> reaches(
            links,
            start,
            id,
        ) by {
            if reaches(links, start, id) {
                lemma_closed_reaches(links, among, start, id);
            }
        }
        assert(unseen@ =~= all.difference(component@.to_set())) by {
            assert forall|id: NodeId| #[trigger] unseen@.contains(id) <==> all.contains(id)
                && !component@.to_set().contains(id) by {
                assert(component@.contains(id) <==> found@.contains(id));
            }
        }
    }
    component
}

/// The connected components of a graph, the largest first.
pub fn connected_components(graph: &GraphWorkspace) -> (components: Vec<Vec<NodeId>>)
    requires
        graph.well_formed(),
    ensures
        are_components(graph, views(components@)),
{
    let ids = crate::collections::map_keys(&graph.undirected);
    let mut unseen: BTreeSet<NodeId> = BTreeSet::new();
    let mut i: usize = 0;
    while i < ids.len()
        invariant
            i <= ids@.len(),
            unseen@ == ids@.take(i as int).to_set(),
        decreases ids@.len() - i,
    {
        unseen.insert(ids[i]);
        proof {
            assert(ids@.take(i + 1) =~= ids@.take(i as int).push(ids@[i as int]));
            crate::collections::lemma_to_set_push(ids@.take(i as int), ids@[i as int]);
        }
        i += 1;
    }
    assert(ids@.take(i as int) =~= ids@);
    assert(unseen@ == graph.nodes());
    let ghost links = graph.links();
    let mut found: Vec<Vec<NodeId>> = Vec::new();
    let mut k: usize = 0;
    proof {
        assert forall|a: NodeId, b: NodeId|
            unseen@.contains(a) && #[trigger] graph.joined(a, b) implies unseen@.contains(b) by {
            if graph.has(a, b) {
                assert(graph.nodes().contains(b));
            } else {
                assert(graph.has(b, a));
            }
        }
        assert forall|id: NodeId| graph.nodes().contains(id) && !(#[trigger] unseen@.contains(
            id,
        )) implies exists|n: int|
            0 <= n < found@.len() && #[trigger] is_component_of(graph, id, found@[n]@) by {}
    }
    while k < ids.len()
        invariant
            graph.well_formed(),
            links == graph.links(),
            ids@.to_set() == graph.nodes(),
            k <= ids@.len(),
            unseen@.finite(),
            unseen@.subset_of(graph.nodes()),
            forall|n: int| 0 <= n < k ==> !unseen@.contains(#[trigger] ids@[n]),
            forall|a: NodeId, b: NodeId|
                unseen@.contains(a) && #[trigger] graph.joined(a, b) ==> unseen@.contains(b),
            forall|n: int|
                0 <= n < found@.len() ==> is_component(graph, (#[trigger] found@[n])@),
            forall|n: int, id: NodeId|
                0 <= n < found@.len() && #[trigger] found@[n]@.contains(id) ==> !unseen@.contains(
                    id,
                ),
            forall|n: int| 0 <= n < found@.len() ==> (#[trigger] found@[n])@.len() > 0,
            forall|n: int, m: int, id: NodeId|
                0 <= n < m < found@.len() && #[trigger] found@[n]@.contains(id)
                    ==> !(#[trigger] found@[m]@.contains(id)),
            forall|id: NodeId|
                graph.nodes().contains(id) && !(#[trigger] unseen@.contains(id)) ==> exists|n: int|
                    0 <= n < found@.len() && #[trigger] is_component_of(graph, id, found@[n]@),
        decreases ids@.len() - k,
    {
        let start: NodeId = ids[k];
        let ghost before = unseen@;
        let ghost held = found@;
        proof {
            assert(ids@.contains(start));
            assert(ids@.to_set().contains(start));
        }
        if unseen.contains(&start) {
            proof {
                lemma_listed_links(graph);
                assert forall|a: NodeId, b: NodeId|
                    unseen@.contains(a) && #[trigger] listed_steps(graph.undirected@)(
                        a,
                        b,
                    ) implies unseen@.contains(b) by {
                    assert(graph.joined(a, b));
                }
            }
            let component = take_connected(&graph.undirected, start, &mut unseen);
            found.push(component);
            proof {
                let last = component@;
                assert(is_component_of(graph, start, last)) by {
                    assert forall|id: NodeId| #[trigger] last.contains(id) <==> reaches(
                        links,
                        start,
                        id,
                    ) by {
                        assert(listed_steps(graph.undirected@) == links);
                    }
                }
                assert forall|a: NodeId, b: NodeId|
                    unseen@.contains(a) && #[trigger] graph.joined(a, b) implies unseen@.contains(
                    b,
                ) by {
                    if last.contains(b) {
                        assert(reaches(links, start, b));
                        assert(links(b, a));
                        lemma_reaches_step(links, b, a);
                        lemma_reaches_transitive(links, start, b, a);
                        assert(last.contains(a));
                    }
                }
                assert forall|n: int| 0 <= n < found@.len() implies is_component(
                    graph,
                    (#[trigger] found@[n])@,
                ) by {
                    if n < held.len() {
                        assert(is_component(graph, held[n]@));
                    } else {
                        assert(is_component_of(graph, start, found@[n]@));
                    }
                }
                assert forall|n: int, id: NodeId|
                    0 <= n < found@.len() && #[trigger] found@[n]@.contains(id) implies
                    !unseen@.contains(id) by {
                    if n < held.len() {
                        assert(held[n]@.contains(id));
                    } else {
                        assert(last.to_set().contains(id));
                    }
                }
                assert forall|n: int, m: int, id: NodeId|
                    0 <= n < m < found@.len() && #[trigger] found@[n]@.contains(id) implies !(
                #[trigger] found@[m]@.contains(id)) by {
                    assert(held[n]@.contains(id));
                    if m < held.len() {
                        assert(found@[m] == held[m]);
                    } else if last.contains(id) {
                        assert(last.to_set().contains(id));
                        assert(before.contains(id));
                    }
                }
                assert forall|id: NodeId|
                    graph.nodes().contains(id) && !(#[trigger] unseen@.contains(id)) implies exists|
                    n: int,
                |
                    0 <= n < found@.len() && #[trigger] is_component_of(
                        graph,
                        id,
                        found@[n]@,
                    ) by {
                    if before.contains(id) {
                        assert(last.contains(id));
                        lemma_same_component(graph, start, id, last);
                        assert(is_component_of(graph, id, found@[held.len() as int]@));
                    } else {
                        let n = choose|n: int|
                            0 <= n < held.len() && #[trigger] is_component_of(
                                graph,
                                id,
                                held[n]@,
                            );
                        assert(is_component_of(graph, id, found@[n]@));
                    }
                }
            }
        }
        k += 1;
    }
    let ghost given = views(found@);
    let ghost held_all = found@;
    let components = sort_items(found);
    proof {
        assert forall|id: NodeId| #[trigger] graph.nodes().contains(id) implies has_component_of(
            graph,
            given,
            id,
        ) by {
            assert(ids@.to_set().contains(id));
            let n = choose|n: int| 0 <= n < ids@.len() && ids@[n] == id;
            assert(!unseen@.contains(ids@[n]));
            let m = choose|m: int|
                0 <= m < held_all.len() && #[trigger] is_component_of(graph, id, held_all[m]@);
            assert(is_component_of(graph, id, given[m]));
        }
        lemma_components_sorted(graph, given);
    }
    components
}

/// The lists of neighbours allow the steps along edges in either direction.
proof fn lemma_listed_links(graph: &GraphWorkspace)
    requires
        graph.well_formed(),
    ensures
        listed_steps(graph.undirected@) == graph.links(),
{
    assert forall|a: NodeId, b: NodeId| listed_steps(graph.undirected@)(a, b) == #[trigger] (
    graph.links())(a, b) by {
        if graph.nodes().contains(a) {
            assert(lists(graph.undirected@[a]@, |other: NodeId| graph.joined(a, other)));
            assert(graph.undirected@[a]@.contains(b) <==> graph.joined(a, b));
        } else if graph.joined(a, b) {
            if graph.has(b, a) {
                assert(graph.nodes().contains(a));
            }
        }
    }
    assert(listed_steps(graph.undirected@) =~= graph.links());
}

/// A component is the component of each of its nodes.
proof fn lemma_same_component(
    graph: &GraphWorkspace,
    start: NodeId,
    id: NodeId,
    component: Seq<NodeId>,
)
    requires
        is_component_of(graph, start, component),
        component.contains(id),
    ensures
        is_component_of(graph, id, component),
{
    let links = graph.links();
    assert(reaches(links, start, id));
    lemma_links_symmetric(graph, start, id);
    assert forall|other: NodeId| #[trigger] component.contains(other) <==> reaches(
        links,
        id,
        other,
    ) by {
        assert(component.contains(other) <==> reaches(links, start, other));
        if reaches(links, start, other) {
            lemma_reaches_transitive(links, id, start, other);
        }
        if reaches(links, id, other) {
            lemma_reaches_transitive(links, start, id, other);
        }
    }
}

/// Disjoint components, sorted, are in strict order.
proof fn lemma_components_sorted(graph: &GraphWorkspace, found: Seq<Seq<NodeId>>)
    requires
        forall|n: int| 0 <= n < found.len() ==> is_component(graph, #[trigger] found[n]),
        forall|n: int| 0 <= n < found.len() ==> (#[trigger] found[n]).len() > 0,
        forall|n: int, m: int, id: NodeId|
            0 <= n < m < found.len() && #[trigger] found[n].contains(id) ==> !(
            #[trigger] found[m].contains(id)),
        forall|id: NodeId| #[trigger]
            graph.nodes().contains(id) ==> has_component_of(graph, found, id),
    ensures
        are_components(graph, sorted(found, order_of::<Vec<NodeId>>())),
{
    let before = order_of::<Vec<NodeId>>();
    let all = sorted(found, before);
    lemma_sorted_distinct(found);
    assert forall|i: int| 0 <= i < all.len() implies is_component(graph, #[trigger] all[i]) by {
        crate::sorting::lemma_sorted_contains::<Vec<NodeId>>(found, all[i]);
        assert(all.contains(all[i]));
        let n = choose|n: int| 0 <= n < found.len() && found[n] == all[i];
        assert(is_component(graph, found[n]));
    }
    assert forall|id: NodeId| #[trigger] graph.nodes().contains(id) implies has_component_of(
        graph,
        all,
        id,
    ) by {
        let n = choose|n: int|
            0 <= n < found.len() && #[trigger] is_component_of(graph, id, found[n]);
        crate::sorting::lemma_sorted_contains::<Vec<NodeId>>(found, found[n]);
        assert(found.contains(found[n]));
        let i = choose|i: int| 0 <= i < all.len() && all[i] == found[n];
        assert(is_component_of(graph, id, all[i]));
    }
}

/// Lists that share nothing are different, and sorted they are in strict order.
proof fn lemma_sorted_distinct(found: Seq<Seq<NodeId>>)
    requires
        forall|n: int| 0 <= n < found.len() ==> (#[trigger] found[n]).len() > 0,
        forall|n: int, m: int, id: NodeId|
            0 <= n < m < found.len() && #[trigger] found[n].contains(id) ==> !(
            #[trigger] found[m].contains(id)),
    ensures
        strictly_ordered(sorted(found, order_of::<Vec<NodeId>>()), order_of::<Vec<NodeId>>()),
{
    let before = order_of::<Vec<NodeId>>();
    let all = sorted(found, before);
    crate::sorting::law_sorted::<Vec<NodeId>>(found);
    assert(found.no_duplicates()) by {
        assert forall|n: int, m: int| 0 <= n < m < found.len() implies found[n] != found[m] by {
            let id = found[n][0];
            assert(found[n].contains(id));
            if found[n] == found[m] {
                assert(found[m].contains(id));
            }
        }
    }
    found.lemma_multiset_has_no_duplicates();
    all.lemma_multiset_has_no_duplicates_conv();
    assert forall|i: int, j: int| 0 <= i < j < all.len() implies before(
        #[trigger] all[i],
        #[trigger] all[j],
    ) by {
        assert(!before(all[j], all[i]));
        lemma_ids_order(all[i], all[j]);
    }
}

/// Whether `result` is what looking for the weakly connected components of the subgraph of some
/// nodes comes to.
pub open spec fn is_wcc_outcome<T: VectorType>(
    table: Table<T>,
    nodes: Set<NodeId>,
    label: Option<Seq<char>>,
    max_examined_edges: usize,
    result: Result<(Vec<Vec<NodeId>>, usize)>,
) -> bool {
    exists|edges: nat, scan: Option<GraphWorkspace>|
        {
            &&& is_edge_count(table, nodes, edges)
            &&& #[trigger] is_scan(table, nodes, label, max_examined_edges, edges, scan)
            &&& match scan {
                Some(graph) => result matches Ok((components, examined)) && are_components(
                    &graph,
                    views(components@),
                ) && examined == graph.examined_edges,
                None => result matches Err(error) && is_query_execution(
                    error,
                    "WCC 超过边访问预算 (WCC exceeds edge examination budget)"@,
                ),
            }
        }
}

/// The weakly connected components of the subgraph of some nodes, the largest first, and the
/// number of edges that were looked at.
pub fn subset_wcc<T: VectorType>(
    mt: &MemTable<T>,
    nodes: &BTreeSet<NodeId>,
    label_filter: Option<&str>,
    max_examined_edges: usize,
) -> (result: Result<(Vec<Vec<NodeId>>, usize)>)
    ensures
        is_wcc_outcome(mt@, nodes@, label_view(label_filter), max_examined_edges, result),
{
    match scan_subgraph(mt, nodes, label_filter, max_examined_edges) {
        Some(graph) => Ok((connected_components(&graph), graph.examined_edges)),
        None => Err(
            query_execution("WCC 超过边访问预算 (WCC exceeds edge examination budget)"),
        ),
    }
}

/// The weakly connected components as [`subset_wcc`] finds them, where `scan_all` looks at the
/// edges of all the nodes, in whatever order or at the same time.
pub fn subset_wcc_parallel<T: VectorType, S: Fn(&Vec<NodeId>) -> Vec<NodeScan>>(
    mt: &MemTable<T>,
    nodes: &BTreeSet<NodeId>,
    label_filter: Option<&str>,
    max_examined_edges: usize,
    scan_all: S,
) -> (result: Result<(Vec<Vec<NodeId>>, usize)>)
    requires
        scans_nodes(mt@, nodes@, label_view(label_filter), scan_all),
    ensures
        is_wcc_outcome(mt@, nodes@, label_view(label_filter), max_examined_edges, result),
{
    match scan_subgraph_parallel(mt, nodes, label_filter, max_examined_edges, scan_all) {
        Some(graph) => Ok((connected_components(&graph), graph.examined_edges)),
        None => Err(
            query_execution("WCC 超过边访问预算 (WCC exceeds edge examination budget)"),
        ),
    }
}

/// A subgraph has one list of components, and refusing to look for them does not depend on how the
/// edges were looked at: two answers agree.
pub proof fn law_wcc_outcomes_agree<T: VectorType>(
    table: Table<T>,
    nodes: Set<NodeId>,
    label: Option<Seq<char>>,
    max_examined_edges: usize,
    one: Result<(Vec<Vec<NodeId>>, usize)>,
    other: Result<(Vec<Vec<NodeId>>, usize)>,
)
    requires
        is_wcc_outcome(table, nodes, label, max_examined_edges, one),
        is_wcc_outcome(table, nodes, label, max_examined_edges, other),
    ensures
        match (one, other) {
            (Ok(a), Ok(b)) => views(a.0@) == views(b.0@) && a.1 == b.1,
            (Err(_), Err(_)) => true,
            _ => false,
        },
{
    let (m, a) = choose|edges: nat, scan: Option<GraphWorkspace>|
        {
            &&& is_edge_count(table, nodes, edges)
            &&& #[trigger] is_scan(table, nodes, label, max_examined_edges, edges, scan)
            &&& match scan {
                Some(graph) => one matches Ok((components, examined)) && are_components(
                    &graph,
                    views(components@),
                ) && examined == graph.examined_edges,
                None => one matches Err(error) && is_query_execution(
                    error,
                    "WCC 超过边访问预算 (WCC exceeds edge examination budget)"@,
                ),
            }
        };
    let (n, b) = choose|edges: nat, scan: Option<GraphWorkspace>|
        {
            &&& is_edge_count(table, nodes, edges)
            &&& #[trigger] is_scan(table, nodes, label, max_examined_edges, edges, scan)
            &&& match scan {
                Some(graph) => other matches Ok((components, examined)) && are_components(
                    &graph,
                    views(components@),
                ) && examined == graph.examined_edges,
                None => other matches Err(error) && is_query_execution(
                    error,
                    "WCC 超过边访问预算 (WCC exceeds edge examination budget)"@,
                ),
            }
        };
    law_scans_agree(table, nodes, label, max_examined_edges, m, a, n, b);
    if let (Some(graph), Some(graph_too)) = (a, b) {
        lemma_components_agree(&graph, &graph_too, views(one->Ok_0.0@), views(other->Ok_0.0@));
    }
}

/// Subgraphs with the same lists have the same links.
proof fn lemma_links_agree(a: &GraphWorkspace, b: &GraphWorkspace)
    requires
        same_lists(a, b),
    ensures
        a.links() == b.links(),
{
    assert forall|x: NodeId, y: NodeId| a.has(x, y) == b.has(x, y) by {
        if a.nodes().contains(x) {
            assert(a.directed@[x]@ == b.directed@[x]@);
        }
    }
    assert forall|x: NodeId, y: NodeId| #[trigger] a.links()(x, y) == b.links()(x, y) by {
        assert(a.has(x, y) == b.has(x, y));
        assert(a.has(y, x) == b.has(y, x));
    }
    assert(a.links() =~= b.links());
}

/// A node has one component.
proof fn lemma_component_unique(
    a: &GraphWorkspace,
    b: &GraphWorkspace,
    start: NodeId,
    one: Seq<NodeId>,
    other: Seq<NodeId>,
)
    requires
        a.links() == b.links(),
        is_component_of(a, start, one),
        is_component_of(b, start, other),
    ensures
        one == other,
{
    assert forall|id: NodeId| one.to_set().contains(id) <==> other.to_set().contains(id) by {
        assert(one.contains(id) <==> reaches(a.links(), start, id));
        assert(other.contains(id) <==> reaches(b.links(), start, id));
    }
    assert(one.to_set() =~= other.to_set());
    lemma_increasing_unique(one, other);
}

/// A component of one subgraph is among those of another with the same links.
proof fn lemma_component_held(
    a: &GraphWorkspace,
    b: &GraphWorkspace,
    component: Seq<NodeId>,
    other: Seq<Seq<NodeId>>,
)
    requires
        a.nodes() == b.nodes(),
        a.links() == b.links(),
        is_component(a, component),
        forall|id: NodeId| #[trigger]
            b.nodes().contains(id) ==> has_component_of(b, other, id),
    ensures
        other.contains(component),
{
    let start = choose|start: NodeId|
        a.nodes().contains(start) && #[trigger] is_component_of(a, start, component);
    assert(b.nodes().contains(start));
    let j = choose|j: int| 0 <= j < other.len() && #[trigger] is_component_of(b, start, other[j]);
    lemma_component_unique(a, b, start, component, other[j]);
}

/// The components of one subgraph are among those of another with the same links.
proof fn lemma_components_held(
    a: &GraphWorkspace,
    b: &GraphWorkspace,
    one: Seq<Seq<NodeId>>,
    other: Seq<Seq<NodeId>>,
)
    requires
        a.nodes() == b.nodes(),
        a.links() == b.links(),
        forall|i: int| 0 <= i < one.len() ==> is_component(a, #[trigger] one[i]),
        forall|id: NodeId| #[trigger]
            b.nodes().contains(id) ==> has_component_of(b, other, id),
    ensures
        forall|i: int| 0 <= i < one.len() ==> other.contains(#[trigger] one[i]),
{
    assert forall|i: int| 0 <= i < one.len() implies other.contains(#[trigger] one[i]) by {
        lemma_component_held(a, b, one[i], other);
    }
}

/// Lists in strict order that hold each other's elements are the same.
proof fn lemma_ordered_agree(one: Seq<Seq<NodeId>>, other: Seq<Seq<NodeId>>)
    requires
        strictly_ordered(one, order_of::<Vec<NodeId>>()),
        strictly_ordered(other, order_of::<Vec<NodeId>>()),
        forall|i: int| 0 <= i < one.len() ==> other.contains(#[trigger] one[i]),
        forall|i: int| 0 <= i < other.len() ==> one.contains(#[trigger] other[i]),
    ensures
        one == other,
{
    lemma_strictly_ordered_unique::<Vec<NodeId>>(one, other);
}

/// Subgraphs with the same lists have the same components.
#[verifier::spinoff_prover]
proof fn lemma_components_agree(
    a: &GraphWorkspace,
    b: &GraphWorkspace,
    one: Seq<Seq<NodeId>>,
    other: Seq<Seq<NodeId>>,
)
    requires
        same_lists(a, b),
        are_components(a, one),
        are_components(b, other),
    ensures
        one == other,
{
    lemma_links_agree(a, b);
    lemma_components_held(a, b, one, other);
    lemma_components_held(b, a, other, one);
    lemma_ordered_agree(one, other);
}

} // verus!
