//! How central the nodes of a subgraph are.
use std::collections::BTreeSet;
use vstd::prelude::*;

use crate::collections::{increasing, lemma_increasing_distinct, map_keys};
use crate::error::{is_query_execution, query_execution, Result};
use crate::graph::compact::saturated;
use crate::graph::workspace::{
    is_edge_count, is_scan, law_scans_agree, lists, same_lists, scan_subgraph,
    scan_subgraph_parallel, scans_nodes, GraphWorkspace, NodeScan,
};
use crate::node::NodeId;
use crate::number::{f64_total_key, f64_total_less};
use crate::sorting::{
    law_sorted, lemma_strictly_ordered_unique, order_of, sort_items, sorted, strictly_ordered, views,
    SortItem,
};
use crate::storage::memtable::{label_view, MemTable, Table};
use crate::vector::VectorType;

verus! {

/// The degrees of a node within a subgraph, and the share of the possible edges that it has, a
/// double precision bit pattern.
#[derive(Debug, Clone, Copy, PartialEq, Eq, Structural)]
pub struct SubsetDegreeCentrality {
    pub id: NodeId,
    pub out_degree: usize,
    pub in_degree: usize,
    pub total_degree: usize,
    pub normalized: u64,
}

impl View for SubsetDegreeCentrality {
    type V = SubsetDegreeCentrality;

    open spec fn view(&self) -> SubsetDegreeCentrality {
        *self
    }
}

impl SortItem for SubsetDegreeCentrality {
    open spec fn goes_before(a: SubsetDegreeCentrality, b: SubsetDegreeCentrality) -> bool {
        a.total_degree > b.total_degree || (a.total_degree == b.total_degree && a.id < b.id)
    }

    proof fn lemma_order(
        a: SubsetDegreeCentrality,
        b: SubsetDegreeCentrality,
        c: SubsetDegreeCentrality,
    ) {
    }

    fn is_before(&self, other: &SubsetDegreeCentrality) -> (result: bool) {
        self.total_degree > other.total_degree || (self.total_degree == other.total_degree
            && self.id < other.id)
    }
}

/// The number of edge ends that a node of a graph with `count` nodes can have, at least one.
pub open spec fn possible_ends(count: nat) -> nat {
    if count <= 1 {
        1
    } else {
        saturated(((count - 1) * 2) as nat)
    }
}

/// Whether an entry gives the degrees of a node.
pub open spec fn is_degree_entry<F: Fn(usize, usize) -> u64>(
    graph: &GraphWorkspace,
    ratio: F,
    entry: SubsetDegreeCentrality,
) -> bool {
    &&& graph.nodes().contains(entry.id)
    &&& entry.out_degree == graph.directed@[entry.id]@.len()
    &&& entry.in_degree == graph.reverse@[entry.id]@.len()
    &&& entry.total_degree == entry.out_degree + entry.in_degree
    &&& call_ensures(
        ratio,
        (entry.total_degree, possible_ends(graph.nodes().len()) as usize),
        entry.normalized,
    )
}

/// Whether a list has an entry for a node.
pub open spec fn has_entry(entries: Seq<SubsetDegreeCentrality>, id: NodeId) -> bool {
    exists|i: int| 0 <= i < entries.len() && (#[trigger] entries[i]).id == id
}

/// Whether a list has one entry for each node, the greatest degree first.
pub open spec fn are_degrees<F: Fn(usize, usize) -> u64>(
    graph: &GraphWorkspace,
    ratio: F,
    entries: Seq<SubsetDegreeCentrality>,
) -> bool {
    &&& strictly_ordered(entries, order_of::<SubsetDegreeCentrality>())
    &&& forall|i: int|
        0 <= i < entries.len() ==> is_degree_entry(graph, ratio, #[trigger] entries[i])
    &&& forall|id: NodeId| #[trigger] graph.nodes().contains(id) ==> has_entry(entries, id)
}

/// The lists of a node are no longer than the graph has nodes.
proof fn lemma_degree_bound(graph: &GraphWorkspace, id: NodeId)
    requires
        graph.well_formed(),
        graph.nodes().contains(id),
    ensures
        graph.directed@[id]@.len() <= graph.nodes().len(),
        graph.reverse@[id]@.len() <= graph.nodes().len(),
{
    let out = graph.directed@[id]@;
    let back = graph.reverse@[id]@;
    assert(lists(back, |from: NodeId| graph.has(from, id)));
    lemma_increasing_distinct(out);
    lemma_increasing_distinct(back);
    out.unique_seq_to_set();
    back.unique_seq_to_set();
    assert(out.to_set().subset_of(graph.nodes())) by {
        assert forall|to: NodeId| #[trigger] out.to_set().contains(to) implies graph.nodes().contains(
            to,
        ) by {
            assert(graph.has(id, to));
        }
    }
    assert(back.to_set().subset_of(graph.nodes())) by {
        assert forall|from: NodeId| #[trigger] back.to_set().contains(from) implies
            graph.nodes().contains(from) by {
            assert(back.contains(from));
            assert(graph.has(from, id));
        }
    }
    vstd::set_lib::lemma_len_subset(out.to_set(), graph.nodes());
    vstd::set_lib::lemma_len_subset(back.to_set(), graph.nodes());
}

/// The degrees of all nodes, the greatest first. `ratio` divides a degree by the greatest possible
/// one.
pub fn degree_centrality<F: Fn(usize, usize) -> u64>(graph: &GraphWorkspace, ratio: F) -> (entries:
    Vec<SubsetDegreeCentrality>)
    requires
        graph.well_formed(),
        graph.nodes().len() * 2 <= usize::MAX,
        forall|part: usize, whole: usize| call_requires(ratio, (part, whole)),
    ensures
        are_degrees(graph, ratio, entries@),
{
    let ids = map_keys(&graph.directed);
    proof {
        lemma_increasing_distinct(ids@);
        ids@.unique_seq_to_set();
    }
    let possible: usize = if ids.len() <= 1 {
        1
    } else {
        (ids.len() - 1) * 2
    };
    let mut found: Vec<SubsetDegreeCentrality> = Vec::new();
    let mut i: usize = 0;
    while i < ids.len()
        invariant
            graph.well_formed(),
            graph.nodes().len() * 2 <= usize::MAX,
            forall|part: usize, whole: usize| call_requires(ratio, (part, whole)),
            ids@.to_set() == graph.nodes(),
            increasing(ids@),
            possible == possible_ends(graph.nodes().len()),
            i <= ids@.len(),
            found@.len() == i,
            forall|k: int|
                0 <= k < i ==> (#[trigger] found@[k]).id == ids@[k] && is_degree_entry(
                    graph,
                    ratio,
                    found@[k],
                ),
        decreases ids@.len() - i,
    {
        let id: NodeId = ids[i];
        proof {
            assert(ids@.contains(id));
            assert(ids@.to_set().contains(id));
            lemma_degree_bound(graph, id);
        }
        let out_degree: usize = graph.directed.get(&id).unwrap().len();
        let in_degree: usize = graph.reverse.get(&id).unwrap().len();
        let total_degree: usize = out_degree + in_degree;
        let normalized: u64 = ratio(total_degree, possible);
        found.push(
            SubsetDegreeCentrality { id, out_degree, in_degree, total_degree, normalized },
        );
        i += 1;
    }
    let ghost given = found@;
    assert(views(given) =~= given);
    let entries = sort_items(found);
    assert(views(entries@) =~= entries@);
    proof {
        lemma_entries_sorted(given);
        assert forall|k: int| 0 <= k < entries@.len() implies is_degree_entry(
            graph,
            ratio,
            #[trigger] entries@[k],
        ) by {
            crate::sorting::lemma_sorted_contains::<SubsetDegreeCentrality>(given, entries@[k]);
            assert(entries@.contains(entries@[k]));
            let n = choose|n: int| 0 <= n < given.len() && given[n] == entries@[k];
            assert(is_degree_entry(graph, ratio, given[n]));
        }
        assert forall|id: NodeId| #[trigger] graph.nodes().contains(id) implies has_entry(
            entries@,
            id,
        ) by {
            assert(ids@.to_set().contains(id));
            let n = choose|n: int| 0 <= n < ids@.len() && ids@[n] == id;
            crate::sorting::lemma_sorted_contains::<SubsetDegreeCentrality>(given, given[n]);
            assert(given.contains(given[n]));
            let k = choose|k: int| 0 <= k < entries@.len() && entries@[k] == given[n];
            assert(entries@[k].id == id);
        }
    }
    entries
}

/// Entries of different nodes, sorted, are in strict order.
proof fn lemma_entries_sorted(given: Seq<SubsetDegreeCentrality>)
    requires
        forall|i: int, j: int|
            0 <= i < j < given.len() ==> (#[trigger] given[i]).id != (#[trigger] given[j]).id,
    ensures
        strictly_ordered(
            sorted(given, order_of::<SubsetDegreeCentrality>()),
            order_of::<SubsetDegreeCentrality>(),
        ),
{
    let before = order_of::<SubsetDegreeCentrality>();
    let all = sorted(given, before);
    law_sorted::<SubsetDegreeCentrality>(given);
    assert(given.no_duplicates());
    given.lemma_multiset_has_no_duplicates();
    all.lemma_multiset_has_no_duplicates_conv();
    assert forall|i: int, j: int| 0 <= i < j < all.len() implies before(
        #[trigger] all[i],
        #[trigger] all[j],
    ) by {
        assert(!before(all[j], all[i]));
        crate::sorting::lemma_sorted_contains::<SubsetDegreeCentrality>(given, all[i]);
        crate::sorting::lemma_sorted_contains::<SubsetDegreeCentrality>(given, all[j]);
        assert(all.contains(all[i]) && all.contains(all[j]));
        let n = choose|n: int| 0 <= n < given.len() && given[n] == all[i];
        let m = choose|m: int| 0 <= m < given.len() && given[m] == all[j];
        if n < m {
            assert(given[n].id != given[m].id);
        } else if m < n {
            assert(given[m].id != given[n].id);
        }
    }
}

/// Whether `result` is what asking for the degrees of some nodes within their subgraph comes to.
pub open spec fn is_degree_outcome<T: VectorType, F: Fn(usize, usize) -> u64>(
    table: Table<T>,
    nodes: Set<NodeId>,
    label: Option<Seq<char>>,
    max_examined_edges: usize,
    ratio: F,
    result: Result<(Vec<SubsetDegreeCentrality>, usize)>,
) -> bool {
    exists|edges: nat, scan: Option<GraphWorkspace>|
        {
            &&& is_edge_count(table, nodes, edges)
            &&& #[trigger] is_scan(table, nodes, label, max_examined_edges, edges, scan)
            &&& match scan {
                Some(graph) => result matches Ok((entries, examined)) && are_degrees(
                    &graph,
                    ratio,
                    entries@,
                ) && examined == graph.examined_edges,
                None => result matches Err(error) && is_query_execution(
                    error,
                    "度中心性超过边访问预算 (Degree centrality exceeds edge examination budget)"@,
                ),
            }
        }
}

/// The degrees of some nodes within their subgraph, the greatest first, and the number of edges
/// that were looked at.
pub fn subset_degree_centrality<T: VectorType, F: Fn(usize, usize) -> u64>(
    mt: &MemTable<T>,
    nodes: &BTreeSet<NodeId>,
    label_filter: Option<&str>,
    max_examined_edges: usize,
    ratio: F,
) -> (result: Result<(Vec<SubsetDegreeCentrality>, usize)>)
    requires
        nodes@.len() * 2 <= usize::MAX,
        forall|part: usize, whole: usize| call_requires(ratio, (part, whole)),
    ensures
        is_degree_outcome(
            mt@,
            nodes@,
            label_view(label_filter),
            max_examined_edges,
            ratio,
            result,
        ),
{
    match scan_subgraph(mt, nodes, label_filter, max_examined_edges) {
        Some(graph) => Ok((degree_centrality(&graph, ratio), graph.examined_edges)),
        None => Err(
            query_execution(
                "度中心性超过边访问预算 (Degree centrality exceeds edge examination budget)",
            ),
        ),
    }
}

/// The degrees as [`subset_degree_centrality`] gives them, where `scan_all` looks at the edges of
/// all the nodes, in whatever order or at the same time.
pub fn subset_degree_centrality_parallel<
    T: VectorType,
    F: Fn(usize, usize) -> u64,
    S: Fn(&Vec<NodeId>) -> Vec<NodeScan>,
>(
    mt: &MemTable<T>,
    nodes: &BTreeSet<NodeId>,
    label_filter: Option<&str>,
    max_examined_edges: usize,
    ratio: F,
    scan_all: S,
) -> (result: Result<(Vec<SubsetDegreeCentrality>, usize)>)
    requires
        nodes@.len() * 2 <= usize::MAX,
        forall|part: usize, whole: usize| call_requires(ratio, (part, whole)),
        scans_nodes(mt@, nodes@, label_view(label_filter), scan_all),
    ensures
        is_degree_outcome(
            mt@,
            nodes@,
            label_view(label_filter),
            max_examined_edges,
            ratio,
            result,
        ),
{
    match scan_subgraph_parallel(mt, nodes, label_filter, max_examined_edges, scan_all) {
        Some(graph) => Ok((degree_centrality(&graph, ratio), graph.examined_edges)),
        None => Err(
            query_execution(
                "度中心性超过边访问预算 (Degree centrality exceeds edge examination budget)",
            ),
        ),
    }
}

/// A subgraph has one list of degrees, however the edges were looked at: two answers agree, where
/// `ratio` gives the same for the same numbers.
pub proof fn law_degree_outcomes_agree<T: VectorType, F: Fn(usize, usize) -> u64>(
    table: Table<T>,
    nodes: Set<NodeId>,
    label: Option<Seq<char>>,
    max_examined_edges: usize,
    ratio: F,
    one: Result<(Vec<SubsetDegreeCentrality>, usize)>,
    other: Result<(Vec<SubsetDegreeCentrality>, usize)>,
)
    requires
        forall|part: usize, whole: usize, a: u64, b: u64|
            call_ensures(ratio, (part, whole), a) && call_ensures(ratio, (part, whole), b) ==> a
                == b,
        is_degree_outcome(table, nodes, label, max_examined_edges, ratio, one),
        is_degree_outcome(table, nodes, label, max_examined_edges, ratio, other),
    ensures
        match (one, other) {
            (Ok(a), Ok(b)) => a.0@ == b.0@ && a.1 == b.1,
            (Err(_), Err(_)) => true,
            _ => false,
        },
{
    let (m, a) = choose|edges: nat, scan: Option<GraphWorkspace>|
        {
            &&& is_edge_count(table, nodes, edges)
            &&& #[trigger] is_scan(table, nodes, label, max_examined_edges, edges, scan)
            &&& match scan {
                Some(graph) => one matches Ok((entries, examined)) && are_degrees(
                    &graph,
                    ratio,
                    entries@,
                ) && examined == graph.examined_edges,
                None => one matches Err(error) && is_query_execution(
                    error,
                    "度中心性超过边访问预算 (Degree centrality exceeds edge examination budget)"@,
                ),
            }
        };
    let (n, b) = choose|edges: nat, scan: Option<GraphWorkspace>|
        {
            &&& is_edge_count(table, nodes, edges)
            &&& #[trigger] is_scan(table, nodes, label, max_examined_edges, edges, scan)
            &&& match scan {
                Some(graph) => other matches Ok((entries, examined)) && are_degrees(
                    &graph,
                    ratio,
                    entries@,
                ) && examined == graph.examined_edges,
                None => other matches Err(error) && is_query_execution(
                    error,
                    "度中心性超过边访问预算 (Degree centrality exceeds edge examination budget)"@,
                ),
            }
        };
    law_scans_agree(table, nodes, label, max_examined_edges, m, a, n, b);
    if let (Some(graph), Some(graph_too)) = (a, b) {
        lemma_degrees_held(&graph, &graph_too, ratio, one->Ok_0.0@, other->Ok_0.0@);
        lemma_degrees_held(&graph_too, &graph, ratio, other->Ok_0.0@, one->Ok_0.0@);
        lemma_strictly_ordered_unique::<SubsetDegreeCentrality>(one->Ok_0.0@, other->Ok_0.0@);
    }
}

/// The degrees in one subgraph are among those in another with the same lists.
proof fn lemma_degrees_held<F: Fn(usize, usize) -> u64>(
    a: &GraphWorkspace,
    b: &GraphWorkspace,
    ratio: F,
    one: Seq<SubsetDegreeCentrality>,
    other: Seq<SubsetDegreeCentrality>,
)
    requires
        forall|part: usize, whole: usize, a: u64, b: u64|
            call_ensures(ratio, (part, whole), a) && call_ensures(ratio, (part, whole), b) ==> a
                == b,
        same_lists(a, b) || same_lists(b, a),
        are_degrees(a, ratio, one),
        are_degrees(b, ratio, other),
    ensures
        forall|entry: SubsetDegreeCentrality| #[trigger]
            one.contains(entry) ==> other.contains(entry),
{
    assert forall|entry: SubsetDegreeCentrality| #[trigger] one.contains(entry) implies
        other.contains(entry) by {
        let i = choose|i: int| 0 <= i < one.len() && one[i] == entry;
        assert(is_degree_entry(a, ratio, one[i]));
        assert(b.nodes().contains(entry.id));
        assert(has_entry(other, entry.id));
        let j = choose|j: int| 0 <= j < other.len() && (#[trigger] other[j]).id == entry.id;
        assert(is_degree_entry(b, ratio, other[j]));
        assert(a.nodes().contains(entry.id));
        assert(other[j] == entry);
    }
}

/// Nodes with scores are listed by score, the greatest first, and then by identifier.
impl SortItem for (NodeId, u64) {
    open spec fn goes_before(a: (NodeId, u64), b: (NodeId, u64)) -> bool {
        f64_total_key(a.1) > f64_total_key(b.1) || (f64_total_key(a.1) == f64_total_key(b.1) && a.0
            < b.0)
    }

    proof fn lemma_order(a: (NodeId, u64), b: (NodeId, u64), c: (NodeId, u64)) {
    }

    fn is_before(&self, other: &(NodeId, u64)) -> (result: bool) {
        f64_total_less(other.1, self.1) || (!f64_total_less(self.1, other.1) && self.0 < other.0)
    }
}

/// Nodes with their scores, in the order of the nodes.
pub open spec fn scored_nodes(ids: Seq<NodeId>, scores: Seq<u64>) -> Seq<(NodeId, u64)> {
    Seq::new(ids.len(), |i: int| (ids[i], scores[i]))
}

/// Nodes with their scores, the greatest score first.
pub(crate) fn rank_nodes(ids: &Vec<NodeId>, scores: &Vec<u64>) -> (ranked: Vec<(NodeId, u64)>)
    requires
        ids@.len() == scores@.len(),
    ensures
        ranked@ == sorted(scored_nodes(ids@, scores@), order_of::<(NodeId, u64)>()),
{
    let mut list: Vec<(NodeId, u64)> = Vec::new();
    let mut i: usize = 0;
    while i < ids.len()
        invariant
            i <= ids@.len(),
            ids@.len() == scores@.len(),
            list@.len() == i,
            forall|k: int| 0 <= k < i ==> (#[trigger] list@[k]) == (ids@[k], scores@[k]),
        decreases ids@.len() - i,
    {
        list.push((ids[i], scores[i]));
        i += 1;
    }
    assert(views(list@) =~= scored_nodes(ids@, scores@));
    let ranked = sort_items(list);
    assert(views(ranked@) =~= ranked@);
    ranked
}

} // verus!
