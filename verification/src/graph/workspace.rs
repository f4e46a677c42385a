//! The induced subgraph on which the structure algorithms run.
use std::collections::{BTreeMap, BTreeSet};
use vstd::prelude::*;

use crate::collections::{
    increasing, lemma_contains_push, lemma_increasing_distinct, set_elements, sort_dedup,
};
use crate::error::{is_query_execution, query_execution, Result};
use crate::graph::compact::saturated;
use crate::graph::pathfinding::edge_allowed;
use crate::graph::walk::{has_edge, label_fits, Adjacency};
use crate::node::{edge_views, NodeId};
use crate::number::{f32_is_nan, f32_nan, f32_total_key, f32_total_less};
use crate::storage::memtable::{label_view, MemTable, Table};
use crate::vector::{copy_slice, VectorType};

verus! {

/// The edges between the chosen nodes: for each node its successors, its predecessors, its
/// neighbours in either direction, and its successors with the smallest weight of an edge to
/// them. All lists are in ascending order.
#[derive(Debug)]
pub struct GraphWorkspace {
    pub directed: BTreeMap<NodeId, Vec<NodeId>>,
    pub reverse: BTreeMap<NodeId, Vec<NodeId>>,
    pub undirected: BTreeMap<NodeId, Vec<NodeId>>,
    pub weighted: BTreeMap<NodeId, Vec<(NodeId, u32)>>,
    pub examined_edges: usize,
}

/// Whether an edge of the subgraph leads from one node to another.
pub open spec fn keeps<T: VectorType>(
    table: Table<T>,
    nodes: Set<NodeId>,
    label: Option<Seq<char>>,
    from: NodeId,
    to: NodeId,
) -> bool {
    nodes.contains(from) && nodes.contains(to) && has_edge(table, label, from, to)
}

/// Whether `weight` is the smallest weight of an edge of the subgraph between two nodes. A weight
/// that is a number comes before one that is not.
pub open spec fn is_least_weight<T: VectorType>(
    table: Table<T>,
    label: Option<Seq<char>>,
    from: NodeId,
    to: NodeId,
    weight: u32,
) -> bool {
    &&& has_edge_weight(table, label, from, to, weight)
    &&& forall|other: u32| #[trigger]
        has_edge_weight(table, label, from, to, other) ==> !lighter(other, weight)
}

/// Whether an edge with the label and this weight leads from one node to another.
pub open spec fn has_edge_weight<T: VectorType>(
    table: Table<T>,
    label: Option<Seq<char>>,
    from: NodeId,
    to: NodeId,
    weight: u32,
) -> bool {
    exists|i: int|
        0 <= i < table.edges_of(from).len() && (#[trigger] table.edges_of(from)[i]).target == to
            && label_fits(label, table.edges_of(from)[i]) && table.edges_of(from)[i].weight
            == weight
}

/// Whether `a` is preferred to `b`: a number to a NaN, otherwise the smaller one.
pub open spec fn lighter(a: u32, b: u32) -> bool {
    if f32_nan(a) != f32_nan(b) {
        f32_nan(b)
    } else {
        f32_total_key(a) < f32_total_key(b)
    }
}

/// Whether `list` holds exactly the nodes that satisfy `wanted`, in ascending order.
pub open spec fn lists(list: Seq<NodeId>, wanted: spec_fn(NodeId) -> bool) -> bool {
    increasing(list) && forall|id: NodeId| #[trigger] list.contains(id) <==> wanted(id)
}

/// Whether a weighted list names the nodes of `targets`, in the same order.
pub open spec fn names(list: Seq<(NodeId, u32)>, targets: Seq<NodeId>) -> bool {
    list.len() == targets.len() && forall|i: int|
        0 <= i < list.len() ==> (#[trigger] list[i]).0 == targets[i]
}

impl GraphWorkspace {
    /// The nodes of the subgraph.
    pub open spec fn nodes(&self) -> Set<NodeId> {
        self.directed@.dom()
    }

    /// Whether there is an edge.
    pub open spec fn has(&self, from: NodeId, to: NodeId) -> bool {
        self.directed@.contains_key(from) && self.directed@[from]@.contains(to)
    }

    /// Whether two different nodes are joined by an edge in either direction.
    pub open spec fn joined(&self, a: NodeId, b: NodeId) -> bool {
        a != b && (self.has(a, b) || self.has(b, a))
    }

    /// The steps along the edges.
    pub open spec fn steps(&self) -> Adjacency {
        |from: NodeId, to: NodeId| self.has(from, to)
    }

    /// The steps along the edges in either direction.
    pub open spec fn links(&self) -> Adjacency {
        |a: NodeId, b: NodeId| self.joined(a, b)
    }

    /// What the four lists have to do with each other.
    pub open spec fn well_formed(&self) -> bool {
        &&& self.directed@.dom().finite()
        &&& self.reverse@.dom() == self.nodes()
        &&& self.undirected@.dom() == self.nodes()
        &&& self.weighted@.dom() == self.nodes()
        &&& forall|id: NodeId| #[trigger]
            self.nodes().contains(id) ==> {
                &&& increasing(self.directed@[id]@)
                &&& lists(self.reverse@[id]@, |from: NodeId| self.has(from, id))
                &&& lists(self.undirected@[id]@, |other: NodeId| self.joined(id, other))
                &&& names(self.weighted@[id]@, self.directed@[id]@)
            }
        &&& forall|from: NodeId, to: NodeId| #[trigger]
            self.has(from, to) ==> self.nodes().contains(to)
    }
}

/// Whether `workspace` is the subgraph of a table induced by some nodes and a label.
pub open spec fn is_workspace<T: VectorType>(
    table: Table<T>,
    nodes: Set<NodeId>,
    label: Option<Seq<char>>,
    workspace: GraphWorkspace,
) -> bool {
    &&& workspace.well_formed()
    &&& workspace.nodes() == nodes
    &&& forall|from: NodeId, to: NodeId| #[trigger]
        workspace.has(from, to) <==> keeps(table, nodes, label, from, to)
    &&& forall|from: NodeId, i: int|
        nodes.contains(from) && 0 <= i < workspace.weighted@[from]@.len() ==> is_least_weight(
            table,
            label,
            from,
            (#[trigger] workspace.weighted@[from]@[i]).0,
            workspace.weighted@[from]@[i].1,
        )
}

/// The number of edges of the first `count` nodes.
pub open spec fn edge_total<T: VectorType>(table: Table<T>, ids: Seq<NodeId>, count: nat) -> nat
    decreases count,
{
    if count == 0 {
        0
    } else {
        edge_total(table, ids, (count - 1) as nat) + table.edges_of(ids[count - 1]).len()
    }
}

/// The number of kept edges among the first `count` edges of a node.
pub open spec fn kept_edges<T: VectorType>(
    table: Table<T>,
    nodes: Set<NodeId>,
    label: Option<Seq<char>>,
    from: NodeId,
    count: nat,
) -> nat
    decreases count,
{
    if count == 0 {
        0
    } else {
        let edge = table.edges_of(from)[count - 1];
        kept_edges(table, nodes, label, from, (count - 1) as nat) + if nodes.contains(edge.target)
            && label_fits(label, edge) {
            1nat
        } else {
            0nat
        }
    }
}

/// The number of kept edges of the first `count` nodes.
pub open spec fn kept_total<T: VectorType>(
    table: Table<T>,
    nodes: Set<NodeId>,
    label: Option<Seq<char>>,
    ids: Seq<NodeId>,
    count: nat,
) -> nat
    decreases count,
{
    if count == 0 {
        0
    } else {
        kept_total(table, nodes, label, ids, (count - 1) as nat) + kept_edges(
            table,
            nodes,
            label,
            ids[count - 1],
            table.edges_of(ids[count - 1]).len(),
        )
    }
}

/// Why a workspace is refused: first its size, then the number of edges, then the size of the
/// lists. A node takes 80 bytes, an edge 48.
pub open spec fn workspace_fault(
    nodes: nat,
    edges: nat,
    kept: nat,
    max_examined_edges: nat,
    max_bytes: nat,
) -> Option<Seq<char>> {
    if nodes * 80 > usize::MAX {
        Some("图算法工作区大小溢出"@)
    } else if nodes * 80 > max_bytes {
        Some("图算法工作区超过临时内存预算 (Graph workspace exceeds temporary memory budget)"@)
    } else if saturated(edges) > max_examined_edges {
        Some("图算法超过边访问预算 (Graph algorithm exceeds edge examination budget)"@)
    } else if saturated(kept) * 48 > usize::MAX {
        Some("图算法邻接工作区大小溢出"@)
    } else if saturated(nodes * 80 + saturated(kept) * 48) > max_bytes {
        Some("图算法邻接表超过临时内存预算 (Graph adjacency exceeds temporary memory budget)"@)
    } else {
        None
    }
}

/// Whether `a` is preferred to `b`.
fn is_lighter(a: u32, b: u32) -> (result: bool)
    ensures
        result == lighter(a, b),
{
    let a_nan = f32_is_nan(a);
    let b_nan = f32_is_nan(b);
    if a_nan != b_nan {
        b_nan
    } else {
        f32_total_less(a, b)
    }
}

/// The successors of a node within the subgraph, in ascending order.
fn kept_targets<T: VectorType>(
    mt: &MemTable<T>,
    nodes: &BTreeSet<NodeId>,
    label_filter: Option<&str>,
    source: NodeId,
) -> (targets: Vec<NodeId>)
    requires
        nodes@.contains(source),
    ensures
        increasing(targets@),
        forall|to: NodeId| #[trigger]
            targets@.contains(to) <==> keeps(mt@, nodes@, label_view(label_filter), source, to),
{
    let ghost label = label_view(label_filter);
    let ghost edge_list = mt@.edges_of(source);
    let mut found: Vec<NodeId> = Vec::new();
    match mt.get_edges(source) {
        None => {},
        Some(edges) => {
            let mut i: usize = 0;
            while i < edges.len()
                invariant
                    i <= edges@.len(),
                    label == label_view(label_filter),
                    nodes@.contains(source),
                    edge_list == mt@.edges_of(source),
                    edge_views(edges@) == edge_list,
                    forall|n: int|
                        0 <= n < found@.len() ==> keeps(
                            mt@,
                            nodes@,
                            label,
                            source,
                            #[trigger] found@[n],
                        ),
                    forall|j: int|
                        0 <= j < i && nodes@.contains((#[trigger] edge_list[j]).target)
                            && label_fits(label, edge_list[j]) ==> found@.contains(
                            edge_list[j].target,
                        ),
                decreases edges@.len() - i,
            {
                let ghost before = found@;
                assert(edges@[i as int]@ == edge_list[i as int]);
                let target: NodeId = edges[i].target_id;
                if nodes.contains(&target) && edge_allowed(&edges[i], label_filter) {
                    found.push(target);
                    proof {
                        assert(mt@.edges_of(source)[i as int].target == target);
                        assert(has_edge(mt@, label, source, target));
                        assert forall|id: NodeId| #[trigger] found@.contains(id)
                            <==> before.contains(id) || id == target by {
                            lemma_contains_push(before, target, id);
                        }
                    }
                }
                i += 1;
            }
        },
    }
    let targets = sort_dedup(&found);
    proof {
        assert forall|to: NodeId| #[trigger] targets@.contains(to) <==> keeps(
            mt@,
            nodes@,
            label,
            source,
            to,
        ) by {
            if found@.contains(to) {
                let n = choose|n: int| 0 <= n < found@.len() && found@[n] == to;
                assert(keeps(mt@, nodes@, label, source, found@[n]));
            }
            if keeps(mt@, nodes@, label, source, to) {
                let j = choose|j: int|
                    0 <= j < mt@.edges_of(source).len() && (#[trigger] mt@.edges_of(source)[j]).target
                        == to && label_fits(label, mt@.edges_of(source)[j]);
                assert(edge_list[j].target == to);
            }
        }
    }
    targets
}

/// The smallest weight of an edge between two nodes.
fn least_weight<T: VectorType>(
    mt: &MemTable<T>,
    label_filter: Option<&str>,
    source: NodeId,
    target: NodeId,
) -> (weight: u32)
    requires
        has_edge(mt@, label_view(label_filter), source, target),
    ensures
        is_least_weight(mt@, label_view(label_filter), source, target, weight),
{
    let ghost label = label_view(label_filter);
    let ghost edge_list = mt@.edges_of(source);
    let ghost witness = choose|j: int|
        0 <= j < edge_list.len() && (#[trigger] mt@.edges_of(source)[j]).target == target
            && label_fits(label, mt@.edges_of(source)[j]);
    let mut best: Option<u32> = None;
    match mt.get_edges(source) {
        None => {},
        Some(edges) => {
            let mut i: usize = 0;
            while i < edges.len()
                invariant
                    i <= edges@.len(),
                    label == label_view(label_filter),
                    edge_list == mt@.edges_of(source),
                    edge_views(edges@) == edge_list,
                    best matches Some(weight) ==> has_edge_weight(
                        mt@,
                        label,
                        source,
                        target,
                        weight,
                    ),
                    forall|j: int|
                        0 <= j < i && (#[trigger] edge_list[j]).target == target && label_fits(
                            label,
                            edge_list[j],
                        ) ==> (best matches Some(weight) && !lighter(
                            edge_list[j].weight,
                            weight,
                        )),
                decreases edges@.len() - i,
            {
                assert(edges@[i as int]@ == edge_list[i as int]);
                if edges[i].target_id == target && edge_allowed(&edges[i], label_filter) {
                    proof {
                        assert(mt@.edges_of(source)[i as int].target == target);
                        assert(has_edge_weight(
                            mt@,
                            label,
                            source,
                            target,
                            edges@[i as int].weight,
                        ));
                    }
                    best =
                    match best {
                        None => Some(edges[i].weight),
                        Some(weight) => if is_lighter(edges[i].weight, weight) {
                            Some(edges[i].weight)
                        } else {
                            Some(weight)
                        },
                    };
                }
                i += 1;
            }
        },
    }
    proof {
        assert(edge_list[witness].target == target);
        assert forall|other: u32| #[trigger]
            has_edge_weight(mt@, label, source, target, other) implies !lighter(other, best->0) by {
            let j = choose|j: int|
                0 <= j < mt@.edges_of(source).len() && (#[trigger] mt@.edges_of(source)[j]).target
                    == target && label_fits(label, mt@.edges_of(source)[j]) && mt@.edges_of(
                    source,
                )[j].weight == other;
            assert(edge_list[j].target == target);
        }
    }
    best.unwrap()
}

/// Counts the edges of the nodes and those that stay in the subgraph; `None` where there are
/// more edges than may be examined.
pub(crate) fn count_edges<T: VectorType>(
    mt: &MemTable<T>,
    nodes: &BTreeSet<NodeId>,
    ids: &Vec<NodeId>,
    label_filter: Option<&str>,
    max_examined_edges: usize,
) -> (counts: Option<(usize, usize)>)
    ensures
        match counts {
            Some((examined, kept)) => {
                &&& examined == saturated(edge_total(mt@, ids@, ids@.len()))
                &&& examined <= max_examined_edges
                &&& kept == saturated(
                    kept_total(mt@, nodes@, label_view(label_filter), ids@, ids@.len()),
                )
            },
            None => saturated(edge_total(mt@, ids@, ids@.len())) > max_examined_edges,
        },
{
    let ghost label = label_view(label_filter);
    let mut examined: usize = 0;
    let mut kept: usize = 0;
    let mut i: usize = 0;
    while i < ids.len()
        invariant
            i <= ids@.len(),
            label == label_view(label_filter),
            examined == saturated(edge_total(mt@, ids@, i as nat)),
            examined <= max_examined_edges,
            kept == saturated(kept_total(mt@, nodes@, label, ids@, i as nat)),
        decreases ids@.len() - i,
    {
        let source: NodeId = ids[i];
        let ghost before = edge_total(mt@, ids@, i as nat);
        let ghost held = kept_total(mt@, nodes@, label, ids@, i as nat);
        let ghost edge_list = mt@.edges_of(source);
        proof {
            lemma_edge_total_grows(mt@, ids@, (i + 1) as nat, ids@.len());
        }
        match mt.get_edges(source) {
            None => {},
            Some(edges) => {
                let mut j: usize = 0;
                while j < edges.len()
                    invariant
                        j <= edges@.len(),
                        i < ids@.len(),
                        source == ids@[i as int],
                        label == label_view(label_filter),
                        edge_list == mt@.edges_of(source),
                        edge_views(edges@) == edge_list,
                        before == edge_total(mt@, ids@, i as nat),
                        held == kept_total(mt@, nodes@, label, ids@, i as nat),
                        before + edge_list.len() <= edge_total(mt@, ids@, ids@.len()),
                        examined == saturated((before + j) as nat),
                        examined <= max_examined_edges,
                        kept == saturated(held + kept_edges(mt@, nodes@, label, source, j as nat)),
                    decreases edges@.len() - j,
                {
                    assert(edges@[j as int]@ == edge_list[j as int]);
                    examined = examined.saturating_add(1);
                    if examined > max_examined_edges {
                        return None;
                    }
                    if nodes.contains(&edges[j].target_id) && edge_allowed(
                        &edges[j],
                        label_filter,
                    ) {
                        kept = kept.saturating_add(1);
                    }
                    j += 1;
                }
            },
        }
        i += 1;
    }
    Some((examined, kept))
}

/// More nodes have at least as many edges.
proof fn lemma_edge_total_grows<T: VectorType>(
    table: Table<T>,
    ids: Seq<NodeId>,
    few: nat,
    many: nat,
)
    requires
        few <= many,
    ensures
        edge_total(table, ids, few) <= edge_total(table, ids, many),
    decreases many,
{
    if few < many {
        lemma_edge_total_grows(table, ids, few, (many - 1) as nat);
    }
}

/// The successors of every node.
fn build_directed<T: VectorType>(
    mt: &MemTable<T>,
    nodes: &BTreeSet<NodeId>,
    ids: &Vec<NodeId>,
    label_filter: Option<&str>,
) -> (directed: BTreeMap<NodeId, Vec<NodeId>>)
    requires
        increasing(ids@),
        ids@.to_set() == nodes@,
    ensures
        directed@.dom() == nodes@,
        forall|id: NodeId| #[trigger] nodes@.contains(id) ==> increasing(directed@[id]@),
        forall|from: NodeId, to: NodeId|
            nodes@.contains(from) ==> (#[trigger] directed@[from]@.contains(to) <==> keeps(
                mt@,
                nodes@,
                label_view(label_filter),
                from,
                to,
            )),
{
    let ghost label = label_view(label_filter);
    let mut directed: BTreeMap<NodeId, Vec<NodeId>> = BTreeMap::new();
    let mut i: usize = 0;
    assert(ids@.subrange(0, 0).to_set() =~= Set::<NodeId>::empty());
    while i < ids.len()
        invariant
            i <= ids@.len(),
            label == label_view(label_filter),
            ids@.to_set() == nodes@,
            directed@.dom() == ids@.subrange(0, i as int).to_set(),
            forall|id: NodeId| #[trigger]
                directed@.contains_key(id) ==> increasing(directed@[id]@),
            forall|from: NodeId, to: NodeId|
                directed@.contains_key(from) ==> (#[trigger] directed@[from]@.contains(to)
                    <==> keeps(mt@, nodes@, label, from, to)),
        decreases ids@.len() - i,
    {
        let id: NodeId = ids[i];
        assert(ids@.to_set().contains(id)) by {
            assert(ids@.contains(id));
        }
        let targets = kept_targets(mt, nodes, label_filter, id);
        directed.insert(id, targets);
        proof {
            let few = ids@.subrange(0, i as int);
            assert(ids@.subrange(0, i + 1) =~= few.push(id));
            crate::collections::lemma_to_set_push(few, id);
        }
        i += 1;
    }
    assert(ids@.subrange(0, i as int) =~= ids@);
    directed
}

/// An empty list for every node.
fn empty_lists(ids: &Vec<NodeId>) -> (lists: BTreeMap<NodeId, Vec<NodeId>>)
    ensures
        lists@.dom() == ids@.to_set(),
        forall|id: NodeId| #[trigger] lists@.contains_key(id) ==> lists@[id]@.len() == 0,
{
    let mut lists: BTreeMap<NodeId, Vec<NodeId>> = BTreeMap::new();
    let mut i: usize = 0;
    assert(ids@.subrange(0, 0).to_set() =~= Set::<NodeId>::empty());
    while i < ids.len()
        invariant
            i <= ids@.len(),
            lists@.dom() == ids@.subrange(0, i as int).to_set(),
            forall|id: NodeId| #[trigger] lists@.contains_key(id) ==> lists@[id]@.len() == 0,
        decreases ids@.len() - i,
    {
        lists.insert(ids[i], Vec::new());
        proof {
            let few = ids@.subrange(0, i as int);
            assert(ids@.subrange(0, i + 1) =~= few.push(ids@[i as int]));
            crate::collections::lemma_to_set_push(few, ids@[i as int]);
        }
        i += 1;
    }
    assert(ids@.subrange(0, i as int) =~= ids@);
    lists
}

/// Whether an edge has been entered in the lists of predecessors: all edges of the first `done`
/// nodes and the first `part` edges of the next.
spec fn entered(
    directed: Map<NodeId, Vec<NodeId>>,
    ids: Seq<NodeId>,
    done: int,
    part: int,
    from: NodeId,
    to: NodeId,
) -> bool {
    ||| exists|k: int| 0 <= k < done && (#[trigger] ids[k]) == from && directed[from]@.contains(to)
    ||| done < ids.len() && ids[done] == from && exists|n: int|
        0 <= n < part && (#[trigger] directed[from]@[n]) == to
}

/// The predecessors of every node.
pub(crate) fn build_reverse(
    ids: &Vec<NodeId>,
    directed: &BTreeMap<NodeId, Vec<NodeId>>,
) -> (reverse: BTreeMap<NodeId, Vec<NodeId>>)
    requires
        increasing(ids@),
        directed@.dom() == ids@.to_set(),
        forall|id: NodeId| #[trigger] directed@.contains_key(id) ==> increasing(directed@[id]@),
        forall|from: NodeId, to: NodeId|
            directed@.contains_key(from) && #[trigger] directed@[from]@.contains(to)
                ==> directed@.contains_key(to),
    ensures
        reverse@.dom() == directed@.dom(),
        forall|to: NodeId| #[trigger] reverse@.contains_key(to) ==> increasing(reverse@[to]@),
        forall|from: NodeId, to: NodeId|
            reverse@.contains_key(to) ==> (#[trigger] reverse@[to]@.contains(from) <==> (
            directed@.contains_key(from) && directed@[from]@.contains(to))),
{
    let mut reverse = empty_lists(ids);
    let mut i: usize = 0;
    while i < ids.len()
        invariant
            i <= ids@.len(),
            increasing(ids@),
            directed@.dom() == ids@.to_set(),
            forall|id: NodeId| #[trigger]
                directed@.contains_key(id) ==> increasing(directed@[id]@),
            forall|from: NodeId, to: NodeId|
                directed@.contains_key(from) && #[trigger] directed@[from]@.contains(to)
                    ==> directed@.contains_key(to),
            reverse@.dom() == directed@.dom(),
            forall|to: NodeId| #[trigger] reverse@.contains_key(to) ==> increasing(reverse@[to]@),
            forall|from: NodeId, to: NodeId|
                reverse@.contains_key(to) ==> (#[trigger] reverse@[to]@.contains(from)
                    <==> entered(directed@, ids@, i as int, 0, from, to)),
        decreases ids@.len() - i,
    {
        let source: NodeId = ids[i];
        proof {
            assert(ids@.contains(source));
            assert(ids@.to_set().contains(source));
            assert(directed@.contains_key(source));
        }
        let targets = directed.get(&source).unwrap();
        let mut j: usize = 0;
        while j < targets.len()
            invariant
                j <= targets@.len(),
                i < ids@.len(),
                source == ids@[i as int],
                increasing(ids@),
                directed@.contains_key(source),
                *targets == directed@[source],
                increasing(targets@),
                forall|from: NodeId, to: NodeId|
                    directed@.contains_key(from) && #[trigger] directed@[from]@.contains(to)
                        ==> directed@.contains_key(to),
                reverse@.dom() == directed@.dom(),
                forall|to: NodeId| #[trigger]
                    reverse@.contains_key(to) ==> increasing(reverse@[to]@),
                forall|from: NodeId, to: NodeId|
                    reverse@.contains_key(to) ==> (#[trigger] reverse@[to]@.contains(from)
                        <==> entered(directed@, ids@, i as int, j as int, from, to)),
            decreases targets@.len() - j,
        {
            let target: NodeId = targets[j];
            let ghost before = reverse@;
            proof {
                assert(directed@[source]@.contains(target)) by {
                    assert(targets@[j as int] == target);
                }
                assert(reverse@.contains_key(target));
            }
            let mut sources = reverse.remove(&target).unwrap();
            let ghost held = sources@;
            proof {
                assert forall|n: int| 0 <= n < held.len() implies (#[trigger] held[n]) < source by {
                    assert(before[target]@.contains(held[n]));
                    assert(entered(directed@, ids@, i as int, j as int, held[n], target));
                    if exists|k: int|
                        0 <= k < i && (#[trigger] ids@[k]) == held[n]
                            && directed@[held[n]]@.contains(target) {
                        let k = choose|k: int|
                            0 <= k < i && (#[trigger] ids@[k]) == held[n]
                                && directed@[held[n]]@.contains(target);
                        assert(ids@[k] < ids@[i as int]);
                    } else {
                        let m = choose|m: int|
                            0 <= m < j && (#[trigger] directed@[held[n]]@[m]) == target;
                        assert(targets@[m] < targets@[j as int]);
                    }
                }
            }
            sources.push(source);
            reverse.insert(target, sources);
            proof {
                assert(reverse@.dom() =~= directed@.dom());
                assert forall|from: NodeId, to: NodeId|
                    reverse@.contains_key(to) implies (#[trigger] reverse@[to]@.contains(from)
                    <==> entered(directed@, ids@, i as int, j + 1, from, to)) by {
                    if to == target {
                        lemma_contains_push(held, source, from);
                    }
                    assert(before[to]@.contains(from) <==> entered(
                        directed@,
                        ids@,
                        i as int,
                        j as int,
                        from,
                        to,
                    ));
                    if from == source && to == target {
                        assert(directed@[from]@[j as int] == to);
                    }
                    if ids@[i as int] == from && exists|n: int|
                        0 <= n < j && (#[trigger] directed@[from]@[n]) == to {
                        let n = choose|n: int| 0 <= n < j && (#[trigger] directed@[from]@[n]) == to;
                        assert(directed@[from]@[n] == to);
                    }
                    if ids@[i as int] == from && exists|n: int|
                        0 <= n < j + 1 && (#[trigger] directed@[from]@[n]) == to {
                        let n = choose|n: int|
                            0 <= n < j + 1 && (#[trigger] directed@[from]@[n]) == to;
                        if n < j {
                            assert(directed@[from]@[n] == to);
                        }
                    }
                }
            }
            j += 1;
        }
        proof {
            assert forall|from: NodeId, to: NodeId| reverse@.contains_key(to) implies (
            #[trigger] reverse@[to]@.contains(from) <==> entered(
                directed@,
                ids@,
                i + 1,
                0,
                from,
                to,
            )) by {
                assert(reverse@[to]@.contains(from) <==> entered(
                    directed@,
                    ids@,
                    i as int,
                    j as int,
                    from,
                    to,
                ));
                if exists|k: int|
                    0 <= k < i && (#[trigger] ids@[k]) == from && directed@[from]@.contains(to) {
                    let k = choose|k: int|
                        0 <= k < i && (#[trigger] ids@[k]) == from && directed@[from]@.contains(to);
                    assert(ids@[k] == from);
                }
                if ids@[i as int] == from {
                    if exists|n: int| 0 <= n < j && (#[trigger] directed@[from]@[n]) == to {
                        let n = choose|n: int| 0 <= n < j && (#[trigger] directed@[from]@[n]) == to;
                        assert(directed@[from]@.contains(to));
                        assert(ids@[i as int] == from);
                    }
                    if directed@[from]@.contains(to) {
                        let n = choose|n: int|
                            0 <= n < directed@[from]@.len() && directed@[from]@[n] == to;
                        assert(0 <= n < j);
                        assert(directed@[from]@[n] == to);
                    }
                }
                if exists|k: int|
                    0 <= k < i + 1 && (#[trigger] ids@[k]) == from && directed@[from]@.contains(
                        to,
                    ) {
                    let k = choose|k: int|
                        0 <= k < i + 1 && (#[trigger] ids@[k]) == from && directed@[from]@.contains(
                            to,
                        );
                    if k < i {
                        assert(ids@[k] == from);
                    }
                }
            }
        }
        i += 1;
    }
    proof {
        assert forall|from: NodeId, to: NodeId| reverse@.contains_key(to) implies (
        #[trigger] reverse@[to]@.contains(from) <==> (directed@.contains_key(from)
            && directed@[from]@.contains(to))) by {
            assert(reverse@[to]@.contains(from) <==> entered(directed@, ids@, i as int, 0, from, to));
            if directed@.contains_key(from) && directed@[from]@.contains(to) {
                assert(ids@.to_set().contains(from));
                let k = choose|k: int| 0 <= k < ids@.len() && ids@[k] == from;
                assert(ids@[k] == from);
            }
            if entered(directed@, ids@, i as int, 0, from, to) {
                let k = choose|k: int|
                    0 <= k < i && (#[trigger] ids@[k]) == from && directed@[from]@.contains(to);
                assert(ids@.to_set().contains(ids@[k])) by {
                    assert(ids@.contains(ids@[k]));
                }
            }
        }
    }
    reverse
}

/// The neighbours of a node in either direction, without the node itself.
fn merge_neighbors(successors: &Vec<NodeId>, predecessors: &Vec<NodeId>, id: NodeId) -> (merged:
    Vec<NodeId>)
    ensures
        lists(
            merged@,
            |other: NodeId|
                other != id && (successors@.contains(other) || predecessors@.contains(other)),
        ),
{
    let mut found: Vec<NodeId> = Vec::new();
    let mut i: usize = 0;
    while i < successors.len()
        invariant
            i <= successors@.len(),
            forall|other: NodeId| #[trigger]
                found@.contains(other) <==> other != id && successors@.subrange(
                    0,
                    i as int,
                ).contains(other),
        decreases successors@.len() - i,
    {
        let ghost before = found@;
        let ghost few = successors@.subrange(0, i as int);
        let next: NodeId = successors[i];
        if next != id {
            found.push(next);
        }
        proof {
            assert(successors@.subrange(0, i + 1) =~= few.push(next));
            assert forall|other: NodeId| #[trigger] found@.contains(other) <==> other != id
                && successors@.subrange(0, i + 1).contains(other) by {
                lemma_contains_push(before, next, other);
                lemma_contains_push(few, next, other);
                assert(before.contains(other) <==> other != id && few.contains(other));
            }
        }
        i += 1;
    }
    assert(successors@.subrange(0, i as int) =~= successors@);
    let mut j: usize = 0;
    while j < predecessors.len()
        invariant
            j <= predecessors@.len(),
            forall|other: NodeId| #[trigger]
                found@.contains(other) <==> other != id && (successors@.contains(other)
                    || predecessors@.subrange(0, j as int).contains(other)),
        decreases predecessors@.len() - j,
    {
        let ghost before = found@;
        let ghost few = predecessors@.subrange(0, j as int);
        let next: NodeId = predecessors[j];
        if next != id {
            found.push(next);
        }
        proof {
            assert(predecessors@.subrange(0, j + 1) =~= few.push(next));
            assert forall|other: NodeId| #[trigger] found@.contains(other) <==> other != id && (
            successors@.contains(other) || predecessors@.subrange(0, j + 1).contains(other)) by {
                lemma_contains_push(before, next, other);
                lemma_contains_push(few, next, other);
                assert(before.contains(other) <==> other != id && (successors@.contains(other)
                    || few.contains(other)));
            }
        }
        j += 1;
    }
    assert(predecessors@.subrange(0, j as int) =~= predecessors@);
    sort_dedup(&found)
}

/// Builds the subgraph induced by `nodes` and the label. Its size is checked against both bounds
/// before any list is built.
pub fn build_workspace<T: VectorType>(
    mt: &MemTable<T>,
    nodes: &BTreeSet<NodeId>,
    label_filter: Option<&str>,
    max_examined_edges: usize,
    max_bytes: usize,
) -> (result: Result<GraphWorkspace>)
    ensures
        exists|ids: Seq<NodeId>|
            {
                let fault = workspace_fault(
                    nodes@.len(),
                    #[trigger] edge_total(mt@, ids, ids.len()),
                    kept_total(mt@, nodes@, label_view(label_filter), ids, ids.len()),
                    max_examined_edges as nat,
                    max_bytes as nat,
                );
                &&& increasing(ids)
                &&& ids.to_set() == nodes@
                &&& match result {
                    Ok(workspace) => {
                        &&& fault is None
                        &&& is_workspace(mt@, nodes@, label_view(label_filter), workspace)
                        &&& workspace.examined_edges == saturated(edge_total(mt@, ids, ids.len()))
                    },
                    Err(error) => fault matches Some(message) && is_query_execution(error, message),
                }
            },
{
    let ghost label = label_view(label_filter);
    let ids = set_elements(nodes);
    proof {
        lemma_increasing_distinct(ids@);
        ids@.unique_seq_to_set();
        assert(edge_total(mt@, ids@, ids@.len()) >= 0);
    }
    let base_bytes: usize = match ids.len().checked_mul(80) {
        Some(bytes) => bytes,
        None => {
            return Err(query_execution("图算法工作区大小溢出"));
        },
    };
    if base_bytes > max_bytes {
        return Err(
            query_execution(
                "图算法工作区超过临时内存预算 (Graph workspace exceeds temporary memory budget)",
            ),
        );
    }
    let (examined_edges, kept) = match count_edges(
        mt,
        nodes,
        &ids,
        label_filter,
        max_examined_edges,
    ) {
        Some(counts) => counts,
        None => {
            return Err(
                query_execution(
                    "图算法超过边访问预算 (Graph algorithm exceeds edge examination budget)",
                ),
            );
        },
    };
    let edge_bytes: usize = match kept.checked_mul(48) {
        Some(bytes) => bytes,
        None => {
            return Err(query_execution("图算法邻接工作区大小溢出"));
        },
    };
    if base_bytes.saturating_add(edge_bytes) > max_bytes {
        return Err(
            query_execution(
                "图算法邻接表超过临时内存预算 (Graph adjacency exceeds temporary memory budget)",
            ),
        );
    }
    let directed = build_directed(mt, nodes, &ids, label_filter);
    let workspace = assemble(mt, nodes, &ids, label_filter, directed, examined_edges);
    assert(edge_total(mt@, ids@, ids@.len()) >= 0);
    Ok(workspace)
}

/// The lists of the subgraph, given the successors of every node.
fn assemble<T: VectorType>(
    mt: &MemTable<T>,
    nodes: &BTreeSet<NodeId>,
    ids: &Vec<NodeId>,
    label_filter: Option<&str>,
    directed: BTreeMap<NodeId, Vec<NodeId>>,
    examined_edges: usize,
) -> (workspace: GraphWorkspace)
    requires
        increasing(ids@),
        ids@.to_set() == nodes@,
        directed@.dom() == nodes@,
        forall|id: NodeId| #[trigger] nodes@.contains(id) ==> increasing(directed@[id]@),
        forall|from: NodeId, to: NodeId|
            nodes@.contains(from) ==> (#[trigger] directed@[from]@.contains(to) <==> keeps(
                mt@,
                nodes@,
                label_view(label_filter),
                from,
                to,
            )),
    ensures
        is_workspace(mt@, nodes@, label_view(label_filter), workspace),
        workspace.examined_edges == examined_edges,
{
    let ghost label = label_view(label_filter);
    let reverse = build_reverse(ids, &directed);
    let mut undirected: BTreeMap<NodeId, Vec<NodeId>> = BTreeMap::new();
    let mut weighted: BTreeMap<NodeId, Vec<(NodeId, u32)>> = BTreeMap::new();
    let mut i: usize = 0;
    assert(ids@.subrange(0, 0).to_set() =~= Set::<NodeId>::empty());
    while i < ids.len()
        invariant
            i <= ids@.len(),
            label == label_view(label_filter),
            ids@.to_set() == nodes@,
            directed@.dom() == nodes@,
            reverse@.dom() == nodes@,
            forall|from: NodeId, to: NodeId|
                nodes@.contains(from) ==> (#[trigger] directed@[from]@.contains(to) <==> keeps(
                    mt@,
                    nodes@,
                    label,
                    from,
                    to,
                )),
            undirected@.dom() == ids@.subrange(0, i as int).to_set(),
            weighted@.dom() == ids@.subrange(0, i as int).to_set(),
            forall|id: NodeId| #[trigger]
                undirected@.contains_key(id) ==> lists(
                    undirected@[id]@,
                    |other: NodeId|
                        other != id && (directed@[id]@.contains(other) || reverse@[id]@.contains(
                            other,
                        )),
                ),
            forall|id: NodeId| #[trigger]
                weighted@.contains_key(id) ==> names(weighted@[id]@, directed@[id]@),
            forall|from: NodeId, n: int|
                weighted@.contains_key(from) && 0 <= n < weighted@[from]@.len() ==> is_least_weight(
                    mt@,
                    label,
                    from,
                    (#[trigger] weighted@[from]@[n]).0,
                    weighted@[from]@[n].1,
                ),
        decreases ids@.len() - i,
    {
        let id: NodeId = ids[i];
        proof {
            assert(ids@.contains(id));
            assert(ids@.to_set().contains(id));
        }
        let successors = directed.get(&id).unwrap();
        let predecessors = reverse.get(&id).unwrap();
        undirected.insert(id, merge_neighbors(successors, predecessors, id));
        let mut weights: Vec<(NodeId, u32)> = Vec::new();
        let mut j: usize = 0;
        while j < successors.len()
            invariant
                j <= successors@.len(),
                label == label_view(label_filter),
                nodes@.contains(id),
                *successors == directed@[id],
                forall|from: NodeId, to: NodeId|
                    nodes@.contains(from) ==> (#[trigger] directed@[from]@.contains(to) <==> keeps(
                        mt@,
                        nodes@,
                        label,
                        from,
                        to,
                    )),
                weights@.len() == j,
                forall|n: int|
                    0 <= n < j ==> (#[trigger] weights@[n]).0 == successors@[n] && is_least_weight(
                        mt@,
                        label,
                        id,
                        weights@[n].0,
                        weights@[n].1,
                    ),
            decreases successors@.len() - j,
        {
            let target: NodeId = successors[j];
            assert(directed@[id]@.contains(target)) by {
                assert(successors@[j as int] == target);
            }
            weights.push((target, least_weight(mt, label_filter, id, target)));
            j += 1;
        }
        weighted.insert(id, weights);
        proof {
            let few = ids@.subrange(0, i as int);
            assert(ids@.subrange(0, i + 1) =~= few.push(id));
            crate::collections::lemma_to_set_push(few, id);
        }
        i += 1;
    }
    let workspace = GraphWorkspace { directed, reverse, undirected, weighted, examined_edges };
    proof {
        assert(ids@.subrange(0, i as int) =~= ids@);
        assert forall|from: NodeId, to: NodeId| #[trigger] workspace.has(from, to) <==> keeps(
            mt@,
            nodes@,
            label,
            from,
            to,
        ) by {
            if nodes@.contains(from) {
                assert(directed@[from]@.contains(to) <==> keeps(mt@, nodes@, label, from, to));
            }
        }
        assert forall|id: NodeId| #[trigger] workspace.nodes().contains(id) implies {
            &&& increasing(workspace.directed@[id]@)
            &&& lists(workspace.reverse@[id]@, |from: NodeId| workspace.has(from, id))
            &&& lists(workspace.undirected@[id]@, |other: NodeId| workspace.joined(id, other))
            &&& names(workspace.weighted@[id]@, workspace.directed@[id]@)
        } by {
            assert(nodes@.contains(id));
            assert(reverse@.contains_key(id));
            assert(undirected@.contains_key(id));
            assert(weighted@.contains_key(id));
            assert forall|from: NodeId| #[trigger] workspace.reverse@[id]@.contains(from)
                <==> workspace.has(from, id) by {}
            assert forall|other: NodeId| #[trigger] workspace.undirected@[id]@.contains(other)
                <==> workspace.joined(id, other) by {
                assert(reverse@[id]@.contains(other) <==> workspace.has(other, id));
                assert(directed@[id]@.contains(other) <==> workspace.has(id, other));
            }
        }
    }
    workspace
}

/// What a scan of the edges of some nodes comes to: the subgraph, or nothing where the nodes have
/// more edges than are allowed.
pub open spec fn is_scan<T: VectorType>(
    table: Table<T>,
    nodes: Set<NodeId>,
    label: Option<Seq<char>>,
    max_examined_edges: usize,
    edges: nat,
    result: Option<GraphWorkspace>,
) -> bool {
    match result {
        Some(workspace) => {
            &&& saturated(edges) <= max_examined_edges
            &&& is_workspace(table, nodes, label, workspace)
            &&& workspace.examined_edges == saturated(edges)
        },
        None => saturated(edges) > max_examined_edges,
    }
}

/// Whether `edges` is the number of edges of some nodes, to whatever targets.
pub open spec fn is_edge_count<T: VectorType>(
    table: Table<T>,
    nodes: Set<NodeId>,
    edges: nat,
) -> bool {
    exists|ids: Seq<NodeId>|
        increasing(ids) && ids.to_set() == nodes && edges == #[trigger] edge_total(
            table,
            ids,
            ids.len(),
        )
}

/// Scans the edges of some nodes, unless there are more than are allowed.
pub fn scan_subgraph<T: VectorType>(
    mt: &MemTable<T>,
    nodes: &BTreeSet<NodeId>,
    label_filter: Option<&str>,
    max_examined_edges: usize,
) -> (result: Option<GraphWorkspace>)
    ensures
        exists|edges: nat| #[trigger]
            is_edge_count(mt@, nodes@, edges) && is_scan(
                mt@,
                nodes@,
                label_view(label_filter),
                max_examined_edges,
                edges,
                result,
            ),
{
    let ids = set_elements(nodes);
    assert(is_edge_count(mt@, nodes@, edge_total(mt@, ids@, ids@.len())));
    match count_edges(mt, nodes, &ids, label_filter, max_examined_edges) {
        Some((examined_edges, _)) => {
            let directed = build_directed(mt, nodes, &ids, label_filter);
            Some(assemble(mt, nodes, &ids, label_filter, directed, examined_edges))
        },
        None => None,
    }
}

/// What looking at the edges of one node gives: its successors within the subgraph, in ascending
/// order, and the number of its edges, to whatever targets.
#[derive(Debug)]
pub struct NodeScan {
    pub targets: Vec<NodeId>,
    pub edges: usize,
}

/// Whether `scan` is what looking at the edges of one of the nodes gives.
pub open spec fn is_node_scan<T: VectorType>(
    table: Table<T>,
    nodes: Set<NodeId>,
    label: Option<Seq<char>>,
    id: NodeId,
    scan: NodeScan,
) -> bool {
    &&& increasing(scan.targets@)
    &&& forall|to: NodeId| #[trigger]
        scan.targets@.contains(to) <==> keeps(table, nodes, label, id, to)
    &&& scan.edges == table.edges_of(id).len()
}

/// Whether `scans` are what looking at the edges of each of some nodes gives, in their order.
pub open spec fn are_node_scans<T: VectorType>(
    table: Table<T>,
    nodes: Set<NodeId>,
    label: Option<Seq<char>>,
    ids: Seq<NodeId>,
    scans: Seq<NodeScan>,
) -> bool {
    &&& scans.len() == ids.len()
    &&& forall|i: int|
        0 <= i < ids.len() ==> is_node_scan(table, nodes, label, ids[i], #[trigger] scans[i])
}

/// Whether a function looks at the edges of every node that it is handed.
pub open spec fn scans_nodes<T: VectorType, S: Fn(&Vec<NodeId>) -> Vec<NodeScan>>(
    table: Table<T>,
    nodes: Set<NodeId>,
    label: Option<Seq<char>>,
    scan_all: S,
) -> bool {
    &&& forall|ids: &Vec<NodeId>| ids@.to_set() == nodes ==> call_requires(scan_all, (ids,))
    &&& forall|ids: &Vec<NodeId>, scans: Vec<NodeScan>|
        ids@.to_set() == nodes && call_ensures(scan_all, (ids,), scans) ==> are_node_scans(
            table,
            nodes,
            label,
            ids@,
            scans@,
        )
}

/// Looks at the edges of one of the nodes.
pub fn scan_node<T: VectorType>(
    mt: &MemTable<T>,
    nodes: &BTreeSet<NodeId>,
    label_filter: Option<&str>,
    source: NodeId,
) -> (scan: NodeScan)
    requires
        nodes@.contains(source),
    ensures
        is_node_scan(mt@, nodes@, label_view(label_filter), source, scan),
{
    let targets = kept_targets(mt, nodes, label_filter, source);
    let edges: usize = match mt.get_edges(source) {
        Some(edges) => edges.len(),
        None => 0,
    };
    NodeScan { targets, edges }
}

/// Scans the edges of some nodes as [`scan_subgraph`] does, where `scan_all` looks at the edges of
/// all the nodes, in whatever order or at the same time.
pub fn scan_subgraph_parallel<T: VectorType, S: Fn(&Vec<NodeId>) -> Vec<NodeScan>>(
    mt: &MemTable<T>,
    nodes: &BTreeSet<NodeId>,
    label_filter: Option<&str>,
    max_examined_edges: usize,
    scan_all: S,
) -> (result: Option<GraphWorkspace>)
    requires
        scans_nodes(mt@, nodes@, label_view(label_filter), scan_all),
    ensures
        exists|edges: nat| #[trigger]
            is_edge_count(mt@, nodes@, edges) && is_scan(
                mt@,
                nodes@,
                label_view(label_filter),
                max_examined_edges,
                edges,
                result,
            ),
{
    let ghost label = label_view(label_filter);
    let ids = set_elements(nodes);
    assert(is_edge_count(mt@, nodes@, edge_total(mt@, ids@, ids@.len())));
    let scans = scan_all(&ids);
    let mut examined_edges: usize = 0;
    let mut directed: BTreeMap<NodeId, Vec<NodeId>> = BTreeMap::new();
    let mut i: usize = 0;
    assert(ids@.subrange(0, 0).to_set() =~= Set::<NodeId>::empty());
    while i < ids.len()
        invariant
            i <= ids@.len(),
            label == label_view(label_filter),
            ids@.to_set() == nodes@,
            are_node_scans(mt@, nodes@, label, ids@, scans@),
            examined_edges == saturated(edge_total(mt@, ids@, i as nat)),
            directed@.dom() == ids@.subrange(0, i as int).to_set(),
            forall|id: NodeId| #[trigger]
                directed@.contains_key(id) ==> increasing(directed@[id]@),
            forall|from: NodeId, to: NodeId|
                directed@.contains_key(from) ==> (#[trigger] directed@[from]@.contains(to)
                    <==> keeps(mt@, nodes@, label, from, to)),
        decreases ids@.len() - i,
    {
        let id: NodeId = ids[i];
        let scan: &NodeScan = &scans[i];
        assert(is_node_scan(mt@, nodes@, label, id, scans@[i as int]));
        examined_edges = examined_edges.saturating_add(scan.edges);
        directed.insert(id, copy_slice(&scan.targets));
        proof {
            let few = ids@.subrange(0, i as int);
            assert(ids@.subrange(0, i + 1) =~= few.push(id));
            crate::collections::lemma_to_set_push(few, id);
        }
        i += 1;
    }
    assert(ids@.subrange(0, i as int) =~= ids@);
    if examined_edges > max_examined_edges {
        None
    } else {
        Some(assemble(mt, nodes, &ids, label_filter, directed, examined_edges))
    }
}

/// Whether two subgraphs have the same nodes and the same lists.
pub open spec fn same_lists(a: &GraphWorkspace, b: &GraphWorkspace) -> bool {
    &&& a.nodes() == b.nodes()
    &&& a.examined_edges == b.examined_edges
    &&& forall|id: NodeId| #[trigger]
        a.nodes().contains(id) ==> {
            &&& a.directed@[id]@ == b.directed@[id]@
            &&& a.reverse@[id]@ == b.reverse@[id]@
            &&& a.undirected@[id]@ == b.undirected@[id]@
            &&& a.weighted@[id]@ == b.weighted@[id]@
        }
}

/// Lists of the same nodes are the same.
proof fn lemma_lists_agree(
    a: Seq<NodeId>,
    b: Seq<NodeId>,
    wanted: spec_fn(NodeId) -> bool,
    other: spec_fn(NodeId) -> bool,
)
    requires
        lists(a, wanted),
        lists(b, other),
        forall|id: NodeId| #[trigger] wanted(id) <==> other(id),
    ensures
        a == b,
{
    assert(a.to_set() =~= b.to_set()) by {
        assert forall|id: NodeId| a.to_set().contains(id) <==> b.to_set().contains(id) by {
            assert(a.contains(id) <==> wanted(id));
            assert(b.contains(id) <==> other(id));
        }
    }
    crate::collections::lemma_increasing_unique(a, b);
}

/// Nodes have one number of edges, and one subgraph: two scans of them agree, however the edges
/// were looked at.
pub proof fn law_scans_agree<T: VectorType>(
    table: Table<T>,
    nodes: Set<NodeId>,
    label: Option<Seq<char>>,
    max_examined_edges: usize,
    edges: nat,
    scan: Option<GraphWorkspace>,
    other_edges: nat,
    other_scan: Option<GraphWorkspace>,
)
    requires
        is_edge_count(table, nodes, edges),
        is_scan(table, nodes, label, max_examined_edges, edges, scan),
        is_edge_count(table, nodes, other_edges),
        is_scan(table, nodes, label, max_examined_edges, other_edges, other_scan),
    ensures
        edges == other_edges,
        match (scan, other_scan) {
            (Some(a), Some(b)) => same_lists(&a, &b),
            (None, None) => true,
            _ => false,
        },
{
    let ids = choose|ids: Seq<NodeId>|
        increasing(ids) && ids.to_set() == nodes && edges == #[trigger] edge_total(
            table,
            ids,
            ids.len(),
        );
    let more = choose|ids: Seq<NodeId>|
        increasing(ids) && ids.to_set() == nodes && other_edges == #[trigger] edge_total(
            table,
            ids,
            ids.len(),
        );
    crate::collections::lemma_increasing_unique(ids, more);
    if let (Some(a), Some(b)) = (scan, other_scan) {
        assert forall|from: NodeId, to: NodeId| #[trigger] a.has(from, to) <==> b.has(
            from,
            to,
        ) by {
            assert(a.has(from, to) <==> keeps(table, nodes, label, from, to));
            assert(b.has(from, to) <==> keeps(table, nodes, label, from, to));
        }
        assert forall|id: NodeId| #[trigger] a.nodes().contains(id) implies {
            &&& a.directed@[id]@ == b.directed@[id]@
            &&& a.reverse@[id]@ == b.reverse@[id]@
            &&& a.undirected@[id]@ == b.undirected@[id]@
            &&& a.weighted@[id]@ == b.weighted@[id]@
        } by {
            assert(b.nodes().contains(id));
            let to_a = |to: NodeId| a.has(id, to);
            let to_b = |to: NodeId| b.has(id, to);
            assert forall|to: NodeId| #[trigger] to_a(to) <==> to_b(to) by {
                assert(a.has(id, to) <==> b.has(id, to));
            }
            assert(lists(a.directed@[id]@, to_a));
            assert(lists(b.directed@[id]@, to_b));
            lemma_lists_agree(a.directed@[id]@, b.directed@[id]@, to_a, to_b);
            let from_a = |from: NodeId| a.has(from, id);
            let from_b = |from: NodeId| b.has(from, id);
            assert forall|from: NodeId| #[trigger] from_a(from) <==> from_b(from) by {
                assert(a.has(from, id) <==> b.has(from, id));
            }
            lemma_lists_agree(a.reverse@[id]@, b.reverse@[id]@, from_a, from_b);
            let near_a = |other: NodeId| a.joined(id, other);
            let near_b = |other: NodeId| b.joined(id, other);
            assert forall|other: NodeId| #[trigger] near_a(other) <==> near_b(other) by {
                assert(a.has(id, other) <==> b.has(id, other));
                assert(a.has(other, id) <==> b.has(other, id));
            }
            lemma_lists_agree(a.undirected@[id]@, b.undirected@[id]@, near_a, near_b);
            let one = a.weighted@[id]@;
            let two = b.weighted@[id]@;
            assert forall|i: int| 0 <= i < one.len() implies one[i] == two[i] by {
                assert(one[i].0 == a.directed@[id]@[i]);
                assert(two[i].0 == b.directed@[id]@[i]);
                assert(is_least_weight(table, label, id, one[i].0, one[i].1));
                assert(is_least_weight(table, label, id, two[i].0, two[i].1));
                assert(has_edge_weight(table, label, id, one[i].0, one[i].1));
                assert(has_edge_weight(table, label, id, two[i].0, two[i].1));
            }
            assert(one =~= two);
        }
    }
}

} // verus!
