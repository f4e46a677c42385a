//! The node table: vectors, payloads and edges under one identifier.
use std::collections::BTreeMap;
use vstd::prelude::*;

use crate::collections::{increasing, map_keys};
use crate::error::{Result, TriviumError};
use crate::node::{
    edge_views, Edge, EdgeView, IncomingEdge, IncomingView, NodeId, Payload, PayloadView,
};
use crate::text::same_text;
use crate::vector::{all_finite, copy_slice, is_all_finite, VectorType};

verus! {

/// Everything stored under one identifier, as mathematical values.
pub struct NodeSpec<T> {
    pub vector: Seq<T>,
    pub payload: PayloadView,
    pub edges: Seq<EdgeView>,
}

/// The node table as mathematical values.
pub struct Table<T> {
    pub dim: nat,
    pub next_id: nat,
    pub nodes: Map<NodeId, NodeSpec<T>>,
}

/// The position of the edge to `target` with this label, or `edges.len()`.
pub open spec fn edge_position(edges: Seq<EdgeView>, target: NodeId, label: Seq<char>) -> int
    decreases edges.len(),
{
    if edges.len() == 0 {
        0
    } else if edges[0].target == target && edges[0].label == label {
        0
    } else {
        1 + edge_position(edges.drop_first(), target, label)
    }
}

/// `edges` with the edge to `edge.target` under `edge.label` set to `edge`: replaced where it
/// stands, or appended where there is none.
pub open spec fn upsert(edges: Seq<EdgeView>, edge: EdgeView) -> Seq<EdgeView> {
    let position = edge_position(edges, edge.target, edge.label);
    if position < edges.len() {
        edges.update(position, edge)
    } else {
        edges.push(edge)
    }
}

/// `edges` without those that lead to `target`, in the same order.
pub open spec fn without_target(edges: Seq<EdgeView>, target: NodeId) -> Seq<EdgeView> {
    edges.filter(|edge: EdgeView| edge.target != target)
}

/// `edges` without the one that leads to `target` under `label`, in the same order.
pub open spec fn without_label(edges: Seq<EdgeView>, target: NodeId, label: Seq<char>) -> Seq<
    EdgeView,
> {
    edges.filter(|edge: EdgeView| !(edge.target == target && edge.label == label))
}

/// Whether one of `edges` leads to `target`.
pub open spec fn leads_to(edges: Seq<EdgeView>, target: NodeId) -> bool {
    exists|i: int| 0 <= i < edges.len() && (#[trigger] edges[i]).target == target
}

/// Whether no two of `edges` have both the same target and the same label.
pub open spec fn distinct_edges(edges: Seq<EdgeView>) -> bool {
    forall|i: int, j: int|
        0 <= i < j < edges.len() ==> !((#[trigger] edges[i]).target == (#[trigger] edges[j]).target
            && edges[i].label == edges[j].label)
}

impl<T: VectorType> Table<T> {
    /// The edges of a node; none where there is no such node.
    pub open spec fn edges_of(self, id: NodeId) -> Seq<EdgeView> {
        if self.nodes.contains_key(id) {
            self.nodes[id].edges
        } else {
            Seq::empty()
        }
    }

    /// Whether `edge` is an edge to `id` that has the label, where one is given.
    pub open spec fn is_incoming(
        self,
        id: NodeId,
        label: Option<Seq<char>>,
        edge: IncomingView,
    ) -> bool {
        &&& self.nodes.contains_key(edge.source)
        &&& label matches Some(text) ==> edge.label == text
        &&& exists|m: int|
            0 <= m < self.nodes[edge.source].edges.len() && #[trigger] incoming_of(
                edge.source,
                self.nodes[edge.source].edges[m],
            ) == edge && self.nodes[edge.source].edges[m].target == id
    }

    /// The table with a new node, or with the node of that identifier replaced by one without
    /// edges. Identifiers handed out later are larger.
    pub open spec fn insert(self, id: NodeId, vector: Seq<T>, payload: PayloadView) -> Table<T> {
        Table {
            dim: self.dim,
            next_id: if self.next_id <= id { id as nat + 1 } else { self.next_id },
            nodes: self.nodes.insert(id, NodeSpec { vector, payload, edges: Seq::empty() }),
        }
    }

    /// The table with `edge` set on node `src`.
    pub open spec fn link(self, src: NodeId, edge: EdgeView) -> Table<T> {
        Table {
            nodes: self.nodes.insert(
                src,
                NodeSpec { edges: upsert(self.nodes[src].edges, edge), ..self.nodes[src] },
            ),
            ..self
        }
    }

    /// The table without any edge from `src` to `dst`.
    pub open spec fn unlink(self, src: NodeId, dst: NodeId) -> Table<T> {
        Table {
            nodes: self.nodes.insert(
                src,
                NodeSpec { edges: without_target(self.nodes[src].edges, dst), ..self.nodes[src] },
            ),
            ..self
        }
    }

    /// The table without the edge from `src` to `dst` under `label`.
    pub open spec fn unlink_label(self, src: NodeId, dst: NodeId, label: Seq<char>) -> Table<T> {
        Table {
            nodes: self.nodes.insert(
                src,
                NodeSpec {
                    edges: without_label(self.nodes[src].edges, dst, label),
                    ..self.nodes[src]
                },
            ),
            ..self
        }
    }

    /// The table without node `id` and without any edge that led to it.
    pub open spec fn delete(self, id: NodeId) -> Table<T> {
        Table {
            nodes: self.nodes.remove(id).map_values(
                |node: NodeSpec<T>|
                    NodeSpec { edges: without_target(node.edges, id), ..node },
            ),
            ..self
        }
    }

    /// The table with another payload for node `id`.
    pub open spec fn set_payload(self, id: NodeId, payload: PayloadView) -> Table<T> {
        Table { nodes: self.nodes.insert(id, NodeSpec { payload, ..self.nodes[id] }), ..self }
    }

    /// The table with another vector for node `id`.
    pub open spec fn set_vector(self, id: NodeId, vector: Seq<T>) -> Table<T> {
        Table { nodes: self.nodes.insert(id, NodeSpec { vector, ..self.nodes[id] }), ..self }
    }

    /// What every operation keeps: vectors have the table's dimension, an identifier is never
    /// handed out twice, every edge leads to a node of the table, and a node has at most one
    /// edge for each target and label.
    pub open spec fn well_formed(self) -> bool {
        &&& self.nodes.dom().finite()
        &&& forall|id: NodeId| #[trigger]
            self.nodes.contains_key(id) ==> {
                &&& self.nodes[id].vector.len() == self.dim
                &&& id < self.next_id
                &&& distinct_edges(self.nodes[id].edges)
            }
        &&& forall|id: NodeId, i: int|
            self.nodes.contains_key(id) && 0 <= i < self.nodes[id].edges.len()
                ==> self.nodes.contains_key((#[trigger] self.nodes[id].edges[i]).target)
    }
}

/// The text of an optional label.
pub open spec fn label_view(label: Option<&str>) -> Option<Seq<char>> {
    match label {
        Some(text) => Some(text@),
        None => None,
    }
}

/// Whether `edge` is one of `edges`.
pub open spec fn is_listed(edges: Seq<IncomingEdge>, edge: IncomingView) -> bool {
    exists|n: int| 0 <= n < edges.len() && (#[trigger] edges[n])@ == edge
}

/// An edge of `source` as its target sees it.
pub open spec fn incoming_of(source: NodeId, edge: EdgeView) -> IncomingView {
    IncomingView { source, label: edge.label, weight: edge.weight, metadata: edge.metadata }
}

/// Whether a vector may be stored in a table of this dimension.
pub open spec fn valid_vector<T: VectorType>(dim: nat, vector: Seq<T>) -> bool {
    vector.len() == dim && all_finite(vector)
}

/// Whether `error` says why `vector` may not be stored: a wrong length first, then a component
/// that is not finite.
pub open spec fn is_vector_fault<T: VectorType>(
    dim: nat,
    vector: Seq<T>,
    error: TriviumError,
) -> bool {
    if vector.len() != dim {
        error matches TriviumError::DimensionMismatch { expected, got } && expected == dim && got
            == vector.len()
    } else {
        error matches TriviumError::InvalidVector { reason } && reason@
            == "向量包含 NaN 或 Infinity (Vector contains NaN or Infinity)"@
    }
}

/// An edge without metadata.
pub open spec fn plain_edge(target: NodeId, label: Seq<char>, weight: u32) -> EdgeView {
    EdgeView { target, label, weight, metadata: "null"@ }
}

/// What is stored under one identifier.
#[derive(Debug)]
pub struct Record<T> {
    vector: Vec<T>,
    payload: Payload,
    edges: Vec<Edge>,
}

impl<T> Record<T> {
    /// The record as mathematical values.
    pub closed spec fn node(self) -> NodeSpec<T> {
        NodeSpec { vector: self.vector@, payload: self.payload@, edges: edge_views(self.edges@) }
    }
}

/// The node table. Besides the records it keeps, for each node, which nodes have an edge to it.
#[derive(Debug)]
pub struct MemTable<T: VectorType> {
    dim: usize,
    next_id: u64,
    records: BTreeMap<NodeId, Record<T>>,
    incoming: BTreeMap<NodeId, Vec<NodeId>>,
}

/// The records as mathematical values.
pub closed spec fn record_nodes<T>(records: Map<NodeId, Record<T>>) -> Map<NodeId, NodeSpec<T>> {
    records.map_values(|record: Record<T>| record.node())
}

/// Whether `incoming` lists, for each node, exactly the nodes with an edge to it, each once.
pub open spec fn indexes<T>(
    incoming: Map<NodeId, Vec<NodeId>>,
    nodes: Map<NodeId, NodeSpec<T>>,
) -> bool {
    &&& incoming.dom() == nodes.dom()
    &&& forall|target: NodeId| #[trigger]
        incoming.contains_key(target) ==> incoming[target]@.no_duplicates()
    &&& forall|target: NodeId, source: NodeId|
        incoming.contains_key(target) ==> (#[trigger] incoming[target]@.contains(source) <==> (
        nodes.contains_key(source) && leads_to(nodes[source].edges, target)))
}

/// Appending an edge to a filtered list.
proof fn lemma_without_target_step(edges: Seq<EdgeView>, count: int, target: NodeId)
    requires
        0 <= count < edges.len(),
    ensures
        without_target(edges.subrange(0, count + 1), target) == if edges[count].target != target {
            without_target(edges.subrange(0, count), target).push(edges[count])
        } else {
            without_target(edges.subrange(0, count), target)
        },
{
    reveal(Seq::filter);
    let longer = edges.subrange(0, count + 1);
    assert(longer.drop_last() =~= edges.subrange(0, count));
    assert(longer.last() == edges[count]);
}

/// The edges of a filtered list are those of the list that do not lead to the target.
pub proof fn lemma_without_target(edges: Seq<EdgeView>, target: NodeId)
    ensures
        without_target(edges, target).len() <= edges.len(),
        forall|i: int|
            0 <= i < without_target(edges, target).len() ==> edges.contains(
                #[trigger] without_target(edges, target)[i],
            ) && without_target(edges, target)[i].target != target,
        forall|other: NodeId|
            #[trigger] leads_to(without_target(edges, target), other) <==> (other != target
                && leads_to(edges, other)),
        distinct_edges(edges) ==> distinct_edges(without_target(edges, target)),
        !leads_to(edges, target) ==> without_target(edges, target) == edges,
    decreases edges.len(),
{
    reveal(Seq::filter);
    if edges.len() > 0 {
        let shorter = edges.drop_last();
        let kept = without_target(shorter, target);
        let all = without_target(edges, target);
        lemma_without_target(shorter, target);
        assert(all == if edges.last().target != target { kept.push(edges.last()) } else { kept });
        assert forall|i: int| 0 <= i < all.len() implies edges.contains(#[trigger] all[i])
            && all[i].target != target by {
            if i < kept.len() {
                assert(shorter.contains(kept[i]));
                let j = choose|j: int| 0 <= j < shorter.len() && shorter[j] == kept[i];
                assert(edges[j] == kept[i]);
            } else {
                assert(edges[edges.len() - 1] == all[i]);
            }
        }
        assert forall|other: NodeId| #[trigger] leads_to(all, other) <==> (other != target
            && leads_to(edges, other)) by {
            if leads_to(all, other) {
                let i = choose|i: int| 0 <= i < all.len() && (#[trigger] all[i]).target == other;
                assert(edges.contains(all[i]));
                let j = choose|j: int| 0 <= j < edges.len() && edges[j] == all[i];
                assert(edges[j].target == other);
            }
            if other != target && leads_to(edges, other) {
                let j = choose|j: int|
                    0 <= j < edges.len() && (#[trigger] edges[j]).target == other;
                if j < shorter.len() {
                    assert(shorter[j].target == other);
                    assert(leads_to(shorter, other));
                    assert(leads_to(kept, other));
                    let i = choose|i: int|
                        0 <= i < kept.len() && (#[trigger] kept[i]).target == other;
                    assert(all[i].target == other);
                } else {
                    assert(all[all.len() - 1].target == other);
                }
            }
        }
        if distinct_edges(edges) {
            assert forall|i: int, j: int| 0 <= i < j < shorter.len() implies !((
            #[trigger] shorter[i]).target == (#[trigger] shorter[j]).target && shorter[i].label
                == shorter[j].label) by {
                assert(shorter[i] == edges[i] && shorter[j] == edges[j]);
            }
            assert forall|i: int, j: int| 0 <= i < j < all.len() implies !((#[trigger] all[i]).target
                == (#[trigger] all[j]).target && all[i].label == all[j].label) by {
                if j == kept.len() {
                    assert(shorter.contains(kept[i]));
                    let k = choose|k: int| 0 <= k < shorter.len() && shorter[k] == kept[i];
                    assert(edges[k] == all[i]);
                } else {
                    assert(all[i] == kept[i] && all[j] == kept[j]);
                }
            }
        }
        if !leads_to(edges, target) {
            assert(edges[edges.len() - 1].target != target);
            assert(!leads_to(shorter, target)) by {
                if leads_to(shorter, target) {
                    let i = choose|i: int|
                        0 <= i < shorter.len() && (#[trigger] shorter[i]).target == target;
                    assert(edges[i].target == target);
                }
            }
            assert(all =~= edges);
        }
    } else {
        assert(without_target(edges, target) =~= edges);
    }
}

/// `edges` without those that lead to `target`.
fn drop_target(edges: Vec<Edge>, target: NodeId) -> (result: Vec<Edge>)
    ensures
        edge_views(result@) == without_target(edge_views(edges@), target),
{
    let ghost views = edge_views(edges@);
    let mut result: Vec<Edge> = Vec::new();
    proof {
        reveal(Seq::filter);
        assert(views.subrange(0, 0) =~= Seq::<EdgeView>::empty());
        assert(edge_views(result@) =~= Seq::<EdgeView>::empty());
    }
    for edge in iter: edges
        invariant
            views == edge_views(iter.seq()),
            edge_views(result@) == without_target(views.subrange(0, iter.index()), target),
    {
        let ghost before = result@;
        proof {
            lemma_without_target_step(views, iter.index(), target);
        }
        if edge.target_id != target {
            result.push(edge);
            proof {
                assert(edge_views(result@) =~= edge_views(before).push(edge@));
            }
        }
    }
    assert(views.subrange(0, views.len() as int) =~= views);
    result
}

/// What is left of some edges.
pub proof fn lemma_without_label(edges: Seq<EdgeView>, target: NodeId, label: Seq<char>)
    ensures
        forall|edge: EdgeView| #[trigger]
            without_label(edges, target, label).contains(edge) <==> edges.contains(edge) && !(
            edge.target == target && edge.label == label),
        forall|other: NodeId|
            other != target ==> (#[trigger] leads_to(without_label(edges, target, label), other)
                <==> leads_to(edges, other)),
        leads_to(without_label(edges, target, label), target) ==> leads_to(edges, target),
        distinct_edges(edges) ==> distinct_edges(without_label(edges, target, label)),
    decreases edges.len(),
{
    let keep = |edge: EdgeView| !(edge.target == target && edge.label == label);
    let all = without_label(edges, target, label);
    assert forall|edge: EdgeView| #[trigger] all.contains(edge) <==> edges.contains(edge) && !(
    edge.target == target && edge.label == label) by {
        if edges.contains(edge) && keep(edge) {
            let i = choose|i: int| 0 <= i < edges.len() && edges[i] == edge;
            edges.lemma_filter_contains(keep, i);
        }
        if all.contains(edge) {
            let i = choose|i: int| 0 <= i < all.len() && all[i] == edge;
            edges.lemma_filter_pred(keep, i);
            edges.lemma_filter_contains_rev(keep, edge);
        }
    }
    assert forall|other: NodeId| #[trigger] leads_to(all, other) implies leads_to(edges, other) by {
        let i = choose|i: int| 0 <= i < all.len() && (#[trigger] all[i]).target == other;
        assert(all.contains(all[i]));
        let j = choose|j: int| 0 <= j < edges.len() && edges[j] == all[i];
        assert(edges[j].target == other);
    }
    assert forall|other: NodeId| other != target && leads_to(edges, other) implies
        #[trigger] leads_to(all, other) by {
        let j = choose|j: int| 0 <= j < edges.len() && (#[trigger] edges[j]).target == other;
        assert(edges.contains(edges[j]));
        assert(all.contains(edges[j]));
        let i = choose|i: int| 0 <= i < all.len() && all[i] == edges[j];
        assert(all[i].target == other);
    }
    if edges.len() > 0 {
        reveal(Seq::filter);
        let shorter = edges.drop_last();
        let kept = without_label(shorter, target, label);
        lemma_without_label(shorter, target, label);
        assert(all == if keep(edges.last()) {
            kept.push(edges.last())
        } else {
            kept
        });
        if distinct_edges(edges) {
            assert(distinct_edges(shorter));
            assert forall|i: int, j: int| 0 <= i < j < all.len() implies !((
            #[trigger] all[i]).target == (#[trigger] all[j]).target && all[i].label
                == all[j].label) by {
                if j == kept.len() {
                    assert(kept.contains(kept[i]));
                    assert(shorter.contains(kept[i]));
                    let k = choose|k: int| 0 <= k < shorter.len() && shorter[k] == kept[i];
                    assert(edges[k] == all[i]);
                    assert(edges[edges.len() - 1] == all[j]);
                } else {
                    assert(kept[i] == all[i] && kept[j] == all[j]);
                }
            }
        }
    } else {
        reveal(Seq::filter);
    }
}

/// Takes the edge to a node under a label out of a list, and says whether another leads there.
fn drop_label(edges: Vec<Edge>, target: NodeId, label: &str) -> (result: (Vec<Edge>, bool))
    ensures
        edge_views(result.0@) == without_label(edge_views(edges@), target, label@),
        result.1 == leads_to(edge_views(result.0@), target),
{
    let ghost views = edge_views(edges@);
    let ghost keep = |edge: EdgeView| !(edge.target == target && edge.label == label@);
    let mut kept: Vec<Edge> = Vec::new();
    let mut leads = false;
    proof {
        reveal(Seq::filter);
        assert(views.subrange(0, 0) =~= Seq::<EdgeView>::empty());
        assert(edge_views(kept@) =~= Seq::<EdgeView>::empty());
    }
    for edge in iter: edges
        invariant
            views == edge_views(iter.seq()),
            edge_views(kept@) == without_label(views.subrange(0, iter.index()), target, label@),
            leads == leads_to(edge_views(kept@), target),
    {
        let ghost before = edge_views(kept@);
        let ghost own = edge@;
        proof {
            reveal(Seq::filter);
            let more = views.subrange(0, iter.index() + 1);
            assert(more.drop_last() =~= views.subrange(0, iter.index()));
            assert(more.last() == own);
        }
        let same = edge.target_id == target;
        if !(same && same_text(edge.label.as_str(), label)) {
            kept.push(edge);
            if same {
                leads = true;
            }
            proof {
                let after = edge_views(kept@);
                assert(after =~= before.push(own));
                assert(after[before.len() as int] == own);
                if leads_to(before, target) {
                    let i = choose|i: int|
                        0 <= i < before.len() && (#[trigger] before[i]).target == target;
                    assert(after[i] == before[i]);
                }
                if leads_to(after, target) && own.target != target {
                    let i = choose|i: int|
                        0 <= i < after.len() && (#[trigger] after[i]).target == target;
                    assert(before[i] == after[i]);
                }
            }
        }
    }
    assert(views.subrange(0, views.len() as int) =~= views);
    (kept, leads)
}

/// Where an edge stands: nothing before the position matches, and what is there does.
pub proof fn lemma_edge_position(edges: Seq<EdgeView>, target: NodeId, label: Seq<char>)
    ensures
        0 <= edge_position(edges, target, label) <= edges.len(),
        forall|i: int|
            0 <= i < edge_position(edges, target, label) ==> !((#[trigger] edges[i]).target
                == target && edges[i].label == label),
        edge_position(edges, target, label) < edges.len() ==> edges[edge_position(
            edges,
            target,
            label,
        )].target == target && edges[edge_position(edges, target, label)].label == label,
    decreases edges.len(),
{
    if edges.len() > 0 && !(edges[0].target == target && edges[0].label == label) {
        let rest = edges.drop_first();
        lemma_edge_position(rest, target, label);
        assert forall|i: int| 0 <= i < edge_position(edges, target, label) implies !((
        #[trigger] edges[i]).target == target && edges[i].label == label) by {
            if i > 0 {
                assert(rest[i - 1] == edges[i]);
            }
        }
    }
}

/// Setting an edge adds at most its own target and keeps the edges distinct.
pub proof fn lemma_upsert(edges: Seq<EdgeView>, edge: EdgeView)
    ensures
        upsert(edges, edge).len() <= edges.len() + 1,
        forall|i: int|
            0 <= i < upsert(edges, edge).len() ==> (#[trigger] upsert(edges, edge)[i]) == edge
                || edges.contains(upsert(edges, edge)[i]),
        forall|target: NodeId| #[trigger]
            leads_to(upsert(edges, edge), target) <==> (target == edge.target || leads_to(
                edges,
                target,
            )),
        distinct_edges(edges) ==> distinct_edges(upsert(edges, edge)),
{
    lemma_edge_position(edges, edge.target, edge.label);
    let position = edge_position(edges, edge.target, edge.label);
    let after = upsert(edges, edge);
    assert forall|i: int| 0 <= i < after.len() implies (#[trigger] after[i]) == edge
        || edges.contains(after[i]) by {
        if i < edges.len() && i != position {
            assert(edges[i] == after[i]);
        }
    }
    assert forall|target: NodeId| #[trigger] leads_to(after, target) <==> (target == edge.target
        || leads_to(edges, target)) by {
        if leads_to(edges, target) {
            let i = choose|i: int| 0 <= i < edges.len() && (#[trigger] edges[i]).target == target;
            assert(after[i].target == target);
        }
        if target == edge.target {
            let at = if position < edges.len() { position } else { edges.len() as int };
            assert(after[at].target == target);
        }
        if leads_to(after, target) && target != edge.target {
            let i = choose|i: int| 0 <= i < after.len() && (#[trigger] after[i]).target == target;
            assert(edges[i].target == target);
        }
    }
    if distinct_edges(edges) {
        assert forall|i: int, j: int| 0 <= i < j < after.len() implies !((#[trigger] after[i]).target
            == (#[trigger] after[j]).target && after[i].label == after[j].label) by {
            if i != position && j != position && j < edges.len() {
                assert(edges[i] == after[i] && edges[j] == after[j]);
            } else if j == position && j < edges.len() {
                assert(edges[i] == after[i]);
                assert(edges[j].target == edge.target && edges[j].label == edge.label);
            } else if i == position {
                assert(edges[j] == after[j]);
                assert(edges[i].target == edge.target && edges[i].label == edge.label);
            } else {
                assert(edges[i] == after[i]);
            }
        }
    }
}

/// The position of the edge to `target` with this label, or the number of edges.
fn find_edge(edges: &Vec<Edge>, target: NodeId, label: &str) -> (position: usize)
    ensures
        position == edge_position(edge_views(edges@), target, label@),
{
    let ghost views = edge_views(edges@);
    proof {
        lemma_edge_position(views, target, label@);
    }
    let mut i: usize = 0;
    while i < edges.len()
        invariant
            i <= edges@.len(),
            views == edge_views(edges@),
            i <= edge_position(views, target, label@) <= views.len(),
            edge_position(views, target, label@) < views.len() ==> views[edge_position(
                views,
                target,
                label@,
            )].target == target && views[edge_position(views, target, label@)].label == label@,
            forall|j: int|
                0 <= j < edge_position(views, target, label@) ==> !((#[trigger] views[j]).target
                    == target && views[j].label == label@),
        decreases edges@.len() - i,
    {
        assert(views[i as int] == edges@[i as int]@);
        if edges[i].target_id == target && same_text(edges[i].label.as_str(), label) {
            return i;
        }
        i += 1;
    }
    i
}

/// Whether `id` is in `ids`.
fn contains_id(ids: &Vec<NodeId>, id: NodeId) -> (result: bool)
    ensures
        result == ids@.contains(id),
{
    let mut i: usize = 0;
    while i < ids.len()
        invariant
            i <= ids@.len(),
            forall|j: int| 0 <= j < i ==> ids@[j] != id,
        decreases ids@.len() - i,
    {
        if ids[i] == id {
            assert(ids@[i as int] == id);
            return true;
        }
        i += 1;
    }
    false
}

/// `ids` without `id`.
fn drop_id(ids: Vec<NodeId>, id: NodeId) -> (result: Vec<NodeId>)
    requires
        ids@.no_duplicates(),
    ensures
        result@.no_duplicates(),
        forall|other: NodeId| #[trigger]
            result@.contains(other) <==> (other != id && ids@.contains(other)),
{
    let mut result: Vec<NodeId> = Vec::new();
    let mut i: usize = 0;
    while i < ids.len()
        invariant
            i <= ids@.len(),
            ids@.no_duplicates(),
            result@.no_duplicates(),
            forall|k: int|
                0 <= k < result@.len() ==> result@[k] != id && ids@.subrange(
                    0,
                    i as int,
                ).contains(#[trigger] result@[k]),
            forall|j: int| 0 <= j < i && ids@[j] != id ==> result@.contains(#[trigger] ids@[j]),
        decreases ids@.len() - i,
    {
        let ghost before = result@;
        let current: NodeId = ids[i];
        if current != id {
            proof {
                assert(!before.contains(current)) by {
                    if before.contains(current) {
                        let k = choose|k: int| 0 <= k < before.len() && before[k] == current;
                        assert(ids@.subrange(0, i as int).contains(before[k]));
                        let j = choose|j: int|
                            0 <= j < i && ids@.subrange(0, i as int)[j] == before[k];
                        assert(ids@[j] == ids@[i as int]);
                    }
                }
            }
            result.push(current);
        }
        proof {
            assert forall|k: int| 0 <= k < result@.len() implies result@[k] != id && ids@.subrange(
                0,
                i + 1,
            ).contains(#[trigger] result@[k]) by {
                if k < before.len() {
                    assert(ids@.subrange(0, i as int).contains(before[k]));
                    let j = choose|j: int| 0 <= j < i && ids@.subrange(0, i as int)[j] == before[k];
                    assert(ids@.subrange(0, i + 1)[j] == result@[k]);
                } else {
                    assert(ids@.subrange(0, i + 1)[i as int] == result@[k]);
                }
            }
            assert forall|j: int| 0 <= j < i + 1 && ids@[j] != id implies result@.contains(
                #[trigger] ids@[j],
            ) by {
                if j < i {
                    assert(before.contains(ids@[j]));
                    let k = choose|k: int| 0 <= k < before.len() && before[k] == ids@[j];
                    assert(result@[k] == ids@[j]);
                } else {
                    assert(result@[before.len() as int] == ids@[j]);
                }
            }
        }
        i += 1;
    }
    proof {
        assert(ids@.subrange(0, i as int) =~= ids@);
    }
    result
}

/// Taking a record out, and putting one in, seen from the nodes.
proof fn lemma_record_nodes<T>(
    records: Map<NodeId, Record<T>>,
    id: NodeId,
    record: Record<T>,
)
    ensures
        record_nodes(records.remove(id)) == record_nodes(records).remove(id),
        record_nodes(records.insert(id, record)) == record_nodes(records).insert(id, record.node()),
        record_nodes(records).dom() == records.dom(),
        records.contains_key(id) ==> record_nodes(records)[id] == records[id].node(),
{
    assert(record_nodes(records.remove(id)) =~= record_nodes(records).remove(id));
    assert(record_nodes(records.insert(id, record)) =~= record_nodes(records).insert(
        id,
        record.node(),
    ));
    assert(record_nodes(records).dom() =~= records.dom());
}

/// A node that is inserted is read back whole, with its vector, its payload and no edges. Its
/// identifier is not handed out again, every other node stays as it is, and the table stays well
/// formed.
pub proof fn law_insert_reads_back<T: VectorType>(
    table: Table<T>,
    id: NodeId,
    vector: Seq<T>,
    payload: PayloadView,
)
    requires
        table.well_formed(),
        vector.len() == table.dim,
    ensures
        table.insert(id, vector, payload).well_formed(),
        table.insert(id, vector, payload).nodes.contains_key(id),
        table.insert(id, vector, payload).nodes[id] == (NodeSpec {
            vector,
            payload,
            edges: Seq::empty(),
        }),
        table.insert(id, vector, payload).next_id > id,
        table.insert(id, vector, payload).next_id >= table.next_id,
        forall|other: NodeId|
            other != id ==> (#[trigger] table.insert(id, vector, payload).nodes.contains_key(other)
                <==> table.nodes.contains_key(other)),
        forall|other: NodeId| #[trigger]
            table.nodes.contains_key(other) && other != id ==> table.insert(
                id,
                vector,
                payload,
            ).nodes[other] == table.nodes[other],
{
    let after = table.insert(id, vector, payload);
    assert(after.nodes.dom() =~= table.nodes.dom().insert(id));
    assert forall|other: NodeId| #[trigger] after.nodes.contains_key(other) implies
        after.nodes[other].vector.len() == after.dim && other < after.next_id && distinct_edges(
        after.nodes[other].edges,
    ) by {
        if other != id {
            assert(table.nodes.contains_key(other));
        }
    }
    assert forall|other: NodeId, i: int|
        after.nodes.contains_key(other) && 0 <= i
            < after.nodes[other].edges.len() implies after.nodes.contains_key(
        (#[trigger] after.nodes[other].edges[i]).target,
    ) by {
        assert(table.nodes.contains_key(table.nodes[other].edges[i].target));
    }
}

/// An edge that is set is read back, and replaces the one with the same target and label. Every
/// other edge, the vectors and the payloads stay as they are, and so does every other node.
pub proof fn law_link_reads_back<T: VectorType>(table: Table<T>, src: NodeId, edge: EdgeView)
    requires
        table.well_formed(),
        table.nodes.contains_key(src),
        table.nodes.contains_key(edge.target),
    ensures
        table.link(src, edge).well_formed(),
        table.link(src, edge).edges_of(src).contains(edge),
        forall|other: EdgeView|
            other.target != edge.target || other.label != edge.label ==> (
            #[trigger] table.link(src, edge).edges_of(src).contains(other) <==> table.edges_of(
                src,
            ).contains(other)),
        table.link(src, edge).nodes[src].vector == table.nodes[src].vector,
        table.link(src, edge).nodes[src].payload == table.nodes[src].payload,
        table.link(src, edge).nodes.dom() == table.nodes.dom(),
        forall|other: NodeId| #[trigger]
            table.nodes.contains_key(other) && other != src ==> table.link(
                src,
                edge,
            ).nodes[other] == table.nodes[other],
{
    let edges = table.edges_of(src);
    let after = table.link(src, edge);
    let now = after.edges_of(src);
    let position = edge_position(edges, edge.target, edge.label);
    lemma_upsert(edges, edge);
    lemma_edge_position(edges, edge.target, edge.label);
    assert(after.nodes.dom() =~= table.nodes.dom());
    assert(now[position] == edge);
    assert forall|other: EdgeView|
        other.target != edge.target || other.label != edge.label implies (
    #[trigger] now.contains(other) <==> edges.contains(other)) by {
        if now.contains(other) {
            let i = choose|i: int| 0 <= i < now.len() && now[i] == other;
            assert(edges[i] == other);
        }
        if edges.contains(other) {
            let i = choose|i: int| 0 <= i < edges.len() && edges[i] == other;
            assert(now[i] == other);
        }
    }
    assert forall|other: NodeId, i: int|
        after.nodes.contains_key(other) && 0 <= i
            < after.nodes[other].edges.len() implies after.nodes.contains_key(
        (#[trigger] after.nodes[other].edges[i]).target,
    ) by {
        if other == src {
            if now[i] != edge {
                assert(edges.contains(now[i]));
                let j = choose|j: int| 0 <= j < edges.len() && edges[j] == now[i];
                assert(table.nodes.contains_key(table.nodes[src].edges[j].target));
            }
        } else {
            assert(table.nodes.contains_key(table.nodes[other].edges[i].target));
        }
    }
}

/// Unlinking removes every edge from one node to another, whatever its label. Every other edge,
/// the vectors and the payloads stay as they are, and so does every other node.
pub proof fn law_unlink_removes_the_edges<T: VectorType>(
    table: Table<T>,
    src: NodeId,
    dst: NodeId,
)
    requires
        table.well_formed(),
        table.nodes.contains_key(src),
    ensures
        table.unlink(src, dst).well_formed(),
        !leads_to(table.unlink(src, dst).edges_of(src), dst),
        forall|other: EdgeView|
            other.target != dst ==> (#[trigger] table.unlink(src, dst).edges_of(src).contains(
                other,
            ) <==> table.edges_of(src).contains(other)),
        table.unlink(src, dst).nodes[src].vector == table.nodes[src].vector,
        table.unlink(src, dst).nodes[src].payload == table.nodes[src].payload,
        table.unlink(src, dst).nodes.dom() == table.nodes.dom(),
        forall|other: NodeId| #[trigger]
            table.nodes.contains_key(other) && other != src ==> table.unlink(
                src,
                dst,
            ).nodes[other] == table.nodes[other],
{
    let edges = table.edges_of(src);
    let after = table.unlink(src, dst);
    let now = after.edges_of(src);
    lemma_without_target(edges, dst);
    assert(after.nodes.dom() =~= table.nodes.dom());
    assert forall|other: EdgeView| other.target != dst implies (#[trigger] now.contains(other)
        <==> edges.contains(other)) by {
        if edges.contains(other) {
            let i = choose|i: int| 0 <= i < edges.len() && edges[i] == other;
            edges.lemma_filter_contains(|edge: EdgeView| edge.target != dst, i);
        }
        if now.contains(other) {
            let i = choose|i: int| 0 <= i < now.len() && now[i] == other;
            assert(edges.contains(now[i]));
        }
    }
    assert forall|other: NodeId, i: int|
        after.nodes.contains_key(other) && 0 <= i
            < after.nodes[other].edges.len() implies after.nodes.contains_key(
        (#[trigger] after.nodes[other].edges[i]).target,
    ) by {
        if other == src {
            assert(edges.contains(now[i]));
            let j = choose|j: int| 0 <= j < edges.len() && edges[j] == now[i];
            assert(table.nodes.contains_key(table.nodes[src].edges[j].target));
        } else {
            assert(table.nodes.contains_key(table.nodes[other].edges[i].target));
        }
    }
}

/// Unlinking under a label removes that edge alone. Every other edge, the vectors and the payloads
/// stay as they are, and so does every other node.
pub proof fn law_unlink_label_removes_one_edge<T: VectorType>(
    table: Table<T>,
    src: NodeId,
    dst: NodeId,
    label: Seq<char>,
)
    requires
        table.well_formed(),
        table.nodes.contains_key(src),
    ensures
        table.unlink_label(src, dst, label).well_formed(),
        forall|other: EdgeView| #[trigger]
            table.unlink_label(src, dst, label).edges_of(src).contains(other)
                <==> table.edges_of(src).contains(other) && !(other.target == dst && other.label
                == label),
        table.unlink_label(src, dst, label).nodes[src].vector == table.nodes[src].vector,
        table.unlink_label(src, dst, label).nodes[src].payload == table.nodes[src].payload,
        table.unlink_label(src, dst, label).nodes.dom() == table.nodes.dom(),
        forall|other: NodeId| #[trigger]
            table.nodes.contains_key(other) && other != src ==> table.unlink_label(
                src,
                dst,
                label,
            ).nodes[other] == table.nodes[other],
{
    let edges = table.edges_of(src);
    let after = table.unlink_label(src, dst, label);
    let now = after.edges_of(src);
    lemma_without_label(edges, dst, label);
    assert(after.nodes.dom() =~= table.nodes.dom());
    assert forall|other: NodeId, i: int|
        after.nodes.contains_key(other) && 0 <= i
            < after.nodes[other].edges.len() implies after.nodes.contains_key(
        (#[trigger] after.nodes[other].edges[i]).target,
    ) by {
        if other == src {
            assert(now.contains(now[i]));
            let j = choose|j: int| 0 <= j < edges.len() && edges[j] == now[i];
            assert(table.nodes.contains_key(table.nodes[src].edges[j].target));
        } else {
            assert(table.nodes.contains_key(table.nodes[other].edges[i].target));
        }
    }
}

/// A payload or a vector that is replaced is read back; what else the node holds stays as it is,
/// and so does every other node.
pub proof fn law_updates_read_back<T: VectorType>(
    table: Table<T>,
    id: NodeId,
    payload: PayloadView,
    vector: Seq<T>,
)
    requires
        table.well_formed(),
        table.nodes.contains_key(id),
        vector.len() == table.dim,
    ensures
        table.set_payload(id, payload).well_formed(),
        table.set_payload(id, payload).nodes[id] == (NodeSpec { payload, ..table.nodes[id] }),
        table.set_vector(id, vector).well_formed(),
        table.set_vector(id, vector).nodes[id] == (NodeSpec { vector, ..table.nodes[id] }),
        table.set_payload(id, payload).nodes.dom() == table.nodes.dom(),
        table.set_vector(id, vector).nodes.dom() == table.nodes.dom(),
        forall|other: NodeId| #[trigger]
            table.nodes.contains_key(other) && other != id ==> table.set_payload(
                id,
                payload,
            ).nodes[other] == table.nodes[other] && table.set_vector(id, vector).nodes[other]
                == table.nodes[other],
{
    let one = table.set_payload(id, payload);
    let other = table.set_vector(id, vector);
    assert(one.nodes.dom() =~= table.nodes.dom());
    assert(other.nodes.dom() =~= table.nodes.dom());
    assert forall|from: NodeId, i: int|
        one.nodes.contains_key(from) && 0 <= i
            < one.nodes[from].edges.len() implies one.nodes.contains_key(
        (#[trigger] one.nodes[from].edges[i]).target,
    ) by {
        assert(table.nodes.contains_key(table.nodes[from].edges[i].target));
    }
    assert forall|from: NodeId, i: int|
        other.nodes.contains_key(from) && 0 <= i
            < other.nodes[from].edges.len() implies other.nodes.contains_key(
        (#[trigger] other.nodes[from].edges[i]).target,
    ) by {
        assert(table.nodes.contains_key(table.nodes[from].edges[i].target));
    }
}

/// Deleting a node removes it from every layer at once: no vector, payload or edge list is
/// kept under its identifier, no edge leads to it any more, every other node keeps its vector
/// and payload, and the table stays well formed.
pub proof fn law_delete_leaves_no_trace<T: VectorType>(table: Table<T>, id: NodeId)
    requires
        table.well_formed(),
    ensures
        table.delete(id).well_formed(),
        !table.delete(id).nodes.contains_key(id),
        forall|other: NodeId| #[trigger]
            table.delete(id).nodes.contains_key(other) ==> !leads_to(
                table.delete(id).nodes[other].edges,
                id,
            ),
        forall|other: NodeId| #[trigger]
            table.delete(id).nodes.contains_key(other) <==> (table.nodes.contains_key(other)
                && other != id),
        forall|other: NodeId| #[trigger]
            table.delete(id).nodes.contains_key(other) ==> table.delete(id).nodes[other].vector
                == table.nodes[other].vector && table.delete(id).nodes[other].payload
                == table.nodes[other].payload,
{
    let after = table.delete(id);
    assert(after.nodes.dom() =~= table.nodes.dom().remove(id));
    assert forall|other: NodeId| #[trigger] after.nodes.contains_key(other) implies !leads_to(
        after.nodes[other].edges,
        id,
    ) && distinct_edges(after.nodes[other].edges) by {
        lemma_without_target(table.nodes[other].edges, id);
    }
    assert forall|other: NodeId, i: int|
        after.nodes.contains_key(other) && 0 <= i
            < after.nodes[other].edges.len() implies after.nodes.contains_key(
        (#[trigger] after.nodes[other].edges[i]).target,
    ) by {
        let edges = table.nodes[other].edges;
        lemma_without_target(edges, id);
        let kept = without_target(edges, id)[i];
        assert(edges.contains(kept));
        let j = choose|j: int| 0 <= j < edges.len() && edges[j] == kept;
        assert(table.nodes.contains_key(table.nodes[other].edges[j].target));
    }
}

impl<T: VectorType> View for MemTable<T> {
    type V = Table<T>;

    closed spec fn view(&self) -> Table<T> {
        Table {
            dim: self.dim as nat,
            next_id: self.next_id as nat,
            nodes: record_nodes(self.records@),
        }
    }
}

impl<T: VectorType> MemTable<T> {
    /// The table's invariant.
    pub closed spec fn inv(&self) -> bool {
        self@.well_formed() && indexes(self.incoming@, self@.nodes)
    }

    /// The table is well formed.
    pub proof fn lemma_inv(&self)
        requires
            self.inv(),
        ensures
            self@.well_formed(),
    {
    }

    /// An empty table of vectors with `dim` components. The first identifier is 1.
    pub fn new(dim: usize) -> (table: MemTable<T>)
        ensures
            table.inv(),
            table@ == (Table::<T> { dim: dim as nat, next_id: 1, nodes: Map::empty() }),
    {
        let table = MemTable {
            dim,
            next_id: 1,
            records: BTreeMap::new(),
            incoming: BTreeMap::new(),
        };
        assert(table@.nodes =~= Map::<NodeId, NodeSpec<T>>::empty());
        assert(table.incoming@.dom() =~= table@.nodes.dom());
        table
    }

    /// The number of components of every vector.
    pub fn dim(&self) -> (dim: usize)
        ensures
            dim == self@.dim,
    {
        self.dim
    }

    /// The identifier that the next new node gets.
    pub fn next_id_value(&self) -> (id: NodeId)
        ensures
            id == self@.next_id,
    {
        self.next_id
    }

    /// Whether there is a node with this identifier.
    pub fn contains(&self, id: NodeId) -> (result: bool)
        ensures
            result == self@.nodes.contains_key(id),
    {
        self.records.contains_key(&id)
    }

    /// Stores a node that is not in the table, without edges.
    fn put(&mut self, id: NodeId, vector: Vec<T>, payload: Payload)
        requires
            old(self).inv(),
            !old(self)@.nodes.contains_key(id),
            vector@.len() == old(self)@.dim,
            id < u64::MAX,
        ensures
            final(self).inv(),
            final(self)@ == old(self)@.insert(id, vector@, payload@),
    {
        let ghost before = *self;
        let record = Record { vector, payload, edges: Vec::new() };
        proof {
            lemma_record_nodes(self.records@, id, record);
            assert(record.node().edges =~= Seq::<EdgeView>::empty());
        }
        self.records.insert(id, record);
        self.incoming.insert(id, Vec::new());
        if self.next_id <= id {
            self.next_id = id + 1;
        }
        proof {
            let nodes = before@.nodes;
            assert(self@ == before@.insert(id, vector@, payload@));
            assert(self.incoming@.dom() =~= self@.nodes.dom());
            assert forall|target: NodeId, source: NodeId|
                self.incoming@.contains_key(target) implies (
            #[trigger] self.incoming@[target]@.contains(source) <==> (self@.nodes.contains_key(
                source,
            ) && leads_to(self@.nodes[source].edges, target))) by {
                if target == id {
                    if nodes.contains_key(source) && leads_to(nodes[source].edges, id) {
                        let i = choose|i: int|
                            0 <= i < nodes[source].edges.len() && (
                            #[trigger] nodes[source].edges[i]).target == id;
                        assert(nodes.contains_key(nodes[source].edges[i].target));
                    }
                } else if source != id {
                    assert(before.incoming@[target]@.contains(source) <==> (nodes.contains_key(
                        source,
                    ) && leads_to(nodes[source].edges, target)));
                } else {
                    assert(!before.incoming@[target]@.contains(source));
                }
            }
            assert forall|source: NodeId, i: int|
                self@.nodes.contains_key(source) && 0 <= i
                    < self@.nodes[source].edges.len() implies self@.nodes.contains_key(
                (#[trigger] self@.nodes[source].edges[i]).target,
            ) by {
                if source != id {
                    assert(nodes.contains_key(nodes[source].edges[i].target));
                }
            }
        }
    }

    /// Sets the edge from `src` to `dst` under `label`: its weight and metadata are replaced
    /// where there is such an edge, and the edge is appended where there is none.
    fn put_edge(&mut self, src: NodeId, edge: Edge)
        requires
            old(self).inv(),
            old(self)@.nodes.contains_key(src),
            old(self)@.nodes.contains_key(edge.target_id),
        ensures
            final(self).inv(),
            final(self)@ == old(self)@.link(src, edge@),
    {
        let ghost before = *self;
        let ghost nodes = self@.nodes;
        let dst: NodeId = edge.target_id;
        let mut record = self.records.remove(&src).unwrap();
        let mut sources = self.incoming.remove(&dst).unwrap();
        let position: usize = find_edge(&record.edges, dst, edge.label.as_str());
        let ghost edges = edge_views(record.edges@);
        proof {
            lemma_record_nodes(before.records@, src, record);
            lemma_edge_position(edges, edge@.target, edge@.label);
            lemma_upsert(edges, edge@);
            assert(edges == nodes[src].edges);
        }
        if position < record.edges.len() {
            let ghost listed = record.edges@;
            record.edges.set(position, edge);
            proof {
                assert(edge_views(record.edges@) =~= edge_views(listed).update(
                    position as int,
                    edge@,
                ));
            }
        } else {
            let ghost listed = record.edges@;
            record.edges.push(edge);
            proof {
                assert(edge_views(record.edges@) =~= edge_views(listed).push(edge@));
            }
        }
        proof {
            lemma_record_nodes(before.records@.remove(src), src, record);
            assert(record_nodes(before.records@).remove(src).insert(src, record.node())
                =~= record_nodes(before.records@).insert(src, record.node()));
        }
        self.records.insert(src, record);
        let ghost listed = sources@;
        if !contains_id(&sources, src) {
            sources.push(src);
        }
        proof {
            assert forall|other: NodeId| #[trigger]
                sources@.contains(other) <==> (other == src || listed.contains(other)) by {
                if listed.contains(other) {
                    let i = choose|i: int| 0 <= i < listed.len() && listed[i] == other;
                    assert(sources@[i] == other);
                }
                if other == src && !listed.contains(src) {
                    assert(sources@[listed.len() as int] == src);
                }
            }
        }
        self.incoming.insert(dst, sources);
        proof {
            assert(self@ == before@.link(src, edge@));
            assert(self.incoming@.dom() =~= self@.nodes.dom());
            assert forall|target: NodeId, source: NodeId|
                self.incoming@.contains_key(target) implies (
            #[trigger] self.incoming@[target]@.contains(source) <==> (self@.nodes.contains_key(
                source,
            ) && leads_to(self@.nodes[source].edges, target))) by {
                assert(before.incoming@[target]@.contains(source) <==> (nodes.contains_key(source)
                    && leads_to(nodes[source].edges, target)));
                assert(leads_to(upsert(edges, edge@), target) <==> (target == edge@.target
                    || leads_to(edges, target)));
            }
            assert forall|source: NodeId, i: int|
                self@.nodes.contains_key(source) && 0 <= i
                    < self@.nodes[source].edges.len() implies self@.nodes.contains_key(
                (#[trigger] self@.nodes[source].edges[i]).target,
            ) by {
                if source != src {
                    assert(nodes.contains_key(nodes[source].edges[i].target));
                } else {
                    let set = upsert(edges, edge@)[i];
                    if set != edge@ {
                        assert(edges.contains(set));
                        let j = choose|j: int| 0 <= j < edges.len() && edges[j] == set;
                        assert(nodes.contains_key(nodes[src].edges[j].target));
                    }
                }
            }
        }
    }

    /// Removes the edge from `src` to `dst` under `label`.
    fn take_label(&mut self, src: NodeId, dst: NodeId, label: &str)
        requires
            old(self).inv(),
            old(self)@.nodes.contains_key(src),
        ensures
            final(self).inv(),
            final(self)@ == old(self)@.unlink_label(src, dst, label@),
    {
        let ghost before = *self;
        let ghost nodes = self@.nodes;
        let record = self.records.remove(&src).unwrap();
        let ghost edges = edge_views(record.edges@);
        proof {
            lemma_record_nodes(before.records@, src, record);
            lemma_without_label(edges, dst, label@);
            assert(edges == nodes[src].edges);
        }
        let (left, leads): (Vec<Edge>, bool) = drop_label(record.edges, dst, label);
        let kept = Record { vector: record.vector, payload: record.payload, edges: left };
        proof {
            lemma_record_nodes(before.records@.remove(src), src, kept);
            assert(record_nodes(before.records@).remove(src).insert(src, kept.node())
                =~= record_nodes(before.records@).insert(src, kept.node()));
        }
        self.records.insert(src, kept);
        if !leads {
            match self.incoming.remove(&dst) {
                Some(sources) => {
                    let rest = drop_id(sources, src);
                    self.incoming.insert(dst, rest);
                },
                None => {},
            }
        }
        proof {
            let now = without_label(edges, dst, label@);
            assert(self@ == before@.unlink_label(src, dst, label@));
            assert(self.incoming@.dom() =~= self@.nodes.dom());
            assert forall|target: NodeId, source: NodeId|
                self.incoming@.contains_key(target) implies (
            #[trigger] self.incoming@[target]@.contains(source) <==> (self@.nodes.contains_key(
                source,
            ) && leads_to(self@.nodes[source].edges, target))) by {
                assert(before.incoming@[target]@.contains(source) <==> (nodes.contains_key(source)
                    && leads_to(nodes[source].edges, target)));
                if target != dst {
                    assert(leads_to(now, target) <==> leads_to(edges, target));
                }
            }
            assert forall|source: NodeId, i: int|
                self@.nodes.contains_key(source) && 0 <= i
                    < self@.nodes[source].edges.len() implies self@.nodes.contains_key(
                (#[trigger] self@.nodes[source].edges[i]).target,
            ) by {
                if source != src {
                    assert(nodes.contains_key(nodes[source].edges[i].target));
                } else {
                    assert(now.contains(now[i]));
                    let j = choose|j: int| 0 <= j < edges.len() && edges[j] == now[i];
                    assert(nodes.contains_key(nodes[src].edges[j].target));
                }
            }
        }
    }

    /// Removes every edge from `src` to `dst`.
    fn take_edges(&mut self, src: NodeId, dst: NodeId)
        requires
            old(self).inv(),
            old(self)@.nodes.contains_key(src),
        ensures
            final(self).inv(),
            final(self)@ == old(self)@.unlink(src, dst),
    {
        let ghost before = *self;
        let ghost nodes = self@.nodes;
        let record = self.records.remove(&src).unwrap();
        let ghost edges = edge_views(record.edges@);
        proof {
            lemma_record_nodes(before.records@, src, record);
            lemma_without_target(edges, dst);
            assert(edges == nodes[src].edges);
        }
        let kept = Record {
            vector: record.vector,
            payload: record.payload,
            edges: drop_target(record.edges, dst),
        };
        proof {
            lemma_record_nodes(before.records@.remove(src), src, kept);
            assert(record_nodes(before.records@).remove(src).insert(src, kept.node())
                =~= record_nodes(before.records@).insert(src, kept.node()));
        }
        self.records.insert(src, kept);
        match self.incoming.remove(&dst) {
            Some(sources) => {
                let rest = drop_id(sources, src);
                self.incoming.insert(dst, rest);
            },
            None => {},
        }
        proof {
            assert(self@ == before@.unlink(src, dst));
            assert(self.incoming@.dom() =~= self@.nodes.dom());
            assert forall|target: NodeId, source: NodeId|
                self.incoming@.contains_key(target) implies (
            #[trigger] self.incoming@[target]@.contains(source) <==> (self@.nodes.contains_key(
                source,
            ) && leads_to(self@.nodes[source].edges, target))) by {
                assert(before.incoming@[target]@.contains(source) <==> (nodes.contains_key(source)
                    && leads_to(nodes[source].edges, target)));
                assert(leads_to(without_target(edges, dst), target) <==> (target != dst && leads_to(
                    edges,
                    target,
                )));
            }
            assert forall|source: NodeId, i: int|
                self@.nodes.contains_key(source) && 0 <= i
                    < self@.nodes[source].edges.len() implies self@.nodes.contains_key(
                (#[trigger] self@.nodes[source].edges[i]).target,
            ) by {
                if source != src {
                    assert(nodes.contains_key(nodes[source].edges[i].target));
                } else {
                    let left = without_target(edges, dst)[i];
                    assert(edges.contains(left));
                    let j = choose|j: int| 0 <= j < edges.len() && edges[j] == left;
                    assert(nodes.contains_key(nodes[src].edges[j].target));
                }
            }
        }
    }

    /// Removes a node with its vector, its payload, its edges and every edge to it.
    fn take(&mut self, id: NodeId)
        requires
            old(self).inv(),
            old(self)@.nodes.contains_key(id),
        ensures
            final(self).inv(),
            final(self)@ == old(self)@.delete(id),
    {
        let ghost before = *self;
        let ghost nodes = self@.nodes;
        let record = self.records.remove(&id).unwrap();
        let sources = self.incoming.remove(&id).unwrap();
        proof {
            lemma_record_nodes(before.records@, id, record);
        }
        let ghost edges = edge_views(record.edges@);
        let mut k: usize = 0;
        while k < sources.len()
            invariant
                k <= sources@.len(),
                sources@ == before.incoming@[id]@,
                before.inv(),
                nodes == before@.nodes,
                nodes == record_nodes(before.records@),
                nodes.contains_key(id),
                self.incoming@ == before.incoming@.remove(id),
                self.dim == before.dim,
                self.next_id == before.next_id,
                record_nodes(self.records@).dom() == nodes.dom().remove(id),
                self.records@.dom() == nodes.dom().remove(id),
                forall|other: NodeId|
                    nodes.contains_key(other) && other != id ==> (#[trigger] record_nodes(
                        self.records@,
                    )[other]) == (if sources@.subrange(0, k as int).contains(other) {
                        NodeSpec {
                            edges: without_target(nodes[other].edges, id),
                            ..nodes[other]
                        }
                    } else {
                        nodes[other]
                    }),
            decreases sources@.len() - k,
        {
            let source: NodeId = sources[k];
            let ghost held = self.records@;
            if source != id {
                proof {
                    assert(before.incoming@[id]@.contains(source));
                    assert(nodes.contains_key(source));
                }
                let current = self.records.remove(&source).unwrap();
                proof {
                    lemma_record_nodes(held, source, current);
                    assert(sources@.no_duplicates());
                    assert(!sources@.subrange(0, k as int).contains(source)) by {
                        if sources@.subrange(0, k as int).contains(source) {
                            let j = choose|j: int|
                                0 <= j < k && sources@.subrange(0, k as int)[j] == source;
                            assert(sources@[j] == sources@[k as int]);
                        }
                    }
                }
                let kept = Record {
                    vector: current.vector,
                    payload: current.payload,
                    edges: drop_target(current.edges, id),
                };
                proof {
                    lemma_record_nodes(held.remove(source), source, kept);
                }
                self.records.insert(source, kept);
            }
            proof {
                let done = sources@.subrange(0, k as int);
                let more = sources@.subrange(0, k + 1);
                assert(more =~= done.push(source));
                assert forall|other: NodeId| nodes.contains_key(other) && other != id implies (
                #[trigger] record_nodes(self.records@)[other]) == (if more.contains(other) {
                    NodeSpec { edges: without_target(nodes[other].edges, id), ..nodes[other] }
                } else {
                    nodes[other]
                }) by {
                    assert(more.contains(other) <==> (done.contains(other) || other == source)) by {
                        if done.contains(other) {
                            let j = choose|j: int| 0 <= j < done.len() && done[j] == other;
                            assert(more[j] == other);
                        }
                        if other == source {
                            assert(more[k as int] == other);
                        }
                    }
                    assert(record_nodes(held)[other] == (if done.contains(other) {
                        NodeSpec { edges: without_target(nodes[other].edges, id), ..nodes[other] }
                    } else {
                        nodes[other]
                    }));
                }
                assert(record_nodes(self.records@).dom() =~= nodes.dom().remove(id));
                assert(self.records@.dom() =~= nodes.dom().remove(id));
            }
            k += 1;
        }
        proof {
            assert(sources@.subrange(0, k as int) =~= sources@);
            assert forall|other: NodeId| nodes.contains_key(other) && other != id implies (
            #[trigger] record_nodes(self.records@)[other]) == (NodeSpec {
                edges: without_target(nodes[other].edges, id),
                ..nodes[other]
            }) by {
                lemma_without_target(nodes[other].edges, id);
                assert(before.incoming@[id]@.contains(other) <==> (nodes.contains_key(other)
                    && leads_to(nodes[other].edges, id)));
            }
            assert(record_nodes(self.records@) =~= before@.delete(id).nodes);
        }
        let ghost shortened = self.records@;
        let mut k: usize = 0;
        while k < record.edges.len()
            invariant
                k <= record.edges@.len(),
                before.inv(),
                nodes == before@.nodes,
                nodes.contains_key(id),
                edges == edge_views(record.edges@),
                edges == nodes[id].edges,
                self.records@ == shortened,
                self.dim == before.dim,
                self.next_id == before.next_id,
                self.incoming@.dom() == nodes.dom().remove(id),
                forall|target: NodeId| #[trigger]
                    self.incoming@.contains_key(target)
                        ==> self.incoming@[target]@.no_duplicates(),
                forall|target: NodeId, source: NodeId|
                    self.incoming@.contains_key(target) ==> (
                    #[trigger] self.incoming@[target]@.contains(source) <==> (
                    before.incoming@[target]@.contains(source) && !(source == id && leads_to(
                        edges.subrange(0, k as int),
                        target,
                    )))),
            decreases record.edges@.len() - k,
        {
            let target: NodeId = record.edges[k].target_id;
            let ghost held = self.incoming@;
            proof {
                assert(edges[k as int] == record.edges@[k as int]@);
                assert(nodes.contains_key(nodes[id].edges[k as int].target));
            }
            if target != id {
                let listed = self.incoming.remove(&target).unwrap();
                let rest = drop_id(listed, id);
                self.incoming.insert(target, rest);
            }
            proof {
                assert(self.incoming@.dom() =~= nodes.dom().remove(id));
                let done = edges.subrange(0, k as int);
                let more = edges.subrange(0, k + 1);
                assert(more =~= done.push(edges[k as int]));
                assert forall|other: NodeId, source: NodeId|
                    self.incoming@.contains_key(other) implies (
                #[trigger] self.incoming@[other]@.contains(source) <==> (
                before.incoming@[other]@.contains(source) && !(source == id && leads_to(
                    more,
                    other,
                )))) by {
                    assert(leads_to(more, other) <==> (leads_to(done, other) || other == target))
                        by {
                        if leads_to(done, other) {
                            let j = choose|j: int|
                                0 <= j < done.len() && (#[trigger] done[j]).target == other;
                            assert(more[j].target == other);
                        }
                        if other == target {
                            assert(more[k as int].target == other);
                        }
                        if leads_to(more, other) && other != target {
                            let j = choose|j: int|
                                0 <= j < more.len() && (#[trigger] more[j]).target == other;
                            assert(done[j].target == other);
                        }
                    }
                    assert(held[other]@.contains(source) <==> (before.incoming@[other]@.contains(
                        source,
                    ) && !(source == id && leads_to(done, other))));
                }
            }
            k += 1;
        }
        proof {
            assert(edges.subrange(0, k as int) =~= edges);
            let after = before@.delete(id);
            assert(self@ == after);
            assert(self.incoming@.dom() =~= after.nodes.dom());
            assert forall|target: NodeId, source: NodeId|
                self.incoming@.contains_key(target) implies (
            #[trigger] self.incoming@[target]@.contains(source) <==> (after.nodes.contains_key(
                source,
            ) && leads_to(after.nodes[source].edges, target))) by {
                assert(before.incoming@[target]@.contains(source) <==> (nodes.contains_key(source)
                    && leads_to(nodes[source].edges, target)));
                if nodes.contains_key(source) {
                    lemma_without_target(nodes[source].edges, id);
                }
            }
            law_delete_leaves_no_trace(before@, id);
        }
    }

    /// Raises the identifier that the next new node gets to at least `id`.
    pub fn advance_next_id(&mut self, id: NodeId)
        requires
            old(self).inv(),
        ensures
            final(self).inv(),
            final(self)@ == (Table {
                next_id: if old(self)@.next_id < id { id as nat } else { old(self)@.next_id },
                ..old(self)@
            }),
    {
        if self.next_id < id {
            self.next_id = id;
        }
    }

    /// Whether `vector` may be stored: it has the table's dimension and finite components.
    pub fn validate_insert(&self, vector: &[T]) -> (result: Result<()>)
        ensures
            result is Ok <==> valid_vector(self@.dim, vector@),
            result matches Err(error) ==> is_vector_fault(self@.dim, vector@, error),
    {
        if vector.len() != self.dim {
            return Err(
                TriviumError::DimensionMismatch { expected: self.dim, got: vector.len() },
            );
        }
        if !is_all_finite(vector) {
            return Err(
                TriviumError::InvalidVector {
                    reason: "向量包含 NaN 或 Infinity (Vector contains NaN or Infinity)".to_owned(),
                },
            );
        }
        Ok(())
    }

    /// Whether a node may be inserted under this identifier.
    pub fn validate_insert_with_id(&self, id: NodeId, vector: &[T]) -> (result: Result<()>)
        ensures
            result is Ok <==> !self@.nodes.contains_key(id) && valid_vector(self@.dim, vector@),
            result matches Err(error) ==> if self@.nodes.contains_key(id) {
                error == TriviumError::NodeAlreadyExists(id)
            } else {
                is_vector_fault(self@.dim, vector@, error)
            },
    {
        if self.contains(id) {
            return Err(TriviumError::NodeAlreadyExists(id));
        }
        self.validate_insert(vector)
    }

    /// Whether the node exists.
    pub fn validate_node(&self, id: NodeId) -> (result: Result<()>)
        ensures
            result == (if self@.nodes.contains_key(id) {
                Ok(())
            } else {
                Err(TriviumError::NodeNotFound(id))
            }),
    {
        if self.contains(id) {
            Ok(())
        } else {
            Err(TriviumError::NodeNotFound(id))
        }
    }

    /// Whether both ends of an edge exist; the source is looked at first.
    pub fn validate_link(&self, src: NodeId, dst: NodeId) -> (result: Result<()>)
        ensures
            result == (if !self@.nodes.contains_key(src) {
                Err(TriviumError::NodeNotFound(src))
            } else if !self@.nodes.contains_key(dst) {
                Err(TriviumError::NodeNotFound(dst))
            } else {
                Ok(())
            }),
    {
        match self.validate_node(src) {
            Ok(()) => self.validate_node(dst),
            Err(error) => Err(error),
        }
    }

    /// Whether the vector of a node may be replaced; the node is looked at first.
    pub fn validate_update_vector(&self, id: NodeId, vector: &[T]) -> (result: Result<()>)
        ensures
            result is Ok <==> self@.nodes.contains_key(id) && valid_vector(self@.dim, vector@),
            result matches Err(error) ==> if !self@.nodes.contains_key(id) {
                error == TriviumError::NodeNotFound(id)
            } else {
                is_vector_fault(self@.dim, vector@, error)
            },
    {
        match self.validate_node(id) {
            Ok(()) => self.validate_insert(vector),
            Err(error) => Err(error),
        }
    }

    /// Inserts a node under a chosen identifier, without edges.
    pub fn insert_with_id(&mut self, id: NodeId, vector: &[T], payload: &Payload) -> (result: Result<
        (),
    >)
        requires
            old(self).inv(),
            id < u64::MAX,
        ensures
            final(self).inv(),
            result is Ok <==> !old(self)@.nodes.contains_key(id) && valid_vector(
                old(self)@.dim,
                vector@,
            ),
            match result {
                Ok(()) => final(self)@ == old(self)@.insert(id, vector@, payload@),
                Err(error) => final(self)@ == old(self)@ && if old(self)@.nodes.contains_key(id) {
                    error == TriviumError::NodeAlreadyExists(id)
                } else {
                    is_vector_fault(old(self)@.dim, vector@, error)
                },
            },
    {
        match self.validate_insert_with_id(id, vector) {
            Ok(()) => {
                self.put(id, copy_slice(vector), payload.duplicate());
                Ok(())
            },
            Err(error) => Err(error),
        }
    }

    /// Stores a node as it was logged. A node that exists is kept, and a vector of another
    /// dimension is not stored.
    pub fn raw_insert(&mut self, id: NodeId, vector: &[T], payload: &Payload) -> (stored: bool)
        requires
            old(self).inv(),
            id < u64::MAX,
        ensures
            final(self).inv(),
            stored == (!old(self)@.nodes.contains_key(id) && vector@.len() == old(self)@.dim),
            final(self)@ == (if stored {
                old(self)@.insert(id, vector@, payload@)
            } else {
                old(self)@
            }),
    {
        if self.contains(id) || vector.len() != self.dim {
            return false;
        }
        self.put(id, copy_slice(vector), payload.duplicate());
        true
    }

    /// Sets the edge from `src` to `dst` under `label`. An edge with that label between the
    /// two is replaced, otherwise the edge is appended.
    pub fn upsert_edge(
        &mut self,
        src: NodeId,
        dst: NodeId,
        label: &str,
        weight: u32,
        metadata: &str,
    ) -> (result: Result<()>)
        requires
            old(self).inv(),
        ensures
            final(self).inv(),
            result == (if !old(self)@.nodes.contains_key(src) {
                Err(TriviumError::NodeNotFound(src))
            } else if !old(self)@.nodes.contains_key(dst) {
                Err(TriviumError::NodeNotFound(dst))
            } else {
                Ok(())
            }),
            final(self)@ == (if result is Ok {
                old(self)@.link(
                    src,
                    EdgeView { target: dst, label: label@, weight, metadata: metadata@ },
                )
            } else {
                old(self)@
            }),
    {
        match self.validate_link(src, dst) {
            Ok(()) => {
                self.put_edge(
                    src,
                    Edge {
                        target_id: dst,
                        label: label.to_owned(),
                        weight,
                        metadata: metadata.to_owned(),
                    },
                );
                Ok(())
            },
            Err(error) => Err(error),
        }
    }

    /// Sets an edge without metadata.
    pub fn link(&mut self, src: NodeId, dst: NodeId, label: &str, weight: u32) -> (result: Result<
        (),
    >)
        requires
            old(self).inv(),
        ensures
            final(self).inv(),
            result == (if !old(self)@.nodes.contains_key(src) {
                Err(TriviumError::NodeNotFound(src))
            } else if !old(self)@.nodes.contains_key(dst) {
                Err(TriviumError::NodeNotFound(dst))
            } else {
                Ok(())
            }),
            final(self)@ == (if result is Ok {
                old(self)@.link(src, plain_edge(dst, label@, weight))
            } else {
                old(self)@
            }),
    {
        self.upsert_edge(src, dst, label, weight, "null")
    }

    /// Removes the edge from `src` to `dst` under `label`, if there is one.
    pub fn unlink_label(&mut self, src: NodeId, dst: NodeId, label: &str) -> (result: Result<()>)
        requires
            old(self).inv(),
        ensures
            final(self).inv(),
            result == (if old(self)@.nodes.contains_key(src) {
                Ok(())
            } else {
                Err(TriviumError::NodeNotFound(src))
            }),
            final(self)@ == (if result is Ok {
                old(self)@.unlink_label(src, dst, label@)
            } else {
                old(self)@
            }),
    {
        match self.validate_node(src) {
            Ok(()) => {
                self.take_label(src, dst, label);
                Ok(())
            },
            Err(error) => Err(error),
        }
    }

    /// Removes every edge from `src` to `dst`; there need not be any.
    pub fn unlink(&mut self, src: NodeId, dst: NodeId) -> (result: Result<()>)
        requires
            old(self).inv(),
        ensures
            final(self).inv(),
            result == (if old(self)@.nodes.contains_key(src) {
                Ok(())
            } else {
                Err(TriviumError::NodeNotFound(src))
            }),
            final(self)@ == (if result is Ok {
                old(self)@.unlink(src, dst)
            } else {
                old(self)@
            }),
    {
        match self.validate_node(src) {
            Ok(()) => {
                self.take_edges(src, dst);
                Ok(())
            },
            Err(error) => Err(error),
        }
    }

    /// Deletes a node with its vector, its payload, its edges and every edge to it.
    pub fn delete(&mut self, id: NodeId) -> (result: Result<()>)
        requires
            old(self).inv(),
        ensures
            final(self).inv(),
            result == (if old(self)@.nodes.contains_key(id) {
                Ok(())
            } else {
                Err(TriviumError::NodeNotFound(id))
            }),
            final(self)@ == (if result is Ok {
                old(self)@.delete(id)
            } else {
                old(self)@
            }),
    {
        match self.validate_node(id) {
            Ok(()) => {
                self.take(id);
                Ok(())
            },
            Err(error) => Err(error),
        }
    }

    /// Replaces the record of a node by one with the same edges.
    fn replace(&mut self, id: NodeId, vector: Option<Vec<T>>, payload: Option<Payload>)
        requires
            old(self).inv(),
            old(self)@.nodes.contains_key(id),
            vector matches Some(components) ==> components@.len() == old(self)@.dim,
        ensures
            final(self).inv(),
            final(self)@ == (Table {
                nodes: old(self)@.nodes.insert(
                    id,
                    NodeSpec {
                        vector: match vector {
                            Some(components) => components@,
                            None => old(self)@.nodes[id].vector,
                        },
                        payload: match payload {
                            Some(given) => given@,
                            None => old(self)@.nodes[id].payload,
                        },
                        edges: old(self)@.nodes[id].edges,
                    },
                ),
                ..old(self)@
            }),
    {
        let ghost before = *self;
        let ghost nodes = self@.nodes;
        let record = self.records.remove(&id).unwrap();
        proof {
            lemma_record_nodes(before.records@, id, record);
        }
        let changed = Record {
            vector: match vector {
                Some(components) => components,
                None => record.vector,
            },
            payload: match payload {
                Some(given) => given,
                None => record.payload,
            },
            edges: record.edges,
        };
        proof {
            lemma_record_nodes(before.records@.remove(id), id, changed);
            assert(record_nodes(before.records@).remove(id).insert(id, changed.node())
                =~= record_nodes(before.records@).insert(id, changed.node()));
        }
        self.records.insert(id, changed);
        proof {
            assert(self.incoming@.dom() =~= self@.nodes.dom());
            assert forall|target: NodeId, source: NodeId|
                self.incoming@.contains_key(target) implies (
            #[trigger] self.incoming@[target]@.contains(source) <==> (self@.nodes.contains_key(
                source,
            ) && leads_to(self@.nodes[source].edges, target))) by {
                assert(before.incoming@[target]@.contains(source) <==> (nodes.contains_key(source)
                    && leads_to(nodes[source].edges, target)));
            }
            assert forall|source: NodeId, i: int|
                self@.nodes.contains_key(source) && 0 <= i
                    < self@.nodes[source].edges.len() implies self@.nodes.contains_key(
                (#[trigger] self@.nodes[source].edges[i]).target,
            ) by {
                assert(nodes.contains_key(nodes[source].edges[i].target));
            }
        }
    }

    /// Replaces the payload of a node.
    pub fn update_payload(&mut self, id: NodeId, payload: &Payload) -> (result: Result<()>)
        requires
            old(self).inv(),
        ensures
            final(self).inv(),
            result == (if old(self)@.nodes.contains_key(id) {
                Ok(())
            } else {
                Err(TriviumError::NodeNotFound(id))
            }),
            final(self)@ == (if result is Ok {
                old(self)@.set_payload(id, payload@)
            } else {
                old(self)@
            }),
    {
        match self.validate_node(id) {
            Ok(()) => {
                self.replace(id, None, Some(payload.duplicate()));
                Ok(())
            },
            Err(error) => Err(error),
        }
    }

    /// Replaces the vector of a node, as it was logged: one of another dimension is not stored.
    pub fn raw_update_vector(&mut self, id: NodeId, vector: &[T]) -> (stored: bool)
        requires
            old(self).inv(),
        ensures
            final(self).inv(),
            stored == (old(self)@.nodes.contains_key(id) && vector@.len() == old(self)@.dim),
            final(self)@ == (if stored {
                old(self)@.set_vector(id, vector@)
            } else {
                old(self)@
            }),
    {
        if !self.contains(id) || vector.len() != self.dim {
            return false;
        }
        self.replace(id, Some(copy_slice(vector)), None);
        true
    }

    /// Replaces the vector of a node.
    pub fn update_vector(&mut self, id: NodeId, vector: &[T]) -> (result: Result<()>)
        requires
            old(self).inv(),
        ensures
            final(self).inv(),
            result is Ok <==> old(self)@.nodes.contains_key(id) && valid_vector(
                old(self)@.dim,
                vector@,
            ),
            match result {
                Ok(()) => final(self)@ == old(self)@.set_vector(id, vector@),
                Err(error) => final(self)@ == old(self)@ && if !old(self)@.nodes.contains_key(id) {
                    error == TriviumError::NodeNotFound(id)
                } else {
                    is_vector_fault(old(self)@.dim, vector@, error)
                },
            },
    {
        match self.validate_update_vector(id, vector) {
            Ok(()) => {
                self.replace(id, Some(copy_slice(vector)), None);
                Ok(())
            },
            Err(error) => Err(error),
        }
    }

    /// The edges of a node, in the order in which they were first set.
    pub fn get_edges(&self, id: NodeId) -> (result: Option<&Vec<Edge>>)
        ensures
            match result {
                Some(edges) => self@.nodes.contains_key(id) && edge_views(edges@)
                    == self@.nodes[id].edges,
                None => !self@.nodes.contains_key(id),
            },
    {
        match self.records.get(&id) {
            Some(record) => Some(&record.edges),
            None => None,
        }
    }

    /// The payload of a node.
    pub fn get_payload(&self, id: NodeId) -> (result: Option<&Payload>)
        ensures
            match result {
                Some(payload) => self@.nodes.contains_key(id) && payload@
                    == self@.nodes[id].payload,
                None => !self@.nodes.contains_key(id),
            },
    {
        match self.records.get(&id) {
            Some(record) => Some(&record.payload),
            None => None,
        }
    }

    /// The vector of a node.
    pub fn get_vector(&self, id: NodeId) -> (result: Option<&Vec<T>>)
        ensures
            match result {
                Some(vector) => self@.nodes.contains_key(id) && vector@ == self@.nodes[id].vector,
                None => !self@.nodes.contains_key(id),
            },
    {
        match self.records.get(&id) {
            Some(record) => Some(&record.vector),
            None => None,
        }
    }

    /// The number of nodes.
    pub fn node_count(&self) -> (count: usize)
        ensures
            count == self@.nodes.dom().len(),
    {
        proof {
            assert(self@.nodes.dom() =~= self.records@.dom());
        }
        self.records.len()
    }

    /// All identifiers, in ascending order.
    pub fn all_node_ids(&self) -> (ids: Vec<NodeId>)
        ensures
            ids@.to_set() == self@.nodes.dom(),
            increasing(ids@),
    {
        proof {
            assert(self@.nodes.dom() =~= self.records@.dom());
        }
        map_keys(&self.records)
    }

    /// The nodes with an edge to `id`, each once.
    pub fn get_incoming_sources(&self, id: NodeId) -> (sources: Vec<NodeId>)
        requires
            self.inv(),
        ensures
            sources@.no_duplicates(),
            forall|source: NodeId| #[trigger]
                sources@.contains(source) <==> (self@.nodes.contains_key(source) && leads_to(
                    self@.nodes[source].edges,
                    id,
                )),
    {
        match self.incoming.get(&id) {
            Some(sources) => copy_slice(sources.as_slice()),
            None => {
                proof {
                    assert forall|source: NodeId| self@.nodes.contains_key(source) implies !leads_to(
                        self@.nodes[source].edges,
                        id,
                    ) by {
                        if leads_to(self@.nodes[source].edges, id) {
                            let i = choose|i: int|
                                0 <= i < self@.nodes[source].edges.len() && (
                                #[trigger] self@.nodes[source].edges[i]).target == id;
                            assert(self@.nodes.contains_key(self@.nodes[source].edges[i].target));
                        }
                    }
                }
                Vec::new()
            },
        }
    }

    /// The edges to `id`, those with this label where one is given. Each edge comes once.
    pub fn get_incoming_edges(&self, id: NodeId, label: Option<&str>) -> (result: Vec<IncomingEdge>)
        requires
            self.inv(),
        ensures
            forall|k: int|
                0 <= k < result@.len() ==> self@.is_incoming(
                    id,
                    label_view(label),
                    (#[trigger] result@[k])@,
                ),
            forall|edge: IncomingView| #[trigger]
                self@.is_incoming(id, label_view(label), edge) ==> is_listed(result@, edge),
    {
        let sources = self.get_incoming_sources(id);
        let ghost wanted = label_view(label);
        let mut result: Vec<IncomingEdge> = Vec::new();
        let mut k: usize = 0;
        while k < sources.len()
            invariant
                k <= sources@.len(),
                wanted == label_view(label),
                self.inv(),
                forall|source: NodeId| #[trigger]
                    sources@.contains(source) <==> (self@.nodes.contains_key(source) && leads_to(
                        self@.nodes[source].edges,
                        id,
                    )),
                forall|n: int|
                    0 <= n < result@.len() ==> self@.is_incoming(
                        id,
                        wanted,
                        (#[trigger] result@[n])@,
                    ),
                forall|j: int, edge: IncomingView|
                    0 <= j < k && edge.source == #[trigger] sources@[j] && #[trigger] self@.is_incoming(
                        id,
                        wanted,
                        edge,
                    ) ==> is_listed(result@, edge),
            decreases sources@.len() - k,
        {
            let source: NodeId = sources[k];
            assert(sources@.contains(source));
            let edges = self.get_edges(source).unwrap();
            let mut i: usize = 0;
            while i < edges.len()
                invariant
                    i <= edges@.len(),
                    k < sources@.len(),
                    source == sources@[k as int],
                    wanted == label_view(label),
                    self@.nodes.contains_key(source),
                    edge_views(edges@) == self@.nodes[source].edges,
                    forall|n: int|
                        0 <= n < result@.len() ==> self@.is_incoming(
                            id,
                            wanted,
                            (#[trigger] result@[n])@,
                        ),
                    forall|j: int, edge: IncomingView|
                        0 <= j < k && edge.source == #[trigger] sources@[j] && #[trigger] self@.is_incoming(
                            id,
                            wanted,
                            edge,
                        ) ==> is_listed(result@, edge),
                    forall|m: int, edge: IncomingView|
                        0 <= m < i && #[trigger] incoming_of(source, self@.nodes[source].edges[m])
                            == edge && #[trigger] self@.is_incoming(id, wanted, edge)
                            && self@.nodes[source].edges[m].target == id ==> is_listed(result@, edge),
                decreases edges@.len() - i,
            {
                let ghost before = result@;
                let matched = match label {
                    None => true,
                    Some(text) => same_text(edges[i].label.as_str(), text),
                };
                assert(edges@[i as int]@ == self@.nodes[source].edges[i as int]);
                if edges[i].target_id == id && matched {
                    let found = IncomingEdge {
                        source_id: source,
                        label: edges[i].label.clone(),
                        weight: edges[i].weight,
                        metadata: edges[i].metadata.clone(),
                    };
                    result.push(found);
                    proof {
                        let listed = self@.nodes[source].edges[i as int];
                        assert(found@ == incoming_of(source, listed));
                        assert(self@.is_incoming(id, wanted, found@));
                        assert(result@[before.len() as int]@ == found@);
                    }
                }
                proof {
                    assert forall|edge: IncomingView|
                        #[trigger] is_listed(before, edge) implies is_listed(result@, edge) by {
                        let n = choose|n: int|
                            0 <= n < before.len() && (#[trigger] before[n])@ == edge;
                        assert(result@[n]@ == edge);
                    }
                    assert forall|m: int, edge: IncomingView|
                        0 <= m < i + 1 && #[trigger] incoming_of(
                            source,
                            self@.nodes[source].edges[m],
                        ) == edge && #[trigger] self@.is_incoming(id, wanted, edge)
                            && self@.nodes[source].edges[m].target == id implies is_listed(result@, edge) by {
                        if m == i {
                            assert(wanted matches Some(text) ==> edge.label == text);
                            assert(result@[before.len() as int]@ == edge);
                        }
                    }
                }
                i += 1;
            }
            proof {
                assert forall|j: int, edge: IncomingView|
                    0 <= j < k + 1 && edge.source == #[trigger] sources@[j] && #[trigger] self@.is_incoming(
                        id,
                        wanted,
                        edge,
                    ) implies is_listed(result@, edge) by {
                    if j == k {
                        let m = choose|m: int|
                            0 <= m < self@.nodes[source].edges.len() && #[trigger] incoming_of(
                                source,
                                self@.nodes[source].edges[m],
                            ) == edge && self@.nodes[source].edges[m].target == id;
                        assert(incoming_of(source, self@.nodes[source].edges[m]) == edge);
                    }
                }
            }
            k += 1;
        }
        proof {
            assert forall|edge: IncomingView| #[trigger]
                self@.is_incoming(id, wanted, edge) implies is_listed(result@, edge) by {
                let m = choose|m: int|
                    0 <= m < self@.nodes[edge.source].edges.len() && #[trigger] incoming_of(
                        edge.source,
                        self@.nodes[edge.source].edges[m],
                    ) == edge && self@.nodes[edge.source].edges[m].target == id;
                assert(self@.nodes[edge.source].edges[m].target == id);
                assert(leads_to(self@.nodes[edge.source].edges, id));
                assert(sources@.contains(edge.source));
                let j = choose|j: int| 0 <= j < sources@.len() && sources@[j] == edge.source;
                assert(edge.source == sources@[j]);
            }
        }
        result
    }
}

} // verus!
