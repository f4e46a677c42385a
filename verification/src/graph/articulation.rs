//! Nodes whose loss breaks a graph apart.
use std::collections::{BTreeMap, BTreeSet};
use vstd::prelude::*;

use crate::collections::map_keys;
use crate::graph::subset::lemma_closed_reaches;
use crate::graph::walk::{lemma_reaches_step, lemma_reaches_transitive, reaches, Adjacency};
use crate::graph::workspace::{lists, GraphWorkspace};
use crate::node::NodeId;

verus! {

/// The steps along edges in either direction that keep off one node.
pub open spec fn without(graph: &GraphWorkspace, cut: NodeId) -> Adjacency {
    |a: NodeId, b: NodeId| a != cut && b != cut && graph.joined(a, b)
}

/// Whether the loss of a node separates two others that reached each other.
pub open spec fn is_cut(graph: &GraphWorkspace, cut: NodeId) -> bool {
    exists|a: NodeId, b: NodeId|
        a != cut && b != cut && #[trigger] reaches(graph.links(), a, b) && !(
        #[trigger] reaches(without(graph, cut), a, b))
}

/// The state of a depth first search: when each node was discovered, how early a node its subtree
/// is joined to, by which node it was discovered, when its subtree was complete, and the nodes in
/// progress with the number of neighbours looked at.
pub struct Search {
    pub disc: Map<NodeId, usize>,
    pub low: Map<NodeId, usize>,
    pub parent: Map<NodeId, NodeId>,
    pub last: Map<NodeId, nat>,
    pub stack: Seq<(NodeId, usize)>,
    pub time: nat,
}

impl Search {
    /// Whether a node was discovered by another.
    pub open spec fn is_child(&self, id: NodeId, of: NodeId) -> bool {
        self.parent.contains_key(id) && self.parent[id] == of
    }

    /// Whether a node is in progress.
    pub open spec fn is_active(&self, id: NodeId) -> bool {
        exists|i: int| 0 <= i < self.stack.len() && (#[trigger] self.stack[i]).0 == id
    }

    /// Whether a node is another or was discovered on the way from it.
    pub open spec fn is_over(&self, top: NodeId, id: NodeId) -> bool
        decreases self.disc[id],
    {
        top == id || (self.parent.contains_key(id) && self.disc[self.parent[id]] < self.disc[id]
            && self.is_over(top, self.parent[id]))
    }

    /// Discovery times are different, and a parent is discovered before its children.
    pub open spec fn has_tree(&self, graph: &GraphWorkspace) -> bool {
        &&& self.low.dom() == self.disc.dom()
        &&& forall|id: NodeId| #[trigger]
            self.disc.contains_key(id) ==> graph.nodes().contains(id) && 1 <= self.disc[id]
                <= self.time
        &&& forall|a: NodeId, b: NodeId|
            #![trigger self.disc[a], self.disc[b]]
            self.disc.contains_key(a) && self.disc.contains_key(b) && self.disc[a] == self.disc[b]
                ==> a == b
        &&& forall|id: NodeId| #[trigger]
            self.parent.contains_key(id) ==> {
                &&& self.disc.contains_key(id)
                &&& self.disc.contains_key(self.parent[id])
                &&& self.disc[self.parent[id]] < self.disc[id]
                &&& graph.joined(self.parent[id], id)
            }
    }

    /// The nodes in progress lead from a root to the current node.
    pub open spec fn has_stack(&self, graph: &GraphWorkspace) -> bool {
        &&& forall|i: int|
            0 <= i < self.stack.len() ==> self.disc.contains_key((#[trigger] self.stack[i]).0)
                && self.stack[i].1 <= graph.undirected@[self.stack[i].0]@.len()
        &&& self.stack.len() > 0 ==> !self.parent.contains_key(self.stack[0].0)
        &&& forall|i: int|
            0 < i < self.stack.len() ==> self.parent.contains_key((#[trigger] self.stack[i]).0)
                && self.parent[self.stack[i].0] == self.stack[i - 1].0
    }

    /// What was discovered on the way from a node: for one in progress everything since, for a
    /// complete one everything until it was complete.
    pub open spec fn has_intervals(&self) -> bool {
        &&& forall|id: NodeId| #[trigger]
            self.last.contains_key(id) <==> self.disc.contains_key(id) && !self.is_active(id)
        &&& forall|id: NodeId| #[trigger]
            self.last.contains_key(id) ==> self.disc[id] <= self.last[id] <= self.time
        &&& forall|top: NodeId, id: NodeId|
            self.is_active(top) && self.disc.contains_key(id) ==> (#[trigger] self.is_over(top, id)
                <==> self.disc[id] >= self.disc[top])
        &&& forall|top: NodeId, id: NodeId|
            self.last.contains_key(top) && self.disc.contains_key(id) ==> (
            #[trigger] self.is_over(top, id) <==> self.disc[top] <= self.disc[id]
                <= self.last[top])
    }

    /// The neighbours of a complete node were discovered before it was complete; those of a node
    /// in progress as far as they were looked at.
    pub open spec fn has_neighbors(&self, graph: &GraphWorkspace) -> bool {
        &&& forall|id: NodeId, other: NodeId|
            self.last.contains_key(id) && #[trigger] graph.joined(id, other)
                ==> self.disc.contains_key(other) && self.disc[other] <= self.last[id]
        &&& forall|i: int, k: int|
            0 <= i < self.stack.len() && 0 <= k < self.stack[i].1 ==> self.disc.contains_key(
                #[trigger] graph.undirected@[self.stack[i].0]@[k],
            )
    }

    /// Whether a node is joined to another that did not discover it.
    pub open spec fn is_back(&self, graph: &GraphWorkspace, from: NodeId, to: NodeId) -> bool {
        graph.joined(from, to) && !self.is_child(from, to)
    }

    /// How early a node the subtree of each node is joined to.
    pub open spec fn has_lows(&self, graph: &GraphWorkspace) -> bool {
        &&& forall|id: NodeId| #[trigger]
            self.disc.contains_key(id) ==> self.low[id] <= self.disc[id]
        &&& forall|id: NodeId| #[trigger]
            self.disc.contains_key(id) ==> self.low[id] == self.disc[id] || self.has_witness(
                graph,
                id,
            )
        &&& forall|id: NodeId, child: NodeId|
            self.last.contains_key(child) && #[trigger] self.is_child(child, id) ==> self.low[id]
                <= self.low[child]
        &&& forall|i: int, k: int|
            0 <= i < self.stack.len() && 0 <= k < self.stack[i].1 && !self.is_child(
                self.stack[i].0,
                graph.undirected@[self.stack[i].0]@[k],
            ) ==> self.low[self.stack[i].0]
                <= self.disc[#[trigger] graph.undirected@[self.stack[i].0]@[k]]
        &&& forall|top: NodeId, id: NodeId, other: NodeId|
            self.last.contains_key(top) && #[trigger] self.is_over(top, id)
                && self.disc.contains_key(id) && #[trigger] self.is_back(graph, id, other)
                ==> self.low[top] <= self.disc[other]
    }

    /// Whether a node of the subtree is joined to the node that the low time names.
    pub open spec fn has_witness(&self, graph: &GraphWorkspace, top: NodeId) -> bool {
        exists|id: NodeId, other: NodeId|
            self.disc.contains_key(id) && self.disc.contains_key(other) && #[trigger] self.is_over(
                top,
                id,
            ) && #[trigger] self.is_back(graph, id, other) && self.disc[other] == self.low[top]
    }

    /// Everything that a depth first search keeps.
    pub open spec fn is_sound(&self, graph: &GraphWorkspace) -> bool {
        &&& self.has_tree(graph)
        &&& self.has_stack(graph)
        &&& self.has_intervals()
        &&& self.has_neighbors(graph)
        &&& self.has_lows(graph)
    }
}

/// What is over a discovered node is discovered, and no later.
proof fn lemma_over(search: Search, graph: &GraphWorkspace, top: NodeId, id: NodeId)
    requires
        search.has_tree(graph),
        search.disc.contains_key(id),
        search.is_over(top, id),
    ensures
        search.disc.contains_key(top),
        search.disc[top] <= search.disc[id],
        search.disc[top] == search.disc[id] ==> top == id,
    decreases search.disc[id],
{
    if top != id {
        lemma_over(search, graph, top, search.parent[id]);
    }
}

/// Being over is transitive.
proof fn lemma_over_transitive(
    search: Search,
    graph: &GraphWorkspace,
    a: NodeId,
    b: NodeId,
    c: NodeId,
)
    requires
        search.has_tree(graph),
        search.disc.contains_key(c),
        search.is_over(a, b),
        search.is_over(b, c),
    ensures
        search.is_over(a, c),
    decreases search.disc[c],
{
    if b != c {
        lemma_over_transitive(search, graph, a, b, search.parent[c]);
    }
}

/// What is below a node but not the node is below one of its children.
proof fn lemma_child_between(
    search: Search,
    graph: &GraphWorkspace,
    top: NodeId,
    id: NodeId,
) -> (child: NodeId)
    requires
        search.has_tree(graph),
        search.disc.contains_key(id),
        search.is_over(top, id),
        top != id,
    ensures
        search.is_child(child, top),
        search.is_over(child, id),
        search.disc.contains_key(child),
    decreases search.disc[id],
{
    if search.parent[id] == top {
        assert(search.is_over(id, id));
        id
    } else {
        let child = lemma_child_between(search, graph, top, search.parent[id]);
        assert(search.is_over(child, id));
        child
    }
}

/// The nodes over one in progress are those in progress before it.
proof fn lemma_over_active(search: Search, graph: &GraphWorkspace, top: NodeId, i: int)
    requires
        search.has_tree(graph),
        search.has_stack(graph),
        0 <= i < search.stack.len(),
        search.is_over(top, search.stack[i].0),
    ensures
        search.is_active(top),
    decreases i,
{
    if top == search.stack[i].0 {
        assert(search.stack[i].0 == top);
    } else if i == 0 {
        assert(search.stack[0].0 == search.stack[i].0);
    } else {
        assert(search.parent[search.stack[i].0] == search.stack[i - 1].0);
        lemma_over_active(search, graph, top, i - 1);
    }
}

/// Nodes further up the stack were discovered earlier.
proof fn lemma_stack_order(search: Search, graph: &GraphWorkspace, i: int, j: int)
    requires
        search.has_tree(graph),
        search.has_stack(graph),
        0 <= i < j < search.stack.len(),
    ensures
        search.disc[search.stack[i].0] < search.disc[search.stack[j].0],
        search.stack[i].0 != search.stack[j].0,
    decreases j - i,
{
    assert(search.parent.contains_key(search.stack[j].0));
    assert(search.parent[search.stack[j].0] == search.stack[j - 1].0);
    if i < j - 1 {
        lemma_stack_order(search, graph, i, j - 1);
    }
}

/// Discovering a node does not change what is over the nodes known before.
proof fn lemma_over_kept(
    before: Search,
    after: Search,
    graph: &GraphWorkspace,
    new: NodeId,
    top: NodeId,
    id: NodeId,
)
    requires
        before.has_tree(graph),
        before.disc.contains_key(id),
        !before.disc.contains_key(new),
        after.disc == before.disc.insert(new, after.disc[new]),
        forall|other: NodeId| other != new ==> (#[trigger] after.parent.contains_key(other)
            <==> before.parent.contains_key(other)),
        forall|other: NodeId| #[trigger]
            before.parent.contains_key(other) ==> after.parent[other] == before.parent[other],
    ensures
        after.is_over(top, id) <==> before.is_over(top, id),
        !before.is_over(new, id),
    decreases before.disc[id],
{
    assert(id != new);
    if before.parent.contains_key(id) {
        let up = before.parent[id];
        assert(after.parent[id] == up);
        assert(before.disc.contains_key(up));
        assert(up != new);
        assert(after.disc[up] == before.disc[up] && after.disc[id] == before.disc[id]);
        lemma_over_kept(before, after, graph, new, top, up);
    }
}

/// The earlier of two times.
pub open spec fn earlier(a: usize, b: usize) -> usize {
    if a <= b {
        a
    } else {
        b
    }
}

impl Search {
    /// The state after a root has been discovered.
    pub open spec fn started(self, root: NodeId) -> Search {
        Search {
            disc: self.disc.insert(root, (self.time + 1) as usize),
            low: self.low.insert(root, (self.time + 1) as usize),
            stack: seq![(root, 0usize)],
            time: self.time + 1,
            ..self
        }
    }

    /// The stack after one more neighbour of the current node has been looked at.
    pub open spec fn looked(self) -> Seq<(NodeId, usize)> {
        self.stack.drop_last().push((self.stack.last().0, (self.stack.last().1 + 1) as usize))
    }

    /// The state after the current node has discovered a neighbour.
    pub open spec fn descended(self, new: NodeId) -> Search {
        Search {
            disc: self.disc.insert(new, (self.time + 1) as usize),
            low: self.low.insert(new, (self.time + 1) as usize),
            parent: self.parent.insert(new, self.stack.last().0),
            stack: self.looked().push((new, 0usize)),
            time: self.time + 1,
            ..self
        }
    }

    /// The state after the current node has looked at a neighbour that was known.
    pub open spec fn glanced(self, other: NodeId) -> Search {
        let node = self.stack.last().0;
        Search {
            low: if self.is_child(node, other) {
                self.low
            } else {
                self.low.insert(node, earlier(self.low[node], self.disc[other]))
            },
            stack: self.looked(),
            ..self
        }
    }

    /// The state after the current node is complete.
    pub open spec fn finished(self) -> Search {
        let node = self.stack.last().0;
        Search {
            low: if self.parent.contains_key(node) {
                self.low.insert(
                    self.parent[node],
                    earlier(self.low[self.parent[node]], self.low[node]),
                )
            } else {
                self.low
            },
            last: self.last.insert(node, self.time),
            stack: self.stack.drop_last(),
            ..self
        }
    }
}

/// A new root keeps everything.
proof fn lemma_started(search: Search, graph: &GraphWorkspace, root: NodeId)
    requires
        graph.well_formed(),
        search.is_sound(graph),
        search.stack.len() == 0,
        graph.nodes().contains(root),
        !search.disc.contains_key(root),
        search.time < usize::MAX,
    ensures
        search.started(root).is_sound(graph),
{
    let after = search.started(root);
    assert(after.has_tree(graph)) by {
        assert(after.low.dom() =~= after.disc.dom());
        assert forall|id: NodeId| #[trigger] after.parent.contains_key(id) implies {
            &&& after.disc.contains_key(id)
            &&& after.disc.contains_key(after.parent[id])
            &&& after.disc[after.parent[id]] < after.disc[id]
            &&& graph.joined(after.parent[id], id)
        } by {
            assert(search.parent.contains_key(id));
            assert(search.disc.contains_key(id) && search.disc.contains_key(search.parent[id]));
        }
    }
    assert forall|top: NodeId, id: NodeId| search.disc.contains_key(id) implies (
    #[trigger] after.is_over(top, id) <==> search.is_over(top, id)) && !search.is_over(root, id) by {
        lemma_over_kept(search, after, graph, root, top, id);
    }
    assert(!search.parent.contains_key(root));
    assert forall|id: NodeId| #[trigger] after.is_active(id) <==> id == root by {
        if id == root {
            assert(after.stack[0].0 == root);
        }
    }
    assert forall|id: NodeId| !(#[trigger] search.is_active(id)) by {}
    assert(after.has_intervals()) by {
        assert forall|top: NodeId, id: NodeId|
            after.last.contains_key(top) && after.disc.contains_key(id) implies (
        #[trigger] after.is_over(top, id) <==> after.disc[top] <= after.disc[id]
            <= after.last[top]) by {
            assert(search.disc.contains_key(top));
            if id != root {
                assert(search.is_over(top, id) <==> search.disc[top] <= search.disc[id]
                    <= search.last[top]);
            }
        }
        assert forall|top: NodeId, id: NodeId|
            after.is_active(top) && after.disc.contains_key(id) implies (
        #[trigger] after.is_over(top, id) <==> after.disc[id] >= after.disc[top]) by {
            if id != root {
                assert(search.disc.contains_key(id));
            }
        }
    }
    assert(after.has_neighbors(graph));
    assert(after.has_lows(graph)) by {
        assert forall|id: NodeId| #[trigger] after.disc.contains_key(id) implies after.low[id]
            == after.disc[id] || after.has_witness(graph, id) by {
            if id != root && search.low[id] != search.disc[id] {
                lemma_witness_kept(search, after, graph, id, root);
            }
        }
        assert forall|id: NodeId, child: NodeId|
            after.last.contains_key(child) && #[trigger] after.is_child(child, id) implies
            after.low[id] <= after.low[child] by {
            assert(search.is_child(child, id));
            assert(search.disc.contains_key(child));
            assert(search.parent.contains_key(child));
        }
        assert forall|top: NodeId, id: NodeId, other: NodeId|
            after.last.contains_key(top) && #[trigger] after.is_over(top, id)
                && after.disc.contains_key(id) && #[trigger] after.is_back(
                graph,
                id,
                other,
            ) implies after.low[top] <= after.disc[other] by {
            assert(search.disc.contains_key(top));
            assert(id != root);
            assert(search.is_over(top, id));
            assert(search.is_back(graph, id, other));
        }
    }
}

/// A witness stays one when a node is discovered.
proof fn lemma_witness_kept(
    before: Search,
    after: Search,
    graph: &GraphWorkspace,
    top: NodeId,
    new: NodeId,
)
    requires
        before.has_tree(graph),
        before.has_witness(graph, top),
        before.disc.contains_key(top),
        !before.disc.contains_key(new),
        after.disc == before.disc.insert(new, after.disc[new]),
        after.low[top] == before.low[top],
        forall|other: NodeId| other != new ==> (#[trigger] after.parent.contains_key(other)
            <==> before.parent.contains_key(other)),
        forall|other: NodeId| #[trigger]
            before.parent.contains_key(other) ==> after.parent[other] == before.parent[other],
    ensures
        after.has_witness(graph, top),
{
    let (id, other) = choose|id: NodeId, other: NodeId|
        before.disc.contains_key(id) && before.disc.contains_key(other) && #[trigger] before.is_over(
            top,
            id,
        ) && #[trigger] before.is_back(graph, id, other) && before.disc[other] == before.low[top];
    lemma_over_kept(before, after, graph, new, top, id);
    assert(after.is_over(top, id));
    assert(after.is_back(graph, id, other));
}

/// Discovering a neighbour keeps everything.
proof fn lemma_descended(search: Search, graph: &GraphWorkspace, new: NodeId)
    requires
        graph.well_formed(),
        search.is_sound(graph),
        search.stack.len() > 0,
        search.stack.last().1 < graph.undirected@[search.stack.last().0]@.len(),
        graph.undirected@[search.stack.last().0]@[search.stack.last().1 as int] == new,
        !search.disc.contains_key(new),
        graph.nodes().contains(new),
        graph.joined(search.stack.last().0, new),
        search.time < usize::MAX,
    ensures
        search.descended(new).is_sound(graph),
{
    let after = search.descended(new);
    let top_at = search.stack.len() - 1;
    let node = search.stack.last().0;
    assert(search.disc.contains_key(search.stack[top_at].0));
    assert(!search.parent.contains_key(new));
    assert(after.has_tree(graph)) by {
        assert(after.low.dom() =~= after.disc.dom());
        assert forall|id: NodeId| #[trigger] after.parent.contains_key(id) implies {
            &&& after.disc.contains_key(id)
            &&& after.disc.contains_key(after.parent[id])
            &&& after.disc[after.parent[id]] < after.disc[id]
            &&& graph.joined(after.parent[id], id)
        } by {
            if id != new {
                assert(search.parent.contains_key(id));
                assert(search.disc.contains_key(id) && search.disc.contains_key(
                    search.parent[id],
                ));
            }
        }
    }
    assert forall|top: NodeId, id: NodeId| search.disc.contains_key(id) implies (
    #[trigger] after.is_over(top, id) <==> search.is_over(top, id)) && !search.is_over(new, id) by {
        lemma_over_kept(search, after, graph, new, top, id);
    }
    assert forall|i: int| 0 <= i < after.stack.len() implies (#[trigger] after.stack[i]).0 == if i
        < search.stack.len() {
        search.stack[i].0
    } else {
        new
    } by {}
    assert forall|id: NodeId| #[trigger] after.is_active(id) <==> search.is_active(id) || id
        == new by {
        if search.is_active(id) {
            let i = choose|i: int| 0 <= i < search.stack.len() && (#[trigger] search.stack[i]).0 == id;
            assert(after.stack[i].0 == id);
        }
        if id == new {
            assert(after.stack[search.stack.len() as int].0 == new);
        }
        if after.is_active(id) {
            let i = choose|i: int| 0 <= i < after.stack.len() && (#[trigger] after.stack[i]).0 == id;
            if i < search.stack.len() {
                assert(search.stack[i].0 == id);
            }
        }
    }
    assert(!search.is_active(new)) by {
        if search.is_active(new) {
            let i = choose|i: int| 0 <= i < search.stack.len() && (#[trigger] search.stack[i]).0 == new;
            assert(search.disc.contains_key(search.stack[i].0));
        }
    }
    assert(after.has_stack(graph)) by {
        assert forall|i: int| 0 <= i < after.stack.len() implies after.disc.contains_key(
            (#[trigger] after.stack[i]).0,
        ) && after.stack[i].1 <= graph.undirected@[after.stack[i].0]@.len() by {
            if i < search.stack.len() {
                assert(search.disc.contains_key(search.stack[i].0));
            }
        }
        assert(!after.parent.contains_key(after.stack[0].0)) by {
            assert(search.disc.contains_key(search.stack[0].0));
            assert(after.stack[0].0 == search.stack[0].0);
        }
        assert forall|i: int| 0 < i < after.stack.len() implies after.parent.contains_key(
            (#[trigger] after.stack[i]).0,
        ) && after.parent[after.stack[i].0] == after.stack[i - 1].0 by {
            assert(after.stack[i - 1].0 == search.stack[i - 1].0);
            if i < search.stack.len() {
                assert(search.parent.contains_key(search.stack[i].0));
                assert(search.disc.contains_key(search.stack[i].0));
            }
        }
    }
    lemma_descended_intervals(search, graph, new);
    assert(after.has_neighbors(graph)) by {
        assert forall|i: int, k: int|
            0 <= i < after.stack.len() && 0 <= k < after.stack[i].1 implies after.disc.contains_key(
            #[trigger] graph.undirected@[after.stack[i].0]@[k],
        ) by {
            assert(after.stack[i].0 == search.stack[i].0);
            if i < top_at || k < search.stack[i].1 {
                assert(search.disc.contains_key(graph.undirected@[search.stack[i].0]@[k]));
            }
        }
    }
    assert(after.has_lows(graph)) by {
        assert forall|id: NodeId| #[trigger] after.disc.contains_key(id) implies after.low[id]
            == after.disc[id] || after.has_witness(graph, id) by {
            if id != new && search.low[id] != search.disc[id] {
                lemma_witness_kept(search, after, graph, id, new);
            }
        }
        assert forall|id: NodeId, child: NodeId|
            after.last.contains_key(child) && #[trigger] after.is_child(child, id) implies
            after.low[id] <= after.low[child] by {
            assert(search.disc.contains_key(child));
            assert(search.is_child(child, id));
            assert(search.parent.contains_key(child));
        }
        assert forall|i: int, k: int|
            0 <= i < after.stack.len() && 0 <= k < after.stack[i].1 && !after.is_child(
                after.stack[i].0,
                graph.undirected@[after.stack[i].0]@[k],
            ) implies after.low[after.stack[i].0]
            <= after.disc[#[trigger] graph.undirected@[after.stack[i].0]@[k]] by {
            assert(after.stack[i].0 == search.stack[i].0);
            assert(search.disc.contains_key(search.stack[i].0));
            if i < top_at || k < search.stack[i].1 {
                let other = graph.undirected@[search.stack[i].0]@[k];
                assert(search.disc.contains_key(graph.undirected@[search.stack[i].0]@[k]));
                assert(!search.is_child(search.stack[i].0, other));
            }
        }
        assert forall|top: NodeId, id: NodeId, other: NodeId|
            after.last.contains_key(top) && #[trigger] after.is_over(top, id)
                && after.disc.contains_key(id) && #[trigger] after.is_back(
                graph,
                id,
                other,
            ) implies after.low[top] <= after.disc[other] by {
            assert(search.disc.contains_key(top));
            if id == new {
                assert(after.is_over(top, node));
                assert(search.is_over(top, node));
                lemma_over_active(search, graph, top, top_at);
            } else {
                assert(search.is_over(top, id));
                assert(search.is_back(graph, id, other));
            }
        }
    }
}

/// Discovering a neighbour keeps what is known of subtrees.
proof fn lemma_descended_intervals(search: Search, graph: &GraphWorkspace, new: NodeId)
    requires
        graph.well_formed(),
        search.is_sound(graph),
        search.stack.len() > 0,
        search.time < usize::MAX,
        !search.disc.contains_key(new),
        search.descended(new).has_tree(graph),
        forall|top: NodeId, id: NodeId|
            search.disc.contains_key(id) ==> (#[trigger] search.descended(new).is_over(top, id)
                <==> search.is_over(top, id)) && !search.is_over(new, id),
        forall|id: NodeId| #[trigger]
            search.descended(new).is_active(id) <==> search.is_active(id) || id == new,
        !search.is_active(new),
    ensures
        search.descended(new).has_intervals(),
{
    let after = search.descended(new);
    let top_at = search.stack.len() - 1;
    let node = search.stack.last().0;
    assert(search.stack[top_at].0 == node);
    assert(search.disc.contains_key(search.stack[top_at].0));
    assert forall|top: NodeId| #[trigger] after.is_over(top, new) <==> top == new || search.is_over(
        top,
        node,
    ) by {
        assert(after.parent.contains_key(new));
        assert(after.is_over(top, node) <==> search.is_over(top, node));
    }
    assert forall|id: NodeId| #[trigger] after.last.contains_key(id) <==> after.disc.contains_key(id)
        && !after.is_active(id) by {
        assert(search.last.contains_key(id) <==> search.disc.contains_key(id)
            && !search.is_active(id));
    }
    assert forall|top: NodeId, id: NodeId|
        after.is_active(top) && after.disc.contains_key(id) implies (#[trigger] after.is_over(
        top,
        id,
    ) <==> after.disc[id] >= after.disc[top]) by {
        if top == new {
            if id != new {
                assert(search.disc.contains_key(id));
            }
        } else {
            let i = choose|i: int| 0 <= i < search.stack.len() && (#[trigger] search.stack[i]).0 == top;
            assert(search.disc.contains_key(search.stack[i].0));
            if id == new {
                if i < top_at {
                    lemma_stack_order(search, graph, i, top_at);
                }
                assert(search.is_over(top, node) <==> search.disc[node] >= search.disc[top]);
            } else {
                assert(search.disc.contains_key(id));
                assert(search.is_over(top, id) <==> search.disc[id] >= search.disc[top]);
            }
        }
    }
    assert forall|top: NodeId, id: NodeId|
        after.last.contains_key(top) && after.disc.contains_key(id) implies (
    #[trigger] after.is_over(top, id) <==> after.disc[top] <= after.disc[id] <= after.last[top]) by {
        assert(search.disc.contains_key(top));
        if id == new {
            if search.is_over(top, node) {
                lemma_over_active(search, graph, top, top_at);
            }
        } else {
            assert(search.is_over(top, id) <==> search.disc[top] <= search.disc[id]
                <= search.last[top]);
        }
    }
}

/// What is over what depends on discovery alone.
proof fn lemma_over_same(before: Search, after: Search, top: NodeId, id: NodeId)
    requires
        after.disc == before.disc,
        after.parent == before.parent,
    ensures
        after.is_over(top, id) == before.is_over(top, id),
    decreases before.disc[id],
{
    if top != id && before.parent.contains_key(id) && before.disc[before.parent[id]]
        < before.disc[id] {
        lemma_over_same(before, after, top, before.parent[id]);
    }
}

/// Looking at a known neighbour keeps everything.
proof fn lemma_glanced(search: Search, graph: &GraphWorkspace, other: NodeId)
    requires
        graph.well_formed(),
        search.is_sound(graph),
        search.stack.len() > 0,
        search.stack.last().1 < graph.undirected@[search.stack.last().0]@.len(),
        graph.undirected@[search.stack.last().0]@[search.stack.last().1 as int] == other,
        graph.joined(search.stack.last().0, other),
        search.disc.contains_key(other),
    ensures
        search.glanced(other).is_sound(graph),
{
    let after = search.glanced(other);
    let top_at = search.stack.len() - 1;
    let node = search.stack.last().0;
    assert(search.stack[top_at].0 == node);
    assert(search.disc.contains_key(search.stack[top_at].0));
    assert forall|top: NodeId, id: NodeId| #[trigger]
        after.is_over(top, id) == search.is_over(top, id) by {
        lemma_over_same(search, after, top, id);
    }
    assert forall|i: int| 0 <= i < after.stack.len() implies (#[trigger] after.stack[i]).0
        == search.stack[i].0 by {}
    assert forall|id: NodeId| #[trigger] after.is_active(id) <==> search.is_active(id) by {
        if search.is_active(id) {
            let i = choose|i: int| 0 <= i < search.stack.len() && (#[trigger] search.stack[i]).0 == id;
            assert(after.stack[i].0 == id);
        }
        if after.is_active(id) {
            let i = choose|i: int| 0 <= i < after.stack.len() && (#[trigger] after.stack[i]).0 == id;
            assert(search.stack[i].0 == id);
        }
    }
    assert(search.is_active(node)) by {
        assert(search.stack[top_at].0 == node);
    }
    assert(after.low.dom() =~= search.low.dom());
    assert(after.has_tree(graph));
    assert(after.has_stack(graph)) by {
        assert forall|i: int| 0 <= i < after.stack.len() implies after.disc.contains_key(
            (#[trigger] after.stack[i]).0,
        ) && after.stack[i].1 <= graph.undirected@[after.stack[i].0]@.len() by {
            assert(search.disc.contains_key(search.stack[i].0));
        }
        assert(after.stack[0].0 == search.stack[0].0);
        assert forall|i: int| 0 < i < after.stack.len() implies after.parent.contains_key(
            (#[trigger] after.stack[i]).0,
        ) && after.parent[after.stack[i].0] == after.stack[i - 1].0 by {
            assert(search.parent.contains_key(search.stack[i].0));
            assert(after.stack[i - 1].0 == search.stack[i - 1].0);
        }
    }
    assert(after.has_intervals()) by {
        assert forall|id: NodeId| #[trigger] after.last.contains_key(id)
            <==> after.disc.contains_key(id) && !after.is_active(id) by {
            assert(search.last.contains_key(id) <==> search.disc.contains_key(id)
                && !search.is_active(id));
        }
        assert forall|top: NodeId, id: NodeId|
            after.is_active(top) && after.disc.contains_key(id) implies (
        #[trigger] after.is_over(top, id) <==> after.disc[id] >= after.disc[top]) by {
            assert(search.is_active(top));
            assert(search.is_over(top, id) <==> search.disc[id] >= search.disc[top]);
        }
        assert forall|top: NodeId, id: NodeId|
            after.last.contains_key(top) && after.disc.contains_key(id) implies (
        #[trigger] after.is_over(top, id) <==> after.disc[top] <= after.disc[id]
            <= after.last[top]) by {
            assert(search.is_over(top, id) <==> search.disc[top] <= search.disc[id]
                <= search.last[top]);
        }
    }
    assert(after.has_neighbors(graph)) by {
        assert forall|i: int, k: int|
            0 <= i < after.stack.len() && 0 <= k < after.stack[i].1 implies after.disc.contains_key(
            #[trigger] graph.undirected@[after.stack[i].0]@[k],
        ) by {
            assert(after.stack[i].0 == search.stack[i].0);
            if i < top_at || k < search.stack[i].1 {
                assert(search.disc.contains_key(graph.undirected@[search.stack[i].0]@[k]));
            }
        }
    }
    assert(after.has_lows(graph)) by {
        assert forall|id: NodeId| #[trigger] after.disc.contains_key(id) implies after.low[id]
            <= search.low[id] && after.low[id] <= after.disc[id] by {
            assert(search.disc.contains_key(id));
        }
        assert forall|id: NodeId| #[trigger] after.disc.contains_key(id) implies after.low[id]
            == after.disc[id] || after.has_witness(graph, id) by {
            assert(search.disc.contains_key(id));
            if after.low[id] != search.low[id] {
                assert(id == node);
                assert(after.is_over(node, node));
                assert(after.is_back(graph, node, other));
                assert(after.disc[other] == after.low[node]);
            } else if search.low[id] != search.disc[id] {
                let (x, y) = choose|x: NodeId, y: NodeId|
                    search.disc.contains_key(x) && search.disc.contains_key(y)
                        && #[trigger] search.is_over(id, x) && #[trigger] search.is_back(
                        graph,
                        x,
                        y,
                    ) && search.disc[y] == search.low[id];
                assert(after.is_over(id, x));
                assert(after.is_back(graph, x, y));
            }
        }
        assert forall|id: NodeId, child: NodeId|
            after.last.contains_key(child) && #[trigger] after.is_child(child, id) implies
            after.low[id] <= after.low[child] by {
            assert(search.is_child(child, id));
            assert(search.parent.contains_key(child));
            assert(!search.is_active(child));
            assert(child != node);
        }
        assert forall|i: int, k: int|
            0 <= i < after.stack.len() && 0 <= k < after.stack[i].1 && !after.is_child(
                after.stack[i].0,
                graph.undirected@[after.stack[i].0]@[k],
            ) implies after.low[after.stack[i].0]
            <= after.disc[#[trigger] graph.undirected@[after.stack[i].0]@[k]] by {
            assert(after.stack[i].0 == search.stack[i].0);
            assert(search.disc.contains_key(search.stack[i].0));
            if i < top_at || k < search.stack[i].1 {
                assert(!search.is_child(
                    search.stack[i].0,
                    graph.undirected@[search.stack[i].0]@[k],
                ));
                assert(search.low[search.stack[i].0]
                    <= search.disc[graph.undirected@[search.stack[i].0]@[k]]);
            }
        }
        assert forall|top: NodeId, id: NodeId, to: NodeId|
            after.last.contains_key(top) && #[trigger] after.is_over(top, id)
                && after.disc.contains_key(id) && #[trigger] after.is_back(graph, id, to) implies
            after.low[top] <= after.disc[to] by {
            assert(search.is_over(top, id));
            assert(search.is_back(graph, id, to));
            assert(!search.is_active(top));
            assert(top != node);
        }
    }
}

/// Completing a node keeps everything.
proof fn lemma_finished(search: Search, graph: &GraphWorkspace)
    requires
        graph.well_formed(),
        search.is_sound(graph),
        search.stack.len() > 0,
        search.stack.last().1 == graph.undirected@[search.stack.last().0]@.len(),
    ensures
        search.finished().is_sound(graph),
{
    let after = search.finished();
    let top_at = search.stack.len() - 1;
    let node = search.stack.last().0;
    assert(search.stack[top_at].0 == node);
    assert(search.disc.contains_key(search.stack[top_at].0));
    assert(search.is_active(node));
    assert forall|top: NodeId, id: NodeId| #[trigger]
        after.is_over(top, id) == search.is_over(top, id) by {
        lemma_over_same(search, after, top, id);
    }
    assert forall|id: NodeId| #[trigger] after.is_active(id) <==> search.is_active(id) && id
        != node by {
        if after.is_active(id) {
            let i = choose|i: int| 0 <= i < after.stack.len() && (#[trigger] after.stack[i]).0 == id;
            assert(search.stack[i].0 == id);
            lemma_stack_order(search, graph, i, top_at);
        }
        if search.is_active(id) && id != node {
            let i = choose|i: int| 0 <= i < search.stack.len() && (#[trigger] search.stack[i]).0 == id;
            assert(after.stack[i].0 == id);
        }
    }
    let has_parent = search.parent.contains_key(node);
    let up = search.parent[node];
    assert(has_parent ==> search.is_active(up) && up != node && search.disc.contains_key(up)) by {
        if has_parent {
            if top_at == 0 {
                assert(!search.parent.contains_key(search.stack[0].0));
            } else {
                assert(search.parent[search.stack[top_at].0] == search.stack[top_at - 1].0);
                assert(search.stack[top_at - 1].0 == up);
            }
        }
    }
    assert(after.low.dom() =~= search.low.dom());
    assert(after.has_tree(graph));
    assert(after.has_stack(graph)) by {
        assert forall|i: int| 0 <= i < after.stack.len() implies after.disc.contains_key(
            (#[trigger] after.stack[i]).0,
        ) && after.stack[i].1 <= graph.undirected@[after.stack[i].0]@.len() by {
            assert(search.disc.contains_key(search.stack[i].0));
        }
        assert forall|i: int| 0 < i < after.stack.len() implies after.parent.contains_key(
            (#[trigger] after.stack[i]).0,
        ) && after.parent[after.stack[i].0] == after.stack[i - 1].0 by {
            assert(search.parent.contains_key(search.stack[i].0));
        }
    }
    assert(after.has_intervals()) by {
        assert forall|id: NodeId| #[trigger] after.last.contains_key(id)
            <==> after.disc.contains_key(id) && !after.is_active(id) by {
            assert(search.last.contains_key(id) <==> search.disc.contains_key(id)
                && !search.is_active(id));
        }
        assert forall|top: NodeId, id: NodeId|
            after.is_active(top) && after.disc.contains_key(id) implies (
        #[trigger] after.is_over(top, id) <==> after.disc[id] >= after.disc[top]) by {
            assert(search.is_active(top));
            assert(search.is_over(top, id) <==> search.disc[id] >= search.disc[top]);
        }
        assert forall|top: NodeId, id: NodeId|
            after.last.contains_key(top) && after.disc.contains_key(id) implies (
        #[trigger] after.is_over(top, id) <==> after.disc[top] <= after.disc[id]
            <= after.last[top]) by {
            if top == node {
                assert(search.is_over(top, id) <==> search.disc[id] >= search.disc[top]);
            } else {
                assert(search.last.contains_key(top));
                assert(search.is_over(top, id) <==> search.disc[top] <= search.disc[id]
                    <= search.last[top]);
            }
        }
    }
    assert(lists(graph.undirected@[node]@, |other: NodeId| graph.joined(node, other)));
    assert(after.has_neighbors(graph)) by {
        assert forall|id: NodeId, other: NodeId|
            after.last.contains_key(id) && #[trigger] graph.joined(id, other) implies
            after.disc.contains_key(other) && after.disc[other] <= after.last[id] by {
            if id == node {
                assert(graph.undirected@[node]@.contains(other));
                let k = choose|k: int|
                    0 <= k < graph.undirected@[node]@.len() && graph.undirected@[node]@[k] == other;
                assert(search.disc.contains_key(graph.undirected@[search.stack[top_at].0]@[k]));
            } else {
                assert(search.last.contains_key(id));
            }
        }
        assert forall|i: int, k: int|
            0 <= i < after.stack.len() && 0 <= k < after.stack[i].1 implies after.disc.contains_key(
            #[trigger] graph.undirected@[after.stack[i].0]@[k],
        ) by {
            assert(search.disc.contains_key(graph.undirected@[search.stack[i].0]@[k]));
        }
    }
    lemma_finished_lows(search, graph);
}

/// Completing a node keeps what is known of low times.
proof fn lemma_finished_lows(search: Search, graph: &GraphWorkspace)
    requires
        graph.well_formed(),
        search.is_sound(graph),
        search.stack.len() > 0,
        search.stack.last().1 == graph.undirected@[search.stack.last().0]@.len(),
        forall|top: NodeId, id: NodeId| #[trigger]
            search.finished().is_over(top, id) == search.is_over(top, id),
        search.is_active(search.stack.last().0),
        search.parent.contains_key(search.stack.last().0) ==> search.is_active(
            search.parent[search.stack.last().0],
        ) && search.parent[search.stack.last().0] != search.stack.last().0
            && search.disc.contains_key(search.parent[search.stack.last().0]),
    ensures
        search.finished().has_lows(graph),
{
    let after = search.finished();
    let top_at = search.stack.len() - 1;
    let node = search.stack.last().0;
    assert(search.stack[top_at].0 == node);
    assert(search.disc.contains_key(search.stack[top_at].0));
    let has_parent = search.parent.contains_key(node);
    let up = search.parent[node];
    assert forall|id: NodeId| #[trigger] after.disc.contains_key(id) implies after.low[id]
        <= search.low[id] && after.low[id] <= after.disc[id] by {
        assert(search.disc.contains_key(id));
    }
    assert forall|id: NodeId| #[trigger] after.disc.contains_key(id) implies after.low[id]
        == after.disc[id] || after.has_witness(graph, id) by {
        assert(search.disc.contains_key(id));
        let source = if after.low[id] != search.low[id] {
            node
        } else {
            id
        };
        if after.low[id] != search.low[id] {
            assert(has_parent && id == up);
            assert(search.low[node] < search.low[up]);
            assert(search.disc[up] < search.disc[node]);
            assert(search.is_over(up, up));
            assert(search.is_over(up, node));
        }
        assert(search.is_over(id, source));
        if search.low[source] != search.disc[source] {
            let (x, y) = choose|x: NodeId, y: NodeId|
                search.disc.contains_key(x) && search.disc.contains_key(y)
                    && #[trigger] search.is_over(source, x) && #[trigger] search.is_back(
                    graph,
                    x,
                    y,
                ) && search.disc[y] == search.low[source];
            lemma_over_transitive(search, graph, id, source, x);
            assert(after.is_over(id, x));
            assert(after.is_back(graph, x, y));
            assert(after.disc[y] == after.low[id]);
        }
    }
    assert forall|id: NodeId, child: NodeId|
        after.last.contains_key(child) && #[trigger] after.is_child(child, id) implies after.low[id]
        <= after.low[child] by {
        assert(search.is_child(child, id));
        assert(search.parent.contains_key(child));
        assert(search.disc.contains_key(child));
        assert(search.disc.contains_key(id));
        if child == node {
            assert(id == up);
        } else {
            assert(search.last.contains_key(child));
            assert(!search.is_active(child));
            assert(search.low[id] <= search.low[child]);
        }
    }
    assert forall|i: int, k: int|
        0 <= i < after.stack.len() && 0 <= k < after.stack[i].1 && !after.is_child(
            after.stack[i].0,
            graph.undirected@[after.stack[i].0]@[k],
        ) implies after.low[after.stack[i].0]
        <= after.disc[#[trigger] graph.undirected@[after.stack[i].0]@[k]] by {
        assert(search.disc.contains_key(search.stack[i].0));
        assert(!search.is_child(search.stack[i].0, graph.undirected@[search.stack[i].0]@[k]));
        assert(search.low[search.stack[i].0]
            <= search.disc[graph.undirected@[search.stack[i].0]@[k]]);
    }
    assert(lists(graph.undirected@[node]@, |other: NodeId| graph.joined(node, other)));
    assert forall|top: NodeId, id: NodeId, other: NodeId|
        after.last.contains_key(top) && #[trigger] after.is_over(top, id)
            && after.disc.contains_key(id) && #[trigger] after.is_back(graph, id, other) implies
        after.low[top] <= after.disc[other] by {
        assert(search.is_over(top, id));
        assert(search.is_back(graph, id, other));
        if top != node {
            assert(search.last.contains_key(top));
            assert(!search.is_active(top));
            assert(top != up || !has_parent);
        } else if id == node {
            assert(graph.undirected@[node]@.contains(other));
            let k = choose|k: int|
                0 <= k < graph.undirected@[node]@.len() && graph.undirected@[node]@[k] == other;
            assert(!search.is_child(
                search.stack[top_at].0,
                graph.undirected@[search.stack[top_at].0]@[k],
            ));
            assert(search.low[search.stack[top_at].0]
                <= search.disc[graph.undirected@[search.stack[top_at].0]@[k]]);
        } else {
            let child = lemma_child_between(search, graph, node, id);
            assert(search.parent.contains_key(child));
            assert(!search.is_active(child)) by {
                if search.is_active(child) {
                    let i = choose|i: int|
                        0 <= i < search.stack.len() && (#[trigger] search.stack[i]).0 == child;
                    if i < top_at {
                        lemma_stack_order(search, graph, i, top_at);
                    }
                }
            }
            assert(search.last.contains_key(child));
            assert(search.is_child(child, node));
            assert(search.low[node] <= search.low[child]);
            assert(search.is_over(child, id));
            assert(search.low[child] <= search.disc[other]);
        }
    }
}

impl Search {
    /// Whether every node has been discovered and is complete.
    pub open spec fn is_done(&self, graph: &GraphWorkspace) -> bool {
        self.is_sound(graph) && self.stack.len() == 0 && self.disc.dom() == graph.nodes()
    }

    /// The root of the tree that a node is in.
    pub open spec fn root_of(&self, id: NodeId) -> NodeId
        decreases self.disc[id],
    {
        if self.parent.contains_key(id) && self.disc[self.parent[id]] < self.disc[id] {
            self.root_of(self.parent[id])
        } else {
            id
        }
    }

    /// Whether a complete search shows that a node is a cut: a node that was discovered by another
    /// has a child whose subtree is not joined to anything earlier, a root has two children.
    pub open spec fn shows_cut(&self, id: NodeId) -> bool {
        if self.parent.contains_key(id) {
            exists|child: NodeId|
                self.last.contains_key(child) && #[trigger] self.is_child(child, id)
                    && self.low[child] >= self.disc[id]
        } else {
            self.last.contains_key(id) && exists|a: NodeId, b: NodeId|
                a != b && #[trigger] self.is_child(a, id) && #[trigger] self.is_child(b, id)
        }
    }
}

/// A node over another is in the same tree.
proof fn lemma_same_root(search: Search, graph: &GraphWorkspace, top: NodeId, id: NodeId)
    requires
        search.has_tree(graph),
        search.disc.contains_key(id),
        search.is_over(top, id),
    ensures
        search.root_of(top) == search.root_of(id),
    decreases search.disc[id],
{
    if top != id {
        lemma_same_root(search, graph, top, search.parent[id]);
    }
}

/// The root of a tree is over all its nodes and has no parent.
proof fn lemma_root(search: Search, graph: &GraphWorkspace, id: NodeId)
    requires
        search.has_tree(graph),
        search.disc.contains_key(id),
    ensures
        search.disc.contains_key(search.root_of(id)),
        search.is_over(search.root_of(id), id),
        !search.parent.contains_key(search.root_of(id)),
    decreases search.disc[id],
{
    if search.parent.contains_key(id) {
        lemma_root(search, graph, search.parent[id]);
    }
}

/// Two nodes over the same node are one over the other.
proof fn lemma_comparable(
    search: Search,
    graph: &GraphWorkspace,
    a: NodeId,
    b: NodeId,
    id: NodeId,
)
    requires
        search.has_tree(graph),
        search.disc.contains_key(id),
        search.is_over(a, id),
        search.is_over(b, id),
    ensures
        search.is_over(a, b) || search.is_over(b, a),
    decreases search.disc[id],
{
    if a != id && b != id {
        lemma_comparable(search, graph, a, b, search.parent[id]);
    }
}

/// Joined nodes are one over the other.
proof fn lemma_joined_comparable(search: Search, graph: &GraphWorkspace, a: NodeId, b: NodeId)
    requires
        graph.well_formed(),
        search.is_done(graph),
        graph.joined(a, b),
    ensures
        search.disc.contains_key(a),
        search.disc.contains_key(b),
        search.is_over(a, b) || search.is_over(b, a),
{
    lemma_joined_nodes(graph, a, b);
    assert(search.disc.contains_key(a) && search.disc.contains_key(b));
    assert(!search.is_active(a) && !search.is_active(b));
    assert(search.last.contains_key(a) && search.last.contains_key(b));
    assert(graph.joined(b, a));
    assert(search.is_over(a, b) <==> search.disc[a] <= search.disc[b] <= search.last[a]);
    assert(search.is_over(b, a) <==> search.disc[b] <= search.disc[a] <= search.last[b]);
}

/// Joined nodes are nodes of the graph.
proof fn lemma_joined_nodes(graph: &GraphWorkspace, a: NodeId, b: NodeId)
    requires
        graph.well_formed(),
        graph.joined(a, b),
    ensures
        graph.nodes().contains(a),
        graph.nodes().contains(b),
{
    if graph.has(a, b) {
        assert(graph.nodes().contains(b));
    } else {
        assert(graph.has(b, a));
        assert(graph.nodes().contains(a));
    }
}

/// From a node up to one over it, off a node that is not between them.
proof fn lemma_climb(
    search: Search,
    graph: &GraphWorkspace,
    top: NodeId,
    id: NodeId,
    cut: NodeId,
)
    requires
        search.has_tree(graph),
        search.disc.contains_key(id),
        search.is_over(top, id),
        !(search.is_over(cut, id) && search.is_over(top, cut)),
    ensures
        reaches(without(graph, cut), id, top),
    decreases search.disc[id],
{
    let off = without(graph, cut);
    if top == id {
        lemma_reaches_step(off, id, id);
    } else {
        let up = search.parent[id];
        assert(search.parent.contains_key(id));
        assert(search.is_over(top, up));
        if search.is_over(cut, up) {
            assert(search.is_over(cut, id));
        }
        if up == cut {
            assert(search.is_over(cut, up));
        }
        if id == cut {
            assert(search.is_over(cut, id));
        }
        assert(graph.joined(id, up));
        lemma_climb(search, graph, top, up, cut);
        lemma_reaches_step(off, id, up);
        lemma_reaches_transitive(off, id, up, top);
    }
}

/// Off a node, what one node reaches reaches it.
proof fn lemma_without_symmetric(graph: &GraphWorkspace, cut: NodeId, a: NodeId, b: NodeId)
    requires
        reaches(without(graph, cut), a, b),
    ensures
        reaches(without(graph, cut), b, a),
{
    let off = without(graph, cut);
    let back = Set::new(|id: NodeId| reaches(off, id, a));
    lemma_reaches_step(off, a, a);
    assert forall|x: NodeId, y: NodeId| back.contains(x) && #[trigger] off(x, y) implies
        back.contains(y) by {
        assert(off(y, x));
        lemma_reaches_step(off, y, x);
        lemma_reaches_transitive(off, y, x, a);
    }
    lemma_closed_reaches(off, back, a, b);
}

/// A subtree that is not joined to anything before its parent is cut off with the parent.
proof fn lemma_subtree_closed(
    search: Search,
    graph: &GraphWorkspace,
    cut: NodeId,
    child: NodeId,
    x: NodeId,
    y: NodeId,
)
    requires
        graph.well_formed(),
        search.is_done(graph),
        search.is_child(child, cut),
        search.parent.contains_key(cut) ==> search.low[child] >= search.disc[cut],
        search.disc.contains_key(x),
        search.is_over(child, x),
        without(graph, cut)(x, y),
    ensures
        search.disc.contains_key(y),
        search.is_over(child, y),
{
    lemma_joined_comparable(search, graph, x, y);
    assert(search.parent.contains_key(child));
    if search.is_over(x, y) {
        lemma_over_transitive(search, graph, child, x, y);
    } else {
        lemma_comparable(search, graph, child, y, x);
        if !search.is_over(child, y) {
            assert(search.is_over(y, child));
            assert(y != child);
            assert(search.is_over(y, cut));
            lemma_over(search, graph, y, cut);
            if search.parent.contains_key(cut) {
                assert(search.disc[y] < search.disc[cut]);
                assert(!search.is_child(x, y)) by {
                    if search.is_child(x, y) {
                        if x != child {
                            assert(search.is_over(child, search.parent[x]));
                        }
                    }
                }
                assert(search.is_back(graph, x, y));
                assert(search.disc.contains_key(child));
                assert(!search.is_active(child));
                assert(search.last.contains_key(child));
                assert(search.low[child] <= search.disc[y]);
            } else {
                assert(y == cut);
            }
        }
    }
}

/// What a complete search shows is a cut.
proof fn lemma_shown_is_cut(search: Search, graph: &GraphWorkspace, cut: NodeId)
    requires
        graph.well_formed(),
        search.is_done(graph),
        search.shows_cut(cut),
    ensures
        is_cut(graph, cut),
{
    let off = without(graph, cut);
    let links = graph.links();
    let (child, far) = if search.parent.contains_key(cut) {
        let child = choose|child: NodeId|
            search.last.contains_key(child) && #[trigger] search.is_child(child, cut)
                && search.low[child] >= search.disc[cut];
        (child, search.parent[cut])
    } else {
        let (a, b) = choose|a: NodeId, b: NodeId|
            a != b && #[trigger] search.is_child(a, cut) && #[trigger] search.is_child(b, cut);
        (a, b)
    };
    assert(search.is_child(child, cut));
    assert(search.parent.contains_key(child));
    assert(search.disc.contains_key(child) && search.disc.contains_key(cut));
    let below = Set::new(
        |id: NodeId| search.disc.contains_key(id) && search.is_over(child, id),
    );
    assert forall|x: NodeId, y: NodeId| below.contains(x) && #[trigger] off(x, y) implies
        below.contains(y) by {
        lemma_subtree_closed(search, graph, cut, child, x, y);
    }
    assert(search.is_over(child, child));
    assert(!below.contains(far)) by {
        if search.parent.contains_key(cut) {
            if search.disc.contains_key(far) && search.is_over(child, far) {
                lemma_over(search, graph, child, far);
            }
        } else {
            assert(search.parent.contains_key(far));
            if search.is_over(child, far) {
                assert(search.is_over(child, cut));
                lemma_over(search, graph, child, cut);
            }
        }
    }
    if reaches(off, child, far) {
        lemma_closed_reaches(off, below, child, far);
    }
    assert(graph.joined(child, cut));
    assert(graph.joined(cut, far)) by {
        if !search.parent.contains_key(cut) {
            assert(search.parent.contains_key(far));
        }
    }
    assert(links(child, cut) && links(cut, far));
    lemma_reaches_step(links, child, cut);
    lemma_reaches_step(links, cut, far);
    lemma_reaches_transitive(links, child, cut, far);
    assert(child != cut && far != cut);
    assert(reaches(links, child, far) && !reaches(off, child, far));
}

/// Where a search shows no cut, every other node of a tree reaches the same node off it: the root,
/// or the only child of the root.
proof fn lemma_reaches_hub(
    search: Search,
    graph: &GraphWorkspace,
    cut: NodeId,
    id: NodeId,
    hub: NodeId,
)
    requires
        graph.well_formed(),
        search.is_done(graph),
        search.disc.contains_key(cut),
        search.disc.contains_key(id),
        id != cut,
        !search.shows_cut(cut),
        search.root_of(id) != cut ==> hub == search.root_of(id),
        search.root_of(id) == cut ==> search.is_child(hub, cut),
    ensures
        reaches(without(graph, cut), id, hub),
{
    let off = without(graph, cut);
    let root = search.root_of(id);
    lemma_root(search, graph, id);
    if !search.is_over(cut, id) {
        if root == cut {
            assert(search.is_over(cut, id));
        }
        lemma_climb(search, graph, root, id, cut);
    } else {
        let child = lemma_child_between(search, graph, cut, id);
        assert(search.parent.contains_key(child));
        assert(!search.is_active(child));
        assert(search.last.contains_key(child));
        if search.is_over(child, cut) {
            lemma_over(search, graph, child, cut);
        }
        lemma_climb(search, graph, child, id, cut);
        if search.parent.contains_key(cut) {
            assert(search.is_child(child, cut));
            assert(search.low[child] < search.disc[cut]);
            assert(search.low[child] != search.disc[child]);
            assert(search.has_witness(graph, child));
            let (x, y) = choose|x: NodeId, y: NodeId|
                search.disc.contains_key(x) && search.disc.contains_key(y)
                    && #[trigger] search.is_over(child, x) && #[trigger] search.is_back(
                    graph,
                    x,
                    y,
                ) && search.disc[y] == search.low[child];
            lemma_climb(search, graph, child, x, cut);
            lemma_without_symmetric(graph, cut, x, child);
            assert(x != cut) by {
                if x == cut {
                    lemma_over(search, graph, child, cut);
                }
            }
            assert(y != cut);
            assert(off(x, y));
            lemma_reaches_step(off, x, y);
            if search.is_over(cut, y) {
                lemma_over(search, graph, cut, y);
            }
            lemma_joined_comparable(search, graph, x, y);
            if search.is_over(x, y) {
                lemma_same_root(search, graph, x, y);
            } else {
                lemma_same_root(search, graph, y, x);
            }
            lemma_same_root(search, graph, child, x);
            lemma_same_root(search, graph, child, id);
            assert(search.root_of(y) == root);
            assert(root != cut);
            lemma_root(search, graph, y);
            lemma_climb(search, graph, root, y, cut);
            lemma_reaches_transitive(off, id, child, x);
            lemma_reaches_transitive(off, id, x, y);
            lemma_reaches_transitive(off, id, y, root);
        } else {
            lemma_same_root(search, graph, cut, id);
            assert(root == cut);
            assert(!search.is_active(cut));
            assert(search.last.contains_key(cut));
            assert(child == hub) by {
                if child != hub {
                    assert(search.is_child(child, cut) && search.is_child(hub, cut));
                }
            }
        }
    }
}

/// A cut is what a complete search shows.
proof fn lemma_cut_is_shown(search: Search, graph: &GraphWorkspace, cut: NodeId)
    requires
        graph.well_formed(),
        search.is_done(graph),
        is_cut(graph, cut),
    ensures
        search.disc.contains_key(cut),
        search.shows_cut(cut),
{
    let off = without(graph, cut);
    let links = graph.links();
    let (a, b) = choose|a: NodeId, b: NodeId|
        a != cut && b != cut && #[trigger] reaches(links, a, b) && !(#[trigger] reaches(
            off,
            a,
            b,
        ));
    if !search.disc.contains_key(cut) {
        let reached = Set::new(|id: NodeId| reaches(off, a, id));
        lemma_reaches_step(off, a, a);
        assert forall|x: NodeId, y: NodeId| reached.contains(x) && #[trigger] links(x, y) implies
            reached.contains(y) by {
            lemma_joined_nodes(graph, x, y);
            assert(off(x, y));
            lemma_reaches_step(off, x, y);
            lemma_reaches_transitive(off, a, x, y);
        }
        lemma_closed_reaches(links, reached, a, b);
    } else if !search.shows_cut(cut) {
        lemma_reaches_step(off, a, a);
        assert(a != b);
        let inside = Set::new(
            |id: NodeId|
                search.disc.contains_key(id) && search.root_of(id) == search.root_of(a),
        );
        assert(search.disc.contains_key(a)) by {
            if !search.disc.contains_key(a) {
                let alone = Set::new(|id: NodeId| id == a);
                assert forall|x: NodeId, y: NodeId|
                    alone.contains(x) && #[trigger] links(x, y) implies alone.contains(y) by {
                    lemma_joined_nodes(graph, x, y);
                }
                lemma_closed_reaches(links, alone, a, b);
            }
        }
        assert forall|x: NodeId, y: NodeId| inside.contains(x) && #[trigger] links(x, y) implies
            inside.contains(y) by {
            lemma_joined_comparable(search, graph, x, y);
            if search.is_over(x, y) {
                lemma_same_root(search, graph, x, y);
            } else {
                lemma_same_root(search, graph, y, x);
            }
        }
        lemma_closed_reaches(links, inside, a, b);
        let root = search.root_of(a);
        let hub = if root == cut {
            lemma_root(search, graph, a);
            lemma_child_between(search, graph, cut, a)
        } else {
            root
        };
        lemma_reaches_hub(search, graph, cut, a, hub);
        lemma_reaches_hub(search, graph, cut, b, hub);
        lemma_without_symmetric(graph, cut, b, hub);
        lemma_reaches_transitive(off, a, hub, b);
    }
}

/// The neighbours that the nodes in progress have not looked at, and the nodes themselves.
spec fn stack_rest(graph: &GraphWorkspace, stack: Seq<(NodeId, usize)>) -> int
    decreases stack.len(),
{
    if stack.len() == 0 {
        0
    } else {
        stack_rest(graph, stack.drop_last()) + graph.undirected@[stack.last().0]@.len()
            - stack.last().1 + 1
    }
}

/// The rest is not negative.
proof fn lemma_stack_rest(graph: &GraphWorkspace, stack: Seq<(NodeId, usize)>)
    requires
        forall|i: int|
            0 <= i < stack.len() ==> (#[trigger] stack[i]).1
                <= graph.undirected@[stack[i].0]@.len(),
    ensures
        stack_rest(graph, stack) >= 0,
    decreases stack.len(),
{
    if stack.len() > 0 {
        let fewer = stack.drop_last();
        assert forall|i: int| 0 <= i < fewer.len() implies (#[trigger] fewer[i]).1
            <= graph.undirected@[fewer[i].0]@.len() by {
            assert(stack[i] == fewer[i]);
        }
        lemma_stack_rest(graph, fewer);
        assert(stack[stack.len() - 1] == stack.last());
    }
}

/// What is known of the children of the current root.
spec fn counts_children(search: Search, root: NodeId, count: usize, first: NodeId) -> bool {
    &&& count == 0 ==> forall|id: NodeId| !(#[trigger] search.is_child(id, root))
    &&& count >= 1 ==> search.is_child(first, root)
    &&& count == 1 ==> forall|id: NodeId| #[trigger] search.is_child(id, root) ==> id == first
    &&& count >= 2 ==> exists|id: NodeId| id != first && #[trigger] search.is_child(id, root)
}

/// Whether the points are the cuts that the search shows so far, other than the current root.
spec fn are_points(search: Search, points: Set<NodeId>, root: Option<NodeId>) -> bool {
    forall|id: NodeId|
        root != Some(id) ==> (#[trigger] points.contains(id) <==> search.disc.contains_key(id)
            && search.shows_cut(id))
}

/// Discovering a node shows no new cut.
proof fn lemma_points_kept(
    before: Search,
    after: Search,
    graph: &GraphWorkspace,
    points: Set<NodeId>,
    root: Option<NodeId>,
    new: NodeId,
    active: NodeId,
)
    requires
        before.is_sound(graph),
        after.has_tree(graph),
        are_points(before, points, root),
        root != Some(new) ==> after.parent.contains_key(new),
        !before.disc.contains_key(new),
        after.last == before.last,
        after.disc.dom() == before.disc.dom().insert(new),
        forall|id: NodeId| before.disc.contains_key(id) ==> #[trigger] after.disc[id]
            == before.disc[id],
        forall|id: NodeId| before.disc.contains_key(id) ==> #[trigger] after.low[id]
            == before.low[id],
        forall|id: NodeId, of: NodeId|
            id != new ==> (#[trigger] after.is_child(id, of) <==> before.is_child(id, of)),
        forall|of: NodeId| #[trigger] after.is_child(new, of) ==> of == active,
        !before.last.contains_key(active),
    ensures
        are_points(after, points, root),
{
    assert forall|id: NodeId| root != Some(id) implies (#[trigger] points.contains(id)
        <==> after.disc.contains_key(id) && after.shows_cut(id)) by {
        assert(points.contains(id) <==> before.disc.contains_key(id) && before.shows_cut(id));
        if id == new {
            if after.shows_cut(id) {
                let child = choose|child: NodeId|
                    after.last.contains_key(child) && #[trigger] after.is_child(child, id)
                        && after.low[child] >= after.disc[id];
                assert(before.disc.contains_key(child));
                assert(before.is_child(child, id));
                assert(before.parent.contains_key(child));
            }
        } else if before.disc.contains_key(id) {
            assert(after.parent.contains_key(id) == before.parent.contains_key(id)) by {
                if after.parent.contains_key(id) {
                    assert(after.is_child(id, after.parent[id]));
                    assert(before.is_child(id, after.parent[id]));
                }
                if before.parent.contains_key(id) {
                    assert(before.is_child(id, before.parent[id]));
                    assert(after.is_child(id, before.parent[id]));
                }
            }
            if before.shows_cut(id) {
                if before.parent.contains_key(id) {
                    let child = choose|child: NodeId|
                        before.last.contains_key(child) && #[trigger] before.is_child(child, id)
                            && before.low[child] >= before.disc[id];
                    assert(before.disc.contains_key(child));
                    assert(after.is_child(child, id));
                } else {
                    let (a, b) = choose|a: NodeId, b: NodeId|
                        a != b && #[trigger] before.is_child(a, id) && #[trigger] before.is_child(
                            b,
                            id,
                        );
                    assert(before.parent.contains_key(a) && before.parent.contains_key(b));
                    assert(after.is_child(a, id) && after.is_child(b, id));
                }
            }
            if after.shows_cut(id) {
                if after.parent.contains_key(id) {
                    let child = choose|child: NodeId|
                        after.last.contains_key(child) && #[trigger] after.is_child(child, id)
                            && after.low[child] >= after.disc[id];
                    assert(before.disc.contains_key(child));
                    assert(before.is_child(child, id));
                } else {
                    let (a, b) = choose|a: NodeId, b: NodeId|
                        a != b && #[trigger] after.is_child(a, id) && #[trigger] after.is_child(
                            b,
                            id,
                        );
                    assert(a != new && b != new);
                    assert(before.is_child(a, id) && before.is_child(b, id));
                }
            }
        }
    }
}

/// Looking at a known neighbour shows no new cut.
proof fn lemma_points_glanced(
    search: Search,
    graph: &GraphWorkspace,
    points: Set<NodeId>,
    root: Option<NodeId>,
    other: NodeId,
)
    requires
        search.is_sound(graph),
        search.stack.len() > 0,
        are_points(search, points, root),
    ensures
        are_points(search.glanced(other), points, root),
{
    let after = search.glanced(other);
    let node = search.stack.last().0;
    assert(search.is_active(node)) by {
        assert(search.stack[search.stack.len() - 1].0 == node);
    }
    assert forall|id: NodeId, child: NodeId| #[trigger]
        after.is_child(child, id) == search.is_child(child, id) by {}
    assert forall|id: NodeId| root != Some(id) implies (#[trigger] points.contains(id)
        <==> after.disc.contains_key(id) && after.shows_cut(id)) by {
        assert(points.contains(id) <==> search.disc.contains_key(id) && search.shows_cut(id));
        if search.shows_cut(id) && search.parent.contains_key(id) {
            let child = choose|child: NodeId|
                search.last.contains_key(child) && #[trigger] search.is_child(child, id)
                    && search.low[child] >= search.disc[id];
            assert(child != node);
            assert(after.is_child(child, id));
        }
        if after.shows_cut(id) && search.parent.contains_key(id) {
            let child = choose|child: NodeId|
                after.last.contains_key(child) && #[trigger] after.is_child(child, id)
                    && after.low[child] >= after.disc[id];
            assert(child != node);
            assert(search.is_child(child, id));
        }
        if search.shows_cut(id) && !search.parent.contains_key(id) {
            let (a, b) = choose|a: NodeId, b: NodeId|
                a != b && #[trigger] search.is_child(a, id) && #[trigger] search.is_child(b, id);
            assert(after.is_child(a, id) && after.is_child(b, id));
        }
        if after.shows_cut(id) && !search.parent.contains_key(id) {
            let (a, b) = choose|a: NodeId, b: NodeId|
                a != b && #[trigger] after.is_child(a, id) && #[trigger] after.is_child(b, id);
            assert(search.is_child(a, id) && search.is_child(b, id));
        }
    }
}

/// Completing a node shows at most that its parent is a cut.
proof fn lemma_points_finished(
    search: Search,
    graph: &GraphWorkspace,
    points: Set<NodeId>,
    points_after: Set<NodeId>,
    root: NodeId,
)
    requires
        search.is_sound(graph),
        search.stack.len() > 0,
        search.stack[0].0 == root,
        are_points(search, points, Some(root)),
        ({
            let node = search.stack.last().0;
            let up = search.parent[node];
            points_after == if search.parent.contains_key(node) && up != root && search.low[node]
                >= search.disc[up] {
                points.insert(up)
            } else {
                points
            }
        }),
    ensures
        are_points(search.finished(), points_after, Some(root)),
{
    let after = search.finished();
    let node = search.stack.last().0;
    let top_at = search.stack.len() - 1;
    assert(search.stack[top_at].0 == node);
    assert(search.is_active(node));
    let up = search.parent[node];
    assert forall|id: NodeId, child: NodeId| #[trigger]
        after.is_child(child, id) == search.is_child(child, id) by {}
    assert(search.parent.contains_key(node) ==> search.is_active(up) && (up != root
        ==> search.parent.contains_key(up))) by {
        if search.parent.contains_key(node) {
            if top_at == 0 {
                assert(!search.parent.contains_key(search.stack[0].0));
            }
            assert(search.parent[search.stack[top_at].0] == search.stack[top_at - 1].0);
            assert(search.stack[top_at - 1].0 == up);
            if top_at - 1 > 0 {
                assert(search.parent.contains_key(search.stack[top_at - 1].0));
            }
        }
    }
    assert(!search.parent.contains_key(node) ==> node == root) by {
        if top_at > 0 {
            assert(search.parent.contains_key(search.stack[top_at].0));
        }
    }
    assert forall|id: NodeId| Some(root) != Some(id) implies (#[trigger] points_after.contains(id)
        <==> after.disc.contains_key(id) && after.shows_cut(id)) by {
        assert(points.contains(id) <==> search.disc.contains_key(id) && search.shows_cut(id));
        if search.parent.contains_key(id) {
            if search.shows_cut(id) {
                let child = choose|child: NodeId|
                    search.last.contains_key(child) && #[trigger] search.is_child(child, id)
                        && search.low[child] >= search.disc[id];
                assert(!search.is_active(child));
                assert(after.is_child(child, id));
                assert(after.low[child] == search.low[child]);
            }
            if search.parent.contains_key(node) && id == up && search.low[node]
                >= search.disc[up] {
                assert(after.is_child(node, up));
                assert(node != up) by {
                    assert(search.disc[up] < search.disc[node]);
                }
                assert(after.low[node] == search.low[node]);
            }
            if after.shows_cut(id) {
                let child = choose|child: NodeId|
                    after.last.contains_key(child) && #[trigger] after.is_child(child, id)
                        && after.low[child] >= after.disc[id];
                assert(search.is_child(child, id));
                assert(search.parent.contains_key(child));
                if child == node {
                    assert(id == up);
                    assert(after.low[node] == search.low[node]) by {
                        assert(search.disc[up] < search.disc[node]);
                    }
                } else {
                    assert(search.last.contains_key(child));
                    assert(!search.is_active(child));
                    assert(after.low[child] == search.low[child]);
                }
            }
        } else {
            if search.shows_cut(id) {
                let (a, b) = choose|a: NodeId, b: NodeId|
                    a != b && #[trigger] search.is_child(a, id) && #[trigger] search.is_child(
                        b,
                        id,
                    );
                assert(after.is_child(a, id) && after.is_child(b, id));
            }
            if after.shows_cut(id) {
                let (a, b) = choose|a: NodeId, b: NodeId|
                    a != b && #[trigger] after.is_child(a, id) && #[trigger] after.is_child(b, id);
                assert(search.is_child(a, id) && search.is_child(b, id));
                assert(id != node);
            }
        }
    }
}

/// A discovered node is one more child of the current root, or no child of it.
proof fn lemma_counts(
    before: Search,
    after: Search,
    root: NodeId,
    count: usize,
    first: NodeId,
    new: NodeId,
    node: NodeId,
)
    requires
        count < usize::MAX,
        counts_children(before, root, count, first),
        forall|of: NodeId| !(#[trigger] before.is_child(new, of)),
        forall|id: NodeId, of: NodeId| #[trigger]
            after.is_child(id, of) <==> (before.is_child(id, of) || (id == new && of == node)),
    ensures
        node != root ==> counts_children(after, root, count, first),
        node == root ==> counts_children(
            after,
            root,
            (count + 1) as usize,
            if count == 0 {
                new
            } else {
                first
            },
        ),
{
    if count >= 1 {
        assert(after.is_child(first, root));
    }
    if count >= 2 {
        let id = choose|id: NodeId| id != first && #[trigger] before.is_child(id, root);
        assert(after.is_child(id, root));
    }
    if node == root {
        assert(after.is_child(new, root));
        assert(count >= 1 ==> new != first) by {
            assert(!before.is_child(new, root));
        }
    }
}

/// The children of the current root stay counted while no node gets a parent.
proof fn lemma_counts_kept(
    before: Search,
    after: Search,
    root: NodeId,
    count: usize,
    first: NodeId,
)
    requires
        counts_children(before, root, count, first),
        after.parent == before.parent,
    ensures
        counts_children(after, root, count, first),
{
    assert forall|id: NodeId, of: NodeId| #[trigger]
        after.is_child(id, of) == before.is_child(id, of) by {}
    if count >= 2 {
        let id = choose|id: NodeId| id != first && #[trigger] before.is_child(id, root);
        assert(after.is_child(id, root));
    }
}

/// Everything that is known while the nodes of a root are searched.
#[verifier::opaque]
spec fn is_kept(
    search: Search,
    graph: &GraphWorkspace,
    points: Set<NodeId>,
    root: NodeId,
    count: usize,
    first: NodeId,
) -> bool {
    &&& search.is_sound(graph)
    &&& search.disc.contains_key(root)
    &&& !search.parent.contains_key(root)
    &&& !points.contains(root)
    &&& search.stack.len() > 0 ==> search.stack[0].0 == root
    &&& counts_children(search, root, count, first)
    &&& are_points(search, points, Some(root))
}

/// What is known of the current node.
proof fn lemma_kept_top(
    search: Search,
    graph: &GraphWorkspace,
    points: Set<NodeId>,
    root: NodeId,
    count: usize,
    first: NodeId,
)
    requires
        graph.well_formed(),
        is_kept(search, graph, points, root, count, first),
        search.stack.len() > 0,
    ensures
        ({
            let (node, next) = search.stack.last();
            &&& search.disc.contains_key(node)
            &&& search.low.contains_key(node)
            &&& graph.undirected@.contains_key(node)
            &&& next <= graph.undirected@[node]@.len()
            &&& search.parent.contains_key(node) ==> search.disc.contains_key(search.parent[node])
                && search.low.contains_key(search.parent[node])
            &&& next < graph.undirected@[node]@.len() ==> graph.joined(
                node,
                graph.undirected@[node]@[next as int],
            ) && graph.nodes().contains(graph.undirected@[node]@[next as int])
        }),
        stack_rest(graph, search.stack) >= 0,
        stack_rest(graph, search.stack.drop_last()) >= 0,
        search.stack.last().1 < graph.undirected@[search.stack.last().0]@.len() ==> stack_rest(
            graph,
            search.looked(),
        ) == stack_rest(graph, search.stack) - 1,
{
    reveal(is_kept);
    let (node, next) = search.stack.last();
    assert(search.stack[search.stack.len() - 1] == (node, next));
    assert(graph.nodes().contains(node));
    let neighbors = graph.undirected@[node]@;
    assert(lists(neighbors, |other: NodeId| graph.joined(node, other)));
    if next < neighbors.len() {
        let neighbor = neighbors[next as int];
        assert(neighbors.contains(neighbor));
        assert(graph.joined(node, neighbor));
        lemma_joined_nodes(graph, node, neighbor);
    }
    lemma_stack_rest(graph, search.stack);
    let fewer = search.stack.drop_last();
    assert forall|i: int| 0 <= i < fewer.len() implies (#[trigger] fewer[i]).1
        <= graph.undirected@[fewer[i].0]@.len() by {
        assert(search.stack[i] == fewer[i]);
    }
    lemma_stack_rest(graph, fewer);
    let looked = search.looked();
    assert(looked.drop_last() =~= fewer);
    let length = graph.undirected@[node].len();
    assert(length <= usize::MAX);
}

/// Looking at a known neighbour keeps everything.
proof fn lemma_kept_glanced(
    search: Search,
    graph: &GraphWorkspace,
    points: Set<NodeId>,
    root: NodeId,
    count: usize,
    first: NodeId,
    other: NodeId,
)
    requires
        graph.well_formed(),
        is_kept(search, graph, points, root, count, first),
        search.stack.len() > 0,
        search.stack.last().1 < graph.undirected@[search.stack.last().0]@.len(),
        graph.undirected@[search.stack.last().0]@[search.stack.last().1 as int] == other,
        graph.joined(search.stack.last().0, other),
        search.disc.contains_key(other),
    ensures
        is_kept(search.glanced(other), graph, points, root, count, first),
{
    reveal(is_kept);
    let after = search.glanced(other);
    lemma_glanced(search, graph, other);
    lemma_points_glanced(search, graph, points, Some(root), other);
    lemma_counts_kept(search, after, root, count, first);
    assert(after.stack[0].0 == search.stack[0].0);
}

/// Discovering a neighbour keeps everything.
proof fn lemma_kept_descended(
    search: Search,
    graph: &GraphWorkspace,
    points: Set<NodeId>,
    root: NodeId,
    count: usize,
    first: NodeId,
    new: NodeId,
)
    requires
        graph.well_formed(),
        is_kept(search, graph, points, root, count, first),
        search.stack.len() > 0,
        search.stack.last().1 < graph.undirected@[search.stack.last().0]@.len(),
        graph.undirected@[search.stack.last().0]@[search.stack.last().1 as int] == new,
        !search.disc.contains_key(new),
        graph.nodes().contains(new),
        graph.joined(search.stack.last().0, new),
        search.time < usize::MAX,
        count < usize::MAX,
    ensures
        search.stack.last().0 != root ==> is_kept(
            search.descended(new),
            graph,
            points,
            root,
            count,
            first,
        ),
        search.stack.last().0 == root ==> is_kept(
            search.descended(new),
            graph,
            points,
            root,
            (count + 1) as usize,
            if count == 0 {
                new
            } else {
                first
            },
        ),
{
    reveal(is_kept);
    let after = search.descended(new);
    let node = search.stack.last().0;
    let top_at = search.stack.len() - 1;
    assert(!search.parent.contains_key(new));
    lemma_descended(search, graph, new);
    assert(after.stack[0].0 == search.stack[0].0);
    assert(after.disc.dom() =~= search.disc.dom().insert(new));
    assert(search.is_active(node)) by {
        assert(search.stack[top_at].0 == node);
    }
    assert forall|id: NodeId, of: NodeId| #[trigger]
        after.is_child(id, of) <==> (search.is_child(id, of) || (id == new && of == node)) by {}
    lemma_points_kept(search, after, graph, points, Some(root), new, node);
    lemma_counts(search, after, root, count, first, new, node);
}

/// Completing a node keeps everything.
proof fn lemma_kept_finished(
    search: Search,
    graph: &GraphWorkspace,
    points: Set<NodeId>,
    points_after: Set<NodeId>,
    root: NodeId,
    count: usize,
    first: NodeId,
)
    requires
        graph.well_formed(),
        is_kept(search, graph, points, root, count, first),
        search.stack.len() > 0,
        search.stack.last().1 == graph.undirected@[search.stack.last().0]@.len(),
        ({
            let node = search.stack.last().0;
            let up = search.parent[node];
            points_after == if search.parent.contains_key(node) && up != root && search.low[node]
                >= search.disc[up] {
                points.insert(up)
            } else {
                points
            }
        }),
    ensures
        is_kept(search.finished(), graph, points_after, root, count, first),
{
    reveal(is_kept);
    lemma_finished(search, graph);
    lemma_points_finished(search, graph, points, points_after, root);
    lemma_counts_kept(search, search.finished(), root, count, first);
    if search.finished().stack.len() > 0 {
        assert(search.finished().stack[0] == search.stack[0]);
    }
}

/// A new root keeps everything.
proof fn lemma_kept_started(
    search: Search,
    graph: &GraphWorkspace,
    points: Set<NodeId>,
    root: NodeId,
)
    requires
        graph.well_formed(),
        search.is_sound(graph),
        are_points(search, points, None),
        search.stack.len() == 0,
        graph.nodes().contains(root),
        !search.disc.contains_key(root),
        search.time < usize::MAX,
    ensures
        is_kept(search.started(root), graph, points, root, 0, root),
{
    reveal(is_kept);
    let after = search.started(root);
    assert(!points.contains(root));
    lemma_started(search, graph, root);
    assert(after.disc.dom() =~= search.disc.dom().insert(root));
    assert forall|id: NodeId, of: NodeId|
        id != root implies (#[trigger] after.is_child(id, of) <==> search.is_child(id, of)) by {}
    assert forall|of: NodeId| !(#[trigger] after.is_child(root, of)) by {
        if after.is_child(root, of) {
            assert(search.parent.contains_key(root));
        }
    }
    lemma_points_kept(search, after, graph, points, Some(root), root, root);
    assert forall|id: NodeId| !(#[trigger] after.is_child(id, root)) by {
        if after.is_child(id, root) {
            assert(search.parent.contains_key(id));
        }
    }
}

/// When the nodes of a root are complete, the root is a cut if it has two children.
proof fn lemma_kept_done(
    search: Search,
    graph: &GraphWorkspace,
    points: Set<NodeId>,
    points_after: Set<NodeId>,
    root: NodeId,
    count: usize,
    first: NodeId,
)
    requires
        is_kept(search, graph, points, root, count, first),
        search.stack.len() == 0,
        points_after == if count > 1 {
            points.insert(root)
        } else {
            points
        },
    ensures
        search.is_sound(graph),
        are_points(search, points_after, None),
{
    reveal(is_kept);
    assert(!search.is_active(root));
    assert(search.last.contains_key(root));
    assert(search.shows_cut(root) <==> count > 1) by {
        if count > 1 {
            let other = choose|id: NodeId| id != first && #[trigger] search.is_child(id, root);
            assert(search.is_child(first, root) && search.is_child(other, root));
        }
        if search.shows_cut(root) {
            let (a, b) = choose|a: NodeId, b: NodeId|
                a != b && #[trigger] search.is_child(a, root) && #[trigger] search.is_child(
                    b,
                    root,
                );
            assert(search.is_child(a, root) && search.is_child(b, root));
        }
    }
}

/// The nodes whose loss separates others that reached each other.
pub fn articulation_points(graph: &GraphWorkspace) -> (points: BTreeSet<NodeId>)
    requires
        graph.well_formed(),
    ensures
        forall|id: NodeId| #[trigger] points@.contains(id) <==> is_cut(graph, id),
{
    let ids = map_keys(&graph.undirected);
    let total: usize = ids.len();
    let mut discovery: BTreeMap<NodeId, usize> = BTreeMap::new();
    let mut low: BTreeMap<NodeId, usize> = BTreeMap::new();
    let mut parent: BTreeMap<NodeId, NodeId> = BTreeMap::new();
    let mut points: BTreeSet<NodeId> = BTreeSet::new();
    let mut time: usize = 0;
    let ghost mut search = Search {
        disc: Map::empty(),
        low: Map::empty(),
        parent: Map::empty(),
        last: Map::empty(),
        stack: Seq::empty(),
        time: 0,
    };
    proof {
        assert(discovery@ =~= Map::empty());
        assert(low@ =~= Map::empty());
        assert(parent@ =~= Map::empty());
        crate::collections::lemma_increasing_distinct(ids@);
        ids@.unique_seq_to_set();
        assert(search.is_sound(graph));
    }
    let mut i: usize = 0;
    while i < ids.len()
        invariant
            graph.well_formed(),
            ids@.to_set() == graph.nodes(),
            ids@.len() == graph.nodes().len(),
            total == ids@.len(),
            i <= ids@.len(),
            search.is_sound(graph),
            search.stack.len() == 0,
            search.disc == discovery@,
            search.low == low@,
            search.parent == parent@,
            search.time == time,
            discovery@.dom().finite(),
            discovery@.dom().subset_of(graph.nodes()),
            time == discovery@.dom().len(),
            are_points(search, points@, None),
            forall|k: int| 0 <= k < i ==> discovery@.contains_key(#[trigger] ids@[k]),
        decreases ids@.len() - i,
    {
        let root: NodeId = ids[i];
        let ghost held = discovery@;
        proof {
            assert(ids@.contains(root));
            assert(ids@.to_set().contains(root));
        }
        if !discovery.contains_key(&root) {
            proof {
                let more = discovery@.dom().insert(root);
                assert(more.subset_of(graph.nodes()));
                vstd::set_lib::lemma_len_subset(more, graph.nodes());
            }
            time += 1;
            discovery.insert(root, time);
            low.insert(root, time);
            let mut stack: Vec<(NodeId, usize)> = Vec::new();
            stack.push((root, 0));
            let mut root_children: usize = 0;
            let ghost mut first_child: NodeId = root;
            proof {
                lemma_kept_started(search, graph, points@, root);
                search = search.started(root);
                assert(stack@ =~= search.stack);
                assert(discovery@.dom() =~= held.dom().insert(root));
            }
            while stack.len() > 0
                invariant
                    graph.well_formed(),
                    ids@.to_set() == graph.nodes(),
                    ids@.len() == graph.nodes().len(),
                    total == ids@.len(),
                    i < ids@.len(),
                    is_kept(search, graph, points@, root, root_children, first_child),
                    search.disc == discovery@,
                    search.low == low@,
                    search.parent == parent@,
                    search.stack == stack@,
                    search.time == time,
                    discovery@.dom().finite(),
                    discovery@.dom().subset_of(graph.nodes()),
                    time == discovery@.dom().len(),
                    discovery@.contains_key(root),
                    root_children <= time,
                    forall|k: int| 0 <= k < i ==> discovery@.contains_key(#[trigger] ids@[k]),
                decreases
                        graph.nodes().len() - discovery@.dom().len(),
                        stack_rest(graph, stack@),
            {
                let ghost past = search;
                let top_at: usize = stack.len() - 1;
                let (node, next): (NodeId, usize) = stack[top_at];
                proof {
                    vstd::set_lib::lemma_len_subset(discovery@.dom(), graph.nodes());
                    lemma_kept_top(search, graph, points@, root, root_children, first_child);
                    assert(stack@.last() == (node, next));
                }
                let neighbors = graph.undirected.get(&node).unwrap();
                if next < neighbors.len() {
                    let neighbor: NodeId = neighbors[next];
                    stack.set(top_at, (node, next + 1));
                    assert(stack@ =~= past.looked());
                    if discovery.contains_key(&neighbor) {
                        let known_parent = match parent.get(&node) {
                            Some(up) => *up == neighbor,
                            None => false,
                        };
                        if !known_parent {
                            let candidate: usize = *discovery.get(&neighbor).unwrap();
                            let current: usize = *low.get(&node).unwrap();
                            if candidate < current {
                                low.insert(node, candidate);
                            } else {
                                proof {
                                    assert(low@.insert(node, current) =~= low@);
                                }
                            }
                        }
                        proof {
                            lemma_kept_glanced(
                                past,
                                graph,
                                points@,
                                root,
                                root_children,
                                first_child,
                                neighbor,
                            );
                            search = past.glanced(neighbor);
                            assert(search.low =~= low@);
                        }
                    } else {
                        proof {
                            let more = discovery@.dom().insert(neighbor);
                            assert(more.subset_of(graph.nodes()));
                            vstd::set_lib::lemma_len_subset(more, graph.nodes());
                            assert(more.len() == discovery@.dom().len() + 1);
                            assert(time < total);
                        }
                        let ghost known = discovery@;
                        parent.insert(neighbor, node);
                        time += 1;
                        discovery.insert(neighbor, time);
                        low.insert(neighbor, time);
                        stack.push((neighbor, 0));
                        proof {
                            lemma_kept_descended(
                                past,
                                graph,
                                points@,
                                root,
                                root_children,
                                first_child,
                                neighbor,
                            );
                            search = past.descended(neighbor);
                            assert(stack@ =~= search.stack);
                            assert(discovery@.dom() =~= known.dom().insert(neighbor));
                            if node == root && root_children == 0 {
                                first_child = neighbor;
                            }
                        }
                        if node == root {
                            root_children += 1;
                        }
                    }
                } else {
                    let _ = stack.pop();
                    proof {
                        assert(stack@ =~= past.stack.drop_last());
                    }
                    let ghost points_before = points@;
                    match parent.get(&node) {
                        Some(known) => {
                            let up: NodeId = *known;
                            let node_low: usize = *low.get(&node).unwrap();
                            let up_low: usize = *low.get(&up).unwrap();
                            if node_low < up_low {
                                low.insert(up, node_low);
                            } else {
                                proof {
                                    assert(low@.insert(up, up_low) =~= low@);
                                }
                            }
                            if up != root && node_low >= *discovery.get(&up).unwrap() {
                                points.insert(up);
                            }
                        },
                        None => {},
                    }
                    proof {
                        lemma_kept_finished(
                            past,
                            graph,
                            points_before,
                            points@,
                            root,
                            root_children,
                            first_child,
                        );
                        search = past.finished();
                        assert(search.low =~= low@);
                    }
                }
            }
            let ghost points_before = points@;
            if root_children > 1 {
                points.insert(root);
            }
            proof {
                lemma_kept_done(
                    search,
                    graph,
                    points_before,
                    points@,
                    root,
                    root_children,
                    first_child,
                );
            }
        }
        i += 1;
    }
    proof {
        assert(discovery@.dom() =~= graph.nodes()) by {
            assert forall|id: NodeId| graph.nodes().contains(id) implies #[trigger]
                discovery@.contains_key(id) by {
                assert(ids@.to_set().contains(id));
                let k = choose|k: int| 0 <= k < ids@.len() && ids@[k] == id;
                assert(discovery@.contains_key(ids@[k]));
            }
        }
        assert forall|id: NodeId| #[trigger] points@.contains(id) <==> is_cut(graph, id) by {
            if points@.contains(id) {
                lemma_shown_is_cut(search, graph, id);
            }
            if is_cut(graph, id) {
                lemma_cut_is_shown(search, graph, id);
            }
        }
    }
    points
}

} // verus!
