//! Strongly connected components.
use std::collections::{BTreeMap, BTreeSet};
use vstd::prelude::*;

use crate::collections::{lemma_contains_push, map_keys};
use crate::graph::walk::{
    lemma_reaches_step, lemma_reaches_transitive, lemma_within_step, reaches, within,
};
use crate::graph::workspace::{lists, GraphWorkspace};
use crate::node::NodeId;

verus! {

/// Whether two nodes reach each other.
pub open spec fn same_component(graph: &GraphWorkspace, a: NodeId, b: NodeId) -> bool {
    reaches(graph.steps(), a, b) && reaches(graph.steps(), b, a)
}

/// Whether a node is being expanded: its entry on the stack waits for its successors.
spec fn is_open(stack: Seq<(NodeId, bool)>, id: NodeId) -> bool {
    exists|i: int| 0 <= i < stack.len() && (#[trigger] stack[i]) == (id, true)
}

/// Whether a node waits above position `i` to be expanded.
spec fn waits_above(stack: Seq<(NodeId, bool)>, i: int, id: NodeId) -> bool {
    exists|j: int| i < j < stack.len() && (#[trigger] stack[j]) == (id, false)
}

/// What makes an order of the nodes a finishing order: where an edge leads to a node that
/// finishes later, that node reaches everything that finishes in between.
pub open spec fn finishes(graph: &GraphWorkspace, order: Seq<NodeId>) -> bool {
    forall|z: int, y: int, w: int|
        0 <= z <= w < y < order.len() && graph.has(#[trigger] order[z], #[trigger] order[y])
            ==> reaches(graph.steps(), order[y], #[trigger] order[w])
}

/// What holds during the first search. Every node that was visited is finished or being
/// expanded; nodes being expanded reach everything above them on the stack; their successors are
/// visited or wait above them; and what finished nodes lead to keeps the finishing order.
spec fn searching(
    graph: &GraphWorkspace,
    visited: Set<NodeId>,
    stack: Seq<(NodeId, bool)>,
    order: Seq<NodeId>,
) -> bool {
    let steps = graph.steps();
    &&& visited.finite()
    &&& visited.subset_of(graph.nodes())
    &&& forall|i: int| 0 <= i < stack.len() ==> graph.nodes().contains((#[trigger] stack[i]).0)
    &&& order.no_duplicates()
    &&& forall|id: NodeId| #[trigger]
        visited.contains(id) <==> order.contains(id) || is_open(stack, id)
    &&& forall|id: NodeId| #[trigger] order.contains(id) ==> !is_open(stack, id)
    &&& forall|i: int, j: int|
        0 <= i < j < stack.len() && (#[trigger] stack[i]).1 && (#[trigger] stack[j]).1
            ==> stack[i].0 != stack[j].0
    &&& forall|i: int, j: int|
        0 <= i < j < stack.len() && (#[trigger] stack[i]).1 ==> reaches(
            steps,
            stack[i].0,
            (#[trigger] stack[j]).0,
        )
    &&& forall|i: int, to: NodeId|
        0 <= i < stack.len() && (#[trigger] stack[i]).1 && #[trigger] graph.has(stack[i].0, to)
            ==> visited.contains(to) || waits_above(stack, i, to)
    &&& forall|z: int, to: NodeId|
        0 <= z < order.len() && #[trigger] graph.has(#[trigger] order[z], to) ==> visited.contains(
            to,
        )
    &&& forall|z: int, to: NodeId, w: int|
        0 <= z <= w < order.len() && #[trigger] graph.has(#[trigger] order[z], to) && is_open(
            stack,
            to,
        ) ==> reaches(steps, to, #[trigger] order[w])
    &&& finishes(graph, order)
}

/// Searches from `start` and appends the nodes found in the order in which they are finished.
fn finish_order(
    start: NodeId,
    graph: &GraphWorkspace,
    visited: &mut BTreeSet<NodeId>,
    order: &mut Vec<NodeId>,
)
    requires
        graph.well_formed(),
        graph.nodes().contains(start),
        searching(graph, old(visited)@, Seq::empty(), old(order)@),
    ensures
        searching(graph, final(visited)@, Seq::empty(), final(order)@),
        old(visited)@.subset_of(final(visited)@),
        final(visited)@.contains(start),
{
    let ghost steps = graph.steps();
    let mut stack: Vec<(NodeId, bool)> = Vec::new();
    stack.push((start, false));
    assert(forall|id: NodeId| !is_open(stack@, id));
    assert forall|id: NodeId| #[trigger] visited@.contains(id) <==> order@.contains(id) || is_open(
        stack@,
        id,
    ) by {
        assert(!is_open(Seq::<(NodeId, bool)>::empty(), id));
    }
    assert(stack@[0] == (start, false));
    while stack.len() > 0
        invariant
            graph.well_formed(),
            steps == graph.steps(),
            searching(graph, visited@, stack@, order@),
            old(visited)@.subset_of(visited@),
            visited@.contains(start) || waits_above(stack@, -1, start),
        decreases graph.nodes().len() - visited@.len(), stack@.len(),
    {
        let ghost before = stack@;
        let ghost known = visited@;
        let ghost finished = order@;
        let (node, expanded) = stack.pop().unwrap();
        proof {
            assert(before[before.len() - 1] == (node, expanded));
            assert(stack@ =~= before.drop_last());
            vstd::set_lib::lemma_len_subset(visited@, graph.nodes());
            assert forall|i: int, id: NodeId| -1 <= i < stack@.len() && #[trigger] waits_above(
                before,
                i,
                id,
            ) && id != node implies waits_above(stack@, i, id) by {
                let j = choose|j: int| i < j < before.len() && (#[trigger] before[j]) == (id, false);
                assert(stack@[j] == (id, false));
            }
            assert forall|id: NodeId| #[trigger] is_open(before, id) <==> is_open(stack@, id) || (
            expanded && id == node) by {
                if is_open(before, id) {
                    let i = choose|i: int| 0 <= i < before.len() && (#[trigger] before[i]) == (
                        id,
                        true,
                    );
                    if i < stack@.len() {
                        assert(stack@[i] == (id, true));
                    }
                }
                if is_open(stack@, id) {
                    let i = choose|i: int| 0 <= i < stack@.len() && (#[trigger] stack@[i]) == (
                        id,
                        true,
                    );
                    assert(before[i] == (id, true));
                }
            }
        }
        if expanded {
            order.push(node);
            proof {
                lemma_finished(graph, visited@, before, stack@, finished, order@, node);
            }
        } else if visited.contains(&node) {
            proof {
                lemma_passed(graph, visited@, before, stack@, order@, node);
            }
        } else {
            visited.insert(node);
            stack.push((node, true));
            let ghost base = stack@;
            let neighbors = graph.directed.get(&node).unwrap();
            let mut j: usize = neighbors.len();
            while j > 0
                invariant
                    j <= neighbors@.len(),
                    graph.well_formed(),
                    graph.nodes().contains(node),
                    *neighbors == graph.directed@[node],
                    base.len() <= stack@.len(),
                    forall|i: int| 0 <= i < base.len() ==> stack@[i] == base[i],
                    forall|i: int|
                        base.len() <= i < stack@.len() ==> !(#[trigger] stack@[i]).1 && graph.has(
                            node,
                            stack@[i].0,
                        ),
                    forall|n: int|
                        j <= n < neighbors@.len() ==> visited@.contains(#[trigger] neighbors@[n])
                            || waits_above(stack@, base.len() - 1, neighbors@[n]),
                decreases j,
            {
                j -= 1;
                let neighbor: NodeId = neighbors[j];
                let ghost held = stack@;
                if !visited.contains(&neighbor) {
                    stack.push((neighbor, false));
                    proof {
                        assert(graph.directed@[node]@.contains(neighbor)) by {
                            assert(neighbors@[j as int] == neighbor);
                        }
                        assert(stack@[held.len() as int] == (neighbor, false));
                        assert(waits_above(stack@, base.len() - 1, neighbor));
                    }
                }
                proof {
                    assert forall|n: int| j <= n < neighbors@.len() implies visited@.contains(
                        #[trigger] neighbors@[n],
                    ) || waits_above(stack@, base.len() - 1, neighbors@[n]) by {
                        if n > j && !visited@.contains(neighbors@[n]) {
                            assert(waits_above(held, base.len() - 1, neighbors@[n]));
                            let k = choose|k: int|
                                base.len() - 1 < k < held.len() && (#[trigger] held[k]) == (
                                    neighbors@[n],
                                    false,
                                );
                            assert(stack@[k] == (neighbors@[n], false));
                        }
                    }
                }
            }
            proof {
                lemma_opened(
                    graph,
                    known,
                    visited@,
                    before,
                    base,
                    stack@,
                    order@,
                    node,
                    neighbors@,
                );
                vstd::set_lib::lemma_len_subset(visited@, graph.nodes());
                if waits_above(before, -1, start) && start != node {
                    let k = choose|k: int|
                        -1 < k < before.len() && (#[trigger] before[k]) == (start, false);
                    assert(base[k] == (start, false));
                    assert(stack@[k] == (start, false));
                }
            }
        }
    }
    proof {
        assert(stack@ =~= Seq::<(NodeId, bool)>::empty());
    }
}

/// The state after a node has been finished.
proof fn lemma_finished(
    graph: &GraphWorkspace,
    visited: Set<NodeId>,
    before: Seq<(NodeId, bool)>,
    stack: Seq<(NodeId, bool)>,
    finished: Seq<NodeId>,
    order: Seq<NodeId>,
    node: NodeId,
)
    requires
        searching(graph, visited, before, finished),
        before.len() > 0,
        before.last() == (node, true),
        stack == before.drop_last(),
        order == finished.push(node),
        forall|id: NodeId| #[trigger]
            is_open(before, id) <==> is_open(stack, id) || id == node,
        forall|i: int, id: NodeId|
            -1 <= i < stack.len() && #[trigger] waits_above(before, i, id) && id != node
                ==> waits_above(stack, i, id),
    ensures
        searching(graph, visited, stack, order),
{
    let steps = graph.steps();
    let top = before.len() - 1;
    assert(before[top] == (node, true));
    assert(is_open(before, node));
    assert(!is_open(stack, node)) by {
        if is_open(stack, node) {
            let i = choose|i: int| 0 <= i < stack.len() && (#[trigger] stack[i]) == (node, true);
            assert(before[i] == (node, true));
            assert(before[i].0 != before[top].0);
        }
    }
    assert(!finished.contains(node));
    assert forall|id: NodeId| #[trigger] order.contains(id) <==> finished.contains(id) || id
        == node by {
        lemma_contains_push(finished, node, id);
    }
    assert forall|i: int, to: NodeId|
        0 <= i < stack.len() && (#[trigger] stack[i]).1 && #[trigger] graph.has(
            stack[i].0,
            to,
        ) implies visited.contains(to) || waits_above(stack, i, to) by {
        assert(before[i] == stack[i]);
        if !visited.contains(to) {
            assert(waits_above(before, i, to));
            assert(to != node);
        }
    }
    assert forall|to: NodeId| #[trigger] graph.has(node, to) implies visited.contains(to) by {
        if !visited.contains(to) {
            assert(waits_above(before, top, to));
        }
    }
    assert forall|z: int, to: NodeId|
        0 <= z < order.len() && #[trigger] graph.has(#[trigger] order[z], to) implies
        visited.contains(to) by {
        if z < finished.len() {
            assert(order[z] == finished[z]);
        }
    }
    assert forall|to: NodeId| is_open(stack, to) implies reaches(steps, to, node) by {
        let i = choose|i: int| 0 <= i < stack.len() && (#[trigger] stack[i]) == (to, true);
        assert(before[i] == (to, true));
        assert(reaches(steps, before[i].0, before[top].0));
    }
    assert forall|z: int, to: NodeId, w: int|
        0 <= z <= w < order.len() && #[trigger] graph.has(#[trigger] order[z], to) && is_open(
            stack,
            to,
        ) implies reaches(steps, to, #[trigger] order[w]) by {
        assert(is_open(before, to));
        if w < finished.len() {
            assert(order[z] == finished[z] && order[w] == finished[w]);
        }
    }
    assert forall|z: int, y: int, w: int|
        0 <= z <= w < y < order.len() && graph.has(
            #[trigger] order[z],
            #[trigger] order[y],
        ) implies reaches(steps, order[y], #[trigger] order[w]) by {
        assert(order[z] == finished[z] && order[w] == finished[w]);
        if y < finished.len() {
            assert(order[y] == finished[y]);
        } else {
            assert(graph.has(finished[z], node));
        }
    }
    assert forall|i: int, j: int|
        0 <= i < j < stack.len() && (#[trigger] stack[i]).1 implies reaches(
        steps,
        stack[i].0,
        (#[trigger] stack[j]).0,
    ) by {
        assert(before[i] == stack[i] && before[j] == stack[j]);
    }
    assert forall|i: int, j: int|
        0 <= i < j < stack.len() && (#[trigger] stack[i]).1 && (#[trigger] stack[j]).1 implies
        stack[i].0 != stack[j].0 by {
        assert(before[i] == stack[i] && before[j] == stack[j]);
    }
    assert forall|i: int, j: int|
        0 <= i < order.len() && 0 <= j < order.len() && i != j implies order[i] != order[j] by {
        if i < finished.len() && j < finished.len() {
            assert(finished[i] != finished[j]);
        } else if i < finished.len() {
            assert(finished.contains(finished[i]));
        } else {
            assert(finished.contains(finished[j]));
        }
    }
    assert forall|i: int| 0 <= i < stack.len() implies graph.nodes().contains(
        (#[trigger] stack[i]).0,
    ) by {
        assert(before[i] == stack[i]);
    }
}

/// The state after an entry for a visited node has been passed over.
proof fn lemma_passed(
    graph: &GraphWorkspace,
    visited: Set<NodeId>,
    before: Seq<(NodeId, bool)>,
    stack: Seq<(NodeId, bool)>,
    order: Seq<NodeId>,
    node: NodeId,
)
    requires
        searching(graph, visited, before, order),
        before.len() > 0,
        before.last() == (node, false),
        visited.contains(node),
        stack == before.drop_last(),
        forall|id: NodeId| #[trigger] is_open(before, id) <==> is_open(stack, id),
        forall|i: int, id: NodeId|
            -1 <= i < stack.len() && #[trigger] waits_above(before, i, id) && id != node
                ==> waits_above(stack, i, id),
    ensures
        searching(graph, visited, stack, order),
{
    assert forall|i: int, to: NodeId|
        0 <= i < stack.len() && (#[trigger] stack[i]).1 && #[trigger] graph.has(
            stack[i].0,
            to,
        ) implies visited.contains(to) || waits_above(stack, i, to) by {
        assert(before[i] == stack[i]);
        if !visited.contains(to) {
            assert(waits_above(before, i, to));
        }
    }
    assert forall|i: int, j: int|
        0 <= i < j < stack.len() && (#[trigger] stack[i]).1 implies reaches(
        graph.steps(),
        stack[i].0,
        (#[trigger] stack[j]).0,
    ) by {
        assert(before[i] == stack[i] && before[j] == stack[j]);
    }
    assert forall|i: int, j: int|
        0 <= i < j < stack.len() && (#[trigger] stack[i]).1 && (#[trigger] stack[j]).1 implies
        stack[i].0 != stack[j].0 by {
        assert(before[i] == stack[i] && before[j] == stack[j]);
    }
    assert forall|i: int| 0 <= i < stack.len() implies graph.nodes().contains(
        (#[trigger] stack[i]).0,
    ) by {
        assert(before[i] == stack[i]);
    }
}

/// The state after a node has been visited and its successors have been put on the stack.
proof fn lemma_opened(
    graph: &GraphWorkspace,
    known: Set<NodeId>,
    visited: Set<NodeId>,
    before: Seq<(NodeId, bool)>,
    base: Seq<(NodeId, bool)>,
    stack: Seq<(NodeId, bool)>,
    order: Seq<NodeId>,
    node: NodeId,
    neighbors: Seq<NodeId>,
)
    requires
        graph.well_formed(),
        searching(graph, known, before, order),
        before.len() > 0,
        before.last() == (node, false),
        !known.contains(node),
        visited == known.insert(node),
        base == before.drop_last().push((node, true)),
        neighbors == graph.directed@[node]@,
        base.len() <= stack.len(),
        forall|i: int| 0 <= i < base.len() ==> stack[i] == base[i],
        forall|i: int|
            base.len() <= i < stack.len() ==> !(#[trigger] stack[i]).1 && graph.has(
                node,
                stack[i].0,
            ),
        forall|n: int|
            0 <= n < neighbors.len() ==> visited.contains(#[trigger] neighbors[n]) || waits_above(
                stack,
                base.len() - 1,
                neighbors[n],
            ),
    ensures
        searching(graph, visited, stack, order),
{
    let steps = graph.steps();
    let top = before.len() - 1;
    assert(before[top] == (node, false));
    assert(base[top] == (node, true));
    assert(stack[top] == (node, true));
    assert forall|i: int| 0 <= i < top implies stack[i] == #[trigger] before[i] by {
        assert(base[i] == before[i]);
    }
    assert(!is_open(before, node));
    assert forall|id: NodeId| #[trigger] is_open(stack, id) <==> is_open(before, id) || id
        == node by {
        if is_open(before, id) {
            let i = choose|i: int| 0 <= i < before.len() && (#[trigger] before[i]) == (id, true);
            assert(stack[i] == before[i]);
        }
        if is_open(stack, id) && id != node {
            let i = choose|i: int| 0 <= i < stack.len() && (#[trigger] stack[i]) == (id, true);
            assert(i < top);
            assert(before[i] == stack[i]);
        }
    }
    assert(!order.contains(node)) by {
        if order.contains(node) {
            assert(known.contains(node));
        }
    }
    assert forall|i: int| 0 <= i < stack.len() implies graph.nodes().contains(
        (#[trigger] stack[i]).0,
    ) by {
        if i < top {
            assert(stack[i] == before[i]);
        } else if i >= base.len() {
            assert(graph.has(node, stack[i].0));
        }
    }
    assert forall|i: int, j: int|
        0 <= i < j < stack.len() && (#[trigger] stack[i]).1 && (#[trigger] stack[j]).1 implies
        stack[i].0 != stack[j].0 by {
        assert(j <= top);
        assert(stack[i] == before[i]);
        if j < top {
            assert(stack[j] == before[j]);
        } else if stack[i].0 == node {
            assert(before[i] == (node, true));
            assert(is_open(before, node));
        }
    }
    assert forall|i: int, j: int|
        0 <= i < j < stack.len() && (#[trigger] stack[i]).1 implies reaches(
        steps,
        stack[i].0,
        (#[trigger] stack[j]).0,
    ) by {
        if i < top {
            assert(stack[i] == before[i]);
            assert(reaches(steps, before[i].0, before[top].0));
            if j < top {
                assert(stack[j] == before[j]);
            } else if j > top {
                assert(graph.has(node, stack[j].0));
                lemma_reaches_step(steps, node, stack[j].0);
                lemma_reaches_transitive(steps, stack[i].0, node, stack[j].0);
            }
        } else {
            assert(i == top);
            assert(graph.has(node, stack[j].0));
            lemma_reaches_step(steps, node, stack[j].0);
        }
    }
    assert forall|i: int, to: NodeId|
        0 <= i < stack.len() && (#[trigger] stack[i]).1 && #[trigger] graph.has(
            stack[i].0,
            to,
        ) implies visited.contains(to) || waits_above(stack, i, to) by {
        if i < top {
            assert(stack[i] == before[i]);
            if !visited.contains(to) {
                assert(waits_above(before, i, to));
                let j = choose|j: int| i < j < before.len() && (#[trigger] before[j]) == (to, false);
                assert(j < top);
                assert(stack[j] == (to, false));
            }
        } else {
            assert(i == top);
            let n = choose|n: int| 0 <= n < neighbors.len() && neighbors[n] == to;
            assert(visited.contains(neighbors[n]) || waits_above(stack, base.len() - 1, to));
        }
    }
    assert forall|z: int, to: NodeId|
        0 <= z < order.len() && #[trigger] graph.has(#[trigger] order[z], to) implies
        visited.contains(to) by {
        assert(known.contains(to));
    }
    assert forall|z: int, to: NodeId, w: int|
        0 <= z <= w < order.len() && #[trigger] graph.has(#[trigger] order[z], to) && is_open(
            stack,
            to,
        ) implies reaches(steps, to, #[trigger] order[w]) by {
        assert(known.contains(to));
        assert(is_open(before, to));
    }
    assert forall|id: NodeId| #[trigger] visited.contains(id) <==> order.contains(id) || is_open(
        stack,
        id,
    ) by {
        assert(known.contains(id) <==> order.contains(id) || is_open(before, id));
    }
}

/// A walk that leaves the nodes finished by position `limit` crosses over somewhere.
proof fn lemma_crossing(
    graph: &GraphWorkspace,
    order: Seq<NodeId>,
    from: NodeId,
    to: NodeId,
    steps: nat,
    limit: int,
) -> (crossing: (int, int))
    requires
        graph.well_formed(),
        forall|id: NodeId| #[trigger] graph.nodes().contains(id) ==> order.contains(id),
        graph.nodes().contains(from),
        within(graph.steps(), from, to, steps),
        exists|i: int| 0 <= i <= limit && i < order.len() && (#[trigger] order[i]) == from,
        forall|i: int| 0 <= i <= limit && i < order.len() ==> (#[trigger] order[i]) != to,
    ensures
        0 <= crossing.0 <= limit < crossing.1 < order.len(),
        graph.has(order[crossing.0], order[crossing.1]),
        reaches(graph.steps(), from, order[crossing.1]),
    decreases steps,
{
    let adjacency = graph.steps();
    if steps == 0 {
        let i = choose|i: int| 0 <= i <= limit && i < order.len() && (#[trigger] order[i]) == from;
        assert(order[i] != to);
        (0, 0)
    } else if within(adjacency, from, to, (steps - 1) as nat) {
        lemma_crossing(graph, order, from, to, (steps - 1) as nat, limit)
    } else {
        let via = choose|via: NodeId|
            within(adjacency, from, via, (steps - 1) as nat) && #[trigger] adjacency(via, to);
        if exists|i: int| 0 <= i <= limit && i < order.len() && (#[trigger] order[i]) == via {
            let z = choose|i: int|
                0 <= i <= limit && i < order.len() && (#[trigger] order[i]) == via;
            assert(graph.has(via, to));
            assert(graph.nodes().contains(to));
            assert(order.contains(to));
            let y = choose|y: int| 0 <= y < order.len() && order[y] == to;
            lemma_within_step(adjacency, from, via, to, (steps - 1) as nat);
            (z, y)
        } else {
            lemma_crossing(graph, order, from, via, (steps - 1) as nat, limit)
        }
    }
}

/// The last position among `order[..bound]` of a node in the same component.
proof fn lemma_last_of_component(
    graph: &GraphWorkspace,
    order: Seq<NodeId>,
    id: NodeId,
    bound: int,
) -> (last: int)
    requires
        0 <= bound <= order.len(),
        exists|i: int| 0 <= i < bound && same_component(graph, id, #[trigger] order[i]),
    ensures
        0 <= last < bound,
        same_component(graph, id, order[last]),
        forall|i: int| last < i < bound ==> !same_component(graph, id, #[trigger] order[i]),
    decreases bound,
{
    if same_component(graph, id, order[bound - 1]) {
        bound - 1
    } else {
        let i = choose|i: int| 0 <= i < bound && same_component(graph, id, #[trigger] order[i]);
        assert(same_component(graph, id, order[i]));
        lemma_last_of_component(graph, order, id, bound - 1)
    }
}

/// In a finishing order, where one node reaches another that does not reach it back, its
/// component has a node that finishes after the other.
proof fn lemma_component_finishes_later(
    graph: &GraphWorkspace,
    order: Seq<NodeId>,
    from: NodeId,
    at: int,
) -> (later: int)
    requires
        graph.well_formed(),
        finishes(graph, order),
        order.no_duplicates(),
        forall|id: NodeId| #[trigger] graph.nodes().contains(id) ==> order.contains(id),
        graph.nodes().contains(from),
        0 <= at < order.len(),
        reaches(graph.steps(), from, order[at]),
        !reaches(graph.steps(), order[at], from),
    ensures
        at < later < order.len(),
        same_component(graph, from, order[later]),
{
    let adjacency = graph.steps();
    lemma_reaches_step(adjacency, from, from);
    assert(order.contains(from));
    let own = choose|i: int| 0 <= i < order.len() && order[i] == from;
    assert(same_component(graph, from, order[own]));
    let last = lemma_last_of_component(graph, order, from, order.len() as int);
    if last <= at {
        if last == at {
            assert(reaches(adjacency, order[at], from));
        }
        let steps = choose|steps: nat| #[trigger] within(adjacency, from, order[at], steps);
        assert(own <= last);
        assert(order[own] == from);
        assert forall|i: int| 0 <= i <= last && i < order.len() implies (#[trigger] order[i])
            != order[at] by {
            if order[i] == order[at] {
                assert(i == at);
            }
        }
        let (z, y) = lemma_crossing(graph, order, from, order[at], steps, last);
        assert(reaches(adjacency, order[y], order[last]));
        lemma_reaches_transitive(adjacency, order[y], order[last], from);
        assert(same_component(graph, from, order[y]));
        assert(false);
    }
    last
}

/// Whether `ids` is closed under taking predecessors.
spec fn closed_backwards(graph: &GraphWorkspace, ids: Set<NodeId>) -> bool {
    forall|from: NodeId, to: NodeId| #[trigger]
        graph.has(from, to) && ids.contains(to) ==> ids.contains(from)
}

/// What reaches a set that is closed under predecessors is in it.
proof fn lemma_closed_backwards(
    graph: &GraphWorkspace,
    ids: Set<NodeId>,
    from: NodeId,
    to: NodeId,
    steps: nat,
)
    requires
        closed_backwards(graph, ids),
        ids.contains(to),
        within(graph.steps(), from, to, steps),
    ensures
        ids.contains(from),
    decreases steps,
{
    let adjacency = graph.steps();
    if steps > 0 {
        if within(adjacency, from, to, (steps - 1) as nat) {
            lemma_closed_backwards(graph, ids, from, to, (steps - 1) as nat);
        } else {
            let via = choose|via: NodeId|
                within(adjacency, from, via, (steps - 1) as nat) && #[trigger] adjacency(via, to);
            assert(graph.has(via, to));
            lemma_closed_backwards(graph, ids, from, via, (steps - 1) as nat);
        }
    }
}

/// What holds of the components assigned so far: they are whole components, each named by its
/// smallest node.
spec fn assigned(
    graph: &GraphWorkspace,
    visited: Set<NodeId>,
    result: Map<NodeId, NodeId>,
) -> bool {
    &&& visited.finite()
    &&& visited.subset_of(graph.nodes())
    &&& closed_backwards(graph, visited)
    &&& result.dom() == visited
    &&& forall|id: NodeId| #[trigger]
        result.contains_key(id) ==> is_component_name(graph, id, result[id])
}

/// Whether `name` is the smallest node of the component of `id`.
pub open spec fn is_component_name(graph: &GraphWorkspace, id: NodeId, name: NodeId) -> bool {
    same_component(graph, id, name) && forall|other: NodeId| #[trigger]
        same_component(graph, id, other) ==> name <= other
}

/// The strongly connected components: each node is mapped to the smallest node of its component.
pub fn strongly_connected_components(graph: &GraphWorkspace) -> (result: BTreeMap<NodeId, NodeId>)
    requires
        graph.well_formed(),
    ensures
        result@.dom() == graph.nodes(),
        forall|id: NodeId| #[trigger]
            result@.contains_key(id) ==> is_component_name(graph, id, result@[id]),
{
    let ids = map_keys(&graph.directed);
    let mut visited: BTreeSet<NodeId> = BTreeSet::new();
    let mut order: Vec<NodeId> = Vec::new();
    let mut i: usize = 0;
    proof {
        assert forall|id: NodeId| !is_open(Seq::<(NodeId, bool)>::empty(), id) by {}
    }
    while i < ids.len()
        invariant
            i <= ids@.len(),
            graph.well_formed(),
            ids@.to_set() == graph.nodes(),
            searching(graph, visited@, Seq::empty(), order@),
            forall|k: int| 0 <= k < i ==> visited@.contains(#[trigger] ids@[k]),
        decreases ids@.len() - i,
    {
        let id: NodeId = ids[i];
        let ghost before = visited@;
        assert(graph.nodes().contains(id)) by {
            assert(ids@.contains(id));
            assert(ids@.to_set().contains(id));
        }
        if !visited.contains(&id) {
            finish_order(id, graph, &mut visited, &mut order);
        }
        proof {
            assert forall|k: int| 0 <= k < i + 1 implies visited@.contains(#[trigger] ids@[k]) by {
                if k < i {
                    assert(before.contains(ids@[k]));
                }
            }
        }
        i += 1;
    }
    proof {
        assert forall|id: NodeId| #[trigger] graph.nodes().contains(id) implies order@.contains(
            id,
        ) by {
            assert(ids@.to_set().contains(id));
            let k = choose|k: int| 0 <= k < ids@.len() && ids@[k] == id;
            assert(visited@.contains(ids@[k]));
            assert(!is_open(Seq::<(NodeId, bool)>::empty(), id));
        }
    }
    let mut result: BTreeMap<NodeId, NodeId> = BTreeMap::new();
    let ghost searched = visited@;
    proof {
        assert forall|k: int| 0 <= k < order@.len() implies graph.nodes().contains(
            #[trigger] order@[k],
        ) by {
            assert(order@.contains(order@[k]));
            assert(searched.contains(order@[k]));
        }
    }
    let mut found: BTreeSet<NodeId> = BTreeSet::new();
    assert(result@.dom() =~= found@);
    let mut k: usize = order.len();
    while k > 0
        invariant
            k <= order@.len(),
            graph.well_formed(),
            finishes(graph, order@),
            order@.no_duplicates(),
            forall|id: NodeId| #[trigger] graph.nodes().contains(id) ==> order@.contains(id),
            forall|n: int| 0 <= n < order@.len() ==> graph.nodes().contains(#[trigger] order@[n]),
            assigned(graph, found@, result@),
            forall|n: int| k <= n < order@.len() ==> found@.contains(#[trigger] order@[n]),
        decreases k,
    {
        k -= 1;
        let start: NodeId = order[k];
        let ghost before = found@;
        if !found.contains(&start) {
            assign_component(graph, start, &mut found, &mut result, Ghost(order@), Ghost(k as int));
        }
        proof {
            assert forall|n: int| k <= n < order@.len() implies found@.contains(
                #[trigger] order@[n],
            ) by {
                if n > k {
                    assert(before.contains(order@[n]));
                }
            }
        }
    }
    proof {
        assert(found@ =~= graph.nodes()) by {
            assert forall|id: NodeId| graph.nodes().contains(id) implies found@.contains(id) by {
                assert(order@.contains(id));
                let n = choose|n: int| 0 <= n < order@.len() && order@[n] == id;
                assert(found@.contains(order@[n]));
            }
        }
    }
    result
}

/// Collects the component of `start` by following edges backwards through nodes that have no
/// component yet, and names it.
fn assign_component(
    graph: &GraphWorkspace,
    start: NodeId,
    found: &mut BTreeSet<NodeId>,
    result: &mut BTreeMap<NodeId, NodeId>,
    Ghost(order): Ghost<Seq<NodeId>>,
    Ghost(at): Ghost<int>,
)
    requires
        graph.well_formed(),
        finishes(graph, order),
        order.no_duplicates(),
        forall|id: NodeId| #[trigger] graph.nodes().contains(id) ==> order.contains(id),
        0 <= at < order.len(),
        order[at] == start,
        graph.nodes().contains(start),
        !old(found)@.contains(start),
        assigned(graph, old(found)@, old(result)@),
        forall|n: int| at < n < order.len() ==> old(found)@.contains(#[trigger] order[n]),
    ensures
        assigned(graph, final(found)@, final(result)@),
        old(found)@.subset_of(final(found)@),
        final(found)@.contains(start),
{
    let ghost steps = graph.steps();
    let ghost before = found@;
    let mut stack: Vec<NodeId> = Vec::new();
    stack.push(start);
    let mut component: Vec<NodeId> = Vec::new();
    found.insert(start);
    proof {
        lemma_reaches_step(steps, start, start);
        assert(stack@[0] == start);
        assert forall|id: NodeId| #[trigger] found@.contains(id) <==> before.contains(id)
            || component@.contains(id) || stack@.contains(id) by {
            if stack@.contains(id) {
                let n = choose|n: int| 0 <= n < stack@.len() && stack@[n] == id;
                assert(id == start);
            }
        }
    }
    while stack.len() > 0
        invariant
            graph.well_formed(),
            steps == graph.steps(),
            before == old(found)@,
            found@.finite(),
            found@.subset_of(graph.nodes()),
            before.subset_of(found@),
            found@.contains(start),
            forall|id: NodeId| #[trigger]
                found@.contains(id) <==> before.contains(id) || component@.contains(id)
                    || stack@.contains(id),
            forall|n: int|
                0 <= n < stack@.len() ==> reaches(steps, #[trigger] stack@[n], start)
                    && !before.contains(stack@[n]),
            forall|n: int|
                0 <= n < component@.len() ==> reaches(steps, #[trigger] component@[n], start)
                    && !before.contains(component@[n]),
            forall|n: int, from: NodeId|
                0 <= n < component@.len() && #[trigger] graph.has(from, #[trigger] component@[n])
                    ==> found@.contains(from),
        decreases graph.nodes().len() - found@.len(), stack@.len(),
    {
        let ghost waiting = stack@;
        let ghost known = found@;
        let ghost collected = component@;
        let node: NodeId = stack.pop().unwrap();
        proof {
            assert(waiting[waiting.len() - 1] == node);
            assert(stack@ =~= waiting.drop_last());
            assert(waiting.contains(node));
            assert(known.contains(node));
            vstd::set_lib::lemma_len_subset(found@, graph.nodes());
        }
        component.push(node);
        let predecessors = graph.reverse.get(&node).unwrap();
        let mut j: usize = predecessors.len();
        proof {
            assert forall|id: NodeId| #[trigger] found@.contains(id) <==> before.contains(id)
                || component@.contains(id) || stack@.contains(id) by {
                lemma_contains_push(collected, node, id);
                if waiting.contains(id) {
                    let n = choose|n: int| 0 <= n < waiting.len() && waiting[n] == id;
                    if n < stack@.len() {
                        assert(stack@[n] == id);
                    }
                }
                if stack@.contains(id) {
                    let n = choose|n: int| 0 <= n < stack@.len() && stack@[n] == id;
                    assert(waiting[n] == id);
                }
            }
            assert(lists(graph.reverse@[node]@, |from: NodeId| graph.has(from, node)));
        }
        while j > 0
            invariant
                j <= predecessors@.len(),
                graph.well_formed(),
                steps == graph.steps(),
                graph.nodes().contains(node),
                *predecessors == graph.reverse@[node],
                forall|from: NodeId| #[trigger]
                    predecessors@.contains(from) <==> graph.has(from, node),
                reaches(steps, node, start),
                found@.finite(),
                found@.subset_of(graph.nodes()),
                known.subset_of(found@),
                before.subset_of(known),
                known.len() <= found@.len(),
                known.finite(),
                stack@.len() == waiting.len() - 1 || known.len() < found@.len(),
                forall|id: NodeId| #[trigger]
                    found@.contains(id) <==> before.contains(id) || component@.contains(id)
                        || stack@.contains(id),
                forall|n: int|
                    0 <= n < stack@.len() ==> reaches(steps, #[trigger] stack@[n], start)
                        && !before.contains(stack@[n]),
                forall|n: int|
                    j <= n < predecessors@.len() ==> found@.contains(#[trigger] predecessors@[n]),
            decreases j,
        {
            j -= 1;
            let predecessor: NodeId = predecessors[j];
            let ghost held = found@;
            let ghost listed = stack@;
            proof {
                assert(predecessors@.contains(predecessor));
                assert(graph.has(predecessor, node));
            }
            if found.insert(predecessor) {
                stack.push(predecessor);
                proof {
                    lemma_reaches_step(steps, predecessor, node);
                    lemma_reaches_transitive(steps, predecessor, node, start);
                    assert forall|id: NodeId| #[trigger] found@.contains(id) <==> before.contains(
                        id,
                    ) || component@.contains(id) || stack@.contains(id) by {
                        lemma_contains_push(listed, predecessor, id);
                        assert(held.contains(id) <==> before.contains(id) || component@.contains(id)
                            || listed.contains(id));
                    }
                }
            } else {
                assert(found@ =~= held);
            }
        }
        proof {
            vstd::set_lib::lemma_len_subset(found@, graph.nodes());
            assert forall|n: int, from: NodeId|
                0 <= n < component@.len() && #[trigger] graph.has(
                    from,
                    #[trigger] component@[n],
                ) implies found@.contains(from) by {
                if n < collected.len() {
                    assert(component@[n] == collected[n]);
                    assert(known.contains(from));
                } else {
                    assert(predecessors@.contains(from));
                    let m = choose|m: int| 0 <= m < predecessors@.len() && predecessors@[m] == from;
                    assert(found@.contains(predecessors@[m]));
                }
            }
        }
    }
    proof {
        assert(closed_backwards(graph, found@)) by {
            assert forall|from: NodeId, to: NodeId| #[trigger]
                graph.has(from, to) && found@.contains(to) implies found@.contains(from) by {
                assert(!stack@.contains(to));
                if before.contains(to) {
                    assert(before.contains(from));
                } else {
                    assert(component@.contains(to));
                    let n = choose|n: int| 0 <= n < component@.len() && component@[n] == to;
                    assert(graph.has(from, component@[n]));
                }
            }
        }
        assert forall|n: int| 0 <= n < component@.len() implies same_component(
            graph,
            start,
            #[trigger] component@[n],
        ) by {
            let id = component@[n];
            assert(component@.contains(id));
            if !reaches(steps, start, id) {
                let later = lemma_component_finishes_later(graph, order, id, at);
                assert(before.contains(order[later]));
                let count = choose|count: nat| #[trigger] within(steps, id, order[later], count);
                lemma_closed_backwards(graph, before, id, order[later], count);
            }
        }
        assert forall|id: NodeId| #[trigger] same_component(graph, start, id) implies
            component@.contains(id) by {
            let count = choose|count: nat| #[trigger] within(steps, id, start, count);
            lemma_closed_backwards(graph, found@, id, start, count);
            assert(!stack@.contains(id));
            if before.contains(id) {
                let back = choose|back: nat| #[trigger] within(steps, start, id, back);
                lemma_closed_backwards(graph, before, start, id, back);
            }
        }
        assert(component@.len() > 0) by {
            lemma_reaches_step(steps, start, start);
            assert(same_component(graph, start, start));
            assert(component@.contains(start));
        }
    }
    let mut name: NodeId = component[0];
    let mut i: usize = 1;
    while i < component.len()
        invariant
            1 <= i <= component@.len(),
            component@.contains(name),
            forall|n: int| 0 <= n < i ==> name <= #[trigger] component@[n],
        decreases component@.len() - i,
    {
        if component[i] < name {
            name = component[i];
            assert(component@[i as int] == name);
        }
        i += 1;
    }
    let ghost earlier = result@;
    let mut n: usize = 0;
    while n < component.len()
        invariant
            n <= component@.len(),
            earlier.dom() == before,
            forall|m: int| 0 <= m < component@.len() ==> !before.contains(#[trigger] component@[m]),
            forall|id: NodeId| #[trigger]
                result@.contains_key(id) <==> before.contains(id) || component@.subrange(
                    0,
                    n as int,
                ).contains(id),
            forall|id: NodeId| #[trigger]
                result@.contains_key(id) ==> result@[id] == (if before.contains(id) {
                    earlier[id]
                } else {
                    name
                }),
        decreases component@.len() - n,
    {
        let ghost held = result@;
        result.insert(component[n], name);
        proof {
            let few = component@.subrange(0, n as int);
            assert(component@.subrange(0, n + 1) =~= few.push(component@[n as int]));
            assert forall|id: NodeId| #[trigger] result@.contains_key(id) <==> before.contains(id)
                || component@.subrange(0, n + 1).contains(id) by {
                lemma_contains_push(few, component@[n as int], id);
                assert(held.contains_key(id) <==> before.contains(id) || few.contains(id));
            }
            assert forall|id: NodeId| #[trigger] result@.contains_key(id) implies result@[id] == (
            if before.contains(id) {
                earlier[id]
            } else {
                name
            }) by {
                if id != component@[n as int] {
                    assert(held.contains_key(id));
                }
            }
        }
        n += 1;
    }
    proof {
        assert(component@.subrange(0, n as int) =~= component@);
        assert(result@.dom() =~= found@) by {
            assert forall|id: NodeId| result@.contains_key(id) <==> found@.contains(id) by {
                assert(!stack@.contains(id));
            }
        }
        let m = choose|m: int| 0 <= m < component@.len() && component@[m] == name;
        assert(same_component(graph, start, component@[m]));
        assert forall|id: NodeId| #[trigger] result@.contains_key(id) implies is_component_name(
            graph,
            id,
            result@[id],
        ) by {
            if before.contains(id) {
                assert(earlier.contains_key(id));
            } else {
                let p = choose|p: int| 0 <= p < component@.len() && component@[p] == id;
                assert(same_component(graph, start, component@[p]));
                lemma_reaches_transitive(steps, id, start, name);
                lemma_reaches_transitive(steps, name, start, id);
                assert forall|other: NodeId| #[trigger] same_component(graph, id, other) implies
                    name <= other by {
                    lemma_reaches_transitive(steps, start, id, other);
                    lemma_reaches_transitive(steps, other, id, start);
                    assert(same_component(graph, start, other));
                    assert(component@.contains(other));
                    let q = choose|q: int| 0 <= q < component@.len() && component@[q] == other;
                    assert(name <= component@[q]);
                }
            }
        }
    }
}

/// Two nodes have the same component name exactly where each reaches the other.
pub proof fn law_component_names(
    graph: &GraphWorkspace,
    a: NodeId,
    b: NodeId,
    a_name: NodeId,
    b_name: NodeId,
)
    requires
        is_component_name(graph, a, a_name),
        is_component_name(graph, b, b_name),
    ensures
        a_name == b_name <==> same_component(graph, a, b),
{
    let steps = graph.steps();
    if a_name == b_name {
        lemma_reaches_transitive(steps, a, a_name, b);
        lemma_reaches_transitive(steps, b, b_name, a);
    }
    if same_component(graph, a, b) {
        lemma_reaches_transitive(steps, a, b, b_name);
        lemma_reaches_transitive(steps, b_name, b, a);
        assert(same_component(graph, a, b_name));
        lemma_reaches_transitive(steps, b, a, a_name);
        lemma_reaches_transitive(steps, a_name, a, b);
        assert(same_component(graph, b, a_name));
    }
}

} // verus!
