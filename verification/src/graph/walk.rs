//! Walks and distances, the language in which the traversals are specified.
use vstd::prelude::*;

use crate::node::{EdgeView, NodeId};
use crate::storage::memtable::Table;
use crate::vector::VectorType;

verus! {

/// Which node can be reached from which in one step.
pub type Adjacency = spec_fn(NodeId, NodeId) -> bool;

/// Whether an edge has the label, where one is asked for.
pub open spec fn label_fits(label: Option<Seq<char>>, edge: EdgeView) -> bool {
    label matches Some(text) ==> edge.label == text
}

/// Whether an edge with the label leads from `from` to `to`.
pub open spec fn has_edge<T: VectorType>(
    table: Table<T>,
    label: Option<Seq<char>>,
    from: NodeId,
    to: NodeId,
) -> bool {
    exists|i: int|
        0 <= i < table.edges_of(from).len() && (#[trigger] table.edges_of(from)[i]).target == to
            && label_fits(label, table.edges_of(from)[i])
}

/// The steps along the edges of a table that have the label.
pub open spec fn outgoing<T: VectorType>(table: Table<T>, label: Option<Seq<char>>) -> Adjacency {
    |from: NodeId, to: NodeId| has_edge(table, label, from, to)
}

/// The steps of `adjacency`, taken backwards.
pub open spec fn reversed(adjacency: Adjacency) -> Adjacency {
    |from: NodeId, to: NodeId| adjacency(to, from)
}

/// Whether `to` can be reached from `from` in at most `steps` steps.
pub open spec fn within(adjacency: Adjacency, from: NodeId, to: NodeId, steps: nat) -> bool
    decreases steps,
{
    if steps == 0 {
        from == to
    } else {
        within(adjacency, from, to, (steps - 1) as nat) || exists|via: NodeId|
            within(adjacency, from, via, (steps - 1) as nat) && #[trigger] adjacency(via, to)
    }
}

/// Whether `to` can be reached from `from`, and `steps` is the smallest number of steps.
pub open spec fn is_distance(
    adjacency: Adjacency,
    from: NodeId,
    to: NodeId,
    steps: nat,
) -> bool {
    within(adjacency, from, to, steps) && forall|fewer: nat|
        fewer < steps ==> !#[trigger] within(adjacency, from, to, fewer)
}

/// Whether each node of `path` is one step from the one before it.
pub open spec fn is_walk(adjacency: Adjacency, path: Seq<NodeId>) -> bool {
    path.len() > 0 && forall|i: int|
        0 <= i < path.len() - 1 ==> #[trigger] step_at(adjacency, path, i)
}

/// Whether there is a step from node `i` of `path` to the next one.
pub open spec fn step_at(adjacency: Adjacency, path: Seq<NodeId>, i: int) -> bool {
    adjacency(path[i], path[i + 1])
}

/// Whether `path` is a walk from `from` to `to`.
pub open spec fn connects(
    adjacency: Adjacency,
    path: Seq<NodeId>,
    from: NodeId,
    to: NodeId,
) -> bool {
    is_walk(adjacency, path) && path[0] == from && path.last() == to
}

/// More steps reach at least as far.
pub proof fn lemma_within_grows(
    adjacency: Adjacency,
    from: NodeId,
    to: NodeId,
    few: nat,
    many: nat,
)
    requires
        within(adjacency, from, to, few),
        few <= many,
    ensures
        within(adjacency, from, to, many),
    decreases many,
{
    if few < many {
        lemma_within_grows(adjacency, from, to, few, (many - 1) as nat);
    }
}

/// One step further.
pub proof fn lemma_within_step(
    adjacency: Adjacency,
    from: NodeId,
    via: NodeId,
    to: NodeId,
    steps: nat,
)
    requires
        within(adjacency, from, via, steps),
        adjacency(via, to),
    ensures
        within(adjacency, from, to, steps + 1),
{
    assert(adjacency(via, to));
}

/// A walk with one more node.
pub proof fn lemma_walk_push(adjacency: Adjacency, path: Seq<NodeId>, next: NodeId)
    requires
        is_walk(adjacency, path),
        adjacency(path.last(), next),
    ensures
        is_walk(adjacency, path.push(next)),
        path.push(next)[0] == path[0],
        path.push(next).last() == next,
{
    let longer = path.push(next);
    assert forall|i: int| 0 <= i < longer.len() - 1 implies #[trigger] step_at(
        adjacency,
        longer,
        i,
    ) by {
        if i < path.len() - 1 {
            assert(step_at(adjacency, path, i));
        }
    }
}

/// The end of a walk is within as many steps as the walk takes.
pub proof fn law_walk_bounds_distance(adjacency: Adjacency, path: Seq<NodeId>)
    requires
        is_walk(adjacency, path),
    ensures
        within(adjacency, path[0], path.last(), (path.len() - 1) as nat),
    decreases path.len(),
{
    if path.len() > 1 {
        let shorter = path.drop_last();
        assert forall|i: int| 0 <= i < shorter.len() - 1 implies #[trigger] step_at(
            adjacency,
            shorter,
            i,
        ) by {
            assert(step_at(adjacency, path, i));
        }
        law_walk_bounds_distance(adjacency, shorter);
        assert(step_at(adjacency, path, path.len() - 2));
        lemma_within_step(
            adjacency,
            path[0],
            shorter.last(),
            path.last(),
            (shorter.len() - 1) as nat,
        );
    }
}

/// What is within some number of steps is reached by a walk of at most that many.
pub proof fn law_within_has_walk(
    adjacency: Adjacency,
    from: NodeId,
    to: NodeId,
    steps: nat,
) -> (path: Seq<NodeId>)
    requires
        within(adjacency, from, to, steps),
    ensures
        connects(adjacency, path, from, to),
        path.len() <= steps + 1,
    decreases steps,
{
    if steps == 0 {
        seq![from]
    } else if within(adjacency, from, to, (steps - 1) as nat) {
        law_within_has_walk(adjacency, from, to, (steps - 1) as nat)
    } else {
        let via = choose|via: NodeId|
            within(adjacency, from, via, (steps - 1) as nat) && #[trigger] adjacency(via, to);
        let path = law_within_has_walk(adjacency, from, via, (steps - 1) as nat);
        lemma_walk_push(adjacency, path, to);
        path.push(to)
    }
}

/// A node that can be reached at all has a distance.
pub proof fn lemma_distance_exists(
    adjacency: Adjacency,
    from: NodeId,
    to: NodeId,
    steps: nat,
) -> (distance: nat)
    requires
        within(adjacency, from, to, steps),
    ensures
        is_distance(adjacency, from, to, distance),
        distance <= steps,
    decreases steps,
{
    if steps > 0 && within(adjacency, from, to, (steps - 1) as nat) {
        lemma_distance_exists(adjacency, from, to, (steps - 1) as nat)
    } else {
        assert forall|fewer: nat| fewer < steps implies !#[trigger] within(
            adjacency,
            from,
            to,
            fewer,
        ) by {
            if within(adjacency, from, to, fewer) {
                lemma_within_grows(adjacency, from, to, fewer, (steps - 1) as nat);
            }
        }
        steps
    }
}

/// Whether the depths recorded so far are closed below `limit`: every step from a node recorded
/// at a smaller depth leads to a node recorded at most one deeper.
pub open spec fn closed_below(
    adjacency: Adjacency,
    depths: Map<NodeId, nat>,
    limit: nat,
) -> bool {
    forall|from: NodeId, to: NodeId|
        depths.contains_key(from) && depths[from] < limit && #[trigger] adjacency(from, to)
            ==> depths.contains_key(to) && depths[to] <= depths[from] + 1
}

/// Depths that are closed below a limit know every node within that limit.
pub proof fn lemma_closed_below(
    adjacency: Adjacency,
    source: NodeId,
    depths: Map<NodeId, nat>,
    limit: nat,
    to: NodeId,
    steps: nat,
)
    requires
        depths.contains_key(source),
        depths[source] == 0,
        closed_below(adjacency, depths, limit),
        steps <= limit,
        within(adjacency, source, to, steps),
    ensures
        depths.contains_key(to),
        depths[to] <= steps,
    decreases steps,
{
    if steps > 0 {
        let fewer = (steps - 1) as nat;
        if within(adjacency, source, to, fewer) {
            lemma_closed_below(adjacency, source, depths, limit, to, fewer);
        } else {
            let via = choose|via: NodeId|
            within(adjacency, source, via, fewer) && #[trigger] adjacency(via, to);
            lemma_closed_below(adjacency, source, depths, limit, via, fewer);
            assert(adjacency(via, to));
        }
    }
}

/// A node that no step from a known node reaches is further away than the known depths.
pub proof fn lemma_unreached(
    adjacency: Adjacency,
    source: NodeId,
    target: NodeId,
    depths: Map<NodeId, nat>,
    limit: nat,
    bound: nat,
    steps: nat,
)
    requires
        depths.contains_key(source),
        depths[source] == 0,
        source != target,
        closed_below(adjacency, depths, limit),
        bound <= limit + 1,
        forall|from: NodeId|
            depths.contains_key(from) && depths[from] < bound ==> !#[trigger] adjacency(
                from,
                target,
            ),
        steps <= bound,
    ensures
        !within(adjacency, source, target, steps),
    decreases steps,
{
    if steps > 0 {
        let fewer = (steps - 1) as nat;
        lemma_unreached(adjacency, source, target, depths, limit, bound, fewer);
        if within(adjacency, source, target, steps) {
            let via = choose|via: NodeId|
                within(adjacency, source, via, fewer) && #[trigger] adjacency(via, target);
            lemma_closed_below(adjacency, source, depths, limit, via, fewer);
        }
    }
}

/// Whether `to` can be reached from `from` at all.
pub open spec fn reaches(adjacency: Adjacency, from: NodeId, to: NodeId) -> bool {
    exists|steps: nat| #[trigger] within(adjacency, from, to, steps)
}

/// Every node reaches itself, and a step reaches its target.
pub proof fn lemma_reaches_step(adjacency: Adjacency, from: NodeId, to: NodeId)
    ensures
        reaches(adjacency, from, from),
        adjacency(from, to) ==> reaches(adjacency, from, to),
{
    assert(within(adjacency, from, from, 0));
    if adjacency(from, to) {
        lemma_within_step(adjacency, from, from, to, 0);
    }
}

/// One walk after another.
pub proof fn lemma_within_concat(
    adjacency: Adjacency,
    from: NodeId,
    via: NodeId,
    to: NodeId,
    first: nat,
    second: nat,
)
    requires
        within(adjacency, from, via, first),
        within(adjacency, via, to, second),
    ensures
        within(adjacency, from, to, first + second),
    decreases second,
{
    if second > 0 {
        let fewer = (second - 1) as nat;
        if within(adjacency, via, to, fewer) {
            lemma_within_concat(adjacency, from, via, to, first, fewer);
            lemma_within_grows(adjacency, from, to, first + fewer, first + second);
        } else {
            let last = choose|last: NodeId|
                within(adjacency, via, last, fewer) && #[trigger] adjacency(last, to);
            lemma_within_concat(adjacency, from, via, last, first, fewer);
            lemma_within_step(adjacency, from, last, to, first + fewer);
        }
    }
}

/// Reachability is transitive.
pub proof fn lemma_reaches_transitive(
    adjacency: Adjacency,
    from: NodeId,
    via: NodeId,
    to: NodeId,
)
    requires
        reaches(adjacency, from, via),
        reaches(adjacency, via, to),
    ensures
        reaches(adjacency, from, to),
{
    let first = choose|steps: nat| #[trigger] within(adjacency, from, via, steps);
    let second = choose|steps: nat| #[trigger] within(adjacency, via, to, steps);
    lemma_within_concat(adjacency, from, via, to, first, second);
}

} // verus!
