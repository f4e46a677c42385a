//! How many shortest paths lead through the nodes of a subgraph.
use std::collections::{BTreeMap, BTreeSet};
use vstd::prelude::*;

use crate::collections::{
    increasing, lemma_increasing_distinct, lemma_increasing_unique, lemma_to_set_push, map_keys,
};
use crate::error::{is_query_execution, query_execution, Result};
use crate::graph::centrality::{rank_nodes, scored_nodes};
use crate::graph::compact::saturated;
use crate::graph::dependency::PathArithmetic;
use crate::graph::walk::{
    closed_below, is_distance, lemma_closed_below, lemma_within_step, reaches, within,
};
use crate::graph::workspace::{
    is_edge_count, is_scan, law_scans_agree, same_lists, scan_subgraph, GraphWorkspace,
};
use crate::node::NodeId;
use crate::sorting::{order_of, sorted};
use crate::storage::memtable::{label_view, MemTable, Table};
use crate::vector::VectorType;

verus! {

/// The shortest paths from a node: the nodes that it reaches in the order of a breadth first
/// search, their distances, and for each the nodes before it on the shortest paths.
pub struct ShortestPaths {
    pub order: Vec<NodeId>,
    pub levels: Vec<usize>,
    pub predecessors: Vec<Vec<NodeId>>,
}

/// Those of the first `count` nodes that have an edge to `id` and are one step nearer.
pub open spec fn nearer(
    graph: &GraphWorkspace,
    order: Seq<NodeId>,
    levels: Seq<usize>,
    id: NodeId,
    level: usize,
    count: int,
) -> Seq<NodeId>
    decreases count,
{
    if count <= 0 {
        Seq::empty()
    } else {
        let before = nearer(graph, order, levels, id, level, count - 1);
        if graph.has(order[count - 1], id) && level == levels[count - 1] + 1 {
            before.push(order[count - 1])
        } else {
            before
        }
    }
}

/// Whether each node after the first was found by the first node in the order with an edge to it,
/// and the nodes found by one node come in the order of their ids.
pub open spec fn finds(graph: &GraphWorkspace, order: Seq<NodeId>, by: Seq<int>) -> bool {
    &&& by.len() == order.len()
    &&& forall|k: int|
        0 < k < order.len() ==> 0 <= #[trigger] by[k] < order.len() && graph.has(
            order[by[k]],
            order[k],
        )
    &&& forall|k: int, u: int|
        #![trigger by[k], order[u]]
        0 < k < order.len() && 0 <= u < by[k] ==> !graph.has(order[u], order[k])
    &&& forall|k: int, l: int|
        #![trigger by[k], by[l]]
        0 < k < l < order.len() ==> by[k] < by[l] || (by[k] == by[l] && order[k] < order[l])
}

/// Whether a breadth first search visits nodes in this order.
pub open spec fn is_breadth_first(
    graph: &GraphWorkspace,
    source: NodeId,
    order: Seq<NodeId>,
) -> bool {
    &&& order.len() > 0
    &&& order[0] == source
    &&& order.no_duplicates()
    &&& forall|id: NodeId| #[trigger]
        order.contains(id) <==> reaches(graph.steps(), source, id)
    &&& exists|by: Seq<int>| finds(graph, order, by)
}

/// Whether these are the shortest paths from a node.
pub open spec fn are_shortest_paths(
    graph: &GraphWorkspace,
    source: NodeId,
    paths: ShortestPaths,
) -> bool {
    let order = paths.order@;
    &&& is_breadth_first(graph, source, order)
    &&& paths.levels@.len() == order.len()
    &&& paths.predecessors@.len() == order.len()
    &&& forall|k: int|
        0 <= k < order.len() ==> is_distance(
            graph.steps(),
            source,
            #[trigger] order[k],
            paths.levels@[k] as nat,
        )
    &&& forall|k: int|
        0 <= k < order.len() ==> (#[trigger] paths.predecessors@[k])@ == nearer(
            graph,
            order,
            paths.levels@,
            order[k],
            paths.levels@[k],
            order.len() as int,
        )
}

/// The number of edges that start in some nodes.
pub open spec fn edges_from(
    graph: &GraphWorkspace,
    ids: Seq<NodeId>,
    starts: Set<NodeId>,
    count: int,
) -> nat
    decreases count,
{
    if count <= 0 {
        0
    } else {
        edges_from(graph, ids, starts, count - 1) + if starts.contains(ids[count - 1]) {
            graph.directed@[ids[count - 1]]@.len()
        } else {
            0
        }
    }
}

/// The nodes that a node reaches.
pub open spec fn reach_of(graph: &GraphWorkspace, source: NodeId) -> Set<NodeId> {
    Set::new(|id: NodeId| reaches(graph.steps(), source, id))
}

/// The edges that the searches from the first `count` nodes look at.
pub open spec fn searched_edges(graph: &GraphWorkspace, ids: Seq<NodeId>, count: int) -> nat
    decreases count,
{
    if count <= 0 {
        0
    } else {
        searched_edges(graph, ids, count - 1) + edges_from(
            graph,
            ids,
            reach_of(graph, ids[count - 1]),
            ids.len() as int,
        )
    }
}

/// More starts have at least as many edges.
proof fn lemma_edges_grow(
    graph: &GraphWorkspace,
    ids: Seq<NodeId>,
    few: Set<NodeId>,
    many: Set<NodeId>,
    count: int,
)
    requires
        forall|id: NodeId| #[trigger] ids.contains(id) && few.contains(id) ==> many.contains(id),
        count <= ids.len(),
    ensures
        edges_from(graph, ids, few, count) <= edges_from(graph, ids, many, count),
    decreases count,
{
    if count > 0 {
        assert(ids.contains(ids[count - 1]));
        lemma_edges_grow(graph, ids, few, many, count - 1);
    }
}

/// One more start has its edges more.
proof fn lemma_edges_insert(
    graph: &GraphWorkspace,
    ids: Seq<NodeId>,
    starts: Set<NodeId>,
    id: NodeId,
    count: int,
)
    requires
        ids.no_duplicates(),
        0 <= count <= ids.len(),
        !starts.contains(id),
    ensures
        edges_from(graph, ids, starts.insert(id), count) == edges_from(graph, ids, starts, count)
            + if ids.take(count).contains(id) {
            graph.directed@[id]@.len()
        } else {
            0
        },
    decreases count,
{
    if count > 0 {
        lemma_edges_insert(graph, ids, starts, id, count - 1);
        let last = ids[count - 1];
        assert(ids.take(count) =~= ids.take(count - 1).push(last));
        crate::collections::lemma_contains_push(ids.take(count - 1), last, id);
        if last == id {
            let fewer = ids.take(count - 1);
            assert(!fewer.contains(id)) by {
                if fewer.contains(id) {
                    let k = choose|k: int| 0 <= k < fewer.len() && fewer[k] == id;
                    assert(ids[k] == ids[count - 1]);
                }
            }
        }
    } else {
        assert(!ids.take(0).contains(id));
    }
}

/// Whether the edge from node `u` of the order to `to` has been looked at: all edges of the first
/// `head` nodes and the first `looked` edges of the next one.
spec fn is_seen(
    graph: &GraphWorkspace,
    order: Seq<NodeId>,
    head: int,
    looked: int,
    u: int,
    to: NodeId,
) -> bool {
    (0 <= u < head && graph.has(order[u], to)) || (u == head && graph.directed@[order[u]]@.take(
        looked,
    ).contains(to))
}

/// The predecessors known of node `k`.
spec fn known_nearer(
    graph: &GraphWorkspace,
    order: Seq<NodeId>,
    levels: Seq<usize>,
    head: int,
    looked: int,
    k: int,
) -> Seq<NodeId> {
    let before = nearer(graph, order, levels, order[k], levels[k], head);
    if head < order.len() && is_seen(graph, order, head, looked, head, order[k]) && levels[k]
        == levels[head] + 1 {
        before.push(order[head])
    } else {
        before
    }
}

/// What is known while a breadth first search is under way.
#[verifier::opaque]
spec fn is_searching(
    graph: &GraphWorkspace,
    source: NodeId,
    order: Seq<NodeId>,
    levels: Seq<usize>,
    predecessors: Seq<Vec<NodeId>>,
    by: Seq<int>,
    head: int,
    looked: int,
) -> bool {
    &&& order.len() > 0
    &&& levels.len() == order.len()
    &&& predecessors.len() == order.len()
    &&& order[0] == source
    &&& levels[0] == 0
    &&& order.no_duplicates()
    &&& 0 <= head <= order.len()
    &&& head == order.len() ==> looked == 0
    &&& 0 <= looked
    &&& head < order.len() ==> looked <= graph.directed@[order[head]]@.len()
    &&& forall|k: int| 0 <= k < order.len() ==> graph.nodes().contains(#[trigger] order[k])
    &&& forall|k: int, l: int|
        #![trigger levels[k], levels[l]]
        0 <= k <= l < levels.len() ==> levels[k] <= levels[l]
    &&& forall|k: int|
        0 <= k < levels.len() && head < levels.len() ==> #[trigger] levels[k] <= levels[head] + 1
    &&& forall|k: int| 0 <= k < levels.len() ==> #[trigger] levels[k] <= k
    &&& forall|k: int|
        0 <= k < order.len() ==> within(
            graph.steps(),
            source,
            #[trigger] order[k],
            levels[k] as nat,
        )
    &&& forall|u: int, to: NodeId|
        0 <= u < order.len() && #[trigger] is_seen(graph, order, head, looked, u, to)
            ==> order.contains(to)
    &&& forall|u: int, k: int|
        0 <= u < order.len() && 0 <= k < order.len() && #[trigger] is_seen(
            graph,
            order,
            head,
            looked,
            u,
            order[k],
        ) ==> levels[k] <= levels[u] + 1
    &&& forall|k: int|
        0 <= k < order.len() ==> (#[trigger] predecessors[k])@ == known_nearer(
            graph,
            order,
            levels,
            head,
            looked,
            k,
        )
    &&& finds(graph, order, by)
    &&& forall|k: int|
        0 < k < order.len() ==> #[trigger] by[k] <= head && is_seen(
            graph,
            order,
            head,
            looked,
            by[k],
            order[k],
        )
}

/// The predecessors depend on the nodes looked at alone.
proof fn lemma_nearer_same(
    graph: &GraphWorkspace,
    order: Seq<NodeId>,
    levels: Seq<usize>,
    other_order: Seq<NodeId>,
    other_levels: Seq<usize>,
    id: NodeId,
    level: usize,
    count: int,
)
    requires
        count <= order.len(),
        count <= other_order.len(),
        count <= levels.len(),
        count <= other_levels.len(),
        forall|u: int| 0 <= u < count ==> #[trigger] order[u] == other_order[u],
        forall|u: int| 0 <= u < count ==> #[trigger] levels[u] == other_levels[u],
    ensures
        nearer(graph, order, levels, id, level, count) == nearer(
            graph,
            other_order,
            other_levels,
            id,
            level,
            count,
        ),
    decreases count,
{
    if count > 0 {
        lemma_nearer_same(
            graph,
            order,
            levels,
            other_order,
            other_levels,
            id,
            level,
            count - 1,
        );
        assert(order[count - 1] == other_order[count - 1]);
        assert(levels[count - 1] == other_levels[count - 1]);
    }
}

/// A node to which no edge leads has no predecessors.
proof fn lemma_nearer_none(
    graph: &GraphWorkspace,
    order: Seq<NodeId>,
    levels: Seq<usize>,
    id: NodeId,
    level: usize,
    count: int,
)
    requires
        count <= order.len(),
        forall|u: int| 0 <= u < count ==> !graph.has(#[trigger] order[u], id),
    ensures
        nearer(graph, order, levels, id, level, count) == Seq::<NodeId>::empty(),
    decreases count,
{
    if count > 0 {
        lemma_nearer_none(graph, order, levels, id, level, count - 1);
        assert(!graph.has(order[count - 1], id));
    }
}

/// The search starts with its source.
proof fn lemma_search_start(
    graph: &GraphWorkspace,
    source: NodeId,
    order: Seq<NodeId>,
    levels: Seq<usize>,
    predecessors: Seq<Vec<NodeId>>,
)
    requires
        graph.nodes().contains(source),
        order == seq![source],
        levels == seq![0usize],
        predecessors.len() == 1,
        predecessors[0]@ == Seq::<NodeId>::empty(),
    ensures
        is_searching(graph, source, order, levels, predecessors, seq![0], 0, 0),
{
    reveal(is_searching);
    assert(within(graph.steps(), source, source, 0));
    assert(!graph.directed@[source]@.take(0).contains(source));
    assert forall|u: int, to: NodeId| 0 <= u < 1 implies !(#[trigger] is_seen(
        graph,
        order,
        0,
        0,
        u,
        to,
    )) by {
        assert(graph.directed@[order[u]]@.take(0).len() == 0);
    }
}

/// The nodes that have been looked at, with one more.
proof fn lemma_seen_more(
    graph: &GraphWorkspace,
    order: Seq<NodeId>,
    longer: Seq<NodeId>,
    head: int,
    looked: int,
    u: int,
    to: NodeId,
)
    requires
        0 <= head < order.len() <= longer.len(),
        0 <= u < order.len(),
        0 <= looked < graph.directed@[order[head]]@.len(),
        longer[u] == order[u],
        longer[head] == order[head],
    ensures
        is_seen(graph, longer, head, looked + 1, u, to) <==> (is_seen(
            graph,
            order,
            head,
            looked,
            u,
            to,
        ) || (u == head && to == graph.directed@[order[head]]@[looked])),
{
    let targets = graph.directed@[order[head]]@;
    assert(targets.take(looked + 1) =~= targets.take(looked).push(targets[looked]));
    crate::collections::lemma_contains_push(targets.take(looked), targets[looked], to);
}

/// What the current node and its next target are.
proof fn lemma_search_target(
    graph: &GraphWorkspace,
    source: NodeId,
    order: Seq<NodeId>,
    levels: Seq<usize>,
    predecessors: Seq<Vec<NodeId>>,
    by: Seq<int>,
    head: int,
    looked: int,
)
    requires
        graph.well_formed(),
        is_searching(graph, source, order, levels, predecessors, by, head, looked),
        head < order.len(),
    ensures
        order.len() == levels.len() == predecessors.len(),
        0 <= looked <= graph.directed@[order[head]]@.len(),
        graph.nodes().contains(order[head]),
        levels[head] <= head,
        looked < graph.directed@[order[head]]@.len() ==> ({
            let target = graph.directed@[order[head]]@[looked];
            &&& graph.nodes().contains(target)
            &&& graph.has(order[head], target)
            &&& !graph.directed@[order[head]]@.take(looked).contains(target)
        }),
{
    reveal(is_searching);
    assert(graph.nodes().contains(order[head]));
    let targets = graph.directed@[order[head]]@;
    assert(increasing(targets));
    if looked < targets.len() {
        let target = targets[looked];
        assert(targets.contains(target));
        assert(graph.has(order[head], target));
        let seen = targets.take(looked);
        if seen.contains(target) {
            let k = choose|k: int| 0 <= k < seen.len() && seen[k] == target;
            assert(targets[k] == targets[looked]);
        }
    }
}

/// A target that was found before may get one more predecessor.
proof fn lemma_search_known(
    graph: &GraphWorkspace,
    source: NodeId,
    order: Seq<NodeId>,
    levels: Seq<usize>,
    predecessors: Seq<Vec<NodeId>>,
    after: Seq<Vec<NodeId>>,
    by: Seq<int>,
    head: int,
    looked: int,
    place: int,
)
    requires
        graph.well_formed(),
        is_searching(graph, source, order, levels, predecessors, by, head, looked),
        head < order.len(),
        looked < graph.directed@[order[head]]@.len(),
        0 <= place < order.len(),
        order[place] == graph.directed@[order[head]]@[looked],
        after.len() == predecessors.len(),
        forall|k: int| 0 <= k < after.len() && k != place ==> #[trigger] after[k] == predecessors[k],
        after[place]@ == if levels[place] == levels[head] + 1 {
            predecessors[place]@.push(order[head])
        } else {
            predecessors[place]@
        },
    ensures
        is_searching(graph, source, order, levels, after, by, head, looked + 1),
{
    lemma_search_target(graph, source, order, levels, predecessors, by, head, looked);
    reveal(is_searching);
    let target = order[place];
    assert forall|u: int, to: NodeId|
        0 <= u < order.len() implies (#[trigger] is_seen(graph, order, head, looked + 1, u, to)
        <==> (is_seen(graph, order, head, looked, u, to) || (u == head && to == target))) by {
        lemma_seen_more(graph, order, order, head, looked, u, to);
    }
    assert(order.contains(target));
    assert forall|u: int, k: int|
        0 <= u < order.len() && 0 <= k < order.len() && #[trigger] is_seen(
            graph,
            order,
            head,
            looked + 1,
            u,
            order[k],
        ) implies levels[k] <= levels[u] + 1 by {
        if !is_seen(graph, order, head, looked, u, order[k]) {
            assert(levels[k] <= levels[head] + 1);
        }
    }
    assert(!is_seen(graph, order, head, looked, head, target));
    assert forall|k: int| 0 <= k < order.len() implies (#[trigger] after[k])@ == known_nearer(
        graph,
        order,
        levels,
        head,
        looked + 1,
        k,
    ) by {
        assert(predecessors[k]@ == known_nearer(graph, order, levels, head, looked, k));
        if k != place {
            assert(after[k] == predecessors[k]);
            assert(order[k] != target);
        }
        assert(is_seen(graph, order, head, looked + 1, head, order[k]) <==> (is_seen(
            graph,
            order,
            head,
            looked,
            head,
            order[k],
        ) || order[k] == target));
    }
    assert forall|k: int| 0 < k < order.len() implies #[trigger] by[k] <= head && is_seen(
        graph,
        order,
        head,
        looked + 1,
        by[k],
        order[k],
    ) by {
        assert(is_seen(graph, order, head, looked, by[k], order[k]));
    }
}

/// A target that was not found before comes last.
proof fn lemma_search_new(
    graph: &GraphWorkspace,
    source: NodeId,
    order: Seq<NodeId>,
    levels: Seq<usize>,
    predecessors: Seq<Vec<NodeId>>,
    first: Vec<NodeId>,
    by: Seq<int>,
    head: int,
    looked: int,
    target: NodeId,
    level: usize,
)
    requires
        graph.well_formed(),
        is_searching(graph, source, order, levels, predecessors, by, head, looked),
        head < order.len(),
        looked < graph.directed@[order[head]]@.len(),
        target == graph.directed@[order[head]]@[looked],
        !order.contains(target),
        level == levels[head] + 1,
        first@ == seq![order[head]],
    ensures
        is_searching(
            graph,
            source,
            order.push(target),
            levels.push(level),
            predecessors.push(first),
            by.push(head),
            head,
            looked + 1,
        ),
{
    lemma_search_target(graph, source, order, levels, predecessors, by, head, looked);
    reveal(is_searching);
    let longer = order.push(target);
    let deeper = levels.push(level);
    let after = predecessors.push(first);
    let found = by.push(head);
    let last = order.len() as int;
    assert forall|u: int, to: NodeId|
        0 <= u < order.len() implies (#[trigger] is_seen(graph, longer, head, looked + 1, u, to)
        <==> (is_seen(graph, order, head, looked, u, to) || (u == head && to == target))) by {
        lemma_seen_more(graph, order, longer, head, looked, u, to);
    }
    assert forall|u: int| 0 <= u < order.len() implies !is_seen(
        graph,
        order,
        head,
        looked,
        u,
        target,
    ) by {}
    assert forall|u: int| 0 <= u < head implies !graph.has(#[trigger] order[u], target) by {
        assert(!is_seen(graph, order, head, looked, u, target));
    }
    assert(longer.contains(target)) by {
        assert(longer[last] == target);
    }
    assert forall|id: NodeId| order.contains(id) implies #[trigger] longer.contains(id) by {
        let k = choose|k: int| 0 <= k < order.len() && order[k] == id;
        assert(longer[k] == id);
    }
    assert forall|u: int, to: NodeId|
        0 <= u < longer.len() && #[trigger] is_seen(
            graph,
            longer,
            head,
            looked + 1,
            u,
            to,
        ) implies longer.contains(to) by {
        assert(u <= head);
    }
    assert(within(graph.steps(), source, target, level as nat)) by {
        assert(within(graph.steps(), source, order[head], levels[head] as nat));
        assert((graph.steps())(order[head], target));
        lemma_within_step(graph.steps(), source, order[head], target, levels[head] as nat);
    }
    assert forall|k: int| 0 <= k < longer.len() implies within(
        graph.steps(),
        source,
        #[trigger] longer[k],
        deeper[k] as nat,
    ) by {
        if k < last {
            assert(longer[k] == order[k]);
        }
    }
    assert forall|k: int| 0 <= k < deeper.len() implies #[trigger] deeper[k] <= k by {
        assert(levels[head] <= head);
        if k < last {
            assert(deeper[k] == levels[k]);
        }
    }
    assert forall|k: int, l: int|
        #![trigger deeper[k], deeper[l]]
        0 <= k <= l < deeper.len() implies deeper[k] <= deeper[l] by {
        if l < last {
            assert(levels[k] <= levels[l]);
        } else if k < last {
            assert(levels[k] <= levels[head] + 1);
        }
    }
    assert forall|k: int| 0 <= k < longer.len() implies graph.nodes().contains(
        #[trigger] longer[k],
    ) by {
        if k < last {
            assert(graph.nodes().contains(order[k]));
        }
    }
    assert forall|u: int, k: int|
        0 <= u < longer.len() && 0 <= k < longer.len() && #[trigger] is_seen(
            graph,
            longer,
            head,
            looked + 1,
            u,
            longer[k],
        ) implies deeper[k] <= deeper[u] + 1 by {
        assert(u <= head);
        assert(deeper[u] == levels[u]);
        if k < last {
            assert(longer[k] == order[k]);
            assert(order.contains(order[k]));
            assert(is_seen(graph, order, head, looked, u, order[k]));
        } else {
            assert(u == head);
        }
    }
    assert forall|k: int| 0 <= k < longer.len() implies (#[trigger] after[k])@ == known_nearer(
        graph,
        longer,
        deeper,
        head,
        looked + 1,
        k,
    ) by {
        lemma_nearer_same(graph, order, levels, longer, deeper, longer[k], deeper[k], head);
        if k < last {
            assert(predecessors[k]@ == known_nearer(graph, order, levels, head, looked, k));
            assert(longer[k] == order[k] && deeper[k] == levels[k]);
            assert(order.contains(order[k]));
            assert(order[k] != target);
        } else {
            lemma_nearer_none(graph, order, levels, target, level, head);
            assert(is_seen(graph, longer, head, looked + 1, head, target));
            assert(first@ =~= Seq::<NodeId>::empty().push(order[head]));
        }
    }
    assert forall|k: int| 0 < k < longer.len() implies 0 <= #[trigger] found[k] < longer.len()
        && graph.has(longer[found[k]], longer[k]) && found[k] <= head && is_seen(
        graph,
        longer,
        head,
        looked + 1,
        found[k],
        longer[k],
    ) by {
        if k < last {
            assert(found[k] == by[k]);
            assert(is_seen(graph, order, head, looked, by[k], order[k]));
            assert(longer[by[k]] == order[by[k]]);
        }
    }
    assert forall|k: int, u: int|
        #![trigger found[k], longer[u]]
        0 < k < longer.len() && 0 <= u < found[k] implies !graph.has(longer[u], longer[k]) by {
        if k < last {
            assert(found[k] == by[k]);
            assert(longer[u] == order[u]);
            assert(!graph.has(order[u], order[k]));
        } else {
            assert(!graph.has(order[u], target));
        }
    }
    assert forall|k: int, l: int|
        #![trigger found[k], found[l]]
        0 < k < l < longer.len() implies found[k] < found[l] || (found[k] == found[l] && longer[k]
        < longer[l]) by {
        assert(found[k] == by[k]);
        if l < last {
            assert(found[l] == by[l]);
        } else if by[k] == head {
            let targets = graph.directed@[order[head]]@;
            assert(is_seen(graph, order, head, looked, by[k], order[k]));
            let seen = targets.take(looked);
            assert(seen.contains(order[k]));
            let at = choose|at: int| 0 <= at < seen.len() && seen[at] == order[k];
            assert(targets[at] == order[k]);
            assert(graph.nodes().contains(order[head]));
            assert(increasing(targets));
            assert(targets[at] < targets[looked]);
        }
    }
    assert(finds(graph, longer, found));
    assert(longer.no_duplicates()) by {
        assert forall|i: int, j: int|
            0 <= i < longer.len() && 0 <= j < longer.len() && i != j implies longer[i]
            != longer[j] by {
            if i < last && j < last {
                assert(order[i] != order[j]);
            } else if i < last {
                assert(order.contains(order[i]));
            } else {
                assert(order.contains(order[j]));
            }
        }
    }
}

/// When all targets of a node have been looked at, the next node comes.
proof fn lemma_search_next(
    graph: &GraphWorkspace,
    source: NodeId,
    order: Seq<NodeId>,
    levels: Seq<usize>,
    predecessors: Seq<Vec<NodeId>>,
    by: Seq<int>,
    head: int,
    looked: int,
)
    requires
        graph.well_formed(),
        is_searching(graph, source, order, levels, predecessors, by, head, looked),
        head < order.len(),
        looked == graph.directed@[order[head]]@.len(),
    ensures
        is_searching(graph, source, order, levels, predecessors, by, head + 1, 0),
{
    reveal(is_searching);
    let targets = graph.directed@[order[head]]@;
    assert(targets.take(looked) =~= targets);
    assert(graph.nodes().contains(order[head]));
    assert forall|u: int, to: NodeId|
        0 <= u < order.len() implies (#[trigger] is_seen(graph, order, head + 1, 0, u, to)
        <==> is_seen(graph, order, head, looked, u, to)) by {
        assert(graph.directed@[order[u]]@.take(0).len() == 0);
        assert(graph.has(order[head], to) <==> targets.contains(to));
    }
    assert forall|k: int| 0 <= k < order.len() implies (#[trigger] predecessors[k])@
        == known_nearer(graph, order, levels, head + 1, 0, k) by {
        assert(predecessors[k]@ == known_nearer(graph, order, levels, head, looked, k));
        assert(is_seen(graph, order, head, looked, head, order[k]) <==> graph.has(
            order[head],
            order[k],
        ));
        if head + 1 < order.len() {
            assert(!is_seen(graph, order, head + 1, 0, head + 1, order[k])) by {
                assert(graph.directed@[order[head + 1]]@.take(0).len() == 0);
            }
        }
    }
    if head + 1 < order.len() {
        assert(levels[head] <= levels[head + 1]);
    }
    assert forall|k: int| 0 < k < order.len() implies #[trigger] by[k] <= head + 1 && is_seen(
        graph,
        order,
        head + 1,
        0,
        by[k],
        order[k],
    ) by {
        assert(is_seen(graph, order, head, looked, by[k], order[k]));
    }
}

/// A search that has looked at all edges has found the shortest paths.
proof fn lemma_search_done(
    graph: &GraphWorkspace,
    source: NodeId,
    paths: ShortestPaths,
    by: Seq<int>,
)
    requires
        graph.well_formed(),
        is_searching(
            graph,
            source,
            paths.order@,
            paths.levels@,
            paths.predecessors@,
            by,
            paths.order@.len() as int,
            0,
        ),
    ensures
        are_shortest_paths(graph, source, paths),
{
    reveal(is_searching);
    let order = paths.order@;
    let levels = paths.levels@;
    let head = order.len() as int;
    let steps = graph.steps();
    let depths = Map::new(
        |id: NodeId| order.contains(id),
        |id: NodeId| levels[order.index_of(id)] as nat,
    );
    assert forall|k: int| 0 <= k < order.len() implies depths.contains_key(#[trigger] order[k])
        && depths[order[k]] == levels[k] by {
        assert(order.contains(order[k]));
        assert(order.index_of(order[k]) == k);
    }
    let limit = (head + 1) as nat;
    assert forall|from: NodeId, to: NodeId|
        depths.contains_key(from) && #[trigger] steps(from, to) implies depths.contains_key(to)
        && depths[to] <= depths[from] + 1 by {
        let u = order.index_of(from);
        assert(order[u] == from);
        assert(is_seen(graph, order, head, 0, u, to));
        let k = order.index_of(to);
        assert(order[k] == to);
        assert(is_seen(graph, order, head, 0, u, order[k]));
    }
    assert(depths[order[0]] == 0);
    assert forall|to: NodeId, count: nat| #[trigger]
        within(steps, source, to, count) implies depths.contains_key(to) && depths[to] <= count by {
        assert(closed_below(steps, depths, count + limit));
        lemma_closed_below(steps, source, depths, count + limit, to, count);
    }
    assert forall|id: NodeId| #[trigger] order.contains(id) <==> reaches(steps, source, id) by {
        if order.contains(id) {
            let k = order.index_of(id);
            assert(within(steps, source, order[k], levels[k] as nat));
        }
        if reaches(steps, source, id) {
            let count = choose|count: nat| #[trigger] within(steps, source, id, count);
            assert(depths.contains_key(id));
        }
    }
    assert forall|k: int| 0 <= k < order.len() implies is_distance(
        steps,
        source,
        #[trigger] order[k],
        levels[k] as nat,
    ) by {
        assert(within(steps, source, order[k], levels[k] as nat));
    }
    assert forall|k: int| 0 <= k < order.len() implies (#[trigger] paths.predecessors@[k])@
        == nearer(graph, order, levels, order[k], levels[k], head) by {}
    assert(finds(graph, order, by));
}

/// The nodes that have been searched are reached, and the current one is not among them.
proof fn lemma_searched(
    graph: &GraphWorkspace,
    source: NodeId,
    order: Seq<NodeId>,
    levels: Seq<usize>,
    predecessors: Seq<Vec<NodeId>>,
    by: Seq<int>,
    head: int,
    looked: int,
)
    requires
        is_searching(graph, source, order, levels, predecessors, by, head, looked),
    ensures
        order.len() == levels.len() == predecessors.len(),
        0 <= head <= order.len(),
        forall|k: int| 0 <= k < order.len() ==> reach_of(graph, source).contains(#[trigger] order[k]),
        forall|k: int| 0 <= k < order.len() ==> graph.nodes().contains(#[trigger] order[k]),
        order.no_duplicates(),
        head < order.len() ==> {
            &&& !order.take(head).to_set().contains(order[head])
            &&& order.take(head + 1).to_set() == order.take(head).to_set().insert(order[head])
        },
        looked >= 0,
{
    reveal(is_searching);
    assert forall|k: int| 0 <= k < order.len() implies reach_of(graph, source).contains(
        #[trigger] order[k],
    ) by {
        assert(within(graph.steps(), source, order[k], levels[k] as nat));
    }
    if head < order.len() {
        let done = order.take(head);
        if done.to_set().contains(order[head]) {
            let k = choose|k: int| 0 <= k < done.len() && done[k] == order[head];
            assert(order[k] == order[head]);
        }
        assert(order.take(head + 1) =~= done.push(order[head]));
        crate::collections::lemma_to_set_push(done, order[head]);
    }
}

/// The shortest paths from a node, unless that takes more looks at edges than are left.
fn search_from(
    graph: &GraphWorkspace,
    Ghost(ids): Ghost<Seq<NodeId>>,
    source: NodeId,
    spent: usize,
    max_examined_edges: usize,
) -> (result: Option<(ShortestPaths, usize)>)
    requires
        graph.well_formed(),
        increasing(ids),
        ids.to_set() == graph.nodes(),
        graph.nodes().contains(source),
        spent <= max_examined_edges,
    ensures
        ({
            let edges = edges_from(graph, ids, reach_of(graph, source), ids.len() as int);
            match result {
                Some((paths, examined)) => {
                    &&& are_shortest_paths(graph, source, paths)
                    &&& examined == saturated(spent as nat + edges)
                    &&& examined <= max_examined_edges
                },
                None => saturated(spent as nat + edges) > max_examined_edges,
            }
        }),
{
    let mut order: Vec<NodeId> = Vec::new();
    order.push(source);
    let mut levels: Vec<usize> = Vec::new();
    levels.push(0);
    let mut predecessors: Vec<Vec<NodeId>> = Vec::new();
    predecessors.push(Vec::new());
    let mut position: BTreeMap<NodeId, usize> = BTreeMap::new();
    position.insert(source, 0);
    let ghost mut by: Seq<int> = seq![0];
    let mut head: usize = 0;
    let mut examined: usize = spent;
    let ghost all = ids.len() as int;
    let ghost reach = reach_of(graph, source);
    proof {
        lemma_increasing_distinct(ids);
        assert(order@ =~= seq![source]);
        assert(levels@ =~= seq![0usize]);
        lemma_search_start(graph, source, order@, levels@, predecessors@);
        lemma_edges_none(graph, ids, all);
        assert(order@.take(0).to_set() =~= Set::empty());
        assert(order@.contains(order@[0]));
    }
    while head < order.len()
        invariant
            graph.well_formed(),
            increasing(ids),
            ids.no_duplicates(),
            ids.to_set() == graph.nodes(),
            all == ids.len(),
            reach == reach_of(graph, source),
            head <= order@.len(),
            is_searching(
                graph,
                source,
                order@,
                levels@,
                predecessors@,
                by,
                head as int,
                0,
            ),
            forall|id: NodeId| #[trigger] position@.contains_key(id) <==> order@.contains(id),
            forall|id: NodeId| #[trigger]
                position@.contains_key(id) ==> position@[id] < order@.len()
                    && order@[position@[id] as int] == id,
            examined == saturated(
                spent as nat + edges_from(graph, ids, order@.take(head as int).to_set(), all),
            ),
            examined <= max_examined_edges,
        decreases graph.nodes().len() - head,
    {
        let current: NodeId = order[head];
        let ghost searched = order@.take(head as int).to_set();
        let ghost edges_before = edges_from(graph, ids, searched, all);
        proof {
            lemma_search_target(
                graph,
                source,
                order@,
                levels@,
                predecessors@,
                by,
                head as int,
                0,
            );
            lemma_searched(graph, source, order@, levels@, predecessors@, by, head as int, 0);
            assert(ids.to_set().contains(current));
            assert(ids.contains(current));
            assert(ids.take(all) =~= ids);
            lemma_edges_insert(graph, ids, searched, current, all);
            order@.unique_seq_to_set();
            vstd::set_lib::lemma_len_subset(order@.to_set(), graph.nodes());
        }
        let targets = graph.directed.get(&current).unwrap();
        let level: usize = levels[head];
        let mut looked: usize = 0;
        while looked < targets.len()
            invariant
                graph.well_formed(),
                increasing(ids),
                ids.no_duplicates(),
                ids.to_set() == graph.nodes(),
                all == ids.len(),
                reach == reach_of(graph, source),
                head < order@.len(),
                order@[head as int] == current,
                graph.nodes().contains(current),
                targets@ == graph.directed@[current]@,
                looked <= targets@.len(),
                level == levels@[head as int],
                order@.take(head as int).to_set() == searched,
                !searched.contains(current),
                edges_before == edges_from(graph, ids, searched, all),
                edges_from(graph, ids, searched.insert(current), all) == edges_before
                    + targets@.len(),
                is_searching(
                    graph,
                    source,
                    order@,
                    levels@,
                    predecessors@,
                    by,
                    head as int,
                    looked as int,
                ),
                forall|id: NodeId| #[trigger] position@.contains_key(id) <==> order@.contains(id),
                forall|id: NodeId| #[trigger]
                    position@.contains_key(id) ==> position@[id] < order@.len()
                        && order@[position@[id] as int] == id,
                examined == saturated(spent as nat + edges_before + looked as nat),
                examined <= max_examined_edges,
            decreases targets@.len() - looked,
        {
            let target: NodeId = targets[looked];
            let found: usize = order.len();
            assert(head < found);
            let ghost before = predecessors@;
            let ghost past = order@;
            proof {
                lemma_search_target(
                    graph,
                    source,
                    order@,
                    levels@,
                    predecessors@,
                    by,
                    head as int,
                    looked as int,
                );
                lemma_searched(
                    graph,
                    source,
                    order@,
                    levels@,
                    predecessors@,
                    by,
                    head as int,
                    looked as int,
                );
            }
            examined = examined.saturating_add(1);
            if examined > max_examined_edges {
                proof {
                    assert forall|id: NodeId| #[trigger]
                        ids.contains(id) && searched.insert(current).contains(
                            id,
                        ) implies reach.contains(id) by {
                        if id == current {
                            assert(reach.contains(order@[head as int]));
                        } else {
                            let done = order@.take(head as int);
                            let k = choose|k: int| 0 <= k < done.len() && done[k] == id;
                            assert(reach.contains(order@[k]));
                        }
                    }
                    lemma_edges_grow(graph, ids, searched.insert(current), reach, all);
                }
                return None;
            }
            match position.get(&target) {
                Some(known) => {
                    let place: usize = *known;
                    if levels[place] == level + 1 {
                        predecessors[place].push(current);
                    }
                    proof {
                        lemma_search_known(
                            graph,
                            source,
                            order@,
                            levels@,
                            before,
                            predecessors@,
                            by,
                            head as int,
                            looked as int,
                            place as int,
                        );
                    }
                },
                None => {
                    let mut first: Vec<NodeId> = Vec::new();
                    first.push(current);
                    assert(first@ =~= seq![current]);
                    proof {
                        assert(!position@.contains_key(target));
                        lemma_search_new(
                            graph,
                            source,
                            order@,
                            levels@,
                            predecessors@,
                            first,
                            by,
                            head as int,
                            looked as int,
                            target,
                            (level + 1) as usize,
                        );
                        by = by.push(head as int);
                    }
                    position.insert(target, found);
                    order.push(target);
                    levels.push(level + 1);
                    predecessors.push(first);
                    proof {
                        assert forall|id: NodeId| #[trigger]
                            position@.contains_key(id) <==> order@.contains(id) by {
                            crate::collections::lemma_contains_push(past, target, id);
                        }
                        assert(order@.take(head as int) =~= past.take(head as int));
                    }
                },
            }
            looked += 1;
        }
        proof {
            lemma_search_next(
                graph,
                source,
                order@,
                levels@,
                predecessors@,
                by,
                head as int,
                looked as int,
            );
            lemma_searched(
                graph,
                source,
                order@,
                levels@,
                predecessors@,
                by,
                head as int,
                looked as int,
            );
            order@.unique_seq_to_set();
            vstd::set_lib::lemma_len_subset(order@.to_set(), graph.nodes());
        }
        head += 1;
    }
    let paths = ShortestPaths { order, levels, predecessors };
    proof {
        lemma_search_done(graph, source, paths, by);
        let whole = paths.order@;
        assert(whole.take(head as int) =~= whole);
        assert forall|id: NodeId| whole.to_set().contains(id) <==> reach.contains(id) by {
            assert(whole.contains(id) <==> reaches(graph.steps(), source, id));
        }
        assert(whole.to_set() =~= reach);
    }
    Some((paths, examined))
}

/// No starts have no edges.
proof fn lemma_edges_none(graph: &GraphWorkspace, ids: Seq<NodeId>, count: int)
    ensures
        edges_from(graph, ids, Set::empty(), count) == 0,
    decreases count,
{
    if count > 0 {
        lemma_edges_none(graph, ids, count - 1);
    }
}

/// The betweenness of the nodes of a subgraph. With a sample, `exact` says whether it covered all
/// nodes.
pub struct SubsetBetweennessResult {
    pub scores: Vec<(NodeId, u64)>,
    pub sampled_sources: usize,
    pub exact: bool,
    pub examined_edges: usize,
}

/// The number of nodes from which paths are searched.
pub open spec fn source_count(sample_size: Option<usize>, nodes: nat) -> nat {
    match sample_size {
        Some(size) => if size < nodes {
            size as nat
        } else {
            nodes
        },
        None => nodes,
    }
}

/// The nodes with the scores of their values, in the order of the nodes.
pub open spec fn score_list<
    P: Fn(u64, u64) -> u64,
    S: Fn(u64, u64, u64) -> u64,
    N: Fn(u64, usize, usize) -> u64,
>(
    arithmetic: PathArithmetic<P, S, N>,
    ids: Seq<NodeId>,
    values: Map<NodeId, u64>,
    count: nat,
) -> Seq<(NodeId, u64)> {
    Seq::new(
        ids.len(),
        |i: int|
            (ids[i], arithmetic.scored(values[ids[i]], ids.len() as usize, count as usize)),
    )
}

/// Whether `parts` are what the shortest paths from each of the first nodes contribute.
pub open spec fn are_contributions<
    P: Fn(u64, u64) -> u64,
    S: Fn(u64, u64, u64) -> u64,
    N: Fn(u64, usize, usize) -> u64,
>(
    graph: &GraphWorkspace,
    arithmetic: PathArithmetic<P, S, N>,
    ids: Seq<NodeId>,
    parts: Seq<Map<NodeId, u64>>,
) -> bool {
    forall|k: int|
        0 <= k < parts.len() ==> arithmetic.are_parts(graph, ids[k], #[trigger] parts[k])
}

/// Whether a result is the betweenness on a graph, with the paths from the first `count` nodes.
pub open spec fn is_betweenness<
    P: Fn(u64, u64) -> u64,
    S: Fn(u64, u64, u64) -> u64,
    N: Fn(u64, usize, usize) -> u64,
>(
    graph: &GraphWorkspace,
    arithmetic: PathArithmetic<P, S, N>,
    count: nat,
    result: SubsetBetweennessResult,
) -> bool {
    exists|ids: Seq<NodeId>, parts: Seq<Map<NodeId, u64>>|
        {
            &&& increasing(ids)
            &&& ids.to_set() == graph.nodes()
            &&& parts.len() == count
            &&& #[trigger] are_contributions(graph, arithmetic, ids, parts)
            &&& result.scores@ == sorted(
                score_list(
                    arithmetic,
                    ids,
                    arithmetic.values_after(graph.nodes(), parts, count as int),
                    count,
                ),
                order_of::<(NodeId, u64)>(),
            )
        }
}

/// The edges that a run looks at after the scan.
pub open spec fn is_search_work(graph: &GraphWorkspace, count: nat, work: nat) -> bool {
    exists|ids: Seq<NodeId>|
        #![trigger increasing(ids)]
        increasing(ids) && ids.to_set() == graph.nodes() && work == searched_edges(
            graph,
            ids,
            count as int,
        )
}

/// The work of fewer searches is no greater.
proof fn lemma_work_grows(graph: &GraphWorkspace, ids: Seq<NodeId>, few: int, many: int)
    requires
        few <= many,
    ensures
        searched_edges(graph, ids, few) <= searched_edges(graph, ids, many),
    decreases many,
{
    if few < many && many > 0 {
        lemma_work_grows(graph, ids, few, many - 1);
    }
}

/// What the searches on a graph come to: the betweenness, or a fault where they look at more edges
/// than are left.
pub open spec fn is_betweenness_outcome<
    P: Fn(u64, u64) -> u64,
    S: Fn(u64, u64, u64) -> u64,
    N: Fn(u64, usize, usize) -> u64,
>(
    graph: &GraphWorkspace,
    arithmetic: PathArithmetic<P, S, N>,
    count: nat,
    max_examined_edges: usize,
    result: Result<SubsetBetweennessResult>,
) -> bool {
    exists|work: nat| #[trigger]
        is_search_work(graph, count, work) && {
            let examined = saturated(graph.examined_edges as nat + work);
            match result {
                Ok(found) => {
                    &&& examined <= max_examined_edges
                    &&& found.examined_edges == examined
                    &&& found.sampled_sources == count
                    &&& found.exact == (count == graph.nodes().len())
                    &&& is_betweenness(graph, arithmetic, count, found)
                },
                Err(error) => examined > max_examined_edges && is_query_execution(
                    error,
                    "中介中心性超过边访问预算 (Betweenness exceeds edge examination budget)"@,
                ),
            }
        }
}

/// Zero for every node.
fn zero_values(graph: &GraphWorkspace, ids: &Vec<NodeId>) -> (values: BTreeMap<NodeId, u64>)
    requires
        ids@.to_set() == graph.nodes(),
    ensures
        values@ == Map::new(|id: NodeId| graph.nodes().contains(id), |id: NodeId| 0u64),
{
    let mut values: BTreeMap<NodeId, u64> = BTreeMap::new();
    let mut i: usize = 0;
    assert(values@.dom() =~= ids@.take(0).to_set());
    while i < ids.len()
        invariant
            i <= ids@.len(),
            values@.dom() == ids@.take(i as int).to_set(),
            forall|id: NodeId| #[trigger] values@.contains_key(id) ==> values@[id] == 0,
        decreases ids@.len() - i,
    {
        values.insert(ids[i], 0);
        proof {
            assert(ids@.take(i + 1) =~= ids@.take(i as int).push(ids@[i as int]));
            lemma_to_set_push(ids@.take(i as int), ids@[i as int]);
            assert(values@.dom() =~= ids@.take(i + 1).to_set());
        }
        i += 1;
    }
    assert(ids@.take(i as int) =~= ids@);
    assert(values@ =~= Map::new(|id: NodeId| graph.nodes().contains(id), |id: NodeId| 0u64));
    values
}

/// The nodes with the scores of their values, the greatest score first.
fn rank_values<
    P: Fn(u64, u64) -> u64,
    S: Fn(u64, u64, u64) -> u64,
    N: Fn(u64, usize, usize) -> u64,
>(
    arithmetic: &PathArithmetic<P, S, N>,
    ids: &Vec<NodeId>,
    values: &BTreeMap<NodeId, u64>,
    count: usize,
) -> (ranked: Vec<(NodeId, u64)>)
    requires
        arithmetic.sound(),
        values@.dom() == ids@.to_set(),
    ensures
        ranked@ == sorted(
            score_list(*arithmetic, ids@, values@, count as nat),
            order_of::<(NodeId, u64)>(),
        ),
{
    let mut scores: Vec<u64> = Vec::new();
    let mut i: usize = 0;
    while i < ids.len()
        invariant
            arithmetic.sound(),
            values@.dom() == ids@.to_set(),
            i <= ids@.len(),
            scores@.len() == i,
            forall|k: int|
                0 <= k < i ==> #[trigger] scores@[k] == arithmetic.scored(
                    values@[ids@[k]],
                    ids@.len() as usize,
                    count,
                ),
        decreases ids@.len() - i,
    {
        proof {
            assert(ids@.contains(ids@[i as int]));
            assert(ids@.to_set().contains(ids@[i as int]));
        }
        let score: u64 = (arithmetic.score)(*values.get(&ids[i]).unwrap(), ids.len(), count);
        scores.push(score);
        i += 1;
    }
    assert(scored_nodes(ids@, scores@) =~= score_list(*arithmetic, ids@, values@, count as nat));
    rank_nodes(ids, &scores)
}

/// The betweenness of the nodes of a graph, with the paths from the first `count` nodes.
fn graph_betweenness<
    P: Fn(u64, u64) -> u64,
    S: Fn(u64, u64, u64) -> u64,
    N: Fn(u64, usize, usize) -> u64,
>(
    graph: &GraphWorkspace,
    count: usize,
    max_examined_edges: usize,
    arithmetic: &PathArithmetic<P, S, N>,
) -> (result: Result<SubsetBetweennessResult>)
    requires
        graph.well_formed(),
        count <= graph.nodes().len(),
        graph.examined_edges <= max_examined_edges,
        arithmetic.sound(),
    ensures
        is_betweenness_outcome(graph, *arithmetic, count as nat, max_examined_edges, result),
{
    let ids = map_keys(&graph.directed);
    let mut values = zero_values(graph, &ids);
    let ghost mut parts: Seq<Map<NodeId, u64>> = Seq::empty();
    let mut examined: usize = graph.examined_edges;
    let mut i: usize = 0;
    proof {
        lemma_increasing_distinct(ids@);
        ids@.unique_seq_to_set();
        assert(values@.dom() =~= ids@.to_set());
    }
    let ghost total = searched_edges(graph, ids@, count as int);
    assert(is_search_work(graph, count as nat, total)) by {
        assert(increasing(ids@));
    }
    while i < count
        invariant
            graph.well_formed(),
            arithmetic.sound(),
            i <= count <= ids@.len(),
            increasing(ids@),
            ids@.to_set() == graph.nodes(),
            total == searched_edges(graph, ids@, count as int),
            is_search_work(graph, count as nat, total),
            parts.len() == i,
            are_contributions(graph, *arithmetic, ids@, parts),
            values@ == arithmetic.values_after(graph.nodes(), parts, i as int),
            values@.dom() == ids@.to_set(),
            examined <= max_examined_edges,
            examined == saturated(
                graph.examined_edges as nat + searched_edges(graph, ids@, i as int),
            ),
        decreases count - i,
    {
        let source: NodeId = ids[i];
        proof {
            assert(ids@.contains(source));
            assert(ids@.to_set().contains(source));
            lemma_work_grows(graph, ids@, i + 1, count as int);
        }
        match search_from(graph, Ghost(ids@), source, examined, max_examined_edges) {
            Some((found, spent)) => {
                let part = arithmetic.parts_of(graph, source, &found);
                values = arithmetic.take_in(&ids, &values, &part);
                proof {
                    let more = parts.push(part@);
                    lemma_values_kept(*arithmetic, graph.nodes(), parts, more, i as int);
                    assert forall|k: int| 0 <= k < more.len() implies arithmetic.are_parts(
                        graph,
                        ids@[k],
                        #[trigger] more[k],
                    ) by {
                        if k < i {
                            assert(more[k] == parts[k]);
                        }
                    }
                    parts = more;
                }
                examined = spent;
            },
            None => {
                return Err(
                    query_execution(
                        "中介中心性超过边访问预算 (Betweenness exceeds edge examination budget)",
                    ),
                );
            },
        }
        i += 1;
    }
    let exact = count == ids.len();
    let ranked = rank_values(arithmetic, &ids, &values, count);
    let found = SubsetBetweennessResult {
        scores: ranked,
        sampled_sources: count,
        exact,
        examined_edges: examined,
    };
    assert(is_betweenness(graph, *arithmetic, count as nat, found)) by {
        assert(are_contributions(graph, *arithmetic, ids@, parts));
    }
    Ok(found)
}

/// Later searches do not change what earlier ones gave.
proof fn lemma_values_kept<
    P: Fn(u64, u64) -> u64,
    S: Fn(u64, u64, u64) -> u64,
    N: Fn(u64, usize, usize) -> u64,
>(
    arithmetic: PathArithmetic<P, S, N>,
    nodes: Set<NodeId>,
    parts: Seq<Map<NodeId, u64>>,
    more: Seq<Map<NodeId, u64>>,
    count: int,
)
    requires
        count <= parts.len() <= more.len(),
        forall|k: int| 0 <= k < parts.len() ==> more[k] == #[trigger] parts[k],
    ensures
        arithmetic.values_after(nodes, more, count) == arithmetic.values_after(
            nodes,
            parts,
            count,
        ),
    decreases count,
{
    if count > 0 {
        lemma_values_kept(arithmetic, nodes, parts, more, count - 1);
        assert(more[count - 1] == parts[count - 1]);
    }
}

/// Whether `result` is what asking for the betweenness of some nodes within their subgraph comes
/// to.
pub open spec fn is_betweenness_result<
    T: VectorType,
    P: Fn(u64, u64) -> u64,
    S: Fn(u64, u64, u64) -> u64,
    N: Fn(u64, usize, usize) -> u64,
>(
    table: Table<T>,
    nodes: Set<NodeId>,
    label: Option<Seq<char>>,
    sample_size: Option<usize>,
    max_examined_edges: usize,
    arithmetic: PathArithmetic<P, S, N>,
    result: Result<SubsetBetweennessResult>,
) -> bool {
    if sample_size == Some(0usize) {
        result matches Err(error) && is_query_execution(
            error,
            "中介中心性采样数必须大于 0 (Betweenness sample size must be positive)"@,
        )
    } else {
        exists|edges: nat, scan: Option<GraphWorkspace>|
            {
                &&& is_edge_count(table, nodes, edges)
                &&& #[trigger] is_scan(table, nodes, label, max_examined_edges, edges, scan)
                &&& match scan {
                    Some(graph) => is_betweenness_outcome(
                        &graph,
                        arithmetic,
                        source_count(sample_size, nodes.len()),
                        max_examined_edges,
                        result,
                    ),
                    None => result matches Err(error) && is_query_execution(
                        error,
                        "中介中心性超过边访问预算 (Betweenness exceeds edge examination budget)"@,
                    ),
                }
            }
    }
}

/// The betweenness of the nodes of a subgraph: how many of the shortest paths from the first nodes
/// lead through each node.
pub fn subset_betweenness<
    T: VectorType,
    P: Fn(u64, u64) -> u64,
    S: Fn(u64, u64, u64) -> u64,
    N: Fn(u64, usize, usize) -> u64,
>(
    mt: &MemTable<T>,
    nodes: &BTreeSet<NodeId>,
    label_filter: Option<&str>,
    sample_size: Option<usize>,
    max_examined_edges: usize,
    arithmetic: &PathArithmetic<P, S, N>,
) -> (result: Result<SubsetBetweennessResult>)
    requires
        arithmetic.sound(),
    ensures
        is_betweenness_result(
            mt@,
            nodes@,
            label_view(label_filter),
            sample_size,
            max_examined_edges,
            *arithmetic,
            result,
        ),
{
    if let Some(size) = sample_size {
        if size == 0 {
            return Err(
                query_execution(
                    "中介中心性采样数必须大于 0 (Betweenness sample size must be positive)",
                ),
            );
        }
    }
    let scan = scan_subgraph(mt, nodes, label_filter, max_examined_edges);
    let ghost edges = choose|edges: nat| #[trigger]
        is_edge_count(mt@, nodes@, edges) && is_scan(
            mt@,
            nodes@,
            label_view(label_filter),
            max_examined_edges,
            edges,
            scan,
        );
    proof {
        assert(is_edge_count(mt@, nodes@, edges));
        assert(is_scan(
            mt@,
            nodes@,
            label_view(label_filter),
            max_examined_edges,
            edges,
            scan,
        ));
    }
    match scan {
        Some(graph) => {
            let total: usize = nodes.len();
            let count: usize = match sample_size {
                Some(size) => if size < total {
                    size
                } else {
                    total
                },
                None => total,
            };
            graph_betweenness(&graph, count, max_examined_edges, arithmetic)
        },
        None => Err(
            query_execution(
                "中介中心性超过边访问预算 (Betweenness exceeds edge examination budget)",
            ),
        ),
    }
}

/// The shortest paths from a node.
pub fn shortest_paths_from(graph: &GraphWorkspace, source: NodeId) -> (paths: ShortestPaths)
    requires
        graph.well_formed(),
        graph.nodes().contains(source),
    ensures
        are_shortest_paths(graph, source, paths),
{
    let ids = map_keys(&graph.directed);
    match search_from(graph, Ghost(ids@), source, 0, usize::MAX) {
        Some((paths, _)) => paths,
        None => {
            assert(false);
            ShortestPaths { order: Vec::new(), levels: Vec::new(), predecessors: Vec::new() }
        },
    }
}

/// The number of edges of a graph.
pub open spec fn is_graph_size(graph: &GraphWorkspace, edges: nat) -> bool {
    exists|ids: Seq<NodeId>|
        #![trigger increasing(ids)]
        increasing(ids) && ids.to_set() == graph.nodes() && edges == edges_from(
            graph,
            ids,
            graph.nodes(),
            ids.len() as int,
        )
}

/// The number of edges of a graph, as far as a machine word can hold it.
fn count_graph_edges(graph: &GraphWorkspace, ids: &Vec<NodeId>) -> (edges: usize)
    requires
        ids@.to_set() == graph.nodes(),
    ensures
        edges == saturated(edges_from(graph, ids@, graph.nodes(), ids@.len() as int)),
{
    let mut edges: usize = 0;
    let mut i: usize = 0;
    while i < ids.len()
        invariant
            i <= ids@.len(),
            ids@.to_set() == graph.nodes(),
            edges == saturated(edges_from(graph, ids@, graph.nodes(), i as int)),
        decreases ids@.len() - i,
    {
        let id: NodeId = ids[i];
        proof {
            assert(ids@.contains(id));
            assert(ids@.to_set().contains(id));
        }
        edges = edges.saturating_add(graph.directed.get(&id).unwrap().len());
        i += 1;
    }
    edges
}

/// What searches that run at the same time come to. They are taken to look at every edge each, so
/// the fault comes before the first search.
pub open spec fn is_planned_outcome<
    P: Fn(u64, u64) -> u64,
    S: Fn(u64, u64, u64) -> u64,
    N: Fn(u64, usize, usize) -> u64,
>(
    graph: &GraphWorkspace,
    arithmetic: PathArithmetic<P, S, N>,
    count: nat,
    max_examined_edges: usize,
    result: Result<SubsetBetweennessResult>,
) -> bool {
    exists|edges: nat| #[trigger]
        is_graph_size(graph, edges) && {
            let searched = saturated((saturated(edges) * count) as nat);
            let examined = saturated(graph.examined_edges as nat + searched);
            match result {
                Ok(found) => {
                    &&& examined <= max_examined_edges
                    &&& found.examined_edges == examined
                    &&& found.sampled_sources == count
                    &&& found.exact == (count == graph.nodes().len())
                    &&& is_betweenness(graph, arithmetic, count, found)
                },
                Err(error) => examined > max_examined_edges && is_query_execution(
                    error,
                    "中介中心性超过边访问预算 (Betweenness exceeds edge examination budget)"@,
                ),
            }
        }
}

/// Whether a function gives what the shortest paths from each of the first nodes contribute.
pub open spec fn searches_nodes<
    P: Fn(u64, u64) -> u64,
    S: Fn(u64, u64, u64) -> u64,
    N: Fn(u64, usize, usize) -> u64,
    A: Fn(&GraphWorkspace, &Vec<NodeId>, usize) -> Vec<BTreeMap<NodeId, u64>>,
>(arithmetic: PathArithmetic<P, S, N>, search_all: A) -> bool {
    &&& forall|graph: &GraphWorkspace, ids: &Vec<NodeId>, count: usize|
        graph.well_formed() && ids@.to_set() == graph.nodes() && count <= ids@.len()
            ==> #[trigger] call_requires(search_all, (graph, ids, count))
    &&& forall|
        graph: &GraphWorkspace,
        ids: &Vec<NodeId>,
        count: usize,
        parts: Vec<BTreeMap<NodeId, u64>>,
    |
        graph.well_formed() && ids@.to_set() == graph.nodes() && count <= ids@.len()
            && #[trigger] call_ensures(search_all, (graph, ids, count), parts) ==> parts@.len()
            == count && are_contributions(graph, arithmetic, ids@, part_views(parts@))
}

/// The contributions of several searches.
pub open spec fn part_views(parts: Seq<BTreeMap<NodeId, u64>>) -> Seq<Map<NodeId, u64>> {
    Seq::new(parts.len(), |i: int| parts[i]@)
}

/// Whether `result` is what asking for the betweenness by searches that run at the same time comes to.
pub open spec fn is_planned_result<
    T: VectorType,
    P: Fn(u64, u64) -> u64,
    S: Fn(u64, u64, u64) -> u64,
    N: Fn(u64, usize, usize) -> u64,
>(
    table: Table<T>,
    nodes: Set<NodeId>,
    label: Option<Seq<char>>,
    sample_size: Option<usize>,
    max_examined_edges: usize,
    arithmetic: PathArithmetic<P, S, N>,
    result: Result<SubsetBetweennessResult>,
) -> bool {
    if sample_size == Some(0usize) {
        result matches Err(error) && is_query_execution(
            error,
            "中介中心性采样数必须大于 0 (Betweenness sample size must be positive)"@,
        )
    } else {
        exists|edges: nat, scan: Option<GraphWorkspace>|
            {
                &&& is_edge_count(table, nodes, edges)
                &&& #[trigger] is_scan(table, nodes, label, max_examined_edges, edges, scan)
                &&& match scan {
                    Some(graph) => is_planned_outcome(
                        &graph,
                        arithmetic,
                        source_count(sample_size, nodes.len()),
                        max_examined_edges,
                        result,
                    ),
                    None => result matches Err(error) && is_query_execution(
                        error,
                        "中介中心性超过边访问预算 (Betweenness exceeds edge examination budget)"@,
                    ),
                }
            }
    }
}

/// The betweenness of the nodes of a subgraph, where `search_all` gives what the shortest paths
/// from the first nodes contribute, in whatever order or at the same time. The scores are those of
/// [`subset_betweenness`].
pub fn subset_betweenness_parallel<
    T: VectorType,
    P: Fn(u64, u64) -> u64,
    S: Fn(u64, u64, u64) -> u64,
    N: Fn(u64, usize, usize) -> u64,
    A: Fn(&GraphWorkspace, &Vec<NodeId>, usize) -> Vec<BTreeMap<NodeId, u64>>,
>(
    mt: &MemTable<T>,
    nodes: &BTreeSet<NodeId>,
    label_filter: Option<&str>,
    sample_size: Option<usize>,
    max_examined_edges: usize,
    arithmetic: &PathArithmetic<P, S, N>,
    search_all: A,
) -> (result: Result<SubsetBetweennessResult>)
    requires
        arithmetic.sound(),
        searches_nodes(*arithmetic, search_all),
    ensures
        is_planned_result(
            mt@,
            nodes@,
            label_view(label_filter),
            sample_size,
            max_examined_edges,
            *arithmetic,
            result,
        ),
{
    if let Some(size) = sample_size {
        if size == 0 {
            return Err(
                query_execution(
                    "中介中心性采样数必须大于 0 (Betweenness sample size must be positive)",
                ),
            );
        }
    }
    let scan = scan_subgraph(mt, nodes, label_filter, max_examined_edges);
    let ghost edges = choose|edges: nat| #[trigger]
        is_edge_count(mt@, nodes@, edges) && is_scan(
            mt@,
            nodes@,
            label_view(label_filter),
            max_examined_edges,
            edges,
            scan,
        );
    let ghost whole = scan;
    proof {
        assert(is_edge_count(mt@, nodes@, edges));
        assert(is_scan(
            mt@,
            nodes@,
            label_view(label_filter),
            max_examined_edges,
            edges,
            whole,
        ));
    }
    let graph = match scan {
        Some(graph) => graph,
        None => {
            return Err(
                query_execution(
                    "中介中心性超过边访问预算 (Betweenness exceeds edge examination budget)",
                ),
            );
        },
    };
    let ids = map_keys(&graph.directed);
    proof {
        lemma_increasing_distinct(ids@);
        ids@.unique_seq_to_set();
    }
    let total: usize = ids.len();
    let count: usize = match sample_size {
        Some(size) => if size < total {
            size
        } else {
            total
        },
        None => total,
    };
    let each: usize = count_graph_edges(&graph, &ids);
    let searched: usize = match each.checked_mul(count) {
        Some(product) => product,
        None => usize::MAX,
    };
    let examined: usize = graph.examined_edges.saturating_add(searched);
    let ghost size = edges_from(&graph, ids@, graph.nodes(), ids@.len() as int);
    proof {
        assert(increasing(ids@));
        assert(is_graph_size(&graph, size));
        assert(searched == saturated((saturated(size) * count as nat) as nat));
    }
    if examined > max_examined_edges {
        return Err(
            query_execution(
                "中介中心性超过边访问预算 (Betweenness exceeds edge examination budget)",
            ),
        );
    }
    let parts = search_all(&graph, &ids, count);
    let ghost given = part_views(parts@);
    let mut values = zero_values(&graph, &ids);
    let mut i: usize = 0;
    assert(values@.dom() =~= ids@.to_set());
    while i < parts.len()
        invariant
            arithmetic.sound(),
            given == part_views(parts@),
            i <= parts@.len(),
            values@ == arithmetic.values_after(graph.nodes(), given, i as int),
            values@.dom() == ids@.to_set(),
        decreases parts@.len() - i,
    {
        values = arithmetic.take_in(&ids, &values, &parts[i]);
        i += 1;
    }
    let ranked = rank_values(arithmetic, &ids, &values, count);
    let found = SubsetBetweennessResult {
        scores: ranked,
        sampled_sources: count,
        exact: count == total,
        examined_edges: examined,
    };
    proof {
        assert(are_contributions(&graph, *arithmetic, ids@, given));
        assert(is_betweenness(&graph, *arithmetic, count as nat, found));
    }
    Ok(found)
}

/// Subgraphs with the same lists have the same nodes one step nearer.
proof fn lemma_nearer_agrees(
    a: &GraphWorkspace,
    b: &GraphWorkspace,
    order: Seq<NodeId>,
    levels: Seq<usize>,
    id: NodeId,
    level: usize,
    count: int,
)
    requires
        forall|x: NodeId, y: NodeId| #[trigger] a.has(x, y) == b.has(x, y),
    ensures
        nearer(a, order, levels, id, level, count) == nearer(b, order, levels, id, level, count),
    decreases count,
{
    if count > 0 {
        lemma_nearer_agrees(a, b, order, levels, id, level, count - 1);
        assert(a.has(order[count - 1], id) == b.has(order[count - 1], id));
    }
}

/// Subgraphs with the same lists have the same shortest paths.
proof fn lemma_paths_carry_over(
    a: &GraphWorkspace,
    b: &GraphWorkspace,
    source: NodeId,
    paths: ShortestPaths,
)
    requires
        same_lists(a, b),
        are_shortest_paths(a, source, paths),
    ensures
        are_shortest_paths(b, source, paths),
{
    assert forall|x: NodeId, y: NodeId| #[trigger] a.has(x, y) == b.has(x, y) by {
        if a.nodes().contains(x) {
            assert(a.directed@[x]@ == b.directed@[x]@);
        }
    }
    assert(a.steps() =~= b.steps());
    let order = paths.order@;
    let by = choose|by: Seq<int>| finds(a, order, by);
    assert(finds(b, order, by)) by {
        assert forall|k: int| 0 < k < order.len() implies 0 <= #[trigger] by[k] < order.len()
            && b.has(order[by[k]], order[k]) by {
            assert(a.has(order[by[k]], order[k]));
        }
        assert forall|k: int, u: int|
            #![trigger by[k], order[u]]
            0 < k < order.len() && 0 <= u < by[k] implies !b.has(order[u], order[k]) by {
            assert(!a.has(order[u], order[k]));
        }
    }
    assert forall|k: int| 0 <= k < order.len() implies (#[trigger] paths.predecessors@[k])@
        == nearer(
        b,
        order,
        paths.levels@,
        order[k],
        paths.levels@[k],
        order.len() as int,
    ) by {
        lemma_nearer_agrees(
            a,
            b,
            order,
            paths.levels@,
            order[k],
            paths.levels@[k],
            order.len() as int,
        );
    }
}

/// Subgraphs with the same lists have the same betweenness.
proof fn lemma_betweenness_agrees<
    P: Fn(u64, u64) -> u64,
    S: Fn(u64, u64, u64) -> u64,
    N: Fn(u64, usize, usize) -> u64,
>(
    a: &GraphWorkspace,
    b: &GraphWorkspace,
    arithmetic: PathArithmetic<P, S, N>,
    count: nat,
    one: SubsetBetweennessResult,
    other: SubsetBetweennessResult,
)
    requires
        same_lists(a, b),
        is_betweenness(a, arithmetic, count, one),
        is_betweenness(b, arithmetic, count, other),
    ensures
        one.scores@ == other.scores@,
{
    let (ids, parts) = choose|ids: Seq<NodeId>, parts: Seq<Map<NodeId, u64>>|
        {
            &&& increasing(ids)
            &&& ids.to_set() == a.nodes()
            &&& parts.len() == count
            &&& #[trigger] are_contributions(a, arithmetic, ids, parts)
            &&& one.scores@ == sorted(
                score_list(
                    arithmetic,
                    ids,
                    arithmetic.values_after(a.nodes(), parts, count as int),
                    count,
                ),
                order_of::<(NodeId, u64)>(),
            )
        };
    let (others, more) = choose|ids: Seq<NodeId>, parts: Seq<Map<NodeId, u64>>|
        {
            &&& increasing(ids)
            &&& ids.to_set() == b.nodes()
            &&& parts.len() == count
            &&& #[trigger] are_contributions(b, arithmetic, ids, parts)
            &&& other.scores@ == sorted(
                score_list(
                    arithmetic,
                    ids,
                    arithmetic.values_after(b.nodes(), parts, count as int),
                    count,
                ),
                order_of::<(NodeId, u64)>(),
            )
        };
    lemma_increasing_unique(ids, others);
    assert forall|k: int| 0 <= k < parts.len() implies parts[k] == #[trigger] more[k] by {
        assert(arithmetic.are_parts(a, ids[k], parts[k]));
        assert(arithmetic.are_parts(b, ids[k], more[k]));
        let paths = choose|paths: ShortestPaths| #[trigger]
            are_shortest_paths(a, ids[k], paths) && parts[k] == arithmetic.dependencies(paths);
        lemma_paths_carry_over(a, b, ids[k], paths);
        assert(arithmetic.are_parts(b, ids[k], parts[k]));
        arithmetic.lemma_parts_agree(b, ids[k], parts[k], more[k]);
    }
    assert(parts =~= more);
}

/// Searches that run at the same time give the same scores as those that run one after the other.
pub proof fn law_parallel_scores_agree<
    T: VectorType,
    P: Fn(u64, u64) -> u64,
    S: Fn(u64, u64, u64) -> u64,
    N: Fn(u64, usize, usize) -> u64,
>(
    table: Table<T>,
    nodes: Set<NodeId>,
    label: Option<Seq<char>>,
    sample_size: Option<usize>,
    max_examined_edges: usize,
    arithmetic: PathArithmetic<P, S, N>,
    one: SubsetBetweennessResult,
    other: SubsetBetweennessResult,
)
    requires
        is_betweenness_result(
            table,
            nodes,
            label,
            sample_size,
            max_examined_edges,
            arithmetic,
            Ok(one),
        ),
        is_planned_result(
            table,
            nodes,
            label,
            sample_size,
            max_examined_edges,
            arithmetic,
            Ok(other),
        ),
    ensures
        one.scores@ == other.scores@,
        one.sampled_sources == other.sampled_sources,
        one.exact == other.exact,
{
    let count = source_count(sample_size, nodes.len());
    let (m, a) = choose|edges: nat, scan: Option<GraphWorkspace>|
        {
            &&& is_edge_count(table, nodes, edges)
            &&& #[trigger] is_scan(table, nodes, label, max_examined_edges, edges, scan)
            &&& scan matches Some(graph) && is_betweenness_outcome(
                &graph,
                arithmetic,
                source_count(sample_size, nodes.len()),
                max_examined_edges,
                Ok(one),
            )
        };
    let (n, b) = choose|edges: nat, scan: Option<GraphWorkspace>|
        {
            &&& is_edge_count(table, nodes, edges)
            &&& #[trigger] is_scan(table, nodes, label, max_examined_edges, edges, scan)
            &&& scan matches Some(graph) && is_planned_outcome(
                &graph,
                arithmetic,
                source_count(sample_size, nodes.len()),
                max_examined_edges,
                Ok(other),
            )
        };
    law_scans_agree(table, nodes, label, max_examined_edges, m, a, n, b);
    lemma_betweenness_agrees(&a->0, &b->0, arithmetic, count, one, other);
}

} // verus!
