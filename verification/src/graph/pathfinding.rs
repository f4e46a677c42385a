//! Path queries: breadth-first shortest paths, bounded path enumeration, neighbourhoods.
use std::collections::{HashMap, HashSet, VecDeque};
use vstd::prelude::*;

use crate::graph::precedence::{
    in_precedence, is_first_edge, is_first_walk, leads_at, lemma_found_first,
    lemma_precedence_grows, lemma_precedence_moves, lemma_precedence_starts,
};
use crate::graph::walk::{
    closed_below, connects, has_edge, is_distance, label_fits, law_walk_bounds_distance,
    law_within_has_walk, lemma_closed_below, lemma_distance_exists, lemma_unreached,
    lemma_walk_push, lemma_within_concat, lemma_within_grows, lemma_within_step, outgoing, step_at,
    within, Adjacency,
};
use crate::node::{edge_views, Edge, NodeId};
use crate::storage::memtable::{label_view, MemTable, Table};
use crate::text::same_text;
use crate::vector::{copy_slice, VectorType};

verus! {

/// The nodes of a path, from its start to its end.
pub type Path = Vec<NodeId>;

/// Whether an edge has the label, where one is asked for.
pub(crate) fn edge_allowed(edge: &Edge, label_filter: Option<&str>) -> (allowed: bool)
    ensures
        allowed == label_fits(label_view(label_filter), edge@),
{
    match label_filter {
        None => true,
        Some(text) => same_text(edge.label.as_str(), text),
    }
}

/// The depths of a map of machine integers.
pub open spec fn depth_view(depths: Map<NodeId, usize>) -> Map<NodeId, nat> {
    depths.map_values(|depth: usize| depth as nat)
}

/// Whether `id` waits in the queue.
pub open spec fn queued(queue: Seq<(NodeId, usize)>, id: NodeId) -> bool {
    exists|i: int| 0 <= i < queue.len() && (#[trigger] queue[i]).0 == id
}

/// What holds between two rounds of a breadth-first search: the queue is sorted by depth and
/// spans at most two depths, all recorded depths are those of real walks, and every node that
/// has left the queue has been expanded.
pub open spec fn search_state(
    adjacency: Adjacency,
    source: NodeId,
    depths: Map<NodeId, nat>,
    queue: Seq<(NodeId, usize)>,
    limit: nat,
) -> bool {
    &&& depths.contains_key(source)
    &&& depths[source] == 0
    &&& forall|id: NodeId| #[trigger]
        depths.contains_key(id) ==> depths[id] <= limit && within(
            adjacency,
            source,
            id,
            depths[id],
        )
    &&& forall|i: int|
        0 <= i < queue.len() ==> depths.contains_key((#[trigger] queue[i]).0)
            && depths[queue[i].0] == queue[i].1
    &&& forall|i: int, j: int|
        0 <= i <= j < queue.len() ==> (#[trigger] queue[i]).1 <= (#[trigger] queue[j]).1
            <= queue[i].1 + 1
    &&& forall|id: NodeId, i: int|
        #![trigger depths.contains_key(id), queue[i]]
        depths.contains_key(id) && 0 <= i < queue.len() ==> depths[id] <= queue[i].1 + 1
    &&& forall|from: NodeId, to: NodeId|
        depths.contains_key(from) && depths[from] < limit && !queued(queue, from)
            && #[trigger] adjacency(from, to) ==> depths.contains_key(to) && depths[to]
            <= depths[from] + 1
}

/// All nodes within `k` steps of `src`, with their distances.
pub fn k_hop_neighbors<T: VectorType>(
    mt: &MemTable<T>,
    src: NodeId,
    k: usize,
    label_filter: Option<&str>,
) -> (distances: HashMap<NodeId, usize>)
    requires
        mt.inv(),
    ensures
        forall|id: NodeId| #[trigger]
            distances@.contains_key(id) <==> within(
                outgoing(mt@, label_view(label_filter)),
                src,
                id,
                k as nat,
            ),
        forall|id: NodeId| #[trigger]
            distances@.contains_key(id) ==> is_distance(
                outgoing(mt@, label_view(label_filter)),
                src,
                id,
                distances@[id] as nat,
            ),
{
    let ghost adjacency = outgoing(mt@, label_view(label_filter));
    let ghost reachable = mt@.nodes.dom().insert(src);
    proof {
        mt.lemma_inv();
    }
    let mut distances: HashMap<NodeId, usize> = HashMap::new();
    distances.insert(src, 0);
    let mut queue: VecDeque<(NodeId, usize)> = VecDeque::new();
    queue.push_back((src, 0));
    proof {
        let depths = depth_view(distances@);
        assert(queue@[0] == (src, 0usize));
        assert forall|from: NodeId, to: NodeId|
            depths.contains_key(from) && depths[from] < k && !queued(queue@, from)
                && #[trigger] adjacency(from, to) implies depths.contains_key(to) && depths[to]
            <= depths[from] + 1 by {
            assert(queue@[0].0 == from);
        }
        assert(distances@.dom().subset_of(reachable));
    }
    while queue.len() > 0
        invariant
            adjacency == outgoing(mt@, label_view(label_filter)),
            reachable == mt@.nodes.dom().insert(src),
            mt@.well_formed(),
            search_state(adjacency, src, depth_view(distances@), queue@, k as nat),
            distances@.dom().subset_of(reachable),
            distances@.dom().finite(),
        decreases reachable.len() - distances@.dom().len(), queue@.len(),
    {
        let ghost before = queue@;
        let ghost known = distances@;
        let (current, depth) = queue.pop_front().unwrap();
        proof {
            assert(before[0] == (current, depth));
            assert forall|id: NodeId| queued(before, id) && id != current implies #[trigger] queued(
                queue@,
                id,
            ) by {
                let n = choose|n: int| 0 <= n < before.len() && (#[trigger] before[n]).0 == id;
                assert(queue@[n - 1].0 == id);
            }
            vstd::set_lib::lemma_len_subset(distances@.dom(), reachable);
        }
        if depth < k {
            match mt.get_edges(current) {
                None => {},
                Some(edges) => {
                    let mut i: usize = 0;
                    while i < edges.len()
                        invariant
                            i <= edges@.len(),
                            depth < k,
                            adjacency == outgoing(mt@, label_view(label_filter)),
                            reachable == mt@.nodes.dom().insert(src),
                            mt@.well_formed(),
                            mt@.nodes.contains_key(current),
                            edge_views(edges@) == mt@.nodes[current].edges,
                            depth_view(distances@).contains_key(current),
                            depth_view(distances@)[current] == depth,
                            depth_view(distances@).contains_key(src),
                            depth_view(distances@)[src] == 0,
                            distances@.dom().subset_of(reachable),
                            distances@.dom().finite(),
                            known.dom().finite(),
                            known.dom().len() <= distances@.dom().len(),
                            queue@.len() == before.len() - 1 || known.dom().len()
                                < distances@.dom().len(),
                            forall|id: NodeId| #[trigger]
                                depth_view(distances@).contains_key(id)
                                    ==> depth_view(distances@)[id] <= k && depth_view(
                                    distances@,
                                )[id] <= depth + 1 && within(
                                    adjacency,
                                    src,
                                    id,
                                    depth_view(distances@)[id],
                                ),
                            forall|n: int|
                                0 <= n < queue@.len() ==> depth_view(distances@).contains_key(
                                    (#[trigger] queue@[n]).0,
                                ) && depth_view(distances@)[queue@[n].0] == queue@[n].1 && depth
                                    <= queue@[n].1 <= depth + 1,
                            forall|n: int, m: int|
                                0 <= n <= m < queue@.len() ==> (#[trigger] queue@[n]).1 <= (
                                #[trigger] queue@[m]).1,
                            forall|from: NodeId, to: NodeId|
                                depth_view(distances@).contains_key(from) && depth_view(
                                    distances@,
                                )[from] < k && from != current && !queued(queue@, from)
                                    && #[trigger] adjacency(from, to) ==> depth_view(
                                    distances@,
                                ).contains_key(to) && depth_view(distances@)[to] <= depth_view(
                                    distances@,
                                )[from] + 1,
                            forall|j: int|
                                0 <= j < i && label_fits(
                                    label_view(label_filter),
                                    #[trigger] mt@.nodes[current].edges[j],
                                ) ==> depth_view(distances@).contains_key(
                                    mt@.nodes[current].edges[j].target,
                                ) && depth_view(distances@)[mt@.nodes[current].edges[j].target]
                                    <= depth + 1,
                        decreases edges@.len() - i,
                    {
                        let ghost seen = distances@;
                        let ghost waiting = queue@;
                        assert(edges@[i as int]@ == mt@.nodes[current].edges[i as int]);
                        if edge_allowed(&edges[i], label_filter) {
                            let next: NodeId = edges[i].target_id;
                            if !distances.contains_key(&next) {
                                proof {
                                    assert(has_edge(mt@, label_view(label_filter), current, next))
                                        by {
                                        assert(mt@.edges_of(current)[i as int].target == next);
                                    }
                                    lemma_within_step(
                                        adjacency,
                                        src,
                                        current,
                                        next,
                                        depth as nat,
                                    );
                                    assert(mt@.nodes.contains_key(
                                        mt@.nodes[current].edges[i as int].target,
                                    ));
                                }
                                distances.insert(next, depth + 1);
                                queue.push_back((next, depth + 1));
                                proof {
                                    assert(queue@[waiting.len() as int].0 == next);
                                    assert forall|id: NodeId| queued(waiting, id) implies queued(
                                        queue@,
                                        id,
                                    ) by {
                                        let n = choose|n: int|
                                            0 <= n < waiting.len() && (#[trigger] waiting[n]).0
                                                == id;
                                        assert(queue@[n].0 == id);
                                    }
                                    assert(queued(queue@, next));
                                    let old_depths = depth_view(seen);
                                    let depths = depth_view(distances@);
                                    assert forall|id: NodeId| #[trigger]
                                        depths.contains_key(id) implies depths[id] <= k
                                        && depths[id] <= depth + 1 && within(
                                        adjacency,
                                        src,
                                        id,
                                        depths[id],
                                    ) by {
                                        if id != next {
                                            assert(old_depths.contains_key(id));
                                        }
                                    }
                                    assert forall|id: NodeId| #[trigger]
                                        old_depths.contains_key(id) implies depths.contains_key(id)
                                        && depths[id] == old_depths[id] by {}
                                }
                            }
                        }
                        i += 1;
                    }
                    proof {
                        let depths = depth_view(distances@);
                        assert forall|to: NodeId| #[trigger] adjacency(current, to) implies
                            depths.contains_key(to) && depths[to] <= depth + 1 by {
                            let j = choose|j: int|
                                0 <= j < mt@.edges_of(current).len() && (
                                #[trigger] mt@.edges_of(current)[j]).target == to && label_fits(
                                    label_view(label_filter),
                                    mt@.edges_of(current)[j],
                                );
                            assert(mt@.nodes[current].edges[j].target == to);
                        }
                    }
                },
            }
        }
        proof {
            let depths = depth_view(distances@);
            if depth >= k || !mt@.nodes.contains_key(current) {
                assert(distances@ == known);
                assert forall|to: NodeId| depth < k && #[trigger] adjacency(
                    current,
                    to,
                ) implies false by {
                    assert(mt@.edges_of(current).len() == 0);
                }
            }
            vstd::set_lib::lemma_len_subset(distances@.dom(), reachable);
        }
    }
    proof {
        let depths = depth_view(distances@);
        assert(closed_below(adjacency, depths, k as nat));
        assert forall|id: NodeId| #[trigger] distances@.contains_key(id) <==> within(
            adjacency,
            src,
            id,
            k as nat,
        ) by {
            if within(adjacency, src, id, k as nat) {
                lemma_closed_below(adjacency, src, depths, k as nat, id, k as nat);
            }
            if distances@.contains_key(id) {
                assert(depths.contains_key(id));
                lemma_within_grows(adjacency, src, id, depths[id], k as nat);
            }
        }
        assert forall|id: NodeId| #[trigger] distances@.contains_key(id) implies is_distance(
            adjacency,
            src,
            id,
            distances@[id] as nat,
        ) by {
            assert(depths.contains_key(id));
            assert forall|fewer: nat| fewer < distances@[id] implies !#[trigger] within(
                adjacency,
                src,
                id,
                fewer,
            ) by {
                if within(adjacency, src, id, fewer) {
                    lemma_closed_below(adjacency, src, depths, k as nat, id, fewer);
                }
            }
        }
    }
    distances
}

/// Whether `path` is a shortest walk from `from` to `to`.
pub open spec fn is_shortest_path(
    adjacency: Adjacency,
    path: Seq<NodeId>,
    from: NodeId,
    to: NodeId,
) -> bool {
    connects(adjacency, path, from, to) && is_distance(
        adjacency,
        from,
        to,
        (path.len() - 1) as nat,
    )
}

/// Whether `id` waits in the queue, with its path.
pub open spec fn queued_path(queue: Seq<(NodeId, Path)>, id: NodeId) -> bool {
    exists|i: int| 0 <= i < queue.len() && (#[trigger] queue[i]).0 == id
}

/// Whether `result` is a shortest path within the depth bound, and none where there is none.
pub open spec fn is_shortest_answer(
    adjacency: Adjacency,
    src: NodeId,
    dst: NodeId,
    max_depth: nat,
    result: Option<Path>,
) -> bool {
    &&& result is Some <==> within(adjacency, src, dst, max_depth)
    &&& result matches Some(path) ==> is_shortest_path(adjacency, path@, src, dst) && path@.len()
        <= max_depth + 1
}

/// A node that is not known yet can be reached in one more step only from the node that is being
/// expanded, and from nodes that wait.
proof fn lemma_still_waiting(
    adjacency: Adjacency,
    src: NodeId,
    depths: Map<NodeId, nat>,
    queue: Seq<(NodeId, Path)>,
    order: Seq<Seq<NodeId>>,
    expanded: int,
    current: NodeId,
    next: NodeId,
)
    requires
        0 <= expanded < order.len(),
        order[expanded].len() > 0,
        order[expanded].last() == current,
        queue.len() + expanded + 1 == order.len(),
        forall|n: int| 0 <= n < queue.len() ==> (#[trigger] queue[n]).1@ == order[expanded + 1 + n],
        depths.contains_key(src),
        depths[src] == 0,
        closed_below(adjacency, depths, (order[expanded].len() - 1) as nat),
        forall|n: int|
            0 <= n < queue.len() ==> (#[trigger] queue[n]).1@.len() == depths[queue[n].0] + 1
                && connects(adjacency, queue[n].1@, src, queue[n].0) && queue[n].1@.len()
                >= order[expanded].len(),
        forall|from: NodeId| #[trigger]
            adjacency(from, next) && depths.contains_key(from) && depths[from]
                < order[expanded].len() && from != current ==> queued_path(queue, from),
    ensures
        forall|from: NodeId| #[trigger]
            adjacency(from, next) && within(
                adjacency,
                src,
                from,
                (order[expanded].len() - 1) as nat,
            ) ==> exists|a: int|
                expanded <= a < order.len() && (#[trigger] order[a]).last() == from
                    && order[a].len() == order[expanded].len(),
{
    let depth = (order[expanded].len() - 1) as nat;
    assert forall|from: NodeId| #[trigger] adjacency(from, next) && within(
        adjacency,
        src,
        from,
        depth,
    ) implies exists|a: int|
        expanded <= a < order.len() && (#[trigger] order[a]).last() == from && order[a].len()
            == order[expanded].len() by {
        lemma_closed_below(adjacency, src, depths, depth, from, depth);
        if from == current {
            assert(order[expanded].last() == from);
        } else {
            assert(queued_path(queue, from));
            let n = choose|n: int| 0 <= n < queue.len() && (#[trigger] queue[n]).0 == from;
            assert(order[expanded + 1 + n] == queue[n].1@);
            assert(order[expanded + 1 + n].last() == from);
        }
    }
}

/// A shortest path from `src` to `dst` along edges with the label, if there is one of at most
/// `max_depth` steps. A node is always connected to itself. Of several shortest paths it is the
/// first, where edges are taken in the order in which they are stored.
pub fn shortest_path<T: VectorType>(
    mt: &MemTable<T>,
    src: NodeId,
    dst: NodeId,
    max_depth: usize,
    label_filter: Option<&str>,
) -> (result: Option<Path>)
    requires
        mt.inv(),
    ensures
        is_shortest_answer(
            outgoing(mt@, label_view(label_filter)),
            src,
            dst,
            max_depth as nat,
            result,
        ),
        result matches Some(path) ==> is_first_walk(mt@, label_view(label_filter), path@),
{
    let ghost adjacency = outgoing(mt@, label_view(label_filter));
    let ghost reachable = mt@.nodes.dom().insert(src);
    let mut start: Path = Vec::new();
    start.push(src);
    if src == dst {
        proof {
            lemma_within_grows(adjacency, src, dst, 0, max_depth as nat);
            lemma_precedence_starts(mt@, label_view(label_filter), src);
            assert(start@ =~= seq![src]);
            assert(is_first_walk(mt@, label_view(label_filter), seq![seq![src]][0]));
        }
        return Some(start);
    }
    if max_depth == 0 {
        return None;
    }
    proof {
        mt.lemma_inv();
    }
    let mut visited: HashSet<NodeId> = HashSet::new();
    visited.insert(src);
    let mut queue: VecDeque<(NodeId, Path)> = VecDeque::new();
    queue.push_back((src, start));
    let ghost mut depths: Map<NodeId, nat> = Map::empty().insert(src, 0);
    let ghost label = label_view(label_filter);
    let ghost mut order: Seq<Seq<NodeId>> = seq![seq![src]];
    let ghost mut expanded: int = 0;
    proof {
        lemma_precedence_starts(mt@, label, src);
        assert(start@ =~= order[0]);
        assert(queue@[0] == (src, start));
        assert(visited@ =~= depths.dom());
        assert(visited@.subset_of(reachable));
        assert(queued_path(queue@, src));
    }
    while queue.len() > 0
        invariant
            src != dst,
            max_depth > 0,
            label == label_view(label_filter),
            in_precedence(mt@, label, src, order, expanded, 0),
            expanded >= 0,
            queue@.len() + expanded == order.len(),
            forall|n: int| 0 <= n < queue@.len() ==> (#[trigger] queue@[n]).1@ == order[expanded + n],
            adjacency == outgoing(mt@, label_view(label_filter)),
            reachable == mt@.nodes.dom().insert(src),
            mt@.well_formed(),
            visited@ == depths.dom(),
            visited@.finite(),
            visited@.subset_of(reachable),
            depths.contains_key(src),
            depths[src] == 0,
            forall|id: NodeId| #[trigger] depths.contains_key(id) ==> depths[id] < max_depth,
            forall|i: int|
                0 <= i < queue@.len() ==> depths.contains_key((#[trigger] queue@[i]).0)
                    && queue@[i].1@.len() == depths[queue@[i].0] + 1 && connects(
                    adjacency,
                    queue@[i].1@,
                    src,
                    queue@[i].0,
                ),
            forall|i: int, j: int|
                0 <= i <= j < queue@.len() ==> (#[trigger] queue@[i]).1@.len() <= (
                #[trigger] queue@[j]).1@.len() <= queue@[i].1@.len() + 1,
            forall|id: NodeId, i: int|
                #![trigger depths.contains_key(id), queue@[i]]
                depths.contains_key(id) && 0 <= i < queue@.len() ==> depths[id]
                    <= queue@[i].1@.len(),
            forall|from: NodeId, to: NodeId|
                depths.contains_key(from) && !queued_path(queue@, from) && #[trigger] adjacency(
                    from,
                    to,
                ) ==> to != dst && (depths[from] + 1 < max_depth ==> depths.contains_key(to)
                    && depths[to] <= depths[from] + 1),
        decreases reachable.len() - visited@.len(), queue@.len(),
    {
        let ghost before = queue@;
        let ghost known = visited@;
        let (current, path) = queue.pop_front().unwrap();
        let ghost depth = depths[current];
        proof {
            assert(before[0] == (current, path));
            assert(path@ == order[expanded + 0]);
            assert forall|n: int| 0 <= n < queue@.len() implies (#[trigger] queue@[n]).1@
                == order[expanded + 1 + n] by {
                assert(queue@[n] == before[n + 1]);
            }
            assert forall|id: NodeId| queued_path(before, id) && id != current implies
                #[trigger] queued_path(queue@, id) by {
                let n = choose|n: int| 0 <= n < before.len() && (#[trigger] before[n]).0 == id;
                assert(queue@[n - 1].0 == id);
            }
            vstd::set_lib::lemma_len_subset(visited@, reachable);
        }
        match mt.get_edges(current) {
            None => {
                proof {
                    assert(mt@.edges_of(current).len() == 0);
                    assert forall|to: NodeId| #[trigger] adjacency(current, to) implies false by {}
                    lemma_precedence_moves(mt@, label, src, order, expanded, 0, expanded + 1, 0);
                }
            },
            Some(edges) => {
                let mut i: usize = 0;
                while i < edges.len()
                    invariant
                        i <= edges@.len(),
                        label == label_view(label_filter),
                        in_precedence(mt@, label, src, order, expanded, i as int),
                        0 <= expanded < order.len(),
                        path@ == order[expanded],
                        queue@.len() + expanded + 1 == order.len(),
                        forall|n: int|
                            0 <= n < queue@.len() ==> (#[trigger] queue@[n]).1@ == order[expanded
                                + 1 + n],
                        src != dst,
                        adjacency == outgoing(mt@, label_view(label_filter)),
                        reachable == mt@.nodes.dom().insert(src),
                        mt@.well_formed(),
                        mt@.nodes.contains_key(current),
                        edge_views(edges@) == mt@.nodes[current].edges,
                        visited@ == depths.dom(),
                        visited@.finite(),
                        visited@.subset_of(reachable),
                        known.finite(),
                        known.len() <= visited@.len(),
                        queue@.len() == before.len() - 1 || known.len() < visited@.len(),
                        depths.contains_key(src),
                        depths[src] == 0,
                        depths.contains_key(current),
                        depths[current] == depth,
                        depth < max_depth,
                        path@.len() == depth + 1,
                        connects(adjacency, path@, src, current),
                        forall|id: NodeId| #[trigger]
                            depths.contains_key(id) ==> depths[id] < max_depth && depths[id]
                                <= depth + 1,
                        forall|n: int|
                            0 <= n < queue@.len() ==> depths.contains_key((#[trigger] queue@[n]).0)
                                && queue@[n].1@.len() == depths[queue@[n].0] + 1 && connects(
                                adjacency,
                                queue@[n].1@,
                                src,
                                queue@[n].0,
                            ) && depth + 1 <= queue@[n].1@.len() <= depth + 2,
                        forall|n: int, m: int|
                            0 <= n <= m < queue@.len() ==> (#[trigger] queue@[n]).1@.len() <= (
                            #[trigger] queue@[m]).1@.len(),
                        forall|from: NodeId, to: NodeId|
                            depths.contains_key(from) && from != current && !queued_path(
                                queue@,
                                from,
                            ) && #[trigger] adjacency(from, to) ==> to != dst && (depths[from] + 1
                                < max_depth ==> depths.contains_key(to) && depths[to]
                                <= depths[from] + 1),
                        forall|j: int|
                            0 <= j < i && label_fits(
                                label_view(label_filter),
                                #[trigger] mt@.nodes[current].edges[j],
                            ) ==> mt@.nodes[current].edges[j].target != dst && (depth + 1
                                < max_depth ==> depths.contains_key(
                                mt@.nodes[current].edges[j].target,
                            ) && depths[mt@.nodes[current].edges[j].target] <= depth + 1),
                    decreases edges@.len() - i,
                {
                    let ghost looked = order;
                    assert(edges@[i as int]@ == mt@.nodes[current].edges[i as int]);
                    if edge_allowed(&edges[i], label_filter) {
                        let next: NodeId = edges[i].target_id;
                        proof {
                            assert(mt@.edges_of(current)[i as int].target == next);
                            assert(has_edge(mt@, label_view(label_filter), current, next));
                            assert(adjacency(current, next));
                        }
                        if next == dst {
                            let mut result: Path = copy_slice(path.as_slice());
                            result.push(dst);
                            proof {
                                lemma_walk_push(adjacency, path@, dst);
                                law_walk_bounds_distance(adjacency, result@);
                                lemma_within_grows(
                                    adjacency,
                                    src,
                                    dst,
                                    (result@.len() - 1) as nat,
                                    max_depth as nat,
                                );
                                assert(closed_below(adjacency, depths, depth));
                                lemma_still_waiting(
                                    adjacency,
                                    src,
                                    depths,
                                    queue@,
                                    order,
                                    expanded,
                                    current,
                                    dst,
                                );
                                lemma_found_first(
                                    mt@,
                                    label,
                                    src,
                                    order,
                                    expanded,
                                    i as int,
                                    dst,
                                );
                                assert(result@ =~= order[expanded].push(dst));
                                assert forall|fewer: nat| fewer < depth + 1 implies
                                    !#[trigger] within(adjacency, src, dst, fewer) by {
                                    lemma_unreached(
                                        adjacency,
                                        src,
                                        dst,
                                        depths,
                                        depth,
                                        depth,
                                        fewer,
                                    );
                                }
                            }
                            return Some(result);
                        }
                        if !visited.contains(&next) && path.len() < max_depth {
                            let ghost waiting = queue@;
                            let ghost old_depths = depths;
                            let ghost old_order = order;
                            proof {
                                assert(closed_below(adjacency, depths, depth));
                                lemma_still_waiting(
                                    adjacency,
                                    src,
                                    depths,
                                    queue@,
                                    order,
                                    expanded,
                                    current,
                                    next,
                                );
                                lemma_found_first(
                                    mt@,
                                    label,
                                    src,
                                    order,
                                    expanded,
                                    i as int,
                                    next,
                                );
                                assert(is_first_edge(mt@, label, current, next, i as int)) by {
                                    assert forall|j: int| j < i implies !#[trigger] leads_at(
                                        mt@,
                                        label,
                                        current,
                                        next,
                                        j,
                                    ) by {
                                        if leads_at(mt@, label, current, next, j) {
                                            assert(mt@.nodes[current].edges[j].target == next);
                                        }
                                    }
                                }
                                lemma_precedence_grows(
                                    mt@,
                                    label,
                                    src,
                                    order,
                                    expanded,
                                    i as int,
                                    next,
                                );
                                order = order.push(order[expanded].push(next));
                            }
                            visited.insert(next);
                            let mut longer: Path = copy_slice(path.as_slice());
                            longer.push(next);
                            queue.push_back((next, longer));
                            proof {
                                lemma_walk_push(adjacency, path@, next);
                                assert(longer@ =~= old_order[expanded].push(next));
                                assert forall|n: int| 0 <= n < queue@.len() implies (
                                #[trigger] queue@[n]).1@ == order[expanded + 1 + n] by {
                                    if n < waiting.len() {
                                        assert(queue@[n] == waiting[n]);
                                    }
                                }
                                depths = depths.insert(next, depth + 1);
                                assert(visited@ =~= depths.dom());
                                assert(mt@.nodes.contains_key(
                                    mt@.nodes[current].edges[i as int].target,
                                ));
                                assert(queue@[waiting.len() as int].0 == next);
                                assert(queued_path(queue@, next));
                                assert forall|id: NodeId| queued_path(waiting, id) implies
                                    #[trigger] queued_path(queue@, id) by {
                                    let n = choose|n: int|
                                        0 <= n < waiting.len() && (#[trigger] waiting[n]).0 == id;
                                    assert(queue@[n].0 == id);
                                }
                                assert forall|id: NodeId| #[trigger]
                                    old_depths.contains_key(id) implies depths.contains_key(id)
                                    && depths[id] == old_depths[id] by {}
                            }
                        }
                    }
                    proof {
                        if order.len() == looked.len() {
                            lemma_precedence_moves(
                                mt@,
                                label,
                                src,
                                order,
                                expanded,
                                i as int,
                                expanded,
                                i + 1,
                            );
                        }
                    }
                    i += 1;
                }
                proof {
                    lemma_precedence_moves(
                        mt@,
                        label,
                        src,
                        order,
                        expanded,
                        i as int,
                        expanded + 1,
                        0,
                    );
                    assert forall|to: NodeId| #[trigger] adjacency(current, to) implies to != dst
                        && (depth + 1 < max_depth ==> depths.contains_key(to) && depths[to] <= depth
                        + 1) by {
                        let j = choose|j: int|
                            0 <= j < mt@.edges_of(current).len() && (
                            #[trigger] mt@.edges_of(current)[j]).target == to && label_fits(
                                label_view(label_filter),
                                mt@.edges_of(current)[j],
                            );
                        assert(mt@.nodes[current].edges[j].target == to);
                    }
                }
            },
        }
        proof {
            vstd::set_lib::lemma_len_subset(visited@, reachable);
            expanded = expanded + 1;
        }
    }
    proof {
        let limit = (max_depth - 1) as nat;
        assert(closed_below(adjacency, depths, limit));
        lemma_unreached(
            adjacency,
            src,
            dst,
            depths,
            limit,
            max_depth as nat,
            max_depth as nat,
        );
    }
    None
}

/// The neighbourhood of a node and shortest paths from it agree: a node is among the k-hop
/// neighbours exactly where a path of at most k steps leads to it, and its recorded distance
/// is the length of every shortest path.
pub proof fn law_neighborhood_matches_shortest_path(
    adjacency: Adjacency,
    path: Seq<NodeId>,
    src: NodeId,
    dst: NodeId,
    distance: nat,
)
    requires
        is_shortest_path(adjacency, path, src, dst),
        is_distance(adjacency, src, dst, distance),
    ensures
        path.len() == distance + 1,
{
    let steps = (path.len() - 1) as nat;
    if steps < distance {
        assert(within(adjacency, src, dst, steps));
    }
    if distance < steps {
        assert(within(adjacency, src, dst, distance));
    }
}

/// A shortest path passes no node twice.
pub proof fn law_shortest_paths_are_simple(
    adjacency: Adjacency,
    path: Seq<NodeId>,
    src: NodeId,
    dst: NodeId,
)
    requires
        is_shortest_path(adjacency, path, src, dst),
    ensures
        path.no_duplicates(),
{
    let last = path.len() - 1;
    assert forall|i: int, j: int|
        0 <= i < path.len() && 0 <= j < path.len() && i != j implies path[i] != path[j] by {
        let (a, b) = if i < j {
            (i, j)
        } else {
            (j, i)
        };
        if path[a] == path[b] {
            let head = path.take(a + 1);
            let tail = path.skip(b);
            assert forall|k: int| 0 <= k < head.len() - 1 implies #[trigger] step_at(
                adjacency,
                head,
                k,
            ) by {
                assert(step_at(adjacency, path, k));
            }
            assert forall|k: int| 0 <= k < tail.len() - 1 implies #[trigger] step_at(
                adjacency,
                tail,
                k,
            ) by {
                assert(step_at(adjacency, path, b + k));
            }
            law_walk_bounds_distance(adjacency, head);
            law_walk_bounds_distance(adjacency, tail);
            lemma_within_concat(
                adjacency,
                src,
                path[a],
                dst,
                a as nat,
                (last - b) as nat,
            );
            assert(within(adjacency, src, dst, (a + (last - b)) as nat));
        }
    }
}

// ---------------------------------------------------------------------------------------
// Enumerating paths
// ---------------------------------------------------------------------------------------
/// The views of a list of paths.
pub open spec fn path_views(paths: Seq<Path>) -> Seq<Seq<NodeId>> {
    paths.map_values(|path: Path| path@)
}

/// The views of a list of end nodes with their paths.
pub open spec fn ending_views(paths: Seq<(NodeId, Path)>) -> Seq<(NodeId, Seq<NodeId>)> {
    paths.map_values(|entry: (NodeId, Path)| (entry.0, entry.1@))
}

/// The first `limit` elements, or all where there are fewer.
pub open spec fn capped<A>(elements: Seq<A>, limit: nat) -> Seq<A> {
    if elements.len() <= limit {
        elements
    } else {
        elements.subrange(0, limit as int)
    }
}

/// All extensions of `path` to `dst`, in depth-first order: edges are followed in the order in
/// which they are stored, no node of the path is entered again, a path ends as soon as it
/// reaches `dst`, and no path has more than `max_depth` steps.
pub open spec fn paths_from<T: VectorType>(
    table: Table<T>,
    label: Option<Seq<char>>,
    dst: NodeId,
    max_depth: nat,
    path: Seq<NodeId>,
) -> Seq<Seq<NodeId>>
    decreases max_depth + 1 - path.len(), table.edges_of(path.last()).len() + 1,
{
    if path.len() > max_depth {
        Seq::empty()
    } else {
        paths_via(table, label, dst, max_depth, path, table.edges_of(path.last()).len())
    }
}

/// Those of `paths_from` that leave the end of `path` by one of its first `count` edges.
pub open spec fn paths_via<T: VectorType>(
    table: Table<T>,
    label: Option<Seq<char>>,
    dst: NodeId,
    max_depth: nat,
    path: Seq<NodeId>,
    count: nat,
) -> Seq<Seq<NodeId>>
    decreases max_depth + 1 - path.len(), count,
{
    if count == 0 || path.len() > max_depth {
        Seq::empty()
    } else {
        let edge = table.edges_of(path.last())[count - 1];
        paths_via(table, label, dst, max_depth, path, (count - 1) as nat) + if !label_fits(
            label,
            edge,
        ) {
            Seq::empty()
        } else if path.contains(edge.target) {
            Seq::empty()
        } else if edge.target == dst {
            seq![path.push(dst)]
        } else {
            paths_from(table, label, dst, max_depth, path.push(edge.target))
        }
    }
}

/// Whether the end of a list does not matter once it is long enough.
proof fn lemma_capped<A>(head: Seq<A>, tail: Seq<A>, limit: nat)
    requires
        head.len() >= limit,
    ensures
        capped(head + tail, limit) == capped(head, limit),
{
    assert(capped(head + tail, limit) =~= capped(head, limit));
}

/// The paths that leave by the first edges come first.
proof fn lemma_paths_via_grows<T: VectorType>(
    table: Table<T>,
    label: Option<Seq<char>>,
    dst: NodeId,
    max_depth: nat,
    path: Seq<NodeId>,
    few: nat,
    many: nat,
) -> (tail: Seq<Seq<NodeId>>)
    requires
        few <= many,
    ensures
        paths_via(table, label, dst, max_depth, path, many) == paths_via(
            table,
            label,
            dst,
            max_depth,
            path,
            few,
        ) + tail,
    decreases many,
{
    if few == many {
        let tail = Seq::<Seq<NodeId>>::empty();
        assert(paths_via(table, label, dst, max_depth, path, many) =~= paths_via(
            table,
            label,
            dst,
            max_depth,
            path,
            few,
        ) + tail);
        tail
    } else {
        let shorter = lemma_paths_via_grows(
            table,
            label,
            dst,
            max_depth,
            path,
            few,
            (many - 1) as nat,
        );
        let before = paths_via(table, label, dst, max_depth, path, (many - 1) as nat);
        let all = paths_via(table, label, dst, max_depth, path, many);
        let last = all.subrange(before.len() as int, all.len() as int);
        let start = paths_via(table, label, dst, max_depth, path, few);
        assert(all =~= before + last);
        assert(all =~= start + (shorter + last));
        shorter + last
    }
}

/// Extends `path`, whose nodes are those in `visited`, to `dst` in every way, until `limit`
/// paths have been found.
fn dfs_all_paths<T: VectorType>(
    mt: &MemTable<T>,
    dst: NodeId,
    path: &Path,
    max_depth: usize,
    label_filter: Option<&str>,
    visited: &mut HashSet<NodeId>,
    results: &mut Vec<Path>,
    limit: usize,
)
    requires
        path@.len() > 0,
        old(visited)@ == path@.to_set(),
        old(results)@.len() < limit,
    ensures
        final(visited)@ == old(visited)@,
        path_views(final(results)@) == capped(
            path_views(old(results)@) + paths_from(
                mt@,
                label_view(label_filter),
                dst,
                max_depth as nat,
                path@,
            ),
            limit as nat,
        ),
    decreases max_depth + 1 - path@.len(),
{
    let ghost label = label_view(label_filter);
    let ghost found = path_views(results@);
    let ghost edge_list = mt@.edges_of(path@.last());
    let depth: usize = path.len() - 1;
    proof {
        assert(found.len() == results@.len());
    }
    if depth >= max_depth {
        assert(found + paths_from(mt@, label, dst, max_depth as nat, path@) =~= found);
        return;
    }
    let current: NodeId = path[path.len() - 1];
    match mt.get_edges(current) {
        None => {
            assert(paths_from(mt@, label, dst, max_depth as nat, path@) =~= Seq::empty());
            assert(found + paths_from(mt@, label, dst, max_depth as nat, path@) =~= found);
        },
        Some(edges) => {
            assert(found + paths_via(mt@, label, dst, max_depth as nat, path@, 0) =~= found);
            let mut i: usize = 0;
            while i < edges.len()
                invariant
                    i <= edges@.len(),
                    label == label_view(label_filter),
                    edge_list == mt@.edges_of(path@.last()),
                    edge_views(edges@) == edge_list,
                    0 < path@.len() <= max_depth,
                    found == path_views(old(results)@),
                    old(visited)@ == path@.to_set(),
                    visited@ == path@.to_set(),
                    results@.len() < limit,
                    path_views(results@) == found + paths_via(
                        mt@,
                        label,
                        dst,
                        max_depth as nat,
                        path@,
                        i as nat,
                    ),
                decreases edges@.len() - i,
            {
                let ghost done = paths_via(mt@, label, dst, max_depth as nat, path@, i as nat);
                let ghost all = paths_from(mt@, label, dst, max_depth as nat, path@);
                let ghost held = results@;
                proof {
                    assert(edges@[i as int]@ == edge_list[i as int]);
                    assert(path_views(held).len() == held.len());
                }
                let next: NodeId = edges[i].target_id;
                if edge_allowed(&edges[i], label_filter) {
                    if next == dst && !visited.contains(&next) {
                        assert(!path@.contains(next));
                        let mut longer: Path = copy_slice(path.as_slice());
                        longer.push(dst);
                        results.push(longer);
                        proof {
                            assert(path_views(results@) =~= path_views(held).push(longer@));
                            assert(path_views(results@) =~= found + (done + seq![path@.push(dst)]));
                        }
                        if results.len() >= limit {
                            proof {
                                let tail = lemma_paths_via_grows(
                                    mt@,
                                    label,
                                    dst,
                                    max_depth as nat,
                                    path@,
                                    (i + 1) as nat,
                                    edge_list.len(),
                                );
                                lemma_capped(path_views(results@), tail, limit as nat);
                                assert(found + all =~= path_views(results@) + tail);
                                assert(path_views(results@).len() == results@.len());
                            }
                            return;
                        }
                    } else if !visited.contains(&next) {
                        let ghost marked = visited@;
                        visited.insert(next);
                        let mut longer: Path = copy_slice(path.as_slice());
                        longer.push(next);
                        proof {
                            assert(!path@.contains(next));
                            assert(visited@ =~= longer@.to_set()) by {
                                assert forall|id: NodeId| #[trigger]
                                    visited@.contains(id) <==> longer@.contains(id) by {
                                    if path@.contains(id) {
                                        let n = choose|n: int|
                                            0 <= n < path@.len() && path@[n] == id;
                                        assert(longer@[n] == id);
                                    }
                                    assert(longer@[path@.len() as int] == next);
                                }
                            }
                        }
                        dfs_all_paths(
                            mt,
                            dst,
                            &longer,
                            max_depth,
                            label_filter,
                            visited,
                            results,
                            limit,
                        );
                        let _ = visited.remove(&next);
                        proof {
                            assert(visited@ =~= marked);
                            let below = paths_from(
                                mt@,
                                label,
                                dst,
                                max_depth as nat,
                                path@.push(next),
                            );
                            assert(path_views(held) + below =~= found + (done + below));
                            assert(path_views(results@).len() == results@.len());
                        }
                        if results.len() >= limit {
                            proof {
                                let tail = lemma_paths_via_grows(
                                    mt@,
                                    label,
                                    dst,
                                    max_depth as nat,
                                    path@,
                                    (i + 1) as nat,
                                    edge_list.len(),
                                );
                                let so_far = found + paths_via(
                                    mt@,
                                    label,
                                    dst,
                                    max_depth as nat,
                                    path@,
                                    (i + 1) as nat,
                                );
                                assert(so_far.len() >= limit);
                                lemma_capped(so_far, tail, limit as nat);
                                assert(found + all =~= so_far + tail);
                            }
                            return;
                        }
                    } else {
                        assert(path@.contains(next));
                        assert(found + (done + Seq::<Seq<NodeId>>::empty()) =~= found + done);
                    }
                } else {
                    assert(found + (done + Seq::<Seq<NodeId>>::empty()) =~= found + done);
                }
                i += 1;
            }
        },
    }
}

/// The first `limit` paths from `src` to `dst` with at most `max_depth` steps along edges with
/// the label, in depth-first order. No path passes a node twice, so that there is none from a node
/// to itself.
pub fn all_paths<T: VectorType>(
    mt: &MemTable<T>,
    src: NodeId,
    dst: NodeId,
    max_depth: usize,
    label_filter: Option<&str>,
    limit: usize,
) -> (results: Vec<Path>)
    ensures
        results@.len() <= limit,
        forall|i: int| 0 <= i < results@.len() ==> (#[trigger] results@[i])@.no_duplicates(),
        path_views(results@) == capped(
            paths_from(mt@, label_view(label_filter), dst, max_depth as nat, seq![src]),
            limit as nat,
        ),
{
    let mut results: Vec<Path> = Vec::new();
    assert(path_views(results@) =~= Seq::<Seq<NodeId>>::empty());
    let ghost all = paths_from(mt@, label_view(label_filter), dst, max_depth as nat, seq![src]);
    if limit == 0 {
        assert(capped(all, 0) =~= Seq::<Seq<NodeId>>::empty());
        return results;
    }
    let mut visited: HashSet<NodeId> = HashSet::new();
    visited.insert(src);
    let mut path: Path = Vec::new();
    path.push(src);
    proof {
        assert(path@ =~= seq![src]);
        assert(visited@ =~= path@.to_set()) by {
            assert(path@[0] == src);
        }
        assert(path_views(results@) + all =~= all);
    }
    dfs_all_paths(mt, dst, &path, max_depth, label_filter, &mut visited, &mut results, limit);
    proof {
        assert(path_views(results@).len() == results@.len());
        assert forall|i: int| 0 <= i < results@.len() implies (
        #[trigger] results@[i])@.no_duplicates() by {
            assert(path_views(results@)[i] == results@[i]@);
            assert(all[i] == results@[i]@);
            assert(all.contains(all[i]));
            law_all_paths_are_the_simple_ones(
                mt@,
                label_view(label_filter),
                dst,
                max_depth as nat,
                seq![src],
                results@[i]@,
            );
        }
    }
    results
}

/// Whether `path` is one that the enumeration looks for: it continues `start`, ends at `dst`, and
/// enters no node twice.
pub open spec fn is_simple_extension(
    adjacency: Adjacency,
    start: Seq<NodeId>,
    path: Seq<NodeId>,
    dst: NodeId,
) -> bool {
    &&& path.len() > start.len()
    &&& start.is_prefix_of(path)
    &&& path.last() == dst
    &&& forall|i: int|
        start.len() - 1 <= i < path.len() - 1 ==> #[trigger] crate::graph::walk::step_at(
            adjacency,
            path,
            i,
        )
    &&& forall|i: int, j: int|
        0 <= i < j && start.len() <= j < path.len() ==> #[trigger] path[i] != #[trigger] path[j]
}

/// The enumeration of paths finds exactly the simple ones within the depth bound.
pub proof fn law_all_paths_are_the_simple_ones<T: VectorType>(
    table: Table<T>,
    label: Option<Seq<char>>,
    dst: NodeId,
    max_depth: nat,
    start: Seq<NodeId>,
    path: Seq<NodeId>,
)
    requires
        start.len() > 0,
    ensures
        paths_from(table, label, dst, max_depth, start).contains(path) <==> (is_simple_extension(
            outgoing(table, label),
            start,
            path,
            dst,
        ) && path.len() <= max_depth + 1),
    decreases max_depth + 1 - start.len(), table.edges_of(start.last()).len() + 1,
{
    let adjacency = outgoing(table, label);
    if start.len() <= max_depth {
        let count = table.edges_of(start.last()).len();
        lemma_paths_via_exact(table, label, dst, max_depth, start, count, path);
        if is_simple_extension(adjacency, start, path, dst) && path.len() <= max_depth + 1 {
            assert(crate::graph::walk::step_at(adjacency, path, start.len() - 1));
            assert(path[start.len() - 1] == start.last());
            let i = choose|i: int|
                0 <= i < table.edges_of(start.last()).len() && (
                #[trigger] table.edges_of(start.last())[i]).target == path[start.len() as int]
                    && label_fits(label, table.edges_of(start.last())[i]);
            assert(leaves_by(table, label, start, path, i));
        }
    }
}

/// The enumeration of paths between two different nodes agrees with the search for a shortest one:
/// there are paths exactly where the search finds one, none of them is shorter than a shortest one,
/// and every shortest one within the depth bound is among them.
pub proof fn law_all_paths_hold_the_shortest<T: VectorType>(
    table: Table<T>,
    label: Option<Seq<char>>,
    src: NodeId,
    dst: NodeId,
    max_depth: nat,
)
    requires
        src != dst,
    ensures
        paths_from(table, label, dst, max_depth, seq![src]).len() > 0 <==> within(
            outgoing(table, label),
            src,
            dst,
            max_depth,
        ),
        forall|path: Seq<NodeId>, other: Seq<NodeId>|
            #[trigger] is_shortest_path(outgoing(table, label), path, src, dst)
                && #[trigger] paths_from(table, label, dst, max_depth, seq![src]).contains(other)
                ==> path.len() <= other.len(),
        forall|path: Seq<NodeId>|
            #[trigger] is_shortest_path(outgoing(table, label), path, src, dst) && path.len()
                <= max_depth + 1 ==> paths_from(
                table,
                label,
                dst,
                max_depth,
                seq![src],
            ).contains(path),
{
    let adjacency = outgoing(table, label);
    let start = seq![src];
    let all = paths_from(table, label, dst, max_depth, start);
    assert forall|path: Seq<NodeId>| all.contains(path) implies connects(
        adjacency,
        path,
        src,
        dst,
    ) && path.len() <= max_depth + 1 by {
        law_all_paths_are_the_simple_ones(table, label, dst, max_depth, start, path);
        assert(path[0] == start[0]);
    }
    assert forall|path: Seq<NodeId>|
        #[trigger] is_shortest_path(adjacency, path, src, dst) && path.len() <= max_depth
            + 1 implies all.contains(path) by {
        law_shortest_paths_are_simple(adjacency, path, src, dst);
        law_all_paths_are_the_simple_ones(table, label, dst, max_depth, start, path);
        assert(start =~= path.subrange(0, 1));
    }
    assert forall|path: Seq<NodeId>, other: Seq<NodeId>|
        #[trigger] is_shortest_path(adjacency, path, src, dst) && #[trigger] all.contains(
            other,
        ) implies path.len() <= other.len() by {
        law_walk_bounds_distance(adjacency, other);
        if other.len() < path.len() {
            assert(within(adjacency, src, dst, (other.len() - 1) as nat));
        }
    }
    if all.len() > 0 {
        assert(all.contains(all[0]));
        law_walk_bounds_distance(adjacency, all[0]);
        lemma_within_grows(adjacency, src, dst, (all[0].len() - 1) as nat, max_depth);
    }
    if within(adjacency, src, dst, max_depth) {
        let distance = lemma_distance_exists(adjacency, src, dst, max_depth);
        let path = law_within_has_walk(adjacency, src, dst, distance);
        law_walk_bounds_distance(adjacency, path);
        if path.len() < distance + 1 {
            assert(within(adjacency, src, dst, (path.len() - 1) as nat));
        }
        assert(is_shortest_path(adjacency, path, src, dst));
        assert(all.contains(path));
    }
}

/// What the enumeration of paths between two different nodes returns agrees with what the search for
/// a shortest one returns: one is empty exactly where the other is, no path is shorter than the one
/// that the search returns, and where the limit cuts nothing off one of them is as long.
pub proof fn law_path_answers_agree<T: VectorType>(
    table: Table<T>,
    label: Option<Seq<char>>,
    src: NodeId,
    dst: NodeId,
    max_depth: usize,
    limit: usize,
    listed: Seq<Path>,
    single: Option<Path>,
)
    requires
        src != dst,
        limit >= 1,
        path_views(listed) == capped(
            paths_from(table, label, dst, max_depth as nat, seq![src]),
            limit as nat,
        ),
        is_shortest_answer(outgoing(table, label), src, dst, max_depth as nat, single),
    ensures
        listed.len() == 0 <==> single is None,
        single matches Some(path) ==> forall|i: int|
            0 <= i < listed.len() ==> path@.len() <= (#[trigger] listed[i])@.len(),
        single is Some && paths_from(table, label, dst, max_depth as nat, seq![src]).len() <= limit
            ==> exists|i: int|
            0 <= i < listed.len() && (#[trigger] listed[i])@.len() == single->0@.len(),
{
    let all = paths_from(table, label, dst, max_depth as nat, seq![src]);
    let shown = path_views(listed);
    law_all_paths_hold_the_shortest(table, label, src, dst, max_depth as nat);
    assert(shown.len() == listed.len());
    if let Some(path) = single {
        assert forall|i: int| 0 <= i < listed.len() implies path@.len() <= (
        #[trigger] listed[i])@.len() by {
            assert(shown[i] == listed[i]@);
            assert(all[i] == shown[i]);
            assert(all.contains(all[i]));
        }
        if all.len() <= limit {
            assert(all.contains(path@));
            let i = choose|i: int| 0 <= i < all.len() && all[i] == path@;
            assert(shown[i] == listed[i]@);
        }
    }
}

/// Whether `path` leaves the end of `start` by edge `i`.
pub open spec fn leaves_by<T: VectorType>(
    table: Table<T>,
    label: Option<Seq<char>>,
    start: Seq<NodeId>,
    path: Seq<NodeId>,
    i: int,
) -> bool {
    table.edges_of(start.last())[i].target == path[start.len() as int] && label_fits(
        label,
        table.edges_of(start.last())[i],
    )
}

/// The paths by the first edges are the simple ones that leave by one of them.
proof fn lemma_paths_via_exact<T: VectorType>(
    table: Table<T>,
    label: Option<Seq<char>>,
    dst: NodeId,
    max_depth: nat,
    start: Seq<NodeId>,
    count: nat,
    path: Seq<NodeId>,
)
    requires
        0 < start.len() <= max_depth,
        count <= table.edges_of(start.last()).len(),
    ensures
        paths_via(table, label, dst, max_depth, start, count).contains(path) <==> (
        is_simple_extension(outgoing(table, label), start, path, dst) && path.len() <= max_depth + 1
            && exists|i: int| 0 <= i < count && #[trigger] leaves_by(table, label, start, path, i)),
    decreases max_depth + 1 - start.len(), count,
{
    let adjacency = outgoing(table, label);
    let all = paths_via(table, label, dst, max_depth, start, count);
    if count > 0 {
        let few = (count - 1) as nat;
        let before = paths_via(table, label, dst, max_depth, start, few);
        let edge = table.edges_of(start.last())[count - 1];
        lemma_paths_via_exact(table, label, dst, max_depth, start, few, path);
        let here: Seq<Seq<NodeId>> = if !label_fits(label, edge) {
            Seq::empty()
        } else if start.contains(edge.target) {
            Seq::empty()
        } else if edge.target == dst {
            seq![start.push(dst)]
        } else {
            paths_from(table, label, dst, max_depth, start.push(edge.target))
        };
        assert(all == before + here);
        lemma_contains_concat(before, here, path);
        let fits = is_simple_extension(adjacency, start, path, dst) && path.len() <= max_depth + 1
            && leaves_by(table, label, start, path, count - 1);
        assert(here.contains(path) <==> fits) by {
            if label_fits(label, edge) {
                let longer = start.push(edge.target);
                assert(has_edge(table, label, start.last(), edge.target)) by {
                    assert(table.edges_of(start.last())[count - 1].target == edge.target);
                }
                if start.contains(edge.target) {
                    if fits {
                        let n = choose|n: int| 0 <= n < start.len() && start[n] == edge.target;
                        assert(path[n] == start[n]);
                        assert(path[start.len() as int] == edge.target);
                        if path.len() == start.len() + 1 {
                            assert(path.last() == edge.target);
                        }
                    }
                } else if edge.target == dst {
                    assert(seq![start.push(dst)].contains(path) <==> path == start.push(dst)) by {
                        assert(seq![start.push(dst)][0] == start.push(dst));
                    }
                    if fits {
                        if path.len() > start.len() + 1 {
                            assert(path[start.len() as int] != path[path.len() - 1]);
                        }
                        assert(path =~= start.push(dst));
                    }
                    if path == start.push(dst) {
                        assert(start.is_prefix_of(path)) by {
                            assert(start =~= path.subrange(0, start.len() as int));
                        }
                        assert forall|i: int, j: int|
                            0 <= i < j && start.len() <= j < path.len() implies
                            #[trigger] path[i] != #[trigger] path[j] by {
                            assert(path[i] == start[i]);
                            assert(start.contains(start[i]));
                        }
                    }
                } else {
                    law_all_paths_are_the_simple_ones(table, label, dst, max_depth, longer, path);
                    if fits {
                        if path.len() == start.len() + 1 {
                            assert(path.last() == path[start.len() as int]);
                        }
                        assert(longer.is_prefix_of(path)) by {
                            assert(longer =~= path.subrange(0, longer.len() as int));
                        }
                        assert(is_simple_extension(adjacency, longer, path, dst));
                    }
                    if is_simple_extension(adjacency, longer, path, dst) && path.len() <= max_depth
                        + 1 {
                        assert(path[start.len() as int] == longer[start.len() as int]);
                        assert forall|i: int| start.len() - 1 <= i < path.len() - 1 implies
                            #[trigger] crate::graph::walk::step_at(adjacency, path, i) by {
                            if i == start.len() - 1 {
                                assert(path[i] == longer[i]);
                                assert(path[i + 1] == longer[i + 1]);
                            }
                        }
                        assert(start.is_prefix_of(path)) by {
                            assert(start =~= path.subrange(0, start.len() as int));
                        }
                        assert forall|i: int, j: int|
                            0 <= i < j && start.len() <= j < path.len() implies
                            #[trigger] path[i] != #[trigger] path[j] by {
                            if j == start.len() {
                                assert(path[i] == longer[i] && longer[i] == start[i]);
                                assert(start.contains(start[i]));
                            }
                        }
                        assert(is_simple_extension(adjacency, start, path, dst));
                    }
                }
            }
        }
        if exists|i: int| 0 <= i < few && #[trigger] leaves_by(table, label, start, path, i) {
            let i = choose|i: int|
                0 <= i < few && #[trigger] leaves_by(table, label, start, path, i);
            assert(leaves_by(table, label, start, path, i));
        }
        if fits {
            assert(leaves_by(table, label, start, path, count - 1));
        }
    }
}

/// An element of a joined list is in one of its parts.
proof fn lemma_contains_concat<A>(a: Seq<A>, b: Seq<A>, x: A)
    ensures
        (a + b).contains(x) <==> a.contains(x) || b.contains(x),
{
    if a.contains(x) {
        let n = choose|n: int| 0 <= n < a.len() && a[n] == x;
        assert((a + b)[n] == x);
    }
    if b.contains(x) {
        let n = choose|n: int| 0 <= n < b.len() && b[n] == x;
        assert((a + b)[a.len() + n] == x);
    }
    if (a + b).contains(x) {
        let n = choose|n: int| 0 <= n < (a + b).len() && (a + b)[n] == x;
        if n < a.len() {
            assert(a[n] == x);
        } else {
            assert(b[n - a.len()] == x);
        }
    }
}

/// All continuations of `path`, itself among them, with at least `min_depth` and at most
/// `max_depth` steps, in depth-first order: a path comes before its continuations, edges are
/// followed in the order in which they are stored, and no node is entered twice.
pub open spec fn walks_from<T: VectorType>(
    table: Table<T>,
    label: Option<Seq<char>>,
    min_depth: nat,
    max_depth: nat,
    path: Seq<NodeId>,
) -> Seq<(NodeId, Seq<NodeId>)>
    decreases max_depth + 1 - path.len(), table.edges_of(path.last()).len() + 1,
{
    walk_itself(min_depth, path) + if path.len() > max_depth {
        Seq::empty()
    } else {
        walks_via(
            table,
            label,
            min_depth,
            max_depth,
            path,
            table.edges_of(path.last()).len(),
        )
    }
}

/// `path` itself, where it is long enough.
pub open spec fn walk_itself(min_depth: nat, path: Seq<NodeId>) -> Seq<(NodeId, Seq<NodeId>)> {
    if path.len() > min_depth {
        seq![(path.last(), path)]
    } else {
        Seq::empty()
    }
}

/// Those of `walks_from` that leave the end of `path` by one of its first `count` edges.
pub open spec fn walks_via<T: VectorType>(
    table: Table<T>,
    label: Option<Seq<char>>,
    min_depth: nat,
    max_depth: nat,
    path: Seq<NodeId>,
    count: nat,
) -> Seq<(NodeId, Seq<NodeId>)>
    decreases max_depth + 1 - path.len(), count,
{
    if count == 0 || path.len() > max_depth {
        Seq::empty()
    } else {
        let edge = table.edges_of(path.last())[count - 1];
        walks_via(table, label, min_depth, max_depth, path, (count - 1) as nat)
            + if !label_fits(label, edge) || path.contains(edge.target) {
            Seq::empty()
        } else {
            walks_from(table, label, min_depth, max_depth, path.push(edge.target))
        }
    }
}

/// The paths that leave by the first edges come first.
proof fn lemma_walks_via_grows<T: VectorType>(
    table: Table<T>,
    label: Option<Seq<char>>,
    min_depth: nat,
    max_depth: nat,
    path: Seq<NodeId>,
    few: nat,
    many: nat,
) -> (tail: Seq<(NodeId, Seq<NodeId>)>)
    requires
        few <= many,
    ensures
        walks_via(table, label, min_depth, max_depth, path, many) == walks_via(
            table,
            label,
            min_depth,
            max_depth,
            path,
            few,
        ) + tail,
    decreases many,
{
    let start = walks_via(table, label, min_depth, max_depth, path, few);
    if few == many {
        let tail = Seq::<(NodeId, Seq<NodeId>)>::empty();
        assert(start =~= start + tail);
        tail
    } else {
        let shorter = lemma_walks_via_grows(
            table,
            label,
            min_depth,
            max_depth,
            path,
            few,
            (many - 1) as nat,
        );
        let before = walks_via(table, label, min_depth, max_depth, path, (many - 1) as nat);
        let all = walks_via(table, label, min_depth, max_depth, path, many);
        let last = all.subrange(before.len() as int, all.len() as int);
        assert(all =~= before + last);
        assert(all =~= start + (shorter + last));
        shorter + last
    }
}

/// Continues `path`, whose nodes are those in `visited`, until `limit` paths have been found.
fn dfs_variable_length<T: VectorType>(
    mt: &MemTable<T>,
    path: &Path,
    min_depth: usize,
    max_depth: usize,
    label_filter: Option<&str>,
    visited: &mut HashSet<NodeId>,
    results: &mut Vec<(NodeId, Path)>,
    limit: usize,
)
    requires
        path@.len() > 0,
        old(visited)@ == path@.to_set(),
        old(results)@.len() < limit,
    ensures
        final(visited)@ == old(visited)@,
        ending_views(final(results)@) == capped(
            ending_views(old(results)@) + walks_from(
                mt@,
                label_view(label_filter),
                min_depth as nat,
                max_depth as nat,
                path@,
            ),
            limit as nat,
        ),
    decreases max_depth + 1 - path@.len(),
{
    let ghost label = label_view(label_filter);
    let ghost earlier = ending_views(results@);
    let ghost itself = walk_itself(min_depth as nat, path@);
    let ghost all = walks_from(mt@, label, min_depth as nat, max_depth as nat, path@);
    let ghost edge_list = mt@.edges_of(path@.last());
    let depth: usize = path.len() - 1;
    let current: NodeId = path[path.len() - 1];
    proof {
        assert(earlier.len() == results@.len());
    }
    if depth >= min_depth {
        let ghost held = results@;
        results.push((current, copy_slice(path.as_slice())));
        proof {
            assert(ending_views(results@) =~= earlier.push((path@.last(), path@)));
            assert(ending_views(results@) =~= earlier + itself);
        }
        if results.len() >= limit {
            proof {
                let rest = all.subrange(itself.len() as int, all.len() as int);
                assert(all =~= itself + rest);
                assert(earlier + all =~= (earlier + itself) + rest);
                lemma_capped(earlier + itself, rest, limit as nat);
            }
            return;
        }
    } else {
        assert(earlier + itself =~= earlier);
    }
    let ghost found = ending_views(results@);
    if depth >= max_depth {
        assert(earlier + all =~= found);
        return;
    }
    let ghost list = walks_via(
        mt@,
        label,
        min_depth as nat,
        max_depth as nat,
        path@,
        edge_list.len(),
    );
    assert(earlier + all =~= found + list);
    match mt.get_edges(current) {
        None => {
            assert(list =~= Seq::empty());
            assert(found + list =~= found);
        },
        Some(edges) => {
            assert(found + walks_via(mt@, label, min_depth as nat, max_depth as nat, path@, 0)
                =~= found);
            let mut i: usize = 0;
            while i < edges.len()
                invariant
                    i <= edges@.len(),
                    label == label_view(label_filter),
                    edge_list == mt@.edges_of(path@.last()),
                    edge_views(edges@) == edge_list,
                    0 < path@.len() <= max_depth,
                    earlier == ending_views(old(results)@),
                    old(visited)@ == path@.to_set(),
                    visited@ == path@.to_set(),
                    all == walks_from(mt@, label, min_depth as nat, max_depth as nat, path@),
                    list == walks_via(
                        mt@,
                        label,
                        min_depth as nat,
                        max_depth as nat,
                        path@,
                        edge_list.len(),
                    ),
                    earlier + all == found + list,
                    results@.len() < limit,
                    ending_views(results@) == found + walks_via(
                        mt@,
                        label,
                        min_depth as nat,
                        max_depth as nat,
                        path@,
                        i as nat,
                    ),
                decreases edges@.len() - i,
            {
                let ghost done = walks_via(
                    mt@,
                    label,
                    min_depth as nat,
                    max_depth as nat,
                    path@,
                    i as nat,
                );
                let ghost held = results@;
                proof {
                    assert(edges@[i as int]@ == edge_list[i as int]);
                    assert(ending_views(held).len() == held.len());
                    assert(found + (done + Seq::<(NodeId, Seq<NodeId>)>::empty()) =~= found + done);
                }
                let next: NodeId = edges[i].target_id;
                if edge_allowed(&edges[i], label_filter) && !visited.contains(&next) {
                    let ghost marked = visited@;
                    visited.insert(next);
                    let mut longer: Path = copy_slice(path.as_slice());
                    longer.push(next);
                    proof {
                        assert(!path@.contains(next));
                        assert(visited@ =~= longer@.to_set()) by {
                            assert forall|id: NodeId| #[trigger]
                                visited@.contains(id) <==> longer@.contains(id) by {
                                if path@.contains(id) {
                                    let n = choose|n: int| 0 <= n < path@.len() && path@[n] == id;
                                    assert(longer@[n] == id);
                                }
                                assert(longer@[path@.len() as int] == next);
                            }
                        }
                    }
                    dfs_variable_length(
                        mt,
                        &longer,
                        min_depth,
                        max_depth,
                        label_filter,
                        visited,
                        results,
                        limit,
                    );
                    let _ = visited.remove(&next);
                    proof {
                        assert(visited@ =~= marked);
                        let below = walks_from(
                            mt@,
                            label,
                            min_depth as nat,
                            max_depth as nat,
                            path@.push(next),
                        );
                        assert(ending_views(held) + below =~= found + (done + below));
                        assert(ending_views(results@).len() == results@.len());
                    }
                    if results.len() >= limit {
                        proof {
                            let tail = lemma_walks_via_grows(
                                mt@,
                                label,
                                min_depth as nat,
                                max_depth as nat,
                                path@,
                                (i + 1) as nat,
                                edge_list.len(),
                            );
                            let so_far = found + walks_via(
                                mt@,
                                label,
                                min_depth as nat,
                                max_depth as nat,
                                path@,
                                (i + 1) as nat,
                            );
                            assert(so_far.len() >= limit);
                            lemma_capped(so_far, tail, limit as nat);
                            assert(found + list =~= so_far + tail);
                        }
                        return;
                    }
                } else {
                    assert(path@.contains(next) || !label_fits(label, edge_list[i as int]));
                }
                i += 1;
            }
        },
    }
}

/// The first `limit` paths from `src` with `min_depth` to `max_depth` steps along edges with the
/// label, each with its end, in depth-first order.
pub fn variable_length_paths<T: VectorType>(
    mt: &MemTable<T>,
    src: NodeId,
    min_depth: usize,
    max_depth: usize,
    label_filter: Option<&str>,
    limit: usize,
) -> (results: Vec<(NodeId, Path)>)
    ensures
        results@.len() <= limit,
        ending_views(results@) == capped(
            walks_from(
                mt@,
                label_view(label_filter),
                min_depth as nat,
                max_depth as nat,
                seq![src],
            ),
            limit as nat,
        ),
{
    let mut results: Vec<(NodeId, Path)> = Vec::new();
    if limit == 0 {
        let ghost all = walks_from(
            mt@,
            label_view(label_filter),
            min_depth as nat,
            max_depth as nat,
            seq![src],
        );
        assert(ending_views(results@) =~= capped(all, 0));
        return results;
    }
    let mut visited: HashSet<NodeId> = HashSet::new();
    visited.insert(src);
    let mut path: Path = Vec::new();
    path.push(src);
    proof {
        assert(ending_views(results@) =~= Seq::<(NodeId, Seq<NodeId>)>::empty());
        assert(path@ =~= seq![src]);
        assert(visited@ =~= path@.to_set()) by {
            assert(path@[0] == src);
        }
        let all = walks_from(
            mt@,
            label_view(label_filter),
            min_depth as nat,
            max_depth as nat,
            path@,
        );
        assert(ending_views(results@) + all =~= all);
    }
    dfs_variable_length(
        mt,
        &path,
        min_depth,
        max_depth,
        label_filter,
        &mut visited,
        &mut results,
        limit,
    );
    assert(ending_views(results@).len() == results@.len());
    results
}

/// Whether `path` continues `start` without entering a node twice.
pub open spec fn is_simple_walk(
    adjacency: Adjacency,
    start: Seq<NodeId>,
    path: Seq<NodeId>,
) -> bool {
    &&& start.is_prefix_of(path)
    &&& forall|i: int|
        start.len() - 1 <= i < path.len() - 1 ==> #[trigger] crate::graph::walk::step_at(
            adjacency,
            path,
            i,
        )
    &&& forall|i: int, j: int|
        0 <= i < j && start.len() <= j < path.len() ==> #[trigger] path[i] != #[trigger] path[j]
}

/// Whether `entry` is a result of the variable-length search from `start`.
pub open spec fn is_ending(
    adjacency: Adjacency,
    min_depth: nat,
    max_depth: nat,
    start: Seq<NodeId>,
    entry: (NodeId, Seq<NodeId>),
) -> bool {
    is_simple_walk(adjacency, start, entry.1) && entry.0 == entry.1.last() && min_depth
        < entry.1.len() && (entry.1 == start || entry.1.len() <= max_depth + 1)
}

/// The variable-length search finds exactly the simple paths within the depth bounds.
pub proof fn law_variable_length_paths_are_the_simple_ones<T: VectorType>(
    table: Table<T>,
    label: Option<Seq<char>>,
    min_depth: nat,
    max_depth: nat,
    start: Seq<NodeId>,
    entry: (NodeId, Seq<NodeId>),
)
    requires
        start.len() > 0,
    ensures
        walks_from(table, label, min_depth, max_depth, start).contains(entry) <==> is_ending(
            outgoing(table, label),
            min_depth,
            max_depth,
            start,
            entry,
        ),
    decreases max_depth + 1 - start.len(), table.edges_of(start.last()).len() + 1,
{
    let adjacency = outgoing(table, label);
    let path = entry.1;
    let itself = walk_itself(min_depth, start);
    let count = table.edges_of(start.last()).len();
    let rest = if start.len() > max_depth {
        Seq::<(NodeId, Seq<NodeId>)>::empty()
    } else {
        walks_via(table, label, min_depth, max_depth, start, count)
    };
    lemma_contains_concat(itself, rest, entry);
    if start.len() <= max_depth {
        lemma_walks_via_exact(table, label, min_depth, max_depth, start, count, entry);
    }
    if start.len() > min_depth {
        assert(itself[0] == (start.last(), start));
    }
    let is_start = path == start && entry.0 == start.last() && start.len() > min_depth;
    assert(itself.contains(entry) <==> is_start);
    if is_start {
        assert(start.is_prefix_of(path)) by {
            assert(start =~= path.subrange(0, start.len() as int));
        }
    }
    if is_ending(adjacency, min_depth, max_depth, start, entry) && path != start {
        if path.len() == start.len() {
            assert(start =~= path);
        }
        assert(crate::graph::walk::step_at(adjacency, path, start.len() - 1));
        assert(path[start.len() - 1] == start.last());
        let i = choose|i: int|
            0 <= i < count && (#[trigger] table.edges_of(start.last())[i]).target
                == path[start.len() as int] && label_fits(label, table.edges_of(start.last())[i]);
        assert(leaves_by(table, label, start, path, i));
    }
}

/// The results by the first edges are those that leave by one of them.
proof fn lemma_walks_via_exact<T: VectorType>(
    table: Table<T>,
    label: Option<Seq<char>>,
    min_depth: nat,
    max_depth: nat,
    start: Seq<NodeId>,
    count: nat,
    entry: (NodeId, Seq<NodeId>),
)
    requires
        0 < start.len() <= max_depth,
        count <= table.edges_of(start.last()).len(),
    ensures
        walks_via(table, label, min_depth, max_depth, start, count).contains(entry) <==> (is_ending(
            outgoing(table, label),
            min_depth,
            max_depth,
            start,
            entry,
        ) && entry.1.len() > start.len() && exists|i: int|
            0 <= i < count && #[trigger] leaves_by(table, label, start, entry.1, i)),
    decreases max_depth + 1 - start.len(), count,
{
    let adjacency = outgoing(table, label);
    let path = entry.1;
    let all = walks_via(table, label, min_depth, max_depth, start, count);
    if count > 0 {
        let few = (count - 1) as nat;
        let before = walks_via(table, label, min_depth, max_depth, start, few);
        let edge = table.edges_of(start.last())[count - 1];
        lemma_walks_via_exact(table, label, min_depth, max_depth, start, few, entry);
        let blocked = !label_fits(label, edge) || start.contains(edge.target);
        let longer = start.push(edge.target);
        let here: Seq<(NodeId, Seq<NodeId>)> = if blocked {
            Seq::empty()
        } else {
            walks_from(table, label, min_depth, max_depth, longer)
        };
        assert(all == before + here);
        lemma_contains_concat(before, here, entry);
        let fits = is_ending(adjacency, min_depth, max_depth, start, entry) && path.len()
            > start.len() && leaves_by(table, label, start, path, count - 1);
        assert(here.contains(entry) <==> fits) by {
            if label_fits(label, edge) {
                assert(has_edge(table, label, start.last(), edge.target)) by {
                    assert(table.edges_of(start.last())[count - 1].target == edge.target);
                }
                if start.contains(edge.target) {
                    if fits {
                        let n = choose|n: int| 0 <= n < start.len() && start[n] == edge.target;
                        assert(path[n] == start[n]);
                        assert(path[start.len() as int] == edge.target);
                    }
                } else {
                    law_variable_length_paths_are_the_simple_ones(
                        table,
                        label,
                        min_depth,
                        max_depth,
                        longer,
                        entry,
                    );
                    if fits {
                        assert(longer.is_prefix_of(path)) by {
                            assert(longer =~= path.subrange(0, longer.len() as int));
                        }
                        assert(is_simple_walk(adjacency, longer, path));
                    }
                    if is_ending(adjacency, min_depth, max_depth, longer, entry) {
                        assert(path[start.len() as int] == longer[start.len() as int]);
                        assert forall|i: int| start.len() - 1 <= i < path.len() - 1 implies
                            #[trigger] crate::graph::walk::step_at(adjacency, path, i) by {
                            if i == start.len() - 1 {
                                assert(path[i] == longer[i]);
                                assert(path[i + 1] == longer[i + 1]);
                            }
                        }
                        assert(start.is_prefix_of(path)) by {
                            assert(start =~= path.subrange(0, start.len() as int));
                        }
                        assert forall|i: int, j: int|
                            0 <= i < j && start.len() <= j < path.len() implies
                            #[trigger] path[i] != #[trigger] path[j] by {
                            if j == start.len() {
                                assert(path[i] == longer[i] && longer[i] == start[i]);
                                assert(start.contains(start[i]));
                            }
                        }
                        assert(is_simple_walk(adjacency, start, path));
                    }
                }
            }
        }
        if exists|i: int| 0 <= i < few && #[trigger] leaves_by(table, label, start, path, i) {
            let i = choose|i: int|
                0 <= i < few && #[trigger] leaves_by(table, label, start, path, i);
            assert(leaves_by(table, label, start, path, i));
        }
        if fits {
            assert(leaves_by(table, label, start, path, count - 1));
        }
    }
}

} // verus!
