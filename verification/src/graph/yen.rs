//! Several paths of least cost.
use std::collections::BTreeSet;
use vstd::prelude::*;

use crate::collections::lemma_to_set_push;
use crate::error::{
    invalid_input, is_invalid_input, is_query_execution, query_execution, Result, TriviumError,
};
use crate::graph::bounded::ids_less;
use crate::graph::weighted::{
    adds_costs, are_near, direct, has_nearer, has_weights, is_affordable, is_cheapest,
    is_first_choice, is_preferred, is_route, is_settled_for, is_step, is_unreachable, is_work_fault, lemma_cost_grows,
    lemma_edge_listed, lemma_preferred, lemma_weight, route_cost, settled_work,
    shortest_weighted_path, validate_weighted_graph, weight_of, Detour, PathSearch, WeightedPath,
};
use crate::graph::workspace::GraphWorkspace;
use crate::node::NodeId;
use crate::vector::copy_slice;

verus! {

/// The work of several searches.
pub open spec fn log_work(graph: &GraphWorkspace, log: Seq<(Detour, Seq<NodeId>)>) -> nat
    decreases log.len(),
{
    if log.len() == 0 {
        0
    } else {
        log_work(graph, log.drop_last()) + settled_work(graph, log.last().1)
    }
}

/// Whether each search of a log settled only nodes that are no farther than its target.
pub open spec fn is_log<F: Fn(u64, u32) -> u64>(
    graph: &GraphWorkspace,
    plus: F,
    target: Option<NodeId>,
    log: Seq<(Detour, Seq<NodeId>)>,
) -> bool {
    forall|i: int|
        0 <= i < log.len() ==> are_near(
            graph,
            plus,
            (#[trigger] log[i]).0,
            target,
            log[i].1,
        )
}

/// Whether a path leads from one node to another without repeating a node.
pub open spec fn is_simple_route(
    graph: &GraphWorkspace,
    source: NodeId,
    target: NodeId,
    path: Seq<NodeId>,
) -> bool {
    is_route(graph, direct(source), path) && path.last() == target && path.no_duplicates()
}

/// Whether a path is among those of a list.
pub open spec fn has_path(list: Seq<WeightedPath>, path: Seq<NodeId>) -> bool {
    exists|i: int| 0 <= i < list.len() && (#[trigger] list[i]).nodes@ == path
}

/// Whether a list holds different paths from one node to another, with their costs.
pub open spec fn are_routes<F: Fn(u64, u32) -> u64>(
    graph: &GraphWorkspace,
    plus: F,
    source: NodeId,
    target: NodeId,
    list: Seq<WeightedPath>,
) -> bool {
    &&& forall|i: int|
        0 <= i < list.len() ==> is_simple_route(graph, source, target, (#[trigger] list[i]).nodes@)
            && list[i].cost == route_cost(graph, plus, list[i].nodes@)
    &&& forall|i: int, j: int|
        0 <= i < j < list.len() ==> (#[trigger] list[i]).nodes@ != (#[trigger] list[j]).nodes@
}

/// Whether two paths start with the same `count` nodes.
pub open spec fn share_start(a: Seq<NodeId>, b: Seq<NodeId>, count: int) -> bool {
    count <= a.len() && count <= b.len() && a.take(count) == b.take(count)
}

/// What the search for a way off a path has to avoid: the nodes before the point where it leaves
/// the path, and the next nodes of the first `count` paths that start alike.
pub open spec fn way_off(
    accepted: Seq<WeightedPath>,
    count: int,
    path: Seq<NodeId>,
    at: int,
) -> Detour {
    Detour {
        source: path[at],
        banned: path.take(at).to_set(),
        banned_next: Set::new(
            |next: NodeId|
                exists|m: int|
                    0 <= m < count && share_start((#[trigger] accepted[m]).nodes@, path, at + 1)
                        && at + 1 < accepted[m].nodes@.len() && accepted[m].nodes@[at + 1] == next,
        ),
    }
}

/// Whether costs compare the same way with and without a common start, as they do where adding is
/// exact.
pub open spec fn adds_exactly<F: Fn(u64, u32) -> u64>(graph: &GraphWorkspace, plus: F) -> bool {
    forall|start: Seq<NodeId>, a: Seq<NodeId>, b: Seq<NodeId>|
        #![trigger route_cost(graph, plus, start + a), route_cost(graph, plus, start + b)]
        a.len() > 0 && b.len() > 0 && a[0] == b[0] && route_cost(graph, plus, a) <= route_cost(
            graph,
            plus,
            b,
        ) ==> route_cost(graph, plus, start + a) <= route_cost(graph, plus, start + b)
}

/// Whether no path without repetition costs an infinite amount.
pub open spec fn stays_finite<F: Fn(u64, u32) -> u64>(graph: &GraphWorkspace, plus: F) -> bool {
    forall|detour: Detour, path: Seq<NodeId>| #[trigger]
        is_route(graph, detour, path) && path.no_duplicates() ==> is_affordable(graph, plus, path)
}

/// Whether the way off an accepted path at one place has been looked for: if there is one, some
/// path that leaves there is known, and it is no worse than any other where adding is exact.
spec fn is_explored<F: Fn(u64, u32) -> u64>(
    graph: &GraphWorkspace,
    plus: F,
    target: NodeId,
    accepted: Seq<WeightedPath>,
    candidates: Seq<WeightedPath>,
    n: int,
    at: int,
) -> bool {
    forall|tail: Seq<NodeId>|
        is_route(graph, way_off(accepted, n + 1, accepted[n].nodes@, at), tail) && tail.last()
            == target && #[trigger] is_affordable(graph, plus, tail) ==> exists|found: Seq<NodeId>|
            {
                &&& has_path(accepted, found) || has_path(candidates, found)
                &&& #[trigger] share_start(found, accepted[n].nodes@, at + 1)
                &&& at + 1 < found.len()
                &&& !way_off(accepted, n + 1, accepted[n].nodes@, at).banned_next.contains(
                    found[at + 1],
                )
                &&& adds_exactly(graph, plus) ==> route_cost(graph, plus, found) <= route_cost(
                    graph,
                    plus,
                    accepted[n].nodes@.take(at) + tail,
                )
            }
}

/// Whether all ways off the first `count` accepted paths have been looked for.
spec fn all_explored<F: Fn(u64, u32) -> u64>(
    graph: &GraphWorkspace,
    plus: F,
    target: NodeId,
    accepted: Seq<WeightedPath>,
    candidates: Seq<WeightedPath>,
    count: int,
) -> bool {
    forall|n: int, at: int|
        0 <= n < count && 0 <= at < accepted[n].nodes@.len() - 1 ==> #[trigger] is_explored(
            graph,
            plus,
            target,
            accepted,
            candidates,
            n,
            at,
        )
}

/// Whether there is an edge from one node of a path to the next.
spec fn has_step(graph: &GraphWorkspace, path: Seq<NodeId>, i: int) -> bool {
    graph.has(path[i], path[i + 1])
}

/// Whether there is an edge from each node of a path to the next.
spec fn has_steps(graph: &GraphWorkspace, path: Seq<NodeId>) -> bool {
    forall|i: int| 0 <= i < path.len() - 1 ==> #[trigger] has_step(graph, path, i)
}

/// Whether two paths start alike.
fn starts_alike(a: &Vec<NodeId>, b: &Vec<NodeId>, count: usize) -> (result: bool)
    ensures
        result == share_start(a@, b@, count as int),
{
    if count > a.len() || count > b.len() {
        return false;
    }
    let mut i: usize = 0;
    while i < count
        invariant
            i <= count <= a@.len(),
            count <= b@.len(),
            a@.take(i as int) == b@.take(i as int),
        decreases count - i,
    {
        if a[i] != b[i] {
            assert(a@.take(count as int)[i as int] != b@.take(count as int)[i as int]);
            return false;
        }
        proof {
            assert(a@.take(i + 1) =~= a@.take(i as int).push(a@[i as int]));
            assert(b@.take(i + 1) =~= b@.take(i as int).push(b@[i as int]));
        }
        i += 1;
    }
    true
}

/// Whether two paths are the same.
fn same_path(a: &Vec<NodeId>, b: &Vec<NodeId>) -> (result: bool)
    ensures
        result == (a@ == b@),
{
    let result = a.len() == b.len() && starts_alike(a, b, a.len());
    proof {
        assert(a@.take(a@.len() as int) =~= a@);
        if a@.len() == b@.len() {
            assert(b@.take(a@.len() as int) =~= b@);
        }
    }
    result
}

/// Whether a list holds a path.
fn knows_path(list: &Vec<WeightedPath>, path: &Vec<NodeId>) -> (result: bool)
    ensures
        result == has_path(list@, path@),
{
    let mut i: usize = 0;
    while i < list.len()
        invariant
            i <= list@.len(),
            forall|k: int| 0 <= k < i ==> (#[trigger] list@[k]).nodes@ != path@,
        decreases list@.len() - i,
    {
        if same_path(&list[i].nodes, path) {
            assert(list@[i as int].nodes@ == path@);
            return true;
        }
        i += 1;
    }
    false
}

/// The weight of an edge.
fn find_weight(graph: &GraphWorkspace, from: NodeId, to: NodeId) -> (weight: u32)
    requires
        graph.well_formed(),
        graph.has(from, to),
    ensures
        weight == weight_of(graph, from, to),
{
    let ghost at = lemma_edge_listed(graph, from, to);
    let edges = graph.weighted.get(&from).unwrap();
    let mut i: usize = 0;
    while i < edges.len()
        invariant
            graph.well_formed(),
            graph.nodes().contains(from),
            *edges == graph.weighted@[from],
            i <= at < edges@.len(),
            edges@[at].0 == to,
        decreases edges@.len() - i,
    {
        if edges[i].0 == to {
            proof {
                lemma_weight(graph, from, i as int);
            }
            return edges[i].1;
        }
        i += 1;
    }
    0
}

/// The cost of a path.
fn sum_cost<F: Fn(u64, u32) -> u64>(graph: &GraphWorkspace, path: &Vec<NodeId>, plus: &F) -> (cost:
    u64)
    requires
        graph.well_formed(),
        adds_costs(*plus),
        path@.len() > 0,
        has_steps(graph, path@),
    ensures
        cost == route_cost(graph, *plus, path@),
{
    let mut cost: u64 = 0;
    let mut i: usize = 1;
    while i < path.len()
        invariant
            graph.well_formed(),
            adds_costs(*plus),
            1 <= i <= path@.len(),
            has_steps(graph, path@),
            cost == route_cost(graph, *plus, path@.take(i as int)),
        decreases path@.len() - i,
    {
        let ghost few = path@.take(i as int);
        let ghost more = path@.take(i + 1);
        assert(has_step(graph, path@, i - 1));
        let weight: u32 = find_weight(graph, path[i - 1], path[i]);
        cost = plus(cost, weight);
        proof {
            assert(more.drop_last() =~= few);
            assert(more[more.len() - 2] == path@[i - 1]);
            assert(more.last() == path@[i as int]);
        }
        i += 1;
    }
    assert(path@.take(i as int) =~= path@);
    cost
}

/// A start of one path followed by a way off it is a path from the same node.
proof fn lemma_join(
    graph: &GraphWorkspace,
    source: NodeId,
    path: Seq<NodeId>,
    at: int,
    detour: Detour,
    tail: Seq<NodeId>,
)
    requires
        is_route(graph, direct(source), path),
        path.no_duplicates(),
        0 <= at < path.len(),
        detour.source == path[at],
        detour.banned == path.take(at).to_set(),
        is_route(graph, detour, tail),
    ensures
        is_route(graph, direct(source), path.take(at) + tail),
        (path.take(at) + tail).last() == tail.last(),
        tail.no_duplicates() ==> (path.take(at) + tail).no_duplicates(),
        share_start(path.take(at) + tail, path, at + 1),
        has_steps(graph, path.take(at) + tail),
{
    let start = path.take(at);
    let all = start + tail;
    assert forall|i: int| 0 <= i < all.len() - 1 implies #[trigger] is_step(graph, direct(source), all, i) by {
        if i + 1 < at {
            assert(is_step(graph, direct(source), path, i));
        } else if i + 1 == at {
            assert(is_step(graph, direct(source), path, i));
            assert(all[i + 1] == tail[0]);
        } else {
            assert(is_step(graph, detour, tail, i - at));
        }
    }
    assert(all[0] == source) by {
        if at == 0 {
            assert(all[0] == tail[0]);
        }
    }
    assert(all.take(at + 1) =~= path.take(at + 1)) by {
        assert(all[at] == tail[0]);
    }
    if tail.no_duplicates() {
        assert forall|i: int, j: int|
            0 <= i < all.len() && 0 <= j < all.len() && i != j implies all[i] != all[j] by {
            let (x, y) = if i < j {
                (i, j)
            } else {
                (j, i)
            };
            if y < at {
                assert(path[x] != path[y]);
            } else if x >= at {
                assert(tail[x - at] != tail[y - at]);
            } else {
                assert(start.contains(start[x]));
                if y == at {
                    assert(path[x] != path[at]);
                } else {
                    assert(is_step(graph, detour, tail, y - at - 1));
                    assert(!start.to_set().contains(tail[y - at]));
                }
            }
        }
    }
    assert forall|i: int| 0 <= i < all.len() - 1 implies #[trigger] has_step(graph, all, i) by {
        assert(is_step(graph, direct(source), all, i));
    }
}

/// The end of a path is a way off another path that it leaves there.
proof fn lemma_split(
    graph: &GraphWorkspace,
    source: NodeId,
    target: NodeId,
    path: Seq<NodeId>,
    at: int,
    detour: Detour,
)
    requires
        is_simple_route(graph, source, target, path),
        0 <= at < path.len() - 1,
        detour.source == path[at],
        detour.banned == path.take(at).to_set(),
        !detour.banned_next.contains(path[at + 1]),
        graph.well_formed(),
    ensures
        is_route(graph, detour, path.skip(at)),
        path.skip(at).last() == target,
        path.skip(at).no_duplicates(),
        path == path.take(at) + path.skip(at),
{
    let tail = path.skip(at);
    assert(path =~= path.take(at) + tail);
    assert(graph.nodes().contains(path[at])) by {
        assert(is_step(graph, direct(source), path, at));
    }
    assert(!detour.banned.contains(path[at])) by {
        if path.take(at).contains(path[at]) {
            let k = choose|k: int| 0 <= k < at && path.take(at)[k] == path[at];
            assert(path[k] == path[at]);
        }
    }
    assert forall|i: int| 0 <= i < tail.len() - 1 implies #[trigger] is_step(graph, detour, tail, i) by {
        assert(is_step(graph, direct(source), path, at + i));
        if path.take(at).contains(tail[i + 1]) {
            let k = choose|k: int| 0 <= k < at && path.take(at)[k] == tail[i + 1];
            assert(path[k] == path[at + i + 1]);
        }
        if tail[i] == path[at] {
            assert(path[at + i] == path[at]);
            assert(i == 0);
        }
    }
}

/// A path that is not accepted leaves every accepted path somewhere; where it leaves the last one
/// that it follows longest, a way off has been found.
proof fn lemma_other_known<F: Fn(u64, u32) -> u64>(
    graph: &GraphWorkspace,
    plus: F,
    source: NodeId,
    target: NodeId,
    accepted: Seq<WeightedPath>,
    candidates: Seq<WeightedPath>,
    path: Seq<NodeId>,
)
    requires
        graph.well_formed(),
        accepted.len() > 0,
        are_routes(graph, plus, source, target, accepted),
        all_explored(graph, plus, target, accepted, candidates, accepted.len() as int),
        is_simple_route(graph, source, target, path),
        stays_finite(graph, plus),
        !has_path(accepted, path),
    ensures
        exists|found: Seq<NodeId>| #[trigger]
            has_path(candidates, found) && (adds_exactly(graph, plus) ==> route_cost(
                graph,
                plus,
                found,
            ) <= route_cost(graph, plus, path)),
{
    assert(exists_follow(accepted, path, 1)) by {
        assert(is_simple_route(graph, source, target, accepted[0].nodes@));
        assert(accepted[0].nodes@.take(1) =~= path.take(1));
        assert(share_start(accepted[0].nodes@, path, 1));
    }
    let count = lemma_longest(accepted, path, 1);
    let n = lemma_last_follower(accepted, path, count, accepted.len() as int);
    let a = accepted[n].nodes@;
    let at = count - 1;
    assert(is_simple_route(graph, source, target, a));
    lemma_leaves(graph, source, target, a, path, count);
    let detour = way_off(accepted, n + 1, a, at);
    lemma_not_banned(accepted, n, path, count);
    lemma_split(graph, source, target, path, at, detour);
    let tail = path.skip(at);
    assert(is_explored(graph, plus, target, accepted, candidates, n, at));
    assert(is_affordable(graph, plus, tail));
    let found = choose|found: Seq<NodeId>|
        {
            &&& has_path(accepted, found) || has_path(candidates, found)
            &&& #[trigger] share_start(found, a, at + 1)
            &&& at + 1 < found.len()
            &&& !detour.banned_next.contains(found[at + 1])
            &&& adds_exactly(graph, plus) ==> route_cost(graph, plus, found) <= route_cost(
                graph,
                plus,
                a.take(at) + tail,
            )
        };
    assert(a.take(at) + tail == path);
    if has_path(accepted, found) {
        let m = choose|m: int| 0 <= m < accepted.len() && (#[trigger] accepted[m]).nodes@ == found;
        assert(share_start(accepted[m].nodes@, path, count));
        assert(m <= n);
        assert(share_start(accepted[m].nodes@, a, at + 1));
        assert(detour.banned_next.contains(found[at + 1]));
    }
}

/// Two different paths to the same node that start alike go on after that.
proof fn lemma_leaves(
    graph: &GraphWorkspace,
    source: NodeId,
    target: NodeId,
    a: Seq<NodeId>,
    path: Seq<NodeId>,
    count: int,
)
    requires
        is_simple_route(graph, source, target, a),
        is_simple_route(graph, source, target, path),
        a != path,
        0 < count,
        share_start(a, path, count),
    ensures
        count < path.len(),
        count < a.len(),
        path[count - 1] == a[count - 1],
        path.take(count - 1) == a.take(count - 1),
{
    assert forall|k: int| 0 <= k < count implies path[k] == a[k] by {
        assert(path[k] == path.take(count)[k] && a[k] == a.take(count)[k]);
    }
    assert(path.take(count - 1) =~= a.take(count - 1));
    if count == path.len() {
        assert(a[count - 1] == target);
        if a.len() > count {
            assert(a[count - 1] != a[a.len() - 1]);
        }
        assert(a =~= path);
    }
    if count == a.len() {
        assert(path[count - 1] == target);
        if path.len() > count {
            assert(path[count - 1] != path[path.len() - 1]);
        }
        assert(a =~= path);
    }
}

/// Where a path leaves all accepted ones, its next node is not one that has to be avoided.
proof fn lemma_not_banned(accepted: Seq<WeightedPath>, n: int, path: Seq<NodeId>, count: int)
    requires
        0 <= n < accepted.len(),
        0 < count < path.len(),
        share_start(accepted[n].nodes@, path, count),
        !exists_follow(accepted, path, count + 1),
    ensures
        !way_off(accepted, n + 1, accepted[n].nodes@, count - 1).banned_next.contains(path[count]),
{
    let a = accepted[n].nodes@;
    let detour = way_off(accepted, n + 1, a, count - 1);
    if detour.banned_next.contains(path[count]) {
        let m = choose|m: int|
            0 <= m < n + 1 && share_start((#[trigger] accepted[m]).nodes@, a, count - 1 + 1)
                && count - 1 + 1 < accepted[m].nodes@.len() && accepted[m].nodes@[count - 1 + 1]
                == path[count];
        let b = accepted[m].nodes@;
        assert forall|k: int| 0 <= k < count implies b[k] == path[k] by {
            assert(b[k] == b.take(count)[k] && path[k] == path.take(count)[k]);
        }
        assert(b.take(count + 1) =~= path.take(count + 1));
        assert(share_start(b, path, count + 1));
    }
}

/// Whether an accepted path starts like a path.
spec fn exists_follow(accepted: Seq<WeightedPath>, path: Seq<NodeId>, count: int) -> bool {
    exists|m: int| 0 <= m < accepted.len() && share_start((#[trigger] accepted[m]).nodes@, path, count)
}

/// The longest start that a path shares with an accepted one.
proof fn lemma_longest(accepted: Seq<WeightedPath>, path: Seq<NodeId>, from: int) -> (count: int)
    requires
        0 < from <= path.len(),
        exists_follow(accepted, path, from),
    ensures
        from <= count <= path.len(),
        exists_follow(accepted, path, count),
        !exists_follow(accepted, path, count + 1),
    decreases path.len() - from,
{
    if exists_follow(accepted, path, from + 1) {
        let m = choose|m: int|
            0 <= m < accepted.len() && share_start(
                (#[trigger] accepted[m]).nodes@,
                path,
                from + 1,
            );
        assert(from + 1 <= path.len());
        lemma_longest(accepted, path, from + 1)
    } else {
        from
    }
}

/// The last accepted path that starts like a path.
proof fn lemma_last_follower(
    accepted: Seq<WeightedPath>,
    path: Seq<NodeId>,
    count: int,
    upto: int,
) -> (n: int)
    requires
        0 <= upto <= accepted.len(),
        exists|m: int|
            0 <= m < upto && share_start((#[trigger] accepted[m]).nodes@, path, count),
    ensures
        0 <= n < upto,
        share_start(accepted[n].nodes@, path, count),
        forall|m: int|
            n < m < upto ==> !share_start((#[trigger] accepted[m]).nodes@, path, count),
    decreases upto,
{
    if share_start(accepted[upto - 1].nodes@, path, count) {
        upto - 1
    } else {
        let m = choose|m: int|
            0 <= m < upto && share_start((#[trigger] accepted[m]).nodes@, path, count);
        assert(m < upto - 1);
        assert(share_start(accepted[m].nodes@, path, count));
        lemma_last_follower(accepted, path, count, upto - 1)
    }
}

/// What is explored stays so when paths become known, or are accepted.
proof fn lemma_explored_kept<F: Fn(u64, u32) -> u64>(
    graph: &GraphWorkspace,
    plus: F,
    target: NodeId,
    accepted: Seq<WeightedPath>,
    candidates: Seq<WeightedPath>,
    accepted_after: Seq<WeightedPath>,
    candidates_after: Seq<WeightedPath>,
    n: int,
    at: int,
)
    requires
        0 <= n < accepted.len() <= accepted_after.len(),
        0 <= at < accepted[n].nodes@.len() - 1,
        forall|i: int| 0 <= i < accepted.len() ==> accepted[i] == accepted_after[i],
        forall|path: Seq<NodeId>|
            #![trigger has_path(accepted, path)]
            #![trigger has_path(candidates, path)]
            has_path(accepted, path) || has_path(candidates, path) ==> has_path(
                accepted_after,
                path,
            ) || has_path(candidates_after, path),
        is_explored(graph, plus, target, accepted, candidates, n, at),
    ensures
        is_explored(graph, plus, target, accepted_after, candidates_after, n, at),
{
    let a = accepted[n].nodes@;
    assert(way_off(accepted, n + 1, a, at).banned_next =~= way_off(
        accepted_after,
        n + 1,
        a,
        at,
    ).banned_next) by {
        assert forall|next: NodeId| #[trigger]
            way_off(accepted, n + 1, a, at).banned_next.contains(next) <==> way_off(
            accepted_after,
            n + 1,
            a,
            at,
        ).banned_next.contains(next) by {
            if way_off(accepted, n + 1, a, at).banned_next.contains(next) {
                let m = choose|m: int|
                    0 <= m < n + 1 && share_start((#[trigger] accepted[m]).nodes@, a, at + 1) && at
                        + 1 < accepted[m].nodes@.len() && accepted[m].nodes@[at + 1] == next;
                assert(accepted_after[m] == accepted[m]);
            }
            if way_off(accepted_after, n + 1, a, at).banned_next.contains(next) {
                let m = choose|m: int|
                    0 <= m < n + 1 && share_start((#[trigger] accepted_after[m]).nodes@, a, at + 1)
                        && at + 1 < accepted_after[m].nodes@.len() && accepted_after[m].nodes@[at
                        + 1] == next;
                assert(accepted_after[m] == accepted[m]);
            }
        }
    }
    assert(way_off(accepted, n + 1, a, at) == way_off(accepted_after, n + 1, a, at));
    assert forall|tail: Seq<NodeId>|
        is_route(graph, way_off(accepted_after, n + 1, a, at), tail) && tail.last() == target
            && #[trigger] is_affordable(graph, plus, tail) implies exists|found: Seq<NodeId>|
        {
            &&& has_path(accepted_after, found) || has_path(candidates_after, found)
            &&& #[trigger] share_start(found, a, at + 1)
            &&& at + 1 < found.len()
            &&& !way_off(accepted_after, n + 1, a, at).banned_next.contains(found[at + 1])
            &&& adds_exactly(graph, plus) ==> route_cost(graph, plus, found) <= route_cost(
                graph,
                plus,
                a.take(at) + tail,
            )
        } by {
        let found = choose|found: Seq<NodeId>|
            {
                &&& has_path(accepted, found) || has_path(candidates, found)
                &&& #[trigger] share_start(found, a, at + 1)
                &&& at + 1 < found.len()
                &&& !way_off(accepted, n + 1, a, at).banned_next.contains(found[at + 1])
                &&& adds_exactly(graph, plus) ==> route_cost(graph, plus, found) <= route_cost(
                    graph,
                    plus,
                    a.take(at) + tail,
                )
            };
        assert(share_start(found, a, at + 1));
    }
}

/// Whether an error says that too many paths came into question.
pub open spec fn is_candidate_fault(error: TriviumError) -> bool {
    is_query_execution(error, "Yen 候选路径超过预算 (Yen candidate paths exceed budget)"@)
}

/// Whether two lists have no path in common.
pub open spec fn share_no_path(a: Seq<WeightedPath>, b: Seq<WeightedPath>) -> bool {
    forall|path: Seq<NodeId>|
        #![trigger has_path(a, path)]
        #![trigger has_path(b, path)]
        !(has_path(a, path) && has_path(b, path))
}

/// The nodes of a path before a place.
fn nodes_before(path: &Vec<NodeId>, at: usize) -> (banned: BTreeSet<NodeId>)
    requires
        at <= path@.len(),
    ensures
        banned@ == path@.take(at as int).to_set(),
{
    let mut banned: BTreeSet<NodeId> = BTreeSet::new();
    let mut i: usize = 0;
    assert(banned@ =~= path@.take(0).to_set());
    while i < at
        invariant
            i <= at <= path@.len(),
            banned@ == path@.take(i as int).to_set(),
        decreases at - i,
    {
        banned.insert(path[i]);
        proof {
            assert(path@.take(i + 1) =~= path@.take(i as int).push(path@[i as int]));
            lemma_to_set_push(path@.take(i as int), path@[i as int]);
        }
        i += 1;
    }
    banned
}

/// The nodes that follow in the accepted paths that start alike.
fn nodes_after(accepted: &Vec<WeightedPath>, path: &Vec<NodeId>, at: usize) -> (banned: BTreeSet<
    NodeId,
>)
    requires
        at < path@.len(),
    ensures
        banned@ == way_off(
            accepted@,
            accepted@.len() as int,
            path@,
            at as int,
        ).banned_next,
{
    let mut banned: BTreeSet<NodeId> = BTreeSet::new();
    let length: usize = path.len();
    let mut i: usize = 0;
    proof {
        assert(banned@ =~= way_off(accepted@, 0, path@, at as int).banned_next);
    }
    while i < accepted.len()
        invariant
            at < length == path@.len(),
            i <= accepted@.len(),
            banned@ == way_off(accepted@, i as int, path@, at as int).banned_next,
        decreases accepted@.len() - i,
    {
        let other = &accepted[i].nodes;
        let ghost before = banned@;
        let follows = at + 1 < other.len() && starts_alike(other, path, at + 1);
        if follows {
            banned.insert(other[at + 1]);
        }
        proof {
            let after = way_off(accepted@, i + 1, path@, at as int).banned_next;
            assert forall|next: NodeId| #[trigger] banned@.contains(next) <==> after.contains(
                next,
            ) by {
                assert(before.contains(next) <==> exists|m: int|
                    0 <= m < i && share_start(
                        (#[trigger] accepted@[m]).nodes@,
                        path@,
                        at + 1,
                    ) && at + 1 < accepted@[m].nodes@.len() && accepted@[m].nodes@[at + 1] == next);
                if before.contains(next) {
                    let m = choose|m: int|
                        0 <= m < i && share_start(
                            (#[trigger] accepted@[m]).nodes@,
                            path@,
                            at + 1,
                        ) && at + 1 < accepted@[m].nodes@.len() && accepted@[m].nodes@[at + 1]
                            == next;
                    assert(share_start(accepted@[m].nodes@, path@, at + 1));
                }
                if follows && next == other@[at + 1] {
                    assert(share_start(accepted@[i as int].nodes@, path@, at + 1));
                }
                if after.contains(next) {
                    let m = choose|m: int|
                        0 <= m < i + 1 && share_start(
                            (#[trigger] accepted@[m]).nodes@,
                            path@,
                            at + 1,
                        ) && at + 1 < accepted@[m].nodes@.len() && accepted@[m].nodes@[at + 1]
                            == next;
                    if m < i {
                        assert(share_start(accepted@[m].nodes@, path@, at + 1));
                    }
                }
            }
            assert(banned@ =~= after);
        }
        i += 1;
    }
    banned
}

/// A list with one more path.
proof fn lemma_has_path_push(list: Seq<WeightedPath>, added: WeightedPath, path: Seq<NodeId>)
    ensures
        has_path(list.push(added), path) <==> has_path(list, path) || added.nodes@ == path,
{
    let longer = list.push(added);
    if has_path(list, path) {
        let i = choose|i: int| 0 <= i < list.len() && (#[trigger] list[i]).nodes@ == path;
        assert(longer[i].nodes@ == path);
    }
    if added.nodes@ == path {
        assert(longer[list.len() as int].nodes@ == path);
    }
    if has_path(longer, path) {
        let i = choose|i: int| 0 <= i < longer.len() && (#[trigger] longer[i]).nodes@ == path;
        if i < list.len() {
            assert(list[i].nodes@ == path);
        }
    }
}

/// The start of a path followed by another path.
fn join_paths(path: &Vec<NodeId>, at: usize, tail: &Vec<NodeId>) -> (nodes: Vec<NodeId>)
    requires
        at <= path@.len(),
    ensures
        nodes@ == path@.take(at as int) + tail@,
{
    let mut nodes: Vec<NodeId> = Vec::new();
    let mut i: usize = 0;
    assert(nodes@ =~= path@.take(0));
    while i < at
        invariant
            i <= at <= path@.len(),
            nodes@ == path@.take(i as int),
        decreases at - i,
    {
        nodes.push(path[i]);
        assert(path@.take(i + 1) =~= path@.take(i as int).push(path@[i as int]));
        i += 1;
    }
    let mut j: usize = 0;
    assert(nodes@ =~= path@.take(at as int) + tail@.take(0));
    while j < tail.len()
        invariant
            j <= tail@.len(),
            nodes@ == path@.take(at as int) + tail@.take(j as int),
        decreases tail@.len() - j,
    {
        nodes.push(tail[j]);
        assert(path@.take(at as int) + tail@.take(j + 1) =~= (path@.take(at as int) + tail@.take(
            j as int,
        )).push(tail@[j as int]));
        j += 1;
    }
    assert(tail@.take(j as int) =~= tail@);
    nodes
}

/// Adds a path to those that come into question, unless it is one of them.
fn add_candidate<F: Fn(u64, u32) -> u64>(
    candidates: &mut Vec<WeightedPath>,
    candidate: WeightedPath,
    graph: &GraphWorkspace,
    plus: &F,
    Ghost(ends): Ghost<(NodeId, NodeId)>,
    Ghost(accepted): Ghost<Seq<WeightedPath>>,
)
    requires
        are_routes(graph, *plus, ends.0, ends.1, old(candidates)@),
        share_no_path(accepted, old(candidates)@),
        is_simple_route(graph, ends.0, ends.1, candidate.nodes@),
        candidate.cost == route_cost(graph, *plus, candidate.nodes@),
        !has_path(accepted, candidate.nodes@),
    ensures
        are_routes(graph, *plus, ends.0, ends.1, final(candidates)@),
        share_no_path(accepted, final(candidates)@),
        forall|path: Seq<NodeId>| #[trigger]
            has_path(final(candidates)@, path) <==> has_path(old(candidates)@, path) || path
                == candidate.nodes@,
{
    let ghost before = candidates@;
    let ghost found = candidate.nodes@;
    if knows_path(candidates, &candidate.nodes) {
        return;
    }
    candidates.push(candidate);
    proof {
        assert forall|path: Seq<NodeId>| #[trigger] has_path(candidates@, path) <==> has_path(
            before,
            path,
        ) || path == found by {
            lemma_has_path_push(before, candidate, path);
        }
        assert forall|path: Seq<NodeId>|
            #![trigger has_path(accepted, path)]
            #![trigger has_path(candidates@, path)]
            !(has_path(accepted, path) && has_path(candidates@, path)) by {
            assert(!(has_path(accepted, path) && has_path(before, path)));
        }
        assert forall|x: int, y: int| 0 <= x < y < candidates@.len() implies (
        #[trigger] candidates@[x]).nodes@ != (#[trigger] candidates@[y]).nodes@ by {
            if y == before.len() {
                if before[x].nodes@ == found {
                    assert(has_path(before, found));
                }
            } else {
                assert(before[x].nodes@ != before[y].nodes@);
            }
        }
        assert forall|x: int| 0 <= x < candidates@.len() implies is_simple_route(
            graph,
            ends.0,
            ends.1,
            (#[trigger] candidates@[x]).nodes@,
        ) && candidates@[x].cost == route_cost(graph, *plus, candidates@[x].nodes@) by {
            if x < before.len() {
                assert(before[x] == candidates@[x]);
            }
        }
    }
}

/// A known path that is no worse than any other way off means that the place is explored.
proof fn lemma_explored<F: Fn(u64, u32) -> u64>(
    graph: &GraphWorkspace,
    plus: F,
    target: NodeId,
    accepted: Seq<WeightedPath>,
    candidates: Seq<WeightedPath>,
    at: int,
    found: Seq<NodeId>,
)
    requires
        accepted.len() > 0,
        has_path(accepted, found) || has_path(candidates, found),
        is_way_off(graph, plus, target, accepted, at, found),
    ensures
        is_explored(graph, plus, target, accepted, candidates, accepted.len() - 1, at),
{
    reveal(is_way_off);
    let n = accepted.len() - 1;
    let a = accepted[n].nodes@;
    let detour = way_off(accepted, n + 1, a, at);
    assert forall|tail: Seq<NodeId>|
        is_route(graph, detour, tail) && tail.last() == target && #[trigger] is_affordable(
            graph,
            plus,
            tail,
        ) implies exists|other: Seq<NodeId>|
        {
            &&& has_path(accepted, other) || has_path(candidates, other)
            &&& #[trigger] share_start(other, a, at + 1)
            &&& at + 1 < other.len()
            &&& !detour.banned_next.contains(other[at + 1])
            &&& adds_exactly(graph, plus) ==> route_cost(graph, plus, other) <= route_cost(
                graph,
                plus,
                a.take(at) + tail,
            )
        } by {
        assert(share_start(found, a, at + 1));
    }
}

/// Whether no path leaves the last accepted path at one place.
#[verifier::opaque]
spec fn has_no_way_off<F: Fn(u64, u32) -> u64>(
    graph: &GraphWorkspace,
    plus: F,
    target: NodeId,
    accepted: Seq<WeightedPath>,
    at: int,
) -> bool {
    let n = accepted.len() - 1;
    forall|tail: Seq<NodeId>|
        is_route(graph, way_off(accepted, n + 1, accepted[n].nodes@, at), tail) && tail.last()
            == target ==> !(#[trigger] is_affordable(graph, plus, tail))
}

/// Whether a path is the best of those that leave the last accepted path at one place.
#[verifier::opaque]
spec fn is_way_off<F: Fn(u64, u32) -> u64>(
    graph: &GraphWorkspace,
    plus: F,
    target: NodeId,
    accepted: Seq<WeightedPath>,
    at: int,
    found: Seq<NodeId>,
) -> bool {
    let n = accepted.len() - 1;
    let a = accepted[n].nodes@;
    let detour = way_off(accepted, n + 1, a, at);
    &&& share_start(found, a, at + 1)
    &&& at + 1 < found.len()
    &&& !detour.banned_next.contains(found[at + 1])
    &&& forall|tail: Seq<NodeId>|
        is_route(graph, detour, tail) && tail.last() == target && #[trigger] is_affordable(
            graph,
            plus,
            tail,
        ) && adds_exactly(graph, plus) ==> route_cost(graph, plus, found) <= route_cost(
            graph,
            plus,
            a.take(at) + tail,
        )
}

/// The best path that leaves the last accepted path at one place.
fn find_way_off<F: Fn(u64, u32) -> u64>(
    graph: &GraphWorkspace,
    source: NodeId,
    target: NodeId,
    accepted: &Vec<WeightedPath>,
    at: usize,
    work: usize,
    max_work: usize,
    plus: &F,
) -> (result: Result<(Option<Vec<NodeId>>, usize)>)
    requires
        graph.well_formed(),
        has_weights(graph),
        adds_costs(*plus),
        accepted@.len() > 0,
        are_routes(graph, *plus, source, target, accepted@),
        at < accepted@.last().nodes@.len() - 1,
        work <= max_work,
    ensures
        ({
            let n = accepted@.len() - 1;
            let a = accepted@[n].nodes@;
            let detour = way_off(accepted@, n + 1, a, at as int);
            match result {
                Ok((way, spent)) => {
                    &&& spent <= max_work
                    &&& exists|order: Seq<NodeId>| #[trigger]
                        are_near(graph, *plus, detour, Some(target), order) && spent == work
                            + settled_work(graph, order)
                    &&& match way {
                        None => has_no_way_off(graph, *plus, target, accepted@, at as int),
                        Some(nodes) => {
                            &&& is_simple_route(graph, source, target, nodes@)
                            &&& has_steps(graph, nodes@)
                            &&& is_way_off(
                                graph,
                                *plus,
                                target,
                                accepted@,
                                at as int,
                                nodes@,
                            )
                        },
                    }
                },
                Err(error) => is_work_fault(max_work, error) && exists|order: Seq<NodeId>|
                    #[trigger] are_near(graph, *plus, detour, Some(target), order) && work
                        + settled_work(graph, order) > max_work,
            }
        }),
{
    let last: usize = accepted.len() - 1;
    let path = &accepted[last].nodes;
    let ghost n = accepted@.len() - 1;
    assert(accepted@[n].nodes@ == path@);
    assert(path@.len() == path.len());
    let banned = nodes_before(path, at);
    let banned_next = nodes_after(accepted, path, at);
    let spur: NodeId = path[at];
    let ghost detour = way_off(accepted@, n + 1, path@, at as int);
    assert(detour == (Detour { source: spur, banned: banned@, banned_next: banned_next@ }));
    let (search, spent) = match shortest_weighted_path(
        graph,
        spur,
        Some(target),
        &banned,
        &banned_next,
        work,
        max_work,
        plus,
    ) {
        Ok(found) => found,
        Err(error) => {
            return Err(error);
        },
    };
    assert(is_settled_for(graph, *plus, detour, search, target));
    match search.paths.get(&target) {
        None => {
            proof {
                lemma_none_found(graph, *plus, target, accepted@, at as int, search);
            }
            Ok((None, spent))
        },
        Some(tail) => {
            proof {
                assert(search.paths@.contains_key(target));
                lemma_found_explored(
                    graph,
                    *plus,
                    source,
                    target,
                    accepted@,
                    at as int,
                    search,
                    path@.take(at as int) + tail@,
                );
            }
            Ok((Some(join_paths(path, at, tail)), spent))
        },
    }
}

/// Looks for the best way off the last accepted path at one place.
fn explore<F: Fn(u64, u32) -> u64>(
    graph: &GraphWorkspace,
    source: NodeId,
    target: NodeId,
    accepted: &Vec<WeightedPath>,
    candidates: &mut Vec<WeightedPath>,
    at: usize,
    work: usize,
    max_work: usize,
    max_candidates: usize,
    plus: &F,
) -> (result: Result<usize>)
    requires
        graph.well_formed(),
        has_weights(graph),
        adds_costs(*plus),
        accepted@.len() > 0,
        are_routes(graph, *plus, source, target, accepted@),
        are_routes(graph, *plus, source, target, old(candidates)@),
        share_no_path(accepted@, old(candidates)@),
        at < accepted@.last().nodes@.len() - 1,
        work <= max_work,
        old(candidates)@.len() <= max_candidates,
    ensures
        are_routes(graph, *plus, source, target, final(candidates)@),
        share_no_path(accepted@, final(candidates)@),
        forall|path: Seq<NodeId>| #[trigger]
            has_path(old(candidates)@, path) ==> has_path(final(candidates)@, path),
        ({
            let n = accepted@.len() - 1;
            let detour = way_off(accepted@, n + 1, accepted@[n].nodes@, at as int);
            match result {
                Ok(spent) => {
                    &&& is_explored(
                        graph,
                        *plus,
                        target,
                        accepted@,
                        final(candidates)@,
                        n,
                        at as int,
                    )
                    &&& spent <= max_work
                    &&& final(candidates)@.len() <= max_candidates
                    &&& exists|order: Seq<NodeId>| #[trigger]
                        are_near(graph, *plus, detour, Some(target), order) && spent == work
                            + settled_work(graph, order)
                },
                Err(error) => (is_work_fault(max_work, error) && exists|order: Seq<NodeId>|
                    #[trigger] are_near(graph, *plus, detour, Some(target), order) && work
                        + settled_work(graph, order) > max_work) || (is_candidate_fault(error)
                    && final(candidates)@.len() > max_candidates),
            }
        }),
{
    let ghost n = accepted@.len() - 1;
    let (way, spent) = match find_way_off(
        graph,
        source,
        target,
        accepted,
        at,
        work,
        max_work,
        plus,
    ) {
        Ok(found) => found,
        Err(error) => {
            return Err(error);
        },
    };
    match way {
        None => {
            proof {
                reveal(has_no_way_off);
            }
        },
        Some(nodes) => {
            let cost: u64 = sum_cost(graph, &nodes, plus);
            let ghost found = nodes@;
            if !knows_path(accepted, &nodes) {
                add_candidate(
                    candidates,
                    WeightedPath { nodes, cost },
                    graph,
                    plus,
                    Ghost((source, target)),
                    Ghost(accepted@),
                );
                if candidates.len() > max_candidates {
                    return Err(
                        query_execution(
                            "Yen 候选路径超过预算 (Yen candidate paths exceed budget)",
                        ),
                    );
                }
            }
            proof {
                assert(has_path(accepted@, found) || has_path(candidates@, found));
                lemma_explored(
                    graph,
                    *plus,
                    target,
                    accepted@,
                    candidates@,
                    at as int,
                    found,
                );
            }
        },
    }
    Ok(spent)
}

/// Where a search found nothing, no path leaves.
proof fn lemma_none_found<F: Fn(u64, u32) -> u64>(
    graph: &GraphWorkspace,
    plus: F,
    target: NodeId,
    accepted: Seq<WeightedPath>,
    at: int,
    search: PathSearch,
)
    requires
        accepted.len() > 0,
        is_settled_for(
            graph,
            plus,
            way_off(
                accepted,
                accepted.len() as int,
                accepted[accepted.len() - 1].nodes@,
                at,
            ),
            search,
            target,
        ),
        !search.paths@.contains_key(target),
    ensures
        has_no_way_off(graph, plus, target, accepted, at),
{
    reveal(has_no_way_off);
}

/// The path that a search found is no worse than any other way off.
proof fn lemma_found_explored<F: Fn(u64, u32) -> u64>(
    graph: &GraphWorkspace,
    plus: F,
    source: NodeId,
    target: NodeId,
    accepted: Seq<WeightedPath>,
    at: int,
    search: PathSearch,
    found: Seq<NodeId>,
)
    requires
        accepted.len() > 0,
        are_routes(graph, plus, source, target, accepted),
        0 <= at < accepted.last().nodes@.len() - 1,
        ({
            let n = accepted.len() - 1;
            let a = accepted[n].nodes@;
            let detour = way_off(accepted, n + 1, a, at);
            &&& is_settled_for(graph, plus, detour, search, target)
            &&& search.paths@.contains_key(target)
            &&& found == a.take(at) + search.paths@[target]@
        }),
    ensures
        is_way_off(graph, plus, target, accepted, at, found),
        is_simple_route(graph, source, target, found),
        has_steps(graph, found),
{
    let n = accepted.len() - 1;
    let a = accepted[n].nodes@;
    let detour = way_off(accepted, n + 1, a, at);
    let best = search.paths@[target]@;
    reveal(is_way_off);
    assert(is_simple_route(graph, source, target, a));
    lemma_join(graph, source, a, at, detour, best);
    assert(best.len() > 1) by {
        if best.len() == 1 {
            assert(best[0] == a[at]);
            assert(a[at] != a[a.len() - 1]);
        }
    }
    assert(found[at + 1] == best[1]);
    let start: int = 0;
    assert(is_step(graph, detour, best, start));
    assert forall|tail: Seq<NodeId>|
        is_route(graph, detour, tail) && tail.last() == target && #[trigger] is_affordable(
            graph,
            plus,
            tail,
        ) && adds_exactly(graph, plus) implies route_cost(graph, plus, found) <= route_cost(
        graph,
        plus,
        a.take(at) + tail,
    ) by {
        assert(route_cost(graph, plus, best) <= route_cost(graph, plus, tail));
        assert(route_cost(graph, plus, a.take(at) + best) <= route_cost(
            graph,
            plus,
            a.take(at) + tail,
        ));
    }
}

/// The best of some paths: the cheapest, and among those the one that comes first.
fn best_candidate(candidates: &Vec<WeightedPath>) -> (best: Option<usize>)
    ensures
        best is None <==> candidates@.len() == 0,
        best matches Some(at) ==> at < candidates@.len() && forall|i: int|
            0 <= i < candidates@.len() ==> !is_preferred(
                (#[trigger] candidates@[i]).cost,
                candidates@[i].nodes@,
                candidates@[at as int].cost,
                candidates@[at as int].nodes@,
            ),
{
    if candidates.len() == 0 {
        return None;
    }
    let mut best: usize = 0;
    let mut i: usize = 1;
    proof {
        let first = candidates@[0];
        lemma_preferred(first.cost, first.nodes@, first.cost, first.nodes@, 0, Seq::empty());
    }
    while i < candidates.len()
        invariant
            best < i <= candidates@.len(),
            forall|k: int|
                0 <= k < i ==> !is_preferred(
                    (#[trigger] candidates@[k]).cost,
                    candidates@[k].nodes@,
                    candidates@[best as int].cost,
                    candidates@[best as int].nodes@,
                ),
        decreases candidates@.len() - i,
    {
        let better = candidates[i].cost < candidates[best].cost || (candidates[i].cost
            == candidates[best].cost && ids_less(&candidates[i].nodes, &candidates[best].nodes));
        proof {
            let old_best = candidates@[best as int];
            let new = candidates@[i as int];
            lemma_preferred(new.cost, new.nodes@, new.cost, new.nodes@, 0, Seq::empty());
            assert forall|k: int| 0 <= k < i && better implies !is_preferred(
                (#[trigger] candidates@[k]).cost,
                candidates@[k].nodes@,
                new.cost,
                new.nodes@,
            ) by {
                let other = candidates@[k];
                lemma_preferred(
                    other.cost,
                    other.nodes@,
                    new.cost,
                    new.nodes@,
                    old_best.cost,
                    old_best.nodes@,
                );
            }
        }
        if better {
            best = i;
        }
        i += 1;
    }
    Some(best)
}

/// Whether a list of paths goes from the cheapest on: no path that is not listed before an entry is
/// cheaper than it.
pub open spec fn from_cheapest<F: Fn(u64, u32) -> u64>(
    graph: &GraphWorkspace,
    plus: F,
    source: NodeId,
    target: NodeId,
    list: Seq<WeightedPath>,
) -> bool {
    forall|i: int, path: Seq<NodeId>|
        0 <= i < list.len() && #[trigger] is_simple_route(graph, source, target, path) && !has_path(
            list.take(i),
            path,
        ) ==> (#[trigger] list[i]).cost <= route_cost(graph, plus, path)
}

/// Whether a list has every path from one node to another.
pub open spec fn has_every_path(
    graph: &GraphWorkspace,
    source: NodeId,
    target: NodeId,
    list: Seq<WeightedPath>,
) -> bool {
    forall|path: Seq<NodeId>| #[trigger]
        is_simple_route(graph, source, target, path) ==> has_path(list, path)
}

/// The searches of a run: for the first path, and then for the ways off each accepted path, as far
/// as place `at` of path `n`.
pub open spec fn run_detours(
    source: NodeId,
    accepted: Seq<WeightedPath>,
    n: int,
    at: int,
) -> Seq<Detour>
    decreases n, at,
{
    if n < 0 {
        seq![direct(source)]
    } else if at > 0 {
        run_detours(source, accepted, n, at - 1).push(
            way_off(accepted, n + 1, accepted[n].nodes@, at - 1),
        )
    } else if n > 0 {
        run_detours(source, accepted, n - 1, accepted[n - 1].nodes@.len() - 1)
    } else {
        seq![direct(source)]
    }
}

/// What the searches of a log were for.
pub open spec fn detours_of(log: Seq<(Detour, Seq<NodeId>)>) -> Seq<Detour> {
    Seq::new(log.len(), |i: int| log[i].0)
}

/// Whether a log is that of a run that is at place `at` of accepted path `n`.
pub open spec fn is_run_log<F: Fn(u64, u32) -> u64>(
    graph: &GraphWorkspace,
    plus: F,
    source: NodeId,
    target: NodeId,
    accepted: Seq<WeightedPath>,
    n: int,
    at: int,
    log: Seq<(Detour, Seq<NodeId>)>,
) -> bool {
    &&& is_log(graph, plus, Some(target), log)
    &&& detours_of(log) == run_detours(source, accepted, n, at)
}

/// Whether a run is under way with these accepted paths, and is at place `at` of path `n`.
pub open spec fn is_under_way<F: Fn(u64, u32) -> u64>(
    graph: &GraphWorkspace,
    plus: F,
    source: NodeId,
    target: NodeId,
    k: usize,
    accepted: Seq<WeightedPath>,
    n: int,
    at: int,
) -> bool {
    ||| accepted.len() == 0 && n == 0 && at == 0
    ||| {
        &&& are_routes(graph, plus, source, target, accepted)
        &&& is_cheapest(graph, plus, direct(source), target, accepted[0])
        &&& accepted.len() < k
        &&& 0 <= n < accepted.len()
        &&& 0 <= at < accepted[n].nodes@.len()
    }
}

/// Whether an error says which budget was not enough: the work of the searches of a run, or the
/// number of paths that came into question besides the accepted ones.
pub open spec fn is_budget_fault<F: Fn(u64, u32) -> u64>(
    graph: &GraphWorkspace,
    plus: F,
    source: NodeId,
    target: NodeId,
    k: usize,
    max_work: usize,
    max_candidates: usize,
    error: TriviumError,
) -> bool {
    ||| is_work_fault(max_work, error) && exists|
        accepted: Seq<WeightedPath>,
        n: int,
        at: int,
        log: Seq<(Detour, Seq<NodeId>)>,
    |
        {
            &&& is_under_way(graph, plus, source, target, k, accepted, n, at)
            &&& #[trigger] is_run_log(graph, plus, source, target, accepted, n, at, log)
            &&& log_work(graph, log) > max_work
        }
    ||| is_candidate_fault(error) && exists|
        accepted: Seq<WeightedPath>,
        candidates: Seq<WeightedPath>,
    |
        {
            &&& 1 <= accepted.len() < k
            &&& are_routes(graph, plus, source, target, accepted)
            &&& are_routes(graph, plus, source, target, candidates)
            &&& #[trigger] share_no_path(accepted, candidates)
            &&& candidates.len() > max_candidates
        }
}

/// Accepting one more path does not change the searches before it.
proof fn lemma_run_kept(
    source: NodeId,
    accepted: Seq<WeightedPath>,
    more: WeightedPath,
    n: int,
    at: int,
)
    requires
        n < accepted.len(),
    ensures
        run_detours(source, accepted.push(more), n, at) == run_detours(source, accepted, n, at),
    decreases n, at,
{
    let longer = accepted.push(more);
    if n < 0 {
    } else if at > 0 {
        lemma_run_kept(source, accepted, more, n, at - 1);
        let a = way_off(accepted, n + 1, accepted[n].nodes@, at - 1);
        let b = way_off(longer, n + 1, longer[n].nodes@, at - 1);
        assert(longer[n] == accepted[n]);
        assert forall|next: NodeId| a.banned_next.contains(next) <==> b.banned_next.contains(
            next,
        ) by {
            if a.banned_next.contains(next) {
                let m = choose|m: int|
                    0 <= m < n + 1 && share_start(
                        (#[trigger] accepted[m]).nodes@,
                        accepted[n].nodes@,
                        at - 1 + 1,
                    ) && at - 1 + 1 < accepted[m].nodes@.len() && accepted[m].nodes@[at - 1 + 1]
                        == next;
                assert(longer[m] == accepted[m]);
            }
            if b.banned_next.contains(next) {
                let m = choose|m: int|
                    0 <= m < n + 1 && share_start(
                        (#[trigger] longer[m]).nodes@,
                        longer[n].nodes@,
                        at - 1 + 1,
                    ) && at - 1 + 1 < longer[m].nodes@.len() && longer[m].nodes@[at - 1 + 1]
                        == next;
                assert(longer[m] == accepted[m]);
            }
        }
        assert(a.banned_next =~= b.banned_next);
    } else if n > 0 {
        assert(longer[n - 1] == accepted[n - 1]);
        lemma_run_kept(source, accepted, more, n - 1, accepted[n - 1].nodes@.len() - 1);
    }
}

/// One more search of a run.
proof fn lemma_run_push<F: Fn(u64, u32) -> u64>(
    graph: &GraphWorkspace,
    plus: F,
    source: NodeId,
    target: NodeId,
    accepted: Seq<WeightedPath>,
    n: int,
    at: int,
    log: Seq<(Detour, Seq<NodeId>)>,
    order: Seq<NodeId>,
)
    requires
        0 <= n,
        0 <= at,
        is_run_log(graph, plus, source, target, accepted, n, at, log),
        are_near(
            graph,
            plus,
            way_off(accepted, n + 1, accepted[n].nodes@, at),
            Some(target),
            order,
        ),
    ensures
        ({
            let longer = log.push((way_off(accepted, n + 1, accepted[n].nodes@, at), order));
            &&& is_run_log(graph, plus, source, target, accepted, n, at + 1, longer)
            &&& log_work(graph, longer) == log_work(graph, log) + settled_work(graph, order)
        }),
{
    let detour = way_off(accepted, n + 1, accepted[n].nodes@, at);
    lemma_log_push(graph, plus, Some(target), log, detour, order);
    assert(detours_of(log.push((detour, order))) =~= detours_of(log).push(detour));
}

/// One more search in a log.
pub(crate) proof fn lemma_log_push<F: Fn(u64, u32) -> u64>(
    graph: &GraphWorkspace,
    plus: F,
    target: Option<NodeId>,
    log: Seq<(Detour, Seq<NodeId>)>,
    detour: Detour,
    order: Seq<NodeId>,
)
    requires
        is_log(graph, plus, target, log),
        are_near(graph, plus, detour, target, order),
    ensures
        is_log(graph, plus, target, log.push((detour, order))),
        log_work(graph, log.push((detour, order))) == log_work(graph, log) + settled_work(
            graph,
            order,
        ),
{
    let longer = log.push((detour, order));
    assert(longer.drop_last() =~= log);
    assert forall|i: int| 0 <= i < longer.len() implies are_near(
        graph,
        plus,
        (#[trigger] longer[i]).0,
        target,
        longer[i].1,
    ) by {
        if i < log.len() {
            assert(log[i] == longer[i]);
        }
    }
}

/// The cheapest paths from one node to another that repeat no node, at most `k`, the cheapest
/// first and paths of the same cost in order. Fewer come only where there are no more.
pub fn yen_k_shortest_paths<F: Fn(u64, u32) -> u64>(
    graph: &GraphWorkspace,
    source: NodeId,
    target: NodeId,
    k: usize,
    max_work: usize,
    max_candidates: usize,
    plus: &F,
) -> (result: Result<Vec<WeightedPath>>)
    requires
        graph.well_formed(),
        adds_costs(*plus),
    ensures
        !has_weights(graph) ==> (result matches Err(error) && is_invalid_input(
            error,
            "加权算法要求非负有限边权 (Weighted algorithms require finite non-negative edge weights)"@,
        )),
        has_weights(graph) && (k == 0 || max_candidates == 0) ==> (result matches Err(error)
            && is_invalid_input(
            error,
            "Yen 的 K 和候选上限必须大于 0 (Yen K and candidate limit must be positive)"@,
        )),
        has_weights(graph) && k > 0 && max_candidates > 0 ==> match result {
            Ok(paths) => {
                &&& are_routes(graph, *plus, source, target, paths@)
                &&& paths@.len() <= k
                &&& paths@.len() == 0 ==> is_unreachable(graph, *plus, direct(source), target)
                &&& paths@.len() > 0 ==> is_cheapest(
                    graph,
                    *plus,
                    direct(source),
                    target,
                    paths@[0],
                ) && is_first_choice(graph, *plus, direct(source), target, paths@[0].nodes@)
                &&& stays_finite(graph, *plus) && paths@.len() < k ==> has_every_path(
                    graph,
                    source,
                    target,
                    paths@,
                )
                &&& stays_finite(graph, *plus) && adds_exactly(graph, *plus) ==> from_cheapest(
                    graph,
                    *plus,
                    source,
                    target,
                    paths@,
                )
            },
            Err(error) => is_budget_fault(
                graph,
                *plus,
                source,
                target,
                k,
                max_work,
                max_candidates,
                error,
            ),
        },
{
    match validate_weighted_graph(graph) {
        Ok(()) => {},
        Err(error) => {
            return Err(error);
        },
    }
    if k == 0 || max_candidates == 0 {
        return Err(
            invalid_input(
                "Yen 的 K 和候选上限必须大于 0 (Yen K and candidate limit must be positive)",
            ),
        );
    }
    let nothing: BTreeSet<NodeId> = BTreeSet::new();
    proof {
        assert(nothing@ =~= Set::empty());
        assert(direct(source) == (Detour {
            source,
            banned: nothing@,
            banned_next: nothing@,
        }));
    }
    let ghost mut log: Seq<(Detour, Seq<NodeId>)> = Seq::empty();
    let (search, first_work) = match shortest_weighted_path(
        graph,
        source,
        Some(target),
        &nothing,
        &nothing,
        0,
        max_work,
        plus,
    ) {
        Ok(found) => found,
        Err(error) => {
            proof {
                let order = choose|order: Seq<NodeId>| #[trigger]
                    are_near(graph, *plus, direct(source), Some(target), order) && settled_work(
                        graph,
                        order,
                    ) > max_work;
                lemma_log_push(graph, *plus, Some(target), log, direct(source), order);
                let only = log.push((direct(source), order));
                let none = Seq::<WeightedPath>::empty();
                assert(detours_of(only) =~= run_detours(source, none, 0, 0));
                assert(is_under_way(graph, *plus, source, target, k, none, 0, 0));
                assert(is_run_log(graph, *plus, source, target, none, 0, 0, only));
            }
            return Err(error);
        },
    };
    proof {
        let order = choose|order: Seq<NodeId>| #[trigger]
            are_near(graph, *plus, direct(source), Some(target), order) && has_nearer(
                graph,
                *plus,
                direct(source),
                Some(target),
                search,
                order,
            ) && first_work == settled_work(graph, order);
        lemma_log_push(graph, *plus, Some(target), log, direct(source), order);
        log = log.push((direct(source), order));
        assert(detours_of(log) =~= seq![direct(source)]);
        assert(is_settled_for(graph, *plus, direct(source), search, target));
    }
    let mut work: usize = first_work;
    let mut accepted: Vec<WeightedPath> = Vec::new();
    match search.paths.get(&target) {
        None => {
            proof {
                assert forall|path: Seq<NodeId>| #[trigger]
                    is_simple_route(graph, source, target, path) && stays_finite(
                        graph,
                        *plus,
                    ) implies has_path(accepted@, path) by {
                    assert(is_affordable(graph, *plus, path));
                }
            }
            return Ok(accepted);
        },
        Some(nodes) => {
            let nodes = copy_slice(nodes.as_slice());
            proof {
                assert(search.paths@.contains_key(target));
                lemma_cost_grows(graph, *plus, direct(source), nodes@);
                assert(graph.nodes().contains(target));
            }
            let cost: u64 = *search.distances.get(&target).unwrap();
            accepted.push(WeightedPath { nodes, cost });
        },
    }
    let mut candidates: Vec<WeightedPath> = Vec::new();
    proof {
        assert(is_cheapest(graph, *plus, direct(source), target, accepted@[0]));
        assert(is_first_choice(graph, *plus, direct(source), target, accepted@[0].nodes@));
        assert(from_cheapest(graph, *plus, source, target, accepted@));
    }
    let mut exhausted = false;
    while accepted.len() < k && !exhausted
        invariant
            graph.well_formed(),
            has_weights(graph),
            adds_costs(*plus),
            1 <= accepted@.len() <= k,
            k > 0,
            max_candidates > 0,
            work <= max_work,
            !exhausted ==> is_run_log(
                graph,
                *plus,
                source,
                target,
                accepted@,
                accepted@.len() - 1,
                0,
                log,
            ),
            work == log_work(graph, log),
            are_routes(graph, *plus, source, target, accepted@),
            are_routes(graph, *plus, source, target, candidates@),
            share_no_path(accepted@, candidates@),
            candidates@.len() <= max_candidates,
            is_cheapest(graph, *plus, direct(source), target, accepted@[0]),
            is_first_choice(graph, *plus, direct(source), target, accepted@[0].nodes@),
            exhausted ==> (stays_finite(graph, *plus) ==> has_every_path(
                graph,
                source,
                target,
                accepted@,
            )),
            !exhausted ==> all_explored(
                graph,
                *plus,
                target,
                accepted@,
                candidates@,
                accepted@.len() - 1,
            ),
            stays_finite(graph, *plus) && adds_exactly(graph, *plus) ==> from_cheapest(
                graph,
                *plus,
                source,
                target,
                accepted@,
            ),
        decreases k - accepted@.len(), !exhausted as int,
    {
        let length: usize = accepted[accepted.len() - 1].nodes.len();
        let ghost n = accepted@.len() - 1;
        assert(is_simple_route(graph, source, target, accepted@[n].nodes@));
        let mut at: usize = 0;
        while at < length - 1
            invariant
                graph.well_formed(),
                has_weights(graph),
                adds_costs(*plus),
                k > 0,
                max_candidates > 0,
                accepted@.len() > 0,
                n == accepted@.len() - 1,
                length == accepted@[n].nodes@.len(),
                length > 0,
                at <= length - 1,
                work <= max_work,
                is_run_log(graph, *plus, source, target, accepted@, n, at as int, log),
                accepted@.len() < k,
                is_cheapest(graph, *plus, direct(source), target, accepted@[0]),
                work == log_work(graph, log),
                are_routes(graph, *plus, source, target, accepted@),
                are_routes(graph, *plus, source, target, candidates@),
                share_no_path(accepted@, candidates@),
                candidates@.len() <= max_candidates,
                all_explored(graph, *plus, target, accepted@, candidates@, n),
                forall|i: int|
                    0 <= i < at ==> #[trigger] is_explored(
                        graph,
                        *plus,
                        target,
                        accepted@,
                        candidates@,
                        n,
                        i,
                    ),
            decreases length - at,
        {
            let ghost before = candidates@;
            let ghost detour = way_off(accepted@, n + 1, accepted@[n].nodes@, at as int);
            match explore(
                graph,
                source,
                target,
                &accepted,
                &mut candidates,
                at,
                work,
                max_work,
                max_candidates,
                plus,
            ) {
                Ok(spent) => {
                    proof {
                        let order = choose|order: Seq<NodeId>| #[trigger]
                            are_near(graph, *plus, detour, Some(target), order) && spent == work
                                + settled_work(graph, order);
                        lemma_run_push(
                            graph,
                            *plus,
                            source,
                            target,
                            accepted@,
                            n,
                            at as int,
                            log,
                            order,
                        );
                        log = log.push((detour, order));
                        assert forall|m: int, i: int|
                            0 <= m < n && 0 <= i < accepted@[m].nodes@.len() - 1 implies #[trigger]
                            is_explored(
                            graph,
                            *plus,
                            target,
                            accepted@,
                            candidates@,
                            m,
                            i,
                        ) by {
                            assert(is_explored(graph, *plus, target, accepted@, before, m, i));
                            lemma_explored_kept(
                                graph,
                                *plus,
                                target,
                                accepted@,
                                before,
                                accepted@,
                                candidates@,
                                m,
                                i,
                            );
                        }
                        assert forall|i: int| 0 <= i < at + 1 implies #[trigger] is_explored(
                            graph,
                            *plus,
                            target,
                            accepted@,
                            candidates@,
                            n,
                            i,
                        ) by {
                            if i < at {
                                assert(is_explored(
                                    graph,
                                    *plus,
                                    target,
                                    accepted@,
                                    before,
                                    n,
                                    i,
                                ));
                                lemma_explored_kept(
                                    graph,
                                    *plus,
                                    target,
                                    accepted@,
                                    before,
                                    accepted@,
                                    candidates@,
                                    n,
                                    i,
                                );
                            }
                        }
                    }
                    work = spent;
                },
                Err(error) => {
                    proof {
                        if is_work_fault(max_work, error) && exists|order: Seq<NodeId>| #[trigger]
                            are_near(graph, *plus, detour, Some(target), order) && work
                                + settled_work(graph, order) > max_work {
                            let order = choose|order: Seq<NodeId>| #[trigger]
                                are_near(graph, *plus, detour, Some(target), order) && work
                                    + settled_work(graph, order) > max_work;
                            lemma_run_push(
                                graph,
                                *plus,
                                source,
                                target,
                                accepted@,
                                n,
                                at as int,
                                log,
                                order,
                            );
                            assert(is_under_way(
                                graph,
                                *plus,
                                source,
                                target,
                                k,
                                accepted@,
                                n,
                                at + 1,
                            ));
                        } else {
                            assert(share_no_path(accepted@, candidates@));
                        }
                    }
                    return Err(error);
                },
            }
            at += 1;
        }
        proof {
            assert forall|m: int, i: int|
                0 <= m < accepted@.len() && 0 <= i < accepted@[m].nodes@.len() - 1 implies
                #[trigger] is_explored(graph, *plus, target, accepted@, candidates@, m, i) by {}
            assert(all_explored(
                graph,
                *plus,
                target,
                accepted@,
                candidates@,
                accepted@.len() as int,
            ));
            assert forall|path: Seq<NodeId>|
                stays_finite(graph, *plus) && #[trigger] is_simple_route(
                    graph,
                    source,
                    target,
                    path,
                ) && !has_path(accepted@, path) implies exists|found: Seq<NodeId>| #[trigger]
                has_path(candidates@, found) && (adds_exactly(graph, *plus) ==> route_cost(
                    graph,
                    *plus,
                    found,
                ) <= route_cost(graph, *plus, path)) by {
                lemma_other_known(
                    graph,
                    *plus,
                    source,
                    target,
                    accepted@,
                    candidates@,
                    path,
                );
            }
        }
        match best_candidate(&candidates) {
            None => {
                exhausted = true;
            },
            Some(best) => {
                let ghost before = candidates@;
                let ghost held = accepted@;
                let chosen = candidates.remove(best);
                accepted.push(chosen);
                proof {
                    lemma_run_kept(source, held, chosen, n, length - 1);
                    lemma_accept(
                        graph,
                        *plus,
                        source,
                        target,
                        held,
                        before,
                        best as int,
                        accepted@,
                        candidates@,
                    );
                }
            },
        }
    }
    Ok(accepted)
}

/// Accepting the best of the paths that came into question.
proof fn lemma_accept<F: Fn(u64, u32) -> u64>(
    graph: &GraphWorkspace,
    plus: F,
    source: NodeId,
    target: NodeId,
    accepted: Seq<WeightedPath>,
    candidates: Seq<WeightedPath>,
    best: int,
    accepted_after: Seq<WeightedPath>,
    candidates_after: Seq<WeightedPath>,
)
    requires
        accepted.len() > 0,
        0 <= best < candidates.len(),
        forall|i: int|
            0 <= i < candidates.len() ==> !is_preferred(
                (#[trigger] candidates[i]).cost,
                candidates[i].nodes@,
                candidates[best].cost,
                candidates[best].nodes@,
            ),
        accepted_after == accepted.push(candidates[best]),
        candidates_after == candidates.remove(best),
        are_routes(graph, plus, source, target, accepted),
        are_routes(graph, plus, source, target, candidates),
        share_no_path(accepted, candidates),
        all_explored(graph, plus, target, accepted, candidates, accepted.len() as int),
        forall|path: Seq<NodeId>|
            stays_finite(graph, plus) && #[trigger] is_simple_route(
                graph,
                source,
                target,
                path,
            ) && !has_path(accepted, path) ==> exists|found: Seq<NodeId>| #[trigger]
                has_path(candidates, found) && (adds_exactly(graph, plus) ==> route_cost(
                    graph,
                    plus,
                    found,
                ) <= route_cost(graph, plus, path)),
        stays_finite(graph, plus) && adds_exactly(graph, plus) ==> from_cheapest(
            graph,
            plus,
            source,
            target,
            accepted,
        ),
    ensures
        are_routes(graph, plus, source, target, accepted_after),
        are_routes(graph, plus, source, target, candidates_after),
        share_no_path(accepted_after, candidates_after),
        all_explored(
            graph,
            plus,
            target,
            accepted_after,
            candidates_after,
            accepted_after.len() - 1,
        ),
        stays_finite(graph, plus) && adds_exactly(graph, plus) ==> from_cheapest(
            graph,
            plus,
            source,
            target,
            accepted_after,
        ),
{
    let taken = candidates[best];
    assert(has_path(candidates, taken.nodes@));
    assert forall|i: int, j: int| 0 <= i < j < accepted_after.len() implies (
    #[trigger] accepted_after[i]).nodes@ != (#[trigger] accepted_after[j]).nodes@ by {
        assert(accepted[i] == accepted_after[i]);
        if j < accepted.len() {
            assert(accepted[j] == accepted_after[j]);
        } else if accepted[i].nodes@ == taken.nodes@ {
            assert(has_path(accepted, taken.nodes@));
        }
    }
    assert forall|i: int| 0 <= i < accepted_after.len() implies is_simple_route(
        graph,
        source,
        target,
        (#[trigger] accepted_after[i]).nodes@,
    ) && accepted_after[i].cost == route_cost(graph, plus, accepted_after[i].nodes@) by {
        if i < accepted.len() {
            assert(accepted[i] == accepted_after[i]);
        } else {
            assert(candidates[best] == accepted_after[i]);
        }
    }
    assert forall|i: int| 0 <= i < candidates_after.len() implies is_simple_route(
        graph,
        source,
        target,
        (#[trigger] candidates_after[i]).nodes@,
    ) && candidates_after[i].cost == route_cost(graph, plus, candidates_after[i].nodes@) by {
        let k = if i < best {
            i
        } else {
            i + 1
        };
        assert(candidates[k] == candidates_after[i]);
    }
    assert forall|i: int, j: int| 0 <= i < j < candidates_after.len() implies (
    #[trigger] candidates_after[i]).nodes@ != (#[trigger] candidates_after[j]).nodes@ by {
        let x = if i < best {
            i
        } else {
            i + 1
        };
        let y = if j < best {
            j
        } else {
            j + 1
        };
        assert(candidates[x].nodes@ != candidates[y].nodes@);
    }
    assert forall|path: Seq<NodeId>| #[trigger] has_path(candidates_after, path) <==> has_path(
        candidates,
        path,
    ) && path != taken.nodes@ by {
        if has_path(candidates_after, path) {
            let i = choose|i: int|
                0 <= i < candidates_after.len() && (#[trigger] candidates_after[i]).nodes@ == path;
            let k = if i < best {
                i
            } else {
                i + 1
            };
            assert(candidates[k].nodes@ == path);
            if k < best {
                assert(candidates[k].nodes@ != candidates[best].nodes@);
            } else {
                assert(candidates[best].nodes@ != candidates[k].nodes@);
            }
        }
        if has_path(candidates, path) && path != taken.nodes@ {
            let k = choose|k: int|
                0 <= k < candidates.len() && (#[trigger] candidates[k]).nodes@ == path;
            let i = if k < best {
                k
            } else {
                k - 1
            };
            assert(candidates_after[i].nodes@ == path);
        }
    }
    assert forall|path: Seq<NodeId>| #[trigger] has_path(accepted_after, path) <==> has_path(
        accepted,
        path,
    ) || path == taken.nodes@ by {
        lemma_has_path_push(accepted, taken, path);
    }
    assert forall|path: Seq<NodeId>|
        #![trigger has_path(accepted_after, path)]
        #![trigger has_path(candidates_after, path)]
        !(has_path(accepted_after, path) && has_path(candidates_after, path)) by {
        assert(!(has_path(accepted, path) && has_path(candidates, path)));
    }
    assert forall|n: int, at: int|
        0 <= n < accepted_after.len() - 1 && 0 <= at < accepted_after[n].nodes@.len()
            - 1 implies #[trigger] is_explored(
        graph,
        plus,
        target,
        accepted_after,
        candidates_after,
        n,
        at,
    ) by {
        assert(accepted_after[n] == accepted[n]);
        assert(is_explored(graph, plus, target, accepted, candidates, n, at));
        lemma_explored_kept(
            graph,
            plus,
            target,
            accepted,
            candidates,
            accepted_after,
            candidates_after,
            n,
            at,
        );
    }
    if stays_finite(graph, plus) && adds_exactly(graph, plus) {
        assert forall|i: int, path: Seq<NodeId>|
            0 <= i < accepted_after.len() && #[trigger] is_simple_route(
                graph,
                source,
                target,
                path,
            ) && !has_path(accepted_after.take(i), path) implies (
        #[trigger] accepted_after[i]).cost <= route_cost(graph, plus, path) by {
            if i < accepted.len() {
                assert(accepted_after.take(i) =~= accepted.take(i));
                assert(accepted[i] == accepted_after[i]);
            } else {
                assert(accepted_after.take(i) =~= accepted);
                let found = choose|found: Seq<NodeId>| #[trigger]
                    has_path(candidates, found) && route_cost(graph, plus, found) <= route_cost(
                        graph,
                        plus,
                        path,
                    );
                let m = choose|m: int|
                    0 <= m < candidates.len() && (#[trigger] candidates[m]).nodes@ == found;
                assert(candidates[m].cost == route_cost(graph, plus, found));
            }
        }
    }
}

} // verus!
