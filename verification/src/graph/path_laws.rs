//! What a node holds for a source: its part in the shortest paths from there.
use vstd::prelude::*;

use crate::graph::betweenness::{are_shortest_paths, finds, nearer, ShortestPaths};
use crate::graph::dependency::{value_in, PathArithmetic};
use crate::graph::walk::{
    is_distance, lemma_reaches_step, lemma_reaches_transitive, lemma_within_concat,
    lemma_within_step, reaches, within,
};
use crate::graph::workspace::GraphWorkspace;
use crate::node::NodeId;
use crate::number::{spec_f64_less, F64_ONE};
use crate::sums::{
    lemma_sum_bounds, lemma_sum_constant, lemma_sum_equal, lemma_sum_of_first, lemma_sum_plus,
    lemma_sum_single, lemma_sum_sublist, lemma_sum_swap, lemma_sum_take, lemma_sum_times, sum_of,
    where_wanted,
};

verus! {

/// The number of walks of so many steps from one node to another that stay among `nodes`: one of no
/// steps from a node to itself, and as many of one step more as there are to the nodes from which
/// the last step can come.
pub open spec fn ways(
    graph: &GraphWorkspace,
    nodes: Seq<NodeId>,
    from: NodeId,
    to: NodeId,
    steps: nat,
) -> real
    decreases steps, nodes.len() + 1,
{
    if steps == 0 {
        if from == to {
            1real
        } else {
            0real
        }
    } else {
        ways_over(graph, nodes, from, to, steps, nodes.len())
    }
}

/// The number of walks whose last step comes from one of the first `count` nodes.
pub open spec fn ways_over(
    graph: &GraphWorkspace,
    nodes: Seq<NodeId>,
    from: NodeId,
    to: NodeId,
    steps: nat,
    count: nat,
) -> real
    decreases steps, count,
{
    if steps == 0 || count == 0 || count > nodes.len() {
        0real
    } else {
        ways_over(graph, nodes, from, to, steps, (count - 1) as nat) + if graph.has(
            nodes[count - 1],
            to,
        ) {
            ways(graph, nodes, from, nodes[count - 1], (steps - 1) as nat)
        } else {
            0real
        }
    }
}

/// The number of walks with a last step from each node.
spec fn ways_by_last(
    graph: &GraphWorkspace,
    nodes: Seq<NodeId>,
    from: NodeId,
    to: NodeId,
    fewer: nat,
) -> spec_fn(NodeId) -> real {
    |via: NodeId|
        if graph.has(via, to) {
            ways(graph, nodes, from, via, fewer)
        } else {
            0real
        }
}

/// The number of walks with a first step to each node.
spec fn ways_by_first(
    graph: &GraphWorkspace,
    nodes: Seq<NodeId>,
    from: NodeId,
    to: NodeId,
    fewer: nat,
) -> spec_fn(NodeId) -> real {
    |next: NodeId|
        if graph.has(from, next) {
            ways(graph, nodes, next, to, fewer)
        } else {
            0real
        }
}

/// Walks may be told apart by their last step.
proof fn lemma_ways_last(
    graph: &GraphWorkspace,
    nodes: Seq<NodeId>,
    from: NodeId,
    to: NodeId,
    fewer: nat,
)
    ensures
        ways(graph, nodes, from, to, fewer + 1) == sum_of(
            nodes,
            ways_by_last(graph, nodes, from, to, fewer),
        ),
{
    lemma_ways_over(graph, nodes, from, to, fewer, nodes.len());
    assert(nodes.take(nodes.len() as int) =~= nodes);
}

/// The walks whose last step comes from the first nodes.
proof fn lemma_ways_over(
    graph: &GraphWorkspace,
    nodes: Seq<NodeId>,
    from: NodeId,
    to: NodeId,
    fewer: nat,
    count: nat,
)
    requires
        count <= nodes.len(),
    ensures
        ways_over(graph, nodes, from, to, fewer + 1, count) == sum_of(
            nodes.take(count as int),
            ways_by_last(graph, nodes, from, to, fewer),
        ),
    decreases count,
{
    if count > 0 {
        lemma_ways_over(graph, nodes, from, to, fewer, (count - 1) as nat);
        lemma_sum_take(nodes, ways_by_last(graph, nodes, from, to, fewer), count as int);
        assert((fewer + 1 - 1) as nat == fewer);
    }
}

/// The distance of a node from the source.
pub open spec fn level_of(paths: ShortestPaths, id: NodeId) -> nat {
    paths.levels@[paths.order@.index_of(id)] as nat
}

/// The number of shortest paths from the source to a node: the walks with as many steps as the node
/// is away. All of them stay among the nodes that the source reaches.
pub open spec fn path_number(graph: &GraphWorkspace, paths: ShortestPaths, id: NodeId) -> real {
    ways(graph, paths.order@, paths.order@[0], id, level_of(paths, id))
}

/// The fraction of the shortest paths from the source to a node that lead through another on their
/// way: the paths to the one, times the ways on from there, over all paths.
pub open spec fn fraction_through(
    graph: &GraphWorkspace,
    paths: ShortestPaths,
    via: NodeId,
    target: NodeId,
) -> real {
    let near = level_of(paths, via);
    let far = level_of(paths, target);
    if near < far {
        path_number(graph, paths, via) * ways(
            graph,
            paths.order@,
            via,
            target,
            (far - near) as nat,
        ) / path_number(graph, paths, target)
    } else {
        0real
    }
}

/// The part of a node in the shortest paths from the source: over all targets, the fraction of the
/// paths that lead through it.
pub open spec fn part_in_paths(graph: &GraphWorkspace, paths: ShortestPaths, via: NodeId) -> real {
    sum_of(paths.order@, |target: NodeId| fraction_through(graph, paths, via, target))
}

/// Whether the last step of a shortest path to one node comes from another.
pub open spec fn leads(
    graph: &GraphWorkspace,
    paths: ShortestPaths,
    near: NodeId,
    far: NodeId,
) -> bool {
    graph.has(near, far) && level_of(paths, far) == level_of(paths, near) + 1
}

/// What a node has from one behind it.
spec fn step_part(graph: &GraphWorkspace, paths: ShortestPaths, near: NodeId, far: NodeId) -> real {
    if leads(graph, paths, near, far) {
        path_number(graph, paths, near) / path_number(graph, paths, far) * (1real + part_in_paths(
            graph,
            paths,
            far,
        ))
    } else {
        0real
    }
}

/// The level of the node at a place.
proof fn lemma_level(graph: &GraphWorkspace, source: NodeId, paths: ShortestPaths, k: int)
    requires
        are_shortest_paths(graph, source, paths),
        0 <= k < paths.order@.len(),
    ensures
        paths.order@.index_of(paths.order@[k]) == k,
        level_of(paths, paths.order@[k]) == paths.levels@[k],
        is_distance(graph.steps(), source, paths.order@[k], level_of(paths, paths.order@[k])),
{
    let order = paths.order@;
    let i = order.index_of(order[k]);
    assert(order.contains(order[k]));
    assert(0 <= i < order.len() && order[i] == order[k]);
}

/// A step leads to a node that is reached, and at most one level further.
proof fn lemma_step(
    graph: &GraphWorkspace,
    source: NodeId,
    paths: ShortestPaths,
    from: NodeId,
    to: NodeId,
)
    requires
        are_shortest_paths(graph, source, paths),
        paths.order@.contains(from),
        graph.has(from, to),
    ensures
        paths.order@.contains(to),
        level_of(paths, to) <= level_of(paths, from) + 1,
{
    let order = paths.order@;
    let steps = graph.steps();
    let i = order.index_of(from);
    lemma_level(graph, source, paths, i);
    assert(reaches(steps, source, from));
    assert(steps(from, to));
    lemma_reaches_step(steps, from, to);
    lemma_reaches_transitive(steps, source, from, to);
    assert(order.contains(to));
    let k = order.index_of(to);
    lemma_level(graph, source, paths, k);
    lemma_within_step(steps, source, from, to, level_of(paths, from));
}

/// A walk of so many steps leads at most so many levels further.
proof fn lemma_walk_levels(
    graph: &GraphWorkspace,
    source: NodeId,
    paths: ShortestPaths,
    from: NodeId,
    to: NodeId,
    count: nat,
)
    requires
        are_shortest_paths(graph, source, paths),
        paths.order@.contains(from),
        paths.order@.contains(to),
        within(graph.steps(), from, to, count),
    ensures
        level_of(paths, to) <= level_of(paths, from) + count,
{
    let order = paths.order@;
    lemma_level(graph, source, paths, order.index_of(from));
    lemma_level(graph, source, paths, order.index_of(to));
    lemma_within_concat(graph.steps(), source, from, to, level_of(paths, from), count);
}

/// Only the source is on level zero, and every other node has one that leads to it.
proof fn lemma_has_nearer(
    graph: &GraphWorkspace,
    source: NodeId,
    paths: ShortestPaths,
    k: int,
) -> (j: int)
    requires
        are_shortest_paths(graph, source, paths),
        0 <= k < paths.order@.len(),
    ensures
        k == 0 <==> level_of(paths, paths.order@[k]) == 0,
        k > 0 ==> 0 <= j < paths.order@.len() && leads(
            graph,
            paths,
            paths.order@[j],
            paths.order@[k],
        ),
{
    let order = paths.order@;
    let steps = graph.steps();
    lemma_level(graph, source, paths, k);
    let far = order[k];
    let level = level_of(paths, far);
    assert(within(steps, source, source, 0));
    if k == 0 {
        assert(level == 0);
        0
    } else {
        if level == 0 {
            assert(far == source);
            assert(order[0] == order[k]);
        }
        let fewer = (level - 1) as nat;
        assert(!within(steps, source, far, fewer));
        let via = choose|via: NodeId| within(steps, source, via, fewer) && #[trigger] steps(via, far);
        assert(reaches(steps, source, via));
        assert(order.contains(via));
        let j = order.index_of(via);
        lemma_level(graph, source, paths, j);
        assert(level_of(paths, via) <= fewer);
        assert(graph.has(via, far));
        lemma_step(graph, source, paths, via, far);
        j
    }
}

/// Nodes that are nearer come earlier.
proof fn lemma_levels_ascend(
    graph: &GraphWorkspace,
    source: NodeId,
    paths: ShortestPaths,
    by: Seq<int>,
    a: int,
    b: int,
)
    requires
        are_shortest_paths(graph, source, paths),
        finds(graph, paths.order@, by),
        0 <= a < paths.order@.len(),
        0 <= b < paths.order@.len(),
        level_of(paths, paths.order@[a]) < level_of(paths, paths.order@[b]),
    ensures
        a < b,
    decreases level_of(paths, paths.order@[a]),
{
    let order = paths.order@;
    if a >= b {
        let j = lemma_has_nearer(graph, source, paths, a);
        let _ = lemma_has_nearer(graph, source, paths, b);
        assert(a > 0 && b > 0);
        assert(by[b] <= by[a]) by {
            if b < a {
                assert(by[b] < by[a] || (by[b] == by[a] && order[b] < order[a]));
            }
        }
        assert(graph.has(order[by[b]], order[b]));
        assert(order.contains(order[by[b]]));
        lemma_step(graph, source, paths, order[by[b]], order[b]);
        lemma_levels_ascend(graph, source, paths, by, j, by[b]);
        assert(j < by[a]);
        assert(!graph.has(order[j], order[a]));
    }
}

/// There are not fewer than no walks.
proof fn lemma_ways_not_negative(
    graph: &GraphWorkspace,
    nodes: Seq<NodeId>,
    from: NodeId,
    to: NodeId,
    steps: nat,
)
    ensures
        ways(graph, nodes, from, to, steps) >= 0real,
    decreases steps,
{
    if steps > 0 {
        let fewer = (steps - 1) as nat;
        let term = ways_by_last(graph, nodes, from, to, fewer);
        lemma_ways_last(graph, nodes, from, to, fewer);
        assert forall|i: int| 0 <= i < nodes.len() implies term(#[trigger] nodes[i]) >= 0real by {
            lemma_ways_not_negative(graph, nodes, from, nodes[i], fewer);
        }
        lemma_sum_bounds(nodes, term);
    }
}

/// Where there is a walk, the one node is within so many steps of the other.
proof fn lemma_ways_within(
    graph: &GraphWorkspace,
    nodes: Seq<NodeId>,
    from: NodeId,
    to: NodeId,
    steps: nat,
)
    requires
        ways(graph, nodes, from, to, steps) != 0real,
    ensures
        within(graph.steps(), from, to, steps),
    decreases steps,
{
    if steps > 0 && !within(graph.steps(), from, to, steps) {
        let fewer = (steps - 1) as nat;
        let term = ways_by_last(graph, nodes, from, to, fewer);
        lemma_ways_last(graph, nodes, from, to, fewer);
        assert forall|i: int| 0 <= i < nodes.len() implies term(#[trigger] nodes[i]) == 0real by {
            let via = nodes[i];
            if graph.has(via, to) && ways(graph, nodes, from, via, fewer) != 0real {
                lemma_ways_within(graph, nodes, from, via, fewer);
                assert((graph.steps())(via, to));
                lemma_within_step(graph.steps(), from, via, to, fewer);
            }
        }
        lemma_sum_equal(nodes, term, |via: NodeId| 0real);
        lemma_sum_constant(nodes, 0real);
        assert((nodes.len() as real) * 0real == 0real) by (nonlinear_arith);
    }
}

/// Walks may be told apart by their first step.
proof fn lemma_ways_first(
    graph: &GraphWorkspace,
    nodes: Seq<NodeId>,
    from: NodeId,
    to: NodeId,
    fewer: nat,
)
    requires
        nodes.no_duplicates(),
        nodes.contains(from),
        nodes.contains(to),
    ensures
        ways(graph, nodes, from, to, fewer + 1) == sum_of(
            nodes,
            ways_by_first(graph, nodes, from, to, fewer),
        ),
    decreases fewer,
{
    let last = ways_by_last(graph, nodes, from, to, fewer);
    let first = ways_by_first(graph, nodes, from, to, fewer);
    lemma_ways_last(graph, nodes, from, to, fewer);
    if fewer == 0 {
        let i = nodes.index_of(from);
        let k = nodes.index_of(to);
        lemma_sum_single(nodes, i, last);
        lemma_sum_single(nodes, k, first);
    } else {
        let least = (fewer - 1) as nat;
        let both = |via: NodeId, next: NodeId|
            if graph.has(via, to) && graph.has(from, next) {
                ways(graph, nodes, next, via, least)
            } else {
                0real
            };
        let by_via = |via: NodeId| sum_of(nodes, |next: NodeId| both(via, next));
        let by_next = |next: NodeId| sum_of(nodes, |via: NodeId| both(via, next));
        lemma_sum_constant(nodes, 0real);
        assert((nodes.len() as real) * 0real == 0real) by (nonlinear_arith);
        assert forall|i: int| 0 <= i < nodes.len() implies last(#[trigger] nodes[i]) == by_via(
            nodes[i],
        ) by {
            let via = nodes[i];
            let terms = |next: NodeId| both(via, next);
            if graph.has(via, to) {
                lemma_ways_first(graph, nodes, from, via, least);
                lemma_sum_equal(nodes, ways_by_first(graph, nodes, from, via, least), terms);
            } else {
                lemma_sum_equal(nodes, terms, |next: NodeId| 0real);
            }
        }
        lemma_sum_equal(nodes, last, by_via);
        lemma_sum_swap(nodes, nodes, both);
        assert forall|i: int| 0 <= i < nodes.len() implies first(#[trigger] nodes[i]) == by_next(
            nodes[i],
        ) by {
            let next = nodes[i];
            let terms = |via: NodeId| both(via, next);
            if graph.has(from, next) {
                lemma_ways_last(graph, nodes, next, to, least);
                lemma_sum_equal(nodes, ways_by_last(graph, nodes, next, to, least), terms);
            } else {
                lemma_sum_equal(nodes, terms, |via: NodeId| 0real);
            }
        }
        lemma_sum_equal(nodes, first, by_next);
    }
}

/// The number of shortest paths to a node: as many as to the nodes that lead to it together.
proof fn lemma_path_number(graph: &GraphWorkspace, source: NodeId, paths: ShortestPaths, k: int)
    requires
        are_shortest_paths(graph, source, paths),
        0 <= k < paths.order@.len(),
    ensures
        k == 0 ==> path_number(graph, paths, paths.order@[k]) == 1real,
        k > 0 ==> path_number(graph, paths, paths.order@[k]) == sum_of(
            paths.order@,
            where_wanted(
                |near: NodeId| leads(graph, paths, near, paths.order@[k]),
                |near: NodeId| path_number(graph, paths, near),
            ),
        ),
{
    let order = paths.order@;
    let far = order[k];
    let _ = lemma_has_nearer(graph, source, paths, k);
    if k > 0 {
        let level = level_of(paths, far);
        let fewer = (level - 1) as nat;
        let term = ways_by_last(graph, order, order[0], far, fewer);
        lemma_ways_last(graph, order, order[0], far, fewer);
        let wanted = where_wanted(
            |near: NodeId| leads(graph, paths, near, far),
            |near: NodeId| path_number(graph, paths, near),
        );
        assert forall|i: int| 0 <= i < order.len() implies term(#[trigger] order[i]) == wanted(
            order[i],
        ) by {
            let via = order[i];
            assert(order.contains(via));
            if graph.has(via, far) && !leads(graph, paths, via, far) {
                lemma_step(graph, source, paths, via, far);
                if ways(graph, order, order[0], via, fewer) != 0real {
                    lemma_ways_within(graph, order, order[0], via, fewer);
                    lemma_level(graph, source, paths, i);
                    assert(within(graph.steps(), source, via, fewer));
                    assert(level_of(paths, via) <= fewer);
                }
            }
        }
        lemma_sum_equal(order, term, wanted);
    }
}

/// At least one shortest path leads to a node that is reached.
proof fn lemma_path_number_positive(
    graph: &GraphWorkspace,
    source: NodeId,
    paths: ShortestPaths,
    k: int,
)
    requires
        are_shortest_paths(graph, source, paths),
        0 <= k < paths.order@.len(),
    ensures
        path_number(graph, paths, paths.order@[k]) > 0real,
    decreases level_of(paths, paths.order@[k]),
{
    let order = paths.order@;
    let far = order[k];
    let j = lemma_has_nearer(graph, source, paths, k);
    lemma_path_number(graph, source, paths, k);
    if k > 0 {
        lemma_path_number_positive(graph, source, paths, j);
        let wanted = where_wanted(
            |near: NodeId| leads(graph, paths, near, far),
            |near: NodeId| path_number(graph, paths, near),
        );
        assert forall|i: int| 0 <= i < order.len() implies wanted(#[trigger] order[i]) >= 0real by {
            lemma_ways_not_negative(graph, order, order[0], order[i], level_of(paths, order[i]));
        }
        lemma_sum_bounds(order, wanted);
        assert(wanted(order[j]) <= sum_of(order, wanted));
    }
}

/// A quotient of quotients.
proof fn lemma_through(a: real, b: real, c: real, x: real)
    requires
        b > 0real,
        c > 0real,
    ensures
        a / c * x == a / b * (b * x / c),
        a * x / c == a / c * x,
{
    assert(a / c * x == a / b * (b * x / c)) by (nonlinear_arith)
        requires
            b > 0real,
            c > 0real,
    ;
    assert(a * x / c == a / c * x) by (nonlinear_arith)
        requires
            c > 0real,
    ;
}

/// One where both are the same node.
spec fn at_target(target: NodeId) -> spec_fn(NodeId) -> real {
    |id: NodeId|
        if id == target {
            1real
        } else {
            0real
        }
}

/// What a node passes on of the paths to one target.
spec fn passed_through(
    graph: &GraphWorkspace,
    paths: ShortestPaths,
    via: NodeId,
    next: NodeId,
    target: NodeId,
) -> real {
    if leads(graph, paths, via, next) {
        path_number(graph, paths, via) / path_number(graph, paths, next) * (fraction_through(
            graph,
            paths,
            next,
            target,
        ) + at_target(target)(next))
    } else {
        0real
    }
}

/// The paths to one target that lead through a node go on through the nodes behind it.
proof fn lemma_fraction_splits(
    graph: &GraphWorkspace,
    source: NodeId,
    paths: ShortestPaths,
    i: int,
    k: int,
)
    requires
        are_shortest_paths(graph, source, paths),
        0 <= i < paths.order@.len(),
        0 <= k < paths.order@.len(),
    ensures
        fraction_through(graph, paths, paths.order@[i], paths.order@[k]) == sum_of(
            paths.order@,
            |next: NodeId|
                passed_through(graph, paths, paths.order@[i], next, paths.order@[k]),
        ),
{
    let order = paths.order@;
    let via = order[i];
    let target = order[k];
    let near = level_of(paths, via);
    let far = level_of(paths, target);
    let terms = |next: NodeId| passed_through(graph, paths, via, next, target);
    assert(order.contains(via) && order.contains(target));
    if near < far {
        let fewer = (far - near - 1) as nat;
        let ons = ways_by_first(graph, order, via, target, fewer);
        lemma_ways_first(graph, order, via, target, fewer);
        assert(fewer + 1 == far - near);
        let a = path_number(graph, paths, via);
        let c = path_number(graph, paths, target);
        lemma_path_number_positive(graph, source, paths, k);
        let scaled = |next: NodeId| (a / c) * ons(next);
        assert forall|n: int| 0 <= n < order.len() implies scaled(#[trigger] order[n]) == terms(
            order[n],
        ) by {
            let next = order[n];
            assert(order.contains(next));
            let b = path_number(graph, paths, next);
            lemma_path_number_positive(graph, source, paths, n);
            assert((a / c) * 0real == 0real) by (nonlinear_arith);
            if graph.has(via, next) {
                lemma_step(graph, source, paths, via, next);
                let x = ways(graph, order, next, target, fewer);
                let level = level_of(paths, next);
                if level == near + 1 {
                    if far > level {
                        assert(next != target);
                        assert((far - level) as nat == fewer);
                        lemma_through(a, b, c, x);
                    } else {
                        assert(fewer == 0);
                        if next == target {
                            assert(b == c);
                        }
                        assert((a / b) * 0real == 0real) by (nonlinear_arith);
                    }
                } else {
                    if x != 0real {
                        lemma_ways_within(graph, order, next, target, fewer);
                        lemma_walk_levels(graph, source, paths, next, target, fewer);
                    }
                }
            }
        }
        lemma_sum_equal(order, scaled, terms);
        lemma_sum_times(order, a / c, ons);
        lemma_through(a, c, c, sum_of(order, ons));
    } else {
        assert forall|n: int| 0 <= n < order.len() implies terms(#[trigger] order[n]) == (
        |next: NodeId| 0real)(order[n]) by {
            let next = order[n];
            if leads(graph, paths, via, next) {
                assert(next != target);
                let share = path_number(graph, paths, via) / path_number(graph, paths, next);
                assert(share * 0real == 0real) by (nonlinear_arith);
            }
        }
        lemma_sum_equal(order, terms, |next: NodeId| 0real);
        lemma_sum_constant(order, 0real);
        assert((order.len() as real) * 0real == 0real) by (nonlinear_arith);
    }
}

/// The part of a node is made up of what it has from the nodes behind it.
proof fn lemma_part_splits(graph: &GraphWorkspace, source: NodeId, paths: ShortestPaths, i: int)
    requires
        are_shortest_paths(graph, source, paths),
        0 <= i < paths.order@.len(),
    ensures
        part_in_paths(graph, paths, paths.order@[i]) == sum_of(
            paths.order@,
            |far: NodeId| step_part(graph, paths, paths.order@[i], far),
        ),
{
    let order = paths.order@;
    let via = order[i];
    let both = |target: NodeId, next: NodeId| passed_through(graph, paths, via, next, target);
    let by_target = |target: NodeId| sum_of(order, |next: NodeId| both(target, next));
    let by_next = |next: NodeId| sum_of(order, |target: NodeId| both(target, next));
    let fractions = |target: NodeId| fraction_through(graph, paths, via, target);
    assert forall|k: int| 0 <= k < order.len() implies fractions(#[trigger] order[k]) == by_target(
        order[k],
    ) by {
        let target = order[k];
        lemma_fraction_splits(graph, source, paths, i, k);
        lemma_sum_equal(
            order,
            |next: NodeId| passed_through(graph, paths, via, next, target),
            |next: NodeId| both(target, next),
        );
    }
    lemma_sum_equal(order, fractions, by_target);
    lemma_sum_swap(order, order, both);
    let parts = |far: NodeId| step_part(graph, paths, via, far);
    assert forall|n: int| 0 <= n < order.len() implies by_next(#[trigger] order[n]) == parts(
        order[n],
    ) by {
        let next = order[n];
        let terms = |target: NodeId| both(target, next);
        if leads(graph, paths, via, next) {
            let share = path_number(graph, paths, via) / path_number(graph, paths, next);
            let on = |target: NodeId| fraction_through(graph, paths, next, target);
            let here = at_target(next);
            let whole = |target: NodeId| on(target) + here(target);
            lemma_sum_equal(order, terms, |target: NodeId| share * whole(target));
            lemma_sum_times(order, share, whole);
            lemma_sum_plus(order, on, here);
            lemma_sum_equal(order, whole, |target: NodeId| on(target) + here(target));
            lemma_sum_single(order, n, here);
            lemma_sum_equal(
                order,
                on,
                |target: NodeId| fraction_through(graph, paths, next, target),
            );
            assert(sum_of(order, whole) == 1real + part_in_paths(graph, paths, next));
        } else {
            lemma_sum_equal(order, terms, |target: NodeId| 0real);
            lemma_sum_constant(order, 0real);
            assert((order.len() as real) * 0real == 0real) by (nonlinear_arith);
        }
    }
    lemma_sum_equal(order, by_next, parts);
}

/// Fractions and parts are not negative.
proof fn lemma_parts_not_negative(
    graph: &GraphWorkspace,
    source: NodeId,
    paths: ShortestPaths,
    i: int,
)
    requires
        are_shortest_paths(graph, source, paths),
        0 <= i < paths.order@.len(),
    ensures
        part_in_paths(graph, paths, paths.order@[i]) >= 0real,
{
    let order = paths.order@;
    let via = order[i];
    let fractions = |target: NodeId| fraction_through(graph, paths, via, target);
    assert forall|k: int| 0 <= k < order.len() implies fractions(#[trigger] order[k]) >= 0real by {
        let target = order[k];
        let near = level_of(paths, via);
        let far = level_of(paths, target);
        if near < far {
            let x = ways(graph, order, via, target, (far - near) as nat);
            lemma_ways_not_negative(graph, order, via, target, (far - near) as nat);
            lemma_path_number_positive(graph, source, paths, i);
            lemma_path_number_positive(graph, source, paths, k);
            let a = path_number(graph, paths, via);
            let c = path_number(graph, paths, target);
            assert(a * x / c >= 0real) by (nonlinear_arith)
                requires
                    a > 0real,
                    x >= 0real,
                    c > 0real,
            ;
        }
    }
    lemma_sum_bounds(order, fractions);
}

/// What a node has from one behind it is not negative.
proof fn lemma_step_part_not_negative(
    graph: &GraphWorkspace,
    source: NodeId,
    paths: ShortestPaths,
    i: int,
    k: int,
)
    requires
        are_shortest_paths(graph, source, paths),
        0 <= i < paths.order@.len(),
        0 <= k < paths.order@.len(),
    ensures
        step_part(graph, paths, paths.order@[i], paths.order@[k]) >= 0real,
{
    lemma_path_number_positive(graph, source, paths, i);
    lemma_path_number_positive(graph, source, paths, k);
    lemma_parts_not_negative(graph, source, paths, k);
    let a = path_number(graph, paths, paths.order@[i]);
    let b = path_number(graph, paths, paths.order@[k]);
    let d = part_in_paths(graph, paths, paths.order@[k]);
    assert(a / b * (1real + d) >= 0real) by (nonlinear_arith)
        requires
            a > 0real,
            b > 0real,
            d >= 0real,
    ;
}

/// The nodes that lead to another, as they are listed.
proof fn lemma_nearer_lists(
    graph: &GraphWorkspace,
    source: NodeId,
    paths: ShortestPaths,
    k: int,
    count: int,
)
    requires
        are_shortest_paths(graph, source, paths),
        0 <= k < paths.order@.len(),
        0 <= count <= paths.order@.len(),
    ensures
        ({
            let order = paths.order@;
            let list = nearer(graph, order, paths.levels@, order[k], paths.levels@[k], count);
            &&& list.no_duplicates()
            &&& forall|id: NodeId| #[trigger]
                list.contains(id) <==> order.take(count).contains(id) && leads(
                    graph,
                    paths,
                    id,
                    order[k],
                )
        }),
    decreases count,
{
    let order = paths.order@;
    let list = nearer(graph, order, paths.levels@, order[k], paths.levels@[k], count);
    lemma_level(graph, source, paths, k);
    if count > 0 {
        lemma_nearer_lists(graph, source, paths, k, count - 1);
        lemma_level(graph, source, paths, count - 1);
        let before = nearer(graph, order, paths.levels@, order[k], paths.levels@[k], count - 1);
        let last = order[count - 1];
        assert(order.take(count) =~= order.take(count - 1).push(last));
        assert(!order.take(count - 1).contains(last)) by {
            if order.take(count - 1).contains(last) {
                let few = order.take(count - 1);
                let j = few.index_of(last);
                assert(few[j] == last);
                assert(order[j] == order[count - 1]);
            }
        }
        assert forall|id: NodeId| #[trigger] list.contains(id) <==> order.take(count).contains(id)
            && leads(graph, paths, id, order[k]) by {
            crate::collections::lemma_contains_push(order.take(count - 1), last, id);
            crate::collections::lemma_contains_push(before, last, id);
            assert(before.contains(id) <==> order.take(count - 1).contains(id) && leads(
                graph,
                paths,
                id,
                order[k],
            ));
        }
        assert(!before.contains(last));
        if leads(graph, paths, last, order[k]) {
            assert(list == before.push(last));
            assert forall|i: int, j: int|
                0 <= i < list.len() && 0 <= j < list.len() && i != j implies list[i] != list[j] by {
                if i < before.len() && j < before.len() {
                    assert(list[i] == before[i] && list[j] == before[j]);
                } else if i < before.len() {
                    assert(before.contains(before[i]));
                } else {
                    assert(before.contains(before[j]));
                }
            }
        }
    } else {
        assert(order.take(0) =~= Seq::<NodeId>::empty());
    }
}

impl<
    P: Fn(u64, u64) -> u64,
    S: Fn(u64, u64, u64) -> u64,
    N: Fn(u64, usize, usize) -> u64,
> PathArithmetic<P, S, N> {
    /// Whether nothing is rounded when parts are summed up along these paths, with the bit patterns
    /// read as `value` says: sums up to a limit are exact, no number of paths and no part exceeds
    /// the limit, and a node before another gets its exact part of what that one has and of one
    /// more.
    pub open spec fn is_exact(
        &self,
        value: spec_fn(u64) -> real,
        limit: real,
        graph: &GraphWorkspace,
        paths: ShortestPaths,
    ) -> bool {
        &&& value(0) == 0real
        &&& value(F64_ONE) == 1real
        &&& forall|bits: u64| #[trigger] value(bits) > 0real ==> spec_f64_less(0, bits)
        &&& forall|a: u64, b: u64|
            value(a) >= 0real && value(b) >= 0real && value(a) + value(b) <= limit ==> value(
                #[trigger] self.sum(a, b),
            ) == value(a) + value(b)
        &&& forall|k: int|
            0 <= k < paths.order@.len() ==> path_number(graph, paths, #[trigger] paths.order@[k])
                <= limit && part_in_paths(graph, paths, paths.order@[k]) <= limit
        &&& forall|i: int, k: int, near: u64, far: u64, held: u64|
            #![trigger paths.order@[i], paths.order@[k], self.part(near, far, held)]
            0 <= i < paths.order@.len() && 0 <= k < paths.order@.len() && leads(
                graph,
                paths,
                paths.order@[i],
                paths.order@[k],
            ) && value(near) == path_number(graph, paths, paths.order@[i]) && value(far)
                == path_number(graph, paths, paths.order@[k]) && value(held) == part_in_paths(
                graph,
                paths,
                paths.order@[k],
            ) ==> value(self.part(near, far, held)) == value(near) / value(far) * (1real + value(
                held,
            ))
    }

    /// A sum of values that are numbers of paths.
    proof fn lemma_gathered_exact(
        &self,
        value: spec_fn(u64) -> real,
        limit: real,
        graph: &GraphWorkspace,
        paths: ShortestPaths,
        counts: Map<NodeId, u64>,
        list: Seq<NodeId>,
        count: int,
    )
        requires
            self.is_exact(value, limit, graph, paths),
            0 <= count <= list.len(),
            forall|i: int|
                0 <= i < list.len() ==> value(value_in(counts, #[trigger] list[i])) == path_number(
                    graph,
                    paths,
                    list[i],
                ) && path_number(graph, paths, list[i]) >= 0real,
            sum_of(list, |id: NodeId| path_number(graph, paths, id)) <= limit,
        ensures
            value(self.gathered(counts, list, count)) == sum_of(
                list.take(count),
                |id: NodeId| path_number(graph, paths, id),
            ),
        decreases count,
    {
        let number = |id: NodeId| path_number(graph, paths, id);
        assert forall|i: int| 0 <= i < list.len() implies number(#[trigger] list[i]) >= 0real by {
            assert(value(value_in(counts, list[i])) == path_number(graph, paths, list[i]));
        }
        if count > 0 {
            self.lemma_gathered_exact(value, limit, graph, paths, counts, list, count - 1);
            lemma_sum_take(list, number, count);
            lemma_sum_of_first(list, number, count);
            lemma_sum_of_first(list, number, count - 1);
            assert(value(value_in(counts, list[count - 1])) == number(list[count - 1]));
        }
    }

    /// What is counted is the number of shortest paths.
    proof fn lemma_counts_exact(
        &self,
        value: spec_fn(u64) -> real,
        limit: real,
        graph: &GraphWorkspace,
        source: NodeId,
        paths: ShortestPaths,
        count: int,
    )
        requires
            are_shortest_paths(graph, source, paths),
            self.is_exact(value, limit, graph, paths),
            0 <= count <= paths.order@.len(),
        ensures
            forall|k: int|
                0 <= k < count ==> value(
                    value_in(self.path_counts(paths, count), #[trigger] paths.order@[k]),
                ) == path_number(graph, paths, paths.order@[k]),
        decreases count,
    {
        if count > 0 {
            self.lemma_counts_exact(value, limit, graph, source, paths, count - 1);
            let order = paths.order@;
            let last = count - 1;
            let far = order[last];
            let before = self.path_counts(paths, last);
            let after = self.path_counts(paths, count);
            let list = paths.predecessors@[last]@;
            let by = choose|by: Seq<int>| finds(graph, order, by);
            lemma_path_number(graph, source, paths, last);
            if last > 0 {
                let number = |id: NodeId| path_number(graph, paths, id);
                lemma_nearer_lists(graph, source, paths, last, order.len() as int);
                assert(order.take(order.len() as int) =~= order);
                assert(list == nearer(
                    graph,
                    order,
                    paths.levels@,
                    far,
                    paths.levels@[last],
                    order.len() as int,
                ));
                assert forall|i: int| 0 <= i < list.len() implies value(
                    value_in(before, #[trigger] list[i]),
                ) == path_number(graph, paths, list[i]) && path_number(graph, paths, list[i])
                    >= 0real by {
                    assert(list.contains(list[i]));
                    let j = order.index_of(list[i]);
                    assert(order.contains(list[i]));
                    assert(order[j] == list[i]);
                    lemma_levels_ascend(graph, source, paths, by, j, last);
                    assert(value(value_in(before, order[j])) == path_number(graph, paths, order[j]));
                    lemma_path_number_positive(graph, source, paths, j);
                }
                lemma_sum_sublist(list, order, number);
                lemma_sum_equal(
                    order,
                    where_wanted(|id: NodeId| list.contains(id), number),
                    where_wanted(|near: NodeId| leads(graph, paths, near, far), number),
                );
                assert(path_number(graph, paths, order[last]) <= limit);
                self.lemma_gathered_exact(
                    value,
                    limit,
                    graph,
                    paths,
                    before,
                    list,
                    list.len() as int,
                );
                assert(list.take(list.len() as int) =~= list);
            }
            assert forall|k: int| 0 <= k < count implies value(
                value_in(after, #[trigger] order[k]),
            ) == path_number(graph, paths, order[k]) by {
                if k < last {
                    assert(order[k] != order[last]);
                    assert(value(value_in(before, order[k])) == path_number(graph, paths, order[k]));
                }
            }
        }
    }
}

/// What a node has from the node at each place, where that is not before `place`.
spec fn later_part(
    graph: &GraphWorkspace,
    paths: ShortestPaths,
    near: NodeId,
    place: int,
) -> spec_fn(NodeId) -> real {
    |far: NodeId|
        if paths.order@.index_of(far) >= place {
            step_part(graph, paths, near, far)
        } else {
            0real
        }
}

/// What a node has from the nodes at one place and later.
proof fn lemma_later_parts(
    graph: &GraphWorkspace,
    source: NodeId,
    paths: ShortestPaths,
    i: int,
    place: int,
)
    requires
        are_shortest_paths(graph, source, paths),
        0 <= i < paths.order@.len(),
        0 <= place < paths.order@.len(),
    ensures
        ({
            let order = paths.order@;
            let more = sum_of(order, later_part(graph, paths, order[i], place));
            let fewer = sum_of(order, later_part(graph, paths, order[i], place + 1));
            &&& more == fewer + step_part(graph, paths, order[i], order[place])
            &&& 0real <= fewer <= more <= part_in_paths(graph, paths, order[i])
            &&& step_part(graph, paths, order[i], order[place]) >= 0real
            &&& order[place] == order[i] ==> fewer == part_in_paths(graph, paths, order[i])
        }),
{
    let order = paths.order@;
    let near = order[i];
    let at = |far: NodeId|
        if order.index_of(far) == place {
            step_part(graph, paths, near, far)
        } else {
            0real
        };
    let more = later_part(graph, paths, near, place);
    let fewer = later_part(graph, paths, near, place + 1);
    let early = |far: NodeId|
        if order.index_of(far) < place {
            step_part(graph, paths, near, far)
        } else {
            0real
        };
    let all = |far: NodeId| step_part(graph, paths, near, far);
    let by = choose|by: Seq<int>| finds(graph, order, by);
    assert forall|k: int| 0 <= k < order.len() implies all(#[trigger] order[k]) >= 0real
        && order.index_of(order[k]) == k by {
        lemma_step_part_not_negative(graph, source, paths, i, k);
        lemma_level(graph, source, paths, k);
    }
    lemma_sum_plus(order, fewer, at);
    lemma_sum_equal(order, |far: NodeId| fewer(far) + at(far), more);
    lemma_sum_single(order, place, at);
    lemma_sum_plus(order, early, more);
    lemma_sum_equal(order, |far: NodeId| early(far) + more(far), all);
    assert forall|k: int| 0 <= k < order.len() implies fewer(#[trigger] order[k]) >= 0real
        && early(order[k]) >= 0real by {
        assert(all(order[k]) >= 0real);
    }
    lemma_sum_bounds(order, fewer);
    lemma_sum_bounds(order, early);
    assert(all(order[place]) >= 0real);
    lemma_part_splits(graph, source, paths, i);
    lemma_sum_equal(order, all, |far: NodeId| step_part(graph, paths, order[i], far));
    if order[place] == near {
        assert(order.index_of(order[place]) == place && order.index_of(order[i]) == i);
        assert forall|k: int| 0 <= k < order.len() implies all(#[trigger] order[k]) == fewer(
            order[k],
        ) by {
            assert(order.index_of(order[k]) == k);
            if leads(graph, paths, near, order[k]) {
                lemma_levels_ascend(graph, source, paths, by, i, k);
            }
        }
        lemma_sum_equal(order, all, fewer);
    }
}

impl<
    P: Fn(u64, u64) -> u64,
    S: Fn(u64, u64, u64) -> u64,
    N: Fn(u64, usize, usize) -> u64,
> PathArithmetic<P, S, N> {
    /// One node gives their parts to the nodes before it.
    proof fn lemma_spread_exact(
        &self,
        value: spec_fn(u64) -> real,
        limit: real,
        graph: &GraphWorkspace,
        source: NodeId,
        paths: ShortestPaths,
        held: Map<NodeId, u64>,
        counts: Map<NodeId, u64>,
        place: int,
        list: Seq<NodeId>,
        count: int,
    )
        requires
            are_shortest_paths(graph, source, paths),
            self.is_exact(value, limit, graph, paths),
            0 <= place < paths.order@.len(),
            0 <= count <= list.len(),
            list.no_duplicates(),
            forall|id: NodeId| #[trigger]
                list.contains(id) <==> paths.order@.contains(id) && leads(
                    graph,
                    paths,
                    id,
                    paths.order@[place],
                ),
            forall|k: int|
                0 <= k < paths.order@.len() ==> value(value_in(counts, #[trigger] paths.order@[k]))
                    == path_number(graph, paths, paths.order@[k]),
            forall|i: int|
                0 <= i < paths.order@.len() ==> value(value_in(held, #[trigger] paths.order@[i]))
                    == sum_of(
                    paths.order@,
                    later_part(graph, paths, paths.order@[i], place + 1),
                ),
        ensures
            ({
                let order = paths.order@;
                let after = self.spread(held, counts, order[place], list, count);
                &&& value_in(after, order[place]) == value_in(held, order[place])
                &&& forall|i: int|
                    0 <= i < order.len() ==> value(value_in(after, #[trigger] order[i])) == sum_of(
                        order,
                        later_part(graph, paths, order[i], place + 1),
                    ) + if list.take(count).contains(order[i]) {
                        step_part(graph, paths, order[i], order[place])
                    } else {
                        0real
                    }
            }),
        decreases count,
    {
        let order = paths.order@;
        let far = order[place];
        if count > 0 {
            self.lemma_spread_exact(
                value,
                limit,
                graph,
                source,
                paths,
                held,
                counts,
                place,
                list,
                count - 1,
            );
            let before = self.spread(held, counts, far, list, count - 1);
            let after = self.spread(held, counts, far, list, count);
            let near = list[count - 1];
            assert(list.contains(near));
            assert(order.contains(near) && leads(graph, paths, near, far));
            assert(near != far);
            let n = order.index_of(near);
            assert(order[n] == near);
            assert(list.take(count) =~= list.take(count - 1).push(near));
            assert(!list.take(count - 1).contains(near)) by {
                let few = list.take(count - 1);
                if few.contains(near) {
                    let j = few.index_of(near);
                    assert(list[j] == list[count - 1]);
                }
            }
            lemma_later_parts(graph, source, paths, n, place);
            lemma_later_parts(graph, source, paths, place, place);
            assert(value(value_in(held, order[place])) == part_in_paths(graph, paths, far));
            let a = value_in(counts, near);
            let b = value_in(counts, far);
            let c = value_in(before, far);
            assert(value(a) == path_number(graph, paths, order[n]));
            assert(value(b) == path_number(graph, paths, order[place]));
            let part = self.part(a, b, c);
            assert(value(part) == step_part(graph, paths, near, far));
            assert(part_in_paths(graph, paths, order[n]) <= limit);
            assert(value(value_in(before, order[n])) == sum_of(
                order,
                later_part(graph, paths, near, place + 1),
            ));
            assert forall|i: int| 0 <= i < order.len() implies value(
                value_in(after, #[trigger] order[i]),
            ) == sum_of(order, later_part(graph, paths, order[i], place + 1)) + if list.take(
                count,
            ).contains(order[i]) {
                step_part(graph, paths, order[i], far)
            } else {
                0real
            } by {
                crate::collections::lemma_contains_push(list.take(count - 1), near, order[i]);
                assert(value(value_in(before, order[i])) == sum_of(
                    order,
                    later_part(graph, paths, order[i], place + 1),
                ) + if list.take(count - 1).contains(order[i]) {
                    step_part(graph, paths, order[i], far)
                } else {
                    0real
                });
            }
        } else {
            assert(list.take(0) =~= Seq::<NodeId>::empty());
        }
    }

    /// What the nodes hold after those from a place on have given their parts.
    proof fn lemma_held_exact(
        &self,
        value: spec_fn(u64) -> real,
        limit: real,
        graph: &GraphWorkspace,
        source: NodeId,
        paths: ShortestPaths,
        place: int,
    )
        requires
            are_shortest_paths(graph, source, paths),
            self.is_exact(value, limit, graph, paths),
            0 <= place <= paths.order@.len(),
        ensures
            ({
                let order = paths.order@;
                let counts = self.path_counts(paths, order.len() as int);
                let held = self.held_from(paths, counts, place);
                forall|i: int|
                    0 <= i < order.len() ==> value(value_in(held, #[trigger] order[i])) == sum_of(
                        order,
                        later_part(graph, paths, order[i], place),
                    )
            }),
        decreases paths.order@.len() - place,
    {
        let order = paths.order@;
        let counts = self.path_counts(paths, order.len() as int);
        let held = self.held_from(paths, counts, place);
        if place < order.len() {
            self.lemma_held_exact(value, limit, graph, source, paths, place + 1);
            self.lemma_counts_exact(value, limit, graph, source, paths, order.len() as int);
            let later = self.held_from(paths, counts, place + 1);
            let far = order[place];
            let list = paths.predecessors@[place]@;
            lemma_nearer_lists(graph, source, paths, place, order.len() as int);
            assert(order.take(order.len() as int) =~= order);
            assert(list == nearer(
                graph,
                order,
                paths.levels@,
                far,
                paths.levels@[place],
                order.len() as int,
            ));
            lemma_path_number_positive(graph, source, paths, place);
            assert(value(value_in(counts, order[place])) > 0real);
            assert(spec_f64_less(0, value_in(counts, far)));
            self.lemma_spread_exact(
                value,
                limit,
                graph,
                source,
                paths,
                later,
                counts,
                place,
                list,
                list.len() as int,
            );
            assert(list.take(list.len() as int) =~= list);
            assert forall|i: int| 0 <= i < order.len() implies value(
                value_in(held, #[trigger] order[i]),
            ) == sum_of(order, later_part(graph, paths, order[i], place)) by {
                lemma_later_parts(graph, source, paths, i, place);
                assert(order.contains(order[i]));
                assert(list.contains(order[i]) <==> leads(graph, paths, order[i], far));
            }
        } else {
            assert forall|i: int| 0 <= i < order.len() implies value(
                value_in(held, #[trigger] order[i]),
            ) == sum_of(order, later_part(graph, paths, order[i], place)) by {
                let none = later_part(graph, paths, order[i], place);
                assert forall|k: int| 0 <= k < order.len() implies none(#[trigger] order[k])
                    == 0real by {
                    lemma_level(graph, source, paths, k);
                }
                lemma_sum_equal(order, none, |far: NodeId| 0real);
                lemma_sum_constant(order, 0real);
                assert((order.len() as real) * 0real == 0real) by (nonlinear_arith);
            }
        }
    }

    /// What a node holds for a source is its part in the shortest paths from there: the sum, over all
    /// nodes that the source reaches at any distance, of the fraction of the shortest paths to that
    /// node that lead through this one. The source itself holds nothing.
    pub proof fn law_a_node_holds_its_part_in_the_paths(
        &self,
        value: spec_fn(u64) -> real,
        limit: real,
        graph: &GraphWorkspace,
        source: NodeId,
        paths: ShortestPaths,
        id: NodeId,
    )
        requires
            are_shortest_paths(graph, source, paths),
            self.is_exact(value, limit, graph, paths),
        ensures
            self.dependencies(paths).contains_key(id) <==> id != source && reaches(
                graph.steps(),
                source,
                id,
            ),
            self.dependencies(paths).contains_key(id) ==> value(self.dependencies(paths)[id])
                == part_in_paths(graph, paths, id),
    {
        let order = paths.order@;
        assert(order.contains(id) <==> reaches(graph.steps(), source, id));
        if order.contains(id) {
            let i = order.index_of(id);
            assert(order[i] == id);
            self.lemma_held_exact(value, limit, graph, source, paths, 0);
            let counts = self.path_counts(paths, order.len() as int);
            let held = self.held_from(paths, counts, 0);
            assert(value(value_in(held, order[i])) == sum_of(
                order,
                later_part(graph, paths, order[i], 0),
            ));
            lemma_part_splits(graph, source, paths, i);
            assert forall|k: int| 0 <= k < order.len() implies later_part(
                graph,
                paths,
                id,
                0,
            )(#[trigger] order[k]) == (|far: NodeId| step_part(graph, paths, id, far))(order[k]) by {
                lemma_level(graph, source, paths, k);
            }
            lemma_sum_equal(
                order,
                later_part(graph, paths, id, 0),
                |far: NodeId| step_part(graph, paths, order[i], far),
            );
        }
    }
}

/// Whether the nodes that the source reaches form a single path: one edge leads from each to the
/// next, and no other edge to any of them.
pub open spec fn is_single_path(graph: &GraphWorkspace, paths: ShortestPaths) -> bool {
    let order = paths.order@;
    forall|i: int, k: int|
        0 <= i < order.len() && 0 <= k < order.len() ==> (#[trigger] graph.has(order[i], order[k])
            <==> k == i + 1)
}

/// On a single path the distances count up.
proof fn lemma_single_levels(graph: &GraphWorkspace, source: NodeId, paths: ShortestPaths, k: int)
    requires
        are_shortest_paths(graph, source, paths),
        is_single_path(graph, paths),
        0 <= k < paths.order@.len(),
    ensures
        level_of(paths, paths.order@[k]) == k,
    decreases k,
{
    let j = lemma_has_nearer(graph, source, paths, k);
    if k > 0 {
        lemma_single_levels(graph, source, paths, k - 1);
        assert(graph.has(paths.order@[j], paths.order@[k]));
    }
}

/// On a single path there is one way from a node to each later one.
proof fn lemma_single_ways(
    graph: &GraphWorkspace,
    source: NodeId,
    paths: ShortestPaths,
    i: int,
    k: int,
)
    requires
        are_shortest_paths(graph, source, paths),
        is_single_path(graph, paths),
        0 <= i <= k < paths.order@.len(),
    ensures
        ways(graph, paths.order@, paths.order@[i], paths.order@[k], (k - i) as nat) == 1real,
    decreases k,
{
    let order = paths.order@;
    if i < k {
        let fewer = (k - i - 1) as nat;
        let term = ways_by_last(graph, order, order[i], order[k], fewer);
        lemma_single_ways(graph, source, paths, i, k - 1);
        lemma_ways_last(graph, order, order[i], order[k], fewer);
        assert forall|j: int| 0 <= j < order.len() && j != k - 1 implies term(#[trigger] order[j])
            == 0real by {
            assert(!graph.has(order[j], order[k]));
        }
        assert(graph.has(order[k - 1], order[k]));
        lemma_sum_single(order, k - 1, term);
        assert(fewer + 1 == k - i);
    }
}

/// The terms that are one from a place on add up to the number of places behind it.
proof fn lemma_sum_behind(list: Seq<NodeId>, term: spec_fn(NodeId) -> real, i: int, count: int)
    requires
        0 <= i < list.len(),
        0 <= count <= list.len(),
        forall|k: int|
            0 <= k < list.len() ==> term(#[trigger] list[k]) == if k > i {
                1real
            } else {
                0real
            },
    ensures
        sum_of(list.take(count), term) == if count > i {
            (count - 1 - i) as real
        } else {
            0real
        },
    decreases count,
{
    if count > 0 {
        lemma_sum_behind(list, term, i, count - 1);
        lemma_sum_take(list, term, count);
        assert(term(list[count - 1]) == if count - 1 > i {
            1real
        } else {
            0real
        });
    } else {
        assert(list.take(0) =~= Seq::<NodeId>::empty());
    }
}

/// On a single path a node has one part for every node behind it: the one that stands so many steps
/// before the end holds so many.
pub proof fn law_parts_on_a_single_path(
    graph: &GraphWorkspace,
    source: NodeId,
    paths: ShortestPaths,
    i: int,
)
    requires
        are_shortest_paths(graph, source, paths),
        is_single_path(graph, paths),
        0 <= i < paths.order@.len(),
    ensures
        part_in_paths(graph, paths, paths.order@[i]) == (paths.order@.len() - 1 - i) as real,
{
    let order = paths.order@;
    let term = |target: NodeId| fraction_through(graph, paths, order[i], target);
    lemma_single_levels(graph, source, paths, i);
    lemma_single_ways(graph, source, paths, 0, i);
    assert forall|k: int| 0 <= k < order.len() implies term(#[trigger] order[k]) == if k > i {
        1real
    } else {
        0real
    } by {
        lemma_single_levels(graph, source, paths, k);
        lemma_single_ways(graph, source, paths, 0, k);
        if k > i {
            lemma_single_ways(graph, source, paths, i, k);
            assert(1real * 1real / 1real == 1real) by (nonlinear_arith);
        }
    }
    lemma_sum_behind(order, term, i, order.len() as int);
    assert(order.take(order.len() as int) =~= order);
}

/// What one search contributes to a node; nothing where it does not reach the node.
pub open spec fn part_for(value: spec_fn(u64) -> real, id: NodeId) -> spec_fn(
    Map<NodeId, u64>,
) -> real {
    |parts: Map<NodeId, u64>|
        if parts.contains_key(id) {
            value(parts[id])
        } else {
            0real
        }
}

impl<
    P: Fn(u64, u64) -> u64,
    S: Fn(u64, u64, u64) -> u64,
    N: Fn(u64, usize, usize) -> u64,
> PathArithmetic<P, S, N> {
    /// The value of a node is what all searches contribute to it together, where no sum up to the
    /// limit is rounded.
    pub proof fn law_values_add_up_over_the_searches(
        &self,
        value: spec_fn(u64) -> real,
        limit: real,
        nodes: Set<NodeId>,
        parts: Seq<Map<NodeId, u64>>,
        count: int,
        id: NodeId,
    )
        requires
            value(0) == 0real,
            forall|a: u64, b: u64|
                value(a) >= 0real && value(b) >= 0real && value(a) + value(b) <= limit ==> value(
                    #[trigger] self.sum(a, b),
                ) == value(a) + value(b),
            nodes.contains(id),
            0 <= count <= parts.len(),
            forall|k: int|
                0 <= k < parts.len() && (#[trigger] parts[k]).contains_key(id) ==> value(
                    parts[k][id],
                ) >= 0real,
            sum_of(parts, part_for(value, id)) <= limit,
        ensures
            self.values_after(nodes, parts, count).contains_key(id),
            value(self.values_after(nodes, parts, count)[id]) == sum_of(
                parts.take(count),
                part_for(value, id),
            ),
        decreases count,
    {
        let each = part_for(value, id);
        assert forall|k: int| 0 <= k < parts.len() implies each(#[trigger] parts[k]) >= 0real by {}
        if count > 0 {
            self.law_values_add_up_over_the_searches(value, limit, nodes, parts, count - 1, id);
            lemma_sum_take(parts, each, count);
            lemma_sum_of_first(parts, each, count);
            lemma_sum_of_first(parts, each, count - 1);
            assert(each(parts[count - 1]) >= 0real);
        } else {
            assert(parts.take(0) =~= Seq::<Map<NodeId, u64>>::empty());
        }
    }
}

} // verus!
