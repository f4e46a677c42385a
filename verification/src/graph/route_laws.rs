//! What routes cost, which of several edges counts, and how anchors are ranked.
use vstd::prelude::*;

use crate::collections::increasing;
use crate::graph::constrained::{
    are_scores, candidate_hits, is_anchor_list, is_ranking, scores,
};
use crate::graph::walk::label_fits;
use crate::graph::weighted::{cost_sum, route_cost, weight_of};
use crate::graph::workspace::{is_workspace, names, GraphWorkspace};
use crate::node::NodeId;
use crate::number::{f32_finite, f32_nan};
use crate::order_laws::{at_least_32, law_hits_descend};
use crate::ranking::{hits_order, HitView};
use crate::sorting::{law_sorted, lemma_sorted_contains, sorted};
use crate::storage::memtable::Table;
use crate::sums::{lemma_sum_of_first, lemma_sum_take, sum_of};
use crate::vector::VectorType;

verus! {

/// The weight of an edge of a graph is the one that it is listed with.
proof fn lemma_weight_of(graph: &GraphWorkspace, from: NodeId, to: NodeId, weight: u32)
    requires
        graph.well_formed(),
        graph.nodes().contains(from),
        graph.weighted@[from]@.contains((to, weight)),
    ensures
        weight_of(graph, from, to) == weight,
{
    let list = graph.weighted@[from]@;
    let targets = graph.directed@[from]@;
    let other = weight_of(graph, from, to);
    assert(list.contains((to, other)));
    let i = list.index_of((to, weight));
    let j = list.index_of((to, other));
    assert(names(list, targets));
    assert(increasing(targets));
    assert(list[i].0 == targets[i] && list[j].0 == targets[j]);
    if i < j {
        assert(targets[i] < targets[j]);
    } else if j < i {
        assert(targets[j] < targets[i]);
    }
}

/// Whether an edge of a route is listed with a weight.
pub open spec fn is_listed_at(
    graph: &GraphWorkspace,
    path: Seq<NodeId>,
    weights: Seq<u32>,
    i: int,
) -> bool {
    graph.nodes().contains(path[i]) && graph.weighted@[path[i]]@.contains((path[i + 1], weights[i]))
}

/// The cost of a route is what the weights of its edges add up to, where no sum up to the limit is
/// rounded; so a route with one more edge costs the weight of that edge more.
pub proof fn law_routes_cost_their_weights<F: Fn(u64, u32) -> u64>(
    value: spec_fn(u64) -> real,
    weigh: spec_fn(u32) -> real,
    limit: real,
    graph: &GraphWorkspace,
    plus: F,
    path: Seq<NodeId>,
    weights: Seq<u32>,
    count: int,
)
    requires
        graph.well_formed(),
        value(0) == 0real,
        forall|cost: u64, weight: u32|
            value(cost) >= 0real && weigh(weight) >= 0real && value(cost) + weigh(weight) <= limit
                ==> value(#[trigger] cost_sum(plus, cost, weight)) == value(cost) + weigh(weight),
        path.len() > 0,
        weights.len() == path.len() - 1,
        forall|i: int| 0 <= i < weights.len() ==> #[trigger] is_listed_at(graph, path, weights, i),
        forall|i: int| 0 <= i < weights.len() ==> weigh(#[trigger] weights[i]) >= 0real,
        sum_of(weights, weigh) <= limit,
        0 <= count <= weights.len(),
    ensures
        value(route_cost(graph, plus, path.take(count + 1))) == sum_of(weights.take(count), weigh),
    decreases count,
{
    let part = path.take(count + 1);
    if count > 0 {
        law_routes_cost_their_weights(
            value,
            weigh,
            limit,
            graph,
            plus,
            path,
            weights,
            count - 1,
        );
        lemma_sum_take(weights, weigh, count);
        lemma_sum_of_first(weights, weigh, count);
        lemma_sum_of_first(weights, weigh, count - 1);
        assert(part.drop_last() =~= path.take(count));
        assert(part[part.len() - 2] == path[count - 1]);
        assert(part.last() == path[count]);
        assert(weigh(weights[count - 1]) >= 0real);
        assert(is_listed_at(graph, path, weights, count - 1));
        lemma_weight_of(graph, path[count - 1], path[count], weights[count - 1]);
    } else {
        assert(weights.take(0) =~= Seq::<u32>::empty());
    }
}

/// Where several edges lead from one node to another, the least weight counts: it is the weight of
/// one of them, and none of them that weighs a number weighs less.
pub proof fn law_the_least_weight_counts<T: VectorType>(
    table: Table<T>,
    nodes: Set<NodeId>,
    label: Option<Seq<char>>,
    workspace: GraphWorkspace,
    from: NodeId,
    i: int,
    k: int,
)
    requires
        is_workspace(table, nodes, label, workspace),
        nodes.contains(from),
        0 <= i < workspace.weighted@[from]@.len(),
    ensures
        ({
            let tie = workspace.weighted@[from]@[i];
            let edges = table.edges_of(from);
            &&& nodes.contains(tie.0)
            &&& exists|n: int|
                0 <= n < edges.len() && (#[trigger] edges[n]).target == tie.0 && edges[n].weight
                    == tie.1 && (label is Some ==> edges[n].label == label->0)
            &&& 0 <= k < edges.len() && edges[k].target == tie.0 && (label is Some
                ==> edges[k].label == label->0) && !f32_nan(edges[k].weight) ==> !f32_nan(tie.1)
                && at_least_32(edges[k].weight, tie.1)
        }),
{
    let tie = workspace.weighted@[from]@[i];
    let edges = table.edges_of(from);
    let targets = workspace.directed@[from]@;
    assert(workspace.nodes().contains(from));
    assert(names(workspace.weighted@[from]@, targets));
    assert(targets[i] == tie.0);
    assert(targets.contains(tie.0));
    assert(workspace.has(from, tie.0));
    assert(crate::graph::workspace::is_least_weight(table, label, from, tie.0, tie.1));
    if 0 <= k < edges.len() && edges[k].target == tie.0 && (label is Some ==> edges[k].label
        == label->0) {
        assert(label_fits(label, edges[k]));
        assert(crate::graph::workspace::has_edge_weight(
            table,
            label,
            from,
            tie.0,
            edges[k].weight,
        ));
        assert(!crate::graph::workspace::lighter(edges[k].weight, tie.1));
    }
}

/// The hits among anchors are the anchors that are nodes and have a finite score.
proof fn lemma_candidates<T: VectorType>(
    table: Table<T>,
    anchors: Seq<NodeId>,
    given: Seq<u32>,
    count: nat,
    hit: HitView,
)
    requires
        count <= anchors.len(),
        given.len() == anchors.len(),
    ensures
        candidate_hits(table, anchors, given, count).contains(hit) <==> table.nodes.contains_key(
            hit.id,
        ) && f32_finite(hit.score) && hit.payload == table.nodes[hit.id].payload && exists|n: int|
            0 <= n < count && (#[trigger] anchors[n]) == hit.id && given[n] == hit.score,
    decreases count,
{
    if count > 0 {
        let fewer = (count - 1) as nat;
        let last = count - 1;
        lemma_candidates(table, anchors, given, fewer, hit);
        let before = candidate_hits(table, anchors, given, fewer);
        let id = anchors[last];
        let own = HitView { id, score: given[last], payload: table.nodes[id].payload };
        crate::collections::lemma_contains_push(before, own, hit);
        if exists|n: int| 0 <= n < fewer && (#[trigger] anchors[n]) == hit.id && given[n]
            == hit.score {
            let n = choose|n: int|
                0 <= n < fewer && (#[trigger] anchors[n]) == hit.id && given[n] == hit.score;
            assert(0 <= n < count && anchors[n] == hit.id && given[n] == hit.score);
        }
        if exists|n: int| 0 <= n < count && (#[trigger] anchors[n]) == hit.id && given[n]
            == hit.score {
            let n = choose|n: int|
                0 <= n < count && (#[trigger] anchors[n]) == hit.id && given[n] == hit.score;
            if n < fewer {
                assert(0 <= n < fewer && anchors[n] == hit.id && given[n] == hit.score);
            }
        }
    }
}

/// A ranking of anchors holds the best of them: at most as many as asked for, each an anchor that is
/// a node, with a finite score that its vector has and the payload that the table holds, the
/// greatest score first. An anchor that is a node and is left out has no finite score, or there was
/// no room for it and no hit scores less.
pub proof fn law_anchors_are_ranked_by_score<T: VectorType, F: Fn(&[T], &Vec<T>) -> u32>(
    table: Table<T>,
    query: &[T],
    anchor_ids: Seq<NodeId>,
    top_k: usize,
    similarity: F,
    hits: Seq<HitView>,
    i: int,
    j: int,
    out: NodeId,
)
    requires
        is_ranking(table, query, anchor_ids, top_k, similarity, hits),
    ensures
        hits.len() <= top_k,
        0 <= i < hits.len() ==> {
            &&& anchor_ids.contains(hits[i].id)
            &&& table.nodes.contains_key(hits[i].id)
            &&& hits[i].payload == table.nodes[hits[i].id].payload
            &&& f32_finite(hits[i].score)
            &&& scores(similarity, query, table.nodes[hits[i].id].vector, hits[i].score)
        },
        0 <= i < j < hits.len() ==> at_least_32(hits[i].score, hits[j].score),
        anchor_ids.contains(out) && table.nodes.contains_key(out) && (forall|n: int|
            0 <= n < hits.len() ==> (#[trigger] hits[n]).id != out) ==> exists|score: u32|
            {
                &&& #[trigger] scores(similarity, query, table.nodes[out].vector, score)
                &&& f32_finite(score) ==> hits.len() == top_k && (0 <= i < hits.len()
                    ==> at_least_32(hits[i].score, score))
            },
{
    let (anchors, given) = choose|anchors: Seq<NodeId>, given: Seq<u32>|
        {
            let ranked = sorted(
                #[trigger] candidate_hits(table, anchors, given, anchors.len()),
                hits_order(),
            );
            &&& is_anchor_list(anchors, anchor_ids)
            &&& are_scores(table, query, similarity, anchors, given)
            &&& hits == if ranked.len() <= top_k {
                ranked
            } else {
                ranked.subrange(0, top_k as int)
            }
        };
    let all = candidate_hits(table, anchors, given, anchors.len());
    let ranked = sorted(all, hits_order());
    law_sorted::<crate::node::SearchHit>(all);
    if 0 <= i < hits.len() {
        assert(hits[i] == ranked[i]);
        assert(ranked.contains(ranked[i]));
        lemma_sorted_contains::<crate::node::SearchHit>(all, ranked[i]);
        lemma_candidates(table, anchors, given, anchors.len(), hits[i]);
        let n = choose|n: int|
            0 <= n < anchors.len() && (#[trigger] anchors[n]) == hits[i].id && given[n]
                == hits[i].score;
        assert(anchors.contains(anchors[n]));
        assert(anchors.to_set().contains(anchors[n]));
        assert(anchor_ids.to_set().contains(hits[i].id));
    }
    if 0 <= i < j < hits.len() {
        assert(hits[j] == ranked[j]);
        law_hits_descend(all, i, j);
    }
    if anchor_ids.contains(out) && table.nodes.contains_key(out) && (forall|n: int|
        0 <= n < hits.len() ==> (#[trigger] hits[n]).id != out) {
        assert(anchor_ids.to_set().contains(out));
        assert(anchors.to_set().contains(out));
        assert(anchors.contains(out));
        let n = anchors.index_of(out);
        let score = given[n];
        assert(scores(similarity, query, table.nodes[anchors[n]].vector, given[n]));
        if f32_finite(score) {
            let hit = HitView { id: out, score, payload: table.nodes[out].payload };
            assert(anchors[n] == hit.id && given[n] == hit.score);
            lemma_candidates(table, anchors, given, anchors.len(), hit);
            lemma_sorted_contains::<crate::node::SearchHit>(all, hit);
            assert(ranked.contains(hit));
            let k = ranked.index_of(hit);
            assert(ranked[k].id == out);
            if k < hits.len() {
                assert(hits[k] == ranked[k]);
            }
            assert(k >= hits.len());
            if 0 <= i < hits.len() {
                law_hits_descend(all, i, k);
            }
        }
    }
}

} // verus!
