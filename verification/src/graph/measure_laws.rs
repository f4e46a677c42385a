//! What the measures of nodes and pairs of nodes count.
use vstd::prelude::*;

use crate::collections::increasing;
use crate::graph::centrality::{is_degree_entry, possible_ends, SubsetDegreeCentrality};
use crate::graph::harmonic::counted_distances;
use crate::graph::pagerank::RankArithmetic;
use crate::graph::similarity::{common, either, is_similarity, neighborhood};
use crate::graph::workspace::{lists, GraphWorkspace};
use crate::node::NodeId;
use crate::number::F64_INFINITY;
use crate::sums::{lemma_sum_of_first, lemma_sum_take, sum_of, where_wanted};

verus! {

/// The nodes that are joined to both of two nodes.
pub open spec fn shared_neighbours(graph: &GraphWorkspace, a: NodeId, b: NodeId) -> Set<NodeId> {
    Set::new(|id: NodeId| graph.joined(a, id) && graph.joined(b, id))
}

/// The nodes that are joined to one of two nodes.
pub open spec fn all_neighbours(graph: &GraphWorkspace, a: NodeId, b: NodeId) -> Set<NodeId> {
    Set::new(|id: NodeId| graph.joined(a, id) || graph.joined(b, id))
}

/// The similarity of two nodes is the number of neighbours that they share over the number of
/// neighbours that either has; so it is at least zero and at most one, and one exactly where they
/// have the same neighbours. Without neighbours it is zero. `ratio` divides the first number by the
/// second.
pub proof fn law_similarity_is_the_shared_part<F: Fn(usize, usize) -> u64>(
    value: spec_fn(u64) -> real,
    ratio: F,
    graph: &GraphWorkspace,
    left: NodeId,
    right: NodeId,
    similarity: u64,
)
    requires
        graph.well_formed(),
        graph.nodes().contains(left),
        graph.nodes().contains(right),
        graph.nodes().len() <= usize::MAX,
        value(0) == 0real,
        forall|c: u64|
            all_neighbours(graph, left, right).len() > 0 && #[trigger] call_ensures(
                ratio,
                (
                    shared_neighbours(graph, left, right).len() as usize,
                    all_neighbours(graph, left, right).len() as usize,
                ),
                c,
            ) ==> value(c) * (all_neighbours(graph, left, right).len() as real)
                == shared_neighbours(graph, left, right).len() as real,
        is_similarity(ratio, graph, left, right, similarity),
    ensures
        ({
            let shared = shared_neighbours(graph, left, right);
            let all = all_neighbours(graph, left, right);
            &&& shared.finite() && all.finite() && shared.len() <= all.len()
            &&& value(similarity) * (all.len() as real) == shared.len() as real
            &&& 0real <= value(similarity) <= 1real
            &&& all.len() > 0 ==> (value(similarity) == 1real <==> shared == all)
            &&& all.len() == 0 ==> value(similarity) == 0real
        }),
{
    let shared = shared_neighbours(graph, left, right);
    let all = all_neighbours(graph, left, right);
    let a = neighborhood(graph, left);
    let b = neighborhood(graph, right);
    assert(lists(graph.undirected@[left]@, |other: NodeId| graph.joined(left, other)));
    assert(lists(graph.undirected@[right]@, |other: NodeId| graph.joined(right, other)));
    assert forall|id: NodeId| #[trigger] a.contains(id) <==> graph.joined(left, id) by {
        assert(graph.undirected@[left]@.contains(id) <==> graph.joined(left, id));
    }
    assert forall|id: NodeId| #[trigger] b.contains(id) <==> graph.joined(right, id) by {
        assert(graph.undirected@[right]@.contains(id) <==> graph.joined(right, id));
    }
    vstd::seq_lib::seq_to_set_is_finite(graph.undirected@[left]@);
    vstd::seq_lib::seq_to_set_is_finite(graph.undirected@[right]@);
    assert(shared =~= a.intersect(b));
    assert(all =~= a.union(b));
    assert(all.subset_of(graph.nodes())) by {
        assert forall|id: NodeId| all.contains(id) implies graph.nodes().contains(id) by {
            if graph.joined(left, id) {
                assert(graph.has(left, id) || graph.has(id, left));
            } else {
                assert(graph.has(right, id) || graph.has(id, right));
            }
        }
    }
    vstd::set_lib::lemma_len_subset(all, graph.nodes());
    vstd::set_lib::lemma_len_subset(shared, all);
    assert(common(graph, left, right) == shared.len());
    assert(either(graph, left, right) == all.len());
    let n = all.len() as real;
    let m = shared.len() as real;
    let v = value(similarity);
    if all.len() > 0 {
        assert(v * n == m);
        assert(0real <= v <= 1real) by (nonlinear_arith)
            requires
                v * n == m,
                0real <= m <= n,
                n >= 1real,
        ;
        if v == 1real {
            assert(1real * n == n) by (nonlinear_arith);
            assert(shared.len() == all.len());
            vstd::set_lib::lemma_subset_equality(shared, all);
        }
        if shared == all {
            assert(v == 1real) by (nonlinear_arith)
                requires
                    v * n == n,
                    n >= 1real,
            ;
        }
    } else {
        assert(0real * n == 0real) by (nonlinear_arith);
    }
}

/// The nodes that a node points to.
pub open spec fn targets_of_node(graph: &GraphWorkspace, id: NodeId) -> Set<NodeId> {
    Set::new(|to: NodeId| graph.has(id, to))
}

/// The nodes that point to a node.
pub open spec fn sources_of_node(graph: &GraphWorkspace, id: NodeId) -> Set<NodeId> {
    Set::new(|from: NodeId| graph.has(from, id))
}

/// The degrees of a node count the nodes that it points to and those that point to it; its
/// centrality is both together over what is possible, where `ratio` divides the first number by the
/// second.
pub proof fn law_degrees_count_the_edges<F: Fn(usize, usize) -> u64>(
    value: spec_fn(u64) -> real,
    graph: &GraphWorkspace,
    ratio: F,
    entry: SubsetDegreeCentrality,
)
    requires
        graph.well_formed(),
        is_degree_entry(graph, ratio, entry),
        2 * graph.nodes().len() <= usize::MAX,
        forall|c: u64|
            graph.nodes().len() > 1 && #[trigger] call_ensures(
                ratio,
                (
                    (targets_of_node(graph, entry.id).len() + sources_of_node(
                        graph,
                        entry.id,
                    ).len()) as usize,
                    (2 * (graph.nodes().len() - 1)) as usize,
                ),
                c,
            ) ==> value(c) * ((2 * (graph.nodes().len() - 1)) as real) == (targets_of_node(
                graph,
                entry.id,
            ).len() + sources_of_node(graph, entry.id).len()) as real,
    ensures
        ({
            let targets = targets_of_node(graph, entry.id);
            let sources = sources_of_node(graph, entry.id);
            let n = graph.nodes().len();
            &&& entry.out_degree == targets.len()
            &&& entry.in_degree == sources.len()
            &&& n > 1 ==> value(entry.normalized) * ((2 * (n - 1)) as real) == (targets.len()
                + sources.len()) as real
        }),
{
    let targets = targets_of_node(graph, entry.id);
    let sources = sources_of_node(graph, entry.id);
    let out = graph.directed@[entry.id]@;
    let into = graph.reverse@[entry.id]@;
    assert(increasing(out));
    assert(lists(into, |from: NodeId| graph.has(from, entry.id)));
    assert(targets =~= out.to_set());
    assert(sources =~= into.to_set()) by {
        assert forall|from: NodeId| sources.contains(from) <==> into.to_set().contains(from) by {
            assert(into.contains(from) <==> graph.has(from, entry.id));
        }
    }
    out.unique_seq_to_set();
    into.unique_seq_to_set();
    let n = graph.nodes().len();
    assert(n > 1 ==> possible_ends(n) == 2 * (n - 1));
}

/// The distances that count for the harmonic centrality of a node: that of every other node that can
/// be reached and is not at no distance, each once, whatever is summed up over them.
pub proof fn law_every_distance_counts_once(
    ids: Seq<NodeId>,
    distances: Map<NodeId, u64>,
    source: NodeId,
    count: int,
    term: spec_fn(u64) -> real,
)
    requires
        0 <= count <= ids.len(),
    ensures
        sum_of(counted_distances(ids, distances, source, count), term) == sum_of(
            ids.take(count),
            where_wanted(
                |id: NodeId| id != source && 0 < distances[id] && distances[id] < F64_INFINITY,
                |id: NodeId| term(distances[id]),
            ),
        ),
    decreases count,
{
    let each = where_wanted(
        |id: NodeId| id != source && 0 < distances[id] && distances[id] < F64_INFINITY,
        |id: NodeId| term(distances[id]),
    );
    if count > 0 {
        law_every_distance_counts_once(ids, distances, source, count - 1, term);
        lemma_sum_take(ids, each, count);
        let before = counted_distances(ids, distances, source, count - 1);
        let all = counted_distances(ids, distances, source, count);
        if all.len() > before.len() {
            assert(all.drop_last() =~= before);
        }
    } else {
        assert(ids.take(0) =~= Seq::<NodeId>::empty());
    }
}

/// How far two numbers are apart.
pub open spec fn apart(a: real, b: real) -> real {
    if a < b {
        b - a
    } else {
        a - b
    }
}

impl<
    E: Fn(usize) -> u64,
    B: Fn(u64, usize) -> u64,
    S: Fn(u64, usize) -> u64,
    P: Fn(u64, u64) -> u64,
    G: Fn(u64, u64) -> u64,
> RankArithmetic<E, B, S, P, G> {
    /// The change of a round is how far the scores of all nodes before and after it are apart,
    /// together, where nothing is rounded.
    pub proof fn law_the_change_is_the_sum_of_differences(
        &self,
        value: spec_fn(u64) -> real,
        limit: real,
        ids: Seq<NodeId>,
        scores: Map<NodeId, u64>,
        next: Map<NodeId, u64>,
        count: int,
    )
        requires
            value(0) == 0real,
            forall|a: u64, b: u64|
                value(a) >= 0real && value(b) >= 0real && value(a) + value(b) <= limit ==> value(
                    #[trigger] self.sum(a, b),
                ) == value(a) + value(b),
            forall|i: int|
                0 <= i < ids.len() ==> value(
                    self.distance(next[#[trigger] ids[i]], scores[ids[i]]),
                ) == apart(value(next[ids[i]]), value(scores[ids[i]])),
            sum_of(ids, |id: NodeId| apart(value(next[id]), value(scores[id]))) <= limit,
            0 <= count <= ids.len(),
        ensures
            value(self.residual(ids, scores, next, count)) == sum_of(
                ids.take(count),
                |id: NodeId| apart(value(next[id]), value(scores[id])),
            ),
        decreases count,
    {
        let each = |id: NodeId| apart(value(next[id]), value(scores[id]));
        assert forall|i: int| 0 <= i < ids.len() implies each(#[trigger] ids[i]) >= 0real by {}
        if count > 0 {
            self.law_the_change_is_the_sum_of_differences(
                value,
                limit,
                ids,
                scores,
                next,
                count - 1,
            );
            lemma_sum_take(ids, each, count);
            lemma_sum_of_first(ids, each, count);
            lemma_sum_of_first(ids, each, count - 1);
            assert(each(ids[count - 1]) >= 0real);
            assert(value(self.distance(next[ids[count - 1]], scores[ids[count - 1]])) == each(
                ids[count - 1],
            ));
        } else {
            assert(ids.take(0) =~= Seq::<NodeId>::empty());
        }
    }
}

} // verus!
