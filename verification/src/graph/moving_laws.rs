//! What a node weighs when it moves between communities, and which community it chooses.
use vstd::prelude::*;

use crate::collections::increasing;
use crate::graph::leiden::WeightedGraph;
use crate::graph::moving::{community_of, value_or_zero, MoveArithmetic, Partition};
use crate::node::NodeId;
use crate::sums::{
    lemma_sum_bounds, lemma_sum_equal, lemma_sum_of_first, lemma_sum_plus, lemma_sum_single,
    lemma_sum_take, sum_of, where_wanted,
};

verus! {

/// The weight of a tie.
pub open spec fn tie_weight(value: spec_fn(u64) -> real) -> spec_fn((NodeId, u64)) -> real {
    |tie: (NodeId, u64)| value(tie.1)
}

/// What the ties of a node weigh together.
pub open spec fn node_weight(
    value: spec_fn(u64) -> real,
    graph: &WeightedGraph,
) -> spec_fn(NodeId) -> real {
    |id: NodeId| sum_of(graph.ties@[id]@, tie_weight(value))
}

/// What the ties of a node into a community weigh together.
pub open spec fn weight_into(
    value: spec_fn(u64) -> real,
    ties: Seq<(NodeId, u64)>,
    communities: Map<NodeId, NodeId>,
    community: NodeId,
) -> real {
    sum_of(
        ties,
        where_wanted(
            |tie: (NodeId, u64)| community_of(communities, tie.0) == community,
            tie_weight(value),
        ),
    )
}

/// What each node of a community weighs, leaving one node out.
pub open spec fn others_in(
    value: spec_fn(u64) -> real,
    graph: &WeightedGraph,
    communities: Map<NodeId, NodeId>,
    community: NodeId,
    id: NodeId,
) -> spec_fn(NodeId) -> real {
    where_wanted(
        |other: NodeId| other != id && community_of(communities, other) == community,
        node_weight(value, graph),
    )
}

/// What each node of a community weighs.
pub open spec fn members_of(
    value: spec_fn(u64) -> real,
    graph: &WeightedGraph,
    communities: Map<NodeId, NodeId>,
    community: NodeId,
) -> spec_fn(NodeId) -> real {
    where_wanted(
        |other: NodeId| community_of(communities, other) == community,
        node_weight(value, graph),
    )
}

/// What the nodes of a community weigh together, leaving one node out.
pub open spec fn weight_without(
    value: spec_fn(u64) -> real,
    graph: &WeightedGraph,
    ids: Seq<NodeId>,
    communities: Map<NodeId, NodeId>,
    community: NodeId,
    id: NodeId,
) -> real {
    sum_of(ids, others_in(value, graph, communities, community, id))
}

/// What the nodes of a community weigh together.
pub open spec fn community_weight(
    value: spec_fn(u64) -> real,
    graph: &WeightedGraph,
    ids: Seq<NodeId>,
    communities: Map<NodeId, NodeId>,
    community: NodeId,
) -> real {
    sum_of(ids, members_of(value, graph, communities, community))
}

/// Whether the totals of a partition are what the nodes of each community weigh together.
pub open spec fn is_weighed(
    value: spec_fn(u64) -> real,
    graph: &WeightedGraph,
    ids: Seq<NodeId>,
    partition: Partition,
) -> bool {
    forall|community: NodeId|
        value(#[trigger] value_or_zero(partition.totals, community)) == community_weight(
            value,
            graph,
            ids,
            partition.communities,
            community,
        )
}

/// A community's weight with and without one node.
proof fn lemma_weight_without(
    value: spec_fn(u64) -> real,
    graph: &WeightedGraph,
    ids: Seq<NodeId>,
    communities: Map<NodeId, NodeId>,
    community: NodeId,
    place: int,
)
    requires
        increasing(ids),
        0 <= place < ids.len(),
    ensures
        community_weight(value, graph, ids, communities, community) == weight_without(
            value,
            graph,
            ids,
            communities,
            community,
            ids[place],
        ) + if community_of(communities, ids[place]) == community {
            node_weight(value, graph)(ids[place])
        } else {
            0real
        },
{
    let id = ids[place];
    let weight = node_weight(value, graph);
    let all = members_of(value, graph, communities, community);
    let others = others_in(value, graph, communities, community, id);
    let own = where_wanted(
        |other: NodeId| other == id && community_of(communities, other) == community,
        weight,
    );
    lemma_sum_plus(ids, others, own);
    lemma_sum_equal(ids, |other: NodeId| others(other) + own(other), all);
    assert forall|i: int| 0 <= i < ids.len() && i != place implies own(#[trigger] ids[i])
        == 0real by {
        if i < place {
            assert(ids[i] < ids[place]);
        } else {
            assert(ids[place] < ids[i]);
        }
    }
    lemma_sum_single(ids, place, own);
}

impl<
    P: Fn(u64, u64) -> u64,
    M: Fn(u64, u64) -> u64,
    G: Fn(u64, u64, u64, u64) -> u64,
    B: Fn(u64, u64, bool) -> bool,
    N: Fn(u64) -> bool,
> MoveArithmetic<P, M, G, B, N> {
    /// Whether sums up to a limit and differences of what is not negative are not rounded, when the
    /// bit patterns are read as `value` says.
    pub open spec fn adds_exactly(&self, value: spec_fn(u64) -> real, limit: real) -> bool {
        &&& value(0) == 0real
        &&& forall|a: u64, b: u64|
            value(a) >= 0real && value(b) >= 0real && value(a) + value(b) <= limit ==> value(
                #[trigger] self.sum(a, b),
            ) == value(a) + value(b)
        &&& forall|a: u64, b: u64|
            value(a) >= value(b) && value(b) >= 0real && value(a) <= limit ==> value(
                #[trigger] self.difference(a, b),
            ) == value(a) - value(b)
    }

    /// Whether no tie of a graph weighs less than nothing, and all nodes together no more than the
    /// limit.
    pub open spec fn weighs_within(
        &self,
        value: spec_fn(u64) -> real,
        limit: real,
        graph: &WeightedGraph,
        ids: Seq<NodeId>,
    ) -> bool {
        &&& forall|i: int, k: int|
            0 <= i < ids.len() && 0 <= k < graph.ties@[#[trigger] ids[i]]@.len() ==> value(
                (#[trigger] graph.ties@[ids[i]]@[k]).1,
            ) >= 0real
        &&& sum_of(ids, node_weight(value, graph)) <= limit
    }

    /// The degree of a node is what its ties weigh together.
    proof fn lemma_degree_exact(
        &self,
        value: spec_fn(u64) -> real,
        limit: real,
        ties: Seq<(NodeId, u64)>,
        count: int,
    )
        requires
            self.adds_exactly(value, limit),
            0 <= count <= ties.len(),
            forall|k: int| 0 <= k < ties.len() ==> value((#[trigger] ties[k]).1) >= 0real,
            sum_of(ties, tie_weight(value)) <= limit,
        ensures
            value(self.degree(ties.take(count))) == sum_of(ties.take(count), tie_weight(value)),
        decreases count,
    {
        let each = tie_weight(value);
        assert forall|k: int| 0 <= k < ties.len() implies each(#[trigger] ties[k]) >= 0real by {
            assert(value(ties[k].1) >= 0real);
        }
        if count > 0 {
            self.lemma_degree_exact(value, limit, ties, count - 1);
            lemma_sum_take(ties, each, count);
            lemma_sum_of_first(ties, each, count);
            lemma_sum_of_first(ties, each, count - 1);
            assert(ties.take(count).drop_last() =~= ties.take(count - 1));
            assert(ties.take(count).last() == ties[count - 1]);
            assert(each(ties[count - 1]) >= 0real);
        } else {
            assert(ties.take(0) =~= Seq::<(NodeId, u64)>::empty());
        }
    }

    /// The weights by community are what the ties into each weigh together.
    proof fn lemma_inside_exact(
        &self,
        value: spec_fn(u64) -> real,
        limit: real,
        communities: Map<NodeId, NodeId>,
        ties: Seq<(NodeId, u64)>,
        count: int,
        community: NodeId,
    )
        requires
            self.adds_exactly(value, limit),
            0 <= count <= ties.len(),
            forall|k: int| 0 <= k < ties.len() ==> value((#[trigger] ties[k]).1) >= 0real,
            sum_of(ties, tie_weight(value)) <= limit,
        ensures
            value(value_or_zero(self.inside(communities, ties.take(count)), community))
                == weight_into(value, ties.take(count), communities, community),
            self.inside(communities, ties.take(count)).contains_key(community) <==> exists|k: int|
                0 <= k < count && community_of(communities, (#[trigger] ties[k]).0) == community,
            0real <= weight_into(value, ties.take(count), communities, community) <= limit,
        decreases count,
    {
        let all = tie_weight(value);
        let each = where_wanted(
            |tie: (NodeId, u64)| community_of(communities, tie.0) == community,
            all,
        );
        let others = where_wanted(
            |tie: (NodeId, u64)| community_of(communities, tie.0) != community,
            all,
        );
        assert forall|k: int| 0 <= k < ties.len() implies each(#[trigger] ties[k]) >= 0real
            && others(ties[k]) >= 0real by {
            assert(value(ties[k].1) >= 0real);
        }
        lemma_sum_plus(ties, each, others);
        lemma_sum_equal(ties, |tie: (NodeId, u64)| each(tie) + others(tie), all);
        lemma_sum_bounds(ties, others);
        lemma_sum_of_first(ties, each, count);
        if count > 0 {
            self.lemma_inside_exact(value, limit, communities, ties, count - 1, community);
            lemma_sum_take(ties, each, count);
            lemma_sum_of_first(ties, each, count - 1);
            assert(ties.take(count).drop_last() =~= ties.take(count - 1));
            assert(ties.take(count).last() == ties[count - 1]);
            assert(value(ties[count - 1].1) >= 0real);
            if exists|k: int|
                0 <= k < count - 1 && community_of(communities, (#[trigger] ties[k]).0)
                    == community {
                let k = choose|k: int|
                    0 <= k < count - 1 && community_of(communities, (#[trigger] ties[k]).0)
                        == community;
                assert(0 <= k < count && community_of(communities, ties[k].0) == community);
            }
            if exists|k: int|
                0 <= k < count && community_of(communities, (#[trigger] ties[k]).0) == community {
                let k = choose|k: int|
                    0 <= k < count && community_of(communities, (#[trigger] ties[k]).0)
                        == community;
                if k < count - 1 {
                    assert(0 <= k < count - 1 && community_of(communities, ties[k].0)
                        == community);
                }
            }
            if community_of(communities, ties[count - 1].0) == community {
                let k = count - 1;
                assert(0 <= k < count && community_of(communities, ties[k].0) == community);
            }
        } else {
            assert(ties.take(0) =~= Seq::<(NodeId, u64)>::empty());
        }
    }

    /// What a node and a community weigh, as far as the limit allows.
    proof fn lemma_weights_within(
        &self,
        value: spec_fn(u64) -> real,
        limit: real,
        graph: &WeightedGraph,
        ids: Seq<NodeId>,
        communities: Map<NodeId, NodeId>,
        community: NodeId,
        place: int,
    )
        requires
            self.weighs_within(value, limit, graph, ids),
            increasing(ids),
            0 <= place < ids.len(),
        ensures
            forall|k: int|
                0 <= k < graph.ties@[ids[place]]@.len() ==> value(
                    (#[trigger] graph.ties@[ids[place]]@[k]).1,
                ) >= 0real,
            0real <= node_weight(value, graph)(ids[place]) <= limit,
            0real <= weight_without(value, graph, ids, communities, community, ids[place]),
            weight_without(value, graph, ids, communities, community, ids[place]) + node_weight(
                value,
                graph,
            )(ids[place]) <= limit,
            0real <= community_weight(value, graph, ids, communities, community) <= limit,
    {
        let id = ids[place];
        let weight = node_weight(value, graph);
        assert forall|i: int| 0 <= i < ids.len() implies weight(#[trigger] ids[i]) >= 0real by {
            let ties = graph.ties@[ids[i]]@;
            assert forall|k: int| 0 <= k < ties.len() implies tie_weight(value)(#[trigger] ties[k])
                >= 0real by {
                assert(value(graph.ties@[ids[i]]@[k].1) >= 0real);
            }
            lemma_sum_bounds(ties, tie_weight(value));
        }
        lemma_sum_bounds(ids, weight);
        assert(weight(ids[place]) >= 0real);
        let others = others_in(value, graph, communities, community, id);
        let left = where_wanted(
            |other: NodeId| other != id && community_of(communities, other) != community,
            weight,
        );
        let own = where_wanted(|other: NodeId| other == id, weight);
        assert forall|i: int| 0 <= i < ids.len() implies others(#[trigger] ids[i]) >= 0real
            && left(ids[i]) >= 0real by {
            assert(weight(ids[i]) >= 0real);
        }
        lemma_sum_bounds(ids, others);
        lemma_sum_bounds(ids, left);
        let most = |other: NodeId| others(other) + left(other);
        lemma_sum_plus(ids, others, left);
        lemma_sum_plus(ids, most, own);
        lemma_sum_equal(ids, |other: NodeId| most(other) + own(other), weight);
        lemma_sum_equal(ids, |other: NodeId| others(other) + left(other), most);
        assert forall|i: int| 0 <= i < ids.len() && i != place implies own(#[trigger] ids[i])
            == 0real by {
            if i < place {
                assert(ids[i] < ids[place]);
            } else {
                assert(ids[place] < ids[i]);
            }
        }
        lemma_sum_single(ids, place, own);
        lemma_weight_without(value, graph, ids, communities, community, place);
    }

    /// A node that moves takes its weight from the community that it leaves to the one that it
    /// joins: where the totals were what the nodes of each community weigh together before the
    /// move, they are after it. No other node changes its community.
    pub proof fn law_moves_keep_the_weights(
        &self,
        value: spec_fn(u64) -> real,
        limit: real,
        graph: &WeightedGraph,
        all: u64,
        ids: Seq<NodeId>,
        place: int,
        candidates: Seq<NodeId>,
        before: Partition,
        after: Partition,
    )
        requires
            self.adds_exactly(value, limit),
            self.weighs_within(value, limit, graph, ids),
            increasing(ids),
            0 <= place < ids.len(),
            is_weighed(value, graph, ids, before),
            self.joins_best(graph, all, ids[place], candidates, before, after),
        ensures
            is_weighed(value, graph, ids, after),
            forall|other: NodeId|
                other != ids[place] ==> #[trigger] community_of(after.communities, other)
                    == community_of(before.communities, other),
    {
        let id = ids[place];
        let ties = graph.ties@[id]@;
        let degree = self.degree(ties);
        let current = community_of(before.communities, id);
        let chosen = community_of(after.communities, id);
        assert forall|other: NodeId| other != id implies #[trigger] community_of(
            after.communities,
            other,
        ) == community_of(before.communities, other) by {}
        self.lemma_weights_within(value, limit, graph, ids, before.communities, current, place);
        self.lemma_degree_exact(value, limit, ties, ties.len() as int);
        assert(ties.take(ties.len() as int) =~= ties);
        assert(value(degree) == node_weight(value, graph)(id));
        let left = before.totals.insert(
            current,
            self.difference(value_or_zero(before.totals, current), degree),
        );
        assert forall|community: NodeId|
            value(#[trigger] value_or_zero(after.totals, community)) == community_weight(
                value,
                graph,
                ids,
                after.communities,
                community,
            ) by {
            self.lemma_weights_within(value, limit, graph, ids, before.communities, community, place);
            lemma_weight_without(value, graph, ids, before.communities, community, place);
            lemma_weight_without(value, graph, ids, after.communities, community, place);
            assert(value(value_or_zero(before.totals, community)) == community_weight(
                value,
                graph,
                ids,
                before.communities,
                community,
            ));
            lemma_weight_without(value, graph, ids, before.communities, current, place);
            assert(value(value_or_zero(before.totals, current)) == community_weight(
                value,
                graph,
                ids,
                before.communities,
                current,
            ));
            lemma_sum_equal(
                ids,
                others_in(value, graph, before.communities, community, id),
                others_in(value, graph, after.communities, community, id),
            );
            assert(value(value_or_zero(left, community)) == weight_without(
                value,
                graph,
                ids,
                before.communities,
                community,
                id,
            ));
            if community == chosen {
                assert(value_or_zero(after.totals, community) == self.sum(
                    value_or_zero(left, chosen),
                    degree,
                ));
            } else {
                assert(value_or_zero(after.totals, community) == value_or_zero(left, community));
            }
        }
    }

    /// The best of some communities is none worse than another.
    proof fn lemma_best(
        &self,
        value: spec_fn(u64) -> real,
        weights: Map<NodeId, u64>,
        totals: Map<NodeId, u64>,
        degree: u64,
        all: u64,
        candidates: Seq<NodeId>,
        start: (NodeId, u64),
    )
        requires
            self.chooses_exactly(value),
        ensures
            ({
                let best = self.best(weights, totals, degree, all, candidates, start);
                &&& best == start || (candidates.contains(best.0) && best.1 == self.gained(
                    weights[best.0],
                    degree,
                    value_or_zero(totals, best.0),
                    all,
                ))
                &&& value(start.1) < value(best.1) || (value(start.1) == value(best.1) && best.0
                    <= start.0)
                &&& forall|k: int|
                    0 <= k < candidates.len() ==> {
                        let gain = self.gained(
                            weights[#[trigger] candidates[k]],
                            degree,
                            value_or_zero(totals, candidates[k]),
                            all,
                        );
                        value(gain) < value(best.1) || (value(gain) == value(best.1) && best.0
                            <= candidates[k])
                    }
            }),
        decreases candidates.len(),
    {
        if candidates.len() > 0 {
            let few = candidates.drop_last();
            self.lemma_best(value, weights, totals, degree, all, few, start);
            let before = self.best(weights, totals, degree, all, few, start);
            let best = self.best(weights, totals, degree, all, candidates, start);
            let last = candidates[candidates.len() - 1];
            assert(candidates.last() == last);
            assert(candidates.contains(last));
            if few.contains(before.0) {
                let n = few.index_of(before.0);
                assert(candidates[n] == before.0);
                assert(candidates.contains(before.0));
            }
            assert forall|k: int| 0 <= k < candidates.len() implies ({
                let gain = self.gained(
                    weights[#[trigger] candidates[k]],
                    degree,
                    value_or_zero(totals, candidates[k]),
                    all,
                );
                value(gain) < value(best.1) || (value(gain) == value(best.1) && best.0
                    <= candidates[k])
            }) by {
                if k < few.len() {
                    assert(few[k] == candidates[k]);
                }
            }
        }
    }

    /// Whether the better of two gains is the greater, and of two that are equal the one of the
    /// smaller community.
    pub open spec fn chooses_exactly(&self, value: spec_fn(u64) -> real) -> bool {
        forall|a: u64, b: u64, smaller: bool| #[trigger]
            self.beats(a, b, smaller) <==> value(a) > value(b) || (value(a) == value(b) && smaller)
    }

    /// The community that a node moves to is the best for it. What a community is worth to a node
    /// depends on what the node's ties into it weigh and what its other nodes weigh; of its own
    /// community and those of its ties, the node chooses the one worth most, and the smallest of
    /// several such.
    pub proof fn law_the_best_community_is_chosen(
        &self,
        value: spec_fn(u64) -> real,
        limit: real,
        worth: spec_fn(real, real) -> real,
        graph: &WeightedGraph,
        all: u64,
        ids: Seq<NodeId>,
        place: int,
        candidates: Seq<NodeId>,
        before: Partition,
        after: Partition,
        rival: NodeId,
    )
        requires
            self.adds_exactly(value, limit),
            self.weighs_within(value, limit, graph, ids),
            self.chooses_exactly(value),
            increasing(ids),
            0 <= place < ids.len(),
            is_weighed(value, graph, ids, before),
            self.joins_best(graph, all, ids[place], candidates, before, after),
            forall|inside: u64, total: u64|
                value(
                    #[trigger] self.gained(
                        inside,
                        self.degree(graph.ties@[ids[place]]@),
                        total,
                        all,
                    ),
                ) == worth(value(inside), value(total)),
            rival == community_of(before.communities, ids[place]) || exists|k: int|
                0 <= k < graph.ties@[ids[place]]@.len() && community_of(
                    before.communities,
                    (#[trigger] graph.ties@[ids[place]]@[k]).0,
                ) == rival,
        ensures
            ({
                let id = ids[place];
                let ties = graph.ties@[id]@;
                let old_one = before.communities;
                let chosen = community_of(after.communities, id);
                let own = worth(
                    weight_into(value, ties, old_one, chosen),
                    weight_without(value, graph, ids, old_one, chosen, id),
                );
                let others = worth(
                    weight_into(value, ties, old_one, rival),
                    weight_without(value, graph, ids, old_one, rival, id),
                );
                others < own || (others == own && chosen <= rival)
            }),
            community_of(after.communities, ids[place]) == community_of(
                before.communities,
                ids[place],
            ) || exists|k: int|
                0 <= k < graph.ties@[ids[place]]@.len() && community_of(
                    before.communities,
                    (#[trigger] graph.ties@[ids[place]]@[k]).0,
                ) == community_of(after.communities, ids[place]),
    {
        let id = ids[place];
        let ties = graph.ties@[id]@;
        let degree = self.degree(ties);
        let current = community_of(before.communities, id);
        let chosen = community_of(after.communities, id);
        let weights = self.inside(before.communities, ties);
        let left = before.totals.insert(
            current,
            self.difference(value_or_zero(before.totals, current), degree),
        );
        let start = (
            current,
            self.gained(value_or_zero(weights, current), degree, left[current], all),
        );
        assert(ties.take(ties.len() as int) =~= ties);
        self.lemma_weights_within(value, limit, graph, ids, before.communities, current, place);
        self.lemma_degree_exact(value, limit, ties, ties.len() as int);
        lemma_weight_without(value, graph, ids, before.communities, current, place);
        assert(value(value_or_zero(before.totals, current)) == community_weight(
            value,
            graph,
            ids,
            before.communities,
            current,
        ));
        self.lemma_best(value, weights, left, degree, all, candidates, start);
        let best = self.best(weights, left, degree, all, candidates, start);
        assert(best.0 == chosen);
        assert forall|community: NodeId|
            value(#[trigger] value_or_zero(left, community)) == weight_without(
                value,
                graph,
                ids,
                before.communities,
                community,
                id,
            ) by {
            lemma_weight_without(value, graph, ids, before.communities, community, place);
            assert(value(value_or_zero(before.totals, community)) == community_weight(
                value,
                graph,
                ids,
                before.communities,
                community,
            ));
        }
        assert forall|community: NodeId|
            value(#[trigger] value_or_zero(weights, community)) == weight_into(
                value,
                ties,
                before.communities,
                community,
            ) && (weights.contains_key(community) <==> exists|k: int|
                0 <= k < ties.len() && community_of(before.communities, (#[trigger] ties[k]).0)
                    == community) by {
            self.lemma_inside_exact(
                value,
                limit,
                before.communities,
                ties,
                ties.len() as int,
                community,
            );
        }
        assert(value(value_or_zero(left, chosen)) == weight_without(
            value,
            graph,
            ids,
            before.communities,
            chosen,
            id,
        ));
        assert(value(value_or_zero(left, rival)) == weight_without(
            value,
            graph,
            ids,
            before.communities,
            rival,
            id,
        ));
        assert(value(value_or_zero(weights, chosen)) == weight_into(
            value,
            ties,
            before.communities,
            chosen,
        ));
        assert(value(value_or_zero(weights, rival)) == weight_into(
            value,
            ties,
            before.communities,
            rival,
        ));
        if candidates.contains(chosen) {
            assert(candidates.to_set().contains(chosen));
            assert(weights.contains_key(chosen));
        }
        if rival != current {
            assert(weights.contains_key(rival));
            assert(candidates.to_set().contains(rival));
            assert(candidates.contains(rival));
            let k = candidates.index_of(rival);
            assert(candidates[k] == rival);
        }
    }
}

} // verus!
