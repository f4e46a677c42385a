//! What ties and votes weigh in label propagation.
use vstd::prelude::*;

use crate::graph::labels::VoteArithmetic;
use crate::node::{EdgeView, NodeId};
use crate::number::{f32_finite, f32_positive, f64_total_key};
use crate::storage::memtable::Table;
use crate::sums::{
    lemma_sum_bounds, lemma_sum_equal, lemma_sum_of_first, lemma_sum_plus, lemma_sum_take, sum_of,
    where_wanted,
};
use crate::vector::VectorType;

verus! {

/// What an edge adds to the tie with a node: its weight, where it leads there, carries the label
/// that is asked for, if any, and weighs a positive number.
pub open spec fn edge_pull(
    weigh: spec_fn(u32) -> real,
    label: Option<Seq<char>>,
    to: NodeId,
) -> spec_fn(EdgeView) -> real {
    where_wanted(
        |edge: EdgeView|
            {
                &&& edge.target == to
                &&& (label is Some ==> edge.label == label->0)
                &&& f32_positive(edge.weight)
                &&& f32_finite(edge.weight)
            },
        |edge: EdgeView| weigh(edge.weight),
    )
}

/// What the ties to the nodes with a label weigh.
pub open spec fn tie_votes(
    value: spec_fn(u64) -> real,
    labels: Map<NodeId, NodeId>,
    label: NodeId,
) -> spec_fn((NodeId, u64)) -> real {
    where_wanted(|tie: (NodeId, u64)| labels[tie.0] == label, |tie: (NodeId, u64)| value(tie.1))
}

/// Whether a reading of the bit patterns keeps the order of the numbers that are not negative.
pub open spec fn keeps_order(value: spec_fn(u64) -> real) -> bool {
    forall|a: u64, b: u64|
        #![trigger f64_total_key(a), f64_total_key(b)]
        value(a) >= 0real && value(b) >= 0real ==> (f64_total_key(a) <= f64_total_key(b) <==> value(
            a,
        ) <= value(b))
}

/// The value of an optional number, zero where there is none.
pub open spec fn value_or_zero(value: spec_fn(u64) -> real, number: Option<u64>) -> real {
    match number {
        Some(bits) => value(bits),
        None => 0real,
    }
}

impl<A: Fn(u64, u32) -> u64, P: Fn(u64, u64) -> u64> VoteArithmetic<A, P> {
    /// Whether sums up to a limit are not rounded, when the bit patterns are read as `value` and
    /// `weigh` say.
    pub open spec fn adds_exactly(
        &self,
        value: spec_fn(u64) -> real,
        weigh: spec_fn(u32) -> real,
        limit: real,
    ) -> bool {
        &&& value(0) == 0real
        &&& forall|weight: u32| #[trigger] f32_positive(weight) ==> weigh(weight) > 0real
        &&& forall|a: u64, weight: u32|
            value(a) >= 0real && weigh(weight) >= 0real && value(a) + weigh(weight) <= limit
                ==> value(#[trigger] self.heavier(a, weight)) == value(a) + weigh(weight)
        &&& forall|a: u64, b: u64|
            value(a) >= 0real && value(b) >= 0real && value(a) + value(b) <= limit ==> value(
                #[trigger] self.sum(a, b),
            ) == value(a) + value(b)
    }

    /// The weight of the first edges from one node to another.
    proof fn lemma_pull_exact<T: VectorType>(
        &self,
        value: spec_fn(u64) -> real,
        weigh: spec_fn(u32) -> real,
        limit: real,
        table: Table<T>,
        label: Option<Seq<char>>,
        from: NodeId,
        to: NodeId,
        count: int,
    )
        requires
            self.adds_exactly(value, weigh, limit),
            0 <= count <= table.edges_of(from).len(),
            sum_of(table.edges_of(from), edge_pull(weigh, label, to)) <= limit,
        ensures
            value_or_zero(value, self.pull_from(table, label, from, to, count)) == sum_of(
                table.edges_of(from).take(count),
                edge_pull(weigh, label, to),
            ),
            self.pull_from(table, label, from, to, count) is Some <==> sum_of(
                table.edges_of(from).take(count),
                edge_pull(weigh, label, to),
            ) > 0real,
        decreases count,
    {
        let edges = table.edges_of(from);
        let each = edge_pull(weigh, label, to);
        assert forall|i: int| 0 <= i < edges.len() implies each(#[trigger] edges[i]) >= 0real by {}
        lemma_sum_of_first(edges, each, count);
        if count > 0 {
            self.lemma_pull_exact(value, weigh, limit, table, label, from, to, count - 1);
            lemma_sum_take(edges, each, count);
            lemma_sum_of_first(edges, each, count - 1);
        } else {
            assert(edges.take(0) =~= Seq::<EdgeView>::empty());
        }
    }

    /// Two nodes are tied by the weights of the edges between them, in both directions, that carry
    /// the label and weigh a positive number; so their tie is the same seen from either. They are
    /// tied exactly where there is such an edge.
    pub proof fn law_ties_weigh_the_edges_between<T: VectorType>(
        &self,
        value: spec_fn(u64) -> real,
        weigh: spec_fn(u32) -> real,
        limit: real,
        table: Table<T>,
        label: Option<Seq<char>>,
        a: NodeId,
        b: NodeId,
    )
        requires
            self.adds_exactly(value, weigh, limit),
            sum_of(table.edges_of(a), edge_pull(weigh, label, b)) + sum_of(
                table.edges_of(b),
                edge_pull(weigh, label, a),
            ) <= limit,
        ensures
            ({
                let there = sum_of(table.edges_of(a), edge_pull(weigh, label, b));
                let back = sum_of(table.edges_of(b), edge_pull(weigh, label, a));
                &&& there >= 0real && back >= 0real
                &&& value_or_zero(value, self.tie(table, label, a, b)) == there + back
                &&& self.tie(table, label, a, b) is Some <==> there + back > 0real
                &&& value_or_zero(value, self.tie(table, label, b, a)) == there + back
            }),
    {
        let there = edge_pull(weigh, label, b);
        let back = edge_pull(weigh, label, a);
        let from_a = table.edges_of(a);
        let from_b = table.edges_of(b);
        assert forall|i: int| 0 <= i < from_a.len() implies there(#[trigger] from_a[i])
            >= 0real by {}
        assert forall|i: int| 0 <= i < from_b.len() implies back(#[trigger] from_b[i])
            >= 0real by {}
        lemma_sum_bounds(from_a, there);
        lemma_sum_bounds(from_b, back);
        self.lemma_pull_exact(value, weigh, limit, table, label, a, b, from_a.len() as int);
        self.lemma_pull_exact(value, weigh, limit, table, label, b, a, from_b.len() as int);
        assert(from_a.take(from_a.len() as int) =~= from_a);
        assert(from_b.take(from_b.len() as int) =~= from_b);
    }

    /// The votes for a label among the first ties.
    proof fn lemma_votes_exact(
        &self,
        value: spec_fn(u64) -> real,
        weigh: spec_fn(u32) -> real,
        limit: real,
        list: Seq<(NodeId, u64)>,
        labels: Map<NodeId, NodeId>,
        label: NodeId,
        count: int,
    )
        requires
            self.adds_exactly(value, weigh, limit),
            0 <= count <= list.len(),
            forall|i: int| 0 <= i < list.len() ==> value((#[trigger] list[i]).1) >= 0real,
            sum_of(list, |tie: (NodeId, u64)| value(tie.1)) <= limit,
        ensures
            value_or_zero(value, self.votes(list, labels, label, count)) == sum_of(
                list.take(count),
                tie_votes(value, labels, label),
            ),
            self.votes(list, labels, label, count) is Some <==> exists|i: int|
                0 <= i < count && labels[(#[trigger] list[i]).0] == label,
            0real <= sum_of(list.take(count), tie_votes(value, labels, label)) <= limit,
        decreases count,
    {
        let each = tie_votes(value, labels, label);
        let all = |tie: (NodeId, u64)| value(tie.1);
        let others = where_wanted(|tie: (NodeId, u64)| labels[tie.0] != label, all);
        assert forall|i: int| 0 <= i < list.len() implies each(#[trigger] list[i]) >= 0real
            && others(list[i]) >= 0real by {
            assert(value(list[i].1) >= 0real);
        }
        lemma_sum_plus(list, each, others);
        lemma_sum_equal(list, |tie: (NodeId, u64)| each(tie) + others(tie), all);
        lemma_sum_bounds(list, others);
        lemma_sum_of_first(list, each, count);
        if count > 0 {
            self.lemma_votes_exact(value, weigh, limit, list, labels, label, count - 1);
            lemma_sum_take(list, each, count);
            lemma_sum_of_first(list, each, count - 1);
            assert(value(list[count - 1].1) >= 0real);
            if labels[list[count - 1].0] == label {
                assert(0 <= count - 1 < count && labels[list[count - 1].0] == label);
            }
            if exists|i: int| 0 <= i < count - 1 && labels[(#[trigger] list[i]).0] == label {
                let i = choose|i: int|
                    0 <= i < count - 1 && labels[(#[trigger] list[i]).0] == label;
                assert(0 <= i < count && labels[list[i].0] == label);
            }
            if exists|i: int| 0 <= i < count && labels[(#[trigger] list[i]).0] == label {
                let i = choose|i: int| 0 <= i < count && labels[(#[trigger] list[i]).0] == label;
                if i < count - 1 {
                    assert(0 <= i < count - 1 && labels[list[i].0] == label);
                }
            }
        } else {
            assert(list.take(0) =~= Seq::<(NodeId, u64)>::empty());
        }
    }

    /// In a round every node that is tied to others takes the label of some of them: the one whose
    /// ties weigh most together, and the smallest of those where several weigh the same. A node
    /// without ties keeps its label.
    pub proof fn law_the_heaviest_label_is_taken(
        &self,
        value: spec_fn(u64) -> real,
        weigh: spec_fn(u32) -> real,
        limit: real,
        ties: Map<NodeId, Seq<(NodeId, u64)>>,
        labels: Map<NodeId, NodeId>,
        next: Map<NodeId, NodeId>,
        id: NodeId,
        other: int,
    )
        requires
            self.adds_exactly(value, weigh, limit),
            keeps_order(value),
            self.is_round(ties, labels, next),
            ties.contains_key(id),
            forall|i: int| 0 <= i < ties[id].len() ==> value((#[trigger] ties[id][i]).1) >= 0real,
            sum_of(ties[id], |tie: (NodeId, u64)| value(tie.1)) <= limit,
        ensures
            next.contains_key(id),
            ties[id].len() == 0 ==> next[id] == labels[id],
            ties[id].len() > 0 ==> exists|i: int|
                0 <= i < ties[id].len() && labels[(#[trigger] ties[id][i]).0] == next[id],
            0 <= other < ties[id].len() ==> {
                let rival = labels[ties[id][other].0];
                let own = sum_of(ties[id], tie_votes(value, labels, next[id]));
                let rivals = sum_of(ties[id], tie_votes(value, labels, rival));
                rivals < own || (rivals == own && next[id] <= rival)
            },
    {
        let list = ties[id];
        let n = list.len() as int;
        if n > 0 {
            assert(self.is_winner(list, labels, next[id]));
            self.lemma_votes_exact(value, weigh, limit, list, labels, next[id], n);
            assert(list.take(n) =~= list);
            if 0 <= other < n {
                let rival = labels[list[other].0];
                self.lemma_votes_exact(value, weigh, limit, list, labels, rival, n);
                assert(0 <= other < n && labels[list[other].0] == rival);
                let most = self.votes(list, labels, next[id], n)->0;
                let votes = self.votes(list, labels, rival, n)->0;
                assert(f64_total_key(votes) < f64_total_key(most) || (f64_total_key(votes)
                    == f64_total_key(most) && next[id] <= rival));
            }
        }
    }
}

} // verus!
