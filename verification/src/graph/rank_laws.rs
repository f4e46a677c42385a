//! What PageRank keeps and how a node's score is made up.
use vstd::prelude::*;

use crate::collections::{increasing, lemma_increasing_unique};
use crate::graph::pagerank::RankArithmetic;
use crate::graph::workspace::{lists, GraphWorkspace};
use crate::node::NodeId;
use crate::sums::{
    lemma_sum_bounds, lemma_sum_constant, lemma_sum_equal, lemma_sum_of_first, lemma_sum_plus,
    lemma_sum_sublist, lemma_sum_swap, lemma_sum_take, lemma_sum_times, sum_of, where_wanted,
};

verus! {

impl<
    E: Fn(usize) -> u64,
    B: Fn(u64, usize) -> u64,
    S: Fn(u64, usize) -> u64,
    P: Fn(u64, u64) -> u64,
    G: Fn(u64, u64) -> u64,
> RankArithmetic<E, B, S, P, G> {
    /// Whether sums up to one are not rounded, when the bit patterns are read as `value` says.
    pub open spec fn adds_exactly(&self, value: spec_fn(u64) -> real) -> bool {
        &&& value(0) == 0real
        &&& forall|a: u64, b: u64|
            value(a) >= 0real && value(b) >= 0real && value(a) + value(b) <= 1real ==> value(
                #[trigger] self.sum(a, b),
            ) == value(a) + value(b)
    }

    /// Whether nothing is rounded when the nodes pass their scores on: what a node keeps after
    /// damping is divided evenly among its successors; the rest, and what the nodes without
    /// successors hold after damping, evenly among all nodes.
    pub open spec fn passes_exactly(
        &self,
        value: spec_fn(u64) -> real,
        damping: real,
        graph: &GraphWorkspace,
        ids: Seq<NodeId>,
        scores: Map<NodeId, u64>,
    ) -> bool {
        &&& forall|id: NodeId, count: usize|
            #![trigger self.part(scores[id], count)]
            graph.nodes().contains(id) && count > 0 && count == graph.directed@[id]@.len()
                ==> value(self.part(scores[id], count)) * (count as real) == damping * value(
                scores[id],
            )
        &&& {
            let held = self.dangling(graph, ids, scores, ids.len() as int);
            value(self.floor(held, ids.len() as usize)) * (ids.len() as real) == (1real - damping)
                + damping * value(held)
        }
    }

    /// The true score of a node after a round.
    spec fn true_score(
        &self,
        value: spec_fn(u64) -> real,
        graph: &GraphWorkspace,
        ids: Seq<NodeId>,
        scores: Map<NodeId, u64>,
        id: NodeId,
    ) -> real {
        value(self.round_floor(graph, ids, scores)) + sum_of(
            graph.reverse@[id]@,
            self.true_part(value, graph, scores),
        )
    }

    /// What a node truly passes on to each of its successors.
    spec fn true_part(
        &self,
        value: spec_fn(u64) -> real,
        graph: &GraphWorkspace,
        scores: Map<NodeId, u64>,
    ) -> spec_fn(NodeId) -> real {
        |id: NodeId| value(self.part(scores[id], graph.directed@[id]@.len() as usize))
    }

    /// The nodes without successors hold together what their scores add up to.
    proof fn lemma_dangling_exact(
        &self,
        value: spec_fn(u64) -> real,
        graph: &GraphWorkspace,
        ids: Seq<NodeId>,
        scores: Map<NodeId, u64>,
        count: int,
    )
        requires
            self.adds_exactly(value),
            0 <= count <= ids.len(),
            forall|i: int| 0 <= i < ids.len() ==> value(scores[#[trigger] ids[i]]) >= 0real,
            sum_of(ids, |id: NodeId| value(scores[id])) == 1real,
        ensures
            value(self.dangling(graph, ids, scores, count)) == sum_of(
                ids.take(count),
                where_wanted(
                    |id: NodeId| graph.directed@[id]@.len() == 0,
                    |id: NodeId| value(scores[id]),
                ),
            ),
            0real <= value(self.dangling(graph, ids, scores, count)) <= 1real,
        decreases count,
    {
        let all = |id: NodeId| value(scores[id]);
        let some = where_wanted(|id: NodeId| graph.directed@[id]@.len() == 0, all);
        assert forall|i: int| 0 <= i < ids.len() implies some(#[trigger] ids[i]) >= 0real by {
            assert(value(scores[ids[i]]) >= 0real);
        }
        if count > 0 {
            self.lemma_dangling_exact(value, graph, ids, scores, count - 1);
            lemma_sum_take(ids, some, count);
        }
        lemma_sum_of_first(ids, some, count);
        let others = where_wanted(|id: NodeId| graph.directed@[id]@.len() != 0, all);
        assert forall|i: int| 0 <= i < ids.len() implies others(#[trigger] ids[i]) >= 0real by {
            assert(value(scores[ids[i]]) >= 0real);
        }
        lemma_sum_bounds(ids, others);
        lemma_sum_plus(ids, some, others);
        lemma_sum_equal(ids, |id: NodeId| some(id) + others(id), all);
    }

    /// What all nodes truly have after a round is one.
    proof fn lemma_true_scores(
        &self,
        value: spec_fn(u64) -> real,
        damping: real,
        graph: &GraphWorkspace,
        ids: Seq<NodeId>,
        scores: Map<NodeId, u64>,
    )
        requires
            graph.well_formed(),
            increasing(ids),
            ids.to_set() == graph.nodes(),
            0real <= damping <= 1real,
            self.adds_exactly(value),
            self.passes_exactly(value, damping, graph, ids, scores),
            forall|i: int| 0 <= i < ids.len() ==> value(scores[#[trigger] ids[i]]) >= 0real,
            sum_of(ids, |id: NodeId| value(scores[id])) == 1real,
        ensures
            sum_of(ids, |id: NodeId| self.true_score(value, graph, ids, scores, id)) == 1real,
    {
        let all = |id: NodeId| value(scores[id]);
        let part = self.true_part(value, graph, scores);
        let floor = value(self.round_floor(graph, ids, scores));
        let n = ids.len() as real;
        assert forall|id: NodeId| #[trigger] ids.contains(id) <==> graph.nodes().contains(id) by {
            assert(ids.to_set().contains(id) <==> ids.contains(id));
        }
        // What each node gets from its predecessors, summed over all nodes.
        let passed = |to: NodeId, from: NodeId|
            if graph.has(from, to) {
                part(from)
            } else {
                0real
            };
        let got = |to: NodeId| sum_of(graph.reverse@[to]@, part);
        let got_from_all = |to: NodeId| sum_of(ids, |from: NodeId| passed(to, from));
        assert forall|i: int| 0 <= i < ids.len() implies got(#[trigger] ids[i]) == got_from_all(
            ids[i],
        ) by {
            let to = ids[i];
            assert(ids.contains(to));
            let sources = graph.reverse@[to]@;
            assert(lists(sources, |from: NodeId| graph.has(from, to)));
            assert forall|from: NodeId| #[trigger] sources.contains(from) implies ids.contains(
                from,
            ) by {
                assert(graph.has(from, to));
            }
            lemma_sum_sublist(sources, ids, part);
            lemma_sum_equal(
                ids,
                where_wanted(|from: NodeId| sources.contains(from), part),
                |from: NodeId| passed(to, from),
            );
        }
        lemma_sum_equal(ids, got, got_from_all);
        lemma_sum_swap(ids, ids, passed);
        lemma_sum_equal(ids, got_from_all, |to: NodeId| sum_of(ids, |from: NodeId| passed(to, from)));
        // What each node passes on to all of its successors.
        let sent = |from: NodeId| sum_of(ids, |to: NodeId| passed(to, from));
        let kept = where_wanted(|id: NodeId| graph.directed@[id]@.len() != 0, all);
        assert forall|i: int| 0 <= i < ids.len() implies sent(#[trigger] ids[i]) == damping * kept(
            ids[i],
        ) by {
            let from = ids[i];
            assert(ids.contains(from));
            let targets = graph.directed@[from]@;
            assert(increasing(targets));
            assert forall|to: NodeId| #[trigger] targets.contains(to) implies ids.contains(to) by {
                assert(graph.has(from, to));
            }
            let each = |to: NodeId| part(from);
            lemma_sum_sublist(targets, ids, each);
            lemma_sum_equal(
                ids,
                where_wanted(|to: NodeId| targets.contains(to), each),
                |to: NodeId| passed(to, from),
            );
            lemma_sum_constant(targets, part(from));
            let count: usize = graph.directed@[from].len();
            if count > 0 {
                assert(value(self.part(scores[from], count)) * (count as real) == damping * value(
                    scores[from],
                ));
                assert(part(from) * (count as real) == (count as real) * part(from))
                    by (nonlinear_arith);
            } else {
                assert((0 as real) * part(from) == 0real) by (nonlinear_arith);
                assert(damping * 0real == 0real) by (nonlinear_arith);
            }
        }
        lemma_sum_equal(ids, sent, |from: NodeId| damping * kept(from));
        lemma_sum_times(ids, damping, kept);
        lemma_sum_equal(ids, sent, |from: NodeId| sum_of(ids, |to: NodeId| passed(to, from)));
        assert(sum_of(ids, got) == damping * sum_of(ids, kept));
        // Together with what every node gets.
        let whole = |id: NodeId| self.true_score(value, graph, ids, scores, id);
        let even = |id: NodeId| floor;
        lemma_sum_plus(ids, even, got);
        lemma_sum_equal(ids, |id: NodeId| even(id) + got(id), whole);
        lemma_sum_constant(ids, floor);
        self.lemma_dangling_exact(value, graph, ids, scores, ids.len() as int);
        assert(ids.take(ids.len() as int) =~= ids);
        let ends = where_wanted(|id: NodeId| graph.directed@[id]@.len() == 0, all);
        lemma_sum_plus(ids, ends, kept);
        lemma_sum_equal(ids, |id: NodeId| ends(id) + kept(id), all);
        let held = sum_of(ids, ends);
        let passed_on = sum_of(ids, kept);
        assert(held + passed_on == 1real);
        assert(n * floor == floor * n) by (nonlinear_arith);
        assert((1real - damping) + damping * held + damping * passed_on == 1real)
            by (nonlinear_arith)
            requires
                held + passed_on == 1real,
        ;
    }

    /// The score that a node gets is its true one.
    proof fn lemma_received_exact(
        &self,
        value: spec_fn(u64) -> real,
        graph: &GraphWorkspace,
        scores: Map<NodeId, u64>,
        floor: u64,
        sources: Seq<NodeId>,
        count: int,
    )
        requires
            self.adds_exactly(value),
            0 <= count <= sources.len(),
            value(floor) >= 0real,
            forall|i: int|
                0 <= i < sources.len() ==> self.true_part(value, graph, scores)(
                    #[trigger] sources[i],
                ) >= 0real,
            value(floor) + sum_of(sources, self.true_part(value, graph, scores)) <= 1real,
        ensures
            value(self.received(graph, scores, floor, sources, count)) == value(floor) + sum_of(
                sources.take(count),
                self.true_part(value, graph, scores),
            ),
        decreases count,
    {
        let part = self.true_part(value, graph, scores);
        if count > 0 {
            self.lemma_received_exact(value, graph, scores, floor, sources, count - 1);
            lemma_sum_take(sources, part, count);
            lemma_sum_of_first(sources, part, count);
            lemma_sum_of_first(sources, part, count - 1);
            assert(part(sources[count - 1]) >= 0real);
        }
    }

    /// A round keeps the sum of the scores. With sums and shares that are not rounded, scores that
    /// add up to one before a round add up to one after it, and none becomes negative: what a node
    /// passes on is divided among its successors, and what the nodes without successors hold is
    /// divided among all.
    pub proof fn law_a_round_keeps_the_sum(
        &self,
        value: spec_fn(u64) -> real,
        damping: real,
        graph: &GraphWorkspace,
        ids: Seq<NodeId>,
        scores: Map<NodeId, u64>,
    )
        requires
            graph.well_formed(),
            increasing(ids),
            ids.to_set() == graph.nodes(),
            0real <= damping <= 1real,
            self.adds_exactly(value),
            self.passes_exactly(value, damping, graph, ids, scores),
            forall|i: int| 0 <= i < ids.len() ==> value(scores[#[trigger] ids[i]]) >= 0real,
            sum_of(ids, |id: NodeId| value(scores[id])) == 1real,
        ensures
            sum_of(ids, |id: NodeId| value(self.next_scores(graph, ids, scores)[id])) == 1real,
            forall|i: int|
                0 <= i < ids.len() ==> value(
                    self.next_scores(graph, ids, scores)[#[trigger] ids[i]],
                ) >= 0real,
    {
        let next = self.next_scores(graph, ids, scores);
        let whole = |id: NodeId| self.true_score(value, graph, ids, scores, id);
        let part = self.true_part(value, graph, scores);
        let floor = self.round_floor(graph, ids, scores);
        self.lemma_true_scores(value, damping, graph, ids, scores);
        self.lemma_dangling_exact(value, graph, ids, scores, ids.len() as int);
        assert(ids.len() > 0);
        let n = ids.len() as real;
        let held = value(self.dangling(graph, ids, scores, ids.len() as int));
        assert(value(floor) >= 0real) by {
            assert(damping * held >= 0real) by (nonlinear_arith)
                requires
                    damping >= 0real,
                    held >= 0real,
            ;
            assert(value(floor) >= 0real) by (nonlinear_arith)
                requires
                    value(floor) * n >= 0real,
                    n >= 1real,
            ;
        }
        assert forall|i: int| 0 <= i < ids.len() implies whole(#[trigger] ids[i]) >= 0real && (
        forall|k: int|
            0 <= k < graph.reverse@[ids[i]]@.len() ==> part(
                #[trigger] graph.reverse@[ids[i]]@[k],
            ) >= 0real) by {
            let to = ids[i];
            assert(ids.to_set().contains(to)) by {
                assert(ids.contains(to));
            }
            let sources = graph.reverse@[to]@;
            assert(lists(sources, |from: NodeId| graph.has(from, to)));
            assert forall|k: int| 0 <= k < sources.len() implies part(#[trigger] sources[k])
                >= 0real by {
                let from = sources[k];
                assert(sources.contains(from));
                assert(graph.has(from, to));
                assert(ids.to_set().contains(from));
                assert(ids.contains(from));
                let count: usize = graph.directed@[from].len();
                assert(graph.directed@[from]@.contains(to));
                assert(count > 0);
                let place = choose|place: int| 0 <= place < ids.len() && ids[place] == from;
                assert(value(scores[ids[place]]) >= 0real);
                let share = value(self.part(scores[from], count));
                let score = value(scores[from]);
                assert(share * (count as real) == damping * score);
                assert(share >= 0real) by (nonlinear_arith)
                    requires
                        share * (count as real) == damping * score,
                        damping >= 0real,
                        score >= 0real,
                        count as real >= 1real,
                ;
            }
            lemma_sum_bounds(sources, part);
        }
        lemma_sum_bounds(ids, whole);
        assert forall|i: int| 0 <= i < ids.len() implies value(next[#[trigger] ids[i]]) == whole(
            ids[i],
        ) && value(next[ids[i]]) >= 0real by {
            let to = ids[i];
            assert(ids.to_set().contains(to)) by {
                assert(ids.contains(to));
            }
            assert(whole(to) >= 0real && whole(to) <= 1real);
            let sources = graph.reverse@[to]@;
            self.lemma_received_exact(value, graph, scores, floor, sources, sources.len() as int);
            assert(sources.take(sources.len() as int) =~= sources);
        }
        lemma_sum_equal(ids, |id: NodeId| value(next[id]), whole);
    }

    /// After every round the scores of all nodes add up to one, where nothing is rounded: the
    /// starting scores share one evenly, and each round keeps the sum.
    pub proof fn law_scores_add_up_to_one(
        &self,
        value: spec_fn(u64) -> real,
        damping: real,
        graph: &GraphWorkspace,
        ids: Seq<NodeId>,
        rounds: nat,
    )
        requires
            graph.well_formed(),
            increasing(ids),
            ids.to_set() == graph.nodes(),
            0 < ids.len() <= usize::MAX,
            0real <= damping <= 1real,
            self.adds_exactly(value),
            value(self.start(ids.len() as usize)) * (ids.len() as real) == 1real,
            forall|round: nat|
                round < rounds ==> self.passes_exactly(
                    value,
                    damping,
                    graph,
                    ids,
                    #[trigger] self.scores_after(graph, ids, round),
                ),
        ensures
            sum_of(ids, |id: NodeId| value(self.scores_after(graph, ids, rounds)[id])) == 1real,
            forall|i: int|
                0 <= i < ids.len() ==> value(
                    self.scores_after(graph, ids, rounds)[#[trigger] ids[i]],
                ) >= 0real,
        decreases rounds,
    {
        let scores = self.scores_after(graph, ids, rounds);
        if rounds == 0 {
            let first = value(self.start(ids.len() as usize));
            let n = ids.len() as real;
            assert forall|i: int| 0 <= i < ids.len() implies scores[#[trigger] ids[i]]
                == self.start(ids.len() as usize) by {
                assert(ids.contains(ids[i]));
                assert(ids.to_set().contains(ids[i]));
            }
            lemma_sum_equal(ids, |id: NodeId| value(scores[id]), |id: NodeId| first);
            lemma_sum_constant(ids, first);
            assert(n * first == first * n) by (nonlinear_arith);
            assert(first >= 0real) by (nonlinear_arith)
                requires
                    first * n == 1real,
                    n >= 1real,
            ;
        } else {
            let before = self.scores_after(graph, ids, (rounds - 1) as nat);
            self.law_scores_add_up_to_one(value, damping, graph, ids, (rounds - 1) as nat);
            self.law_a_round_keeps_the_sum(value, damping, graph, ids, before);
        }
    }

    /// How the score of a node is made up, whatever the arithmetic: it starts at what every node
    /// gets, and for each of its predecessors, in ascending order, gets that one's score divided
    /// among the successors of that one.
    pub proof fn law_scores_are_divided_among_successors(
        &self,
        graph: &GraphWorkspace,
        ids: Seq<NodeId>,
        scores: Map<NodeId, u64>,
        id: NodeId,
        sources: Seq<NodeId>,
        successors: spec_fn(NodeId) -> Seq<NodeId>,
        steps: Seq<u64>,
    )
        requires
            graph.well_formed(),
            graph.nodes().contains(id),
            lists(sources, |from: NodeId| graph.has(from, id)),
            forall|from: NodeId|
                sources.contains(from) ==> lists(
                    #[trigger] successors(from),
                    |to: NodeId| graph.has(from, to),
                ),
            steps.len() == sources.len() + 1,
            steps[0] == self.floor(
                self.dangling(graph, ids, scores, ids.len() as int),
                ids.len() as usize,
            ),
            forall|i: int|
                0 <= i < sources.len() ==> steps[i + 1] == self.sum(
                    steps[i],
                    self.part(
                        scores[#[trigger] sources[i]],
                        successors(sources[i]).len() as usize,
                    ),
                ),
        ensures
            self.next_scores(graph, ids, scores)[id] == steps.last(),
    {
        let listed = graph.reverse@[id]@;
        assert(lists(listed, |from: NodeId| graph.has(from, id)));
        assert forall|from: NodeId| sources.contains(from) <==> #[trigger] listed.contains(from) by {
            assert(sources.contains(from) <==> graph.has(from, id));
        }
        assert(sources.to_set() =~= listed.to_set()) by {
            assert forall|from: NodeId| sources.to_set().contains(from)
                <==> #[trigger] listed.to_set().contains(from) by {
                assert(sources.contains(from) <==> listed.contains(from));
            }
        }
        lemma_increasing_unique(sources, listed);
        self.lemma_steps(graph, scores, id, sources, successors, steps, sources.len() as int);
    }

    /// What a node has after its first predecessors.
    proof fn lemma_steps(
        &self,
        graph: &GraphWorkspace,
        scores: Map<NodeId, u64>,
        id: NodeId,
        sources: Seq<NodeId>,
        successors: spec_fn(NodeId) -> Seq<NodeId>,
        steps: Seq<u64>,
        count: int,
    )
        requires
            graph.well_formed(),
            0 <= count <= sources.len(),
            lists(sources, |from: NodeId| graph.has(from, id)),
            forall|from: NodeId|
                sources.contains(from) ==> lists(
                    #[trigger] successors(from),
                    |to: NodeId| graph.has(from, to),
                ),
            steps.len() == sources.len() + 1,
            forall|i: int|
                0 <= i < sources.len() ==> steps[i + 1] == self.sum(
                    steps[i],
                    self.part(
                        scores[#[trigger] sources[i]],
                        successors(sources[i]).len() as usize,
                    ),
                ),
        ensures
            self.received(graph, scores, steps[0], sources, count) == steps[count],
        decreases count,
    {
        if count > 0 {
            self.lemma_steps(graph, scores, id, sources, successors, steps, count - 1);
            let from = sources[count - 1];
            assert(sources.contains(from));
            assert(graph.has(from, id));
            let targets = graph.directed@[from]@;
            assert(lists(successors(from), |to: NodeId| graph.has(from, to)));
            assert forall|to: NodeId| successors(from).contains(to)
                <==> #[trigger] targets.contains(to) by {
                assert(successors(from).contains(to) <==> graph.has(from, to));
            }
            assert(successors(from).to_set() =~= targets.to_set()) by {
                assert forall|to: NodeId| successors(from).to_set().contains(to)
                    <==> #[trigger] targets.to_set().contains(to) by {
                    assert(successors(from).contains(to) <==> targets.contains(to));
                }
            }
            lemma_increasing_unique(successors(from), targets);
            assert(steps[count - 1 + 1] == self.sum(
                steps[count - 1],
                self.part(scores[sources[count - 1]], successors(from).len() as usize),
            ));
        }
    }
}

} // verus!
