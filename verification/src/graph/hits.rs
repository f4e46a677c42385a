//! Hubs and authorities of a subgraph.
use std::collections::BTreeMap;
use vstd::prelude::*;

use crate::collections::{increasing, lemma_to_set_push, map_keys};
use crate::error::{
    invalid_input, is_invalid_input, is_query_execution, query_execution, Result,
};
use crate::graph::compact::saturated;
use crate::graph::workspace::{lists, GraphWorkspace};
use crate::node::NodeId;
use crate::number::{
    f64_finite, f64_is_finite, f64_less, f64_less_equal, spec_f64_equal, spec_f64_less,
};

verus! {

/// The arithmetic of hubs and authorities, on double precision bit patterns: what each of so many
/// nodes starts with, sum, product, square root, quotient, and how far apart two numbers are.
pub struct HitsArithmetic<E, P, M, R, D, G> {
    pub even: E,
    pub plus: P,
    pub times: M,
    pub root: R,
    pub over: D,
    pub gap: G,
}

impl<
    E: Fn(usize) -> u64,
    P: Fn(u64, u64) -> u64,
    M: Fn(u64, u64) -> u64,
    R: Fn(u64) -> u64,
    D: Fn(u64, u64) -> u64,
    G: Fn(u64, u64) -> u64,
> HitsArithmetic<E, P, M, R, D, G> {
    /// Whether each operation can always be carried out and gives the same for the same operands.
    pub open spec fn sound(&self) -> bool {
        &&& forall|count: usize| call_requires(self.even, (count,))
        &&& forall|count: usize, result: u64|
            call_ensures(self.even, (count,), result) ==> result == self.start(count)
        &&& forall|a: u64, b: u64| call_requires(self.plus, (a, b))
        &&& forall|a: u64, b: u64, result: u64|
            call_ensures(self.plus, (a, b), result) ==> result == self.sum(a, b)
        &&& forall|a: u64, b: u64| call_requires(self.times, (a, b))
        &&& forall|a: u64, b: u64, result: u64|
            call_ensures(self.times, (a, b), result) ==> result == self.product(a, b)
        &&& forall|a: u64| call_requires(self.root, (a,))
        &&& forall|a: u64, result: u64|
            call_ensures(self.root, (a,), result) ==> result == self.square_root(a)
        &&& forall|a: u64, b: u64| call_requires(self.over, (a, b))
        &&& forall|a: u64, b: u64, result: u64|
            call_ensures(self.over, (a, b), result) ==> result == self.quotient(a, b)
        &&& forall|a: u64, b: u64| call_requires(self.gap, (a, b))
        &&& forall|a: u64, b: u64, result: u64|
            call_ensures(self.gap, (a, b), result) ==> result == self.distance(a, b)
    }

    /// What each of so many nodes starts with.
    pub open spec fn start(&self, count: usize) -> u64 {
        choose|result: u64| call_ensures(self.even, (count,), result)
    }

    /// The sum of two numbers.
    pub open spec fn sum(&self, a: u64, b: u64) -> u64 {
        choose|result: u64| call_ensures(self.plus, (a, b), result)
    }

    /// The product of two numbers.
    pub open spec fn product(&self, a: u64, b: u64) -> u64 {
        choose|result: u64| call_ensures(self.times, (a, b), result)
    }

    /// The square root of a number.
    pub open spec fn square_root(&self, a: u64) -> u64 {
        choose|result: u64| call_ensures(self.root, (a,), result)
    }

    /// The quotient of two numbers.
    pub open spec fn quotient(&self, a: u64, b: u64) -> u64 {
        choose|result: u64| call_ensures(self.over, (a, b), result)
    }

    /// How far apart two numbers are.
    pub open spec fn distance(&self, a: u64, b: u64) -> u64 {
        choose|result: u64| call_ensures(self.gap, (a, b), result)
    }

    /// The sum of the values of the first `count` nodes of a list.
    pub open spec fn gathered(&self, values: Map<NodeId, u64>, list: Seq<NodeId>, count: int) -> u64
        decreases count,
    {
        if count <= 0 {
            0
        } else {
            self.sum(self.gathered(values, list, count - 1), values[list[count - 1]])
        }
    }

    /// For every node the sum of the values of the nodes that are listed with it.
    pub open spec fn sums(
        &self,
        lists: Map<NodeId, Vec<NodeId>>,
        values: Map<NodeId, u64>,
    ) -> Map<NodeId, u64> {
        Map::new(
            |id: NodeId| lists.contains_key(id),
            |id: NodeId| self.gathered(values, lists[id]@, lists[id]@.len() as int),
        )
    }

    /// The sum of the squares of the values of the first `count` nodes.
    pub open spec fn squares(&self, ids: Seq<NodeId>, values: Map<NodeId, u64>, count: int) -> u64
        decreases count,
    {
        if count <= 0 {
            0
        } else {
            let value = values[ids[count - 1]];
            self.sum(self.squares(ids, values, count - 1), self.product(value, value))
        }
    }

    /// The values over their norm, where that is positive.
    pub open spec fn normalized(&self, ids: Seq<NodeId>, values: Map<NodeId, u64>) -> Map<
        NodeId,
        u64,
    > {
        let norm = self.square_root(self.squares(ids, values, ids.len() as int));
        if spec_f64_less(0, norm) {
            Map::new(
                |id: NodeId| values.contains_key(id),
                |id: NodeId| self.quotient(values[id], norm),
            )
        } else {
            values
        }
    }

    /// The authority scores after some rounds: those of the hubs that point to a node, together.
    pub open spec fn authorities_after(
        &self,
        graph: &GraphWorkspace,
        ids: Seq<NodeId>,
        rounds: nat,
    ) -> Map<NodeId, u64>
        decreases rounds, 0nat,
    {
        if rounds == 0 {
            self.first_scores(graph, ids)
        } else {
            self.normalized(
                ids,
                self.sums(graph.reverse@, self.hubs_after(graph, ids, (rounds - 1) as nat)),
            )
        }
    }

    /// The hub scores after some rounds: those of the authorities that a node points to, together.
    pub open spec fn hubs_after(
        &self,
        graph: &GraphWorkspace,
        ids: Seq<NodeId>,
        rounds: nat,
    ) -> Map<NodeId, u64>
        decreases rounds, 1nat,
    {
        if rounds == 0 {
            self.first_scores(graph, ids)
        } else {
            self.normalized(
                ids,
                self.sums(graph.directed@, self.authorities_after(graph, ids, rounds)),
            )
        }
    }

    /// The same score for all nodes.
    pub open spec fn first_scores(&self, graph: &GraphWorkspace, ids: Seq<NodeId>) -> Map<
        NodeId,
        u64,
    > {
        Map::new(
            |id: NodeId| graph.nodes().contains(id),
            |id: NodeId| self.start(ids.len() as usize),
        )
    }

    /// How far the scores of the first `count` nodes are apart, taken together.
    pub open spec fn residual(
        &self,
        ids: Seq<NodeId>,
        hubs: Map<NodeId, u64>,
        next_hubs: Map<NodeId, u64>,
        authorities: Map<NodeId, u64>,
        next_authorities: Map<NodeId, u64>,
        count: int,
    ) -> u64
        decreases count,
    {
        if count <= 0 {
            0
        } else {
            let id = ids[count - 1];
            self.sum(
                self.residual(ids, hubs, next_hubs, authorities, next_authorities, count - 1),
                self.sum(
                    self.distance(next_hubs[id], hubs[id]),
                    self.distance(next_authorities[id], authorities[id]),
                ),
            )
        }
    }

    /// How much a round changes the scores.
    pub open spec fn change_in(&self, graph: &GraphWorkspace, ids: Seq<NodeId>, round: nat) -> u64 {
        let before = (round - 1) as nat;
        self.residual(
            ids,
            self.hubs_after(graph, ids, before),
            self.hubs_after(graph, ids, round),
            self.authorities_after(graph, ids, before),
            self.authorities_after(graph, ids, round),
            ids.len() as int,
        )
    }

    /// Whether the change in a round is at most the tolerance.
    pub open spec fn settles(
        &self,
        graph: &GraphWorkspace,
        ids: Seq<NodeId>,
        tolerance: u64,
        round: nat,
    ) -> bool {
        let change = self.change_in(graph, ids, round);
        spec_f64_less(change, tolerance) || spec_f64_equal(change, tolerance)
    }

    /// Whether a result is what rounds within the work allowed come to: the scores after the first
    /// round that settles or after the last one, or a fault where the work is not enough for
    /// either.
    pub open spec fn is_hits(
        &self,
        graph: &GraphWorkspace,
        ids: Seq<NodeId>,
        tolerance: u64,
        max_iterations: usize,
        max_work: usize,
        rounds: nat,
        result: Result<BTreeMap<NodeId, (u64, u64)>>,
    ) -> bool {
        let work = round_work(degree_sum(graph, ids, ids.len() as int));
        let limit = affordable_rounds(work, max_work, max_iterations);
        let settled = rounds > 0 && self.settles(graph, ids, tolerance, rounds);
        &&& increasing(ids)
        &&& ids.to_set() == graph.nodes()
        &&& rounds <= limit
        &&& forall|round: nat|
            1 <= round < rounds ==> !#[trigger] self.settles(graph, ids, tolerance, round)
        &&& settled || rounds == limit
        &&& if settled || limit == max_iterations {
            result matches Ok(scores) && scores@ == Map::new(
                |id: NodeId| graph.nodes().contains(id),
                |id: NodeId|
                    (
                        self.authorities_after(graph, ids, rounds)[id],
                        self.hubs_after(graph, ids, rounds)[id],
                    ),
            )
        } else {
            result matches Err(error) && is_query_execution(
                error,
                if (limit + 1) * work > usize::MAX {
                    "HITS 工作预算溢出"@
                } else {
                    "HITS 超过迭代边预算 (HITS exceeds iterative edge budget)"@
                },
            )
        }
    }

    /// For every node the sum of the values of the nodes that are listed with it, over the norm.
    fn gather(
        &self,
        ids: &Vec<NodeId>,
        lists: &BTreeMap<NodeId, Vec<NodeId>>,
        values: &BTreeMap<NodeId, u64>,
    ) -> (next: BTreeMap<NodeId, u64>)
        requires
            self.sound(),
            increasing(ids@),
            ids@.to_set() == lists@.dom(),
            values@.dom() == lists@.dom(),
            forall|id: NodeId, other: NodeId|
                lists@.contains_key(id) && #[trigger] lists@[id]@.contains(other)
                    ==> lists@.contains_key(other),
        ensures
            next@ == self.normalized(ids@, self.sums(lists@, values@)),
            next@.dom() == lists@.dom(),
    {
        let ghost wanted = self.sums(lists@, values@);
        let mut raw: BTreeMap<NodeId, u64> = BTreeMap::new();
        let mut i: usize = 0;
        let mut squares: u64 = 0;
        assert(raw@.dom() =~= ids@.take(0).to_set());
        while i < ids.len()
            invariant
                self.sound(),
                ids@.to_set() == lists@.dom(),
                values@.dom() == lists@.dom(),
                forall|id: NodeId, other: NodeId|
                    lists@.contains_key(id) && #[trigger] lists@[id]@.contains(other)
                        ==> lists@.contains_key(other),
                wanted == self.sums(lists@, values@),
                i <= ids@.len(),
                raw@.dom() == ids@.take(i as int).to_set(),
                forall|id: NodeId| #[trigger] raw@.contains_key(id) ==> raw@[id] == wanted[id],
                squares == self.squares(ids@, wanted, i as int),
            decreases ids@.len() - i,
        {
            let id: NodeId = ids[i];
            proof {
                assert(ids@.contains(id));
                assert(ids@.to_set().contains(id));
            }
            let list = lists.get(&id).unwrap();
            let mut sum: u64 = 0;
            let mut j: usize = 0;
            while j < list.len()
                invariant
                    self.sound(),
                    values@.dom() == lists@.dom(),
                    lists@.contains_key(id),
                    *list == lists@[id],
                    forall|id: NodeId, other: NodeId|
                        lists@.contains_key(id) && #[trigger] lists@[id]@.contains(other)
                            ==> lists@.contains_key(other),
                    j <= list@.len(),
                    sum == self.gathered(values@, list@, j as int),
                decreases list@.len() - j,
            {
                let other: NodeId = list[j];
                assert(lists@[id]@.contains(other)) by {
                    assert(list@[j as int] == other);
                }
                sum = (self.plus)(sum, *values.get(&other).unwrap());
                j += 1;
            }
            assert(sum == wanted[id]);
            raw.insert(id, sum);
            let square: u64 = (self.times)(sum, sum);
            squares = (self.plus)(squares, square);
            proof {
                assert(ids@.take(i + 1) =~= ids@.take(i as int).push(id));
                lemma_to_set_push(ids@.take(i as int), id);
                assert(raw@.dom() =~= ids@.take(i + 1).to_set());
            }
            i += 1;
        }
        assert(ids@.take(i as int) =~= ids@);
        assert(raw@ =~= wanted);
        let norm: u64 = (self.root)(squares);
        if !f64_less(0, norm) {
            return raw;
        }
        let mut next: BTreeMap<NodeId, u64> = BTreeMap::new();
        let mut k: usize = 0;
        assert(next@.dom() =~= ids@.take(0).to_set());
        while k < ids.len()
            invariant
                self.sound(),
                ids@.to_set() == lists@.dom(),
                raw@ == wanted,
                raw@.dom() == lists@.dom(),
                k <= ids@.len(),
                next@.dom() == ids@.take(k as int).to_set(),
                forall|id: NodeId| #[trigger]
                    next@.contains_key(id) ==> next@[id] == self.quotient(wanted[id], norm),
            decreases ids@.len() - k,
        {
            let id: NodeId = ids[k];
            proof {
                assert(ids@.contains(id));
                assert(ids@.to_set().contains(id));
            }
            let share: u64 = (self.over)(*raw.get(&id).unwrap(), norm);
            next.insert(id, share);
            proof {
                assert(ids@.take(k + 1) =~= ids@.take(k as int).push(id));
                lemma_to_set_push(ids@.take(k as int), id);
                assert(next@.dom() =~= ids@.take(k + 1).to_set());
            }
            k += 1;
        }
        assert(ids@.take(k as int) =~= ids@);
        assert(next@ =~= self.normalized(ids@, wanted));
        next
    }

    /// How far apart two pairs of scores are.
    fn measure(
        &self,
        ids: &Vec<NodeId>,
        hubs: &BTreeMap<NodeId, u64>,
        next_hubs: &BTreeMap<NodeId, u64>,
        authorities: &BTreeMap<NodeId, u64>,
        next_authorities: &BTreeMap<NodeId, u64>,
    ) -> (change: u64)
        requires
            self.sound(),
            hubs@.dom() == ids@.to_set(),
            next_hubs@.dom() == ids@.to_set(),
            authorities@.dom() == ids@.to_set(),
            next_authorities@.dom() == ids@.to_set(),
        ensures
            change == self.residual(
                ids@,
                hubs@,
                next_hubs@,
                authorities@,
                next_authorities@,
                ids@.len() as int,
            ),
    {
        let mut change: u64 = 0;
        let mut i: usize = 0;
        while i < ids.len()
            invariant
                self.sound(),
                hubs@.dom() == ids@.to_set(),
                next_hubs@.dom() == ids@.to_set(),
                authorities@.dom() == ids@.to_set(),
                next_authorities@.dom() == ids@.to_set(),
                i <= ids@.len(),
                change == self.residual(
                    ids@,
                    hubs@,
                    next_hubs@,
                    authorities@,
                    next_authorities@,
                    i as int,
                ),
            decreases ids@.len() - i,
        {
            let id: NodeId = ids[i];
            proof {
                assert(ids@.contains(id));
                assert(ids@.to_set().contains(id));
            }
            let one: u64 = (self.gap)(*next_hubs.get(&id).unwrap(), *hubs.get(&id).unwrap());
            let other: u64 = (self.gap)(
                *next_authorities.get(&id).unwrap(),
                *authorities.get(&id).unwrap(),
            );
            let both: u64 = (self.plus)(one, other);
            change = (self.plus)(change, both);
            i += 1;
        }
        change
    }

    /// The first scores.
    fn begin(&self, graph: &GraphWorkspace, ids: &Vec<NodeId>) -> (scores: BTreeMap<NodeId, u64>)
        requires
            self.sound(),
            ids@.to_set() == graph.nodes(),
        ensures
            scores@ == self.first_scores(graph, ids@),
            scores@.dom() == graph.nodes(),
    {
        let first: u64 = (self.even)(ids.len());
        let mut scores: BTreeMap<NodeId, u64> = BTreeMap::new();
        let mut i: usize = 0;
        assert(scores@.dom() =~= ids@.take(0).to_set());
        while i < ids.len()
            invariant
                i <= ids@.len(),
                scores@.dom() == ids@.take(i as int).to_set(),
                forall|id: NodeId| #[trigger] scores@.contains_key(id) ==> scores@[id] == first,
            decreases ids@.len() - i,
        {
            scores.insert(ids[i], first);
            proof {
                assert(ids@.take(i + 1) =~= ids@.take(i as int).push(ids@[i as int]));
                lemma_to_set_push(ids@.take(i as int), ids@[i as int]);
                assert(scores@.dom() =~= ids@.take(i + 1).to_set());
            }
            i += 1;
        }
        assert(ids@.take(i as int) =~= ids@);
        assert(scores@ =~= self.first_scores(graph, ids@));
        scores
    }
}

/// The number of edges of the first `count` nodes.
pub open spec fn degree_sum(graph: &GraphWorkspace, ids: Seq<NodeId>, count: int) -> nat
    decreases count,
{
    if count <= 0 {
        0
    } else {
        degree_sum(graph, ids, count - 1) + graph.directed@[ids[count - 1]]@.len()
    }
}

/// The number of edges that one round looks at: each edge from both of its ends.
pub open spec fn round_work(edges: nat) -> nat {
    saturated(saturated(edges) * 2)
}

/// How many rounds the work allowed is enough for, at most `max_iterations`.
pub open spec fn affordable_rounds(work: nat, max_work: usize, max_iterations: usize) -> usize {
    if work == 0 || max_work as nat / work >= max_iterations {
        max_iterations
    } else {
        (max_work as nat / work) as usize
    }
}

/// Whether the parameters make sense.
pub open spec fn are_hits_parameters(max_iterations: usize, tolerance: u64) -> bool {
    max_iterations > 0 && f64_finite(tolerance) && spec_f64_less(0, tolerance)
}

/// The number of edges of a graph.
fn count_directed(graph: &GraphWorkspace, ids: &Vec<NodeId>) -> (count: usize)
    requires
        ids@.to_set() == graph.nodes(),
    ensures
        count == saturated(degree_sum(graph, ids@, ids@.len() as int)),
{
    let mut count: usize = 0;
    let mut i: usize = 0;
    while i < ids.len()
        invariant
            ids@.to_set() == graph.nodes(),
            i <= ids@.len(),
            count == saturated(degree_sum(graph, ids@, i as int)),
        decreases ids@.len() - i,
    {
        proof {
            assert(ids@.contains(ids@[i as int]));
            assert(ids@.to_set().contains(ids@[i as int]));
        }
        count = count.saturating_add(graph.directed.get(&ids[i]).unwrap().len());
        i += 1;
    }
    count
}

/// The scores of both kinds, side by side.
fn pair_scores(
    ids: &Vec<NodeId>,
    authorities: &BTreeMap<NodeId, u64>,
    hubs: &BTreeMap<NodeId, u64>,
) -> (scores: BTreeMap<NodeId, (u64, u64)>)
    requires
        authorities@.dom() == ids@.to_set(),
        hubs@.dom() == ids@.to_set(),
    ensures
        scores@.dom() == ids@.to_set(),
        forall|id: NodeId| #[trigger]
            scores@.contains_key(id) ==> scores@[id] == (authorities@[id], hubs@[id]),
{
    let mut scores: BTreeMap<NodeId, (u64, u64)> = BTreeMap::new();
    let mut i: usize = 0;
    assert(scores@.dom() =~= ids@.take(0).to_set());
    while i < ids.len()
        invariant
            authorities@.dom() == ids@.to_set(),
            hubs@.dom() == ids@.to_set(),
            i <= ids@.len(),
            scores@.dom() == ids@.take(i as int).to_set(),
            forall|id: NodeId| #[trigger]
                scores@.contains_key(id) ==> scores@[id] == (authorities@[id], hubs@[id]),
        decreases ids@.len() - i,
    {
        let id: NodeId = ids[i];
        proof {
            assert(ids@.contains(id));
            assert(ids@.to_set().contains(id));
        }
        scores.insert(id, (*authorities.get(&id).unwrap(), *hubs.get(&id).unwrap()));
        proof {
            assert(ids@.take(i + 1) =~= ids@.take(i as int).push(id));
            lemma_to_set_push(ids@.take(i as int), id);
            assert(scores@.dom() =~= ids@.take(i + 1).to_set());
        }
        i += 1;
    }
    assert(ids@.take(i as int) =~= ids@);
    scores
}

/// Hub and authority scores of all nodes, the authority score first.
pub fn hits<
    E: Fn(usize) -> u64,
    P: Fn(u64, u64) -> u64,
    M: Fn(u64, u64) -> u64,
    R: Fn(u64) -> u64,
    D: Fn(u64, u64) -> u64,
    G: Fn(u64, u64) -> u64,
>(
    graph: &GraphWorkspace,
    max_iterations: usize,
    tolerance: u64,
    max_work: usize,
    arithmetic: &HitsArithmetic<E, P, M, R, D, G>,
) -> (result: Result<BTreeMap<NodeId, (u64, u64)>>)
    requires
        graph.well_formed(),
        arithmetic.sound(),
    ensures
        !are_hits_parameters(max_iterations, tolerance) ==> (result matches Err(error)
            && is_invalid_input(error, "HITS 参数无效 (Invalid HITS parameters)"@)),
        are_hits_parameters(max_iterations, tolerance) && graph.nodes().len() == 0 ==> (
        result matches Ok(scores) && scores@.dom().is_empty()),
        are_hits_parameters(max_iterations, tolerance) && graph.nodes().len() > 0 ==> exists|
            ids: Seq<NodeId>,
            rounds: nat,
        | #[trigger]
            arithmetic.is_hits(
                graph,
                ids,
                tolerance,
                max_iterations,
                max_work,
                rounds,
                result,
            ),
{
    if max_iterations == 0 || !f64_is_finite(tolerance) || !f64_less(0, tolerance) {
        return Err(invalid_input("HITS 参数无效 (Invalid HITS parameters)"));
    }
    let ids = map_keys(&graph.directed);
    if ids.len() == 0 {
        proof {
            assert(ids@ =~= Seq::<NodeId>::empty());
            assert(graph.nodes() =~= Set::<NodeId>::empty());
        }
        return Ok(BTreeMap::new());
    }
    proof {
        assert(ids@.contains(ids@[0]));
        assert(ids@.to_set().contains(ids@[0]));
        assert(graph.nodes().len() > 0) by {
            if graph.nodes().len() == 0 {
                assert(graph.nodes() =~= Set::<NodeId>::empty());
            }
        }
    }
    let count: usize = count_directed(graph, &ids);
    let work: usize = count.saturating_add(count);
    assert(work == round_work(degree_sum(graph, ids@, ids@.len() as int)));
    let limit: usize = if work == 0 || max_work / work >= max_iterations {
        max_iterations
    } else {
        max_work / work
    };
    proof {
        assert forall|id: NodeId, other: NodeId|
            graph.directed@.contains_key(id) && #[trigger] graph.directed@[id]@.contains(
                other,
            ) implies graph.directed@.contains_key(other) by {
            assert(graph.has(id, other));
        }
        assert forall|id: NodeId, other: NodeId|
            graph.reverse@.contains_key(id) && #[trigger] graph.reverse@[id]@.contains(
                other,
            ) implies graph.reverse@.contains_key(other) by {
            assert(graph.nodes().contains(id));
            assert(lists(graph.reverse@[id]@, |from: NodeId| graph.has(from, id)));
            assert(graph.has(other, id));
        }
    }
    let mut hubs = arithmetic.begin(graph, &ids);
    let mut authorities = arithmetic.begin(graph, &ids);
    let mut rounds: usize = 0;
    let mut settled = false;
    while rounds < limit && !settled
        invariant
            arithmetic.sound(),
            graph.well_formed(),
            increasing(ids@),
            ids@.to_set() == graph.nodes(),
            forall|id: NodeId, other: NodeId|
                graph.directed@.contains_key(id) && #[trigger] graph.directed@[id]@.contains(other)
                    ==> graph.directed@.contains_key(other),
            forall|id: NodeId, other: NodeId|
                graph.reverse@.contains_key(id) && #[trigger] graph.reverse@[id]@.contains(other)
                    ==> graph.reverse@.contains_key(other),
            rounds <= limit,
            hubs@ == arithmetic.hubs_after(graph, ids@, rounds as nat),
            authorities@ == arithmetic.authorities_after(graph, ids@, rounds as nat),
            hubs@.dom() == graph.nodes(),
            authorities@.dom() == graph.nodes(),
            settled == (rounds > 0 && arithmetic.settles(graph, ids@, tolerance, rounds as nat)),
            forall|round: nat|
                1 <= round < rounds ==> !#[trigger] arithmetic.settles(
                    graph,
                    ids@,
                    tolerance,
                    round,
                ),
        decreases limit - rounds,
    {
        let next_authorities = arithmetic.gather(&ids, &graph.reverse, &hubs);
        let next_hubs = arithmetic.gather(&ids, &graph.directed, &next_authorities);
        let change: u64 = arithmetic.measure(
            &ids,
            &hubs,
            &next_hubs,
            &authorities,
            &next_authorities,
        );
        rounds += 1;
        proof {
            assert(next_authorities@ == arithmetic.authorities_after(graph, ids@, rounds as nat));
            assert(next_hubs@ == arithmetic.hubs_after(graph, ids@, rounds as nat));
            assert(change == arithmetic.change_in(graph, ids@, rounds as nat));
        }
        hubs = next_hubs;
        authorities = next_authorities;
        settled = f64_less_equal(change, tolerance);
    }
    let result = if !settled && limit < max_iterations {
        match (limit + 1).checked_mul(work) {
            Some(_) => Err(
                query_execution("HITS 超过迭代边预算 (HITS exceeds iterative edge budget)"),
            ),
            None => Err(query_execution("HITS 工作预算溢出")),
        }
    } else {
        Ok(pair_scores(&ids, &authorities, &hubs))
    };
    proof {
        if result is Ok {
            assert(result->Ok_0@ =~= Map::new(
                |id: NodeId| graph.nodes().contains(id),
                |id: NodeId|
                    (
                        arithmetic.authorities_after(graph, ids@, rounds as nat)[id],
                        arithmetic.hubs_after(graph, ids@, rounds as nat)[id],
                    ),
            ));
        }
        assert(arithmetic.is_hits(
            graph,
            ids@,
            tolerance,
            max_iterations,
            max_work,
            rounds as nat,
            result,
        ));
    }
    result
}

} // verus!
