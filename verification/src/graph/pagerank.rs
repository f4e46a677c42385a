//! PageRank on the subgraph of a chosen set of nodes.
use std::collections::{BTreeMap, BTreeSet};
use vstd::prelude::*;

use crate::collections::{increasing, lemma_increasing_unique, lemma_to_set_push, map_keys};
use crate::error::{is_query_execution, query_execution, Result};
use crate::graph::centrality::{rank_nodes, scored_nodes};
use crate::graph::workspace::{
    is_edge_count, is_scan, law_scans_agree, lists, same_lists, scan_subgraph,
    scan_subgraph_parallel, scans_nodes, GraphWorkspace, NodeScan,
};
use crate::node::NodeId;
use crate::number::{
    f64_finite, f64_is_finite, f64_less, f64_less_equal, spec_f64_equal, spec_f64_less, F64_ONE,
};
use crate::sorting::{order_of, sorted};
use crate::storage::memtable::{label_view, MemTable, Table};
use crate::vector::VectorType;

verus! {

/// The arithmetic of PageRank, on double precision bit patterns: what each of so many nodes starts
/// with, what every one of them gets in a round when the nodes without successors hold so much
/// together, what a node with a score passes on to each of so many successors, the sum of two
/// numbers and how far apart they are.
pub struct RankArithmetic<E, B, S, P, G> {
    pub even: E,
    pub base: B,
    pub share: S,
    pub plus: P,
    pub gap: G,
}

impl<
    E: Fn(usize) -> u64,
    B: Fn(u64, usize) -> u64,
    S: Fn(u64, usize) -> u64,
    P: Fn(u64, u64) -> u64,
    G: Fn(u64, u64) -> u64,
> RankArithmetic<E, B, S, P, G> {
    /// Whether each operation can always be carried out and gives the same for the same operands.
    pub open spec fn sound(&self) -> bool {
        &&& forall|count: usize| call_requires(self.even, (count,))
        &&& forall|count: usize, result: u64|
            call_ensures(self.even, (count,), result) ==> result == self.start(count)
        &&& forall|held: u64, count: usize| call_requires(self.base, (held, count))
        &&& forall|held: u64, count: usize, result: u64|
            call_ensures(self.base, (held, count), result) ==> result == self.floor(held, count)
        &&& forall|score: u64, count: usize| call_requires(self.share, (score, count))
        &&& forall|score: u64, count: usize, result: u64|
            call_ensures(self.share, (score, count), result) ==> result == self.part(score, count)
        &&& forall|a: u64, b: u64| call_requires(self.plus, (a, b))
        &&& forall|a: u64, b: u64, result: u64|
            call_ensures(self.plus, (a, b), result) ==> result == self.sum(a, b)
        &&& forall|a: u64, b: u64| call_requires(self.gap, (a, b))
        &&& forall|a: u64, b: u64, result: u64|
            call_ensures(self.gap, (a, b), result) ==> result == self.distance(a, b)
    }

    /// What each of so many nodes starts with.
    pub open spec fn start(&self, count: usize) -> u64 {
        choose|result: u64| call_ensures(self.even, (count,), result)
    }

    /// What every node gets in a round.
    pub open spec fn floor(&self, held: u64, count: usize) -> u64 {
        choose|result: u64| call_ensures(self.base, (held, count), result)
    }

    /// What a node passes on to each of its successors.
    pub open spec fn part(&self, score: u64, count: usize) -> u64 {
        choose|result: u64| call_ensures(self.share, (score, count), result)
    }

    /// The sum of two numbers.
    pub open spec fn sum(&self, a: u64, b: u64) -> u64 {
        choose|result: u64| call_ensures(self.plus, (a, b), result)
    }

    /// How far apart two numbers are.
    pub open spec fn distance(&self, a: u64, b: u64) -> u64 {
        choose|result: u64| call_ensures(self.gap, (a, b), result)
    }

    /// What those of the first `count` nodes hold together that have no successors.
    pub open spec fn dangling(
        &self,
        graph: &GraphWorkspace,
        ids: Seq<NodeId>,
        scores: Map<NodeId, u64>,
        count: int,
    ) -> u64
        decreases count,
    {
        if count <= 0 {
            0
        } else {
            let before = self.dangling(graph, ids, scores, count - 1);
            if graph.directed@[ids[count - 1]]@.len() == 0 {
                self.sum(before, scores[ids[count - 1]])
            } else {
                before
            }
        }
    }

    /// What a node gets from the first `count` of its predecessors, on top of `floor`.
    pub open spec fn received(
        &self,
        graph: &GraphWorkspace,
        scores: Map<NodeId, u64>,
        floor: u64,
        sources: Seq<NodeId>,
        count: int,
    ) -> u64
        decreases count,
    {
        if count <= 0 {
            floor
        } else {
            self.sum(
                self.received(graph, scores, floor, sources, count - 1),
                self.part(
                    scores[sources[count - 1]],
                    graph.directed@[sources[count - 1]]@.len() as usize,
                ),
            )
        }
    }

    /// The score of a node after a round in which every node gets `floor`.
    pub open spec fn next_score(
        &self,
        graph: &GraphWorkspace,
        scores: Map<NodeId, u64>,
        floor: u64,
        id: NodeId,
    ) -> u64 {
        let sources = graph.reverse@[id]@;
        self.received(graph, scores, floor, sources, sources.len() as int)
    }

    /// What every node gets in a round.
    pub open spec fn round_floor(
        &self,
        graph: &GraphWorkspace,
        ids: Seq<NodeId>,
        scores: Map<NodeId, u64>,
    ) -> u64 {
        self.floor(self.dangling(graph, ids, scores, ids.len() as int), ids.len() as usize)
    }

    /// The scores after one round.
    pub open spec fn next_scores(
        &self,
        graph: &GraphWorkspace,
        ids: Seq<NodeId>,
        scores: Map<NodeId, u64>,
    ) -> Map<NodeId, u64> {
        let floor = self.round_floor(graph, ids, scores);
        Map::new(
            |id: NodeId| graph.nodes().contains(id),
            |id: NodeId| self.next_score(graph, scores, floor, id),
        )
    }

    /// The scores after some rounds, the same for all nodes at first.
    pub open spec fn scores_after(
        &self,
        graph: &GraphWorkspace,
        ids: Seq<NodeId>,
        rounds: nat,
    ) -> Map<NodeId, u64>
        decreases rounds,
    {
        if rounds == 0 {
            Map::new(
                |id: NodeId| graph.nodes().contains(id),
                |id: NodeId| self.start(ids.len() as usize),
            )
        } else {
            self.next_scores(graph, ids, self.scores_after(graph, ids, (rounds - 1) as nat))
        }
    }

    /// How far the scores of the first `count` nodes are apart, taken together.
    pub open spec fn residual(
        &self,
        ids: Seq<NodeId>,
        scores: Map<NodeId, u64>,
        next: Map<NodeId, u64>,
        count: int,
    ) -> u64
        decreases count,
    {
        if count <= 0 {
            0
        } else {
            self.sum(
                self.residual(ids, scores, next, count - 1),
                self.distance(next[ids[count - 1]], scores[ids[count - 1]]),
            )
        }
    }

    /// How much a round changes the scores.
    pub open spec fn change_in(&self, graph: &GraphWorkspace, ids: Seq<NodeId>, round: nat) -> u64 {
        self.residual(
            ids,
            self.scores_after(graph, ids, (round - 1) as nat),
            self.scores_after(graph, ids, round),
            ids.len() as int,
        )
    }

    /// Whether a result is what PageRank on a graph gives: the scores after the first round that
    /// changes them by less than the tolerance, or after the last one allowed.
    pub open spec fn is_pagerank(
        &self,
        graph: &GraphWorkspace,
        config: SubsetPageRankConfig,
        ids: Seq<NodeId>,
        result: SubsetPageRankResult,
    ) -> bool {
        let rounds = result.iterations as nat;
        &&& increasing(ids)
        &&& ids.to_set() == graph.nodes()
        &&& 1 <= rounds <= config.max_iterations
        &&& result.scores@ == sorted(
            standings(ids, self.scores_after(graph, ids, rounds)),
            order_of::<(NodeId, u64)>(),
        )
        &&& result.residual_l1 == self.change_in(graph, ids, rounds)
        &&& result.converged == spec_f64_less(result.residual_l1, config.tolerance)
        &&& result.converged || rounds == config.max_iterations
        &&& forall|round: nat|
            1 <= round < rounds ==> !spec_f64_less(
                #[trigger] self.change_in(graph, ids, round),
                config.tolerance,
            )
        &&& result.examined_edges == graph.examined_edges
    }

    /// Whether a function gives the score of each node after a round.
    pub open spec fn ranks_nodes<
        R: Fn(&GraphWorkspace, &Vec<NodeId>, &BTreeMap<NodeId, u64>, u64) -> Vec<u64>,
    >(&self, rank_all: R) -> bool {
        &&& forall|
            graph: &GraphWorkspace,
            ids: &Vec<NodeId>,
            scores: &BTreeMap<NodeId, u64>,
            floor: u64,
        |
            is_standing(graph, ids@, scores@) ==> #[trigger] call_requires(
                rank_all,
                (graph, ids, scores, floor),
            )
        &&& forall|
            graph: &GraphWorkspace,
            ids: &Vec<NodeId>,
            scores: &BTreeMap<NodeId, u64>,
            floor: u64,
            next: Vec<u64>,
        |
            is_standing(graph, ids@, scores@) && #[trigger] call_ensures(
                rank_all,
                (graph, ids, scores, floor),
                next,
            ) ==> self.are_next(graph, ids@, scores@, floor, next@)
    }

    /// Whether `next` are the scores of some nodes after a round, in their order.
    pub open spec fn are_next(
        &self,
        graph: &GraphWorkspace,
        ids: Seq<NodeId>,
        scores: Map<NodeId, u64>,
        floor: u64,
        next: Seq<u64>,
    ) -> bool {
        &&& next.len() == ids.len()
        &&& forall|i: int|
            0 <= i < ids.len() ==> #[trigger] next[i] == self.next_score(
                graph,
                scores,
                floor,
                ids[i],
            )
    }

    /// The score of a node after a round.
    pub fn rank_node(
        &self,
        graph: &GraphWorkspace,
        scores: &BTreeMap<NodeId, u64>,
        floor: u64,
        id: NodeId,
    ) -> (score: u64)
        requires
            self.sound(),
            graph.well_formed(),
            graph.nodes().contains(id),
            scores@.dom() == graph.nodes(),
        ensures
            score == self.next_score(graph, scores@, floor, id),
    {
        let sources = graph.reverse.get(&id).unwrap();
        let mut score: u64 = floor;
        let mut i: usize = 0;
        assert(lists(graph.reverse@[id]@, |from: NodeId| graph.has(from, id)));
        while i < sources.len()
            invariant
                self.sound(),
                graph.well_formed(),
                graph.nodes().contains(id),
                scores@.dom() == graph.nodes(),
                *sources == graph.reverse@[id],
                lists(graph.reverse@[id]@, |from: NodeId| graph.has(from, id)),
                i <= sources@.len(),
                score == self.received(graph, scores@, floor, sources@, i as int),
            decreases sources@.len() - i,
        {
            let source: NodeId = sources[i];
            proof {
                assert(sources@.contains(source));
                assert(graph.has(source, id));
            }
            let held: u64 = *scores.get(&source).unwrap();
            let targets: usize = graph.directed.get(&source).unwrap().len();
            let part: u64 = (self.share)(held, targets);
            score = (self.plus)(score, part);
            i += 1;
        }
        score
    }

    /// The scores of all nodes after a round, one after the other.
    fn rank_each(
        &self,
        graph: &GraphWorkspace,
        ids: &Vec<NodeId>,
        scores: &BTreeMap<NodeId, u64>,
        floor: u64,
    ) -> (next: Vec<u64>)
        requires
            self.sound(),
            is_standing(graph, ids@, scores@),
        ensures
            self.are_next(graph, ids@, scores@, floor, next@),
    {
        let mut next: Vec<u64> = Vec::new();
        let mut i: usize = 0;
        while i < ids.len()
            invariant
                self.sound(),
                is_standing(graph, ids@, scores@),
                i <= ids@.len(),
                next@.len() == i,
                forall|k: int|
                    0 <= k < i ==> #[trigger] next@[k] == self.next_score(
                        graph,
                        scores@,
                        floor,
                        ids@[k],
                    ),
            decreases ids@.len() - i,
        {
            proof {
                assert(ids@.contains(ids@[i as int]));
                assert(ids@.to_set().contains(ids@[i as int]));
            }
            next.push(self.rank_node(graph, scores, floor, ids[i]));
            i += 1;
        }
        next
    }

    /// What every node gets in a round.
    fn find_floor(
        &self,
        graph: &GraphWorkspace,
        ids: &Vec<NodeId>,
        scores: &BTreeMap<NodeId, u64>,
    ) -> (floor: u64)
        requires
            self.sound(),
            is_standing(graph, ids@, scores@),
        ensures
            floor == self.round_floor(graph, ids@, scores@),
    {
        let mut held: u64 = 0;
        let mut i: usize = 0;
        while i < ids.len()
            invariant
                self.sound(),
                is_standing(graph, ids@, scores@),
                i <= ids@.len(),
                held == self.dangling(graph, ids@, scores@, i as int),
            decreases ids@.len() - i,
        {
            let id: NodeId = ids[i];
            proof {
                assert(ids@.contains(id));
                assert(ids@.to_set().contains(id));
            }
            if graph.directed.get(&id).unwrap().len() == 0 {
                held = (self.plus)(held, *scores.get(&id).unwrap());
            }
            i += 1;
        }
        (self.base)(held, ids.len())
    }

    /// One round, in which `rank_all` gives the scores. Also tells how much they changed.
    fn pass_scores<
        R: Fn(&GraphWorkspace, &Vec<NodeId>, &BTreeMap<NodeId, u64>, u64) -> Vec<u64>,
    >(
        &self,
        graph: &GraphWorkspace,
        ids: &Vec<NodeId>,
        scores: &BTreeMap<NodeId, u64>,
        rank_all: &R,
    ) -> (result: (BTreeMap<NodeId, u64>, u64))
        requires
            self.sound(),
            self.ranks_nodes(*rank_all),
            is_standing(graph, ids@, scores@),
        ensures
            result.0@ == self.next_scores(graph, ids@, scores@),
            result.1 == self.residual(ids@, scores@, result.0@, ids@.len() as int),
    {
        let floor: u64 = self.find_floor(graph, ids, scores);
        let list = rank_all(graph, ids, scores, floor);
        let next = assign(ids, &list);
        proof {
            assert forall|id: NodeId| #[trigger] graph.nodes().contains(id) implies next@[id]
                == self.next_score(graph, scores@, floor, id) by {
                assert(ids@.to_set().contains(id));
                let i = choose|i: int| 0 <= i < ids@.len() && ids@[i] == id;
                assert(next@[ids@[i]] == list@[i]);
            }
            assert(next@ =~= self.next_scores(graph, ids@, scores@));
        }
        let mut change: u64 = 0;
        let mut i: usize = 0;
        while i < ids.len()
            invariant
                self.sound(),
                is_standing(graph, ids@, scores@),
                next@.dom() == graph.nodes(),
                i <= ids@.len(),
                change == self.residual(ids@, scores@, next@, i as int),
            decreases ids@.len() - i,
        {
            let id: NodeId = ids[i];
            proof {
                assert(ids@.contains(id));
                assert(ids@.to_set().contains(id));
            }
            let moved: u64 = (self.gap)(*next.get(&id).unwrap(), *scores.get(&id).unwrap());
            change = (self.plus)(change, moved);
            i += 1;
        }
        (next, change)
    }

    /// PageRank on a graph, and the nodes of the graph in ascending order.
    fn rank_graph<
        R: Fn(&GraphWorkspace, &Vec<NodeId>, &BTreeMap<NodeId, u64>, u64) -> Vec<u64>,
    >(&self, graph: &GraphWorkspace, config: SubsetPageRankConfig, rank_all: &R) -> (result: (
        SubsetPageRankResult,
        Ghost<Seq<NodeId>>,
    ))
        requires
            self.sound(),
            self.ranks_nodes(*rank_all),
            graph.well_formed(),
            config.max_iterations > 0,
        ensures
            self.is_pagerank(graph, config, result.1@, result.0),
    {
        let ids = map_keys(&graph.directed);
        let first: u64 = (self.even)(ids.len());
        let mut list: Vec<u64> = Vec::new();
        while list.len() < ids.len()
            invariant
                list@.len() <= ids@.len(),
                forall|i: int| 0 <= i < list@.len() ==> (#[trigger] list@[i]) == first,
            decreases ids@.len() - list@.len(),
        {
            list.push(first);
        }
        let mut scores = assign(&ids, &list);
        proof {
            assert forall|id: NodeId| #[trigger] graph.nodes().contains(id) implies scores@[id]
                == first by {
                assert(ids@.to_set().contains(id));
                let i = choose|i: int| 0 <= i < ids@.len() && ids@[i] == id;
                assert(scores@[ids@[i]] == list@[i]);
            }
            assert(scores@ =~= self.scores_after(graph, ids@, 0));
        }
        let mut iterations: usize = 0;
        let mut change: u64 = 0;
        let mut converged = false;
        while iterations < config.max_iterations && !converged
            invariant
                self.sound(),
                self.ranks_nodes(*rank_all),
                graph.well_formed(),
                increasing(ids@),
                ids@.to_set() == graph.nodes(),
                config.max_iterations > 0,
                iterations <= config.max_iterations,
                scores@ == self.scores_after(graph, ids@, iterations as nat),
                scores@.dom() == graph.nodes(),
                iterations == 0 ==> !converged,
                iterations > 0 ==> change == self.change_in(graph, ids@, iterations as nat)
                    && converged == spec_f64_less(change, config.tolerance),
                forall|round: nat|
                    1 <= round < iterations ==> !spec_f64_less(
                        #[trigger] self.change_in(graph, ids@, round),
                        config.tolerance,
                    ),
            decreases config.max_iterations - iterations,
        {
            let (next, moved): (BTreeMap<NodeId, u64>, u64) = self.pass_scores(
                graph,
                &ids,
                &scores,
                rank_all,
            );
            iterations += 1;
            proof {
                assert(next@ == self.scores_after(graph, ids@, iterations as nat));
                assert(next@.dom() =~= graph.nodes());
            }
            scores = next;
            change = moved;
            converged = f64_less(change, config.tolerance);
        }
        let mut last: Vec<u64> = Vec::new();
        let mut i: usize = 0;
        while i < ids.len()
            invariant
                ids@.to_set() == graph.nodes(),
                scores@.dom() == graph.nodes(),
                i <= ids@.len(),
                last@.len() == i,
                forall|k: int| 0 <= k < i ==> #[trigger] last@[k] == scores@[ids@[k]],
            decreases ids@.len() - i,
        {
            proof {
                assert(ids@.contains(ids@[i as int]));
                assert(ids@.to_set().contains(ids@[i as int]));
            }
            last.push(*scores.get(&ids[i]).unwrap());
            i += 1;
        }
        let ranked = rank_nodes(&ids, &last);
        assert(scored_nodes(ids@, last@) =~= standings(ids@, scores@));
        (
            SubsetPageRankResult {
                scores: ranked,
                iterations,
                residual_l1: change,
                converged,
                examined_edges: graph.examined_edges,
            },
            Ghost(ids@),
        )
    }
}

/// Nodes with their scores, in the order of the nodes.
pub open spec fn standings(ids: Seq<NodeId>, scores: Map<NodeId, u64>) -> Seq<(NodeId, u64)> {
    Seq::new(ids.len(), |i: int| (ids[i], scores[ids[i]]))
}

/// Whether the nodes of a graph are listed in ascending order and each has a score.
pub open spec fn is_standing(
    graph: &GraphWorkspace,
    ids: Seq<NodeId>,
    scores: Map<NodeId, u64>,
) -> bool {
    &&& graph.well_formed()
    &&& increasing(ids)
    &&& ids.to_set() == graph.nodes()
    &&& scores.dom() == graph.nodes()
}

/// Gives each node the score in its place.
fn assign(ids: &Vec<NodeId>, list: &Vec<u64>) -> (scores: BTreeMap<NodeId, u64>)
    requires
        increasing(ids@),
        list@.len() == ids@.len(),
    ensures
        scores@.dom() == ids@.to_set(),
        forall|i: int| 0 <= i < ids@.len() ==> scores@[#[trigger] ids@[i]] == list@[i],
{
    let mut scores: BTreeMap<NodeId, u64> = BTreeMap::new();
    let mut i: usize = 0;
    assert(scores@.dom() =~= ids@.take(0).to_set());
    while i < ids.len()
        invariant
            increasing(ids@),
            list@.len() == ids@.len(),
            i <= ids@.len(),
            scores@.dom() == ids@.take(i as int).to_set(),
            forall|k: int| 0 <= k < i ==> scores@[#[trigger] ids@[k]] == list@[k],
        decreases ids@.len() - i,
    {
        let ghost before = scores@;
        scores.insert(ids[i], list[i]);
        proof {
            assert(ids@.take(i + 1) =~= ids@.take(i as int).push(ids@[i as int]));
            lemma_to_set_push(ids@.take(i as int), ids@[i as int]);
            assert(scores@.dom() =~= ids@.take(i + 1).to_set());
            assert forall|k: int| 0 <= k < i + 1 implies scores@[#[trigger] ids@[k]] == list@[k] by {
                if k < i {
                    assert(ids@[k] < ids@[i as int]);
                    assert(before[ids@[k]] == list@[k]);
                }
            }
        }
        i += 1;
    }
    assert(ids@.take(i as int) =~= ids@);
    scores
}

/// The settings of PageRank, double precision bit patterns where they are not counts.
#[derive(Debug, Clone, Copy, PartialEq, Eq, Structural)]
pub struct SubsetPageRankConfig {
    pub damping: u64,
    pub max_iterations: usize,
    pub tolerance: u64,
}

impl Default for SubsetPageRankConfig {
    fn default() -> (config: SubsetPageRankConfig)
        ensures
            config.damping == 0x3feb_3333_3333_3333u64,
            config.max_iterations == 100,
            config.tolerance == 0x3eb0_c6f7_a0b5_ed8du64,
    {
        SubsetPageRankConfig {
            damping: 0x3feb_3333_3333_3333,
            max_iterations: 100,
            tolerance: 0x3eb0_c6f7_a0b5_ed8d,
        }
    }
}

/// Whether the settings make sense: a damping from 0 to below 1, a positive finite tolerance and
/// at least one iteration.
pub open spec fn is_pagerank_config(config: SubsetPageRankConfig) -> bool {
    &&& spec_f64_less(0, config.damping) || spec_f64_equal(0, config.damping)
    &&& spec_f64_less(config.damping, F64_ONE)
    &&& f64_finite(config.tolerance)
    &&& spec_f64_less(0, config.tolerance)
    &&& config.max_iterations > 0
}

/// The scores of PageRank, the greatest first.
#[derive(Debug)]
pub struct SubsetPageRankResult {
    pub scores: Vec<(NodeId, u64)>,
    pub iterations: usize,
    pub residual_l1: u64,
    pub converged: bool,
    pub examined_edges: usize,
}

/// Whether `result` is what asking for the PageRank of some nodes within their subgraph comes to.
pub open spec fn is_pagerank_outcome<
    T: VectorType,
    E: Fn(usize) -> u64,
    B: Fn(u64, usize) -> u64,
    S: Fn(u64, usize) -> u64,
    P: Fn(u64, u64) -> u64,
    G: Fn(u64, u64) -> u64,
>(
    table: Table<T>,
    nodes: Set<NodeId>,
    config: SubsetPageRankConfig,
    label: Option<Seq<char>>,
    max_examined_edges: usize,
    arithmetic: RankArithmetic<E, B, S, P, G>,
    result: Result<SubsetPageRankResult>,
) -> bool {
    if !is_pagerank_config(config) {
        result matches Err(error) && is_query_execution(
            error,
            "PageRank 配置非法：damping 必须位于 [0,1)，迭代次数和 tolerance 必须为正 (Invalid PageRank configuration)"@,
        )
    } else if nodes.len() == 0 {
        result matches Ok(ranks) && ranks.scores@.len() == 0 && ranks.iterations == 0
            && ranks.residual_l1 == 0 && ranks.converged && ranks.examined_edges == 0
    } else {
        exists|edges: nat, scan: Option<GraphWorkspace>|
            {
                &&& is_edge_count(table, nodes, edges)
                &&& #[trigger] is_scan(table, nodes, label, max_examined_edges, edges, scan)
                &&& match scan {
                    Some(graph) => result matches Ok(ranks) && exists|ids: Seq<NodeId>| #[trigger]
                        arithmetic.is_pagerank(&graph, config, ids, ranks),
                    None => result matches Err(error) && is_query_execution(
                        error,
                        "PageRank 超过边访问预算 (PageRank exceeds edge examination budget)"@,
                    ),
                }
            }
    }
}

/// PageRank on the subgraph of some nodes: each node passes its score on to its successors in equal
/// parts, and what the nodes without successors hold is spread over all nodes.
pub fn subset_pagerank<
    T: VectorType,
    E: Fn(usize) -> u64,
    B: Fn(u64, usize) -> u64,
    S: Fn(u64, usize) -> u64,
    P: Fn(u64, u64) -> u64,
    G: Fn(u64, u64) -> u64,
>(
    mt: &MemTable<T>,
    nodes: &BTreeSet<NodeId>,
    config: SubsetPageRankConfig,
    label_filter: Option<&str>,
    max_examined_edges: usize,
    arithmetic: &RankArithmetic<E, B, S, P, G>,
) -> (result: Result<SubsetPageRankResult>)
    requires
        arithmetic.sound(),
    ensures
        is_pagerank_outcome(
            mt@,
            nodes@,
            config,
            label_view(label_filter),
            max_examined_edges,
            *arithmetic,
            result,
        ),
{
    let scan = || -> (scanned: Option<GraphWorkspace>)
        ensures
            exists|edges: nat| #[trigger]
                is_edge_count(mt@, nodes@, edges) && is_scan(
                    mt@,
                    nodes@,
                    label_view(label_filter),
                    max_examined_edges,
                    edges,
                    scanned,
                ),
        { scan_subgraph(mt, nodes, label_filter, max_examined_edges) };
    let rank_all = |
        graph: &GraphWorkspace,
        ids: &Vec<NodeId>,
        scores: &BTreeMap<NodeId, u64>,
        floor: u64,
    | -> (next: Vec<u64>)
        requires
            is_standing(graph, ids@, scores@),
        ensures
            arithmetic.are_next(graph, ids@, scores@, floor, next@),
        { arithmetic.rank_each(graph, ids, scores, floor) };
    rank_scanned(
        mt,
        nodes,
        config,
        label_filter,
        max_examined_edges,
        arithmetic,
        scan,
        rank_all,
    )
}

/// PageRank as [`subset_pagerank`] gives it, where `scan_all` looks at the edges of all the nodes
/// and `rank_all` gives the scores of all nodes after a round, in whatever order or at the same
/// time.
pub fn subset_pagerank_parallel<
    T: VectorType,
    E: Fn(usize) -> u64,
    B: Fn(u64, usize) -> u64,
    S: Fn(u64, usize) -> u64,
    P: Fn(u64, u64) -> u64,
    G: Fn(u64, u64) -> u64,
    C: Fn(&Vec<NodeId>) -> Vec<NodeScan>,
    R: Fn(&GraphWorkspace, &Vec<NodeId>, &BTreeMap<NodeId, u64>, u64) -> Vec<u64>,
>(
    mt: &MemTable<T>,
    nodes: &BTreeSet<NodeId>,
    config: SubsetPageRankConfig,
    label_filter: Option<&str>,
    max_examined_edges: usize,
    arithmetic: &RankArithmetic<E, B, S, P, G>,
    scan_all: C,
    rank_all: R,
) -> (result: Result<SubsetPageRankResult>)
    requires
        arithmetic.sound(),
        scans_nodes(mt@, nodes@, label_view(label_filter), scan_all),
        arithmetic.ranks_nodes(rank_all),
    ensures
        is_pagerank_outcome(
            mt@,
            nodes@,
            config,
            label_view(label_filter),
            max_examined_edges,
            *arithmetic,
            result,
        ),
{
    let scan = || -> (scanned: Option<GraphWorkspace>)
        ensures
            exists|edges: nat| #[trigger]
                is_edge_count(mt@, nodes@, edges) && is_scan(
                    mt@,
                    nodes@,
                    label_view(label_filter),
                    max_examined_edges,
                    edges,
                    scanned,
                ),
        { scan_subgraph_parallel(mt, nodes, label_filter, max_examined_edges, &scan_all) };
    rank_scanned(
        mt,
        nodes,
        config,
        label_filter,
        max_examined_edges,
        arithmetic,
        scan,
        rank_all,
    )
}

/// PageRank on the subgraph that `scan` gives, with the scores that `rank_all` gives.
fn rank_scanned<
    T: VectorType,
    E: Fn(usize) -> u64,
    B: Fn(u64, usize) -> u64,
    S: Fn(u64, usize) -> u64,
    P: Fn(u64, u64) -> u64,
    G: Fn(u64, u64) -> u64,
    C: Fn() -> Option<GraphWorkspace>,
    R: Fn(&GraphWorkspace, &Vec<NodeId>, &BTreeMap<NodeId, u64>, u64) -> Vec<u64>,
>(
    mt: &MemTable<T>,
    nodes: &BTreeSet<NodeId>,
    config: SubsetPageRankConfig,
    label_filter: Option<&str>,
    max_examined_edges: usize,
    arithmetic: &RankArithmetic<E, B, S, P, G>,
    scan: C,
    rank_all: R,
) -> (result: Result<SubsetPageRankResult>)
    requires
        arithmetic.sound(),
        arithmetic.ranks_nodes(rank_all),
        call_requires(scan, ()),
        forall|scanned: Option<GraphWorkspace>|
            call_ensures(scan, (), scanned) ==> exists|edges: nat| #[trigger]
                is_edge_count(mt@, nodes@, edges) && is_scan(
                    mt@,
                    nodes@,
                    label_view(label_filter),
                    max_examined_edges,
                    edges,
                    scanned,
                ),
    ensures
        is_pagerank_outcome(
            mt@,
            nodes@,
            config,
            label_view(label_filter),
            max_examined_edges,
            *arithmetic,
            result,
        ),
{
    if !f64_less_equal(0, config.damping) || !f64_less(config.damping, F64_ONE) || !f64_is_finite(
        config.tolerance,
    ) || !f64_less(0, config.tolerance) || config.max_iterations == 0 {
        return Err(
            query_execution(
                "PageRank 配置非法：damping 必须位于 [0,1)，迭代次数和 tolerance 必须为正 (Invalid PageRank configuration)",
            ),
        );
    }
    if nodes.len() == 0 {
        return Ok(
            SubsetPageRankResult {
                scores: Vec::new(),
                iterations: 0,
                residual_l1: 0,
                converged: true,
                examined_edges: 0,
            },
        );
    }
    let scanned = scan();
    let ghost whole = scanned;
    let ghost edges = choose|edges: nat| #[trigger]
        is_edge_count(mt@, nodes@, edges) && is_scan(
            mt@,
            nodes@,
            label_view(label_filter),
            max_examined_edges,
            edges,
            scanned,
        );
    proof {
        assert(is_edge_count(mt@, nodes@, edges));
        assert(is_scan(
            mt@,
            nodes@,
            label_view(label_filter),
            max_examined_edges,
            edges,
            whole,
        ));
    }
    let ghost mut listed: Seq<NodeId> = Seq::empty();
    let result = match scanned {
        Some(graph) => {
            let (ranks, ids) = arithmetic.rank_graph(&graph, config, &rank_all);
            proof {
                listed = ids@;
            }
            Ok(ranks)
        },
        None => Err(
            query_execution("PageRank 超过边访问预算 (PageRank exceeds edge examination budget)"),
        ),
    };
    proof {
        if let Some(graph) = whole {
            assert(arithmetic.is_pagerank(&graph, config, listed, result->Ok_0));
        }
    }
    result
}

impl<
    E: Fn(usize) -> u64,
    B: Fn(u64, usize) -> u64,
    S: Fn(u64, usize) -> u64,
    P: Fn(u64, u64) -> u64,
    G: Fn(u64, u64) -> u64,
> RankArithmetic<E, B, S, P, G> {
    /// Subgraphs with the same lists have the same nodes without successors.
    proof fn lemma_dangling_agrees(
        &self,
        a: &GraphWorkspace,
        b: &GraphWorkspace,
        ids: Seq<NodeId>,
        scores: Map<NodeId, u64>,
        count: int,
    )
        requires
            same_lists(a, b),
            ids.to_set() == a.nodes(),
            count <= ids.len(),
        ensures
            self.dangling(a, ids, scores, count) == self.dangling(b, ids, scores, count),
        decreases count,
    {
        if count > 0 {
            self.lemma_dangling_agrees(a, b, ids, scores, count - 1);
            assert(ids.contains(ids[count - 1]));
            assert(ids.to_set().contains(ids[count - 1]));
        }
    }

    /// In subgraphs with the same lists nodes pass on the same.
    proof fn lemma_received_agrees(
        &self,
        a: &GraphWorkspace,
        b: &GraphWorkspace,
        scores: Map<NodeId, u64>,
        floor: u64,
        sources: Seq<NodeId>,
        count: int,
    )
        requires
            same_lists(a, b),
            forall|i: int| 0 <= i < sources.len() ==> a.nodes().contains(#[trigger] sources[i]),
            count <= sources.len(),
        ensures
            self.received(a, scores, floor, sources, count) == self.received(
                b,
                scores,
                floor,
                sources,
                count,
            ),
        decreases count,
    {
        if count > 0 {
            self.lemma_received_agrees(a, b, scores, floor, sources, count - 1);
            assert(a.nodes().contains(sources[count - 1]));
        }
    }

    /// Subgraphs with the same lists have the same scores after each round.
    proof fn lemma_scores_agree(
        &self,
        a: &GraphWorkspace,
        b: &GraphWorkspace,
        ids: Seq<NodeId>,
        rounds: nat,
    )
        requires
            a.well_formed(),
            same_lists(a, b),
            ids.to_set() == a.nodes(),
        ensures
            self.scores_after(a, ids, rounds) == self.scores_after(b, ids, rounds),
        decreases rounds,
    {
        if rounds == 0 {
            assert(self.scores_after(a, ids, 0) =~= self.scores_after(b, ids, 0));
        } else {
            self.lemma_scores_agree(a, b, ids, (rounds - 1) as nat);
            let scores = self.scores_after(a, ids, (rounds - 1) as nat);
            self.lemma_dangling_agrees(a, b, ids, scores, ids.len() as int);
            let floor = self.round_floor(a, ids, scores);
            assert forall|id: NodeId| a.nodes().contains(id) implies self.next_score(
                a,
                scores,
                floor,
                id,
            ) == self.next_score(b, scores, floor, id) by {
                let sources = a.reverse@[id]@;
                assert(lists(sources, |from: NodeId| a.has(from, id)));
                assert forall|i: int| 0 <= i < sources.len() implies a.nodes().contains(
                    #[trigger] sources[i],
                ) by {
                    assert(sources.contains(sources[i]));
                    assert(a.has(sources[i], id));
                }
                self.lemma_received_agrees(a, b, scores, floor, sources, sources.len() as int);
            }
            assert(self.next_scores(a, ids, scores) =~= self.next_scores(b, ids, scores));
        }
    }

    /// Subgraphs with the same lists have the same PageRank.
    proof fn lemma_pagerank_agrees(
        &self,
        a: &GraphWorkspace,
        b: &GraphWorkspace,
        config: SubsetPageRankConfig,
        ids: Seq<NodeId>,
        others: Seq<NodeId>,
        one: SubsetPageRankResult,
        other: SubsetPageRankResult,
    )
        requires
            a.well_formed(),
            same_lists(a, b),
            self.is_pagerank(a, config, ids, one),
            self.is_pagerank(b, config, others, other),
        ensures
            one.scores@ == other.scores@,
            one.iterations == other.iterations,
            one.residual_l1 == other.residual_l1,
            one.converged == other.converged,
            one.examined_edges == other.examined_edges,
    {
        lemma_increasing_unique(ids, others);
        let m = one.iterations as nat;
        let n = other.iterations as nat;
        assert forall|round: nat| round >= 1 implies #[trigger] self.change_in(a, ids, round)
            == self.change_in(b, ids, round) by {
            self.lemma_scores_agree(a, b, ids, (round - 1) as nat);
            self.lemma_scores_agree(a, b, ids, round);
        }
        assert(self.change_in(a, ids, m) == self.change_in(b, ids, m));
        assert(self.change_in(a, ids, n) == self.change_in(b, ids, n));
        self.lemma_scores_agree(a, b, ids, m);
    }
}

/// PageRank does not depend on how the edges were looked at, nor on the order in which the scores
/// of a round were found: two answers agree.
pub proof fn law_pagerank_outcomes_agree<
    T: VectorType,
    E: Fn(usize) -> u64,
    B: Fn(u64, usize) -> u64,
    S: Fn(u64, usize) -> u64,
    P: Fn(u64, u64) -> u64,
    G: Fn(u64, u64) -> u64,
>(
    table: Table<T>,
    nodes: Set<NodeId>,
    config: SubsetPageRankConfig,
    label: Option<Seq<char>>,
    max_examined_edges: usize,
    arithmetic: RankArithmetic<E, B, S, P, G>,
    one: Result<SubsetPageRankResult>,
    other: Result<SubsetPageRankResult>,
)
    requires
        is_pagerank_outcome(table, nodes, config, label, max_examined_edges, arithmetic, one),
        is_pagerank_outcome(table, nodes, config, label, max_examined_edges, arithmetic, other),
    ensures
        match (one, other) {
            (Ok(a), Ok(b)) => {
                &&& a.scores@ == b.scores@
                &&& a.iterations == b.iterations
                &&& a.residual_l1 == b.residual_l1
                &&& a.converged == b.converged
                &&& a.examined_edges == b.examined_edges
            },
            (Err(_), Err(_)) => true,
            _ => false,
        },
{
    if is_pagerank_config(config) && nodes.len() == 0 {
        assert(one->Ok_0.scores@ =~= other->Ok_0.scores@);
    } else if is_pagerank_config(config) {
        let (m, a) = choose|edges: nat, scan: Option<GraphWorkspace>|
            {
                &&& is_edge_count(table, nodes, edges)
                &&& #[trigger] is_scan(table, nodes, label, max_examined_edges, edges, scan)
                &&& match scan {
                    Some(graph) => one matches Ok(ranks) && exists|ids: Seq<NodeId>| #[trigger]
                        arithmetic.is_pagerank(&graph, config, ids, ranks),
                    None => one matches Err(error) && is_query_execution(
                        error,
                        "PageRank 超过边访问预算 (PageRank exceeds edge examination budget)"@,
                    ),
                }
            };
        let (n, b) = choose|edges: nat, scan: Option<GraphWorkspace>|
            {
                &&& is_edge_count(table, nodes, edges)
                &&& #[trigger] is_scan(table, nodes, label, max_examined_edges, edges, scan)
                &&& match scan {
                    Some(graph) => other matches Ok(ranks) && exists|ids: Seq<NodeId>| #[trigger]
                        arithmetic.is_pagerank(&graph, config, ids, ranks),
                    None => other matches Err(error) && is_query_execution(
                        error,
                        "PageRank 超过边访问预算 (PageRank exceeds edge examination budget)"@,
                    ),
                }
            };
        law_scans_agree(table, nodes, label, max_examined_edges, m, a, n, b);
        if a is Some {
            let ids = choose|ids: Seq<NodeId>| #[trigger]
                arithmetic.is_pagerank(&a->0, config, ids, one->Ok_0);
            let others = choose|ids: Seq<NodeId>| #[trigger]
                arithmetic.is_pagerank(&b->0, config, ids, other->Ok_0);
            arithmetic.lemma_pagerank_agrees(
                &a->0,
                &b->0,
                config,
                ids,
                others,
                one->Ok_0,
                other->Ok_0,
            );
        }
    }
}

} // verus!
