//! Local moving: each node of a weighted graph goes to the community in its neighbourhood that
//! gains most.
use std::collections::BTreeMap;
use vstd::prelude::*;

use crate::collections::map_keys;
use crate::graph::leiden::WeightedGraph;
use crate::node::NodeId;

verus! {

/// The operations on double precision bit patterns that local moving needs: sum and difference,
/// what a node with a degree gains in a community from the weight of its ties there and the
/// degrees there, given the sum of all degrees, whether a gain is better than the best so far (the
/// last argument says whether the community has a smaller name), and whether a sum of degrees is
/// too small to go on.
pub struct MoveArithmetic<P, M, G, B, N> {
    pub plus: P,
    pub minus: M,
    pub gain: G,
    pub better: B,
    pub negligible: N,
}

/// Which community each node is in, and the degrees in each community.
pub struct Partition {
    pub communities: Map<NodeId, NodeId>,
    pub totals: Map<NodeId, u64>,
}

/// The value of a map, and zero where it has none.
pub open spec fn value_or_zero(values: Map<NodeId, u64>, id: NodeId) -> u64 {
    if values.contains_key(id) {
        values[id]
    } else {
        0
    }
}

/// The community of a node; one that is in none is its own.
pub open spec fn community_of(communities: Map<NodeId, NodeId>, id: NodeId) -> NodeId {
    if communities.contains_key(id) {
        communities[id]
    } else {
        id
    }
}

impl<
    P: Fn(u64, u64) -> u64,
    M: Fn(u64, u64) -> u64,
    G: Fn(u64, u64, u64, u64) -> u64,
    B: Fn(u64, u64, bool) -> bool,
    N: Fn(u64) -> bool,
> MoveArithmetic<P, M, G, B, N> {
    /// Whether each operation can always be done and gives the same result for the same operands.
    pub open spec fn sound(&self) -> bool {
        &&& forall|a: u64, b: u64| call_requires(self.plus, (a, b))
        &&& forall|a: u64, b: u64, c: u64|
            call_ensures(self.plus, (a, b), c) ==> c == self.sum(a, b)
        &&& forall|a: u64, b: u64| call_requires(self.minus, (a, b))
        &&& forall|a: u64, b: u64, c: u64|
            call_ensures(self.minus, (a, b), c) ==> c == self.difference(a, b)
        &&& forall|inside: u64, degree: u64, total: u64, all: u64|
            call_requires(self.gain, (inside, degree, total, all))
        &&& forall|inside: u64, degree: u64, total: u64, all: u64, c: u64|
            call_ensures(self.gain, (inside, degree, total, all), c) ==> c == self.gained(
                inside,
                degree,
                total,
                all,
            )
        &&& forall|a: u64, b: u64, smaller: bool| call_requires(self.better, (a, b, smaller))
        &&& forall|a: u64, b: u64, smaller: bool, c: bool|
            call_ensures(self.better, (a, b, smaller), c) ==> c == self.beats(a, b, smaller)
        &&& forall|a: u64| call_requires(self.negligible, (a,))
        &&& forall|a: u64, c: bool|
            call_ensures(self.negligible, (a,), c) ==> c == self.is_negligible(a)
    }

    /// The sum of two numbers.
    pub open spec fn sum(&self, a: u64, b: u64) -> u64 {
        choose|c: u64| call_ensures(self.plus, (a, b), c)
    }

    /// The difference of two numbers.
    pub open spec fn difference(&self, a: u64, b: u64) -> u64 {
        choose|c: u64| call_ensures(self.minus, (a, b), c)
    }

    /// What a node gains in a community.
    pub open spec fn gained(&self, inside: u64, degree: u64, total: u64, all: u64) -> u64 {
        choose|c: u64| call_ensures(self.gain, (inside, degree, total, all), c)
    }

    /// Whether a gain is better than the best so far.
    pub open spec fn beats(&self, a: u64, b: u64, smaller: bool) -> bool {
        choose|c: bool| call_ensures(self.better, (a, b, smaller), c)
    }

    /// Whether a sum of degrees is too small to go on.
    pub open spec fn is_negligible(&self, a: u64) -> bool {
        choose|c: bool| call_ensures(self.negligible, (a,), c)
    }

    /// The weights of ties, added up.
    pub open spec fn degree(&self, ties: Seq<(NodeId, u64)>) -> u64
        decreases ties.len(),
    {
        if ties.len() == 0 {
            0
        } else {
            self.sum(self.degree(ties.drop_last()), ties.last().1)
        }
    }

    /// The degrees of the first nodes, added up.
    pub open spec fn all_degrees(&self, graph: &WeightedGraph, ids: Seq<NodeId>) -> u64
        decreases ids.len(),
    {
        if ids.len() == 0 {
            0
        } else {
            self.sum(
                self.all_degrees(graph, ids.drop_last()),
                self.degree(graph.ties@[ids.last()]@),
            )
        }
    }

    /// The weights of ties by the community that they lead to, added up.
    pub open spec fn inside(
        &self,
        communities: Map<NodeId, NodeId>,
        ties: Seq<(NodeId, u64)>,
    ) -> Map<NodeId, u64>
        decreases ties.len(),
    {
        if ties.len() == 0 {
            Map::empty()
        } else {
            let before = self.inside(communities, ties.drop_last());
            let community = community_of(communities, ties.last().0);
            before.insert(
                community,
                self.sum(value_or_zero(before, community), ties.last().1),
            )
        }
    }

    /// The best of the first communities, starting from one with its gain.
    pub open spec fn best(
        &self,
        weights: Map<NodeId, u64>,
        totals: Map<NodeId, u64>,
        degree: u64,
        all: u64,
        candidates: Seq<NodeId>,
        start: (NodeId, u64),
    ) -> (NodeId, u64)
        decreases candidates.len(),
    {
        if candidates.len() == 0 {
            start
        } else {
            let before = self.best(weights, totals, degree, all, candidates.drop_last(), start);
            let community = candidates.last();
            let gain = self.gained(
                weights[community],
                degree,
                value_or_zero(totals, community),
                all,
            );
            if self.beats(gain, before.1, community < before.0) {
                (community, gain)
            } else {
                before
            }
        }
    }

    /// Whether a node moves in this way: it leaves its community, and of that one and the
    /// candidates, those of its ties in ascending order, it joins the best.
    pub open spec fn joins_best(
        &self,
        graph: &WeightedGraph,
        all: u64,
        id: NodeId,
        candidates: Seq<NodeId>,
        before: Partition,
        after: Partition,
    ) -> bool {
        let ties = graph.ties@[id]@;
        let degree = self.degree(ties);
        let current = community_of(before.communities, id);
        let weights = self.inside(before.communities, ties);
        let left = before.totals.insert(
            current,
            self.difference(value_or_zero(before.totals, current), degree),
        );
        let start = (
            current,
            self.gained(value_or_zero(weights, current), degree, left[current], all),
        );
        let chosen = self.best(weights, left, degree, all, candidates, start);
        &&& crate::collections::increasing(candidates)
        &&& candidates.to_set() == weights.dom()
        &&& after.communities == before.communities.insert(id, chosen.0)
        &&& after.totals == left.insert(
            chosen.0,
            self.sum(value_or_zero(left, chosen.0), degree),
        )
    }

    /// Whether a node moves in this way: it leaves its community and joins the best.
    pub open spec fn moves(
        &self,
        graph: &WeightedGraph,
        all: u64,
        id: NodeId,
        before: Partition,
        after: Partition,
    ) -> bool {
        exists|candidates: Seq<NodeId>| #[trigger]
            self.joins_best(graph, all, id, candidates, before, after)
    }

    /// Whether the states of a sweep follow from each other, one node after the other.
    pub open spec fn is_sweep(
        &self,
        graph: &WeightedGraph,
        all: u64,
        ids: Seq<NodeId>,
        states: Seq<Partition>,
    ) -> bool {
        &&& states.len() == ids.len() + 1
        &&& forall|i: int|
            0 <= i < ids.len() ==> self.moves(
                graph,
                all,
                #[trigger] ids[i],
                states[i],
                states[i + 1],
            )
    }

    /// Whether one sweep leads from one partition to another.
    pub open spec fn sweeps(
        &self,
        graph: &WeightedGraph,
        all: u64,
        ids: Seq<NodeId>,
        before: Partition,
        after: Partition,
    ) -> bool {
        exists|states: Seq<Partition>| #[trigger]
            self.is_sweep(graph, all, ids, states) && states[0] == before && states.last() == after
    }

    /// What local moving starts with: each node is its own community.
    pub open spec fn is_start(
        &self,
        graph: &WeightedGraph,
        ids: Seq<NodeId>,
        start: Partition,
    ) -> bool {
        &&& start.communities.dom() == graph.ties@.dom()
        &&& start.totals.dom() == graph.ties@.dom()
        &&& forall|id: NodeId| #[trigger]
            start.communities.contains_key(id) ==> start.communities[id] == id
        &&& forall|id: NodeId| #[trigger]
            start.totals.contains_key(id) ==> start.totals[id] == self.degree(graph.ties@[id]@)
    }

    /// Whether communities are those after local moving: after `limit` sweeps, or after the first
    /// that moved no node. Where there are hardly any degrees, each node stays its own community.
    pub open spec fn is_moved(
        &self,
        graph: &WeightedGraph,
        limit: usize,
        communities: Map<NodeId, NodeId>,
    ) -> bool {
        exists|ids: Seq<NodeId>, rounds: Seq<Partition>|
            {
                let all = self.all_degrees(graph, ids);
                &&& crate::collections::increasing(ids)
                &&& ids.to_set() == graph.ties@.dom()
                &&& #[trigger] self.is_run(graph, ids, rounds)
                &&& communities == rounds.last().communities
                &&& if self.is_negligible(all) {
                    rounds.len() == 1
                } else {
                    &&& rounds.len() <= limit + 1
                    &&& rounds.len() == limit + 1 || (rounds.len() > 1 && rounds.last().communities
                        == rounds[rounds.len() - 2].communities)
                    &&& forall|k: int|
                        0 < k < rounds.len() - 1 ==> (#[trigger] rounds[k]).communities
                            != rounds[k - 1].communities
                }
            }
    }

    /// Whether partitions follow from each other by sweeps, from the start.
    pub open spec fn is_run(
        &self,
        graph: &WeightedGraph,
        ids: Seq<NodeId>,
        rounds: Seq<Partition>,
    ) -> bool {
        &&& rounds.len() > 0
        &&& self.is_start(graph, ids, rounds[0])
        &&& forall|k: int|
            0 <= k < rounds.len() - 1 ==> self.sweeps(
                graph,
                self.all_degrees(graph, ids),
                ids,
                #[trigger] rounds[k],
                rounds[k + 1],
            )
    }

    /// The weights of ties, added up.
    fn find_degree(&self, ties: &Vec<(NodeId, u64)>) -> (degree: u64)
        requires
            self.sound(),
        ensures
            degree == self.degree(ties@),
    {
        let mut degree: u64 = 0;
        let mut i: usize = 0;
        assert(ties@.take(0) =~= Seq::<(NodeId, u64)>::empty());
        while i < ties.len()
            invariant
                self.sound(),
                i <= ties@.len(),
                degree == self.degree(ties@.take(i as int)),
            decreases ties@.len() - i,
        {
            proof {
                assert(ties@.take(i + 1).drop_last() =~= ties@.take(i as int));
            }
            degree = (self.plus)(degree, ties[i].1);
            i += 1;
        }
        assert(ties@.take(i as int) =~= ties@);
        degree
    }

    /// The weights of ties by the community that they lead to, added up.
    fn find_inside(
        &self,
        communities: &BTreeMap<NodeId, NodeId>,
        ties: &Vec<(NodeId, u64)>,
    ) -> (weights: BTreeMap<NodeId, u64>)
        requires
            self.sound(),
        ensures
            weights@ == self.inside(communities@, ties@),
    {
        let mut weights: BTreeMap<NodeId, u64> = BTreeMap::new();
        let mut i: usize = 0;
        assert(weights@ =~= Map::empty());
        assert(ties@.take(0) =~= Seq::<(NodeId, u64)>::empty());
        while i < ties.len()
            invariant
                self.sound(),
                i <= ties@.len(),
                weights@ == self.inside(communities@, ties@.take(i as int)),
            decreases ties@.len() - i,
        {
            let (other, weight): (NodeId, u64) = ties[i];
            proof {
                assert(ties@.take(i + 1).drop_last() =~= ties@.take(i as int));
                assert(ties@.take(i + 1).last() == (other, weight));
            }
            let community: NodeId = match communities.get(&other) {
                Some(name) => *name,
                None => other,
            };
            let held: u64 = match weights.get(&community) {
                Some(sum) => *sum,
                None => 0,
            };
            let sum: u64 = (self.plus)(held, weight);
            weights.insert(community, sum);
            i += 1;
        }
        assert(ties@.take(i as int) =~= ties@);
        weights
    }

    /// Moves one node, and says whether it changed its community.
    fn move_node(
        &self,
        graph: &WeightedGraph,
        all: u64,
        id: NodeId,
        communities: &mut BTreeMap<NodeId, NodeId>,
        totals: &mut BTreeMap<NodeId, u64>,
    ) -> (changed: bool)
        requires
            self.sound(),
            graph.ties@.contains_key(id),
        ensures
            self.moves(
                graph,
                all,
                id,
                (Partition { communities: old(communities)@, totals: old(totals)@ }),
                (Partition { communities: final(communities)@, totals: final(totals)@ }),
            ),
            changed == (community_of(old(communities)@, id) != community_of(
                final(communities)@,
                id,
            )),
    {
        let ghost before = Partition { communities: communities@, totals: totals@ };
        let ties = graph.ties.get(&id).unwrap();
        let degree: u64 = self.find_degree(ties);
        let current: NodeId = match communities.get(&id) {
            Some(name) => *name,
            None => id,
        };
        let weights = self.find_inside(communities, ties);
        let held: u64 = match totals.get(&current) {
            Some(total) => *total,
            None => 0,
        };
        let without: u64 = (self.minus)(held, degree);
        totals.insert(current, without);
        let ghost left = totals@;
        let inside: u64 = match weights.get(&current) {
            Some(weight) => *weight,
            None => 0,
        };
        let gain: u64 = (self.gain)(inside, degree, without, all);
        let ghost start = (current, gain);
        let mut best: NodeId = current;
        let mut best_gain: u64 = gain;
        let candidates = map_keys(&weights);
        let mut i: usize = 0;
        assert(candidates@.take(0) =~= Seq::<NodeId>::empty());
        while i < candidates.len()
            invariant
                self.sound(),
                i <= candidates@.len(),
                candidates@.to_set() == weights@.dom(),
                totals@ == left,
                (best, best_gain) == self.best(
                    weights@,
                    left,
                    degree,
                    all,
                    candidates@.take(i as int),
                    start,
                ),
            decreases candidates@.len() - i,
        {
            let community: NodeId = candidates[i];
            proof {
                assert(candidates@.contains(community));
                assert(candidates@.to_set().contains(community));
                assert(candidates@.take(i + 1).drop_last() =~= candidates@.take(i as int));
            }
            let weight: u64 = *weights.get(&community).unwrap();
            let total: u64 = match totals.get(&community) {
                Some(total) => *total,
                None => 0,
            };
            let value: u64 = (self.gain)(weight, degree, total, all);
            if (self.better)(value, best_gain, community < best) {
                best = community;
                best_gain = value;
            }
            i += 1;
        }
        assert(candidates@.take(i as int) =~= candidates@);
        communities.insert(id, best);
        let total: u64 = match totals.get(&best) {
            Some(total) => *total,
            None => 0,
        };
        let joined: u64 = (self.plus)(total, degree);
        totals.insert(best, joined);
        proof {
            let after = Partition { communities: communities@, totals: totals@ };
            assert(self.joins_best(graph, all, id, candidates@, before, after));
            assert(self.moves(graph, all, id, before, after));
        }
        best != current
    }

    /// Moves each node to the community that gains most, until a sweep moves none, at most `limit`
    /// times.
    pub fn local_moving(&self, graph: &WeightedGraph, limit: usize) -> (communities: BTreeMap<
        NodeId,
        NodeId,
    >)
        requires
            self.sound(),
        ensures
            self.is_moved(graph, limit, communities@),
            communities@.dom() == graph.ties@.dom(),
    {
        let ids = map_keys(&graph.ties);
        let mut communities: BTreeMap<NodeId, NodeId> = BTreeMap::new();
        let mut totals: BTreeMap<NodeId, u64> = BTreeMap::new();
        let mut all: u64 = 0;
        let mut i: usize = 0;
        assert(ids@.take(0) =~= Seq::<NodeId>::empty());
        while i < ids.len()
            invariant
                self.sound(),
                i <= ids@.len(),
                ids@.to_set() == graph.ties@.dom(),
                all == self.all_degrees(graph, ids@.take(i as int)),
                forall|id: NodeId| #[trigger]
                    communities@.contains_key(id) <==> ids@.take(i as int).contains(id),
                forall|id: NodeId| #[trigger]
                    totals@.contains_key(id) <==> ids@.take(i as int).contains(id),
                forall|id: NodeId| #[trigger]
                    communities@.contains_key(id) ==> communities@[id] == id,
                forall|id: NodeId| #[trigger]
                    totals@.contains_key(id) ==> totals@[id] == self.degree(graph.ties@[id]@),
            decreases ids@.len() - i,
        {
            let id: NodeId = ids[i];
            proof {
                assert(ids@.contains(id));
                assert(ids@.to_set().contains(id));
                assert(ids@.take(i + 1).drop_last() =~= ids@.take(i as int));
                assert(ids@.take(i + 1) =~= ids@.take(i as int).push(id));
                assert forall|other: NodeId| #[trigger]
                    ids@.take(i + 1).contains(other) <==> ids@.take(i as int).contains(other)
                        || other == id by {
                    crate::collections::lemma_contains_push(ids@.take(i as int), id, other);
                }
            }
            let degree: u64 = self.find_degree(graph.ties.get(&id).unwrap());
            communities.insert(id, id);
            totals.insert(id, degree);
            all = (self.plus)(all, degree);
            i += 1;
        }
        let ghost mut rounds: Seq<Partition> = seq![
            Partition { communities: communities@, totals: totals@ },
        ];
        proof {
            assert(ids@.take(i as int) =~= ids@);
            assert forall|id: NodeId| ids@.contains(id) <==> graph.ties@.dom().contains(id) by {
                assert(ids@.to_set().contains(id) <==> ids@.contains(id));
            }
            assert(communities@.dom() =~= graph.ties@.dom());
            assert(totals@.dom() =~= graph.ties@.dom());
            assert(self.is_run(graph, ids@, rounds));
        }
        if (self.negligible)(all) {
            return communities;
        }
        let mut round: usize = 0;
        let mut going = true;
        while round < limit && going
            invariant
                self.sound(),
                round <= limit,
                crate::collections::increasing(ids@),
                ids@.to_set() == graph.ties@.dom(),
                all == self.all_degrees(graph, ids@),
                rounds.len() == round + 1,
                self.is_run(graph, ids@, rounds),
                rounds.last().communities == communities@,
                rounds.last().totals == totals@,
                communities@.dom() == graph.ties@.dom(),
                forall|k: int|
                    0 < k < rounds.len() - 1 ==> (#[trigger] rounds[k]).communities
                        != rounds[k - 1].communities,
                going && round > 0 ==> rounds[round as int].communities
                    != rounds[round - 1].communities,
                !going ==> round > 0 && rounds[round as int].communities
                    == rounds[round - 1].communities,
            decreases limit - round,
        {
            let ghost before = Partition { communities: communities@, totals: totals@ };
            let changed = self.sweep(graph, all, &ids, &mut communities, &mut totals);
            proof {
                let after = Partition { communities: communities@, totals: totals@ };
                let earlier = rounds;
                rounds = rounds.push(after);
                assert forall|k: int| 0 <= k < rounds.len() - 1 implies self.sweeps(
                    graph,
                    all,
                    ids@,
                    #[trigger] rounds[k],
                    rounds[k + 1],
                ) by {
                    if k < earlier.len() - 1 {
                        assert(rounds[k] == earlier[k] && rounds[k + 1] == earlier[k + 1]);
                    } else {
                        assert(rounds[k] == before && rounds[k + 1] == after);
                    }
                }
                assert forall|k: int| 0 < k < rounds.len() - 1 implies (
                #[trigger] rounds[k]).communities != rounds[k - 1].communities by {
                    assert(rounds[k] == earlier[k] && rounds[k - 1] == earlier[k - 1]);
                }
                assert(rounds[0] == earlier[0]);
            }
            going = changed;
            round += 1;
        }
        communities
    }

    /// Moves each node once, in ascending order, and says whether any changed its community.
    fn sweep(
        &self,
        graph: &WeightedGraph,
        all: u64,
        ids: &Vec<NodeId>,
        communities: &mut BTreeMap<NodeId, NodeId>,
        totals: &mut BTreeMap<NodeId, u64>,
    ) -> (changed: bool)
        requires
            self.sound(),
            crate::collections::increasing(ids@),
            ids@.to_set() == graph.ties@.dom(),
            old(communities)@.dom() == graph.ties@.dom(),
        ensures
            self.sweeps(
                graph,
                all,
                ids@,
                (Partition { communities: old(communities)@, totals: old(totals)@ }),
                (Partition { communities: final(communities)@, totals: final(totals)@ }),
            ),
            final(communities)@.dom() == graph.ties@.dom(),
            changed == (final(communities)@ != old(communities)@),
    {
        let ghost start = Partition { communities: communities@, totals: totals@ };
        let ghost mut states: Seq<Partition> = seq![start];
        let mut changed = false;
        let mut i: usize = 0;
        while i < ids.len()
            invariant
                self.sound(),
                i <= ids@.len(),
                crate::collections::increasing(ids@),
                ids@.to_set() == graph.ties@.dom(),
                start.communities.dom() == graph.ties@.dom(),
                communities@.dom() == graph.ties@.dom(),
                states.len() == i + 1,
                states[0] == start,
                states.last() == (Partition { communities: communities@, totals: totals@ }),
                forall|k: int|
                    0 <= k < i ==> self.moves(
                        graph,
                        all,
                        #[trigger] ids@[k],
                        states[k],
                        states[k + 1],
                    ),
                forall|k: int|
                    i <= k < ids@.len() ==> communities@[#[trigger] ids@[k]]
                        == start.communities[ids@[k]],
                !changed ==> communities@ == start.communities,
                changed ==> exists|k: int|
                    0 <= k < i && communities@[#[trigger] ids@[k]] != start.communities[ids@[k]],
            decreases ids@.len() - i,
        {
            let id: NodeId = ids[i];
            let ghost before = Partition { communities: communities@, totals: totals@ };
            let ghost earlier = states;
            proof {
                assert(ids@.contains(id));
                assert(ids@.to_set().contains(id));
            }
            let moved = self.move_node(graph, all, id, communities, totals);
            proof {
                let after = Partition { communities: communities@, totals: totals@ };
                states = states.push(after);
                assert(after.communities.dom() =~= before.communities.dom());
                assert forall|k: int| 0 <= k < i + 1 implies self.moves(
                    graph,
                    all,
                    #[trigger] ids@[k],
                    states[k],
                    states[k + 1],
                ) by {
                    if k < i {
                        assert(states[k] == earlier[k] && states[k + 1] == earlier[k + 1]);
                    }
                }
                assert forall|k: int| 0 <= k < ids@.len() && k != i implies (
                #[trigger] communities@[ids@[k]]) == before.communities[ids@[k]] by {
                    if k < i {
                        assert(ids@[k] < ids@[i as int]);
                    } else {
                        assert(ids@[i as int] < ids@[k]);
                    }
                }
                if changed {
                    let k = choose|k: int|
                        0 <= k < i && before.communities[#[trigger] ids@[k]]
                            != start.communities[ids@[k]];
                    assert(communities@[ids@[k]] != start.communities[ids@[k]]);
                }
                if moved {
                    assert(before.communities[ids@[i as int]] == start.communities[ids@[i as int]]);
                    assert(communities@[ids@[i as int]] != start.communities[ids@[i as int]]);
                } else {
                    assert(communities@ =~= before.communities);
                }
            }
            if moved {
                changed = true;
            }
            i += 1;
        }
        proof {
            assert(self.is_sweep(graph, all, ids@, states));
        }
        changed
    }
}

/// Whether two graphs have the same ties.
pub open spec fn same_ties(a: &WeightedGraph, b: &WeightedGraph) -> bool {
    &&& a.ties@.dom() == b.ties@.dom()
    &&& forall|id: NodeId| #[trigger] a.ties@.contains_key(id) ==> a.ties@[id]@ == b.ties@[id]@
}

impl<
    P: Fn(u64, u64) -> u64,
    M: Fn(u64, u64) -> u64,
    G: Fn(u64, u64, u64, u64) -> u64,
    B: Fn(u64, u64, bool) -> bool,
    N: Fn(u64) -> bool,
> MoveArithmetic<P, M, G, B, N> {
    /// Graphs with the same ties have the same degrees.
    proof fn lemma_degrees_agree(&self, a: &WeightedGraph, b: &WeightedGraph, ids: Seq<NodeId>)
        requires
            same_ties(a, b),
            forall|i: int| 0 <= i < ids.len() ==> a.ties@.contains_key(#[trigger] ids[i]),
        ensures
            self.all_degrees(a, ids) == self.all_degrees(b, ids),
        decreases ids.len(),
    {
        if ids.len() > 0 {
            assert forall|i: int| 0 <= i < ids.drop_last().len() implies a.ties@.contains_key(
                #[trigger] ids.drop_last()[i],
            ) by {
                assert(ids.drop_last()[i] == ids[i]);
            }
            self.lemma_degrees_agree(a, b, ids.drop_last());
            assert(a.ties@.contains_key(ids[ids.len() - 1]));
        }
    }

    /// Graphs with the same ties are moved alike.
    proof fn lemma_sweeps_agree(
        &self,
        a: &WeightedGraph,
        b: &WeightedGraph,
        all: u64,
        ids: Seq<NodeId>,
        before: Partition,
        after: Partition,
    )
        requires
            same_ties(a, b),
            forall|i: int| 0 <= i < ids.len() ==> a.ties@.contains_key(#[trigger] ids[i]),
            self.sweeps(a, all, ids, before, after),
        ensures
            self.sweeps(b, all, ids, before, after),
    {
        let states = choose|states: Seq<Partition>| #[trigger]
            self.is_sweep(a, all, ids, states) && states[0] == before && states.last() == after;
        assert forall|i: int| 0 <= i < ids.len() implies self.moves(
            b,
            all,
            #[trigger] ids[i],
            states[i],
            states[i + 1],
        ) by {
            assert(self.moves(a, all, ids[i], states[i], states[i + 1]));
            let candidates = choose|candidates: Seq<NodeId>| #[trigger]
                self.joins_best(a, all, ids[i], candidates, states[i], states[i + 1]);
            assert(a.ties@[ids[i]]@ == b.ties@[ids[i]]@);
            assert(self.joins_best(b, all, ids[i], candidates, states[i], states[i + 1]));
        }
        assert(self.is_sweep(b, all, ids, states));
    }

    /// Graphs with the same ties are moved alike.
    pub proof fn lemma_moved_agrees(
        &self,
        a: &WeightedGraph,
        b: &WeightedGraph,
        limit: usize,
        communities: Map<NodeId, NodeId>,
    )
        requires
            same_ties(a, b),
            self.is_moved(a, limit, communities),
        ensures
            self.is_moved(b, limit, communities),
    {
        let (ids, rounds) = choose|ids: Seq<NodeId>, rounds: Seq<Partition>|
            {
                let all = self.all_degrees(a, ids);
                &&& crate::collections::increasing(ids)
                &&& ids.to_set() == a.ties@.dom()
                &&& #[trigger] self.is_run(a, ids, rounds)
                &&& communities == rounds.last().communities
                &&& if self.is_negligible(all) {
                    rounds.len() == 1
                } else {
                    &&& rounds.len() <= limit + 1
                    &&& rounds.len() == limit + 1 || (rounds.len() > 1 && rounds.last().communities
                        == rounds[rounds.len() - 2].communities)
                    &&& forall|k: int|
                        0 < k < rounds.len() - 1 ==> (#[trigger] rounds[k]).communities
                            != rounds[k - 1].communities
                }
            };
        assert forall|i: int| 0 <= i < ids.len() implies a.ties@.contains_key(#[trigger] ids[i]) by {
            assert(ids.contains(ids[i]));
            assert(ids.to_set().contains(ids[i]));
        }
        self.lemma_degrees_agree(a, b, ids);
        let all = self.all_degrees(a, ids);
        assert forall|k: int| 0 <= k < rounds.len() - 1 implies self.sweeps(
            b,
            self.all_degrees(b, ids),
            ids,
            #[trigger] rounds[k],
            rounds[k + 1],
        ) by {
            self.lemma_sweeps_agree(a, b, all, ids, rounds[k], rounds[k + 1]);
        }
        assert(self.is_start(b, ids, rounds[0])) by {
            assert forall|id: NodeId| #[trigger] rounds[0].totals.contains_key(id) implies
                rounds[0].totals[id] == self.degree(b.ties@[id]@) by {
                assert(a.ties@.contains_key(id));
            }
        }
        assert(self.is_run(b, ids, rounds));
    }

    /// A node moves in one way.
    proof fn lemma_moves_once(
        &self,
        graph: &WeightedGraph,
        all: u64,
        id: NodeId,
        before: Partition,
        one: Partition,
        other: Partition,
    )
        requires
            self.moves(graph, all, id, before, one),
            self.moves(graph, all, id, before, other),
        ensures
            one == other,
    {
        let a = choose|candidates: Seq<NodeId>| #[trigger]
            self.joins_best(graph, all, id, candidates, before, one);
        let b = choose|candidates: Seq<NodeId>| #[trigger]
            self.joins_best(graph, all, id, candidates, before, other);
        crate::collections::lemma_increasing_unique(a, b);
    }

    /// A sweep goes in one way.
    proof fn lemma_sweep_once(
        &self,
        graph: &WeightedGraph,
        all: u64,
        ids: Seq<NodeId>,
        one: Seq<Partition>,
        other: Seq<Partition>,
        count: int,
    )
        requires
            self.is_sweep(graph, all, ids, one),
            self.is_sweep(graph, all, ids, other),
            one[0] == other[0],
            0 <= count <= ids.len(),
        ensures
            one[count] == other[count],
        decreases count,
    {
        if count > 0 {
            self.lemma_sweep_once(graph, all, ids, one, other, count - 1);
            let id = ids[count - 1];
            assert(self.moves(graph, all, ids[count - 1], one[count - 1], one[count - 1 + 1]));
            assert(self.moves(graph, all, ids[count - 1], other[count - 1], other[count - 1 + 1]));
            self.lemma_moves_once(graph, all, id, one[count - 1], one[count], other[count]);
        }
    }

    /// Runs begin alike.
    proof fn lemma_run_once(
        &self,
        graph: &WeightedGraph,
        ids: Seq<NodeId>,
        one: Seq<Partition>,
        other: Seq<Partition>,
        k: int,
    )
        requires
            self.is_run(graph, ids, one),
            self.is_run(graph, ids, other),
            0 <= k < one.len(),
            k < other.len(),
        ensures
            one[k] == other[k],
        decreases k,
    {
        if k == 0 {
            assert(one[0].communities =~= other[0].communities);
            assert(one[0].totals =~= other[0].totals);
        } else {
            self.lemma_run_once(graph, ids, one, other, k - 1);
            let all = self.all_degrees(graph, ids);
            assert(self.sweeps(graph, all, ids, one[k - 1], one[k - 1 + 1]));
            assert(self.sweeps(graph, all, ids, other[k - 1], other[k - 1 + 1]));
            let a = choose|states: Seq<Partition>| #[trigger]
                self.is_sweep(graph, all, ids, states) && states[0] == one[k - 1] && states.last()
                    == one[k];
            let b = choose|states: Seq<Partition>| #[trigger]
                self.is_sweep(graph, all, ids, states) && states[0] == other[k - 1]
                    && states.last() == other[k];
            self.lemma_sweep_once(graph, all, ids, a, b, ids.len() as int);
        }
    }

    /// A run is not shorter than another.
    proof fn lemma_run_not_shorter(
        &self,
        graph: &WeightedGraph,
        limit: usize,
        ids: Seq<NodeId>,
        one: Seq<Partition>,
        other: Seq<Partition>,
    )
        requires
            self.is_run(graph, ids, one),
            self.is_run(graph, ids, other),
            one.len() == limit + 1 || (one.len() > 1 && one.last().communities == one[one.len()
                - 2].communities),
            other.len() <= limit + 1,
            forall|k: int|
                0 < k < other.len() - 1 ==> (#[trigger] other[k]).communities
                    != other[k - 1].communities,
        ensures
            one.len() >= other.len(),
    {
        if one.len() < other.len() {
            let k = one.len() - 1;
            self.lemma_run_once(graph, ids, one, other, k);
            self.lemma_run_once(graph, ids, one, other, k - 1);
            assert(other[k].communities != other[k - 1].communities);
        }
    }

    /// Local moving has one outcome.
    pub proof fn law_moving_is_determined(
        &self,
        graph: &WeightedGraph,
        limit: usize,
        one: Map<NodeId, NodeId>,
        other: Map<NodeId, NodeId>,
    )
        requires
            self.is_moved(graph, limit, one),
            self.is_moved(graph, limit, other),
        ensures
            one == other,
    {
        let (ids, a) = choose|ids: Seq<NodeId>, rounds: Seq<Partition>|
            {
                let all = self.all_degrees(graph, ids);
                &&& crate::collections::increasing(ids)
                &&& ids.to_set() == graph.ties@.dom()
                &&& #[trigger] self.is_run(graph, ids, rounds)
                &&& one == rounds.last().communities
                &&& if self.is_negligible(all) {
                    rounds.len() == 1
                } else {
                    &&& rounds.len() <= limit + 1
                    &&& rounds.len() == limit + 1 || (rounds.len() > 1 && rounds.last().communities
                        == rounds[rounds.len() - 2].communities)
                    &&& forall|k: int|
                        0 < k < rounds.len() - 1 ==> (#[trigger] rounds[k]).communities
                            != rounds[k - 1].communities
                }
            };
        let (more, b) = choose|ids: Seq<NodeId>, rounds: Seq<Partition>|
            {
                let all = self.all_degrees(graph, ids);
                &&& crate::collections::increasing(ids)
                &&& ids.to_set() == graph.ties@.dom()
                &&& #[trigger] self.is_run(graph, ids, rounds)
                &&& other == rounds.last().communities
                &&& if self.is_negligible(all) {
                    rounds.len() == 1
                } else {
                    &&& rounds.len() <= limit + 1
                    &&& rounds.len() == limit + 1 || (rounds.len() > 1 && rounds.last().communities
                        == rounds[rounds.len() - 2].communities)
                    &&& forall|k: int|
                        0 < k < rounds.len() - 1 ==> (#[trigger] rounds[k]).communities
                            != rounds[k - 1].communities
                }
            };
        crate::collections::lemma_increasing_unique(ids, more);
        if !self.is_negligible(self.all_degrees(graph, ids)) {
            self.lemma_run_not_shorter(graph, limit, ids, a, b);
            self.lemma_run_not_shorter(graph, limit, ids, b, a);
        }
        self.lemma_run_once(graph, ids, a, b, a.len() - 1);
    }
}

} // verus!
