//! Communities found by passing labels along edges.
use std::collections::{BTreeMap, BTreeSet};
use vstd::prelude::*;

use crate::collections::{
    increasing, lemma_contains_push, lemma_increasing_unique, lemma_to_set_push, map_keys,
    set_elements, sort_dedup,
};
use crate::error::{is_query_execution, query_execution, Result};
use crate::graph::compact::saturated;
use crate::graph::pathfinding::edge_allowed;
use crate::graph::walk::label_fits;
use crate::graph::workspace::{build_reverse, count_edges, is_edge_count, edge_total};
use crate::node::{edge_views, NodeId};
use crate::number::{
    f32_finite, f32_is_finite, f32_is_positive, f32_positive, f64_total_key, f64_total_less,
};
use crate::storage::memtable::{label_view, MemTable, Table};
use crate::vector::VectorType;

verus! {

/// The settings of label propagation.
#[derive(Debug, Clone, Copy, PartialEq, Eq, Structural)]
pub struct LabelPropagationConfig {
    pub max_iterations: usize,
    pub min_community_size: usize,
}

/// The communities that label propagation found.
#[derive(Debug)]
pub struct LabelPropagationResult {
    pub node_to_community: BTreeMap<NodeId, u64>,
    pub iterations: usize,
    pub converged: bool,
    pub examined_edges: usize,
}

/// The two sums that votes are made of, on double precision bit patterns: a sum and a single
/// precision weight, and two sums.
pub struct VoteArithmetic<A, P> {
    pub with_weight: A,
    pub plus: P,
}

impl<A: Fn(u64, u32) -> u64, P: Fn(u64, u64) -> u64> VoteArithmetic<A, P> {
    /// Whether each sum can always be formed and is the same for the same operands.
    pub open spec fn sound(&self) -> bool {
        &&& forall|sum: u64, weight: u32| call_requires(self.with_weight, (sum, weight))
        &&& forall|sum: u64, weight: u32, next: u64|
            call_ensures(self.with_weight, (sum, weight), next) ==> next == self.heavier(
                sum,
                weight,
            )
        &&& forall|a: u64, b: u64| call_requires(self.plus, (a, b))
        &&& forall|a: u64, b: u64, c: u64|
            call_ensures(self.plus, (a, b), c) ==> c == self.sum(a, b)
    }

    /// A sum with one more weight.
    pub open spec fn heavier(&self, sum: u64, weight: u32) -> u64 {
        choose|next: u64| call_ensures(self.with_weight, (sum, weight), next)
    }

    /// The sum of two sums.
    pub open spec fn sum(&self, a: u64, b: u64) -> u64 {
        choose|c: u64| call_ensures(self.plus, (a, b), c)
    }

    /// The weight of the first `count` edges of a node that lead to another, carry the label and
    /// have a positive finite weight.
    pub open spec fn pull_from<T: VectorType>(
        &self,
        table: Table<T>,
        label: Option<Seq<char>>,
        from: NodeId,
        to: NodeId,
        count: int,
    ) -> Option<u64>
        decreases count,
    {
        if count <= 0 {
            None
        } else {
            let before = self.pull_from(table, label, from, to, count - 1);
            let edge = table.edges_of(from)[count - 1];
            if edge.target == to && counts_as_vote(label, edge) {
                Some(
                    self.heavier(
                        match before {
                            Some(sum) => sum,
                            None => 0,
                        },
                        edge.weight,
                    ),
                )
            } else {
                before
            }
        }
    }

    /// The weight of all edges from one node to another that count.
    pub open spec fn pull<T: VectorType>(
        &self,
        table: Table<T>,
        label: Option<Seq<char>>,
        from: NodeId,
        to: NodeId,
    ) -> Option<u64> {
        self.pull_from(table, label, from, to, table.edges_of(from).len() as int)
    }

    /// How strongly two nodes are tied: by the edges from the first to the second and by those
    /// back.
    pub open spec fn tie<T: VectorType>(
        &self,
        table: Table<T>,
        label: Option<Seq<char>>,
        a: NodeId,
        b: NodeId,
    ) -> Option<u64> {
        match (self.pull(table, label, a, b), self.pull(table, label, b, a)) {
            (Some(there), Some(back)) => Some(self.sum(there, back)),
            (Some(there), None) => Some(there),
            (None, back) => back,
        }
    }

    /// Whether `list` names the nodes that a node is tied to, in ascending order, and how
    /// strongly.
    pub open spec fn are_ties<T: VectorType>(
        &self,
        table: Table<T>,
        nodes: Set<NodeId>,
        label: Option<Seq<char>>,
        id: NodeId,
        list: Seq<(NodeId, u64)>,
    ) -> bool {
        &&& forall|i: int, j: int|
            0 <= i < j < list.len() ==> (#[trigger] list[i]).0 < (#[trigger] list[j]).0
        &&& forall|i: int|
            0 <= i < list.len() ==> nodes.contains((#[trigger] list[i]).0) && self.tie(
                table,
                label,
                id,
                list[i].0,
            ) == Some(list[i].1)
        &&& forall|other: NodeId|
            nodes.contains(other) && #[trigger] self.tie(table, label, id, other) is Some
                ==> lists_tie(list, other)
    }

    /// The votes for a label among the first `count` ties.
    pub open spec fn votes(
        &self,
        list: Seq<(NodeId, u64)>,
        labels: Map<NodeId, NodeId>,
        label: NodeId,
        count: int,
    ) -> Option<u64>
        decreases count,
    {
        if count <= 0 {
            None
        } else {
            let before = self.votes(list, labels, label, count - 1);
            if labels[list[count - 1].0] == label {
                Some(
                    self.sum(
                        match before {
                            Some(sum) => sum,
                            None => 0,
                        },
                        list[count - 1].1,
                    ),
                )
            } else {
                before
            }
        }
    }

    /// Whether a label has the most votes, and among those with the most is the smallest.
    pub open spec fn is_winner(
        &self,
        list: Seq<(NodeId, u64)>,
        labels: Map<NodeId, NodeId>,
        label: NodeId,
    ) -> bool {
        self.votes(list, labels, label, list.len() as int) matches Some(most) && forall|
            other: NodeId,
        |
            (#[trigger] self.votes(list, labels, other, list.len() as int)) matches Some(votes)
                ==> f64_total_key(votes) < f64_total_key(most) || (f64_total_key(votes)
                == f64_total_key(most) && label <= other)
    }

    /// Whether `next` are the labels after one round: every node takes the label with the most
    /// votes, and keeps its own where nobody votes.
    pub open spec fn is_round(
        &self,
        ties: Map<NodeId, Seq<(NodeId, u64)>>,
        labels: Map<NodeId, NodeId>,
        next: Map<NodeId, NodeId>,
    ) -> bool {
        &&& next.dom() == ties.dom()
        &&& forall|id: NodeId| #[trigger]
            ties.contains_key(id) ==> if ties[id].len() == 0 {
                next[id] == labels[id]
            } else {
                self.is_winner(ties[id], labels, next[id])
            }
    }

    /// Whether a label is what a node takes in a round: the one with the most votes, and its own
    /// where nobody votes.
    pub open spec fn is_pick(
        &self,
        list: Seq<(NodeId, u64)>,
        labels: Map<NodeId, NodeId>,
        id: NodeId,
        label: NodeId,
    ) -> bool {
        if list.len() == 0 {
            label == labels[id]
        } else {
            self.is_winner(list, labels, label)
        }
    }

    /// Whether a function gives, for each node that it is handed, the label that the node takes in
    /// a round.
    pub open spec fn picks_labels<
        R: Fn(
            &Vec<NodeId>,
            &BTreeMap<NodeId, Vec<(NodeId, u64)>>,
            &BTreeMap<NodeId, NodeId>,
        ) -> Vec<NodeId>,
    >(&self, pick_all: R) -> bool {
        &&& forall|
            ids: &Vec<NodeId>,
            ties: &BTreeMap<NodeId, Vec<(NodeId, u64)>>,
            labels: &BTreeMap<NodeId, NodeId>,
        |
            is_ballot(ids@, ties@, labels@) ==> #[trigger] call_requires(
                pick_all,
                (ids, ties, labels),
            )
        &&& forall|
            ids: &Vec<NodeId>,
            ties: &BTreeMap<NodeId, Vec<(NodeId, u64)>>,
            labels: &BTreeMap<NodeId, NodeId>,
            picked: Vec<NodeId>,
        |
            is_ballot(ids@, ties@, labels@) && #[trigger] call_ensures(
                pick_all,
                (ids, ties, labels),
                picked,
            ) ==> self.are_picks(ids@, ties_view(ties@), labels@, picked@)
    }

    /// Whether `picked` are the labels that some nodes take in a round, in their order.
    pub open spec fn are_picks(
        &self,
        ids: Seq<NodeId>,
        ties: Map<NodeId, Seq<(NodeId, u64)>>,
        labels: Map<NodeId, NodeId>,
        picked: Seq<NodeId>,
    ) -> bool {
        &&& picked.len() == ids.len()
        &&& forall|i: int|
            0 <= i < ids.len() ==> self.is_pick(ties[ids[i]], labels, ids[i], #[trigger] picked[i])
    }

    /// Whether `history` are the labels before and after each round, up to the first round that
    /// changes nothing or the last one allowed.
    pub open spec fn is_history(
        &self,
        ties: Map<NodeId, Seq<(NodeId, u64)>>,
        history: Seq<Map<NodeId, NodeId>>,
        max_iterations: usize,
        converged: bool,
    ) -> bool {
        &&& 1 < history.len() <= max_iterations + 1
        &&& history[0] == Map::new(|id: NodeId| ties.contains_key(id), |id: NodeId| id)
        &&& forall|i: int|
            0 <= i < history.len() - 1 ==> self.is_round(
                ties,
                #[trigger] history[i],
                history[i + 1],
            )
        &&& forall|i: int|
            0 <= i < history.len() - 2 ==> (#[trigger] history[i]) != history[i + 1]
        &&& converged == (history[history.len() - 2] == history.last())
        &&& converged || history.len() == max_iterations + 1
    }

    /// The weights of the edges of a node to the nodes of a set.
    fn gather<T: VectorType>(
        &self,
        mt: &MemTable<T>,
        nodes: &BTreeSet<NodeId>,
        label_filter: Option<&str>,
        source: NodeId,
    ) -> (targets: BTreeMap<NodeId, u64>)
        requires
            self.sound(),
        ensures
            forall|to: NodeId| #[trigger]
                targets@.contains_key(to) <==> nodes@.contains(to) && self.pull(
                    mt@,
                    label_view(label_filter),
                    source,
                    to,
                ) is Some,
            forall|to: NodeId| #[trigger]
                targets@.contains_key(to) ==> self.pull(
                    mt@,
                    label_view(label_filter),
                    source,
                    to,
                ) == Some(targets@[to]),
    {
        let ghost label = label_view(label_filter);
        let mut targets: BTreeMap<NodeId, u64> = BTreeMap::new();
        match mt.get_edges(source) {
            None => {},
            Some(edges) => {
                let mut i: usize = 0;
                while i < edges.len()
                    invariant
                        self.sound(),
                        label == label_view(label_filter),
                        edge_views(edges@) == mt@.edges_of(source),
                        i <= edges@.len(),
                        forall|to: NodeId| #[trigger]
                            targets@.contains_key(to) <==> nodes@.contains(to) && self.pull_from(
                                mt@,
                                label,
                                source,
                                to,
                                i as int,
                            ) is Some,
                        forall|to: NodeId| #[trigger]
                            targets@.contains_key(to) ==> self.pull_from(
                                mt@,
                                label,
                                source,
                                to,
                                i as int,
                            ) == Some(targets@[to]),
                    decreases edges@.len() - i,
                {
                    let edge = &edges[i];
                    let ghost before = targets@;
                    assert(edge_views(edges@)[i as int] == edge@);
                    assert(mt@.edges_of(source)[i as int] == edge@);
                    if nodes.contains(&edge.target_id) && f32_is_finite(edge.weight)
                        && f32_is_positive(edge.weight) && edge_allowed(edge, label_filter) {
                        let current: u64 = match targets.get(&edge.target_id) {
                            Some(sum) => *sum,
                            None => 0,
                        };
                        let next: u64 = (self.with_weight)(current, edge.weight);
                        targets.insert(edge.target_id, next);
                    }
                    proof {
                        assert forall|to: NodeId| #[trigger]
                            targets@.contains_key(to) <==> nodes@.contains(to) && self.pull_from(
                            mt@,
                            label,
                            source,
                            to,
                            i + 1,
                        ) is Some by {
                            assert(before.contains_key(to) <==> nodes@.contains(to)
                                && self.pull_from(mt@, label, source, to, i as int) is Some);
                        }
                        assert forall|to: NodeId| #[trigger] targets@.contains_key(to) implies
                            self.pull_from(mt@, label, source, to, i + 1) == Some(
                            targets@[to],
                        ) by {
                            assert(before.contains_key(to) <==> nodes@.contains(to)
                                && self.pull_from(mt@, label, source, to, i as int) is Some);
                        }
                    }
                    i += 1;
                }
                assert(edge_views(edges@).len() == edges@.len());
            },
        }
        targets
    }

    /// The votes for each label.
    fn count_votes(&self, list: &Vec<(NodeId, u64)>, labels: &BTreeMap<NodeId, NodeId>) -> (votes:
        BTreeMap<NodeId, u64>)
        requires
            self.sound(),
            forall|i: int|
                0 <= i < list@.len() ==> labels@.contains_key((#[trigger] list@[i]).0),
        ensures
            forall|label: NodeId| #[trigger]
                votes@.contains_key(label) <==> self.votes(
                    list@,
                    labels@,
                    label,
                    list@.len() as int,
                ) is Some,
            forall|label: NodeId| #[trigger]
                votes@.contains_key(label) ==> self.votes(
                    list@,
                    labels@,
                    label,
                    list@.len() as int,
                ) == Some(votes@[label]),
    {
        let mut votes: BTreeMap<NodeId, u64> = BTreeMap::new();
        let mut i: usize = 0;
        while i < list.len()
            invariant
                self.sound(),
                i <= list@.len(),
                forall|k: int|
                    0 <= k < list@.len() ==> labels@.contains_key((#[trigger] list@[k]).0),
                forall|label: NodeId| #[trigger]
                    votes@.contains_key(label) <==> self.votes(
                        list@,
                        labels@,
                        label,
                        i as int,
                    ) is Some,
                forall|label: NodeId| #[trigger]
                    votes@.contains_key(label) ==> self.votes(
                        list@,
                        labels@,
                        label,
                        i as int,
                    ) == Some(votes@[label]),
            decreases list@.len() - i,
        {
            let (neighbor, weight): (NodeId, u64) = list[i];
            let ghost before = votes@;
            assert(labels@.contains_key(list@[i as int].0));
            let label: NodeId = *labels.get(&neighbor).unwrap();
            let current: u64 = match votes.get(&label) {
                Some(sum) => *sum,
                None => 0,
            };
            let next: u64 = (self.plus)(current, weight);
            votes.insert(label, next);
            proof {
                assert forall|other: NodeId| #[trigger] votes@.contains_key(other) <==> self.votes(
                    list@,
                    labels@,
                    other,
                    i + 1,
                ) is Some by {
                    assert(before.contains_key(other) <==> self.votes(
                        list@,
                        labels@,
                        other,
                        i as int,
                    ) is Some);
                }
                assert forall|other: NodeId| #[trigger] votes@.contains_key(other) implies
                    self.votes(list@, labels@, other, i + 1) == Some(votes@[other]) by {
                    assert(before.contains_key(other) <==> self.votes(
                        list@,
                        labels@,
                        other,
                        i as int,
                    ) is Some);
                }
            }
            i += 1;
        }
        votes
    }

    /// The label with the most votes.
    fn elect(&self, list: &Vec<(NodeId, u64)>, labels: &BTreeMap<NodeId, NodeId>) -> (winner: NodeId)
        requires
            self.sound(),
            list@.len() > 0,
            forall|i: int|
                0 <= i < list@.len() ==> labels@.contains_key((#[trigger] list@[i]).0),
        ensures
            self.is_winner(list@, labels@, winner),
    {
        let votes = self.count_votes(list, labels);
        let candidates = map_keys(&votes);
        proof {
            let last = list@.len() - 1;
            assert(self.votes(list@, labels@, labels@[list@[last].0], list@.len() as int) is Some);
            assert(votes@.contains_key(labels@[list@[last].0]));
            assert(candidates@.to_set().contains(labels@[list@[last].0]));
            assert(candidates@.contains(labels@[list@[last].0]));
        }
        let mut winner: NodeId = candidates[0];
        assert(candidates@.contains(candidates@[0]));
        assert(candidates@.to_set().contains(candidates@[0]));
        let mut most: u64 = *votes.get(&winner).unwrap();
        let mut i: usize = 1;
        while i < candidates.len()
            invariant
                1 <= i <= candidates@.len(),
                increasing(candidates@),
                candidates@.to_set() == votes@.dom(),
                votes@.contains_key(winner),
                most == votes@[winner],
                exists|k: int| 0 <= k < i && (#[trigger] candidates@[k]) == winner,
                forall|k: int|
                    0 <= k < i ==> f64_total_key(votes@[#[trigger] candidates@[k]])
                        < f64_total_key(most) || (f64_total_key(votes@[candidates@[k]])
                        == f64_total_key(most) && winner <= candidates@[k]),
            decreases candidates@.len() - i,
        {
            let candidate: NodeId = candidates[i];
            proof {
                assert(candidates@.contains(candidate));
                assert(candidates@.to_set().contains(candidate));
                let k = choose|k: int| 0 <= k < i && (#[trigger] candidates@[k]) == winner;
                assert(candidates@[k] < candidates@[i as int]);
            }
            let count: u64 = *votes.get(&candidate).unwrap();
            if f64_total_less(most, count) {
                winner = candidate;
                most = count;
                assert(candidates@[i as int] == winner);
            } else {
                let ghost k = choose|k: int| 0 <= k < i && (#[trigger] candidates@[k]) == winner;
                assert(candidates@[k] == winner);
            }
            i += 1;
        }
        proof {
            assert forall|other: NodeId|
                (#[trigger] self.votes(
                    list@,
                    labels@,
                    other,
                    list@.len() as int,
                )) is Some implies f64_total_key(
                self.votes(list@, labels@, other, list@.len() as int)->0,
            ) < f64_total_key(most) || (f64_total_key(
                self.votes(list@, labels@, other, list@.len() as int)->0,
            ) == f64_total_key(most) && winner <= other) by {
                assert(votes@.contains_key(other));
                assert(candidates@.to_set().contains(other));
                let k = choose|k: int| 0 <= k < candidates@.len() && candidates@[k] == other;
                assert(votes@[candidates@[k]] == votes@[other]);
            }
        }
        winner
    }

    /// The label that a node takes in a round.
    pub fn pick_label(
        &self,
        list: &Vec<(NodeId, u64)>,
        labels: &BTreeMap<NodeId, NodeId>,
        id: NodeId,
    ) -> (label: NodeId)
        requires
            self.sound(),
            labels@.contains_key(id),
            forall|i: int|
                0 <= i < list@.len() ==> labels@.contains_key((#[trigger] list@[i]).0),
        ensures
            self.is_pick(list@, labels@, id, label),
    {
        if list.len() == 0 {
            *labels.get(&id).unwrap()
        } else {
            self.elect(list, labels)
        }
    }

    /// The labels that all nodes take in a round, one after the other.
    fn pick_labels(
        &self,
        ids: &Vec<NodeId>,
        ties: &BTreeMap<NodeId, Vec<(NodeId, u64)>>,
        labels: &BTreeMap<NodeId, NodeId>,
    ) -> (picked: Vec<NodeId>)
        requires
            self.sound(),
            is_ballot(ids@, ties@, labels@),
        ensures
            self.are_picks(ids@, ties_view(ties@), labels@, picked@),
    {
        let ghost all = ties_view(ties@);
        let mut picked: Vec<NodeId> = Vec::new();
        let mut i: usize = 0;
        while i < ids.len()
            invariant
                self.sound(),
                is_ballot(ids@, ties@, labels@),
                all == ties_view(ties@),
                i <= ids@.len(),
                picked@.len() == i,
                forall|k: int|
                    0 <= k < i ==> self.is_pick(all[ids@[k]], labels@, ids@[k], #[trigger] picked@[k]),
            decreases ids@.len() - i,
        {
            let id: NodeId = ids[i];
            proof {
                assert(ids@.contains(id));
                assert(ids@.to_set().contains(id));
                assert(all.contains_key(id));
            }
            let list = ties.get(&id).unwrap();
            proof {
                assert(all[id] == list@);
                assert forall|k: int| 0 <= k < list@.len() implies labels@.contains_key(
                    (#[trigger] list@[k]).0,
                ) by {
                    assert(all.contains_key(all[id][k].0));
                }
            }
            picked.push(self.pick_label(list, labels, id));
            i += 1;
        }
        picked
    }

    /// One round, in which `pick_all` gives the labels. Also tells whether a label changed.
    fn pass_labels<
        R: Fn(
            &Vec<NodeId>,
            &BTreeMap<NodeId, Vec<(NodeId, u64)>>,
            &BTreeMap<NodeId, NodeId>,
        ) -> Vec<NodeId>,
    >(
        &self,
        ids: &Vec<NodeId>,
        ties: &BTreeMap<NodeId, Vec<(NodeId, u64)>>,
        labels: &BTreeMap<NodeId, NodeId>,
        pick_all: &R,
    ) -> (result: (BTreeMap<NodeId, NodeId>, bool))
        requires
            self.picks_labels(*pick_all),
            is_ballot(ids@, ties@, labels@),
        ensures
            self.is_round(ties_view(ties@), labels@, result.0@),
            result.1 == (result.0@ != labels@),
    {
        let ghost all = ties_view(ties@);
        let picked = pick_all(ids, ties, labels);
        let mut next: BTreeMap<NodeId, NodeId> = BTreeMap::new();
        let mut changed = false;
        let mut i: usize = 0;
        assert(next@.dom() =~= ids@.take(0).to_set());
        while i < ids.len()
            invariant
                is_ballot(ids@, ties@, labels@),
                all == ties_view(ties@),
                self.are_picks(ids@, all, labels@, picked@),
                i <= ids@.len(),
                next@.dom() == ids@.take(i as int).to_set(),
                forall|k: int|
                    0 <= k < i ==> if all[#[trigger] ids@[k]].len() == 0 {
                        next@[ids@[k]] == labels@[ids@[k]]
                    } else {
                        self.is_winner(all[ids@[k]], labels@, next@[ids@[k]])
                    },
                changed == exists|k: int|
                    0 <= k < i && next@[#[trigger] ids@[k]] != labels@[ids@[k]],
            decreases ids@.len() - i,
        {
            let id: NodeId = ids[i];
            let ghost before = next@;
            proof {
                assert(ids@.contains(id));
                assert(ids@.to_set().contains(id));
                assert(all.contains_key(id));
            }
            let current: NodeId = *labels.get(&id).unwrap();
            let label: NodeId = picked[i];
            assert(self.is_pick(all[id], labels@, id, picked@[i as int]));
            next.insert(id, label);
            let ghost was_changed = changed;
            if label != current {
                changed = true;
            }
            proof {
                assert(ids@.take(i + 1) =~= ids@.take(i as int).push(id));
                lemma_to_set_push(ids@.take(i as int), id);
                assert(next@.dom() =~= ids@.take(i + 1).to_set());
                assert forall|k: int| 0 <= k < i implies next@[#[trigger] ids@[k]]
                    == before[ids@[k]] by {
                    assert(ids@[k] < ids@[i as int]);
                }
                assert(changed == exists|k: int|
                    0 <= k < i + 1 && next@[#[trigger] ids@[k]] != labels@[ids@[k]]) by {
                    if label != current {
                        assert(next@[ids@[i as int]] != labels@[ids@[i as int]]);
                    }
                    if was_changed {
                        let k = choose|k: int|
                            0 <= k < i && before[#[trigger] ids@[k]] != labels@[ids@[k]];
                        assert(next@[ids@[k]] != labels@[ids@[k]]);
                    }
                    if exists|k: int|
                        0 <= k < i + 1 && next@[#[trigger] ids@[k]] != labels@[ids@[k]] {
                        let k = choose|k: int|
                            0 <= k < i + 1 && next@[#[trigger] ids@[k]] != labels@[ids@[k]];
                        if k < i {
                            assert(before[ids@[k]] != labels@[ids@[k]]);
                        }
                    }
                }
            }
            i += 1;
        }
        proof {
            assert(ids@.take(i as int) =~= ids@);
            assert(all.dom() =~= ties@.dom());
            assert forall|id: NodeId| #[trigger] all.contains_key(id) implies if all[id].len()
                == 0 {
                next@[id] == labels@[id]
            } else {
                self.is_winner(all[id], labels@, next@[id])
            } by {
                assert(ids@.to_set().contains(id));
                let k = choose|k: int| 0 <= k < ids@.len() && ids@[k] == id;
                assert(all[ids@[k]] == all[id]);
            }
            if changed {
                let k = choose|k: int|
                    0 <= k < ids@.len() && next@[#[trigger] ids@[k]] != labels@[ids@[k]];
                assert(ids@.contains(ids@[k]));
            } else {
                assert(next@ =~= labels@) by {
                    assert forall|id: NodeId| #[trigger] next@.contains_key(id) implies next@[id]
                        == labels@[id] by {
                        assert(ids@.to_set().contains(id));
                        let k = choose|k: int| 0 <= k < ids@.len() && ids@[k] == id;
                        assert(next@[ids@[k]] == labels@[ids@[k]]);
                    }
                }
            }
        }
        (next, changed)
    }

    /// The ties of all nodes.
    fn gather_ties<T: VectorType>(
        &self,
        mt: &MemTable<T>,
        nodes: &BTreeSet<NodeId>,
        ids: &Vec<NodeId>,
        label_filter: Option<&str>,
    ) -> (ties: BTreeMap<NodeId, Vec<(NodeId, u64)>>)
        requires
            self.sound(),
            increasing(ids@),
            ids@.to_set() == nodes@,
        ensures
            ties@.dom() == nodes@,
            forall|id: NodeId| #[trigger]
                ties@.contains_key(id) ==> self.are_ties(
                    mt@,
                    nodes@,
                    label_view(label_filter),
                    id,
                    ties@[id]@,
                ),
    {
        let ghost label = label_view(label_filter);
        let mut pulls: BTreeMap<NodeId, BTreeMap<NodeId, u64>> = BTreeMap::new();
        let mut targets: BTreeMap<NodeId, Vec<NodeId>> = BTreeMap::new();
        let mut i: usize = 0;
        assert(pulls@.dom() =~= ids@.take(0).to_set());
        assert(targets@.dom() =~= ids@.take(0).to_set());
        while i < ids.len()
            invariant
                self.sound(),
                label == label_view(label_filter),
                i <= ids@.len(),
                pulls@.dom() == ids@.take(i as int).to_set(),
                targets@.dom() == ids@.take(i as int).to_set(),
                forall|from: NodeId, to: NodeId|
                    #![trigger pulls@[from]@.contains_key(to)]
                    pulls@.contains_key(from) ==> (pulls@[from]@.contains_key(to)
                        <==> nodes@.contains(to) && self.pull(mt@, label, from, to) is Some),
                forall|from: NodeId, to: NodeId|
                    #![trigger pulls@[from]@.contains_key(to)]
                    pulls@.contains_key(from) && pulls@[from]@.contains_key(to) ==> self.pull(
                        mt@,
                        label,
                        from,
                        to,
                    ) == Some(pulls@[from]@[to]),
                forall|from: NodeId| #[trigger]
                    targets@.contains_key(from) ==> increasing(targets@[from]@)
                        && targets@[from]@.to_set() == pulls@[from]@.dom(),
            decreases ids@.len() - i,
        {
            let source: NodeId = ids[i];
            let own = self.gather(mt, nodes, label_filter, source);
            targets.insert(source, map_keys(&own));
            pulls.insert(source, own);
            proof {
                assert(ids@.take(i + 1) =~= ids@.take(i as int).push(source));
                lemma_to_set_push(ids@.take(i as int), source);
                assert(pulls@.dom() =~= ids@.take(i + 1).to_set());
                assert(targets@.dom() =~= ids@.take(i + 1).to_set());
            }
            i += 1;
        }
        assert(ids@.take(i as int) =~= ids@);
        proof {
            assert forall|from: NodeId, to: NodeId|
                targets@.contains_key(from) && #[trigger] targets@[from]@.contains(to) implies
                targets@.contains_key(to) by {
                assert(targets@[from]@.to_set().contains(to));
                assert(pulls@[from]@.contains_key(to));
            }
        }
        let sources = build_reverse(ids, &targets);
        let mut ties: BTreeMap<NodeId, Vec<(NodeId, u64)>> = BTreeMap::new();
        let mut k: usize = 0;
        assert(ties@.dom() =~= ids@.take(0).to_set());
        while k < ids.len()
            invariant
                self.sound(),
                label == label_view(label_filter),
                k <= ids@.len(),
                ids@.to_set() == nodes@,
                pulls@.dom() == nodes@,
                targets@.dom() == nodes@,
                sources@.dom() == nodes@,
                forall|from: NodeId, to: NodeId|
                    #![trigger pulls@[from]@.contains_key(to)]
                    pulls@.contains_key(from) ==> (pulls@[from]@.contains_key(to)
                        <==> nodes@.contains(to) && self.pull(mt@, label, from, to) is Some),
                forall|from: NodeId, to: NodeId|
                    #![trigger pulls@[from]@.contains_key(to)]
                    pulls@.contains_key(from) && pulls@[from]@.contains_key(to) ==> self.pull(
                        mt@,
                        label,
                        from,
                        to,
                    ) == Some(pulls@[from]@[to]),
                forall|from: NodeId| #[trigger]
                    targets@.contains_key(from) ==> increasing(targets@[from]@)
                        && targets@[from]@.to_set() == pulls@[from]@.dom(),
                forall|from: NodeId, to: NodeId|
                    sources@.contains_key(to) ==> (#[trigger] sources@[to]@.contains(from) <==> (
                    targets@.contains_key(from) && targets@[from]@.contains(to))),
                ties@.dom() == ids@.take(k as int).to_set(),
                forall|id: NodeId| #[trigger]
                    ties@.contains_key(id) ==> self.are_ties(mt@, nodes@, label, id, ties@[id]@),
            decreases ids@.len() - k,
        {
            let id: NodeId = ids[k];
            proof {
                assert(ids@.contains(id));
                assert(ids@.to_set().contains(id));
            }
            let near = join_lists(targets.get(&id).unwrap(), sources.get(&id).unwrap());
            proof {
                assert forall|other: NodeId| #[trigger] near@.contains(other) <==> nodes@.contains(
                    other,
                ) && self.tie(mt@, label, id, other) is Some by {
                    assert(targets@[id]@.to_set().contains(other) <==> pulls@[id]@.contains_key(
                        other,
                    ));
                    assert(sources@[id]@.contains(other) <==> (targets@.contains_key(other)
                        && targets@[other]@.contains(id)));
                    if nodes@.contains(other) {
                        assert(targets@[other]@.to_set().contains(id)
                            <==> pulls@[other]@.contains_key(id));
                    }
                }
            }
            let list = self.weigh(mt, nodes, label_filter, &pulls, id, &near);
            ties.insert(id, list);
            proof {
                assert(ids@.take(k + 1) =~= ids@.take(k as int).push(id));
                lemma_to_set_push(ids@.take(k as int), id);
                assert(ties@.dom() =~= ids@.take(k + 1).to_set());
            }
            k += 1;
        }
        assert(ids@.take(k as int) =~= ids@);
        ties
    }

    /// How strongly a node is tied to each of some nodes.
    fn weigh<T: VectorType>(
        &self,
        mt: &MemTable<T>,
        nodes: &BTreeSet<NodeId>,
        label_filter: Option<&str>,
        pulls: &BTreeMap<NodeId, BTreeMap<NodeId, u64>>,
        id: NodeId,
        near: &Vec<NodeId>,
    ) -> (list: Vec<(NodeId, u64)>)
        requires
            self.sound(),
            nodes@.contains(id),
            pulls@.dom() == nodes@,
            forall|from: NodeId, to: NodeId|
                #![trigger pulls@[from]@.contains_key(to)]
                pulls@.contains_key(from) ==> (pulls@[from]@.contains_key(to) <==> nodes@.contains(
                    to,
                ) && self.pull(mt@, label_view(label_filter), from, to) is Some),
            forall|from: NodeId, to: NodeId|
                #![trigger pulls@[from]@.contains_key(to)]
                pulls@.contains_key(from) && pulls@[from]@.contains_key(to) ==> self.pull(
                    mt@,
                    label_view(label_filter),
                    from,
                    to,
                ) == Some(pulls@[from]@[to]),
            increasing(near@),
            forall|other: NodeId| #[trigger]
                near@.contains(other) <==> nodes@.contains(other) && self.tie(
                    mt@,
                    label_view(label_filter),
                    id,
                    other,
                ) is Some,
        ensures
            self.are_ties(mt@, nodes@, label_view(label_filter), id, list@),
    {
        let ghost label = label_view(label_filter);
        let mut list: Vec<(NodeId, u64)> = Vec::new();
        let own = pulls.get(&id).unwrap();
        let mut i: usize = 0;
        while i < near.len()
            invariant
                self.sound(),
                label == label_view(label_filter),
                nodes@.contains(id),
                pulls@.dom() == nodes@,
                *own == pulls@[id],
                forall|from: NodeId, to: NodeId|
                    #![trigger pulls@[from]@.contains_key(to)]
                    pulls@.contains_key(from) ==> (pulls@[from]@.contains_key(to)
                        <==> nodes@.contains(to) && self.pull(mt@, label, from, to) is Some),
                forall|from: NodeId, to: NodeId|
                    #![trigger pulls@[from]@.contains_key(to)]
                    pulls@.contains_key(from) && pulls@[from]@.contains_key(to) ==> self.pull(
                        mt@,
                        label,
                        from,
                        to,
                    ) == Some(pulls@[from]@[to]),
                forall|other: NodeId| #[trigger]
                    near@.contains(other) <==> nodes@.contains(other) && self.tie(
                        mt@,
                        label,
                        id,
                        other,
                    ) is Some,
                i <= near@.len(),
                list@.len() == i,
                forall|k: int|
                    0 <= k < i ==> (#[trigger] list@[k]).0 == near@[k] && self.tie(
                        mt@,
                        label,
                        id,
                        near@[k],
                    ) == Some(list@[k].1),
            decreases near@.len() - i,
        {
            let other: NodeId = near[i];
            assert(near@.contains(other));
            let back = pulls.get(&other).unwrap();
            proof {
                assert(pulls@[id]@.contains_key(other) <==> self.pull(
                    mt@,
                    label,
                    id,
                    other,
                ) is Some);
                assert(pulls@[other]@.contains_key(id) <==> self.pull(
                    mt@,
                    label,
                    other,
                    id,
                ) is Some);
            }
            let weight: u64 = match own.get(&other) {
                Some(there) => match back.get(&id) {
                    Some(here) => (self.plus)(*there, *here),
                    None => *there,
                },
                None => match back.get(&id) {
                    Some(here) => *here,
                    None => 0,
                },
            };
            list.push((other, weight));
            i += 1;
        }
        proof {
            assert forall|n: int| 0 <= n < list@.len() implies nodes@.contains(
                (#[trigger] list@[n]).0,
            ) && self.tie(mt@, label, id, list@[n].0) == Some(list@[n].1) by {
                assert(near@.contains(near@[n]));
            }
            assert forall|other: NodeId|
                nodes@.contains(other) && #[trigger] self.tie(
                    mt@,
                    label,
                    id,
                    other,
                ) is Some implies lists_tie(list@, other) by {
                assert(near@.contains(other));
                let n = choose|n: int| 0 <= n < near@.len() && near@[n] == other;
                assert(list@[n].0 == other);
            }
        }
        list
    }
}

/// Whether all nodes have ties and a label, and the nodes that they are tied to are among them.
pub open spec fn is_ballot(
    ids: Seq<NodeId>,
    ties: Map<NodeId, Vec<(NodeId, u64)>>,
    labels: Map<NodeId, NodeId>,
) -> bool {
    &&& increasing(ids)
    &&& ids.to_set() == ties.dom()
    &&& labels.dom() == ties.dom()
    &&& are_known(ties_view(ties))
}

/// Whether an edge counts as a vote: it carries the label and has a positive finite weight.
pub open spec fn counts_as_vote(label: Option<Seq<char>>, edge: crate::node::EdgeView) -> bool {
    f32_finite(edge.weight) && f32_positive(edge.weight) && label_fits(label, edge)
}

/// Whether a list of ties names a node.
pub open spec fn lists_tie(list: Seq<(NodeId, u64)>, id: NodeId) -> bool {
    exists|i: int| 0 <= i < list.len() && (#[trigger] list[i]).0 == id
}

/// The ties of all nodes as mathematical values.
pub open spec fn ties_view(ties: Map<NodeId, Vec<(NodeId, u64)>>) -> Map<
    NodeId,
    Seq<(NodeId, u64)>,
> {
    ties.map_values(|list: Vec<(NodeId, u64)>| list@)
}

/// Whether every tie leads to a node that has ties of its own.
pub open spec fn are_known(ties: Map<NodeId, Seq<(NodeId, u64)>>) -> bool {
    forall|id: NodeId, i: int|
        ties.contains_key(id) && 0 <= i < ties[id].len() ==> ties.contains_key(
            (#[trigger] ties[id][i]).0,
        )
}

/// The elements of two lists, in ascending order.
pub(crate) fn join_lists(a: &Vec<NodeId>, b: &Vec<NodeId>) -> (joined: Vec<NodeId>)
    ensures
        increasing(joined@),
        forall|id: NodeId| #[trigger] joined@.contains(id) <==> a@.contains(id) || b@.contains(id),
{
    let mut all: Vec<NodeId> = Vec::new();
    let mut i: usize = 0;
    assert(a@.take(0) =~= all@);
    while i < a.len()
        invariant
            i <= a@.len(),
            all@ == a@.take(i as int),
        decreases a@.len() - i,
    {
        all.push(a[i]);
        assert(a@.take(i + 1) =~= a@.take(i as int).push(a@[i as int]));
        i += 1;
    }
    assert(a@.take(i as int) =~= a@);
    let mut j: usize = 0;
    assert(a@ + b@.take(0) =~= all@);
    while j < b.len()
        invariant
            j <= b@.len(),
            all@ == a@ + b@.take(j as int),
        decreases b@.len() - j,
    {
        all.push(b[j]);
        assert(a@ + b@.take(j + 1) =~= (a@ + b@.take(j as int)).push(b@[j as int]));
        j += 1;
    }
    assert(b@.take(j as int) =~= b@);
    let joined = sort_dedup(&all);
    proof {
        assert forall|id: NodeId| #[trigger] joined@.contains(id) <==> a@.contains(id)
            || b@.contains(id) by {
            if a@.contains(id) {
                let n = choose|n: int| 0 <= n < a@.len() && a@[n] == id;
                assert(all@[n] == id);
            }
            if b@.contains(id) {
                let n = choose|n: int| 0 <= n < b@.len() && b@[n] == id;
                assert(all@[a@.len() + n] == id);
            }
            if all@.contains(id) {
                let n = choose|n: int| 0 <= n < all@.len() && all@[n] == id;
                if n < a@.len() {
                    assert(a@[n] == id);
                } else {
                    assert(b@[n - a@.len()] == id);
                }
            }
        }
    }
    joined
}

/// The nodes with a label.
pub open spec fn community(labels: Map<NodeId, NodeId>, label: NodeId) -> Set<NodeId> {
    labels.dom().filter(|id: NodeId| labels[id] == label)
}

/// Whether `kept` are the labels of the communities that are large enough, in ascending order.
pub open spec fn are_kept(
    labels: Map<NodeId, NodeId>,
    min_size: usize,
    kept: Seq<NodeId>,
) -> bool {
    increasing(kept) && forall|label: NodeId| #[trigger]
        kept.contains(label) <==> community(labels, label).len() >= min_size
}

/// Whether the communities that are large enough are numbered from one in the order of their
/// labels, and the other nodes are left out.
pub open spec fn is_numbering(
    labels: Map<NodeId, NodeId>,
    kept: Seq<NodeId>,
    numbers: Map<NodeId, u64>,
) -> bool {
    &&& forall|id: NodeId| #[trigger]
        numbers.contains_key(id) <==> labels.contains_key(id) && kept.contains(labels[id])
    &&& forall|id: NodeId| #[trigger]
        numbers.contains_key(id) ==> 1 <= numbers[id] <= kept.len() && kept[numbers[id] - 1]
            == labels[id]
}

/// The size of each community.
fn community_sizes(ids: &Vec<NodeId>, labels: &BTreeMap<NodeId, NodeId>) -> (sizes: BTreeMap<
    NodeId,
    usize,
>)
    requires
        increasing(ids@),
        ids@.to_set() == labels@.dom(),
    ensures
        forall|label: NodeId| #[trigger]
            sizes@.contains_key(label) <==> community(labels@, label).len() > 0,
        forall|label: NodeId| #[trigger]
            sizes@.contains_key(label) ==> sizes@[label] == community(labels@, label).len(),
{
    let mut sizes: BTreeMap<NodeId, usize> = BTreeMap::new();
    let mut i: usize = 0;
    proof {
        assert forall|label: NodeId| (#[trigger] part(ids@, labels@, 0, label)).len() == 0 by {
            assert(part(ids@, labels@, 0, label) =~= Set::<NodeId>::empty());
        }
    }
    while i < ids.len()
        invariant
            increasing(ids@),
            ids@.to_set() == labels@.dom(),
            i <= ids@.len(),
            forall|label: NodeId| #[trigger]
                sizes@.contains_key(label) <==> part(ids@, labels@, i as int, label).len() > 0,
            forall|label: NodeId| #[trigger]
                sizes@.contains_key(label) ==> sizes@[label] == part(
                    ids@,
                    labels@,
                    i as int,
                    label,
                ).len(),
        decreases ids@.len() - i,
    {
        let id: NodeId = ids[i];
        let ghost before = sizes@;
        proof {
            assert(ids@.contains(id));
            assert(ids@.to_set().contains(id));
        }
        let label: NodeId = *labels.get(&id).unwrap();
        let count: usize = match sizes.get(&label) {
            Some(count) => *count,
            None => 0,
        };
        proof {
            lemma_part_next(ids@, labels@, i as int, label);
            lemma_part_bound(ids@, labels@, i as int, label);
        }
        sizes.insert(label, count + 1);
        proof {
            assert forall|other: NodeId| #[trigger] sizes@.contains_key(other) <==> part(
                ids@,
                labels@,
                i + 1,
                other,
            ).len() > 0 by {
                lemma_part_next(ids@, labels@, i as int, other);
                assert(before.contains_key(other) <==> part(
                    ids@,
                    labels@,
                    i as int,
                    other,
                ).len() > 0);
            }
            assert forall|other: NodeId| #[trigger] sizes@.contains_key(other) implies sizes@[other]
                == part(ids@, labels@, i + 1, other).len() by {
                lemma_part_next(ids@, labels@, i as int, other);
                assert(before.contains_key(other) <==> part(
                    ids@,
                    labels@,
                    i as int,
                    other,
                ).len() > 0);
            }
        }
        i += 1;
    }
    proof {
        assert(ids@.take(i as int) =~= ids@);
        assert forall|label: NodeId| #[trigger] part(ids@, labels@, i as int, label) == community(
            labels@,
            label,
        ) by {
            assert(part(ids@, labels@, i as int, label) =~= community(labels@, label));
        }
        assert forall|label: NodeId| #[trigger] sizes@.contains_key(label) <==> community(
            labels@,
            label,
        ).len() > 0 by {
            assert(part(ids@, labels@, i as int, label) == community(labels@, label));
        }
        assert forall|label: NodeId| #[trigger] sizes@.contains_key(label) implies sizes@[label]
            == community(labels@, label).len() by {
            assert(part(ids@, labels@, i as int, label) == community(labels@, label));
        }
    }
    sizes
}

/// The nodes with a label among the first `count`.
spec fn part(ids: Seq<NodeId>, labels: Map<NodeId, NodeId>, count: int, label: NodeId) -> Set<
    NodeId,
> {
    ids.take(count).to_set().filter(|id: NodeId| labels[id] == label)
}

/// One more node.
proof fn lemma_part_next(
    ids: Seq<NodeId>,
    labels: Map<NodeId, NodeId>,
    count: int,
    label: NodeId,
)
    requires
        increasing(ids),
        0 <= count < ids.len(),
    ensures
        part(ids, labels, count + 1, label).len() == part(ids, labels, count, label).len()
            + if labels[ids[count]] == label {
            1nat
        } else {
            0nat
        },
{
    let id = ids[count];
    assert(ids.take(count + 1) =~= ids.take(count).push(id));
    lemma_to_set_push(ids.take(count), id);
    assert(!ids.take(count).to_set().contains(id)) by {
        if ids.take(count).contains(id) {
            let k = choose|k: int| 0 <= k < count && ids.take(count)[k] == id;
            assert(ids[k] < ids[count]);
        }
    }
    if labels[id] == label {
        assert(part(ids, labels, count + 1, label) =~= part(ids, labels, count, label).insert(id));
    } else {
        assert(part(ids, labels, count + 1, label) =~= part(ids, labels, count, label));
    }
}

/// No more nodes have a label than there are.
proof fn lemma_part_bound(
    ids: Seq<NodeId>,
    labels: Map<NodeId, NodeId>,
    count: int,
    label: NodeId,
)
    requires
        0 <= count <= ids.len(),
    ensures
        part(ids, labels, count, label).len() <= count,
{
    vstd::set_lib::lemma_len_subset(part(ids, labels, count, label), ids.take(count).to_set());
    ids.take(count).lemma_cardinality_of_set();
}

/// Numbers the communities that are large enough.
fn number_communities(
    ids: &Vec<NodeId>,
    labels: &BTreeMap<NodeId, NodeId>,
    min_size: usize,
) -> (numbers: BTreeMap<NodeId, u64>)
    requires
        min_size > 0,
        increasing(ids@),
        ids@.to_set() == labels@.dom(),
    ensures
        exists|kept: Seq<NodeId>| #[trigger]
            are_kept(labels@, min_size, kept) && is_numbering(labels@, kept, numbers@),
{
    let sizes = community_sizes(ids, labels);
    let all = map_keys(&sizes);
    let mut kept: Vec<NodeId> = Vec::new();
    let mut places: BTreeMap<NodeId, u64> = BTreeMap::new();
    let mut i: usize = 0;
    while i < all.len()
        invariant
            i <= all@.len(),
            increasing(all@),
            all@.to_set() == sizes@.dom(),
            increasing(kept@),
            kept@.len() <= i,
            forall|n: int| 0 <= n < kept@.len() ==> i > 0 && (#[trigger] kept@[n]) <= all@[i - 1],
            forall|label: NodeId| #[trigger]
                kept@.contains(label) <==> all@.take(i as int).contains(label) && sizes@[label]
                    >= min_size,
            forall|label: NodeId| #[trigger]
                places@.contains_key(label) <==> kept@.contains(label),
            forall|label: NodeId| #[trigger]
                places@.contains_key(label) ==> 1 <= places@[label] <= kept@.len()
                    && kept@[places@[label] - 1] == label,
        decreases all@.len() - i,
    {
        let label: NodeId = all[i];
        let ghost held = kept@;
        let ghost before = places@;
        proof {
            assert(all@.contains(label));
            assert(all@.to_set().contains(label));
            assert(all@.take(i + 1) =~= all@.take(i as int).push(label));
            if i > 0 {
                assert(all@[i - 1] < all@[i as int]);
            }
        }
        if *sizes.get(&label).unwrap() >= min_size {
            kept.push(label);
            places.insert(label, kept.len() as u64);
        }
        proof {
            assert forall|other: NodeId| #[trigger] kept@.contains(other) <==> all@.take(
                i + 1,
            ).contains(other) && sizes@[other] >= min_size by {
                lemma_contains_push(all@.take(i as int), label, other);
                lemma_contains_push(held, label, other);
                assert(held.contains(other) <==> all@.take(i as int).contains(other)
                    && sizes@[other] >= min_size);
            }
            assert forall|other: NodeId| #[trigger] places@.contains_key(other)
                <==> kept@.contains(other) by {
                lemma_contains_push(held, label, other);
                assert(before.contains_key(other) <==> held.contains(other));
            }
            assert forall|other: NodeId| #[trigger] places@.contains_key(other) implies 1
                <= places@[other] <= kept@.len() && kept@[places@[other] - 1] == other by {
                if other != label {
                    assert(before.contains_key(other));
                } else if before.contains_key(label) {
                    assert(held.contains(label));
                    let n = choose|n: int| 0 <= n < held.len() && held[n] == label;
                    assert(held[n] <= all@[i - 1]);
                }
            }
        }
        i += 1;
    }
    proof {
        assert(all@.take(i as int) =~= all@);
        assert forall|label: NodeId| #[trigger] kept@.contains(label) <==> community(
            labels@,
            label,
        ).len() >= min_size by {
            assert(all@.to_set().contains(label) <==> all@.contains(label));
            assert(sizes@.contains_key(label) <==> community(labels@, label).len() > 0);
        }
        assert(are_kept(labels@, min_size, kept@));
    }
    let mut numbers: BTreeMap<NodeId, u64> = BTreeMap::new();
    let mut k: usize = 0;
    while k < ids.len()
        invariant
            increasing(ids@),
            ids@.to_set() == labels@.dom(),
            k <= ids@.len(),
            forall|label: NodeId| #[trigger]
                places@.contains_key(label) <==> kept@.contains(label),
            forall|label: NodeId| #[trigger]
                places@.contains_key(label) ==> 1 <= places@[label] <= kept@.len()
                    && kept@[places@[label] - 1] == label,
            forall|id: NodeId| #[trigger]
                numbers@.contains_key(id) <==> ids@.take(k as int).contains(id) && kept@.contains(
                    labels@[id],
                ),
            forall|id: NodeId| #[trigger]
                numbers@.contains_key(id) ==> 1 <= numbers@[id] <= kept@.len()
                    && kept@[numbers@[id] - 1] == labels@[id],
        decreases ids@.len() - k,
    {
        let id: NodeId = ids[k];
        let ghost before = numbers@;
        proof {
            assert(ids@.contains(id));
            assert(ids@.to_set().contains(id));
            assert(ids@.take(k + 1) =~= ids@.take(k as int).push(id));
        }
        let label: NodeId = *labels.get(&id).unwrap();
        match places.get(&label) {
            Some(place) => {
                numbers.insert(id, *place);
            },
            None => {},
        }
        proof {
            assert forall|other: NodeId| #[trigger] numbers@.contains_key(other) <==> ids@.take(
                k + 1,
            ).contains(other) && kept@.contains(labels@[other]) by {
                lemma_contains_push(ids@.take(k as int), id, other);
                assert(before.contains_key(other) <==> ids@.take(k as int).contains(other)
                    && kept@.contains(labels@[other]));
            }
        }
        k += 1;
    }
    proof {
        assert(ids@.take(k as int) =~= ids@);
        assert forall|id: NodeId| #[trigger] numbers@.contains_key(id) <==> labels@.contains_key(id)
            && kept@.contains(labels@[id]) by {
            assert(ids@.to_set().contains(id) <==> ids@.contains(id));
        }
        assert(is_numbering(labels@, kept@, numbers@));
    }
    numbers
}

/// Whether a result is what label propagation on some nodes gives.
pub open spec fn is_propagation<T: VectorType, A: Fn(u64, u32) -> u64, P: Fn(u64, u64) -> u64>(
    table: Table<T>,
    nodes: Set<NodeId>,
    config: LabelPropagationConfig,
    label: Option<Seq<char>>,
    arithmetic: VoteArithmetic<A, P>,
    result: LabelPropagationResult,
) -> bool {
    exists|
        ties: Map<NodeId, Seq<(NodeId, u64)>>,
        history: Seq<Map<NodeId, NodeId>>,
        kept: Seq<NodeId>,
    |
        {
            &&& ties.dom() == nodes
            &&& forall|id: NodeId| #[trigger]
                ties.contains_key(id) ==> arithmetic.are_ties(table, nodes, label, id, ties[id])
            &&& #[trigger] arithmetic.is_history(
                ties,
                history,
                config.max_iterations,
                result.converged,
            )
            &&& result.iterations == history.len() - 1
            &&& #[trigger] are_kept(history.last(), config.min_community_size, kept)
            &&& is_numbering(history.last(), kept, result.node_to_community@)
        }
}

/// Whether `result` is what looking for the communities of some nodes comes to.
pub open spec fn is_propagation_outcome<
    T: VectorType,
    A: Fn(u64, u32) -> u64,
    P: Fn(u64, u64) -> u64,
>(
    table: Table<T>,
    nodes: Set<NodeId>,
    config: LabelPropagationConfig,
    label: Option<Seq<char>>,
    max_examined_edges: usize,
    arithmetic: VoteArithmetic<A, P>,
    result: Result<LabelPropagationResult>,
) -> bool {
    if config.max_iterations == 0 || config.min_community_size == 0 {
        result matches Err(error) && is_query_execution(
            error,
            "标签传播迭代次数和最小社区大小必须大于 0 (Label propagation limits must be positive)"@,
        )
    } else {
        exists|edges: nat|
            #[trigger] is_edge_count(table, nodes, edges) && if saturated(edges)
                > max_examined_edges {
                result matches Err(error) && is_query_execution(
                    error,
                    "标签传播超过边访问预算 (Label propagation exceeds edge examination budget)"@,
                )
            } else {
                result matches Ok(found) && found.examined_edges == saturated(edges)
                    && is_propagation(table, nodes, config, label, arithmetic, found)
            }
    }
}

/// Finds communities among some nodes: every node starts with a label of its own and takes, round
/// by round, the label with the most votes among its neighbours, until nothing changes.
pub fn deterministic_label_propagation<
    T: VectorType,
    A: Fn(u64, u32) -> u64,
    P: Fn(u64, u64) -> u64,
>(
    mt: &MemTable<T>,
    nodes: &BTreeSet<NodeId>,
    config: LabelPropagationConfig,
    label_filter: Option<&str>,
    max_examined_edges: usize,
    arithmetic: &VoteArithmetic<A, P>,
) -> (result: Result<LabelPropagationResult>)
    requires
        arithmetic.sound(),
    ensures
        is_propagation_outcome(
            mt@,
            nodes@,
            config,
            label_view(label_filter),
            max_examined_edges,
            *arithmetic,
            result,
        ),
{
    let pick_all = |
        ids: &Vec<NodeId>,
        ties: &BTreeMap<NodeId, Vec<(NodeId, u64)>>,
        labels: &BTreeMap<NodeId, NodeId>,
    | -> (picked: Vec<NodeId>)
        requires
            is_ballot(ids@, ties@, labels@),
        ensures
            arithmetic.are_picks(ids@, ties_view(ties@), labels@, picked@),
        { arithmetic.pick_labels(ids, ties, labels) };
    deterministic_label_propagation_parallel(
        mt,
        nodes,
        config,
        label_filter,
        max_examined_edges,
        arithmetic,
        pick_all,
    )
}

/// Communities as [`deterministic_label_propagation`] finds them, where `pick_all` gives the labels
/// that all nodes take in a round, in whatever order or at the same time.
pub fn deterministic_label_propagation_parallel<
    T: VectorType,
    A: Fn(u64, u32) -> u64,
    P: Fn(u64, u64) -> u64,
    R: Fn(
        &Vec<NodeId>,
        &BTreeMap<NodeId, Vec<(NodeId, u64)>>,
        &BTreeMap<NodeId, NodeId>,
    ) -> Vec<NodeId>,
>(
    mt: &MemTable<T>,
    nodes: &BTreeSet<NodeId>,
    config: LabelPropagationConfig,
    label_filter: Option<&str>,
    max_examined_edges: usize,
    arithmetic: &VoteArithmetic<A, P>,
    pick_all: R,
) -> (result: Result<LabelPropagationResult>)
    requires
        arithmetic.sound(),
        arithmetic.picks_labels(pick_all),
    ensures
        is_propagation_outcome(
            mt@,
            nodes@,
            config,
            label_view(label_filter),
            max_examined_edges,
            *arithmetic,
            result,
        ),
{
    if config.max_iterations == 0 || config.min_community_size == 0 {
        return Err(
            query_execution(
                "标签传播迭代次数和最小社区大小必须大于 0 (Label propagation limits must be positive)",
            ),
        );
    }
    let ids = set_elements(nodes);
    assert(is_edge_count(mt@, nodes@, edge_total(mt@, ids@, ids@.len())));
    let examined_edges: usize = match count_edges(
        mt,
        nodes,
        &ids,
        label_filter,
        max_examined_edges,
    ) {
        Some((examined, _)) => examined,
        None => {
            return Err(
                query_execution(
                    "标签传播超过边访问预算 (Label propagation exceeds edge examination budget)",
                ),
            );
        },
    };
    let ties = arithmetic.gather_ties(mt, nodes, &ids, label_filter);
    let ghost all = ties_view(ties@);
    proof {
        assert(all.dom() =~= nodes@);
        assert forall|id: NodeId| #[trigger] all.contains_key(id) implies arithmetic.are_ties(
            mt@,
            nodes@,
            label_view(label_filter),
            id,
            all[id],
        ) by {
            assert(ties@.contains_key(id));
        }
        assert forall|id: NodeId, i: int|
            all.contains_key(id) && 0 <= i < all[id].len() implies all.contains_key(
            (#[trigger] all[id][i]).0,
        ) by {
            assert(arithmetic.are_ties(mt@, nodes@, label_view(label_filter), id, all[id]));
        }
    }
    let mut labels: BTreeMap<NodeId, NodeId> = BTreeMap::new();
    let mut n: usize = 0;
    assert(labels@.dom() =~= ids@.take(0).to_set());
    while n < ids.len()
        invariant
            n <= ids@.len(),
            labels@.dom() == ids@.take(n as int).to_set(),
            forall|id: NodeId| #[trigger] labels@.contains_key(id) ==> labels@[id] == id,
        decreases ids@.len() - n,
    {
        labels.insert(ids[n], ids[n]);
        proof {
            assert(ids@.take(n + 1) =~= ids@.take(n as int).push(ids@[n as int]));
            lemma_to_set_push(ids@.take(n as int), ids@[n as int]);
            assert(labels@.dom() =~= ids@.take(n + 1).to_set());
        }
        n += 1;
    }
    assert(ids@.take(n as int) =~= ids@);
    let ghost mut history: Seq<Map<NodeId, NodeId>> = seq![labels@];
    assert(labels@ =~= Map::new(|id: NodeId| all.contains_key(id), |id: NodeId| id));
    let mut iterations: usize = 0;
    let mut converged = false;
    while iterations < config.max_iterations && !converged
        invariant
            arithmetic.picks_labels(pick_all),
            increasing(ids@),
            ids@.to_set() == ties@.dom(),
            all == ties_view(ties@),
            are_known(all),
            config.max_iterations > 0,
            labels@.dom() == ties@.dom(),
            iterations <= config.max_iterations,
            history.len() == iterations + 1,
            history[0] == Map::new(|id: NodeId| all.contains_key(id), |id: NodeId| id),
            labels@ == history.last(),
            forall|i: int|
                0 <= i < history.len() - 1 ==> arithmetic.is_round(
                    all,
                    #[trigger] history[i],
                    history[i + 1],
                ),
            forall|i: int|
                0 <= i < history.len() - 2 ==> (#[trigger] history[i]) != history[i + 1],
            iterations == 0 ==> !converged,
            iterations > 0 ==> converged == (history[history.len() - 2] == history.last()),
        decreases config.max_iterations - iterations,
    {
        let ghost before = history;
        let (next, changed): (BTreeMap<NodeId, NodeId>, bool) = arithmetic.pass_labels(
            &ids,
            &ties,
            &labels,
            &pick_all,
        );
        proof {
            history = history.push(next@);
            assert forall|i: int| 0 <= i < history.len() - 1 implies arithmetic.is_round(
                all,
                #[trigger] history[i],
                history[i + 1],
            ) by {
                if i < before.len() - 1 {
                    assert(arithmetic.is_round(all, before[i], before[i + 1]));
                }
            }
            assert forall|i: int| 0 <= i < history.len() - 2 implies (#[trigger] history[i])
                != history[i + 1] by {
                if i < before.len() - 2 {
                    assert(before[i] != before[i + 1]);
                }
            }
            assert(next@.dom() == all.dom());
            assert(all.dom() =~= ties@.dom());
        }
        labels = next;
        iterations += 1;
        converged = !changed;
    }
    let node_to_community = number_communities(&ids, &labels, config.min_community_size);
    let found = LabelPropagationResult {
        node_to_community,
        iterations,
        converged,
        examined_edges,
    };
    proof {
        let kept = choose|kept: Seq<NodeId>| #[trigger]
            are_kept(labels@, config.min_community_size, kept) && is_numbering(
                labels@,
                kept,
                node_to_community@,
            );
        assert(all.dom() == nodes@);
        assert(is_numbering(history.last(), kept, found.node_to_community@));
        assert(arithmetic.is_history(all, history, config.max_iterations, found.converged));
        assert(are_kept(history.last(), config.min_community_size, kept));
        assert(is_propagation(
            mt@,
            nodes@,
            config,
            label_view(label_filter),
            *arithmetic,
            found,
        ));
    }
    Ok(found)
}

/// One round has one outcome.
pub proof fn law_round_is_determined<A: Fn(u64, u32) -> u64, P: Fn(u64, u64) -> u64>(
    arithmetic: VoteArithmetic<A, P>,
    ties: Map<NodeId, Seq<(NodeId, u64)>>,
    labels: Map<NodeId, NodeId>,
    a: Map<NodeId, NodeId>,
    b: Map<NodeId, NodeId>,
)
    requires
        arithmetic.is_round(ties, labels, a),
        arithmetic.is_round(ties, labels, b),
    ensures
        a == b,
{
    assert forall|id: NodeId| #[trigger] a.contains_key(id) implies a[id] == b[id] by {
        assert(ties.contains_key(id));
        if ties[id].len() > 0 {
            let count = ties[id].len() as int;
            assert(arithmetic.votes(ties[id], labels, a[id], count) is Some);
            assert(arithmetic.votes(ties[id], labels, b[id], count) is Some);
        }
    }
    assert(a =~= b);
}

/// Every community that is reported has at least the required size, and its number tells it apart
/// from the others.
pub proof fn law_communities(
    labels: Map<NodeId, NodeId>,
    min_size: usize,
    kept: Seq<NodeId>,
    numbers: Map<NodeId, u64>,
    a: NodeId,
    b: NodeId,
)
    requires
        are_kept(labels, min_size, kept),
        is_numbering(labels, kept, numbers),
        numbers.contains_key(a),
        numbers.contains_key(b),
    ensures
        community(labels, labels[a]).len() >= min_size,
        numbers[a] == numbers[b] <==> labels[a] == labels[b],
        numbers[a] < numbers[b] <==> labels[a] < labels[b],
{
    assert(kept.contains(labels[a]));
    let i = numbers[a] - 1;
    let j = numbers[b] - 1;
    if i < j {
        assert(kept[i] < kept[j]);
    } else if j < i {
        assert(kept[j] < kept[i]);
    }
}

/// A node has one list of ties.
proof fn lemma_ties_agree<T: VectorType, A: Fn(u64, u32) -> u64, P: Fn(u64, u64) -> u64>(
    table: Table<T>,
    nodes: Set<NodeId>,
    label: Option<Seq<char>>,
    arithmetic: VoteArithmetic<A, P>,
    id: NodeId,
    one: Seq<(NodeId, u64)>,
    other: Seq<(NodeId, u64)>,
)
    requires
        arithmetic.are_ties(table, nodes, label, id, one),
        arithmetic.are_ties(table, nodes, label, id, other),
    ensures
        one == other,
{
    let a = Seq::new(one.len(), |i: int| one[i].0);
    let b = Seq::new(other.len(), |i: int| other[i].0);
    assert forall|to: NodeId| a.to_set().contains(to) <==> b.to_set().contains(to) by {
        if a.contains(to) {
            let i = choose|i: int| 0 <= i < a.len() && a[i] == to;
            assert(one[i].0 == to);
            assert(arithmetic.tie(table, label, id, to) is Some);
            assert(lists_tie(other, to));
            let j = choose|j: int| 0 <= j < other.len() && (#[trigger] other[j]).0 == to;
            assert(b[j] == to);
        }
        if b.contains(to) {
            let i = choose|i: int| 0 <= i < b.len() && b[i] == to;
            assert(other[i].0 == to);
            assert(arithmetic.tie(table, label, id, to) is Some);
            assert(lists_tie(one, to));
            let j = choose|j: int| 0 <= j < one.len() && (#[trigger] one[j]).0 == to;
            assert(a[j] == to);
        }
    }
    assert(a.to_set() =~= b.to_set());
    lemma_increasing_unique(a, b);
    assert forall|i: int| 0 <= i < one.len() implies one[i] == other[i] by {
        assert(a[i] == b[i]);
        assert(one[i].0 == other[i].0);
    }
    assert(one =~= other);
}

/// The same ties make the same rounds.
proof fn lemma_histories_agree<A: Fn(u64, u32) -> u64, P: Fn(u64, u64) -> u64>(
    arithmetic: VoteArithmetic<A, P>,
    ties: Map<NodeId, Seq<(NodeId, u64)>>,
    max_iterations: usize,
    one: Seq<Map<NodeId, NodeId>>,
    converged: bool,
    other: Seq<Map<NodeId, NodeId>>,
    converged_too: bool,
    count: int,
)
    requires
        arithmetic.is_history(ties, one, max_iterations, converged),
        arithmetic.is_history(ties, other, max_iterations, converged_too),
        0 <= count <= one.len(),
        count <= other.len(),
    ensures
        forall|i: int| 0 <= i < count ==> #[trigger] one[i] == other[i],
    decreases count,
{
    if count > 1 {
        lemma_histories_agree(
            arithmetic,
            ties,
            max_iterations,
            one,
            converged,
            other,
            converged_too,
            count - 1,
        );
        assert(one[count - 2] == other[count - 2]);
        assert(arithmetic.is_round(ties, one[count - 2], one[count - 2 + 1]));
        assert(arithmetic.is_round(ties, other[count - 2], other[count - 2 + 1]));
        law_round_is_determined(
            arithmetic,
            ties,
            one[count - 2],
            one[count - 1],
            other[count - 1],
        );
    }
}

/// One of two histories is not shorter than the other.
proof fn lemma_history_not_shorter<A: Fn(u64, u32) -> u64, P: Fn(u64, u64) -> u64>(
    arithmetic: VoteArithmetic<A, P>,
    ties: Map<NodeId, Seq<(NodeId, u64)>>,
    max_iterations: usize,
    one: Seq<Map<NodeId, NodeId>>,
    converged: bool,
    other: Seq<Map<NodeId, NodeId>>,
    converged_too: bool,
)
    requires
        arithmetic.is_history(ties, one, max_iterations, converged),
        arithmetic.is_history(ties, other, max_iterations, converged_too),
    ensures
        one.len() >= other.len(),
{
    if one.len() < other.len() {
        lemma_histories_agree(
            arithmetic,
            ties,
            max_iterations,
            one,
            converged,
            other,
            converged_too,
            one.len() as int,
        );
        let i = one.len() - 2;
        assert(one[i] == other[i]);
        assert(one[i + 1] == other[i + 1]);
        assert(converged);
        assert(other[i] != other[i + 1]);
    }
}

/// Communities do not depend on the order in which the votes of a round are counted: two answers
/// agree.
pub proof fn law_communities_agree<
    T: VectorType,
    A: Fn(u64, u32) -> u64,
    P: Fn(u64, u64) -> u64,
>(
    table: Table<T>,
    nodes: Set<NodeId>,
    config: LabelPropagationConfig,
    label: Option<Seq<char>>,
    arithmetic: VoteArithmetic<A, P>,
    one: LabelPropagationResult,
    other: LabelPropagationResult,
)
    requires
        is_propagation(table, nodes, config, label, arithmetic, one),
        is_propagation(table, nodes, config, label, arithmetic, other),
    ensures
        one.node_to_community@ == other.node_to_community@,
        one.iterations == other.iterations,
        one.converged == other.converged,
{
    let (ties, history, kept) = choose|
        ties: Map<NodeId, Seq<(NodeId, u64)>>,
        history: Seq<Map<NodeId, NodeId>>,
        kept: Seq<NodeId>,
    |
        {
            &&& ties.dom() == nodes
            &&& forall|id: NodeId| #[trigger]
                ties.contains_key(id) ==> arithmetic.are_ties(table, nodes, label, id, ties[id])
            &&& #[trigger] arithmetic.is_history(
                ties,
                history,
                config.max_iterations,
                one.converged,
            )
            &&& one.iterations == history.len() - 1
            &&& #[trigger] are_kept(history.last(), config.min_community_size, kept)
            &&& is_numbering(history.last(), kept, one.node_to_community@)
        };
    let (more, course, held) = choose|
        ties: Map<NodeId, Seq<(NodeId, u64)>>,
        history: Seq<Map<NodeId, NodeId>>,
        kept: Seq<NodeId>,
    |
        {
            &&& ties.dom() == nodes
            &&& forall|id: NodeId| #[trigger]
                ties.contains_key(id) ==> arithmetic.are_ties(table, nodes, label, id, ties[id])
            &&& #[trigger] arithmetic.is_history(
                ties,
                history,
                config.max_iterations,
                other.converged,
            )
            &&& other.iterations == history.len() - 1
            &&& #[trigger] are_kept(history.last(), config.min_community_size, kept)
            &&& is_numbering(history.last(), kept, other.node_to_community@)
        };
    assert forall|id: NodeId| #[trigger] ties.contains_key(id) implies ties[id] == more[id] by {
        assert(more.contains_key(id));
        lemma_ties_agree(table, nodes, label, arithmetic, id, ties[id], more[id]);
    }
    assert(ties =~= more);
    let limit = config.max_iterations;
    lemma_history_not_shorter(
        arithmetic,
        ties,
        limit,
        history,
        one.converged,
        course,
        other.converged,
    );
    lemma_history_not_shorter(
        arithmetic,
        ties,
        limit,
        course,
        other.converged,
        history,
        one.converged,
    );
    lemma_histories_agree(
        arithmetic,
        ties,
        limit,
        history,
        one.converged,
        course,
        other.converged,
        history.len() as int,
    );
    assert(history =~= course);
    assert(kept.to_set() =~= held.to_set()) by {
        assert forall|id: NodeId| kept.to_set().contains(id) <==> held.to_set().contains(id) by {
            assert(kept.contains(id) <==> held.contains(id));
        }
    }
    lemma_increasing_unique(kept, held);
    let a = one.node_to_community@;
    let b = other.node_to_community@;
    assert forall|id: NodeId| a.contains_key(id) <==> b.contains_key(id) by {}
    assert forall|id: NodeId| #[trigger] a.contains_key(id) implies a[id] == b[id] by {
        assert(b.contains_key(id));
        let i = a[id] - 1;
        let j = b[id] - 1;
        if i < j {
            assert(kept[i] < kept[j]);
        } else if j < i {
            assert(kept[j] < kept[i]);
        }
    }
    assert(a =~= b);
}

} // verus!
