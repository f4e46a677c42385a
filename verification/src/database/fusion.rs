//! Joining the scores of several rankings.
use std::collections::BTreeMap;
use vstd::prelude::*;

use crate::collections::{increasing, map_keys};
use crate::node::{NodeId, SearchHit};
use crate::number::{f32_less, spec_f32_less};
use crate::ranking::{scored_order, Scored};
use crate::sorting::{is_best, keep_best, order_of, views};
use crate::sums::{lemma_sum_of_first, lemma_sum_take, sum_of, where_wanted};

verus! {

/// The encoding of single precision `1.0`.
pub const F32_ONE: u32 = 0x3f80_0000;

/// The operations on single precision bit patterns that a search needs: the sum of two scores,
/// the share that a rank is worth under a weight, and the share that a rank in a shadow search is
/// worth.
pub struct Arithmetic<P, R, S> {
    pub plus: P,
    pub share: R,
    pub shadow: S,
}

impl<P: Fn(u32, u32) -> u32, R: Fn(u32, usize) -> u32, S: Fn(usize) -> u32> Arithmetic<P, R, S> {
    /// Whether each operation can always be done and gives the same result for the same operands.
    pub open spec fn sound(&self) -> bool {
        &&& forall|a: u32, b: u32| call_requires(self.plus, (a, b))
        &&& forall|a: u32, b: u32, c: u32|
            call_ensures(self.plus, (a, b), c) ==> c == self.sum(a, b)
        &&& forall|weight: u32, rank: usize| call_requires(self.share, (weight, rank))
        &&& forall|weight: u32, rank: usize, c: u32|
            call_ensures(self.share, (weight, rank), c) ==> c == self.worth(weight, rank)
        &&& forall|rank: usize| call_requires(self.shadow, (rank,))
        &&& forall|rank: usize, c: u32|
            call_ensures(self.shadow, (rank,), c) ==> c == self.shadow_worth(rank)
    }

    /// The sum of two scores.
    pub open spec fn sum(&self, a: u32, b: u32) -> u32 {
        choose|c: u32| call_ensures(self.plus, (a, b), c)
    }

    /// What a rank is worth.
    pub open spec fn worth(&self, weight: u32, rank: usize) -> u32 {
        choose|c: u32| call_ensures(self.share, (weight, rank), c)
    }

    /// What a rank in a shadow search is worth.
    pub open spec fn shadow_worth(&self, rank: usize) -> u32 {
        choose|c: u32| call_ensures(self.shadow, (rank,), c)
    }

    /// The score of a node after the scores of `items` have been added to what it had; a node
    /// without a score starts at zero.
    pub open spec fn total(&self, base: Map<NodeId, u32>, items: Seq<Scored>, id: NodeId) -> Option<
        u32,
    >
        decreases items.len(),
    {
        if items.len() == 0 {
            score_of(base, id)
        } else {
            let before = self.total(base, items.drop_last(), id);
            if items.last().id == id {
                Some(
                    self.sum(
                        match before {
                            Some(score) => score,
                            None => 0,
                        },
                        items.last().score,
                    ),
                )
            } else {
                before
            }
        }
    }

    /// Whether `scores` are the scores after those of `items` have been added.
    pub open spec fn are_totals(
        &self,
        base: Map<NodeId, u32>,
        items: Seq<Scored>,
        scores: Map<NodeId, u32>,
    ) -> bool {
        forall|id: NodeId| #[trigger] score_of(scores, id) == self.total(base, items, id)
    }

    /// The nodes of a ranking with what their ranks are worth.
    pub open spec fn by_rank(&self, ranking: Seq<Scored>, weight: u32) -> Seq<Scored> {
        Seq::new(
            ranking.len(),
            |i: int| Scored { id: ranking[i].id, score: self.worth(weight, i as usize) },
        )
    }

    /// The nodes of a shadow ranking with what their ranks are worth.
    pub open spec fn by_shadow_rank(&self, ranking: Seq<Scored>) -> Seq<Scored> {
        Seq::new(
            ranking.len(),
            |i: int| Scored { id: ranking[i].id, score: self.shadow_worth(i as usize) },
        )
    }

    /// The score of a node in two rankings joined. A single dense ranking keeps its scores; of a
    /// single sparse ranking, and of both together, the ranks count.
    pub open spec fn fused(
        &self,
        dense: Seq<Scored>,
        sparse: Seq<Scored>,
        weight: u32,
        id: NodeId,
    ) -> Option<u32> {
        if sparse.len() == 0 {
            last_score(dense, id)
        } else if dense.len() == 0 {
            last_score(self.by_rank(sparse, weight), id)
        } else {
            self.total(
                Map::empty(),
                self.by_rank(dense, F32_ONE) + self.by_rank(sparse, weight),
                id,
            )
        }
    }

    /// Adds the scores of `items`.
    pub fn add_scores(&self, scores: &mut BTreeMap<NodeId, u32>, items: &Vec<Scored>)
        requires
            self.sound(),
        ensures
            self.are_totals(old(scores)@, items@, final(scores)@),
    {
        let ghost base = scores@;
        let mut i: usize = 0;
        assert(items@.take(0) =~= Seq::<Scored>::empty());
        while i < items.len()
            invariant
                self.sound(),
                i <= items@.len(),
                self.are_totals(base, items@.take(i as int), scores@),
            decreases items@.len() - i,
        {
            let item = items[i];
            let ghost before = scores@;
            let current: u32 = match scores.get(&item.id) {
                Some(score) => *score,
                None => 0,
            };
            let sum: u32 = (self.plus)(current, item.score);
            scores.insert(item.id, sum);
            proof {
                let few = items@.take(i as int);
                let more = items@.take(i + 1);
                assert(more.drop_last() =~= few);
                assert forall|id: NodeId| #[trigger] score_of(scores@, id) == self.total(
                    base,
                    more,
                    id,
                ) by {
                    assert(score_of(before, id) == self.total(base, few, id));
                }
            }
            i += 1;
        }
        assert(items@.take(i as int) =~= items@);
    }

    /// The nodes of a ranking with what their ranks are worth.
    fn rank_items(&self, ranking: &Vec<Scored>, weight: u32) -> (items: Vec<Scored>)
        requires
            self.sound(),
        ensures
            items@ == self.by_rank(ranking@, weight),
    {
        let mut items: Vec<Scored> = Vec::new();
        let mut i: usize = 0;
        while i < ranking.len()
            invariant
                self.sound(),
                i <= ranking@.len(),
                items@.len() == i,
                forall|k: int|
                    0 <= k < i ==> (#[trigger] items@[k]) == self.by_rank(ranking@, weight)[k],
            decreases ranking@.len() - i,
        {
            let score: u32 = (self.share)(weight, i);
            items.push(Scored { id: ranking[i].id, score });
            i += 1;
        }
        assert(items@ =~= self.by_rank(ranking@, weight));
        items
    }

    /// Joins a dense and a sparse ranking. A negative boost counts as zero.
    pub fn fuse_rankings_rrf(
        &self,
        dense: &Vec<Scored>,
        sparse: &Vec<Scored>,
        sparse_weight: u32,
    ) -> (scores: BTreeMap<NodeId, u32>)
        requires
            self.sound(),
        ensures
            forall|id: NodeId| #[trigger]
                score_of(scores@, id) == self.fused(
                    dense@,
                    sparse@,
                    boost_weight(sparse_weight),
                    id,
                ),
    {
        let mut scores: BTreeMap<NodeId, u32> = BTreeMap::new();
        if sparse.len() == 0 {
            set_scores(&mut scores, dense);
            return scores;
        }
        let weight: u32 = if f32_less(0, sparse_weight) {
            sparse_weight
        } else {
            0
        };
        let sparse_items = self.rank_items(sparse, weight);
        if dense.len() == 0 {
            set_scores(&mut scores, &sparse_items);
            return scores;
        }
        let dense_items = self.rank_items(dense, F32_ONE);
        assert(scores@ =~= Map::empty());
        self.add_scores(&mut scores, &dense_items);
        let ghost halfway = scores@;
        self.add_scores(&mut scores, &sparse_items);
        proof {
            assert forall|id: NodeId| #[trigger] score_of(scores@, id) == self.fused(
                dense@,
                sparse@,
                boost_weight(sparse_weight),
                id,
            ) by {
                assert(score_of(halfway, id) == self.total(Map::empty(), dense_items@, id));
                self.lemma_total_concat(Map::empty(), halfway, dense_items@, sparse_items@, id);
            }
        }
        scores
    }

    /// Adding two lists one after the other is adding both at once.
    proof fn lemma_total_concat(
        &self,
        base: Map<NodeId, u32>,
        halfway: Map<NodeId, u32>,
        first: Seq<Scored>,
        second: Seq<Scored>,
        id: NodeId,
    )
        requires
            score_of(halfway, id) == self.total(base, first, id),
        ensures
            self.total(halfway, second, id) == self.total(base, first + second, id),
        decreases second.len(),
    {
        if second.len() == 0 {
            assert(first + second =~= first);
        } else {
            assert((first + second).drop_last() =~= first + second.drop_last());
            self.lemma_total_concat(base, halfway, first, second.drop_last(), id);
        }
    }

    /// Adds what the ranks in a shadow ranking are worth.
    pub fn add_shadow(&self, scores: &mut BTreeMap<NodeId, u32>, ranking: &Vec<Scored>)
        requires
            self.sound(),
        ensures
            self.are_totals(old(scores)@, self.by_shadow_rank(ranking@), final(scores)@),
    {
        let mut items: Vec<Scored> = Vec::new();
        let mut i: usize = 0;
        while i < ranking.len()
            invariant
                self.sound(),
                i <= ranking@.len(),
                items@.len() == i,
                forall|k: int|
                    0 <= k < i ==> (#[trigger] items@[k]) == self.by_shadow_rank(ranking@)[k],
            decreases ranking@.len() - i,
        {
            let score: u32 = (self.shadow)(i);
            items.push(Scored { id: ranking[i].id, score });
            i += 1;
        }
        assert(items@ =~= self.by_shadow_rank(ranking@));
        self.add_scores(scores, &items);
    }

    /// The nodes that keywords or words of a text find, the greatest sum of scores first, at most
    /// `limit`.
    pub fn rank_text(&self, keywords: &Vec<Scored>, words: &Vec<Scored>, limit: usize) -> (ranking:
        Vec<Scored>)
        requires
            self.sound(),
        ensures
            exists|scores: Map<NodeId, u32>| #[trigger]
                self.are_totals(Map::empty(), keywords@ + words@, scores) && is_best(
                    scored_set(scores),
                    scored_order(),
                    limit as nat,
                    ranking@,
                ),
    {
        let mut scores: BTreeMap<NodeId, u32> = BTreeMap::new();
        assert(scores@ =~= Map::empty());
        self.add_scores(&mut scores, keywords);
        let ghost halfway = scores@;
        self.add_scores(&mut scores, words);
        proof {
            assert forall|id: NodeId| #[trigger] score_of(scores@, id) == self.total(
                Map::empty(),
                keywords@ + words@,
                id,
            ) by {
                assert(score_of(halfway, id) == self.total(Map::empty(), keywords@, id));
                self.lemma_total_concat(Map::empty(), halfway, keywords@, words@, id);
            }
            assert(self.are_totals(Map::empty(), keywords@ + words@, scores@));
        }
        rank_scores(&scores, limit)
    }
}

/// Whether a ranking lists a node once, at this rank; the best rank is zero.
pub open spec fn ranks_at(ranking: Seq<Scored>, id: NodeId, rank: int) -> bool {
    &&& 0 <= rank < ranking.len()
    &&& forall|i: int| 0 <= i < ranking.len() ==> ((#[trigger] ranking[i]).id == id <==> i == rank)
}

/// Whether a ranking does not list a node.
pub open spec fn leaves_out(ranking: Seq<Scored>, id: NodeId) -> bool {
    forall|i: int| 0 <= i < ranking.len() ==> (#[trigger] ranking[i]).id != id
}

impl<P: Fn(u32, u32) -> u32, R: Fn(u32, usize) -> u32, S: Fn(usize) -> u32> Arithmetic<P, R, S> {
    /// Adding the scores of others leaves the score of a node as it was.
    proof fn lemma_total_leaves_out(&self, base: Map<NodeId, u32>, items: Seq<Scored>, id: NodeId)
        requires
            leaves_out(items, id),
        ensures
            self.total(base, items, id) == score_of(base, id),
        decreases items.len(),
    {
        if items.len() > 0 {
            assert forall|i: int| 0 <= i < items.drop_last().len() implies (
            #[trigger] items.drop_last()[i]).id != id by {
                assert(items.drop_last()[i] == items[i]);
            }
            assert(items.last() == items[items.len() - 1]);
            self.lemma_total_leaves_out(base, items.drop_last(), id);
        }
    }

    /// A node that a list holds once gets its score there on top of what it had.
    proof fn lemma_total_once(
        &self,
        base: Map<NodeId, u32>,
        items: Seq<Scored>,
        id: NodeId,
        rank: int,
    )
        requires
            ranks_at(items, id, rank),
        ensures
            self.total(base, items, id) == Some(
                self.sum(
                    match score_of(base, id) {
                        Some(score) => score,
                        None => 0,
                    },
                    items[rank].score,
                ),
            ),
        decreases items.len(),
    {
        let before = items.drop_last();
        assert(items.last() == items[items.len() - 1]);
        assert forall|i: int| 0 <= i < before.len() implies #[trigger] before[i] == items[i] by {}
        if rank == items.len() - 1 {
            self.lemma_total_leaves_out(base, before, id);
        } else {
            self.lemma_total_once(base, before, id, rank);
        }
    }

    /// What two rankings that are both present make of a node. The dense ranking counts with weight
    /// one whatever the boost is, the sparse one with the boost; a node gets what its rank is worth
    /// from each ranking that lists it, and nothing where neither does.
    pub proof fn law_boost_weighs_the_sparse_ranking(
        &self,
        dense: Seq<Scored>,
        sparse: Seq<Scored>,
        boost: u32,
        id: NodeId,
        dense_rank: int,
        sparse_rank: int,
    )
        requires
            dense.len() > 0,
            sparse.len() > 0,
            dense.len() <= usize::MAX,
            sparse.len() <= usize::MAX,
        ensures
            ranks_at(dense, id, dense_rank) && leaves_out(sparse, id) ==> self.fused(
                dense,
                sparse,
                boost_weight(boost),
                id,
            ) == Some(self.sum(0, self.worth(F32_ONE, dense_rank as usize))),
            leaves_out(dense, id) && ranks_at(sparse, id, sparse_rank) && spec_f32_less(0, boost)
                ==> self.fused(dense, sparse, boost_weight(boost), id) == Some(
                self.sum(0, self.worth(boost, sparse_rank as usize)),
            ),
            leaves_out(dense, id) && ranks_at(sparse, id, sparse_rank) && !spec_f32_less(0, boost)
                ==> self.fused(dense, sparse, boost_weight(boost), id) == Some(
                self.sum(0, self.worth(0, sparse_rank as usize)),
            ),
            ranks_at(dense, id, dense_rank) && ranks_at(sparse, id, sparse_rank) && spec_f32_less(
                0,
                boost,
            ) ==> self.fused(dense, sparse, boost_weight(boost), id) == Some(
                self.sum(
                    self.sum(0, self.worth(F32_ONE, dense_rank as usize)),
                    self.worth(boost, sparse_rank as usize),
                ),
            ),
            leaves_out(dense, id) && leaves_out(sparse, id) ==> self.fused(
                dense,
                sparse,
                boost_weight(boost),
                id,
            ) is None,
    {
        let weight = boost_weight(boost);
        let first = self.by_rank(dense, F32_ONE);
        let second = self.by_rank(sparse, weight);
        let none = Map::<NodeId, u32>::empty();
        let halfway: Map<NodeId, u32> = match self.total(none, first, id) {
            Some(score) => none.insert(id, score),
            None => none,
        };
        self.lemma_total_concat(none, halfway, first, second, id);
        assert forall|i: int| 0 <= i < dense.len() implies (#[trigger] first[i]).id == dense[i].id by {
        }
        assert forall|i: int| 0 <= i < sparse.len() implies (#[trigger] second[i]).id
            == sparse[i].id by {}
        if leaves_out(dense, id) {
            self.lemma_total_leaves_out(none, first, id);
        }
        if ranks_at(dense, id, dense_rank) {
            self.lemma_total_once(none, first, id, dense_rank);
        }
        if leaves_out(sparse, id) {
            self.lemma_total_leaves_out(halfway, second, id);
        }
        if ranks_at(sparse, id, sparse_rank) {
            self.lemma_total_once(halfway, second, id, sparse_rank);
        }
    }

    /// The boost changes nothing about a node that only the dense ranking lists, however often it
    /// does, and neither does what else the sparse ranking lists.
    pub proof fn law_dense_ranks_ignore_the_boost(
        &self,
        dense: Seq<Scored>,
        sparse: Seq<Scored>,
        other_sparse: Seq<Scored>,
        boost: u32,
        other_boost: u32,
        id: NodeId,
    )
        requires
            dense.len() > 0,
            sparse.len() > 0,
            other_sparse.len() > 0,
            leaves_out(sparse, id),
            leaves_out(other_sparse, id),
        ensures
            self.fused(dense, sparse, boost_weight(boost), id) == self.fused(
                dense,
                other_sparse,
                boost_weight(other_boost),
                id,
            ),
    {
        let first = self.by_rank(dense, F32_ONE);
        let none = Map::<NodeId, u32>::empty();
        let halfway: Map<NodeId, u32> = match self.total(none, first, id) {
            Some(score) => none.insert(id, score),
            None => none,
        };
        let second = self.by_rank(sparse, boost_weight(boost));
        let other = self.by_rank(other_sparse, boost_weight(other_boost));
        assert forall|i: int| 0 <= i < sparse.len() implies (#[trigger] second[i]).id
            == sparse[i].id by {}
        assert forall|i: int| 0 <= i < other_sparse.len() implies (#[trigger] other[i]).id
            == other_sparse[i].id by {}
        self.lemma_total_concat(none, halfway, first, second, id);
        self.lemma_total_concat(none, halfway, first, other, id);
        self.lemma_total_leaves_out(halfway, second, id);
        self.lemma_total_leaves_out(halfway, other, id);
    }

    /// A ranking that stands alone: the dense one keeps its scores whatever the boost is, the sparse
    /// one counts by rank under the boost.
    pub proof fn law_single_rankings(
        &self,
        ranking: Seq<Scored>,
        boost: u32,
        id: NodeId,
        rank: int,
    )
        requires
            ranking.len() > 0,
            ranking.len() <= usize::MAX,
        ensures
            ranks_at(ranking, id, rank) ==> self.fused(
                ranking,
                Seq::empty(),
                boost_weight(boost),
                id,
            ) == Some(ranking[rank].score),
            ranks_at(ranking, id, rank) && spec_f32_less(0, boost) ==> self.fused(
                Seq::empty(),
                ranking,
                boost_weight(boost),
                id,
            ) == Some(self.worth(boost, rank as usize)),
            leaves_out(ranking, id) ==> self.fused(
                ranking,
                Seq::empty(),
                boost_weight(boost),
                id,
            ) is None && self.fused(Seq::empty(), ranking, boost_weight(boost), id) is None,
    {
        let items = self.by_rank(ranking, boost_weight(boost));
        assert forall|i: int| 0 <= i < ranking.len() implies (#[trigger] items[i]).id
            == ranking[i].id by {}
        if ranks_at(ranking, id, rank) {
            lemma_last_score_once(ranking, id, rank);
            lemma_last_score_once(items, id, rank);
        }
        if leaves_out(ranking, id) {
            lemma_last_score_left_out(ranking, id);
            lemma_last_score_left_out(items, id);
        }
    }

    /// A shadow ranking adds what the rank of a node is worth there to the score that it had, and
    /// leaves the scores of the nodes that it does not list as they were.
    pub proof fn law_shadow_ranks_are_added(
        &self,
        before: Map<NodeId, u32>,
        ranking: Seq<Scored>,
        after: Map<NodeId, u32>,
        id: NodeId,
        rank: int,
    )
        requires
            ranking.len() <= usize::MAX,
            self.are_totals(before, self.by_shadow_rank(ranking), after),
        ensures
            leaves_out(ranking, id) ==> score_of(after, id) == score_of(before, id),
            ranks_at(ranking, id, rank) && before.contains_key(id) ==> score_of(after, id) == Some(
                self.sum(before[id], self.shadow_worth(rank as usize)),
            ),
            ranks_at(ranking, id, rank) && !before.contains_key(id) ==> score_of(after, id) == Some(
                self.sum(0, self.shadow_worth(rank as usize)),
            ),
    {
        let items = self.by_shadow_rank(ranking);
        assert forall|i: int| 0 <= i < ranking.len() implies (#[trigger] items[i]).id
            == ranking[i].id by {}
        if leaves_out(ranking, id) {
            self.lemma_total_leaves_out(before, items, id);
        }
        if ranks_at(ranking, id, rank) {
            self.lemma_total_once(before, items, id, rank);
        }
        assert(score_of(after, id) == self.total(before, items, id));
    }

    /// The text score of a node: that of the list that finds it, the sum of both where both find it,
    /// each added to zero.
    pub proof fn law_text_scores_are_added(
        &self,
        keywords: Seq<Scored>,
        words: Seq<Scored>,
        scores: Map<NodeId, u32>,
        id: NodeId,
        i: int,
        k: int,
    )
        requires
            self.are_totals(Map::empty(), keywords + words, scores),
        ensures
            leaves_out(keywords, id) && leaves_out(words, id) ==> score_of(scores, id) is None,
            ranks_at(keywords, id, i) && leaves_out(words, id) ==> score_of(scores, id) == Some(
                self.sum(0, keywords[i].score),
            ),
            leaves_out(keywords, id) && ranks_at(words, id, k) ==> score_of(scores, id) == Some(
                self.sum(0, words[k].score),
            ),
            ranks_at(keywords, id, i) && ranks_at(words, id, k) ==> score_of(scores, id) == Some(
                self.sum(self.sum(0, keywords[i].score), words[k].score),
            ),
    {
        let none = Map::<NodeId, u32>::empty();
        let halfway: Map<NodeId, u32> = match self.total(none, keywords, id) {
            Some(score) => none.insert(id, score),
            None => none,
        };
        self.lemma_total_concat(none, halfway, keywords, words, id);
        if leaves_out(keywords, id) {
            self.lemma_total_leaves_out(none, keywords, id);
        }
        if ranks_at(keywords, id, i) {
            self.lemma_total_once(none, keywords, id, i);
        }
        if leaves_out(words, id) {
            self.lemma_total_leaves_out(halfway, words, id);
        }
        if ranks_at(words, id, k) {
            self.lemma_total_once(halfway, words, id, k);
        }
        assert(score_of(scores, id) == self.total(none, keywords + words, id));
    }
}

/// What an item adds to the score of a node: its score, where it is for that node.
pub open spec fn added_for(value: spec_fn(u32) -> real, id: NodeId) -> spec_fn(Scored) -> real {
    where_wanted(|item: Scored| item.id == id, |item: Scored| value(item.score))
}

/// The value of a score, zero where there is none.
pub open spec fn score_value(value: spec_fn(u32) -> real, score: Option<u32>) -> real {
    match score {
        Some(bits) => value(bits),
        None => 0real,
    }
}

impl<P: Fn(u32, u32) -> u32, R: Fn(u32, usize) -> u32, S: Fn(usize) -> u32> Arithmetic<P, R, S> {
    /// However often a list names a node, the node gets all of it: its score is what it had and
    /// every score in the list together, where no sum up to the limit is rounded. It has a score
    /// exactly where it had one or the list names it.
    pub proof fn law_scores_add_up(
        &self,
        value: spec_fn(u32) -> real,
        limit: real,
        base: Map<NodeId, u32>,
        items: Seq<Scored>,
        id: NodeId,
        count: int,
    )
        requires
            value(0) == 0real,
            forall|a: u32, b: u32|
                value(a) >= 0real && value(b) >= 0real && value(a) + value(b) <= limit ==> value(
                    #[trigger] self.sum(a, b),
                ) == value(a) + value(b),
            score_value(value, score_of(base, id)) >= 0real,
            forall|i: int| 0 <= i < items.len() ==> value((#[trigger] items[i]).score) >= 0real,
            score_value(value, score_of(base, id)) + sum_of(items, added_for(value, id)) <= limit,
            0 <= count <= items.len(),
        ensures
            score_value(value, self.total(base, items.take(count), id)) == score_value(
                value,
                score_of(base, id),
            ) + sum_of(items.take(count), added_for(value, id)),
            self.total(base, items.take(count), id) is Some <==> base.contains_key(id) || exists|
                i: int,
            |
                0 <= i < count && (#[trigger] items[i]).id == id,
        decreases count,
    {
        let each = added_for(value, id);
        assert forall|i: int| 0 <= i < items.len() implies each(#[trigger] items[i]) >= 0real by {
            assert(value(items[i].score) >= 0real);
        }
        let part = items.take(count);
        if count > 0 {
            self.law_scores_add_up(value, limit, base, items, id, count - 1);
            lemma_sum_take(items, each, count);
            lemma_sum_of_first(items, each, count);
            lemma_sum_of_first(items, each, count - 1);
            assert(part.drop_last() =~= items.take(count - 1));
            assert(part.last() == items[count - 1]);
            assert(value(items[count - 1].score) >= 0real);
            if exists|i: int| 0 <= i < count - 1 && (#[trigger] items[i]).id == id {
                let i = choose|i: int| 0 <= i < count - 1 && (#[trigger] items[i]).id == id;
                assert(0 <= i < count && items[i].id == id);
            }
            if exists|i: int| 0 <= i < count && (#[trigger] items[i]).id == id {
                let i = choose|i: int| 0 <= i < count && (#[trigger] items[i]).id == id;
                if i < count - 1 {
                    assert(0 <= i < count - 1 && items[i].id == id);
                }
            }
        } else {
            assert(part =~= Seq::<Scored>::empty());
        }
    }
}

/// The last score of a node that a list holds once is its score there.
proof fn lemma_last_score_once(items: Seq<Scored>, id: NodeId, rank: int)
    requires
        ranks_at(items, id, rank),
    ensures
        last_score(items, id) == Some(items[rank].score),
    decreases items.len(),
{
    let before = items.drop_last();
    assert(items.last() == items[items.len() - 1]);
    assert forall|i: int| 0 <= i < before.len() implies #[trigger] before[i] == items[i] by {}
    if rank != items.len() - 1 {
        lemma_last_score_once(before, id, rank);
    }
}

/// A list gives a node that it does not hold no score.
proof fn lemma_last_score_left_out(items: Seq<Scored>, id: NodeId)
    requires
        leaves_out(items, id),
    ensures
        last_score(items, id) is None,
    decreases items.len(),
{
    if items.len() > 0 {
        let before = items.drop_last();
        assert(items.last() == items[items.len() - 1]);
        assert forall|i: int| 0 <= i < before.len() implies #[trigger] before[i] == items[i] by {}
        lemma_last_score_left_out(before, id);
    }
}

/// The score of a node, if it has one.
pub open spec fn score_of(scores: Map<NodeId, u32>, id: NodeId) -> Option<u32> {
    if scores.contains_key(id) {
        Some(scores[id])
    } else {
        None
    }
}

/// The last score that a list gives a node.
pub open spec fn last_score(items: Seq<Scored>, id: NodeId) -> Option<u32>
    decreases items.len(),
{
    if items.len() == 0 {
        None
    } else if items.last().id == id {
        Some(items.last().score)
    } else {
        last_score(items.drop_last(), id)
    }
}

/// The weight of a sparse ranking: the boost, where it is positive.
pub open spec fn boost_weight(boost: u32) -> u32 {
    if spec_f32_less(0, boost) {
        boost
    } else {
        0
    }
}

/// The scored nodes.
pub open spec fn scored_set(scores: Map<NodeId, u32>) -> Set<Scored> {
    Set::new(|item: Scored| scores.contains_key(item.id) && scores[item.id] == item.score)
}

/// Gives each node of a list its last score there.
fn set_scores(scores: &mut BTreeMap<NodeId, u32>, items: &Vec<Scored>)
    requires
        old(scores)@ == Map::<NodeId, u32>::empty(),
    ensures
        forall|id: NodeId| #[trigger] score_of(final(scores)@, id) == last_score(items@, id),
{
    let mut i: usize = 0;
    assert(items@.take(0) =~= Seq::<Scored>::empty());
    while i < items.len()
        invariant
            i <= items@.len(),
            forall|id: NodeId| #[trigger]
                score_of(scores@, id) == last_score(items@.take(i as int), id),
        decreases items@.len() - i,
    {
        let ghost before = scores@;
        scores.insert(items[i].id, items[i].score);
        proof {
            let few = items@.take(i as int);
            let more = items@.take(i + 1);
            assert(more.drop_last() =~= few);
            assert forall|id: NodeId| #[trigger] score_of(scores@, id) == last_score(more, id) by {
                assert(score_of(before, id) == last_score(few, id));
            }
        }
        i += 1;
    }
    assert(items@.take(i as int) =~= items@);
}

/// The scored nodes, the greatest score first, at most `limit`.
pub fn rank_scores(scores: &BTreeMap<NodeId, u32>, limit: usize) -> (ranking: Vec<Scored>)
    ensures
        is_best(scored_set(scores@), scored_order(), limit as nat, ranking@),
{
    let ids = map_keys(scores);
    let mut ranking: Vec<Scored> = Vec::new();
    let ghost mut seen: Set<Scored> = Set::empty();
    let mut i: usize = 0;
    while i < ids.len()
        invariant
            i <= ids@.len(),
            increasing(ids@),
            ids@.to_set() == scores@.dom(),
            forall|item: Scored| #[trigger]
                seen.contains(item) <==> ids@.take(i as int).contains(item.id) && scores@[item.id]
                    == item.score,
            is_best(seen, order_of::<Scored>(), limit as nat, views(ranking@)),
        decreases ids@.len() - i,
    {
        let id: NodeId = ids[i];
        proof {
            assert(ids@.contains(id));
            assert(ids@.to_set().contains(id));
        }
        let score: u32 = *scores.get(&id).unwrap();
        let item = Scored { id, score };
        proof {
            assert forall|other: Scored| #[trigger] seen.contains(other) implies other.id
                != id by {
                let k = choose|k: int| 0 <= k < i && ids@.take(i as int)[k] == other.id;
                assert(ids@[k] < ids@[i as int]);
            }
        }
        keep_best(&mut ranking, item, limit, Ghost(seen));
        proof {
            let before = seen;
            seen = seen.insert(item);
            assert(ids@.take(i + 1) =~= ids@.take(i as int).push(id));
            assert forall|other: Scored| #[trigger] seen.contains(other) <==> ids@.take(
                i + 1,
            ).contains(other.id) && scores@[other.id] == other.score by {
                crate::collections::lemma_contains_push(ids@.take(i as int), id, other.id);
                assert(before.contains(other) <==> ids@.take(i as int).contains(other.id)
                    && scores@[other.id] == other.score);
            }
        }
        i += 1;
    }
    proof {
        assert(ids@.take(i as int) =~= ids@);
        assert(seen =~= scored_set(scores@)) by {
            assert forall|item: Scored| #[trigger] seen.contains(item) <==> scored_set(
                scores@,
            ).contains(item) by {
                assert(ids@.to_set().contains(item.id) <==> ids@.contains(item.id));
            }
        }
        assert(views(ranking@) =~= ranking@);
    }
    ranking
}

/// The scores of hits.
pub fn hit_scores(hits: &Vec<SearchHit>) -> (items: Vec<Scored>)
    ensures
        items@ == scores_of_hits(hits@),
{
    let mut items: Vec<Scored> = Vec::new();
    let mut i: usize = 0;
    while i < hits.len()
        invariant
            i <= hits@.len(),
            items@.len() == i,
            forall|k: int| 0 <= k < i ==> (#[trigger] items@[k]) == scores_of_hits(hits@)[k],
        decreases hits@.len() - i,
    {
        items.push(Scored { id: hits[i].id, score: hits[i].score });
        i += 1;
    }
    assert(items@ =~= scores_of_hits(hits@));
    items
}

/// The scores of hits, in order.
pub open spec fn scores_of_hits(hits: Seq<SearchHit>) -> Seq<Scored> {
    hits.map_values(|hit: SearchHit| Scored { id: hit.id, score: hit.score })
}

} // verus!
