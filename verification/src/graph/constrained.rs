//! Ranking a given set of nodes by similarity to a query.
use vstd::prelude::*;

use crate::collections::{increasing, lemma_increasing_unique, sort_dedup};
use crate::error::{is_invalid_input, is_query_execution, Result, TriviumError};
use crate::node::{NodeId, SearchHit};
use crate::number::{f32_finite, f32_is_finite};
use crate::ranking::{hits_order, HitView};
use crate::sorting::{sort_items, sorted, views};
use crate::storage::memtable::{MemTable, Table};
use crate::text::{decimal, join, to_decimal};
use crate::vector::VectorType;

verus! {

/// Whether `similarity` may give `score` for a stored vector with these components.
pub open spec fn scores<T, F: Fn(&[T], &Vec<T>) -> u32>(
    similarity: F,
    query: &[T],
    vector: Seq<T>,
    score: u32,
) -> bool {
    exists|stored: &Vec<T>|
        stored@ == vector && #[trigger] call_ensures(similarity, (query, stored), score)
}

/// The hits among the first `count` anchors, given a score for each anchor: those that are nodes
/// and have a finite score.
pub open spec fn candidate_hits<T: VectorType>(
    table: Table<T>,
    anchors: Seq<NodeId>,
    given: Seq<u32>,
    count: nat,
) -> Seq<HitView>
    decreases count,
{
    if count == 0 {
        Seq::empty()
    } else {
        let before = candidate_hits(table, anchors, given, (count - 1) as nat);
        let id = anchors[count - 1];
        if table.nodes.contains_key(id) && f32_finite(given[count - 1]) {
            before.push(
                HitView { id, score: given[count - 1], payload: table.nodes[id].payload },
            )
        } else {
            before
        }
    }
}

/// The distinct anchors, in ascending order.
pub open spec fn is_anchor_list(anchors: Seq<NodeId>, anchor_ids: Seq<NodeId>) -> bool {
    increasing(anchors) && anchors.to_set() == anchor_ids.to_set()
}

/// A ranking depends on which anchors are given alone: neither on their order nor on how often one
/// is given.
pub proof fn law_anchors_are_a_set(anchors: Seq<NodeId>, one: Seq<NodeId>, other: Seq<NodeId>)
    requires
        one.to_set() == other.to_set(),
    ensures
        is_anchor_list(anchors, one) <==> is_anchor_list(anchors, other),
{
}

/// There is one list of anchors to rank, so that the candidates are determined by their scores.
pub proof fn law_anchor_list_is_unique(a: Seq<NodeId>, b: Seq<NodeId>, anchor_ids: Seq<NodeId>)
    requires
        is_anchor_list(a, anchor_ids),
        is_anchor_list(b, anchor_ids),
    ensures
        a == b,
{
    lemma_increasing_unique(a, b);
}

/// Whether scores are given for anchors: those of the nodes among them.
pub open spec fn are_scores<T: VectorType, F: Fn(&[T], &Vec<T>) -> u32>(
    table: Table<T>,
    query: &[T],
    similarity: F,
    anchors: Seq<NodeId>,
    given: Seq<u32>,
) -> bool {
    &&& given.len() == anchors.len()
    &&& forall|i: int|
        0 <= i < anchors.len() && table.nodes.contains_key(anchors[i]) ==> scores(
            similarity,
            query,
            table.nodes[anchors[i]].vector,
            #[trigger] given[i],
        )
}

/// Whether these are the best hits among the anchors.
pub open spec fn is_ranking<T: VectorType, F: Fn(&[T], &Vec<T>) -> u32>(
    table: Table<T>,
    query: &[T],
    anchor_ids: Seq<NodeId>,
    top_k: usize,
    similarity: F,
    hits: Seq<HitView>,
) -> bool {
    exists|anchors: Seq<NodeId>, given: Seq<u32>|
        {
            let ranked = sorted(
                #[trigger] candidate_hits(table, anchors, given, anchors.len()),
                hits_order(),
            );
            &&& is_anchor_list(anchors, anchor_ids)
            &&& are_scores(table, query, similarity, anchors, given)
            &&& hits == if ranked.len() <= top_k {
                ranked
            } else {
                ranked.subrange(0, top_k as int)
            }
        }
}

/// Whether ranking anchors comes to this.
pub open spec fn is_ranking_result<T: VectorType, F: Fn(&[T], &Vec<T>) -> u32>(
    table: Table<T>,
    query: &[T],
    anchor_ids: Seq<NodeId>,
    top_k: usize,
    max_anchor_nodes: usize,
    similarity: F,
    result: Result<Vec<SearchHit>>,
) -> bool {
    let count = anchor_ids.to_set().len();
    if query@.len() != table.dim {
        result == Err::<Vec<SearchHit>, TriviumError>(
            TriviumError::DimensionMismatch {
                expected: table.dim as usize,
                got: query@.len() as usize,
            },
        )
    } else if top_k == 0 || max_anchor_nodes == 0 {
        result matches Err(error) && is_invalid_input(
            error,
            "GraphFirst top_k 和 max_anchor_nodes 必须大于 0"@,
        )
    } else if count > max_anchor_nodes {
        result matches Err(error) && is_query_execution(
            error,
            "GraphFirst anchor 数量 "@ + decimal(count) + " 超过预算 "@ + decimal(
                max_anchor_nodes as nat,
            ),
        )
    } else {
        result matches Ok(hits) && is_ranking(
            table,
            query,
            anchor_ids,
            top_k,
            similarity,
            views(hits@),
        )
    }
}

/// Whether a similarity gives the same score for the same vectors.
pub open spec fn is_steady<T: VectorType, F: Fn(&[T], &Vec<T>) -> u32>(
    similarity: F,
    query: &[T],
) -> bool {
    forall|vector: Seq<T>, a: u32, b: u32| #[trigger]
        scores(similarity, query, vector, a) && #[trigger] scores(similarity, query, vector, b)
            ==> a == b
}

/// Scores that agree on nodes give the same candidates.
proof fn lemma_candidates_agree<T: VectorType>(
    table: Table<T>,
    anchors: Seq<NodeId>,
    one: Seq<u32>,
    other: Seq<u32>,
    count: nat,
)
    requires
        count <= anchors.len(),
        one.len() == anchors.len(),
        other.len() == anchors.len(),
        forall|i: int|
            0 <= i < anchors.len() && table.nodes.contains_key(#[trigger] anchors[i]) ==> one[i]
                == other[i],
    ensures
        candidate_hits(table, anchors, one, count) == candidate_hits(table, anchors, other, count),
    decreases count,
{
    if count > 0 {
        lemma_candidates_agree(table, anchors, one, other, (count - 1) as nat);
        let id = anchors[count - 1];
        if table.nodes.contains_key(id) {
            assert(one[count - 1] == other[count - 1]);
        }
    }
}

/// Two rankings of the same anchors, in whatever order and however often one is given, both fail or
/// give the same hits, where the similarity gives the same score for the same vectors.
pub proof fn law_rankings_agree<T: VectorType, F: Fn(&[T], &Vec<T>) -> u32>(
    table: Table<T>,
    query: &[T],
    ids: Seq<NodeId>,
    other_ids: Seq<NodeId>,
    top_k: usize,
    max_anchor_nodes: usize,
    similarity: F,
    one: Result<Vec<SearchHit>>,
    other: Result<Vec<SearchHit>>,
)
    requires
        ids.to_set() == other_ids.to_set(),
        is_steady(similarity, query),
        is_ranking_result(table, query, ids, top_k, max_anchor_nodes, similarity, one),
        is_ranking_result(table, query, other_ids, top_k, max_anchor_nodes, similarity, other),
    ensures
        match (one, other) {
            (Ok(a), Ok(b)) => views(a@) == views(b@),
            (Err(_), Err(_)) => true,
            _ => false,
        },
{
    if one is Ok && other is Ok {
        let hits = views(one->Ok_0@);
        let found = views(other->Ok_0@);
        let (a, g) = choose|anchors: Seq<NodeId>, given: Seq<u32>|
            {
                let ranked = sorted(
                    #[trigger] candidate_hits(table, anchors, given, anchors.len()),
                    hits_order(),
                );
                &&& is_anchor_list(anchors, ids)
                &&& are_scores(table, query, similarity, anchors, given)
                &&& hits == if ranked.len() <= top_k {
                    ranked
                } else {
                    ranked.subrange(0, top_k as int)
                }
            };
        let (b, h) = choose|anchors: Seq<NodeId>, given: Seq<u32>|
            {
                let ranked = sorted(
                    #[trigger] candidate_hits(table, anchors, given, anchors.len()),
                    hits_order(),
                );
                &&& is_anchor_list(anchors, other_ids)
                &&& are_scores(table, query, similarity, anchors, given)
                &&& found == if ranked.len() <= top_k {
                    ranked
                } else {
                    ranked.subrange(0, top_k as int)
                }
            };
        lemma_increasing_unique(a, b);
        assert forall|i: int|
            0 <= i < a.len() && table.nodes.contains_key(#[trigger] a[i]) implies g[i] == h[i] by {
            assert(scores(similarity, query, table.nodes[a[i]].vector, g[i]));
            assert(scores(similarity, query, table.nodes[b[i]].vector, h[i]));
        }
        lemma_candidates_agree(table, a, g, h, a.len());
    }
}

/// The best `top_k` of the anchors by similarity to the query, best first; anchors with the same
/// score come in ascending order. Anchors that are no nodes, or whose score is not finite, are
/// left out. `similarity` computes the score of a stored vector.
pub fn rank_within<T: VectorType, F: Fn(&[T], &Vec<T>) -> u32>(
    db: &MemTable<T>,
    query: &[T],
    anchor_ids: &Vec<NodeId>,
    top_k: usize,
    max_anchor_nodes: usize,
    similarity: F,
) -> (result: Result<Vec<SearchHit>>)
    requires
        forall|vector: &Vec<T>| call_requires(similarity, (query, vector)),
    ensures
        is_ranking_result(
            db@,
            query,
            anchor_ids@,
            top_k,
            max_anchor_nodes,
            similarity,
            result,
        ),
{
    if query.len() != db.dim() {
        return Err(TriviumError::DimensionMismatch { expected: db.dim(), got: query.len() });
    }
    if top_k == 0 || max_anchor_nodes == 0 {
        return Err(
            TriviumError::InvalidInput(
                "GraphFirst top_k 和 max_anchor_nodes 必须大于 0".to_owned(),
            ),
        );
    }
    let anchors = sort_dedup(anchor_ids);
    proof {
        anchors@.unique_seq_to_set();
    }
    if anchors.len() > max_anchor_nodes {
        let counted = join("GraphFirst anchor 数量 ", to_decimal(anchors.len() as u64).as_str());
        let bounded = join(" 超过预算 ", to_decimal(max_anchor_nodes as u64).as_str());
        let message = join(counted.as_str(), bounded.as_str());
        proof {
            assert(message@ =~= "GraphFirst anchor 数量 "@ + decimal(anchor_ids@.to_set().len())
                + " 超过预算 "@ + decimal(max_anchor_nodes as nat));
        }
        return Err(TriviumError::QueryExecution(message));
    }
    let mut found: Vec<SearchHit> = Vec::new();
    let ghost mut given: Seq<u32> = Seq::empty();
    assert(views(found@) =~= Seq::<HitView>::empty());
    let mut i: usize = 0;
    while i < anchors.len()
        invariant
            i <= anchors@.len(),
            given.len() == i,
            forall|vector: &Vec<T>| call_requires(similarity, (query, vector)),
            views(found@) == candidate_hits(db@, anchors@, given, i as nat),
            forall|j: int|
                0 <= j < i && db@.nodes.contains_key(anchors@[j]) ==> scores(
                    similarity,
                    query,
                    db@.nodes[anchors@[j]].vector,
                    #[trigger] given[j],
                ),
        decreases anchors@.len() - i,
    {
        let id: NodeId = anchors[i];
        let ghost before = found@;
        let ghost earlier = given;
        match (db.get_vector(id), db.get_payload(id)) {
            (Some(vector), Some(payload)) => {
                let score: u32 = similarity(query, vector);
                proof {
                    given = given.push(score);
                    assert(scores(similarity, query, db@.nodes[id].vector, score)) by {
                        assert(call_ensures(similarity, (query, vector), score));
                    }
                    lemma_candidates_prefix(db@, anchors@, earlier, given, i as nat);
                }
                if f32_is_finite(score) {
                    let hit = SearchHit { id, score, payload: payload.duplicate() };
                    found.push(hit);
                    assert(views(found@) =~= views(before).push(hit@));
                }
            },
            _ => {
                proof {
                    given = given.push(0);
                    lemma_candidates_prefix(db@, anchors@, earlier, given, i as nat);
                }
            },
        }
        i += 1;
    }
    let mut hits = sort_items(found);
    let ghost ranked = views(hits@);
    proof {
        assert(ranked == sorted(
            candidate_hits(db@, anchors@, given, anchors@.len()),
            hits_order(),
        ));
    }
    hits.truncate(top_k);
    proof {
        if ranked.len() > top_k {
            assert(views(hits@) =~= ranked.subrange(0, top_k as int));
        } else {
            assert(views(hits@) =~= ranked);
        }
        assert(are_scores(db@, query, similarity, anchors@, given));
        assert(is_ranking(db@, query, anchor_ids@, top_k, similarity, views(hits@))) by {
            assert(is_anchor_list(anchors@, anchor_ids@));
            assert(ranked == sorted(
                candidate_hits(db@, anchors@, given, anchors@.len()),
                hits_order(),
            ));
        }
    }
    Ok(hits)
}

/// Further scores do not change the hits among earlier anchors.
proof fn lemma_candidates_prefix<T: VectorType>(
    table: Table<T>,
    anchors: Seq<NodeId>,
    few: Seq<u32>,
    many: Seq<u32>,
    count: nat,
)
    requires
        count <= few.len() <= many.len(),
        forall|i: int| 0 <= i < few.len() ==> few[i] == many[i],
    ensures
        candidate_hits(table, anchors, few, count) == candidate_hits(table, anchors, many, count),
    decreases count,
{
    if count > 0 {
        lemma_candidates_prefix(table, anchors, few, many, (count - 1) as nat);
    }
}

} // verus!
