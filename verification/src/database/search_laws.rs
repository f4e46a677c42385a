//! What the stages of a search promise of their results.
use std::collections::BTreeSet;
use vstd::prelude::*;

use crate::database::config::{spec_recall_k, spec_rerank_k, SearchConfig};
use crate::database::fusion::Arithmetic;
use crate::database::pipeline::{
    admitted, are_seeds, are_similarities, diversity_candidates, first, hits_of, hydrated,
    is_finish, is_found_by_index, is_ranking, is_residual_recall, is_scanned, is_text_recall,
    is_varied, is_vector_recall, passes, picked, ranked_hits, reaching, seed_candidates, spreading,
    FinishTrace, RankingTrace, Reach, SearchEngine,
};
use crate::error::Result;
use crate::filter::{holds, Filter};
use crate::graph::constrained::scores;
use crate::hook::HookContext;
use crate::node::{NodeId, SearchHit};
use crate::number::{f32_nan, f32_value_key};
use crate::order_laws::{at_least_32, law_hits_descend, law_the_best_are_kept};
use crate::ranking::{hits_order, scored_order, HitView, Scored};
use crate::sorting::{is_best, law_sorted, lemma_sorted_contains, sorted, views};
use crate::storage::memtable::{MemTable, Table};
use crate::vector::VectorType;

verus! {

/// Whether a node is in the table and its payload satisfies the filter, where there is one.
pub open spec fn may_be_found<T: VectorType>(
    table: Table<T>,
    filter: Option<Filter>,
    id: NodeId,
) -> bool {
    &&& table.nodes.contains_key(id)
    &&& filter is Some ==> holds(filter->0@, table.nodes[id].payload.value)
}

/// Whether a score is at least another; no NaN is.
pub open spec fn reaches_score(score: u32, least: u32) -> bool {
    !f32_nan(score) && !f32_nan(least) && f32_value_key(score) >= f32_value_key(least)
}

/// Whether a ranking keeps to the bounds of a search: at most so many entries, all of nodes that may
/// be found, with scores that reach the least one, the greatest score first.
pub open spec fn keeps_to<T: VectorType>(
    table: Table<T>,
    filter: Option<Filter>,
    reach: Reach,
    ranking: Seq<Scored>,
) -> bool {
    &&& ranking.len() <= reach.recall_k
    &&& forall|i: int|
        0 <= i < ranking.len() ==> (#[trigger] ranking[i]).id != 0 && may_be_found(
            table,
            filter,
            ranking[i].id,
        ) && reaches_score(ranking[i].score, reach.min_score)
    &&& forall|i: int, j: int|
        0 <= i < j < ranking.len() ==> at_least_32(
            (#[trigger] ranking[i]).score,
            (#[trigger] ranking[j]).score,
        )
}

/// An exact scan returns the nearest nodes: each entry is a node that may be found with its
/// similarity to the query, and a node that may be found and is left out is less similar than asked
/// for, or there was no room for it and no entry is less similar.
pub proof fn law_a_scan_returns_the_nearest<T: VectorType, F: Fn(&[T], &Vec<T>) -> u32>(
    table: Table<T>,
    similarity: F,
    filter: Option<Filter>,
    reach: Reach,
    query: &[T],
    ranking: Seq<Scored>,
    out: NodeId,
)
    requires
        is_scanned(table, similarity, filter, reach, query, ranking),
    ensures
        keeps_to(table, filter, reach, ranking),
        forall|i: int|
            0 <= i < ranking.len() ==> scores(
                similarity,
                query,
                table.nodes[(#[trigger] ranking[i]).id].vector,
                ranking[i].score,
            ),
        out != 0 && may_be_found(table, filter, out) && (forall|i: int|
            0 <= i < ranking.len() ==> (#[trigger] ranking[i]).id != out) ==> exists|score: u32|
            {
                &&& #[trigger] scores(similarity, query, table.nodes[out].vector, score)
                &&& reaches_score(score, reach.min_score) ==> {
                    &&& ranking.len() == reach.recall_k
                    &&& forall|i: int|
                        0 <= i < ranking.len() ==> at_least_32((#[trigger] ranking[i]).score, score)
                }
            },
{
    let given = choose|given: Map<NodeId, u32>| #[trigger]
        are_similarities(table, similarity, filter, query, given) && is_best(
            reaching(given, reach.min_score),
            scored_order(),
            reach.recall_k as nat,
            ranking,
        );
    let all = reaching(given, reach.min_score);
    let limit = reach.recall_k as nat;
    let nothing = Scored { id: 0, score: 0 };
    assert forall|i: int| 0 <= i < ranking.len() implies (#[trigger] ranking[i]).id != 0
        && may_be_found(table, filter, ranking[i].id) && reaches_score(
        ranking[i].score,
        reach.min_score,
    ) && scores(similarity, query, table.nodes[ranking[i].id].vector, ranking[i].score) by {
        law_the_best_are_kept(all, limit, ranking, i, i, nothing);
        assert(given.contains_key(ranking[i].id));
        assert(passes(table, filter, ranking[i].id));
    }
    assert forall|i: int, j: int| 0 <= i < j < ranking.len() implies at_least_32(
        (#[trigger] ranking[i]).score,
        (#[trigger] ranking[j]).score,
    ) by {
        law_the_best_are_kept(all, limit, ranking, i, j, nothing);
    }
    if out != 0 && may_be_found(table, filter, out) && (forall|i: int|
        0 <= i < ranking.len() ==> (#[trigger] ranking[i]).id != out) {
        assert(passes(table, filter, out));
        assert(given.contains_key(out));
        let item = Scored { id: out, score: given[out] };
        assert(scores(similarity, query, table.nodes[out].vector, given[out]));
        if reaches_score(given[out], reach.min_score) {
            assert(all.contains(item));
            assert(!ranking.contains(item)) by {
                if ranking.contains(item) {
                    let n = ranking.index_of(item);
                    assert(ranking[n].id == out);
                }
            }
            law_the_best_are_kept(all, limit, ranking, -1, -1, item);
            assert forall|i: int| 0 <= i < ranking.len() implies at_least_32(
                (#[trigger] ranking[i]).score,
                given[out],
            ) by {
                law_the_best_are_kept(all, limit, ranking, i, i, item);
            }
        }
    }
}

/// What the index found and is kept: entries that it found, within the bounds of the search.
pub proof fn law_index_entries_keep_to_the_bounds<T: VectorType>(
    table: Table<T>,
    filter: Option<Filter>,
    reach: Reach,
    found: Seq<Scored>,
)
    ensures
        ({
            let near = first(
                sorted(admitted(table, filter, reach.min_score, found), scored_order()),
                reach.recall_k,
            );
            &&& keeps_to(table, filter, reach, near)
            &&& forall|i: int| 0 <= i < near.len() ==> found.contains(#[trigger] near[i])
        }),
{
    let kept = admitted(table, filter, reach.min_score, found);
    let all = sorted(kept, scored_order());
    let near = first(all, reach.recall_k);
    let keep = |item: Scored|
        crate::number::spec_f32_at_least(item.score, reach.min_score) && item.id != 0 && passes(
            table,
            filter,
            item.id,
        );
    assert(kept == found.filter(keep));
    law_sorted::<Scored>(kept);
    assert forall|i: int| 0 <= i < near.len() implies (#[trigger] near[i]).id != 0 && may_be_found(
        table,
        filter,
        near[i].id,
    ) && reaches_score(near[i].score, reach.min_score) && found.contains(near[i]) by {
        assert(near[i] == all[i]);
        assert(all.contains(all[i]));
        lemma_sorted_contains::<Scored>(kept, all[i]);
        let n = kept.index_of(all[i]);
        found.lemma_filter_pred(keep, n);
        found.lemma_filter_contains_rev(keep, all[i]);
    }
    assert forall|i: int, j: int| 0 <= i < j < near.len() implies at_least_32(
        (#[trigger] near[i]).score,
        (#[trigger] near[j]).score,
    ) by {
        assert(near[i] == all[i] && near[j] == all[j]);
        assert(!(scored_order())(all[j], all[i]));
    }
}

/// Whichever way vectors are searched, the ranking keeps to the bounds of the search.
pub proof fn law_vector_recall_keeps_to_the_bounds<
    T: VectorType,
    E: SearchEngine<T>,
    F: Fn(&[T], &Vec<T>) -> u32,
>(
    table: &MemTable<T>,
    engine: &E,
    similarity: F,
    config: SearchConfig,
    reach: Reach,
    query: &[T],
    ranking: Seq<Scored>,
)
    requires
        is_vector_recall(table, engine, similarity, config, reach, query, ranking),
    ensures
        keeps_to(table@, config.payload_filter, reach, ranking),
        config.force_brute_force ==> is_scanned(
            table@,
            similarity,
            config.payload_filter,
            reach,
            query,
            ranking,
        ),
        config.payload_filter is Some && ranking.len() < reach.top_k ==> is_scanned(
            table@,
            similarity,
            config.payload_filter,
            reach,
            query,
            ranking,
        ),
{
    let filter = config.payload_filter;
    if is_scanned(table@, similarity, filter, reach, query, ranking) {
        law_a_scan_returns_the_nearest(table@, similarity, filter, reach, query, ranking, 0);
    } else {
        assert(is_found_by_index(table, engine, similarity, config, reach, query, ranking));
        let wide = crate::database::config::greater_of(reach.recall_k, 1);
        let found = choose|found: Vec<Scored>|
            {
                let all = sorted(
                    admitted(table@, filter, reach.min_score, found@),
                    scored_order(),
                );
                let near = first(all, reach.recall_k);
                &&& #[trigger] call_ensures(
                    E::search_index,
                    (
                        engine,
                        table,
                        query,
                        &config.payload_filter,
                        crate::database::config::saturated_product(wide, 2),
                        crate::database::config::saturated_product(wide, 8),
                    ),
                    found,
                )
                &&& if filter is Some && near.len() < reach.top_k {
                    is_scanned(table@, similarity, config.payload_filter, reach, query, ranking)
                } else {
                    ranking == near
                }
            };
        law_index_entries_keep_to_the_bounds(table@, filter, reach, found@);
    }
}

/// Texts are searched only where there is a text and the settings ask for it.
pub proof fn law_texts_are_searched_on_demand<
    T: VectorType,
    E: SearchEngine<T>,
    P: Fn(u32, u32) -> u32,
    R: Fn(u32, usize) -> u32,
    S: Fn(usize) -> u32,
>(
    engine: &E,
    arithmetic: Arithmetic<P, R, S>,
    config: SearchConfig,
    query_text: Option<&str>,
    ranking: Seq<Scored>,
)
    requires
        is_text_recall::<T, E, P, R, S>(engine, arithmetic, config, query_text, ranking),
    ensures
        ranking.len() > 0 ==> query_text is Some && config.enable_text_hybrid_search,
        ranking.len() <= spec_recall_k(config.top_k, config.recall_k),
{
}

/// The seeds of a search are nodes that may be found, with their scores, which reach the least one,
/// and the payloads that the table holds; at most as many as are ranked again, the greatest score
/// first. A scored node that may be found and reaches the least score is left out only where there
/// is no room, and then no seed scores less.
pub proof fn law_seeds_are_the_best_scored<T: VectorType>(
    table: Table<T>,
    config: SearchConfig,
    given: Map<NodeId, u32>,
    hits: Seq<HitView>,
    i: int,
    j: int,
    out: NodeId,
)
    requires
        are_seeds(table, config, given, hits),
    ensures
        hits.len() <= spec_rerank_k(config.top_k, config.recall_k, config.rerank_k),
        0 <= i < hits.len() ==> {
            &&& may_be_found(table, config.payload_filter, hits[i].id)
            &&& given.contains_key(hits[i].id) && given[hits[i].id] == hits[i].score
            &&& reaches_score(hits[i].score, config.min_score)
            &&& hits[i].payload == table.nodes[hits[i].id].payload
        },
        0 <= i < j < hits.len() ==> at_least_32(hits[i].score, hits[j].score),
        given.contains_key(out) && may_be_found(table, config.payload_filter, out) && reaches_score(
            given[out],
            config.min_score,
        ) && (forall|n: int| 0 <= n < hits.len() ==> (#[trigger] hits[n]).id != out) ==> {
            &&& hits.len() == spec_rerank_k(config.top_k, config.recall_k, config.rerank_k)
            &&& 0 <= i < hits.len() ==> at_least_32(hits[i].score, given[out])
        },
{
    let limit = spec_rerank_k(config.top_k, config.recall_k, config.rerank_k) as nat;
    let all = seed_candidates(table, config, given);
    let chosen = choose|chosen: Seq<Scored>|
        is_best(all, scored_order(), limit, chosen) && hits == #[trigger] hits_of(table, chosen);
    let item = Scored { id: out, score: given[out] };
    law_the_best_are_kept(all, limit, chosen, i, j, item);
    if 0 <= i < hits.len() {
        assert(all.contains(chosen[i]));
        assert(passes(table, config.payload_filter, chosen[i].id));
    }
    if given.contains_key(out) && may_be_found(table, config.payload_filter, out) && reaches_score(
        given[out],
        config.min_score,
    ) && (forall|n: int| 0 <= n < hits.len() ==> (#[trigger] hits[n]).id != out) {
        assert(passes(table, config.payload_filter, out));
        assert(all.contains(item));
        assert(!chosen.contains(item)) by {
            if chosen.contains(item) {
                let n = chosen.index_of(item);
                assert(hits[n].id == out);
            }
        }
    }
}

/// The search for what is left of a query takes place only where the settings ask for it, there is a
/// query and something was found before; otherwise the scores stay as they were.
pub proof fn law_residuals_are_searched_on_demand<
    T: VectorType,
    E: SearchEngine<T>,
    P: Fn(u32, u32) -> u32,
    R: Fn(u32, usize) -> u32,
    S: Fn(usize) -> u32,
    F: Fn(&[T], &Vec<T>) -> u32,
>(
    table: &MemTable<T>,
    engine: &E,
    similarity: F,
    arithmetic: Arithmetic<P, R, S>,
    config: SearchConfig,
    query: Option<&[T]>,
    before: Map<NodeId, u32>,
    after: Map<NodeId, u32>,
)
    requires
        is_residual_recall(
            table,
            engine,
            similarity,
            arithmetic,
            config,
            query,
            before,
            after,
        ),
    ensures
        after != before ==> config.enable_advanced_pipeline && config.enable_sparse_residual && query
            is Some && before.dom().len() > 0,
{
}

/// What remains after the ranking: where there is a filter, exactly those of the ranked hits that
/// satisfy it, and without one all of them.
pub proof fn law_ranked_hits_satisfy_the_filter<T: VectorType>(
    table: Table<T>,
    config: SearchConfig,
    trace: RankingTrace,
    after: HookContext,
    results: Vec<SearchHit>,
    hit: HitView,
)
    requires
        is_ranking(table, config, trace, after, Ok(results)),
    ensures
        config.payload_filter is None ==> views(results@) == views(ranked_hits(trace)@),
        config.payload_filter is Some ==> (views(results@).contains(hit) <==> views(
            ranked_hits(trace)@,
        ).contains(hit) && hit.id != 0 && may_be_found(table, config.payload_filter, hit.id)),
{
    let given = views(ranked_hits(trace)@);
    let filter = config.payload_filter;
    let keep = |hit: HitView| hit.id != 0 && passes(table, filter, hit.id);
    if filter is Some {
        let kept = given.filter(keep);
        assert(views(results@) == kept);
        if kept.contains(hit) {
            let n = kept.index_of(hit);
            given.lemma_filter_pred(keep, n);
            given.lemma_filter_contains_rev(keep, hit);
        }
        if given.contains(hit) && keep(hit) {
            let n = given.index_of(hit);
            given.lemma_filter_contains(keep, n);
        }
    }
}

/// Without a varied choice the last hook sees the first results, in their order, as many as are
/// asked for. With one it sees results that are nodes, from among the first three times as many,
/// the greatest score first.
pub proof fn law_the_first_results_are_returned<T: VectorType, E: SearchEngine<T>>(
    table: &MemTable<T>,
    engine: &E,
    config: SearchConfig,
    results: Seq<HitView>,
    trace: FinishTrace,
    after: HookContext,
    result: Result<Vec<SearchHit>>,
    i: int,
)
    requires
        is_finish(table, engine, config, results, trace, after, result),
        0 <= i < views(trace.given@).len(),
    ensures
        !(config.enable_advanced_pipeline && config.enable_dpp) ==> {
            &&& i < config.top_k && i < results.len()
            &&& views(trace.given@)[i] == results[i]
            &&& views(trace.given@).len() == if results.len() < config.top_k {
                results.len()
            } else {
                config.top_k as nat
            }
        },
        results.len() <= config.top_k ==> views(trace.given@) == results,
        config.top_k * 3 <= usize::MAX ==> exists|n: int|
            0 <= n < results.len() && (n < config.top_k * 3) && #[trigger] results[n] == views(
                trace.given@,
            )[i],
        0 < i ==> is_varied(table@, config, results) ==> at_least_32(
            views(trace.given@)[i - 1].score,
            views(trace.given@)[i].score,
        ),
{
    let given = views(trace.given@);
    if is_varied(table@, config, results) {
        let (pool, places) = choose|pool: Vec<SearchHit>, places: Vec<usize>|
            {
                &&& views(pool@) == diversity_candidates(table@, results, config.top_k)
                &&& #[trigger] call_ensures(
                    E::diversify,
                    (engine, table, &pool, config.top_k, config.dpp_quality_weight),
                    places,
                )
                &&& given == sorted(picked(views(pool@), places@), hits_order())
            };
        let picks = picked(views(pool@), places@);
        if i > 0 {
            law_hits_descend(picks, i - 1, i);
        }
        assert(given.contains(given[i]));
        lemma_sorted_contains::<SearchHit>(picks, given[i]);
        lemma_picked(views(pool@), places@, given[i]);
        let wide = crate::database::config::saturated_product(config.top_k, 3);
        let near = first(results, wide);
        let keep = |hit: HitView| table@.nodes.contains_key(hit.id);
        let kept = near.filter(keep);
        let k = kept.index_of(given[i]);
        near.lemma_filter_contains_rev(keep, kept[k]);
        let n = near.index_of(given[i]);
        assert(results[n] == near[n]);
    } else {
        assert(given[i] == results[i]);
    }
}

/// What is picked is in the pool.
proof fn lemma_picked(pool: Seq<HitView>, places: Seq<usize>, hit: HitView)
    requires
        picked(pool, places).contains(hit),
    ensures
        pool.contains(hit),
    decreases places.len(),
{
    if places.len() > 0 {
        let before = picked(pool, places.drop_last());
        let all = picked(pool, places);
        let n = all.index_of(hit);
        if n < before.len() {
            assert(before[n] == hit);
            lemma_picked(pool, places.drop_last(), hit);
        } else {
            assert(pool[places.last() as int] == hit);
        }
    }
}

/// Hits that get their payloads from the table: exactly those that are nodes, each with its score
/// and the payload that the table holds.
pub proof fn law_hydrated_hits_are_nodes<T: VectorType>(
    table: Table<T>,
    hits: Seq<HitView>,
    hit: HitView,
)
    ensures
        hydrated(table, hits).contains(hit) <==> table.nodes.contains_key(hit.id) && hit.payload
            == table.nodes[hit.id].payload && exists|i: int|
            0 <= i < hits.len() && (#[trigger] hits[i]).id == hit.id && hits[i].score == hit.score,
    decreases hits.len(),
{
    if hits.len() > 0 {
        let few = hits.drop_last();
        let last = hits[hits.len() - 1];
        assert(hits.last() == last);
        law_hydrated_hits_are_nodes(table, few, hit);
        let before = hydrated(table, few);
        crate::collections::lemma_contains_push(
            before,
            HitView { payload: table.nodes[last.id].payload, ..last },
            hit,
        );
        if exists|i: int|
            0 <= i < few.len() && (#[trigger] few[i]).id == hit.id && few[i].score == hit.score {
            let i = choose|i: int|
                0 <= i < few.len() && (#[trigger] few[i]).id == hit.id && few[i].score == hit.score;
            assert(hits[i].id == hit.id && hits[i].score == hit.score);
        }
        if exists|i: int|
            0 <= i < hits.len() && (#[trigger] hits[i]).id == hit.id && hits[i].score == hit.score {
            let i = choose|i: int|
                0 <= i < hits.len() && (#[trigger] hits[i]).id == hit.id && hits[i].score
                    == hit.score;
            if i < few.len() {
                assert(few[i].id == hit.id && few[i].score == hit.score);
            }
        }
    }
}

/// The settings of a search that reach the expansion of the graph, each under its own name.
pub proof fn law_the_settings_reach_the_expansion(config: &SearchConfig, tired: &BTreeSet<NodeId>)
    ensures
        ({
            let settings = spreading(config, tired);
            &&& settings.restart_alpha == config.teleport_alpha
            &&& settings.enable_inverse_inhibition == config.enable_inverse_inhibition
            &&& settings.lateral_inhibition_threshold == config.lateral_inhibition_threshold
            &&& settings.enable_refractory_fatigue == config.enable_refractory_fatigue
            &&& settings.diffusion_bias is Some == config.diffusion_bias is Some
            &&& settings.diffusion_bias is Some ==> *settings.diffusion_bias->0
                == config.diffusion_bias->0
            &&& settings.expand_labels is Some == config.expand_labels is Some
            &&& settings.expand_labels is Some ==> *settings.expand_labels->0
                == config.expand_labels->0
            &&& settings.max_edges_per_node == config.max_edges_per_node
            &&& settings.min_edge_weight == config.min_edge_weight
            &&& settings.edge_direction == config.edge_direction
            &&& settings.tired == tired
        }),
{
}

} // verus!
