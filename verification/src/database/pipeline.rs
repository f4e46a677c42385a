//! The stages of a search.
//!
//! A search checks its query and its settings, recalls candidates, keeps the best of them as
//! seeds, expands the graph from the seeds, ranks what it found and returns the best. Code of the
//! caller's own runs between the stages. What needs floating point or an index is asked of a
//! search engine; every decision is made here.
use std::collections::{BTreeMap, BTreeSet};
use vstd::prelude::*;

use crate::collections::{increasing, lemma_contains_push, map_keys};
use crate::database::config::{
    is_all_bits_finite, is_refusal, is_refused, sanitize_config, sanitized, saturated_product,
    spec_recall_k, spec_rerank_k, all_bits_finite, greater_of, SearchConfig,
};
use crate::database::fusion::{
    boost_weight, hit_scores, rank_scores, score_of, scored_set, scores_of_hits, Arithmetic,
};
use crate::error::{is_invalid_input, Result, TriviumError};
use crate::filter::{holds, Filter};
use crate::graph::constrained::scores;
use crate::graph::traversal::{
    expand_graph_with_labels, is_gate, tired_next, update_tired, Energies, Expansion, Spreading,
};
use crate::hook::{
    adds_notes, calls_custom_recall, calls_post_recall, calls_post_search, calls_pre_graph_expand,
    calls_pre_search, calls_rerank, figures_of, lemma_more_notes, lemma_no_notes,
    lemma_notes_without_error, run_custom_recall, run_post_recall, run_post_search,
    run_pre_graph_expand, run_pre_search, run_rerank, without_error, Candidates, HookContext,
    HookError, Preparation, SearchHook,
};
use crate::node::{NodeId, SearchHit};
use crate::number::{f32_at_least, f32_less, spec_f32_at_least, spec_f32_less};
use crate::ranking::{hits_order, scored_order, HitView, Scored};
use crate::sorting::{is_best, keep_best, order_of, sort_items, sorted, views};
use crate::storage::memtable::{MemTable, Table};
use crate::text::{decimal, join, to_decimal};
use crate::vector::{all_finite, is_all_finite, VectorType};

verus! {

/// What a search found: everything, what the recall found, and what the graph added.
#[derive(Debug)]
pub struct PipelineOutput {
    pub combined_hits: Vec<SearchHit>,
    pub semantic_hits: Vec<SearchHit>,
    pub graph_hits: Vec<SearchHit>,
}

impl PipelineOutput {
    /// Nothing found.
    pub fn empty() -> (output: PipelineOutput)
        ensures
            output.combined_hits@.len() == 0,
            output.semantic_hits@.len() == 0,
            output.graph_hits@.len() == 0,
    {
        PipelineOutput {
            combined_hits: Vec::new(),
            semantic_hits: Vec::new(),
            graph_hits: Vec::new(),
        }
    }
}

/// Whether a query may be searched for in a table of this dimension.
pub open spec fn is_query<T: VectorType>(query: Option<&[T]>, dim: nat) -> bool {
    query matches Some(vector) ==> vector@.len() == dim && all_finite(vector@)
}

/// Checks a query: its length first, then its components.
pub fn check_query<T: VectorType>(query: Option<&[T]>, dim: usize) -> (result: Result<()>)
    ensures
        result is Ok <==> is_query(query, dim as nat),
        query matches Some(vector) ==> vector@.len() != dim ==> (result matches Err(
            TriviumError::DimensionMismatch { expected, got },
        ) && expected == dim && got == vector@.len()),
        query matches Some(vector) ==> vector@.len() == dim && !all_finite(vector@) ==> (
        result matches Err(TriviumError::InvalidVector { reason }) && reason@
            == "查询向量包含 NaN 或 Infinity (Query vector contains NaN or Infinity)"@),
{
    match query {
        Some(vector) => {
            if vector.len() != dim {
                return Err(TriviumError::DimensionMismatch { expected: dim, got: vector.len() });
            }
            if !is_all_finite(vector) {
                return Err(
                    TriviumError::InvalidVector {
                        reason: "查询向量包含 NaN 或 Infinity (Query vector contains NaN or Infinity)".to_owned(),
                    },
                );
            }
            Ok(())
        },
        None => Ok(()),
    }
}

/// Checks a query that a hook may have changed.
pub fn validate_hooked_query(query: &[u32], dim: usize) -> (result: Result<()>)
    ensures
        result is Ok <==> query@.len() == dim && all_bits_finite(query@),
        query@.len() != dim ==> (result matches Err(
            TriviumError::DimensionMismatch { expected, got },
        ) && expected == dim && got == query@.len()),
        query@.len() == dim && !all_bits_finite(query@) ==> (result matches Err(
            TriviumError::InvalidVector { reason },
        ) && reason@
            == "Hook 修改后的查询向量包含 NaN 或 Infinity (Hook-modified query vector contains NaN or Infinity)"@),
{
    if query.len() != dim {
        return Err(TriviumError::DimensionMismatch { expected: dim, got: query.len() });
    }
    if !is_all_bits_finite(query) {
        return Err(
            TriviumError::InvalidVector {
                reason: "Hook 修改后的查询向量包含 NaN 或 Infinity (Hook-modified query vector contains NaN or Infinity)".to_owned(),
            },
        );
    }
    Ok(())
}

/// How many bytes are in use while a vector index is built, as far as a machine word can hold it.
pub open spec fn projected_bytes(build: (usize, usize)) -> int {
    if build.0 + build.1 > usize::MAX {
        usize::MAX as int
    } else {
        build.0 + build.1
    }
}

/// Whether a vector index has to be built that goes beyond the memory limit; zero is no limit.
pub open spec fn is_over_limit(memory_limit: usize, build: Option<(usize, usize)>) -> bool {
    build matches Some(bytes) && memory_limit > 0 && projected_bytes(bytes) > memory_limit
}

/// Whether `error` says that the build of a vector index goes beyond the memory limit.
pub open spec fn is_limit_fault(
    memory_limit: usize,
    build: Option<(usize, usize)>,
    error: TriviumError,
) -> bool {
    build matches Some(bytes) && is_invalid_input(
        error,
        "QuIVer 自动构建预计峰值 "@ + decimal((projected_bytes(bytes) / 1048576) as nat)
            + "MB 超过内存上限 "@ + decimal((memory_limit / 1048576) as nat) + "MB"@,
    )
}

/// Checks that building a vector index, which takes `peak` bytes besides what is in use, stays
/// within the memory limit; zero is no limit.
pub fn check_build_memory(in_use: usize, peak: usize, memory_limit: usize) -> (result: Result<()>)
    ensures
        result is Ok <==> !is_over_limit(memory_limit, Some((in_use, peak))),
        result matches Err(error) ==> is_limit_fault(memory_limit, Some((in_use, peak)), error),
{
    let projected: usize = in_use.saturating_add(peak);
    if memory_limit > 0 && projected > memory_limit {
        let mut message = join(
            "QuIVer 自动构建预计峰值 ",
            to_decimal((projected / 1_048_576) as u64).as_str(),
        );
        message = join(message.as_str(), "MB 超过内存上限 ");
        message = join(message.as_str(), to_decimal((memory_limit / 1_048_576) as u64).as_str());
        message = join(message.as_str(), "MB");
        return Err(TriviumError::InvalidInput(message));
    }
    Ok(())
}

/// What a search does after the first hook: it fails with the hook's error, ends where the hook
/// asked for it (`false`), and otherwise checks the settings and the query once more.
pub fn after_pre_search(
    ctx: &mut HookContext,
    config: &mut SearchConfig,
    query: Option<&[u32]>,
    dim: usize,
) -> (result: Result<bool>)
    ensures
        *final(ctx) == (HookContext { error: None, ..*old(ctx) }),
        match old(ctx).error {
            Some(failure) => result == Err::<bool, TriviumError>(
                TriviumError::HookExecutionError { stage: failure.stage, reason: failure.reason },
            ) && *final(config) == *old(config),
            None => if old(ctx).abort {
                result == Ok::<bool, TriviumError>(false) && *final(config) == *old(config)
            } else if is_refused(*old(config), dim) {
                result matches Err(error) && is_refusal(*old(config), dim, error)
            } else if query matches Some(vector) && vector@.len() != dim {
                result matches Err(TriviumError::DimensionMismatch { expected, got }) && expected
                    == dim && got == query->0@.len()
            } else if query matches Some(vector) && !all_bits_finite(vector@) {
                result matches Err(TriviumError::InvalidVector { reason }) && reason@
                    == "Hook 修改后的查询向量包含 NaN 或 Infinity (Hook-modified query vector contains NaN or Infinity)"@
            } else {
                result == Ok::<bool, TriviumError>(true) && *final(config) == sanitized(
                    *old(config),
                )
            },
        },
{
    match ctx.check_error() {
        Ok(()) => {},
        Err(error) => {
            return Err(error);
        },
    }
    if ctx.abort {
        return Ok(false);
    }
    match sanitize_config(config, dim) {
        Ok(()) => {},
        Err(error) => {
            return Err(error);
        },
    }
    match query {
        Some(vector) => match validate_hooked_query(vector, dim) {
            Ok(()) => Ok(true),
            Err(error) => Err(error),
        },
        None => Ok(true),
    }
}

/// Whether a node is in the table and its payload satisfies the filter, where there is one.
pub open spec fn passes<T: VectorType>(
    table: Table<T>,
    filter: Option<Filter>,
    id: NodeId,
) -> bool {
    table.nodes.contains_key(id) && (filter matches Some(condition) ==> holds(
        condition@,
        table.nodes[id].payload.value,
    ))
}

/// Whether a node is in the table and its payload satisfies the filter, where there is one.
fn is_passing<T: VectorType>(table: &MemTable<T>, filter: &Option<Filter>, id: NodeId) -> (result:
    bool)
    ensures
        result == passes(table@, *filter, id),
{
    match filter {
        None => table.contains(id),
        Some(condition) => match table.get_payload(id) {
            Some(payload) => condition.matches(&payload.value),
            None => false,
        },
    }
}

/// Whether a result may be returned: zero is no node.
pub fn matches_payload_filter<T: VectorType>(
    table: &MemTable<T>,
    filter: &Option<Filter>,
    id: NodeId,
) -> (result: bool)
    ensures
        result == (id != 0 && passes(table@, *filter, id)),
{
    id != 0 && is_passing(table, filter, id)
}

/// The node in a slot of the vector store, if it may be returned. A slot without a node is zero or
/// missing; a slot whose tag lacks a bit of the mask is passed over without a look at the payload.
pub fn eligible_node_id<T: VectorType>(
    table: &MemTable<T>,
    filter: &Option<Filter>,
    bloom_mask: u64,
    slot: Option<NodeId>,
    tag: Option<u64>,
) -> (result: Option<NodeId>)
    ensures
        result == match slot {
            Some(id) if id != 0 && (bloom_mask == 0 || (tag matches Some(bits) ==> bits & bloom_mask
                == bloom_mask)) && passes(table@, *filter, id) => Some(id),
            _ => None::<NodeId>,
        },
{
    match slot {
        Some(id) => {
            if id == 0 {
                return None;
            }
            if bloom_mask != 0 {
                match tag {
                    Some(bits) => if bits & bloom_mask != bloom_mask {
                        return None;
                    },
                    None => {},
                }
            }
            if is_passing(table, filter, id) {
                Some(id)
            } else {
                None
            }
        },
        None => None,
    }
}

/// Whether vectors are searched through the index.
pub fn uses_index(config: &SearchConfig, has_index: bool) -> (result: bool)
    ensures
        result == (!config.force_brute_force && has_index),
{
    !config.force_brute_force && has_index
}

/// Whether a search through the index found too little and an exact scan has to follow: only a
/// filter can leave too little.
pub fn needs_exact_scan(filter: &Option<Filter>, top_k: usize, found: usize) -> (result: bool)
    ensures
        result == (*filter is Some && found < top_k),
{
    filter.is_some() && found < top_k
}

/// How many entries the index is asked for, and how wide it searches for them: two and eight times
/// as many as are recalled.
pub fn index_search_width(recall_k: usize) -> (result: (usize, usize))
    ensures
        result.0 == saturated_product(greater_of(recall_k, 1), 2),
        result.1 == saturated_product(greater_of(recall_k, 1), 8),
{
    let wanted: usize = if recall_k < 1 {
        1
    } else {
        recall_k
    };
    (
        match wanted.checked_mul(2) {
            Some(product) => product,
            None => usize::MAX,
        },
        match wanted.checked_mul(8) {
            Some(product) => product,
            None => usize::MAX,
        },
    )
}

/// The entries that reach the least score and may be returned.
pub open spec fn admitted<T: VectorType>(
    table: Table<T>,
    filter: Option<Filter>,
    min_score: u32,
    found: Seq<Scored>,
) -> Seq<Scored> {
    found.filter(
        |item: Scored|
            spec_f32_at_least(item.score, min_score) && item.id != 0 && passes(
                table,
                filter,
                item.id,
            ),
    )
}

/// The entries of an index search that count, the best first, at most `recall_k`.
pub fn select_index_hits<T: VectorType>(
    table: &MemTable<T>,
    filter: &Option<Filter>,
    min_score: u32,
    found: &Vec<Scored>,
    recall_k: usize,
) -> (ranking: Vec<Scored>)
    ensures
        ({
            let all = sorted(
                admitted(table@, *filter, min_score, found@),
                scored_order(),
            );
            ranking@ == if all.len() <= recall_k {
                all
            } else {
                all.take(recall_k as int)
            }
        }),
{
    let ghost keep = |item: Scored|
        spec_f32_at_least(item.score, min_score) && item.id != 0 && passes(
            table@,
            *filter,
            item.id,
        );
    let mut kept: Vec<Scored> = Vec::new();
    let mut i: usize = 0;
    proof {
        assert(found@.take(0) =~= Seq::<Scored>::empty());
        reveal(Seq::filter);
        assert(kept@ =~= found@.take(0).filter(keep));
    }
    while i < found.len()
        invariant
            i <= found@.len(),
            keep == (|item: Scored|
                spec_f32_at_least(item.score, min_score) && item.id != 0 && passes(
                    table@,
                    *filter,
                    item.id,
                )),
            kept@ == found@.take(i as int).filter(keep),
        decreases found@.len() - i,
    {
        let item = found[i];
        let wanted = f32_at_least(item.score, min_score) && matches_payload_filter(
            table,
            filter,
            item.id,
        );
        proof {
            lemma_filter_next(found@, keep, i as int);
        }
        if wanted {
            kept.push(item);
        }
        i += 1;
    }
    assert(found@.take(i as int) =~= found@);
    assert(views(kept@) =~= kept@);
    let mut ranking = sort_items(kept);
    assert(views(ranking@) =~= ranking@);
    let ghost all = ranking@;
    ranking.truncate(recall_k);
    proof {
        if all.len() > recall_k {
            assert(ranking@ =~= all.take(recall_k as int));
        }
    }
    ranking
}

/// A filtered list, one element longer.
proof fn lemma_filter_next<A>(list: Seq<A>, keep: spec_fn(A) -> bool, n: int)
    requires
        0 <= n < list.len(),
    ensures
        list.take(n + 1).filter(keep) == if keep(list[n]) {
            list.take(n).filter(keep).push(list[n])
        } else {
            list.take(n).filter(keep)
        },
{
    reveal(Seq::filter);
    assert(list.take(n + 1).drop_last() =~= list.take(n));
    assert(list.take(n + 1).last() == list[n]);
}

/// Whether the part of a query that the candidates leave unexplained is looked at.
pub fn wants_residual(config: &SearchConfig, has_query: bool, has_seeds: bool) -> (result: bool)
    ensures
        result == (config.enable_advanced_pipeline && config.enable_sparse_residual && has_seeds
            && has_query),
{
    config.enable_advanced_pipeline && config.enable_sparse_residual && has_seeds && has_query
}

/// Whether what is left of a query is large enough to be searched for.
pub fn starts_shadow_search(config: &SearchConfig, residual_norm: u32) -> (result: bool)
    ensures
        result == spec_f32_less(config.fista_threshold, residual_norm),
{
    f32_less(config.fista_threshold, residual_norm)
}

/// The scored nodes whose vectors explain a query: those that may be returned.
pub fn residual_entities<T: VectorType>(
    table: &MemTable<T>,
    config: &SearchConfig,
    scores: &BTreeMap<NodeId, u32>,
) -> (ids: Vec<NodeId>)
    ensures
        increasing(ids@),
        forall|id: NodeId| #[trigger]
            ids@.contains(id) <==> scores@.contains_key(id) && id != 0 && passes(
                table@,
                config.payload_filter,
                id,
            ),
{
    let all = map_keys(scores);
    let mut ids: Vec<NodeId> = Vec::new();
    let mut i: usize = 0;
    while i < all.len()
        invariant
            i <= all@.len(),
            increasing(all@),
            all@.to_set() == scores@.dom(),
            increasing(ids@),
            forall|n: int|
                0 <= n < ids@.len() ==> i > 0 && (#[trigger] ids@[n]) <= all@[i - 1],
            forall|id: NodeId| #[trigger]
                ids@.contains(id) <==> all@.take(i as int).contains(id) && id != 0 && passes(
                    table@,
                    config.payload_filter,
                    id,
                ),
        decreases all@.len() - i,
    {
        let id: NodeId = all[i];
        let ghost before = ids@;
        proof {
            assert(all@.take(i + 1) =~= all@.take(i as int).push(id));
        }
        if i > 0 {
            assert(all@[i - 1] < all@[i as int]);
        }
        if matches_payload_filter(table, &config.payload_filter, id) {
            ids.push(id);
        }
        proof {
            assert forall|other: NodeId| #[trigger] ids@.contains(other) <==> all@.take(
                i + 1,
            ).contains(other) && other != 0 && passes(table@, config.payload_filter, other) by {
                crate::collections::lemma_contains_push(all@.take(i as int), id, other);
                crate::collections::lemma_contains_push(before, id, other);
                assert(before.contains(other) <==> all@.take(i as int).contains(other) && other
                    != 0 && passes(table@, config.payload_filter, other));
            }
        }
        i += 1;
    }
    proof {
        assert(all@.take(i as int) =~= all@);
        assert forall|id: NodeId| #[trigger] ids@.contains(id) <==> scores@.contains_key(id) && id
            != 0 && passes(table@, config.payload_filter, id) by {
            assert(all@.to_set().contains(id) <==> all@.contains(id));
        }
    }
    ids
}

/// The scored nodes that may become seeds: those that reach the least score and may be returned.
pub open spec fn seed_candidates<T: VectorType>(
    table: Table<T>,
    config: SearchConfig,
    scores: Map<NodeId, u32>,
) -> Set<Scored> {
    Set::new(
        |item: Scored|
            scores.contains_key(item.id) && scores[item.id] == item.score && spec_f32_at_least(
                item.score,
                config.min_score,
            ) && passes(table, config.payload_filter, item.id),
    )
}

/// Scored nodes with their payloads.
pub open spec fn hits_of<T: VectorType>(table: Table<T>, chosen: Seq<Scored>) -> Seq<HitView> {
    chosen.map_values(
        |item: Scored|
            HitView { id: item.id, score: item.score, payload: table.nodes[item.id].payload },
    )
}

/// The seeds of a search: the best of the scored nodes that may be returned, as many as are ranked
/// again, with their payloads.
pub fn aggregate_seeds<T: VectorType>(
    table: &MemTable<T>,
    config: &SearchConfig,
    scores: &BTreeMap<NodeId, u32>,
) -> (hits: Vec<SearchHit>)
    ensures
        exists|chosen: Seq<Scored>|
            is_best(
                seed_candidates(table@, *config, scores@),
                scored_order(),
                spec_rerank_k(config.top_k, config.recall_k, config.rerank_k) as nat,
                chosen,
            ) && views(hits@) == #[trigger] hits_of(table@, chosen),
{
    let limit: usize = config.effective_rerank_k();
    let ids = map_keys(scores);
    let mut chosen: Vec<Scored> = Vec::new();
    let ghost mut seen: Set<Scored> = Set::empty();
    let ghost all = seed_candidates(table@, *config, scores@);
    let mut i: usize = 0;
    while i < ids.len()
        invariant
            i <= ids@.len(),
            increasing(ids@),
            ids@.to_set() == scores@.dom(),
            all == seed_candidates(table@, *config, scores@),
            forall|item: Scored| #[trigger]
                seen.contains(item) <==> ids@.take(i as int).contains(item.id) && all.contains(
                    item,
                ),
            is_best(seen, order_of::<Scored>(), limit as nat, views(chosen@)),
        decreases ids@.len() - i,
    {
        let id: NodeId = ids[i];
        proof {
            assert(ids@.contains(id));
            assert(ids@.to_set().contains(id));
        }
        let score: u32 = *scores.get(&id).unwrap();
        let item = Scored { id, score };
        let ghost before = seen;
        proof {
            assert forall|other: Scored| #[trigger] seen.contains(other) implies other.id
                != id by {
                let k = choose|k: int| 0 <= k < i && ids@.take(i as int)[k] == other.id;
                assert(ids@[k] < ids@[i as int]);
            }
        }
        if f32_at_least(score, config.min_score) && is_passing(table, &config.payload_filter, id) {
            keep_best(&mut chosen, item, limit, Ghost(seen));
            proof {
                seen = seen.insert(item);
            }
        }
        proof {
            assert(ids@.take(i + 1) =~= ids@.take(i as int).push(id));
            assert forall|other: Scored| #[trigger] seen.contains(other) <==> ids@.take(
                i + 1,
            ).contains(other.id) && all.contains(other) by {
                crate::collections::lemma_contains_push(ids@.take(i as int), id, other.id);
                assert(before.contains(other) <==> ids@.take(i as int).contains(other.id)
                    && all.contains(other));
            }
        }
        i += 1;
    }
    proof {
        assert(ids@.take(i as int) =~= ids@);
        assert(seen =~= all) by {
            assert forall|item: Scored| #[trigger] seen.contains(item) <==> all.contains(item) by {
                assert(ids@.to_set().contains(item.id) <==> ids@.contains(item.id));
            }
        }
        assert(views(chosen@) =~= chosen@);
    }
    let mut hits: Vec<SearchHit> = Vec::new();
    let mut j: usize = 0;
    while j < chosen.len()
        invariant
            j <= chosen@.len(),
            hits@.len() == j,
            forall|n: int|
                0 <= n < chosen@.len() ==> table@.nodes.contains_key((#[trigger] chosen@[n]).id),
            forall|n: int| 0 <= n < j ==> (#[trigger] hits@[n])@ == hits_of(table@, chosen@)[n],
        decreases chosen@.len() - j,
    {
        let item = chosen[j];
        assert(table@.nodes.contains_key(chosen@[j as int].id));
        let payload = table.get_payload(item.id).unwrap();
        hits.push(SearchHit { id: item.id, score: item.score, payload: payload.duplicate() });
        j += 1;
    }
    assert(views(hits@) =~= hits_of(table@, chosen@));
    hits
}

/// The hits that are nodes of the table, with the payloads that the table holds.
pub open spec fn hydrated<T: VectorType>(table: Table<T>, hits: Seq<HitView>) -> Seq<HitView>
    decreases hits.len(),
{
    if hits.len() == 0 {
        Seq::empty()
    } else {
        let before = hydrated(table, hits.drop_last());
        let hit = hits.last();
        if table.nodes.contains_key(hit.id) {
            before.push(HitView { payload: table.nodes[hit.id].payload, ..hit })
        } else {
            before
        }
    }
}

/// Gives hits the payloads that the table holds, and drops those that are no nodes.
pub fn hydrate<T: VectorType>(table: &MemTable<T>, hits: &Vec<SearchHit>) -> (seeds: Vec<SearchHit>)
    ensures
        views(seeds@) == hydrated(table@, views(hits@)),
{
    let mut seeds: Vec<SearchHit> = Vec::new();
    let mut i: usize = 0;
    assert(views(seeds@) =~= Seq::<HitView>::empty());
    assert(views(hits@).take(0) =~= Seq::<HitView>::empty());
    while i < hits.len()
        invariant
            i <= hits@.len(),
            views(seeds@) == hydrated(table@, views(hits@).take(i as int)),
        decreases hits@.len() - i,
    {
        let hit = &hits[i];
        let ghost before = seeds@;
        proof {
            assert(views(hits@).take(i + 1).drop_last() =~= views(hits@).take(i as int));
            assert(views(hits@).take(i + 1).last() == hit@);
        }
        match table.get_payload(hit.id) {
            Some(payload) => {
                let seed = SearchHit { id: hit.id, score: hit.score, payload: payload.duplicate() };
                seeds.push(seed);
                assert(views(seeds@) =~= views(before).push(seed@));
            },
            None => {},
        }
        i += 1;
    }
    assert(views(hits@).take(i as int) =~= views(hits@));
    seeds
}

/// The first elements of a list, at most `limit`.
pub open spec fn first<A>(list: Seq<A>, limit: usize) -> Seq<A> {
    if list.len() <= limit {
        list
    } else {
        list.take(limit as int)
    }
}

/// The first hits, at most `limit`.
pub fn first_hits(hits: &Vec<SearchHit>, limit: usize) -> (result: Vec<SearchHit>)
    ensures
        views(result@) == first(views(hits@), limit),
{
    let count: usize = if hits.len() <= limit {
        hits.len()
    } else {
        limit
    };
    let mut result: Vec<SearchHit> = Vec::new();
    let mut i: usize = 0;
    while i < count
        invariant
            i <= count <= hits@.len(),
            result@.len() == i,
            forall|n: int| 0 <= n < i ==> (#[trigger] result@[n])@ == hits@[n]@,
        decreases count - i,
    {
        result.push(hits[i].duplicate());
        i += 1;
    }
    assert(views(result@) =~= first(views(hits@), limit));
    result
}

/// Whether a list holds a hit for a node.
pub open spec fn hit_listed(hits: Seq<HitView>, id: NodeId) -> bool {
    exists|i: int| 0 <= i < hits.len() && (#[trigger] hits[i]).id == id
}

/// The nodes of a list of hits.
pub fn hit_ids(hits: &Vec<SearchHit>) -> (ids: BTreeSet<NodeId>)
    ensures
        forall|id: NodeId| #[trigger] ids@.contains(id) <==> hit_listed(views(hits@), id),
{
    let mut ids: BTreeSet<NodeId> = BTreeSet::new();
    let mut i: usize = 0;
    while i < hits.len()
        invariant
            i <= hits@.len(),
            forall|id: NodeId| #[trigger]
                ids@.contains(id) <==> exists|n: int|
                    0 <= n < i && (#[trigger] views(hits@)[n]).id == id,
        decreases hits@.len() - i,
    {
        let ghost before = ids@;
        ids.insert(hits[i].id);
        proof {
            assert forall|id: NodeId| #[trigger] ids@.contains(id) <==> exists|n: int|
                0 <= n < i + 1 && (#[trigger] views(hits@)[n]).id == id by {
                assert(before.contains(id) <==> exists|n: int|
                    0 <= n < i && (#[trigger] views(hits@)[n]).id == id);
                assert(views(hits@)[i as int].id == hits@[i as int].id);
                if before.contains(id) {
                    let n = choose|n: int| 0 <= n < i && (#[trigger] views(hits@)[n]).id == id;
                    assert(views(hits@)[n].id == id);
                }
                if exists|n: int| 0 <= n < i + 1 && (#[trigger] views(hits@)[n]).id == id {
                    let n = choose|n: int| 0 <= n < i + 1 && (#[trigger] views(hits@)[n]).id == id;
                    if n < i {
                        assert(views(hits@)[n].id == id);
                    }
                }
            }
        }
        i += 1;
    }
    ids
}

/// What a search does after the ranking hook: it takes the hook's ranking where there is one, and
/// fails with the hook's error.
pub fn after_rerank(
    ctx: &mut HookContext,
    expanded: Vec<SearchHit>,
    reranked: Option<Vec<SearchHit>>,
) -> (result: Result<Vec<SearchHit>>)
    ensures
        *final(ctx) == (HookContext { error: None, ..*old(ctx) }),
        match old(ctx).error {
            Some(failure) => result == Err::<Vec<SearchHit>, TriviumError>(
                TriviumError::HookExecutionError { stage: failure.stage, reason: failure.reason },
            ),
            None => result == Ok::<Vec<SearchHit>, TriviumError>(
                match reranked {
                    Some(hits) => hits,
                    None => expanded,
                },
            ),
        },
{
    match ctx.check_error() {
        Ok(()) => {},
        Err(error) => {
            return Err(error);
        },
    }
    match reranked {
        Some(hits) => Ok(hits),
        None => Ok(expanded),
    }
}

/// The hits that may be returned under a filter. Without a filter every hit may.
pub open spec fn permitted<T: VectorType>(
    table: Table<T>,
    filter: Option<Filter>,
    hits: Seq<HitView>,
) -> Seq<HitView> {
    if filter is None {
        hits
    } else {
        hits.filter(|hit: HitView| hit.id != 0 && passes(table, filter, hit.id))
    }
}

/// Drops the hits that the filter rules out.
pub fn retain_permitted<T: VectorType>(
    table: &MemTable<T>,
    filter: &Option<Filter>,
    hits: Vec<SearchHit>,
) -> (result: Vec<SearchHit>)
    ensures
        views(result@) == permitted(table@, *filter, views(hits@)),
{
    if filter.is_none() {
        return hits;
    }
    let ghost keep = |hit: HitView| hit.id != 0 && passes(table@, *filter, hit.id);
    let ghost given = views(hits@);
    let mut result: Vec<SearchHit> = Vec::new();
    proof {
        reveal(Seq::filter);
        assert(given.take(0) =~= Seq::<HitView>::empty());
        assert(views(result@) =~= given.take(0).filter(keep));
    }
    for hit in iter: hits
        invariant
            views(iter.seq()) == given,
            keep == (|hit: HitView| hit.id != 0 && passes(table@, *filter, hit.id)),
            views(result@) == given.take(iter.index()).filter(keep),
    {
        let ghost before = result@;
        proof {
            assert(given[iter.index()] == hit@);
            lemma_filter_next(given, keep, iter.index());
        }
        if matches_payload_filter(table, filter, hit.id) {
            let ghost view = hit@;
            result.push(hit);
            assert(views(result@) =~= views(before).push(view));
        }
    }
    assert(given.take(given.len() as int) =~= given);
    result
}

/// What the graph added: the hits that are no seeds, the first `limit` of them.
pub fn graph_hits(expanded: &Vec<SearchHit>, semantic_ids: &BTreeSet<NodeId>, limit: usize) -> (hits:
    Vec<SearchHit>)
    ensures
        views(hits@) == first(
            views(expanded@).filter(|hit: HitView| !semantic_ids@.contains(hit.id)),
            limit,
        ),
{
    let ghost keep = |hit: HitView| !semantic_ids@.contains(hit.id);
    let ghost given = views(expanded@);
    let mut found: Vec<SearchHit> = Vec::new();
    proof {
        reveal(Seq::filter);
        assert(given.take(0) =~= Seq::<HitView>::empty());
        assert(views(found@) =~= given.take(0).filter(keep));
    }
    let mut i: usize = 0;
    while i < expanded.len()
        invariant
            i <= expanded@.len(),
            given == views(expanded@),
            keep == (|hit: HitView| !semantic_ids@.contains(hit.id)),
            views(found@) == given.take(i as int).filter(keep),
        decreases expanded@.len() - i,
    {
        let ghost before = found@;
        proof {
            assert(given[i as int] == expanded@[i as int]@);
            lemma_filter_next(given, keep, i as int);
        }
        if !semantic_ids.contains(&expanded[i].id) {
            let hit = expanded[i].duplicate();
            found.push(hit);
            assert(views(found@) =~= views(before).push(hit@));
        }
        i += 1;
    }
    assert(given.take(i as int) =~= given);
    first_hits(&found, limit)
}

/// The hits among which a varied choice is made: of the first three times `limit`, those with a
/// vector.
pub open spec fn diversity_candidates<T: VectorType>(
    table: Table<T>,
    hits: Seq<HitView>,
    limit: usize,
) -> Seq<HitView> {
    first(hits, saturated_product(limit, 3)).filter(
        |hit: HitView| table.nodes.contains_key(hit.id),
    )
}

/// The hits among which a varied choice is made, where there are more than are returned.
pub fn diversity_pool<T: VectorType>(
    table: &MemTable<T>,
    hits: &Vec<SearchHit>,
    limit: usize,
) -> (pool: Option<Vec<SearchHit>>)
    ensures
        pool is None <==> diversity_candidates(table@, views(hits@), limit).len() <= limit,
        pool matches Some(chosen) ==> views(chosen@) == diversity_candidates(
            table@,
            views(hits@),
            limit,
        ),
{
    let wide: usize = match limit.checked_mul(3) {
        Some(product) => product,
        None => usize::MAX,
    };
    let near = first_hits(hits, wide);
    let ghost keep = |hit: HitView| table@.nodes.contains_key(hit.id);
    let ghost given = views(near@);
    let mut pool: Vec<SearchHit> = Vec::new();
    proof {
        reveal(Seq::filter);
        assert(given.take(0) =~= Seq::<HitView>::empty());
        assert(views(pool@) =~= given.take(0).filter(keep));
    }
    for hit in iter: near
        invariant
            views(iter.seq()) == given,
            keep == (|hit: HitView| table@.nodes.contains_key(hit.id)),
            views(pool@) == given.take(iter.index()).filter(keep),
    {
        let ghost before = pool@;
        proof {
            assert(given[iter.index()] == hit@);
            lemma_filter_next(given, keep, iter.index());
        }
        if table.get_vector(hit.id).is_some() {
            let ghost view = hit@;
            pool.push(hit);
            assert(views(pool@) =~= views(before).push(view));
        }
    }
    assert(given.take(given.len() as int) =~= given);
    assert(views(pool@).len() == pool@.len());
    if pool.len() <= limit {
        None
    } else {
        Some(pool)
    }
}

/// The hits at the chosen places, as far as there are such places.
pub open spec fn picked(pool: Seq<HitView>, places: Seq<usize>) -> Seq<HitView>
    decreases places.len(),
{
    if places.len() == 0 {
        Seq::empty()
    } else if places.last() < pool.len() {
        picked(pool, places.drop_last()).push(pool[places.last() as int])
    } else {
        picked(pool, places.drop_last())
    }
}

/// The hits at the chosen places, the best first.
pub fn pick(pool: &Vec<SearchHit>, places: &Vec<usize>) -> (hits: Vec<SearchHit>)
    ensures
        views(hits@) == sorted(picked(views(pool@), places@), hits_order()),
{
    let mut chosen: Vec<SearchHit> = Vec::new();
    let mut i: usize = 0;
    assert(views(chosen@) =~= Seq::<HitView>::empty());
    assert(places@.take(0) =~= Seq::<usize>::empty());
    while i < places.len()
        invariant
            i <= places@.len(),
            views(chosen@) == picked(views(pool@), places@.take(i as int)),
        decreases places@.len() - i,
    {
        let place: usize = places[i];
        let ghost before = chosen@;
        proof {
            assert(places@.take(i + 1).drop_last() =~= places@.take(i as int));
            assert(views(pool@).len() == pool@.len());
        }
        if place < pool.len() {
            let hit = pool[place].duplicate();
            chosen.push(hit);
            assert(views(chosen@) =~= views(before).push(hit@));
        }
        i += 1;
    }
    assert(places@.take(i as int) =~= places@);
    sort_items(chosen)
}

/// What a search asks besides the node table: indexes of vectors and texts, a clock, figures about
/// the process, and the choices that take linear algebra. Nothing is taken for granted about what
/// they return. Scores, norms and the components that hooks see are single precision bit patterns.
pub trait SearchEngine<T: VectorType> {
    /// A time in nanoseconds.
    fn now(&self) -> u128;

    /// A component as a bit pattern.
    fn component_bits(&self, component: T) -> u32;

    /// A component from a bit pattern.
    fn component_from_bits(&self, bits: u32) -> T;

    /// Figures about the process and the store, by name.
    fn observations(&self) -> Vec<(String, u64)>;

    /// The nodes that have one of the keywords of a text.
    fn search_keywords(&self, text: &str) -> Vec<Scored>;

    /// The nodes that share words with a text.
    fn search_words(&self, text: &str, k1: u32, b: u32) -> Vec<Scored>;

    /// Whether there is a vector index.
    fn has_index(&self) -> bool;

    /// The nodes near a query, by way of the index.
    fn search_index(
        &self,
        table: &MemTable<T>,
        query: &[T],
        filter: &Option<Filter>,
        top_k: usize,
        width: usize,
    ) -> Vec<Scored>;

    /// What some nodes leave unexplained of a query, and its norm.
    fn residual(
        &self,
        table: &MemTable<T>,
        query: &[T],
        entities: &Vec<NodeId>,
        lambda: u32,
    ) -> (Vec<T>, u32);

    /// The places of a varied choice of hits.
    fn diversify(
        &self,
        table: &MemTable<T>,
        pool: &Vec<SearchHit>,
        limit: usize,
        quality_weight: u32,
    ) -> Vec<usize>;
}

/// The time that passed, and zero where the clock ran backwards.
fn elapsed(from: u128, to: u128) -> (duration: u128)
    ensures
        duration == if from <= to {
            to - from
        } else {
            0
        },
{
    if from <= to {
        to - from
    } else {
        0
    }
}

/// How far a search by vectors goes: how many nodes are returned in the end, how many are recalled
/// now, and what score they have to reach.
#[derive(Debug, Clone, Copy, PartialEq, Eq, Structural)]
pub struct Reach {
    pub top_k: usize,
    pub recall_k: usize,
    pub min_score: u32,
}

/// How far the search for a query goes.
pub open spec fn spec_query_reach(config: SearchConfig) -> Reach {
    Reach {
        top_k: config.top_k,
        recall_k: spec_recall_k(config.top_k, config.recall_k),
        min_score: config.min_score,
    }
}

/// How far the search for a query goes.
pub fn query_reach(config: &SearchConfig) -> (reach: Reach)
    ensures
        reach == spec_query_reach(*config),
{
    Reach {
        top_k: config.top_k,
        recall_k: config.effective_recall_k(),
        min_score: config.min_score,
    }
}

/// How far the search for the unexplained part of a query goes: as many nodes as are ranked again,
/// whatever their score, which is at least -1.
pub fn shadow_reach(config: &SearchConfig) -> (reach: Reach)
    ensures
        reach.top_k == config.rerank_k,
        reach.recall_k == spec_recall_k(config.rerank_k, config.rerank_k),
        reach.min_score == 0xbf80_0000u32,
{
    Reach {
        top_k: config.rerank_k,
        recall_k: if config.rerank_k == 0 {
            64
        } else {
            config.rerank_k
        },
        min_score: 0xbf80_0000,
    }
}

/// What a search through the index comes to: the ranking, unless an exact scan has to follow.
pub fn settle_index_search<T: VectorType>(
    table: &MemTable<T>,
    filter: &Option<Filter>,
    reach: Reach,
    found: &Vec<Scored>,
) -> (ranking: Option<Vec<Scored>>)
    ensures
        ({
            let all = sorted(admitted(table@, *filter, reach.min_score, found@), scored_order());
            let near = first(all, reach.recall_k);
            &&& ranking is None <==> *filter is Some && near.len() < reach.top_k
            &&& ranking matches Some(list) ==> list@ == near
        }),
{
    let near = select_index_hits(table, filter, reach.min_score, found, reach.recall_k);
    if needs_exact_scan(filter, reach.top_k, near.len()) {
        None
    } else {
        Some(near)
    }
}

/// Whether these are similarities to a query, for the nodes that may be returned.
pub open spec fn are_similarities<T: VectorType, F: Fn(&[T], &Vec<T>) -> u32>(
    table: Table<T>,
    similarity: F,
    filter: Option<Filter>,
    query: &[T],
    given: Map<NodeId, u32>,
) -> bool {
    forall|id: NodeId|
        {
            &&& #[trigger] given.contains_key(id) <==> id != 0 && passes(table, filter, id)
            &&& given.contains_key(id) ==> scores(
                similarity,
                query,
                table.nodes[id].vector,
                given[id],
            )
        }
}

/// The nodes that reach the least score.
pub open spec fn reaching(given: Map<NodeId, u32>, min_score: u32) -> Set<Scored> {
    Set::new(
        |item: Scored|
            given.contains_key(item.id) && given[item.id] == item.score && spec_f32_at_least(
                item.score,
                min_score,
            ),
    )
}

/// Whether a ranking is what an exact scan gives: of the nodes that may be returned, the best of
/// those that reach the least score.
pub open spec fn is_scanned<T: VectorType, F: Fn(&[T], &Vec<T>) -> u32>(
    table: Table<T>,
    similarity: F,
    filter: Option<Filter>,
    reach: Reach,
    query: &[T],
    ranking: Seq<Scored>,
) -> bool {
    exists|given: Map<NodeId, u32>| #[trigger]
        are_similarities(table, similarity, filter, query, given) && is_best(
            reaching(given, reach.min_score),
            scored_order(),
            reach.recall_k as nat,
            ranking,
        )
}

/// The nodes nearest to a query, of those that may be returned and reach the least score.
/// `similarity` computes the score of a stored vector.
pub fn brute_force_pipeline<T: VectorType, F: Fn(&[T], &Vec<T>) -> u32>(
    table: &MemTable<T>,
    similarity: &F,
    filter: &Option<Filter>,
    reach: Reach,
    query: &[T],
) -> (ranking: Vec<Scored>)
    requires
        forall|vector: &Vec<T>| call_requires(*similarity, (query, vector)),
    ensures
        is_scanned(table@, *similarity, *filter, reach, query, ranking@),
{
    let ids = table.all_node_ids();
    let mut kept: BTreeMap<NodeId, u32> = BTreeMap::new();
    let ghost mut given: Map<NodeId, u32> = Map::empty();
    let mut i: usize = 0;
    while i < ids.len()
        invariant
            i <= ids@.len(),
            increasing(ids@),
            ids@.to_set() == table@.nodes.dom(),
            forall|vector: &Vec<T>| call_requires(*similarity, (query, vector)),
            forall|id: NodeId| #[trigger]
                given.contains_key(id) <==> ids@.take(i as int).contains(id) && id != 0 && passes(
                    table@,
                    *filter,
                    id,
                ),
            forall|id: NodeId| #[trigger]
                given.contains_key(id) ==> scores(
                    *similarity,
                    query,
                    table@.nodes[id].vector,
                    given[id],
                ),
            forall|id: NodeId| #[trigger]
                kept@.contains_key(id) <==> given.contains_key(id) && spec_f32_at_least(
                    given[id],
                    reach.min_score,
                ),
            forall|id: NodeId| #[trigger] kept@.contains_key(id) ==> kept@[id] == given[id],
        decreases ids@.len() - i,
    {
        let id: NodeId = ids[i];
        proof {
            assert(ids@.take(i + 1) =~= ids@.take(i as int).push(id));
            assert forall|other: NodeId| #[trigger] ids@.take(i + 1).contains(other)
                <==> ids@.take(i as int).contains(other) || other == id by {
                lemma_contains_push(ids@.take(i as int), id, other);
            }
            assert(ids@.contains(id));
            assert(ids@.to_set().contains(id));
            if given.contains_key(id) {
                let k = choose|k: int| 0 <= k < i && ids@.take(i as int)[k] == id;
                assert(ids@[k] < ids@[i as int]);
            }
        }
        if matches_payload_filter(table, filter, id) {
            match table.get_vector(id) {
                Some(vector) => {
                    let score: u32 = similarity(query, vector);
                    proof {
                        assert(scores(*similarity, query, table@.nodes[id].vector, score));
                        given = given.insert(id, score);
                    }
                    if f32_at_least(score, reach.min_score) {
                        kept.insert(id, score);
                    }
                },
                None => {},
            }
        }
        i += 1;
    }
    proof {
        assert(ids@.take(i as int) =~= ids@);
        assert forall|id: NodeId| #[trigger] given.contains_key(id) <==> id != 0 && passes(
            table@,
            *filter,
            id,
        ) by {
            if passes(table@, *filter, id) {
                assert(ids@.to_set().contains(id));
            }
        }
        assert forall|item: Scored| scored_set(kept@).contains(item) <==> reaching(
            given,
            reach.min_score,
        ).contains(item) by {
            assert(kept@.contains_key(item.id) <==> given.contains_key(item.id)
                && spec_f32_at_least(given[item.id], reach.min_score));
        }
        assert(scored_set(kept@) =~= reaching(given, reach.min_score));
        assert(are_similarities(table@, *similarity, *filter, query, given));
    }
    rank_scores(&kept, reach.recall_k)
}

/// Whether a ranking is what a search through the index gives, or an exact scan after it where a
/// filter left too little.
pub open spec fn is_found_by_index<
    T: VectorType,
    E: SearchEngine<T>,
    F: Fn(&[T], &Vec<T>) -> u32,
>(
    table: &MemTable<T>,
    engine: &E,
    similarity: F,
    config: SearchConfig,
    reach: Reach,
    query: &[T],
    ranking: Seq<Scored>,
) -> bool {
    let filter = config.payload_filter;
    let wide = greater_of(reach.recall_k, 1);
    exists|found: Vec<Scored>|
        {
            let all = sorted(admitted(table@, filter, reach.min_score, found@), scored_order());
            let near = first(all, reach.recall_k);
            &&& #[trigger] call_ensures(
                E::search_index,
                (
                    engine,
                    table,
                    query,
                    &config.payload_filter,
                    saturated_product(wide, 2),
                    saturated_product(wide, 8),
                ),
                found,
            )
            &&& if filter is Some && near.len() < reach.top_k {
                is_scanned(table@, similarity, config.payload_filter, reach, query, ranking)
            } else {
                ranking == near
            }
        }
}

/// Whether a ranking is what vectors find: through the index where there is one and it is not
/// ruled out, otherwise by an exact scan.
pub open spec fn is_vector_recall<
    T: VectorType,
    E: SearchEngine<T>,
    F: Fn(&[T], &Vec<T>) -> u32,
>(
    table: &MemTable<T>,
    engine: &E,
    similarity: F,
    config: SearchConfig,
    reach: Reach,
    query: &[T],
    ranking: Seq<Scored>,
) -> bool {
    exists|indexed: bool| #[trigger]
        call_ensures(E::has_index, (engine,), indexed) && if !config.force_brute_force && indexed {
            is_found_by_index(table, engine, similarity, config, reach, query, ranking)
        } else {
            is_scanned(table@, similarity, config.payload_filter, reach, query, ranking)
        }
}

/// The nodes that vectors find: through the index where there is one, with an exact scan behind it
/// where a filter left too little; otherwise by an exact scan.
pub fn recall_vector_ranked<
    T: VectorType,
    E: SearchEngine<T>,
    F: Fn(&[T], &Vec<T>) -> u32,
>(
    table: &MemTable<T>,
    engine: &E,
    similarity: &F,
    config: &SearchConfig,
    reach: Reach,
    query: &[T],
) -> (ranking: Vec<Scored>)
    requires
        forall|vector: &Vec<T>| call_requires(*similarity, (query, vector)),
    ensures
        is_vector_recall(table, engine, *similarity, *config, reach, query, ranking@),
{
    let filter = &config.payload_filter;
    let indexed = engine.has_index();
    if uses_index(config, indexed) {
        let (wanted, width): (usize, usize) = index_search_width(reach.recall_k);
        let found = engine.search_index(table, query, filter, wanted, width);
        match settle_index_search(table, filter, reach, &found) {
            Some(near) => {
                assert(is_found_by_index(
                    table,
                    engine,
                    *similarity,
                    *config,
                    reach,
                    query,
                    near@,
                ));
                return near;
            },
            None => {},
        }
        let list = brute_force_pipeline(table, similarity, filter, reach, query);
        assert(is_found_by_index(table, engine, *similarity, *config, reach, query, list@));
        return list;
    }
    brute_force_pipeline(table, similarity, filter, reach, query)
}

/// Whether a ranking is the best of what keywords and words found, by the sums of their scores.
pub open spec fn is_text_ranking<
    P: Fn(u32, u32) -> u32,
    R: Fn(u32, usize) -> u32,
    S: Fn(usize) -> u32,
>(
    arithmetic: Arithmetic<P, R, S>,
    found: Seq<Scored>,
    limit: usize,
    ranking: Seq<Scored>,
) -> bool {
    exists|scores: Map<NodeId, u32>| #[trigger]
        arithmetic.are_totals(Map::empty(), found, scores) && is_best(
            scored_set(scores),
            scored_order(),
            limit as nat,
            ranking,
        )
}

/// Whether a ranking is what a text finds, where texts are searched and there is one.
pub open spec fn is_text_recall<
    T: VectorType,
    E: SearchEngine<T>,
    P: Fn(u32, u32) -> u32,
    R: Fn(u32, usize) -> u32,
    S: Fn(usize) -> u32,
>(
    engine: &E,
    arithmetic: Arithmetic<P, R, S>,
    config: SearchConfig,
    query_text: Option<&str>,
    ranking: Seq<Scored>,
) -> bool {
    match query_text {
        Some(text) => if config.enable_text_hybrid_search {
            exists|keywords: Vec<Scored>, words: Vec<Scored>|
                {
                    &&& #[trigger] call_ensures(E::search_keywords, (engine, text), keywords)
                    &&& #[trigger] call_ensures(
                        E::search_words,
                        (engine, text, config.bm25_k1, config.bm25_b),
                        words,
                    )
                    &&& is_text_ranking(
                        arithmetic,
                        keywords@ + words@,
                        spec_recall_k(config.top_k, config.recall_k),
                        ranking,
                    )
                }
        } else {
            ranking.len() == 0
        },
        None => ranking.len() == 0,
    }
}

/// The nodes that a text finds, where texts are searched and there is one.
pub fn recall_text_ranked<
    T: VectorType,
    E: SearchEngine<T>,
    P: Fn(u32, u32) -> u32,
    R: Fn(u32, usize) -> u32,
    S: Fn(usize) -> u32,
>(
    engine: &E,
    arithmetic: &Arithmetic<P, R, S>,
    config: &SearchConfig,
    query_text: Option<&str>,
) -> (ranking: Vec<Scored>)
    requires
        arithmetic.sound(),
    ensures
        is_text_recall::<T, E, P, R, S>(engine, *arithmetic, *config, query_text, ranking@),
{
    if !config.enable_text_hybrid_search {
        return Vec::new();
    }
    match query_text {
        Some(text) => {
            let keywords = engine.search_keywords(text);
            let words = engine.search_words(text, config.bm25_k1, config.bm25_b);
            let ranking = arithmetic.rank_text(&keywords, &words, config.effective_recall_k());
            assert(is_text_ranking(
                *arithmetic,
                keywords@ + words@,
                spec_recall_k(config.top_k, config.recall_k),
                ranking@,
            ));
            ranking
        },
        None => Vec::new(),
    }
}

/// Whether these are the scored nodes whose vectors explain a query.
pub open spec fn are_entities<T: VectorType>(
    table: Table<T>,
    config: SearchConfig,
    scores: Map<NodeId, u32>,
    ids: Seq<NodeId>,
) -> bool {
    &&& increasing(ids)
    &&& forall|id: NodeId| #[trigger]
        ids.contains(id) <==> scores.contains_key(id) && id != 0 && passes(
            table,
            config.payload_filter,
            id,
        )
}

/// How far the search for the unexplained part of a query goes.
pub open spec fn spec_shadow_reach(config: SearchConfig) -> Reach {
    Reach {
        top_k: config.rerank_k,
        recall_k: spec_recall_k(config.rerank_k, config.rerank_k),
        min_score: 0xbf80_0000u32,
    }
}

/// Whether scores are those after a search for what is left of a query.
pub open spec fn is_shadow_search<
    T: VectorType,
    E: SearchEngine<T>,
    P: Fn(u32, u32) -> u32,
    R: Fn(u32, usize) -> u32,
    S: Fn(usize) -> u32,
    F: Fn(&[T], &Vec<T>) -> u32,
>(
    table: &MemTable<T>,
    engine: &E,
    similarity: F,
    arithmetic: Arithmetic<P, R, S>,
    config: SearchConfig,
    left: Seq<T>,
    before: Map<NodeId, u32>,
    after: Map<NodeId, u32>,
) -> bool {
    exists|query: &[T], ranking: Seq<Scored>|
        {
            &&& query@ == left
            &&& #[trigger] is_vector_recall(
                table,
                engine,
                similarity,
                config,
                spec_shadow_reach(config),
                query,
                ranking,
            )
            &&& arithmetic.are_totals(before, arithmetic.by_shadow_rank(ranking), after)
        }
}

/// Whether scores are those after the part of a query that some nodes leave unexplained has been
/// looked at: where it is large enough, it is searched for.
pub open spec fn is_residual_search<
    T: VectorType,
    E: SearchEngine<T>,
    P: Fn(u32, u32) -> u32,
    R: Fn(u32, usize) -> u32,
    S: Fn(usize) -> u32,
    F: Fn(&[T], &Vec<T>) -> u32,
>(
    table: &MemTable<T>,
    engine: &E,
    similarity: F,
    arithmetic: Arithmetic<P, R, S>,
    config: SearchConfig,
    query: &[T],
    entities: Vec<NodeId>,
    before: Map<NodeId, u32>,
    after: Map<NodeId, u32>,
) -> bool {
    exists|left: (Vec<T>, u32)|
        {
            &&& #[trigger] call_ensures(
                E::residual,
                (engine, table, query, &entities, config.fista_lambda),
                left,
            )
            &&& if spec_f32_less(config.fista_threshold, left.1) {
                is_shadow_search(
                    table,
                    engine,
                    similarity,
                    arithmetic,
                    config,
                    left.0@,
                    before,
                    after,
                )
            } else {
                after == before
            }
        }
}

/// Whether scores are those after the stage that searches for what the scored nodes leave
/// unexplained of a query.
pub open spec fn is_residual_recall<
    T: VectorType,
    E: SearchEngine<T>,
    P: Fn(u32, u32) -> u32,
    R: Fn(u32, usize) -> u32,
    S: Fn(usize) -> u32,
    F: Fn(&[T], &Vec<T>) -> u32,
>(
    table: &MemTable<T>,
    engine: &E,
    similarity: F,
    arithmetic: Arithmetic<P, R, S>,
    config: SearchConfig,
    query: Option<&[T]>,
    before: Map<NodeId, u32>,
    after: Map<NodeId, u32>,
) -> bool {
    if config.enable_advanced_pipeline && config.enable_sparse_residual && query is Some
        && before.dom().len() > 0 {
        exists|entities: Vec<NodeId>| #[trigger]
            are_entities(table@, config, before, entities@) && if entities@.len() == 0 {
                after == before
            } else {
                is_residual_search(
                    table,
                    engine,
                    similarity,
                    arithmetic,
                    config,
                    query->0,
                    entities,
                    before,
                    after,
                )
            }
    } else {
        after == before
    }
}

/// Searches for what the scored nodes leave unexplained of a query, where the settings ask for it
/// and enough is left, and adds what it finds to the scores. Otherwise the scores stay.
pub fn recall_residual<
    T: VectorType,
    E: SearchEngine<T>,
    P: Fn(u32, u32) -> u32,
    R: Fn(u32, usize) -> u32,
    S: Fn(usize) -> u32,
    F: Fn(&[T], &Vec<T>) -> u32,
>(
    table: &MemTable<T>,
    engine: &E,
    similarity: &F,
    arithmetic: &Arithmetic<P, R, S>,
    config: &SearchConfig,
    query: Option<&[T]>,
    scores: &mut BTreeMap<NodeId, u32>,
)
    requires
        arithmetic.sound(),
        forall|vector: &[T], stored: &Vec<T>| call_requires(*similarity, (vector, stored)),
    ensures
        is_residual_recall(
            table,
            engine,
            *similarity,
            *arithmetic,
            *config,
            query,
            old(scores)@,
            final(scores)@,
        ),
{
    let ghost start = scores@;
    match query {
        Some(vector) => {
            if !wants_residual(config, true, scores.len() > 0) {
                return;
            }
            let entities = residual_entities(table, config, scores);
            assert(are_entities(table@, *config, start, entities@));
            if entities.len() == 0 {
                return;
            }
            let left: (Vec<T>, u32) = engine.residual(
                table,
                vector,
                &entities,
                config.fista_lambda,
            );
            if starts_shadow_search(config, left.1) {
                let reach = shadow_reach(config);
                let ranking = recall_vector_ranked(
                    table,
                    engine,
                    similarity,
                    config,
                    reach,
                    left.0.as_slice(),
                );
                arithmetic.add_shadow(scores, &ranking);
                proof {
                    assert(reach == spec_shadow_reach(*config));
                    assert(is_shadow_search(
                        table,
                        engine,
                        *similarity,
                        *arithmetic,
                        *config,
                        left.0@,
                        start,
                        scores@,
                    ));
                }
            }
            assert(is_residual_search(
                table,
                engine,
                *similarity,
                *arithmetic,
                *config,
                vector,
                entities,
                start,
                scores@,
            ));
        },
        None => {},
    }
}

/// Whether bit patterns are those of the components of a query; without a query there are none.
pub open spec fn are_bits<T: VectorType, E: SearchEngine<T>>(
    engine: &E,
    query: Option<&[T]>,
    bits: Seq<u32>,
) -> bool {
    match query {
        Some(vector) => bits.len() == vector@.len() && forall|i: int|
            0 <= i < bits.len() ==> call_ensures(
                E::component_bits,
                (engine, vector@[i]),
                #[trigger] bits[i],
            ),
        None => bits.len() == 0,
    }
}

/// The components of a query as bit patterns.
fn query_bits<T: VectorType, E: SearchEngine<T>>(engine: &E, query: Option<&[T]>) -> (bits: Vec<u32>)
    ensures
        are_bits(engine, query, bits@),
{
    let mut bits: Vec<u32> = Vec::new();
    match query {
        Some(vector) => {
            let mut i: usize = 0;
            while i < vector.len()
                invariant
                    i <= vector@.len(),
                    bits@.len() == i,
                    forall|k: int|
                        0 <= k < i ==> call_ensures(
                            E::component_bits,
                            (engine, vector@[k]),
                            #[trigger] bits@[k],
                        ),
                decreases vector@.len() - i,
            {
                bits.push(engine.component_bits(vector[i]));
                i += 1;
            }
        },
        None => {},
    }
    bits
}

/// Whether a query has the components with these bit patterns.
pub open spec fn are_components<T: VectorType, E: SearchEngine<T>>(
    engine: &E,
    bits: Seq<u32>,
    query: Seq<T>,
) -> bool {
    query.len() == bits.len() && forall|i: int|
        0 <= i < bits.len() ==> call_ensures(
            E::component_from_bits,
            (engine, bits[i]),
            #[trigger] query[i],
        )
}

/// A query from the components that a hook left.
fn query_components<T: VectorType, E: SearchEngine<T>>(engine: &E, bits: &Vec<u32>) -> (query: Vec<
    T,
>)
    ensures
        are_components(engine, bits@, query@),
{
    let mut query: Vec<T> = Vec::new();
    let mut i: usize = 0;
    while i < bits.len()
        invariant
            i <= bits@.len(),
            query@.len() == i,
            forall|k: int|
                0 <= k < i ==> call_ensures(
                    E::component_from_bits,
                    (engine, bits@[k]),
                    #[trigger] query@[k],
                ),
        decreases bits@.len() - i,
    {
        query.push(engine.component_from_bits(bits[i]));
        i += 1;
    }
    query
}

/// Whether a failure is the one that a hook reported.
pub open spec fn is_hook_failure(failure: HookError, error: TriviumError) -> bool {
    error == (TriviumError::HookExecutionError { stage: failure.stage, reason: failure.reason })
}

/// A query and settings after the first hook.
pub struct Prepared<T> {
    pub bits: Vec<u32>,
    pub query: Vec<T>,
    pub config: SearchConfig,
}

/// What comes of the query and the settings that the first hook left: the failure that it
/// reported, nothing where it asked to end the search, a failure where they are not acceptable,
/// and otherwise a query with settings within their bounds.
pub open spec fn is_accepted<T: VectorType, E: SearchEngine<T>>(
    engine: &E,
    left: Preparation,
    has_query: bool,
    dim: usize,
    result: Result<Option<Prepared<T>>>,
) -> bool {
    match left.ctx.error {
        Some(failure) => result matches Err(error) && is_hook_failure(failure, error),
        None => if left.ctx.abort {
            result matches Ok(prepared) && prepared is None
        } else if is_refused(left.config, dim) {
            result matches Err(error) && is_refusal(left.config, dim, error)
        } else if has_query && left.query@.len() != dim {
            result matches Err(TriviumError::DimensionMismatch { expected, got }) && expected == dim
                && got == left.query@.len()
        } else if has_query && !all_bits_finite(left.query@) {
            result matches Err(TriviumError::InvalidVector { reason }) && reason@
                == "Hook 修改后的查询向量包含 NaN 或 Infinity (Hook-modified query vector contains NaN or Infinity)"@
        } else {
            result matches Ok(Some(prepared)) && {
                &&& prepared.bits == left.query
                &&& are_components(engine, left.query@, prepared.query@)
                &&& prepared.config == sanitized(left.config)
            }
        },
    }
}

/// What the first hook is given of a query, and what it leaves.
pub struct FirstTrace {
    pub bits: Vec<u32>,
    pub left: Preparation,
}

/// Whether the first stage comes to this, after what the hook left: that is checked, and the time
/// of the hook is noted.
pub open spec fn is_preparation<T: VectorType, E: SearchEngine<T>>(
    engine: &E,
    query: Option<&[T]>,
    dim: usize,
    trace: FirstTrace,
    after: HookContext,
    result: Result<Option<Prepared<T>>>,
) -> bool {
    &&& are_bits(engine, query, trace.bits@)
    &&& is_accepted(engine, trace.left, query is Some, dim, result)
    &&& adds_notes(
        without_error(trace.left.ctx),
        seq!["hook_pre_search"@],
        Seq::empty(),
        Seq::empty(),
        after,
    )
}

/// Runs the first hook on a query and settings within their bounds, and checks what it leaves.
fn prepare<T: VectorType, E: SearchEngine<T>, H: SearchHook>(
    hook: &H,
    engine: &E,
    query: Option<&[T]>,
    config: SearchConfig,
    dim: usize,
    ctx: &mut HookContext,
) -> (result: (Result<Option<Prepared<T>>>, Ghost<FirstTrace>))
    ensures
        is_preparation(engine, query, dim, result.1@, *final(ctx), result.0),
        exists|q: &mut Vec<u32>, s: &mut SearchConfig, c: &mut HookContext| #[trigger]
            calls_pre_search(hook, q, s, c) && *q == result.1@.bits && *s == config
                && *c == *old(ctx) && *final(q) == result.1@.left.query
                && *final(s) == result.1@.left.config && *final(c) == result.1@.left.ctx,
{
    let mut config = config;
    let mut bits = query_bits(engine, query);
    let ghost first_bits = bits;
    let started: u128 = engine.now();
    run_pre_search(hook, &mut bits, &mut config, ctx);
    let ghost left = Preparation { query: bits, config, ctx: *ctx };
    let ghost trace = FirstTrace { bits: first_bits, left };
    ctx.record_timing("hook_pre_search", elapsed(started, engine.now()));
    proof {
        lemma_notes_without_error(
            left.ctx,
            seq!["hook_pre_search"@],
            Seq::empty(),
            Seq::empty(),
            *ctx,
        );
    }
    let hooked: Option<&[u32]> = if query.is_some() {
        Some(bits.as_slice())
    } else {
        None
    };
    match after_pre_search(ctx, &mut config, hooked, dim) {
        Ok(true) => {
            let components = query_components(engine, &bits);
            (Ok(Some(Prepared { bits, query: components, config })), Ghost(trace))
        },
        Ok(false) => (Ok(None), Ghost(trace)),
        Err(error) => (Err(error), Ghost(trace)),
    }
}

/// Whether a ranking is what the vector of a query finds; without one nothing.
pub open spec fn is_dense_recall<
    T: VectorType,
    E: SearchEngine<T>,
    F: Fn(&[T], &Vec<T>) -> u32,
>(
    table: &MemTable<T>,
    engine: &E,
    similarity: F,
    config: SearchConfig,
    query: Option<&[T]>,
    ranking: Seq<Scored>,
) -> bool {
    match query {
        Some(vector) => is_vector_recall(
            table,
            engine,
            similarity,
            config,
            spec_query_reach(config),
            vector,
            ranking,
        ),
        None => ranking.len() == 0,
    }
}

/// Whether hits are the seeds among scored nodes: the best of those that may be returned.
pub open spec fn are_seeds<T: VectorType>(
    table: Table<T>,
    config: SearchConfig,
    scores: Map<NodeId, u32>,
    hits: Seq<HitView>,
) -> bool {
    exists|chosen: Seq<Scored>|
        is_best(
            seed_candidates(table, config, scores),
            scored_order(),
            spec_rerank_k(config.top_k, config.recall_k, config.rerank_k) as nat,
            chosen,
        ) && hits == #[trigger] hits_of(table, chosen)
}

/// What happens in the recall: the context that the hook is asked with and that it leaves, its
/// answer, what vectors and texts find and whether there is an index, the scores, the seeds, and
/// what the hook sees them with and leaves.
pub struct RecallTrace {
    pub asked: HookContext,
    pub answered: HookContext,
    pub custom: Option<Vec<SearchHit>>,
    pub dense: Seq<Scored>,
    pub sparse: Seq<Scored>,
    pub indexed: bool,
    pub scores: Map<NodeId, u32>,
    pub seeds: Vec<SearchHit>,
    pub shown: HookContext,
    pub anchors: Vec<SearchHit>,
    pub left: HookContext,
}

/// Whether scores are those of the recall: what a hook answered, and nothing else where it did;
/// otherwise what vectors, texts and the unexplained part of the query find.
pub open spec fn are_recall_scores<
    T: VectorType,
    E: SearchEngine<T>,
    P: Fn(u32, u32) -> u32,
    R: Fn(u32, usize) -> u32,
    S: Fn(usize) -> u32,
    F: Fn(&[T], &Vec<T>) -> u32,
>(
    table: &MemTable<T>,
    engine: &E,
    similarity: F,
    arithmetic: Arithmetic<P, R, S>,
    config: SearchConfig,
    query_text: Option<&str>,
    query: Option<&[T]>,
    trace: RecallTrace,
) -> bool {
    match trace.custom {
        Some(hits) => {
            &&& arithmetic.are_totals(Map::empty(), scores_of_hits(hits@), trace.scores)
            &&& trace.dense.len() == 0
            &&& trace.sparse.len() == 0
        },
        None => {
            &&& is_dense_recall(table, engine, similarity, config, query, trace.dense)
            &&& is_text_recall::<T, E, P, R, S>(
                engine,
                arithmetic,
                config,
                query_text,
                trace.sparse,
            )
            &&& call_ensures(E::has_index, (engine,), trace.indexed)
            &&& exists|fused: Map<NodeId, u32>|
                {
                    &&& forall|id: NodeId| #[trigger]
                        score_of(fused, id) == arithmetic.fused(
                            trace.dense,
                            trace.sparse,
                            boost_weight(config.text_boost),
                            id,
                        )
                    &&& #[trigger] is_residual_recall(
                        table,
                        engine,
                        similarity,
                        arithmetic,
                        config,
                        query,
                        fused,
                        trace.scores,
                    )
                }
        },
    }
}

/// The stages of the recall whose times are noted.
pub open spec fn recall_stages(trace: RecallTrace) -> Seq<Seq<char>> {
    if trace.custom is Some {
        seq!["hook_custom_recall"@]
    } else {
        seq!["hook_custom_recall"@, "vector_recall"@]
    }
}

/// The figures about the recall that are noted.
pub open spec fn recall_figures(config: SearchConfig, trace: RecallTrace) -> Seq<(Seq<char>, u64)> {
    if trace.custom is Some {
        Seq::empty()
    } else {
        seq![
            (
                "vector_route_quiver"@,
                if !config.force_brute_force && trace.indexed {
                    1u64
                } else {
                    0u64
                },
            ),
            ("vector_recall_candidates"@, trace.dense.len() as u64),
            (
                "quiver_ef_search"@,
                saturated_product(
                    greater_of(spec_recall_k(config.top_k, config.recall_k), 1),
                    8,
                ) as u64,
            ),
        ]
    }
}

/// The numbers of candidates that are noted.
pub open spec fn recall_counts(trace: RecallTrace) -> Seq<(Seq<char>, usize)> {
    seq![
        ("dense_recall"@, trace.dense.len() as usize),
        ("sparse_recall"@, trace.sparse.len() as usize),
        ("fused_recall"@, trace.seeds@.len() as usize),
    ]
}

/// Whether figures about the process are noted before the recall.
pub open spec fn notes_process<T: VectorType, E: SearchEngine<T>>(
    table: Table<T>,
    engine: &E,
    before: HookContext,
    after: HookContext,
) -> bool {
    exists|figures: Vec<(String, u64)>| #[trigger]
        call_ensures(E::observations, (engine,), figures) && adds_notes(
            before,
            Seq::empty(),
            Seq::empty(),
            seq![("node_count"@, table.nodes.dom().len() as u64)] + figures_of(figures@),
            after,
        )
}

/// Whether the recall goes like this, besides what the hooks do.
pub open spec fn is_recall<
    T: VectorType,
    E: SearchEngine<T>,
    P: Fn(u32, u32) -> u32,
    R: Fn(u32, usize) -> u32,
    S: Fn(usize) -> u32,
    F: Fn(&[T], &Vec<T>) -> u32,
>(
    table: &MemTable<T>,
    engine: &E,
    similarity: F,
    arithmetic: Arithmetic<P, R, S>,
    query_text: Option<&str>,
    query: Option<&[T]>,
    config: SearchConfig,
    before: HookContext,
    trace: RecallTrace,
    after: HookContext,
) -> bool {
    &&& notes_process(table@, engine, before, trace.asked)
    &&& are_recall_scores(
        table,
        engine,
        similarity,
        arithmetic,
        config,
        query_text,
        query,
        trace,
    )
    &&& are_seeds(table@, config, trace.scores, views(trace.seeds@))
    &&& adds_notes(
        trace.answered,
        recall_stages(trace),
        recall_counts(trace),
        recall_figures(config, trace),
        trace.shown,
    )
    &&& adds_notes(
        trace.left,
        seq!["hook_post_recall"@],
        Seq::empty(),
        Seq::empty(),
        after,
    )
}

/// Notes figures about the process.
fn note_process<T: VectorType, E: SearchEngine<T>>(
    table: &MemTable<T>,
    engine: &E,
    ctx: &mut HookContext,
)
    ensures
        notes_process(table@, engine, *old(ctx), *final(ctx)),
{
    let ghost before = *ctx;
    let count: u64 = table.node_count() as u64;
    ctx.record_observation("node_count", count);
    let figures = engine.observations();
    let ghost first = seq![("node_count"@, count)];
    let mut n: usize = 0;
    proof {
        assert(figures@.take(0) =~= Seq::<(String, u64)>::empty());
        assert(first + figures_of(figures@.take(0)) =~= first);
    }
    while n < figures.len()
        invariant
            n <= figures@.len(),
            adds_notes(
                before,
                Seq::empty(),
                Seq::empty(),
                first + figures_of(figures@.take(n as int)),
                *ctx,
            ),
        decreases figures@.len() - n,
    {
        let ghost mid = *ctx;
        ctx.record_observation(figures[n].0.as_str(), figures[n].1);
        proof {
            let done = first + figures_of(figures@.take(n as int));
            let more = seq![(figures@[n as int].0@, figures@[n as int].1)];
            lemma_more_notes(
                before,
                Seq::empty(),
                Seq::empty(),
                done,
                mid,
                Seq::empty(),
                Seq::empty(),
                more,
                *ctx,
            );
            assert(done + more =~= first + figures_of(figures@.take(n + 1)));
            assert(Seq::<Seq<char>>::empty() + Seq::<Seq<char>>::empty()
                =~= Seq::<Seq<char>>::empty());
            assert(Seq::<(Seq<char>, usize)>::empty() + Seq::<(Seq<char>, usize)>::empty()
                =~= Seq::<(Seq<char>, usize)>::empty());
        }
        n += 1;
    }
    assert(figures@.take(n as int) =~= figures@);
}

/// What the built-in recall gives: the scores, what vectors and texts found, and whether there was
/// an index.
struct Recalled {
    scores: BTreeMap<NodeId, u32>,
    dense: Vec<Scored>,
    sparse: Vec<Scored>,
    indexed: bool,
}

/// Recalls by vectors, texts and the unexplained part of the query.
fn recall_built_in<
    T: VectorType,
    E: SearchEngine<T>,
    P: Fn(u32, u32) -> u32,
    R: Fn(u32, usize) -> u32,
    S: Fn(usize) -> u32,
    F: Fn(&[T], &Vec<T>) -> u32,
>(
    table: &MemTable<T>,
    engine: &E,
    similarity: &F,
    arithmetic: &Arithmetic<P, R, S>,
    query_text: Option<&str>,
    query: Option<&[T]>,
    config: &SearchConfig,
    ctx: &mut HookContext,
    Ghost(asked): Ghost<RecallTrace>,
) -> (recalled: Recalled)
    requires
        arithmetic.sound(),
        forall|vector: &[T], stored: &Vec<T>| call_requires(*similarity, (vector, stored)),
        asked.custom is None,
    ensures
        ({
            let trace = RecallTrace {
                dense: recalled.dense@,
                sparse: recalled.sparse@,
                indexed: recalled.indexed,
                scores: recalled.scores@,
                ..asked
            };
            &&& are_recall_scores(
                table,
                engine,
                *similarity,
                *arithmetic,
                *config,
                query_text,
                query,
                trace,
            )
            &&& adds_notes(
                *old(ctx),
                seq!["vector_recall"@],
                Seq::empty(),
                recall_figures(*config, trace),
                *final(ctx),
            )
        }),
{
    let ghost before = *ctx;
    let sparse = recall_text_ranked(engine, arithmetic, config, query_text);
    let started: u128 = engine.now();
    let indexed = engine.has_index();
    let mut dense: Vec<Scored> = Vec::new();
    match query {
        Some(vector) => {
            dense =
            recall_vector_ranked(table, engine, similarity, config, query_reach(config), vector);
        },
        None => {},
    }
    ctx.record_timing("vector_recall", elapsed(started, engine.now()));
    let ghost timed = *ctx;
    let route: u64 = if uses_index(config, indexed) {
        1
    } else {
        0
    };
    ctx.record_observation("vector_route_quiver", route);
    let ghost routed = *ctx;
    let found: u64 = dense.len() as u64;
    ctx.record_observation("vector_recall_candidates", found);
    let ghost counted = *ctx;
    let width: u64 = index_search_width(config.effective_recall_k()).1 as u64;
    ctx.record_observation("quiver_ef_search", width);
    let mut scores = arithmetic.fuse_rankings_rrf(&dense, &sparse, config.text_boost);
    let ghost fused = scores@;
    recall_residual(table, engine, similarity, arithmetic, config, query, &mut scores);
    let recalled = Recalled { scores, dense, sparse, indexed };
    proof {
        let trace = RecallTrace {
            dense: recalled.dense@,
            sparse: recalled.sparse@,
            indexed: recalled.indexed,
            scores: recalled.scores@,
            ..asked
        };
        assert(is_residual_recall(
            table,
            engine,
            *similarity,
            *arithmetic,
            *config,
            query,
            fused,
            trace.scores,
        ));
        assert(trace.custom is None);
        assert(is_dense_recall(table, engine, *similarity, *config, query, trace.dense));
        assert(is_text_recall::<T, E, P, R, S>(
            engine,
            *arithmetic,
            *config,
            query_text,
            trace.sparse,
        ));
        assert(call_ensures(E::has_index, (engine,), trace.indexed));
        assert forall|id: NodeId| #[trigger] score_of(fused, id) == arithmetic.fused(
            trace.dense,
            trace.sparse,
            boost_weight(config.text_boost),
            id,
        ) by {}
        assert(are_recall_scores(
            table,
            engine,
            *similarity,
            *arithmetic,
            *config,
            query_text,
            query,
            trace,
        ));
        let t = seq!["vector_recall"@];
        let e = Seq::<Seq<char>>::empty();
        let n = Seq::<(Seq<char>, usize)>::empty();
        let z = Seq::<(Seq<char>, u64)>::empty();
        let a = seq![("vector_route_quiver"@, route)];
        let b = seq![("vector_recall_candidates"@, found)];
        let c = seq![("quiver_ef_search"@, width)];
        lemma_more_notes(before, t, n, z, timed, e, n, a, routed);
        lemma_more_notes(before, t + e, n + n, z + a, routed, e, n, b, counted);
        lemma_more_notes(before, t + e + e, n + n + n, z + a + b, counted, e, n, c, *ctx);
        assert(t + e + e + e =~= t);
        assert(n + n + n + n =~= n);
        assert(z + a + b + c =~= recall_figures(*config, trace));
    }
    recalled
}

/// Recalls candidates: what the hook answers, or what is searched for.
fn recall<
    T: VectorType,
    E: SearchEngine<T>,
    H: SearchHook,
    P: Fn(u32, u32) -> u32,
    R: Fn(u32, usize) -> u32,
    S: Fn(usize) -> u32,
    F: Fn(&[T], &Vec<T>) -> u32,
>(
    table: &MemTable<T>,
    hook: &H,
    engine: &E,
    similarity: &F,
    arithmetic: &Arithmetic<P, R, S>,
    query_text: Option<&str>,
    bits: &Vec<u32>,
    query: Option<&[T]>,
    config: &SearchConfig,
    ctx: &mut HookContext,
) -> (result: (Vec<SearchHit>, Ghost<RecallTrace>))
    requires
        arithmetic.sound(),
        forall|vector: &[T], stored: &Vec<T>| call_requires(*similarity, (vector, stored)),
    ensures
        is_recall(
            table,
            engine,
            *similarity,
            *arithmetic,
            query_text,
            query,
            *config,
            *old(ctx),
            result.1@,
            *final(ctx),
        ),
        result.0 == result.1@.anchors,
        exists|q: &[u32], s: &SearchConfig, c: &mut HookContext| #[trigger]
            calls_custom_recall(hook, q, s, c, result.1@.custom) && q@ == bits@ && *s == *config
                && *c == result.1@.asked && *final(c) == result.1@.answered,
        exists|h: &mut Vec<SearchHit>, c: &mut HookContext| #[trigger]
            calls_post_recall(hook, h, c) && *h == result.1@.seeds && *c == result.1@.shown
                && *final(h) == result.1@.anchors && *final(c) == result.1@.left,
{
    let ghost before = *ctx;
    note_process(table, engine, ctx);
    let mut started: u128 = engine.now();
    let ghost asked = *ctx;
    let custom = run_custom_recall(hook, bits.as_slice(), config, ctx);
    let ghost answered = *ctx;
    let ghost answer = custom;
    ctx.record_timing("hook_custom_recall", elapsed(started, engine.now()));
    let ghost timed = *ctx;
    let ghost base = RecallTrace {
        asked,
        answered,
        custom: answer,
        dense: Seq::empty(),
        sparse: Seq::empty(),
        indexed: false,
        scores: Map::empty(),
        seeds: arbitrary(),
        shown: asked,
        anchors: arbitrary(),
        left: asked,
    };
    let recalled = match custom {
        Some(hits) => {
            let mut scores: BTreeMap<NodeId, u32> = BTreeMap::new();
            assert(scores@ =~= Map::empty());
            arithmetic.add_scores(&mut scores, &hit_scores(&hits));
            Recalled { scores, dense: Vec::new(), sparse: Vec::new(), indexed: false }
        },
        None => recall_built_in(
            table,
            engine,
            similarity,
            arithmetic,
            query_text,
            query,
            config,
            ctx,
            Ghost(base),
        ),
    };
    let ghost looked = *ctx;
    let mut anchors = aggregate_seeds(table, config, &recalled.scores);
    ctx.record_count("dense_recall", recalled.dense.len());
    let ghost one = *ctx;
    ctx.record_count("sparse_recall", recalled.sparse.len());
    let ghost two = *ctx;
    ctx.record_count("fused_recall", anchors.len());
    started = engine.now();
    let ghost seeds = anchors;
    let ghost shown = *ctx;
    run_post_recall(hook, &mut anchors, ctx);
    let ghost left = *ctx;
    ctx.record_timing("hook_post_recall", elapsed(started, engine.now()));
    let ghost trace = RecallTrace {
        asked,
        answered,
        custom: answer,
        dense: recalled.dense@,
        sparse: recalled.sparse@,
        indexed: recalled.indexed,
        scores: recalled.scores@,
        seeds,
        shown,
        anchors,
        left,
    };
    proof {
        let e = Seq::<Seq<char>>::empty();
        let n = Seq::<(Seq<char>, usize)>::empty();
        let z = Seq::<(Seq<char>, u64)>::empty();
        let t = seq!["hook_custom_recall"@];
        let more = if answer is Some {
            e
        } else {
            seq!["vector_recall"@]
        };
        let figures = recall_figures(*config, trace);
        if answer is Some {
            lemma_no_notes(timed);
        }
        assert(adds_notes(timed, more, n, figures, looked));
        let a = seq![("dense_recall"@, recalled.dense@.len() as usize)];
        let b = seq![("sparse_recall"@, recalled.sparse@.len() as usize)];
        let c = seq![("fused_recall"@, seeds@.len() as usize)];
        lemma_more_notes(answered, t, n, z, timed, more, n, figures, looked);
        lemma_more_notes(answered, t + more, n + n, z + figures, looked, e, a, z, one);
        lemma_more_notes(
            answered,
            t + more + e,
            n + n + a,
            z + figures + z,
            one,
            e,
            b,
            z,
            two,
        );
        lemma_more_notes(
            answered,
            t + more + e + e,
            n + n + a + b,
            z + figures + z + z,
            two,
            e,
            c,
            z,
            shown,
        );
        assert(t + more + e + e + e =~= recall_stages(trace));
        assert(n + n + a + b + c =~= recall_counts(trace));
        assert(z + figures + z + z + z =~= figures);
        if answer is Some {
            assert(are_recall_scores(
                table,
                engine,
                *similarity,
                *arithmetic,
                *config,
                query_text,
                query,
                trace,
            ));
        }
        assert(are_seeds(table@, *config, trace.scores, views(seeds@)));
    }
    (anchors, Ghost(trace))
}

/// Whether no node is in both lists.
pub open spec fn share_no_node(a: Seq<HitView>, b: Seq<HitView>) -> bool {
    forall|i: int, j: int|
        0 <= i < a.len() && 0 <= j < b.len() ==> (#[trigger] a[i]).id != (#[trigger] b[j]).id
}

/// What the graph added is no seed.
proof fn lemma_graph_hits_differ(
    seeds: Seq<HitView>,
    expanded: Seq<HitView>,
    ids: Set<NodeId>,
    limit: usize,
)
    requires
        forall|id: NodeId| #[trigger] ids.contains(id) <==> hit_listed(seeds, id),
    ensures
        share_no_node(
            first(seeds, limit),
            first(expanded.filter(|hit: HitView| !ids.contains(hit.id)), limit),
        ),
{
    let keep = |hit: HitView| !ids.contains(hit.id);
    let added = expanded.filter(keep);
    assert forall|i: int, j: int| 0 <= i < first(seeds, limit).len() && 0 <= j < first(
        added,
        limit,
    ).len() implies (#[trigger] first(seeds, limit)[i]).id != (#[trigger] first(
        added,
        limit,
    )[j]).id by {
        assert(seeds[i] == first(seeds, limit)[i]);
        assert(hit_listed(seeds, seeds[i].id));
        expanded.lemma_filter_pred(keep, j);
    }
}

/// How energy spreads under the settings of a search.
pub open spec fn spreading<'a>(config: &'a SearchConfig, tired: &'a BTreeSet<NodeId>) -> Spreading<
    'a,
> {
    Spreading {
        restart_alpha: config.teleport_alpha,
        enable_inverse_inhibition: config.enable_inverse_inhibition,
        lateral_inhibition_threshold: config.lateral_inhibition_threshold,
        enable_refractory_fatigue: config.enable_refractory_fatigue,
        diffusion_bias: match &config.diffusion_bias {
            Some(bias) => Some(bias),
            None => None,
        },
        expand_labels: match &config.expand_labels {
            Some(labels) => Some(labels),
            None => None,
        },
        max_edges_per_node: config.max_edges_per_node,
        min_edge_weight: config.min_edge_weight,
        edge_direction: config.edge_direction,
        tired,
    }
}

/// What happens when the graph is expanded: the seeds that the hook sees, what it leaves of them,
/// the context that it leaves, and what the expansion comes to.
pub struct WideningTrace {
    pub given: Vec<SearchHit>,
    pub seeds: Vec<SearchHit>,
    pub left: HookContext,
    pub expansion: Expansion,
}

/// What the expansion comes to: the first seeds, all identifiers of seeds, and what the graph
/// gives.
pub struct Widened {
    pub semantic_hits: Vec<SearchHit>,
    pub semantic_ids: BTreeSet<NodeId>,
    pub expanded: Vec<SearchHit>,
}

/// Whether the graph is expanded in this way, besides what the hook does.
pub open spec fn is_widening<
    T: VectorType,
    A: Fn(u32, u32) -> u32,
    M: Fn(u32, u32) -> u32,
    D: Fn(u32, u32) -> u32,
    Q: Fn(u32) -> u32,
    C: Fn(usize) -> u32,
    I: Fn(usize) -> u32,
    G: Fn(&Vec<u32>, &Vec<T>) -> u32,
>(
    table: Table<T>,
    energies: Energies<A, M, D, Q, C, I>,
    gate: G,
    config: &SearchConfig,
    anchors: Seq<HitView>,
    tired: &BTreeSet<NodeId>,
    trace: WideningTrace,
    after: HookContext,
    tired_after: Set<NodeId>,
    widened: Widened,
) -> bool {
    &&& views(trace.given@) == hydrated(table, anchors)
    &&& adds_notes(
        trace.left,
        seq!["hook_pre_graph_expand"@, "graph_expand"@],
        Seq::empty(),
        Seq::empty(),
        after,
    )
    &&& views(widened.semantic_hits@) == first(views(trace.seeds@), config.top_k)
    &&& forall|id: NodeId| #[trigger]
        widened.semantic_ids@.contains(id) <==> hit_listed(views(trace.seeds@), id)
    &&& energies.is_expansion(
        table,
        spreading(config, tired),
        gate,
        views(trace.seeds@),
        config.expand_depth as nat,
        trace.expansion,
    )
    &&& widened.expanded == trace.expansion.hits
    &&& tired_after == tired_next(tired@, trace.expansion)
}

/// Expands the graph from the candidates.
fn widen<
    T: VectorType,
    E: SearchEngine<T>,
    H: SearchHook,
    A: Fn(u32, u32) -> u32,
    M: Fn(u32, u32) -> u32,
    D: Fn(u32, u32) -> u32,
    Q: Fn(u32) -> u32,
    C: Fn(usize) -> u32,
    I: Fn(usize) -> u32,
    G: Fn(&Vec<u32>, &Vec<T>) -> u32,
>(
    table: &MemTable<T>,
    hook: &H,
    engine: &E,
    energies: &Energies<A, M, D, Q, C, I>,
    gate: &G,
    config: &SearchConfig,
    anchors: &Vec<SearchHit>,
    tired: &mut BTreeSet<NodeId>,
    ctx: &mut HookContext,
) -> (result: (Widened, Ghost<WideningTrace>))
    requires
        table.inv(),
        energies.sound(),
        is_gate(*gate),
    ensures
        is_widening(
            table@,
            *energies,
            *gate,
            config,
            views(anchors@),
            &*old(tired),
            result.1@,
            *final(ctx),
            final(tired)@,
            result.0,
        ),
        exists|h: &mut Vec<SearchHit>, c: &mut HookContext| #[trigger]
            calls_pre_graph_expand(hook, h, c) && *h == result.1@.given && *c == *old(ctx)
                && *final(h) == result.1@.seeds && *final(c) == result.1@.left,
{
    let ghost before = *ctx;
    let ghost weary = *tired;
    let mut seeds = hydrate(table, anchors);
    let ghost given = seeds;
    let mut started: u128 = engine.now();
    run_pre_graph_expand(hook, &mut seeds, ctx);
    let ghost left = *ctx;
    ctx.record_timing("hook_pre_graph_expand", elapsed(started, engine.now()));
    let ghost timed = *ctx;
    let semantic_hits = first_hits(&seeds, config.top_k);
    let semantic_ids = hit_ids(&seeds);
    let ghost chosen = seeds;
    started = engine.now();
    let expansion = expand_graph_with_labels(
        table,
        seeds,
        config.expand_depth,
        config.teleport_alpha,
        config.enable_inverse_inhibition,
        config.lateral_inhibition_threshold,
        config.enable_refractory_fatigue,
        config.diffusion_bias.as_ref(),
        config.expand_labels.as_ref(),
        config.max_edges_per_node,
        config.min_edge_weight,
        config.edge_direction,
        tired,
        energies,
        gate,
    );
    ctx.record_timing("graph_expand", elapsed(started, engine.now()));
    update_tired(tired, &expansion);
    let ghost trace = WideningTrace { given, seeds: chosen, left, expansion };
    let widened = Widened { semantic_hits, semantic_ids, expanded: expansion.hits };
    proof {
        let e = Seq::<Seq<char>>::empty();
        let n = Seq::<(Seq<char>, usize)>::empty();
        let z = Seq::<(Seq<char>, u64)>::empty();
        let a = seq!["hook_pre_graph_expand"@];
        let b = seq!["graph_expand"@];
        lemma_more_notes(left, a, n, z, timed, b, n, z, *ctx);
        assert(a + b =~= seq!["hook_pre_graph_expand"@, "graph_expand"@]);
        assert(n + n =~= n);
        assert(z + z =~= z);
    }
    (widened, Ghost(trace))
}

/// What happens when the results are ranked: what the hook leaves of them, and its answer.
pub struct RankingTrace {
    pub left: Candidates,
    pub ranked: Option<Vec<SearchHit>>,
}

/// The results after the ranking hook: its answer where it gave one, and what it left otherwise.
pub open spec fn ranked_hits(trace: RankingTrace) -> Vec<SearchHit> {
    match trace.ranked {
        Some(hits) => hits,
        None => trace.left.hits,
    }
}

/// Whether the results are ranked in this way, besides what the hook does: a failure that it
/// reported counts, and those results that the filter rules out are dropped.
pub open spec fn is_ranking<T: VectorType>(
    table: Table<T>,
    config: SearchConfig,
    trace: RankingTrace,
    after: HookContext,
    result: Result<Vec<SearchHit>>,
) -> bool {
    match trace.left.ctx.error {
        Some(failure) => (result matches Err(error) && is_hook_failure(failure, error)) && after
            == without_error(trace.left.ctx),
        None => (result matches Ok(results) && views(results@) == permitted(
            table,
            config.payload_filter,
            views(ranked_hits(trace)@),
        )) && adds_notes(
            without_error(trace.left.ctx),
            seq!["hook_rerank"@],
            seq![("rerank"@, ranked_hits(trace)@.len() as usize)],
            Seq::empty(),
            after,
        ),
    }
}

/// Ranks the results.
fn rank<T: VectorType, E: SearchEngine<T>, H: SearchHook>(
    table: &MemTable<T>,
    hook: &H,
    engine: &E,
    config: &SearchConfig,
    expanded: Vec<SearchHit>,
    ctx: &mut HookContext,
) -> (result: (Result<Vec<SearchHit>>, Ghost<RankingTrace>))
    ensures
        is_ranking(table@, *config, result.1@, *final(ctx), result.0),
        exists|h: &mut Vec<SearchHit>, c: &mut HookContext| #[trigger]
            calls_rerank(hook, h, c, result.1@.ranked) && *h == expanded && *c == *old(ctx)
                && *final(h) == result.1@.left.hits && *final(c) == result.1@.left.ctx,
{
    let started: u128 = engine.now();
    let mut hits = expanded;
    let reranked = run_rerank(hook, &mut hits, ctx);
    let ghost left = Candidates { hits, ctx: *ctx };
    let ghost trace = RankingTrace { left, ranked: reranked };
    let ranked = match after_rerank(ctx, hits, reranked) {
        Ok(ranked) => ranked,
        Err(error) => {
            return (Err(error), Ghost(trace));
        },
    };
    let ghost start = *ctx;
    ctx.record_timing("hook_rerank", elapsed(started, engine.now()));
    let ghost timed = *ctx;
    let count: usize = ranked.len();
    ctx.record_count("rerank", count);
    proof {
        let e = Seq::<Seq<char>>::empty();
        let n = Seq::<(Seq<char>, usize)>::empty();
        let z = Seq::<(Seq<char>, u64)>::empty();
        let a = seq!["hook_rerank"@];
        let b = seq![("rerank"@, count)];
        lemma_more_notes(start, a, n, z, timed, e, b, z, *ctx);
        assert(a + e =~= a);
        assert(n + b =~= b);
        assert(z + z =~= z);
    }
    (Ok(retain_permitted(table, &config.payload_filter, ranked)), Ghost(trace))
}

/// Whether a varied choice among the results is made: where the settings ask for it and there are
/// more results than are returned.
pub open spec fn is_varied<T: VectorType>(
    table: Table<T>,
    config: SearchConfig,
    results: Seq<HitView>,
) -> bool {
    config.enable_advanced_pipeline && config.enable_dpp && results.len() > config.top_k
        && diversity_candidates(table, results, config.top_k).len() > config.top_k
}

/// Whether hits are a varied choice among the results.
pub open spec fn is_varied_choice<T: VectorType, E: SearchEngine<T>>(
    table: &MemTable<T>,
    engine: &E,
    config: SearchConfig,
    results: Seq<HitView>,
    hits: Seq<HitView>,
) -> bool {
    exists|pool: Vec<SearchHit>, places: Vec<usize>|
        {
            &&& views(pool@) == diversity_candidates(table@, results, config.top_k)
            &&& #[trigger] call_ensures(
                E::diversify,
                (engine, table, &pool, config.top_k, config.dpp_quality_weight),
                places,
            )
            &&& hits == sorted(picked(views(pool@), places@), hits_order())
        }
}

/// What happens at the end: the results that the last hook sees, and what it leaves.
pub struct FinishTrace {
    pub given: Vec<SearchHit>,
    pub left: Candidates,
}

/// Whether the results are returned in this way, besides what the hook does: a varied choice or the
/// first of them. A failure that the hook reported counts where no varied choice was made.
pub open spec fn is_finish<T: VectorType, E: SearchEngine<T>>(
    table: &MemTable<T>,
    engine: &E,
    config: SearchConfig,
    results: Seq<HitView>,
    trace: FinishTrace,
    after: HookContext,
    result: Result<Vec<SearchHit>>,
) -> bool {
    let left = trace.left;
    if is_varied(table@, config, results) {
        &&& is_varied_choice(table, engine, config, results, views(trace.given@))
        &&& result == Ok::<Vec<SearchHit>, TriviumError>(left.hits)
        &&& adds_notes(
            left.ctx,
            seq!["hook_post_search"@],
            Seq::empty(),
            Seq::empty(),
            after,
        )
    } else {
        &&& views(trace.given@) == first(results, config.top_k)
        &&& match left.ctx.error {
            Some(failure) => result matches Err(error) && is_hook_failure(failure, error),
            None => result == Ok::<Vec<SearchHit>, TriviumError>(left.hits),
        }
        &&& adds_notes(
            without_error(left.ctx),
            seq!["hook_post_search"@],
            Seq::empty(),
            Seq::empty(),
            after,
        )
    }
}

/// A varied choice among the results, where there are enough to choose from.
pub fn apply_dpp<T: VectorType, E: SearchEngine<T>>(
    table: &MemTable<T>,
    engine: &E,
    config: &SearchConfig,
    results: &Vec<SearchHit>,
) -> (varied: Option<Vec<SearchHit>>)
    ensures
        varied is None <==> diversity_candidates(table@, views(results@), config.top_k).len()
            <= config.top_k,
        varied matches Some(hits) ==> is_varied_choice(
            table,
            engine,
            *config,
            views(results@),
            views(hits@),
        ),
{
    match diversity_pool(table, results, config.top_k) {
        Some(pool) => {
            let places = engine.diversify(table, &pool, config.top_k, config.dpp_quality_weight);
            Some(pick(&pool, &places))
        },
        None => None,
    }
}

/// Returns the results.
fn finish<T: VectorType, E: SearchEngine<T>, H: SearchHook>(
    table: &MemTable<T>,
    hook: &H,
    engine: &E,
    config: &SearchConfig,
    results: Vec<SearchHit>,
    ctx: &mut HookContext,
) -> (result: (Result<Vec<SearchHit>>, Ghost<FinishTrace>))
    ensures
        is_finish(
            table,
            engine,
            *config,
            views(results@),
            result.1@,
            *final(ctx),
            result.0,
        ),
        exists|h: &mut Vec<SearchHit>, c: &mut HookContext| #[trigger]
            calls_post_search(hook, h, c) && *h == result.1@.given && *c == *old(ctx)
                && *final(h) == result.1@.left.hits && *final(c) == result.1@.left.ctx,
{
    let ghost all = views(results@);
    assert(all.len() == results@.len());
    if config.enable_advanced_pipeline && config.enable_dpp && results.len() > config.top_k {
        match apply_dpp(table, engine, config, &results) {
            Some(chosen) => {
                let mut varied = chosen;
                let started: u128 = engine.now();
                run_post_search(hook, &mut varied, ctx);
                let ghost left = Candidates { hits: varied, ctx: *ctx };
                ctx.record_timing("hook_post_search", elapsed(started, engine.now()));
                return (Ok(varied), Ghost(FinishTrace { given: chosen, left }));
            },
            None => {},
        }
    }
    let mut combined = results;
    combined.truncate(config.top_k);
    assert(views(combined@) =~= first(all, config.top_k));
    let ghost given = combined;
    let started: u128 = engine.now();
    run_post_search(hook, &mut combined, ctx);
    let ghost left = Candidates { hits: combined, ctx: *ctx };
    let ghost trace = FinishTrace { given, left };
    ctx.record_timing("hook_post_search", elapsed(started, engine.now()));
    proof {
        lemma_notes_without_error(
            left.ctx,
            seq!["hook_post_search"@],
            Seq::empty(),
            Seq::empty(),
            *ctx,
        );
    }
    match ctx.check_error() {
        Ok(()) => (Ok(combined), Ghost(trace)),
        Err(error) => (Err(error), Ghost(trace)),
    }
}

/// Whether a search output holds nothing.
pub open spec fn is_empty_output(result: Result<PipelineOutput>) -> bool {
    result matches Ok(output) && output.combined_hits@.len() == 0 && output.semantic_hits@.len()
        == 0 && output.graph_hits@.len() == 0
}

/// The course of a search: what its stages were given and left. A stage that the search does not
/// come to is missing.
pub struct SearchTrace {
    pub first: FirstTrace,
    pub recall: Option<RecallTrace>,
    pub widening: Option<WideningTrace>,
    pub widened: Option<HookContext>,
    pub expanded: Option<Vec<SearchHit>>,
    pub ranking: Option<RankingTrace>,
    pub ranked: Option<HookContext>,
    pub finish: Option<FinishTrace>,
    pub recalled: Option<HookContext>,
}

/// Whether a search comes to this after the graph has been expanded.
pub open spec fn is_ranked_search<T: VectorType, E: SearchEngine<T>>(
    table: &MemTable<T>,
    engine: &E,
    config: SearchConfig,
    widened: Widened,
    trace: SearchTrace,
    after: HookContext,
    result: Result<PipelineOutput>,
) -> bool {
    &&& trace.expanded == Some(widened.expanded)
    &&& trace.ranking is Some
    &&& exists|ranked: Result<Vec<SearchHit>>, then: HookContext|
        {
            &&& #[trigger] is_ranking(table@, config, trace.ranking->0, then, ranked)
            &&& match ranked {
                Err(error) => {
                    &&& result == Err::<PipelineOutput, TriviumError>(error)
                    &&& trace.finish is None
                    &&& after == then
                },
                Ok(results) => {
                    &&& trace.finish is Some
                    &&& trace.ranked == Some(then)
                    &&& exists|combined: Result<Vec<SearchHit>>|
                        {
                            &&& #[trigger] is_finish(
                                table,
                                engine,
                                config,
                                views(results@),
                                trace.finish->0,
                                after,
                                combined,
                            )
                            &&& match combined {
                                Err(error) => result == Err::<PipelineOutput, TriviumError>(error),
                                Ok(hits) => result matches Ok(output) && {
                                    &&& output.combined_hits == hits
                                    &&& output.semantic_hits == widened.semantic_hits
                                    &&& views(output.graph_hits@) == first(
                                        views(results@).filter(
                                            |hit: HitView|
                                                !widened.semantic_ids@.contains(hit.id),
                                        ),
                                        config.top_k,
                                    )
                                },
                            }
                        }
                },
            }
        }
}

/// Whether a search comes to this with a prepared query.
pub open spec fn is_prepared_search<
    T: VectorType,
    E: SearchEngine<T>,
    P: Fn(u32, u32) -> u32,
    R: Fn(u32, usize) -> u32,
    S: Fn(usize) -> u32,
    F: Fn(&[T], &Vec<T>) -> u32,
    A: Fn(u32, u32) -> u32,
    M: Fn(u32, u32) -> u32,
    D: Fn(u32, u32) -> u32,
    Q: Fn(u32) -> u32,
    C: Fn(usize) -> u32,
    I: Fn(usize) -> u32,
    G: Fn(&Vec<u32>, &Vec<T>) -> u32,
>(
    table: &MemTable<T>,
    engine: &E,
    similarity: F,
    arithmetic: Arithmetic<P, R, S>,
    energies: Energies<A, M, D, Q, C, I>,
    gate: G,
    query_text: Option<&str>,
    query: Option<&[T]>,
    config: &SearchConfig,
    before: HookContext,
    tired: &BTreeSet<NodeId>,
    trace: SearchTrace,
    after: HookContext,
    tired_after: Set<NodeId>,
    result: Result<PipelineOutput>,
) -> bool {
    &&& trace.recall is Some
    &&& trace.recalled is Some
    &&& is_recall(
        table,
        engine,
        similarity,
        arithmetic,
        query_text,
        query,
        *config,
        before,
        trace.recall->0,
        trace.recalled->0,
    )
    &&& if trace.recall->0.anchors@.len() == 0 {
        &&& is_empty_output(result)
        &&& trace.widening is None
        &&& trace.ranking is None
        &&& trace.finish is None
        &&& after == trace.recalled->0
        &&& tired_after == tired@
    } else {
        &&& trace.widening is Some
        &&& trace.widened is Some
        &&& exists|widened: Widened|
            {
                &&& #[trigger] is_widening(
                    table@,
                    energies,
                    gate,
                    config,
                    views(trace.recall->0.anchors@),
                    tired,
                    trace.widening->0,
                    trace.widened->0,
                    tired_after,
                    widened,
                )
                &&& is_ranked_search(table, engine, *config, widened, trace, after, result)
            }
    }
}

/// Whether a search for an acceptable query with acceptable settings takes this course, besides
/// what the hooks do.
pub open spec fn is_search<
    T: VectorType,
    E: SearchEngine<T>,
    P: Fn(u32, u32) -> u32,
    R: Fn(u32, usize) -> u32,
    S: Fn(usize) -> u32,
    F: Fn(&[T], &Vec<T>) -> u32,
    A: Fn(u32, u32) -> u32,
    M: Fn(u32, u32) -> u32,
    D: Fn(u32, u32) -> u32,
    Q: Fn(u32) -> u32,
    C: Fn(usize) -> u32,
    I: Fn(usize) -> u32,
    G: Fn(&Vec<u32>, &Vec<T>) -> u32,
>(
    table: &MemTable<T>,
    engine: &E,
    similarity: F,
    arithmetic: Arithmetic<P, R, S>,
    energies: Energies<A, M, D, Q, C, I>,
    gate: G,
    query_text: Option<&str>,
    query: Option<&[T]>,
    tired: &BTreeSet<NodeId>,
    trace: SearchTrace,
    after: HookContext,
    tired_after: Set<NodeId>,
    result: Result<PipelineOutput>,
) -> bool {
    exists|preparation: Result<Option<Prepared<T>>>, then: HookContext|
        {
            &&& #[trigger] is_preparation(
                engine,
                query,
                table@.dim as usize,
                trace.first,
                then,
                preparation,
            )
            &&& match preparation {
                Ok(Some(prepared)) => exists|hooked: Option<&[T]>|
                    {
                        &&& hooked is Some == query is Some
                        &&& hooked matches Some(vector) ==> vector@ == prepared.query@
                        &&& #[trigger] is_prepared_search(
                            table,
                            engine,
                            similarity,
                            arithmetic,
                            energies,
                            gate,
                            query_text,
                            hooked,
                            &prepared.config,
                            then,
                            tired,
                            trace,
                            after,
                            tired_after,
                            result,
                        )
                    },
                _ => {
                    &&& match preparation {
                        Err(error) => result == Err::<PipelineOutput, TriviumError>(error),
                        Ok(_) => is_empty_output(result),
                    }
                    &&& trace.recall is None
                    &&& trace.widening is None
                    &&& trace.ranking is None
                    &&& trace.finish is None
                    &&& after == then
                    &&& tired_after == tired@
                },
            }
        }
}

/// Runs a search with a prepared query.
fn search_prepared<
    T: VectorType,
    E: SearchEngine<T>,
    H: SearchHook,
    P: Fn(u32, u32) -> u32,
    R: Fn(u32, usize) -> u32,
    S: Fn(usize) -> u32,
    F: Fn(&[T], &Vec<T>) -> u32,
    A: Fn(u32, u32) -> u32,
    M: Fn(u32, u32) -> u32,
    D: Fn(u32, u32) -> u32,
    Q: Fn(u32) -> u32,
    C: Fn(usize) -> u32,
    I: Fn(usize) -> u32,
    G: Fn(&Vec<u32>, &Vec<T>) -> u32,
>(
    table: &MemTable<T>,
    hook: &H,
    engine: &E,
    similarity: &F,
    arithmetic: &Arithmetic<P, R, S>,
    energies: &Energies<A, M, D, Q, C, I>,
    gate: &G,
    query_text: Option<&str>,
    bits: &Vec<u32>,
    query: Option<&[T]>,
    config: &SearchConfig,
    tired: &mut BTreeSet<NodeId>,
    ctx: &mut HookContext,
    Ghost(first): Ghost<FirstTrace>,
) -> (result: (Result<PipelineOutput>, Ghost<SearchTrace>))
    requires
        table.inv(),
        arithmetic.sound(),
        energies.sound(),
        is_gate(*gate),
        forall|vector: &[T], stored: &Vec<T>| call_requires(*similarity, (vector, stored)),
    ensures
        result.1@.first == first,
        is_prepared_search(
            table,
            engine,
            *similarity,
            *arithmetic,
            *energies,
            *gate,
            query_text,
            query,
            config,
            *old(ctx),
            &*old(tired),
            result.1@,
            *final(ctx),
            final(tired)@,
            result.0,
        ),
        result.1@.recall matches Some(step) ==> exists|
            q: &[u32],
            s: &SearchConfig,
            c: &mut HookContext,
        | #[trigger]
            calls_custom_recall(hook, q, s, c, step.custom) && q@ == bits@ && *s == *config
                && *c == step.asked && *final(c) == step.answered,
        result.1@.recall matches Some(step) ==> exists|
            h: &mut Vec<SearchHit>,
            c: &mut HookContext,
        | #[trigger]
            calls_post_recall(hook, h, c) && *h == step.seeds && *c == step.shown && *final(h)
                == step.anchors && *final(c) == step.left,
        result.1@.widening matches Some(step) ==> exists|
            h: &mut Vec<SearchHit>,
            c: &mut HookContext,
        | #[trigger]
            calls_pre_graph_expand(hook, h, c) && *h == step.given && Some(*c) == result.1@.recalled
                && *final(h) == step.seeds && *final(c) == step.left,
        result.1@.ranking matches Some(step) ==> exists|
            h: &mut Vec<SearchHit>,
            c: &mut HookContext,
        | #[trigger]
            calls_rerank(hook, h, c, step.ranked) && Some(*h) == result.1@.expanded && Some(*c)
                == result.1@.widened && *final(h) == step.left.hits && *final(c) == step.left.ctx,
        result.1@.finish matches Some(step) ==> exists|
            h: &mut Vec<SearchHit>,
            c: &mut HookContext,
        | #[trigger]
            calls_post_search(hook, h, c) && *h == step.given && Some(*c) == result.1@.ranked
                && *final(h) == step.left.hits && *final(c) == step.left.ctx,
        result.0 matches Ok(output) ==> share_no_node(
            views(output.semantic_hits@),
            views(output.graph_hits@),
        ),
{
    let ghost weary = *tired;
    let (anchors, Ghost(recall_trace)) = recall(
        table,
        hook,
        engine,
        similarity,
        arithmetic,
        query_text,
        bits,
        query,
        config,
        ctx,
    );
    let ghost recalled = *ctx;
    let ghost mut trace = SearchTrace {
        first,
        recall: Some(recall_trace),
        widening: None,
        widened: None,
        expanded: None,
        ranking: None,
        ranked: None,
        finish: None,
        recalled: Some(recalled),
    };
    if anchors.len() == 0 {
        return (Ok(PipelineOutput::empty()), Ghost(trace));
    }
    let (widened, Ghost(widening)) = widen(
        table,
        hook,
        engine,
        energies,
        gate,
        config,
        &anchors,
        tired,
        ctx,
    );
    let ghost whole = widened;
    let ghost spread = *ctx;
    let Widened { semantic_hits, semantic_ids, expanded } = widened;
    let ghost given = expanded;
    let (outcome, Ghost(ranking)) = rank(table, hook, engine, config, expanded, ctx);
    let ghost ranked = *ctx;
    proof {
        trace.widening = Some(widening);
        trace.widened = Some(spread);
        trace.expanded = Some(given);
        trace.ranking = Some(ranking);
    }
    let results = match outcome {
        Ok(results) => results,
        Err(error) => {
            let result = Err(error);
            proof {
                assert(is_widening(
                    table@,
                    *energies,
                    *gate,
                    config,
                    views(trace.recall->0.anchors@),
                    &weary,
                    trace.widening->0,
                    trace.widened->0,
                    tired@,
                    whole,
                ));
                assert(trace.ranking->0 == ranking);
                assert(is_ranking(table@, *config, trace.ranking->0, ranked, Err(error)));
                assert(is_ranked_search(table, engine, *config, whole, trace, ranked, result));
            }
            return (result, Ghost(trace));
        },
    };
    let ghost listed = views(results@);
    let ghost kept = results;
    assert(is_ranking(table@, *config, ranking, ranked, Ok(kept)));
    let graph_hits = graph_hits(&results, &semantic_ids, config.top_k);
    proof {
        lemma_graph_hits_differ(views(widening.seeds@), listed, semantic_ids@, config.top_k);
    }
    let (combined, Ghost(finish_trace)) = finish(table, hook, engine, config, results, ctx);
    let ghost ended = combined;
    proof {
        trace.ranked = Some(ranked);
        trace.finish = Some(finish_trace);
    }
    let result = match combined {
        Ok(combined_hits) => Ok(PipelineOutput { combined_hits, semantic_hits, graph_hits }),
        Err(error) => Err(error),
    };
    proof {
        assert(is_widening(
            table@,
            *energies,
            *gate,
            config,
            views(trace.recall->0.anchors@),
            &weary,
            trace.widening->0,
            trace.widened->0,
            tired@,
            whole,
        ));
        assert(trace.ranking->0 == ranking && trace.finish->0 == finish_trace);
        assert(is_ranking(table@, *config, trace.ranking->0, ranked, Ok(kept)));
        assert(is_finish(table, engine, *config, views(kept@), trace.finish->0, *ctx, ended));
        assert(is_ranked_search(table, engine, *config, whole, trace, *ctx, result));
    }
    (result, Ghost(trace))
}

/// Runs a search. Where a vector index has to be built first, `build` says how many bytes are in
/// use and how many the build takes; a search whose build goes beyond the memory limit is refused.
/// Then the query and the settings are checked. Where a search is refused, no hook runs. The hook runs between the stages, on what each stage hands on: before the search, where it
/// may ask to end it; in place of the recall, where its answer replaces the built-in one; on the
/// candidates; on the seeds of the expansion; on the results, where it may rank them; and on what
/// is returned. The context is handed back with the notes about the stages. No node is reported
/// both as found by the recall and as added by the graph.
///
/// `similarity` compares a query with a stored vector, and `tired` holds the nodes that take less
/// energy.
pub fn execute_pipeline_with_limit<
    T: VectorType,
    E: SearchEngine<T>,
    H: SearchHook,
    P: Fn(u32, u32) -> u32,
    R: Fn(u32, usize) -> u32,
    S: Fn(usize) -> u32,
    F: Fn(&[T], &Vec<T>) -> u32,
    A: Fn(u32, u32) -> u32,
    M: Fn(u32, u32) -> u32,
    D: Fn(u32, u32) -> u32,
    Q: Fn(u32) -> u32,
    C: Fn(usize) -> u32,
    I: Fn(usize) -> u32,
    G: Fn(&Vec<u32>, &Vec<T>) -> u32,
>(
    table: &MemTable<T>,
    memory_limit: usize,
    build: Option<(usize, usize)>,
    hook: &H,
    engine: &E,
    similarity: &F,
    arithmetic: &Arithmetic<P, R, S>,
    energies: &Energies<A, M, D, Q, C, I>,
    gate: &G,
    query_text: Option<&str>,
    query_vector: Option<&[T]>,
    config: SearchConfig,
    tired: &mut BTreeSet<NodeId>,
    ctx: &mut HookContext,
) -> (result: Result<PipelineOutput>)
    requires
        table.inv(),
        arithmetic.sound(),
        energies.sound(),
        is_gate(*gate),
        forall|vector: &[T], stored: &Vec<T>| call_requires(*similarity, (vector, stored)),
    ensures
        is_over_limit(memory_limit, build) ==> (result matches Err(error) && is_limit_fault(
            memory_limit,
            build,
            error,
        )),
        !is_over_limit(memory_limit, build) && !is_query(query_vector, table@.dim) ==> (result matches Err(error) && match query_vector {
            Some(vector) => if vector@.len() != table@.dim {
                error matches TriviumError::DimensionMismatch { expected, got } && expected
                    == table@.dim && got == vector@.len()
            } else {
                error matches TriviumError::InvalidVector { reason } && reason@
                    == "查询向量包含 NaN 或 Infinity (Query vector contains NaN or Infinity)"@
            },
            None => false,
        }),
        !is_over_limit(memory_limit, build) && is_query(query_vector, table@.dim) && is_refused(
            config,
            table@.dim as usize,
        ) ==> (result matches Err(error) && is_refusal(config, table@.dim as usize, error)),
        is_over_limit(memory_limit, build) || !is_query(query_vector, table@.dim) || is_refused(
            config,
            table@.dim as usize,
        ) ==> *final(ctx) == *old(ctx) && final(tired)@ == old(tired)@,
        !is_over_limit(memory_limit, build) && is_query(query_vector, table@.dim) && !is_refused(
            config,
            table@.dim as usize,
        ) ==> exists|
            trace: SearchTrace,
        |
            {
                &&& #[trigger] is_search(
                    table,
                    engine,
                    *similarity,
                    *arithmetic,
                    *energies,
                    *gate,
                    query_text,
                    query_vector,
                    &*old(tired),
                    trace,
                    *final(ctx),
                    final(tired)@,
                    result,
                )
                &&& exists|q: &mut Vec<u32>, s: &mut SearchConfig, c: &mut HookContext| #[trigger]
                    calls_pre_search(hook, q, s, c) && *q == trace.first.bits && *s == sanitized(
                        config,
                    ) && *c == *old(ctx) && *final(q) == trace.first.left.query
                        && *final(s) == trace.first.left.config
                        && *final(c) == trace.first.left.ctx
                &&& trace.recall matches Some(step) ==> exists|
                    q: &[u32],
                    s: &SearchConfig,
                    c: &mut HookContext,
                | #[trigger]
                    calls_custom_recall(hook, q, s, c, step.custom) && q@ == trace.first.left.query@ && *s == sanitized(trace.first.left.config)
                        && *c == step.asked && *final(c) == step.answered
                &&& trace.recall matches Some(step) ==> exists|
                    h: &mut Vec<SearchHit>,
                    c: &mut HookContext,
                | #[trigger]
                    calls_post_recall(hook, h, c) && *h == step.seeds && *c == step.shown && *final(h)
                        == step.anchors && *final(c) == step.left
                &&& trace.widening matches Some(step) ==> exists|
                    h: &mut Vec<SearchHit>,
                    c: &mut HookContext,
                | #[trigger]
                    calls_pre_graph_expand(hook, h, c) && *h == step.given && Some(*c) == trace.recalled
                        && *final(h) == step.seeds && *final(c) == step.left
                &&& trace.ranking matches Some(step) ==> exists|
                    h: &mut Vec<SearchHit>,
                    c: &mut HookContext,
                | #[trigger]
                    calls_rerank(hook, h, c, step.ranked) && Some(*h) == trace.expanded && Some(*c)
                        == trace.widened && *final(h) == step.left.hits && *final(c) == step.left.ctx
                &&& trace.finish matches Some(step) ==> exists|
                    h: &mut Vec<SearchHit>,
                    c: &mut HookContext,
                | #[trigger]
                    calls_post_search(hook, h, c) && *h == step.given && Some(*c) == trace.ranked
                        && *final(h) == step.left.hits && *final(c) == step.left.ctx
            },
        result matches Ok(output) ==> share_no_node(
            views(output.semantic_hits@),
            views(output.graph_hits@),
        ),
{
    let ghost given = config;
    match build {
        Some((in_use, peak)) => match check_build_memory(in_use, peak, memory_limit) {
            Ok(()) => {},
            Err(error) => {
                return Err(error);
            },
        },
        None => {},
    }
    let dim: usize = table.dim();
    match check_query(query_vector, dim) {
        Ok(()) => {},
        Err(error) => {
            return Err(error);
        },
    }
    let mut config = config;
    match sanitize_config(&mut config, dim) {
        Ok(()) => {},
        Err(error) => {
            return Err(error);
        },
    }
    let (preparation, Ghost(first)) = prepare(hook, engine, query_vector, config, dim, ctx);
    let ghost prepared = preparation;
    let ghost then = *ctx;
    let ghost stopped = SearchTrace {
        first,
        recall: None,
        widening: None,
        widened: None,
        expanded: None,
        ranking: None,
        ranked: None,
        finish: None,
        recalled: None,
    };
    match preparation {
        Err(error) => {
            let result = Err(error);
            proof {
                assert(is_preparation(
                    engine,
                    query_vector,
                    table@.dim as usize,
                    stopped.first,
                    then,
                    prepared,
                ));
                assert(is_search(
                    table,
                    engine,
                    *similarity,
                    *arithmetic,
                    *energies,
                    *gate,
                    query_text,
                    query_vector,
                    &*old(tired),
                    stopped,
                    *ctx,
                    tired@,
                    result,
                ));
            }
            result
        },
        Ok(None) => {
            let result = Ok(PipelineOutput::empty());
            proof {
                assert(is_preparation(
                    engine,
                    query_vector,
                    table@.dim as usize,
                    stopped.first,
                    then,
                    prepared,
                ));
                assert(is_search(
                    table,
                    engine,
                    *similarity,
                    *arithmetic,
                    *energies,
                    *gate,
                    query_text,
                    query_vector,
                    &*old(tired),
                    stopped,
                    *ctx,
                    tired@,
                    result,
                ));
            }
            result
        },
        Ok(Some(Prepared { bits, query, config })) => {
            let hooked: Option<&[T]> = if query_vector.is_some() {
                Some(query.as_slice())
            } else {
                None
            };
            let (result, Ghost(trace)) = search_prepared(
                table,
                hook,
                engine,
                similarity,
                arithmetic,
                energies,
                gate,
                query_text,
                &bits,
                hooked,
                &config,
                tired,
                ctx,
                Ghost(first),
            );
            proof {
                assert(is_preparation(
                    engine,
                    query_vector,
                    table@.dim as usize,
                    trace.first,
                    then,
                    prepared,
                ));
                assert(is_prepared_search(
                    table,
                    engine,
                    *similarity,
                    *arithmetic,
                    *energies,
                    *gate,
                    query_text,
                    hooked,
                    &config,
                    then,
                    &*old(tired),
                    trace,
                    *ctx,
                    tired@,
                    result,
                ));
                assert(is_search(
                    table,
                    engine,
                    *similarity,
                    *arithmetic,
                    *energies,
                    *gate,
                    query_text,
                    query_vector,
                    &*old(tired),
                    trace,
                    *ctx,
                    tired@,
                    result,
                ));
            }
            result
        },
    }
}

} // verus!
