use triviumdb::database::config::SearchConfig;
use triviumdb::hook::{
    accept_foreign_recall, accept_foreign_rerank, CompositeHook, HookContext, HookError, NoopHook,
    SearchHook,
};
use triviumdb::error::TriviumError;
use triviumdb::json::{Json, Member};
use triviumdb::node::{Payload, SearchHit};
use triviumdb::ranking::Scored;

fn hit(id: u64, score: f32) -> SearchHit {
    SearchHit { id, score: score.to_bits(), payload: Payload::null() }
}

fn score(hit: &SearchHit) -> f32 {
    f32::from_bits(hit.score)
}

fn bits(values: &[f32]) -> Vec<u32> {
    values.iter().map(|value| value.to_bits()).collect()
}

#[test]
fn test_noop_hook_is_default() {
    let hook = NoopHook;
    let mut ctx = HookContext::new();
    let mut vec = bits(&[1.0, 2.0, 3.0]);
    let mut config = SearchConfig::default();

    hook.on_pre_search(&mut vec, &mut config, &mut ctx);
    assert_eq!(vec, bits(&[1.0, 2.0, 3.0]));
    assert!(!ctx.abort);

    assert!(hook.on_custom_recall(&vec, &config, &mut ctx).is_none());

    let mut hits = vec![];
    hook.on_post_recall(&mut hits, &mut ctx);
    hook.on_pre_graph_expand(&mut hits, &mut ctx);
    assert!(hook.on_rerank(&mut hits, &mut ctx).is_none());
    hook.on_post_search(&mut hits, &mut ctx);
    assert_eq!(hits.len(), 0);
}

#[test]
fn test_hook_context() {
    let mut ctx = HookContext::new();
    assert!(matches!(ctx.custom_data, Json::Null));
    assert!(ctx.stage_timings.is_empty());
    assert!(!ctx.abort);

    ctx.custom_data = Json::object(vec![Member {
        name: "user_id".to_string(),
        value: Json::String("u_123".to_string()),
    }]);
    ctx.record_timing("recall", 5_000_000);

    assert!(ctx.custom_data.get("user_id").unwrap().same(&Json::String("u_123".to_string())));
    assert_eq!(ctx.stage_timings.len(), 1);
    assert_eq!(ctx.stage_timings[0].0, "recall");
}

struct TimeDecayHook {
    decay_rate: f32,
}

impl SearchHook for TimeDecayHook {
    fn on_post_recall(&self, hits: &mut Vec<SearchHit>, _ctx: &mut HookContext) {
        for hit in hits.iter_mut() {
            hit.score = (f32::from_bits(hit.score) * self.decay_rate).to_bits();
        }
    }
}

#[test]
fn test_custom_hook() {
    let hook = TimeDecayHook { decay_rate: 0.8 };
    let mut ctx = HookContext::new();
    let mut hits = vec![hit(1, 1.0), hit(2, 0.5)];

    hook.on_post_recall(&mut hits, &mut ctx);
    assert!((score(&hits[0]) - 0.8).abs() < 1e-6);
    assert!((score(&hits[1]) - 0.4).abs() < 1e-6);
}

struct BoostHook;

impl SearchHook for BoostHook {
    fn on_post_recall(&self, hits: &mut Vec<SearchHit>, _ctx: &mut HookContext) {
        for hit in hits.iter_mut() {
            hit.score = (f32::from_bits(hit.score) * 2.0).to_bits();
        }
    }
}

struct FilterHook;

impl SearchHook for FilterHook {
    fn on_post_recall(&self, hits: &mut Vec<SearchHit>, _ctx: &mut HookContext) {
        hits.retain(|hit| f32::from_bits(hit.score) > 0.5);
    }
}

#[test]
fn test_composite_hook() {
    let mut composite = CompositeHook::new();
    composite.add(Box::new(BoostHook));
    composite.add(Box::new(FilterHook));

    let mut ctx = HookContext::new();
    let mut hits = vec![hit(1, 0.3), hit(2, 0.2)];

    composite.on_post_recall(&mut hits, &mut ctx);
    assert_eq!(hits.len(), 1);
    assert_eq!(hits[0].id, 1);
}

#[test]
fn composite_runs_hooks_in_the_order_of_adding() {
    let mut composite = CompositeHook::new();
    composite.add(Box::new(FilterHook));
    composite.add(Box::new(BoostHook));
    let mut ctx = HookContext::new();
    let mut hits = vec![hit(1, 0.6), hit(2, 0.4)];
    composite.on_post_recall(&mut hits, &mut ctx);
    assert_eq!(hits.len(), 1);
    assert_eq!(hits[0].id, 1);
    assert_eq!(score(&hits[0]), 1.2);
}

#[test]
fn test_hook_context_default() {
    let ctx = HookContext::default();
    assert!(matches!(ctx.custom_data, Json::Null));
    assert!(!ctx.abort);
}

#[test]
fn test_composite_hook_default() {
    let composite = CompositeHook::default();
    let mut ctx = HookContext::new();
    let mut hits = vec![hit(1, 0.6)];
    composite.on_post_recall(&mut hits, &mut ctx);
    composite.on_pre_graph_expand(&mut hits, &mut ctx);
    composite.on_post_search(&mut hits, &mut ctx);
    assert!(composite.on_rerank(&mut hits, &mut ctx).is_none());
    assert_eq!(hits.len(), 1);
    assert_eq!(hits[0].id, 1);
}

struct AbortHook;

impl SearchHook for AbortHook {
    fn on_pre_search(&self, _: &mut Vec<u32>, _: &mut SearchConfig, ctx: &mut HookContext) {
        ctx.abort = true;
    }
}

struct NeverReachedHook;

impl SearchHook for NeverReachedHook {
    fn on_pre_search(&self, query: &mut Vec<u32>, _: &mut SearchConfig, _: &mut HookContext) {
        query[0] = 999.0f32.to_bits();
    }
}

#[test]
fn test_composite_on_pre_search_abort() {
    let mut composite = CompositeHook::new();
    composite.add(Box::new(AbortHook));
    composite.add(Box::new(NeverReachedHook));

    let mut ctx = HookContext::new();
    let mut vec = bits(&[1.0, 2.0]);
    let mut config = SearchConfig::default();
    composite.on_pre_search(&mut vec, &mut config, &mut ctx);

    assert!(ctx.abort);
    assert_eq!(vec[0], 1.0f32.to_bits(), "abort 后第二个 hook 不应执行");
}

struct RecallHook {
    id: u64,
    score: f32,
}

impl SearchHook for RecallHook {
    fn on_custom_recall(
        &self,
        _: &[u32],
        _: &SearchConfig,
        _: &mut HookContext,
    ) -> Option<Vec<SearchHit>> {
        Some(vec![hit(self.id, self.score)])
    }
}

#[test]
fn test_composite_on_custom_recall_first_wins() {
    let mut composite = CompositeHook::new();
    composite.add(Box::new(RecallHook { id: 42, score: 1.0 }));
    composite.add(Box::new(RecallHook { id: 99, score: 0.5 }));

    let mut ctx = HookContext::new();
    let config = SearchConfig::default();
    let result = composite.on_custom_recall(&bits(&[1.0]), &config, &mut ctx);

    assert!(result.is_some());
    assert_eq!(result.unwrap()[0].id, 42, "第一个返回 Some 的 hook 应生效");
}

#[test]
fn test_composite_on_custom_recall_all_none() {
    let composite = CompositeHook::new();
    let mut ctx = HookContext::new();
    let config = SearchConfig::default();
    assert!(composite.on_custom_recall(&bits(&[1.0]), &config, &mut ctx).is_none());
}

struct RerankHook;

impl SearchHook for RerankHook {
    fn on_rerank(&self, hits: &mut Vec<SearchHit>, _: &mut HookContext) -> Option<Vec<SearchHit>> {
        let mut reranked: Vec<SearchHit> = hits.iter().map(|hit| hit.duplicate()).collect();
        reranked.reverse();
        Some(reranked)
    }
}

#[test]
fn test_composite_on_rerank_first_wins() {
    let mut composite = CompositeHook::new();
    composite.add(Box::new(RerankHook));

    let mut ctx = HookContext::new();
    let mut hits = vec![hit(1, 1.0), hit(2, 0.5)];
    let result = composite.on_rerank(&mut hits, &mut ctx);
    assert!(result.is_some());
    assert_eq!(result.unwrap()[0].id, 2);
}

struct SeedBoostHook;

impl SearchHook for SeedBoostHook {
    fn on_pre_graph_expand(&self, seeds: &mut Vec<SearchHit>, _: &mut HookContext) {
        seeds.push(hit(100, 0.9));
    }
}

#[test]
fn test_composite_on_pre_graph_expand() {
    let mut composite = CompositeHook::new();
    composite.add(Box::new(SeedBoostHook));

    let mut ctx = HookContext::new();
    let mut seeds = vec![hit(1, 1.0)];
    composite.on_pre_graph_expand(&mut seeds, &mut ctx);
    assert_eq!(seeds.len(), 2);
    assert_eq!(seeds[1].id, 100);
}

struct TruncateHook;

impl SearchHook for TruncateHook {
    fn on_post_search(&self, results: &mut Vec<SearchHit>, _: &mut HookContext) {
        results.truncate(1);
    }
}

#[test]
fn test_composite_on_post_search() {
    let mut composite = CompositeHook::new();
    composite.add(Box::new(TruncateHook));

    let mut ctx = HookContext::new();
    let mut results = vec![hit(1, 1.0), hit(2, 0.5)];
    composite.on_post_search(&mut results, &mut ctx);
    assert_eq!(results.len(), 1);
}

#[test]
fn a_reported_error_is_returned_once() {
    let mut ctx = HookContext::new();
    ctx.error = Some(HookError { stage: "rerank".to_string(), reason: "boom".to_string() });
    match ctx.check_error() {
        Err(TriviumError::HookExecutionError { stage, reason }) => {
            assert_eq!(stage, "rerank");
            assert_eq!(reason, "boom");
        }
        _ => panic!("no error"),
    }
    assert!(ctx.check_error().is_ok());
}

#[test]
fn notes_are_kept_in_order() {
    let mut ctx = HookContext::new();
    ctx.record_count("dense_recall", 3);
    ctx.record_count("rerank", 2);
    ctx.record_observation("node_count", 7);
    assert_eq!(ctx.stage_counts.len(), 2);
    assert_eq!(ctx.stage_counts[1].0, "rerank");
    assert_eq!(ctx.stage_counts[1].1, 2);
    assert_eq!(ctx.observations[0].1, 7);
}

#[test]
fn foreign_answers_count_when_the_library_says_so() {
    let buffer = vec![
        Scored { id: 7, score: 0.5f32.to_bits() },
        Scored { id: 8, score: 0.4f32.to_bits() },
    ];
    let hits = accept_foreign_recall(0, &buffer, 1).unwrap();
    assert_eq!(hits.len(), 1);
    assert_eq!(hits[0].id, 7);
    assert_eq!(accept_foreign_recall(0, &buffer, 9).unwrap().len(), 2);
    assert!(accept_foreign_recall(1, &buffer, 1).is_none());
}

#[test]
fn foreign_scores_rank_the_hits() {
    let hits = vec![hit(1, 0.1), hit(2, 0.2)];
    let scores = bits(&[0.3, 0.9]);
    let ranked = accept_foreign_rerank(0, &hits, &scores).unwrap();
    assert_eq!(ranked[0].id, 2);
    assert_eq!(score(&ranked[0]), 0.9);
    assert_eq!(ranked[1].id, 1);
    assert!(accept_foreign_rerank(-1, &hits, &scores).is_none());
}
