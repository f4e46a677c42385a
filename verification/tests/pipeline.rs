use std::collections::{BTreeMap, BTreeSet};

use triviumdb::database::config::{sanitize_config, EdgeDirection, SearchConfig};
use triviumdb::database::fusion::Arithmetic;
use triviumdb::database::pipeline::{
    aggregate_seeds, apply_dpp, check_build_memory, eligible_node_id, execute_pipeline_with_limit,
    index_search_width, query_reach, recall_residual, recall_text_ranked, recall_vector_ranked,
    select_index_hits, shadow_reach, PipelineOutput, SearchEngine,
};
use triviumdb::error::TriviumError;
use triviumdb::filter::Filter;
use triviumdb::graph::traversal::{expand_graph, expand_graph_with_labels, Energies, Expansion};
use triviumdb::hook::{HookContext, HookError, NoopHook, SearchHook};
use triviumdb::json::{Json, JsonNumber, Member};
use triviumdb::node::{Payload, SearchHit};
use triviumdb::ranking::Scored;
use triviumdb::storage::memtable::MemTable;
use triviumdb::vector::F32;

fn bits(value: f32) -> u32 {
    value.to_bits()
}

fn vector(values: &[f32]) -> Vec<F32> {
    values.iter().map(|value| F32 { bits: value.to_bits() }).collect()
}

fn floats(values: &[F32]) -> Vec<f32> {
    values.iter().map(|value| f32::from_bits(value.bits)).collect()
}

fn text(value: &str) -> Json {
    Json::String(value.to_string())
}

fn one(name: &str, value: Json) -> Json {
    Json::object(vec![Member { name: name.to_string(), value }])
}

fn empty() -> Json {
    Json::object(vec![])
}

fn payload(value: Json) -> Payload {
    Payload { text: "{}".to_string(), value }
}

fn hit(id: u64, score: f32) -> SearchHit {
    SearchHit { id, score: bits(score), payload: payload(empty()) }
}

fn score(hit: &SearchHit) -> f32 {
    f32::from_bits(hit.score)
}

fn scored(items: &[(u64, f32)]) -> Vec<Scored> {
    items.iter().map(|&(id, score)| Scored { id, score: bits(score) }).collect()
}

fn make_memtable(dim: usize, nodes: Vec<(u64, Vec<f32>, Json)>) -> MemTable<F32> {
    let mut mt = MemTable::new(dim);
    for (id, values, value) in nodes {
        mt.insert_with_id(id, &vector(&values), &payload(value)).unwrap();
    }
    mt
}

fn default_config() -> SearchConfig {
    SearchConfig { top_k: 5, min_score: 0, expand_depth: 0, ..Default::default() }
}

fn cosine(a: &[f32], b: &[f32]) -> f32 {
    let dot: f32 = a.iter().zip(b).map(|(x, y)| x * y).sum();
    let left: f32 = a.iter().map(|x| x * x).sum::<f32>().sqrt();
    let right: f32 = b.iter().map(|x| x * x).sum::<f32>().sqrt();
    if left == 0.0 || right == 0.0 {
        0.0
    } else {
        dot / (left * right)
    }
}

fn add(a: u32, b: u32) -> u32 {
    bits(f32::from_bits(a) + f32::from_bits(b))
}

fn multiply(a: u32, b: u32) -> u32 {
    bits(f32::from_bits(a) * f32::from_bits(b))
}

fn divide(a: u32, b: u32) -> u32 {
    bits(f32::from_bits(a) / f32::from_bits(b))
}

fn rest(a: u32) -> u32 {
    bits(1.0 - f32::from_bits(a))
}

fn count(n: usize) -> u32 {
    bits(n as f32)
}

fn inhibition(n: usize) -> u32 {
    bits(1.0 / (n as f32).powf(0.55))
}

fn open_gate(_: &Vec<u32>, _: &Vec<F32>) -> u32 {
    bits(1.0)
}

fn half_gate(_: &Vec<u32>, _: &Vec<F32>) -> u32 {
    bits(0.5)
}

fn share(weight: u32, rank: usize) -> u32 {
    bits(f32::from_bits(weight) * 60.0 / (60.0 + rank as f32 + 1.0))
}

fn shadow(rank: usize) -> u32 {
    bits(0.5 * 60.0 / (61.0 + rank as f32))
}

fn arithmetic(
) -> Arithmetic<fn(u32, u32) -> u32, fn(u32, usize) -> u32, fn(usize) -> u32> {
    Arithmetic { plus: add, share, shadow }
}

fn energies() -> Energies<
    fn(u32, u32) -> u32,
    fn(u32, u32) -> u32,
    fn(u32, u32) -> u32,
    fn(u32) -> u32,
    fn(usize) -> u32,
    fn(usize) -> u32,
> {
    Energies { plus: add, times: multiply, over: divide, rest, count, inhibition }
}

struct Brute {
    index: Option<Vec<Scored>>,
    keywords: Vec<Scored>,
    words: Vec<Scored>,
    residual: Option<(Vec<f32>, f32)>,
}

fn brute() -> Brute {
    Brute { index: None, keywords: vec![], words: vec![], residual: None }
}

impl SearchEngine<F32> for Brute {
    fn now(&self) -> u128 {
        1
    }

    fn component_bits(&self, component: F32) -> u32 {
        component.bits
    }

    fn component_from_bits(&self, bits: u32) -> F32 {
        F32 { bits }
    }

    fn observations(&self) -> Vec<(String, u64)> {
        vec![("generation".to_string(), 3)]
    }

    fn search_keywords(&self, _: &str) -> Vec<Scored> {
        self.keywords.clone()
    }

    fn search_words(&self, _: &str, _: u32, _: u32) -> Vec<Scored> {
        self.words.clone()
    }

    fn has_index(&self) -> bool {
        self.index.is_some()
    }

    fn search_index(
        &self,
        _: &MemTable<F32>,
        _: &[F32],
        _: &Option<Filter>,
        top_k: usize,
        _: usize,
    ) -> Vec<Scored> {
        let mut found = self.index.clone().unwrap();
        found.truncate(top_k);
        found
    }

    fn residual(
        &self,
        _: &MemTable<F32>,
        _: &[F32],
        _: &Vec<u64>,
        _: u32,
    ) -> (Vec<F32>, u32) {
        let (left, norm) = self.residual.clone().unwrap();
        (vector(&left), bits(norm))
    }

    fn diversify(
        &self,
        table: &MemTable<F32>,
        pool: &Vec<SearchHit>,
        limit: usize,
        _: u32,
    ) -> Vec<usize> {
        let mut places: Vec<usize> = vec![];
        while places.len() < limit && places.len() < pool.len() {
            let gain = |place: usize| {
                let own = floats(table.get_vector(pool[place].id).unwrap());
                let nearest = places
                    .iter()
                    .map(|&other| cosine(&own, &floats(table.get_vector(pool[other].id).unwrap())))
                    .fold(0.0f32, f32::max);
                score(&pool[place]) * (1.0 - nearest)
            };
            let mut best: Option<(usize, f32)> = None;
            for place in 0..pool.len() {
                if !places.contains(&place) {
                    let value = gain(place);
                    if best.map_or(true, |(_, other)| value > other) {
                        best = Some((place, value));
                    }
                }
            }
            places.push(best.unwrap().0);
        }
        places
    }
}

fn similarity(query: &[F32], stored: &Vec<F32>) -> u32 {
    bits(cosine(&floats(query), &floats(stored)))
}

fn run<H: SearchHook>(
    mt: &MemTable<F32>,
    hook: &H,
    query: Option<&[F32]>,
    config: SearchConfig,
    ctx: &mut HookContext,
) -> triviumdb::error::Result<PipelineOutput> {
    execute_pipeline_with_limit(
        mt,
        0,
        None,
        hook,
        &brute(),
        &similarity,
        &arithmetic(),
        &energies(),
        &open_gate,
        None,
        query,
        config,
        &mut BTreeSet::new(),
        ctx,
    )
}

fn search<H: SearchHook>(
    mt: &MemTable<F32>,
    hook: &H,
    query: &[f32],
    config: SearchConfig,
    ctx: &mut HookContext,
) -> triviumdb::error::Result<Vec<SearchHit>> {
    let query = vector(query);
    run(mt, hook, Some(&query), config, ctx).map(|output| output.combined_hits)
}

#[test]
fn test_rrf_fusion_ignores_raw_scales() {
    let dense = scored(&[(1, 0.9), (2, 0.8)]);
    let sparse = scored(&[(2, 1000.0), (1, 0.001)]);
    let fused = arithmetic().fuse_rankings_rrf(&dense, &sparse, bits(1.0));
    let first = f32::from_bits(fused[&1]);
    let second = f32::from_bits(fused[&2]);
    assert!((first - second).abs() < 1e-6);
}

#[test]
fn test_rrf_single_route_keeps_dense_scores() {
    let dense = scored(&[(1, 0.91), (2, 0.42)]);
    let fused = arithmetic().fuse_rankings_rrf(&dense, &vec![], bits(1.0));
    assert_eq!(fused[&1], bits(0.91));
    assert_eq!(fused[&2], bits(0.42));
}

#[test]
fn sparse_route_alone_is_ranked_by_place() {
    let sparse = scored(&[(7, 5.0), (3, 4.0)]);
    let fused = arithmetic().fuse_rankings_rrf(&vec![], &sparse, bits(2.0));
    assert_eq!(fused[&7], bits(2.0 * 60.0 / 61.0));
    assert_eq!(fused[&3], bits(2.0 * 60.0 / 62.0));
    let damped = arithmetic().fuse_rankings_rrf(&vec![], &sparse, bits(-2.0));
    assert_eq!(f32::from_bits(damped[&7]), 0.0);
}

#[test]
fn test_sanitize_config_decouples_pools() {
    let mut config = SearchConfig { top_k: 10, recall_k: 0, rerank_k: 0, ..Default::default() };
    sanitize_config(&mut config, 128).unwrap();
    assert_eq!(config.recall_k, 80);
    assert_eq!(config.rerank_k, 40);
}

#[test]
fn sanitizing_twice_changes_nothing_more() {
    let mut config = SearchConfig { top_k: 0, recall_k: 3, rerank_k: 900, ..Default::default() };
    sanitize_config(&mut config, 4).unwrap();
    let pools = (config.top_k, config.recall_k, config.rerank_k);
    assert_eq!(pools, (1, 3, 3));
    sanitize_config(&mut config, 4).unwrap();
    assert_eq!(pools, (config.top_k, config.recall_k, config.rerank_k));
}

#[test]
fn sanitizing_refuses_settings_that_are_not_numbers() {
    let mut config = SearchConfig { min_score: bits(f32::NAN), ..Default::default() };
    assert!(sanitize_config(&mut config, 4).is_err());
    let mut biased = SearchConfig { diffusion_bias: Some(vec![bits(1.0)]), ..Default::default() };
    assert!(sanitize_config(&mut biased, 4).is_err());
}

#[test]
fn test_aggregate_seeds_sorts_descending_and_truncates() {
    let mt = make_memtable(
        2,
        vec![
            (1, vec![1.0, 0.0], one("a", Json::Number(JsonNumber::PosInt(1)))),
            (2, vec![0.0, 1.0], one("a", Json::Number(JsonNumber::PosInt(2)))),
            (3, vec![0.5, 0.5], one("a", Json::Number(JsonNumber::PosInt(3)))),
        ],
    );
    let cfg = SearchConfig { top_k: 2, min_score: 0, ..Default::default() };
    let mut seed_map = BTreeMap::new();
    seed_map.insert(1u64, bits(0.9));
    seed_map.insert(2, bits(0.5));
    seed_map.insert(3, bits(0.7));

    let hits = aggregate_seeds(&mt, &cfg, &seed_map);

    assert!(hits.len() <= 15);
    for w in hits.windows(2) {
        assert!(score(&w[0]) >= score(&w[1]), "应按分数降序");
    }
    let ids: Vec<u64> = hits.iter().map(|hit| hit.id).collect();
    assert_eq!(ids, vec![1, 3, 2]);
}

#[test]
fn aggregate_seeds_only_hydrates_rerank_pool() {
    let mut nodes = Vec::new();
    let mut seed_map = BTreeMap::new();
    for id in 1..=100u64 {
        nodes.push((id, vec![1.0, 0.0], one("id", Json::Number(JsonNumber::PosInt(id)))));
        seed_map.insert(id, bits(id as f32));
    }
    let mt = make_memtable(2, nodes);
    let cfg = SearchConfig { top_k: 2, rerank_k: 5, min_score: 0, ..Default::default() };
    let hits = aggregate_seeds(&mt, &cfg, &seed_map);
    assert_eq!(hits.len(), 5);
    assert_eq!(hits[0].id, 100);
    assert_eq!(hits[4].id, 96);
}

#[test]
fn test_aggregate_seeds_filters_by_min_score() {
    let mt = make_memtable(
        2,
        vec![(1, vec![1.0, 0.0], empty()), (2, vec![0.0, 1.0], empty())],
    );
    let cfg = SearchConfig { top_k: 10, min_score: bits(0.8), ..Default::default() };
    let mut seed_map = BTreeMap::new();
    seed_map.insert(1u64, bits(0.9));
    seed_map.insert(2, bits(0.3));

    let hits = aggregate_seeds(&mt, &cfg, &seed_map);

    assert_eq!(hits.len(), 1);
    assert_eq!(hits[0].id, 1);
}

#[test]
fn test_aggregate_seeds_with_payload_filter() {
    let mt = make_memtable(
        2,
        vec![
            (1, vec![1.0, 0.0], one("role", text("admin"))),
            (2, vec![0.0, 1.0], one("role", text("user"))),
        ],
    );
    let cfg = SearchConfig {
        top_k: 10,
        min_score: 0,
        payload_filter: Some(Filter::eq("role", text("admin"))),
        ..Default::default()
    };
    let mut seed_map = BTreeMap::new();
    seed_map.insert(1u64, bits(0.9));
    seed_map.insert(2, bits(0.8));

    let hits = aggregate_seeds(&mt, &cfg, &seed_map);

    assert_eq!(hits.len(), 1);
    assert_eq!(hits[0].id, 1);
}

#[test]
fn test_aggregate_seeds_empty_map() {
    let mt = make_memtable(2, vec![(1, vec![1.0, 0.0], empty())]);
    let hits = aggregate_seeds(&mt, &default_config(), &BTreeMap::new());
    assert!(hits.is_empty());
}

#[test]
fn test_recall_vector_basic() {
    let mt = make_memtable(
        3,
        vec![
            (1, vec![1.0, 0.0, 0.0], empty()),
            (2, vec![0.0, 1.0, 0.0], empty()),
            (3, vec![0.0, 0.0, 1.0], empty()),
        ],
    );
    let cfg = SearchConfig { top_k: 2, min_score: 0, ..Default::default() };
    let query = vector(&[1.0, 0.0, 0.0]);
    let ranking = recall_vector_ranked(&mt, &brute(), &similarity, &cfg, query_reach(&cfg), &query);
    assert!(!ranking.is_empty(), "应召回至少一个节点");
    assert_eq!(ranking[0].id, 1);
}

#[test]
fn test_recall_vector_none_query_is_noop() {
    let mt = make_memtable(3, vec![(1, vec![1.0, 0.0, 0.0], empty())]);
    let mut ctx = HookContext::new();
    let output = run(&mt, &NoopHook, None, default_config(), &mut ctx).unwrap();
    assert!(output.combined_hits.is_empty());
}

#[test]
fn test_recall_vector_with_payload_filter() {
    let mt = make_memtable(
        3,
        vec![
            (1, vec![1.0, 0.0, 0.0], one("tag", text("yes"))),
            (2, vec![0.9, 0.1, 0.0], one("tag", text("no"))),
        ],
    );
    let cfg = SearchConfig {
        top_k: 5,
        min_score: 0,
        payload_filter: Some(Filter::eq("tag", text("yes"))),
        ..Default::default()
    };
    let query = vector(&[1.0, 0.0, 0.0]);
    let ranking = recall_vector_ranked(&mt, &brute(), &similarity, &cfg, query_reach(&cfg), &query);
    let ids: Vec<u64> = ranking.iter().map(|item| item.id).collect();
    assert!(ids.contains(&1));
    assert!(!ids.contains(&2), "node 2 应被 payload_filter 过滤");
}

#[test]
fn test_recall_vector_filters_before_top_k() {
    let mt = make_memtable(
        2,
        vec![
            (1, vec![1.0, 0.0], one("group", text("drop"))),
            (2, vec![0.8, 0.6], one("group", text("drop"))),
            (3, vec![0.6, 0.8], one("group", text("keep"))),
            (4, vec![0.0, 1.0], one("group", text("keep"))),
            (5, vec![-0.6, 0.8], one("group", text("keep"))),
        ],
    );
    let cfg = SearchConfig {
        top_k: 2,
        recall_k: 2,
        min_score: bits(-1.0),
        force_brute_force: true,
        payload_filter: Some(Filter::eq("group", text("keep"))),
        ..Default::default()
    };
    let query = vector(&[1.0, 0.0]);
    let ranking = recall_vector_ranked(&mt, &brute(), &similarity, &cfg, query_reach(&cfg), &query);
    let ids: Vec<u64> = ranking.iter().map(|item| item.id).collect();
    assert_eq!(ids.len(), 2);
    assert!(ids.contains(&3));
    assert!(ids.contains(&4));
    assert!(!ids.contains(&0));
}

#[test]
fn test_recall_vector_quiver_filter_fills_top_k() {
    let mut nodes: Vec<(u64, Vec<f32>, Json)> =
        (1..=40).map(|id| (id, vec![1.0, 0.0], one("group", text("drop")))).collect();
    nodes.push((100, vec![0.0, 1.0], one("group", text("keep"))));
    nodes.push((101, vec![-0.8, 0.6], one("group", text("keep"))));
    nodes.push((102, vec![-1.0, 0.0], one("group", text("keep"))));
    let mt = make_memtable(2, nodes);
    let near: Vec<(u64, f32)> = (1..=40).map(|id| (id, 1.0)).collect();
    let engine = Brute { index: Some(scored(&near)), ..brute() };
    let cfg = SearchConfig {
        top_k: 2,
        recall_k: 2,
        min_score: bits(-1.0),
        payload_filter: Some(Filter::eq("group", text("keep"))),
        ..Default::default()
    };
    let query = vector(&[1.0, 0.0]);
    let ranking = recall_vector_ranked(&mt, &engine, &similarity, &cfg, query_reach(&cfg), &query);
    let ids: Vec<u64> = ranking.iter().map(|item| item.id).collect();
    assert_eq!(ids.len(), 2);
    assert!(ids.contains(&100));
    assert!(ids.contains(&101));
}

#[test]
fn an_index_answers_unless_a_scan_is_forced() {
    let mt = make_memtable(
        2,
        vec![(1, vec![1.0, 0.0], empty()), (2, vec![0.0, 1.0], empty())],
    );
    let engine = Brute { index: Some(scored(&[(2, 0.9), (0, 0.8), (5, 0.7)])), ..brute() };
    let query = vector(&[1.0, 0.0]);
    let cfg = SearchConfig { top_k: 1, min_score: bits(0.5), ..Default::default() };
    let near = recall_vector_ranked(&mt, &engine, &similarity, &cfg, query_reach(&cfg), &query);
    assert_eq!(near, scored(&[(2, 0.9)]));
    let forced = SearchConfig {
        top_k: 1,
        min_score: bits(0.5),
        force_brute_force: true,
        ..Default::default()
    };
    let exact = recall_vector_ranked(&mt, &engine, &similarity, &forced, query_reach(&forced), &query);
    assert_eq!(exact, scored(&[(1, 1.0)]));
}

#[test]
fn index_hits_are_filtered_sorted_and_cut() {
    let mt = make_memtable(1, vec![(1, vec![1.0], empty()), (2, vec![1.0], empty())]);
    let found = scored(&[(1, 0.2), (2, 0.9), (3, 0.95), (0, 1.0)]);
    assert_eq!(select_index_hits(&mt, &None, bits(0.1), &found, 5), scored(&[(2, 0.9), (1, 0.2)]));
    assert_eq!(select_index_hits(&mt, &None, bits(0.5), &found, 5), scored(&[(2, 0.9)]));
    assert_eq!(index_search_width(0), (2, 8));
    assert_eq!(index_search_width(10), (20, 80));
}

#[test]
fn test_recall_text_disabled_is_noop() {
    let engine = Brute { keywords: scored(&[(1, 1.0)]), ..brute() };
    let cfg = SearchConfig { enable_text_hybrid_search: false, ..Default::default() };
    let ranking = recall_text_ranked::<F32, _, _, _, _>(&engine, &arithmetic(), &cfg, Some("hello"));
    assert!(ranking.is_empty());
}

#[test]
fn test_recall_text_none_query_is_noop() {
    let engine = Brute { keywords: scored(&[(1, 1.0)]), ..brute() };
    let cfg = SearchConfig { enable_text_hybrid_search: true, ..Default::default() };
    let ranking = recall_text_ranked::<F32, _, _, _, _>(&engine, &arithmetic(), &cfg, None);
    assert!(ranking.is_empty());
}

#[test]
fn texts_add_keywords_to_words() {
    let engine = Brute {
        keywords: scored(&[(1, 1.0), (2, 0.5)]),
        words: scored(&[(2, 0.75), (3, 0.25)]),
        ..brute()
    };
    let cfg = SearchConfig { enable_text_hybrid_search: true, ..Default::default() };
    let ranking = recall_text_ranked::<F32, _, _, _, _>(&engine, &arithmetic(), &cfg, Some("x"));
    assert_eq!(ranking, scored(&[(2, 1.25), (1, 1.0), (3, 0.25)]));
}

#[test]
fn test_recall_residual_disabled_is_noop() {
    let mt = make_memtable(3, vec![(1, vec![1.0, 0.0, 0.0], empty())]);
    let cfg = SearchConfig { enable_advanced_pipeline: false, ..Default::default() };
    let query = vector(&[1.0, 0.0, 0.0]);
    let mut seed_map = BTreeMap::new();
    seed_map.insert(1u64, bits(0.9));
    let before = seed_map.clone();
    recall_residual(&mt, &brute(), &similarity, &arithmetic(), &cfg, Some(&query), &mut seed_map);
    assert_eq!(seed_map, before, "disabled 时 seed_map 不应变化");
}

#[test]
fn test_recall_residual_empty_seeds_is_noop() {
    let mt = make_memtable(3, vec![(1, vec![1.0, 0.0, 0.0], empty())]);
    let cfg = SearchConfig {
        enable_advanced_pipeline: true,
        enable_sparse_residual: true,
        ..Default::default()
    };
    let query = vector(&[1.0, 0.0, 0.0]);
    let mut seed_map = BTreeMap::new();
    recall_residual(&mt, &brute(), &similarity, &arithmetic(), &cfg, Some(&query), &mut seed_map);
    assert!(seed_map.is_empty());
}

#[test]
fn a_large_residual_starts_a_shadow_search() {
    let mt = make_memtable(
        2,
        vec![(1, vec![1.0, 0.0], empty()), (2, vec![0.0, 1.0], empty())],
    );
    let mut cfg = SearchConfig {
        enable_advanced_pipeline: true,
        enable_sparse_residual: true,
        ..Default::default()
    };
    sanitize_config(&mut cfg, 2).unwrap();
    let engine = Brute { residual: Some((vec![0.0, 1.0], 0.9)), ..brute() };
    let query = vector(&[0.8, 0.6]);
    let mut scores = BTreeMap::new();
    scores.insert(1u64, bits(0.5));
    recall_residual(&mt, &engine, &similarity, &arithmetic(), &cfg, Some(&query), &mut scores);
    assert_eq!(scores[&2], bits(30.0 / 61.0));
    assert_eq!(scores[&1], bits(0.5 + 30.0 / 62.0));
    let small = Brute { residual: Some((vec![0.0, 1.0], 0.1)), ..brute() };
    let mut unchanged = BTreeMap::new();
    unchanged.insert(1u64, bits(0.5));
    recall_residual(&mt, &small, &similarity, &arithmetic(), &cfg, Some(&query), &mut unchanged);
    assert_eq!(unchanged.len(), 1);
    assert_eq!(shadow_reach(&cfg).min_score, bits(-1.0));
}

#[test]
fn test_apply_dpp_returns_none_when_pool_too_small() {
    let mt = make_memtable(
        3,
        vec![(1, vec![1.0, 0.0, 0.0], empty()), (2, vec![0.0, 1.0, 0.0], empty())],
    );
    let cfg = SearchConfig {
        top_k: 5,
        enable_dpp: true,
        dpp_quality_weight: bits(1.0),
        ..Default::default()
    };
    let expanded = vec![hit(1, 0.9), hit(2, 0.5)];
    assert!(apply_dpp(&mt, &brute(), &cfg, &expanded).is_none());
}

#[test]
fn test_apply_dpp_selects_diverse_subset() {
    let mt = make_memtable(
        3,
        vec![
            (1, vec![1.0, 0.0, 0.0], empty()),
            (2, vec![0.99, 0.01, 0.0], empty()),
            (3, vec![0.0, 1.0, 0.0], empty()),
            (4, vec![0.0, 0.0, 1.0], empty()),
        ],
    );
    let cfg = SearchConfig {
        top_k: 2,
        enable_dpp: true,
        dpp_quality_weight: bits(1.0),
        ..Default::default()
    };
    let expanded = vec![hit(1, 1.0), hit(2, 0.95), hit(3, 0.8), hit(4, 0.7)];
    let result = apply_dpp(&mt, &brute(), &cfg, &expanded);
    assert!(result.is_some());
    let selected = result.unwrap();
    assert_eq!(selected.len(), 2);
    let ids: Vec<u64> = selected.iter().map(|hit| hit.id).collect();
    assert!(ids.contains(&1), "最高分节点应被选中");
    assert!(!ids.contains(&2), "DPP 应优先选择多样化的节点而非相似节点");
}

#[test]
fn test_execute_pipeline_dimension_mismatch() {
    let mt = make_memtable(3, vec![(1, vec![1.0, 0.0, 0.0], empty())]);
    let mut ctx = HookContext::new();
    let result = search(&mt, &NoopHook, &[1.0, 0.0], default_config(), &mut ctx);
    assert!(matches!(
        result,
        Err(TriviumError::DimensionMismatch { expected: 3, got: 2 })
    ), "维度不匹配应返回错误");
}

#[test]
fn test_execute_pipeline_nan_query_rejected() {
    let mt = make_memtable(3, vec![(1, vec![1.0, 0.0, 0.0], empty())]);
    let mut ctx = HookContext::new();
    let result = search(&mt, &NoopHook, &[f32::NAN, 0.0, 0.0], default_config(), &mut ctx);
    assert!(result.is_err(), "NaN 查询向量应被拒绝");
}

#[test]
fn test_execute_pipeline_inf_query_rejected() {
    let mt = make_memtable(3, vec![(1, vec![1.0, 0.0, 0.0], empty())]);
    let mut ctx = HookContext::new();
    let result = search(&mt, &NoopHook, &[f32::INFINITY, 0.0, 0.0], default_config(), &mut ctx);
    assert!(result.is_err(), "Infinity 查询向量应被拒绝");
}

#[test]
fn test_execute_pipeline_empty_db() {
    let mt = MemTable::<F32>::new(3);
    let mut ctx = HookContext::new();
    let results = search(&mt, &NoopHook, &[1.0, 0.0, 0.0], default_config(), &mut ctx).unwrap();
    assert!(results.is_empty(), "空库应返回空结果");
}

#[test]
fn test_execute_pipeline_basic_vector_search() {
    let mt = make_memtable(
        3,
        vec![
            (1, vec![1.0, 0.0, 0.0], one("name", text("a"))),
            (2, vec![0.0, 1.0, 0.0], one("name", text("b"))),
            (3, vec![0.0, 0.0, 1.0], one("name", text("c"))),
        ],
    );
    let cfg = SearchConfig { top_k: 2, min_score: 0, expand_depth: 0, ..Default::default() };
    let mut ctx = HookContext::new();
    let results = search(&mt, &NoopHook, &[1.0, 0.0, 0.0], cfg, &mut ctx).unwrap();
    assert!(!results.is_empty());
    assert_eq!(results[0].id, 1, "最相似节点应排第一");
    assert!(results[0].payload.value.same(&one("name", text("a"))));
}

#[test]
fn test_execute_pipeline_respects_top_k() {
    let nodes: Vec<(u64, Vec<f32>, Json)> =
        (1..=10).map(|i| (i as u64, vec![1.0, i as f32 * 0.01, 0.0], empty())).collect();
    let mt = make_memtable(3, nodes);
    let cfg = SearchConfig { top_k: 3, min_score: 0, expand_depth: 0, ..Default::default() };
    let mut ctx = HookContext::new();
    let results = search(&mt, &NoopHook, &[1.0, 0.0, 0.0], cfg, &mut ctx).unwrap();
    assert!(results.len() <= 3, "结果数不应超过 top_k");
    assert_eq!(results.len(), 3);
}

#[test]
fn test_execute_pipeline_records_timings() {
    let mt = make_memtable(3, vec![(1, vec![1.0, 0.0, 0.0], empty())]);
    let mut ctx = HookContext::new();
    let _ = search(&mt, &NoopHook, &[1.0, 0.0, 0.0], default_config(), &mut ctx).unwrap();
    assert!(!ctx.stage_timings.is_empty(), "管线应记录阶段计时");
    let stage_names: Vec<&str> = ctx.stage_timings.iter().map(|(n, _)| n.as_str()).collect();
    assert!(stage_names.contains(&"hook_pre_search"));
    assert!(stage_names.contains(&"hook_post_search"));
    let count_names: Vec<&str> = ctx.stage_counts.iter().map(|(name, _)| name.as_str()).collect();
    assert!(count_names.contains(&"dense_recall"));
    assert!(count_names.contains(&"fused_recall"));
}

struct AbortHook;

impl SearchHook for AbortHook {
    fn on_pre_search(&self, _: &mut Vec<u32>, _: &mut SearchConfig, ctx: &mut HookContext) {
        ctx.abort = true;
    }
}

#[test]
fn test_hook_abort_returns_empty() {
    let mt = make_memtable(3, vec![(1, vec![1.0, 0.0, 0.0], empty())]);
    let mut ctx = HookContext::new();
    let results = search(&mt, &AbortHook, &[1.0, 0.0, 0.0], default_config(), &mut ctx).unwrap();
    assert!(results.is_empty(), "abort=true 时应返回空结果");
}

struct FixedRecallHook;

impl SearchHook for FixedRecallHook {
    fn on_custom_recall(
        &self,
        _: &[u32],
        _: &SearchConfig,
        _: &mut HookContext,
    ) -> Option<Vec<SearchHit>> {
        Some(vec![SearchHit { id: 999, score: bits(1.0), payload: Payload::null() }])
    }
}

#[test]
fn test_hook_custom_recall_overrides_builtin() {
    let mt = make_memtable(
        3,
        vec![
            (1, vec![1.0, 0.0, 0.0], empty()),
            (999, vec![0.0, 0.0, 1.0], one("custom", Json::Bool(true))),
        ],
    );
    let mut ctx = HookContext::new();
    let results =
        search(&mt, &FixedRecallHook, &[1.0, 0.0, 0.0], default_config(), &mut ctx).unwrap();
    assert_eq!(results.len(), 1);
    assert_eq!(results[0].id, 999, "自定义召回应覆盖内置召回");
}

struct FilterLowScoreHook;

impl SearchHook for FilterLowScoreHook {
    fn on_post_recall(&self, hits: &mut Vec<SearchHit>, _: &mut HookContext) {
        hits.retain(|hit| score(hit) > 0.5);
    }
}

#[test]
fn test_hook_post_recall_filters() {
    let mt = make_memtable(
        3,
        vec![
            (1, vec![1.0, 0.0, 0.0], empty()),
            (2, vec![0.0, 1.0, 0.0], empty()),
            (3, vec![0.0, 0.0, 1.0], empty()),
        ],
    );
    let cfg = SearchConfig { top_k: 10, min_score: 0, expand_depth: 0, ..Default::default() };
    let mut ctx = HookContext::new();
    let results = search(&mt, &FilterLowScoreHook, &[1.0, 0.0, 0.0], cfg, &mut ctx).unwrap();
    for result in &results {
        assert!(score(result) > 0.5, "Hook 过滤后不应有低分结果: score={}", score(result));
    }
}

struct ReverseRerankHook;

impl SearchHook for ReverseRerankHook {
    fn on_rerank(&self, hits: &mut Vec<SearchHit>, _: &mut HookContext) -> Option<Vec<SearchHit>> {
        let mut reversed: Vec<SearchHit> = hits.iter().map(|hit| hit.duplicate()).collect();
        reversed.reverse();
        Some(reversed)
    }
}

#[test]
fn test_hook_rerank_reverses_order() {
    let mt = make_memtable(
        3,
        vec![(1, vec![1.0, 0.0, 0.0], empty()), (2, vec![0.7, 0.7, 0.0], empty())],
    );
    let mut ctx = HookContext::new();
    let results =
        search(&mt, &ReverseRerankHook, &[1.0, 0.0, 0.0], default_config(), &mut ctx).unwrap();
    assert!(results.len() >= 2);
    assert_eq!(results[0].id, 2, "rerank 反转后 node 2 应排第一");
}

struct FailingHook;

impl SearchHook for FailingHook {
    fn on_post_search(&self, _: &mut Vec<SearchHit>, ctx: &mut HookContext) {
        ctx.error = Some(HookError { stage: "post".to_string(), reason: "no".to_string() });
    }
}

#[test]
fn a_failing_hook_fails_the_search() {
    let mt = make_memtable(3, vec![(1, vec![1.0, 0.0, 0.0], empty())]);
    let mut ctx = HookContext::new();
    let result = search(&mt, &FailingHook, &[1.0, 0.0, 0.0], default_config(), &mut ctx);
    assert!(matches!(result, Err(TriviumError::HookExecutionError { .. })));
}

struct ShorteningHook;

impl SearchHook for ShorteningHook {
    fn on_pre_search(&self, query: &mut Vec<u32>, _: &mut SearchConfig, _: &mut HookContext) {
        query.pop();
    }
}

#[test]
fn a_query_that_a_hook_shortened_is_refused() {
    let mt = make_memtable(3, vec![(1, vec![1.0, 0.0, 0.0], empty())]);
    let mut ctx = HookContext::new();
    let result = search(&mt, &ShorteningHook, &[1.0, 0.0, 0.0], default_config(), &mut ctx);
    assert!(matches!(result, Err(TriviumError::DimensionMismatch { expected: 3, got: 2 })));
}

#[test]
fn test_pipeline_clamps_extreme_config() {
    let mt = make_memtable(3, vec![(1, vec![1.0, 0.0, 0.0], empty())]);
    let cfg = SearchConfig { top_k: 0, min_score: 0, expand_depth: 0, ..Default::default() };
    let mut ctx = HookContext::new();
    let results = search(&mt, &NoopHook, &[1.0, 0.0, 0.0], cfg, &mut ctx);
    assert!(results.is_ok(), "极端参数不应 panic");
}

#[test]
fn test_pipeline_with_graph_expansion() {
    let mut mt = make_memtable(
        3,
        vec![
            (1, vec![1.0, 0.0, 0.0], one("name", text("seed"))),
            (2, vec![0.0, 1.0, 0.0], one("name", text("neighbor"))),
        ],
    );
    mt.link(1, 2, "related", bits(0.8)).unwrap();
    let cfg = SearchConfig { top_k: 5, min_score: 0, expand_depth: 1, ..Default::default() };
    let mut ctx = HookContext::new();
    let results = search(&mt, &NoopHook, &[1.0, 0.0, 0.0], cfg, &mut ctx).unwrap();
    let ids: Vec<u64> = results.iter().map(|hit| hit.id).collect();
    assert!(ids.contains(&2), "图扩散应将邻居节点 2 纳入结果");
}

#[test]
fn what_the_graph_adds_is_reported_apart() {
    let mut mt = make_memtable(
        2,
        vec![(1, vec![1.0, 0.0], empty()), (2, vec![0.0, 1.0], empty())],
    );
    mt.link(1, 2, "related", bits(0.8)).unwrap();
    let cfg = SearchConfig { top_k: 5, min_score: bits(0.5), expand_depth: 1, ..Default::default() };
    let query = vector(&[1.0, 0.0]);
    let mut ctx = HookContext::new();
    let output = run(&mt, &NoopHook, Some(&query), cfg, &mut ctx).unwrap();
    assert_eq!(output.semantic_hits.len(), 1);
    assert_eq!(output.semantic_hits[0].id, 1);
    assert_eq!(output.graph_hits.len(), 1);
    assert_eq!(output.graph_hits[0].id, 2);
}

#[test]
fn a_search_hands_its_notes_back() {
    let mt = make_memtable(2, vec![(1, vec![1.0, 0.0], empty())]);
    let query = vector(&[1.0, 0.0]);
    let mut ctx = HookContext::new();
    run(&mt, &NoopHook, Some(&query), default_config(), &mut ctx).unwrap();
    let stages: Vec<&str> = ctx.stage_timings.iter().map(|note| note.0.as_str()).collect();
    assert_eq!(
        stages,
        vec![
            "hook_pre_search",
            "hook_custom_recall",
            "vector_recall",
            "hook_post_recall",
            "hook_pre_graph_expand",
            "graph_expand",
            "hook_rerank",
            "hook_post_search"
        ]
    );
    let counts: Vec<(&str, usize)> =
        ctx.stage_counts.iter().map(|note| (note.0.as_str(), note.1)).collect();
    assert_eq!(
        counts,
        vec![("dense_recall", 1), ("sparse_recall", 0), ("fused_recall", 1), ("rerank", 1)]
    );
    let figures: Vec<(&str, u64)> =
        ctx.observations.iter().map(|note| (note.0.as_str(), note.1)).collect();
    assert_eq!(
        figures,
        vec![
            ("node_count", 1),
            ("generation", 3),
            ("vector_route_quiver", 0),
            ("vector_recall_candidates", 1),
            ("quiver_ef_search", 512)
        ]
    );
    let mut untouched = HookContext::new();
    let wrong = vector(&[1.0]);
    assert!(run(&mt, &NoopHook, Some(&wrong), default_config(), &mut untouched).is_err());
    assert!(untouched.stage_timings.is_empty());
}

#[test]
fn a_build_beyond_the_memory_limit_refuses_a_search() {
    let mt = make_memtable(2, vec![(1, vec![1.0, 0.0], empty())]);
    let query = vector(&[1.0, 0.0]);
    let mut ctx = HookContext::new();
    let refused = execute_pipeline_with_limit(
        &mt,
        1 << 20,
        Some((1 << 20, 1 << 21)),
        &NoopHook,
        &brute(),
        &similarity,
        &arithmetic(),
        &energies(),
        &open_gate,
        None,
        Some(&query),
        default_config(),
        &mut BTreeSet::new(),
        &mut ctx,
    );
    match refused {
        Err(TriviumError::InvalidInput(text)) => {
            assert_eq!(text, "QuIVer 自动构建预计峰值 3MB 超过内存上限 1MB")
        }
        _ => panic!("three megabytes are more than one"),
    }
    assert!(ctx.stage_timings.is_empty());
}

#[test]
fn a_search_tires_the_best_nodes() {
    let mut mt = make_memtable(
        2,
        vec![(1, vec![1.0, 0.0], empty()), (2, vec![0.0, 1.0], empty())],
    );
    mt.link(1, 2, "related", bits(0.8)).unwrap();
    let cfg = SearchConfig {
        top_k: 5,
        min_score: bits(0.5),
        expand_depth: 1,
        enable_refractory_fatigue: true,
        ..Default::default()
    };
    let query = vector(&[1.0, 0.0]);
    let mut tired = BTreeSet::new();
    execute_pipeline_with_limit(
        &mt,
        0,
        None,
        &NoopHook,
        &brute(),
        &similarity,
        &arithmetic(),
        &energies(),
        &open_gate,
        None,
        Some(&query),
        cfg,
        &mut tired,
        &mut HookContext::new(),
    )
    .unwrap();
    assert!(tired.contains(&2));
}

#[test]
fn memory_for_a_build_is_checked() {
    assert!(check_build_memory(10, 20, 0).is_ok());
    assert!(check_build_memory(10, 20, 30).is_ok());
    assert!(check_build_memory(10, 21, 30).is_err());
}

struct Settings {
    alpha: f32,
    threshold: usize,
    fatigue: bool,
    bias: Option<Vec<u32>>,
    labels: Option<Vec<String>>,
    most: usize,
    least: f32,
    direction: EdgeDirection,
    tired: BTreeSet<u64>,
}

impl Default for Settings {
    fn default() -> Settings {
        Settings {
            alpha: 0.0,
            threshold: 0,
            fatigue: false,
            bias: None,
            labels: None,
            most: 0,
            least: 0.0,
            direction: EdgeDirection::Outgoing,
            tired: BTreeSet::new(),
        }
    }
}

fn spread(
    mt: &MemTable<F32>,
    seed: SearchHit,
    depth: usize,
    settings: &Settings,
    gate: fn(&Vec<u32>, &Vec<F32>) -> u32,
) -> Expansion {
    expand_graph_with_labels(
        mt,
        vec![seed],
        depth,
        bits(settings.alpha),
        false,
        settings.threshold,
        settings.fatigue,
        settings.bias.as_ref(),
        settings.labels.as_ref(),
        settings.most,
        bits(settings.least),
        settings.direction,
        &settings.tired,
        &energies(),
        &gate,
    )
}

fn labels(names: &[&str]) -> Option<Vec<String>> {
    Some(names.iter().map(|name| name.to_string()).collect())
}

fn star() -> MemTable<F32> {
    let mut mt = make_memtable(
        1,
        vec![
            (1, vec![1.0], empty()),
            (2, vec![1.0], empty()),
            (3, vec![1.0], empty()),
            (4, vec![1.0], empty()),
        ],
    );
    mt.link(1, 2, "a", bits(1.0)).unwrap();
    mt.link(1, 3, "b", bits(3.0)).unwrap();
    mt.link(1, 4, "inhibition", bits(4.0)).unwrap();
    mt
}

fn energy(hits: &Vec<SearchHit>, id: u64) -> f32 {
    score(hits.iter().find(|hit| hit.id == id).unwrap())
}

#[test]
fn energy_is_shared_by_weight() {
    let expansion = spread(&star(), hit(1, 1.0), 1, &Settings::default(), open_gate);
    assert_eq!(expansion.hits.len(), 4);
    assert_eq!(energy(&expansion.hits, 1), 1.0);
    assert_eq!(energy(&expansion.hits, 2), 0.125);
    assert_eq!(energy(&expansion.hits, 3), 0.375);
    assert_eq!(energy(&expansion.hits, 4), -0.5);
    assert_eq!(expansion.hits[0].id, 1);
    assert_eq!(expansion.hits[3].id, 4);
}

#[test]
fn energy_follows_the_wanted_labels_alone() {
    let mt = star();
    let settings = Settings { labels: labels(&["b"]), ..Settings::default() };
    let expansion = spread(&mt, hit(1, 1.0), 1, &settings, open_gate);
    assert_eq!(expansion.hits.len(), 2);
    assert_eq!(energy(&expansion.hits, 3), 1.0);
    let unlabelled = expand_graph(
        &mt,
        vec![hit(1, 1.0)],
        1,
        bits(0.0),
        false,
        0,
        false,
        None,
        &BTreeSet::new(),
        &energies(),
        &open_gate,
    );
    assert_eq!(unlabelled.hits.len(), 4);
}

fn reached(expansion: &Expansion) -> Vec<u64> {
    let mut ids: Vec<u64> = expansion.hits.iter().map(|hit| hit.id).collect();
    ids.sort();
    ids
}

#[test]
fn energy_follows_the_wanted_direction() {
    let mut mt = star();
    mt.link(4, 1, "a", bits(2.0)).unwrap();
    let against = Settings { direction: EdgeDirection::Incoming, ..Settings::default() };
    let expansion = spread(&mt, hit(1, 1.0), 1, &against, open_gate);
    assert_eq!(reached(&expansion), vec![1, 4]);
    assert_eq!(energy(&expansion.hits, 4), 1.0);
    let from_leaf = spread(&mt, hit(3, 1.0), 1, &against, open_gate);
    assert_eq!(reached(&from_leaf), vec![1, 3]);
    let both = Settings {
        direction: EdgeDirection::Both,
        labels: labels(&["a", "b"]),
        ..Settings::default()
    };
    let expansion = spread(&mt, hit(1, 1.0), 1, &both, open_gate);
    assert_eq!(reached(&expansion), vec![1, 2, 3, 4]);
    assert_eq!(energy(&expansion.hits, 2), 1.0 / 6.0);
    assert_eq!(energy(&expansion.hits, 3), 0.5);
    assert_eq!(energy(&expansion.hits, 4), 2.0 / 6.0);
}

#[test]
fn light_edges_are_not_followed() {
    let settings = Settings { least: 3.0, ..Settings::default() };
    let expansion = spread(&star(), hit(1, 1.0), 1, &settings, open_gate);
    assert_eq!(reached(&expansion), vec![1, 3, 4]);
    assert_eq!(energy(&expansion.hits, 3), 3.0 / 7.0);
    let mut mt = star();
    mt.link(2, 3, "a", bits(-1.0)).unwrap();
    let expansion = spread(&mt, hit(2, 1.0), 1, &Settings::default(), open_gate);
    assert_eq!(energy(&expansion.hits, 3), -1.0);
    let settings = Settings { least: 0.5, ..Settings::default() };
    let expansion = spread(&mt, hit(2, 1.0), 1, &settings, open_gate);
    assert_eq!(reached(&expansion), vec![2]);
}

#[test]
fn a_node_sends_along_so_many_edges() {
    let settings = Settings { most: 2, ..Settings::default() };
    let expansion = spread(&star(), hit(1, 1.0), 1, &settings, open_gate);
    assert_eq!(reached(&expansion), vec![1, 2, 3]);
    assert_eq!(energy(&expansion.hits, 2), 0.25);
    let settings = Settings { most: 1, least: 2.0, ..Settings::default() };
    let expansion = spread(&star(), hit(1, 1.0), 1, &settings, open_gate);
    assert_eq!(reached(&expansion), vec![1, 3]);
    let settings = Settings { most: 9, ..Settings::default() };
    assert_eq!(reached(&spread(&star(), hit(1, 1.0), 1, &settings, open_gate)).len(), 4);
}

#[test]
fn a_search_keeps_to_its_edge_settings() {
    let found = |cfg: SearchConfig| -> Vec<u64> {
        let mut mt = make_memtable(
            2,
            vec![
                (1, vec![1.0, 0.0], empty()),
                (2, vec![0.0, 1.0], empty()),
                (3, vec![0.0, 1.0], empty()),
                (4, vec![0.0, 1.0], empty()),
            ],
        );
        mt.link(1, 2, "a", bits(1.0)).unwrap();
        mt.link(1, 3, "a", bits(3.0)).unwrap();
        mt.link(4, 1, "a", bits(1.0)).unwrap();
        let query = vec![F32 { bits: bits(1.0) }, F32 { bits: bits(0.0) }];
        let output = execute_pipeline_with_limit(
            &mt,
            0,
            None,
            &NoopHook,
            &brute(),
            &similarity,
            &arithmetic(),
            &energies(),
            &open_gate,
            None,
            Some(&query),
            SearchConfig {
                top_k: 5,
                min_score: bits(0.5),
                expand_depth: 1,
                force_brute_force: true,
                ..cfg
            },
            &mut BTreeSet::new(),
            &mut HookContext::new(),
        )
        .unwrap();
        let mut ids: Vec<u64> = output.graph_hits.iter().map(|hit| hit.id).collect();
        ids.sort();
        ids
    };
    assert_eq!(found(SearchConfig::default()), vec![2, 3]);
    let incoming =
        SearchConfig { edge_direction: EdgeDirection::Incoming, ..SearchConfig::default() };
    assert_eq!(found(incoming), vec![4]);
    let both = SearchConfig { edge_direction: EdgeDirection::Both, ..SearchConfig::default() };
    assert_eq!(found(both), vec![2, 3, 4]);
    let heavy = SearchConfig { min_edge_weight: bits(2.0), ..SearchConfig::default() };
    assert_eq!(found(heavy), vec![3]);
    let few = SearchConfig { max_edges_per_node: 1, ..SearchConfig::default() };
    assert_eq!(found(few), vec![2]);
}

#[test]
fn popular_nodes_take_less() {
    let mut mt = star();
    mt.link(4, 2, "a", bits(1.0)).unwrap();
    let expansion = expand_graph(
        &mt,
        vec![hit(1, 1.0)],
        1,
        bits(0.0),
        true,
        0,
        false,
        None,
        &BTreeSet::new(),
        &energies(),
        &open_gate,
    );
    assert_eq!(energy(&expansion.hits, 2), 1.0 / 2.0f32.powf(0.55) / 8.0);
    assert_eq!(energy(&expansion.hits, 3), 0.375);
}

#[test]
fn energy_without_a_way_on_returns_to_the_seeds() {
    let expansion = spread(&star(), hit(2, 1.0), 2, &Settings::default(), open_gate);
    assert_eq!(expansion.hits.len(), 1);
    assert_eq!(energy(&expansion.hits, 2), 3.0);
}

#[test]
fn a_part_of_the_energy_restarts() {
    let settings = Settings { alpha: 0.25, labels: labels(&["a"]), ..Settings::default() };
    let expansion = spread(&star(), hit(1, 1.0), 1, &settings, open_gate);
    assert_eq!(energy(&expansion.hits, 1), 1.25);
    assert_eq!(energy(&expansion.hits, 2), 0.75);
}

#[test]
fn tired_nodes_take_less_and_rest() {
    let mut settings = Settings { fatigue: true, labels: labels(&["a"]), ..Settings::default() };
    settings.tired.insert(2);
    let expansion = spread(&star(), hit(1, 1.0), 1, &settings, open_gate);
    assert_eq!(energy(&expansion.hits, 2), 0.15);
    assert_eq!(expansion.rested, vec![2]);
    assert_eq!(expansion.tired, vec![1]);
}

#[test]
fn a_direction_damps_what_it_does_not_prefer() {
    let settings = Settings {
        bias: Some(vec![bits(1.0)]),
        labels: labels(&["a"]),
        ..Settings::default()
    };
    let expansion = spread(&star(), hit(1, 1.0), 1, &settings, half_gate);
    assert_eq!(energy(&expansion.hits, 2), 0.5);
}

#[test]
fn the_strongest_nodes_go_on() {
    let mut mt = star();
    mt.link(2, 4, "a", bits(1.0)).unwrap();
    mt.link(3, 4, "a", bits(1.0)).unwrap();
    let settings = Settings { threshold: 1, labels: labels(&["a", "b"]), ..Settings::default() };
    let expansion = spread(&mt, hit(1, 1.0), 2, &settings, open_gate);
    assert_eq!(energy(&expansion.hits, 4), 0.75);
}

#[test]
fn no_depth_changes_nothing() {
    let expansion = spread(&star(), hit(1, 0.5), 0, &Settings::default(), open_gate);
    assert_eq!(expansion.hits.len(), 1);
    assert_eq!(energy(&expansion.hits, 1), 0.5);
}
