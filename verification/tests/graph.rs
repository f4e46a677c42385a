use std::collections::{BTreeMap, BTreeSet};

use triviumdb::error::TriviumError;
use triviumdb::graph::articulation::articulation_points;
use triviumdb::graph::betweenness::{subset_betweenness, subset_betweenness_parallel};
use triviumdb::graph::bidirectional::shortest_path_bidirectional;
use triviumdb::graph::bounded::{bounded_all_paths, BoundedPathConfig};
use triviumdb::graph::budget::{BudgetDimension, BudgetExhaustionPolicy, TraversalBudget};
use triviumdb::graph::centrality::{
    degree_centrality, subset_degree_centrality, subset_degree_centrality_parallel,
};
use triviumdb::graph::compact::traverse_compact;
use triviumdb::graph::components::strongly_connected_components;
use triviumdb::graph::constrained::rank_within;
use triviumdb::graph::dependency::PathArithmetic;
use triviumdb::graph::harmonic::harmonic_centrality;
use triviumdb::graph::hits::{hits, HitsArithmetic};
use triviumdb::graph::kcore::k_core;
use triviumdb::graph::labels::{
    deterministic_label_propagation, deterministic_label_propagation_parallel,
    LabelPropagationConfig, VoteArithmetic,
};
use triviumdb::graph::layered::{expand_chunk, traverse_compact_parallel, LayeredTraversal};
use triviumdb::graph::pagerank::{
    subset_pagerank, subset_pagerank_parallel, RankArithmetic, SubsetPageRankConfig,
};
use triviumdb::graph::pathfinding::{
    all_paths, k_hop_neighbors, shortest_path, variable_length_paths,
};
use triviumdb::graph::reachability::{
    query_subgraph, traverse, traverse_detailed, ReachabilityConfig, ReachabilityDirection,
};
use triviumdb::graph::similarity::node_similarity;
use triviumdb::graph::subset::{connected_components, subset_wcc, subset_wcc_parallel};
use triviumdb::graph::triangles::triangle_metrics;
use triviumdb::graph::weighted::weighted_dijkstra;
use triviumdb::graph::workspace::{build_workspace, scan_node, GraphWorkspace, NodeScan};
use triviumdb::graph::yen::yen_k_shortest_paths;
use triviumdb::node::Payload;
use triviumdb::storage::memtable::MemTable;
use triviumdb::vector::F32;

fn bits(value: f64) -> u64 {
    value.to_bits()
}

fn number(bits: u64) -> f64 {
    f64::from_bits(bits)
}

fn table(count: u64, edges: &[(u64, u64, &str, f32)]) -> MemTable<F32> {
    let mut mt = MemTable::new(1);
    for id in 1..=count {
        mt.insert_with_id(id, &[F32 { bits: (id as f32).to_bits() }], &Payload::null()).unwrap();
    }
    for &(src, dst, label, weight) in edges {
        mt.link(src, dst, label, weight.to_bits()).unwrap();
    }
    mt
}

fn plain(count: u64, edges: &[(u64, u64)]) -> MemTable<F32> {
    let labelled: Vec<(u64, u64, &str, f32)> =
        edges.iter().map(|&(src, dst)| (src, dst, "e", 1.0)).collect();
    table(count, &labelled)
}

fn ids(count: u64) -> BTreeSet<u64> {
    (1..=count).collect()
}

fn workspace(count: u64, edges: &[(u64, u64)]) -> GraphWorkspace {
    build_workspace(&plain(count, edges), &ids(count), None, 1000, 1_000_000).unwrap()
}

fn diamond() -> MemTable<F32> {
    table(
        5,
        &[
            (1, 2, "road", 1.0),
            (2, 3, "road", 2.0),
            (1, 3, "rail", 5.0),
            (3, 4, "road", 1.0),
        ],
    )
}

fn plus(cost: u64, weight: u32) -> u64 {
    (f64::from_bits(cost) + f32::from_bits(weight) as f64).to_bits()
}

fn ratio(part: usize, whole: usize) -> u64 {
    if whole == 0 {
        0
    } else {
        (part as f64 / whole as f64).to_bits()
    }
}

#[test]
fn shortest_paths_follow_labels_and_depth() {
    let mt = diamond();
    assert_eq!(shortest_path(&mt, 1, 4, 5, None), Some(vec![1, 3, 4]));
    assert_eq!(shortest_path(&mt, 1, 4, 5, Some("road")), Some(vec![1, 2, 3, 4]));
    assert_eq!(shortest_path(&mt, 1, 4, 1, None), None);
    assert_eq!(shortest_path(&mt, 4, 1, 5, None), None);
    assert_eq!(shortest_path(&mt, 2, 2, 0, None), Some(vec![2]));
    let near = k_hop_neighbors(&mt, 1, 1, None);
    assert_eq!(near.get(&3), Some(&1));
    assert_eq!(near.get(&4), None);
}

#[test]
fn ties_go_by_stored_order_or_by_identifier() {
    let mt = plain(4, &[(1, 3), (1, 2), (2, 4), (3, 4)]);
    assert_eq!(shortest_path(&mt, 1, 4, 2, None), Some(vec![1, 3, 4]));
    let both = shortest_path_bidirectional(&mt, 1, 4, None, &TraversalBudget::default()).unwrap();
    assert_eq!(both.path, Some(vec![1, 2, 4]));
}

#[test]
fn all_simple_paths_are_listed() {
    let mt = diamond();
    let mut paths = all_paths(&mt, 1, 4, 5, None, 10);
    paths.sort();
    assert_eq!(paths, vec![vec![1, 2, 3, 4], vec![1, 3, 4]]);
    assert_eq!(all_paths(&mt, 1, 4, 2, None, 10), vec![vec![1, 3, 4]]);
    assert_eq!(all_paths(&mt, 1, 4, 5, None, 1).len(), 1);
    assert!(all_paths(&mt, 1, 4, 5, None, 0).is_empty());
    let ring = plain(2, &[(1, 1), (1, 2), (2, 1)]);
    assert!(all_paths(&ring, 1, 1, 5, None, 10).is_empty());
    assert!(variable_length_paths(&mt, 1, 0, 2, None, 0).is_empty());
    assert_eq!(variable_length_paths(&mt, 1, 0, 2, None, 1), vec![(1, vec![1])]);
    let mut ends: Vec<u64> =
        variable_length_paths(&mt, 1, 2, 2, None, 10).into_iter().map(|found| found.0).collect();
    ends.sort();
    assert_eq!(ends, vec![3, 4]);
}

#[test]
fn searching_from_both_ends_finds_a_shortest_path() {
    let mt = diamond();
    let budget = TraversalBudget::default();
    let output = shortest_path_bidirectional(&mt, 1, 4, None, &budget).unwrap();
    assert_eq!(output.path, Some(vec![1, 3, 4]));
    assert!(!output.truncated);
    let none = shortest_path_bidirectional(&mt, 4, 1, None, &budget).unwrap();
    assert_eq!(none.path, None);
    let empty = TraversalBudget { max_visited_nodes: 0, ..TraversalBudget::default() };
    assert!(shortest_path_bidirectional(&mt, 1, 4, None, &empty).is_err());
    let tight = TraversalBudget { max_examined_edges: 1, ..TraversalBudget::default() };
    assert!(matches!(
        shortest_path_bidirectional(&mt, 1, 4, None, &tight),
        Err(TriviumError::TraversalBudgetExceeded { dimension: BudgetDimension::ExaminedEdges, .. })
    ));
    let lenient = TraversalBudget {
        max_examined_edges: 1,
        exhaustion_policy: BudgetExhaustionPolicy::Partial,
        ..TraversalBudget::default()
    };
    let cut = shortest_path_bidirectional(&mt, 1, 4, None, &lenient).unwrap();
    assert!(cut.truncated);
    assert_eq!(cut.path, None);
    assert_eq!(
        (
            cut.metrics.visited_nodes,
            cut.metrics.examined_edges,
            cut.metrics.peak_frontier_size,
            cut.metrics.depth_reached
        ),
        (3, 1, 2, 1)
    );
    assert_eq!(
        (
            output.metrics.visited_nodes,
            output.metrics.examined_edges,
            output.metrics.peak_frontier_size,
            output.metrics.depth_reached
        ),
        (5, 3, 3, 1)
    );
    let narrow = TraversalBudget {
        max_frontier_size: 2,
        exhaustion_policy: BudgetExhaustionPolicy::Partial,
        ..TraversalBudget::default()
    };
    let wide = shortest_path_bidirectional(&mt, 1, 4, None, &narrow).unwrap();
    assert!(wide.truncated);
    assert_eq!((wide.path, wide.metrics.peak_frontier_size), (None, 3));
}

#[test]
fn bounded_paths_keep_off_forbidden_nodes() {
    let mt = diamond();
    let strength = |weights: &Vec<u32>| (weights.len() as u32, 7);
    let config = BoundedPathConfig {
        max_depth: 5,
        max_paths: 10,
        label_sequence: None,
        forbidden_nodes: BTreeSet::new(),
    };
    let all = bounded_all_paths(&mt, 1, 4, &config, &TraversalBudget::default(), strength).unwrap();
    assert_eq!(all.paths.len(), 2);
    assert_eq!(all.metrics.visited_nodes, 6);
    assert_eq!(all.metrics.examined_edges, 5);
    assert_eq!(all.metrics.peak_frontier_size, 2);
    assert_eq!(all.metrics.depth_reached, 3);
    let mut forbidden = BTreeSet::new();
    forbidden.insert(2u64);
    let narrow = BoundedPathConfig { forbidden_nodes: forbidden, ..config };
    let few = bounded_all_paths(&mt, 1, 4, &narrow, &TraversalBudget::default(), strength).unwrap();
    assert_eq!(few.paths.len(), 1);
    assert_eq!(few.paths[0].nodes, vec![1, 3, 4]);
    assert_eq!(few.paths[0].labels, vec!["rail".to_string(), "road".to_string()]);
    assert_eq!(few.paths[0].strength_product, 2);
    assert_eq!(few.paths[0].strength_average, 7);
}

#[test]
fn reachability_reports_paths_and_depths() {
    let mt = diamond();
    let config = ReachabilityConfig { max_depth: 3, ..Default::default() };
    let output = traverse_detailed(&mt, 1, &config).unwrap();
    let found: Vec<(u64, usize)> =
        output.results.iter().map(|result| (result.target_id, result.depth)).collect();
    assert_eq!(found, vec![(2, 1), (3, 1), (4, 2)]);
    assert_eq!(output.results[2].path, vec![1, 3, 4]);
    assert_eq!(output.results[2].steps[0].label, "rail");
    assert_eq!((output.visited_nodes, output.traversed_edges), (4, 4));
    assert_eq!((output.peak_frontier_size, output.depth_reached), (2, 2));
    let incoming = ReachabilityConfig {
        max_depth: 1,
        direction: ReachabilityDirection::Incoming,
        ..Default::default()
    };
    let back = traverse(&mt, 3, &incoming).unwrap();
    let sources: Vec<u64> = back.iter().map(|result| result.target_id).collect();
    assert_eq!(sources, vec![1, 2]);
    assert!(matches!(traverse(&mt, 99, &config), Err(TriviumError::NodeNotFound(99))));
    let inverted = ReachabilityConfig { min_depth: 3, max_depth: 2, ..Default::default() };
    assert!(traverse(&mt, 1, &inverted).is_err());
    let tight = ReachabilityConfig { max_depth: 3, max_edges: 1, ..Default::default() };
    assert!(matches!(
        traverse(&mt, 1, &tight),
        Err(TriviumError::TraversalBudgetExceeded { .. })
    ));
}

#[test]
fn too_many_results_are_no_silent_loss() {
    let mt = diamond();
    let config = ReachabilityConfig { max_depth: 3, max_results: 2, ..Default::default() };
    match traverse(&mt, 1, &config) {
        Err(TriviumError::QueryExecution(text)) => assert_eq!(
            text,
            "图扩展结果数超过预算 (Graph expansion result budget exceeded)"
        ),
        _ => panic!("three nodes are wanted"),
    }
    assert!(traverse_detailed(&mt, 1, &config).unwrap().truncated);
    let lenient = ReachabilityConfig {
        max_depth: 3,
        max_results: 2,
        exhaustion_policy: BudgetExhaustionPolicy::Partial,
        ..Default::default()
    };
    assert_eq!(traverse(&mt, 1, &lenient).unwrap().len(), 2);
}

#[test]
fn compact_answers_agree_with_detailed_ones() {
    let mt = diamond();
    let config = ReachabilityConfig { max_depth: 3, ..Default::default() };
    let detailed = traverse_detailed(&mt, 1, &config).unwrap();
    let compact = traverse_compact(&mt, 1, &config).unwrap();
    let parallel = traverse_compact_parallel(&mt, 1, &config, 3).unwrap();
    let expected: Vec<(u64, usize)> =
        detailed.results.iter().map(|result| (result.target_id, result.depth)).collect();
    let short: Vec<(u64, usize)> =
        compact.results.iter().map(|hit| (hit.target_id, hit.depth)).collect();
    let wide: Vec<(u64, usize)> =
        parallel.results.iter().map(|hit| (hit.target_id, hit.depth)).collect();
    assert_eq!(short, expected);
    assert_eq!(wide, expected);
    assert_eq!(compact.visited_nodes, parallel.visited_nodes);
    assert_eq!(compact.traversed_edges, parallel.traversed_edges);
}

#[test]
fn a_narrow_frontier_is_refused() {
    let mt = diamond();
    let config = ReachabilityConfig { max_depth: 3, max_frontier_size: 1, ..Default::default() };
    match traverse_detailed(&mt, 1, &config) {
        Err(TriviumError::TraversalBudgetExceeded {
            dimension,
            visited_nodes,
            examined_edges,
            peak_frontier_size,
            depth_reached,
        }) => {
            assert_eq!(dimension, BudgetDimension::FrontierSize);
            assert_eq!((visited_nodes, examined_edges), (3, 2));
            assert_eq!((peak_frontier_size, depth_reached), (1, 1));
        }
        _ => panic!("the frontier holds two nodes"),
    }
    let lenient = ReachabilityConfig {
        max_depth: 3,
        max_frontier_size: 1,
        exhaustion_policy: BudgetExhaustionPolicy::Partial,
        ..Default::default()
    };
    let partial = traverse_detailed(&mt, 1, &lenient).unwrap();
    assert!(partial.truncated);
    let found: Vec<u64> = partial.results.iter().map(|result| result.target_id).collect();
    assert_eq!(found, vec![2, 3]);
    let message = "图扩展前沿超过预算 (Graph expansion frontier budget exceeded)";
    for refused in
        [traverse_compact(&mt, 1, &config), traverse_compact_parallel(&mt, 1, &config, 2)]
    {
        match refused {
            Err(TriviumError::QueryExecution(text)) => assert_eq!(text, message),
            _ => panic!("the frontier holds two nodes"),
        }
    }
}

#[test]
fn layers_do_not_depend_on_the_chunks() {
    let mt = diamond();
    let config = ReachabilityConfig { max_depth: 3, ..Default::default() };
    let mut answers = vec![];
    for workers in [1usize, 2, 7] {
        let mut state = LayeredTraversal::start(&mt, 1, &config).unwrap();
        while !state.finished(&config) {
            let chunks = state.chunks(workers);
            let partials =
                chunks.iter().map(|chunk| expand_chunk(&mt, &config, state.ids(), chunk)).collect();
            state.commit_layer(&mt, &config, &chunks, &partials, 1).unwrap();
        }
        let output = state.finish(&mt, &config, 1);
        let found: Vec<(u64, usize)> =
            output.results.iter().map(|hit| (hit.target_id, hit.depth)).collect();
        answers.push((found, output.visited_nodes, output.traversed_edges));
    }
    assert_eq!(answers[0], answers[1]);
    assert_eq!(answers[0], answers[2]);
}

#[test]
fn a_subgraph_lists_what_paths_touch() {
    let mt = diamond();
    let config = ReachabilityConfig { max_depth: 2, ..Default::default() };
    let result = query_subgraph(&mt, 1, &config).unwrap();
    let nodes: Vec<u64> = result.nodes.iter().map(|node| node.id).collect();
    assert_eq!(nodes, vec![1, 2, 3, 4]);
    assert!(result.edges.iter().any(|edge| edge.source_id == 3 && edge.target_id == 4));
    assert!(!result.truncated);
}

#[test]
fn a_workspace_holds_the_induced_subgraph() {
    let mt = diamond();
    let mut nodes = ids(4);
    nodes.remove(&2);
    let graph = build_workspace(&mt, &nodes, None, 100, 1_000_000).unwrap();
    assert_eq!(graph.directed[&1], vec![3]);
    assert_eq!(graph.reverse[&3], vec![1]);
    assert_eq!(graph.undirected[&3], vec![1, 4]);
    assert_eq!(graph.weighted[&1], vec![(3, 5.0f32.to_bits())]);
    assert_eq!(graph.examined_edges, 3);
    assert!(build_workspace(&mt, &nodes, None, 2, 1_000_000).is_err());
    assert!(build_workspace(&mt, &nodes, None, 100, 1).is_err());
}

#[test]
fn components_are_found() {
    let graph = workspace(6, &[(1, 2), (2, 1), (2, 3), (4, 5), (5, 4)]);
    let strong = strongly_connected_components(&graph);
    assert_eq!(strong[&1], strong[&2]);
    assert_ne!(strong[&2], strong[&3]);
    assert_eq!(strong[&4], strong[&5]);
    assert_eq!(connected_components(&graph), vec![vec![1, 2, 3], vec![4, 5], vec![6]]);
    let mt = plain(6, &[(1, 2), (2, 1), (2, 3), (4, 5), (5, 4)]);
    let (weak, examined) = subset_wcc(&mt, &ids(6), None, 100).unwrap();
    assert_eq!(weak, vec![vec![1, 2, 3], vec![4, 5], vec![6]]);
    assert_eq!(examined, 5);
    assert!(subset_wcc(&mt, &ids(6), None, 4).is_err());
}

#[test]
fn articulation_points_hold_a_graph_together() {
    let graph = workspace(7, &[(1, 2), (2, 3), (3, 1), (3, 4), (4, 5), (6, 7)]);
    let points: Vec<u64> = articulation_points(&graph).into_iter().collect();
    assert_eq!(points, vec![3, 4]);
    let ring = workspace(4, &[(1, 2), (2, 3), (3, 4), (4, 1)]);
    assert!(articulation_points(&ring).is_empty());
    let star = workspace(4, &[(1, 2), (1, 3), (1, 4)]);
    assert_eq!(articulation_points(&star).into_iter().collect::<Vec<u64>>(), vec![1]);
}

#[test]
fn core_numbers_peel_the_graph() {
    let graph = workspace(5, &[(1, 2), (2, 3), (3, 1), (3, 4)]);
    let cores = k_core(&graph);
    assert_eq!(cores[&1], 2);
    assert_eq!(cores[&3], 2);
    assert_eq!(cores[&4], 1);
    assert_eq!(cores[&5], 0);
}

#[test]
fn triangles_are_counted() {
    let graph = workspace(4, &[(1, 2), (2, 3), (3, 1), (3, 4)]);
    let coefficient = |count: u64, degree: usize| {
        if degree < 2 {
            0
        } else {
            bits(2.0 * count as f64 / (degree * (degree - 1)) as f64)
        }
    };
    let metrics = triangle_metrics(&graph, 1000, coefficient).unwrap();
    assert_eq!(metrics[&1].0, 1);
    assert_eq!(number(metrics[&1].1), 1.0);
    assert_eq!(metrics[&3].0, 1);
    assert_eq!(number(metrics[&3].1), 1.0 / 3.0);
    assert_eq!(metrics[&4].0, 0);
    assert!(triangle_metrics(&graph, 0, coefficient).is_err());
}

#[test]
fn similar_nodes_share_neighbors() {
    let graph = workspace(4, &[(1, 3), (1, 4), (2, 3), (2, 4)]);
    let result = node_similarity(&graph, 10, bits(0.0), 1000, 1_000_000, ratio).unwrap();
    let first = &result.pairs()[0];
    assert_eq!((first.left, first.right), (1, 2));
    assert_eq!(number(first.similarity), 1.0);
    assert!(node_similarity(&graph, 0, bits(0.0), 1000, 1_000_000, ratio).is_err());
    assert!(node_similarity(&graph, 10, bits(f64::NAN), 1000, 1_000_000, ratio).is_err());
    assert!(node_similarity(&graph, 10, bits(0.0), 0, 1_000_000, ratio).is_err());
}

#[test]
fn degrees_are_counted_and_ranked() {
    let graph = workspace(3, &[(1, 2), (1, 3), (2, 1)]);
    let entries = degree_centrality(&graph, ratio);
    assert_eq!(entries[0].id, 1);
    assert_eq!(entries[0].out_degree, 2);
    assert_eq!(entries[0].in_degree, 1);
    assert_eq!(entries[0].total_degree, 3);
    assert_eq!(number(entries[0].normalized), 0.75);
    let mt = plain(3, &[(1, 2), (1, 3), (2, 1)]);
    let (same, examined) = subset_degree_centrality(&mt, &ids(3), None, 10, ratio).unwrap();
    assert_eq!(same[0].id, 1);
    assert_eq!(examined, 3);
    assert!(subset_degree_centrality(&mt, &ids(3), None, 2, ratio).is_err());
}

fn sum(a: u64, b: u64) -> u64 {
    bits(number(a) + number(b))
}

fn gap(a: u64, b: u64) -> u64 {
    bits((number(a) - number(b)).abs())
}

fn even(count: usize) -> u64 {
    bits(1.0 / count as f64)
}

fn base(held: u64, count: usize) -> u64 {
    bits(0.15 / count as f64 + 0.85 * number(held) / count as f64)
}

fn share(score: u64, count: usize) -> u64 {
    bits(0.85 * number(score) / count as f64)
}

type Count = fn(usize) -> u64;
type Spread = fn(u64, usize) -> u64;
type Binary = fn(u64, u64) -> u64;

fn ranks() -> RankArithmetic<Count, Spread, Spread, Binary, Binary> {
    RankArithmetic { even, base, share, plus: sum, gap }
}

#[test]
fn pagerank_repeats_its_step_until_it_settles() {
    let mt = plain(3, &[(1, 3), (2, 3), (3, 1)]);
    let config = SubsetPageRankConfig::default();
    let found = subset_pagerank(&mt, &ids(3), config, None, 100, &ranks()).unwrap();
    assert!(found.converged);
    assert_eq!(found.scores[0].0, 3);
    let total: f64 = found.scores.iter().map(|score| number(score.1)).sum();
    assert!((total - 1.0).abs() < 1e-9);
    let bad = SubsetPageRankConfig { damping: bits(1.0), ..SubsetPageRankConfig::default() };
    assert!(subset_pagerank(&mt, &ids(3), bad, None, 100, &ranks()).is_err());
    assert!(subset_pagerank(&mt, &ids(3), config, None, 2, &ranks()).is_err());
    let none = subset_pagerank(&mt, &BTreeSet::new(), config, None, 2, &ranks()).unwrap();
    assert!(none.scores.is_empty() && none.converged);
}

#[test]
fn one_round_of_pagerank_passes_scores_on() {
    let mt = plain(2, &[(1, 2)]);
    let config =
        SubsetPageRankConfig { max_iterations: 1, ..SubsetPageRankConfig::default() };
    let found = subset_pagerank(&mt, &ids(2), config, None, 100, &ranks()).unwrap();
    let floor = 0.15 / 2.0 + 0.85 * 0.5 / 2.0;
    let passed = floor + 0.85 * 0.5 / 1.0;
    assert_eq!(found.scores, vec![(2, bits(passed)), (1, bits(floor))]);
    assert_eq!((found.iterations, found.converged), (1, false));
    assert_eq!(number(found.residual_l1), (floor - 0.5f64).abs() + (passed - 0.5f64).abs());
}

fn authority() -> HitsArithmetic<Count, Binary, Binary, fn(u64) -> u64, Binary, Binary> {
    HitsArithmetic {
        even: |count: usize| bits(1.0 / (count as f64).sqrt()),
        plus: sum,
        times: |a: u64, b: u64| bits(number(a) * number(b)),
        root: |a: u64| bits(number(a).sqrt()),
        over: |a: u64, b: u64| bits(number(a) / number(b)),
        gap,
    }
}

#[test]
fn hubs_and_authorities_repeat_their_step() {
    let graph = workspace(3, &[(1, 3), (2, 3)]);
    let scores = hits(&graph, 10, bits(1e-6), 1000, &authority()).unwrap();
    assert_eq!(number(scores[&3].0), 1.0);
    assert_eq!(number(scores[&3].1), 0.0);
    assert_eq!(number(scores[&1].0), 0.0);
    assert_eq!(scores[&1].1, scores[&2].1);
    assert!((number(scores[&1].1) - 0.5f64.sqrt()).abs() < 1e-12);
    assert!(hits(&graph, 0, bits(1e-6), 1000, &authority()).is_err());
    assert!(hits(&graph, 10, bits(-1.0), 1000, &authority()).is_err());
    assert!(hits(&graph, 10, bits(1e-6), 0, &authority()).is_err());
    assert!(hits(&graph, 1, bits(1e-6), 4, &authority()).is_ok());
    assert!(hits(&graph, 1, bits(1e-6), 3, &authority()).is_err());
    assert!(hits(&workspace(0, &[]), 1, bits(1e-6), 3, &authority()).unwrap().is_empty());
}

#[test]
fn labels_spread_until_nothing_changes() {
    let mt = plain(6, &[(1, 2), (2, 3), (3, 1), (4, 5), (5, 6), (6, 4)]);
    let arithmetic = VoteArithmetic {
        with_weight: plus,
        plus: |a: u64, b: u64| bits(number(a) + number(b)),
    };
    let config = LabelPropagationConfig { max_iterations: 20, min_community_size: 2 };
    let result =
        deterministic_label_propagation(&mt, &ids(6), config, None, 100, &arithmetic).unwrap();
    assert!(result.converged);
    assert_eq!(result.node_to_community[&1], result.node_to_community[&3]);
    assert_eq!(result.node_to_community[&4], result.node_to_community[&6]);
    assert_ne!(result.node_to_community[&1], result.node_to_community[&4]);
    let never = LabelPropagationConfig { max_iterations: 0, min_community_size: 2 };
    assert!(deterministic_label_propagation(&mt, &ids(6), never, None, 100, &arithmetic).is_err());
}

#[test]
fn the_cheapest_route_wins() {
    let graph = build_workspace(&diamond(), &ids(5), None, 100, 1_000_000).unwrap();
    let path = weighted_dijkstra(&graph, 1, 4, 1000, &plus).unwrap().unwrap();
    assert_eq!(path.nodes, vec![1, 2, 3, 4]);
    assert_eq!(number(path.cost), 4.0);
    assert!(weighted_dijkstra(&graph, 4, 1, 1000, &plus).unwrap().is_none());
    assert!(weighted_dijkstra(&graph, 1, 4, 1, &plus).is_err());
    let negative = table(2, &[(1, 2, "e", -1.0)]);
    let refused = build_workspace(&negative, &ids(2), None, 10, 1_000_000).unwrap();
    assert!(matches!(
        weighted_dijkstra(&refused, 1, 2, 1000, &plus),
        Err(TriviumError::InvalidInput(_))
    ));
}

#[test]
fn further_routes_come_by_cost() {
    let graph = build_workspace(&diamond(), &ids(5), None, 100, 1_000_000).unwrap();
    let paths = yen_k_shortest_paths(&graph, 1, 4, 5, 1000, 100, &plus).unwrap();
    assert_eq!(paths.len(), 2);
    assert_eq!(paths[0].nodes, vec![1, 2, 3, 4]);
    assert_eq!(paths[1].nodes, vec![1, 3, 4]);
    assert_eq!(number(paths[1].cost), 6.0);
    assert_eq!(yen_k_shortest_paths(&graph, 1, 4, 1, 1000, 100, &plus).unwrap().len(), 1);
    assert!(yen_k_shortest_paths(&graph, 4, 1, 2, 1000, 100, &plus).unwrap().is_empty());
}

#[test]
fn near_nodes_count_more() {
    let graph = build_workspace(&diamond(), &ids(5), None, 100, 1_000_000).unwrap();
    let score = |list: &Vec<u64>| bits(list.iter().map(|cost| 1.0 / number(*cost)).sum());
    let scores = harmonic_centrality(&graph, 1000, &plus, &score).unwrap();
    assert_eq!(number(scores[&1]), 1.0 + 1.0 / 3.0 + 0.25);
    assert_eq!(number(scores[&3]), 1.0);
    assert_eq!(number(scores[&5]), 0.0);
    assert!(harmonic_centrality(&graph, 1, &plus, &score).is_err());
}

fn through() -> PathArithmetic<Binary, fn(u64, u64, u64) -> u64, fn(u64, usize, usize) -> u64> {
    PathArithmetic {
        plus: sum,
        share: |near: u64, far: u64, held: u64| {
            bits(number(near) / number(far) * (1.0 + number(held)))
        },
        score: |value: u64, nodes: usize, sources: usize| {
            let pairs = (nodes as f64 - 1.0) * (nodes as f64 - 2.0);
            bits(number(value) / pairs * (nodes as f64 / sources as f64))
        },
    }
}

#[test]
fn betweenness_counts_shortest_paths() {
    let mt = plain(3, &[(1, 2), (2, 3)]);
    let result =
        subset_betweenness(&mt, &ids(3), None, None, 100, &through()).unwrap();
    assert!(result.exact);
    assert_eq!(result.sampled_sources, 3);
    assert_eq!(result.scores[0], (2, bits(0.5)));
    assert_eq!(result.examined_edges, 2 + 2 + 1);
    let sampled =
        subset_betweenness(&mt, &ids(3), None, Some(1), 100, &through()).unwrap();
    assert!(!sampled.exact);
    assert_eq!(sampled.sampled_sources, 1);
    assert!(subset_betweenness(&mt, &ids(3), None, Some(0), 100, &through()).is_err());
    assert!(subset_betweenness(&mt, &ids(3), None, None, 4, &through()).is_err());
    assert!(subset_betweenness(&mt, &ids(3), None, None, 5, &through()).is_ok());
}

#[test]
fn anchors_are_ranked_by_similarity() {
    let mt = plain(4, &[]);
    let similarity = |_: &[F32], vector: &Vec<F32>| vector[0].bits;
    let query = [F32 { bits: 1.0f32.to_bits() }];
    let hits = rank_within(&mt, &query, &vec![1, 3, 2, 3], 2, 10, similarity).unwrap();
    let found: Vec<u64> = hits.iter().map(|hit| hit.id).collect();
    assert_eq!(found, vec![3, 2]);
    assert!(rank_within(&mt, &query, &vec![1, 2, 3], 2, 2, similarity).is_err());
    let wide = [query[0], query[0]];
    assert!(matches!(
        rank_within(&mt, &wide, &vec![1], 2, 10, similarity),
        Err(TriviumError::DimensionMismatch { expected: 1, got: 2 })
    ));
}

fn backwards(mt: &MemTable<F32>, nodes: &BTreeSet<u64>, list: &Vec<u64>) -> Vec<NodeScan> {
    let mut scans: Vec<NodeScan> =
        list.iter().rev().map(|id| scan_node(mt, nodes, None, *id)).collect();
    scans.reverse();
    scans
}

#[test]
fn scans_in_any_order_give_the_same_components_and_degrees() {
    let mut mt = plain(6, &[(1, 2), (2, 1), (2, 3), (4, 5), (5, 4)]);
    mt.link(4, 5, "other", 1.0f32.to_bits()).unwrap();
    let nodes = ids(6);
    let scan_all = |list: &Vec<u64>| backwards(&mt, &nodes, list);
    let scan = scan_node(&mt, &nodes, None, 4);
    assert_eq!((scan.targets, scan.edges), (vec![5], 2));
    assert_eq!(
        subset_wcc_parallel(&mt, &nodes, None, 100, scan_all).unwrap(),
        subset_wcc(&mt, &nodes, None, 100).unwrap()
    );
    assert!(subset_wcc_parallel(&mt, &nodes, None, 5, scan_all).is_err());
    assert!(subset_wcc_parallel(&mt, &nodes, None, 6, scan_all).is_ok());
    let (degrees, examined) =
        subset_degree_centrality_parallel(&mt, &nodes, None, 100, ratio, scan_all).unwrap();
    assert_eq!(
        (degrees.clone(), examined),
        subset_degree_centrality(&mt, &nodes, None, 100, ratio).unwrap()
    );
    assert_eq!((degrees[0].id, degrees[0].total_degree, examined), (2, 3, 6));
    assert!(subset_degree_centrality_parallel(&mt, &nodes, None, 5, ratio, scan_all).is_err());
}

#[test]
fn scans_in_any_order_give_the_same_ranks() {
    let mt = plain(3, &[(1, 3), (2, 3), (3, 1)]);
    let nodes = ids(3);
    let scan_all = |list: &Vec<u64>| backwards(&mt, &nodes, list);
    let arithmetic = ranks();
    let rank_all = |graph: &GraphWorkspace,
                    list: &Vec<u64>,
                    scores: &BTreeMap<u64, u64>,
                    floor: u64| {
        let mut next: Vec<u64> = list
            .iter()
            .rev()
            .map(|id| arithmetic.rank_node(graph, scores, floor, *id))
            .collect();
        next.reverse();
        next
    };
    let config = SubsetPageRankConfig::default();
    let one = subset_pagerank(&mt, &nodes, config, None, 100, &arithmetic).unwrap();
    let other = subset_pagerank_parallel(
        &mt,
        &nodes,
        config,
        None,
        100,
        &arithmetic,
        scan_all,
        rank_all,
    )
    .unwrap();
    assert_eq!(one.scores, other.scores);
    assert_eq!((one.iterations, one.residual_l1), (other.iterations, other.residual_l1));
    assert!(subset_pagerank_parallel(
        &mt,
        &nodes,
        config,
        None,
        2,
        &arithmetic,
        scan_all,
        rank_all
    )
    .is_err());
}

#[test]
fn votes_in_any_order_give_the_same_communities() {
    let mt = plain(6, &[(1, 2), (2, 3), (3, 1), (4, 5), (5, 6), (6, 4)]);
    let arithmetic = VoteArithmetic {
        with_weight: plus,
        plus: |a: u64, b: u64| bits(number(a) + number(b)),
    };
    let pick_all = |list: &Vec<u64>,
                    ties: &BTreeMap<u64, Vec<(u64, u64)>>,
                    labels: &BTreeMap<u64, u64>| {
        let mut picked: Vec<u64> =
            list.iter().rev().map(|id| arithmetic.pick_label(&ties[id], labels, *id)).collect();
        picked.reverse();
        picked
    };
    let config = LabelPropagationConfig { max_iterations: 20, min_community_size: 2 };
    let one =
        deterministic_label_propagation(&mt, &ids(6), config, None, 100, &arithmetic).unwrap();
    let other = deterministic_label_propagation_parallel(
        &mt,
        &ids(6),
        config,
        None,
        100,
        &arithmetic,
        pick_all,
    )
    .unwrap();
    assert_eq!(one.node_to_community, other.node_to_community);
    assert_eq!((one.iterations, one.converged), (other.iterations, other.converged));
    assert!(deterministic_label_propagation_parallel(
        &mt,
        &ids(6),
        config,
        None,
        5,
        &arithmetic,
        pick_all
    )
    .is_err());
}

#[test]
fn searches_in_any_order_give_the_same_betweenness() {
    let mt = plain(4, &[(1, 2), (2, 3), (3, 4), (2, 4)]);
    let arithmetic = through();
    let search_all = |graph: &GraphWorkspace, list: &Vec<u64>, sources: usize| {
        let mut parts: Vec<BTreeMap<u64, u64>> = list[..sources]
            .iter()
            .rev()
            .map(|source| arithmetic.parts_from(graph, *source))
            .collect();
        parts.reverse();
        parts
    };
    let one = subset_betweenness(&mt, &ids(4), None, None, 100, &through()).unwrap();
    let other = subset_betweenness_parallel(
        &mt,
        &ids(4),
        None,
        None,
        100,
        &arithmetic,
        search_all,
    )
    .unwrap();
    assert_eq!(one.scores, other.scores);
    assert_eq!((one.sampled_sources, one.exact), (other.sampled_sources, other.exact));
    assert_eq!(other.examined_edges, 4 + 4 * 4);
    assert!(subset_betweenness_parallel(
        &mt,
        &ids(4),
        None,
        None,
        19,
        &arithmetic,
        search_all
    )
    .is_err());
    let diamond = plain(4, &[(1, 2), (1, 3), (2, 4), (3, 4)]);
    let half = subset_betweenness(&diamond, &ids(4), None, None, 100, &arithmetic).unwrap();
    assert_eq!(half.scores[0], (2, bits(0.5 / 6.0)));
    assert_eq!(half.scores[1], (3, bits(0.5 / 6.0)));
}

#[test]
fn path_searches_agree_with_each_other() {
    let mt = plain(6, &[(1, 2), (2, 3), (3, 6), (1, 4), (4, 6), (6, 1)]);
    let budget = TraversalBudget {
        exhaustion_policy: BudgetExhaustionPolicy::Partial,
        ..TraversalBudget::default()
    };
    for src in 1..=6 {
        for dst in 1..=6 {
            let single = shortest_path(&mt, src, dst, budget.max_depth, None);
            let both = shortest_path_bidirectional(&mt, src, dst, None, &budget).unwrap().path;
            assert_eq!(
                single.as_ref().map(|path| path.len()),
                both.as_ref().map(|path| path.len())
            );
            let all = all_paths(&mt, src, dst, 6, None, 100);
            if src != dst {
                assert_eq!(single.is_some(), !all.is_empty());
                assert!(single.into_iter().all(|path| all.contains(&path)
                    && all.iter().all(|other| path.len() <= other.len())));
            }
        }
    }
}

#[test]
fn anchors_count_once_in_any_order() {
    let mt = plain(4, &[]);
    let similarity = |_: &[F32], vector: &Vec<F32>| vector[0].bits;
    let query = [F32 { bits: 1.0f32.to_bits() }];
    let found = |anchors: Vec<u64>| -> Vec<u64> {
        let hits = rank_within(&mt, &query, &anchors, 3, 3, similarity).unwrap();
        hits.iter().map(|hit| hit.id).collect()
    };
    assert_eq!(found(vec![1, 2, 4]), vec![4, 2, 1]);
    assert_eq!(found(vec![4, 1, 4, 2, 1, 1]), vec![4, 2, 1]);
}
