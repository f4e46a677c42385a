use std::collections::{BTreeMap, BTreeSet, HashMap, HashSet};

use triviumdb::graph::centroids::{compute_centroids, MeanArithmetic};
use triviumdb::graph::leiden::{
    refine_connected, run_leiden, AdjacencySnapshot, LeidenArithmetic, LeidenConfig, LeidenResult,
    WeightedGraph,
};
use triviumdb::graph::moving::MoveArithmetic;

fn widen(weight: u32) -> u64 {
    (f32::from_bits(weight) as f64).to_bits()
}

fn plus(a: u64, b: u64) -> u64 {
    (f64::from_bits(a) + f64::from_bits(b)).to_bits()
}

fn minus(a: u64, b: u64) -> u64 {
    (f64::from_bits(a) - f64::from_bits(b)).to_bits()
}

fn gain(inside: u64, degree: u64, total: u64, all: u64) -> u64 {
    let share = f64::from_bits(degree) * f64::from_bits(total) / f64::from_bits(all);
    (f64::from_bits(inside) - share).to_bits()
}

fn better(gain: u64, best: u64, smaller: bool) -> bool {
    let (gain, best) = (f64::from_bits(gain), f64::from_bits(best));
    gain > best + 1e-12 || ((gain - best).abs() <= 1e-12 && smaller)
}

fn negligible(all: u64) -> bool {
    f64::from_bits(all) <= f64::EPSILON
}

type Paired = fn(u64, u64) -> u64;

fn moving() -> MoveArithmetic<
    Paired,
    Paired,
    fn(u64, u64, u64, u64) -> u64,
    fn(u64, u64, bool) -> bool,
    fn(u64) -> bool,
> {
    MoveArithmetic { plus, minus, gain, better, negligible }
}

fn make_snapshot(edges: Vec<(u64, u64, f32)>) -> AdjacencySnapshot {
    let mut adjacency: HashMap<u64, Vec<(u64, u32)>> = HashMap::new();
    let mut all = HashSet::new();
    for (src, dst, weight) in edges {
        adjacency.entry(src).or_default().push((dst, weight.to_bits()));
        adjacency.entry(dst).or_default().push((src, weight.to_bits()));
        all.insert(src);
        all.insert(dst);
    }
    AdjacencySnapshot { edges: adjacency, node_ids: all.into_iter().collect() }
}

fn cluster(snapshot: &AdjacencySnapshot, min_community_size: usize) -> LeidenResult {
    let config = LeidenConfig { min_community_size, ..Default::default() };
    run_leiden(snapshot, &config, &LeidenArithmetic { widen, plus }, &moving())
}

#[test]
fn test_empty_graph() {
    let snapshot = AdjacencySnapshot { edges: HashMap::new(), node_ids: vec![] };
    let result = cluster(&snapshot, 3);
    assert_eq!(result.num_clusters, 0);
}

#[test]
fn test_two_cliques() {
    let snapshot = make_snapshot(vec![
        (1, 2, 1.0),
        (1, 3, 1.0),
        (2, 3, 1.0),
        (4, 5, 1.0),
        (4, 6, 1.0),
        (5, 6, 1.0),
    ]);
    let result = cluster(&snapshot, 3);
    assert_eq!(result.num_clusters, 2, "应发现 2 个社区");
    assert_eq!(result.node_to_cluster[&1], result.node_to_cluster[&2]);
    assert_eq!(result.node_to_cluster[&4], result.node_to_cluster[&5]);
    assert_ne!(result.node_to_cluster[&1], result.node_to_cluster[&4]);
}

#[test]
fn test_fragment_filtering() {
    let snapshot = make_snapshot(vec![(1, 2, 1.0), (1, 3, 1.0), (2, 3, 1.0), (4, 5, 1.0)]);
    let result = cluster(&snapshot, 3);
    assert_eq!(result.num_clusters, 1, "碎片簇应被过滤");
    assert!(result.node_to_cluster.contains_key(&1));
    assert!(!result.node_to_cluster.contains_key(&4), "碎片节点不应出现");
}

#[test]
fn standard_leiden_separates_weak_bridge_deterministically() {
    let mut edges = vec![
        (1, 2, 1.0),
        (1, 3, 1.0),
        (2, 3, 1.0),
        (4, 5, 1.0),
        (4, 6, 1.0),
        (5, 6, 1.0),
        (3, 4, 0.01),
    ];
    let first = cluster(&make_snapshot(edges.clone()), 1);
    edges.reverse();
    let second = cluster(&make_snapshot(edges), 1);
    assert_eq!(first.node_to_cluster, second.node_to_cluster);
    assert_eq!(first.node_to_cluster[&1], first.node_to_cluster[&3]);
    assert_eq!(first.node_to_cluster[&4], first.node_to_cluster[&6]);
    assert_ne!(first.node_to_cluster[&1], first.node_to_cluster[&4]);
}

#[test]
fn refinement_keeps_each_community_connected() {
    let snapshot = make_snapshot(vec![(1, 2, 1.0), (2, 3, 1.0), (4, 5, 1.0), (5, 6, 1.0)]);
    let result = cluster(&snapshot, 1);
    for number in 1..=result.num_clusters {
        let members: BTreeSet<u64> = result
            .node_to_cluster
            .iter()
            .filter(|(_, value)| **value == number)
            .map(|(node, _)| *node)
            .collect();
        let start = *members.iter().next().unwrap();
        let mut reached = BTreeSet::new();
        reached.insert(start);
        let mut stack = vec![start];
        while let Some(node) = stack.pop() {
            for (neighbor, _) in &snapshot.edges[&node] {
                if members.contains(neighbor) && reached.insert(*neighbor) {
                    stack.push(*neighbor);
                }
            }
        }
        assert_eq!(reached, members);
    }
}

#[test]
fn a_community_in_two_parts_is_split() {
    let one = 1.0f64.to_bits();
    let mut ties = BTreeMap::new();
    ties.insert(1u64, vec![(2u64, one)]);
    ties.insert(2, vec![(1, one)]);
    ties.insert(3, vec![(4, one)]);
    ties.insert(4, vec![(3, one)]);
    let graph = WeightedGraph { ties };
    let communities: BTreeMap<u64, u64> = [(1, 1), (2, 1), (3, 1), (4, 1)].into_iter().collect();
    let names = refine_connected(&graph, &communities);
    assert_eq!(names[&1], names[&2]);
    assert_eq!(names[&3], names[&4]);
    assert_ne!(names[&1], names[&3]);
}

#[test]
fn nodes_move_to_the_community_that_gains_most() {
    let one = 1.0f64.to_bits();
    let mut ties = BTreeMap::new();
    ties.insert(1u64, vec![(2u64, one), (3, one)]);
    ties.insert(2, vec![(1, one), (3, one)]);
    ties.insert(3, vec![(1, one), (2, one)]);
    ties.insert(4, vec![]);
    let graph = WeightedGraph { ties };
    let moved = moving().local_moving(&graph, 10);
    assert_eq!(moved[&1], moved[&2]);
    assert_eq!(moved[&2], moved[&3]);
    assert_eq!(moved[&4], 4);
    let still = moving().local_moving(&graph, 0);
    assert_eq!(still[&3], 3);
    let mut lonely = BTreeMap::new();
    lonely.insert(7u64, vec![]);
    assert_eq!(moving().local_moving(&WeightedGraph { ties: lonely }, 5)[&7], 7);
}

#[test]
fn cluster_sizes_count_the_members() {
    let snapshot = make_snapshot(vec![(1, 2, 1.0), (1, 3, 1.0), (2, 3, 1.0), (4, 5, 1.0)]);
    let result = cluster(&snapshot, 1);
    assert_eq!(result.num_clusters, 2);
    assert_eq!(result.cluster_sizes[&1], 3);
    assert_eq!(result.cluster_sizes[&2], 2);
    let defaults = LeidenConfig::resolve(4, None, None);
    assert_eq!(defaults.max_iterations, 15);
    assert!(defaults.compute_centroids);
}

#[test]
fn two_triangles_are_two_clusters_of_three() {
    let snapshot = make_snapshot(vec![
        (1, 2, 1.0),
        (1, 3, 1.0),
        (2, 3, 1.0),
        (4, 5, 1.0),
        (4, 6, 1.0),
        (5, 6, 1.0),
    ]);
    let result = cluster(&snapshot, 3);
    let clusters: BTreeMap<u64, u32> =
        [(1, 1), (2, 1), (3, 1), (4, 2), (5, 2), (6, 2)].into_iter().collect();
    assert_eq!(result.node_to_cluster, clusters);
    let sizes: BTreeMap<u32, usize> = [(1, 3), (2, 3)].into_iter().collect();
    assert_eq!(result.cluster_sizes, sizes);
    assert_eq!(result.num_clusters, 2);
}

fn means() -> MeanArithmetic<fn(u64, u32) -> u64, fn(u64, usize) -> u32> {
    MeanArithmetic {
        with_component: |sum: u64, component: u32| {
            (f64::from_bits(sum) + f32::from_bits(component) as f64).to_bits()
        },
        mean: |sum: u64, count: usize| ((f64::from_bits(sum) / count as f64) as f32).to_bits(),
    }
}

fn bits(values: &[f32]) -> Vec<u32> {
    values.iter().map(|value| value.to_bits()).collect()
}

#[test]
fn test_centroid_computation() {
    let snapshot = make_snapshot(vec![(1, 2, 1.0), (1, 3, 1.0), (2, 3, 1.0)]);
    let mut result = cluster(&snapshot, 3);

    let mut vectors = HashMap::new();
    vectors.insert(1u64, bits(&[1.0f32, 0.0, 0.0]));
    vectors.insert(2, bits(&[0.0, 1.0, 0.0]));
    vectors.insert(3, bits(&[0.0, 0.0, 1.0]));

    compute_centroids(&mut result, &vectors, 3, &means());
    assert_eq!(result.centroids.len(), 1);
    let c = result.centroids.values().next().unwrap();
    assert!((f32::from_bits(c[0]) - 1.0 / 3.0).abs() < 0.01);
}

#[test]
fn nodes_without_a_vector_do_not_count() {
    let snapshot = make_snapshot(vec![
        (1, 2, 1.0),
        (1, 3, 1.0),
        (2, 3, 1.0),
        (4, 5, 1.0),
        (4, 6, 1.0),
        (5, 6, 1.0),
    ]);
    let mut result = cluster(&snapshot, 3);
    let mut vectors = HashMap::new();
    vectors.insert(1u64, bits(&[1.0, 4.0]));
    vectors.insert(3, bits(&[2.0]));
    compute_centroids(&mut result, &vectors, 2, &means());
    assert_eq!(result.centroids.len(), 1);
    assert_eq!(result.centroids[&1], bits(&[1.5, 2.0]));
}
