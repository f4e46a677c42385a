//! Community detection in levels: nodes move between communities, each community is split into its
//! connected parts, and the parts become the nodes of the next level.
use std::collections::{BTreeMap, BTreeSet, HashMap};
use vstd::prelude::*;

use crate::collections::{
    increasing, lemma_contains_push, lemma_increasing_distinct, lemma_to_set_push, map_keys,
    sort_dedup,
};
use crate::graph::labels::join_lists;
use crate::graph::moving::MoveArithmetic;
use crate::graph::subset::{listed_steps, lemma_closed_reaches, take_connected};
use crate::graph::walk::{
    lemma_reaches_step, lemma_reaches_transitive, reaches, within, Adjacency,
};
use crate::graph::workspace::build_reverse;
use crate::node::{edge_views, EdgeView, NodeId};
use crate::number::{
    f32_finite, f32_is_finite, f32_is_positive, f32_positive, f64_less, spec_f64_less,
};
use crate::storage::memtable::MemTable;
use crate::vector::VectorType;

verus! {

/// The settings of community detection.
#[derive(Debug, Clone, Copy, PartialEq, Eq, Structural)]
pub struct LeidenConfig {
    /// Communities with fewer nodes are dropped.
    pub min_community_size: usize,
    /// The most levels, and the most sweeps on a level.
    pub max_iterations: usize,
    /// Whether centroids are computed.
    pub compute_centroids: bool,
}

impl Default for LeidenConfig {
    fn default() -> (config: LeidenConfig)
        ensures
            config.min_community_size == 3,
            config.max_iterations == 15,
            config.compute_centroids,
    {
        LeidenConfig { min_community_size: 3, max_iterations: 15, compute_centroids: true }
    }
}

/// The communities that were found. Centroids are single precision bit patterns.
#[derive(Debug)]
pub struct LeidenResult {
    pub node_to_cluster: BTreeMap<NodeId, u32>,
    pub cluster_sizes: BTreeMap<u32, usize>,
    pub centroids: BTreeMap<u32, Vec<u32>>,
    pub num_clusters: u32,
}

/// The nodes and edges of a graph. Weights are single precision bit patterns.
#[derive(Debug)]
pub struct AdjacencySnapshot {
    pub edges: HashMap<NodeId, Vec<(NodeId, u32)>>,
    pub node_ids: Vec<NodeId>,
}

/// A graph without directions: for each node its neighbours in ascending order, with weights that
/// are double precision bit patterns. A node that is its own neighbour is listed twice.
#[derive(Debug)]
pub struct WeightedGraph {
    pub ties: BTreeMap<NodeId, Vec<(NodeId, u64)>>,
}

/// A value for each pair of nodes, the smaller one first.
pub type Pairs<V> = BTreeMap<NodeId, BTreeMap<NodeId, V>>;

/// The value of a pair.
pub open spec fn pair_value<V>(pairs: Map<NodeId, BTreeMap<NodeId, V>>, a: NodeId, b: NodeId) -> Option<
    V,
> {
    if pairs.contains_key(a) && pairs[a]@.contains_key(b) {
        Some(pairs[a]@[b])
    } else {
        None
    }
}

/// The smaller of two nodes.
pub open spec fn lower(a: NodeId, b: NodeId) -> NodeId {
    if a <= b {
        a
    } else {
        b
    }
}

/// The greater of two nodes.
pub open spec fn upper(a: NodeId, b: NodeId) -> NodeId {
    if a <= b {
        b
    } else {
        a
    }
}

/// The value of a pair.
fn look_up<V: Copy>(pairs: &Pairs<V>, a: NodeId, b: NodeId) -> (value: Option<V>)
    ensures
        value == pair_value(pairs@, a, b),
{
    match pairs.get(&a) {
        Some(row) => match row.get(&b) {
            Some(value) => Some(*value),
            None => None,
        },
        None => None,
    }
}

/// Sets the value of a pair.
fn set_pair<V: Copy>(pairs: &mut Pairs<V>, a: NodeId, b: NodeId, value: V)
    ensures
        forall|x: NodeId, y: NodeId|
            #![trigger pair_value(final(pairs)@, x, y)]
            pair_value(final(pairs)@, x, y) == if x == a && y == b {
                Some(value)
            } else {
                pair_value(old(pairs)@, x, y)
            },
{
    let ghost before = pairs@;
    let mut row: BTreeMap<NodeId, V> = match pairs.remove(&a) {
        Some(row) => row,
        None => BTreeMap::new(),
    };
    let ghost held = row@;
    row.insert(b, value);
    pairs.insert(a, row);
    proof {
        assert forall|x: NodeId, y: NodeId|
            #![trigger pair_value(pairs@, x, y)]
            pair_value(pairs@, x, y) == if x == a && y == b {
                Some(value)
            } else {
                pair_value(before, x, y)
            } by {
            if x == a {
                assert(pairs@[x]@ == held.insert(b, value));
            }
        }
    }
}

/// A list of neighbours in which the node itself is listed twice.
pub open spec fn spread<V>(id: NodeId, near: Seq<(NodeId, V)>) -> Seq<(NodeId, V)>
    decreases near.len(),
{
    if near.len() == 0 {
        Seq::empty()
    } else if near.last().0 == id {
        spread(id, near.drop_last()).push(near.last()).push(near.last())
    } else {
        spread(id, near.drop_last()).push(near.last())
    }
}

/// Whether `near` names, in ascending order, the nodes with which a node forms a pair that has a
/// value, and the values.
pub open spec fn are_partners<V>(
    value: spec_fn(NodeId, NodeId) -> Option<V>,
    id: NodeId,
    near: Seq<(NodeId, V)>,
) -> bool {
    &&& forall|i: int, j: int|
        0 <= i < j < near.len() ==> (#[trigger] near[i]).0 < (#[trigger] near[j]).0
    &&& forall|i: int|
        0 <= i < near.len() ==> value(lower(id, (#[trigger] near[i]).0), upper(id, near[i].0))
            == Some(near[i].1)
    &&& forall|other: NodeId|
        #![trigger upper(id, other)]
        value(lower(id, other), upper(id, other)) is Some ==> exists|i: int|
            0 <= i < near.len() && (#[trigger] near[i]).0 == other
}

/// Whether lists of neighbours are those that the values of pairs give.
pub open spec fn are_spread<V>(
    value: spec_fn(NodeId, NodeId) -> Option<V>,
    nodes: Set<NodeId>,
    ties: Map<NodeId, Seq<(NodeId, V)>>,
) -> bool {
    &&& ties.dom() == nodes
    &&& forall|id: NodeId| #[trigger]
        ties.contains_key(id) ==> exists|near: Seq<(NodeId, V)>| #[trigger]
            are_partners(value, id, near) && ties[id] == spread(id, near)
}

/// The values of a map of pairs.
pub open spec fn values_of<V>(pairs: Map<NodeId, BTreeMap<NodeId, V>>) -> spec_fn(
    NodeId,
    NodeId,
) -> Option<V> {
    |a: NodeId, b: NodeId| pair_value(pairs, a, b)
}

/// The lists of neighbours as mathematical values.
pub open spec fn lists_view<V>(ties: Map<NodeId, Vec<(NodeId, V)>>) -> Map<NodeId, Seq<(NodeId, V)>> {
    ties.map_values(|list: Vec<(NodeId, V)>| list@)
}

/// Turns values of pairs into lists of neighbours.
fn spread_pairs<V: Copy>(ids: &Vec<NodeId>, pairs: &Pairs<V>) -> (ties: BTreeMap<
    NodeId,
    Vec<(NodeId, V)>,
>)
    requires
        increasing(ids@),
        forall|a: NodeId, b: NodeId|
            #![trigger pair_value(pairs@, a, b)]
            pair_value(pairs@, a, b) is Some ==> a <= b && ids@.contains(a) && ids@.contains(b),
    ensures
        are_spread(values_of(pairs@), ids@.to_set(), lists_view(ties@)),
{
    let ghost value = values_of(pairs@);
    let mut targets: BTreeMap<NodeId, Vec<NodeId>> = BTreeMap::new();
    let mut i: usize = 0;
    assert(targets@.dom() =~= ids@.take(0).to_set());
    while i < ids.len()
        invariant
            i <= ids@.len(),
            targets@.dom() == ids@.take(i as int).to_set(),
            forall|a: NodeId| #[trigger]
                targets@.contains_key(a) ==> increasing(targets@[a]@),
            forall|a: NodeId, b: NodeId|
                targets@.contains_key(a) ==> (#[trigger] targets@[a]@.contains(b) <==> pair_value(
                    pairs@,
                    a,
                    b,
                ) is Some),
        decreases ids@.len() - i,
    {
        let id: NodeId = ids[i];
        let row: Vec<NodeId> = match pairs.get(&id) {
            Some(row) => map_keys(row),
            None => Vec::new(),
        };
        proof {
            assert forall|b: NodeId| #[trigger] row@.contains(b) <==> pair_value(
                pairs@,
                id,
                b,
            ) is Some by {
                if pairs@.contains_key(id) {
                    assert(row@.to_set().contains(b) <==> pairs@[id]@.contains_key(b));
                }
            }
            assert(ids@.take(i + 1) =~= ids@.take(i as int).push(id));
            lemma_to_set_push(ids@.take(i as int), id);
        }
        targets.insert(id, row);
        assert(targets@.dom() =~= ids@.take(i + 1).to_set());
        i += 1;
    }
    assert(ids@.take(i as int) =~= ids@);
    proof {
        assert forall|from: NodeId, to: NodeId|
            targets@.contains_key(from) && #[trigger] targets@[from]@.contains(to) implies
            targets@.contains_key(to) by {
            assert(pair_value(pairs@, from, to) is Some);
            assert(ids@.to_set().contains(to));
        }
    }
    let sources = build_reverse(ids, &targets);
    let mut ties: BTreeMap<NodeId, Vec<(NodeId, V)>> = BTreeMap::new();
    let mut k: usize = 0;
    assert(ties@.dom() =~= ids@.take(0).to_set());
    while k < ids.len()
        invariant
            value == values_of(pairs@),
            forall|a: NodeId, b: NodeId|
                #![trigger pair_value(pairs@, a, b)]
                pair_value(pairs@, a, b) is Some ==> a <= b && ids@.contains(a) && ids@.contains(b),
            k <= ids@.len(),
            targets@.dom() == ids@.to_set(),
            sources@.dom() == ids@.to_set(),
            forall|a: NodeId, b: NodeId|
                targets@.contains_key(a) ==> (#[trigger] targets@[a]@.contains(b) <==> pair_value(
                    pairs@,
                    a,
                    b,
                ) is Some),
            forall|from: NodeId, to: NodeId|
                sources@.contains_key(to) ==> (#[trigger] sources@[to]@.contains(from) <==> (
                targets@.contains_key(from) && targets@[from]@.contains(to))),
            ties@.dom() == ids@.take(k as int).to_set(),
            forall|id: NodeId| #[trigger]
                ties@.contains_key(id) ==> exists|near: Seq<(NodeId, V)>| #[trigger]
                    are_partners(value, id, near) && ties@[id]@ == spread(id, near),
        decreases ids@.len() - k,
    {
        let id: NodeId = ids[k];
        proof {
            assert(ids@.contains(id));
            assert(ids@.to_set().contains(id));
        }
        let near = join_lists(targets.get(&id).unwrap(), sources.get(&id).unwrap());
        proof {
            assert forall|other: NodeId| #[trigger] near@.contains(other) <==> pair_value(
                pairs@,
                lower(id, other),
                upper(id, other),
            ) is Some by {
                assert(targets@[id]@.contains(other) <==> pair_value(pairs@, id, other) is Some);
                assert(sources@[id]@.contains(other) <==> (targets@.contains_key(other)
                    && targets@[other]@.contains(id)));
                if pair_value(pairs@, other, id) is Some {
                    assert(ids@.to_set().contains(other));
                }
                if targets@.contains_key(other) {
                    assert(targets@[other]@.contains(id) <==> pair_value(
                        pairs@,
                        other,
                        id,
                    ) is Some);
                }
            }
        }
        let list = spread_near(pairs, id, &near);
        ties.insert(id, list);
        proof {
            assert(ids@.take(k + 1) =~= ids@.take(k as int).push(id));
            lemma_to_set_push(ids@.take(k as int), id);
            assert(ties@.dom() =~= ids@.take(k + 1).to_set());
        }
        k += 1;
    }
    proof {
        assert(ids@.take(k as int) =~= ids@);
        assert(lists_view(ties@).dom() =~= ids@.to_set());
        assert forall|id: NodeId| #[trigger] lists_view(ties@).contains_key(id) implies exists|
            near: Seq<(NodeId, V)>,
        | #[trigger]
            are_partners(value, id, near) && lists_view(ties@)[id] == spread(id, near) by {
            assert(ties@.contains_key(id));
        }
    }
    ties
}

/// The list of neighbours of a node.
fn spread_near<V: Copy>(pairs: &Pairs<V>, id: NodeId, near: &Vec<NodeId>) -> (list: Vec<
    (NodeId, V),
>)
    requires
        increasing(near@),
        forall|other: NodeId| #[trigger]
            near@.contains(other) <==> pair_value(
                pairs@,
                lower(id, other),
                upper(id, other),
            ) is Some,
    ensures
        exists|partners: Seq<(NodeId, V)>| #[trigger]
            are_partners(values_of(pairs@), id, partners) && list@ == spread(id, partners),
{
    let ghost value = values_of(pairs@);
    let ghost mut partners: Seq<(NodeId, V)> = Seq::empty();
    let mut list: Vec<(NodeId, V)> = Vec::new();
    let mut i: usize = 0;
    while i < near.len()
        invariant
            value == values_of(pairs@),
            forall|other: NodeId| #[trigger]
                near@.contains(other) <==> pair_value(
                    pairs@,
                    lower(id, other),
                    upper(id, other),
                ) is Some,
            i <= near@.len(),
            partners.len() == i,
            forall|k: int|
                0 <= k < i ==> (#[trigger] partners[k]).0 == near@[k] && value(
                    lower(id, partners[k].0),
                    upper(id, partners[k].0),
                ) == Some(partners[k].1),
            list@ == spread(id, partners),
        decreases near@.len() - i,
    {
        let other: NodeId = near[i];
        assert(near@.contains(other));
        let found: V = if id <= other {
            look_up(pairs, id, other).unwrap()
        } else {
            look_up(pairs, other, id).unwrap()
        };
        let ghost before = partners;
        proof {
            partners = partners.push((other, found));
            assert(partners.drop_last() =~= before);
        }
        list.push((other, found));
        if other == id {
            list.push((other, found));
        }
        i += 1;
    }
    proof {
        assert(are_partners(value, id, partners)) by {
            assert forall|other: NodeId|
                #![trigger upper(id, other)]
                value(lower(id, other), upper(id, other)) is Some implies exists|n: int|
                0 <= n < partners.len() && (#[trigger] partners[n]).0 == other by {
                assert(near@.contains(other));
                let n = choose|n: int| 0 <= n < near@.len() && near@[n] == other;
                assert(partners[n].0 == other);
            }
        }
    }
    list
}

/// Whether an edge counts: it leads between nodes of the graph and has a positive finite weight.
pub open spec fn is_counted(
    nodes: Set<NodeId>,
    from: NodeId,
    edge: (NodeId, u32),
) -> bool {
    nodes.contains(from) && nodes.contains(edge.0) && f32_finite(edge.1) && f32_positive(edge.1)
}

/// The edges of a node in a snapshot.
pub open spec fn snapshot_edges(snapshot: &AdjacencySnapshot, id: NodeId) -> Seq<(NodeId, u32)> {
    if snapshot.edges@.contains_key(id) {
        snapshot.edges@[id]@
    } else {
        Seq::empty()
    }
}

/// The greatest weight of an edge between two nodes, in either direction, among all edges of the
/// first `i` nodes and the first `j` edges of the next one.
pub open spec fn greatest_weight(
    snapshot: &AdjacencySnapshot,
    ids: Seq<NodeId>,
    i: nat,
    j: nat,
    a: NodeId,
    b: NodeId,
) -> Option<u32>
    decreases i, j,
{
    if j > 0 {
        let before = greatest_weight(snapshot, ids, i, (j - 1) as nat, a, b);
        let from = ids[i as int];
        let edge = snapshot_edges(snapshot, from)[j - 1];
        if is_counted(ids.to_set(), from, edge) && lower(from, edge.0) == a && upper(from, edge.0)
            == b {
            match before {
                Some(weight) if weight >= edge.1 => Some(weight),
                _ => Some(edge.1),
            }
        } else {
            before
        }
    } else if i > 0 {
        let last = (i - 1) as nat;
        greatest_weight(
            snapshot,
            ids,
            last,
            snapshot_edges(snapshot, ids[last as int]).len(),
            a,
            b,
        )
    } else {
        None
    }
}

/// The two operations that graphs are built with, on double precision bit patterns: a single
/// precision weight made wider, and a sum.
pub struct LeidenArithmetic<W, P> {
    pub widen: W,
    pub plus: P,
}

impl<W: Fn(u32) -> u64, P: Fn(u64, u64) -> u64> LeidenArithmetic<W, P> {
    /// Whether each operation can always be done and gives the same result for the same operands.
    pub open spec fn sound(&self) -> bool {
        &&& forall|weight: u32| call_requires(self.widen, (weight,))
        &&& forall|weight: u32, wide: u64|
            call_ensures(self.widen, (weight,), wide) ==> wide == self.wide(weight)
        &&& forall|a: u64, b: u64| call_requires(self.plus, (a, b))
        &&& forall|a: u64, b: u64, c: u64|
            call_ensures(self.plus, (a, b), c) ==> c == self.sum(a, b)
    }

    /// A weight made wider.
    pub open spec fn wide(&self, weight: u32) -> u64 {
        choose|wide: u64| call_ensures(self.widen, (weight,), wide)
    }

    /// A sum.
    pub open spec fn sum(&self, a: u64, b: u64) -> u64 {
        choose|c: u64| call_ensures(self.plus, (a, b), c)
    }

    /// Lists of neighbours with wider weights.
    pub open spec fn widened(&self, ties: Map<NodeId, Seq<(NodeId, u32)>>) -> Map<
        NodeId,
        Seq<(NodeId, u64)>,
    > {
        ties.map_values(
            |list: Seq<(NodeId, u32)>|
                list.map_values(|tie: (NodeId, u32)| (tie.0, self.wide(tie.1))),
        )
    }

    /// Whether a graph is that of a snapshot: two nodes are tied by the greatest weight of an edge
    /// between them.
    pub open spec fn is_base_graph(
        &self,
        snapshot: &AdjacencySnapshot,
        ids: Seq<NodeId>,
        graph: WeightedGraph,
    ) -> bool {
        exists|narrow: Map<NodeId, Seq<(NodeId, u32)>>|
            are_spread(
                |a: NodeId, b: NodeId| greatest_weight(snapshot, ids, ids.len(), 0, a, b),
                ids.to_set(),
                narrow,
            ) && lists_view(graph.ties@) == #[trigger] self.widened(narrow)
    }

    /// The greatest weight for each pair of nodes.
    fn collect_pairs(&self, snapshot: &AdjacencySnapshot, ids: &Vec<NodeId>) -> (pairs: Pairs<u32>)
        requires
            self.sound(),
        ensures
            forall|a: NodeId, b: NodeId|
                #![trigger pair_value(pairs@, a, b)]
                pair_value(pairs@, a, b) == greatest_weight(snapshot, ids@, ids@.len(), 0, a, b),
    {
        let mut known: BTreeSet<NodeId> = BTreeSet::new();
        let mut n: usize = 0;
        assert(known@ =~= ids@.take(0).to_set());
        while n < ids.len()
            invariant
                n <= ids@.len(),
                known@ == ids@.take(n as int).to_set(),
            decreases ids@.len() - n,
        {
            known.insert(ids[n]);
            proof {
                assert(ids@.take(n + 1) =~= ids@.take(n as int).push(ids@[n as int]));
                lemma_to_set_push(ids@.take(n as int), ids@[n as int]);
            }
            n += 1;
        }
        assert(ids@.take(n as int) =~= ids@);
        let mut pairs: Pairs<u32> = BTreeMap::new();
        let mut i: usize = 0;
        while i < ids.len()
            invariant
                known@ == ids@.to_set(),
                i <= ids@.len(),
                forall|a: NodeId, b: NodeId|
                    #![trigger pair_value(pairs@, a, b)]
                    pair_value(pairs@, a, b) == greatest_weight(
                        snapshot,
                        ids@,
                        i as nat,
                        0,
                        a,
                        b,
                    ),
            decreases ids@.len() - i,
        {
            let from: NodeId = ids[i];
            proof {
                assert(ids@.contains(from));
                assert(ids@.to_set().contains(from));
            }
            match snapshot.edges.get(&from) {
                None => {},
                Some(edges) => {
                    let mut j: usize = 0;
                    while j < edges.len()
                        invariant
                            known@ == ids@.to_set(),
                            i < ids@.len(),
                            from == ids@[i as int],
                            ids@.to_set().contains(from),
                            edges@ == snapshot_edges(snapshot, from),
                            j <= edges@.len(),
                            forall|a: NodeId, b: NodeId|
                                #![trigger pair_value(pairs@, a, b)]
                                pair_value(pairs@, a, b) == greatest_weight(
                                    snapshot,
                                    ids@,
                                    i as nat,
                                    j as nat,
                                    a,
                                    b,
                                ),
                        decreases edges@.len() - j,
                    {
                        let (to, weight): (NodeId, u32) = edges[j];
                        let ghost before = pairs@;
                        if known.contains(&to) && f32_is_finite(weight) && f32_is_positive(weight) {
                            let (a, b): (NodeId, NodeId) = if from <= to {
                                (from, to)
                            } else {
                                (to, from)
                            };
                            let keeps = match look_up(&pairs, a, b) {
                                Some(current) => current >= weight,
                                None => false,
                            };
                            if !keeps {
                                set_pair(&mut pairs, a, b, weight);
                            }
                        }
                        proof {
                            assert forall|a: NodeId, b: NodeId|
                                #![trigger pair_value(pairs@, a, b)]
                                pair_value(pairs@, a, b) == greatest_weight(
                                    snapshot,
                                    ids@,
                                    i as nat,
                                    (j + 1) as nat,
                                    a,
                                    b,
                                ) by {
                                assert(pair_value(before, a, b) == greatest_weight(
                                    snapshot,
                                    ids@,
                                    i as nat,
                                    j as nat,
                                    a,
                                    b,
                                ));
                            }
                        }
                        j += 1;
                    }
                },
            }
            i += 1;
        }
        pairs
    }

    /// The graph of a snapshot.
    pub fn build_graph(&self, snapshot: &AdjacencySnapshot, ids: &Vec<NodeId>) -> (graph:
        WeightedGraph)
        requires
            self.sound(),
            increasing(ids@),
        ensures
            self.is_base_graph(snapshot, ids@, graph),
            graph.ties@.dom() == ids@.to_set(),
    {
        let pairs = self.collect_pairs(snapshot, ids);
        let ghost value = |a: NodeId, b: NodeId|
            greatest_weight(snapshot, ids@, ids@.len(), 0, a, b);
        proof {
            assert(values_of(pairs@) =~= value);
            assert forall|a: NodeId, b: NodeId|
                #![trigger pair_value(pairs@, a, b)]
                pair_value(pairs@, a, b) is Some implies a <= b && ids@.contains(a)
                && ids@.contains(b) by {
                lemma_greatest_weight_known(snapshot, ids@, ids@.len(), 0, a, b);
            }
        }
        let narrow = spread_pairs(ids, &pairs);
        let ghost all = lists_view(narrow@);
        let mut ties: BTreeMap<NodeId, Vec<(NodeId, u64)>> = BTreeMap::new();
        let mut i: usize = 0;
        assert(ties@.dom() =~= ids@.take(0).to_set());
        while i < ids.len()
            invariant
                self.sound(),
                all == lists_view(narrow@),
                narrow@.dom() == ids@.to_set(),
                i <= ids@.len(),
                ties@.dom() == ids@.take(i as int).to_set(),
                forall|id: NodeId| #[trigger]
                    ties@.contains_key(id) ==> ties@[id]@ == self.widened(all)[id],
            decreases ids@.len() - i,
        {
            let id: NodeId = ids[i];
            proof {
                assert(ids@.contains(id));
                assert(ids@.to_set().contains(id));
            }
            let thin = narrow.get(&id).unwrap();
            let mut list: Vec<(NodeId, u64)> = Vec::new();
            let mut j: usize = 0;
            while j < thin.len()
                invariant
                    self.sound(),
                    j <= thin@.len(),
                    list@.len() == j,
                    forall|k: int|
                        0 <= k < j ==> (#[trigger] list@[k]) == (
                            thin@[k].0,
                            self.wide(thin@[k].1),
                        ),
                decreases thin@.len() - j,
            {
                let (other, weight): (NodeId, u32) = thin[j];
                let wide: u64 = (self.widen)(weight);
                list.push((other, wide));
                j += 1;
            }
            proof {
                assert(list@ =~= self.widened(all)[id]);
                assert(ids@.take(i + 1) =~= ids@.take(i as int).push(id));
                lemma_to_set_push(ids@.take(i as int), id);
            }
            ties.insert(id, list);
            assert(ties@.dom() =~= ids@.take(i + 1).to_set());
            i += 1;
        }
        let graph = WeightedGraph { ties };
        proof {
            assert(ids@.take(i as int) =~= ids@);
            assert(lists_view(graph.ties@) =~= self.widened(all)) by {
                assert forall|id: NodeId| #[trigger] lists_view(graph.ties@).contains_key(
                    id,
                ) implies lists_view(graph.ties@)[id] == self.widened(all)[id] by {
                    assert(ties@.contains_key(id));
                }
            }
        }
        graph
    }
}

/// Only edges between nodes of the graph count.
proof fn lemma_greatest_weight_known(
    snapshot: &AdjacencySnapshot,
    ids: Seq<NodeId>,
    i: nat,
    j: nat,
    a: NodeId,
    b: NodeId,
)
    requires
        greatest_weight(snapshot, ids, i, j, a, b) is Some,
    ensures
        a <= b,
        ids.contains(a),
        ids.contains(b),
    decreases i, j,
{
    if j > 0 {
        if greatest_weight(snapshot, ids, i, (j - 1) as nat, a, b) is Some {
            lemma_greatest_weight_known(snapshot, ids, i, (j - 1) as nat, a, b);
        } else {
            let from = ids[i as int];
            let edge = snapshot_edges(snapshot, from)[j - 1];
            assert(ids.to_set().contains(from) && ids.to_set().contains(edge.0));
        }
    } else if i > 0 {
        let last = (i - 1) as nat;
        lemma_greatest_weight_known(
            snapshot,
            ids,
            last,
            snapshot_edges(snapshot, ids[last as int]).len(),
            a,
            b,
        );
    }
}

/// Whether ties go both ways, between nodes of the graph.
pub open spec fn is_symmetric<V>(ties: Map<NodeId, Seq<(NodeId, V)>>) -> bool {
    forall|a: NodeId, b: NodeId, weight: V|
        ties.contains_key(a) && #[trigger] ties[a].contains((b, weight)) ==> ties.contains_key(b)
            && ties[b].contains((a, weight))
}

/// Listing a node twice does not change which neighbours there are.
proof fn lemma_spread_contains<V>(id: NodeId, near: Seq<(NodeId, V)>, tie: (NodeId, V))
    ensures
        spread(id, near).contains(tie) <==> near.contains(tie),
    decreases near.len(),
{
    if near.len() > 0 {
        let rest = near.drop_last();
        lemma_spread_contains(id, rest, tie);
        assert(near =~= rest.push(near.last()));
        lemma_contains_push(rest, near.last(), tie);
        lemma_contains_push(spread(id, rest), near.last(), tie);
        lemma_contains_push(spread(id, rest).push(near.last()), near.last(), tie);
    }
}

/// Which ties the values of pairs give.
proof fn lemma_spread_ties<V>(
    value: spec_fn(NodeId, NodeId) -> Option<V>,
    nodes: Set<NodeId>,
    ties: Map<NodeId, Seq<(NodeId, V)>>,
    a: NodeId,
    tie: (NodeId, V),
)
    requires
        are_spread(value, nodes, ties),
        ties.contains_key(a),
    ensures
        ties[a].contains(tie) <==> value(lower(a, tie.0), upper(a, tie.0)) == Some(tie.1),
{
    let near = choose|near: Seq<(NodeId, V)>| #[trigger]
        are_partners(value, a, near) && ties[a] == spread(a, near);
    lemma_spread_contains(a, near, tie);
    if near.contains(tie) {
        let i = choose|i: int| 0 <= i < near.len() && near[i] == tie;
        assert(near[i] == tie);
    }
    if value(lower(a, tie.0), upper(a, tie.0)) == Some(tie.1) {
        let other = tie.0;
        assert(value(lower(a, other), upper(a, other)) is Some);
        let i = choose|i: int| 0 <= i < near.len() && (#[trigger] near[i]).0 == other;
        assert(near[i] == tie);
    }
}

/// Ties that come from the values of pairs go both ways.
proof fn lemma_spread_symmetric<V>(
    value: spec_fn(NodeId, NodeId) -> Option<V>,
    nodes: Set<NodeId>,
    ties: Map<NodeId, Seq<(NodeId, V)>>,
)
    requires
        are_spread(value, nodes, ties),
        forall|a: NodeId, b: NodeId| #[trigger]
            value(a, b) is Some ==> nodes.contains(a) && nodes.contains(b),
    ensures
        is_symmetric(ties),
{
    assert forall|a: NodeId, b: NodeId, weight: V|
        ties.contains_key(a) && #[trigger] ties[a].contains((b, weight)) implies ties.contains_key(
        b,
    ) && ties[b].contains((a, weight)) by {
        lemma_spread_ties(value, nodes, ties, a, (b, weight));
        assert(value(lower(a, b), upper(a, b)) is Some);
        assert(nodes.contains(b));
        lemma_spread_ties(value, nodes, ties, b, (a, weight));
    }
}

/// The steps along ties of positive weight that stay within a community.
pub open spec fn kin(
    ties: Map<NodeId, Seq<(NodeId, u64)>>,
    communities: Map<NodeId, NodeId>,
) -> Adjacency {
    |a: NodeId, b: NodeId|
        ties.contains_key(a) && communities[a] == communities[b] && exists|weight: u64|
            spec_f64_less(0, weight) && #[trigger] ties[a].contains((b, weight))
}

/// Whether `least` is the smallest node that a node reaches.
pub open spec fn is_least_reached(adjacency: Adjacency, id: NodeId, least: NodeId) -> bool {
    reaches(adjacency, id, least) && forall|other: NodeId| #[trigger]
        reaches(adjacency, id, other) ==> least <= other
}

/// Whether communities are split into their connected parts, each named after its smallest node.
pub open spec fn is_refined(
    ties: Map<NodeId, Seq<(NodeId, u64)>>,
    communities: Map<NodeId, NodeId>,
    names: Map<NodeId, NodeId>,
) -> bool {
    &&& names.dom() == ties.dom()
    &&& forall|id: NodeId| #[trigger]
        names.contains_key(id) ==> is_least_reached(kin(ties, communities), id, names[id])
}

/// Where every step can be taken back, what one node reaches reaches it.
proof fn lemma_reaches_back(adjacency: Adjacency, a: NodeId, b: NodeId)
    requires
        forall|x: NodeId, y: NodeId| #[trigger] adjacency(x, y) ==> adjacency(y, x),
        reaches(adjacency, a, b),
    ensures
        reaches(adjacency, b, a),
{
    let back = Set::new(|id: NodeId| reaches(adjacency, id, a));
    lemma_reaches_step(adjacency, a, a);
    assert forall|x: NodeId, y: NodeId| back.contains(x) && #[trigger] adjacency(x, y) implies
        back.contains(y) by {
        lemma_reaches_step(adjacency, y, x);
        lemma_reaches_transitive(adjacency, y, x, a);
    }
    lemma_closed_reaches(adjacency, back, a, b);
}

/// Names every node after the smallest node that it reaches.
fn name_components(lists_of: &BTreeMap<NodeId, Vec<NodeId>>) -> (names: BTreeMap<NodeId, NodeId>)
    requires
        forall|a: NodeId, b: NodeId| #[trigger]
            listed_steps(lists_of@)(a, b) ==> listed_steps(lists_of@)(b, a),
    ensures
        names@.dom() == lists_of@.dom(),
        forall|id: NodeId| #[trigger]
            names@.contains_key(id) ==> is_least_reached(
                listed_steps(lists_of@),
                id,
                names@[id],
            ),
{
    let ghost links = listed_steps(lists_of@);
    let ids = map_keys(lists_of);
    let mut unseen: BTreeSet<NodeId> = BTreeSet::new();
    let mut n: usize = 0;
    assert(unseen@ =~= ids@.take(0).to_set());
    while n < ids.len()
        invariant
            n <= ids@.len(),
            unseen@ == ids@.take(n as int).to_set(),
        decreases ids@.len() - n,
    {
        unseen.insert(ids[n]);
        proof {
            assert(ids@.take(n + 1) =~= ids@.take(n as int).push(ids@[n as int]));
            lemma_to_set_push(ids@.take(n as int), ids@[n as int]);
        }
        n += 1;
    }
    assert(ids@.take(n as int) =~= ids@);
    let mut names: BTreeMap<NodeId, NodeId> = BTreeMap::new();
    let mut i: usize = 0;
    while i < ids.len()
        invariant
            links == listed_steps(lists_of@),
            forall|a: NodeId, b: NodeId| #[trigger] links(a, b) ==> links(b, a),
            increasing(ids@),
            ids@.to_set() == lists_of@.dom(),
            i <= ids@.len(),
            unseen@.finite(),
            unseen@.subset_of(lists_of@.dom()),
            forall|a: NodeId, b: NodeId|
                unseen@.contains(a) && #[trigger] links(a, b) ==> unseen@.contains(b),
            forall|k: int| 0 <= k < i ==> !unseen@.contains(#[trigger] ids@[k]),
            forall|id: NodeId| #[trigger]
                names@.contains_key(id) <==> lists_of@.contains_key(id) && !unseen@.contains(id),
            forall|id: NodeId| #[trigger]
                names@.contains_key(id) ==> is_least_reached(links, id, names@[id]),
        decreases ids@.len() - i,
    {
        let start: NodeId = ids[i];
        proof {
            assert(ids@.contains(start));
            assert(ids@.to_set().contains(start));
        }
        if unseen.contains(&start) {
            let ghost before = unseen@;
            let ghost named = names@;
            let component = take_connected(lists_of, start, &mut unseen);
            let mut j: usize = 0;
            while j < component.len()
                invariant
                    j <= component@.len(),
                    forall|id: NodeId| #[trigger]
                        names@.contains_key(id) <==> named.contains_key(id) || component@.take(
                            j as int,
                        ).contains(id),
                    forall|id: NodeId| #[trigger]
                        names@.contains_key(id) ==> names@[id] == if component@.take(
                            j as int,
                        ).contains(id) {
                            start
                        } else {
                            named[id]
                        },
                decreases component@.len() - j,
            {
                let ghost held = names@;
                names.insert(component[j], start);
                proof {
                    let few = component@.take(j as int);
                    let id = component@[j as int];
                    assert(component@.take(j + 1) =~= few.push(id));
                    assert forall|other: NodeId| #[trigger] names@.contains_key(other)
                        <==> named.contains_key(other) || component@.take(j + 1).contains(
                        other,
                    ) by {
                        lemma_contains_push(few, id, other);
                        assert(held.contains_key(other) <==> named.contains_key(other)
                            || few.contains(other));
                    }
                    assert forall|other: NodeId| #[trigger] names@.contains_key(other) implies
                        names@[other] == if component@.take(j + 1).contains(other) {
                        start
                    } else {
                        named[other]
                    } by {
                        lemma_contains_push(few, id, other);
                        if other != id {
                            assert(held.contains_key(other));
                        }
                    }
                }
                j += 1;
            }
            proof {
                assert(component@.take(j as int) =~= component@);
                assert forall|id: NodeId| #[trigger] component@.contains(id) implies
                    is_least_reached(links, id, start) by {
                    assert(reaches(links, start, id));
                    lemma_reaches_back(links, start, id);
                    assert forall|other: NodeId| #[trigger]
                        reaches(links, id, other) implies start <= other by {
                        lemma_reaches_transitive(links, start, id, other);
                        assert(component@.contains(other));
                        assert(component@.to_set().contains(other));
                        assert(before.contains(other));
                        assert(ids@.to_set().contains(other));
                        let k = choose|k: int| 0 <= k < ids@.len() && ids@[k] == other;
                        if k < i {
                            assert(!before.contains(ids@[k]));
                        } else if k > i {
                            assert(ids@[i as int] < ids@[k]);
                        }
                    }
                }
                assert forall|a: NodeId, b: NodeId|
                    unseen@.contains(a) && #[trigger] links(a, b) implies unseen@.contains(b) by {
                    assert(before.contains(b));
                    if component@.to_set().contains(b) {
                        assert(component@.contains(b));
                        assert(links(b, a));
                        lemma_reaches_step(links, b, a);
                        lemma_reaches_transitive(links, start, b, a);
                        assert(component@.contains(a));
                        assert(component@.to_set().contains(a));
                    }
                }
                assert forall|id: NodeId| #[trigger] names@.contains_key(id)
                    <==> lists_of@.contains_key(id) && !unseen@.contains(id) by {
                    assert(named.contains_key(id) <==> lists_of@.contains_key(id)
                        && !before.contains(id));
                    assert(component@.to_set().contains(id) <==> component@.contains(id));
                }
                assert forall|id: NodeId| #[trigger] names@.contains_key(id) implies
                    is_least_reached(links, id, names@[id]) by {
                    if component@.contains(id) {
                        assert(is_least_reached(links, id, start));
                    } else {
                        assert(named.contains_key(id));
                    }
                }
                assert(component@.to_set().contains(start));
            }
        }
        i += 1;
    }
    proof {
        assert(names@.dom() =~= lists_of@.dom()) by {
            assert forall|id: NodeId| #[trigger] lists_of@.contains_key(id) implies
                !unseen@.contains(id) by {
                assert(ids@.to_set().contains(id));
                let k = choose|k: int| 0 <= k < ids@.len() && ids@[k] == id;
                assert(!unseen@.contains(ids@[k]));
            }
        }
    }
    names
}

/// Splits communities into their connected parts.
pub fn refine_connected(graph: &WeightedGraph, communities: &BTreeMap<NodeId, NodeId>) -> (names:
    BTreeMap<NodeId, NodeId>)
    requires
        is_symmetric(lists_view(graph.ties@)),
        communities@.dom() == graph.ties@.dom(),
    ensures
        is_refined(lists_view(graph.ties@), communities@, names@),
{
    let ghost ties = lists_view(graph.ties@);
    let ghost links = kin(ties, communities@);
    let ids = map_keys(&graph.ties);
    let mut lists_of: BTreeMap<NodeId, Vec<NodeId>> = BTreeMap::new();
    let mut i: usize = 0;
    assert(lists_of@.dom() =~= ids@.take(0).to_set());
    while i < ids.len()
        invariant
            ties == lists_view(graph.ties@),
            is_symmetric(ties),
            communities@.dom() == graph.ties@.dom(),
            links == kin(ties, communities@),
            ids@.to_set() == graph.ties@.dom(),
            i <= ids@.len(),
            lists_of@.dom() == ids@.take(i as int).to_set(),
            forall|a: NodeId, b: NodeId|
                lists_of@.contains_key(a) ==> (#[trigger] lists_of@[a]@.contains(b) <==> links(
                    a,
                    b,
                )),
        decreases ids@.len() - i,
    {
        let id: NodeId = ids[i];
        proof {
            assert(ids@.contains(id));
            assert(ids@.to_set().contains(id));
            assert(ties.contains_key(id));
        }
        let list = graph.ties.get(&id).unwrap();
        let own: NodeId = *communities.get(&id).unwrap();
        let mut near: Vec<NodeId> = Vec::new();
        let mut j: usize = 0;
        while j < list.len()
            invariant
                ties == lists_view(graph.ties@),
                is_symmetric(ties),
                communities@.dom() == graph.ties@.dom(),
                ties.contains_key(id),
                ties[id] == list@,
                own == communities@[id],
                j <= list@.len(),
                forall|b: NodeId| #[trigger]
                    near@.contains(b) <==> exists|k: int|
                        0 <= k < j && (#[trigger] list@[k]).0 == b && spec_f64_less(0, list@[k].1)
                            && communities@[b] == own,
            decreases list@.len() - j,
        {
            let (other, weight): (NodeId, u64) = list[j];
            let ghost before = near@;
            proof {
                assert(ties[id].contains((other, weight))) by {
                    assert(list@[j as int] == (other, weight));
                }
                assert(ties.contains_key(other));
            }
            let wanted = f64_less(0, weight) && *communities.get(&other).unwrap() == own;
            if wanted {
                near.push(other);
            }
            proof {
                assert forall|b: NodeId| #[trigger] near@.contains(b) <==> exists|k: int|
                    0 <= k < j + 1 && (#[trigger] list@[k]).0 == b && spec_f64_less(0, list@[k].1)
                        && communities@[b] == own by {
                    lemma_contains_push(before, other, b);
                    assert(before.contains(b) <==> exists|k: int|
                        0 <= k < j && (#[trigger] list@[k]).0 == b && spec_f64_less(0, list@[k].1)
                            && communities@[b] == own);
                    if before.contains(b) {
                        let k = choose|k: int|
                            0 <= k < j && (#[trigger] list@[k]).0 == b && spec_f64_less(
                                0,
                                list@[k].1,
                            ) && communities@[b] == own;
                        assert(list@[k].0 == b);
                    }
                    if wanted && b == other {
                        assert(list@[j as int].0 == b);
                    }
                    if exists|k: int|
                        0 <= k < j + 1 && (#[trigger] list@[k]).0 == b && spec_f64_less(
                            0,
                            list@[k].1,
                        ) && communities@[b] == own {
                        let k = choose|k: int|
                            0 <= k < j + 1 && (#[trigger] list@[k]).0 == b && spec_f64_less(
                                0,
                                list@[k].1,
                            ) && communities@[b] == own;
                        if k < j {
                            assert(list@[k].0 == b);
                        }
                    }
                }
            }
            j += 1;
        }
        proof {
            assert forall|b: NodeId| #[trigger] near@.contains(b) <==> links(id, b) by {
                if near@.contains(b) {
                    let k = choose|k: int|
                        0 <= k < j && (#[trigger] list@[k]).0 == b && spec_f64_less(0, list@[k].1)
                            && communities@[b] == own;
                    assert(ties[id].contains((b, list@[k].1))) by {
                        assert(list@[k] == (b, list@[k].1));
                    }
                }
                if links(id, b) {
                    let weight = choose|weight: u64|
                        spec_f64_less(0, weight) && #[trigger] ties[id].contains((b, weight));
                    let k = choose|k: int| 0 <= k < list@.len() && list@[k] == (b, weight);
                    assert(list@[k].0 == b);
                }
            }
            assert(ids@.take(i + 1) =~= ids@.take(i as int).push(id));
            lemma_to_set_push(ids@.take(i as int), id);
        }
        lists_of.insert(id, near);
        assert(lists_of@.dom() =~= ids@.take(i + 1).to_set());
        i += 1;
    }
    proof {
        assert(ids@.take(i as int) =~= ids@);
        assert(ties.dom() =~= graph.ties@.dom());
        assert forall|a: NodeId, b: NodeId| #[trigger] listed_steps(lists_of@)(a, b) == links(
            a,
            b,
        ) by {
            if lists_of@.contains_key(a) {
                assert(lists_of@[a]@.contains(b) <==> links(a, b));
            }
        }
        assert(listed_steps(lists_of@) =~= links);
        assert forall|a: NodeId, b: NodeId| #[trigger] links(a, b) implies links(b, a) by {
            let weight = choose|weight: u64|
                spec_f64_less(0, weight) && #[trigger] ties[a].contains((b, weight));
            assert(ties[b].contains((a, weight)));
        }
    }
    name_components(&lists_of)
}

/// The distinct names, in ascending order.
pub open spec fn are_heads(names: Map<NodeId, NodeId>, heads: Seq<NodeId>) -> bool {
    increasing(heads) && forall|name: NodeId| #[trigger]
        heads.contains(name) <==> exists|id: NodeId| #[trigger]
            names.contains_key(id) && names[id] == name
}

/// The distinct names, in ascending order.
fn list_heads(ids: &Vec<NodeId>, names: &BTreeMap<NodeId, NodeId>) -> (heads: Vec<NodeId>)
    requires
        ids@.to_set() == names@.dom(),
    ensures
        are_heads(names@, heads@),
{
    let mut all: Vec<NodeId> = Vec::new();
    let mut i: usize = 0;
    while i < ids.len()
        invariant
            ids@.to_set() == names@.dom(),
            i <= ids@.len(),
            all@.len() == i,
            forall|k: int| 0 <= k < i ==> (#[trigger] all@[k]) == names@[ids@[k]],
        decreases ids@.len() - i,
    {
        proof {
            assert(ids@.contains(ids@[i as int]));
            assert(ids@.to_set().contains(ids@[i as int]));
        }
        all.push(*names.get(&ids[i]).unwrap());
        i += 1;
    }
    let heads = sort_dedup(&all);
    proof {
        assert forall|name: NodeId| #[trigger] heads@.contains(name) <==> exists|id: NodeId|
            #[trigger] names@.contains_key(id) && names@[id] == name by {
            if all@.contains(name) {
                let k = choose|k: int| 0 <= k < all@.len() && all@[k] == name;
                assert(ids@.contains(ids@[k]));
                assert(ids@.to_set().contains(ids@[k]));
                assert(names@.contains_key(ids@[k]) && names@[ids@[k]] == name);
            }
            if exists|id: NodeId| #[trigger] names@.contains_key(id) && names@[id] == name {
                let id = choose|id: NodeId| #[trigger]
                    names@.contains_key(id) && names@[id] == name;
                assert(ids@.to_set().contains(id));
                let k = choose|k: int| 0 <= k < ids@.len() && ids@[k] == id;
                assert(all@[k] == name);
                assert(all@.contains(name));
            }
        }
    }
    heads
}

/// The nodes of a community, given the nodes that the communities it was made of had: those of the
/// first `count` in order.
pub open spec fn merged_members(
    members: Map<NodeId, Seq<NodeId>>,
    names: Map<NodeId, NodeId>,
    ids: Seq<NodeId>,
    count: int,
    name: NodeId,
) -> Seq<NodeId>
    decreases count,
{
    if count <= 0 {
        Seq::empty()
    } else {
        let before = merged_members(members, names, ids, count - 1, name);
        if names[ids[count - 1]] == name {
            before + members[ids[count - 1]]
        } else {
            before
        }
    }
}

/// The lists of nodes as mathematical values.
pub open spec fn member_views(members: Map<NodeId, Vec<NodeId>>) -> Map<NodeId, Seq<NodeId>> {
    members.map_values(|list: Vec<NodeId>| list@)
}

/// Puts the nodes of communities that were joined together.
fn merge_members(
    ids: &Vec<NodeId>,
    heads: &Vec<NodeId>,
    names: &BTreeMap<NodeId, NodeId>,
    members: &BTreeMap<NodeId, Vec<NodeId>>,
) -> (merged: BTreeMap<NodeId, Vec<NodeId>>)
    requires
        ids@.to_set() == names@.dom(),
        names@.dom() == members@.dom(),
        are_heads(names@, heads@),
    ensures
        merged@.dom() == heads@.to_set(),
        forall|name: NodeId| #[trigger]
            merged@.contains_key(name) ==> merged@[name]@ == merged_members(
                member_views(members@),
                names@,
                ids@,
                ids@.len() as int,
                name,
            ),
{
    let ghost all = member_views(members@);
    let mut merged: BTreeMap<NodeId, Vec<NodeId>> = BTreeMap::new();
    let mut k: usize = 0;
    assert(merged@.dom() =~= heads@.take(0).to_set());
    while k < heads.len()
        invariant
            k <= heads@.len(),
            merged@.dom() == heads@.take(k as int).to_set(),
            forall|name: NodeId| #[trigger] merged@.contains_key(name) ==> merged@[name]@.len() == 0,
        decreases heads@.len() - k,
    {
        merged.insert(heads[k], Vec::new());
        proof {
            assert(heads@.take(k + 1) =~= heads@.take(k as int).push(heads@[k as int]));
            lemma_to_set_push(heads@.take(k as int), heads@[k as int]);
            assert(merged@.dom() =~= heads@.take(k + 1).to_set());
        }
        k += 1;
    }
    assert(heads@.take(k as int) =~= heads@);
    let mut i: usize = 0;
    proof {
        assert forall|name: NodeId| #[trigger] merged@.contains_key(name) implies merged@[name]@
            == merged_members(all, names@, ids@, 0, name) by {
            assert(merged@[name]@ =~= Seq::<NodeId>::empty());
        }
    }
    while i < ids.len()
        invariant
            ids@.to_set() == names@.dom(),
            names@.dom() == members@.dom(),
            are_heads(names@, heads@),
            all == member_views(members@),
            i <= ids@.len(),
            merged@.dom() == heads@.to_set(),
            forall|name: NodeId| #[trigger]
                merged@.contains_key(name) ==> merged@[name]@ == merged_members(
                    all,
                    names@,
                    ids@,
                    i as int,
                    name,
                ),
        decreases ids@.len() - i,
    {
        let id: NodeId = ids[i];
        let ghost before = merged@;
        proof {
            assert(ids@.contains(id));
            assert(ids@.to_set().contains(id));
        }
        let name: NodeId = *names.get(&id).unwrap();
        proof {
            assert(names@.contains_key(id) && names@[id] == name);
            assert(heads@.contains(name));
            assert(heads@.to_set().contains(name));
            assert(merged@.contains_key(name));
        }
        let mut list = merged.remove(&name).unwrap();
        let ghost held = list@;
        let added = members.get(&id).unwrap();
        let mut j: usize = 0;
        assert(held + added@.take(0) =~= held);
        while j < added.len()
            invariant
                j <= added@.len(),
                list@ == held + added@.take(j as int),
            decreases added@.len() - j,
        {
            list.push(added[j]);
            assert(held + added@.take(j + 1) =~= (held + added@.take(j as int)).push(
                added@[j as int],
            ));
            j += 1;
        }
        assert(added@.take(j as int) =~= added@);
        merged.insert(name, list);
        proof {
            assert(merged@.dom() =~= heads@.to_set());
            assert forall|other: NodeId| #[trigger] merged@.contains_key(other) implies
                merged@[other]@ == merged_members(all, names@, ids@, i + 1, other) by {
                assert(before.contains_key(other));
                if other == name {
                    assert(all[id] == added@);
                }
            }
        }
        i += 1;
    }
    merged
}

impl<W: Fn(u32) -> u64, P: Fn(u64, u64) -> u64> LeidenArithmetic<W, P> {
    /// The weight of the ties between two communities: of those that lead from a node to one that
    /// is not smaller, among all ties of the first `i` nodes and the first `j` of the next one.
    pub open spec fn tie_sum(
        &self,
        ties: Map<NodeId, Seq<(NodeId, u64)>>,
        names: Map<NodeId, NodeId>,
        ids: Seq<NodeId>,
        i: nat,
        j: nat,
        a: NodeId,
        b: NodeId,
    ) -> Option<u64>
        decreases i, j,
    {
        if j > 0 {
            let before = self.tie_sum(ties, names, ids, i, (j - 1) as nat, a, b);
            let from = ids[i as int];
            let tie = ties[from][j - 1];
            if from <= tie.0 && lower(names[from], names[tie.0]) == a && upper(
                names[from],
                names[tie.0],
            ) == b {
                Some(
                    self.sum(
                        match before {
                            Some(sum) => sum,
                            None => 0,
                        },
                        tie.1,
                    ),
                )
            } else {
                before
            }
        } else if i > 0 {
            let last = (i - 1) as nat;
            self.tie_sum(ties, names, ids, last, ties[ids[last as int]].len(), a, b)
        } else {
            None
        }
    }

    /// Whether a graph has the communities of another as its nodes.
    pub open spec fn is_aggregate(
        &self,
        ties: Map<NodeId, Seq<(NodeId, u64)>>,
        names: Map<NodeId, NodeId>,
        ids: Seq<NodeId>,
        heads: Seq<NodeId>,
        next: Map<NodeId, Seq<(NodeId, u64)>>,
    ) -> bool {
        are_spread(
            |a: NodeId, b: NodeId| self.tie_sum(ties, names, ids, ids.len(), 0, a, b),
            heads.to_set(),
            next,
        )
    }

    /// The graph whose nodes are the communities of another.
    fn aggregate(
        &self,
        graph: &WeightedGraph,
        ids: &Vec<NodeId>,
        names: &BTreeMap<NodeId, NodeId>,
        heads: &Vec<NodeId>,
    ) -> (next: WeightedGraph)
        requires
            self.sound(),
            ids@.to_set() == graph.ties@.dom(),
            names@.dom() == graph.ties@.dom(),
            is_symmetric(lists_view(graph.ties@)),
            are_heads(names@, heads@),
        ensures
            self.is_aggregate(
                lists_view(graph.ties@),
                names@,
                ids@,
                heads@,
                lists_view(next.ties@),
            ),
            is_symmetric(lists_view(next.ties@)),
            next.ties@.dom() == heads@.to_set(),
    {
        let ghost ties = lists_view(graph.ties@);
        let mut pairs: Pairs<u64> = BTreeMap::new();
        let mut i: usize = 0;
        while i < ids.len()
            invariant
                self.sound(),
                ties == lists_view(graph.ties@),
                is_symmetric(ties),
                ids@.to_set() == graph.ties@.dom(),
                names@.dom() == graph.ties@.dom(),
                i <= ids@.len(),
                forall|a: NodeId, b: NodeId|
                    #![trigger pair_value(pairs@, a, b)]
                    pair_value(pairs@, a, b) == self.tie_sum(
                        ties,
                        names@,
                        ids@,
                        i as nat,
                        0,
                        a,
                        b,
                    ),
            decreases ids@.len() - i,
        {
            let from: NodeId = ids[i];
            proof {
                assert(ids@.contains(from));
                assert(ids@.to_set().contains(from));
                assert(ties.contains_key(from));
            }
            let list = graph.ties.get(&from).unwrap();
            let own: NodeId = *names.get(&from).unwrap();
            let mut j: usize = 0;
            while j < list.len()
                invariant
                    self.sound(),
                    ties == lists_view(graph.ties@),
                    is_symmetric(ties),
                    names@.dom() == graph.ties@.dom(),
                    i < ids@.len(),
                    from == ids@[i as int],
                    ties.contains_key(from),
                    list@ == ties[from],
                    own == names@[from],
                    j <= list@.len(),
                    forall|a: NodeId, b: NodeId|
                        #![trigger pair_value(pairs@, a, b)]
                        pair_value(pairs@, a, b) == self.tie_sum(
                            ties,
                            names@,
                            ids@,
                            i as nat,
                            j as nat,
                            a,
                            b,
                        ),
                decreases list@.len() - j,
            {
                let (to, weight): (NodeId, u64) = list[j];
                let ghost before = pairs@;
                proof {
                    assert(ties[from].contains((to, weight))) by {
                        assert(list@[j as int] == (to, weight));
                    }
                    assert(ties.contains_key(to));
                }
                let other: NodeId = *names.get(&to).unwrap();
                if from <= to {
                    let (a, b): (NodeId, NodeId) = if own <= other {
                        (own, other)
                    } else {
                        (other, own)
                    };
                    let current: u64 = match look_up(&pairs, a, b) {
                        Some(sum) => sum,
                        None => 0,
                    };
                    let sum: u64 = (self.plus)(current, weight);
                    set_pair(&mut pairs, a, b, sum);
                }
                proof {
                    assert forall|a: NodeId, b: NodeId|
                        #![trigger pair_value(pairs@, a, b)]
                        pair_value(pairs@, a, b) == self.tie_sum(
                            ties,
                            names@,
                            ids@,
                            i as nat,
                            (j + 1) as nat,
                            a,
                            b,
                        ) by {
                        assert(pair_value(before, a, b) == self.tie_sum(
                            ties,
                            names@,
                            ids@,
                            i as nat,
                            j as nat,
                            a,
                            b,
                        ));
                    }
                }
                j += 1;
            }
            i += 1;
        }
        let ghost value = |a: NodeId, b: NodeId|
            self.tie_sum(ties, names@, ids@, ids@.len(), 0, a, b);
        proof {
            assert(values_of(pairs@) =~= value);
            assert(ties.dom() =~= graph.ties@.dom());
            assert forall|a: NodeId, b: NodeId|
                #![trigger pair_value(pairs@, a, b)]
                pair_value(pairs@, a, b) is Some implies a <= b && heads@.contains(a)
                && heads@.contains(b) by {
                let (from, to, weight) = self.lemma_tie_found(
                    ties,
                    names@,
                    ids@,
                    ids@.len(),
                    0,
                    a,
                    b,
                );
                assert(names@.contains_key(from) && names@.contains_key(to));
                assert(heads@.contains(names@[from]));
                assert(heads@.contains(names@[to]));
            }
        }
        let next = WeightedGraph { ties: spread_pairs(heads, &pairs) };
        proof {
            assert forall|a: NodeId, b: NodeId| #[trigger] value(a, b) is Some implies
                heads@.to_set().contains(a) && heads@.to_set().contains(b) by {
                assert(pair_value(pairs@, a, b) is Some);
            }
            lemma_spread_symmetric(value, heads@.to_set(), lists_view(next.ties@));
            assert(next.ties@.dom() =~= lists_view(next.ties@).dom());
        }
        next
    }

    /// Two communities are tied by a tie between nodes of theirs.
    proof fn lemma_tie_found(
        &self,
        ties: Map<NodeId, Seq<(NodeId, u64)>>,
        names: Map<NodeId, NodeId>,
        ids: Seq<NodeId>,
        i: nat,
        j: nat,
        a: NodeId,
        b: NodeId,
    ) -> (tie: (NodeId, NodeId, u64))
        requires
            is_symmetric(ties),
            ids.to_set() == ties.dom(),
            i <= ids.len(),
            i == ids.len() ==> j == 0,
            i < ids.len() ==> j <= ties[ids[i as int]].len(),
            self.tie_sum(ties, names, ids, i, j, a, b) is Some,
        ensures
            ties.contains_key(tie.0),
            ties.contains_key(tie.1),
            ties[tie.0].contains((tie.1, tie.2)),
            lower(names[tie.0], names[tie.1]) == a,
            upper(names[tie.0], names[tie.1]) == b,
        decreases i, j,
    {
        if j > 0 {
            if self.tie_sum(ties, names, ids, i, (j - 1) as nat, a, b) is Some {
                self.lemma_tie_found(ties, names, ids, i, (j - 1) as nat, a, b)
            } else {
                let from = ids[i as int];
                let tie = ties[from][j - 1];
                assert(ids.contains(from));
                assert(ids.to_set().contains(from));
                assert(ties[from].contains((tie.0, tie.1)));
                (from, tie.0, tie.1)
            }
        } else {
            let last = (i - 1) as nat;
            self.lemma_tie_found(ties, names, ids, last, ties[ids[last as int]].len(), a, b)
        }
    }

    /// Whether one level leads to the next: communities are split into their connected parts, the
    /// parts are the nodes of the next graph, and their nodes are put together.
    pub open spec fn is_next_level(
        &self,
        ties: Map<NodeId, Seq<(NodeId, u64)>>,
        members: Map<NodeId, Seq<NodeId>>,
        communities: Map<NodeId, NodeId>,
        ids: Seq<NodeId>,
        names: Map<NodeId, NodeId>,
        heads: Seq<NodeId>,
        next_ties: Map<NodeId, Seq<(NodeId, u64)>>,
        next_members: Map<NodeId, Seq<NodeId>>,
    ) -> bool {
        &&& increasing(ids)
        &&& ids.to_set() == ties.dom()
        &&& is_refined(ties, communities, names)
        &&& are_heads(names, heads)
        &&& self.is_aggregate(ties, names, ids, heads, next_ties)
        &&& next_members.dom() == heads.to_set()
        &&& forall|name: NodeId| #[trigger]
            next_members.contains_key(name) ==> next_members[name] == merged_members(
                members,
                names,
                ids,
                ids.len() as int,
                name,
            )
    }

    /// The next level, unless every node stays alone. Also tells how many communities there are.
    pub fn next_level(
        &self,
        graph: &WeightedGraph,
        members: &BTreeMap<NodeId, Vec<NodeId>>,
        communities: &BTreeMap<NodeId, NodeId>,
    ) -> (result: Option<(WeightedGraph, BTreeMap<NodeId, Vec<NodeId>>)>)
        requires
            self.sound(),
            is_symmetric(lists_view(graph.ties@)),
            members@.dom() == graph.ties@.dom(),
            communities@.dom() == graph.ties@.dom(),
        ensures
            match result {
                Some((next, merged)) => {
                    &&& is_symmetric(lists_view(next.ties@))
                    &&& merged@.dom() == next.ties@.dom()
                    &&& exists|ids: Seq<NodeId>, names: Map<NodeId, NodeId>, heads: Seq<NodeId>|
                        #[trigger] self.is_next_level(
                            lists_view(graph.ties@),
                            member_views(members@),
                            communities@,
                            ids,
                            names,
                            heads,
                            lists_view(next.ties@),
                            member_views(merged@),
                        ) && heads.len() != ids.len()
                },
                None => stays_apart(lists_view(graph.ties@), communities@) && is_standstill(
                    lists_view(graph.ties@),
                    communities@,
                ),
            },
    {
        let ghost ties = lists_view(graph.ties@);
        let names = refine_connected(graph, communities);
        let ids = map_keys(&graph.ties);
        assert(ties.dom() =~= graph.ties@.dom());
        let heads = list_heads(&ids, &names);
        if heads.len() == ids.len() {
            proof {
                lemma_heads_apart(ties, communities@, ids@, names@, heads@);
                assert(are_heads(names@, heads@) && increasing(ids@));
                assert(is_standstill(ties, communities@));
            }
            return None;
        }
        let next = self.aggregate(graph, &ids, &names, &heads);
        let merged = merge_members(&ids, &heads, &names, members);
        proof {
            assert(member_views(merged@).dom() =~= heads@.to_set());
            assert forall|name: NodeId| #[trigger] member_views(merged@).contains_key(name) implies
                member_views(merged@)[name] == merged_members(
                member_views(members@),
                names@,
                ids@,
                ids@.len() as int,
                name,
            ) by {
                assert(merged@.contains_key(name));
            }
            assert(self.is_next_level(
                ties,
                member_views(members@),
                communities@,
                ids@,
                names@,
                heads@,
                lists_view(next.ties@),
                member_views(merged@),
            ));
        }
        Some((next, merged))
    }
}

/// Whether no node is joined to another of its community.
pub open spec fn stays_apart(
    ties: Map<NodeId, Seq<(NodeId, u64)>>,
    communities: Map<NodeId, NodeId>,
) -> bool {
    forall|a: NodeId, b: NodeId|
        ties.contains_key(a) && ties.contains_key(b) && #[trigger] reaches(
            kin(ties, communities),
            a,
            b,
        ) ==> a == b
}

/// Whether splitting communities into their connected parts leaves as many parts as nodes.
pub open spec fn is_standstill(
    ties: Map<NodeId, Seq<(NodeId, u64)>>,
    communities: Map<NodeId, NodeId>,
) -> bool {
    exists|ids: Seq<NodeId>, names: Map<NodeId, NodeId>, heads: Seq<NodeId>|
        #![trigger are_heads(names, heads), increasing(ids)]
        increasing(ids) && ids.to_set() == ties.dom() && is_refined(ties, communities, names)
            && are_heads(names, heads) && heads.len() == ids.len()
}

/// As many names as nodes means that every node is alone.
proof fn lemma_heads_apart(
    ties: Map<NodeId, Seq<(NodeId, u64)>>,
    communities: Map<NodeId, NodeId>,
    ids: Seq<NodeId>,
    names: Map<NodeId, NodeId>,
    heads: Seq<NodeId>,
)
    requires
        is_symmetric(ties),
        increasing(ids),
        ids.to_set() == ties.dom(),
        communities.dom() == ties.dom(),
        is_refined(ties, communities, names),
        are_heads(names, heads),
        heads.len() == ids.len(),
    ensures
        stays_apart(ties, communities),
{
    let links = kin(ties, communities);
    lemma_increasing_distinct(ids);
    lemma_increasing_distinct(heads);
    ids.unique_seq_to_set();
    heads.unique_seq_to_set();
    assert(heads.to_set().subset_of(ties.dom())) by {
        assert forall|name: NodeId| #[trigger] heads.to_set().contains(name) implies
            ties.dom().contains(name) by {
            assert(heads.contains(name));
            let id = choose|id: NodeId| #[trigger] names.contains_key(id) && names[id] == name;
            assert(is_least_reached(links, id, name));
            lemma_kin_stays(ties, communities, id, name);
        }
    }
    vstd::set_lib::lemma_subset_equality(heads.to_set(), ties.dom());
    assert forall|id: NodeId| #[trigger] ties.contains_key(id) implies names[id] == id by {
        assert(heads.to_set().contains(id));
        let other = choose|other: NodeId| #[trigger]
            names.contains_key(other) && names[other] == id;
        assert(is_least_reached(links, other, id));
        assert(names.contains_key(id));
        assert(is_least_reached(links, id, names[id]));
        lemma_reaches_transitive(links, other, id, names[id]);
        lemma_reaches_step(links, id, id);
    }
    assert forall|a: NodeId, b: NodeId|
        ties.contains_key(a) && ties.contains_key(b) && #[trigger] reaches(links, a, b) implies a
        == b by {
        assert forall|x: NodeId, y: NodeId| #[trigger] links(x, y) implies links(y, x) by {
            let weight = choose|weight: u64|
                spec_f64_less(0, weight) && #[trigger] ties[x].contains((y, weight));
            assert(ties[y].contains((x, weight)));
        }
        lemma_reaches_back(links, a, b);
        assert(names.contains_key(a) && names.contains_key(b));
        assert(is_least_reached(links, a, names[a]));
        assert(is_least_reached(links, b, names[b]));
    }
}

/// Steps within communities stay in the graph.
proof fn lemma_kin_stays(
    ties: Map<NodeId, Seq<(NodeId, u64)>>,
    communities: Map<NodeId, NodeId>,
    from: NodeId,
    to: NodeId,
)
    requires
        is_symmetric(ties),
        ties.contains_key(from),
        reaches(kin(ties, communities), from, to),
    ensures
        ties.contains_key(to),
{
    let links = kin(ties, communities);
    assert forall|a: NodeId, b: NodeId| ties.dom().contains(a) && #[trigger] links(a, b) implies
        ties.dom().contains(b) by {
        let weight = choose|weight: u64|
            spec_f64_less(0, weight) && #[trigger] ties[a].contains((b, weight));
        assert(ties.contains_key(b));
    }
    lemma_closed_reaches(links, ties.dom(), from, to);
}

/// The steps along edges that count, in either direction.
pub open spec fn snapshot_links(snapshot: &AdjacencySnapshot, ids: Seq<NodeId>) -> Adjacency {
    |a: NodeId, b: NodeId|
        greatest_weight(snapshot, ids, ids.len(), 0, lower(a, b), upper(a, b)) is Some
}

/// The steps that stay within a group.
pub open spec fn inside(adjacency: Adjacency, group: Set<NodeId>) -> Adjacency {
    |a: NodeId, b: NodeId| group.contains(a) && group.contains(b) && adjacency(a, b)
}

/// Whether every node of a group reaches every other without leaving the group.
pub open spec fn is_connected(adjacency: Adjacency, group: Set<NodeId>) -> bool {
    forall|a: NodeId, b: NodeId|
        #![trigger group.contains(a), group.contains(b)]
        group.contains(a) && group.contains(b) ==> reaches(inside(adjacency, group), a, b)
}

/// Whether two groups are joined by a step.
pub open spec fn are_joined(adjacency: Adjacency, a: Seq<NodeId>, b: Seq<NodeId>) -> bool {
    exists|x: NodeId, y: NodeId| a.contains(x) && b.contains(y) && #[trigger] adjacency(x, y)
}

/// Whether groups divide the nodes of a graph: every node is in exactly one group, a group is
/// named after its smallest node, and each group is connected.
pub open spec fn is_division(
    adjacency: Adjacency,
    nodes: Set<NodeId>,
    members: Map<NodeId, Seq<NodeId>>,
) -> bool {
    &&& forall|name: NodeId| #[trigger]
        members.contains_key(name) ==> {
            &&& members[name].no_duplicates()
            &&& members[name].contains(name)
            &&& is_connected(adjacency, members[name].to_set())
        }
    &&& forall|name: NodeId, id: NodeId|
        members.contains_key(name) && #[trigger] members[name].contains(id) ==> name <= id
            && nodes.contains(id)
    &&& forall|a: NodeId, b: NodeId, id: NodeId|
        members.contains_key(a) && members.contains_key(b) && #[trigger] members[a].contains(id)
            && #[trigger] members[b].contains(id) ==> a == b
    &&& forall|id: NodeId| #[trigger]
        nodes.contains(id) ==> exists|name: NodeId|
            members.contains_key(name) && #[trigger] members[name].contains(id)
}

/// Whether ties join groups that a step joins.
pub open spec fn ties_join(
    adjacency: Adjacency,
    ties: Map<NodeId, Seq<(NodeId, u64)>>,
    members: Map<NodeId, Seq<NodeId>>,
) -> bool {
    forall|a: NodeId, b: NodeId, weight: u64|
        ties.contains_key(a) && a != b && #[trigger] ties[a].contains((b, weight)) ==> are_joined(
            adjacency,
            members[a],
            members[b],
        )
}

/// More steps reach no fewer nodes.
proof fn lemma_reaches_more(few: Adjacency, many: Adjacency, a: NodeId, b: NodeId)
    requires
        forall|x: NodeId, y: NodeId| #[trigger] few(x, y) ==> many(x, y),
        reaches(few, a, b),
    ensures
        reaches(many, a, b),
{
    let reached = Set::new(|id: NodeId| reaches(many, a, id));
    lemma_reaches_step(many, a, a);
    assert forall|x: NodeId, y: NodeId| reached.contains(x) && #[trigger] few(x, y) implies
        reached.contains(y) by {
        lemma_reaches_step(many, x, y);
        lemma_reaches_transitive(many, a, x, y);
    }
    lemma_closed_reaches(few, reached, a, b);
}

/// What is put together is what the parts hold.
proof fn lemma_merged_contains(
    members: Map<NodeId, Seq<NodeId>>,
    names: Map<NodeId, NodeId>,
    ids: Seq<NodeId>,
    count: int,
    name: NodeId,
    id: NodeId,
)
    requires
        0 <= count <= ids.len(),
    ensures
        merged_members(members, names, ids, count, name).contains(id) <==> exists|k: int|
            0 <= k < count && names[#[trigger] ids[k]] == name && members[ids[k]].contains(id),
    decreases count,
{
    if count > 0 {
        lemma_merged_contains(members, names, ids, count - 1, name, id);
        let before = merged_members(members, names, ids, count - 1, name);
        let last = ids[count - 1];
        let added = members[last];
        if names[last] == name {
            let all = before + added;
            if before.contains(id) {
                let n = choose|n: int| 0 <= n < before.len() && before[n] == id;
                assert(all[n] == id);
            }
            if added.contains(id) {
                let n = choose|n: int| 0 <= n < added.len() && added[n] == id;
                assert(all[before.len() + n] == id);
                assert(names[ids[count - 1]] == name && members[ids[count - 1]].contains(id));
            }
            if all.contains(id) {
                let n = choose|n: int| 0 <= n < all.len() && all[n] == id;
                if n < before.len() {
                    assert(before[n] == id);
                } else {
                    assert(added[n - before.len()] == id);
                }
            }
        }
        if exists|k: int|
            0 <= k < count && names[#[trigger] ids[k]] == name && members[ids[k]].contains(id) {
            let k = choose|k: int|
                0 <= k < count && names[#[trigger] ids[k]] == name && members[ids[k]].contains(id);
            if k < count - 1 {
                assert(names[ids[k]] == name && members[ids[k]].contains(id));
            }
        }
        if before.contains(id) {
            let k = choose|k: int|
                0 <= k < count - 1 && names[#[trigger] ids[k]] == name && members[ids[k]].contains(
                    id,
                );
            assert(names[ids[k]] == name);
        }
    }
}

/// What is put together from groups that share nothing holds nothing twice.
proof fn lemma_merged_distinct(
    members: Map<NodeId, Seq<NodeId>>,
    names: Map<NodeId, NodeId>,
    ids: Seq<NodeId>,
    count: int,
    name: NodeId,
)
    requires
        0 <= count <= ids.len(),
        increasing(ids),
        ids.to_set() == members.dom(),
        forall|a: NodeId| #[trigger] members.contains_key(a) ==> members[a].no_duplicates(),
        forall|a: NodeId, b: NodeId, id: NodeId|
            members.contains_key(a) && members.contains_key(b) && #[trigger] members[a].contains(id)
                && #[trigger] members[b].contains(id) ==> a == b,
    ensures
        merged_members(members, names, ids, count, name).no_duplicates(),
    decreases count,
{
    if count > 0 {
        lemma_merged_distinct(members, names, ids, count - 1, name);
        let before = merged_members(members, names, ids, count - 1, name);
        let last = ids[count - 1];
        if names[last] == name {
            let added = members[last];
            let all = before + added;
            assert(ids.contains(last));
            assert(ids.to_set().contains(last));
            assert(members.contains_key(last));
            assert forall|n: int, m: int| 0 <= n < all.len() && 0 <= m < all.len() && n
                != m implies all[n] != all[m] by {
                let (x, y) = if n < m {
                    (n, m)
                } else {
                    (m, n)
                };
                if y < before.len() {
                    assert(before[x] != before[y]);
                } else if x >= before.len() {
                    assert(added[x - before.len()] != added[y - before.len()]);
                } else if all[x] == all[y] {
                    let id = before[x];
                    assert(before.contains(id));
                    assert(added[y - before.len()] == id);
                    assert(added.contains(id));
                    lemma_merged_contains(members, names, ids, count - 1, name, id);
                    let k = choose|k: int|
                        0 <= k < count - 1 && names[#[trigger] ids[k]] == name
                            && members[ids[k]].contains(id);
                    assert(ids.contains(ids[k]));
                    assert(ids.to_set().contains(ids[k]));
                    assert(members.contains_key(ids[k]));
                    assert(ids[k] < ids[count - 1]);
                }
            }
        }
    }
}

/// Groups that ties lead between are connected together.
proof fn lemma_groups_connected(
    adjacency: Adjacency,
    ties: Map<NodeId, Seq<(NodeId, u64)>>,
    communities: Map<NodeId, NodeId>,
    members: Map<NodeId, Seq<NodeId>>,
    group: Set<NodeId>,
    from: NodeId,
    to: NodeId,
    steps: nat,
    x: NodeId,
    y: NodeId,
)
    requires
        is_symmetric(ties),
        ties.contains_key(from),
        members.dom() == ties.dom(),
        forall|name: NodeId| #[trigger]
            members.contains_key(name) ==> is_connected(adjacency, members[name].to_set()),
        ties_join(adjacency, ties, members),
        forall|via: NodeId| #[trigger]
            reaches(kin(ties, communities), from, via) ==> members[via].to_set().subset_of(group),
        within(kin(ties, communities), from, to, steps),
        members[from].contains(x),
        members[to].contains(y),
    ensures
        reaches(inside(adjacency, group), x, y),
    decreases steps,
{
    let links = kin(ties, communities);
    let stay = inside(adjacency, group);
    if steps == 0 || within(links, from, to, (steps - 1) as nat) {
        if steps == 0 {
            lemma_reaches_step(links, from, from);
            lemma_group_step(adjacency, members[from], group, x, y);
        } else {
            lemma_groups_connected(
                adjacency,
                ties,
                communities,
                members,
                group,
                from,
                to,
                (steps - 1) as nat,
                x,
                y,
            );
        }
    } else {
        let via = choose|via: NodeId|
            within(links, from, via, (steps - 1) as nat) && #[trigger] links(via, to);
        assert(reaches(links, from, via));
        lemma_reaches_step(links, via, to);
        lemma_reaches_transitive(links, from, via, to);
        lemma_kin_stays(ties, communities, from, via);
        lemma_kin_stays(ties, communities, from, to);
        let weight = choose|weight: u64|
            spec_f64_less(0, weight) && #[trigger] ties[via].contains((to, weight));
        if via == to {
            lemma_groups_connected(
                adjacency,
                ties,
                communities,
                members,
                group,
                from,
                to,
                (steps - 1) as nat,
                x,
                y,
            );
        } else {
            assert(are_joined(adjacency, members[via], members[to]));
            let (p, q) = choose|p: NodeId, q: NodeId|
                members[via].contains(p) && members[to].contains(q) && #[trigger] adjacency(p, q);
            lemma_groups_connected(
                adjacency,
                ties,
                communities,
                members,
                group,
                from,
                via,
                (steps - 1) as nat,
                x,
                p,
            );
            assert(members[via].to_set().contains(p));
            assert(members[to].to_set().contains(q));
            assert(stay(p, q));
            lemma_reaches_step(stay, p, q);
            lemma_reaches_transitive(stay, x, p, q);
            lemma_group_step(adjacency, members[to], group, q, y);
            lemma_reaches_transitive(stay, x, q, y);
        }
    }
}

/// What is connected in a part is connected in the whole.
proof fn lemma_group_step(
    adjacency: Adjacency,
    part: Seq<NodeId>,
    group: Set<NodeId>,
    x: NodeId,
    y: NodeId,
)
    requires
        is_connected(adjacency, part.to_set()),
        part.to_set().subset_of(group),
        part.contains(x),
        part.contains(y),
    ensures
        reaches(inside(adjacency, group), x, y),
{
    assert(part.to_set().contains(x) && part.to_set().contains(y));
    lemma_reaches_more(inside(adjacency, part.to_set()), inside(adjacency, group), x, y);
}

/// A name is its own name, and the nodes of one name reach each other.
proof fn lemma_names(
    ties: Map<NodeId, Seq<(NodeId, u64)>>,
    communities: Map<NodeId, NodeId>,
    names: Map<NodeId, NodeId>,
    a: NodeId,
    b: NodeId,
)
    requires
        is_symmetric(ties),
        communities.dom() == ties.dom(),
        is_refined(ties, communities, names),
        names.contains_key(a),
        names.contains_key(b),
    ensures
        names.contains_key(names[a]),
        names[names[a]] == names[a],
        names[a] <= a,
        names[a] == names[b] <==> reaches(kin(ties, communities), a, b),
{
    let links = kin(ties, communities);
    let name = names[a];
    assert forall|x: NodeId, y: NodeId| #[trigger] links(x, y) implies links(y, x) by {
        let weight = choose|weight: u64|
            spec_f64_less(0, weight) && #[trigger] ties[x].contains((y, weight));
        assert(ties[y].contains((x, weight)));
    }
    assert(is_least_reached(links, a, name));
    lemma_kin_stays(ties, communities, a, name);
    assert(is_least_reached(links, name, names[name]));
    lemma_reaches_step(links, a, a);
    lemma_reaches_step(links, name, name);
    lemma_reaches_transitive(links, a, name, names[name]);
    assert(is_least_reached(links, b, names[b]));
    if names[a] == names[b] {
        lemma_reaches_back(links, b, name);
        lemma_reaches_transitive(links, a, name, b);
    }
    if reaches(links, a, b) {
        lemma_reaches_back(links, a, b);
        lemma_reaches_transitive(links, a, b, names[b]);
        lemma_reaches_transitive(links, b, a, names[a]);
    }
}

impl<W: Fn(u32) -> u64, P: Fn(u64, u64) -> u64> LeidenArithmetic<W, P> {
    /// The next level divides the nodes as well, and its ties join groups that a step joins.
    proof fn lemma_next_division(
        &self,
        adjacency: Adjacency,
        nodes: Set<NodeId>,
        ties: Map<NodeId, Seq<(NodeId, u64)>>,
        members: Map<NodeId, Seq<NodeId>>,
        communities: Map<NodeId, NodeId>,
        ids: Seq<NodeId>,
        names: Map<NodeId, NodeId>,
        heads: Seq<NodeId>,
        next_ties: Map<NodeId, Seq<(NodeId, u64)>>,
        next_members: Map<NodeId, Seq<NodeId>>,
    )
        requires
            forall|a: NodeId, b: NodeId| #[trigger] adjacency(a, b) ==> adjacency(b, a),
            is_symmetric(ties),
            communities.dom() == ties.dom(),
            members.dom() == ties.dom(),
            is_division(adjacency, nodes, members),
            ties_join(adjacency, ties, members),
            is_symmetric(next_ties),
            self.is_next_level(
                ties,
                members,
                communities,
                ids,
                names,
                heads,
                next_ties,
                next_members,
            ),
        ensures
            is_division(adjacency, nodes, next_members),
            ties_join(adjacency, next_ties, next_members),
    {
        let links = kin(ties, communities);
        let total = ids.len() as int;
        assert forall|name: NodeId, id: NodeId| next_members.contains_key(name) implies (
        #[trigger] next_members[name].contains(id) <==> exists|part: NodeId|
            members.contains_key(part) && names[part] == name && #[trigger] members[part].contains(
                id,
            )) by {
            lemma_merged_contains(members, names, ids, total, name, id);
            if next_members[name].contains(id) {
                let k = choose|k: int|
                    0 <= k < total && names[#[trigger] ids[k]] == name && members[ids[k]].contains(
                        id,
                    );
                assert(ids.contains(ids[k]));
                assert(ids.to_set().contains(ids[k]));
                assert(members.contains_key(ids[k]) && members[ids[k]].contains(id));
            }
            if exists|part: NodeId|
                members.contains_key(part) && names[part] == name
                    && #[trigger] members[part].contains(id) {
                let part = choose|part: NodeId|
                    members.contains_key(part) && names[part] == name
                        && #[trigger] members[part].contains(id);
                assert(ids.to_set().contains(part));
                let k = choose|k: int| 0 <= k < ids.len() && ids[k] == part;
                assert(names[ids[k]] == name && members[ids[k]].contains(id));
            }
        }
        assert forall|name: NodeId| #[trigger] next_members.contains_key(name) implies
            names.contains_key(name) && names[name] == name by {
            assert(heads.to_set().contains(name));
            assert(heads.contains(name));
            let id = choose|id: NodeId| #[trigger] names.contains_key(id) && names[id] == name;
            lemma_names(ties, communities, names, id, id);
        }
        assert forall|name: NodeId| #[trigger] next_members.contains_key(name) implies {
            &&& next_members[name].no_duplicates()
            &&& next_members[name].contains(name)
            &&& is_connected(adjacency, next_members[name].to_set())
        } by {
            lemma_merged_distinct(members, names, ids, total, name);
            assert(members.contains_key(name) && members[name].contains(name));
            let group = next_members[name].to_set();
            assert forall|x: NodeId, y: NodeId|
                #![trigger group.contains(x), group.contains(y)]
                group.contains(x) && group.contains(y) implies reaches(
                inside(adjacency, group),
                x,
                y,
            ) by {
                assert(next_members[name].contains(x) && next_members[name].contains(y));
                let from = choose|part: NodeId|
                    members.contains_key(part) && names[part] == name
                        && #[trigger] members[part].contains(x);
                let to = choose|part: NodeId|
                    members.contains_key(part) && names[part] == name
                        && #[trigger] members[part].contains(y);
                lemma_names(ties, communities, names, from, to);
                let steps = choose|steps: nat| #[trigger] within(links, from, to, steps);
                assert forall|via: NodeId| #[trigger] reaches(links, from, via) implies
                    members[via].to_set().subset_of(group) by {
                    lemma_kin_stays(ties, communities, from, via);
                    lemma_names(ties, communities, names, from, via);
                    assert forall|id: NodeId| #[trigger]
                        members[via].to_set().contains(id) implies group.contains(id) by {
                        assert(members[via].contains(id));
                        assert(next_members[name].contains(id));
                    }
                }
                lemma_groups_connected(
                    adjacency,
                    ties,
                    communities,
                    members,
                    group,
                    from,
                    to,
                    steps,
                    x,
                    y,
                );
            }
        }
        assert forall|name: NodeId, id: NodeId|
            next_members.contains_key(name) && #[trigger] next_members[name].contains(
                id,
            ) implies name <= id && nodes.contains(id) by {
            let part = choose|part: NodeId|
                members.contains_key(part) && names[part] == name
                    && #[trigger] members[part].contains(id);
            lemma_names(ties, communities, names, part, part);
        }
        assert forall|a: NodeId, b: NodeId, id: NodeId|
            next_members.contains_key(a) && next_members.contains_key(b)
                && #[trigger] next_members[a].contains(id) && #[trigger] next_members[b].contains(
                id,
            ) implies a == b by {
            let p = choose|part: NodeId|
                members.contains_key(part) && names[part] == a && #[trigger] members[part].contains(
                    id,
                );
            let q = choose|part: NodeId|
                members.contains_key(part) && names[part] == b && #[trigger] members[part].contains(
                    id,
                );
            assert(members[p].contains(id) && members[q].contains(id));
        }
        assert forall|id: NodeId| #[trigger] nodes.contains(id) implies exists|name: NodeId|
            next_members.contains_key(name) && #[trigger] next_members[name].contains(id) by {
            let part = choose|part: NodeId|
                members.contains_key(part) && #[trigger] members[part].contains(id);
            let name = names[part];
            assert(names.contains_key(part) && names[part] == name);
            assert(heads.contains(name));
            assert(heads.to_set().contains(name));
            assert(next_members.contains_key(name) && next_members[name].contains(id));
        }
        self.lemma_next_joins(
            adjacency,
            ties,
            members,
            ids,
            names,
            heads,
            next_ties,
            next_members,
        );
    }

    /// The ties of the next level join groups that a step joins.
    proof fn lemma_next_joins(
        &self,
        adjacency: Adjacency,
        ties: Map<NodeId, Seq<(NodeId, u64)>>,
        members: Map<NodeId, Seq<NodeId>>,
        ids: Seq<NodeId>,
        names: Map<NodeId, NodeId>,
        heads: Seq<NodeId>,
        next_ties: Map<NodeId, Seq<(NodeId, u64)>>,
        next_members: Map<NodeId, Seq<NodeId>>,
    )
        requires
            forall|a: NodeId, b: NodeId| #[trigger] adjacency(a, b) ==> adjacency(b, a),
            is_symmetric(ties),
            members.dom() == ties.dom(),
            ids.to_set() == ties.dom(),
            ties_join(adjacency, ties, members),
            self.is_aggregate(ties, names, ids, heads, next_ties),
            is_symmetric(next_ties),
            next_members.dom() == next_ties.dom(),
            forall|name: NodeId, id: NodeId|
                next_members.contains_key(name) ==> (#[trigger] next_members[name].contains(id)
                    <==> exists|part: NodeId|
                    members.contains_key(part) && names[part] == name
                        && #[trigger] members[part].contains(id)),
        ensures
            ties_join(adjacency, next_ties, next_members),
    {
        let value = |a: NodeId, b: NodeId| self.tie_sum(ties, names, ids, ids.len(), 0, a, b);
        assert forall|a: NodeId, b: NodeId, weight: u64|
            next_ties.contains_key(a) && a != b && #[trigger] next_ties[a].contains(
                (b, weight),
            ) implies are_joined(adjacency, next_members[a], next_members[b]) by {
            lemma_spread_ties(value, heads.to_set(), next_ties, a, (b, weight));
            let found = self.lemma_tie_found(
                ties,
                names,
                ids,
                ids.len(),
                0,
                lower(a, b),
                upper(a, b),
            );
            let s = found.0;
            let t = found.1;
            assert(s != t);
            assert(ties[s].contains((t, found.2)));
            assert(are_joined(adjacency, members[s], members[t]));
            let (x, y) = choose|x: NodeId, y: NodeId|
                members[s].contains(x) && members[t].contains(y) && #[trigger] adjacency(x, y);
            assert(next_ties.contains_key(b));
            if names[s] == a {
                assert(next_members[a].contains(x));
                assert(next_members[b].contains(y));
            } else {
                assert(adjacency(y, x));
                assert(next_members[a].contains(y));
                assert(next_members[b].contains(x));
            }
        }
    }
}

/// Whether groups of at least the required size are numbered from one, in the order of their
/// smallest nodes, and the other nodes are left out.
pub open spec fn is_clustering(
    members: Map<NodeId, Seq<NodeId>>,
    min_size: usize,
    kept: Seq<NodeId>,
    result: LeidenResult,
) -> bool {
    &&& increasing(kept)
    &&& forall|name: NodeId| #[trigger]
        kept.contains(name) <==> members.contains_key(name) && members[name].len() >= min_size
    &&& result.num_clusters == kept.len()
    &&& result.centroids@ == Map::<u32, Vec<u32>>::empty()
    &&& forall|cluster: u32| #[trigger]
        result.cluster_sizes@.contains_key(cluster) <==> 1 <= cluster <= kept.len()
    &&& forall|cluster: u32| #[trigger]
        result.cluster_sizes@.contains_key(cluster) ==> result.cluster_sizes@[cluster]
            == members[kept[cluster - 1]].len()
    &&& forall|id: NodeId, i: int|
        0 <= i < kept.len() && #[trigger] members[kept[i]].contains(id)
            ==> result.node_to_cluster@.contains_key(id) && result.node_to_cluster@[id] == i + 1
    &&& forall|id: NodeId| #[trigger]
        result.node_to_cluster@.contains_key(id) ==> exists|i: int|
            0 <= i < kept.len() && #[trigger] members[kept[i]].contains(id)
}

/// Numbers the groups that are large enough.
fn number_groups(members: &BTreeMap<NodeId, Vec<NodeId>>, min_size: usize) -> (result: LeidenResult)
    requires
        members@.dom().len() < u32::MAX,
        forall|a: NodeId, b: NodeId, id: NodeId|
            members@.contains_key(a) && members@.contains_key(b) && #[trigger] members@[a]@.contains(
                id,
            ) && #[trigger] members@[b]@.contains(id) ==> a == b,
    ensures
        exists|kept: Seq<NodeId>| #[trigger]
            is_clustering(member_views(members@), min_size, kept, result),
{
    let ghost all = member_views(members@);
    let names = map_keys(members);
    proof {
        lemma_increasing_distinct(names@);
        names@.unique_seq_to_set();
    }
    let mut node_to_cluster: BTreeMap<NodeId, u32> = BTreeMap::new();
    let mut cluster_sizes: BTreeMap<u32, usize> = BTreeMap::new();
    let mut cluster: u32 = 0;
    let ghost mut kept: Seq<NodeId> = Seq::empty();
    let mut i: usize = 0;
    while i < names.len()
        invariant
            all == member_views(members@),
            forall|a: NodeId, b: NodeId, id: NodeId|
                members@.contains_key(a) && members@.contains_key(b)
                    && #[trigger] members@[a]@.contains(id) && #[trigger] members@[b]@.contains(id)
                    ==> a == b,
            names@.len() < u32::MAX,
            increasing(names@),
            names@.to_set() == members@.dom(),
            i <= names@.len(),
            cluster == kept.len(),
            kept.len() <= i,
            increasing(kept),
            forall|n: int| 0 <= n < kept.len() ==> i > 0 && (#[trigger] kept[n]) <= names@[i - 1],
            forall|name: NodeId| #[trigger]
                kept.contains(name) <==> names@.take(i as int).contains(name) && all[name].len()
                    >= min_size,
            forall|number: u32| #[trigger]
                cluster_sizes@.contains_key(number) <==> 1 <= number <= kept.len(),
            forall|number: u32| #[trigger]
                cluster_sizes@.contains_key(number) ==> cluster_sizes@[number]
                    == all[kept[number - 1]].len(),
            forall|id: NodeId, n: int|
                0 <= n < kept.len() && #[trigger] all[kept[n]].contains(id)
                    ==> node_to_cluster@.contains_key(id) && node_to_cluster@[id] == n + 1,
            forall|id: NodeId| #[trigger]
                node_to_cluster@.contains_key(id) ==> exists|n: int|
                    0 <= n < kept.len() && #[trigger] all[kept[n]].contains(id),
        decreases names@.len() - i,
    {
        let name: NodeId = names[i];
        let ghost held = kept;
        let ghost sizes = cluster_sizes@;
        let ghost before = node_to_cluster@;
        proof {
            assert(names@.contains(name));
            assert(names@.to_set().contains(name));
            assert(names@.take(i + 1) =~= names@.take(i as int).push(name));
            if i > 0 {
                assert(names@[i - 1] < names@[i as int]);
            }
        }
        let group = members.get(&name).unwrap();
        assert(all[name] == group@);
        if group.len() >= min_size {
            cluster += 1;
            proof {
                kept = kept.push(name);
            }
            cluster_sizes.insert(cluster, group.len());
            let mut j: usize = 0;
            while j < group.len()
                invariant
                    j <= group@.len(),
                    forall|id: NodeId| #[trigger]
                        node_to_cluster@.contains_key(id) <==> before.contains_key(id)
                            || group@.take(j as int).contains(id),
                    forall|id: NodeId| #[trigger]
                        node_to_cluster@.contains_key(id) ==> node_to_cluster@[id]
                            == if group@.take(j as int).contains(id) {
                            cluster
                        } else {
                            before[id]
                        },
                decreases group@.len() - j,
            {
                let ghost past = node_to_cluster@;
                let ghost few = group@.take(j as int);
                node_to_cluster.insert(group[j], cluster);
                proof {
                    let id = group@[j as int];
                    assert(group@.take(j + 1) =~= few.push(id));
                    assert forall|other: NodeId| #[trigger] node_to_cluster@.contains_key(other)
                        <==> before.contains_key(other) || group@.take(j + 1).contains(other) by {
                        lemma_contains_push(few, id, other);
                        assert(past.contains_key(other) <==> before.contains_key(other)
                            || few.contains(other));
                    }
                    assert forall|other: NodeId| #[trigger]
                        node_to_cluster@.contains_key(other) implies node_to_cluster@[other]
                        == if group@.take(j + 1).contains(other) {
                        cluster
                    } else {
                        before[other]
                    } by {
                        lemma_contains_push(few, id, other);
                        if other != id {
                            assert(past.contains_key(other));
                        }
                    }
                }
                j += 1;
            }
            proof {
                assert(group@.take(j as int) =~= group@);
                assert forall|id: NodeId, n: int|
                    0 <= n < kept.len() && #[trigger] all[kept[n]].contains(id) implies
                    node_to_cluster@.contains_key(id) && node_to_cluster@[id] == n + 1 by {
                    if n < held.len() {
                        assert(held[n] == kept[n]);
                        assert(all[held[n]].contains(id));
                        assert(before.contains_key(id));
                        assert(held.contains(held[n]));
                        assert(names@.take(i as int).contains(held[n]));
                        let m = choose|m: int|
                            0 <= m < i && names@.take(i as int)[m] == held[n];
                        assert(names@[m] < names@[i as int]);
                        assert(names@.contains(held[n])) by {
                            assert(names@[m] == held[n]);
                        }
                        assert(names@.to_set().contains(held[n]));
                        assert(members@[held[n]]@.contains(id));
                        if group@.contains(id) {
                            assert(members@[name]@.contains(id));
                        }
                        assert(!group@.contains(id));
                        assert(node_to_cluster@.contains_key(id));
                    } else {
                        assert(kept[n] == name);
                        assert(group@.contains(id));
                        assert(node_to_cluster@.contains_key(id));
                    }
                }
                assert forall|id: NodeId| #[trigger]
                    node_to_cluster@.contains_key(id) implies exists|n: int|
                    0 <= n < kept.len() && #[trigger] all[kept[n]].contains(id) by {
                    if group@.contains(id) {
                        assert(all[kept[held.len() as int]].contains(id));
                    } else {
                        assert(before.contains_key(id));
                        let n = choose|n: int|
                            0 <= n < held.len() && #[trigger] all[held[n]].contains(id);
                        assert(all[kept[n]].contains(id));
                    }
                }
                assert forall|number: u32| #[trigger]
                    cluster_sizes@.contains_key(number) implies cluster_sizes@[number]
                    == all[kept[number - 1]].len() by {
                    if number != cluster {
                        assert(sizes.contains_key(number));
                        assert(held[number - 1] == kept[number - 1]);
                    }
                }
            }
        }
        proof {
            assert forall|other: NodeId| #[trigger] kept.contains(other) <==> names@.take(
                i + 1,
            ).contains(other) && all[other].len() >= min_size by {
                lemma_contains_push(names@.take(i as int), name, other);
                lemma_contains_push(held, name, other);
                assert(held.contains(other) <==> names@.take(i as int).contains(other)
                    && all[other].len() >= min_size);
            }
        }
        i += 1;
    }
    let result = LeidenResult {
        node_to_cluster,
        cluster_sizes,
        centroids: BTreeMap::new(),
        num_clusters: cluster,
    };
    proof {
        assert(names@.take(i as int) =~= names@);
        assert forall|name: NodeId| #[trigger] kept.contains(name) <==> all.contains_key(name)
            && all[name].len() >= min_size by {
            assert(names@.to_set().contains(name) <==> names@.contains(name));
        }
        assert(result.centroids@ =~= Map::<u32, Vec<u32>>::empty());
        assert(is_clustering(all, min_size, kept, result));
    }
    result
}

/// Whether each level leads to the next by moving its nodes.
pub open spec fn is_descent<
    W: Fn(u32) -> u64,
    P: Fn(u64, u64) -> u64,
    A: Fn(u64, u64) -> u64,
    M: Fn(u64, u64) -> u64,
    G: Fn(u64, u64, u64, u64) -> u64,
    B: Fn(u64, u64, bool) -> bool,
    N: Fn(u64) -> bool,
>(
    arithmetic: LeidenArithmetic<W, P>,
    moving: MoveArithmetic<A, M, G, B, N>,
    sweeps: usize,
    graphs: Seq<WeightedGraph>,
    members: Seq<Map<NodeId, Seq<NodeId>>>,
) -> bool {
    &&& graphs.len() == members.len()
    &&& graphs.len() > 0
    &&& forall|k: int|
        0 <= k < graphs.len() - 1 ==> is_step_down(
            arithmetic,
            moving,
            sweeps,
            #[trigger] graphs[k],
            members[k],
            graphs[k + 1],
            members[k + 1],
        )
}

/// Whether one level leads to the next by moving its nodes.
pub open spec fn is_step_down<
    W: Fn(u32) -> u64,
    P: Fn(u64, u64) -> u64,
    A: Fn(u64, u64) -> u64,
    M: Fn(u64, u64) -> u64,
    G: Fn(u64, u64, u64, u64) -> u64,
    B: Fn(u64, u64, bool) -> bool,
    N: Fn(u64) -> bool,
>(
    arithmetic: LeidenArithmetic<W, P>,
    moving: MoveArithmetic<A, M, G, B, N>,
    sweeps: usize,
    graph: WeightedGraph,
    members: Map<NodeId, Seq<NodeId>>,
    next: WeightedGraph,
    next_members: Map<NodeId, Seq<NodeId>>,
) -> bool {
    exists|
        communities: Map<NodeId, NodeId>,
        ids: Seq<NodeId>,
        names: Map<NodeId, NodeId>,
        heads: Seq<NodeId>,
    |
        #![trigger moving.is_moved(&graph, sweeps, communities), are_heads(names, heads), increasing(ids)]
        moving.is_moved(&graph, sweeps, communities) && increasing(ids) && are_heads(
            names,
            heads,
        ) && arithmetic.is_next_level(
            lists_view(graph.ties@),
            members,
            communities,
            ids,
            names,
            heads,
            lists_view(next.ties@),
            next_members,
        ) && heads.len() != ids.len()
}

/// Whether the descent ends where it should: after the last level allowed, with at most one
/// community, or where every node stays alone.
pub open spec fn ends_right<
    A: Fn(u64, u64) -> u64,
    M: Fn(u64, u64) -> u64,
    G: Fn(u64, u64, u64, u64) -> u64,
    B: Fn(u64, u64, bool) -> bool,
    N: Fn(u64) -> bool,
>(
    moving: MoveArithmetic<A, M, G, B, N>,
    sweeps: usize,
    graphs: Seq<WeightedGraph>,
) -> bool {
    ||| graphs.len() == sweeps + 1
    ||| graphs.len() > 1 && graphs.last().ties@.dom().len() <= 1
    ||| exists|communities: Map<NodeId, NodeId>|
        #[trigger] moving.is_moved(&graphs.last(), sweeps, communities) && stays_apart(
            lists_view(graphs.last().ties@),
            communities,
        ) && is_standstill(lists_view(graphs.last().ties@), communities)
}

/// The groups that every node starts alone in.
pub open spec fn singletons(nodes: Set<NodeId>) -> Map<NodeId, Seq<NodeId>> {
    Map::new(|id: NodeId| nodes.contains(id), |id: NodeId| seq![id])
}

/// Whether a result is what the levels come to: groups that divide the nodes, each connected, of
/// which the large enough ones are numbered.
pub open spec fn is_detection<
    W: Fn(u32) -> u64,
    P: Fn(u64, u64) -> u64,
    A: Fn(u64, u64) -> u64,
    M: Fn(u64, u64) -> u64,
    G: Fn(u64, u64, u64, u64) -> u64,
    B: Fn(u64, u64, bool) -> bool,
    N: Fn(u64) -> bool,
>(
    snapshot: &AdjacencySnapshot,
    config: LeidenConfig,
    arithmetic: LeidenArithmetic<W, P>,
    moving: MoveArithmetic<A, M, G, B, N>,
    ids: Seq<NodeId>,
    graphs: Seq<WeightedGraph>,
    members: Seq<Map<NodeId, Seq<NodeId>>>,
    kept: Seq<NodeId>,
    result: LeidenResult,
) -> bool {
    let sweeps = if config.max_iterations == 0 {
        1
    } else {
        config.max_iterations
    };
    &&& increasing(ids)
    &&& ids.to_set() == snapshot.node_ids@.to_set()
    &&& is_descent(arithmetic, moving, sweeps, graphs, members)
    &&& graphs.len() <= sweeps + 1
    &&& forall|k: int|
        0 < k < graphs.len() - 1 ==> (#[trigger] graphs[k]).ties@.dom().len() > 1
    &&& arithmetic.is_base_graph(snapshot, ids, graphs[0])
    &&& members[0] == singletons(ids.to_set())
    &&& ids.len() == 0 && graphs.len() == 1 || ends_right(moving, sweeps, graphs)
    &&& is_division(snapshot_links(snapshot, ids), ids.to_set(), members.last())
    &&& is_clustering(members.last(), config.min_community_size, kept, result)
}

/// Detects communities, level by level: nodes move to the community that gains most, communities
/// are split into connected parts, and the parts are the nodes of the next level. Every community
/// that is reported is connected.
pub fn run_leiden<
    W: Fn(u32) -> u64,
    P: Fn(u64, u64) -> u64,
    A: Fn(u64, u64) -> u64,
    M: Fn(u64, u64) -> u64,
    G: Fn(u64, u64, u64, u64) -> u64,
    B: Fn(u64, u64, bool) -> bool,
    N: Fn(u64) -> bool,
>(
    snapshot: &AdjacencySnapshot,
    config: &LeidenConfig,
    arithmetic: &LeidenArithmetic<W, P>,
    moving: &MoveArithmetic<A, M, G, B, N>,
) -> (result: LeidenResult)
    requires
        arithmetic.sound(),
        snapshot.node_ids@.len() < u32::MAX,
        moving.sound(),
    ensures
        exists|
            ids: Seq<NodeId>,
            graphs: Seq<WeightedGraph>,
            members: Seq<Map<NodeId, Seq<NodeId>>>,
            kept: Seq<NodeId>,
        | #[trigger]
            is_detection(
                snapshot,
                *config,
                *arithmetic,
                *moving,
                ids,
                graphs,
                members,
                kept,
                result,
            ),
{
    let ids = sort_dedup(&snapshot.node_ids);
    let ghost nodes = ids@.to_set();
    let ghost base = snapshot_links(snapshot, ids@);
    let mut graph = arithmetic.build_graph(snapshot, &ids);
    let mut members: BTreeMap<NodeId, Vec<NodeId>> = BTreeMap::new();
    let mut i: usize = 0;
    assert(members@.dom() =~= ids@.take(0).to_set());
    while i < ids.len()
        invariant
            i <= ids@.len(),
            members@.dom() == ids@.take(i as int).to_set(),
            forall|id: NodeId| #[trigger] members@.contains_key(id) ==> members@[id]@ == seq![id],
        decreases ids@.len() - i,
    {
        let mut alone: Vec<NodeId> = Vec::new();
        alone.push(ids[i]);
        assert(alone@ =~= seq![ids@[i as int]]);
        members.insert(ids[i], alone);
        proof {
            assert(ids@.take(i + 1) =~= ids@.take(i as int).push(ids@[i as int]));
            lemma_to_set_push(ids@.take(i as int), ids@[i as int]);
            assert(members@.dom() =~= ids@.take(i + 1).to_set());
        }
        i += 1;
    }
    let sweeps: usize = if config.max_iterations == 0 {
        1
    } else {
        config.max_iterations
    };
    let ghost mut graphs: Seq<WeightedGraph> = seq![graph];
    let ghost mut history: Seq<Map<NodeId, Seq<NodeId>>> = seq![member_views(members@)];
    proof {
        assert(ids@.take(i as int) =~= ids@);
        assert(member_views(members@) =~= singletons(nodes));
        lemma_singletons(base, nodes);
        arithmetic.lemma_base_ties(snapshot, ids@, graph);
        lemma_increasing_distinct(ids@);
        ids@.unique_seq_to_set();
        assert forall|a: NodeId, b: NodeId| #[trigger] base(a, b) implies base(b, a) by {
            assert(lower(a, b) == lower(b, a) && upper(a, b) == upper(b, a));
        }
    }
    let mut level: usize = 0;
    let mut open = ids.len() > 0;
    while open && level < sweeps
        invariant
            arithmetic.sound(),
            moving.sound(),
            base == snapshot_links(snapshot, ids@),
            forall|a: NodeId, b: NodeId| #[trigger] base(a, b) ==> base(b, a),
            nodes == ids@.to_set(),
            level <= sweeps,
            is_descent(*arithmetic, *moving, sweeps, graphs, history),
            forall|k: int|
                0 < k < graphs.len() - 1 ==> (#[trigger] graphs[k]).ties@.dom().len() > 1,
            open && graphs.len() > 1 ==> graphs.last().ties@.dom().len() > 1,
            graphs.len() == level + 1 || (!open && graphs.len() == level),
            graph == graphs.last(),
            member_views(members@) == history.last(),
            arithmetic.is_base_graph(snapshot, ids@, graphs[0]),
            history[0] == singletons(nodes),
            is_symmetric(lists_view(graph.ties@)),
            members@.dom() == graph.ties@.dom(),
            is_division(base, nodes, member_views(members@)),
            ties_join(base, lists_view(graph.ties@), member_views(members@)),
            open || ids@.len() == 0 && graphs.len() == 1 || ends_right(*moving, sweeps, graphs),
        decreases sweeps - level, open as int,
    {
        let communities = moving.local_moving(&graph, sweeps);
        match arithmetic.next_level(&graph, &members, &communities) {
            None => {
                assert(moving.is_moved(&graphs.last(), sweeps, communities@));
                open = false;
            },
            Some((next, merged)) => {
                let ghost passed = graphs;
                let ghost told = history;
                proof {
                    let (some_ids, names, heads) = choose|
                        some_ids: Seq<NodeId>,
                        names: Map<NodeId, NodeId>,
                        heads: Seq<NodeId>,
                    | #[trigger]
                        arithmetic.is_next_level(
                            lists_view(graph.ties@),
                            member_views(members@),
                            communities@,
                            some_ids,
                            names,
                            heads,
                            lists_view(next.ties@),
                            member_views(merged@),
                        ) && heads.len() != some_ids.len();
                    assert(lists_view(graph.ties@).dom() =~= graph.ties@.dom());
                    assert(member_views(members@).dom() =~= members@.dom());
                    arithmetic.lemma_next_division(
                        base,
                        nodes,
                        lists_view(graph.ties@),
                        member_views(members@),
                        communities@,
                        some_ids,
                        names,
                        heads,
                        lists_view(next.ties@),
                        member_views(merged@),
                    );
                    assert(moving.is_moved(&graph, sweeps, communities@));
                    assert(increasing(some_ids) && are_heads(names, heads));
                    assert(is_step_down(
                        *arithmetic,
                        *moving,
                        sweeps,
                        graph,
                        member_views(members@),
                        next,
                        member_views(merged@),
                    ));
                    graphs = graphs.push(next);
                    history = history.push(member_views(merged@));
                    assert forall|k: int| 0 <= k < graphs.len() - 1 implies is_step_down(
                        *arithmetic,
                        *moving,
                        sweeps,
                        #[trigger] graphs[k],
                        history[k],
                        graphs[k + 1],
                        history[k + 1],
                    ) by {
                        if k < passed.len() - 1 {
                            assert(passed[k] == graphs[k] && passed[k + 1] == graphs[k + 1]);
                            assert(told[k] == history[k] && told[k + 1] == history[k + 1]);
                        }
                    }
                }
                let count: usize = next.ties.len();
                graph = next;
                members = merged;
                if count <= 1 {
                    open = false;
                }
                level += 1;
            },
        }
    }
    proof {
        lemma_division_size(base, nodes, member_views(members@));
        assert(member_views(members@).dom() =~= members@.dom());
        assert forall|a: NodeId, b: NodeId, id: NodeId|
            members@.contains_key(a) && members@.contains_key(b)
                && #[trigger] members@[a]@.contains(id) && #[trigger] members@[b]@.contains(
                id,
            ) implies a == b by {
            assert(member_views(members@)[a].contains(id));
            assert(member_views(members@)[b].contains(id));
        }
    }
    let result = number_groups(&members, config.min_community_size);
    proof {
        let kept = choose|kept: Seq<NodeId>| #[trigger]
            is_clustering(member_views(members@), config.min_community_size, kept, result);
        assert(is_detection(
            snapshot,
            *config,
            *arithmetic,
            *moving,
            ids@,
            graphs,
            history,
            kept,
            result,
        ));
    }
    result
}

/// Nodes that are alone divide the graph.
proof fn lemma_singletons(adjacency: Adjacency, nodes: Set<NodeId>)
    ensures
        is_division(adjacency, nodes, singletons(nodes)),
{
    let members = singletons(nodes);
    assert forall|name: NodeId| #[trigger] members.contains_key(name) implies {
        &&& members[name].no_duplicates()
        &&& members[name].contains(name)
        &&& is_connected(adjacency, members[name].to_set())
    } by {
        assert(members[name][0] == name);
        let group = members[name].to_set();
        assert forall|a: NodeId, b: NodeId|
            #![trigger group.contains(a), group.contains(b)]
            group.contains(a) && group.contains(b) implies reaches(
            inside(adjacency, group),
            a,
            b,
        ) by {
            assert(members[name].contains(a) && members[name].contains(b));
            lemma_reaches_step(inside(adjacency, group), a, a);
        }
    }
    assert forall|id: NodeId| #[trigger] nodes.contains(id) implies exists|name: NodeId|
        members.contains_key(name) && #[trigger] members[name].contains(id) by {
        assert(members.contains_key(id) && members[id][0] == id);
        assert(members[id].contains(id));
    }
}

/// A division has no more groups than there are nodes.
proof fn lemma_division_size(
    adjacency: Adjacency,
    nodes: Set<NodeId>,
    members: Map<NodeId, Seq<NodeId>>,
)
    requires
        nodes.finite(),
        is_division(adjacency, nodes, members),
    ensures
        members.dom().finite(),
        members.dom().len() <= nodes.len(),
{
    assert(members.dom().subset_of(nodes)) by {
        assert forall|name: NodeId| #[trigger] members.dom().contains(name) implies nodes.contains(
            name,
        ) by {
            assert(members.contains_key(name));
            assert(members[name].contains(name));
        }
    }
    vstd::set_lib::lemma_set_subset_finite(nodes, members.dom());
    vstd::set_lib::lemma_len_subset(members.dom(), nodes);
}

impl<W: Fn(u32) -> u64, P: Fn(u64, u64) -> u64> LeidenArithmetic<W, P> {
    /// The ties of the first graph go both ways and join nodes that a step joins.
    proof fn lemma_base_ties(
        &self,
        snapshot: &AdjacencySnapshot,
        ids: Seq<NodeId>,
        graph: WeightedGraph,
    )
        requires
            self.is_base_graph(snapshot, ids, graph),
        ensures
            is_symmetric(lists_view(graph.ties@)),
            ties_join(
                snapshot_links(snapshot, ids),
                lists_view(graph.ties@),
                singletons(ids.to_set()),
            ),
    {
        let value = |a: NodeId, b: NodeId| greatest_weight(snapshot, ids, ids.len(), 0, a, b);
        let ties = lists_view(graph.ties@);
        let nodes = ids.to_set();
        let narrow = choose|narrow: Map<NodeId, Seq<(NodeId, u32)>>|
            are_spread(value, nodes, narrow) && ties == #[trigger] self.widened(narrow);
        assert forall|a: NodeId, b: NodeId| #[trigger] value(a, b) is Some implies nodes.contains(a)
            && nodes.contains(b) by {
            lemma_greatest_weight_known(snapshot, ids, ids.len(), 0, a, b);
        }
        lemma_spread_symmetric(value, nodes, narrow);
        assert forall|a: NodeId, b: NodeId, weight: u64|
            ties.contains_key(a) && #[trigger] ties[a].contains((b, weight)) implies exists|
            thin: u32,
        | #[trigger] narrow[a].contains((b, thin)) && weight == self.wide(thin) by {
            let k = choose|k: int| 0 <= k < ties[a].len() && ties[a][k] == (b, weight);
            assert(narrow[a][k].0 == b);
            assert(narrow[a].contains((b, narrow[a][k].1))) by {
                assert(narrow[a][k] == (b, narrow[a][k].1));
            }
        }
        assert forall|a: NodeId, b: NodeId, weight: u64|
            ties.contains_key(a) && #[trigger] ties[a].contains((b, weight)) implies
            ties.contains_key(b) && ties[b].contains((a, weight)) by {
            let thin = choose|thin: u32| #[trigger]
                narrow[a].contains((b, thin)) && weight == self.wide(thin);
            assert(narrow[b].contains((a, thin)));
            let k = choose|k: int| 0 <= k < narrow[b].len() && narrow[b][k] == (a, thin);
            assert(ties[b][k] == (a, weight));
        }
        assert forall|a: NodeId, b: NodeId, weight: u64|
            ties.contains_key(a) && a != b && #[trigger] ties[a].contains((b, weight)) implies
            are_joined(
            snapshot_links(snapshot, ids),
            singletons(nodes)[a],
            singletons(nodes)[b],
        ) by {
            let thin = choose|thin: u32| #[trigger]
                narrow[a].contains((b, thin)) && weight == self.wide(thin);
            lemma_spread_ties(value, nodes, narrow, a, (b, thin));
            assert(value(lower(a, b), upper(a, b)) is Some);
            assert(nodes.contains(a) && nodes.contains(b));
            assert(snapshot_links(snapshot, ids)(a, b));
            assert(singletons(nodes)[a][0] == a && singletons(nodes)[b][0] == b);
            assert(singletons(nodes)[a].contains(a) && singletons(nodes)[b].contains(b));
        }
    }
}

/// The nodes of a cluster.
pub open spec fn cluster_nodes(result: LeidenResult, cluster: u32) -> Set<NodeId> {
    Set::new(
        |id: NodeId|
            result.node_to_cluster@.contains_key(id) && result.node_to_cluster@[id] == cluster,
    )
}

/// Every cluster is connected: its nodes reach each other along edges that count without leaving
/// it. It has at least the required size.
pub proof fn law_clusters_are_connected<
    W: Fn(u32) -> u64,
    P: Fn(u64, u64) -> u64,
    A: Fn(u64, u64) -> u64,
    M: Fn(u64, u64) -> u64,
    G: Fn(u64, u64, u64, u64) -> u64,
    B: Fn(u64, u64, bool) -> bool,
    N: Fn(u64) -> bool,
>(
    snapshot: &AdjacencySnapshot,
    config: LeidenConfig,
    arithmetic: LeidenArithmetic<W, P>,
    moving: MoveArithmetic<A, M, G, B, N>,
    ids: Seq<NodeId>,
    graphs: Seq<WeightedGraph>,
    members: Seq<Map<NodeId, Seq<NodeId>>>,
    kept: Seq<NodeId>,
    result: LeidenResult,
    cluster: u32,
)
    requires
        is_detection(
            snapshot,
            config,
            arithmetic,
            moving,
            ids,
            graphs,
            members,
            kept,
            result,
        ),
        result.cluster_sizes@.contains_key(cluster),
    ensures
        is_connected(snapshot_links(snapshot, ids), cluster_nodes(result, cluster)),
        result.cluster_sizes@[cluster] == cluster_nodes(result, cluster).len(),
        result.cluster_sizes@[cluster] >= config.min_community_size,
{
    let groups = members.last();
    let name = kept[cluster - 1];
    assert(kept.contains(name));
    let group = groups[name];
    assert(groups.contains_key(name));
    assert(cluster_nodes(result, cluster) =~= group.to_set()) by {
        assert forall|id: NodeId| #[trigger] cluster_nodes(result, cluster).contains(id)
            <==> group.to_set().contains(id) by {
            if group.contains(id) {
                assert(groups[kept[cluster - 1]].contains(id));
            }
            if cluster_nodes(result, cluster).contains(id) {
                let i = choose|i: int|
                    0 <= i < kept.len() && #[trigger] groups[kept[i]].contains(id);
                assert(result.node_to_cluster@[id] == i + 1);
            }
        }
    }
    group.unique_seq_to_set();
}

/// The edges of a node as a snapshot holds them.
pub open spec fn edge_pairs(edges: Seq<EdgeView>) -> Seq<(NodeId, u32)> {
    edges.map_values(|edge: EdgeView| (edge.target, edge.weight))
}

impl AdjacencySnapshot {
    /// The nodes and edges of a table.
    pub fn take<T: VectorType>(mt: &MemTable<T>) -> (snapshot: AdjacencySnapshot)
        ensures
            increasing(snapshot.node_ids@),
            snapshot.node_ids@.to_set() == mt@.nodes.dom(),
            snapshot.edges@.dom() == mt@.nodes.dom(),
            forall|id: NodeId| #[trigger]
                snapshot.edges@.contains_key(id) ==> snapshot.edges@[id]@ == edge_pairs(
                    mt@.nodes[id].edges,
                ),
    {
        let node_ids = mt.all_node_ids();
        let mut edges: HashMap<NodeId, Vec<(NodeId, u32)>> = HashMap::new();
        let mut i: usize = 0;
        assert(edges@.dom() =~= node_ids@.take(0).to_set());
        while i < node_ids.len()
            invariant
                node_ids@.to_set() == mt@.nodes.dom(),
                i <= node_ids@.len(),
                edges@.dom() == node_ids@.take(i as int).to_set(),
                forall|id: NodeId| #[trigger]
                    edges@.contains_key(id) ==> edges@[id]@ == edge_pairs(mt@.nodes[id].edges),
            decreases node_ids@.len() - i,
        {
            let id: NodeId = node_ids[i];
            proof {
                assert(node_ids@.contains(id));
                assert(node_ids@.to_set().contains(id));
            }
            let own = mt.get_edges(id).unwrap();
            let mut list: Vec<(NodeId, u32)> = Vec::new();
            let mut j: usize = 0;
            while j < own.len()
                invariant
                    j <= own@.len(),
                    edge_views(own@) == mt@.nodes[id].edges,
                    list@.len() == j,
                    forall|k: int|
                        0 <= k < j ==> (#[trigger] list@[k]) == edge_pairs(
                            mt@.nodes[id].edges,
                        )[k],
                decreases own@.len() - j,
            {
                assert(edge_views(own@)[j as int] == own@[j as int]@);
                list.push((own[j].target_id, own[j].weight));
                j += 1;
            }
            proof {
                assert(edge_views(own@).len() == own@.len());
                assert(list@ =~= edge_pairs(mt@.nodes[id].edges));
                assert(node_ids@.take(i + 1) =~= node_ids@.take(i as int).push(id));
                lemma_to_set_push(node_ids@.take(i as int), id);
            }
            edges.insert(id, list);
            assert(edges@.dom() =~= node_ids@.take(i + 1).to_set());
            i += 1;
        }
        assert(node_ids@.take(i as int) =~= node_ids@);
        AdjacencySnapshot { edges, node_ids }
    }
}

impl LeidenConfig {
    /// The settings for a request: 15 iterations and centroids, where the request does not say
    /// otherwise.
    pub fn resolve(
        min_community_size: usize,
        max_iterations: Option<usize>,
        with_centroids: Option<bool>,
    ) -> (config: LeidenConfig)
        ensures
            config.min_community_size == min_community_size,
            config.max_iterations == match max_iterations {
                Some(count) => count,
                None => 15,
            },
            config.compute_centroids == match with_centroids {
                Some(wanted) => wanted,
                None => true,
            },
    {
        LeidenConfig {
            min_community_size,
            max_iterations: match max_iterations {
                Some(count) => count,
                None => 15,
            },
            compute_centroids: match with_centroids {
                Some(wanted) => wanted,
                None => true,
            },
        }
    }
}

/// Whether edge `k` of node `i` counts and joins two nodes with this weight.
spec fn is_tie_at(
    snapshot: &AdjacencySnapshot,
    ids: Seq<NodeId>,
    a: NodeId,
    b: NodeId,
    i: int,
    k: int,
    weight: u32,
) -> bool {
    let edge = snapshot_edges(snapshot, ids[i])[k];
    &&& 0 <= i < ids.len()
    &&& 0 <= k < snapshot_edges(snapshot, ids[i]).len()
    &&& is_counted(ids.to_set(), ids[i], edge)
    &&& lower(ids[i], edge.0) == a
    &&& upper(ids[i], edge.0) == b
    &&& edge.1 == weight
}

/// The greatest weight is that of an edge, and no edge has a greater one.
proof fn lemma_greatest_weight(
    snapshot: &AdjacencySnapshot,
    ids: Seq<NodeId>,
    i: nat,
    j: nat,
    a: NodeId,
    b: NodeId,
)
    requires
        i <= ids.len(),
        j > 0 ==> i < ids.len() && j <= snapshot_edges(snapshot, ids[i as int]).len(),
    ensures
        match greatest_weight(snapshot, ids, i, j, a, b) {
            Some(greatest) => exists|n: int, k: int| #[trigger]
                is_tie_at(snapshot, ids, a, b, n, k, greatest),
            None => true,
        },
        forall|n: int, k: int, weight: u32|
            (n < i || (n == i && k < j)) && #[trigger] is_tie_at(
                snapshot,
                ids,
                a,
                b,
                n,
                k,
                weight,
            ) ==> (greatest_weight(snapshot, ids, i, j, a, b) matches Some(greatest) && weight
                <= greatest),
    decreases i, j,
{
    if j > 0 {
        lemma_greatest_weight(snapshot, ids, i, (j - 1) as nat, a, b);
        let edge = snapshot_edges(snapshot, ids[i as int])[j - 1];
        if is_counted(ids.to_set(), ids[i as int], edge) && lower(ids[i as int], edge.0) == a
            && upper(ids[i as int], edge.0) == b {
            assert(is_tie_at(snapshot, ids, a, b, i as int, j - 1, edge.1));
        }
        assert forall|n: int, k: int, weight: u32|
            (n < i || (n == i && k < j)) && #[trigger] is_tie_at(
                snapshot,
                ids,
                a,
                b,
                n,
                k,
                weight,
            ) implies (greatest_weight(snapshot, ids, i, j, a, b) matches Some(greatest) && weight
            <= greatest) by {
            if n == i && k == j - 1 {
                assert(weight == edge.1);
            } else {
                assert(n < i || (n == i && k < j - 1));
            }
        }
    } else if i > 0 {
        let last = (i - 1) as nat;
        let length = snapshot_edges(snapshot, ids[last as int]).len();
        lemma_greatest_weight(snapshot, ids, last, length, a, b);
        assert forall|n: int, k: int, weight: u32|
            (n < i || (n == i && k < j)) && #[trigger] is_tie_at(
                snapshot,
                ids,
                a,
                b,
                n,
                k,
                weight,
            ) implies (greatest_weight(snapshot, ids, i, j, a, b) matches Some(greatest) && weight
            <= greatest) by {
            assert(n < last || (n == last && k < length));
        }
    }
}

/// The same edges in another order leave no pair of nodes with a smaller weight.
proof fn lemma_weight_kept(
    one: &AdjacencySnapshot,
    other: &AdjacencySnapshot,
    ids: Seq<NodeId>,
    a: NodeId,
    b: NodeId,
)
    requires
        forall|id: NodeId, edge: (NodeId, u32)| #[trigger]
            snapshot_edges(one, id).contains(edge) ==> snapshot_edges(other, id).contains(edge),
    ensures
        greatest_weight(one, ids, ids.len(), 0, a, b) matches Some(weight) ==> (greatest_weight(
            other,
            ids,
            ids.len(),
            0,
            a,
            b,
        ) matches Some(greatest) && weight <= greatest),
{
    lemma_greatest_weight(one, ids, ids.len(), 0, a, b);
    lemma_greatest_weight(other, ids, ids.len(), 0, a, b);
    if let Some(weight) = greatest_weight(one, ids, ids.len(), 0, a, b) {
        let (n, k) = choose|n: int, k: int| #[trigger] is_tie_at(one, ids, a, b, n, k, weight);
        let edge = snapshot_edges(one, ids[n])[k];
        assert(snapshot_edges(one, ids[n]).contains(edge));
        assert(snapshot_edges(other, ids[n]).contains(edge));
        let m = choose|m: int|
            0 <= m < snapshot_edges(other, ids[n]).len() && snapshot_edges(other, ids[n])[m]
                == edge;
        assert(is_tie_at(other, ids, a, b, n, m, weight));
    }
}

/// The graph to cluster does not depend on the order in which edges are listed, nor on how often:
/// snapshots with the same edges have the same graph.
pub proof fn law_edge_order_does_not_matter<W: Fn(u32) -> u64, P: Fn(u64, u64) -> u64>(
    arithmetic: LeidenArithmetic<W, P>,
    one: &AdjacencySnapshot,
    other: &AdjacencySnapshot,
    ids: Seq<NodeId>,
    graph: WeightedGraph,
)
    requires
        forall|id: NodeId, edge: (NodeId, u32)| #[trigger]
            snapshot_edges(one, id).contains(edge) <==> snapshot_edges(other, id).contains(edge),
    ensures
        arithmetic.is_base_graph(one, ids, graph) <==> arithmetic.is_base_graph(other, ids, graph),
{
    let first = |a: NodeId, b: NodeId| greatest_weight(one, ids, ids.len(), 0, a, b);
    let second = |a: NodeId, b: NodeId| greatest_weight(other, ids, ids.len(), 0, a, b);
    assert forall|a: NodeId, b: NodeId| #[trigger] first(a, b) == second(a, b) by {
        lemma_weight_kept(one, other, ids, a, b);
        lemma_weight_kept(other, one, ids, a, b);
    }
    assert(first =~= second);
    if arithmetic.is_base_graph(one, ids, graph) {
        let narrow = choose|narrow: Map<NodeId, Seq<(NodeId, u32)>>|
            are_spread(first, ids.to_set(), narrow) && lists_view(graph.ties@)
                == #[trigger] arithmetic.widened(narrow);
        assert(are_spread(second, ids.to_set(), narrow));
    }
    if arithmetic.is_base_graph(other, ids, graph) {
        let narrow = choose|narrow: Map<NodeId, Seq<(NodeId, u32)>>|
            are_spread(second, ids.to_set(), narrow) && lists_view(graph.ties@)
                == #[trigger] arithmetic.widened(narrow);
        assert(are_spread(first, ids.to_set(), narrow));
    }
}

} // verus!
