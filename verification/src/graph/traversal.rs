//! Spreading activation: energy that seeds send along the edges around them, for a number of
//! rounds, with a part of it returning to the seeds.
use std::collections::{BTreeMap, BTreeSet};
use vstd::prelude::*;

use crate::collections::{
    increasing, lemma_can_be_listed, lemma_contains_push, lemma_increasing_unique,
    lemma_to_set_push, map_keys, sort_dedup,
};
use crate::database::config::EdgeDirection;
use crate::database::fusion::{rank_scores, scored_set, F32_ONE};
use crate::database::pipeline::{hydrate, hydrated};
use crate::node::{edge_views, Edge, EdgeView, NodeId, Payload, SearchHit};
use crate::number::{
    f32_at_least, f32_clamp, f32_finite, f32_is_finite, f32_is_positive, f32_less, f32_magnitude,
    f32_positive, spec_f32_at_least, spec_f32_clamp, spec_f32_less, F32_SIGN,
};
use crate::ranking::{hits_order, scored_order, HitView, Scored};
use crate::sorting::{is_best, sort_items, sorted, views};
use crate::storage::memtable::{leads_to, MemTable, Table};
use crate::text::same_text;
use crate::vector::VectorType;

verus! {

/// The encoding of single precision `-1.0`.
pub const F32_MINUS_ONE: u32 = 0xbf80_0000;

/// What is left of the energy of a tired node: the encoding of single precision `0.15`.
pub const FATIGUE: u32 = 0x3e19_999a;

/// How many of the best hits tire.
pub const TIRING_HITS: usize = 15;

/// How energy spreads.
pub struct Spreading<'a> {
    /// The part of the energy of a node that returns to the seeds.
    pub restart_alpha: u32,
    /// Whether nodes with many incoming edges take less.
    pub enable_inverse_inhibition: bool,
    /// How many nodes go on after a round; zero is all.
    pub lateral_inhibition_threshold: usize,
    /// Whether tired nodes take less.
    pub enable_refractory_fatigue: bool,
    /// The direction that the energy prefers.
    pub diffusion_bias: Option<&'a Vec<u32>>,
    /// The labels of the edges that are followed; none is every label.
    pub expand_labels: Option<&'a Vec<String>>,
    /// How many edges of a node are followed; zero is all.
    pub max_edges_per_node: usize,
    /// Edges with less weight are not followed; zero is no bound.
    pub min_edge_weight: u32,
    /// Whether edges are followed from their source, from their target, or both ways.
    pub edge_direction: EdgeDirection,
    /// The nodes that are tired.
    pub tired: &'a BTreeSet<NodeId>,
}

/// What an expansion comes to: the nodes that got energy, the tired nodes that rested, and the
/// nodes that are now tired.
pub struct Expansion {
    pub hits: Vec<SearchHit>,
    pub rested: Vec<NodeId>,
    pub tired: Vec<NodeId>,
}

/// The operations on single precision bit patterns that an expansion needs: sum, product and
/// quotient, one less a number, a count as a number, and how much a number of incoming edges
/// leaves.
pub struct Energies<P, M, D, R, C, I> {
    pub plus: P,
    pub times: M,
    pub over: D,
    pub rest: R,
    pub count: C,
    pub inhibition: I,
}

/// The nodes with an edge to a node.
pub open spec fn sources_of<T: VectorType>(table: Table<T>, id: NodeId) -> Set<NodeId> {
    Set::new(
        |source: NodeId|
            table.nodes.contains_key(source) && leads_to(table.nodes[source].edges, id),
    )
}

/// A number without its sign.
pub open spec fn spec_absolute(bits: u32) -> u32 {
    f32_magnitude(bits) as u32
}

/// A number, or zero where it is not positive.
pub open spec fn spec_at_least_zero(bits: u32) -> u32 {
    if spec_f32_less(0, bits) {
        bits
    } else {
        0
    }
}

/// A number without its sign.
fn absolute(bits: u32) -> (result: u32)
    ensures
        result == spec_absolute(bits),
{
    if bits < F32_SIGN {
        bits
    } else {
        bits - F32_SIGN
    }
}

/// A number, or zero where it is not positive.
fn at_least_zero(bits: u32) -> (result: u32)
    ensures
        result == spec_at_least_zero(bits),
{
    if f32_less(0, bits) {
        bits
    } else {
        0
    }
}

/// Whether a list gives the scores of a map, in the order of the nodes.
pub open spec fn is_listing(scores: Map<NodeId, u32>, list: Seq<Scored>) -> bool {
    &&& forall|i: int, j: int|
        #![trigger list[i], list[j]]
        0 <= i < j < list.len() ==> list[i].id < list[j].id
    &&& forall|i: int|
        0 <= i < list.len() ==> scores.contains_key((#[trigger] list[i]).id)
            && scores[list[i].id] == list[i].score
    &&& forall|id: NodeId| #[trigger] scores.contains_key(id) ==> is_in_list(list, id)
}

/// Whether a list gives a node a score.
pub open spec fn is_in_list(list: Seq<Scored>, id: NodeId) -> bool {
    exists|i: int| 0 <= i < list.len() && (#[trigger] list[i]).id == id
}

/// The scores of a map, in the order of the nodes.
pub open spec fn listing(scores: Map<NodeId, u32>) -> Seq<Scored> {
    choose|list: Seq<Scored>| is_listing(scores, list)
}

/// The identifiers in a list.
pub open spec fn listed_ids(list: Seq<Scored>) -> Seq<NodeId> {
    Seq::new(list.len(), |i: int| list[i].id)
}

/// There is one listing.
proof fn lemma_listing(scores: Map<NodeId, u32>, list: Seq<Scored>)
    requires
        is_listing(scores, list),
    ensures
        listing(scores) == list,
{
    let other = listing(scores);
    assert(is_listing(scores, other));
    let a = listed_ids(list);
    let b = listed_ids(other);
    assert(increasing(a)) by {
        assert forall|i: int, j: int| 0 <= i < j < a.len() implies a[i] < a[j] by {
            assert(list[i].id < list[j].id);
        }
    }
    assert(increasing(b)) by {
        assert forall|i: int, j: int| 0 <= i < j < b.len() implies b[i] < b[j] by {
            assert(other[i].id < other[j].id);
        }
    }
    assert(a.to_set() =~= b.to_set()) by {
        assert forall|id: NodeId| a.contains(id) implies b.contains(id) by {
            let i = choose|i: int| 0 <= i < a.len() && a[i] == id;
            assert(scores.contains_key(list[i].id));
            assert(is_in_list(other, id));
            let j = choose|j: int| 0 <= j < other.len() && (#[trigger] other[j]).id == id;
            assert(b[j] == id);
        }
        assert forall|id: NodeId| b.contains(id) implies a.contains(id) by {
            let i = choose|i: int| 0 <= i < b.len() && b[i] == id;
            assert(scores.contains_key(other[i].id));
            assert(is_in_list(list, id));
            let j = choose|j: int| 0 <= j < list.len() && (#[trigger] list[j]).id == id;
            assert(a[j] == id);
        }
    }
    lemma_increasing_unique(a, b);
    assert(list =~= other) by {
        assert(a.len() == b.len());
        assert forall|i: int| 0 <= i < list.len() implies list[i] == other[i] by {
            assert(a[i] == b[i]);
            assert(scores[list[i].id] == list[i].score);
            assert(scores[other[i].id] == other[i].score);
        }
    }
}

/// The scores of a map, in the order of the nodes.
fn list_scores(scores: &BTreeMap<NodeId, u32>) -> (list: Vec<Scored>)
    ensures
        list@ == listing(scores@),
        is_listing(scores@, list@),
{
    let ids = map_keys(scores);
    let mut list: Vec<Scored> = Vec::new();
    let mut i: usize = 0;
    while i < ids.len()
        invariant
            i <= ids@.len(),
            ids@.to_set() == scores@.dom(),
            list@.len() == i,
            forall|k: int|
                0 <= k < i ==> (#[trigger] list@[k]) == (Scored {
                    id: ids@[k],
                    score: scores@[ids@[k]],
                }),
        decreases ids@.len() - i,
    {
        let id: NodeId = ids[i];
        proof {
            assert(ids@.contains(id));
            assert(ids@.to_set().contains(id));
        }
        list.push(Scored { id, score: *scores.get(&id).unwrap() });
        i += 1;
    }
    proof {
        assert forall|k: int, l: int|
            #![trigger list@[k], list@[l]]
            0 <= k < l < list@.len() implies list@[k].id < list@[l].id by {
            assert(ids@[k] < ids@[l]);
        }
        assert forall|k: int| 0 <= k < list@.len() implies scores@.contains_key(
            (#[trigger] list@[k]).id,
        ) by {
            assert(ids@.contains(ids@[k]));
            assert(ids@.to_set().contains(ids@[k]));
        }
        assert forall|id: NodeId| #[trigger] scores@.contains_key(id) implies is_in_list(
            list@,
            id,
        ) by {
            assert(ids@.to_set().contains(id));
            let k = choose|k: int| 0 <= k < ids@.len() && ids@[k] == id;
            assert(list@[k].id == id);
        }
        lemma_listing(scores@, list@);
    }
    list
}

/// Whether a gate can always be asked and gives the same answer to the same question: how much a
/// direction leaves of what a vector gets.
pub open spec fn is_gate<T: VectorType, G: Fn(&Vec<u32>, &Vec<T>) -> u32>(gate: G) -> bool {
    &&& forall|bias: &Vec<u32>, vector: &Vec<T>| call_requires(gate, (bias, vector))
    &&& forall|bias: &Vec<u32>, vector: &Vec<T>, c: u32|
        call_ensures(gate, (bias, vector), c) ==> c == gated(gate, bias@, vector@)
}

/// How much a direction leaves of what a vector gets.
pub open spec fn gated<T: VectorType, G: Fn(&Vec<u32>, &Vec<T>) -> u32>(
    gate: G,
    bias: Seq<u32>,
    vector: Seq<T>,
) -> u32 {
    choose|c: u32| #[trigger] is_answer(gate, bias, vector, c)
}

/// Whether a gate gives an answer for a direction and a vector.
pub open spec fn is_answer<T: VectorType, G: Fn(&Vec<u32>, &Vec<T>) -> u32>(
    gate: G,
    bias: Seq<u32>,
    vector: Seq<T>,
    answer: u32,
) -> bool {
    exists|b: &Vec<u32>, v: &Vec<T>|
        b@ == bias && v@ == vector && #[trigger] call_ensures(gate, (b, v), answer)
}

/// What a round begins with: the energies that are passed on, those that nodes got in all, and
/// the tired nodes that were met.
pub struct Activation {
    pub tier: Map<NodeId, u32>,
    pub total: Map<NodeId, u32>,
    pub met: Set<NodeId>,
}

impl<
    P: Fn(u32, u32) -> u32,
    M: Fn(u32, u32) -> u32,
    D: Fn(u32, u32) -> u32,
    R: Fn(u32) -> u32,
    C: Fn(usize) -> u32,
    I: Fn(usize) -> u32,
> Energies<P, M, D, R, C, I> {
    /// Whether each operation can always be done and gives the same result for the same operands.
    pub open spec fn sound(&self) -> bool {
        &&& forall|a: u32, b: u32| call_requires(self.plus, (a, b))
        &&& forall|a: u32, b: u32, c: u32|
            call_ensures(self.plus, (a, b), c) ==> c == self.sum(a, b)
        &&& forall|a: u32, b: u32| call_requires(self.times, (a, b))
        &&& forall|a: u32, b: u32, c: u32|
            call_ensures(self.times, (a, b), c) ==> c == self.product(a, b)
        &&& forall|a: u32, b: u32| call_requires(self.over, (a, b))
        &&& forall|a: u32, b: u32, c: u32|
            call_ensures(self.over, (a, b), c) ==> c == self.quotient(a, b)
        &&& forall|a: u32| call_requires(self.rest, (a,))
        &&& forall|a: u32, c: u32| call_ensures(self.rest, (a,), c) ==> c == self.complement(a)
        &&& forall|n: usize| call_requires(self.count, (n,))
        &&& forall|n: usize, c: u32| call_ensures(self.count, (n,), c) ==> c == self.number(n)
        &&& forall|n: usize| call_requires(self.inhibition, (n,))
        &&& forall|n: usize, c: u32|
            call_ensures(self.inhibition, (n,), c) ==> c == self.inhibited(n)
    }

    /// The sum of two numbers.
    pub open spec fn sum(&self, a: u32, b: u32) -> u32 {
        choose|c: u32| call_ensures(self.plus, (a, b), c)
    }

    /// The product of two numbers.
    pub open spec fn product(&self, a: u32, b: u32) -> u32 {
        choose|c: u32| call_ensures(self.times, (a, b), c)
    }

    /// The quotient of two numbers.
    pub open spec fn quotient(&self, a: u32, b: u32) -> u32 {
        choose|c: u32| call_ensures(self.over, (a, b), c)
    }

    /// One less a number.
    pub open spec fn complement(&self, a: u32) -> u32 {
        choose|c: u32| call_ensures(self.rest, (a,), c)
    }

    /// A count as a number.
    pub open spec fn number(&self, n: usize) -> u32 {
        choose|c: u32| call_ensures(self.count, (n,), c)
    }

    /// How much a number of incoming edges leaves.
    pub open spec fn inhibited(&self, n: usize) -> u32 {
        choose|c: u32| call_ensures(self.inhibition, (n,), c)
    }

    /// The energies after those of a list have been added; a node without energy starts at zero.
    pub open spec fn gathered(&self, base: Map<NodeId, u32>, items: Seq<Scored>) -> Map<NodeId, u32>
        decreases items.len(),
    {
        if items.len() == 0 {
            base
        } else {
            let before = self.gathered(base, items.drop_last());
            let item = items.last();
            let held = if before.contains_key(item.id) {
                before[item.id]
            } else {
                0
            };
            before.insert(item.id, self.sum(held, item.score))
        }
    }

    /// The positive scores of the first seeds, added up.
    pub open spec fn mass(&self, seeds: Seq<HitView>) -> u32
        decreases seeds.len(),
    {
        if seeds.len() == 0 {
            0
        } else {
            self.sum(self.mass(seeds.drop_last()), spec_at_least_zero(seeds.last().score))
        }
    }

    /// The share of a seed: its part of the mass, or the same for each where there is no mass.
    pub open spec fn share(&self, seeds: Seq<HitView>, seed: HitView) -> u32 {
        if f32_positive(self.mass(seeds)) {
            self.quotient(spec_at_least_zero(seed.score), self.mass(seeds))
        } else {
            self.quotient(F32_ONE, self.number(seeds.len() as usize))
        }
    }

    /// The shares of the first `count` seeds; of two seeds that are one node the last counts.
    pub open spec fn shares(&self, seeds: Seq<HitView>, count: int) -> Map<NodeId, u32>
        decreases count,
    {
        if count <= 0 {
            Map::empty()
        } else {
            self.shares(seeds, count - 1).insert(
                seeds[count - 1].id,
                self.share(seeds, seeds[count - 1]),
            )
        }
    }

    /// What an amount of energy gives each seed.
    pub open spec fn portions(&self, amount: u32, shares: Seq<Scored>) -> Seq<Scored> {
        Seq::new(
            shares.len(),
            |i: int|
                Scored { id: shares[i].id, score: self.product(amount, shares[i].score) },
        )
    }

    /// What is left of the energy of a node that may be tired.
    pub open spec fn freshness(&self, settings: Spreading, id: NodeId) -> u32 {
        if settings.enable_refractory_fatigue && settings.tired@.contains(id) {
            FATIGUE
        } else {
            F32_ONE
        }
    }

    /// How much of its weight an edge passes on.
    pub open spec fn passed<T: VectorType, G: Fn(&Vec<u32>, &Vec<T>) -> u32>(
        &self,
        table: Table<T>,
        settings: Spreading,
        gate: G,
        edge: EdgeView,
    ) -> u32 {
        let inhibition = if settings.enable_inverse_inhibition {
            let degree = sources_of(table, edge.target).len();
            self.inhibited(if degree == 0 {
                1
            } else {
                degree as usize
            })
        } else {
            F32_ONE
        };
        let opening = match settings.diffusion_bias {
            Some(bias) => if bias@.len() > 0 && table.nodes.contains_key(edge.target) {
                gated(gate, bias@, table.nodes[edge.target].vector)
            } else {
                F32_ONE
            },
            None => F32_ONE,
        };
        self.product(
            self.product(
                self.product(spec_absolute(edge.weight), inhibition),
                self.freshness(settings, edge.target),
            ),
            opening,
        )
    }

    /// Whether energy goes along an edge.
    pub open spec fn is_followed<T: VectorType, G: Fn(&Vec<u32>, &Vec<T>) -> u32>(
        &self,
        table: Table<T>,
        settings: Spreading,
        gate: G,
        edge: EdgeView,
    ) -> bool {
        is_considered(settings, edge) && f32_positive(
            self.passed(table, settings, gate, edge),
        ) && f32_finite(self.passed(table, settings, gate, edge))
    }

    /// The weights of the edges along which energy goes, added up.
    pub open spec fn weight_sum<T: VectorType, G: Fn(&Vec<u32>, &Vec<T>) -> u32>(
        &self,
        table: Table<T>,
        settings: Spreading,
        gate: G,
        edges: Seq<EdgeView>,
    ) -> u32
        decreases edges.len(),
    {
        if edges.len() == 0 {
            0
        } else {
            let before = self.weight_sum(table, settings, gate, edges.drop_last());
            if self.is_followed(table, settings, gate, edges.last()) {
                self.sum(before, spec_absolute(edges.last().weight))
            } else {
                before
            }
        }
    }

    /// What goes along one edge: negative along an edge that inhibits or has a negative weight.
    pub open spec fn transmitted<T: VectorType, G: Fn(&Vec<u32>, &Vec<T>) -> u32>(
        &self,
        table: Table<T>,
        settings: Spreading,
        gate: G,
        edge: EdgeView,
        budget: u32,
        divisor: u32,
    ) -> u32 {
        self.product(
            self.product(
                budget,
                self.quotient(self.passed(table, settings, gate, edge), divisor),
            ),
            if edge.label == "inhibition"@ || edge.weight >= F32_SIGN {
                F32_MINUS_ONE
            } else {
                F32_ONE
            },
        )
    }

    /// What goes along the edges.
    pub open spec fn along<T: VectorType, G: Fn(&Vec<u32>, &Vec<T>) -> u32>(
        &self,
        table: Table<T>,
        settings: Spreading,
        gate: G,
        edges: Seq<EdgeView>,
        budget: u32,
        divisor: u32,
    ) -> Seq<Scored>
        decreases edges.len(),
    {
        if edges.len() == 0 {
            Seq::empty()
        } else {
            let before = self.along(table, settings, gate, edges.drop_last(), budget, divisor);
            let edge = edges.last();
            if self.is_followed(table, settings, gate, edge) {
                before.push(
                    Scored {
                        id: edge.target,
                        score: self.transmitted(table, settings, gate, edge, budget, divisor),
                    },
                )
            } else {
                before
            }
        }
    }

    /// The part of its energy that a node sends along its edges.
    pub open spec fn budget(&self, settings: Spreading, energy: u32) -> u32 {
        self.product(
            energy,
            self.complement(spec_f32_clamp(settings.restart_alpha, 0, F32_ONE)),
        )
    }

    /// Whether a node sends energy along its edges.
    pub open spec fn is_sending(&self, settings: Spreading, energy: u32) -> bool {
        !spec_f32_at_least(0, energy) && !spec_f32_at_least(0, self.budget(settings, energy))
    }

    /// What a node sends: a part back to the seeds, and the rest along its edges, or to the seeds
    /// where it has none to follow.
    pub open spec fn sent<T: VectorType, G: Fn(&Vec<u32>, &Vec<T>) -> u32>(
        &self,
        table: Table<T>,
        settings: Spreading,
        gate: G,
        shares: Seq<Scored>,
        node: Scored,
    ) -> Seq<Scored> {
        let alpha = spec_f32_clamp(settings.restart_alpha, 0, F32_ONE);
        let back = self.portions(self.product(node.score, alpha), shares);
        let budget = self.budget(settings, node.score);
        let edges = routes(table, settings, node.id);
        let divisor = self.weight_sum(table, settings, gate, edges);
        if spec_f32_at_least(0, node.score) {
            Seq::empty()
        } else if spec_f32_at_least(0, budget) {
            back
        } else if spec_f32_at_least(0, divisor) {
            back + self.portions(budget, shares)
        } else {
            back + self.along(table, settings, gate, edges, budget, divisor)
        }
    }

    /// What the nodes of a list send.
    pub open spec fn all_sent<T: VectorType, G: Fn(&Vec<u32>, &Vec<T>) -> u32>(
        &self,
        table: Table<T>,
        settings: Spreading,
        gate: G,
        shares: Seq<Scored>,
        nodes: Seq<Scored>,
    ) -> Seq<Scored>
        decreases nodes.len(),
    {
        if nodes.len() == 0 {
            Seq::empty()
        } else {
            self.all_sent(table, settings, gate, shares, nodes.drop_last()) + self.sent(
                table,
                settings,
                gate,
                shares,
                nodes.last(),
            )
        }
    }

    /// Whether a tired node is met when the nodes of a list send energy.
    pub open spec fn is_met<T: VectorType>(
        &self,
        table: Table<T>,
        settings: Spreading,
        nodes: Seq<Scored>,
        id: NodeId,
    ) -> bool {
        settings.enable_refractory_fatigue && settings.tired@.contains(id) && exists|i: int|
            0 <= i < nodes.len() && self.is_sending(settings, (#[trigger] nodes[i]).score)
                && considers(settings, routes(table, settings, nodes[i].id), id)
    }
}

/// Whether an edge is considered: its label is followed, and its weight is a number other than zero
/// and not below the bound.
pub open spec fn is_considered(settings: Spreading, edge: EdgeView) -> bool {
    &&& settings.expand_labels matches Some(labels) ==> exists|i: int|
        0 <= i < labels@.len() && (#[trigger] labels@[i])@ == edge.label
    &&& f32_finite(edge.weight)
    &&& f32_magnitude(edge.weight) != 0
    &&& !(f32_positive(settings.min_edge_weight) && spec_f32_less(
        edge.weight,
        settings.min_edge_weight,
    ))
}

/// Those of the edges of a node that lead to another, each seen from there.
pub open spec fn turned(source: NodeId, edges: Seq<EdgeView>, id: NodeId) -> Seq<EdgeView>
    decreases edges.len(),
{
    if edges.len() == 0 {
        Seq::empty()
    } else {
        let before = turned(source, edges.drop_last(), id);
        let edge = edges.last();
        if edge.target == id {
            before.push(EdgeView { target: source, ..edge })
        } else {
            before
        }
    }
}

/// The edges of some nodes that lead to another, each seen from there.
pub open spec fn turned_from<T: VectorType>(
    table: Table<T>,
    sources: Seq<NodeId>,
    id: NodeId,
) -> Seq<EdgeView>
    decreases sources.len(),
{
    if sources.len() == 0 {
        Seq::empty()
    } else {
        turned_from(table, sources.drop_last(), id) + turned(
            sources.last(),
            table.edges_of(sources.last()),
            id,
        )
    }
}

/// The nodes with an edge to a node, in ascending order.
pub open spec fn sources_in_order<T: VectorType>(table: Table<T>, id: NodeId) -> Seq<NodeId> {
    choose|sources: Seq<NodeId>|
        increasing(sources) && sources.to_set() == sources_of(table, id)
}

/// The edges to a node, each seen from there: by their source, and those of one source in the
/// order in which they were made.
pub open spec fn arriving<T: VectorType>(table: Table<T>, id: NodeId) -> Seq<EdgeView> {
    turned_from(table, sources_in_order(table, id), id)
}

/// The edges of a node in the direction that is followed, each seen from the node. Both ways, the
/// edges from the node come first.
pub open spec fn edges_at<T: VectorType>(
    table: Table<T>,
    direction: EdgeDirection,
    id: NodeId,
) -> Seq<EdgeView> {
    match direction {
        EdgeDirection::Outgoing => table.edges_of(id),
        EdgeDirection::Incoming => arriving(table, id),
        EdgeDirection::Both => table.edges_of(id) + arriving(table, id),
    }
}

/// The first edges that are considered, as many as may be followed.
pub open spec fn allowed(settings: Spreading, edges: Seq<EdgeView>) -> Seq<EdgeView>
    decreases edges.len(),
{
    if edges.len() == 0 {
        Seq::empty()
    } else {
        let before = allowed(settings, edges.drop_last());
        if is_considered(settings, edges.last()) && (settings.max_edges_per_node == 0
            || before.len() < settings.max_edges_per_node) {
            before.push(edges.last())
        } else {
            before
        }
    }
}

/// The edges along which a node may send energy.
pub open spec fn routes<T: VectorType>(table: Table<T>, settings: Spreading, id: NodeId) -> Seq<
    EdgeView,
> {
    allowed(settings, edges_at(table, settings.edge_direction, id))
}

/// Whether one of these edges to a node is considered.
pub open spec fn considers(settings: Spreading, edges: Seq<EdgeView>, id: NodeId) -> bool {
    exists|k: int|
        0 <= k < edges.len() && (#[trigger] edges[k]).target == id && is_considered(
            settings,
            edges[k],
        )
}

/// The energies that are positive numbers.
pub open spec fn positive_energies(energies: Map<NodeId, u32>) -> Map<NodeId, u32> {
    energies.restrict(
        Set::new(
            |id: NodeId|
                energies.contains_key(id) && f32_positive(energies[id]) && f32_finite(energies[id]),
        ),
    )
}

/// Whether these are the energies that are passed on after a round: the positive ones, and where
/// there are more than the threshold allows, the greatest of them.
pub open spec fn is_passed_on(
    energies: Map<NodeId, u32>,
    threshold: usize,
    tier: Map<NodeId, u32>,
) -> bool {
    let positive = positive_energies(energies);
    if threshold == 0 || positive.dom().len() <= threshold {
        tier == positive
    } else {
        exists|best: Seq<Scored>| #[trigger]
            is_best(scored_set(positive), scored_order(), threshold as nat, best) && scored_set(tier)
                == best.to_set()
    }
}

/// The identifiers of the hits that tire: those that were not tired.
pub open spec fn tiring(hits: Seq<HitView>, met: Set<NodeId>) -> Seq<NodeId>
    decreases hits.len(),
{
    if hits.len() == 0 {
        Seq::empty()
    } else if met.contains(hits.last().id) {
        tiring(hits.drop_last(), met)
    } else {
        tiring(hits.drop_last(), met).push(hits.last().id)
    }
}

/// Whether a node is a seed.
pub open spec fn is_seed(seeds: Seq<HitView>, id: NodeId) -> bool {
    exists|i: int| 0 <= i < seeds.len() && (#[trigger] seeds[i]).id == id
}

/// Scored nodes as hits without a payload.
pub open spec fn bare_hits(list: Seq<Scored>) -> Seq<HitView> {
    Seq::new(
        list.len(),
        |i: int| HitView { id: list[i].id, score: list[i].score, payload: Payload::spec_null() },
    )
}

impl<
    P: Fn(u32, u32) -> u32,
    M: Fn(u32, u32) -> u32,
    D: Fn(u32, u32) -> u32,
    R: Fn(u32) -> u32,
    C: Fn(usize) -> u32,
    I: Fn(usize) -> u32,
> Energies<P, M, D, R, C, I> {
    /// The energies of the seeds.
    pub open spec fn charged(&self, settings: Spreading, seeds: Seq<HitView>) -> Seq<Scored> {
        Seq::new(
            seeds.len(),
            |i: int|
                Scored {
                    id: seeds[i].id,
                    score: self.product(seeds[i].score, self.freshness(settings, seeds[i].id)),
                },
        )
    }

    /// Whether one round leads from one state to the next.
    pub open spec fn is_round<T: VectorType, G: Fn(&Vec<u32>, &Vec<T>) -> u32>(
        &self,
        table: Table<T>,
        settings: Spreading,
        gate: G,
        shares: Seq<Scored>,
        before: Activation,
        after: Activation,
    ) -> bool {
        let senders = listing(before.tier);
        let items = self.all_sent(table, settings, gate, shares, senders);
        &&& after.total == self.gathered(before.total, items)
        &&& is_passed_on(
            self.gathered(Map::empty(), items),
            settings.lateral_inhibition_threshold,
            after.tier,
        )
        &&& forall|id: NodeId| #[trigger]
            after.met.contains(id) <==> before.met.contains(id) || self.is_met(
                table,
                settings,
                senders,
                id,
            )
    }

    /// Whether energy spreads from seeds in these states: for `depth` rounds, or until no node has
    /// energy to pass on.
    pub open spec fn spreads<T: VectorType, G: Fn(&Vec<u32>, &Vec<T>) -> u32>(
        &self,
        table: Table<T>,
        settings: Spreading,
        gate: G,
        seeds: Seq<HitView>,
        depth: nat,
        states: Seq<Activation>,
    ) -> bool {
        let shares = listing(self.shares(seeds, seeds.len() as int));
        let start = self.gathered(Map::empty(), self.charged(settings, seeds));
        &&& 1 <= states.len() <= depth + 1
        &&& states[0].tier == start
        &&& states[0].total == start
        &&& forall|id: NodeId| #[trigger]
            states[0].met.contains(id) <==> settings.enable_refractory_fatigue
                && settings.tired@.contains(id) && is_seed(seeds, id)
        &&& forall|k: int|
            0 <= k < states.len() - 1 ==> self.is_round(
                table,
                settings,
                gate,
                shares,
                #[trigger] states[k],
                states[k + 1],
            )
        &&& forall|k: int|
            0 < k < states.len() - 1 ==> (#[trigger] states[k]).tier.dom().len() > 0
        &&& states.len() == depth + 1 || states.last().tier.dom().len() == 0
    }

    /// Whether an expansion of seeds comes to this.
    pub open spec fn is_expansion<T: VectorType, G: Fn(&Vec<u32>, &Vec<T>) -> u32>(
        &self,
        table: Table<T>,
        settings: Spreading,
        gate: G,
        seeds: Seq<HitView>,
        depth: nat,
        expansion: Expansion,
    ) -> bool {
        let hits = views(expansion.hits@);
        if depth == 0 || seeds.len() == 0 {
            hits == seeds && expansion.rested@.len() == 0 && expansion.tired@.len() == 0
        } else {
            exists|states: Seq<Activation>| #[trigger]
                self.spreads(table, settings, gate, seeds, depth, states) && {
                    &&& hits == sorted(
                        hydrated(table, bare_hits(listing(states.last().total))),
                        hits_order(),
                    )
                    &&& increasing(expansion.rested@)
                    &&& expansion.rested@.to_set() == states.last().met
                    &&& expansion.tired@ == if settings.enable_refractory_fatigue {
                        tiring(
                            if hits.len() <= TIRING_HITS {
                                hits
                            } else {
                                hits.take(TIRING_HITS as int)
                            },
                            states.last().met,
                        )
                    } else {
                        Seq::empty()
                    }
                }
        }
    }

    /// Adds the energies of a list.
    fn gather(&self, energies: &mut BTreeMap<NodeId, u32>, items: &Vec<Scored>)
        requires
            self.sound(),
        ensures
            final(energies)@ == self.gathered(old(energies)@, items@),
    {
        let ghost base = energies@;
        let mut i: usize = 0;
        assert(items@.take(0) =~= Seq::<Scored>::empty());
        while i < items.len()
            invariant
                self.sound(),
                i <= items@.len(),
                energies@ == self.gathered(base, items@.take(i as int)),
            decreases items@.len() - i,
        {
            let item = items[i];
            proof {
                assert(items@.take(i + 1).drop_last() =~= items@.take(i as int));
                assert(items@.take(i + 1).last() == item);
            }
            let held: u32 = match energies.get(&item.id) {
                Some(energy) => *energy,
                None => 0,
            };
            let sum: u32 = (self.plus)(held, item.score);
            energies.insert(item.id, sum);
            i += 1;
        }
        assert(items@.take(i as int) =~= items@);
    }

    /// The shares of the seeds, in the order of the nodes.
    fn seed_shares(&self, seeds: &Vec<SearchHit>) -> (shares: Vec<Scored>)
        requires
            self.sound(),
        ensures
            shares@ == listing(self.shares(views(seeds@), seeds@.len() as int)),
    {
        let ghost all = views(seeds@);
        let mut mass: u32 = 0;
        let mut i: usize = 0;
        assert(all.take(0) =~= Seq::<HitView>::empty());
        while i < seeds.len()
            invariant
                self.sound(),
                all == views(seeds@),
                i <= seeds@.len(),
                mass == self.mass(all.take(i as int)),
            decreases seeds@.len() - i,
        {
            proof {
                assert(all.take(i + 1).drop_last() =~= all.take(i as int));
                assert(all.take(i + 1).last() == seeds@[i as int]@);
            }
            mass = (self.plus)(mass, at_least_zero(seeds[i].score));
            i += 1;
        }
        assert(all.take(i as int) =~= all);
        let mut shares: BTreeMap<NodeId, u32> = BTreeMap::new();
        assert(shares@ =~= Map::empty());
        let mut k: usize = 0;
        while k < seeds.len()
            invariant
                self.sound(),
                all == views(seeds@),
                k <= seeds@.len(),
                mass == self.mass(all),
                shares@ == self.shares(all, k as int),
            decreases seeds@.len() - k,
        {
            assert(all[k as int] == seeds@[k as int]@);
            let share: u32 = if f32_is_positive(mass) {
                (self.over)(at_least_zero(seeds[k].score), mass)
            } else {
                let total: u32 = (self.count)(seeds.len());
                (self.over)(F32_ONE, total)
            };
            shares.insert(seeds[k].id, share);
            k += 1;
        }
        list_scores(&shares)
    }

    /// Adds what an amount of energy gives each seed to a list.
    fn push_portions(&self, amount: u32, shares: &Vec<Scored>, items: &mut Vec<Scored>)
        requires
            self.sound(),
        ensures
            final(items)@ == old(items)@ + self.portions(amount, shares@),
    {
        let ghost before = items@;
        let mut i: usize = 0;
        while i < shares.len()
            invariant
                self.sound(),
                i <= shares@.len(),
                items@ == before + self.portions(amount, shares@).take(i as int),
            decreases shares@.len() - i,
        {
            let score: u32 = (self.times)(amount, shares[i].score);
            items.push(Scored { id: shares[i].id, score });
            proof {
                let all = self.portions(amount, shares@);
                assert(all.take(i + 1) =~= all.take(i as int).push(all[i as int]));
                assert(items@ =~= before + all.take(i + 1));
            }
            i += 1;
        }
        let ghost all = self.portions(amount, shares@);
        assert(all.take(i as int) =~= all);
    }

    /// What is left of the energy of a node that may be tired.
    fn find_freshness(&self, settings: &Spreading, id: NodeId) -> (left: u32)
        ensures
            left == self.freshness(*settings, id),
    {
        if settings.enable_refractory_fatigue && settings.tired.contains(&id) {
            FATIGUE
        } else {
            F32_ONE
        }
    }

    /// How much of its weight an edge passes on.
    fn find_passed<T: VectorType, G: Fn(&Vec<u32>, &Vec<T>) -> u32>(
        &self,
        db: &MemTable<T>,
        settings: &Spreading,
        gate: &G,
        edge: &Edge,
    ) -> (passed: u32)
        requires
            self.sound(),
            is_gate(*gate),
            db.inv(),
        ensures
            passed == self.passed(db@, *settings, *gate, edge@),
    {
        let inhibition: u32 = if settings.enable_inverse_inhibition {
            let sources = db.get_incoming_sources(edge.target_id);
            proof {
                sources@.unique_seq_to_set();
                assert(sources@.to_set() =~= sources_of(db@, edge.target_id));
            }
            let degree: usize = if sources.len() == 0 {
                1
            } else {
                sources.len()
            };
            (self.inhibition)(degree)
        } else {
            F32_ONE
        };
        let freshness: u32 = self.find_freshness(settings, edge.target_id);
        let opening: u32 = match settings.diffusion_bias {
            Some(bias) => if bias.len() > 0 {
                match db.get_vector(edge.target_id) {
                    Some(vector) => gate(bias, vector),
                    None => F32_ONE,
                }
            } else {
                F32_ONE
            },
            None => F32_ONE,
        };
        let weighed: u32 = (self.times)(absolute(edge.weight), inhibition);
        let rested: u32 = (self.times)(weighed, freshness);
        (self.times)(rested, opening)
    }
}

/// Whether an edge is considered.
fn considered(settings: &Spreading, edge: &Edge) -> (result: bool)
    ensures
        result == is_considered(*settings, edge@),
{
    let labelled = match settings.expand_labels {
        None => true,
        Some(labels) => {
            let mut found = false;
            let mut i: usize = 0;
            while i < labels.len() && !found
                invariant
                    i <= labels@.len(),
                    settings.expand_labels == Some(labels),
                    found ==> exists|j: int|
                        0 <= j < labels@.len() && (#[trigger] labels@[j])@ == edge.label@,
                    !found ==> forall|j: int|
                        0 <= j < i ==> (#[trigger] labels@[j])@ != edge.label@,
                decreases labels@.len() - i,
            {
                if same_text(labels[i].as_str(), edge.label.as_str()) {
                    assert(labels@[i as int]@ == edge.label@);
                    found = true;
                }
                i += 1;
            }
            found
        },
    };
    labelled && f32_is_finite(edge.weight) && absolute(edge.weight) != 0 && !(f32_is_positive(
        settings.min_edge_weight,
    ) && f32_less(edge.weight, settings.min_edge_weight))
}

/// Adds the edges of a node that lead to another to a list, each seen from there.
fn push_turned(source: NodeId, edges: &Vec<Edge>, id: NodeId, list: &mut Vec<Edge>)
    ensures
        edge_views(final(list)@) == edge_views(old(list)@) + turned(
            source,
            edge_views(edges@),
            id,
        ),
{
    let ghost start = edge_views(list@);
    let ghost all = edge_views(edges@);
    let mut i: usize = 0;
    assert(all.take(0) =~= Seq::<EdgeView>::empty());
    assert(start + turned(source, all.take(0), id) =~= start);
    while i < edges.len()
        invariant
            i <= edges@.len(),
            all == edge_views(edges@),
            edge_views(list@) == start + turned(source, all.take(i as int), id),
        decreases edges@.len() - i,
    {
        let ghost before = edge_views(list@);
        proof {
            assert(all.take(i + 1).drop_last() =~= all.take(i as int));
            assert(all.take(i + 1).last() == edges@[i as int]@);
        }
        if edges[i].target_id == id {
            let mut edge = edges[i].duplicate();
            edge.target_id = source;
            list.push(edge);
            proof {
                assert(edge_views(list@) =~= before.push(edge@));
                assert(edge_views(list@) =~= start + turned(source, all.take(i + 1), id));
            }
        }
        i += 1;
    }
    assert(all.take(i as int) =~= all);
}

/// The edges to a node, each seen from there.
fn find_arriving<T: VectorType>(db: &MemTable<T>, id: NodeId) -> (list: Vec<Edge>)
    requires
        db.inv(),
    ensures
        edge_views(list@) == arriving(db@, id),
{
    let sources = sort_dedup(&db.get_incoming_sources(id));
    proof {
        assert(sources@.to_set() =~= sources_of(db@, id));
        lemma_increasing_unique(sources@, sources_in_order(db@, id));
    }
    let mut list: Vec<Edge> = Vec::new();
    let mut i: usize = 0;
    assert(sources@.take(0) =~= Seq::<NodeId>::empty());
    assert(edge_views(list@) =~= Seq::<EdgeView>::empty());
    while i < sources.len()
        invariant
            i <= sources@.len(),
            sources@.to_set() == sources_of(db@, id),
            edge_views(list@) == turned_from(db@, sources@.take(i as int), id),
        decreases sources@.len() - i,
    {
        let source: NodeId = sources[i];
        proof {
            assert(sources@.contains(source));
            assert(sources_of(db@, id).contains(source));
            assert(sources@.take(i + 1).drop_last() =~= sources@.take(i as int));
            assert(sources@.take(i + 1).last() == source);
        }
        push_turned(source, db.get_edges(source).unwrap(), id, &mut list);
        i += 1;
    }
    assert(sources@.take(i as int) =~= sources@);
    list
}

/// Adds the edges that are considered to a list, as long as it may grow.
fn push_allowed(
    settings: &Spreading,
    edges: &Vec<Edge>,
    list: &mut Vec<Edge>,
    before: Ghost<Seq<EdgeView>>,
)
    requires
        edge_views(old(list)@) == allowed(*settings, before@),
    ensures
        edge_views(final(list)@) == allowed(*settings, before@ + edge_views(edges@)),
{
    let ghost all = edge_views(edges@);
    let mut i: usize = 0;
    assert(before@ + all.take(0) =~= before@);
    while i < edges.len()
        invariant
            i <= edges@.len(),
            all == edge_views(edges@),
            edge_views(list@) == allowed(*settings, before@ + all.take(i as int)),
        decreases edges@.len() - i,
    {
        let ghost held = edge_views(list@);
        proof {
            let more = before@ + all.take(i + 1);
            assert(more.drop_last() =~= before@ + all.take(i as int));
            assert(more.last() == edges@[i as int]@);
            assert(held.len() == list@.len());
        }
        if considered(settings, &edges[i]) && (settings.max_edges_per_node == 0 || list.len()
            < settings.max_edges_per_node) {
            list.push(edges[i].duplicate());
            assert(edge_views(list@) =~= held.push(edges@[i as int]@));
        }
        i += 1;
    }
    assert(all.take(i as int) =~= all);
}

/// The edges along which a node may send energy.
fn find_routes<T: VectorType>(db: &MemTable<T>, settings: &Spreading, id: NodeId) -> (list: Vec<
    Edge,
>)
    requires
        db.inv(),
    ensures
        edge_views(list@) == routes(db@, *settings, id),
{
    let mut list: Vec<Edge> = Vec::new();
    let ghost mut seen: Seq<EdgeView> = Seq::empty();
    assert(edge_views(list@) =~= Seq::<EdgeView>::empty());
    let outward = match settings.edge_direction {
        EdgeDirection::Incoming => false,
        _ => true,
    };
    let inward = match settings.edge_direction {
        EdgeDirection::Outgoing => false,
        _ => true,
    };
    if outward {
        match db.get_edges(id) {
            Some(edges) => {
                push_allowed(settings, edges, &mut list, Ghost(seen));
                proof {
                    assert(seen + edge_views(edges@) =~= db@.edges_of(id));
                    seen = db@.edges_of(id);
                }
            },
            None => {
                assert(db@.edges_of(id) =~= seen);
            },
        }
    }
    if inward {
        let edges = find_arriving(db, id);
        push_allowed(settings, &edges, &mut list, Ghost(seen));
        proof {
            seen = seen + edge_views(edges@);
        }
    }
    assert(seen =~= edges_at(db@, settings.edge_direction, id));
    list
}

/// Whether energy along an edge is negative.
fn sign_of(edge: &Edge) -> (sign: u32)
    ensures
        sign == if edge.label@ == "inhibition"@ || edge.weight >= F32_SIGN {
            F32_MINUS_ONE
        } else {
            F32_ONE
        },
{
    if same_text(edge.label.as_str(), "inhibition") || edge.weight >= F32_SIGN {
        F32_MINUS_ONE
    } else {
        F32_ONE
    }
}

/// What goes along an edge, before the budget is known: to which node, how much of the weight, and
/// with which sign.
struct Flow {
    target: NodeId,
    passed: u32,
    sign: u32,
}

impl<
    P: Fn(u32, u32) -> u32,
    M: Fn(u32, u32) -> u32,
    D: Fn(u32, u32) -> u32,
    R: Fn(u32) -> u32,
    C: Fn(usize) -> u32,
    I: Fn(usize) -> u32,
> Energies<P, M, D, R, C, I> {
    /// What flows carry under a budget.
    spec fn carried(&self, flows: Seq<Flow>, budget: u32, divisor: u32) -> Seq<Scored> {
        Seq::new(
            flows.len(),
            |i: int|
                Scored {
                    id: flows[i].target,
                    score: self.product(
                        self.product(budget, self.quotient(flows[i].passed, divisor)),
                        flows[i].sign,
                    ),
                },
        )
    }

    /// The flows along the edges of a node, with the sum of the weights. The tired nodes that are
    /// met are added to a list.
    fn find_flows<T: VectorType, G: Fn(&Vec<u32>, &Vec<T>) -> u32>(
        &self,
        db: &MemTable<T>,
        settings: &Spreading,
        gate: &G,
        edges: &Vec<Edge>,
        met: &mut Vec<NodeId>,
    ) -> (result: (Vec<Flow>, u32))
        requires
            self.sound(),
            is_gate(*gate),
            db.inv(),
        ensures
            result.1 == self.weight_sum(db@, *settings, *gate, edge_views(edges@)),
            forall|budget: u32, divisor: u32| #[trigger]
                self.along(
                    db@,
                    *settings,
                    *gate,
                    edge_views(edges@),
                    budget,
                    divisor,
                ) == self.carried(result.0@, budget, divisor),
            forall|id: NodeId| #[trigger]
                final(met)@.contains(id) <==> old(met)@.contains(id) || (
                settings.enable_refractory_fatigue && settings.tired@.contains(id) && considers(
                    *settings,
                    edge_views(edges@),
                    id,
                )),
    {
        let ghost all = edge_views(edges@);
        let ghost start = met@;
        let mut flows: Vec<Flow> = Vec::new();
        let mut divisor: u32 = 0;
        let mut i: usize = 0;
        proof {
            assert(all.take(0) =~= Seq::<EdgeView>::empty());
            assert forall|budget: u32, divisor: u32| #[trigger]
                self.along(db@, *settings, *gate, all.take(0), budget, divisor) == self.carried(
                    flows@,
                    budget,
                    divisor,
                ) by {
                assert(self.carried(flows@, budget, divisor) =~= Seq::<Scored>::empty());
            }
        }
        while i < edges.len()
            invariant
                self.sound(),
                is_gate(*gate),
                db.inv(),
                all == edge_views(edges@),
                i <= edges@.len(),
                divisor == self.weight_sum(db@, *settings, *gate, all.take(i as int)),
                forall|budget: u32, divisor: u32| #[trigger]
                    self.along(db@, *settings, *gate, all.take(i as int), budget, divisor)
                        == self.carried(flows@, budget, divisor),
                forall|id: NodeId| #[trigger]
                    met@.contains(id) <==> start.contains(id) || (
                    settings.enable_refractory_fatigue && settings.tired@.contains(id) && considers(
                        *settings,
                        all.take(i as int),
                        id,
                    )),
            decreases edges@.len() - i,
        {
            let edge = &edges[i];
            let ghost few = all.take(i as int);
            let ghost more = all.take(i + 1);
            let ghost met_before = met@;
            let ghost flows_before = flows@;
            proof {
                assert(more.drop_last() =~= few);
                assert(more.last() == edge@);
            }
            let wanted = considered(settings, edge);
            if wanted {
                if settings.enable_refractory_fatigue && settings.tired.contains(&edge.target_id) {
                    met.push(edge.target_id);
                }
                let passed: u32 = self.find_passed(db, settings, gate, edge);
                if f32_is_positive(passed) && f32_is_finite(passed) {
                    divisor = (self.plus)(divisor, absolute(edge.weight));
                    flows.push(Flow { target: edge.target_id, passed, sign: sign_of(edge) });
                }
            }
            proof {
                assert forall|budget: u32, divisor: u32| #[trigger]
                    self.along(db@, *settings, *gate, more, budget, divisor) == self.carried(
                        flows@,
                        budget,
                        divisor,
                    ) by {
                    assert(self.along(db@, *settings, *gate, few, budget, divisor) == self.carried(
                        flows_before,
                        budget,
                        divisor,
                    ));
                    if self.is_followed(db@, *settings, *gate, edge@) {
                        assert(self.carried(flows@, budget, divisor) =~= self.carried(
                            flows_before,
                            budget,
                            divisor,
                        ).push(
                            Scored {
                                id: edge@.target,
                                score: self.transmitted(
                                    db@,
                                    *settings,
                                    *gate,
                                    edge@,
                                    budget,
                                    divisor,
                                ),
                            },
                        ));
                    }
                }
                assert forall|id: NodeId| #[trigger] met@.contains(id) <==> start.contains(id) || (
                settings.enable_refractory_fatigue && settings.tired@.contains(id) && considers(
                    *settings,
                    more,
                    id,
                )) by {
                    lemma_considers_push(*settings, few, edge@, id);
                    assert(more =~= few.push(edge@));
                    lemma_contains_push(met_before, edge.target_id, id);
                    assert(met_before.contains(id) <==> start.contains(id) || (
                    settings.enable_refractory_fatigue && settings.tired@.contains(id) && considers(
                        *settings,
                        few,
                        id,
                    )));
                }
            }
            i += 1;
        }
        assert(all.take(i as int) =~= all);
        (flows, divisor)
    }

    /// Adds what a node sends to a list, and the tired nodes that are met to another.
    fn send<T: VectorType, G: Fn(&Vec<u32>, &Vec<T>) -> u32>(
        &self,
        db: &MemTable<T>,
        settings: &Spreading,
        gate: &G,
        shares: &Vec<Scored>,
        node: Scored,
        items: &mut Vec<Scored>,
        met: &mut Vec<NodeId>,
    )
        requires
            self.sound(),
            is_gate(*gate),
            db.inv(),
        ensures
            final(items)@ == old(items)@ + self.sent(db@, *settings, *gate, shares@, node),
            forall|id: NodeId| #[trigger]
                final(met)@.contains(id) <==> old(met)@.contains(id) || (
                settings.enable_refractory_fatigue && settings.tired@.contains(id)
                    && self.is_sending(*settings, node.score) && considers(
                    *settings,
                    routes(db@, *settings, node.id),
                    id,
                )),
    {
        let ghost start = items@;
        if f32_at_least(0, node.score) {
            assert(items@ =~= start + Seq::<Scored>::empty());
            return;
        }
        let alpha: u32 = f32_clamp(settings.restart_alpha, 0, F32_ONE);
        let returned: u32 = (self.times)(node.score, alpha);
        self.push_portions(returned, shares, items);
        let kept: u32 = (self.rest)(alpha);
        let budget: u32 = (self.times)(node.score, kept);
        if f32_at_least(0, budget) {
            return;
        }
        let edges = find_routes(db, settings, node.id);
        let (flows, divisor) = self.find_flows(db, settings, gate, &edges, met);
        if f32_at_least(0, divisor) {
            self.push_portions(budget, shares, items);
            proof {
                let back = self.portions(self.product(node.score, alpha), shares@);
                assert(items@ =~= start + (back + self.portions(budget, shares@)));
            }
            return;
        }
        let ghost returned_items = items@;
        let ghost all = self.carried(flows@, budget, divisor);
        let mut i: usize = 0;
        assert(items@ =~= returned_items + all.take(0));
        while i < flows.len()
            invariant
                self.sound(),
                i <= flows@.len(),
                all == self.carried(flows@, budget, divisor),
                items@ == returned_items + all.take(i as int),
            decreases flows@.len() - i,
        {
            let part: u32 = (self.over)(flows[i].passed, divisor);
            let amount: u32 = (self.times)(budget, part);
            let score: u32 = (self.times)(amount, flows[i].sign);
            items.push(Scored { id: flows[i].target, score });
            proof {
                assert(all.take(i + 1) =~= all.take(i as int).push(all[i as int]));
                assert(items@ =~= returned_items + all.take(i + 1));
            }
            i += 1;
        }
        proof {
            assert(all.take(i as int) =~= all);
            let back = self.portions(self.product(node.score, alpha), shares@);
            assert(self.along(
                db@,
                *settings,
                *gate,
                routes(db@, *settings, node.id),
                budget,
                divisor,
            ) == all);
            assert(items@ =~= start + (back + all));
        }
    }
}

/// What is considered with one more edge.
proof fn lemma_considers_push(
    settings: Spreading,
    edges: Seq<EdgeView>,
    edge: EdgeView,
    id: NodeId,
)
    ensures
        considers(settings, edges.push(edge), id) <==> considers(settings, edges, id) || (
        edge.target == id && is_considered(settings, edge)),
{
    let more = edges.push(edge);
    if considers(settings, edges, id) {
        let k = choose|k: int|
            0 <= k < edges.len() && (#[trigger] edges[k]).target == id && is_considered(
                settings,
                edges[k],
            );
        assert(more[k] == edges[k]);
    }
    if edge.target == id && is_considered(settings, edge) {
        assert(more[edges.len() as int] == edge);
    }
    if considers(settings, more, id) {
        let k = choose|k: int|
            0 <= k < more.len() && (#[trigger] more[k]).target == id && is_considered(
                settings,
                more[k],
            );
        if k < edges.len() {
            assert(edges[k] == more[k]);
        }
    }
}

/// The energies that are passed on after a round.
fn prune(energies: &BTreeMap<NodeId, u32>, threshold: usize) -> (tier: BTreeMap<NodeId, u32>)
    ensures
        is_passed_on(energies@, threshold, tier@),
{
    let ids = map_keys(energies);
    let mut positive: BTreeMap<NodeId, u32> = BTreeMap::new();
    let ghost wanted = positive_energies(energies@);
    let mut i: usize = 0;
    while i < ids.len()
        invariant
            i <= ids@.len(),
            ids@.to_set() == energies@.dom(),
            wanted == positive_energies(energies@),
            forall|id: NodeId| #[trigger]
                positive@.contains_key(id) <==> wanted.contains_key(id) && ids@.take(
                    i as int,
                ).contains(id),
            forall|id: NodeId| #[trigger]
                positive@.contains_key(id) ==> positive@[id] == energies@[id],
        decreases ids@.len() - i,
    {
        let id: NodeId = ids[i];
        let ghost before = positive@;
        proof {
            assert(ids@.contains(id));
            assert(ids@.to_set().contains(id));
        }
        let energy: u32 = *energies.get(&id).unwrap();
        if f32_is_positive(energy) && f32_is_finite(energy) {
            positive.insert(id, energy);
        }
        proof {
            assert(ids@.take(i + 1) =~= ids@.take(i as int).push(id));
            assert forall|other: NodeId| #[trigger] positive@.contains_key(other)
                <==> wanted.contains_key(other) && ids@.take(i + 1).contains(other) by {
                lemma_contains_push(ids@.take(i as int), id, other);
                assert(before.contains_key(other) <==> wanted.contains_key(other) && ids@.take(
                    i as int,
                ).contains(other));
            }
        }
        i += 1;
    }
    proof {
        assert(ids@.take(i as int) =~= ids@);
        assert forall|id: NodeId| wanted.contains_key(id) implies #[trigger] positive@.contains_key(
            id,
        ) by {
            assert(ids@.to_set().contains(id));
        }
        assert(positive@ =~= wanted);
    }
    if threshold == 0 || positive.len() <= threshold {
        return positive;
    }
    let best = rank_scores(&positive, threshold);
    let mut tier: BTreeMap<NodeId, u32> = BTreeMap::new();
    let mut k: usize = 0;
    assert(scored_set(tier@) =~= best@.take(0).to_set());
    while k < best.len()
        invariant
            k <= best@.len(),
            positive@ == wanted,
            is_best(scored_set(wanted), scored_order(), threshold as nat, best@),
            forall|item: Scored| #[trigger]
                scored_set(tier@).contains(item) <==> best@.take(k as int).contains(item),
        decreases best@.len() - k,
    {
        let item = best[k];
        let ghost before = tier@;
        tier.insert(item.id, item.score);
        proof {
            assert(best@.take(k + 1) =~= best@.take(k as int).push(item));
            assert(best@.contains(item));
            assert(scored_set(wanted).contains(item));
            assert forall|other: Scored| #[trigger] scored_set(tier@).contains(other)
                <==> best@.take(k + 1).contains(other) by {
                lemma_contains_push(best@.take(k as int), item, other);
                assert(scored_set(before).contains(other) <==> best@.take(k as int).contains(other));
                if best@.take(k as int).contains(other) {
                    assert(best@.contains(other));
                    assert(scored_set(wanted).contains(other));
                }
            }
        }
        k += 1;
    }
    proof {
        assert(best@.take(k as int) =~= best@);
        assert(scored_set(tier@) =~= best@.to_set());
        assert(is_best(
            scored_set(positive_energies(energies@)),
            scored_order(),
            threshold as nat,
            best@,
        ));
    }
    tier
}

/// Hits without a payload.
fn make_hits(list: &Vec<Scored>) -> (hits: Vec<SearchHit>)
    ensures
        views(hits@) == bare_hits(list@),
{
    let mut hits: Vec<SearchHit> = Vec::new();
    let mut i: usize = 0;
    while i < list.len()
        invariant
            i <= list@.len(),
            hits@.len() == i,
            forall|k: int| 0 <= k < i ==> (#[trigger] hits@[k])@ == bare_hits(list@)[k],
        decreases list@.len() - i,
    {
        hits.push(SearchHit { id: list[i].id, score: list[i].score, payload: Payload::null() });
        i += 1;
    }
    assert(views(hits@) =~= bare_hits(list@));
    hits
}

/// The best hits that were not tired.
fn find_tiring(hits: &Vec<SearchHit>, met: &Vec<NodeId>) -> (tired: Vec<NodeId>)
    ensures
        tired@ == tiring(
            if hits@.len() <= TIRING_HITS {
                views(hits@)
            } else {
                views(hits@).take(TIRING_HITS as int)
            },
            met@.to_set(),
        ),
{
    let limit: usize = if hits.len() <= TIRING_HITS {
        hits.len()
    } else {
        TIRING_HITS
    };
    let ghost all = views(hits@);
    let mut tired: Vec<NodeId> = Vec::new();
    let mut i: usize = 0;
    assert(all.take(0) =~= Seq::<HitView>::empty());
    while i < limit
        invariant
            i <= limit <= hits@.len(),
            all == views(hits@),
            tired@ == tiring(all.take(i as int), met@.to_set()),
        decreases limit - i,
    {
        let id: NodeId = hits[i].id;
        proof {
            assert(all.take(i + 1).drop_last() =~= all.take(i as int));
            assert(all.take(i + 1).last() == hits@[i as int]@);
        }
        let mut known = false;
        let mut k: usize = 0;
        while k < met.len() && !known
            invariant
                k <= met@.len(),
                known ==> met@.contains(id),
                !known ==> forall|n: int| 0 <= n < k ==> #[trigger] met@[n] != id,
            decreases met@.len() - k,
        {
            if met[k] == id {
                assert(met@[k as int] == id);
                known = true;
            }
            k += 1;
        }
        assert(known == met@.to_set().contains(id));
        if !known {
            tired.push(id);
        }
        i += 1;
    }
    assert(all.take(hits@.len() as int) =~= all);
    tired
}

impl<
    P: Fn(u32, u32) -> u32,
    M: Fn(u32, u32) -> u32,
    D: Fn(u32, u32) -> u32,
    R: Fn(u32) -> u32,
    C: Fn(usize) -> u32,
    I: Fn(usize) -> u32,
> Energies<P, M, D, R, C, I> {
    /// What the nodes of a list send. The tired nodes that are met are added to a list.
    fn send_all<T: VectorType, G: Fn(&Vec<u32>, &Vec<T>) -> u32>(
        &self,
        db: &MemTable<T>,
        settings: &Spreading,
        gate: &G,
        shares: &Vec<Scored>,
        nodes: &Vec<Scored>,
        met: &mut Vec<NodeId>,
    ) -> (items: Vec<Scored>)
        requires
            self.sound(),
            is_gate(*gate),
            db.inv(),
        ensures
            items@ == self.all_sent(db@, *settings, *gate, shares@, nodes@),
            forall|id: NodeId| #[trigger]
                final(met)@.contains(id) <==> old(met)@.contains(id) || self.is_met(
                    db@,
                    *settings,
                    nodes@,
                    id,
                ),
    {
        let ghost start = met@;
        let mut items: Vec<Scored> = Vec::new();
        let mut i: usize = 0;
        assert(nodes@.take(0) =~= Seq::<Scored>::empty());
        while i < nodes.len()
            invariant
                self.sound(),
                is_gate(*gate),
                db.inv(),
                i <= nodes@.len(),
                items@ == self.all_sent(db@, *settings, *gate, shares@, nodes@.take(i as int)),
                forall|id: NodeId| #[trigger]
                    met@.contains(id) <==> start.contains(id) || self.is_met(
                        db@,
                        *settings,
                        nodes@.take(i as int),
                        id,
                    ),
            decreases nodes@.len() - i,
        {
            let ghost few = nodes@.take(i as int);
            let ghost more = nodes@.take(i + 1);
            let ghost met_before = met@;
            let node = nodes[i];
            self.send(db, settings, gate, shares, node, &mut items, met);
            proof {
                assert(more.drop_last() =~= few);
                assert(more.last() == node);
                assert(more =~= few.push(node));
                assert forall|id: NodeId| #[trigger] met@.contains(id) <==> start.contains(id)
                    || self.is_met(db@, *settings, more, id) by {
                    assert(met_before.contains(id) <==> start.contains(id) || self.is_met(
                        db@,
                        *settings,
                        few,
                        id,
                    ));
                    self.lemma_met_push(db@, *settings, few, node, id);
                }
            }
            i += 1;
        }
        assert(nodes@.take(i as int) =~= nodes@);
        items
    }

    /// What is met with one more sender.
    proof fn lemma_met_push<T: VectorType>(
        &self,
        table: Table<T>,
        settings: Spreading,
        nodes: Seq<Scored>,
        node: Scored,
        id: NodeId,
    )
        ensures
            self.is_met(table, settings, nodes.push(node), id) <==> self.is_met(
                table,
                settings,
                nodes,
                id,
            ) || (settings.enable_refractory_fatigue && settings.tired@.contains(id)
                && self.is_sending(settings, node.score) && considers(
                settings,
                routes(table, settings, node.id),
                id,
            )),
    {
        let more = nodes.push(node);
        if self.is_met(table, settings, nodes, id) {
            let i = choose|i: int|
                0 <= i < nodes.len() && self.is_sending(settings, (#[trigger] nodes[i]).score)
                    && considers(settings, routes(table, settings, nodes[i].id), id);
            assert(more[i] == nodes[i]);
        }
        if self.is_sending(settings, node.score) && considers(
            settings,
            routes(table, settings, node.id),
            id,
        ) {
            assert(more[nodes.len() as int] == node);
        }
        if self.is_met(table, settings, more, id) {
            let i = choose|i: int|
                0 <= i < more.len() && self.is_sending(settings, (#[trigger] more[i]).score)
                    && considers(settings, routes(table, settings, more[i].id), id);
            if i < nodes.len() {
                assert(nodes[i] == more[i]);
            }
        }
    }

    /// The energies of the seeds.
    fn charge(&self, settings: &Spreading, seeds: &Vec<SearchHit>, met: &mut Vec<NodeId>) -> (items:
        Vec<Scored>)
        requires
            self.sound(),
            old(met)@.len() == 0,
        ensures
            items@ == self.charged(*settings, views(seeds@)),
            forall|id: NodeId| #[trigger]
                final(met)@.contains(id) <==> settings.enable_refractory_fatigue
                    && settings.tired@.contains(id) && is_seed(views(seeds@), id),
    {
        let ghost all = views(seeds@);
        let mut items: Vec<Scored> = Vec::new();
        let mut i: usize = 0;
        while i < seeds.len()
            invariant
                self.sound(),
                all == views(seeds@),
                i <= seeds@.len(),
                items@.len() == i,
                forall|k: int|
                    0 <= k < i ==> (#[trigger] items@[k]) == self.charged(*settings, all)[k],
                forall|id: NodeId| #[trigger]
                    met@.contains(id) <==> settings.enable_refractory_fatigue
                        && settings.tired@.contains(id) && is_seed(all.take(i as int), id),
            decreases seeds@.len() - i,
        {
            let id: NodeId = seeds[i].id;
            let ghost before = met@;
            if settings.enable_refractory_fatigue && settings.tired.contains(&id) {
                met.push(id);
            }
            let left: u32 = self.find_freshness(settings, id);
            let score: u32 = (self.times)(seeds[i].score, left);
            items.push(Scored { id, score });
            proof {
                let few = all.take(i as int);
                let more = all.take(i + 1);
                assert(all[i as int] == seeds@[i as int]@);
                assert forall|other: NodeId| is_seed(more, other) <==> is_seed(few, other) || other
                    == id by {
                    if is_seed(few, other) {
                        let k = choose|k: int| 0 <= k < few.len() && (#[trigger] few[k]).id == other;
                        assert(more[k] == few[k]);
                    }
                    assert(more[i as int].id == id);
                    if is_seed(more, other) && other != id {
                        let k = choose|k: int|
                            0 <= k < more.len() && (#[trigger] more[k]).id == other;
                        assert(few[k] == more[k]);
                    }
                }
                assert forall|other: NodeId| #[trigger] met@.contains(other)
                    <==> settings.enable_refractory_fatigue && settings.tired@.contains(other)
                    && is_seed(more, other) by {
                    lemma_contains_push(before, id, other);
                    assert(before.contains(other) <==> settings.enable_refractory_fatigue
                        && settings.tired@.contains(other) && is_seed(few, other));
                    assert(is_seed(more, other) <==> is_seed(few, other) || other == id);
                }
            }
            i += 1;
        }
        assert(all.take(i as int) =~= all);
        assert(items@ =~= self.charged(*settings, all));
        items
    }

    /// Lets the energy of seeds spread for `max_depth` rounds. The hits come with the greatest
    /// energy first.
    fn expand<T: VectorType, G: Fn(&Vec<u32>, &Vec<T>) -> u32>(
        &self,
        db: &MemTable<T>,
        seeds: Vec<SearchHit>,
        max_depth: usize,
        settings: &Spreading,
        gate: &G,
    ) -> (expansion: Expansion)
        requires
            self.sound(),
            is_gate(*gate),
            db.inv(),
        ensures
            self.is_expansion(
                db@,
                *settings,
                *gate,
                views(seeds@),
                max_depth as nat,
                expansion,
            ),
    {
        if max_depth == 0 || seeds.len() == 0 {
            return Expansion { hits: seeds, rested: Vec::new(), tired: Vec::new() };
        }
        let ghost all = views(seeds@);
        let shares = self.seed_shares(&seeds);
        let mut met: Vec<NodeId> = Vec::new();
        let charged = self.charge(settings, &seeds, &mut met);
        let mut tier: BTreeMap<NodeId, u32> = BTreeMap::new();
        let mut total: BTreeMap<NodeId, u32> = BTreeMap::new();
        proof {
            assert(tier@ =~= Map::empty());
            assert(total@ =~= Map::empty());
        }
        self.gather(&mut tier, &charged);
        self.gather(&mut total, &charged);
        let ghost mut states: Seq<Activation> = seq![
            Activation { tier: tier@, total: total@, met: met@.to_set() },
        ];
        let mut depth: usize = 0;
        let mut going = true;
        assert(all.len() == seeds@.len());
        while depth < max_depth && going
            invariant
                self.sound(),
                is_gate(*gate),
                db.inv(),
                depth <= max_depth,
                shares@ == listing(self.shares(all, all.len() as int)),
                states.len() == depth + 1,
                states.last().tier == tier@,
                states.last().total == total@,
                states.last().met == met@.to_set(),
                states[0].tier == self.gathered(Map::empty(), self.charged(*settings, all)),
                states[0].total == states[0].tier,
                forall|id: NodeId| #[trigger]
                    states[0].met.contains(id) <==> settings.enable_refractory_fatigue
                        && settings.tired@.contains(id) && is_seed(all, id),
                forall|k: int|
                    0 <= k < states.len() - 1 ==> self.is_round(
                        db@,
                        *settings,
                        *gate,
                        shares@,
                        #[trigger] states[k],
                        states[k + 1],
                    ),
                forall|k: int|
                    0 < k < states.len() - 1 ==> (#[trigger] states[k]).tier.dom().len() > 0,
                going && depth > 0 ==> tier@.dom().len() > 0,
                !going ==> tier@.dom().len() == 0,
            decreases max_depth - depth,
        {
            let senders = list_scores(&tier);
            let ghost met_before = met@;
            let items = self.send_all(db, settings, gate, &shares, &senders, &mut met);
            let mut next: BTreeMap<NodeId, u32> = BTreeMap::new();
            assert(next@ =~= Map::empty());
            self.gather(&mut next, &items);
            self.gather(&mut total, &items);
            tier = prune(&next, settings.lateral_inhibition_threshold);
            proof {
                let old_states = states;
                let after = Activation { tier: tier@, total: total@, met: met@.to_set() };
                assert(self.is_round(db@, *settings, *gate, shares@, states.last(), after)) by {
                    assert forall|id: NodeId| #[trigger] after.met.contains(id)
                        <==> states.last().met.contains(id) || self.is_met(
                        db@,
                        *settings,
                        senders@,
                        id,
                    ) by {
                        assert(met@.contains(id) <==> met_before.contains(id) || self.is_met(
                            db@,
                            *settings,
                            senders@,
                            id,
                        ));
                    }
                }
                states = states.push(after);
                assert forall|k: int| 0 <= k < states.len() - 1 implies self.is_round(
                    db@,
                    *settings,
                    *gate,
                    shares@,
                    #[trigger] states[k],
                    states[k + 1],
                ) by {
                    if k < old_states.len() - 1 {
                        assert(old_states[k] == states[k] && old_states[k + 1] == states[k + 1]);
                    } else {
                        assert(states[k] == old_states.last());
                    }
                }
                assert forall|k: int| 0 < k < states.len() - 1 implies (
                #[trigger] states[k]).tier.dom().len() > 0 by {
                    assert(states[k] == old_states[k]);
                }
            }
            if tier.len() == 0 {
                going = false;
            }
            depth += 1;
        }
        let list = list_scores(&total);
        let bare = make_hits(&list);
        let found = hydrate(db, &bare);
        let hits = sort_items(found);
        let rested = sort_dedup(&met);
        let tired: Vec<NodeId> = if settings.enable_refractory_fatigue {
            find_tiring(&hits, &rested)
        } else {
            Vec::new()
        };
        let expansion = Expansion { hits, rested, tired };
        proof {
            assert(views(expansion.hits@).len() == expansion.hits@.len());
            assert(expansion.rested@.to_set() =~= met@.to_set());
            assert(self.spreads(db@, *settings, *gate, all, max_depth as nat, states));
        }
        expansion
    }
}

/// Lets the energy of seeds spread along the edges with the labels and weights that are followed,
/// in the direction that is followed, for `max_depth` rounds. Every round returns a part of the
/// energy to the seeds. The nodes in `tired` take less where fatigue counts.
pub fn expand_graph_with_labels<
    T: VectorType,
    P: Fn(u32, u32) -> u32,
    M: Fn(u32, u32) -> u32,
    D: Fn(u32, u32) -> u32,
    R: Fn(u32) -> u32,
    C: Fn(usize) -> u32,
    I: Fn(usize) -> u32,
    G: Fn(&Vec<u32>, &Vec<T>) -> u32,
>(
    db: &MemTable<T>,
    seeds: Vec<SearchHit>,
    max_depth: usize,
    restart_alpha: u32,
    enable_inverse_inhibition: bool,
    lateral_inhibition_threshold: usize,
    enable_refractory_fatigue: bool,
    diffusion_bias: Option<&Vec<u32>>,
    expand_labels: Option<&Vec<String>>,
    max_edges_per_node: usize,
    min_edge_weight: u32,
    edge_direction: EdgeDirection,
    tired: &BTreeSet<NodeId>,
    energies: &Energies<P, M, D, R, C, I>,
    gate: &G,
) -> (expansion: Expansion)
    requires
        energies.sound(),
        is_gate(*gate),
        db.inv(),
    ensures
        energies.is_expansion(
            db@,
            (Spreading {
                restart_alpha,
                enable_inverse_inhibition,
                lateral_inhibition_threshold,
                enable_refractory_fatigue,
                diffusion_bias,
                expand_labels,
                max_edges_per_node,
                min_edge_weight,
                edge_direction,
                tired,
            }),
            *gate,
            views(seeds@),
            max_depth as nat,
            expansion,
        ),
{
    let settings = Spreading {
        restart_alpha,
        enable_inverse_inhibition,
        lateral_inhibition_threshold,
        enable_refractory_fatigue,
        diffusion_bias,
        expand_labels,
        max_edges_per_node,
        min_edge_weight,
        edge_direction,
        tired,
    };
    energies.expand(db, seeds, max_depth, &settings, gate)
}

/// Lets the energy of seeds spread along all edges from their sources, for `max_depth` rounds.
pub fn expand_graph<
    T: VectorType,
    P: Fn(u32, u32) -> u32,
    M: Fn(u32, u32) -> u32,
    D: Fn(u32, u32) -> u32,
    R: Fn(u32) -> u32,
    C: Fn(usize) -> u32,
    I: Fn(usize) -> u32,
    G: Fn(&Vec<u32>, &Vec<T>) -> u32,
>(
    db: &MemTable<T>,
    seeds: Vec<SearchHit>,
    max_depth: usize,
    restart_alpha: u32,
    enable_inverse_inhibition: bool,
    lateral_inhibition_threshold: usize,
    enable_refractory_fatigue: bool,
    diffusion_bias: Option<&Vec<u32>>,
    tired: &BTreeSet<NodeId>,
    energies: &Energies<P, M, D, R, C, I>,
    gate: &G,
) -> (expansion: Expansion)
    requires
        energies.sound(),
        is_gate(*gate),
        db.inv(),
    ensures
        energies.is_expansion(
            db@,
            (Spreading {
                restart_alpha,
                enable_inverse_inhibition,
                lateral_inhibition_threshold,
                enable_refractory_fatigue,
                diffusion_bias,
                expand_labels: None,
                max_edges_per_node: 0,
                min_edge_weight: 0,
                edge_direction: EdgeDirection::Outgoing,
                tired,
            }),
            *gate,
            views(seeds@),
            max_depth as nat,
            expansion,
        ),
{
    expand_graph_with_labels(
        db,
        seeds,
        max_depth,
        restart_alpha,
        enable_inverse_inhibition,
        lateral_inhibition_threshold,
        enable_refractory_fatigue,
        diffusion_bias,
        None,
        0,
        0,
        EdgeDirection::Outgoing,
        tired,
        energies,
        gate,
    )
}

/// The nodes that are tired after an expansion: those that rested are not, and those that got most
/// of the energy are.
pub open spec fn tired_next(tired: Set<NodeId>, expansion: Expansion) -> Set<NodeId> {
    tired.difference(expansion.rested@.to_set()).union(expansion.tired@.to_set())
}

/// Takes out the nodes that rested, and puts in those that are now tired.
pub fn update_tired(tired: &mut BTreeSet<NodeId>, expansion: &Expansion)
    ensures
        final(tired)@ == tired_next(old(tired)@, *expansion),
{
    let ghost before = tired@;
    let mut i: usize = 0;
    assert(expansion.rested@.take(0).to_set() =~= Set::empty());
    assert(before.difference(Set::empty()) =~= before);
    while i < expansion.rested.len()
        invariant
            i <= expansion.rested@.len(),
            tired@ == before.difference(expansion.rested@.take(i as int).to_set()),
        decreases expansion.rested@.len() - i,
    {
        let id: NodeId = expansion.rested[i];
        let _ = tired.remove(&id);
        proof {
            assert(expansion.rested@.take(i + 1) =~= expansion.rested@.take(i as int).push(id));
            lemma_to_set_push(expansion.rested@.take(i as int), id);
            assert(tired@ =~= before.difference(expansion.rested@.take(i + 1).to_set()));
        }
        i += 1;
    }
    assert(expansion.rested@.take(i as int) =~= expansion.rested@);
    let ghost rested = tired@;
    let mut k: usize = 0;
    assert(expansion.tired@.take(0).to_set() =~= Set::empty());
    assert(rested.union(Set::empty()) =~= rested);
    while k < expansion.tired.len()
        invariant
            k <= expansion.tired@.len(),
            tired@ == rested.union(expansion.tired@.take(k as int).to_set()),
        decreases expansion.tired@.len() - k,
    {
        let id: NodeId = expansion.tired[k];
        tired.insert(id);
        proof {
            assert(expansion.tired@.take(k + 1) =~= expansion.tired@.take(k as int).push(id));
            lemma_to_set_push(expansion.tired@.take(k as int), id);
            assert(tired@ =~= rested.union(expansion.tired@.take(k + 1).to_set()));
        }
        k += 1;
    }
    assert(expansion.tired@.take(k as int) =~= expansion.tired@);
}

/// The edges along which a node sends energy keep to the settings: they are edges of the node in
/// the direction that is followed, their labels and weights are followed, and there are no more
/// than allowed.
pub proof fn law_routes_keep_to_the_settings<T: VectorType>(
    table: Table<T>,
    settings: Spreading,
    id: NodeId,
)
    ensures
        settings.max_edges_per_node > 0 ==> routes(table, settings, id).len()
            <= settings.max_edges_per_node,
        forall|edge: EdgeView| #[trigger]
            routes(table, settings, id).contains(edge) ==> is_considered(settings, edge)
                && edges_at(table, settings.edge_direction, id).contains(edge),
        settings.max_edges_per_node == 0 ==> forall|edge: EdgeView| #[trigger]
            edges_at(table, settings.edge_direction, id).contains(edge) && is_considered(
                settings,
                edge,
            ) ==> routes(table, settings, id).contains(edge),
{
    lemma_allowed(settings, edges_at(table, settings.edge_direction, id));
}

/// What is allowed of some edges.
proof fn lemma_allowed(settings: Spreading, edges: Seq<EdgeView>)
    ensures
        settings.max_edges_per_node > 0 ==> allowed(settings, edges).len()
            <= settings.max_edges_per_node,
        forall|edge: EdgeView| #[trigger]
            allowed(settings, edges).contains(edge) ==> is_considered(settings, edge)
                && edges.contains(edge),
        settings.max_edges_per_node == 0 ==> forall|edge: EdgeView| #[trigger]
            edges.contains(edge) && is_considered(settings, edge) ==> allowed(
                settings,
                edges,
            ).contains(edge),
    decreases edges.len(),
{
    if edges.len() > 0 {
        let rest = edges.drop_last();
        let last = edges.last();
        lemma_allowed(settings, rest);
        let before = allowed(settings, rest);
        assert(edges =~= rest.push(last));
        assert forall|edge: EdgeView| #[trigger] edges.contains(edge) <==> rest.contains(edge)
            || edge == last by {
            lemma_contains_push(rest, last, edge);
        }
        assert forall|edge: EdgeView| #[trigger] before.push(last).contains(edge)
            <==> before.contains(edge) || edge == last by {
            lemma_contains_push(before, last, edge);
        }
        assert forall|edge: EdgeView| #[trigger] allowed(settings, edges).contains(edge) implies
            is_considered(settings, edge) && edges.contains(edge) by {
            assert(before.contains(edge) || before.push(last).contains(edge));
            assert(edges.contains(edge) <==> rest.contains(edge) || edge == last);
        }
    }
}

/// Every edge that arrives at a node leaves another for it, and is listed with the node it leaves.
pub proof fn law_arriving_edges_are_turned<T: VectorType>(
    table: Table<T>,
    id: NodeId,
    edge: EdgeView,
)
    requires
        table.well_formed(),
    ensures
        arriving(table, id).contains(edge) <==> table.nodes.contains_key(edge.target)
            && table.nodes[edge.target].edges.contains((EdgeView { target: id, ..edge })),
{
    assert(sources_of(table, id).subset_of(table.nodes.dom()));
    let listed = lemma_can_be_listed(sources_of(table, id));
    let sources = sources_in_order(table, id);
    lemma_turned_from(table, sources, id, edge);
    if table.nodes.contains_key(edge.target) {
        let there = EdgeView { target: id, ..edge };
        let edges = table.nodes[edge.target].edges;
        if edges.contains(there) {
            let k = choose|k: int| 0 <= k < edges.len() && edges[k] == there;
            assert(edges[k].target == id);
            assert(leads_to(edges, id));
            assert(sources.to_set().contains(edge.target));
        }
    }
    if sources.contains(edge.target) {
        assert(sources.to_set().contains(edge.target));
    }
}

/// What is turned of the edges of some nodes.
proof fn lemma_turned_from<T: VectorType>(
    table: Table<T>,
    sources: Seq<NodeId>,
    id: NodeId,
    edge: EdgeView,
)
    ensures
        turned_from(table, sources, id).contains(edge) <==> sources.contains(edge.target)
            && table.edges_of(edge.target).contains((EdgeView { target: id, ..edge })),
    decreases sources.len(),
{
    if sources.len() > 0 {
        let rest = sources.drop_last();
        let source = sources.last();
        lemma_turned_from(table, rest, id, edge);
        lemma_turned(source, table.edges_of(source), id, edge);
        assert(sources =~= rest.push(source));
        lemma_contains_push(rest, source, edge.target);
        let a = turned_from(table, rest, id);
        let b = turned(source, table.edges_of(source), id);
        assert((a + b).contains(edge) <==> a.contains(edge) || b.contains(edge)) by {
            if a.contains(edge) {
                let k = choose|k: int| 0 <= k < a.len() && a[k] == edge;
                assert((a + b)[k] == edge);
            }
            if b.contains(edge) {
                let k = choose|k: int| 0 <= k < b.len() && b[k] == edge;
                assert((a + b)[a.len() + k] == edge);
            }
        }
    }
}

/// What is turned of the edges of one node.
proof fn lemma_turned(source: NodeId, edges: Seq<EdgeView>, id: NodeId, edge: EdgeView)
    ensures
        turned(source, edges, id).contains(edge) <==> edge.target == source && edges.contains(
            (EdgeView { target: id, ..edge }),
        ),
    decreases edges.len(),
{
    if edges.len() > 0 {
        let rest = edges.drop_last();
        let last = edges.last();
        let there = EdgeView { target: id, ..edge };
        lemma_turned(source, rest, id, edge);
        assert(edges =~= rest.push(last));
        lemma_contains_push(rest, last, there);
        lemma_contains_push(
            turned(source, rest, id),
            EdgeView { target: source, ..last },
            edge,
        );
    }
}

} // verus!
