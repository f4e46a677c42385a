//! How energy is divided: among the seeds, and among the edges of a node.
use vstd::prelude::*;

use crate::database::fusion::{leaves_out, ranks_at, score_of, scored_set, F32_ONE};
use crate::graph::traversal::{
    allowed, edges_at, gated, is_considered, is_passed_on, is_seed, positive_energies, routes,
    sources_of, spec_absolute, tired_next, tiring, Energies, Expansion, Spreading, FATIGUE,
    F32_MINUS_ONE,
};
use crate::node::{EdgeView, NodeId};
use crate::number::{
    f32_finite, f32_positive, spec_f32_at_least, spec_f32_clamp, spec_f32_less, F32_INFINITY,
    F32_SIGN,
};
use crate::ranking::{scored_order, HitView, Scored};
use crate::sorting::is_best;
use crate::storage::memtable::Table;
use crate::sums::{
    lemma_sum_bounds, lemma_sum_concat, lemma_sum_constant, lemma_sum_equal, lemma_sum_of_first,
    lemma_sum_take, lemma_sum_times, sum_of,
};
use crate::vector::VectorType;

verus! {

/// Whether no two seeds are one node.
pub open spec fn are_distinct(seeds: Seq<HitView>) -> bool {
    forall|i: int, j: int|
        0 <= i < j < seeds.len() ==> (#[trigger] seeds[i]).id != (#[trigger] seeds[j]).id
}

/// The score of a seed, where it is positive; otherwise zero. The bit patterns are read as `value`
/// says.
pub open spec fn positive_value(value: spec_fn(u32) -> real) -> spec_fn(HitView) -> real {
    |seed: HitView|
        if spec_f32_less(0, seed.score) {
            value(seed.score)
        } else {
            0real
        }
}

/// Whether a reading of the bit patterns agrees with their order: a number is positive exactly
/// where it is read so, and zero is read as zero.
pub open spec fn reads_signs(value: spec_fn(u32) -> real) -> bool {
    &&& value(0) == 0real
    &&& forall|bits: u32| #[trigger] spec_f32_less(0, bits) ==> value(bits) > 0real
}

impl<
    P: Fn(u32, u32) -> u32,
    M: Fn(u32, u32) -> u32,
    D: Fn(u32, u32) -> u32,
    R: Fn(u32) -> u32,
    C: Fn(usize) -> u32,
    I: Fn(usize) -> u32,
> Energies<P, M, D, R, C, I> {
    /// Whether sums up to a limit are not rounded, when the bit patterns are read as `value` says.
    pub open spec fn adds_exactly(&self, value: spec_fn(u32) -> real, limit: real) -> bool {
        forall|a: u32, b: u32|
            value(a) >= 0real && value(b) >= 0real && value(a) + value(b) <= limit ==> value(
                #[trigger] self.sum(a, b),
            ) == value(a) + value(b)
    }

    /// Whether a greater dividend never has a smaller quotient, over a positive divisor.
    pub open spec fn divides_in_order(&self) -> bool {
        forall|a: u32, b: u32, divisor: u32|
            #![trigger self.quotient(a, divisor), self.quotient(b, divisor)]
            !spec_f32_less(b, a) && f32_positive(divisor) ==> !spec_f32_less(
                self.quotient(b, divisor),
                self.quotient(a, divisor),
            )
    }

    /// The share of each of the first seeds, where no two are one node.
    proof fn lemma_share_of(&self, seeds: Seq<HitView>, count: int, i: int)
        requires
            are_distinct(seeds),
            0 <= i < count <= seeds.len(),
        ensures
            self.shares(seeds, count).contains_key(seeds[i].id),
            self.shares(seeds, count)[seeds[i].id] == self.share(seeds, seeds[i]),
        decreases count,
    {
        if i < count - 1 {
            self.lemma_share_of(seeds, count - 1, i);
            assert(seeds[i].id != seeds[count - 1].id);
        }
    }

    /// The mass is what the positive scores add up to.
    proof fn lemma_mass_exact(
        &self,
        value: spec_fn(u32) -> real,
        limit: real,
        seeds: Seq<HitView>,
        count: int,
    )
        requires
            reads_signs(value),
            self.adds_exactly(value, limit),
            sum_of(seeds, positive_value(value)) <= limit,
            0 <= count <= seeds.len(),
        ensures
            value(self.mass(seeds.take(count))) == sum_of(
                seeds.take(count),
                positive_value(value),
            ),
        decreases count,
    {
        let score = positive_value(value);
        assert forall|i: int| 0 <= i < seeds.len() implies score(#[trigger] seeds[i]) >= 0real by {}
        lemma_sum_of_first(seeds, score, count);
        if count > 0 {
            self.lemma_mass_exact(value, limit, seeds, count - 1);
            lemma_sum_take(seeds, score, count);
            lemma_sum_of_first(seeds, score, count - 1);
            assert(seeds.take(count).drop_last() =~= seeds.take(count - 1));
            assert(seeds.take(count).last() == seeds[count - 1]);
            assert(score(seeds[count - 1]) >= 0real);
        }
    }

    /// A seed with a greater score never gets a smaller share, where the scores have a positive mass
    /// and quotients keep the order of their dividends.
    pub proof fn law_greater_scores_have_greater_shares(
        &self,
        seeds: Seq<HitView>,
        i: int,
        j: int,
    )
        requires
            are_distinct(seeds),
            0 <= i < seeds.len(),
            0 <= j < seeds.len(),
            f32_positive(self.mass(seeds)),
            self.divides_in_order(),
            spec_f32_less(seeds[i].score, seeds[j].score),
        ensures
            ({
                let shares = self.shares(seeds, seeds.len() as int);
                &&& shares.contains_key(seeds[i].id) && shares.contains_key(seeds[j].id)
                &&& !spec_f32_less(shares[seeds[j].id], shares[seeds[i].id])
            }),
    {
        self.lemma_share_of(seeds, seeds.len() as int, i);
        self.lemma_share_of(seeds, seeds.len() as int, j);
    }

    /// The share of a seed is its part of what the positive scores of all seeds add up to, and the
    /// shares of all seeds add up to one, where nothing is rounded.
    pub proof fn law_shares_add_up_to_one(
        &self,
        value: spec_fn(u32) -> real,
        limit: real,
        seeds: Seq<HitView>,
        mass: u32,
    )
        requires
            are_distinct(seeds),
            reads_signs(value),
            self.adds_exactly(value, limit),
            sum_of(seeds, positive_value(value)) <= limit,
            mass == self.mass(seeds),
            f32_positive(mass),
            forall|i: int|
                0 <= i < seeds.len() ==> {
                    let score = (#[trigger] seeds[i]).score;
                    &&& spec_f32_less(0, score) ==> value(self.quotient(score, mass)) * value(mass)
                        == value(score)
                    &&& !spec_f32_less(0, score) ==> value(self.quotient(0, mass)) == 0real
                },
        ensures
            ({
                let shares = self.shares(seeds, seeds.len() as int);
                let whole = sum_of(seeds, positive_value(value));
                &&& whole > 0real
                &&& forall|i: int|
                    0 <= i < seeds.len() ==> shares.contains_key((#[trigger] seeds[i]).id) && value(
                        shares[seeds[i].id],
                    ) * whole == positive_value(value)(seeds[i])
                &&& sum_of(seeds, |seed: HitView| value(shares[seed.id])) == 1real
            }),
    {
        let shares = self.shares(seeds, seeds.len() as int);
        let score = positive_value(value);
        let whole = sum_of(seeds, score);
        let each = |seed: HitView| value(shares[seed.id]);
        self.lemma_mass_exact(value, limit, seeds, seeds.len() as int);
        assert(seeds.take(seeds.len() as int) =~= seeds);
        assert(value(mass) == whole);
        assert(spec_f32_less(0, mass));
        assert forall|i: int| 0 <= i < seeds.len() implies shares.contains_key(
            (#[trigger] seeds[i]).id,
        ) && each(seeds[i]) * whole == score(seeds[i]) by {
            self.lemma_share_of(seeds, seeds.len() as int, i);
            if !spec_f32_less(0, seeds[i].score) {
                assert(0real * whole == 0real) by (nonlinear_arith);
            }
        }
        assert forall|i: int| 0 <= i < seeds.len() implies (|seed: HitView| whole * each(seed))(
            #[trigger] seeds[i],
        ) == score(seeds[i]) by {
            let part = each(seeds[i]);
            assert(part * whole == whole * part) by (nonlinear_arith);
        }
        lemma_sum_equal(seeds, |seed: HitView| whole * each(seed), score);
        lemma_sum_times(seeds, whole, each);
        let all = sum_of(seeds, each);
        assert(all == 1real) by (nonlinear_arith)
            requires
                whole * all == whole,
                whole > 0real,
        ;
    }

    /// Where the scores have no positive mass, all seeds get the same share, and the shares add up to
    /// one where the quotient is not rounded.
    pub proof fn law_shares_are_even_without_mass(
        &self,
        value: spec_fn(u32) -> real,
        seeds: Seq<HitView>,
    )
        requires
            are_distinct(seeds),
            0 < seeds.len() <= usize::MAX,
            !f32_positive(self.mass(seeds)),
            value(self.quotient(F32_ONE, self.number(seeds.len() as usize))) * (seeds.len() as real)
                == 1real,
        ensures
            ({
                let shares = self.shares(seeds, seeds.len() as int);
                &&& forall|i: int, j: int|
                    0 <= i < seeds.len() && 0 <= j < seeds.len() ==> shares[(
                    #[trigger] seeds[i]).id] == shares[(#[trigger] seeds[j]).id]
                &&& sum_of(seeds, |seed: HitView| value(shares[seed.id])) == 1real
            }),
    {
        let shares = self.shares(seeds, seeds.len() as int);
        let even = self.quotient(F32_ONE, self.number(seeds.len() as usize));
        assert forall|i: int| 0 <= i < seeds.len() implies shares[(#[trigger] seeds[i]).id]
            == even by {
            self.lemma_share_of(seeds, seeds.len() as int, i);
        }
        lemma_sum_equal(
            seeds,
            |seed: HitView| value(shares[seed.id]),
            |seed: HitView| value(even),
        );
        lemma_sum_constant(seeds, value(even));
        let n = seeds.len() as real;
        assert(n * value(even) == value(even) * n) by (nonlinear_arith);
    }
}

/// A number without its sign.
pub open spec fn size_of_real(number: real) -> real {
    if number < 0real {
        -number
    } else {
        number
    }
}

/// How much energy a list sends, whatever its sign.
pub open spec fn sent_size(value: spec_fn(u32) -> real) -> spec_fn(Scored) -> real {
    |item: Scored| size_of_real(value(item.score))
}

/// How much weight an edge has, whatever its sign.
pub open spec fn weight_size(value: spec_fn(u32) -> real) -> spec_fn(EdgeView) -> real {
    |edge: EdgeView| value(spec_absolute(edge.weight))
}

/// Whether nothing lessens what goes along an edge.
pub open spec fn is_undamped(settings: Spreading) -> bool {
    &&& !settings.enable_inverse_inhibition
    &&& !settings.enable_refractory_fatigue
    &&& settings.diffusion_bias is None
}

/// Whether energy is negative that goes along an edge.
pub open spec fn is_inhibiting(edge: EdgeView) -> bool {
    edge.label == "inhibition"@ || edge.weight >= F32_SIGN
}

impl<
    P: Fn(u32, u32) -> u32,
    M: Fn(u32, u32) -> u32,
    D: Fn(u32, u32) -> u32,
    R: Fn(u32) -> u32,
    C: Fn(usize) -> u32,
    I: Fn(usize) -> u32,
> Energies<P, M, D, R, C, I> {
    /// Whether a product is not rounded.
    pub open spec fn multiplies(&self, value: spec_fn(u32) -> real, a: u32, b: u32) -> bool {
        value(self.product(a, b)) == value(a) * value(b)
    }

    /// Whether a product with one is the other factor.
    pub open spec fn keeps_by_one(&self) -> bool {
        forall|bits: u32| f32_finite(bits) ==> #[trigger] self.product(bits, F32_ONE) == bits
    }

    /// Whether a quotient is not rounded.
    pub open spec fn divides(&self, value: spec_fn(u32) -> real, a: u32, b: u32) -> bool {
        value(self.quotient(a, b)) * value(b) == value(a)
    }

    /// Whether nothing is rounded when a node divides its energy: between the seeds and its edges,
    /// among the seeds by their shares, and among the edges by their weights, which add up to
    /// `divisor`.
    pub open spec fn sends_exactly(
        &self,
        value: spec_fn(u32) -> real,
        alpha: u32,
        shares: Seq<Scored>,
        edges: Seq<EdgeView>,
        divisor: u32,
        energy: u32,
    ) -> bool {
        let back = self.product(energy, alpha);
        let rest = self.product(energy, self.complement(alpha));
        &&& value(F32_ONE) == 1real
        &&& value(F32_MINUS_ONE) == -1real
        &&& 0real <= value(alpha) <= 1real
        &&& value(self.complement(alpha)) == 1real - value(alpha)
        &&& self.multiplies(value, energy, alpha)
        &&& self.multiplies(value, energy, self.complement(alpha))
        &&& forall|i: int|
            0 <= i < shares.len() ==> self.multiplies(value, back, (#[trigger] shares[i]).score)
                && self.multiplies(value, rest, shares[i].score)
        &&& forall|k: int|
            0 <= k < edges.len() ==> {
                let weight = spec_absolute((#[trigger] edges[k]).weight);
                let part = self.quotient(weight, divisor);
                &&& self.divides(value, weight, divisor)
                &&& self.multiplies(value, rest, part)
                &&& self.multiplies(value, self.product(rest, part), F32_ONE)
                &&& self.multiplies(value, self.product(rest, part), F32_MINUS_ONE)
            }
    }

    /// What each of the effects leaves of the weight of an edge, when it is the only one: nothing
    /// lessens the weight; a tired target leaves the fixed part of it; incoming edges leave what
    /// their number leaves; a direction leaves what it lets through.
    pub proof fn law_effects_on_a_weight<T: VectorType, G: Fn(&Vec<u32>, &Vec<T>) -> u32>(
        &self,
        table: Table<T>,
        settings: Spreading,
        gate: G,
        edge: EdgeView,
    )
        requires
            self.keeps_by_one(),
            f32_finite(edge.weight),
        ensures
            is_undamped(settings) ==> self.passed(table, settings, gate, edge) == spec_absolute(
                edge.weight,
            ),
            !settings.enable_inverse_inhibition && settings.diffusion_bias is None
                && settings.enable_refractory_fatigue ==> self.passed(table, settings, gate, edge)
                == if settings.tired@.contains(edge.target) {
                self.product(self.product(spec_absolute(edge.weight), FATIGUE), F32_ONE)
            } else {
                spec_absolute(edge.weight)
            },
            !settings.enable_refractory_fatigue && settings.diffusion_bias is None
                && settings.enable_inverse_inhibition && sources_of(table, edge.target).len()
                <= usize::MAX ==> self.passed(table, settings, gate, edge) == self.product(
                self.product(
                    self.product(
                        spec_absolute(edge.weight),
                        self.inhibited(
                            if sources_of(table, edge.target).len() < 1 {
                                1
                            } else {
                                sources_of(table, edge.target).len() as usize
                            },
                        ),
                    ),
                    F32_ONE,
                ),
                F32_ONE,
            ),
            !settings.enable_inverse_inhibition && !settings.enable_refractory_fatigue ==> match (
            settings.diffusion_bias) {
                Some(bias) => self.passed(table, settings, gate, edge) == if bias@.len() > 0
                    && table.nodes.contains_key(edge.target) {
                    self.product(
                        spec_absolute(edge.weight),
                        gated(gate, bias@, table.nodes[edge.target].vector),
                    )
                } else {
                    spec_absolute(edge.weight)
                },
                None => true,
            },
    {
        assert(f32_finite(spec_absolute(edge.weight)));
    }

    /// Without effects an edge of weight is followed where it is considered, and passes its weight.
    proof fn lemma_undamped<T: VectorType, G: Fn(&Vec<u32>, &Vec<T>) -> u32>(
        &self,
        table: Table<T>,
        settings: Spreading,
        gate: G,
        edge: EdgeView,
    )
        requires
            self.keeps_by_one(),
            is_undamped(settings),
            is_considered(settings, edge),
        ensures
            self.passed(table, settings, gate, edge) == spec_absolute(edge.weight),
            self.is_followed(table, settings, gate, edge),
            spec_f32_less(0, spec_absolute(edge.weight)),
    {
        self.law_effects_on_a_weight(table, settings, gate, edge);
    }

    /// The divisor is what the weights add up to.
    proof fn lemma_weights_exact<T: VectorType, G: Fn(&Vec<u32>, &Vec<T>) -> u32>(
        &self,
        value: spec_fn(u32) -> real,
        limit: real,
        table: Table<T>,
        settings: Spreading,
        gate: G,
        edges: Seq<EdgeView>,
        count: int,
    )
        requires
            reads_signs(value),
            self.adds_exactly(value, limit),
            self.keeps_by_one(),
            is_undamped(settings),
            0 <= count <= edges.len(),
            forall|k: int| 0 <= k < edges.len() ==> is_considered(settings, #[trigger] edges[k]),
            sum_of(edges, weight_size(value)) <= limit,
        ensures
            value(self.weight_sum(table, settings, gate, edges.take(count))) == sum_of(
                edges.take(count),
                weight_size(value),
            ),
        decreases count,
    {
        let weight = weight_size(value);
        assert forall|k: int| 0 <= k < edges.len() implies weight(#[trigger] edges[k]) > 0real by {
            assert(is_considered(settings, edges[k]));
            self.lemma_undamped(table, settings, gate, edges[k]);
        }
        if count > 0 {
            self.lemma_weights_exact(value, limit, table, settings, gate, edges, count - 1);
            lemma_sum_take(edges, weight, count);
            lemma_sum_of_first(edges, weight, count);
            lemma_sum_of_first(edges, weight, count - 1);
            assert(edges.take(count).drop_last() =~= edges.take(count - 1));
            assert(edges.take(count).last() == edges[count - 1]);
            assert(is_considered(settings, edges[count - 1]));
            self.lemma_undamped(table, settings, gate, edges[count - 1]);
            assert(weight(edges[count - 1]) > 0real);
        } else {
            assert(edges.take(0) =~= Seq::<EdgeView>::empty());
        }
    }

    /// What goes along the first edges.
    proof fn lemma_along_exact<T: VectorType, G: Fn(&Vec<u32>, &Vec<T>) -> u32>(
        &self,
        value: spec_fn(u32) -> real,
        table: Table<T>,
        settings: Spreading,
        gate: G,
        shares: Seq<Scored>,
        edges: Seq<EdgeView>,
        divisor: u32,
        energy: u32,
        alpha: u32,
        count: int,
    )
        requires
            reads_signs(value),
            self.keeps_by_one(),
            is_undamped(settings),
            self.sends_exactly(value, alpha, shares, edges, divisor, energy),
            0 <= count <= edges.len(),
            forall|k: int| 0 <= k < edges.len() ==> is_considered(settings, #[trigger] edges[k]),
            value(divisor) > 0real,
            value(self.product(energy, self.complement(alpha))) >= 0real,
        ensures
            ({
                let rest = self.product(energy, self.complement(alpha));
                let items = self.along(table, settings, gate, edges.take(count), rest, divisor);
                &&& items.len() == count
                &&& sum_of(items, sent_size(value)) * value(divisor) == value(rest) * sum_of(
                    edges.take(count),
                    weight_size(value),
                )
                &&& forall|k: int|
                    0 <= k < count ==> (#[trigger] items[k]).id == edges[k].target && value(
                        items[k].score,
                    ) * value(divisor) == value(rest) * value(spec_absolute(edges[k].weight)) * if (
                    is_inhibiting(edges[k])) {
                        -1real
                    } else {
                        1real
                    }
            }),
        decreases count,
    {
        let weight = weight_size(value);
        let rest = self.product(energy, self.complement(alpha));
        let items = self.along(table, settings, gate, edges.take(count), rest, divisor);
        let d = value(divisor);
        let r = value(rest);
        if count > 0 {
            self.lemma_along_exact(
                value,
                table,
                settings,
                gate,
                shares,
                edges,
                divisor,
                energy,
                alpha,
                count - 1,
            );
            let before = self.along(table, settings, gate, edges.take(count - 1), rest, divisor);
            let edge = edges[count - 1];
            assert(edges.take(count).drop_last() =~= edges.take(count - 1));
            assert(edges.take(count).last() == edge);
            assert(is_considered(settings, edge));
            self.lemma_undamped(table, settings, gate, edge);
            lemma_sum_take(edges, weight, count);
            let w = value(spec_absolute(edge.weight));
            let part = self.quotient(spec_absolute(edge.weight), divisor);
            let q = value(part);
            assert(q * d == w);
            let item = items.last();
            assert(items =~= before.push(item));
            assert(items.drop_last() =~= before);
            let sign = if is_inhibiting(edge) {
                -1real
            } else {
                1real
            };
            assert(value(item.score) == r * q * sign);
            assert(r * q * sign * d == r * w * sign) by (nonlinear_arith)
                requires
                    q * d == w,
            ;
            assert(q >= 0real) by (nonlinear_arith)
                requires
                    q * d == w,
                    w > 0real,
                    d > 0real,
            ;
            assert(r * q >= 0real) by (nonlinear_arith)
                requires
                    r >= 0real,
                    q >= 0real,
            ;
            assert(r * q * 1real == r * q && r * q * (-1real) == -(r * q)) by (nonlinear_arith);
            assert(sent_size(value)(item) == r * q);
            let s = sum_of(before, sent_size(value));
            let all = sum_of(edges.take(count - 1), weight);
            assert((s + r * q) * d == r * (all + w)) by (nonlinear_arith)
                requires
                    s * d == r * all,
                    q * d == w,
            ;
            assert forall|k: int| 0 <= k < count implies (#[trigger] items[k]).id == edges[k].target
                && value(items[k].score) * d == r * value(spec_absolute(edges[k].weight)) * if (
            is_inhibiting(edges[k])) {
                -1real
            } else {
                1real
            } by {
                if k < count - 1 {
                    assert(items[k] == before[k]);
                }
            }
        } else {
            assert(edges.take(0) =~= Seq::<EdgeView>::empty());
            assert(0real * d == 0real && r * 0real == 0real) by (nonlinear_arith);
        }
    }

    /// An amount that is divided by the shares.
    proof fn lemma_portions_exact(
        &self,
        value: spec_fn(u32) -> real,
        amount: u32,
        shares: Seq<Scored>,
    )
        requires
            value(amount) >= 0real,
            forall|i: int|
                0 <= i < shares.len() ==> self.multiplies(
                    value,
                    amount,
                    (#[trigger] shares[i]).score,
                ) && value(shares[i].score) >= 0real,
        ensures
            sum_of(self.portions(amount, shares), sent_size(value)) == value(amount) * sum_of(
                shares,
                |share: Scored| value(share.score),
            ),
        decreases shares.len(),
    {
        let each = |share: Scored| value(share.score);
        let a = value(amount);
        if shares.len() > 0 {
            let before = shares.drop_last();
            assert forall|i: int| 0 <= i < before.len() implies #[trigger] before[i]
                == shares[i] by {}
            self.lemma_portions_exact(value, amount, before);
            let all = self.portions(amount, shares);
            assert(all.drop_last() =~= self.portions(amount, before));
            let last = shares[shares.len() - 1];
            assert(self.multiplies(value, amount, last.score));
            let b = value(last.score);
            assert(a * b >= 0real) by (nonlinear_arith)
                requires
                    a >= 0real,
                    b >= 0real,
            ;
            let s = sum_of(before, each);
            assert(a * s + a * b == a * (s + b)) by (nonlinear_arith);
        } else {
            assert(a * 0real == 0real) by (nonlinear_arith);
        }
    }

    /// What a node sends, taken without signs, is the energy that it has: a part returns to the
    /// seeds, divided by their shares; the rest goes along its edges, divided by their weights, or
    /// to the seeds too where it has no edge to follow. Nothing is gained or lost, however many
    /// edges there are, where nothing lessens it and nothing is rounded.
    pub proof fn law_a_node_sends_what_it_has<
        T: VectorType,
        G: Fn(&Vec<u32>, &Vec<T>) -> u32,
    >(
        &self,
        value: spec_fn(u32) -> real,
        limit: real,
        table: Table<T>,
        settings: Spreading,
        gate: G,
        shares: Seq<Scored>,
        node: Scored,
        edges: Seq<EdgeView>,
        divisor: u32,
    )
        requires
            reads_signs(value),
            forall|bits: u32| #[trigger] spec_f32_at_least(0, bits) ==> value(bits) <= 0real,
            self.adds_exactly(value, limit),
            self.keeps_by_one(),
            is_undamped(settings),
            spec_f32_less(0, node.score),
            edges == routes(table, settings, node.id),
            sum_of(edges, weight_size(value)) <= limit,
            divisor == self.weight_sum(table, settings, gate, edges),
            self.sends_exactly(
                value,
                spec_f32_clamp(settings.restart_alpha, 0, F32_ONE),
                shares,
                edges,
                divisor,
                node.score,
            ),
            forall|i: int| 0 <= i < shares.len() ==> value((#[trigger] shares[i]).score) >= 0real,
            sum_of(shares, |share: Scored| value(share.score)) == 1real,
        ensures
            sum_of(self.sent(table, settings, gate, shares, node), sent_size(value)) == value(
                node.score,
            ),
    {
        let alpha = spec_f32_clamp(settings.restart_alpha, 0, F32_ONE);
        let a = value(alpha);
        let e = value(node.score);
        let back = self.product(node.score, alpha);
        let rest = self.product(node.score, self.complement(alpha));
        let weight = weight_size(value);
        assert(!spec_f32_at_least(0, node.score));
        lemma_allowed_are_considered(
            settings,
            edges_at(table, settings.edge_direction, node.id),
        );
        self.lemma_weights_exact(value, limit, table, settings, gate, edges, edges.len() as int);
        assert(edges.take(edges.len() as int) =~= edges);
        assert(e * a >= 0real && e * (1real - a) >= 0real && e * a + e * (1real - a) == e)
            by (nonlinear_arith)
            requires
                e > 0real,
                0real <= a <= 1real,
        ;
        self.lemma_portions_exact(value, back, shares);
        self.lemma_portions_exact(value, rest, shares);
        assert(value(back) * 1real == value(back) && value(rest) * 1real == value(rest))
            by (nonlinear_arith);
        let returned = self.portions(back, shares);
        if spec_f32_at_least(0, rest) {
        } else if spec_f32_at_least(0, divisor) {
            lemma_sum_concat(returned, self.portions(rest, shares), sent_size(value));
        } else {
            assert forall|k: int| 0 <= k < edges.len() implies weight(#[trigger] edges[k])
                >= 0real by {
                assert(is_considered(settings, edges[k]));
                self.lemma_undamped(table, settings, gate, edges[k]);
            }
            lemma_sum_bounds(edges, weight);
            if value(divisor) <= 0real {
                if edges.len() > 0 {
                    assert(is_considered(settings, edges[0]));
                    self.lemma_undamped(table, settings, gate, edges[0]);
                    assert(weight(edges[0]) <= sum_of(edges, weight));
                }
                assert(edges.len() == 0);
                assert(divisor == 0);
                assert(spec_f32_at_least(0, 0));
            }
            self.lemma_along_exact(
                value,
                table,
                settings,
                gate,
                shares,
                edges,
                divisor,
                node.score,
                alpha,
                edges.len() as int,
            );
            let items = self.along(table, settings, gate, edges, rest, divisor);
            lemma_sum_concat(returned, items, sent_size(value));
            let d = value(divisor);
            let s = sum_of(items, sent_size(value));
            let r = value(rest);
            assert(s == r) by (nonlinear_arith)
                requires
                    s * d == r * d,
                    d > 0real,
            ;
        }
    }

    /// What goes along each edge, where nothing lessens it: to the edge's target, as much of what is
    /// sent as the edge's weight is of all weights, and negative exactly where the edge inhibits.
    pub proof fn law_edges_take_by_weight<T: VectorType, G: Fn(&Vec<u32>, &Vec<T>) -> u32>(
        &self,
        value: spec_fn(u32) -> real,
        limit: real,
        table: Table<T>,
        settings: Spreading,
        gate: G,
        shares: Seq<Scored>,
        energy: u32,
        edges: Seq<EdgeView>,
        divisor: u32,
        k: int,
    )
        requires
            reads_signs(value),
            self.adds_exactly(value, limit),
            self.keeps_by_one(),
            is_undamped(settings),
            forall|n: int| 0 <= n < edges.len() ==> is_considered(settings, #[trigger] edges[n]),
            sum_of(edges, weight_size(value)) <= limit,
            divisor == self.weight_sum(table, settings, gate, edges),
            self.sends_exactly(
                value,
                spec_f32_clamp(settings.restart_alpha, 0, F32_ONE),
                shares,
                edges,
                divisor,
                energy,
            ),
            value(energy) >= 0real,
            0 <= k < edges.len(),
        ensures
            ({
                let rest = self.budget(settings, energy);
                let items = self.along(table, settings, gate, edges, rest, divisor);
                let kept = 1real - value(spec_f32_clamp(settings.restart_alpha, 0, F32_ONE));
                &&& items.len() == edges.len()
                &&& items[k].id == edges[k].target
                &&& value(items[k].score) * sum_of(edges, weight_size(value)) == value(energy) * kept
                    * value(spec_absolute(edges[k].weight)) * if is_inhibiting(edges[k]) {
                    -1real
                } else {
                    1real
                }
            }),
    {
        let alpha = spec_f32_clamp(settings.restart_alpha, 0, F32_ONE);
        let a = value(alpha);
        let e = value(energy);
        let weight = weight_size(value);
        self.lemma_weights_exact(value, limit, table, settings, gate, edges, edges.len() as int);
        assert(edges.take(edges.len() as int) =~= edges);
        assert(e * (1real - a) >= 0real) by (nonlinear_arith)
            requires
                e >= 0real,
                0real <= a <= 1real,
        ;
        assert forall|n: int| 0 <= n < edges.len() implies weight(#[trigger] edges[n])
            > 0real by {
            assert(is_considered(settings, edges[n]));
            self.lemma_undamped(table, settings, gate, edges[n]);
        }
        lemma_sum_bounds(edges, weight);
        assert(weight(edges[k]) <= sum_of(edges, weight));
        self.lemma_along_exact(
            value,
            table,
            settings,
            gate,
            shares,
            edges,
            divisor,
            energy,
            alpha,
            edges.len() as int,
        );
        let items = self.along(
            table,
            settings,
            gate,
            edges,
            self.budget(settings, energy),
            divisor,
        );
        assert(items[k].id == edges[k].target);
    }

    /// The energies of the nodes after a list has been added: a node that the list does not name
    /// keeps what it had, and one that it names once has the sum.
    pub proof fn law_energies_are_added(
        &self,
        base: Map<NodeId, u32>,
        items: Seq<Scored>,
        id: NodeId,
        place: int,
    )
        ensures
            leaves_out(items, id) ==> score_of(self.gathered(base, items), id) == score_of(base, id),
            ranks_at(items, id, place) && base.contains_key(id) ==> score_of(
                self.gathered(base, items),
                id,
            ) == Some(self.sum(base[id], items[place].score)),
            ranks_at(items, id, place) && !base.contains_key(id) ==> score_of(
                self.gathered(base, items),
                id,
            ) == Some(self.sum(0, items[place].score)),
        decreases items.len(),
    {
        if items.len() > 0 {
            let before = items.drop_last();
            assert(items.last() == items[items.len() - 1]);
            assert forall|i: int| 0 <= i < before.len() implies #[trigger] before[i]
                == items[i] by {}
            self.law_energies_are_added(base, before, id, place);
        }
    }
}

/// The edges that a node may send energy along are all considered.
proof fn lemma_allowed_are_considered(settings: Spreading, edges: Seq<EdgeView>)
    ensures
        forall|k: int|
            0 <= k < allowed(settings, edges).len() ==> is_considered(
                settings,
                #[trigger] allowed(settings, edges)[k],
            ),
    decreases edges.len(),
{
    if edges.len() > 0 {
        lemma_allowed_are_considered(settings, edges.drop_last());
        let before = allowed(settings, edges.drop_last());
        let all = allowed(settings, edges);
        assert forall|k: int| 0 <= k < all.len() implies is_considered(
            settings,
            #[trigger] all[k],
        ) by {
            if k < before.len() {
                assert(all[k] == before[k]);
            }
        }
    }
}

/// The energies that are passed on after a round are positive numbers that the nodes got; where not
/// all may go on, there are as many as may, and none that stays behind is greater than one that
/// goes on.
pub proof fn law_the_greatest_energies_go_on(
    energies: Map<NodeId, u32>,
    threshold: usize,
    tier: Map<NodeId, u32>,
    id: NodeId,
    other: NodeId,
)
    requires
        is_passed_on(energies, threshold, tier),
    ensures
        tier.contains_key(id) ==> energies.contains_key(id) && tier[id] == energies[id] && 0
            < energies[id] < F32_INFINITY,
        energies.contains_key(id) && 0 < energies[id] < F32_INFINITY && !tier.contains_key(id) ==> {
            &&& threshold > 0
            &&& tier.contains_key(other) ==> tier[other] > energies[id] || (tier[other]
                == energies[id] && other < id)
        },
        threshold == 0 ==> (tier.contains_key(id) <==> energies.contains_key(id) && 0
            < energies[id] < F32_INFINITY),
{
    let positive = positive_energies(energies);
    if threshold == 0 || positive.dom().len() <= threshold {
    } else {
        let best = choose|best: Seq<Scored>| #[trigger]
            is_best(scored_set(positive), scored_order(), threshold as nat, best) && scored_set(tier)
                == best.to_set();
        if tier.contains_key(id) {
            let item = Scored { id, score: tier[id] };
            assert(scored_set(tier).contains(item));
            assert(best.contains(item));
            let n = best.index_of(item);
            assert(scored_set(positive).contains(best[n]));
        }
        if energies.contains_key(id) && 0 < energies[id] < F32_INFINITY && !tier.contains_key(id)
            && tier.contains_key(other) {
            let item = Scored { id, score: energies[id] };
            assert(scored_set(positive).contains(item));
            assert(!best.contains(item)) by {
                if best.contains(item) {
                    assert(best.to_set().contains(item));
                    assert(scored_set(tier).contains(item));
                }
            }
            let ahead = Scored { id: other, score: tier[other] };
            assert(scored_set(tier).contains(ahead));
            assert(best.to_set().contains(ahead));
            assert(best.contains(ahead));
            let n = best.index_of(ahead);
            assert(scored_set(positive).contains(best[n]));
            assert((scored_order())(best[n], item));
        }
    }
}

impl<
    P: Fn(u32, u32) -> u32,
    M: Fn(u32, u32) -> u32,
    D: Fn(u32, u32) -> u32,
    R: Fn(u32) -> u32,
    C: Fn(usize) -> u32,
    I: Fn(usize) -> u32,
> Energies<P, M, D, R, C, I> {
    /// A seed starts with its score as energy; only where tiredness counts and the seed is tired,
    /// with the fixed part of it.
    pub proof fn law_seeds_start_with_their_scores(
        &self,
        settings: Spreading,
        seeds: Seq<HitView>,
        i: int,
    )
        requires
            self.keeps_by_one(),
            0 <= i < seeds.len(),
            f32_finite(seeds[i].score),
        ensures
            self.charged(settings, seeds).len() == seeds.len(),
            self.charged(settings, seeds)[i].id == seeds[i].id,
            !settings.enable_refractory_fatigue || !settings.tired@.contains(seeds[i].id)
                ==> self.charged(settings, seeds)[i].score == seeds[i].score,
            settings.enable_refractory_fatigue && settings.tired@.contains(seeds[i].id)
                ==> self.charged(settings, seeds)[i].score == self.product(
                seeds[i].score,
                FATIGUE,
            ),
    {
    }
}

/// The hits that tire are those that were not met tired, each in its place.
pub proof fn law_hits_tire_that_were_not_tired(
    hits: Seq<HitView>,
    met: Set<NodeId>,
    id: NodeId,
)
    ensures
        tiring(hits, met).contains(id) <==> !met.contains(id) && is_seed(hits, id),
    decreases hits.len(),
{
    if hits.len() > 0 {
        let few = hits.drop_last();
        let last = hits[hits.len() - 1];
        assert(hits.last() == last);
        law_hits_tire_that_were_not_tired(few, met, id);
        crate::collections::lemma_contains_push(tiring(few, met), last.id, id);
        if is_seed(few, id) {
            let i = choose|i: int| 0 <= i < few.len() && (#[trigger] few[i]).id == id;
            assert(hits[i].id == id);
        }
        if is_seed(hits, id) {
            let i = choose|i: int| 0 <= i < hits.len() && (#[trigger] hits[i]).id == id;
            if i < few.len() {
                assert(few[i].id == id);
            }
        }
        if last.id == id {
            assert(hits[hits.len() - 1].id == id);
        }
    }
}

/// A node is tired after an expansion exactly where it tired in it, or was tired before and did not
/// rest.
pub proof fn law_tired_nodes_rest_once(tired: Set<NodeId>, expansion: Expansion, id: NodeId)
    ensures
        tired_next(tired, expansion).contains(id) <==> expansion.tired@.contains(id) || (
        tired.contains(id) && !expansion.rested@.contains(id)),
{
    assert(expansion.tired@.to_set().contains(id) <==> expansion.tired@.contains(id));
    assert(expansion.rested@.to_set().contains(id) <==> expansion.rested@.contains(id));
}

/// What an item adds to the energy of a node: its energy, where it is for that node.
pub open spec fn sent_to(value: spec_fn(u32) -> real, id: NodeId) -> spec_fn(Scored) -> real {
    |item: Scored|
        if item.id == id {
            value(item.score)
        } else {
            0real
        }
}

/// What an item adds to the energy of a node, without its sign.
pub open spec fn size_sent_to(value: spec_fn(u32) -> real, id: NodeId) -> spec_fn(Scored) -> real {
    |item: Scored| size_of_real(sent_to(value, id)(item))
}

/// The energy of a node, zero where it has none.
pub open spec fn energy_of(
    value: spec_fn(u32) -> real,
    energies: Map<NodeId, u32>,
    id: NodeId,
) -> real {
    if energies.contains_key(id) {
        value(energies[id])
    } else {
        0real
    }
}

impl<
    P: Fn(u32, u32) -> u32,
    M: Fn(u32, u32) -> u32,
    D: Fn(u32, u32) -> u32,
    R: Fn(u32) -> u32,
    C: Fn(usize) -> u32,
    I: Fn(usize) -> u32,
> Energies<P, M, D, R, C, I> {
    /// A node has what it had and all that was sent to it, together, however often it was sent
    /// something and whichever sign that has, where no sum within the limit is rounded.
    pub proof fn law_energies_add_up(
        &self,
        value: spec_fn(u32) -> real,
        limit: real,
        base: Map<NodeId, u32>,
        items: Seq<Scored>,
        id: NodeId,
        count: int,
    )
        requires
            value(0) == 0real,
            forall|a: u32, b: u32|
                -limit <= value(a) + value(b) <= limit ==> value(#[trigger] self.sum(a, b))
                    == value(a) + value(b),
            size_of_real(energy_of(value, base, id)) + sum_of(items, size_sent_to(value, id))
                <= limit,
            0 <= count <= items.len(),
        ensures
            energy_of(value, self.gathered(base, items.take(count)), id) == energy_of(
                value,
                base,
                id,
            ) + sum_of(items.take(count), sent_to(value, id)),
            size_of_real(sum_of(items.take(count), sent_to(value, id))) <= sum_of(
                items.take(count),
                size_sent_to(value, id),
            ),
        decreases count,
    {
        let each = sent_to(value, id);
        let size = size_sent_to(value, id);
        let part = items.take(count);
        assert forall|i: int| 0 <= i < items.len() implies size(#[trigger] items[i]) >= 0real by {}
        lemma_sum_of_first(items, size, count);
        if count > 0 {
            self.law_energies_add_up(value, limit, base, items, id, count - 1);
            lemma_sum_take(items, each, count);
            lemma_sum_take(items, size, count);
            assert(part.drop_last() =~= items.take(count - 1));
            assert(part.last() == items[count - 1]);
        } else {
            assert(part =~= Seq::<Scored>::empty());
        }
    }
}

} // verus!
