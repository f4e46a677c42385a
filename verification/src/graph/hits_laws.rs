//! How hubs and authorities depend on each other.
use vstd::prelude::*;

use crate::collections::increasing;
use crate::graph::hits::{affordable_rounds, HitsArithmetic};
use crate::graph::workspace::{lists, GraphWorkspace};
use crate::node::NodeId;
use crate::number::spec_f64_less;
use crate::sums::{
    lemma_sum_bounds, lemma_sum_equal, lemma_sum_of_first, lemma_sum_sublist, lemma_sum_take,
    lemma_sum_times, sum_of, where_wanted,
};

verus! {

/// The square of a number.
pub open spec fn square(number: real) -> real {
    number * number
}

impl<
    E: Fn(usize) -> u64,
    P: Fn(u64, u64) -> u64,
    M: Fn(u64, u64) -> u64,
    Q: Fn(u64) -> u64,
    D: Fn(u64, u64) -> u64,
    G: Fn(u64, u64) -> u64,
> HitsArithmetic<E, P, M, Q, D, G> {
    /// Whether sums up to a limit are not rounded, when the bit patterns are read as `value` says.
    pub open spec fn adds_exactly(&self, value: spec_fn(u64) -> real, limit: real) -> bool {
        &&& value(0) == 0real
        &&& forall|a: u64, b: u64|
            value(a) >= 0real && value(b) >= 0real && value(a) + value(b) <= limit ==> value(
                #[trigger] self.sum(a, b),
            ) == value(a) + value(b)
    }

    /// Whether nothing is rounded when the nodes gather the values of those listed with them and
    /// divide by the norm, and no sum exceeds the limit.
    pub open spec fn gathers_exactly(
        &self,
        value: spec_fn(u64) -> real,
        limit: real,
        ids: Seq<NodeId>,
        found: Map<NodeId, Vec<NodeId>>,
        values: Map<NodeId, u64>,
        norm: u64,
    ) -> bool {
        let raw = self.sums(found, values);
        &&& forall|i: int| 0 <= i < ids.len() ==> value(values[#[trigger] ids[i]]) >= 0real
        &&& sum_of(ids, |id: NodeId| value(values[id])) <= limit
        &&& sum_of(ids, |id: NodeId| square(value(raw[id]))) <= limit
        &&& forall|i: int|
            0 <= i < ids.len() ==> {
                let gathered = raw[#[trigger] ids[i]];
                &&& value(self.product(gathered, gathered)) == square(value(gathered))
                &&& value(self.quotient(gathered, norm)) * value(norm) == value(gathered)
            }
        &&& square(value(norm)) == value(self.squares(ids, raw, ids.len() as int))
        &&& value(norm) > 0real
        &&& spec_f64_less(0, norm)
    }

    /// What a node gathers from the first nodes listed with it.
    proof fn lemma_gathered_exact(
        &self,
        value: spec_fn(u64) -> real,
        limit: real,
        values: Map<NodeId, u64>,
        list: Seq<NodeId>,
        count: int,
    )
        requires
            self.adds_exactly(value, limit),
            0 <= count <= list.len(),
            forall|i: int| 0 <= i < list.len() ==> value(values[#[trigger] list[i]]) >= 0real,
            sum_of(list, |id: NodeId| value(values[id])) <= limit,
        ensures
            value(self.gathered(values, list, count)) == sum_of(
                list.take(count),
                |id: NodeId| value(values[id]),
            ),
        decreases count,
    {
        let each = |id: NodeId| value(values[id]);
        assert forall|i: int| 0 <= i < list.len() implies each(#[trigger] list[i]) >= 0real by {
            assert(value(values[list[i]]) >= 0real);
        }
        if count > 0 {
            self.lemma_gathered_exact(value, limit, values, list, count - 1);
            lemma_sum_take(list, each, count);
            lemma_sum_of_first(list, each, count);
            lemma_sum_of_first(list, each, count - 1);
            assert(each(list[count - 1]) >= 0real);
        }
    }

    /// The sum of the squares of the first values.
    proof fn lemma_squares_exact(
        &self,
        value: spec_fn(u64) -> real,
        limit: real,
        ids: Seq<NodeId>,
        values: Map<NodeId, u64>,
        count: int,
    )
        requires
            self.adds_exactly(value, limit),
            0 <= count <= ids.len(),
            forall|i: int|
                0 <= i < ids.len() ==> value(
                    self.product(values[#[trigger] ids[i]], values[ids[i]]),
                ) == square(value(values[ids[i]])),
            sum_of(ids, |id: NodeId| square(value(values[id]))) <= limit,
        ensures
            value(self.squares(ids, values, count)) == sum_of(
                ids.take(count),
                |id: NodeId| square(value(values[id])),
            ),
        decreases count,
    {
        let each = |id: NodeId| square(value(values[id]));
        assert forall|i: int| 0 <= i < ids.len() implies each(#[trigger] ids[i]) >= 0real by {
            let x = value(values[ids[i]]);
            assert(x * x >= 0real) by (nonlinear_arith);
        }
        if count > 0 {
            self.lemma_squares_exact(value, limit, ids, values, count - 1);
            lemma_sum_take(ids, each, count);
            lemma_sum_of_first(ids, each, count);
            lemma_sum_of_first(ids, each, count - 1);
            assert(each(ids[count - 1]) >= 0real);
        }
    }

    /// What the nodes have after gathering and dividing by the norm.
    proof fn lemma_normalized_exact(
        &self,
        value: spec_fn(u64) -> real,
        limit: real,
        ids: Seq<NodeId>,
        found: Map<NodeId, Vec<NodeId>>,
        values: Map<NodeId, u64>,
        norm: u64,
        listed: spec_fn(NodeId, NodeId) -> bool,
    )
        requires
            increasing(ids),
            ids.to_set() == found.dom(),
            self.adds_exactly(value, limit),
            self.gathers_exactly(value, limit, ids, found, values, norm),
            norm == self.square_root(
                self.squares(ids, self.sums(found, values), ids.len() as int),
            ),
            forall|id: NodeId| #[trigger]
                found.contains_key(id) ==> increasing(found[id]@) && forall|other: NodeId|
                    #[trigger] found[id]@.contains(other) <==> listed(id, other)
                        && found.contains_key(other),
        ensures
            ({
                let next = self.normalized(ids, self.sums(found, values));
                &&& forall|i: int|
                    0 <= i < ids.len() ==> next.contains_key(#[trigger] ids[i]) && value(
                        next[ids[i]],
                    ) * value(norm) == sum_of(
                        ids,
                        where_wanted(
                            |other: NodeId| listed(ids[i], other),
                            |other: NodeId| value(values[other]),
                        ),
                    )
                &&& sum_of(ids, |id: NodeId| square(value(next[id]))) == 1real
            }),
    {
        let raw = self.sums(found, values);
        let next = self.normalized(ids, raw);
        let each = |id: NodeId| value(values[id]);
        let n = value(norm);
        assert forall|id: NodeId| #[trigger] ids.contains(id) <==> found.contains_key(id) by {
            assert(ids.to_set().contains(id) <==> ids.contains(id));
        }
        assert forall|i: int| 0 <= i < ids.len() implies each(#[trigger] ids[i]) >= 0real by {
            assert(value(values[ids[i]]) >= 0real);
        }
        assert forall|i: int| 0 <= i < ids.len() implies next.contains_key(#[trigger] ids[i])
            && value(next[ids[i]]) * n == value(raw[ids[i]]) && value(raw[ids[i]]) == sum_of(
            ids,
            where_wanted(|other: NodeId| listed(ids[i], other), each),
        ) by {
            let id = ids[i];
            assert(ids.contains(id));
            let list = found[id]@;
            assert forall|other: NodeId| #[trigger] list.contains(other) implies ids.contains(
                other,
            ) by {}
            let wanted = where_wanted(|other: NodeId| listed(id, other), each);
            lemma_sum_sublist(list, ids, each);
            assert forall|k: int| 0 <= k < ids.len() implies where_wanted(
                |other: NodeId| list.contains(other),
                each,
            )(#[trigger] ids[k]) == wanted(ids[k]) by {
                assert(ids.contains(ids[k]));
                assert(list.contains(ids[k]) <==> listed(id, ids[k]) && found.contains_key(ids[k]));
            }
            lemma_sum_equal(ids, where_wanted(|other: NodeId| list.contains(other), each), wanted);
            let others = where_wanted(|other: NodeId| !listed(id, other), each);
            assert forall|k: int| 0 <= k < ids.len() implies others(#[trigger] ids[k])
                >= 0real by {
                assert(each(ids[k]) >= 0real);
            }
            lemma_sum_bounds(ids, others);
            crate::sums::lemma_sum_plus(ids, wanted, others);
            lemma_sum_equal(ids, |other: NodeId| wanted(other) + others(other), each);
            assert forall|k: int| 0 <= k < list.len() implies value(values[#[trigger] list[k]])
                >= 0real by {
                assert(list.contains(list[k]));
                let place = ids.index_of(list[k]);
                assert(each(ids[place]) >= 0real);
            }
            self.lemma_gathered_exact(value, limit, values, list, list.len() as int);
            assert(list.take(list.len() as int) =~= list);
        }
        self.lemma_squares_exact(value, limit, ids, raw, ids.len() as int);
        assert(ids.take(ids.len() as int) =~= ids);
        let parts = |id: NodeId| square(value(next[id]));
        let whole = |id: NodeId| square(value(raw[id]));
        let nn = n * n;
        assert forall|i: int| 0 <= i < ids.len() implies (|id: NodeId| nn * parts(id))(
            #[trigger] ids[i],
        ) == whole(ids[i]) by {
            let x = value(next[ids[i]]);
            let y = value(raw[ids[i]]);
            assert(x * n == y);
            assert(n * n * (x * x) == y * y) by (nonlinear_arith)
                requires
                    x * n == y,
            ;
        }
        lemma_sum_equal(ids, |id: NodeId| nn * parts(id), whole);
        lemma_sum_times(ids, nn, parts);
        let s = sum_of(ids, parts);
        assert(nn > 0real) by (nonlinear_arith)
            requires
                nn == n * n,
                n > 0real,
        ;
        assert(s == 1real) by (nonlinear_arith)
            requires
                nn * s == nn,
                nn > 0real,
        ;
    }

    /// The authority of a node after a round is in proportion to what the hubs that point to it had
    /// before the round, together; and the squares of all authorities add up to one, where nothing
    /// is rounded.
    pub proof fn law_authorities_gather_from_hubs(
        &self,
        value: spec_fn(u64) -> real,
        limit: real,
        graph: &GraphWorkspace,
        ids: Seq<NodeId>,
        rounds: nat,
        norm: u64,
    )
        requires
            graph.well_formed(),
            increasing(ids),
            ids.to_set() == graph.nodes(),
            rounds > 0,
            self.adds_exactly(value, limit),
            ({
                let hubs = self.hubs_after(graph, ids, (rounds - 1) as nat);
                &&& norm == self.square_root(
                    self.squares(ids, self.sums(graph.reverse@, hubs), ids.len() as int),
                )
                &&& self.gathers_exactly(value, limit, ids, graph.reverse@, hubs, norm)
            }),
        ensures
            ({
                let hubs = self.hubs_after(graph, ids, (rounds - 1) as nat);
                let authorities = self.authorities_after(graph, ids, rounds);
                &&& forall|i: int|
                    0 <= i < ids.len() ==> value(authorities[#[trigger] ids[i]]) * value(norm)
                        == sum_of(
                        ids,
                        where_wanted(
                            |from: NodeId| graph.has(from, ids[i]),
                            |from: NodeId| value(hubs[from]),
                        ),
                    )
                &&& sum_of(ids, |id: NodeId| square(value(authorities[id]))) == 1real
            }),
    {
        let hubs = self.hubs_after(graph, ids, (rounds - 1) as nat);
        let listed = |id: NodeId, from: NodeId| graph.has(from, id);
        assert forall|id: NodeId| #[trigger] graph.reverse@.contains_key(id) implies increasing(
            graph.reverse@[id]@,
        ) && forall|from: NodeId| #[trigger]
            graph.reverse@[id]@.contains(from) <==> listed(id, from) && graph.reverse@.contains_key(
                from,
            ) by {
            assert(graph.nodes().contains(id));
            assert(lists(graph.reverse@[id]@, |from: NodeId| graph.has(from, id)));
        }
        self.lemma_normalized_exact(value, limit, ids, graph.reverse@, hubs, norm, listed);
        let authorities = self.authorities_after(graph, ids, rounds);
        assert forall|i: int| 0 <= i < ids.len() implies value(authorities[#[trigger] ids[i]])
            * value(norm) == sum_of(
            ids,
            where_wanted(
                |from: NodeId| graph.has(from, ids[i]),
                |from: NodeId| value(hubs[from]),
            ),
        ) by {
            lemma_sum_equal(
                ids,
                where_wanted(
                    |from: NodeId| listed(ids[i], from),
                    |from: NodeId| value(hubs[from]),
                ),
                where_wanted(
                    |from: NodeId| graph.has(from, ids[i]),
                    |from: NodeId| value(hubs[from]),
                ),
            );
        }
    }

    /// The hub score of a node after a round is in proportion to what the authorities that it points
    /// to have after the round, together; and the squares of all hub scores add up to one, where
    /// nothing is rounded.
    pub proof fn law_hubs_gather_from_authorities(
        &self,
        value: spec_fn(u64) -> real,
        limit: real,
        graph: &GraphWorkspace,
        ids: Seq<NodeId>,
        rounds: nat,
        norm: u64,
    )
        requires
            graph.well_formed(),
            increasing(ids),
            ids.to_set() == graph.nodes(),
            rounds > 0,
            self.adds_exactly(value, limit),
            ({
                let authorities = self.authorities_after(graph, ids, rounds);
                &&& norm == self.square_root(
                    self.squares(ids, self.sums(graph.directed@, authorities), ids.len() as int),
                )
                &&& self.gathers_exactly(value, limit, ids, graph.directed@, authorities, norm)
            }),
        ensures
            ({
                let authorities = self.authorities_after(graph, ids, rounds);
                let hubs = self.hubs_after(graph, ids, rounds);
                &&& forall|i: int|
                    0 <= i < ids.len() ==> value(hubs[#[trigger] ids[i]]) * value(norm) == sum_of(
                        ids,
                        where_wanted(
                            |to: NodeId| graph.has(ids[i], to),
                            |to: NodeId| value(authorities[to]),
                        ),
                    )
                &&& sum_of(ids, |id: NodeId| square(value(hubs[id]))) == 1real
            }),
    {
        let authorities = self.authorities_after(graph, ids, rounds);
        let listed = |id: NodeId, to: NodeId| graph.has(id, to);
        assert forall|id: NodeId| #[trigger] graph.directed@.contains_key(id) implies increasing(
            graph.directed@[id]@,
        ) && forall|to: NodeId| #[trigger]
            graph.directed@[id]@.contains(to) <==> listed(id, to) && graph.directed@.contains_key(
                to,
            ) by {
            assert(graph.nodes().contains(id));
            assert forall|to: NodeId| #[trigger]
                graph.directed@[id]@.contains(to) implies graph.directed@.contains_key(to) by {
                assert(graph.has(id, to));
                assert(graph.nodes().contains(to));
            }
        }
        self.lemma_normalized_exact(value, limit, ids, graph.directed@, authorities, norm, listed);
        let hubs = self.hubs_after(graph, ids, rounds);
        assert forall|i: int| 0 <= i < ids.len() implies value(hubs[#[trigger] ids[i]]) * value(
            norm,
        ) == sum_of(
            ids,
            where_wanted(
                |to: NodeId| graph.has(ids[i], to),
                |to: NodeId| value(authorities[to]),
            ),
        ) by {
            lemma_sum_equal(
                ids,
                where_wanted(
                    |to: NodeId| listed(ids[i], to),
                    |to: NodeId| value(authorities[to]),
                ),
                where_wanted(
                    |to: NodeId| graph.has(ids[i], to),
                    |to: NodeId| value(authorities[to]),
                ),
            );
        }
    }
}

/// The rounds that the work allowed is enough for stay within it, and one more would not, unless as
/// many rounds as asked for are done.
pub proof fn law_rounds_keep_to_the_work(work: nat, max_work: usize, max_iterations: usize)
    ensures
        ({
            let rounds = affordable_rounds(work, max_work, max_iterations);
            &&& rounds <= max_iterations
            &&& rounds * work <= max_work
            &&& rounds < max_iterations ==> (rounds + 1) * work > max_work
        }),
{
    let rounds = affordable_rounds(work, max_work, max_iterations);
    if work == 0 {
        assert(rounds * work == 0) by (nonlinear_arith)
            requires
                work == 0,
        ;
    } else {
        let most: int = max_work as int / work as int;
        vstd::arithmetic::div_mod::lemma_fundamental_div_mod(max_work as int, work as int);
        let rest: int = max_work as int % work as int;
        assert(max_work == work * most + rest);
        assert(rounds <= most);
        assert(rounds * work <= work * most) by (nonlinear_arith)
            requires
                rounds <= most,
                work > 0,
        ;
        if rounds < max_iterations {
            assert((rounds + 1) * work == work * most + work) by (nonlinear_arith)
                requires
                    rounds == most,
            ;
        }
    }
}

} // verus!
