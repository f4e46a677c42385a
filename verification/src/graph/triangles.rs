//! Triangles and how closely the neighbours of a node are joined.
use std::collections::BTreeMap;
use vstd::prelude::*;

use crate::collections::{
    increasing, lemma_contains_push, lemma_increasing_distinct, map_keys,
};
use crate::error::{is_query_execution, query_execution, Result};
use crate::graph::workspace::{lists, GraphWorkspace};
use crate::node::NodeId;

verus! {

/// Three nodes in ascending order.
pub type Triple = (NodeId, NodeId, NodeId);

/// Whether three ascending nodes are joined from each to the next.
pub open spec fn is_wedge(graph: &GraphWorkspace, triple: Triple) -> bool {
    triple.0 < triple.1 < triple.2 && graph.joined(triple.0, triple.1) && graph.joined(
        triple.1,
        triple.2,
    )
}

/// The wedges of a graph.
pub open spec fn wedges(graph: &GraphWorkspace) -> Set<Triple> {
    Set::new(|triple: Triple| is_wedge(graph, triple))
}

/// Whether a node is one of the three.
pub open spec fn has_corner(triple: Triple, id: NodeId) -> bool {
    triple.0 == id || triple.1 == id || triple.2 == id
}

/// The triangles of a graph: the wedges whose ends are joined too.
pub open spec fn triangles(graph: &GraphWorkspace) -> Set<Triple> {
    wedges(graph).filter(|triple: Triple| graph.joined(triple.0, triple.2))
}

/// The triangles that a node belongs to.
pub open spec fn corners_at(found: Set<Triple>, id: NodeId) -> Set<Triple> {
    found.filter(|triple: Triple| has_corner(triple, id))
}

/// Whether an ascending list holds a node.
fn holds(list: &Vec<NodeId>, id: NodeId) -> (result: bool)
    ensures
        result == list@.contains(id),
{
    let mut i: usize = 0;
    while i < list.len()
        invariant
            i <= list@.len(),
            !list@.take(i as int).contains(id),
        decreases list@.len() - i,
    {
        if list[i] == id {
            assert(list@.contains(list@[i as int]));
            return true;
        }
        proof {
            assert(list@.take(i + 1) =~= list@.take(i as int).push(list@[i as int]));
            lemma_contains_push(list@.take(i as int), list@[i as int], id);
        }
        i += 1;
    }
    assert(list@.take(i as int) =~= list@);
    false
}

/// Whether the wedges seen are those that start at the first `i` nodes, or at the next one by way
/// of its first `j` neighbours, or of the next neighbour to its first `k` neighbours.
spec fn seen_upto(
    graph: &GraphWorkspace,
    seen: Set<Triple>,
    ids: Seq<NodeId>,
    i: int,
    middle: Seq<NodeId>,
    j: int,
    ends: Seq<NodeId>,
    k: int,
) -> bool {
    forall|triple: Triple| #[trigger]
        seen.contains(triple) <==> is_wedge(graph, triple) && (ids.take(i).contains(triple.0) || (i
            < ids.len() && triple.0 == ids[i] && (middle.take(j).contains(triple.1) || (j
            < middle.len() && triple.1 == middle[j] && ends.take(k).contains(triple.2)))))
}

/// Whether the counts are those of the triangles among the wedges seen.
spec fn counted(graph: &GraphWorkspace, seen: Set<Triple>, counts: Map<NodeId, u64>) -> bool {
    &&& seen.finite()
    &&& counts.dom() == graph.nodes()
    &&& forall|id: NodeId| #[trigger]
        counts.contains_key(id) ==> counts[id] == corners_at(
            seen.filter(|triple: Triple| graph.joined(triple.0, triple.2)),
            id,
        ).len()
}

/// One more wedge.
proof fn lemma_counted(
    graph: &GraphWorkspace,
    seen: Set<Triple>,
    counts: Map<NodeId, u64>,
    triple: Triple,
    counts_after: Map<NodeId, u64>,
)
    requires
        counted(graph, seen, counts),
        !seen.contains(triple),
        counts_after.dom() == counts.dom(),
        forall|id: NodeId| #[trigger]
            counts.contains_key(id) ==> counts_after[id] == counts[id] + if graph.joined(
                triple.0,
                triple.2,
            ) && has_corner(triple, id) {
                1int
            } else {
                0int
            },
    ensures
        counted(graph, seen.insert(triple), counts_after),
{
    let closed = |triple: Triple| graph.joined(triple.0, triple.2);
    let more = seen.insert(triple);
    assert forall|id: NodeId| #[trigger] counts_after.contains_key(id) implies counts_after[id]
        == corners_at(more.filter(closed), id).len() by {
        assert(counts.contains_key(id));
        let before = corners_at(seen.filter(closed), id);
        let after = corners_at(more.filter(closed), id);
        if closed(triple) && has_corner(triple, id) {
            assert(after =~= before.insert(triple));
            assert(!before.contains(triple));
        } else {
            assert(after =~= before);
        }
    }
}

/// A count is no greater than the number of wedges seen.
proof fn lemma_count_bound(
    graph: &GraphWorkspace,
    seen: Set<Triple>,
    counts: Map<NodeId, u64>,
    id: NodeId,
)
    requires
        counted(graph, seen, counts),
        counts.contains_key(id),
    ensures
        counts[id] <= seen.len(),
{
    let closed = |triple: Triple| graph.joined(triple.0, triple.2);
    vstd::set_lib::lemma_len_subset(corners_at(seen.filter(closed), id), seen);
}

/// The next place in a list of nodes.
proof fn lemma_take_next(list: Seq<NodeId>, n: int, id: NodeId)
    requires
        0 <= n < list.len(),
    ensures
        list.take(n + 1).contains(id) <==> list.take(n).contains(id) || id == list[n],
{
    assert(list.take(n + 1) =~= list.take(n).push(list[n]));
    lemma_contains_push(list.take(n), list[n], id);
}

/// Counts one more triangle at a node.
fn count_one(counts: &mut BTreeMap<NodeId, u64>, id: NodeId)
    requires
        old(counts)@.contains_key(id),
        old(counts)@[id] < u64::MAX,
    ensures
        final(counts)@ == old(counts)@.insert(id, (old(counts)@[id] + 1) as u64),
{
    let count: u64 = *counts.get(&id).unwrap();
    counts.insert(id, count + 1);
}

/// The number of triangles at each node, and how many of the possible ones these are, which
/// `coefficient` computes from the number of triangles and the number of neighbours. A node with
/// fewer than two neighbours gets zero.
pub fn triangle_metrics<F: Fn(u64, usize) -> u64>(
    graph: &GraphWorkspace,
    max_work: usize,
    coefficient: F,
) -> (result: Result<BTreeMap<NodeId, (u64, u64)>>)
    requires
        graph.well_formed(),
        max_work < usize::MAX || wedges(graph).len() <= usize::MAX,
        forall|count: u64, degree: usize| call_requires(coefficient, (count, degree)),
    ensures
        wedges(graph).finite(),
        wedges(graph).len() > max_work ==> (result matches Err(error) && is_query_execution(
            error,
            "三角计数超过交集工作预算 (Triangle count exceeds intersection work budget)"@,
        )),
        wedges(graph).len() <= max_work ==> (result matches Ok(metrics) && metrics@.dom()
            == graph.nodes() && forall|id: NodeId| #[trigger]
            metrics@.contains_key(id) ==> {
                let degree = graph.undirected@[id]@.len();
                &&& metrics@[id].0 == corners_at(triangles(graph), id).len()
                &&& if degree >= 2 {
                    call_ensures(coefficient, (metrics@[id].0, degree as usize), metrics@[id].1)
                } else {
                    metrics@[id].1 == 0
                }
            }),
{
    let ids = map_keys(&graph.undirected);
    proof {
        lemma_increasing_distinct(ids@);
        lemma_wedges_finite(graph);
    }
    let mut counts: BTreeMap<NodeId, u64> = BTreeMap::new();
    let mut n: usize = 0;
    assert(counts@.dom() =~= ids@.take(0).to_set());
    while n < ids.len()
        invariant
            n <= ids@.len(),
            counts@.dom() == ids@.take(n as int).to_set(),
            forall|id: NodeId| #[trigger] counts@.contains_key(id) ==> counts@[id] == 0,
        decreases ids@.len() - n,
    {
        counts.insert(ids[n], 0);
        proof {
            assert(ids@.take(n + 1) =~= ids@.take(n as int).push(ids@[n as int]));
            crate::collections::lemma_to_set_push(ids@.take(n as int), ids@[n as int]);
            assert(counts@.dom() =~= ids@.take(n + 1).to_set());
        }
        n += 1;
    }
    let ghost mut seen: Set<Triple> = Set::empty();
    let mut work: usize = 0;
    proof {
        let nothing = Seq::<NodeId>::empty();
        assert(ids@.take(n as int) =~= ids@);
        assert(ids@.take(0) =~= nothing);
        assert(nothing.take(0) =~= nothing);
        assert(seen_upto(graph, seen, ids@, 0, nothing, 0, nothing, 0));
        assert forall|id: NodeId| #[trigger] counts@.contains_key(id) implies counts@[id]
            == corners_at(
            seen.filter(|triple: Triple| graph.joined(triple.0, triple.2)),
            id,
        ).len() by {
            assert(corners_at(
                seen.filter(|triple: Triple| graph.joined(triple.0, triple.2)),
                id,
            ) =~= Set::<Triple>::empty());
        }
    }
    let mut i: usize = 0;
    while i < ids.len()
        invariant
            graph.well_formed(),
            max_work < usize::MAX || wedges(graph).len() <= usize::MAX,
            wedges(graph).finite(),
            increasing(ids@),
            ids@.to_set() == graph.nodes(),
            i <= ids@.len(),
            work == seen.len(),
            work <= max_work,
            counted(graph, seen, counts@),
            seen_upto(
                graph,
                seen,
                ids@,
                i as int,
                Seq::empty(),
                0,
                Seq::empty(),
                0,
            ),
        decreases ids@.len() - i,
    {
        let a: NodeId = ids[i];
        proof {
            assert(ids@.contains(a));
            assert(ids@.to_set().contains(a));
        }
        let neighbors = graph.undirected.get(&a).unwrap();
        assert(lists(neighbors@, |other: NodeId| graph.joined(a, other)));
        proof {
            assert(neighbors@.take(0) =~= Seq::<NodeId>::empty());
            assert(Seq::<NodeId>::empty().take(0) =~= Seq::<NodeId>::empty());
            assert(seen_upto(graph, seen, ids@, i as int, neighbors@, 0, Seq::empty(), 0));
        }
        let mut j: usize = 0;
        while j < neighbors.len()
            invariant
                graph.well_formed(),
                max_work < usize::MAX || wedges(graph).len() <= usize::MAX,
                wedges(graph).finite(),
                increasing(ids@),
                i < ids@.len(),
                a == ids@[i as int],
                graph.nodes().contains(a),
                neighbors@ == graph.undirected@[a]@,
                lists(neighbors@, |other: NodeId| graph.joined(a, other)),
                j <= neighbors@.len(),
                work == seen.len(),
                work <= max_work,
                counted(graph, seen, counts@),
                seen_upto(
                    graph,
                    seen,
                    ids@,
                    i as int,
                    neighbors@,
                    j as int,
                    Seq::empty(),
                    0,
                ),
            decreases neighbors@.len() - j,
        {
            let b: NodeId = neighbors[j];
            assert(neighbors@.contains(b));
            assert(graph.joined(a, b));
            let ends = graph.undirected.get(&b).unwrap();
            assert(lists(ends@, |other: NodeId| graph.joined(b, other)));
            proof {
                assert(ends@.take(0) =~= Seq::<NodeId>::empty());
                assert(Seq::<NodeId>::empty().take(0) =~= Seq::<NodeId>::empty());
                assert(seen_upto(
                    graph,
                    seen,
                    ids@,
                    i as int,
                    neighbors@,
                    j as int,
                    ends@,
                    0,
                ));
            }
            let mut k: usize = 0;
            while k < ends.len()
                invariant
                    graph.well_formed(),
                    max_work < usize::MAX || wedges(graph).len() <= usize::MAX,
                    wedges(graph).finite(),
                    increasing(ids@),
                    i < ids@.len(),
                    a == ids@[i as int],
                    graph.nodes().contains(a),
                    graph.nodes().contains(b),
                    graph.joined(a, b),
                    increasing(neighbors@),
                    j < neighbors@.len(),
                    b == neighbors@[j as int],
                    forall|other: NodeId| #[trigger]
                        neighbors@.contains(other) <==> graph.joined(a, other),
                    lists(ends@, |other: NodeId| graph.joined(b, other)),
                    k <= ends@.len(),
                    work == seen.len(),
                    work <= max_work,
                    counted(graph, seen, counts@),
                    seen_upto(
                        graph,
                        seen,
                        ids@,
                        i as int,
                        neighbors@,
                        j as int,
                        ends@,
                        k as int,
                    ),
                decreases ends@.len() - k,
            {
                let c: NodeId = ends[k];
                let ghost triple: Triple = (a, b, c);
                let ghost seen_before = seen;
                let ghost counts_before = counts@;
                assert(ends@.contains(c));
                assert(graph.joined(b, c));
                if a < b && b < c {
                    proof {
                        lemma_new_triple(ids@, i as int, a);
                        lemma_new_triple(neighbors@, j as int, b);
                        lemma_new_triple(ends@, k as int, c);
                        assert(!seen.contains(triple));
                        assert(is_wedge(graph, triple));
                        assert(seen.insert(triple).subset_of(wedges(graph)));
                        vstd::set_lib::lemma_len_subset(seen.insert(triple), wedges(graph));
                        seen = seen.insert(triple);
                    }
                    work = work.saturating_add(1);
                    if work > max_work {
                        return Err(
                            query_execution(
                                "三角计数超过交集工作预算 (Triangle count exceeds intersection work budget)",
                            ),
                        );
                    }
                    if holds(neighbors, c) {
                        proof {
                            lemma_count_bound(graph, seen_before, counts_before, a);
                            lemma_count_bound(graph, seen_before, counts_before, b);
                            lemma_count_bound(graph, seen_before, counts_before, c);
                        }
                        count_one(&mut counts, a);
                        count_one(&mut counts, b);
                        count_one(&mut counts, c);
                        proof {
                            assert(counts@.dom() =~= counts_before.dom());
                        }
                    }
                    proof {
                        lemma_counted(graph, seen_before, counts_before, triple, counts@);
                    }
                }
                proof {
                    assert forall|other: Triple| #[trigger] seen.contains(other) <==> is_wedge(
                        graph,
                        other,
                    ) && (ids@.take(i as int).contains(other.0) || (i < ids@.len() && other.0
                        == ids@[i as int] && (neighbors@.take(j as int).contains(other.1) || (j
                        < neighbors@.len() && other.1 == neighbors@[j as int] && ends@.take(
                        k + 1,
                    ).contains(other.2))))) by {
                        lemma_take_next(ends@, k as int, other.2);
                        assert(seen_before.contains(other) <==> is_wedge(graph, other) && (
                        ids@.take(i as int).contains(other.0) || (i < ids@.len() && other.0
                            == ids@[i as int] && (neighbors@.take(j as int).contains(other.1) || (j
                            < neighbors@.len() && other.1 == neighbors@[j as int] && ends@.take(
                            k as int,
                        ).contains(other.2))))));
                    }
                }
                k += 1;
            }
            proof {
                assert(ends@.take(k as int) =~= ends@);
                assert(Seq::<NodeId>::empty().take(0) =~= Seq::<NodeId>::empty());
                assert forall|other: Triple| #[trigger] seen.contains(other) <==> is_wedge(
                    graph,
                    other,
                ) && (ids@.take(i as int).contains(other.0) || (i < ids@.len() && other.0
                    == ids@[i as int] && neighbors@.take(j + 1).contains(other.1))) by {
                    lemma_take_next(neighbors@, j as int, other.1);
                    if is_wedge(graph, other) && other.1 == b {
                        assert(ends@.contains(other.2));
                    }
                }
                assert(seen_upto(
                    graph,
                    seen,
                    ids@,
                    i as int,
                    neighbors@,
                    j + 1,
                    Seq::empty(),
                    0,
                ));
            }
            j += 1;
        }
        proof {
            assert(neighbors@.take(j as int) =~= neighbors@);
            assert(Seq::<NodeId>::empty().take(0) =~= Seq::<NodeId>::empty());
            assert forall|other: Triple| #[trigger] seen.contains(other) <==> is_wedge(graph, other)
                && ids@.take(i + 1).contains(other.0) by {
                lemma_take_next(ids@, i as int, other.0);
                if is_wedge(graph, other) && other.0 == a {
                    assert(neighbors@.contains(other.1));
                }
            }
            assert(seen_upto(graph, seen, ids@, i + 1, Seq::empty(), 0, Seq::empty(), 0));
        }
        i += 1;
    }
    proof {
        assert(ids@.take(i as int) =~= ids@);
        assert(seen =~= wedges(graph)) by {
            assert forall|other: Triple| #[trigger] seen.contains(other) <==> wedges(
                graph,
            ).contains(other) by {
                if is_wedge(graph, other) {
                    assert(ids@.to_set().contains(other.0));
                    assert(ids@.contains(other.0));
                }
            }
        }
    }
    let mut metrics: BTreeMap<NodeId, (u64, u64)> = BTreeMap::new();
    let mut m: usize = 0;
    assert(metrics@.dom() =~= ids@.take(0).to_set());
    while m < ids.len()
        invariant
            graph.well_formed(),
            forall|count: u64, degree: usize| call_requires(coefficient, (count, degree)),
            ids@.to_set() == graph.nodes(),
            m <= ids@.len(),
            counted(graph, wedges(graph), counts@),
            metrics@.dom() == ids@.take(m as int).to_set(),
            forall|id: NodeId| #[trigger]
                metrics@.contains_key(id) ==> {
                    let degree = graph.undirected@[id]@.len();
                    &&& metrics@[id].0 == corners_at(triangles(graph), id).len()
                    &&& if degree >= 2 {
                        call_ensures(coefficient, (metrics@[id].0, degree as usize), metrics@[id].1)
                    } else {
                        metrics@[id].1 == 0
                    }
                },
        decreases ids@.len() - m,
    {
        let id: NodeId = ids[m];
        let ghost before = metrics@;
        proof {
            assert(ids@.contains(id));
            assert(ids@.to_set().contains(id));
            assert(counts@.contains_key(id));
        }
        let count: u64 = *counts.get(&id).unwrap();
        let degree: usize = graph.undirected.get(&id).unwrap().len();
        let value: u64 = if degree >= 2 {
            coefficient(count, degree)
        } else {
            0
        };
        metrics.insert(id, (count, value));
        proof {
            assert(ids@.take(m + 1) =~= ids@.take(m as int).push(id));
            crate::collections::lemma_to_set_push(ids@.take(m as int), id);
            assert(metrics@.dom() =~= ids@.take(m + 1).to_set());
            assert forall|other: NodeId| #[trigger] metrics@.contains_key(other) implies {
                let degree = graph.undirected@[other]@.len();
                &&& metrics@[other].0 == corners_at(triangles(graph), other).len()
                &&& if degree >= 2 {
                    call_ensures(
                        coefficient,
                        (metrics@[other].0, degree as usize),
                        metrics@[other].1,
                    )
                } else {
                    metrics@[other].1 == 0
                }
            } by {
                if other != id {
                    assert(before.contains_key(other));
                }
            }
        }
        m += 1;
    }
    proof {
        assert(ids@.take(m as int) =~= ids@);
    }
    Ok(metrics)
}

/// What comes later in an ascending list did not come before.
proof fn lemma_new_triple(list: Seq<NodeId>, n: int, id: NodeId)
    requires
        increasing(list),
        0 <= n < list.len(),
        list[n] == id,
    ensures
        !list.take(n).contains(id),
{
    if list.take(n).contains(id) {
        let m = choose|m: int| 0 <= m < n && list.take(n)[m] == id;
        assert(list[m] < list[n]);
    }
}

/// Two finite sets have finitely many pairs.
proof fn lemma_pairs_finite<A, B>(firsts: Set<A>, seconds: Set<B>)
    requires
        firsts.finite(),
        seconds.finite(),
    ensures
        Set::new(|pair: (A, B)| firsts.contains(pair.0) && seconds.contains(pair.1)).finite(),
    decreases firsts.len(),
{
    let all = Set::new(|pair: (A, B)| firsts.contains(pair.0) && seconds.contains(pair.1));
    if firsts.len() == 0 {
        assert(all =~= Set::<(A, B)>::empty());
    } else {
        let first = firsts.choose();
        let rest = firsts.remove(first);
        let others = Set::new(|pair: (A, B)| rest.contains(pair.0) && seconds.contains(pair.1));
        lemma_pairs_finite(rest, seconds);
        let own = seconds.map(|second: B| (first, second));
        seconds.lemma_map_finite(|second: B| (first, second));
        assert(all =~= others.union(own)) by {
            assert forall|pair: (A, B)| #[trigger] all.contains(pair) implies others.union(
                own,
            ).contains(pair) by {
                if pair.0 == first {
                    assert(own.contains((first, pair.1)));
                }
            }
        }
    }
}

/// A graph has finitely many wedges.
proof fn lemma_wedges_finite(graph: &GraphWorkspace)
    requires
        graph.well_formed(),
    ensures
        wedges(graph).finite(),
{
    let nodes = graph.nodes();
    lemma_pairs_finite(nodes, nodes);
    let pairs = Set::new(|pair: (NodeId, NodeId)| nodes.contains(pair.0) && nodes.contains(pair.1));
    lemma_pairs_finite(pairs, nodes);
    let nested = Set::new(
        |pair: ((NodeId, NodeId), NodeId)| pairs.contains(pair.0) && nodes.contains(pair.1),
    );
    let flat = |pair: ((NodeId, NodeId), NodeId)| (pair.0.0, pair.0.1, pair.1);
    nested.lemma_map_finite(flat);
    assert(wedges(graph).subset_of(nested.map(flat))) by {
        assert forall|triple: Triple| #[trigger] wedges(graph).contains(triple) implies nested.map(
            flat,
        ).contains(triple) by {
            assert(nested.contains(((triple.0, triple.1), triple.2)));
            assert(flat(((triple.0, triple.1), triple.2)) == triple);
        }
    }
    vstd::set_lib::lemma_set_subset_finite(nested.map(flat), wedges(graph));
}

} // verus!
