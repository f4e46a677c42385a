//! Which of several walks comes first, where edges are compared in the order in which they are
//! stored, and why a breadth-first search finds the first one.
use vstd::prelude::*;

use crate::graph::walk::{
    connects, label_fits, law_walk_bounds_distance, outgoing, step_at, within,
};
use crate::node::NodeId;
use crate::storage::memtable::Table;
use crate::vector::VectorType;

verus! {

/// Whether edge number `k` of a node leads to another under the label.
pub open spec fn leads_at<T: VectorType>(
    table: Table<T>,
    label: Option<Seq<char>>,
    from: NodeId,
    to: NodeId,
    k: int,
) -> bool {
    &&& 0 <= k < table.edges_of(from).len()
    &&& table.edges_of(from)[k].target == to
    &&& label_fits(label, table.edges_of(from)[k])
}

/// Whether edge number `k` of a node is the first one that leads to another under the label.
pub open spec fn is_first_edge<T: VectorType>(
    table: Table<T>,
    label: Option<Seq<char>>,
    from: NodeId,
    to: NodeId,
    k: int,
) -> bool {
    leads_at(table, label, from, to, k) && forall|j: int|
        j < k ==> !#[trigger] leads_at(table, label, from, to, j)
}

/// Whether two walks part after `n` steps, the first one along edge `i`, the second along the
/// later edge `j`.
pub open spec fn parts_at<T: VectorType>(
    table: Table<T>,
    label: Option<Seq<char>>,
    one: Seq<NodeId>,
    other: Seq<NodeId>,
    n: int,
    i: int,
    j: int,
) -> bool {
    &&& 0 <= n < one.len() - 1
    &&& n < other.len() - 1
    &&& forall|m: int| 0 <= m <= n ==> one[m] == #[trigger] other[m]
    &&& is_first_edge(table, label, one[n], one[n + 1], i)
    &&& is_first_edge(table, label, other[n], other[n + 1], j)
    &&& i < j
}

/// Whether one walk comes before another: it takes an earlier edge where they part.
pub open spec fn comes_before<T: VectorType>(
    table: Table<T>,
    label: Option<Seq<char>>,
    one: Seq<NodeId>,
    other: Seq<NodeId>,
) -> bool {
    exists|n: int, i: int, j: int| #[trigger] parts_at(table, label, one, other, n, i, j)
}

/// Whether no other walk of the same length between the same nodes comes before this one.
pub open spec fn is_first_walk<T: VectorType>(
    table: Table<T>,
    label: Option<Seq<char>>,
    walk: Seq<NodeId>,
) -> bool {
    forall|other: Seq<NodeId>|
        #[trigger] connects(outgoing(table, label), other, walk[0], walk.last()) && other.len()
            == walk.len() ==> other == walk || comes_before(table, label, walk, other)
}

/// One more step on either walk leaves their order as it is.
proof fn lemma_before_push<T: VectorType>(
    table: Table<T>,
    label: Option<Seq<char>>,
    one: Seq<NodeId>,
    other: Seq<NodeId>,
    a: NodeId,
    b: NodeId,
)
    requires
        comes_before(table, label, one, other),
    ensures
        comes_before(table, label, one.push(a), other.push(b)),
{
    let (n, i, j) = choose|n: int, i: int, j: int| #[trigger]
        parts_at(table, label, one, other, n, i, j);
    assert forall|m: int| 0 <= m <= n implies one.push(a)[m] == #[trigger] other.push(b)[m] by {
        assert(one[m] == other[m]);
    }
    assert(parts_at(table, label, one.push(a), other.push(b), n, i, j));
}

/// The order of walks is transitive.
proof fn lemma_before_transitive<T: VectorType>(
    table: Table<T>,
    label: Option<Seq<char>>,
    a: Seq<NodeId>,
    b: Seq<NodeId>,
    c: Seq<NodeId>,
)
    requires
        comes_before(table, label, a, b),
        comes_before(table, label, b, c),
    ensures
        comes_before(table, label, a, c),
{
    let (n, i, j) = choose|n: int, i: int, j: int| #[trigger]
        parts_at(table, label, a, b, n, i, j);
    let (m, k, l) = choose|m: int, k: int, l: int| #[trigger]
        parts_at(table, label, b, c, m, k, l);
    assert(a[n] == b[n]);
    assert(b[m] == c[m]);
    if n < m {
        assert(b[n] == c[n]);
        assert(b[n + 1] == c[n + 1]);
        assert forall|x: int| 0 <= x <= n implies a[x] == #[trigger] c[x] by {
            assert(a[x] == b[x]);
            assert(b[x] == c[x]);
        }
        assert(parts_at(table, label, a, c, n, i, j));
    } else if m < n {
        assert(a[m] == b[m]);
        assert(a[m + 1] == b[m + 1]);
        assert forall|x: int| 0 <= x <= m implies a[x] == #[trigger] c[x] by {
            assert(a[x] == b[x]);
            assert(b[x] == c[x]);
        }
        assert(parts_at(table, label, a, c, m, k, l));
    } else {
        assert(j == k) by {
            if j < k {
                assert(leads_at(table, label, b[n], b[n + 1], j));
            }
            if k < j {
                assert(leads_at(table, label, b[n], b[n + 1], k));
            }
        }
        assert forall|x: int| 0 <= x <= n implies a[x] == #[trigger] c[x] by {
            assert(a[x] == b[x]);
            assert(b[x] == c[x]);
        }
        assert(parts_at(table, label, a, c, n, i, l));
    }
}

/// Whether walk number `b` is walk number `a` with one more step, from a node that has been
/// expanded, or along one of the first `taken` edges of the node that is being expanded.
pub open spec fn grows_from<T: VectorType>(
    table: Table<T>,
    label: Option<Seq<char>>,
    order: Seq<Seq<NodeId>>,
    head: int,
    taken: int,
    a: int,
    b: int,
) -> bool {
    &&& 0 <= a <= head
    &&& a < b
    &&& order[b] == order[a].push(order[b].last())
    &&& a == head ==> exists|k: int|
        k < taken && #[trigger] is_first_edge(table, label, order[a].last(), order[b].last(), k)
}

/// Whether a walk is an earlier one with one more step.
pub open spec fn has_grown<T: VectorType>(
    table: Table<T>,
    label: Option<Seq<char>>,
    order: Seq<Seq<NodeId>>,
    head: int,
    taken: int,
    b: int,
) -> bool {
    exists|a: int| #[trigger] grows_from(table, label, order, head, taken, a, b)
}

/// What holds of the walks to the nodes that a search has found, in the order in which they were
/// found: each is the first of its length to its end, and walks of one length are in order.
pub open spec fn in_precedence<T: VectorType>(
    table: Table<T>,
    label: Option<Seq<char>>,
    src: NodeId,
    order: Seq<Seq<NodeId>>,
    head: int,
    taken: int,
) -> bool {
    &&& order.len() > 0
    &&& order[0] == seq![src]
    &&& forall|k: int|
        0 <= k < order.len() ==> (#[trigger] order[k]).len() > 0 && order[k][0] == src
            && is_first_walk(table, label, order[k])
    &&& forall|a: int, b: int|
        0 <= a < b < order.len() && (#[trigger] order[a]).len() == (#[trigger] order[b]).len()
            ==> comes_before(table, label, order[a], order[b])
    &&& forall|b: int|
        1 <= b < order.len() ==> #[trigger] has_grown(table, label, order, head, taken, b)
}

/// A search that has found its source only.
pub proof fn lemma_precedence_starts<T: VectorType>(
    table: Table<T>,
    label: Option<Seq<char>>,
    src: NodeId,
)
    ensures
        in_precedence(table, label, src, seq![seq![src]], 0, 0),
{
    let walk = seq![src];
    assert forall|other: Seq<NodeId>|
        #[trigger] connects(outgoing(table, label), other, walk[0], walk.last()) && other.len()
            == walk.len() implies other == walk || comes_before(table, label, walk, other) by {
        assert(other =~= walk);
    }
}

/// More edges of the current node have been looked at, or the next node is expanded.
pub proof fn lemma_precedence_moves<T: VectorType>(
    table: Table<T>,
    label: Option<Seq<char>>,
    src: NodeId,
    order: Seq<Seq<NodeId>>,
    head: int,
    taken: int,
    next_head: int,
    next_taken: int,
)
    requires
        in_precedence(table, label, src, order, head, taken),
        next_head > head || (next_head == head && next_taken >= taken),
    ensures
        in_precedence(table, label, src, order, next_head, next_taken),
{
    assert forall|b: int| 1 <= b < order.len() implies #[trigger] has_grown(
        table,
        label,
        order,
        next_head,
        next_taken,
        b,
    ) by {
        assert(has_grown(table, label, order, head, taken, b));
        let a = choose|a: int| #[trigger] grows_from(table, label, order, head, taken, a, b);
        assert(grows_from(table, label, order, next_head, next_taken, a, b));
    }
}

/// The walk to a node that is found from the node being expanded is the first one of its length,
/// if no node before it leads there.
pub proof fn lemma_found_first<T: VectorType>(
    table: Table<T>,
    label: Option<Seq<char>>,
    src: NodeId,
    order: Seq<Seq<NodeId>>,
    head: int,
    taken: int,
    next: NodeId,
)
    requires
        in_precedence(table, label, src, order, head, taken),
        0 <= head < order.len(),
        forall|from: NodeId| #[trigger]
            outgoing(table, label)(from, next) && within(
                outgoing(table, label),
                src,
                from,
                (order[head].len() - 1) as nat,
            ) ==> exists|a: int|
                head <= a < order.len() && (#[trigger] order[a]).last() == from && order[a].len()
                    == order[head].len(),
    ensures
        is_first_walk(table, label, order[head].push(next)),
{
    let adjacency = outgoing(table, label);
    let path = order[head];
    let walk = path.push(next);
    assert forall|other: Seq<NodeId>|
        #[trigger] connects(adjacency, other, walk[0], walk.last()) && other.len()
            == walk.len() implies other == walk || comes_before(table, label, walk, other) by {
        let rest = other.drop_last();
        let from = rest.last();
        assert(other =~= rest.push(next));
        assert(step_at(adjacency, other, rest.len() - 1));
        assert(connects(adjacency, rest, src, from)) by {
            assert forall|i: int| 0 <= i < rest.len() - 1 implies #[trigger] step_at(
                adjacency,
                rest,
                i,
            ) by {
                assert(step_at(adjacency, other, i));
            }
        }
        law_walk_bounds_distance(adjacency, rest);
        assert(adjacency(from, next));
        let a = choose|a: int|
            head <= a < order.len() && (#[trigger] order[a]).last() == from && order[a].len()
                == order[head].len();
        assert(is_first_walk(table, label, order[a]));
        assert(rest == order[a] || comes_before(table, label, order[a], rest)) by {
            assert(connects(adjacency, rest, order[a][0], order[a].last()));
        }
        if a > head {
            assert(comes_before(table, label, path, order[a]));
            if rest != order[a] {
                lemma_before_transitive(table, label, path, order[a], rest);
            }
            lemma_before_push(table, label, path, rest, next, next);
        } else if rest != path {
            lemma_before_push(table, label, path, rest, next, next);
        }
    }
}

/// A node that is found from the node being expanded is put last.
pub proof fn lemma_precedence_grows<T: VectorType>(
    table: Table<T>,
    label: Option<Seq<char>>,
    src: NodeId,
    order: Seq<Seq<NodeId>>,
    head: int,
    taken: int,
    next: NodeId,
)
    requires
        in_precedence(table, label, src, order, head, taken),
        0 <= head < order.len(),
        is_first_walk(table, label, order[head].push(next)),
        is_first_edge(table, label, order[head].last(), next, taken),
    ensures
        in_precedence(
            table,
            label,
            src,
            order.push(order[head].push(next)),
            head,
            taken + 1,
        ),
{
    let path = order[head];
    let walk = path.push(next);
    let more = order.push(walk);
    assert forall|b: int| 1 <= b < more.len() implies #[trigger] has_grown(
        table,
        label,
        more,
        head,
        taken + 1,
        b,
    ) by {
        if b < order.len() {
            assert(has_grown(table, label, order, head, taken, b));
            let a = choose|a: int| #[trigger] grows_from(table, label, order, head, taken, a, b);
            assert(more[a] == order[a] && more[b] == order[b]);
            assert(grows_from(table, label, more, head, taken + 1, a, b));
        } else {
            assert(more[b] == walk && more[head] == path);
            assert(walk.last() == next);
            assert(grows_from(table, label, more, head, taken + 1, head, b));
        }
    }
    assert forall|a: int, b: int|
        0 <= a < b < more.len() && (#[trigger] more[a]).len() == (
        #[trigger] more[b]).len() implies comes_before(table, label, more[a], more[b]) by {
        assert(more[a] == order[a]);
        if b < order.len() {
            assert(more[b] == order[b]);
        } else if a > 0 {
            assert(has_grown(table, label, order, head, taken, a));
            let p = choose|p: int| #[trigger] grows_from(table, label, order, head, taken, p, a);
            assert(order[p].len() == path.len());
            if p < head {
                assert(comes_before(table, label, order[p], path));
                lemma_before_push(table, label, order[p], path, order[a].last(), next);
            } else {
                let k = choose|k: int|
                    k < taken && #[trigger] is_first_edge(
                        table,
                        label,
                        order[p].last(),
                        order[a].last(),
                        k,
                    );
                let n = path.len() - 1;
                assert(order[a][n] == path[n] && order[a][n + 1] == order[a].last());
                assert(parts_at(table, label, order[a], walk, n, k, taken));
            }
        } else {
            assert(order[0].len() == 1);
            assert(path.len() > 0);
        }
    }
}

} // verus!
