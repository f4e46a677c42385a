//! Pairs of nodes with similar neighbourhoods.
use vstd::prelude::*;

use crate::collections::{increasing, lemma_increasing_distinct, lemma_to_set_push, map_keys};
use crate::error::{
    invalid_input, is_invalid_input, is_query_execution, query_execution, Result,
};
use crate::graph::workspace::{lists, GraphWorkspace};
use crate::node::NodeId;
use crate::number::{
    f64_is_finite, f64_finite, f64_less, f64_less_equal, f64_total_key, f64_total_less,
    spec_f64_equal, spec_f64_less, F64_ONE,
};
use crate::sorting::{is_best, keep_best, order_of, views, SortItem};

verus! {

/// Two nodes, the smaller one first, and how similar they are, a double precision bit pattern.
#[derive(Debug, Clone, Copy, PartialEq, Eq, Structural)]
pub struct NodeSimilarityPair {
    pub left: NodeId,
    pub right: NodeId,
    pub similarity: u64,
}

impl View for NodeSimilarityPair {
    type V = NodeSimilarityPair;

    open spec fn view(&self) -> NodeSimilarityPair {
        *self
    }
}

impl SortItem for NodeSimilarityPair {
    open spec fn goes_before(a: NodeSimilarityPair, b: NodeSimilarityPair) -> bool {
        f64_total_key(a.similarity) > f64_total_key(b.similarity) || (f64_total_key(a.similarity)
            == f64_total_key(b.similarity) && (a.left < b.left || (a.left == b.left && a.right
            < b.right)))
    }

    proof fn lemma_order(a: NodeSimilarityPair, b: NodeSimilarityPair, c: NodeSimilarityPair) {
    }

    fn is_before(&self, other: &NodeSimilarityPair) -> (result: bool) {
        f64_total_less(other.similarity, self.similarity) || (!f64_total_less(
            self.similarity,
            other.similarity,
        ) && (self.left < other.left || (self.left == other.left && self.right < other.right)))
    }
}

/// Pairs of nodes, the most similar first.
#[derive(Debug)]
pub struct PairSet {
    pairs: Vec<NodeSimilarityPair>,
}

impl View for PairSet {
    type V = Seq<NodeSimilarityPair>;

    closed spec fn view(&self) -> Seq<NodeSimilarityPair> {
        self.pairs@
    }
}

impl PairSet {
    /// The pairs.
    pub fn pairs(&self) -> (pairs: &[NodeSimilarityPair])
        ensures
            pairs@ == self@,
    {
        self.pairs.as_slice()
    }
}

/// The neighbours of a node.
pub open spec fn neighborhood(graph: &GraphWorkspace, id: NodeId) -> Set<NodeId> {
    graph.undirected@[id]@.to_set()
}

/// The number of common neighbours.
pub open spec fn common(graph: &GraphWorkspace, left: NodeId, right: NodeId) -> nat {
    neighborhood(graph, left).intersect(neighborhood(graph, right)).len()
}

/// The number of neighbours of either node.
pub open spec fn either(graph: &GraphWorkspace, left: NodeId, right: NodeId) -> nat {
    neighborhood(graph, left).union(neighborhood(graph, right)).len()
}

/// The number of steps that walk two ascending lists side by side until one of them ends: one for
/// each value up to the end of the list that ends first.
pub open spec fn merge_steps(a: Seq<NodeId>, b: Seq<NodeId>) -> nat {
    if a.len() == 0 || b.len() == 0 {
        0
    } else {
        a.to_set().union(b.to_set()).filter(|id: NodeId| id <= a.last() && id <= b.last()).len()
    }
}

/// The work that comparing two nodes takes.
pub open spec fn pair_work(graph: &GraphWorkspace, left: NodeId, right: NodeId) -> nat {
    1 + merge_steps(graph.undirected@[left]@, graph.undirected@[right]@)
}

/// The work of comparing one node with the following ones before the `j`-th.
pub open spec fn row_work(graph: &GraphWorkspace, ids: Seq<NodeId>, i: int, j: int) -> nat
    decreases j,
{
    if j <= i + 1 || j <= 0 {
        0
    } else {
        row_work(graph, ids, i, j - 1) + pair_work(graph, ids[i], ids[j - 1])
    }
}

/// The work of comparing each of the first `i` nodes with all that follow it.
pub open spec fn rows_work(graph: &GraphWorkspace, ids: Seq<NodeId>, i: int) -> nat
    decreases i,
{
    if i <= 0 {
        0
    } else {
        rows_work(graph, ids, i - 1) + row_work(graph, ids, i - 1, ids.len() as int)
    }
}

/// The work done before the nodes at two places are compared.
pub open spec fn spent(graph: &GraphWorkspace, ids: Seq<NodeId>, i: int, j: int) -> nat {
    rows_work(graph, ids, i) + row_work(graph, ids, i, j)
}

/// Whether the work allowed is used up just before some comparison.
pub open spec fn ends_between_pairs(graph: &GraphWorkspace, ids: Seq<NodeId>, limit: nat) -> bool {
    exists|i: int, j: int| 0 <= i < j < ids.len() && #[trigger] spent(graph, ids, i, j) == limit
}

/// The number of pairs of `count` nodes.
pub open spec fn pair_count(count: nat) -> nat {
    if count == 0 {
        0
    } else {
        (count * (count - 1)) as nat / 2
    }
}

/// Whether the parameters make sense: at least one result, and a cutoff from 0 to 1.
pub open spec fn similarity_parameters(top_k: usize, cutoff: u64) -> bool {
    &&& top_k > 0
    &&& f64_finite(cutoff)
    &&& spec_f64_less(0, cutoff) || spec_f64_equal(0, cutoff)
    &&& spec_f64_less(cutoff, F64_ONE) || spec_f64_equal(cutoff, F64_ONE)
}

/// Why a comparison of all nodes is refused. A pair takes 24 bytes.
pub open spec fn similarity_fault(
    graph: &GraphWorkspace,
    ids: Seq<NodeId>,
    top_k: usize,
    max_comparisons: usize,
    max_bytes: usize,
) -> Option<Seq<char>> {
    let pairs = pair_count(ids.len());
    let kept = if top_k <= pairs {
        top_k as nat
    } else {
        pairs
    };
    if ids.len() > 0 && ids.len() * (ids.len() - 1) > usize::MAX {
        Some("节点对数量溢出"@)
    } else if pairs > max_comparisons {
        Some("节点相似度超过比较预算 (Node similarity exceeds comparison budget)"@)
    } else if kept * 24 > usize::MAX {
        Some("PairSet 大小溢出"@)
    } else if kept * 24 > max_bytes {
        Some("PairSet 超过临时内存预算 (PairSet exceeds temporary memory budget)"@)
    } else if rows_work(graph, ids, ids.len() as int) <= max_comparisons {
        None
    } else if max_comparisons == usize::MAX {
        Some("节点相似度工作预算溢出"@)
    } else if ends_between_pairs(graph, ids, max_comparisons as nat) {
        Some("节点相似度超过比较预算 (Node similarity exceeds comparison budget)"@)
    } else {
        Some(
            "节点相似度超过邻居交集预算 (Node similarity exceeds neighbor intersection budget)"@,
        )
    }
}

/// Whether `ratio` may give `similarity` for two nodes: the number of common neighbours divided by
/// the number of neighbours of either, and zero without neighbours.
pub open spec fn is_similarity<F: Fn(usize, usize) -> u64>(
    ratio: F,
    graph: &GraphWorkspace,
    left: NodeId,
    right: NodeId,
    similarity: u64,
) -> bool {
    if either(graph, left, right) == 0 {
        similarity == 0
    } else {
        call_ensures(
            ratio,
            (common(graph, left, right) as usize, either(graph, left, right) as usize),
            similarity,
        )
    }
}

/// Whether `scores` gives every pair of nodes a similarity.
pub open spec fn is_scoring<F: Fn(usize, usize) -> u64>(
    ratio: F,
    graph: &GraphWorkspace,
    scores: Map<(NodeId, NodeId), u64>,
) -> bool {
    forall|left: NodeId, right: NodeId|
        #![trigger scores[(left, right)]]
        graph.nodes().contains(left) && graph.nodes().contains(right) && left < right
            ==> is_similarity(ratio, graph, left, right, scores[(left, right)])
}

/// Whether a pair with its similarity reaches the cutoff.
pub open spec fn is_similar(
    graph: &GraphWorkspace,
    scores: Map<(NodeId, NodeId), u64>,
    cutoff: u64,
    pair: NodeSimilarityPair,
) -> bool {
    &&& graph.nodes().contains(pair.left)
    &&& graph.nodes().contains(pair.right)
    &&& pair.left < pair.right
    &&& pair.similarity == scores[(pair.left, pair.right)]
    &&& !spec_f64_less(pair.similarity, cutoff)
}

/// Whether `found` holds exactly the pairs that reach the cutoff.
pub open spec fn are_the_similar(
    graph: &GraphWorkspace,
    scores: Map<(NodeId, NodeId), u64>,
    cutoff: u64,
    found: Set<NodeSimilarityPair>,
) -> bool {
    forall|pair: NodeSimilarityPair| #[trigger]
        found.contains(pair) <==> is_similar(graph, scores, cutoff, pair)
}

/// What walking two ascending lists side by side has established after some steps.
spec fn merged(a: Seq<NodeId>, b: Seq<NodeId>, i: int, j: int, steps: nat, both: nat) -> bool {
    let past = a.take(i).to_set().union(b.take(j).to_set());
    &&& past.finite()
    &&& a.len() == 0 || b.len() == 0 ==> i == 0 && j == 0
    &&& steps == past.len()
    &&& both == a.take(i).to_set().intersect(b.take(j).to_set()).len()
    &&& forall|n: int| 0 <= n < i ==> (#[trigger] a[n]) <= b.last() && (j < b.len() ==> a[n] < b[j])
    &&& forall|n: int| 0 <= n < j ==> (#[trigger] b[n]) <= a.last() && (i < a.len() ==> b[n] < a[i])
}

/// One step of the walk.
proof fn lemma_merge_step(
    a: Seq<NodeId>,
    b: Seq<NodeId>,
    i: int,
    j: int,
    i_next: int,
    j_next: int,
    steps: nat,
    both: nat,
)
    requires
        increasing(a),
        increasing(b),
        0 <= i < a.len(),
        0 <= j < b.len(),
        merged(a, b, i, j, steps, both),
        i_next == i + if a[i] <= b[j] {
            1int
        } else {
            0int
        },
        j_next == j + if b[j] <= a[i] {
            1int
        } else {
            0int
        },
    ensures
        merged(
            a,
            b,
            i_next,
            j_next,
            steps + 1,
            both + if a[i] == b[j] {
                1nat
            } else {
                0nat
            },
        ),
        steps + 1 <= merge_steps(a, b),
{
    let past = a.take(i).to_set().union(b.take(j).to_set());
    let shared = a.take(i).to_set().intersect(b.take(j).to_set());
    let next = if a[i] <= b[j] {
        a[i]
    } else {
        b[j]
    };
    assert forall|n: int| 0 <= n < a.len() implies #[trigger] a[n] <= a.last() by {
        if n < a.len() - 1 {
            assert(a[n] < a[a.len() - 1]);
        }
    }
    assert forall|n: int| 0 <= n < b.len() implies #[trigger] b[n] <= b.last() by {
        if n < b.len() - 1 {
            assert(b[n] < b[b.len() - 1]);
        }
    }
    assert(!past.contains(next)) by {
        if a.take(i).contains(next) {
            let n = choose|n: int| 0 <= n < i && a.take(i)[n] == next;
            assert(a[n] < a[i]);
            assert(a[n] < b[j]);
        }
        if b.take(j).contains(next) {
            let n = choose|n: int| 0 <= n < j && b.take(j)[n] == next;
            assert(b[n] < a[i]);
            assert(b[n] < b[j]);
        }
    }
    if a[i] <= b[j] {
        assert(a.take(i + 1) =~= a.take(i).push(a[i]));
        lemma_to_set_push(a.take(i), a[i]);
    }
    if b[j] <= a[i] {
        assert(b.take(j + 1) =~= b.take(j).push(b[j]));
        lemma_to_set_push(b.take(j), b[j]);
    }
    let after = a.take(i_next).to_set().union(b.take(j_next).to_set());
    assert(after =~= past.insert(next));
    let shared_after = a.take(i_next).to_set().intersect(b.take(j_next).to_set());
    if a[i] == b[j] {
        assert(shared_after =~= shared.insert(next));
        assert(!shared.contains(next));
    } else {
        assert(shared_after =~= shared) by {
            assert(!a.take(i).to_set().contains(next));
            assert(!b.take(j).to_set().contains(next));
        }
    }
    assert forall|n: int| 0 <= n < i_next implies (#[trigger] a[n]) <= b.last() && (j_next < b.len()
        ==> a[n] < b[j_next]) by {
        if n < i {
            assert(a[n] < b[j]);
        }
        if j_next < b.len() && j_next > j {
            assert(b[j] < b[j_next]);
        }
        assert(b[j] <= b.last());
    }
    assert forall|n: int| 0 <= n < j_next implies (#[trigger] b[n]) <= a.last() && (i_next < a.len()
        ==> b[n] < a[i_next]) by {
        if n < j {
            assert(b[n] < a[i]);
        }
        if i_next < a.len() && i_next > i {
            assert(a[i] < a[i_next]);
        }
        assert(a[i] <= a.last());
    }
    let whole = a.to_set().union(b.to_set()).filter(
        |id: NodeId| id <= a.last() && id <= b.last(),
    );
    assert(after.subset_of(whole)) by {
        assert forall|id: NodeId| #[trigger] after.contains(id) implies whole.contains(id) by {
            if a.take(i_next).contains(id) {
                let n = choose|n: int| 0 <= n < i_next && a.take(i_next)[n] == id;
                assert(a[n] == id);
                assert(a[n] <= b.last());
                assert(a.contains(id));
            } else {
                let n = choose|n: int| 0 <= n < j_next && b.take(j_next)[n] == id;
                assert(b[n] == id);
                assert(b[n] <= a.last());
                assert(b.contains(id));
            }
        }
    }
    vstd::set_lib::lemma_len_subset(after, whole);
}

/// The end of the walk.
proof fn lemma_merge_end(a: Seq<NodeId>, b: Seq<NodeId>, i: int, j: int, steps: nat, both: nat)
    requires
        increasing(a),
        increasing(b),
        0 <= i <= a.len(),
        0 <= j <= b.len(),
        i == a.len() || j == b.len(),
        merged(a, b, i, j, steps, both),
    ensures
        steps == merge_steps(a, b),
        both == a.to_set().intersect(b.to_set()).len(),
{
    let past = a.take(i).to_set().union(b.take(j).to_set());
    let shared = a.take(i).to_set().intersect(b.take(j).to_set());
    if i == a.len() {
        assert(a.take(i) =~= a);
    }
    if j == b.len() {
        assert(b.take(j) =~= b);
    }
    assert(shared =~= a.to_set().intersect(b.to_set())) by {
        assert forall|id: NodeId| #[trigger] a.to_set().intersect(b.to_set()).contains(id)
            <==> shared.contains(id) by {
            if shared.contains(id) {
                let n = choose|n: int| 0 <= n < i && a.take(i)[n] == id;
                let m = choose|m: int| 0 <= m < j && b.take(j)[m] == id;
                assert(a[n] == id && b[m] == id);
                assert(a.contains(id) && b.contains(id));
            }
            if a.contains(id) && b.contains(id) {
                let n = choose|n: int| 0 <= n < a.len() && a[n] == id;
                let m = choose|m: int| 0 <= m < b.len() && b[m] == id;
                if i == a.len() && m >= j {
                    assert(a[n] < b[j]);
                    if m > j {
                        assert(b[j] < b[m]);
                    }
                }
                if j == b.len() && n >= i {
                    assert(b[m] < a[i]);
                    if n > i {
                        assert(a[i] < a[n]);
                    }
                }
                assert(a.take(i)[n] == id);
                assert(b.take(j)[m] == id);
            }
        }
    }
    if a.len() == 0 || b.len() == 0 {
        assert(past =~= Set::<NodeId>::empty()) by {
            assert(a.take(0) =~= Seq::<NodeId>::empty());
            assert(b.take(0) =~= Seq::<NodeId>::empty());
        }
    } else {
        let whole = a.to_set().union(b.to_set()).filter(
            |id: NodeId| id <= a.last() && id <= b.last(),
        );
        assert(past =~= whole) by {
            assert forall|id: NodeId| #[trigger] past.contains(id) <==> whole.contains(id) by {
                if a.take(i).contains(id) {
                    let n = choose|n: int| 0 <= n < i && a.take(i)[n] == id;
                    assert(a[n] == id);
                    assert(a.contains(id));
                    if n < a.len() - 1 {
                        assert(a[n] < a[a.len() - 1]);
                    }
                }
                if b.take(j).contains(id) {
                    let n = choose|n: int| 0 <= n < j && b.take(j)[n] == id;
                    assert(b[n] == id);
                    assert(b.contains(id));
                    if n < b.len() - 1 {
                        assert(b[n] < b[b.len() - 1]);
                    }
                }
                if whole.contains(id) && a.contains(id) {
                    let n = choose|n: int| 0 <= n < a.len() && a[n] == id;
                    if n >= i {
                        assert(b[b.len() - 1] < a[i]);
                        if n > i {
                            assert(a[i] < a[n]);
                        }
                    }
                    assert(a.take(i)[n] == id);
                }
                if whole.contains(id) && b.contains(id) {
                    let n = choose|n: int| 0 <= n < b.len() && b[n] == id;
                    if n >= j {
                        assert(a[a.len() - 1] < b[j]);
                        if n > j {
                            assert(b[j] < b[n]);
                        }
                    }
                    assert(b.take(j)[n] == id);
                }
            }
        }
    }
}

/// The number of common elements of two ascending lists, and the number of steps that counting
/// them takes, unless it takes more than `limit`.
fn count_common(a: &Vec<NodeId>, b: &Vec<NodeId>, limit: usize) -> (result: Option<(usize, usize)>)
    requires
        increasing(a@),
        increasing(b@),
    ensures
        result is None <==> merge_steps(a@, b@) > limit,
        result matches Some((both, steps)) ==> both == a@.to_set().intersect(b@.to_set()).len()
            && steps == merge_steps(a@, b@),
{
    let mut i: usize = 0;
    let mut j: usize = 0;
    let mut both: usize = 0;
    let mut steps: usize = 0;
    proof {
        assert(a@.take(0).to_set() =~= Set::<NodeId>::empty());
        assert(b@.take(0).to_set() =~= Set::<NodeId>::empty());
        assert(a@.take(0).to_set().union(b@.take(0).to_set()) =~= Set::<NodeId>::empty());
        assert(a@.take(0).to_set().intersect(b@.take(0).to_set()) =~= Set::<NodeId>::empty());
    }
    while i < a.len() && j < b.len()
        invariant
            increasing(a@),
            increasing(b@),
            i <= a@.len(),
            j <= b@.len(),
            both <= i,
            steps <= limit,
            merged(a@, b@, i as int, j as int, steps as nat, both as nat),
        decreases a@.len() - i + b@.len() - j,
    {
        let left: NodeId = a[i];
        let right: NodeId = b[j];
        proof {
            lemma_merge_step(
                a@,
                b@,
                i as int,
                j as int,
                i + if left <= right {
                    1int
                } else {
                    0int
                },
                j + if right <= left {
                    1int
                } else {
                    0int
                },
                steps as nat,
                both as nat,
            );
        }
        if steps == limit {
            return None;
        }
        steps += 1;
        if left < right {
            i += 1;
        } else if right < left {
            j += 1;
        } else {
            both += 1;
            i += 1;
            j += 1;
        }
    }
    proof {
        lemma_merge_end(a@, b@, i as int, j as int, steps as nat, both as nat);
    }
    Some((both, steps))
}

/// Later pairs come after more work.
proof fn lemma_spent_grows(
    graph: &GraphWorkspace,
    ids: Seq<NodeId>,
    i: int,
    j: int,
    p: int,
    q: int,
)
    requires
        0 <= i < j < ids.len(),
        0 <= p < ids.len(),
        p < q <= ids.len(),
        i < p || (i == p && j < q),
    ensures
        spent(graph, ids, i, j) + pair_work(graph, ids[i], ids[j]) <= spent(graph, ids, p, q),
    decreases p - i, q - j,
{
    if i == p {
        if j + 1 < q {
            lemma_spent_grows(graph, ids, i, j, p, q - 1);
        }
    } else {
        if i + 1 < p {
            lemma_spent_grows(graph, ids, i, j, p - 1, ids.len() as int);
        } else if j + 1 < ids.len() {
            lemma_spent_grows(graph, ids, i, j, i, ids.len() as int);
        }
        assert(rows_work(graph, ids, p) == spent(graph, ids, p - 1, ids.len() as int));
    }
}

/// Whether a pair comes before the pair at two places.
spec fn compared(ids: Seq<NodeId>, i: int, j: int, left: NodeId, right: NodeId) -> bool {
    exists|a: int, b: int|
        0 <= a < b < ids.len() && (a < i || (a == i && b < j)) && (#[trigger] ids[a]) == left && (
        #[trigger] ids[b]) == right
}

/// The pairs compared before the next place are those before and the one at this place.
proof fn lemma_compared_step(ids: Seq<NodeId>, i: int, j: int, left: NodeId, right: NodeId)
    requires
        increasing(ids),
        0 <= i < j < ids.len(),
    ensures
        compared(ids, i, j + 1, left, right) <==> compared(ids, i, j, left, right) || (left
            == ids[i] && right == ids[j]),
        !compared(ids, i, j, ids[i], ids[j]),
{
    lemma_increasing_distinct(ids);
    if compared(ids, i, j + 1, left, right) {
        let (a, b) = choose|a: int, b: int|
            0 <= a < b < ids.len() && (a < i || (a == i && b < j + 1)) && (#[trigger] ids[a])
                == left && (#[trigger] ids[b]) == right;
        if a < i || b < j {
            assert(ids[a] == left && ids[b] == right);
        }
    }
    if left == ids[i] && right == ids[j] {
        assert(ids[i] == left && ids[j] == right);
    }
    if compared(ids, i, j, left, right) {
        let (a, b) = choose|a: int, b: int|
            0 <= a < b < ids.len() && (a < i || (a == i && b < j)) && (#[trigger] ids[a]) == left
                && (#[trigger] ids[b]) == right;
        assert(ids[a] == left && ids[b] == right);
    }
}

/// The most similar pairs of nodes: those whose similarity reaches the cutoff, the most similar
/// first, at most `top_k`. `ratio` divides the number of common neighbours by the number of
/// neighbours of either node.
pub fn node_similarity<F: Fn(usize, usize) -> u64>(
    graph: &GraphWorkspace,
    top_k: usize,
    cutoff: u64,
    max_comparisons: usize,
    max_bytes: usize,
    ratio: F,
) -> (result: Result<PairSet>)
    requires
        graph.well_formed(),
        forall|both: usize, all: usize| call_requires(ratio, (both, all)),
    ensures
        !similarity_parameters(top_k, cutoff) ==> (result matches Err(error) && is_invalid_input(
            error,
            "节点相似度参数无效 (Invalid node similarity parameters)"@,
        )),
        similarity_parameters(top_k, cutoff) ==> exists|ids: Seq<NodeId>|
            {
                &&& #[trigger] increasing(ids)
                &&& ids.to_set() == graph.nodes()
                &&& match similarity_fault(graph, ids, top_k, max_comparisons, max_bytes) {
                    Some(fault) => result matches Err(error) && is_query_execution(error, fault),
                    None => result matches Ok(pairs) && exists|
                        scores: Map<(NodeId, NodeId), u64>,
                        found: Set<NodeSimilarityPair>,
                    |
                        is_scoring(ratio, graph, scores) && #[trigger] are_the_similar(
                            graph,
                            scores,
                            cutoff,
                            found,
                        ) && is_best(
                            found,
                            order_of::<NodeSimilarityPair>(),
                            top_k as nat,
                            pairs@,
                        ),
                }
            },
{
    if top_k == 0 || !f64_is_finite(cutoff) || !f64_less_equal(0, cutoff) || !f64_less_equal(
        cutoff,
        F64_ONE,
    ) {
        return Err(
            invalid_input("节点相似度参数无效 (Invalid node similarity parameters)"),
        );
    }
    let ids = map_keys(&graph.undirected);
    let count: usize = ids.len();
    assert(increasing(ids@));
    let following: usize = if count == 0 {
        0
    } else {
        count - 1
    };
    let comparisons: usize = match count.checked_mul(following) {
        Some(product) => product / 2,
        None => {
            return Err(query_execution("节点对数量溢出"));
        },
    };
    assert(comparisons == pair_count(ids@.len()));
    if comparisons > max_comparisons {
        return Err(
            query_execution(
                "节点相似度超过比较预算 (Node similarity exceeds comparison budget)",
            ),
        );
    }
    let capacity: usize = if top_k <= comparisons {
        top_k
    } else {
        comparisons
    };
    let required_bytes: usize = match capacity.checked_mul(24) {
        Some(bytes) => bytes,
        None => {
            return Err(query_execution("PairSet 大小溢出"));
        },
    };
    if required_bytes > max_bytes {
        return Err(
            query_execution(
                "PairSet 超过临时内存预算 (PairSet exceeds temporary memory budget)",
            ),
        );
    }
    proof {
        lemma_increasing_distinct(ids@);
        ids@.unique_seq_to_set();
        if count >= 3 {
            assert(count * (count - 1) >= count * 2) by (nonlinear_arith)
                requires
                    count >= 3,
            ;
        }
    }
    let mut pairs: Vec<NodeSimilarityPair> = Vec::new();
    let mut work: usize = 0;
    let ghost mut scores: Map<(NodeId, NodeId), u64> = Map::empty();
    let ghost mut found: Set<NodeSimilarityPair> = Set::empty();
    let mut i: usize = 0;
    while i < ids.len()
        invariant
            graph.well_formed(),
            forall|both: usize, all: usize| call_requires(ratio, (both, all)),
            increasing(ids@),
            ids@.to_set() == graph.nodes(),
            graph.nodes().len() * 2 <= usize::MAX,
            i <= ids@.len(),
            work <= max_comparisons,
            work == rows_work(graph, ids@, i as int),
            similarity_parameters(top_k, cutoff),
            similarity_fault(graph, ids@, top_k, max_comparisons, max_bytes) == work_fault(
                graph,
                ids@,
                max_comparisons,
            ),
            progress(ratio, graph, ids@, i as int, i + 1, cutoff, scores, found),
            is_best(found, order_of::<NodeSimilarityPair>(), top_k as nat, views(pairs@)),
        decreases ids@.len() - i,
    {
        let left: NodeId = ids[i];
        assert(ids@.to_set().contains(left)) by {
            assert(ids@.contains(left));
        }
        let left_neighbors = graph.undirected.get(&left).unwrap();
        assert(lists(left_neighbors@, |other: NodeId| graph.joined(left, other)));
        let mut j: usize = i + 1;
        while j < ids.len()
            invariant
                graph.well_formed(),
                forall|both: usize, all: usize| call_requires(ratio, (both, all)),
                increasing(ids@),
                ids@.to_set() == graph.nodes(),
                graph.nodes().len() * 2 <= usize::MAX,
                i < ids@.len(),
                i < j <= ids@.len(),
                left == ids@[i as int],
                graph.nodes().contains(left),
                left_neighbors@ == graph.undirected@[left]@,
                increasing(left_neighbors@),
                work <= max_comparisons,
                work == spent(graph, ids@, i as int, j as int),
                similarity_parameters(top_k, cutoff),
                similarity_fault(graph, ids@, top_k, max_comparisons, max_bytes) == work_fault(
                    graph,
                    ids@,
                    max_comparisons,
                ),
                progress(ratio, graph, ids@, i as int, j as int, cutoff, scores, found),
                is_best(found, order_of::<NodeSimilarityPair>(), top_k as nat, views(pairs@)),
            decreases ids@.len() - j,
        {
            let right: NodeId = ids[j];
            assert(ids@.to_set().contains(right)) by {
                assert(ids@.contains(right));
            }
            proof {
                lemma_spent_total(graph, ids@, i as int, j as int);
            }
            if work == max_comparisons {
                assert(spent(graph, ids@, i as int, j as int) == max_comparisons);
                if max_comparisons == usize::MAX {
                    return Err(query_execution("节点相似度工作预算溢出"));
                }
                return Err(
                    query_execution(
                        "节点相似度超过比较预算 (Node similarity exceeds comparison budget)",
                    ),
                );
            }
            work += 1;
            let right_neighbors = graph.undirected.get(&right).unwrap();
            assert(lists(right_neighbors@, |other: NodeId| graph.joined(right, other)));
            let (both, steps): (usize, usize) = match count_common(
                left_neighbors,
                right_neighbors,
                max_comparisons - work,
            ) {
                Some(counts) => counts,
                None => {
                    proof {
                        lemma_not_between(
                            graph,
                            ids@,
                            i as int,
                            j as int,
                            max_comparisons as nat,
                        );
                    }
                    if max_comparisons == usize::MAX {
                        return Err(query_execution("节点相似度工作预算溢出"));
                    }
                    return Err(
                        query_execution(
                            "节点相似度超过邻居交集预算 (Node similarity exceeds neighbor intersection budget)",
                        ),
                    );
                },
            };
            work += steps;
            proof {
                lemma_either(left_neighbors@, right_neighbors@);
                lemma_either_fits(graph, left, right);
            }
            let all: usize = left_neighbors.len().saturating_add(right_neighbors.len())
                .saturating_sub(both);
            assert(both == common(graph, left, right));
            assert(all == either(graph, left, right));
            let similarity: u64 = if all == 0 {
                0
            } else {
                ratio(both, all)
            };
            let ghost scores_before = scores;
            let ghost found_before = found;
            let pair = NodeSimilarityPair { left, right, similarity };
            proof {
                scores = scores.insert((left, right), similarity);
                lemma_compared_step(ids@, i as int, j as int, left, right);
                assert forall|other: NodeSimilarityPair| #[trigger]
                    found.contains(other) implies NodeSimilarityPair::goes_before(other, pair)
                    || NodeSimilarityPair::goes_before(pair, other) by {
                    assert(other.left != left || other.right != right);
                }
            }
            if !f64_less(similarity, cutoff) {
                keep_best(&mut pairs, pair, top_k, Ghost(found));
                proof {
                    found = found.insert(pair);
                }
            }
            proof {
                lemma_progress(
                    ratio,
                    graph,
                    ids@,
                    i as int,
                    j as int,
                    cutoff,
                    scores_before,
                    found_before,
                    pair,
                    scores,
                    found,
                );
            }
            j += 1;
        }
        proof {
            lemma_progress_row(ratio, graph, ids@, i as int, cutoff, scores, found);
        }
        i += 1;
    }
    proof {
        assert(views(pairs@) =~= pairs@);
        assert forall|left: NodeId, right: NodeId|
            graph.nodes().contains(left) && graph.nodes().contains(right) && left < right implies
            #[trigger] compared(ids@, i as int, i + 1, left, right) by {
            assert(ids@.to_set().contains(left) && ids@.to_set().contains(right));
            let a = choose|a: int| 0 <= a < ids@.len() && ids@[a] == left;
            let b = choose|b: int| 0 <= b < ids@.len() && ids@[b] == right;
            if b < a {
                assert(ids@[b] < ids@[a]);
            }
            assert(ids@[a] == left && ids@[b] == right);
        }
        assert(is_scoring(ratio, graph, scores)) by {
            assert forall|left: NodeId, right: NodeId|
                #![trigger scores[(left, right)]]
                graph.nodes().contains(left) && graph.nodes().contains(right) && left
                    < right implies is_similarity(
                ratio,
                graph,
                left,
                right,
                scores[(left, right)],
            ) by {
                assert(compared(ids@, i as int, i + 1, left, right));
            }
        }
        assert(are_the_similar(graph, scores, cutoff, found)) by {
            assert forall|pair: NodeSimilarityPair| #[trigger]
                found.contains(pair) <==> is_similar(graph, scores, cutoff, pair) by {
                if is_similar(graph, scores, cutoff, pair) {
                    assert(compared(ids@, i as int, i + 1, pair.left, pair.right));
                }
            }
        }
    }
    Ok(PairSet { pairs })
}

/// The budget faults that only show while nodes are compared.
spec fn work_fault(graph: &GraphWorkspace, ids: Seq<NodeId>, max_comparisons: usize) -> Option<
    Seq<char>,
> {
    if rows_work(graph, ids, ids.len() as int) <= max_comparisons {
        None
    } else if max_comparisons == usize::MAX {
        Some("节点相似度工作预算溢出"@)
    } else if ends_between_pairs(graph, ids, max_comparisons as nat) {
        Some("节点相似度超过比较预算 (Node similarity exceeds comparison budget)"@)
    } else {
        Some(
            "节点相似度超过邻居交集预算 (Node similarity exceeds neighbor intersection budget)"@,
        )
    }
}

/// What the comparisons so far have established.
spec fn progress<F: Fn(usize, usize) -> u64>(
    ratio: F,
    graph: &GraphWorkspace,
    ids: Seq<NodeId>,
    i: int,
    j: int,
    cutoff: u64,
    scores: Map<(NodeId, NodeId), u64>,
    found: Set<NodeSimilarityPair>,
) -> bool {
    &&& forall|left: NodeId, right: NodeId| #[trigger]
        compared(ids, i, j, left, right) ==> is_similarity(
            ratio,
            graph,
            left,
            right,
            scores[(left, right)],
        )
    &&& forall|pair: NodeSimilarityPair| #[trigger]
        found.contains(pair) <==> compared(ids, i, j, pair.left, pair.right) && is_similar(
            graph,
            scores,
            cutoff,
            pair,
        )
}

/// One more comparison.
proof fn lemma_progress<F: Fn(usize, usize) -> u64>(
    ratio: F,
    graph: &GraphWorkspace,
    ids: Seq<NodeId>,
    i: int,
    j: int,
    cutoff: u64,
    scores: Map<(NodeId, NodeId), u64>,
    found: Set<NodeSimilarityPair>,
    pair: NodeSimilarityPair,
    scores_after: Map<(NodeId, NodeId), u64>,
    found_after: Set<NodeSimilarityPair>,
)
    requires
        increasing(ids),
        0 <= i < j < ids.len(),
        graph.nodes().contains(pair.left),
        graph.nodes().contains(pair.right),
        pair.left == ids[i],
        pair.right == ids[j],
        progress(ratio, graph, ids, i, j, cutoff, scores, found),
        is_similarity(ratio, graph, pair.left, pair.right, pair.similarity),
        scores_after == scores.insert((pair.left, pair.right), pair.similarity),
        found_after == if spec_f64_less(pair.similarity, cutoff) {
            found
        } else {
            found.insert(pair)
        },
    ensures
        progress(ratio, graph, ids, i, j + 1, cutoff, scores_after, found_after),
{
    assert forall|left: NodeId, right: NodeId| #[trigger]
        compared(ids, i, j + 1, left, right) implies is_similarity(
        ratio,
        graph,
        left,
        right,
        scores_after[(left, right)],
    ) by {
        lemma_compared_step(ids, i, j, left, right);
        if left == pair.left && right == pair.right {
        } else {
            assert(compared(ids, i, j, left, right));
        }
    }
    assert forall|other: NodeSimilarityPair| #[trigger] found_after.contains(other) <==> compared(
        ids,
        i,
        j + 1,
        other.left,
        other.right,
    ) && is_similar(graph, scores_after, cutoff, other) by {
        lemma_compared_step(ids, i, j, other.left, other.right);
        assert(found.contains(other) <==> compared(ids, i, j, other.left, other.right)
            && is_similar(graph, scores, cutoff, other));
    }
}

/// At the end of a row the next row begins.
proof fn lemma_compared_row(ids: Seq<NodeId>, i: int, left: NodeId, right: NodeId)
    requires
        0 <= i < ids.len(),
    ensures
        compared(ids, i, ids.len() as int, left, right) == compared(ids, i + 1, i + 2, left, right),
{
    if compared(ids, i, ids.len() as int, left, right) {
        let (a, b) = choose|a: int, b: int|
            0 <= a < b < ids.len() && (a < i || (a == i && b < ids.len())) && (#[trigger] ids[a])
                == left && (#[trigger] ids[b]) == right;
        assert(ids[a] == left && ids[b] == right);
    }
    if compared(ids, i + 1, i + 2, left, right) {
        let (a, b) = choose|a: int, b: int|
            0 <= a < b < ids.len() && (a < i + 1 || (a == i + 1 && b < i + 2)) && (
            #[trigger] ids[a]) == left && (#[trigger] ids[b]) == right;
        assert(ids[a] == left && ids[b] == right);
    }
}

/// At the end of a row as much is established as before the next row.
proof fn lemma_progress_row<F: Fn(usize, usize) -> u64>(
    ratio: F,
    graph: &GraphWorkspace,
    ids: Seq<NodeId>,
    i: int,
    cutoff: u64,
    scores: Map<(NodeId, NodeId), u64>,
    found: Set<NodeSimilarityPair>,
)
    requires
        0 <= i < ids.len(),
        progress(ratio, graph, ids, i, ids.len() as int, cutoff, scores, found),
    ensures
        progress(ratio, graph, ids, i + 1, i + 2, cutoff, scores, found),
{
    assert forall|left: NodeId, right: NodeId| #[trigger]
        compared(ids, i + 1, i + 2, left, right) implies is_similarity(
        ratio,
        graph,
        left,
        right,
        scores[(left, right)],
    ) by {
        lemma_compared_row(ids, i, left, right);
    }
    assert forall|pair: NodeSimilarityPair| #[trigger] found.contains(pair) <==> compared(
        ids,
        i + 1,
        i + 2,
        pair.left,
        pair.right,
    ) && is_similar(graph, scores, cutoff, pair) by {
        lemma_compared_row(ids, i, pair.left, pair.right);
    }
}

/// A comparison is part of all the work.
proof fn lemma_spent_total(graph: &GraphWorkspace, ids: Seq<NodeId>, i: int, j: int)
    requires
        0 <= i < j < ids.len(),
    ensures
        spent(graph, ids, i, j) + pair_work(graph, ids[i], ids[j]) <= rows_work(
            graph,
            ids,
            ids.len() as int,
        ),
        spent(graph, ids, i, j + 1) == spent(graph, ids, i, j) + pair_work(graph, ids[i], ids[j]),
{
    let last = ids.len() - 1;
    lemma_spent_grows(graph, ids, i, j, last, last + 1);
    assert(rows_work(graph, ids, last + 1) == spent(graph, ids, last, last + 1));
}

/// Work that is used up within a comparison is not used up between two.
proof fn lemma_not_between(graph: &GraphWorkspace, ids: Seq<NodeId>, i: int, j: int, limit: nat)
    requires
        0 <= i < j < ids.len(),
        spent(graph, ids, i, j) < limit,
        limit < spent(graph, ids, i, j) + pair_work(graph, ids[i], ids[j]),
    ensures
        !ends_between_pairs(graph, ids, limit),
        rows_work(graph, ids, ids.len() as int) > limit,
{
    lemma_spent_total(graph, ids, i, j);
    assert forall|p: int, q: int| 0 <= p < q < ids.len() implies #[trigger] spent(graph, ids, p, q)
        != limit by {
        if p < i || (p == i && q < j) {
            lemma_spent_grows(graph, ids, p, q, i, j);
        } else if p > i || q > j {
            lemma_spent_grows(graph, ids, i, j, p, q);
        }
    }
}

/// The neighbours of either node, counted from the two lists.
proof fn lemma_either(a: Seq<NodeId>, b: Seq<NodeId>)
    requires
        increasing(a),
        increasing(b),
    ensures
        a.to_set().union(b.to_set()).len() == a.len() + b.len() - a.to_set().intersect(
            b.to_set(),
        ).len(),
{
    lemma_increasing_distinct(a);
    lemma_increasing_distinct(b);
    a.unique_seq_to_set();
    b.unique_seq_to_set();
    vstd::set_lib::lemma_set_intersect_union_lens(a.to_set(), b.to_set());
}

/// No more nodes are neighbours than can be counted.
proof fn lemma_either_fits(graph: &GraphWorkspace, left: NodeId, right: NodeId)
    requires
        graph.well_formed(),
        graph.nodes().contains(left),
        graph.nodes().contains(right),
    ensures
        either(graph, left, right) <= graph.nodes().len(),
        graph.undirected@[left]@.len() <= graph.nodes().len(),
        graph.undirected@[right]@.len() <= graph.nodes().len(),
{
    let all = neighborhood(graph, left).union(neighborhood(graph, right));
    assert(all.subset_of(graph.nodes())) by {
        assert forall|id: NodeId| #[trigger] all.contains(id) implies graph.nodes().contains(
            id,
        ) by {
            assert(lists(graph.undirected@[left]@, |other: NodeId| graph.joined(left, other)));
            assert(lists(graph.undirected@[right]@, |other: NodeId| graph.joined(right, other)));
            if graph.undirected@[left]@.contains(id) {
                assert(graph.joined(left, id));
            } else {
                assert(graph.undirected@[right]@.contains(id));
                assert(graph.joined(right, id));
            }
        }
    }
    vstd::set_lib::lemma_len_subset(all, graph.nodes());
    lemma_increasing_distinct(graph.undirected@[left]@);
    lemma_increasing_distinct(graph.undirected@[right]@);
    graph.undirected@[left]@.unique_seq_to_set();
    graph.undirected@[right]@.unique_seq_to_set();
    vstd::set_lib::lemma_len_subset(neighborhood(graph, left), all);
    vstd::set_lib::lemma_len_subset(neighborhood(graph, right), all);
}

} // verus!
