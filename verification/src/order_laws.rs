//! The order in which results are listed.
use vstd::prelude::*;

use crate::graph::bounded::ids_before;
use crate::graph::centrality::SubsetDegreeCentrality;
use crate::graph::compact::ReachabilityHit;
use crate::graph::reachability::{ReachabilityResult, ResultView};
use crate::graph::similarity::NodeSimilarityPair;
use crate::node::{NodeId, SearchHit};
use crate::number::{F32_SIGN, F64_SIGN};
use crate::ranking::{hits_order, scored_order, HitView, Scored};
use crate::sorting::{is_best, law_sorted, order_of, sorted};

verus! {

/// Whether a single precision number is at least another, NaNs at the ends: without a sign the
/// greater bit pattern is the greater number, with a sign it is the smaller one.
pub open spec fn at_least_32(a: u32, b: u32) -> bool {
    if a < F32_SIGN {
        b >= F32_SIGN || a >= b
    } else {
        b >= F32_SIGN && a <= b
    }
}

/// Whether a double precision number is at least another, NaNs at the ends.
pub open spec fn at_least_64(a: u64, b: u64) -> bool {
    if a < F64_SIGN {
        b >= F64_SIGN || a >= b
    } else {
        b >= F64_SIGN && a <= b
    }
}

/// Hits are listed by their scores, the greatest first, and those with the same score by their
/// nodes, the smallest first.
pub proof fn law_hits_descend(list: Seq<HitView>, i: int, j: int)
    requires
        0 <= i < j < sorted(list, hits_order()).len(),
    ensures
        ({
            let all = sorted(list, hits_order());
            &&& at_least_32(all[i].score, all[j].score)
            &&& all[i].score == all[j].score ==> all[i].id <= all[j].id
        }),
{
    law_sorted::<SearchHit>(list);
    let all = sorted(list, hits_order());
    assert(!(hits_order())(all[j], all[i]));
}

/// The best of some scored nodes: every one of them is one of those given; they are listed by their
/// scores, the greatest first, and those with the same score by their nodes; there are at most as
/// many as asked for; and none that is left out is better than one that is listed. With room left
/// none is left out.
pub proof fn law_the_best_are_kept(
    given: Set<Scored>,
    limit: nat,
    list: Seq<Scored>,
    i: int,
    j: int,
    out: Scored,
)
    requires
        is_best(given, scored_order(), limit, list),
    ensures
        list.len() <= limit,
        0 <= i < list.len() ==> given.contains(list[i]),
        0 <= i < j < list.len() ==> at_least_32(list[i].score, list[j].score) && (list[i].score
            == list[j].score ==> list[i].id < list[j].id),
        given.contains(out) && !list.contains(out) ==> list.len() == limit,
        given.contains(out) && !list.contains(out) && 0 <= i < list.len() ==> at_least_32(
            list[i].score,
            out.score,
        ) && (list[i].score == out.score ==> list[i].id < out.id),
{
    if 0 <= i < j < list.len() {
        assert((scored_order())(list[i], list[j]));
    }
    if given.contains(out) && !list.contains(out) && 0 <= i < list.len() {
        assert((scored_order())(list[i], out));
    }
}

/// Nodes with scores are listed by their scores, the greatest first, and those with the same score
/// by their identifiers.
pub proof fn law_scores_descend(list: Seq<(NodeId, u64)>, i: int, j: int)
    requires
        0 <= i < j < sorted(list, order_of::<(NodeId, u64)>()).len(),
    ensures
        ({
            let all = sorted(list, order_of::<(NodeId, u64)>());
            &&& at_least_64(all[i].1, all[j].1)
            &&& all[i].1 == all[j].1 ==> all[i].0 <= all[j].0
        }),
{
    law_sorted::<(NodeId, u64)>(list);
    let all = sorted(list, order_of::<(NodeId, u64)>());
    assert(!(order_of::<(NodeId, u64)>())(all[j], all[i]));
}

/// Degrees are listed with the greatest total first, and those with the same total by their nodes.
pub proof fn law_degrees_descend(list: Seq<SubsetDegreeCentrality>, i: int, j: int)
    requires
        0 <= i < j < sorted(list, order_of::<SubsetDegreeCentrality>()).len(),
    ensures
        ({
            let all = sorted(list, order_of::<SubsetDegreeCentrality>());
            &&& all[i].total_degree >= all[j].total_degree
            &&& all[i].total_degree == all[j].total_degree ==> all[i].id <= all[j].id
        }),
{
    law_sorted::<SubsetDegreeCentrality>(list);
    let all = sorted(list, order_of::<SubsetDegreeCentrality>());
    assert(!(order_of::<SubsetDegreeCentrality>())(all[j], all[i]));
}

/// Pairs of nodes are listed with the most similar first, and those that are as similar by their
/// nodes.
pub proof fn law_similarities_descend(list: Seq<NodeSimilarityPair>, i: int, j: int)
    requires
        0 <= i < j < sorted(list, order_of::<NodeSimilarityPair>()).len(),
    ensures
        ({
            let all = sorted(list, order_of::<NodeSimilarityPair>());
            &&& at_least_64(all[i].similarity, all[j].similarity)
            &&& all[i].similarity == all[j].similarity ==> all[i].left < all[j].left || (all[i].left
                == all[j].left && all[i].right <= all[j].right)
        }),
{
    law_sorted::<NodeSimilarityPair>(list);
    let all = sorted(list, order_of::<NodeSimilarityPair>());
    assert(!(order_of::<NodeSimilarityPair>())(all[j], all[i]));
}

/// Reached nodes are listed with the nearest first, and those that are as near by their identifiers.
pub proof fn law_depths_ascend(list: Seq<ReachabilityHit>, i: int, j: int)
    requires
        0 <= i < j < sorted(list, order_of::<ReachabilityHit>()).len(),
    ensures
        ({
            let all = sorted(list, order_of::<ReachabilityHit>());
            &&& all[i].depth <= all[j].depth
            &&& all[i].depth == all[j].depth ==> all[i].target_id <= all[j].target_id
        }),
{
    law_sorted::<ReachabilityHit>(list);
    let all = sorted(list, order_of::<ReachabilityHit>());
    assert(!(order_of::<ReachabilityHit>())(all[j], all[i]));
}

/// Reached nodes with their paths are listed with the nearest first, and those that are as near by
/// their identifiers.
pub proof fn law_path_depths_ascend(list: Seq<ResultView>, i: int, j: int)
    requires
        0 <= i < j < sorted(list, order_of::<ReachabilityResult>()).len(),
    ensures
        ({
            let all = sorted(list, order_of::<ReachabilityResult>());
            &&& all[i].depth <= all[j].depth
            &&& all[i].depth == all[j].depth ==> all[i].target <= all[j].target
        }),
{
    law_sorted::<ReachabilityResult>(list);
    let all = sorted(list, order_of::<ReachabilityResult>());
    assert(!(order_of::<ReachabilityResult>())(all[j], all[i]));
}

/// Components are listed with the largest first, and those of one size in the order of their nodes.
pub proof fn law_components_descend(list: Seq<Seq<NodeId>>, i: int, j: int)
    requires
        0 <= i < j < sorted(list, order_of::<Vec<NodeId>>()).len(),
    ensures
        ({
            let all = sorted(list, order_of::<Vec<NodeId>>());
            &&& all[i].len() >= all[j].len()
            &&& all[i].len() == all[j].len() ==> !comes_first(all[j], all[i])
        }),
{
    law_sorted::<Vec<NodeId>>(list);
    let all = sorted(list, order_of::<Vec<NodeId>>());
    assert(!(order_of::<Vec<NodeId>>())(all[j], all[i]));
    if comes_first(all[j], all[i]) {
        law_lists_are_ordered_by_their_first_difference(all[j], all[i]);
    }
}

/// Whether a list of nodes comes first: it is a proper start of the other, or has the smaller node
/// where they first differ.
pub open spec fn comes_first(a: Seq<NodeId>, b: Seq<NodeId>) -> bool {
    exists|n: int| #[trigger] differs_at(a, b, n)
}

/// Whether two lists agree before a place, and the first one ends there or has the smaller node.
pub open spec fn differs_at(a: Seq<NodeId>, b: Seq<NodeId>, n: int) -> bool {
    &&& 0 <= n <= a.len()
    &&& n < b.len()
    &&& a.take(n) == b.take(n)
    &&& n < a.len() ==> a[n] < b[n]
}

/// Lists of nodes are ordered by the place where they first differ.
pub proof fn law_lists_are_ordered_by_their_first_difference(a: Seq<NodeId>, b: Seq<NodeId>)
    ensures
        ids_before(a, b) <==> comes_first(a, b),
    decreases a.len(),
{
    if b.len() == 0 {
    } else if a.len() == 0 {
        assert(a.take(0) =~= b.take(0));
        assert(differs_at(a, b, 0));
    } else if a[0] != b[0] {
        if a[0] < b[0] {
            assert(a.take(0) =~= b.take(0));
            assert(differs_at(a, b, 0));
        }
        if comes_first(a, b) {
            let n = choose|n: int| #[trigger] differs_at(a, b, n);
            if n > 0 {
                assert(a.take(n)[0] == b.take(n)[0]);
            }
        }
    } else {
        let x = a.drop_first();
        let y = b.drop_first();
        law_lists_are_ordered_by_their_first_difference(x, y);
        if comes_first(x, y) {
            let n = choose|n: int| #[trigger] differs_at(x, y, n);
            assert(a.take(n + 1) =~= b.take(n + 1)) by {
                assert forall|k: int| 0 <= k < n + 1 implies a[k] == b[k] by {
                    if k > 0 {
                        assert(x.take(n)[k - 1] == y.take(n)[k - 1]);
                    }
                }
            }
            assert(differs_at(a, b, n + 1));
        }
        if comes_first(a, b) {
            let n = choose|n: int| #[trigger] differs_at(a, b, n);
            assert(n > 0);
            assert(x.take(n - 1) =~= y.take(n - 1)) by {
                assert forall|k: int| 0 <= k < n - 1 implies x[k] == y[k] by {
                    assert(a.take(n)[k + 1] == b.take(n)[k + 1]);
                }
            }
            assert(differs_at(x, y, n - 1));
        }
    }
}

} // verus!
