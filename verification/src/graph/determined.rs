//! Community detection has one outcome.
use vstd::prelude::*;

use crate::collections::{increasing, lemma_increasing_unique};
use crate::graph::leiden::{
    are_heads, are_partners, are_spread, ends_right, greatest_weight, is_clustering, is_descent,
    is_detection, is_least_reached, is_refined, is_standstill, is_step_down, kin, lists_view, lower,
    merged_members, spread, upper, AdjacencySnapshot, LeidenArithmetic, LeidenConfig, LeidenResult,
    WeightedGraph,
};
use crate::graph::moving::{same_ties, MoveArithmetic};
use crate::node::NodeId;

verus! {

/// A node has one list of partners.
proof fn lemma_partners_unique<V>(
    value: spec_fn(NodeId, NodeId) -> Option<V>,
    id: NodeId,
    one: Seq<(NodeId, V)>,
    other: Seq<(NodeId, V)>,
)
    requires
        are_partners(value, id, one),
        are_partners(value, id, other),
    ensures
        one == other,
{
    let a = Seq::new(one.len(), |i: int| one[i].0);
    let b = Seq::new(other.len(), |i: int| other[i].0);
    assert forall|to: NodeId| a.to_set().contains(to) <==> b.to_set().contains(to) by {
        if a.contains(to) {
            let i = choose|i: int| 0 <= i < a.len() && a[i] == to;
            assert(one[i].0 == to);
            assert(value(lower(id, to), upper(id, to)) is Some);
            let j = choose|j: int| 0 <= j < other.len() && (#[trigger] other[j]).0 == to;
            assert(b[j] == to);
        }
        if b.contains(to) {
            let i = choose|i: int| 0 <= i < b.len() && b[i] == to;
            assert(other[i].0 == to);
            assert(value(lower(id, to), upper(id, to)) is Some);
            let j = choose|j: int| 0 <= j < one.len() && (#[trigger] one[j]).0 == to;
            assert(a[j] == to);
        }
    }
    assert(a.to_set() =~= b.to_set());
    lemma_increasing_unique(a, b);
    assert forall|i: int| 0 <= i < one.len() implies one[i] == other[i] by {
        assert(a[i] == b[i]);
        assert(one[i].0 == other[i].0);
        assert(value(lower(id, one[i].0), upper(id, one[i].0)) == Some(one[i].1));
        assert(value(lower(id, other[i].0), upper(id, other[i].0)) == Some(other[i].1));
    }
    assert(one =~= other);
}

/// Values of pairs are spread in one way.
proof fn lemma_spread_unique<V>(
    value: spec_fn(NodeId, NodeId) -> Option<V>,
    nodes: Set<NodeId>,
    one: Map<NodeId, Seq<(NodeId, V)>>,
    other: Map<NodeId, Seq<(NodeId, V)>>,
)
    requires
        are_spread(value, nodes, one),
        are_spread(value, nodes, other),
    ensures
        one == other,
{
    assert forall|id: NodeId| #[trigger] one.contains_key(id) implies one[id] == other[id] by {
        assert(other.contains_key(id));
        let a = choose|near: Seq<(NodeId, V)>| #[trigger]
            are_partners(value, id, near) && one[id] == spread(id, near);
        let b = choose|near: Seq<(NodeId, V)>| #[trigger]
            are_partners(value, id, near) && other[id] == spread(id, near);
        lemma_partners_unique(value, id, a, b);
    }
    assert(one =~= other);
}

/// Communities are split in one way.
proof fn lemma_refined_unique(
    ties: Map<NodeId, Seq<(NodeId, u64)>>,
    communities: Map<NodeId, NodeId>,
    one: Map<NodeId, NodeId>,
    other: Map<NodeId, NodeId>,
)
    requires
        is_refined(ties, communities, one),
        is_refined(ties, communities, other),
    ensures
        one == other,
{
    assert forall|id: NodeId| #[trigger] one.contains_key(id) implies one[id] == other[id] by {
        assert(other.contains_key(id));
        assert(is_least_reached(kin(ties, communities), id, one[id]));
        assert(is_least_reached(kin(ties, communities), id, other[id]));
    }
    assert(one =~= other);
}

/// Names have one list.
proof fn lemma_heads_unique(names: Map<NodeId, NodeId>, one: Seq<NodeId>, other: Seq<NodeId>)
    requires
        are_heads(names, one),
        are_heads(names, other),
    ensures
        one == other,
{
    assert forall|name: NodeId| one.to_set().contains(name) <==> other.to_set().contains(name) by {
        assert(one.contains(name) <==> other.contains(name));
    }
    assert(one.to_set() =~= other.to_set());
    lemma_increasing_unique(one, other);
}

/// Graphs whose lists are the same have the same ties.
proof fn lemma_same_ties(a: &WeightedGraph, b: &WeightedGraph)
    requires
        lists_view(a.ties@) == lists_view(b.ties@),
    ensures
        same_ties(a, b),
{
    assert(lists_view(a.ties@).dom() =~= a.ties@.dom());
    assert(lists_view(b.ties@).dom() =~= b.ties@.dom());
    assert forall|id: NodeId| #[trigger] a.ties@.contains_key(id) implies a.ties@[id]@
        == b.ties@[id]@ by {
        assert(lists_view(a.ties@)[id] == a.ties@[id]@);
        assert(lists_view(b.ties@)[id] == b.ties@[id]@);
    }
}

/// One level has one next level.
proof fn lemma_step_once<
    W: Fn(u32) -> u64,
    P: Fn(u64, u64) -> u64,
    A: Fn(u64, u64) -> u64,
    M: Fn(u64, u64) -> u64,
    G: Fn(u64, u64, u64, u64) -> u64,
    B: Fn(u64, u64, bool) -> bool,
    N: Fn(u64) -> bool,
>(
    arithmetic: LeidenArithmetic<W, P>,
    moving: MoveArithmetic<A, M, G, B, N>,
    sweeps: usize,
    a: WeightedGraph,
    b: WeightedGraph,
    members: Map<NodeId, Seq<NodeId>>,
    next: WeightedGraph,
    next_members: Map<NodeId, Seq<NodeId>>,
    other: WeightedGraph,
    other_members: Map<NodeId, Seq<NodeId>>,
)
    requires
        lists_view(a.ties@) == lists_view(b.ties@),
        is_step_down(arithmetic, moving, sweeps, a, members, next, next_members),
        is_step_down(arithmetic, moving, sweeps, b, members, other, other_members),
    ensures
        lists_view(next.ties@) == lists_view(other.ties@),
        next_members == other_members,
{
    let ties = lists_view(a.ties@);
    let (c, i, n, h) = choose|
        communities: Map<NodeId, NodeId>,
        ids: Seq<NodeId>,
        names: Map<NodeId, NodeId>,
        heads: Seq<NodeId>,
    |
        #![trigger moving.is_moved(&a, sweeps, communities), are_heads(names, heads), increasing(ids)]
        moving.is_moved(&a, sweeps, communities) && increasing(ids) && are_heads(names, heads)
            && arithmetic.is_next_level(
            ties,
            members,
            communities,
            ids,
            names,
            heads,
            lists_view(next.ties@),
            next_members,
        ) && heads.len() != ids.len();
    let (d, j, m, g) = choose|
        communities: Map<NodeId, NodeId>,
        ids: Seq<NodeId>,
        names: Map<NodeId, NodeId>,
        heads: Seq<NodeId>,
    |
        #![trigger moving.is_moved(&b, sweeps, communities), are_heads(names, heads), increasing(ids)]
        moving.is_moved(&b, sweeps, communities) && increasing(ids) && are_heads(names, heads)
            && arithmetic.is_next_level(
            lists_view(b.ties@),
            members,
            communities,
            ids,
            names,
            heads,
            lists_view(other.ties@),
            other_members,
        ) && heads.len() != ids.len();
    lemma_same_ties(&a, &b);
    moving.lemma_moved_agrees(&a, &b, sweeps, c);
    moving.law_moving_is_determined(&b, sweeps, c, d);
    lemma_increasing_unique(i, j);
    lemma_refined_unique(ties, c, n, m);
    lemma_heads_unique(n, h, g);
    lemma_spread_unique(
        |x: NodeId, y: NodeId| arithmetic.tie_sum(ties, n, i, i.len(), 0, x, y),
        h.to_set(),
        lists_view(next.ties@),
        lists_view(other.ties@),
    );
    assert forall|name: NodeId| #[trigger] next_members.contains_key(name) implies
        next_members[name] == other_members[name] by {
        assert(other_members.contains_key(name));
        assert(next_members[name] == merged_members(members, n, i, i.len() as int, name));
    }
    assert(next_members =~= other_members);
}

/// Descents go through the same levels.
proof fn lemma_descents_agree<
    W: Fn(u32) -> u64,
    P: Fn(u64, u64) -> u64,
    A: Fn(u64, u64) -> u64,
    M: Fn(u64, u64) -> u64,
    G: Fn(u64, u64, u64, u64) -> u64,
    B: Fn(u64, u64, bool) -> bool,
    N: Fn(u64) -> bool,
>(
    arithmetic: LeidenArithmetic<W, P>,
    moving: MoveArithmetic<A, M, G, B, N>,
    sweeps: usize,
    one: Seq<WeightedGraph>,
    members: Seq<Map<NodeId, Seq<NodeId>>>,
    other: Seq<WeightedGraph>,
    others: Seq<Map<NodeId, Seq<NodeId>>>,
    k: int,
)
    requires
        is_descent(arithmetic, moving, sweeps, one, members),
        is_descent(arithmetic, moving, sweeps, other, others),
        lists_view(one[0].ties@) == lists_view(other[0].ties@),
        members[0] == others[0],
        0 <= k < one.len(),
        k < other.len(),
    ensures
        lists_view(one[k].ties@) == lists_view(other[k].ties@),
        members[k] == others[k],
    decreases k,
{
    if k > 0 {
        lemma_descents_agree(
            arithmetic,
            moving,
            sweeps,
            one,
            members,
            other,
            others,
            k - 1,
        );
        assert(is_step_down(
            arithmetic,
            moving,
            sweeps,
            one[k - 1],
            members[k - 1],
            one[k - 1 + 1],
            members[k - 1 + 1],
        ));
        assert(is_step_down(
            arithmetic,
            moving,
            sweeps,
            other[k - 1],
            others[k - 1],
            other[k - 1 + 1],
            others[k - 1 + 1],
        ));
        lemma_step_once(
            arithmetic,
            moving,
            sweeps,
            one[k - 1],
            other[k - 1],
            members[k - 1],
            one[k],
            members[k],
            other[k],
            others[k],
        );
    }
}

/// A level at which nothing changes has no next one.
proof fn lemma_standstill_ends<
    W: Fn(u32) -> u64,
    P: Fn(u64, u64) -> u64,
    A: Fn(u64, u64) -> u64,
    M: Fn(u64, u64) -> u64,
    G: Fn(u64, u64, u64, u64) -> u64,
    B: Fn(u64, u64, bool) -> bool,
    N: Fn(u64) -> bool,
>(
    arithmetic: LeidenArithmetic<W, P>,
    moving: MoveArithmetic<A, M, G, B, N>,
    sweeps: usize,
    a: WeightedGraph,
    b: WeightedGraph,
    communities: Map<NodeId, NodeId>,
    members: Map<NodeId, Seq<NodeId>>,
    next: WeightedGraph,
    next_members: Map<NodeId, Seq<NodeId>>,
)
    requires
        lists_view(a.ties@) == lists_view(b.ties@),
        moving.is_moved(&a, sweeps, communities),
        is_standstill(lists_view(a.ties@), communities),
    ensures
        !is_step_down(arithmetic, moving, sweeps, b, members, next, next_members),
{
    if is_step_down(arithmetic, moving, sweeps, b, members, next, next_members) {
        let ties = lists_view(a.ties@);
        let (i, n, h) = choose|
            ids: Seq<NodeId>,
            names: Map<NodeId, NodeId>,
            heads: Seq<NodeId>,
        |
            #![trigger are_heads(names, heads), increasing(ids)]
            increasing(ids) && ids.to_set() == ties.dom() && is_refined(ties, communities, names)
                && are_heads(names, heads) && heads.len() == ids.len();
        let (d, j, m, g) = choose|
            moved: Map<NodeId, NodeId>,
            ids: Seq<NodeId>,
            names: Map<NodeId, NodeId>,
            heads: Seq<NodeId>,
        |
            #![trigger moving.is_moved(&b, sweeps, moved), are_heads(names, heads), increasing(ids)]
            moving.is_moved(&b, sweeps, moved) && increasing(ids) && are_heads(names, heads)
                && arithmetic.is_next_level(
                lists_view(b.ties@),
                members,
                moved,
                ids,
                names,
                heads,
                lists_view(next.ties@),
                next_members,
            ) && heads.len() != ids.len();
        lemma_same_ties(&a, &b);
        moving.lemma_moved_agrees(&a, &b, sweeps, communities);
        moving.law_moving_is_determined(&b, sweeps, communities, d);
        lemma_increasing_unique(i, j);
        lemma_refined_unique(ties, d, n, m);
        lemma_heads_unique(n, h, g);
    }
}

/// One descent does not end before another.
proof fn lemma_descent_not_shorter<
    W: Fn(u32) -> u64,
    P: Fn(u64, u64) -> u64,
    A: Fn(u64, u64) -> u64,
    M: Fn(u64, u64) -> u64,
    G: Fn(u64, u64, u64, u64) -> u64,
    B: Fn(u64, u64, bool) -> bool,
    N: Fn(u64) -> bool,
>(
    arithmetic: LeidenArithmetic<W, P>,
    moving: MoveArithmetic<A, M, G, B, N>,
    sweeps: usize,
    one: Seq<WeightedGraph>,
    members: Seq<Map<NodeId, Seq<NodeId>>>,
    other: Seq<WeightedGraph>,
    others: Seq<Map<NodeId, Seq<NodeId>>>,
)
    requires
        is_descent(arithmetic, moving, sweeps, one, members),
        is_descent(arithmetic, moving, sweeps, other, others),
        lists_view(one[0].ties@) == lists_view(other[0].ties@),
        members[0] == others[0],
        ends_right(moving, sweeps, one),
        other.len() <= sweeps + 1,
        forall|k: int| 0 < k < other.len() - 1 ==> (#[trigger] other[k]).ties@.dom().len() > 1,
    ensures
        one.len() >= other.len(),
{
    if one.len() < other.len() {
        let k = one.len() - 1;
        lemma_descents_agree(arithmetic, moving, sweeps, one, members, other, others, k);
        assert(lists_view(one[k].ties@).dom() =~= one[k].ties@.dom());
        assert(lists_view(other[k].ties@).dom() =~= other[k].ties@.dom());
        assert(is_step_down(
            arithmetic,
            moving,
            sweeps,
            other[k],
            others[k],
            other[k + 1],
            others[k + 1],
        ));
        if one.len() > 1 && one.last().ties@.dom().len() <= 1 {
            assert(other[k].ties@.dom().len() > 1);
        } else {
            let communities = choose|communities: Map<NodeId, NodeId>|
                #[trigger] moving.is_moved(&one.last(), sweeps, communities) && is_standstill(
                    lists_view(one.last().ties@),
                    communities,
                );
            lemma_standstill_ends(
                arithmetic,
                moving,
                sweeps,
                one[k],
                other[k],
                communities,
                others[k],
                other[k + 1],
                others[k + 1],
            );
        }
    }
}

/// Groups are numbered in one way.
proof fn lemma_clustering_unique(
    members: Map<NodeId, Seq<NodeId>>,
    min_size: usize,
    kept: Seq<NodeId>,
    one: LeidenResult,
    held: Seq<NodeId>,
    other: LeidenResult,
)
    requires
        is_clustering(members, min_size, kept, one),
        is_clustering(members, min_size, held, other),
    ensures
        one.node_to_cluster@ == other.node_to_cluster@,
        one.cluster_sizes@ == other.cluster_sizes@,
        one.num_clusters == other.num_clusters,
{
    assert forall|name: NodeId| kept.to_set().contains(name) <==> held.to_set().contains(name) by {
        assert(kept.contains(name) <==> held.contains(name));
    }
    assert(kept.to_set() =~= held.to_set());
    lemma_increasing_unique(kept, held);
    let a = one.node_to_cluster@;
    let b = other.node_to_cluster@;
    assert forall|id: NodeId| a.contains_key(id) implies b.contains_key(id) && a[id] == b[id] by {
        let i = choose|i: int| 0 <= i < kept.len() && #[trigger] members[kept[i]].contains(id);
        assert(members[held[i]].contains(id));
    }
    assert forall|id: NodeId| b.contains_key(id) implies a.contains_key(id) by {
        let i = choose|i: int| 0 <= i < held.len() && #[trigger] members[held[i]].contains(id);
        assert(members[kept[i]].contains(id));
    }
    assert(a =~= b);
    let x = one.cluster_sizes@;
    let y = other.cluster_sizes@;
    assert forall|cluster: u32| #[trigger] x.contains_key(cluster) implies y.contains_key(cluster)
        && x[cluster] == y[cluster] by {
        assert(1 <= cluster <= held.len());
        assert(y.contains_key(cluster));
    }
    assert forall|cluster: u32| #[trigger] y.contains_key(cluster) implies x.contains_key(
        cluster,
    ) by {
        assert(1 <= cluster <= kept.len());
    }
    assert(x =~= y);
}

/// Detecting communities has one outcome: two detections in the same snapshot with the same
/// settings give the same clusters.
pub proof fn law_detection_is_determined<
    W: Fn(u32) -> u64,
    P: Fn(u64, u64) -> u64,
    A: Fn(u64, u64) -> u64,
    M: Fn(u64, u64) -> u64,
    G: Fn(u64, u64, u64, u64) -> u64,
    B: Fn(u64, u64, bool) -> bool,
    N: Fn(u64) -> bool,
>(
    snapshot: &AdjacencySnapshot,
    config: LeidenConfig,
    arithmetic: LeidenArithmetic<W, P>,
    moving: MoveArithmetic<A, M, G, B, N>,
    ids: Seq<NodeId>,
    graphs: Seq<WeightedGraph>,
    members: Seq<Map<NodeId, Seq<NodeId>>>,
    kept: Seq<NodeId>,
    one: LeidenResult,
    other_ids: Seq<NodeId>,
    other_graphs: Seq<WeightedGraph>,
    other_members: Seq<Map<NodeId, Seq<NodeId>>>,
    other_kept: Seq<NodeId>,
    other: LeidenResult,
)
    requires
        is_detection(snapshot, config, arithmetic, moving, ids, graphs, members, kept, one),
        is_detection(
            snapshot,
            config,
            arithmetic,
            moving,
            other_ids,
            other_graphs,
            other_members,
            other_kept,
            other,
        ),
    ensures
        one.node_to_cluster@ == other.node_to_cluster@,
        one.cluster_sizes@ == other.cluster_sizes@,
        one.num_clusters == other.num_clusters,
{
    let sweeps = if config.max_iterations == 0 {
        1
    } else {
        config.max_iterations
    };
    lemma_increasing_unique(ids, other_ids);
    let value = |a: NodeId, b: NodeId| greatest_weight(snapshot, ids, ids.len(), 0, a, b);
    let narrow = choose|narrow: Map<NodeId, Seq<(NodeId, u32)>>|
        are_spread(value, ids.to_set(), narrow) && lists_view(graphs[0].ties@)
            == #[trigger] arithmetic.widened(narrow);
    let thin = choose|narrow: Map<NodeId, Seq<(NodeId, u32)>>|
        are_spread(value, ids.to_set(), narrow) && lists_view(other_graphs[0].ties@)
            == #[trigger] arithmetic.widened(narrow);
    lemma_spread_unique(value, ids.to_set(), narrow, thin);
    if ids.len() == 0 && (graphs.len() == 1 || other_graphs.len() == 1) {
        assert(arithmetic.widened(narrow).dom() =~= ids.to_set());
        lemma_nothing_to_do(arithmetic, moving, sweeps, graphs, members, ids);
        lemma_nothing_to_do(arithmetic, moving, sweeps, other_graphs, other_members, ids);
    } else {
        lemma_descent_not_shorter(
            arithmetic,
            moving,
            sweeps,
            graphs,
            members,
            other_graphs,
            other_members,
        );
        lemma_descent_not_shorter(
            arithmetic,
            moving,
            sweeps,
            other_graphs,
            other_members,
            graphs,
            members,
        );
    }
    lemma_descents_agree(
        arithmetic,
        moving,
        sweeps,
        graphs,
        members,
        other_graphs,
        other_members,
        graphs.len() - 1,
    );
    lemma_clustering_unique(
        members.last(),
        config.min_community_size,
        kept,
        one,
        other_kept,
        other,
    );
}

/// Without nodes there is no level below the first.
proof fn lemma_nothing_to_do<
    W: Fn(u32) -> u64,
    P: Fn(u64, u64) -> u64,
    A: Fn(u64, u64) -> u64,
    M: Fn(u64, u64) -> u64,
    G: Fn(u64, u64, u64, u64) -> u64,
    B: Fn(u64, u64, bool) -> bool,
    N: Fn(u64) -> bool,
>(
    arithmetic: LeidenArithmetic<W, P>,
    moving: MoveArithmetic<A, M, G, B, N>,
    sweeps: usize,
    graphs: Seq<WeightedGraph>,
    members: Seq<Map<NodeId, Seq<NodeId>>>,
    ids: Seq<NodeId>,
)
    requires
        is_descent(arithmetic, moving, sweeps, graphs, members),
        ids.len() == 0,
        lists_view(graphs[0].ties@).dom() == ids.to_set(),
    ensures
        graphs.len() == 1,
{
    if graphs.len() > 1 {
        assert(is_step_down(
            arithmetic,
            moving,
            sweeps,
            graphs[0],
            members[0],
            graphs[1],
            members[1],
        ));
        let ties = lists_view(graphs[0].ties@);
        let (d, j, m, g) = choose|
            moved: Map<NodeId, NodeId>,
            some: Seq<NodeId>,
            names: Map<NodeId, NodeId>,
            heads: Seq<NodeId>,
        |
            #![trigger moving.is_moved(&graphs[0], sweeps, moved), are_heads(names, heads), increasing(some)]
            moving.is_moved(&graphs[0], sweeps, moved) && increasing(some) && are_heads(
                names,
                heads,
            ) && arithmetic.is_next_level(
                ties,
                members[0],
                moved,
                some,
                names,
                heads,
                lists_view(graphs[1].ties@),
                members[1],
            ) && heads.len() != some.len();
        assert(increasing(ids));
        assert(j.to_set() == ids.to_set());
        lemma_increasing_unique(j, ids);
        if g.len() > 0 {
            assert(g.contains(g[0]));
            let id = choose|id: NodeId| #[trigger] m.contains_key(id) && m[id] == g[0];
            assert(ties.contains_key(id));
            assert(ids.to_set().contains(id));
        }
    }
}

} // verus!
