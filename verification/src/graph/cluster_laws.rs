//! What the nodes and ties of clusters come to when clusters are joined, and their means.
use vstd::prelude::*;

use crate::collections::{increasing, lemma_contains_push};
use crate::graph::centroids::{counted, MeanArithmetic};
use crate::graph::leiden::{merged_members, LeidenArithmetic};
use crate::node::NodeId;
use crate::sums::{lemma_sum_bounds, lemma_sum_of_first, lemma_sum_take, sum_of, where_wanted};

verus! {

/// The nodes of a cluster that others were joined to are the nodes of all clusters with its name.
pub proof fn law_joined_clusters_keep_their_nodes(
    members: Map<NodeId, Seq<NodeId>>,
    names: Map<NodeId, NodeId>,
    ids: Seq<NodeId>,
    name: NodeId,
    id: NodeId,
)
    ensures
        merged_members(members, names, ids, ids.len() as int, name).contains(id) <==> exists|k: int|
            0 <= k < ids.len() && names[#[trigger] ids[k]] == name && members[ids[k]].contains(id),
{
    lemma_merged(members, names, ids, ids.len() as int, name, id);
}

/// The nodes of the first clusters with a name.
proof fn lemma_merged(
    members: Map<NodeId, Seq<NodeId>>,
    names: Map<NodeId, NodeId>,
    ids: Seq<NodeId>,
    count: int,
    name: NodeId,
    id: NodeId,
)
    requires
        0 <= count <= ids.len(),
    ensures
        merged_members(members, names, ids, count, name).contains(id) <==> exists|k: int|
            0 <= k < count && names[#[trigger] ids[k]] == name && members[ids[k]].contains(id),
    decreases count,
{
    if count > 0 {
        lemma_merged(members, names, ids, count - 1, name, id);
        let before = merged_members(members, names, ids, count - 1, name);
        let last = ids[count - 1];
        let all = merged_members(members, names, ids, count, name);
        if names[last] == name {
            let more = members[last];
            if before.contains(id) {
                let n = before.index_of(id);
                assert(all[n] == id);
            }
            if more.contains(id) {
                let n = more.index_of(id);
                assert(all[before.len() + n] == id);
            }
            if all.contains(id) {
                let n = all.index_of(id);
                if n < before.len() {
                    assert(before[n] == id);
                } else {
                    assert(more[n - before.len()] == id);
                }
            }
        }
        if exists|k: int|
            0 <= k < count - 1 && names[#[trigger] ids[k]] == name && members[ids[k]].contains(id) {
            let k = choose|k: int|
                0 <= k < count - 1 && names[#[trigger] ids[k]] == name && members[ids[k]].contains(
                    id,
                );
            assert(0 <= k < count && names[ids[k]] == name && members[ids[k]].contains(id));
        }
        if exists|k: int|
            0 <= k < count && names[#[trigger] ids[k]] == name && members[ids[k]].contains(id) {
            let k = choose|k: int|
                0 <= k < count && names[#[trigger] ids[k]] == name && members[ids[k]].contains(id);
            if k < count - 1 {
                assert(0 <= k < count - 1 && names[ids[k]] == name && members[ids[k]].contains(id));
            }
        }
        if names[last] == name && members[last].contains(id) {
            assert(names[ids[count - 1]] == name && members[ids[count - 1]].contains(id));
        }
    }
}

/// What a tie of a node adds to the tie between two communities: its weight, where it leads from one
/// of them to the other. A tie between two nodes is listed with both and counts with the smaller.
pub open spec fn tie_between(
    value: spec_fn(u64) -> real,
    names: Map<NodeId, NodeId>,
    a: NodeId,
    b: NodeId,
    from: NodeId,
) -> spec_fn((NodeId, u64)) -> real {
    where_wanted(
        |tie: (NodeId, u64)|
            from <= tie.0 && ((names[from] == a && names[tie.0] == b) || (names[from] == b
                && names[tie.0] == a)),
        |tie: (NodeId, u64)| value(tie.1),
    )
}

/// What the ties of a node add to the tie between two communities.
pub open spec fn ties_between(
    value: spec_fn(u64) -> real,
    ties: Map<NodeId, Seq<(NodeId, u64)>>,
    names: Map<NodeId, NodeId>,
    a: NodeId,
    b: NodeId,
) -> spec_fn(NodeId) -> real {
    |from: NodeId| sum_of(ties[from], tie_between(value, names, a, b, from))
}

impl<W: Fn(u32) -> u64, P: Fn(u64, u64) -> u64> LeidenArithmetic<W, P> {
    /// Whether sums up to a limit are not rounded, when the bit patterns are read as `value` says.
    pub open spec fn adds_exactly(&self, value: spec_fn(u64) -> real, limit: real) -> bool {
        &&& value(0) == 0real
        &&& forall|a: u64, b: u64|
            value(a) >= 0real && value(b) >= 0real && value(a) + value(b) <= limit ==> value(
                #[trigger] self.sum(a, b),
            ) == value(a) + value(b)
    }

    /// The weight of the ties of the first nodes.
    proof fn lemma_tie_sum(
        &self,
        value: spec_fn(u64) -> real,
        limit: real,
        ties: Map<NodeId, Seq<(NodeId, u64)>>,
        names: Map<NodeId, NodeId>,
        ids: Seq<NodeId>,
        i: nat,
        j: nat,
        a: NodeId,
        b: NodeId,
    )
        requires
            a <= b,
            self.adds_exactly(value, limit),
            i <= ids.len(),
            j > 0 ==> i < ids.len() && j <= ties[ids[i as int]].len(),
            forall|n: int, k: int|
                0 <= n < ids.len() && 0 <= k < ties[#[trigger] ids[n]].len() ==> value(
                    (#[trigger] ties[ids[n]][k]).1,
                ) >= 0real,
            sum_of(ids, ties_between(value, ties, names, a, b)) <= limit,
        ensures
            ({
                let each = ties_between(value, ties, names, a, b);
                let found = self.tie_sum(ties, names, ids, i, j, a, b);
                let whole = sum_of(ids.take(i as int), each) + if j > 0 {
                    sum_of(
                        ties[ids[i as int]].take(j as int),
                        tie_between(value, names, a, b, ids[i as int]),
                    )
                } else {
                    0real
                };
                &&& 0real <= whole <= limit
                &&& match found {
                    Some(sum) => value(sum) == whole,
                    None => whole == 0real,
                }
            }),
        decreases i, j,
    {
        let each = ties_between(value, ties, names, a, b);
        assert forall|n: int| 0 <= n < ids.len() implies each(#[trigger] ids[n]) >= 0real by {
            let list = ties[ids[n]];
            let term = tie_between(value, names, a, b, ids[n]);
            assert forall|k: int| 0 <= k < list.len() implies term(#[trigger] list[k]) >= 0real by {
                assert(value(ties[ids[n]][k].1) >= 0real);
            }
            lemma_sum_bounds(list, term);
        }
        lemma_sum_of_first(ids, each, i as int);
        if j > 0 {
            self.lemma_tie_sum(value, limit, ties, names, ids, i, (j - 1) as nat, a, b);
            let from = ids[i as int];
            let list = ties[from];
            let term = tie_between(value, names, a, b, from);
            assert forall|k: int| 0 <= k < list.len() implies term(#[trigger] list[k]) >= 0real by {
                assert(value(ties[ids[i as int]][k].1) >= 0real);
            }
            lemma_sum_take(list, term, j as int);
            lemma_sum_of_first(list, term, j as int);
            lemma_sum_of_first(list, term, j - 1);
            lemma_sum_take(ids, each, i as int + 1);
            lemma_sum_of_first(ids, each, i as int + 1);
            if j == 1 {
                assert(list.take(0) =~= Seq::<(NodeId, u64)>::empty());
            }
            assert(value(ties[ids[i as int]][j - 1].1) >= 0real);
        } else if i > 0 {
            let last = (i - 1) as nat;
            let list = ties[ids[last as int]];
            self.lemma_tie_sum(value, limit, ties, names, ids, last, list.len(), a, b);
            assert(list.take(list.len() as int) =~= list);
            lemma_sum_take(ids, each, i as int);
        } else {
            assert(ids.take(0) =~= Seq::<NodeId>::empty());
        }
    }

    /// Two communities are tied by the weights of all ties between their nodes, each counted once;
    /// the ties within a community tie it to itself. Without such a tie they are not tied.
    pub proof fn law_ties_between_communities_are_added(
        &self,
        value: spec_fn(u64) -> real,
        limit: real,
        ties: Map<NodeId, Seq<(NodeId, u64)>>,
        names: Map<NodeId, NodeId>,
        ids: Seq<NodeId>,
        a: NodeId,
        b: NodeId,
    )
        requires
            a <= b,
            self.adds_exactly(value, limit),
            forall|n: int, k: int|
                0 <= n < ids.len() && 0 <= k < ties[#[trigger] ids[n]].len() ==> value(
                    (#[trigger] ties[ids[n]][k]).1,
                ) >= 0real,
            sum_of(ids, ties_between(value, ties, names, a, b)) <= limit,
        ensures
            match self.tie_sum(ties, names, ids, ids.len(), 0, a, b) {
                Some(sum) => value(sum) == sum_of(ids, ties_between(value, ties, names, a, b)),
                None => sum_of(ids, ties_between(value, ties, names, a, b)) == 0real,
            },
    {
        self.lemma_tie_sum(value, limit, ties, names, ids, ids.len(), 0, a, b);
        assert(ids.take(ids.len() as int) =~= ids);
    }
}

/// The nodes that count for the mean of a cluster are those that are in it and have a vector, each
/// once.
pub proof fn law_nodes_that_count_for_a_mean(
    ids: Seq<NodeId>,
    clusters: Map<NodeId, u32>,
    vectors: Map<NodeId, Vec<u32>>,
    cluster: u32,
    id: NodeId,
)
    requires
        increasing(ids),
    ensures
        ({
            let nodes = counted(ids, clusters, vectors, cluster, ids.len() as int);
            &&& increasing(nodes)
            &&& nodes.contains(id) <==> ids.contains(id) && clusters[id] == cluster
                && vectors.contains_key(id)
        }),
{
    lemma_counted(ids, clusters, vectors, cluster, ids.len() as int, id);
    assert(ids.take(ids.len() as int) =~= ids);
}

/// The first nodes that count.
proof fn lemma_counted(
    ids: Seq<NodeId>,
    clusters: Map<NodeId, u32>,
    vectors: Map<NodeId, Vec<u32>>,
    cluster: u32,
    count: int,
    id: NodeId,
)
    requires
        increasing(ids),
        0 <= count <= ids.len(),
    ensures
        ({
            let nodes = counted(ids, clusters, vectors, cluster, count);
            &&& increasing(nodes)
            &&& forall|k: int| 0 <= k < nodes.len() ==> ids.take(count).contains(#[trigger] nodes[k])
            &&& nodes.contains(id) <==> ids.take(count).contains(id) && clusters[id] == cluster
                && vectors.contains_key(id)
        }),
    decreases count,
{
    if count > 0 {
        lemma_counted(ids, clusters, vectors, cluster, count - 1, id);
        let before = counted(ids, clusters, vectors, cluster, count - 1);
        let nodes = counted(ids, clusters, vectors, cluster, count);
        let few = ids.take(count - 1);
        let last = ids[count - 1];
        assert(ids.take(count) =~= few.push(last));
        lemma_contains_push(few, last, id);
        lemma_contains_push(before, last, id);
        assert forall|k: int| 0 <= k < nodes.len() implies ids.take(count).contains(
            #[trigger] nodes[k],
        ) by {
            if k < before.len() {
                assert(nodes[k] == before[k]);
                lemma_contains_push(few, last, before[k]);
            } else {
                lemma_contains_push(few, last, last);
            }
        }
        assert forall|i: int, j: int| 0 <= i < j < nodes.len() implies (#[trigger] nodes[i]) < (
        #[trigger] nodes[j]) by {
            assert(nodes[i] == before[i]);
            if j < before.len() {
                assert(nodes[j] == before[j]);
            } else {
                let n = few.index_of(before[i]);
                assert(ids[n] == before[i]);
                assert(ids[n] < ids[count - 1]);
            }
        }
    }
}

/// One component of the vector of a node; nothing where the vector is too short.
pub open spec fn component_at(
    weigh: spec_fn(u32) -> real,
    vectors: Map<NodeId, Vec<u32>>,
    place: int,
) -> spec_fn(NodeId) -> real {
    |id: NodeId|
        if place < vectors[id]@.len() {
            weigh(vectors[id]@[place])
        } else {
            0real
        }
}

/// One component of the vector of a node, without its sign.
pub open spec fn component_size(
    weigh: spec_fn(u32) -> real,
    vectors: Map<NodeId, Vec<u32>>,
    place: int,
) -> spec_fn(NodeId) -> real {
    |id: NodeId|
        if component_at(weigh, vectors, place)(id) < 0real {
            -component_at(weigh, vectors, place)(id)
        } else {
            component_at(weigh, vectors, place)(id)
        }
}

impl<A: Fn(u64, u32) -> u64, M: Fn(u64, usize) -> u32> MeanArithmetic<A, M> {
    /// Whether sums within a limit are not rounded, when the bit patterns are read as `value` and
    /// `weigh` say.
    pub open spec fn adds_exactly(
        &self,
        value: spec_fn(u64) -> real,
        weigh: spec_fn(u32) -> real,
        limit: real,
    ) -> bool {
        &&& value(0) == 0real
        &&& forall|sum: u64, component: u32|
            -limit <= value(sum) + weigh(component) <= limit ==> value(
                #[trigger] self.added(sum, component),
            ) == value(sum) + weigh(component)
    }

    /// The sum of one component over the first nodes.
    proof fn lemma_component_sum(
        &self,
        value: spec_fn(u64) -> real,
        weigh: spec_fn(u32) -> real,
        limit: real,
        vectors: Map<NodeId, Vec<u32>>,
        nodes: Seq<NodeId>,
        place: int,
        count: int,
    )
        requires
            self.adds_exactly(value, weigh, limit),
            0 <= count <= nodes.len(),
            sum_of(nodes, component_size(weigh, vectors, place)) <= limit,
        ensures
            value(self.component_sum(vectors, nodes.take(count), place)) == sum_of(
                nodes.take(count),
                component_at(weigh, vectors, place),
            ),
            sum_of(nodes.take(count), component_at(weigh, vectors, place)) <= sum_of(
                nodes.take(count),
                component_size(weigh, vectors, place),
            ),
            -sum_of(nodes.take(count), component_at(weigh, vectors, place)) <= sum_of(
                nodes.take(count),
                component_size(weigh, vectors, place),
            ),
        decreases count,
    {
        let each = component_at(weigh, vectors, place);
        let size = component_size(weigh, vectors, place);
        assert forall|k: int| 0 <= k < nodes.len() implies size(#[trigger] nodes[k]) >= 0real by {}
        lemma_sum_of_first(nodes, size, count);
        if count > 0 {
            self.lemma_component_sum(value, weigh, limit, vectors, nodes, place, count - 1);
            lemma_sum_take(nodes, each, count);
            lemma_sum_take(nodes, size, count);
            assert(nodes.take(count).drop_last() =~= nodes.take(count - 1));
            assert(nodes.take(count).last() == nodes[count - 1]);
        } else {
            assert(nodes.take(0) =~= Seq::<NodeId>::empty());
        }
    }

    /// Each component of a centroid is the mean of that component over the vectors of the nodes: so
    /// many times it is their sum, where nothing is rounded.
    pub proof fn law_a_centroid_is_the_mean(
        &self,
        value: spec_fn(u64) -> real,
        weigh: spec_fn(u32) -> real,
        limit: real,
        vectors: Map<NodeId, Vec<u32>>,
        nodes: Seq<NodeId>,
        dim: nat,
        place: int,
    )
        requires
            self.adds_exactly(value, weigh, limit),
            nodes.len() <= usize::MAX,
            0 <= place < dim,
            sum_of(nodes, component_size(weigh, vectors, place)) <= limit,
            forall|sum: u64|
                value(sum) == sum_of(nodes, component_at(weigh, vectors, place)) ==> weigh(
                    #[trigger] self.averaged(sum, nodes.len() as usize),
                ) * (nodes.len() as real) == value(sum),
        ensures
            self.centroid(vectors, nodes, dim).len() == dim,
            weigh(self.centroid(vectors, nodes, dim)[place]) * (nodes.len() as real) == sum_of(
                nodes,
                component_at(weigh, vectors, place),
            ),
    {
        self.lemma_component_sum(value, weigh, limit, vectors, nodes, place, nodes.len() as int);
        assert(nodes.take(nodes.len() as int) =~= nodes);
    }
}

} // verus!
