//! The mean vectors of clusters.
use std::collections::{BTreeMap, HashMap};
use vstd::prelude::*;

use crate::collections::{increasing, map_keys};
use crate::graph::leiden::LeidenResult;
use crate::node::NodeId;

verus! {

/// The arithmetic of means: a double precision sum with one more single precision component, and
/// the single precision mean of so many components with a sum. All are bit patterns.
pub struct MeanArithmetic<A, M> {
    pub with_component: A,
    pub mean: M,
}

/// Those of the first `count` nodes that are in a cluster and have a vector.
pub open spec fn counted(
    ids: Seq<NodeId>,
    clusters: Map<NodeId, u32>,
    vectors: Map<NodeId, Vec<u32>>,
    cluster: u32,
    count: int,
) -> Seq<NodeId>
    decreases count,
{
    if count <= 0 {
        Seq::empty()
    } else {
        let before = counted(ids, clusters, vectors, cluster, count - 1);
        let id = ids[count - 1];
        if clusters[id] == cluster && vectors.contains_key(id) {
            before.push(id)
        } else {
            before
        }
    }
}

impl<A: Fn(u64, u32) -> u64, M: Fn(u64, usize) -> u32> MeanArithmetic<A, M> {
    /// Whether each operation can always be carried out and gives the same for the same operands.
    pub open spec fn sound(&self) -> bool {
        &&& forall|sum: u64, component: u32| call_requires(self.with_component, (sum, component))
        &&& forall|sum: u64, component: u32, next: u64|
            call_ensures(self.with_component, (sum, component), next) ==> next == self.added(
                sum,
                component,
            )
        &&& forall|sum: u64, count: usize| call_requires(self.mean, (sum, count))
        &&& forall|sum: u64, count: usize, result: u32|
            call_ensures(self.mean, (sum, count), result) ==> result == self.averaged(sum, count)
    }

    /// A sum with one more component.
    pub open spec fn added(&self, sum: u64, component: u32) -> u64 {
        choose|next: u64| call_ensures(self.with_component, (sum, component), next)
    }

    /// The mean of so many components with a sum.
    pub open spec fn averaged(&self, sum: u64, count: usize) -> u32 {
        choose|result: u32| call_ensures(self.mean, (sum, count), result)
    }

    /// The sum of one component of the vectors of some nodes. A vector without that component adds
    /// nothing.
    pub open spec fn component_sum(
        &self,
        vectors: Map<NodeId, Vec<u32>>,
        nodes: Seq<NodeId>,
        place: int,
    ) -> u64
        decreases nodes.len(),
    {
        if nodes.len() == 0 {
            0
        } else {
            let before = self.component_sum(vectors, nodes.drop_last(), place);
            let vector = vectors[nodes.last()]@;
            if place < vector.len() {
                self.added(before, vector[place])
            } else {
                before
            }
        }
    }

    /// The mean of the vectors of some nodes.
    pub open spec fn centroid(
        &self,
        vectors: Map<NodeId, Vec<u32>>,
        nodes: Seq<NodeId>,
        dim: nat,
    ) -> Seq<u32> {
        Seq::new(
            dim,
            |place: int|
                self.averaged(
                    self.component_sum(vectors, nodes, place),
                    nodes.len() as usize,
                ),
        )
    }

    /// Whether sums are those of the vectors of some nodes.
    spec fn are_sums(
        &self,
        vectors: Map<NodeId, Vec<u32>>,
        nodes: Seq<NodeId>,
        dim: usize,
        sums: (Vec<u64>, usize),
    ) -> bool {
        &&& sums.0@.len() == dim
        &&& sums.1 == nodes.len()
        &&& forall|place: int|
            0 <= place < dim ==> #[trigger] sums.0@[place] == self.component_sum(
                vectors,
                nodes,
                place,
            )
    }

    /// Whether a cluster gets the mean of the vectors of some nodes, or keeps what it had.
    pub open spec fn is_given(
        &self,
        gets: bool,
        vectors: Map<NodeId, Vec<u32>>,
        nodes: Seq<NodeId>,
        dim: nat,
        before: Map<u32, Vec<u32>>,
        after: Map<u32, Vec<u32>>,
        cluster: u32,
    ) -> bool {
        if gets {
            after.contains_key(cluster) && after[cluster]@ == self.centroid(vectors, nodes, dim)
        } else {
            after.contains_key(cluster) == before.contains_key(cluster) && (after.contains_key(
                cluster,
            ) ==> after[cluster] == before[cluster])
        }
    }

    /// Whether centroids are what clusters get: one where it has a node with a vector, and what it
    /// had otherwise.
    pub open spec fn are_centroids(
        &self,
        ids: Seq<NodeId>,
        clusters: Map<NodeId, u32>,
        vectors: Map<NodeId, Vec<u32>>,
        dim: nat,
        before: Map<u32, Vec<u32>>,
        after: Map<u32, Vec<u32>>,
    ) -> bool {
        &&& increasing(ids)
        &&& ids.to_set() == clusters.dom()
        &&& forall|cluster: u32|
            self.is_given(
                (#[trigger] counted(ids, clusters, vectors, cluster, ids.len() as int)).len() > 0,
                vectors,
                counted(ids, clusters, vectors, cluster, ids.len() as int),
                dim,
                before,
                after,
                cluster,
            )
    }

    /// Sums with one more vector.
    fn add_vector(
        &self,
        sums: Option<(Vec<u64>, usize)>,
        vector: &Vec<u32>,
        dim: usize,
        vectors: Ghost<Map<NodeId, Vec<u32>>>,
        nodes: Ghost<Seq<NodeId>>,
        id: Ghost<NodeId>,
    ) -> (next: (Vec<u64>, usize))
        requires
            self.sound(),
            match sums {
                Some(held) => self.are_sums(vectors@, nodes@, dim, held),
                None => nodes@.len() == 0,
            },
            nodes@.len() < usize::MAX,
            vectors@.contains_key(id@),
            vectors@[id@]@ == vector@,
        ensures
            self.are_sums(vectors@, nodes@.push(id@), dim, next),
    {
        let (old_sums, count): (Vec<u64>, usize) = match sums {
            Some(held) => held,
            None => {
                let mut zeros: Vec<u64> = Vec::new();
                while zeros.len() < dim
                    invariant
                        zeros@.len() <= dim,
                        forall|i: int| 0 <= i < zeros@.len() ==> (#[trigger] zeros@[i]) == 0,
                    decreases dim - zeros@.len(),
                {
                    zeros.push(0);
                }
                (zeros, 0)
            },
        };
        assert(nodes@.push(id@).drop_last() =~= nodes@);
        let mut next: Vec<u64> = Vec::new();
        while next.len() < dim
            invariant
                self.sound(),
                old_sums@.len() == dim,
                next@.len() <= dim,
                vectors@[id@]@ == vector@,
                nodes@.push(id@).drop_last() == nodes@,
                forall|place: int|
                    0 <= place < dim ==> #[trigger] old_sums@[place] == self.component_sum(
                        vectors@,
                        nodes@,
                        place,
                    ),
                forall|place: int|
                    0 <= place < next@.len() ==> #[trigger] next@[place] == self.component_sum(
                        vectors@,
                        nodes@.push(id@),
                        place,
                    ),
            decreases dim - next@.len(),
        {
            let place: usize = next.len();
            let sum: u64 = if place < vector.len() {
                (self.with_component)(old_sums[place], vector[place])
            } else {
                old_sums[place]
            };
            next.push(sum);
        }
        (next, count + 1)
    }
}

/// The counted nodes are no more than the nodes.
proof fn lemma_counted_fits(
    ids: Seq<NodeId>,
    clusters: Map<NodeId, u32>,
    vectors: Map<NodeId, Vec<u32>>,
    cluster: u32,
    count: int,
)
    requires
        0 <= count,
    ensures
        counted(ids, clusters, vectors, cluster, count).len() <= count,
    decreases count,
{
    if count > 0 {
        lemma_counted_fits(ids, clusters, vectors, cluster, count - 1);
    }
}

/// Gives each cluster the mean of the vectors of its nodes.
pub fn compute_centroids<A: Fn(u64, u32) -> u64, M: Fn(u64, usize) -> u32>(
    result: &mut LeidenResult,
    vectors: &HashMap<NodeId, Vec<u32>>,
    dim: usize,
    arithmetic: &MeanArithmetic<A, M>,
)
    requires
        arithmetic.sound(),
    ensures
        *final(result) == (LeidenResult { centroids: final(result).centroids, ..*old(result) }),
        exists|ids: Seq<NodeId>| #[trigger]
            arithmetic.are_centroids(
                ids,
                old(result).node_to_cluster@,
                vectors@,
                dim as nat,
                old(result).centroids@,
                final(result).centroids@,
            ),
{
    let ghost start = *result;
    let ghost clusters = result.node_to_cluster@;
    let ids = map_keys(&result.node_to_cluster);
    let mut sums: BTreeMap<u64, (Vec<u64>, usize)> = BTreeMap::new();
    let mut i: usize = 0;
    while i < ids.len()
        invariant
            arithmetic.sound(),
            *result == start,
            clusters == result.node_to_cluster@,
            ids@.to_set() == clusters.dom(),
            i <= ids@.len(),
            forall|key: u64| #[trigger] sums@.contains_key(key) ==> key <= u32::MAX,
            forall|cluster: u32| #[trigger]
                sums@.contains_key(cluster as u64) <==> counted(
                    ids@,
                    clusters,
                    vectors@,
                    cluster,
                    i as int,
                ).len() > 0,
            forall|cluster: u32| #[trigger]
                sums@.contains_key(cluster as u64) ==> arithmetic.are_sums(
                    vectors@,
                    counted(ids@, clusters, vectors@, cluster, i as int),
                    dim,
                    sums@[cluster as u64],
                ),
        decreases ids@.len() - i,
    {
        let id: NodeId = ids[i];
        proof {
            assert(ids@.contains(id));
            assert(ids@.to_set().contains(id));
        }
        let cluster: u32 = *result.node_to_cluster.get(&id).unwrap();
        match vectors.get(&id) {
            Some(vector) => {
                let key: u64 = cluster as u64;
                let ghost before = sums@;
                let ghost nodes = counted(ids@, clusters, vectors@, cluster, i as int);
                proof {
                    lemma_counted_fits(ids@, clusters, vectors@, cluster, i as int);
                    assert(sums@.contains_key(cluster as u64) <==> nodes.len() > 0);
                }
                let held = sums.remove(&key);
                let next = arithmetic.add_vector(
                    held,
                    vector,
                    dim,
                    Ghost(vectors@),
                    Ghost(nodes),
                    Ghost(id),
                );
                sums.insert(key, next);
                proof {
                    assert forall|other: u32| #[trigger]
                        sums@.contains_key(other as u64) <==> counted(
                        ids@,
                        clusters,
                        vectors@,
                        other,
                        i + 1,
                    ).len() > 0 by {
                        assert(before.contains_key(other as u64) <==> counted(
                            ids@,
                            clusters,
                            vectors@,
                            other,
                            i as int,
                        ).len() > 0);
                    }
                    assert forall|other: u32| #[trigger]
                        sums@.contains_key(other as u64) implies arithmetic.are_sums(
                        vectors@,
                        counted(ids@, clusters, vectors@, other, i + 1),
                        dim,
                        sums@[other as u64],
                    ) by {
                        if other != cluster {
                            assert(before.contains_key(other as u64));
                        }
                    }
                }
            },
            None => {
                proof {
                    assert forall|other: u32|
                        counted(ids@, clusters, vectors@, other, i + 1) == #[trigger] counted(
                            ids@,
                            clusters,
                            vectors@,
                            other,
                            i as int,
                        ) by {}
                }
            },
        }
        i += 1;
    }
    let keys = map_keys(&sums);
    let mut k: usize = 0;
    while k < keys.len()
        invariant
            arithmetic.sound(),
            *result == (LeidenResult { centroids: result.centroids, ..start }),
            keys@.to_set() == sums@.dom(),
            increasing(keys@),
            k <= keys@.len(),
            forall|key: u64| #[trigger] sums@.contains_key(key) ==> key <= u32::MAX,
            forall|cluster: u32| #[trigger]
                sums@.contains_key(cluster as u64) ==> arithmetic.are_sums(
                    vectors@,
                    counted(ids@, clusters, vectors@, cluster, ids@.len() as int),
                    dim,
                    sums@[cluster as u64],
                ),
            forall|cluster: u32| #[trigger]
                arithmetic.is_given(
                    keys@.take(k as int).contains(cluster as u64),
                    vectors@,
                    counted(ids@, clusters, vectors@, cluster, ids@.len() as int),
                    dim as nat,
                    start.centroids@,
                    result.centroids@,
                    cluster,
                ),
        decreases keys@.len() - k,
    {
        let key: u64 = keys[k];
        proof {
            assert(keys@.contains(key));
            assert(keys@.to_set().contains(key));
        }
        let cluster: u32 = key as u32;
        let held = sums.get(&key).unwrap();
        let ghost nodes = counted(ids@, clusters, vectors@, cluster, ids@.len() as int);
        assert(sums@.contains_key(cluster as u64));
        let mut mean: Vec<u32> = Vec::new();
        while mean.len() < dim
            invariant
                arithmetic.sound(),
                arithmetic.are_sums(vectors@, nodes, dim, *held),
                mean@.len() <= dim,
                forall|place: int|
                    0 <= place < mean@.len() ==> #[trigger] mean@[place] == arithmetic.centroid(
                        vectors@,
                        nodes,
                        dim as nat,
                    )[place],
            decreases dim - mean@.len(),
        {
            let sum: u64 = held.0[mean.len()];
            let value: u32 = (arithmetic.mean)(sum, held.1);
            mean.push(value);
        }
        assert(mean@ =~= arithmetic.centroid(vectors@, nodes, dim as nat));
        let ghost before = result.centroids@;
        result.centroids.insert(cluster, mean);
        proof {
            assert(keys@.take(k + 1) =~= keys@.take(k as int).push(key));
            assert forall|other: u32| #[trigger]
                arithmetic.is_given(
                    keys@.take(k + 1).contains(other as u64),
                    vectors@,
                    counted(ids@, clusters, vectors@, other, ids@.len() as int),
                    dim as nat,
                    start.centroids@,
                    result.centroids@,
                    other,
                ) by {
                crate::collections::lemma_contains_push(
                    keys@.take(k as int),
                    key,
                    other as u64,
                );
                assert(arithmetic.is_given(
                    keys@.take(k as int).contains(other as u64),
                    vectors@,
                    counted(ids@, clusters, vectors@, other, ids@.len() as int),
                    dim as nat,
                    start.centroids@,
                    before,
                    other,
                ));
            }
        }
        k += 1;
    }
    proof {
        assert(keys@.take(k as int) =~= keys@);
        assert forall|cluster: u32|
            arithmetic.is_given(
                (#[trigger] counted(ids@, clusters, vectors@, cluster, ids@.len() as int)).len()
                    > 0,
                vectors@,
                counted(ids@, clusters, vectors@, cluster, ids@.len() as int),
                dim as nat,
                start.centroids@,
                result.centroids@,
                cluster,
            ) by {
            assert(sums@.contains_key(cluster as u64) <==> keys@.to_set().contains(
                cluster as u64,
            ));
            assert(arithmetic.is_given(
                keys@.contains(cluster as u64),
                vectors@,
                counted(ids@, clusters, vectors@, cluster, ids@.len() as int),
                dim as nat,
                start.centroids@,
                result.centroids@,
                cluster,
            ));
        }
        assert(arithmetic.are_centroids(
            ids@,
            start.node_to_cluster@,
            vectors@,
            dim as nat,
            start.centroids@,
            result.centroids@,
        ));
    }
}

} // verus!
