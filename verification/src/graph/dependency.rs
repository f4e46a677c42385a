//! What the shortest paths from a node contribute to the nodes that they lead through.
use std::collections::BTreeMap;
use vstd::prelude::*;

use crate::collections::lemma_to_set_push;
use crate::graph::betweenness::{
    are_shortest_paths, finds, is_breadth_first, nearer, shortest_paths_from, ShortestPaths,
};
use crate::graph::subset::lemma_closed_reaches;
use crate::graph::walk::{is_distance, lemma_reaches_step, lemma_reaches_transitive, reaches};
use crate::graph::workspace::GraphWorkspace;
use crate::node::NodeId;
use crate::number::{f64_less, spec_f64_less, F64_ONE};

verus! {

/// The arithmetic of betweenness, on double precision bit patterns: the sum of two numbers, what a
/// node gets from one behind it, given the numbers of paths to the two and what the one behind it
/// has, and the score of a value among so many nodes after so many searches.
pub struct PathArithmetic<P, S, N> {
    pub plus: P,
    pub share: S,
    pub score: N,
}

/// The value of a node, zero where it has none.
pub open spec fn value_in(values: Map<NodeId, u64>, id: NodeId) -> u64 {
    if values.contains_key(id) {
        values[id]
    } else {
        0
    }
}

/// The value of a node, zero where it has none.
fn read_value(values: &BTreeMap<NodeId, u64>, id: NodeId) -> (value: u64)
    ensures
        value == value_in(values@, id),
{
    match values.get(&id) {
        Some(value) => *value,
        None => 0,
    }
}

impl<
    P: Fn(u64, u64) -> u64,
    S: Fn(u64, u64, u64) -> u64,
    N: Fn(u64, usize, usize) -> u64,
> PathArithmetic<P, S, N> {
    /// Whether each operation can always be carried out and gives the same for the same operands.
    pub open spec fn sound(&self) -> bool {
        &&& forall|a: u64, b: u64| call_requires(self.plus, (a, b))
        &&& forall|a: u64, b: u64, result: u64|
            call_ensures(self.plus, (a, b), result) ==> result == self.sum(a, b)
        &&& forall|near: u64, far: u64, held: u64| call_requires(self.share, (near, far, held))
        &&& forall|near: u64, far: u64, held: u64, result: u64|
            call_ensures(self.share, (near, far, held), result) ==> result == self.part(
                near,
                far,
                held,
            )
        &&& forall|value: u64, nodes: usize, sources: usize|
            call_requires(self.score, (value, nodes, sources))
        &&& forall|value: u64, nodes: usize, sources: usize, result: u64|
            call_ensures(self.score, (value, nodes, sources), result) ==> result == self.scored(
                value,
                nodes,
                sources,
            )
    }

    /// The sum of two numbers.
    pub open spec fn sum(&self, a: u64, b: u64) -> u64 {
        choose|result: u64| call_ensures(self.plus, (a, b), result)
    }

    /// What a node gets from one behind it.
    pub open spec fn part(&self, near: u64, far: u64, held: u64) -> u64 {
        choose|result: u64| call_ensures(self.share, (near, far, held), result)
    }

    /// The score of a value.
    pub open spec fn scored(&self, value: u64, nodes: usize, sources: usize) -> u64 {
        choose|result: u64| call_ensures(self.score, (value, nodes, sources), result)
    }

    /// The sum of the values of the first `count` nodes of a list.
    pub open spec fn gathered(&self, values: Map<NodeId, u64>, list: Seq<NodeId>, count: int) -> u64
        decreases count,
    {
        if count <= 0 {
            0
        } else {
            self.sum(self.gathered(values, list, count - 1), value_in(values, list[count - 1]))
        }
    }

    /// How many shortest paths lead to each of the first `count` nodes: one to the source, and to
    /// every other node as many as to the nodes before it together.
    pub open spec fn path_counts(&self, paths: ShortestPaths, count: int) -> Map<NodeId, u64>
        decreases count,
    {
        if count <= 0 {
            Map::empty()
        } else {
            let before = self.path_counts(paths, count - 1);
            let list = paths.predecessors@[count - 1]@;
            before.insert(
                paths.order@[count - 1],
                if count == 1 {
                    F64_ONE
                } else {
                    self.gathered(before, list, list.len() as int)
                },
            )
        }
    }

    /// What is held after the first `count` nodes before `far` got their parts.
    pub open spec fn spread(
        &self,
        held: Map<NodeId, u64>,
        counts: Map<NodeId, u64>,
        far: NodeId,
        list: Seq<NodeId>,
        count: int,
    ) -> Map<NodeId, u64>
        decreases count,
    {
        if count <= 0 {
            held
        } else {
            let before = self.spread(held, counts, far, list, count - 1);
            let near = list[count - 1];
            before.insert(
                near,
                self.sum(
                    value_in(before, near),
                    self.part(
                        value_in(counts, near),
                        value_in(counts, far),
                        value_in(before, far),
                    ),
                ),
            )
        }
    }

    /// What the nodes hold after those from `place` on, the farthest first, have given parts to
    /// the nodes before them.
    pub open spec fn held_from(
        &self,
        paths: ShortestPaths,
        counts: Map<NodeId, u64>,
        place: int,
    ) -> Map<NodeId, u64>
        decreases paths.order@.len() - place,
    {
        if place < 0 || place >= paths.order@.len() {
            Map::empty()
        } else {
            let later = self.held_from(paths, counts, place + 1);
            let far = paths.order@[place];
            let list = paths.predecessors@[place]@;
            if spec_f64_less(0, value_in(counts, far)) {
                self.spread(later, counts, far, list, list.len() as int)
            } else {
                later
            }
        }
    }

    /// What the shortest paths contribute to the nodes that they reach, other than the source.
    pub open spec fn dependencies(&self, paths: ShortestPaths) -> Map<NodeId, u64> {
        let counts = self.path_counts(paths, paths.order@.len() as int);
        let held = self.held_from(paths, counts, 0);
        Map::new(
            |id: NodeId| paths.order@.contains(id) && id != paths.order@[0],
            |id: NodeId| value_in(held, id),
        )
    }

    /// Values with contributions added.
    pub open spec fn added(&self, values: Map<NodeId, u64>, parts: Map<NodeId, u64>) -> Map<
        NodeId,
        u64,
    > {
        Map::new(
            |id: NodeId| values.contains_key(id),
            |id: NodeId|
                if parts.contains_key(id) {
                    self.sum(values[id], parts[id])
                } else {
                    values[id]
                },
        )
    }

    /// The values of all nodes after some searches, zero at first.
    pub open spec fn values_after(
        &self,
        nodes: Set<NodeId>,
        parts: Seq<Map<NodeId, u64>>,
        count: int,
    ) -> Map<NodeId, u64>
        decreases count,
    {
        if count <= 0 {
            Map::new(|id: NodeId| nodes.contains(id), |id: NodeId| 0u64)
        } else {
            self.added(self.values_after(nodes, parts, count - 1), parts[count - 1])
        }
    }

    /// How many shortest paths lead to each node.
    fn count_paths(&self, paths: &ShortestPaths) -> (counts: BTreeMap<NodeId, u64>)
        requires
            self.sound(),
            paths.predecessors@.len() == paths.order@.len(),
        ensures
            counts@ == self.path_counts(*paths, paths.order@.len() as int),
    {
        let mut counts: BTreeMap<NodeId, u64> = BTreeMap::new();
        let mut i: usize = 0;
        assert(counts@ =~= self.path_counts(*paths, 0));
        while i < paths.order.len()
            invariant
                self.sound(),
                paths.predecessors@.len() == paths.order@.len(),
                i <= paths.order@.len(),
                counts@ == self.path_counts(*paths, i as int),
            decreases paths.order@.len() - i,
        {
            let list = &paths.predecessors[i];
            let mut sum: u64 = 0;
            let mut j: usize = 0;
            while j < list.len()
                invariant
                    self.sound(),
                    j <= list@.len(),
                    sum == self.gathered(counts@, list@, j as int),
                decreases list@.len() - j,
            {
                sum = (self.plus)(sum, read_value(&counts, list[j]));
                j += 1;
            }
            let number: u64 = if i == 0 {
                F64_ONE
            } else {
                sum
            };
            counts.insert(paths.order[i], number);
            i += 1;
        }
        counts
    }

    /// What the shortest paths contribute to the nodes that they reach, other than the source.
    fn find_dependencies(&self, paths: &ShortestPaths) -> (parts: BTreeMap<NodeId, u64>)
        requires
            self.sound(),
            paths.order@.len() > 0,
            paths.order@.no_duplicates(),
            paths.predecessors@.len() == paths.order@.len(),
        ensures
            parts@ == self.dependencies(*paths),
    {
        let counts = self.count_paths(paths);
        let mut held: BTreeMap<NodeId, u64> = BTreeMap::new();
        let mut place: usize = paths.order.len();
        assert(held@ =~= self.held_from(*paths, counts@, place as int));
        while place > 0
            invariant
                self.sound(),
                paths.predecessors@.len() == paths.order@.len(),
                place <= paths.order@.len(),
                held@ == self.held_from(*paths, counts@, place as int),
            decreases place,
        {
            place -= 1;
            let far: NodeId = paths.order[place];
            let list = &paths.predecessors[place];
            let ghost later = held@;
            let number: u64 = read_value(&counts, far);
            if f64_less(0, number) {
                let mut j: usize = 0;
                while j < list.len()
                    invariant
                        self.sound(),
                        j <= list@.len(),
                        number == value_in(counts@, far),
                        held@ == self.spread(later, counts@, far, list@, j as int),
                    decreases list@.len() - j,
                {
                    let near: NodeId = list[j];
                    let part: u64 = (self.share)(
                        read_value(&counts, near),
                        number,
                        read_value(&held, far),
                    );
                    let sum: u64 = (self.plus)(read_value(&held, near), part);
                    held.insert(near, sum);
                    j += 1;
                }
            }
        }
        let mut parts: BTreeMap<NodeId, u64> = BTreeMap::new();
        let mut i: usize = 1;
        let ghost order = paths.order@;
        assert(parts@.dom() =~= order.subrange(1, 1).to_set());
        while i < paths.order.len()
            invariant
                1 <= i <= paths.order@.len(),
                order == paths.order@,
                parts@.dom() == order.subrange(1, i as int).to_set(),
                forall|id: NodeId| #[trigger]
                    parts@.contains_key(id) ==> parts@[id] == value_in(held@, id),
            decreases paths.order@.len() - i,
        {
            let id: NodeId = paths.order[i];
            let part: u64 = read_value(&held, id);
            parts.insert(id, part);
            proof {
                let few = order.subrange(1, i as int);
                assert(order.subrange(1, i + 1) =~= few.push(id));
                lemma_to_set_push(few, id);
                assert(parts@.dom() =~= order.subrange(1, i + 1).to_set());
            }
            i += 1;
        }
        proof {
            let rest = order.subrange(1, i as int);
            assert forall|id: NodeId| rest.to_set().contains(id) <==> order.contains(id) && id
                != order[0] by {
                if rest.contains(id) {
                    let k = choose|k: int| 0 <= k < rest.len() && rest[k] == id;
                    assert(order[k + 1] == id);
                }
                if order.contains(id) && id != order[0] {
                    let k = choose|k: int| 0 <= k < order.len() && order[k] == id;
                    assert(rest[k - 1] == id);
                }
            }
            assert(parts@ =~= self.dependencies(*paths));
        }
        parts
    }

    /// Whether `parts` are what the shortest paths from a node contribute.
    pub open spec fn are_parts(
        &self,
        graph: &GraphWorkspace,
        source: NodeId,
        parts: Map<NodeId, u64>,
    ) -> bool {
        exists|paths: ShortestPaths| #[trigger]
            are_shortest_paths(graph, source, paths) && parts == self.dependencies(paths)
    }

    /// What these shortest paths from a node contribute.
    pub(crate) fn parts_of(
        &self,
        graph: &GraphWorkspace,
        source: NodeId,
        paths: &ShortestPaths,
    ) -> (parts: BTreeMap<NodeId, u64>)
        requires
            self.sound(),
            are_shortest_paths(graph, source, *paths),
        ensures
            self.are_parts(graph, source, parts@),
    {
        self.find_dependencies(paths)
    }

    /// What the shortest paths from a node contribute.
    pub fn parts_from(&self, graph: &GraphWorkspace, source: NodeId) -> (parts: BTreeMap<
        NodeId,
        u64,
    >)
        requires
            self.sound(),
            graph.well_formed(),
            graph.nodes().contains(source),
        ensures
            self.are_parts(graph, source, parts@),
    {
        let paths = shortest_paths_from(graph, source);
        self.parts_of(graph, source, &paths)
    }

    /// Adds contributions to the values of some nodes.
    pub(crate) fn take_in(
        &self,
        ids: &Vec<NodeId>,
        values: &BTreeMap<NodeId, u64>,
        parts: &BTreeMap<NodeId, u64>,
    ) -> (next: BTreeMap<NodeId, u64>)
        requires
            self.sound(),
            values@.dom() == ids@.to_set(),
        ensures
            next@ == self.added(values@, parts@),
            next@.dom() == ids@.to_set(),
    {
        let mut next: BTreeMap<NodeId, u64> = BTreeMap::new();
        let mut i: usize = 0;
        let ghost wanted = self.added(values@, parts@);
        assert(next@.dom() =~= ids@.take(0).to_set());
        while i < ids.len()
            invariant
                self.sound(),
                values@.dom() == ids@.to_set(),
                wanted == self.added(values@, parts@),
                i <= ids@.len(),
                next@.dom() == ids@.take(i as int).to_set(),
                forall|id: NodeId| #[trigger] next@.contains_key(id) ==> next@[id] == wanted[id],
            decreases ids@.len() - i,
        {
            let id: NodeId = ids[i];
            proof {
                assert(ids@.contains(id));
                assert(ids@.to_set().contains(id));
            }
            let value: u64 = *values.get(&id).unwrap();
            let sum: u64 = match parts.get(&id) {
                Some(part) => (self.plus)(value, *part),
                None => value,
            };
            next.insert(id, sum);
            proof {
                assert(ids@.take(i + 1) =~= ids@.take(i as int).push(id));
                lemma_to_set_push(ids@.take(i as int), id);
                assert(next@.dom() =~= ids@.take(i + 1).to_set());
            }
            i += 1;
        }
        assert(ids@.take(i as int) =~= ids@);
        assert(next@ =~= wanted);
        next
    }
}

/// A node is found by one before it.
proof fn lemma_found_before(
    graph: &GraphWorkspace,
    source: NodeId,
    order: Seq<NodeId>,
    by: Seq<int>,
    k: int,
)
    requires
        is_breadth_first(graph, source, order),
        finds(graph, order, by),
        0 < k < order.len(),
    ensures
        by[k] < k,
{
    if by[k] >= k {
        let among = Set::new(|id: NodeId| order.take(k).contains(id));
        let steps = graph.steps();
        assert forall|a: NodeId, b: NodeId|
            among.contains(a) && #[trigger] steps(a, b) implies among.contains(b) by {
            let u = choose|u: int| 0 <= u < k && order.take(k)[u] == a;
            assert(order[u] == a);
            assert(order.contains(order[u]));
            assert(reaches(steps, source, a));
            lemma_reaches_step(steps, a, b);
            lemma_reaches_transitive(steps, source, a, b);
            assert(order.contains(b));
            let l = choose|l: int| 0 <= l < order.len() && order[l] == b;
            if l >= k {
                if l > k {
                    assert(by[k] < by[l] || (by[k] == by[l] && order[k] < order[l]));
                }
                assert(by[l] >= k);
                assert(order[u] == a);
                assert(!graph.has(order[u], order[l]));
                assert(graph.has(a, b));
            }
            assert(order.take(k)[l] == b);
        }
        assert(order.take(k)[0] == source);
        assert(among.contains(source));
        assert(order.contains(order[k]));
        lemma_closed_reaches(steps, among, source, order[k]);
        let j = choose|j: int| 0 <= j < k && order.take(k)[j] == order[k];
        assert(order[j] == order[k]);
    }
}

/// A breadth first search visits the nodes in one order: the first nodes are the same.
proof fn lemma_order_agrees(
    graph: &GraphWorkspace,
    source: NodeId,
    one: Seq<NodeId>,
    by_one: Seq<int>,
    other: Seq<NodeId>,
    by_other: Seq<int>,
    count: int,
)
    requires
        is_breadth_first(graph, source, one),
        finds(graph, one, by_one),
        is_breadth_first(graph, source, other),
        finds(graph, other, by_other),
        0 <= count <= one.len(),
        one.len() == other.len(),
    ensures
        forall|i: int| 0 <= i < count ==> #[trigger] one[i] == other[i],
    decreases count,
{
    if count > 0 {
        let k = count - 1;
        lemma_order_agrees(graph, source, one, by_one, other, by_other, k);
        if k > 0 && one[k] != other[k] {
            let x = one[k];
            let y = other[k];
            lemma_found_before(graph, source, one, by_one, k);
            lemma_found_before(graph, source, other, by_other, k);
            assert(one.contains(x));
            assert(reaches(graph.steps(), source, x));
            assert(other.contains(x));
            assert(other.contains(y));
            assert(reaches(graph.steps(), source, y));
            assert(one.contains(y));
            let l = choose|l: int| 0 <= l < other.len() && other[l] == x;
            let m = choose|m: int| 0 <= m < one.len() && one[m] == y;
            if l < k {
                assert(one[l] == other[l]);
            }
            if m < k {
                assert(one[m] == other[m]);
            }
            assert(l > k && m > k);
            let a = by_one[k];
            let b = by_other[k];
            lemma_finder_agrees(graph, one, by_one, k, other, by_other, l);
            lemma_finder_agrees(graph, other, by_other, k, one, by_one, m);
            assert(by_other[k] < by_other[l] || (by_other[k] == by_other[l] && other[k]
                < other[l]));
            assert(by_one[k] < by_one[m] || (by_one[k] == by_one[m] && one[k] < one[m]));
        }
    }
}

/// A node has the same finder in two orders that begin alike.
proof fn lemma_finder_agrees(
    graph: &GraphWorkspace,
    one: Seq<NodeId>,
    by_one: Seq<int>,
    k: int,
    other: Seq<NodeId>,
    by_other: Seq<int>,
    l: int,
)
    requires
        finds(graph, one, by_one),
        finds(graph, other, by_other),
        0 < k < one.len(),
        k < l < other.len(),
        one[k] == other[l],
        by_one[k] < k,
        one.len() == other.len(),
        forall|i: int| 0 <= i < k ==> #[trigger] one[i] == other[i],
    ensures
        by_other[l] == by_one[k],
{
    let a = by_one[k];
    let b = by_other[l];
    assert(graph.has(one[a], one[k]));
    assert(one[a] == other[a]);
    if a < b {
        assert(!graph.has(other[a], other[l]));
    }
    if b < a {
        assert(graph.has(other[b], other[l]));
        assert(one[b] == other[b]);
        assert(!graph.has(one[b], one[k]));
    }
}

/// Whether two records of shortest paths hold the same.
spec fn same_paths(a: ShortestPaths, b: ShortestPaths) -> bool {
    &&& a.order@ == b.order@
    &&& a.predecessors@.len() == a.order@.len()
    &&& b.predecessors@.len() == a.order@.len()
    &&& forall|k: int|
        0 <= k < a.order@.len() ==> (#[trigger] a.predecessors@[k])@ == b.predecessors@[k]@
}

/// The shortest paths from a node are determined.
proof fn lemma_paths_agree(
    graph: &GraphWorkspace,
    source: NodeId,
    a: ShortestPaths,
    b: ShortestPaths,
)
    requires
        are_shortest_paths(graph, source, a),
        are_shortest_paths(graph, source, b),
    ensures
        same_paths(a, b),
{
    let one = a.order@;
    let other = b.order@;
    let by_one = choose|by: Seq<int>| finds(graph, one, by);
    let by_other = choose|by: Seq<int>| finds(graph, other, by);
    assert(one.to_set() =~= other.to_set()) by {
        assert forall|id: NodeId| one.to_set().contains(id) <==> other.to_set().contains(id) by {
            assert(one.contains(id) <==> reaches(graph.steps(), source, id));
            assert(other.contains(id) <==> reaches(graph.steps(), source, id));
        }
    }
    one.unique_seq_to_set();
    other.unique_seq_to_set();
    lemma_order_agrees(graph, source, one, by_one, other, by_other, one.len() as int);
    assert(one =~= other);
    assert forall|k: int| 0 <= k < one.len() implies a.levels@[k] == b.levels@[k] by {
        assert(is_distance(graph.steps(), source, one[k], a.levels@[k] as nat));
        assert(is_distance(graph.steps(), source, other[k], b.levels@[k] as nat));
    }
    assert(a.levels@ =~= b.levels@);
    assert forall|k: int| 0 <= k < one.len() implies (#[trigger] a.predecessors@[k])@
        == b.predecessors@[k]@ by {
        assert(one[k] == other[k]);
        assert(b.predecessors@[k]@ == nearer(
            graph,
            other,
            b.levels@,
            other[k],
            b.levels@[k],
            other.len() as int,
        ));
    }
}

impl<
    P: Fn(u64, u64) -> u64,
    S: Fn(u64, u64, u64) -> u64,
    N: Fn(u64, usize, usize) -> u64,
> PathArithmetic<P, S, N> {
    /// Records that hold the same give the same numbers of paths.
    proof fn lemma_counts_agree(&self, a: ShortestPaths, b: ShortestPaths, count: int)
        requires
            same_paths(a, b),
            count <= a.order@.len(),
        ensures
            self.path_counts(a, count) == self.path_counts(b, count),
        decreases count,
    {
        if count > 0 {
            self.lemma_counts_agree(a, b, count - 1);
            assert(a.predecessors@[count - 1]@ == b.predecessors@[count - 1]@);
        }
    }

    /// Records that hold the same give the same parts.
    proof fn lemma_held_agree(
        &self,
        a: ShortestPaths,
        b: ShortestPaths,
        counts: Map<NodeId, u64>,
        place: int,
    )
        requires
            same_paths(a, b),
            0 <= place <= a.order@.len(),
        ensures
            self.held_from(a, counts, place) == self.held_from(b, counts, place),
        decreases a.order@.len() - place,
    {
        if place < a.order@.len() {
            self.lemma_held_agree(a, b, counts, place + 1);
            assert(a.predecessors@[place]@ == b.predecessors@[place]@);
        }
    }

    /// What the shortest paths from a node contribute is determined.
    pub proof fn lemma_parts_agree(
        &self,
        graph: &GraphWorkspace,
        source: NodeId,
        one: Map<NodeId, u64>,
        other: Map<NodeId, u64>,
    )
        requires
            self.are_parts(graph, source, one),
            self.are_parts(graph, source, other),
        ensures
            one == other,
    {
        let a = choose|paths: ShortestPaths| #[trigger]
            are_shortest_paths(graph, source, paths) && one == self.dependencies(paths);
        let b = choose|paths: ShortestPaths| #[trigger]
            are_shortest_paths(graph, source, paths) && other == self.dependencies(paths);
        lemma_paths_agree(graph, source, a, b);
        self.lemma_counts_agree(a, b, a.order@.len() as int);
        let counts = self.path_counts(a, a.order@.len() as int);
        self.lemma_held_agree(a, b, counts, 0);
        assert(one =~= other);
    }
}

} // verus!
