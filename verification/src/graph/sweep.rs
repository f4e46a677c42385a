//! The course of a breadth-first search that records depths only: in which order nodes are found,
//! and which bound ends it.
use vstd::prelude::*;

use crate::collections::increasing;
use crate::graph::compact::{edges_message, frontier_message, results_message, visited_message};
use crate::graph::reachability::{can_step, ReachabilityConfig};
use crate::node::NodeId;
use crate::storage::memtable::Table;
use crate::vector::VectorType;

verus! {

/// A bound of a query.
pub enum Bound {
    Edges,
    Visits,
    Results,
    Frontier,
}

/// The message that reports a bound.
pub open spec fn bound_message(bound: Bound) -> Seq<char> {
    match bound {
        Bound::Edges => edges_message(),
        Bound::Visits => visited_message(),
        Bound::Results => results_message(),
        Bound::Frontier => frontier_message(),
    }
}

/// How far a search has come: the nodes found with their depths, in the order in which they were
/// found, the number of nodes that wait to be expanded, and the number of targets looked at.
pub ghost struct Sweep {
    pub found: Seq<(NodeId, nat)>,
    pub waiting: nat,
    pub edges: nat,
    pub stop: Option<Bound>,
}

/// Whether a node has been found.
pub open spec fn is_found(found: Seq<(NodeId, nat)>, id: NodeId) -> bool {
    exists|i: int| 0 <= i < found.len() && (#[trigger] found[i]).0 == id
}

/// The number of nodes that are deep enough.
pub open spec fn deep_count(config: ReachabilityConfig, found: Seq<(NodeId, nat)>) -> nat
    decreases found.len(),
{
    if found.len() == 0 {
        0
    } else {
        deep_count(config, found.drop_last()) + if found.last().1 >= config.min_depth {
            1nat
        } else {
            0
        }
    }
}

impl Sweep {
    /// A search that has found its source only.
    pub open spec fn start(source: NodeId) -> Sweep {
        Sweep { found: seq![(source, 0nat)], waiting: 1, edges: 0, stop: None }
    }

    /// One target of a node at this depth. A bound that is reached ends the search: on targets
    /// before the target is looked at, on nodes before a new node is recorded, on results before
    /// it is reported, and on waiting nodes before it is put among them.
    pub open spec fn after_target(
        self,
        config: ReachabilityConfig,
        depth: nat,
        to: NodeId,
    ) -> Sweep {
        let found = self.found.push((to, depth + 1));
        if self.stop is Some {
            self
        } else if self.edges >= config.max_edges {
            Sweep { stop: Some(Bound::Edges), ..self }
        } else if is_found(self.found, to) {
            Sweep { edges: self.edges + 1, ..self }
        } else if self.found.len() >= config.max_visited_nodes {
            Sweep { edges: self.edges + 1, stop: Some(Bound::Visits), ..self }
        } else if depth + 1 >= config.min_depth && deep_count(config, self.found)
            >= config.max_results {
            Sweep { found, edges: self.edges + 1, stop: Some(Bound::Results), ..self }
        } else if self.waiting >= config.max_frontier_size {
            Sweep { found, edges: self.edges + 1, stop: Some(Bound::Frontier), ..self }
        } else {
            Sweep { found, waiting: self.waiting + 1, edges: self.edges + 1, stop: None }
        }
    }

    /// The first `count` targets of a node at this depth.
    pub open spec fn after_targets(
        self,
        config: ReachabilityConfig,
        depth: nat,
        targets: Seq<NodeId>,
        count: nat,
    ) -> Sweep
        decreases count,
    {
        if count == 0 {
            self
        } else {
            self.after_targets(config, depth, targets, (count - 1) as nat).after_target(
                config,
                depth,
                targets[count - 1],
            )
        }
    }

    /// The next waiting node is taken out.
    pub open spec fn popped(self) -> Sweep {
        Sweep { waiting: (self.waiting - 1) as nat, ..self }
    }
}

/// The search after the first `count` nodes found have been expanded to these targets.
pub open spec fn sweep_after(
    config: ReachabilityConfig,
    source: NodeId,
    lists: Seq<Seq<NodeId>>,
    count: nat,
) -> Sweep
    decreases count,
{
    if count == 0 {
        Sweep::start(source)
    } else {
        let before = sweep_after(config, source, lists, (count - 1) as nat);
        before.popped().after_targets(
            config,
            before.found[count - 1].1,
            lists[count - 1],
            lists[count - 1].len(),
        )
    }
}

/// Whether `targets` are those to look at from a node: none at the depth bound, and all in
/// ascending order above it.
pub open spec fn are_targets_of<T: VectorType>(
    table: Table<T>,
    config: ReachabilityConfig,
    node: (NodeId, nat),
    targets: Seq<NodeId>,
) -> bool {
    if node.1 < config.max_depth {
        increasing(targets) && forall|to: NodeId| #[trigger]
            targets.contains(to) <==> can_step(table, config, node.0, to)
    } else {
        targets.len() == 0
    }
}

/// Whether the first nodes found are expanded in turn to these targets, before any bound ends the
/// search.
pub open spec fn is_sweeping<T: VectorType>(
    table: Table<T>,
    config: ReachabilityConfig,
    source: NodeId,
    lists: Seq<Seq<NodeId>>,
) -> bool {
    forall|k: int|
        0 <= k < lists.len() ==> {
            let before = sweep_after(config, source, lists, k as nat);
            &&& before.stop is None
            &&& k < before.found.len()
            &&& are_targets_of(table, config, before.found[k], #[trigger] lists[k])
        }
}

/// Whether a search goes this way: nodes are expanded in the order in which they are found, until
/// a bound is reached or every node found is expanded.
pub open spec fn is_sweep<T: VectorType>(
    table: Table<T>,
    config: ReachabilityConfig,
    source: NodeId,
    sweep: Sweep,
) -> bool {
    exists|lists: Seq<Seq<NodeId>>| #[trigger]
        is_sweeping(table, config, source, lists) && sweep == sweep_after(
            config,
            source,
            lists,
            lists.len(),
        ) && (sweep.stop is Some || sweep.found.len() == lists.len())
}

/// Once a bound is reached, no target changes anything.
proof fn lemma_stopped(
    sweep: Sweep,
    config: ReachabilityConfig,
    depth: nat,
    targets: Seq<NodeId>,
    count: nat,
    more: nat,
)
    requires
        count <= more,
        sweep.after_targets(config, depth, targets, count).stop is Some,
    ensures
        sweep.after_targets(config, depth, targets, more) == sweep.after_targets(
            config,
            depth,
            targets,
            count,
        ),
    decreases more,
{
    if count < more {
        lemma_stopped(sweep, config, depth, targets, count, (more - 1) as nat);
    }
}

/// One more list of targets does not change the search before it.
proof fn lemma_sweep_prefix(
    config: ReachabilityConfig,
    source: NodeId,
    lists: Seq<Seq<NodeId>>,
    list: Seq<NodeId>,
    count: nat,
)
    requires
        count <= lists.len(),
    ensures
        sweep_after(config, source, lists.push(list), count) == sweep_after(
            config,
            source,
            lists,
            count,
        ),
    decreases count,
{
    if count > 0 {
        lemma_sweep_prefix(config, source, lists, list, (count - 1) as nat);
    }
}

/// One more node is expanded.
pub proof fn lemma_sweeping<T: VectorType>(
    table: Table<T>,
    config: ReachabilityConfig,
    source: NodeId,
    lists: Seq<Seq<NodeId>>,
    list: Seq<NodeId>,
)
    requires
        is_sweeping(table, config, source, lists),
        sweep_after(config, source, lists, lists.len()).stop is None,
        lists.len() < sweep_after(config, source, lists, lists.len()).found.len(),
        are_targets_of(
            table,
            config,
            sweep_after(config, source, lists, lists.len()).found[lists.len() as int],
            list,
        ),
    ensures
        is_sweeping(table, config, source, lists.push(list)),
        ({
            let before = sweep_after(config, source, lists, lists.len());
            sweep_after(config, source, lists.push(list), lists.len() + 1)
                == before.popped().after_targets(
                config,
                before.found[lists.len() as int].1,
                list,
                list.len(),
            )
        }),
{
    let more = lists.push(list);
    lemma_sweep_prefix(config, source, lists, list, lists.len());
    assert forall|k: int| 0 <= k < more.len() implies {
        let before = sweep_after(config, source, more, k as nat);
        &&& before.stop is None
        &&& k < before.found.len()
        &&& are_targets_of(table, config, before.found[k], #[trigger] more[k])
    } by {
        lemma_sweep_prefix(config, source, lists, list, k as nat);
        if k < lists.len() {
            assert(more[k] == lists[k]);
        }
    }
}

/// A bound that is reached while a node is expanded ends the search.
pub proof fn lemma_sweep_stops<T: VectorType>(
    table: Table<T>,
    config: ReachabilityConfig,
    source: NodeId,
    lists: Seq<Seq<NodeId>>,
    list: Seq<NodeId>,
    count: nat,
)
    requires
        is_sweeping(table, config, source, lists),
        sweep_after(config, source, lists, lists.len()).stop is None,
        lists.len() < sweep_after(config, source, lists, lists.len()).found.len(),
        are_targets_of(
            table,
            config,
            sweep_after(config, source, lists, lists.len()).found[lists.len() as int],
            list,
        ),
        count <= list.len(),
        sweep_after(config, source, lists, lists.len()).popped().after_targets(
            config,
            sweep_after(config, source, lists, lists.len()).found[lists.len() as int].1,
            list,
            count,
        ).stop is Some,
    ensures
        is_sweep(
            table,
            config,
            source,
            sweep_after(config, source, lists, lists.len()).popped().after_targets(
                config,
                sweep_after(config, source, lists, lists.len()).found[lists.len() as int].1,
                list,
                count,
            ),
        ),
{
    let before = sweep_after(config, source, lists, lists.len());
    lemma_sweeping(table, config, source, lists, list);
    lemma_stopped(
        before.popped(),
        config,
        before.found[lists.len() as int].1,
        list,
        count,
        list.len(),
    );
    assert(is_sweeping(table, config, source, lists.push(list)));
}

/// What one more node adds.
pub proof fn lemma_node_found(
    config: ReachabilityConfig,
    found: Seq<(NodeId, nat)>,
    node: (NodeId, nat),
)
    ensures
        deep_count(config, found.push(node)) == deep_count(config, found) + if node.1
            >= config.min_depth {
            1nat
        } else {
            0
        },
        forall|id: NodeId| #[trigger]
            is_found(found.push(node), id) <==> is_found(found, id) || id == node.0,
{
    let more = found.push(node);
    assert(more.drop_last() =~= found);
    assert forall|id: NodeId| #[trigger] is_found(more, id) <==> is_found(found, id) || id
        == node.0 by {
        if is_found(found, id) {
            let i = choose|i: int| 0 <= i < found.len() && (#[trigger] found[i]).0 == id;
            assert(more[i].0 == id);
        }
        assert(more[found.len() as int] == node);
        if is_found(more, id) && id != node.0 {
            let i = choose|i: int| 0 <= i < more.len() && (#[trigger] more[i]).0 == id;
            assert(found[i].0 == id);
        }
    }
}

} // verus!
