//! Reachability layer by layer, on bitmaps, in pieces that can be expanded independently.
//!
//! A layer is the list of nodes at one distance. Its nodes are expanded in chunks, each into a
//! bitmap of its own; the bitmaps are merged before anything is recorded. How a layer is cut
//! into chunks, and in which order the chunks are expanded, does not show in the result.
use vstd::prelude::*;

use crate::collections::{increasing, lemma_increasing_distinct};
use crate::error::{is_query_execution, query_execution, Result, TriviumError};
use crate::graph::compact::{
    collect_targets, compact_covers, hit_reported, hits_complete, hits_sound, is_compact_answer,
    is_compact_refusal, is_edge_total, lemma_compact_answer, lemma_hit_targets, lemma_reach_sets,
    lemma_targets_insert, lemma_targets_none, lemma_too_many, lemma_total_covers,
    lemma_within_in_table, reach_set, saturated, target_count, targets_of, wanted_set,
    CompactReachabilityOutput, ReachabilityHit,
};
use crate::graph::reachability::{
    can_step, is_query_fault, is_reach, is_wanted, lemma_can_step_in_table, reach_steps,
    valid_config, validate, ReachabilityConfig,
};
use crate::graph::rounds::{ball, sphere};
use crate::graph::sweep::{bound_message, Bound};
use crate::graph::walk::{
    closed_below, is_distance, lemma_closed_below, lemma_within_grows, lemma_within_step, within,
};
use crate::node::NodeId;
use crate::sorting::{sort_items, views, SortItem};
use crate::storage::memtable::{MemTable, Table};
use crate::vector::VectorType;

verus! {

/// Whether the bit of a slot is set.
pub open spec fn bit(words: Seq<u64>, slot: int) -> bool {
    (words[slot / 64] >> ((slot % 64) as u64)) & 1u64 == 1u64
}

/// Setting one bit of a word leaves the others alone.
proof fn lemma_set_bit(word: u64, i: u64, j: u64)
    requires
        i < 64,
        j < 64,
    ensures
        ((word | (1u64 << i)) >> j) & 1u64 == 1u64 <==> (i == j || (word >> j) & 1u64 == 1u64),
{
    assert(((word | (1u64 << i)) >> j) & 1u64 == 1u64 <==> (i == j || (word >> j) & 1u64 == 1u64))
        by (bit_vector)
        requires
            i < 64,
            j < 64,
    ;
}

/// The union of two words has the bits of both.
proof fn lemma_or_bit(a: u64, b: u64, j: u64)
    requires
        j < 64,
    ensures
        ((a | b) >> j) & 1u64 == 1u64 <==> ((a >> j) & 1u64 == 1u64 || (b >> j) & 1u64 == 1u64),
{
    assert(((a | b) >> j) & 1u64 == 1u64 <==> ((a >> j) & 1u64 == 1u64 || (b >> j) & 1u64 == 1u64))
        by (bit_vector)
        requires
            j < 64,
    ;
}

/// Sets the bit of a slot.
fn set_bit(words: &mut Vec<u64>, slot: usize)
    requires
        slot / 64 < old(words)@.len(),
    ensures
        final(words)@.len() == old(words)@.len(),
        forall|other: int|
            0 <= other < 64 * old(words)@.len() ==> (#[trigger] bit(final(words)@, other) <==> (bit(
                old(words)@,
                other,
            ) || other == slot)),
{
    let ghost before = words@;
    let at: usize = slot / 64;
    let word: u64 = words[at];
    let set: u64 = word | (1u64 << ((slot % 64) as u64));
    words.set(at, set);
    proof {
        assert forall|other: int| 0 <= other < 64 * before.len() implies (#[trigger] bit(
            words@,
            other,
        ) <==> (bit(before, other) || other == slot)) by {
            if other / 64 == at {
                lemma_set_bit(word, (slot % 64) as u64, (other % 64) as u64);
                assert(other == 64 * (other / 64) + other % 64);
                assert(slot == 64 * (slot / 64) + slot % 64);
            }
        }
    }
}

/// Whether the bit of a slot is set.
fn test_bit(words: &Vec<u64>, slot: usize) -> (result: bool)
    requires
        slot / 64 < words@.len(),
    ensures
        result == bit(words@, slot as int),
{
    (words[slot / 64] >> ((slot % 64) as u64)) & 1u64 == 1u64
}

/// Words without any bit.
fn no_bits(count: usize) -> (words: Vec<u64>)
    ensures
        words@.len() == count,
        forall|slot: int| 0 <= slot < 64 * count ==> !#[trigger] bit(words@, slot),
{
    let mut words: Vec<u64> = Vec::new();
    let mut i: usize = 0;
    while i < count
        invariant
            i <= count,
            words@.len() == i,
            forall|j: int| 0 <= j < i ==> words@[j] == 0u64,
        decreases count - i,
    {
        words.push(0);
        i += 1;
    }
    proof {
        assert forall|slot: int| 0 <= slot < 64 * count implies !#[trigger] bit(words@, slot) by {
            let j = (slot % 64) as u64;
            assert(words@[slot / 64] == 0u64);
            assert((0u64 >> j) & 1u64 != 1u64) by (bit_vector)
                requires
                    j < 64,
            ;
        }
    }
    words
}

/// Adds the bits of `source` to `target`.
fn merge_bits(target: &mut Vec<u64>, source: &Vec<u64>)
    requires
        old(target)@.len() == source@.len(),
    ensures
        final(target)@.len() == old(target)@.len(),
        forall|slot: int|
            0 <= slot < 64 * source@.len() ==> (#[trigger] bit(final(target)@, slot) <==> (bit(
                old(target)@,
                slot,
            ) || bit(source@, slot))),
{
    let ghost before = target@;
    let mut i: usize = 0;
    while i < source.len()
        invariant
            i <= source@.len(),
            target@.len() == source@.len(),
            before.len() == source@.len(),
            forall|j: int| 0 <= j < i ==> target@[j] == before[j] | source@[j],
            forall|j: int| i <= j < source@.len() ==> target@[j] == before[j],
        decreases source@.len() - i,
    {
        let merged: u64 = target[i] | source[i];
        target.set(i, merged);
        i += 1;
    }
    proof {
        assert forall|slot: int| 0 <= slot < 64 * source@.len() implies (#[trigger] bit(
            target@,
            slot,
        ) <==> (bit(before, slot) || bit(source@, slot))) by {
            lemma_or_bit(before[slot / 64], source@[slot / 64], (slot % 64) as u64);
        }
    }
}

/// The number of words that hold one bit for each slot.
pub open spec fn word_count(slots: nat) -> nat {
    (slots + 63) as nat / 64
}

/// The number of words that hold one bit for each slot.
fn words_for(slots: usize) -> (count: usize)
    ensures
        count == word_count(slots as nat),
        slots <= 64 * count,
        forall|slot: int| 0 <= slot < slots ==> #[trigger] (slot / 64) < count,
{
    if slots % 64 == 0 {
        slots / 64
    } else {
        slots / 64 + 1
    }
}

/// The slot of a node: its position among all nodes.
fn slot_of(ids: &Vec<NodeId>, id: NodeId) -> (slot: usize)
    requires
        increasing(ids@),
        ids@.contains(id),
    ensures
        slot < ids@.len(),
        ids@[slot as int] == id,
{
    let mut low: usize = 0;
    let mut high: usize = ids.len();
    let ghost at = choose|n: int| 0 <= n < ids@.len() && ids@[n] == id;
    while low < high
        invariant
            increasing(ids@),
            0 <= at < ids@.len(),
            ids@[at] == id,
            low <= at < high <= ids@.len(),
        decreases high - low,
    {
        let middle: usize = low + (high - low) / 2;
        if ids[middle] == id {
            return middle;
        }
        if ids[middle] < id {
            assert(middle < at) by {
                if at < middle {
                    assert(ids@[at] < ids@[middle as int]);
                }
            }
            low = middle + 1;
        } else {
            assert(at < middle) by {
                if middle < at {
                    assert(ids@[middle as int] < ids@[at]);
                }
            }
            high = middle;
        }
    }
    low
}

/// What the expansion of a chunk found: the nodes that one step leads to, as bits of their
/// slots, and the number of steps.
#[derive(Debug)]
pub struct Partial {
    pub bitmap: Vec<u64>,
    pub edges: usize,
}

/// Whether a step leads from one of `chunk` to a slot.
pub open spec fn chunk_reaches<T: VectorType>(
    table: Table<T>,
    config: ReachabilityConfig,
    ids: Seq<NodeId>,
    chunk: Seq<usize>,
    slot: int,
) -> bool {
    exists|i: int|
        0 <= i < chunk.len() && can_step(table, config, ids[(#[trigger] chunk[i]) as int], ids[slot])
}

/// The number of steps out of the nodes of a chunk.
pub open spec fn chunk_edges<T: VectorType>(
    table: Table<T>,
    config: ReachabilityConfig,
    ids: Seq<NodeId>,
    chunk: Seq<usize>,
) -> nat
    decreases chunk.len(),
{
    if chunk.len() == 0 {
        0
    } else {
        chunk_edges(table, config, ids, chunk.drop_last()) + target_count(
            table,
            config,
            ids[chunk.last() as int],
        )
    }
}

/// Whether `partial` is what the expansion of `chunk` finds.
pub open spec fn is_partial<T: VectorType>(
    table: Table<T>,
    config: ReachabilityConfig,
    ids: Seq<NodeId>,
    chunk: Seq<usize>,
    partial: Partial,
) -> bool {
    &&& partial.bitmap@.len() == word_count(ids.len())
    &&& forall|slot: int|
        0 <= slot < ids.len() ==> (#[trigger] bit(partial.bitmap@, slot) <==> chunk_reaches(
            table,
            config,
            ids,
            chunk,
            slot,
        ))
    &&& partial.edges == saturated(chunk_edges(table, config, ids, chunk))
}

/// Whether `ids` lists all nodes of a table in ascending order.
pub open spec fn lists_nodes<T: VectorType>(table: Table<T>, ids: Seq<NodeId>) -> bool {
    increasing(ids) && ids.to_set() == table.nodes.dom()
}

/// Whether every entry of a chunk is a slot.
pub open spec fn valid_slots(ids: Seq<NodeId>, chunk: Seq<usize>) -> bool {
    forall|i: int| 0 <= i < chunk.len() ==> (#[trigger] chunk[i]) < ids.len()
}

/// Expands the nodes in a chunk of a layer.
pub fn expand_chunk<T: VectorType>(
    db: &MemTable<T>,
    config: &ReachabilityConfig,
    ids: &Vec<NodeId>,
    chunk: &Vec<usize>,
) -> (partial: Partial)
    requires
        db.inv(),
        lists_nodes(db@, ids@),
        valid_slots(ids@, chunk@),
    ensures
        is_partial(db@, *config, ids@, chunk@, partial),
{
    proof {
        db.lemma_inv();
    }
    let count: usize = words_for(ids.len());
    let mut bitmap = no_bits(count);
    let mut edges: usize = 0;
    let mut i: usize = 0;
    while i < chunk.len()
        invariant
            i <= chunk@.len(),
            db.inv(),
            db@.well_formed(),
            lists_nodes(db@, ids@),
            valid_slots(ids@, chunk@),
            count == word_count(ids@.len()),
            ids@.len() <= 64 * count,
            forall|slot: int| 0 <= slot < ids@.len() ==> #[trigger] (slot / 64) < count,
            bitmap@.len() == count,
            forall|slot: int|
                0 <= slot < ids@.len() ==> (#[trigger] bit(bitmap@, slot) <==> chunk_reaches(
                    db@,
                    *config,
                    ids@,
                    chunk@.subrange(0, i as int),
                    slot,
                )),
            edges == saturated(chunk_edges(db@, *config, ids@, chunk@.subrange(0, i as int))),
        decreases chunk@.len() - i,
    {
        let ghost done = chunk@.subrange(0, i as int);
        let ghost more = chunk@.subrange(0, i + 1);
        let ghost start = bitmap@;
        let id: NodeId = ids[chunk[i]];
        let targets = collect_targets(db, id, config);
        let mut j: usize = 0;
        while j < targets.len()
            invariant
                j <= targets@.len(),
                db@.well_formed(),
                lists_nodes(db@, ids@),
                ids@.len() <= 64 * count,
                forall|slot: int| 0 <= slot < ids@.len() ==> #[trigger] (slot / 64) < count,
                start.len() == count,
                bitmap@.len() == count,
                forall|to: NodeId| #[trigger]
                    targets@.contains(to) <==> can_step(db@, *config, id, to),
                forall|slot: int|
                    0 <= slot < ids@.len() ==> (#[trigger] bit(bitmap@, slot) <==> (bit(start, slot)
                        || targets@.subrange(0, j as int).contains(ids@[slot]))),
            decreases targets@.len() - j,
        {
            let target: NodeId = targets[j];
            let ghost held = bitmap@;
            proof {
                assert(targets@.contains(target));
                lemma_can_step_in_table(db@, *config, id, target);
                assert(ids@.to_set().contains(target));
            }
            let slot: usize = slot_of(ids, target);
            assert((slot as int) / 64 < count);
            set_bit(&mut bitmap, slot);
            proof {
                let few = targets@.subrange(0, j as int);
                let many = targets@.subrange(0, j + 1);
                assert(many =~= few.push(target));
                assert forall|s: int| 0 <= s < ids@.len() implies (#[trigger] bit(bitmap@, s) <==> (
                bit(start, s) || many.contains(ids@[s]))) by {
                    assert(bit(held, s) <==> (bit(start, s) || few.contains(ids@[s])));
                    if few.contains(ids@[s]) {
                        let n = choose|n: int| 0 <= n < few.len() && few[n] == ids@[s];
                        assert(many[n] == ids@[s]);
                    }
                    if many.contains(ids@[s]) {
                        let n = choose|n: int| 0 <= n < many.len() && many[n] == ids@[s];
                        if n < few.len() {
                            assert(few[n] == ids@[s]);
                        } else {
                            assert(ids@[s] == ids@[slot as int]);
                            if s < slot {
                                assert(ids@[s] < ids@[slot as int]);
                            } else if slot < s {
                                assert(ids@[slot as int] < ids@[s]);
                            }
                        }
                    }
                    assert(many[j as int] == target);
                }
            }
            j += 1;
        }
        edges = saturating_sum(edges, targets.len());
        proof {
            assert(targets@.subrange(0, j as int) =~= targets@);
            assert(more.drop_last() =~= done);
            assert(more.last() == chunk@[i as int]);
            assert forall|slot: int| 0 <= slot < ids@.len() implies (#[trigger] bit(
                bitmap@,
                slot,
            ) <==> chunk_reaches(db@, *config, ids@, more, slot)) by {
                assert(bit(start, slot) <==> chunk_reaches(db@, *config, ids@, done, slot));
                if chunk_reaches(db@, *config, ids@, done, slot) {
                    let n = choose|n: int|
                        0 <= n < done.len() && can_step(
                            db@,
                            *config,
                            ids@[(#[trigger] done[n]) as int],
                            ids@[slot],
                        );
                    assert(more[n] == done[n]);
                }
                if targets@.contains(ids@[slot]) {
                    assert(more[i as int] == chunk@[i as int]);
                }
                if chunk_reaches(db@, *config, ids@, more, slot) {
                    let n = choose|n: int|
                        0 <= n < more.len() && can_step(
                            db@,
                            *config,
                            ids@[(#[trigger] more[n]) as int],
                            ids@[slot],
                        );
                    if n < done.len() {
                        assert(done[n] == more[n]);
                    }
                }
            }
        }
        i += 1;
    }
    assert(chunk@.subrange(0, i as int) =~= chunk@);
    Partial { bitmap, edges }
}

/// The sum of two counts, as far as a machine word can hold it.
fn saturating_sum(a: usize, b: usize) -> (sum: usize)
    ensures
        sum == saturated((a + b) as nat),
{
    a.saturating_add(b)
}

/// The entries of all chunks, in order.
pub open spec fn joined(chunks: Seq<Vec<usize>>) -> Seq<usize>
    decreases chunks.len(),
{
    if chunks.len() == 0 {
        Seq::empty()
    } else {
        joined(chunks.drop_last()) + chunks.last()@
    }
}

/// The steps out of two chunks.
proof fn lemma_chunk_edges_concat<T: VectorType>(
    table: Table<T>,
    config: ReachabilityConfig,
    ids: Seq<NodeId>,
    a: Seq<usize>,
    b: Seq<usize>,
)
    ensures
        chunk_edges(table, config, ids, a + b) == chunk_edges(table, config, ids, a) + chunk_edges(
            table,
            config,
            ids,
            b,
        ),
    decreases b.len(),
{
    if b.len() == 0 {
        assert(a + b =~= a);
    } else {
        assert((a + b).drop_last() =~= a + b.drop_last());
        assert((a + b).last() == b.last());
        lemma_chunk_edges_concat(table, config, ids, a, b.drop_last());
    }
}

/// What two chunks reach.
proof fn lemma_chunk_reaches_concat<T: VectorType>(
    table: Table<T>,
    config: ReachabilityConfig,
    ids: Seq<NodeId>,
    a: Seq<usize>,
    b: Seq<usize>,
    slot: int,
)
    ensures
        chunk_reaches(table, config, ids, a + b, slot) <==> (chunk_reaches(
            table,
            config,
            ids,
            a,
            slot,
        ) || chunk_reaches(table, config, ids, b, slot)),
{
    let both = a + b;
    if chunk_reaches(table, config, ids, a, slot) {
        let i = choose|i: int|
            0 <= i < a.len() && can_step(table, config, ids[(#[trigger] a[i]) as int], ids[slot]);
        assert(both[i] == a[i]);
    }
    if chunk_reaches(table, config, ids, b, slot) {
        let i = choose|i: int|
            0 <= i < b.len() && can_step(table, config, ids[(#[trigger] b[i]) as int], ids[slot]);
        assert(both[a.len() + i] == b[i]);
    }
    if chunk_reaches(table, config, ids, both, slot) {
        let i = choose|i: int|
            0 <= i < both.len() && can_step(
                table,
                config,
                ids[(#[trigger] both[i]) as int],
                ids[slot],
            );
        if i < a.len() {
            assert(a[i] == both[i]);
        } else {
            assert(b[i - a.len()] == both[i]);
        }
    }
}

/// How a layer is cut, and in what order its chunks are expanded, does not matter: two lists of
/// chunks with the same entries reach the same slots by the same number of steps.
pub proof fn law_layer_does_not_depend_on_chunks<T: VectorType>(
    table: Table<T>,
    config: ReachabilityConfig,
    ids: Seq<NodeId>,
    frontier: Seq<usize>,
    permuted: Seq<usize>,
    slot: int,
)
    requires
        frontier.to_multiset() == permuted.to_multiset(),
    ensures
        chunk_reaches(table, config, ids, frontier, slot) == chunk_reaches(
            table,
            config,
            ids,
            permuted,
            slot,
        ),
        chunk_edges(table, config, ids, frontier) == chunk_edges(table, config, ids, permuted),
{
    broadcast use vstd::seq_lib::group_to_multiset_ensures;

    assert forall|entry: usize| frontier.contains(entry) == #[trigger] permuted.contains(entry) by {
        assert(frontier.contains(entry) <==> frontier.to_multiset().count(entry) > 0);
        assert(permuted.contains(entry) <==> permuted.to_multiset().count(entry) > 0);
    }
    if chunk_reaches(table, config, ids, frontier, slot) {
        let i = choose|i: int|
            0 <= i < frontier.len() && can_step(
                table,
                config,
                ids[(#[trigger] frontier[i]) as int],
                ids[slot],
            );
        assert(permuted.contains(frontier[i]));
        let j = choose|j: int| 0 <= j < permuted.len() && permuted[j] == frontier[i];
        assert(permuted[j] == frontier[i]);
    }
    if chunk_reaches(table, config, ids, permuted, slot) {
        let i = choose|i: int|
            0 <= i < permuted.len() && can_step(
                table,
                config,
                ids[(#[trigger] permuted[i]) as int],
                ids[slot],
            );
        assert(permuted.contains(permuted[i]));
        assert(frontier.contains(permuted[i]));
        let j = choose|j: int| 0 <= j < frontier.len() && frontier[j] == permuted[i];
        assert(frontier[j] == permuted[i]);
    }
    lemma_chunk_edges_permuted(table, config, ids, frontier, permuted);
}

/// The number of steps does not depend on the order of the entries.
proof fn lemma_chunk_edges_permuted<T: VectorType>(
    table: Table<T>,
    config: ReachabilityConfig,
    ids: Seq<NodeId>,
    a: Seq<usize>,
    b: Seq<usize>,
)
    requires
        a.to_multiset() == b.to_multiset(),
    ensures
        chunk_edges(table, config, ids, a) == chunk_edges(table, config, ids, b),
    decreases a.len(),
{
    broadcast use vstd::seq_lib::group_to_multiset_ensures;

    assert(a.len() == a.to_multiset().len());
    assert(b.len() == b.to_multiset().len());
    if a.len() > 0 {
        let last = a.last();
        assert(a.contains(last)) by {
            assert(a[a.len() - 1] == last);
        }
        assert(a.to_multiset().count(last) > 0);
        assert(b.contains(last));
        let at = choose|at: int| 0 <= at < b.len() && b[at] == last;
        let head = b.subrange(0, at);
        let tail = b.subrange(at + 1, b.len() as int);
        let one = seq![last];
        assert(b =~= head + one + tail);
        lemma_chunk_edges_concat(table, config, ids, head + one, tail);
        lemma_chunk_edges_concat(table, config, ids, head, one);
        lemma_chunk_edges_concat(table, config, ids, head, tail);
        assert(one.drop_last() =~= Seq::<usize>::empty());
        assert(chunk_edges(table, config, ids, one) == target_count(
            table,
            config,
            ids[last as int],
        )) by {
            assert(chunk_edges(table, config, ids, one.drop_last()) == 0);
        }
        assert(b.remove(at) =~= head + tail);
        assert(a =~= a.drop_last().push(last));
        assert(a.drop_last().to_multiset() =~= a.to_multiset().remove(last));
        vstd::seq_lib::to_multiset_remove(b, at);
        assert((head + tail).to_multiset() =~= b.to_multiset().remove(last));
        lemma_chunk_edges_permuted(table, config, ids, a.drop_last(), head + tail);
    } else {
        assert(b =~= Seq::<usize>::empty());
        assert(a =~= b);
    }
}

/// The nodes within `level` steps that are deep enough.
pub open spec fn deep_nodes<T: VectorType>(
    table: Table<T>,
    config: ReachabilityConfig,
    source: NodeId,
    level: nat,
) -> Set<NodeId> {
    Set::new(
        |id: NodeId|
            within(reach_steps(table, config), source, id, level) && (config.min_depth == 0
                || !within(
                reach_steps(table, config),
                source,
                id,
                (config.min_depth - 1) as nat,
            )),
    )
}

/// The bound that the layer below `level` breaks: the steps out of all nodes down to `level` first,
/// then the nodes of the new layer one by one, as many as wait and as are visited in all, then
/// the results.
pub open spec fn layer_stop<T: VectorType>(
    table: Table<T>,
    config: ReachabilityConfig,
    source: NodeId,
    ids: Seq<NodeId>,
    level: nat,
) -> Option<Bound> {
    let steps = reach_steps(table, config);
    let known = ball(steps, source, level);
    let found = sphere(steps, source, level + 1).len();
    if saturated(targets_of(table, config, ids, known)) > config.max_edges {
        Some(Bound::Edges)
    } else if found > config.max_frontier_size || known.len() + found
        > config.max_visited_nodes {
        if known.len() + config.max_frontier_size <= config.max_visited_nodes {
            Some(Bound::Frontier)
        } else {
            Some(Bound::Visits)
        }
    } else if level + 1 >= config.min_depth && deep_nodes(table, config, source, level).len()
        + found > config.max_results {
        Some(Bound::Results)
    } else {
        None
    }
}

/// Whether there is a layer to expand at `level`.
pub open spec fn has_layer<T: VectorType>(
    table: Table<T>,
    config: ReachabilityConfig,
    source: NodeId,
    level: nat,
) -> bool {
    level < config.max_depth && sphere(reach_steps(table, config), source, level).len() > 0
}

/// Whether every layer above `level` is expanded, and no bound broken by it.
pub open spec fn comes_to<T: VectorType>(
    table: Table<T>,
    config: ReachabilityConfig,
    source: NodeId,
    ids: Seq<NodeId>,
    level: nat,
) -> bool {
    lists_nodes(table, ids) && forall|earlier: nat|
        earlier < level ==> has_layer(table, config, source, earlier) && #[trigger] layer_stop(
            table,
            config,
            source,
            ids,
            earlier,
        ) is None
}

/// Whether `result` is what a layered traversal gives: an answer where no layer breaks a bound, and
/// otherwise an error that names the bound that the first such layer breaks.
pub open spec fn is_layered_outcome<T: VectorType>(
    table: Table<T>,
    config: ReachabilityConfig,
    source: NodeId,
    result: Result<CompactReachabilityOutput>,
) -> bool {
    exists|ids: Seq<NodeId>, level: nat| #[trigger]
        comes_to(table, config, source, ids, level) && match result {
            Ok(_) => !has_layer(table, config, source, level),
            Err(error) => {
                &&& has_layer(table, config, source, level)
                &&& layer_stop(table, config, source, ids, level) matches Some(bound)
                    && is_query_execution(error, bound_message(bound))
            },
        }
}

/// Distinct slots name as many nodes.
proof fn lemma_slots_named(ids: Seq<NodeId>, slots: Seq<usize>, named: Set<NodeId>)
    requires
        increasing(ids),
        valid_slots(ids, slots),
        slots.no_duplicates(),
        named.finite(),
        forall|i: int| 0 <= i < slots.len() ==> named.contains(ids[(#[trigger] slots[i]) as int]),
    ensures
        slots.len() <= named.len(),
        (forall|id: NodeId| #[trigger]
            named.contains(id) ==> exists|i: int|
                0 <= i < slots.len() && ids[(#[trigger] slots[i]) as int] == id) ==> slots.len()
            == named.len(),
        (exists|id: NodeId| #[trigger]
            named.contains(id) && forall|i: int|
                0 <= i < slots.len() ==> ids[(#[trigger] slots[i]) as int] != id) ==> slots.len()
            < named.len(),
{
    let listed = slots.map_values(|slot: usize| ids[slot as int]);
    assert(listed.no_duplicates()) by {
        assert forall|i: int, j: int|
            0 <= i < listed.len() && 0 <= j < listed.len() && i != j implies listed[i]
            != listed[j] by {
            assert(slots[i] != slots[j]);
            if slots[i] < slots[j] {
                assert(ids[slots[i] as int] < ids[slots[j] as int]);
            } else {
                assert(ids[slots[j] as int] < ids[slots[i] as int]);
            }
        }
    }
    listed.unique_seq_to_set();
    assert(listed.to_set().subset_of(named)) by {
        assert forall|id: NodeId| listed.to_set().contains(id) implies named.contains(id) by {
            let i = choose|i: int| 0 <= i < listed.len() && listed[i] == id;
            assert(named.contains(ids[slots[i] as int]));
        }
    }
    vstd::set_lib::lemma_len_subset(listed.to_set(), named);
    if forall|id: NodeId| #[trigger]
        named.contains(id) ==> exists|i: int|
            0 <= i < slots.len() && ids[(#[trigger] slots[i]) as int] == id {
        assert(listed.to_set() =~= named) by {
            assert forall|id: NodeId| named.contains(id) implies listed.to_set().contains(id) by {
                let i = choose|i: int|
                    0 <= i < slots.len() && ids[(#[trigger] slots[i]) as int] == id;
                assert(listed[i] == id);
            }
        }
    }
    if exists|id: NodeId| #[trigger]
        named.contains(id) && forall|i: int|
            0 <= i < slots.len() ==> ids[(#[trigger] slots[i]) as int] != id {
        let id = choose|id: NodeId| #[trigger]
            named.contains(id) && forall|i: int|
                0 <= i < slots.len() ==> ids[(#[trigger] slots[i]) as int] != id;
        assert(!listed.to_set().contains(id)) by {
            if listed.to_set().contains(id) {
                let i = choose|i: int| 0 <= i < listed.len() && listed[i] == id;
                assert(ids[slots[i] as int] == id);
            }
        }
        assert(listed.to_set().insert(id).subset_of(named));
        vstd::set_lib::lemma_len_subset(listed.to_set().insert(id), named);
    }
}

/// A layered traversal: the nodes found so far as bits of their slots, the slots of the current
/// layer, and what has been counted.
pub struct LayeredTraversal {
    ids: Vec<NodeId>,
    frontier: Vec<usize>,
    visited: Vec<u64>,
    visited_count: usize,
    results: Vec<ReachabilityHit>,
    traversed_edges: usize,
    depth: usize,
    depths: Ghost<Map<NodeId, nat>>,
}

/// The nodes that have been expanded: those above the current layer.
spec fn nodes_above(depths: Map<NodeId, nat>, depth: nat) -> Set<NodeId> {
    depths.dom().filter(|id: NodeId| depths[id] < depth)
}

impl LayeredTraversal {
    /// The identifiers of all nodes, by slot.
    pub closed spec fn spec_ids(self) -> Seq<NodeId> {
        self.ids@
    }

    /// The slots of the current layer.
    pub closed spec fn spec_frontier(self) -> Seq<usize> {
        self.frontier@
    }

    /// The depth of the current layer.
    pub closed spec fn spec_depth(self) -> nat {
        self.depth as nat
    }

    /// The traversal's invariant.
    pub closed spec fn inv<T: VectorType>(
        self,
        table: Table<T>,
        config: ReachabilityConfig,
        source: NodeId,
    ) -> bool {
        &&& table.well_formed()
        &&& table.nodes.contains_key(source)
        &&& valid_config(config)
        &&& lists_nodes(table, self.ids@)
        &&& hits_sound(table, config, source, self.depths@, self.results@)
        &&& hits_complete(config, self.depths@, self.results@)
        &&& forall|id: NodeId| #[trigger]
            self.depths@.contains_key(id) ==> self.depths@[id] <= self.depth
        &&& closed_below(reach_steps(table, config), self.depths@, self.depth as nat)
        &&& valid_slots(self.ids@, self.frontier@)
        &&& self.frontier@.no_duplicates()
        &&& forall|slot: usize|
            slot < self.ids@.len() ==> (#[trigger] self.frontier@.contains(slot) <==> (
            self.depths@.contains_key(self.ids@[slot as int])
                && self.depths@[self.ids@[slot as int]] == self.depth))
        &&& self.visited@.len() == word_count(self.ids@.len())
        &&& forall|slot: int|
            0 <= slot < self.ids@.len() ==> (#[trigger] bit(self.visited@, slot)
                <==> self.depths@.contains_key(self.ids@[slot]))
        &&& self.visited_count == self.depths@.dom().len()
        &&& self.visited_count <= config.max_visited_nodes || self.visited_count == 1
        &&& self.traversed_edges == saturated(
            targets_of(table, config, self.ids@, nodes_above(self.depths@, self.depth as nat)),
        )
        &&& self.traversed_edges <= config.max_edges
        &&& self.depth <= config.max_depth
    }

    /// Begins a traversal with the source as its first layer.
    pub fn start<T: VectorType>(
        db: &MemTable<T>,
        source_id: NodeId,
        config: &ReachabilityConfig,
    ) -> (result: Result<LayeredTraversal>)
        requires
            db.inv(),
        ensures
            match result {
                Ok(traversal) => db@.nodes.contains_key(source_id) && valid_config(*config)
                    && traversal.inv(db@, *config, source_id) && traversal.spec_depth() == 0
                    && lists_nodes(db@, traversal.spec_ids()) && valid_slots(
                    traversal.spec_ids(),
                    traversal.spec_frontier(),
                ),
                Err(error) => !(db@.nodes.contains_key(source_id) && valid_config(*config))
                    && is_query_fault(db@, source_id, *config, error),
            },
    {
        match validate(db, source_id, config) {
            Ok(()) => {},
            Err(error) => {
                return Err(error);
            },
        }
        proof {
            db.lemma_inv();
        }
        let ids = db.all_node_ids();
        assert(ids@.contains(source_id)) by {
            assert(ids@.to_set().contains(source_id));
        }
        let slot: usize = slot_of(&ids, source_id);
        let mut visited = no_bits(words_for(ids.len()));
        assert((slot as int) / 64 < visited@.len());
        set_bit(&mut visited, slot);
        let mut frontier: Vec<usize> = Vec::new();
        frontier.push(slot);
        let mut results: Vec<ReachabilityHit> = Vec::new();
        if config.min_depth == 0 {
            results.push(ReachabilityHit { target_id: source_id, depth: 0 });
        }
        let ghost depths = Map::<NodeId, nat>::empty().insert(source_id, 0);
        proof {
            assert(depths.dom() =~= Set::<NodeId>::empty().insert(source_id));
            assert(is_distance(reach_steps(db@, *config), source_id, source_id, 0));
            if config.min_depth == 0 {
                assert(results@[0].target_id == source_id);
                assert(hit_reported(results@, source_id));
            }
            assert forall|other: usize| other < ids@.len() implies (#[trigger] frontier@.contains(
                other,
            ) <==> (depths.contains_key(ids@[other as int]) && depths[ids@[other as int]] == 0)) by {
                assert(frontier@[0] == slot);
                if ids@[other as int] == source_id {
                    lemma_same_slot(ids@, other as int, slot as int);
                }
            }
            assert forall|other: int| 0 <= other < ids@.len() implies (#[trigger] bit(
                visited@,
                other,
            ) <==> depths.contains_key(ids@[other])) by {
                if ids@[other] == source_id {
                    lemma_same_slot(ids@, other, slot as int);
                }
            }
            assert(nodes_above(depths, 0) =~= Set::<NodeId>::empty());
            lemma_targets_none(db@, *config, ids@);
        }
        Ok(
            LayeredTraversal {
                ids,
                frontier,
                visited,
                visited_count: 1,
                results,
                traversed_edges: 0,
                depth: 0,
                depths: Ghost(depths),
            },
        )
    }

    /// The identifiers of all nodes, by slot.
    pub fn ids(&self) -> (ids: &Vec<NodeId>)
        ensures
            ids@ == self.spec_ids(),
    {
        &self.ids
    }

    /// Whether there is no further layer to expand.
    pub fn finished(&self, config: &ReachabilityConfig) -> (result: bool)
        ensures
            result == (self.spec_depth() >= config.max_depth || self.spec_frontier().len() == 0),
    {
        self.depth >= config.max_depth || self.frontier.len() == 0
    }

    /// Cuts the current layer into chunks for up to `workers` workers. A small layer stays in
    /// one piece.
    pub fn chunks(&self, workers: usize) -> (chunks: Vec<Vec<usize>>)
        ensures
            joined(chunks@) == self.spec_frontier(),
    {
        let used: usize = if workers < self.frontier.len() {
            workers
        } else {
            self.frontier.len()
        };
        let size: usize = if self.frontier.len() < 1024 || used <= 1 {
            self.frontier.len()
        } else if self.frontier.len() % used == 0 {
            self.frontier.len() / used
        } else {
            proof {
                let all = self.frontier@.len() as int;
                assert(all / (used as int) < all) by (nonlinear_arith)
                    requires
                        all > 0,
                        used >= 2,
                ;
            }
            self.frontier.len() / used + 1
        };
        let size: usize = if size == 0 {
            1
        } else {
            size
        };
        let mut chunks: Vec<Vec<usize>> = Vec::new();
        let mut start: usize = 0;
        assert(self.frontier@.subrange(0, 0) =~= Seq::<usize>::empty());
        while start < self.frontier.len()
            invariant
                start <= self.frontier@.len(),
                size > 0,
                joined(chunks@) == self.frontier@.subrange(0, start as int),
            decreases self.frontier@.len() - start,
        {
            let end: usize = if self.frontier.len() - start < size {
                self.frontier.len()
            } else {
                start + size
            };
            let ghost before = chunks@;
            let mut chunk: Vec<usize> = Vec::new();
            let mut i: usize = start;
            while i < end
                invariant
                    start <= i <= end <= self.frontier@.len(),
                    chunk@ == self.frontier@.subrange(start as int, i as int),
                decreases end - i,
            {
                chunk.push(self.frontier[i]);
                proof {
                    assert(self.frontier@.subrange(start as int, i + 1) =~= self.frontier@.subrange(
                        start as int,
                        i as int,
                    ).push(self.frontier@[i as int]));
                }
                i += 1;
            }
            chunks.push(chunk);
            proof {
                assert(chunks@.drop_last() =~= before);
                assert(self.frontier@.subrange(0, end as int) =~= self.frontier@.subrange(
                    0,
                    start as int,
                ) + chunk@);
            }
            start = end;
        }
        assert(self.frontier@.subrange(0, start as int) =~= self.frontier@);
        chunks
    }
}

/// Different slots hold different nodes.
proof fn lemma_same_slot(ids: Seq<NodeId>, a: int, b: int)
    requires
        increasing(ids),
        0 <= a < ids.len(),
        0 <= b < ids.len(),
        ids[a] == ids[b],
    ensures
        a == b,
{
    if a < b {
        assert(ids[a] < ids[b]);
    } else if b < a {
        assert(ids[b] < ids[a]);
    }
}

/// The depths with the nodes in `slots` added, all at the same depth.
spec fn grown(depths: Map<NodeId, nat>, ids: Seq<NodeId>, slots: Seq<usize>, depth: nat) -> Map<
    NodeId,
    nat,
>
    decreases slots.len(),
{
    if slots.len() == 0 {
        depths
    } else {
        grown(depths, ids, slots.drop_last(), depth).insert(ids[slots.last() as int], depth)
    }
}

/// Whether a slot is a new node of the next layer.
spec fn is_fresh(merged: Seq<u64>, visited: Seq<u64>, slot: int) -> bool {
    bit(merged, slot) && !bit(visited, slot)
}

/// What growing by a layer gives: the old nodes keep their depths, the new ones have the new
/// depth.
proof fn lemma_grown<T: VectorType>(
    table: Table<T>,
    config: ReachabilityConfig,
    source: NodeId,
    depths: Map<NodeId, nat>,
    hits: Seq<ReachabilityHit>,
    ids: Seq<NodeId>,
    slots: Seq<usize>,
    depth: nat,
)
    requires
        hits_sound(table, config, source, depths, hits),
        lists_nodes(table, ids),
        valid_slots(ids, slots),
        slots.no_duplicates(),
        depth <= config.max_depth,
        forall|i: int|
            0 <= i < slots.len() ==> !depths.contains_key(ids[(#[trigger] slots[i]) as int])
                && is_distance(
                reach_steps(table, config),
                source,
                ids[slots[i] as int],
                depth,
            ),
    ensures
        hits_sound(table, config, source, grown(depths, ids, slots, depth), hits),
        grown(depths, ids, slots, depth).dom().len() == depths.dom().len() + slots.len(),
        forall|id: NodeId| #[trigger]
            depths.contains_key(id) ==> grown(depths, ids, slots, depth).contains_key(id) && grown(
                depths,
                ids,
                slots,
                depth,
            )[id] == depths[id],
        forall|id: NodeId| #[trigger]
            grown(depths, ids, slots, depth).contains_key(id) && !depths.contains_key(id) ==> grown(
                depths,
                ids,
                slots,
                depth,
            )[id] == depth,
        forall|slot: usize|
            slot < ids.len() ==> (#[trigger] slots.contains(slot) || depths.contains_key(
                ids[slot as int],
            ) <==> grown(depths, ids, slots, depth).contains_key(ids[slot as int])),
    decreases slots.len(),
{
    if slots.len() > 0 {
        let few = slots.drop_last();
        let last = slots.last();
        assert(few.no_duplicates()) by {
            assert forall|i: int, j: int|
                0 <= i < few.len() && 0 <= j < few.len() && i != j implies few[i] != few[j] by {
                assert(slots[i] != slots[j]);
            }
        }
        assert forall|i: int| 0 <= i < few.len() implies !depths.contains_key(
            ids[(#[trigger] few[i]) as int],
        ) && is_distance(reach_steps(table, config), source, ids[few[i] as int], depth) && few[i]
            < ids.len() by {
            assert(slots[i] == few[i]);
        }
        lemma_grown(table, config, source, depths, hits, ids, few, depth);
        let before = grown(depths, ids, few, depth);
        let after = grown(depths, ids, slots, depth);
        let id = ids[last as int];
        assert(slots[slots.len() - 1] == last);
        assert(last < ids.len());
        assert(!few.contains(last)) by {
            if few.contains(last) {
                let n = choose|n: int| 0 <= n < few.len() && few[n] == last;
                assert(slots[n] == slots[slots.len() - 1]);
            }
        }
        assert(!before.contains_key(id)) by {
            assert(few.contains(last) || depths.contains_key(ids[last as int]) <==> before.contains_key(
                ids[last as int],
            ));
        }
        assert(after.dom() =~= before.dom().insert(id));
        assert(table.nodes.contains_key(id)) by {
            assert(ids.contains(id));
            assert(ids.to_set().contains(id));
        }
        assert forall|other: NodeId| #[trigger] after.contains_key(other) implies after[other]
            <= config.max_depth && is_distance(
            reach_steps(table, config),
            source,
            other,
            after[other],
        ) by {
            if other != id {
                assert(before.contains_key(other));
            }
        }
        assert forall|i: int| 0 <= i < hits.len() implies after.contains_key(
            (#[trigger] hits[i]).target_id,
        ) && after[hits[i].target_id] == hits[i].depth && config.min_depth <= hits[i].depth by {
            assert(before.contains_key(hits[i].target_id));
        }
        assert forall|other: NodeId| #[trigger] depths.contains_key(other) implies
            after.contains_key(other) && after[other] == depths[other] by {
            assert(before.contains_key(other));
        }
        assert forall|other: NodeId| #[trigger]
            after.contains_key(other) && !depths.contains_key(other) implies after[other]
            == depth by {
            if other != id {
                assert(before.contains_key(other));
            }
        }
        assert forall|slot: usize| slot < ids.len() implies (#[trigger] slots.contains(slot)
            || depths.contains_key(ids[slot as int]) <==> after.contains_key(
            ids[slot as int],
        )) by {
            assert(few.contains(slot) || depths.contains_key(ids[slot as int])
                <==> before.contains_key(ids[slot as int]));
            if slots.contains(slot) && slot != last {
                let n = choose|n: int| 0 <= n < slots.len() && slots[n] == slot;
                assert(few[n] == slot);
            }
            if few.contains(slot) {
                let n = choose|n: int| 0 <= n < few.len() && few[n] == slot;
                assert(slots[n] == slot);
            }
            if ids[slot as int] == id {
                lemma_same_slot(ids, slot as int, last as int);
            }
        }
    } else {
        assert forall|slot: usize| slot < ids.len() implies (#[trigger] slots.contains(slot)
            || depths.contains_key(ids[slot as int]) <==> grown(
            depths,
            ids,
            slots,
            depth,
        ).contains_key(ids[slot as int])) by {}
    }
}

/// A slot that a layer reaches and that was not visited is one step further away.
proof fn lemma_fresh_distance<T: VectorType>(
    table: Table<T>,
    config: ReachabilityConfig,
    source: NodeId,
    depths: Map<NodeId, nat>,
    hits: Seq<ReachabilityHit>,
    ids: Seq<NodeId>,
    frontier: Seq<usize>,
    depth: nat,
    slot: int,
)
    requires
        hits_sound(table, config, source, depths, hits),
        closed_below(reach_steps(table, config), depths, depth),
        valid_slots(ids, frontier),
        forall|i: int|
            0 <= i < frontier.len() ==> depths.contains_key(ids[(#[trigger] frontier[i]) as int])
                && depths[ids[frontier[i] as int]] == depth,
        0 <= slot < ids.len(),
        chunk_reaches(table, config, ids, frontier, slot),
        !depths.contains_key(ids[slot]),
    ensures
        is_distance(reach_steps(table, config), source, ids[slot], depth + 1),
{
    let adjacency = reach_steps(table, config);
    let i = choose|i: int|
        0 <= i < frontier.len() && can_step(
            table,
            config,
            ids[(#[trigger] frontier[i]) as int],
            ids[slot],
        );
    let from = ids[frontier[i] as int];
    assert(depths.contains_key(from));
    assert(adjacency(from, ids[slot]));
    lemma_within_step(adjacency, source, from, ids[slot], depth);
    assert forall|fewer: nat| fewer < depth + 1 implies !#[trigger] within(
        adjacency,
        source,
        ids[slot],
        fewer,
    ) by {
        if within(adjacency, source, ids[slot], fewer) {
            lemma_closed_below(adjacency, source, depths, depth, ids[slot], fewer);
        }
    }
}

/// Counting the steps out of a layer adds them to those out of the layers above.
proof fn lemma_layer_edges<T: VectorType>(
    table: Table<T>,
    config: ReachabilityConfig,
    ids: Seq<NodeId>,
    above: Set<NodeId>,
    layer: Seq<usize>,
)
    requires
        increasing(ids),
        valid_slots(ids, layer),
        layer.no_duplicates(),
        forall|i: int| 0 <= i < layer.len() ==> !above.contains(ids[(#[trigger] layer[i]) as int]),
    ensures
        targets_of(table, config, ids, layer_set(ids, above, layer)) == targets_of(
            table,
            config,
            ids,
            above,
        ) + chunk_edges(table, config, ids, layer),
        forall|id: NodeId| #[trigger]
            layer_set(ids, above, layer).contains(id) <==> above.contains(id) || exists|i: int|
                0 <= i < layer.len() && ids[(#[trigger] layer[i]) as int] == id,
    decreases layer.len(),
{
    lemma_increasing_distinct(ids);
    if layer.len() > 0 {
        let few = layer.drop_last();
        let last = layer.last();
        let id = ids[last as int];
        assert(layer[layer.len() - 1] == last);
        assert(few.no_duplicates()) by {
            assert forall|i: int, j: int|
                0 <= i < few.len() && 0 <= j < few.len() && i != j implies few[i] != few[j] by {
                assert(layer[i] != layer[j]);
            }
        }
        assert forall|i: int| 0 <= i < few.len() implies !above.contains(
            ids[(#[trigger] few[i]) as int],
        ) && few[i] < ids.len() by {
            assert(layer[i] == few[i]);
        }
        lemma_layer_edges(table, config, ids, above, few);
        let before = layer_set(ids, above, few);
        assert(!before.contains(id)) by {
            if before.contains(id) {
                let i = choose|i: int|
                    0 <= i < few.len() && ids[(#[trigger] few[i]) as int] == id;
                assert(layer[i] == few[i]);
                lemma_same_slot(ids, few[i] as int, last as int);
                assert(layer[i] == layer[layer.len() - 1]);
            }
        }
        assert(ids.contains(id));
        lemma_targets_insert(table, config, ids, before, id);
        assert forall|other: NodeId| #[trigger] layer_set(ids, above, layer).contains(other)
            <==> above.contains(other) || exists|i: int|
            0 <= i < layer.len() && ids[(#[trigger] layer[i]) as int] == other by {
            assert(before.contains(other) <==> above.contains(other) || exists|i: int|
                0 <= i < few.len() && ids[(#[trigger] few[i]) as int] == other);
            if exists|i: int| 0 <= i < few.len() && ids[(#[trigger] few[i]) as int] == other {
                let i = choose|i: int|
                    0 <= i < few.len() && ids[(#[trigger] few[i]) as int] == other;
                assert(layer[i] == few[i]);
            }
            if exists|i: int| 0 <= i < layer.len() && ids[(#[trigger] layer[i]) as int] == other {
                let i = choose|i: int|
                    0 <= i < layer.len() && ids[(#[trigger] layer[i]) as int] == other;
                if i < few.len() {
                    assert(few[i] == layer[i]);
                }
            }
        }
    }
}

/// The nodes above a layer together with the nodes of the layer.
spec fn layer_set(ids: Seq<NodeId>, above: Set<NodeId>, layer: Seq<usize>) -> Set<NodeId>
    decreases layer.len(),
{
    if layer.len() == 0 {
        above
    } else {
        layer_set(ids, above, layer.drop_last()).insert(ids[layer.last() as int])
    }
}

/// What a traversal holds in terms of distances.
proof fn lemma_layer_known<T: VectorType>(
    table: Table<T>,
    config: ReachabilityConfig,
    source: NodeId,
    walk: LayeredTraversal,
)
    requires
        walk.inv(table, config, source),
    ensures
        walk.depths@.dom() == ball(reach_steps(table, config), source, walk.depth as nat),
        walk.visited_count == ball(reach_steps(table, config), source, walk.depth as nat).len(),
        walk.results@.len() == deep_nodes(table, config, source, walk.depth as nat).len(),
        walk.frontier@.len() == sphere(
            reach_steps(table, config),
            source,
            walk.depth as nat,
        ).len(),
        sphere(reach_steps(table, config), source, (walk.depth + 1) as nat).finite(),
        forall|id: NodeId|
            is_distance(reach_steps(table, config), source, id, (walk.depth + 1) as nat)
                <==> #[trigger] sphere(
                reach_steps(table, config),
                source,
                (walk.depth + 1) as nat,
            ).contains(id),
{
    let steps = reach_steps(table, config);
    let depths = walk.depths@;
    let ids = walk.ids@;
    let level = walk.depth as nat;
    assert forall|id: NodeId, near: nat| near <= level implies (#[trigger] within(
        steps,
        source,
        id,
        near,
    ) <==> depths.contains_key(id) && depths[id] <= near) by {
        if within(steps, source, id, near) {
            lemma_closed_below(steps, source, depths, level, id, near);
        }
        if depths.contains_key(id) && depths[id] <= near {
            assert(is_distance(steps, source, id, depths[id]));
            lemma_within_grows(steps, source, id, depths[id], near);
        }
    }
    assert(depths.dom() =~= ball(steps, source, level)) by {
        assert forall|id: NodeId| depths.dom().contains(id) <==> within(
            steps,
            source,
            id,
            level,
        ) by {
            if depths.contains_key(id) {
                assert(depths[id] <= level);
            }
        }
    }
    let layer = sphere(steps, source, level);
    assert forall|id: NodeId| layer.contains(id) <==> depths.contains_key(id) && depths[id]
        == level by {
        assert(within(steps, source, id, level) <==> depths.contains_key(id) && depths[id]
            <= level);
        if level > 0 {
            assert(within(steps, source, id, (level - 1) as nat) <==> depths.contains_key(id)
                && depths[id] <= level - 1);
        }
    }
    assert(layer.subset_of(depths.dom()));
    vstd::set_lib::lemma_len_subset(layer, depths.dom());
    assert forall|i: int| 0 <= i < walk.frontier@.len() implies layer.contains(
        ids[(#[trigger] walk.frontier@[i]) as int],
    ) by {
        assert(walk.frontier@.contains(walk.frontier@[i]));
    }
    assert forall|id: NodeId| #[trigger] layer.contains(id) implies exists|i: int|
        0 <= i < walk.frontier@.len() && ids[(#[trigger] walk.frontier@[i]) as int] == id by {
        assert(table.nodes.dom().contains(id));
        assert(ids.to_set().contains(id));
        let f = choose|f: int| 0 <= f < ids.len() && ids[f] == id;
        assert(ids.len() == walk.ids.len());
        assert(walk.frontier@.contains(f as usize));
        let n = choose|n: int| 0 <= n < walk.frontier@.len() && walk.frontier@[n] == f as usize;
        assert(ids[walk.frontier@[n] as int] == id);
    }
    lemma_slots_named(ids, walk.frontier@, layer);
    let deep = deep_nodes(table, config, source, level);
    let hits = walk.results@;
    let targets = hits.map_values(|hit: ReachabilityHit| hit.target_id);
    lemma_hit_targets(hits, targets);
    assert(targets.to_set() =~= deep) by {
        assert forall|id: NodeId| targets.to_set().contains(id) <==> deep.contains(id) by {
            if targets.to_set().contains(id) {
                let i = choose|i: int| 0 <= i < targets.len() && targets[i] == id;
                assert(hits[i].target_id == id);
                assert(depths.contains_key(hits[i].target_id));
                assert(is_distance(steps, source, id, depths[id]));
                assert(within(steps, source, id, level));
            }
            if deep.contains(id) {
                assert(within(steps, source, id, level));
                assert(depths.contains_key(id));
                if config.min_depth > 0 && depths[id] < config.min_depth {
                    assert(is_distance(steps, source, id, depths[id]));
                    lemma_within_grows(
                        steps,
                        source,
                        id,
                        depths[id],
                        (config.min_depth - 1) as nat,
                    );
                }
                assert(hit_reported(hits, id));
                let i = choose|i: int| 0 <= i < hits.len() && (#[trigger] hits[i]).target_id == id;
                assert(targets[i] == id);
            }
        }
    }
    let beyond = sphere(steps, source, level + 1);
    assert forall|id: NodeId| beyond.contains(id) implies table.nodes.dom().contains(id) by {
        lemma_within_in_table(table, config, source, id, level + 1);
    }
    vstd::set_lib::lemma_len_subset(beyond, table.nodes.dom());
    assert forall|id: NodeId|
        is_distance(steps, source, id, level + 1) <==> #[trigger] beyond.contains(id) by {
        if beyond.contains(id) {
            assert forall|fewer: nat| fewer < level + 1 implies !#[trigger] within(
                steps,
                source,
                id,
                fewer,
            ) by {
                if within(steps, source, id, fewer) {
                    lemma_within_grows(steps, source, id, fewer, level);
                }
            }
        }
        if is_distance(steps, source, id, level + 1) {
            assert(!within(steps, source, id, level));
        }
    }
}

/// No more steps than there are pairs of nodes.
proof fn lemma_targets_bound<T: VectorType>(
    table: Table<T>,
    config: ReachabilityConfig,
    ids: Seq<NodeId>,
    chosen: Set<NodeId>,
)
    requires
        table.nodes.dom().finite(),
    ensures
        targets_of(table, config, ids, chosen) <= ids.len() * table.nodes.dom().len(),
    decreases ids.len(),
{
    if ids.len() > 0 {
        let nodes = table.nodes.dom().len();
        lemma_targets_bound(table, config, ids.drop_last(), chosen);
        let last = ids.last();
        let all = table.nodes.dom().filter(|to: NodeId| can_step(table, config, last, to));
        vstd::set_lib::lemma_len_subset(all, table.nodes.dom());
        assert((ids.len() - 1) * nodes + nodes == ids.len() * nodes) by (nonlinear_arith)
            requires
                ids.len() >= 1,
        ;
    }
}

impl LayeredTraversal {
    /// Records the layer that `partials` found, one for each of `chunks`.
    #[verifier::spinoff_prover]
    #[verifier::rlimit(60)]
    pub fn commit_layer<T: VectorType>(
        &mut self,
        db: &MemTable<T>,
        config: &ReachabilityConfig,
        chunks: &Vec<Vec<usize>>,
        partials: &Vec<Partial>,
        source_id: NodeId,
    ) -> (result: Result<()>)
        requires
            db.inv(),
            old(self).inv(db@, *config, source_id),
            old(self).spec_depth() < config.max_depth,
            joined(chunks@) == old(self).spec_frontier(),
            chunks@.len() == partials@.len(),
            forall|i: int|
                0 <= i < chunks@.len() ==> is_partial(
                    db@,
                    *config,
                    old(self).spec_ids(),
                    (#[trigger] chunks@[i])@,
                    partials@[i],
                ),
        ensures
            match result {
                Ok(()) => layer_stop(
                    db@,
                    *config,
                    source_id,
                    old(self).spec_ids(),
                    old(self).spec_depth(),
                ) is None && final(self).inv(db@, *config, source_id) && final(self).spec_depth()
                    == old(self).spec_depth() + 1 && final(self).spec_ids() == old(
                    self,
                ).spec_ids() && valid_slots(
                    final(self).spec_ids(),
                    final(self).spec_frontier(),
                ),
                Err(error) => is_compact_refusal(db@, *config, source_id, error) && !compact_covers(
                    db@,
                    *config,
                ) && (layer_stop(
                    db@,
                    *config,
                    source_id,
                    old(self).spec_ids(),
                    old(self).spec_depth(),
                ) matches Some(bound) && is_query_execution(error, bound_message(bound))),
            },
    {
        let ghost start = *self;
        let ghost ids = self.ids@;
        let ghost depths = self.depths@;
        let ghost frontier = self.frontier@;
        let ghost nodes = db@.nodes.dom().len();
        let ghost adjacency = reach_steps(db@, *config);
        let ghost level = self.depth as nat;
        let ghost beyond = sphere(adjacency, source_id, level + 1);
        let ghost known = ball(adjacency, source_id, level);
        proof {
            lemma_layer_known(db@, *config, source_id, *self);
            lemma_increasing_distinct(ids);
            ids.unique_seq_to_set();
            lemma_reach_sets(db@, *config, source_id);
            vstd::set_lib::lemma_len_subset(reach_set(db@, *config, source_id), db@.nodes.dom());
            vstd::set_lib::lemma_len_subset(wanted_set(db@, *config, source_id), db@.nodes.dom());
            assert forall|i: int| 0 <= i < frontier.len() implies depths.contains_key(
                ids[(#[trigger] frontier[i]) as int],
            ) && depths[ids[frontier[i] as int]] == level by {
                assert(frontier.contains(frontier[i]));
            }
        }
        let count: usize = words_for(self.ids.len());
        let mut merged = no_bits(count);
        let mut layer_edges: usize = 0;
        let mut k: usize = 0;
        while k < partials.len()
            invariant
                k <= partials@.len(),
                chunks@.len() == partials@.len(),
                count == word_count(ids.len()),
                ids.len() <= 64 * count,
                merged@.len() == count,
                forall|i: int|
                    0 <= i < chunks@.len() ==> is_partial(
                        db@,
                        *config,
                        ids,
                        (#[trigger] chunks@[i])@,
                        partials@[i],
                    ),
                forall|slot: int|
                    0 <= slot < ids.len() ==> (#[trigger] bit(merged@, slot) <==> chunk_reaches(
                        db@,
                        *config,
                        ids,
                        joined(chunks@.subrange(0, k as int)),
                        slot,
                    )),
                layer_edges == saturated(
                    chunk_edges(db@, *config, ids, joined(chunks@.subrange(0, k as int))),
                ),
            decreases partials@.len() - k,
        {
            let ghost done = chunks@.subrange(0, k as int);
            let ghost more = chunks@.subrange(0, k + 1);
            let ghost held = merged@;
            assert(is_partial(db@, *config, ids, chunks@[k as int]@, partials@[k as int]));
            merge_bits(&mut merged, &partials[k].bitmap);
            layer_edges = saturating_sum(layer_edges, partials[k].edges);
            proof {
                assert(more.drop_last() =~= done);
                assert(more.last() == chunks@[k as int]);
                lemma_chunk_edges_concat(
                    db@,
                    *config,
                    ids,
                    joined(done),
                    chunks@[k as int]@,
                );
                assert forall|slot: int| 0 <= slot < ids.len() implies (#[trigger] bit(
                    merged@,
                    slot,
                ) <==> chunk_reaches(db@, *config, ids, joined(more), slot)) by {
                    lemma_chunk_reaches_concat(
                        db@,
                        *config,
                        ids,
                        joined(done),
                        chunks@[k as int]@,
                        slot,
                    );
                    assert(bit(held, slot) <==> chunk_reaches(
                        db@,
                        *config,
                        ids,
                        joined(done),
                        slot,
                    ));
                    assert(bit(partials@[k as int].bitmap@, slot) <==> chunk_reaches(
                        db@,
                        *config,
                        ids,
                        chunks@[k as int]@,
                        slot,
                    ));
                }
            }
            k += 1;
        }
        let traversed: usize = saturating_sum(self.traversed_edges, layer_edges);
        let ghost above = nodes_above(depths, level);
        let ghost now_above = layer_set(ids, above, frontier);
        proof {
            assert(chunks@.subrange(0, k as int) =~= chunks@);
            lemma_layer_edges(db@, *config, ids, above, frontier);
            lemma_targets_bound(db@, *config, ids, now_above);
            assert(traversed == saturated(targets_of(db@, *config, ids, now_above)));
            assert forall|id: NodeId| #[trigger] now_above.contains(id) implies config.max_depth > 0
                && within(
                reach_steps(db@, *config),
                source_id,
                id,
                (config.max_depth - 1) as nat,
            ) by {
                assert(depths.contains_key(id) && depths[id] <= level);
                assert(is_distance(reach_steps(db@, *config), source_id, id, depths[id]));
                lemma_within_grows(
                    reach_steps(db@, *config),
                    source_id,
                    id,
                    depths[id],
                    (config.max_depth - 1) as nat,
                );
            }
            lemma_total_covers(db@, *config, source_id, ids, now_above);
            assert(now_above =~= known) by {
                assert forall|id: NodeId| now_above.contains(id) <==> depths.dom().contains(id) by {
                    if depths.contains_key(id) && depths[id] >= level {
                        assert(depths[id] <= level);
                        assert(db@.nodes.dom().contains(id));
                        assert(ids.to_set().contains(id));
                        let f = choose|f: int| 0 <= f < ids.len() && ids[f] == id;
                        assert(ids.len() == self.ids.len());
                        assert(frontier.contains(f as usize));
                        let n = choose|n: int|
                            0 <= n < frontier.len() && frontier[n] == f as usize;
                        assert(ids[frontier[n] as int] == id);
                    }
                }
            }
        }
        if traversed > config.max_edges {
            return Err(
                query_execution(
                    "图扩展检查边数超过预算 (Graph expansion examined-edge budget exceeded)",
                ),
            );
        }
        let next_depth: usize = self.depth + 1;
        let mut next: Vec<usize> = Vec::new();
        let mut slot: usize = 0;
        while slot < self.ids.len()
            invariant
                slot <= ids.len(),
                *self == start,
                ids == self.ids@,
                depths == self.depths@,
                frontier == self.frontier@,
                level == self.depth,
                level < config.max_depth,
                next_depth == level + 1,
                nodes == db@.nodes.dom().len(),
                ids.len() == nodes,
                db@.nodes.dom().finite(),
                start.inv(db@, *config, source_id),
                is_reach(db@, *config, source_id, reach_set(db@, *config, source_id)),
                reach_set(db@, *config, source_id).len() <= nodes,
                count == word_count(ids.len()),
                ids.len() <= 64 * count,
                merged@.len() == count,
                forall|s: int| 0 <= s < ids.len() ==> #[trigger] (s / 64) < count,
                forall|s: int|
                    0 <= s < ids.len() ==> (#[trigger] bit(merged@, s) <==> chunk_reaches(
                        db@,
                        *config,
                        ids,
                        frontier,
                        s,
                    )),
                forall|i: int|
                    0 <= i < frontier.len() ==> depths.contains_key(
                        ids[(#[trigger] frontier[i]) as int],
                    ) && depths[ids[frontier[i] as int]] == level,
                valid_slots(ids, next@),
                next@.no_duplicates(),
                forall|i: int|
                    0 <= i < next@.len() ==> (#[trigger] next@[i]) < slot && is_fresh(
                        merged@,
                        start.visited@,
                        next@[i] as int,
                    ),
                forall|s: usize|
                    s < slot && #[trigger] is_fresh(merged@, start.visited@, s as int)
                        ==> next@.contains(s),
                next@.len() <= slot,
                self.visited_count + next@.len() <= config.max_visited_nodes || next@.len() == 0,
                next@.len() <= config.max_frontier_size,
                adjacency == reach_steps(db@, *config),
                beyond == sphere(adjacency, source_id, level + 1),
                known == ball(adjacency, source_id, level),
                self.visited_count == known.len(),
                beyond.finite(),
                forall|id: NodeId|
                    is_distance(adjacency, source_id, id, level + 1)
                        <==> #[trigger] beyond.contains(id),
                saturated(targets_of(db@, *config, ids, known)) <= config.max_edges,
            decreases ids.len() - slot,
        {
            assert((slot as int) / 64 < count);
            let ghost before = next@;
            if test_bit(&merged, slot) && !test_bit(&self.visited, slot) {
                assert(is_fresh(merged@, start.visited@, slot as int));
                proof {
                    lemma_fresh_all(
                        db@,
                        *config,
                        source_id,
                        start,
                        merged@,
                        next@,
                        slot,
                    );
                    assert forall|i: int| 0 <= i < next@.len() implies beyond.contains(
                        ids[(#[trigger] next@[i]) as int],
                    ) && ids[next@[i] as int] != ids[slot as int] by {
                        assert(is_distance(adjacency, source_id, ids[next@[i] as int], level + 1));
                        assert(ids[next@[i] as int] < ids[slot as int]);
                    }
                    assert(beyond.contains(ids[slot as int]));
                    lemma_slots_named(ids, next@, beyond);
                }
                if next.len() >= config.max_frontier_size {
                    return Err(
                        query_execution(
                            "图扩展前沿超过预算 (Graph expansion frontier budget exceeded)",
                        ),
                    );
                }
                proof {
                    lemma_grown(
                        db@,
                        *config,
                        source_id,
                        depths,
                        start.results@,
                        ids,
                        next@,
                        next_depth as nat,
                    );
                    let wide = grown(depths, ids, next@, next_depth as nat);
                    assert(!wide.contains_key(ids[slot as int])) by {
                        assert(!next@.contains(slot)) by {
                            if next@.contains(slot) {
                                let n = choose|n: int| 0 <= n < next@.len() && next@[n] == slot;
                                assert(next@[n] < slot);
                            }
                        }
                        assert(next@.contains(slot) || depths.contains_key(ids[slot as int])
                            <==> wide.contains_key(ids[slot as int]));
                        assert(bit(start.visited@, slot as int) <==> depths.contains_key(
                            ids[slot as int],
                        ));
                    }
                    lemma_too_many(
                        db@,
                        *config,
                        source_id,
                        wide,
                        start.results@,
                        ids[slot as int],
                        next_depth as nat,
                    );
                }
                if self.visited_count >= config.max_visited_nodes || next.len()
                    >= config.max_visited_nodes - self.visited_count {
                    assert(reach_set(db@, *config, source_id).len() > config.max_visited_nodes);
                    return Err(
                        query_execution(
                            "图扩展访问节点数超过预算 (Graph expansion visited-node budget exceeded)",
                        ),
                    );
                }
                next.push(slot);
                proof {
                    assert(next@[before.len() as int] == slot);
                    assert(!before.contains(slot)) by {
                        if before.contains(slot) {
                            let n = choose|n: int| 0 <= n < before.len() && before[n] == slot;
                            assert(before[n] < slot);
                        }
                    }
                }
            }
            proof {
                assert forall|s: usize|
                    s < slot + 1 && #[trigger] is_fresh(
                        merged@,
                        start.visited@,
                        s as int,
                    ) implies next@.contains(s) by {
                    if s < slot {
                        assert(before.contains(s));
                        let n = choose|n: int| 0 <= n < before.len() && before[n] == s;
                        assert(next@[n] == s);
                    }
                }
            }
            slot += 1;
        }
        proof {
            lemma_fresh_all(db@, *config, source_id, start, merged@, next@, 0);
            lemma_layer_found(db@, *config, source_id, start, merged@, next@);
        }
        let mut i: usize = 0;
        while i < next.len()
            invariant
                i <= next@.len(),
                ids == self.ids@,
                self.frontier@ == frontier,
                depths == start.depths@,
                ids == start.ids@,
                level == start.depth,
                start == *old(self),
                layer_stop(db@, *config, source_id, ids, level) == (if level + 1
                    >= config.min_depth && start.results@.len() + next@.len()
                    > config.max_results {
                    Some(Bound::Results)
                } else {
                    None::<Bound>
                }),
                self.results@.len() == start.results@.len() + (if next_depth >= config.min_depth {
                    i as int
                } else {
                    0
                }),
                next_depth >= config.min_depth ==> self.results@.len() <= config.max_results,
                self.depth == start.depth,
                self.visited_count == start.visited_count,
                self.traversed_edges == start.traversed_edges,
                level < config.max_depth,
                next_depth == level + 1,
                nodes == db@.nodes.dom().len(),
                ids.len() == nodes,
                start.inv(db@, *config, source_id),
                count == word_count(ids.len()),
                ids.len() <= 64 * count,
                self.visited@.len() == count,
                forall|s: int| 0 <= s < ids.len() ==> #[trigger] (s / 64) < count,
                wanted_set(db@, *config, source_id).finite(),
                wanted_set(db@, *config, source_id).len() <= nodes,
                forall|id: NodeId| #[trigger]
                    wanted_set(db@, *config, source_id).contains(id) <==> is_wanted(
                        db@,
                        *config,
                        source_id,
                        id,
                    ),
                valid_slots(ids, next@),
                next@.no_duplicates(),
                forall|n: int|
                    0 <= n < next@.len() ==> !depths.contains_key(
                        ids[(#[trigger] next@[n]) as int],
                    ) && is_distance(
                        reach_steps(db@, *config),
                        source_id,
                        ids[next@[n] as int],
                        next_depth as nat,
                    ),
                hits_sound(
                    db@,
                    *config,
                    source_id,
                    grown(depths, ids, next@.subrange(0, i as int), next_depth as nat),
                    self.results@,
                ),
                hits_complete(
                    *config,
                    grown(depths, ids, next@.subrange(0, i as int), next_depth as nat),
                    self.results@,
                ),
                forall|s: int|
                    0 <= s < ids.len() ==> (#[trigger] bit(self.visited@, s) <==> (bit(
                        start.visited@,
                        s,
                    ) || exists|n: int| 0 <= n < i && (#[trigger] next@[n]) == s)),
            decreases next@.len() - i,
        {
            let found: usize = next[i];
            let ghost few = next@.subrange(0, i as int);
            let ghost many = next@.subrange(0, i + 1);
            let ghost narrow = grown(depths, ids, few, next_depth as nat);
            let ghost wide = grown(depths, ids, many, next_depth as nat);
            let ghost held = self.results@;
            let ghost marked = self.visited@;
            assert((found as int) / 64 < count);
            set_bit(&mut self.visited, found);
            proof {
                lemma_part(db@, *config, source_id, depths, ids, next@, i as int, next_depth as nat);
                lemma_part(
                    db@,
                    *config,
                    source_id,
                    depths,
                    ids,
                    next@,
                    i + 1,
                    next_depth as nat,
                );
                lemma_grown(
                    db@,
                    *config,
                    source_id,
                    depths,
                    start.results@,
                    ids,
                    few,
                    next_depth as nat,
                );
                assert(many.drop_last() =~= few);
                assert(many.last() == found);
                assert(wide == narrow.insert(ids[found as int], next_depth as nat));
                assert(!narrow.contains_key(ids[found as int])) by {
                    assert(!few.contains(found)) by {
                        if few.contains(found) {
                            let n = choose|n: int| 0 <= n < few.len() && few[n] == found;
                            assert(next@[n] == next@[i as int]);
                        }
                    }
                    assert(few.contains(found) || depths.contains_key(ids[found as int])
                        <==> narrow.contains_key(ids[found as int]));
                }
                lemma_too_many(
                    db@,
                    *config,
                    source_id,
                    narrow,
                    held,
                    ids[found as int],
                    next_depth as nat,
                );
            }
            if next_depth >= config.min_depth {
                if self.results.len() >= config.max_results {
                    assert(wanted_set(db@, *config, source_id).len() > config.max_results);
                    assert(layer_stop(db@, *config, source_id, ids, level) == Some(
                        Bound::Results,
                    ));
                    return Err(
                        query_execution(
                            "图扩展结果数超过预算 (Graph expansion result budget exceeded)",
                        ),
                    );
                }
                let hit = ReachabilityHit { target_id: self.ids[found], depth: next_depth };
                self.results.push(hit);
            }
            proof {
                lemma_recorded(
                    db@,
                    *config,
                    source_id,
                    narrow,
                    wide,
                    held,
                    self.results@,
                    ids[found as int],
                    next_depth,
                );
                assert forall|s: int| 0 <= s < ids.len() implies (#[trigger] bit(self.visited@, s)
                    <==> (bit(start.visited@, s) || exists|n: int|
                    0 <= n < i + 1 && (#[trigger] next@[n]) == s)) by {
                    assert(bit(marked, s) <==> (bit(start.visited@, s) || exists|n: int|
                        0 <= n < i && (#[trigger] next@[n]) == s));
                    assert(bit(self.visited@, s) <==> (bit(marked, s) || s == found));
                    if s == found {
                        assert(next@[i as int] == s);
                    }
                    if exists|n: int| 0 <= n < i + 1 && (#[trigger] next@[n]) == s {
                        let n = choose|n: int| 0 <= n < i + 1 && (#[trigger] next@[n]) == s;
                        if n < i {
                            assert(next@[n] == s);
                        }
                    }
                }
            }
            i += 1;
        }
        self.visited_count = self.visited_count + next.len();
        self.traversed_edges = traversed;
        self.depth = next_depth;
        self.frontier = next;
        let ghost wide = grown(depths, ids, next@, next_depth as nat);
        self.depths = Ghost(wide);
        proof {
            assert(next@.subrange(0, i as int) =~= next@);
            lemma_grown(
                db@,
                *config,
                source_id,
                depths,
                start.results@,
                ids,
                next@,
                next_depth as nat,
            );
            lemma_layer_recorded(
                db@,
                *config,
                source_id,
                start,
                *self,
                merged@,
                above,
                now_above,
            );
        }
        Ok(())
    }
}

/// The fresh slots are all nodes of the next layer.
proof fn lemma_layer_found<T: VectorType>(
    table: Table<T>,
    config: ReachabilityConfig,
    source: NodeId,
    start: LayeredTraversal,
    merged: Seq<u64>,
    next: Seq<usize>,
)
    requires
        start.inv(table, config, source),
        start.depth < config.max_depth,
        valid_slots(start.ids@, next),
        next.no_duplicates(),
        forall|s: int|
            0 <= s < start.ids@.len() ==> (#[trigger] bit(merged, s) <==> chunk_reaches(
                table,
                config,
                start.ids@,
                start.frontier@,
                s,
            )),
        forall|i: int|
            0 <= i < next.len() ==> is_fresh(merged, start.visited@, (#[trigger] next[i]) as int),
        forall|s: usize|
            s < start.ids@.len() && #[trigger] is_fresh(merged, start.visited@, s as int)
                ==> next.contains(s),
    ensures
        next.len() == sphere(
            reach_steps(table, config),
            source,
            (start.depth + 1) as nat,
        ).len(),
{
    let steps = reach_steps(table, config);
    let ids = start.ids@;
    let depths = start.depths@;
    let level = start.depth as nat;
    let beyond = sphere(steps, source, level + 1);
    lemma_fresh_all(table, config, source, start, merged, next, 0);
    lemma_layer_known(table, config, source, start);
    assert forall|i: int| 0 <= i < next.len() implies beyond.contains(
        ids[(#[trigger] next[i]) as int],
    ) by {
        assert(is_distance(steps, source, ids[next[i] as int], level + 1));
    }
    assert forall|id: NodeId| #[trigger] beyond.contains(id) implies exists|i: int|
        0 <= i < next.len() && ids[(#[trigger] next[i]) as int] == id by {
        let via = choose|via: NodeId|
            within(steps, source, via, level) && #[trigger] steps(via, id);
        assert(depths.dom().contains(via));
        assert(!depths.dom().contains(id));
        assert(!(depths[via] < level));
        assert(depths[via] == level);
        lemma_can_step_in_table(table, config, via, id);
        assert(ids.to_set().contains(via));
        assert(ids.to_set().contains(id));
        let f = choose|f: int| 0 <= f < ids.len() && ids[f] == via;
        let t = choose|t: int| 0 <= t < ids.len() && ids[t] == id;
        assert(ids.len() == start.ids.len());
        assert(start.frontier@.contains(f as usize));
        let n = choose|n: int|
            0 <= n < start.frontier@.len() && start.frontier@[n] == f as usize;
        assert(can_step(table, config, ids[start.frontier@[n] as int], ids[t]));
        assert(chunk_reaches(table, config, ids, start.frontier@, t));
        assert(bit(merged, t));
        assert(bit(start.visited@, t) <==> depths.contains_key(ids[t]));
        assert(is_fresh(merged, start.visited@, (t as usize) as int));
        assert(next.contains(t as usize));
        let m = choose|m: int| 0 <= m < next.len() && next[m] == t as usize;
        assert(ids[next[m] as int] == id);
    }
    lemma_slots_named(ids, next, beyond);
}

/// The fresh slots are new nodes one step away.
proof fn lemma_fresh_all<T: VectorType>(
    table: Table<T>,
    config: ReachabilityConfig,
    source: NodeId,
    start: LayeredTraversal,
    merged: Seq<u64>,
    next: Seq<usize>,
    slot: usize,
)
    requires
        start.inv(table, config, source),
        valid_slots(start.ids@, next),
        forall|s: int|
            0 <= s < start.ids@.len() ==> (#[trigger] bit(merged, s) <==> chunk_reaches(
                table,
                config,
                start.ids@,
                start.frontier@,
                s,
            )),
        forall|i: int|
            0 <= i < next.len() ==> is_fresh(merged, start.visited@, (#[trigger] next[i]) as int),
    ensures
        forall|i: int|
            0 <= i < next.len() ==> !start.depths@.contains_key(
                start.ids@[(#[trigger] next[i]) as int],
            ) && is_distance(
                reach_steps(table, config),
                source,
                start.ids@[next[i] as int],
                (start.depth + 1) as nat,
            ),
        slot < start.ids@.len() && is_fresh(merged, start.visited@, slot as int) ==> is_distance(
            reach_steps(table, config),
            source,
            start.ids@[slot as int],
            (start.depth + 1) as nat,
        ),
{
    let ids = start.ids@;
    let depths = start.depths@;
    assert forall|i: int| 0 <= i < start.frontier@.len() implies depths.contains_key(
        ids[(#[trigger] start.frontier@[i]) as int],
    ) && depths[ids[start.frontier@[i] as int]] == start.depth by {
        assert(start.frontier@.contains(start.frontier@[i]));
    }
    assert forall|i: int| 0 <= i < next.len() implies !depths.contains_key(
        ids[(#[trigger] next[i]) as int],
    ) && is_distance(
        reach_steps(table, config),
        source,
        ids[next[i] as int],
        (start.depth + 1) as nat,
    ) by {
        let s = next[i] as int;
        assert(bit(start.visited@, s) <==> depths.contains_key(ids[s]));
        assert(bit(merged, s) <==> chunk_reaches(table, config, ids, start.frontier@, s));
        lemma_fresh_distance(
            table,
            config,
            source,
            depths,
            start.results@,
            ids,
            start.frontier@,
            start.depth as nat,
            s,
        );
    }
    if slot < ids.len() && is_fresh(merged, start.visited@, slot as int) {
        let s = slot as int;
        assert(bit(start.visited@, s) <==> depths.contains_key(ids[s]));
        lemma_fresh_distance(
            table,
            config,
            source,
            depths,
            start.results@,
            ids,
            start.frontier@,
            start.depth as nat,
            s,
        );
    }
}

/// The first slots of a layer are slots of the layer.
proof fn lemma_part<T: VectorType>(
    table: Table<T>,
    config: ReachabilityConfig,
    source: NodeId,
    depths: Map<NodeId, nat>,
    ids: Seq<NodeId>,
    next: Seq<usize>,
    count: int,
    depth: nat,
)
    requires
        0 <= count <= next.len(),
        valid_slots(ids, next),
        next.no_duplicates(),
        forall|i: int|
            0 <= i < next.len() ==> !depths.contains_key(ids[(#[trigger] next[i]) as int])
                && is_distance(reach_steps(table, config), source, ids[next[i] as int], depth),
    ensures
        valid_slots(ids, next.subrange(0, count)),
        next.subrange(0, count).no_duplicates(),
        forall|i: int|
            0 <= i < count ==> !depths.contains_key(
                ids[(#[trigger] next.subrange(0, count)[i]) as int],
            ) && is_distance(
                reach_steps(table, config),
                source,
                ids[next.subrange(0, count)[i] as int],
                depth,
            ),
{
    let few = next.subrange(0, count);
    assert forall|i: int| 0 <= i < few.len() implies (#[trigger] few[i]) < ids.len()
        && !depths.contains_key(ids[few[i] as int]) && is_distance(
        reach_steps(table, config),
        source,
        ids[few[i] as int],
        depth,
    ) by {
        assert(few[i] == next[i]);
    }
    assert forall|i: int, j: int|
        0 <= i < few.len() && 0 <= j < few.len() && i != j implies few[i] != few[j] by {
        assert(next[i] != next[j]);
    }
}

/// Recording one node of a layer.
proof fn lemma_recorded<T: VectorType>(
    table: Table<T>,
    config: ReachabilityConfig,
    source: NodeId,
    narrow: Map<NodeId, nat>,
    wide: Map<NodeId, nat>,
    held: Seq<ReachabilityHit>,
    hits: Seq<ReachabilityHit>,
    found: NodeId,
    depth: usize,
)
    requires
        hits_sound(table, config, source, narrow, held),
        hits_complete(config, narrow, held),
        wide == narrow.insert(found, depth as nat),
        !narrow.contains_key(found),
        table.well_formed(),
        table.nodes.contains_key(source),
        depth <= config.max_depth,
        is_distance(reach_steps(table, config), source, found, depth as nat),
        config.min_depth <= depth ==> held.len() < config.max_results && hits == held.push(
            ReachabilityHit { target_id: found, depth },
        ),
        config.min_depth > depth ==> hits == held,
    ensures
        hits_sound(table, config, source, wide, hits),
        hits_complete(config, wide, hits),
{
    crate::graph::compact::lemma_within_in_table(table, config, source, found, depth as nat);
    assert(wide.dom() =~= narrow.dom().insert(found));
    assert forall|id: NodeId| #[trigger] wide.contains_key(id) implies wide[id] <= config.max_depth
        && is_distance(reach_steps(table, config), source, id, wide[id]) by {
        if id != found {
            assert(narrow.contains_key(id));
        }
    }
    assert forall|i: int| 0 <= i < hits.len() implies wide.contains_key(
        (#[trigger] hits[i]).target_id,
    ) && wide[hits[i].target_id] == hits[i].depth && config.min_depth <= hits[i].depth by {
        if i < held.len() {
            assert(hits[i] == held[i]);
            assert(narrow.contains_key(held[i].target_id));
        }
    }
    assert forall|i: int, j: int| 0 <= i < j < hits.len() implies (#[trigger] hits[i]).target_id
        != (#[trigger] hits[j]).target_id by {
        assert(hits[i] == held[i]);
        assert(narrow.contains_key(held[i].target_id));
        if j < held.len() {
            assert(hits[j] == held[j]);
        }
    }
    assert forall|id: NodeId| #[trigger]
        wide.contains_key(id) && config.min_depth <= wide[id] implies hit_reported(hits, id) by {
        if id == found {
            assert(hits[held.len() as int].target_id == found);
        } else {
            assert(narrow.contains_key(id));
            assert(hit_reported(held, id));
            let i = choose|i: int| 0 <= i < held.len() && (#[trigger] held[i]).target_id == id;
            assert(hits[i].target_id == id);
        }
    }
}

/// The state after a layer has been recorded.
proof fn lemma_layer_recorded<T: VectorType>(
    table: Table<T>,
    config: ReachabilityConfig,
    source: NodeId,
    start: LayeredTraversal,
    end: LayeredTraversal,
    merged: Seq<u64>,
    above: Set<NodeId>,
    now_above: Set<NodeId>,
)
    requires
        start.inv(table, config, source),
        start.depth < config.max_depth,
        end.ids@ == start.ids@,
        end.depth == start.depth + 1,
        end.depths@ == grown(start.depths@, start.ids@, end.frontier@, end.depth as nat),
        valid_slots(start.ids@, end.frontier@),
        end.frontier@.no_duplicates(),
        hits_sound(table, config, source, end.depths@, end.results@),
        hits_complete(config, end.depths@, end.results@),
        end.depths@.dom().len() == start.depths@.dom().len() + end.frontier@.len(),
        forall|id: NodeId| #[trigger]
            start.depths@.contains_key(id) ==> end.depths@.contains_key(id) && end.depths@[id]
                == start.depths@[id],
        forall|id: NodeId| #[trigger]
            end.depths@.contains_key(id) && !start.depths@.contains_key(id) ==> end.depths@[id]
                == end.depth,
        forall|slot: usize|
            slot < start.ids@.len() ==> (#[trigger] end.frontier@.contains(slot)
                || start.depths@.contains_key(start.ids@[slot as int]) <==> end.depths@.contains_key(
                start.ids@[slot as int],
            )),
        forall|i: int|
            0 <= i < end.frontier@.len() ==> is_fresh(
                merged,
                start.visited@,
                (#[trigger] end.frontier@[i]) as int,
            ),
        forall|s: usize|
            s < start.ids@.len() && #[trigger] is_fresh(merged, start.visited@, s as int)
                ==> end.frontier@.contains(s),
        forall|s: int|
            0 <= s < start.ids@.len() ==> (#[trigger] bit(merged, s) <==> chunk_reaches(
                table,
                config,
                start.ids@,
                start.frontier@,
                s,
            )),
        end.visited@.len() == word_count(start.ids@.len()),
        forall|s: int|
            0 <= s < start.ids@.len() ==> (#[trigger] bit(end.visited@, s) <==> (bit(
                start.visited@,
                s,
            ) || exists|n: int| 0 <= n < end.frontier@.len() && (#[trigger] end.frontier@[n]) == s)),
        end.visited_count == start.visited_count + end.frontier@.len(),
        start.visited_count + end.frontier@.len() <= config.max_visited_nodes
            || end.frontier@.len() == 0,
        above == nodes_above(start.depths@, start.depth as nat),
        now_above == layer_set(start.ids@, above, start.frontier@),
        forall|id: NodeId| #[trigger]
            now_above.contains(id) <==> above.contains(id) || exists|i: int|
                0 <= i < start.frontier@.len() && start.ids@[(
                #[trigger] start.frontier@[i]) as int] == id,
        end.traversed_edges == saturated(targets_of(table, config, start.ids@, now_above)),
        end.traversed_edges <= config.max_edges,
    ensures
        end.inv(table, config, source),
{
    let ids = start.ids@;
    let depths = start.depths@;
    let wide = end.depths@;
    let adjacency = reach_steps(table, config);
    assert(ids.len() == start.ids.len());
    assert forall|id: NodeId| #[trigger] wide.contains_key(id) implies wide[id] <= end.depth by {
        if depths.contains_key(id) {
            assert(depths[id] <= start.depth);
        }
    }
    assert forall|from: NodeId, to: NodeId|
        wide.contains_key(from) && wide[from] < end.depth && #[trigger] adjacency(from, to) implies
        wide.contains_key(to) && wide[to] <= wide[from] + 1 by {
        assert(depths.contains_key(from));
        if depths[from] < start.depth {
            assert(depths.contains_key(to));
        } else {
            lemma_can_step_in_table(table, config, from, to);
            assert(ids.to_set().contains(from));
            assert(ids.to_set().contains(to));
            let f = choose|f: int| 0 <= f < ids.len() && ids[f] == from;
            let t = choose|t: int| 0 <= t < ids.len() && ids[t] == to;
            assert(start.frontier@.contains(f as usize));
            let n = choose|n: int|
                0 <= n < start.frontier@.len() && start.frontier@[n] == f as usize;
            assert(can_step(table, config, ids[start.frontier@[n] as int], ids[t]));
            assert(chunk_reaches(table, config, ids, start.frontier@, t));
            assert(bit(merged, t));
            assert(bit(start.visited@, t) <==> depths.contains_key(ids[t]));
            if !depths.contains_key(to) {
                assert(is_fresh(merged, start.visited@, (t as usize) as int));
                assert(end.frontier@.contains(t as usize));
            }
        }
    }
    assert forall|slot: usize| slot < ids.len() implies (#[trigger] end.frontier@.contains(slot)
        <==> (wide.contains_key(ids[slot as int]) && wide[ids[slot as int]] == end.depth)) by {
        if end.frontier@.contains(slot) {
            let n = choose|n: int| 0 <= n < end.frontier@.len() && end.frontier@[n] == slot;
            assert(is_fresh(merged, start.visited@, end.frontier@[n] as int));
            assert(bit(start.visited@, slot as int) <==> depths.contains_key(ids[slot as int]));
        }
        if wide.contains_key(ids[slot as int]) && wide[ids[slot as int]] == end.depth {
            if depths.contains_key(ids[slot as int]) {
                assert(depths[ids[slot as int]] <= start.depth);
            }
        }
    }
    assert forall|slot: int| 0 <= slot < ids.len() implies (#[trigger] bit(end.visited@, slot)
        <==> wide.contains_key(ids[slot])) by {
        assert(bit(start.visited@, slot) <==> depths.contains_key(ids[slot]));
        assert(end.frontier@.contains(slot as usize) || depths.contains_key(
            ids[(slot as usize) as int],
        ) <==> wide.contains_key(ids[(slot as usize) as int]));
        if exists|n: int| 0 <= n < end.frontier@.len() && (#[trigger] end.frontier@[n]) == slot {
            let n = choose|n: int|
                0 <= n < end.frontier@.len() && (#[trigger] end.frontier@[n]) == slot;
            assert(end.frontier@.contains(end.frontier@[n]));
        }
        if end.frontier@.contains(slot as usize) {
            let n = choose|n: int|
                0 <= n < end.frontier@.len() && end.frontier@[n] == slot as usize;
            assert(end.frontier@[n] == slot);
        }
    }
    assert(now_above =~= nodes_above(wide, end.depth as nat)) by {
        assert forall|id: NodeId| #[trigger] now_above.contains(id) <==> nodes_above(
            wide,
            end.depth as nat,
        ).contains(id) by {
            if now_above.contains(id) {
                if above.contains(id) {
                    assert(depths.contains_key(id));
                } else {
                    let i = choose|i: int|
                        0 <= i < start.frontier@.len() && ids[(
                        #[trigger] start.frontier@[i]) as int] == id;
                    assert(start.frontier@.contains(start.frontier@[i]));
                    assert(depths.contains_key(id));
                }
            }
            if wide.contains_key(id) && wide[id] < end.depth {
                assert(depths.contains_key(id));
                if depths[id] == start.depth {
                    assert(table.nodes.dom().contains(id));
                    assert(ids.to_set().contains(id));
                    let f = choose|f: int| 0 <= f < ids.len() && ids[f] == id;
                    assert(start.frontier@.contains(f as usize));
                    let n = choose|n: int|
                        0 <= n < start.frontier@.len() && start.frontier@[n] == f as usize;
                    assert(ids[start.frontier@[n] as int] == id);
                }
            }
        }
    }
}

impl LayeredTraversal {
    /// The answer of a finished traversal.
    pub fn finish<T: VectorType>(
        self,
        db: &MemTable<T>,
        config: &ReachabilityConfig,
        source_id: NodeId,
    ) -> (output: CompactReachabilityOutput)
        requires
            self.inv(db@, *config, source_id),
            self.spec_depth() >= config.max_depth || self.spec_frontier().len() == 0,
        ensures
            is_compact_answer(db@, *config, source_id, output),
    {
        let ghost table = db@;
        let ghost depths = self.depths@;
        let ghost adjacency = reach_steps(table, *config);
        let ghost hits = self.results@;
        let ghost ids = self.ids@;
        let ghost above = nodes_above(depths, self.depth as nat);
        let results = sort_items(self.results);
        proof {
            assert(views(hits) =~= hits);
            assert(views(results@) =~= results@);
            assert(ids.len() == self.ids.len());
            assert forall|id: NodeId| #[trigger]
                depths.contains_key(id) && self.frontier@.len() == 0 implies depths[id]
                < self.depth by {
                if depths[id] == self.depth {
                    assert(table.nodes.dom().contains(id));
                    assert(ids.to_set().contains(id));
                    let f = choose|f: int| 0 <= f < ids.len() && ids[f] == id;
                    assert(self.frontier@.contains(f as usize));
                }
            }
            assert(closed_below(adjacency, depths, config.max_depth as nat)) by {
                assert forall|from: NodeId, to: NodeId|
                    depths.contains_key(from) && depths[from] < config.max_depth
                        && #[trigger] adjacency(from, to) implies depths.contains_key(to)
                    && depths[to] <= depths[from] + 1 by {
                    assert(depths[from] < self.depth);
                }
            }
            lemma_compact_answer(table, *config, source_id, depths, hits, results@);
            assert forall|id: NodeId| #[trigger] above.contains(id) <==> config.max_depth > 0
                && within(adjacency, source_id, id, (config.max_depth - 1) as nat) by {
                if depths.contains_key(id) {
                    assert(depths[id] <= self.depth);
                }
                if config.max_depth > 0 {
                    let near = (config.max_depth - 1) as nat;
                    assert(within(adjacency, source_id, id, near) <==> depths.contains_key(id)
                        && depths[id] <= near);
                }
            }
            assert(is_edge_total(
                table,
                *config,
                source_id,
                targets_of(table, *config, ids, above),
            ));
        }
        CompactReachabilityOutput {
            results,
            visited_nodes: self.visited_count,
            traversed_edges: self.traversed_edges,
        }
    }
}

/// The nodes in the range of depths, found layer by layer; each layer is cut into chunks for up
/// to `workers` workers. The answer is the one that `traverse_compact` gives.
pub fn traverse_compact_parallel<T: VectorType>(
    db: &MemTable<T>,
    source_id: NodeId,
    config: &ReachabilityConfig,
    workers: usize,
) -> (result: Result<CompactReachabilityOutput>)
    requires
        db.inv(),
    ensures
        !(db@.nodes.contains_key(source_id) && valid_config(*config)) ==> (result matches Err(error)
            && is_query_fault(db@, source_id, *config, error)),
        db@.nodes.contains_key(source_id) && valid_config(*config) ==> match result {
            Ok(output) => is_compact_answer(db@, *config, source_id, output),
            Err(error) => is_compact_refusal(db@, *config, source_id, error),
        },
        db@.nodes.contains_key(source_id) && valid_config(*config) ==> is_layered_outcome(
            db@,
            *config,
            source_id,
            result,
        ),
        db@.nodes.contains_key(source_id) && valid_config(*config) && compact_covers(db@, *config)
            ==> result is Ok,
{
    let mut traversal = match LayeredTraversal::start(db, source_id, config) {
        Ok(traversal) => traversal,
        Err(error) => {
            return Err(error);
        },
    };
    while !traversal.finished(config)
        invariant
            db.inv(),
            db@.nodes.contains_key(source_id),
            valid_config(*config),
            traversal.inv(db@, *config, source_id),
            lists_nodes(db@, traversal.spec_ids()),
            valid_slots(traversal.spec_ids(), traversal.spec_frontier()),
            comes_to(db@, *config, source_id, traversal.spec_ids(), traversal.spec_depth()),
        decreases config.max_depth - traversal.spec_depth(),
    {
        proof {
            lemma_layer_known(db@, *config, source_id, traversal);
            assert(has_layer(db@, *config, source_id, traversal.spec_depth()));
        }
        let chunks = traversal.chunks(workers);
        let mut partials: Vec<Partial> = Vec::new();
        let mut i: usize = 0;
        while i < chunks.len()
            invariant
                i <= chunks@.len(),
                db.inv(),
                lists_nodes(db@, traversal.spec_ids()),
                valid_slots(traversal.spec_ids(), joined(chunks@)),
                partials@.len() == i,
                forall|j: int|
                    0 <= j < i ==> is_partial(
                        db@,
                        *config,
                        traversal.spec_ids(),
                        (#[trigger] chunks@[j])@,
                        partials@[j],
                    ),
            decreases chunks@.len() - i,
        {
            proof {
                assert forall|n: int| 0 <= n < chunks@[i as int]@.len() implies (
                #[trigger] chunks@[i as int]@[n]) < traversal.spec_ids().len() by {
                    lemma_joined_part(chunks@, i as int, n);
                    let m = choose|m: int|
                        0 <= m < joined(chunks@).len() && joined(chunks@)[m]
                            == chunks@[i as int]@[n];
                    assert(joined(chunks@)[m] < traversal.spec_ids().len());
                }
            }
            let partial = expand_chunk(db, config, traversal.ids(), &chunks[i]);
            partials.push(partial);
            i += 1;
        }
        match traversal.commit_layer(db, config, &chunks, &partials, source_id) {
            Ok(()) => {},
            Err(error) => {
                return Err(error);
            },
        }
    }
    proof {
        lemma_layer_known(db@, *config, source_id, traversal);
        assert(comes_to(db@, *config, source_id, traversal.spec_ids(), traversal.spec_depth()));
    }
    Ok(traversal.finish(db, config, source_id))
}

/// Every entry of a chunk is among the entries of all chunks.
proof fn lemma_joined_part(chunks: Seq<Vec<usize>>, i: int, n: int)
    requires
        0 <= i < chunks.len(),
        0 <= n < chunks[i]@.len(),
    ensures
        joined(chunks).contains(chunks[i]@[n]),
    decreases chunks.len(),
{
    let rest = chunks.drop_last();
    let entry = chunks[i]@[n];
    if i < rest.len() {
        assert(rest[i] == chunks[i]);
        lemma_joined_part(rest, i, n);
        let m = choose|m: int| 0 <= m < joined(rest).len() && joined(rest)[m] == entry;
        assert(joined(chunks)[m] == entry);
    } else {
        assert(joined(chunks)[joined(rest).len() + n] == entry);
    }
}

/// Both ways of traversing give the same answer: two complete answers to one query have the same
/// hits in the same order and the same counts.
pub proof fn law_compact_answers_agree<T: VectorType>(
    table: Table<T>,
    config: ReachabilityConfig,
    source: NodeId,
    one: CompactReachabilityOutput,
    other: CompactReachabilityOutput,
)
    requires
        is_compact_answer(table, config, source, one),
        is_compact_answer(table, config, source, other),
    ensures
        one.results@ == other.results@,
        one.visited_nodes == other.visited_nodes,
        one.traversed_edges == other.traversed_edges,
{
    let a = choose|reached: Set<NodeId>| #[trigger]
        is_reach(table, config, source, reached) && one.visited_nodes == reached.len();
    let b = choose|reached: Set<NodeId>| #[trigger]
        is_reach(table, config, source, reached) && other.visited_nodes == reached.len();
    assert(a =~= b);
    lemma_hit_lists_agree(table, config, source, one.results@, other.results@, 0);
    assert(one.results@ =~= other.results@);
    let s = choose|total: nat| #[trigger]
        is_edge_total(table, config, source, total) && one.traversed_edges == saturated(total);
    let t = choose|total: nat| #[trigger]
        is_edge_total(table, config, source, total) && other.traversed_edges == saturated(total);
    lemma_edge_totals_agree(table, config, source, s, t);
}

/// Both ways of traversing answer a query whose bounds suffice, and answer it alike. The bounds
/// suffice where the steps out of the nearer nodes, the nodes within the depth bound and the wanted
/// nodes are no more than allowed, and the frontier may hold all nodes.
pub proof fn law_sufficient_bounds_are_answered<T: VectorType>(
    table: Table<T>,
    config: ReachabilityConfig,
    source: NodeId,
    total: nat,
    reached: Set<NodeId>,
    wanted: Set<NodeId>,
    one: Result<CompactReachabilityOutput>,
    other: Result<CompactReachabilityOutput>,
)
    requires
        is_edge_total(table, config, source, total),
        total <= config.max_edges,
        is_reach(table, config, source, reached),
        reached.len() <= config.max_visited_nodes,
        forall|id: NodeId| #[trigger]
            wanted.contains(id) <==> is_wanted(table, config, source, id),
        wanted.len() <= config.max_results,
        table.nodes.dom().len() <= config.max_frontier_size,
        match one {
            Ok(output) => is_compact_answer(table, config, source, output),
            Err(error) => is_compact_refusal(table, config, source, error),
        },
        match other {
            Ok(output) => is_compact_answer(table, config, source, output),
            Err(error) => is_compact_refusal(table, config, source, error),
        },
    ensures
        one matches Ok(a) && other matches Ok(b) && a.results@ == b.results@ && a.visited_nodes
            == b.visited_nodes && a.traversed_edges == b.traversed_edges,
{
    if let Err(error) = one {
        lemma_bounds_suffice(table, config, source, total, reached, wanted, error);
    }
    if let Err(error) = other {
        lemma_bounds_suffice(table, config, source, total, reached, wanted, error);
    }
    law_compact_answers_agree(table, config, source, one->Ok_0, other->Ok_0);
}

/// There is nothing to refuse where the bounds suffice.
proof fn lemma_bounds_suffice<T: VectorType>(
    table: Table<T>,
    config: ReachabilityConfig,
    source: NodeId,
    total: nat,
    reached: Set<NodeId>,
    wanted: Set<NodeId>,
    error: TriviumError,
)
    requires
        is_edge_total(table, config, source, total),
        total <= config.max_edges,
        is_reach(table, config, source, reached),
        reached.len() <= config.max_visited_nodes,
        forall|id: NodeId| #[trigger]
            wanted.contains(id) <==> is_wanted(table, config, source, id),
        wanted.len() <= config.max_results,
        table.nodes.dom().len() <= config.max_frontier_size,
    ensures
        !is_compact_refusal(table, config, source, error),
{
    if is_compact_refusal(table, config, source, error) {
        if exists|more: nat| #[trigger]
            is_edge_total(table, config, source, more) && more > config.max_edges {
            let more = choose|more: nat| #[trigger]
                is_edge_total(table, config, source, more) && more > config.max_edges;
            lemma_edge_totals_agree(table, config, source, total, more);
        }
        if exists|more: Set<NodeId>| #[trigger]
            is_reach(table, config, source, more) && more.len() > config.max_visited_nodes {
            let more = choose|more: Set<NodeId>| #[trigger]
                is_reach(table, config, source, more) && more.len() > config.max_visited_nodes;
            assert(more =~= reached);
        }
        if exists|more: Set<NodeId>|
            {
                &&& forall|id: NodeId| #[trigger]
                    more.contains(id) <==> is_wanted(table, config, source, id)
                &&& more.finite()
                &&& #[trigger] more.len() > config.max_results
            } {
            let more = choose|more: Set<NodeId>|
                {
                    &&& forall|id: NodeId| #[trigger]
                        more.contains(id) <==> is_wanted(table, config, source, id)
                    &&& more.finite()
                    &&& #[trigger] more.len() > config.max_results
                };
            assert(more =~= wanted);
        }
    }
}

/// The number of steps out of the nearer nodes is one number.
proof fn lemma_edge_totals_agree<T: VectorType>(
    table: Table<T>,
    config: ReachabilityConfig,
    source: NodeId,
    s: nat,
    t: nat,
)
    requires
        is_edge_total(table, config, source, s),
        is_edge_total(table, config, source, t),
    ensures
        s == t,
{
    let (ids, near) = choose|ids: Seq<NodeId>, near: Set<NodeId>|
        {
            &&& increasing(ids)
            &&& ids.to_set() == table.nodes.dom()
            &&& forall|id: NodeId| #[trigger]
                near.contains(id) <==> config.max_depth > 0 && within(
                    reach_steps(table, config),
                    source,
                    id,
                    (config.max_depth - 1) as nat,
                )
            &&& s == #[trigger] targets_of(table, config, ids, near)
        };
    let (others, close) = choose|ids: Seq<NodeId>, near: Set<NodeId>|
        {
            &&& increasing(ids)
            &&& ids.to_set() == table.nodes.dom()
            &&& forall|id: NodeId| #[trigger]
                near.contains(id) <==> config.max_depth > 0 && within(
                    reach_steps(table, config),
                    source,
                    id,
                    (config.max_depth - 1) as nat,
                )
            &&& t == #[trigger] targets_of(table, config, ids, near)
        };
    assert(near =~= close);
    crate::collections::lemma_increasing_unique(ids, others);
}

/// What one list of the wanted nodes holds, another one holds too.
proof fn lemma_hit_in_other<T: VectorType>(
    table: Table<T>,
    config: ReachabilityConfig,
    source: NodeId,
    x: Seq<ReachabilityHit>,
    y: Seq<ReachabilityHit>,
    i: int,
) -> (j: int)
    requires
        crate::graph::compact::is_hit_list(table, config, source, x),
        crate::graph::compact::is_hit_list(table, config, source, y),
        0 <= i < x.len(),
    ensures
        0 <= j < y.len(),
        y[j] == x[i],
{
    let adjacency = reach_steps(table, config);
    let id = x[i].target_id;
    assert(hit_reported(x, id));
    assert(is_wanted(table, config, source, id));
    assert(hit_reported(y, id));
    let j = choose|j: int| 0 <= j < y.len() && (#[trigger] y[j]).target_id == id;
    let p = x[i].depth as nat;
    let q = y[j].depth as nat;
    assert(is_distance(adjacency, source, id, p));
    assert(is_distance(adjacency, source, id, q));
    if p < q {
        assert(within(adjacency, source, id, p));
    }
    if q < p {
        assert(within(adjacency, source, id, q));
    }
    j
}

/// Two lists of the wanted nodes, both in order, are the same from any position on.
proof fn lemma_hit_lists_agree<T: VectorType>(
    table: Table<T>,
    config: ReachabilityConfig,
    source: NodeId,
    a: Seq<ReachabilityHit>,
    b: Seq<ReachabilityHit>,
    at: int,
)
    requires
        crate::graph::compact::is_hit_list(table, config, source, a),
        crate::graph::compact::is_hit_list(table, config, source, b),
        0 <= at <= a.len(),
        at <= b.len(),
        forall|i: int| 0 <= i < at ==> a[i] == b[i],
    ensures
        a.len() == b.len(),
        forall|i: int| 0 <= i < a.len() ==> a[i] == b[i],
    decreases a.len() - at,
{
    if at < a.len() {
        let j = lemma_hit_in_other(table, config, source, a, b, at);
        assert(at <= j) by {
            if j < at {
                assert(a[j] == b[j]);
                assert(ReachabilityHit::goes_before(a[j], a[at]));
            }
        }
        assert(at < b.len());
        let k = lemma_hit_in_other(table, config, source, b, a, at);
        assert(at <= k) by {
            if k < at {
                assert(a[k] == b[k]);
                assert(ReachabilityHit::goes_before(b[k], b[at]));
            }
        }
        if at < j {
            assert(ReachabilityHit::goes_before(b[at], b[j]));
            if at < k {
                assert(ReachabilityHit::goes_before(a[at], a[k]));
            }
        }
        assert(a[at] == b[at]);
        lemma_hit_lists_agree(table, config, source, a, b, at + 1);
    } else if at < b.len() {
        let k = lemma_hit_in_other(table, config, source, b, a, at);
        assert(a[k] == b[k]);
        assert(ReachabilityHit::goes_before(b[k], b[at]));
    }
}

} // verus!
