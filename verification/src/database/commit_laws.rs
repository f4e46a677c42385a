//! Under which identifiers a transaction and a statement insert their nodes.
use vstd::prelude::*;

use crate::database::mutation::{edge_end, insert_count, variable_id, Mutation};
use crate::database::transaction::{
    accepts, accepts_first, apply_changes, ids_fit, inserted_ids, law_check_simulates_commit,
    law_checked_operations_act, plan, sim_after, Op,
};
use crate::node::NodeId;
use crate::storage::memtable::{law_insert_reads_back, Table};
use crate::vector::VectorType;

verus! {

/// Whether an operation inserts a node.
pub open spec fn inserts<T>(op: Op<T>) -> bool {
    op is Insert || op is InsertWithId
}

/// How many of the first `count` operations insert a node.
pub open spec fn inserts_before<T>(ops: Seq<Op<T>>, count: int) -> nat
    decreases count,
{
    if count <= 0 {
        0
    } else {
        inserts_before(ops, count - 1) + if inserts(ops[count - 1]) {
            1nat
        } else {
            0nat
        }
    }
}

/// The identifiers of the first operations come first.
proof fn lemma_inserted_ids<T: VectorType>(
    table: Table<T>,
    ops: Seq<Op<T>>,
    few: int,
    many: int,
)
    requires
        0 <= few <= many <= ops.len(),
    ensures
        inserted_ids(table, ops, many).len() == inserts_before(ops, many),
        inserts_before(ops, few) <= inserts_before(ops, many),
        inserted_ids(table, ops, few).len() == inserts_before(ops, few),
        inserted_ids(table, ops, many).take(inserts_before(ops, few) as int) == inserted_ids(
            table,
            ops,
            few,
        ),
    decreases many,
{
    if few < many {
        lemma_inserted_ids(table, ops, few, many - 1);
        let before = inserted_ids(table, ops, many - 1);
        let all = inserted_ids(table, ops, many);
        let n = inserts_before(ops, few) as int;
        assert(all.take(n) =~= before.take(n));
    } else {
        if many > 0 {
            lemma_inserted_ids(table, ops, many - 1, many - 1);
        }
        let all = inserted_ids(table, ops, many);
        assert(all.take(all.len() as int) =~= all);
    }
}

/// A transaction that is accepted hands out one identifier for each node that it inserts, in order.
/// The node of the operation is then under that identifier, which no node had before; an identifier
/// that the caller chose is the one that counts.
pub proof fn law_handed_out_ids_name_the_nodes<T: VectorType>(
    table: Table<T>,
    ops: Seq<Op<T>>,
    k: int,
)
    requires
        table.well_formed(),
        ids_fit(table, ops),
        accepts_first(table, ops, ops.len() as int),
        0 <= k < ops.len(),
        inserts(ops[k]),
    ensures
        ({
            let ids = inserted_ids(table, ops, ops.len() as int);
            let place = inserts_before(ops, k) as int;
            let before = apply_changes(table, plan(table, ops), k);
            let after = apply_changes(table, plan(table, ops), k + 1);
            &&& ids.len() == inserts_before(ops, ops.len() as int)
            &&& place < ids.len()
            &&& !before.nodes.contains_key(ids[place])
            &&& after.nodes.contains_key(ids[place])
            &&& after.nodes[ids[place]].edges.len() == 0
            &&& match ops[k] {
                Op::Insert { vector, payload } => after.nodes[ids[place]].vector == vector
                    && after.nodes[ids[place]].payload == payload,
                Op::InsertWithId { id, vector, payload } => ids[place] == id
                    && after.nodes[id].vector == vector && after.nodes[id].payload == payload,
                _ => true,
            }
        }),
{
    let n = ops.len() as int;
    let ids = inserted_ids(table, ops, n);
    let place = inserts_before(ops, k) as int;
    lemma_inserted_ids(table, ops, k, k + 1);
    lemma_inserted_ids(table, ops, k + 1, n);
    let first = inserted_ids(table, ops, k + 1);
    assert(ids.take(inserts_before(ops, k + 1) as int)[place] == ids[place]);
    assert(first[place] == ids[place]);
    law_checked_operations_act(table, ops, k);
    assert(accepts_first(table, ops, k));
    law_check_simulates_commit(table, ops, k);
    assert(accepts(table, sim_after(table, ops, k), ops[k]));
    let before = apply_changes(table, plan(table, ops), k);
    match ops[k] {
        Op::Insert { vector, payload } => {
            law_insert_reads_back(before, ids[place], vector, payload);
        },
        Op::InsertWithId { id, vector, payload } => {
            law_insert_reads_back(before, id, vector, payload);
        },
        _ => {},
    }
}

/// Inserting more nodes numbers them higher.
proof fn lemma_insert_count<T>(mutations: Seq<Mutation<T>>, few: int, many: int)
    requires
        0 <= few <= many,
    ensures
        insert_count(mutations, few) <= insert_count(mutations, many),
        few < many && mutations[few] is InsertNode ==> insert_count(mutations, few) < insert_count(
            mutations,
            many,
        ),
    decreases many,
{
    if few < many {
        lemma_insert_count(mutations, few, many - 1);
    }
}

/// Which mutation a variable stands for.
proof fn lemma_variable<T>(
    mutations: Seq<Mutation<T>>,
    count: int,
    next: nat,
    var: Seq<char>,
) -> (k: int)
    requires
        0 <= count <= mutations.len(),
        variable_id(mutations, count, next, var) is Some,
    ensures
        0 <= k < count,
        mutations[k] is InsertNode,
        mutations[k]->InsertNode_var == var,
        variable_id(mutations, count, next, var) == Some(
            (next + insert_count(mutations, k)) as NodeId,
        ),
        forall|later: int|
            k < later < count && (#[trigger] mutations[later]) is InsertNode
                ==> mutations[later]->InsertNode_var != var,
    decreases count,
{
    if mutations[count - 1] is InsertNode && mutations[count - 1]->InsertNode_var == var {
        count - 1
    } else {
        lemma_variable(mutations, count - 1, next, var)
    }
}

/// The variables of a statement stand for its new nodes: a variable is defined exactly where the
/// statement inserts a node under its name, its identifier is one that the table has not handed out
/// yet, and two variables never stand for one node. An edge leads from and to the identifiers that it
/// gives, and only where it gives none to what its variables stand for.
pub proof fn law_variables_stand_for_new_nodes<T>(
    mutations: Seq<Mutation<T>>,
    next: nat,
    var: Seq<char>,
    other: Seq<char>,
    id: NodeId,
)
    requires
        next + insert_count(mutations, mutations.len() as int) <= u64::MAX,
    ensures
        ({
            let count = mutations.len() as int;
            let own = variable_id(mutations, count, next, var);
            let others = variable_id(mutations, count, next, other);
            &&& own is Some <==> exists|k: int|
                0 <= k < count && (#[trigger] mutations[k]) is InsertNode
                    && mutations[k]->InsertNode_var == var
            &&& own is Some ==> next <= own->0 < next + insert_count(mutations, count)
            &&& own is Some && others is Some && var != other ==> own->0 != others->0
            &&& id != 0 ==> edge_end(mutations, next, id, var) == Some(id)
            &&& edge_end(mutations, next, 0, var) == own
        }),
{
    let count = mutations.len() as int;
    let own = variable_id(mutations, count, next, var);
    let others = variable_id(mutations, count, next, other);
    if own is Some {
        let k = lemma_variable(mutations, count, next, var);
        lemma_insert_count(mutations, k, count);
        assert(mutations[k] is InsertNode && mutations[k]->InsertNode_var == var);
        if others is Some && var != other {
            let j = lemma_variable(mutations, count, next, other);
            lemma_insert_count(mutations, j, count);
            if j < k {
                lemma_insert_count(mutations, j, k);
            } else {
                lemma_insert_count(mutations, k, j);
            }
        }
    } else {
        lemma_no_variable(mutations, count, next, var);
    }
}

/// A variable that stands for nothing is not inserted.
proof fn lemma_no_variable<T>(
    mutations: Seq<Mutation<T>>,
    count: int,
    next: nat,
    var: Seq<char>,
)
    requires
        0 <= count <= mutations.len(),
        variable_id(mutations, count, next, var) is None,
    ensures
        forall|k: int|
            0 <= k < count && (#[trigger] mutations[k]) is InsertNode
                ==> mutations[k]->InsertNode_var != var,
    decreases count,
{
    if count > 0 {
        lemma_no_variable(mutations, count - 1, next, var);
    }
}

} // verus!
