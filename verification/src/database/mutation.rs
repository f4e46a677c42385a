//! Writing statements of the query language.
//!
//! A statement is worked out to a list of mutations. Nodes that the statement creates are known by
//! the names of variables until they get identifiers.
use vstd::prelude::*;

use crate::database::store::{committed, Database};
use crate::database::transaction::{ids_fit, op_views, sim_after, Op, TxOp};
use crate::error::{is_query_execution, Result, TriviumError};
use crate::node::{edge_views, NodeId, Payload, PayloadView};
use crate::storage::memtable::{leads_to, MemTable, Table};
use crate::storage::wal::WalEntry;
use crate::text::{join, same_text};
use crate::vector::VectorType;

verus! {

/// One change that a statement asks for. An end of an edge is an identifier, or zero where a
/// variable names it. Weights are single precision bit patterns.
#[derive(Debug)]
pub enum MutationOp<T> {
    InsertNode { var: String, vector: Vec<T>, payload: Payload },
    LinkEdge {
        src_id: NodeId,
        dst_id: NodeId,
        src_var: String,
        dst_var: String,
        label: String,
        weight: u32,
    },
    UpdatePayload { id: NodeId, payload: Payload },
    DeleteNode { id: NodeId, detach: bool },
}

/// A mutation as mathematical values.
pub enum Mutation<T> {
    InsertNode { var: Seq<char>, vector: Seq<T>, payload: PayloadView },
    LinkEdge {
        src_id: NodeId,
        dst_id: NodeId,
        src_var: Seq<char>,
        dst_var: Seq<char>,
        label: Seq<char>,
        weight: u32,
    },
    UpdatePayload { id: NodeId, payload: PayloadView },
    DeleteNode { id: NodeId, detach: bool },
}

impl<T> View for MutationOp<T> {
    type V = Mutation<T>;

    open spec fn view(&self) -> Mutation<T> {
        match *self {
            MutationOp::InsertNode { var, vector, payload } => Mutation::InsertNode {
                var: var@,
                vector: vector@,
                payload: payload@,
            },
            MutationOp::LinkEdge {
                src_id,
                dst_id,
                src_var,
                dst_var,
                label,
                weight,
            } => Mutation::LinkEdge {
                src_id,
                dst_id,
                src_var: src_var@,
                dst_var: dst_var@,
                label: label@,
                weight,
            },
            MutationOp::UpdatePayload { id, payload } => Mutation::UpdatePayload {
                id,
                payload: payload@,
            },
            MutationOp::DeleteNode { id, detach } => Mutation::DeleteNode { id, detach },
        }
    }
}

/// A statement, worked out.
#[derive(Debug)]
pub enum TqlStatement<T> {
    /// A statement that only reads.
    Query,
    /// A statement that writes.
    Mutation(Vec<MutationOp<T>>),
}

/// What a writing statement did.
#[derive(Debug)]
pub struct TqlMutResult {
    pub affected: usize,
    pub created_ids: Vec<NodeId>,
}

/// The views of a list of mutations.
pub open spec fn mutation_views<T>(mutations: Seq<MutationOp<T>>) -> Seq<Mutation<T>> {
    mutations.map_values(|mutation: MutationOp<T>| mutation@)
}

/// The number of nodes that the first `count` mutations insert.
pub open spec fn insert_count<T>(mutations: Seq<Mutation<T>>, count: int) -> nat
    decreases count,
{
    if count <= 0 {
        0
    } else {
        insert_count(mutations, count - 1) + if mutations[count - 1] is InsertNode {
            1nat
        } else {
            0nat
        }
    }
}

/// The identifier that a variable stands for after the first `count` mutations: new nodes are
/// numbered from `next` in order, and the last one of that name counts.
pub open spec fn variable_id<T>(
    mutations: Seq<Mutation<T>>,
    count: int,
    next: nat,
    var: Seq<char>,
) -> Option<NodeId>
    decreases count,
{
    if count <= 0 {
        None
    } else if mutations[count - 1] matches Mutation::InsertNode { var: name, .. } && name == var {
        Some((next + insert_count(mutations, count - 1)) as NodeId)
    } else {
        variable_id(mutations, count - 1, next, var)
    }
}

/// The end of an edge: an identifier, or what a variable stands for.
pub open spec fn edge_end<T>(
    mutations: Seq<Mutation<T>>,
    next: nat,
    id: NodeId,
    var: Seq<char>,
) -> Option<NodeId> {
    if id == 0 {
        variable_id(mutations, mutations.len() as int, next, var)
    } else {
        Some(id)
    }
}

/// The variable for which a mutation is refused: the first end of an edge that it does not name.
pub open spec fn undefined_variable<T>(
    mutations: Seq<Mutation<T>>,
    next: nat,
    k: int,
) -> Option<Seq<char>> {
    match mutations[k] {
        Mutation::LinkEdge { src_id, dst_id, src_var, dst_var, .. } => if edge_end(
            mutations,
            next,
            src_id,
            src_var,
        ) is None {
            Some(src_var)
        } else if edge_end(mutations, next, dst_id, dst_var) is None {
            Some(dst_var)
        } else {
            None
        },
        _ => None,
    }
}

/// The operations that remove the edges of a node: those from it in order, and then those to it
/// from each of `sources`.
pub open spec fn detach_ops<T: VectorType>(
    table: Table<T>,
    id: NodeId,
    sources: Seq<NodeId>,
) -> Seq<Op<T>> {
    Seq::new(
        table.edges_of(id).len(),
        |i: int| Op::<T>::Unlink { src: id, dst: table.edges_of(id)[i].target },
    ) + Seq::new(sources.len(), |i: int| Op::<T>::Unlink { src: sources[i], dst: id })
}

/// Whether `sources` are the nodes with an edge to `id`, each once.
pub open spec fn are_sources<T: VectorType>(
    table: Table<T>,
    id: NodeId,
    sources: Seq<NodeId>,
) -> bool {
    sources.no_duplicates() && forall|source: NodeId| #[trigger]
        sources.contains(source) <==> table.nodes.contains_key(source) && leads_to(
            table.nodes[source].edges,
            id,
        )
}

/// Whether `ops` are the operations of the `k`-th mutation.
pub open spec fn is_translation<T: VectorType>(
    table: Table<T>,
    mutations: Seq<Mutation<T>>,
    k: int,
    ops: Seq<Op<T>>,
) -> bool {
    let next = table.next_id;
    match mutations[k] {
        Mutation::InsertNode { var, vector, payload } => ops == seq![
            Op::InsertWithId {
                id: variable_id(mutations, mutations.len() as int, next, var)->0,
                vector,
                payload,
            },
        ],
        Mutation::LinkEdge { src_id, dst_id, src_var, dst_var, label, weight } => ops == seq![
            Op::<T>::Link {
                src: edge_end(mutations, next, src_id, src_var)->0,
                dst: edge_end(mutations, next, dst_id, dst_var)->0,
                label,
                weight,
                metadata: "null"@,
            },
        ],
        Mutation::UpdatePayload { id, payload } => ops == seq![
            Op::<T>::UpdatePayload { id, payload },
        ],
        Mutation::DeleteNode { id, detach } => if detach {
            exists|sources: Seq<NodeId>| #[trigger]
                are_sources(table, id, sources) && ops == detach_ops(table, id, sources).push(
                    Op::Delete { id },
                )
        } else {
            ops == seq![Op::<T>::Delete { id }]
        },
    }
}

/// Whether `ops` are the operations of the first `count` mutations, in order.
pub open spec fn is_plan_of<T: VectorType>(
    table: Table<T>,
    mutations: Seq<Mutation<T>>,
    count: int,
    ops: Seq<Op<T>>,
) -> bool
    decreases count,
{
    if count <= 0 {
        ops.len() == 0
    } else {
        exists|cut: int|
            0 <= cut <= ops.len() && is_plan_of(
                table,
                mutations,
                count - 1,
                #[trigger] ops.take(cut),
            ) && is_translation(table, mutations, count - 1, ops.skip(cut))
    }
}

/// Whether the new nodes of a statement can be numbered.
pub open spec fn has_room<T: VectorType>(table: Table<T>, mutations: Seq<Mutation<T>>) -> bool {
    table.next_id + insert_count(mutations, mutations.len() as int) <= u64::MAX
}

/// The identifiers of the variables, in the order in which the nodes are inserted.
fn number_variables<T: VectorType>(table: &MemTable<T>, mutations: &Vec<MutationOp<T>>) -> (names:
    Vec<(String, NodeId)>)
    requires
        has_room(table@, mutation_views(mutations@)),
    ensures
        forall|var: Seq<char>| #[trigger]
            named(names@, names@.len() as int, var) == variable_id(
                mutation_views(mutations@),
                mutations@.len() as int,
                table@.next_id,
                var,
            ),
{
    let ghost all = mutation_views(mutations@);
    let mut names: Vec<(String, NodeId)> = Vec::new();
    let mut next: NodeId = table.next_id_value();
    let mut i: usize = 0;
    while i < mutations.len()
        invariant
            i <= mutations@.len(),
            all == mutation_views(mutations@),
            has_room(table@, all),
            next == table@.next_id + insert_count(all, i as int),
            forall|var: Seq<char>| #[trigger]
                named(names@, names@.len() as int, var) == variable_id(
                    all,
                    i as int,
                    table@.next_id,
                    var,
                ),
        decreases mutations@.len() - i,
    {
        let ghost before = names@;
        proof {
            lemma_insert_count_grows(all, i + 1, all.len() as int);
            assert(all[i as int] == mutations@[i as int]@);
        }
        match &mutations[i] {
            MutationOp::InsertNode { var, .. } => {
                names.push((var.clone(), next));
                next += 1;
                proof {
                    assert forall|name: Seq<char>| #[trigger]
                        named(names@, names@.len() as int, name) == variable_id(
                        all,
                        i + 1,
                        table@.next_id,
                        name,
                    ) by {
                        lemma_named_prefix(before, names@, before.len() as int, name);
                        assert(named(before, before.len() as int, name) == variable_id(
                            all,
                            i as int,
                            table@.next_id,
                            name,
                        ));
                    }
                }
            },
            _ => {
                proof {
                    assert forall|name: Seq<char>| #[trigger]
                        named(names@, names@.len() as int, name) == variable_id(
                        all,
                        i + 1,
                        table@.next_id,
                        name,
                    ) by {
                        assert(named(before, before.len() as int, name) == variable_id(
                            all,
                            i as int,
                            table@.next_id,
                            name,
                        ));
                    }
                }
            },
        }
        i += 1;
    }
    names
}

/// What the last of the first `count` entries with this name holds.
spec fn named(names: Seq<(String, NodeId)>, count: int, var: Seq<char>) -> Option<NodeId>
    decreases count,
{
    if count <= 0 {
        None
    } else if names[count - 1].0@ == var {
        Some(names[count - 1].1)
    } else {
        named(names, count - 1, var)
    }
}

/// Later entries do not change what the earlier ones hold.
proof fn lemma_named_prefix(
    few: Seq<(String, NodeId)>,
    many: Seq<(String, NodeId)>,
    count: int,
    var: Seq<char>,
)
    requires
        count <= few.len() <= many.len(),
        forall|i: int| 0 <= i < few.len() ==> few[i] == many[i],
    ensures
        named(few, count, var) == named(many, count, var),
    decreases count,
{
    if count > 0 {
        lemma_named_prefix(few, many, count - 1, var);
    }
}

/// More mutations insert no fewer nodes.
proof fn lemma_insert_count_grows<T>(mutations: Seq<Mutation<T>>, few: int, many: int)
    requires
        few <= many,
    ensures
        insert_count(mutations, few) <= insert_count(mutations, many),
    decreases many - few,
{
    if few < many {
        lemma_insert_count_grows(mutations, few, many - 1);
    }
}

/// A variable stands for a number of a new node.
proof fn lemma_variable_bound<T>(
    mutations: Seq<Mutation<T>>,
    count: int,
    next: nat,
    var: Seq<char>,
)
    requires
        next + insert_count(mutations, count) <= u64::MAX,
    ensures
        variable_id(mutations, count, next, var) matches Some(id) ==> next <= id < next
            + insert_count(mutations, count),
    decreases count,
{
    if count > 0 {
        lemma_variable_bound(mutations, count - 1, next, var);
    }
}

/// The variable of an inserted node stands for an identifier.
proof fn lemma_variable_known<T>(
    mutations: Seq<Mutation<T>>,
    count: int,
    next: nat,
    k: int,
)
    requires
        0 <= k < count,
        mutations[k] is InsertNode,
    ensures
        variable_id(mutations, count, next, mutations[k]->InsertNode_var) is Some,
    decreases count,
{
    if k < count - 1 {
        lemma_variable_known(mutations, count - 1, next, k);
    }
}

/// What a variable stands for.
fn find_variable(names: &Vec<(String, NodeId)>, var: &str) -> (id: Option<NodeId>)
    ensures
        id == named(names@, names@.len() as int, var@),
{
    let mut i: usize = names.len();
    while i > 0
        invariant
            i <= names@.len(),
            named(names@, names@.len() as int, var@) == named(names@, i as int, var@),
        decreases i,
    {
        if same_text(names[i - 1].0.as_str(), var) {
            return Some(names[i - 1].1);
        }
        i -= 1;
    }
    None
}

/// The end of an edge, or an error that names the variable.
fn resolve_end(names: &Vec<(String, NodeId)>, id: NodeId, var: &str) -> (result: Result<NodeId>)
    ensures
        id != 0 ==> result == Ok::<NodeId, TriviumError>(id),
        id == 0 ==> match named(names@, names@.len() as int, var@) {
            Some(known) => result == Ok::<NodeId, TriviumError>(known),
            None => result matches Err(error) && is_query_execution(
                error,
                "CREATE 边引用了未定义变量 "@ + var@,
            ),
        },
{
    if id != 0 {
        return Ok(id);
    }
    match find_variable(names, var) {
        Some(known) => Ok(known),
        None => Err(TriviumError::QueryExecution(join("CREATE 边引用了未定义变量 ", var))),
    }
}

/// One more operation.
fn append_op<T>(ops: &mut Vec<TxOp<T>>, op: TxOp<T>)
    ensures
        op_views(final(ops)@) == op_views(old(ops)@).push(op@),
{
    let ghost before = ops@;
    ops.push(op);
    assert(op_views(ops@) =~= op_views(before).push(op@));
}

/// The operations that remove the edges of a node.
fn append_detach<T: VectorType>(table: &MemTable<T>, id: NodeId, ops: &mut Vec<TxOp<T>>)
    requires
        table.inv(),
    ensures
        exists|sources: Seq<NodeId>| #[trigger]
            are_sources(table@, id, sources) && op_views(final(ops)@) == op_views(old(ops)@)
                + detach_ops(table@, id, sources),
{
    let ghost start = op_views(ops@);
    let ghost out = Seq::new(
        table@.edges_of(id).len(),
        |i: int| Op::<T>::Unlink { src: id, dst: table@.edges_of(id)[i].target },
    );
    match table.get_edges(id) {
        Some(edges) => {
            let mut i: usize = 0;
            assert(start + out.take(0) =~= start);
            while i < edges.len()
                invariant
                    i <= edges@.len(),
                    edge_views(edges@) == table@.edges_of(id),
                    out == Seq::new(
                        table@.edges_of(id).len(),
                        |i: int| Op::<T>::Unlink { src: id, dst: table@.edges_of(id)[i].target },
                    ),
                    op_views(ops@) == start + out.take(i as int),
                decreases edges@.len() - i,
            {
                let target: NodeId = edges[i].target_id;
                assert(edge_views(edges@)[i as int].target == target);
                append_op(ops, TxOp::Unlink { src: id, dst: target });
                proof {
                    assert(out.take(i + 1) =~= out.take(i as int).push(out[i as int]));
                    assert(start + out.take(i + 1) =~= (start + out.take(i as int)).push(
                        out[i as int],
                    ));
                }
                i += 1;
            }
            assert(edge_views(edges@).len() == edges@.len());
            assert(out.take(i as int) =~= out);
        },
        None => {
            assert(start + out =~= start);
        },
    }
    let sources = table.get_incoming_sources(id);
    let ghost halfway = start + out;
    let ghost back = Seq::new(
        sources@.len(),
        |i: int| Op::<T>::Unlink { src: sources@[i], dst: id },
    );
    let mut j: usize = 0;
    assert(halfway + back.take(0) =~= halfway);
    while j < sources.len()
        invariant
            j <= sources@.len(),
            back == Seq::new(
                sources@.len(),
                |i: int| Op::<T>::Unlink { src: sources@[i], dst: id },
            ),
            op_views(ops@) == halfway + back.take(j as int),
        decreases sources@.len() - j,
    {
        append_op(ops, TxOp::Unlink { src: sources[j], dst: id });
        proof {
            assert(back.take(j + 1) =~= back.take(j as int).push(back[j as int]));
            assert(halfway + back.take(j + 1) =~= (halfway + back.take(j as int)).push(
                back[j as int],
            ));
        }
        j += 1;
    }
    proof {
        assert(back.take(j as int) =~= back);
        assert(are_sources(table@, id, sources@));
        assert(op_views(ops@) =~= start + detach_ops(table@, id, sources@));
    }
}

/// The operations of a mutation that deletes a node with its edges.
proof fn lemma_detach_translates<T: VectorType>(
    table: Table<T>,
    mutations: Seq<Mutation<T>>,
    k: int,
    id: NodeId,
    sources: Seq<NodeId>,
)
    requires
        mutations[k] == (Mutation::<T>::DeleteNode { id, detach: true }),
        are_sources(table, id, sources),
    ensures
        is_translation(
            table,
            mutations,
            k,
            detach_ops(table, id, sources).push(Op::Delete { id }),
        ),
{
    let ops = detach_ops(table, id, sources).push(Op::Delete { id });
    assert(mutations[k]->detach && mutations[k]->DeleteNode_id == id);
    assert(exists|other: Seq<NodeId>| #[trigger]
        are_sources(table, id, other) && ops == detach_ops(table, id, other).push(
            Op::Delete { id },
        ));
}

/// One more mutation is translated.
proof fn lemma_plan_step<T: VectorType>(
    table: Table<T>,
    mutations: Seq<Mutation<T>>,
    k: int,
    before: Seq<Op<T>>,
    added: Seq<Op<T>>,
)
    requires
        0 <= k,
        is_plan_of(table, mutations, k, before),
        is_translation(table, mutations, k, added),
    ensures
        is_plan_of(table, mutations, k + 1, before + added),
{
    let ops = before + added;
    assert(ops.take(before.len() as int) =~= before);
    assert(ops.skip(before.len() as int) =~= added);
}

/// Translates mutations to operations. Each mutation counts as one affected node or edge. An edge
/// whose end is a variable without a node is refused.
pub fn plan_mutations<T: VectorType>(table: &MemTable<T>, mutations: Vec<MutationOp<T>>) -> (result:
    Result<Vec<TxOp<T>>>)
    requires
        table.inv(),
        has_room(table@, mutation_views(mutations@)),
    ensures
        ({
            let all = mutation_views(mutations@);
            match result {
                Ok(ops) => {
                    &&& forall|k: int|
                        0 <= k < all.len() ==> undefined_variable(
                            all,
                            table@.next_id,
                            k,
                        ) is None
                    &&& is_plan_of(table@, all, all.len() as int, op_views(ops@))
                },
                Err(error) => exists|k: int|
                    {
                        &&& 0 <= k < all.len()
                        &&& forall|j: int|
                            0 <= j < k ==> undefined_variable(all, table@.next_id, j) is None
                        &&& (#[trigger] undefined_variable(all, table@.next_id, k)) matches Some(
                            var,
                        ) && is_query_execution(error, "CREATE 边引用了未定义变量 "@ + var)
                    },
            }
        }),
{
    let ghost all = mutation_views(mutations@);
    let ghost next = table@.next_id;
    let names = number_variables(table, &mutations);
    let mut ops: Vec<TxOp<T>> = Vec::new();
    for mutation in iter: mutations
        invariant
            table.inv(),
            all == mutation_views(iter.seq()),
            next == table@.next_id,
            has_room(table@, all),
            forall|var: Seq<char>| #[trigger]
                named(names@, names@.len() as int, var) == variable_id(
                    all,
                    all.len() as int,
                    next,
                    var,
                ),
            forall|j: int|
                0 <= j < iter.index() ==> undefined_variable(all, next, j) is None,
            is_plan_of(table@, all, iter.index(), op_views(ops@)),
    {
        let ghost k = iter.index();
        let ghost before = op_views(ops@);
        assert(all[k] == mutation@);
        match mutation {
            MutationOp::InsertNode { var, vector, payload } => {
                proof {
                    lemma_variable_known(all, all.len() as int, next, k);
                }
                let id: NodeId = find_variable(&names, var.as_str()).unwrap();
                let op = TxOp::InsertWithId { id, vector, payload };
                let ghost added = seq![op@];
                append_op(&mut ops, op);
                proof {
                    assert(op_views(ops@) =~= before + added);
                    assert(is_translation(table@, all, k, added));
                    lemma_plan_step(table@, all, k, before, added);
                }
            },
            MutationOp::LinkEdge { src_id, dst_id, src_var, dst_var, label, weight } => {
                let src: NodeId = match resolve_end(&names, src_id, src_var.as_str()) {
                    Ok(id) => id,
                    Err(error) => {
                        assert(undefined_variable(all, next, k) == Some(src_var@));
                        return Err(error);
                    },
                };
                let dst: NodeId = match resolve_end(&names, dst_id, dst_var.as_str()) {
                    Ok(id) => id,
                    Err(error) => {
                        assert(undefined_variable(all, next, k) == Some(dst_var@));
                        return Err(error);
                    },
                };
                let op = TxOp::Link { src, dst, label, weight };
                let ghost added = seq![op@];
                append_op(&mut ops, op);
                proof {
                    assert(op_views(ops@) =~= before + added);
                    assert(is_translation(table@, all, k, added));
                    lemma_plan_step(table@, all, k, before, added);
                }
            },
            MutationOp::UpdatePayload { id, payload } => {
                let op = TxOp::UpdatePayload { id, payload };
                let ghost added = seq![op@];
                append_op(&mut ops, op);
                proof {
                    assert(op_views(ops@) =~= before + added);
                    assert(is_translation(table@, all, k, added));
                    lemma_plan_step(table@, all, k, before, added);
                }
            },
            MutationOp::DeleteNode { id, detach } => {
                if detach {
                    append_detach(table, id, &mut ops);
                    let ghost sources = choose|sources: Seq<NodeId>| #[trigger]
                        are_sources(table@, id, sources) && op_views(ops@) == before + detach_ops(
                            table@,
                            id,
                            sources,
                        );
                    append_op(&mut ops, TxOp::Delete { id });
                    proof {
                        let added = detach_ops(table@, id, sources).push(Op::Delete { id });
                        assert(op_views(ops@) =~= before + added);
                        assert(are_sources(table@, id, sources));
                        lemma_detach_translates(table@, all, k, id, sources);
                        lemma_plan_step(table@, all, k, before, added);
                    }
                } else {
                    let op = TxOp::<T>::Delete { id };
                    let ghost added = seq![Op::<T>::Delete { id }];
                    assert(op@ == Op::<T>::Delete { id });
                    append_op(&mut ops, op);
                    proof {
                        assert(op_views(ops@) =~= before + added);
                        assert(all[k] == Mutation::<T>::DeleteNode { id, detach: false });
                        assert(is_translation(table@, all, k, added));
                        lemma_plan_step(table@, all, k, before, added);
                    }
                }
            },
        }
    }
    Ok(ops)
}

/// The operations of a statement insert no node beyond the numbers that it has room for.
proof fn lemma_plan_bound<T: VectorType>(
    table: Table<T>,
    mutations: Seq<Mutation<T>>,
    count: int,
    ops: Seq<Op<T>>,
    i: int,
)
    requires
        0 <= count <= mutations.len(),
        has_room(table, mutations),
        is_plan_of(table, mutations, count, ops),
        0 <= i < ops.len(),
    ensures
        !(ops[i] is Insert),
        ops[i] matches Op::InsertWithId { id, .. } ==> id < u64::MAX,
    decreases count,
{
    if count > 0 {
        let cut = choose|cut: int|
            0 <= cut <= ops.len() && is_plan_of(
                table,
                mutations,
                count - 1,
                #[trigger] ops.take(cut),
            ) && is_translation(table, mutations, count - 1, ops.skip(cut));
        if i < cut {
            assert(ops.take(cut)[i] == ops[i]);
            lemma_plan_bound(table, mutations, count - 1, ops.take(cut), i);
        } else {
            let added = ops.skip(cut);
            assert(added[i - cut] == ops[i]);
            if mutations[count - 1] is DeleteNode && mutations[count - 1]->detach {
                let id = mutations[count - 1]->DeleteNode_id;
                let sources = choose|sources: Seq<NodeId>| #[trigger]
                    are_sources(table, id, sources) && added == detach_ops(
                        table,
                        id,
                        sources,
                    ).push(Op::Delete { id });
                let removed = detach_ops(table, id, sources);
                assert(added == removed.push(Op::Delete { id }));
                if i - cut < removed.len() {
                    assert(added[i - cut] == removed[i - cut]);
                    assert(removed[i - cut] is Unlink);
                } else {
                    assert(added[i - cut] == Op::<T>::Delete { id });
                }
            } else {
                assert(added.len() == 1);
            }
            if mutations[count - 1] is InsertNode {
                let var = mutations[count - 1]->InsertNode_var;
                lemma_variable_known(
                    mutations,
                    mutations.len() as int,
                    table.next_id,
                    count - 1,
                );
                lemma_variable_bound(mutations, mutations.len() as int, table.next_id, var);
            }
        }
    }
}

/// Operations that insert only under identifiers below the largest leave a next identifier.
proof fn lemma_ids_fit<T: VectorType>(table: Table<T>, ops: Seq<Op<T>>)
    requires
        table.next_id <= u64::MAX,
        forall|i: int|
            0 <= i < ops.len() ==> !(#[trigger] ops[i] is Insert) && (
            ops[i] matches Op::InsertWithId { id, .. } ==> id < u64::MAX),
    ensures
        ids_fit(table, ops),
{
    assert forall|count: int| 0 <= count <= ops.len() implies (#[trigger] sim_after(
        table,
        ops,
        count,
    )).next <= u64::MAX by {
        lemma_next_fits(table, ops, count);
    }
}

/// The identifier that comes next fits a word.
proof fn lemma_next_fits<T: VectorType>(table: Table<T>, ops: Seq<Op<T>>, count: int)
    requires
        table.next_id <= u64::MAX,
        0 <= count <= ops.len(),
        forall|i: int|
            0 <= i < ops.len() ==> !(#[trigger] ops[i] is Insert) && (
            ops[i] matches Op::InsertWithId { id, .. } ==> id < u64::MAX),
    ensures
        sim_after(table, ops, count).next <= u64::MAX,
    decreases count,
{
    if count > 0 {
        lemma_next_fits(table, ops, count - 1);
        assert(!(ops[count - 1] is Insert));
    }
}

impl<T: VectorType> Database<T> {
    /// Carries out a statement. One that only reads affects nothing.
    pub fn tql_mut<F: FnOnce(&Vec<WalEntry<T>>) -> Result<()>>(
        &mut self,
        statement: TqlStatement<T>,
        append: F,
    ) -> (result: Result<TqlMutResult>)
        requires
            old(self).inv(),
            statement matches TqlStatement::Mutation(mutations) ==> has_room(
                old(self).table(),
                mutation_views(mutations@),
            ),
            forall|entries: &Vec<WalEntry<T>>| #[trigger] call_requires(append, (entries,)),
        ensures
            final(self).inv(),
            final(self).limit() == old(self).limit(),
            final(self).storage() == old(self).storage(),
            match statement {
                TqlStatement::Query => final(self).table() == old(self).table() && (
                result matches Ok(outcome) && outcome.affected == 0 && outcome.created_ids@.len()
                    == 0),
                TqlStatement::Mutation(mutations) => is_carried_out(
                    old(self).table(),
                    final(self).table(),
                    mutation_views(mutations@),
                    append,
                    result,
                ),
            },
    {
        match statement {
            TqlStatement::Query => Ok(TqlMutResult { affected: 0, created_ids: Vec::new() }),
            TqlStatement::Mutation(mutations) => {
                let ghost before = self.table();
                let ghost all = mutation_views(mutations@);
                let affected: usize = mutations.len();
                let ops = match plan_mutations(self.memtable(), mutations) {
                    Ok(ops) => ops,
                    Err(error) => {
                        return Err(error);
                    },
                };
                proof {
                    let views = op_views(ops@);
                    assert forall|i: int| 0 <= i < views.len() implies !(
                    #[trigger] views[i] is Insert) && (views[i] matches Op::InsertWithId { id, .. }
                        ==> id < u64::MAX) by {
                        lemma_plan_bound(before, all, all.len() as int, views, i);
                    }
                    lemma_ids_fit(before, views);
                }
                match self.commit_ops(&ops, append) {
                    Ok(created_ids) => Ok(TqlMutResult { affected, created_ids }),
                    Err(error) => {
                        proof {
                            assert(is_plan_of(before, all, all.len() as int, op_views(ops@)));
                            assert(committed(
                                before,
                                self.table(),
                                op_views(ops@),
                                append,
                                Err(error),
                            ));
                        }
                        Err(error)
                    },
                }
            },
        }
    }
}

/// What carrying out mutations comes to: a variable without a node is refused before anything
/// happens, and otherwise the operations are committed together.
pub open spec fn is_carried_out<T: VectorType, F: FnOnce(&Vec<WalEntry<T>>) -> Result<()>>(
    before: Table<T>,
    after: Table<T>,
    mutations: Seq<Mutation<T>>,
    append: F,
    result: Result<TqlMutResult>,
) -> bool {
    if exists|k: int|
        0 <= k < mutations.len() && (#[trigger] undefined_variable(
            mutations,
            before.next_id,
            k,
        )) is Some {
        after == before && (result matches Err(error) && exists|k: int|
            {
                &&& 0 <= k < mutations.len()
                &&& forall|j: int|
                    0 <= j < k ==> undefined_variable(mutations, before.next_id, j) is None
                &&& (#[trigger] undefined_variable(mutations, before.next_id, k)) matches Some(var)
                    && is_query_execution(error, "CREATE 边引用了未定义变量 "@ + var)
            })
    } else {
        exists|ops: Seq<Op<T>>|
            {
                &&& #[trigger] is_plan_of(before, mutations, mutations.len() as int, ops)
                &&& match result {
                    Ok(outcome) => outcome.affected == mutations.len() && committed(
                        before,
                        after,
                        ops,
                        append,
                        Ok(outcome.created_ids),
                    ),
                    Err(error) => committed(before, after, ops, append, Err(error)),
                }
            }
    }
}

} // verus!
