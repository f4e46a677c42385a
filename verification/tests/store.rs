use triviumdb::database::builder::TxBuilder;
use triviumdb::database::config::{AccessMode, Config, StorageMode};
use triviumdb::database::facade::{DatabaseReader, DatabaseWriter};
use triviumdb::database::mutation::{MutationOp, TqlStatement};
use triviumdb::database::store::Database;
use triviumdb::database::transaction::{leaves_next_id, plan_commit, replay, TxOp};
use triviumdb::error::{Result, TriviumError};
use triviumdb::filter::Filter;
use triviumdb::json::{Json, JsonNumber, Member};
use triviumdb::node::Payload;
use triviumdb::storage::memtable::MemTable;
use triviumdb::storage::wal::{committed_records, WalEntry};
use triviumdb::vector::F32;

fn vector(values: &[f32]) -> Vec<F32> {
    values.iter().map(|value| F32 { bits: value.to_bits() }).collect()
}

fn named(name: &str) -> Payload {
    Payload {
        text: format!("{{\"name\":\"{}\"}}", name),
        value: Json::object(vec![Member {
            name: "name".to_string(),
            value: Json::String(name.to_string()),
        }]),
    }
}

fn logged(_: &WalEntry<F32>) -> Result<()> {
    Ok(())
}

fn closed(_: &WalEntry<F32>) -> Result<()> {
    Err(TriviumError::WalClosed)
}

fn all_logged(_: &Vec<WalEntry<F32>>) -> Result<()> {
    Ok(())
}

fn all_closed(_: &Vec<WalEntry<F32>>) -> Result<()> {
    Err(TriviumError::WalClosed)
}

fn plus(a: u64, b: u64) -> u64 {
    (f64::from_bits(a) + f64::from_bits(b)).to_bits()
}

fn encode(json: &Json) -> String {
    match json.get("name") {
        Some(Json::String(name)) => named(name).text,
        _ => "{}".to_string(),
    }
}

fn link_entry(src: u64, dst: u64, label: &str) -> WalEntry<F32> {
    WalEntry::Link {
        src,
        dst,
        label: label.to_string(),
        weight: 0,
        metadata: "null".to_string(),
    }
}

fn open_db() -> Database<F32> {
    Database::create(Config { dim: 3, ..Default::default() }).unwrap()
}

fn name_of(db: &Database<F32>, id: u64) -> String {
    match db.get_payload(id).unwrap().value.get("name") {
        Some(Json::String(name)) => name.clone(),
        _ => panic!("no name"),
    }
}

#[test]
fn crud_wal_failure_keeps_memory_state() {
    let mut db = open_db();
    let first = db.insert(&vector(&[1.0, 0.0, 0.0]), named("first"), logged).unwrap();
    let second = db.insert(&vector(&[0.0, 1.0, 0.0]), named("second"), logged).unwrap();
    db.link(first, second, "rel", 1.0f32.to_bits(), logged).unwrap();

    assert!(matches!(
        db.insert(&vector(&[0.0, 0.0, 1.0]), Payload::null(), closed),
        Err(TriviumError::WalClosed)
    ));
    assert_eq!(db.node_count(), 2);
    assert!(matches!(
        db.insert_with_id(42, &vector(&[0.0, 0.0, 1.0]), Payload::null(), closed),
        Err(TriviumError::WalClosed)
    ));
    assert!(!db.contains(42));
    assert!(matches!(
        db.link(second, first, "back", 1.0f32.to_bits(), closed),
        Err(TriviumError::WalClosed)
    ));
    assert!(db.get_edges(second).is_empty());
    assert!(matches!(db.unlink(first, second, closed), Err(TriviumError::WalClosed)));
    assert_eq!(db.get_edges(first).len(), 1);
    assert!(matches!(
        db.update_payload(first, named("changed"), closed),
        Err(TriviumError::WalClosed)
    ));
    assert_eq!(name_of(&db, first), "first");
    assert!(matches!(
        db.patch_payload(first, &named("patched").value, &plus, encode, closed),
        Err(TriviumError::WalClosed)
    ));
    assert_eq!(name_of(&db, first), "first");
    assert!(matches!(
        db.update_vector(first, &vector(&[9.0, 9.0, 9.0]), closed),
        Err(TriviumError::WalClosed)
    ));
    assert_eq!(db.get(first).unwrap().vector, vector(&[1.0, 0.0, 0.0]));
    assert!(matches!(db.delete(first, closed), Err(TriviumError::WalClosed)));
    assert!(db.contains(first));
}

#[test]
fn logged_changes_are_made() {
    let mut db = open_db();
    let first = db.insert(&vector(&[1.0, 0.0, 0.0]), named("first"), logged).unwrap();
    assert_eq!(first, 1);
    let second = db.insert(&vector(&[0.0, 1.0, 0.0]), named("second"), logged).unwrap();
    assert_eq!(second, 2);
    db.link(first, second, "rel", 1.0f32.to_bits(), logged).unwrap();
    db.patch_payload(first, &named("patched").value, &plus, encode, logged).unwrap();
    assert_eq!(name_of(&db, first), "patched");
    db.update_vector(first, &vector(&[9.0, 9.0, 9.0]), logged).unwrap();
    assert_eq!(db.get(first).unwrap().vector, vector(&[9.0, 9.0, 9.0]));
    assert_eq!(db.neighbors(first, 1), vec![2]);
    db.delete(second, logged).unwrap();
    assert!(db.get_edges(first).is_empty());
    assert_eq!(db.all_node_ids(), vec![1]);
    assert!(matches!(db.delete(second, logged), Err(TriviumError::NodeNotFound(2))));
    assert!(matches!(
        db.insert_with_id(1, &vector(&[0.0, 0.0, 1.0]), Payload::null(), logged),
        Err(TriviumError::NodeAlreadyExists(1))
    ));
    assert!(matches!(
        db.insert(&vector(&[0.0]), Payload::null(), logged),
        Err(TriviumError::DimensionMismatch { expected: 3, got: 1 })
    ));
    assert!(matches!(
        db.insert(&vector(&[f32::NAN, 0.0, 0.0]), Payload::null(), logged),
        Err(TriviumError::InvalidVector { .. })
    ));
    let large = Payload { text: "x".repeat(9 * 1024 * 1024), value: Json::Null };
    assert!(matches!(
        db.update_payload(first, large, logged),
        Err(TriviumError::PayloadTooLarge { .. })
    ));
}

#[test]
fn edges_are_read_back_until_they_are_removed() {
    let mut db = open_db();
    let first = db.insert(&vector(&[1.0, 0.0, 0.0]), named("first"), logged).unwrap();
    let second = db.insert(&vector(&[0.0, 1.0, 0.0]), named("second"), logged).unwrap();
    db.link(first, second, "rel", 1.0f32.to_bits(), logged).unwrap();
    db.link(first, second, "other", 2.0f32.to_bits(), logged).unwrap();
    db.link(first, first, "self", 3.0f32.to_bits(), logged).unwrap();
    db.link(first, second, "rel", 4.0f32.to_bits(), logged).unwrap();
    let listed: Vec<(u64, String, u32)> = db
        .get_edges(first)
        .into_iter()
        .map(|edge| (edge.target_id, edge.label, edge.weight))
        .collect();
    assert_eq!(
        listed,
        vec![
            (second, "rel".to_string(), 4.0f32.to_bits()),
            (second, "other".to_string(), 2.0f32.to_bits()),
            (first, "self".to_string(), 3.0f32.to_bits()),
        ]
    );
    db.unlink(first, second, logged).unwrap();
    let left: Vec<u64> = db.get_edges(first).into_iter().map(|edge| edge.target_id).collect();
    assert_eq!(left, vec![first]);
    assert_eq!(name_of(&db, first), "first");
    assert_eq!(name_of(&db, second), "second");
}

#[test]
fn a_transaction_is_made_as_a_whole_or_not_at_all() {
    let mut db = open_db();
    let mut tx = db.begin_tx();
    tx.insert(&vector(&[1.0, 0.0, 0.0]), named("a"));
    tx.insert_with_id(7, &vector(&[0.0, 1.0, 0.0]), named("b"));
    tx.link(1, 7, "rel", 1.0f32.to_bits());
    assert_eq!(tx.pending_count(), 3);
    let ids = tx.commit(&mut db, all_logged).unwrap();
    assert_eq!(ids, vec![1, 7]);
    assert_eq!(db.get_edges(1).len(), 1);

    let mut bad = db.begin_tx();
    bad.insert(&vector(&[1.0, 0.0, 0.0]), named("c"));
    bad.delete(99);
    assert!(matches!(bad.commit(&mut db, all_logged), Err(TriviumError::NodeNotFound(99))));
    assert_eq!(db.node_count(), 2);

    let mut unlogged = db.begin_tx();
    unlogged.delete(1);
    assert!(matches!(unlogged.commit(&mut db, all_closed), Err(TriviumError::WalClosed)));
    assert!(db.contains(1));

    let mut dropped = db.begin_tx();
    dropped.delete(1);
    dropped.update_payload(7, named("z"));
    assert_eq!(dropped.rollback(), 2);
    assert_eq!(name_of(&db, 7), "b");

    let mut builder = TxBuilder::new();
    builder.unlink(1, 7);
    builder.update_vector(1, &vector(&[0.0, 0.0, 1.0]));
    assert_eq!(db.commit_tx(builder, all_logged).unwrap().len(), 0);
    assert!(db.get_edges(1).is_empty());
    assert_eq!(db.insert(&vector(&[1.0, 0.0, 0.0]), named("next"), logged).unwrap(), 8);
}

#[test]
fn operations_see_what_the_ones_before_them_did() {
    let mut db = open_db();
    db.insert_with_id(1, &vector(&[1.0, 0.0, 0.0]), named("old"), logged).unwrap();
    let mut tx = db.begin_tx();
    tx.delete(1);
    tx.insert_with_id(1, &vector(&[0.0, 1.0, 0.0]), named("new"));
    tx.update_payload(1, named("newest"));
    assert_eq!(tx.commit(&mut db, all_logged).unwrap(), vec![1]);
    assert_eq!(name_of(&db, 1), "newest");
    let mut twice = db.begin_tx();
    twice.delete(1);
    twice.insert_with_id(1, &vector(&[0.0, 1.0, 0.0]), named("a"));
    twice.insert_with_id(1, &vector(&[0.0, 1.0, 0.0]), named("b"));
    assert!(matches!(
        twice.commit(&mut db, all_logged),
        Err(TriviumError::NodeAlreadyExists(1))
    ));
    assert_eq!(name_of(&db, 1), "newest");
}

#[test]
fn replaying_a_log_twice_is_replaying_it_once() {
    let entries = vec![
        WalEntry::TxBegin { tx_id: 1 },
        WalEntry::Insert { id: 1, vector: vector(&[1.0]), payload: named("a") },
        WalEntry::Insert { id: 5, vector: vector(&[2.0]), payload: named("b") },
        link_entry(1, 5, "rel"),
        WalEntry::UpdatePayload { id: 1, payload: named("c") },
        WalEntry::TxCommit { tx_id: 1 },
    ];
    let mut table: MemTable<F32> = MemTable::new(1);
    replay(&mut table, &entries);
    assert_eq!(table.all_node_ids(), vec![1, 5]);
    assert_eq!(table.next_id_value(), 6);
    replay(&mut table, &entries);
    assert_eq!(table.all_node_ids(), vec![1, 5]);
    assert_eq!(table.next_id_value(), 6);
    assert_eq!(table.get_edges(1).unwrap().len(), 1);
    assert_eq!(table.get_incoming_sources(5), vec![1]);
    assert_eq!(table.get_payload(1).unwrap().text, "{\"name\":\"c\"}");
}

#[test]
fn a_plan_lists_what_will_be_logged() {
    let table: MemTable<F32> = MemTable::new(1);
    let ops = vec![
        TxOp::Insert { vector: vector(&[1.0]), payload: named("a") },
        TxOp::Link { src: 1, dst: 1, label: "self".to_string(), weight: 0 },
    ];
    assert!(leaves_next_id(&table, &ops));
    let plan = plan_commit(&table, &ops).unwrap();
    assert_eq!(plan.ids, vec![1]);
    assert_eq!(plan.entries.len(), 2);
    assert!(matches!(plan.entries[0], WalEntry::Insert { id: 1, .. }));
    assert!(matches!(plan.entries[1], WalEntry::Link { src: 1, dst: 1, .. }));
    let missing = vec![TxOp::Unlink { src: 3, dst: 4 }];
    assert!(matches!(plan_commit(&table, &missing), Err(TriviumError::NodeNotFound(3))));
}

#[test]
fn mutations_resolve_the_nodes_they_create() {
    let mut db = open_db();
    let statement = TqlStatement::Mutation(vec![
        MutationOp::InsertNode {
            var: "a".to_string(),
            vector: vector(&[1.0, 0.0, 0.0]),
            payload: named("a"),
        },
        MutationOp::InsertNode {
            var: "b".to_string(),
            vector: vector(&[0.0, 1.0, 0.0]),
            payload: named("b"),
        },
        MutationOp::LinkEdge {
            src_id: 0,
            dst_id: 0,
            src_var: "a".to_string(),
            dst_var: "b".to_string(),
            label: "knows".to_string(),
            weight: 1.0f32.to_bits(),
        },
    ]);
    let result = db.tql_mut(statement, all_logged).unwrap();
    assert_eq!(result.created_ids, vec![1, 2]);
    assert_eq!(result.affected, 3);
    assert_eq!(db.get_edges(1)[0].target_id, 2);
    let dangling = TqlStatement::Mutation(vec![MutationOp::LinkEdge {
        src_id: 9,
        dst_id: 1,
        src_var: "c".to_string(),
        dst_var: "d".to_string(),
        label: "knows".to_string(),
        weight: 0,
    }]);
    assert!(db.tql_mut(dangling, all_logged).is_err());
    let detached = TqlStatement::Mutation(vec![MutationOp::DeleteNode { id: 1, detach: true }]);
    assert_eq!(db.tql_mut(detached, all_logged).unwrap().affected, 1);
    assert!(!db.contains(1));
    let queried = db.tql_mut(TqlStatement::Query, all_logged).unwrap();
    assert_eq!(queried.affected, 0);
    assert!(queried.created_ids.is_empty());
}

#[test]
fn filters_find_nodes_in_order() {
    let mut db = open_db();
    for name in ["x", "y", "x"] {
        db.insert(&vector(&[1.0, 0.0, 0.0]), named(name), logged).unwrap();
    }
    let wanted = Json::String("x".to_string());
    let found = db.filter("name", &wanted);
    assert_eq!(found.iter().map(|node| node.id).collect::<Vec<u64>>(), vec![1, 3]);
    let other = db.filter_where(&Filter::ne("name", wanted));
    assert_eq!(other.iter().map(|node| node.id).collect::<Vec<u64>>(), vec![2]);
    assert!(db.filter("name", &Json::Number(JsonNumber::PosInt(1))).is_empty());
}

#[test]
fn migration_keeps_everything_but_vectors() {
    let mut db = open_db();
    let a = db.insert(&vector(&[1.0, 0.0, 0.0]), named("a"), logged).unwrap();
    let b = db.insert(&vector(&[0.0, 1.0, 0.0]), named("b"), logged).unwrap();
    db.link(a, b, "rel", 0.5f32.to_bits(), logged).unwrap();
    let moved = db.migrate(5, F32 { bits: 0 }).unwrap();
    assert_eq!(moved.dim(), 5);
    assert_eq!(moved.all_node_ids(), vec![a, b]);
    assert_eq!(moved.get(a).unwrap().vector, vector(&[0.0; 5]));
    assert_eq!(name_of(&moved, b), "b");
    assert_eq!(moved.get_edges(a)[0].target_id, b);
}

#[test]
fn settings_of_a_database_are_checked() {
    assert!(Config { dim: 0, ..Default::default() }.validate().is_err());
    assert!(Config { dim: 3, ..Default::default() }.validate().is_ok());
    let reader = Config { dim: 3, access_mode: AccessMode::ReadOnly, ..Default::default() };
    assert!(reader.check_reader().is_ok());
    assert!(reader.check_writer().is_err());
    assert!(!reader.is_writable());
    let writer = Config { dim: 3, ..Default::default() };
    assert!(writer.check_writer().is_ok());
    assert!(writer.check_reader().is_err());
    assert!(Database::<F32>::create(Config { dim: 0, ..Default::default() }).is_err());
    let mut db = open_db();
    assert_eq!(db.storage_mode(), StorageMode::Mmap);
    assert!(!db.is_under_pressure(1 << 40));
    db.set_memory_limit(10);
    assert!(db.is_under_pressure(11));
    assert!(!db.is_under_pressure(10));
}

#[test]
fn a_recovered_database_holds_what_was_logged() {
    let mut db = open_db();
    db.recover(&vec![WalEntry::Insert {
        id: 4,
        vector: vector(&[1.0, 0.0, 0.0]),
        payload: named("a"),
    }]);
    assert!(db.contains(4));
    assert_eq!(db.insert(&vector(&[0.0, 0.0, 1.0]), named("b"), logged).unwrap(), 5);
}

#[test]
fn an_unfinished_transaction_does_not_count() {
    let log: Vec<WalEntry<F32>> = vec![
        WalEntry::Delete { id: 1 },
        WalEntry::TxBegin { tx_id: 1 },
        WalEntry::Delete { id: 2 },
        WalEntry::TxCommit { tx_id: 1 },
        WalEntry::TxBegin { tx_id: 2 },
        WalEntry::Delete { id: 3 },
    ];
    let (entries, valid) = committed_records(log);
    assert_eq!(entries.len(), 2);
    assert!(matches!(entries[1], WalEntry::Delete { id: 2 }));
    assert_eq!(valid, 4);
    let (none, cut) = committed_records::<F32>(vec![WalEntry::TxBegin { tx_id: 1 }]);
    assert!(none.is_empty());
    assert_eq!(cut, 0);
}

#[test]
fn replaying_again_may_reorder_edges_alone() {
    let mut table: MemTable<F32> = MemTable::new(1);
    for id in 1..=3u64 {
        table.insert_with_id(id, &vector(&[1.0]), &named("n")).unwrap();
    }
    let log = vec![
        WalEntry::Delete { id: 3 },
        WalEntry::Insert { id: 3, vector: vector(&[2.0]), payload: named("again") },
        link_entry(1, 3, "a"),
        link_entry(1, 2, "a"),
    ];
    replay(&mut table, &log);
    let once: Vec<u64> = table.get_edges(1).unwrap().iter().map(|edge| edge.target_id).collect();
    replay(&mut table, &log);
    let twice: Vec<u64> = table.get_edges(1).unwrap().iter().map(|edge| edge.target_id).collect();
    assert_eq!(once, vec![3, 2]);
    assert_eq!(twice, vec![2, 3]);
    assert_eq!(table.get_vector(3).unwrap(), &vector(&[2.0]));
    assert_eq!(table.next_id_value(), 4);
}

#[test]
fn readers_read_and_writers_write() {
    let make = || {
        let mut table: MemTable<F32> = MemTable::new(1);
        table.insert_with_id(1, &vector(&[1.0]), &named("a")).unwrap();
        table.insert_with_id(2, &vector(&[2.0]), &named("b")).unwrap();
        table.link(1, 2, "rel", 0).unwrap();
        table
    };
    let read_only = Config { dim: 1, access_mode: AccessMode::ReadOnly, ..Default::default() };
    let read_write = Config { dim: 1, ..Default::default() };
    assert!(DatabaseReader::open_with_config(&read_write, make()).is_err());
    assert!(DatabaseWriter::open_with_config(&read_only, make()).is_err());
    let reader = DatabaseReader::open_with_config(&read_only, make()).unwrap();
    assert_eq!(reader.node_count(), 2);
    assert_eq!(reader.neighbors(1, 1), vec![2]);
    assert_eq!(reader.get_edge(1, 2, "rel").unwrap().target_id, 2);
    assert!(reader.get_edge(1, 2, "other").is_none());
    assert_eq!(reader.get_incoming_edges(2, None)[0].source_id, 1);
    assert!(reader.get(3).is_none());
    let writer = DatabaseWriter::open_with_config(&read_write, make()).unwrap();
    assert_eq!(writer.deref().node_count(), 2);
    let mut db = writer.into_inner();
    db.delete(1, logged).unwrap();
    assert_eq!(db.all_node_ids(), vec![2]);
}

#[test]
fn a_patch_changes_some_members_of_a_payload() {
    let mut db = open_db();
    let id = db.insert(&vector(&[1.0, 0.0, 0.0]), named("first"), logged).unwrap();
    let visits = Json::object(vec![Member {
        name: "$inc".to_string(),
        value: Json::object(vec![Member {
            name: "visits".to_string(),
            value: Json::Number(JsonNumber::PosInt(2)),
        }]),
    }]);
    db.patch_payload(id, &visits, &plus, encode, logged).unwrap();
    db.patch_payload(id, &visits, &plus, encode, logged).unwrap();
    assert_eq!(name_of(&db, id), "first");
    let payload = db.get_payload(id).unwrap();
    assert!(payload.value.get("visits").unwrap().same(&Json::Number(JsonNumber::PosInt(4))));
    assert_eq!(payload.text, named("first").text);
    assert!(matches!(
        db.patch_payload(99, &visits, &plus, encode, logged),
        Err(TriviumError::NodeNotFound(99))
    ));
    assert!(matches!(
        db.patch_payload(id, &Json::Null, &plus, encode, logged),
        Err(TriviumError::InvalidInput(_))
    ));
    assert!(matches!(
        db.patch_payload(id, &visits, &plus, |_| "x".repeat(9_000_000), logged),
        Err(TriviumError::PayloadTooLarge { .. })
    ));
    assert!(db
        .get_payload(id)
        .unwrap()
        .value
        .get("visits")
        .unwrap()
        .same(&Json::Number(JsonNumber::PosInt(4))));
}

#[test]
fn edges_are_removed_by_label() {
    let mut db = open_db();
    let first = db.insert(&vector(&[1.0, 0.0, 0.0]), named("first"), logged).unwrap();
    let second = db.insert(&vector(&[0.0, 1.0, 0.0]), named("second"), logged).unwrap();
    db.link(first, second, "a", 1.0f32.to_bits(), logged).unwrap();
    db.upsert_edge(first, second, "b", 2.0f32.to_bits(), "{\"k\":1}", logged).unwrap();
    db.unlink_label(first, second, "a", logged).unwrap();
    let left = db.get_edges(first);
    assert_eq!(left.len(), 1);
    assert_eq!((left[0].label.as_str(), left[0].metadata.as_str()), ("b", "{\"k\":1}"));
    assert_eq!(db.memtable().get_incoming_sources(second), vec![first]);
    assert!(matches!(
        db.unlink_label(first, second, "b", closed),
        Err(TriviumError::WalClosed)
    ));
    assert_eq!(db.get_edges(first).len(), 1);
    db.unlink_label(first, second, "b", logged).unwrap();
    assert!(db.get_edges(first).is_empty());
    assert!(db.memtable().get_incoming_sources(second).is_empty());
    assert!(matches!(
        db.unlink_label(99, second, "b", logged),
        Err(TriviumError::NodeNotFound(99))
    ));
    assert!(matches!(
        db.upsert_edge(first, 99, "b", 0, "null", logged),
        Err(TriviumError::NodeNotFound(99))
    ));
}

#[test]
fn a_transaction_sets_metadata_and_removes_by_label() {
    let mut db = open_db();
    let mut tx = db.begin_tx();
    tx.insert_with_id(1, &vector(&[1.0, 0.0, 0.0]), named("a"));
    tx.insert_with_id(2, &vector(&[0.0, 1.0, 0.0]), named("b"));
    tx.upsert_edge(1, 2, "x", 1.0f32.to_bits(), "[1]");
    tx.upsert_edge(1, 2, "y", 2.0f32.to_bits(), "[2]");
    tx.unlink_label(1, 2, "x");
    tx.commit(&mut db, all_logged).unwrap();
    let edges = db.get_edges(1);
    assert_eq!(edges.len(), 1);
    assert_eq!((edges[0].label.as_str(), edges[0].metadata.as_str()), ("y", "[2]"));
    let mut missing = db.begin_tx();
    missing.unlink_label(3, 2, "x");
    assert!(matches!(
        missing.commit(&mut db, all_logged),
        Err(TriviumError::NodeNotFound(3))
    ));
    let mut entries = vec![
        WalEntry::Insert { id: 1, vector: vector(&[1.0]), payload: named("a") },
        WalEntry::Insert { id: 2, vector: vector(&[2.0]), payload: named("b") },
        link_entry(1, 2, "x"),
        link_entry(1, 2, "y"),
    ];
    entries.push(WalEntry::UnlinkLabel { src: 1, dst: 2, label: "y".to_string() });
    let mut table: MemTable<F32> = MemTable::new(1);
    replay(&mut table, &entries);
    replay(&mut table, &entries);
    assert_eq!(table.get_edges(1).unwrap().len(), 1);
    assert_eq!(table.get_edges(1).unwrap()[0].label, "x");
}

#[test]
fn a_node_is_inserted_or_gets_another_payload() {
    let mut db = open_db();
    for name in ["one", "two"] {
        let mut builder = TxBuilder::new();
        builder.upsert_with_id(db.contains(5), 5, &vector(&[1.0, 0.0, 0.0]), named(name));
        db.commit_tx(builder, all_logged).unwrap();
        assert_eq!(name_of(&db, 5), name);
    }
    assert_eq!(db.node_count(), 1);
}
