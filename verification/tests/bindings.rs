use triviumdb::bindings::errors::ExceptionClass;
use triviumdb::bindings::integers::{decode_integer, parse_safe_usize};
use triviumdb::bindings::operations::{
    build_transaction, parse_operation, row_to_json, RowField, RowValue, TxRequest,
};
use triviumdb::bindings::options::{
    check_batch, check_batch_with_ids, memory_limit_bytes, parse_access_mode, parse_count,
    parse_direction, parse_edge_direction, parse_element_type, parse_missing_index_policy,
    parse_payload_filter, parse_reachability_options, parse_storage_mode, parse_top_k,
    DatabaseOptions, ElementType, JsLeidenConfig, JsPreparedTql, ReachabilityOptions,
    SearchOptions,
};
use triviumdb::bindings::session::{BlockEnd, OpenOptions, OptionFault, PyTransaction};
use triviumdb::database::config::{AccessMode, StorageMode};
use triviumdb::error::TriviumError;
use triviumdb::graph::reachability::ReachabilityDirection;
use triviumdb::json::{Json, JsonNumber, Member};
use triviumdb::node::Payload;
use triviumdb::storage::wal::SyncMode;
use triviumdb::vector::F32;

fn text(value: &str) -> Json {
    Json::String(value.to_string())
}

fn whole(value: u64) -> Json {
    Json::Number(JsonNumber::PosInt(value))
}

fn object(members: Vec<(&str, Json)>) -> Json {
    Json::object(
        members
            .into_iter()
            .map(|(name, value)| Member { name: name.to_string(), value })
            .collect(),
    )
}

fn convert(bits: u64) -> f32 {
    f64::from_bits(bits) as f32
}

fn encode(_: &Json) -> String {
    "encoded".to_string()
}

fn narrow(bits: u64) -> u32 {
    (f64::from_bits(bits) as f32).to_bits()
}

#[test]
fn whole_numbers_are_decoded() {
    assert_eq!(decode_integer(0f64.to_bits()), Some(0));
    assert_eq!(decode_integer(1f64.to_bits()), Some(1));
    assert_eq!(decode_integer(9007199254740991f64.to_bits()), Some(9007199254740991));
    assert_eq!(decode_integer(1.5f64.to_bits()), None);
    assert_eq!(decode_integer((-1f64).to_bits()), None);
    assert_eq!(decode_integer(f64::NAN.to_bits()), None);
    assert_eq!(decode_integer(f64::INFINITY.to_bits()), None);
    assert_eq!(parse_safe_usize(42f64.to_bits(), "limit"), Ok(42));
    assert!(parse_safe_usize(9007199254740993f64.to_bits() + 1, "limit").is_err());
    let message = parse_safe_usize(0.5f64.to_bits(), "limit").unwrap_err();
    assert!(message.contains("limit"), "{}", message);
}

#[test]
fn names_of_options_are_parsed() {
    assert!(matches!(parse_element_type(None), Ok(ElementType::F32)));
    assert!(matches!(parse_element_type(Some("f16")), Ok(ElementType::F16)));
    assert!(parse_element_type(Some("f64")).is_err());
    assert!(matches!(parse_storage_mode(Some("rom")), Ok(StorageMode::Rom)));
    assert!(parse_storage_mode(Some("tape")).is_err());
    assert!(matches!(parse_access_mode(None), Ok(AccessMode::ReadWrite)));
    assert!(parse_access_mode(Some("?")).is_err());
    assert!(parse_missing_index_policy(Some("?")).is_err());
    assert!(parse_edge_direction(Some("?")).is_err());
    assert!(matches!(parse_direction(Some("incoming")), Ok(ReachabilityDirection::Incoming)));
    assert!(parse_direction(Some("?")).is_err());
    assert!(matches!(SyncMode::parse("full"), Some(SyncMode::Full)));
    assert!(SyncMode::parse("?").is_none());
}

#[test]
fn counts_have_bounds() {
    assert_eq!(parse_count(None, "n", 7).unwrap(), 7);
    assert_eq!(parse_count(Some(3f64.to_bits()), "n", 7).unwrap(), 3);
    assert!(parse_count(Some((-3f64).to_bits()), "n", 7).is_err());
    assert_eq!(parse_top_k(Some(3)).unwrap(), 3);
    assert!(parse_top_k(Some(-3)).is_err());
    assert_eq!(memory_limit_bytes(2), Some(2 * 1024 * 1024));
    assert_eq!(memory_limit_bytes(usize::MAX), None);
    assert!(check_batch(2, 2).is_ok());
    assert!(check_batch(2, 3).is_err());
    assert!(check_batch_with_ids(2, 2, 2).is_ok());
    assert!(check_batch_with_ids(1, 2, 2).is_err());
    assert!(parse_payload_filter(None).unwrap().is_none());
    assert!(parse_payload_filter(Some(&whole(3))).is_err());
}

fn no_options() -> DatabaseOptions {
    DatabaseOptions {
        dim: None,
        dtype: None,
        sync_mode: None,
        storage_mode: None,
        auto_build_quiver: None,
        load_text_index: None,
        expected_nodes: None,
        memory_limit_mb: None,
        access_mode: None,
        missing_index_policy: None,
    }
}

#[test]
fn database_options_have_defaults() {
    let (config, element) = no_options().resolve().unwrap();
    assert_eq!(config.dim, 1536);
    assert!(matches!(element, ElementType::F32));
    let small = DatabaseOptions { dim: Some(8), dtype: Some("u64".to_string()), ..no_options() };
    let (config, element) = small.resolve().unwrap();
    assert_eq!(config.dim, 8);
    assert!(matches!(element, ElementType::U64));
    let wrong = DatabaseOptions { sync_mode: Some("?".to_string()), ..no_options() };
    assert!(wrong.resolve().is_err());
}

#[test]
fn reachability_options_are_resolved() {
    let options = ReachabilityOptions {
        min_depth: None,
        max_depth: Some(3),
        labels: None,
        direction: Some("both".to_string()),
        max_visited_nodes: Some(5f64.to_bits()),
        max_results: None,
        max_edges: None,
    };
    let config = parse_reachability_options(options).unwrap();
    assert_eq!(config.max_depth, 3);
    assert_eq!(config.max_visited_nodes, 5);
    assert!(matches!(config.direction, ReachabilityDirection::Both));
}

fn no_search_options() -> SearchOptions {
    SearchOptions {
        top_k: None,
        recall_k: None,
        rerank_k: None,
        expand_depth: None,
        min_score: None,
        teleport_alpha: None,
        enable_advanced_pipeline: None,
        enable_sparse_residual: None,
        fista_lambda: None,
        fista_threshold: None,
        enable_dpp: None,
        dpp_quality_weight: None,
        enable_refractory_fatigue: None,
        enable_text_hybrid_search: None,
        text_boost: None,
        force_brute_force: None,
        payload_filter: None,
        diffusion_bias: None,
        expand_labels: None,
        max_edges_per_node: None,
        min_edge_weight: None,
        edge_direction: None,
    }
}

#[test]
fn search_options_are_resolved() {
    let given = SearchOptions {
        top_k: Some(3),
        min_score: Some(0.5f64.to_bits()),
        payload_filter: Some(object(vec![("a", whole(1))])),
        ..no_search_options()
    };
    let config = given.resolve(true, &narrow).unwrap();
    assert_eq!(config.top_k, 3);
    assert_eq!(config.min_score, 0.5f32.to_bits());
    assert!(config.payload_filter.is_some());
    assert!(no_search_options().resolve(false, &narrow).is_ok());
    let wrong = SearchOptions { top_k: Some(-1), ..no_search_options() };
    assert!(wrong.resolve(true, &narrow).is_err());
    let unfiltered = SearchOptions { payload_filter: Some(whole(1)), ..no_search_options() };
    assert!(unfiltered.resolve(true, &narrow).is_err());
}

#[test]
fn operations_are_parsed() {
    let insert = object(vec![
        ("type", text("insert")),
        ("vector", Json::Array(vec![whole(1), whole(2)])),
        ("payload", object(vec![("a", whole(1))])),
    ]);
    match parse_operation(&insert, &convert, &encode, &narrow) {
        Ok(TxRequest::Insert { vector, payload }) => {
            assert_eq!(vector, vec![1.0, 2.0]);
            assert_eq!(payload.text, "encoded");
        }
        _ => panic!("not an insert"),
    }
    let delete = object(vec![("type", text("delete")), ("id", whole(7))]);
    assert!(matches!(
        parse_operation(&delete, &convert, &encode, &narrow),
        Ok(TxRequest::Delete { id: 7 })
    ));
    let unknown = object(vec![("type", text("explode"))]);
    assert!(parse_operation(&unknown, &convert, &encode, &narrow).is_err());
    let nameless = object(vec![("type", text("delete"))]);
    assert!(parse_operation(&nameless, &convert, &encode, &narrow).is_err());
    let list = vec![insert, delete];
    assert_eq!(build_transaction(&list, &convert, &encode, &narrow).unwrap().len(), 2);
    let bad = vec![nameless];
    assert!(build_transaction(&bad, &convert, &encode, &narrow).is_err());
}

#[test]
fn rows_become_objects() {
    let row = vec![
        RowField { name: "v".to_string(), value: RowValue::Value(whole(3)) },
        RowField { name: "p".to_string(), value: RowValue::Path(vec![1, 2]) },
        RowField {
            name: "n".to_string(),
            value: RowValue::Node { id: 9, payload: text("x"), edges: 2 },
        },
    ];
    let json = row_to_json(&row);
    assert!(json.get("v").unwrap().same(&whole(3)));
    let node = json.get("n").unwrap();
    assert!(node.get("id").unwrap().same(&text("9")));
    assert!(node.get("numEdges").unwrap().same(&whole(2)));
    let path = Json::Array(vec![text("1"), text("2")]);
    assert!(json.get("p").unwrap().same(&path));
    assert!(node.get("payload").unwrap().same(&text("x")));
}

#[test]
fn errors_have_codes_texts_and_classes() {
    let missing = TriviumError::NodeNotFound(5);
    assert!(missing.describe().contains("5"));
    assert!(missing.coded_text().contains(missing.code()));
    let read_only = TriviumError::ReadOnlyViolation { operation: "insert".to_string() };
    assert!(matches!(read_only.exception().0, ExceptionClass::ReadOnly));
    let mismatch = TriviumError::DimensionMismatch { expected: 3, got: 2 };
    assert!(mismatch.describe().contains("3") && mismatch.describe().contains("2"));
    let busy = TriviumError::GenerationBusy { generation_id: "g".to_string() };
    assert!(matches!(busy.exception().0, ExceptionClass::GenerationBusy));
}

#[test]
fn cluster_options_and_prepared_statements() {
    let options =
        JsLeidenConfig { min_community_size: None, max_iterations: Some(4), with_centroids: None };
    let config = options.resolve();
    assert_eq!(config.max_iterations, 4);
    let statement = JsPreparedTql::new(vec!["a".to_string(), "b".to_string()]);
    assert_eq!(statement.parameter_names(), vec!["a".to_string(), "b".to_string()]);
}

fn open_options() -> OpenOptions {
    OpenOptions {
        dim: 4,
        dtype: "f16".to_string(),
        sync_mode: "off".to_string(),
        load_text_index: false,
        auto_build_quiver: true,
        expected_nodes: None,
        memory_limit_mb: 2,
        access_mode: "read_only".to_string(),
        missing_index_policy: "build_in_memory".to_string(),
    }
}

#[test]
fn options_by_name_are_resolved() {
    let (config, element) = open_options().resolve().unwrap();
    assert_eq!(config.dim, 4);
    assert_eq!(config.memory_limit, 2 * 1024 * 1024);
    assert!(matches!(config.access_mode, AccessMode::ReadOnly));
    assert!(matches!(config.storage_mode, StorageMode::Mmap));
    assert!(matches!(element, ElementType::F16));
    let large = OpenOptions { memory_limit_mb: usize::MAX, ..open_options() };
    assert!(matches!(large.resolve(), Err(OptionFault::Overflow(_))));
    let wrong = OpenOptions { dtype: "f64".to_string(), ..open_options() };
    match wrong.resolve() {
        Err(OptionFault::Value(text)) => {
            assert_eq!(text, "Unsupported dtype. Use 'f32', 'f16', or 'u64'");
        }
        _ => panic!("accepted"),
    }
}

#[test]
fn a_finished_transaction_takes_nothing_more() {
    let mut tx: PyTransaction<F32> = PyTransaction::new();
    tx.delete(1).unwrap();
    tx.link(1, 2, "a", 0).unwrap();
    assert_eq!(tx.pending_count(), 2);
    assert_eq!(tx.commit().unwrap().pending_count(), 2);
    assert_eq!(tx.pending_count(), 0);
    assert!(tx.delete(1).is_err());
    assert!(tx.insert(&[], Payload::null()).is_err());
    assert!(tx.commit().is_err());
    assert!(tx.rollback().is_err());
    assert!(matches!(tx.end_block(false), BlockEnd::Finished));
}

#[test]
fn the_end_of_a_block_commits_or_discards() {
    let mut good: PyTransaction<F32> = PyTransaction::new();
    good.unlink(1, 2, None).unwrap();
    good.unlink(1, 2, Some("a")).unwrap();
    match good.end_block(false) {
        BlockEnd::Commit(builder) => assert_eq!(builder.pending_count(), 2),
        _ => panic!("not committed"),
    }
    let mut bad: PyTransaction<F32> = PyTransaction::new();
    bad.update_payload(1, Payload::null()).unwrap();
    assert!(matches!(bad.end_block(true), BlockEnd::Discarded));
    assert_eq!(bad.pending_count(), 0);
}
