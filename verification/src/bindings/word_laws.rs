//! Which words callers write for which setting, and what stands behind the codes they get.
use vstd::prelude::*;

use crate::bindings::errors::error_code;
use crate::bindings::integers::encodes;
use crate::bindings::operations::{
    is_id, is_request, member_id, spec_kind, RequestKind, TxRequest,
};
use crate::bindings::options::{
    is_resolved, is_safe, safe_integer, spec_access_mode, spec_direction, spec_edge_direction,
    spec_element_type, spec_missing_index_policy, spec_pool_size, spec_storage_mode, spec_sync_mode,
    ElementType, SearchOptions,
};
use crate::bindings::session::{access_mode_of, direction_of, missing_index_policy_of};
use crate::database::config::{
    default_search, AccessMode, EdgeDirection, MissingIndexPolicy, SearchConfig, StorageMode,
};
use crate::database::fusion::F32_ONE;
use crate::error::TriviumError;
use crate::filter::{parsed_filter, Parsed};
use crate::graph::reachability::ReachabilityDirection;
use crate::json::{lookup, Json, JsonView};
use crate::node::NodeId;
use crate::storage::wal::SyncMode;

verus! {

/// Each component type has one name, and no other word names one.
pub proof fn law_element_type_words(word: Seq<char>)
    ensures
        spec_element_type(word) == Some(ElementType::F32) <==> word == "f32"@,
        spec_element_type(word) == Some(ElementType::F16) <==> word == "f16"@,
        spec_element_type(word) == Some(ElementType::U64) <==> word == "u64"@,
{
    reveal_strlit("f32");
    reveal_strlit("f16");
    reveal_strlit("u64");
    assert("f32"@[1] == '3' && "f16"@[1] == '1' && "u64"@[1] == '6');
}

/// Each storage mode and each log mode has one name, and no other word names one.
pub proof fn law_storage_words(word: Seq<char>)
    ensures
        spec_storage_mode(word) == Some(StorageMode::Mmap) <==> word == "mmap"@,
        spec_storage_mode(word) == Some(StorageMode::Rom) <==> word == "rom"@,
        spec_sync_mode(word) == Some(SyncMode::Full) <==> word == "full"@,
        spec_sync_mode(word) == Some(SyncMode::Normal) <==> word == "normal"@,
        spec_sync_mode(word) == Some(SyncMode::Off) <==> word == "off"@,
{
    reveal_strlit("mmap");
    reveal_strlit("rom");
    reveal_strlit("full");
    reveal_strlit("normal");
    reveal_strlit("off");
    assert("mmap"@.len() == 4 && "rom"@.len() == 3);
    assert("full"@.len() == 4 && "normal"@.len() == 6 && "off"@.len() == 3);
}

/// Each access mode has one name in either language, and no other word names one.
pub proof fn law_access_words(word: Seq<char>)
    ensures
        spec_access_mode(word) == Some(AccessMode::ReadWrite) <==> word == "readWrite"@,
        spec_access_mode(word) == Some(AccessMode::ReadOnly) <==> word == "readOnly"@,
        spec_access_mode(word) == Some(AccessMode::Immutable) <==> word == "immutable"@,
        access_mode_of(word) == Some(AccessMode::ReadWrite) <==> word == "read_write"@,
        access_mode_of(word) == Some(AccessMode::ReadOnly) <==> word == "read_only"@,
        access_mode_of(word) == Some(AccessMode::Immutable) <==> word == "immutable"@,
{
    reveal_strlit("readWrite");
    reveal_strlit("readOnly");
    reveal_strlit("immutable");
    reveal_strlit("read_write");
    reveal_strlit("read_only");
    assert("readWrite"@.len() == 9 && "readOnly"@.len() == 8);
    assert("read_write"@.len() == 10 && "read_only"@.len() == 9 && "immutable"@.len() == 9);
    assert("readWrite"@[0] == 'r' && "read_only"@[0] == 'r' && "immutable"@[0] == 'i');
}

/// Each policy about a missing index has one name in either language, and no other word names one.
pub proof fn law_missing_index_words(word: Seq<char>)
    ensures
        spec_missing_index_policy(word) == Some(MissingIndexPolicy::Fallback) <==> word
            == "fallback"@,
        spec_missing_index_policy(word) == Some(MissingIndexPolicy::BuildInMemory) <==> word
            == "buildInMemory"@,
        spec_missing_index_policy(word) == Some(MissingIndexPolicy::Error) <==> word == "error"@,
        missing_index_policy_of(word) == Some(MissingIndexPolicy::Fallback) <==> word
            == "fallback"@,
        missing_index_policy_of(word) == Some(MissingIndexPolicy::BuildInMemory) <==> word
            == "build_in_memory"@,
        missing_index_policy_of(word) == Some(MissingIndexPolicy::Error) <==> word == "error"@,
{
    reveal_strlit("fallback");
    reveal_strlit("buildInMemory");
    reveal_strlit("build_in_memory");
    reveal_strlit("error");
    assert("fallback"@.len() == 8 && "error"@.len() == 5);
    assert("buildInMemory"@.len() == 13 && "build_in_memory"@.len() == 15);
}

/// Each direction has its names, and no other word names one. What an expansion calls by its long
/// name a traversal calls so too.
pub proof fn law_direction_words(word: Seq<char>)
    ensures
        spec_edge_direction(word) == Some(EdgeDirection::Outgoing) <==> word == "out"@ || word
            == "outgoing"@,
        spec_edge_direction(word) == Some(EdgeDirection::Incoming) <==> word == "in"@ || word
            == "incoming"@,
        spec_edge_direction(word) == Some(EdgeDirection::Both) <==> word == "both"@,
        spec_direction(word) == Some(ReachabilityDirection::Outgoing) <==> word == "outgoing"@,
        spec_direction(word) == Some(ReachabilityDirection::Incoming) <==> word == "incoming"@,
        spec_direction(word) == Some(ReachabilityDirection::Both) <==> word == "both"@,
        direction_of(word) == spec_direction(word),
{
    reveal_strlit("out");
    reveal_strlit("outgoing");
    reveal_strlit("in");
    reveal_strlit("incoming");
    reveal_strlit("both");
    assert("out"@.len() == 3 && "in"@.len() == 2 && "both"@.len() == 4);
    assert("outgoing"@.len() == 8 && "incoming"@.len() == 8);
    assert("outgoing"@[0] == 'o' && "incoming"@[0] == 'i');
}

/// Each kind of operation has its name, an edge two, and no other word names one.
pub proof fn law_operation_words(word: Seq<char>)
    ensures
        spec_kind(word) == Some(RequestKind::Insert) <==> word == "insert"@,
        spec_kind(word) == Some(RequestKind::InsertWithId) <==> word == "insertWithId"@,
        spec_kind(word) == Some(RequestKind::Delete) <==> word == "delete"@,
        spec_kind(word) == Some(RequestKind::UpdatePayload) <==> word == "updatePayload"@,
        spec_kind(word) == Some(RequestKind::UpdateVector) <==> word == "updateVector"@,
        spec_kind(word) == Some(RequestKind::UpsertEdge) <==> word == "upsertEdge"@ || word
            == "link"@,
        spec_kind(word) == Some(RequestKind::Unlink) <==> word == "unlink"@,
        spec_kind(word) == Some(RequestKind::UnlinkLabel) <==> word == "unlinkLabel"@,
{
    reveal_strlit("insert");
    reveal_strlit("insertWithId");
    reveal_strlit("delete");
    reveal_strlit("updatePayload");
    reveal_strlit("updateVector");
    reveal_strlit("upsertEdge");
    reveal_strlit("link");
    reveal_strlit("unlink");
    reveal_strlit("unlinkLabel");
    assert("insert"@.len() == 6 && "delete"@.len() == 6 && "unlink"@.len() == 6);
    assert("insert"@[0] == 'i' && "delete"@[0] == 'd' && "unlink"@[0] == 'u');
    assert("insertWithId"@.len() == 12 && "updateVector"@.len() == 12);
    assert("insertWithId"@[0] == 'i' && "updateVector"@[0] == 'u');
    assert("updatePayload"@.len() == 13 && "upsertEdge"@.len() == 10 && "link"@.len() == 4);
    assert("unlinkLabel"@.len() == 11);
}

/// A pool size that a caller gives: a positive number counts, nothing and less than nothing leave
/// the choice to the library.
pub proof fn law_pool_sizes_are_not_negative(size: Option<i64>)
    ensures
        size is None ==> spec_pool_size(size) == 0,
        size matches Some(count) ==> count <= 0 ==> spec_pool_size(size) == 0,
        size matches Some(count) ==> 0 < count <= usize::MAX ==> spec_pool_size(size) == count,
{
}

/// Errors that callers have to tell apart have codes of their own, which do not depend on what the
/// errors say; all others have the general one.
pub proof fn law_codes_name_their_errors(error: TriviumError)
    ensures
        error is ReadOnlyViolation ==> error_code(error) == "TDB_READ_ONLY"@,
        error is RecoveryRequired ==> error_code(error) == "TDB_RECOVERY_REQUIRED"@,
        error is ImmutableArtifactInvalid ==> error_code(error) == "TDB_IMMUTABLE_ARTIFACT"@,
        error is GenerationBusy ==> error_code(error) == "TDB_GENERATION_BUSY"@,
        error is UnsupportedDatabaseVersion ==> error_code(error)
            == "TDB_UNSUPPORTED_DATABASE_VERSION"@,
        error is UnsupportedWalVersion ==> error_code(error) == "TDB_UNSUPPORTED_WAL_VERSION"@,
        error is UnsupportedSidecarVersion ==> error_code(error)
            == "TDB_UNSUPPORTED_SIDECAR_VERSION"@,
        error is ApiMigrationRequired ==> error_code(error) == "TDB_API_MIGRATION_REQUIRED"@,
        error is QueryParse ==> error_code(error) == "TDB_QUERY_PARSE"@,
        error is QueryExecution ==> error_code(error) == "TDB_QUERY_EXECUTION"@,
        error is DimensionMismatch ==> error_code(error) == "TDB_DIMENSION_MISMATCH"@,
        error is NodeNotFound ==> error_code(error) == "TDB_NODE_NOT_FOUND"@,
        error is InvalidInput ==> error_code(error) == "TDB_INVALID_INPUT"@,
        error is Io || error is Generic || error is DatabaseLocked || error is WalClosed
            || error is DatabaseClosed || error is CorruptedFile || error is InvalidVector
            || error is NodeAlreadyExists || error is PayloadTooLarge ==> error_code(error)
            == "TDB_ERROR"@,
{
}

/// Options that a caller leaves out stand for the usual settings, each for its own.
pub proof fn law_left_out_options_are_the_usual_settings<F: Fn(u64) -> u32>(
    options: SearchOptions,
    advanced: bool,
    narrow: F,
    config: SearchConfig,
)
    requires
        is_resolved(options, advanced, narrow, config),
    ensures
        ({
            let usual = default_search();
            &&& options.top_k is None ==> config.top_k == usual.top_k
            &&& options.recall_k is None ==> config.recall_k == usual.recall_k
            &&& options.rerank_k is None ==> config.rerank_k == usual.rerank_k
            &&& options.expand_depth is None ==> config.expand_depth == usual.expand_depth
            &&& options.min_score is None ==> config.min_score == usual.min_score
            &&& options.teleport_alpha is None ==> config.teleport_alpha == usual.teleport_alpha
            &&& options.enable_advanced_pipeline is None && !advanced
                ==> config.enable_advanced_pipeline == usual.enable_advanced_pipeline
            &&& options.enable_sparse_residual is None ==> config.enable_sparse_residual
                == usual.enable_sparse_residual
            &&& options.fista_lambda is None ==> config.fista_lambda == usual.fista_lambda
            &&& options.fista_threshold is None ==> config.fista_threshold == usual.fista_threshold
            &&& options.enable_dpp is None ==> config.enable_dpp == usual.enable_dpp
            &&& options.dpp_quality_weight is None ==> config.dpp_quality_weight
                == usual.dpp_quality_weight
            &&& options.enable_refractory_fatigue is None ==> config.enable_refractory_fatigue
                == usual.enable_refractory_fatigue
            &&& options.enable_text_hybrid_search is None ==> config.enable_text_hybrid_search
                == usual.enable_text_hybrid_search
            &&& options.text_boost is None ==> config.text_boost == usual.text_boost
            &&& options.force_brute_force is None ==> config.force_brute_force
                == usual.force_brute_force
            &&& options.payload_filter is None ==> config.payload_filter is None
            &&& options.diffusion_bias is None ==> config.diffusion_bias is None
            &&& options.expand_labels is None ==> config.expand_labels is None
            &&& options.max_edges_per_node is None ==> config.max_edges_per_node
                == usual.max_edges_per_node
            &&& options.min_edge_weight is None ==> config.min_edge_weight == usual.min_edge_weight
            &&& options.edge_direction is None ==> config.edge_direction == usual.edge_direction
            &&& config.enable_inverse_inhibition == usual.enable_inverse_inhibition
            &&& config.lateral_inhibition_threshold == usual.lateral_inhibition_threshold
            &&& config.bm25_k1 == usual.bm25_k1 && config.bm25_b == usual.bm25_b
        }),
{
    law_direction_words("out"@);
}

/// Options that a caller gives are taken, each for its own setting.
pub proof fn law_given_options_are_taken<F: Fn(u64) -> u32>(
    options: SearchOptions,
    advanced: bool,
    narrow: F,
    config: SearchConfig,
)
    requires
        is_resolved(options, advanced, narrow, config),
    ensures
        options.top_k matches Some(count) ==> 0 < count <= usize::MAX ==> config.top_k == count,
        options.recall_k matches Some(count) ==> 0 < count <= usize::MAX ==> config.recall_k
            == count,
        options.rerank_k matches Some(count) ==> 0 < count <= usize::MAX ==> config.rerank_k
            == count,
        options.expand_depth matches Some(depth) ==> config.expand_depth == depth,
        options.min_score matches Some(bits) ==> call_ensures(narrow, (bits,), config.min_score),
        options.teleport_alpha matches Some(bits) ==> call_ensures(
            narrow,
            (bits,),
            config.teleport_alpha,
        ),
        options.fista_lambda matches Some(bits) ==> call_ensures(
            narrow,
            (bits,),
            config.fista_lambda,
        ),
        options.fista_threshold matches Some(bits) ==> call_ensures(
            narrow,
            (bits,),
            config.fista_threshold,
        ),
        options.dpp_quality_weight matches Some(bits) ==> call_ensures(
            narrow,
            (bits,),
            config.dpp_quality_weight,
        ),
        options.text_boost matches Some(bits) ==> call_ensures(narrow, (bits,), config.text_boost),
        options.min_edge_weight matches Some(bits) ==> call_ensures(
            narrow,
            (bits,),
            config.min_edge_weight,
        ),
        options.enable_advanced_pipeline matches Some(wanted) ==> config.enable_advanced_pipeline
            == wanted,
        options.enable_advanced_pipeline is None ==> config.enable_advanced_pipeline == advanced,
        options.enable_sparse_residual matches Some(wanted) ==> config.enable_sparse_residual
            == wanted,
        options.enable_dpp matches Some(wanted) ==> config.enable_dpp == wanted,
        options.enable_refractory_fatigue matches Some(wanted) ==> config.enable_refractory_fatigue
            == wanted,
        options.enable_text_hybrid_search matches Some(wanted) ==> config.enable_text_hybrid_search
            == wanted,
        options.force_brute_force matches Some(wanted) ==> config.force_brute_force == wanted,
        options.expand_labels is Some ==> config.expand_labels == options.expand_labels,
        options.payload_filter matches Some(json) ==> config.payload_filter is Some && (
        parsed_filter(json) == Parsed::Accepted(config.payload_filter->0@)),
        options.edge_direction matches Some(word) ==> Some(config.edge_direction)
            == spec_edge_direction(word@),
        options.max_edges_per_node matches Some(bits) ==> encodes(
            bits,
            config.max_edges_per_node as nat,
        ),
{
    if let Some(bits) = options.max_edges_per_node {
        assert(safe_integer(bits) is Some);
        let value = choose|value: usize| #[trigger] is_safe(bits, value);
        assert(is_safe(bits, value));
    }
}

/// Whether a member of an operation holds an identifier.
pub open spec fn holds_id(op: JsonView, name: Seq<char>, id: NodeId) -> bool {
    lookup(op, name) is Some && id <= usize::MAX && is_id(lookup(op, name)->0, id as usize)
}

/// Whether an operation is of the type with this word.
pub open spec fn has_type(op: JsonView, word: Seq<char>) -> bool {
    lookup(op, "type"@) == Some(JsonView::String(word))
}

/// A request takes its identifiers from the members that bear their names: the node from `id`, the
/// ends of an edge from `src` and `dst`. An edge without a label is a related one, and one without a
/// weight weighs one.
pub proof fn law_requests_read_their_members<
    T,
    C: Fn(u64) -> T,
    E: Fn(&Json) -> String,
    N: Fn(u64) -> u32,
>(op: JsonView, convert: C, encode: E, narrow: N, request: TxRequest<T>)
    requires
        is_request(op, convert, encode, narrow, request),
        u64::MAX <= usize::MAX,
    ensures
        match request {
            TxRequest::Insert { .. } => has_type(op, "insert"@),
            TxRequest::InsertWithId { id, .. } => has_type(op, "insertWithId"@) && holds_id(
                op,
                "id"@,
                id,
            ),
            TxRequest::Delete { id } => has_type(op, "delete"@) && holds_id(op, "id"@, id),
            TxRequest::UpdatePayload { id, .. } => has_type(op, "updatePayload"@) && holds_id(
                op,
                "id"@,
                id,
            ),
            TxRequest::UpdateVector { id, .. } => has_type(op, "updateVector"@) && holds_id(
                op,
                "id"@,
                id,
            ),
            TxRequest::UpsertEdge { src, dst, label, weight, .. } => {
                &&& has_type(op, "upsertEdge"@) || has_type(op, "link"@)
                &&& holds_id(op, "src"@, src) && holds_id(op, "dst"@, dst)
                &&& lookup(op, "label"@) is None ==> label@ == "related"@
                &&& lookup(op, "label"@) matches Some(JsonView::String(text)) ==> label@ == text
                &&& lookup(op, "weight"@) is None ==> weight == F32_ONE
            },
            TxRequest::Unlink { src, dst } => has_type(op, "unlink"@) && holds_id(op, "src"@, src)
                && holds_id(op, "dst"@, dst),
            TxRequest::UnlinkLabel { src, dst, label } => has_type(op, "unlinkLabel"@) && holds_id(
                op,
                "src"@,
                src,
            ) && holds_id(op, "dst"@, dst) && lookup(op, "label"@) == Some(
                JsonView::String(label@),
            ),
        },
{
    law_operation_words(lookup(op, "type"@)->0->String_0);
    lemma_member_id(op, "id"@);
    lemma_member_id(op, "src"@);
    lemma_member_id(op, "dst"@);
}

/// What a member with an identifier holds.
proof fn lemma_member_id(op: JsonView, name: Seq<char>)
    ensures
        member_id(op, name) matches Some(id) ==> lookup(op, name) is Some && is_id(
            lookup(op, name)->0,
            id,
        ),
{
    if member_id(op, name) is Some {
        let value = lookup(op, name)->0;
        let id = choose|id: usize| #[trigger] is_id(value, id);
        assert(is_id(value, id));
    }
}

} // verus!
