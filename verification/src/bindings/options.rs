//! Options as callers in other languages give them. Numbers are double precision bit patterns.
use vstd::prelude::*;

use crate::bindings::integers::{encodes, law_encoding_is_unique, parse_safe_usize, MAX_SAFE_INTEGER};
use crate::database::config::{
    AccessMode, Config, EdgeDirection, MissingIndexPolicy, SearchConfig, StorageMode,
};
use crate::filter::{parsed_filter, Filter, Parsed};
use crate::graph::budget::BudgetExhaustionPolicy;
use crate::graph::leiden::LeidenConfig;
use crate::graph::reachability::{ReachabilityConfig, ReachabilityDirection};
use crate::json::Json;
use crate::storage::wal::SyncMode;
use crate::text::{decimal, join, same_text, to_decimal};

verus! {

/// The result of reading options; the error is a text for the caller.
pub type Parse<A> = core::result::Result<A, String>;

/// A text option, or its default.
pub open spec fn text_or(value: Option<&str>, default: Seq<char>) -> Seq<char> {
    match value {
        Some(text) => text@,
        None => default,
    }
}

/// Whether a parse gives a value, or fails with a message.
pub open spec fn gives<A>(result: Parse<A>, expected: Option<A>, message: Seq<char>) -> bool {
    match expected {
        Some(value) => result == Ok::<A, String>(value),
        None => result matches Err(text) && text@ == message,
    }
}

/// The type of the components of vectors.
#[derive(Debug, Clone, Copy, PartialEq, Eq, Structural)]
pub enum ElementType {
    F32,
    F16,
    U64,
}

/// The component type of this name.
pub open spec fn spec_element_type(name: Seq<char>) -> Option<ElementType> {
    if name == "f32"@ {
        Some(ElementType::F32)
    } else if name == "f16"@ {
        Some(ElementType::F16)
    } else if name == "u64"@ {
        Some(ElementType::U64)
    } else {
        None
    }
}

/// Reads a component type; `f32` where none is given.
pub fn parse_element_type(value: Option<&str>) -> (result: Parse<ElementType>)
    ensures
        gives(
            result,
            spec_element_type(text_or(value, "f32"@)),
            "dtype 必须是 f32 / f16 / u64"@,
        ),
{
    let name = match value {
        Some(text) => text,
        None => "f32",
    };
    if same_text(name, "f32") {
        Ok(ElementType::F32)
    } else if same_text(name, "f16") {
        Ok(ElementType::F16)
    } else if same_text(name, "u64") {
        Ok(ElementType::U64)
    } else {
        Err("dtype 必须是 f32 / f16 / u64".to_owned())
    }
}

/// The storage mode of this name.
pub open spec fn spec_storage_mode(name: Seq<char>) -> Option<StorageMode> {
    if name == "mmap"@ {
        Some(StorageMode::Mmap)
    } else if name == "rom"@ {
        Some(StorageMode::Rom)
    } else {
        None
    }
}

/// Reads a storage mode; `mmap` where none is given.
pub fn parse_storage_mode(value: Option<&str>) -> (result: Parse<StorageMode>)
    ensures
        gives(
            result,
            spec_storage_mode(text_or(value, "mmap"@)),
            "storageMode 必须是 mmap / rom"@,
        ),
{
    let name = match value {
        Some(text) => text,
        None => "mmap",
    };
    if same_text(name, "mmap") {
        Ok(StorageMode::Mmap)
    } else if same_text(name, "rom") {
        Ok(StorageMode::Rom)
    } else {
        Err("storageMode 必须是 mmap / rom".to_owned())
    }
}

/// The access mode of this name.
pub open spec fn spec_access_mode(name: Seq<char>) -> Option<AccessMode> {
    if name == "readWrite"@ {
        Some(AccessMode::ReadWrite)
    } else if name == "readOnly"@ {
        Some(AccessMode::ReadOnly)
    } else if name == "immutable"@ {
        Some(AccessMode::Immutable)
    } else {
        None
    }
}

/// Reads an access mode; `readWrite` where none is given.
pub fn parse_access_mode(value: Option<&str>) -> (result: Parse<AccessMode>)
    ensures
        gives(
            result,
            spec_access_mode(text_or(value, "readWrite"@)),
            "accessMode 必须是 readWrite / readOnly / immutable"@,
        ),
{
    let name = match value {
        Some(text) => text,
        None => "readWrite",
    };
    if same_text(name, "readWrite") {
        Ok(AccessMode::ReadWrite)
    } else if same_text(name, "readOnly") {
        Ok(AccessMode::ReadOnly)
    } else if same_text(name, "immutable") {
        Ok(AccessMode::Immutable)
    } else {
        Err("accessMode 必须是 readWrite / readOnly / immutable".to_owned())
    }
}

/// The policy of this name.
pub open spec fn spec_missing_index_policy(name: Seq<char>) -> Option<MissingIndexPolicy> {
    if name == "fallback"@ {
        Some(MissingIndexPolicy::Fallback)
    } else if name == "buildInMemory"@ {
        Some(MissingIndexPolicy::BuildInMemory)
    } else if name == "error"@ {
        Some(MissingIndexPolicy::Error)
    } else {
        None
    }
}

/// Reads what to do about a missing index; `fallback` where nothing is given.
pub fn parse_missing_index_policy(value: Option<&str>) -> (result: Parse<MissingIndexPolicy>)
    ensures
        gives(
            result,
            spec_missing_index_policy(text_or(value, "fallback"@)),
            "missingIndexPolicy 必须是 fallback / buildInMemory / error"@,
        ),
{
    let name = match value {
        Some(text) => text,
        None => "fallback",
    };
    if same_text(name, "fallback") {
        Ok(MissingIndexPolicy::Fallback)
    } else if same_text(name, "buildInMemory") {
        Ok(MissingIndexPolicy::BuildInMemory)
    } else if same_text(name, "error") {
        Ok(MissingIndexPolicy::Error)
    } else {
        Err("missingIndexPolicy 必须是 fallback / buildInMemory / error".to_owned())
    }
}

/// The direction of this name.
pub open spec fn spec_edge_direction(name: Seq<char>) -> Option<EdgeDirection> {
    if name == "out"@ || name == "outgoing"@ {
        Some(EdgeDirection::Outgoing)
    } else if name == "in"@ || name == "incoming"@ {
        Some(EdgeDirection::Incoming)
    } else if name == "both"@ {
        Some(EdgeDirection::Both)
    } else {
        None
    }
}

/// Reads which edges an expansion follows; `out` where nothing is given.
pub fn parse_edge_direction(value: Option<&str>) -> (result: Parse<EdgeDirection>)
    ensures
        gives(
            result,
            spec_edge_direction(text_or(value, "out"@)),
            "edgeDirection 必须是 out / in / both"@,
        ),
{
    let name = match value {
        Some(text) => text,
        None => "out",
    };
    if same_text(name, "out") || same_text(name, "outgoing") {
        Ok(EdgeDirection::Outgoing)
    } else if same_text(name, "in") || same_text(name, "incoming") {
        Ok(EdgeDirection::Incoming)
    } else if same_text(name, "both") {
        Ok(EdgeDirection::Both)
    } else {
        Err("edgeDirection 必须是 out / in / both".to_owned())
    }
}

/// The direction of this name.
pub open spec fn spec_direction(name: Seq<char>) -> Option<ReachabilityDirection> {
    if name == "outgoing"@ {
        Some(ReachabilityDirection::Outgoing)
    } else if name == "incoming"@ {
        Some(ReachabilityDirection::Incoming)
    } else if name == "both"@ {
        Some(ReachabilityDirection::Both)
    } else {
        None
    }
}

/// Reads which edges a traversal follows; `outgoing` where nothing is given.
pub fn parse_direction(value: Option<&str>) -> (result: Parse<ReachabilityDirection>)
    ensures
        gives(
            result,
            spec_direction(text_or(value, "outgoing"@)),
            "direction 必须是 outgoing / incoming / both"@,
        ),
{
    let name = match value {
        Some(text) => text,
        None => "outgoing",
    };
    if same_text(name, "outgoing") {
        Ok(ReachabilityDirection::Outgoing)
    } else if same_text(name, "incoming") {
        Ok(ReachabilityDirection::Incoming)
    } else if same_text(name, "both") {
        Ok(ReachabilityDirection::Both)
    } else {
        Err("direction 必须是 outgoing / incoming / both".to_owned())
    }
}

/// The whole number that a caller gave, where it can be held exactly.
pub open spec fn safe_integer(bits: u64) -> Option<usize> {
    if exists|value: usize| #[trigger] is_safe(bits, value) {
        Some(choose|value: usize| #[trigger] is_safe(bits, value))
    } else {
        None
    }
}

/// Whether an encoding stands for a whole number that can be held exactly.
pub open spec fn is_safe(bits: u64, value: usize) -> bool {
    encodes(bits, value as nat) && value <= MAX_SAFE_INTEGER
}

/// Reads an optional count.
pub fn parse_count(bits: Option<u64>, name: &str, default: usize) -> (result: Parse<usize>)
    ensures
        match bits {
            None => result == Ok::<usize, String>(default),
            Some(number) => gives(
                result,
                safe_integer(number),
                name@ + " 必须是 JavaScript 安全范围内的非负整数"@,
            ),
        },
{
    match bits {
        None => Ok(default),
        Some(number) => match parse_safe_usize(number, name) {
            Ok(value) => {
                proof {
                    assert(is_safe(number, value));
                    let other = choose|other: usize| #[trigger] is_safe(number, other);
                    law_encoding_is_unique(number, value as nat, other as nat);
                }
                Ok(value)
            },
            Err(message) => {
                proof {
                    assert forall|value: usize| !(#[trigger] is_safe(number, value)) by {
                        if encodes(number, value as nat) {
                        }
                    }
                }
                Err(message)
            },
        },
    }
}

/// A signed number in decimal.
pub open spec fn signed_decimal(value: i64) -> Seq<char> {
    if value < 0 {
        "-"@ + decimal((-(value as int)) as nat)
    } else {
        decimal(value as nat)
    }
}

/// A signed number in decimal.
fn to_signed_decimal(value: i64) -> (text: String)
    ensures
        text@ == signed_decimal(value),
{
    if value < 0 {
        let magnitude: u64 = (-(value as i128)) as u64;
        join("-", to_decimal(magnitude).as_str())
    } else {
        to_decimal(value as u64)
    }
}

/// The number of results that a caller asked for: five where nothing is given. It has to be
/// positive.
pub fn parse_top_k(top_k: Option<i64>) -> (result: Parse<usize>)
    ensures
        ({
            let wanted = match top_k {
                Some(count) => count,
                None => 5,
            };
            if wanted <= 0 {
                result matches Err(message) && message@ == "top_k 必须为正整数，收到 "@
                    + signed_decimal(wanted)
            } else {
                result matches Ok(count) && count == if wanted <= usize::MAX {
                    wanted as int
                } else {
                    usize::MAX as int
                }
            }
        }),
{
    let wanted: i64 = match top_k {
        Some(count) => count,
        None => 5,
    };
    if wanted <= 0 {
        return Err(join("top_k 必须为正整数，收到 ", to_signed_decimal(wanted).as_str()));
    }
    if wanted as u64 <= usize::MAX as u64 {
        Ok(wanted as usize)
    } else {
        Ok(usize::MAX)
    }
}

/// A pool size that a caller asked for; negative sizes count as zero.
fn pool_size(size: Option<i64>) -> (result: usize)
    ensures
        result == spec_pool_size(size),
{
    match size {
        Some(count) => if count <= 0 {
            0
        } else if count as u64 <= usize::MAX as u64 {
            count as usize
        } else {
            usize::MAX
        },
        None => 0,
    }
}

/// A pool size that a caller asked for; negative sizes count as zero.
pub open spec fn spec_pool_size(size: Option<i64>) -> usize {
    match size {
        Some(count) => if count <= 0 {
            0
        } else if count <= usize::MAX {
            count as usize
        } else {
            usize::MAX
        },
        None => 0,
    }
}

/// Reads an optional filter.
pub fn parse_payload_filter(value: Option<&Json>) -> (result: Parse<Option<Filter>>)
    ensures
        match value {
            None => result == Ok::<Option<Filter>, String>(None),
            Some(json) => match parsed_filter(*json) {
                Parsed::Accepted(view) => result matches Ok(Some(filter)) && filter@ == view,
                Parsed::Rejected(reason) => result matches Err(message) && message@
                    == "payloadFilter 无效 (Invalid payloadFilter): "@ + reason,
            },
        },
{
    match value {
        None => Ok(None),
        Some(json) => match Filter::from_json(json) {
            Ok(filter) => Ok(Some(filter)),
            Err(reason) => Err(
                join("payloadFilter 无效 (Invalid payloadFilter): ", reason.as_str()),
            ),
        },
    }
}

/// The number of bytes in a number of mebibytes.
pub fn memory_limit_bytes(megabytes: usize) -> (bytes: Option<usize>)
    ensures
        match bytes {
            Some(count) => count == megabytes * 1048576,
            None => megabytes * 1048576 > usize::MAX,
        },
{
    megabytes.checked_mul(1_048_576)
}

/// The log mode of this name.
pub open spec fn spec_sync_mode(name: Seq<char>) -> Option<SyncMode> {
    if name == "full"@ {
        Some(SyncMode::Full)
    } else if name == "normal"@ {
        Some(SyncMode::Normal)
    } else if name == "off"@ {
        Some(SyncMode::Off)
    } else {
        None
    }
}

impl SyncMode {
    /// Reads a log mode.
    pub fn parse(name: &str) -> (mode: Option<SyncMode>)
        ensures
            mode == spec_sync_mode(name@),
    {
        if same_text(name, "full") {
            Some(SyncMode::Full)
        } else if same_text(name, "normal") {
            Some(SyncMode::Normal)
        } else if same_text(name, "off") {
            Some(SyncMode::Off)
        } else {
            None
        }
    }
}

/// The options with which a database is opened.
#[derive(Debug)]
pub struct DatabaseOptions {
    pub dim: Option<u32>,
    pub dtype: Option<String>,
    pub sync_mode: Option<String>,
    pub storage_mode: Option<String>,
    pub auto_build_quiver: Option<bool>,
    pub load_text_index: Option<bool>,
    pub expected_nodes: Option<u64>,
    pub memory_limit_mb: Option<u64>,
    pub access_mode: Option<String>,
    pub missing_index_policy: Option<String>,
}

/// An owned text option, or its default.
pub open spec fn owned_or(value: Option<String>, default: Seq<char>) -> Seq<char> {
    match value {
        Some(text) => text@,
        None => default,
    }
}

/// An owned text option as a borrowed one.
fn borrowed(value: &Option<String>) -> (result: Option<&str>)
    ensures
        match (*value, result) {
            (Some(text), Some(borrowed)) => borrowed@ == text@,
            (None, None) => true,
            _ => false,
        },
{
    match value {
        Some(text) => Some(text.as_str()),
        None => None,
    }
}

/// Why options are refused: the first fault in the order in which they are read.
pub open spec fn options_fault(options: DatabaseOptions) -> Option<Seq<char>> {
    let megabytes = match options.memory_limit_mb {
        Some(bits) => safe_integer(bits),
        None => Some(0usize),
    };
    if options.expected_nodes matches Some(bits) && safe_integer(bits) is None {
        Some("expectedNodes 必须是 JavaScript 安全范围内的非负整数"@)
    } else if megabytes is None {
        Some("memoryLimitMb 必须是 JavaScript 安全范围内的非负整数"@)
    } else if megabytes->0 * 1048576 > usize::MAX {
        Some("memoryLimitMb 换算字节时溢出"@)
    } else if spec_sync_mode(owned_or(options.sync_mode, "normal"@)) is None {
        Some("syncMode 必须是 full / normal / off"@)
    } else if spec_storage_mode(owned_or(options.storage_mode, "mmap"@)) is None {
        Some("storageMode 必须是 mmap / rom"@)
    } else if spec_access_mode(owned_or(options.access_mode, "readWrite"@)) is None {
        Some("accessMode 必须是 readWrite / readOnly / immutable"@)
    } else if spec_missing_index_policy(
        owned_or(options.missing_index_policy, "fallback"@),
    ) is None {
        Some("missingIndexPolicy 必须是 fallback / buildInMemory / error"@)
    } else if spec_element_type(owned_or(options.dtype, "f32"@)) is None {
        Some("dtype 必须是 f32 / f16 / u64"@)
    } else {
        None
    }
}

impl DatabaseOptions {
    /// The settings that the options stand for.
    pub fn resolve(&self) -> (result: Parse<(Config, ElementType)>)
        ensures
            match result {
                Err(message) => options_fault(*self) == Some(message@),
                Ok((config, element)) => {
                    &&& options_fault(*self) is None
                    &&& config.dim == match self.dim {
                        Some(dim) => dim as int,
                        None => 1536,
                    }
                    &&& Some(config.sync_mode) == spec_sync_mode(
                        owned_or(self.sync_mode, "normal"@),
                    )
                    &&& Some(config.storage_mode) == spec_storage_mode(
                        owned_or(self.storage_mode, "mmap"@),
                    )
                    &&& config.auto_build_quiver == match self.auto_build_quiver {
                        Some(wanted) => wanted,
                        None => true,
                    }
                    &&& config.load_text_index == match self.load_text_index {
                        Some(wanted) => wanted,
                        None => false,
                    }
                    &&& config.expected_nodes == match self.expected_nodes {
                        Some(bits) => safe_integer(bits),
                        None => None,
                    }
                    &&& config.memory_limit == match self.memory_limit_mb {
                        Some(bits) => safe_integer(bits)->0 * 1048576,
                        None => 0,
                    }
                    &&& Some(config.access_mode) == spec_access_mode(
                        owned_or(self.access_mode, "readWrite"@),
                    )
                    &&& Some(config.missing_index_policy) == spec_missing_index_policy(
                        owned_or(self.missing_index_policy, "fallback"@),
                    )
                    &&& Some(element) == spec_element_type(owned_or(self.dtype, "f32"@))
                },
            },
    {
        proof {
            reveal_strlit("expectedNodes");
            reveal_strlit("memoryLimitMb");
            reveal_strlit(" 必须是 JavaScript 安全范围内的非负整数");
            reveal_strlit("expectedNodes 必须是 JavaScript 安全范围内的非负整数");
            reveal_strlit("memoryLimitMb 必须是 JavaScript 安全范围内的非负整数");
            assert("expectedNodes"@ + " 必须是 JavaScript 安全范围内的非负整数"@
                =~= "expectedNodes 必须是 JavaScript 安全范围内的非负整数"@);
            assert("memoryLimitMb"@ + " 必须是 JavaScript 安全范围内的非负整数"@
                =~= "memoryLimitMb 必须是 JavaScript 安全范围内的非负整数"@);
        }
        let expected_nodes: Option<usize> = match self.expected_nodes {
            Some(bits) => match parse_count(Some(bits), "expectedNodes", 0) {
                Ok(count) => Some(count),
                Err(message) => {
                    return Err(message);
                },
            },
            None => None,
        };
        let megabytes: usize = match parse_count(self.memory_limit_mb, "memoryLimitMb", 0) {
            Ok(count) => count,
            Err(message) => {
                return Err(message);
            },
        };
        let memory_limit: usize = match memory_limit_bytes(megabytes) {
            Some(bytes) => bytes,
            None => {
                return Err("memoryLimitMb 换算字节时溢出".to_owned());
            },
        };
        let sync_name = match &self.sync_mode {
            Some(text) => text.as_str(),
            None => "normal",
        };
        let sync_mode = match SyncMode::parse(sync_name) {
            Some(mode) => mode,
            None => {
                return Err("syncMode 必须是 full / normal / off".to_owned());
            },
        };
        let storage_mode = match parse_storage_mode(borrowed(&self.storage_mode)) {
            Ok(mode) => mode,
            Err(message) => {
                return Err(message);
            },
        };
        let access_mode = match parse_access_mode(borrowed(&self.access_mode)) {
            Ok(mode) => mode,
            Err(message) => {
                return Err(message);
            },
        };
        let missing_index_policy = match parse_missing_index_policy(
            borrowed(&self.missing_index_policy),
        ) {
            Ok(policy) => policy,
            Err(message) => {
                return Err(message);
            },
        };
        let element = match parse_element_type(borrowed(&self.dtype)) {
            Ok(element) => element,
            Err(message) => {
                return Err(message);
            },
        };
        let config = Config {
            dim: match self.dim {
                Some(dim) => dim as usize,
                None => 1536,
            },
            sync_mode,
            storage_mode,
            auto_build_quiver: match self.auto_build_quiver {
                Some(wanted) => wanted,
                None => true,
            },
            load_text_index: match self.load_text_index {
                Some(wanted) => wanted,
                None => false,
            },
            expected_nodes,
            memory_limit,
            access_mode,
            missing_index_policy,
        };
        Ok((config, element))
    }
}

/// The options of a traversal.
#[derive(Debug)]
pub struct ReachabilityOptions {
    pub min_depth: Option<u32>,
    pub max_depth: Option<u32>,
    pub labels: Option<Vec<String>>,
    pub direction: Option<String>,
    pub max_visited_nodes: Option<u64>,
    pub max_results: Option<u64>,
    pub max_edges: Option<u64>,
}

/// A count, or its default.
pub open spec fn count_or(bits: Option<u64>, default: usize) -> Option<usize> {
    match bits {
        Some(number) => safe_integer(number),
        None => Some(default),
    }
}

/// Why the options of a traversal are refused.
pub open spec fn reachability_fault(options: ReachabilityOptions) -> Option<Seq<char>> {
    if spec_direction(owned_or(options.direction, "outgoing"@)) is None {
        Some("direction 必须是 outgoing / incoming / both"@)
    } else if count_or(options.max_visited_nodes, 10_000) is None {
        Some("maxVisitedNodes"@ + " 必须是 JavaScript 安全范围内的非负整数"@)
    } else if count_or(options.max_results, 10_000) is None {
        Some("maxResults"@ + " 必须是 JavaScript 安全范围内的非负整数"@)
    } else if count_or(options.max_edges, 50_000) is None {
        Some("maxEdges"@ + " 必须是 JavaScript 安全范围内的非负整数"@)
    } else {
        None
    }
}

/// The settings that the options of a traversal stand for.
pub fn parse_reachability_options(options: ReachabilityOptions) -> (result: Parse<
    ReachabilityConfig,
>)
    ensures
        match result {
            Err(message) => reachability_fault(options) == Some(message@),
            Ok(config) => {
                &&& reachability_fault(options) is None
                &&& config.min_depth == match options.min_depth {
                    Some(depth) => depth as int,
                    None => 1,
                }
                &&& config.max_depth == match options.max_depth {
                    Some(depth) => depth as int,
                    None => 1,
                }
                &&& config.labels == options.labels
                &&& Some(config.direction) == spec_direction(
                    owned_or(options.direction, "outgoing"@),
                )
                &&& Some(config.max_visited_nodes) == count_or(options.max_visited_nodes, 10_000)
                &&& Some(config.max_results) == count_or(options.max_results, 10_000)
                &&& Some(config.max_edges) == count_or(options.max_edges, 50_000)
                &&& config.max_frontier_size == 10_000
                &&& config.exhaustion_policy == BudgetExhaustionPolicy::Partial
            },
        },
{
    let direction = match parse_direction(borrowed(&options.direction)) {
        Ok(direction) => direction,
        Err(message) => {
            return Err(message);
        },
    };
    let max_visited_nodes: usize = match parse_count(
        options.max_visited_nodes,
        "maxVisitedNodes",
        10_000,
    ) {
        Ok(count) => count,
        Err(message) => {
            return Err(message);
        },
    };
    let max_results: usize = match parse_count(options.max_results, "maxResults", 10_000) {
        Ok(count) => count,
        Err(message) => {
            return Err(message);
        },
    };
    let max_edges: usize = match parse_count(options.max_edges, "maxEdges", 50_000) {
        Ok(count) => count,
        Err(message) => {
            return Err(message);
        },
    };
    Ok(
        ReachabilityConfig {
            min_depth: match options.min_depth {
                Some(depth) => depth as usize,
                None => 1,
            },
            max_depth: match options.max_depth {
                Some(depth) => depth as usize,
                None => 1,
            },
            labels: options.labels,
            direction,
            max_visited_nodes,
            max_results,
            max_edges,
            max_frontier_size: 10_000,
            exhaustion_policy: BudgetExhaustionPolicy::Partial,
        },
    )
}

/// The options of a search.
#[derive(Debug)]
pub struct SearchOptions {
    pub top_k: Option<i64>,
    pub recall_k: Option<i64>,
    pub rerank_k: Option<i64>,
    pub expand_depth: Option<u32>,
    pub min_score: Option<u64>,
    pub teleport_alpha: Option<u64>,
    pub enable_advanced_pipeline: Option<bool>,
    pub enable_sparse_residual: Option<bool>,
    pub fista_lambda: Option<u64>,
    pub fista_threshold: Option<u64>,
    pub enable_dpp: Option<bool>,
    pub dpp_quality_weight: Option<u64>,
    pub enable_refractory_fatigue: Option<bool>,
    pub enable_text_hybrid_search: Option<bool>,
    pub text_boost: Option<u64>,
    pub force_brute_force: Option<bool>,
    pub payload_filter: Option<Json>,
    pub diffusion_bias: Option<Vec<u64>>,
    pub expand_labels: Option<Vec<String>>,
    pub max_edges_per_node: Option<u64>,
    pub min_edge_weight: Option<u64>,
    pub edge_direction: Option<String>,
}

/// Whether `narrow` may give a setting for an optional number; without one it is the default.
pub open spec fn is_narrowed<F: Fn(u64) -> u32>(
    narrow: F,
    given: Option<u64>,
    default: u32,
    setting: u32,
) -> bool {
    match given {
        Some(bits) => call_ensures(narrow, (bits,), setting),
        None => setting == default,
    }
}

/// An optional number made single precision.
fn narrow_or<F: Fn(u64) -> u32>(narrow: &F, given: Option<u64>, default: u32) -> (setting: u32)
    requires
        forall|bits: u64| call_requires(*narrow, (bits,)),
    ensures
        is_narrowed(*narrow, given, default, setting),
{
    match given {
        Some(bits) => narrow(bits),
        None => default,
    }
}

/// A switch, or its default.
pub open spec fn switch_or(given: Option<bool>, default: bool) -> bool {
    match given {
        Some(wanted) => wanted,
        None => default,
    }
}

/// A switch, or its default.
fn switch(given: Option<bool>, default: bool) -> (wanted: bool)
    ensures
        wanted == switch_or(given, default),
{
    match given {
        Some(wanted) => wanted,
        None => default,
    }
}

/// Why the options of a search are refused.
pub open spec fn search_fault(options: SearchOptions) -> Option<Seq<char>> {
    let wanted = match options.top_k {
        Some(count) => count,
        None => 5,
    };
    if wanted <= 0 {
        Some("top_k 必须为正整数，收到 "@ + signed_decimal(wanted))
    } else if options.payload_filter matches Some(json) && parsed_filter(
        json,
    ) matches Parsed::Rejected(reason) {
        Some(
            "payloadFilter 无效 (Invalid payloadFilter): "@ + parsed_filter(
                options.payload_filter->0,
            )->Rejected_0,
        )
    } else if count_or(options.max_edges_per_node, 0) is None {
        Some("maxEdgesPerNode"@ + " 必须是 JavaScript 安全范围内的非负整数"@)
    } else if spec_edge_direction(owned_or(options.edge_direction, "out"@)) is None {
        Some("edgeDirection 必须是 out / in / both"@)
    } else {
        None
    }
}

/// Whether settings are those that the options of a search stand for.
pub open spec fn is_resolved<F: Fn(u64) -> u32>(
    options: SearchOptions,
    advanced: bool,
    narrow: F,
    config: SearchConfig,
) -> bool {
    &&& config.top_k == spec_pool_size(
        match options.top_k {
            Some(count) => Some(count),
            None => Some(5i64),
        },
    )
    &&& config.recall_k == spec_pool_size(options.recall_k)
    &&& config.rerank_k == spec_pool_size(options.rerank_k)
    &&& config.expand_depth == match options.expand_depth {
        Some(depth) => depth as int,
        None => 2,
    }
    &&& is_narrowed(narrow, options.min_score, 0x3dcc_cccd, config.min_score)
    &&& is_narrowed(narrow, options.teleport_alpha, 0, config.teleport_alpha)
    &&& config.enable_advanced_pipeline == switch_or(options.enable_advanced_pipeline, advanced)
    &&& config.enable_sparse_residual == switch_or(options.enable_sparse_residual, false)
    &&& is_narrowed(narrow, options.fista_lambda, 0x3dcc_cccd, config.fista_lambda)
    &&& is_narrowed(narrow, options.fista_threshold, 0x3e99_999a, config.fista_threshold)
    &&& config.enable_dpp == switch_or(options.enable_dpp, false)
    &&& is_narrowed(narrow, options.dpp_quality_weight, 0x3f80_0000, config.dpp_quality_weight)
    &&& config.enable_refractory_fatigue == switch_or(options.enable_refractory_fatigue, false)
    &&& config.enable_text_hybrid_search == switch_or(options.enable_text_hybrid_search, false)
    &&& is_narrowed(narrow, options.text_boost, 0x3fc0_0000, config.text_boost)
    &&& config.force_brute_force == switch_or(options.force_brute_force, false)
    &&& match options.payload_filter {
        Some(json) => config.payload_filter matches Some(filter) && parsed_filter(json)
            == Parsed::Accepted(filter@),
        None => config.payload_filter is None,
    }
    &&& match (options.diffusion_bias, config.diffusion_bias) {
        (Some(given), Some(bias)) => given@.len() == bias@.len() && forall|i: int|
            0 <= i < given@.len() ==> call_ensures(narrow, (given@[i],), #[trigger] bias@[i]),
        (None, None) => true,
        _ => false,
    }
    &&& config.expand_labels == options.expand_labels
    &&& Some(config.max_edges_per_node) == count_or(options.max_edges_per_node, 0)
    &&& is_narrowed(narrow, options.min_edge_weight, 0, config.min_edge_weight)
    &&& Some(config.edge_direction) == spec_edge_direction(
        owned_or(options.edge_direction, "out"@),
    )
    &&& !config.enable_inverse_inhibition
    &&& config.lateral_inhibition_threshold == 0
    &&& config.bm25_k1 == 0x3f99_999au32
    &&& config.bm25_b == 0x3f40_0000u32
}

impl SearchOptions {
    /// The settings that the options stand for. `advanced` is whether the later stages are on
    /// where the options do not say, `narrow` makes a number single precision.
    pub fn resolve<F: Fn(u64) -> u32>(self, advanced: bool, narrow: &F) -> (result: Parse<
        SearchConfig,
    >)
        requires
            forall|bits: u64| call_requires(*narrow, (bits,)),
        ensures
            match result {
                Err(message) => search_fault(self) == Some(message@),
                Ok(config) => search_fault(self) is None && is_resolved(
                    self,
                    advanced,
                    *narrow,
                    config,
                ),
            },
    {
        let top_k: usize = match parse_top_k(self.top_k) {
            Ok(count) => count,
            Err(message) => {
                return Err(message);
            },
        };
        let payload_filter: Option<Filter> = match &self.payload_filter {
            Some(json) => match parse_payload_filter(Some(json)) {
                Ok(filter) => filter,
                Err(message) => {
                    return Err(message);
                },
            },
            None => None,
        };
        let max_edges_per_node: usize = match parse_count(
            self.max_edges_per_node,
            "maxEdgesPerNode",
            0,
        ) {
            Ok(count) => count,
            Err(message) => {
                return Err(message);
            },
        };
        let edge_direction = match parse_edge_direction(borrowed(&self.edge_direction)) {
            Ok(direction) => direction,
            Err(message) => {
                return Err(message);
            },
        };
        let diffusion_bias: Option<Vec<u32>> = match &self.diffusion_bias {
            Some(given) => {
                let mut bias: Vec<u32> = Vec::new();
                let mut i: usize = 0;
                while i < given.len()
                    invariant
                        forall|bits: u64| call_requires(*narrow, (bits,)),
                        i <= given@.len(),
                        bias@.len() == i,
                        forall|k: int|
                            0 <= k < i ==> call_ensures(
                                *narrow,
                                (given@[k],),
                                #[trigger] bias@[k],
                            ),
                    decreases given@.len() - i,
                {
                    let component: u32 = narrow(given[i]);
                    bias.push(component);
                    i += 1;
                }
                Some(bias)
            },
            None => None,
        };
        let config = SearchConfig {
            top_k,
            recall_k: pool_size(self.recall_k),
            rerank_k: pool_size(self.rerank_k),
            expand_depth: match self.expand_depth {
                Some(depth) => depth as usize,
                None => 2,
            },
            expand_labels: self.expand_labels,
            min_score: narrow_or(narrow, self.min_score, 0x3dcc_cccd),
            teleport_alpha: narrow_or(narrow, self.teleport_alpha, 0),
            enable_advanced_pipeline: switch(self.enable_advanced_pipeline, advanced),
            enable_sparse_residual: switch(self.enable_sparse_residual, false),
            fista_lambda: narrow_or(narrow, self.fista_lambda, 0x3dcc_cccd),
            fista_threshold: narrow_or(narrow, self.fista_threshold, 0x3e99_999a),
            enable_dpp: switch(self.enable_dpp, false),
            dpp_quality_weight: narrow_or(narrow, self.dpp_quality_weight, 0x3f80_0000),
            enable_refractory_fatigue: switch(self.enable_refractory_fatigue, false),
            enable_inverse_inhibition: false,
            lateral_inhibition_threshold: 0,
            force_brute_force: switch(self.force_brute_force, false),
            text_boost: narrow_or(narrow, self.text_boost, 0x3fc0_0000),
            enable_text_hybrid_search: switch(self.enable_text_hybrid_search, false),
            bm25_k1: 0x3f99_999a,
            bm25_b: 0x3f40_0000,
            payload_filter,
            diffusion_bias,
            max_edges_per_node,
            min_edge_weight: narrow_or(narrow, self.min_edge_weight, 0),
            edge_direction,
        };
        Ok(config)
    }
}

/// Checks that a batch has as many payloads as vectors.
pub fn check_batch(vectors: usize, payloads: usize) -> (result: Parse<()>)
    ensures
        result is Ok <==> vectors == payloads,
        result matches Err(message) ==> message@ == "向量列表与负载列表长度不一致"@,
{
    if vectors == payloads {
        Ok(())
    } else {
        Err("向量列表与负载列表长度不一致".to_owned())
    }
}

/// Checks that a batch has as many vectors and payloads as identifiers.
pub fn check_batch_with_ids(ids: usize, vectors: usize, payloads: usize) -> (result: Parse<()>)
    ensures
        result is Ok <==> ids == vectors && ids == payloads,
        result matches Err(message) ==> message@ == "ID、向量与负载列表长度不一致"@,
{
    if ids == vectors && ids == payloads {
        Ok(())
    } else {
        Err("ID、向量与负载列表长度不一致".to_owned())
    }
}

/// The options of community detection.
#[derive(Debug, Clone, Copy)]
pub struct JsLeidenConfig {
    pub min_community_size: Option<u32>,
    pub max_iterations: Option<u32>,
    pub with_centroids: Option<bool>,
}

impl JsLeidenConfig {
    /// The settings that the options stand for.
    pub fn resolve(&self) -> (config: LeidenConfig)
        ensures
            config.min_community_size == match self.min_community_size {
                Some(size) => size as int,
                None => 3,
            },
            config.max_iterations == match self.max_iterations {
                Some(count) => count as int,
                None => 15,
            },
            config.compute_centroids == switch_or(self.with_centroids, true),
    {
        LeidenConfig::resolve(
            match self.min_community_size {
                Some(size) => size as usize,
                None => 3,
            },
            match self.max_iterations {
                Some(count) => Some(count as usize),
                None => None,
            },
            self.with_centroids,
        )
    }
}

/// A prepared statement, as far as its parameters go.
#[derive(Debug)]
pub struct JsPreparedTql {
    names: Vec<String>,
}

impl JsPreparedTql {
    /// The names of the parameters.
    pub closed spec fn parameters(&self) -> Seq<String> {
        self.names@
    }

    /// A statement with these parameters.
    pub fn new(names: Vec<String>) -> (statement: JsPreparedTql)
        ensures
            statement.parameters() == names@,
    {
        JsPreparedTql { names }
    }

    /// The names of the parameters, in order.
    pub fn parameter_names(&self) -> (names: Vec<String>)
        ensures
            names@ == self.parameters(),
    {
        let mut names: Vec<String> = Vec::new();
        let mut i: usize = 0;
        while i < self.names.len()
            invariant
                i <= self.names@.len(),
                names@ == self.names@.take(i as int),
            decreases self.names@.len() - i,
        {
            names.push(self.names[i].clone());
            assert(self.names@.take(i + 1) =~= self.names@.take(i as int).push(
                self.names@[i as int],
            ));
            i += 1;
        }
        assert(self.names@.take(i as int) =~= self.names@);
        names
    }
}

} // verus!
