//! Settings of a database and of a search.
use vstd::prelude::*;

use crate::error::{invalid_input, is_invalid_input, Result, TriviumError};
use crate::filter::Filter;
use crate::number::{
    f32_clamp, f32_finite, f32_is_finite, f32_less, spec_f32_clamp, spec_f32_less, F32_INFINITY,
    F32_SIGN,
};
use crate::storage::wal::SyncMode;
use crate::text::{decimal, join, to_decimal};

verus! {

/// Where the vectors of a database are kept.
#[derive(Debug, Clone, Copy, PartialEq, Eq, Structural)]
pub enum StorageMode {
    /// In a file of their own that is mapped into memory.
    Mmap,
    /// In the one database file, which is loaded whole.
    Rom,
}

impl Default for StorageMode {
    fn default() -> (mode: StorageMode)
        ensures
            mode == StorageMode::Mmap,
    {
        StorageMode::Mmap
    }
}

/// What a handle may do.
#[derive(Debug, Clone, Copy, PartialEq, Eq, Structural)]
pub enum AccessMode {
    ReadWrite,
    ReadOnly,
    Immutable,
}

/// What to do when a search index is missing.
#[derive(Debug, Clone, Copy, PartialEq, Eq, Structural)]
pub enum MissingIndexPolicy {
    Fallback,
    BuildInMemory,
    Error,
}

/// Which edges a graph expansion follows.
#[derive(Debug, Clone, Copy, PartialEq, Eq, Structural)]
pub enum EdgeDirection {
    Outgoing,
    Incoming,
    Both,
}

/// The most components that a vector may have.
pub const MAX_DIM: usize = 65_536;

/// The settings with which a database is opened.
#[derive(Debug, Clone, Copy)]
pub struct Config {
    pub dim: usize,
    pub sync_mode: SyncMode,
    pub storage_mode: StorageMode,
    /// Whether the first search or flush builds the vector index.
    pub auto_build_quiver: bool,
    /// Whether opening loads the stored text index.
    pub load_text_index: bool,
    /// How many nodes to reserve room for.
    pub expected_nodes: Option<usize>,
    /// The memory limit in bytes; zero is no limit.
    pub memory_limit: usize,
    pub access_mode: AccessMode,
    pub missing_index_policy: MissingIndexPolicy,
}

impl Default for Config {
    fn default() -> (config: Config)
        ensures
            config.dim == 1536,
            config.sync_mode == SyncMode::Normal,
            config.storage_mode == StorageMode::Mmap,
            config.auto_build_quiver,
            !config.load_text_index,
            config.expected_nodes is None,
            config.memory_limit == 0,
            config.access_mode == AccessMode::ReadWrite,
            config.missing_index_policy == MissingIndexPolicy::Fallback,
    {
        Config {
            dim: 1536,
            sync_mode: SyncMode::Normal,
            storage_mode: StorageMode::Mmap,
            auto_build_quiver: true,
            load_text_index: false,
            expected_nodes: None,
            memory_limit: 0,
            access_mode: AccessMode::ReadWrite,
            missing_index_policy: MissingIndexPolicy::Fallback,
        }
    }
}

/// The size of a vector of this many single precision components, in whole mebibytes.
pub open spec fn dim_megabytes(dim: usize) -> nat {
    (dim * 4 / 1024 / 1024) as nat
}

/// Whether `error` says that vectors cannot have this many components.
pub open spec fn is_dimension_fault(dim: usize, error: TriviumError) -> bool {
    if dim == 0 {
        is_invalid_input(error, "Vector dimension must be at least 1"@)
    } else {
        dim > MAX_DIM && is_invalid_input(
            error,
            "Vector dimension "@ + decimal(dim as nat) + " exceeds maximum allowed "@ + decimal(
                MAX_DIM as nat,
            ) + " (would require "@ + decimal(dim_megabytes(dim)) + "MB per vector pool page)"@,
        )
    }
}

impl Config {
    /// Checks the number of components that vectors are to have: from 1 to 65536.
    pub fn validate(&self) -> (result: Result<()>)
        requires
            self.dim <= usize::MAX / 4,
        ensures
            match result {
                Ok(()) => 0 < self.dim <= MAX_DIM,
                Err(error) => is_dimension_fault(self.dim, error),
            },
    {
        if self.dim == 0 {
            return Err(invalid_input("Vector dimension must be at least 1"));
        }
        if self.dim > MAX_DIM {
            let megabytes: usize = self.dim * 4 / 1024 / 1024;
            let mut message = join("Vector dimension ", to_decimal(self.dim as u64).as_str());
            message = join(message.as_str(), " exceeds maximum allowed ");
            message = join(message.as_str(), to_decimal(MAX_DIM as u64).as_str());
            message = join(message.as_str(), " (would require ");
            message = join(message.as_str(), to_decimal(megabytes as u64).as_str());
            message = join(message.as_str(), "MB per vector pool page)");
            return Err(TriviumError::InvalidInput(message));
        }
        Ok(())
    }

    /// Checks that a reading handle may be opened with these settings.
    pub fn check_reader(&self) -> (result: Result<()>)
        ensures
            result is Ok <==> self.access_mode != AccessMode::ReadWrite,
            result matches Err(error) ==> is_invalid_input(
                error,
                "DatabaseReader 只接受 ReadOnly 或 Immutable 配置"@,
            ),
    {
        if self.is_writable() {
            Err(invalid_input("DatabaseReader 只接受 ReadOnly 或 Immutable 配置"))
        } else {
            Ok(())
        }
    }

    /// Checks that a writing handle may be opened with these settings.
    pub fn check_writer(&self) -> (result: Result<()>)
        ensures
            result is Ok <==> self.access_mode == AccessMode::ReadWrite,
            result matches Err(error) ==> is_invalid_input(
                error,
                "DatabaseWriter 只接受 ReadWrite 配置"@,
            ),
    {
        if self.is_writable() {
            Ok(())
        } else {
            Err(invalid_input("DatabaseWriter 只接受 ReadWrite 配置"))
        }
    }

    /// Whether a handle with these settings may write.
    pub fn is_writable(&self) -> (writable: bool)
        ensures
            writable == (self.access_mode == AccessMode::ReadWrite),
    {
        match self.access_mode {
            AccessMode::ReadWrite => true,
            _ => false,
        }
    }
}

/// The settings of a search. Numbers with a fraction are single precision bit patterns.
#[derive(Debug)]
pub struct SearchConfig {
    /// How many results are returned.
    pub top_k: usize,
    /// How many candidates are recalled; zero is eight times as many as are returned, but at
    /// least 64.
    pub recall_k: usize,
    /// How many candidates are ranked again; zero is four times as many as are returned, but at
    /// least 32.
    pub rerank_k: usize,
    pub expand_depth: usize,
    /// The labels that an expansion follows; none is every label, an empty list is no edge.
    pub expand_labels: Option<Vec<String>>,
    pub min_score: u32,
    pub teleport_alpha: u32,
    pub enable_advanced_pipeline: bool,
    pub enable_sparse_residual: bool,
    pub fista_lambda: u32,
    pub fista_threshold: u32,
    pub enable_dpp: bool,
    pub dpp_quality_weight: u32,
    pub enable_refractory_fatigue: bool,
    pub enable_inverse_inhibition: bool,
    pub lateral_inhibition_threshold: usize,
    pub force_brute_force: bool,
    pub text_boost: u32,
    pub enable_text_hybrid_search: bool,
    pub bm25_k1: u32,
    pub bm25_b: u32,
    /// Only nodes whose payload satisfies the filter are found.
    pub payload_filter: Option<Filter>,
    /// A direction that an expansion prefers.
    pub diffusion_bias: Option<Vec<u32>>,
    /// How many edges of a node an expansion follows; zero is all.
    pub max_edges_per_node: usize,
    /// Edges with less weight are not followed; zero is no bound.
    pub min_edge_weight: u32,
    /// Whether an expansion follows edges from their source, from their target, or both ways.
    pub edge_direction: EdgeDirection,
}

impl Default for SearchConfig {
    fn default() -> (config: SearchConfig)
        ensures
            config == default_search(),
    {
        SearchConfig {
            top_k: 5,
            recall_k: 0,
            rerank_k: 0,
            expand_depth: 2,
            expand_labels: None,
            min_score: 0x3dcc_cccd,
            teleport_alpha: 0,
            enable_advanced_pipeline: false,
            enable_sparse_residual: false,
            fista_lambda: 0x3dcc_cccd,
            fista_threshold: 0x3e99_999a,
            enable_dpp: false,
            dpp_quality_weight: 0x3f80_0000,
            enable_refractory_fatigue: false,
            enable_inverse_inhibition: false,
            lateral_inhibition_threshold: 0,
            force_brute_force: false,
            text_boost: 0x3fc0_0000,
            enable_text_hybrid_search: false,
            bm25_k1: 0x3f99_999a,
            bm25_b: 0x3f40_0000,
            payload_filter: None,
            diffusion_bias: None,
            max_edges_per_node: 0,
            min_edge_weight: 0,
            edge_direction: EdgeDirection::Outgoing,
        }
    }
}

/// The usual settings: five results, two steps of expansion, scores of at least 0.1, no advanced
/// stage.
pub open spec fn default_search() -> SearchConfig {
    SearchConfig {
        top_k: 5,
        recall_k: 0,
        rerank_k: 0,
        expand_depth: 2,
        expand_labels: None,
        min_score: 0x3dcc_cccd,
        teleport_alpha: 0,
        enable_advanced_pipeline: false,
        enable_sparse_residual: false,
        fista_lambda: 0x3dcc_cccd,
        fista_threshold: 0x3e99_999a,
        enable_dpp: false,
        dpp_quality_weight: 0x3f80_0000,
        enable_refractory_fatigue: false,
        enable_inverse_inhibition: false,
        lateral_inhibition_threshold: 0,
        force_brute_force: false,
        text_boost: 0x3fc0_0000,
        enable_text_hybrid_search: false,
        bm25_k1: 0x3f99_999a,
        bm25_b: 0x3f40_0000,
        payload_filter: None,
        diffusion_bias: None,
        max_edges_per_node: 0,
        min_edge_weight: 0,
        edge_direction: EdgeDirection::Outgoing,
    }
}

/// A product as far as a machine word can hold it.
pub open spec fn saturated_product(a: usize, b: usize) -> usize {
    if a * b > usize::MAX {
        usize::MAX
    } else {
        (a * b) as usize
    }
}

/// The greater of two numbers.
pub open spec fn greater_of(a: usize, b: usize) -> usize {
    if a < b {
        b
    } else {
        a
    }
}

/// The smaller of two numbers.
pub open spec fn smaller_of(a: usize, b: usize) -> usize {
    if a < b {
        a
    } else {
        b
    }
}

/// How many candidates are recalled.
pub open spec fn spec_recall_k(top_k: usize, recall_k: usize) -> usize {
    if recall_k == 0 {
        greater_of(saturated_product(top_k, 8), 64)
    } else {
        greater_of(recall_k, top_k)
    }
}

/// How many candidates are ranked again, at most as many as are recalled.
pub open spec fn spec_rerank_k(top_k: usize, recall_k: usize, rerank_k: usize) -> usize {
    smaller_of(
        if rerank_k == 0 {
            greater_of(saturated_product(top_k, 4), 32)
        } else {
            greater_of(rerank_k, top_k)
        },
        spec_recall_k(top_k, recall_k),
    )
}

/// The greater of two numbers.
fn max_of(a: usize, b: usize) -> (result: usize)
    ensures
        result == greater_of(a, b),
{
    if a < b {
        b
    } else {
        a
    }
}

/// A product as far as a machine word can hold it.
fn saturating_product(a: usize, b: usize) -> (result: usize)
    ensures
        result == saturated_product(a, b),
{
    match a.checked_mul(b) {
        Some(product) => product,
        None => usize::MAX,
    }
}

/// The setting that a search is refused for because it is not a finite number, the first in the
/// order in which they are checked.
pub open spec fn unbounded_setting(config: SearchConfig) -> Option<Seq<char>> {
    if !f32_finite(config.min_score) {
        Some("min_score"@)
    } else if !f32_finite(config.fista_lambda) {
        Some("fista_lambda"@)
    } else if !f32_finite(config.teleport_alpha) {
        Some("teleport_alpha"@)
    } else if !f32_finite(config.dpp_quality_weight) {
        Some("dpp_quality_weight"@)
    } else if !f32_finite(config.fista_threshold) {
        Some("fista_threshold"@)
    } else if !f32_finite(config.text_boost) {
        Some("text_boost"@)
    } else if !f32_finite(config.bm25_k1) {
        Some("bm25_k1"@)
    } else if !f32_finite(config.bm25_b) {
        Some("bm25_b"@)
    } else if !f32_finite(config.min_edge_weight) {
        Some("min_edge_weight"@)
    } else {
        None
    }
}

/// Whether every number of a list is finite.
pub open spec fn all_bits_finite(numbers: Seq<u32>) -> bool {
    forall|i: int| 0 <= i < numbers.len() ==> f32_finite(#[trigger] numbers[i])
}

/// Whether settings hold a number that is not finite, or a direction that does not fit.
pub open spec fn is_unfit(config: SearchConfig, dim: usize) -> bool {
    ||| unbounded_setting(config) is Some
    ||| (config.diffusion_bias matches Some(bias) && (bias@.len() != dim || !all_bits_finite(bias@)))
}

/// Whether a search with these settings is refused.
pub open spec fn is_refused(config: SearchConfig, dim: usize) -> bool {
    is_unfit(config, dim) || spec_f32_less(config.min_edge_weight, 0)
}

/// Whether `error` says why a search is refused.
pub open spec fn is_refusal(config: SearchConfig, dim: usize, error: TriviumError) -> bool {
    match unbounded_setting(config) {
        Some(name) => is_invalid_input(
            error,
            "检索配置 "@ + name + " 必须是有限数值 (Search config "@ + name + " must be finite)"@,
        ),
        None => match config.diffusion_bias {
            Some(bias) if bias@.len() != dim => error matches TriviumError::DimensionMismatch {
                expected,
                got,
            } && expected == dim && got == bias@.len(),
            Some(bias) if !all_bits_finite(
                bias@,
            ) => error matches TriviumError::InvalidVector { reason } && reason@
                == "扩散偏置向量包含 NaN 或 Infinity (Diffusion bias contains NaN or Infinity)"@,
            _ => spec_f32_less(config.min_edge_weight, 0) && is_invalid_input(
                error,
                "min_edge_weight 不得为负数 (min_edge_weight must be non-negative)"@,
            ),
        },
    }
}

/// Settings with every number in its range: at least one result, pools that hold the results, and
/// the parameters of the later stages clamped.
pub open spec fn sanitized(config: SearchConfig) -> SearchConfig {
    let top_k = greater_of(config.top_k, 1);
    SearchConfig {
        top_k,
        recall_k: spec_recall_k(top_k, config.recall_k),
        rerank_k: spec_rerank_k(top_k, config.recall_k, config.rerank_k),
        fista_lambda: spec_f32_clamp(config.fista_lambda, 0x3727_c5ac, 0x42c8_0000),
        teleport_alpha: spec_f32_clamp(config.teleport_alpha, 0, 0x3f80_0000),
        dpp_quality_weight: spec_f32_clamp(config.dpp_quality_weight, 0, 0x4120_0000),
        fista_threshold: spec_f32_clamp(config.fista_threshold, 0, 0x7f7f_ffff),
        ..config
    }
}

/// Whether every number of a list is finite.
pub fn is_all_bits_finite(numbers: &[u32]) -> (result: bool)
    ensures
        result == all_bits_finite(numbers@),
{
    let mut i: usize = 0;
    while i < numbers.len()
        invariant
            i <= numbers@.len(),
            forall|j: int| 0 <= j < i ==> f32_finite(#[trigger] numbers@[j]),
        decreases numbers@.len() - i,
    {
        if !f32_is_finite(numbers[i]) {
            assert(!f32_finite(numbers@[i as int]));
            return false;
        }
        i += 1;
    }
    true
}

impl SearchConfig {
    /// The first setting that is not a finite number.
    fn find_unbounded(&self) -> (name: Option<&'static str>)
        ensures
            match name {
                Some(text) => unbounded_setting(*self) == Some(text@),
                None => unbounded_setting(*self) is None,
            },
    {
        if !f32_is_finite(self.min_score) {
            Some("min_score")
        } else if !f32_is_finite(self.fista_lambda) {
            Some("fista_lambda")
        } else if !f32_is_finite(self.teleport_alpha) {
            Some("teleport_alpha")
        } else if !f32_is_finite(self.dpp_quality_weight) {
            Some("dpp_quality_weight")
        } else if !f32_is_finite(self.fista_threshold) {
            Some("fista_threshold")
        } else if !f32_is_finite(self.text_boost) {
            Some("text_boost")
        } else if !f32_is_finite(self.bm25_k1) {
            Some("bm25_k1")
        } else if !f32_is_finite(self.bm25_b) {
            Some("bm25_b")
        } else if !f32_is_finite(self.min_edge_weight) {
            Some("min_edge_weight")
        } else {
            None
        }
    }

    /// How many candidates are recalled.
    pub fn effective_recall_k(&self) -> (count: usize)
        ensures
            count == spec_recall_k(self.top_k, self.recall_k),
    {
        if self.recall_k == 0 {
            max_of(saturating_product(self.top_k, 8), 64)
        } else {
            max_of(self.recall_k, self.top_k)
        }
    }

    /// How many candidates are ranked again.
    pub fn effective_rerank_k(&self) -> (count: usize)
        ensures
            count == spec_rerank_k(self.top_k, self.recall_k, self.rerank_k),
    {
        let recall_k: usize = self.effective_recall_k();
        let rerank_k: usize = if self.rerank_k == 0 {
            max_of(saturating_product(self.top_k, 4), 32)
        } else {
            max_of(self.rerank_k, self.top_k)
        };
        if rerank_k < recall_k {
            rerank_k
        } else {
            recall_k
        }
    }
}

/// Checks the settings of a search on vectors of `dim` components and brings them into range.
/// Settings with a number that is not finite, or with a direction that does not fit, stay as they
/// are; those with a negative weight are refused after the others are in range.
pub fn sanitize_config(config: &mut SearchConfig, dim: usize) -> (result: Result<()>)
    ensures
        match result {
            Ok(()) => !is_refused(*old(config), dim) && *final(config) == sanitized(*old(config)),
            Err(error) => is_refused(*old(config), dim) && is_refusal(*old(config), dim, error)
                && *final(config) == (if is_unfit(*old(config), dim) {
                *old(config)
            } else {
                sanitized(*old(config))
            }),
        },
{
    match config.find_unbounded() {
        Some(name) => {
            let first = join(join("检索配置 ", name).as_str(), " 必须是有限数值 (Search config ");
            let message = join(join(first.as_str(), name).as_str(), " must be finite)");
            return Err(TriviumError::InvalidInput(message));
        },
        None => {},
    }
    match &config.diffusion_bias {
        Some(bias) => {
            if bias.len() != dim {
                return Err(TriviumError::DimensionMismatch { expected: dim, got: bias.len() });
            }
            if !is_all_bits_finite(bias.as_slice()) {
                return Err(
                    TriviumError::InvalidVector {
                        reason: "扩散偏置向量包含 NaN 或 Infinity (Diffusion bias contains NaN or Infinity)".to_owned(),
                    },
                );
            }
        },
        None => {},
    }
    config.top_k = max_of(config.top_k, 1);
    config.rerank_k = config.effective_rerank_k();
    config.recall_k = config.effective_recall_k();
    config.fista_lambda = f32_clamp(config.fista_lambda, 0x3727_c5ac, 0x42c8_0000);
    config.teleport_alpha = f32_clamp(config.teleport_alpha, 0, 0x3f80_0000);
    config.dpp_quality_weight = f32_clamp(config.dpp_quality_weight, 0, 0x4120_0000);
    config.fista_threshold = f32_clamp(config.fista_threshold, 0, 0x7f7f_ffff);
    if f32_less(config.min_edge_weight, 0) {
        return Err(
            invalid_input("min_edge_weight 不得为负数 (min_edge_weight must be non-negative)"),
        );
    }
    Ok(())
}

/// Settings in range hold at least one result, rank at least as many candidates as are returned,
/// and recall at least as many as are ranked.
pub proof fn law_sanitized_pools(config: SearchConfig)
    ensures
        1 <= sanitized(config).top_k <= sanitized(config).rerank_k <= sanitized(config).recall_k,
{
}

/// Bringing settings into range a second time changes nothing, and settings that were accepted are
/// accepted again.
pub proof fn law_sanitize_is_idempotent(config: SearchConfig, dim: usize)
    requires
        !is_refused(config, dim),
    ensures
        sanitized(sanitized(config)) == sanitized(config),
        !is_refused(sanitized(config), dim),
{
}

/// How many candidates are recalled and ranked again: a number that is given counts, but never fewer
/// than are returned; otherwise eight and four times as many as are returned, at least 64 and 32;
/// and no more are ranked again than were recalled.
pub proof fn law_pool_sizes(top_k: usize, recall_k: usize, rerank_k: usize)
    ensures
        ({
            let recalled = spec_recall_k(top_k, recall_k);
            let ranked = spec_rerank_k(top_k, recall_k, rerank_k);
            &&& recalled >= top_k && (ranked >= top_k) && ranked <= recalled
            &&& recall_k > top_k ==> recalled == recall_k
            &&& 0 < recall_k <= top_k ==> recalled == top_k
            &&& recall_k == 0 && top_k <= 8 ==> recalled == 64
            &&& recall_k == 0 && top_k > 8 && top_k * 8 <= usize::MAX ==> recalled == top_k * 8
            &&& rerank_k > top_k && rerank_k <= recalled ==> ranked == rerank_k
            &&& 0 < rerank_k <= top_k ==> ranked == top_k
            &&& rerank_k == 0 && top_k <= 8 && recalled >= 32 ==> ranked == 32
            &&& rerank_k == 0 && top_k > 8 && top_k * 4 <= recalled ==> ranked == top_k * 4
            &&& rerank_k > recalled ==> ranked == recalled
        }),
{
    assert(top_k > 8 ==> top_k * 8 > 64 && top_k * 4 > 32) by (nonlinear_arith);
    assert(top_k <= 8 ==> top_k * 8 <= 64 && top_k * 4 <= 32) by (nonlinear_arith);
    assert(top_k * 8 >= top_k && top_k * 4 >= top_k) by (nonlinear_arith);
}

/// Settings in range: a number within its range stays, one below it becomes the least, one above it
/// the greatest; and what has no range stays as it was.
pub proof fn law_settings_are_brought_into_range(config: SearchConfig)
    requires
        unbounded_setting(config) is None,
    ensures
        ({
            let settings = sanitized(config);
            &&& is_within(config.fista_lambda, 0x3727_c5ac, 0x42c8_0000, settings.fista_lambda)
            &&& is_within(config.teleport_alpha, 0, 0x3f80_0000, settings.teleport_alpha)
            &&& is_within(config.dpp_quality_weight, 0, 0x4120_0000, settings.dpp_quality_weight)
            &&& is_within(config.fista_threshold, 0, 0x7f7f_ffff, settings.fista_threshold)
            &&& config.top_k > 0 ==> settings.top_k == config.top_k
            &&& config.top_k == 0 ==> settings.top_k == 1
            &&& settings == (SearchConfig {
                top_k: settings.top_k,
                recall_k: settings.recall_k,
                rerank_k: settings.rerank_k,
                fista_lambda: settings.fista_lambda,
                teleport_alpha: settings.teleport_alpha,
                dpp_quality_weight: settings.dpp_quality_weight,
                fista_threshold: settings.fista_threshold,
                ..config
            })
        }),
{
}

/// Whether a number was brought into a range of numbers without a sign.
pub open spec fn is_within(number: u32, least: u32, greatest: u32, result: u32) -> bool {
    &&& least <= number <= greatest ==> result == number
    &&& greatest < number < F32_INFINITY ==> result == greatest
    &&& number < least || number > F32_SIGN ==> result == least
}

/// A search is refused exactly where one of its numbers is not finite, its direction has another
/// number of components than the vectors or one that is not finite, or the least weight of an edge
/// is negative.
pub proof fn law_refused_settings(config: SearchConfig, dim: usize)
    ensures
        is_refused(config, dim) <==> {
            ||| !f32_finite(config.min_score)
            ||| !f32_finite(config.fista_lambda)
            ||| !f32_finite(config.teleport_alpha)
            ||| !f32_finite(config.dpp_quality_weight)
            ||| !f32_finite(config.fista_threshold)
            ||| !f32_finite(config.text_boost)
            ||| !f32_finite(config.bm25_k1)
            ||| !f32_finite(config.bm25_b)
            ||| !f32_finite(config.min_edge_weight)
            ||| config.min_edge_weight > F32_SIGN
            ||| config.diffusion_bias is Some && config.diffusion_bias->0@.len() != dim
            ||| config.diffusion_bias is Some && exists|i: int|
                0 <= i < config.diffusion_bias->0@.len() && !f32_finite(
                    #[trigger] config.diffusion_bias->0@[i],
                )
        },
{
}

} // verus!
