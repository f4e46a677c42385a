//! What callers in other languages see of an error.
use vstd::prelude::*;

use crate::error::TriviumError;
use crate::text::{decimal, join, to_decimal};

verus! {

/// The text of an error.
pub open spec fn error_text(error: TriviumError) -> Seq<char> {
    match error {
        TriviumError::Io(value) => "I/O 错误 (I/O error): "@ + value@,
        TriviumError::Serialization(value) => "序列化错误 (Serialization error): "@ + value@,
        TriviumError::DimensionMismatch { expected, got } => "向量维度不匹配 (Vector dimension mismatch): 期望 "@ + decimal(expected as nat) + "，实际 "@ + decimal(got as nat),
        TriviumError::NodeNotFound(value) => "节点不存在 (Node not found): "@ + decimal(value as nat),
        TriviumError::InvalidVector { reason } => "非法向量 (Invalid vector): "@ + reason@,
        TriviumError::PayloadTooLarge { size_bytes, max_bytes } => "Payload 过大 (Payload too large): "@ + decimal(size_bytes as nat) + " 字节，上限 "@ + decimal(max_bytes as nat) + " 字节"@,
        TriviumError::NodeAlreadyExists(value) => "节点已存在 (Node already exists): "@ + decimal(value as nat),
        TriviumError::DatabaseLocked(value) => "数据库已锁定 (Database locked): "@ + value@,
        TriviumError::ReadOnlyViolation { operation } => "只读数据库不允许执行操作 (Read-only database operation denied): "@ + operation@,
        TriviumError::RecoveryRequired { wal_path } => "数据库需要由可写句柄先完成 WAL 恢复 (Database recovery required): "@ + wal_path@,
        TriviumError::ImmutableArtifactInvalid { reason } => "不可变 generation 不完整或校验失败 (Immutable generation invalid): "@ + reason@,
        TriviumError::GenerationBusy { generation_id } => "generation 仍被 Reader 使用 (Generation is busy): "@ + generation_id@,
        TriviumError::CorruptedFile(value) => "文件损坏 (Corrupted file): "@ + value@,
        TriviumError::QueryParse(value) => "查询解析错误 (Query parse error): "@ + value@,
        TriviumError::QueryExecution(value) => "查询执行错误 (Query execution error): "@ + value@,
        TriviumError::HookLoadError(value) => "Hook 加载失败 (Hook load error): "@ + value@,
        TriviumError::HookExecutionError { stage, reason } => "Hook 执行失败 (Hook execution error) "@ + stage@ + ": "@ + reason@,
        TriviumError::WalClosed => "WAL 写入器已关闭，无法执行写操作 (WAL writer is closed)"@,
        TriviumError::CapacityReservationRejected { requested_nodes, estimated_bytes, current_bytes, memory_limit } => "容量预留被拒绝 (Capacity reservation rejected): 请求新增 "@ + decimal(requested_nodes as nat) + " 个节点，预计新增 "@ + decimal(estimated_bytes as nat) + " 字节，当前估算 "@ + decimal(current_bytes as nat) + " 字节，内存上限 "@ + decimal(memory_limit as nat) + " 字节"@,
        TriviumError::CapacityAllocationFailed { reason } => "容量预留失败 (Capacity allocation failed): "@ + reason@,
        TriviumError::DatabaseClosed => "数据库已关闭 (Database closed)"@,
        TriviumError::UnsupportedWalVersion { found, supported } => "不支持的 WAL 版本 (Unsupported WAL version): 发现 "@ + decimal(found as nat) + "，当前支持 "@ + decimal(supported as nat),
        TriviumError::UnsupportedDatabaseVersion { found, minimum_supported, current } => "不支持的数据库文件版本 (Unsupported database file version): 发现 v"@ + decimal(found as nat) + "，当前可读取 v"@ + decimal(minimum_supported as nat) + "..=v"@ + decimal(current as nat) + "；v5 对应 TriviumDB 0.7.x/0.8.x，早于 0.7.0 的文件请手动导出迁移"@,
        TriviumError::UnsupportedSidecarVersion { found, supported } => "不支持的附属文件版本 (Unsupported sidecar version): 发现 "@ + decimal(found as nat) + "，当前支持 "@ + decimal(supported as nat),
        TriviumError::ApiMigrationRequired { reason } => "需要迁移 API 用法 (API migration required): "@ + reason@,
        TriviumError::TraversalBudgetExceeded { visited_nodes, examined_edges, peak_frontier_size, depth_reached, .. } => "图遍历超过预算 (Traversal budget exceeded): 访问节点 "@ + decimal(visited_nodes as nat) + "，检查边 "@ + decimal(examined_edges as nat) + "，前沿峰值 "@ + decimal(peak_frontier_size as nat) + "，深度 "@ + decimal(depth_reached as nat),
        TriviumError::InvalidInput(value) => "无效输入 (Invalid input): "@ + value@,
        TriviumError::Generic(value) => "数据库错误 (Database error): "@ + value@,
    }
}

/// The stable code of an error.
pub open spec fn error_code(error: TriviumError) -> Seq<char> {
    match error {
        TriviumError::ReadOnlyViolation { .. } => "TDB_READ_ONLY"@,
        TriviumError::RecoveryRequired { .. } => "TDB_RECOVERY_REQUIRED"@,
        TriviumError::ImmutableArtifactInvalid { .. } => "TDB_IMMUTABLE_ARTIFACT"@,
        TriviumError::GenerationBusy { .. } => "TDB_GENERATION_BUSY"@,
        TriviumError::UnsupportedDatabaseVersion { .. } => "TDB_UNSUPPORTED_DATABASE_VERSION"@,
        TriviumError::UnsupportedWalVersion { .. } => "TDB_UNSUPPORTED_WAL_VERSION"@,
        TriviumError::UnsupportedSidecarVersion { .. } => "TDB_UNSUPPORTED_SIDECAR_VERSION"@,
        TriviumError::ApiMigrationRequired { .. } => "TDB_API_MIGRATION_REQUIRED"@,
        TriviumError::QueryParse(_) => "TDB_QUERY_PARSE"@,
        TriviumError::QueryExecution(_) => "TDB_QUERY_EXECUTION"@,
        TriviumError::DimensionMismatch { .. } => "TDB_DIMENSION_MISMATCH"@,
        TriviumError::NodeNotFound(_) => "TDB_NODE_NOT_FOUND"@,
        TriviumError::InvalidInput(_) => "TDB_INVALID_INPUT"@,
        _ => "TDB_ERROR"@,
    }
}

/// The class of exception that an error is raised as.
#[derive(Debug, Clone, Copy, PartialEq, Eq, Structural)]
pub enum ExceptionClass {
    ReadOnly,
    RecoveryRequired,
    ImmutableArtifact,
    GenerationBusy,
    Value,
    Runtime,
}

impl TriviumError {
    /// The text of the error.
    pub fn describe(&self) -> (text: String)
        ensures
            text@ == error_text(*self),
    {
        let text = match self {
            TriviumError::Io(value) => {
                let mut text = join("I/O 错误 (I/O error): ", value.as_str());
                text
            },
            TriviumError::Serialization(value) => {
                let mut text = join("序列化错误 (Serialization error): ", value.as_str());
                text
            },
            TriviumError::DimensionMismatch { expected, got } => {
                let mut text = join("向量维度不匹配 (Vector dimension mismatch): 期望 ", to_decimal(*expected as u64).as_str());
                text = join(text.as_str(), "，实际 ");
                text = join(text.as_str(), to_decimal(*got as u64).as_str());
                text
            },
            TriviumError::NodeNotFound(value) => {
                let mut text = join("节点不存在 (Node not found): ", to_decimal(*value as u64).as_str());
                text
            },
            TriviumError::InvalidVector { reason } => {
                let mut text = join("非法向量 (Invalid vector): ", reason.as_str());
                text
            },
            TriviumError::PayloadTooLarge { size_bytes, max_bytes } => {
                let mut text = join("Payload 过大 (Payload too large): ", to_decimal(*size_bytes as u64).as_str());
                text = join(text.as_str(), " 字节，上限 ");
                text = join(text.as_str(), to_decimal(*max_bytes as u64).as_str());
                text = join(text.as_str(), " 字节");
                text
            },
            TriviumError::NodeAlreadyExists(value) => {
                let mut text = join("节点已存在 (Node already exists): ", to_decimal(*value as u64).as_str());
                text
            },
            TriviumError::DatabaseLocked(value) => {
                let mut text = join("数据库已锁定 (Database locked): ", value.as_str());
                text
            },
            TriviumError::ReadOnlyViolation { operation } => {
                let mut text = join("只读数据库不允许执行操作 (Read-only database operation denied): ", operation.as_str());
                text
            },
            TriviumError::RecoveryRequired { wal_path } => {
                let mut text = join("数据库需要由可写句柄先完成 WAL 恢复 (Database recovery required): ", wal_path.as_str());
                text
            },
            TriviumError::ImmutableArtifactInvalid { reason } => {
                let mut text = join("不可变 generation 不完整或校验失败 (Immutable generation invalid): ", reason.as_str());
                text
            },
            TriviumError::GenerationBusy { generation_id } => {
                let mut text = join("generation 仍被 Reader 使用 (Generation is busy): ", generation_id.as_str());
                text
            },
            TriviumError::CorruptedFile(value) => {
                let mut text = join("文件损坏 (Corrupted file): ", value.as_str());
                text
            },
            TriviumError::QueryParse(value) => {
                let mut text = join("查询解析错误 (Query parse error): ", value.as_str());
                text
            },
            TriviumError::QueryExecution(value) => {
                let mut text = join("查询执行错误 (Query execution error): ", value.as_str());
                text
            },
            TriviumError::HookLoadError(value) => {
                let mut text = join("Hook 加载失败 (Hook load error): ", value.as_str());
                text
            },
            TriviumError::HookExecutionError { stage, reason } => {
                let mut text = join("Hook 执行失败 (Hook execution error) ", stage.as_str());
                text = join(text.as_str(), ": ");
                text = join(text.as_str(), reason.as_str());
                text
            },
            TriviumError::WalClosed => "WAL 写入器已关闭，无法执行写操作 (WAL writer is closed)".to_owned(),
            TriviumError::CapacityReservationRejected { requested_nodes, estimated_bytes, current_bytes, memory_limit } => {
                let mut text = join("容量预留被拒绝 (Capacity reservation rejected): 请求新增 ", to_decimal(*requested_nodes as u64).as_str());
                text = join(text.as_str(), " 个节点，预计新增 ");
                text = join(text.as_str(), to_decimal(*estimated_bytes as u64).as_str());
                text = join(text.as_str(), " 字节，当前估算 ");
                text = join(text.as_str(), to_decimal(*current_bytes as u64).as_str());
                text = join(text.as_str(), " 字节，内存上限 ");
                text = join(text.as_str(), to_decimal(*memory_limit as u64).as_str());
                text = join(text.as_str(), " 字节");
                text
            },
            TriviumError::CapacityAllocationFailed { reason } => {
                let mut text = join("容量预留失败 (Capacity allocation failed): ", reason.as_str());
                text
            },
            TriviumError::DatabaseClosed => "数据库已关闭 (Database closed)".to_owned(),
            TriviumError::UnsupportedWalVersion { found, supported } => {
                let mut text = join("不支持的 WAL 版本 (Unsupported WAL version): 发现 ", to_decimal(*found as u64).as_str());
                text = join(text.as_str(), "，当前支持 ");
                text = join(text.as_str(), to_decimal(*supported as u64).as_str());
                text
            },
            TriviumError::UnsupportedDatabaseVersion { found, minimum_supported, current } => {
                let mut text = join("不支持的数据库文件版本 (Unsupported database file version): 发现 v", to_decimal(*found as u64).as_str());
                text = join(text.as_str(), "，当前可读取 v");
                text = join(text.as_str(), to_decimal(*minimum_supported as u64).as_str());
                text = join(text.as_str(), "..=v");
                text = join(text.as_str(), to_decimal(*current as u64).as_str());
                text = join(text.as_str(), "；v5 对应 TriviumDB 0.7.x/0.8.x，早于 0.7.0 的文件请手动导出迁移");
                text
            },
            TriviumError::UnsupportedSidecarVersion { found, supported } => {
                let mut text = join("不支持的附属文件版本 (Unsupported sidecar version): 发现 ", to_decimal(*found as u64).as_str());
                text = join(text.as_str(), "，当前支持 ");
                text = join(text.as_str(), to_decimal(*supported as u64).as_str());
                text
            },
            TriviumError::ApiMigrationRequired { reason } => {
                let mut text = join("需要迁移 API 用法 (API migration required): ", reason.as_str());
                text
            },
            TriviumError::TraversalBudgetExceeded { visited_nodes, examined_edges, peak_frontier_size, depth_reached, .. } => {
                let mut text = join("图遍历超过预算 (Traversal budget exceeded): 访问节点 ", to_decimal(*visited_nodes as u64).as_str());
                text = join(text.as_str(), "，检查边 ");
                text = join(text.as_str(), to_decimal(*examined_edges as u64).as_str());
                text = join(text.as_str(), "，前沿峰值 ");
                text = join(text.as_str(), to_decimal(*peak_frontier_size as u64).as_str());
                text = join(text.as_str(), "，深度 ");
                text = join(text.as_str(), to_decimal(*depth_reached as u64).as_str());
                text
            },
            TriviumError::InvalidInput(value) => {
                let mut text = join("无效输入 (Invalid input): ", value.as_str());
                text
            },
            TriviumError::Generic(value) => {
                let mut text = join("数据库错误 (Database error): ", value.as_str());
                text
            },
        };
        assert(text@ =~= error_text(*self));
        text
    }

    /// The stable code of the error.
    pub fn code(&self) -> (code: &'static str)
        ensures
            code@ == error_code(*self),
    {
        match self {
            TriviumError::ReadOnlyViolation { .. } => "TDB_READ_ONLY",
            TriviumError::RecoveryRequired { .. } => "TDB_RECOVERY_REQUIRED",
            TriviumError::ImmutableArtifactInvalid { .. } => "TDB_IMMUTABLE_ARTIFACT",
            TriviumError::GenerationBusy { .. } => "TDB_GENERATION_BUSY",
            TriviumError::UnsupportedDatabaseVersion { .. } => "TDB_UNSUPPORTED_DATABASE_VERSION",
            TriviumError::UnsupportedWalVersion { .. } => "TDB_UNSUPPORTED_WAL_VERSION",
            TriviumError::UnsupportedSidecarVersion { .. } => "TDB_UNSUPPORTED_SIDECAR_VERSION",
            TriviumError::ApiMigrationRequired { .. } => "TDB_API_MIGRATION_REQUIRED",
            TriviumError::QueryParse(_) => "TDB_QUERY_PARSE",
            TriviumError::QueryExecution(_) => "TDB_QUERY_EXECUTION",
            TriviumError::DimensionMismatch { .. } => "TDB_DIMENSION_MISMATCH",
            TriviumError::NodeNotFound(_) => "TDB_NODE_NOT_FOUND",
            TriviumError::InvalidInput(_) => "TDB_INVALID_INPUT",
            _ => "TDB_ERROR",
        }
    }

    /// The code and the text of the error.
    pub fn coded_text(&self) -> (text: String)
        ensures
            text@ == error_code(*self) + ": "@ + error_text(*self),
    {
        join(join(self.code(), ": ").as_str(), self.describe().as_str())
    }

    /// The class and the text of the exception that the error is raised as. A wrong parameter is
    /// reported by its message alone.
    pub fn exception(&self) -> (raised: (ExceptionClass, String))
        ensures
            match *self {
                TriviumError::ReadOnlyViolation { .. } => raised.0 == ExceptionClass::ReadOnly,
                TriviumError::RecoveryRequired { .. } => raised.0
                    == ExceptionClass::RecoveryRequired,
                TriviumError::ImmutableArtifactInvalid { .. } => raised.0
                    == ExceptionClass::ImmutableArtifact,
                TriviumError::GenerationBusy { .. } => raised.0 == ExceptionClass::GenerationBusy,
                TriviumError::InvalidInput(_) => raised.0 == ExceptionClass::Value,
                _ => raised.0 == ExceptionClass::Runtime,
            },
            raised.1@ == match *self {
                TriviumError::InvalidInput(message) => message@,
                _ => error_text(*self),
            },
    {
        match self {
            TriviumError::ReadOnlyViolation { .. } => (ExceptionClass::ReadOnly, self.describe()),
            TriviumError::RecoveryRequired { .. } => (
                ExceptionClass::RecoveryRequired,
                self.describe(),
            ),
            TriviumError::ImmutableArtifactInvalid { .. } => (
                ExceptionClass::ImmutableArtifact,
                self.describe(),
            ),
            TriviumError::GenerationBusy { .. } => (
                ExceptionClass::GenerationBusy,
                self.describe(),
            ),
            TriviumError::InvalidInput(message) => (ExceptionClass::Value, message.clone()),
            _ => (ExceptionClass::Runtime, self.describe()),
        }
    }
}

} // verus!
