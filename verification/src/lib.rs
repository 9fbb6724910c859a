//! Run statistics for agent sessions: tool calls, token usage and cost,
//! and the per-tool aggregates of a finished run.
pub mod clock;
pub mod laws;
pub mod percentile;
pub mod records;
pub mod stats;
pub mod summary;
pub mod summary_laws;

pub use percentile::percentile;
pub use records::{TokenRecord, ToolCallStat};
pub use stats::RunStats;
pub use summary::{RunSummary, ToolSummary};
