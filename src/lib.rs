//! A concurrent HTTP load generator's engine: it splits a request budget over
//! logical connections, tracks per-connection outcomes and progress
//! notifications, and aggregates latencies per status code.
pub mod benchmark;
pub mod cli;
pub mod clock;
pub mod progress;
pub mod settings;
pub mod stats;
pub mod uri;
pub mod worker;

pub use benchmark::{run, BenchmarkError, BenchmarkResult};
pub use progress::{BenchmarkStats, ProgressTracker};
pub use settings::{BenchmarkSettings, ConnectionSettings};
pub use stats::{calculate_statistic, process_result, StatusStatistics};
pub use uri::build_uri;
pub use worker::{
    connection_task, ConnectionSummary, ConnectionWorker, RequestSummary, Requester,
    TransportError,
};
