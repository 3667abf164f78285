//! A time-series log of latency samples, one file per day, with range
//! queries and hourly aggregates over it.
//!
//! The file system stays with the caller: the functions here take directory
//! listings and file texts, and say which files to delete and what to append.
pub mod history;
pub mod logfiles;
pub mod probe;
pub mod range;
pub mod record;
pub mod stats;
pub mod text;
pub mod writer;

pub use history::{checked_history, generate_history, history_reads, read_history};
pub use logfiles::{
    expired_logs, is_log_file, log_file_name, log_files, older, retention_cutoff, try_open_log,
    Date,
};
pub use probe::parse_ping_output;
pub use range::{read_log, RangeQuery, RangeReader};
pub use record::{parse, Ping, LOST_PING};
pub use stats::{accumulate, PingStats};
pub use writer::{next_tick, plan_append, AppendPlan};
