//! Live statistics over a reverse-proxy access log: incremental tail reading,
//! per-client aggregation, ranked top-N queries and the console report.

pub mod assoc;
pub mod control;
pub mod display;
pub mod file_reader;
pub mod lexical;
pub mod log_entry;
pub mod ranking;
pub mod statistics;
pub mod std_contracts;
pub mod text;
pub mod totals;
