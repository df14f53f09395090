//! Reading plain-text log files into typed records, and summary statistics
//! over those records.
pub mod text;
pub mod tally;
pub mod date_time;
pub mod log_level;
pub mod log_entry;
pub mod statistics_aggregator;
pub mod log_analyzer;
