//! A personal relationship journal.
//!
//! Free-text daily log entries are annotated with person mentions such as
//! `#JohnDoe`.  The library parses the log text format, merges logs from
//! several sources, projects a per-person sub-log, computes each person's
//! most recent interaction, and assesses configured reachout reminders.

pub mod config;
pub mod date;
pub mod log;
pub mod mention;
pub mod round_trip;
pub mod summary;
pub mod text;
pub mod use_cases;

pub use date::Date;
