//! Compaction of developer-tool output.
//!
//! Raw text captured from a build, test run, lint pass or directory listing
//! is classified line by line into typed records and re-rendered as a short
//! summary that keeps every error, warning and failure while dropping
//! progress chatter. Each public filter carries a contract that pins its
//! output to a line-level model of the classification.

pub mod build_output;
pub mod cargo_cmd;
pub mod lint;
pub mod ls;
pub mod strutil;
pub mod testrun;
pub use build_output::filter_cargo_build;
pub use testrun::filter_cargo_test;
pub use lint::filter_cargo_clippy;
pub use ls::filter_ls_output;
pub use ls::generate_summary;
pub use cargo_cmd::run;
pub use cargo_cmd::CargoCommand;
