//! Dispatch over the wrapped cargo subcommands. The caller invokes the
//! underlying tool, captures its combined output and propagates its exit
//! status; this module picks the classifier/renderer pair and turns the
//! captured text into the compact summary.

use crate::build_output::filter_cargo_build;
use crate::build_output::spec_filter_build;
use crate::lint::filter_cargo_clippy;
use crate::lint::spec_filter_lint;
use crate::testrun::filter_cargo_test;
use crate::testrun::spec_filter_test;
use vstd::prelude::*;

verus! {

/// The cargo subcommands this library knows how to compact.
#[derive(Debug, Clone)]
pub enum CargoCommand {
    Build,
    Test,
    Clippy,
}

/// The summary owed for one subcommand's captured output.
pub open spec fn spec_run(cmd: CargoCommand, raw: Seq<char>) -> Seq<char> {
    match cmd {
        CargoCommand::Build => spec_filter_build(raw),
        CargoCommand::Test => spec_filter_test(raw),
        CargoCommand::Clippy => spec_filter_lint(raw),
    }
}

/// Compacts the captured output of the given subcommand.
pub fn run(cmd: CargoCommand, raw: &str) -> (r: String)
    ensures
        r@ == spec_run(cmd, raw@),
{
    match cmd {
        CargoCommand::Build => filter_cargo_build(raw),
        CargoCommand::Test => filter_cargo_test(raw),
        CargoCommand::Clippy => filter_cargo_clippy(raw),
    }
}

} // verus!
