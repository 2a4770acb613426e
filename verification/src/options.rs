//! The command-line surface, as plain data.
//!
//! The binary around this library parses arguments into its own mirror of
//! these types and converts; the library keeps them as bare values so that
//! the commands' inputs can be stated and tested without any argument
//! parser in sight.

use vstd::prelude::*;

verus! {

/// The parsed invocation: which command to run.
pub struct Options {
    pub command: Command,
}

/// The available commands.
pub enum Command {
    /// Dump a replay's battle results as structured output.
    BattleResults(BattleResultsOptions),
    /// Dump a replay's data packets, one record per line.
    DumpData(DumpDataOptions),
}

/// Options of the battle-results command.
pub struct BattleResultsOptions {
    /// Path of the replay archive to read.
    pub path: String,
    /// Dump the entire structure schemalessly instead of matching known tags.
    pub raw: bool,
}

/// Options of the data-dump command.
pub struct DumpDataOptions {
    /// Path of the replay archive to read.
    pub path: String,
}

} // verus!
