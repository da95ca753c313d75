//! The command model: what a parsed invocation asks the engine to do. The
//! surrounding tool turns raw arguments into these plain values.
use vstd::prelude::*;

verus! {

/// One invocation of the tool.
pub struct Cli {
    pub command: Commands,
}

/// The operations the engine offers.
#[allow(inconsistent_fields)]
pub enum Commands {
    /// Create the repository layout.
    Init,
    /// With a name, create that branch at the current commit; without one,
    /// list the branches.
    Branch { name: Option<String> },
    /// Point HEAD at the named branch.
    Switch { name: String },
    /// Stage the named paths.
    Add { paths: Vec<String> },
    /// Show the commit history.
    Log,
    /// Snapshot the index as a commit with this message.
    Commit { message: String },
    /// Move the current branch back to its parent commit.
    Reset,
}

} // verus!
