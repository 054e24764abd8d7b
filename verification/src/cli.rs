//! What the command line asks for.

use vstd::prelude::*;
use vstd::string::StringExecFns;

verus! {

/// The arguments of a run.
#[derive(Debug)]
pub struct Cli {
    /// Path to a file that declares the ruleset. Defaults to the
    /// `conflict.toml` file in the root of the workspace.
    pub ruleset_file: Option<String>,
    /// Directory of a workspace that contains the `Cargo.toml` file. Defaults
    /// to the current workspace.
    pub workspace: Option<String>,
}

impl Cli {
    /// The path of the ruleset file for a workspace rooted at `root`.
    pub open spec fn ruleset_path_of(&self, root: Seq<char>) -> Seq<char> {
        match self.ruleset_file {
            Some(path) => path@,
            None => root + "/conflict.toml"@,
        }
    }

    /// The path of the manifest of a workspace rooted at `root`.
    pub open spec fn manifest_path_of(root: Seq<char>) -> Seq<char> {
        root + "/Cargo.toml"@
    }

    /// The path of the ruleset file: the one that was asked for, or
    /// `conflict.toml` in the root of the workspace.
    pub fn ruleset_path(&self, root: &str) -> (path: String)
        ensures
            path@ == self.ruleset_path_of(root@),
    {
        match &self.ruleset_file {
            Some(path) => path.clone(),
            None => String::from_str(root).concat("/conflict.toml"),
        }
    }

    /// The path of the manifest: `Cargo.toml` in the root of the workspace.
    pub fn manifest_path(root: &str) -> (path: String)
        ensures
            path@ == Self::manifest_path_of(root@),
    {
        String::from_str(root).concat("/Cargo.toml")
    }
}

} // verus!
