//! The settings that every command shares.

use vstd::prelude::*;
use vstd::string::StringExecFns;

verus! {

/// Where the work tree and the repository are.
#[derive(Debug)]
pub struct Flags {
    /// The path to the work tree.
    pub work_tree: String,
    /// The path to the repository.
    pub repo_file: String,
}

impl Default for Flags {
    /// The current directory as work tree, `.rustig` under it as repository.
    fn default() -> (r: Flags)
        ensures
            r.work_tree@ == "."@,
            r.repo_file@ == ".rustig"@,
    {
        Flags { work_tree: String::from_str("."), repo_file: String::from_str(".rustig") }
    }
}

} // verus!
