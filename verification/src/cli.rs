//! The run options a caller hands the pipeline.

use vstd::prelude::*;

verus! {

/// Options for one run over a repository tree.
pub struct Args {
    /// When set, compute every edit but write nothing back.
    pub dryrun: bool,
    /// Path to the root of the target repository.
    pub repo: String,
    /// Print information on matches.
    pub verbose: bool,
}

impl Args {
    /// Options for a run over `repo`: a dry run unless writing is asked
    /// for explicitly.
    pub fn new(repo: String, dryrun: bool, verbose: bool) -> (r: Args)
        ensures
            r.dryrun == dryrun,
            r.repo@ == repo@,
            r.verbose == verbose,
    {
        Args { dryrun, repo, verbose }
    }
}

} // verus!
