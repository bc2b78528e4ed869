//! Whether a repository is dirty, judged from the outcome of the two status
//! queries that the caller ran in it.
//!
//! The first query asks whether the index or the work tree differs from the
//! last commit, and answers by its exit status. The second lists the
//! untracked files that are not ignored, and answers by its output. A query
//! that could not be run to its end is an error: it is never read as
//! "clean" or as "dirty".

use vstd::prelude::*;

verus! {

/// How one status query ended.
#[derive(Debug, Clone, Copy, PartialEq, Eq, Structural)]
pub enum QueryOutcome {
    /// The process could not be started or waited for.
    Failed,
    /// The process ran to its end.
    Finished {
        /// Whether it exited with status zero.
        success: bool,
        /// How many bytes it wrote to its standard output.
        output_len: usize,
    },
}

/// The outcome of both status queries on one repository.
#[derive(Debug, Clone, Copy, PartialEq, Eq, Structural)]
pub struct RepoStatus {
    /// The query for staged or unstaged changes.
    pub changes: QueryOutcome,
    /// The query for untracked files.
    pub untracked: QueryOutcome,
}

/// Which status query could not be run.
#[derive(Debug, Clone, Copy, PartialEq, Eq, Structural)]
pub enum ProbeError {
    /// The query for staged or unstaged changes.
    ChangesQuery,
    /// The query for untracked files.
    UntrackedQuery,
}

/// What the change query says: an exit status other than zero means that
/// there are staged or unstaged changes.
pub open spec fn changes_verdict(outcome: QueryOutcome) -> Result<bool, ProbeError> {
    match outcome {
        QueryOutcome::Failed => Err(ProbeError::ChangesQuery),
        QueryOutcome::Finished { success, .. } => Ok(!success),
    }
}

/// What the untracked query says: any output means that there are
/// untracked files.
pub open spec fn untracked_verdict(outcome: QueryOutcome) -> Result<bool, ProbeError> {
    match outcome {
        QueryOutcome::Failed => Err(ProbeError::UntrackedQuery),
        QueryOutcome::Finished { output_len, .. } => Ok(output_len != 0),
    }
}

/// A repository is dirty when it has changes, or else when it has untracked
/// files. The untracked query counts only where the change query ran and
/// found nothing.
pub open spec fn dirty_verdict(status: RepoStatus) -> Result<bool, ProbeError> {
    match changes_verdict(status.changes) {
        Ok(true) => Ok(true),
        Ok(false) => untracked_verdict(status.untracked),
        Err(e) => Err(e),
    }
}

/// Whether the change query found staged or unstaged changes.
pub fn repo_has_uncommitted_or_unstaged_changes(outcome: &QueryOutcome) -> (r: Result<
    bool,
    ProbeError,
>)
    ensures
        r == changes_verdict(*outcome),
{
    match outcome {
        QueryOutcome::Failed => Err(ProbeError::ChangesQuery),
        QueryOutcome::Finished { success, .. } => Ok(!*success),
    }
}

/// Whether the untracked query found untracked files.
pub fn repo_has_untracked_files(outcome: &QueryOutcome) -> (r: Result<bool, ProbeError>)
    ensures
        r == untracked_verdict(*outcome),
{
    match outcome {
        QueryOutcome::Failed => Err(ProbeError::UntrackedQuery),
        QueryOutcome::Finished { output_len, .. } => Ok(*output_len != 0),
    }
}

/// Whether the repository has staged, unstaged or untracked changes.
pub fn repo_is_dirty(status: &RepoStatus) -> (r: Result<bool, ProbeError>)
    ensures
        r == dirty_verdict(*status),
{
    match repo_has_uncommitted_or_unstaged_changes(&status.changes) {
        Ok(true) => Ok(true),
        Ok(false) => repo_has_untracked_files(&status.untracked),
        Err(e) => Err(e),
    }
}

} // verus!
