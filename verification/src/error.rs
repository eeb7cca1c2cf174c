use vstd::prelude::*;

verus! {

/// Why a request is refused.
#[derive(PartialEq, Eq, Debug)]
pub enum GitError {
    /// A line of an index or tree file does not hold exactly a path and an
    /// object id.
    CorruptIndex,
    /// The index is empty, so there is nothing to commit.
    NothingToCommit,
    /// HEAD does not name a commit yet.
    NoCommit,
    /// A branch of this name exists already.
    BranchExists(String),
    /// No branch of this name exists.
    NoSuchBranch(String),
    /// The branch to delete is the one checked out.
    CurrentBranch,
    /// HEAD does not name a branch; the text is what it holds.
    Detached(String),
    /// The two histories share no commit.
    NoCommonAncestor,
    /// Both sides changed this path in different ways.
    MergeConflict(String),
}

} // verus!
