//! Value objects crossing the boundary towards the UI.
//!
//! Plain data structures with no transport concern, so the domain stays
//! testable on its own.

use vstd::prelude::*;

verus! {

#[derive(Debug, Clone)]
pub struct Signature {
    pub name: String,
    pub email: String,
    /// Seconds since the Unix epoch.
    pub timestamp: i64,
    /// Timezone offset in minutes, as recorded by git.
    pub offset_minutes: i32,
}

#[derive(Debug, Clone, Copy, PartialEq, Eq, Structural)]
pub enum RefKind {
    LocalBranch,
    RemoteBranch,
    Tag,
}

/// A ref label drawn on top of a commit node in the graph.
#[derive(Debug, Clone)]
pub struct RefBadge {
    pub name: String,
    pub kind: RefKind,
    /// True when HEAD currently points at this ref.
    pub is_head: bool,
}

#[derive(Debug, Clone)]
pub struct Commit {
    pub id: String,
    pub short_id: String,
    pub summary: String,
    pub body: String,
    pub author: Signature,
    pub committer: Signature,
    pub parents: Vec<String>,
    pub refs: Vec<RefBadge>,
}

impl Commit {
    /// A merge is a commit with more than one parent.
    pub fn is_merge(&self) -> (r: bool)
        ensures
            r == (self.parents@.len() > 1),
    {
        self.parents.len() > 1
    }
}

} // verus!

verus! {

/// A connection drawn from a commit down to one of its parents.
///
/// `to_lane` is the lane the parent will actually be rendered in, so the
/// renderer never has to guess where a line lands.
#[derive(Debug, Clone)]
pub struct Edge {
    pub from_lane: u32,
    pub to_lane: u32,
    /// Row index of the parent, or `None` when the parent lies outside the
    /// walked window (truncated history or a shallow clone).
    pub to_row: Option<u32>,
    pub color: u32,
}

#[derive(Debug, Clone)]
pub struct GraphRow {
    pub commit: Commit,
    /// Horizontal track this commit is drawn on.
    pub lane: u32,
    /// Stable colour index for the line this commit belongs to.
    pub color: u32,
    pub edges: Vec<Edge>,
}

#[derive(Debug, Clone)]
pub struct Graph {
    pub rows: Vec<GraphRow>,
    /// Widest number of simultaneous lanes, used to size the canvas.
    pub lane_count: u32,
    /// True when the walk stopped at the requested limit.
    pub truncated: bool,
}

#[derive(Debug, Clone)]
pub struct RefEntry {
    /// Short display name, e.g. `main` or `origin/main`.
    pub name: String,
    /// Fully qualified name, e.g. `refs/heads/main`.
    pub full_name: String,
    pub kind: RefKind,
    pub target: String,
    pub is_head: bool,
    /// Configured upstream for a local branch, e.g. `origin/main`.
    pub upstream: Option<String>,
    /// Commits on this branch missing from its upstream.
    pub ahead: u32,
    /// Commits on the upstream missing from this branch.
    pub behind: u32,
}

#[derive(Debug, Clone)]
pub struct HeadInfo {
    /// Branch name, or the short id when HEAD is detached.
    pub name: String,
    pub oid: Option<String>,
    pub detached: bool,
}

#[derive(Debug, Clone)]
pub struct RepoInfo {
    pub path: String,
    pub name: String,
    pub head: Option<HeadInfo>,
    pub is_empty: bool,
    pub remotes: Vec<String>,
}

#[derive(Debug, Clone, Copy, PartialEq, Eq, Structural)]
pub enum ChangeStatus {
    Added,
    Modified,
    Deleted,
    Renamed,
    Copied,
    TypeChange,
    Untracked,
    Conflicted,
}

#[derive(Debug, Clone)]
pub struct FileChange {
    pub path: String,
    /// Previous path when the file was renamed or copied.
    pub old_path: Option<String>,
    pub status: ChangeStatus,
    pub insertions: u32,
    pub deletions: u32,
    pub is_binary: bool,
}

#[derive(Debug, Clone)]
pub struct CommitDetail {
    pub commit: Commit,
    pub files: Vec<FileChange>,
    pub insertions: u32,
    pub deletions: u32,
}

#[derive(Debug, Clone)]
pub struct WorkingStatus {
    pub staged: Vec<FileChange>,
    pub unstaged: Vec<FileChange>,
    pub conflicted: Vec<String>,
}

/// Why a requested path was skipped rather than staged or unstaged, instead
/// of failing the whole batch.
#[derive(Debug, Clone, Copy, PartialEq, Eq, Structural)]
pub enum SkipReason {
    /// Present in neither the working tree, the index, nor `HEAD`: already
    /// committed elsewhere, or an untracked file that was deleted.
    Vanished,
}

#[derive(Debug, Clone)]
pub struct SkippedPath {
    pub path: String,
    pub reason: SkipReason,
}

/// The result of any write (`stage`, `unstage`). `status` is the sorted
/// listing recomputed after the write; `skipped` names the paths the caller
/// asked for that no longer existed anywhere, sorted as well.
#[derive(Debug, Clone)]
pub struct WriteOutcome {
    pub status: WorkingStatus,
    pub skipped: Vec<SkippedPath>,
}

/// Whether a usable `git` executable was found for the commit step.
#[derive(Debug, Clone)]
pub struct GitProbe {
    pub available: bool,
    /// The candidate that was examined, when one could be resolved at all.
    pub path: Option<String>,
    /// The trimmed `git --version` line of an accepted candidate.
    pub version: Option<String>,
}

/// Something worth telling the user about a commit that did land.
#[derive(Debug, Clone)]
pub enum CommitWarning {
    /// `git` exited non-zero, yet `HEAD` moved: the commit exists.
    NonZeroExitButHeadMoved { exit_code: i32, stderr: String },
    /// `git` was stopped by the timeout, yet `HEAD` moved: the commit exists.
    TimedOutButHeadMoved { stderr: String },
}

/// A commit that landed: the new `HEAD` and an optional warning.
#[derive(Debug, Clone)]
pub struct CommitOutcome {
    pub id: String,
    pub short_id: String,
    pub warning: Option<CommitWarning>,
}

} // verus!
