//! Git data model: the values the git layer hands the frontend, with their
//! mathematical views.

pub mod blame;
pub mod args;
pub mod cli;
pub mod diff;
pub mod error;
pub mod uasset;
pub mod view;
pub mod write;

use vstd::prelude::*;

pub use blame::{Blame, BlameCommit};
pub use diff::Change;
pub use error::GitError;

verus! {

/// The characters of an optional string.
pub open spec fn opt_view(o: Option<String>) -> Option<Seq<char>> {
    match o {
        Some(s) => Some(s@),
        None => None,
    }
}

/// The characters of each string slice of a list.
pub open spec fn strs_of(v: Seq<&str>) -> Seq<Seq<char>> {
    v.map_values(|s: &str| s@)
}

/// The characters of each string of a list.
pub open spec fn strs_view(v: Seq<String>) -> Seq<Seq<char>> {
    v.map_values(|s: String| s@)
}

#[derive(Debug, Clone)]
pub struct Branch {
    pub name: String,
    pub kind: BranchKind,
}

pub struct BranchView {
    pub name: Seq<char>,
    pub kind: BranchKind,
}

impl View for Branch {
    type V = BranchView;

    open spec fn view(&self) -> BranchView {
        BranchView { name: self.name@, kind: self.kind }
    }
}

#[derive(Debug, Clone, Copy, PartialEq, Eq, Structural)]
pub enum BranchKind {
    Local,
    Remote,
    Tag,
}

#[derive(Debug, Clone)]
pub struct ChangedFile {
    pub path: String,
    pub old_path: Option<String>,
    pub status: FileStatus,
}

pub struct ChangedFileView {
    pub path: Seq<char>,
    pub old_path: Option<Seq<char>>,
    pub status: FileStatus,
}

impl View for ChangedFile {
    type V = ChangedFileView;

    open spec fn view(&self) -> ChangedFileView {
        ChangedFileView { path: self.path@, old_path: opt_view(self.old_path), status: self.status }
    }
}

/// One commit in the history browser's log list. `parents` holds full parent
/// SHAs (used by the frontend graph layout to wire lanes); `refs` are the raw
/// decoration names (`HEAD -> main`, `tag: v1`, `origin/main`) for display.
#[derive(Debug, Clone, PartialEq, Eq)]
pub struct Commit {
    pub sha: String,
    pub short_sha: String,
    pub parents: Vec<String>,
    pub author: String,
    /// Author time, unix seconds.
    pub time: i64,
    pub summary: String,
    pub refs: Vec<String>,
}

pub struct CommitView {
    pub sha: Seq<char>,
    pub short_sha: Seq<char>,
    pub parents: Seq<Seq<char>>,
    pub author: Seq<char>,
    pub time: i64,
    pub summary: Seq<char>,
    pub refs: Seq<Seq<char>>,
}

impl View for Commit {
    type V = CommitView;

    open spec fn view(&self) -> CommitView {
        CommitView {
            sha: self.sha@,
            short_sha: self.short_sha@,
            parents: strs_view(self.parents@),
            author: self.author@,
            time: self.time,
            summary: self.summary@,
            refs: strs_view(self.refs@),
        }
    }
}

/// Per-commit containment of the loaded commit graph against one `target` ref,
/// powering the graph's "Compare against" highlight. `not_in_target` holds the
/// SHAs reachable from `source` (or every ref, when source is empty) that are
/// NOT yet in `target`. `equivalent` holds SHAs whose patch is already applied
/// in `target` under a different commit (via `git cherry`); only computed for
/// a single-ref source. `ahead` / `behind` count `source` vs `target` (0 when
/// source is empty). `source_is_branch` echoes whether a single source ref was
/// given.
#[derive(Debug, Clone)]
pub struct Containment {
    pub not_in_target: Vec<String>,
    pub equivalent: Vec<String>,
    pub ahead: i64,
    pub behind: i64,
    pub source_is_branch: bool,
}

/// Detail for one commit's "Containment" panel. `in_target` is whether the
/// commit is an ancestor of the active target; `introduced_by` is the merge
/// commit that brought it into target (None when fast-forwarded / committed
/// directly, or when not contained at all).
#[derive(Debug, Clone)]
pub struct ContainmentDetail {
    pub in_target: bool,
    pub introduced_by: Option<Commit>,
}

/// One entry from `git status --porcelain=v2`. `index_status` /
/// `worktree_status` are the porcelain-v2 XY status codes: X is the staged side
/// (HEAD↔index), Y the unstaged side (index↔worktree); untracked files come
/// back as `?`/`?`. `orig_path` holds the pre-rename path for renames/copies.
#[derive(Debug, Clone, PartialEq, Eq)]
pub struct StatusEntry {
    pub path: String,
    pub orig_path: Option<String>,
    pub index_status: String,
    pub worktree_status: String,
}

pub struct StatusEntryView {
    pub path: Seq<char>,
    pub orig_path: Option<Seq<char>>,
    pub index_status: Seq<char>,
    pub worktree_status: Seq<char>,
}

impl View for StatusEntry {
    type V = StatusEntryView;

    open spec fn view(&self) -> StatusEntryView {
        StatusEntryView {
            path: self.path@,
            orig_path: opt_view(self.orig_path),
            index_status: self.index_status@,
            worktree_status: self.worktree_status@,
        }
    }
}

/// Result of `git status --porcelain=v2 --branch`. `ahead` / `behind` are the
/// commit counts vs `upstream` (both 0 when there is no upstream). `branch` is
/// `None` on a detached HEAD.
#[derive(Debug, Clone, PartialEq, Eq)]
pub struct RepoStatus {
    pub entries: Vec<StatusEntry>,
    pub branch: Option<String>,
    pub upstream: Option<String>,
    pub ahead: i64,
    pub behind: i64,
}

pub struct RepoStatusView {
    pub entries: Seq<StatusEntryView>,
    pub branch: Option<Seq<char>>,
    pub upstream: Option<Seq<char>>,
    pub ahead: i64,
    pub behind: i64,
}

impl View for RepoStatus {
    type V = RepoStatusView;

    open spec fn view(&self) -> RepoStatusView {
        RepoStatusView {
            entries: self.entries@.map_values(|e: StatusEntry| e@),
            branch: opt_view(self.branch),
            upstream: opt_view(self.upstream),
            ahead: self.ahead,
            behind: self.behind,
        }
    }
}

/// One entry from `git stash list`. `index` is its position (`stash@{index}`);
/// `message` is the stash subject.
#[derive(Debug, Clone, PartialEq, Eq)]
pub struct Stash {
    pub index: u32,
    pub message: String,
}

pub struct StashView {
    pub index: u32,
    pub message: Seq<char>,
}

impl View for Stash {
    type V = StashView;

    open spec fn view(&self) -> StashView {
        StashView { index: self.index, message: self.message@ }
    }
}

/// One hunk of a file's unified diff. `header` is the `@@ -a,b +c,d @@` line;
/// `added`/`removed` count changed lines. `id` is a content signature of the
/// hunk body (excluding the position-bearing header).
#[derive(Debug, Clone, PartialEq, Eq)]
pub struct Hunk {
    pub id: String,
    pub header: String,
    pub added: u32,
    pub removed: u32,
}

pub struct HunkView {
    pub id: Seq<char>,
    pub header: Seq<char>,
    pub added: nat,
    pub removed: nat,
}

impl View for Hunk {
    type V = HunkView;

    open spec fn view(&self) -> HunkView {
        HunkView {
            id: self.id@,
            header: self.header@,
            added: self.added as nat,
            removed: self.removed as nat,
        }
    }
}

/// The three index stages of a conflicted file plus the working-tree copy.
/// `binary` is true when the working copy looks binary.
#[derive(Debug, Clone)]
pub struct ConflictVersions {
    pub base: String,
    pub ours: String,
    pub theirs: String,
    pub merged: String,
    pub binary: bool,
}

/// Submodule entry as declared in `.gitmodules`.
#[derive(Debug, Clone)]
pub struct SubmoduleInfo {
    /// Path relative to the main repo root, as written in `.gitmodules`.
    pub path: String,
    /// Absolute filesystem path of the submodule's working tree.
    pub absolute_path: String,
    pub initialized: bool,
}

#[derive(Debug, Clone, Copy, PartialEq, Eq, Structural)]
pub enum FileStatus {
    Added,
    Modified,
    Deleted,
    Renamed,
    Copied,
    TypeChanged,
}

#[derive(Debug, Clone, Copy, PartialEq, Eq, Structural)]
pub enum DiffMode {
    ThreeDot,
    TwoDot,
}

/// Result of a per-file diff.
#[derive(Debug, Clone)]
pub enum FileDiff {
    Text {
        old_content: String,
        new_content: String,
        old_size: u64,
        new_size: u64,
        /// Precomputed diff (UTF-16 offsets); the contents are EOL-normalized
        /// to match these offsets.
        changes: Vec<diff::Change>,
        /// Set when the text is a derived view (an Unreal asset parsed to JSON).
        derived_label: Option<String>,
        /// Engine version used to derive an Unreal asset view.
        ue_version: Option<String>,
    },
    Binary {
        old_size: u64,
        new_size: u64,
        /// Optional reason shown alongside the binary view.
        note: Option<String>,
    },
    /// Renderable image, both sides as base64; an absent side is empty.
    Image {
        old_b64: String,
        new_b64: String,
        mime: String,
        old_size: u64,
        new_size: u64,
    },
    TooLarge {
        old_size: u64,
        new_size: u64,
    },
}

/// `d` is the binary view of the given sizes with the given note.
pub open spec fn binary_with_note(d: FileDiff, old_size: u64, new_size: u64, note: Seq<char>) -> bool {
    d matches FileDiff::Binary { old_size: a, new_size: b, note: Some(n) } && a == old_size && b
        == new_size && n@ == note
}

} // verus!
