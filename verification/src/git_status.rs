//! What is reported of a vault's version control: the state of its files,
//! its branches, its history and its pending changes.

use vstd::prelude::*;

verus! {

/// What happened to a file, in the index or in the working tree.
#[derive(Debug, Clone, Copy, PartialEq, Eq, Structural)]
pub enum FileStatusKind {
    Modified,
    Added,
    Deleted,
    Renamed,
    Untracked,
    Conflicted,
}

/// The state of one file, in the index (`staged`) or in the working tree.
#[derive(Debug, Clone)]
pub struct FileStatus {
    pub path: String,
    pub status: FileStatusKind,
    pub staged: bool,
}

/// A local branch and how it stands to its upstream.
#[derive(Debug, Clone)]
pub struct BranchInfo {
    pub name: String,
    pub is_head: bool,
    pub upstream: Option<String>,
    pub ahead: u32,
    pub behind: u32,
}

/// One commit of the history.
#[derive(Debug, Clone)]
pub struct CommitInfo {
    pub id: String,
    pub short_id: String,
    pub message: String,
    pub author: String,
    pub email: String,
    pub timestamp: i64,
}

/// One line of a hunk; `origin` is the sign in front of it.
#[derive(Debug, Clone)]
pub struct DiffLine {
    pub content: String,
    pub origin: char,
}

/// A run of changed lines of one file.
#[derive(Debug, Clone)]
pub struct DiffHunk {
    pub old_start: u32,
    pub old_lines: u32,
    pub new_start: u32,
    pub new_lines: u32,
    pub lines: Vec<DiffLine>,
}

/// The pending changes of one file.
#[derive(Debug, Clone)]
pub struct FileDiff {
    pub path: String,
    pub hunks: Vec<DiffHunk>,
}

/// A file in conflict, with the text of each side that has one.
#[derive(Debug, Clone)]
pub struct ConflictFile {
    pub path: String,
    pub ours: Option<String>,
    pub theirs: Option<String>,
    pub ancestor: Option<String>,
}

/// What a `FileStatus` stands for.
pub struct StatusView {
    pub path: Seq<char>,
    pub status: FileStatusKind,
    pub staged: bool,
}

impl View for FileStatus {
    type V = StatusView;

    open spec fn view(&self) -> StatusView {
        StatusView { path: self.path@, status: self.status, staged: self.staged }
    }
}

/// What a `CommitInfo` stands for.
pub struct CommitView {
    pub id: Seq<char>,
    pub short_id: Seq<char>,
    pub message: Seq<char>,
    pub author: Seq<char>,
    pub email: Seq<char>,
    pub timestamp: i64,
}

impl View for CommitInfo {
    type V = CommitView;

    open spec fn view(&self) -> CommitView {
        CommitView {
            id: self.id@,
            short_id: self.short_id@,
            message: self.message@,
            author: self.author@,
            email: self.email@,
            timestamp: self.timestamp,
        }
    }
}

/// What a `DiffLine` stands for.
pub struct LineView {
    pub content: Seq<char>,
    pub origin: char,
}

impl View for DiffLine {
    type V = LineView;

    open spec fn view(&self) -> LineView {
        LineView { content: self.content@, origin: self.origin }
    }
}

/// What a `DiffHunk` stands for.
pub struct HunkView {
    pub old_start: u32,
    pub old_lines: u32,
    pub new_start: u32,
    pub new_lines: u32,
    pub lines: Seq<LineView>,
}

impl View for DiffHunk {
    type V = HunkView;

    open spec fn view(&self) -> HunkView {
        HunkView {
            old_start: self.old_start,
            old_lines: self.old_lines,
            new_start: self.new_start,
            new_lines: self.new_lines,
            lines: Seq::new(self.lines@.len(), |i: int| self.lines@[i]@),
        }
    }
}

/// What a `FileDiff` stands for.
pub struct DiffView {
    pub path: Seq<char>,
    pub hunks: Seq<HunkView>,
}

impl View for FileDiff {
    type V = DiffView;

    open spec fn view(&self) -> DiffView {
        DiffView { path: self.path@, hunks: Seq::new(self.hunks@.len(), |i: int| self.hunks@[i]@) }
    }
}

/// The views of a sequence of file states.
pub open spec fn status_views(items: Seq<FileStatus>) -> Seq<StatusView> {
    Seq::new(items.len(), |i: int| items[i]@)
}

/// The views of a sequence of commits.
pub open spec fn commit_views(items: Seq<CommitInfo>) -> Seq<CommitView> {
    Seq::new(items.len(), |i: int| items[i]@)
}

/// The views of a sequence of file changes.
pub open spec fn diff_views(items: Seq<FileDiff>) -> Seq<DiffView> {
    Seq::new(items.len(), |i: int| items[i]@)
}

} // verus!
