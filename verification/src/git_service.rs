//! The decisions made around a vault's version control, on plain values:
//! which states a file is reported in, how the current branch is named,
//! which commits touched a file, how a diff is put together, what a pull
//! comes to. Talking to the repository is the caller's part.

use crate::git_status::{
    commit_views, diff_views, status_views, BranchInfo, CommitInfo, CommitView, ConflictFile,
    DiffHunk, DiffLine, DiffView, FileDiff, FileStatus, FileStatusKind, HunkView, LineView,
    StatusView,
};
use crate::strings::{optional_view, same_optional};
use crate::text::{has_prefix, part, starts_with, to_chars, to_string};
use vstd::prelude::*;
use vstd::string::StringExecFns;

verus! {

/// What the repository says of one path: a flag for each change in the
/// index, for each change in the working tree, and for a conflict.
#[derive(Debug, Clone, Copy)]
pub struct StatusFlags {
    pub index_new: bool,
    pub index_modified: bool,
    pub index_deleted: bool,
    pub index_renamed: bool,
    pub wt_modified: bool,
    pub wt_new: bool,
    pub wt_deleted: bool,
    pub conflicted: bool,
}

/// A path and what the repository says of it.
#[derive(Debug, Clone)]
pub struct StatusEntry {
    pub path: String,
    pub flags: StatusFlags,
}

/// The state of a path in the index: added, modified, deleted or renamed,
/// the first that its flags show.
pub open spec fn staged_kind(flags: StatusFlags) -> Option<FileStatusKind> {
    if flags.index_new {
        Some(FileStatusKind::Added)
    } else if flags.index_modified {
        Some(FileStatusKind::Modified)
    } else if flags.index_deleted {
        Some(FileStatusKind::Deleted)
    } else if flags.index_renamed {
        Some(FileStatusKind::Renamed)
    } else {
        None
    }
}

/// The state of a path in the working tree: modified, untracked, deleted or
/// in conflict, the first that its flags show.
pub open spec fn unstaged_kind(flags: StatusFlags) -> Option<FileStatusKind> {
    if flags.wt_modified {
        Some(FileStatusKind::Modified)
    } else if flags.wt_new {
        Some(FileStatusKind::Untracked)
    } else if flags.wt_deleted {
        Some(FileStatusKind::Deleted)
    } else if flags.conflicted {
        Some(FileStatusKind::Conflicted)
    } else {
        None
    }
}

/// The states reported for one path: the staged one, then the unstaged one,
/// as far as it has them.
pub open spec fn entry_statuses(path: Seq<char>, flags: StatusFlags) -> Seq<StatusView> {
    let staged: Seq<StatusView> = match staged_kind(flags) {
        Some(kind) => seq![StatusView { path: path, status: kind, staged: true }],
        None => Seq::empty(),
    };
    let unstaged: Seq<StatusView> = match unstaged_kind(flags) {
        Some(kind) => seq![StatusView { path: path, status: kind, staged: false }],
        None => Seq::empty(),
    };
    staged + unstaged
}

/// The states reported for `entries`, path by path.
pub open spec fn all_statuses(entries: Seq<StatusEntry>) -> Seq<StatusView>
    decreases entries.len(),
{
    if entries.len() == 0 {
        Seq::empty()
    } else {
        all_statuses(entries.drop_last()) + entry_statuses(
            entries.last().path@,
            entries.last().flags,
        )
    }
}

/// The state of a path in the index.
pub fn staged_status(flags: StatusFlags) -> (r: Option<FileStatusKind>)
    ensures
        r == staged_kind(flags),
{
    if flags.index_new {
        Some(FileStatusKind::Added)
    } else if flags.index_modified {
        Some(FileStatusKind::Modified)
    } else if flags.index_deleted {
        Some(FileStatusKind::Deleted)
    } else if flags.index_renamed {
        Some(FileStatusKind::Renamed)
    } else {
        None
    }
}

/// The state of a path in the working tree.
pub fn unstaged_status(flags: StatusFlags) -> (r: Option<FileStatusKind>)
    ensures
        r == unstaged_kind(flags),
{
    if flags.wt_modified {
        Some(FileStatusKind::Modified)
    } else if flags.wt_new {
        Some(FileStatusKind::Untracked)
    } else if flags.wt_deleted {
        Some(FileStatusKind::Deleted)
    } else if flags.conflicted {
        Some(FileStatusKind::Conflicted)
    } else {
        None
    }
}

/// The states of the files of a working directory, from what the repository
/// says of each path: for each path its staged state, then its unstaged one.
pub fn get_status(entries: &Vec<StatusEntry>) -> (r: Vec<FileStatus>)
    ensures
        status_views(r@) == all_statuses(entries@),
{
    let mut result: Vec<FileStatus> = Vec::new();
    let mut i: usize = 0;
    while i < entries.len()
        invariant
            i <= entries.len(),
            status_views(result@) == all_statuses(entries@.take(i as int)),
        decreases entries.len() - i,
    {
        let entry = &entries[i];
        proof {
            let head = entries@.take(i + 1);
            assert(head.drop_last() =~= entries@.take(i as int));
        }
        match staged_status(entry.flags) {
            Some(kind) => {
                result.push(FileStatus { path: entry.path.clone(), status: kind, staged: true });
            },
            None => {},
        }
        match unstaged_status(entry.flags) {
            Some(kind) => {
                result.push(FileStatus { path: entry.path.clone(), status: kind, staged: false });
            },
            None => {},
        }
        i += 1;
    }
    assert(entries@.take(entries.len() as int) =~= entries@);
    result
}

/// What is known of `HEAD`.
#[derive(Debug, Clone)]
pub enum HeadState {
    /// It resolves; `shorthand` is its short name, where it has one.
    Resolved { shorthand: Option<String> },
    /// Its branch has no commit yet; `target` is the reference it points
    /// to, where that could be read.
    Unborn { target: Option<String> },
    /// It could not be read, for the reason `message`.
    Failed { message: String },
}

/// `s` without the occurrences of `prefix` at its start.
pub open spec fn without_prefixes(s: Seq<char>, prefix: Seq<char>) -> Seq<char>
    decreases s.len(),
{
    if prefix.len() > 0 && has_prefix(s, prefix) {
        without_prefixes(s.skip(prefix.len() as int), prefix)
    } else {
        s
    }
}

/// The name shown for the current branch: the short name of `HEAD`, or
/// `HEAD (detached)` where it has none; for a branch without commits the
/// branch that `HEAD` points to, or `main`, marked `(no commits)`.
pub open spec fn branch_label(head: HeadState) -> Result<Seq<char>, Seq<char>> {
    match head {
        HeadState::Resolved { shorthand: Some(name) } => Ok(name@),
        HeadState::Resolved { shorthand: None } => Ok("HEAD (detached)"@),
        HeadState::Unborn { target: Some(target) } => Ok(
            without_prefixes(target@, "refs/heads/"@) + " (no commits)"@,
        ),
        HeadState::Unborn { target: None } => Ok("main (no commits)"@),
        HeadState::Failed { message } => Err(message@),
    }
}

/// The views of both sides of a result.
pub open spec fn result_view(r: Result<String, String>) -> Result<Seq<char>, Seq<char>> {
    match r {
        Ok(s) => Ok(s@),
        Err(e) => Err(e@),
    }
}

/// `s` without the occurrences of `prefix` at its start.
pub fn strip_prefixes(s: &str, prefix: &str) -> (r: String)
    ensures
        r@ == without_prefixes(s@, prefix@),
{
    let chars = to_chars(s);
    let pattern = to_chars(prefix);
    let mut rest = chars.as_slice();
    if pattern.len() == 0 {
        return to_string(rest);
    }
    while starts_with(rest, pattern.as_slice())
        invariant
            pattern@ == prefix@,
            pattern@.len() > 0,
            without_prefixes(s@, prefix@) == without_prefixes(rest@, prefix@),
        decreases rest@.len(),
    {
        let next = part(rest, pattern.len(), rest.len());
        rest = next;
    }
    to_string(rest)
}

/// The name shown for the current branch, or the reason why there is none.
pub fn current_branch(head: &HeadState) -> (r: Result<String, String>)
    ensures
        result_view(r) == branch_label(*head),
{
    match head {
        HeadState::Resolved { shorthand: Some(name) } => Ok(name.clone()),
        HeadState::Resolved { shorthand: None } => Ok(String::from_str("HEAD (detached)")),
        HeadState::Unborn { target: Some(target) } => {
            let mut label = strip_prefixes(target.as_str(), "refs/heads/");
            label.append(" (no commits)");
            Ok(label)
        },
        HeadState::Unborn { target: None } => Ok(String::from_str("main (no commits)")),
        HeadState::Failed { message } => Err(message.clone()),
    }
}

/// The full name of the local branch `branch`.
pub fn branch_ref(branch: &str) -> (r: String)
    ensures
        r@ == "refs/heads/"@ + branch@,
{
    let mut r = String::from_str("refs/heads/");
    r.append(branch);
    r
}

/// What pushing the local branch `branch` to the branch of the same name
/// asks for.
pub fn push_refspec(branch: &str) -> (r: String)
    ensures
        r@ == ("refs/heads/"@ + branch@).push(':') + ("refs/heads/"@ + branch@),
{
    let mut r = branch_ref(branch);
    r.push(':');
    r.append("refs/heads/");
    r.append(branch);
    r
}

/// How what was fetched stands to the current branch.
#[derive(Debug, Clone, Copy)]
pub struct MergeAnalysis {
    pub up_to_date: bool,
    pub fast_forward: bool,
    pub normal: bool,
}

/// What a pull does after fetching.
#[derive(Debug, Clone, Copy, PartialEq, Eq, Structural)]
pub enum MergeStep {
    /// Nothing: the branch holds what was fetched.
    UpToDate,
    /// The branch is moved to what was fetched and checked out.
    FastForward,
    /// What was fetched is merged into the branch.
    Merge,
    /// Nothing: there is nothing to merge.
    Nothing,
}

/// The step that `analysis` calls for: the first of up to date, fast
/// forward and merge that it shows.
pub open spec fn merge_step(analysis: MergeAnalysis) -> MergeStep {
    if analysis.up_to_date {
        MergeStep::UpToDate
    } else if analysis.fast_forward {
        MergeStep::FastForward
    } else if analysis.normal {
        MergeStep::Merge
    } else {
        MergeStep::Nothing
    }
}

/// What is reported of a pull that took the step `step`.
pub open spec fn merge_report(step: MergeStep) -> Seq<char> {
    match step {
        MergeStep::UpToDate => "Already up to date"@,
        MergeStep::FastForward => "Fast-forward merge"@,
        MergeStep::Merge => "Merge completed (may have conflicts)"@,
        MergeStep::Nothing => "Nothing to do"@,
    }
}

/// The step that `analysis` calls for.
pub fn plan_merge(analysis: MergeAnalysis) -> (r: MergeStep)
    ensures
        r == merge_step(analysis),
{
    if analysis.up_to_date {
        MergeStep::UpToDate
    } else if analysis.fast_forward {
        MergeStep::FastForward
    } else if analysis.normal {
        MergeStep::Merge
    } else {
        MergeStep::Nothing
    }
}

/// What is reported of a pull that took the step `step`.
pub fn merge_message(step: MergeStep) -> (r: String)
    ensures
        r@ == merge_report(step),
{
    match step {
        MergeStep::UpToDate => String::from_str("Already up to date"),
        MergeStep::FastForward => String::from_str("Fast-forward merge"),
        MergeStep::Merge => String::from_str("Merge completed (may have conflicts)"),
        MergeStep::Nothing => String::from_str("Nothing to do"),
    }
}

/// The number of characters of a commit's short id.
pub const SHORT_ID_LENGTH: usize = 7;

/// The short form of the commit id `id`: its first seven characters, or
/// all of it where it has fewer.
pub open spec fn short_id_of(id: Seq<char>) -> Seq<char> {
    if id.len() > SHORT_ID_LENGTH {
        id.take(SHORT_ID_LENGTH as int)
    } else {
        id
    }
}

/// The short form of the commit id `id`.
pub fn short_id(id: &str) -> (r: String)
    ensures
        r@ == short_id_of(id@),
{
    let chars = to_chars(id);
    if chars.len() > SHORT_ID_LENGTH {
        to_string(part(chars.as_slice(), 0, SHORT_ID_LENGTH))
    } else {
        id.to_owned()
    }
}

/// The report of the commit `id`.
pub fn commit_info(
    id: String,
    message: String,
    author: String,
    email: String,
    timestamp: i64,
) -> (r: CommitInfo)
    ensures
        r@ == (CommitView {
            id: id@,
            short_id: short_id_of(id@),
            message: message@,
            author: author@,
            email: email@,
            timestamp: timestamp,
        }),
{
    let short = short_id(id.as_str());
    CommitInfo { id, short_id: short, message, author, email, timestamp }
}

/// The state of a walk through the history of one file, newest commit
/// first: the commits found to have touched the file, and the content the
/// file had in the commit seen last.
pub struct FileLogWalk {
    commits: Vec<CommitInfo>,
    last_blob: Option<String>,
}

/// What a `FileLogWalk` stands for.
pub struct WalkView {
    pub commits: Seq<CommitView>,
    pub last_blob: Option<Seq<char>>,
}

/// The walk after the commit `commit`, in which the file has the content
/// `blob` or is absent: the commit is one that touched the file if the file
/// is not as in the commit seen before it.
pub open spec fn walk_step(state: WalkView, commit: CommitView, blob: Option<Seq<char>>) -> WalkView {
    if blob != state.last_blob {
        WalkView { commits: state.commits.push(commit), last_blob: blob }
    } else {
        state
    }
}

impl View for FileLogWalk {
    type V = WalkView;

    closed spec fn view(&self) -> WalkView {
        WalkView { commits: commit_views(self.commits@), last_blob: optional_view(self.last_blob) }
    }
}

impl FileLogWalk {
    /// The walk before the first commit: nothing found, the file absent.
    pub fn new() -> (r: Self)
        ensures
            r@ == (WalkView { commits: Seq::empty(), last_blob: None }),
    {
        let r = FileLogWalk { commits: Vec::new(), last_blob: None };
        assert(commit_views(r.commits@) =~= Seq::<CommitView>::empty());
        r
    }

    /// Whether fewer than `max_count` commits have been found.
    pub fn wants_more(&self, max_count: usize) -> (r: bool)
        ensures
            r == (self@.commits.len() < max_count),
    {
        self.commits.len() < max_count
    }

    /// Takes in the next commit of the walk and the content that the file
    /// has in it.
    pub fn visit(&mut self, commit: CommitInfo, blob: Option<String>)
        ensures
            final(self)@ == walk_step(old(self)@, commit@, optional_view(blob)),
    {
        if !same_optional(&blob, &self.last_blob) {
            let ghost before = commit_views(self.commits@);
            self.commits.push(commit);
            self.last_blob = blob;
            assert(commit_views(self.commits@) =~= before.push(commit@));
        }
    }

    /// The commits found, newest first.
    pub fn finish(self) -> (r: Vec<CommitInfo>)
        ensures
            commit_views(r@) == self@.commits,
    {
        self.commits
    }
}

/// `files` with a file at `path` opened, as yet without hunks.
pub open spec fn with_file(files: Seq<DiffView>, path: Seq<char>) -> Seq<DiffView> {
    files.push(DiffView { path: path, hunks: Seq::empty() })
}

/// `files` with `hunk` opened in the file opened last; unchanged where no
/// file is open.
pub open spec fn with_hunk(files: Seq<DiffView>, hunk: HunkView) -> Seq<DiffView> {
    if files.len() == 0 {
        files
    } else {
        files.drop_last().push(
            DiffView { path: files.last().path, hunks: files.last().hunks.push(hunk) },
        )
    }
}

/// `files` with `line` added to the hunk opened last in the file opened
/// last; unchanged where no hunk is open there.
pub open spec fn with_line(files: Seq<DiffView>, line: LineView) -> Seq<DiffView> {
    if files.len() == 0 || files.last().hunks.len() == 0 {
        files
    } else {
        let hunk = files.last().hunks.last();
        let grown = HunkView {
            old_start: hunk.old_start,
            old_lines: hunk.old_lines,
            new_start: hunk.new_start,
            new_lines: hunk.new_lines,
            lines: hunk.lines.push(line),
        };
        files.drop_last().push(
            DiffView {
                path: files.last().path,
                hunks: files.last().hunks.drop_last().push(grown),
            },
        )
    }
}

/// Puts a diff together from what the repository reports in turn: a file,
/// the hunks of that file, the lines of each hunk.
pub struct DiffBuilder {
    files: Vec<FileDiff>,
}

impl View for DiffBuilder {
    type V = Seq<DiffView>;

    closed spec fn view(&self) -> Seq<DiffView> {
        diff_views(self.files@)
    }
}

impl DiffBuilder {
    /// A diff without files.
    pub fn new() -> (r: Self)
        ensures
            r@ == Seq::<DiffView>::empty(),
    {
        let r = DiffBuilder { files: Vec::new() };
        r
    }

    /// Opens the file at `path`.
    pub fn file(&mut self, path: String)
        ensures
            final(self)@ == with_file(old(self)@, path@),
    {
        let opened = FileDiff { path, hunks: Vec::new() };
        assert(opened@.hunks =~= Seq::<HunkView>::empty());
        self.files.push(opened);
    }

    /// Opens a hunk in the file opened last.
    pub fn hunk(&mut self, old_start: u32, old_lines: u32, new_start: u32, new_lines: u32)
        ensures
            final(self)@ == with_hunk(
                old(self)@,
                HunkView {
                    old_start: old_start,
                    old_lines: old_lines,
                    new_start: new_start,
                    new_lines: new_lines,
                    lines: Seq::empty(),
                },
            ),
    {
        match self.files.pop() {
            Some(last) => {
                let mut last = last;
                let ghost hunks = last@.hunks;
                let opened = DiffHunk { old_start, old_lines, new_start, new_lines, lines: Vec::new() };
                assert(opened@.lines =~= Seq::<LineView>::empty());
                last.hunks.push(opened);
                assert(last@.hunks =~= hunks.push(opened@));
                self.files.push(last);
            },
            None => {
            },
        }
    }

    /// Adds a line to the hunk opened last in the file opened last.
    pub fn line(&mut self, content: String, origin: char)
        ensures
            final(self)@ == with_line(old(self)@, LineView { content: content@, origin: origin }),
    {
        match self.files.pop() {
            Some(last) => {
                let mut last = last;
                let ghost hunks = last@.hunks;
                match last.hunks.pop() {
                    Some(hunk) => {
                        let ghost earlier = last@.hunks;
                        assert(earlier =~= hunks.drop_last());
                        let mut hunk = hunk;
                        let ghost lines = hunk@.lines;
                        let added = DiffLine { content, origin };
                        hunk.lines.push(added);
                        assert(hunk@.lines =~= lines.push(added@));
                        last.hunks.push(hunk);
                        assert(last@.hunks =~= earlier.push(hunk@));
                    },
                    None => {
                    },
                }
                self.files.push(last);
            },
            None => {
            },
        }
    }

    /// The files of the diff, in the order in which they were opened.
    pub fn finish(self) -> (r: Vec<FileDiff>)
        ensures
            diff_views(r@) == self@,
    {
        self.files
    }
}

/// One side of a conflict: its path, where that is valid text, and its
/// content, where that could be read as text.
#[derive(Debug, Clone)]
pub struct ConflictSide {
    pub path: Option<String>,
    pub content: Option<String>,
}

/// The path under which a conflict is reported: that of our side, or else
/// of their side; empty where that side has no path that is valid text, or
/// where neither side is there.
pub open spec fn conflict_path_of(ours: Option<ConflictSide>, theirs: Option<ConflictSide>) -> Seq<
    char,
> {
    let side = if ours is Some {
        ours
    } else {
        theirs
    };
    match side {
        Some(ConflictSide { path: Some(path), content: _ }) => path@,
        _ => Seq::empty(),
    }
}

/// The content of one side of a conflict.
pub open spec fn side_content(side: Option<ConflictSide>) -> Option<Seq<char>> {
    match side {
        Some(ConflictSide { path: _, content: Some(content) }) => Some(content@),
        _ => None,
    }
}

/// The content of one side of a conflict.
fn content_of(side: Option<ConflictSide>) -> (r: Option<String>)
    ensures
        optional_view(r) == side_content(side),
{
    match side {
        Some(ConflictSide { path: _, content }) => content,
        None => None,
    }
}

/// The report of a conflict between `ours` and `theirs` with the common
/// `ancestor`.
pub fn conflict_file(
    ancestor: Option<ConflictSide>,
    ours: Option<ConflictSide>,
    theirs: Option<ConflictSide>,
) -> (r: ConflictFile)
    ensures
        r.path@ == conflict_path_of(ours, theirs),
        optional_view(r.ours) == side_content(ours),
        optional_view(r.theirs) == side_content(theirs),
        optional_view(r.ancestor) == side_content(ancestor),
{
    let path = match &ours {
        Some(side) => match &side.path {
            Some(path) => path.clone(),
            None => String::new(),
        },
        None => match &theirs {
            Some(side) => match &side.path {
                Some(path) => path.clone(),
                None => String::new(),
            },
            None => String::new(),
        },
    };
    ConflictFile {
        path,
        ours: content_of(ours),
        theirs: content_of(theirs),
        ancestor: content_of(ancestor),
    }
}

/// The report of a local branch. A branch without a name in valid text is
/// called `unknown`; one without an upstream, or whose distance to it is
/// not known, is neither ahead nor behind.
pub fn branch_info(
    name: Option<String>,
    is_head: bool,
    upstream: Option<String>,
    ahead_behind: Option<(u32, u32)>,
) -> (r: BranchInfo)
    ensures
        r.name@ == (match name {
            Some(name) => name@,
            None => "unknown"@,
        }),
        r.is_head == is_head,
        r.upstream == upstream,
        r.ahead == (match ahead_behind {
            Some(pair) => pair.0,
            None => 0u32,
        }),
        r.behind == (match ahead_behind {
            Some(pair) => pair.1,
            None => 0u32,
        }),
{
    let name = match name {
        Some(name) => name,
        None => String::from_str("unknown"),
    };
    let (ahead, behind) = match ahead_behind {
        Some(pair) => pair,
        None => (0, 0),
    };
    BranchInfo { name, is_head, upstream, ahead, behind }
}

} // verus!
