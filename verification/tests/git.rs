use gitsidian::git_service::{
    branch_info, branch_ref, commit_info, conflict_file, current_branch, get_status,
    merge_message, plan_merge, push_refspec, short_id, staged_status,
    strip_prefixes, unstaged_status, ConflictSide, DiffBuilder, FileLogWalk, HeadState,
    MergeAnalysis, MergeStep, StatusEntry, StatusFlags,
};
use gitsidian::git_status::{CommitInfo, FileStatusKind};
use gitsidian::strings::same_optional;

fn flags() -> StatusFlags {
    StatusFlags {
        index_new: false,
        index_modified: false,
        index_deleted: false,
        index_renamed: false,
        wt_modified: false,
        wt_new: false,
        wt_deleted: false,
        conflicted: false,
    }
}

fn entry(path: &str, flags: StatusFlags) -> StatusEntry {
    StatusEntry { path: path.to_string(), flags }
}

fn report(entries: &Vec<StatusEntry>) -> Vec<(String, FileStatusKind, bool)> {
    get_status(entries).into_iter().map(|s| (s.path, s.status, s.staged)).collect()
}

#[test]
fn clean_path_has_no_state() {
    assert!(get_status(&vec![entry("a.md", flags())]).is_empty());
    assert!(get_status(&Vec::new()).is_empty());
}

#[test]
fn staged_states() {
    assert_eq!(staged_status(flags()), None);
    assert_eq!(staged_status(StatusFlags { index_new: true, ..flags() }), Some(FileStatusKind::Added));
    assert_eq!(
        staged_status(StatusFlags { index_modified: true, ..flags() }),
        Some(FileStatusKind::Modified)
    );
    assert_eq!(
        staged_status(StatusFlags { index_deleted: true, ..flags() }),
        Some(FileStatusKind::Deleted)
    );
    assert_eq!(
        staged_status(StatusFlags { index_renamed: true, ..flags() }),
        Some(FileStatusKind::Renamed)
    );
    assert_eq!(
        staged_status(StatusFlags { index_new: true, index_modified: true, index_renamed: true, ..flags() }),
        Some(FileStatusKind::Added)
    );
    assert_eq!(
        staged_status(StatusFlags { index_deleted: true, index_renamed: true, ..flags() }),
        Some(FileStatusKind::Deleted)
    );
}

#[test]
fn unstaged_states() {
    assert_eq!(unstaged_status(flags()), None);
    assert_eq!(
        unstaged_status(StatusFlags { wt_modified: true, ..flags() }),
        Some(FileStatusKind::Modified)
    );
    assert_eq!(unstaged_status(StatusFlags { wt_new: true, ..flags() }), Some(FileStatusKind::Untracked));
    assert_eq!(
        unstaged_status(StatusFlags { wt_deleted: true, ..flags() }),
        Some(FileStatusKind::Deleted)
    );
    assert_eq!(
        unstaged_status(StatusFlags { conflicted: true, ..flags() }),
        Some(FileStatusKind::Conflicted)
    );
    assert_eq!(
        unstaged_status(StatusFlags { wt_modified: true, conflicted: true, ..flags() }),
        Some(FileStatusKind::Modified)
    );
    assert_eq!(
        unstaged_status(StatusFlags { wt_deleted: true, conflicted: true, ..flags() }),
        Some(FileStatusKind::Deleted)
    );
}

#[test]
fn a_path_can_be_staged_and_unstaged() {
    let entries = vec![
        entry("a.md", StatusFlags { index_modified: true, wt_modified: true, ..flags() }),
        entry("b.md", StatusFlags { wt_new: true, ..flags() }),
        entry("c.md", flags()),
        entry("d.md", StatusFlags { index_new: true, ..flags() }),
    ];
    assert_eq!(
        report(&entries),
        vec![
            ("a.md".to_string(), FileStatusKind::Modified, true),
            ("a.md".to_string(), FileStatusKind::Modified, false),
            ("b.md".to_string(), FileStatusKind::Untracked, false),
            ("d.md".to_string(), FileStatusKind::Added, true),
        ]
    );
}

#[test]
fn branch_names() {
    let named = HeadState::Resolved { shorthand: Some("feature/x".to_string()) };
    assert_eq!(current_branch(&named), Ok("feature/x".to_string()));
    let detached = HeadState::Resolved { shorthand: None };
    assert_eq!(current_branch(&detached), Ok("HEAD (detached)".to_string()));
    let unborn = HeadState::Unborn { target: Some("refs/heads/trunk".to_string()) };
    assert_eq!(current_branch(&unborn), Ok("trunk (no commits)".to_string()));
    let unread = HeadState::Unborn { target: None };
    assert_eq!(current_branch(&unread), Ok("main (no commits)".to_string()));
    let failed = HeadState::Failed { message: "corrupt".to_string() };
    assert_eq!(current_branch(&failed), Err("corrupt".to_string()));
}

#[test]
fn prefixes_are_stripped_as_often_as_they_occur() {
    for s in ["", "refs/heads/", "refs/heads/a", "refs/heads/refs/heads/b", "xrefs/heads/c", "refs/head"] {
        assert_eq!(strip_prefixes(s, "refs/heads/"), s.trim_start_matches("refs/heads/"));
    }
    assert_eq!(strip_prefixes("aaab", "a"), "b");
    assert_eq!(strip_prefixes("aaab", ""), "aaab");
    assert_eq!(strip_prefixes("ééx", "é"), "x");
}

#[test]
fn references() {
    assert_eq!(branch_ref("main"), "refs/heads/main");
    assert_eq!(push_refspec("main"), "refs/heads/main:refs/heads/main");
    assert_eq!(push_refspec("a/b"), format!("refs/heads/{}:refs/heads/{}", "a/b", "a/b"));
}

#[test]
fn merge_steps() {
    let none = MergeAnalysis { up_to_date: false, fast_forward: false, normal: false };
    assert_eq!(plan_merge(none), MergeStep::Nothing);
    assert_eq!(plan_merge(MergeAnalysis { up_to_date: true, ..none }), MergeStep::UpToDate);
    assert_eq!(plan_merge(MergeAnalysis { fast_forward: true, ..none }), MergeStep::FastForward);
    assert_eq!(plan_merge(MergeAnalysis { normal: true, ..none }), MergeStep::Merge);
    assert_eq!(
        plan_merge(MergeAnalysis { up_to_date: true, fast_forward: true, normal: true }),
        MergeStep::UpToDate
    );
    assert_eq!(
        plan_merge(MergeAnalysis { fast_forward: true, normal: true, ..none }),
        MergeStep::FastForward
    );
    assert_eq!(merge_message(MergeStep::UpToDate), "Already up to date");
    assert_eq!(merge_message(MergeStep::FastForward), "Fast-forward merge");
    assert_eq!(merge_message(MergeStep::Merge), "Merge completed (may have conflicts)");
    assert_eq!(merge_message(MergeStep::Nothing), "Nothing to do");
}

#[test]
fn short_ids() {
    assert_eq!(short_id("0123456789abcdef0123456789abcdef01234567"), "0123456");
    assert_eq!(short_id("0123456"), "0123456");
    assert_eq!(short_id("01234567"), "0123456");
    assert_eq!(short_id("abc"), "abc");
    assert_eq!(short_id(""), "");
}

fn commit(id: &str) -> CommitInfo {
    commit_info(
        id.to_string(),
        format!("message of {}", id),
        "An Author".to_string(),
        "author@example.org".to_string(),
        1_700_000_000,
    )
}

#[test]
fn commit_reports() {
    let c = commit("fedcba9876543210");
    assert_eq!(c.id, "fedcba9876543210");
    assert_eq!(c.short_id, "fedcba9");
    assert_eq!(c.message, "message of fedcba9876543210");
    assert_eq!(c.author, "An Author");
    assert_eq!(c.email, "author@example.org");
    assert_eq!(c.timestamp, 1_700_000_000);
}

#[test]
fn optional_strings() {
    let a = Some("a".to_string());
    let b = Some("b".to_string());
    assert!(same_optional(&a, &a.clone()));
    assert!(same_optional(&None, &None));
    assert!(!same_optional(&a, &b));
    assert!(!same_optional(&a, &None));
    assert!(!same_optional(&None, &b));
}

fn walk(history: &[(&str, Option<&str>)], max_count: usize) -> Vec<String> {
    let mut log = FileLogWalk::new();
    for (id, blob) in history {
        if !log.wants_more(max_count) {
            break;
        }
        log.visit(commit(id), blob.map(|b| b.to_string()));
    }
    log.finish().into_iter().map(|c| c.id).collect()
}

#[test]
fn file_log_keeps_the_commits_in_which_the_file_differs() {
    let history = [
        ("c9", None),
        ("c8", Some("v3")),
        ("c7", Some("v3")),
        ("c6", Some("v2")),
        ("c5", None),
        ("c4", None),
        ("c3", Some("v2")),
        ("c2", Some("v1")),
        ("c1", Some("v1")),
    ];
    assert_eq!(walk(&history, 50), vec!["c8", "c6", "c5", "c3", "c2"]);
    assert_eq!(walk(&history, 3), vec!["c8", "c6", "c5"]);
    assert_eq!(walk(&history, 1), vec!["c8"]);
    assert!(walk(&history, 0).is_empty());
    assert!(walk(&[], 5).is_empty());
    assert!(walk(&[("x", None), ("y", None)], 5).is_empty());
}

#[test]
fn diff_is_put_together_in_order() {
    let mut builder = DiffBuilder::new();
    builder.hunk(9, 9, 9, 9);
    builder.line("before any file".to_string(), ' ');
    builder.file("a.md".to_string());
    builder.line("before any hunk".to_string(), ' ');
    builder.hunk(1, 2, 1, 3);
    builder.line("kept\n".to_string(), ' ');
    builder.line("added\n".to_string(), '+');
    builder.hunk(10, 1, 11, 0);
    builder.line("gone\n".to_string(), '-');
    builder.file("b.md".to_string());
    builder.file("c.md".to_string());
    builder.hunk(5, 0, 5, 1);
    let files = builder.finish();
    assert_eq!(files.len(), 3);
    assert_eq!(files[0].path, "a.md");
    assert_eq!(files[0].hunks.len(), 2);
    let first = &files[0].hunks[0];
    assert_eq!((first.old_start, first.old_lines, first.new_start, first.new_lines), (1, 2, 1, 3));
    let lines: Vec<(String, char)> =
        first.lines.iter().map(|l| (l.content.clone(), l.origin)).collect();
    assert_eq!(lines, vec![("kept\n".to_string(), ' '), ("added\n".to_string(), '+')]);
    let second = &files[0].hunks[1];
    assert_eq!((second.old_start, second.old_lines, second.new_start, second.new_lines), (10, 1, 11, 0));
    assert_eq!(second.lines.len(), 1);
    assert_eq!(second.lines[0].content, "gone\n");
    assert_eq!(second.lines[0].origin, '-');
    assert_eq!(files[1].path, "b.md");
    assert!(files[1].hunks.is_empty());
    assert_eq!(files[2].path, "c.md");
    assert_eq!(files[2].hunks.len(), 1);
    assert!(files[2].hunks[0].lines.is_empty());
}

#[test]
fn empty_diff() {
    assert!(DiffBuilder::new().finish().is_empty());
}

fn side(path: Option<&str>, content: Option<&str>) -> Option<ConflictSide> {
    Some(ConflictSide { path: path.map(|p| p.to_string()), content: content.map(|c| c.to_string()) })
}

#[test]
fn conflicts_are_reported_under_our_path() {
    let c = conflict_file(
        side(Some("base.md"), Some("base")),
        side(Some("ours.md"), Some("mine")),
        side(Some("theirs.md"), Some("yours")),
    );
    assert_eq!(c.path, "ours.md");
    assert_eq!(c.ours, Some("mine".to_string()));
    assert_eq!(c.theirs, Some("yours".to_string()));
    assert_eq!(c.ancestor, Some("base".to_string()));
}

#[test]
fn conflicts_fall_back_to_their_path() {
    let c = conflict_file(None, None, side(Some("theirs.md"), None));
    assert_eq!(c.path, "theirs.md");
    assert_eq!(c.ours, None);
    assert_eq!(c.theirs, None);
    assert_eq!(c.ancestor, None);
    let c = conflict_file(None, side(None, Some("mine")), side(Some("theirs.md"), Some("yours")));
    assert_eq!(c.path, "");
    assert_eq!(c.ours, Some("mine".to_string()));
    let c = conflict_file(side(Some("base.md"), None), None, None);
    assert_eq!(c.path, "");
}

#[test]
fn branch_reports() {
    let b = branch_info(Some("main".to_string()), true, Some("origin/main".to_string()), Some((2, 5)));
    assert_eq!(b.name, "main");
    assert!(b.is_head);
    assert_eq!(b.upstream, Some("origin/main".to_string()));
    assert_eq!((b.ahead, b.behind), (2, 5));
    let b = branch_info(None, false, None, None);
    assert_eq!(b.name, "unknown");
    assert!(!b.is_head);
    assert_eq!(b.upstream, None);
    assert_eq!((b.ahead, b.behind), (0, 0));
}
