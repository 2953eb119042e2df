//! Which changes in the vault's directory are passed on, and as what.

use crate::text::{ends_with, has_prefix, has_suffix, starts_with, to_chars};
use crate::vault::{slashed, to_forward_slashes};
use vstd::prelude::*;

verus! {

/// What was seen to happen to some paths.
#[derive(Debug, Clone, Copy)]
pub enum ChangeKind {
    Create,
    Modify,
    Remove,
    /// Anything else; not passed on.
    Other,
}

/// A change of note files that is passed on.
#[derive(Debug, Clone)]
pub struct FileChangeEvent {
    pub kind: String,
    pub paths: Vec<String>,
}

/// Whether a change of the vault-relative `path` is passed on: it is not
/// under version control's own directory and has a note extension.
pub open spec fn watched(path: Seq<char>) -> bool {
    !has_prefix(path, ".git"@) && (has_suffix(path, ".md"@) || has_suffix(path, ".markdown"@))
}

/// Those of `paths`, with forward slashes, that are passed on.
pub open spec fn watched_paths(paths: Seq<Seq<char>>) -> Seq<Seq<char>>
    decreases paths.len(),
{
    if paths.len() == 0 {
        Seq::empty()
    } else {
        let rest = watched_paths(paths.drop_last());
        if watched(slashed(paths.last())) {
            rest.push(slashed(paths.last()))
        } else {
            rest
        }
    }
}

/// The word under which a change of kind `kind` is passed on.
pub open spec fn kind_word(kind: ChangeKind) -> Option<Seq<char>> {
    match kind {
        ChangeKind::Create => Some("create"@),
        ChangeKind::Modify => Some("modify"@),
        ChangeKind::Remove => Some("remove"@),
        ChangeKind::Other => None,
    }
}

/// Whether a change of the vault-relative `path` is passed on.
pub fn is_watched(path: &str) -> (r: bool)
    ensures
        r == watched(path@),
{
    let chars = to_chars(path);
    let git = to_chars(".git");
    let md = to_chars(".md");
    let markdown = to_chars(".markdown");
    !starts_with(chars.as_slice(), git.as_slice()) && (ends_with(chars.as_slice(), md.as_slice())
        || ends_with(chars.as_slice(), markdown.as_slice()))
}

/// The event that is passed on for a change of kind `kind` to the
/// vault-relative paths `paths`: none where no path is watched, and none
/// for a change that is neither a creation, a modification nor a removal.
pub fn change_event(kind: ChangeKind, paths: &Vec<String>) -> (r: Option<FileChangeEvent>)
    ensures
        r is Some <==> (watched_paths(paths.deep_view()).len() > 0 && kind_word(kind) is Some),
        r is Some ==> r->0.kind@ == kind_word(kind)->0 && r->0.paths.deep_view() == watched_paths(
            paths.deep_view(),
        ),
{
    let mut kept: Vec<String> = Vec::new();
    let mut i: usize = 0;
    while i < paths.len()
        invariant
            i <= paths.len(),
            kept.deep_view() == watched_paths(paths.deep_view().take(i as int)),
        decreases paths.len() - i,
    {
        proof {
            let head = paths.deep_view().take(i + 1);
            assert(head.drop_last() =~= paths.deep_view().take(i as int));
        }
        let path = to_forward_slashes(paths[i].as_str());
        if is_watched(path.as_str()) {
            kept.push(path);
        }
        i += 1;
    }
    assert(paths.deep_view().take(paths.len() as int) =~= paths.deep_view());
    if kept.len() == 0 {
        return None;
    }
    let word = match kind {
        ChangeKind::Create => "create",
        ChangeKind::Modify => "modify",
        ChangeKind::Remove => "remove",
        ChangeKind::Other => {
            return None;
        },
    };
    Some(FileChangeEvent { kind: word.to_owned(), paths: kept })
}

} // verus!
