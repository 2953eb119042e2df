//! A vault: the directory that holds the notes.

use crate::paths::{file_name, file_name_of, name_of, note_name};
use crate::text::{to_chars, to_string};
use vstd::prelude::*;
use vstd::string::StringExecFns;

verus! {

/// Configuration for a vault.
#[derive(Debug, Clone)]
pub struct VaultConfig {
    pub path: String,
    pub name: String,
    pub is_git_repo: bool,
}

/// The depth of a neighbourhood where none is asked for.
pub const DEFAULT_DEPTH: usize = 2;

/// The name of the vault at `path`: the last component of the path, or the
/// empty name where it has none.
pub open spec fn vault_name_of(path: Seq<char>) -> Seq<char> {
    match file_name_of(path) {
        Some(name) => name,
        None => Seq::empty(),
    }
}

/// `s` with `/` in the place of every `\`.
pub open spec fn slashed(s: Seq<char>) -> Seq<char> {
    Seq::new(
        s.len(),
        |i: int|
            if s[i] == '\\' {
                '/'
            } else {
                s[i]
            },
    )
}

/// The text of a note that has just been created at `path`: a heading with
/// the note's name, and an empty line after it.
pub open spec fn initial_content_of(path: Seq<char>) -> Seq<char> {
    "# "@ + name_of(path) + "\n\n"@
}

/// The configuration of the vault at `path`.
pub fn vault_config(path: &str, is_git_repo: bool) -> (r: VaultConfig)
    ensures
        r.path@ == path@,
        r.name@ == vault_name_of(path@),
        r.is_git_repo == is_git_repo,
{
    let chars = to_chars(path);
    let name = match file_name(chars.as_slice()) {
        Some(name) => to_string(name),
        None => String::new(),
    };
    VaultConfig { path: path.to_owned(), name, is_git_repo }
}

/// The depth of the neighbourhood to show where `depth` was asked for.
pub fn depth_or_default(depth: Option<usize>) -> (r: usize)
    ensures
        r == (match depth {
            Some(d) => d,
            None => DEFAULT_DEPTH,
        }),
{
    match depth {
        Some(d) => d,
        None => DEFAULT_DEPTH,
    }
}

/// `path` with `/` in the place of every `\`.
pub fn to_forward_slashes(path: &str) -> (r: String)
    ensures
        r@ == slashed(path@),
{
    let chars = to_chars(path);
    let mut out: Vec<char> = Vec::new();
    let mut i: usize = 0;
    while i < chars.len()
        invariant
            i <= chars.len(),
            chars@ == path@,
            out@ == slashed(path@).take(i as int),
        decreases chars.len() - i,
    {
        let c = chars[i];
        out.push(if c == '\\' {
            '/'
        } else {
            c
        });
        i += 1;
    }
    to_string(out.as_slice())
}

/// The text of a note that has just been created at `path`.
pub fn initial_content(path: &str) -> (r: String)
    ensures
        r@ == initial_content_of(path@),
{
    let mut r = String::from_str("# ");
    let name = note_name(path);
    r.append(name.as_str());
    r.append("\n\n");
    r
}

} // verus!
