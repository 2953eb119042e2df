//! Note identities: how a name, an extension and eligibility for indexing
//! are derived from a forward-slash separated path.

use crate::text::{
    has_prefix, last_index_of, lemma_last_index_of, part, rfind_char, same,
    slice_views, split, split_on, starts_with, to_chars, to_string,
};
use vstd::prelude::*;

verus! {

/// Index of the first character of the last component of `p`: one past its
/// last `/`, or zero.
pub open spec fn component_start(p: Seq<char>) -> int {
    match last_index_of(p, '/') {
        Some(i) => i + 1,
        None => 0,
    }
}

/// The final component of the path `p`.
///
/// Trailing separators and `.` components are passed over; there is no file
/// name where nothing is left or where the path ends in `..`. (A component
/// that does not end in `/` always starts within the path; the bound is
/// spelled out so that the recursion is seen to end.)
pub open spec fn file_name_of(p: Seq<char>) -> Option<Seq<char>>
    decreases p.len(),
{
    if p.len() == 0 {
        None
    } else if p.last() == '/' {
        file_name_of(p.drop_last())
    } else {
        let start = component_start(p);
        let last = p.skip(start);
        if last == seq!['.'] {
            if 0 <= start < p.len() {
                file_name_of(p.take(start))
            } else {
                None
            }
        } else if last == seq!['.', '.'] {
            None
        } else {
            Some(last)
        }
    }
}

/// The file name `name` without its extension: the part before the last `.`,
/// or all of it where it has no `.` or only a leading one.
pub open spec fn stem_of(name: Seq<char>) -> Seq<char> {
    match last_index_of(name, '.') {
        Some(i) => if i > 0 {
            name.take(i)
        } else {
            name
        },
        None => name,
    }
}

/// The extension of the file name `name`: the part after the last `.`, where
/// that `.` is not the first character.
pub open spec fn extension_of(name: Seq<char>) -> Option<Seq<char>> {
    match last_index_of(name, '.') {
        Some(i) => if i > 0 {
            Some(name.skip(i + 1))
        } else {
            None
        },
        None => None,
    }
}

/// The name of the note stored at `path`: the stem of its file name, or the
/// empty name where the path has no file name.
pub open spec fn name_of(path: Seq<char>) -> Seq<char> {
    match file_name_of(path) {
        Some(name) => stem_of(name),
        None => Seq::empty(),
    }
}

/// The extension of the file at `path`.
pub open spec fn path_extension(path: Seq<char>) -> Option<Seq<char>> {
    match file_name_of(path) {
        Some(name) => extension_of(name),
        None => None,
    }
}

/// The extension `md`.
pub open spec fn md() -> Seq<char> {
    seq!['m', 'd']
}

/// The extension `markdown`.
pub open spec fn markdown() -> Seq<char> {
    seq!['m', 'a', 'r', 'k', 'd', 'o', 'w', 'n']
}

/// Whether `ext` is one of the extensions of a note file.
pub open spec fn is_note_extension(ext: Option<Seq<char>>) -> bool {
    ext == Some(md()) || ext == Some(markdown())
}

/// Whether some component of `path` begins with a `.`.
pub open spec fn has_hidden_component(path: Seq<char>) -> bool {
    exists|i: int|
        0 <= i < split_on(path, '/').len() && has_prefix(
            #[trigger] split_on(path, '/')[i],
            seq!['.'],
        )
}

/// Whether the file at the vault-relative `path` is indexed as a note: it has
/// a note extension and none of its components is hidden.
pub open spec fn eligible(path: Seq<char>) -> bool {
    is_note_extension(path_extension(path)) && !has_hidden_component(path)
}

/// The final component of `p`.
pub fn file_name<'a>(p: &'a [char]) -> (r: Option<&'a [char]>)
    ensures
        r is Some <==> file_name_of(p@) is Some,
        r is Some ==> r->0@ == file_name_of(p@)->0,
{
    let mut end: usize = p.len();
    assert(p@.take(end as int) == p@);
    loop
        invariant
            end <= p.len(),
            file_name_of(p@) == file_name_of(p@.take(end as int)),
        decreases end,
    {
        if end == 0 {
            return None;
        }
        let head = part(p, 0, end);
        if head[end - 1] == '/' {
            assert(head@.drop_last() == p@.take(end - 1));
            end -= 1;
        } else {
            proof {
                lemma_last_index_of(head@, '/');
            }
            let start = match rfind_char(head, '/') {
                Some(i) => i + 1,
                None => 0,
            };
            let last = part(head, start, end);
            if last.len() == 1 && last[0] == '.' {
                assert(last@ =~= seq!['.']);
                assert(head@.take(start as int) == p@.take(start as int));
                end = start;
            } else if last.len() == 2 && last[0] == '.' && last[1] == '.' {
                assert(last@ =~= seq!['.', '.']);
                return None;
            } else {
                assert(last@ != seq!['.']) by {}
                assert(last@ != seq!['.', '.']) by {}
                return Some(last);
            }
        }
    }
}

/// The file name `name` without its extension.
pub fn stem<'a>(name: &'a [char]) -> (r: &'a [char])
    ensures
        r@ == stem_of(name@),
{
    match rfind_char(name, '.') {
        Some(i) => if i > 0 {
            part(name, 0, i)
        } else {
            name
        },
        None => name,
    }
}

/// The extension of the file name `name`.
pub fn name_extension<'a>(name: &'a [char]) -> (r: Option<&'a [char]>)
    ensures
        r is Some <==> extension_of(name@) is Some,
        r is Some ==> r->0@ == extension_of(name@)->0,
{
    let n = name.len();
    match rfind_char(name, '.') {
        Some(i) => if i > 0 {
            Some(part(name, i + 1, n))
        } else {
            None
        },
        None => None,
    }
}

/// The name of the note stored at `path`.
pub fn note_name(path: &str) -> (r: String)
    ensures
        r@ == name_of(path@),
{
    let chars = to_chars(path);
    match file_name(chars.as_slice()) {
        Some(name) => to_string(stem(name)),
        None => String::new(),
    }
}

/// The extension of the file at `path`.
pub fn extension(path: &str) -> (r: Option<String>)
    ensures
        r is Some <==> path_extension(path@) is Some,
        r is Some ==> r->0@ == path_extension(path@)->0,
{
    let chars = to_chars(path);
    match file_name(chars.as_slice()) {
        Some(name) => match name_extension(name) {
            Some(ext) => Some(to_string(ext)),
            None => None,
        },
        None => None,
    }
}

/// Whether the file at the vault-relative `path` is indexed as a note.
pub fn is_note_path(path: &str) -> (r: bool)
    ensures
        r == eligible(path@),
{
    let chars = to_chars(path);
    let ext_ok = match file_name(chars.as_slice()) {
        Some(name) => match name_extension(name) {
            Some(ext) => {
                let md_chars = vec!['m', 'd'];
                let markdown_chars = vec!['m', 'a', 'r', 'k', 'd', 'o', 'w', 'n'];
                same(ext, md_chars.as_slice()) || same(ext, markdown_chars.as_slice())
            },
            None => false,
        },
        None => false,
    };
    if !ext_ok {
        return false;
    }
    let pieces = split(chars.as_slice(), '/');
    let dot = vec!['.'];
    let mut i: usize = 0;
    while i < pieces.len()
        invariant
            i <= pieces.len(),
            slice_views(pieces@) == split_on(path@, '/'),
            dot@ == seq!['.'],
            forall|j: int| 0 <= j < i ==> !has_prefix(#[trigger] split_on(path@, '/')[j], seq!['.']),
        decreases pieces.len() - i,
    {
        assert(slice_views(pieces@)[i as int] == pieces@[i as int]@);
        if starts_with(pieces[i], dot.as_slice()) {
            return false;
        }
        i += 1;
    }
    true
}

} // verus!
