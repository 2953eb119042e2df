//! The tree of files shown beside the notes: which entries of a directory
//! are shown, and in which order.

use crate::note::FileTreeNode;
use crate::paths::{extension_of, name_extension};
use crate::text::{has_prefix, less, lex_less, same, starts_with, to_chars, to_string};
use vstd::prelude::*;

verus! {

/// An entry of a directory, as it was read.
#[derive(Debug, Clone)]
pub struct Listed {
    pub name: String,
    pub is_dir: bool,
}

/// An entry of a directory that is shown; `extension` is empty for a
/// folder.
#[derive(Debug, Clone)]
pub struct TreeEntry {
    pub name: String,
    pub is_dir: bool,
    pub extension: String,
}

/// What a `TreeEntry` stands for.
pub struct TreeEntryView {
    pub name: Seq<char>,
    pub is_dir: bool,
    pub extension: Seq<char>,
}

impl View for TreeEntry {
    type V = TreeEntryView;

    open spec fn view(&self) -> TreeEntryView {
        TreeEntryView { name: self.name@, is_dir: self.is_dir, extension: self.extension@ }
    }
}

/// The views of a sequence of directory entries: name and kind.
pub open spec fn listed_views(entries: Seq<Listed>) -> Seq<(Seq<char>, bool)> {
    Seq::new(entries.len(), |i: int| (entries[i].name@, entries[i].is_dir))
}

/// The views of a sequence of shown entries.
pub open spec fn tree_views(entries: Seq<TreeEntry>) -> Seq<TreeEntryView> {
    Seq::new(entries.len(), |i: int| entries[i]@)
}

/// The order of the entries of a directory: folders first, then by name.
pub open spec fn listed_less(a: (Seq<char>, bool), b: (Seq<char>, bool)) -> bool {
    (a.1 && !b.1) || (a.1 == b.1 && lex_less(a.0, b.0))
}

/// `s` with `e` put in behind the last entry that it does not precede.
pub open spec fn placed(s: Seq<(Seq<char>, bool)>, e: (Seq<char>, bool)) -> Seq<
    (Seq<char>, bool),
>
    decreases s.len(),
{
    if s.len() == 0 {
        seq![e]
    } else if listed_less(e, s.last()) {
        placed(s.drop_last(), e).push(s.last())
    } else {
        s.push(e)
    }
}

/// The entries of `s` in order; entries that do not precede each other keep
/// their order.
pub open spec fn ordered(s: Seq<(Seq<char>, bool)>) -> Seq<(Seq<char>, bool)>
    decreases s.len(),
{
    if s.len() == 0 {
        Seq::empty()
    } else {
        placed(ordered(s.drop_last()), s.last())
    }
}

/// The extension by which a file is judged: that of its name, or the empty
/// one.
pub open spec fn shown_extension(name: Seq<char>) -> Seq<char> {
    match extension_of(name) {
        Some(ext) => ext,
        None => Seq::empty(),
    }
}

/// Whether the entry `e` is shown: not hidden, not a build or package
/// directory, and either a folder or a file with the extension `md`,
/// `markdown` or `txt`.
pub open spec fn is_shown(e: (Seq<char>, bool)) -> bool {
    &&& !has_prefix(e.0, "."@)
    &&& e.0 != "node_modules"@
    &&& e.0 != "target"@
    &&& (e.1 || shown_extension(e.0) == "md"@ || shown_extension(e.0) == "markdown"@
        || shown_extension(e.0) == "txt"@)
}

/// The entry shown for `e`.
pub open spec fn shown_entry(e: (Seq<char>, bool)) -> TreeEntryView {
    TreeEntryView {
        name: e.0,
        is_dir: e.1,
        extension: if e.1 {
            Seq::empty()
        } else {
            shown_extension(e.0)
        },
    }
}

/// The entries of `s` that are shown, in order.
pub open spec fn shown(s: Seq<(Seq<char>, bool)>) -> Seq<TreeEntryView>
    decreases s.len(),
{
    if s.len() == 0 {
        Seq::empty()
    } else if is_shown(s.last()) {
        shown(s.drop_last()).push(shown_entry(s.last()))
    } else {
        shown(s.drop_last())
    }
}

/// What is shown of a directory with the entries `entries`.
pub open spec fn arranged(entries: Seq<(Seq<char>, bool)>) -> Seq<TreeEntryView> {
    shown(ordered(entries))
}

/// Whether no entry of `s` precedes an earlier one.
pub open spec fn in_order(s: Seq<(Seq<char>, bool)>) -> bool {
    forall|i: int, j: int| 0 <= i < j < s.len() ==> !listed_less(s[j], s[i])
}

/// Where every entry from `i` on comes after `e` and the one before `i`
/// does not, `e` is placed at `i`.
pub proof fn lemma_placed_at(s: Seq<(Seq<char>, bool)>, e: (Seq<char>, bool), i: int)
    requires
        0 <= i <= s.len(),
        i > 0 ==> !listed_less(e, s[i - 1]),
        forall|j: int| i <= j < s.len() ==> listed_less(e, #[trigger] s[j]),
    ensures
        placed(s, e) == s.insert(i, e),
    decreases s.len(),
{
    if i < s.len() {
        lemma_placed_at(s.drop_last(), e, i);
    }
}

/// Folders come before files, and among each the names are in order: no
/// entry precedes an earlier one. The ordered entries are the given ones,
/// each as often as given.
pub proof fn lemma_ordered(s: Seq<(Seq<char>, bool)>)
    ensures
        in_order(ordered(s)),
        ordered(s).to_multiset() == s.to_multiset(),
        ordered(s).len() == s.len(),
    decreases s.len(),
{
    broadcast use {vstd::seq_lib::group_seq_properties, vstd::multiset::group_multiset_properties};

    if s.len() > 0 {
        lemma_ordered(s.drop_last());
        lemma_placed(ordered(s.drop_last()), s.last());
        assert(s.drop_last().push(s.last()) =~= s);
    }
}

/// Placing an entry keeps the order and adds the entry.
pub proof fn lemma_placed(s: Seq<(Seq<char>, bool)>, e: (Seq<char>, bool))
    requires
        in_order(s),
    ensures
        in_order(placed(s, e)),
        placed(s, e).to_multiset() == s.to_multiset().insert(e),
        placed(s, e).len() == s.len() + 1,
        forall|x: (Seq<char>, bool)| placed(s, e).contains(x) ==> s.contains(x) || x == e,
    decreases s.len(),
{
    broadcast use {vstd::seq_lib::group_seq_properties, vstd::multiset::group_multiset_properties};

    let r = placed(s, e);
    if s.len() == 0 {
        assert(r.to_multiset() =~= s.to_multiset().insert(e));
        assert forall|x: (Seq<char>, bool)| r.contains(x) implies s.contains(x) || x == e by {
            let k = choose|k: int| 0 <= k < r.len() && r[k] == x;
        }
    } else if listed_less(e, s.last()) {
        let t = s.drop_last();
        let inner = placed(t, e);
        lemma_placed(t, e);
        assert(t.push(s.last()) =~= s);
        assert(r.to_multiset() =~= s.to_multiset().insert(e));
        assert forall|i: int, j: int| 0 <= i < j < r.len() implies !listed_less(r[j], r[i]) by {
            if j == inner.len() {
                assert(inner.contains(inner[i]));
                if t.contains(inner[i]) {
                    let k = choose|k: int| 0 <= k < t.len() && t[k] == inner[i];
                    assert(!listed_less(s[s.len() - 1], s[k]));
                } else {
                    lemma_listed_asymmetric(e, s.last());
                }
            } else {
                assert(!listed_less(inner[j], inner[i]));
            }
        }
        assert forall|x: (Seq<char>, bool)| r.contains(x) implies s.contains(x) || x == e by {
            let k = choose|k: int| 0 <= k < r.len() && r[k] == x;
            if k < inner.len() {
                assert(inner.contains(x));
                if t.contains(x) {
                    let m = choose|m: int| 0 <= m < t.len() && t[m] == x;
                    assert(s[m] == x);
                }
            } else {
                assert(s[s.len() - 1] == x);
            }
        }
    } else {
        assert(r.to_multiset() =~= s.to_multiset().insert(e));
        assert forall|i: int, j: int| 0 <= i < j < r.len() implies !listed_less(r[j], r[i]) by {
            if j == s.len() && i < s.len() - 1 {
                if listed_less(e, s[i]) {
                    lemma_listed_negatively_transitive(e, s[i], s.last());
                }
            }
        }
        assert forall|x: (Seq<char>, bool)| r.contains(x) implies s.contains(x) || x == e by {
            let k = choose|k: int| 0 <= k < r.len() && r[k] == x;
            if k < s.len() {
                assert(s[k] == x);
            }
        }
    }
}

/// No two entries precede each other.
pub proof fn lemma_listed_asymmetric(a: (Seq<char>, bool), b: (Seq<char>, bool))
    requires
        listed_less(a, b),
    ensures
        !listed_less(b, a),
{
    if a.1 == b.1 {
        crate::text::lemma_lex_asymmetric(a.0, b.0);
    }
}

/// Where `a` precedes `b`, it precedes `c` or `c` precedes `b`.
pub proof fn lemma_listed_negatively_transitive(
    a: (Seq<char>, bool),
    b: (Seq<char>, bool),
    c: (Seq<char>, bool),
)
    requires
        listed_less(a, b),
    ensures
        listed_less(a, c) || listed_less(c, b),
{
    crate::text::lemma_lex_total(a.0, c.0);
    crate::text::lemma_lex_total(c.0, b.0);
    if a.1 == b.1 && b.1 == c.1 {
        if !lex_less(a.0, c.0) && !lex_less(c.0, b.0) && a.0 != c.0 && c.0 != b.0 {
            crate::text::lemma_lex_transitive(c.0, a.0, b.0);
            crate::text::lemma_lex_transitive(a.0, b.0, c.0);
            crate::text::lemma_lex_asymmetric(a.0, c.0);
        }
    }
}

/// The views of a sequence of entries held as characters.
pub open spec fn keyed_views(keys: Seq<(Vec<char>, bool)>) -> Seq<(Seq<char>, bool)> {
    Seq::new(keys.len(), |i: int| (keys[i].0@, keys[i].1))
}

/// Whether the entry `a` precedes the entry `b`.
pub fn comes_first(a: &(Vec<char>, bool), b: &(Vec<char>, bool)) -> (r: bool)
    ensures
        r == listed_less((a.0@, a.1), (b.0@, b.1)),
{
    (a.1 && !b.1) || (a.1 == b.1 && less(a.0.as_slice(), b.0.as_slice()))
}

/// Puts `e` in its place in the ordered `sorted`.
pub fn place(sorted: &mut Vec<(Vec<char>, bool)>, e: (Vec<char>, bool))
    ensures
        keyed_views(final(sorted)@) == placed(keyed_views(old(sorted)@), (e.0@, e.1)),
{
    let ghost before = keyed_views(sorted@);
    let ghost ev = (e.0@, e.1);
    let mut i: usize = sorted.len();
    loop
        invariant
            i <= sorted.len(),
            keyed_views(sorted@) == before,
            ev == (e.0@, e.1),
            forall|j: int| i <= j < before.len() ==> listed_less(ev, #[trigger] before[j]),
        ensures
            i > 0 ==> !listed_less(ev, before[i - 1]),
        decreases i,
    {
        if i == 0 {
            break ;
        }
        if !comes_first(&e, &sorted[i - 1]) {
            break ;
        }
        i -= 1;
    }
    proof {
        lemma_placed_at(before, ev, i as int);
    }
    sorted.insert(i, e);
}

/// The entry shown for the one named `name`, if it is shown.
pub fn show(name: &[char], is_dir: bool) -> (r: Option<TreeEntry>)
    ensures
        r is Some <==> is_shown((name@, is_dir)),
        r is Some ==> r->0@ == shown_entry((name@, is_dir)),
{
    let dot = to_chars(".");
    let packages = to_chars("node_modules");
    let build = to_chars("target");
    if starts_with(name, dot.as_slice()) || same(name, packages.as_slice()) || same(
        name,
        build.as_slice(),
    ) {
        return None;
    }
    if is_dir {
        return Some(TreeEntry { name: to_string(name), is_dir: true, extension: String::new() });
    }
    let empty: Vec<char> = Vec::new();
    let ext: &[char] = match name_extension(name) {
        Some(ext) => ext,
        None => empty.as_slice(),
    };
    let md = to_chars("md");
    let markdown = to_chars("markdown");
    let txt = to_chars("txt");
    if same(ext, md.as_slice()) || same(ext, markdown.as_slice()) || same(ext, txt.as_slice()) {
        Some(TreeEntry { name: to_string(name), is_dir: false, extension: to_string(ext) })
    } else {
        None
    }
}

/// What is shown of a directory with the entries `entries`: folders first,
/// then files, each by name; without hidden entries, build and package
/// directories, and files that are neither notes nor plain text.
pub fn arrange(entries: &Vec<Listed>) -> (r: Vec<TreeEntry>)
    ensures
        tree_views(r@) == arranged(listed_views(entries@)),
{
    let mut sorted: Vec<(Vec<char>, bool)> = Vec::new();
    let mut i: usize = 0;
    while i < entries.len()
        invariant
            i <= entries.len(),
            keyed_views(sorted@) == ordered(listed_views(entries@).take(i as int)),
        decreases entries.len() - i,
    {
        proof {
            let head = listed_views(entries@).take(i + 1);
            assert(head.drop_last() =~= listed_views(entries@).take(i as int));
        }
        place(&mut sorted, (to_chars(entries[i].name.as_str()), entries[i].is_dir));
        i += 1;
    }
    assert(listed_views(entries@).take(entries.len() as int) =~= listed_views(entries@));
    let mut out: Vec<TreeEntry> = Vec::new();
    let mut k: usize = 0;
    while k < sorted.len()
        invariant
            k <= sorted.len(),
            tree_views(out@) == shown(keyed_views(sorted@).take(k as int)),
        decreases sorted.len() - k,
    {
        proof {
            let head = keyed_views(sorted@).take(k + 1);
            assert(head.drop_last() =~= keyed_views(sorted@).take(k as int));
        }
        match show(sorted[k].0.as_slice(), sorted[k].1) {
            Some(entry) => {
                out.push(entry);
            },
            None => {},
        }
        k += 1;
    }
    assert(keyed_views(sorted@).take(sorted.len() as int) =~= keyed_views(sorted@));
    out
}

/// The node of the tree for the shown entry `entry` at the vault-relative
/// `path`; `children` are the nodes below it where it is a folder.
pub fn tree_node(entry: TreeEntry, path: String, children: Vec<FileTreeNode>) -> (r: FileTreeNode)
    ensures
        entry.is_dir ==> r == (FileTreeNode::Folder {
            name: entry.name,
            path: path,
            children: children,
        }),
        !entry.is_dir ==> r == (FileTreeNode::File {
            name: entry.name,
            path: path,
            extension: entry.extension,
        }),
{
    if entry.is_dir {
        FileTreeNode::Folder { name: entry.name, path, children }
    } else {
        FileTreeNode::File { name: entry.name, path, extension: entry.extension }
    }
}

} // verus!
