//! The note parser: wikilinks, tags and front-matter fields of a note's text.
//!
//! Parsing never fails. Text that is not well formed yields fewer facts: a
//! `[[` without its `]]` yields no link, a front-matter block without its
//! closing line yields no field.

use crate::strings::{absorb, absorbed, lemma_absorbed_concat, lemma_absorbed_members};
use crate::table::{distinct_keys, inserted, lemma_inserted, lemma_position_of, lookup, Table};
use crate::text::{
    find, find_char, find_from, first_index_of, first_match, first_match_from, has_prefix,
    is_tag_char, is_whitespace, lemma_first_index_of, lemma_leading_run,
    lemma_trailing_run, match_at, matches_at, part, same, slice_views, split, split_on,
    split_words, starts_with, strip, strip_leading, strip_trailing, stripped, stripped_leading,
    stripped_trailing, to_chars, to_string, trim, trim_start, trimmed,
    trimmed_start, words, CharClass,
};
use vstd::prelude::*;

verus! {

/// The line `---` that opens a front-matter block.
pub open spec fn fence() -> Seq<char> {
    seq!['-', '-', '-']
}

/// What ends a front-matter block: a line break followed by `---`.
pub open spec fn closing_fence() -> Seq<char> {
    seq!['\n', '-', '-', '-']
}

/// What opens a wikilink.
pub open spec fn link_open() -> Seq<char> {
    seq!['[', '[']
}

/// What closes a wikilink.
pub open spec fn link_close() -> Seq<char> {
    seq![']', ']']
}

/// The front-matter key whose value lists tags.
pub open spec fn tags_key() -> Seq<char> {
    seq!['t', 'a', 'g', 's']
}

/// The front-matter block of `text` and the body after it, where `text`
/// begins, after white space, with a fenced block that is closed.
pub open spec fn front_matter(text: Seq<char>) -> Option<(Seq<char>, Seq<char>)> {
    let t = trimmed_start(text);
    if has_prefix(t, fence()) {
        let after = t.skip(3);
        match first_match(after, closing_fence()) {
            Some(end) => Some((after.take(end), after.skip(end + 4))),
            None => None,
        }
    } else {
        None
    }
}

/// The text in which inline tags are looked for: what follows the
/// front-matter block, or all of `text` where it has no closed block.
pub open spec fn body_of(text: Seq<char>) -> Seq<char> {
    match front_matter(text) {
        Some(split) => split.1,
        None => text,
    }
}

/// The target of a wikilink whose brackets hold `inner`: what stands before
/// the first `|`, trimmed; none where that is empty.
pub open spec fn link_target(inner: Seq<char>) -> Option<Seq<char>> {
    let head = match first_index_of(inner, '|') {
        Some(i) => inner.take(i),
        None => inner,
    };
    if trimmed(head).len() > 0 {
        Some(trimmed(head))
    } else {
        None
    }
}

/// The link targets of `text` from index `from` on, in order and with
/// repetitions. A `[[` is matched with the nearest `]]` after it; without
/// one, it and all that follows yield nothing. (A match of `]]` from
/// `from + 2` on always lies within these bounds; they are spelled out so
/// that the recursion is seen to end.)
pub open spec fn links_from(text: Seq<char>, from: int) -> Seq<Seq<char>>
    decreases text.len() - from,
{
    if from < 0 || from >= text.len() {
        Seq::empty()
    } else if match_at(text, link_open(), from) {
        match first_match_from(text, link_close(), from + 2) {
            Some(close) => if from + 2 <= close && close + 2 <= text.len() {
                let found = match link_target(text.subrange(from + 2, close)) {
                    Some(target) => seq![target],
                    None => Seq::empty(),
                };
                found + links_from(text, close + 2)
            } else {
                Seq::empty()
            },
            None => Seq::empty(),
        }
    } else {
        links_from(text, from + 1)
    }
}

/// The link targets of `text`.
pub open spec fn links_of(text: Seq<char>) -> Seq<Seq<char>> {
    links_from(text, 0)
}

/// The key and the value of a front-matter line: the trimmed parts before
/// and after its first `:`. Blank lines, lines that begin with `#` and lines
/// without a `:` hold none.
pub open spec fn entry_of(line: Seq<char>) -> Option<(Seq<char>, Seq<char>)> {
    let l = trimmed(line);
    if l.len() == 0 || l[0] == '#' {
        None
    } else {
        match first_index_of(l, ':') {
            Some(i) => Some((trimmed(l.take(i)), trimmed(l.skip(i + 1)))),
            None => None,
        }
    }
}

/// One element of a tag list: trimmed, then without surrounding double and
/// single quotes.
pub open spec fn tag_item(piece: Seq<char>) -> Seq<char> {
    stripped(stripped(trimmed(piece), CharClass::Exactly('"')), CharClass::Exactly('\''))
}

/// The non-empty tag items among `pieces`, in order.
pub open spec fn tags_in(pieces: Seq<Seq<char>>) -> Seq<Seq<char>>
    decreases pieces.len(),
{
    if pieces.len() == 0 {
        Seq::empty()
    } else {
        let rest = tags_in(pieces.drop_last());
        if tag_item(pieces.last()).len() > 0 {
            rest.push(tag_item(pieces.last()))
        } else {
            rest
        }
    }
}

/// The tags that the value of a `tags` entry declares: the value without
/// leading `[` and trailing `]`, split at commas.
pub open spec fn declared_tags(value: Seq<char>) -> Seq<Seq<char>> {
    let list = stripped_trailing(
        stripped_leading(value, CharClass::Exactly('[')),
        CharClass::Exactly(']'),
    );
    tags_in(split_on(list, ','))
}

/// `base` after the entries of `lines` other than `tags` have been stored in
/// it, line by line; a later entry replaces an earlier one with its key.
pub open spec fn with_fields(base: Seq<(Seq<char>, Seq<char>)>, lines: Seq<Seq<char>>) -> Seq<
    (Seq<char>, Seq<char>),
>
    decreases lines.len(),
{
    if lines.len() == 0 {
        base
    } else {
        let rest = with_fields(base, lines.drop_last());
        match entry_of(lines.last()) {
            Some(entry) => if entry.0 == tags_key() {
                rest
            } else {
                inserted(rest, entry.0, entry.1)
            },
            None => rest,
        }
    }
}

/// The tags that the `tags` entries of `lines` declare, in order and with
/// repetitions.
pub open spec fn tags_declared(lines: Seq<Seq<char>>) -> Seq<Seq<char>>
    decreases lines.len(),
{
    if lines.len() == 0 {
        Seq::empty()
    } else {
        let rest = tags_declared(lines.drop_last());
        match entry_of(lines.last()) {
            Some(entry) => if entry.0 == tags_key() {
                rest + declared_tags(entry.1)
            } else {
                rest
            },
            None => rest,
        }
    }
}

/// The lines of the front-matter block of `text`; none where it has no
/// closed block.
pub open spec fn front_lines(text: Seq<char>) -> Seq<Seq<char>> {
    match front_matter(text) {
        Some(split) => split_on(split.0, '\n'),
        None => Seq::empty(),
    }
}

/// The front-matter fields of `text`.
pub open spec fn fields_of(text: Seq<char>) -> Seq<(Seq<char>, Seq<char>)> {
    with_fields(Seq::empty(), front_lines(text))
}

/// The tags that the front matter of `text` declares, with repetitions.
pub open spec fn front_tags(text: Seq<char>) -> Seq<Seq<char>> {
    tags_declared(front_lines(text))
}

/// The tag that the word `word` stands for: a word of more than one
/// character that begins with `#`, without its leading `#`s and without
/// what follows its last tag character; none where nothing is left.
pub open spec fn tag_of(word: Seq<char>) -> Option<Seq<char>> {
    if word.len() > 1 && word[0] == '#' {
        let tag = stripped_trailing(
            stripped_leading(word, CharClass::Exactly('#')),
            CharClass::TagPunctuation,
        );
        if tag.len() > 0 {
            Some(tag)
        } else {
            None
        }
    } else {
        None
    }
}

/// The tags that `words` stand for, in order and with repetitions.
pub open spec fn tags_among(words: Seq<Seq<char>>) -> Seq<Seq<char>>
    decreases words.len(),
{
    if words.len() == 0 {
        Seq::empty()
    } else {
        let rest = tags_among(words.drop_last());
        match tag_of(words.last()) {
            Some(tag) => rest.push(tag),
            None => rest,
        }
    }
}

/// The inline tags of `text`, with repetitions: those of the words of its
/// body.
pub open spec fn inline_tags(text: Seq<char>) -> Seq<Seq<char>> {
    tags_among(words(body_of(text)))
}

/// The tags of `text`: those its front matter declares, then its inline
/// tags, each once.
pub open spec fn tags_of(text: Seq<char>) -> Seq<Seq<char>> {
    absorbed(Seq::empty(), front_tags(text) + inline_tags(text))
}

/// What a `ParsedNote` stands for.
pub struct ParsedView {
    pub links: Seq<Seq<char>>,
    pub tags: Seq<Seq<char>>,
    pub frontmatter: Seq<(Seq<char>, Seq<char>)>,
}

/// What parsing `text` yields.
pub open spec fn parsed(text: Seq<char>) -> ParsedView {
    ParsedView { links: links_of(text), tags: tags_of(text), frontmatter: fields_of(text) }
}

/// A text without a closed front-matter block has no front-matter field and
/// declares no tag: its tags are the inline tags of the whole text.
pub proof fn lemma_without_front_matter(text: Seq<char>)
    requires
        front_matter(text) is None,
    ensures
        parsed(text).frontmatter == Seq::<(Seq<char>, Seq<char>)>::empty(),
        front_tags(text) == Seq::<Seq<char>>::empty(),
        body_of(text) == text,
        parsed(text).tags == absorbed(Seq::empty(), tags_among(words(text))),
{
}

/// No tag is listed twice, and no front-matter key occurs twice.
pub proof fn lemma_parsed_distinct(text: Seq<char>)
    ensures
        parsed(text).tags.no_duplicates(),
        distinct_keys(parsed(text).frontmatter),
{
    lemma_absorbed_members(Seq::empty(), front_tags(text) + inline_tags(text));
    lemma_with_fields_distinct(Seq::empty(), front_lines(text));
}

/// Storing fields keeps the keys distinct.
pub proof fn lemma_with_fields_distinct(base: Seq<(Seq<char>, Seq<char>)>, lines: Seq<Seq<char>>)
    requires
        distinct_keys(base),
    ensures
        distinct_keys(with_fields(base, lines)),
    decreases lines.len(),
{
    if lines.len() > 0 {
        lemma_with_fields_distinct(base, lines.drop_last());
        match entry_of(lines.last()) {
            Some(entry) => {
                lemma_inserted(with_fields(base, lines.drop_last()), entry.0, entry.1);
            },
            None => {},
        }
    }
}

/// What every link target is: not empty, without white space at either
/// end, and without `|`.
pub open spec fn is_link_target(target: Seq<char>) -> bool {
    &&& target.len() > 0
    &&& !is_whitespace(target[0])
    &&& !is_whitespace(target.last())
    &&& !target.contains('|')
}

/// What is read from between the brackets of a wikilink is a link target.
pub proof fn lemma_link_target(inner: Seq<char>)
    ensures
        link_target(inner) is Some ==> is_link_target(link_target(inner)->0),
{
    if link_target(inner) is Some {
        let head = match first_index_of(inner, '|') {
            Some(i) => inner.take(i),
            None => inner,
        };
        lemma_first_index_of(inner, '|');
        lemma_leading_run(head, CharClass::Whitespace);
        lemma_trailing_run(stripped_leading(head, CharClass::Whitespace), CharClass::Whitespace);
    }
}

/// Every link of a text is a link target.
pub proof fn lemma_links(text: Seq<char>, from: int)
    ensures
        forall|k: int|
            0 <= k < links_from(text, from).len() ==> is_link_target(
                #[trigger] links_from(text, from)[k],
            ),
    decreases text.len() - from,
{
    if from < 0 || from >= text.len() {
        // Nothing is left to scan.
    } else if match_at(text, link_open(), from) {
        match first_match_from(text, link_close(), from + 2) {
            Some(close) => {
                if from + 2 <= close && close + 2 <= text.len() {
                    let inner = text.subrange(from + 2, close);
                    lemma_link_target(inner);
                    lemma_links(text, close + 2);
                    let found: Seq<Seq<char>> = match link_target(inner) {
                        Some(target) => seq![target],
                        None => Seq::empty(),
                    };
                    let rest = links_from(text, close + 2);
                    assert forall|k: int| 0 <= k < (found + rest).len() implies is_link_target(
                        #[trigger] (found + rest)[k],
                    ) by {}
                }
            },
            None => {},
        }
    } else {
        lemma_links(text, from + 1);
        assert(links_from(text, from) == links_from(text, from + 1));
    }
}

/// An inline tag is not empty, does not begin with `#`, and ends with a
/// character that may end a tag.
pub proof fn lemma_tag_of(word: Seq<char>)
    ensures
        tag_of(word) is Some ==> {
            let tag = tag_of(word)->0;
            &&& tag.len() > 0
            &&& tag[0] != '#'
            &&& is_tag_char(tag.last())
        },
{
    if tag_of(word) is Some {
        lemma_leading_run(word, CharClass::Exactly('#'));
        lemma_trailing_run(
            stripped_leading(word, CharClass::Exactly('#')),
            CharClass::TagPunctuation,
        );
    }
}

/// Whether none of `items` is empty.
pub open spec fn none_empty(items: Seq<Seq<char>>) -> bool {
    forall|k: int| 0 <= k < items.len() ==> (#[trigger] items[k]).len() > 0
}

/// No tag item that is kept is empty.
pub proof fn lemma_tags_in(pieces: Seq<Seq<char>>)
    ensures
        none_empty(tags_in(pieces)),
    decreases pieces.len(),
{
    if pieces.len() > 0 {
        lemma_tags_in(pieces.drop_last());
        let rest = tags_in(pieces.drop_last());
        assert forall|k: int| 0 <= k < tags_in(pieces).len() implies (#[trigger] tags_in(
            pieces,
        )[k]).len() > 0 by {
            if k < rest.len() {
                assert(tags_in(pieces)[k] == rest[k]);
            }
        }
    }
}

/// No declared tag is empty.
pub proof fn lemma_tags_declared(lines: Seq<Seq<char>>)
    ensures
        none_empty(tags_declared(lines)),
    decreases lines.len(),
{
    if lines.len() > 0 {
        lemma_tags_declared(lines.drop_last());
        let rest = tags_declared(lines.drop_last());
        match entry_of(lines.last()) {
            Some(entry) => {
                if entry.0 == tags_key() {
                    let more = declared_tags(entry.1);
                    let list = stripped_trailing(
                        stripped_leading(entry.1, CharClass::Exactly('[')),
                        CharClass::Exactly(']'),
                    );
                    lemma_tags_in(split_on(list, ','));
                    assert forall|k: int| 0 <= k < (rest + more).len() implies (#[trigger] (rest
                        + more)[k]).len() > 0 by {
                        if k < rest.len() {
                            assert((rest + more)[k] == rest[k]);
                        } else {
                            assert((rest + more)[k] == more[k - rest.len()]);
                        }
                    }
                }
            },
            None => {},
        }
    }
}

/// No inline tag is empty.
pub proof fn lemma_tags_among(words: Seq<Seq<char>>)
    ensures
        none_empty(tags_among(words)),
    decreases words.len(),
{
    if words.len() > 0 {
        lemma_tags_among(words.drop_last());
        let rest = tags_among(words.drop_last());
        assert forall|k: int| 0 <= k < tags_among(words).len() implies (#[trigger] tags_among(
            words,
        )[k]).len() > 0 by {
            if k < rest.len() {
                assert(tags_among(words)[k] == rest[k]);
            }
        }
    }
}

/// No tag of a text is empty.
pub proof fn lemma_tags(text: Seq<char>)
    ensures
        none_empty(tags_of(text)),
{
    let all = front_tags(text) + inline_tags(text);
    lemma_tags_declared(front_lines(text));
    lemma_tags_among(words(body_of(text)));
    lemma_absorbed_members(Seq::empty(), all);
    assert forall|k: int| 0 <= k < tags_of(text).len() implies (#[trigger] tags_of(text)[k]).len()
        > 0 by {
        let tag = tags_of(text)[k];
        assert(tags_of(text).contains(tag));
        assert(!Seq::<Seq<char>>::empty().contains(tag));
        let i = choose|i: int| 0 <= i < all.len() && all[i] == tag;
        if i < front_tags(text).len() {
            assert(all[i] == front_tags(text)[i]);
        } else {
            assert(all[i] == inline_tags(text)[i - front_tags(text).len()]);
        }
    }
}

/// A `#` alone is no tag, and neither is a word that does not begin with
/// `#`.
pub proof fn lemma_no_tag(word: Seq<char>)
    ensures
        word.len() <= 1 ==> tag_of(word) is None,
        word.len() > 0 && word[0] != '#' ==> tag_of(word) is None,
        tag_of(seq!['#']) is None,
{
}

/// The front-matter fields of a note: string values by string keys, in the
/// order in which the keys first occur.
#[derive(Debug)]
pub struct Frontmatter {
    fields: Table<String>,
}

impl View for Frontmatter {
    type V = Seq<(Seq<char>, Seq<char>)>;

    closed spec fn view(&self) -> Self::V {
        self.fields@
    }
}

impl Frontmatter {
    /// No fields.
    pub fn new() -> (r: Self)
        ensures
            r@ == Seq::<(Seq<char>, Seq<char>)>::empty(),
    {
        Frontmatter { fields: Table::new() }
    }

    /// The number of fields; no two of them have the same key.
    pub fn len(&self) -> (n: usize)
        ensures
            n == self@.len(),
            distinct_keys(self@),
    {
        self.fields.len()
    }

    /// Whether there is no field.
    pub fn is_empty(&self) -> (r: bool)
        ensures
            r == (self@.len() == 0),
    {
        self.fields.len() == 0
    }

    /// The value of the field `key`.
    pub fn get(&self, key: &str) -> (r: Option<&String>)
        ensures
            r is Some <==> lookup(self@, key@) is Some,
            r is Some ==> r->0@ == lookup(self@, key@)->0,
    {
        self.fields.get(key)
    }

    /// The key of the field at `i`.
    pub fn key_at(&self, i: usize) -> (r: &String)
        requires
            i < self@.len(),
        ensures
            r@ == self@[i as int].0,
    {
        self.fields.key_at(i)
    }

    /// The value of the field at `i`.
    pub fn value_at(&self, i: usize) -> (r: &String)
        requires
            i < self@.len(),
        ensures
            r@ == self@[i as int].1,
    {
        self.fields.value_at(i)
    }

    /// Stores `value` under `key`, in the place of the field that had the
    /// key or at the end where there was none.
    pub fn insert(&mut self, key: String, value: String)
        ensures
            final(self)@ == inserted(old(self)@, key@, value@),
    {
        self.fields.insert(key, value);
    }
}

impl Clone for Frontmatter {
    /// The same fields in the same order.
    fn clone(&self) -> (r: Self)
        ensures
            r@ == self@,
    {
        let mut copy = Frontmatter::new();
        let n = self.fields.len();
        let mut i: usize = 0;
        while i < n
            invariant
                i <= n,
                n == self@.len(),
                distinct_keys(self@),
                copy@ == self@.take(i as int),
            decreases n - i,
        {
            proof {
                lemma_position_of(self@.take(i as int), self@[i as int].0);
                assert forall|k: int| 0 <= k < i implies self@.take(i as int)[k].0 != self@[i as int].0 by {}
            }
            copy.insert(self.key_at(i).clone(), self.value_at(i).clone());
            i += 1;
        }
        copy
    }
}

/// The facts that were read from the text of one note.
#[derive(Debug, Clone)]
pub struct ParsedNote {
    /// The link targets, as written, in order and with repetitions.
    pub links: Vec<String>,
    /// The tags, each once, in the order of first occurrence.
    pub tags: Vec<String>,
    /// The front-matter fields other than `tags`.
    pub frontmatter: Frontmatter,
}

impl View for ParsedNote {
    type V = ParsedView;

    open spec fn view(&self) -> ParsedView {
        ParsedView {
            links: self.links.deep_view(),
            tags: self.tags.deep_view(),
            frontmatter: self.frontmatter@,
        }
    }
}

/// The characters of `---`.
fn fence_chars() -> (r: Vec<char>)
    ensures
        r@ == fence(),
{
    let r = vec!['-', '-', '-'];
    r
}

/// The characters of a line break followed by `---`.
fn closing_fence_chars() -> (r: Vec<char>)
    ensures
        r@ == closing_fence(),
{
    let r = vec!['\n', '-', '-', '-'];
    r
}

/// Splits `text` into its front-matter block and the body after it.
pub fn split_front_matter<'a>(text: &'a [char]) -> (r: Option<(&'a [char], &'a [char])>)
    ensures
        match (r, front_matter(text@)) {
            (Some(got), Some(want)) => got.0@ == want.0 && got.1@ == want.1,
            (None, None) => true,
            _ => false,
        },
{
    let t = trim_start(text);
    let opening = fence_chars();
    if !starts_with(t, opening.as_slice()) {
        return None;
    }
    let after = part(t, 3, t.len());
    let closing = closing_fence_chars();
    match find(after, closing.as_slice()) {
        Some(end) => {
            let block = part(after, 0, end);
            let body = part(after, end + 4, after.len());
            Some((block, body))
        },
        None => None,
    }
}

/// The target of a wikilink whose brackets hold `inner`.
pub fn read_link_target(inner: &[char]) -> (r: Option<String>)
    ensures
        r is Some <==> link_target(inner@) is Some,
        r is Some ==> r->0@ == link_target(inner@)->0,
{
    let head = match find_char(inner, '|') {
        Some(i) => part(inner, 0, i),
        None => inner,
    };
    let target = trim(head);
    if target.len() > 0 {
        Some(to_string(target))
    } else {
        None
    }
}

/// Appends the link targets of `text` to `links`.
pub fn scan_links(text: &[char], links: &mut Vec<String>)
    ensures
        final(links).deep_view() == old(links).deep_view() + links_of(text@),
{
    let ghost base = links.deep_view();
    let opening = vec!['[', '['];
    let closing = vec![']', ']'];
    let n = text.len();
    let mut i: usize = 0;
    let ghost mut found: Seq<Seq<char>> = Seq::empty();
    while i < n
        invariant
            i <= n,
            n == text.len(),
            opening@ == link_open(),
            closing@ == link_close(),
            links.deep_view() == base + found,
            links_of(text@) == found + links_from(text@, i as int),
        decreases n - i,
    {
        if matches_at(text, opening.as_slice(), i) {
            match find_from(text, closing.as_slice(), i + 2) {
                Some(close) => {
                    let inner = part(text, i + 2, close);
                    let ghost before = links.deep_view();
                    match read_link_target(inner) {
                        Some(target) => {
                            links.push(target);
                            proof {
                                let t = link_target(inner@)->0;
                                assert(links.deep_view() =~= before.push(t));
                                found = found + seq![t];
                            }
                        },
                        None => {
                        },
                    }
                    i = close + 2;
                },
                None => {
                    i = n;
                },
            }
        } else {
            i += 1;
        }
    }
}

/// The key and the value of a front-matter line.
pub fn read_entry<'a>(line: &'a [char]) -> (r: Option<(&'a [char], &'a [char])>)
    ensures
        match (r, entry_of(line@)) {
            (Some(got), Some(want)) => got.0@ == want.0 && got.1@ == want.1,
            (None, None) => true,
            _ => false,
        },
{
    let l = trim(line);
    if l.len() == 0 || l[0] == '#' {
        return None;
    }
    match find_char(l, ':') {
        Some(i) => {
            let key = trim(part(l, 0, i));
            let rest = part(l, i + 1, l.len());
            Some((key, trim(rest)))
        },
        None => None,
    }
}

/// Appends to `tags` the tags that the value of a `tags` entry declares.
pub fn read_declared_tags(value: &[char], tags: &mut Vec<String>)
    ensures
        final(tags).deep_view() == absorbed(old(tags).deep_view(), declared_tags(value@)),
{
    let ghost base = tags.deep_view();
    let list = strip_trailing(
        strip_leading(value, CharClass::Exactly('[')),
        CharClass::Exactly(']'),
    );
    let pieces = split(list, ',');
    let mut i: usize = 0;
    while i < pieces.len()
        invariant
            i <= pieces.len(),
            tags.deep_view() == absorbed(base, tags_in(slice_views(pieces@).take(i as int))),
        decreases pieces.len() - i,
    {
        let item = strip(
            strip(trim(pieces[i]), CharClass::Exactly('"')),
            CharClass::Exactly('\''),
        );
        proof {
            let head = slice_views(pieces@).take(i + 1);
            assert(head.drop_last() =~= slice_views(pieces@).take(i as int));
            lemma_absorbed_concat(base, tags_in(head.drop_last()), seq![item@]);
            assert(tags_in(head.drop_last()) + seq![item@] =~= tags_in(head.drop_last()).push(
                item@,
            ));
        }
        if item.len() > 0 {
            let tag = to_string(item);
            absorb(tags, tag.as_str());
        }
        i += 1;
    }
    assert(slice_views(pieces@).take(pieces.len() as int) =~= slice_views(pieces@));
}

/// Whether `key` is the key `tags`.
fn is_tags_key(key: &[char]) -> (r: bool)
    ensures
        r == (key@ == tags_key()),
{
    let expected = vec!['t', 'a', 'g', 's'];
    same(key, expected.as_slice())
}

/// Stores the fields of the front-matter block `block` in `frontmatter` and
/// appends the tags it declares to `tags`.
pub fn scan_front_matter(block: &[char], frontmatter: &mut Frontmatter, tags: &mut Vec<String>)
    ensures
        final(frontmatter)@ == with_fields(old(frontmatter)@, split_on(block@, '\n')),
        final(tags).deep_view() == absorbed(
            old(tags).deep_view(),
            tags_declared(split_on(block@, '\n')),
        ),
{
    let ghost fields = frontmatter@;
    let ghost base = tags.deep_view();
    let lines = split(block, '\n');
    let mut i: usize = 0;
    while i < lines.len()
        invariant
            i <= lines.len(),
            slice_views(lines@) == split_on(block@, '\n'),
            frontmatter@ == with_fields(fields, slice_views(lines@).take(i as int)),
            tags.deep_view() == absorbed(base, tags_declared(slice_views(lines@).take(i as int))),
        decreases lines.len() - i,
    {
        proof {
            let head = slice_views(lines@).take(i + 1);
            assert(head.drop_last() =~= slice_views(lines@).take(i as int));
        }
        match read_entry(lines[i]) {
            Some(entry) => {
                if is_tags_key(entry.0) {
                    proof {
                        lemma_absorbed_concat(
                            base,
                            tags_declared(slice_views(lines@).take(i as int)),
                            declared_tags(entry.1@),
                        );
                    }
                    read_declared_tags(entry.1, tags);
                } else {
                    frontmatter.insert(to_string(entry.0), to_string(entry.1));
                }
            },
            None => {},
        }
        i += 1;
    }
    assert(slice_views(lines@).take(lines.len() as int) =~= slice_views(lines@));
}

/// The tag that the word `word` stands for.
pub fn read_tag(word: &[char]) -> (r: Option<String>)
    ensures
        r is Some <==> tag_of(word@) is Some,
        r is Some ==> r->0@ == tag_of(word@)->0,
{
    if word.len() > 1 && word[0] == '#' {
        let tag = strip_trailing(
            strip_leading(word, CharClass::Exactly('#')),
            CharClass::TagPunctuation,
        );
        if tag.len() > 0 {
            Some(to_string(tag))
        } else {
            None
        }
    } else {
        None
    }
}

/// Appends to `tags` the tags of the words of `body` that they do not hold
/// yet.
pub fn scan_inline_tags(body: &[char], tags: &mut Vec<String>)
    ensures
        final(tags).deep_view() == absorbed(old(tags).deep_view(), tags_among(words(body@))),
{
    let ghost base = tags.deep_view();
    let tokens = split_words(body);
    let mut i: usize = 0;
    while i < tokens.len()
        invariant
            i <= tokens.len(),
            slice_views(tokens@) == words(body@),
            tags.deep_view() == absorbed(base, tags_among(slice_views(tokens@).take(i as int))),
        decreases tokens.len() - i,
    {
        proof {
            let head = slice_views(tokens@).take(i + 1);
            assert(head.drop_last() =~= slice_views(tokens@).take(i as int));
        }
        match read_tag(tokens[i]) {
            Some(tag) => {
                proof {
                    let seen = tags_among(slice_views(tokens@).take(i as int));
                    lemma_absorbed_concat(base, seen, seq![tag@]);
                    assert(seen + seq![tag@] =~= seen.push(tag@));
                }
                absorb(tags, tag.as_str());
            },
            None => {},
        }
        i += 1;
    }
    assert(slice_views(tokens@).take(tokens.len() as int) =~= slice_views(tokens@));
}

/// Appends the targets of the `[[wikilinks]]` of `content` to `links`, in
/// order and with repetitions.
pub fn extract_wikilinks(content: &str, links: &mut Vec<String>)
    ensures
        final(links).deep_view() == old(links).deep_view() + links_of(content@),
{
    let chars = to_chars(content);
    scan_links(chars.as_slice(), links);
}

/// Stores the front-matter fields of `content` in `frontmatter`, and appends
/// to `tags` the tags that its front matter declares and that `tags` does
/// not hold yet.
pub fn extract_frontmatter(content: &str, frontmatter: &mut Frontmatter, tags: &mut Vec<String>)
    ensures
        final(frontmatter)@ == with_fields(old(frontmatter)@, front_lines(content@)),
        final(tags).deep_view() == absorbed(old(tags).deep_view(), front_tags(content@)),
{
    let chars = to_chars(content);
    match split_front_matter(chars.as_slice()) {
        Some(split) => {
            scan_front_matter(split.0, frontmatter, tags);
        },
        None => {},
    }
}

/// Appends to `tags` the inline `#tags` of `content` that `tags` does not
/// hold yet.
pub fn extract_inline_tags(content: &str, tags: &mut Vec<String>)
    ensures
        final(tags).deep_view() == absorbed(old(tags).deep_view(), inline_tags(content@)),
{
    let chars = to_chars(content);
    let body = match split_front_matter(chars.as_slice()) {
        Some(split) => split.1,
        None => chars.as_slice(),
    };
    scan_inline_tags(body, tags);
}

/// Reads the links, the tags and the front-matter fields of a note.
///
/// The links are the targets of the `[[wikilinks]]`, in order. The fields
/// are the `key: value` lines of the front-matter block, the `tags` line
/// apart. The tags are those of the `tags` line, then the inline `#tags` of
/// the body, each once.
pub fn parse_note(content: &str) -> (r: ParsedNote)
    ensures
        r@ == parsed(content@),
        r@.tags.no_duplicates(),
        distinct_keys(r@.frontmatter),
{
    proof {
        lemma_parsed_distinct(content@);
    }
    let chars = to_chars(content);
    let text = chars.as_slice();
    let mut links: Vec<String> = Vec::new();
    let mut tags: Vec<String> = Vec::new();
    let mut frontmatter = Frontmatter::new();
    assert(links.deep_view() =~= Seq::<Seq<char>>::empty());
    scan_links(text, &mut links);
    let body = match split_front_matter(text) {
        Some(split) => {
            scan_front_matter(split.0, &mut frontmatter, &mut tags);
            split.1
        },
        None => text,
    };
    scan_inline_tags(body, &mut tags);
    proof {
        lemma_absorbed_concat(Seq::empty(), front_tags(content@), inline_tags(content@));
    }
    ParsedNote { links, tags, frontmatter }
}

} // verus!
