//! Character-sequence primitives shared by the note parser and the path rules.
//!
//! Every executable function here works on a borrowed slice of `char` and is
//! specified by a function over `Seq<char>`.

use vstd::prelude::*;
use vstd::string::StringSliceAdditionalSpecFns;

verus! {

/// The code points that carry the Unicode `White_Space` property.
pub open spec fn is_whitespace(c: char) -> bool {
    ||| ('\u{9}' <= c && c <= '\u{D}')
    ||| c == ' '
    ||| c == '\u{85}'
    ||| c == '\u{A0}'
    ||| c == '\u{1680}'
    ||| ('\u{2000}' <= c && c <= '\u{200A}')
    ||| c == '\u{2028}'
    ||| c == '\u{2029}'
    ||| c == '\u{202F}'
    ||| c == '\u{205F}'
    ||| c == '\u{3000}'
}

/// Whether `c` is alphabetic or numeric in the sense of the Unicode tables
/// that the standard library carries.
pub uninterp spec fn is_alphanumeric(c: char) -> bool;

/// Whether `c` may end an inline tag, given whether it is alphanumeric: it
/// is that, or `-`, `_` or `/`.
pub open spec fn ends_tag(c: char, alphanumeric: bool) -> bool {
    alphanumeric || c == '-' || c == '_' || c == '/'
}

/// A character that may end an inline tag: alphanumeric, `-`, `_` or `/`.
pub open spec fn is_tag_char(c: char) -> bool {
    ends_tag(c, is_alphanumeric(c))
}

/// A set of characters that can be stripped from either end of a sequence.
#[derive(Clone, Copy, Debug)]
pub enum CharClass {
    /// Unicode white space.
    Whitespace,
    /// Everything but Unicode white space.
    NonWhitespace,
    /// One given character.
    Exactly(char),
    /// Everything that may not end an inline tag.
    TagPunctuation,
}

impl CharClass {
    pub open spec fn holds(self, c: char) -> bool {
        match self {
            CharClass::Whitespace => is_whitespace(c),
            CharClass::NonWhitespace => !is_whitespace(c),
            CharClass::Exactly(x) => c == x,
            CharClass::TagPunctuation => !is_tag_char(c),
        }
    }

    /// Tests membership of `c`.
    pub fn contains(&self, c: char) -> (r: bool)
        ensures
            r == self.holds(c),
    {
        match self {
            CharClass::Whitespace => whitespace(c),
            CharClass::NonWhitespace => !whitespace(c),
            CharClass::Exactly(x) => c == *x,
            CharClass::TagPunctuation => !tag_char(c, alphanumeric(c)),
        }
    }
}

/// Length of the longest prefix of `s` made of characters of `cls`.
pub open spec fn leading_run(s: Seq<char>, cls: CharClass) -> nat
    decreases s.len(),
{
    if s.len() > 0 && cls.holds(s[0]) {
        1 + leading_run(s.drop_first(), cls)
    } else {
        0
    }
}

/// Length of the longest suffix of `s` made of characters of `cls`.
pub open spec fn trailing_run(s: Seq<char>, cls: CharClass) -> nat
    decreases s.len(),
{
    if s.len() > 0 && cls.holds(s.last()) {
        1 + trailing_run(s.drop_last(), cls)
    } else {
        0
    }
}

/// `s` without its longest prefix in `cls`.
pub open spec fn stripped_leading(s: Seq<char>, cls: CharClass) -> Seq<char> {
    s.skip(leading_run(s, cls) as int)
}

/// `s` without its longest suffix in `cls`.
pub open spec fn stripped_trailing(s: Seq<char>, cls: CharClass) -> Seq<char> {
    s.take(s.len() - trailing_run(s, cls))
}

/// `s` without its longest prefix and its longest suffix in `cls`.
pub open spec fn stripped(s: Seq<char>, cls: CharClass) -> Seq<char> {
    stripped_trailing(stripped_leading(s, cls), cls)
}

/// `s` without leading white space.
pub open spec fn trimmed_start(s: Seq<char>) -> Seq<char> {
    stripped_leading(s, CharClass::Whitespace)
}

/// `s` without leading and trailing white space.
pub open spec fn trimmed(s: Seq<char>) -> Seq<char> {
    stripped(s, CharClass::Whitespace)
}

/// Whether `pat` occurs in `s` at index `i`.
pub open spec fn match_at(s: Seq<char>, pat: Seq<char>, i: int) -> bool {
    0 <= i && i + pat.len() <= s.len() && s.subrange(i, i + pat.len()) == pat
}

/// The least index at or after `from` where `pat` occurs in `s`.
pub open spec fn first_match_from(s: Seq<char>, pat: Seq<char>, from: int) -> Option<int>
    decreases s.len() - from,
{
    if from < 0 || from + pat.len() > s.len() {
        None
    } else if match_at(s, pat, from) {
        Some(from)
    } else if from >= s.len() {
        None
    } else {
        first_match_from(s, pat, from + 1)
    }
}

/// The least index where `pat` occurs in `s`.
pub open spec fn first_match(s: Seq<char>, pat: Seq<char>) -> Option<int> {
    first_match_from(s, pat, 0)
}

/// The least index of `s` that holds `c`.
pub open spec fn first_index_of(s: Seq<char>, c: char) -> Option<int> {
    first_match(s, seq![c])
}

/// The greatest index of `s` that holds `c`.
pub open spec fn last_index_of(s: Seq<char>, c: char) -> Option<int>
    decreases s.len(),
{
    if s.len() == 0 {
        None
    } else if s.last() == c {
        Some(s.len() - 1)
    } else {
        last_index_of(s.drop_last(), c)
    }
}

/// Whether `s` begins with `pat`.
pub open spec fn has_prefix(s: Seq<char>, pat: Seq<char>) -> bool {
    match_at(s, pat, 0)
}

/// Whether `s` ends with `pat`.
pub open spec fn has_suffix(s: Seq<char>, pat: Seq<char>) -> bool {
    match_at(s, pat, s.len() - pat.len())
}

/// The pieces of `s` between occurrences of `sep`; never empty, and one piece
/// longer than the number of separators. (A first index is always within
/// `s`; the bound is spelled out so that the recursion is seen to end.)
pub open spec fn split_on(s: Seq<char>, sep: char) -> Seq<Seq<char>>
    decreases s.len(),
{
    let m = first_index_of(s, sep);
    if m is Some && 0 <= m->0 < s.len() {
        seq![s.take(m->0)] + split_on(s.skip(m->0 + 1), sep)
    } else {
        seq![s]
    }
}

/// The maximal runs of non-white-space characters of `s`, in order: the
/// word that follows the leading white space, then the words of the rest.
/// (A run is never longer than what it is a run of; the bounds are spelled
/// out so that the recursion is seen to end.)
pub open spec fn words(s: Seq<char>) -> Seq<Seq<char>>
    decreases s.len(),
{
    let t = trimmed_start(s);
    let n = leading_run(t, CharClass::NonWhitespace);
    if 0 < n <= t.len() && t.len() <= s.len() {
        seq![t.take(n as int)] + words(t.skip(n as int))
    } else {
        seq![]
    }
}

/// Lexicographic order by code point, the order of `str`.
pub open spec fn lex_less(a: Seq<char>, b: Seq<char>) -> bool
    decreases a.len(),
{
    if b.len() == 0 {
        false
    } else if a.len() == 0 {
        true
    } else if a[0] != b[0] {
        a[0] < b[0]
    } else {
        lex_less(a.drop_first(), b.drop_first())
    }
}

/// The views of a vector of borrowed slices.
pub open spec fn slice_views(v: Seq<&[char]>) -> Seq<Seq<char>> {
    Seq::new(v.len(), |i: int| v[i]@)
}

/// `leading_run` stops at the first character outside the class.
pub proof fn lemma_leading_run(s: Seq<char>, cls: CharClass)
    ensures
        leading_run(s, cls) <= s.len(),
        forall|i: int| 0 <= i < leading_run(s, cls) ==> cls.holds(#[trigger] s[i]),
        leading_run(s, cls) < s.len() ==> !cls.holds(s[leading_run(s, cls) as int]),
    decreases s.len(),
{
    if s.len() > 0 && cls.holds(s[0]) {
        let t = s.drop_first();
        lemma_leading_run(t, cls);
        assert forall|i: int| 0 <= i < leading_run(s, cls) implies cls.holds(#[trigger] s[i]) by {
            if i > 0 {
                assert(s[i] == t[i - 1]);
            }
        }
    }
}

/// A prefix length that stops at the first character outside the class is
/// the leading run.
pub proof fn lemma_leading_run_is(s: Seq<char>, cls: CharClass, n: nat)
    requires
        n <= s.len(),
        forall|i: int| 0 <= i < n ==> cls.holds(#[trigger] s[i]),
        n < s.len() ==> !cls.holds(s[n as int]),
    ensures
        leading_run(s, cls) == n,
    decreases s.len(),
{
    if n > 0 {
        let t = s.drop_first();
        assert forall|i: int| 0 <= i < n - 1 implies cls.holds(#[trigger] t[i]) by {}
        lemma_leading_run_is(t, cls, (n - 1) as nat);
    }
}

/// `trailing_run` stops at the last character outside the class.
pub proof fn lemma_trailing_run(s: Seq<char>, cls: CharClass)
    ensures
        trailing_run(s, cls) <= s.len(),
        forall|i: int| s.len() - trailing_run(s, cls) <= i < s.len() ==> cls.holds(#[trigger] s[i]),
        trailing_run(s, cls) < s.len() ==> !cls.holds(s[s.len() - trailing_run(s, cls) - 1]),
    decreases s.len(),
{
    if s.len() > 0 && cls.holds(s.last()) {
        let t = s.drop_last();
        lemma_trailing_run(t, cls);
        assert forall|i: int| s.len() - trailing_run(s, cls) <= i < s.len() implies cls.holds(
            #[trigger] s[i],
        ) by {
            if i < s.len() - 1 {
                assert(s[i] == t[i]);
            }
        }
    }
}

/// A suffix length that stops at the last character outside the class is
/// the trailing run.
pub proof fn lemma_trailing_run_is(s: Seq<char>, cls: CharClass, n: nat)
    requires
        n <= s.len(),
        forall|i: int| s.len() - n <= i < s.len() ==> cls.holds(#[trigger] s[i]),
        n < s.len() ==> !cls.holds(s[s.len() - n - 1]),
    ensures
        trailing_run(s, cls) == n,
    decreases s.len(),
{
    if n > 0 {
        let t = s.drop_last();
        assert forall|i: int| t.len() - (n - 1) <= i < t.len() implies cls.holds(#[trigger] t[i]) by {}
        lemma_trailing_run_is(t, cls, (n - 1) as nat);
    }
}

/// `first_match_from` is the least match at or after `from`, if there is one.
pub proof fn lemma_first_match_from(s: Seq<char>, pat: Seq<char>, from: int)
    requires
        0 <= from,
    ensures
        match first_match_from(s, pat, from) {
            Some(i) => from <= i && match_at(s, pat, i) && forall|k: int|
                from <= k < i ==> !match_at(s, pat, k),
            None => forall|k: int| from <= k ==> !match_at(s, pat, k),
        },
    decreases s.len() - from,
{
    if from + pat.len() <= s.len() && !match_at(s, pat, from) && from < s.len() {
        lemma_first_match_from(s, pat, from + 1);
        match first_match_from(s, pat, from + 1) {
            Some(i) => {
                assert forall|k: int| from <= k < i implies !match_at(s, pat, k) by {}
            },
            None => {
                assert forall|k: int| from <= k implies !match_at(s, pat, k) by {}
            },
        }
    }
}

/// A character occurs at its first index and nowhere before it.
pub proof fn lemma_first_index_of(s: Seq<char>, c: char)
    ensures
        match first_index_of(s, c) {
            Some(i) => 0 <= i < s.len() && s[i] == c && forall|k: int|
                0 <= k < i ==> s[k] != c,
            None => forall|k: int| 0 <= k < s.len() ==> s[k] != c,
        },
{
    let pat = seq![c];
    lemma_first_match_from(s, pat, 0);
    match first_index_of(s, c) {
        Some(i) => {
            assert(s.subrange(i, i + 1)[0] == pat[0]);
            assert forall|k: int| 0 <= k < i implies s[k] != c by {
                if s[k] == c {
                    assert(s.subrange(k, k + 1) =~= pat);
                    assert(match_at(s, pat, k));
                }
            }
        },
        None => {
            assert forall|k: int| 0 <= k < s.len() implies s[k] != c by {
                if s[k] == c {
                    assert(s.subrange(k, k + 1) =~= pat);
                    assert(match_at(s, pat, k));
                }
            }
        },
    }
}

/// A character occurs at its last index and nowhere after it.
pub proof fn lemma_last_index_of(s: Seq<char>, c: char)
    ensures
        match last_index_of(s, c) {
            Some(i) => 0 <= i < s.len() && s[i] == c && forall|k: int|
                i < k < s.len() ==> s[k] != c,
            None => forall|k: int| 0 <= k < s.len() ==> s[k] != c,
        },
    decreases s.len(),
{
    if s.len() > 0 && s.last() != c {
        let t = s.drop_last();
        lemma_last_index_of(t, c);
        match last_index_of(t, c) {
            Some(i) => {
                assert forall|k: int| i < k < s.len() implies s[k] != c by {
                    if k < t.len() {
                        assert(s[k] == t[k]);
                    }
                }
            },
            None => {
                assert forall|k: int| 0 <= k < s.len() implies s[k] != c by {
                    if k < t.len() {
                        assert(s[k] == t[k]);
                    }
                }
            },
        }
    }
}

/// No piece of a split holds the separator, and there is at least one
/// piece.
pub proof fn lemma_split_on(s: Seq<char>, sep: char)
    ensures
        split_on(s, sep).len() >= 1,
        forall|k: int|
            0 <= k < split_on(s, sep).len() ==> !(#[trigger] split_on(s, sep)[k]).contains(sep),
    decreases s.len(),
{
    lemma_first_index_of(s, sep);
    let m = first_index_of(s, sep);
    if m is Some && 0 <= m->0 < s.len() {
        let first = s.take(m->0);
        let rest = split_on(s.skip(m->0 + 1), sep);
        lemma_split_on(s.skip(m->0 + 1), sep);
        assert forall|k: int| 0 <= k < split_on(s, sep).len() implies !(#[trigger] split_on(
            s,
            sep,
        )[k]).contains(sep) by {
            if k == 0 {
                if first.contains(sep) {
                    let j = choose|j: int| 0 <= j < first.len() && first[j] == sep;
                    assert(s[j] == sep);
                }
            } else {
                assert(split_on(s, sep)[k] == rest[k - 1]);
            }
        }
    } else {
        if s.contains(sep) {
            let j = choose|j: int| 0 <= j < s.len() && s[j] == sep;
            assert(s[j] == sep);
        }
    }
}

/// Every word is a run of characters that are not white space, and is not
/// empty.
pub proof fn lemma_words(s: Seq<char>)
    ensures
        forall|k: int|
            0 <= k < words(s).len() ==> (#[trigger] words(s)[k]).len() > 0 && forall|j: int|
                0 <= j < words(s)[k].len() ==> !is_whitespace(words(s)[k][j]),
    decreases s.len(),
{
    let t = trimmed_start(s);
    let n = leading_run(t, CharClass::NonWhitespace);
    if 0 < n <= t.len() && t.len() <= s.len() {
        let first = t.take(n as int);
        let rest = words(t.skip(n as int));
        lemma_leading_run(t, CharClass::NonWhitespace);
        lemma_words(t.skip(n as int));
        assert forall|k: int| 0 <= k < words(s).len() implies (#[trigger] words(s)[k]).len() > 0
            && forall|j: int| 0 <= j < words(s)[k].len() ==> !is_whitespace(words(s)[k][j]) by {
            if k == 0 {
                assert forall|j: int| 0 <= j < first.len() implies !is_whitespace(first[j]) by {
                    assert(first[j] == t[j]);
                }
            } else {
                assert(words(s)[k] == rest[k - 1]);
            }
        }
    }
}

/// No sequence is below itself.
pub proof fn lemma_lex_irreflexive(a: Seq<char>)
    ensures
        !lex_less(a, a),
    decreases a.len(),
{
    if a.len() > 0 {
        lemma_lex_irreflexive(a.drop_first());
    }
}

/// Of two different sequences, one is below the other.
pub proof fn lemma_lex_total(a: Seq<char>, b: Seq<char>)
    ensures
        a == b || lex_less(a, b) || lex_less(b, a),
    decreases a.len(),
{
    if a.len() > 0 && b.len() > 0 && a[0] == b[0] {
        lemma_lex_total(a.drop_first(), b.drop_first());
        if a.drop_first() == b.drop_first() {
            assert(a =~= seq![a[0]] + a.drop_first());
        }
    }
}

/// The order is transitive.
pub proof fn lemma_lex_transitive(a: Seq<char>, b: Seq<char>, c: Seq<char>)
    requires
        lex_less(a, b),
        lex_less(b, c),
    ensures
        lex_less(a, c),
    decreases a.len(),
{
    if a.len() > 0 && a[0] == b[0] && b[0] == c[0] {
        lemma_lex_transitive(a.drop_first(), b.drop_first(), c.drop_first());
    }
}

/// No two sequences are below each other.
pub proof fn lemma_lex_asymmetric(a: Seq<char>, b: Seq<char>)
    requires
        lex_less(a, b),
    ensures
        !lex_less(b, a),
{
    if lex_less(b, a) {
        lemma_lex_transitive(a, b, a);
        lemma_lex_irreflexive(a);
    }
}

/// Calls `char::is_alphanumeric`; the answer is that of the standard
/// library's Unicode tables, which `is_alphanumeric` names.
#[verifier::external_body]
fn alphanumeric(c: char) -> (r: bool)
    ensures
        r == is_alphanumeric(c),
{
    c.is_alphanumeric()
}

/// Whether `c` may end an inline tag, given whether it is alphanumeric.
pub fn tag_char(c: char, alphanumeric: bool) -> (r: bool)
    ensures
        r == ends_tag(c, alphanumeric),
{
    alphanumeric || c == '-' || c == '_' || c == '/'
}

/// Tests for the Unicode `White_Space` property.
pub fn whitespace(c: char) -> (r: bool)
    ensures
        r == is_whitespace(c),
{
    ('\u{9}' <= c && c <= '\u{D}') || c == ' ' || c == '\u{85}' || c == '\u{A0}' || c
        == '\u{1680}' || ('\u{2000}' <= c && c <= '\u{200A}') || c == '\u{2028}' || c
        == '\u{2029}' || c == '\u{202F}' || c == '\u{205F}' || c == '\u{3000}'
}

/// Appends one character to a `String`, as the standard library documents.
pub assume_specification[ String::push ](s: &mut String, ch: char)
    ensures
        final(s)@ == old(s)@.push(ch),
;

/// Whether `a` and `b` are the same string.
pub fn same_str(a: &str, b: &str) -> (r: bool)
    ensures
        r == (a@ == b@),
{
    let x = a.as_bytes();
    let y = b.as_bytes();
    proof {
        vstd::utf8::encode_utf8_decode_utf8(a@);
        vstd::utf8::encode_utf8_decode_utf8(b@);
    }
    if x.len() != y.len() {
        return false;
    }
    let mut i: usize = 0;
    while i < x.len()
        invariant
            i <= x.len(),
            x.len() == y.len(),
            x@ == a.spec_bytes(),
            y@ == b.spec_bytes(),
            forall|j: int| 0 <= j < i ==> x@[j] == y@[j],
        decreases x.len() - i,
    {
        if x[i] != y[i] {
            return false;
        }
        i += 1;
    }
    assert(x@ =~= y@);
    true
}

/// The characters of `s`, in order.
pub fn to_chars(s: &str) -> (v: Vec<char>)
    ensures
        v@ == s@,
{
    let mut v: Vec<char> = Vec::new();
    for c in it: s.chars()
        invariant
            it.seq() == s@,
            v@ == it.seq().take(it.index() as int),
    {
        v.push(c);
    }
    v
}

/// The string made of the characters of `s`, in order.
pub fn to_string(s: &[char]) -> (r: String)
    ensures
        r@ == s@,
{
    let mut r = String::new();
    let mut i: usize = 0;
    while i < s.len()
        invariant
            i <= s.len(),
            r@ == s@.take(i as int),
        decreases s.len() - i,
    {
        r.push(s[i]);
        i += 1;
    }
    r
}

/// The part of `s` from `lo` up to `hi`.
pub(crate) fn part<'a>(s: &'a [char], lo: usize, hi: usize) -> (r: &'a [char])
    requires
        lo <= hi <= s.len(),
    ensures
        r@ == s@.subrange(lo as int, hi as int),
{
    &s[lo..hi]
}

/// Counts the characters of `cls` at the start of `s`.
pub fn count_leading(s: &[char], cls: CharClass) -> (n: usize)
    ensures
        n == leading_run(s@, cls),
        n <= s.len(),
{
    let mut i: usize = 0;
    while i < s.len() && cls.contains(s[i])
        invariant
            i <= s.len(),
            forall|j: int| 0 <= j < i ==> cls.holds(#[trigger] s@[j]),
        decreases s.len() - i,
    {
        i += 1;
    }
    proof {
        lemma_leading_run_is(s@, cls, i as nat);
    }
    i
}

/// Counts the characters of `cls` at the end of `s`.
pub fn count_trailing(s: &[char], cls: CharClass) -> (n: usize)
    ensures
        n == trailing_run(s@, cls),
        n <= s.len(),
{
    let mut i: usize = 0;
    while i < s.len() && cls.contains(s[s.len() - 1 - i])
        invariant
            i <= s.len(),
            forall|j: int| s.len() - i <= j < s.len() ==> cls.holds(#[trigger] s@[j]),
        decreases s.len() - i,
    {
        i += 1;
    }
    proof {
        lemma_trailing_run_is(s@, cls, i as nat);
    }
    i
}

/// Drops the longest prefix in `cls`.
pub fn strip_leading<'a>(s: &'a [char], cls: CharClass) -> (r: &'a [char])
    ensures
        r@ == stripped_leading(s@, cls),
{
    let n = count_leading(s, cls);
    part(s, n, s.len())
}

/// Drops the longest suffix in `cls`.
pub fn strip_trailing<'a>(s: &'a [char], cls: CharClass) -> (r: &'a [char])
    ensures
        r@ == stripped_trailing(s@, cls),
{
    let n = count_trailing(s, cls);
    part(s, 0, s.len() - n)
}

/// Drops the longest prefix and the longest suffix in `cls`.
pub fn strip<'a>(s: &'a [char], cls: CharClass) -> (r: &'a [char])
    ensures
        r@ == stripped(s@, cls),
{
    strip_trailing(strip_leading(s, cls), cls)
}

/// Drops leading white space.
pub fn trim_start<'a>(s: &'a [char]) -> (r: &'a [char])
    ensures
        r@ == trimmed_start(s@),
{
    strip_leading(s, CharClass::Whitespace)
}

/// Drops leading and trailing white space.
pub fn trim<'a>(s: &'a [char]) -> (r: &'a [char])
    ensures
        r@ == trimmed(s@),
{
    strip(s, CharClass::Whitespace)
}

/// Whether `pat` occurs in `s` at index `i`.
pub fn matches_at(s: &[char], pat: &[char], i: usize) -> (r: bool)
    ensures
        r == match_at(s@, pat@, i as int),
{
    if pat.len() > s.len() || i > s.len() - pat.len() {
        return false;
    }
    let mut k: usize = 0;
    while k < pat.len()
        invariant
            k <= pat.len(),
            i + pat.len() <= s.len(),
            forall|j: int| 0 <= j < k ==> s@[i + j] == pat@[j],
        decreases pat.len() - k,
    {
        if s[i + k] != pat[k] {
            return false;
        }
        k += 1;
    }
    assert(s@.subrange(i as int, i + pat@.len()) =~= pat@);
    true
}

/// Whether `s` begins with `pat`.
pub fn starts_with(s: &[char], pat: &[char]) -> (r: bool)
    ensures
        r == has_prefix(s@, pat@),
{
    matches_at(s, pat, 0)
}

/// Whether `s` ends with `pat`.
pub fn ends_with(s: &[char], pat: &[char]) -> (r: bool)
    ensures
        r == has_suffix(s@, pat@),
{
    if pat.len() > s.len() {
        false
    } else {
        matches_at(s, pat, s.len() - pat.len())
    }
}

/// Whether `a` and `b` hold the same characters.
pub fn same(a: &[char], b: &[char]) -> (r: bool)
    ensures
        r == (a@ == b@),
{
    let r = a.len() == b.len() && matches_at(a, b, 0);
    proof {
        if a@.len() == b@.len() {
            assert(a@.subrange(0, a@.len() as int) =~= a@);
        }
    }
    r
}

/// The least index at or after `from` where `pat` occurs in `s`.
pub fn find_from(s: &[char], pat: &[char], from: usize) -> (r: Option<usize>)
    ensures
        r is Some <==> first_match_from(s@, pat@, from as int) is Some,
        r is Some ==> r->0 as int == first_match_from(s@, pat@, from as int)->0,
        r is Some ==> from <= r->0 && r->0 + pat@.len() <= s@.len(),
{
    if pat.len() > s.len() || from > s.len() - pat.len() {
        return None;
    }
    let last = s.len() - pat.len();
    let mut i: usize = from;
    loop
        invariant
            last == s.len() - pat.len(),
            from <= i <= last,
            first_match_from(s@, pat@, from as int) == first_match_from(s@, pat@, i as int),
        decreases last - i,
    {
        if matches_at(s, pat, i) {
            return Some(i);
        }
        if i == last {
            assert(first_match_from(s@, pat@, i + 1) is None);
            return None;
        }
        i += 1;
    }
}

/// The least index where `pat` occurs in `s`.
pub fn find(s: &[char], pat: &[char]) -> (r: Option<usize>)
    ensures
        r is Some <==> first_match(s@, pat@) is Some,
        r is Some ==> r->0 as int == first_match(s@, pat@)->0,
        r is Some ==> r->0 + pat@.len() <= s@.len(),
{
    find_from(s, pat, 0)
}

/// The least index of `s` that holds `c`.
pub fn find_char(s: &[char], c: char) -> (r: Option<usize>)
    ensures
        r is Some <==> first_index_of(s@, c) is Some,
        r is Some ==> r->0 as int == first_index_of(s@, c)->0,
        r is Some ==> r->0 < s@.len(),
{
    let mut i: usize = 0;
    while i < s.len()
        invariant
            i <= s.len(),
            first_index_of(s@, c) == first_match_from(s@, seq![c], i as int),
        decreases s.len() - i,
    {
        if s[i] == c {
            assert(s@.subrange(i as int, i + 1) =~= seq![c]);
            return Some(i);
        }
        assert(s@.subrange(i as int, i + 1)[0] != seq![c][0]);
        i += 1;
    }
    None
}

/// The greatest index of `s` that holds `c`.
pub fn rfind_char(s: &[char], c: char) -> (r: Option<usize>)
    ensures
        r is Some <==> last_index_of(s@, c) is Some,
        r is Some ==> r->0 as int == last_index_of(s@, c)->0,
        r is Some ==> r->0 < s@.len(),
{
    let mut n: usize = s.len();
    assert(s@.take(n as int) == s@);
    while n > 0
        invariant
            n <= s.len(),
            last_index_of(s@, c) == last_index_of(s@.take(n as int), c),
        decreases n,
    {
        if s[n - 1] == c {
            return Some(n - 1);
        }
        assert(s@.take(n as int).drop_last() == s@.take(n - 1));
        n -= 1;
    }
    None
}

/// The pieces of `s` between occurrences of `sep`.
pub fn split<'a>(s: &'a [char], sep: char) -> (r: Vec<&'a [char]>)
    ensures
        slice_views(r@) == split_on(s@, sep),
{
    let mut out: Vec<&'a [char]> = Vec::new();
    let mut rest: &'a [char] = s;
    loop
        invariant
            split_on(s@, sep) == slice_views(out@) + split_on(rest@, sep),
        decreases rest.len(),
    {
        let ghost before = slice_views(out@);
        match find_char(rest, sep) {
            Some(i) => {
                let piece = part(rest, 0, i);
                let after = part(rest, i + 1, rest.len());
                out.push(piece);
                proof {
                    assert(slice_views(out@) =~= before + seq![rest@.take(i as int)]);
                    assert(after@ == rest@.skip(i + 1));
                    assert(split_on(s@, sep) =~= slice_views(out@) + split_on(after@, sep));
                }
                rest = after;
            },
            None => {
                out.push(rest);
                proof {
                    assert(slice_views(out@) =~= before + seq![rest@]);
                }
                return out;
            },
        }
    }
}

/// The maximal runs of non-white-space characters of `s`, in order.
pub fn split_words<'a>(s: &'a [char]) -> (r: Vec<&'a [char]>)
    ensures
        slice_views(r@) == words(s@),
{
    let mut out: Vec<&'a [char]> = Vec::new();
    let mut rest: &'a [char] = s;
    loop
        invariant
            words(s@) == slice_views(out@) + words(rest@),
        decreases rest.len(),
    {
        let ghost before = slice_views(out@);
        let t = trim_start(rest);
        let n = count_leading(t, CharClass::NonWhitespace);
        proof {
            lemma_leading_run(rest@, CharClass::Whitespace);
        }
        if n == 0 {
            proof {
                assert(slice_views(out@) + Seq::<Seq<char>>::empty() =~= slice_views(out@));
            }
            return out;
        }
        let piece = part(t, 0, n);
        let after = part(t, n, t.len());
        out.push(piece);
        proof {
            assert(slice_views(out@) =~= before + seq![t@.take(n as int)]);
            assert(after@ == t@.skip(n as int));
            assert(words(s@) =~= slice_views(out@) + words(after@));
        }
        rest = after;
    }
}

/// Whether `a` comes before `b` in lexicographic order by code point.
pub fn less(a: &[char], b: &[char]) -> (r: bool)
    ensures
        r == lex_less(a@, b@),
{
    let mut i: usize = 0;
    assert(a@.skip(0) == a@ && b@.skip(0) == b@);
    while i < a.len() && i < b.len()
        invariant
            i <= a.len(),
            i <= b.len(),
            lex_less(a@, b@) == lex_less(a@.skip(i as int), b@.skip(i as int)),
        decreases a.len() - i,
    {
        if a[i] != b[i] {
            return a[i] < b[i];
        }
        assert(a@.skip(i as int).drop_first() == a@.skip(i + 1));
        assert(b@.skip(i as int).drop_first() == b@.skip(i + 1));
        i += 1;
    }
    i < b.len()
}

} // verus!
