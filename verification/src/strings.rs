//! Lists of strings without repetitions: the order of first occurrence.

use crate::text::same_str;
use vstd::prelude::*;

verus! {

/// The view of an optional string.
pub open spec fn optional_view(s: Option<String>) -> Option<Seq<char>> {
    match s {
        Some(s) => Some(s@),
        None => None,
    }
}

/// Whether two optional strings are the same.
pub fn same_optional(a: &Option<String>, b: &Option<String>) -> (r: bool)
    ensures
        r == (optional_view(*a) == optional_view(*b)),
{
    match (a, b) {
        (Some(x), Some(y)) => same_str(x.as_str(), y.as_str()),
        (None, None) => true,
        _ => false,
    }
}

/// `base` followed by the elements of `extra` that occur neither in `base`
/// nor earlier in `extra`, in their order.
pub open spec fn absorbed(base: Seq<Seq<char>>, extra: Seq<Seq<char>>) -> Seq<Seq<char>>
    decreases extra.len(),
{
    if extra.len() == 0 {
        base
    } else {
        let rest = absorbed(base, extra.drop_last());
        if rest.contains(extra.last()) {
            rest
        } else {
            rest.push(extra.last())
        }
    }
}

/// What a sequence holds after a push.
pub proof fn lemma_push_contains<T>(s: Seq<T>, x: T, y: T)
    ensures
        s.push(x).contains(y) <==> (s.contains(y) || y == x),
{
    let p = s.push(x);
    if s.contains(y) {
        let i = choose|i: int| 0 <= i < s.len() && s[i] == y;
        assert(p[i] == y);
    }
    if y == x {
        assert(p[s.len() as int] == y);
    }
}

/// What a concatenation holds.
pub proof fn lemma_concat_contains<T>(a: Seq<T>, b: Seq<T>, y: T)
    ensures
        (a + b).contains(y) <==> (a.contains(y) || b.contains(y)),
{
    let c = a + b;
    if a.contains(y) {
        let i = choose|i: int| 0 <= i < a.len() && a[i] == y;
        assert(c[i] == y);
    }
    if b.contains(y) {
        let i = choose|i: int| 0 <= i < b.len() && b[i] == y;
        assert(c[a.len() + i] == y);
    }
}

/// `absorbed` holds what `base` or `extra` holds, and nothing twice that
/// `base` does not hold twice.
pub proof fn lemma_absorbed_members(base: Seq<Seq<char>>, extra: Seq<Seq<char>>)
    ensures
        forall|x: Seq<char>|
            absorbed(base, extra).contains(x) <==> (base.contains(x) || extra.contains(x)),
        base.no_duplicates() ==> absorbed(base, extra).no_duplicates(),
    decreases extra.len(),
{
    if extra.len() > 0 {
        let head = extra.drop_last();
        let last = extra.last();
        let rest = absorbed(base, head);
        lemma_absorbed_members(base, head);
        assert(head.push(last) =~= extra);
        assert forall|x: Seq<char>|
            absorbed(base, extra).contains(x) <==> (base.contains(x) || extra.contains(x)) by {
            lemma_push_contains(rest, last, x);
            lemma_push_contains(head, last, x);
        }
    } else {
        assert forall|x: Seq<char>| !extra.contains(x) by {}
    }
}

/// Absorbing one more element is one step of `absorbed`.
pub proof fn lemma_absorbed_push(base: Seq<Seq<char>>, extra: Seq<Seq<char>>, x: Seq<char>)
    ensures
        absorbed(base, extra.push(x)) == if absorbed(base, extra).contains(x) {
            absorbed(base, extra)
        } else {
            absorbed(base, extra).push(x)
        },
{
    assert(extra.push(x).drop_last() =~= extra);
}

/// Absorbing a concatenation is absorbing its parts in turn.
pub proof fn lemma_absorbed_concat(base: Seq<Seq<char>>, x: Seq<Seq<char>>, y: Seq<Seq<char>>)
    ensures
        absorbed(base, x + y) == absorbed(absorbed(base, x), y),
    decreases y.len(),
{
    if y.len() > 0 {
        lemma_absorbed_concat(base, x, y.drop_last());
        assert((x + y).drop_last() =~= x + y.drop_last());
    }
}

/// Absorbing what `base` holds already changes nothing.
pub proof fn lemma_absorbed_known(base: Seq<Seq<char>>, extra: Seq<Seq<char>>)
    requires
        forall|i: int| 0 <= i < extra.len() ==> base.contains(#[trigger] extra[i]),
    ensures
        absorbed(base, extra) == base,
    decreases extra.len(),
{
    if extra.len() > 0 {
        let head = extra.drop_last();
        assert forall|i: int| 0 <= i < head.len() implies base.contains(#[trigger] head[i]) by {}
        lemma_absorbed_known(base, head);
    }
}

/// `absorbed` only appends: it begins with `base`.
pub proof fn lemma_absorbed_extends(base: Seq<Seq<char>>, extra: Seq<Seq<char>>)
    ensures
        absorbed(base, extra).len() >= base.len(),
        absorbed(base, extra).take(base.len() as int) == base,
        absorbed(base, extra).len() == base.len() ==> absorbed(base, extra) == base,
    decreases extra.len(),
{
    if extra.len() == 0 {
        assert(base.take(base.len() as int) =~= base);
    } else {
        lemma_absorbed_extends(base, extra.drop_last());
        let rest = absorbed(base, extra.drop_last());
        assert(rest.push(extra.last()).take(base.len() as int) =~= rest.take(base.len() as int));
    }
    let r = absorbed(base, extra);
    if r.len() == base.len() {
        assert(r.take(base.len() as int) =~= r);
    }
}

/// Whether `items` holds a string equal to `s`.
pub fn holds(items: &Vec<String>, s: &str) -> (r: bool)
    ensures
        r == items.deep_view().contains(s@),
{
    let mut i: usize = 0;
    while i < items.len()
        invariant
            i <= items.len(),
            forall|j: int| 0 <= j < i ==> items.deep_view()[j] != s@,
        decreases items.len() - i,
    {
        if same_str(items[i].as_str(), s) {
            assert(items.deep_view()[i as int] == s@);
            return true;
        }
        i += 1;
    }
    false
}

/// Appends `s` to `items` unless they hold it already.
pub fn absorb(items: &mut Vec<String>, s: &str)
    ensures
        final(items).deep_view() == absorbed(old(items).deep_view(), seq![s@]),
{
    let ghost before = items.deep_view();
    proof {
        lemma_absorbed_push(before, Seq::empty(), s@);
    }
    if !holds(items, s) {
        items.push(s.to_owned());
    }
}

/// Appends to `items`, in order, each of `extra` that they do not hold yet.
pub fn absorb_all(items: &mut Vec<String>, extra: &Vec<String>)
    ensures
        final(items).deep_view() == absorbed(old(items).deep_view(), extra.deep_view()),
{
    let ghost base = items.deep_view();
    let mut i: usize = 0;
    while i < extra.len()
        invariant
            i <= extra.len(),
            items.deep_view() == absorbed(base, extra.deep_view().take(i as int)),
        decreases extra.len() - i,
    {
        proof {
            let head = extra.deep_view().take(i as int);
            lemma_absorbed_concat(base, head, seq![extra.deep_view()[i as int]]);
            assert(head + seq![extra.deep_view()[i as int]] =~= extra.deep_view().take(i + 1));
        }
        absorb(items, extra[i].as_str());
        i += 1;
    }
    assert(extra.deep_view().take(extra.len() as int) =~= extra.deep_view());
}

} // verus!
