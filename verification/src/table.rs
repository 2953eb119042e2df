//! An insertion-ordered table keyed by strings.
//!
//! The table keeps its entries in the order in which their keys were first
//! inserted and never holds a key twice. Its view is the sequence of its
//! entries, each as the view of its key and the deep view of its value.

use crate::text::same_str;
use vstd::prelude::*;

verus! {

/// The keys of `s`, in order.
pub open spec fn keys<T>(s: Seq<(Seq<char>, T)>) -> Seq<Seq<char>> {
    Seq::new(s.len(), |i: int| s[i].0)
}

/// No key occurs twice in `s`.
pub open spec fn distinct_keys<T>(s: Seq<(Seq<char>, T)>) -> bool {
    forall|i: int, j: int| 0 <= i < j < s.len() ==> s[i].0 != s[j].0
}

/// Whether some entry of `s` has the key `key`.
pub open spec fn has_key<T>(s: Seq<(Seq<char>, T)>, key: Seq<char>) -> bool {
    exists|i: int| 0 <= i < s.len() && s[i].0 == key
}

/// The index of the first entry of `s` with the key `key`.
pub open spec fn position_of<T>(s: Seq<(Seq<char>, T)>, key: Seq<char>) -> Option<int>
    decreases s.len(),
{
    if s.len() == 0 {
        None
    } else if s[0].0 == key {
        Some(0)
    } else {
        match position_of(s.drop_first(), key) {
            Some(i) => Some(i + 1),
            None => None,
        }
    }
}

/// The value that `s` holds for `key`.
pub open spec fn lookup<T>(s: Seq<(Seq<char>, T)>, key: Seq<char>) -> Option<T> {
    match position_of(s, key) {
        Some(i) => Some(s[i].1),
        None => None,
    }
}

/// `s` with `value` under `key`: in the place of the entry that had the key,
/// or at the end where there was none.
pub open spec fn inserted<T>(s: Seq<(Seq<char>, T)>, key: Seq<char>, value: T) -> Seq<
    (Seq<char>, T),
> {
    match position_of(s, key) {
        Some(i) => s.update(i, (key, value)),
        None => s.push((key, value)),
    }
}

/// `s` without the entry for `key`; the other entries keep their order.
pub open spec fn removed<T>(s: Seq<(Seq<char>, T)>, key: Seq<char>) -> Seq<(Seq<char>, T)> {
    match position_of(s, key) {
        Some(i) => s.remove(i),
        None => s,
    }
}

/// The mapping that `s` stands for: each key with the value of its first
/// entry.
pub open spec fn as_map<T>(s: Seq<(Seq<char>, T)>) -> Map<Seq<char>, T> {
    Map::new(|key: Seq<char>| has_key(s, key), |key: Seq<char>| lookup(s, key)->0)
}

/// `position_of` finds the first entry with the key, if there is one.
pub proof fn lemma_position_of<T>(s: Seq<(Seq<char>, T)>, key: Seq<char>)
    ensures
        match position_of(s, key) {
            Some(i) => 0 <= i < s.len() && s[i].0 == key && forall|k: int|
                0 <= k < i ==> s[k].0 != key,
            None => forall|k: int| 0 <= k < s.len() ==> s[k].0 != key,
        },
        position_of(s, key) is Some <==> has_key(s, key),
    decreases s.len(),
{
    if s.len() > 0 && s[0].0 != key {
        let t = s.drop_first();
        lemma_position_of(t, key);
        match position_of(t, key) {
            Some(i) => {
                assert forall|k: int| 0 <= k < i + 1 implies s[k].0 != key by {
                    if k > 0 {
                        assert(s[k] == t[k - 1]);
                    }
                }
            },
            None => {
                assert forall|k: int| 0 <= k < s.len() implies s[k].0 != key by {
                    if k > 0 {
                        assert(s[k] == t[k - 1]);
                    }
                }
            },
        }
    }
}

/// An entry with the key and none before it is the position of the key.
pub proof fn lemma_position_is<T>(s: Seq<(Seq<char>, T)>, key: Seq<char>, i: int)
    requires
        0 <= i < s.len(),
        s[i].0 == key,
        forall|k: int| 0 <= k < i ==> s[k].0 != key,
    ensures
        position_of(s, key) == Some(i),
{
    lemma_position_of(s, key);
}

/// Insertion keeps the keys distinct and makes `key` map to `value`, leaving
/// every other key as it was.
pub proof fn lemma_inserted<T>(s: Seq<(Seq<char>, T)>, key: Seq<char>, value: T)
    requires
        distinct_keys(s),
    ensures
        distinct_keys(inserted(s, key, value)),
        lookup(inserted(s, key, value), key) == Some(value),
        forall|k: Seq<char>| k != key ==> lookup(inserted(s, key, value), k) == lookup(s, k),
        has_key(s, key) ==> keys(inserted(s, key, value)) == keys(s),
        !has_key(s, key) ==> keys(inserted(s, key, value)) == keys(s).push(key),
{
    let r = inserted(s, key, value);
    lemma_position_of(s, key);
    lemma_position_of(r, key);
    match position_of(s, key) {
        Some(i) => {
            assert(r[i].0 == key);
            assert(keys(r) =~= keys(s));
        },
        None => {
            assert(r[s.len() as int].0 == key);
            assert(keys(r) =~= keys(s).push(key));
        },
    }
    assert forall|k: Seq<char>| k != key implies lookup(r, k) == lookup(s, k) by {
        lemma_position_of(s, k);
        lemma_position_of(r, k);
        match position_of(s, k) {
            Some(j) => {
                assert(r[j] == s[j]);
                assert forall|m: int| 0 <= m < j implies r[m].0 != k by {
                    assert(r[m].0 == s[m].0 || r[m].0 == key);
                }
                lemma_position_is(r, k, j);
            },
            None => {
                if position_of(r, k) is Some {
                    let j = position_of(r, k)->0;
                    assert(j < s.len() ==> r[j].0 == s[j].0 || r[j].0 == key);
                }
            },
        }
    }
}

/// Removal keeps the keys distinct, unmaps `key` and leaves every other key
/// as it was.
pub proof fn lemma_removed<T>(s: Seq<(Seq<char>, T)>, key: Seq<char>)
    requires
        distinct_keys(s),
    ensures
        distinct_keys(removed(s, key)),
        !has_key(removed(s, key), key),
        forall|k: Seq<char>| k != key ==> lookup(removed(s, key), k) == lookup(s, k),
{
    let r = removed(s, key);
    lemma_position_of(s, key);
    lemma_position_of(r, key);
    assert forall|k: Seq<char>| k != key implies lookup(r, k) == lookup(s, k) by {
        lemma_position_of(s, k);
        lemma_position_of(r, k);
        if position_of(s, key) is Some {
            let i = position_of(s, key)->0;
            match position_of(s, k) {
                Some(j) => {
                    let jr = if j < i { j } else { j - 1 };
                    assert(r[jr] == s[j]);
                    assert forall|m: int| 0 <= m < jr implies r[m].0 != k by {
                        assert(r[m] == s[if m < i { m } else { m + 1 }]);
                    }
                    lemma_position_is(r, k, jr);
                },
                None => {
                    if position_of(r, k) is Some {
                        let j = position_of(r, k)->0;
                        assert(r[j] == s[if j < i { j } else { j + 1 }]);
                    }
                },
            }
        }
    }
}

/// Insertion and removal make no entry but the inserted one: every other
/// entry of the result is an entry of `s`.
pub proof fn lemma_entries_kept<T>(s: Seq<(Seq<char>, T)>, key: Seq<char>, value: T)
    ensures
        forall|i: int|
            0 <= i < inserted(s, key, value).len() ==> (#[trigger] inserted(s, key, value)[i]) == (
                key,
                value,
            ) || s.contains(inserted(s, key, value)[i]),
        forall|i: int| 0 <= i < removed(s, key).len() ==> s.contains(#[trigger] removed(s, key)[i]),
{
    lemma_position_of(s, key);
    let put = inserted(s, key, value);
    let cut = removed(s, key);
    assert forall|i: int| 0 <= i < put.len() implies (#[trigger] put[i]) == (key, value)
        || s.contains(put[i]) by {
        if put[i] != (key, value) {
            assert(s[i] == put[i]);
        }
    }
    assert forall|i: int| 0 <= i < cut.len() implies s.contains(#[trigger] cut[i]) by {
        match position_of(s, key) {
            Some(p) => {
                if i < p {
                    assert(s[i] == cut[i]);
                } else {
                    assert(s[i + 1] == cut[i]);
                }
            },
            None => {
                assert(s[i] == cut[i]);
            },
        }
    }
}

/// As mappings, insertion is insertion and removal is removal; a lookup
/// finds what the mapping holds.
pub proof fn lemma_as_map<T>(s: Seq<(Seq<char>, T)>, key: Seq<char>, value: T)
    requires
        distinct_keys(s),
    ensures
        as_map(inserted(s, key, value)) == as_map(s).insert(key, value),
        as_map(removed(s, key)) == as_map(s).remove(key),
        lookup(s, key) == if as_map(s).dom().contains(key) {
            Some(as_map(s)[key])
        } else {
            None
        },
        as_map(Seq::<(Seq<char>, T)>::empty()) == Map::<Seq<char>, T>::empty(),
{
    lemma_inserted(s, key, value);
    lemma_removed(s, key);
    lemma_position_of(s, key);
    let put = inserted(s, key, value);
    let cut = removed(s, key);
    assert forall|k: Seq<char>| has_key(put, k) <==> (has_key(s, k) || k == key) by {
        lemma_position_of(s, k);
        lemma_position_of(put, k);
        if k != key {
            assert(lookup(put, k) == lookup(s, k));
        }
    }
    assert forall|k: Seq<char>| has_key(cut, k) <==> (has_key(s, k) && k != key) by {
        lemma_position_of(s, k);
        lemma_position_of(cut, k);
        if k != key {
            assert(lookup(cut, k) == lookup(s, k));
        }
    }
    assert forall|k: Seq<char>| k != key implies lookup(put, k) == lookup(s, k) && lookup(cut, k)
        == lookup(s, k) by {}
    assert forall|k: Seq<char>| !has_key(Seq::<(Seq<char>, T)>::empty(), k) by {}
}

/// An insertion-ordered table from strings to values of type `V`.
#[derive(Debug)]
pub struct Table<V: DeepView> {
    entries: Vec<(String, V)>,
}

/// The view of a sequence of stored entries.
pub open spec fn entries_view<V: DeepView>(entries: Seq<(String, V)>) -> Seq<(Seq<char>, V::V)> {
    Seq::new(entries.len(), |i: int| (entries[i].0@, entries[i].1.deep_view()))
}

impl<V: DeepView> View for Table<V> {
    type V = Seq<(Seq<char>, V::V)>;

    closed spec fn view(&self) -> Self::V {
        entries_view(self.entries@)
    }
}

impl<V: DeepView> Table<V> {
    #[verifier::type_invariant]
    spec fn well_formed(self) -> bool {
        distinct_keys(self@)
    }

    /// An empty table.
    pub fn new() -> (r: Self)
        ensures
            r@ == Seq::<(Seq<char>, V::V)>::empty(),
    {
        let r = Table { entries: Vec::new() };
        r
    }

    /// The number of entries; as a side effect of the call, the caller learns
    /// that the keys are distinct.
    pub fn len(&self) -> (n: usize)
        ensures
            n == self@.len(),
            distinct_keys(self@),
    {
        proof {
            use_type_invariant(self);
        }
        self.entries.len()
    }

    /// The key of the entry at `i`.
    pub fn key_at(&self, i: usize) -> (r: &String)
        requires
            i < self@.len(),
        ensures
            r@ == self@[i as int].0,
    {
        &self.entries[i].0
    }

    /// The value of the entry at `i`.
    pub fn value_at(&self, i: usize) -> (r: &V)
        requires
            i < self@.len(),
        ensures
            r.deep_view() == self@[i as int].1,
    {
        &self.entries[i].1
    }

    /// The index of the entry for `key`.
    pub fn position(&self, key: &str) -> (r: Option<usize>)
        ensures
            r is Some <==> position_of(self@, key@) is Some,
            r is Some ==> r->0 as int == position_of(self@, key@)->0,
            r is Some ==> r->0 < self@.len(),
            distinct_keys(self@),
    {
        proof {
            use_type_invariant(self);
        }
        let mut i: usize = 0;
        while i < self.entries.len()
            invariant
                i <= self.entries@.len(),
                self.entries@.len() == self@.len(),
                distinct_keys(self@),
                forall|j: int| 0 <= j < i ==> self@[j].0 != key@,
            decreases self.entries@.len() - i,
        {
            if same_str(self.entries[i].0.as_str(), key) {
                proof {
                    lemma_position_is(self@, key@, i as int);
                }
                return Some(i);
            }
            i += 1;
        }
        proof {
            lemma_position_of(self@, key@);
        }
        None
    }

    /// The value stored under `key`.
    pub fn get(&self, key: &str) -> (r: Option<&V>)
        ensures
            r is Some <==> lookup(self@, key@) is Some,
            r is Some ==> r->0.deep_view() == lookup(self@, key@)->0,
    {
        match self.position(key) {
            Some(i) => Some(&self.entries[i].1),
            None => None,
        }
    }

    /// Stores `value` under `key`, in the place of the entry that had the key
    /// or at the end where there was none.
    pub fn insert(&mut self, key: String, value: V)
        ensures
            final(self)@ == inserted(old(self)@, key@, value.deep_view()),
    {
        let found = self.position(key.as_str());
        proof {
            lemma_inserted(self@, key@, value.deep_view());
        }
        let ghost before = self@;
        let mut entries: Vec<(String, V)> = Vec::new();
        std::mem::swap(&mut entries, &mut self.entries);
        let ghost after = inserted(before, key@, value.deep_view());
        match found {
            Some(i) => {
                entries.set(i, (key, value));
            },
            None => {
                entries.push((key, value));
            },
        }
        assert(entries_view(entries@) =~= after);
        self.entries = entries;
    }

    /// Drops the entry for `key`, if there is one.
    pub fn remove(&mut self, key: &str)
        ensures
            final(self)@ == removed(old(self)@, key@),
    {
        let found = self.position(key);
        proof {
            lemma_removed(self@, key@);
        }
        let ghost before = self@;
        match found {
            Some(i) => {
                let mut entries: Vec<(String, V)> = Vec::new();
                std::mem::swap(&mut entries, &mut self.entries);
                entries.remove(i);
                assert(entries_view(entries@) =~= removed(before, key@));
                self.entries = entries;
            },
            None => {},
        }
    }
}

} // verus!
