//! A map from strings to values that remembers the order in which its keys
//! first came.

use crate::boundary::same_text;
use vstd::prelude::*;

verus! {

/// The index at which `key` stands in `entries`, if it stands there.
pub open spec fn find_key<V>(entries: Seq<(Seq<char>, V)>, key: Seq<char>) -> Option<int>
    decreases entries.len(),
{
    if entries.len() == 0 {
        None
    } else if entries.last().0 == key {
        Some(entries.len() - 1)
    } else {
        find_key(entries.drop_last(), key)
    }
}

/// No key stands twice in `entries`.
pub open spec fn keys_distinct<V>(entries: Seq<(Seq<char>, V)>) -> bool {
    forall|i: int, j: int|
        0 <= i < j < entries.len() ==> (#[trigger] entries[i]).0 != (#[trigger] entries[j]).0
}

/// `entries` after `key` is given `value`: where the key stands already, its
/// value is replaced and its place kept; else the pair comes last.
pub open spec fn insert_entry<V>(entries: Seq<(Seq<char>, V)>, key: Seq<char>, value: V) -> Seq<
    (Seq<char>, V),
> {
    match find_key(entries, key) {
        Some(i) => entries.update(i, (key, value)),
        None => entries.push((key, value)),
    }
}

/// The value that `entries` holds for `key`.
pub open spec fn lookup<V>(entries: Seq<(Seq<char>, V)>, key: Seq<char>) -> Option<V> {
    match find_key(entries, key) {
        Some(i) => Some(entries[i].1),
        None => None,
    }
}

/// `find_key` returns an index of the key, and `None` only if the key stands
/// nowhere.
pub proof fn lemma_find_key<V>(entries: Seq<(Seq<char>, V)>, key: Seq<char>)
    ensures
        match find_key(entries, key) {
            Some(i) => 0 <= i < entries.len() && entries[i].0 == key,
            None => forall|k: int| 0 <= k < entries.len() ==> (#[trigger] entries[k]).0 != key,
        },
    decreases entries.len(),
{
    if entries.len() > 0 && entries.last().0 != key {
        let front = entries.drop_last();
        lemma_find_key(front, key);
        if find_key(front, key) is None {
            assert forall|k: int| 0 <= k < entries.len() implies (#[trigger] entries[k]).0
                != key by {
                if k < front.len() {
                    assert(front[k].0 != key);
                }
            }
        }
    }
}

/// Among distinct keys, the index of a key is the one place where it stands.
pub proof fn lemma_find_key_at<V>(entries: Seq<(Seq<char>, V)>, i: int)
    requires
        keys_distinct(entries),
        0 <= i < entries.len(),
    ensures
        find_key(entries, entries[i].0) == Some(i),
{
    lemma_find_key(entries, entries[i].0);
}

/// Giving a key a value keeps the keys distinct, and then the key has that
/// value and every other key the value it had.
pub proof fn lemma_insert_entry<V>(entries: Seq<(Seq<char>, V)>, key: Seq<char>, value: V)
    requires
        keys_distinct(entries),
    ensures
        keys_distinct(insert_entry(entries, key, value)),
        lookup(insert_entry(entries, key, value), key) == Some(value),
        forall|other: Seq<char>|
            other != key ==> lookup(insert_entry(entries, key, value), other) == lookup(
                entries,
                other,
            ),
{
    let after = insert_entry(entries, key, value);
    lemma_find_key(entries, key);
    assert(keys_distinct(after));
    lemma_find_key(after, key);
    match find_key(entries, key) {
        Some(i) => {
            lemma_find_key_at(after, i);
        },
        None => {
            lemma_find_key_at(after, entries.len() as int);
        },
    }
    assert forall|other: Seq<char>| other != key implies lookup(after, other) == lookup(
        entries,
        other,
    ) by {
        lemma_find_key(entries, other);
        lemma_find_key(after, other);
        match find_key(entries, other) {
            Some(j) => {
                lemma_find_key_at(after, j);
            },
            None => {
                if find_key(after, other) is Some {
                    let j = find_key(after, other)->0;
                    assert(after[j].0 == other);
                    if j < entries.len() {
                        assert(entries[j].0 == other);
                    }
                }
            },
        }
    }
}

/// The entries with each value by its view.
pub open spec fn entry_views<V: View>(entries: Seq<(Seq<char>, V)>) -> Seq<(Seq<char>, V::V)> {
    Seq::new(entries.len(), |i: int| (entries[i].0, entries[i].1@))
}

/// A key stands among the viewed entries where it stands among the entries.
pub proof fn lemma_find_key_in_views<V: View>(entries: Seq<(Seq<char>, V)>, key: Seq<char>)
    ensures
        find_key(entry_views(entries), key) == find_key(entries, key),
    decreases entries.len(),
{
    if entries.len() > 0 {
        assert(entry_views(entries).drop_last() =~= entry_views(entries.drop_last()));
        lemma_find_key_in_views(entries.drop_last(), key);
    }
}

/// Giving a key a value does to the viewed entries what it does to the
/// entries.
pub proof fn lemma_entry_views_insert<V: View>(
    entries: Seq<(Seq<char>, V)>,
    key: Seq<char>,
    value: V,
)
    ensures
        entry_views(insert_entry(entries, key, value)) == insert_entry(
            entry_views(entries),
            key,
            value@,
        ),
{
    lemma_find_key_in_views(entries, key);
    lemma_find_key(entries, key);
    assert(entry_views(insert_entry(entries, key, value)) =~= insert_entry(
        entry_views(entries),
        key,
        value@,
    ));
}

/// A map from strings to values, in the order in which the keys first came.
///
/// The view is the sequence of its entries, each a key and its value. No
/// key stands twice.
#[derive(Debug)]
pub struct StrMap<V> {
    entries: Vec<(String, V)>,
}

/// The entries as the contracts see them: each key by its characters.
pub open spec fn entries_view<V>(entries: Seq<(String, V)>) -> Seq<(Seq<char>, V)> {
    Seq::new(entries.len(), |i: int| (entries[i].0@, entries[i].1))
}

impl<V> View for StrMap<V> {
    type V = Seq<(Seq<char>, V)>;

    closed spec fn view(&self) -> Seq<(Seq<char>, V)> {
        entries_view(self.entries@)
    }
}

impl<V> StrMap<V> {
    #[verifier::type_invariant]
    spec fn distinct(&self) -> bool {
        keys_distinct(self@)
    }

    /// An empty map.
    pub fn new() -> (m: Self)
        ensures
            m@ == Seq::<(Seq<char>, V)>::empty(),
    {
        let m = StrMap { entries: Vec::new() };
        assert(m@ =~= Seq::<(Seq<char>, V)>::empty());
        m
    }

    /// The number of keys.
    pub fn len(&self) -> (n: usize)
        ensures
            n == self@.len(),
            keys_distinct(self@),
    {
        proof {
            use_type_invariant(self);
        }
        self.entries.len()
    }

    /// The key at place `i`.
    pub fn key_at(&self, i: usize) -> (key: &String)
        requires
            i < self@.len(),
        ensures
            key@ == self@[i as int].0,
    {
        &self.entries[i].0
    }

    /// The value at place `i`.
    pub fn value_at(&self, i: usize) -> (value: &V)
        requires
            i < self@.len(),
        ensures
            *value == self@[i as int].1,
    {
        &self.entries[i].1
    }

    /// The place of `key`, if the map holds it.
    fn position(&self, key: &str) -> (r: Option<usize>)
        ensures
            keys_distinct(self@),
            match r {
                Some(i) => find_key(self@, key@) == Some(i as int) && i < self@.len(),
                None => find_key(self@, key@) is None,
            },
    {
        proof {
            use_type_invariant(self);
            lemma_find_key(self@, key@);
        }
        let mut i: usize = 0;
        while i < self.entries.len()
            invariant
                i <= self.entries@.len(),
                self@.len() == self.entries@.len(),
                keys_distinct(self@),
                forall|k: int| 0 <= k < i ==> (#[trigger] self@[k]).0 != key@,
            decreases self.entries@.len() - i,
        {
            if same_text(self.entries[i].0.as_str(), key) {
                proof {
                    assert(self@[i as int].0 == key@);
                    lemma_find_key_at(self@, i as int);
                }
                return Some(i);
            }
            i += 1;
        }
        None
    }

    /// The value of `key`, if the map holds it.
    pub fn get(&self, key: &str) -> (r: Option<&V>)
        ensures
            match r {
                Some(v) => lookup(self@, key@) == Some(*v),
                None => lookup(self@, key@) is None,
            },
    {
        match self.position(key) {
            Some(i) => Some(&self.entries[i].1),
            None => None,
        }
    }

    /// Gives `key` the value `value`. A key that the map holds keeps its
    /// place and loses its old value; a new key comes last.
    pub fn insert(&mut self, key: String, value: V)
        ensures
            final(self)@ == insert_entry(old(self)@, key@, value),
            keys_distinct(final(self)@),
    {
        let ghost before = self@;
        proof {
            use_type_invariant(&*self);
            lemma_insert_entry(before, key@, value);
        }
        let place = self.position(key.as_str());
        let mut taken = StrMap { entries: Vec::new() };
        assert(taken@ =~= Seq::<(Seq<char>, V)>::empty());
        core::mem::swap(self, &mut taken);
        let mut entries = taken.entries;
        match place {
            Some(i) => {
                entries.set(i, (key, value));
            },
            None => {
                entries.push((key, value));
            },
        }
        assert(entries_view(entries@) =~= insert_entry(before, key@, value));
        *self = StrMap { entries };
    }
}

impl Clone for StrMap<String> {
    fn clone(&self) -> (copy: Self)
        ensures
            copy@ == self@,
    {
        proof {
            use_type_invariant(self);
        }
        let mut entries: Vec<(String, String)> = Vec::new();
        let mut i: usize = 0;
        while i < self.entries.len()
            invariant
                i <= self.entries@.len(),
                entries@.len() == i,
                forall|k: int| 0 <= k < i ==> entries@[k] == self.entries@[k],
            decreases self.entries@.len() - i,
        {
            let key = self.entries[i].0.clone();
            let value = self.entries[i].1.clone();
            entries.push((key, value));
            i += 1;
        }
        assert(entries@ =~= self.entries@);
        StrMap { entries }
    }
}

} // verus!
