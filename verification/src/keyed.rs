//! `KeyedMap`: string-keyed entries held in key order, each key once. It
//! is the map behind every id- or option-keyed collection of the library,
//! so iteration (and with it the first error a check reports) follows key
//! order.

use vstd::prelude::*;

use crate::text::{chars_equal, chars_less, chars_of, lemma_lex_asymmetric, lemma_lex_irreflexive, lemma_lex_total, lemma_lex_transitive, lex_lt};

verus! {

/// The keys of an entry sequence, in order.
pub open spec fn keys_of<T>(s: Seq<(Seq<char>, T)>) -> Seq<Seq<char>> {
    s.map_values(|e: (Seq<char>, T)| e.0)
}

/// Keys strictly increasing in string order (hence each key once).
pub open spec fn strictly_sorted(ks: Seq<Seq<char>>) -> bool {
    forall|i: int, j: int| 0 <= i < j < ks.len() ==> lex_lt(#[trigger] ks[i], #[trigger] ks[j])
}

/// Whether some entry carries key `k`.
pub open spec fn has_key<T>(s: Seq<(Seq<char>, T)>, k: Seq<char>) -> bool {
    exists|i: int| 0 <= i < s.len() && #[trigger] s[i].0 == k
}

/// The position of the entry with key `k` (meaningful when `has_key`).
pub open spec fn index_of_key<T>(s: Seq<(Seq<char>, T)>, k: Seq<char>) -> int {
    choose|i: int| 0 <= i < s.len() && #[trigger] s[i].0 == k
}

/// The value stored under `k`, if any.
pub open spec fn lookup<T>(s: Seq<(Seq<char>, T)>, k: Seq<char>) -> Option<T> {
    if has_key(s, k) {
        Some(s[index_of_key(s, k)].1)
    } else {
        None
    }
}

/// In a strictly sorted sequence the entry with a given key is the one at
/// any position that carries it.
pub proof fn lemma_lookup_at<T>(s: Seq<(Seq<char>, T)>, i: int)
    requires
        strictly_sorted(keys_of(s)),
        0 <= i < s.len(),
    ensures
        lookup(s, s[i].0) == Some(s[i].1),
        index_of_key(s, s[i].0) == i,
{
    assert(has_key(s, s[i].0));
    let j = index_of_key(s, s[i].0);
    if j != i {
        assert(keys_of(s)[i] == s[i].0);
        assert(keys_of(s)[j] == s[j].0);
        if i < j {
            assert(lex_lt(keys_of(s)[i], keys_of(s)[j]));
        } else {
            assert(lex_lt(keys_of(s)[j], keys_of(s)[i]));
        }
        lemma_lex_irreflexive(s[i].0);
    }
}

/// String-keyed entries in key order.
#[derive(Debug, PartialEq)]
pub struct KeyedMap<T> {
    entries: Vec<(String, T)>,
}

impl<T> View for KeyedMap<T> {
    type V = Seq<(Seq<char>, T)>;

    closed spec fn view(&self) -> Seq<(Seq<char>, T)> {
        self.entries@.map_values(|e: (String, T)| (e.0@, e.1))
    }
}

impl<T> KeyedMap<T> {
    /// Every key once, in string order.
    #[verifier::type_invariant]
    pub open spec fn keys_in_order(self) -> bool {
        strictly_sorted(keys_of(self@))
    }

    /// The empty map.
    pub fn new() -> (m: Self)
        ensures
            m@ == Seq::<(Seq<char>, T)>::empty(),
    {
        let m = KeyedMap { entries: Vec::new() };
        assert(m@ =~= Seq::<(Seq<char>, T)>::empty());
        m
    }

    /// Number of entries.
    pub fn len(&self) -> (n: usize)
        ensures
            n == self@.len(),
            strictly_sorted(keys_of(self@)),
    {
        proof {
            use_type_invariant(self);
        }
        self.entries.len()
    }

    /// Whether the map holds no entry.
    pub fn is_empty(&self) -> (b: bool)
        ensures
            b == (self@.len() == 0),
    {
        self.entries.len() == 0
    }

    /// The entries, in key order.
    pub fn entries(&self) -> (r: &Vec<(String, T)>)
        ensures
            r@.len() == self@.len(),
            forall|i: int|
                0 <= i < r@.len() ==> (#[trigger] r@[i]).0@ == self@[i].0 && r@[i].1 == self@[i].1,
            strictly_sorted(keys_of(self@)),
    {
        proof {
            use_type_invariant(self);
        }
        &self.entries
    }

    /// The entries, in key order, by value.
    pub fn into_entries(self) -> (r: Vec<(String, T)>)
        ensures
            r@.len() == self@.len(),
            forall|i: int|
                0 <= i < r@.len() ==> (#[trigger] r@[i]).0@ == self@[i].0 && r@[i].1 == self@[i].1,
            strictly_sorted(keys_of(self@)),
    {
        proof {
            use_type_invariant(&self);
        }
        self.entries
    }

    /// Where `key` stands: the number of keys sorting before it, and
    /// whether the entry at that position carries `key` itself.
    fn position(&self, key: &Vec<char>) -> (r: (usize, bool))
        ensures
            r.0 <= self@.len(),
            forall|i: int| 0 <= i < r.0 ==> lex_lt(#[trigger] self@[i].0, key@),
            r.1 ==> r.0 < self@.len() && self@[r.0 as int].0 == key@,
            !r.1 ==> forall|i: int| r.0 <= i < self@.len() ==> lex_lt(key@, #[trigger] self@[i].0),
            r.1 == has_key(self@, key@),
    {
        proof {
            use_type_invariant(self);
        }
        let mut i: usize = 0;
        while i < self.entries.len()
            invariant
                i <= self@.len(),
                self@.len() == self.entries@.len(),
                strictly_sorted(keys_of(self@)),
                forall|j: int| 0 <= j < i ==> lex_lt(#[trigger] self@[j].0, key@),
            decreases self.entries.len() - i,
        {
            let k = chars_of(self.entries[i].0.as_str());
            assert(k@ == self@[i as int].0);
            if !chars_less(&k, key) {
                proof {
                    lemma_lex_total(k@, key@);
                }
                if chars_equal(&k, key) {
                    return (i, true);
                }
                proof {
                    assert forall|j: int| i <= j < self@.len() implies lex_lt(key@, #[trigger] self@[j].0) by {
                        if j > i {
                            assert(keys_of(self@)[i as int] == self@[i as int].0);
                            assert(keys_of(self@)[j] == self@[j].0);
                            lemma_lex_transitive(key@, self@[i as int].0, self@[j].0);
                        }
                    }
                    assert forall|j: int| 0 <= j < self@.len() implies self@[j].0 != key@ by {
                        if j >= i {
                            lemma_lex_irreflexive(key@);
                        } else {
                            lemma_lex_irreflexive(key@);
                        }
                    }
                }
                return (i, false);
            }
            i += 1;
        }
        proof {
            assert forall|j: int| 0 <= j < self@.len() implies self@[j].0 != key@ by {
                lemma_lex_irreflexive(key@);
            }
        }
        (i, false)
    }

    /// Whether some entry carries `key`.
    pub fn contains_key(&self, key: &str) -> (b: bool)
        ensures
            b == has_key(self@, key@),
    {
        let k = chars_of(key);
        self.position(&k).1
    }

    /// The value stored under `key`, if any.
    pub fn get(&self, key: &str) -> (r: Option<&T>)
        ensures
            match lookup(self@, key@) {
                Some(v) => r == Some(&v),
                None => r is None,
            },
    {
        proof {
            use_type_invariant(self);
        }
        let k = chars_of(key);
        let (i, found) = self.position(&k);
        if found {
            proof {
                lemma_lookup_at(self@, i as int);
            }
            Some(&self.entries[i].1)
        } else {
            None
        }
    }

    /// Inserts `value` under `key`, replacing and returning the value that
    /// was there. Every other key keeps its value; the order stays sorted.
    pub fn insert(&mut self, key: String, value: T) -> (old_value: Option<T>)
        ensures
            old_value == lookup(old(self)@, key@),
            lookup(final(self)@, key@) == Some(value),
            forall|k: Seq<char>| k != key@ ==> #[trigger] lookup(final(self)@, k) == lookup(old(self)@, k),
            has_key(old(self)@, key@) ==> final(self)@.len() == old(self)@.len(),
            !has_key(old(self)@, key@) ==> final(self)@.len() == old(self)@.len() + 1,
            strictly_sorted(keys_of(final(self)@)),
    {
        proof {
            use_type_invariant(&*self);
        }
        let k = chars_of(key.as_str());
        let (i, found) = self.position(&k);
        let ghost before = self@;
        if found {
            proof {
                lemma_lookup_at(before, i as int);
            }
            let mut entries: Vec<(String, T)> = Vec::new();
            std::mem::swap(&mut entries, &mut self.entries);
            let (_, previous) = entries.remove(i);
            entries.insert(i, (key, value));
            proof {
                let after = entries@.map_values(|e: (String, T)| (e.0@, e.1));
                assert(after =~= before.update(i as int, (k@, value)));
                assert(keys_of(after) =~= keys_of(before));
                lemma_lookup_at(after, i as int);
                assert forall|q: Seq<char>| q != k@ implies #[trigger] lookup(after, q) == lookup(before, q) by {
                    lemma_lookup_update(before, i as int, k@, value, q);
                }
            }
            self.entries = entries;
            Some(previous)
        } else {
            let mut entries: Vec<(String, T)> = Vec::new();
            std::mem::swap(&mut entries, &mut self.entries);
            entries.insert(i, (key, value));
            proof {
                let after = entries@.map_values(|e: (String, T)| (e.0@, e.1));
                assert(after =~= before.insert(i as int, (k@, value)));
                assert(keys_of(after) =~= keys_of(before).insert(i as int, k@));
                assert(strictly_sorted(keys_of(after))) by {
                    assert forall|a: int, b: int| 0 <= a < b < keys_of(after).len() implies lex_lt(#[trigger] keys_of(after)[a], #[trigger] keys_of(after)[b]) by {
                        if a < i && b < i {
                            assert(keys_of(before)[a] == keys_of(after)[a]);
                        } else if a < i && b == i {
                        } else if a < i && b > i {
                            assert(keys_of(after)[b] == before[b - 1].0);
                        } else if a == i {
                            assert(keys_of(after)[b] == before[b - 1].0);
                        } else {
                            assert(keys_of(before)[a - 1] == keys_of(after)[a]);
                            assert(keys_of(before)[b - 1] == keys_of(after)[b]);
                        }
                    }
                }
                lemma_lookup_at(after, i as int);
                assert forall|q: Seq<char>| q != k@ implies #[trigger] lookup(after, q) == lookup(before, q) by {
                    lemma_lookup_insert(before, i as int, k@, value, q);
                }
            }
            self.entries = entries;
            None
        }
    }

    /// Removes the entry under `key`, returning its value. Every other
    /// key keeps its value; the order stays sorted.
    pub fn remove(&mut self, key: &str) -> (old_value: Option<T>)
        ensures
            old_value == lookup(old(self)@, key@),
            !has_key(final(self)@, key@),
            forall|k: Seq<char>| k != key@ ==> #[trigger] lookup(final(self)@, k) == lookup(old(self)@, k),
            strictly_sorted(keys_of(final(self)@)),
    {
        proof {
            use_type_invariant(&*self);
        }
        let k = chars_of(key);
        let (i, found) = self.position(&k);
        let ghost before = self@;
        if found {
            proof {
                lemma_lookup_at(before, i as int);
            }
            let mut entries: Vec<(String, T)> = Vec::new();
            std::mem::swap(&mut entries, &mut self.entries);
            let (_, previous) = entries.remove(i);
            proof {
                let after = entries@.map_values(|e: (String, T)| (e.0@, e.1));
                assert(after =~= before.remove(i as int));
                assert(keys_of(after) =~= keys_of(before).remove(i as int));
                assert(strictly_sorted(keys_of(after))) by {
                    assert forall|a: int, b: int| 0 <= a < b < keys_of(after).len() implies lex_lt(#[trigger] keys_of(after)[a], #[trigger] keys_of(after)[b]) by {
                        let a0 = if a < i { a } else { a + 1 };
                        let b0 = if b < i { b } else { b + 1 };
                        assert(keys_of(after)[a] == keys_of(before)[a0]);
                        assert(keys_of(after)[b] == keys_of(before)[b0]);
                    }
                }
                assert forall|j: int| 0 <= j < after.len() implies after[j].0 != k@ by {
                    let j0 = if j < i { j } else { j + 1 };
                    assert(after[j] == before[j0]);
                    assert(keys_of(before)[j0] == before[j0].0);
                    assert(keys_of(before)[i as int] == before[i as int].0);
                    lemma_lex_irreflexive(k@);
                }
                assert forall|q: Seq<char>| q != k@ implies #[trigger] lookup(after, q) == lookup(before, q) by {
                    lemma_lookup_remove(before, i as int, q);
                }
            }
            self.entries = entries;
            Some(previous)
        } else {
            None
        }
    }
}

proof fn lemma_lookup_update<T>(s: Seq<(Seq<char>, T)>, i: int, k: Seq<char>, v: T, q: Seq<char>)
    requires
        strictly_sorted(keys_of(s)),
        0 <= i < s.len(),
        s[i].0 == k,
        q != k,
    ensures
        lookup(s.update(i, (k, v)), q) == lookup(s, q),
{
    let t = s.update(i, (k, v));
    assert(keys_of(t) =~= keys_of(s));
    if has_key(s, q) {
        let j = index_of_key(s, q);
        assert(t[j].0 == q);
        assert(has_key(t, q));
        lemma_lookup_at(s, j);
        lemma_lookup_at(t, j);
    }
    if has_key(t, q) {
        let j = index_of_key(t, q);
        assert(s[j].0 == q);
    }
}

proof fn lemma_lookup_insert<T>(s: Seq<(Seq<char>, T)>, i: int, k: Seq<char>, v: T, q: Seq<char>)
    requires
        strictly_sorted(keys_of(s)),
        strictly_sorted(keys_of(s.insert(i, (k, v)))),
        0 <= i <= s.len(),
        q != k,
    ensures
        lookup(s.insert(i, (k, v)), q) == lookup(s, q),
{
    let t = s.insert(i, (k, v));
    if has_key(s, q) {
        let j = index_of_key(s, q);
        lemma_lookup_at(s, j);
        let j2 = if j < i { j } else { j + 1 };
        assert(t[j2] == s[j]);
        lemma_lookup_at(t, j2);
    }
    if has_key(t, q) {
        let j = index_of_key(t, q);
        let j0 = if j < i { j } else { j - 1 };
        assert(j != i);
        assert(s[j0] == t[j]);
    }
}

proof fn lemma_lookup_remove<T>(s: Seq<(Seq<char>, T)>, i: int, q: Seq<char>)
    requires
        strictly_sorted(keys_of(s)),
        strictly_sorted(keys_of(s.remove(i))),
        0 <= i < s.len(),
        q != s[i].0,
    ensures
        lookup(s.remove(i), q) == lookup(s, q),
{
    let t = s.remove(i);
    if has_key(s, q) {
        let j = index_of_key(s, q);
        lemma_lookup_at(s, j);
        assert(j != i);
        let j2 = if j < i { j } else { j - 1 };
        assert(t[j2] == s[j]);
        lemma_lookup_at(t, j2);
    }
    if has_key(t, q) {
        let j = index_of_key(t, q);
        let j0 = if j < i { j } else { j + 1 };
        assert(s[j0] == t[j]);
    }
}

impl<T: Clone> Clone for KeyedMap<T> {
    /// A copy with the same keys in the same order; each value is copied
    /// by its own `clone`.
    fn clone(&self) -> (r: Self)
        ensures
            keys_of(r@) == keys_of(self@),
            forall|i: int| 0 <= i < r@.len() ==> cloned::<T>(self@[i].1, #[trigger] r@[i].1),
    {
        proof {
            use_type_invariant(self);
        }
        let mut entries: Vec<(String, T)> = Vec::new();
        let mut i: usize = 0;
        while i < self.entries.len()
            invariant
                i <= self.entries@.len(),
                self@.len() == self.entries@.len(),
                entries@.len() == i,
                forall|j: int| 0 <= j < i ==> (#[trigger] entries@[j]).0@ == self@[j].0,
                forall|j: int| 0 <= j < i ==> cloned::<T>(self@[j].1, #[trigger] entries@[j].1),
            decreases self.entries.len() - i,
        {
            let key = self.entries[i].0.clone();
            let value = self.entries[i].1.clone();
            assert(self.entries@[i as int].1 == self@[i as int].1);
            entries.push((key, value));
            i += 1;
        }
        let ghost rv = entries@.map_values(|e: (String, T)| (e.0@, e.1));
        assert(keys_of(rv) =~= keys_of(self@));
        KeyedMap { entries }
    }
}

} // verus!
