//! A map from string keys to values, held as a vector of entries in
//! ascending key order.
use vstd::prelude::*;

use crate::key::{compare_keys, key_lt, lemma_key_lt_irreflexive, lemma_key_lt_transitive};

verus! {

/// The keys of `s` ascend strictly in the order of `key_lt`.
pub open spec fn sorted_keys<V>(s: Seq<(Seq<char>, V)>) -> bool {
    forall|i: int, j: int| 0 <= i < j < s.len() ==> #[trigger] key_lt(s[i].0, s[j].0)
}

/// Whether some entry of `s` has key `k`.
pub open spec fn has_key<V>(s: Seq<(Seq<char>, V)>, k: Seq<char>) -> bool {
    exists|i: int| 0 <= i < s.len() && #[trigger] s[i].0 == k
}

/// The position of an entry of `s` with key `k`.
pub open spec fn key_index<V>(s: Seq<(Seq<char>, V)>, k: Seq<char>) -> int {
    choose|i: int| 0 <= i < s.len() && #[trigger] s[i].0 == k
}

/// The map that a sequence of entries with distinct keys stands for.
pub open spec fn map_of<V>(s: Seq<(Seq<char>, V)>) -> Map<Seq<char>, V> {
    Map::new(|k: Seq<char>| has_key(s, k), |k: Seq<char>| s[key_index(s, k)].1)
}

/// In a sorted sequence, the entry at `i` is the only one with its key.
pub proof fn lemma_sorted_unique<V>(s: Seq<(Seq<char>, V)>, i: int, j: int)
    requires
        sorted_keys(s),
        0 <= i < s.len(),
        0 <= j < s.len(),
        s[i].0 == s[j].0,
    ensures
        i == j,
{
    if i < j {
        assert(key_lt(s[i].0, s[j].0));
        lemma_key_lt_irreflexive(s[i].0);
    } else if j < i {
        assert(key_lt(s[j].0, s[i].0));
        lemma_key_lt_irreflexive(s[i].0);
    }
}

/// The map of a sorted sequence holds each entry.
pub proof fn lemma_map_of_index<V>(s: Seq<(Seq<char>, V)>, i: int)
    requires
        sorted_keys(s),
        0 <= i < s.len(),
    ensures
        map_of(s).contains_key(s[i].0),
        key_index(s, s[i].0) == i,
        map_of(s)[s[i].0] == s[i].1,
{
    assert(has_key(s, s[i].0));
    let j = key_index(s, s[i].0);
    lemma_sorted_unique(s, i, j);
}

/// Replacing the value of the entry at `i` updates the map at its key.
pub proof fn lemma_map_of_update<V>(s: Seq<(Seq<char>, V)>, i: int, v: V)
    requires
        sorted_keys(s),
        0 <= i < s.len(),
    ensures
        sorted_keys(s.update(i, (s[i].0, v))),
        map_of(s.update(i, (s[i].0, v))) == map_of(s).insert(s[i].0, v),
{
    let t = s.update(i, (s[i].0, v));
    assert(sorted_keys(t)) by {
        assert forall|a: int, b: int| 0 <= a < b < t.len() implies #[trigger] key_lt(t[a].0, t[b].0) by {
            assert(key_lt(s[a].0, s[b].0));
        }
    }
    assert forall|k: Seq<char>| has_key(t, k) == (has_key(s, k) || k == s[i].0) by {
        if has_key(s, k) {
            let a = choose|a: int| 0 <= a < s.len() && #[trigger] s[a].0 == k;
            assert(t[a].0 == k);
        }
        if has_key(t, k) {
            let a = choose|a: int| 0 <= a < t.len() && #[trigger] t[a].0 == k;
            assert(s[a].0 == k);
        }
        if k == s[i].0 {
            assert(t[i].0 == k);
        }
    }
    assert forall|k: Seq<char>| #[trigger] has_key(t, k) && k != s[i].0 implies t[key_index(t, k)].1
        == s[key_index(s, k)].1 by {
        let a = key_index(t, k);
        assert(s[a].0 == k);
        lemma_map_of_index(s, a);
        lemma_map_of_index(t, a);
    }
    lemma_map_of_index(t, i);
    assert(map_of(t) =~= map_of(s).insert(s[i].0, v));
}

/// Inserting an entry with a new key at its place in the order keeps the
/// sequence sorted and adds the key to the map.
pub proof fn lemma_map_of_insert<V>(s: Seq<(Seq<char>, V)>, i: int, k: Seq<char>, v: V)
    requires
        sorted_keys(s),
        0 <= i <= s.len(),
        forall|a: int| 0 <= a < i ==> key_lt(#[trigger] s[a].0, k),
        forall|a: int| i <= a < s.len() ==> key_lt(k, #[trigger] s[a].0),
    ensures
        sorted_keys(s.insert(i, (k, v))),
        map_of(s.insert(i, (k, v))) == map_of(s).insert(k, v),
{
    let t = s.insert(i, (k, v));
    assert(sorted_keys(t)) by {
        assert forall|a: int, b: int| 0 <= a < b < t.len() implies #[trigger] key_lt(t[a].0, t[b].0) by {
            if b < i {
                assert(key_lt(s[a].0, s[b].0));
            } else if b == i {
                assert(key_lt(s[a].0, k));
            } else if a < i {
                assert(key_lt(s[a].0, k));
                assert(key_lt(k, s[b - 1].0));
                lemma_key_lt_transitive(s[a].0, k, s[b - 1].0);
            } else if a == i {
                assert(key_lt(k, s[b - 1].0));
            } else {
                assert(key_lt(s[a - 1].0, s[b - 1].0));
            }
        }
    }
    assert forall|x: Seq<char>| has_key(t, x) == (has_key(s, x) || x == k) by {
        if has_key(s, x) {
            let a = choose|a: int| 0 <= a < s.len() && #[trigger] s[a].0 == x;
            if a < i {
                assert(t[a].0 == x);
            } else {
                assert(t[a + 1].0 == x);
            }
        }
        if has_key(t, x) {
            let a = choose|a: int| 0 <= a < t.len() && #[trigger] t[a].0 == x;
            if a < i {
                assert(s[a].0 == x);
            } else if a > i {
                assert(s[a - 1].0 == x);
            }
        }
        if x == k {
            assert(t[i].0 == x);
        }
    }
    assert forall|x: Seq<char>| #[trigger] has_key(t, x) && x != k implies t[key_index(t, x)].1
        == s[key_index(s, x)].1 by {
        let a = key_index(t, x);
        if a < i {
            assert(s[a].0 == x);
            lemma_map_of_index(s, a);
        } else {
            assert(s[a - 1].0 == x);
            lemma_map_of_index(s, a - 1);
        }
        lemma_map_of_index(t, a);
    }
    lemma_map_of_index(t, i);
    assert(map_of(t) =~= map_of(s).insert(k, v));
}

/// Dropping the first entry of a sorted sequence removes its key.
pub proof fn lemma_map_of_drop_first<V>(s: Seq<(Seq<char>, V)>)
    requires
        sorted_keys(s),
        s.len() > 0,
    ensures
        sorted_keys(s.drop_first()),
        !map_of(s.drop_first()).contains_key(s[0].0),
        map_of(s) == map_of(s.drop_first()).insert(s[0].0, s[0].1),
{
    let t = s.drop_first();
    assert(sorted_keys(t)) by {
        assert forall|a: int, b: int| 0 <= a < b < t.len() implies #[trigger] key_lt(t[a].0, t[b].0) by {
            assert(key_lt(s[a + 1].0, s[b + 1].0));
        }
    }
    assert(!has_key(t, s[0].0)) by {
        if has_key(t, s[0].0) {
            let a = choose|a: int| 0 <= a < t.len() && #[trigger] t[a].0 == s[0].0;
            lemma_sorted_unique(s, 0, a + 1);
        }
    }
    assert forall|x: Seq<char>| has_key(s, x) == (has_key(t, x) || x == s[0].0) by {
        if has_key(s, x) {
            let a = choose|a: int| 0 <= a < s.len() && #[trigger] s[a].0 == x;
            if a > 0 {
                assert(t[a - 1].0 == x);
            }
        }
        if has_key(t, x) {
            let a = choose|a: int| 0 <= a < t.len() && #[trigger] t[a].0 == x;
            assert(s[a + 1].0 == x);
        }
    }
    assert forall|x: Seq<char>| #[trigger] has_key(t, x) implies t[key_index(t, x)].1 == s[key_index(
        s,
        x,
    )].1 by {
        let a = key_index(t, x);
        lemma_map_of_index(t, a);
        assert(s[a + 1].0 == x);
        lemma_map_of_index(s, a + 1);
    }
    lemma_map_of_index(s, 0);
    assert(map_of(s) =~= map_of(t).insert(s[0].0, s[0].1));
}

/// The map of no entries is empty.
pub proof fn lemma_map_of_empty<V>(s: Seq<(Seq<char>, V)>)
    requires
        s.len() == 0,
    ensures
        map_of(s) == Map::<Seq<char>, V>::empty(),
{
    assert(map_of(s) =~= Map::<Seq<char>, V>::empty());
}

/// A sorted sequence has as many keys as entries.
pub proof fn lemma_len_of_sorted<V>(s: Seq<(Seq<char>, V)>)
    requires
        sorted_keys(s),
    ensures
        map_of(s).dom().finite(),
        map_of(s).len() == s.len(),
    decreases s.len(),
{
    if s.len() == 0 {
        lemma_map_of_empty(s);
    } else {
        lemma_map_of_drop_first(s);
        lemma_len_of_sorted(s.drop_first());
    }
}

/// Entries with their keys viewed as character sequences.
pub open spec fn entries_view<V>(s: Seq<(String, V)>) -> Seq<(Seq<char>, V)> {
    s.map_values(|e: (String, V)| (e.0@, e.1))
}

/// A map with string keys, its entries kept in ascending key order.
#[derive(Debug, PartialEq, Eq)]
pub struct KeyMap<V> {
    pub(crate) entries: Vec<(String, V)>,
}

impl<V> KeyMap<V> {
    /// The entries, keys viewed as character sequences, in their order.
    pub closed spec fn entries(&self) -> Seq<(Seq<char>, V)> {
        entries_view(self.entries@)
    }

    /// A map of the given entries, which are in ascending key order.
    pub(crate) fn from_sorted(entries: Vec<(String, V)>) -> (r: Self)
        requires
            sorted_keys(entries_view(entries@)),
        ensures
            r.entries() == entries_view(entries@),
    {
        KeyMap { entries }
    }

    /// The map from keys to values.
    pub open spec fn map(&self) -> Map<Seq<char>, V> {
        map_of(self.entries())
    }

    /// The entries are kept in ascending key order.
    #[verifier::type_invariant]
    pub open spec fn well_formed(&self) -> bool {
        sorted_keys(self.entries())
    }

    /// An empty map.
    pub fn new() -> (r: Self)
        ensures
            r.entries().len() == 0,
            r.map() == Map::<Seq<char>, V>::empty(),
    {
        let r = KeyMap { entries: Vec::new() };
        proof {
            lemma_map_of_empty(r.entries());
        }
        r
    }

    /// The number of entries.
    pub fn len(&self) -> (r: usize)
        ensures
            r == self.entries().len(),
            r == self.map().len(),
    {
        proof {
            use_type_invariant(self);
            self.lemma_len_is_map_len();
        }
        self.entries.len()
    }

    proof fn lemma_len_is_map_len(&self)
        requires
            self.well_formed(),
        ensures
            self.map().dom().finite(),
            self.map().len() == self.entries().len(),
    {
        lemma_len_of_sorted(self.entries());
    }

    /// Looks for `key`: `Ok` with the position of its entry, or `Err` with
    /// the position at which an entry with that key would stand.
    pub fn find(&self, key: &String) -> (r: Result<usize, usize>)
        ensures
            r matches Ok(i) ==> i < self.entries().len() && self.entries()[i as int].0 == key@,
            r matches Err(i) ==> i <= self.entries().len() && !self.map().contains_key(key@)
                && (forall|a: int| 0 <= a < i ==> key_lt(#[trigger] self.entries()[a].0, key@))
                && (forall|a: int| i <= a < self.entries().len() ==> key_lt(key@, #[trigger] self.entries()[a].0)),
            r is Ok == self.map().contains_key(key@),
    {
        proof {
            use_type_invariant(self);
        }
        let ghost s = self.entries();
        let mut lo: usize = 0;
        let mut hi: usize = self.entries.len();
        while lo < hi
            invariant
                s == self.entries(),
                sorted_keys(s),
                0 <= lo <= hi <= s.len(),
                s.len() == self.entries@.len(),
                forall|a: int| 0 <= a < lo ==> key_lt(#[trigger] s[a].0, key@),
                forall|a: int| hi <= a < s.len() ==> key_lt(key@, #[trigger] s[a].0),
            decreases hi - lo,
        {
            let mid = lo + (hi - lo) / 2;
            match compare_keys(&self.entries[mid].0, key) {
                core::cmp::Ordering::Less => {
                    proof {
                        assert forall|a: int| 0 <= a < mid + 1 implies key_lt(#[trigger] s[a].0, key@) by {
                            if a < mid {
                                assert(key_lt(s[a].0, s[mid as int].0));
                                lemma_key_lt_transitive(s[a].0, s[mid as int].0, key@);
                            }
                        }
                    }
                    lo = mid + 1;
                },
                core::cmp::Ordering::Greater => {
                    proof {
                        assert forall|a: int| mid <= a < s.len() implies key_lt(key@, #[trigger] s[a].0) by {
                            if a > mid {
                                assert(key_lt(s[mid as int].0, s[a].0));
                                lemma_key_lt_transitive(key@, s[mid as int].0, s[a].0);
                            }
                        }
                    }
                    hi = mid;
                },
                core::cmp::Ordering::Equal => {
                    proof {
                        lemma_map_of_index(s, mid as int);
                    }
                    return Ok(mid);
                },
            }
        }
        proof {
            if has_key(s, key@) {
                let a = choose|a: int| 0 <= a < s.len() && #[trigger] s[a].0 == key@;
                lemma_key_lt_irreflexive(key@);
            }
        }
        Err(lo)
    }

    /// The entries as stored: `entries()` views their keys.
    pub(crate) proof fn lemma_entries_view(&self)
        ensures
            self.entries().len() == self.entries@.len(),
            forall|i: int| 0 <= i < self.entries@.len() ==> #[trigger] self.entries()[i] == (
            self.entries@[i].0@, self.entries@[i].1),
    {
    }

    /// The key of the entry at position `i`.
    pub fn key_at(&self, i: usize) -> (r: &String)
        requires
            i < self.entries().len(),
        ensures
            r@ == self.entries()[i as int].0,
    {
        &self.entries[i].0
    }

    /// The value of the entry at position `i`.
    pub fn value_at(&self, i: usize) -> (r: &V)
        requires
            i < self.entries().len(),
        ensures
            *r == self.entries()[i as int].1,
    {
        &self.entries[i].1
    }

    /// Puts `value` in the entry at position `i` and returns the value that
    /// stood there.
    pub fn replace_value(&mut self, i: usize, value: V) -> (r: V)
        requires
            i < old(self).entries().len(),
        ensures
            r == old(self).entries()[i as int].1,
            final(self).entries() == old(self).entries().update(
                i as int,
                (old(self).entries()[i as int].0, value),
            ),
            final(self).map() == old(self).map().insert(old(self).entries()[i as int].0, value),
    {
        proof {
            use_type_invariant(&*self);
            lemma_map_of_update(self.entries(), i as int, value);
        }
        let mut entries = Vec::new();
        std::mem::swap(&mut self.entries, &mut entries);
        let mut v = value;
        std::mem::swap(&mut entries[i].1, &mut v);
        proof {
            assert(entries_view(entries@) =~= old(self).entries().update(
                i as int,
                (old(self).entries()[i as int].0, value),
            ));
        }
        self.entries = entries;
        v
    }

    /// Sets the value at `key`, replacing the value that stood there or
    /// adding an entry in its place in the key order.
    pub fn insert(&mut self, key: String, value: V)
        ensures
            final(self).map() == old(self).map().insert(key@, value),
    {
        match self.find(&key) {
            Ok(i) => {
                self.replace_value(i, value);
            },
            Err(i) => {
                proof {
                    use_type_invariant(&*self);
                    lemma_map_of_insert(self.entries(), i as int, key@, value);
                }
                let mut entries = Vec::new();
                std::mem::swap(&mut self.entries, &mut entries);
                let ghost k = key@;
                entries.insert(i, (key, value));
                proof {
                    assert(entries_view(entries@) =~= old(self).entries().insert(
                        i as int,
                        (k, value),
                    ));
                }
                self.entries = entries;
            },
        }
    }

    /// The value at `key`, if there is one.
    pub fn get(&self, key: &String) -> (r: Option<&V>)
        ensures
            r matches Some(v) ==> self.map().contains_key(key@) && *v == self.map()[key@],
            r is None ==> !self.map().contains_key(key@),
    {
        match self.find(key) {
            Ok(i) => {
                proof {
                    use_type_invariant(self);
                    lemma_map_of_index(self.entries(), i as int);
                }
                Some(&self.entries[i].1)
            },
            Err(_) => None,
        }
    }

    /// Takes out the entry with the greatest key.
    pub fn pop_last(&mut self) -> (r: Option<(String, V)>)
        ensures
            old(self).entries().len() == 0 ==> r is None && final(self).entries() == old(self).entries(),
            old(self).entries().len() > 0 ==> (r matches Some(e) && (e.0@, e.1) == old(
                self,
            ).entries().last() && final(self).entries() == old(self).entries().drop_last()),
    {
        proof {
            use_type_invariant(&*self);
            let s = self.entries();
            if s.len() > 0 {
                assert forall|a: int, b: int| 0 <= a < b < s.drop_last().len() implies #[trigger] key_lt(
                    s.drop_last()[a].0,
                    s.drop_last()[b].0,
                ) by {
                    assert(key_lt(s[a].0, s[b].0));
                }
            }
        }
        let mut entries = Vec::new();
        std::mem::swap(&mut self.entries, &mut entries);
        let r = entries.pop();
        proof {
            assert(entries_view(entries@) =~= old(self).entries().take(
                entries@.len() as int,
            ));
        }
        self.entries = entries;
        r
    }
}

} // verus!
