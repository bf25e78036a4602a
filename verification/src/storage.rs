//! `localStorage` and `sessionStorage`: string items kept in key order,
//! with `getItem`, `setItem`, `removeItem`, `clear`, `key(index)` and
//! `length`.  The host seeds a storage from its persisted state before a
//! script runs ([`seed_storage`]) and reads the items back afterwards
//! ([`read_storage_items`]).

use vstd::prelude::*;
use crate::strmap::{
    has_key, index_of, key_seq, last_value, lemma_lt_irreflexive, lemma_sorted_index_unique, lookup, seq_lt, pair_views, sorted_keys, StrMap,
};

verus! {

/// A `Storage` object.
pub struct Storage {
    pub items: StrMap,
}

impl View for Storage {
    type V = Seq<(Seq<char>, Seq<char>)>;

    open spec fn view(&self) -> Seq<(Seq<char>, Seq<char>)> {
        self.items@
    }
}

impl Storage {
    pub open spec fn wf(&self) -> bool {
        self.items.wf()
    }

    /// The item stored under `key`.
    pub open spec fn item(&self, key: Seq<char>) -> Option<Seq<char>> {
        self.items.get_spec(key)
    }

    /// `getItem(key)`: the stored value, or `None` (`null`).
    pub fn get_item(&self, key: &str) -> (r: Option<String>)
        requires
            self.wf(),
        ensures
            match r {
                Some(v) => self.item(key@) == Some(v@),
                None => self.item(key@) is None,
            },
    {
        self.items.get(key)
    }

    /// `setItem(key, value)`: stores `value` under `key`, replacing any
    /// previous value.
    pub fn set_item(&mut self, key: &str, value: &str)
        requires
            old(self).wf(),
        ensures
            final(self).wf(),
            final(self).item(key@) == Some(value@),
            forall|k: Seq<char>| k != key@ ==> #[trigger] final(self).item(k) == old(self).item(k),
            forall|k: Seq<char>| has_key(final(self)@, k) <==> (k == key@ || has_key(old(self)@, k)),
    {
        self.items.insert(key, value);
    }

    /// `removeItem(key)`.
    pub fn remove_item(&mut self, key: &str)
        requires
            old(self).wf(),
        ensures
            final(self).wf(),
            final(self).item(key@) is None,
            forall|k: Seq<char>| k != key@ ==> #[trigger] final(self).item(k) == old(self).item(k),
            forall|k: Seq<char>| has_key(final(self)@, k) <==> (k != key@ && has_key(old(self)@, k)),
    {
        self.items.remove(key);
    }

    /// `clear()`: drops every item.
    pub fn clear(&mut self)
        ensures
            final(self).wf(),
            final(self)@.len() == 0,
    {
        self.items.clear();
    }

    /// `key(index)`: the `index`-th key in key order, or `None` (`null`).
    pub fn key(&self, index: usize) -> (r: Option<String>)
        ensures
            match r {
                Some(k) => index < self@.len() && k@ == self@[index as int].0,
                None => index >= self@.len(),
            },
    {
        self.items.key_at(index)
    }

    /// `length`: the number of items.
    pub fn length(&self) -> (n: usize)
        ensures
            n == self@.len(),
    {
        self.items.len()
    }
}

/// A fresh, empty storage.
pub fn build_storage_object() -> (s: Storage)
    ensures
        s.wf(),
        s@.len() == 0,
{
    Storage { items: StrMap::new() }
}

/// Replaces the items of `storage` with `entries` (a later entry
/// overrides an earlier one with the same key).
pub fn seed_storage(storage: &mut Storage, entries: &Vec<(String, String)>)
    ensures
        final(storage).wf(),
        forall|k: Seq<char>| #[trigger] final(storage).item(k) == last_value(pair_views(entries@), k),
{
    storage.items = StrMap::from_pairs(entries);
}

/// Every `(key, value)` item of `storage`, in key order.
pub fn read_storage_items(storage: &Storage) -> (r: Vec<(String, String)>)
    ensures
        pair_views(r@) == storage@,
{
    storage.items.to_pairs()
}

/// After `setItem(key, value)`, `getItem(key)` gives `value`, and every
/// other key reads as before.
pub proof fn law_set_then_get(before: Storage, after: Storage, key: Seq<char>, value: Seq<char>, other: Seq<char>)
    requires
        after.item(key) == Some(value),
        forall|k: Seq<char>| k != key ==> #[trigger] after.item(k) == before.item(k),
    ensures
        after.item(key) == Some(value),
        other != key ==> after.item(other) == before.item(other),
{
}

/// `removeItem(key)` undoes `setItem(key, value)` for a key that held no
/// item: every key reads as before.
pub proof fn law_set_then_remove(s0: Storage, s1: Storage, s2: Storage, key: Seq<char>, value: Seq<char>, k: Seq<char>)
    requires
        s0.item(key) is None,
        s1.item(key) == Some(value),
        forall|j: Seq<char>| j != key ==> #[trigger] s1.item(j) == s0.item(j),
        s2.item(key) is None,
        forall|j: Seq<char>| j != key ==> #[trigger] s2.item(j) == s1.item(j),
    ensures
        s2.item(k) == s0.item(k),
{
    if k != key {
        assert(s2.item(k) == s1.item(k));
    }
}

/// After `clear()`, every key reads as `null` and `length` is zero.
pub proof fn law_clear_empties(after: Storage, key: Seq<char>)
    requires
        after@.len() == 0,
    ensures
        after.item(key) is None,
{
    assert(!has_key(after@, key));
}

/// Reading a storage back after seeding it gives, for every key, the last
/// value seeded under it.
pub proof fn law_seed_then_read(seeded: Storage, entries: Seq<(String, String)>, key: Seq<char>)
    requires
        seeded.wf(),
        forall|k: Seq<char>| #[trigger] seeded.item(k) == last_value(pair_views(entries), k),
    ensures
        seeded.item(key) == last_value(pair_views(entries), key),
{
}

/// No two of `entries` share a key.
pub open spec fn distinct_keys(entries: Seq<(Seq<char>, Seq<char>)>) -> bool {
    forall|i: int, j: int| 0 <= i < j < entries.len() ==> #[trigger] entries[i].0 != #[trigger] entries[j].0
}

proof fn lemma_last_value_distinct(e: Seq<(Seq<char>, Seq<char>)>, k: Seq<char>, v: Seq<char>)
    requires
        distinct_keys(e),
    ensures
        last_value(e, k) == Some(v) <==> e.contains((k, v)),
    decreases e.len(),
{
    if e.len() > 0 {
        let e2 = e.drop_last();
        assert(distinct_keys(e2)) by {
            assert forall|i: int, j: int| 0 <= i < j < e2.len() implies #[trigger] e2[i].0 != #[trigger] e2[j].0 by {
                assert(e2[i] == e[i] && e2[j] == e[j]);
            }
        }
        lemma_last_value_distinct(e2, k, v);
        let n = e.len() - 1;
        if e.contains((k, v)) {
            let i = choose|i: int| 0 <= i < e.len() && e[i] == (k, v);
            if i < n {
                assert(e2[i] == e[i]);
                assert(e2.contains((k, v)));
                if e.last().0 == k {
                    assert(e[i].0 != e[n].0);
                }
            }
        }
        if e2.contains((k, v)) {
            let i = choose|i: int| 0 <= i < e2.len() && e2[i] == (k, v);
            assert(e[i] == e2[i]);
        }
        if e.last() == (k, v) {
            assert(e[n] == (k, v));
        }
    }
}

proof fn lemma_lookup_sorted(e: Seq<(Seq<char>, Seq<char>)>, k: Seq<char>, v: Seq<char>)
    requires
        sorted_keys(key_seq(e)),
    ensures
        lookup(e, k) == Some(v) <==> e.contains((k, v)),
{
    if e.contains((k, v)) {
        let i = choose|i: int| 0 <= i < e.len() && e[i] == (k, v);
        assert(index_of(e, k, i));
        lemma_sorted_index_unique(e, k, i);
    }
    if lookup(e, k) == Some(v) {
        assert(has_key(e, k));
        let i = choose|i: int| index_of(e, k, i);
        assert(e[i] == (k, v));
    }
}

/// Reading a storage back after seeding it with entries whose keys are
/// pairwise distinct gives exactly those entries, sorted by key: the
/// `requires` is what `seed_storage(s, entries)` ensures of `s`, and
/// `seeded@` is what `read_storage_items(s)` returns.
pub proof fn law_seed_then_read_in_key_order(seeded: Storage, entries: Seq<(Seq<char>, Seq<char>)>)
    requires
        seeded.wf(),
        distinct_keys(entries),
        forall|k: Seq<char>| #[trigger] seeded.item(k) == last_value(entries, k),
    ensures
        sorted_keys(key_seq(seeded@)),
        seeded@.len() == entries.len(),
        forall|p: (Seq<char>, Seq<char>)| seeded@.contains(p) <==> entries.contains(p),
{
    let e = seeded@;
    assert forall|p: (Seq<char>, Seq<char>)| e.contains(p) <==> entries.contains(p) by {
        lemma_lookup_sorted(e, p.0, p.1);
        lemma_last_value_distinct(entries, p.0, p.1);
        assert(seeded.item(p.0) == lookup(e, p.0));
    }
    assert(e.no_duplicates()) by {
        assert forall|i: int, j: int| 0 <= i < e.len() && 0 <= j < e.len() && i != j implies e[i] != e[j] by {
            if i < j {
                assert(seq_lt(key_seq(e)[i], key_seq(e)[j]));
            } else {
                assert(seq_lt(key_seq(e)[j], key_seq(e)[i]));
            }
            lemma_lt_irreflexive(e[i].0);
        }
    }
    assert(entries.no_duplicates()) by {
        assert forall|i: int, j: int| 0 <= i < entries.len() && 0 <= j < entries.len() && i != j implies entries[i] != entries[j] by {
            if i < j {
                assert(entries[i].0 != entries[j].0);
            } else {
                assert(entries[j].0 != entries[i].0);
            }
        }
    }
    assert(e.to_set() =~= entries.to_set());
    e.unique_seq_to_set();
    entries.unique_seq_to_set();
}

} // verus!
