//! A string-keyed map that keeps its entries sorted by key, the way the
//! script engine's property maps order their keys.  Element attributes,
//! inline-style properties and `Storage` items are all held in one.

use vstd::prelude::*;
use crate::text::{chars_of, eq_chars};

verus! {

/// Strict lexicographic order on character sequences (by code point, which
/// is also the byte order of their UTF-8 encodings).
pub open spec fn seq_lt(a: Seq<char>, b: Seq<char>) -> bool
    decreases a.len(),
{
    if a.len() == 0 {
        b.len() > 0
    } else if b.len() == 0 {
        false
    } else if a[0] != b[0] {
        a[0] < b[0]
    } else {
        seq_lt(a.drop_first(), b.drop_first())
    }
}

pub proof fn lemma_lt_irreflexive(a: Seq<char>)
    ensures
        !seq_lt(a, a),
    decreases a.len(),
{
    if a.len() > 0 {
        lemma_lt_irreflexive(a.drop_first());
    }
}

pub proof fn lemma_lt_transitive(a: Seq<char>, b: Seq<char>, c: Seq<char>)
    requires
        seq_lt(a, b),
        seq_lt(b, c),
    ensures
        seq_lt(a, c),
    decreases a.len(),
{
    if a.len() > 0 && b.len() > 0 && c.len() > 0 {
        if a[0] == b[0] && b[0] == c[0] {
            lemma_lt_transitive(a.drop_first(), b.drop_first(), c.drop_first());
        }
    }
}

pub proof fn lemma_lt_total(a: Seq<char>, b: Seq<char>)
    ensures
        a == b || seq_lt(a, b) || seq_lt(b, a),
    decreases a.len(),
{
    if a.len() > 0 && b.len() > 0 {
        if a[0] == b[0] {
            lemma_lt_total(a.drop_first(), b.drop_first());
            if a.drop_first() == b.drop_first() {
                assert(a =~= seq![a[0]] + a.drop_first());
                assert(b =~= seq![b[0]] + b.drop_first());
            }
        }
    } else if a.len() == 0 && b.len() == 0 {
        assert(a =~= b);
    }
}

pub proof fn lemma_lt_asymmetric(a: Seq<char>, b: Seq<char>)
    requires
        seq_lt(a, b),
    ensures
        !seq_lt(b, a),
        a != b,
{
    if seq_lt(b, a) {
        lemma_lt_transitive(a, b, a);
        lemma_lt_irreflexive(a);
    }
    if a == b {
        lemma_lt_irreflexive(a);
    }
}

/// Compares two strings: `-1`, `0` or `1` as `a` is below, equal to or
/// above `b`.
pub fn compare_chars(a: &[char], b: &[char]) -> (r: i8)
    ensures
        r == 0 <==> a@ == b@,
        r < 0 <==> seq_lt(a@, b@),
        r > 0 <==> seq_lt(b@, a@),
{
    let mut k: usize = 0;
    assert(a@.skip(0) =~= a@);
    assert(b@.skip(0) =~= b@);
    while k < a.len() && k < b.len()
        invariant
            k <= a@.len(),
            k <= b@.len(),
            a@.take(k as int) == b@.take(k as int),
            seq_lt(a@, b@) == seq_lt(a@.skip(k as int), b@.skip(k as int)),
            seq_lt(b@, a@) == seq_lt(b@.skip(k as int), a@.skip(k as int)),
        decreases a@.len() - k,
    {
        if a[k] != b[k] {
            proof {
                assert(a@.skip(k as int)[0] == a@[k as int]);
                assert(b@.skip(k as int)[0] == b@[k as int]);
                assert(a@ != b@) by {
                    if a@ == b@ {
                        assert(a@[k as int] == b@[k as int]);
                    }
                }
                lemma_lt_total(a@, b@);
            }
            if a[k] < b[k] {
                return -1;
            } else {
                return 1;
            }
        }
        proof {
            assert(a@.skip(k as int).drop_first() == a@.skip(k + 1));
            assert(b@.skip(k as int).drop_first() == b@.skip(k + 1));
            assert(a@.take(k + 1) == a@.take(k as int).push(a@[k as int]));
            assert(b@.take(k + 1) == b@.take(k as int).push(b@[k as int]));
        }
        k = k + 1;
    }
    proof {
        assert(a@.skip(k as int).len() == a@.len() - k);
        if k == a@.len() && k == b@.len() {
            assert(a@ == a@.take(k as int));
            assert(b@ == b@.take(k as int));
        } else if k == a@.len() {
            assert(a@ == a@.take(k as int));
            assert(a@ != b@);
        } else {
            assert(b@ == b@.take(k as int));
            assert(a@ != b@);
        }
        lemma_lt_total(a@, b@);
        if seq_lt(a@, b@) {
            lemma_lt_asymmetric(a@, b@);
        }
    }
    if a.len() == b.len() {
        0
    } else if a.len() < b.len() {
        -1
    } else {
        1
    }
}

/// Entries sorted strictly by key.
pub open spec fn sorted_keys(keys: Seq<Seq<char>>) -> bool {
    forall|i: int, j: int| 0 <= i < j < keys.len() ==> seq_lt(#[trigger] keys[i], #[trigger] keys[j])
}

/// A map with string keys kept in key order.
pub struct StrMap {
    pub entries: Vec<(String, String)>,
}

impl View for StrMap {
    type V = Seq<(Seq<char>, Seq<char>)>;

    open spec fn view(&self) -> Seq<(Seq<char>, Seq<char>)> {
        self.entries@.map_values(|p: (String, String)| (p.0@, p.1@))
    }
}

pub open spec fn key_seq(e: Seq<(Seq<char>, Seq<char>)>) -> Seq<Seq<char>> {
    e.map_values(|p: (Seq<char>, Seq<char>)| p.0)
}

/// Where `key` sits among `entries`: its index, or -1.
pub open spec fn index_of(e: Seq<(Seq<char>, Seq<char>)>, key: Seq<char>, i: int) -> bool {
    0 <= i < e.len() && e[i].0 == key
}

pub open spec fn has_key(e: Seq<(Seq<char>, Seq<char>)>, key: Seq<char>) -> bool {
    exists|i: int| index_of(e, key, i)
}

/// The value stored under `key`, if any.
pub open spec fn lookup(e: Seq<(Seq<char>, Seq<char>)>, key: Seq<char>) -> Option<Seq<char>> {
    if has_key(e, key) {
        Some(e[choose|i: int| index_of(e, key, i)].1)
    } else {
        None
    }
}

impl StrMap {
    pub open spec fn wf(&self) -> bool {
        sorted_keys(key_seq(self@))
    }

    pub open spec fn get_spec(&self, key: Seq<char>) -> Option<Seq<char>> {
        lookup(self@, key)
    }

    pub fn new() -> (res: StrMap)
        ensures
            res.wf(),
            res@ == Seq::<(Seq<char>, Seq<char>)>::empty(),
    {
        let res = StrMap { entries: Vec::new() };
        assert(res@ =~= Seq::<(Seq<char>, Seq<char>)>::empty());
        res
    }

    pub fn len(&self) -> (n: usize)
        ensures
            n == self@.len(),
    {
        self.entries.len()
    }

    /// The position of `key`, if present.
    pub fn find(&self, key: &str) -> (res: Option<usize>)
        requires
            self.wf(),
        ensures
            match res {
                Some(i) => index_of(self@, key@, i as int),
                None => !has_key(self@, key@),
            },
    {
        let k = chars_of(key);
        let mut i: usize = 0;
        while i < self.entries.len()
            invariant
                i <= self@.len(),
                k@ == key@,
                forall|j: int| 0 <= j < i ==> self@[j].0 != key@,
            decreases self@.len() - i,
        {
            let ek = chars_of(self.entries[i].0.as_str());
            assert(self.entries@[i as int].0@ == ek@);
            assert(self@[i as int] == (self.entries@[i as int].0@, self.entries@[i as int].1@));
            let same = eq_chars(&ek, &k);
            assert(same == (ek@ == key@));
            if same {
                return Some(i);
            }
            i = i + 1;
        }
        None
    }

    /// The value stored under `key`.
    pub fn get(&self, key: &str) -> (res: Option<String>)
        requires
            self.wf(),
        ensures
            match res {
                Some(v) => self.get_spec(key@) == Some(v@),
                None => self.get_spec(key@) is None,
            },
    {
        match self.find(key) {
            Some(i) => {
                proof {
                    self.lemma_index_unique(key@, i as int);
                }
                Some(self.entries[i].1.clone())
            },
            None => None,
        }
    }

    /// Keys are unique, so the index of a key is the one `lookup` picks.
    pub proof fn lemma_index_unique(&self, key: Seq<char>, i: int)
        requires
            self.wf(),
            index_of(self@, key, i),
        ensures
            lookup(self@, key) == Some(self@[i].1),
            forall|j: int| index_of(self@, key, j) ==> j == i,
    {
        assert forall|j: int| index_of(self@, key, j) implies j == i by {
            if j < i {
                assert(seq_lt(key_seq(self@)[j], key_seq(self@)[i]));
                lemma_lt_irreflexive(key);
            } else if i < j {
                assert(seq_lt(key_seq(self@)[i], key_seq(self@)[j]));
                lemma_lt_irreflexive(key);
            }
        }
    }

    /// Stores `value` under `key`, replacing any previous value; the entries
    /// stay in key order.
    pub fn insert(&mut self, key: &str, value: &str)
        requires
            old(self).wf(),
        ensures
            final(self).wf(),
            final(self).get_spec(key@) == Some(value@),
            forall|k: Seq<char>| k != key@ ==> final(self).get_spec(k) == old(self).get_spec(k),
            has_key(old(self)@, key@) ==> final(self)@.len() == old(self)@.len(),
            !has_key(old(self)@, key@) ==> final(self)@.len() == old(self)@.len() + 1,
            forall|k: Seq<char>| has_key(final(self)@, k) <==> (k == key@ || has_key(old(self)@, k)),
    {
        let k = chars_of(key);
        let ghost old_v = self@;
        let mut i: usize = 0;
        // Find the first entry whose key is not below `key`.
        while i < self.entries.len() && self.key_below(i, &k)
            invariant
                i <= self@.len(),
                k@ == key@,
                self@ == old_v,
                forall|j: int| 0 <= j < i ==> seq_lt(#[trigger] self@[j].0, key@),
            decreases self@.len() - i,
        {
            i = i + 1;
        }
        let n = self.entries.len();
        if i < n {
            let ek = chars_of(self.entries[i].0.as_str());
            assert(self@[i as int].0 == ek@);
            if eq_chars(&ek, &k) {
                self.entries.set(i, (key.to_owned(), value.to_owned()));
                proof {
                    assert(self@ == old_v.update(i as int, (key@, value@)));
                    assert(key_seq(self@) == key_seq(old_v).update(i as int, key@));
                    assert(key_seq(old_v)[i as int] == key@);
                    assert(key_seq(self@) =~= key_seq(old_v));
                    self.lemma_index_unique(key@, i as int);
                    assert(index_of(old_v, key@, i as int));
                    assert forall|kk: Seq<char>| kk != key@ implies self.get_spec(kk) == lookup(old_v, kk) by {
                        assert forall|j: int| index_of(self@, kk, j) <==> index_of(old_v, kk, j) by {
                            if j != i && 0 <= j < self@.len() {
                                assert(self@[j] == old_v[j]);
                            }
                        }
                        if has_key(old_v, kk) {
                            let j = choose|j: int| index_of(old_v, kk, j);
                            assert(index_of(self@, kk, j));
                            self.lemma_index_unique(kk, j);
                            lemma_sorted_index_unique(old_v, kk, j);
                        }
                        if has_key(self@, kk) {
                            let j = choose|j: int| index_of(self@, kk, j);
                            assert(index_of(old_v, kk, j));
                        }
                    }
                    assert forall|kk: Seq<char>| has_key(self@, kk) <==> (kk == key@ || has_key(old_v, kk)) by {
                        assert forall|j: int| index_of(self@, kk, j) <==> (index_of(old_v, kk, j)) by {
                            if j != i && 0 <= j < self@.len() {
                                assert(self@[j] == old_v[j]);
                            }
                        }
                        if kk == key@ {
                            assert(index_of(old_v, kk, i as int));
                        }
                        if has_key(self@, kk) {
                            let j = choose|j: int| index_of(self@, kk, j);
                            assert(index_of(old_v, kk, j));
                        }
                        if has_key(old_v, kk) {
                            let j = choose|j: int| index_of(old_v, kk, j);
                            assert(index_of(self@, kk, j));
                        }
                    }
                }
                return;
            }
        }
        self.entries.insert(i, (key.to_owned(), value.to_owned()));
        proof {
            assert(self@ == old_v.insert(i as int, (key@, value@)));
            let ks = key_seq(self@);
            let oks = key_seq(old_v);
            assert(ks =~= oks.insert(i as int, key@));
            if i < n {
                assert(seq_lt(key@, oks[i as int])) by {
                    let ek = old_v[i as int].0;
                    assert(ek != key@);
                    lemma_lt_total(key@, ek);
                }
            }
            assert forall|a: int, b: int| 0 <= a < b < ks.len() implies seq_lt(#[trigger] ks[a], #[trigger] ks[b]) by {
                if b < i {
                } else if a < i && b == i {
                } else if a < i && b > i {
                    assert(seq_lt(oks[a], key@));
                    if i < n {
                        assert(seq_lt(key@, oks[i as int]));
                        if b - 1 > i {
                            assert(seq_lt(oks[i as int], oks[b - 1]));
                            lemma_lt_transitive(key@, oks[i as int], oks[b - 1]);
                        }
                    }
                    lemma_lt_transitive(oks[a], key@, oks[b - 1]);
                } else if a == i {
                    if b - 1 > i {
                        assert(seq_lt(oks[i as int], oks[b - 1]));
                        lemma_lt_transitive(key@, oks[i as int], oks[b - 1]);
                    }
                } else {
                    assert(ks[a] == oks[a - 1]);
                    assert(ks[b] == oks[b - 1]);
                }
            }
            assert(!has_key(old_v, key@)) by {
                if has_key(old_v, key@) {
                    let j = choose|j: int| index_of(old_v, key@, j);
                    if j < i {
                        assert(seq_lt(old_v[j].0, key@));
                        lemma_lt_irreflexive(key@);
                    } else {
                        assert(i < n);
                        if j > i {
                            assert(seq_lt(oks[i as int], oks[j]));
                            lemma_lt_transitive(key@, oks[i as int], oks[j]);
                        }
                        lemma_lt_irreflexive(key@);
                    }
                }
            }
            assert(index_of(self@, key@, i as int));
            self.lemma_index_unique(key@, i as int);
            assert forall|kk: Seq<char>| has_key(self@, kk) <==> (kk == key@ || has_key(old_v, kk)) by {
                if has_key(old_v, kk) {
                    let j = choose|j: int| index_of(old_v, kk, j);
                    if j < i {
                        assert(index_of(self@, kk, j));
                    } else {
                        assert(index_of(self@, kk, j + 1));
                    }
                }
                if has_key(self@, kk) && kk != key@ {
                    let j = choose|j: int| index_of(self@, kk, j);
                    if j < i {
                        assert(index_of(old_v, kk, j));
                    } else {
                        assert(j != i);
                        assert(index_of(old_v, kk, j - 1));
                    }
                }
            }
            assert forall|kk: Seq<char>| kk != key@ implies self.get_spec(kk) == lookup(old_v, kk) by {
                if has_key(old_v, kk) {
                    let j = choose|j: int| index_of(old_v, kk, j);
                    lemma_sorted_index_unique(old_v, kk, j);
                    if j < i {
                        assert(index_of(self@, kk, j));
                        self.lemma_index_unique(kk, j);
                    } else {
                        assert(index_of(self@, kk, j + 1));
                        self.lemma_index_unique(kk, j + 1);
                    }
                }
            }
        }
    }

    /// Drops the entry for `key`, if any.
    pub fn remove(&mut self, key: &str)
        requires
            old(self).wf(),
        ensures
            final(self).wf(),
            final(self).get_spec(key@) is None,
            forall|k: Seq<char>| k != key@ ==> final(self).get_spec(k) == old(self).get_spec(k),
            forall|k: Seq<char>| has_key(final(self)@, k) <==> (k != key@ && has_key(old(self)@, k)),
            final(self)@ == (match old(self).find_spec(key@) {
                Some(i) => old(self)@.remove(i),
                None => old(self)@,
            }),
    {
        let ghost old_v = self@;
        match self.find(key) {
            None => {
                assert(old(self).find_spec(key@) is None);
            },
            Some(i) => {
                proof {
                    self.lemma_index_unique(key@, i as int);
                    assert(old(self).find_spec(key@) == Some(i as int));
                }
                self.entries.remove(i);
                proof {
                    assert(self@ =~= old_v.remove(i as int));
                    let ks = key_seq(self@);
                    let oks = key_seq(old_v);
                    assert(ks =~= oks.remove(i as int));
                    assert forall|a: int, b: int| 0 <= a < b < ks.len() implies seq_lt(#[trigger] ks[a], #[trigger] ks[b]) by {
                        if a >= i {
                            assert(ks[a] == oks[a + 1]);
                        }
                        if b >= i {
                            assert(ks[b] == oks[b + 1]);
                        }
                    }
                    assert forall|kk: Seq<char>| has_key(self@, kk) <==> (kk != key@ && has_key(old_v, kk)) by {
                        if has_key(old_v, kk) && kk != key@ {
                            let j = choose|j: int| index_of(old_v, kk, j);
                            if j < i {
                                assert(index_of(self@, kk, j));
                            } else {
                                assert(j != i);
                                assert(index_of(self@, kk, j - 1));
                            }
                        }
                        if has_key(self@, kk) {
                            let j = choose|j: int| index_of(self@, kk, j);
                            if j < i {
                                assert(index_of(old_v, kk, j));
                                lemma_sorted_index_unique(old_v, key@, i as int);
                            } else {
                                assert(index_of(old_v, kk, j + 1));
                                lemma_sorted_index_unique(old_v, key@, i as int);
                            }
                        }
                    }
                    assert forall|kk: Seq<char>| kk != key@ implies self.get_spec(kk) == lookup(old_v, kk) by {
                        if has_key(old_v, kk) {
                            let j = choose|j: int| index_of(old_v, kk, j);
                            lemma_sorted_index_unique(old_v, kk, j);
                            if j < i {
                                assert(index_of(self@, kk, j));
                                self.lemma_index_unique(kk, j);
                            } else {
                                lemma_sorted_index_unique(old_v, key@, i as int);
                                assert(j != i);
                                assert(index_of(self@, kk, j - 1));
                                self.lemma_index_unique(kk, j - 1);
                            }
                        }
                    }
                }
            },
        }
    }

    /// A copy of this map.
    pub fn duplicate(&self) -> (res: StrMap)
        ensures
            res@ == self@,
    {
        let mut entries: Vec<(String, String)> = Vec::new();
        let mut i: usize = 0;
        while i < self.entries.len()
            invariant
                i <= self@.len(),
                entries@.map_values(|p: (String, String)| (p.0@, p.1@)) == self@.take(i as int),
            decreases self@.len() - i,
        {
            let k = self.entries[i].0.clone();
            let v = self.entries[i].1.clone();
            let ghost prev = entries@;
            entries.push((k, v));
            assert(self@[i as int] == (self.entries@[i as int].0@, self.entries@[i as int].1@));
            assert(entries@ == prev.push((k, v)));
            assert(entries@.map_values(|p: (String, String)| (p.0@, p.1@)) =~= prev.map_values(
                |p: (String, String)| (p.0@, p.1@),
            ).push((k@, v@)));
            assert(entries@.map_values(|p: (String, String)| (p.0@, p.1@)) =~= self@.take(i + 1));
            i = i + 1;
        }
        assert(self@.take(self@.len() as int) == self@);
        StrMap { entries }
    }

    /// The key at position `index` in key order.
    pub fn key_at(&self, index: usize) -> (res: Option<String>)
        ensures
            match res {
                Some(k) => index < self@.len() && k@ == self@[index as int].0,
                None => index >= self@.len(),
            },
    {
        if index < self.entries.len() {
            assert(self@[index as int] == (self.entries@[index as int].0@, self.entries@[index as int].1@));
            Some(self.entries[index].0.clone())
        } else {
            None
        }
    }

    /// Drops every entry.
    pub fn clear(&mut self)
        ensures
            final(self).wf(),
            final(self)@ == Seq::<(Seq<char>, Seq<char>)>::empty(),
    {
        self.entries = Vec::new();
        assert(self@ =~= Seq::<(Seq<char>, Seq<char>)>::empty());
    }

    /// The entries as `(key, value)` pairs, in key order.
    pub fn to_pairs(&self) -> (res: Vec<(String, String)>)
        ensures
            res@.map_values(|p: (String, String)| (p.0@, p.1@)) == self@,
    {
        let d = self.duplicate();
        d.entries
    }

    fn key_below(&self, i: usize, k: &Vec<char>) -> (b: bool)
        requires
            i < self@.len(),
        ensures
            b == seq_lt(self@[i as int].0, k@),
    {
        let ek = chars_of(self.entries[i].0.as_str());
        assert(self@[i as int] == (self.entries@[i as int].0@, self.entries@[i as int].1@));
        compare_chars(&ek, k) < 0
    }

    /// The position `find` reports for `key`.
    pub open spec fn find_spec(&self, key: Seq<char>) -> Option<int> {
        if has_key(self@, key) {
            Some(choose|i: int| index_of(self@, key, i))
        } else {
            None
        }
    }
}

/// Uniqueness of keys, stated over a sorted entry sequence.
pub proof fn lemma_sorted_index_unique(e: Seq<(Seq<char>, Seq<char>)>, key: Seq<char>, i: int)
    requires
        sorted_keys(key_seq(e)),
        index_of(e, key, i),
    ensures
        lookup(e, key) == Some(e[i].1),
        forall|j: int| index_of(e, key, j) ==> j == i,
        (choose|j: int| index_of(e, key, j)) == i,
{
    assert forall|j: int| index_of(e, key, j) implies j == i by {
        if j < i {
            assert(seq_lt(key_seq(e)[j], key_seq(e)[i]));
            lemma_lt_irreflexive(key);
        } else if i < j {
            assert(seq_lt(key_seq(e)[i], key_seq(e)[j]));
            lemma_lt_irreflexive(key);
        }
    }
}

pub open spec fn pair_views(pairs: Seq<(String, String)>) -> Seq<(Seq<char>, Seq<char>)> {
    pairs.map_values(|p: (String, String)| (p.0@, p.1@))
}

/// The value of the last pair named `key`.
pub open spec fn last_value(pairs: Seq<(Seq<char>, Seq<char>)>, key: Seq<char>) -> Option<Seq<char>>
    decreases pairs.len(),
{
    if pairs.len() == 0 {
        None
    } else if pairs.last().0 == key {
        Some(pairs.last().1)
    } else {
        last_value(pairs.drop_last(), key)
    }
}


impl StrMap {
    /// The map of `pairs`: a later pair overrides an earlier one with the
    /// same key.
    pub fn from_pairs(pairs: &Vec<(String, String)>) -> (m: StrMap)
        ensures
            m.wf(),
            forall|k: Seq<char>| #[trigger] m.get_spec(k) == last_value(pair_views(pairs@), k),
    {
        let mut m = StrMap::new();
        let mut i: usize = 0;
        while i < pairs.len()
            invariant
                i <= pairs@.len(),
                m.wf(),
                forall|k: Seq<char>| #[trigger] m.get_spec(k) == last_value(pair_views(pairs@).take(i as int), k),
            decreases pairs@.len() - i,
        {
            proof {
                let t = pair_views(pairs@).take(i + 1);
                assert(t.drop_last() == pair_views(pairs@).take(i as int));
                assert(t.last() == (pairs@[i as int].0@, pairs@[i as int].1@));
            }
            m.insert(pairs[i].0.as_str(), pairs[i].1.as_str());
            i = i + 1;
        }
        assert(pair_views(pairs@).take(pairs@.len() as int) == pair_views(pairs@));
        m
    }
}

} // verus!
