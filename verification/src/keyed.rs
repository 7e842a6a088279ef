//! A text-keyed map whose entries are kept in key order, as `BTreeMap<String, _>`
//! keeps them, so that iteration order is part of the contract.

use vstd::prelude::*;
use crate::text::{compare_str, text_lt, TextOrder};
use crate::text::{lemma_text_lt_asymmetric, lemma_text_lt_irreflexive, lemma_text_lt_transitive};

verus! {

/// Keys strictly increasing in text order (so no key occurs twice).
pub open spec fn strictly_sorted(keys: Seq<Seq<char>>) -> bool {
    forall|i: int, j: int| 0 <= i < j < keys.len() ==> text_lt(#[trigger] keys[i], #[trigger] keys[j])
}

pub proof fn lemma_sorted_distinct(keys: Seq<Seq<char>>, i: int, j: int)
    requires
        strictly_sorted(keys),
        0 <= i < keys.len(),
        0 <= j < keys.len(),
        i != j,
    ensures
        keys[i] != keys[j],
{
    if i < j {
        lemma_text_lt_irreflexive(keys[i]);
        assert(text_lt(keys[i], keys[j]));
    } else {
        lemma_text_lt_irreflexive(keys[j]);
        assert(text_lt(keys[j], keys[i]));
    }
}


/// The keys of a finite set of texts, in text order.
pub open spec fn sorted_keys(s: Set<Seq<char>>) -> Seq<Seq<char>> {
    choose|ks: Seq<Seq<char>>| strictly_sorted(ks) && ks.to_set() == s
}

/// Two strictly sorted key sequences with the same elements are equal.
pub proof fn lemma_sorted_same_elements(a: Seq<Seq<char>>, b: Seq<Seq<char>>)
    requires
        strictly_sorted(a),
        strictly_sorted(b),
        forall|x: Seq<char>| a.contains(x) <==> b.contains(x),
    ensures
        a == b,
    decreases a.len(),
{
    if a.len() == 0 {
        if b.len() > 0 {
            assert(b.contains(b[0]));
        }
        assert(a =~= b);
    } else {
        assert(a.contains(a[0]));
        let j = b.index_of(a[0]);
        assert(b.contains(b[0]));
        let i = a.index_of(b[0]);
        if j > 0 {
            assert(text_lt(b[0], b[j]));
            if i > 0 {
                assert(text_lt(a[0], a[i]));
                lemma_text_lt_asymmetric(a[0], b[0]);
            }
        }
        assert(a[0] == b[0]) by {
            if j > 0 && i == 0 {
            } else if j > 0 {
            } else {
            }
        }
        let ta = a.drop_first();
        let tb = b.drop_first();
        assert forall|x: Seq<char>| ta.contains(x) <==> tb.contains(x) by {
            if ta.contains(x) {
                let k = ta.index_of(x);
                assert(a[k + 1] == x);
                lemma_sorted_distinct(a, 0, k + 1);
                assert(b.contains(x));
                let m = b.index_of(x);
                assert(m != 0);
                assert(tb[m - 1] == x);
            }
            if tb.contains(x) {
                let k = tb.index_of(x);
                assert(b[k + 1] == x);
                lemma_sorted_distinct(b, 0, k + 1);
                assert(a.contains(x));
                let m = a.index_of(x);
                assert(m != 0);
                assert(ta[m - 1] == x);
            }
        }
        lemma_sorted_same_elements(ta, tb);
        assert(a =~= seq![a[0]] + ta);
        assert(b =~= seq![b[0]] + tb);
    }
}

/// A strictly sorted sequence is the sorted key sequence of its elements.
pub proof fn lemma_is_sorted_keys(ks: Seq<Seq<char>>)
    requires
        strictly_sorted(ks),
    ensures
        sorted_keys(ks.to_set()) == ks,
{
    let s = ks.to_set();
    assert(strictly_sorted(ks) && ks.to_set() == s);
    let c = sorted_keys(s);
    assert forall|x: Seq<char>| c.contains(x) <==> ks.contains(x) by {
        assert(c.to_set().contains(x) == c.contains(x));
        assert(ks.to_set().contains(x) == ks.contains(x));
    }
    lemma_sorted_same_elements(c, ks);
}

/// A map from texts to values, iterated in key order.
#[derive(Debug)]
pub struct TextMap<V> {
    entries: Vec<(String, V)>,
}

impl<V> TextMap<V> {
    /// The keys, in iteration order.
    pub closed spec fn keys(&self) -> Seq<Seq<char>> {
        self.entries@.map_values(|e: (String, V)| e.0@)
    }

    /// The values, in key order.
    pub closed spec fn values(&self) -> Seq<V> {
        self.entries@.map_values(|e: (String, V)| e.1)
    }

    /// Keys sorted and unique.
    pub open spec fn wf(&self) -> bool {
        &&& strictly_sorted(self.keys())
        &&& self.keys().len() == self.values().len()
    }

    /// The map as a mathematical map.
    pub open spec fn as_map(&self) -> Map<Seq<char>, V> {
        Map::new(
            |k: Seq<char>| self.keys().contains(k),
            |k: Seq<char>| self.values()[self.keys().index_of(k)],
        )
    }

    pub proof fn lemma_lookup(&self, i: int)
        requires
            self.wf(),
            0 <= i < self.keys().len(),
        ensures
            self.as_map().dom().contains(self.keys()[i]),
            self.as_map()[self.keys()[i]] == self.values()[i],
            self.keys().index_of(self.keys()[i]) == i,
    {
        let k = self.keys()[i];
        assert(self.keys().contains(k));
        let j = self.keys().index_of(k);
        if j != i {
            lemma_sorted_distinct(self.keys(), i, j);
        }
    }


    /// The iteration order is the text order of the domain.
    pub proof fn lemma_keys_sorted(&self)
        requires
            self.wf(),
        ensures
            self.keys() == sorted_keys(self.as_map().dom()),
    {
        lemma_is_sorted_keys(self.keys());
        assert(self.keys().to_set() =~= self.as_map().dom());
    }

    /// As many keys as entries, none repeated.
    pub proof fn lemma_dom_len(&self)
        requires
            self.wf(),
        ensures
            self.as_map().dom().finite(),
            self.as_map().dom().len() == self.keys().len(),
    {
        let ks = self.keys();
        assert(ks.no_duplicates()) by {
            assert forall|i: int, j: int| 0 <= i < ks.len() && 0 <= j < ks.len() && i != j implies ks[i] != ks[j] by {
                lemma_sorted_distinct(ks, i, j);
            }
        }
        assert(ks.to_set() =~= self.as_map().dom());
        ks.unique_seq_to_set();
    }

    /// The keys, cloned, in iteration order.
    pub fn key_list(&self) -> (r: Vec<String>)
        requires
            self.wf(),
        ensures
            r@.map_values(|s: String| s@) == self.keys(),
            r@.map_values(|s: String| s@) == sorted_keys(self.as_map().dom()),
    {
        let mut out: Vec<String> = Vec::new();
        let mut i: usize = 0;
        while i < self.entries.len()
            invariant
                i <= self.keys().len(),
                out@.len() == i,
                out@.map_values(|s: String| s@) == self.keys().subrange(0, i as int),
            decreases self.keys().len() - i,
        {
            let k = self.entries[i].0.clone();
            out.push(k);
            proof {
                assert(self.keys()[i as int] == self.entries@[i as int].0@);
                assert(out@.map_values(|s: String| s@)[i as int] == k@);
                assert(out@.map_values(|s: String| s@) =~= self.keys().subrange(0, i as int + 1));
            }
            i = i + 1;
        }
        proof {
            assert(self.keys().subrange(0, i as int) =~= self.keys());
            self.lemma_keys_sorted();
        }
        out
    }

    pub fn new() -> (m: Self)
        ensures
            m.wf(),
            m.keys().len() == 0,
            m.as_map() == Map::<Seq<char>, V>::empty(),
    {
        let m = TextMap { entries: Vec::new() };
        assert(m.as_map() =~= Map::<Seq<char>, V>::empty());
        m
    }

    pub fn len(&self) -> (n: usize)
        ensures
            n == self.keys().len(),
    {
        self.entries.len()
    }

    /// The position of `key`, if present.
    pub fn find(&self, key: &str) -> (r: Option<usize>)
        requires
            self.wf(),
        ensures
            r matches Some(i) ==> i < self.keys().len() && self.keys()[i as int] == key@,
            r is None ==> !self.keys().contains(key@),
            r is Some <==> self.as_map().dom().contains(key@),
    {
        let mut i: usize = 0;
        while i < self.entries.len()
            invariant
                self.wf(),
                i <= self.keys().len(),
                forall|j: int| 0 <= j < i ==> self.keys()[j] != key@,
            decreases self.keys().len() - i,
        {
            match compare_str(self.entries[i].0.as_str(), key) {
                TextOrder::Equal => {
                    assert(self.keys()[i as int] == key@);
                    return Some(i);
                },
                _ => {},
            }
            i = i + 1;
        }
        proof {
            if self.keys().contains(key@) {
                let j = self.keys().index_of(key@);
                assert(self.keys()[j] == key@);
            }
        }
        None
    }

    /// The key at position `i`.
    pub fn key_at(&self, i: usize) -> (k: &String)
        requires
            i < self.keys().len(),
        ensures
            k@ == self.keys()[i as int],
    {
        &self.entries[i].0
    }

    /// The value at position `i`.
    pub fn value_at(&self, i: usize) -> (v: &V)
        requires
            self.wf(),
            i < self.keys().len(),
        ensures
            *v == self.values()[i as int],
    {
        &self.entries[i].1
    }

    /// The value stored under `key`.
    pub fn get(&self, key: &str) -> (r: Option<&V>)
        requires
            self.wf(),
        ensures
            r is Some <==> self.as_map().dom().contains(key@),
            r matches Some(v) ==> *v == self.as_map()[key@],
    {
        match self.find(key) {
            Some(i) => {
                proof {
                    self.lemma_lookup(i as int);
                }
                Some(&self.entries[i].1)
            },
            None => None,
        }
    }

    /// Whether `key` is present.
    pub fn contains_key(&self, key: &str) -> (r: bool)
        requires
            self.wf(),
        ensures
            r == self.as_map().dom().contains(key@),
    {
        self.find(key).is_some()
    }

    /// Replace the value at position `i`, keeping the key.
    pub fn replace_at(&mut self, i: usize, value: V) -> (previous: V)
        requires
            old(self).wf(),
            i < old(self).keys().len(),
        ensures
            final(self).wf(),
            final(self).keys() == old(self).keys(),
            final(self).values() == old(self).values().update(i as int, value),
            previous == old(self).values()[i as int],
            final(self).as_map() == old(self).as_map().insert(old(self).keys()[i as int], value),
    {
        let (k, previous) = self.entries.remove(i);
        self.entries.insert(i, (k, value));
        proof {
            assert(self.keys() =~= old(self).keys());
            assert(self.values() =~= old(self).values().update(i as int, value));
            let key = old(self).keys()[i as int];
            assert forall|k2: Seq<char>| #[trigger] self.as_map().dom().contains(k2) implies
                self.as_map()[k2] == old(self).as_map().insert(key, value)[k2] by {
                let j = self.keys().index_of(k2);
                self.lemma_lookup(j);
                old(self).lemma_lookup(j);
                if j != i {
                    lemma_sorted_distinct(self.keys(), i as int, j);
                }
            }
            assert(self.as_map() =~= old(self).as_map().insert(key, value));
        }
        previous
    }

    /// Insert `value` under `key`, keeping key order; returns the value it
    /// replaced, if any.
    pub fn insert(&mut self, key: String, value: V) -> (previous: Option<V>)
        requires
            old(self).wf(),
        ensures
            final(self).wf(),
            final(self).as_map() == old(self).as_map().insert(key@, value),
            previous is Some <==> old(self).as_map().dom().contains(key@),
            previous matches Some(p) ==> p == old(self).as_map()[key@],
            previous is Some ==> final(self).keys() == old(self).keys(),
            previous is None ==> final(self).keys().len() == old(self).keys().len() + 1,
            previous is Some ==> exists|i: int|
                0 <= i < old(self).values().len() && final(self).values() == old(self).values().update(i, value),
            previous is None ==> exists|i: int|
                0 <= i <= old(self).values().len() && final(self).values() == old(self).values().insert(i, value),
    {
        let mut i: usize = 0;
        while i < self.entries.len()
            invariant
                self.wf(),
                *self == *old(self),
                i <= self.keys().len(),
                forall|j: int| 0 <= j < i ==> text_lt(#[trigger] self.keys()[j], key@),
            ensures
                i <= self.keys().len(),
                *self == *old(self),
                forall|j: int| 0 <= j < i ==> text_lt(#[trigger] self.keys()[j], key@),
                i < self.keys().len() ==> text_lt(key@, self.keys()[i as int]),
            decreases self.keys().len() - i,
        {
            match compare_str(self.entries[i].0.as_str(), key.as_str()) {
                TextOrder::Less => {},
                TextOrder::Equal => {
                    assert(self.keys()[i as int] == key@);
                    proof {
                        self.lemma_lookup(i as int);
                    }
                    let ghost before_values = self.values();
                    let previous = self.replace_at(i, value);
                    assert(self.values() == before_values.update(i as int, value));
                    return Some(previous);
                },
                TextOrder::Greater => {
                    assert(text_lt(key@, self.keys()[i as int]));
                    break;
                },
            }
            i = i + 1;
        }
        // `i` is the first position whose key is greater than `key`.
        let ghost old_keys = self.keys();
        let ghost old_values = self.values();
        let ghost k = key@;
        proof {
            assert forall|j: int| i <= j < old_keys.len() implies text_lt(k, #[trigger] old_keys[j]) by {
                if j > i {
                    assert(text_lt(old_keys[i as int], old_keys[j]));
                    assert(text_lt(k, old_keys[i as int]));
                    lemma_text_lt_transitive(k, old_keys[i as int], old_keys[j]);
                }
            }
            assert(!old_keys.contains(k)) by {
                if old_keys.contains(k) {
                    let j = old_keys.index_of(k);
                    lemma_text_lt_irreflexive(k);
                    if j < i {
                        assert(text_lt(old_keys[j], k));
                    } else {
                        assert(text_lt(k, old_keys[j]));
                    }
                }
            }
        }
        self.entries.insert(i, (key, value));
        proof {
            assert(self.keys() =~= old_keys.insert(i as int, k));
            assert(self.values() =~= old_values.insert(i as int, value));
            let nk = self.keys();
            assert forall|a: int, b: int| 0 <= a < b < nk.len() implies text_lt(
                #[trigger] nk[a],
                #[trigger] nk[b],
            ) by {
                if b < i {
                } else if a > i {
                    assert(nk[a] == old_keys[a - 1]);
                    assert(nk[b] == old_keys[b - 1]);
                } else if a == i {
                    assert(nk[b] == old_keys[b - 1]);
                } else if b == i {
                } else {
                    assert(nk[b] == old_keys[b - 1]);
                    assert(text_lt(old_keys[a], k));
                    assert(text_lt(k, old_keys[b - 1]));
                    lemma_text_lt_transitive(old_keys[a], k, old_keys[b - 1]);
                }
            }
            assert forall|k2: Seq<char>| #[trigger] self.as_map().dom().contains(k2) <==>
                old(self).as_map().insert(k, value).dom().contains(k2) by {
                if k2 != k && self.keys().contains(k2) {
                    let j = self.keys().index_of(k2);
                    if j < i {
                        assert(old_keys[j] == k2);
                    } else {
                        assert(old_keys[j - 1] == k2);
                    }
                }
                if k2 != k && old_keys.contains(k2) {
                    let j = old_keys.index_of(k2);
                    if j < i {
                        assert(self.keys()[j] == k2);
                    } else {
                        assert(self.keys()[j + 1] == k2);
                    }
                }
                if k2 == k {
                    assert(self.keys()[i as int] == k);
                }
            }
            assert forall|k2: Seq<char>| #[trigger] self.as_map().dom().contains(k2) implies
                self.as_map()[k2] == old(self).as_map().insert(k, value)[k2] by {
                let j = self.keys().index_of(k2);
                self.lemma_lookup(j);
                if j < i {
                    old(self).lemma_lookup(j);
                } else if j > i {
                    old(self).lemma_lookup(j - 1);
                }
            }
            assert(self.as_map() =~= old(self).as_map().insert(k, value));
        }
        None
    }
}

impl<V> TextMap<V> {
    /// Remove the entry at position `i`, returning its key and value.
    pub fn remove_at(&mut self, i: usize) -> (removed: (String, V))
        requires
            old(self).wf(),
            i < old(self).keys().len(),
        ensures
            final(self).wf(),
            removed.0@ == old(self).keys()[i as int],
            removed.1 == old(self).values()[i as int],
            final(self).keys() == old(self).keys().remove(i as int),
            final(self).values() == old(self).values().remove(i as int),
            final(self).as_map() == old(self).as_map().remove(old(self).keys()[i as int]),
    {
        let ghost old_keys = self.keys();
        let removed = self.entries.remove(i);
        proof {
            let k = old_keys[i as int];
            assert(self.keys() =~= old_keys.remove(i as int));
            assert(self.values() =~= old(self).values().remove(i as int));
            let nk = self.keys();
            assert forall|a: int, b: int| 0 <= a < b < nk.len() implies text_lt(#[trigger] nk[a], #[trigger] nk[b]) by {
                if a >= i {
                    assert(nk[a] == old_keys[a + 1] && nk[b] == old_keys[b + 1]);
                } else if b >= i {
                    assert(nk[a] == old_keys[a] && nk[b] == old_keys[b + 1]);
                } else {
                    assert(nk[a] == old_keys[a] && nk[b] == old_keys[b]);
                }
            }
            assert forall|k2: Seq<char>| #[trigger] self.as_map().dom().contains(k2) <==> old(self).as_map().remove(
                k,
            ).dom().contains(k2) by {
                if nk.contains(k2) {
                    let j = nk.index_of(k2);
                    if j < i {
                        assert(old_keys[j] == k2);
                        lemma_sorted_distinct(old_keys, j, i as int);
                    } else {
                        assert(old_keys[j + 1] == k2);
                        lemma_sorted_distinct(old_keys, j + 1, i as int);
                    }
                }
                if old_keys.contains(k2) && k2 != k {
                    let j = old_keys.index_of(k2);
                    if j < i {
                        assert(nk[j] == k2);
                    } else {
                        assert(j != i);
                        assert(nk[j - 1] == k2);
                    }
                }
            }
            assert forall|k2: Seq<char>| #[trigger] self.as_map().dom().contains(k2) implies self.as_map()[k2]
                == old(self).as_map().remove(k)[k2] by {
                let j = nk.index_of(k2);
                self.lemma_lookup(j);
                if j < i {
                    old(self).lemma_lookup(j);
                } else {
                    old(self).lemma_lookup(j + 1);
                }
            }
            assert(self.as_map() =~= old(self).as_map().remove(k));
        }
        removed
    }
}

/// A map from integer keys to values, in insertion order.
#[derive(Debug)]
pub struct U64Map<V> {
    entries: Vec<(u64, V)>,
}

impl<V> U64Map<V> {
    pub closed spec fn keys(&self) -> Seq<u64> {
        self.entries@.map_values(|e: (u64, V)| e.0)
    }

    pub closed spec fn values(&self) -> Seq<V> {
        self.entries@.map_values(|e: (u64, V)| e.1)
    }

    /// No key occurs twice.
    pub open spec fn wf(&self) -> bool {
        &&& self.keys().no_duplicates()
        &&& self.keys().len() == self.values().len()
    }

    /// The map as a mathematical map.
    pub open spec fn as_map(&self) -> Map<u64, V> {
        Map::new(|k: u64| self.keys().contains(k), |k: u64| self.values()[self.keys().index_of(k)])
    }

    proof fn lemma_at(&self, i: int)
        requires
            self.wf(),
            0 <= i < self.keys().len(),
        ensures
            self.keys().index_of(self.keys()[i]) == i,
            self.as_map().dom().contains(self.keys()[i]),
            self.as_map()[self.keys()[i]] == self.values()[i],
    {
        let k = self.keys()[i];
        assert(self.keys().contains(k));
        let j = self.keys().index_of(k);
        assert(self.keys()[j] == k);
    }

    pub fn new() -> (m: Self)
        ensures
            m.wf(),
            m.as_map() == Map::<u64, V>::empty(),
    {
        let m = U64Map { entries: Vec::new() };
        assert(m.as_map() =~= Map::<u64, V>::empty());
        m
    }

    /// The position of `key`, if present.
    fn find(&self, key: u64) -> (r: Option<usize>)
        requires
            self.wf(),
        ensures
            r is None <==> !self.as_map().dom().contains(key),
            r matches Some(i) ==> i < self.keys().len() && self.keys()[i as int] == key,
    {
        let mut i: usize = 0;
        while i < self.entries.len()
            invariant
                i <= self.keys().len(),
                self.keys().len() == self.entries@.len(),
                forall|j: int| 0 <= j < i ==> self.keys()[j] != key,
            decreases self.keys().len() - i,
        {
            if self.entries[i].0 == key {
                proof {
                    assert(self.keys()[i as int] == key);
                    assert(self.keys().contains(key));
                }
                return Some(i);
            }
            i = i + 1;
        }
        None
    }

    /// The value under `key`.
    pub fn get(&self, key: u64) -> (r: Option<&V>)
        requires
            self.wf(),
        ensures
            r is Some <==> self.as_map().dom().contains(key),
            r matches Some(v) ==> *v == self.as_map()[key],
    {
        match self.find(key) {
            Some(i) => {
                proof {
                    self.lemma_at(i as int);
                }
                Some(&self.entries[i].1)
            },
            None => None,
        }
    }

    /// Take the value under `key` out of the map.
    pub fn take(&mut self, key: u64) -> (r: Option<V>)
        requires
            old(self).wf(),
        ensures
            final(self).wf(),
            r is Some <==> old(self).as_map().dom().contains(key),
            r matches Some(v) ==> v == old(self).as_map()[key],
            final(self).as_map() == old(self).as_map().remove(key),
    {
        match self.find(key) {
            Some(i) => {
                proof {
                    self.lemma_at(i as int);
                }
                let ghost ok = self.keys();
                let ghost ov = self.values();
                let (_, v) = self.entries.remove(i);
                proof {
                    assert(self.keys() =~= ok.remove(i as int));
                    assert(self.values() =~= ov.remove(i as int));
                    assert(self.keys().no_duplicates()) by {
                        assert forall|a: int, b: int| 0 <= a < b < self.keys().len() implies self.keys()[a]
                            != self.keys()[b] by {
                            let a2 = if a < i { a } else { a + 1 };
                            let b2 = if b < i { b } else { b + 1 };
                            assert(self.keys()[a] == ok[a2] && self.keys()[b] == ok[b2]);
                        }
                    }
                    assert forall|k: u64| #[trigger] self.as_map().dom().contains(k) <==> old(self).as_map().remove(
                        key,
                    ).dom().contains(k) by {
                        if self.keys().contains(k) {
                            let j = self.keys().index_of(k);
                            let j2 = if j < i { j } else { j + 1 };
                            assert(ok[j2] == k);
                        }
                        if ok.contains(k) && k != key {
                            let j = ok.index_of(k);
                            if j < i {
                                assert(self.keys()[j] == k);
                            } else {
                                assert(self.keys()[j - 1] == k);
                            }
                        }
                    }
                    assert forall|k: u64| #[trigger] self.as_map().dom().contains(k) implies self.as_map()[k]
                        == old(self).as_map().remove(key)[k] by {
                        let j = self.keys().index_of(k);
                        self.lemma_at(j);
                        let j2 = if j < i { j } else { j + 1 };
                        old(self).lemma_at(j2);
                    }
                    assert(self.as_map() =~= old(self).as_map().remove(key));
                }
                Some(v)
            },
            None => {
                assert(self.as_map() =~= old(self).as_map().remove(key));
                None
            },
        }
    }

    /// Put `value` under `key`, replacing what was there.
    pub fn put(&mut self, key: u64, value: V)
        requires
            old(self).wf(),
        ensures
            final(self).wf(),
            final(self).as_map() == old(self).as_map().insert(key, value),
    {
        let _ = self.take(key);
        let ghost mid = *self;
        let ghost ok = self.keys();
        self.entries.push((key, value));
        proof {
            assert(self.keys() =~= ok.push(key));
            assert(self.values() =~= mid.values().push(value));
            assert(!mid.as_map().dom().contains(key));
            assert(!ok.contains(key));
            assert(self.keys().no_duplicates()) by {
                assert forall|a: int, b: int| 0 <= a < b < self.keys().len() implies self.keys()[a] != self.keys()[b] by {
                    if b == ok.len() {
                        assert(ok.contains(self.keys()[a]) || a >= ok.len());
                    } else {
                        assert(self.keys()[a] == ok[a] && self.keys()[b] == ok[b]);
                    }
                }
            }
            assert forall|k: u64| #[trigger] self.as_map().dom().contains(k) <==> mid.as_map().insert(
                key,
                value,
            ).dom().contains(k) by {
                if ok.contains(k) {
                    let j = ok.index_of(k);
                    assert(self.keys()[j] == k);
                }
                if self.keys().contains(k) && k != key {
                    let j = self.keys().index_of(k);
                    if j < ok.len() {
                        assert(ok[j] == k);
                    }
                }
                if k == key {
                    assert(self.keys()[ok.len() as int] == key);
                }
            }
            assert forall|k: u64| #[trigger] self.as_map().dom().contains(k) implies self.as_map()[k] == mid.as_map().insert(
                key,
                value,
            )[k] by {
                let j = self.keys().index_of(k);
                self.lemma_at(j);
                if j < ok.len() {
                    mid.lemma_at(j);
                }
            }
            assert(self.as_map() =~= mid.as_map().insert(key, value));
        }
    }
}

/// The elements of `s` whose place in `mask` is set, in order.
pub open spec fn masked<T>(s: Seq<T>, mask: Seq<bool>) -> Seq<T>
    decreases s.len(),
{
    if s.len() == 0 {
        Seq::empty()
    } else {
        masked(s.drop_last(), mask) + if mask[s.len() - 1] {
            seq![s.last()]
        } else {
            Seq::empty()
        }
    }
}

proof fn lemma_masked_map<T, U>(s: Seq<T>, mask: Seq<bool>, f: spec_fn(T) -> U)
    ensures
        masked(s, mask).map_values(f) == masked(s.map_values(f), mask),
    decreases s.len(),
{
    if s.len() > 0 {
        lemma_masked_map(s.drop_last(), mask, f);
        assert(s.map_values(f).drop_last() =~= s.drop_last().map_values(f));
        assert(masked(s, mask).map_values(f) =~= masked(s.drop_last(), mask).map_values(f) + (if mask[s.len() - 1] {
            seq![s.last()]
        } else {
            Seq::empty()
        }).map_values(f));
    } else {
        assert(masked(s, mask).map_values(f) =~= masked(s.map_values(f), mask));
    }
}

proof fn lemma_masked_contains<T>(s: Seq<T>, mask: Seq<bool>, x: T)
    ensures
        masked(s, mask).contains(x) <==> exists|i: int| 0 <= i < s.len() && mask[i] && s[i] == x,
    decreases s.len(),
{
    if s.len() > 0 {
        lemma_masked_contains(s.drop_last(), mask, x);
        let tail = if mask[s.len() - 1] {
            seq![s.last()]
        } else {
            Seq::empty()
        };
        let m = masked(s.drop_last(), mask);
        assert(masked(s, mask) == m + tail);
        if masked(s, mask).contains(x) {
            let j = masked(s, mask).index_of(x);
            if j < m.len() {
                assert(m[j] == x);
                assert(m.contains(x));
                let i = choose|i: int| 0 <= i < s.drop_last().len() && mask[i] && s.drop_last()[i] == x;
                assert(s[i] == x);
            } else {
                assert(s[s.len() - 1] == x);
            }
        }
        if exists|i: int| 0 <= i < s.len() && mask[i] && s[i] == x {
            let i = choose|i: int| 0 <= i < s.len() && mask[i] && s[i] == x;
            if i < s.len() - 1 {
                assert(s.drop_last()[i] == x);
                assert(m.contains(x));
                let j = m.index_of(x);
                assert(masked(s, mask)[j] == x);
            } else {
                assert(masked(s, mask)[m.len() as int] == x);
            }
        }
    }
}

impl<V> TextMap<V> {
    /// Keep the entries whose place in `mask` is set.
    pub fn keep_where(&mut self, mask: &Vec<bool>)
        requires
            old(self).wf(),
            mask@.len() == old(self).keys().len(),
        ensures
            final(self).wf(),
            final(self).keys() == masked(old(self).keys(), mask@),
            final(self).values() == masked(old(self).values(), mask@),
            forall|k: Seq<char>|
                #[trigger] final(self).as_map().dom().contains(k) <==> (old(self).as_map().dom().contains(k)
                    && mask@[old(self).keys().index_of(k)]),
            forall|k: Seq<char>|
                #[trigger] final(self).as_map().dom().contains(k) ==> final(self).as_map()[k] == old(self).as_map()[k],
    {
        let ghost orig = self.entries@;
        let ghost ok = self.keys();
        let mut rest: Vec<(String, V)> = Vec::new();
        std::mem::swap(&mut rest, &mut self.entries);
        let n = rest.len();
        let mut j: usize = 0;
        let ghost mut last: int = -1;
        while j < n
            invariant
                n == orig.len(),
                mask@.len() == n,
                j <= n,
                rest@ == orig.subrange(j as int, n as int),
                self.entries@ == masked(orig.take(j as int), mask@),
                strictly_sorted(ok),
                ok == orig.map_values(|e: (String, V)| e.0@),
                strictly_sorted(self.keys()),
                -1 <= last < j,
                self.keys().len() > 0 ==> last >= 0 && self.keys().last() == ok[last],
                self.keys().len() == self.values().len(),
            decreases n - j,
        {
            let e = rest.remove(0);
            proof {
                assert(orig.take(j + 1).drop_last() =~= orig.take(j as int));
                assert(orig.take(j + 1).last() == orig[j as int]);
                assert(e == orig[j as int]);
            }
            if mask[j] {
                let ghost before = self.keys();
                self.entries.push(e);
                proof {
                    assert(self.keys() =~= before.push(ok[j as int]));
                    assert forall|a: int, b: int| 0 <= a < b < self.keys().len() implies text_lt(
                        #[trigger] self.keys()[a],
                        #[trigger] self.keys()[b],
                    ) by {
                        if b == before.len() {
                            assert(text_lt(ok[last], ok[j as int]));
                            if a < before.len() - 1 {
                                assert(text_lt(before[a], before.last()));
                                lemma_text_lt_transitive(before[a], ok[last], ok[j as int]);
                            }
                        }
                    }
                    last = j as int;
                }
            }
            proof {
                assert(rest@ =~= orig.subrange(j + 1, n as int));
                assert(self.entries@ =~= masked(orig.take(j + 1), mask@));
            }
            j = j + 1;
        }
        proof {
            assert(orig.take(n as int) =~= orig);
            lemma_masked_map(orig, mask@, |e: (String, V)| e.0@);
            lemma_masked_map(orig, mask@, |e: (String, V)| e.1);
            assert forall|k: Seq<char>| #[trigger] self.as_map().dom().contains(k) <==> (old(self).as_map().dom().contains(k)
                && mask@[ok.index_of(k)]) by {
                lemma_masked_contains(ok, mask@, k);
                if self.keys().contains(k) {
                    let i = choose|i: int| 0 <= i < ok.len() && mask@[i] && ok[i] == k;
                    old(self).lemma_lookup(i);
                }
                if ok.contains(k) && mask@[ok.index_of(k)] {
                    let i = ok.index_of(k);
                    assert(0 <= i < ok.len() && mask@[i] && ok[i] == k);
                }
            }
            assert forall|k: Seq<char>| #[trigger] self.as_map().dom().contains(k) implies self.as_map()[k] == old(self).as_map()[k] by {
                let t = self.keys().index_of(k);
                self.lemma_lookup(t);
                lemma_masked_pair(orig, mask@, t);
                let i = choose|i: int| 0 <= i < orig.len() && mask@[i] && masked(orig, mask@)[t] == orig[i];
                assert(ok[i] == k);
                old(self).lemma_lookup(i);
            }
        }
    }
}

proof fn lemma_masked_pair<T>(s: Seq<T>, mask: Seq<bool>, t: int)
    requires
        0 <= t < masked(s, mask).len(),
    ensures
        exists|i: int| 0 <= i < s.len() && mask[i] && masked(s, mask)[t] == s[i],
    decreases s.len(),
{
    if s.len() > 0 {
        let m = masked(s.drop_last(), mask);
        if t < m.len() {
            lemma_masked_pair(s.drop_last(), mask, t);
            let i = choose|i: int| 0 <= i < s.drop_last().len() && mask[i] && m[t] == s.drop_last()[i];
            assert(masked(s, mask)[t] == s[i]);
        } else {
            assert(masked(s, mask)[t] == s[s.len() - 1]);
        }
    }
}

pub proof fn lemma_masked_len<T>(s: Seq<T>, mask: Seq<bool>)
    ensures
        masked(s, mask).len() <= s.len(),
    decreases s.len(),
{
    if s.len() > 0 {
        lemma_masked_len(s.drop_last(), mask);
    }
}

} // verus!
