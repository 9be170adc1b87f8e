//! An insertion-ordered map: a sequence of entries whose keys are pairwise
//! distinct. The order in which entries were inserted is the order in which
//! they are walked, so everything computed from a table is a function of its
//! contents alone.

use vstd::prelude::*;
use crate::key::Key;

verus! {

/// One key with the value stored under it.
#[derive(Debug)]
pub struct Entry<K, V> {
    pub key: K,
    pub value: V,
}

/// No key occurs twice in `s`.
pub open spec fn distinct_keys<K, V>(s: Seq<Entry<K, V>>) -> bool {
    forall|i: int, j: int| 0 <= i < j < s.len() ==> s[i].key != s[j].key
}

/// Some entry of `s` has the key `k`.
pub open spec fn has_key<K, V>(s: Seq<Entry<K, V>>, k: K) -> bool {
    exists|i: int| 0 <= i < s.len() && (#[trigger] s[i]).key == k
}

/// The index of an entry of `s` with the key `k`, where there is one.
pub open spec fn position<K, V>(s: Seq<Entry<K, V>>, k: K) -> int {
    choose|i: int| 0 <= i < s.len() && (#[trigger] s[i]).key == k
}

/// The value stored under `k`, where `s` has that key.
pub open spec fn value_of<K, V>(s: Seq<Entry<K, V>>, k: K) -> V {
    s[position(s, k)].value
}

/// The entries of `s` as a map from key to value.
pub open spec fn as_map<K, V>(s: Seq<Entry<K, V>>) -> Map<K, V> {
    Map::new(|k: K| has_key(s, k), |k: K| value_of(s, k))
}

/// `s` with `value` stored under `key`: in place where the key is present,
/// at the end where it is new.
pub open spec fn upsert<K, V>(s: Seq<Entry<K, V>>, key: K, value: V) -> Seq<Entry<K, V>> {
    if has_key(s, key) {
        s.update(position(s, key), Entry { key, value })
    } else {
        s.push(Entry { key, value })
    }
}

/// `s` without the entry for `key`.
pub open spec fn without<K, V>(s: Seq<Entry<K, V>>, key: K) -> Seq<Entry<K, V>> {
    if has_key(s, key) {
        s.remove(position(s, key))
    } else {
        s
    }
}

/// The keys of `s`, in order.
pub open spec fn keys<K, V>(s: Seq<Entry<K, V>>) -> Seq<K> {
    s.map_values(|e: Entry<K, V>| e.key)
}

/// `s` without the entries for `gone`.
pub open spec fn without_all<K, V>(s: Seq<Entry<K, V>>, gone: Seq<K>) -> Seq<Entry<K, V>>
    decreases gone.len(),
{
    if gone.len() == 0 {
        s
    } else {
        without(without_all(s, gone.drop_last()), gone.last())
    }
}

/// In a sequence of distinct keys, the entry at `i` is the one found for its key.
pub proof fn lemma_position<K, V>(s: Seq<Entry<K, V>>, i: int)
    requires
        distinct_keys(s),
        0 <= i < s.len(),
    ensures
        has_key(s, s[i].key),
        position(s, s[i].key) == i,
        value_of(s, s[i].key) == s[i].value,
        as_map(s).contains_key(s[i].key),
        as_map(s)[s[i].key] == s[i].value,
{
    let k = s[i].key;
    assert(has_key(s, k));
    let p = position(s, k);
    assert(0 <= p < s.len() && s[p].key == k);
    if p < i {
        assert(s[p].key != s[i].key);
    } else if i < p {
        assert(s[i].key != s[p].key);
    }
}

/// Storing a value keeps the keys distinct and acts on the map as `Map::insert`.
pub proof fn lemma_upsert<K, V>(s: Seq<Entry<K, V>>, key: K, value: V)
    requires
        distinct_keys(s),
    ensures
        distinct_keys(upsert(s, key, value)),
        as_map(upsert(s, key, value)) == as_map(s).insert(key, value),
        has_key(upsert(s, key, value), key),
        value_of(upsert(s, key, value), key) == value,
{
    let t = upsert(s, key, value);
    if has_key(s, key) {
        let p = position(s, key);
        assert(forall|i: int| 0 <= i < s.len() ==> (#[trigger] t[i]).key == s[i].key);
        assert(t[p].key == key);
        lemma_position(t, p);
        assert forall|k: K| has_key(t, k) == has_key(s, k) by {
            if has_key(t, k) {
                let i = position(t, k);
                assert(s[i].key == k);
            }
            if has_key(s, k) {
                let i = position(s, k);
                assert(t[i].key == k);
            }
        }
        assert forall|k: K| has_key(s, k) && k != key implies value_of(t, k) == value_of(s, k) by {
            let i = position(s, k);
            assert(t[i].key == k);
            lemma_position(t, i);
        }
    } else {
        let n = s.len() as int;
        assert(forall|i: int| 0 <= i < n ==> (#[trigger] t[i]) == s[i]);
        assert(t[n].key == key);
        assert forall|i: int, j: int| 0 <= i < j < t.len() implies t[i].key != t[j].key by {
            if j == n {
                assert(s[i].key != key);
            }
        }
        lemma_position(t, n);
        assert forall|k: K| has_key(t, k) == (has_key(s, k) || k == key) by {
            if has_key(t, k) {
                let i = position(t, k);
                if i < n {
                    assert(s[i].key == k);
                }
            }
            if has_key(s, k) {
                let i = position(s, k);
                assert(t[i].key == k);
            }
        }
        assert forall|k: K| has_key(s, k) implies value_of(t, k) == value_of(s, k) by {
            let i = position(s, k);
            assert(t[i].key == k);
            lemma_position(t, i);
        }
    }
    assert(as_map(t) =~= as_map(s).insert(key, value));
}

/// Taking an entry out keeps the keys distinct and acts on the map as `Map::remove`.
pub proof fn lemma_without<K, V>(s: Seq<Entry<K, V>>, key: K)
    requires
        distinct_keys(s),
    ensures
        distinct_keys(without(s, key)),
        as_map(without(s, key)) == as_map(s).remove(key),
        !has_key(without(s, key), key),
{
    let t = without(s, key);
    if has_key(s, key) {
        let p = position(s, key);
        assert(forall|i: int| 0 <= i < p ==> (#[trigger] t[i]) == s[i]);
        assert(forall|i: int| p <= i < t.len() ==> (#[trigger] t[i]) == s[i + 1]);
        assert forall|i: int, j: int| 0 <= i < j < t.len() implies t[i].key != t[j].key by {
            let a = if i < p { i } else { i + 1 };
            let b = if j < p { j } else { j + 1 };
            assert(s[a].key != s[b].key);
        }
        assert forall|k: K| has_key(t, k) == (has_key(s, k) && k != key) by {
            if has_key(t, k) {
                let i = position(t, k);
                let a = if i < p { i } else { i + 1 };
                assert(s[a].key == k);
                if k == key {
                    lemma_position(s, a);
                }
            }
            if has_key(s, k) && k != key {
                let a = position(s, k);
                let i = if a < p { a } else { a - 1 };
                assert(t[i].key == k);
            }
        }
        assert forall|k: K| has_key(t, k) implies value_of(t, k) == value_of(s, k) by {
            let i = position(t, k);
            let a = if i < p { i } else { i + 1 };
            assert(s[a].key == k);
            lemma_position(s, a);
        }
    }
    assert(as_map(t) =~= as_map(s).remove(key));
}

/// What remains of distinct keys after a filter is still distinct, and holds
/// exactly the entries that the filter lets through.
pub proof fn lemma_filter<K, V>(s: Seq<Entry<K, V>>, keep: spec_fn(Entry<K, V>) -> bool)
    requires
        distinct_keys(s),
    ensures
        distinct_keys(s.filter(keep)),
        forall|k: K| #[trigger]
            has_key(s.filter(keep), k) <==> has_key(s, k) && keep(s[position(s, k)]),
        forall|k: K| #[trigger]
            has_key(s.filter(keep), k) ==> value_of(s.filter(keep), k) == value_of(s, k),
    decreases s.len(),
{
    reveal(Seq::filter);
    let t = s.filter(keep);
    if s.len() == 0 {
        assert forall|k: K| !has_key(s, k) by {}
    } else {
        let r = s.drop_last();
        let last = s.last();
        let n = r.len() as int;
        lemma_filter(r, keep);
        let u = r.filter(keep);
        assert forall|k: K| has_key(r, k) implies has_key(s, k) && position(s, k) == position(r, k)
            && k != last.key by {
            let i = position(r, k);
            assert(s[i].key == k);
            lemma_position(s, i);
        }
        lemma_position(s, n);
        assert forall|k: K| has_key(s, k) implies has_key(r, k) || k == last.key by {
            let i = position(s, k);
            if i < n {
                assert(r[i].key == k);
            }
        }
        if keep(last) {
            assert(t == u.push(last));
            let m = u.len() as int;
            assert(forall|i: int| 0 <= i < m ==> (#[trigger] t[i]) == u[i]);
            assert(!has_key(u, last.key));
            assert forall|i: int, j: int| 0 <= i < j < t.len() implies t[i].key != t[j].key by {
                if j == m {
                    assert(u[i].key == t[i].key);
                    assert(has_key(u, u[i].key));
                }
            }
            lemma_position(t, m);
            assert forall|k: K| #[trigger]
                has_key(t, k) <==> has_key(s, k) && keep(s[position(s, k)]) by {
                if has_key(t, k) {
                    let i = position(t, k);
                    if i < m {
                        assert(u[i].key == k);
                        assert(has_key(u, k));
                    }
                }
                if has_key(u, k) {
                    let i = position(u, k);
                    assert(t[i].key == k);
                }
            }
            assert forall|k: K| #[trigger] has_key(t, k) implies value_of(t, k) == value_of(
                s,
                k,
            ) by {
                let i = position(t, k);
                lemma_position(t, i);
                if i < m {
                    assert(u[i].key == k);
                    assert(has_key(u, k));
                    lemma_position(u, i);
                }
            }
        } else {
            assert(t == u);
        }
    }
}

/// Two sequences with the same keys at the same places have the same keys,
/// and find a key at the same place.
pub proof fn lemma_same_keys<K, V, W>(a: Seq<Entry<K, V>>, b: Seq<Entry<K, W>>)
    requires
        a.len() == b.len(),
        forall|i: int| 0 <= i < a.len() ==> (#[trigger] a[i]).key == b[i].key,
    ensures
        distinct_keys(a) == distinct_keys(b),
        forall|k: K| #[trigger] has_key(a, k) == has_key(b, k),
        distinct_keys(a) ==> forall|k: K|
            has_key(a, k) ==> #[trigger] position(a, k) == position(b, k),
{
    if distinct_keys(a) {
        assert forall|i: int, j: int| 0 <= i < j < b.len() implies b[i].key != b[j].key by {
            assert(a[i].key != a[j].key);
        }
    }
    if distinct_keys(b) {
        assert forall|i: int, j: int| 0 <= i < j < a.len() implies a[i].key != a[j].key by {
            assert(b[i].key != b[j].key);
        }
    }
    assert forall|k: K| #[trigger] has_key(a, k) == has_key(b, k) by {
        if has_key(a, k) {
            let i = position(a, k);
            assert(b[i].key == k);
        }
        if has_key(b, k) {
            let i = position(b, k);
            assert(a[i].key == k);
        }
    }
    if distinct_keys(a) {
        assert forall|k: K| has_key(a, k) implies #[trigger] position(a, k) == position(b, k) by {
            let i = position(a, k);
            assert(b[i].key == k);
            lemma_position(b, i);
        }
    }
}

/// None of the keys that were taken out is left, and the keys that are left
/// were there before, with their values.
pub proof fn lemma_without_all<K, V>(s: Seq<Entry<K, V>>, gone: Seq<K>)
    requires
        distinct_keys(s),
    ensures
        distinct_keys(without_all(s, gone)),
        forall|k: K| #[trigger]
            has_key(without_all(s, gone), k) <==> has_key(s, k) && !gone.contains(k),
        forall|k: K| #[trigger]
            has_key(without_all(s, gone), k) ==> value_of(without_all(s, gone), k) == value_of(
                s,
                k,
            ),
    decreases gone.len(),
{
    if gone.len() > 0 {
        let front = gone.drop_last();
        let mid = without_all(s, front);
        lemma_without_all(s, front);
        lemma_without(mid, gone.last());
        let t = without_all(s, gone);
        let n = gone.len() as int;
        assert(gone[n - 1] == gone.last());
        assert forall|k: K| #[trigger]
            gone.contains(k) <==> front.contains(k) || k == gone.last() by {
            if front.contains(k) {
                let i = choose|i: int| 0 <= i < front.len() && front[i] == k;
                assert(gone[i] == k);
            }
            if gone.contains(k) && k != gone.last() {
                let i = choose|i: int| 0 <= i < gone.len() && gone[i] == k;
                assert(front[i] == k);
            }
        }
        assert forall|k: K| #[trigger] has_key(t, k) <==> has_key(s, k) && !gone.contains(k) by {
            assert(as_map(t).contains_key(k) <==> as_map(mid).remove(gone.last()).contains_key(k));
            assert(as_map(mid).contains_key(k) <==> has_key(mid, k));
            assert(has_key(mid, k) <==> has_key(s, k) && !front.contains(k));
        }
        assert forall|k: K| #[trigger] has_key(t, k) implies value_of(t, k) == value_of(s, k) by {
            assert(as_map(t).contains_key(k));
            assert(as_map(mid).remove(gone.last()).contains_key(k));
            assert(has_key(mid, k));
            assert(as_map(t)[k] == as_map(mid)[k]);
        }
    }
}

/// An insertion-ordered map from keys to values.
#[derive(Debug)]
pub struct Table<K, V> {
    pub entries: Vec<Entry<K, V>>,
}

impl<K: Key, V> View for Table<K, V> {
    type V = Seq<Entry<K, V>>;

    open spec fn view(&self) -> Seq<Entry<K, V>> {
        self.entries@
    }
}

impl<K: Key, V> Table<K, V> {
    /// No key is stored twice.
    pub open spec fn wf(&self) -> bool {
        distinct_keys(self@)
    }

    /// A table without entries.
    pub fn new() -> (t: Self)
        ensures
            t@ == Seq::<Entry<K, V>>::empty(),
            t.wf(),
    {
        Table { entries: Vec::new() }
    }

    /// The number of entries.
    pub fn len(&self) -> (n: usize)
        ensures
            n == self@.len(),
    {
        self.entries.len()
    }

    /// The index of the entry for `key`, if the table has one.
    pub fn find(&self, key: &K) -> (r: Option<usize>)
        ensures
            match r {
                Some(i) => i < self@.len() && self@[i as int].key == *key && has_key(self@, *key),
                None => !has_key(self@, *key),
            },
            self.wf() && r is Some ==> r->0 == position(self@, *key),
    {
        let mut i: usize = 0;
        while i < self.entries.len()
            invariant
                i <= self@.len(),
                forall|j: int| 0 <= j < i ==> self@[j].key != *key,
            decreases self@.len() - i,
        {
            if self.entries[i].key.same(key) {
                proof {
                    if self.wf() {
                        lemma_position(self@, i as int);
                    }
                }
                return Some(i);
            }
            i += 1;
        }
        None
    }

    /// Whether the table has an entry for `key`.
    pub fn contains_key(&self, key: &K) -> (r: bool)
        ensures
            r == has_key(self@, *key),
    {
        self.find(key).is_some()
    }

    /// The value stored under `key`, if there is one.
    pub fn get(&self, key: &K) -> (r: Option<&V>)
        requires
            self.wf(),
        ensures
            match r {
                Some(v) => has_key(self@, *key) && *v == value_of(self@, *key),
                None => !has_key(self@, *key),
            },
    {
        match self.find(key) {
            Some(i) => Some(&self.entries[i].value),
            None => None,
        }
    }

    /// The entry at index `i` in insertion order.
    pub fn entry_at(&self, i: usize) -> (e: &Entry<K, V>)
        requires
            i < self@.len(),
        ensures
            *e == self@[i as int],
    {
        &self.entries[i]
    }

    /// Mutable access to the value at index `i`; the key stays as it is.
    pub fn value_mut_at(&mut self, i: usize) -> (v: &mut V)
        requires
            i < old(self)@.len(),
        ensures
            *v == old(self)@[i as int].value,
            final(self)@ == old(self)@.update(
                i as int,
                Entry { key: old(self)@[i as int].key, value: *final(v) },
            ),
    {
        &mut self.entries[i].value
    }

    /// Stores `value` under `key`, replacing what was stored there.
    pub fn insert(&mut self, key: K, value: V)
        requires
            old(self).wf(),
        ensures
            final(self).wf(),
            final(self)@ == upsert(old(self)@, key, value),
            as_map(final(self)@) == as_map(old(self)@).insert(key, value),
    {
        proof {
            lemma_upsert(self@, key, value);
        }
        match self.find(&key) {
            Some(i) => {
                let slot = self.value_mut_at(i);
                *slot = value;
            },
            None => {
                self.entries.push(Entry { key, value });
            },
        }
    }

    /// Takes the entry for `key` out of the table and returns its value.
    pub fn remove(&mut self, key: &K) -> (r: Option<V>)
        requires
            old(self).wf(),
        ensures
            final(self).wf(),
            final(self)@ == without(old(self)@, *key),
            as_map(final(self)@) == as_map(old(self)@).remove(*key),
            match r {
                Some(v) => has_key(old(self)@, *key) && v == value_of(old(self)@, *key),
                None => !has_key(old(self)@, *key),
            },
    {
        proof {
            lemma_without(self@, *key);
        }
        match self.find(key) {
            Some(i) => {
                let e = self.entries.remove(i);
                Some(e.value)
            },
            None => None,
        }
    }

    /// Takes the entries for the keys `gone` out of the table.
    pub fn remove_all(&mut self, gone: &Vec<K>)
        requires
            old(self).wf(),
        ensures
            final(self).wf(),
            final(self)@ == without_all(old(self)@, gone@),
    {
        let mut i: usize = 0;
        assert(gone@.take(0) =~= Seq::<K>::empty());
        while i < gone.len()
            invariant
                i <= gone@.len(),
                self.wf(),
                self@ == without_all(old(self)@, gone@.take(i as int)),
            decreases gone@.len() - i,
        {
            self.remove(&gone[i]);
            proof {
                assert(gone@.take(i + 1).drop_last() =~= gone@.take(i as int));
                assert(gone@.take(i + 1).last() == gone@[i as int]);
            }
            i += 1;
        }
        assert(gone@.take(gone@.len() as int) =~= gone@);
    }

    /// Empties the table and hands out its entries in insertion order.
    pub fn take_entries(&mut self) -> (all: Vec<Entry<K, V>>)
        ensures
            all@ == old(self)@,
            final(self)@ == Seq::<Entry<K, V>>::empty(),
    {
        let mut all: Vec<Entry<K, V>> = Vec::new();
        core::mem::swap(&mut self.entries, &mut all);
        all
    }
}

} // verus!
