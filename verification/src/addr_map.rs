//! A map keyed by address that keeps its entries in the order of the keys.

use crate::types::H160;
use vstd::prelude::*;

verus! {

/// Whether the keys of `s` strictly ascend.
pub open spec fn ascending<V>(s: Seq<(H160, V)>) -> bool {
    forall|i: int, j: int| 0 <= i < j < s.len() ==> (#[trigger] s[i]).0.key() < (#[trigger] s[j]).0.key()
}

/// Whether some entry of `s` has the key `k`.
pub open spec fn has_key<V>(s: Seq<(H160, V)>, k: H160) -> bool {
    exists|i: int| 0 <= i < s.len() && (#[trigger] s[i]).0 == k
}

/// An index at which `s` holds the key `k`.
pub open spec fn index_of<V>(s: Seq<(H160, V)>, k: H160) -> int {
    choose|i: int| 0 <= i < s.len() && (#[trigger] s[i]).0 == k
}

/// The map that a list of entries stands for.
pub open spec fn entries_map<V>(s: Seq<(H160, V)>) -> Map<H160, V> {
    Map::new(|k: H160| has_key(s, k), |k: H160| s[index_of(s, k)].1)
}

/// In an ascending list each key occurs once, so the entry at `i` is what
/// the map holds under its key.
pub proof fn lemma_entry<V>(s: Seq<(H160, V)>, i: int)
    requires
        ascending(s),
        0 <= i < s.len(),
    ensures
        has_key(s, s[i].0),
        index_of(s, s[i].0) == i,
        entries_map(s).contains_key(s[i].0),
        entries_map(s)[s[i].0] == s[i].1,
{
    let k = s[i].0;
    assert(has_key(s, k));
    let j = index_of(s, k);
    assert(0 <= j < s.len() && s[j].0 == k);
    if j < i {
        assert(s[j].0.key() < s[i].0.key());
    }
    if i < j {
        assert(s[i].0.key() < s[j].0.key());
    }
}

/// A key that lies strictly between the entries before `p` and those from
/// `p` on is not in the list.
pub proof fn lemma_absent<V>(s: Seq<(H160, V)>, p: int, k: H160)
    requires
        0 <= p <= s.len(),
        forall|i: int| 0 <= i < p ==> (#[trigger] s[i]).0.key() < k.key(),
        forall|i: int| p <= i < s.len() ==> k.key() < (#[trigger] s[i]).0.key(),
    ensures
        !has_key(s, k),
        !entries_map(s).contains_key(k),
{
    if has_key(s, k) {
        let j = index_of(s, k);
        assert(s[j].0 == k);
        if j < p {
            assert(s[j].0.key() < k.key());
        } else {
            assert(k.key() < s[j].0.key());
        }
    }
}

/// Putting a new key at its place keeps the list ascending and adds the
/// entry to the map.
pub proof fn lemma_insert<V>(s: Seq<(H160, V)>, p: int, k: H160, v: V)
    requires
        ascending(s),
        0 <= p <= s.len(),
        forall|i: int| 0 <= i < p ==> (#[trigger] s[i]).0.key() < k.key(),
        forall|i: int| p <= i < s.len() ==> k.key() < (#[trigger] s[i]).0.key(),
    ensures
        ascending(s.insert(p, (k, v))),
        entries_map(s.insert(p, (k, v))) == entries_map(s).insert(k, v),
{
    let t = s.insert(p, (k, v));
    assert(ascending(t)) by {
        assert forall|i: int, j: int| 0 <= i < j < t.len() implies (#[trigger] t[i]).0.key() < (
        #[trigger] t[j]).0.key() by {
            let a = if i < p { i } else { i - 1 };
            let b = if j < p { j } else { j - 1 };
            if i != p {
                assert(t[i] == s[a]);
            }
            if j != p {
                assert(t[j] == s[b]);
            }
        }
    }
    let m = entries_map(s).insert(k, v);
    assert forall|x: H160| #[trigger] entries_map(t).contains_key(x) == m.contains_key(x) by {
        if has_key(t, x) {
            let i = index_of(t, x);
            if i < p {
                assert(t[i] == s[i]);
                assert(has_key(s, x));
            } else if i > p {
                assert(t[i] == s[i - 1]);
                assert(has_key(s, x));
            }
        }
        if has_key(s, x) {
            let i = index_of(s, x);
            if i < p {
                assert(t[i] == s[i]);
            } else {
                assert(t[i + 1] == s[i]);
            }
            assert(has_key(t, x));
        }
        if x == k {
            assert(t[p].0 == k);
            assert(has_key(t, x));
        }
    }
    assert forall|x: H160| entries_map(t).contains_key(x) implies #[trigger] entries_map(t)[x]
        == m[x] by {
        let i = index_of(t, x);
        lemma_entry(t, i);
        if i < p {
            assert(t[i] == s[i]);
            lemma_entry(s, i);
        } else if i > p {
            assert(t[i] == s[i - 1]);
            lemma_entry(s, i - 1);
        } else {
            assert(t[p] == (k, v));
        }
    }
    assert(entries_map(t) =~= m);
}

/// Taking an entry out keeps the list ascending and takes its key out of
/// the map.
pub proof fn lemma_remove<V>(s: Seq<(H160, V)>, p: int)
    requires
        ascending(s),
        0 <= p < s.len(),
    ensures
        ascending(s.remove(p)),
        entries_map(s.remove(p)) == entries_map(s).remove(s[p].0),
{
    let k = s[p].0;
    let t = s.remove(p);
    assert(ascending(t)) by {
        assert forall|i: int, j: int| 0 <= i < j < t.len() implies (#[trigger] t[i]).0.key() < (
        #[trigger] t[j]).0.key() by {
            let a = if i < p { i } else { i + 1 };
            let b = if j < p { j } else { j + 1 };
            assert(t[i] == s[a]);
            assert(t[j] == s[b]);
        }
    }
    let m = entries_map(s).remove(k);
    assert forall|x: H160| #[trigger] entries_map(t).contains_key(x) == m.contains_key(x) by {
        if has_key(t, x) {
            let i = index_of(t, x);
            let a = if i < p { i } else { i + 1 };
            assert(t[i] == s[a]);
            assert(has_key(s, x));
            if a < p {
                assert(s[a].0.key() < s[p].0.key());
            } else {
                assert(s[p].0.key() < s[a].0.key());
            }
            assert(x != k);
        }
        if has_key(s, x) && x != k {
            let i = index_of(s, x);
            if i < p {
                assert(t[i] == s[i]);
            } else {
                assert(t[i - 1] == s[i]);
            }
            assert(has_key(t, x));
        }
    }
    assert forall|x: H160| entries_map(t).contains_key(x) implies #[trigger] entries_map(t)[x]
        == m[x] by {
        let i = index_of(t, x);
        lemma_entry(t, i);
        let a = if i < p { i } else { i + 1 };
        assert(t[i] == s[a]);
        lemma_entry(s, a);
    }
    assert(entries_map(t) =~= m);
}

/// The first `i + 1` entries of an ascending list stand for the map of the
/// first `i` with the entry at `i` added, whose key is new to it.
pub proof fn lemma_take_step<V>(s: Seq<(H160, V)>, i: int)
    requires
        ascending(s),
        0 <= i < s.len(),
    ensures
        ascending(s.take(i)),
        ascending(s.take(i + 1)),
        !entries_map(s.take(i)).contains_key(s[i].0),
        entries_map(s.take(i + 1)) == entries_map(s.take(i)).insert(s[i].0, s[i].1),
{
    let head = s.take(i);
    assert(ascending(head)) by {
        assert forall|a: int, b: int| 0 <= a < b < head.len() implies (#[trigger] head[a]).0.key() < (
        #[trigger] head[b]).0.key() by {
            assert(head[a] == s[a]);
            assert(head[b] == s[b]);
        }
    }
    assert forall|a: int| 0 <= a < head.len() implies (#[trigger] head[a]).0.key() < s[i].0.key() by {
        assert(head[a] == s[a]);
        assert(s[a].0.key() < s[i].0.key());
    }
    lemma_absent(head, i, s[i].0);
    lemma_insert(head, i, s[i].0, s[i].1);
    assert(head.insert(i, s[i]) =~= s.take(i + 1));
}

/// A key of the map of a list is the key of one of its entries.
pub proof fn lemma_key_index<V>(s: Seq<(H160, V)>, k: H160) -> (i: int)
    requires
        ascending(s),
        entries_map(s).contains_key(k),
    ensures
        0 <= i < s.len(),
        s[i].0 == k,
        entries_map(s)[k] == s[i].1,
{
    let i = index_of(s, k);
    lemma_entry(s, i);
    i
}

/// An ascending list stands for a finite map with one key for each entry.
pub proof fn lemma_size<V>(s: Seq<(H160, V)>)
    requires
        ascending(s),
    ensures
        entries_map(s).dom().finite(),
        entries_map(s).dom().len() == s.len(),
    decreases s.len(),
{
    if s.len() == 0 {
        assert(entries_map(s).dom() =~= Set::<H160>::empty());
    } else {
        let p = s.len() - 1;
        let t = s.remove(p);
        lemma_remove(s, p);
        lemma_size(t);
        lemma_entry(s, p);
        assert(entries_map(s).dom() =~= entries_map(t).dom().insert(s[p].0));
    }
}

/// A map from addresses to values. It holds each key once and hands its
/// entries out in the ascending order of the keys.
#[derive(Debug)]
pub struct AddrMap<V> {
    entries: Vec<(H160, V)>,
}

impl<V> View for AddrMap<V> {
    type V = Map<H160, V>;

    open spec fn view(&self) -> Map<H160, V> {
        entries_map(self.entries())
    }
}

impl<V> AddrMap<V> {
    /// The entries in the order in which the map hands them out.
    pub closed spec fn entries(&self) -> Seq<(H160, V)> {
        self.entries@
    }

    /// What holds of every map that this module hands out: the keys of its
    /// entries strictly ascend.
    pub open spec fn wf(&self) -> bool {
        ascending(self.entries())
    }

    /// A valid map is finite, and has as many keys as entries.
    pub proof fn lemma_finite(&self)
        requires
            self.wf(),
        ensures
            self@.dom().finite(),
            self@.dom().len() == self.entries().len(),
    {
        lemma_size(self.entries());
    }

    /// The empty map.
    pub fn new() -> (map: AddrMap<V>)
        ensures
            map@ == Map::<H160, V>::empty(),
            map.entries() == Seq::<(H160, V)>::empty(),
            map.wf(),
    {
        let map = AddrMap { entries: Vec::new() };
        assert(map@ =~= Map::<H160, V>::empty());
        map
    }

    /// The number of keys.
    pub fn len(&self) -> (n: usize)
        requires
            self.wf(),
        ensures
            n == self@.dom().len(),
            n == self.entries().len(),
    {
        proof {
            lemma_size(self.entries());
        }
        self.entries.len()
    }

    /// Whether the map holds no key.
    pub fn is_empty(&self) -> (empty: bool)
        requires
            self.wf(),
        ensures
            empty == (self@.dom().len() == 0),
            empty == (self.entries().len() == 0),
    {
        self.len() == 0
    }

    /// The index of the first entry whose key does not come before `key`.
    fn lower_bound(&self, key: &H160) -> (p: usize)
        requires
            self.wf(),
        ensures
            p <= self.entries().len(),
            forall|i: int| 0 <= i < p ==> (#[trigger] self.entries()[i]).0.key() < key.key(),
            forall|i: int|
                p <= i < self.entries().len() ==> key.key() <= (#[trigger] self.entries()[i]).0.key(),
    {
        let n: usize = self.entries.len();
        let mut p: usize = 0;
        while p < n && self.entries[p].0.precedes(key)
            invariant
                p <= n,
                n == self.entries().len(),
                self.wf(),
                forall|i: int| 0 <= i < p ==> (#[trigger] self.entries()[i]).0.key() < key.key(),
            decreases n - p,
        {
            p = p + 1;
        }
        proof {
            if p < n {
                assert forall|i: int| p <= i < self.entries().len() implies key.key() <= (
                #[trigger] self.entries()[i]).0.key() by {
                    if p < i {
                        assert(self.entries()[p as int].0.key() < self.entries()[i].0.key());
                    }
                }
            }
        }
        p
    }

    /// Whether the map holds `key`.
    pub fn contains_key(&self, key: &H160) -> (found: bool)
        requires
            self.wf(),
        ensures
            found == self@.contains_key(*key),
    {
        let p = self.lower_bound(key);
        if p < self.entries.len() && self.entries[p].0.equals(key) {
            proof {
                lemma_entry(self.entries(), p as int);
            }
            true
        } else {
            proof {
                self.lemma_gap(p as int, *key);
            }
            false
        }
    }

    /// A key that is not at its lower bound is not in the map.
    proof fn lemma_gap(&self, p: int, key: H160)
        requires
            self.wf(),
            0 <= p <= self.entries().len(),
            forall|i: int| 0 <= i < p ==> (#[trigger] self.entries()[i]).0.key() < key.key(),
            forall|i: int|
                p <= i < self.entries().len() ==> key.key() <= (#[trigger] self.entries()[i]).0.key(),
            p < self.entries().len() ==> self.entries()[p].0 != key,
        ensures
            !self@.contains_key(key),
            forall|i: int|
                p <= i < self.entries().len() ==> key.key() < (#[trigger] self.entries()[i]).0.key(),
    {
        let s = self.entries();
        assert forall|i: int| p <= i < s.len() implies key.key() < (#[trigger] s[i]).0.key() by {
            if i == p {
                H160::lemma_identity(s[p].0, key);
            } else {
                assert(s[p].0.key() < s[i].0.key());
            }
        }
        lemma_absent(s, p, key);
    }

    /// The value under `key`, if the map holds the key.
    pub fn get(&self, key: &H160) -> (value: Option<&V>)
        requires
            self.wf(),
        ensures
            self@.contains_key(*key) ==> value == Some(&self@[*key]),
            !self@.contains_key(*key) ==> value is None,
    {
        let p = self.lower_bound(key);
        if p < self.entries.len() && self.entries[p].0.equals(key) {
            proof {
                lemma_entry(self.entries(), p as int);
            }
            Some(&self.entries[p].1)
        } else {
            proof {
                self.lemma_gap(p as int, *key);
            }
            None
        }
    }

    /// Puts `value` under `key`, and hands back the value that was there.
    pub fn insert(&mut self, key: H160, value: V) -> (previous: Option<V>)
        requires
            old(self).wf(),
        ensures
            final(self)@ == old(self)@.insert(key, value),
            old(self)@.contains_key(key) ==> previous == Some(old(self)@[key]),
            !old(self)@.contains_key(key) ==> previous is None,
            final(self).wf(),
    {
        let p = self.lower_bound(&key);
        if p < self.entries.len() && self.entries[p].0.equals(&key) {
            proof {
                lemma_entry(self.entries(), p as int);
                lemma_remove(self.entries(), p as int);
                let t = self.entries().remove(p as int);
                assert forall|i: int| 0 <= i < p implies (#[trigger] t[i]).0.key() < key.key() by {
                    assert(t[i] == self.entries()[i]);
                }
                assert forall|i: int| p <= i < t.len() implies key.key() < (#[trigger] t[i]).0.key() by {
                    assert(t[i] == self.entries()[i + 1]);
                    assert(self.entries()[p as int].0.key() < self.entries()[i + 1].0.key());
                }
                lemma_insert(t, p as int, key, value);
                assert(entries_map(t).insert(key, value) =~= self@.insert(key, value));
            }
            let old_entry = self.entries.remove(p);
            self.entries.insert(p, (key, value));
            Some(old_entry.1)
        } else {
            proof {
                self.lemma_gap(p as int, key);
                lemma_insert(self.entries(), p as int, key, value);
            }
            self.entries.insert(p, (key, value));
            None
        }
    }

    /// Takes `key` out of the map, and hands back the value that was there.
    pub fn remove(&mut self, key: &H160) -> (previous: Option<V>)
        requires
            old(self).wf(),
        ensures
            final(self)@ == old(self)@.remove(*key),
            old(self)@.contains_key(*key) ==> previous == Some(old(self)@[*key]),
            !old(self)@.contains_key(*key) ==> previous is None,
            final(self).wf(),
    {
        let p = self.lower_bound(key);
        if p < self.entries.len() && self.entries[p].0.equals(key) {
            proof {
                lemma_entry(self.entries(), p as int);
                lemma_remove(self.entries(), p as int);
            }
            let old_entry = self.entries.remove(p);
            Some(old_entry.1)
        } else {
            proof {
                self.lemma_gap(p as int, *key);
                assert(self@.remove(*key) =~= self@);
            }
            None
        }
    }

    /// The key of the `i`-th entry in the order of the keys.
    pub fn key_at(&self, i: usize) -> (key: H160)
        requires
            self.wf(),
            i < self.entries().len(),
        ensures
            key == self.entries()[i as int].0,
            self@.contains_key(key),
            self@[key] == self.entries()[i as int].1,
    {
        proof {
            lemma_entry(self.entries(), i as int);
        }
        self.entries[i].0
    }

    /// The value of the `i`-th entry in the order of the keys.
    pub fn value_at(&self, i: usize) -> (value: &V)
        requires
            self.wf(),
            i < self.entries().len(),
        ensures
            *value == self.entries()[i as int].1,
            self@.contains_key(self.entries()[i as int].0),
            self@[self.entries()[i as int].0] == *value,
    {
        proof {
            lemma_entry(self.entries(), i as int);
        }
        &self.entries[i].1
    }
}

impl<V: Copy> AddrMap<V> {
    /// A map with the same entries.
    pub fn duplicate(&self) -> (copy: AddrMap<V>)
        requires
            self.wf(),
        ensures
            copy.wf(),
            copy.entries() == self.entries(),
            copy@ == self@,
    {
        let mut entries: Vec<(H160, V)> = Vec::new();
        let n: usize = self.entries.len();
        let mut i: usize = 0;
        while i < n
            invariant
                i <= n,
                n == self.entries@.len(),
                entries@ == self.entries@.take(i as int),
            decreases n - i,
        {
            let entry: (H160, V) = self.entries[i];
            proof {
                assert(self.entries@.take(i as int).push(entry) =~= self.entries@.take(i + 1));
            }
            entries.push(entry);
            i = i + 1;
        }
        proof {
            assert(self.entries@.take(n as int) =~= self.entries@);
        }
        AddrMap { entries }
    }
}

} // verus!
