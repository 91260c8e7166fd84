//! A map keyed by text, with each key held once.
//!
//! Keys are compared by their characters; inserting under a key already
//! present replaces its value, as a hash map's insert does, and building a
//! map from pairs keeps the last value given for each key.

use vstd::prelude::*;

verus! {

/// The value under `key` in `entries`, the last one given for it.
pub open spec fn lookup<V>(entries: Seq<(Seq<char>, V)>, key: Seq<char>) -> Option<V>
    decreases entries.len(),
{
    if entries.len() == 0 {
        None
    } else if entries.last().0 == key {
        Some(entries.last().1)
    } else {
        lookup(entries.drop_last(), key)
    }
}

/// Whether no key occurs twice in `entries`.
pub open spec fn keys_distinct<V>(entries: Seq<(Seq<char>, V)>) -> bool {
    forall|i: int, j: int| 0 <= i < j < entries.len() ==> (#[trigger] entries[i]).0 != (#[trigger] entries[j]).0
}

/// A map from text keys to values.
pub struct StrMap<V> {
    entries: Vec<(String, V)>,
}

/// Entries with their keys as character sequences.
pub open spec fn entries_view<V>(entries: Seq<(String, V)>) -> Seq<(Seq<char>, V)> {
    entries.map_values(|e: (String, V)| (e.0@, e.1))
}

proof fn lemma_lookup_at<V>(s: Seq<(Seq<char>, V)>, k: int)
    requires
        keys_distinct(s),
        0 <= k < s.len(),
    ensures
        lookup(s, s[k].0) == Some(s[k].1),
    decreases s.len(),
{
    if k < s.len() - 1 {
        assert(s[k].0 != s[s.len() - 1].0);
        let t = s.drop_last();
        assert(t[k] == s[k]);
        lemma_lookup_at(t, k);
    }
}

proof fn lemma_lookup_absent<V>(s: Seq<(Seq<char>, V)>, key: Seq<char>)
    requires
        forall|i: int| 0 <= i < s.len() ==> (#[trigger] s[i]).0 != key,
    ensures
        lookup(s, key) is None,
    decreases s.len(),
{
    if s.len() > 0 {
        let t = s.drop_last();
        assert forall|i: int| 0 <= i < t.len() implies (#[trigger] t[i]).0 != key by {
            assert(t[i] == s[i]);
        }
        lemma_lookup_absent(t, key);
    }
}

proof fn lemma_lookup_found<V>(s: Seq<(Seq<char>, V)>, key: Seq<char>)
    requires
        keys_distinct(s),
    ensures
        lookup(s, key) matches Some(v) ==> exists|i: int| 0 <= i < s.len() && #[trigger] s[i] == (key, v),
        lookup(s, key) is None ==> forall|i: int| 0 <= i < s.len() ==> (#[trigger] s[i]).0 != key,
    decreases s.len(),
{
    if s.len() > 0 {
        let t = s.drop_last();
        assert(keys_distinct(t)) by {
            assert forall|i: int, j: int| 0 <= i < j < t.len() implies (#[trigger] t[i]).0 != (#[trigger] t[j]).0 by {
                assert(t[i] == s[i] && t[j] == s[j]);
            }
        }
        lemma_lookup_found(t, key);
        if s.last().0 == key {
            assert(s[s.len() - 1] == (key, s.last().1));
        } else {
            if let Some(v) = lookup(t, key) {
                let i = choose|i: int| 0 <= i < t.len() && #[trigger] t[i] == (key, v);
                assert(s[i] == t[i]);
            } else {
                assert forall|i: int| 0 <= i < s.len() implies (#[trigger] s[i]).0 != key by {
                    if i < t.len() {
                        assert(s[i] == t[i]);
                    }
                }
            }
        }
    }
}

impl<V> StrMap<V> {
    /// The entries as plain keys and values.
    pub closed spec fn view_entries(&self) -> Seq<(Seq<char>, V)> {
        entries_view(self.entries@)
    }

    /// The value under `key`, if any.
    pub open spec fn get_spec(&self, key: Seq<char>) -> Option<V> {
        lookup(self.view_entries(), key)
    }

    /// Whether each key is held once.
    pub closed spec fn wf(&self) -> bool {
        keys_distinct(self.view_entries())
    }

    /// An empty map.
    pub fn new() -> (r: StrMap<V>)
        ensures
            r.wf(),
            forall|k: Seq<char>| r.get_spec(k) is None,
            r.view_entries().len() == 0,
    {
        let r = StrMap { entries: Vec::new() };
        assert(r.view_entries() =~= Seq::empty());
        r
    }

    fn position(&self, key: &str) -> (r: Option<usize>)
        requires
            self.wf(),
        ensures
            match r {
                Some(i) => i < self.view_entries().len() && self.view_entries()[i as int].0 == key@,
                None => forall|i: int|
                    0 <= i < self.view_entries().len() ==> (#[trigger] self.view_entries()[i]).0 != key@,
            },
    {
        let ghost view = self.view_entries();
        let mut i: usize = 0;
        while i < self.entries.len()
            invariant
                view == self.view_entries(),
                view == entries_view(self.entries@),
                i <= self.entries@.len(),
                forall|j: int| 0 <= j < i ==> (#[trigger] view[j]).0 != key@,
            decreases self.entries@.len() - i,
        {
            if crate::text::chars_eq(
                crate::text::str_chars(self.entries[i].0.as_str()).as_slice(),
                crate::text::str_chars(key).as_slice(),
            ) {
                return Some(i);
            }
            i = i + 1;
        }
        None
    }

    /// The value under `key`, if any.
    pub fn get(&self, key: &str) -> (r: Option<&V>)
        requires
            self.wf(),
        ensures
            match self.get_spec(key@) {
                Some(v) => r matches Some(x) && *x == v,
                None => r is None,
            },
    {
        match self.position(key) {
            Some(i) => {
                proof {
                    lemma_lookup_at(self.view_entries(), i as int);
                }
                Some(&self.entries[i].1)
            },
            None => {
                proof {
                    lemma_lookup_absent(self.view_entries(), key@);
                }
                None
            },
        }
    }

    /// Sets the value under `key`, replacing any value it had.
    pub fn insert(&mut self, key: String, value: V)
        requires
            old(self).wf(),
        ensures
            final(self).wf(),
            forall|k: Seq<char>|
                #[trigger] final(self).get_spec(k) == if k == key@ {
                    Some(value)
                } else {
                    old(self).get_spec(k)
                },
    {
        let ghost before = self.view_entries();
        let ghost kv = key@;
        match self.position(key.as_str()) {
            Some(i) => {
                self.entries.remove(i);
                self.entries.insert(i, (key, value));
                let ghost after = self.view_entries();
                assert(after =~= before.update(i as int, (kv, value)));
                assert(keys_distinct(after)) by {
                    assert forall|a: int, b: int| 0 <= a < b < after.len() implies (#[trigger] after[a]).0
                        != (#[trigger] after[b]).0 by {
                        assert(before[a].0 != before[b].0);
                    }
                }
                assert forall|k: Seq<char>|
                    #[trigger] lookup(after, k) == if k == kv {
                        Some(value)
                    } else {
                        lookup(before, k)
                    } by {
                    if k == kv {
                        lemma_lookup_at(after, i as int);
                    } else {
                        lemma_lookup_found(before, k);
                        lemma_lookup_found(after, k);
                        match lookup(before, k) {
                            Some(v) => {
                                let j = choose|j: int| 0 <= j < before.len() && #[trigger] before[j] == (k, v);
                                assert(after[j] == before[j]);
                                lemma_lookup_at(after, j);
                            },
                            None => {
                                assert forall|j: int| 0 <= j < after.len() implies (#[trigger] after[j]).0 != k by {
                                    if j != i {
                                        assert(after[j] == before[j]);
                                    }
                                }
                                lemma_lookup_absent(after, k);
                            },
                        }
                    }
                }
            },
            None => {
                self.entries.push((key, value));
                let ghost after = self.view_entries();
                assert(after =~= before.push((kv, value)));
                assert(keys_distinct(after)) by {
                    assert forall|a: int, b: int| 0 <= a < b < after.len() implies (#[trigger] after[a]).0
                        != (#[trigger] after[b]).0 by {
                        if b == after.len() - 1 {
                            assert(after[a] == before[a]);
                        } else {
                            assert(after[a] == before[a] && after[b] == before[b]);
                        }
                    }
                }
                assert(after.drop_last() =~= before);
            },
        }
    }

    /// Takes the value under `key` out of the map.
    pub fn remove(&mut self, key: &str) -> (r: Option<V>)
        requires
            old(self).wf(),
        ensures
            final(self).wf(),
            r == old(self).get_spec(key@),
            forall|k: Seq<char>|
                #[trigger] final(self).get_spec(k) == if k == key@ {
                    None
                } else {
                    old(self).get_spec(k)
                },
    {
        let ghost before = self.view_entries();
        match self.position(key) {
            Some(i) => {
                proof {
                    lemma_lookup_at(before, i as int);
                }
                let (_, value) = self.entries.remove(i);
                let ghost after = self.view_entries();
                assert(after =~= before.remove(i as int));
                assert(keys_distinct(after)) by {
                    assert forall|a: int, b: int| 0 <= a < b < after.len() implies (#[trigger] after[a]).0
                        != (#[trigger] after[b]).0 by {
                        let oa = if a < i {
                            a
                        } else {
                            a + 1
                        };
                        let ob = if b < i {
                            b
                        } else {
                            b + 1
                        };
                        assert(after[a] == before[oa] && after[b] == before[ob]);
                    }
                }
                assert forall|k: Seq<char>|
                    #[trigger] lookup(after, k) == if k == key@ {
                        None
                    } else {
                        lookup(before, k)
                    } by {
                    lemma_lookup_found(before, k);
                    if k == key@ {
                        assert forall|j: int| 0 <= j < after.len() implies (#[trigger] after[j]).0 != k by {
                            let oj = if j < i {
                                j
                            } else {
                                j + 1
                            };
                            assert(after[j] == before[oj]);
                        }
                        lemma_lookup_absent(after, k);
                    } else {
                        match lookup(before, k) {
                            Some(v) => {
                                let j = choose|j: int| 0 <= j < before.len() && #[trigger] before[j] == (k, v);
                                let nj = if j < i {
                                    j
                                } else {
                                    j - 1
                                };
                                assert(after[nj] == before[j]);
                                lemma_lookup_at(after, nj);
                            },
                            None => {
                                assert forall|j: int| 0 <= j < after.len() implies (#[trigger] after[j]).0 != k by {
                                    let oj = if j < i {
                                        j
                                    } else {
                                        j + 1
                                    };
                                    assert(after[j] == before[oj]);
                                }
                                lemma_lookup_absent(after, k);
                            },
                        }
                    }
                }
                Some(value)
            },
            None => {
                proof {
                    lemma_lookup_absent(before, key@);
                }
                None
            },
        }
    }

    /// Keeps only the keys listed in `keep`.
    pub fn retain_keys(&mut self, keep: &[String])
        requires
            old(self).wf(),
        ensures
            final(self).wf(),
            forall|k: Seq<char>|
                #[trigger] final(self).get_spec(k) == if key_listed(keep@, k) {
                    old(self).get_spec(k)
                } else {
                    None
                },
    {
        let ghost before = self.view_entries();
        let mut kept: Vec<(String, V)> = Vec::new();
        let mut taken = Vec::new();
        std::mem::swap(&mut taken, &mut self.entries);
        let ghost all = entries_view(taken@);
        let n = taken.len();
        assert(all == before);
        assert(all.len() == n);
        let mut i: usize = 0;
        while taken.len() > 0
            invariant
                i + taken@.len() == all.len(),
                all.len() <= usize::MAX,
                entries_view(taken@) == all.skip(i as int),
                keys_distinct(all),
                entries_view(kept@) == kept_of(all.take(i as int), keep@),
            decreases taken@.len(),
        {
            let ghost rest = entries_view(taken@);
            let entry = taken.remove(0);
            assert(entries_view(taken@) =~= rest.drop_first());
            assert(all.skip(i as int)[0] == all[i as int]);
            assert(all.take(i + 1).drop_last() =~= all.take(i as int));
            assert(all.skip(i + 1) =~= all.skip(i as int).drop_first());
            if list_has(keep, entry.0.as_str()) {
                let ghost k0 = entries_view(kept@);
                kept.push(entry);
                assert(entries_view(kept@) =~= k0.push(all[i as int]));
            }
            i = i + 1;
        }
        assert(all.take(i as int) =~= all);
        self.entries = kept;
        proof {
            lemma_kept_of(all, keep@);
        }
    }

    /// The map's pairs, each key once.
    pub fn into_pairs(self) -> (r: Vec<(String, V)>)
        requires
            self.wf(),
        ensures
            entries_view(r@) == self.view_entries(),
            keys_distinct(entries_view(r@)),
            forall|k: Seq<char>| #[trigger] lookup(entries_view(r@), k) == self.get_spec(k),
    {
        self.entries
    }

    /// The map holding `pairs`, the last value given for a key winning.
    pub fn from_pairs(pairs: Vec<(String, V)>) -> (r: StrMap<V>)
        ensures
            r.wf(),
            forall|k: Seq<char>| #[trigger] r.get_spec(k) == lookup(entries_view(pairs@), k),
    {
        let ghost all = entries_view(pairs@);
        let n = pairs.len();
        assert(all.len() == n);
        let mut map = StrMap::new();
        let mut pairs = pairs;
        let mut i: usize = 0;
        assert(all.take(0) =~= Seq::<(Seq<char>, V)>::empty());
        while pairs.len() > 0
            invariant
                i + pairs@.len() == all.len(),
                all.len() <= usize::MAX,
                entries_view(pairs@) == all.skip(i as int),
                map.wf(),
                forall|k: Seq<char>| #[trigger] map.get_spec(k) == lookup(all.take(i as int), k),
            decreases pairs@.len(),
        {
            let ghost r0 = entries_view(pairs@);
            let (key, value) = pairs.remove(0);
            assert(entries_view(pairs@) =~= r0.drop_first());
            assert(all.skip(i as int)[0] == all[i as int]);
            assert(all.skip(i + 1) =~= all.skip(i as int).drop_first());
            assert(all.take(i + 1).drop_last() =~= all.take(i as int));
            assert(all.take(i + 1).last() == all[i as int]);
            map.insert(key, value);
            i = i + 1;
        }
        assert(all.take(i as int) =~= all);
        map
    }
}


/// Whether some string of `keys` spells `k`.
pub open spec fn key_listed(keys: Seq<String>, k: Seq<char>) -> bool {
    exists|i: int| 0 <= i < keys.len() && (#[trigger] keys[i])@ == k
}

/// The entries of `s` whose keys `keep` lists, in order.
pub open spec fn kept_of<V>(s: Seq<(Seq<char>, V)>, keep: Seq<String>) -> Seq<(Seq<char>, V)>
    decreases s.len(),
{
    if s.len() == 0 {
        Seq::empty()
    } else {
        kept_of(s.drop_last(), keep) + if key_listed(keep, s.last().0) {
            seq![s.last()]
        } else {
            Seq::empty()
        }
    }
}

proof fn lemma_kept_of<V>(s: Seq<(Seq<char>, V)>, keep: Seq<String>)
    requires
        keys_distinct(s),
    ensures
        keys_distinct(kept_of(s, keep)),
        forall|k: Seq<char>|
            #[trigger] lookup(kept_of(s, keep), k) == if key_listed(keep, k) {
                lookup(s, k)
            } else {
                None
            },
        forall|i: int| 0 <= i < kept_of(s, keep).len() ==> s.contains(#[trigger] kept_of(s, keep)[i]),
    decreases s.len(),
{
    if s.len() > 0 {
        let t = s.drop_last();
        assert(keys_distinct(t)) by {
            assert forall|i: int, j: int| 0 <= i < j < t.len() implies (#[trigger] t[i]).0 != (#[trigger] t[j]).0 by {
                assert(t[i] == s[i] && t[j] == s[j]);
            }
        }
        lemma_kept_of(t, keep);
        let kt = kept_of(t, keep);
        let ks = kept_of(s, keep);
        assert forall|i: int| 0 <= i < ks.len() implies s.contains(#[trigger] ks[i]) by {
            if i < kt.len() {
                assert(ks[i] == kt[i]);
                let j = choose|j: int| 0 <= j < t.len() && t[j] == kt[i];
                assert(s[j] == t[j]);
            } else {
                assert(ks[i] == s.last());
                assert(s[s.len() - 1] == s.last());
            }
        }
        if key_listed(keep, s.last().0) {
            assert(ks =~= kt.push(s.last()));
            assert forall|i: int| 0 <= i < kt.len() implies (#[trigger] kt[i]).0 != s.last().0 by {
                let j = choose|j: int| 0 <= j < t.len() && t[j] == kt[i];
                assert(s[j] == t[j]);
                assert(s[j].0 != s[s.len() - 1].0);
            }
            assert(keys_distinct(ks)) by {
                assert forall|a: int, b: int| 0 <= a < b < ks.len() implies (#[trigger] ks[a]).0 != (#[trigger] ks[b]).0 by {
                    if b < kt.len() {
                        assert(ks[a] == kt[a] && ks[b] == kt[b]);
                    } else {
                        assert(ks[a] == kt[a]);
                    }
                }
            }
        } else {
            assert(ks =~= kt);
        }
        assert forall|k: Seq<char>|
            #[trigger] lookup(ks, k) == if key_listed(keep, k) {
                lookup(s, k)
            } else {
                None
            } by {
            assert(lookup(kt, k) == if key_listed(keep, k) {
                lookup(t, k)
            } else {
                None
            });
            if key_listed(keep, s.last().0) {
                assert(ks.last() == s.last());
                assert(ks.drop_last() =~= kt);
            }
        }
    }
}

pub fn list_has(keys: &[String], key: &str) -> (r: bool)
    ensures
        r == key_listed(keys@, key@),
{
    let wanted = crate::text::str_chars(key);
    let mut i: usize = 0;
    while i < keys.len()
        invariant
            i <= keys@.len(),
            wanted@ == key@,
            forall|j: int| 0 <= j < i ==> keys@[j]@ != key@,
        decreases keys@.len() - i,
    {
        if crate::text::chars_eq(crate::text::str_chars(keys[i].as_str()).as_slice(), wanted.as_slice()) {
            return true;
        }
        i = i + 1;
    }
    false
}

} // verus!
