//! The executable store: a counting key/value map, a transaction layer over
//! an optional parent layer, and the database that drives begin, commit and
//! rollback. Every structure is specified against the layer-map model.

use vstd::prelude::*;

use crate::model::{
    compacted, flatten, keys_with, lemma_compacted_finite, lemma_compacted_occurrences,
    lemma_flatten_push, lemma_flatten_singleton, lemma_flatten_size, lemma_flatten_write_top,
    lemma_occurrences_bound, lemma_occurrences_insert, lemma_occurrences_union,
    lemma_occurrences_without, live_value, occurrences, op_begin, op_commit, op_delete,
    op_rollback, op_set, stack_count, stack_finite, stack_size, stack_value, LayerMap,
};

verus! {

broadcast use vstd::set::group_set_axioms, vstd::map::group_map_axioms;

/// The keys of an association list are pairwise distinct.
spec fn keys_unique<V>(s: Seq<(String, V)>) -> bool {
    forall|i: int, j: int|
        0 <= i < j < s.len() ==> (#[trigger] s[i]).0@ != (#[trigger] s[j]).0@
}

/// The value an association list holds for `key`, or `dflt` if it holds none.
spec fn assoc_val<V>(s: Seq<(String, V)>, key: Seq<char>, dflt: V) -> V
    decreases s.len(),
{
    if s.len() == 0 {
        dflt
    } else if s.last().0@ == key {
        s.last().1
    } else {
        assoc_val(s.drop_last(), key, dflt)
    }
}

/// The layer map an association list of entries represents.
spec fn entries_map(s: Seq<(String, Option<String>)>) -> LayerMap
    decreases s.len(),
{
    if s.len() == 0 {
        Map::empty()
    } else {
        entries_map(s.drop_last()).insert(s.last().0@, s.last().1.deep_view())
    }
}

proof fn lemma_assoc_index<V>(s: Seq<(String, V)>, key: Seq<char>, dflt: V, i: int)
    requires
        keys_unique(s),
        0 <= i < s.len(),
        s[i].0@ == key,
    ensures
        assoc_val(s, key, dflt) == s[i].1,
    decreases s.len(),
{
    if i < s.len() - 1 {
        assert(s.drop_last()[i] == s[i]);
        lemma_assoc_index(s.drop_last(), key, dflt, i);
    }
}

proof fn lemma_assoc_absent<V>(s: Seq<(String, V)>, key: Seq<char>, dflt: V)
    requires
        forall|i: int| 0 <= i < s.len() ==> (#[trigger] s[i]).0@ != key,
    ensures
        assoc_val(s, key, dflt) == dflt,
    decreases s.len(),
{
    if s.len() > 0 {
        lemma_assoc_absent(s.drop_last(), key, dflt);
    }
}

proof fn lemma_assoc_update<V>(s: Seq<(String, V)>, i: int, e: (String, V), dflt: V, w: Seq<char>)
    requires
        keys_unique(s),
        0 <= i < s.len(),
        e.0@ == s[i].0@,
    ensures
        keys_unique(s.update(i, e)),
        assoc_val(s.update(i, e), w, dflt) == if w == e.0@ {
            e.1
        } else {
            assoc_val(s, w, dflt)
        },
    decreases s.len(),
{
    let t = s.update(i, e);
    assert(forall|a: int| 0 <= a < s.len() ==> (#[trigger] t[a]).0@ == s[a].0@);
    if i == s.len() - 1 {
        assert(t.drop_last() =~= s.drop_last());
        assert(t.last() == e);
    } else {
        assert(t.last() == s.last());
        assert(t.drop_last() =~= s.drop_last().update(i, e));
        assert(s.drop_last()[i] == s[i]);
        lemma_assoc_update(s.drop_last(), i, e, dflt, w);
    }
}

proof fn lemma_assoc_push<V>(s: Seq<(String, V)>, e: (String, V), dflt: V, w: Seq<char>)
    ensures
        assoc_val(s.push(e), w, dflt) == if w == e.0@ {
            e.1
        } else {
            assoc_val(s, w, dflt)
        },
{
    assert(s.push(e).drop_last() =~= s);
    assert(s.push(e).last() == e);
}

proof fn lemma_entries_map_index(s: Seq<(String, Option<String>)>, i: int)
    requires
        keys_unique(s),
        0 <= i < s.len(),
    ensures
        entries_map(s).dom().contains(s[i].0@),
        entries_map(s)[s[i].0@] == s[i].1.deep_view(),
    decreases s.len(),
{
    if i < s.len() - 1 {
        assert(s.drop_last()[i] == s[i]);
        lemma_entries_map_index(s.drop_last(), i);
        assert(s[i].0@ != s.last().0@);
    }
}

proof fn lemma_entries_map_absent(s: Seq<(String, Option<String>)>, key: Seq<char>)
    requires
        forall|i: int| 0 <= i < s.len() ==> (#[trigger] s[i]).0@ != key,
    ensures
        !entries_map(s).dom().contains(key),
    decreases s.len(),
{
    if s.len() > 0 {
        lemma_entries_map_absent(s.drop_last(), key);
    }
}

proof fn lemma_entries_map_finite(s: Seq<(String, Option<String>)>)
    ensures
        entries_map(s).dom().finite(),
        entries_map(s).dom().len() <= s.len(),
        keys_unique(s) ==> entries_map(s).dom().len() == s.len(),
    decreases s.len(),
{
    if s.len() > 0 {
        lemma_entries_map_finite(s.drop_last());
        vstd::set::axiom_set_insert_len(entries_map(s.drop_last()).dom(), s.last().0@);
        if keys_unique(s) {
            assert forall|i: int| 0 <= i < s.drop_last().len() implies (#[trigger] s.drop_last()[i]).0@
                != s.last().0@ by {
                assert(s.drop_last()[i] == s[i]);
            }
            lemma_entries_map_absent(s.drop_last(), s.last().0@);
        }
    }
}

proof fn lemma_entries_map_update(s: Seq<(String, Option<String>)>, i: int, e: (String, Option<String>))
    requires
        keys_unique(s),
        0 <= i < s.len(),
        e.0@ == s[i].0@,
    ensures
        keys_unique(s.update(i, e)),
        entries_map(s.update(i, e)) == entries_map(s).insert(e.0@, e.1.deep_view()),
    decreases s.len(),
{
    let t = s.update(i, e);
    assert(forall|a: int| 0 <= a < s.len() ==> (#[trigger] t[a]).0@ == s[a].0@);
    if i == s.len() - 1 {
        assert(t.drop_last() =~= s.drop_last());
        assert(t.last() == e);
        assert(entries_map(s.drop_last()).insert(s.last().0@, s.last().1.deep_view()).insert(
            e.0@,
            e.1.deep_view(),
        ) =~= entries_map(s.drop_last()).insert(e.0@, e.1.deep_view()));
    } else {
        assert(t.last() == s.last());
        assert(t.drop_last() =~= s.drop_last().update(i, e));
        assert(s.drop_last()[i] == s[i]);
        lemma_entries_map_update(s.drop_last(), i, e);
        assert(s[i].0@ != s.last().0@);
        assert(entries_map(s.drop_last()).insert(e.0@, e.1.deep_view()).insert(
            s.last().0@,
            s.last().1.deep_view(),
        ) =~= entries_map(s.drop_last()).insert(s.last().0@, s.last().1.deep_view()).insert(
            e.0@,
            e.1.deep_view(),
        ));
    }
}

proof fn lemma_entries_map_push(s: Seq<(String, Option<String>)>, e: (String, Option<String>))
    ensures
        entries_map(s.push(e)) == entries_map(s).insert(e.0@, e.1.deep_view()),
{
    assert(s.push(e).drop_last() =~= s);
    assert(s.push(e).last() == e);
}

/// The index of the entry whose key reads `name`, if the list has one.
fn find_key<V>(entries: &Vec<(String, V)>, name: &String) -> (r: Option<usize>)
    ensures
        match r {
            Some(i) => i < entries@.len() && entries@[i as int].0@ == name@,
            None => forall|i: int|
                0 <= i < entries@.len() ==> (#[trigger] entries@[i]).0@ != name@,
        },
{
    let n = entries.len();
    let mut j: usize = 0;
    while j < n
        invariant
            j <= n,
            n == entries@.len(),
            forall|i: int| 0 <= i < j ==> (#[trigger] entries@[i]).0@ != name@,
        decreases n - j,
    {
        if entries[j].0 == *name {
            return Some(j);
        }
        j += 1;
    }
    None
}

/// Raises the count the list holds for `value` by one.
fn increment_count(counts: &mut Vec<(String, usize)>, value: &str)
    requires
        keys_unique(old(counts)@),
        assoc_val(old(counts)@, value@, 0usize) < usize::MAX,
    ensures
        keys_unique(final(counts)@),
        forall|w: Seq<char>|
            #[trigger] assoc_val(final(counts)@, w, 0usize) as int == assoc_val(
                old(counts)@,
                w,
                0usize,
            ) + (if w == value@ {
                1int
            } else {
                0
            }),
{
    let owned = value.to_owned();
    match find_key(counts, &owned) {
        Some(i) => {
            proof {
                lemma_assoc_index(counts@, value@, 0usize, i as int);
            }
            let key = counts[i].0.clone();
            let c = counts[i].1;
            let ghost prev = counts@;
            counts[i] = (key, c + 1);
            proof {
                assert forall|w: Seq<char>|
                    #[trigger] assoc_val(counts@, w, 0usize) as int == assoc_val(prev, w, 0usize)
                        + (if w == value@ {
                        1int
                    } else {
                        0
                    }) by {
                    lemma_assoc_update(prev, i as int, (key, (c + 1) as usize), 0usize, w);
                }
                lemma_assoc_update(prev, i as int, (key, (c + 1) as usize), 0usize, value@);
            }
        },
        None => {
            let ghost prev = counts@;
            counts.push((owned, 1));
            proof {
                assert forall|w: Seq<char>|
                    #[trigger] assoc_val(counts@, w, 0usize) as int == assoc_val(prev, w, 0usize)
                        + (if w == value@ {
                        1int
                    } else {
                        0
                    }) by {
                    lemma_assoc_push(prev, (owned, 1usize), 0usize, w);
                    if w == value@ {
                        lemma_assoc_absent(prev, value@, 0usize);
                    }
                }
            }
        },
    }
}

/// Lowers the count the list holds for `value` by one.
fn decrement_count(counts: &mut Vec<(String, usize)>, value: &String)
    requires
        keys_unique(old(counts)@),
        assoc_val(old(counts)@, value@, 0usize) >= 1,
    ensures
        keys_unique(final(counts)@),
        forall|w: Seq<char>|
            #[trigger] assoc_val(final(counts)@, w, 0usize) as int == assoc_val(
                old(counts)@,
                w,
                0usize,
            ) - (if w == value@ {
                1int
            } else {
                0
            }),
{
    let idx = find_key(counts, value);
    proof {
        if idx is None {
            lemma_assoc_absent(counts@, value@, 0usize);
        }
    }
    let i = idx.unwrap();
    proof {
        lemma_assoc_index(counts@, value@, 0usize, i as int);
    }
    let key = counts[i].0.clone();
    let c = counts[i].1;
    let ghost prev = counts@;
    counts[i] = (key, c - 1);
    proof {
        assert forall|w: Seq<char>|
            #[trigger] assoc_val(counts@, w, 0usize) as int == assoc_val(prev, w, 0usize) - (if w
                == value@ {
                1int
            } else {
                0
            }) by {
            lemma_assoc_update(prev, i as int, (key, (c - 1) as usize), 0usize, w);
        }
        lemma_assoc_update(prev, i as int, (key, (c - 1) as usize), 0usize, value@);
    }
}

/// Clones an entry list, value for value.
fn clone_values(v: &Vec<(String, Option<String>)>) -> (r: Vec<(String, Option<String>)>)
    ensures
        r@ == v@,
{
    let n = v.len();
    let mut r: Vec<(String, Option<String>)> = Vec::new();
    let mut j: usize = 0;
    proof {
        assert(r@ =~= v@.take(0));
    }
    while j < n
        invariant
            j <= n,
            n == v@.len(),
            r@ == v@.take(j as int),
        decreases n - j,
    {
        let value: Option<String> = match &v[j].1 {
            Some(s) => Some(s.clone()),
            None => None,
        };
        r.push((v[j].0.clone(), value));
        proof {
            assert(v@.take(j as int + 1).drop_last() =~= v@.take(j as int));
            assert(r@ =~= v@.take(j as int + 1));
        }
        j += 1;
    }
    proof {
        assert(v@.take(n as int) =~= v@);
    }
    r
}

/// Clones a count list, value for value.
fn clone_counts<V: Copy>(v: &Vec<(String, V)>) -> (r: Vec<(String, V)>)
    ensures
        r@ == v@,
{
    let n = v.len();
    let mut r: Vec<(String, V)> = Vec::new();
    let mut j: usize = 0;
    proof {
        assert(r@ =~= v@.take(0));
    }
    while j < n
        invariant
            j <= n,
            n == v@.len(),
            r@ == v@.take(j as int),
        decreases n - j,
    {
        r.push((v[j].0.clone(), v[j].1));
        proof {
            assert(v@.take(j as int + 1).drop_last() =~= v@.take(j as int));
            assert(r@ =~= v@.take(j as int + 1));
        }
        j += 1;
    }
    proof {
        assert(v@.take(n as int) =~= v@);
    }
    r
}

/// A flat key/value map that keeps, beside the entries, the number of live
/// entries holding each value. A deleted key stays present as a tombstone so
/// that a transaction layer can shadow its parent's entry.
pub struct CountingStore {
    values: Vec<(String, Option<String>)>,
    counts: Vec<(String, usize)>,
}

impl Clone for CountingStore {
    /// A clone represents the same layer map as the store it was taken from,
    /// and is sound whenever that store is.
    fn clone(&self) -> (res: Self)
        ensures
            res@ == self@,
            self.wf() ==> res.wf(),
    {
        let res = CountingStore {
            values: clone_values(&self.values),
            counts: clone_counts(&self.counts),
        };
        proof {
            assert(res.values@ == self.values@);
            assert(res.counts@ == self.counts@);
        }
        res
    }
}

impl View for CountingStore {
    type V = LayerMap;

    /// The layer map this store represents.
    closed spec fn view(&self) -> LayerMap {
        entries_map(self.values@)
    }
}

impl CountingStore {
    /// The store's representation is sound: keys are unique and the counts
    /// agree with the entries.
    pub closed spec fn wf(&self) -> bool {
        &&& keys_unique(self.values@)
        &&& keys_unique(self.counts@)
        &&& self@.dom().finite()
        &&& self@.dom().len() == self.values@.len()
        &&& forall|v: Seq<char>|
            #![trigger assoc_val(self.counts@, v, 0usize)]
            #![trigger occurrences(self@, v)]
            assoc_val(self.counts@, v, 0usize) as nat == occurrences(self@, v)
    }

    /// Construct a new counting store.
    pub fn new() -> (r: Self)
        ensures
            r.wf(),
            r@ == Map::<Seq<char>, Option<Seq<char>>>::empty(),
    {
        let r = CountingStore { values: Vec::new(), counts: Vec::new() };
        proof {
            assert(r@.dom() =~= Set::<Seq<char>>::empty());
            assert forall|v: Seq<char>| assoc_val(r.counts@, v, 0usize) as nat == occurrences(
                r@,
                v,
            ) by {
                assert(keys_with(r@, v) =~= Set::<Seq<char>>::empty());
            }
        }
        r
    }

    /// Returns true if the key exists at all, which includes deleted keys.
    pub fn contains(&self, name: &str) -> (r: bool)
        requires
            self.wf(),
        ensures
            r == self@.dom().contains(name@),
    {
        let owned = name.to_owned();
        let idx = find_key(&self.values, &owned);
        proof {
            match idx {
                Some(i) => lemma_entries_map_index(self.values@, i as int),
                None => lemma_entries_map_absent(self.values@, name@),
            }
        }
        idx.is_some()
    }

    /// Retrieve the value for the given key, if any; a tombstoned key reads
    /// as absent.
    pub fn get(&self, name: &str) -> (r: Option<String>)
        requires
            self.wf(),
        ensures
            r.deep_view() == live_value(self@, name@),
    {
        let owned = name.to_owned();
        match find_key(&self.values, &owned) {
            Some(i) => {
                proof {
                    lemma_entries_map_index(self.values@, i as int);
                }
                match &self.values[i].1 {
                    Some(v) => Some(v.clone()),
                    None => None,
                }
            },
            None => {
                proof {
                    lemma_entries_map_absent(self.values@, name@);
                }
                None
            },
        }
    }

    /// Save the value using the given key, retiring the count of any value
    /// the key held before.
    pub fn set(&mut self, name: &str, value: &str)
        requires
            old(self).wf(),
        ensures
            final(self).wf(),
            final(self)@ == old(self)@.insert(name@, Some(value@)),
    {
        let ghost m0 = self@;
        self.delete(name);
        let ghost m1 = self@;
        let n = self.values.len();
        let owned = name.to_owned();
        let idx = find_key(&self.values, &owned);
        proof {
            if idx is None {
                lemma_entries_map_absent(self.values@, name@);
            }
        }
        let i = idx.unwrap();
        let key = self.values[i].0.clone();
        let new_value = value.to_owned();
        let ghost prev = self.values@;
        let ghost entry = (key, Some(new_value));
        self.values[i] = (key, Some(new_value));
        proof {
            lemma_entries_map_update(prev, i as int, entry);
        }
        let ghost m2 = self@;
        proof {
            assert(m2 == m1.insert(name@, Some(value@)));
            assert(m2 =~= m0.insert(name@, Some(value@)));
            assert(m2.dom() =~= m1.dom());
            // the key holds a tombstone in m1, so the new value's count has
            // room to grow by one
            assert(m1[name@] is None);
            lemma_occurrences_without(m1, value@, name@);
            assert(occurrences(m1, value@) < m1.dom().len());
            assert(m1.dom().len() == n);
        }
        increment_count(&mut self.counts, value);
        proof {
            assert forall|v: Seq<char>| assoc_val(self.counts@, v, 0usize) as nat == occurrences(
                m2,
                v,
            ) by {
                lemma_occurrences_insert(m1, name@, Some(value@), v);
            }
        }
    }

    /// Removes the value with the given key from the store by overwriting it
    /// with a tombstone; a key with no entry at all gets a tombstone as well.
    pub fn delete(&mut self, name: &str)
        requires
            old(self).wf(),
        ensures
            final(self).wf(),
            final(self)@ == old(self)@.insert(name@, None),
    {
        let ghost m0 = self@;
        let owned = name.to_owned();
        match find_key(&self.values, &owned) {
            Some(i) => {
                proof {
                    lemma_entries_map_index(self.values@, i as int);
                }
                let old_value: Option<String> = match &self.values[i].1 {
                    Some(v) => Some(v.clone()),
                    None => None,
                };
                let key = self.values[i].0.clone();
                let ghost prev = self.values@;
                self.values[i] = (key, None);
                proof {
                    lemma_entries_map_update(prev, i as int, (key, None));
                    assert(self@.dom() =~= m0.dom());
                }
                match old_value {
                    Some(v0) => {
                        proof {
                            assert(m0[name@] == Some(v0@));
                            assert(keys_with(m0, v0@).contains(name@));
                            lemma_occurrences_bound(m0, v0@);
                            vstd::set::axiom_set_contains_len(keys_with(m0, v0@), name@);
                            // the stored count equals the occurrence count in m0
                            assert(assoc_val(self.counts@, v0@, 0usize) as nat == occurrences(
                                m0,
                                v0@,
                            ));
                        }
                        decrement_count(&mut self.counts, &v0);
                        proof {
                            assert forall|v: Seq<char>| assoc_val(
                                self.counts@,
                                v,
                                0usize,
                            ) as nat == occurrences(self@, v) by {
                                lemma_occurrences_insert(m0, name@, None, v);
                            }
                        }
                    },
                    None => {
                        proof {
                            assert(m0[name@] is None);
                            assert(self@ =~= m0);
                        }
                    },
                }
            },
            None => {
                proof {
                    lemma_entries_map_absent(self.values@, name@);
                }
                let ghost prev = self.values@;
                self.values.push((owned, None));
                proof {
                    lemma_entries_map_push(prev, (owned, None));
                    assert(forall|a: int|
                        0 <= a < prev.len() ==> (#[trigger] self.values@[a]) == prev[a]);
                    assert(keys_unique(self.values@));
                    vstd::set::axiom_set_insert_len(m0.dom(), name@);
                    assert forall|v: Seq<char>| assoc_val(self.counts@, v, 0usize) as nat
                        == occurrences(self@, v) by {
                        lemma_occurrences_insert(m0, name@, None, v);
                    }
                }
            },
        }
    }

    /// Returns the number of occurrences of the given value.
    pub fn count(&self, value: &str) -> (r: usize)
        requires
            self.wf(),
        ensures
            r == occurrences(self@, value@),
    {
        let owned = value.to_owned();
        match find_key(&self.counts, &owned) {
            Some(i) => {
                proof {
                    lemma_assoc_index(self.counts@, value@, 0usize, i as int);
                }
                self.counts[i].1
            },
            None => {
                proof {
                    lemma_assoc_absent(self.counts@, value@, 0usize);
                }
                0
            },
        }
    }

    /// The number of keys the store holds, tombstoned keys included.
    pub fn len(&self) -> (r: usize)
        requires
            self.wf(),
        ensures
            r == self@.dom().len(),
    {
        self.values.len()
    }

    /// Removes all deleted entries.
    pub fn compact(&mut self)
        requires
            old(self).wf(),
        ensures
            final(self).wf(),
            final(self)@ == compacted(old(self)@),
    {
        let ghost m0 = self@;
        let n = self.values.len();
        let mut kept: Vec<(String, Option<String>)> = Vec::new();
        let mut j: usize = 0;
        proof {
            assert(self.values@.take(0) =~= Seq::<(String, Option<String>)>::empty());
            assert(entries_map(kept@) =~= compacted(entries_map(self.values@.take(0))));
        }
        while j < n
            invariant
                j <= n,
                n == self.values@.len(),
                self.wf(),
                self@ == m0,
                keys_unique(kept@),
                entries_map(kept@) == compacted(entries_map(self.values@.take(j as int))),
            decreases n - j,
        {
            let ghost prefix = self.values@.take(j as int);
            let ghost prefix2 = self.values@.take(j as int + 1);
            proof {
                assert(prefix2.drop_last() =~= prefix);
                assert(prefix2.last() == self.values@[j as int]);
                assert forall|a: int| 0 <= a < prefix.len() implies (#[trigger] prefix[a]).0@
                    != self.values@[j as int].0@ by {
                    assert(prefix[a] == self.values@[a]);
                }
                lemma_entries_map_absent(prefix, self.values@[j as int].0@);
                if entries_map(kept@).dom().contains(self.values@[j as int].0@) {
                    assert(compacted(entries_map(prefix)).dom().contains(
                        self.values@[j as int].0@,
                    ));
                }
                assert forall|a: int| 0 <= a < kept@.len() implies (#[trigger] kept@[a]).0@
                    != self.values@[j as int].0@ by {
                    lemma_entries_map_index(kept@, a);
                }
            }
            match &self.values[j].1 {
                Some(v) => {
                    let key = self.values[j].0.clone();
                    let value = v.clone();
                    let ghost prev_kept = kept@;
                    let ghost entry = (key, Some(value));
                    kept.push((key, Some(value)));
                    proof {
                        lemma_entries_map_push(prev_kept, entry);
                        assert(forall|a: int|
                            0 <= a < prev_kept.len() ==> (#[trigger] kept@[a]) == prev_kept[a]);
                        assert(keys_unique(kept@));
                        assert(entries_map(prefix2) == entries_map(prefix).insert(
                            self.values@[j as int].0@,
                            self.values@[j as int].1.deep_view(),
                        ));
                        assert(self.values@[j as int].1.deep_view() == Some(v@));
                        assert(entries_map(kept@) =~= compacted(entries_map(prefix2)));
                    }
                },
                None => {
                    proof {
                        assert(entries_map(prefix2) == entries_map(prefix).insert(
                            self.values@[j as int].0@,
                            self.values@[j as int].1.deep_view(),
                        ));
                        assert(self.values@[j as int].1.deep_view() == None::<Seq<char>>);
                        assert(entries_map(kept@) =~= compacted(entries_map(prefix2)));
                    }
                },
            }
            j += 1;
        }
        proof {
            assert(self.values@.take(n as int) =~= self.values@);
        }
        self.values = kept;
        proof {
            lemma_entries_map_finite(self.values@);
            assert forall|v: Seq<char>| assoc_val(self.counts@, v, 0usize) as nat == occurrences(
                self@,
                v,
            ) by {
                lemma_compacted_occurrences(m0, v);
            }
        }
    }
}

/// Lowers the signed adjustment the list holds for `value` by one.
fn decrement_adj(counts: &mut Vec<(String, i128)>, value: &String)
    requires
        keys_unique(old(counts)@),
        assoc_val(old(counts)@, value@, 0i128) > i128::MIN,
    ensures
        keys_unique(final(counts)@),
        forall|w: Seq<char>|
            #[trigger] assoc_val(final(counts)@, w, 0i128) as int == assoc_val(
                old(counts)@,
                w,
                0i128,
            ) - (if w == value@ {
                1int
            } else {
                0
            }),
{
    match find_key(counts, value) {
        Some(i) => {
            proof {
                lemma_assoc_index(counts@, value@, 0i128, i as int);
            }
            let key = counts[i].0.clone();
            let c = counts[i].1;
            let ghost prev = counts@;
            counts[i] = (key, c - 1);
            proof {
                assert forall|w: Seq<char>|
                    #[trigger] assoc_val(counts@, w, 0i128) as int == assoc_val(prev, w, 0i128)
                        - (if w == value@ {
                        1int
                    } else {
                        0
                    }) by {
                    lemma_assoc_update(prev, i as int, (key, (c - 1) as i128), 0i128, w);
                }
            }
        },
        None => {
            proof {
                lemma_assoc_absent(counts@, value@, 0i128);
            }
            let key = value.clone();
            let ghost prev = counts@;
            counts.push((key, -1));
            proof {
                assert forall|w: Seq<char>|
                    #[trigger] assoc_val(counts@, w, 0i128) as int == assoc_val(prev, w, 0i128)
                        - (if w == value@ {
                        1int
                    } else {
                        0
                    }) by {
                    lemma_assoc_push(prev, (key, -1i128), 0i128, w);
                    if w == value@ {
                        lemma_assoc_absent(prev, value@, 0i128);
                    }
                }
            }
        },
    }
}

/// One level of transaction nesting: this layer's own writes and deletes, an
/// owned link to the layer it nests inside, and a signed per-value adjustment
/// for parent values this layer shadows.
pub struct Transaction {
    store: CountingStore,
    parent: Option<Box<Transaction>>,
    counts: Vec<(String, i128)>,
}

impl Clone for Transaction {
    /// A clone represents the same stack of layers as the chain it was taken
    /// from, and is sound whenever that chain is.
    fn clone(&self) -> (res: Self)
        ensures
            res.stack() == self.stack(),
            self.wf() ==> res.wf(),
        decreases *self,
    {
        let res = Transaction {
            store: self.store.clone(),
            parent: match &self.parent {
                Some(p) => Some(Box::new((**p).clone())),
                None => None,
            },
            counts: clone_counts(&self.counts),
        };
        proof {
            if self.wf() {
                assert forall|v: Seq<char>| assoc_val(res.counts@, v, 0i128) as int == -(
                res.shadowed(v) as int) by {
                    match &self.parent {
                        None => {},
                        Some(p) => {
                            assert(res.shadowed(v) == self.shadowed(v));
                        },
                    }
                }
            }
        }
        res
    }
}

impl Transaction {
    /// The stack of layer maps this chain represents: the outermost layer
    /// first, this layer last.
    pub closed spec fn stack(self) -> Seq<LayerMap>
        decreases self,
    {
        match self.parent {
            None => seq![self.store@],
            Some(p) => p.stack().push(self.store@),
        }
    }

    /// The one map holding everything visible from this layer.
    pub open spec fn flat(self) -> LayerMap {
        flatten(self.stack())
    }

    /// How many keys this layer has touched whose visible value in the parent
    /// chain is `v`.
    spec fn shadowed(self, v: Seq<char>) -> nat {
        match self.parent {
            None => 0,
            Some(p) => self.store@.dom().intersect(keys_with(p.flat(), v)).len(),
        }
    }

    /// The chain's representation is sound: each layer's store is sound, its
    /// adjustments record exactly the parent values it shadows, and the chain
    /// as a whole holds few enough keys for its counts to be representable.
    pub closed spec fn wf(self) -> bool
        decreases self,
    {
        &&& self.store.wf()
        &&& keys_unique(self.counts@)
        &&& forall|v: Seq<char>|
            #[trigger] assoc_val(self.counts@, v, 0i128) as int == -(self.shadowed(v) as int)
        &&& stack_size(self.stack()) <= usize::MAX
        &&& match self.parent {
            None => true,
            Some(p) => p.wf(),
        }
    }

    /// Every chain stands for at least one layer.
    proof fn lemma_stack_len(self)
        ensures
            self.stack().len() >= 1,
            self.stack().last() == self.store@,
        decreases self,
    {
        match self.parent {
            None => {},
            Some(p) => p.lemma_stack_len(),
        }
    }

    /// A sound chain's layers all have finite domains, and its flattening is
    /// finite and no larger than the whole chain.
    proof fn lemma_stack_finite(self)
        requires
            self.wf(),
        ensures
            stack_finite(self.stack()),
            flatten(self.stack()).dom().finite(),
            flatten(self.stack()).dom().len() <= stack_size(self.stack()),
        decreases self,
    {
        match self.parent {
            None => {
                assert forall|i: int| 0 <= i < self.stack().len() implies (#[trigger] self.stack()[i]).dom().finite() by {
                    assert(self.stack()[i] == self.store@);
                }
            },
            Some(p) => {
                p.lemma_stack_finite();
                assert forall|i: int| 0 <= i < self.stack().len() implies (#[trigger] self.stack()[i]).dom().finite() by {
                    if i < p.stack().len() {
                        assert(self.stack()[i] == p.stack()[i]);
                    } else {
                        assert(self.stack()[i] == self.store@);
                    }
                }
            },
        }
        lemma_flatten_size(self.stack());
    }

    /// Construct a new base layer with nothing in it.
    pub fn new() -> (r: Self)
        ensures
            r.wf(),
            r.stack() == seq![Map::<Seq<char>, Option<Seq<char>>>::empty()],
            stack_size(r.stack()) == 0,
    {
        let r = Transaction { store: CountingStore::new(), parent: None, counts: Vec::new() };
        proof {
            assert(r.stack() == seq![r.store@]);
            assert(r.store@.dom() =~= Set::<Seq<char>>::empty());
            crate::model::lemma_stack_size_singleton(r.store@);
            assert(stack_size(r.stack()) == 0);
            assert forall|v: Seq<char>| assoc_val(r.counts@, v, 0i128) as int == -(r.shadowed(
                v,
            ) as int) by {}
        }
        r
    }

    /// Nest this fresh layer inside `parent`.
    pub fn parent(self, parent: Transaction) -> (r: Self)
        requires
            self.wf(),
            parent.wf(),
            self.stack() == seq![Map::<Seq<char>, Option<Seq<char>>>::empty()],
        ensures
            r.wf(),
            r.stack() == op_begin(parent.stack()),
            stack_size(r.stack()) == stack_size(parent.stack()),
    {
        proof {
            self.lemma_stack_len();
            assert(self.store@ == Map::<Seq<char>, Option<Seq<char>>>::empty());
        }
        let Transaction { store, parent: _, counts } = self;
        let r = Transaction { store, parent: Some(Box::new(parent)), counts };
        proof {
            crate::model::lemma_stack_size_push(parent.stack(), r.store@);
            assert(r.store@.dom() =~= Set::<Seq<char>>::empty());
            assert forall|v: Seq<char>| assoc_val(r.counts@, v, 0i128) as int == -(r.shadowed(
                v,
            ) as int) by {
                assert(r.store@.dom().intersect(keys_with(parent.flat(), v))
                    =~= Set::<Seq<char>>::empty());
            }
        }
        r
    }

    /// Retrieve the value visible for the given key from this layer or, if
    /// this layer has not touched the key, from the chain above it.
    pub fn get(&self, name: &str) -> (r: Option<String>)
        requires
            self.wf(),
        ensures
            r.deep_view() == stack_value(self.stack(), name@),
        decreases *self,
    {
        if self.store.contains(name) {
            let r = self.store.get(name);
            proof {
                match &self.parent {
                    None => lemma_flatten_singleton(self.store@),
                    Some(p) => lemma_flatten_push(p.stack(), self.store@),
                }
            }
            r
        } else {
            match &self.parent {
                Some(p) => {
                    let r = p.get(name);
                    proof {
                        lemma_flatten_push(p.stack(), self.store@);
                    }
                    r
                },
                None => {
                    proof {
                        lemma_flatten_singleton(self.store@);
                    }
                    None
                },
            }
        }
    }

    /// Record a tombstone for the given key in this layer, adjusting the
    /// count of a parent value the first time this layer shadows the key.
    pub fn delete(&mut self, name: &str)
        requires
            old(self).wf(),
            stack_size(old(self).stack()) < usize::MAX,
        ensures
            final(self).wf(),
            final(self).stack() == op_delete(old(self).stack(), name@),
            stack_size(final(self).stack()) <= stack_size(old(self).stack()) + 1,
    {
        proof {
            self.lemma_stack_len();
        }
        let ghost s0 = self.stack();
        let ghost m0 = self.store@;
        let in_local = self.store.contains(name);
        if !in_local {
            match &self.parent {
                Some(p) => {
                    let got = p.get(name);
                    match got {
                        Some(pvalue) => {
                            proof {
                                // the adjustment has room to fall: its
                                // magnitude is at most the layer's key count
                                let pf = flatten(p.stack());
                                assert(pf[name@] == Some(pvalue@));
                                let inter = m0.dom().intersect(keys_with(pf, pvalue@));
                                vstd::set_lib::lemma_len_subset(inter, m0.dom());
                                crate::model::lemma_stack_size_push(p.stack(), m0);
                                assert(self.shadowed(pvalue@) <= stack_size(s0));
                                assert((usize::MAX as int) < -(i128::MIN as int));
                            }
                            decrement_adj(&mut self.counts, &pvalue);
                        },
                        None => {},
                    }
                },
                None => {},
            }
        }
        self.store.delete(name);
        proof {
            let ghost m1 = self.store@;
            assert(m1 == m0.insert(name@, None));
            // the chain above is untouched, so the stack is the old stack
            // with its last layer rewritten
            assert(self.stack() == op_delete(s0, name@)) by {
                assert(self.stack() =~= s0.update(s0.len() - 1, m1));
            }
            crate::model::lemma_stack_size_update_last(s0, m1);
            vstd::set::axiom_set_insert_len(m0.dom(), name@);
            // the adjustments now record the shadowed values of the wider
            // local domain
            assert forall|v: Seq<char>| assoc_val(self.counts@, v, 0i128) as int == -(
            self.shadowed(v) as int) by {
                match self.parent {
                    None => {},
                    Some(p) => {
                        let pf = flatten(p.stack());
                        let inter0 = m0.dom().intersect(keys_with(pf, v));
                        let inter1 = m1.dom().intersect(keys_with(pf, v));
                        if in_local {
                            assert(inter1 =~= inter0);
                        } else if live_value(pf, name@) is Some {
                            let pv = live_value(pf, name@).unwrap();
                            if v == pv {
                                assert(inter1 =~= inter0.insert(name@));
                                vstd::set::axiom_set_insert_len(inter0, name@);
                            } else {
                                assert(inter1 =~= inter0);
                            }
                        } else {
                            assert(!keys_with(pf, v).contains(name@));
                            assert(inter1 =~= inter0);
                        }
                    },
                }
            }
        }
    }

    /// Save the value using the given key in this layer, first retiring
    /// whatever the key held or shadowed here.
    pub fn set(&mut self, name: &str, value: &str)
        requires
            old(self).wf(),
            stack_size(old(self).stack()) < usize::MAX,
        ensures
            final(self).wf(),
            final(self).stack() == op_set(old(self).stack(), name@, value@),
            stack_size(final(self).stack()) <= stack_size(old(self).stack()) + 1,
    {
        proof {
            self.lemma_stack_len();
        }
        let ghost s0 = self.stack();
        self.delete(name);
        let ghost s1 = self.stack();
        let ghost m1 = self.store@;
        proof {
            self.lemma_stack_len();
        }
        self.store.set(name, value);
        proof {
            let m2 = self.store@;
            assert(m2 == m1.insert(name@, Some(value@)));
            assert(self.stack() =~= s1.update(s1.len() - 1, m2));
            assert(self.stack() == op_set(s0, name@, value@)) by {
                assert(s1.update(s1.len() - 1, m2) =~~= s0.update(
                    s0.len() - 1,
                    s0.last().insert(name@, Some(value@)),
                ));
            }
            crate::model::lemma_stack_size_update_last(s1, m2);
            assert(m1 == s1.last());
            assert(m2.dom() =~= m1.dom());
            assert(stack_size(self.stack()) == stack_size(s1));
            // the local domain is unchanged, so every shadow adjustment still
            // holds
            assert forall|v: Seq<char>| assoc_val(self.counts@, v, 0i128) as int == -(
            self.shadowed(v) as int) by {
                match self.parent {
                    None => {},
                    Some(p) => {
                        let pf = flatten(p.stack());
                        assert(m2.dom().intersect(keys_with(pf, v)) =~= m1.dom().intersect(
                            keys_with(pf, v),
                        ));
                    },
                }
            }
        }
    }

    /// The total number of keys held across the layers of this chain. The
    /// chain accepts a `set` or a `delete` as long as this leaves room for
    /// one more key.
    pub fn size(&self) -> (r: usize)
        requires
            self.wf(),
        ensures
            r == stack_size(self.stack()),
        decreases *self,
    {
        let local = self.store.len();
        match &self.parent {
            Some(p) => {
                let above = p.size();
                proof {
                    crate::model::lemma_stack_size_push(p.stack(), self.store@);
                }
                above + local
            },
            None => {
                proof {
                    crate::model::lemma_stack_size_singleton(self.store@);
                }
                local
            },
        }
    }

    /// Returns the number of keys visible from this layer that hold the given
    /// value.
    pub fn count(&self, value: &str) -> (r: usize)
        requires
            self.wf(),
        ensures
            r == stack_count(self.stack(), value@),
        decreases *self,
    {
        let local = self.store.count(value);
        let owned = value.to_owned();
        let adjustment: i128 = match find_key(&self.counts, &owned) {
            Some(i) => {
                proof {
                    lemma_assoc_index(self.counts@, value@, 0i128, i as int);
                }
                self.counts[i].1
            },
            None => {
                proof {
                    lemma_assoc_absent(self.counts@, value@, 0i128);
                }
                0
            },
        };
        let parent_count: usize = match &self.parent {
            Some(p) => p.count(value),
            None => 0,
        };
        proof {
            self.lemma_stack_finite();
            match &self.parent {
                None => {
                    lemma_flatten_singleton(self.store@);
                    assert(self.shadowed(value@) == 0);
                },
                Some(p) => {
                    p.lemma_stack_finite();
                    lemma_flatten_push(p.stack(), self.store@);
                    lemma_occurrences_union(flatten(p.stack()), self.store@, value@);
                    crate::model::lemma_stack_size_push(p.stack(), self.store@);
                },
            }
            lemma_occurrences_bound(flatten(self.stack()), value@);
        }
        let total: i128 = local as i128 + parent_count as i128 + adjustment;
        proof {
            assert(total == stack_count(self.stack(), value@));
        }
        if total < 0 {
            0
        } else {
            total as usize
        }
    }
}

/// An in-memory key/value store that supports nested transactions.
pub struct Database {
    transaction: Transaction,
}

impl Database {
    /// The stack of layer maps: the base layer first, the innermost open
    /// transaction last.
    pub closed spec fn stack(self) -> Seq<LayerMap> {
        self.transaction.stack()
    }

    /// The database's representation is sound.
    pub closed spec fn wf(self) -> bool {
        self.transaction.wf()
    }

    /// Construct a new database with a single empty base layer.
    pub fn new() -> (r: Self)
        ensures
            r.wf(),
            r.stack() == seq![Map::<Seq<char>, Option<Seq<char>>>::empty()],
            stack_size(r.stack()) == 0,
    {
        Database { transaction: Transaction::new() }
    }

    /// Retrieve the value for the given key, if any.
    pub fn get(&self, name: &str) -> (r: Option<String>)
        requires
            self.wf(),
        ensures
            r.deep_view() == stack_value(self.stack(), name@),
    {
        self.transaction.get(name)
    }

    /// Save the value using the given key.
    pub fn set(&mut self, name: &str, value: &str)
        requires
            old(self).wf(),
            stack_size(old(self).stack()) < usize::MAX,
        ensures
            final(self).wf(),
            final(self).stack() == op_set(old(self).stack(), name@, value@),
            stack_size(final(self).stack()) <= stack_size(old(self).stack()) + 1,
    {
        self.transaction.set(name, value)
    }

    /// Removes the value with the given key.
    pub fn delete(&mut self, name: &str)
        requires
            old(self).wf(),
            stack_size(old(self).stack()) < usize::MAX,
        ensures
            final(self).wf(),
            final(self).stack() == op_delete(old(self).stack(), name@),
            stack_size(final(self).stack()) <= stack_size(old(self).stack()) + 1,
    {
        self.transaction.delete(name)
    }

    /// Returns the number of occurrences of the given value.
    pub fn count(&self, value: &str) -> (r: usize)
        requires
            self.wf(),
        ensures
            r == stack_count(self.stack(), value@),
    {
        self.transaction.count(value)
    }

    /// The total number of keys held across all layers. The database accepts
    /// a `set` or a `delete` as long as this leaves room for one more key.
    pub fn size(&self) -> (r: usize)
        requires
            self.wf(),
        ensures
            r == stack_size(self.stack()),
    {
        self.transaction.size()
    }

    /// Start a new transaction.
    pub fn begin(&mut self)
        requires
            old(self).wf(),
        ensures
            final(self).wf(),
            final(self).stack() == op_begin(old(self).stack()),
            stack_size(final(self).stack()) == stack_size(old(self).stack()),
    {
        let mut taken = Transaction::new();
        core::mem::swap(&mut taken, &mut self.transaction);
        self.transaction = Transaction::new().parent(taken);
    }

    /// Commit all open transactions, folding each layer into its parent and
    /// finally purging the base layer's tombstones. Returns false if no
    /// transaction is open, leaving the database unchanged.
    pub fn commit(&mut self) -> (r: bool)
        requires
            old(self).wf(),
        ensures
            final(self).wf(),
            old(self).stack().len() == 1 ==> r == false && *final(self) == *old(self),
            old(self).stack().len() > 1 ==> r == true && final(self).stack() == op_commit(
                old(self).stack(),
            ),
            stack_size(final(self).stack()) <= stack_size(old(self).stack()),
    {
        let ghost s0 = self.transaction.stack();
        proof {
            self.transaction.lemma_stack_len();
            if self.transaction.parent is Some {
                let p = self.transaction.parent.unwrap();
                p.lemma_stack_len();
            }
        }
        if self.transaction.parent.is_none() {
            return false;
        }
        proof {
            self.transaction.lemma_stack_finite();
        }
        while self.transaction.parent.is_some()
            invariant
                self.transaction.wf(),
                flatten(self.transaction.stack()) == flatten(s0),
            decreases self.transaction.stack().len(),
        {
            proof {
                self.transaction.lemma_stack_len();
            }
            let ghost cur_stack = self.transaction.stack();
            let mut parent: Transaction = *self.transaction.parent.take().unwrap();
            let ghost child_vals = self.transaction.store.values@;
            let ghost child_map = self.transaction.store@;
            let ghost pstack0 = parent.stack();
            let ghost psize0 = stack_size(pstack0);
            let ghost plen0 = parent.stack().len();
            proof {
                lemma_flatten_push(pstack0, child_map);
                crate::model::lemma_stack_size_push(pstack0, child_map);
                assert(child_map.dom().len() == child_vals.len());
                assert(child_vals.take(0) =~= Seq::<(String, Option<String>)>::empty());
                assert(flatten(pstack0).union_prefer_right(entries_map(child_vals.take(0)))
                    =~= flatten(pstack0));
            }
            let n = self.transaction.store.values.len();
            let mut j: usize = 0;
            while j < n
                invariant
                    j <= n,
                    parent.wf(),
                    n == child_vals.len(),
                    self.transaction.store.values@ == child_vals,
                    keys_unique(child_vals),
                    psize0 + n <= usize::MAX,
                    parent.stack().len() == plen0,
                    stack_size(parent.stack()) <= psize0 + j,
                    flatten(parent.stack()) == flatten(pstack0).union_prefer_right(
                        entries_map(child_vals.take(j as int)),
                    ),
                decreases n - j,
            {
                let ghost prefix = child_vals.take(j as int);
                let ghost prefix2 = child_vals.take(j as int + 1);
                let ghost pstack_before = parent.stack();
                proof {
                    assert(prefix2.drop_last() =~= prefix);
                    assert(prefix2.last() == child_vals[j as int]);
                    parent.lemma_stack_len();
                }
                match &self.transaction.store.values[j].1 {
                    Some(v) => {
                        parent.set(self.transaction.store.values[j].0.as_str(), v.as_str());
                        proof {
                            lemma_flatten_write_top(
                                pstack_before,
                                child_vals[j as int].0@,
                                Some(v@),
                            );
                            vstd::map_lib::lemma_union_insert_right(
                                flatten(pstack0),
                                entries_map(prefix),
                                child_vals[j as int].0@,
                                Some(v@),
                            );
                            crate::model::lemma_stack_size_update_last(
                                pstack_before,
                                pstack_before.last().insert(child_vals[j as int].0@, Some(v@)),
                            );
                            vstd::set::axiom_set_insert_len(
                                pstack_before.last().dom(),
                                child_vals[j as int].0@,
                            );
                        }
                    },
                    None => {
                        parent.delete(self.transaction.store.values[j].0.as_str());
                        proof {
                            lemma_flatten_write_top(pstack_before, child_vals[j as int].0@, None);
                            vstd::map_lib::lemma_union_insert_right(
                                flatten(pstack0),
                                entries_map(prefix),
                                child_vals[j as int].0@,
                                None,
                            );
                            crate::model::lemma_stack_size_update_last(
                                pstack_before,
                                pstack_before.last().insert(child_vals[j as int].0@, None),
                            );
                            vstd::set::axiom_set_insert_len(
                                pstack_before.last().dom(),
                                child_vals[j as int].0@,
                            );
                        }
                    },
                }
                j += 1;
            }
            proof {
                assert(child_vals.take(n as int) =~= child_vals);
            }
            self.transaction = parent;
        }
        proof {
            self.transaction.lemma_stack_len();
            lemma_flatten_singleton(self.transaction.store@);
            assert(self.transaction.store@ == flatten(s0));
        }
        let ghost base0 = self.transaction.store@;
        proof {
            crate::model::lemma_stack_size_singleton(base0);
        }
        self.transaction.store.compact();
        proof {
            lemma_compacted_finite(base0);
            lemma_flatten_size(s0);
            let m = self.transaction.store@;
            assert(self.transaction.stack() == seq![m]);
            crate::model::lemma_stack_size_singleton(m);
            assert(stack_size(self.transaction.stack()) == m.dom().len());
            assert forall|v: Seq<char>| assoc_val(self.transaction.counts@, v, 0i128) as int == -(
            self.transaction.shadowed(v) as int) by {}
        }
        true
    }

    /// Rollback the current transaction, discarding everything it wrote.
    /// Returns false if no transaction is open, leaving the database
    /// unchanged.
    pub fn rollback(&mut self) -> (r: bool)
        requires
            old(self).wf(),
        ensures
            final(self).wf(),
            old(self).stack().len() == 1 ==> r == false && *final(self) == *old(self),
            old(self).stack().len() > 1 ==> r == true && final(self).stack() == op_rollback(
                old(self).stack(),
            ),
            stack_size(final(self).stack()) <= stack_size(old(self).stack()),
    {
        let ghost s0 = self.transaction.stack();
        proof {
            self.transaction.lemma_stack_len();
            if self.transaction.parent is Some {
                let p = self.transaction.parent.unwrap();
                p.lemma_stack_len();
            }
        }
        match self.transaction.parent.take() {
            Some(parent) => {
                proof {
                    assert(s0 == parent.stack().push(old(self).transaction.store@));
                    assert(s0.drop_last() =~= parent.stack());
                }
                self.transaction = *parent;
                true
            },
            None => {
                proof {
                    assert(self.transaction == old(self).transaction);
                }
                false
            },
        }
    }
}

} // verus!
