//! Maps from numbers to values that keep an order of their own: the order of insertion, in which a
//! removed entry's place is taken by the last one.

use vstd::prelude::*;

use crate::fx::distinct_keys;
use crate::fx::entries;
use crate::fx::has_key;
use crate::fx::index_map_at;
use crate::fx::index_map_insert;
use crate::fx::index_map_position;
use crate::fx::index_map_swap_remove;
use crate::fx::key_is_at;
use crate::fx::new_index_map;
use crate::fx::FxIndexMap;

verus! {

/// A map from numbers to values.
pub struct IdMap<V> {
    /// The keys, in order. What they map to does not matter.
    index: FxIndexMap<u128, usize>,
    /// The values, in the same order.
    values: Vec<V>,
}

/// Entry `i` of `s` has key `key`.
pub open spec fn id_at<K, V>(s: Seq<(K, V)>, key: K, i: int) -> bool {
    0 <= i < s.len() && s[i].0 == key
}

pub open spec fn has_id<K, V>(s: Seq<(K, V)>, key: K) -> bool {
    exists|i: int| id_at(s, key, i)
}

/// The place of `key` in `s`, if it is there.
pub open spec fn id_place<K, V>(s: Seq<(K, V)>, key: K) -> int {
    choose|i: int| id_at(s, key, i)
}

/// No key occurs twice.
pub open spec fn distinct_ids<K, V>(s: Seq<(K, V)>) -> bool {
    forall|i: int, j: int|
        0 <= i < j < s.len() ==> (#[trigger] s[i]).0 != (#[trigger] s[j]).0
}

/// `s` with `key` mapped to `value`: in place if the key is there, else at the end.
pub open spec fn with_id<K, V>(s: Seq<(K, V)>, key: K, value: V) -> Seq<(K, V)> {
    if has_id(s, key) {
        s.update(id_place(s, key), (key, value))
    } else {
        s.push((key, value))
    }
}

/// `s` without `key`: the last entry takes its place.
pub open spec fn without_id<K, V>(s: Seq<(K, V)>, key: K) -> Seq<(K, V)> {
    if has_id(s, key) {
        s.update(id_place(s, key), s.last()).drop_last()
    } else {
        s
    }
}

/// An entry that is put in is found, and takes nothing away: exactly its key is new, every entry
/// keeps its place, and a new one comes last.
pub proof fn law_an_entry_is_found<K, V>(s: Seq<(K, V)>, key: K, value: V, other: K)
    ensures
        has_id(with_id(s, key, value), key),
        has_id(with_id(s, key, value), other) <==> has_id(s, other) || other == key,
        distinct_ids(s) ==> distinct_ids(with_id(s, key, value)),
        distinct_ids(s) ==> with_id(s, key, value).contains((key, value)),
        forall|i: int|
            0 <= i < s.len() && (#[trigger] s[i]).0 != key ==> with_id(s, key, value)[i] == s[i],
        forall|i: int|
            0 <= i < s.len() ==> with_id(s, key, value)[i].0 == (#[trigger] s[i]).0,
        with_id(s, key, value).len() == s.len() || (!has_id(s, key) && with_id(
            s,
            key,
            value,
        ).len() == s.len() + 1 && with_id(s, key, value).last() == (key, value)),
{
    let after = with_id(s, key, value);
    let p = id_place(s, key);
    if has_id(s, key) {
        assert(id_at(s, key, p));
        assert(id_at(after, key, p));
        assert(after[p] == (key, value));
    } else {
        assert(id_at(after, key, s.len() as int));
        assert(after[s.len() as int] == (key, value));
        assert forall|i: int| 0 <= i < s.len() implies (#[trigger] s[i]).0 != key by {
            if s[i].0 == key {
                assert(id_at(s, key, i));
            }
        }
    }
    if has_id(s, other) {
        let i = id_place(s, other);
        assert(id_at(s, other, i));
        assert(id_at(after, other, i));
    }
    if has_id(after, other) && other != key {
        let i = id_place(after, other);
        assert(id_at(after, other, i));
        assert(id_at(s, other, i));
    }
}

/// What is taken out is gone, and nothing else is: the last entry takes its place, and the others
/// stay where they are.
pub proof fn law_an_entry_taken_is_gone<K, V>(s: Seq<(K, V)>, key: K, other: K)
    requires
        distinct_ids(s),
    ensures
        !has_id(without_id(s, key), key),
        other != key ==> has_id(without_id(s, key), other) == has_id(s, other),
        distinct_ids(without_id(s, key)),
        forall|i: int|
            0 <= i < s.len() - 1 && (#[trigger] s[i]).0 != key ==> without_id(s, key)[i] == s[i],
        forall|i: int|
            0 <= i < s.len() - 1 && (#[trigger] s[i]).0 == key ==> without_id(s, key)[i]
                == s.last(),
        without_id(s, key).len() == s.len() - (if has_id(s, key) {
            1int
        } else {
            0
        }),
{
    let after = without_id(s, key);
    let p = id_place(s, key);
    let n = s.len() - 1;
    if has_id(s, key) {
        assert(id_at(s, key, p));
        assert(s[n] == s.last());
        assert forall|i: int| 0 <= i < after.len() implies (#[trigger] after[i]) == (if i == p {
            s[n]
        } else {
            s[i]
        }) by {}
        assert forall|i: int, j: int| 0 <= i < j < after.len() implies (#[trigger] after[i]).0 != (
        #[trigger] after[j]).0 by {
            let a = if i == p {
                n
            } else {
                i
            };
            let b = if j == p {
                n
            } else {
                j
            };
            assert(after[i] == s[a] && after[j] == s[b]);
            if a < b {
                assert(s[a].0 != s[b].0);
            } else {
                assert(s[b].0 != s[a].0);
            }
        }
        if has_id(after, key) {
            let i = id_place(after, key);
            assert(id_at(after, key, i));
            let a = if i == p {
                n
            } else {
                i
            };
            assert(after[i] == s[a]);
            assert(id_at(s, key, a));
            lemma_place_is_unique(s, key, a);
        }
        assert forall|i: int| 0 <= i < s.len() - 1 && (#[trigger] s[i]).0 == key implies after[i]
            == s.last() by {
            assert(id_at(s, key, i));
            lemma_place_is_unique(s, key, i);
        }
        if other != key && has_id(s, other) {
            let i = id_place(s, other);
            assert(id_at(s, other, i));
            if i == n {
                assert(after[p] == s[n]);
                assert(id_at(after, other, p));
            } else {
                assert(id_at(after, other, i));
            }
        }
        if other != key && has_id(after, other) {
            let i = id_place(after, other);
            assert(id_at(after, other, i));
            let a = if i == p {
                n
            } else {
                i
            };
            assert(id_at(s, other, a));
        }
    } else {
        assert forall|i: int| 0 <= i < s.len() implies (#[trigger] s[i]).0 != key by {
            if s[i].0 == key {
                assert(id_at(s, key, i));
            }
        }
    }
}

impl<V> View for IdMap<V> {
    type V = Seq<(u128, V)>;

    closed spec fn view(&self) -> Seq<(u128, V)> {
        Seq::new(self.values@.len(), |i: int| (entries(self.index)[i].0, self.values@[i]))
    }
}

pub proof fn lemma_place_is_unique<K, V>(s: Seq<(K, V)>, key: K, i: int)
    requires
        distinct_ids(s),
        id_at(s, key, i),
    ensures
        has_id(s, key),
        id_place(s, key) == i,
{
    let j = id_place(s, key);
    assert(id_at(s, key, j));
    if i < j {
        assert(s[i].0 != s[j].0);
    } else if j < i {
        assert(s[j].0 != s[i].0);
    }
}

impl<V> IdMap<V> {
    pub closed spec fn wf(&self) -> bool {
        &&& entries(self.index).len() == self.values@.len()
        &&& distinct_keys(entries(self.index))
    }

    /// The keys of a map are distinct.
    pub proof fn lemma_distinct(&self)
        requires
            self.wf(),
        ensures
            distinct_ids(self@),
    {
        assert forall|i: int, j: int| 0 <= i < j < self@.len() implies (#[trigger] self@[i]).0 != (
        #[trigger] self@[j]).0 by {
            assert(entries(self.index)[i].0 != entries(self.index)[j].0);
        }
    }

    proof fn lemma_keys(&self, key: u128)
        requires
            self.wf(),
        ensures
            has_key(entries(self.index), key) == has_id(self@, key),
            forall|i: int| #[trigger] key_is_at(entries(self.index), key, i) == id_at(self@, key, i),
    {
        assert forall|i: int| #[trigger]
            key_is_at(entries(self.index), key, i) == id_at(self@, key, i) by {}
        if has_key(entries(self.index), key) {
            let i = choose|i: int| key_is_at(entries(self.index), key, i);
            assert(id_at(self@, key, i));
        }
        if has_id(self@, key) {
            let i = choose|i: int| id_at(self@, key, i);
            assert(key_is_at(entries(self.index), key, i));
        }
    }

    pub fn new() -> (m: IdMap<V>)
        ensures
            m.wf(),
            m@ == Seq::<(u128, V)>::empty(),
    {
        let m = IdMap { index: new_index_map(), values: Vec::new() };
        assert(m@ =~= Seq::<(u128, V)>::empty());
        m
    }

    pub fn len(&self) -> (n: usize)
        requires
            self.wf(),
        ensures
            n == self@.len(),
    {
        self.values.len()
    }

    /// The key and the value at place `i`.
    pub fn at(&self, i: usize) -> (entry: (u128, &V))
        requires
            self.wf(),
            i < self@.len(),
        ensures
            entry.0 == self@[i as int].0,
            *entry.1 == self@[i as int].1,
    {
        match index_map_at(&self.index, i) {
            Some(entry) => (entry.0, &self.values[i]),
            None => {
                assert(false);
                (0, &self.values[i])
            },
        }
    }

    /// The place of `key`, if it is there.
    pub fn position(&self, key: u128) -> (at: Option<usize>)
        requires
            self.wf(),
        ensures
            at is Some == has_id(self@, key),
            at matches Some(i) ==> id_at(self@, key, i as int) && i == id_place(self@, key),
    {
        proof {
            self.lemma_keys(key);
            self.lemma_distinct();
        }
        let at = index_map_position(&self.index, key);
        proof {
            if at is Some {
                assert(key_is_at(entries(self.index), key, at->0 as int));
                lemma_place_is_unique(self@, key, at->0 as int);
            }
        }
        at
    }

    pub fn contains(&self, key: u128) -> (yes: bool)
        requires
            self.wf(),
        ensures
            yes == has_id(self@, key),
    {
        match self.position(key) {
            Some(_) => true,
            None => false,
        }
    }

    /// Maps `key` to `value`.
    pub fn insert(&mut self, key: u128, value: V)
        requires
            old(self).wf(),
        ensures
            final(self).wf(),
            final(self)@ == with_id(old(self)@, key, value),
    {
        let ghost before = *self;
        proof {
            self.lemma_keys(key);
            self.lemma_distinct();
        }
        let at = self.position(key);
        let _ = index_map_insert(&mut self.index, key, 0);
        match at {
            Some(i) => {
                proof {
                    let k = choose|k: int|
                        #[trigger] key_is_at(entries(before.index), key, k) && entries(self.index)
                            == entries(before.index).update(k, (key, 0));
                    lemma_place_is_unique(before@, key, k);
                    lemma_place_is_unique(before@, key, i as int);
                }
                self.values.set(i, value);
            },
            None => {
                self.values.push(value);
            },
        }
        assert(self@ =~= with_id(before@, key, value));
    }

    /// The value at place `i`, to be changed.
    pub fn value_mut(&mut self, i: usize) -> (value: &mut V)
        requires
            old(self).wf(),
            i < old(self)@.len(),
        ensures
            *value == old(self)@[i as int].1,
            final(self).wf(),
            final(self)@ == old(self)@.update(i as int, (old(self)@[i as int].0, *final(value))),
    {
        &mut self.values[i]
    }

    /// The values, in order.
    pub fn into_values(self) -> (values: Vec<V>)
        requires
            self.wf(),
        ensures
            values@ == self@.map_values(|e: (u128, V)| e.1),
    {
        assert(self.values@ =~= self@.map_values(|e: (u128, V)| e.1));
        self.values
    }

    /// Takes the value of `key` out, if it is there.
    pub fn swap_remove(&mut self, key: u128) -> (removed: Option<V>)
        requires
            old(self).wf(),
        ensures
            final(self).wf(),
            final(self)@ == without_id(old(self)@, key),
            removed is Some == has_id(old(self)@, key),
            removed matches Some(v) ==> v == old(self)@[id_place(old(self)@, key)].1,
    {
        let ghost before = *self;
        proof {
            self.lemma_keys(key);
            self.lemma_distinct();
        }
        let at = self.position(key);
        match at {
            Some(i) => {
                let _ = index_map_swap_remove(&mut self.index, key);
                proof {
                    let k = choose|k: int|
                        #[trigger] key_is_at(entries(before.index), key, k) && entries(self.index)
                            == crate::fx::swap_removed(entries(before.index), k);
                    lemma_place_is_unique(before@, key, k);
                    assert(distinct_keys(entries(self.index))) by {
                        assert forall|a: int, b: int|
                            0 <= a < b < entries(self.index).len() implies (
                        #[trigger] entries(self.index)[a]).0 != (
                        #[trigger] entries(self.index)[b]).0 by {
                            let e = entries(before.index);
                            let x = if a == k { e.len() - 1 } else { a };
                            let y = if b == k { e.len() - 1 } else { b };
                            if x < y {
                                assert(e[x].0 != e[y].0);
                            } else {
                                assert(e[y].0 != e[x].0);
                            }
                        }
                    }
                }
                let value = self.values.swap_remove(i);
                assert(self@ =~= without_id(before@, key));
                Some(value)
            },
            None => None,
        }
    }
}

} // verus!
