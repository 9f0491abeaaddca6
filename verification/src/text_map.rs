//! A map from texts to values, whose entries keep the order in which they were first inserted.

use vstd::prelude::*;

use crate::fx::distinct_keys;
use crate::fx::has_key;
use crate::fx::key_is_at;
use crate::fx::new_text_index;
use crate::fx::text_entries;
use crate::fx::text_index_insert;
use crate::fx::text_index_key;
use crate::fx::text_index_position;
use crate::fx::FxIndexMap;
use crate::id_map::distinct_ids;
use crate::id_map::has_id;
use crate::id_map::id_at;
use crate::id_map::id_place;
use crate::id_map::lemma_place_is_unique;
use crate::id_map::with_id;

verus! {

/// A map from texts to values.
pub struct TextMap<V> {
    /// The keys, in order. What they map to does not matter.
    index: FxIndexMap<String, usize>,
    /// The values, in the same order.
    values: Vec<V>,
}

impl<V> View for TextMap<V> {
    type V = Seq<(Seq<char>, V)>;

    closed spec fn view(&self) -> Seq<(Seq<char>, V)> {
        Seq::new(self.values@.len(), |i: int| (text_entries(self.index)[i].0, self.values@[i]))
    }
}

impl<V> TextMap<V> {
    pub closed spec fn wf(&self) -> bool {
        &&& text_entries(self.index).len() == self.values@.len()
        &&& distinct_keys(text_entries(self.index))
    }

    /// The keys of a map are distinct.
    pub proof fn lemma_distinct(&self)
        requires
            self.wf(),
        ensures
            distinct_ids(self@),
    {
        assert forall|i: int, j: int| 0 <= i < j < self@.len() implies (#[trigger] self@[i]).0 != (
        #[trigger] self@[j]).0 by {
            assert(text_entries(self.index)[i].0 != text_entries(self.index)[j].0);
        }
    }

    proof fn lemma_keys(&self, key: Seq<char>)
        requires
            self.wf(),
        ensures
            has_key(text_entries(self.index), key) == has_id(self@, key),
            forall|i: int| #[trigger]
                key_is_at(text_entries(self.index), key, i) == id_at(self@, key, i),
    {
        assert forall|i: int| #[trigger]
            key_is_at(text_entries(self.index), key, i) == id_at(self@, key, i) by {}
        if has_key(text_entries(self.index), key) {
            let i = choose|i: int| key_is_at(text_entries(self.index), key, i);
            assert(id_at(self@, key, i));
        }
        if has_id(self@, key) {
            let i = choose|i: int| id_at(self@, key, i);
            assert(key_is_at(text_entries(self.index), key, i));
        }
    }

    pub fn new() -> (m: TextMap<V>)
        ensures
            m.wf(),
            m@ == Seq::<(Seq<char>, V)>::empty(),
    {
        let m = TextMap { index: new_text_index(), values: Vec::new() };
        assert(m@ =~= Seq::<(Seq<char>, V)>::empty());
        m
    }

    pub fn len(&self) -> (n: usize)
        requires
            self.wf(),
        ensures
            n == self@.len(),
    {
        self.values.len()
    }

    /// The key and the value at place `i`.
    pub fn at(&self, i: usize) -> (entry: (&str, &V))
        requires
            self.wf(),
            i < self@.len(),
        ensures
            entry.0@ == self@[i as int].0,
            *entry.1 == self@[i as int].1,
    {
        match text_index_key(&self.index, i) {
            Some(key) => (key.as_str(), &self.values[i]),
            None => {
                assert(false);
                ("", &self.values[i])
            },
        }
    }

    /// The place of `key`, if it is there.
    pub fn position(&self, key: &str) -> (at: Option<usize>)
        requires
            self.wf(),
        ensures
            at is Some == has_id(self@, key@),
            at matches Some(i) ==> id_at(self@, key@, i as int) && i == id_place(self@, key@),
    {
        proof {
            self.lemma_keys(key@);
            self.lemma_distinct();
        }
        let at = text_index_position(&self.index, key);
        proof {
            if at is Some {
                assert(key_is_at(text_entries(self.index), key@, at->0 as int));
                lemma_place_is_unique(self@, key@, at->0 as int);
            }
        }
        at
    }

    /// Maps `key` to `value`.
    pub fn insert(&mut self, key: String, value: V)
        requires
            old(self).wf(),
        ensures
            final(self).wf(),
            final(self)@ == with_id(old(self)@, key@, value),
    {
        let ghost before = *self;
        let ghost k0 = key@;
        proof {
            self.lemma_keys(key@);
            self.lemma_distinct();
        }
        let at = self.position(key.as_str());
        let _ = text_index_insert(&mut self.index, key, 0);
        match at {
            Some(i) => {
                proof {
                    let k = choose|k: int|
                        #[trigger] key_is_at(text_entries(before.index), k0, k) && text_entries(
                            self.index,
                        ) == text_entries(before.index).update(k, (k0, 0));
                    lemma_place_is_unique(before@, k0, k);
                    lemma_place_is_unique(before@, k0, i as int);
                }
                self.values.set(i, value);
            },
            None => {
                self.values.push(value);
            },
        }
        assert(self@ =~= with_id(before@, k0, value));
    }

    /// The value at place `i`, to be changed.
    pub fn value_mut(&mut self, i: usize) -> (value: &mut V)
        requires
            old(self).wf(),
            i < old(self)@.len(),
        ensures
            *value == old(self)@[i as int].1,
            final(self).wf(),
            final(self)@ == old(self)@.update(i as int, (old(self)@[i as int].0, *final(value))),
    {
        &mut self.values[i]
    }
}

} // verus!
