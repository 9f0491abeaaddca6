//! A set of interned values: one key stands for all values of equal content.
//!
//! Each shard is an open-addressed table that only ever grows. A reader probes a table without a
//! lock and, on a miss, remembers where it stopped; the writer resumes there if the table is still
//! the current one. A slot is written once, so what the reader saw before the empty slot stays as
//! it was.

use vstd::prelude::*;

use crate::sharded::div_ceil;
use crate::sharded::hash_of;
use crate::sharded::make_hash;
use crate::sharded::rounded_up;
use crate::sharded::shard_at;
use crate::sharded::shard_count;
use crate::sharded::shard_of;
use crate::sharded::shards;

verus! {

/// What has an address: equal addresses are the same value.
pub trait IntoPointer {
    spec fn pointer(&self) -> u64;

    fn into_pointer(&self) -> (pointer: u64)
        ensures
            pointer == self.pointer(),
    ;
}

/// A key of an `InternSet`: an address that stands for a content, by its number.
pub trait InternKey: Copy + IntoPointer {
    spec fn content(&self) -> u128;

    fn borrow(&self) -> (content: u128)
        ensures
            content == self.content(),
    ;
}

/// An interned value: where it is, and its content, by number.
#[derive(Clone, Copy, Debug, PartialEq, Eq, Structural)]
pub struct Interned {
    pub address: u64,
    pub content: u128,
}

impl IntoPointer for Interned {
    open spec fn pointer(&self) -> u64 {
        self.address
    }

    fn into_pointer(&self) -> (pointer: u64) {
        self.address
    }
}

impl InternKey for Interned {
    open spec fn content(&self) -> u128 {
        self.content
    }

    fn borrow(&self) -> (content: u128) {
        self.content
    }
}

/// The largest first table of a shard.
pub const INTERN_FIRST_MAX_SLOTS: usize = 4096;

/// A taken slot: the key and the hash of its content.
#[derive(Clone, Copy)]
pub struct InternSlot<K> {
    pub hash: u64,
    pub key: K,
}

/// The place `d` steps after where a hash starts, in a table of `len` slots.
pub open spec fn step_from(hash: u64, d: int, len: int) -> int {
    (hash as int + d) % len
}

/// Slot `i` holds a key of this content.
pub open spec fn holds_at<K: InternKey>(
    slots: Seq<Option<InternSlot<K>>>,
    content: u128,
    i: int,
) -> bool {
    0 <= i < slots.len() && slots[i] is Some && slots[i]->0.key.content() == content
}

/// The table holds a key of this content.
pub open spec fn holds<K: InternKey>(slots: Seq<Option<InternSlot<K>>>, content: u128) -> bool {
    exists|i: int| holds_at(slots, content, i)
}

/// The key of this content.
pub open spec fn key_of<K: InternKey>(slots: Seq<Option<InternSlot<K>>>, content: u128) -> K {
    slots[choose|i: int| holds_at(slots, content, i)]->0.key
}

/// The `d` slots from where the content's hash starts are taken, by other contents.
pub open spec fn missed<K: InternKey>(
    slots: Seq<Option<InternSlot<K>>>,
    content: u128,
    d: int,
) -> bool {
    &&& 0 <= d
    &&& forall|e: int|
        0 <= e < d ==> {
            let s = #[trigger] slots[step_from(hash_of(content), e, slots.len() as int)];
            s is Some && s->0.key.content() != content
        }
}

/// Slot `i` is where probing for its content gets to.
pub open spec fn is_reached<K: InternKey>(slots: Seq<Option<InternSlot<K>>>, i: int) -> bool {
    exists|d: int| #[trigger] is_reached_in(slots, i, d)
}

/// As `is_reached`, in `d` steps.
pub open spec fn is_reached_in<K: InternKey>(
    slots: Seq<Option<InternSlot<K>>>,
    i: int,
    d: int,
) -> bool {
    let content = slots[i]->0.key.content();
    &&& 0 <= d < slots.len()
    &&& step_from(hash_of(content), d, slots.len() as int) == i
    &&& missed(slots, content, d)
}

/// The slots are those of a table: hashes are right, every taken slot is reached, no content occurs
/// twice.
pub open spec fn slots_wf<K: InternKey>(slots: Seq<Option<InternSlot<K>>>) -> bool {
    &&& forall|i: int|
        0 <= i < slots.len() && (#[trigger] slots[i]) is Some ==> slots[i]->0.hash == hash_of(
            slots[i]->0.key.content(),
        ) && is_reached(slots, i)
    &&& forall|i: int, j: int|
        0 <= i < j < slots.len() && (#[trigger] slots[i]) is Some && (#[trigger] slots[j]) is Some
            ==> slots[i]->0.key.content() != slots[j]->0.key.content()
}

/// The keys in the slots, in order.
pub open spec fn taken<K>(slots: Seq<Option<InternSlot<K>>>) -> Seq<K>
    decreases slots.len(),
{
    if slots.len() == 0 {
        Seq::empty()
    } else {
        let rest = taken(slots.drop_last());
        match slots.last() {
            Some(slot) => rest.push(slot.key),
            None => rest,
        }
    }
}

/// A table that is not full has an empty slot.
proof fn lemma_empty_slot<K>(slots: Seq<Option<InternSlot<K>>>) -> (i: int)
    requires
        taken(slots).len() < slots.len(),
    ensures
        0 <= i < slots.len(),
        slots[i] is None,
    decreases slots.len(),
{
    if slots.last() is None {
        slots.len() - 1
    } else {
        lemma_empty_slot(slots.drop_last())
    }
}

proof fn lemma_taken_after_set<K>(
    slots: Seq<Option<InternSlot<K>>>,
    i: int,
    slot: InternSlot<K>,
)
    requires
        0 <= i < slots.len(),
        slots[i] is None,
    ensures
        taken(slots.update(i, Some(slot))).len() == taken(slots).len() + 1,
    decreases slots.len(),
{
    let after = slots.update(i, Some(slot));
    if i == slots.len() - 1 {
        assert(after.drop_last() =~= slots.drop_last());
    } else {
        lemma_taken_after_set(slots.drop_last(), i, slot);
        assert(after.drop_last() =~= slots.drop_last().update(i, Some(slot)));
        assert(after.last() == slots.last());
    }
}

proof fn lemma_taken_of_empty<K>(slots: Seq<Option<InternSlot<K>>>)
    requires
        forall|i: int| 0 <= i < slots.len() ==> (#[trigger] slots[i]) is None,
    ensures
        taken(slots).len() == 0,
    decreases slots.len(),
{
    if slots.len() > 0 {
        let rest = slots.drop_last();
        assert forall|i: int| 0 <= i < rest.len() implies (#[trigger] rest[i]) is None by {
            assert(slots[i] is None);
        }
        lemma_taken_of_empty(rest);
        assert(slots[slots.len() - 1] is None);
    }
}

/// Every slot lies within a table's length of where a hash starts.
proof fn lemma_steps_cover(hash: u64, i: int, len: int) -> (d: int)
    requires
        0 <= i < len,
    ensures
        0 <= d < len,
        step_from(hash, d, len) == i,
{
    let home = hash as int % len;
    let d = if i >= home {
        i - home
    } else {
        i - home + len
    };
    let q = hash as int / len;
    vstd::arithmetic::div_mod::lemma_fundamental_div_mod(hash as int, len);
    assert(q * len == len * q) by (nonlinear_arith);
    if i >= home {
        vstd::arithmetic::div_mod::lemma_fundamental_div_mod_converse(
            hash as int + d,
            len,
            q,
            i,
        );
    } else {
        assert((q + 1) * len == q * len + len) by (nonlinear_arith);
        vstd::arithmetic::div_mod::lemma_fundamental_div_mod_converse(
            hash as int + d,
            len,
            q + 1,
            i,
        );
    }
    d
}

/// A step further is a slot further, round the table.
proof fn lemma_next_step(hash: u64, d: int, len: int)
    requires
        0 <= d,
        0 < len,
    ensures
        step_from(hash, d + 1, len) == (if step_from(hash, d, len) + 1 == len {
            0
        } else {
            step_from(hash, d, len) + 1
        }),
{
    let x = hash as int + d;
    let r = x % len;
    let q = x / len;
    vstd::arithmetic::div_mod::lemma_fundamental_div_mod(x, len);
    assert(q * len == len * q) by (nonlinear_arith);
    if r + 1 == len {
        assert((q + 1) * len == q * len + len) by (nonlinear_arith);
        vstd::arithmetic::div_mod::lemma_fundamental_div_mod_converse(x + 1, len, q + 1, 0);
    } else {
        vstd::arithmetic::div_mod::lemma_fundamental_div_mod_converse(x + 1, len, q, r + 1);
    }
}

/// Once an empty slot ends the sequence, the content is not in the table.
proof fn lemma_not_held<K: InternKey>(slots: Seq<Option<InternSlot<K>>>, content: u128, d: int)
    requires
        slots_wf(slots),
        missed(slots, content, d),
        slots.len() > 0,
        slots[step_from(hash_of(content), d, slots.len() as int)] is None,
    ensures
        !holds(slots, content),
{
    if holds(slots, content) {
        let len = slots.len() as int;
        let i = choose|i: int| holds_at(slots, content, i);
        assert(slots[i] is Some);
        assert(is_reached(slots, i));
        let f = choose|f: int| is_reached_in(slots, i, f);
        assert(missed(slots, slots[i]->0.key.content(), f));
        if f < d {
            assert(slots[step_from(hash_of(content), f, len)]->0.key.content() != content);
        } else if f > d {
            assert(slots[step_from(hash_of(content), d, len)] is Some);
        }
    }
}

/// The content is in one slot only.
proof fn lemma_key_at<K: InternKey>(slots: Seq<Option<InternSlot<K>>>, i: int)
    requires
        slots_wf(slots),
        0 <= i < slots.len(),
        slots[i] is Some,
    ensures
        holds(slots, slots[i]->0.key.content()),
        key_of(slots, slots[i]->0.key.content()) == slots[i]->0.key,
{
    let content = slots[i]->0.key.content();
    assert(holds_at(slots, content, i));
    let j = choose|j: int| holds_at(slots, content, j);
    assert(slots[i] is Some && slots[j] is Some);
}

/// A key put into the slot that ends its probe sequence leaves a table a table.
proof fn lemma_put<K: InternKey>(
    before: Seq<Option<InternSlot<K>>>,
    at: int,
    d: int,
    slot: InternSlot<K>,
)
    requires
        slots_wf(before),
        0 <= at < before.len(),
        before[at] is None,
        slot.hash == hash_of(slot.key.content()),
        0 <= d < before.len(),
        step_from(slot.hash, d, before.len() as int) == at,
        missed(before, slot.key.content(), d),
    ensures
        ({
            let after = before.update(at, Some(slot));
            &&& slots_wf(after)
            &&& taken(after).len() == taken(before).len() + 1
            &&& forall|content: u128| #[trigger]
                holds(after, content) == (holds(before, content) || content == slot.key.content())
            &&& forall|content: u128|
                holds(before, content) ==> #[trigger] key_of(after, content) == key_of(
                    before,
                    content,
                )
            &&& key_of(after, slot.key.content()) == slot.key
        }),
{
    let after = before.update(at, Some(slot));
    let own = slot.key.content();
    lemma_taken_after_set(before, at, slot);
    lemma_not_held(before, own, d);
    assert forall|content: u128, f: int| missed(before, content, f) && content != own implies missed(
        after,
        content,
        f,
    ) by {
        assert forall|e: int| 0 <= e < f implies {
            let s = #[trigger] after[step_from(hash_of(content), e, after.len() as int)];
            s is Some && s->0.key.content() != content
        } by {
            let t = before[step_from(hash_of(content), e, before.len() as int)];
            assert(t is Some && t->0.key.content() != content);
        }
    }
    assert(missed(after, own, d)) by {
        assert forall|e: int| 0 <= e < d implies {
            let s = #[trigger] after[step_from(hash_of(own), e, after.len() as int)];
            s is Some && s->0.key.content() != own
        } by {
            let t = before[step_from(hash_of(own), e, before.len() as int)];
            assert(t is Some && t->0.key.content() != own);
        }
    }
    assert forall|i: int|
        0 <= i < after.len() && (#[trigger] after[i]) is Some implies after[i]->0.hash == hash_of(
        after[i]->0.key.content(),
    ) && is_reached(after, i) by {
        if i == at {
            assert(is_reached_in(after, i, d));
        } else {
            assert(before[i] is Some);
            assert(is_reached(before, i));
            let f = choose|f: int| is_reached_in(before, i, f);
            assert(holds_at(before, before[i]->0.key.content(), i));
            assert(holds(before, before[i]->0.key.content()));
            assert(is_reached_in(after, i, f));
        }
    }
    assert forall|i: int, j: int|
        0 <= i < j < after.len() && (#[trigger] after[i]) is Some && (#[trigger] after[j])
            is Some implies after[i]->0.key.content() != after[j]->0.key.content() by {
        if i == at {
            if after[j]->0.key.content() == own {
                assert(holds_at(before, own, j));
            }
        } else if j == at {
            if after[i]->0.key.content() == own {
                assert(holds_at(before, own, i));
            }
        } else {
            assert(before[i] is Some && before[j] is Some);
        }
    }
    assert forall|content: u128| #[trigger]
        holds(after, content) == (holds(before, content) || content == own) by {
        if holds(before, content) {
            let i = choose|i: int| holds_at(before, content, i);
            assert(holds_at(after, content, i));
        }
        if content == own {
            assert(holds_at(after, content, at));
        }
        if holds(after, content) {
            let i = choose|i: int| holds_at(after, content, i);
            if i != at {
                assert(holds_at(before, content, i));
            }
        }
    }
    assert forall|content: u128| holds(before, content) implies #[trigger] key_of(after, content)
        == key_of(before, content) by {
        let i = choose|i: int| holds_at(before, content, i);
        assert(after[i] is Some);
        lemma_key_at(before, i);
        lemma_key_at(after, i);
    }
    assert(after[at] is Some);
    lemma_key_at(after, at);
}

/// Where a probe ends: at the key, or at an empty slot.
pub enum Probe<K> {
    Found(K),
    Vacant(usize),
}

/// One open-addressed table, or none yet.
pub struct InternTable<K> {
    slots: Vec<Option<InternSlot<K>>>,
    count: usize,
    generation: usize,
}

impl<K: InternKey> InternTable<K> {
    pub closed spec fn slots(&self) -> Seq<Option<InternSlot<K>>> {
        self.slots@
    }

    /// How many tables the shard has had.
    pub closed spec fn generation(&self) -> usize {
        self.generation
    }

    /// How many keys there are.
    pub closed spec fn count(&self) -> nat {
        self.count as nat
    }

    /// The table is one, is at most half full, and is no larger than its keys call for.
    pub closed spec fn wf(&self, first_len: usize) -> bool {
        &&& slots_wf(self.slots@)
        &&& self.count == taken(self.slots@).len()
        &&& 2 * self.count <= self.slots@.len()
        &&& self.slots@.len() <= first_len || self.slots@.len() <= 4 * self.count
        &&& self.slots@.len() == 0 || self.slots@.len() >= 2
        &&& self.generation <= self.slots@.len()
    }

    fn none() -> (table: InternTable<K>)
        ensures
            forall|first_len: usize| #[trigger] table.wf(first_len),
            table.slots().len() == 0,
            table.count() == 0,
    {
        InternTable { slots: Vec::new(), count: 0, generation: 0 }
    }

    /// Probes from `slot`, `d` steps from where the content's hash starts: the key of the content,
    /// or the empty slot that ends the sequence.
    fn probe(&self, hash: u64, slot: usize, content: u128, Ghost(d): Ghost<int>) -> (end: Probe<K>)
        requires
            slots_wf(self.slots()),
            taken(self.slots()).len() < self.slots().len(),
            hash == hash_of(content),
            slot < self.slots().len(),
            slot == step_from(hash, d, self.slots().len() as int),
            missed(self.slots(), content, d),
        ensures
            match end {
                Probe::Found(key) => holds(self.slots(), content) && key == key_of(
                    self.slots(),
                    content,
                ),
                Probe::Vacant(end) => !holds(self.slots(), content) && is_vacant(
                    self.slots(),
                    content,
                    end,
                ),
            },
    {
        let len = self.slots.len();
        let ghost slots = self.slots@;
        let mut at = slot;
        let ghost mut f: int = d;
        proof {
            if d >= len {
                let i = lemma_empty_slot(slots);
                let e = lemma_steps_cover(hash, i, len as int);
                assert(slots[step_from(hash_of(content), e, len as int)] is Some);
            }
        }
        loop
            invariant
                slots_wf(slots),
                slots == self.slots@,
                taken(slots).len() < slots.len(),
                len == slots.len(),
                hash == hash_of(content),
                0 <= f < len,
                at == step_from(hash, f, len as int),
                at < len,
                missed(slots, content, f),
            decreases len - f,
        {
            match self.slots[at] {
                None => {
                    proof {
                        lemma_not_held(slots, content, f);
                        assert(vacant_in(slots, content, at, f));
                    }
                    return Probe::Vacant(at);
                },
                Some(entry) => {
                    proof {
                        assert(slots[at as int] is Some);
                    }
                    if entry.hash == hash && entry.key.borrow() == content {
                        proof {
                            lemma_key_at(slots, at as int);
                        }
                        return Probe::Found(entry.key);
                    }
                },
            }
            proof {
                lemma_next_step(hash, f, len as int);
                assert(missed(slots, content, f + 1));
                f = f + 1;
                if f == len {
                    let i = lemma_empty_slot(slots);
                    let e = lemma_steps_cover(hash, i, len as int);
                    assert(slots[step_from(hash_of(content), e, len as int)] is Some);
                }
            }
            at = if at + 1 == len {
                0
            } else {
                at + 1
            };
        }
    }
}

/// Slot `at` is empty and ends the probe sequence of the content.
pub open spec fn is_vacant<K: InternKey>(
    slots: Seq<Option<InternSlot<K>>>,
    content: u128,
    at: usize,
) -> bool {
    exists|d: int| #[trigger] vacant_in(slots, content, at, d)
}

/// As `is_vacant`, in `d` steps.
pub open spec fn vacant_in<K: InternKey>(
    slots: Seq<Option<InternSlot<K>>>,
    content: u128,
    at: usize,
    d: int,
) -> bool {
    &&& 0 <= d < slots.len()
    &&& at == step_from(hash_of(content), d, slots.len() as int)
    &&& slots[at as int] is None
    &&& missed(slots, content, d)
}

/// Probing for the content may start at slot `at`: it is on the sequence, and the content is not
/// in the slots before it.
pub open spec fn may_resume<K: InternKey>(
    slots: Seq<Option<InternSlot<K>>>,
    content: u128,
    at: usize,
) -> bool {
    exists|d: int| #[trigger] resumes_in(slots, content, at, d)
}

/// As `may_resume`, in `d` steps.
pub open spec fn resumes_in<K: InternKey>(
    slots: Seq<Option<InternSlot<K>>>,
    content: u128,
    at: usize,
    d: int,
) -> bool {
    &&& 0 <= d < slots.len()
    &&& at == step_from(hash_of(content), d, slots.len() as int)
    &&& missed(slots, content, d)
}

/// The slots that were taken are as they were.
pub open spec fn extends<K>(
    before: Seq<Option<InternSlot<K>>>,
    after: Seq<Option<InternSlot<K>>>,
) -> bool {
    &&& after.len() == before.len()
    &&& forall|i: int|
        0 <= i < before.len() && (#[trigger] before[i]) is Some ==> after[i] == before[i]
}

/// Where a lookup without a lock has stopped, a later one may go on, as long as the table is the
/// same: slots are written once.
pub proof fn law_a_miss_stays_good<K: InternKey>(
    before: Seq<Option<InternSlot<K>>>,
    after: Seq<Option<InternSlot<K>>>,
    content: u128,
    at: usize,
)
    requires
        extends(before, after),
        may_resume(before, content, at),
    ensures
        may_resume(after, content, at),
{
    let d = choose|d: int| resumes_in(before, content, at, d);
    assert forall|e: int| 0 <= e < d implies {
        let s = #[trigger] after[step_from(hash_of(content), e, after.len() as int)];
        s is Some && s->0.key.content() != content
    } by {
        let len = before.len() as int;
        let i = step_from(hash_of(content), e, len);
        assert(0 <= i < len) by {
            vstd::arithmetic::div_mod::lemma_mod_bound(hash_of(content) as int + e, len);
        }
        assert(before[i] is Some);
    }
    assert(resumes_in(after, content, at, d));
}

/// Where a lookup stopped without finding its content: in which of the shard's tables, and at
/// which empty slot.
#[derive(Clone, Copy, Debug, PartialEq, Eq, Structural)]
pub struct InternMiss {
    pub generation: usize,
    pub slot: usize,
}

impl<K: InternKey> InternTable<K> {
    /// A lookup that missed there tells where to go on, if the table is still the same.
    pub open spec fn knows(&self, content: u128, miss: InternMiss) -> bool {
        &&& miss.generation <= self.generation()
        &&& self.slots().len() > 0 && miss.generation == self.generation() ==> may_resume(
            self.slots(),
            content,
            miss.slot,
        )
    }

    /// Fills the slot that ends the key's probe sequence. The key's content is not there yet.
    fn fill(&mut self, hash: u64, key: K)
        requires
            slots_wf(old(self).slots()),
            taken(old(self).slots()).len() + 1 < old(self).slots().len(),
            old(self).count() == taken(old(self).slots()).len(),
            hash == hash_of(key.content()),
            !holds(old(self).slots(), key.content()),
        ensures
            slots_wf(final(self).slots()),
            extends(old(self).slots(), final(self).slots()),
            final(self).count() == old(self).count() + 1,
            final(self).count() == taken(final(self).slots()).len(),
            final(self).generation() == old(self).generation(),
            forall|c: u128| #[trigger]
                holds(final(self).slots(), c) == (holds(old(self).slots(), c) || c
                    == key.content()),
            forall|c: u128|
                holds(old(self).slots(), c) ==> #[trigger] key_of(final(self).slots(), c)
                    == key_of(old(self).slots(), c),
            key_of(final(self).slots(), key.content()) == key,
    {
        let ghost before = self.slots@;
        let len = self.slots.len();
        let content = key.borrow();
        let home = (hash % (len as u64)) as usize;
        assert(missed(before, content, 0));
        match self.probe(hash, home, content, Ghost(0)) {
            Probe::Found(_) => {
                assert(false);
            },
            Probe::Vacant(at) => {
                let ghost d = choose|d: int| vacant_in(before, content, at, d);
                let slot = InternSlot { hash, key };
                self.slots.set(at, Some(slot));
                self.count = self.count + 1;
                proof {
                    lemma_put(before, at as int, d, slot);
                }
            },
        }
    }

    /// A table twice as large, or the first one, with the same keys.
    fn grow(&mut self, first_len: usize)
        requires
            old(self).wf(first_len),
            16 <= first_len <= INTERN_FIRST_MAX_SLOTS,
            old(self).slots().len() <= usize::MAX / 2,
            old(self).slots().len() == 0 ==> old(self).count() == 0,
        ensures
            slots_wf(final(self).slots()),
            final(self).slots().len() == (if old(self).slots().len() == 0 {
                first_len as nat
            } else {
                2 * old(self).slots().len()
            }),
            final(self).count() == old(self).count(),
            final(self).count() == taken(final(self).slots()).len(),
            final(self).generation() == old(self).generation() + 1,
            forall|c: u128| #[trigger]
                holds(final(self).slots(), c) == holds(old(self).slots(), c),
            forall|c: u128|
                holds(old(self).slots(), c) ==> #[trigger] key_of(final(self).slots(), c)
                    == key_of(old(self).slots(), c),
    {
        let ghost before = self.slots@;
        let old_len = self.slots.len();
        let len = if old_len == 0 {
            first_len
        } else {
            old_len * 2
        };
        let mut empty: Vec<Option<InternSlot<K>>> = Vec::new();
        let mut i: usize = 0;
        while i < len
            invariant
                i <= len,
                empty@.len() == i,
                forall|k: int| 0 <= k < i ==> (#[trigger] empty@[k]) is None,
            decreases len - i,
        {
            empty.push(None);
            i += 1;
        }
        proof {
            lemma_taken_of_empty(empty@);
        }
        let mut fresh: InternTable<K> = InternTable {
            slots: empty,
            count: 0,
            generation: self.generation + 1,
        };
        assert(before.take(0) =~= Seq::empty());
        let mut j: usize = 0;
        while j < old_len
            invariant
                j <= old_len,
                before == self.slots@,
                old_len == before.len(),
                slots_wf(before),
                2 * taken(before).len() <= before.len(),
                old_len > 0 ==> len == 2 * old_len && old_len >= 2,
                slots_wf(fresh.slots()),
                fresh.slots().len() == len,
                fresh.count() == taken(fresh.slots()).len(),
                fresh.count() == taken(before.take(j as int)).len(),
                fresh.generation() == self.generation + 1,
                forall|c: u128| #[trigger]
                    holds(fresh.slots(), c) == held_before(before, c, j as int),
                forall|c: u128|
                    holds(fresh.slots(), c) ==> #[trigger] key_of(fresh.slots(), c) == key_of(
                        before,
                        c,
                    ),
            decreases old_len - j,
        {
            proof {
                assert(before.take(j + 1).drop_last() =~= before.take(j as int));
                lemma_taken_prefix(before, j + 1);
            }
            match self.slots[j] {
                None => {
                    assert forall|c: u128| #[trigger]
                        holds(fresh.slots(), c) == held_before(before, c, j + 1) by {
                        assert(held_before(before, c, j + 1) == held_before(before, c, j as int))
                            by {
                            lemma_held_step(before, c, j as int);
                        }
                    }
                },
                Some(slot) => {
                    proof {
                        assert(before[j as int] is Some);
                        lemma_key_at(before, j as int);
                        if held_before(before, slot.key.content(), j as int) {
                            let k = choose|k: int|
                                k < j && #[trigger] holds_at(before, slot.key.content(), k);
                            assert(before[k] is Some);
                        }
                    }
                    fresh.fill(slot.hash, slot.key);
                    assert forall|c: u128| #[trigger]
                        holds(fresh.slots(), c) == held_before(before, c, j + 1) by {
                        lemma_held_step(before, c, j as int);
                    }
                },
            }
            j += 1;
        }
        proof {
            assert(before.take(old_len as int) =~= before);
            assert forall|c: u128| #[trigger] holds(fresh.slots(), c) == holds(before, c) by {
                if old_len > 0 {
                    if holds(before, c) {
                        let k = choose|k: int| holds_at(before, c, k);
                        assert(k < old_len && holds_at(before, c, k));
                    }
                    if held_before(before, c, old_len as int) {
                        let k = choose|k: int| k < old_len && #[trigger] holds_at(before, c, k);
                        assert(holds_at(before, c, k));
                    }
                }
            }
        }
        *self = fresh;
    }

    /// Adds a key whose content is not there.
    fn publish(&mut self, hash: u64, key: K, first_len: usize)
        requires
            old(self).wf(first_len),
            16 <= first_len <= INTERN_FIRST_MAX_SLOTS,
            hash == hash_of(key.content()),
            !holds(old(self).slots(), key.content()),
            old(self).count() <= usize::MAX / 16,
        ensures
            final(self).wf(first_len),
            final(self).count() == old(self).count() + 1,
            final(self).generation() == old(self).generation() ==> extends(
                old(self).slots(),
                final(self).slots(),
            ),
            final(self).generation() >= old(self).generation(),
            final(self).slots().len() > 0,
            forall|c: u128| #[trigger]
                holds(final(self).slots(), c) == (holds(old(self).slots(), c) || c
                    == key.content()),
            forall|c: u128|
                holds(old(self).slots(), c) ==> #[trigger] key_of(final(self).slots(), c)
                    == key_of(old(self).slots(), c),
            key_of(final(self).slots(), key.content()) == key,
    {
        let len = self.slots.len();
        let ghost before = self.slots@;
        if (self.count + 1) * 2 > len {
            self.grow(first_len);
            assert(holds(self.slots(), key.content()) == holds(before, key.content()));
        }
        let ghost grown = self.slots@;
        self.fill(hash, key);
        assert forall|c: u128| holds(before, c) implies #[trigger] key_of(self.slots(), c)
            == key_of(before, c) by {
            assert(holds(grown, c) == holds(before, c));
            assert(key_of(grown, c) == key_of(before, c));
        }
        assert forall|c: u128| #[trigger]
            holds(self.slots(), c) == (holds(before, c) || c == key.content()) by {
            assert(holds(grown, c) == holds(before, c));
        }
    }
}

/// One of the first `n` slots holds a key of the content.
spec fn held_before<K: InternKey>(
    slots: Seq<Option<InternSlot<K>>>,
    content: u128,
    n: int,
) -> bool {
    exists|i: int| i < n && #[trigger] holds_at(slots, content, i)
}

proof fn lemma_held_step<K: InternKey>(slots: Seq<Option<InternSlot<K>>>, content: u128, n: int)
    ensures
        held_before(slots, content, n + 1) == (held_before(slots, content, n) || holds_at(
            slots,
            content,
            n,
        )),
{
    if held_before(slots, content, n) {
        let i = choose|i: int| i < n && #[trigger] holds_at(slots, content, i);
        assert(i < n + 1 && holds_at(slots, content, i));
    }
    if holds_at(slots, content, n) {
        assert(n < n + 1 && holds_at(slots, content, n));
    }
}

proof fn lemma_taken_prefix<K>(slots: Seq<Option<InternSlot<K>>>, n: int)
    requires
        0 <= n <= slots.len(),
    ensures
        taken(slots.take(n)).len() <= taken(slots).len(),
    decreases slots.len(),
{
    if n == slots.len() {
        assert(slots.take(n) =~= slots);
    } else {
        lemma_taken_prefix(slots.drop_last(), n);
        assert(slots.drop_last().take(n) =~= slots.take(n));
    }
}

/// The content is in the tables.
pub open spec fn has_content<K: InternKey>(tables: Seq<InternTable<K>>, content: u128) -> bool {
    holds(tables[shard_of(hash_of(content), tables.len() as usize)].slots(), content)
}

/// The keys of the contents.
pub open spec fn interned<K: InternKey>(tables: Seq<InternTable<K>>) -> Map<u128, K> {
    Map::new(
        |content: u128| has_content(tables, content),
        |content: u128|
            key_of(tables[shard_of(hash_of(content), tables.len() as usize)].slots(), content),
    )
}

/// How many keys the first `n` tables have.
pub open spec fn key_count<K: InternKey>(tables: Seq<InternTable<K>>, n: int) -> nat
    decreases n,
{
    if n <= 0 {
        0
    } else {
        key_count(tables, n - 1) + tables[n - 1].count()
    }
}

/// The length of the first table: twice the expected keys, within limits, as a power of two.
pub open spec fn is_first_len(first_len: usize, per_shard: int) -> bool {
    &&& 16 <= first_len <= INTERN_FIRST_MAX_SLOTS
    &&& is_power_of_two(first_len as nat)
    &&& 2 * per_shard <= first_len || first_len == INTERN_FIRST_MAX_SLOTS
    &&& first_len < 4 * per_shard || first_len == 16
}

pub open spec fn is_power_of_two(n: nat) -> bool {
    exists|k: nat| n == #[trigger] vstd::arithmetic::power2::pow2(k)
}

fn first_len_for(per_shard: usize) -> (len: usize)
    ensures
        is_first_len(len, per_shard as int),
{
    let mut len: usize = 16;
    assert(vstd::arithmetic::power2::pow2(4) == 16) by {
        vstd::arithmetic::power2::lemma2_to64();
    }
    let ghost mut k: nat = 4;
    while len < INTERN_FIRST_MAX_SLOTS && len / 2 < per_shard
        invariant
            16 <= len,
            4 <= k <= 12,
            len == vstd::arithmetic::power2::pow2(k),
            len < 4 * per_shard || len == 16,
            len % 2 == 0,
            len <= INTERN_FIRST_MAX_SLOTS,
            k == 12 ==> len == INTERN_FIRST_MAX_SLOTS,
        decreases INTERN_FIRST_MAX_SLOTS - len,
    {
        proof {
            vstd::arithmetic::power2::lemma_pow2_unfold(k + 1);
            vstd::arithmetic::power2::lemma2_to64();
            lemma_small_powers(k);
            k = k + 1;
        }
        len = len * 2;
    }
    len
}

proof fn lemma_small_powers(k: nat)
    requires
        4 <= k < 12,
    ensures
        vstd::arithmetic::power2::pow2(k) <= 2048,
        k == 11 ==> vstd::arithmetic::power2::pow2(k) == 2048,
{
    vstd::arithmetic::power2::lemma2_to64();
}

/// A set of interned values, keyed by content.
pub struct InternSet<K> {
    tables: Vec<InternTable<K>>,
    first_len: usize,
}

impl<K: InternKey> InternSet<K> {
    /// The tables of the shards.
    pub closed spec fn tables(&self) -> Seq<InternTable<K>> {
        self.tables@
    }

    /// The length of a shard's first table.
    pub closed spec fn first_len(&self) -> usize {
        self.first_len
    }

    /// The key of each content.
    pub open spec fn view(&self) -> Map<u128, K> {
        interned(self.tables())
    }

    /// How many keys there are.
    pub open spec fn count(&self) -> nat {
        key_count(self.tables(), self.tables().len() as int)
    }

    /// There is one table or one for each shard, and each content is in the table of its hash.
    pub open spec fn wf(&self) -> bool {
        &&& self.tables().len() == shard_count(true) || self.tables().len() == shard_count(false)
        &&& 16 <= self.first_len() <= INTERN_FIRST_MAX_SLOTS
        &&& forall|s: int|
            0 <= s < self.tables().len() ==> (#[trigger] self.tables()[s]).wf(self.first_len())
        &&& forall|s: int, content: u128|
            0 <= s < self.tables().len() && #[trigger] holds(self.tables()[s].slots(), content)
                ==> s == shard_of(hash_of(content), self.tables().len() as usize)
    }

    /// A set without keys, whose tables have room for `cap` of them.
    pub fn with_capacity(cap: usize, dyn_thread_safe: bool) -> (set: InternSet<K>)
        ensures
            set.wf(),
            set.tables().len() == shard_count(dyn_thread_safe),
            is_first_len(
                set.first_len(),
                rounded_up(cap as int, shard_count(dyn_thread_safe) as int),
            ),
            set.count() == 0,
            set@ == Map::<u128, K>::empty(),
    {
        let n = shards(dyn_thread_safe);
        let per_shard_cap = div_ceil(cap, n);
        let first_len = first_len_for(per_shard_cap);
        let mut tables: Vec<InternTable<K>> = Vec::new();
        let mut i: usize = 0;
        while i < n
            invariant
                i <= n,
                tables@.len() == i,
                forall|s: int| 0 <= s < i ==> (#[trigger] tables@[s]).wf(first_len),
                forall|s: int| 0 <= s < i ==> (#[trigger] tables@[s]).slots().len() == 0,
                key_count(tables@, i as int) == 0,
            decreases n - i,
        {
            let ghost before = tables@;
            tables.push(InternTable::none());
            proof {
                lemma_same_counts(before, tables@, i as int);
            }
            i += 1;
        }
        let set = InternSet { tables, first_len };
        proof {
            assert forall|content: u128| !#[trigger] set@.contains_key(content) by {
                let s = shard_of(hash_of(content), n);
                assert(0 <= s < n);
                assert(set.tables()[s].slots().len() == 0);
            }
        }
        set
    }

    fn shard_of(&self, hash: u64) -> (shard: usize)
        requires
            self.wf(),
        ensures
            shard == shard_of(hash, self.tables().len() as usize),
            shard < self.tables().len(),
    {
        shard_at(hash, self.tables.len())
    }

    /// The key of a content, or where the lookup for it stopped. Nothing is locked: the set may be
    /// an older state of one that others have added to since.
    pub fn find(&self, content: u128) -> (found: Result<K, InternMiss>)
        requires
            self.wf(),
        ensures
            match found {
                Ok(key) => self@.contains_key(content) && self@[content] == key,
                Err(miss) => !self@.contains_key(content) && self.knows(content, miss),
            },
    {
        let hash = make_hash(content);
        let shard = self.shard_of(hash);
        let table = &self.tables[shard];
        let len = table.slots.len();
        if len == 0 {
            return Err(InternMiss { generation: 0, slot: 0 });
        }
        let home = (hash % (len as u64)) as usize;
        assert(missed(table.slots(), content, 0));
        match table.probe(hash, home, content, Ghost(0)) {
            Probe::Found(key) => Ok(key),
            Probe::Vacant(slot) => {
                proof {
                    let d = choose|d: int| vacant_in(table.slots(), content, slot, d);
                    assert(resumes_in(table.slots(), content, slot, d));
                }
                Err(InternMiss { generation: table.generation, slot })
            },
        }
    }

    /// A lookup of the content that missed there tells where to go on.
    pub open spec fn knows(&self, content: u128, miss: InternMiss) -> bool {
        self.tables()[shard_of(hash_of(content), self.tables().len() as usize)].knows(content, miss)
    }

    /// The key of a content, probing from where a lookup in this or an older state of the set
    /// missed it.
    pub fn find_locked(&self, content: u128, miss: InternMiss) -> (found: Option<K>)
        requires
            self.wf(),
            self.knows(content, miss),
        ensures
            found == (if self@.contains_key(content) {
                Some(self@[content])
            } else {
                None
            }),
    {
        let hash = make_hash(content);
        let shard = self.shard_of(hash);
        let table = &self.tables[shard];
        let len = table.slots.len();
        if len == 0 {
            return None;
        }
        let from: usize;
        let ghost mut d: int = 0;
        if miss.generation == table.generation {
            from = miss.slot;
            proof {
                d = choose|d: int| resumes_in(table.slots(), content, from, d);
            }
        } else {
            from = (hash % (len as u64)) as usize;
            assert(missed(table.slots(), content, 0));
        }
        match table.probe(hash, from, content, Ghost(d)) {
            Probe::Found(key) => Some(key),
            Probe::Vacant(_) => None,
        }
    }

    /// The key of a content, which `make` makes when there is none.
    pub fn intern(&mut self, value: u128, make: impl FnOnce(u128) -> K) -> (key: K)
        requires
            old(self).wf(),
            old(self).count() < usize::MAX / 16,
            !old(self)@.contains_key(value) ==> call_requires(make, (value,)),
            forall|k: K| #[trigger] call_ensures(make, (value,), k) ==> k.content() == value,
        ensures
            final(self).wf(),
            interns(old(self)@, value, key, final(self)@),
            old(self)@.contains_key(value) ==> *final(self) == *old(self),
            !old(self)@.contains_key(value) ==> call_ensures(make, (value,), key)
                && final(self).count() == old(self).count() + 1,
            final(self).follows(*old(self)),
    {
        match self.find(value) {
            Ok(key) => {
                assert(self@.insert(value, key) =~= self@);
                key
            },
            Err(miss) => {
                match self.find_locked(value, miss) {
                    Some(key) => key,
                    None => {
                        let key = make(value);
                        self.publish(key);
                        key
                    },
                }
            },
        }
    }

    /// As `intern`, for a `make` that knows the content already.
    pub fn intern_ref(&mut self, value: u128, make: impl FnOnce() -> K) -> (key: K)
        requires
            old(self).wf(),
            old(self).count() < usize::MAX / 16,
            !old(self)@.contains_key(value) ==> call_requires(make, ()),
            forall|k: K| #[trigger] call_ensures(make, (), k) ==> k.content() == value,
        ensures
            final(self).wf(),
            interns(old(self)@, value, key, final(self)@),
            old(self)@.contains_key(value) ==> *final(self) == *old(self),
            !old(self)@.contains_key(value) ==> call_ensures(make, (), key)
                && final(self).count() == old(self).count() + 1,
            final(self).follows(*old(self)),
    {
        match self.find(value) {
            Ok(key) => {
                assert(self@.insert(value, key) =~= self@);
                key
            },
            Err(miss) => {
                match self.find_locked(value, miss) {
                    Some(key) => key,
                    None => {
                        let key = make();
                        self.publish(key);
                        key
                    },
                }
            },
        }
    }

    /// The set came from the other one: each shard has the same table with more slots taken, or a
    /// later table.
    pub open spec fn follows(&self, earlier: InternSet<K>) -> bool {
        &&& self.tables().len() == earlier.tables().len()
        &&& forall|s: int|
            0 <= s < self.tables().len() ==> table_follows(
                #[trigger] self.tables()[s],
                earlier.tables()[s],
            )
    }

    /// Adds a key whose content is not there.
    fn publish(&mut self, key: K)
        requires
            old(self).wf(),
            old(self).count() < usize::MAX / 16,
            !old(self)@.contains_key(key.content()),
        ensures
            final(self).wf(),
            final(self).count() == old(self).count() + 1,
            final(self)@ == old(self)@.insert(key.content(), key),
            final(self).follows(*old(self)),
    {
        let ghost before = self.tables@;
        let content = key.borrow();
        let hash = make_hash(content);
        let shard = self.shard_of(hash);
        proof {
            lemma_count_bounds(before, before.len() as int, shard as int);
        }
        let first_len = self.first_len;
        self.tables[shard].publish(hash, key, first_len);
        proof {
            let n = before.len() as usize;
            lemma_one_more(before, self.tables@, shard as int, before.len() as int);
            assert(self@ =~= interned(before).insert(content, key)) by {
                assert forall|c: u128|
                    self@.contains_key(c) == interned(before).insert(content, key).contains_key(c)
                        && (self@.contains_key(c) ==> self@[c] == interned(before).insert(
                        content,
                        key,
                    )[c]) by {
                    let s = shard_of(hash_of(c), n);
                    assert(0 <= s < n);
                    if s != shard {
                        assert(self.tables()[s] == before[s]);
                    } else {
                        assert(holds(self.tables()[s].slots(), c) == (holds(before[s].slots(), c)
                            || c == content));
                        if holds(before[s].slots(), c) {
                            assert(key_of(self.tables()[s].slots(), c) == key_of(
                                before[s].slots(),
                                c,
                            ));
                        }
                    }
                }
            }
            assert forall|s: int, c: u128|
                0 <= s < self.tables().len() && #[trigger] holds(
                    self.tables()[s].slots(),
                    c,
                ) implies s == shard_of(hash_of(c), self.tables().len() as usize) by {
                if s != shard {
                    assert(self.tables()[s] == before[s]);
                }
                assert(holds(before[s].slots(), c) || c == content);
            }
        }
    }

    /// Whether the set holds the very value: a key of the content's hash with this address.
    pub fn contains_pointer_to<T: InternKey>(&self, value: &T) -> (yes: bool)
        requires
            self.wf(),
        ensures
            yes == (self@.contains_key(value.content()) && self@[value.content()].pointer()
                == value.pointer()),
    {
        match self.find(value.borrow()) {
            Ok(key) => key.into_pointer() == value.into_pointer(),
            Err(_) => false,
        }
    }

    /// How many keys there are.
    pub fn len(&self) -> (n: usize)
        requires
            self.wf(),
            self.count() <= usize::MAX,
        ensures
            n == self.count(),
    {
        let mut n: usize = 0;
        let mut i: usize = 0;
        while i < self.tables.len()
            invariant
                i <= self.tables@.len(),
                self.count() <= usize::MAX,
                n == key_count(self.tables(), i as int),
            decreases self.tables@.len() - i,
        {
            proof {
                lemma_count_grows(self.tables(), i + 1, self.tables().len() as int);
            }
            n = n + self.tables[i].count;
            i += 1;
        }
        n
    }

    /// Every key, once, in no particular order.
    pub fn for_each(&self) -> (keys: Vec<K>)
        requires
            self.wf(),
        ensures
            keys@.len() == self.count(),
            forall|i: int|
                0 <= i < keys@.len() ==> self@.contains_key((#[trigger] keys@[i]).content())
                    && self@[keys@[i].content()] == keys@[i],
            forall|i: int, j: int|
                0 <= i < j < keys@.len() ==> (#[trigger] keys@[i]).content() != (
                #[trigger] keys@[j]).content(),
            forall|content: u128| #[trigger]
                self@.contains_key(content) ==> keys@.contains(self@[content]),
    {
        let mut keys: Vec<K> = Vec::new();
        let n = self.tables.len();
        let mut s: usize = 0;
        while s < n
            invariant
                s <= n,
                n == self.tables().len(),
                self.wf(),
                keys@ == keys_before(self.tables(), s as int),
            decreases n - s,
        {
            let table = &self.tables[s];
            let len = table.slots.len();
            let ghost before = keys@;
            let ghost slots = table.slots@;
            assert(before + taken(slots.take(0)) =~= before);
            let mut i: usize = 0;
            while i < len
                invariant
                    i <= len,
                    slots == table.slots@,
                    len == slots.len(),
                    keys@ == before + taken(slots.take(i as int)),
                decreases len - i,
            {
                proof {
                    assert(slots.take(i + 1).drop_last() =~= slots.take(i as int));
                }
                match table.slots[i] {
                    Some(slot) => {
                        keys.push(slot.key);
                    },
                    None => {},
                }
                assert(keys@ =~= before + taken(slots.take(i + 1)));
                i += 1;
            }
            assert(slots.take(len as int) =~= slots);
            s += 1;
        }
        proof {
            lemma_keys_before(*self, n as int);
        }
        keys
    }
}

/// The keys of the first `n` tables.
spec fn keys_before<K: InternKey>(tables: Seq<InternTable<K>>, n: int) -> Seq<K>
    decreases n,
{
    if n <= 0 {
        Seq::empty()
    } else {
        keys_before(tables, n - 1) + taken(tables[n - 1].slots())
    }
}

/// A slot holds the key.
spec fn is_taken<K>(slots: Seq<Option<InternSlot<K>>>, key: K) -> bool {
    exists|i: int|
        #![trigger slots[i]]
        0 <= i < slots.len() && slots[i] is Some && slots[i]->0.key == key
}

/// The taken keys are those that the slots hold.
proof fn lemma_taken<K: InternKey>(slots: Seq<Option<InternSlot<K>>>)
    ensures
        forall|k: int|
            0 <= k < taken(slots).len() ==> is_taken(slots, #[trigger] taken(slots)[k]),
        forall|i: int|
            0 <= i < slots.len() && (#[trigger] slots[i]) is Some ==> taken(slots).contains(
                slots[i]->0.key,
            ),
    decreases slots.len(),
{
    if slots.len() > 0 {
        let rest = slots.drop_last();
        lemma_taken(rest);
        assert forall|k: int| 0 <= k < taken(slots).len() implies is_taken(
            slots,
            #[trigger] taken(slots)[k],
        ) by {
            if k < taken(rest).len() {
                assert(taken(slots)[k] == taken(rest)[k]);
                assert(is_taken(rest, taken(rest)[k]));
                let i = choose|i: int|
                    #![trigger rest[i]]
                    0 <= i < rest.len() && rest[i] is Some && rest[i]->0.key == taken(rest)[k];
                assert(slots[i] == rest[i]);
            } else {
                assert(slots[slots.len() - 1] is Some);
            }
        }
        assert forall|i: int| 0 <= i < slots.len() && (#[trigger] slots[i]) is Some implies taken(
            slots,
        ).contains(slots[i]->0.key) by {
            if i < rest.len() {
                assert(rest[i] is Some);
                let k = choose|k: int|
                    0 <= k < taken(rest).len() && taken(rest)[k] == rest[i]->0.key;
                assert(taken(slots)[k] == slots[i]->0.key);
            } else {
                assert(taken(slots)[taken(slots).len() - 1] == slots[i]->0.key);
            }
        }
    }
}

/// No content is taken twice.
proof fn lemma_taken_once<K: InternKey>(slots: Seq<Option<InternSlot<K>>>)
    requires
        forall|i: int, j: int|
            0 <= i < j < slots.len() && (#[trigger] slots[i]) is Some && (#[trigger] slots[j])
                is Some ==> slots[i]->0.key.content() != slots[j]->0.key.content(),
    ensures
        forall|k: int, l: int|
            0 <= k < l < taken(slots).len() ==> (#[trigger] taken(slots)[k]).content() != (
            #[trigger] taken(slots)[l]).content(),
    decreases slots.len(),
{
    if slots.len() > 0 {
        let rest = slots.drop_last();
        assert forall|i: int, j: int|
            0 <= i < j < rest.len() && (#[trigger] rest[i]) is Some && (#[trigger] rest[j])
                is Some implies rest[i]->0.key.content() != rest[j]->0.key.content() by {
            assert(slots[i] is Some && slots[j] is Some);
        }
        lemma_taken_once(rest);
        lemma_taken(rest);
        assert forall|k: int, l: int| 0 <= k < l < taken(slots).len() implies (#[trigger] taken(
            slots,
        )[k]).content() != (#[trigger] taken(slots)[l]).content() by {
            assert(taken(slots)[k] == taken(rest)[k]);
            if l < taken(rest).len() {
                assert(taken(slots)[l] == taken(rest)[l]);
            } else {
                assert(is_taken(rest, taken(rest)[k]));
                let i = choose|i: int|
                    #![trigger rest[i]]
                    0 <= i < rest.len() && rest[i] is Some && rest[i]->0.key == taken(rest)[k];
                assert(slots[i] is Some);
                assert(slots[slots.len() - 1] is Some);
            }
        }
    }
}

/// The keys of the tables, once each.
proof fn lemma_keys_before<K: InternKey>(set: InternSet<K>, n: int)
    requires
        set.wf(),
        0 <= n <= set.tables().len(),
    ensures
        keys_before(set.tables(), n).len() == key_count(set.tables(), n),
        forall|i: int|
            0 <= i < keys_before(set.tables(), n).len() ==> is_key_before(
                set,
                #[trigger] keys_before(set.tables(), n)[i],
                n,
            ),
        forall|i: int, j: int|
            0 <= i < j < keys_before(set.tables(), n).len() ==> (#[trigger] keys_before(
                set.tables(),
                n,
            )[i]).content() != (#[trigger] keys_before(set.tables(), n)[j]).content(),
        forall|content: u128| #[trigger]
            set@.contains_key(content) && shard_of(hash_of(content), set.tables().len() as usize)
                < n ==> keys_before(set.tables(), n).contains(set@[content]),
    decreases n,
{
    let tables = set.tables();
    assert forall|content: u128| 0 <= #[trigger] shard_of(hash_of(content), tables.len() as usize)
        by {}
    if n > 0 {
        lemma_keys_before(set, n - 1);
        let table = tables[n - 1];
        let slots = table.slots();
        assert(table.wf(set.first_len()));
        let before = keys_before(tables, n - 1);
        let all = keys_before(tables, n);
        lemma_taken(slots);
        lemma_taken_once(slots);
        assert forall|i: int| 0 <= i < all.len() implies is_key_before(set, #[trigger] all[i], n)
            by {
            if i < before.len() {
                assert(all[i] == before[i]);
                assert(is_key_before(set, before[i], n - 1));
            } else {
                let k = i - before.len();
                assert(all[i] == taken(slots)[k]);
                assert(is_taken(slots, taken(slots)[k]));
                let at = choose|at: int|
                    #![trigger slots[at]]
                    0 <= at < slots.len() && slots[at] is Some && slots[at]->0.key == taken(
                        slots,
                    )[k];
                lemma_key_at(slots, at);
                assert(holds(tables[n - 1].slots(), all[i].content()));
            }
        }
        assert forall|i: int, j: int| 0 <= i < j < all.len() implies (#[trigger] all[i]).content()
            != (#[trigger] all[j]).content() by {
            if j < before.len() {
                assert(all[i] == before[i] && all[j] == before[j]);
            } else if i < before.len() {
                assert(all[i] == before[i]);
                assert(is_key_before(set, before[i], n - 1));
                let k = j - before.len();
                assert(all[j] == taken(slots)[k]);
                assert(is_taken(slots, taken(slots)[k]));
                let at = choose|at: int|
                    #![trigger slots[at]]
                    0 <= at < slots.len() && slots[at] is Some && slots[at]->0.key == taken(
                        slots,
                    )[k];
                lemma_key_at(slots, at);
                assert(holds(tables[n - 1].slots(), all[j].content()));
            } else {
                assert(all[i] == taken(slots)[i - before.len()]);
                assert(all[j] == taken(slots)[j - before.len()]);
            }
        }
        assert forall|content: u128| #[trigger]
            set@.contains_key(content) && shard_of(hash_of(content), tables.len() as usize)
                < n implies all.contains(set@[content]) by {
            if shard_of(hash_of(content), tables.len() as usize) < n - 1 {
                let k = choose|k: int| 0 <= k < before.len() && before[k] == set@[content];
                assert(all[k] == set@[content]);
            } else {
                let at = choose|at: int| holds_at(slots, content, at);
                assert(slots[at] is Some);
                lemma_key_at(slots, at);
                let k = choose|k: int|
                    0 <= k < taken(slots).len() && taken(slots)[k] == slots[at]->0.key;
                assert(all[before.len() + k] == set@[content]);
            }
        }
    }
}

/// The key is one of the set, in the first `n` tables.
spec fn is_key_before<K: InternKey>(set: InternSet<K>, key: K, n: int) -> bool {
    &&& set@.contains_key(key.content())
    &&& set@[key.content()] == key
    &&& shard_of(hash_of(key.content()), set.tables().len() as usize) < n
}

/// The table is an earlier one with more slots taken, or came after it.
pub open spec fn table_follows<K: InternKey>(table: InternTable<K>, earlier: InternTable<K>) -> bool {
    &&& table.generation() >= earlier.generation()
    &&& table.generation() == earlier.generation() ==> extends(earlier.slots(), table.slots())
}

proof fn lemma_same_counts<K: InternKey>(a: Seq<InternTable<K>>, b: Seq<InternTable<K>>, n: int)
    requires
        n <= a.len(),
        n <= b.len(),
        forall|i: int| 0 <= i < n ==> a[i] == b[i],
    ensures
        key_count(a, n) == key_count(b, n),
    decreases n,
{
    if n > 0 {
        lemma_same_counts(a, b, n - 1);
    }
}

proof fn lemma_count_grows<K: InternKey>(tables: Seq<InternTable<K>>, i: int, n: int)
    requires
        0 <= i <= n,
    ensures
        key_count(tables, i) <= key_count(tables, n),
    decreases n,
{
    if i < n {
        lemma_count_grows(tables, i, n - 1);
    }
}

proof fn lemma_count_bounds<K: InternKey>(tables: Seq<InternTable<K>>, n: int, i: int)
    requires
        0 <= i < n,
    ensures
        tables[i].count() <= key_count(tables, n),
    decreases n,
{
    if i < n - 1 {
        lemma_count_bounds(tables, n - 1, i);
    }
}

proof fn lemma_one_more<K: InternKey>(
    before: Seq<InternTable<K>>,
    after: Seq<InternTable<K>>,
    at: int,
    n: int,
)
    requires
        0 <= at < before.len(),
        after.len() == before.len(),
        n <= before.len(),
        after[at].count() == before[at].count() + 1,
        forall|i: int| 0 <= i < before.len() && i != at ==> after[i] == before[i],
    ensures
        key_count(after, n) == key_count(before, n) + (if at < n {
            1nat
        } else {
            0
        }),
    decreases n,
{
    if n > 0 {
        lemma_one_more(before, after, at, n - 1);
    }
}

/// `after` is what interning `value` as `key` makes of `before`.
pub open spec fn interns<K>(
    before: Map<u128, K>,
    value: u128,
    key: K,
    after: Map<u128, K>,
) -> bool {
    &&& before.contains_key(value) ==> key == before[value]
    &&& after == before.insert(value, key)
}

/// Equal contents are always given the same key, whatever was interned in between: what one call
/// gave, every later one gives.
pub proof fn law_a_content_has_one_key<K>(
    states: Seq<Map<u128, K>>,
    values: Seq<u128>,
    keys: Seq<K>,
    i: int,
    j: int,
)
    requires
        states.len() == values.len() + 1,
        keys.len() == values.len(),
        forall|t: int|
            0 <= t < values.len() ==> #[trigger] interns(
                states[t],
                values[t],
                keys[t],
                states[t + 1],
            ),
        0 <= i <= j < values.len(),
        values[i] == values[j],
    ensures
        keys[i] == keys[j],
{
    assert(interns(states[i], values[i], keys[i], states[i + 1]));
    if i < j {
        lemma_keys_stay(states, values, keys, i + 1, j, values[i]);
        assert(interns(states[j], values[j], keys[j], states[j + 1]));
    }
}

proof fn lemma_keys_stay<K>(
    states: Seq<Map<u128, K>>,
    values: Seq<u128>,
    keys: Seq<K>,
    i: int,
    j: int,
    content: u128,
)
    requires
        states.len() == values.len() + 1,
        keys.len() == values.len(),
        forall|t: int|
            0 <= t < values.len() ==> #[trigger] interns(
                states[t],
                values[t],
                keys[t],
                states[t + 1],
            ),
        0 <= i <= j < states.len(),
        states[i].contains_key(content),
    ensures
        states[j].contains_key(content),
        states[j][content] == states[i][content],
    decreases j - i,
{
    if i < j {
        lemma_keys_stay(states, values, keys, i, j - 1, content);
        let t = j - 1;
        assert(interns(states[t], values[t], keys[t], states[t + 1]));
    }
}

/// A lookup without a lock that missed tells every later state where to go on.
pub proof fn law_lookups_without_a_lock_stay_good<K: InternKey>(
    earlier: InternSet<K>,
    later: InternSet<K>,
    content: u128,
    miss: InternMiss,
)
    requires
        earlier.wf(),
        later.wf(),
        later.follows(earlier),
        earlier.knows(content, miss),
    ensures
        later.knows(content, miss),
{
    let n = earlier.tables().len() as usize;
    let s = shard_of(hash_of(content), n);
    assert(0 <= s < n);
    let before = earlier.tables()[s];
    let after = later.tables()[s];
    assert(table_follows(after, before));
    if after.slots().len() > 0 && miss.generation == after.generation() {
        law_a_miss_stays_good(before.slots(), after.slots(), content, miss.slot);
    }
}

} // verus!
