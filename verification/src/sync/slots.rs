//! A stage's outputs: one slot per item, each written once and then frozen.

use vstd::prelude::*;

verus! {

/// What one slot holds.
pub enum Slot<O> {
    /// Nobody has started the item.
    Unclaimed,
    /// Some thread claimed the item and is running it.
    Running,
    /// The value is written and will not change.
    Ready(O),
    /// The item raised, or was cut off because a serial run would not have reached it.
    Failed,
}

impl<O> Slot<O> {
    pub open spec fn settled(self) -> bool {
        self is Ready || self is Failed
    }
}

/// What a thread that needs an item does next.
#[derive(Clone, Copy, PartialEq, Eq, Structural, Debug)]
pub enum Wait {
    /// The value is there.
    Value,
    /// There is no value and there will be none.
    Nothing,
    /// Nobody had started the item: the thread has claimed it and runs it now.
    RunIt,
    /// Another thread is running the item.
    Block,
}

/// One stage's outputs.
///
/// A waker is known by a number: two wakers with the same number wake the same task.
pub struct Slots<O> {
    slots: Vec<Slot<O>>,
    /// Who waits for a slot, by index. Woken when that slot settles.
    waiters: Vec<(usize, u64)>,
}

impl<O> View for Slots<O> {
    type V = Seq<Slot<O>>;

    closed spec fn view(&self) -> Seq<Slot<O>> {
        self.slots@
    }
}

/// The entries of those who wait for `index`.
pub open spec fn waits_here(index: usize) -> spec_fn((usize, u64)) -> bool {
    |w: (usize, u64)| w.0 == index
}

/// The entries of those who wait for another slot.
pub open spec fn waits_elsewhere(index: usize) -> spec_fn((usize, u64)) -> bool {
    |w: (usize, u64)| w.0 != index
}

/// The wakers that wait for `index`, in the order they came.
pub open spec fn wakers_for(waiters: Seq<(usize, u64)>, index: usize) -> Seq<u64> {
    waiters.filter(waits_here(index)).map_values(|w: (usize, u64)| w.1)
}

/// The entries that wait for another slot than `index`, in the order they came.
pub open spec fn waiting_elsewhere(waiters: Seq<(usize, u64)>, index: usize) -> Seq<(usize, u64)> {
    waiters.filter(waits_elsewhere(index))
}

/// Whoever waits for a slot when it settles is woken, and whoever waits for another goes on
/// waiting: nobody is missed.
pub proof fn law_a_waiter_is_never_missed(waiters: Seq<(usize, u64)>, index: usize, w: (usize, u64))
    requires
        waiters.contains(w),
    ensures
        w.0 == index ==> wakers_for(waiters, index).contains(w.1),
        w.0 != index ==> waiting_elsewhere(waiters, index).contains(w),
{
    let i = choose|i: int| 0 <= i < waiters.len() && waiters[i] == w;
    if w.0 == index {
        waiters.lemma_filter_contains(waits_here(index), i);
        let all = waiters.filter(waits_here(index));
        let k = choose|k: int| 0 <= k < all.len() && all[k] == w;
        assert(wakers_for(waiters, index)[k] == w.1);
    } else {
        waiters.lemma_filter_contains(waits_elsewhere(index), i);
    }
}

/// Whoever waits elsewhere waits for another slot, and was waiting before.
pub proof fn lemma_elsewhere_is_elsewhere(waiters: Seq<(usize, u64)>, index: usize, i: int)
    requires
        0 <= i < waiting_elsewhere(waiters, index).len(),
    ensures
        waiting_elsewhere(waiters, index)[i].0 != index,
        waiters.contains(waiting_elsewhere(waiters, index)[i]),
    decreases waiters.len(),
{
    reveal(Seq::filter);
    let front = waiters.drop_last();
    let before = waiting_elsewhere(front, index);
    if i < before.len() {
        lemma_elsewhere_is_elsewhere(front, index, i);
        assert(waiting_elsewhere(waiters, index)[i] == before[i]);
        let k = choose|k: int| 0 <= k < front.len() && front[k] == before[i];
        assert(waiters[k] == before[i]);
    } else {
        assert(waiting_elsewhere(waiters, index)[i] == waiters.last());
        assert(waiters[waiters.len() - 1] == waiters.last());
    }
}

impl<O> Slots<O> {
    /// Who waits, for which slot, in the order they came.
    pub closed spec fn waiters(&self) -> Seq<(usize, u64)> {
        self.waiters@
    }

    /// Nobody waits for a slot that has settled.
    pub open spec fn nobody_waits_in_vain(&self) -> bool {
        forall|i: int|
            0 <= i < self.waiters().len() ==> (#[trigger] self.waiters()[i]).0 < self@.len()
                && !self@[self.waiters()[i].0 as int].settled()
    }

    /// `len` slots that nobody has started.
    pub fn with_len(len: usize) -> (slots: Slots<O>)
        ensures
            slots@ == Seq::new(len as nat, |i: int| Slot::<O>::Unclaimed),
            slots.waiters() == Seq::<(usize, u64)>::empty(),
            slots.nobody_waits_in_vain(),
    {
        let mut slots: Vec<Slot<O>> = Vec::new();
        let mut i: usize = 0;
        while i < len
            invariant
                i <= len,
                slots@ == Seq::new(i as nat, |i: int| Slot::<O>::Unclaimed),
            decreases len - i,
        {
            slots.push(Slot::Unclaimed);
            i += 1;
            assert(slots@ =~= Seq::new(i as nat, |i: int| Slot::<O>::Unclaimed));
        }
        Slots { slots, waiters: Vec::new() }
    }

    pub fn len(&self) -> (n: usize)
        ensures
            n == self@.len(),
    {
        self.slots.len()
    }

    pub fn is_empty(&self) -> (yes: bool)
        ensures
            yes == (self@.len() == 0),
    {
        self.slots.len() == 0
    }

    /// Claims item `index`, if nobody has started it.
    pub fn claim(&mut self, index: usize) -> (claimed: bool)
        requires
            index < old(self)@.len(),
        ensures
            claimed == (old(self)@[index as int] is Unclaimed),
            final(self)@ == (if claimed {
                old(self)@.update(index as int, Slot::Running)
            } else {
                old(self)@
            }),
            final(self).waiters() == old(self).waiters(),
            old(self).nobody_waits_in_vain() ==> final(self).nobody_waits_in_vain(),
    {
        match self.slots[index] {
            Slot::Unclaimed => {
                self.slots.set(index, Slot::Running);
                true
            },
            _ => false,
        }
    }

    /// Whether slot `index` is claimed and not settled.
    pub fn is_running(&self, index: usize) -> (yes: bool)
        requires
            index < self@.len(),
        ensures
            yes == (self@[index as int] is Running),
    {
        match self.slots[index] {
            Slot::Running => true,
            _ => false,
        }
    }

    /// Writes the value of a slot that this thread claimed, and hands back whoever to wake.
    pub fn fill(&mut self, index: usize, value: O) -> (woken: Vec<u64>)
        requires
            index < old(self)@.len(),
            old(self)@[index as int] is Running,
        ensures
            final(self)@ == old(self)@.update(index as int, Slot::Ready(value)),
            woken@ == wakers_for(old(self).waiters(), index),
            final(self).waiters() == waiting_elsewhere(old(self).waiters(), index),
            old(self).nobody_waits_in_vain() ==> final(self).nobody_waits_in_vain(),
    {
        self.slots.set(index, Slot::Ready(value));
        let woken = self.wake(index);
        proof {
            if old(self).nobody_waits_in_vain() {
                lemma_settling_leaves_nobody(*old(self), *self, index);
            }
        }
        woken
    }

    /// Settles a slot that this thread claimed without a value, and hands back whoever to wake.
    pub fn fail(&mut self, index: usize) -> (woken: Vec<u64>)
        requires
            index < old(self)@.len(),
            old(self)@[index as int] is Running,
        ensures
            final(self)@ == old(self)@.update(index as int, Slot::Failed),
            woken@ == wakers_for(old(self).waiters(), index),
            final(self).waiters() == waiting_elsewhere(old(self).waiters(), index),
            old(self).nobody_waits_in_vain() ==> final(self).nobody_waits_in_vain(),
    {
        self.slots.set(index, Slot::Failed);
        let woken = self.wake(index);
        proof {
            if old(self).nobody_waits_in_vain() {
                lemma_settling_leaves_nobody(*old(self), *self, index);
            }
        }
        woken
    }

    /// The value of slot `index`, if it is ready. Never waits.
    pub fn get(&self, index: usize) -> (value: Option<&O>)
        requires
            index < self@.len(),
        ensures
            value == (match self@[index as int] {
                Slot::Ready(v) => Some(&v),
                _ => None::<&O>,
            }),
    {
        match &self.slots[index] {
            Slot::Ready(value) => Some(value),
            _ => None,
        }
    }

    /// Whether slot `index` has settled, with a value or without one.
    pub fn is_settled(&self, index: usize) -> (yes: bool)
        requires
            index < self@.len(),
        ensures
            yes == self@[index as int].settled(),
    {
        match self.slots[index] {
            Slot::Ready(_) => true,
            Slot::Failed => true,
            _ => false,
        }
    }

    /// Asks for slot `index` on behalf of a task: whether it has settled. If it has not, `waker`
    /// is remembered, once, and woken when it does.
    pub fn poll_ready(&mut self, index: usize, waker: u64) -> (ready: bool)
        requires
            index < old(self)@.len(),
        ensures
            ready == old(self)@[index as int].settled(),
            final(self)@ == old(self)@,
            final(self).waiters() == (if ready || old(self).waiters().contains((index, waker)) {
                old(self).waiters()
            } else {
                old(self).waiters().push((index, waker))
            }),
            old(self).nobody_waits_in_vain() ==> final(self).nobody_waits_in_vain(),
    {
        if self.is_settled(index) {
            return true;
        }
        let mut known = false;
        let mut i: usize = 0;
        while i < self.waiters.len()
            invariant
                i <= self.waiters@.len(),
                known == self.waiters@.take(i as int).contains((index, waker)),
            decreases self.waiters@.len() - i,
        {
            proof {
                let seen = self.waiters@.take(i as int);
                let next = self.waiters@.take(i + 1);
                assert(next =~= seen.push(self.waiters@[i as int]));
                assert(next[i as int] == self.waiters@[i as int]);
                assert(seen.contains((index, waker)) ==> next.contains((index, waker))) by {
                    if seen.contains((index, waker)) {
                        let k = choose|k: int| 0 <= k < seen.len() && seen[k] == (index, waker);
                        assert(next[k] == (index, waker));
                    }
                }
                assert(next.contains((index, waker)) ==> seen.contains((index, waker))
                    || self.waiters@[i as int] == (index, waker)) by {
                    if next.contains((index, waker)) {
                        let k = choose|k: int| 0 <= k < next.len() && next[k] == (index, waker);
                        if k < i {
                            assert(seen[k] == (index, waker));
                        }
                    }
                }
            }
            if self.waiters[i].0 == index && self.waiters[i].1 == waker {
                known = true;
            }
            i += 1;
        }
        assert(self.waiters@.take(i as int) =~= self.waiters@);
        if !known {
            self.waiters.push((index, waker));
        }
        proof {
            if old(self).nobody_waits_in_vain() {
                assert forall|k: int| 0 <= k < self.waiters().len() implies (
                #[trigger] self.waiters()[k]).0 < self@.len()
                    && !self@[self.waiters()[k].0 as int].settled() by {
                    if k < old(self).waiters().len() {
                        assert(self.waiters()[k] == old(self).waiters()[k]);
                    }
                }
            }
        }
        false
    }

    /// What a thread that needs slot `index` does next. If nobody has started the item and the
    /// stage can still run one (`can_run`), the thread claims it.
    pub fn wait(&mut self, index: usize, can_run: bool) -> (next: Wait)
        requires
            index < old(self)@.len(),
        ensures
            next == (match old(self)@[index as int] {
                Slot::Ready(_) => Wait::Value,
                Slot::Failed => Wait::Nothing,
                Slot::Unclaimed => if can_run {
                    Wait::RunIt
                } else {
                    Wait::Nothing
                },
                Slot::Running => Wait::Block,
            }),
            final(self)@ == (if next == Wait::RunIt {
                old(self)@.update(index as int, Slot::Running)
            } else {
                old(self)@
            }),
            final(self).waiters() == old(self).waiters(),
            old(self).nobody_waits_in_vain() ==> final(self).nobody_waits_in_vain(),
    {
        match self.slots[index] {
            Slot::Ready(_) => Wait::Value,
            Slot::Failed => Wait::Nothing,
            Slot::Unclaimed => {
                if can_run {
                    self.slots.set(index, Slot::Running);
                    Wait::RunIt
                } else {
                    Wait::Nothing
                }
            },
            Slot::Running => Wait::Block,
        }
    }

    /// The first slot, from `from` on, that has not settled: the one a thread that waits for all
    /// of them in order waits for next.
    pub fn first_unsettled(&self, from: usize) -> (index: Option<usize>)
        requires
            from <= self@.len(),
        ensures
            match index {
                Some(i) => {
                    &&& from <= i < self@.len()
                    &&& !self@[i as int].settled()
                    &&& forall|j: int| from <= j < i ==> (#[trigger] self@[j]).settled()
                },
                None => forall|j: int| from <= j < self@.len() ==> (#[trigger] self@[j]).settled(),
            },
    {
        let mut i: usize = from;
        while i < self.slots.len()
            invariant
                from <= i <= self@.len(),
                forall|j: int| from <= j < i ==> (#[trigger] self@[j]).settled(),
            decreases self@.len() - i,
        {
            if !self.is_settled(i) {
                return Some(i);
            }
            i += 1;
        }
        None
    }

    /// Every value, moved out in index order. Every slot must have one.
    pub fn into_values(self) -> (values: Vec<O>)
        requires
            forall|i: int| 0 <= i < self@.len() ==> #[trigger] self@[i] is Ready,
        ensures
            values@.len() == self@.len(),
            forall|i: int|
                0 <= i < values@.len() ==> self@[i] == Slot::Ready(#[trigger] values@[i]),
    {
        let ghost all = self@;
        let mut rest = self.slots;
        let mut backwards: Vec<O> = Vec::new();
        while rest.len() > 0
            invariant
                rest@.len() + backwards@.len() == all.len(),
                rest@ == all.take(rest@.len() as int),
                forall|i: int| 0 <= i < all.len() ==> #[trigger] all[i] is Ready,
                forall|i: int|
                    0 <= i < backwards@.len() ==> all[all.len() - 1 - i] == Slot::Ready(
                        #[trigger] backwards@[i],
                    ),
            decreases rest@.len(),
        {
            let ghost n = rest@.len();
            match rest.pop() {
                Some(Slot::Ready(value)) => {
                    backwards.push(value);
                },
                _ => {
                    assert(all[n - 1] is Ready);
                    assert(false);
                },
            }
            assert(rest@ =~= all.take(n - 1));
        }
        let mut values: Vec<O> = Vec::new();
        while backwards.len() > 0
            invariant
                backwards@.len() + values@.len() == all.len(),
                forall|i: int|
                    0 <= i < backwards@.len() ==> all[all.len() - 1 - i] == Slot::Ready(
                        #[trigger] backwards@[i],
                    ),
                forall|i: int|
                    0 <= i < values@.len() ==> all[i] == Slot::Ready(#[trigger] values@[i]),
            decreases backwards@.len(),
        {
            match backwards.pop() {
                Some(value) => {
                    values.push(value);
                },
                None => {
                    assert(false);
                },
            }
        }
        values
    }

    /// Takes whoever waits for slot `index` off the list.
    fn wake(&mut self, index: usize) -> (woken: Vec<u64>)
        ensures
            final(self)@ == old(self)@,
            woken@ == wakers_for(old(self).waiters(), index),
            final(self).waiters() == waiting_elsewhere(old(self).waiters(), index),
    {
        let mut woken: Vec<u64> = Vec::new();
        let mut kept: Vec<(usize, u64)> = Vec::new();
        let mut i: usize = 0;
        assert(self.waiters@.take(0) =~= Seq::<(usize, u64)>::empty());
        proof {
            reveal(Seq::filter);
            assert(woken@ =~= wakers_for(self.waiters@.take(0), index));
            assert(kept@ =~= waiting_elsewhere(self.waiters@.take(0), index));
        }
        while i < self.waiters.len()
            invariant
                i <= self.waiters@.len(),
                self.waiters@ == old(self).waiters(),
                self.slots@ == old(self)@,
                woken@ == wakers_for(self.waiters@.take(i as int), index),
                kept@ == waiting_elsewhere(self.waiters@.take(i as int), index),
            decreases self.waiters@.len() - i,
        {
            let entry: (usize, u64) = self.waiters[i];
            proof {
                reveal(Seq::filter);
                assert(self.waiters@.take(i + 1).drop_last() =~= self.waiters@.take(i as int));
            }
            if entry.0 == index {
                woken.push(entry.1);
            } else {
                kept.push(entry);
            }
            i += 1;
            proof {
                assert(woken@ =~= wakers_for(self.waiters@.take(i as int), index));
            }
        }
        assert(self.waiters@.take(i as int) =~= self.waiters@);
        self.waiters = kept;
        woken
    }
}

proof fn lemma_settling_leaves_nobody<O>(before: Slots<O>, after: Slots<O>, index: usize)
    requires
        before.nobody_waits_in_vain(),
        index < before@.len(),
        after@.len() == before@.len(),
        forall|i: int| 0 <= i < before@.len() && i != index ==> #[trigger] after@[i] == before@[i],
        after.waiters() == waiting_elsewhere(before.waiters(), index),
    ensures
        after.nobody_waits_in_vain(),
{
    assert forall|i: int| 0 <= i < after.waiters().len() implies (#[trigger] after.waiters()[i]).0
        < after@.len() && !after@[after.waiters()[i].0 as int].settled() by {
        lemma_elsewhere_is_elsewhere(before.waiters(), index, i);
        let k = choose|k: int|
            0 <= k < before.waiters().len() && before.waiters()[k] == after.waiters()[i];
        assert(before.waiters()[k].0 < before@.len());
    }
}

/// A slot that is written has settled and hands out its value, and the others are as they were.
pub proof fn law_a_written_value_is_read<O>(
    slots: &mut Slots<O>,
    index: usize,
    value: O,
    woken: Vec<u64>,
    other: usize,
    settled: bool,
    read: Option<&O>,
)
    requires
        index < old(slots)@.len(),
        other < old(slots)@.len(),
        call_ensures(Slots::<O>::fill, (slots, index, value), woken),
        call_ensures(Slots::<O>::is_settled, (final(slots), index), settled),
        call_ensures(Slots::<O>::get, (final(slots), index), read),
    ensures
        settled,
        read == Some(&value),
        other != index ==> final(slots)@[other as int] == old(slots)@[other as int],
        final(slots)@.len() == old(slots)@.len(),
{
}

/// A slot that failed has settled and has no value.
pub proof fn law_a_failed_slot_has_no_value<O>(
    slots: &mut Slots<O>,
    index: usize,
    woken: Vec<u64>,
    settled: bool,
    read: Option<&O>,
)
    requires
        index < old(slots)@.len(),
        call_ensures(Slots::<O>::fail, (slots, index), woken),
        call_ensures(Slots::<O>::is_settled, (final(slots), index), settled),
        call_ensures(Slots::<O>::get, (final(slots), index), read),
    ensures
        settled,
        read is None,
{
}

/// An item is claimed once: a slot that was claimed is running, has not settled, has no value, and
/// cannot be claimed again.
pub proof fn law_an_item_is_claimed_once<O>(
    slots: &mut Slots<O>,
    later: &mut Slots<O>,
    index: usize,
    claimed: bool,
    again: bool,
    running: bool,
    settled: bool,
    read: Option<&O>,
)
    requires
        index < old(slots)@.len(),
        *old(later) == *final(slots),
        call_ensures(Slots::<O>::claim, (slots, index), claimed),
        claimed,
        call_ensures(Slots::<O>::is_running, (final(slots), index), running),
        call_ensures(Slots::<O>::is_settled, (final(slots), index), settled),
        call_ensures(Slots::<O>::get, (final(slots), index), read),
        call_ensures(Slots::<O>::claim, (later, index), again),
    ensures
        running,
        !settled,
        read is None,
        !again,
{
}

/// Each waiter more is woken behind the others if it waits for the slot, and goes on waiting behind
/// the others if not.
pub proof fn law_waiters_are_woken_in_order(
    waiters: Seq<(usize, u64)>,
    w: (usize, u64),
    index: usize,
)
    ensures
        wakers_for(Seq::empty(), index) == Seq::<u64>::empty(),
        waiting_elsewhere(Seq::empty(), index) == Seq::<(usize, u64)>::empty(),
        w.0 == index ==> wakers_for(waiters.push(w), index) == wakers_for(waiters, index).push(w.1)
            && waiting_elsewhere(waiters.push(w), index) == waiting_elsewhere(waiters, index),
        w.0 != index ==> wakers_for(waiters.push(w), index) == wakers_for(waiters, index)
            && waiting_elsewhere(waiters.push(w), index) == waiting_elsewhere(
            waiters,
            index,
        ).push(w),
{
    reveal(Seq::filter);
    assert(waiters.push(w).drop_last() =~= waiters);
    assert(wakers_for(Seq::empty(), index) =~= Seq::<u64>::empty());
    if w.0 == index {
        assert(wakers_for(waiters.push(w), index) =~= wakers_for(waiters, index).push(w.1));
    }
}

} // verus!
