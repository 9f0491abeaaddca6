//! Stages: a function over frozen input, applied per index, each item's output written once into
//! its own slot.

use vstd::prelude::*;

use crate::sync::slots::Slot;
use crate::sync::slots::Slots;

verus! {

/// One stage in a scope of its own: `f(&input, i)` for every `i` in `0..len`, and every output, in
/// index order.
pub fn run_stage<In, O, F: Fn(&In, usize) -> O>(input: In, len: usize, f: F) -> (out: Vec<O>)
    requires
        forall|i: usize| i < len ==> call_requires(f, (&input, i)),
    ensures
        out@.len() == len,
        forall|i: usize|
            i < len ==> call_ensures(f, (&input, i), #[trigger] out@[i as int]),
{
    let mut out: Vec<O> = Vec::new();
    let mut index: usize = 0;
    while index < len
        invariant
            index <= len,
            out@.len() == index,
            forall|i: usize| i < len ==> call_requires(f, (&input, i)),
            forall|i: usize|
                i < index ==> call_ensures(f, (&input, i), #[trigger] out@[i as int]),
        decreases len - index,
    {
        out.push(f(&input, index));
        index += 1;
    }
    out
}

/// `run_stage`, with `weight(&input, i)` the expected cost of item `i` in nanoseconds. Run
/// serially, a stage never asks for a weight.
pub fn run_stage_weighted<In, O, W: Fn(&In, usize) -> u32, F: Fn(&In, usize) -> O>(
    input: In,
    len: usize,
    weight: W,
    f: F,
) -> (out: Vec<O>)
    requires
        forall|i: usize| i < len ==> call_requires(f, (&input, i)),
    ensures
        out@.len() == len,
        forall|i: usize|
            i < len ==> call_ensures(f, (&input, i), #[trigger] out@[i as int]),
{
    run_stage(input, len, f)
}

/// The slots hold what `f` gave for every index.
pub open spec fn filled_by<In, O, F: Fn(&In, usize) -> O>(
    slots: Seq<Slot<O>>,
    input: In,
    f: F,
) -> bool {
    forall|i: usize|
        i < slots.len() ==> (#[trigger] slots[i as int]) is Ready && call_ensures(
            f,
            (&input, i),
            slots[i as int]->Ready_0,
        )
}

/// Runs `f` for every index of `slots`, in order, and writes each output into its slot.
fn fill_serially<In, O, F: Fn(&In, usize) -> O>(slots: &mut Slots<O>, input: &In, f: &F)
    requires
        forall|i: usize| i < old(slots)@.len() ==> call_requires(*f, (input, i)),
        forall|i: int| 0 <= i < old(slots)@.len() ==> #[trigger] old(slots)@[i] is Unclaimed,
        old(slots).waiters().len() == 0,
    ensures
        final(slots)@.len() == old(slots)@.len(),
        filled_by(final(slots)@, *input, *f),
        final(slots).waiters().len() == 0,
{
    let len: usize = slots.len();
    let mut index: usize = 0;
    while index < len
        invariant
            index <= len,
            len == old(slots)@.len(),
            slots@.len() == len,
            slots.waiters().len() == 0,
            forall|i: usize| i < len ==> call_requires(*f, (input, i)),
            forall|i: int| index <= i < len ==> #[trigger] slots@[i] is Unclaimed,
            forall|i: usize|
                i < index ==> (#[trigger] slots@[i as int]) is Ready && call_ensures(
                    *f,
                    (input, i),
                    slots@[i as int]->Ready_0,
                ),
        decreases len - index,
    {
        let value = f(input, index);
        let ghost before = slots@;
        let claimed = slots.claim(index);
        let _ = slots.fill(index, value);
        proof {
            reveal(Seq::filter);
            assert(slots@ =~= before.update(index as int, Slot::Ready(value)));
        }
        index += 1;
    }
}

/// A scope in which stages run one after another, each in index order, when they are started.
pub struct StageScope {
    /// How many stages have been started.
    next_seq: u32,
}

/// A scope to start stages in.
pub fn stages() -> (scope: StageScope)
    ensures
        scope.started() == 0,
{
    StageScope { next_seq: 0 }
}

impl StageScope {
    /// How many stages have been started; it stops counting at the largest number.
    pub closed spec fn started(&self) -> u32 {
        self.next_seq
    }

    /// Starts a stage: `f(&input, i)` for every `i` in `0..len`, each output in its own slot.
    pub fn stage<In, O, F: Fn(&In, usize) -> O>(
        &mut self,
        input: In,
        len: usize,
        f: F,
    ) -> (slots: Slots<O>)
        requires
            forall|i: usize| i < len ==> call_requires(f, (&input, i)),
        ensures
            slots@.len() == len,
            filled_by(slots@, input, f),
            final(self).started() == next_number(old(self).started()),
    {
        self.count();
        let mut slots = Slots::with_len(len);
        fill_serially(&mut slots, &input, &f);
        slots
    }

    /// `stage`, with `weight(&input, i)` the expected cost of item `i`, which is not asked for.
    pub fn stage_weighted<In, O, W: Fn(&In, usize) -> u32, F: Fn(&In, usize) -> O>(
        &mut self,
        input: In,
        len: usize,
        weight: W,
        f: F,
    ) -> (slots: Slots<O>)
        requires
            forall|i: usize| i < len ==> call_requires(f, (&input, i)),
        ensures
            slots@.len() == len,
            filled_by(slots@, input, f),
            final(self).started() == next_number(old(self).started()),
    {
        self.stage(input, len, f)
    }

    /// Starts a stage chained to `upstream`, which has one item per item of it. Nothing runs here:
    /// the whole stage runs, in order, when it is released.
    pub fn stage_then<In, O, F: Fn(&In, usize) -> O>(
        &mut self,
        upstream: &Slots<bool>,
        input: In,
        len: usize,
        f: F,
    ) -> (chain: Chain<In, O, F>)
        requires
            upstream@.len() == len,
        ensures
            chain.wf(),
            chain.item_count() == len,
            chain.input() == input,
            chain.function() == f,
            final(self).started() == next_number(old(self).started()),
    {
        self.count();
        Chain { slots: Slots::with_len(len), serial: (input, f) }
    }

    fn count(&mut self)
        ensures
            final(self).started() == next_number(old(self).started()),
    {
        if self.next_seq < u32::MAX {
            self.next_seq = self.next_seq + 1;
        }
    }
}

/// The number after `n`, up to the largest.
pub open spec fn next_number(n: u32) -> int {
    if n < u32::MAX {
        n + 1
    } else {
        n as int
    }
}

/// A stage chained to another, until it is released.
pub struct Chain<In, O, F> {
    slots: Slots<O>,
    serial: (In, F),
}

impl<In, O, F: Fn(&In, usize) -> O> Chain<In, O, F> {
    pub closed spec fn item_count(&self) -> nat {
        self.slots@.len()
    }

    pub closed spec fn input(&self) -> In {
        self.serial.0
    }

    pub closed spec fn function(&self) -> F {
        self.serial.1
    }

    /// No item has run.
    pub closed spec fn wf(&self) -> bool {
        &&& forall|i: int| 0 <= i < self.slots@.len() ==> #[trigger] self.slots@[i] is Unclaimed
        &&& self.slots.waiters().len() == 0
    }

    /// Runs the whole stage, in index order, and hands back its slots.
    pub fn release(self) -> (slots: Slots<O>)
        requires
            self.wf(),
            forall|i: usize|
                i < self.item_count() ==> call_requires(self.function(), (&self.input(), i)),
        ensures
            slots@.len() == self.item_count(),
            filled_by(slots@, self.input(), self.function()),
    {
        let ghost whole = self;
        let (input, f) = self.serial;
        let mut slots = self.slots;
        assert(whole.function() == f && whole.input() == input);
        fill_serially(&mut slots, &input, &f);
        slots
    }
}

} // verus!
