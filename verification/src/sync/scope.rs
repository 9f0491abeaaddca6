//! One parallel scope: the stages its owner started, who may take which item next, and what the
//! scope raises when it ends.
//!
//! The threads that run items hold the scope one at a time; each call here is one step of one
//! thread. An item's function, the clock and the pool stay with the caller.

use vstd::prelude::*;

use crate::sync::plan::affordable_helpers;
use crate::sync::plan::helpers_for;
use crate::sync::plan::thread_limit;
use crate::sync::plan::threads_for;
use crate::sync::plan::Plan;
use crate::sync::slots::waiting_elsewhere;
use crate::sync::slots::wakers_for;
use crate::sync::slots::Slot;
use crate::sync::slots::Slots;

verus! {

/// What a chained stage's items wait for: their upstream item, and either its `true` or the
/// stage's release.
#[derive(Clone, Copy)]
pub struct Gate {
    pub upstream: usize,
    pub released: bool,
}

/// One stage of a scope. A slot's value is whether the item lets the chained stage's item of the
/// same index start at once.
pub struct Stage {
    pub plan: Plan,
    /// The first chunk nobody has reserved.
    pub cursor: usize,
    pub slots: Slots<bool>,
    /// The stage whose item `i` runs right after this one's item `i` settles.
    pub follower: Option<usize>,
    /// For a chained stage: what its items wait for.
    pub gate: Option<Gate>,
}

impl Stage {
    pub open spec fn wf(&self) -> bool {
        &&& self.plan.wf()
        &&& self.slots@.len() == self.plan.item_count()
        &&& self.cursor <= self.plan.chunk_count()
    }

    /// A chained stage that has not been released hands out no chunks.
    pub open spec fn is_held(&self) -> bool {
        self.gate is Some && !self.gate->0.released
    }

    pub open spec fn spec_unreserved_chunks(&self) -> nat {
        if self.is_held() {
            0
        } else {
            (self.plan.chunk_count() - self.cursor) as nat
        }
    }

    pub open spec fn spec_unreserved_weight(&self) -> nat {
        if self.is_held() {
            0
        } else {
            self.plan.weight_after(self.cursor as int) as nat
        }
    }

    /// A stage that nobody has taken anything from.
    pub fn new(plan: Plan, upstream: Option<usize>) -> (stage: Stage)
        requires
            plan.wf(),
        ensures
            stage.wf(),
            stage.plan == plan,
            stage.cursor == 0,
            stage.slots@ == Seq::new(plan.item_count(), |i: int| Slot::<bool>::Unclaimed),
            stage.follower is None,
            stage.gate == (match upstream {
                Some(upstream) => Some((Gate { upstream, released: false })),
                None => None::<Gate>,
            }),
    {
        let slots = Slots::with_len(plan.len());
        let gate = match upstream {
            Some(upstream) => Some(Gate { upstream, released: false }),
            None => None,
        };
        Stage { plan, cursor: 0, slots, follower: None, gate }
    }

    pub fn held(&self) -> (yes: bool)
        ensures
            yes == self.is_held(),
    {
        match self.gate {
            Some(gate) => !gate.released,
            None => false,
        }
    }

    /// Reserves the next chunk that nobody has reserved, in index order, or answers `None` once
    /// every chunk is. A reservation claims no item.
    pub fn reserve(&mut self) -> (chunk: Option<(usize, usize)>)
        requires
            old(self).wf(),
        ensures
            final(self).wf(),
            chunk is Some <==> !old(self).is_held() && old(self).cursor
                < old(self).plan.chunk_count(),
            chunk matches Some(range) ==> {
                &&& range == (
                    old(self).plan.starts()[old(self).cursor as int],
                    old(self).plan.starts()[old(self).cursor + 1],
                )
                &&& range.0 < range.1 <= old(self).plan.item_count()
            },
            *final(self) == (Stage {
                cursor: (old(self).cursor + (if chunk is Some {
                    1int
                } else {
                    0
                })) as usize,
                ..*old(self)
            }),
    {
        if self.held() {
            return None;
        }
        let chunk: usize = self.cursor;
        if chunk >= self.plan.chunks() {
            return None;
        }
        self.cursor = chunk + 1;
        Some(self.plan.chunk(chunk))
    }

    pub fn unreserved_chunks(&self) -> (n: usize)
        requires
            self.wf(),
        ensures
            n == self.spec_unreserved_chunks(),
    {
        if self.held() {
            0
        } else {
            self.plan.chunks() - self.cursor
        }
    }

    pub fn unreserved_weight(&self) -> (w: u64)
        requires
            self.wf(),
        ensures
            w == self.spec_unreserved_weight(),
    {
        if self.held() {
            0
        } else {
            self.plan.weight_from(self.cursor)
        }
    }
}

/// An item's place in the serial order: its stage's number, then its index. An index past
/// `u32::MAX` counts as `u32::MAX`.
pub open spec fn order_of(seq: int, index: int) -> int {
    seq * 0x1_0000_0000 + (if index < u32::MAX {
        index
    } else {
        u32::MAX as int
    })
}

pub fn serial_order(seq: u32, index: usize) -> (order: u64)
    ensures
        order == order_of(seq as int, index as int),
{
    let low: u64 = if (index as u64) < u32::MAX as u64 {
        index as u64
    } else {
        u32::MAX as u64
    };
    (seq as u64) * 0x1_0000_0000 + low
}

/// The serial order is stage by stage, and within a stage index by index.
pub proof fn law_serial_order(s1: u32, i1: u32, s2: u32, i2: u32)
    ensures
        order_of(s1 as int, i1 as int) < order_of(s2 as int, i2 as int) <==> s1 < s2 || (s1 == s2
            && i1 < i2),
{
}

/// A caught panic, and its place in the serial order. The payload is known by a number.
#[derive(Clone, Copy)]
pub struct Caught {
    pub order: u64,
    pub payload: u64,
}

/// A run of one stage's indices, `lo..hi`, that a thread goes through in order.
#[derive(Clone, Copy)]
pub struct Batch {
    pub stage: usize,
    pub lo: usize,
    pub hi: usize,
}

/// What a scope's owner and its helpers share.
pub struct ScopeShared {
    /// The stages started so far. A stage's number is its place here.
    pub stages: Vec<Stage>,
    /// The chunk the owner reserved for itself before waking anybody.
    pub owner_first: Option<Batch>,
    /// Set when the scope ends. A helper that sees it touches nothing.
    pub closed: bool,
    /// Helpers between arriving and leaving.
    pub active: usize,
    /// No item after this one in serial order starts. `u64::MAX` until something raises.
    pub cutoff: u64,
    /// The first item, in serial order, that ended in a fatal error.
    pub stop: u64,
    /// The first item, in serial order, that panicked.
    pub panic: Option<Caught>,
    /// How many threads the session asked for: the owner and at most `width - 1` helpers.
    pub width: usize,
    /// How many threads may take this scope's items at once, the owner included.
    pub threads: usize,
}

/// The chunks that nobody has reserved, over all stages.
pub open spec fn all_unreserved_chunks(stages: Seq<Stage>) -> nat
    decreases stages.len(),
{
    if stages.len() == 0 {
        0
    } else {
        all_unreserved_chunks(stages.drop_last()) + stages.last().spec_unreserved_chunks()
    }
}

/// The weight of the chunks that nobody has reserved, over all stages.
pub open spec fn all_unreserved_weight(stages: Seq<Stage>) -> nat
    decreases stages.len(),
{
    if stages.len() == 0 {
        0
    } else {
        all_unreserved_weight(stages.drop_last()) + stages.last().spec_unreserved_weight()
    }
}

/// The chunks of all stages.
pub open spec fn all_chunks(stages: Seq<Stage>) -> nat
    decreases stages.len(),
{
    if stages.len() == 0 {
        0
    } else {
        all_chunks(stages.drop_last()) + stages.last().plan.chunk_count()
    }
}

/// The weight of all stages.
pub open spec fn all_weight(stages: Seq<Stage>) -> nat
    decreases stages.len(),
{
    if stages.len() == 0 {
        0
    } else {
        all_weight(stages.drop_last()) + stages.last().plan.whole_weight()
    }
}

/// A chained stage comes after its upstream and has one item per upstream item.
pub open spec fn gate_fits(stages: Seq<Stage>, s: int) -> bool {
    match stages[s].gate {
        Some(gate) => gate.upstream < s && stages[gate.upstream as int].slots@.len()
            == stages[s].slots@.len(),
        None => true,
    }
}

/// A stage's follower is a later stage that is chained to it.
pub open spec fn follower_fits(stages: Seq<Stage>, s: int) -> bool {
    match stages[s].follower {
        Some(next) => {
            &&& s < next < stages.len()
            &&& stages[next as int].gate is Some
            &&& stages[next as int].gate->0.upstream == s
        },
        None => true,
    }
}

impl ScopeShared {
    pub open spec fn wf(&self) -> bool {
        &&& self.width >= 1
        &&& self.stages@.len() <= u32::MAX
        &&& all_chunks(self.stages@) <= usize::MAX
        &&& all_weight(self.stages@) <= u64::MAX
        &&& forall|s: int| 0 <= s < self.stages@.len() ==> (#[trigger] self.stages@[s]).wf()
        &&& forall|s: int| 0 <= s < self.stages@.len() ==> #[trigger] gate_fits(self.stages@, s)
        &&& forall|s: int| 0 <= s < self.stages@.len() ==> #[trigger] follower_fits(self.stages@, s)
        &&& self.owner_first matches Some(batch) ==> batch.stage < self.stages@.len() && batch.lo
            <= batch.hi <= self.stages@[batch.stage as int].slots@.len()
    }

    /// The scope of a session of `width` threads on a pool of `workers`.
    pub fn new(width: usize, workers: usize) -> (scope: ScopeShared)
        requires
            width >= 1,
        ensures
            scope.wf(),
            scope.stages@.len() == 0,
            scope.owner_first is None,
            !scope.closed,
            scope.active == 0,
            scope.cutoff == u64::MAX,
            scope.stop == u64::MAX,
            scope.panic is None,
            scope.outcome() == catch_all(Seq::empty()),
            scope.missing_is_cut_off(),
            scope.width == width,
            scope.threads == thread_limit(width as int, workers as int),
    {
        ScopeShared {
            stages: Vec::new(),
            owner_first: None,
            closed: false,
            active: 0,
            cutoff: u64::MAX,
            stop: u64::MAX,
            panic: None,
            width,
            threads: threads_for(width, workers),
        }
    }
}

/// Two lists of stages with the same plans have the same chunks and the same weight.
proof fn lemma_sums_depend_on_plans(a: Seq<Stage>, b: Seq<Stage>)
    requires
        a.len() == b.len(),
        forall|s: int| 0 <= s < a.len() ==> (#[trigger] a[s]).plan == b[s].plan,
    ensures
        all_chunks(a) == all_chunks(b),
        all_weight(a) == all_weight(b),
    decreases a.len(),
{
    if a.len() > 0 {
        assert(a[a.len() - 1].plan == b[b.len() - 1].plan);
        assert forall|s: int| 0 <= s < a.drop_last().len() implies (#[trigger] a.drop_last()[s]).plan
            == b.drop_last()[s].plan by {
            assert(a[s].plan == b[s].plan);
        }
        lemma_sums_depend_on_plans(a.drop_last(), b.drop_last());
    }
}

/// What nobody has reserved is part of the whole.
proof fn lemma_unreserved_is_bounded(stages: Seq<Stage>)
    requires
        forall|s: int| 0 <= s < stages.len() ==> (#[trigger] stages[s]).wf(),
    ensures
        all_unreserved_chunks(stages) <= all_chunks(stages),
        all_unreserved_weight(stages) <= all_weight(stages),
    decreases stages.len(),
{
    if stages.len() > 0 {
        assert(stages[stages.len() - 1].wf());
        assert forall|s: int| 0 <= s < stages.drop_last().len() implies (
        #[trigger] stages.drop_last()[s]).wf() by {
            assert(stages[s].wf());
        }
        lemma_unreserved_is_bounded(stages.drop_last());
        let last = stages.last();
        assert(last.plan.weight_after(last.cursor as int) <= last.plan.whole_weight());
        if last.cursor < last.plan.chunk_count() {
            assert(last.plan.before()[last.cursor as int] <= last.plan.before().last());
        }
    }
}

/// The helpers that `chunks` unreserved chunks of `weight` measured work pay for, capped by the
/// session's width and the pool.
pub open spec fn wanted_helpers(chunks: nat, weight: nat, width: int, workers: int) -> int {
    let paid = affordable_helpers(chunks, weight) as int;
    let capped = if paid < width - 1 {
        paid
    } else {
        width - 1
    };
    if capped < workers {
        capped
    } else {
        workers
    }
}

/// How many helpers to submit so that `wanted` are in the scope.
pub open spec fn shortfall(wanted: int, present: int) -> int {
    if wanted > present {
        wanted - present
    } else {
        0
    }
}

impl ScopeShared {
    /// The chunks and the weight that nobody has reserved, over all stages.
    fn unreserved(&self) -> (sums: (usize, u64))
        requires
            self.wf(),
        ensures
            sums.0 == all_unreserved_chunks(self.stages@),
            sums.1 == all_unreserved_weight(self.stages@),
    {
        let mut chunks: usize = 0;
        let mut weight: u64 = 0;
        let mut i: usize = 0;
        while i < self.stages.len()
            invariant
                self.wf(),
                i <= self.stages@.len(),
                chunks == all_unreserved_chunks(self.stages@.take(i as int)),
                weight == all_unreserved_weight(self.stages@.take(i as int)),
            decreases self.stages@.len() - i,
        {
            proof {
                let next = self.stages@.take(i + 1);
                assert(next.drop_last() =~= self.stages@.take(i as int));
                lemma_prefix_is_bounded(self.stages@, i + 1);
                assert forall|s: int| 0 <= s < next.len() implies (#[trigger] next[s]).wf() by {
                    assert(self.stages@[s].wf());
                }
                lemma_unreserved_is_bounded(next);
            }
            assert(self.stages@[i as int].wf());
            chunks = chunks + self.stages[i].unreserved_chunks();
            weight = weight + self.stages[i].unreserved_weight();
            i += 1;
        }
        assert(self.stages@.take(i as int) =~= self.stages@);
        (chunks, weight)
    }

    /// The chunks that nobody has reserved.
    pub fn unreserved_chunks(&self) -> (n: usize)
        requires
            self.wf(),
        ensures
            n == all_unreserved_chunks(self.stages@),
    {
        self.unreserved().0
    }

    /// The helpers that `chunks` unreserved chunks of `weight_ns` measured work pay for.
    pub fn wanted(&self, chunks: usize, weight_ns: u64, workers: usize) -> (n: usize)
        requires
            self.width >= 1,
        ensures
            n == wanted_helpers(
                chunks as nat,
                weight_ns as nat,
                self.width as int,
                workers as int,
            ),
    {
        let paid: usize = helpers_for(chunks, weight_ns);
        let capped: usize = if paid < self.width - 1 {
            paid
        } else {
            self.width - 1
        };
        if capped < workers {
            capped
        } else {
            workers
        }
    }

    /// How many helpers to submit so that `wanted` are in the scope. Helpers already in it pick
    /// up new work when they finish their chunk.
    pub fn wake(&self, wanted: usize) -> (n: usize)
        ensures
            n == shortfall(wanted as int, self.active as int),
    {
        if wanted > self.active {
            wanted - self.active
        } else {
            0
        }
    }

    /// The owner has run `done` weight of this scope's chunks in `spent_ns`: how many helpers to
    /// submit for the rest at that rate.
    pub fn wake_measured(&self, done: u64, spent_ns: u64, workers: usize) -> (n: usize)
        requires
            self.wf(),
        ensures
            n == (if all_unreserved_chunks(self.stages@) == 0 {
                0
            } else {
                shortfall(
                    wanted_helpers(
                        all_unreserved_chunks(self.stages@),
                        in_ns(all_unreserved_weight(self.stages@), spent_ns as nat, done as nat),
                        self.width as int,
                        workers as int,
                    ),
                    self.active as int,
                )
            }),
    {
        let (chunks, weight) = self.unreserved();
        if chunks == 0 {
            return 0;
        }
        let rest_ns: u64 = measured_ns(weight, spent_ns, done);
        self.wake(self.wanted(chunks, rest_ns, workers))
    }
}

/// `weight` in nanoseconds, at the rate of `done` weight in `spent`: at most what a `u64` holds.
pub open spec fn in_ns(weight: nat, spent: nat, done: nat) -> nat {
    let ns = weight * spent / (if done == 0 {
        1
    } else {
        done
    });
    if ns > u64::MAX {
        u64::MAX as nat
    } else {
        ns
    }
}

pub fn measured_ns(weight: u64, spent: u64, done: u64) -> (ns: u64)
    ensures
        ns == in_ns(weight as nat, spent as nat, done as nat),
{
    proof {
        let w: int = weight as int;
        let t: int = spent as int;
        assert(0 <= w * t <= 0xffff_ffff_ffff_ffff * 0xffff_ffff_ffff_ffff) by (nonlinear_arith)
            requires
                0 <= w <= 0xffff_ffff_ffff_ffff,
                0 <= t <= 0xffff_ffff_ffff_ffff,
        ;
    }
    let by: u128 = if done == 0 {
        1
    } else {
        done as u128
    };
    let ns: u128 = (weight as u128) * (spent as u128) / by;
    if ns > u64::MAX as u128 {
        u64::MAX
    } else {
        ns as u64
    }
}

proof fn lemma_prefix_is_bounded(stages: Seq<Stage>, n: int)
    requires
        0 <= n <= stages.len(),
    ensures
        all_chunks(stages.take(n)) <= all_chunks(stages),
        all_weight(stages.take(n)) <= all_weight(stages),
    decreases stages.len() - n,
{
    if n < stages.len() {
        lemma_prefix_is_bounded(stages, n + 1);
        assert(stages.take(n + 1).drop_last() =~= stages.take(n));
    } else {
        assert(stages.take(n) =~= stages);
    }
}

/// `b` are the stages `a` later: some chunks reserved, some items taken, some stages released.
pub open spec fn same_shape(a: Seq<Stage>, b: Seq<Stage>) -> bool {
    &&& a.len() == b.len()
    &&& forall|s: int|
        0 <= s < a.len() ==> {
            &&& (#[trigger] b[s]).wf()
            &&& b[s].plan == a[s].plan
            &&& b[s].slots@.len() == a[s].slots@.len()
            &&& b[s].follower == a[s].follower
            &&& b[s].gate is Some == a[s].gate is Some
            &&& b[s].gate is Some ==> b[s].gate->0.upstream == a[s].gate->0.upstream
        }
}

proof fn lemma_shape_keeps_wf(a: ScopeShared, b: ScopeShared)
    requires
        a.wf(),
        same_shape(a.stages@, b.stages@),
        b.width == a.width,
        b.owner_first == a.owner_first || b.owner_first is None,
    ensures
        b.wf(),
{
    assert forall|s: int| 0 <= s < a.stages@.len() implies (#[trigger] a.stages@[s]).plan
        == b.stages@[s].plan by {
        assert(b.stages@[s].wf());
    }
    lemma_sums_depend_on_plans(a.stages@, b.stages@);
    assert forall|s: int| 0 <= s < b.stages@.len() implies #[trigger] gate_fits(b.stages@, s) by {
        assert(gate_fits(a.stages@, s));
        assert(b.stages@[s].wf());
        if b.stages@[s].gate is Some {
            assert(b.stages@[b.stages@[s].gate->0.upstream as int].wf());
        }
    }
    assert forall|s: int| 0 <= s < b.stages@.len() implies #[trigger] follower_fits(
        b.stages@,
        s,
    ) by {
        assert(follower_fits(a.stages@, s));
        assert(b.stages@[s].wf());
        if b.stages@[s].follower is Some {
            assert(b.stages@[b.stages@[s].follower->0 as int].wf());
        }
    }
    if b.owner_first is Some {
        assert(b.stages@[b.owner_first->0.stage as int].wf());
    }
}

/// Stage `s` has no chunk to hand out.
pub open spec fn exhausted(stages: Seq<Stage>, s: int) -> bool {
    stages[s].is_held() || stages[s].cursor == stages[s].plan.chunk_count()
}

impl ScopeShared {
    /// Everything but the stages is as in `other`.
    pub open spec fn same_but_stages(&self, other: &ScopeShared) -> bool {
        &&& self.owner_first == other.owner_first
        &&& self.closed == other.closed
        &&& self.active == other.active
        &&& self.cutoff == other.cutoff
        &&& self.stop == other.stop
        &&& self.panic == other.panic
        &&& self.width == other.width
        &&& self.threads == other.threads
    }

    /// The next unreserved chunk of any stage, earliest stage first, reserved for this thread.
    ///
    /// `from` is where the thread looks first, and moves past every stage that has nothing to
    /// hand out.
    pub fn next_chunk(&mut self, from: &mut usize) -> (batch: Option<Batch>)
        requires
            old(self).wf(),
        ensures
            final(self).wf(),
            final(self).same_but_stages(old(self)),
            *old(from) <= *final(from),
            *final(from) <= old(self).stages@.len() || *final(from) == *old(from),
            forall|s: int|
                *old(from) <= s < *final(from) ==> #[trigger] exhausted(old(self).stages@, s),
            match batch {
                Some(batch) => {
                    let s = batch.stage as int;
                    let stage = old(self).stages@[s];
                    &&& s == *final(from)
                    &&& s < old(self).stages@.len()
                    &&& !exhausted(old(self).stages@, s)
                    &&& batch.lo == stage.plan.starts()[stage.cursor as int]
                    &&& batch.hi == stage.plan.starts()[stage.cursor + 1]
                    &&& batch.lo < batch.hi <= stage.slots@.len()
                    &&& final(self).stages@ == old(self).stages@.update(
                        s,
                        (Stage { cursor: (stage.cursor + 1) as usize, ..stage }),
                    )
                },
                None => {
                    &&& *final(from) >= old(self).stages@.len()
                    &&& final(self).stages@ == old(self).stages@
                },
            },
    {
        while *from < self.stages.len()
            invariant
                self.wf(),
                self.stages@ == old(self).stages@,
                self.same_but_stages(old(self)),
                *old(from) <= *from,
                *from <= old(self).stages@.len() || *from == *old(from),
                forall|s: int|
                    *old(from) <= s < *from ==> #[trigger] exhausted(old(self).stages@, s),
            decreases self.stages@.len() - *from,
        {
            let at: usize = *from;
            assert(self.stages@[at as int].wf());
            let ghost before = *self;
            let chunk = self.stages[at].reserve();
            match chunk {
                Some((lo, hi)) => {
                    proof {
                        assert forall|s: int| 0 <= s < self.stages@.len() implies {
                            &&& (#[trigger] self.stages@[s]).wf()
                            &&& self.stages@[s].plan == before.stages@[s].plan
                        } by {
                            assert(before.stages@[s].wf());
                        }
                        lemma_shape_keeps_wf(before, *self);
                    }
                    return Some(Batch { stage: at, lo, hi });
                },
                None => {
                    assert(exhausted(old(self).stages@, at as int));
                    assert(self.stages@ =~= before.stages@);
                    *from = at + 1;
                },
            }
        }
        None
    }

    /// The next stage to sweep, whole, for items that another thread reserved and has not reached.
    pub fn next_sweep(&self, from: &mut usize) -> (batch: Option<Batch>)
        requires
            self.wf(),
        ensures
            *old(from) < self.stages@.len() ==> {
                &&& batch == Some(
                    (Batch {
                        stage: *old(from),
                        lo: 0,
                        hi: self.stages@[*old(from) as int].slots@.len() as usize,
                    }),
                )
                &&& *final(from) == *old(from) + 1
            },
            *old(from) >= self.stages@.len() ==> batch is None && *final(from) == *old(from),
    {
        let at: usize = *from;
        if at < self.stages.len() {
            *from = at + 1;
            Some(Batch { stage: at, lo: 0, hi: self.stages[at].slots.len() })
        } else {
            None
        }
    }
}

/// Item `index` of stage `s` may start: its upstream item, if it has one, has settled and either
/// said so or the stage was released.
pub open spec fn item_ready(stages: Seq<Stage>, s: int, index: int) -> bool {
    match stages[s].gate {
        None => true,
        Some(gate) => {
            let upstream = stages[gate.upstream as int].slots@[index];
            &&& upstream.settled()
            &&& gate.released || upstream != Slot::Ready(false)
        },
    }
}

/// Who waits for slots once slot `index` holds `slot`: nobody waits for it any more if it has
/// settled.
pub open spec fn still_waiting(
    waiters: Seq<(usize, u64)>,
    index: int,
    slot: Slot<bool>,
) -> Seq<(usize, u64)> {
    if slot.settled() {
        waiting_elsewhere(waiters, index as usize)
    } else {
        waiters
    }
}

/// `b` are the stages with slot `index` of stage `s` set to `slot`. Whoever waits for another slot
/// goes on waiting.
pub open spec fn with_slot(
    stages: Seq<Stage>,
    s: int,
    index: int,
    slot: Slot<bool>,
    b: Seq<Stage>,
) -> bool {
    &&& same_shape(stages, b)
    &&& b[s].slots@ == stages[s].slots@.update(index, slot)
    &&& b[s].slots.waiters() == still_waiting(stages[s].slots.waiters(), index, slot)
    &&& b[s].cursor == stages[s].cursor
    &&& b[s].gate == stages[s].gate
    &&& forall|t: int| 0 <= t < stages.len() && t != s ==> #[trigger] b[t] == stages[t]
}

/// What has settled in `a` is as it was in `b`.
pub open spec fn keeps_settled(a: Seq<Stage>, b: Seq<Stage>) -> bool {
    &&& a.len() <= b.len()
    &&& forall|s: int| 0 <= s < a.len() ==> (#[trigger] b[s]).slots@.len() == a[s].slots@.len()
    &&& forall|s: int, i: int|
        0 <= s < a.len() && 0 <= i < a[s].slots@.len() && (
        #[trigger] a[s].slots@[i]).settled() ==> b[s].slots@[i] == a[s].slots@[i]
}

/// An item that settles changes nothing about those that have settled.
pub proof fn law_a_settled_item_stays_settled(
    a: Seq<Stage>,
    s: int,
    index: int,
    slot: Slot<bool>,
    b: Seq<Stage>,
)
    requires
        0 <= s < a.len(),
        0 <= index < a[s].slots@.len(),
        !a[s].slots@[index].settled(),
        with_slot(a, s, index, slot, b),
    ensures
        keeps_settled(a, b),
{
    assert forall|t: int, i: int|
        0 <= t < a.len() && 0 <= i < a[t].slots@.len() && (
        #[trigger] a[t].slots@[i]).settled() implies b[t].slots@[i] == a[t].slots@[i] by {
        if t != s {
            assert(b[t] == a[t]);
        }
    }
}

/// What the thread that claimed an item does with it.
pub enum Begin {
    /// The item waits for the item of the same index of this stage.
    WaitFor(usize),
    /// A serial run would not have reached the item: it has failed, unrun. The wakers to wake.
    CutOff(Vec<u64>),
    /// The item's function runs now.
    Run,
}

/// What is left to do once an item has settled.
pub struct Finished {
    /// Whoever waited for the item.
    pub woken: Vec<u64>,
    /// The chained stage whose item of the same index this thread has claimed and runs next.
    pub follow: Option<usize>,
}

impl ScopeShared {
    pub fn ready(&self, s: usize, index: usize) -> (yes: bool)
        requires
            self.wf(),
            s < self.stages@.len(),
            index < self.stages@[s as int].slots@.len(),
        ensures
            yes == item_ready(self.stages@, s as int, index as int),
    {
        assert(gate_fits(self.stages@, s as int));
        match self.stages[s].gate {
            None => true,
            Some(gate) => {
                let upstream = &self.stages[gate.upstream].slots;
                if !upstream.is_settled(index) {
                    return false;
                }
                gate.released || match upstream.get(index) {
                    Some(said) => *said,
                    None => true,
                }
            },
        }
    }

    /// Claims item `index` of stage `s`, if nobody has started it.
    pub fn claim(&mut self, s: usize, index: usize) -> (claimed: bool)
        requires
            old(self).wf(),
            s < old(self).stages@.len(),
            index < old(self).stages@[s as int].slots@.len(),
        ensures
            final(self).wf(),
            final(self).same_but_stages(old(self)),
            claimed == (old(self).stages@[s as int].slots@[index as int] is Unclaimed),
            claimed ==> with_slot(
                old(self).stages@,
                s as int,
                index as int,
                Slot::Running,
                final(self).stages@,
            ),
            !claimed ==> final(self).stages@ == old(self).stages@,
            keeps_settled(old(self).stages@, final(self).stages@),
            old(self).missing_is_cut_off() ==> final(self).missing_is_cut_off(),
    {
        let ghost before = *self;
        assert(before.stages@[s as int].wf());
        if !self.is_unclaimed(s, index) {
            return false;
        }
        let claimed = self.stages[s].slots.claim(index);
        proof {
            lemma_one_stage_changed(before.stages@, self.stages@, s as int);
            lemma_shape_keeps_wf(before, *self);
            lemma_slot_changed(before, *self, s as int, index as int, Slot::Running);
        }
        claimed
    }

    fn is_unclaimed(&self, s: usize, index: usize) -> (yes: bool)
        requires
            s < self.stages@.len(),
            index < self.stages@[s as int].slots@.len(),
        ensures
            yes == (self.stages@[s as int].slots@[index as int] is Unclaimed),
    {
        !self.stages[s].slots.is_settled(index) && !self.stages[s].slots.is_running(index)
    }
}

proof fn lemma_slot_changed(a: ScopeShared, b: ScopeShared, s: int, index: int, slot: Slot<bool>)
    requires
        0 <= s < a.stages@.len(),
        0 <= index < a.stages@[s].slots@.len(),
        !a.stages@[s].slots@[index].settled(),
        with_slot(a.stages@, s, index, slot, b.stages@),
        b.cutoff == a.cutoff,
    ensures
        keeps_settled(a.stages@, b.stages@),
        a.missing_is_cut_off() && (slot is Failed ==> order_of(s, index) >= a.cutoff)
            ==> b.missing_is_cut_off(),
{
    law_a_settled_item_stays_settled(a.stages@, s, index, slot, b.stages@);
    if a.missing_is_cut_off() && (slot is Failed ==> order_of(s, index) >= a.cutoff) {
        assert forall|t: int, i: int|
            0 <= t < b.stages@.len() && 0 <= i < b.stages@[t].slots@.len() && (
            #[trigger] b.stages@[t].slots@[i]) is Failed implies order_of(t, i) >= b.cutoff by {
            if t != s {
                assert(b.stages@[t] == a.stages@[t]);
            }
            if t != s || i != index {
                assert(a.stages@[t].slots@[i] is Failed);
            }
        }
    }
}

proof fn lemma_one_stage_changed(a: Seq<Stage>, b: Seq<Stage>, s: int)
    requires
        0 <= s < a.len(),
        a.len() == b.len(),
        forall|t: int| 0 <= t < a.len() ==> (#[trigger] a[t]).wf(),
        b[s].wf(),
        b[s].plan == a[s].plan,
        b[s].slots@.len() == a[s].slots@.len(),
        b[s].follower == a[s].follower,
        b[s].gate is Some == a[s].gate is Some,
        b[s].gate is Some ==> b[s].gate->0.upstream == a[s].gate->0.upstream,
        forall|t: int| 0 <= t < a.len() && t != s ==> #[trigger] b[t] == a[t],
    ensures
        same_shape(a, b),
{
    assert forall|t: int| 0 <= t < a.len() implies {
        &&& (#[trigger] b[t]).wf()
        &&& b[t].plan == a[t].plan
        &&& b[t].slots@.len() == a[t].slots@.len()
        &&& b[t].follower == a[t].follower
        &&& b[t].gate is Some == a[t].gate is Some
        &&& b[t].gate is Some ==> b[t].gate->0.upstream == a[t].gate->0.upstream
    } by {
        assert(a[t].wf());
    }
}

/// What a scope has caught so far.
pub struct Outcome {
    pub cutoff: int,
    pub stop: int,
    pub panic: Option<Caught>,
}

/// What an item, or a helper outside any item, raised.
pub enum Raised {
    Panic(Caught),
    Fatal(u64),
}

impl Raised {
    /// Where in the serial order it was raised.
    pub open spec fn order(self) -> u64 {
        match self {
            Raised::Panic(caught) => caught.order,
            Raised::Fatal(order) => order,
        }
    }
}

/// What is caught once `raised` has been caught too.
pub open spec fn catch_one(o: Outcome, raised: Raised) -> Outcome {
    let cutoff = if raised.order() < o.cutoff {
        raised.order() as int
    } else {
        o.cutoff
    };
    match raised {
        Raised::Panic(caught) => Outcome {
            cutoff,
            stop: o.stop,
            panic: if o.panic is None || caught.order < o.panic->0.order {
                Some(caught)
            } else {
                o.panic
            },
        },
        Raised::Fatal(order) => Outcome {
            cutoff,
            stop: if order < o.stop {
                order as int
            } else {
                o.stop
            },
            panic: o.panic,
        },
    }
}

/// What is caught after all of `raised`, in the order in which the threads raised it.
pub open spec fn catch_all(raised: Seq<Raised>) -> Outcome
    decreases raised.len(),
{
    if raised.len() == 0 {
        Outcome { cutoff: u64::MAX as int, stop: u64::MAX as int, panic: None }
    } else {
        catch_one(catch_all(raised.drop_last()), raised.last())
    }
}

/// The conclusion that `conclude` comes to.
pub open spec fn conclusion_of(o: Outcome) -> Conclusion {
    if o.panic is Some && o.panic->0.order <= o.stop {
        Conclusion::Raise(o.panic->0.payload)
    } else {
        Conclusion::InOrder
    }
}

/// Whatever order threads raise things in, the cut-off is the first of them in serial order, and
/// the stop is the first fatal error.
pub proof fn law_the_first_raise_is_the_cutoff(raised: Seq<Raised>)
    ensures
        forall|i: int|
            0 <= i < raised.len() ==> catch_all(raised).cutoff <= (#[trigger] raised[i]).order(),
        catch_all(raised).cutoff == u64::MAX || exists|i: int|
            0 <= i < raised.len() && (#[trigger] raised[i]).order() == catch_all(raised).cutoff,
        forall|i: int|
            0 <= i < raised.len() && (#[trigger] raised[i]) is Fatal ==> catch_all(raised).stop
                <= raised[i].order(),
        catch_all(raised).stop == u64::MAX || exists|i: int|
            {
                &&& 0 <= i < raised.len()
                &&& (#[trigger] raised[i]) is Fatal
                &&& raised[i].order() == catch_all(raised).stop
            },
    decreases raised.len(),
{
    if raised.len() > 0 {
        let n = raised.len() - 1;
        let prior = raised.drop_last();
        law_the_first_raise_is_the_cutoff(prior);
        assert forall|i: int| 0 <= i < raised.len() implies catch_all(raised).cutoff <= (
        #[trigger] raised[i]).order() by {
            if i < n {
                assert(prior[i] == raised[i]);
            }
        }
        assert forall|i: int|
            0 <= i < raised.len() && (#[trigger] raised[i]) is Fatal implies catch_all(raised).stop
            <= raised[i].order() by {
            if i < n {
                assert(prior[i] == raised[i]);
            }
        }
        if catch_all(raised).cutoff != u64::MAX {
            if catch_all(raised).cutoff == raised[n].order() {
            } else {
                let i = choose|i: int|
                    0 <= i < prior.len() && (#[trigger] prior[i]).order() == catch_all(
                        prior,
                    ).cutoff;
                assert(raised[i] == prior[i]);
            }
        }
        if catch_all(raised).stop != u64::MAX {
            if raised[n] is Fatal && catch_all(raised).stop == raised[n].order() {
            } else {
                let i = choose|i: int|
                    {
                        &&& 0 <= i < prior.len()
                        &&& (#[trigger] prior[i]) is Fatal
                        &&& prior[i].order() == catch_all(prior).stop
                    };
                assert(raised[i] == prior[i]);
            }
        }
    }
}

/// The panic that is kept is one that was raised, and no other was raised before it in serial
/// order.
pub proof fn law_the_first_panic_is_kept(raised: Seq<Raised>)
    ensures
        catch_all(raised).panic is None <==> (forall|i: int|
            0 <= i < raised.len() ==> !((#[trigger] raised[i]) is Panic)),
        catch_all(raised).panic matches Some(caught) ==> {
            &&& exists|i: int|
                0 <= i < raised.len() && #[trigger] raised[i] == Raised::Panic(caught)
            &&& forall|i: int|
                0 <= i < raised.len() && (#[trigger] raised[i]) is Panic ==> caught.order
                    <= raised[i].order()
        },
    decreases raised.len(),
{
    if raised.len() > 0 {
        let n = raised.len() - 1;
        let prior = raised.drop_last();
        law_the_first_panic_is_kept(prior);
        assert forall|i: int| 0 <= i < n implies #[trigger] raised[i] == prior[i] by {}
        assert(raised[n] == raised.last());
        if catch_all(prior).panic is Some {
            let i = choose|i: int|
                0 <= i < prior.len() && #[trigger] prior[i] == Raised::Panic(
                    catch_all(prior).panic->0,
                );
            assert(raised[i] is Panic);
        }
        if catch_all(raised).panic is Some && catch_all(raised).panic == catch_all(prior).panic {
            let i = choose|i: int|
                0 <= i < prior.len() && #[trigger] prior[i] == Raised::Panic(
                    catch_all(prior).panic->0,
                );
            assert(raised[i] == Raised::Panic(catch_all(raised).panic->0));
        }
        if catch_all(raised).panic is None {
            assert forall|i: int| 0 <= i < raised.len() implies !((#[trigger] raised[i])
                is Panic) by {
                if i < n {
                    assert(prior[i] == raised[i]);
                }
            }
        } else {
            assert forall|i: int|
                0 <= i < raised.len() && (
                #[trigger] raised[i]) is Panic implies catch_all(raised).panic->0.order
                <= raised[i].order() by {
                if i < n {
                    assert(prior[i] == raised[i]);
                }
            }
        }
    }
}

/// A scope raises what a serial run would have: a panic goes on exactly if one was raised that no
/// other panic and no fatal error comes before in serial order.
pub proof fn law_a_scope_raises_what_a_serial_run_would(raised: Seq<Raised>)
    ensures
        conclusion_of(catch_all(raised)) is Raise <==> exists|i: int|
            {
                &&& 0 <= i < raised.len()
                &&& (#[trigger] raised[i]) is Panic
                &&& forall|j: int|
                    0 <= j < raised.len() ==> raised[i].order() <= (#[trigger] raised[j]).order()
            },
{
    law_the_first_raise_is_the_cutoff(raised);
    law_the_first_panic_is_kept(raised);
    let o = catch_all(raised);
    if conclusion_of(o) is Raise {
        let i = choose|i: int|
            0 <= i < raised.len() && #[trigger] raised[i] == Raised::Panic(o.panic->0);
        assert forall|j: int| 0 <= j < raised.len() implies raised[i].order() <= (
        #[trigger] raised[j]).order() by {}
    }
    if exists|i: int|
        {
            &&& 0 <= i < raised.len()
            &&& (#[trigger] raised[i]) is Panic
            &&& forall|j: int|
                0 <= j < raised.len() ==> raised[i].order() <= (#[trigger] raised[j]).order()
        } {
        let i = choose|i: int|
            {
                &&& 0 <= i < raised.len()
                &&& (#[trigger] raised[i]) is Panic
                &&& forall|j: int|
                    0 <= j < raised.len() ==> raised[i].order() <= (#[trigger] raised[j]).order()
            };
        assert(o.panic is Some);
        if o.stop != u64::MAX {
            let k = choose|k: int|
                {
                    &&& 0 <= k < raised.len()
                    &&& (#[trigger] raised[k]) is Fatal
                    &&& raised[k].order() == o.stop
                };
            assert(raised[i].order() <= raised[k].order());
        }
    }
}

pub open spec fn min_order(a: u64, b: int) -> int {
    if a < b {
        a as int
    } else {
        b
    }
}

impl ScopeShared {
    /// What the scope has caught so far.
    pub open spec fn outcome(&self) -> Outcome {
        Outcome { cutoff: self.cutoff as int, stop: self.stop as int, panic: self.panic }
    }

    /// Every item of stage `s` has settled.
    pub open spec fn stage_settled(&self, s: int) -> bool {
        forall|i: int|
            0 <= i < self.stages@[s].slots@.len() ==> (
            #[trigger] self.stages@[s].slots@[i]).settled()
    }

    /// Every item of the first `n` stages has settled.
    pub open spec fn settled_before(&self, n: int) -> bool {
        forall|s: int|
            0 <= s < n && s < self.stages@.len() ==> #[trigger] self.stage_settled(s)
    }

    /// Every item has settled.
    pub open spec fn all_settled(&self) -> bool {
        self.settled_before(self.stages@.len() as int)
    }

    /// Every item up to `last` in serial order has settled.
    pub open spec fn settled_by(&self, last: int) -> bool {
        forall|s: int, i: int|
            0 <= s < self.stages@.len() && 0 <= i < self.stages@[s].slots@.len() && order_of(s, i)
                <= last ==> (#[trigger] self.stages@[s].slots@[i]).settled()
    }

    /// An item goes without a value only if it raised, or comes after one that did.
    pub open spec fn missing_is_cut_off(&self) -> bool {
        forall|s: int, i: int|
            0 <= s < self.stages@.len() && 0 <= i < self.stages@[s].slots@.len() && (
            #[trigger] self.stages@[s].slots@[i]) is Failed ==> order_of(s, i) >= self.cutoff
    }

    /// The upstream item of item `index` of stage `s`, if it has one, has settled.
    pub open spec fn upstream_settled(&self, s: int, index: int) -> bool {
        match self.stages@[s].gate {
            Some(gate) => self.stages@[gate.upstream as int].slots@[index].settled(),
            None => true,
        }
    }

    /// Item `index` of stage `s`, which this thread claimed, is about to run.
    pub fn begin_item(&mut self, s: usize, index: usize) -> (begin: Begin)
        requires
            old(self).wf(),
            s < old(self).stages@.len(),
            index < old(self).stages@[s as int].slots@.len(),
            old(self).stages@[s as int].slots@[index as int] is Running,
        ensures
            final(self).wf(),
            final(self).same_but_stages(old(self)),
            match begin {
                Begin::WaitFor(upstream) => {
                    &&& !old(self).upstream_settled(s as int, index as int)
                    &&& upstream == old(self).stages@[s as int].gate->0.upstream
                    &&& final(self).stages@ == old(self).stages@
                },
                Begin::CutOff(woken) => {
                    &&& old(self).upstream_settled(s as int, index as int)
                    &&& order_of(s as int, index as int) > old(self).cutoff
                    &&& woken@ == wakers_for(
                        old(self).stages@[s as int].slots.waiters(),
                        index,
                    )
                    &&& with_slot(
                        old(self).stages@,
                        s as int,
                        index as int,
                        Slot::Failed,
                        final(self).stages@,
                    )
                },
                Begin::Run => {
                    &&& old(self).upstream_settled(s as int, index as int)
                    &&& order_of(s as int, index as int) <= old(self).cutoff
                    &&& final(self).stages@ == old(self).stages@
                },
            },
            keeps_settled(old(self).stages@, final(self).stages@),
            old(self).missing_is_cut_off() ==> final(self).missing_is_cut_off(),
    {
        assert(gate_fits(self.stages@, s as int));
        match self.stages[s].gate {
            Some(gate) => {
                if !self.stages[gate.upstream].slots.is_settled(index) {
                    return Begin::WaitFor(gate.upstream);
                }
            },
            None => {},
        }
        if serial_order(s as u32, index) > self.cutoff {
            Begin::CutOff(self.settle_failed(s, index))
        } else {
            Begin::Run
        }
    }

    /// Fails item `index` of stage `s`, which is running.
    fn settle_failed(&mut self, s: usize, index: usize) -> (woken: Vec<u64>)
        requires
            old(self).wf(),
            s < old(self).stages@.len(),
            index < old(self).stages@[s as int].slots@.len(),
            old(self).stages@[s as int].slots@[index as int] is Running,
        ensures
            final(self).wf(),
            final(self).same_but_stages(old(self)),
            woken@ == wakers_for(
                old(self).stages@[s as int].slots.waiters(),
                index,
            ),
            with_slot(
                old(self).stages@,
                s as int,
                index as int,
                Slot::Failed,
                final(self).stages@,
            ),
            keeps_settled(old(self).stages@, final(self).stages@),
            old(self).missing_is_cut_off() && order_of(s as int, index as int) >= old(self).cutoff
                ==> final(self).missing_is_cut_off(),
    {
        let ghost before = *self;
        assert(before.stages@[s as int].wf());
        let woken = self.stages[s].slots.fail(index);
        proof {
            lemma_one_stage_changed(before.stages@, self.stages@, s as int);
            lemma_shape_keeps_wf(before, *self);
            lemma_slot_changed(before, *self, s as int, index as int, Slot::Failed);
        }
        woken
    }

    /// A fatal error ended the item at `order`: no later item starts.
    pub fn stop_at(&mut self, order: u64)
        ensures
            final(self).outcome() == catch_one(old(self).outcome(), Raised::Fatal(order)),
            final(self).stop == min_order(old(self).stop, order as int),
            final(self).cutoff == min_order(old(self).cutoff, order as int),
            *final(self) == (ScopeShared {
                stop: final(self).stop,
                cutoff: final(self).cutoff,
                ..*old(self)
            }),
            old(self).missing_is_cut_off() ==> final(self).missing_is_cut_off(),
    {
        if order < self.stop {
            self.stop = order;
        }
        if order < self.cutoff {
            self.cutoff = order;
        }
    }

    /// The item at `order` panicked, or a helper did outside any item (`u64::MAX`): no later item
    /// starts, and the panic is kept if it is the first in serial order. Hands back the payload
    /// that was not kept.
    pub fn stash(&mut self, order: u64, payload: u64) -> (displaced: Option<u64>)
        ensures
            final(self).outcome() == catch_one(
                old(self).outcome(),
                Raised::Panic((Caught { order, payload })),
            ),
            final(self).cutoff == min_order(old(self).cutoff, order as int),
            final(self).panic == (if old(self).panic is None || order
                < old(self).panic->0.order {
                Some((Caught { order, payload }))
            } else {
                old(self).panic
            }),
            displaced == (match old(self).panic {
                None => None,
                Some(caught) => if order < caught.order {
                    Some(caught.payload)
                } else {
                    Some(payload)
                },
            }),
            *final(self) == (ScopeShared {
                cutoff: final(self).cutoff,
                panic: final(self).panic,
                ..*old(self)
            }),
            old(self).missing_is_cut_off() ==> final(self).missing_is_cut_off(),
    {
        if order < self.cutoff {
            self.cutoff = order;
        }
        match self.panic {
            None => {
                self.panic = Some(Caught { order, payload });
                None
            },
            Some(caught) => {
                if order < caught.order {
                    self.panic = Some(Caught { order, payload });
                    Some(caught.payload)
                } else {
                    Some(payload)
                }
            },
        }
    }

    /// A panic came out of the run of item `index` of stage `s`. If the item was still running the
    /// panic is the item's, and the item fails; else it is nobody's. Hands back the wakers to wake.
    pub fn panicked(&mut self, s: usize, index: usize, payload: u64) -> (woken: Vec<u64>)
        requires
            old(self).wf(),
            s < old(self).stages@.len(),
            index < old(self).stages@[s as int].slots@.len(),
        ensures
            final(self).wf(),
            ({
                let running = old(self).stages@[s as int].slots@[index as int] is Running;
                let order = if running {
                    order_of(s as int, index as int)
                } else {
                    u64::MAX as int
                };
                &&& final(self).cutoff == min_order(old(self).cutoff, order)
                &&& final(self).panic == (if old(self).panic is None || order
                    < old(self).panic->0.order {
                    Some((Caught { order: order as u64, payload }))
                } else {
                    old(self).panic
                })
                &&& running ==> with_slot(
                    old(self).stages@,
                    s as int,
                    index as int,
                    Slot::Failed,
                    final(self).stages@,
                ) && woken@ == wakers_for(
                    old(self).stages@[s as int].slots.waiters(),
                    index,
                )
                &&& !running ==> final(self).stages@ == old(self).stages@ && woken@.len() == 0
                &&& final(self).same_but_stages(
                    &(ScopeShared {
                        cutoff: final(self).cutoff,
                        panic: final(self).panic,
                        ..*old(self)
                    }),
                )
            }),
            keeps_settled(old(self).stages@, final(self).stages@),
            old(self).missing_is_cut_off() ==> final(self).missing_is_cut_off(),
    {
        let ghost before = *self;
        assert(before.stages@[s as int].wf());
        if self.stages[s].slots.is_running(index) {
            let _ = self.stash(serial_order(s as u32, index), payload);
            assert(same_shape(before.stages@, self.stages@));
            proof {
                lemma_shape_keeps_wf(before, *self);
            }
            self.settle_failed(s, index)
        } else {
            let _ = self.stash(u64::MAX, payload);
            assert(same_shape(before.stages@, self.stages@));
            proof {
                lemma_shape_keeps_wf(before, *self);
            }
            Vec::new()
        }
    }

    /// The function of item `index` of stage `s` has returned with `value`, or was stopped by a
    /// fatal error. The item settles, and the chained stage's item of the same index, if it may
    /// start, is claimed for this thread.
    pub fn finish_item(
        &mut self,
        s: usize,
        index: usize,
        stopped: bool,
        value: Option<bool>,
    ) -> (finished: Finished)
        requires
            old(self).wf(),
            s < old(self).stages@.len(),
            index < old(self).stages@[s as int].slots@.len(),
            old(self).stages@[s as int].slots@[index as int] is Running,
        ensures
            final(self).wf(),
            ({
                let stages = old(self).stages@;
                let order = order_of(s as int, index as int);
                &&& same_shape(stages, final(self).stages@)
                &&& final(self).stages@[s as int].slots@ == stages[s as int].slots@.update(
                    index as int,
                    match value {
                        Some(said) => Slot::Ready(said),
                        None => Slot::Failed,
                    },
                )
                &&& finished.woken@ == wakers_for(
                    stages[s as int].slots.waiters(),
                    index,
                )
                &&& finished.follow == (match stages[s as int].follower {
                    Some(n) => if value is Some && stages[n as int].slots@[index as int]
                        is Unclaimed && (stages[n as int].gate->0.released || value == Some(true)) {
                        Some(n)
                    } else {
                        None
                    },
                    None => None,
                })
                &&& final(self).stages@[s as int].slots.waiters() == waiting_elsewhere(
                    stages[s as int].slots.waiters(),
                    index,
                )
                &&& finished.follow matches Some(n) ==> {
                    &&& final(self).stages@[n as int].slots@ == stages[n as int].slots@.update(
                        index as int,
                        Slot::Running,
                    )
                    &&& final(self).stages@[n as int].slots.waiters()
                        == stages[n as int].slots.waiters()
                }
                &&& forall|t: int|
                    0 <= t < stages.len() && t != s && finished.follow != Some(t as usize)
                        ==> #[trigger] final(self).stages@[t] == stages[t]
                &&& forall|t: int|
                    0 <= t < stages.len() ==> (#[trigger] final(self).stages@[t]).cursor
                        == stages[t].cursor && final(self).stages@[t].gate == stages[t].gate
                &&& final(self).stop == (if stopped {
                    min_order(old(self).stop, order)
                } else {
                    old(self).stop as int
                })
                &&& final(self).cutoff == (if stopped {
                    min_order(old(self).cutoff, order)
                } else {
                    old(self).cutoff as int
                })
                &&& final(self).same_but_stages(
                    &(ScopeShared {
                        cutoff: final(self).cutoff,
                        stop: final(self).stop,
                        ..*old(self)
                    }),
                )
            }),
            keeps_settled(old(self).stages@, final(self).stages@),
            // Only an item that a fatal error stopped has no value.
            old(self).missing_is_cut_off() && (value is Some || stopped)
                ==> final(self).missing_is_cut_off(),
    {
        let ghost before = *self;
        assert(before.stages@[s as int].wf());
        assert(follower_fits(before.stages@, s as int));
        if stopped {
            self.stop_at(serial_order(s as u32, index));
            assert(same_shape(before.stages@, self.stages@));
            proof {
                lemma_shape_keeps_wf(before, *self);
            }
        }
        match value {
            None => {
                let woken = self.settle_failed(s, index);
                Finished { woken, follow: None }
            },
            Some(said) => {
                let ghost mid = *self;
                let woken = self.stages[s].slots.fill(index, said);
                proof {
                    lemma_one_stage_changed(mid.stages@, self.stages@, s as int);
                    lemma_shape_keeps_wf(mid, *self);
                    lemma_slot_changed(mid, *self, s as int, index as int, Slot::Ready(said));
                }
                match self.stages[s].follower {
                    None => Finished { woken, follow: None },
                    Some(next) => {
                        proof {
                            assert(gate_fits(before.stages@, next as int));
                            assert(before.stages@[next as int].wf());
                        }
                        if self.ready(next, index) && self.claim(next, index) {
                            Finished { woken, follow: Some(next) }
                        } else {
                            Finished { woken, follow: None }
                        }
                    },
                }
            },
        }
    }
}

/// What a scope, or a part of it, ends in.
#[derive(Clone, Copy, PartialEq, Eq, Structural, Debug)]
pub enum Conclusion {
    /// The panic with this payload goes on.
    Raise(u64),
    /// The stages conclude in order: each forwards its items' diagnostics, and the one that a
    /// fatal error stopped raises it.
    InOrder,
}

impl ScopeShared {
    /// Starts a stage, cut as `plan` says, and answers how many helpers to submit for it.
    ///
    /// `owner_first`: the first chunk is the owner's, reserved before anybody is woken. `wake`:
    /// the plan's weights are measured nanoseconds, so helpers are woken for them now. `upstream`:
    /// the stage is chained to that one. `workers` is the size of the pool.
    pub fn start(
        &mut self,
        plan: Plan,
        owner_first: bool,
        wake: bool,
        upstream: Option<usize>,
        workers: usize,
    ) -> (helpers: usize)
        requires
            old(self).wf(),
            plan.wf(),
            old(self).stages@.len() < u32::MAX,
            all_chunks(old(self).stages@) + plan.chunk_count() <= usize::MAX,
            all_weight(old(self).stages@) + plan.whole_weight() <= u64::MAX,
            owner_first ==> old(self).owner_first is None,
            upstream matches Some(u) ==> {
                &&& u < old(self).stages@.len()
                &&& old(self).stages@[u as int].follower is None
                &&& old(self).stages@[u as int].slots@.len() == plan.item_count()
            },
        ensures
            final(self).wf(),
            ({
                let stages = old(self).stages@;
                let n = stages.len() as int;
                let new = final(self).stages@[n];
                let takes_first = owner_first && upstream is None && plan.chunk_count() > 0;
                &&& final(self).stages@.len() == n + 1
                &&& new.plan == plan
                &&& new.slots@ == Seq::new(plan.item_count(), |i: int| Slot::<bool>::Unclaimed)
                &&& new.follower is None
                &&& new.gate == (match upstream {
                    Some(upstream) => Some((Gate { upstream, released: false })),
                    None => None::<Gate>,
                })
                &&& new.cursor == (if takes_first {
                    1int
                } else {
                    0
                })
                &&& final(self).owner_first == (if takes_first {
                    Some((Batch { stage: n as usize, lo: 0, hi: plan.starts()[1] }))
                } else {
                    old(self).owner_first
                })
                &&& forall|t: int|
                    0 <= t < n && upstream != Some(t as usize)
                        ==> #[trigger] final(self).stages@[t] == stages[t]
                &&& upstream matches Some(u) ==> final(self).stages@[u as int] == (Stage {
                    follower: Some(n as usize),
                    ..stages[u as int]
                })
                &&& helpers == shortfall(
                    if wake {
                        wanted_helpers(
                            all_unreserved_chunks(stages) + (if upstream is None {
                                plan.chunk_count()
                            } else {
                                0
                            }),
                            all_unreserved_weight(stages) + (if upstream is None {
                                plan.weight_after(0) as nat
                            } else {
                                0
                            }),
                            old(self).width as int,
                            workers as int,
                        )
                    } else {
                        0
                    },
                    old(self).active as int,
                )
                &&& final(self).same_but_stages(
                    &(ScopeShared { owner_first: final(self).owner_first, ..*old(self) }),
                )
            }),
            keeps_settled(old(self).stages@, final(self).stages@),
            old(self).missing_is_cut_off() ==> final(self).missing_is_cut_off(),
    {
        let ghost before = *self;
        let n: usize = self.stages.len();
        let stage = Stage::new(plan, upstream);
        let ghost new = stage;
        self.stages.push(stage);
        proof {
            lemma_pushed_keeps_wf(before, *self, new);
        }
        let (chunks, weight) = self.unreserved();
        assert(self.stages@.drop_last() =~= before.stages@);
        match upstream {
            Some(u) => {
                let ghost mid = *self;
                self.stages[u].follower = Some(n);
                proof {
                    lemma_follower_keeps_wf(mid, *self, u as int, n as int);
                }
            },
            None => {},
        }
        let wanted: usize = if wake {
            self.wanted(chunks, weight, workers)
        } else {
            0
        };
        if owner_first {
            let ghost mid = *self;
            assert(mid.stages@[n as int].wf());
            match self.stages[n].reserve() {
                Some((lo, hi)) => {
                    proof {
                        lemma_one_stage_changed(mid.stages@, self.stages@, n as int);
                        lemma_shape_keeps_wf(mid, *self);
                    }
                    self.owner_first = Some(Batch { stage: n, lo, hi });
                },
                None => {
                    assert(self.stages@ =~= mid.stages@);
                    proof {
                        lemma_one_stage_changed(mid.stages@, self.stages@, n as int);
                        lemma_shape_keeps_wf(mid, *self);
                    }
                },
            }
        }
        self.wake(wanted)
    }

    /// Takes the chunk that the owner reserved for itself.
    pub fn take_owner_first(&mut self) -> (batch: Option<Batch>)
        requires
            old(self).wf(),
        ensures
            final(self).wf(),
            batch == old(self).owner_first,
            final(self).owner_first is None,
            final(self).stages@ == old(self).stages@,
            final(self).same_but_stages(&(ScopeShared { owner_first: None, ..*old(self) })),
    {
        let batch = self.owner_first;
        let ghost before = *self;
        self.owner_first = None;
        proof {
            assert(same_shape(before.stages@, self.stages@));
            lemma_shape_keeps_wf(before, *self);
        }
        batch
    }

    /// Lets every item of the chained stage `s` start, whatever its upstream item said.
    pub fn release(&mut self, s: usize)
        requires
            old(self).wf(),
            s < old(self).stages@.len(),
        ensures
            final(self).wf(),
            final(self).same_but_stages(old(self)),
            final(self).stages@ == old(self).stages@.update(
                s as int,
                (Stage {
                    gate: match old(self).stages@[s as int].gate {
                        Some(gate) => Some((Gate { released: true, ..gate })),
                        None => None,
                    },
                    ..old(self).stages@[s as int]
                }),
            ),
            keeps_settled(old(self).stages@, final(self).stages@),
            old(self).missing_is_cut_off() ==> final(self).missing_is_cut_off(),
    {
        let ghost before = *self;
        assert(before.stages@[s as int].wf());
        match self.stages[s].gate {
            Some(gate) => {
                self.stages[s].gate = Some(Gate { upstream: gate.upstream, released: true });
            },
            None => {},
        }
        proof {
            assert(self.stages@ =~= before.stages@.update(
                s as int,
                (Stage {
                    gate: match before.stages@[s as int].gate {
                        Some(gate) => Some((Gate { released: true, ..gate })),
                        None => None,
                    },
                    ..before.stages@[s as int]
                }),
            ));
            lemma_one_stage_changed(before.stages@, self.stages@, s as int);
            lemma_shape_keeps_wf(before, *self);
        }
    }

    /// A helper arrives. Whether it may take work: a helper that finds the scope closed may not,
    /// and leaves.
    pub fn arrive(&mut self) -> (open: bool)
        requires
            old(self).active < usize::MAX,
        ensures
            open == !old(self).closed,
            *final(self) == (ScopeShared {
                active: (old(self).active + 1) as usize,
                ..*old(self)
            }),
    {
        self.active = self.active + 1;
        !self.closed
    }

    /// A helper leaves. Whether to wake the owner: it was the last one out of a closed scope.
    pub fn leave(&mut self) -> (wake_owner: bool)
        requires
            old(self).active > 0,
        ensures
            wake_owner == (old(self).active == 1 && old(self).closed),
            *final(self) == (ScopeShared {
                active: (old(self).active - 1) as usize,
                ..*old(self)
            }),
    {
        self.active = self.active - 1;
        self.active == 0 && self.closed
    }

    /// Whether a helper whose chunk is done hands the rest on to a new one.
    pub fn more(&self) -> (yes: bool)
        requires
            self.wf(),
        ensures
            yes == (!self.closed && all_unreserved_chunks(self.stages@) > 0),
    {
        !self.closed && self.unreserved_chunks() > 0
    }

    /// Every item has settled: no helper may take work any more. Whether none is inside.
    pub fn close(&mut self) -> (idle: bool)
        requires
            old(self).all_settled(),
        ensures
            final(self).all_settled(),
            idle == (old(self).active == 0),
            *final(self) == (ScopeShared { closed: true, ..*old(self) }),
    {
        self.closed = true;
        assert forall|s: int| 0 <= s < self.stages@.len() implies #[trigger] self.stage_settled(
            s,
        ) by {
            assert(old(self).stage_settled(s));
        }
        self.active == 0
    }

    /// What a serial run would have raised by the item at `last`, once every item up to it has
    /// settled: the first panic, unless it comes after `last` or after a fatal error.
    pub fn conclude_through(&mut self, last: u64) -> (conclusion: Conclusion)
        requires
            old(self).settled_by(last as int),
        ensures
            ({
                let raises = old(self).panic is Some && old(self).panic->0.order <= last && old(
                    self,
                ).panic->0.order <= old(self).stop;
                &&& conclusion == (if raises {
                    Conclusion::Raise(old(self).panic->0.payload)
                } else {
                    Conclusion::InOrder
                })
                &&& *final(self) == (ScopeShared {
                    panic: if raises {
                        None
                    } else {
                        old(self).panic
                    },
                    ..*old(self)
                })
            }),
    {
        match self.panic {
            Some(caught) => {
                if caught.order <= last && caught.order <= self.stop {
                    self.panic = None;
                    Conclusion::Raise(caught.payload)
                } else {
                    Conclusion::InOrder
                }
            },
            None => Conclusion::InOrder,
        }
    }

    /// What a serial run would have raised, once everything has settled: the first panic, unless
    /// a fatal error comes before it.
    pub fn conclude(&mut self) -> (conclusion: Conclusion)
        requires
            old(self).all_settled(),
        ensures
            conclusion == conclusion_of(old(self).outcome()),
            *final(self) == (ScopeShared { panic: None, ..*old(self) }),
    {
        match self.panic {
            Some(caught) => {
                self.panic = None;
                if caught.order <= self.stop {
                    Conclusion::Raise(caught.payload)
                } else {
                    Conclusion::InOrder
                }
            },
            None => Conclusion::InOrder,
        }
    }
}

/// Once every item of the stages up to `through` has settled, so has every item up to the last one
/// that any of them can have.
pub proof fn law_settled_stages_settle_what_comes_first(scope: ScopeShared, through: u32)
    requires
        scope.settled_before(through + 1),
    ensures
        scope.settled_by(order_of(through as int, usize::MAX as int)),
{
    assert forall|s: int, i: int|
        0 <= s < scope.stages@.len() && 0 <= i < scope.stages@[s].slots@.len() && order_of(s, i)
            <= order_of(through as int, usize::MAX as int) implies (
    #[trigger] scope.stages@[s].slots@[i]).settled() by {
        assert(s <= through);
        assert(scope.stage_settled(s));
    }
}

/// When a scope ends, every item that a serial run would have reached before anything was raised
/// has its value. Where nothing was raised, that is every item.
pub proof fn law_every_item_before_the_cutoff_has_its_value(scope: ScopeShared, s: int, i: int)
    requires
        scope.wf(),
        scope.all_settled(),
        scope.missing_is_cut_off(),
        0 <= s < scope.stages@.len(),
        0 <= i < scope.stages@[s].slots@.len(),
    ensures
        order_of(s, i) < scope.cutoff ==> scope.stages@[s].slots@[i] is Ready,
        scope.cutoff == u64::MAX ==> scope.stages@[s].slots@[i] is Ready,
{
    assert(scope.stage_settled(s));
    assert(scope.stages@[s].slots@[i].settled());
}

proof fn lemma_pushed_keeps_wf(a: ScopeShared, b: ScopeShared, new: Stage)
    requires
        a.wf(),
        new.wf(),
        b.stages@ == a.stages@.push(new),
        b.width == a.width,
        b.owner_first == a.owner_first,
        a.stages@.len() < u32::MAX,
        all_chunks(a.stages@) + new.plan.chunk_count() <= usize::MAX,
        all_weight(a.stages@) + new.plan.whole_weight() <= u64::MAX,
        new.follower is None,
        new.gate matches Some(gate) ==> gate.upstream < a.stages@.len()
            && a.stages@[gate.upstream as int].slots@.len() == new.slots@.len(),
    ensures
        b.wf(),
{
    assert(b.stages@.drop_last() =~= a.stages@);
    assert forall|s: int| 0 <= s < b.stages@.len() implies (#[trigger] b.stages@[s]).wf() by {
        if s < a.stages@.len() {
            assert(a.stages@[s].wf());
        }
    }
    assert forall|s: int| 0 <= s < b.stages@.len() implies #[trigger] gate_fits(b.stages@, s) by {
        if s < a.stages@.len() {
            assert(gate_fits(a.stages@, s));
        }
    }
    assert forall|s: int| 0 <= s < b.stages@.len() implies #[trigger] follower_fits(
        b.stages@,
        s,
    ) by {
        if s < a.stages@.len() {
            assert(follower_fits(a.stages@, s));
        }
    }
}

proof fn lemma_follower_keeps_wf(a: ScopeShared, b: ScopeShared, u: int, n: int)
    requires
        a.wf(),
        0 <= u < n < a.stages@.len(),
        a.stages@[n].gate is Some,
        a.stages@[n].gate->0.upstream == u,
        b.stages@ == a.stages@.update(
            u,
            (Stage { follower: Some(n as usize), ..a.stages@[u] }),
        ),
        n <= usize::MAX,
        b.width == a.width,
        b.owner_first == a.owner_first,
    ensures
        b.wf(),
{
    assert forall|s: int| 0 <= s < a.stages@.len() implies (#[trigger] a.stages@[s]).plan
        == b.stages@[s].plan by {}
    lemma_sums_depend_on_plans(a.stages@, b.stages@);
    assert forall|s: int| 0 <= s < b.stages@.len() implies (#[trigger] b.stages@[s]).wf() by {
        assert(a.stages@[s].wf());
    }
    assert forall|s: int| 0 <= s < b.stages@.len() implies #[trigger] gate_fits(b.stages@, s) by {
        assert(gate_fits(a.stages@, s));
    }
    assert forall|s: int| 0 <= s < b.stages@.len() implies #[trigger] follower_fits(
        b.stages@,
        s,
    ) by {
        assert(follower_fits(a.stages@, s));
    }
}

/// Which stages to settle and conclude now so that everything up to stage `through` is out: those
/// from the first that is not concluded, `from`, and the serial order of the last item that any of
/// them can have. `None` if stage `through` is concluded already.
pub fn range_through(from: u32, through: u32) -> (range: Option<(u32, u32, u64)>)
    ensures
        range == (if through < from {
            None
        } else {
            Some((from, through, order_of(through as int, usize::MAX as int) as u64))
        }),
{
    if through < from {
        None
    } else {
        Some((from, through, serial_order(through, usize::MAX)))
    }
}

/// As many helpers are wanted as the work pays for, as far as the session is wide and the pool has
/// workers, and no fewer.
pub proof fn law_as_many_helpers_as_pay(
    scope: &ScopeShared,
    chunks: usize,
    weight_ns: u64,
    workers: usize,
    n: usize,
)
    requires
        scope.width >= 1,
        call_ensures(ScopeShared::wanted, (scope, chunks, weight_ns, workers), n),
    ensures
        n <= affordable_helpers(chunks as nat, weight_ns as nat),
        n <= scope.width - 1,
        n <= workers,
        n == affordable_helpers(chunks as nat, weight_ns as nat) || n == scope.width - 1 || n
            == workers,
{
}

/// Those who are woken and those who are there make up what is wanted, and nobody is woken for more.
pub proof fn law_only_those_missing_are_woken(scope: &ScopeShared, wanted: usize, n: usize)
    requires
        call_ensures(ScopeShared::wake, (scope, wanted), n),
    ensures
        scope.active + n >= wanted,
        n > 0 ==> scope.active + n == wanted,
{
}

/// What is left is measured at the rate of what has run: the time it takes is to its weight as the
/// time so far to the weight so far, rounded down.
pub proof fn law_a_weight_takes_its_time(weight: u64, spent: u64, done: u64, ns: u64)
    requires
        call_ensures(measured_ns, (weight, spent, done), ns),
        done > 0,
    ensures
        ns * done <= weight * spent,
        ns < u64::MAX ==> weight * spent < (ns + 1) * done,
{
    let all = weight as nat * spent as nat;
    let q = all / (done as nat);
    assert(q * done <= all < (q + 1) * done) by (nonlinear_arith)
        requires
            q == all / (done as nat),
            done > 0,
    ;
    assert(ns * done <= q * done) by (nonlinear_arith)
        requires
            ns <= q,
            done > 0,
    ;
}

/// A stage more adds what nobody has reserved of it, and nothing as long as it is held.
pub proof fn law_a_held_stage_has_nothing_to_take(stages: Seq<Stage>, stage: Stage)
    requires
        stage.cursor <= stage.plan.chunk_count(),
    ensures
        all_unreserved_chunks(Seq::empty()) == 0,
        all_unreserved_weight(Seq::empty()) == 0,
        stage.gate is Some && !stage.gate->0.released ==> all_unreserved_chunks(stages.push(stage))
            == all_unreserved_chunks(stages) && all_unreserved_weight(stages.push(stage))
            == all_unreserved_weight(stages),
        stage.gate is None || stage.gate->0.released ==> all_unreserved_chunks(stages.push(stage))
            == all_unreserved_chunks(stages) + stage.plan.chunk_count() - stage.cursor,
{
    assert(stages.push(stage).drop_last() =~= stages);
}

/// An item of a stage that waits for another starts only once that item has settled there, and as
/// long as the stage is held only if it did not come out false.
pub proof fn law_an_item_waits_for_the_one_before_it(stages: Seq<Stage>, s: int, index: int)
    ensures
        stages[s].gate is None ==> item_ready(stages, s, index),
        stages[s].gate is Some ==> {
            let before = stages[stages[s].gate->0.upstream as int].slots@[index];
            &&& before is Unclaimed || before is Running ==> !item_ready(stages, s, index)
            &&& before == Slot::Ready(true) || before is Failed ==> item_ready(stages, s, index)
            &&& before == Slot::Ready(false) ==> (item_ready(stages, s, index)
                <==> stages[s].gate->0.released)
        },
{
}

/// What a scope raises is the payload of the panic that comes first in serial order.
pub proof fn law_the_first_panic_is_raised(raised: Seq<Raised>, payload: u64)
    requires
        conclusion_of(catch_all(raised)) == Conclusion::Raise(payload),
    ensures
        exists|i: int|
            {
                &&& 0 <= i < raised.len()
                &&& (#[trigger] raised[i]) is Panic
                &&& raised[i]->Panic_0.payload == payload
                &&& forall|j: int|
                    0 <= j < raised.len() ==> raised[i].order() <= (#[trigger] raised[j]).order()
            },
{
    law_the_first_panic_is_kept(raised);
    law_the_first_raise_is_the_cutoff(raised);
    let caught = catch_all(raised).panic->0;
    let i = choose|i: int|
        0 <= i < raised.len() && #[trigger] raised[i] == Raised::Panic(caught);
    assert forall|j: int| 0 <= j < raised.len() implies raised[i].order() <= (
    #[trigger] raised[j]).order() by {
        if raised[j] is Fatal {
            assert(catch_all(raised).stop <= raised[j].order());
        }
    }
}

/// A chunk is handed out exactly if a stage, from the given one on, is not held and has one that
/// nobody has reserved; it is that of the first such stage.
pub proof fn law_the_next_chunk_is_that_of_the_first_stage(
    scope: &mut ScopeShared,
    from: &mut usize,
    batch: Option<Batch>,
    t: int,
)
    requires
        call_ensures(ScopeShared::next_chunk, (scope, from), batch),
        *old(from) <= t < old(scope).stages@.len(),
    ensures
        batch is None ==> {
            let stage = old(scope).stages@[t];
            (stage.gate is Some && !stage.gate->0.released) || stage.cursor
                == stage.plan.chunk_count()
        },
        batch is Some ==> {
            let stage = old(scope).stages@[batch->0.stage as int];
            &&& stage.gate is None || stage.gate->0.released
            &&& stage.cursor != stage.plan.chunk_count()
            &&& batch->0.lo == stage.plan.starts()[stage.cursor as int]
        },
        batch is Some && t < batch->0.stage ==> {
            let stage = old(scope).stages@[t];
            (stage.gate is Some && !stage.gate->0.released) || stage.cursor
                == stage.plan.chunk_count()
        },
{
    assert(t < *final(from) ==> exhausted(old(scope).stages@, t));
}

/// Whoever waits for a slot stops waiting once it has a value or has none to come, and nobody else
/// does.
pub proof fn law_waiting_ends_when_a_slot_settles(
    waiters: Seq<(usize, u64)>,
    index: usize,
    slot: Slot<bool>,
    w: (usize, u64),
)
    requires
        waiters.contains(w),
    ensures
        slot is Unclaimed || slot is Running ==> still_waiting(waiters, index as int, slot)
            == waiters,
        w.0 != index ==> still_waiting(waiters, index as int, slot).contains(w),
        (slot is Ready || slot is Failed) && w.0 == index ==> !still_waiting(
            waiters,
            index as int,
            slot,
        ).contains(w),
{
    crate::sync::slots::law_a_waiter_is_never_missed(waiters, index, w);
    let rest = still_waiting(waiters, index as int, slot);
    if slot.settled() && rest.contains(w) {
        let i = choose|i: int| 0 <= i < rest.len() && rest[i] == w;
        crate::sync::slots::lemma_elsewhere_is_elsewhere(waiters, index, i);
    }
}

/// Of two places in the serial order the earlier one counts.
pub proof fn law_the_earlier_place_counts(a: u64, b: int)
    ensures
        min_order(a, b) <= a,
        min_order(a, b) <= b,
        min_order(a, b) == a || min_order(a, b) == b,
{
}

/// A stage has settled exactly if every item has a value or has none to come, and a scope has
/// exactly if every stage has.
pub proof fn law_a_scope_settles_item_by_item(scope: ScopeShared, s: int)
    requires
        0 <= s < scope.stages@.len(),
    ensures
        scope.stage_settled(s) <==> forall|i: int|
            0 <= i < scope.stages@[s].slots@.len() ==> (#[trigger] scope.stages@[s].slots@[i])
                is Ready || scope.stages@[s].slots@[i] is Failed,
        scope.all_settled() ==> scope.stage_settled(s),
        (forall|t: int| 0 <= t < scope.stages@.len() ==> #[trigger] scope.stage_settled(t))
            ==> scope.all_settled(),
{
}

} // verus!
