//! One thread's run through a scope: unreserved chunks first, earliest stage first, and for the
//! owner a sweep of every stage for items that were reserved elsewhere and not started.

use vstd::prelude::*;

use crate::sync::plan::FIRST_LOOK_NS;
use crate::sync::scope::all_unreserved_chunks;
use crate::sync::scope::all_unreserved_weight;
use crate::sync::scope::exhausted;
use crate::sync::scope::in_ns;
use crate::sync::scope::item_ready;
use crate::sync::scope::keeps_settled;
use crate::sync::scope::min_order;
use crate::sync::scope::order_of;
use crate::sync::scope::same_shape;
use crate::sync::scope::shortfall;
use crate::sync::scope::wanted_helpers;
use crate::sync::scope::with_slot;
use crate::sync::scope::Batch;
use crate::sync::scope::Caught;
use crate::sync::scope::ScopeShared;
use crate::sync::scope::Stage;
use crate::sync::slots::wakers_for;
use crate::sync::slots::Slot;

verus! {

/// What one step of a run came to.
#[derive(Clone, Copy, PartialEq, Eq, Structural, Debug)]
pub enum Step {
    /// The thread has a chunk, or a stage to sweep.
    TookWork,
    /// The item at hand may not start yet, or somebody else has it.
    Skipped,
    /// The thread has claimed this item and runs it now.
    Run { stage: usize, index: usize },
    /// The chunk at hand is done. The owner looks at its clock if the chunk had weight.
    BatchDone { look: bool },
    /// There is nothing left to take.
    NothingLeft,
}

/// A thread's run through a scope.
pub struct Drain {
    /// The owner's run, which takes everything. A helper's takes one chunk.
    pub whole: bool,
    pub chunks_from: usize,
    pub sweep_from: usize,
    /// The run of indices at hand, and whether it is a sweep.
    pub batch: Option<Batch>,
    pub sweeping: bool,
    /// The weight of the chunk at hand; zero for a sweep.
    pub batch_weight: u64,
    pub taken: bool,
    /// The item that this thread claimed and is running.
    pub running: Option<usize>,
    /// The weight of the chunks that the owner has run.
    pub done: u64,
    /// When the owner looks at its clock next.
    pub check: u64,
}

/// The weight of the chunks that somebody has reserved, over all stages.
pub open spec fn all_reserved_weight(stages: Seq<Stage>) -> nat
    decreases stages.len(),
{
    if stages.len() == 0 {
        0
    } else {
        all_reserved_weight(stages.drop_last()) + stages.last().plan.before()[stages.last().cursor
            as int] as nat
    }
}

/// No stage of `b` has given a chunk back since `a`.
pub open spec fn only_reserves(a: Seq<Stage>, b: Seq<Stage>) -> bool {
    &&& a.len() == b.len()
    &&& forall|s: int|
        0 <= s < a.len() ==> {
            &&& (#[trigger] a[s]).wf()
            &&& b[s].wf()
            &&& b[s].plan == a[s].plan
            &&& a[s].cursor <= b[s].cursor
        }
}

/// Reserving more never makes the reserved weight smaller.
pub proof fn law_reserved_weight_only_grows(a: Seq<Stage>, b: Seq<Stage>)
    requires
        only_reserves(a, b),
    ensures
        all_reserved_weight(a) <= all_reserved_weight(b),
    decreases a.len(),
{
    if a.len() > 0 {
        let n = a.len() - 1;
        assert forall|s: int| 0 <= s < a.drop_last().len() implies {
            &&& (#[trigger] a.drop_last()[s]).wf()
            &&& b.drop_last()[s].wf()
            &&& b.drop_last()[s].plan == a.drop_last()[s].plan
            &&& a.drop_last()[s].cursor <= b.drop_last()[s].cursor
        } by {
            assert(a[s].wf());
        }
        law_reserved_weight_only_grows(a.drop_last(), b.drop_last());
        assert(a[n].wf() && b[n].wf());
        if a[n].cursor < b[n].cursor {
            assert(a[n].plan.before()[a[n].cursor as int] < a[n].plan.before()[b[n].cursor as int]);
        }
    }
}

proof fn lemma_reserved_is_bounded(stages: Seq<Stage>)
    requires
        forall|s: int| 0 <= s < stages.len() ==> (#[trigger] stages[s]).wf(),
    ensures
        all_reserved_weight(stages) <= crate::sync::scope::all_weight(stages),
    decreases stages.len(),
{
    if stages.len() > 0 {
        let n = stages.len() - 1;
        assert forall|s: int| 0 <= s < stages.drop_last().len() implies (
        #[trigger] stages.drop_last()[s]).wf() by {
            assert(stages[s].wf());
        }
        lemma_reserved_is_bounded(stages.drop_last());
        assert(stages[n].wf());
        let plan = stages[n].plan;
        if stages[n].cursor < plan.chunk_count() {
            assert(plan.before()[stages[n].cursor as int] < plan.before()[plan.before().len() - 1]);
        }
    }
}

/// Reserving chunk `stages[s].cursor` adds its weight.
proof fn lemma_reserving_adds(stages: Seq<Stage>, s: int)
    requires
        0 <= s < stages.len(),
        forall|t: int| 0 <= t < stages.len() ==> (#[trigger] stages[t]).wf(),
        stages[s].cursor < stages[s].plan.chunk_count(),
    ensures
        all_reserved_weight(
            stages.update(s, (Stage { cursor: (stages[s].cursor + 1) as usize, ..stages[s] })),
        ) == all_reserved_weight(stages) + (stages[s].plan.before()[stages[s].cursor + 1]
            - stages[s].plan.before()[stages[s].cursor as int]),
    decreases stages.len(),
{
    let stage = Stage { cursor: (stages[s].cursor + 1) as usize, ..stages[s] };
    let after = stages.update(s, stage);
    assert(stages[s].wf());
    assert(stages[s].plan.before()[stages[s].cursor as int] < stages[s].plan.before()[stages[s].cursor
        + 1]);
    if s == stages.len() - 1 {
        assert(after.drop_last() =~= stages.drop_last());
    } else {
        assert(after.drop_last() =~= stages.drop_last().update(s, stage));
        assert forall|t: int| 0 <= t < stages.drop_last().len() implies (
        #[trigger] stages.drop_last()[t]).wf() by {
            assert(stages[t].wf());
        }
        lemma_reserving_adds(stages.drop_last(), s);
    }
}

/// Every item of stage `s` below `upto` has been started, but for those that a serial run would not
/// have reached.
pub open spec fn started_below(scope: &ScopeShared, s: int, upto: int) -> bool {
    forall|i: int|
        0 <= i < upto ==> !((#[trigger] scope.stages@[s].slots@[i]) is Unclaimed) || order_of(s, i)
            >= scope.cutoff
}

impl Drain {
    pub open spec fn wf(&self, scope: &ScopeShared) -> bool {
        &&& self.done + self.batch_weight <= all_reserved_weight(scope.stages@)
        &&& self.batch matches Some(batch) ==> batch.stage < scope.stages@.len() && batch.lo
            <= batch.hi <= scope.stages@[batch.stage as int].slots@.len()
        &&& self.sweeping ==> {
            &&& self.batch is Some
            &&& self.sweep_from == self.batch->0.stage + 1
            &&& self.batch->0.hi == scope.stages@[self.batch->0.stage as int].slots@.len()
        }
        &&& self.running matches Some(index) ==> self.batch is Some && index + 1
            == self.batch->0.lo
    }

    /// If stage `s` waits for no other stage, every item of it that this run has swept has been
    /// started, or is cut off: all of them, or those below the one at hand.
    pub open spec fn swept_stage(&self, scope: &ScopeShared, s: int) -> bool {
        scope.stages@[s].gate is None ==> started_below(
            scope,
            s,
            if self.sweeping && self.batch->0.stage == s {
                self.batch->0.lo as int
            } else {
                scope.stages@[s].slots@.len() as int
            },
        )
    }

    pub open spec fn swept(&self, scope: &ScopeShared) -> bool {
        forall|s: int|
            0 <= s < self.sweep_from && s < scope.stages@.len() ==> #[trigger] self.swept_stage(
                scope,
                s,
            )
    }
}

/// `batch` is the chunk at the cursor of the first stage, from `from` on, that has one.
pub open spec fn is_next_chunk(stages: Seq<Stage>, from: int, batch: Batch) -> bool {
    let s = batch.stage as int;
    &&& from <= s < stages.len()
    &&& forall|t: int| from <= t < s ==> #[trigger] exhausted(stages, t)
    &&& !exhausted(stages, s)
    &&& batch.lo == stages[s].plan.starts()[stages[s].cursor as int]
    &&& batch.hi == stages[s].plan.starts()[stages[s].cursor + 1]
}

impl Drain {
    /// A run that starts with `first`, a chunk this thread reserved earlier, if there is one.
    pub fn new(scope: &ScopeShared, whole: bool, first: Option<Batch>) -> (drain: Drain)
        requires
            scope.wf(),
            first matches Some(batch) ==> {
                let stage = scope.stages@[batch.stage as int];
                &&& batch.stage < scope.stages@.len()
                &&& stage.cursor > 0
                &&& batch.lo == stage.plan.starts()[stage.cursor - 1]
                &&& batch.hi == stage.plan.starts()[stage.cursor as int]
            },
        ensures
            drain.wf(scope),
            drain.swept(scope),
            drain.whole == whole,
            drain.chunks_from == 0,
            drain.sweep_from == 0,
            drain.batch == first,
            !drain.sweeping,
            drain.batch_weight == (match first {
                Some(batch) => scope.stages@[batch.stage as int].plan.before()[scope.stages@[batch.stage
                    as int].cursor as int] - scope.stages@[batch.stage as int].plan.before()[scope.stages@[batch.stage
                    as int].cursor - 1],
                None => 0,
            }),
            !drain.taken,
            drain.running is None,
            drain.done == 0,
            drain.check == FIRST_LOOK_NS,
    {
        let batch_weight: u64 = match first {
            Some(batch) => {
                let ghost stage = scope.stages@[batch.stage as int];
                proof {
                    assert(stage.wf());
                    assert(stage.plan.starts()[stage.cursor as int] <= stage.plan.starts().last());
                    assert(stage.plan.before()[stage.cursor - 1] < stage.plan.before()[stage.cursor
                        as int]);
                    lemma_reserved_holds_each(scope.stages@, batch.stage as int);
                    assert(stage.plan.starts()[stage.cursor - 1] == batch.lo);
                }
                scope.stages[batch.stage].plan.chunk_weight_at(batch.lo)
            },
            None => 0,
        };
        Drain {
            whole,
            chunks_from: 0,
            sweep_from: 0,
            batch: first,
            sweeping: false,
            batch_weight,
            taken: false,
            running: None,
            done: 0,
            check: FIRST_LOOK_NS,
        }
    }

    /// Takes the next chunk, or the next stage to sweep, when the thread has nothing at hand.
    fn take_work(&mut self, scope: &mut ScopeShared) -> (step: Step)
        requires
            old(scope).wf(),
            old(self).wf(old(scope)),
            old(self).batch is None,
            old(self).running is None,
        ensures
            final(scope).wf(),
            final(self).wf(final(scope)),
            old(self).swept(old(scope)) ==> final(self).swept(final(scope)),
            keeps_settled(old(scope).stages@, final(scope).stages@),
            old(scope).missing_is_cut_off() ==> final(scope).missing_is_cut_off(),
            took_work(*old(self), *old(scope), *final(self), *final(scope), step),
    {
        if !self.whole && self.taken {
            return Step::NothingLeft;
        }
        let ghost start = *self;
        let ghost before = *scope;
        self.taken = true;
        let chunk = scope.next_chunk(&mut self.chunks_from);
        match chunk {
            Some(batch) => {
                let ghost s = batch.stage as int;
                let ghost stage = before.stages@[s];
                proof {
                    assert(stage.wf());
                    assert forall|t: int| 0 <= t < before.stages@.len() implies (
                    #[trigger] before.stages@[t]).wf() by {}
                    lemma_reserving_adds(before.stages@, s);
                    assert(stage.plan.before()[stage.cursor as int]
                        < stage.plan.before()[stage.cursor + 1]);
                    assert(stage.plan.starts()[stage.cursor as int] == batch.lo);
                }
                self.batch_weight = scope.stages[batch.stage].plan.chunk_weight_at(batch.lo);
                self.batch = Some(batch);
                proof {
                    if start.swept(&before) {
                        lemma_swept_carries(start, before, *self, *scope);
                    }
                }
                Step::TookWork
            },
            None => {
                self.batch_weight = 0;
                proof {
                    if start.swept(&before) {
                        lemma_swept_carries(start, before, *self, *scope);
                    }
                }
                if !self.whole {
                    return Step::NothingLeft;
                }
                let sweep = scope.next_sweep(&mut self.sweep_from);
                match sweep {
                    Some(batch) => {
                        self.batch = Some(batch);
                        self.sweeping = true;
                        proof {
                            assert forall|t: int|
                                0 <= t < self.sweep_from && t < scope.stages@.len() && start.swept(
                                    &before,
                                ) implies #[trigger] self.swept_stage(scope, t) by {
                                if t != batch.stage {
                                    assert(start.swept_stage(&before, t));
                                }
                            }
                        }
                        Step::TookWork
                    },
                    None => Step::NothingLeft,
                }
            },
        }
    }
}

/// What taking work does: a helper that has had its chunk takes nothing; otherwise the next chunk
/// is reserved; and once there is none, the owner sweeps the next stage.
pub open spec fn took_work(
    d: Drain,
    s: ScopeShared,
    d2: Drain,
    s2: ScopeShared,
    step: Step,
) -> bool {
    &&& s2.same_but_stages(&s)
    &&& d2.whole == d.whole && d2.running is None && d2.done == d.done && d2.check == d.check
    &&& if !d.whole && d.taken {
        &&& step == Step::NothingLeft
        &&& d2 == d
        &&& s2.stages@ == s.stages@
    } else {
        &&& d2.taken
        &&& {
            ||| {
                // A chunk.
                let batch = d2.batch->0;
                let stage = s.stages@[batch.stage as int];
                &&& step == Step::TookWork
                &&& d2.batch is Some && !d2.sweeping
                &&& is_next_chunk(s.stages@, d.chunks_from as int, batch)
                &&& d2.chunks_from == batch.stage
                &&& d2.sweep_from == d.sweep_from
                &&& d2.batch_weight == stage.plan.before()[stage.cursor + 1]
                    - stage.plan.before()[stage.cursor as int]
                &&& s2.stages@ == s.stages@.update(
                    batch.stage as int,
                    (Stage { cursor: (stage.cursor + 1) as usize, ..stage }),
                )
            }
            ||| {
                // No chunk is left: a sweep, or nothing.
                &&& forall|t: int|
                    d.chunks_from <= t < s.stages@.len() ==> #[trigger] exhausted(s.stages@, t)
                &&& d2.chunks_from >= s.stages@.len()
                &&& s2.stages@ == s.stages@
                &&& d2.batch_weight == 0
                &&& if d.whole && d.sweep_from < s.stages@.len() {
                    &&& step == Step::TookWork
                    &&& d2.sweeping
                    &&& d2.sweep_from == d.sweep_from + 1
                    &&& d2.batch == Some(
                        (Batch {
                            stage: d.sweep_from,
                            lo: 0,
                            hi: s.stages@[d.sweep_from as int].slots@.len() as usize,
                        }),
                    )
                } else {
                    &&& step == Step::NothingLeft
                    &&& d2.batch is None && !d2.sweeping
                    &&& d2.sweep_from == d.sweep_from
                }
            }
        }
    }
}

/// A run that has swept some stages has still swept them when no item has been put back.
proof fn lemma_swept_carries(d: Drain, s: ScopeShared, d2: Drain, s2: ScopeShared)
    requires
        d.swept(&s),
        !d.sweeping,
        !d2.sweeping,
        d2.sweep_from == d.sweep_from,
        s2.cutoff <= s.cutoff,
        s2.stages@.len() == s.stages@.len(),
        forall|t: int|
            0 <= t < s.stages@.len() ==> (#[trigger] s2.stages@[t]).slots@ == s.stages@[t].slots@
                && s2.stages@[t].gate == s.stages@[t].gate,
    ensures
        d2.swept(&s2),
{
    assert forall|t: int| 0 <= t < d2.sweep_from && t < s2.stages@.len() implies #[trigger] d2.swept_stage(
        &s2,
        t,
    ) by {
        assert(d.swept_stage(&s, t));
        assert(s2.stages@[t].slots@ == s.stages@[t].slots@);
        if s2.stages@[t].gate is None {
            assert forall|i: int| 0 <= i < s2.stages@[t].slots@.len() implies !((
            #[trigger] s2.stages@[t].slots@[i]) is Unclaimed) || order_of(t, i) >= s2.cutoff by {
                assert(!(s.stages@[t].slots@[i] is Unclaimed) || order_of(t, i) >= s.cutoff);
            }
        }
    }
}

proof fn lemma_reserved_holds_each(stages: Seq<Stage>, s: int)
    requires
        0 <= s < stages.len(),
    ensures
        stages[s].plan.before()[stages[s].cursor as int] <= all_reserved_weight(stages),
    decreases stages.len(),
{
    if s < stages.len() - 1 {
        lemma_reserved_holds_each(stages.drop_last(), s);
    }
}

/// What a step does with the batch at hand: the next item of it is claimed if it may start and
/// nobody has it, and when there is no item left the batch is done.
pub open spec fn advanced(
    d: Drain,
    s: ScopeShared,
    d2: Drain,
    s2: ScopeShared,
    step: Step,
) -> bool {
    let batch = d.batch->0;
    let stage = batch.stage as int;
    let index = batch.lo as int;
    &&& s2.same_but_stages(&s)
    &&& if batch.lo < batch.hi {
        let taken = item_ready(s.stages@, stage, index) && s.stages@[stage].slots@[index]
            is Unclaimed;
        &&& step == (if taken {
            Step::Run { stage: batch.stage, index: batch.lo }
        } else {
            Step::Skipped
        })
        &&& d2 == (Drain {
            batch: Some((Batch { lo: (batch.lo + 1) as usize, ..batch })),
            running: if taken {
                Some(batch.lo)
            } else {
                None
            },
            ..d
        })
        &&& taken ==> with_slot(s.stages@, stage, index, Slot::Running, s2.stages@)
        &&& !taken ==> s2.stages@ == s.stages@
    } else {
        let look = d.whole && d.batch_weight > 0;
        &&& step == Step::BatchDone { look }
        &&& d2 == (Drain {
            batch: None,
            sweeping: false,
            batch_weight: 0,
            done: (d.done + (if look {
                d.batch_weight as int
            } else {
                0
            })) as u64,
            ..d
        })
        &&& s2.stages@ == s.stages@
    }
}

impl Drain {
    /// One step of the run. The thread has no item running.
    pub fn step(&mut self, scope: &mut ScopeShared) -> (step: Step)
        requires
            old(scope).wf(),
            old(self).wf(old(scope)),
            old(self).running is None,
        ensures
            final(scope).wf(),
            final(self).wf(final(scope)),
            old(self).batch is None ==> took_work(
                *old(self),
                *old(scope),
                *final(self),
                *final(scope),
                step,
            ),
            old(self).batch is Some ==> advanced(
                *old(self),
                *old(scope),
                *final(self),
                *final(scope),
                step,
            ),
            old(self).swept(old(scope)) ==> final(self).swept(final(scope)),
            keeps_settled(old(scope).stages@, final(scope).stages@),
            old(scope).missing_is_cut_off() ==> final(scope).missing_is_cut_off(),
            // The owner's run ends only when every item that waits for no other stage is started,
            // or cut off.
            step == Step::NothingLeft && old(self).whole && old(self).swept(old(scope)) ==> forall|
                t: int,
            |
                0 <= t < final(scope).stages@.len() && final(scope).stages@[t].gate is None
                    ==> #[trigger] started_below(
                    &*final(scope),
                    t,
                    final(scope).stages@[t].slots@.len() as int,
                ),
    {
        let batch = match self.batch {
            None => {
                let ghost start = *self;
                let step = self.take_work(scope);
                proof {
                    if step == Step::NothingLeft && self.whole && start.swept(old(scope)) {
                        assert forall|t: int|
                            0 <= t < scope.stages@.len() && scope.stages@[t].gate
                                is None implies #[trigger] started_below(
                            &*scope,
                            t,
                            scope.stages@[t].slots@.len() as int,
                        ) by {
                            assert(self.swept_stage(scope, t));
                        }
                    }
                }
                return step;
            },
            Some(batch) => batch,
        };
        let ghost start = *self;
        let ghost before = *scope;
        if batch.lo < batch.hi {
            self.batch = Some(Batch { stage: batch.stage, lo: batch.lo + 1, hi: batch.hi });
            let taken = scope.ready(batch.stage, batch.lo) && scope.claim(batch.stage, batch.lo);
            proof {
                lemma_reserved_is_kept(before, *scope);
                if start.swept(&before) {
                    lemma_swept_advances(start, before, *self, *scope);
                }
            }
            if taken {
                self.running = Some(batch.lo);
                assert(start.swept(&before) ==> self.swept(scope)) by {
                    if start.swept(&before) {
                        lemma_swept_advances(start, before, *self, *scope);
                    }
                }
                Step::Run { stage: batch.stage, index: batch.lo }
            } else {
                Step::Skipped
            }
        } else {
            let look = self.whole && self.batch_weight > 0;
            proof {
                assert forall|t: int| 0 <= t < scope.stages@.len() implies (
                #[trigger] scope.stages@[t]).wf() by {}
                lemma_reserved_is_bounded(scope.stages@);
            }
            if look {
                self.done = self.done + self.batch_weight;
            }
            self.batch_weight = 0;
            self.batch = None;
            self.sweeping = false;
            proof {
                if start.swept(&before) {
                    assert forall|t: int|
                        0 <= t < self.sweep_from && t
                            < scope.stages@.len() implies #[trigger] self.swept_stage(scope, t) by {
                        assert(start.swept_stage(&before, t));
                    }
                }
            }
            Step::BatchDone { look }
        }
    }

    /// The item at hand has returned.
    pub fn item_returned(&mut self)
        ensures
            *final(self) == (Drain { running: None, ..*old(self) }),
    {
        self.running = None;
    }

    /// The item at hand panicked: it is settled, and the rest of its batch, which comes after it
    /// in serial order, is let go. Hands back the wakers to wake.
    pub fn item_panicked(&mut self, scope: &mut ScopeShared, payload: u64) -> (woken: Vec<u64>)
        requires
            old(scope).wf(),
            old(self).wf(old(scope)),
            old(self).running is Some,
        ensures
            final(scope).wf(),
            final(self).wf(final(scope)),
            *final(self) == (Drain {
                batch: None,
                sweeping: false,
                running: None,
                batch_weight: 0,
                ..*old(self)
            }),
            ({
                let s = old(self).batch->0.stage as int;
                let index = old(self).running->0 as int;
                let running = old(scope).stages@[s].slots@[index] is Running;
                let order = if running {
                    order_of(s, index)
                } else {
                    u64::MAX as int
                };
                &&& final(scope).cutoff == min_order(old(scope).cutoff, order)
                &&& final(scope).panic == (if old(scope).panic is None || order
                    < old(scope).panic->0.order {
                    Some((Caught { order: order as u64, payload }))
                } else {
                    old(scope).panic
                })
                &&& running ==> {
                    &&& with_slot(
                        old(scope).stages@,
                        s,
                        index,
                        Slot::Failed,
                        final(scope).stages@,
                    )
                    &&& woken@ == wakers_for(
                        old(scope).stages@[s].slots.waiters(),
                        old(self).running->0,
                    )
                }
                &&& !running ==> final(scope).stages@ == old(scope).stages@ && woken@.len() == 0
                &&& final(scope).same_but_stages(
                    &(ScopeShared {
                        cutoff: final(scope).cutoff,
                        panic: final(scope).panic,
                        ..*old(scope)
                    }),
                )
                // What the run lets go is cut off, unless the panic was nobody's.
                &&& (old(self).swept(old(scope)) && (running || !old(self).sweeping))
                    ==> final(self).swept(final(scope))
            }),
            keeps_settled(old(scope).stages@, final(scope).stages@),
            old(scope).missing_is_cut_off() ==> final(scope).missing_is_cut_off(),
    {
        let ghost start = *self;
        let ghost before = *scope;
        match (self.batch, self.running) {
            (Some(batch), Some(index)) => {
                self.batch = None;
                self.sweeping = false;
                self.running = None;
                self.batch_weight = 0;
                let woken = scope.panicked(batch.stage, index, payload);
                proof {
                    lemma_reserved_is_kept(before, *scope);
                    let running = before.stages@[batch.stage as int].slots@[index as int] is Running;
                    if start.swept(&before) && (running || !start.sweeping) {
                        lemma_swept_outlasts_a_failure(start, before, *self, *scope);
                    }
                }
                woken
            },
            _ => {
                assert(false);
                Vec::new()
            },
        }
    }

    /// The owner has looked at its clock: how many helpers to submit. It looks again once it has
    /// run twice as long.
    pub fn clock_read(&mut self, scope: &ScopeShared, spent: u64, workers: usize) -> (n: usize)
        requires
            scope.wf(),
        ensures
            spent < old(self).check ==> n == 0 && *final(self) == *old(self),
            spent >= old(self).check ==> {
                &&& n == (if all_unreserved_chunks(scope.stages@) == 0 {
                    0
                } else {
                    shortfall(
                        wanted_helpers(
                            all_unreserved_chunks(scope.stages@),
                            in_ns(
                                all_unreserved_weight(scope.stages@),
                                spent as nat,
                                old(self).done as nat,
                            ),
                            scope.width as int,
                            workers as int,
                        ),
                        scope.active as int,
                    )
                })
                &&& *final(self) == (Drain {
                    check: (if 2 * spent > u64::MAX {
                        u64::MAX as int
                    } else {
                        2 * spent
                    }) as u64,
                    ..*old(self)
                })
            },
    {
        if spent < self.check {
            return 0;
        }
        self.check = twice(spent);
        scope.wake_measured(self.done, spent, workers)
    }
}

/// Twice `n`, or the largest number if that is more.
pub fn twice(n: u64) -> (r: u64)
    ensures
        r == (if 2 * n > u64::MAX {
            u64::MAX as int
        } else {
            2 * n
        }),
{
    match n.checked_mul(2) {
        Some(r) => r,
        None => u64::MAX,
    }
}

proof fn lemma_reserved_is_kept(a: ScopeShared, b: ScopeShared)
    requires
        a.wf(),
        same_shape(a.stages@, b.stages@) || b.stages@ == a.stages@,
        forall|t: int|
            0 <= t < a.stages@.len() ==> (#[trigger] b.stages@[t]).cursor == a.stages@[t].cursor,
    ensures
        all_reserved_weight(a.stages@) <= all_reserved_weight(b.stages@),
{
    assert forall|t: int| 0 <= t < a.stages@.len() implies {
        &&& (#[trigger] a.stages@[t]).wf()
        &&& b.stages@[t].wf()
        &&& b.stages@[t].plan == a.stages@[t].plan
        &&& a.stages@[t].cursor <= b.stages@[t].cursor
    } by {
        assert(b.stages@[t].cursor == a.stages@[t].cursor);
    }
    law_reserved_weight_only_grows(a.stages@, b.stages@);
}

/// A run that has gone past one item of its batch, started if it could be, has swept one more.
proof fn lemma_swept_advances(d: Drain, s: ScopeShared, d2: Drain, s2: ScopeShared)
    requires
        s.wf(),
        d.wf(&s),
        d.swept(&s),
        d.batch is Some,
        d.batch->0.lo < d.batch->0.hi,
        d2.batch == Some((Batch { lo: (d.batch->0.lo + 1) as usize, ..d.batch->0 })),
        d2.sweeping == d.sweeping,
        d2.sweep_from == d.sweep_from,
        ({
            let stage = d.batch->0.stage as int;
            let index = d.batch->0.lo as int;
            let taken = item_ready(s.stages@, stage, index) && s.stages@[stage].slots@[index]
                is Unclaimed;
            &&& taken ==> with_slot(s.stages@, stage, index, Slot::Running, s2.stages@)
            &&& !taken ==> s2.stages@ == s.stages@
        }),
        s2.cutoff == s.cutoff,
    ensures
        d2.swept(&s2),
{
    let stage = d.batch->0.stage as int;
    let index = d.batch->0.lo as int;
    assert forall|t: int| 0 <= t < d2.sweep_from && t < s2.stages@.len() implies #[trigger] d2.swept_stage(
        &s2,
        t,
    ) by {
        assert(d.swept_stage(&s, t));
        if t != stage {
            assert(s2.stages@[t] == s.stages@[t]);
            if s2.stages@[t].gate is None {
                assert forall|i: int| 0 <= i < s2.stages@[t].slots@.len() implies !((
                #[trigger] s2.stages@[t].slots@[i]) is Unclaimed) || order_of(t, i)
                    >= s2.cutoff by {
                    assert(!(s.stages@[t].slots@[i] is Unclaimed) || order_of(t, i) >= s.cutoff);
                }
            }
        } else if s2.stages@[t].gate is None {
            let upto = if d2.sweeping {
                index + 1
            } else {
                s2.stages@[t].slots@.len() as int
            };
            assert forall|i: int| 0 <= i < upto implies !((#[trigger] s2.stages@[t].slots@[i])
                is Unclaimed) || order_of(t, i) >= s2.cutoff by {
                if i != index {
                    assert(s2.stages@[t].slots@[i] == s.stages@[t].slots@[i]);
                }
            }
        }
    }
}

/// A run whose item failed and that lets the rest of its batch go has still swept what it had: the
/// rest comes after the item, and is cut off.
proof fn lemma_swept_outlasts_a_failure(d: Drain, s: ScopeShared, d2: Drain, s2: ScopeShared)
    requires
        d.wf(&s),
        d.swept(&s),
        d.running is Some,
        d2.sweep_from == d.sweep_from,
        !d2.sweeping,
        s2.cutoff <= s.cutoff,
        ({
            let stage = d.batch->0.stage as int;
            let index = d.running->0 as int;
            ||| {
                &&& with_slot(s.stages@, stage, index, Slot::Failed, s2.stages@)
                &&& s2.cutoff <= order_of(stage, index)
            }
            ||| s2.stages@ == s.stages@ && !d.sweeping
        }),
    ensures
        d2.swept(&s2),
{
    let stage = d.batch->0.stage as int;
    let index = d.running->0 as int;
    assert forall|t: int| 0 <= t < d2.sweep_from && t < s2.stages@.len() implies #[trigger] d2.swept_stage(
        &s2,
        t,
    ) by {
        assert(d.swept_stage(&s, t));
        if t != stage {
            assert(s2.stages@[t] == s.stages@[t]);
        }
        if s2.stages@[t].gate is None {
            assert forall|i: int| 0 <= i < s2.stages@[t].slots@.len() implies !((
            #[trigger] s2.stages@[t].slots@[i]) is Unclaimed) || order_of(t, i) >= s2.cutoff by {
                if t != stage || i < index || !d.sweeping {
                    assert(!(s.stages@[t].slots@[i] is Unclaimed) || order_of(t, i) >= s.cutoff);
                }
            }
        }
    }
}

/// A thread runs only an item that nobody has and that may start: the next one of the batch at hand.
pub proof fn law_a_thread_runs_only_what_is_free(
    drain: &mut Drain,
    scope: &mut ScopeShared,
    step: Step,
    stage: usize,
    index: usize,
)
    requires
        call_ensures(Drain::step, (drain, scope), step),
        step == (Step::Run { stage, index }),
    ensures
        old(drain).batch is Some,
        old(drain).batch->0.stage == stage,
        old(drain).batch->0.lo == index,
        index < old(drain).batch->0.hi,
        old(scope).stages@[stage as int].slots@[index as int] is Unclaimed,
        item_ready(old(scope).stages@, stage as int, index as int),
        final(drain).running == Some(index),
        ({
            let slots = final(scope).stages@[stage as int].slots@;
            index < old(scope).stages@[stage as int].slots@.len() ==> slots[index as int] is Running
        }),
{
}

/// An item that is free and may start is run, and one that is not is left.
pub proof fn law_a_free_item_is_run(drain: &mut Drain, scope: &mut ScopeShared, step: Step)
    requires
        call_ensures(Drain::step, (drain, scope), step),
        old(drain).batch is Some,
        old(drain).batch->0.lo < old(drain).batch->0.hi,
    ensures
        ({
            let batch = old(drain).batch->0;
            let free = old(scope).stages@[batch.stage as int].slots@[batch.lo as int]
                is Unclaimed && item_ready(
                old(scope).stages@,
                batch.stage as int,
                batch.lo as int,
            );
            &&& step is Run <==> free
            &&& step == Step::Skipped <==> !free
            &&& final(drain).batch is Some
            &&& final(drain).batch->0.lo == batch.lo + 1
            &&& final(drain).batch->0.hi == batch.hi
            &&& final(drain).batch->0.stage == batch.stage
        }),
{
}

/// A helper takes one chunk, and nothing after that; the owner stops only when no chunk is left and
/// every stage was swept.
pub proof fn law_a_helper_takes_one_chunk(drain: &mut Drain, scope: &mut ScopeShared, step: Step)
    requires
        call_ensures(Drain::step, (drain, scope), step),
        old(drain).batch is None,
    ensures
        !old(drain).whole && old(drain).taken ==> step == Step::NothingLeft,
        old(drain).whole && step == Step::NothingLeft ==> old(drain).sweep_from
            >= old(scope).stages@.len() && forall|t: int|
            old(drain).chunks_from <= t < old(scope).stages@.len() ==> #[trigger] exhausted(
                old(scope).stages@,
                t,
            ),
        final(drain).taken,
        !old(drain).whole ==> !final(drain).sweeping || old(drain).sweeping,
{
}

/// A chunk is taken at the cursor of the first stage that has one, and the cursor moves by one.
pub proof fn law_chunks_are_taken_in_order(
    drain: &mut Drain,
    scope: &mut ScopeShared,
    step: Step,
    t: int,
)
    requires
        call_ensures(Drain::step, (drain, scope), step),
        old(drain).batch is None,
        step == Step::TookWork,
        !final(drain).sweeping,
        final(drain).batch->0.stage < old(scope).stages@.len(),
    ensures
        ({
            let batch = final(drain).batch->0;
            let stage = old(scope).stages@[batch.stage as int];
            &&& batch.lo == stage.plan.starts()[stage.cursor as int]
            &&& batch.hi == stage.plan.starts()[stage.cursor + 1]
            &&& final(scope).stages@[batch.stage as int].cursor == (stage.cursor + 1) as usize
            &&& !stage.is_held()
            &&& old(drain).chunks_from <= t < batch.stage ==> exhausted(old(scope).stages@, t)
        }),
{
}

/// A batch that is done counts for its weight, and the owner looks at its clock if it had any.
pub proof fn law_a_chunk_that_is_done_counts(
    drain: &mut Drain,
    scope: &mut ScopeShared,
    step: Step,
)
    requires
        call_ensures(Drain::step, (drain, scope), step),
        old(drain).batch is Some,
        old(drain).batch->0.lo >= old(drain).batch->0.hi,
        old(drain).done + old(drain).batch_weight <= u64::MAX,
    ensures
        step == (Step::BatchDone { look: old(drain).whole && old(drain).batch_weight > 0 }),
        final(drain).batch is None,
        old(drain).whole ==> final(drain).done == old(drain).done + old(drain).batch_weight,
        !old(drain).whole ==> final(drain).done == old(drain).done,
{
}

/// Each stage more adds the weight of the chunks that somebody has reserved of it.
pub proof fn law_reserved_chunks_count(stages: Seq<Stage>, stage: Stage)
    ensures
        all_reserved_weight(Seq::empty()) == 0,
        all_reserved_weight(stages.push(stage)) == all_reserved_weight(stages)
            + stage.plan.before()[stage.cursor as int],
{
    assert(stages.push(stage).drop_last() =~= stages);
}

} // verus!
