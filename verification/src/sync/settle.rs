//! The owner's walk over the items at the end of a scope: it goes over them in stage order, runs
//! what nobody has started, and waits for what other threads are running.

use vstd::prelude::*;

use crate::sync::scope::keeps_settled;
use crate::sync::scope::with_slot;
use crate::sync::scope::ScopeShared;
use crate::sync::slots::Slot;

verus! {

/// What the owner does next.
#[derive(Clone, Copy, PartialEq, Eq, Structural, Debug)]
pub enum Next {
    /// Nobody had started the item: the owner has claimed it and runs it now.
    Run { stage: usize, index: usize },
    /// Another thread is running the item: the owner waits until it has settled.
    WaitFor { stage: usize, index: usize },
    /// Every item has settled.
    Settled,
}

/// How far the owner has gone: up to an item of a stage.
pub struct Settle {
    pub stage: usize,
    pub index: usize,
}

impl Settle {
    /// Every item that the walk has passed has settled.
    pub open spec fn passed(&self, scope: &ScopeShared) -> bool {
        &&& self.stage <= scope.stages@.len()
        &&& scope.settled_before(self.stage as int)
        &&& self.stage == scope.stages@.len() ==> self.index == 0
        &&& self.stage < scope.stages@.len() ==> {
            &&& self.index <= scope.stages@[self.stage as int].slots@.len()
            &&& forall|i: int|
                0 <= i < self.index ==> (
                #[trigger] scope.stages@[self.stage as int].slots@[i]).settled()
        }
    }

    /// A walk that has passed nothing.
    pub fn new() -> (settle: Settle)
        ensures
            settle.stage == 0,
            settle.index == 0,
            forall|scope: ScopeShared| #[trigger] settle.passed(&scope),
    {
        Settle { stage: 0, index: 0 }
    }

    /// The next item of the first `stages` stages that has not settled, and what the owner does
    /// about it.
    pub fn step(&mut self, scope: &mut ScopeShared, stages: usize) -> (next: Next)
        requires
            old(scope).wf(),
            old(self).passed(old(scope)),
        ensures
            final(scope).wf(),
            final(scope).same_but_stages(old(scope)),
            final(self).passed(final(scope)),
            keeps_settled(old(scope).stages@, final(scope).stages@),
            old(scope).missing_is_cut_off() ==> final(scope).missing_is_cut_off(),
            match next {
                Next::Run { stage, index } => {
                    &&& final(self).stage == stage && final(self).index == index
                    &&& stage < stages && stage < old(scope).stages@.len()
                    &&& index < old(scope).stages@[stage as int].slots@.len()
                    &&& old(scope).stages@[stage as int].slots@[index as int] is Unclaimed
                    &&& with_slot(
                        old(scope).stages@,
                        stage as int,
                        index as int,
                        Slot::Running,
                        final(scope).stages@,
                    )
                },
                Next::WaitFor { stage, index } => {
                    &&& final(self).stage == stage && final(self).index == index
                    &&& stage < stages && stage < old(scope).stages@.len()
                    &&& index < old(scope).stages@[stage as int].slots@.len()
                    &&& old(scope).stages@[stage as int].slots@[index as int] is Running
                    &&& final(scope).stages@ == old(scope).stages@
                },
                Next::Settled => {
                    &&& old(scope).settled_before(stages as int)
                    &&& final(scope).stages@ == old(scope).stages@
                },
            },
    {
        while self.stage < stages && self.stage < scope.stages.len()
            invariant
                scope.wf(),
                *scope == *old(scope),
                self.passed(scope),
            decreases scope.stages@.len() - self.stage,
        {
            match scope.stages[self.stage].slots.first_unsettled(self.index) {
                Some(index) => {
                    self.index = index;
                    let stage = self.stage;
                    let ghost before = *scope;
                    let claimed = scope.claim(stage, index);
                    proof {
                        law_what_was_passed_stays_passed(*self, before, *scope);
                    }
                    if claimed {
                        return Next::Run { stage, index };
                    }
                    return Next::WaitFor { stage, index };
                },
                None => {
                    assert(scope.stage_settled(self.stage as int));
                    self.stage = self.stage + 1;
                    self.index = 0;
                },
            }
        }
        Next::Settled
    }
}

/// Whatever the threads do between two steps of the walk, what it has passed stays settled.
pub proof fn law_what_was_passed_stays_passed(settle: Settle, a: ScopeShared, b: ScopeShared)
    requires
        settle.passed(&a),
        keeps_settled(a.stages@, b.stages@),
    ensures
        settle.passed(&b),
{
    assert forall|s: int|
        0 <= s < settle.stage && s < b.stages@.len() implies #[trigger] b.stage_settled(s) by {
        assert(a.stage_settled(s));
        assert forall|i: int| 0 <= i < b.stages@[s].slots@.len() implies (
        #[trigger] b.stages@[s].slots@[i]).settled() by {
            assert(a.stages@[s].slots@[i].settled());
        }
    }
    if settle.stage < a.stages@.len() {
        assert forall|i: int| 0 <= i < settle.index implies (
        #[trigger] b.stages@[settle.stage as int].slots@[i]).settled() by {
            assert(a.stages@[settle.stage as int].slots@[i].settled());
        }
    }
}

} // verus!
