//! A stage that runs serially until what its first items took says whether the rest pays for
//! helpers.

use vstd::prelude::*;

use crate::sync::drain::twice;
use crate::sync::plan::affordable_helpers;
use crate::sync::plan::item_weight;
use crate::sync::plan::law_a_plan_pays_from_two_chunks_on;
use crate::sync::plan::run_weight;
use crate::sync::plan::Plan;
use crate::sync::plan::FIRST_LOOK_NS;
use crate::sync::plan::MIN_CHUNK_NS;
use crate::sync::scope::in_ns;
use crate::sync::scope::measured_ns;

verus! {

/// What the thread that runs a stage does after an item.
pub enum Look {
    /// Every item has run.
    Finished,
    /// It runs the next item.
    RunNext,
    /// The items from `rest` on become a stage of their own, cut by this plan.
    FanOut { rest: usize, plan: Plan },
}

/// A stage's items, run one after another and timed.
pub struct MeasuredLoop {
    /// What each item weighs, at least one.
    weights: Vec<u64>,
    /// How many threads may take the items.
    threads: usize,
    /// The next item to run.
    start: usize,
    /// The weight of the items that have run.
    done: u64,
    /// When the thread first, or next, asks whether the rest pays.
    check: u64,
}

/// The item of a stage that item `index` of its tail, from `rest` on, is.
pub fn tail_item(rest: usize, index: usize, len: usize) -> (item: usize)
    requires
        rest + index < len,
    ensures
        item == rest + index,
{
    rest + index
}

/// Every item of a tail has its answer.
pub open spec fn all_there<O>(tail: Seq<Option<O>>) -> bool {
    forall|i: int| 0 <= i < tail.len() ==> #[trigger] tail[i] is Some
}

/// The answers of a whole stage, from those of the items that ran serially and those of the rest,
/// each at its place. `None` if one of the rest has no answer.
pub fn join_answers<O>(head: Vec<O>, tail: Vec<Option<O>>) -> (answers: Option<Vec<O>>)
    ensures
        answers is Some == all_there(tail@),
        answers matches Some(all) ==> all@ == head@ + Seq::new(
            tail@.len(),
            |i: int| tail@[i]->0,
        ),
{
    let ghost first = head@;
    let ghost given = tail@;
    let ghost mut done: int = 0;
    let mut answers = head;
    let mut rest = tail;
    assert(answers@ =~= first + Seq::new(0, |i: int| given[i]->0));
    while rest.len() > 0
        invariant
            0 <= done <= given.len(),
            first == head@,
            given == tail@,
            rest@ == given.skip(done),
            forall|i: int| 0 <= i < done ==> #[trigger] given[i] is Some,
            answers@ == first + Seq::new(done as nat, |i: int| given[i]->0),
        decreases rest@.len(),
    {
        let next = rest.remove(0);
        proof {
            assert(given.skip(done)[0] == given[done]);
            assert(rest@ =~= given.skip(done + 1));
        }
        match next {
            Some(answer) => {
                answers.push(answer);
                proof {
                    done = done + 1;
                    assert(answers@ =~= first + Seq::new(done as nat, |i: int| given[i]->0));
                }
            },
            None => {
                return None;
            },
        }
    }
    Some(answers)
}

/// A stage that was fanned out answers like a serial one: if the items that ran first and those of
/// the tail each have an answer of theirs, so has every item of the whole.
pub proof fn law_a_fanned_out_stage_answers_like_a_serial_one<In, O, F: Fn(&In, usize) -> O>(
    input: In,
    f: F,
    head: Seq<O>,
    tail: Seq<O>,
    len: usize,
)
    requires
        head.len() + tail.len() == len,
        forall|i: usize| i < head.len() ==> call_ensures(f, (&input, i), #[trigger] head[i as int]),
        forall|k: int|
            0 <= k < tail.len() ==> call_ensures(
                f,
                (&input, (head.len() + k) as usize),
                #[trigger] tail[k],
            ),
    ensures
        forall|i: usize|
            i < len ==> call_ensures(f, (&input, i), #[trigger] (head + tail)[i as int]),
{
    assert forall|i: usize| i < len implies call_ensures(
        f,
        (&input, i),
        #[trigger] (head + tail)[i as int],
    ) by {
        if i < head.len() {
            assert((head + tail)[i as int] == head[i as int]);
        } else {
            let k = i - head.len();
            assert((head + tail)[i as int] == tail[k]);
            assert((head.len() + k) as usize == i);
        }
    }
}

/// The weights of the items from `rest` on, in nanoseconds at the rate of `done` weight in `spent`.
pub open spec fn rest_in_ns(weights: Seq<u64>, rest: int, spent: u64, done: u64) -> Seq<u64> {
    Seq::new(
        (weights.len() - rest) as nat,
        |k: int| in_ns(weights[rest + k] as nat, spent as nat, done as nat) as u64,
    )
}

impl MeasuredLoop {
    pub closed spec fn weights(&self) -> Seq<u64> {
        self.weights@
    }

    pub closed spec fn threads(&self) -> usize {
        self.threads
    }

    /// The next item to run.
    pub closed spec fn next(&self) -> usize {
        self.start
    }

    pub closed spec fn done(&self) -> u64 {
        self.done
    }

    pub closed spec fn check(&self) -> u64 {
        self.check
    }

    pub open spec fn wf(&self) -> bool {
        &&& self.next() <= self.weights().len()
        &&& self.done() == run_weight(self.weights(), 0, self.next() as int)
        &&& run_weight(self.weights(), 0, self.weights().len() as int) <= u64::MAX
        &&& forall|i: int| 0 <= i < self.weights().len() ==> #[trigger] self.weights()[i] >= 1
    }

    /// The item weights in nanoseconds of the items after the next one, if it takes the run to
    /// `spent`.
    pub open spec fn measured_rest(&self, spent: u64) -> Seq<u64> {
        rest_in_ns(
            self.weights(),
            self.next() + 1,
            spent,
            (self.done() + self.weights()[self.next() as int]) as u64,
        )
    }

    /// The measured weights that are left add up to what a `u64` holds.
    pub open spec fn rest_fits(&self, spent: u64) -> bool {
        let rest = self.measured_rest(spent);
        run_weight(rest, 0, rest.len() as int) <= u64::MAX
    }

    /// A stage of `len` items, none of which has run. An item with no weight given counts as one.
    pub fn new(given: Option<&Vec<u32>>, len: usize, threads: usize) -> (run: MeasuredLoop)
        requires
            given matches Some(given) ==> given@.len() == len,
            len * u32::MAX <= u64::MAX,
        ensures
            run.wf(),
            run.next() == 0,
            run.check() == FIRST_LOOK_NS,
            run.threads() == threads,
            run.weights().len() == len,
            forall|i: int|
                0 <= i < len ==> #[trigger] run.weights()[i] == (match given {
                    Some(given) => item_weight(given@[i] as u64),
                    None => 1,
                }),
    {
        let mut weights: Vec<u64> = Vec::new();
        let mut i: usize = 0;
        while i < len
            invariant
                i <= len,
                weights@.len() == i,
                given matches Some(given) ==> given@.len() == len,
                run_weight(weights@, 0, i as int) <= i * u32::MAX,
                forall|k: int|
                    0 <= k < i ==> #[trigger] weights@[k] == (match given {
                        Some(given) => item_weight(given@[k] as u64),
                        None => 1,
                    }),
            decreases len - i,
        {
            let w: u64 = match given {
                Some(given) => {
                    if given[i] == 0 {
                        1
                    } else {
                        given[i] as u64
                    }
                },
                None => 1,
            };
            let ghost before = weights@;
            weights.push(w);
            proof {
                lemma_run_weight_of_prefix(before, weights@, i as int);
                assert((i + 1) * u32::MAX == i * u32::MAX + u32::MAX) by (nonlinear_arith);
            }
            i += 1;
        }
        MeasuredLoop { weights, threads, start: 0, done: 0, check: FIRST_LOOK_NS }
    }

    /// Whether the measured weights that are left, if the next item takes the run to `spent`, add
    /// up to what a `u64` holds.
    pub fn measurement_fits(&self, spent: u64) -> (fits: bool)
        requires
            self.wf(),
            self.next() < self.weights().len(),
        ensures
            fits == self.rest_fits(spent),
    {
        proof {
            lemma_run_weight_is_monotone(self.weights(), self.next() + 1, self.weights().len() as int);
        }
        assert(self.start < self.weights.len());
        let done: u64 = self.done + self.weights[self.start];
        let rest = self.in_nanoseconds(self.start + 1, spent, done);
        let mut total: u64 = 0;
        let mut i: usize = 0;
        assert(rest@ =~= self.measured_rest(spent));
        while i < rest.len()
            invariant
                i <= rest@.len(),
                total == run_weight(rest@, 0, i as int),
                rest@ == self.measured_rest(spent),
            decreases rest@.len() - i,
        {
            let w: u64 = if rest[i] == 0 {
                1
            } else {
                rest[i]
            };
            match total.checked_add(w) {
                Some(sum) => {
                    total = sum;
                },
                None => {
                    proof {
                        lemma_run_weight_is_monotone(rest@, i + 1, rest@.len() as int);
                    }
                    return false;
                },
            }
            i += 1;
        }
        true
    }

    fn in_nanoseconds(&self, rest: usize, spent: u64, done: u64) -> (ns: Vec<u64>)
        requires
            rest <= self.weights().len(),
        ensures
            ns@ == rest_in_ns(self.weights(), rest as int, spent, done),
    {
        let mut ns: Vec<u64> = Vec::new();
        let mut i: usize = rest;
        while i < self.weights.len()
            invariant
                rest <= i <= self.weights().len(),
                ns@ == rest_in_ns(self.weights(), rest as int, spent, done).take(i - rest),
            decreases self.weights().len() - i,
        {
            ns.push(measured_ns(self.weights[i], spent, done));
            i += 1;
            assert(ns@ =~= rest_in_ns(self.weights(), rest as int, spent, done).take(i - rest));
        }
        assert(ns@ =~= rest_in_ns(self.weights(), rest as int, spent, done));
        ns
    }

    /// The next item has run, and the clock says that the run has taken `spent` nanoseconds.
    pub fn item_done(&mut self, spent: u64) -> (look: Look)
        requires
            old(self).wf(),
            old(self).next() < old(self).weights().len(),
            spent >= old(self).check() ==> old(self).rest_fits(spent),
        ensures
            final(self).wf(),
            final(self).weights() == old(self).weights(),
            final(self).threads() == old(self).threads(),
            final(self).next() == old(self).next() + 1,
            match look {
                Look::Finished => {
                    &&& final(self).next() == old(self).weights().len()
                    &&& final(self).check() == old(self).check()
                },
                Look::RunNext => {
                    &&& final(self).next() < old(self).weights().len()
                    &&& if spent < old(self).check() {
                        final(self).check() == old(self).check()
                    } else {
                        &&& final(self).check() == (if 2 * spent > u64::MAX {
                            u64::MAX as int
                        } else {
                            2 * spent
                        })
                        &&& forall|plan: Plan|
                            #[trigger] plan.is_cut_of(
                                old(self).measured_rest(spent),
                                old(self).threads(),
                                MIN_CHUNK_NS,
                            ) ==> affordable_helpers(plan.chunk_count(), plan.whole_weight()) == 0
                    }
                },
                Look::FanOut { rest, plan } => {
                    &&& spent >= old(self).check()
                    &&& rest == final(self).next()
                    &&& rest < old(self).weights().len()
                    &&& plan.item_count() == old(self).weights().len() - rest
                    &&& plan.is_cut_of(
                        old(self).measured_rest(spent),
                        old(self).threads(),
                        MIN_CHUNK_NS,
                    )
                    &&& affordable_helpers(plan.chunk_count(), plan.whole_weight()) > 0
                    &&& final(self).check() == old(self).check()
                },
            },
    {
        proof {
            lemma_run_weight_is_monotone(self.weights(), self.next() + 1, self.weights().len() as int);
        }
        let ghost before = *self;
        assert(self.start < self.weights.len());
        self.done = self.done + self.weights[self.start];
        self.start = self.start + 1;
        if self.start == self.weights.len() {
            return Look::Finished;
        }
        if spent < self.check {
            return Look::RunNext;
        }
        let rest: usize = self.start;
        let ns = self.in_nanoseconds(rest, spent, self.done);
        assert(ns@ =~= before.measured_rest(spent));
        let plan = Plan::cut(ns.as_slice(), self.threads, MIN_CHUNK_NS);
        if plan.pays() {
            return Look::FanOut { rest, plan };
        }
        proof {
            assert forall|other: Plan| #[trigger]
                other.is_cut_of(before.measured_rest(spent), before.threads(), MIN_CHUNK_NS) implies affordable_helpers(
                other.chunk_count(),
                other.whole_weight(),
            ) == 0 by {
                crate::sync::plan::law_the_cut_is_determined(
                    plan,
                    other,
                    before.measured_rest(spent),
                    before.threads(),
                    MIN_CHUNK_NS,
                );
            }
        }
        self.check = twice(spent);
        Look::RunNext
    }
}

proof fn lemma_run_weight_of_prefix(a: Seq<u64>, b: Seq<u64>, n: int)
    requires
        0 <= n <= a.len(),
        n <= b.len(),
        forall|i: int| 0 <= i < n ==> a[i] == b[i],
    ensures
        run_weight(a, 0, n) == run_weight(b, 0, n),
    decreases n,
{
    if n > 0 {
        lemma_run_weight_of_prefix(a, b, n - 1);
    }
}

proof fn lemma_run_weight_is_monotone(weights: Seq<u64>, lo: int, hi: int)
    requires
        0 <= lo <= hi,
    ensures
        run_weight(weights, 0, lo) <= run_weight(weights, 0, hi),
    decreases hi,
{
    if lo < hi {
        lemma_run_weight_is_monotone(weights, lo, hi - 1);
    }
}

/// A stage looks at the clock only as often as it is worth it, and fans out only then: before the
/// time has come it runs item after item.
pub proof fn law_a_stage_waits_before_it_fans_out(
    run: &mut MeasuredLoop,
    spent: u64,
    look: Look,
)
    requires
        call_ensures(MeasuredLoop::item_done, (run, spent), look),
        old(run).next() < old(run).weights().len(),
    ensures
        spent < old(run).check() ==> !(look is FanOut),
        old(run).next() + 1 == old(run).weights().len() ==> look is Finished,
        old(run).next() + 1 < old(run).weights().len() ==> !(look is Finished),
        look is RunNext && spent >= old(run).check() ==> final(run).check() >= 2 * spent
            || final(run).check() == u64::MAX,
        look is FanOut ==> look->plan.chunk_count() >= 2 && look->plan.whole_weight() >= 250_000,
        look is FanOut ==> look->rest == old(run).next() + 1,
{
    if look is FanOut {
        law_a_plan_pays_from_two_chunks_on(look->plan);
    }
}

/// The first look at the clock comes after 25 microseconds.
pub proof fn law_the_first_look_comes_early(
    given: Option<&Vec<u32>>,
    len: usize,
    threads: usize,
    run: MeasuredLoop,
    i: int,
)
    requires
        call_ensures(MeasuredLoop::new, (given, len, threads), run),
        0 <= i < len,
    ensures
        run.check() == 25_000,
        run.next() == 0,
        given is Some && given->0@[i] > 0 ==> run.weights()[i] == given->0@[i],
        given is Some && given->0@[i] == 0 ==> run.weights()[i] == 1,
        given is None ==> run.weights()[i] == 1,
{
}

/// The rest of a stage is measured at the rate of what has run: each weight by the time over the
/// weight.
pub proof fn law_the_rest_is_measured_at_the_same_rate(
    weights: Seq<u64>,
    rest: int,
    spent: u64,
    done: u64,
    k: int,
)
    requires
        0 <= rest,
        0 <= k < weights.len() - rest,
        done > 0,
        weights[rest + k] * spent / done as int <= u64::MAX,
    ensures
        rest_in_ns(weights, rest, spent, done).len() == weights.len() - rest,
        rest_in_ns(weights, rest, spent, done)[k] == weights[rest + k] * spent / done as int,
{
}

} // verus!
