//! How a stage's indices are cut into chunks, and how many helpers the chunks pay for.

use vstd::prelude::*;

verus! {

/// How many chunks a stage is cut into per thread that may take them.
pub const CHUNKS_PER_THREAD: usize = 8;

/// How many unreserved chunks the owner of a scope is counted on to take itself.
pub const OWNER_CHUNKS: usize = 1;

/// The least measured work a chunk is cut to, in nanoseconds, and so the least a helper is ever
/// woken for.
pub const MIN_CHUNK_NS: u64 = 125_000;

/// How long the owner runs a stage before it first asks whether the rest pays for helpers.
pub const FIRST_LOOK_NS: u64 = 25_000;

/// What an item counts for: its weight, and at least one.
pub open spec fn item_weight(w: u64) -> nat {
    if w == 0 {
        1
    } else {
        w as nat
    }
}

/// The weight of the items `lo..hi`.
pub open spec fn run_weight(weights: Seq<u64>, lo: int, hi: int) -> nat
    decreases hi - lo,
{
    if hi <= lo {
        0
    } else {
        run_weight(weights, lo, hi - 1) + item_weight(weights[hi - 1])
    }
}

/// The weight at which a chunk closes: an even share of `total` per chunk, and at least `floor`.
pub open spec fn chunk_target(total: nat, threads: usize, floor: u64) -> nat {
    let wanted: int = (if threads == 0 { 1int } else { threads as int }) * CHUNKS_PER_THREAD;
    let share = total / ((if wanted > usize::MAX { usize::MAX as int } else { wanted }) as nat);
    let least: nat = if floor == 0 { 1 } else { floor as nat };
    if share < least {
        least
    } else {
        share
    }
}

/// `lo..hi` is the shortest run from `lo` that holds `target`.
pub open spec fn fills_at(weights: Seq<u64>, target: nat, lo: int, hi: int) -> bool {
    &&& lo < hi
    &&& run_weight(weights, lo, hi) >= target
    &&& forall|j: int| lo < j < hi ==> #[trigger] run_weight(weights, lo, j) < target
}

/// `lo..` is what is left once no run from `lo` that stops before the last item holds `target`.
pub open spec fn is_tail(weights: Seq<u64>, target: nat, lo: int) -> bool {
    &&& 0 <= lo < weights.len()
    &&& forall|j: int| lo < j < weights.len() ==> #[trigger] run_weight(weights, lo, j) < target
}

/// `lo..` is a full run with a short tail, under half of `target`, joined to it.
pub open spec fn has_joined_tail(weights: Seq<u64>, target: nat, lo: int) -> bool {
    exists|mid: int|
        {
            &&& #[trigger] fills_at(weights, target, lo, mid)
            &&& is_tail(weights, target, mid)
            &&& run_weight(weights, mid, weights.len() as int) < target / 2
        }
}

/// `starts` cuts `weights` greedily: every chunk but the last is the shortest run that holds
/// `target`, and the last is the tail, which joins the chunk before it when it is under half the
/// target.
pub open spec fn cuts_greedily(weights: Seq<u64>, target: nat, starts: Seq<usize>) -> bool {
    let chunks = starts.len() - 1;
    &&& chunks >= 1
    &&& starts[0] == 0
    &&& starts[chunks] == weights.len()
    &&& forall|k: int|
        0 <= k < chunks - 1 ==> #[trigger] fills_at(
            weights,
            target,
            starts[k] as int,
            starts[k + 1] as int,
        )
    &&& {
        ||| has_joined_tail(weights, target, starts[chunks - 1] as int)
        ||| {
            &&& is_tail(weights, target, starts[chunks - 1] as int)
            &&& chunks > 1 ==> run_weight(
                weights,
                starts[chunks - 1] as int,
                weights.len() as int,
            ) >= target / 2
        }
    }
}

/// How a stage's indices are cut into chunks: chunk `k` is `starts[k]..starts[k + 1]`, and
/// `before[k]` is the weight of every chunk before it, so the last entry of `before` is the whole
/// stage's.
pub struct Plan {
    starts: Vec<usize>,
    before: Vec<u64>,
}

impl Plan {
    /// The index each chunk starts at, and then the number of items.
    pub closed spec fn starts(&self) -> Seq<usize> {
        self.starts@
    }

    /// The weight of the chunks before each chunk, and then the weight of all.
    pub closed spec fn before(&self) -> Seq<u64> {
        self.before@
    }

    pub open spec fn wf(&self) -> bool {
        &&& 1 <= self.starts().len() <= usize::MAX
        &&& self.starts()[0] == 0
        &&& self.before().len() == self.starts().len()
        &&& self.before()[0] == 0
        &&& forall|i: int, j: int|
            0 <= i < j < self.starts().len() ==> #[trigger] self.starts()[i]
                < #[trigger] self.starts()[j]
        &&& forall|i: int, j: int|
            0 <= i < j < self.before().len() ==> #[trigger] self.before()[i]
                < #[trigger] self.before()[j]
    }

    /// The number of items.
    pub open spec fn item_count(&self) -> nat {
        self.starts().last() as nat
    }

    /// The number of chunks.
    pub open spec fn chunk_count(&self) -> nat {
        (self.starts().len() - 1) as nat
    }

    /// The weight of every item.
    pub open spec fn whole_weight(&self) -> nat {
        self.before().last() as nat
    }

    /// The plan cuts items of these weights for this many threads, with chunks of at least
    /// `floor`.
    pub open spec fn is_cut_of(&self, weights: Seq<u64>, threads: usize, floor: u64) -> bool {
        let total = run_weight(weights, 0, weights.len() as int);
        &&& self.wf()
        &&& self.item_count() == weights.len()
        &&& forall|k: int|
            0 <= k < self.starts().len() ==> #[trigger] self.before()[k] == run_weight(
                weights,
                0,
                self.starts()[k] as int,
            )
        &&& if weights.len() == 0 {
            self.starts() == seq![0usize]
        } else if weights.len() == 1 || total < 2 * floor {
            self.starts() == seq![0usize, weights.len() as usize]
        } else {
            cuts_greedily(weights, chunk_target(total, threads, floor), self.starts())
        }
    }
}

proof fn lemma_run_weight_splits(weights: Seq<u64>, lo: int, mid: int, hi: int)
    requires
        lo <= mid <= hi,
    ensures
        run_weight(weights, lo, hi) == run_weight(weights, lo, mid) + run_weight(weights, mid, hi),
    decreases hi - mid,
{
    if mid < hi {
        lemma_run_weight_splits(weights, lo, mid, hi - 1);
    }
}

proof fn lemma_run_weight_is_at_least_len(weights: Seq<u64>, lo: int, hi: int)
    requires
        lo <= hi,
    ensures
        run_weight(weights, lo, hi) >= hi - lo,
    decreases hi - lo,
{
    if lo < hi {
        lemma_run_weight_is_at_least_len(weights, lo, hi - 1);
    }
}

fn at_least_one(w: u64) -> (r: u64)
    ensures
        r == item_weight(w),
{
    if w == 0 {
        1
    } else {
        w
    }
}

impl Plan {
    /// Cuts the items into runs of about `total / (threads * CHUNKS_PER_THREAD)` weight and at
    /// least `floor`, in index order: an item is added to the open chunk, and the chunk closes
    /// once it holds the target. A last chunk under half the target joins the one before it. A
    /// stage of one item, or under two floors' weight, is one chunk.
    pub fn cut(weights: &[u64], threads: usize, floor: u64) -> (plan: Plan)
        requires
            run_weight(weights@, 0, weights@.len() as int) <= u64::MAX,
            2 * floor <= u64::MAX,
        ensures
            plan.is_cut_of(weights@, threads, floor),
    {
        let len: usize = weights.len();
        let mut total: u64 = 0;
        let mut i: usize = 0;
        while i < len
            invariant
                i <= len,
                len == weights@.len(),
                total == run_weight(weights@, 0, i as int),
                run_weight(weights@, 0, len as int) <= u64::MAX,
            decreases len - i,
        {
            proof {
                lemma_run_weight_splits(weights@, 0, i + 1, len as int);
            }
            total = total + at_least_one(weights[i]);
            i += 1;
        }
        let least_threads: usize = if threads == 0 {
            1
        } else {
            threads
        };
        let wanted: usize = match least_threads.checked_mul(CHUNKS_PER_THREAD) {
            Some(wanted) => wanted,
            None => usize::MAX,
        };
        let share: u64 = total / (wanted as u64);
        let least: u64 = at_least_one(floor);
        let target: u64 = if share < least {
            least
        } else {
            share
        };
        assert(target == chunk_target(total as nat, threads, floor));
        let mut starts: Vec<usize> = Vec::new();
        let mut before: Vec<u64> = Vec::new();
        starts.push(0);
        before.push(0);
        if len > 1 && total >= 2 * floor {
            return Self::cut_runs(weights, total, target);
        }
        if len > 0 {
            starts.push(len);
            before.push(total);
            proof {
                lemma_run_weight_is_at_least_len(weights@, 0, len as int);
            }
        }
        assert(run_weight(weights@, 0, 0) == 0);
        assert(len > 0 ==> starts@ =~= seq![0usize, len]);
        assert(len == 0 ==> starts@ =~= seq![0usize]);
        assert(starts.len() <= usize::MAX);
        Plan { starts, before }
    }

    /// Cuts more than one item into greedy runs of at least `target`.
    fn cut_runs(weights: &[u64], total: u64, target: u64) -> (plan: Plan)
        requires
            weights@.len() > 1,
            total == run_weight(weights@, 0, weights@.len() as int),
            target >= 1,
        ensures
            plan.wf(),
            plan.item_count() == weights@.len(),
            forall|k: int|
                0 <= k < plan.starts().len() ==> #[trigger] plan.before()[k] == run_weight(
                    weights@,
                    0,
                    plan.starts()[k] as int,
                ),
            cuts_greedily(weights@, target as nat, plan.starts()),
    {
        let len: usize = weights.len();
        let mut starts: Vec<usize> = Vec::new();
        let mut before: Vec<u64> = Vec::new();
        starts.push(0);
        before.push(0);
        // The weight of the chunks closed so far, and of the open one.
        let mut closed: u64 = 0;
        let mut open: u64 = 0;
        let mut index: usize = 0;
        // The last item never closes a chunk: whatever is open then is the tail.
        while index < len - 1
            invariant
                index <= len - 1,
                len == weights@.len(),
                len > 1,
                total == run_weight(weights@, 0, len as int),
                is_cut_so_far(weights@, target as nat, starts@, before@),
                starts@.last() <= index,
                closed == run_weight(weights@, 0, starts@.last() as int),
                open == run_weight(weights@, starts@.last() as int, index as int),
                forall|j: int|
                    starts@.last() < j <= index ==> #[trigger] run_weight(
                        weights@,
                        starts@.last() as int,
                        j,
                    ) < target,
            decreases len - index,
        {
            let ghost from = starts@.last() as int;
            proof {
                lemma_run_weight_splits(weights@, 0, from, index + 1);
                lemma_run_weight_splits(weights@, 0, index + 1, len as int);
            }
            open = open + at_least_one(weights[index]);
            if open >= target {
                let ghost cut = starts@;
                let ghost sums = before@;
                closed = closed + open;
                open = 0;
                starts.push(index + 1);
                before.push(closed);
                proof {
                    assert(fills_at(weights@, target as nat, from, index + 1));
                    lemma_cut_grows(weights@, target as nat, cut, sums, (index + 1) as usize, closed);
                }
            }
            index += 1;
        }
        let ghost from = starts@.last() as int;
        proof {
            lemma_run_weight_splits(weights@, 0, from, len as int);
            assert(is_tail(weights@, target as nat, from));
        }
        open = open + at_least_one(weights[len - 1]);
        if open < target / 2 && starts.len() > 1 {
            let ghost all = starts@;
            starts.pop();
            before.pop();
            proof {
                let k = all.len() - 2;
                assert(fills_at(weights@, target as nat, all[k] as int, all[k + 1] as int));
                assert(has_joined_tail(weights@, target as nat, starts@.last() as int));
                assert(forall|k: int| 0 <= k < starts@.len() ==> starts@[k] == all[k]);
            }
        }
        let ghost cut = starts@;
        let ghost sums = before@;
        starts.push(len);
        before.push(total);
        proof {
            lemma_run_weight_splits(weights@, 0, cut.last() as int, len as int);
            lemma_run_weight_is_at_least_len(weights@, cut.last() as int, len as int);
            let n = cut.len() - 1;
            assert(sums[n] == run_weight(weights@, 0, cut[n] as int));
            assert(forall|i: int| 0 <= i < n ==> #[trigger] sums[i] < sums[n]);
            assert(forall|i: int| 0 <= i < n ==> #[trigger] cut[i] < cut[n]);
            assert forall|k: int| 0 <= k < starts@.len() - 2 implies #[trigger] fills_at(
                weights@,
                target as nat,
                starts@[k] as int,
                starts@[k + 1] as int,
            ) by {
                assert(fills_at(weights@, target as nat, cut[k] as int, cut[k + 1] as int));
            }
        }
        assert(starts.len() <= usize::MAX);
        Plan { starts, before }
    }
}

/// A cut that has not reached the end yet: full runs from zero, with the weight before each.
spec fn is_cut_so_far(
    weights: Seq<u64>,
    target: nat,
    starts: Seq<usize>,
    before: Seq<u64>,
) -> bool {
    &&& starts.len() >= 1
    &&& before.len() == starts.len()
    &&& starts[0] == 0
    &&& before[0] == 0
    &&& starts.last() < weights.len()
    &&& forall|i: int, j: int|
        0 <= i < j < starts.len() ==> #[trigger] starts[i] < #[trigger] starts[j]
    &&& forall|i: int, j: int|
        0 <= i < j < before.len() ==> #[trigger] before[i] < #[trigger] before[j]
    &&& forall|k: int|
        0 <= k < starts.len() ==> #[trigger] before[k] == run_weight(weights, 0, starts[k] as int)
    &&& forall|k: int|
        0 <= k < starts.len() - 1 ==> #[trigger] fills_at(
            weights,
            target,
            starts[k] as int,
            starts[k + 1] as int,
        )
}

proof fn lemma_cut_grows(
    weights: Seq<u64>,
    target: nat,
    starts: Seq<usize>,
    before: Seq<u64>,
    at: usize,
    closed: u64,
)
    requires
        is_cut_so_far(weights, target, starts, before),
        fills_at(weights, target, starts.last() as int, at as int),
        at < weights.len(),
        closed == run_weight(weights, 0, at as int),
    ensures
        is_cut_so_far(weights, target, starts.push(at), before.push(closed)),
{
    let grown = starts.push(at);
    let n = starts.len() - 1;
    assert(before[n] == run_weight(weights, 0, starts[n] as int));
    assert(forall|i: int| 0 <= i < n ==> #[trigger] before[i] < before[n]);
    assert(forall|i: int| 0 <= i < n ==> #[trigger] starts[i] < starts[n]);
    lemma_run_weight_splits(weights, 0, starts.last() as int, at as int);
    lemma_run_weight_is_at_least_len(weights, starts.last() as int, at as int);
    assert forall|k: int| 0 <= k < grown.len() - 1 implies #[trigger] fills_at(
        weights,
        target,
        grown[k] as int,
        grown[k + 1] as int,
    ) by {
        if k < starts.len() - 1 {
            assert(fills_at(weights, target, starts[k] as int, starts[k + 1] as int));
        }
    }
}

impl Plan {
    /// The weight of the chunk that starts at `start`, or zero if none does.
    pub fn chunk_weight_at(&self, start: usize) -> (weight: u64)
        requires
            self.wf(),
        ensures
            forall|k: int|
                0 <= k < self.chunk_count() && #[trigger] self.starts()[k] == start ==> weight
                    == self.before()[k + 1] - self.before()[k],
            !(exists|k: int| 0 <= k < self.chunk_count() && #[trigger] self.starts()[k] == start)
                ==> weight == 0,
    {
        let chunks: usize = self.starts.len() - 1;
        let mut lo: usize = 0;
        let mut hi: usize = chunks;
        while lo < hi
            invariant
                self.wf(),
                chunks == self.chunk_count(),
                lo <= hi <= chunks,
                forall|k: int| 0 <= k < lo ==> #[trigger] self.starts()[k] < start,
                forall|k: int| hi <= k < chunks ==> #[trigger] self.starts()[k] >= start,
            decreases hi - lo,
        {
            let mid: usize = lo + (hi - lo) / 2;
            let at: usize = self.starts[mid];
            assert(at == self.starts()[mid as int]);
            if at < start {
                lo = mid + 1;
            } else {
                hi = mid;
            }
        }
        if lo < chunks && self.starts[lo] == start {
            assert(self.starts()[lo as int] == start);
            assert(self.before()[lo as int] < self.before()[lo + 1]);
            self.before[lo + 1] - self.before[lo]
        } else {
            0
        }
    }

    pub fn len(&self) -> (n: usize)
        requires
            self.wf(),
        ensures
            n == self.item_count(),
    {
        self.starts[self.starts.len() - 1]
    }

    pub fn chunks(&self) -> (n: usize)
        requires
            self.wf(),
        ensures
            n == self.chunk_count(),
    {
        self.starts.len() - 1
    }

    /// The indices of chunk `k`: the first, and the one past the last.
    pub fn chunk(&self, k: usize) -> (range: (usize, usize))
        requires
            self.wf(),
            k < self.chunk_count(),
        ensures
            range == (self.starts()[k as int], self.starts()[k + 1]),
            range.0 < range.1 <= self.item_count(),
    {
        assert(self.starts()[k + 1] <= self.starts()[self.starts().len() - 1]);
        assert(k < self.starts.len() - 1);
        (self.starts[k], self.starts[k + 1])
    }

    pub fn total(&self) -> (weight: u64)
        requires
            self.wf(),
        ensures
            weight == self.whole_weight(),
    {
        self.before[self.before.len() - 1]
    }

    /// The weight of chunks `k..`.
    pub fn weight_from(&self, k: usize) -> (weight: u64)
        requires
            self.wf(),
        ensures
            weight == self.weight_after(k as int),
    {
        let chunks: usize = self.chunks();
        let from: usize = if k < chunks {
            k
        } else {
            chunks
        };
        assert(self.before()[from as int] <= self.before()[self.before().len() - 1]);
        self.total() - self.before[from]
    }

    /// The weight of the chunks from `k` on.
    pub open spec fn weight_after(&self, k: int) -> int {
        if k < self.chunk_count() {
            self.whole_weight() - self.before()[k]
        } else {
            0
        }
    }

    /// Whether a stage of this plan, alone in a scope, would wake a helper.
    pub fn pays(&self) -> (yes: bool)
        requires
            self.wf(),
        ensures
            yes <==> affordable_helpers(self.chunk_count(), self.whole_weight()) > 0,
    {
        helpers_for(self.chunks(), self.total()) > 0
    }
}

/// How many helpers unreserved work pays for, before the width and the pool cap it: one per chunk,
/// and no more than one per `MIN_CHUNK_NS` of measured work, less the owner's own chunk.
pub open spec fn affordable_helpers(chunks: nat, weight: nat) -> nat {
    let by_weight = weight / (MIN_CHUNK_NS as nat);
    let paid = if chunks < by_weight {
        chunks
    } else {
        by_weight
    };
    if paid < OWNER_CHUNKS {
        0
    } else {
        (paid - OWNER_CHUNKS) as nat
    }
}

pub fn helpers_for(chunks: usize, weight: u64) -> (helpers: usize)
    ensures
        helpers == affordable_helpers(chunks as nat, weight as nat),
{
    let by_weight: u64 = weight / MIN_CHUNK_NS;
    let paid: usize = if (chunks as u64) < by_weight {
        chunks
    } else {
        by_weight as usize
    };
    if paid < OWNER_CHUNKS {
        0
    } else {
        paid - OWNER_CHUNKS
    }
}

/// How many threads may take a scope's items at once, the owner included: the session's width,
/// or fewer when the pool has fewer workers.
pub open spec fn thread_limit(width: int, workers: int) -> int {
    if width < workers + 1 {
        width
    } else {
        workers + 1
    }
}

pub fn threads_for(width: usize, workers: usize) -> (threads: usize)
    ensures
        threads == thread_limit(width as int, workers as int),
{
    if width <= workers {
        width
    } else {
        workers + 1
    }
}

/// How many threads a stage may use, the caller's among them: the width of the session, or, on a
/// thread that is in none (`session` is zero), the pool and the caller.
pub fn width(session: usize, workers: usize) -> (threads: usize)
    requires
        session == 0 ==> workers < usize::MAX,
    ensures
        threads == (if session == 0 {
            workers + 1
        } else {
            session as int
        }),
{
    if session == 0 {
        workers + 1
    } else {
        session
    }
}

/// `threads_for` the session at hand, if it runs in parallel.
pub fn threads_here(parallel: bool, width: usize, workers: usize) -> (threads: Option<usize>)
    ensures
        threads == (if parallel {
            Some(thread_limit(width as int, workers as int) as usize)
        } else {
            None::<usize>
        }),
{
    if parallel {
        Some(threads_for(width, workers))
    } else {
        None
    }
}

/// The chunks of a plan are not empty and meet end to end, so they hold every index once: index
/// `i` lies in exactly one chunk.
pub proof fn law_chunks_partition_the_indices(plan: Plan, i: int)
    requires
        plan.wf(),
        0 <= i < plan.item_count(),
    ensures
        exists|k: int|
            {
                &&& 0 <= k < plan.chunk_count()
                &&& #[trigger] plan.starts()[k] <= i < plan.starts()[k + 1]
                &&& forall|other: int|
                    0 <= other < plan.chunk_count() && (#[trigger] plan.starts()[other]) <= i
                        < plan.starts()[other + 1] ==> other == k
            },
{
    let k = chunk_holding(plan.starts(), i, plan.chunk_count() as int);
    lemma_chunk_holding(plan, i, plan.chunk_count() as int);
    assert forall|other: int|
        0 <= other < plan.chunk_count() && (#[trigger] plan.starts()[other]) <= i
            < plan.starts()[other + 1] implies other == k by {
        if other < k {
            assert(plan.starts()[other + 1] <= plan.starts()[k]);
        } else if k < other {
            assert(plan.starts()[k + 1] <= plan.starts()[other]);
        }
    }
}

/// The last of the first `n` chunks that starts at or before `i`.
spec fn chunk_holding(starts: Seq<usize>, i: int, n: int) -> int
    decreases n,
{
    if n <= 1 || starts[n - 1] <= i {
        n - 1
    } else {
        chunk_holding(starts, i, n - 1)
    }
}

proof fn lemma_chunk_holding(plan: Plan, i: int, n: int)
    requires
        plan.wf(),
        1 <= n <= plan.chunk_count(),
        0 <= i < plan.starts()[n],
    ensures
        ({
            let k = chunk_holding(plan.starts(), i, n);
            0 <= k < n && plan.starts()[k] <= i < plan.starts()[k + 1]
        }),
    decreases n,
{
    if n > 1 && plan.starts()[n - 1] > i {
        lemma_chunk_holding(plan, i, n - 1);
    }
}

/// Chunk `k` of the plan for a stage's tail, from `rest` on, holds item `i` of the stage.
pub open spec fn chunk_has_item(plan: Plan, rest: int, k: int, i: int) -> bool {
    0 <= k < plan.chunk_count() && plan.starts()[k] <= i - rest < plan.starts()[k + 1]
}

/// The chunks of a stage's tail, from `rest` on, cover exactly the items from `rest` to the end,
/// each once: item `i` is in exactly one of them, and in none if it is not in the tail.
pub proof fn law_the_tail_is_covered_once(plan: Plan, rest: int, len: int, i: int)
    requires
        plan.wf(),
        0 <= rest <= len,
        plan.item_count() == len - rest,
    ensures
        rest <= i < len <==> exists|k: int| chunk_has_item(plan, rest, k, i),
        forall|k: int, other: int| #[trigger]
            chunk_has_item(plan, rest, k, i) && #[trigger] chunk_has_item(plan, rest, other, i)
                ==> k == other,
{
    if rest <= i < len {
        lemma_chunk_holding(plan, i - rest, plan.chunk_count() as int);
        let k = chunk_holding(plan.starts(), i - rest, plan.chunk_count() as int);
        assert(chunk_has_item(plan, rest, k, i));
    }
    assert forall|k: int| #[trigger] chunk_has_item(plan, rest, k, i) implies rest <= i < len by {
        assert(plan.starts()[0] <= plan.starts()[k]);
        assert(plan.starts()[k + 1] <= plan.starts()[plan.chunk_count() as int]);
    }
    assert forall|k: int, other: int| #[trigger]
        chunk_has_item(plan, rest, k, i) && #[trigger] chunk_has_item(
            plan,
            rest,
            other,
            i,
        ) implies k == other by {
        if other < k {
            assert(plan.starts()[other + 1] <= plan.starts()[k]);
        } else if k < other {
            assert(plan.starts()[k + 1] <= plan.starts()[other]);
        }
    }
}

/// A stage with under two chunks, or under two chunks' weight of measured work, wakes nobody, and
/// any other does.
pub proof fn law_a_plan_pays_from_two_chunks_on(plan: Plan)
    requires
        plan.wf(),
    ensures
        affordable_helpers(plan.chunk_count(), plan.whole_weight()) > 0 <==> plan.chunk_count() >= 2
            && plan.whole_weight() >= 2 * MIN_CHUNK_NS,
{
}

/// There is one way to cut given weights: two plans for the same items, threads and floor have
/// the same chunks.
pub proof fn law_the_cut_is_determined(
    a: Plan,
    b: Plan,
    weights: Seq<u64>,
    threads: usize,
    floor: u64,
)
    requires
        a.is_cut_of(weights, threads, floor),
        b.is_cut_of(weights, threads, floor),
    ensures
        a.starts() == b.starts(),
        a.before() == b.before(),
{
    let total = run_weight(weights, 0, weights.len() as int);
    if weights.len() > 1 && total >= 2 * floor {
        lemma_greedy_cut_is_unique(
            weights,
            chunk_target(total, threads, floor),
            a.starts(),
            b.starts(),
        );
    }
    assert(a.before() =~= b.before());
}

proof fn lemma_greedy_starts_stay_below(
    weights: Seq<u64>,
    target: nat,
    starts: Seq<usize>,
    k: int,
)
    requires
        cuts_greedily(weights, target, starts),
        0 <= k < starts.len() - 1,
    ensures
        starts[k] < weights.len(),
    decreases starts.len() - k,
{
    if k < starts.len() - 2 {
        assert(fills_at(weights, target, starts[k] as int, starts[k + 1] as int));
        lemma_greedy_starts_stay_below(weights, target, starts, k + 1);
    } else if has_joined_tail(weights, target, starts[k] as int) {
        let mid = choose|mid: int|
            {
                &&& #[trigger] fills_at(weights, target, starts[k] as int, mid)
                &&& is_tail(weights, target, mid)
                &&& run_weight(weights, mid, weights.len() as int) < target / 2
            };
        assert(starts[k] < mid < weights.len());
    }
}

/// If `a` has a chunk before its last at `k`, then so has `b`, and it ends where that of `a` does.
proof fn lemma_greedy_step(weights: Seq<u64>, target: nat, a: Seq<usize>, b: Seq<usize>, k: int)
    requires
        cuts_greedily(weights, target, a),
        cuts_greedily(weights, target, b),
        0 <= k < a.len() - 2,
        k < b.len() - 1,
        a[k] == b[k],
    ensures
        k < b.len() - 2,
        a[k + 1] == b[k + 1],
{
    let from = a[k] as int;
    let at = a[k + 1] as int;
    lemma_greedy_starts_stay_below(weights, target, a, k + 1);
    assert(fills_at(weights, target, from, at));
    if k < b.len() - 2 {
        assert(fills_at(weights, target, b[k] as int, b[k + 1] as int));
    } else if has_joined_tail(weights, target, from) {
        let mid = choose|mid: int|
            {
                &&& #[trigger] fills_at(weights, target, from, mid)
                &&& is_tail(weights, target, mid)
                &&& run_weight(weights, mid, weights.len() as int) < target / 2
            };
        assert(mid == at);
        if k + 1 < a.len() - 2 {
            let j = k + 1;
            lemma_greedy_starts_stay_below(weights, target, a, j + 1);
            assert(fills_at(weights, target, a[j] as int, a[j + 1] as int));
            assert(false);
        } else if has_joined_tail(weights, target, at) {
            let later = choose|later: int|
                {
                    &&& #[trigger] fills_at(weights, target, at, later)
                    &&& is_tail(weights, target, later)
                    &&& run_weight(weights, later, weights.len() as int) < target / 2
                };
            assert(run_weight(weights, at, later) < target);
            assert(false);
        } else {
            assert(false);
        }
    } else {
        assert(is_tail(weights, target, from));
        assert(run_weight(weights, from, at) < target);
        assert(false);
    }
}

proof fn lemma_greedy_prefix_is_unique(
    weights: Seq<u64>,
    target: nat,
    a: Seq<usize>,
    b: Seq<usize>,
    k: int,
)
    requires
        cuts_greedily(weights, target, a),
        cuts_greedily(weights, target, b),
        0 <= k < a.len() - 1,
    ensures
        k < b.len() - 1,
        a[k] == b[k],
    decreases k,
{
    if k > 0 {
        lemma_greedy_prefix_is_unique(weights, target, a, b, k - 1);
        lemma_greedy_step(weights, target, a, b, k - 1);
    }
}

proof fn lemma_greedy_cut_is_unique(weights: Seq<u64>, target: nat, a: Seq<usize>, b: Seq<usize>)
    requires
        cuts_greedily(weights, target, a),
        cuts_greedily(weights, target, b),
    ensures
        a == b,
{
    lemma_greedy_prefix_is_unique(weights, target, a, b, a.len() - 2);
    lemma_greedy_prefix_is_unique(weights, target, b, a, b.len() - 2);
    assert forall|k: int| 0 <= k < a.len() implies a[k] == b[k] by {
        if k < a.len() - 1 {
            lemma_greedy_prefix_is_unique(weights, target, a, b, k);
        }
    }
    assert(a =~= b);
}

/// No item counts for nothing.
pub proof fn law_every_item_has_weight(weights: Seq<u64>, lo: int, hi: int)
    requires
        0 <= lo <= hi < weights.len(),
    ensures
        run_weight(weights, lo, lo) == 0,
        weights[hi] > 0 ==> run_weight(weights, lo, hi + 1) == run_weight(weights, lo, hi)
            + weights[hi],
        weights[hi] == 0 ==> run_weight(weights, lo, hi + 1) == run_weight(weights, lo, hi) + 1,
{
}

/// A chunk is closed at the least weight that is asked for, or, where that is more, at an eighth of
/// a thread's share.
pub proof fn law_a_chunk_is_an_eighth_of_a_share(total: nat, threads: usize, floor: u64)
    requires
        0 < threads,
        8 * threads <= usize::MAX,
    ensures
        chunk_target(total, threads, floor) >= 1,
        chunk_target(total, threads, floor) >= floor,
        chunk_target(total, threads, floor) >= total / (8 * threads as nat),
        floor > 0 ==> chunk_target(total, threads, floor) == floor || chunk_target(
            total,
            threads,
            floor,
        ) == total / (8 * threads as nat),
        floor == 0 ==> chunk_target(total, threads, floor) == 1 || chunk_target(
            total,
            threads,
            floor,
        ) == total / (8 * threads as nat),
{
}

/// A stage that is cut has no chunk below its target but the last, and no chunk but the last has an
/// item too many; a stage without items has no chunk, and one with little weight has one.
pub proof fn law_a_chunk_holds_what_it_should(
    weights: &[u64],
    threads: usize,
    floor: u64,
    plan: Plan,
    k: int,
)
    requires
        call_ensures(Plan::cut, (weights, threads, floor), plan),
        0 <= k < plan.chunk_count() - 1,
    ensures
        ({
            let total = run_weight(weights@, 0, weights@.len() as int);
            let lo = plan.starts()[k] as int;
            let hi = plan.starts()[k + 1] as int;
            &&& weights@.len() > 1
            &&& total >= 2 * floor
            &&& run_weight(weights@, lo, hi) >= chunk_target(total, threads, floor)
            &&& lo < hi - 1 ==> run_weight(weights@, lo, hi - 1) < chunk_target(
                total,
                threads,
                floor,
            )
        }),
{
    assert(fills_at(
        weights@,
        chunk_target(run_weight(weights@, 0, weights@.len() as int), threads, floor),
        plan.starts()[k] as int,
        plan.starts()[k + 1] as int,
    ));
}

/// The helpers that work pays for: together with the owner no more than there are chunks, and each
/// with 125 microseconds of work, and as many as that allows.
pub proof fn law_a_helper_is_paid_for(chunks: usize, weight: u64, helpers: usize)
    requires
        call_ensures(helpers_for, (chunks, weight), helpers),
    ensures
        helpers > 0 ==> helpers + 1 <= chunks,
        helpers > 0 ==> (helpers + 1) * 125_000 <= weight,
        helpers + 2 > chunks || (helpers + 2) * 125_000 > weight,
{
    let paid = weight as nat / 125_000nat;
    assert(paid * 125_000 <= weight < (paid + 1) * 125_000);
}

/// No more threads work than the session has, nor than the pool and the owner are, and no fewer.
pub proof fn law_threads_are_used_as_far_as_they_go(
    session: usize,
    workers: usize,
    threads: usize,
    parallel: bool,
    here: Option<usize>,
)
    requires
        call_ensures(threads_for, (session, workers), threads),
        call_ensures(threads_here, (parallel, session, workers), here),
    ensures
        threads <= session,
        threads <= workers + 1,
        threads == session || threads == workers + 1,
        here is Some <==> parallel,
        parallel ==> here == Some(threads),
{
}

/// The chunks from one on weigh what those before it leave of the whole, and past the last chunk
/// nothing is left.
pub proof fn law_what_is_left_weighs_the_rest(plan: &Plan, k: usize, rest: u64, total: u64)
    requires
        plan.wf(),
        call_ensures(Plan::weight_from, (plan, k), rest),
        call_ensures(Plan::total, (plan,), total),
    ensures
        k >= plan.chunk_count() ==> rest == 0,
        k < plan.chunk_count() ==> plan.before()[k as int] + rest == total,
        k == 0 && plan.chunk_count() > 0 ==> rest == total,
{
}

} // verus!
