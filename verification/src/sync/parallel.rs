//! Work that could be spread over threads, done on the one at hand, in order.

use vstd::prelude::*;

verus! {

/// Holds what went wrong in a section until the whole section has run. Nothing is held as long as a
/// failure ends the process at its source.
pub struct ParallelGuard {
    failed: bool,
}

impl ParallelGuard {
    pub fn new() -> (guard: ParallelGuard)
        ensures
            !guard.failed(),
    {
        ParallelGuard { failed: false }
    }

    /// Something is held.
    pub closed spec fn failed(&self) -> bool {
        self.failed
    }

    /// Runs a part of the section.
    pub fn run<R>(&self, f: impl FnOnce() -> R) -> (r: Option<R>)
        requires
            call_requires(f, ()),
        ensures
            r is Some,
            call_ensures(f, (), r->0),
    {
        Some(f())
    }
}

/// Runs a section with a guard of its own. What the guard holds would be raised afterwards.
pub fn parallel_guard<R>(f: impl FnOnce(&ParallelGuard) -> R) -> (r: R)
    requires
        forall|guard: ParallelGuard| !guard.failed() ==> #[trigger] call_requires(f, (&guard,)),
    ensures
        exists|guard: ParallelGuard|
            !guard.failed() && #[trigger] call_ensures(f, (&guard,), r),
{
    let guard = ParallelGuard::new();
    f(&guard)
}

/// Runs the function.
pub fn spawn(func: impl FnOnce())
    requires
        call_requires(func, ()),
    ensures
        call_ensures(func, (), ()),
{
    func()
}

/// Runs each function once, in order.
pub fn par_fns<F: Fn()>(funcs: &Vec<F>)
    requires
        forall|i: int| 0 <= i < funcs@.len() ==> call_requires(#[trigger] funcs@[i], ()),
    ensures
        forall|i: int| 0 <= i < funcs@.len() ==> call_ensures(#[trigger] funcs@[i], (), ()),
{
    let mut i: usize = 0;
    while i < funcs.len()
        invariant
            i <= funcs@.len(),
            forall|k: int| 0 <= k < funcs@.len() ==> call_requires(#[trigger] funcs@[k], ()),
            forall|k: int| 0 <= k < i ==> call_ensures(#[trigger] funcs@[k], (), ()),
        decreases funcs@.len() - i,
    {
        let f = &funcs[i];
        f();
        i += 1;
    }
}

/// Runs both functions, the first one first.
pub fn par_join<A, B, RA, RB>(oper_a: A, oper_b: B) -> (results: (RA, RB)) where
    A: FnOnce() -> RA,
    B: FnOnce() -> RB,

    requires
        call_requires(oper_a, ()),
        call_requires(oper_b, ()),
    ensures
        call_ensures(oper_a, (), results.0),
        call_ensures(oper_b, (), results.1),
{
    let a = oper_a();
    let b = oper_b();
    (a, b)
}

/// Runs `for_each` once for each item, in order.
pub fn par_for_each_in<I>(items: &Vec<I>, for_each: impl Fn(&I))
    requires
        forall|i: int| 0 <= i < items@.len() ==> call_requires(for_each, (&#[trigger] items@[i],)),
    ensures
        forall|i: int|
            0 <= i < items@.len() ==> call_ensures(for_each, (&#[trigger] items@[i],), ()),
{
    let mut i: usize = 0;
    while i < items.len()
        invariant
            i <= items@.len(),
            forall|k: int|
                0 <= k < items@.len() ==> call_requires(for_each, (&#[trigger] items@[k],)),
            forall|k: int| 0 <= k < i ==> call_ensures(for_each, (&#[trigger] items@[k],), ()),
        decreases items@.len() - i,
    {
        for_each(&items[i]);
        i += 1;
    }
}

/// Changes each item to what `for_each` makes of it, in order.
pub fn par_for_each_slice<T: Copy>(items: &mut Vec<T>, for_each: impl Fn(T) -> T)
    requires
        forall|i: int|
            0 <= i < old(items)@.len() ==> call_requires(for_each, (#[trigger] old(items)@[i],)),
    ensures
        final(items)@.len() == old(items)@.len(),
        forall|i: int|
            0 <= i < old(items)@.len() ==> call_ensures(
                for_each,
                (old(items)@[i],),
                #[trigger] final(items)@[i],
            ),
{
    let ghost before = items@;
    let mut i: usize = 0;
    while i < items.len()
        invariant
            i <= items@.len(),
            items@.len() == before.len(),
            forall|k: int|
                0 <= k < before.len() ==> call_requires(for_each, (#[trigger] before[k],)),
            forall|k: int| i <= k < before.len() ==> #[trigger] items@[k] == before[k],
            forall|k: int|
                0 <= k < i ==> call_ensures(for_each, (before[k],), #[trigger] items@[k]),
        decreases items@.len() - i,
    {
        assert(items@[i as int] == before[i as int]);
        let changed = for_each(items[i]);
        items.set(i, changed);
        i += 1;
    }
}

/// Item `i` ended in the error, and those before it in none.
pub open spec fn first_failure<I, E, F: Fn(&I) -> Result<(), E>>(
    for_each: F,
    items: Seq<I>,
    i: int,
    error: E,
) -> bool {
    &&& call_ensures(for_each, (&items[i],), Err::<(), E>(error))
    &&& forall|k: int|
        0 <= k < i ==> call_ensures(for_each, (&#[trigger] items[k],), Ok::<(), E>(()))
}

/// The item was run: the call came to something.
pub open spec fn was_run<I, E, F: Fn(&I) -> Result<(), E>>(for_each: F, item: I) -> bool {
    exists|r: Result<(), E>| call_ensures(for_each, (&item,), r)
}

/// Runs `for_each` once for each item, in order, whether or not an earlier one failed. If any
/// failed, the error is that of the first that did.
pub fn try_par_for_each_in<I, E, F: Fn(&I) -> Result<(), E>>(
    items: &Vec<I>,
    for_each: F,
) -> (result: Result<(), E>)
    requires
        forall|i: int| 0 <= i < items@.len() ==> call_requires(for_each, (&#[trigger] items@[i],)),
    ensures
        result is Ok ==> forall|i: int|
            0 <= i < items@.len() ==> call_ensures(
                for_each,
                (&#[trigger] items@[i],),
                Ok::<(), E>(()),
            ),
        result matches Err(error) ==> exists|i: int|
            0 <= i < items@.len() && #[trigger] first_failure(for_each, items@, i, error),
        forall|i: int| 0 <= i < items@.len() ==> was_run::<I, E, F>(for_each, #[trigger] items@[i]),
{
    let mut result: Result<(), E> = Ok(());
    let mut i: usize = 0;
    while i < items.len()
        invariant
            i <= items@.len(),
            forall|k: int|
                0 <= k < items@.len() ==> call_requires(for_each, (&#[trigger] items@[k],)),
            result is Ok ==> forall|k: int|
                0 <= k < i ==> call_ensures(for_each, (&#[trigger] items@[k],), Ok::<(), E>(())),
            result matches Err(error) ==> exists|k: int|
                0 <= k < i && #[trigger] first_failure(for_each, items@, k, error),
            forall|k: int| 0 <= k < i ==> was_run::<I, E, F>(for_each, #[trigger] items@[k]),
        decreases items@.len() - i,
    {
        let one = for_each(&items[i]);
        assert(call_ensures(for_each, (&items@[i as int],), one));
        assert(was_run::<I, E, F>(for_each, items@[i as int]));
        match one {
            Ok(done) => {
                assert(done == ());
            },
            Err(error) => {
                if result.is_ok() {
                    assert(first_failure(for_each, items@, i as int, error));
                    result = Err(error);
                }
            },
        }
        i += 1;
    }
    result
}

/// What `map` makes of each item, in order.
pub fn par_map<I: Copy, R>(items: &Vec<I>, map: impl Fn(I) -> R) -> (results: Vec<R>)
    requires
        forall|i: int| 0 <= i < items@.len() ==> call_requires(map, (#[trigger] items@[i],)),
    ensures
        results@.len() == items@.len(),
        forall|i: int|
            0 <= i < results@.len() ==> call_ensures(map, (items@[i],), #[trigger] results@[i]),
{
    let mut results: Vec<R> = Vec::new();
    let mut i: usize = 0;
    while i < items.len()
        invariant
            i <= items@.len(),
            results@.len() == i,
            forall|k: int| 0 <= k < items@.len() ==> call_requires(map, (#[trigger] items@[k],)),
            forall|k: int|
                0 <= k < results@.len() ==> call_ensures(map, (items@[k],), #[trigger] results@[k]),
        decreases items@.len() - i,
    {
        results.push(map(items[i]));
        i += 1;
    }
    results
}

/// Runs `op` once for each worker. There is one, this thread.
pub fn broadcast<R>(op: impl Fn(usize) -> R) -> (results: Vec<R>)
    requires
        call_requires(op, (0usize,)),
    ensures
        results@.len() == 1,
        call_ensures(op, (0usize,), results@[0]),
{
    let mut results: Vec<R> = Vec::new();
    results.push(op(0));
    results
}

} // verus!
