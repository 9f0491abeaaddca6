//! Diagnostics as owned output: collected for each parallel item and for each query, and replayed
//! in serial order.
//!
//! While an item runs, what it emits into a context that is older than the item goes into the
//! item's own collection. A query that runs inside an item has a collection of its own, which is
//! frozen into a record when the query is done; whoever uses the query's result refers to the
//! record. Items are replayed in order, and a record comes out where the first reference to it is
//! reached, which is where a serial run would have run the query.

use vstd::prelude::*;

verus! {

#[derive(Clone, Copy, PartialEq, Eq, Structural, Debug)]
pub enum ScopeKind {
    /// A parallel item.
    Item,
    /// A query that runs inside an item.
    Query,
}

/// A scope that is open on a thread.
#[derive(Clone, Copy)]
pub struct Scope {
    pub kind: ScopeKind,
    /// Contexts that are older than this are captured.
    pub opened: u64,
    /// The start of the outermost stage that the scope is part of.
    pub root: u64,
    /// Where the scope's events go, once there is one.
    pub collection: Option<usize>,
}

/// One entry of a collection.
pub enum Event<E> {
    /// Something done to a context.
    Dcx {
        /// Which context.
        dcx: u64,
        /// The clock value at which that context was made.
        created: u64,
        kind: E,
    },
    /// A query was used whose record has this number.
    Consumed(usize),
}

/// The collections and the records of a session, and its clock.
pub struct Hub<E> {
    clock: u64,
    collections: Vec<Vec<Event<E>>>,
    records: Vec<Vec<Event<E>>>,
}

/// What a hub holds. A record that is empty has come out already.
pub struct HubModel<E> {
    pub clock: u64,
    pub collections: Seq<Seq<Event<E>>>,
    pub records: Seq<Seq<Event<E>>>,
}

/// The contents of each list.
pub open spec fn lists<T>(v: Seq<Vec<T>>) -> Seq<Seq<T>> {
    Seq::new(v.len(), |i: int| v[i]@)
}

impl<E> View for Hub<E> {
    type V = HubModel<E>;

    closed spec fn view(&self) -> HubModel<E> {
        HubModel {
            clock: self.clock,
            collections: lists(self.collections@),
            records: lists(self.records@),
        }
    }
}

/// How many events there are in all.
pub open spec fn event_total<T>(lists: Seq<Seq<T>>) -> nat
    decreases lists.len(),
{
    if lists.len() == 0 {
        0
    } else {
        event_total(lists.drop_last()) + lists.last().len()
    }
}

pub proof fn lemma_total_after_taking<T>(lists: Seq<Seq<T>>, r: int)
    requires
        0 <= r < lists.len(),
    ensures
        event_total(lists.update(r, Seq::empty())) + lists[r].len() == event_total(lists),
    decreases lists.len(),
{
    let after = lists.update(r, Seq::empty());
    if r == lists.len() - 1 {
        assert(after.drop_last() =~= lists.drop_last());
    } else {
        lemma_total_after_taking(lists.drop_last(), r);
        assert(after.drop_last() =~= lists.drop_last().update(r, Seq::empty()));
        assert(after.last() == lists.last());
    }
}

/// The records and what comes out of them, once `events` were applied from the front: a reference
/// to a record stands for its events, the first time it is reached.
pub open spec fn applied<E>(records: Seq<Seq<Event<E>>>, events: Seq<Event<E>>) -> (
    Seq<Seq<Event<E>>>,
    Seq<(u64, E)>,
)
    decreases event_total(records) + events.len(),
{
    if events.len() == 0 {
        (records, Seq::empty())
    } else {
        let rest = events.skip(1);
        match events[0] {
            Event::Dcx { dcx, created, kind } => {
                let later = applied(records, rest);
                (later.0, seq![(dcx, kind)] + later.1)
            },
            Event::Consumed(r) => if r < records.len() {
                proof {
                    lemma_total_after_taking(records, r as int);
                }
                applied(records.update(r as int, Seq::empty()), records[r as int] + rest)
            } else {
                applied(records, rest)
            },
        }
    }
}

/// The scope that captures an emission into a context made at `created`: the innermost one that
/// does, looking through queries down to the item that they run in and no further.
pub open spec fn capturing(scopes: Seq<Scope>, created: u64) -> Option<int>
    decreases scopes.len(),
{
    if scopes.len() == 0 {
        None
    } else if created < scopes.last().opened {
        Some(scopes.len() - 1)
    } else if scopes.last().kind == ScopeKind::Item {
        None
    } else {
        capturing(scopes.drop_last(), created)
    }
}

proof fn lemma_capturing_is_open(scopes: Seq<Scope>, created: u64)
    ensures
        capturing(scopes, created) matches Some(i) ==> 0 <= i < scopes.len() && created
            < scopes[i].opened,
    decreases scopes.len(),
{
    if scopes.len() > 0 {
        lemma_capturing_is_open(scopes.drop_last(), created);
    }
}

/// The scopes that are open on a thread, innermost last.
pub struct ScopeStack {
    scopes: Vec<Scope>,
}

impl View for ScopeStack {
    type V = Seq<Scope>;

    closed spec fn view(&self) -> Seq<Scope> {
        self.scopes@
    }
}

/// Every scope's collection is one of the hub's.
pub open spec fn collected_in<E>(scopes: Seq<Scope>, hub: HubModel<E>) -> bool {
    forall|i: int|
        0 <= i < scopes.len() ==> ((#[trigger] scopes[i]).collection matches Some(c) ==> c
            < hub.collections.len())
}

/// The scopes and the hub, once scope `i` has a collection, and which it is.
pub open spec fn with_collection<E>(scopes: Seq<Scope>, hub: HubModel<E>, i: int) -> (
    Seq<Scope>,
    HubModel<E>,
    int,
) {
    match scopes[i].collection {
        Some(c) => (scopes, hub, c as int),
        None => (
            scopes.update(
                i,
                Scope { collection: Some(hub.collections.len() as usize), ..scopes[i] },
            ),
            HubModel { collections: hub.collections.push(Seq::empty()), ..hub },
            hub.collections.len() as int,
        ),
    }
}

/// The hub with an event at the end of a collection.
pub open spec fn with_event<E>(hub: HubModel<E>, c: int, event: Event<E>) -> HubModel<E> {
    HubModel { collections: hub.collections.update(c, hub.collections[c].push(event)), ..hub }
}

impl<E> Hub<E> {
    /// A hub with nothing in it.
    pub fn new() -> (hub: Hub<E>)
        ensures
            hub@ == (HubModel::<E> {
                clock: 1,
                collections: Seq::empty(),
                records: Seq::empty(),
            }),
    {
        let hub = Hub { clock: 1, collections: Vec::new(), records: Vec::new() };
        assert(hub@.collections =~= Seq::<Seq<Event<E>>>::empty());
        assert(hub@.records =~= Seq::<Seq<Event<E>>>::empty());
        hub
    }

    /// The next value of the clock.
    pub fn tick(&mut self) -> (now: u64)
        requires
            old(self)@.clock < u64::MAX,
        ensures
            now == old(self)@.clock,
            final(self)@ == (HubModel { clock: (old(self)@.clock + 1) as u64, ..old(self)@ }),
    {
        let now = self.clock;
        self.clock = self.clock + 1;
        now
    }

    fn push_event(&mut self, c: usize, event: Event<E>)
        requires
            c < old(self)@.collections.len(),
        ensures
            final(self)@ == with_event(old(self)@, c as int, event),
    {
        let ghost before = self@;
        self.collections[c].push(event);
        assert(self@.collections =~= with_event(before, c as int, event).collections);
    }

    /// Takes the events of a collection.
    fn take_collection(&mut self, c: usize) -> (events: Vec<Event<E>>)
        requires
            c < old(self)@.collections.len(),
        ensures
            events@ == old(self)@.collections[c as int],
            final(self)@ == (HubModel {
                collections: old(self)@.collections.update(c as int, Seq::empty()),
                ..old(self)@
            }),
    {
        let ghost before = self@;
        let mut events: Vec<Event<E>> = Vec::new();
        std::mem::swap(&mut events, &mut self.collections[c]);
        assert(self@.collections =~= before.collections.update(c as int, Seq::empty()));
        events
    }

    /// Takes the events of a record. It has come out then.
    fn take_record(&mut self, r: usize) -> (events: Vec<Event<E>>)
        requires
            r < old(self)@.records.len(),
        ensures
            events@ == old(self)@.records[r as int],
            final(self)@ == (HubModel {
                records: old(self)@.records.update(r as int, Seq::empty()),
                ..old(self)@
            }),
    {
        let ghost before = self@;
        let mut events: Vec<Event<E>> = Vec::new();
        std::mem::swap(&mut events, &mut self.records[r]);
        assert(self@.records =~= before.records.update(r as int, Seq::empty()));
        events
    }

    /// Whether a record has come out already.
    pub fn is_spent(&self, r: usize) -> (yes: bool)
        requires
            r < self@.records.len(),
        ensures
            yes == (self@.records[r as int].len() == 0),
    {
        self.records[r].len() == 0
    }

    /// Applies events, in order, with the records that they refer to in place.
    fn apply(&mut self, events: Vec<Event<E>>) -> (out: Vec<(u64, E)>)
        ensures
            ({
                let done = applied(old(self)@.records, events@);
                &&& out@ == done.1
                &&& final(self)@ == (HubModel { records: done.0, ..old(self)@ })
            }),
    {
        let ghost before = self@;
        let ghost all = events@;
        let mut out: Vec<(u64, E)> = Vec::new();
        // What is still to be applied, the next event last.
        let mut pending: Vec<Event<E>> = Vec::new();
        push_reversed(&mut pending, events);
        assert(pending@.reverse() =~= all);
        while pending.len() > 0
            invariant
                self@ == (HubModel { records: self@.records, ..before }),
                ({
                    let left = applied(self@.records, pending@.reverse());
                    let done = applied(before.records, all);
                    left.0 == done.0 && out@ + left.1 == done.1
                }),
            decreases event_total(self@.records) + pending@.len(),
        {
            let ghost work = pending@.reverse();
            let ghost records = self@.records;
            let ghost popped = pending@.last();
            let ghost gone = out@;
            let ghost left = applied(records, work);
            let event = pending.pop();
            proof {
                assert(work[0] == popped);
                assert(work.skip(1) =~= pending@.reverse());
            }
            match event {
                Some(Event::Dcx { dcx, created: _, kind }) => {
                    let ghost later = applied(records, work.skip(1));
                    out.push((dcx, kind));
                    proof {
                        assert(left.1 == seq![(dcx, kind)] + later.1);
                        assert(gone + left.1 =~= out@ + later.1);
                    }
                },
                Some(Event::Consumed(r)) => {
                    if r < self.records.len() {
                        proof {
                            lemma_total_after_taking(records, r as int);
                        }
                        let taken = self.take_record(r);
                        let ghost behind = pending@;
                        push_reversed(&mut pending, taken);
                        assert(pending@.reverse() =~= records[r as int] + behind.reverse());
                    }
                },
                None => {
                    assert(false);
                },
            }
        }
        assert(pending@.reverse() =~= Seq::<Event<E>>::empty());
        assert(out@ + Seq::<(u64, E)>::empty() =~= out@);
        out
    }
}

/// Puts `events` on a stack, so that the first of them is on top.
fn push_reversed<E>(stack: &mut Vec<Event<E>>, events: Vec<Event<E>>)
    ensures
        final(stack)@ == old(stack)@ + events@.reverse(),
{
    let ghost before = stack@;
    let ghost all = events@;
    let mut events = events;
    while events.len() > 0
        invariant
            events@.len() <= all.len(),
            events@ == all.take(events@.len() as int),
            stack@ == before + all.skip(events@.len() as int).reverse(),
        decreases events@.len(),
    {
        let ghost n = events@.len();
        match events.pop() {
            Some(event) => {
                stack.push(event);
                proof {
                    assert(event == all[n - 1]);
                    assert(all.skip(n - 1).reverse() =~= all.skip(n as int).reverse().push(event));
                    assert(stack@ =~= before + all.skip(n - 1).reverse());
                }
            },
            None => {
                assert(false);
            },
        }
    }
    assert(all.skip(0) =~= all);
}

/// The scopes and the hub, once an event has gone into the collection of scope `i`.
pub open spec fn collected<E>(scopes: Seq<Scope>, hub: HubModel<E>, i: int, event: Event<E>) -> (
    Seq<Scope>,
    HubModel<E>,
) {
    let ready = with_collection(scopes, hub, i);
    (ready.0, with_event(ready.1, ready.2, event))
}

impl ScopeStack {
    /// A stack with no scope open.
    pub fn new() -> (stack: ScopeStack)
        ensures
            stack@ == Seq::<Scope>::empty(),
    {
        ScopeStack { scopes: Vec::new() }
    }

    /// The collection of scope `i`, which is made if there is none.
    fn collection<E>(&mut self, i: usize, hub: &mut Hub<E>) -> (c: usize)
        requires
            i < old(self)@.len(),
            collected_in(old(self)@, old(hub)@),
        ensures
            ({
                let ready = with_collection(old(self)@, old(hub)@, i as int);
                &&& final(self)@ == ready.0
                &&& final(hub)@ == ready.1
                &&& c == ready.2
            }),
            c < final(hub)@.collections.len(),
            collected_in(final(self)@, final(hub)@),
    {
        let ghost before = hub@;
        let ghost scopes = self@;
        match self.scopes[i].collection {
            Some(c) => {
                assert(collected_in(scopes, before));
                assert(scopes[i as int].collection == Some(c));
                c
            },
            None => {
                let c = hub.collections.len();
                hub.collections.push(Vec::new());
                let scope = self.scopes[i];
                self.scopes.set(
                    i,
                    Scope {
                        kind: scope.kind,
                        opened: scope.opened,
                        root: scope.root,
                        collection: Some(c),
                    },
                );
                assert(hub@.collections =~= before.collections.push(Seq::empty()));
                assert forall|k: int| 0 <= k < self@.len() implies ((
                #[trigger] self@[k]).collection matches Some(x) ==> x < hub@.collections.len()) by {
                    if k != i {
                        assert(self@[k] == scopes[k]);
                    }
                }
                c
            },
        }
    }

    /// The scope that captures an emission into a context made at `created`, if one does.
    pub fn capturing_scope(&self, created: u64) -> (at: Option<usize>)
        ensures
            match at {
                Some(i) => capturing(self@, created) == Some(i as int) && i < self@.len(),
                None => capturing(self@, created) is None,
            },
    {
        let mut n: usize = self.scopes.len();
        assert(self@.take(n as int) =~= self@);
        while n > 0
            invariant
                n <= self@.len(),
                capturing(self@.take(n as int), created) == capturing(self@, created),
            decreases n,
        {
            let scope = self.scopes[n - 1];
            proof {
                assert(self@.take(n as int).drop_last() =~= self@.take(n - 1));
                assert(self@.take(n as int).last() == scope);
            }
            if created < scope.opened {
                return Some(n - 1);
            }
            if scope.kind == ScopeKind::Item {
                return None;
            }
            n -= 1;
        }
        None
    }

    /// Whether an emission into a context made at `created` is captured.
    pub fn captures(&self, created: u64) -> (yes: bool)
        ensures
            yes == (capturing(self@, created) is Some),
    {
        self.capturing_scope(created).is_some()
    }

    /// Puts what was done to a context into the collection of the scope that captures it.
    pub fn capture<E>(&mut self, hub: &mut Hub<E>, dcx: u64, created: u64, kind: E)
        requires
            collected_in(old(self)@, old(hub)@),
            capturing(old(self)@, created) is Some,
        ensures
            ({
                let done = collected(
                    old(self)@,
                    old(hub)@,
                    capturing(old(self)@, created)->0,
                    Event::Dcx { dcx, created, kind },
                );
                final(self)@ == done.0 && final(hub)@ == done.1
            }),
            collected_in(final(self)@, final(hub)@),
    {
        match self.capturing_scope(created) {
            Some(i) => {
                let c = self.collection(i, hub);
                hub.push_event(c, Event::Dcx { dcx, created, kind });
            },
            None => {
                assert(false);
            },
        }
    }

    /// This thread used a query whose record is `r`. Inside a scope the reference is collected;
    /// outside every scope the record comes out now. A record that has come out already does
    /// nothing.
    pub fn consume_query_diagnostics<E>(&mut self, hub: &mut Hub<E>, r: usize) -> (out: Vec<
        (u64, E),
    >)
        requires
            collected_in(old(self)@, old(hub)@),
            r < old(hub)@.records.len(),
        ensures
            collected_in(final(self)@, final(hub)@),
            old(hub)@.records[r as int].len() == 0 ==> final(self)@ == old(self)@ && final(hub)@
                == old(hub)@ && out@.len() == 0,
            old(hub)@.records[r as int].len() > 0 && old(self)@.len() > 0 ==> ({
                let done = collected(
                    old(self)@,
                    old(hub)@,
                    old(self)@.len() - 1,
                    Event::Consumed(r),
                );
                final(self)@ == done.0 && final(hub)@ == done.1 && out@.len() == 0
            }),
            old(hub)@.records[r as int].len() > 0 && old(self)@.len() == 0 ==> ({
                let done = applied(old(hub)@.records, seq![Event::Consumed(r)]);
                &&& final(self)@ == old(self)@
                &&& final(hub)@ == (HubModel { records: done.0, ..old(hub)@ })
                &&& out@ == done.1
            }),
    {
        if hub.is_spent(r) {
            return Vec::new();
        }
        let n = self.scopes.len();
        if n > 0 {
            let c = self.collection(n - 1, hub);
            hub.push_event(c, Event::Consumed(r));
            Vec::new()
        } else {
            let mut events: Vec<Event<E>> = Vec::new();
            events.push(Event::Consumed(r));
            assert(events@ =~= seq![Event::Consumed(r)]);
            hub.apply(events)
        }
    }
}

/// The stream of a query that runs inside an item.
pub struct QueryFrame;

/// The events of a closed scope: none if it never had a collection.
pub open spec fn events_of<E>(scope: Scope, hub: HubModel<E>) -> Seq<Event<E>> {
    match scope.collection {
        Some(c) => hub.collections[c as int],
        None => Seq::empty(),
    }
}

/// The hub without the events of a closed scope.
pub open spec fn emptied<E>(scope: Scope, hub: HubModel<E>) -> HubModel<E> {
    match scope.collection {
        Some(c) => HubModel {
            collections: hub.collections.update(c as int, Seq::empty()),
            ..hub
        },
        None => hub,
    }
}

impl QueryFrame {
    /// Opens a stream for a query, if the thread is inside an item. A serial session has none.
    pub fn open(stack: &mut ScopeStack, dyn_thread_safe: bool) -> (frame: Option<QueryFrame>)
        ensures
            frame is Some == (dyn_thread_safe && old(stack)@.len() > 0),
            final(stack)@ == (if frame is Some {
                old(stack)@.push(
                    Scope {
                        kind: ScopeKind::Query,
                        opened: old(stack)@.last().root,
                        root: old(stack)@.last().root,
                        collection: None,
                    },
                )
            } else {
                old(stack)@
            }),
    {
        let n = stack.scopes.len();
        if !dyn_thread_safe || n == 0 {
            return None;
        }
        let root = stack.scopes[n - 1].root;
        stack.scopes.push(Scope { kind: ScopeKind::Query, opened: root, root, collection: None });
        Some(QueryFrame)
    }

    /// The query is done. What it emitted is frozen into a record, to which whatever ran the query
    /// refers. A query that emitted nothing has no record.
    pub fn close<E>(self, stack: &mut ScopeStack, hub: &mut Hub<E>) -> (record: Option<usize>)
        requires
            collected_in(old(stack)@, old(hub)@),
            old(stack)@.len() > 0,
            old(stack)@.last().kind == ScopeKind::Query,
        ensures
            collected_in(final(stack)@, final(hub)@),
            ({
                let frame = old(stack)@.last();
                let events = events_of(frame, old(hub)@);
                let below = old(stack)@.drop_last();
                let rest = emptied(frame, old(hub)@);
                let frozen = HubModel { records: rest.records.push(events), ..rest };
                let r = rest.records.len();
                &&& events.len() == 0 ==> record is None && final(stack)@ == below && final(hub)@
                    == rest
                &&& events.len() > 0 ==> record == Some(r as usize)
                &&& events.len() > 0 && below.len() == 0 ==> final(stack)@ == below
                &&& events.len() > 0 && below.len() == 0 ==> final(hub)@ == frozen
                &&& events.len() > 0 && below.len() > 0 ==> ({
                    let done = collected(
                        below,
                        frozen,
                        below.len() - 1,
                        Event::Consumed(r as usize),
                    );
                    final(stack)@ == done.0 && final(hub)@ == done.1
                })
            }),
    {
        let ghost scopes = stack@;
        assert(scopes[scopes.len() - 1] == scopes.last());
        match stack.scopes.pop() {
            Some(frame) => {
                assert(stack@ =~= scopes.drop_last());
                match frame.collection {
                    Some(c) => {
                        let events = hub.take_collection(c);
                        assert forall|k: int| 0 <= k < stack@.len() implies ((
                        #[trigger] stack@[k]).collection matches Some(x) ==> x
                            < hub@.collections.len()) by {
                            assert(stack@[k] == scopes[k]);
                        }
                        if events.len() == 0 {
                            return None;
                        }
                        let r = hub.records.len();
                        let ghost rest = hub@;
                        hub.records.push(events);
                        assert(hub@.records =~= rest.records.push(events@));
                        let n = stack.scopes.len();
                        if n > 0 {
                            let below = stack.collection(n - 1, hub);
                            hub.push_event(below, Event::Consumed(r));
                        }
                        Some(r)
                    },
                    None => {
                        assert forall|k: int| 0 <= k < stack@.len() implies ((
                        #[trigger] stack@[k]).collection matches Some(x) ==> x
                            < hub@.collections.len()) by {
                            assert(stack@[k] == scopes[k]);
                        }
                        None
                    },
                }
            },
            None => {
                assert(false);
                None
            },
        }
    }
}

/// A collection that a replay forwards into, and what it captures.
#[derive(Clone, Copy)]
pub struct Target {
    pub opened: u64,
    pub collection: usize,
}

/// Whether an item has reported, and how it ended.
#[derive(Clone, Copy, PartialEq, Eq, Structural, Debug)]
pub enum Report {
    Missing,
    Done,
    Fatal,
}

/// How many items a replay forwards: up to the first that never reported, or up to and including
/// the first that ended in a fatal error.
pub open spec fn reached(reports: Seq<Report>) -> nat
    decreases reports.len(),
{
    if reports.len() == 0 || reports[0] == Report::Missing {
        0
    } else if reports[0] == Report::Fatal {
        1
    } else {
        1 + reached(reports.skip(1))
    }
}

/// The replay ends in a fatal error.
pub open spec fn ends_fatally(reports: Seq<Report>) -> bool
    decreases reports.len(),
{
    reports.len() > 0 && (reports[0] == Report::Fatal || (reports[0] == Report::Done
        && ends_fatally(reports.skip(1))))
}

/// The lists one after another.
pub open spec fn concatenated<T>(lists: Seq<Seq<T>>) -> Seq<T>
    decreases lists.len(),
{
    if lists.len() == 0 {
        Seq::empty()
    } else {
        concatenated(lists.drop_last()) + lists.last()
    }
}

/// The first target that captures a context made at `created`.
pub open spec fn target_for(targets: Seq<Target>, created: u64) -> Option<Target>
    decreases targets.len(),
{
    if targets.len() == 0 {
        None
    } else if created < targets[0].opened {
        Some(targets[0])
    } else {
        target_for(targets.skip(1), created)
    }
}

/// Where an event goes: a reference to the innermost enclosing scope, anything else to the
/// innermost one that captures its context.
pub open spec fn destination<E>(targets: Seq<Target>, event: Event<E>) -> Option<Target> {
    match event {
        Event::Consumed(_) => if targets.len() > 0 {
            Some(targets[0])
        } else {
            None
        },
        Event::Dcx { dcx, created, kind } => target_for(targets, created),
    }
}

/// The hub and what comes out, once `events` were forwarded in order: into a target's collection,
/// or else out.
pub open spec fn forwarded<E>(hub: HubModel<E>, targets: Seq<Target>, events: Seq<Event<E>>) -> (
    HubModel<E>,
    Seq<(u64, E)>,
)
    decreases events.len(),
{
    if events.len() == 0 {
        (hub, Seq::empty())
    } else {
        let before = forwarded(hub, targets, events.drop_last());
        let event = events.last();
        match destination(targets, event) {
            Some(target) => (with_event(before.0, target.collection as int, event), before.1),
            None => {
                let done = applied(before.0.records, seq![event]);
                (HubModel { records: done.0, ..before.0 }, before.1 + done.1)
            },
        }
    }
}

/// The scopes that enclose a stage started with `scopes` open, innermost first: any queries, and
/// then the item they run in. Each gets a collection.
pub open spec fn enclosing<E>(scopes: Seq<Scope>, hub: HubModel<E>, n: int) -> (
    Seq<Scope>,
    HubModel<E>,
    Seq<Target>,
)
    decreases n,
{
    if n <= 0 {
        (scopes, hub, Seq::empty())
    } else {
        let ready = with_collection(scopes, hub, n - 1);
        let target = Target { opened: scopes[n - 1].opened, collection: ready.2 as usize };
        if scopes[n - 1].kind == ScopeKind::Item {
            (ready.0, ready.1, seq![target])
        } else {
            let rest = enclosing(ready.0, ready.1, n - 1);
            (rest.0, rest.1, seq![target] + rest.2)
        }
    }
}

/// The compiler has given up: the error was reported.
#[derive(Clone, Copy, PartialEq, Eq, Structural, Debug)]
pub struct FatalError;

/// What one parallel item emitted, in its program order. It comes out by a replay, and by nothing
/// else.
#[must_use]
pub struct ItemDiagnostics<E> {
    events: Vec<Event<E>>,
}

impl<E> View for ItemDiagnostics<E> {
    type V = Seq<Event<E>>;

    closed spec fn view(&self) -> Seq<Event<E>> {
        self.events@
    }
}

impl<E> ItemDiagnostics<E> {
    pub fn is_empty(&self) -> (yes: bool)
        ensures
            yes == (self@.len() == 0),
    {
        self.events.len() == 0
    }
}

/// An item's result, or the fatal error that ended it, and what it emitted either way.
pub struct ItemRun<R, E> {
    pub result: Result<R, FatalError>,
    pub diagnostics: ItemDiagnostics<E>,
}

/// Records what items emitted as they finish, in any order, and forwards it in item order.
pub struct OrderedReplay<E> {
    enclosing: Vec<Target>,
    root: u64,
    opened: u64,
    reports: Vec<Report>,
    outputs: Vec<Vec<Event<E>>>,
}

impl<E> OrderedReplay<E> {
    pub closed spec fn wf(&self) -> bool {
        self.reports@.len() == self.outputs@.len()
    }

    pub closed spec fn targets(&self) -> Seq<Target> {
        self.enclosing@
    }

    pub closed spec fn spec_root(&self) -> u64 {
        self.root
    }

    pub closed spec fn spec_opened(&self) -> u64 {
        self.opened
    }

    /// How each item ended.
    pub closed spec fn reports(&self) -> Seq<Report> {
        self.reports@
    }

    /// What each item emitted.
    pub closed spec fn outputs(&self) -> Seq<Seq<Event<E>>> {
        lists(self.outputs@)
    }

    /// The targets are collections of the hub.
    pub open spec fn fits(&self, hub: HubModel<E>) -> bool {
        forall|i: int|
            0 <= i < self.targets().len() ==> (#[trigger] self.targets()[i]).collection
                < hub.collections.len()
    }

    /// A replay for a stage of `len` items, started on a thread with these scopes open.
    pub fn new(len: usize, stack: &mut ScopeStack, hub: &mut Hub<E>) -> (replay: OrderedReplay<E>)
        requires
            collected_in(old(stack)@, old(hub)@),
            old(hub)@.clock < u64::MAX,
        ensures
            replay.wf(),
            replay.fits(final(hub)@),
            collected_in(final(stack)@, final(hub)@),
            ({
                let around = enclosing(old(stack)@, old(hub)@, old(stack)@.len() as int);
                &&& final(stack)@ == around.0
                &&& final(hub)@ == (HubModel {
                    clock: (around.1.clock + 1) as u64,
                    ..around.1
                })
                &&& replay.targets() == around.2
            }),
            replay.spec_opened() == old(hub)@.clock,
            replay.spec_root() == (if old(stack)@.len() > 0 {
                old(stack)@.last().root
            } else {
                old(hub)@.clock
            }),
            replay.reports() == Seq::new(len as nat, |i: int| Report::Missing),
            replay.outputs() == Seq::new(len as nat, |i: int| Seq::<Event<E>>::empty()),
    {
        let ghost scopes0 = stack@;
        let ghost hub0 = hub@;
        let ghost whole = enclosing(scopes0, hub0, scopes0.len() as int);
        let mut targets: Vec<Target> = Vec::new();
        let mut n: usize = stack.scopes.len();
        let root = if n > 0 {
            Some(stack.scopes[n - 1].root)
        } else {
            None
        };
        let mut more = true;
        assert(targets@ + whole.2 =~= whole.2);
        while n > 0 && more
            invariant
                n <= stack@.len(),
                collected_in(stack@, hub@),
                hub@.clock == hub0.clock,
                hub@.clock < u64::MAX,
                forall|i: int|
                    0 <= i < targets@.len() ==> (#[trigger] targets@[i]).collection
                        < hub@.collections.len(),
                more ==> ({
                    let rest = enclosing(stack@, hub@, n as int);
                    rest.0 == whole.0 && rest.1 == whole.1 && targets@ + rest.2 == whole.2
                }),
                !more ==> stack@ == whole.0 && hub@ == whole.1 && targets@ == whole.2,
            decreases
                    n,
                    if more {
                        1int
                    } else {
                        0int
                    },
        {
            let ghost prior = targets@;
            let ghost scopes = stack@;
            let ghost held = hub@;
            let scope = stack.scopes[n - 1];
            let collection = stack.collection(n - 1, hub);
            let target = Target { opened: scope.opened, collection };
            targets.push(target);
            proof {
                let ready = with_collection(scopes, held, n - 1);
                assert(ready.2 as usize == collection);
                if scope.kind == ScopeKind::Item {
                    assert(prior + seq![target] =~= targets@);
                } else {
                    let rest = enclosing(ready.0, ready.1, n - 1);
                    assert(prior + (seq![target] + rest.2) =~= targets@ + rest.2);
                }
            }
            if scope.kind == ScopeKind::Item {
                more = false;
            } else {
                n -= 1;
            }
        }
        assert(targets@ + Seq::<Target>::empty() =~= targets@);
        let opened = hub.tick();
        let mut reports: Vec<Report> = Vec::new();
        let mut outputs: Vec<Vec<Event<E>>> = Vec::new();
        let mut i: usize = 0;
        while i < len
            invariant
                i <= len,
                reports@.len() == i,
                outputs@.len() == i,
                forall|k: int| 0 <= k < i ==> #[trigger] reports@[k] == Report::Missing,
                forall|k: int| 0 <= k < i ==> (#[trigger] outputs@[k])@.len() == 0,
            decreases len - i,
        {
            reports.push(Report::Missing);
            outputs.push(Vec::new());
            i += 1;
        }
        let replay = OrderedReplay {
            enclosing: targets,
            root: match root {
                Some(root) => root,
                None => opened,
            },
            opened,
            reports,
            outputs,
        };
        proof {
            assert(replay.reports() =~= Seq::new(len as nat, |i: int| Report::Missing));
            assert forall|k: int| 0 <= k < len implies #[trigger] lists(outputs@)[k]
                == Seq::<Event<E>>::empty() by {
                assert(outputs@[k]@.len() == 0);
                assert(outputs@[k]@ =~= Seq::<Event<E>>::empty());
            }
            assert(replay.outputs() =~= Seq::new(len as nat, |i: int| Seq::<Event<E>>::empty()));
        }
        replay
    }

    /// Opens the scope of an item on the thread that runs it. In a serial session nothing races,
    /// so nothing is collected, and no scope is opened. Whether one was.
    pub fn begin_item(&self, stack: &mut ScopeStack, dyn_thread_safe: bool) -> (opened: bool)
        ensures
            opened == dyn_thread_safe,
            final(stack)@ == (if dyn_thread_safe {
                old(stack)@.push(
                    Scope {
                        kind: ScopeKind::Item,
                        opened: self.spec_opened(),
                        root: self.spec_root(),
                        collection: None,
                    },
                )
            } else {
                old(stack)@
            }),
    {
        if !dyn_thread_safe {
            return false;
        }
        stack.scopes.push(
            Scope {
                kind: ScopeKind::Item,
                opened: self.opened,
                root: self.root,
                collection: None,
            },
        );
        true
    }

    /// An item came to `result`: closes its scope, if it `opened` one, and hands out what the item
    /// emitted.
    pub fn end_item<R>(
        opened: bool,
        result: Result<R, FatalError>,
        stack: &mut ScopeStack,
        hub: &mut Hub<E>,
    ) -> (run: ItemRun<R, E>)
        requires
            opened ==> {
                &&& collected_in(old(stack)@, old(hub)@)
                &&& old(stack)@.len() > 0
                &&& old(stack)@.last().kind == ScopeKind::Item
            },
        ensures
            run.result == result,
            opened ==> {
                &&& collected_in(final(stack)@, final(hub)@)
                &&& final(stack)@ == old(stack)@.drop_last()
                &&& run.diagnostics@ == events_of(old(stack)@.last(), old(hub)@)
                &&& final(hub)@ == emptied(old(stack)@.last(), old(hub)@)
            },
            !opened ==> {
                &&& final(stack)@ == old(stack)@
                &&& run.diagnostics@ == Seq::<Event<E>>::empty()
                &&& final(hub)@ == old(hub)@
            },
    {
        let events = if opened {
            OrderedReplay::close_item(stack, hub)
        } else {
            Vec::new()
        };
        ItemRun { result, diagnostics: ItemDiagnostics { events } }
    }

    fn close_item(stack: &mut ScopeStack, hub: &mut Hub<E>) -> (events: Vec<Event<E>>)
        requires
            collected_in(old(stack)@, old(hub)@),
            old(stack)@.len() > 0,
            old(stack)@.last().kind == ScopeKind::Item,
        ensures
            collected_in(final(stack)@, final(hub)@),
            final(stack)@ == old(stack)@.drop_last(),
            events@ == events_of(old(stack)@.last(), old(hub)@),
            final(hub)@ == emptied(old(stack)@.last(), old(hub)@),
    {
        let ghost scopes = stack@;
        assert(scopes[scopes.len() - 1] == scopes.last());
        match stack.scopes.pop() {
            Some(scope) => {
                assert(stack@ =~= scopes.drop_last());
                let events = match scope.collection {
                    Some(c) => hub.take_collection(c),
                    None => Vec::new(),
                };
                assert forall|k: int| 0 <= k < stack@.len() implies ((
                #[trigger] stack@[k]).collection matches Some(x) ==> x
                    < hub@.collections.len()) by {
                    assert(stack@[k] == scopes[k]);
                }
                assert(events@ =~= events_of(scopes.last(), old(hub)@));
                events
            },
            None => {
                assert(false);
                Vec::new()
            },
        }
    }

    /// Item `index` is done. Nothing is forwarded yet.
    pub fn ready(&mut self, index: usize, diagnostics: ItemDiagnostics<E>, fatal: bool)
        requires
            old(self).wf(),
            index < old(self).reports().len(),
        ensures
            final(self).wf(),
            final(self).targets() == old(self).targets(),
            final(self).spec_root() == old(self).spec_root(),
            final(self).spec_opened() == old(self).spec_opened(),
            final(self).reports() == old(self).reports().update(
                index as int,
                if fatal {
                    Report::Fatal
                } else {
                    Report::Done
                },
            ),
            final(self).outputs() == old(self).outputs().update(index as int, diagnostics@),
    {
        let ghost before = self.outputs();
        self.outputs.set(index, diagnostics.events);
        assert(self.outputs() =~= before.update(index as int, diagnostics@));
        self.reports.set(
            index,
            if fatal {
                Report::Fatal
            } else {
                Report::Done
            },
        );
    }

    /// The first target that captures a context made at `created`.
    fn find_target(&self, created: u64) -> (target: Option<Target>)
        ensures
            target == target_for(self.targets(), created),
            target matches Some(t) ==> exists|i: int|
                0 <= i < self.targets().len() && #[trigger] self.targets()[i] == t,
    {
        let mut i: usize = 0;
        assert(self.targets().skip(0) =~= self.targets());
        while i < self.enclosing.len()
            invariant
                i <= self.targets().len(),
                target_for(self.targets(), created) == target_for(
                    self.targets().skip(i as int),
                    created,
                ),
            decreases self.targets().len() - i,
        {
            let target = self.enclosing[i];
            assert(self.targets()[i as int] == target);
            if created < target.opened {
                return Some(target);
            }
            assert(self.targets().skip(i as int).skip(1) =~= self.targets().skip(i + 1));
            i += 1;
        }
        None
    }

    /// Forwards what one item emitted.
    fn forward(&self, hub: &mut Hub<E>, diagnostics: Vec<Event<E>>) -> (out: Vec<(u64, E)>)
        requires
            self.fits(old(hub)@),
        ensures
            ({
                let done = forwarded(old(hub)@, self.targets(), diagnostics@);
                final(hub)@ == done.0 && out@ == done.1
            }),
            self.fits(final(hub)@),
    {
        let ghost hub0 = hub@;
        let ghost all = diagnostics@;
        let total = diagnostics.len();
        let mut rest = diagnostics;
        let mut out: Vec<(u64, E)> = Vec::new();
        let mut n: usize = 0;
        assert(all.take(0) =~= Seq::<Event<E>>::empty());
        while rest.len() > 0
            invariant
                n <= all.len(),
                all.len() == total,
                rest@ == all.skip(n as int),
                self.fits(hub@),
                hub@ == forwarded(hub0, self.targets(), all.take(n as int)).0,
                out@ == forwarded(hub0, self.targets(), all.take(n as int)).1,
            decreases rest@.len(),
        {
            let event = rest.remove(0);
            proof {
                assert(all.skip(n as int)[0] == all[n as int]);
                assert(rest@ =~= all.skip(n + 1));
                assert(all.take(n + 1).drop_last() =~= all.take(n as int));
                assert(all.take(n + 1).last() == event);
            }
            let target = match &event {
                Event::Consumed(_) => if self.enclosing.len() > 0 {
                    assert(self.targets()[0] == self.enclosing@[0]);
                    Some(self.enclosing[0])
                } else {
                    None
                },
                Event::Dcx { dcx: _, created, kind: _ } => self.find_target(*created),
            };
            match target {
                Some(target) => {
                    hub.push_event(target.collection, event);
                },
                None => {
                    let mut one: Vec<Event<E>> = Vec::new();
                    one.push(event);
                    assert(one@ =~= seq![event]);
                    let mut came = hub.apply(one);
                    out.append(&mut came);
                },
            }
            n += 1;
        }
        assert(all.take(n as int) =~= all);
        out
    }

    /// Every item has reported. Forwards what they emitted in item order, up to and including the
    /// first that ended in a fatal error. The result holds what comes out, and whether that fatal
    /// error is to be raised again.
    pub fn finish(self, hub: &mut Hub<E>) -> (out: (Vec<(u64, E)>, bool))
        requires
            self.wf(),
            self.fits(old(hub)@),
        ensures
            ({
                let events = concatenated(self.outputs().take(reached(self.reports()) as int));
                let done = forwarded(old(hub)@, self.targets(), events);
                final(hub)@ == done.0 && out.0@ == done.1
            }),
            out.1 == ends_fatally(self.reports()),
    {
        let ghost hub0 = hub@;
        let ghost lists0 = self.outputs();
        let ghost reports = self.reports();
        let ghost targets = self.targets();
        let mut replay = self;
        let total = replay.reports.len();
        let mut out: Vec<(u64, E)> = Vec::new();
        let mut i: usize = 0;
        proof {
            assert(reports.skip(0) =~= reports);
            assert(lists0.take(0) =~= Seq::<Seq<Event<E>>>::empty());
            lemma_reached_is_bounded(reports);
        }
        while i < total
            invariant
                i <= total,
                total == reports.len(),
                lists0.len() == total,
                replay.wf(),
                replay.fits(hub@),
                replay.targets() == targets,
                replay.reports() == reports,
                replay.outputs@.len() == total,
                reports == self.reports(),
                lists0 == self.outputs(),
                targets == self.targets(),
                hub0 == old(hub)@,
                forall|k: int| i <= k < total ==> (#[trigger] replay.outputs@[k])@ == lists0[k],
                reached(reports) == i + reached(reports.skip(i as int)),
                reached(reports) <= total,
                ends_fatally(reports) == ends_fatally(reports.skip(i as int)),
                hub@ == forwarded(hub0, targets, concatenated(lists0.take(i as int))).0,
                out@ == forwarded(hub0, targets, concatenated(lists0.take(i as int))).1,
            decreases total - i,
        {
            let report = replay.reports[i];
            proof {
                assert(reports.skip(i as int)[0] == report);
                assert(reports.skip(i as int).skip(1) =~= reports.skip(i + 1));
            }
            if report == Report::Missing {
                return (out, false);
            }
            let mut events: Vec<Event<E>> = Vec::new();
            std::mem::swap(&mut events, &mut replay.outputs[i]);
            proof {
                assert(events@ == lists0[i as int]);
                assert(lists0.take(i + 1).drop_last() =~= lists0.take(i as int));
                lemma_forwarded_in_parts(
                    hub0,
                    targets,
                    concatenated(lists0.take(i as int)),
                    lists0[i as int],
                );
            }
            let mut came = replay.forward(hub, events);
            out.append(&mut came);
            i += 1;
            if report == Report::Fatal {
                return (out, true);
            }
        }
        proof {
            assert(reports.skip(i as int).len() == 0);
        }
        (out, false)
    }
}

proof fn lemma_reached_is_bounded(reports: Seq<Report>)
    ensures
        reached(reports) <= reports.len(),
    decreases reports.len(),
{
    if reports.len() > 0 {
        lemma_reached_is_bounded(reports.skip(1));
    }
}

/// Forwarding one list after another is forwarding them together.
proof fn lemma_forwarded_in_parts<E>(
    hub: HubModel<E>,
    targets: Seq<Target>,
    a: Seq<Event<E>>,
    b: Seq<Event<E>>,
)
    ensures
        ({
            let first = forwarded(hub, targets, a);
            let second = forwarded(first.0, targets, b);
            forwarded(hub, targets, a + b) == (second.0, first.1 + second.1)
        }),
    decreases b.len(),
{
    let first = forwarded(hub, targets, a);
    if b.len() == 0 {
        assert(a + b =~= a);
        assert(first.1 + Seq::<(u64, E)>::empty() =~= first.1);
    } else {
        lemma_forwarded_in_parts(hub, targets, a, b.drop_last());
        assert((a + b).drop_last() =~= a + b.drop_last());
        assert((a + b).last() == b.last());
        let before = forwarded(first.0, targets, b.drop_last());
        let done = applied(before.0.records, seq![b.last()]);
        assert(first.1 + (before.1 + done.1) =~= (first.1 + before.1) + done.1);
    }
}

/// Applying never refills a record that has come out.
proof fn lemma_spent_stays_spent<E>(records: Seq<Seq<Event<E>>>, events: Seq<Event<E>>, r: int)
    requires
        0 <= r < records.len(),
        records[r].len() == 0,
    ensures
        applied(records, events).0.len() == records.len(),
        applied(records, events).0[r].len() == 0,
    decreases event_total(records) + events.len(),
{
    if events.len() > 0 {
        match events[0] {
            Event::Dcx { dcx, created, kind } => {
                lemma_spent_stays_spent(records, events.skip(1), r);
            },
            Event::Consumed(q) => {
                if q < records.len() {
                    lemma_total_after_taking(records, q as int);
                    lemma_spent_stays_spent(
                        records.update(q as int, Seq::empty()),
                        records[q as int] + events.skip(1),
                        r,
                    );
                } else {
                    lemma_spent_stays_spent(records, events.skip(1), r);
                }
            },
        }
    }
}

/// A record comes out once: once a reference to it was applied, another one does nothing.
pub proof fn law_a_record_comes_out_once<E>(records: Seq<Seq<Event<E>>>, r: usize)
    requires
        r < records.len(),
    ensures
        ({
            let after = applied(records, seq![Event::Consumed(r)]).0;
            applied(after, seq![Event::Consumed(r)]) == (after, Seq::<(u64, E)>::empty())
        }),
{
    let one: Seq<Event<E>> = seq![Event::Consumed(r)];
    let taken = records.update(r as int, Seq::empty());
    lemma_total_after_taking(records, r as int);
    assert(one[0] == Event::<E>::Consumed(r));
    assert(records[r as int] + one.skip(1) =~= records[r as int]);
    lemma_spent_stays_spent(taken, records[r as int], r as int);
    let after = applied(records, one).0;
    assert(after.update(r as int, Seq::empty()) =~= after) by {
        assert(after[r as int] =~= Seq::<Event<E>>::empty());
    }
    assert(after[r as int] + one.skip(1) =~= Seq::<Event<E>>::empty());
    assert(applied(after, Seq::<Event<E>>::empty()) == (after, Seq::<(u64, E)>::empty()));
}

/// What the events do to contexts, in order.
pub open spec fn done_to_contexts<E>(events: Seq<Event<E>>) -> Seq<(u64, E)>
    recommends
        forall|i: int| 0 <= i < events.len() ==> (#[trigger] events[i]) is Dcx,
{
    Seq::new(events.len(), |i: int| (events[i]->dcx, events[i]->kind))
}

/// The order is the serial order by construction: a replay at the top level gives out what the
/// items did to contexts, item by item, each in its own order.
pub proof fn law_the_top_level_replay_is_serial<E>(hub: HubModel<E>, events: Seq<Event<E>>)
    requires
        forall|i: int| 0 <= i < events.len() ==> (#[trigger] events[i]) is Dcx,
    ensures
        forwarded(hub, Seq::empty(), events) == (hub, done_to_contexts(events)),
    decreases events.len(),
{
    if events.len() > 0 {
        let rest = events.drop_last();
        assert forall|i: int| 0 <= i < rest.len() implies (#[trigger] rest[i]) is Dcx by {
            assert(events[i] is Dcx);
        }
        law_the_top_level_replay_is_serial(hub, rest);
        let event = events.last();
        assert(events[events.len() - 1] is Dcx);
        let one = seq![event];
        assert(one[0] == event);
        assert(one.skip(1) =~= Seq::<Event<E>>::empty());
        assert(applied(hub.records, one.skip(1)) == (hub.records, Seq::<(u64, E)>::empty()));
        assert(seq![(event->dcx, event->kind)] + Seq::<(u64, E)>::empty()
            =~= seq![(event->dcx, event->kind)]);
        assert(done_to_contexts(events) =~= done_to_contexts(rest) + seq![
            (event->dcx, event->kind),
        ]);
    } else {
        assert(done_to_contexts(events) =~= Seq::<(u64, E)>::empty());
    }
}

/// A replay inside an item moves what its items did, in order, into that item's collection, where
/// the item captures all of it; nothing comes out before the item's own turn.
pub proof fn law_an_inner_replay_stays_inside<E>(
    hub: HubModel<E>,
    target: Target,
    events: Seq<Event<E>>,
)
    requires
        target.collection < hub.collections.len(),
        forall|i: int|
            0 <= i < events.len() ==> ((#[trigger] events[i]) is Dcx ==> events[i]->created
                < target.opened),
    ensures
        forwarded(hub, seq![target], events) == (
            HubModel {
                collections: hub.collections.update(
                    target.collection as int,
                    hub.collections[target.collection as int] + events,
                ),
                ..hub
            },
            Seq::<(u64, E)>::empty(),
        ),
    decreases events.len(),
{
    let c = target.collection as int;
    if events.len() > 0 {
        let rest = events.drop_last();
        assert forall|i: int| 0 <= i < rest.len() && rest[i] is Dcx implies (
        #[trigger] rest[i])->created < target.opened by {
            assert(events[i] is Dcx ==> events[i]->created < target.opened);
        }
        law_an_inner_replay_stays_inside(hub, target, rest);
        let event = events.last();
        assert(events[events.len() - 1] == event);
        assert(seq![target][0] == target);
        assert(destination(seq![target], event) == Some(target));
        assert((hub.collections[c] + rest).push(event) =~= hub.collections[c] + events);
        assert(hub.collections.update(c, hub.collections[c] + rest).update(
            c,
            hub.collections[c] + events,
        ) =~= hub.collections.update(c, hub.collections[c] + events));
    } else {
        assert(hub.collections[c] + events =~= hub.collections[c]);
        assert(hub.collections.update(c, hub.collections[c]) =~= hub.collections);
    }
}

/// No two scopes share a collection.
pub open spec fn own_collections(scopes: Seq<Scope>) -> bool {
    forall|i: int, j: int|
        0 <= i < j < scopes.len() ==> ((#[trigger] scopes[i]).collection is None || (
        #[trigger] scopes[j]).collection is None || scopes[i].collection != scopes[j].collection)
}

/// What a scope has collected comes in the order in which it was collected: an event goes behind
/// those that are there, into the collection of its scope and no other.
pub proof fn law_an_event_goes_behind_the_others<E>(
    scopes: Seq<Scope>,
    hub: HubModel<E>,
    i: int,
    event: Event<E>,
)
    requires
        collected_in(scopes, hub),
        own_collections(scopes),
        hub.collections.len() < usize::MAX,
        0 <= i < scopes.len(),
    ensures
        ({
            let after = collected(scopes, hub, i, event);
            &&& events_of(after.0[i], after.1) == events_of(scopes[i], hub).push(event)
            &&& forall|j: int|
                0 <= j < scopes.len() && j != i ==> events_of(#[trigger] after.0[j], after.1)
                    == events_of(scopes[j], hub)
            &&& after.0.len() == scopes.len()
            &&& forall|j: int|
                0 <= j < scopes.len() ==> (#[trigger] after.0[j]).kind == scopes[j].kind
                    && after.0[j].opened == scopes[j].opened && after.0[j].root == scopes[j].root
            &&& collected_in(after.0, after.1)
            &&& own_collections(after.0)
            &&& after.1.records == hub.records && after.1.clock == hub.clock
            &&& after.1.collections.len() <= hub.collections.len() + 1
        }),
{
    let ready = with_collection(scopes, hub, i);
    let after = collected(scopes, hub, i, event);
    let c = ready.2;
    assert(scopes[i].collection matches Some(x) ==> x < hub.collections.len());
    assert forall|j: int| 0 <= j < scopes.len() && j != i implies events_of(
        #[trigger] after.0[j],
        after.1,
    ) == events_of(scopes[j], hub) by {
        assert(after.0[j] == scopes[j]);
        if let Some(x) = scopes[j].collection {
            assert(x < hub.collections.len());
            if i < j {
                assert(scopes[i].collection is None || scopes[i].collection
                    != scopes[j].collection);
            } else {
                assert(scopes[j].collection is None || scopes[i].collection is None
                    || scopes[j].collection != scopes[i].collection);
            }
            assert(x != c);
        }
    }
    assert forall|k: int| 0 <= k < after.0.len() implies ((
    #[trigger] after.0[k]).collection matches Some(x) ==> x < after.1.collections.len()) by {
        assert(scopes[k].collection matches Some(x) ==> x < hub.collections.len());
    }
    assert forall|a: int, b: int| 0 <= a < b < after.0.len() implies ((
    #[trigger] after.0[a]).collection is None || (#[trigger] after.0[b]).collection is None
        || after.0[a].collection != after.0[b].collection) by {
        assert(scopes[a].collection is None || scopes[b].collection is None
            || scopes[a].collection != scopes[b].collection);
        assert(scopes[a].collection matches Some(x) ==> x < hub.collections.len());
        assert(scopes[b].collection matches Some(x) ==> x < hub.collections.len());
    }
}

/// The scopes and the hub after one capture after another into scope `i`.
pub open spec fn captured_in_turn<E>(
    scopes: Seq<Scope>,
    hub: HubModel<E>,
    i: int,
    events: Seq<Event<E>>,
) -> (Seq<Scope>, HubModel<E>)
    decreases events.len(),
{
    if events.len() == 0 {
        (scopes, hub)
    } else {
        let before = captured_in_turn(scopes, hub, i, events.drop_last());
        collected(before.0, before.1, i, events.last())
    }
}

/// An item hands out exactly what it captured, in the order in which it captured it, and so does a
/// query. What the scopes below it have collected is what it was.
pub proof fn law_a_scope_hands_out_what_it_captured<E>(
    below: Seq<Scope>,
    scope: Scope,
    hub: HubModel<E>,
    events: Seq<Event<E>>,
)
    requires
        collected_in(below, hub),
        own_collections(below),
        scope.collection is None,
        hub.collections.len() < usize::MAX,
    ensures
        ({
            let after = captured_in_turn(below.push(scope), hub, below.len() as int, events);
            &&& after.0.len() == below.len() + 1
            &&& events_of(after.0.last(), after.1) == events
            &&& after.1.records == hub.records
            &&& forall|j: int|
                0 <= j < below.len() ==> events_of(#[trigger] after.0[j], after.1) == events_of(
                    below[j],
                    hub,
                )
        }),
{
    lemma_captured_in_turn(below, scope, hub, events);
}

proof fn lemma_captured_in_turn<E>(
    below: Seq<Scope>,
    scope: Scope,
    hub: HubModel<E>,
    events: Seq<Event<E>>,
)
    requires
        collected_in(below, hub),
        own_collections(below),
        scope.collection is None,
        hub.collections.len() < usize::MAX,
    ensures
        ({
            let n = below.len() as int;
            let after = captured_in_turn(below.push(scope), hub, n, events);
            &&& after.0.len() == n + 1
            &&& events_of(after.0[n], after.1) == events
            &&& after.1.records == hub.records
            &&& collected_in(after.0, after.1)
            &&& own_collections(after.0)
            &&& after.0[n].collection is None ==> after.1.collections.len()
                == hub.collections.len()
            &&& after.1.collections.len() <= hub.collections.len() + 1
            &&& forall|j: int|
                0 <= j < n ==> events_of(#[trigger] after.0[j], after.1) == events_of(
                    below[j],
                    hub,
                )
        }),
    decreases events.len(),
{
    let n = below.len() as int;
    let all = below.push(scope);
    if events.len() == 0 {
        assert forall|k: int| 0 <= k < all.len() implies ((
        #[trigger] all[k]).collection matches Some(x) ==> x < hub.collections.len()) by {
            if k < n {
                assert(below[k].collection matches Some(x) ==> x < hub.collections.len());
            }
        }
        assert forall|a: int, b: int| 0 <= a < b < all.len() implies ((
        #[trigger] all[a]).collection is None || (#[trigger] all[b]).collection is None
            || all[a].collection != all[b].collection) by {
            if b < n {
                assert(below[a].collection is None || below[b].collection is None
                    || below[a].collection != below[b].collection);
            }
        }
        assert(events =~= Seq::<Event<E>>::empty());
    } else {
        let front = events.drop_last();
        lemma_captured_in_turn(below, scope, hub, front);
        let before = captured_in_turn(all, hub, n, front);
        if before.0[n].collection is None {
            law_an_event_goes_behind_the_others(before.0, before.1, n, events.last());
        } else {
            lemma_event_into_a_collection(before.0, before.1, n, events.last());
        }
        let after = captured_in_turn(all, hub, n, events);
        assert(front.push(events.last()) =~= events);
        assert forall|j: int| 0 <= j < n implies events_of(#[trigger] after.0[j], after.1)
            == events_of(below[j], hub) by {
            assert(events_of(before.0[j], before.1) == events_of(below[j], hub));
        }
    }
}

proof fn lemma_event_into_a_collection<E>(
    scopes: Seq<Scope>,
    hub: HubModel<E>,
    i: int,
    event: Event<E>,
)
    requires
        collected_in(scopes, hub),
        own_collections(scopes),
        0 <= i < scopes.len(),
        scopes[i].collection is Some,
    ensures
        ({
            let after = collected(scopes, hub, i, event);
            &&& after.0 == scopes
            &&& events_of(after.0[i], after.1) == events_of(scopes[i], hub).push(event)
            &&& forall|j: int|
                0 <= j < scopes.len() && j != i ==> events_of(#[trigger] after.0[j], after.1)
                    == events_of(scopes[j], hub)
            &&& collected_in(after.0, after.1)
            &&& after.1.records == hub.records
            &&& after.1.collections.len() == hub.collections.len()
        }),
{
    let after = collected(scopes, hub, i, event);
    assert(scopes[i].collection matches Some(x) ==> x < hub.collections.len());
    assert forall|j: int| 0 <= j < scopes.len() && j != i implies events_of(
        #[trigger] after.0[j],
        after.1,
    ) == events_of(scopes[j], hub) by {
        if let Some(x) = scopes[j].collection {
            assert(x < hub.collections.len());
            if i < j {
                assert(scopes[i].collection != scopes[j].collection);
            } else {
                assert(scopes[j].collection != scopes[i].collection);
            }
        }
    }
    assert forall|k: int| 0 <= k < after.0.len() implies ((
    #[trigger] after.0[k]).collection matches Some(x) ==> x < after.1.collections.len()) by {
        assert(scopes[k].collection matches Some(x) ==> x < hub.collections.len());
    }
}

/// Ending an item hands out what its scope collected, as it is, closes that scope and no other, and
/// keeps the result. A serial item, which opened no scope, changes nothing.
pub proof fn law_an_ended_item_hands_out_its_collection<R, E>(
    opened: bool,
    result: Result<R, FatalError>,
    stack: &mut ScopeStack,
    hub: &mut Hub<E>,
    run: ItemRun<R, E>,
)
    requires
        call_ensures(OrderedReplay::<E>::end_item::<R>, (opened, result, stack, hub), run),
    ensures
        run.result == result,
        !opened ==> run.diagnostics@.len() == 0 && final(stack)@ == old(stack)@ && final(hub)@
            == old(hub)@,
        opened ==> {
            &&& final(stack)@ == old(stack)@.drop_last()
            &&& old(stack)@.last().collection is None ==> run.diagnostics@.len() == 0
            &&& old(stack)@.last().collection matches Some(c) ==> run.diagnostics@
                == old(hub)@.collections[c as int]
            &&& final(hub)@.records == old(hub)@.records
        },
{
}

/// A query that is done is frozen as it is, behind the records that there are, and whatever ran it
/// refers to that record after what it collected before. One that emitted nothing leaves nothing.
pub proof fn law_a_query_is_frozen_as_it_is<E>(
    frame: QueryFrame,
    stack: &mut ScopeStack,
    hub: &mut Hub<E>,
    record: Option<usize>,
)
    requires
        old(hub)@.collections.len() < usize::MAX,
        old(hub)@.records.len() <= usize::MAX,
        old(stack)@.len() > 0,
        collected_in(old(stack)@, old(hub)@),
        own_collections(old(stack)@),
        call_ensures(QueryFrame::close::<E>, (frame, stack, hub), record),
    ensures
        ({
            let query = old(stack)@.last();
            let emitted = match query.collection {
                Some(c) => old(hub)@.collections[c as int],
                None => Seq::empty(),
            };
            let n = old(stack)@.len() - 1;
            &&& record is Some == (emitted.len() > 0)
            &&& final(stack)@.len() == n
            &&& record is None ==> final(hub)@.records == old(hub)@.records
            &&& record matches Some(r) ==> {
                &&& r == old(hub)@.records.len()
                &&& final(hub)@.records == old(hub)@.records.push(emitted)
                &&& n > 0 ==> events_of(final(stack)@[n - 1], final(hub)@) == events_of(
                    old(stack)@[n - 1],
                    old(hub)@,
                ).push(Event::Consumed(r))
            }
        }),
{
    let scopes = old(stack)@;
    let query = scopes.last();
    let n = scopes.len() - 1;
    let below = scopes.drop_last();
    let rest = emptied(query, old(hub)@);
    assert(scopes[n].collection matches Some(c) ==> c < old(hub)@.collections.len());
    if record is Some && n > 0 {
        let frozen = HubModel { records: rest.records.push(events_of(query, old(hub)@)), ..rest };
        assert forall|k: int| 0 <= k < below.len() implies ((
        #[trigger] below[k]).collection matches Some(x) ==> x < frozen.collections.len()) by {
            assert(scopes[k].collection matches Some(x) ==> x < old(hub)@.collections.len());
        }
        assert forall|a: int, b: int| 0 <= a < b < below.len() implies ((
        #[trigger] below[a]).collection is None || (#[trigger] below[b]).collection is None
            || below[a].collection != below[b].collection) by {
            assert(scopes[a].collection is None || scopes[b].collection is None
                || scopes[a].collection != scopes[b].collection);
        }
        law_an_event_goes_behind_the_others(
            below,
            frozen,
            n - 1,
            Event::Consumed(record->0),
        );
        assert(events_of(below[n - 1], frozen) == events_of(scopes[n - 1], old(hub)@)) by {
            assert(scopes[n - 1].collection is None || scopes[n].collection is None
                || scopes[n - 1].collection != scopes[n].collection);
        }
    }
}

/// An emission is captured by the innermost scope that is younger than its context, unless the item
/// that this thread runs is in between: an item captures for itself and for its queries, and
/// nothing reaches past it.
pub proof fn law_the_innermost_scope_captures(scopes: Seq<Scope>, created: u64)
    ensures
        match capturing(scopes, created) {
            Some(i) => {
                &&& 0 <= i < scopes.len()
                &&& created < scopes[i].opened
                &&& forall|j: int|
                    i < j < scopes.len() ==> (#[trigger] scopes[j]).kind == ScopeKind::Query
                        && created >= scopes[j].opened
            },
            None => forall|i: int|
                0 <= i < scopes.len() && created < (#[trigger] scopes[i]).opened ==> exists|j: int|
                    i < j < scopes.len() && (#[trigger] scopes[j]).kind == ScopeKind::Item
                        && created >= scopes[j].opened,
        },
    decreases scopes.len(),
{
    if scopes.len() > 0 {
        let n = scopes.len() - 1;
        let front = scopes.drop_last();
        law_the_innermost_scope_captures(front, created);
        if created >= scopes[n].opened && scopes[n].kind == ScopeKind::Query {
            match capturing(front, created) {
                Some(i) => {
                    assert forall|j: int| i < j < scopes.len() implies (
                    #[trigger] scopes[j]).kind == ScopeKind::Query && created
                        >= scopes[j].opened by {
                        if j < n {
                            assert(front[j] == scopes[j]);
                        }
                    }
                },
                None => {
                    assert forall|i: int|
                        0 <= i < scopes.len() && created < (
                        #[trigger] scopes[i]).opened implies exists|j: int|
                        i < j < scopes.len() && (#[trigger] scopes[j]).kind == ScopeKind::Item
                            && created >= scopes[j].opened by {
                        assert(front[i] == scopes[i]);
                        let j = choose|j: int|
                            i < j < front.len() && (#[trigger] front[j]).kind == ScopeKind::Item
                                && created >= front[j].opened;
                        assert(scopes[j] == front[j]);
                    }
                },
            }
        } else if created >= scopes[n].opened {
            assert forall|i: int|
                0 <= i < scopes.len() && created < (#[trigger] scopes[i]).opened implies exists|
                j: int,
            |
                i < j < scopes.len() && (#[trigger] scopes[j]).kind == ScopeKind::Item && created
                    >= scopes[j].opened by {
                assert(scopes[n].kind == ScopeKind::Item);
            }
        }
    }
}

/// What comes out at the top level is what was done to contexts, one for one and in order.
pub proof fn law_nothing_moves_at_the_top_level<E>(hub: HubModel<E>, events: Seq<Event<E>>, i: int)
    requires
        forall|k: int| 0 <= k < events.len() ==> (#[trigger] events[k]) is Dcx,
        0 <= i < events.len(),
    ensures
        ({
            let out = forwarded(hub, Seq::empty(), events);
            &&& out.0 == hub
            &&& out.1.len() == events.len()
            &&& out.1[i] == (events[i]->dcx, events[i]->kind)
        }),
{
    law_the_top_level_replay_is_serial(hub, events);
}

/// One item after another: what a stage with one item more gives out is what it gave out without
/// it, and then what that item emitted.
pub proof fn law_items_come_out_one_after_another<E>(
    hub: HubModel<E>,
    targets: Seq<Target>,
    outputs: Seq<Seq<Event<E>>>,
    last: Seq<Event<E>>,
)
    ensures
        concatenated(Seq::<Seq<Event<E>>>::empty()) == Seq::<Event<E>>::empty(),
        concatenated(outputs.push(last)) == concatenated(outputs) + last,
        ({
            let before = forwarded(hub, targets, concatenated(outputs));
            let own = forwarded(before.0, targets, last);
            let both = forwarded(hub, targets, concatenated(outputs.push(last)));
            both.0 == own.0 && both.1 == before.1 + own.1
        }),
{
    assert(outputs.push(last).drop_last() =~= outputs);
    lemma_forwarded_in_parts(hub, targets, concatenated(outputs), last);
}

/// A replay reaches the items in order up to the first that never reported, and ends with the first
/// that a fatal error ended: it ends fatally exactly if there is one and every item before it is
/// done.
pub proof fn law_a_replay_ends_where_a_serial_run_would(reports: Seq<Report>)
    ensures
        ({
            let n = reached(reports) as int;
            &&& 0 <= n <= reports.len()
            &&& forall|i: int|
                0 <= i < n ==> (#[trigger] reports[i]) == Report::Done || (reports[i]
                    == Report::Fatal && i == n - 1)
            &&& n == reports.len() || reports[n] == Report::Missing || (n > 0 && reports[n - 1]
                == Report::Fatal)
            &&& ends_fatally(reports) == (n > 0 && reports[n - 1] == Report::Fatal)
        }),
    decreases reports.len(),
{
    if reports.len() > 0 && reports[0] == Report::Done {
        let rest = reports.skip(1);
        law_a_replay_ends_where_a_serial_run_would(rest);
        let n = reached(reports) as int;
        assert forall|i: int| 0 <= i < n implies (#[trigger] reports[i]) == Report::Done || (
        reports[i] == Report::Fatal && i == n - 1) by {
            if i > 0 {
                assert(rest[i - 1] == reports[i]);
            }
        }
    }
}

/// Applying one list after another is applying them together.
pub proof fn law_events_apply_in_turn<E>(
    records: Seq<Seq<Event<E>>>,
    a: Seq<Event<E>>,
    b: Seq<Event<E>>,
)
    ensures
        ({
            let first = applied(records, a);
            let second = applied(first.0, b);
            applied(records, a + b) == (second.0, first.1 + second.1)
        }),
    decreases event_total(records) + a.len(),
{
    let first = applied(records, a);
    let second = applied(first.0, b);
    if a.len() == 0 {
        assert(a + b =~= b);
        assert(first.1 + second.1 =~= second.1);
    } else {
        assert((a + b)[0] == a[0]);
        assert((a + b).skip(1) =~= a.skip(1) + b);
        match a[0] {
            Event::Dcx { dcx, created, kind } => {
                law_events_apply_in_turn(records, a.skip(1), b);
                let later = applied(records, a.skip(1));
                assert(seq![(dcx, kind)] + (later.1 + second.1) =~= (seq![(dcx, kind)] + later.1)
                    + second.1);
            },
            Event::Consumed(r) => {
                if r < records.len() {
                    lemma_total_after_taking(records, r as int);
                    law_events_apply_in_turn(
                        records.update(r as int, Seq::empty()),
                        records[r as int] + a.skip(1),
                        b,
                    );
                    assert(records[r as int] + (a + b).skip(1) =~= (records[r as int] + a.skip(1))
                        + b);
                } else {
                    law_events_apply_in_turn(records, a.skip(1), b);
                }
            },
        }
    }
}

/// A reference to a record stands for the record's events, in order; the record is spent with it,
/// and every other record is what it was.
pub proof fn law_a_record_comes_out_in_order<E>(records: Seq<Seq<Event<E>>>, r: usize)
    requires
        r < records.len(),
        forall|k: int|
            0 <= k < records[r as int].len() ==> (#[trigger] records[r as int][k]) is Dcx,
    ensures
        ({
            let out = applied(records, seq![Event::Consumed(r)]);
            &&& out.0 == records.update(r as int, Seq::empty())
            &&& out.1.len() == records[r as int].len()
            &&& forall|k: int|
                0 <= k < out.1.len() ==> #[trigger] out.1[k] == (
                    records[r as int][k]->dcx,
                    records[r as int][k]->kind,
                )
        }),
{
    let one: Seq<Event<E>> = seq![Event::Consumed(r)];
    let events = records[r as int];
    let taken = records.update(r as int, Seq::empty());
    lemma_total_after_taking(records, r as int);
    assert(one[0] == Event::<E>::Consumed(r));
    assert(events + one.skip(1) =~= events);
    lemma_done_to_contexts(taken, events);
}

proof fn lemma_done_to_contexts<E>(records: Seq<Seq<Event<E>>>, events: Seq<Event<E>>)
    requires
        forall|k: int| 0 <= k < events.len() ==> (#[trigger] events[k]) is Dcx,
    ensures
        applied(records, events).0 == records,
        applied(records, events).1.len() == events.len(),
        forall|k: int|
            0 <= k < events.len() ==> #[trigger] applied(records, events).1[k] == (
                events[k]->dcx,
                events[k]->kind,
            ),
    decreases events.len(),
{
    if events.len() > 0 {
        let rest = events.skip(1);
        assert(events[0] is Dcx);
        assert forall|k: int| 0 <= k < rest.len() implies (#[trigger] rest[k]) is Dcx by {
            assert(events[k + 1] is Dcx);
        }
        lemma_done_to_contexts(records, rest);
        let out = applied(records, events).1;
        assert forall|k: int| 0 <= k < events.len() implies #[trigger] out[k] == (
            events[k]->dcx,
            events[k]->kind,
        ) by {
            if k > 0 {
                assert(out[k] == applied(records, rest).1[k - 1]);
                assert(rest[k - 1] == events[k]);
            }
        }
    }
}

/// Where a replayed event goes: a reference to the innermost scope around the stage, and anything
/// else to the innermost one that is younger than its context. It comes out if there is none.
pub proof fn law_an_event_goes_to_the_innermost_scope<E>(targets: Seq<Target>, event: Event<E>)
    ensures
        match destination(targets, event) {
            Some(target) => exists|i: int|
                {
                    &&& 0 <= i < targets.len()
                    &&& #[trigger] targets[i] == target
                    &&& event is Consumed ==> i == 0
                    &&& event is Dcx ==> event->created < target.opened && forall|j: int|
                        0 <= j < i ==> event->created >= (#[trigger] targets[j]).opened
                },
            None => {
                &&& event is Consumed ==> targets.len() == 0
                &&& event is Dcx ==> forall|j: int|
                    0 <= j < targets.len() ==> event->created >= (#[trigger] targets[j]).opened
            },
        },
{
    match event {
        Event::Dcx { dcx, created, kind } => {
            lemma_first_target(targets, created);
        },
        Event::Consumed(_) => {
            if targets.len() > 0 {
                assert(targets[0] == targets[0]);
            }
        },
    }
}

proof fn lemma_first_target(targets: Seq<Target>, created: u64)
    ensures
        match target_for(targets, created) {
            Some(target) => exists|i: int|
                {
                    &&& 0 <= i < targets.len()
                    &&& #[trigger] targets[i] == target
                    &&& created < target.opened
                    &&& forall|j: int| 0 <= j < i ==> created >= (#[trigger] targets[j]).opened
                },
            None => forall|j: int|
                0 <= j < targets.len() ==> created >= (#[trigger] targets[j]).opened,
        },
    decreases targets.len(),
{
    if targets.len() > 0 {
        let rest = targets.skip(1);
        if created < targets[0].opened {
            assert(targets[0] == target_for(targets, created)->0);
        } else {
            lemma_first_target(rest, created);
            match target_for(rest, created) {
                Some(target) => {
                    let i = choose|i: int|
                        {
                            &&& 0 <= i < rest.len()
                            &&& #[trigger] rest[i] == target
                            &&& created < target.opened
                            &&& forall|j: int|
                                0 <= j < i ==> created >= (#[trigger] rest[j]).opened
                        };
                    assert(targets[i + 1] == target);
                    assert forall|j: int| 0 <= j < i + 1 implies created >= (
                    #[trigger] targets[j]).opened by {
                        if j > 0 {
                            assert(rest[j - 1] == targets[j]);
                        }
                    }
                },
                None => {
                    assert forall|j: int| 0 <= j < targets.len() implies created >= (
                    #[trigger] targets[j]).opened by {
                        if j > 0 {
                            assert(rest[j - 1] == targets[j]);
                        }
                    }
                },
            }
        }
    }
}

/// Each event more that is forwarded goes to the collection of its scope, and without one it applies
/// behind those before it; what was forwarded before stays.
pub proof fn law_a_forwarded_event_takes_its_turn<E>(
    hub: HubModel<E>,
    targets: Seq<Target>,
    events: Seq<Event<E>>,
    event: Event<E>,
)
    ensures
        forwarded(hub, targets, Seq::<Event<E>>::empty()) == (hub, Seq::<(u64, E)>::empty()),
        ({
            let before = forwarded(hub, targets, events);
            let after = forwarded(hub, targets, events.push(event));
            &&& destination(targets, event) is Some ==> after.1 == before.1 && after.0
                == with_event(
                before.0,
                destination(targets, event)->0.collection as int,
                event,
            )
            &&& destination(targets, event) is None ==> after.0.collections
                == before.0.collections && after.1 == before.1 + applied(
                before.0.records,
                seq![event],
            ).1
        }),
{
    assert(events.push(event).drop_last() =~= events);
}

} // verus!
