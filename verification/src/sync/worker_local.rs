//! Values for each thread of a session.
//!
//! A session has a registry with one slot for each thread that it may use. A thread leases a free
//! slot while it works for the session and gives it back when it leaves, so that a slot is held by
//! one thread at a time.

use vstd::prelude::*;

use crate::sync::mode::CacheAligned;

verus! {

/// Which registry: no two that live at the same time have the same identifier.
#[derive(Clone, Copy, Debug, PartialEq, Eq, Structural)]
pub struct RegistryId(pub u64);

/// The slots of a session.
pub struct Registry {
    id: RegistryId,
    thread_limit: usize,
    /// Slots that no thread holds.
    free: Vec<usize>,
}

/// The registry that a thread is in, if any, and its slot there.
#[derive(Clone, Copy, Debug, PartialEq, Eq, Structural)]
pub struct ThreadData {
    pub registry_id: Option<RegistryId>,
    pub index: usize,
}

/// A slot of a registry, held by one thread.
pub struct RegistrySlot {
    registry_id: RegistryId,
    index: usize,
}

/// Where a thread was before it entered a slot.
pub struct RegistryScope {
    data: ThreadData,
}

impl ThreadData {
    /// What a thread starts with: in no registry.
    pub fn new() -> (data: ThreadData)
        ensures
            data.registry_id is None,
            data.index == 0,
    {
        ThreadData { registry_id: None, index: 0 }
    }

    /// The thread's slot in the registry, if it is in it.
    pub open spec fn slot_in(&self, id: RegistryId) -> Option<usize> {
        if self.registry_id == Some(id) {
            Some(self.index)
        } else {
            None
        }
    }

    /// The thread's slot in the registry, if it is in it.
    pub fn verify(&self, id: RegistryId) -> (slot: Option<usize>)
        ensures
            slot == self.slot_in(id),
    {
        match self.registry_id {
            Some(own) => if own == id {
                Some(self.index)
            } else {
                None
            },
            None => None,
        }
    }
}

impl Registry {
    pub closed spec fn id(&self) -> RegistryId {
        self.id
    }

    /// How many threads the session may use.
    pub closed spec fn limit(&self) -> usize {
        self.thread_limit
    }

    /// The slots that no thread holds, the next one to be leased last.
    pub closed spec fn free(&self) -> Seq<usize> {
        self.free@
    }

    /// The slot is held by a thread.
    pub open spec fn held(&self, slot: usize) -> bool {
        slot < self.limit() && !self.free().contains(slot)
    }

    /// Free slots are slots, each once.
    pub open spec fn wf(&self) -> bool {
        &&& self.limit() > 0
        &&& self.free().no_duplicates()
        &&& forall|i: int| 0 <= i < self.free().len() ==> #[trigger] self.free()[i] < self.limit()
    }

    /// A registry for up to `thread_limit` threads. The first slot to be leased is slot 0.
    pub fn new(id: RegistryId, thread_limit: usize) -> (registry: Registry)
        requires
            thread_limit > 0,
        ensures
            registry.wf(),
            registry.id() == id,
            registry.limit() == thread_limit,
            registry.free() == Seq::new(
                thread_limit as nat,
                |i: int| (thread_limit - 1 - i) as usize,
            ),
    {
        let mut free: Vec<usize> = Vec::new();
        let mut left: usize = thread_limit;
        while left > 0
            invariant
                left <= thread_limit,
                free@.len() == thread_limit - left,
                forall|i: int| 0 <= i < free@.len() ==> #[trigger] free@[i] == thread_limit - 1 - i,
            decreases left,
        {
            left = left - 1;
            free.push(left);
        }
        let registry = Registry { id, thread_limit, free };
        assert(registry.free() =~= Seq::new(
            thread_limit as nat,
            |i: int| (thread_limit - 1 - i) as usize,
        ));
        registry
    }

    /// Takes a free slot, or nothing if every slot is held.
    pub fn lease(&mut self) -> (slot: Option<RegistrySlot>)
        requires
            old(self).wf(),
        ensures
            final(self).wf(),
            final(self).id() == old(self).id(),
            final(self).limit() == old(self).limit(),
            slot is None == (old(self).free().len() == 0),
            slot is None ==> final(self).free() == old(self).free(),
            slot matches Some(s) ==> {
                &&& s.registry_id() == old(self).id()
                &&& s.index() == old(self).free().last()
                &&& final(self).free() == old(self).free().drop_last()
                &&& final(self).held(s.index())
                &&& !old(self).held(s.index())
            },
    {
        let ghost before = self.free@;
        match self.free.pop() {
            Some(index) => {
                proof {
                    assert(before[before.len() - 1] == index);
                    if self.free@.contains(index) {
                        let i = choose|i: int| 0 <= i < self.free@.len() && self.free@[i] == index;
                        assert(before[i] == index);
                    }
                    assert(before.contains(index));
                    assert(self.free@ == before.drop_last());
                    assert(self.free@.no_duplicates());
                    assert forall|i: int| 0 <= i < self.free@.len() implies #[trigger] self.free@[i]
                        < self.thread_limit by {
                        assert(before[i] < self.thread_limit);
                    }
                }
                Some(RegistrySlot { registry_id: self.id, index })
            },
            None => None,
        }
    }

    /// Puts a thread that is in no registry into a free slot, for good. There has to be one.
    pub fn register(&mut self, data: &mut ThreadData)
        requires
            old(self).wf(),
            old(self).free().len() > 0,
            old(data).registry_id is None,
        ensures
            final(self).wf(),
            final(self).id() == old(self).id(),
            final(self).limit() == old(self).limit(),
            final(self).free() == old(self).free().drop_last(),
            final(data).slot_in(old(self).id()) == Some(old(self).free().last()),
    {
        match self.lease() {
            Some(slot) => {
                let _ = slot.enter(data);
            },
            None => {
                assert(false);
            },
        }
    }

    /// Takes a slot back.
    pub fn give_back(&mut self, slot: RegistrySlot)
        requires
            old(self).wf(),
            slot.registry_id() == old(self).id(),
            old(self).held(slot.index()),
        ensures
            final(self).wf(),
            final(self).id() == old(self).id(),
            final(self).limit() == old(self).limit(),
            final(self).free() == old(self).free().push(slot.index()),
            !final(self).held(slot.index()),
    {
        let ghost before = self.free@;
        self.free.push(slot.index);
        proof {
            assert(self.free@[before.len() as int] == slot.index);
            assert forall|i: int, j: int|
                0 <= i < self.free@.len() && 0 <= j < self.free@.len() && i
                    != j implies self.free@[i] != self.free@[j] by {
                if i == before.len() {
                    assert(before.contains(self.free@[j]));
                } else if j == before.len() {
                    assert(before.contains(self.free@[i]));
                }
            }
            assert forall|i: int| 0 <= i < self.free@.len() implies #[trigger] self.free@[i]
                < self.thread_limit by {
                if i < before.len() {
                    assert(before[i] < self.thread_limit);
                }
            }
        }
    }

    /// Whether one thread may visit every slot: no other thread holds one.
    pub open spec fn may_visit(&self, data: ThreadData) -> bool {
        self.limit() - self.free().len() <= (if data.slot_in(self.id()) is Some {
            1int
        } else {
            0
        })
    }

    /// Runs `op` once for each slot, in order, with the thread in that slot, and collects the
    /// results. No other thread may hold a slot.
    pub fn each_slot<R>(&self, data: &ThreadData, op: impl Fn(usize, &ThreadData) -> R) -> (results:
        Vec<R>)
        requires
            self.wf(),
            self.may_visit(*data),
            forall|i: usize, d: ThreadData|
                i < self.limit() && d.registry_id == Some(self.id()) && d.index == i
                    ==> #[trigger] call_requires(op, (i, &d)),
        ensures
            results@.len() == self.limit(),
            forall|i: int|
                0 <= i < results@.len() ==> call_ensures(
                    op,
                    (
                        i as usize,
                        &(ThreadData { registry_id: Some(self.id()), index: i as usize }),
                    ),
                    #[trigger] results@[i],
                ),
    {
        let mut results: Vec<R> = Vec::new();
        let mut index: usize = 0;
        while index < self.thread_limit
            invariant
                index <= self.thread_limit,
                results@.len() == index,
                forall|i: usize, d: ThreadData|
                    i < self.limit() && d.registry_id == Some(self.id()) && d.index == i
                        ==> #[trigger] call_requires(op, (i, &d)),
                forall|i: int|
                    0 <= i < results@.len() ==> call_ensures(
                        op,
                        (
                            i as usize,
                            &(ThreadData { registry_id: Some(self.id()), index: i as usize }),
                        ),
                        #[trigger] results@[i],
                    ),
            decreases self.thread_limit - index,
        {
            let inside = ThreadData { registry_id: Some(self.id), index };
            results.push(op(index, &inside));
            index += 1;
        }
        results
    }
}

impl RegistrySlot {
    pub closed spec fn registry_id(&self) -> RegistryId {
        self.registry_id
    }

    pub closed spec fn index(&self) -> usize {
        self.index
    }

    /// Puts the thread in this slot; the scope says where it was.
    pub fn enter(&self, data: &mut ThreadData) -> (scope: RegistryScope)
        ensures
            scope.previous() == *old(data),
            final(data).registry_id == Some(self.registry_id()),
            final(data).index == self.index(),
            final(data).slot_in(self.registry_id()) == Some(self.index()),
    {
        let previous = *data;
        *data = ThreadData { registry_id: Some(self.registry_id), index: self.index };
        RegistryScope { data: previous }
    }
}

impl RegistryScope {
    pub closed spec fn previous(&self) -> ThreadData {
        self.data
    }

    /// Puts the thread back where it was.
    pub fn leave(self, data: &mut ThreadData)
        ensures
            *final(data) == self.previous(),
    {
        *data = self.data;
    }
}

/// A value for each slot of a registry.
pub struct WorkerLocal<T> {
    locals: Vec<CacheAligned<T>>,
    registry_id: RegistryId,
}

impl<T> WorkerLocal<T> {
    pub closed spec fn registry_id(&self) -> RegistryId {
        self.registry_id
    }

    /// The values, in the order of the slots.
    pub closed spec fn view(&self) -> Seq<T> {
        self.locals@.map_values(|local: CacheAligned<T>| local.0)
    }

    /// A value for each slot, which `initial` makes from the slot's number.
    pub fn new<F: Fn(usize) -> T>(registry: &Registry, initial: F) -> (locals: WorkerLocal<T>)
        requires
            registry.wf(),
            forall|i: usize| i < registry.limit() ==> #[trigger] call_requires(initial, (i,)),
        ensures
            locals.registry_id() == registry.id(),
            locals@.len() == registry.limit(),
            forall|i: int|
                0 <= i < locals@.len() ==> call_ensures(
                    initial,
                    (i as usize,),
                    #[trigger] locals@[i],
                ),
    {
        let mut locals: Vec<CacheAligned<T>> = Vec::new();
        let mut i: usize = 0;
        while i < registry.thread_limit
            invariant
                i <= registry.thread_limit,
                locals@.len() == i,
                forall|k: usize| k < registry.limit() ==> #[trigger] call_requires(initial, (k,)),
                forall|k: int|
                    0 <= k < locals@.len() ==> call_ensures(
                        initial,
                        (k as usize,),
                        (#[trigger] locals@[k]).0,
                    ),
            decreases registry.thread_limit - i,
        {
            locals.push(CacheAligned(initial(i)));
            i += 1;
        }
        WorkerLocal { locals, registry_id: registry.id }
    }

    /// The value of the slot that the thread is in. The thread has to be in the registry.
    pub fn get(&self, data: &ThreadData) -> (value: &T)
        requires
            data.slot_in(self.registry_id()) is Some,
            data.index < self@.len(),
        ensures
            *value == self@[data.index as int],
    {
        &self.locals[data.index].0
    }

    /// The values, in the order of the slots.
    pub fn into_inner(self) -> (values: Vec<T>)
        ensures
            values@ == self@,
    {
        let ghost all = self.locals@;
        let mut locals = self.locals;
        let mut reversed: Vec<T> = Vec::new();
        let mut values: Vec<T> = Vec::new();
        while locals.len() > 0
            invariant
                locals@.len() <= all.len(),
                locals@ == all.take(locals@.len() as int),
                reversed@.len() == all.len() - locals@.len(),
                forall|i: int|
                    0 <= i < reversed@.len() ==> #[trigger] reversed@[i] == all[all.len() - 1 - i].0,
            decreases locals@.len(),
        {
            match locals.pop() {
                Some(local) => {
                    reversed.push(local.0);
                },
                None => {},
            }
        }
        while reversed.len() > 0
            invariant
                values@.len() + reversed@.len() == all.len(),
                forall|i: int|
                    0 <= i < reversed@.len() ==> #[trigger] reversed@[i] == all[all.len() - 1 - i].0,
                forall|i: int| 0 <= i < values@.len() ==> #[trigger] values@[i] == all[i].0,
            decreases reversed@.len(),
        {
            match reversed.pop() {
                Some(value) => {
                    values.push(value);
                },
                None => {},
            }
        }
        assert(values@ =~= all.map_values(|local: CacheAligned<T>| local.0));
        values
    }
}

/// Two threads that lease one after the other hold different slots, so a value of a `WorkerLocal`
/// is used by one thread at a time.
pub proof fn law_leases_differ(registry: Registry)
    requires
        registry.wf(),
        registry.free().len() >= 2,
    ensures
        registry.free().last() != registry.free().drop_last().last(),
{
    let n = registry.free().len();
    assert(registry.free()[n - 1] != registry.free()[n - 2]);
}

/// The first slot that a new registry leases is slot 0.
pub proof fn law_the_first_lease_is_slot_zero(registry: Registry)
    requires
        registry.limit() > 0,
        registry.free() == Seq::new(
            registry.limit() as nat,
            |i: int| (registry.limit() - 1 - i) as usize,
        ),
    ensures
        registry.free().last() == 0,
{
}

/// A slot that was given back is the next one to be leased, and the registry is as it was.
pub proof fn law_leasing_undoes_giving_back(before: Seq<usize>, slot: usize)
    ensures
        before.push(slot).last() == slot,
        before.push(slot).drop_last() == before,
{
    assert(before.push(slot).drop_last() =~= before);
}

/// A thread has a slot in a registry exactly if it is in that registry, and it is the slot it is in.
pub proof fn law_a_thread_knows_its_slot(data: &ThreadData, id: RegistryId, slot: Option<usize>)
    requires
        call_ensures(ThreadData::verify, (data, id), slot),
    ensures
        slot is Some <==> data.registry_id == Some(id),
        slot is Some ==> slot == Some(data.index),
{
}

/// A thread that enters a slot is in it, and once it leaves it is where it was.
pub proof fn law_a_thread_goes_back_where_it_was(
    slot: &RegistrySlot,
    data: &mut ThreadData,
    later: &mut ThreadData,
    scope: RegistryScope,
)
    requires
        call_ensures(RegistrySlot::enter, (slot, data), scope),
        call_ensures(RegistryScope::leave, (scope, later), ()),
    ensures
        final(data).registry_id == Some(slot.registry_id()),
        final(data).index == slot.index(),
        *final(later) == *old(data),
{
}

/// A thread may visit every slot if nobody holds one, or if it alone does; never while another
/// thread holds one.
pub proof fn law_only_the_last_thread_visits(registry: Registry, data: ThreadData)
    requires
        registry.free().len() <= registry.limit(),
    ensures
        registry.free().len() == registry.limit() ==> registry.may_visit(data),
        registry.free().len() == registry.limit() - 1 ==> (registry.may_visit(data)
            <==> data.registry_id == Some(registry.id())),
        registry.free().len() < registry.limit() - 1 ==> !registry.may_visit(data),
{
}

} // verus!
