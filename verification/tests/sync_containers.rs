use frontend::id_map::IdMap;
use frontend::sync::mode::check_dyn_thread_safe;
use frontend::sync::mode::enter_session_width;
use frontend::sync::mode::is_dyn_thread_safe;
use frontend::sync::mode::is_parallel_here;
use frontend::sync::mode::might_be_dyn_thread_safe;
use frontend::sync::mode::set_dyn_thread_safe_mode;
use frontend::sync::mode::CacheAligned;
use frontend::sync::mode::Fallback;
use frontend::sync::mode::HashMapExt;
use frontend::sync::mode::Modes;
use frontend::sync::par_context::install_context_hook;
use frontend::sync::par_context::install_item_hook;
use frontend::sync::par_context::install_parallel_context;
use frontend::sync::par_context::Captured;
use frontend::sync::par_context::CapturedContext;
use frontend::sync::par_context::ContextHook;
use frontend::sync::par_context::ContextStep;
use frontend::sync::par_context::Hooks;
use frontend::sync::par_context::ItemEnd;
use frontend::sync::par_context::ItemHook;
use frontend::sync::par_context::ItemScope;
use frontend::sync::parallel::broadcast;
use frontend::sync::parallel::par_fns;
use frontend::sync::parallel::par_for_each_in;
use frontend::sync::parallel::par_for_each_slice;
use frontend::sync::parallel::par_join;
use frontend::sync::parallel::par_map;
use frontend::sync::parallel::parallel_guard;
use frontend::sync::parallel::spawn;
use frontend::sync::parallel::try_par_for_each_in;
use frontend::sync::vec::chunk_of;
use frontend::sync::vec::AppendOnlyIndexVec;
use frontend::sync::vec::AppendOnlyVec;
use frontend::sync::vec::LockFreeAppendOnlyVec;
use frontend::sync::worker_local::Registry;
use frontend::sync::worker_local::RegistryId;
use frontend::sync::worker_local::ThreadData;
use frontend::sync::worker_local::WorkerLocal;

fn unlatched(fallback: Fallback) -> Modes {
    Modes { width: 0, fallback }
}

#[test]
fn the_fallback_decides_without_a_latch() {
    assert!(!is_dyn_thread_safe(&unlatched(Fallback::NotThreadSafe)));
    assert!(is_dyn_thread_safe(&unlatched(Fallback::ThreadSafe)));
    assert!(check_dyn_thread_safe(&unlatched(Fallback::NotThreadSafe)).is_none());
    assert!(check_dyn_thread_safe(&unlatched(Fallback::ThreadSafe)).is_some());
    assert!(might_be_dyn_thread_safe(&unlatched(Fallback::Uninitialized)));
    assert!(!is_parallel_here(&unlatched(Fallback::Uninitialized)));
}

#[test]
fn the_latch_decides_where_there_is_one() {
    for fallback in [Fallback::Uninitialized, Fallback::NotThreadSafe, Fallback::ThreadSafe] {
        let serial = Modes { width: 1, fallback };
        let parallel = Modes { width: 2, fallback };
        assert!(!is_dyn_thread_safe(&serial) && !might_be_dyn_thread_safe(&serial));
        assert!(is_dyn_thread_safe(&parallel) && is_parallel_here(&parallel));
    }
}

#[test]
fn thread_safety_is_never_turned_off() {
    let mut modes = unlatched(Fallback::Uninitialized);
    set_dyn_thread_safe_mode(&mut modes, false);
    assert_eq!(modes.fallback, Fallback::NotThreadSafe);
    set_dyn_thread_safe_mode(&mut modes, true);
    set_dyn_thread_safe_mode(&mut modes, false);
    assert_eq!(modes.fallback, Fallback::ThreadSafe);
}

#[test]
fn a_session_puts_the_width_back() {
    let mut modes = unlatched(Fallback::Uninitialized);
    let outer = enter_session_width(&mut modes, 4);
    assert_eq!(modes, Modes { width: 4, fallback: Fallback::ThreadSafe });
    let inner = enter_session_width(&mut modes, 1);
    assert!(!is_dyn_thread_safe(&modes));
    inner.leave(&mut modes);
    assert_eq!(modes.width, 4);
    outer.leave(&mut modes);
    assert_eq!(modes, unlatched(Fallback::ThreadSafe));
}

#[test]
fn a_proof_is_carried_along() {
    let on = check_dyn_thread_safe(&Modes { width: 3, fallback: Fallback::Uninitialized }).unwrap();
    assert_eq!(on.derive(5u8).into_inner(), 5);
    assert_eq!(CacheAligned::<u32>::default().0, 0);
}

#[test]
fn inserting_the_same_value_again_changes_nothing() {
    let mut map: IdMap<u32> = IdMap::new();
    map.insert_same(7, 70);
    map.insert_same(8, 80);
    map.insert_same(7, 70);
    assert_eq!(map.len(), 2);
    assert_eq!(map.at(0), (7, &70));
}

#[test]
fn chunks_double() {
    assert_eq!(chunk_of(0), (0, 0));
    assert_eq!(chunk_of(7), (0, 7));
    assert_eq!(chunk_of(8), (1, 0));
    assert_eq!(chunk_of(23), (1, 15));
    assert_eq!(chunk_of(24), (2, 0));
    assert_eq!(chunk_of(8 * (1024 - 1) + 5), (10, 5));
    let (chunk, offset) = chunk_of(usize::MAX);
    assert_eq!(chunk, 61);
    assert_eq!(offset, 7);
}

#[test]
fn pushed_elements_stay_where_they_are() {
    let mut vec = LockFreeAppendOnlyVec::new();
    assert!(vec.is_empty());
    for n in 0..500usize {
        assert_eq!(vec.push(n * 2), n);
    }
    assert_eq!(vec.len(), 500);
    for n in 0..500usize {
        assert_eq!(vec.get(n), Some(n * 2));
    }
    assert_eq!(vec.get(500), None);
}

#[test]
fn numbered_elements() {
    let mut vec: AppendOnlyIndexVec<u32, char> = AppendOnlyIndexVec::new();
    assert!(vec.is_empty());
    assert_eq!(vec.push('a'), 0);
    assert_eq!(vec.push('b'), 1);
    assert_eq!(vec.get(1), Some('b'));
    assert_eq!(vec.get(2), None);
    assert_eq!(vec.len(), 2);
}

#[test]
fn a_plain_append_only_vector() {
    let mut vec = AppendOnlyVec::from_values(vec![5, 6]);
    assert_eq!(vec.push(7), 2);
    assert_eq!(vec.get(2), Some(7));
    assert_eq!(vec.get(3), None);
    assert_eq!(vec.iter(), vec![5, 6, 7]);
    assert_eq!(vec.iter_enumerated(), vec![(0, 5), (1, 6), (2, 7)]);
    assert!(vec.contains(6));
    assert!(!vec.contains(8));
    assert_eq!(AppendOnlyVec::<u8>::new().iter(), Vec::<u8>::new());
}

#[test]
fn slots_are_leased_from_zero_up() {
    let mut registry = Registry::new(RegistryId(1), 2);
    let first = registry.lease().unwrap();
    let second = registry.lease().unwrap();
    assert!(registry.lease().is_none());
    let mut here = ThreadData::new();
    let scope = first.enter(&mut here);
    assert_eq!(here.verify(RegistryId(1)), Some(0));
    assert_eq!(here.verify(RegistryId(2)), None);
    let inner = second.enter(&mut here);
    assert_eq!(here.verify(RegistryId(1)), Some(1));
    inner.leave(&mut here);
    assert_eq!(here.verify(RegistryId(1)), Some(0));
    scope.leave(&mut here);
    assert_eq!(here, ThreadData::new());
    registry.give_back(first);
    let again = registry.lease().unwrap();
    let mut there = ThreadData::new();
    let _ = again.enter(&mut there);
    assert_eq!(there.verify(RegistryId(1)), Some(0));
}

#[test]
fn a_thread_can_register_for_good() {
    let mut registry = Registry::new(RegistryId(3), 1);
    let mut here = ThreadData::new();
    registry.register(&mut here);
    assert_eq!(here.verify(RegistryId(3)), Some(0));
    assert!(registry.lease().is_none());
}

#[test]
fn worker_locals_belong_to_slots() {
    let mut registry = Registry::new(RegistryId(9), 3);
    let locals = WorkerLocal::new(&registry, |i| i * 10);
    let mut here = ThreadData::new();
    let slot = registry.lease().unwrap();
    let _ = slot.enter(&mut here);
    assert_eq!(*locals.get(&here), 0);
    let seen = registry.each_slot(&here, |i, data| (i, *locals.get(data)));
    assert_eq!(seen, vec![(0, 0), (1, 10), (2, 20)]);
    assert_eq!(locals.into_inner(), vec![0, 10, 20]);
}

#[test]
fn hooks_are_registered_once() {
    let mut hooks = Hooks::new();
    install_parallel_context(&mut hooks);
    install_parallel_context(&mut hooks);
    install_context_hook(&mut hooks, ContextHook(0));
    let context = CapturedContext::capture(&hooks, &vec![11, 12]);
    let globals = Captured { hook: ContextHook(0), value: 11 };
    let implicit = Captured { hook: ContextHook(1), value: 12 };
    assert_eq!(
        context.enter(),
        vec![
            ContextStep::Install(globals),
            ContextStep::Install(implicit),
            ContextStep::Run,
            ContextStep::Restore(implicit),
            ContextStep::Restore(globals),
        ]
    );
}

#[test]
fn an_item_scope_ends_once() {
    let mut hooks = Hooks::new();
    let without = ItemScope::begin(&hooks);
    assert_eq!(without.leave(), ItemEnd::Nothing);
    install_item_hook(&mut hooks, ItemHook(4));
    install_item_hook(&mut hooks, ItemHook(5));
    let mut finished = ItemScope::begin(&hooks);
    assert_eq!(finished.finish(), ItemEnd::Finish(ItemHook(5)));
    assert_eq!(finished.finish(), ItemEnd::Nothing);
    assert_eq!(finished.leave(), ItemEnd::Nothing);
    assert_eq!(ItemScope::begin(&hooks).leave(), ItemEnd::Discard(ItemHook(5)));
}

#[test]
fn parallel_work_is_done_in_order() {
    let seen = std::cell::RefCell::new(Vec::new());
    par_for_each_in(&vec![1, 2, 3], |i| seen.borrow_mut().push(*i));
    assert_eq!(*seen.borrow(), vec![1, 2, 3]);
    assert_eq!(par_join(|| 1, || 'b'), (1, 'b'));
    assert_eq!(par_map(&vec![1, 2, 3], |i| i * i), vec![1, 4, 9]);
    assert_eq!(broadcast(|worker| worker + 5), vec![5]);
    let mut items = vec![1, 2];
    par_for_each_slice(&mut items, |i| i + 10);
    assert_eq!(items, vec![11, 12]);
    let count = std::cell::Cell::new(0);
    spawn(|| count.set(count.get() + 1));
    let tenfold = || count.set(count.get() * 10);
    par_fns(&vec![tenfold, tenfold]);
    assert_eq!(count.get(), 100);
    assert_eq!(parallel_guard(|guard| guard.run(|| 3)), Some(3));
}

#[test]
fn every_item_runs_though_one_failed() {
    let seen = std::cell::Cell::new(0);
    let result = try_par_for_each_in(&vec![1, 2, 3], |i| {
        seen.set(seen.get() + 1);
        if *i == 2 { Err(*i) } else { Ok(()) }
    });
    assert_eq!(result, Err(2));
    assert_eq!(seen.get(), 3);
    assert_eq!(try_par_for_each_in(&vec![1], |_| Ok::<(), u8>(())), Ok(()));
}
