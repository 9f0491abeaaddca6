//! Whether code runs in a thread-safe session.
//!
//! A session latches its width on the threads that work for it: one for a serial session, more for
//! a parallel one. A thread without a latch falls back on a process-wide choice, which stays on
//! once anything has asked for thread safety.

use vstd::prelude::*;

use crate::id_map::has_id;
use crate::id_map::id_place;
use crate::id_map::with_id;
use crate::id_map::IdMap;

verus! {

/// The process-wide choice.
#[derive(Clone, Copy, Debug, PartialEq, Eq, Structural)]
pub enum Fallback {
    Uninitialized,
    NotThreadSafe,
    ThreadSafe,
}

/// What a thread sees: the width that is latched on it, zero for none, and the process-wide choice.
#[derive(Clone, Copy, Debug, PartialEq, Eq, Structural)]
pub struct Modes {
    pub width: usize,
    pub fallback: Fallback,
}

impl Modes {
    /// Someone has chosen a mode for the thread.
    pub open spec fn chosen(&self) -> bool {
        self.width != 0 || self.fallback != Fallback::Uninitialized
    }

    /// The thread is in a thread-safe session.
    pub open spec fn thread_safe(&self) -> bool {
        self.width >= 2 || (self.width == 0 && self.fallback == Fallback::ThreadSafe)
    }
}

/// Proof that thread safety was on when it was made.
#[derive(Clone, Copy, Debug, PartialEq, Eq)]
pub struct FromDyn<T>(T);

impl<T> FromDyn<T> {
    pub closed spec fn value(&self) -> T {
        self.0
    }

    /// The same proof, carried by another value.
    pub fn derive<O>(&self, val: O) -> (derived: FromDyn<O>)
        ensures
            derived.value() == val,
    {
        FromDyn(val)
    }

    /// The value that carries the proof.
    pub fn into_inner(self) -> (value: T)
        ensures
            value == self.value(),
    {
        self.0
    }
}

/// Thread safety, if it is on. Someone has to have chosen.
pub fn check_dyn_thread_safe(modes: &Modes) -> (on: Option<FromDyn<()>>)
    requires
        modes.chosen(),
    ensures
        on is Some == modes.thread_safe(),
{
    if is_dyn_thread_safe(modes) {
        Some(FromDyn(()))
    } else {
        None
    }
}

/// Whether thread safety is on. Someone has to have chosen.
pub fn is_dyn_thread_safe(modes: &Modes) -> (on: bool)
    requires
        modes.chosen(),
    ensures
        on == modes.thread_safe(),
{
    match modes.width {
        0 => modes.fallback == Fallback::ThreadSafe,
        1 => false,
        _ => true,
    }
}

/// Whether thread safety may turn out to be on: as long as nobody has chosen, it may.
pub fn might_be_dyn_thread_safe(modes: &Modes) -> (maybe: bool)
    ensures
        maybe == (modes.thread_safe() || !modes.chosen()),
{
    match modes.width {
        0 => modes.fallback != Fallback::NotThreadSafe,
        1 => false,
        _ => true,
    }
}

/// Whether the thread should hand work to the pool: not as long as nobody has chosen.
pub fn is_parallel_here(modes: &Modes) -> (parallel: bool)
    ensures
        parallel == modes.thread_safe(),
{
    match modes.width {
        0 => modes.fallback == Fallback::ThreadSafe,
        1 => false,
        _ => true,
    }
}

/// The process-wide choice after someone asked for `mode`.
pub open spec fn asked(fallback: Fallback, mode: bool) -> Fallback {
    if mode {
        Fallback::ThreadSafe
    } else if fallback == Fallback::Uninitialized {
        Fallback::NotThreadSafe
    } else {
        fallback
    }
}

/// Asks for a process-wide choice: thread safety is turned on for good, and never off.
pub fn set_dyn_thread_safe_mode(modes: &mut Modes, mode: bool)
    ensures
        *final(modes) == (Modes { fallback: asked(old(modes).fallback, mode), ..*old(modes) }),
{
    if mode {
        modes.fallback = Fallback::ThreadSafe;
    } else if modes.fallback == Fallback::Uninitialized {
        modes.fallback = Fallback::NotThreadSafe;
    }
}

/// The width that a session replaced.
#[derive(Debug, PartialEq, Eq, Structural)]
pub struct SessionMode {
    previous: usize,
}

/// Latches a session's width on the thread, and asks for the process-wide choice to match.
pub fn enter_session_width(modes: &mut Modes, width: usize) -> (session: SessionMode)
    requires
        width > 0,
    ensures
        *final(modes) == (Modes { width, fallback: asked(old(modes).fallback, width > 1) }),
        session.previous() == old(modes).width,
{
    set_dyn_thread_safe_mode(modes, width > 1);
    let previous = modes.width;
    modes.width = width;
    SessionMode { previous }
}

impl SessionMode {
    pub closed spec fn previous(&self) -> usize {
        self.previous
    }

    /// Ends the session: the width it replaced is back.
    pub fn leave(self, modes: &mut Modes)
        ensures
            *final(modes) == (Modes { width: self.previous(), ..*old(modes) }),
    {
        modes.width = self.previous;
    }
}

/// On a latched thread the session alone decides, whatever other sessions do.
pub proof fn law_a_session_decides_for_itself(a: Modes, b: Modes)
    requires
        a.width == b.width,
        a.width != 0,
    ensures
        a.chosen() && b.chosen(),
        a.thread_safe() == b.thread_safe(),
        a.thread_safe() == (a.width > 1),
{
}

/// Once on, the process-wide choice stays on, whatever is asked for; once made, it is never unmade.
pub proof fn law_the_fallback_is_sticky(fallback: Fallback, mode: bool)
    ensures
        fallback == Fallback::ThreadSafe ==> asked(fallback, mode) == Fallback::ThreadSafe,
        asked(fallback, mode) != Fallback::Uninitialized,
        asked(asked(fallback, mode), mode) == asked(fallback, mode),
{
}

/// A session that has ended leaves the thread's width as it found it, and a choice made.
pub proof fn law_a_session_restores_the_width(before: Modes, width: usize)
    requires
        width > 0,
    ensures
        ({
            let inside = Modes { width, fallback: asked(before.fallback, width > 1) };
            let after = Modes { width: before.width, ..inside };
            after.width == before.width && after.chosen() && (before.thread_safe()
                ==> after.thread_safe())
        }),
{
}

/// A value on cache lines of its own.
#[derive(Clone, Copy, Debug, PartialEq, Eq)]
pub struct CacheAligned<T>(pub T);

impl<T: Default> Default for CacheAligned<T> {
    fn default() -> (aligned: CacheAligned<T>)
        ensures
            call_ensures(T::default, (), aligned.0),
    {
        CacheAligned(T::default())
    }
}

/// What maps from keys to values can do.
pub trait HashMapExt<K, V> {
    spec fn map_wf(&self) -> bool;

    spec fn pairs(&self) -> Seq<(K, V)>;

    /// Maps the key to the value. If the key is there already, it maps to the same value.
    fn insert_same(&mut self, key: K, value: V)
        requires
            old(self).map_wf(),
            has_id(old(self).pairs(), key) ==> old(self).pairs()[id_place(
                old(self).pairs(),
                key,
            )].1 == value,
        ensures
            final(self).map_wf(),
            final(self).pairs() == with_id(old(self).pairs(), key, value),
    ;
}

impl<V> HashMapExt<u128, V> for IdMap<V> {
    open spec fn map_wf(&self) -> bool {
        self.wf()
    }

    open spec fn pairs(&self) -> Seq<(u128, V)> {
        self@
    }

    fn insert_same(&mut self, key: u128, value: V) {
        self.insert(key, value);
    }
}

/// A session is thread-safe exactly if it runs on more than one thread. Without a session, it is as
/// was asked for: once anything has asked for thread safety it is on, and it may still come as long
/// as nobody has asked for anything.
pub proof fn law_more_than_one_thread_is_thread_safe(
    modes: &Modes,
    on: bool,
    maybe: bool,
    parallel: bool,
)
    requires
        modes.width != 0 || modes.fallback != Fallback::Uninitialized,
        call_ensures(is_dyn_thread_safe, (modes,), on),
        call_ensures(might_be_dyn_thread_safe, (modes,), maybe),
        call_ensures(is_parallel_here, (modes,), parallel),
    ensures
        modes.width == 1 ==> !on,
        modes.width > 1 ==> on,
        modes.width == 0 ==> (on <==> modes.fallback == Fallback::ThreadSafe),
        maybe == on,
        parallel == on,
{
}

/// As long as nobody has chosen, thread safety may come, but no work is handed out.
pub proof fn law_nothing_is_chosen_at_first(modes: &Modes, maybe: bool, parallel: bool)
    requires
        modes.width == 0,
        modes.fallback == Fallback::Uninitialized,
        call_ensures(might_be_dyn_thread_safe, (modes,), maybe),
        call_ensures(is_parallel_here, (modes,), parallel),
    ensures
        maybe,
        !parallel,
{
}

/// Asking for thread safety turns it on; asking for none is heard only if nobody has asked before.
/// The width of a session is not touched.
pub proof fn law_what_is_asked_for_counts(modes: &mut Modes, mode: bool)
    requires
        call_ensures(set_dyn_thread_safe_mode, (modes, mode), ()),
    ensures
        mode ==> final(modes).fallback == Fallback::ThreadSafe,
        !mode && old(modes).fallback == Fallback::Uninitialized ==> final(modes).fallback
            == Fallback::NotThreadSafe,
        !mode && old(modes).fallback != Fallback::Uninitialized ==> final(modes).fallback
            == old(modes).fallback,
        final(modes).width == old(modes).width,
{
}

} // verus!
