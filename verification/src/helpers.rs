//! Small helpers that every part of the front end uses.

use vstd::prelude::*;

verus! {

/// Calls the function, out of line.
#[inline(never)]
pub fn outline<F: FnOnce() -> R, R>(f: F) -> (r: R)
    requires
        call_requires(f, ()),
    ensures
        call_ensures(f, (), r),
{
    f()
}

/// A call that is owed when a scope ends.
pub struct OnDrop<F: FnOnce()>(Option<F>);

/// Owes a call of `f`.
pub fn defer<F: FnOnce()>(f: F) -> (owed: OnDrop<F>)
    ensures
        owed.owes() == Some(f),
{
    OnDrop(Some(f))
}

impl<F: FnOnce()> OnDrop<F> {
    /// What is owed.
    pub closed spec fn owes(&self) -> Option<F> {
        self.0
    }

    /// Calls off the call: nothing is owed any more.
    pub fn disable(self) -> (free: OnDrop<F>)
        ensures
            free.owes() is None,
    {
        OnDrop(None)
    }

    /// Makes the call, if it is still owed; says whether it was.
    pub fn fire(self) -> (called: bool)
        requires
            self.owes() is Some ==> call_requires(self.owes()->0, ()),
        ensures
            called == self.owes() is Some,
            called ==> call_ensures(self.owes()->0, (), ()),
    {
        match self.0 {
            Some(f) => {
                f();
                true
            },
            None => false,
        }
    }
}

/// Marks an unwinding that ends a compilation after a fatal error.
#[derive(Clone, Copy, Debug, PartialEq, Eq, Structural)]
pub struct FatalErrorMarker;

/// Marks an unwinding that came of a bug the compiler reported itself.
#[derive(Clone, Copy, Debug, PartialEq, Eq, Structural)]
pub struct ExplicitBug;

/// Marks an unwinding that came of a delayed bug that nothing made good.
#[derive(Clone, Copy, Debug, PartialEq, Eq, Structural)]
pub struct DelayedBugPanic;

/// Text that is made when it is shown.
pub struct Printer<F> {
    f: F,
}

/// Something that shows what `f` writes.
pub fn make_display<F: Fn() -> String>(f: F) -> (printer: Printer<F>)
    ensures
        printer.writes() == f,
{
    Printer { f }
}

impl<F: Fn() -> String> Printer<F> {
    /// What writes the text.
    pub closed spec fn writes(&self) -> F {
        self.f
    }

    /// The text.
    pub fn to_text(&self) -> (text: String)
        requires
            call_requires(self.writes(), ()),
        ensures
            call_ensures(self.writes(), (), text),
    {
        (self.f)()
    }
}

} // verus!
