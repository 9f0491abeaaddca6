//! Alignments of types, in bytes.

use vstd::prelude::*;

verus! {

/// A power-of-two alignment in bytes.
#[derive(Clone, Copy, Debug, PartialEq, Eq, Structural)]
pub struct Alignment(usize);

impl Alignment {
    pub closed spec fn bytes(&self) -> usize {
        self.0
    }

    /// The alignment of `T`.
    pub fn of<T>() -> (align: Alignment)
        ensures
            align.bytes() == vstd::layout::align_of::<T>(),
    {
        Alignment(core::mem::align_of::<T>())
    }

    pub fn as_nonzero_usize(self) -> (bytes: usize)
        ensures
            bytes == self.bytes(),
    {
        self.0
    }
}

/// A type with a known alignment.
pub trait Aligned {
    spec fn alignment() -> nat;

    /// The alignment of the type.
    fn align() -> (align: Alignment)
        ensures
            align.bytes() == Self::alignment(),
    ;
}

impl<T> Aligned for T {
    open spec fn alignment() -> nat {
        vstd::layout::align_of::<T>()
    }

    fn align() -> (align: Alignment) {
        Alignment::of::<T>()
    }
}

impl<T> Aligned for [T] {
    open spec fn alignment() -> nat {
        vstd::layout::align_of::<T>()
    }

    fn align() -> (align: Alignment) {
        Alignment::of::<T>()
    }
}

/// The alignment of a type, which may be a slice.
pub fn align_of<T: ?Sized + Aligned>() -> (align: Alignment)
    ensures
        align.bytes() == T::alignment(),
{
    T::align()
}

} // verus!
