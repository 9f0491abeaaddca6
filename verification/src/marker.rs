//! Markers for what may cross threads in a parallel session. Every type has them.

use vstd::prelude::*;

verus! {

/// A type that could be sent across threads in a thread-safe session.
pub trait DynSend {

}

/// A type that could be shared across threads in a thread-safe session.
pub trait DynSync {

}

impl<T: ?Sized> DynSend for T {

}

impl<T: ?Sized> DynSync for T {

}

pub fn assert_dyn_sync<T: ?Sized + DynSync>() {
}

pub fn assert_dyn_send<T: ?Sized + DynSend>() {
}

pub fn assert_dyn_send_val<T: ?Sized + DynSend>(_t: &T) {
}

pub fn assert_dyn_send_sync_val<T: ?Sized + DynSync + DynSend>(_t: &T) {
}

/// Carries a value that is `Send` or `Sync` where the markers are asked for.
pub struct IntoDynSyncSend<T>(pub T);

impl<T> IntoDynSyncSend<T> {
    /// The value.
    pub fn get(&self) -> (value: &T)
        ensures
            *value == self.0,
    {
        &self.0
    }

    /// The value, to change it.
    pub fn get_mut(&mut self) -> (value: &mut T)
        ensures
            *value == old(self).0,
            final(self).0 == *final(value),
    {
        &mut self.0
    }
}

} // verus!
