//! Advisory locks on files: what is asked of the system, and what its refusal means.

use vstd::prelude::*;

verus! {

/// How a file is opened for a lock.
#[derive(Clone, Copy, Debug, PartialEq, Eq, Structural)]
pub enum LockOpen {
    /// For reading and writing, and it is made if it is not there.
    CreateRw,
    /// For reading and writing.
    OpenRw,
}

/// Whom a lock keeps out.
#[derive(Clone, Copy, Debug, PartialEq, Eq, Structural)]
pub enum LockKind {
    /// Everybody.
    Write,
    /// Those who want a lock for themselves alone.
    Read,
}

/// What is asked of the system. The lock covers the whole file, however long it becomes.
#[derive(Clone, Copy, Debug, PartialEq, Eq, Structural)]
pub struct LockRequest {
    pub open: LockOpen,
    pub kind: LockKind,
    /// Whether to wait for the lock.
    pub wait: bool,
    pub start: u64,
    pub len: u64,
}

impl LockRequest {
    pub fn new(wait: bool, create: bool, exclusive: bool) -> (request: LockRequest)
        ensures
            (request.open == LockOpen::CreateRw) == create,
            (request.kind == LockKind::Write) == exclusive,
            request.wait == wait,
            request.start == 0,
            request.len == 0,
    {
        let open = if create {
            LockOpen::CreateRw
        } else {
            LockOpen::OpenRw
        };
        let kind = if exclusive {
            LockKind::Write
        } else {
            LockKind::Read
        };
        LockRequest { open, kind, wait, start: 0, len: 0 }
    }
}

/// Whether a failure means that the file system has no locks: the machine's numbers for "not
/// supported" and "no such call" are given.
pub fn error_unsupported(errno: i32, enotsup: i32, enosys: i32) -> (yes: bool)
    ensures
        yes == (errno == enotsup || errno == enosys),
{
    errno == enotsup || errno == enosys
}

} // verus!
