//! What a pass costs per byte of the source an item covers, in nanoseconds: the factor that turns
//! a byte count into a stage weight.

use vstd::prelude::*;

verus! {

/// Walks of an item that check attributes, stability, privacy, liveness or lints and infer
/// nothing.
pub const WALK: u32 = 1;

/// Type checking and the passes as heavy.
pub const TYPECK: u32 = 4;

/// Late name resolution.
pub const RESOLVE: u32 = 73;

/// `bytes` of source at `ns_per_byte`, as a stage weight: at most what a `u32` holds.
pub fn weight(bytes: u32, ns_per_byte: u32) -> (w: u32)
    ensures
        w == (if bytes * ns_per_byte > u32::MAX {
            u32::MAX as int
        } else {
            bytes * ns_per_byte
        }),
{
    match bytes.checked_mul(ns_per_byte) {
        Some(w) => w,
        None => u32::MAX,
    }
}

/// What a walk, type checking and name resolution cost: a byte at a time, as far as it can be
/// written down.
pub proof fn law_every_byte_costs_the_same(bytes: u32, walk: u32, typeck: u32, resolve: u32)
    requires
        call_ensures(weight, (bytes, WALK), walk),
        call_ensures(weight, (bytes, TYPECK), typeck),
        call_ensures(weight, (bytes, RESOLVE), resolve),
    ensures
        walk == bytes,
        typeck == (if 4 * bytes <= u32::MAX {
            4 * bytes
        } else {
            u32::MAX as int
        }),
        resolve == (if 73 * bytes <= u32::MAX {
            73 * bytes
        } else {
            u32::MAX as int
        }),
{
    assert(bytes * 1 == bytes);
    assert(bytes * 4 == 4 * bytes);
    assert(bytes * 73 == 73 * bytes);
}

} // verus!
