//! A hasher for keys that are hashes already.

use vstd::prelude::*;

verus! {

/// Sums the numbers that it is fed: the order does not count, and a single number is its own hash.
pub struct Unhasher {
    value: u64,
}

impl Default for Unhasher {
    fn default() -> (hasher: Unhasher)
        ensures
            hasher@ == 0,
    {
        Unhasher { value: 0 }
    }
}

impl View for Unhasher {
    type V = int;

    closed spec fn view(&self) -> int {
        self.value as int
    }
}

impl Unhasher {
    /// The sum so far.
    pub fn finish(&self) -> (hash: u64)
        ensures
            hash == self@,
    {
        self.value
    }

    /// Adds a number, round the largest one.
    pub fn write_u64(&mut self, value: u64)
        ensures
            final(self)@ == unhash(old(self)@, value),
    {
        self.value = self.value.wrapping_add(value);
    }
}

/// The sum once `value` was added.
pub open spec fn unhash(sum: int, value: u64) -> int {
    (sum + value) % 0x1_0000_0000_0000_0000
}

/// The halves of a fingerprint may be fed in either order.
pub proof fn law_order_does_not_count(sum: int, a: u64, b: u64)
    ensures
        unhash(unhash(sum, a), b) == unhash(unhash(sum, b), a),
{
}

/// One number hashes to itself.
pub proof fn law_one_number_is_its_own_hash(a: u64)
    ensures
        unhash(0, a) == a,
{
}

} // verus!
