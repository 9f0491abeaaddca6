//! The strict version hash of a crate: it tells when what a crate was compiled from has changed.

use vstd::prelude::*;

use crate::base_n::base_digits;
use crate::base_n::law_digits_read_back;
use crate::base_n::law_padding_reads_back;
use crate::base_n::ToBaseN;
use crate::base_n::zero_padded;
use crate::text::push_repeated;

use vstd::string::StringExecFns;

verus! {

/// A version hash.
#[derive(Clone, Copy, Debug, PartialEq, Eq, Hash, Structural)]
pub struct Svh {
    hash: u128,
}

impl View for Svh {
    type V = u128;

    closed spec fn view(&self) -> u128 {
        self.hash
    }
}

impl Svh {
    pub fn new(hash: u128) -> (svh: Svh)
        ensures
            svh@ == hash,
    {
        Svh { hash }
    }

    pub fn as_u128(self) -> (hash: u128)
        ensures
            hash == self@,
    {
        self.hash
    }

    /// The hash in 32 hexadecimal digits.
    pub fn to_hex(self) -> (hex: String)
        ensures
            hex@ == zero_padded(base_digits(self@ as nat, 16), 32),
            hex@.len() == 32,
    {
        let digits = self.hash.to_base(16).to_text();
        proof {
            lemma_u128_is_32_digits();
            lemma_hex_len(self.hash as nat, 32);
        }
        let mut hex = String::new();
        let len = digits.as_str().unicode_len();
        push_repeated(&mut hex, '0', 32 - len);
        hex.append(digits.as_str());
        hex
    }
}

/// A number below sixteen to the power of `n` has at most `n` digits, and at least one.
proof fn lemma_hex_len(m: nat, n: nat)
    requires
        m < vstd::arithmetic::power::pow(16, n),
        n > 0,
    ensures
        base_digits(m, 16).len() <= n,
    decreases n,
{
    if m >= 16 {
        reveal_with_fuel(vstd::arithmetic::power::pow, 2);
        assert(m / 16 < vstd::arithmetic::power::pow(16, (n - 1) as nat));
        lemma_hex_len(m / 16, (n - 1) as nat);
    }
}

/// 128 bits are 32 hexadecimal digits.
proof fn lemma_u128_is_32_digits()
    ensures
        u128::MAX < vstd::arithmetic::power::pow(16, 32),
{
    reveal_with_fuel(vstd::arithmetic::power::pow, 33);
}

/// Different hashes have different digits.
pub proof fn law_hex_tells_hashes_apart(a: Svh, b: Svh)
    requires
        a@ != b@,
    ensures
        zero_padded(base_digits(a@ as nat, 16), 32) != zero_padded(base_digits(b@ as nat, 16), 32),
{
    lemma_u128_is_32_digits();
    lemma_hex_len(a@ as nat, 32);
    lemma_hex_len(b@ as nat, 32);
    law_padding_reads_back(base_digits(a@ as nat, 16), 32, 16);
    law_padding_reads_back(base_digits(b@ as nat, 16), 32, 16);
    law_digits_read_back(a@ as nat, 16);
    law_digits_read_back(b@ as nat, 16);
}

/// A hash reads back from its digits, of which there are always 32.
pub proof fn law_a_hash_reads_back(svh: Svh, hex: String)
    requires
        call_ensures(Svh::to_hex, (svh,), hex),
    ensures
        hex@.len() == 32,
        crate::base_n::parsed(hex@, 16) == svh@,
{
    lemma_u128_is_32_digits();
    lemma_hex_len(svh@ as nat, 32);
    law_padding_reads_back(base_digits(svh@ as nat, 16), 32, 16);
    law_digits_read_back(svh@ as nat, 16);
}

} // verus!
