//! The codes of errors.

use vstd::prelude::*;
use vstd::string::StringExecFns;

use crate::base_n::base_digits;
use crate::base_n::zero_padded;
use crate::error_messages::args::ArgModel;
use crate::error_messages::args::DiagArgValue;
use crate::error_messages::args::IntoDiagArg;
use crate::error_messages::args::LongTyPath;
use crate::text::decimal;
use crate::text::decimal_text;
use crate::text::push_repeated;

verus! {

/// The largest error code: every code has four digits.
pub const MAX_ERR_CODE: u32 = 9999;

/// The code of an error.
#[derive(Clone, Copy, PartialEq, Eq, Structural, Debug)]
pub struct ErrCode {
    number: u32,
}

impl ErrCode {
    pub closed spec fn number(self) -> u32 {
        self.number
    }

    pub open spec fn wf(self) -> bool {
        self.number() <= MAX_ERR_CODE
    }

    pub fn from_u32(number: u32) -> (code: ErrCode)
        requires
            number <= MAX_ERR_CODE,
        ensures
            code.wf(),
            code.number() == number,
    {
        ErrCode { number }
    }

    pub fn as_u32(self) -> (number: u32)
        ensures
            number == self.number(),
    {
        self.number
    }

    /// The code as it is written: an `E` and four digits.
    pub open spec fn written(self) -> Seq<char> {
        seq!['E'] + zero_padded(decimal(self.number() as nat), 4)
    }

    pub fn to_text(self) -> (s: String)
        requires
            self.wf(),
        ensures
            s@ == self.written(),
    {
        let digits = decimal_text(self.number as u128);
        let len: usize = crate::text::to_chars(digits.as_str()).len();
        proof {
            lemma_four_digits(self.number as nat);
        }
        let mut s = String::new();
        s.push('E');
        push_repeated(&mut s, '0', 4 - len);
        s.append(digits.as_str());
        assert(s@ =~= self.written());
        s
    }

    /// The code as an argument of a message.
    pub fn to_diag_arg(self, path: &mut LongTyPath) -> (value: DiagArgValue)
        requires
            self.wf(),
        ensures
            value@ == ArgModel::Str(self.written()),
            *final(path) == *old(path),
    {
        self.to_text().into_diag_arg(path)
    }
}

pub proof fn lemma_four_digits(n: nat)
    requires
        n <= 9999,
    ensures
        1 <= decimal(n).len() <= 4,
{
    reveal_with_fuel(base_digits, 4);
    assert(n / 10 <= 999 && n / 10 / 10 <= 99 && n / 10 / 10 / 10 <= 9);
}

/// Two codes are written the same only if they are the same.
pub proof fn law_codes_are_written_apart(a: ErrCode, b: ErrCode)
    requires
        a.wf(),
        b.wf(),
        a.written() == b.written(),
    ensures
        a.number() == b.number(),
{
    lemma_four_digits(a.number() as nat);
    lemma_four_digits(b.number() as nat);
    crate::base_n::law_digits_read_back(a.number() as nat, 10);
    crate::base_n::law_digits_read_back(b.number() as nat, 10);
    crate::base_n::law_padding_reads_back(decimal(a.number() as nat), 4, 10);
    crate::base_n::law_padding_reads_back(decimal(b.number() as nat), 4, 10);
    let pa = zero_padded(decimal(a.number() as nat), 4);
    let pb = zero_padded(decimal(b.number() as nat), 4);
    assert(a.written().skip(1) =~= pa);
    assert(b.written().skip(1) =~= pb);
}

} // verus!
