//! Unsigned integers as text in a chosen base.
//!
//! Bases up to and including 36 can be used where letter case does not count.

use vstd::prelude::*;

use crate::text::repeated;

verus! {

pub const MAX_BASE: usize = 64;

pub const ALPHANUMERIC_ONLY: usize = 62;

pub const CASE_INSENSITIVE: usize = 36;

/// The digits a base may use, least first: `0`..`9`, `a`..`z`, `A`..`Z`, `@`, `$`.
pub open spec fn digit_char(d: nat) -> char {
    if d < 10 {
        ('0' as int + d) as char
    } else if d < 36 {
        ('a' as int + (d - 10)) as char
    } else if d < 62 {
        ('A' as int + (d - 36)) as char
    } else if d == 62 {
        '@'
    } else {
        '$'
    }
}

/// The digits of `n` in `base`, most significant first, without leading zeros. Zero is `0`.
pub open spec fn base_digits(n: nat, base: nat) -> Seq<char>
    recommends
        2 <= base <= MAX_BASE,
    decreases n,
{
    if base < 2 || n < base {
        seq![digit_char(n)]
    } else {
        proof {
            assert(n / base < n) by (nonlinear_arith)
                requires
                    n >= base,
                    base >= 2,
            ;
        }
        base_digits(n / base, base).push(digit_char(n % base))
    }
}

/// How many digits in `base` it takes to write `max`, with none for zero.
pub open spec fn digit_count(max: nat, base: nat) -> nat
    decreases max,
{
    if base < 2 || max == 0 {
        0
    } else {
        proof {
            assert(max / base < max) by (nonlinear_arith)
                requires
                    max > 0,
                    base >= 2,
            ;
        }
        1 + digit_count(max / base, base)
    }
}

/// `text` with zeros in front, so that it has `len` digits.
pub open spec fn zero_padded(text: Seq<char>, len: nat) -> Seq<char> {
    repeated('0', (len - text.len()) as nat) + text
}

fn digit(d: u8) -> (c: char)
    requires
        d < MAX_BASE,
    ensures
        c == digit_char(d as nat),
{
    if d < 10 {
        (48 + d) as char
    } else if d < 36 {
        (97 + (d - 10)) as char
    } else if d < 62 {
        (65 + (d - 36)) as char
    } else if d == 62 {
        '@'
    } else {
        '$'
    }
}

/// An integer written in some base.
pub struct BaseNString {
    text: String,
}

impl View for BaseNString {
    type V = Seq<char>;

    closed spec fn view(&self) -> Seq<char> {
        self.text@
    }
}

impl BaseNString {
    pub fn as_str(&self) -> (s: &str)
        ensures
            s@ == self@,
    {
        self.text.as_str()
    }

    /// The digits in hand, as an owned string.
    pub fn to_text(&self) -> (s: String)
        ensures
            s@ == self@,
    {
        self.text.clone()
    }
}

/// The digits of `n` in `base`, least significant first.
fn reversed_digits(n: u128, base: usize) -> (digits: Vec<char>)
    requires
        2 <= base <= MAX_BASE,
    ensures
        digits@.reverse() == base_digits(n as nat, base as nat),
        1 <= digits@.len() <= 128,
        digits@.len() <= digit_count(n as nat, base as nat) || n == 0,
{
    let mut digits: Vec<char> = Vec::new();
    let mut rest: u128 = n;
    let divisor: u128 = base as u128;
    let ghost whole = base_digits(n as nat, base as nat);
    proof {
        assert(digits@.reverse() =~= Seq::<char>::empty());
        assert(whole =~= base_digits(rest as nat, base as nat) + digits@.reverse());
        lemma_u128_bound(n);
        lemma_digit_count_bound(n as nat, base as nat, 128);
    }
    while rest >= divisor
        invariant
            2 <= base <= MAX_BASE,
            divisor == base,
            whole == base_digits(n as nat, base as nat),
            whole == base_digits(rest as nat, base as nat) + digits@.reverse(),
            n > 0 ==> digits@.len() + digit_count(rest as nat, base as nat) == digit_count(
                n as nat,
                base as nat,
            ),
            rest == 0 ==> n == 0,
            n == 0 ==> digits@.len() == 0 && rest == 0,
            digit_count(n as nat, base as nat) <= 128,
        decreases rest,
    {
        let low: u8 = (rest % divisor) as u8;
        let ghost before = digits@;
        let ghost higher = base_digits((rest / divisor) as nat, base as nat);
        assert(base_digits(rest as nat, base as nat) == higher.push(
            digit_char((rest % divisor) as nat),
        ));
        digits.push(digit(low));
        proof {
            let ghost r: int = rest as int;
            let ghost b: int = divisor as int;
            assert(r / b < r && r / b >= 1) by (nonlinear_arith)
                requires
                    r >= b,
                    b >= 2,
            ;
            assert(digits@.reverse() =~= seq![digit_char((rest % divisor) as nat)]
                + before.reverse());
            assert(whole =~= higher + digits@.reverse());
        }
        rest = rest / divisor;
    }
    let ghost before = digits@;
    digits.push(digit(rest as u8));
    proof {
        assert(digits@.reverse() =~= seq![digit_char(rest as nat)] + before.reverse());
        reveal_with_fuel(digit_count, 2);
        assert(rest > 0 ==> rest as nat / base as nat == 0) by {
            vstd::arithmetic::div_mod::lemma_basic_div(rest as int, base as int);
        }
    }
    digits
}

proof fn lemma_u128_bound(n: u128)
    ensures
        n < vstd::arithmetic::power2::pow2(128),
{
    vstd::arithmetic::power2::lemma2_to64_rest();
    vstd::arithmetic::power2::lemma_pow2_adds(64, 64);
    assert(0x1_0000_0000_0000_0000int * 0x1_0000_0000_0000_0000int
        == 0x1_0000_0000_0000_0000_0000_0000_0000_0000int) by (nonlinear_arith);
}

/// `2` to the `bits` is an upper bound for a number that takes at most `bits` digits.
proof fn lemma_digit_count_bound(n: nat, base: nat, bits: nat)
    requires
        base >= 2,
        n < vstd::arithmetic::power2::pow2(bits),
    ensures
        digit_count(n, base) <= bits,
    decreases bits,
{
    if n > 0 {
        if bits == 0 {
            vstd::arithmetic::power2::lemma2_to64();
        } else {
            vstd::arithmetic::power2::lemma_pow2_unfold(bits);
            assert(n / base < vstd::arithmetic::power2::pow2((bits - 1) as nat)) by (nonlinear_arith)
                requires
                    n < 2 * vstd::arithmetic::power2::pow2((bits - 1) as nat),
                    base >= 2,
            ;
            lemma_digit_count_bound(n / base, base, (bits - 1) as nat);
        }
    }
}

/// The text that `digits`, least significant first, stand for, with zeros in front up to `len`.
fn render(digits: &Vec<char>, len: usize) -> (s: BaseNString)
    ensures
        s@ == (if len <= digits@.len() {
            digits@.reverse()
        } else {
            zero_padded(digits@.reverse(), len as nat)
        }),
{
    let mut text = String::new();
    if digits.len() < len {
        crate::text::push_repeated(&mut text, '0', len - digits.len());
    }
    let ghost zeros = text@;
    let mut left: usize = digits.len();
    while left > 0
        invariant
            left <= digits@.len(),
            text@ == zeros + digits@.reverse().take(digits@.len() - left),
        decreases left,
    {
        left -= 1;
        text.push(digits[left]);
        proof {
            let taken = digits@.len() - left;
            assert(digits@.reverse().take(taken) =~= digits@.reverse().take(taken - 1).push(
                digits@[left as int],
            ));
            assert(text@ =~= zeros + digits@.reverse().take(taken));
        }
    }
    assert(digits@.reverse().take(digits@.len() as int) =~= digits@.reverse());
    BaseNString { text }
}

/// An unsigned integer that can be written in some base.
pub trait ToBaseN: Sized {
    /// The number that `self` is.
    spec fn number(self) -> nat;

    /// The largest number of the type.
    spec fn largest() -> nat;

    proof fn lemma_in_range(self)
        ensures
            self.number() <= Self::largest() <= u128::MAX,
            Self::largest() > 0,
    ;

    fn widen(self) -> (n: u128)
        ensures
            n == self.number(),
    ;

    /// How many digits the largest number of the type takes.
    fn encoded_len(base: usize) -> (len: usize)
        requires
            2 <= base <= MAX_BASE,
        ensures
            len == digit_count(Self::largest(), base as nat),
            len <= 128,
    ;

    /// The digits of `self`, with zeros in front so that every number of the type has the same
    /// length.
    fn to_base_fixed_len(self, base: usize) -> (s: BaseNString)
        requires
            2 <= base <= MAX_BASE,
        ensures
            s@ == zero_padded(
                base_digits(self.number(), base as nat),
                digit_count(Self::largest(), base as nat),
            ),
            s@.len() == digit_count(Self::largest(), base as nat),
    {
        let ghost most = Self::largest();
        proof {
            self.lemma_in_range();
            lemma_digit_count_monotone(self.number(), most, base as nat);
            lemma_digit_count_monotone(1, most, base as nat);
            lemma_base_digits_len(self.number(), base as nat);
        }
        let len: usize = Self::encoded_len(base);
        let digits = reversed_digits(self.widen(), base);
        let s = render(&digits, len);
        assert(len == digits@.len() ==> s@ =~= zero_padded(digits@.reverse(), len as nat));
        s
    }

    /// The digits of `self`, without leading zeros.
    fn to_base(self, base: usize) -> (s: BaseNString)
        requires
            2 <= base <= MAX_BASE,
        ensures
            s@ == base_digits(self.number(), base as nat),
    {
        let digits = reversed_digits(self.widen(), base);
        render(&digits, 0)
    }
}

impl ToBaseN for u128 {
    open spec fn number(self) -> nat {
        self as nat
    }

    open spec fn largest() -> nat {
        u128::MAX as nat
    }

    proof fn lemma_in_range(self) {
    }

    fn widen(self) -> (n: u128) {
        self
    }

    fn encoded_len(base: usize) -> (len: usize) {
        count_digits(u128::MAX, base)
    }
}

impl ToBaseN for u64 {
    open spec fn number(self) -> nat {
        self as nat
    }

    open spec fn largest() -> nat {
        u64::MAX as nat
    }

    proof fn lemma_in_range(self) {
    }

    fn widen(self) -> (n: u128) {
        self as u128
    }

    fn encoded_len(base: usize) -> (len: usize) {
        count_digits(u64::MAX as u128, base)
    }
}

impl ToBaseN for u32 {
    open spec fn number(self) -> nat {
        self as nat
    }

    open spec fn largest() -> nat {
        u32::MAX as nat
    }

    proof fn lemma_in_range(self) {
    }

    fn widen(self) -> (n: u128) {
        self as u128
    }

    fn encoded_len(base: usize) -> (len: usize) {
        count_digits(u32::MAX as u128, base)
    }
}

fn count_digits(most: u128, base: usize) -> (len: usize)
    requires
        2 <= base <= MAX_BASE,
    ensures
        len == digit_count(most as nat, base as nat),
        len <= 128,
{
    let mut max: u128 = most;
    let mut len: usize = 0;
    proof {
        lemma_u128_bound(most);
        lemma_digit_count_bound(most as nat, base as nat, 128);
    }
    while max > 0
        invariant
            2 <= base <= MAX_BASE,
            len + digit_count(max as nat, base as nat) == digit_count(most as nat, base as nat),
            digit_count(most as nat, base as nat) <= 128,
        decreases max,
    {
        proof {
            let m: int = max as int;
            let b: int = base as int;
            assert(m / b < m) by (nonlinear_arith)
                requires
                    m > 0,
                    b >= 2,
            ;
        }
        len += 1;
        max = max / (base as u128);
    }
    len
}

proof fn lemma_digit_count_monotone(m: nat, n: nat, base: nat)
    requires
        base >= 2,
        m <= n,
    ensures
        digit_count(m, base) <= digit_count(n, base),
    decreases n,
{
    if m > 0 {
        assert(n / base < n && m / base <= n / base) by (nonlinear_arith)
            requires
                n > 0,
                base >= 2,
                m <= n,
        ;
        lemma_digit_count_monotone(m / base, n / base, base);
    }
}

proof fn lemma_base_digits_len(n: nat, base: nat)
    requires
        2 <= base,
    ensures
        n > 0 ==> base_digits(n, base).len() == digit_count(n, base),
        n == 0 ==> base_digits(n, base).len() == 1,
    decreases n,
{
    reveal_with_fuel(digit_count, 2);
    if n >= base {
        assert(1 <= n / base < n) by (nonlinear_arith)
            requires
                n >= base,
                base >= 2,
        ;
        lemma_base_digits_len(n / base, base);
    } else if n > 0 {
        vstd::arithmetic::div_mod::lemma_basic_div(n as int, base as int);
    }
}

/// The digit that `c` is.
pub open spec fn digit_value(c: char) -> nat {
    if '0' <= c <= '9' {
        (c as int - '0' as int) as nat
    } else if 'a' <= c <= 'z' {
        (c as int - 'a' as int + 10) as nat
    } else if 'A' <= c <= 'Z' {
        (c as int - 'A' as int + 36) as nat
    } else if c == '@' {
        62
    } else {
        63
    }
}

/// The number that `text` stands for in `base`.
pub open spec fn parsed(text: Seq<char>, base: nat) -> nat
    decreases text.len(),
{
    if text.len() == 0 {
        0
    } else {
        parsed(text.drop_last(), base) * base + digit_value(text.last())
    }
}

/// Reading back the digits of a number gives the number.
pub proof fn law_digits_read_back(n: nat, base: nat)
    requires
        2 <= base <= MAX_BASE,
    ensures
        parsed(base_digits(n, base), base) == n,
    decreases n,
{
    reveal_with_fuel(parsed, 2);
    let text = base_digits(n, base);
    if n < base {
        assert(text.drop_last().len() == 0);
    } else {
        assert(n / base < n) by (nonlinear_arith)
            requires
                n >= base,
                base >= 2,
        ;
        law_digits_read_back(n / base, base);
        assert(text.drop_last() =~= base_digits(n / base, base));
        assert(n % base < base && n == (n / base) * base + n % base) by (nonlinear_arith)
            requires
                base >= 2,
        ;
    }
}

/// Zeros in front of the digits do not change the number they stand for.
pub proof fn law_padding_reads_back(text: Seq<char>, len: nat, base: nat)
    requires
        text.len() <= len,
    ensures
        parsed(zero_padded(text, len), base) == parsed(text, base),
    decreases text.len(),
{
    let padded = zero_padded(text, len);
    if text.len() == 0 {
        lemma_zeros_are_zero(len, base);
        assert(padded =~= repeated('0', len));
    } else {
        law_padding_reads_back(text.drop_last(), (len - 1) as nat, base);
        assert(padded.drop_last() =~= zero_padded(text.drop_last(), (len - 1) as nat));
        assert(padded.last() == text.last());
    }
}

proof fn lemma_zeros_are_zero(count: nat, base: nat)
    ensures
        parsed(repeated('0', count), base) == 0,
    decreases count,
{
    let zeros = repeated('0', count);
    if count > 0 {
        lemma_zeros_are_zero((count - 1) as nat, base);
        assert(zeros.drop_last() =~= repeated('0', (count - 1) as nat));
        assert(0 * base == 0);
    }
}

/// Two different numbers of a type are written differently, with and without padding.
pub proof fn law_encoding_is_injective<T: ToBaseN>(a: T, b: T, base: nat)
    requires
        2 <= base <= MAX_BASE,
        a.number() != b.number(),
    ensures
        base_digits(a.number(), base) != base_digits(b.number(), base),
        zero_padded(base_digits(a.number(), base), digit_count(T::largest(), base))
            != zero_padded(base_digits(b.number(), base), digit_count(T::largest(), base)),
{
    let len = digit_count(T::largest(), base);
    a.lemma_in_range();
    b.lemma_in_range();
    law_digits_read_back(a.number(), base);
    law_digits_read_back(b.number(), base);
    lemma_base_digits_len(a.number(), base);
    lemma_base_digits_len(b.number(), base);
    lemma_digit_count_monotone(a.number(), T::largest(), base);
    lemma_digit_count_monotone(b.number(), T::largest(), base);
    law_padding_reads_back(base_digits(a.number(), base), len, base);
    law_padding_reads_back(base_digits(b.number(), base), len, base);
}

/// The digits are the usual ones: the ten digits, then the letters, small before capital, then two
/// signs.
pub proof fn law_digits_are_the_usual_ones(d: nat)
    requires
        d < MAX_BASE,
    ensures
        digit_char(d)
            == "0123456789abcdefghijklmnopqrstuvwxyzABCDEFGHIJKLMNOPQRSTUVWXYZ@$"@[d as int],
{
    reveal_strlit("0123456789abcdefghijklmnopqrstuvwxyzABCDEFGHIJKLMNOPQRSTUVWXYZ@$");
}

/// A fixed length is the length of the largest number: no number of the type needs more digits, and
/// one digit less is not enough for it.
pub proof fn law_a_fixed_length_fits_every_number(max: nat, base: nat)
    requires
        2 <= base <= MAX_BASE,
        max > 0,
    ensures
        base_digits(max, base).len() == digit_count(max, base),
        forall|n: nat| n <= max ==> (#[trigger] base_digits(n, base)).len() <= digit_count(max, base),
{
    lemma_base_digits_len(max, base);
    assert(digit_count(max, base) >= 1);
    assert forall|n: nat| n <= max implies (#[trigger] base_digits(n, base)).len() <= digit_count(
        max,
        base,
    ) by {
        lemma_base_digits_len(n, base);
        lemma_digit_count_monotone(n, max, base);
    }
}

} // verus!
