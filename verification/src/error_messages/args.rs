//! The arguments that a message is filled with.

use vstd::prelude::*;
use vstd::string::StringExecFns;

use crate::text::decimal_text;
use crate::text::joined;
use crate::text::signed_decimal;
use crate::text::signed_decimal_text;
use crate::text::texts;

verus! {

pub enum DiagArgValue {
    Str(String),
    /// A number that selections can be written against. A bigger one is a `Str`.
    Number(i32),
    StrListSepByAnd(Vec<String>),
}

/// What an argument is, with its texts as characters.
pub enum ArgModel {
    Str(Seq<char>),
    Number(i32),
    StrListSepByAnd(Seq<Seq<char>>),
}

impl View for DiagArgValue {
    type V = ArgModel;

    open spec fn view(&self) -> ArgModel {
        match self {
            DiagArgValue::Str(s) => ArgModel::Str(s@),
            DiagArgValue::Number(n) => ArgModel::Number(*n),
            DiagArgValue::StrListSepByAnd(list) => ArgModel::StrListSepByAnd(texts(list@)),
        }
    }
}

/// The parts as a list in a sentence: `a`, `a and b`, `a, b, and c`.
pub open spec fn and_list(parts: Seq<Seq<char>>) -> Seq<char> {
    if parts.len() <= 1 {
        joined(parts, ", "@)
    } else if parts.len() == 2 {
        parts[0] + " and "@ + parts[1]
    } else {
        joined(parts.drop_last(), ", "@) + ", and "@ + parts.last()
    }
}

/// The parts as a list in a sentence.
pub fn join_with_and(list: &Vec<String>) -> (out: String)
    ensures
        out@ == and_list(texts(list@)),
{
    let mut out = String::new();
    let mut i: usize = 0;
    let ghost parts = texts(list@);
    assert(parts.take(0) =~= Seq::<Seq<char>>::empty());
    while i < list.len()
        invariant
            i <= list@.len(),
            parts == texts(list@),
            i < parts.len() || i <= 1 ==> out@ == joined(parts.take(i as int), ", "@),
            i == parts.len() && i > 1 ==> out@ == and_list(parts),
            parts.len() == 2 && i == 1 ==> out@ == parts[0],
        decreases list@.len() - i,
    {
        proof {
            assert(parts.take(i + 1).drop_last() =~= parts.take(i as int));
            assert(parts.take(i + 1).last() == parts[i as int]);
            if i + 1 == parts.len() {
                assert(parts.drop_last() =~= parts.take(i as int));
            }
        }
        if i > 0 {
            if list.len() == 2 {
                out.append(" and ");
            } else if i + 1 == list.len() {
                out.append(", and ");
            } else {
                out.append(", ");
            }
        }
        out.append(list[i].as_str());
        i += 1;
        proof {
            assert(i == 1 ==> out@ =~= parts[0]);
            assert(i < parts.len() && i > 1 ==> out@ =~= joined(parts.take(i as int), ", "@));
        }
    }
    assert(parts.take(i as int) =~= parts);
    out
}

/// Where a value that is too long to show may be written to.
pub type LongTyPath = Option<String>;

/// A value that a message can be filled with.
pub trait IntoDiagArg: Sized {
    /// The argument that the value becomes.
    spec fn arg(self) -> ArgModel;

    fn into_diag_arg(self, path: &mut LongTyPath) -> (value: DiagArgValue)
        ensures
            value@ == self.arg(),
            *final(path) == *old(path),
    ;
}

impl IntoDiagArg for DiagArgValue {
    open spec fn arg(self) -> ArgModel {
        self@
    }

    fn into_diag_arg(self, path: &mut LongTyPath) -> (value: DiagArgValue) {
        self
    }
}

/// A number as an argument: the number itself if an `i32` holds it, else its digits.
pub open spec fn number_arg(n: int) -> ArgModel {
    if i32::MIN <= n <= i32::MAX {
        ArgModel::Number(n as i32)
    } else {
        ArgModel::Str(signed_decimal(n))
    }
}

fn signed_number(n: i128) -> (value: DiagArgValue)
    ensures
        value@ == number_arg(n as int),
{
    if i32::MIN as i128 <= n && n <= i32::MAX as i128 {
        DiagArgValue::Number(n as i32)
    } else {
        DiagArgValue::Str(signed_decimal_text(n))
    }
}

fn unsigned_number(n: u128) -> (value: DiagArgValue)
    ensures
        value@ == number_arg(n as int),
{
    if n <= i32::MAX as u128 {
        DiagArgValue::Number(n as i32)
    } else {
        DiagArgValue::Str(decimal_text(n))
    }
}

impl IntoDiagArg for i8 {
    open spec fn arg(self) -> ArgModel {
        number_arg(self as int)
    }

    fn into_diag_arg(self, path: &mut LongTyPath) -> (value: DiagArgValue) {
        signed_number(self as i128)
    }
}

impl IntoDiagArg for i16 {
    open spec fn arg(self) -> ArgModel {
        number_arg(self as int)
    }

    fn into_diag_arg(self, path: &mut LongTyPath) -> (value: DiagArgValue) {
        signed_number(self as i128)
    }
}

impl IntoDiagArg for i32 {
    open spec fn arg(self) -> ArgModel {
        number_arg(self as int)
    }

    fn into_diag_arg(self, path: &mut LongTyPath) -> (value: DiagArgValue) {
        signed_number(self as i128)
    }
}

impl IntoDiagArg for i64 {
    open spec fn arg(self) -> ArgModel {
        number_arg(self as int)
    }

    fn into_diag_arg(self, path: &mut LongTyPath) -> (value: DiagArgValue) {
        signed_number(self as i128)
    }
}

impl IntoDiagArg for i128 {
    open spec fn arg(self) -> ArgModel {
        number_arg(self as int)
    }

    fn into_diag_arg(self, path: &mut LongTyPath) -> (value: DiagArgValue) {
        signed_number(self as i128)
    }
}

impl IntoDiagArg for isize {
    open spec fn arg(self) -> ArgModel {
        number_arg(self as int)
    }

    fn into_diag_arg(self, path: &mut LongTyPath) -> (value: DiagArgValue) {
        signed_number(self as i128)
    }
}

impl IntoDiagArg for u8 {
    open spec fn arg(self) -> ArgModel {
        number_arg(self as int)
    }

    fn into_diag_arg(self, path: &mut LongTyPath) -> (value: DiagArgValue) {
        unsigned_number(self as u128)
    }
}

impl IntoDiagArg for u16 {
    open spec fn arg(self) -> ArgModel {
        number_arg(self as int)
    }

    fn into_diag_arg(self, path: &mut LongTyPath) -> (value: DiagArgValue) {
        unsigned_number(self as u128)
    }
}

impl IntoDiagArg for u32 {
    open spec fn arg(self) -> ArgModel {
        number_arg(self as int)
    }

    fn into_diag_arg(self, path: &mut LongTyPath) -> (value: DiagArgValue) {
        unsigned_number(self as u128)
    }
}

impl IntoDiagArg for u64 {
    open spec fn arg(self) -> ArgModel {
        number_arg(self as int)
    }

    fn into_diag_arg(self, path: &mut LongTyPath) -> (value: DiagArgValue) {
        unsigned_number(self as u128)
    }
}

impl IntoDiagArg for u128 {
    open spec fn arg(self) -> ArgModel {
        number_arg(self as int)
    }

    fn into_diag_arg(self, path: &mut LongTyPath) -> (value: DiagArgValue) {
        unsigned_number(self as u128)
    }
}

impl IntoDiagArg for usize {
    open spec fn arg(self) -> ArgModel {
        number_arg(self as int)
    }

    fn into_diag_arg(self, path: &mut LongTyPath) -> (value: DiagArgValue) {
        unsigned_number(self as u128)
    }
}

impl IntoDiagArg for bool {
    open spec fn arg(self) -> ArgModel {
        ArgModel::Str(
            if self {
                "true"@
            } else {
                "false"@
            },
        )
    }

    fn into_diag_arg(self, path: &mut LongTyPath) -> (value: DiagArgValue) {
        if self {
            DiagArgValue::Str("true".to_owned())
        } else {
            DiagArgValue::Str("false".to_owned())
        }
    }
}

/// What `{:?}` writes for a character.
pub uninterp spec fn char_debug(c: char) -> Seq<char>;

/// `char`'s `Debug` writes the character between single quotes, with the characters that cannot
/// stand there escaped. The text is a function of the character alone; which ones are escaped is
/// left unsaid.
#[verifier::external_body]
fn char_debug_text(c: char) -> (s: String)
    ensures
        s@ == char_debug(c),
{
    format!("{c:?}")
}

impl IntoDiagArg for char {
    open spec fn arg(self) -> ArgModel {
        ArgModel::Str(char_debug(self))
    }

    fn into_diag_arg(self, path: &mut LongTyPath) -> (value: DiagArgValue) {
        DiagArgValue::Str(char_debug_text(self))
    }
}

impl IntoDiagArg for Vec<char> {
    open spec fn arg(self) -> ArgModel {
        ArgModel::StrListSepByAnd(self@.map_values(|c: char| char_debug(c)))
    }

    fn into_diag_arg(self, path: &mut LongTyPath) -> (value: DiagArgValue) {
        let ghost want = self@.map_values(|c: char| char_debug(c));
        let mut list: Vec<String> = Vec::new();
        let mut i: usize = 0;
        assert(texts(list@) =~= want.take(0));
        while i < self.len()
            invariant
                i <= self@.len(),
                want == self@.map_values(|c: char| char_debug(c)),
                texts(list@) == want.take(i as int),
            decreases self@.len() - i,
        {
            let ghost before = texts(list@);
            list.push(char_debug_text(self[i]));
            assert(texts(list@) =~= before.push(want[i as int]));
            i += 1;
            assert(texts(list@) =~= want.take(i as int));
        }
        assert(texts(list@) =~= want);
        DiagArgValue::StrListSepByAnd(list)
    }
}

impl<'a> IntoDiagArg for &'a str {
    open spec fn arg(self) -> ArgModel {
        ArgModel::Str(self@)
    }

    fn into_diag_arg(self, path: &mut LongTyPath) -> (value: DiagArgValue) {
        DiagArgValue::Str(self.to_owned())
    }
}

impl IntoDiagArg for String {
    open spec fn arg(self) -> ArgModel {
        ArgModel::Str(self@)
    }

    fn into_diag_arg(self, path: &mut LongTyPath) -> (value: DiagArgValue) {
        DiagArgValue::Str(self)
    }
}

/// A value by the text that it displays as.
pub struct DiagArgFromDisplay<'a>(pub &'a str);

impl<'a> IntoDiagArg for DiagArgFromDisplay<'a> {
    open spec fn arg(self) -> ArgModel {
        ArgModel::Str(self.0@)
    }

    fn into_diag_arg(self, path: &mut LongTyPath) -> (value: DiagArgValue) {
        DiagArgValue::Str(self.0.to_owned())
    }
}

/// What a template is filled with for an argument: a number, or text. A list arrives joined.
pub enum TemplateValue {
    Text(String),
    Number(i32),
}

/// The value that a template is filled with.
pub fn template_value(value: &DiagArgValue) -> (v: TemplateValue)
    ensures
        match value@ {
            ArgModel::Str(s) => v matches TemplateValue::Text(t) && t@ == s,
            ArgModel::Number(n) => v == TemplateValue::Number(n),
            ArgModel::StrListSepByAnd(list) => v matches TemplateValue::Text(t) && t@ == and_list(
                list,
            ),
        },
{
    match value {
        DiagArgValue::Str(s) => TemplateValue::Text(s.clone()),
        DiagArgValue::Number(n) => TemplateValue::Number(*n),
        DiagArgValue::StrListSepByAnd(list) => TemplateValue::Text(join_with_and(list)),
    }
}

/// Nothing is an empty list; one part stands alone; two are joined by a word; from three on there
/// are commas between them, and the word behind the last.
pub proof fn law_a_list_ends_in_and(
    parts: Seq<Seq<char>>,
    a: Seq<char>,
    b: Seq<char>,
    c: Seq<char>,
)
    ensures
        and_list(Seq::empty()) == Seq::<char>::empty(),
        and_list(seq![a]) == a,
        and_list(seq![a, b]) == a + " and "@ + b,
        and_list(seq![a, b, c]) == a + ", "@ + b + ", and "@ + c,
        parts.len() >= 2 ==> and_list(parts.push(c)) == joined(parts, ", "@) + ", and "@ + c,
        parts.len() >= 1 ==> joined(parts.push(c), ", "@) == joined(parts, ", "@) + ", "@ + c,
{
    let three = seq![a, b, c];
    assert(three.drop_last() =~= seq![a, b]);
    assert(seq![a, b].drop_last() =~= seq![a]);
    reveal_with_fuel(joined, 3);
    assert(parts.push(c).drop_last() =~= parts);
}

/// A number is passed as one if it fits into 32 bits, and else as its digits.
pub proof fn law_a_number_stays_a_number(n: int)
    ensures
        -0x8000_0000 <= n <= 0x7fff_ffff ==> number_arg(n) is Number && number_arg(n)->Number_0 == n,
        n > 0x7fff_ffff || n < -0x8000_0000 ==> number_arg(n) == ArgModel::Str(signed_decimal(n)),
{
}

/// Every kind of number is passed by its value, and a truth value by its name.
pub proof fn law_a_value_is_passed_as_it_is(
    a: u8,
    b: u16,
    c: u32,
    d: u64,
    e: u128,
    f: usize,
    yes: bool,
    s: String,
)
    ensures
        a.arg() == number_arg(a as int),
        b.arg() == number_arg(b as int),
        c.arg() == number_arg(c as int),
        d.arg() == number_arg(d as int),
        e.arg() == number_arg(e as int),
        f.arg() == number_arg(f as int),
        yes ==> yes.arg() == ArgModel::Str(seq!['t', 'r', 'u', 'e']),
        !yes ==> yes.arg() == ArgModel::Str(seq!['f', 'a', 'l', 's', 'e']),
        s.arg() == ArgModel::Str(s@),
{
    reveal_strlit("true");
    reveal_strlit("false");
    assert("true"@ =~= seq!['t', 'r', 'u', 'e']);
    assert("false"@ =~= seq!['f', 'a', 'l', 's', 'e']);
}

/// Signed numbers are passed by their value too.
pub proof fn law_a_signed_value_is_passed_as_it_is(
    a: i8,
    b: i16,
    c: i32,
    d: i64,
    e: i128,
    f: isize,
)
    ensures
        a.arg() == number_arg(a as int),
        b.arg() == number_arg(b as int),
        c.arg() == number_arg(c as int),
        d.arg() == number_arg(d as int),
        e.arg() == number_arg(e as int),
        f.arg() == number_arg(f as int),
{
}

} // verus!
