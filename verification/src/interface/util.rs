//! Small decisions around a session.

use vstd::prelude::*;
use vstd::string::StringExecFns;

use crate::error_messages::span::Span;
use crate::sort::sort;
use crate::sort::sorted;
use crate::text::decimal;
use crate::text::decimal_text;
use crate::text::same_text;
use crate::text::split_whitespace;
use crate::text::text_of;
use crate::text::texts;
use crate::text::to_chars;
use crate::text::trim;
use crate::text::trimmed;
use crate::text::whitespace;
use crate::text::words;

verus! {

/// The stack size of a compiler thread, unless the environment says otherwise.
pub const DEFAULT_STACK_SIZE: usize = 0x100_0000;

/// The version that is claimed when none is set.
pub const DEFAULT_CFG_VERSION: &'static str = "1.100.0-dev";

/// How many threads a session runs on: as many as were asked for, if that is two or more and the
/// compiler was built for it, and else one.
pub open spec fn width_of(frontend: Option<usize>, parallel: bool) -> usize {
    match frontend {
        Some(threads) => if parallel && threads > 1 {
            threads
        } else {
            1
        },
        None => 1,
    }
}

pub fn session_width(frontend: Option<usize>, parallel: bool) -> (width: usize)
    ensures
        width == width_of(frontend, parallel),
{
    match frontend {
        Some(threads) => if parallel && threads > 1 {
            threads
        } else {
            1
        },
        None => 1,
    }
}

/// The digits have a value.
pub open spec fn all_digits(s: Seq<char>) -> bool {
    forall|i: int| 0 <= i < s.len() ==> '0' <= #[trigger] s[i] <= '9'
}

/// The value of digits.
pub open spec fn digits_value(s: Seq<char>) -> nat
    decreases s.len(),
{
    if s.len() == 0 {
        0
    } else {
        (digits_value(s.drop_last()) * 10 + (s.last() as int - '0' as int)) as nat
    }
}

/// The number without the sign that it may start with.
pub open spec fn unsigned_part(s: Seq<char>) -> Seq<char> {
    if s.len() > 0 && s[0] == '+' {
        s.skip(1)
    } else {
        s
    }
}

/// The number that a text is, if it is one that fits.
pub open spec fn parsed_number(s: Seq<char>) -> Option<nat> {
    let digits = unsigned_part(s);
    if digits.len() > 0 && all_digits(digits) && digits_value(digits) <= usize::MAX {
        Some(digits_value(digits))
    } else {
        None
    }
}

proof fn lemma_value_grows(s: Seq<char>, n: int)
    requires
        all_digits(s),
        0 <= n <= s.len(),
    ensures
        digits_value(s.take(n)) <= digits_value(s),
    decreases s.len() - n,
{
    if n < s.len() {
        lemma_value_grows(s, n + 1);
        assert(s.take(n + 1).drop_last() =~= s.take(n));
        assert('0' <= s[n] <= '9');
        assert(s.take(n + 1).last() == s[n]);
    } else {
        assert(s.take(n) =~= s);
    }
}

/// The number that a text is: digits, with a plus sign before them or not.
pub fn parse_number(s: &str) -> (n: Option<usize>)
    ensures
        match n {
            Some(v) => parsed_number(s@) == Some(v as nat),
            None => parsed_number(s@) is None,
        },
{
    let chars = to_chars(s);
    let start: usize = if chars.len() > 0 && chars[0] == '+' {
        1
    } else {
        0
    };
    let ghost digits = unsigned_part(s@);
    assert(digits =~= chars@.skip(start as int));
    if start == chars.len() {
        return None;
    }
    let mut value: usize = 0;
    let mut i: usize = start;
    assert(digits.take(0) =~= Seq::<char>::empty());
    while i < chars.len()
        invariant
            chars@ == s@,
            start <= i <= chars@.len(),
            digits == chars@.skip(start as int),
            digits == unsigned_part(s@),
            digits.len() > 0,
            all_digits(digits.take(i - start)),
            value == digits_value(digits.take(i - start)),
        decreases chars@.len() - i,
    {
        let c = chars[i];
        let ghost k = i - start;
        assert(c == digits[k]);
        if !('0' <= c && c <= '9') {
            return None;
        }
        let d: usize = (c as u32 - '0' as u32) as usize;
        proof {
            assert(digits.take(k + 1).drop_last() =~= digits.take(k));
            assert(digits.take(k + 1).last() == c);
            assert forall|x: int| 0 <= x < k + 1 implies '0' <= #[trigger] digits.take(k + 1)[x]
                <= '9' by {
                if x < k {
                    assert(digits.take(k)[x] == digits.take(k + 1)[x]);
                }
            }
        }
        match value.checked_mul(10) {
            Some(shifted) => match shifted.checked_add(d) {
                Some(sum) => {
                    value = sum;
                },
                None => {
                    proof {
                        if all_digits(digits) {
                            lemma_value_grows(digits, k + 1);
                        }
                    }
                    return None;
                },
            },
            None => {
                proof {
                    if all_digits(digits) {
                        lemma_value_grows(digits, k + 1);
                    }
                }
                return None;
            },
        }
        i += 1;
    }
    assert(digits.take(i - start) =~= digits);
    Some(value)
}

/// What is said of a setting of the stack size that is not a number.
pub struct StackFault {
    pub message: String,
    /// The note below the message.
    pub note: &'static str,
}

/// The stack size of a compiler thread. A setting that is blank is none; one that is not a number
/// is refused, with the text that it is.
pub fn init_stack_size(setting: Option<&str>) -> (size: Result<usize, StackFault>)
    ensures
        match setting {
            None => size == Ok::<usize, StackFault>(DEFAULT_STACK_SIZE),
            Some(s) => if trimmed(s@).len() == 0 {
                size == Ok::<usize, StackFault>(DEFAULT_STACK_SIZE)
            } else {
                match parsed_number(trimmed(s@)) {
                    Some(n) => size is Ok && size->Ok_0 == n,
                    None => {
                        &&& size is Err
                        &&& size->Err_0.message@
                            == "`RUST_MIN_STACK` should be a number of bytes, but was \""@
                            + trimmed(s@) + "\""@
                        &&& size->Err_0.note@
                            == "you can also unset `RUST_MIN_STACK` to use the default stack size"@
                    },
                }
            },
        },
{
    let s = match setting {
        None => {
            return Ok(DEFAULT_STACK_SIZE);
        },
        Some(s) => trim(s),
    };
    if s.as_str().unicode_len() == 0 {
        return Ok(DEFAULT_STACK_SIZE);
    }
    match parse_number(s.as_str()) {
        Some(n) => Ok(n),
        None => {
            let mut message = String::new();
            message.append("`RUST_MIN_STACK` should be a number of bytes, but was \"");
            message.append(s.as_str());
            message.append("\"");
            assert(message@ =~= "`RUST_MIN_STACK` should be a number of bytes, but was \""@
                + s@ + "\""@);
            let note = "you can also unset `RUST_MIN_STACK` to use the default stack size";
            Err(StackFault { message, note })
        },
    }
}

/// `rustc ` and what comes after it, without blanks at either end.
pub open spec fn version_in(line: Seq<char>) -> Seq<char> {
    let t = trimmed(line);
    if t.len() >= 6 && t.take(6) == "rustc "@ {
        trimmed(t.skip(6))
    } else {
        trimmed(t)
    }
}

/// The version that a compiler prints of itself, without the name before it. `None` if it printed
/// none.
pub fn version_of_output(line: &str) -> (version: Option<String>)
    ensures
        version is None == (version_in(line@).len() == 0),
        version matches Some(v) ==> v@ == version_in(line@),
{
    let t = trim(line);
    let chars = to_chars(t.as_str());
    let name = to_chars("rustc ");
    proof {
        reveal_strlit("rustc ");
    }
    let mut same = chars.len() >= name.len();
    let mut i: usize = 0;
    while same && i < name.len()
        invariant
            i <= name@.len(),
            name@ == "rustc "@,
            name@.len() == 6,
            same ==> chars@.len() >= 6,
            chars@ == t@,
            same ==> forall|k: int| 0 <= k < i ==> chars@[k] == name@[k],
            !same ==> chars@.len() < 6 || chars@.take(6) != name@,
        decreases name@.len() - i + (if same {
            1int
        } else {
            0int
        }),
    {
        if chars[i] != name[i] {
            proof {
                assert(chars@.take(6)[i as int] != name@[i as int]);
            }
            same = false;
        } else {
            i += 1;
        }
    }
    let version = if same {
        assert(chars@.take(6) =~= name@);
        let rest = text_of(&chars, 6, chars.len());
        assert(rest@ =~= t@.skip(6));
        trim(rest.as_str())
    } else {
        trim(t.as_str())
    };
    if version.as_str().unicode_len() == 0 {
        None
    } else {
        Some(version)
    }
}

/// A number that tells one invocation's files from another's: two invocations differ in the process
/// or in the time, and two files of one invocation in the counter.
pub fn invocation_suffix(pid: u32, now: u32, counter: u32) -> (suffix: u32)
    ensures
        suffix == pid ^ ((now << 11u32) | (now >> 21u32)) ^ ((counter << 22u32) | (counter
            >> 10u32)),
{
    pid ^ ((now << 11u32) | (now >> 21u32)) ^ ((counter << 22u32) | (counter >> 10u32))
}

/// Within one process and one instant, different counters give different suffixes.
pub proof fn law_counters_tell_suffixes_apart(pid: u32, now: u32, c1: u32, c2: u32)
    requires
        c1 != c2,
    ensures
        pid ^ ((now << 11u32) | (now >> 21u32)) ^ ((c1 << 22u32) | (c1 >> 10u32)) != pid ^ ((now
            << 11u32) | (now >> 21u32)) ^ ((c2 << 22u32) | (c2 >> 10u32)),
{
    assert(c1 != c2 ==> pid ^ ((now << 11u32) | (now >> 21u32)) ^ ((c1 << 22u32) | (c1 >> 10u32))
        != pid ^ ((now << 11u32) | (now >> 21u32)) ^ ((c2 << 22u32) | (c2 >> 10u32)))
        by (bit_vector);
}

/// A target feature that the calling convention speaks of.
#[derive(Clone, Copy, PartialEq, Eq, Structural, Debug)]
pub struct AbiFeature {
    /// Whether the target has a feature of that name.
    pub known: bool,
    pub enabled: bool,
}

/// The calling convention wants a feature to be otherwise.
#[derive(Clone, Copy, PartialEq, Eq, Structural, Debug)]
pub enum AbiWarning {
    /// The required feature of this number must be enabled.
    MustBeEnabled(usize),
    /// The incompatible feature of this number must be disabled.
    MustBeDisabled(usize),
}

/// The warnings about the first `n` required features.
pub open spec fn required_warnings(required: Seq<AbiFeature>, n: int) -> Seq<AbiWarning>
    decreases n,
{
    if n <= 0 {
        Seq::empty()
    } else {
        let before = required_warnings(required, n - 1);
        if !required[n - 1].enabled {
            before.push(AbiWarning::MustBeEnabled((n - 1) as usize))
        } else {
            before
        }
    }
}

/// The warnings about the first `n` incompatible features.
pub open spec fn incompatible_warnings(incompatible: Seq<AbiFeature>, n: int) -> Seq<AbiWarning>
    decreases n,
{
    if n <= 0 {
        Seq::empty()
    } else {
        let before = incompatible_warnings(incompatible, n - 1);
        if incompatible[n - 1].enabled {
            before.push(AbiWarning::MustBeDisabled((n - 1) as usize))
        } else {
            before
        }
    }
}

/// The warnings about features that the calling convention wants to be otherwise.
pub fn check_abi_required_features(
    required: &Vec<AbiFeature>,
    incompatible: &Vec<AbiFeature>,
) -> (warnings: Vec<AbiWarning>)
    requires
        forall|i: int| 0 <= i < required@.len() ==> (#[trigger] required@[i]).known,
        forall|i: int| 0 <= i < incompatible@.len() ==> (#[trigger] incompatible@[i]).known,
    ensures
        warnings@ == required_warnings(required@, required@.len() as int)
            + incompatible_warnings(incompatible@, incompatible@.len() as int),
{
    let mut warnings: Vec<AbiWarning> = Vec::new();
    let mut i: usize = 0;
    while i < required.len()
        invariant
            i <= required@.len(),
            warnings@ == required_warnings(required@, i as int),
        decreases required@.len() - i,
    {
        if !required[i].enabled {
            warnings.push(AbiWarning::MustBeEnabled(i));
        }
        i += 1;
    }
    let ghost first = warnings@;
    let mut i: usize = 0;
    assert(warnings@ =~= first + incompatible_warnings(incompatible@, 0));
    while i < incompatible.len()
        invariant
            i <= incompatible@.len(),
            warnings@ == first + incompatible_warnings(incompatible@, i as int),
        decreases incompatible@.len() - i,
    {
        if incompatible[i].enabled {
            let ghost before = incompatible_warnings(incompatible@, i as int);
            warnings.push(AbiWarning::MustBeDisabled(i));
            assert(warnings@ =~= first + before.push(AbiWarning::MustBeDisabled(i)));
        }
        i += 1;
    }
    warnings
}

/// How an identifier that is a crab is to be written.
#[derive(Clone, Copy, PartialEq, Eq, Structural, Debug)]
pub enum FerrisFix {
    SnakeCase,
    ScreamingSnakeCase,
    PascalCase,
}

impl FerrisFix {
    pub open spec fn name(self) -> Seq<char> {
        match self {
            FerrisFix::SnakeCase => "ferris"@,
            FerrisFix::ScreamingSnakeCase => "FERRIS"@,
            FerrisFix::PascalCase => "Ferris"@,
        }
    }

    pub fn as_str(self) -> (s: &'static str)
        ensures
            s@ == self.name(),
    {
        match self {
            FerrisFix::SnakeCase => "ferris",
            FerrisFix::ScreamingSnakeCase => "FERRIS",
            FerrisFix::PascalCase => "Ferris",
        }
    }
}

/// The word starts an item whose name is in Pascal case.
pub open spec fn names_a_type(word: Seq<char>) -> bool {
    word == "struct"@ || word == "trait"@ || word == "mod"@ || word == "union"@ || word == "type"@
        || word == "enum"@
}

/// How the identifier is to be written, by the words before it.
pub open spec fn fix_after(before: Seq<Seq<char>>) -> FerrisFix {
    if before.len() == 0 {
        FerrisFix::SnakeCase
    } else if names_a_type(before.last()) {
        FerrisFix::PascalCase
    } else if before.last() == "const"@ || before.last() == "static"@ {
        FerrisFix::ScreamingSnakeCase
    } else if before.last() == "mut"@ && before.len() >= 2 && before[before.len() - 2]
        == "static"@ {
        FerrisFix::ScreamingSnakeCase
    } else {
        FerrisFix::SnakeCase
    }
}

/// How an identifier that is a crab is to be written, by the source before it.
pub fn ferris_fix(prev_source: Option<&str>) -> (fix: FerrisFix)
    ensures
        fix == (match prev_source {
            Some(source) => fix_after(words(source@)),
            None => FerrisFix::SnakeCase,
        }),
{
    let parts = match prev_source {
        None => {
            return FerrisFix::SnakeCase;
        },
        Some(source) => split_whitespace(source),
    };
    let n = parts.len();
    let ghost before = texts(parts@);
    if n == 0 {
        return FerrisFix::SnakeCase;
    }
    assert(before.last() == parts@[n - 1]@);
    let last = parts[n - 1].as_str();
    if same_text(last, "struct") || same_text(last, "trait") || same_text(last, "mod")
        || same_text(last, "union") || same_text(last, "type") || same_text(last, "enum") {
        return FerrisFix::PascalCase;
    }
    if same_text(last, "const") || same_text(last, "static") {
        return FerrisFix::ScreamingSnakeCase;
    }
    if same_text(last, "mut") && n >= 2 {
        assert(before[n - 2] == parts@[n - 2]@);
        if same_text(parts[n - 2].as_str(), "static") {
            return FerrisFix::ScreamingSnakeCase;
        }
    }
    FerrisFix::SnakeCase
}

/// What is said about an identifier that is not one.
pub struct BadIdentifier {
    /// Where it occurs, in order.
    pub spans: Vec<Span>,
    /// How to write it, if it is a crab.
    pub fix: Option<FerrisFix>,
}

/// The report about an identifier with invalid characters. `prev_source` is the source before its
/// first occurrence.
pub fn bad_identifier(is_ferris: bool, spans: Vec<Span>, prev_source: Option<&str>) -> (report:
    BadIdentifier)
    ensures
        sorted(report.spans@),
        report.spans@.to_multiset() == spans@.to_multiset(),
        report.fix == (if is_ferris {
            match prev_source {
                Some(source) => Some(fix_after(words(source@))),
                None => Some(FerrisFix::SnakeCase),
            }
        } else {
            None
        }),
{
    let fix = if is_ferris {
        Some(ferris_fix(prev_source))
    } else {
        None
    };
    BadIdentifier { spans: sort(spans), fix }
}

/// The paths in a search path that are not there yet, added at the end.
pub open spec fn extended(paths: Seq<Seq<u8>>, more: Seq<Seq<u8>>) -> Seq<Seq<u8>>
    decreases more.len(),
{
    if more.len() == 0 {
        paths
    } else {
        let before = extended(paths, more.drop_last());
        if before.contains(more.last()) {
            before
        } else {
            before.push(more.last())
        }
    }
}

/// The byte between two paths.
pub const PATH_SEPARATOR: u8 = 58;

/// The paths with separators between, without those that hold one.
pub open spec fn search_path(paths: Seq<Seq<u8>>) -> Seq<u8>
    decreases paths.len(),
{
    if paths.len() == 0 {
        Seq::empty()
    } else {
        let before = search_path(paths.drop_last());
        let p = paths.last();
        if p.contains(PATH_SEPARATOR) {
            before
        } else if any_usable(paths.drop_last()) {
            before.push(PATH_SEPARATOR) + p
        } else {
            before + p
        }
    }
}

/// Some path can be part of a search path.
pub open spec fn any_usable(paths: Seq<Seq<u8>>) -> bool {
    exists|i: int| 0 <= i < paths.len() && !(#[trigger] paths[i]).contains(PATH_SEPARATOR)
}

/// The bytes of each path.
pub open spec fn path_bytes(paths: Seq<Vec<u8>>) -> Seq<Seq<u8>> {
    Seq::new(paths.len(), |i: int| paths[i]@)
}

fn same_bytes(a: &Vec<u8>, b: &Vec<u8>) -> (same: bool)
    ensures
        same == (a@ == b@),
{
    if a.len() != b.len() {
        return false;
    }
    let mut i: usize = 0;
    while i < a.len()
        invariant
            i <= a@.len(),
            a@.len() == b@.len(),
            forall|k: int| 0 <= k < i ==> a@[k] == b@[k],
        decreases a@.len() - i,
    {
        if a[i] != b[i] {
            return false;
        }
        i += 1;
    }
    assert(a@ =~= b@);
    true
}

fn has_path(paths: &Vec<Vec<u8>>, path: &Vec<u8>) -> (yes: bool)
    ensures
        yes == path_bytes(paths@).contains(path@),
{
    let mut i: usize = 0;
    while i < paths.len()
        invariant
            i <= paths@.len(),
            forall|k: int| 0 <= k < i ==> (#[trigger] paths@[k])@ != path@,
        decreases paths@.len() - i,
    {
        if same_bytes(&paths[i], path) {
            assert(path_bytes(paths@)[i as int] == path@);
            return true;
        }
        i += 1;
    }
    proof {
        let all = path_bytes(paths@);
        if all.contains(path@) {
            let k = choose|k: int| 0 <= k < all.len() && all[k] == path@;
            assert(paths@[k]@ == path@);
        }
    }
    false
}

fn has_separator(path: &Vec<u8>) -> (yes: bool)
    ensures
        yes == path@.contains(PATH_SEPARATOR),
{
    let mut i: usize = 0;
    while i < path.len()
        invariant
            i <= path@.len(),
            forall|k: int| 0 <= k < i ==> path@[k] != PATH_SEPARATOR,
        decreases path@.len() - i,
    {
        if path[i] == PATH_SEPARATOR {
            assert(path@[i as int] == PATH_SEPARATOR);
            return true;
        }
        i += 1;
    }
    false
}

/// The search path for libraries: `paths`, and then those of the old search path that are not among
/// them. A path with a separator in it cannot be part of one.
pub fn extended_search_path(paths: Vec<Vec<u8>>, old_paths: Vec<Vec<u8>>) -> (joined: Vec<u8>)
    ensures
        joined@ == search_path(extended(path_bytes(paths@), path_bytes(old_paths@))),
{
    let ghost first = path_bytes(paths@);
    let ghost more = path_bytes(old_paths@);
    let ghost all_old = old_paths@;
    let mut all = paths;
    let mut rest = old_paths;
    let ghost mut done: int = 0;
    assert(more.take(0) =~= Seq::<Seq<u8>>::empty());
    while rest.len() > 0
        invariant
            0 <= done <= more.len(),
            more == path_bytes(all_old),
            rest@ == all_old.skip(done),
            path_bytes(all@) == extended(first, more.take(done)),
        decreases rest@.len(),
    {
        let path = rest.remove(0);
        proof {
            assert(all_old.skip(done)[0] == all_old[done]);
            assert(rest@ =~= all_old.skip(done + 1));
            assert(more.take(done + 1).drop_last() =~= more.take(done));
            assert(more.take(done + 1).last() == path@);
        }
        if !has_path(&all, &path) {
            let ghost before = path_bytes(all@);
            all.push(path);
            assert(path_bytes(all@) =~= before.push(path@));
        }
        proof {
            done = done + 1;
        }
    }
    assert(more.take(done) =~= more);
    let ghost paths = path_bytes(all@);
    let mut joined: Vec<u8> = Vec::new();
    let mut any = false;
    let mut i: usize = 0;
    assert(paths.take(0) =~= Seq::<Seq<u8>>::empty());
    while i < all.len()
        invariant
            i <= all@.len(),
            paths == path_bytes(all@),
            joined@ == search_path(paths.take(i as int)),
            any == any_usable(paths.take(i as int)),
        decreases all@.len() - i,
    {
        proof {
            let a = paths.take(i as int);
            let b = paths.take(i + 1);
            assert(b.drop_last() =~= a);
            assert(b.last() == paths[i as int]);
            if any_usable(a) {
                let k = choose|k: int|
                    0 <= k < a.len() && !(#[trigger] a[k]).contains(PATH_SEPARATOR);
                assert(b[k] == a[k]);
            }
            if any_usable(b) && b.last().contains(PATH_SEPARATOR) {
                let k = choose|k: int|
                    0 <= k < b.len() && !(#[trigger] b[k]).contains(PATH_SEPARATOR);
                assert(a[k] == b[k]);
            }
            assert(b[i as int] == paths[i as int]);
        }
        if !has_separator(&all[i]) {
            if any {
                joined.push(PATH_SEPARATOR);
            }
            let ghost start = joined@;
            let mut k: usize = 0;
            assert(joined@ =~= start + paths[i as int].take(0));
            while k < all[i].len()
                invariant
                    i < all@.len(),
                    paths == path_bytes(all@),
                    k <= paths[i as int].len(),
                    joined@ == start + paths[i as int].take(k as int),
                decreases paths[i as int].len() - k,
            {
                joined.push(all[i][k]);
                k += 1;
                assert(joined@ =~= start + paths[i as int].take(k as int));
            }
            assert(paths[i as int].take(k as int) =~= paths[i as int]);
            any = true;
        }
        i += 1;
    }
    assert(paths.take(i as int) =~= paths);
    joined
}

/// The last line of a listing of queries: how many more there are, if the listing was cut short.
pub fn query_stack_footer(all_frames: usize, limit_frames: Option<usize>) -> (line: String)
    ensures
        line@ == (match limit_frames {
            Some(limit) => if all_frames > limit {
                "... and "@ + decimal((all_frames - limit) as nat)
                    + " other queries... use `env RUST_BACKTRACE=1` to see the full query stack"@
            } else {
                "end of query stack"@
            },
            None => "end of query stack"@,
        }),
{
    let mut line = String::new();
    match limit_frames {
        Some(limit) => {
            if all_frames > limit {
                line.append("... and ");
                line.append(decimal_text((all_frames - limit) as u128).as_str());
                line.append(
                    " other queries... use `env RUST_BACKTRACE=1` to see the full query stack",
                );
                assert(line@ =~= "... and "@ + decimal((all_frames - limit) as nat)
                    + " other queries... use `env RUST_BACKTRACE=1` to see the full query stack"@);
                return line;
            }
        },
        None => {},
    }
    line.append("end of query stack");
    assert(line@ =~= "end of query stack"@);
    line
}

/// A session is never without a thread, and has more than one exactly if the compiler was built for
/// that and more than one was asked for; it has what was asked for.
pub proof fn law_a_session_has_the_threads_it_asked_for(
    frontend: Option<usize>,
    parallel: bool,
    width: usize,
)
    requires
        call_ensures(session_width, (frontend, parallel), width),
    ensures
        width >= 1,
        width > 1 <==> parallel && frontend is Some && frontend->0 > 1,
        width > 1 ==> frontend == Some(width),
{
}

/// One digit more makes ten times the number and the digit.
pub proof fn law_a_digit_more_makes_ten_times_as_much(s: Seq<char>, c: char)
    requires
        '0' <= c <= '9',
    ensures
        digits_value(Seq::empty()) == 0,
        digits_value(s.push(c)) == 10 * digits_value(s) + (c as int - '0' as int),
{
    assert(s.push(c).drop_last() =~= s);
}

/// A text is a number exactly if it is made of digits, at least one, with or without one plus sign
/// before them, and the number fits.
pub proof fn law_only_digits_make_a_number(
    s: &str,
    n: Option<usize>,
    digits: Seq<char>,
)
    requires
        call_ensures(parse_number, (s,), n),
        s@ == digits || s@ == seq!['+'] + digits,
        digits.len() > 0 ==> digits[0] != '+',
    ensures
        n is Some ==> digits.len() > 0 && n->0 == digits_value(digits),
        n is Some ==> forall|i: int| 0 <= i < digits.len() ==> '0' <= #[trigger] digits[i] <= '9',
        digits.len() > 0 && digits_value(digits) <= usize::MAX && (forall|i: int|
            0 <= i < digits.len() ==> '0' <= #[trigger] digits[i] <= '9') ==> n is Some,
{
    if s@ == seq!['+'] + digits {
        assert(s@.skip(1) =~= digits);
    }
    assert(unsigned_part(s@) == digits);
    if forall|i: int| 0 <= i < digits.len() ==> '0' <= #[trigger] digits[i] <= '9' {
        assert(all_digits(digits));
    }
}

/// The stack has sixteen megabytes unless the environment says otherwise, and what it says counts
/// exactly if it is a number; blanks around it, or nothing but blanks, do no harm.
pub proof fn law_the_environment_sets_the_stack_size(
    setting: Option<&str>,
    size: Result<usize, StackFault>,
)
    requires
        call_ensures(init_stack_size, (setting,), size),
    ensures
        setting is None || trimmed(setting->0@).len() == 0 ==> size is Ok && size->Ok_0 == 16
            * 1024 * 1024,
        setting is Some && trimmed(setting->0@).len() > 0 ==> {
            &&& size is Ok <==> parsed_number(trimmed(setting->0@)) is Some
            &&& size is Ok ==> parsed_number(trimmed(setting->0@)) == Some(size->Ok_0 as nat)
        },
{
}

proof fn lemma_nothing_to_trim(s: Seq<char>)
    requires
        s.len() > 0,
        !whitespace(s[0]),
        !whitespace(s.last()),
    ensures
        trimmed(s) == s,
{
}

/// What a compiler prints of itself is its name and its version: the version is what comes back,
/// and without the name what is printed.
pub proof fn law_the_version_follows_the_name(version: Seq<char>, line: &str, out: Option<String>)
    requires
        version.len() > 0,
        !whitespace(version[0]),
        !whitespace(version.last()),
        line@ == "rustc "@ + version || (line@ == version && !(version.len() >= 6
            && version.take(6) == "rustc "@)),
        call_ensures(version_of_output, (line,), out),
    ensures
        out is Some,
        out->0@ == version,
{
    reveal_strlit("rustc ");
    lemma_nothing_to_trim(version);
    lemma_nothing_to_trim(line@);
    if line@ == "rustc "@ + version {
        assert(line@.take(6) =~= "rustc "@);
        assert(line@.skip(6) =~= version);
    }
}

proof fn lemma_abi_warnings(required: Seq<AbiFeature>, incompatible: Seq<AbiFeature>, n: int)
    requires
        0 <= n,
        n <= usize::MAX,
    ensures
        n <= required.len() ==> forall|k: int|
            required_warnings(required, n).contains(#[trigger] enable(k)) && 0 <= k <= usize::MAX
                <==> 0 <= k < n && !required[k].enabled,
        n <= required.len() ==> forall|i: int|
            0 <= i < required_warnings(required, n).len() ==> (#[trigger] required_warnings(
                required,
                n,
            )[i]) is MustBeEnabled,
        n <= incompatible.len() ==> forall|k: int|
            incompatible_warnings(incompatible, n).contains(#[trigger] disable(k)) && 0 <= k
                <= usize::MAX <==> 0 <= k < n && incompatible[k].enabled,
        n <= incompatible.len() ==> forall|i: int|
            0 <= i < incompatible_warnings(incompatible, n).len() ==> (
            #[trigger] incompatible_warnings(incompatible, n)[i]) is MustBeDisabled,
    decreases n,
{
    if n > 0 {
        lemma_abi_warnings(required, incompatible, n - 1);
        if n <= required.len() {
            let before = required_warnings(required, n - 1);
            let now = required_warnings(required, n);
            assert forall|k: int|
                now.contains(#[trigger] enable(k)) && 0 <= k <= usize::MAX <==> 0 <= k < n
                    && !required[k].enabled by {
                if before.contains(enable(k)) {
                    let i = choose|i: int| 0 <= i < before.len() && before[i] == enable(k);
                    assert(now[i] == enable(k));
                }
                if k == n - 1 && !required[k].enabled {
                    assert(now[now.len() - 1] == enable(k));
                }
                if now.contains(enable(k)) {
                    let i = choose|i: int| 0 <= i < now.len() && now[i] == enable(k);
                    if i < before.len() {
                        assert(before[i] == enable(k));
                    }
                }
            }
        }
        if n <= incompatible.len() {
            let before = incompatible_warnings(incompatible, n - 1);
            let now = incompatible_warnings(incompatible, n);
            assert forall|k: int|
                now.contains(#[trigger] disable(k)) && 0 <= k <= usize::MAX <==> 0 <= k < n
                    && incompatible[k].enabled by {
                if before.contains(disable(k)) {
                    let i = choose|i: int| 0 <= i < before.len() && before[i] == disable(k);
                    assert(now[i] == disable(k));
                }
                if k == n - 1 && incompatible[k].enabled {
                    assert(now[now.len() - 1] == disable(k));
                }
                if now.contains(disable(k)) {
                    let i = choose|i: int| 0 <= i < now.len() && now[i] == disable(k);
                    if i < before.len() {
                        assert(before[i] == disable(k));
                    }
                }
            }
        }
    }
}

/// The warning that required feature `k` is off.
pub open spec fn enable(k: int) -> AbiWarning {
    AbiWarning::MustBeEnabled(k as usize)
}

/// The warning that incompatible feature `k` is on.
pub open spec fn disable(k: int) -> AbiWarning {
    AbiWarning::MustBeDisabled(k as usize)
}

/// There is a warning exactly for each required feature that is off and for each incompatible one
/// that is on.
pub proof fn law_the_convention_gets_its_features(
    required: &Vec<AbiFeature>,
    incompatible: &Vec<AbiFeature>,
    warnings: Vec<AbiWarning>,
    k: int,
)
    requires
        call_ensures(check_abi_required_features, (required, incompatible), warnings),
        required@.len() <= usize::MAX,
        incompatible@.len() <= usize::MAX,
        0 <= k <= usize::MAX,
    ensures
        warnings@.contains(AbiWarning::MustBeEnabled(k as usize)) <==> k < required@.len()
            && !required@[k].enabled,
        warnings@.contains(AbiWarning::MustBeDisabled(k as usize)) <==> k < incompatible@.len()
            && incompatible@[k].enabled,
{
    let n = required@.len() as int;
    let m = incompatible@.len() as int;
    lemma_abi_warnings(required@, incompatible@, n);
    lemma_abi_warnings(required@, incompatible@, m);
    let a = required_warnings(required@, n);
    let b = incompatible_warnings(incompatible@, m);
    let all = warnings@;
    assert(all == a + b);
    assert(a.contains(enable(k)) <==> k < n && !required@[k].enabled);
    assert(b.contains(disable(k)) <==> k < m && incompatible@[k].enabled);
    if a.contains(enable(k)) {
        let i = choose|i: int| 0 <= i < a.len() && a[i] == enable(k);
        assert(all[i] == enable(k));
    }
    if b.contains(disable(k)) {
        let i = choose|i: int| 0 <= i < b.len() && b[i] == disable(k);
        assert(all[a.len() + i] == disable(k));
    }
    if all.contains(enable(k)) {
        let i = choose|i: int| 0 <= i < all.len() && all[i] == enable(k);
        if i < a.len() {
            assert(a[i] == enable(k));
        } else {
            assert(b[i - a.len()] is MustBeDisabled);
        }
    }
    if all.contains(disable(k)) {
        let i = choose|i: int| 0 <= i < all.len() && all[i] == disable(k);
        if i < a.len() {
            assert(a[i] is MustBeEnabled);
        } else {
            assert(b[i - a.len()] == disable(k));
        }
    }
}

/// The word before an identifier decides how it is written: like a type behind a word that starts
/// one, in capitals behind `const` and `static`, also with `mut` between, and else in small letters.
pub proof fn law_the_word_before_decides(before: Seq<Seq<char>>, word: Seq<char>)
    ensures
        fix_after(Seq::empty()) == FerrisFix::SnakeCase,
        word == "struct"@ || word == "trait"@ || word == "mod"@ || word == "union"@ || word
            == "type"@ || word == "enum"@ ==> fix_after(before.push(word))
            == FerrisFix::PascalCase,
        word == "const"@ || word == "static"@ ==> fix_after(before.push(word))
            == FerrisFix::ScreamingSnakeCase,
        fix_after(before.push("static"@).push("mut"@)) == FerrisFix::ScreamingSnakeCase,
        word != "static"@ ==> fix_after(before.push(word).push("mut"@)) == FerrisFix::SnakeCase,
        word != "struct"@ && word != "trait"@ && word != "mod"@ && word != "union"@ && word
            != "type"@ && word != "enum"@ && word != "const"@ && word != "static"@ && word
            != "mut"@ ==> fix_after(before.push(word)) == FerrisFix::SnakeCase,
{
    reveal_strlit("struct");
    reveal_strlit("trait");
    reveal_strlit("mod");
    reveal_strlit("union");
    reveal_strlit("type");
    reveal_strlit("enum");
    reveal_strlit("const");
    reveal_strlit("static");
    reveal_strlit("mut");
    assert("mod"@[1] == 'o' && "mut"@[1] == 'u');
    assert("struct"@[2] == 'r' && "static"@[2] == 'a');
    assert("trait"@[0] == 't' && "union"@[0] == 'u' && "const"@[0] == 'c');
}

/// How each way of writing looks.
pub proof fn law_a_crab_is_spelled_out(fix: FerrisFix, s: &'static str)
    requires
        call_ensures(FerrisFix::as_str, (fix,), s),
    ensures
        fix == FerrisFix::SnakeCase ==> s@ == seq!['f', 'e', 'r', 'r', 'i', 's'],
        fix == FerrisFix::ScreamingSnakeCase ==> s@ == seq!['F', 'E', 'R', 'R', 'I', 'S'],
        fix == FerrisFix::PascalCase ==> s@ == seq!['F', 'e', 'r', 'r', 'i', 's'],
{
    reveal_strlit("ferris");
    reveal_strlit("FERRIS");
    reveal_strlit("Ferris");
}

/// A search path that is extended starts with what it was, and holds exactly what it was and what is
/// added, nothing of that twice.
pub proof fn law_a_search_path_is_extended(paths: Seq<Seq<u8>>, more: Seq<Seq<u8>>)
    ensures
        extended(paths, more).len() >= paths.len(),
        extended(paths, more).take(paths.len() as int) == paths,
        forall|p: Seq<u8>| #[trigger]
            extended(paths, more).contains(p) <==> paths.contains(p) || more.contains(p),
        paths.no_duplicates() ==> extended(paths, more).no_duplicates(),
    decreases more.len(),
{
    if more.len() > 0 {
        law_a_search_path_is_extended(paths, more.drop_last());
        let before = extended(paths, more.drop_last());
        let now = extended(paths, more);
        let last = more.last();
        assert(now.take(paths.len() as int) =~= before.take(paths.len() as int));
        assert forall|p: Seq<u8>| #[trigger]
            now.contains(p) <==> paths.contains(p) || more.contains(p) by {
            assert(before.contains(p) <==> paths.contains(p) || more.drop_last().contains(p));
            if more.contains(p) && p != last {
                let i = choose|i: int| 0 <= i < more.len() && more[i] == p;
                assert(more.drop_last()[i] == p);
            }
            if more.drop_last().contains(p) {
                let i = choose|i: int| 0 <= i < more.drop_last().len() && more.drop_last()[i] == p;
                assert(more[i] == p);
            }
            if before.contains(p) {
                let i = choose|i: int| 0 <= i < before.len() && before[i] == p;
                assert(now[i] == p);
            }
            if p == last {
                assert(more[more.len() - 1] == p);
                if !before.contains(p) {
                    assert(now[now.len() - 1] == p);
                }
            }
            if now.contains(p) && p != last {
                let i = choose|i: int| 0 <= i < now.len() && now[i] == p;
                assert(before[i] == p);
            }
        }
        if !before.contains(last) {
            assert forall|i: int, j: int|
                0 <= i < now.len() && 0 <= j < now.len() && i != j && paths.no_duplicates()
                implies now[i] != now[j] by {
                if i == now.len() - 1 {
                    assert(before[j] == now[j]);
                } else if j == now.len() - 1 {
                    assert(before[i] == now[i]);
                }
            }
        }
    } else {
        assert(extended(paths, more).take(paths.len() as int) =~= paths);
    }
}

/// A path more is joined behind a colon, unless nothing is there yet; one with a colon in it is
/// left out.
pub proof fn law_paths_are_joined_by_colons(paths: Seq<Seq<u8>>, path: Seq<u8>)
    ensures
        search_path(Seq::empty()) == Seq::<u8>::empty(),
        path.contains(0x3a) ==> search_path(paths.push(path)) == search_path(paths),
        !path.contains(0x3a) && (exists|i: int|
            0 <= i < paths.len() && !(#[trigger] paths[i]).contains(0x3a)) ==> search_path(
            paths.push(path),
        ) == search_path(paths).push(0x3a) + path,
        !path.contains(0x3a) && (forall|i: int|
            0 <= i < paths.len() ==> (#[trigger] paths[i]).contains(0x3a)) ==> search_path(
            paths.push(path),
        ) == path,
    decreases paths.len(),
{
    assert(paths.push(path).drop_last() =~= paths);
    if forall|i: int| 0 <= i < paths.len() ==> (#[trigger] paths[i]).contains(0x3a) {
        lemma_nothing_joined(paths);
        assert(Seq::<u8>::empty() + path =~= path);
    }
}

proof fn lemma_nothing_joined(paths: Seq<Seq<u8>>)
    requires
        forall|i: int| 0 <= i < paths.len() ==> (#[trigger] paths[i]).contains(0x3a),
    ensures
        search_path(paths) == Seq::<u8>::empty(),
    decreases paths.len(),
{
    if paths.len() > 0 {
        assert(paths[paths.len() - 1].contains(0x3a));
        assert forall|i: int| 0 <= i < paths.drop_last().len() implies (
        #[trigger] paths.drop_last()[i]).contains(0x3a) by {
            assert(paths[i].contains(0x3a));
        }
        lemma_nothing_joined(paths.drop_last());
    }
}

/// A listing that was cut short says how many queries it leaves out, and only such a one does.
pub proof fn law_a_cut_listing_says_so(all: usize, limit: Option<usize>, line: String)
    requires
        call_ensures(query_stack_footer, (all, limit), line),
    ensures
        limit is None || all <= limit->0 ==> line@ == "end of query stack"@,
        limit is Some && all > limit->0 ==> line@ == "... and "@ + decimal((all - limit->0) as nat)
            + " other queries... use `env RUST_BACKTRACE=1` to see the full query stack"@,
{
}

} // verus!
