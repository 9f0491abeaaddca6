//! The table of how much code macros expanded to.

use vstd::prelude::*;
use vstd::string::StringExecFns;

use crate::sort::sort;
use crate::sort::sorted;
use crate::sort::TotalOrder;
use crate::text::decimal;
use crate::text::decimal_text;
use crate::text::left_aligned;
use crate::text::push_left_aligned;
use crate::text::push_repeated;
use crate::text::push_right_aligned;
use crate::text::repeated;
use crate::text::right_aligned;
use crate::text::same_text;
use crate::text::to_chars;

verus! {

/// What a macro expanded to.
pub struct MacroStat {
    pub bytes: usize,
    pub lines: usize,
    pub uses: usize,
    /// The number of the macro's name, which decides between macros that are otherwise equal.
    pub name_rank: u32,
    /// The number of the macro's kind, likewise.
    pub kind_rank: u32,
    /// The macro as it is shown.
    pub name: String,
    /// The lines per use, to one digit after the point.
    pub avg_lines: String,
    /// The bytes per use, to one digit after the point.
    pub avg_bytes: String,
}

impl TotalOrder for MacroStat {
    /// Bigger macros come first.
    open spec fn leq(a: Self, b: Self) -> bool {
        if a.bytes != b.bytes {
            a.bytes > b.bytes
        } else if a.lines != b.lines {
            a.lines > b.lines
        } else if a.uses != b.uses {
            a.uses > b.uses
        } else if a.name_rank != b.name_rank {
            a.name_rank > b.name_rank
        } else {
            a.kind_rank >= b.kind_rank
        }
    }

    proof fn lemma_total(a: Self, b: Self) {
    }

    proof fn lemma_transitive(a: Self, b: Self, c: Self) {
    }

    fn is_leq(a: &Self, b: &Self) -> (yes: bool) {
        if a.bytes != b.bytes {
            a.bytes > b.bytes
        } else if a.lines != b.lines {
            a.lines > b.lines
        } else if a.uses != b.uses {
            a.uses > b.uses
        } else if a.name_rank != b.name_rank {
            a.name_rank > b.name_rank
        } else {
            a.kind_rank >= b.kind_rank
        }
    }
}

/// Digits with an underscore before each group of three, counted from the end.
pub open spec fn grouped(digits: Seq<char>) -> Seq<char>
    decreases digits.len(),
{
    if digits.len() <= 3 {
        digits
    } else {
        grouped(digits.take(digits.len() - 3)) + "_"@ + digits.skip(digits.len() - 3)
    }
}

/// A number with its digits in groups of three.
pub open spec fn with_underscores(n: nat) -> Seq<char> {
    grouped(decimal(n))
}

/// A number with its digits in groups of three.
pub fn usize_with_underscores(n: usize) -> (s: String)
    ensures
        s@ == with_underscores(n as nat),
{
    let text = decimal_text(n as u128);
    let digits = to_chars(text.as_str());
    let ghost all = digits@;
    // The first group has one to three digits.
    let len = digits.len();
    let mut end: usize = len % 3;
    if end == 0 && len > 0 {
        end = 3;
    }
    let mut s = String::new();
    crate::text::push_chars(&mut s, &digits, 0, end);
    assert(s@ =~= all.take(end as int));
    assert(grouped(all.take(end as int)) == all.take(end as int));
    while end < len
        invariant
            end <= len,
            len == digits@.len(),
            all == digits@,
            (len - end) % 3 == 0,
            s@ == grouped(all.take(end as int)),
            end > 0,
        decreases len - end,
    {
        s.append("_");
        crate::text::push_chars(&mut s, &digits, end, end + 3);
        proof {
            let next = all.take(end + 3);
            assert(next.take(next.len() - 3) =~= all.take(end as int));
            assert(next.skip(next.len() - 3) =~= all.subrange(end as int, end + 3));
            assert(s@ =~= grouped(all.take(end as int)) + "_"@ + next.skip(next.len() - 3));
        }
        end += 3;
    }
    assert(all.take(end as int) =~= all);
    s
}

/// The widths of the columns.
pub const NAME_W: usize = 32;

pub const USES_W: usize = 7;

pub const COLUMN_W: usize = 11;

pub const BANNER_W: usize = 83;

/// The line prefix.
pub open spec fn prefix() -> Seq<char> {
    "macro-stats "@
}

/// A line across the table.
pub open spec fn banner(c: char) -> Seq<char> {
    prefix() + repeated(c, BANNER_W as nat) + "\n"@
}

/// A line of the table.
pub open spec fn row(
    name: Seq<char>,
    uses: Seq<char>,
    uses_w: nat,
    lines: Seq<char>,
    avg_lines: Seq<char>,
    bytes: Seq<char>,
    avg_bytes: Seq<char>,
) -> Seq<char> {
    prefix() + left_aligned(name, NAME_W as nat) + right_aligned(uses, uses_w) + right_aligned(
        lines,
        COLUMN_W as nat,
    ) + right_aligned(avg_lines, COLUMN_W as nat) + right_aligned(bytes, COLUMN_W as nat)
        + right_aligned(avg_bytes, COLUMN_W as nat) + "\n"@
}

/// The length of a text in bytes, as far as the columns go.
pub open spec fn byte_len(s: Seq<char>) -> nat {
    crate::errors::suggestion::byte_len(s) as nat
}

/// The lines for a macro. A name that leaves no room for the uses has a line of its own, and one
/// that is too wide takes room from the uses.
pub open spec fn stat_lines(stat: MacroStat) -> Seq<char> {
    let name = stat.name@;
    let uses = with_underscores(stat.uses as nat);
    let lines = with_underscores(stat.lines as nat);
    let bytes = with_underscores(stat.bytes as nat);
    if byte_len(name) + uses.len() >= NAME_W + USES_W {
        prefix() + left_aligned(name, NAME_W as nat) + "\n"@ + row(
            Seq::empty(),
            uses,
            USES_W as nat,
            lines,
            stat.avg_lines@,
            bytes,
            stat.avg_bytes@,
        )
    } else if byte_len(name) >= NAME_W {
        row(
            name,
            uses,
            (USES_W - (byte_len(name) - NAME_W)) as nat,
            lines,
            stat.avg_lines@,
            bytes,
            stat.avg_bytes@,
        )
    } else {
        row(name, uses, USES_W as nat, lines, stat.avg_lines@, bytes, stat.avg_bytes@)
    }
}

/// The lines for all macros.
pub open spec fn all_stat_lines(stats: Seq<MacroStat>) -> Seq<char>
    decreases stats.len(),
{
    if stats.len() == 0 {
        Seq::empty()
    } else {
        all_stat_lines(stats.drop_last()) + stat_lines(stats.last())
    }
}

/// The characters of a text, if there is one.
pub open spec fn option_text(text: Option<&str>) -> Option<Seq<char>> {
    match text {
        Some(s) => Some(s@),
        None => None,
    }
}

/// The crate as it is shown. A build script goes by the name of its package.
pub open spec fn shown_crate(crate_name: Seq<char>, package: Option<Seq<char>>) -> Seq<char> {
    if crate_name == "build_script_build"@ {
        (match package {
            Some(name) => name,
            None => "<unknown crate>"@,
        }) + " build script"@
    } else {
        crate_name
    }
}

/// The table, with the macros in `order`.
pub open spec fn table(crate_name: Seq<char>, order: Seq<MacroStat>) -> Seq<char> {
    banner('=') + prefix() + "MACRO EXPANSION STATS: "@ + crate_name + "\n"@ + row(
        "Macro Name"@,
        "Uses"@,
        USES_W as nat,
        "Lines"@,
        "Avg Lines"@,
        "Bytes"@,
        "Avg Bytes"@,
    ) + banner('-') + (if order.len() == 0 {
        prefix() + "(none)\n"@
    } else {
        Seq::empty()
    }) + all_stat_lines(order) + banner('=')
}

fn push_banner(out: &mut String, c: char)
    ensures
        final(out)@ == old(out)@ + banner(c),
{
    let ghost before = out@;
    out.append("macro-stats ");
    push_repeated(out, c, BANNER_W);
    out.append("\n");
    assert(out@ =~= before + banner(c));
}

fn push_row(
    out: &mut String,
    name: &str,
    uses: &str,
    uses_w: usize,
    lines: &str,
    avg_lines: &str,
    bytes: &str,
    avg_bytes: &str,
)
    ensures
        final(out)@ == old(out)@ + row(
            name@,
            uses@,
            uses_w as nat,
            lines@,
            avg_lines@,
            bytes@,
            avg_bytes@,
        ),
{
    let ghost before = out@;
    out.append("macro-stats ");
    push_left_aligned(out, name, NAME_W);
    push_right_aligned(out, uses, uses_w);
    push_right_aligned(out, lines, COLUMN_W);
    push_right_aligned(out, avg_lines, COLUMN_W);
    push_right_aligned(out, bytes, COLUMN_W);
    push_right_aligned(out, avg_bytes, COLUMN_W);
    out.append("\n");
    assert(out@ =~= before + row(
        name@,
        uses@,
        uses_w as nat,
        lines@,
        avg_lines@,
        bytes@,
        avg_bytes@,
    ));
}

fn push_stat_lines(out: &mut String, stat: &MacroStat)
    ensures
        final(out)@ == old(out)@ + stat_lines(*stat),
{
    let ghost before = out@;
    let uses = usize_with_underscores(stat.uses);
    let lines = usize_with_underscores(stat.lines);
    let bytes = usize_with_underscores(stat.bytes);
    let name_len = stat.name.as_str().len();
    let uses_len = uses.as_str().unicode_len();
    if name_len >= NAME_W + USES_W || uses_len >= NAME_W + USES_W || name_len + uses_len >= NAME_W
        + USES_W {
        out.append("macro-stats ");
        push_left_aligned(out, stat.name.as_str(), NAME_W);
        out.append("\n");
        push_row(
            out,
            "",
            uses.as_str(),
            USES_W,
            lines.as_str(),
            stat.avg_lines.as_str(),
            bytes.as_str(),
            stat.avg_bytes.as_str(),
        );
        proof {
            reveal_strlit("");
            assert(""@ =~= Seq::<char>::empty());
            assert(out@ =~= before + stat_lines(*stat));
        }
    } else {
        let uses_w = if name_len >= NAME_W {
            USES_W - (name_len - NAME_W)
        } else {
            USES_W
        };
        push_row(
            out,
            stat.name.as_str(),
            uses.as_str(),
            uses_w,
            lines.as_str(),
            stat.avg_lines.as_str(),
            bytes.as_str(),
            stat.avg_bytes.as_str(),
        );
    }
}

/// The table of how much code macros expanded to, biggest first. `package` is the name of the
/// package, which a build script goes by.
pub fn macro_stats_table(crate_name: &str, package: Option<&str>, stats: Vec<MacroStat>) -> (text:
    String)
    ensures
        exists|order: Seq<MacroStat>|
            {
                &&& sorted(order)
                &&& order.to_multiset() == stats@.to_multiset()
                &&& text@ == #[trigger] table(
                    shown_crate(crate_name@, option_text(package)),
                    order,
                )
            },
{
    let mut shown = String::new();
    if same_text(crate_name, "build_script_build") {
        match package {
            Some(name) => {
                shown.append(name);
            },
            None => {
                shown.append("<unknown crate>");
            },
        }
        shown.append(" build script");
    } else {
        shown.append(crate_name);
    }
    let ghost who = shown_crate(crate_name@, option_text(package));
    assert(shown@ =~= who);
    let order = sort(stats);
    let mut s = String::new();
    push_banner(&mut s, '=');
    s.append("macro-stats ");
    s.append("MACRO EXPANSION STATS: ");
    s.append(shown.as_str());
    s.append("\n");
    push_row(
        &mut s,
        "Macro Name",
        "Uses",
        USES_W,
        "Lines",
        "Avg Lines",
        "Bytes",
        "Avg Bytes",
    );
    push_banner(&mut s, '-');
    if order.len() == 0 {
        s.append("macro-stats ");
        s.append("(none)\n");
    }
    let ghost head = s@;
    let mut i: usize = 0;
    assert(order@.take(0) =~= Seq::<MacroStat>::empty());
    assert(s@ =~= head + all_stat_lines(order@.take(0)));
    while i < order.len()
        invariant
            i <= order@.len(),
            s@ == head + all_stat_lines(order@.take(i as int)),
        decreases order@.len() - i,
    {
        push_stat_lines(&mut s, &order[i]);
        proof {
            assert(order@.take(i + 1).drop_last() =~= order@.take(i as int));
            assert(order@.take(i + 1).last() == order@[i as int]);
            assert(s@ =~= head + all_stat_lines(order@.take(i + 1)));
        }
        i += 1;
    }
    assert(order@.take(i as int) =~= order@);
    push_banner(&mut s, '=');
    assert(s@ =~= table(who, order@));
    s
}

/// Digits are grouped from the end: counted from there, every fourth character is an underscore, and
/// the others are the digits in their order.
pub proof fn law_digits_come_in_groups_of_three(digits: Seq<char>, k: int)
    requires
        digits.len() > 0,
    ensures
        grouped(digits).len() == digits.len() + (digits.len() - 1) / 3,
        0 <= k < digits.len() ==> grouped(digits)[grouped(digits).len() - 1 - (k + k / 3)]
            == digits[digits.len() - 1 - k],
        0 <= k < (digits.len() - 1) / 3 ==> grouped(digits)[grouped(digits).len() - 1 - (4 * k
            + 3)] == '_',
    decreases digits.len(),
{
    reveal_strlit("_");
    if digits.len() > 3 {
        let front = digits.take(digits.len() - 3);
        let back = digits.skip(digits.len() - 3);
        law_digits_come_in_groups_of_three(front, k - 3);
        law_digits_come_in_groups_of_three(front, k - 1);
        law_digits_come_in_groups_of_three(front, 0);
        let n = grouped(digits).len();
        assert(n == grouped(front).len() + 4);
        assert(grouped(digits) =~= (grouped(front) + "_"@) + back);
        if 3 <= k < digits.len() {
            assert(k / 3 == (k - 3) / 3 + 1);
            let at = n - 1 - (k + k / 3);
            assert(at == grouped(front).len() - 1 - (k - 3 + (k - 3) / 3));
            assert(grouped(digits)[at] == grouped(front)[at]);
            assert(front[front.len() - 1 - (k - 3)] == digits[digits.len() - 1 - k]);
        } else if 0 <= k < 3 {
            assert(k / 3 == 0);
            assert(grouped(digits)[n - 1 - k] == back[2 - k]);
        }
        if 1 <= k < (digits.len() - 1) / 3 {
            let at = n - 1 - (4 * k + 3);
            assert(at == grouped(front).len() - 1 - (4 * (k - 1) + 3));
            assert(grouped(digits)[at] == grouped(front)[at]);
        } else if k == 0 {
            assert(grouped(digits)[n - 4] == '_');
        }
    } else if 0 <= k < digits.len() {
        assert(k / 3 == 0);
    }
}

/// Bigger macros come first: by bytes, then by lines, then by uses.
pub proof fn law_bigger_macros_come_first(order: Seq<MacroStat>, i: int, j: int)
    requires
        sorted(order),
        0 <= i < j < order.len(),
    ensures
        order[i].bytes >= order[j].bytes,
        order[i].bytes == order[j].bytes ==> order[i].lines >= order[j].lines,
        order[i].bytes == order[j].bytes && order[i].lines == order[j].lines ==> order[i].uses
            >= order[j].uses,
        order[i].bytes == order[j].bytes && order[i].lines == order[j].lines && order[i].uses
            == order[j].uses ==> order[i].name_rank >= order[j].name_rank,
{
    assert(MacroStat::leq(order[i], order[j]));
}

/// The columns of a line, from left to right: where each ends, and that it ends in its text.
pub proof fn law_columns_stand_side_by_side(
    name: Seq<char>,
    uses: Seq<char>,
    lines: Seq<char>,
    avg_lines: Seq<char>,
    bytes: Seq<char>,
    avg_bytes: Seq<char>,
)
    requires
        name.len() <= 32,
        uses.len() <= 7,
        lines.len() <= 11,
        avg_lines.len() <= 11,
        bytes.len() <= 11,
        avg_bytes.len() <= 11,
    ensures
        ({
            let line = row(name, uses, 7, lines, avg_lines, bytes, avg_bytes);
            &&& line.len() == 96
            &&& line.subrange(0, 12) == "macro-stats "@
            &&& line.subrange(12, (12 + name.len()) as int) == name
            &&& line.subrange(51 - uses.len(), 51) == uses
            &&& line.subrange(62 - lines.len(), 62) == lines
            &&& line.subrange(73 - avg_lines.len(), 73) == avg_lines
            &&& line.subrange(84 - bytes.len(), 84) == bytes
            &&& line.subrange(95 - avg_bytes.len(), 95) == avg_bytes
            &&& line[95] == '\n'
        }),
{
    reveal_strlit("macro-stats ");
    reveal_strlit("\n");
    let line = row(name, uses, 7, lines, avg_lines, bytes, avg_bytes);
    let a = prefix();
    let b = left_aligned(name, 32);
    let c = right_aligned(uses, 7);
    let d = right_aligned(lines, 11);
    let e = right_aligned(avg_lines, 11);
    let f = right_aligned(bytes, 11);
    let g = right_aligned(avg_bytes, 11);
    assert(line == a + b + c + d + e + f + g + "\n"@);
    assert(b.len() == 32 && c.len() == 7 && d.len() == 11 && e.len() == 11 && f.len() == 11
        && g.len() == 11);
    assert(line.subrange(0, 12) =~= a);
    assert(line.subrange(12, (12 + name.len()) as int) =~= name);
    assert(line.subrange(51 - uses.len(), 51) =~= uses);
    assert(line.subrange(62 - lines.len(), 62) =~= lines);
    assert(line.subrange(73 - avg_lines.len(), 73) =~= avg_lines);
    assert(line.subrange(84 - bytes.len(), 84) =~= bytes);
    assert(line.subrange(95 - avg_bytes.len(), 95) =~= avg_bytes);
}

/// The figures of a macro are in their columns, next to its name if that leaves room, else below it.
pub proof fn law_a_macro_has_its_line(stat: MacroStat)
    requires
        byte_len(stat.name@) == stat.name@.len(),
    ensures
        ({
            let uses = with_underscores(stat.uses as nat);
            let lines = with_underscores(stat.lines as nat);
            let bytes = with_underscores(stat.bytes as nat);
            &&& stat.name@.len() < 32 && stat.name@.len() + uses.len() < 39 ==> stat_lines(stat)
                == row(stat.name@, uses, 7, lines, stat.avg_lines@, bytes, stat.avg_bytes@)
            &&& 32 <= stat.name@.len() && stat.name@.len() + uses.len() < 39 ==> stat_lines(stat)
                == row(
                stat.name@,
                uses,
                (39 - stat.name@.len()) as nat,
                lines,
                stat.avg_lines@,
                bytes,
                stat.avg_bytes@,
            )
            &&& stat.name@.len() + uses.len() >= 39 ==> stat_lines(stat) == "macro-stats "@
                + left_aligned(stat.name@, 32) + "\n"@ + row(
                Seq::empty(),
                uses,
                7,
                lines,
                stat.avg_lines@,
                bytes,
                stat.avg_bytes@,
            )
        }),
{
}

/// Each macro more has its lines behind those of the others.
pub proof fn law_macros_are_listed_in_order(stats: Seq<MacroStat>, stat: MacroStat)
    ensures
        all_stat_lines(Seq::empty()) == Seq::<char>::empty(),
        all_stat_lines(stats.push(stat)) == all_stat_lines(stats) + stat_lines(stat),
{
    assert(stats.push(stat).drop_last() =~= stats);
}

/// A crate goes by its own name, and only a build script by that of its package.
pub proof fn law_a_build_script_goes_by_its_package(name: Seq<char>, package: Option<Seq<char>>)
    ensures
        name != "build_script_build"@ ==> shown_crate(name, package) == name,
        name == "build_script_build"@ && package is Some ==> shown_crate(name, package)
            == package->0 + " build script"@,
        name == "build_script_build"@ && package is None ==> shown_crate(name, package)
            == "<unknown crate>"@ + " build script"@,
{
}

/// The table: a double line, its heading, that of the columns, a line, the macros, or that there are
/// none, and a double line.
pub proof fn law_the_parts_of_the_table(crate_name: Seq<char>, order: Seq<MacroStat>)
    ensures
        ({
            let head = "macro-stats "@ + repeated('=', 83) + "\n"@ + "macro-stats "@
                + "MACRO EXPANSION STATS: "@ + crate_name + "\n"@ + row(
                "Macro Name"@,
                "Uses"@,
                7,
                "Lines"@,
                "Avg Lines"@,
                "Bytes"@,
                "Avg Bytes"@,
            ) + "macro-stats "@ + repeated('-', 83) + "\n"@;
            let foot = "macro-stats "@ + repeated('=', 83) + "\n"@;
            &&& order.len() == 0 ==> table(crate_name, order) == head + "macro-stats "@
                + "(none)\n"@ + foot
            &&& order.len() > 0 ==> table(crate_name, order) == head + all_stat_lines(order) + foot
        }),
{
    let head = "macro-stats "@ + repeated('=', 83) + "\n"@ + "macro-stats "@
        + "MACRO EXPANSION STATS: "@ + crate_name + "\n"@ + row(
        "Macro Name"@,
        "Uses"@,
        7,
        "Lines"@,
        "Avg Lines"@,
        "Bytes"@,
        "Avg Bytes"@,
    ) + "macro-stats "@ + repeated('-', 83) + "\n"@;
    let foot = "macro-stats "@ + repeated('=', 83) + "\n"@;
    if order.len() == 0 {
        assert(table(crate_name, order) =~= head + "macro-stats "@ + "(none)\n"@ + foot);
    } else {
        assert(table(crate_name, order) =~= head + all_stat_lines(order) + foot);
    }
}

} // verus!
