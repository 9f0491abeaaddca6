//! What the words of diagnostics come to: severities, codes, lines, counts and articles.

use vstd::prelude::*;

use crate::error_messages::args::ArgModel;
use crate::error_messages::message::MessageModel;
use crate::error_messages::span::Span;
use crate::errors::codes::ErrCode;
use crate::errors::dcx::limit_text;
use crate::errors::dcx::summary;
use crate::errors::dcx::DcxModel;
use crate::errors::diag::DiagHashes;
use crate::errors::diag::DiagInner;
use crate::errors::diag::DiagModel;
use crate::errors::formatting::fillings;
use crate::errors::formatting::message_text;
use crate::errors::formatting::text_or_source;
use crate::errors::formatting::texts_or_sources;
use crate::errors::level::Level;
use crate::errors::level::Style;
use crate::errors::plain_emitter::plain_text;
use crate::errors::plain_emitter::PlainEmitter;
use crate::errors::suggestion::a_or_an;
use crate::errors::suggestion::as_substr;
use crate::errors::suggestion::common_prefix;
use crate::errors::suggestion::elided_lifetime_in_path_suggestion;
use crate::errors::suggestion::ElidedLifetimeInPathSubdiag;
use crate::text::decimal;
use crate::text::words;

verus! {

/// The text starts with the word.
pub open spec fn starts_with(text: Seq<char>, word: Seq<char>) -> bool {
    word.len() <= text.len() && text.take(word.len() as int) == word
}

/// A line starts with the severity of its diagnostic: each level has its word, and a line that
/// starts with `error` is about an error.
pub proof fn law_a_line_starts_with_the_severity(
    emitter: &PlainEmitter,
    diag: &DiagInner,
    filled: &Vec<Option<String>>,
    location: &str,
    text: String,
)
    requires
        call_ensures(PlainEmitter::render, (emitter, diag, filled, location), text),
    ensures
        diag@.level == Level::Warning || diag@.level == Level::ForceWarning ==> starts_with(
            text@,
            "warning"@,
        ),
        diag@.level == Level::Error || diag@.level == Level::Fatal ==> starts_with(
            text@,
            "error"@,
        ),
        diag@.level == Level::Bug || diag@.level == Level::DelayedBug ==> starts_with(
            text@,
            "internal compiler error"@,
        ),
        diag@.level == Level::Note || diag@.level == Level::OnceNote || diag@.level
            == Level::FailureNote ==> starts_with(text@, "note"@),
        diag@.level == Level::Help || diag@.level == Level::OnceHelp ==> starts_with(
            text@,
            "help"@,
        ),
        diag@.level == Level::Allow ==> starts_with(text@, "allow"@),
        diag@.level == Level::Expect ==> starts_with(text@, "expect"@),
        starts_with(text@, "error"@) <==> diag@.level == Level::Error || diag@.level
            == Level::Fatal,
        starts_with(text@, "warning"@) <==> diag@.level == Level::Warning || diag@.level
            == Level::ForceWarning,
{
    let name = crate::errors::plain_emitter::level_name(diag@.level);
    assert(text@.take(name.len() as int) =~= name);
    reveal_strlit("error");
    reveal_strlit("warning");
    reveal_strlit("internal compiler error");
    reveal_strlit("note");
    reveal_strlit("help");
    reveal_strlit("allow");
    reveal_strlit("expect");
    assert(name[0] == text@[0] && name[1] == text@[1]) by {
        assert(text@.take(name.len() as int)[0] == text@[0]);
        assert(text@.take(name.len() as int)[1] == text@[1]);
    }
    if starts_with(text@, "error"@) {
        assert(text@.take(5)[0] == text@[0] && text@.take(5)[1] == text@[1]);
    }
    if starts_with(text@, "warning"@) {
        assert(text@.take(7)[0] == text@[0] && text@.take(7)[1] == text@[1]);
    }
}

/// The word of a level, and which levels are errors.
pub proof fn law_each_level_has_its_word(level: Level, word: &'static str)
    requires
        call_ensures(Level::to_str, (level,), word),
    ensures
        level == Level::Bug || level == Level::DelayedBug ==> word@
            == "error: internal compiler error"@,
        level == Level::Fatal || level == Level::Error ==> word@ == "error"@,
        level == Level::ForceWarning || level == Level::Warning ==> word@ == "warning"@,
        level == Level::Note || level == Level::OnceNote ==> word@ == "note"@,
        level == Level::Help || level == Level::OnceHelp ==> word@ == "help"@,
        level == Level::FailureNote ==> word@ == "failure-note"@,
{
}

/// Exactly bugs, delayed or not, fatal errors and errors are errors.
pub proof fn law_which_levels_are_errors(level: Level, yes: bool)
    requires
        call_ensures(Level::is_error, (level,), yes),
    ensures
        yes <==> level == Level::Bug || level == Level::Fatal || level == Level::Error || level
            == Level::DelayedBug,
{
}

/// A diagnostic of one message with nothing to fill in and no code is its severity, a colon, its
/// words and the end of the line. A code stands in brackets behind the severity.
pub proof fn law_a_line_says_what_the_diagnostic_says(
    d: DiagModel,
    filled: Seq<Option<Seq<char>>>,
    location: Seq<char>,
    short: bool,
    message: Seq<char>,
    level: Seq<char>,
)
    requires
        d.messages == seq![(MessageModel::Str(message), Style::NoStyle)],
        filled.len() == 1,
        d.level == Level::Error && level == "error"@ || d.level == Level::Warning && level
            == "warning"@ || d.level == Level::Note && level == "note"@ || d.level == Level::Help
            && level == "help"@,
    ensures
        d.code is None ==> plain_text(d, filled, false, location, short) == level + ": "@
            + crate::text::joined(words(message), " "@) + "\n"@,
        d.code matches Some(code) ==> plain_text(d, filled, false, location, short) == level
            + "["@ + code.written() + "]"@ + ": "@ + crate::text::joined(words(message), " "@)
            + "\n"@,
{
    let lines = crate::errors::plain_emitter::line_texts(d.messages, filled);
    assert(lines =~= seq![crate::text::joined(words(message), " "@)]);
    assert(crate::errors::formatting::all_filled(d.messages, filled));
    assert(d.code is None ==> plain_text(d, filled, false, location, short) =~= level + ": "@
        + crate::text::joined(words(message), " "@) + "\n"@);
    assert(d.code matches Some(code) ==> plain_text(d, filled, false, location, short) =~= level
        + "["@ + code.written() + "]"@ + ": "@ + crate::text::joined(words(message), " "@)
        + "\n"@);
}

/// With a source map, a diagnostic about a place names it on a line of its own, behind what is
/// written without one. A diagnostic about nothing has no such line.
pub proof fn law_a_place_is_named_where_there_is_one(
    d: DiagModel,
    filled: Seq<Option<Seq<char>>>,
    location: Seq<char>,
)
    ensures
        ({
            let bare = plain_text(d, filled, false, location, true);
            let located = plain_text(d, filled, true, location, true);
            let placed = d.span.primaries.len() > 0 && !d.span.primaries[0].dummy();
            &&& placed ==> located == bare.drop_last() + "\n  --> "@ + location + "\n"@
            &&& !placed ==> located == bare
            &&& bare.len() > 0 && bare.last() == '\n'
        }),
{
    reveal_strlit("\n");
    let bare = plain_text(d, filled, false, location, true);
    let located = plain_text(d, filled, true, location, true);
    assert("\n"@ =~= seq!['\n']);
    assert(d.span.primaries.len() > 0 && !d.span.primaries[0].dummy() ==> located
        =~= bare.drop_last() + "\n  --> "@ + location + "\n"@);
    assert(!(d.span.primaries.len() > 0 && !d.span.primaries[0].dummy()) ==> located =~= bare);
}

/// Arguments are listed, each on a line of its own and in order, where a template could not be
/// filled in, and only there; a short line never lists them.
pub proof fn law_arguments_are_listed_where_a_template_is_left(
    d: DiagModel,
    filled: Seq<Option<Seq<char>>>,
    sm: bool,
    location: Seq<char>,
    name: Seq<char>,
    value: Seq<char>,
)
    requires
        filled.len() == d.messages.len(),
    ensures
        ({
            let more = DiagModel { args: d.args.push((name, ArgModel::Str(value))), ..d };
            let left = exists|i: int|
                0 <= i < d.messages.len() && (#[trigger] d.messages[i]).0 is Inline && filled[i]
                    is None;
            let without = plain_text(d, filled, sm, location, false);
            let with = plain_text(more, filled, sm, location, false);
            &&& left ==> with == without.drop_last() + "\n  "@ + name + " = "@ + value + "\n"@
            &&& !left ==> with == without
            &&& plain_text(more, filled, sm, location, true) == plain_text(
                d,
                filled,
                sm,
                location,
                true,
            )
            &&& !left ==> without == plain_text(d, filled, sm, location, true)
        }),
{
    reveal_strlit("\n");
    assert("\n"@ =~= seq!['\n']);
    let more = DiagModel { args: d.args.push((name, ArgModel::Str(value))), ..d };
    assert(more.args.drop_last() =~= d.args);
    let left = exists|i: int|
        0 <= i < d.messages.len() && (#[trigger] d.messages[i]).0 is Inline && filled[i] is None;
    assert(left == !crate::errors::formatting::all_filled(d.messages, filled)) by {
        if left {
            let i = choose|i: int|
                0 <= i < d.messages.len() && (#[trigger] d.messages[i]).0 is Inline && filled[i]
                    is None;
            assert(message_text(d.messages[i].0, filled[i]) is None);
        } else {
            assert forall|i: int| 0 <= i < d.messages.len() implies message_text(
                (#[trigger] d.messages[i]).0,
                filled[i],
            ) is Some by {
                assert(!(d.messages[i].0 is Inline && filled[i] is None));
            }
        }
    }
    let without = plain_text(d, filled, sm, location, false);
    let with = plain_text(more, filled, sm, location, false);
    assert(left ==> with =~= without.drop_last() + "\n  "@ + name + " = "@ + value + "\n"@);
}

/// A buffer gets the same line behind what it holds; without one the line is handed out.
pub proof fn law_a_line_goes_to_the_buffer(
    emitter: &mut PlainEmitter,
    diag: &DiagInner,
    filled: &Vec<Option<String>>,
    location: &str,
    out: Option<String>,
)
    requires
        call_ensures(PlainEmitter::emit_diagnostic, (emitter, diag, filled, location), out),
    ensures
        ({
            let line = plain_text(
                diag@,
                fillings(filled@),
                old(emitter).located(),
                location@,
                old(emitter).shortened(),
            );
            &&& old(emitter).written() matches Some(before) ==> final(emitter).written() == Some(
                before + line,
            )
            &&& old(emitter).written() is None ==> final(emitter).written() is None && out is Some
                && out->0@ == line
        }),
{
}

/// A message is its text, or its template filled in, or, where that could not be done, its
/// template; and messages are put together in order.
pub proof fn law_a_message_is_never_lost(
    messages: Seq<(MessageModel, Style)>,
    filled: Seq<Option<Seq<char>>>,
    style: Style,
    text: Seq<char>,
    came: Seq<char>,
)
    requires
        filled.len() == messages.len(),
    ensures
        text_or_source(MessageModel::Str(text), None) == text,
        text_or_source(MessageModel::Str(text), Some(came)) == text,
        text_or_source(MessageModel::Inline(text), Some(came)) == came,
        text_or_source(MessageModel::Inline(text), None) == text,
        texts_or_sources(Seq::empty(), Seq::empty()) == Seq::<char>::empty(),
        texts_or_sources(
            messages.push((MessageModel::Str(text), style)),
            filled.push(None),
        ) == texts_or_sources(messages, filled) + text,
        texts_or_sources(
            messages.push((MessageModel::Inline(text), style)),
            filled.push(Some(came)),
        ) == texts_or_sources(messages, filled) + came,
{
    let a = messages.push((MessageModel::Str(text), style));
    let b = messages.push((MessageModel::Inline(text), style));
    assert(a.drop_last() =~= messages);
    assert(b.drop_last() =~= messages);
    lemma_fillings_in_front(messages, filled, filled.push(None));
    lemma_fillings_in_front(messages, filled, filled.push(Some(came)));
}

proof fn lemma_fillings_in_front(
    messages: Seq<(MessageModel, Style)>,
    a: Seq<Option<Seq<char>>>,
    b: Seq<Option<Seq<char>>>,
)
    requires
        forall|i: int| 0 <= i < messages.len() ==> #[trigger] a[i] == b[i],
    ensures
        texts_or_sources(messages, a) == texts_or_sources(messages, b),
    decreases messages.len(),
{
    if messages.len() > 0 {
        lemma_fillings_in_front(messages.drop_last(), a, b);
    }
}

/// The last word on a run names both counts, the errors first, and is an error exactly if there
/// were errors. There is none where nothing was printed.
pub proof fn law_the_summary_names_the_counts(
    m: DcxModel,
    at: Seq<char>,
    hashes: DiagHashes,
)
    requires
        m.flags.treat_err_as_bug is None,
    ensures
        match summary(m, at, hashes) {
            None => m.shown_errs == 0 && m.shown_warns == 0,
            Some(d) => {
                let errors = if m.shown_errs == 1 {
                    "aborting due to 1 previous error"@
                } else {
                    "aborting due to "@ + decimal(m.shown_errs) + " previous errors"@
                };
                let warnings = if m.shown_warns == 1 {
                    "1 warning emitted"@
                } else {
                    decimal(m.shown_warns) + " warnings emitted"@
                };
                &&& m.shown_errs > 0 || m.shown_warns > 0
                &&& d.level == (if m.shown_errs > 0 {
                    Level::Error
                } else {
                    Level::ForceWarning
                })
                &&& d.messages.len() == 1
                &&& d.messages[0].0 == MessageModel::Str(
                    if m.shown_errs > 0 && m.shown_warns > 0 {
                        errors + "; "@ + warnings
                    } else if m.shown_errs > 0 {
                        errors
                    } else {
                        warnings
                    },
                )
                &&& d.code is None && d.is_lint is None && d.children.len() == 0
            },
        },
{
}

/// Why the compiler stops names the error it stops at.
pub proof fn law_the_limit_is_named(n: nat)
    ensures
        limit_text(1) == "aborting due to `-Z treat-err-as-bug=1`"@,
        n > 1 ==> limit_text(n) == "aborting after "@ + decimal(n)
            + " errors due to `-Z treat-err-as-bug="@ + decimal(n) + "`"@,
{
}

/// A code is an `E` and its number in four digits.
pub proof fn law_a_code_has_four_digits(code: ErrCode, text: String)
    requires
        code.wf(),
        call_ensures(ErrCode::to_text, (code,), text),
    ensures
        text@.len() == 5,
        text@[0] == 'E',
        crate::base_n::parsed(text@.skip(1), 10) == code.number(),
{
    crate::errors::codes::lemma_four_digits(code.number() as nat);
    crate::base_n::law_digits_read_back(code.number() as nat, 10);
    crate::base_n::law_padding_reads_back(decimal(code.number() as nat), 4, 10);
    assert(text@.skip(1) =~= crate::base_n::zero_padded(decimal(code.number() as nat), 4));
}

/// The article is `an` before a vowel and before `&`, whatever the case and with or without a
/// backtick in between, and `a` before anything else.
pub proof fn law_the_article_goes_by_the_sound(s: &str, article: &'static str)
    requires
        call_ensures(a_or_an, (s,), article),
    ensures
        ({
            let c = if s@.len() > 0 && s@[0] == '`' {
                s@.skip(1)
            } else {
                s@
            };
            let vowel = c.len() > 0 && "aeiouAEIOU&"@.contains(c[0]);
            article@ == (if vowel {
                "an"@
            } else {
                "a"@
            })
        }),
{
    reveal_strlit("aeiouAEIOU&");
    let v = "aeiouAEIOU&"@;
    assert(v[0] == 'a' && v[1] == 'e' && v[2] == 'i' && v[3] == 'o' && v[4] == 'u');
    assert(v[5] == 'A' && v[6] == 'E' && v[7] == 'I' && v[8] == 'O' && v[9] == 'U');
    assert(v[10] == '&');
}

/// A suggestion that only adds is the original with the added text put in: the bytes before it,
/// the text, and the bytes behind it make up the suggestion.
pub proof fn law_what_is_put_in_completes_the_original(
    original: &str,
    suggestion: &str,
    put_in: Option<(usize, String, usize)>,
)
    requires
        call_ensures(as_substr, (original, suggestion), put_in),
    ensures
        put_in matches Some((_, text, _)) ==> exists|k: int|
            {
                &&& 0 <= k <= original@.len()
                &&& suggestion@ == #[trigger] original@.take(k) + text@ + original@.skip(k)
            },
        suggestion@ == original@ ==> put_in is Some && (put_in->0).1@.len() == 0,
        put_in is None ==> suggestion@ != original@,
        original@.len() > suggestion@.len() ==> put_in is None,
{
    crate::errors::suggestion::lemma_common_prefix(original@, suggestion@);
    let k = common_prefix(original@, suggestion@) as int;
    if put_in is Some {
        crate::errors::suggestion::law_adding_loses_nothing(original@, suggestion@, k);
        assert(suggestion@ == original@.take(k) + (put_in->0).1@ + original@.skip(k));
    }
    if suggestion@ == original@ {
        lemma_prefix_of_itself(original@);
        assert(suggestion@.skip(suggestion@.len() as int) =~= original@.skip(k));
    }
}

proof fn lemma_prefix_of_itself(a: Seq<char>)
    ensures
        common_prefix(a, a) == a.len(),
    decreases a.len(),
{
    if a.len() > 0 {
        lemma_prefix_of_itself(a.drop_first());
    }
}

/// A path that lacks lifetimes is told how many, and, where the source can be changed, what to put
/// in right behind the place: as many `'_` as are missing, in brackets unless there are some.
pub proof fn law_missing_lifetimes_are_all_named(
    accessible: bool,
    n: usize,
    path_span: Span,
    brackets: bool,
    insertion_span: Span,
    sub: ElidedLifetimeInPathSubdiag,
)
    requires
        call_ensures(
            elided_lifetime_in_path_suggestion,
            (accessible, n, path_span, brackets, insertion_span),
            sub,
        ),
    ensures
        sub.expected.count == n && sub.expected.span == path_span,
        accessible <==> sub.indicate is Some,
        sub.indicate matches Some(indicate) ==> {
            &&& indicate.count == n
            &&& indicate.span.lo == insertion_span.hi && indicate.span.hi == insertion_span.hi
            &&& n == 1 ==> indicate.suggestion@ == (if brackets {
                "<'_>"@
            } else {
                "'_, "@
            })
            &&& n > 0 ==> indicate.suggestion@.len() == 4 * n
        },
{
    if let Some(indicate) = sub.indicate {
        reveal_strlit("'_");
        reveal_strlit(", ");
        reveal_strlit("<'_>");
        reveal_strlit("'_, ");
        let list = Seq::new(n as nat, |i: int| "'_"@);
        lemma_joined_len(list);
        if n == 1 {
            assert(list[0] == "'_"@);
            assert(seq!['<'] + "'_"@ + seq!['>'] =~= "<'_>"@);
            assert("'_"@ + ", "@ =~= "'_, "@);
        }
    }
}

proof fn lemma_joined_len(list: Seq<Seq<char>>)
    requires
        forall|i: int| 0 <= i < list.len() ==> (#[trigger] list[i]).len() == 2,
    ensures
        list.len() > 0 ==> crate::text::joined(list, ", "@).len() == 4 * list.len() - 2,
    decreases list.len(),
{
    reveal_strlit(", ");
    if list.len() > 1 {
        assert(list.last() == list[list.len() - 1]);
        lemma_joined_len(list.drop_last());
    }
}

} // verus!
