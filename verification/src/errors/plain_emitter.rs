//! Diagnostics as lines of text: severity, code, message, location.

use vstd::prelude::*;
use vstd::string::StringExecFns;

use crate::error_messages::args::ArgModel;
use crate::error_messages::args::DiagArgValue;
use crate::error_messages::message::MessageModel;
use crate::errors::diag::arg_models;
use crate::errors::diag::DiagInner;
use crate::errors::diag::DiagModel;
use crate::errors::formatting::all_filled;
use crate::errors::formatting::fillings;
use crate::errors::formatting::message_text;
use crate::errors::formatting::message_or_source;
use crate::errors::formatting::text_or_source;
use crate::errors::formatting::try_format_diag_message;
use crate::errors::level::Level;
use crate::errors::level::Style;
use crate::text::join;
use crate::text::joined;
use crate::text::signed_decimal;
use crate::text::signed_decimal_text;
use crate::text::split_whitespace;
use crate::text::texts;
use crate::text::words;

verus! {

/// Writes each diagnostic as one or more plain lines.
pub struct PlainEmitter {
    sm: bool,
    short: bool,
    dst: Option<String>,
}

/// The name of a level at the start of a line.
pub open spec fn level_name(level: Level) -> Seq<char> {
    match level {
        Level::Bug | Level::DelayedBug => "internal compiler error"@,
        Level::Fatal | Level::Error => "error"@,
        Level::ForceWarning | Level::Warning => "warning"@,
        Level::Note | Level::OnceNote | Level::FailureNote => "note"@,
        Level::Help | Level::OnceHelp => "help"@,
        Level::Allow => "allow"@,
        Level::Expect => "expect"@,
    }
}

fn name_of_level(level: Level) -> (name: &'static str)
    ensures
        name@ == level_name(level),
{
    match level {
        Level::Bug => "internal compiler error",
        Level::DelayedBug => "internal compiler error",
        Level::Fatal => "error",
        Level::Error => "error",
        Level::ForceWarning => "warning",
        Level::Warning => "warning",
        Level::Note => "note",
        Level::OnceNote => "note",
        Level::FailureNote => "note",
        Level::Help => "help",
        Level::OnceHelp => "help",
        Level::Allow => "allow",
        Level::Expect => "expect",
    }
}

/// The message with every run of whitespace as one space.
pub open spec fn one_line(text: Seq<char>) -> Seq<char> {
    joined(words(text), " "@)
}

/// The messages, each on one line.
pub open spec fn line_texts(
    messages: Seq<(MessageModel, Style)>,
    filled: Seq<Option<Seq<char>>>,
) -> Seq<Seq<char>> {
    Seq::new(
        messages.len(),
        |i: int| one_line(text_or_source(messages[i].0, filled[i])),
    )
}

/// An argument as it is listed.
pub open spec fn arg_text(value: ArgModel) -> Seq<char> {
    match value {
        ArgModel::Str(s) => s,
        ArgModel::Number(n) => signed_decimal(n as int),
        ArgModel::StrListSepByAnd(list) => joined(list, ", "@),
    }
}

/// The arguments, one on each line.
pub open spec fn arg_lines(args: Seq<(Seq<char>, ArgModel)>) -> Seq<char>
    decreases args.len(),
{
    if args.len() == 0 {
        Seq::empty()
    } else {
        arg_lines(args.drop_last()) + "\n  "@ + args.last().0 + " = "@ + arg_text(args.last().1)
    }
}

/// The diagnostic has a place to show.
pub open spec fn has_location(d: DiagModel) -> bool {
    match d.primary_span() {
        Some(span) => !span.dummy(),
        None => false,
    }
}

/// The lines of a diagnostic. The arguments are only listed where a template could not be filled
/// in, since they are in the text otherwise.
pub open spec fn plain_text(
    d: DiagModel,
    filled: Seq<Option<Seq<char>>>,
    sm: bool,
    location: Seq<char>,
    short: bool,
) -> Seq<char> {
    level_name(d.level) + (match d.code {
        Some(code) => "["@ + code.written() + "]"@,
        None => Seq::empty(),
    }) + ": "@ + joined(line_texts(d.messages, filled), " "@) + (if sm && has_location(d) {
        "\n  --> "@ + location
    } else {
        Seq::empty()
    }) + (if !short && !all_filled(d.messages, filled) {
        arg_lines(d.args)
    } else {
        Seq::empty()
    }) + "\n"@
}

fn push_arg_lines(out: &mut String, diag: &DiagInner)
    requires
        diag.wf(),
    ensures
        final(out)@ == old(out)@ + arg_lines(diag@.args),
{
    let ghost before = out@;
    let ghost args = arg_models(diag.args@);
    let mut i: usize = 0;
    assert(args.take(0) =~= Seq::<(Seq<char>, ArgModel)>::empty());
    assert(out@ =~= before + arg_lines(args.take(0)));
    while i < diag.args.len()
        invariant
            diag.wf(),
            args == arg_models(diag.args@),
            i <= args.len(),
            out@ == before + arg_lines(args.take(i as int)),
        decreases args.len() - i,
    {
        let entry = diag.args.at(i);
        let ghost so_far = arg_lines(args.take(i as int));
        out.append("\n  ");
        out.append(entry.0);
        out.append(" = ");
        match entry.1 {
            DiagArgValue::Str(s) => {
                out.append(s.as_str());
            },
            DiagArgValue::Number(n) => {
                out.append(signed_decimal_text(*n as i128).as_str());
            },
            DiagArgValue::StrListSepByAnd(list) => {
                out.append(join(list, ", ").as_str());
            },
        }
        proof {
            assert(args.take(i + 1).drop_last() =~= args.take(i as int));
            assert(args.take(i + 1).last() == args[i as int]);
            assert(out@ =~= before + (so_far + "\n  "@ + args[i as int].0 + " = "@ + arg_text(
                args[i as int].1,
            )));
        }
        i += 1;
    }
    assert(args.take(i as int) =~= args);
}

impl PlainEmitter {
    pub closed spec fn located(&self) -> bool {
        self.sm
    }

    pub closed spec fn shortened(&self) -> bool {
        self.short
    }

    /// What was written so far, if it does not go to the terminal.
    pub closed spec fn written(&self) -> Option<Seq<char>> {
        match self.dst {
            Some(dst) => Some(dst@),
            None => None,
        }
    }

    /// An emitter without a source map, so that diagnostics have no location.
    pub fn new() -> (emitter: PlainEmitter)
        ensures
            !emitter.located(),
            !emitter.shortened(),
            emitter.written() is None,
    {
        PlainEmitter { sm: false, short: false, dst: None }
    }

    /// With a source map, a primary span has a location.
    pub fn sm(self, sm: bool) -> (emitter: PlainEmitter)
        ensures
            emitter.located() == sm,
            emitter.shortened() == self.shortened(),
            emitter.written() == self.written(),
    {
        let mut emitter = self;
        emitter.sm = sm;
        emitter
    }

    /// Whether arguments are never listed.
    pub fn short_message(self, short: bool) -> (emitter: PlainEmitter)
        ensures
            emitter.located() == self.located(),
            emitter.shortened() == short,
            emitter.written() == self.written(),
    {
        let mut emitter = self;
        emitter.short = short;
        emitter
    }

    /// Sends the lines to a buffer, not to the terminal.
    pub fn dst(self, dst: String) -> (emitter: PlainEmitter)
        ensures
            emitter.located() == self.located(),
            emitter.shortened() == self.shortened(),
            emitter.written() == Some(dst@),
    {
        let mut emitter = self;
        emitter.dst = Some(dst);
        emitter
    }

    /// The lines of a diagnostic, given what came of filling in its templates and where its
    /// primary span is.
    pub fn render(&self, diag: &DiagInner, filled: &Vec<Option<String>>, location: &str) -> (text:
        String)
        requires
            diag.wf(),
            filled@.len() == diag@.messages.len(),
            diag@.code matches Some(code) ==> code.wf(),
        ensures
            text@ == plain_text(
                diag@,
                fillings(filled@),
                self.located(),
                location@,
                self.shortened(),
            ),
    {
        let ghost d = diag@;
        let ghost fs = fillings(filled@);
        let mut out = String::new();
        out.append(name_of_level(diag.level));
        match diag.code {
            Some(code) => {
                out.append("[");
                out.append(code.to_text().as_str());
                out.append("]");
            },
            None => {},
        }
        let ghost head = level_name(d.level) + (match d.code {
            Some(code) => "["@ + code.written() + "]"@,
            None => Seq::empty(),
        });
        assert(out@ =~= head);
        let mut unresolved = false;
        let mut message: Vec<String> = Vec::new();
        let mut i: usize = 0;
        while i < diag.messages.len()
            invariant
                i <= diag.messages@.len(),
                d == diag@,
                fs == fillings(filled@),
                filled@.len() == d.messages.len(),
                message@.len() == i,
                forall|k: int|
                    0 <= k < i ==> (#[trigger] message@[k])@ == line_texts(d.messages, fs)[k],
                unresolved == exists|k: int|
                    0 <= k < i && message_text((#[trigger] d.messages[k]).0, fs[k]) is None,
            decreases diag.messages@.len() - i,
        {
            let m = &diag.messages[i].0;
            let text = message_or_source(m, &filled[i]);
            if try_format_diag_message(m, &filled[i]).is_none() {
                assert(message_text(d.messages[i as int].0, fs[i as int]) is None);
                unresolved = true;
            }
            let parts = split_whitespace(text);
            message.push(join(&parts, " "));
            i += 1;
        }
        proof {
            assert(texts(message@) =~= line_texts(d.messages, fs));
            assert(unresolved == !all_filled(d.messages, fs));
        }
        out.append(": ");
        out.append(join(&message, " ").as_str());
        let ghost with_message = head + ": "@ + joined(line_texts(d.messages, fs), " "@);
        assert(out@ =~= with_message);
        let located = match diag.span.primary_span() {
            Some(span) => !span.is_dummy(),
            None => false,
        };
        assert(located == has_location(d));
        if self.sm && located {
            out.append("\n  --> ");
            out.append(location);
        }
        let ghost placed = with_message + (if self.sm && has_location(d) {
            "\n  --> "@ + location@
        } else {
            Seq::empty()
        });
        assert(out@ =~= placed);
        if !self.short && unresolved {
            push_arg_lines(&mut out, diag);
        }
        let ghost listed = placed + (if !self.short && !all_filled(d.messages, fs) {
            arg_lines(d.args)
        } else {
            Seq::empty()
        });
        assert(out@ =~= listed);
        out.append("\n");
        assert(out@ =~= listed + "\n"@);
        out
    }

    /// Writes a diagnostic. What goes to the terminal is handed out.
    pub fn emit_diagnostic(
        &mut self,
        diag: &DiagInner,
        filled: &Vec<Option<String>>,
        location: &str,
    ) -> (out: Option<String>)
        requires
            diag.wf(),
            filled@.len() == diag@.messages.len(),
            diag@.code matches Some(code) ==> code.wf(),
        ensures
            final(self).located() == old(self).located(),
            final(self).shortened() == old(self).shortened(),
            ({
                let text = plain_text(
                    diag@,
                    fillings(filled@),
                    old(self).located(),
                    location@,
                    old(self).shortened(),
                );
                match old(self).written() {
                    Some(before) => final(self).written() == Some(before + text) && out is None,
                    None => {
                        &&& final(self).written() is None
                        &&& out is Some
                        &&& out->0@ == text
                    },
                }
            }),
    {
        let text = self.render(diag, filled, location);
        let mut dst: Option<String> = None;
        std::mem::swap(&mut dst, &mut self.dst);
        match dst {
            Some(buffer) => {
                let mut buffer = buffer;
                buffer.append(text.as_str());
                self.dst = Some(buffer);
                None
            },
            None => Some(text),
        }
    }
}

impl Default for PlainEmitter {
    fn default() -> (emitter: PlainEmitter)
        ensures
            !emitter.located(),
            !emitter.shortened(),
            emitter.written() is None,
    {
        PlainEmitter::new()
    }
}

} // verus!
