//! One diagnostic, as data.

use vstd::prelude::*;
use vstd::string::StringExecFns;

use crate::error_messages::args::ArgModel;
use crate::error_messages::args::DiagArgValue;
use crate::error_messages::message::DiagMessage;
use crate::error_messages::message::MessageModel;
use crate::error_messages::span::MultiSpan;
use crate::error_messages::span::Span;
use crate::error_messages::span::SpanModel;
use crate::errors::codes::ErrCode;
use crate::errors::level::Level;
use crate::errors::level::Style;
use crate::text::texts;
use crate::text_map::TextMap;

verus! {

/// The version of the language that a lint's advice needs.
#[derive(Clone, Copy, PartialEq, Eq, Structural, Debug)]
pub struct RustcVersion {
    pub major: u16,
    pub minor: u16,
    pub patch: u16,
}

impl RustcVersion {
    /// Whether this version came after `other`.
    pub open spec fn after(self, other: RustcVersion) -> bool {
        ||| self.major > other.major
        ||| self.major == other.major && self.minor > other.minor
        ||| self.major == other.major && self.minor == other.minor && self.patch > other.patch
    }

    pub fn is_after(self, other: RustcVersion) -> (yes: bool)
        ensures
            yes == self.after(other),
    {
        self.major > other.major || (self.major == other.major && (self.minor > other.minor || (
        self.minor == other.minor && self.patch > other.patch)))
    }
}

/// The lint that a diagnostic comes from.
pub struct IsLint {
    pub name: String,
    /// Whether the lint is about code that a later version will reject.
    pub has_future_breakage: bool,
}

/// The stable hashes of a diagnostic: as it is, and as it would be at the levels that it can be
/// promoted to. Two diagnostics that a reader could not tell apart have the same hashes.
///
/// Whoever makes the diagnostic computes them, from its contents, and hands them in: the hasher
/// belongs to the caller. Nothing here ties the numbers to the contents, and they are compared,
/// never looked into. The same holds of the hash of a message below a diagnostic.
#[derive(Clone, Copy, PartialEq, Eq, Structural, Debug)]
pub struct DiagHashes {
    pub own: u128,
    pub as_error: u128,
    pub as_bug: u128,
}

/// A message below a diagnostic.
pub struct Subdiag {
    pub level: Level,
    pub messages: Vec<(DiagMessage, Style)>,
    pub span: MultiSpan,
    /// The stable hash. Only read for a level that is emitted once.
    pub hash: u128,
}

pub struct DiagInner {
    pub level: Level,
    pub messages: Vec<(DiagMessage, Style)>,
    pub code: Option<ErrCode>,
    /// The expectation that the diagnostic fulfills, by number.
    pub lint_id: Option<u128>,
    pub span: MultiSpan,
    pub children: Vec<Subdiag>,
    pub args: TextMap<DiagArgValue>,
    pub is_lint: Option<IsLint>,
    pub rust_version: Option<RustcVersion>,
    /// Where in the compiler the diagnostic was made.
    pub emitted_at: String,
    pub hashes: DiagHashes,
}

/// What a message below a diagnostic is.
pub struct SubModel {
    pub level: Level,
    pub messages: Seq<(MessageModel, Style)>,
    pub span: SpanModel,
    pub hash: u128,
}

/// What a diagnostic is.
pub struct DiagModel {
    pub level: Level,
    pub messages: Seq<(MessageModel, Style)>,
    pub code: Option<ErrCode>,
    pub lint_id: Option<u128>,
    pub span: SpanModel,
    pub children: Seq<SubModel>,
    pub args: Seq<(Seq<char>, ArgModel)>,
    /// The lint's name, and whether it is about code that a later version will reject.
    pub is_lint: Option<(Seq<char>, bool)>,
    pub rust_version: Option<RustcVersion>,
    pub emitted_at: Seq<char>,
    pub hashes: DiagHashes,
}

pub open spec fn message_models(messages: Seq<(DiagMessage, Style)>) -> Seq<(MessageModel, Style)> {
    Seq::new(messages.len(), |i: int| (messages[i].0@, messages[i].1))
}

pub open spec fn arg_models(
    args: Seq<(Seq<char>, DiagArgValue)>,
) -> Seq<(Seq<char>, ArgModel)> {
    Seq::new(args.len(), |i: int| (args[i].0, args[i].1@))
}

pub open spec fn sub_models(subs: Seq<Subdiag>) -> Seq<SubModel> {
    Seq::new(subs.len(), |i: int| subs[i]@)
}

pub open spec fn diag_models(diags: Seq<DiagInner>) -> Seq<DiagModel> {
    Seq::new(diags.len(), |i: int| diags[i]@)
}

impl View for Subdiag {
    type V = SubModel;

    open spec fn view(&self) -> SubModel {
        SubModel {
            level: self.level,
            messages: message_models(self.messages@),
            span: self.span@,
            hash: self.hash,
        }
    }
}

impl View for DiagInner {
    type V = DiagModel;

    open spec fn view(&self) -> DiagModel {
        DiagModel {
            level: self.level,
            messages: message_models(self.messages@),
            code: self.code,
            lint_id: self.lint_id,
            span: self.span@,
            children: sub_models(self.children@),
            args: arg_models(self.args@),
            is_lint: match self.is_lint {
                Some(lint) => Some((lint.name@, lint.has_future_breakage)),
                None => None,
            },
            rust_version: self.rust_version,
            emitted_at: self.emitted_at@,
            hashes: self.hashes,
        }
    }
}

/// The spans of a message that is about nothing.
pub open spec fn no_span() -> SpanModel {
    SpanModel { primaries: Seq::empty(), labels: Seq::empty() }
}

/// The spans of a message that is about one span.
pub open spec fn one_span(span: Span) -> SpanModel {
    SpanModel { primaries: seq![span], labels: Seq::empty() }
}

/// A message with nothing to substitute, as a diagnostic holds it.
pub open spec fn plain_message(text: Seq<char>) -> Seq<(MessageModel, Style)> {
    seq![(MessageModel::Str(text), Style::NoStyle)]
}

/// A note below a diagnostic.
pub open spec fn note_model(text: Seq<char>, span: SpanModel) -> SubModel {
    SubModel { level: Level::Note, messages: plain_message(text), span, hash: 0 }
}

/// A diagnostic that is a level and a message, made at the place `at`.
pub open spec fn bare_diag(
    level: Level,
    message: MessageModel,
    at: Seq<char>,
    hashes: DiagHashes,
) -> DiagModel {
    DiagModel {
        level,
        messages: seq![(message, Style::NoStyle)],
        code: None,
        lint_id: None,
        span: no_span(),
        children: Seq::empty(),
        args: Seq::empty(),
        is_lint: None,
        rust_version: None,
        emitted_at: at,
        hashes,
    }
}

impl DiagModel {
    /// The diagnostic promoted to another level, and its hash with it.
    pub open spec fn at_level(self, level: Level) -> DiagModel {
        if level == self.level {
            self
        } else {
            let own = if level == Level::Bug {
                self.hashes.as_bug
            } else {
                self.hashes.as_error
            };
            DiagModel { level, hashes: DiagHashes { own, ..self.hashes }, ..self }
        }
    }

    pub open spec fn with_children(self, children: Seq<SubModel>) -> DiagModel {
        DiagModel { children, ..self }
    }

    /// The diagnostic is about code that a later version will reject.
    pub open spec fn future_breakage(self) -> bool {
        match self.is_lint {
            Some(lint) => lint.1,
            None => false,
        }
    }

    pub open spec fn primary_span(self) -> Option<Span> {
        if self.span.primaries.len() > 0 {
            Some(self.span.primaries[0])
        } else {
            None
        }
    }
}

fn copy_messages(messages: &Vec<(DiagMessage, Style)>) -> (out: Vec<(DiagMessage, Style)>)
    ensures
        message_models(out@) == message_models(messages@),
{
    let mut out: Vec<(DiagMessage, Style)> = Vec::new();
    let mut i: usize = 0;
    while i < messages.len()
        invariant
            i <= messages@.len(),
            out@ == messages@.take(i as int),
        decreases messages@.len() - i,
    {
        out.push((messages[i].0.clone(), messages[i].1));
        i += 1;
        assert(out@ =~= messages@.take(i as int));
    }
    assert(out@ =~= messages@);
    out
}

/// The same texts.
pub fn copy_texts(list: &Vec<String>) -> (out: Vec<String>)
    ensures
        texts(out@) == texts(list@),
{
    let mut out: Vec<String> = Vec::new();
    let mut i: usize = 0;
    while i < list.len()
        invariant
            i <= list@.len(),
            texts(out@) == texts(list@).take(i as int),
        decreases list@.len() - i,
    {
        let ghost before = out@;
        out.push(list[i].clone());
        i += 1;
        assert(texts(out@) =~= texts(before).push(list@[i - 1]@));
        assert(texts(out@) =~= texts(list@).take(i as int));
    }
    assert(texts(list@).take(i as int) =~= texts(list@));
    out
}

impl DiagArgValue {
    /// The same argument.
    pub fn copy(&self) -> (value: DiagArgValue)
        ensures
            value@ == self@,
    {
        match self {
            DiagArgValue::Str(s) => DiagArgValue::Str(s.clone()),
            DiagArgValue::Number(n) => DiagArgValue::Number(*n),
            DiagArgValue::StrListSepByAnd(list) => {
                DiagArgValue::StrListSepByAnd(copy_texts(list))
            },
        }
    }
}

/// The same arguments, in the same order.
fn copy_args(args: &TextMap<DiagArgValue>) -> (out: TextMap<DiagArgValue>)
    requires
        args.wf(),
    ensures
        out.wf(),
        arg_models(out@) == arg_models(args@),
{
    let mut out: TextMap<DiagArgValue> = TextMap::new();
    let mut i: usize = 0;
    let ghost want = arg_models(args@);
    proof {
        args.lemma_distinct();
    }
    while i < args.len()
        invariant
            args.wf(),
            crate::id_map::distinct_ids(args@),
            want == arg_models(args@),
            i <= args@.len(),
            out.wf(),
            arg_models(out@) == want.take(i as int),
        decreases args@.len() - i,
    {
        let entry = args.at(i);
        let ghost before = out@;
        assert(!crate::id_map::has_id(out@, entry.0@)) by {
            if crate::id_map::has_id(out@, entry.0@) {
                let k = choose|k: int| crate::id_map::id_at(out@, entry.0@, k);
                assert(arg_models(out@).len() == i);
                assert(arg_models(out@)[k].0 == want.take(i as int)[k].0);
                assert(args@[k].0 != args@[i as int].0);
            }
        }
        let mut key = String::new();
        key.append(entry.0);
        assert(key@ =~= entry.0@);
        out.insert(key, entry.1.copy());
        assert(arg_models(out@) =~= arg_models(before).push(want[i as int]));
        i += 1;
        assert(arg_models(out@) =~= want.take(i as int));
    }
    assert(want.take(i as int) =~= want);
    out
}

impl Subdiag {
    /// A note.
    pub fn note(text: String, span: MultiSpan) -> (sub: Subdiag)
        ensures
            sub@ == note_model(text@, span@),
    {
        let mut messages: Vec<(DiagMessage, Style)> = Vec::new();
        messages.push((DiagMessage::Str(text), Style::NoStyle));
        let sub = Subdiag { level: Level::Note, messages, span, hash: 0 };
        assert(sub@.messages =~= plain_message(text@));
        sub
    }

    /// The same message.
    pub fn copy(&self) -> (sub: Subdiag)
        ensures
            sub@ == self@,
    {
        Subdiag {
            level: self.level,
            messages: copy_messages(&self.messages),
            span: self.span.copy(),
            hash: self.hash,
        }
    }
}

impl DiagInner {
    pub open spec fn wf(&self) -> bool {
        self.args.wf()
    }

    /// A diagnostic that is a level and a message. `at` is the place in the compiler that makes
    /// it.
    pub fn new(
        level: Level,
        message: DiagMessage,
        at: String,
        hashes: DiagHashes,
    ) -> (diag: DiagInner)
        ensures
            diag.wf(),
            diag@ == bare_diag(level, message@, at@, hashes),
    {
        let mut messages: Vec<(DiagMessage, Style)> = Vec::new();
        messages.push((message, Style::NoStyle));
        let diag = DiagInner {
            level,
            messages,
            code: None,
            lint_id: None,
            span: MultiSpan::new(),
            children: Vec::new(),
            args: TextMap::new(),
            is_lint: None,
            rust_version: None,
            emitted_at: at,
            hashes,
        };
        assert(diag@.messages =~= seq![(message@, Style::NoStyle)]);
        assert(diag@.children =~= Seq::<SubModel>::empty());
        assert(diag@.args =~= Seq::<(Seq<char>, ArgModel)>::empty());
        assert(diag@.span.labels =~= Seq::<(Span, MessageModel)>::empty());
        diag
    }

    /// The same diagnostic.
    pub fn copy(&self) -> (diag: DiagInner)
        requires
            self.wf(),
        ensures
            diag.wf(),
            diag@ == self@,
    {
        let mut children: Vec<Subdiag> = Vec::new();
        let mut i: usize = 0;
        while i < self.children.len()
            invariant
                i <= self.children@.len(),
                children@.len() == i,
                forall|k: int| 0 <= k < i ==> (#[trigger] children@[k])@ == self.children@[k]@,
            decreases self.children@.len() - i,
        {
            children.push(self.children[i].copy());
            i += 1;
        }
        let is_lint = match &self.is_lint {
            Some(lint) => Some(
                IsLint {
                    name: lint.name.clone(),
                    has_future_breakage: lint.has_future_breakage,
                },
            ),
            None => None,
        };
        let diag = DiagInner {
            level: self.level,
            messages: copy_messages(&self.messages),
            code: self.code,
            lint_id: self.lint_id,
            span: self.span.copy(),
            children,
            args: copy_args(&self.args),
            is_lint,
            rust_version: self.rust_version,
            emitted_at: self.emitted_at.clone(),
            hashes: self.hashes,
        };
        assert(diag@.children =~= self@.children);
        diag
    }

    /// Promotes the diagnostic to an error or a bug.
    pub fn promote(&mut self, level: Level)
        requires
            old(self).wf(),
            level == Level::Error || level == Level::Bug || level == old(self)@.level,
        ensures
            final(self).wf(),
            final(self)@ == old(self)@.at_level(level),
    {
        if level == self.level {
            return;
        }
        match level {
            Level::Bug => {
                self.hashes.own = self.hashes.as_bug;
            },
            _ => {
                self.hashes.own = self.hashes.as_error;
            },
        }
        self.level = level;
    }

    pub fn is_error(&self) -> (yes: bool)
        ensures
            yes == self@.level.error(),
    {
        self.level.is_error()
    }

    pub fn is_force_warn(&self) -> (yes: bool)
        ensures
            yes == (self@.level == Level::ForceWarning),
    {
        match self.level {
            Level::ForceWarning => true,
            _ => false,
        }
    }

    pub fn has_future_breakage(&self) -> (yes: bool)
        ensures
            yes == self@.future_breakage(),
    {
        match &self.is_lint {
            Some(lint) => lint.has_future_breakage,
            None => false,
        }
    }

    /// Puts a note below the diagnostic.
    pub fn sub_note(&mut self, text: String, span: MultiSpan)
        requires
            old(self).wf(),
        ensures
            final(self).wf(),
            final(self)@ == old(self)@.with_children(
                old(self)@.children.push(note_model(text@, span@)),
            ),
    {
        let ghost before = self@;
        self.children.push(Subdiag::note(text, span));
        assert(self@.children =~= before.children.push(note_model(text@, span@)));
    }
}

/// A version is after another exactly if it has the bigger number in the first place where they
/// differ.
pub proof fn law_versions_rank_by_their_numbers(a: RustcVersion, b: RustcVersion, yes: bool)
    requires
        call_ensures(RustcVersion::is_after, (a, b), yes),
    ensures
        a.major != b.major ==> (yes <==> a.major > b.major),
        a.major == b.major && a.minor != b.minor ==> (yes <==> a.minor > b.minor),
        a.major == b.major && a.minor == b.minor ==> (yes <==> a.patch > b.patch),
{
}

/// A new diagnostic has its level, one message, and where it was made, and nothing else.
pub proof fn law_a_new_diagnostic_is_bare(
    level: Level,
    message: DiagMessage,
    at: String,
    hashes: DiagHashes,
    diag: DiagInner,
)
    requires
        call_ensures(DiagInner::new, (level, message, at, hashes), diag),
    ensures
        diag@.level == level,
        diag@.messages.len() == 1,
        diag@.messages[0].0 == message@,
        diag@.emitted_at == at@,
        diag@.hashes == hashes,
        diag@.span.primaries.len() == 0 && diag@.span.labels.len() == 0,
        diag@.children.len() == 0 && diag@.args.len() == 0,
        diag@.code is None && diag@.lint_id is None && diag@.is_lint is None,
        diag@.rust_version is None,
{
}

/// Promoting a diagnostic changes its level, and its hash to that of the new level; what it says
/// stays.
pub proof fn law_a_promoted_diagnostic_says_the_same(d: DiagModel, level: Level)
    ensures
        d.at_level(level).level == level,
        d.at_level(level).messages == d.messages,
        d.at_level(level).children == d.children,
        d.at_level(level).span == d.span,
        d.at_level(level).code == d.code,
        d.at_level(level).args == d.args,
        d.at_level(level).is_lint == d.is_lint,
        d.at_level(level).lint_id == d.lint_id,
        d.at_level(level).emitted_at == d.emitted_at,
        level == d.level ==> d.at_level(level) == d,
        level != d.level && level == Level::Bug ==> d.at_level(level).hashes.own
            == d.hashes.as_bug,
        level != d.level && level == Level::Error ==> d.at_level(level).hashes.own
            == d.hashes.as_error,
{
}

/// A note is put behind the other children, and the rest of the diagnostic stays.
pub proof fn law_a_note_comes_last(diag: &mut DiagInner, text: String, span: MultiSpan)
    requires
        call_ensures(DiagInner::sub_note, (diag, text, span), ()),
    ensures
        final(diag)@.children.len() == old(diag)@.children.len() + 1,
        final(diag)@.children.drop_last() == old(diag)@.children,
        final(diag)@.children.last().level == Level::Note,
        final(diag)@.children.last().span == span@,
        final(diag)@.children.last().messages.len() == 1,
        final(diag)@.children.last().messages[0].0 == MessageModel::Str(text@),
        final(diag)@.level == old(diag)@.level,
        final(diag)@.messages == old(diag)@.messages,
        final(diag)@.span == old(diag)@.span,
{
    assert(final(diag)@.children.drop_last() =~= old(diag)@.children);
}

/// A lint may break code in the future exactly if it says so.
pub proof fn law_only_lints_break_in_the_future(diag: &DiagInner, yes: bool)
    requires
        call_ensures(DiagInner::has_future_breakage, (diag,), yes),
    ensures
        yes <==> diag.is_lint is Some && diag.is_lint->0.has_future_breakage,
{
}

} // verus!
