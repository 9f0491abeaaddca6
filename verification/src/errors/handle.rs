//! Making diagnostics and emitting them in one go, on behalf of a thread.

use vstd::prelude::*;

use crate::error_messages::message::DiagMessage;
use crate::error_messages::message::MessageModel;
use crate::error_messages::span::MultiSpan;
use crate::error_messages::span::Span;
use crate::error_messages::span::SpanModel;
use crate::errors::dcx::after_emission;
use crate::errors::dcx::at_limit;
use crate::errors::dcx::can_fail;
use crate::errors::dcx::emittable;
use crate::errors::dcx::failed;
use crate::errors::dcx::fails;
use crate::errors::dcx::left_for_replay;
use crate::errors::dcx::limit_text;
use crate::errors::dcx::promises;
use crate::errors::dcx::room;
use crate::errors::dcx::hooked_at;
use crate::errors::dcx::with_logged_op;
use crate::errors::dcx::DcxModel;
use crate::errors::dcx::DiagCtxt;
use crate::errors::dcx::Emission;
use crate::errors::dcx::ErrorGuaranteed;
use crate::errors::dcx::EventKind;
use crate::errors::dcx::EventModel;
use crate::errors::diag::bare_diag;
use crate::errors::diag::DiagHashes;
use crate::errors::diag::DiagInner;
use crate::errors::diag::DiagModel;
use crate::errors::laws::went_wrong;
use crate::errors::level::Level;
use crate::errors::level::Style;
use crate::errors::stash::found;
use crate::errors::stash::key_id;
use crate::errors::stash::span_id;
use crate::errors::stash::taken;
use crate::errors::stash::StashKey;
use crate::errors::stash::StashOp;

verus! {

/// Who works with a context: a thread, and whether a parallel item captures what it does.
#[derive(Clone, Copy, Debug, PartialEq, Eq, Structural)]
pub struct DiagCtxtHandle {
    pub thread: u64,
    pub captured: bool,
}

/// What can be made into a diagnostic: the messages of a compiler that have a type of their own.
/// Its user says what it comes to.
pub trait Diagnostic: Sized {
    fn into_diag(self, who: DiagCtxtHandle, level: Level) -> (diag: DiagInner);
}

/// Whatever `d` comes to at this level, the context can take it.
pub open spec fn accepts_made<D: Diagnostic>(
    m: DcxModel,
    d: D,
    who: DiagCtxtHandle,
    level: Level,
) -> bool {
    forall|diag: DiagInner| #[trigger]
        call_ensures(D::into_diag, (d, who, level), diag) ==> diag.wf() && accepts(m, diag@)
}

/// `after` and `out` are what emitting something that `d` comes to at this level comes to.
pub open spec fn emits_made<D: Diagnostic>(
    before: DcxModel,
    d: D,
    who: DiagCtxtHandle,
    level: Level,
    after: DcxModel,
    out: Emission,
) -> bool {
    exists|diag: DiagInner|
        {
            &&& #[trigger] call_ensures(D::into_diag, (d, who, level), diag)
            &&& emits(before, diag@, who, after, out)
        }
}

/// A diagnostic that is a level, a message and spans, made at the place `at`.
pub open spec fn spanned_diag(
    level: Level,
    message: MessageModel,
    span: SpanModel,
    at: Seq<char>,
    hashes: DiagHashes,
) -> DiagModel {
    DiagModel { span, ..bare_diag(level, message, at, hashes) }
}

/// The context can take the diagnostic.
pub open spec fn accepts(m: DcxModel, d: DiagModel) -> bool {
    &&& emittable(d)
    &&& fails(m, d) ==> can_fail(m)
    &&& room(m, 1)
}

/// `after` and `out` are what emitting the diagnostic in `before` comes to.
pub open spec fn emits(
    before: DcxModel,
    d: DiagModel,
    who: DiagCtxtHandle,
    after: DcxModel,
    out: Emission,
) -> bool {
    &&& after == after_emission(before, d, who.thread, who.captured)
    &&& out.guar is Some == promises(before, d)
    &&& out.taints == (fails(before, d) && d.is_lint is None)
    &&& out.hooked == hooked_at(before, d)
    &&& match out.event {
        Some(event) => event.wf() && left_for_replay(before, d, who.captured) == Some(event@),
        None => left_for_replay(before, d, who.captured) is None,
    }
    &&& out.abort is Some == (fails(before, d) && at_limit(after))
    &&& out.abort matches Some(text) ==> text@ == limit_text(
        before.flags.treat_err_as_bug->0 as nat,
    )
}

/// The context after a diagnostic was taken out of those put aside.
pub open spec fn after_steal(
    m: DcxModel,
    span: Span,
    key: StashKey,
    captured: bool,
) -> DcxModel {
    let op = StashOp::Remove(key, span.spec_without_parent());
    let noted = if found(m.stash, key_id(key), span_id(span)) is Some {
        with_logged_op(m, op, captured)
    } else {
        m
    };
    DcxModel { stash: taken(noted.stash, key_id(key), span_id(span)), ..noted }
}

/// What a steal leaves for the replay.
pub open spec fn steal_left(
    m: DcxModel,
    span: Span,
    key: StashKey,
    captured: bool,
    event: Option<EventKind>,
) -> bool {
    &&& event is Some == (found(m.stash, key_id(key), span_id(span)) is Some && captured)
    &&& event matches Some(event) ==> event.wf() && event@ == EventModel::Stash(
        StashOp::Remove(key, span.spec_without_parent()),
    )
}

impl DiagCtxtHandle {
    /// Emits the diagnostic.
    pub fn emit(self, dcx: &mut DiagCtxt, diag: DiagInner) -> (out: Emission)
        requires
            old(dcx).wf(),
            diag.wf(),
            accepts(old(dcx)@, diag@),
        ensures
            final(dcx).wf(),
            emits(old(dcx)@, diag@, self, final(dcx)@, out),
    {
        dcx.emit_diagnostic(diag, self.thread, self.captured)
    }

    /// A bug in the compiler.
    pub fn struct_bug(
        self,
        text: String,
        at: String,
        hashes: DiagHashes,
    ) -> (diag: DiagInner)
        ensures
            diag.wf(),
            diag@ == bare_diag(Level::Bug, MessageModel::Str(text@), at@, hashes),
    {
        DiagInner::new(Level::Bug, DiagMessage::Str(text), at, hashes)
    }

    /// Emits a bug; the compiler stops.
    pub fn bug(
        self,
        dcx: &mut DiagCtxt,
        text: String,
        at: String,
        hashes: DiagHashes,
    ) -> (out: Emission)
        requires
            old(dcx).wf(),
            accepts(old(dcx)@, bare_diag(Level::Bug, MessageModel::Str(text@), at@, hashes)),
        ensures
            final(dcx).wf(),
            emits(
                old(dcx)@,
                bare_diag(Level::Bug, MessageModel::Str(text@), at@, hashes),
                self,
                final(dcx)@,
                out,
            ),
            out.guar is Some,
    {
        let diag = self.struct_bug(text, at, hashes);
        self.emit(dcx, diag)
    }

    pub fn struct_span_bug(
        self,
        span: MultiSpan,
        text: String,
        at: String,
        hashes: DiagHashes,
    ) -> (diag: DiagInner)
        ensures
            diag.wf(),
            diag@ == spanned_diag(Level::Bug, MessageModel::Str(text@), span@, at@, hashes),
    {
        let mut diag = self.struct_bug(text, at, hashes);
        diag.span = span;
        diag
    }

    /// Emits a bug about spans; the compiler stops.
    pub fn span_bug(
        self,
        dcx: &mut DiagCtxt,
        span: MultiSpan,
        text: String,
        at: String,
        hashes: DiagHashes,
    ) -> (out: Emission)
        requires
            old(dcx).wf(),
            accepts(
                old(dcx)@,
                spanned_diag(Level::Bug, MessageModel::Str(text@), span@, at@, hashes),
            ),
        ensures
            final(dcx).wf(),
            emits(
                old(dcx)@,
                spanned_diag(Level::Bug, MessageModel::Str(text@), span@, at@, hashes),
                self,
                final(dcx)@,
                out,
            ),
            out.guar is Some,
    {
        let diag = self.struct_span_bug(span, text, at, hashes);
        self.emit(dcx, diag)
    }

    /// An error that ends the compilation.
    pub fn struct_fatal(
        self,
        msg: DiagMessage,
        at: String,
        hashes: DiagHashes,
    ) -> (diag: DiagInner)
        ensures
            diag.wf(),
            diag@ == bare_diag(Level::Fatal, msg@, at@, hashes),
    {
        DiagInner::new(Level::Fatal, msg, at, hashes)
    }

    /// Emits an error that ends the compilation.
    pub fn fatal(
        self,
        dcx: &mut DiagCtxt,
        msg: DiagMessage,
        at: String,
        hashes: DiagHashes,
    ) -> (out: Emission)
        requires
            old(dcx).wf(),
            accepts(old(dcx)@, bare_diag(Level::Fatal, msg@, at@, hashes)),
        ensures
            final(dcx).wf(),
            emits(
                old(dcx)@,
                bare_diag(Level::Fatal, msg@, at@, hashes),
                self,
                final(dcx)@,
                out,
            ),
            out.guar is Some,
    {
        let diag = self.struct_fatal(msg, at, hashes);
        self.emit(dcx, diag)
    }

    pub fn struct_span_fatal(
        self,
        span: MultiSpan,
        msg: DiagMessage,
        at: String,
        hashes: DiagHashes,
    ) -> (diag: DiagInner)
        ensures
            diag.wf(),
            diag@ == spanned_diag(Level::Fatal, msg@, span@, at@, hashes),
    {
        let mut diag = self.struct_fatal(msg, at, hashes);
        diag.span = span;
        diag
    }

    /// Emits an error that ends the compilation, about spans.
    pub fn span_fatal(
        self,
        dcx: &mut DiagCtxt,
        span: MultiSpan,
        msg: DiagMessage,
        at: String,
        hashes: DiagHashes,
    ) -> (out: Emission)
        requires
            old(dcx).wf(),
            accepts(
                old(dcx)@,
                spanned_diag(Level::Fatal, msg@, span@, at@, hashes),
            ),
        ensures
            final(dcx).wf(),
            emits(
                old(dcx)@,
                spanned_diag(Level::Fatal, msg@, span@, at@, hashes),
                self,
                final(dcx)@,
                out,
            ),
            out.guar is Some,
    {
        let diag = self.struct_span_fatal(span, msg, at, hashes);
        self.emit(dcx, diag)
    }

    /// An error.
    pub fn struct_err(
        self,
        msg: DiagMessage,
        at: String,
        hashes: DiagHashes,
    ) -> (diag: DiagInner)
        ensures
            diag.wf(),
            diag@ == bare_diag(Level::Error, msg@, at@, hashes),
    {
        DiagInner::new(Level::Error, msg, at, hashes)
    }

    /// Emits an error.
    pub fn err(
        self,
        dcx: &mut DiagCtxt,
        msg: DiagMessage,
        at: String,
        hashes: DiagHashes,
    ) -> (out: Emission)
        requires
            old(dcx).wf(),
            accepts(old(dcx)@, bare_diag(Level::Error, msg@, at@, hashes)),
        ensures
            final(dcx).wf(),
            emits(
                old(dcx)@,
                bare_diag(Level::Error, msg@, at@, hashes),
                self,
                final(dcx)@,
                out,
            ),
            out.guar is Some,
    {
        let diag = self.struct_err(msg, at, hashes);
        self.emit(dcx, diag)
    }

    pub fn struct_span_err(
        self,
        span: MultiSpan,
        msg: DiagMessage,
        at: String,
        hashes: DiagHashes,
    ) -> (diag: DiagInner)
        ensures
            diag.wf(),
            diag@ == spanned_diag(Level::Error, msg@, span@, at@, hashes),
    {
        let mut diag = self.struct_err(msg, at, hashes);
        diag.span = span;
        diag
    }

    /// Emits an error, about spans.
    pub fn span_err(
        self,
        dcx: &mut DiagCtxt,
        span: MultiSpan,
        msg: DiagMessage,
        at: String,
        hashes: DiagHashes,
    ) -> (out: Emission)
        requires
            old(dcx).wf(),
            accepts(
                old(dcx)@,
                spanned_diag(Level::Error, msg@, span@, at@, hashes),
            ),
        ensures
            final(dcx).wf(),
            emits(
                old(dcx)@,
                spanned_diag(Level::Error, msg@, span@, at@, hashes),
                self,
                final(dcx)@,
                out,
            ),
            out.guar is Some,
    {
        let diag = self.struct_span_err(span, msg, at, hashes);
        self.emit(dcx, diag)
    }

    /// A warning.
    pub fn struct_warn(
        self,
        msg: DiagMessage,
        at: String,
        hashes: DiagHashes,
    ) -> (diag: DiagInner)
        ensures
            diag.wf(),
            diag@ == bare_diag(Level::Warning, msg@, at@, hashes),
    {
        DiagInner::new(Level::Warning, msg, at, hashes)
    }

    /// Emits a warning.
    pub fn warn(
        self,
        dcx: &mut DiagCtxt,
        msg: DiagMessage,
        at: String,
        hashes: DiagHashes,
    ) -> (out: Emission)
        requires
            old(dcx).wf(),
            accepts(old(dcx)@, bare_diag(Level::Warning, msg@, at@, hashes)),
        ensures
            final(dcx).wf(),
            emits(
                old(dcx)@,
                bare_diag(Level::Warning, msg@, at@, hashes),
                self,
                final(dcx)@,
                out,
            ),
    {
        let diag = self.struct_warn(msg, at, hashes);
        self.emit(dcx, diag)
    }

    pub fn struct_span_warn(
        self,
        span: MultiSpan,
        msg: DiagMessage,
        at: String,
        hashes: DiagHashes,
    ) -> (diag: DiagInner)
        ensures
            diag.wf(),
            diag@ == spanned_diag(Level::Warning, msg@, span@, at@, hashes),
    {
        let mut diag = self.struct_warn(msg, at, hashes);
        diag.span = span;
        diag
    }

    /// Emits a warning, about spans.
    pub fn span_warn(
        self,
        dcx: &mut DiagCtxt,
        span: MultiSpan,
        msg: DiagMessage,
        at: String,
        hashes: DiagHashes,
    ) -> (out: Emission)
        requires
            old(dcx).wf(),
            accepts(
                old(dcx)@,
                spanned_diag(Level::Warning, msg@, span@, at@, hashes),
            ),
        ensures
            final(dcx).wf(),
            emits(
                old(dcx)@,
                spanned_diag(Level::Warning, msg@, span@, at@, hashes),
                self,
                final(dcx)@,
                out,
            ),
    {
        let diag = self.struct_span_warn(span, msg, at, hashes);
        self.emit(dcx, diag)
    }

    /// A note.
    pub fn struct_note(
        self,
        msg: DiagMessage,
        at: String,
        hashes: DiagHashes,
    ) -> (diag: DiagInner)
        ensures
            diag.wf(),
            diag@ == bare_diag(Level::Note, msg@, at@, hashes),
    {
        DiagInner::new(Level::Note, msg, at, hashes)
    }

    /// Emits a note.
    pub fn note(
        self,
        dcx: &mut DiagCtxt,
        msg: DiagMessage,
        at: String,
        hashes: DiagHashes,
    ) -> (out: Emission)
        requires
            old(dcx).wf(),
            accepts(old(dcx)@, bare_diag(Level::Note, msg@, at@, hashes)),
        ensures
            final(dcx).wf(),
            emits(
                old(dcx)@,
                bare_diag(Level::Note, msg@, at@, hashes),
                self,
                final(dcx)@,
                out,
            ),
    {
        let diag = self.struct_note(msg, at, hashes);
        self.emit(dcx, diag)
    }

    pub fn struct_span_note(
        self,
        span: MultiSpan,
        msg: DiagMessage,
        at: String,
        hashes: DiagHashes,
    ) -> (diag: DiagInner)
        ensures
            diag.wf(),
            diag@ == spanned_diag(Level::Note, msg@, span@, at@, hashes),
    {
        let mut diag = self.struct_note(msg, at, hashes);
        diag.span = span;
        diag
    }

    /// Emits a note, about spans.
    pub fn span_note(
        self,
        dcx: &mut DiagCtxt,
        span: MultiSpan,
        msg: DiagMessage,
        at: String,
        hashes: DiagHashes,
    ) -> (out: Emission)
        requires
            old(dcx).wf(),
            accepts(
                old(dcx)@,
                spanned_diag(Level::Note, msg@, span@, at@, hashes),
            ),
        ensures
            final(dcx).wf(),
            emits(
                old(dcx)@,
                spanned_diag(Level::Note, msg@, span@, at@, hashes),
                self,
                final(dcx)@,
                out,
            ),
    {
        let diag = self.struct_span_note(span, msg, at, hashes);
        self.emit(dcx, diag)
    }

    /// Sees to it that an error is reported, by this or by another diagnostic.
    pub fn delayed_bug(
        self,
        dcx: &mut DiagCtxt,
        text: String,
        at: String,
        hashes: DiagHashes,
    ) -> (out: Emission)
        requires
            old(dcx).wf(),
            accepts(old(dcx)@, bare_diag(Level::DelayedBug, MessageModel::Str(text@), at@, hashes)),
        ensures
            final(dcx).wf(),
            emits(
                old(dcx)@,
                bare_diag(Level::DelayedBug, MessageModel::Str(text@), at@, hashes),
                self,
                final(dcx)@,
                out,
            ),
            out.guar is Some,
    {
        let diag = DiagInner::new(Level::DelayedBug, DiagMessage::Str(text), at, hashes);
        self.emit(dcx, diag)
    }

    /// As `delayed_bug`, about spans.
    pub fn span_delayed_bug(
        self,
        dcx: &mut DiagCtxt,
        span: MultiSpan,
        text: String,
        at: String,
        hashes: DiagHashes,
    ) -> (out: Emission)
        requires
            old(dcx).wf(),
            accepts(
                old(dcx)@,
                spanned_diag(Level::DelayedBug, MessageModel::Str(text@), span@, at@, hashes),
            ),
        ensures
            final(dcx).wf(),
            emits(
                old(dcx)@,
                spanned_diag(Level::DelayedBug, MessageModel::Str(text@), span@, at@, hashes),
                self,
                final(dcx)@,
                out,
            ),
            out.guar is Some,
    {
        let mut diag = DiagInner::new(Level::DelayedBug, DiagMessage::Str(text), at, hashes);
        diag.span = span;
        self.emit(dcx, diag)
    }

    /// A help.
    pub fn struct_help(
        self,
        msg: DiagMessage,
        at: String,
        hashes: DiagHashes,
    ) -> (diag: DiagInner)
        ensures
            diag.wf(),
            diag@ == bare_diag(Level::Help, msg@, at@, hashes),
    {
        DiagInner::new(Level::Help, msg, at, hashes)
    }

    /// A note for when compilation has failed.
    pub fn struct_failure_note(
        self,
        msg: DiagMessage,
        at: String,
        hashes: DiagHashes,
    ) -> (diag: DiagInner)
        ensures
            diag.wf(),
            diag@ == bare_diag(Level::FailureNote, msg@, at@, hashes),
    {
        DiagInner::new(Level::FailureNote, msg, at, hashes)
    }

    /// A lint that is allowed.
    pub fn struct_allow(
        self,
        msg: DiagMessage,
        at: String,
        hashes: DiagHashes,
    ) -> (diag: DiagInner)
        ensures
            diag.wf(),
            diag@ == bare_diag(Level::Allow, msg@, at@, hashes),
    {
        DiagInner::new(Level::Allow, msg, at, hashes)
    }

    /// A lint that the expectation `id` silences.
    pub fn struct_expect(
        self,
        msg: DiagMessage,
        id: u128,
        at: String,
        hashes: DiagHashes,
    ) -> (diag: DiagInner)
        ensures
            diag.wf(),
            diag@ == (DiagModel {
                lint_id: Some(id),
                ..bare_diag(Level::Expect, msg@, at@, hashes)
            }),
    {
        let mut diag = DiagInner::new(Level::Expect, msg, at, hashes);
        diag.lint_id = Some(id);
        diag
    }

    /// What `d` comes to at this level, emitted.
    fn emit_made<D: Diagnostic>(self, dcx: &mut DiagCtxt, d: D, level: Level) -> (out: Emission)
        requires
            old(dcx).wf(),
            accepts_made(old(dcx)@, d, self, level),
        ensures
            final(dcx).wf(),
            emits_made(old(dcx)@, d, self, level, final(dcx)@, out),
    {
        let diag = d.into_diag(self, level);
        let ghost made = diag;
        let out = self.emit(dcx, diag);
        assert(call_ensures(D::into_diag, (d, self, level), made));
        out
    }

    /// A bug, of a type of its own.
    pub fn create_bug<D: Diagnostic>(self, bug: D) -> (diag: DiagInner)
        ensures
            call_ensures(D::into_diag, (bug, self, Level::Bug), diag),
    {
        bug.into_diag(self, Level::Bug)
    }

    pub fn emit_bug<D: Diagnostic>(self, dcx: &mut DiagCtxt, bug: D) -> (out: Emission)
        requires
            old(dcx).wf(),
            accepts_made(old(dcx)@, bug, self, Level::Bug),
        ensures
            final(dcx).wf(),
            emits_made(old(dcx)@, bug, self, Level::Bug, final(dcx)@, out),
    {
        self.emit_made(dcx, bug, Level::Bug)
    }

    /// An error that ends the compilation, of a type of its own.
    pub fn create_fatal<D: Diagnostic>(self, fatal: D) -> (diag: DiagInner)
        ensures
            call_ensures(D::into_diag, (fatal, self, Level::Fatal), diag),
    {
        fatal.into_diag(self, Level::Fatal)
    }

    pub fn emit_fatal<D: Diagnostic>(self, dcx: &mut DiagCtxt, fatal: D) -> (out: Emission)
        requires
            old(dcx).wf(),
            accepts_made(old(dcx)@, fatal, self, Level::Fatal),
        ensures
            final(dcx).wf(),
            emits_made(old(dcx)@, fatal, self, Level::Fatal, final(dcx)@, out),
    {
        self.emit_made(dcx, fatal, Level::Fatal)
    }

    /// An error after which the caller ends the compilation, of a type of its own.
    pub fn create_almost_fatal<D: Diagnostic>(self, fatal: D) -> (diag: DiagInner)
        ensures
            call_ensures(D::into_diag, (fatal, self, Level::Fatal), diag),
    {
        fatal.into_diag(self, Level::Fatal)
    }

    pub fn emit_almost_fatal<D: Diagnostic>(self, dcx: &mut DiagCtxt, fatal: D) -> (out: Emission)
        requires
            old(dcx).wf(),
            accepts_made(old(dcx)@, fatal, self, Level::Fatal),
        ensures
            final(dcx).wf(),
            emits_made(old(dcx)@, fatal, self, Level::Fatal, final(dcx)@, out),
    {
        self.emit_made(dcx, fatal, Level::Fatal)
    }

    /// An error, of a type of its own.
    pub fn create_err<D: Diagnostic>(self, err: D) -> (diag: DiagInner)
        ensures
            call_ensures(D::into_diag, (err, self, Level::Error), diag),
    {
        err.into_diag(self, Level::Error)
    }

    pub fn emit_err<D: Diagnostic>(self, dcx: &mut DiagCtxt, err: D) -> (out: Emission)
        requires
            old(dcx).wf(),
            accepts_made(old(dcx)@, err, self, Level::Error),
        ensures
            final(dcx).wf(),
            emits_made(old(dcx)@, err, self, Level::Error, final(dcx)@, out),
    {
        self.emit_made(dcx, err, Level::Error)
    }

    /// A warning, of a type of its own.
    pub fn create_warn<D: Diagnostic>(self, warning: D) -> (diag: DiagInner)
        ensures
            call_ensures(D::into_diag, (warning, self, Level::Warning), diag),
    {
        warning.into_diag(self, Level::Warning)
    }

    pub fn emit_warn<D: Diagnostic>(self, dcx: &mut DiagCtxt, warning: D) -> (out: Emission)
        requires
            old(dcx).wf(),
            accepts_made(old(dcx)@, warning, self, Level::Warning),
        ensures
            final(dcx).wf(),
            emits_made(old(dcx)@, warning, self, Level::Warning, final(dcx)@, out),
    {
        self.emit_made(dcx, warning, Level::Warning)
    }

    /// A note, of a type of its own.
    pub fn create_note<D: Diagnostic>(self, note: D) -> (diag: DiagInner)
        ensures
            call_ensures(D::into_diag, (note, self, Level::Note), diag),
    {
        note.into_diag(self, Level::Note)
    }

    pub fn emit_note<D: Diagnostic>(self, dcx: &mut DiagCtxt, note: D) -> (out: Emission)
        requires
            old(dcx).wf(),
            accepts_made(old(dcx)@, note, self, Level::Note),
        ensures
            final(dcx).wf(),
            emits_made(old(dcx)@, note, self, Level::Note, final(dcx)@, out),
    {
        self.emit_made(dcx, note, Level::Note)
    }

    /// Whether the compilation ends here: there were errors.
    pub fn abort_if_errors(self, dcx: &DiagCtxt) -> (guar: Option<ErrorGuaranteed>)
        requires
            dcx.wf(),
        ensures
            guar is Some == failed(dcx@),
    {
        dcx.has_errors()
    }

    /// Takes a diagnostic that is no error out of those put aside.
    pub fn steal_non_err(self, dcx: &mut DiagCtxt, span: Span, key: StashKey) -> (out: (
        Option<DiagInner>,
        Option<EventKind>,
    ))
        requires
            old(dcx).wf(),
            found(old(dcx)@.stash, key_id(key), span_id(span)) matches Some(s) ==> {
                !s.diag@.level.error() && s.guar is None
            },
        ensures
            final(dcx).wf(),
            final(dcx)@ == after_steal(old(dcx)@, span, key, self.captured),
            steal_left(old(dcx)@, span, key, self.captured, out.1),
            out.0 == (match found(old(dcx)@.stash, key_id(key), span_id(span)) {
                Some(s) => Some(s.diag),
                None => None,
            }),
    {
        let (stolen, event) = dcx.steal(span, key, self.captured);
        match stolen {
            Some(s) => (Some(s.diag), event),
            None => (None, event),
        }
    }

    /// Takes an error out of those put aside, changes it and emits it. Nothing is emitted if there
    /// is none.
    pub fn try_steal_modify_and_emit_err<F: Fn(DiagInner) -> DiagInner>(
        self,
        dcx: &mut DiagCtxt,
        span: Span,
        key: StashKey,
        modify_err: F,
    ) -> (out: (Option<Emission>, Option<EventKind>))
        requires
            old(dcx).wf(),
            found(old(dcx)@.stash, key_id(key), span_id(span)) matches Some(s) ==> {
                &&& s.diag@.level == Level::Error
                &&& s.guar is Some
                &&& call_requires(modify_err, (s.diag,))
                &&& forall|d: DiagInner| #[trigger]
                    call_ensures(modify_err, (s.diag,), d) ==> d.wf() && d@.level == Level::Error
                        && accepts(after_steal(old(dcx)@, span, key, self.captured), d@)
            },
        ensures
            final(dcx).wf(),
            steal_left(old(dcx)@, span, key, self.captured, out.1),
            match found(old(dcx)@.stash, key_id(key), span_id(span)) {
                Some(s) => out.0 is Some && exists|d: DiagInner|
                    {
                        &&& #[trigger] call_ensures(modify_err, (s.diag,), d)
                        &&& emits(
                            after_steal(old(dcx)@, span, key, self.captured),
                            d@,
                            self,
                            final(dcx)@,
                            out.0->0,
                        )
                    },
                None => out.0 is None && final(dcx)@ == after_steal(
                    old(dcx)@,
                    span,
                    key,
                    self.captured,
                ),
            },
    {
        let (stolen, event) = dcx.steal(span, key, self.captured);
        match stolen {
            Some(s) => {
                let err = modify_err(s.diag);
                let emission = self.emit(dcx, err);
                (Some(emission), event)
            },
            None => (None, event),
        }
    }

    /// Drops an error from those put aside, if there is one, and emits `new_err` in its place.
    pub fn try_steal_replace_and_emit_err(
        self,
        dcx: &mut DiagCtxt,
        span: Span,
        key: StashKey,
        new_err: DiagInner,
    ) -> (out: (Emission, Option<EventKind>))
        requires
            old(dcx).wf(),
            new_err.wf(),
            accepts(after_steal(old(dcx)@, span, key, self.captured), new_err@),
            found(old(dcx)@.stash, key_id(key), span_id(span)) matches Some(s) ==> {
                s.diag@.level == Level::Error && s.guar is Some
            },
        ensures
            final(dcx).wf(),
            steal_left(old(dcx)@, span, key, self.captured, out.1),
            emits(
                after_steal(old(dcx)@, span, key, self.captured),
                new_err@,
                self,
                final(dcx)@,
                out.0,
            ),
    {
        let (_, event) = dcx.steal(span, key, self.captured);
        let emission = self.emit(dcx, new_err);
        (emission, event)
    }
}

/// Each kind of diagnostic has its level, its message and no span.
pub proof fn law_each_kind_has_its_level(
    who: DiagCtxtHandle,
    msg: DiagMessage,
    text: String,
    at: String,
    hashes: DiagHashes,
    bug: DiagInner,
    fatal: DiagInner,
    err: DiagInner,
    warn: DiagInner,
    note: DiagInner,
    help: DiagInner,
    failure_note: DiagInner,
    allow: DiagInner,
)
    requires
        call_ensures(DiagCtxtHandle::struct_bug, (who, text, at, hashes), bug),
        call_ensures(DiagCtxtHandle::struct_fatal, (who, msg, at, hashes), fatal),
        call_ensures(DiagCtxtHandle::struct_err, (who, msg, at, hashes), err),
        call_ensures(DiagCtxtHandle::struct_warn, (who, msg, at, hashes), warn),
        call_ensures(DiagCtxtHandle::struct_note, (who, msg, at, hashes), note),
        call_ensures(DiagCtxtHandle::struct_help, (who, msg, at, hashes), help),
        call_ensures(DiagCtxtHandle::struct_failure_note, (who, msg, at, hashes), failure_note),
        call_ensures(DiagCtxtHandle::struct_allow, (who, msg, at, hashes), allow),
    ensures
        bug@.level == Level::Bug && bug@.messages == seq![
            (MessageModel::Str(text@), Style::NoStyle),
        ],
        fatal@.level == Level::Fatal && fatal@.messages == seq![(msg@, Style::NoStyle)],
        err@.level == Level::Error && err@.messages == seq![(msg@, Style::NoStyle)],
        warn@.level == Level::Warning && warn@.messages == seq![(msg@, Style::NoStyle)],
        note@.level == Level::Note && note@.messages == seq![(msg@, Style::NoStyle)],
        help@.level == Level::Help && help@.messages == seq![(msg@, Style::NoStyle)],
        failure_note@.level == Level::FailureNote && failure_note@.messages == seq![(msg@, Style::NoStyle)],
        allow@.level == Level::Allow && allow@.messages == seq![(msg@, Style::NoStyle)],
        bug@.span.primaries.len() == 0,
        err@.span.primaries.len() == 0,
        warn@.span.primaries.len() == 0,
        note@.span.primaries.len() == 0,
{
}

/// Each kind of diagnostic about spans has its level, its message and the spans.
pub proof fn law_each_kind_about_spans_has_its_level(
    who: DiagCtxtHandle,
    span: MultiSpan,
    msg: DiagMessage,
    text: String,
    at: String,
    hashes: DiagHashes,
    bug: DiagInner,
    fatal: DiagInner,
    err: DiagInner,
    warn: DiagInner,
    note: DiagInner,
)
    requires
        call_ensures(DiagCtxtHandle::struct_span_bug, (who, span, text, at, hashes), bug),
        call_ensures(DiagCtxtHandle::struct_span_fatal, (who, span, msg, at, hashes), fatal),
        call_ensures(DiagCtxtHandle::struct_span_err, (who, span, msg, at, hashes), err),
        call_ensures(DiagCtxtHandle::struct_span_warn, (who, span, msg, at, hashes), warn),
        call_ensures(DiagCtxtHandle::struct_span_note, (who, span, msg, at, hashes), note),
    ensures
        bug@.level == Level::Bug && bug@.span == span@,
        bug@.messages == seq![(MessageModel::Str(text@), Style::NoStyle)],
        fatal@.level == Level::Fatal && fatal@.span == span@,
        fatal@.messages == seq![(msg@, Style::NoStyle)],
        err@.level == Level::Error && err@.span == span@,
        err@.messages == seq![(msg@, Style::NoStyle)],
        warn@.level == Level::Warning && warn@.span == span@,
        warn@.messages == seq![(msg@, Style::NoStyle)],
        note@.level == Level::Note && note@.span == span@,
        note@.messages == seq![(msg@, Style::NoStyle)],
{
}

/// A diagnostic that is taken out of those put aside is gone from there, and nothing is counted or
/// shown for it; what is not there cannot be taken, and then nothing changes.
pub proof fn law_what_is_taken_is_gone(
    who: DiagCtxtHandle,
    dcx: &mut DiagCtxt,
    span: Span,
    key: StashKey,
    out: (Option<DiagInner>, Option<EventKind>),
)
    requires
        call_ensures(DiagCtxtHandle::steal_non_err, (who, dcx, span, key), out),
    ensures
        out.0 is Some <==> found(old(dcx)@.stash, key_id(key), span_id(span)) is Some,
        out.0 is Some ==> out.0 == Some(
            found(old(dcx)@.stash, key_id(key), span_id(span))->0.diag,
        ),
        out.1 is Some <==> out.0 is Some && who.captured,
        final(dcx)@.stash == taken(old(dcx)@.stash, key_id(key), span_id(span)),
        final(dcx)@.errs == old(dcx)@.errs,
        final(dcx)@.lint_errs == old(dcx)@.lint_errs,
        out.0 is None ==> final(dcx)@ == (DcxModel {
            stash: taken(old(dcx)@.stash, key_id(key), span_id(span)),
            ..old(dcx)@
        }),
{
}

/// What is taken out of those put aside in a captured item is to be taken again at the replay.
pub proof fn law_a_taken_diagnostic_is_taken_again(
    who: DiagCtxtHandle,
    dcx: &mut DiagCtxt,
    span: Span,
    key: StashKey,
    out: (Option<DiagInner>, Option<EventKind>),
)
    requires
        call_ensures(DiagCtxtHandle::steal_non_err, (who, dcx, span, key), out),
        out.1 is Some,
    ensures
        out.1->0@ == EventModel::Stash(
            StashOp::Remove(key, Span { parent: None, ..span }),
        ),
{
}

/// The compilation ends exactly if something went wrong.
pub proof fn law_errors_end_the_compilation(
    who: DiagCtxtHandle,
    dcx: &DiagCtxt,
    guar: Option<ErrorGuaranteed>,
)
    requires
        call_ensures(DiagCtxtHandle::abort_if_errors, (who, dcx), guar),
    ensures
        guar is Some <==> went_wrong(dcx@),
{
}

} // verus!
