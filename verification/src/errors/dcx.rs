//! The diagnostic context: what becomes of each diagnostic that is emitted.
//!
//! Emission has two halves. What running code can observe about its own diagnostics (that there
//! was an error, how many) is decided at once. What depends on what was printed before (duplicates,
//! notes that are shown once, the printed counts) is decided by printing, which happens in serial
//! order: at once outside every parallel item, and when the item is replayed inside one.

use vstd::prelude::*;
use vstd::string::StringExecFns;

use crate::errors::codes::ErrCode;
use crate::errors::diag::bare_diag;
use crate::errors::diag::diag_models;
use crate::errors::diag::no_span;
use crate::errors::diag::one_span;
use crate::errors::diag::note_model;
use crate::errors::diag::sub_models;
use crate::errors::diag::DiagHashes;
use crate::errors::diag::DiagInner;
use crate::errors::diag::DiagModel;
use crate::errors::diag::RustcVersion;
use crate::errors::diag::SubModel;
use crate::errors::diag::Subdiag;
use crate::error_messages::message::DiagMessage;
use crate::error_messages::message::MessageModel;
use crate::error_messages::span::MultiSpan;
use crate::error_messages::span::Span;
use crate::errors::level::Level;
use crate::errors::stash::all_values;
use crate::errors::stash::found;
use crate::errors::stash::found_in_group;
use crate::errors::stash::found_in_order;
use crate::errors::stash::key_id;
use crate::errors::stash::put;
use crate::errors::stash::reshaped_all;
use crate::errors::stash::shape_of;
use crate::errors::stash::span_id;
use crate::errors::stash::taken;
use crate::errors::stash::values_of;
use crate::errors::stash::Groups;
use crate::errors::stash::Stash;
use crate::errors::stash::StashKey;
use crate::errors::stash::StashOp;
use crate::errors::stash::StashReplay;
use crate::fx::fx_hash_set;
use crate::fx::hash_set_insert;
use crate::fx::members;
use crate::fx::FxHashSet;
use crate::id_map::has_id;
use crate::id_map::id_place;
use crate::id_map::with_id;
use crate::id_map::IdMap;
use crate::text::decimal;
use crate::text::decimal_text;

verus! {

#[derive(Clone, Copy)]
pub struct DiagCtxtFlags {
    /// If false, warnings are suppressed.
    pub can_emit_warnings: bool,
    /// If there is one, the error of that number is a bug.
    pub treat_err_as_bug: Option<usize>,
    /// Whether delayed bugs are errors at once.
    pub eagerly_emit_delayed_bugs: bool,
    /// Whether to show where a macro was expanded.
    pub macro_backtrace: bool,
    /// Whether identical diagnostics are reported only once.
    pub deduplicate_diagnostics: bool,
    /// Whether to show where in the compiler a diagnostic was made.
    pub track_diagnostics: bool,
}

/// The proof that an error was or will be reported.
#[derive(Clone, Copy, PartialEq, Eq, Structural, Debug)]
pub struct ErrorGuaranteed;

/// A diagnostic that was put aside.
pub struct Stashed {
    pub diag: DiagInner,
    /// Whether it was counted as an error already.
    pub guar: Option<ErrorGuaranteed>,
    /// The thread that put it aside.
    pub thread: u64,
}

/// What a parallel item did to a context that must happen in serial order.
pub enum EventKind {
    /// A diagnostic that is to be printed.
    Print(DiagInner),
    /// A delayed bug.
    DelayedBug(DiagInner),
    /// A change to what is put aside. It happened already; only its order is to be kept.
    Stash(StashOp),
}

pub enum EventModel {
    Print(DiagModel),
    DelayedBug(DiagModel),
    Stash(StashOp),
}

impl View for EventKind {
    type V = EventModel;

    open spec fn view(&self) -> EventModel {
        match self {
            EventKind::Print(diag) => EventModel::Print(diag@),
            EventKind::DelayedBug(diag) => EventModel::DelayedBug(diag@),
            EventKind::Stash(op) => EventModel::Stash(*op),
        }
    }
}

impl EventKind {
    pub open spec fn wf(&self) -> bool {
        match self {
            EventKind::Print(diag) => diag.wf(),
            EventKind::DelayedBug(diag) => diag.wf() && diag@.level == Level::DelayedBug
                && emittable(diag@),
            EventKind::Stash(_) => true,
        }
    }
}

/// What an emission comes to, besides what it does to the context.
pub struct Emission {
    /// The proof that an error was or will be reported, if there is one.
    pub guar: Option<ErrorGuaranteed>,
    /// Whether the code that emitted it is tainted.
    pub taints: bool,
    /// If the diagnostic goes through the hook that keeps track of diagnostics: at which level.
    pub hooked: Option<Level>,
    /// What is left for the replay of the item that the emission was made in.
    pub event: Option<EventKind>,
    /// Why the compiler is to stop at once, if it is.
    pub abort: Option<String>,
}

/// What the log of the stash holds.
pub struct ReplayModel {
    pub base: Groups<()>,
    pub log: Seq<StashOp>,
}

/// What a context knows.
pub struct DcxModel {
    pub flags: DiagCtxtFlags,
    /// For each error that is not a lint, the thread that emitted it.
    pub errs: Seq<u64>,
    /// For each lint error, the thread that emitted it.
    pub lint_errs: Seq<u64>,
    pub delayed: Seq<DiagModel>,
    /// How many errors and warnings were printed.
    pub shown_errs: nat,
    pub shown_warns: nat,
    /// What was printed.
    pub output: Seq<DiagModel>,
    pub must_produce_diag: bool,
    pub has_printed: bool,
    pub suppressed_expected_diag: bool,
    pub taught: Set<u128>,
    /// The codes that were emitted, in the order of their first emission.
    pub codes: Seq<(u128, ())>,
    /// The hashes of what was printed.
    pub emitted: Set<u128>,
    pub depth_limit_shown: bool,
    pub stash: Groups<Stashed>,
    pub replay: Option<ReplayModel>,
    pub created: u64,
    pub future_breakage: Seq<DiagModel>,
    /// The expectations that were fulfilled, in the order in which they were.
    pub fulfilled: Seq<(u128, ())>,
    pub ice_file: Option<Seq<char>>,
    pub msrv: Option<RustcVersion>,
}

/// The lint of which only the first occurrence is printed.
pub open spec fn depth_limit_lint() -> Seq<char> {
    "recursion_depth_exceeding_limit"@
}

/// An ASCII letter in lower case, and any other character as it is.
pub open spec fn ascii_lower(c: char) -> char {
    if 'A' <= c && c <= 'Z' {
        (c as u32 + 32) as char
    } else {
        c
    }
}

fn to_ascii_lower(c: char) -> (lower: char)
    ensures
        lower == ascii_lower(c),
{
    if 'A' <= c && c <= 'Z' {
        ((c as u8) + 32) as char
    } else {
        c
    }
}

/// The texts are the same but for the case of ASCII letters.
pub open spec fn same_ignoring_case(a: Seq<char>, b: Seq<char>) -> bool {
    a.len() == b.len() && forall|i: int|
        0 <= i < a.len() ==> ascii_lower(#[trigger] a[i]) == ascii_lower(b[i])
}

pub(crate) fn is_same_ignoring_case(a: &str, b: &str) -> (same: bool)
    ensures
        same == same_ignoring_case(a@, b@),
{
    let x = crate::text::to_chars(a);
    let y = crate::text::to_chars(b);
    if x.len() != y.len() {
        return false;
    }
    let mut i: usize = 0;
    while i < x.len()
        invariant
            x@ == a@,
            y@ == b@,
            i <= x@.len(),
            x@.len() == y@.len(),
            forall|k: int| 0 <= k < i ==> ascii_lower(#[trigger] x@[k]) == ascii_lower(y@[k]),
        decreases x@.len() - i,
    {
        if to_ascii_lower(x[i]) != to_ascii_lower(y[i]) {
            assert(ascii_lower(a@[i as int]) != ascii_lower(b@[i as int]));
            return false;
        }
        i += 1;
    }
    true
}

/// The level is only shown once for each hash.
pub open spec fn shown_once(level: Level) -> bool {
    level == Level::OnceNote || level == Level::OnceHelp
}

/// The messages that are shown below a diagnostic: one that is shown once is left out where its
/// hash was seen before.
pub open spec fn fresh_children(children: Seq<SubModel>, seen: Set<u128>) -> Seq<SubModel>
    decreases children.len(),
{
    if children.len() == 0 {
        Seq::empty()
    } else {
        let before = fresh_children(children.drop_last(), seen);
        let last = children.last();
        if shown_once(last.level) && seen_after(children.drop_last(), seen).contains(last.hash) {
            before
        } else {
            before.push(last)
        }
    }
}

/// The hashes seen once the messages below a diagnostic are shown.
pub open spec fn seen_after(children: Seq<SubModel>, seen: Set<u128>) -> Set<u128>
    decreases children.len(),
{
    if children.len() == 0 {
        seen
    } else {
        let before = seen_after(children.drop_last(), seen);
        if shown_once(children.last().level) {
            before.insert(children.last().hash)
        } else {
            before
        }
    }
}

/// The note below a diagnostic that was printed before.
pub open spec fn duplicate_note() -> SubModel {
    note_model("duplicate diagnostic emitted due to `-Z deduplicate-diagnostics=no`"@, no_span())
}

/// The diagnostic comes from the lint of which only the first occurrence is printed.
pub open spec fn about_depth_limit(d: DiagModel) -> bool {
    match d.is_lint {
        Some(lint) => same_ignoring_case(lint.0, depth_limit_lint()),
        None => false,
    }
}

/// Whether printing shows the diagnostic.
pub open spec fn is_shown(m: DcxModel, d: DiagModel) -> bool {
    &&& !(about_depth_limit(d) && m.depth_limit_shown)
    &&& !(m.flags.deduplicate_diagnostics && m.emitted.contains(d.hashes.own))
}

/// The diagnostic as it is shown.
pub open spec fn as_shown(m: DcxModel, d: DiagModel) -> DiagModel {
    let kept = fresh_children(d.children, m.emitted.insert(d.hashes.own));
    d.with_children(
        if m.emitted.contains(d.hashes.own) {
            kept.push(duplicate_note())
        } else {
            kept
        },
    )
}

/// The context after a diagnostic was printed.
pub open spec fn printed(m: DcxModel, d: DiagModel) -> DcxModel {
    let marked = DcxModel {
        emitted: m.emitted.insert(d.hashes.own),
        depth_limit_shown: m.depth_limit_shown || about_depth_limit(d),
        ..m
    };
    if is_shown(m, d) {
        DcxModel {
            emitted: seen_after(d.children, marked.emitted),
            shown_errs: m.shown_errs + (if d.level.error() {
                1nat
            } else {
                0
            }),
            shown_warns: m.shown_warns + (if d.level == Level::ForceWarning || d.level
                == Level::Warning {
                1nat
            } else {
                0
            }),
            has_printed: true,
            output: m.output.push(as_shown(m, d)),
            ..marked
        }
    } else {
        marked
    }
}

/// How many errors were counted.
pub open spec fn counted(m: DcxModel) -> nat {
    m.errs.len() + m.lint_errs.len()
}

/// So many errors were counted that the compiler stops.
pub open spec fn at_limit(m: DcxModel) -> bool {
    match m.flags.treat_err_as_bug {
        Some(n) => counted(m) >= n,
        None => false,
    }
}

/// The next error is the one that is a bug.
pub open spec fn next_is_bug(m: DcxModel) -> bool {
    match m.flags.treat_err_as_bug {
        Some(n) => counted(m) + 1 >= n,
        None => false,
    }
}

/// Some diagnostic that was put aside counts as an error.
pub open spec fn stashed_error(values: Seq<Stashed>) -> bool {
    exists|i: int| 0 <= i < values.len() && (#[trigger] values[i]).guar is Some
}

/// Some diagnostic that was put aside counts as an error and is not a lint.
pub open spec fn stashed_hard_error(values: Seq<Stashed>) -> bool {
    exists|i: int|
        0 <= i < values.len() && (#[trigger] values[i]).guar is Some && values[i].diag.is_lint
            is None
}

/// There was an error, delayed bugs aside.
pub open spec fn failed(m: DcxModel) -> bool {
    m.errs.len() > 0 || m.lint_errs.len() > 0 || stashed_error(all_values(m.stash))
}

/// What becomes of a diagnostic.
pub enum Fate {
    /// Nothing.
    Ignored,
    /// It is not shown, but counts as having been produced.
    Suppressed,
    /// It is kept in case nothing else goes wrong.
    Delayed,
    /// It would be kept, but something went wrong already.
    Moot,
    /// It is shown at this level.
    Shown(Level),
}

/// The diagnostic needs a later version of the language than the code is written for.
pub open spec fn too_new(m: DcxModel, d: DiagModel) -> bool {
    match (m.msrv, d.rust_version) {
        (Some(msrv), Some(version)) => version.after(msrv),
        _ => false,
    }
}

/// What becomes of a diagnostic, by its level alone.
pub open spec fn fate_by_level(m: DcxModel, d: DiagModel) -> Fate {
    match d.level {
        Level::Bug => Fate::Shown(Level::Bug),
        Level::Fatal | Level::Error => Fate::Shown(
            if next_is_bug(m) {
                Level::Bug
            } else {
                d.level
            },
        ),
        Level::DelayedBug => if m.flags.eagerly_emit_delayed_bugs {
            Fate::Shown(
                if next_is_bug(m) {
                    Level::Bug
                } else {
                    Level::Error
                },
            )
        } else if failed(m) {
            Fate::Moot
        } else {
            Fate::Delayed
        },
        Level::Warning => if m.flags.can_emit_warnings {
            Fate::Shown(Level::Warning)
        } else {
            Fate::Ignored
        },
        Level::Allow => if d.future_breakage() {
            Fate::Suppressed
        } else {
            Fate::Ignored
        },
        Level::Expect => Fate::Suppressed,
        level => Fate::Shown(level),
    }
}

/// What becomes of a diagnostic.
pub open spec fn fate(m: DcxModel, d: DiagModel) -> Fate {
    match fate_by_level(m, d) {
        Fate::Shown(level) => if too_new(m, d) {
            Fate::Ignored
        } else {
            Fate::Shown(level)
        },
        other => other,
    }
}

/// The diagnostic is shown as an error.
pub open spec fn fails(m: DcxModel, d: DiagModel) -> bool {
    match fate(m, d) {
        Fate::Shown(level) => level.error(),
        _ => false,
    }
}

/// The diagnostic comes with the proof that an error was or will be reported.
pub open spec fn promises(m: DcxModel, d: DiagModel) -> bool {
    fails(m, d) || fate(m, d) == Fate::Delayed || fate(m, d) == Fate::Moot
}

/// The level at which a diagnostic goes through the hook that keeps track of diagnostics, if it
/// does: one that is shown does, and one that is not does if it leaves something behind. A delayed
/// bug does not, for there is nothing to keep of a compilation that has one.
pub open spec fn hooked_at(m: DcxModel, d: DiagModel) -> Option<Level> {
    match fate(m, d) {
        Fate::Shown(level) => Some(level),
        Fate::Suppressed => Some(d.level),
        Fate::Ignored => if d.level == Level::Warning && !m.flags.can_emit_warnings
            && d.future_breakage() {
            Some(d.level)
        } else {
            None
        },
        Fate::Delayed | Fate::Moot => None,
    }
}

/// What is recorded of a diagnostic whatever becomes of it: that code will be rejected later, and
/// that an expectation is fulfilled.
pub open spec fn noted(m: DcxModel, d: DiagModel) -> DcxModel {
    let future_breakage = if d.future_breakage() {
        m.future_breakage.push(d)
    } else {
        m.future_breakage
    };
    let fulfilled = match d.lint_id {
        Some(id) => if d.level == Level::Expect || d.level == Level::ForceWarning {
            with_id(m.fulfilled, id, ())
        } else {
            m.fulfilled
        },
        None => m.fulfilled,
    };
    DcxModel { future_breakage, fulfilled, ..m }
}

/// The context after an error was counted. Delayed bugs are of no use any more.
pub open spec fn after_error(m: DcxModel, lint: bool, thread: u64) -> DcxModel {
    if lint {
        DcxModel { delayed: Seq::empty(), lint_errs: m.lint_errs.push(thread), ..m }
    } else {
        DcxModel { delayed: Seq::empty(), errs: m.errs.push(thread), ..m }
    }
}

/// The context once a code was remembered.
pub open spec fn with_code(m: DcxModel, code: Option<ErrCode>) -> DcxModel {
    match code {
        Some(code) => DcxModel { codes: with_id(m.codes, code.number() as u128, ()), ..m },
        None => m,
    }
}

/// The context after an emission on `thread`. If it is `captured` by a parallel item, what depends
/// on the serial order is left for the replay.
pub open spec fn after_emission(m: DcxModel, d: DiagModel, thread: u64, captured: bool) -> DcxModel {
    let m1 = noted(m, d);
    match fate(m, d) {
        Fate::Ignored => m1,
        Fate::Moot => m1,
        Fate::Suppressed => DcxModel { suppressed_expected_diag: true, ..m1 },
        Fate::Delayed => if captured {
            m1
        } else {
            DcxModel { delayed: m1.delayed.push(d), ..m1 }
        },
        Fate::Shown(level) => {
            let m2 = with_code(m1, d.code);
            let m3 = if captured {
                m2
            } else {
                printed(m2, d.at_level(level))
            };
            if level.error() {
                after_error(m3, d.is_lint is Some, thread)
            } else {
                m3
            }
        },
    }
}

/// What an emission leaves for the replay.
pub open spec fn left_for_replay(m: DcxModel, d: DiagModel, captured: bool) -> Option<EventModel> {
    if !captured {
        None
    } else {
        match fate(m, d) {
            Fate::Delayed => Some(EventModel::DelayedBug(d)),
            Fate::Shown(level) => Some(EventModel::Print(d.at_level(level))),
            _ => None,
        }
    }
}

/// Why the compiler stops at an error.
pub open spec fn limit_text(n: nat) -> Seq<char> {
    if n == 1 {
        "aborting due to `-Z treat-err-as-bug=1`"@
    } else {
        "aborting after "@ + decimal(n) + " errors due to `-Z treat-err-as-bug="@ + decimal(n)
            + "`"@
    }
}

/// The diagnostic can be emitted by itself: its level is not one for messages below others, an
/// expected one says what expects it, and one about code that will be rejected has a level that a
/// lint can have.
pub open spec fn emittable(d: DiagModel) -> bool {
    &&& !shown_once(d.level)
    &&& d.level == Level::Expect ==> d.lint_id is Some
    &&& d.future_breakage() ==> d.level == Level::Error || d.level == Level::ForceWarning || d.level
        == Level::Warning || d.level == Level::Allow || d.level == Level::Expect
}

/// The context can take an error: the limit is not reached, and delayed bugs are only kept while
/// there is no error.
pub open spec fn can_fail(m: DcxModel) -> bool {
    &&& !at_limit(m)
    &&& m.delayed.len() > 0 ==> counted(m) == 0
}

/// There is room to count `n` more printed diagnostics.
pub open spec fn room(m: DcxModel, n: nat) -> bool {
    m.shown_errs + n <= usize::MAX && m.shown_warns + n <= usize::MAX
}

/// The context after `ds` were emitted one by one, and whether the last of them stopped the
/// compiler; what comes after one that does is not emitted.
pub open spec fn after_emissions(m: DcxModel, ds: Seq<DiagModel>, thread: u64) -> (DcxModel, bool)
    decreases ds.len(),
{
    if ds.len() == 0 {
        (m, false)
    } else {
        let before = after_emissions(m, ds.drop_last(), thread);
        if before.1 {
            before
        } else {
            let after = after_emission(before.0, ds.last(), thread, false);
            (after, fails(before.0, ds.last()) && at_limit(after))
        }
    }
}

/// How many of `ds` are emitted before the compiler stops, if it does.
pub open spec fn emission_count(m: DcxModel, ds: Seq<DiagModel>, thread: u64) -> nat
    decreases ds.len(),
{
    if ds.len() == 0 {
        0
    } else if after_emissions(m, ds.drop_last(), thread).1 {
        emission_count(m, ds.drop_last(), thread)
    } else {
        emission_count(m, ds.drop_last(), thread) + 1
    }
}

/// One of `ds` comes with the proof that an error was or will be reported.
pub open spec fn any_promises(m: DcxModel, ds: Seq<DiagModel>, thread: u64) -> bool
    decreases ds.len(),
{
    ds.len() > 0 && (any_promises(m, ds.drop_last(), thread) || {
        let before = after_emissions(m, ds.drop_last(), thread);
        !before.1 && promises(before.0, ds.last())
    })
}

/// Whenever one of `ds` is an error, the context can take one.
pub open spec fn each_can_fail(m: DcxModel, ds: Seq<DiagModel>, thread: u64) -> bool
    decreases ds.len(),
{
    ds.len() > 0 ==> each_can_fail(m, ds.drop_last(), thread) && {
        let before = after_emissions(m, ds.drop_last(), thread);
        before.1 || (fails(before.0, ds.last()) ==> can_fail(before.0))
    }
}

/// A context that can take an error can take any number of diagnostics, up to the error that stops
/// the compiler.
pub proof fn law_a_context_stays_able_to_fail(m: DcxModel, ds: Seq<DiagModel>, thread: u64)
    requires
        can_fail(m),
    ensures
        each_can_fail(m, ds, thread),
        !after_emissions(m, ds, thread).1 ==> can_fail(after_emissions(m, ds, thread).0),
    decreases ds.len(),
{
    if ds.len() > 0 {
        law_a_context_stays_able_to_fail(m, ds.drop_last(), thread);
        let before = after_emissions(m, ds.drop_last(), thread);
        if !before.1 {
            let d = ds.last();
            if let Fate::Shown(level) = fate(before.0, d) {
                let m2 = with_code(noted(before.0, d), d.code);
                assert(printed(m2, d.at_level(level)).errs == m2.errs);
            }
        }
    }
}

/// A diagnostic context.
pub struct DiagCtxt {
    flags: DiagCtxtFlags,
    errs: Vec<u64>,
    lint_errs: Vec<u64>,
    delayed: Vec<DiagInner>,
    shown_errs: usize,
    shown_warns: usize,
    output: Vec<DiagInner>,
    must_produce_diag: bool,
    has_printed: bool,
    suppressed_expected_diag: bool,
    taught: FxHashSet,
    codes: IdMap<()>,
    emitted: FxHashSet,
    depth_limit_shown: bool,
    stash: Stash<Stashed>,
    replay: Option<StashReplay>,
    created: u64,
    future_breakage: Vec<DiagInner>,
    fulfilled: IdMap<()>,
    ice_file: Option<String>,
    msrv: Option<RustcVersion>,
}

impl View for DiagCtxt {
    type V = DcxModel;

    closed spec fn view(&self) -> DcxModel {
        DcxModel {
            flags: self.flags,
            errs: self.errs@,
            lint_errs: self.lint_errs@,
            delayed: diag_models(self.delayed@),
            shown_errs: self.shown_errs as nat,
            shown_warns: self.shown_warns as nat,
            output: diag_models(self.output@),
            must_produce_diag: self.must_produce_diag,
            has_printed: self.has_printed,
            suppressed_expected_diag: self.suppressed_expected_diag,
            taught: members(self.taught),
            codes: self.codes@,
            emitted: members(self.emitted),
            depth_limit_shown: self.depth_limit_shown,
            stash: self.stash@,
            replay: match self.replay {
                Some(replay) => Some(ReplayModel { base: replay.base(), log: replay.log() }),
                None => None,
            },
            created: self.created,
            future_breakage: diag_models(self.future_breakage@),
            fulfilled: self.fulfilled@,
            ice_file: match self.ice_file {
                Some(file) => Some(file@),
                None => None,
            },
            msrv: self.msrv,
        }
    }
}

/// Every diagnostic that was put aside is well formed.
pub open spec fn stash_wf(m: Groups<Stashed>) -> bool {
    forall|g: int, i: int|
        0 <= g < m.len() && 0 <= i < m[g].1.len() ==> (#[trigger] m[g].1[i]).1.diag.wf()
}

impl DiagCtxt {
    pub closed spec fn wf(&self) -> bool {
        &&& self.codes.wf()
        &&& self.stash.wf()
        &&& stash_wf(self.stash@)
        &&& self.replay matches Some(replay) ==> replay.wf()
        &&& self.fulfilled.wf()
        &&& self.flags.treat_err_as_bug matches Some(n) ==> n > 0
        &&& forall|i: int| 0 <= i < self.delayed@.len() ==> (#[trigger] self.delayed@[i]).wf()
        &&& forall|i: int|
            0 <= i < self.delayed@.len() ==> (#[trigger] self.delayed@[i])@.level
                == Level::DelayedBug
        &&& forall|i: int|
            0 <= i < self.delayed@.len() ==> emittable((#[trigger] self.delayed@[i])@)
    }

    /// A context made at clock value `created`, which knows of nothing yet.
    pub fn new(created: u64) -> (dcx: DiagCtxt)
        ensures
            dcx.wf(),
            dcx@ == fresh_context(created),
    {
        let dcx = DiagCtxt {
            flags: DiagCtxtFlags {
                can_emit_warnings: true,
                treat_err_as_bug: None,
                eagerly_emit_delayed_bugs: false,
                macro_backtrace: false,
                deduplicate_diagnostics: false,
                track_diagnostics: false,
            },
            errs: Vec::new(),
            lint_errs: Vec::new(),
            delayed: Vec::new(),
            shown_errs: 0,
            shown_warns: 0,
            output: Vec::new(),
            must_produce_diag: false,
            has_printed: false,
            suppressed_expected_diag: false,
            taught: fx_hash_set(),
            codes: IdMap::new(),
            emitted: fx_hash_set(),
            depth_limit_shown: false,
            stash: Stash::new(),
            replay: None,
            created,
            future_breakage: Vec::new(),
            fulfilled: IdMap::new(),
            ice_file: None,
            msrv: None,
        };
        proof {
            assert(diag_models(Seq::empty()) =~= Seq::<DiagModel>::empty());
        }
        dcx
    }

    /// Prints a diagnostic: decides whether it is shown, and shows it.
    fn print(&mut self, diagnostic: DiagInner)
        requires
            old(self).wf(),
            diagnostic.wf(),
            room(old(self)@, 1),
        ensures
            final(self).wf(),
            final(self)@ == printed(old(self)@, diagnostic@),
    {
        let ghost m = self@;
        let ghost d = diagnostic@;
        let already_emitted = !hash_set_insert(&mut self.emitted, diagnostic.hashes.own);
        let about_limit = match &diagnostic.is_lint {
            Some(lint) => is_same_ignoring_case(
                lint.name.as_str(),
                "recursion_depth_exceeding_limit",
            ),
            None => false,
        };
        let silenced = about_limit && self.depth_limit_shown;
        if about_limit {
            self.depth_limit_shown = true;
        }
        if silenced || (self.flags.deduplicate_diagnostics && already_emitted) {
            return;
        }
        let mut diagnostic = diagnostic;
        let mut children: Vec<Subdiag> = Vec::new();
        let mut rest: Vec<Subdiag> = Vec::new();
        std::mem::swap(&mut rest, &mut diagnostic.children);
        let ghost all = rest@;
        let ghost mut done: int = 0;
        let ghost seen = members(self.emitted);
        let ghost before = *self;
        assert(sub_models(all) =~= d.children);
        assert(sub_models(children@) =~= Seq::<SubModel>::empty());
        assert(sub_models(all).take(0) =~= Seq::<SubModel>::empty());
        while rest.len() > 0
            invariant
                0 <= done <= all.len(),
                rest@ == all.skip(done),
                sub_models(children@) == fresh_children(sub_models(all).take(done), seen),
                members(self.emitted) == seen_after(sub_models(all).take(done), seen),
                *self == (DiagCtxt { emitted: self.emitted, ..before }),
            decreases rest@.len(),
        {
            let sub = rest.remove(0);
            let ghost subs = sub_models(all);
            proof {
                assert(rest@ =~= all.skip(done + 1));
                assert(subs.take(done + 1).drop_last() =~= subs.take(done));
                assert(subs.take(done + 1).last() == sub@);
            }
            let once = match sub.level {
                Level::OnceNote => true,
                Level::OnceHelp => true,
                _ => false,
            };
            let keep = if once {
                hash_set_insert(&mut self.emitted, sub.hash)
            } else {
                true
            };
            if keep {
                let ghost kept = children@;
                children.push(sub);
                assert(sub_models(children@) =~= sub_models(kept).push(sub@));
            }
            proof {
                done = done + 1;
            }
        }
        assert(sub_models(all).take(done) =~= d.children);
        if already_emitted {
            let ghost kept = children@;
            let mut text = String::new();
            text.append("duplicate diagnostic emitted due to `-Z deduplicate-diagnostics=no`");
            let span = MultiSpan::new();
            assert(span@.labels =~= no_span().labels);
            assert(text@
                =~= "duplicate diagnostic emitted due to `-Z deduplicate-diagnostics=no`"@);
            children.push(Subdiag::note(text, span));
            assert(sub_models(children@) =~= sub_models(kept).push(duplicate_note()));
        }
        diagnostic.children = children;
        assert(diagnostic@ == as_shown(m, d));
        match diagnostic.level {
            Level::Bug => {
                self.shown_errs = self.shown_errs + 1;
            },
            Level::Fatal => {
                self.shown_errs = self.shown_errs + 1;
            },
            Level::Error => {
                self.shown_errs = self.shown_errs + 1;
            },
            Level::DelayedBug => {
                self.shown_errs = self.shown_errs + 1;
            },
            Level::ForceWarning => {
                self.shown_warns = self.shown_warns + 1;
            },
            Level::Warning => {
                self.shown_warns = self.shown_warns + 1;
            },
            _ => {},
        }
        self.has_printed = true;
        let ghost shown = self.output@;
        self.output.push(diagnostic);
        assert(diag_models(self.output@) =~= diag_models(shown).push(as_shown(m, d)));
        assert(self@ == printed(m, d));
    }
}

/// The well-formedness of what is put aside, value by value.
proof fn lemma_values_are_wf(m: Groups<Stashed>)
    requires
        stash_wf(m),
    ensures
        forall|i: int| 0 <= i < all_values(m).len() ==> (#[trigger] all_values(m)[i]).diag.wf(),
    decreases m.len(),
{
    if m.len() > 0 {
        let rest = m.drop_last();
        assert(stash_wf(rest)) by {
            assert forall|g: int, i: int|
                0 <= g < rest.len() && 0 <= i < rest[g].1.len() implies (
            #[trigger] rest[g].1[i]).1.diag.wf() by {
                assert(m[g].1[i].1.diag.wf());
            }
        }
        lemma_values_are_wf(rest);
        let own = values_of(m.last().1);
        assert forall|i: int| 0 <= i < all_values(m).len() implies (
        #[trigger] all_values(m)[i]).diag.wf() by {
            let k = all_values(rest).len();
            if i >= k {
                assert(all_values(m)[i] == own[i - k]);
                assert(m[m.len() - 1].1[i - k].1.diag.wf());
            } else {
                assert(all_values(m)[i] == all_values(rest)[i]);
            }
        }
    }
}

impl DiagCtxt {
    /// Whether so many errors were counted that the compiler stops.
    fn treat_err_as_bug(&self) -> (yes: bool)
        requires
            self.wf(),
        ensures
            yes == at_limit(self@),
    {
        match self.flags.treat_err_as_bug {
            Some(n) => n <= self.errs.len() || n - self.errs.len() <= self.lint_errs.len(),
            None => false,
        }
    }

    /// Whether the next error is the one that is a bug.
    fn treat_next_err_as_bug(&self) -> (yes: bool)
        requires
            self.wf(),
        ensures
            yes == next_is_bug(self@),
    {
        match self.flags.treat_err_as_bug {
            Some(n) => n - 1 <= self.errs.len() || n - 1 - self.errs.len()
                <= self.lint_errs.len(),
            None => false,
        }
    }

    /// Whether anything that was put aside counts as an error; with `hard`, as one that is not a
    /// lint.
    fn any_stashed_error(&self, hard: bool) -> (yes: bool)
        requires
            self.wf(),
        ensures
            hard ==> yes == stashed_hard_error(all_values(self@.stash)),
            !hard ==> yes == stashed_error(all_values(self@.stash)),
    {
        let ghost m = self.stash@;
        let mut g: usize = 0;
        assert(m.take(0) =~= Seq::empty());
        while g < self.stash.group_count()
            invariant
                self.wf(),
                m == self.stash@,
                g <= m.len(),
                hard ==> !stashed_hard_error(all_values(m.take(g as int))),
                !hard ==> !stashed_error(all_values(m.take(g as int))),
            decreases m.len() - g,
        {
            let n = self.stash.group_len(g);
            let mut i: usize = 0;
            let ghost prior = all_values(m.take(g as int));
            let ghost own = values_of(m[g as int].1);
            proof {
                lemma_value_of_group(m, g as int);
            }
            while i < n
                invariant
                    self.wf(),
                    m == self.stash@,
                    g < m.len(),
                    n == m[g as int].1.len(),
                    i <= n,
                    own == values_of(m[g as int].1),
                    all_values(m.take(g + 1)) == all_values(m.take(g as int)) + own,
                    forall|k: int|
                        0 <= k < own.len() ==> all_values(m).contains(#[trigger] own[k]),
                    forall|k: int|
                        0 <= k < i ==> !((#[trigger] own[k]).guar is Some && (!hard
                            || own[k].diag.is_lint is None)),
                decreases n - i,
            {
                let value = self.stash.value_at(g, i);
                assert(*value == own[i as int]);
                let lint = match value.diag.is_lint {
                    Some(_) => true,
                    None => false,
                };
                let counts = match value.guar {
                    Some(_) => true,
                    None => false,
                };
                if counts && (!hard || !lint) {
                    proof {
                        assert(all_values(m).contains(own[i as int]));
                    }
                    return true;
                }
                i += 1;
            }
            proof {
                let next = all_values(m.take(g + 1));
                assert(next == prior + own);
                if hard && stashed_hard_error(next) {
                    let k = choose|k: int|
                        0 <= k < next.len() && (#[trigger] next[k]).guar is Some
                            && next[k].diag.is_lint is None;
                    if k < prior.len() {
                        assert(prior[k] == next[k]);
                    } else {
                        assert(own[k - prior.len()] == next[k]);
                    }
                }
                if !hard && stashed_error(next) {
                    let k = choose|k: int|
                        0 <= k < next.len() && (#[trigger] next[k]).guar is Some;
                    if k < prior.len() {
                        assert(prior[k] == next[k]);
                    } else {
                        assert(own[k - prior.len()] == next[k]);
                    }
                }
            }
            g += 1;
        }
        assert(m.take(g as int) =~= m);
        false
    }

    /// Whether there was an error that is not a lint, delayed bugs aside.
    pub fn has_errors_excluding_lint_errors(&self) -> (guar: Option<ErrorGuaranteed>)
        requires
            self.wf(),
        ensures
            guar is Some == (self@.errs.len() > 0 || stashed_hard_error(
                all_values(self@.stash),
            )),
    {
        if self.errs.len() > 0 || self.any_stashed_error(true) {
            Some(ErrorGuaranteed)
        } else {
            None
        }
    }

    /// Whether there was an error, delayed bugs aside.
    pub fn has_errors(&self) -> (guar: Option<ErrorGuaranteed>)
        requires
            self.wf(),
        ensures
            guar is Some == failed(self@),
    {
        if self.errs.len() > 0 || self.lint_errs.len() > 0 || self.any_stashed_error(false) {
            Some(ErrorGuaranteed)
        } else {
            None
        }
    }

    /// Whether there was an error or a delayed bug.
    pub fn has_errors_or_delayed_bugs(&self) -> (guar: Option<ErrorGuaranteed>)
        requires
            self.wf(),
        ensures
            guar is Some == (failed(self@) || self@.delayed.len() > 0),
    {
        match self.has_errors() {
            Some(guar) => Some(guar),
            None => if self.delayed.len() > 0 {
                Some(ErrorGuaranteed)
            } else {
                None
            },
        }
    }

    /// Why the compiler is to stop, if the limit of errors is reached.
    fn abort_text(&self) -> (text: Option<String>)
        requires
            self.wf(),
        ensures
            text is Some == at_limit(self@),
            text matches Some(s) ==> s@ == limit_text(self@.flags.treat_err_as_bug->0 as nat),
    {
        if !self.treat_err_as_bug() {
            return None;
        }
        match self.flags.treat_err_as_bug {
            Some(n) => {
                let mut s = String::new();
                if n == 1 {
                    s.append("aborting due to `-Z treat-err-as-bug=1`");
                } else {
                    let number = decimal_text(n as u128);
                    s.append("aborting after ");
                    s.append(number.as_str());
                    s.append(" errors due to `-Z treat-err-as-bug=");
                    s.append(number.as_str());
                    s.append("`");
                }
                assert(s@ =~= limit_text(n as nat));
                Some(s)
            },
            None => None,
        }
    }

    /// What becomes of a diagnostic.
    fn fate_of(&self, diagnostic: &DiagInner) -> (f: Fate)
        requires
            self.wf(),
            emittable(diagnostic@),
        ensures
            f == fate(self@, diagnostic@),
    {
        let shown = match diagnostic.level {
            Level::Bug => Level::Bug,
            Level::Fatal => if self.treat_next_err_as_bug() {
                Level::Bug
            } else {
                Level::Fatal
            },
            Level::Error => if self.treat_next_err_as_bug() {
                Level::Bug
            } else {
                Level::Error
            },
            Level::DelayedBug => {
                if !self.flags.eagerly_emit_delayed_bugs {
                    return match self.has_errors() {
                        Some(_) => Fate::Moot,
                        None => Fate::Delayed,
                    };
                }
                if self.treat_next_err_as_bug() {
                    Level::Bug
                } else {
                    Level::Error
                }
            },
            Level::Warning => {
                if !self.flags.can_emit_warnings {
                    return Fate::Ignored;
                }
                Level::Warning
            },
            Level::Allow => {
                return if diagnostic.has_future_breakage() {
                    Fate::Suppressed
                } else {
                    Fate::Ignored
                };
            },
            Level::Expect => {
                return Fate::Suppressed;
            },
            level => level,
        };
        match (self.msrv, diagnostic.rust_version) {
            (Some(msrv), Some(version)) => if version.is_after(msrv) {
                Fate::Ignored
            } else {
                Fate::Shown(shown)
            },
            _ => Fate::Shown(shown),
        }
    }

    /// Records what holds of a diagnostic whatever becomes of it.
    fn note(&mut self, diagnostic: &DiagInner)
        requires
            old(self).wf(),
            diagnostic.wf(),
        ensures
            final(self).wf(),
            final(self)@ == noted(old(self)@, diagnostic@),
    {
        let ghost m = self@;
        let ghost d = diagnostic@;
        if diagnostic.has_future_breakage() {
            let ghost before = self.future_breakage@;
            self.future_breakage.push(diagnostic.copy());
            assert(diag_models(self.future_breakage@) =~= diag_models(before).push(d));
        }
        let fulfills = match diagnostic.level {
            Level::Expect => true,
            Level::ForceWarning => true,
            _ => false,
        };
        if fulfills {
            match diagnostic.lint_id {
                Some(id) => {
                    self.fulfilled.insert(id, ());
                },
                None => {},
            }
        }
        assert(self@ == noted(m, d));
    }

    /// Keeps a delayed bug.
    fn delay(&mut self, bug: DiagInner)
        requires
            old(self).wf(),
            bug.wf(),
            bug@.level == Level::DelayedBug,
            emittable(bug@),
        ensures
            final(self).wf(),
            final(self)@ == (DcxModel { delayed: old(self)@.delayed.push(bug@), ..old(self)@ }),
    {
        let ghost before = self.delayed@;
        self.delayed.push(bug);
        assert(diag_models(self.delayed@) =~= diag_models(before).push(bug@));
    }

    /// Counts an error.
    fn count_error(&mut self, lint: bool, thread: u64)
        requires
            old(self).wf(),
        ensures
            final(self).wf(),
            final(self)@ == after_error(old(self)@, lint, thread),
    {
        self.delayed = Vec::new();
        assert(diag_models(self.delayed@) =~= Seq::<DiagModel>::empty());
        if lint {
            self.lint_errs.push(thread);
        } else {
            self.errs.push(thread);
        }
    }

    /// Remembers the code of a diagnostic.
    fn record_code(&mut self, code: Option<ErrCode>)
        requires
            old(self).wf(),
        ensures
            final(self).wf(),
            final(self)@ == with_code(old(self)@, code),
    {
        match code {
            Some(code) => {
                self.codes.insert(code.as_u32() as u128, ());
            },
            None => {},
        }
    }

    /// Records that an expected diagnostic was produced.
    fn suppress(&mut self)
        requires
            old(self).wf(),
        ensures
            final(self).wf(),
            final(self)@ == (DcxModel { suppressed_expected_diag: true, ..old(self)@ }),
    {
        self.suppressed_expected_diag = true;
    }

    /// Emits a diagnostic on `thread`. If it is `captured` by a parallel item, what depends on the
    /// serial order is handed back, for the replay.
    pub fn emit_diagnostic(
        &mut self,
        diagnostic: DiagInner,
        thread: u64,
        captured: bool,
    ) -> (out: Emission)
        requires
            old(self).wf(),
            diagnostic.wf(),
            emittable(diagnostic@),
            fails(old(self)@, diagnostic@) ==> can_fail(old(self)@),
            room(old(self)@, 1),
        ensures
            final(self).wf(),
            final(self)@ == after_emission(old(self)@, diagnostic@, thread, captured),
            out.guar is Some == promises(old(self)@, diagnostic@),
            out.taints == (fails(old(self)@, diagnostic@) && diagnostic@.is_lint is None),
            out.hooked == hooked_at(old(self)@, diagnostic@),
            match out.event {
                Some(event) => event.wf() && left_for_replay(old(self)@, diagnostic@, captured)
                    == Some(event@),
                None => left_for_replay(old(self)@, diagnostic@, captured) is None,
            },
            out.abort is Some == (fails(old(self)@, diagnostic@) && at_limit(final(self)@)),
            out.abort matches Some(text) ==> text@ == limit_text(
                old(self)@.flags.treat_err_as_bug->0 as nat,
            ),
    {
        let fate = self.fate_of(&diagnostic);
        self.note(&diagnostic);
        let level = match fate {
            Fate::Ignored => {
                // A warning that is silenced may still say that code will be rejected later.
                let kept = diagnostic.level == Level::Warning && !self.flags.can_emit_warnings
                    && diagnostic.has_future_breakage();
                let hooked = if kept {
                    Some(Level::Warning)
                } else {
                    None
                };
                return Emission { guar: None, taints: false, hooked, event: None, abort: None };
            },
            Fate::Suppressed => {
                self.suppress();
                return Emission {
                    guar: None,
                    taints: false,
                    hooked: Some(diagnostic.level),
                    event: None,
                    abort: None,
                };
            },
            Fate::Moot => {
                return Emission {
                    guar: Some(ErrorGuaranteed),
                    taints: false,
                    hooked: None,
                    event: None,
                    abort: None,
                };
            },
            Fate::Delayed => {
                let event = if captured {
                    Some(EventKind::DelayedBug(diagnostic))
                } else {
                    self.delay(diagnostic);
                    None
                };
                return Emission {
                    guar: Some(ErrorGuaranteed),
                    taints: false,
                    hooked: None,
                    event,
                    abort: None,
                };
            },
            Fate::Shown(level) => level,
        };
        self.record_code(diagnostic.code);
        let mut diagnostic = diagnostic;
        diagnostic.promote(level);
        let is_error = level.is_error();
        let is_lint = match &diagnostic.is_lint {
            Some(_) => true,
            None => false,
        };
        let event = if captured {
            Some(EventKind::Print(diagnostic))
        } else {
            self.print(diagnostic);
            None
        };
        if !is_error {
            return Emission {
                guar: None,
                taints: false,
                hooked: Some(level),
                event,
                abort: None,
            };
        }
        self.count_error(is_lint, thread);
        let abort = self.abort_text();
        Emission {
            guar: Some(ErrorGuaranteed),
            taints: !is_lint,
            hooked: Some(level),
            event,
            abort,
        }
    }

    /// Applies what a parallel item left for the replay, now that its turn has come. Nothing is
    /// counted: that happened when the item emitted it.
    pub fn replay(&mut self, event: EventKind)
        requires
            old(self).wf(),
            event.wf(),
            room(old(self)@, 1),
        ensures
            final(self).wf(),
            final(self)@ == after_replay(old(self)@, event@),
    {
        match event {
            EventKind::Print(diagnostic) => {
                self.print(diagnostic);
            },
            EventKind::DelayedBug(bug) => {
                if self.has_errors().is_none() {
                    self.delay(bug);
                }
            },
            EventKind::Stash(op) => {
                let mut replay: Option<StashReplay> = None;
                std::mem::swap(&mut replay, &mut self.replay);
                match replay {
                    Some(log) => {
                        let mut log = log;
                        log.record(op);
                        self.replay = Some(log);
                    },
                    None => {},
                }
            },
        }
    }
}

/// The context once a change to what is put aside has its place in the serial order. Inside a
/// parallel item the log is begun, with the stash as it is before the change, and the change is
/// left for the replay.
pub open spec fn with_logged_op(m: DcxModel, op: StashOp, captured: bool) -> DcxModel {
    if captured {
        match m.replay {
            Some(_) => m,
            None => DcxModel {
                replay: Some(ReplayModel { base: shape_of(m.stash), log: Seq::empty() }),
                ..m
            },
        }
    } else {
        logged(m, op)
    }
}

/// The delayed bug that goes with an error that is put aside at the place `at`.
pub open spec fn stashing_bug(
    key: StashKey,
    span: Span,
    at: Seq<char>,
    hashes: DiagHashes,
) -> DiagModel {
    DiagModel {
        span: one_span(span),
        ..bare_diag(
            Level::DelayedBug,
            MessageModel::Str("stashing "@ + key.name()),
            at,
            hashes,
        )
    }
}

/// The context and whether the compiler stops, once the delayed bug that goes with a diagnostic
/// that is to be put aside was emitted. Only an error has one.
pub open spec fn before_stashing(
    m: DcxModel,
    key: StashKey,
    span: Span,
    level: Level,
    at: Seq<char>,
    bug: DiagHashes,
    thread: u64,
    captured: bool,
) -> (DcxModel, bool) {
    let d = stashing_bug(key, span, at, bug);
    if level == Level::Error {
        let after = after_emission(m, d, thread, captured);
        (after, fails(m, d) && at_limit(after))
    } else {
        (m, false)
    }
}

/// What putting a diagnostic aside comes to, besides what it does to the context.
pub struct Stashing {
    pub guar: Option<ErrorGuaranteed>,
    pub taints: bool,
    /// If what was emitted goes through the hook that keeps track of diagnostics: at which level.
    pub hooked: Option<Level>,
    /// What is left for the replay, in order.
    pub events: Vec<EventKind>,
    pub abort: Option<String>,
}

pub open spec fn event_models(events: Seq<EventKind>) -> Seq<EventModel> {
    Seq::new(events.len(), |i: int| events[i]@)
}

/// An event, if there is one, as a sequence.
pub open spec fn as_events(event: Option<EventModel>) -> Seq<EventModel> {
    match event {
        Some(event) => seq![event],
        None => Seq::empty(),
    }
}

impl DiagCtxt {
    /// Gives a change to what is put aside its place in the serial order.
    fn record_stash_op(&mut self, op: StashOp, captured: bool)
        requires
            old(self).wf(),
        ensures
            final(self).wf(),
            final(self)@ == with_logged_op(old(self)@, op, captured),
    {
        let mut replay: Option<StashReplay> = None;
        std::mem::swap(&mut replay, &mut self.replay);
        if captured {
            self.replay = match replay {
                Some(log) => Some(log),
                None => Some(StashReplay::begin(&self.stash)),
            };
        } else {
            match replay {
                Some(log) => {
                    let mut log = log;
                    log.record(op);
                    self.replay = Some(log);
                },
                None => {},
            }
        }
    }

    /// Puts a diagnostic aside, for a later stage to improve. An error counts at once. A delayed
    /// bug is not put aside but emitted.
    ///
    /// A delayed bug goes with an error that is put aside: `at` is the place that it names, and
    /// `bug` are its hashes.
    pub fn stash_diagnostic(
        &mut self,
        span: Span,
        key: StashKey,
        diag: DiagInner,
        at: String,
        bug: DiagHashes,
        thread: u64,
        captured: bool,
    ) -> (out: Stashing)
        requires
            old(self).wf(),
            diag.wf(),
            diag@.level != Level::Bug,
            diag@.level != Level::Fatal,
            diag@.level == Level::DelayedBug ==> emittable(diag@) && (fails(old(self)@, diag@)
                ==> can_fail(old(self)@)),
            diag@.level == Level::Error && fails(old(self)@, stashing_bug(key, span, at@, bug))
                ==> can_fail(old(self)@),
            room(old(self)@, 1),
        ensures
            final(self).wf(),
            forall|i: int| 0 <= i < out.events@.len() ==> (#[trigger] out.events@[i]).wf(),
            diag@.level == Level::DelayedBug ==> {
                &&& final(self)@ == after_emission(old(self)@, diag@, thread, captured)
                &&& out.guar is Some == promises(old(self)@, diag@)
                &&& out.taints == (fails(old(self)@, diag@) && diag@.is_lint is None)
                &&& event_models(out.events@) == as_events(
                    left_for_replay(old(self)@, diag@, captured),
                )
                &&& out.hooked == hooked_at(old(self)@, diag@)
                &&& out.abort is Some == (fails(old(self)@, diag@) && at_limit(final(self)@))
            },
            out.abort matches Some(text) ==> text@ == limit_text(
                old(self)@.flags.treat_err_as_bug->0 as nat,
            ),
            diag@.level != Level::DelayedBug ==> ({
                let first = before_stashing(
                    old(self)@,
                    key,
                    span,
                    diag@.level,
                    at@,
                    bug,
                    thread,
                    captured,
                );
                let op = StashOp::Insert(key, span.spec_without_parent());
                let noted = with_logged_op(first.0, op, captured);
                let guar = if diag@.level == Level::Error {
                    Some(ErrorGuaranteed)
                } else {
                    None
                };
                let left = if diag@.level == Level::Error {
                    as_events(
                        left_for_replay(
                            old(self)@,
                            stashing_bug(key, span, at@, bug),
                            captured,
                        ),
                    )
                } else {
                    Seq::empty()
                };
                &&& out.abort is Some == first.1
                &&& out.guar == guar
                &&& out.hooked == (if diag@.level == Level::Error {
                    hooked_at(old(self)@, stashing_bug(key, span, at@, bug))
                } else {
                    None
                })
                &&& out.taints == (diag@.level == Level::Error && fails(
                    old(self)@,
                    stashing_bug(key, span, at@, bug),
                ))
                &&& first.1 ==> final(self)@ == first.0 && event_models(out.events@) == left
                &&& !first.1 ==> {
                    &&& final(self)@ == (DcxModel {
                        stash: put(
                            noted.stash,
                            key_id(key),
                            span_id(span),
                            Stashed { diag, guar, thread },
                        ),
                        ..noted
                    })
                    &&& event_models(out.events@) == left + (if captured {
                        seq![EventModel::Stash(op)]
                    } else {
                        Seq::empty()
                    })
                }
            }),
    {
        let ghost m = self@;
        let ghost d = diag@;
        let mut events: Vec<EventKind> = Vec::new();
        let mut guar: Option<ErrorGuaranteed> = None;
        let mut taints = false;
        let mut hooked: Option<Level> = None;
        let level = diag.level;
        match level {
            Level::DelayedBug => {
                let out = self.emit_diagnostic(diag, thread, captured);
                match out.event {
                    Some(event) => {
                        events.push(event);
                    },
                    None => {},
                }
                assert(event_models(events@) =~= as_events(left_for_replay(m, d, captured)));
                return Stashing {
                    guar: out.guar,
                    taints: out.taints,
                    hooked: out.hooked,
                    events,
                    abort: out.abort,
                };
            },
            Level::Error => {
                let mut text = String::new();
                text.append("stashing ");
                text.append(key.to_str());
                let mut note = DiagInner::new(Level::DelayedBug, DiagMessage::Str(text), at, bug);
                note.span = MultiSpan::from_span(span);
                proof {
                    assert(text@ =~= "stashing "@ + key.name());
                    assert(note@.span.labels =~= one_span(span).labels);
                    assert(note@.span.primaries =~= one_span(span).primaries);
                    assert(note@ == stashing_bug(key, span, at@, bug));
                }
                let out = self.emit_diagnostic(note, thread, captured);
                guar = Some(ErrorGuaranteed);
                taints = out.taints;
                hooked = out.hooked;
                match out.event {
                    Some(event) => {
                        events.push(event);
                    },
                    None => {},
                }
                assert(event_models(events@) =~= as_events(
                    left_for_replay(m, stashing_bug(key, span, at@, bug), captured),
                ));
                if out.abort.is_some() {
                    return Stashing { guar, taints, hooked, events, abort: out.abort };
                }
            },
            _ => {
                assert(event_models(events@) =~= Seq::<EventModel>::empty());
            },
        }
        let bare = span.without_parent();
        let op = StashOp::Insert(key, bare);
        self.record_stash_op(op, captured);
        let ghost before = self.stash@;
        let ghost value = Stashed { diag, guar, thread };
        self.stash.insert(key, bare, Stashed { diag, guar, thread });
        proof {
            lemma_put_keeps_wf(before, key_id(key), span_id(bare), value);
        }
        let ghost left = event_models(events@);
        if captured {
            events.push(EventKind::Stash(op));
            assert(event_models(events@) =~= left.push(EventModel::Stash(op)));
            assert(event_models(events@) =~= left + seq![EventModel::Stash(op)]);
        } else {
            assert(left =~= left + Seq::<EventModel>::empty());
        }
        Stashing { guar, taints, hooked, events, abort: None }
    }

    /// Takes a diagnostic that was put aside, and what is left for the replay.
    pub fn steal(&mut self, span: Span, key: StashKey, captured: bool) -> (out: (
        Option<Stashed>,
        Option<EventKind>,
    ))
        requires
            old(self).wf(),
        ensures
            final(self).wf(),
            out.0 == found(old(self)@.stash, key_id(key), span_id(span)),
            out.0 matches Some(stolen) ==> stolen.diag.wf(),
            out.1 is Some == (out.0 is Some && captured),
            out.1 matches Some(event) ==> event.wf() && event@ == EventModel::Stash(
                StashOp::Remove(key, span.spec_without_parent()),
            ),
            ({
                let op = StashOp::Remove(key, span.spec_without_parent());
                let noted = if out.0 is Some {
                    with_logged_op(old(self)@, op, captured)
                } else {
                    old(self)@
                };
                final(self)@ == (DcxModel {
                    stash: taken(noted.stash, key_id(key), span_id(span)),
                    ..noted
                })
            }),
    {
        let bare = span.without_parent();
        let op = StashOp::Remove(key, bare);
        let there = self.stash.contains(key, bare);
        if there {
            self.record_stash_op(op, captured);
        }
        let ghost before = self.stash@;
        proof {
            self.stash.lemma_distinct();
            lemma_found_is_wf(before, key_id(key), span_id(bare));
            lemma_taken_keeps_wf(before, key_id(key), span_id(bare));
        }
        let stolen = self.stash.remove(key, bare);
        if there && captured {
            (stolen, Some(EventKind::Stash(op)))
        } else {
            (stolen, None)
        }
    }

    /// Whether a diagnostic is put aside under `span` and `key`.
    pub fn has_stashed_diagnostic(&self, span: Span, key: StashKey) -> (yes: bool)
        requires
            self.wf(),
        ensures
            yes == (found(self@.stash, key_id(key), span_id(span)) is Some),
    {
        self.stash.contains(key, span.without_parent())
    }
}

proof fn lemma_put_keeps_wf(m: Groups<Stashed>, key: u128, span: u128, value: Stashed)
    requires
        stash_wf(m),
        value.diag.wf(),
    ensures
        stash_wf(put(m, key, span, value)),
{
    let after = put(m, key, span, value);
    assert forall|g: int, i: int| 0 <= g < after.len() && 0 <= i < after[g].1.len() implies (
    #[trigger] after[g].1[i]).1.diag.wf() by {
        if has_id(m, key) {
            let p = id_place(m, key);
            assert(crate::id_map::id_at(m, key, p));
            if g == p {
                if i < m[p].1.len() {
                    assert(m[p].1[i].1.diag.wf());
                }
            } else {
                assert(m[g].1[i].1.diag.wf());
            }
        } else if g < m.len() {
            assert(m[g].1[i].1.diag.wf());
        }
    }
}

proof fn lemma_taken_keeps_wf(m: Groups<Stashed>, key: u128, span: u128)
    requires
        stash_wf(m),
    ensures
        stash_wf(taken(m, key, span)),
{
    let after = taken(m, key, span);
    assert forall|g: int, i: int| 0 <= g < after.len() && 0 <= i < after[g].1.len() implies (
    #[trigger] after[g].1[i]).1.diag.wf() by {
        if has_id(m, key) {
            let p = id_place(m, key);
            assert(crate::id_map::id_at(m, key, p));
            if g == p {
                let items = m[p].1;
                if has_id(items, span) {
                    let q = id_place(items, span);
                    assert(crate::id_map::id_at(items, span, q));
                    assert(m[p].1[items.len() - 1].1.diag.wf());
                }
                assert(m[p].1[i].1.diag.wf());
            } else {
                assert(m[g].1[i].1.diag.wf());
            }
        } else {
            assert(m[g].1[i].1.diag.wf());
        }
    }
}

proof fn lemma_found_is_wf(m: Groups<Stashed>, key: u128, span: u128)
    requires
        stash_wf(m),
    ensures
        found(m, key, span) matches Some(stolen) ==> stolen.diag.wf(),
{
    if found(m, key, span) is Some {
        let p = id_place(m, key);
        assert(has_id(m, key));
        assert(crate::id_map::id_at(m, key, p));
        let q = id_place(m[p].1, span);
        assert(crate::id_map::id_at(m[p].1, span, q));
        assert(m[p].1[q].1.diag.wf());
    }
}

/// What is emitted of what was put aside: a warning is not once there was an error, unless it is
/// forced.
pub open spec fn worth_emitting(values: Seq<Stashed>, had_errors: bool) -> Seq<DiagModel>
    decreases values.len(),
{
    if values.len() == 0 {
        Seq::empty()
    } else {
        let before = worth_emitting(values.drop_last(), had_errors);
        let d = values.last().diag@;
        if had_errors && !d.level.error() && d.level != Level::ForceWarning {
            before
        } else {
            before.push(d)
        }
    }
}

/// What was put aside, in the order in which a serial run would have left it.
pub open spec fn stashed_in_order(m: DcxModel) -> Seq<Stashed> {
    match m.replay {
        Some(replay) => found_in_order(m.stash, reshaped_all(replay.base, replay.log)),
        None => all_values(m.stash),
    }
}

/// The context with nothing put aside.
pub open spec fn without_stash(m: DcxModel) -> DcxModel {
    DcxModel { stash: Seq::empty(), replay: None, ..m }
}

/// How many of `values` count as errors.
pub open spec fn error_count(values: Seq<Stashed>) -> nat
    decreases values.len(),
{
    if values.len() == 0 {
        0
    } else {
        error_count(values.drop_last()) + (if values.last().guar is Some {
            1nat
        } else {
            0
        })
    }
}

/// How many of `values` count as errors and were put aside on `thread`.
pub open spec fn error_count_on(values: Seq<Stashed>, thread: u64) -> nat
    decreases values.len(),
{
    if values.len() == 0 {
        0
    } else {
        error_count_on(values.drop_last(), thread) + (if values.last().guar is Some
            && values.last().thread == thread {
            1nat
        } else {
            0
        })
    }
}

/// How often `thread` occurs.
pub open spec fn occurrences(threads: Seq<u64>, thread: u64) -> nat
    decreases threads.len(),
{
    if threads.len() == 0 {
        0
    } else {
        occurrences(threads.drop_last(), thread) + (if threads.last() == thread {
            1nat
        } else {
            0
        })
    }
}

fn count_occurrences(threads: &Vec<u64>, thread: u64) -> (n: usize)
    ensures
        n == occurrences(threads@, thread),
        n <= threads@.len(),
{
    let mut n: usize = 0;
    let mut i: usize = 0;
    assert(threads@.take(0) =~= Seq::<u64>::empty());
    while i < threads.len()
        invariant
            i <= threads@.len(),
            n <= i,
            n == occurrences(threads@.take(i as int), thread),
        decreases threads@.len() - i,
    {
        assert(threads@.take(i + 1).drop_last() =~= threads@.take(i as int));
        if threads[i] == thread {
            n += 1;
        }
        i += 1;
    }
    assert(threads@.take(i as int) =~= threads@);
    n
}

proof fn lemma_error_counts_of_concat(a: Seq<Stashed>, b: Seq<Stashed>, thread: u64)
    ensures
        error_count(a + b) == error_count(a) + error_count(b),
        error_count_on(a + b, thread) == error_count_on(a, thread) + error_count_on(b, thread),
    decreases b.len(),
{
    if b.len() > 0 {
        lemma_error_counts_of_concat(a, b.drop_last(), thread);
        assert((a + b).drop_last() =~= a + b.drop_last());
        assert((a + b).last() == b.last());
    } else {
        assert(a + b =~= a);
    }
}

proof fn lemma_error_counts_grow(m: Groups<Stashed>, g: int, i: int, thread: u64)
    requires
        0 <= g < m.len(),
        0 <= i <= m[g].1.len(),
    ensures
        error_count(all_values(m.take(g))) + error_count(values_of(m[g].1.take(i)))
            <= error_count(all_values(m)),
        error_count_on(all_values(m.take(g)), thread) + error_count_on(
            values_of(m[g].1.take(i)),
            thread,
        ) <= error_count_on(all_values(m), thread),
    decreases m.len() - g, m[g].1.len() - i,
{
    let items = m[g].1;
    if i < items.len() {
        lemma_error_counts_grow(m, g, i + 1, thread);
        assert(values_of(items.take(i + 1)).drop_last() =~= values_of(items.take(i)));
    } else {
        assert(items.take(i) =~= items);
        lemma_value_of_group(m, g);
        lemma_error_counts_of_concat(all_values(m.take(g)), values_of(items), thread);
        if g + 1 < m.len() {
            lemma_error_counts_grow(m, g + 1, 0, thread);
            assert(values_of(m[g + 1].1.take(0)) =~= Seq::<Stashed>::empty());
        } else {
            assert(m.take(g + 1) =~= m);
        }
    }
}

/// How many errors there were, delayed bugs aside.
pub open spec fn total_errors(m: DcxModel) -> nat {
    counted(m) + error_count(all_values(m.stash))
}

/// How many errors there were on `thread`, delayed bugs aside.
pub open spec fn total_errors_on(m: DcxModel, thread: u64) -> nat {
    occurrences(m.errs, thread) + occurrences(m.lint_errs, thread) + error_count_on(
        all_values(m.stash),
        thread,
    )
}

impl DiagCtxt {
    /// Emits diagnostics one by one, up to the one that stops the compiler. The result holds
    /// whether any of them promises an error, how many were emitted, and why the compiler stops.
    fn emit_all(&mut self, diags: Vec<DiagInner>, thread: u64) -> (out: (
        Option<ErrorGuaranteed>,
        usize,
        Option<String>,
    ))
        requires
            old(self).wf(),
            forall|i: int| 0 <= i < diags@.len() ==> (#[trigger] diags@[i]).wf(),
            forall|i: int| 0 <= i < diags@.len() ==> emittable((#[trigger] diags@[i])@),
            each_can_fail(old(self)@, diag_models(diags@), thread),
            room(old(self)@, diags@.len()),
        ensures
            final(self).wf(),
            final(self)@ == after_emissions(old(self)@, diag_models(diags@), thread).0,
            out.0 is Some == any_promises(old(self)@, diag_models(diags@), thread),
            out.1 == emission_count(old(self)@, diag_models(diags@), thread),
            out.2 is Some == after_emissions(old(self)@, diag_models(diags@), thread).1,
            out.2 matches Some(text) ==> text@ == limit_text(
                old(self)@.flags.treat_err_as_bug->0 as nat,
            ),
    {
        let ghost m = self@;
        let ghost ds = diag_models(diags@);
        let ghost all = diags@;
        let total = diags.len();
        let mut rest = diags;
        let mut guar: Option<ErrorGuaranteed> = None;
        let mut n: usize = 0;
        assert(ds.take(0) =~= Seq::<DiagModel>::empty());
        while rest.len() > 0
            invariant
                self.wf(),
                m == old(self)@,
                all == diags@,
                all.len() == total,
                n <= all.len(),
                rest@ == all.skip(n as int),
                ds == diag_models(all),
                forall|i: int| 0 <= i < all.len() ==> (#[trigger] all[i]).wf(),
                forall|i: int| 0 <= i < all.len() ==> emittable((#[trigger] all[i])@),
                each_can_fail(m, ds, thread),
                self@ == after_emissions(m, ds.take(n as int), thread).0,
                !after_emissions(m, ds.take(n as int), thread).1,
                n == emission_count(m, ds.take(n as int), thread),
                guar is Some == any_promises(m, ds.take(n as int), thread),
                self@.flags == m.flags,
                room(self@, (all.len() - n) as nat),
            decreases rest@.len(),
        {
            let diag = rest.remove(0);
            let ghost before = self@;
            proof {
                assert(all.skip(n as int)[0] == all[n as int]);
                assert(rest@ =~= all.skip(n + 1));
                assert(ds.take(n + 1).drop_last() =~= ds.take(n as int));
                assert(ds.take(n + 1).last() == diag@);
                lemma_prefix_can_fail(m, ds, thread, n + 1);
            }
            let out = self.emit_diagnostic(diag, thread, false);
            proof {
                lemma_room_shrinks(before, diag@, thread);
            }
            if out.guar.is_some() {
                guar = out.guar;
            }
            n += 1;
            if out.abort.is_some() {
                proof {
                    lemma_stopped(m, ds, thread, n as int, ds.len() as int);
                    assert(ds.take(ds.len() as int) =~= ds);
                }
                return (guar, n, out.abort);
            }
        }
        assert(ds.take(n as int) =~= ds);
        (guar, n, None)
    }

    /// Emits everything that was put aside.
    pub fn emit_stashed_diagnostics(&mut self, thread: u64) -> (out: (
        Option<ErrorGuaranteed>,
        Option<String>,
    ))
        requires
            old(self).wf(),
            forall|i: int|
                0 <= i < stashed_in_order(old(self)@).len() ==> emittable(
                    (#[trigger] stashed_in_order(old(self)@)[i]).diag@,
                ),
            each_can_fail(
                without_stash(old(self)@),
                worth_emitting(stashed_in_order(old(self)@), old(self)@.errs.len() > 0),
                thread,
            ),
            room(old(self)@, stashed_in_order(old(self)@).len()),
        ensures
            final(self).wf(),
            ({
                let emitted = worth_emitting(
                    stashed_in_order(old(self)@),
                    old(self)@.errs.len() > 0,
                );
                let start = without_stash(old(self)@);
                &&& final(self)@ == after_emissions(start, emitted, thread).0
                &&& out.0 is Some == any_promises(start, emitted, thread)
                &&& out.1 is Some == after_emissions(start, emitted, thread).1
                &&& out.1 matches Some(text) ==> text@ == limit_text(
                    old(self)@.flags.treat_err_as_bug->0 as nat,
                )
            }),
    {
        let ghost m = self@;
        let had_errors = self.errs.len() > 0;
        let mut stash: Stash<Stashed> = Stash::new();
        std::mem::swap(&mut stash, &mut self.stash);
        let mut replay: Option<StashReplay> = None;
        std::mem::swap(&mut replay, &mut self.replay);
        proof {
            stash.lemma_distinct();
            lemma_values_are_wf(m.stash);
            lemma_in_order_is_wf(m);
        }
        let in_order = match replay {
            None => stash.into_values(),
            Some(replay) => replay.in_serial_order(stash),
        };
        assert(in_order@ == stashed_in_order(m));
        assert(self@ == without_stash(m));
        let ghost all = in_order@;
        let ghost mut done: int = 0;
        let mut rest = in_order;
        let mut diags: Vec<DiagInner> = Vec::new();
        assert(all.take(0) =~= Seq::<Stashed>::empty());
        assert(diag_models(diags@) =~= Seq::<DiagModel>::empty());
        while rest.len() > 0
            invariant
                0 <= done <= all.len(),
                rest@ == all.skip(done),
                forall|i: int| 0 <= i < all.len() ==> (#[trigger] all[i]).diag.wf(),
                forall|i: int| 0 <= i < all.len() ==> emittable((#[trigger] all[i]).diag@),
                forall|i: int| 0 <= i < diags@.len() ==> (#[trigger] diags@[i]).wf(),
                forall|i: int| 0 <= i < diags@.len() ==> emittable((#[trigger] diags@[i])@),
                diag_models(diags@) == worth_emitting(all.take(done), had_errors),
                diags@.len() <= done,
            decreases rest@.len(),
        {
            let stashed = rest.remove(0);
            proof {
                assert(all.skip(done)[0] == all[done]);
                assert(rest@ =~= all.skip(done + 1));
                assert(all.take(done + 1).drop_last() =~= all.take(done));
                assert(all.take(done + 1).last() == stashed);
            }
            if !had_errors || stashed.diag.is_error() || stashed.diag.is_force_warn() {
                let ghost before = diags@;
                diags.push(stashed.diag);
                assert(diag_models(diags@) =~= diag_models(before).push(stashed.diag@));
            }
            proof {
                done = done + 1;
            }
        }
        assert(all.take(done) =~= all);
        let out = self.emit_all(diags, thread);
        (out.0, out.2)
    }
}

proof fn lemma_in_order_is_wf(m: DcxModel)
    requires
        stash_wf(m.stash),
    ensures
        forall|i: int|
            0 <= i < stashed_in_order(m).len() ==> (#[trigger] stashed_in_order(m)[i]).diag.wf(),
{
    lemma_values_are_wf(m.stash);
    match m.replay {
        Some(replay) => {
            lemma_found_in_order_is_wf(m.stash, reshaped_all(replay.base, replay.log));
        },
        None => {},
    }
}

proof fn lemma_found_in_order_is_wf(live: Groups<Stashed>, shape: Groups<()>)
    requires
        stash_wf(live),
    ensures
        forall|i: int|
            0 <= i < found_in_order(live, shape).len() ==> (#[trigger] found_in_order(
                live,
                shape,
            )[i]).diag.wf(),
    decreases shape.len(),
{
    if shape.len() > 0 {
        lemma_found_in_order_is_wf(live, shape.drop_last());
        lemma_found_in_group_is_wf(live, shape.last().0, shape.last().1);
    }
}

proof fn lemma_found_in_group_is_wf(live: Groups<Stashed>, key: u128, spans: Seq<(u128, ())>)
    requires
        stash_wf(live),
    ensures
        forall|i: int|
            0 <= i < found_in_group(live, key, spans).len() ==> (#[trigger] found_in_group(
                live,
                key,
                spans,
            )[i]).diag.wf(),
    decreases spans.len(),
{
    if spans.len() > 0 {
        lemma_found_in_group_is_wf(live, key, spans.drop_last());
        lemma_found_is_wf(live, key, spans.last().0);
    }
}

proof fn lemma_prefix_can_fail(m: DcxModel, ds: Seq<DiagModel>, thread: u64, n: int)
    requires
        each_can_fail(m, ds, thread),
        0 <= n <= ds.len(),
    ensures
        each_can_fail(m, ds.take(n), thread),
    decreases ds.len() - n,
{
    if n == ds.len() {
        assert(ds.take(n) =~= ds);
    } else {
        lemma_prefix_can_fail(m, ds, thread, n + 1);
        assert(ds.take(n + 1).drop_last() =~= ds.take(n));
    }
}

/// Once the compiler stops, nothing more is emitted.
proof fn lemma_stopped(m: DcxModel, ds: Seq<DiagModel>, thread: u64, n: int, k: int)
    requires
        0 <= n <= k <= ds.len(),
        after_emissions(m, ds.take(n), thread).1,
    ensures
        after_emissions(m, ds.take(k), thread) == after_emissions(m, ds.take(n), thread),
        emission_count(m, ds.take(k), thread) == emission_count(m, ds.take(n), thread),
        any_promises(m, ds.take(k), thread) == any_promises(m, ds.take(n), thread),
    decreases k - n,
{
    if n < k {
        lemma_stopped(m, ds, thread, n, k - 1);
        assert(ds.take(k).drop_last() =~= ds.take(k - 1));
    }
}

/// An emission prints at most once.
proof fn lemma_room_shrinks(m: DcxModel, d: DiagModel, thread: u64)
    ensures
        ({
            let after = after_emission(m, d, thread, false);
            &&& after.flags == m.flags
            &&& after.shown_errs <= m.shown_errs + 1
            &&& after.shown_warns <= m.shown_warns + 1
        }),
{
    if let Fate::Shown(level) = fate(m, d) {
        let m2 = with_code(noted(m, d), d.code);
        let m3 = printed(m2, d.at_level(level));
        assert(m3.flags == m.flags);
        assert(m3.shown_errs <= m.shown_errs + 1);
        assert(m3.shown_warns <= m.shown_warns + 1);
    }
}

impl DiagCtxt {
    /// How many errors there were, delayed bugs aside.
    pub fn err_count(&self) -> (n: usize)
        requires
            self.wf(),
            total_errors(self@) <= usize::MAX,
        ensures
            n == total_errors(self@),
    {
        let ghost m = self.stash@;
        let mut n: usize = self.errs.len() + self.lint_errs.len();
        let ghost base = n;
        let mut g: usize = 0;
        assert(m.take(0) =~= Seq::empty());
        while g < self.stash.group_count()
            invariant
                self.wf(),
                m == self.stash@,
                g <= m.len(),
                base + error_count(all_values(m)) <= usize::MAX,
                n == base + error_count(all_values(m.take(g as int))),
            decreases m.len() - g,
        {
            let len = self.stash.group_len(g);
            let mut i: usize = 0;
            let ghost items = m[g as int].1;
            assert(values_of(items.take(0)) =~= Seq::<Stashed>::empty());
            while i < len
                invariant
                    self.wf(),
                    m == self.stash@,
                    g < m.len(),
                    items == m[g as int].1,
                    len == items.len(),
                    i <= len,
                    base + error_count(all_values(m)) <= usize::MAX,
                    n == base + error_count(all_values(m.take(g as int))) + error_count(
                        values_of(items.take(i as int)),
                    ),
                decreases len - i,
            {
                let value = self.stash.value_at(g, i);
                proof {
                    assert(values_of(items.take(i + 1)).drop_last() =~= values_of(
                        items.take(i as int),
                    ));
                    assert(values_of(items.take(i + 1)).last() == *value);
                    lemma_error_counts_grow(m, g as int, i + 1, 0);
                }
                if value.guar.is_some() {
                    n += 1;
                }
                i += 1;
            }
            proof {
                assert(items.take(i as int) =~= items);
                lemma_value_of_group(m, g as int);
                lemma_error_counts_of_concat(
                    all_values(m.take(g as int)),
                    values_of(items),
                    0,
                );
            }
            g += 1;
        }
        assert(m.take(g as int) =~= m);
        n
    }

    /// How many errors there were on the current thread, `current`, delayed bugs aside.
    pub fn err_count_on_current_thread(&self, current: u64) -> (n: usize)
        requires
            self.wf(),
            total_errors_on(self@, current) <= usize::MAX,
        ensures
            n == total_errors_on(self@, current),
    {
        let ghost m = self.stash@;
        let mut n: usize = count_occurrences(&self.errs, current) + count_occurrences(
            &self.lint_errs,
            current,
        );
        let ghost base = n;
        let mut g: usize = 0;
        assert(m.take(0) =~= Seq::empty());
        while g < self.stash.group_count()
            invariant
                self.wf(),
                m == self.stash@,
                g <= m.len(),
                base + error_count_on(all_values(m), current) <= usize::MAX,
                n == base + error_count_on(all_values(m.take(g as int)), current),
            decreases m.len() - g,
        {
            let len = self.stash.group_len(g);
            let mut i: usize = 0;
            let ghost items = m[g as int].1;
            assert(values_of(items.take(0)) =~= Seq::<Stashed>::empty());
            while i < len
                invariant
                    self.wf(),
                    m == self.stash@,
                    g < m.len(),
                    items == m[g as int].1,
                    len == items.len(),
                    i <= len,
                    base + error_count_on(all_values(m), current) <= usize::MAX,
                    n == base + error_count_on(all_values(m.take(g as int)), current)
                        + error_count_on(values_of(items.take(i as int)), current),
                decreases len - i,
            {
                let value = self.stash.value_at(g, i);
                proof {
                    assert(values_of(items.take(i + 1)).drop_last() =~= values_of(
                        items.take(i as int),
                    ));
                    assert(values_of(items.take(i + 1)).last() == *value);
                    lemma_error_counts_grow(m, g as int, i + 1, current);
                }
                if value.guar.is_some() && value.thread == current {
                    n += 1;
                }
                i += 1;
            }
            proof {
                assert(items.take(i as int) =~= items);
                lemma_value_of_group(m, g as int);
                lemma_error_counts_of_concat(
                    all_values(m.take(g as int)),
                    values_of(items),
                    current,
                );
            }
            g += 1;
        }
        assert(m.take(g as int) =~= m);
        n
    }
}

/// How many warnings were printed, in words.
pub open spec fn warnings_text(n: nat) -> Seq<char> {
    if n == 0 {
        Seq::empty()
    } else if n == 1 {
        "1 warning emitted"@
    } else {
        decimal(n) + " warnings emitted"@
    }
}

/// How many errors were printed, in words.
pub open spec fn errors_text(n: nat) -> Seq<char> {
    if n == 0 {
        Seq::empty()
    } else if n == 1 {
        "aborting due to 1 previous error"@
    } else {
        "aborting due to "@ + decimal(n) + " previous errors"@
    }
}

/// The last word on a run: how many errors and warnings there were, if any.
///
/// `at` is the place in the compiler that it comes from.
pub open spec fn summary(m: DcxModel, at: Seq<char>, hashes: DiagHashes) -> Option<DiagModel> {
    if at_limit(m) || (m.shown_errs == 0 && m.shown_warns == 0) {
        None
    } else if m.shown_errs == 0 {
        Some(
            bare_diag(
                Level::ForceWarning,
                MessageModel::Str(warnings_text(m.shown_warns)),
                at,
                hashes,
            ),
        )
    } else if m.shown_warns == 0 {
        Some(
            bare_diag(Level::Error, MessageModel::Str(errors_text(m.shown_errs)), at, hashes),
        )
    } else {
        Some(
            bare_diag(
                Level::Error,
                MessageModel::Str(
                    errors_text(m.shown_errs) + "; "@ + warnings_text(m.shown_warns),
                ),
                at,
                hashes,
            ),
        )
    }
}

fn push_warnings_text(out: &mut String, n: usize)
    requires
        n > 0,
    ensures
        final(out)@ == old(out)@ + warnings_text(n as nat),
{
    let ghost before = out@;
    if n == 1 {
        out.append("1 warning emitted");
    } else {
        out.append(decimal_text(n as u128).as_str());
        out.append(" warnings emitted");
    }
    assert(out@ =~= before + warnings_text(n as nat));
}

fn push_errors_text(out: &mut String, n: usize)
    requires
        n > 0,
    ensures
        final(out)@ == old(out)@ + errors_text(n as nat),
{
    let ghost before = out@;
    if n == 1 {
        out.append("aborting due to 1 previous error");
    } else {
        out.append("aborting due to ");
        out.append(decimal_text(n as u128).as_str());
        out.append(" previous errors");
    }
    assert(out@ =~= before + errors_text(n as nat));
}

/// What flushing the delayed bugs comes to.
pub enum Flush {
    /// There was nothing to flush.
    Nothing,
    /// So many delayed bugs were shown as bugs, and the compiler is to stop.
    Stopped { emitted: usize, abort: String },
}

/// The place of a span that is about nothing.
pub open spec fn dummy_span() -> Span {
    Span { lo: 0, hi: 0, ctxt: 0, parent: None }
}

/// A delayed bug as it is flushed. With `decorate`, a note says where it was delayed.
pub open spec fn undelayed(bug: DiagModel, decorate: bool, hash: u128) -> DiagModel {
    let span = match bug.primary_span() {
        Some(span) => span,
        None => dummy_span(),
    };
    let children = if decorate {
        bug.children.push(note_model("delayed at "@ + bug.emitted_at, one_span(span)))
    } else {
        bug.children
    };
    DiagModel {
        level: Level::Bug,
        children,
        hashes: DiagHashes { own: hash, ..bug.hashes },
        ..bug
    }
}

/// The delayed bugs as they are flushed.
pub open spec fn undelayed_all(
    bugs: Seq<DiagModel>,
    decorate: bool,
    hashes: Seq<u128>,
) -> Seq<DiagModel> {
    Seq::new(bugs.len(), |i: int| undelayed(bugs[i], decorate, hashes[i]))
}

/// The two notes before the delayed bugs.
pub open spec fn flush_note_1(at: Seq<char>, hash: u128) -> DiagModel {
    bare_diag(
        Level::Note,
        MessageModel::Str("no errors encountered even though delayed bugs were created"@),
        at,
        DiagHashes { own: hash, as_error: hash, as_bug: hash },
    )
}

pub open spec fn flush_note_2(at: Seq<char>, hash: u128) -> DiagModel {
    bare_diag(
        Level::Note,
        MessageModel::Str("those delayed bugs will now be shown as internal compiler errors"@),
        at,
        DiagHashes { own: hash, as_error: hash, as_bug: hash },
    )
}

/// The context once the notes before the delayed bugs are emitted.
pub open spec fn before_flush(
    m: DcxModel,
    at1: Seq<char>,
    at2: Seq<char>,
    hash1: u128,
    hash2: u128,
    thread: u64,
) -> DcxModel {
    after_emission(
        after_emission(
            DcxModel { delayed: Seq::empty(), ..m },
            flush_note_1(at1, hash1),
            thread,
            false,
        ),
        flush_note_2(at2, hash2),
        thread,
        false,
    )
}

/// There is something to flush: delayed bugs, and no error.
pub open spec fn flushes(m: DcxModel) -> bool {
    m.errs.len() == 0 && m.delayed.len() > 0
}

impl DiagCtxt {
    /// Emits how many errors and warnings there were, if any.
    pub fn print_error_count(
        &mut self,
        at: String,
        hashes: DiagHashes,
        thread: u64,
    ) -> (out: Option<Emission>)
        requires
            old(self).wf(),
            old(self)@.stash.len() == 0,
            summary(old(self)@, at@, hashes) matches Some(d) ==> (fails(old(self)@, d) ==> can_fail(
                old(self)@,
            )),
            room(old(self)@, 1),
        ensures
            final(self).wf(),
            match summary(old(self)@, at@, hashes) {
                Some(d) => {
                    &&& final(self)@ == after_emission(old(self)@, d, thread, false)
                    &&& out is Some
                    &&& out->0.guar is Some == promises(old(self)@, d)
                    &&& out->0.taints == fails(old(self)@, d)
                    &&& out->0.hooked == hooked_at(old(self)@, d)
                    &&& out->0.event is None
                    &&& out->0.abort is Some == (fails(old(self)@, d) && at_limit(final(self)@))
                    &&& out->0.abort matches Some(text) ==> text@ == limit_text(
                        old(self)@.flags.treat_err_as_bug->0 as nat,
                    )
                },
                None => final(self)@ == old(self)@ && out is None,
            },
    {
        if self.treat_err_as_bug() {
            return None;
        }
        if self.shown_errs == 0 && self.shown_warns == 0 {
            return None;
        }
        let mut text = String::new();
        let diag = if self.shown_errs == 0 {
            push_warnings_text(&mut text, self.shown_warns);
            assert(text@ =~= warnings_text(self@.shown_warns));
            DiagInner::new(Level::ForceWarning, DiagMessage::Str(text), at, hashes)
        } else {
            push_errors_text(&mut text, self.shown_errs);
            if self.shown_warns > 0 {
                text.append("; ");
                push_warnings_text(&mut text, self.shown_warns);
                assert(text@ =~= errors_text(self@.shown_errs) + "; "@ + warnings_text(
                    self@.shown_warns,
                ));
            } else {
                assert(text@ =~= errors_text(self@.shown_errs));
            }
            DiagInner::new(Level::Error, DiagMessage::Str(text), at, hashes)
        };
        Some(self.emit_diagnostic(diag, thread, false))
    }

    /// The bugs that were delayed.
    pub fn delayed_bugs(&self) -> (bugs: &Vec<DiagInner>)
        requires
            self.wf(),
        ensures
            diag_models(bugs@) == self@.delayed,
    {
        &self.delayed
    }

    /// Shows the delayed bugs as bugs, if nothing else went wrong. A note says where each was
    /// delayed, unless there is a file for the report and `backtrace` is off.
    ///
    /// `at1` and `at2` are the places that the notes before the bugs come from, `hash1` and
    /// `hash2` are their hashes, and `hashes` those of the bugs as they are shown.
    pub fn flush_delayed(
        &mut self,
        backtrace: bool,
        at1: String,
        at2: String,
        hash1: u128,
        hash2: u128,
        hashes: &Vec<u128>,
        thread: u64,
    ) -> (out: Flush)
        requires
            old(self).wf(),
            old(self)@.stash.len() == 0,
            hashes@.len() == old(self)@.delayed.len(),
            flushes(old(self)@) ==> each_can_fail(
                before_flush(old(self)@, at1@, at2@, hash1, hash2, thread),
                undelayed_all(
                    old(self)@.delayed,
                    backtrace || old(self)@.ice_file is None,
                    hashes@,
                ),
                thread,
            ),
            room(old(self)@, old(self)@.delayed.len() + 1),
        ensures
            final(self).wf(),
            !flushes(old(self)@) ==> out is Nothing && final(self)@ == old(self)@,
            flushes(old(self)@) ==> ({
                let start = before_flush(old(self)@, at1@, at2@, hash1, hash2, thread);
                let bugs = undelayed_all(
                    old(self)@.delayed,
                    backtrace || old(self)@.ice_file is None,
                    hashes@,
                );
                &&& final(self)@ == after_emissions(start, bugs, thread).0
                &&& out matches Flush::Stopped { emitted, abort } && emitted == emission_count(
                    start,
                    bugs,
                    thread,
                ) && abort@ == (if after_emissions(start, bugs, thread).1 {
                    limit_text(old(self)@.flags.treat_err_as_bug->0 as nat)
                } else {
                    "DelayedBugPanic"@
                })
            }),
    {
        if self.errs.len() > 0 || self.delayed.len() == 0 {
            return Flush::Nothing;
        }
        let ghost m = self@;
        let decorate = backtrace || self.ice_file.is_none();
        let mut bugs: Vec<DiagInner> = Vec::new();
        std::mem::swap(&mut bugs, &mut self.delayed);
        let ghost delayed = bugs@;
        assert(diag_models(self.delayed@) =~= Seq::<DiagModel>::empty());
        assert(self@ == (DcxModel { delayed: Seq::empty(), ..m }));
        let mut note = String::new();
        note.append("no errors encountered even though delayed bugs were created");
        assert(note@ =~= "no errors encountered even though delayed bugs were created"@);
        let _ = self.emit_diagnostic(
            DiagInner::new(
                Level::Note,
                DiagMessage::Str(note),
                at1,
                DiagHashes { own: hash1, as_error: hash1, as_bug: hash1 },
            ),
            thread,
            false,
        );
        let mut note = String::new();
        note.append("those delayed bugs will now be shown as internal compiler errors");
        assert(note@ =~= "those delayed bugs will now be shown as internal compiler errors"@);
        let _ = self.emit_diagnostic(
            DiagInner::new(
                Level::Note,
                DiagMessage::Str(note),
                at2,
                DiagHashes { own: hash2, as_error: hash2, as_bug: hash2 },
            ),
            thread,
            false,
        );
        assert(self@ == before_flush(m, at1@, at2@, hash1, hash2, thread));
        let mut shown: Vec<DiagInner> = Vec::new();
        let total = bugs.len();
        let mut rest = bugs;
        let mut n: usize = 0;
        let ghost want = undelayed_all(diag_models(delayed), decorate, hashes@);
        while rest.len() > 0
            invariant
                n <= delayed.len(),
                delayed.len() == total,
                hashes@.len() == total,
                rest@ == delayed.skip(n as int),
                want == undelayed_all(diag_models(delayed), decorate, hashes@),
                forall|i: int| 0 <= i < delayed.len() ==> (#[trigger] delayed[i]).wf(),
                forall|i: int|
                    0 <= i < delayed.len() ==> (#[trigger] delayed[i])@.level == Level::DelayedBug,
                forall|i: int| 0 <= i < delayed.len() ==> emittable((#[trigger] delayed[i])@),
                shown@.len() == n,
                forall|i: int| 0 <= i < n ==> (#[trigger] shown@[i]).wf(),
                forall|i: int| 0 <= i < n ==> (#[trigger] shown@[i])@ == want[i],
                forall|i: int| 0 <= i < n ==> emittable((#[trigger] shown@[i])@),
            decreases rest@.len(),
        {
            let bug = rest.remove(0);
            let ghost b = bug@;
            proof {
                assert(delayed.skip(n as int)[0] == delayed[n as int]);
                assert(rest@ =~= delayed.skip(n + 1));
            }
            let mut bug = bug;
            if decorate {
                let mut text = String::new();
                text.append("delayed at ");
                text.append(bug.emitted_at.as_str());
                assert(text@ =~= "delayed at "@ + b.emitted_at);
                let about = match bug.span.primary_span() {
                    Some(span) => span,
                    None => Span { lo: 0, hi: 0, ctxt: 0, parent: None },
                };
                let span = MultiSpan::from_span(about);
                assert(span@.labels =~= one_span(about).labels);
                assert(span@.primaries =~= one_span(about).primaries);
                bug.sub_note(text, span);
            }
            bug.level = Level::Bug;
            bug.hashes.own = hashes[n];
            assert(bug@ == want[n as int]);
            shown.push(bug);
            n += 1;
        }
        assert(diag_models(shown@) =~= want);
        proof {
            lemma_room_shrinks(
                DcxModel { delayed: Seq::empty(), ..m },
                flush_note_1(at1@, hash1),
                thread,
            );
        }
        let out = self.emit_all(shown, thread);
        match out.2 {
            Some(abort) => Flush::Stopped { emitted: out.1, abort },
            None => {
                let mut abort = String::new();
                abort.append("DelayedBugPanic");
                assert(abort@ =~= "DelayedBugPanic"@);
                Flush::Stopped { emitted: out.1, abort }
            },
        }
    }
}

/// What keeps a context from ending quietly: diagnostics were expected, and none was emitted or
/// suppressed.
pub open spec fn owes_a_diagnostic(m: DcxModel) -> bool {
    !m.has_printed && !m.suppressed_expected_diag && m.must_produce_diag
}

/// The context as it was made, but for its flags, its report file and its version.
pub open spec fn after_reset(m: DcxModel) -> DcxModel {
    DcxModel {
        flags: m.flags,
        output: m.output,
        ice_file: m.ice_file,
        msrv: m.msrv,
        ..fresh_context(m.created)
    }
}

impl DiagCtxt {
    /// The context, with warnings off.
    pub fn disable_warnings(self) -> (dcx: DiagCtxt)
        requires
            self.wf(),
        ensures
            dcx.wf(),
            dcx@ == (DcxModel {
                flags: DiagCtxtFlags { can_emit_warnings: false, ..self@.flags },
                ..self@
            }),
    {
        let mut dcx = self;
        dcx.flags.can_emit_warnings = false;
        dcx
    }

    /// The context, with other flags.
    pub fn with_flags(self, flags: DiagCtxtFlags) -> (dcx: DiagCtxt)
        requires
            self.wf(),
            flags.treat_err_as_bug != Some(0usize),
        ensures
            dcx.wf(),
            dcx@ == (DcxModel { flags, ..self@ }),
    {
        let mut dcx = self;
        dcx.flags = flags;
        dcx
    }

    /// The context, with a file for the report of a bug.
    pub fn with_ice_file(self, ice_file: String) -> (dcx: DiagCtxt)
        requires
            self.wf(),
        ensures
            dcx.wf(),
            dcx@ == (DcxModel { ice_file: Some(ice_file@), ..self@ }),
    {
        let mut dcx = self;
        dcx.ice_file = Some(ice_file);
        dcx
    }

    /// The context, for code that is written for `msrv`.
    pub fn with_msrv(self, msrv: RustcVersion) -> (dcx: DiagCtxt)
        requires
            self.wf(),
        ensures
            dcx.wf(),
            dcx@ == (DcxModel { msrv: Some(msrv), ..self@ }),
    {
        let mut dcx = self;
        dcx.msrv = Some(msrv);
        dcx
    }

    pub fn can_emit_warnings(&self) -> (yes: bool)
        ensures
            yes == self@.flags.can_emit_warnings,
    {
        self.flags.can_emit_warnings
    }

    /// The clock value at which the context was made.
    pub fn created(&self) -> (created: u64)
        ensures
            created == self@.created,
    {
        self.created
    }

    /// Forgets every diagnostic and every count.
    pub fn reset_err_count(&mut self)
        requires
            old(self).wf(),
        ensures
            final(self).wf(),
            final(self)@ == after_reset(old(self)@),
    {
        let ghost m = self@;
        self.errs = Vec::new();
        self.lint_errs = Vec::new();
        self.delayed = Vec::new();
        self.shown_errs = 0;
        self.shown_warns = 0;
        self.must_produce_diag = false;
        self.has_printed = false;
        self.suppressed_expected_diag = false;
        self.taught = fx_hash_set();
        self.codes = IdMap::new();
        self.emitted = fx_hash_set();
        self.depth_limit_shown = false;
        self.stash = Stash::new();
        self.replay = None;
        self.future_breakage = Vec::new();
        self.fulfilled = IdMap::new();
        assert(diag_models(Seq::empty()) =~= Seq::<DiagModel>::empty());
        assert(self@ == after_reset(m));
    }

    /// Whether a diagnostic with this code is still to be explained. It counts as explained from
    /// here on.
    pub fn must_teach(&mut self, code: ErrCode) -> (yes: bool)
        requires
            old(self).wf(),
        ensures
            final(self).wf(),
            yes == !old(self)@.taught.contains(code.number() as u128),
            final(self)@ == (DcxModel {
                taught: old(self)@.taught.insert(code.number() as u128),
                ..old(self)@
            }),
    {
        hash_set_insert(&mut self.taught, code.as_u32() as u128)
    }

    /// Counts unused dependencies as a lint error, if they are reported loudly at a level that
    /// fails. The result is why the compiler is to stop, if it is.
    pub fn emit_unused_externs(&mut self, lint_level_is_error: bool, loud: bool, thread: u64) -> (
    abort: Option<String>)
        requires
            old(self).wf(),
            loud && lint_level_is_error ==> !at_limit(old(self)@),
        ensures
            final(self).wf(),
            final(self)@ == (if loud && lint_level_is_error {
                DcxModel { lint_errs: old(self)@.lint_errs.push(thread), ..old(self)@ }
            } else {
                old(self)@
            }),
            abort is Some == (loud && lint_level_is_error && at_limit(final(self)@)),
            abort matches Some(text) ==> text@ == limit_text(
                old(self)@.flags.treat_err_as_bug->0 as nat,
            ),
    {
        if loud && lint_level_is_error {
            self.lint_errs.push(thread);
            self.abort_text()
        } else {
            None
        }
    }

    /// Takes what is known of code that a later version will reject: the report to emit, if there
    /// is anything to report.
    pub fn emit_future_breakage_report(&mut self) -> (report: Option<Vec<DiagInner>>)
        requires
            old(self).wf(),
        ensures
            final(self).wf(),
            match report {
                Some(diags) => {
                    &&& old(self)@.future_breakage.len() > 0
                    &&& diag_models(diags@) == old(self)@.future_breakage
                },
                None => old(self)@.future_breakage.len() == 0,
            },
            final(self)@ == (DcxModel { future_breakage: Seq::empty(), ..old(self)@ }),
    {
        let mut diags: Vec<DiagInner> = Vec::new();
        std::mem::swap(&mut diags, &mut self.future_breakage);
        assert(diag_models(self.future_breakage@) =~= Seq::<DiagModel>::empty());
        if diags.len() > 0 {
            Some(diags)
        } else {
            None
        }
    }

    /// Takes what was printed since the last time.
    pub fn take_output(&mut self) -> (diags: Vec<DiagInner>)
        requires
            old(self).wf(),
        ensures
            final(self).wf(),
            diag_models(diags@) == old(self)@.output,
            final(self)@ == (DcxModel { output: Seq::empty(), ..old(self)@ }),
    {
        let mut diags: Vec<DiagInner> = Vec::new();
        std::mem::swap(&mut diags, &mut self.output);
        assert(diag_models(self.output@) =~= Seq::<DiagModel>::empty());
        diags
    }

    /// Takes the expectations that were fulfilled.
    pub fn steal_fulfilled_expectation_ids(&mut self) -> (ids: IdMap<()>)
        requires
            old(self).wf(),
        ensures
            final(self).wf(),
            ids.wf(),
            ids@ == old(self)@.fulfilled,
            final(self)@ == (DcxModel { fulfilled: Seq::empty(), ..old(self)@ }),
    {
        let mut ids: IdMap<()> = IdMap::new();
        std::mem::swap(&mut ids, &mut self.fulfilled);
        ids
    }

    /// Records that a diagnostic has to be produced, for what was computed to be worth it.
    pub fn set_must_produce_diag(&mut self)
        requires
            old(self).wf(),
            !old(self)@.must_produce_diag,
        ensures
            final(self).wf(),
            final(self)@ == (DcxModel { must_produce_diag: true, ..old(self)@ }),
    {
        self.must_produce_diag = true;
    }

    /// Whether the context ends without the diagnostic that it owes.
    pub fn owes_diagnostic(&self) -> (yes: bool)
        ensures
            yes == owes_a_diagnostic(self@),
    {
        !self.has_printed && !self.suppressed_expected_diag && self.must_produce_diag
    }
}

/// An emission inside a parallel item, once it is replayed, comes to the same as one outside every
/// item, if nothing else happened to the context in between.
pub proof fn law_replay_completes_the_emission(m: DcxModel, d: DiagModel, thread: u64)
    ensures
        ({
            let captured = after_emission(m, d, thread, true);
            let replayed = match left_for_replay(m, d, true) {
                Some(event) => after_replay(captured, event),
                None => captured,
            };
            replayed == after_emission(m, d, thread, false)
        }),
{
    if let Fate::Shown(level) = fate(m, d) {
        let m2 = with_code(noted(m, d), d.code);
        let shown = d.at_level(level);
        if level.error() {
            let a = printed(after_error(m2, d.is_lint is Some, thread), shown);
            let b = after_error(printed(m2, shown), d.is_lint is Some, thread);
            assert(a == b);
        }
    }
}

/// Where identical diagnostics are reported once, printing one a second time shows nothing and
/// counts nothing.
pub proof fn law_duplicates_are_shown_once(m: DcxModel, d: DiagModel)
    requires
        m.flags.deduplicate_diagnostics,
    ensures
        ({
            let once = printed(m, d);
            let twice = printed(once, d);
            &&& twice.output == once.output
            &&& twice.shown_errs == once.shown_errs
            &&& twice.shown_warns == once.shown_warns
        }),
{
    lemma_seen_only_grows(d.children, m.emitted.insert(d.hashes.own), d.hashes.own);
}

proof fn lemma_seen_only_grows(children: Seq<SubModel>, seen: Set<u128>, hash: u128)
    requires
        seen.contains(hash),
    ensures
        seen_after(children, seen).contains(hash),
    decreases children.len(),
{
    if children.len() > 0 {
        lemma_seen_only_grows(children.drop_last(), seen, hash);
    }
}

/// A diagnostic that fails is counted as one error, and every delayed bug is dropped with it; one
/// that does not fail counts nothing.
pub proof fn law_an_error_counts_once(m: DcxModel, d: DiagModel, thread: u64, captured: bool)
    ensures
        ({
            let after = after_emission(m, d, thread, captured);
            &&& fails(m, d) ==> counted(after) == counted(m) + 1 && failed(after)
                && after.delayed.len() == 0
            &&& !fails(m, d) ==> counted(after) == counted(m)
        }),
{
    if let Fate::Shown(level) = fate(m, d) {
        let m2 = with_code(noted(m, d), d.code);
        let m3 = printed(m2, d.at_level(level));
        assert(m3.errs == m.errs && m3.lint_errs == m.lint_errs);
    }
}

/// Whoever holds a promise of an error is right: there was an error, or a delayed bug is kept that
/// becomes one if nothing else does.
pub proof fn law_a_promise_is_kept(m: DcxModel, d: DiagModel, thread: u64)
    requires
        promises(m, d),
    ensures
        ({
            let after = after_emission(m, d, thread, false);
            failed(after) || after.delayed.contains(d)
        }),
{
    law_an_error_counts_once(m, d, thread, false);
    if fate(m, d) == Fate::Delayed {
        let after = after_emission(m, d, thread, false);
        assert(after.delayed[after.delayed.len() - 1] == d);
    }
}

/// The context after a replayed event.
pub open spec fn after_replay(m: DcxModel, event: EventModel) -> DcxModel {
    match event {
        EventModel::Print(d) => printed(m, d),
        EventModel::DelayedBug(d) => if failed(m) {
            m
        } else {
            DcxModel { delayed: m.delayed.push(d), ..m }
        },
        EventModel::Stash(op) => logged(m, op),
    }
}

/// The context after a change to the stash was logged, if there is a log.
pub open spec fn logged(m: DcxModel, op: StashOp) -> DcxModel {
    match m.replay {
        Some(replay) => DcxModel {
            replay: Some(ReplayModel { log: replay.log.push(op), ..replay }),
            ..m
        },
        None => m,
    }
}

/// The values of one group are among all values, after those of the groups before it.
proof fn lemma_value_of_group<V>(m: Groups<V>, g: int)
    requires
        0 <= g < m.len(),
    ensures
        all_values(m.take(g + 1)) == all_values(m.take(g)) + values_of(m[g].1),
        forall|k: int|
            0 <= k < values_of(m[g].1).len() ==> all_values(m).contains(
                #[trigger] values_of(m[g].1)[k],
            ),
    decreases m.len() - g,
{
    assert(m.take(g + 1).drop_last() =~= m.take(g));
    assert(m.take(g + 1).last() == m[g]);
    let own = values_of(m[g].1);
    lemma_values_of_prefix(m, g + 1, m.len() as int);
    assert(m.take(m.len() as int) =~= m);
    assert forall|k: int| 0 <= k < own.len() implies all_values(m).contains(#[trigger] own[k]) by {
        let at = all_values(m.take(g)).len() + k;
        assert(all_values(m.take(g + 1))[at as int] == own[k]);
        assert(all_values(m)[at as int] == own[k]);
    }
}

proof fn lemma_values_of_prefix<V>(m: Groups<V>, a: int, b: int)
    requires
        0 <= a <= b <= m.len(),
    ensures
        all_values(m.take(a)).len() <= all_values(m.take(b)).len(),
        forall|k: int|
            0 <= k < all_values(m.take(a)).len() ==> all_values(m.take(b))[k] == (
            #[trigger] all_values(m.take(a))[k]),
    decreases b - a,
{
    if a < b {
        lemma_values_of_prefix(m, a, b - 1);
        assert(m.take(b).drop_last() =~= m.take(b - 1));
    }
}

/// A context that knows of nothing yet.
pub open spec fn fresh_context(created: u64) -> DcxModel {
    DcxModel {
        flags: DiagCtxtFlags {
            can_emit_warnings: true,
            treat_err_as_bug: None,
            eagerly_emit_delayed_bugs: false,
            macro_backtrace: false,
            deduplicate_diagnostics: false,
            track_diagnostics: false,
        },
        errs: Seq::empty(),
        lint_errs: Seq::empty(),
        delayed: Seq::empty(),
        shown_errs: 0,
        shown_warns: 0,
        output: Seq::empty(),
        must_produce_diag: false,
        has_printed: false,
        suppressed_expected_diag: false,
        taught: Set::empty(),
        codes: Seq::empty(),
        emitted: Set::empty(),
        depth_limit_shown: false,
        stash: Seq::empty(),
        replay: None,
        created,
        future_breakage: Seq::empty(),
        fulfilled: Seq::empty(),
        ice_file: None,
        msrv: None,
    }
}

} // verus!
