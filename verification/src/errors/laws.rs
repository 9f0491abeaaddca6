//! What the functions on diagnostics are for, said of what goes in and what comes out.

use vstd::prelude::*;

use crate::errors::diag::DiagInner;
use crate::errors::dcx::Stashing;
use crate::errors::dcx::DiagCtxt;
use crate::errors::dcx::event_models;
use crate::errors::dcx::ascii_lower;
use crate::error_messages::message::MessageModel;
use crate::errors::dcx::after_emission;
use crate::errors::dcx::after_emissions;
use crate::errors::dcx::after_replay;
use crate::errors::dcx::after_reset;
use crate::errors::dcx::any_promises;
use crate::errors::dcx::at_limit;
use crate::errors::dcx::before_flush;
use crate::errors::dcx::emission_count;
use crate::errors::dcx::error_count;
use crate::errors::dcx::error_count_on;
use crate::errors::dcx::failed;
use crate::errors::dcx::fails;
use crate::errors::dcx::fate;
use crate::errors::dcx::flushes;
use crate::errors::dcx::fresh_children;
use crate::errors::dcx::hooked_at;
use crate::errors::dcx::left_for_replay;
use crate::errors::dcx::noted;
use crate::errors::dcx::occurrences;
use crate::errors::dcx::owes_a_diagnostic;
use crate::errors::dcx::printed;
use crate::errors::dcx::promises;
use crate::errors::dcx::same_ignoring_case;
use crate::errors::dcx::seen_after;
use crate::errors::dcx::stashed_error;
use crate::errors::dcx::stashed_hard_error;
use crate::errors::dcx::stashed_in_order;
use crate::errors::dcx::stashing_bug;
use crate::errors::dcx::total_errors;
use crate::errors::dcx::total_errors_on;
use crate::errors::dcx::undelayed_all;
use crate::errors::dcx::with_code;
use crate::errors::dcx::with_logged_op;
use crate::errors::dcx::without_stash;
use crate::errors::dcx::worth_emitting;
use crate::errors::dcx::DcxModel;
use crate::errors::dcx::EventModel;
use crate::errors::dcx::Fate;
use crate::errors::dcx::Stashed;
use crate::errors::diag::DiagHashes;
use crate::errors::diag::DiagModel;
use crate::errors::diag::SubModel;
use crate::errors::level::Level;
use crate::errors::level::Style;
use crate::errors::stash::all_values;
use crate::errors::stash::StashKey;
use crate::errors::stash::StashOp;
use crate::error_messages::span::Span;
use crate::id_map::has_id;

verus! {

/// A message that is shown once for each hash.
pub open spec fn once(c: SubModel) -> bool {
    c.level == Level::OnceNote || c.level == Level::OnceHelp
}

/// Nothing but a message that is shown once is ever left out, and nothing is moved: the other
/// messages below a diagnostic are shown as they are.
pub proof fn law_only_once_messages_are_left_out(children: Seq<SubModel>, seen: Set<u128>)
    ensures
        fresh_children(children, seen).filter(|c: SubModel| !once(c)) == children.filter(
            |c: SubModel| !once(c),
        ),
    decreases children.len(),
{
    reveal(Seq::filter);
    if children.len() > 0 {
        let front = children.drop_last();
        let last = children.last();
        law_only_once_messages_are_left_out(front, seen);
        let kept = fresh_children(front, seen);
        if fresh_children(children, seen) != kept {
            assert(kept.push(last).drop_last() =~= kept);
        }
    }
}

/// A message at the end is left out exactly if it is shown once and its hash was seen: before the
/// diagnostic, or on an earlier message that is shown once. Whatever it is, what comes before it is
/// shown the same.
pub proof fn law_a_once_message_is_shown_the_first_time(
    children: Seq<SubModel>,
    seen: Set<u128>,
    c: SubModel,
)
    ensures
        fresh_children(Seq::empty(), seen) == Seq::<SubModel>::empty(),
        ({
            let before = fresh_children(children, seen);
            let again = once(c) && (seen.contains(c.hash) || exists|j: int|
                0 <= j < children.len() && once(#[trigger] children[j]) && children[j].hash
                    == c.hash);
            fresh_children(children.push(c), seen) == (if again {
                before
            } else {
                before.push(c)
            })
        }),
{
    assert(children.push(c).drop_last() =~= children);
    lemma_seen_hashes(children, seen, c.hash);
}

proof fn lemma_seen_hashes(children: Seq<SubModel>, seen: Set<u128>, hash: u128)
    ensures
        seen_after(children, seen).contains(hash) <==> seen.contains(hash) || exists|j: int|
            0 <= j < children.len() && once(#[trigger] children[j]) && children[j].hash == hash,
    decreases children.len(),
{
    if children.len() > 0 {
        let front = children.drop_last();
        let n = children.len() - 1;
        lemma_seen_hashes(front, seen, hash);
        if exists|j: int|
            0 <= j < front.len() && once(#[trigger] front[j]) && front[j].hash == hash {
            let j = choose|j: int|
                0 <= j < front.len() && once(#[trigger] front[j]) && front[j].hash == hash;
            assert(children[j] == front[j]);
        }
        if exists|j: int|
            0 <= j < children.len() && once(#[trigger] children[j]) && children[j].hash == hash {
            let j = choose|j: int|
                0 <= j < children.len() && once(#[trigger] children[j]) && children[j].hash
                    == hash;
            if j < n {
                assert(front[j] == children[j]);
            }
        }
        assert(children[n] == children.last());
    }
}

/// The lint of which only the first occurrence is printed, however it is capitalised.
pub open spec fn depth_limit(d: DiagModel) -> bool {
    d.is_lint matches Some(lint) && same_ignoring_case(
        lint.0,
        "recursion_depth_exceeding_limit"@,
    )
}

/// Printing shows a diagnostic unless identical ones are reported once and it was printed before,
/// or it is the lint of which only the first is shown. What is shown is the diagnostic itself, but
/// for the messages below it; it counts as an error or a warning by its level, and as neither
/// otherwise. One that is not shown changes neither what was shown nor the counts.
pub proof fn law_printing_shows_the_diagnostic(m: DcxModel, d: DiagModel)
    ensures
        ({
            let after = printed(m, d);
            let silent = (m.flags.deduplicate_diagnostics && m.emitted.contains(d.hashes.own))
                || (m.depth_limit_shown && depth_limit(d));
            let shown = after.output.last();
            let error = d.level == Level::Bug || d.level == Level::Fatal || d.level == Level::Error
                || d.level == Level::DelayedBug;
            let warning = d.level == Level::Warning || d.level == Level::ForceWarning;
            &&& silent ==> after.output == m.output && after.shown_errs == m.shown_errs
                && after.shown_warns == m.shown_warns && after.has_printed == m.has_printed
            &&& !silent ==> {
                &&& after.has_printed
                &&& after.output.len() == m.output.len() + 1
                &&& after.output.drop_last() == m.output
                &&& shown.level == d.level && shown.messages == d.messages && shown.code == d.code
                &&& shown.lint_id == d.lint_id && shown.span == d.span && shown.args == d.args
                &&& shown.is_lint == d.is_lint && shown.rust_version == d.rust_version
                &&& shown.emitted_at == d.emitted_at
                &&& after.shown_errs == m.shown_errs + (if error {
                    1int
                } else {
                    0
                })
                &&& after.shown_warns == m.shown_warns + (if warning {
                    1int
                } else {
                    0
                })
                // The messages below, and a note if it was printed before.
                &&& !m.emitted.contains(d.hashes.own) ==> shown.children == fresh_children(
                    d.children,
                    m.emitted.insert(d.hashes.own),
                )
                &&& m.emitted.contains(d.hashes.own) ==> {
                    &&& shown.children.len() > 0
                    &&& shown.children.drop_last() == fresh_children(d.children, m.emitted)
                    &&& shown.children.last().level == Level::Note
                    &&& shown.children.last().messages == seq![
                        (
                            MessageModel::Str(
                                "duplicate diagnostic emitted due to `-Z deduplicate-diagnostics=no`"@,
                            ),
                            Style::NoStyle,
                        ),
                    ]
                }
            }
            // It was printed, whether it was shown or not.
            &&& after.emitted.contains(d.hashes.own)
            &&& forall|h: u128| #[trigger] m.emitted.contains(h) ==> after.emitted.contains(h)
            &&& after.depth_limit_shown == (m.depth_limit_shown || depth_limit(d))
            &&& after.errs == m.errs && after.lint_errs == m.lint_errs && after.delayed
                == m.delayed && after.stash == m.stash && after.codes == m.codes
        }),
{
    let after = printed(m, d);
    let seen = m.emitted.insert(d.hashes.own);
    lemma_seen_hashes(d.children, seen, d.hashes.own);
    assert forall|h: u128| #[trigger] m.emitted.contains(h) implies after.emitted.contains(h) by {
        lemma_seen_hashes(d.children, seen, h);
    }
    if after.output != m.output {
        assert(after.output.drop_last() =~= m.output);
        if m.emitted.contains(d.hashes.own) {
            assert(seen =~= m.emitted);
            let kept = fresh_children(d.children, seen);
            assert(after.output.last().children.drop_last() =~= kept);
        }
    }
}

/// Where nothing went wrong, everything that was put aside is emitted, in order. After an error,
/// what is left of it is the errors and the warnings that are forced, in the same order.
pub proof fn law_what_was_put_aside_is_emitted(values: Seq<Stashed>)
    ensures
        worth_emitting(values, false) == values.map_values(|s: Stashed| s.diag@),
        worth_emitting(values, true) == values.map_values(|s: Stashed| s.diag@).filter(
            |d: DiagModel|
                d.level == Level::Bug || d.level == Level::Fatal || d.level == Level::Error
                    || d.level == Level::DelayedBug || d.level == Level::ForceWarning,
        ),
    decreases values.len(),
{
    reveal(Seq::filter);
    let all = values.map_values(|s: Stashed| s.diag@);
    if values.len() > 0 {
        law_what_was_put_aside_is_emitted(values.drop_last());
        assert(all.drop_last() =~= values.drop_last().map_values(|s: Stashed| s.diag@));
        assert(all.last() == values.last().diag@);
        assert(worth_emitting(values, false) =~= all);
    } else {
        assert(all =~= Seq::<DiagModel>::empty());
    }
}

/// Counting goes by one: a diagnostic more that was put aside counts one if it was counted as an
/// error, and on its own thread.
pub proof fn law_what_was_put_aside_is_counted(values: Seq<Stashed>, thread: u64)
    ensures
        error_count(values) == values.filter(|s: Stashed| s.guar is Some).len(),
        error_count_on(values, thread) == values.filter(
            |s: Stashed| s.guar is Some && s.thread == thread,
        ).len(),
    decreases values.len(),
{
    reveal(Seq::filter);
    if values.len() > 0 {
        law_what_was_put_aside_is_counted(values.drop_last(), thread);
    }
}

/// How often a thread emitted an error is how often it is listed.
pub proof fn law_a_threads_errors_are_its_own(threads: Seq<u64>, thread: u64)
    ensures
        occurrences(threads, thread) == threads.filter(|t: u64| t == thread).len(),
    decreases threads.len(),
{
    reveal(Seq::filter);
    if threads.len() > 0 {
        law_a_threads_errors_are_its_own(threads.drop_last(), thread);
    }
}

/// Code that is written for an older version of the language has no use for the diagnostic.
pub open spec fn for_newer_code(m: DcxModel, d: DiagModel) -> bool {
    m.msrv matches Some(old) && d.rust_version matches Some(new) && (new.major > old.major || (
    new.major == old.major && (new.minor > old.minor || (new.minor == old.minor && new.patch
        > old.patch))))
}

/// The error at hand is the one that is a bug.
pub open spec fn is_the_last_error(m: DcxModel) -> bool {
    m.flags.treat_err_as_bug matches Some(n) && m.errs.len() + m.lint_errs.len() + 1 >= n
}

/// Something went wrong already, delayed bugs aside.
pub open spec fn went_wrong(m: DcxModel) -> bool {
    m.errs.len() > 0 || m.lint_errs.len() > 0 || exists|i: int|
        0 <= i < all_values(m.stash).len() && (#[trigger] all_values(m.stash)[i]).guar is Some
}

/// A bug, a fatal error or an error, or a delayed bug that is not delayed.
pub open spec fn is_an_error_now(m: DcxModel, d: DiagModel) -> bool {
    &&& d.level == Level::Bug || d.level == Level::Fatal || d.level == Level::Error || (d.level
        == Level::DelayedBug && m.flags.eagerly_emit_delayed_bugs)
    &&& !for_newer_code(m, d)
}

/// A diagnostic that is shown and is no error.
pub open spec fn is_shown_without_error(m: DcxModel, d: DiagModel) -> bool {
    &&& d.level == Level::Note || d.level == Level::Help || d.level == Level::FailureNote
        || d.level == Level::ForceWarning || (d.level == Level::Warning
        && m.flags.can_emit_warnings)
    &&& !for_newer_code(m, d)
}

/// An error is counted once, on its thread, among the lints if it is one, and makes delayed bugs
/// moot. Nothing else is counted, and a delayed bug is kept only while nothing went wrong.
pub proof fn law_an_emission_counts_what_went_wrong(
    m: DcxModel,
    d: DiagModel,
    thread: u64,
    captured: bool,
)
    requires
        d.level != Level::OnceNote,
        d.level != Level::OnceHelp,
    ensures
        ({
            let after = after_emission(m, d, thread, captured);
            let kept = d.level == Level::DelayedBug && !m.flags.eagerly_emit_delayed_bugs
                && !went_wrong(m) && !captured;
            &&& is_an_error_now(m, d) && d.is_lint is None ==> after.errs == m.errs.push(thread)
                && after.lint_errs == m.lint_errs
            &&& is_an_error_now(m, d) && d.is_lint is Some ==> after.lint_errs
                == m.lint_errs.push(thread) && after.errs == m.errs
            &&& !is_an_error_now(m, d) ==> after.errs == m.errs && after.lint_errs == m.lint_errs
            &&& after.delayed == (if is_an_error_now(m, d) {
                Seq::empty()
            } else if kept {
                m.delayed.push(d)
            } else {
                m.delayed
            })
            &&& after.flags == m.flags && after.stash == m.stash && after.created == m.created
                && after.replay == m.replay && after.taught == m.taught && after.msrv == m.msrv
                && after.ice_file == m.ice_file && after.must_produce_diag == m.must_produce_diag
            // Who asks is told that there is an error: one that counts, or one that is delayed.
            &&& fails(m, d) == is_an_error_now(m, d)
            &&& promises(m, d) == (is_an_error_now(m, d) || (d.level == Level::DelayedBug
                && !m.flags.eagerly_emit_delayed_bugs))
            &&& failed(m) == went_wrong(m)
        }),
{
    let level = match fate(m, d) {
        Fate::Shown(level) => level,
        _ => d.level,
    };
    let m2 = with_code(noted(m, d), d.code);
    law_printing_shows_the_diagnostic(m2, d.at_level(level));
}

/// What is emitted outside every item is printed at once, as it is or promoted; inside one it is
/// left for the replay, and neither what was printed nor the printed counts change. An error is a
/// bug once the limit is reached. Nothing is printed of a lint that is allowed or expected, of a
/// warning where there are none, of a delayed bug, and of advice for newer code.
pub proof fn law_an_emission_prints_what_it_should(
    m: DcxModel,
    d: DiagModel,
    thread: u64,
    captured: bool,
)
    requires
        d.level != Level::OnceNote,
        d.level != Level::OnceHelp,
    ensures
        ({
            let after = after_emission(m, d, thread, captured);
            let level = if is_an_error_now(m, d) && (d.level == Level::Bug || is_the_last_error(
                m,
            )) {
                Level::Bug
            } else if d.level == Level::DelayedBug {
                Level::Error
            } else {
                d.level
            };
            let own = if level == d.level {
                d.hashes.own
            } else if level == Level::Bug {
                d.hashes.as_bug
            } else {
                d.hashes.as_error
            };
            let shown = DiagModel {
                level,
                hashes: DiagHashes { own, as_error: d.hashes.as_error, as_bug: d.hashes.as_bug },
                ..d
            };
            let appears = is_an_error_now(m, d) || is_shown_without_error(m, d);
            let delayed = d.level == Level::DelayedBug && !m.flags.eagerly_emit_delayed_bugs
                && !went_wrong(m);
            &&& captured || !appears ==> {
                &&& after.output == m.output
                &&& after.shown_errs == m.shown_errs && after.shown_warns == m.shown_warns
                &&& after.emitted == m.emitted && after.has_printed == m.has_printed
            }
            &&& !captured && appears ==> {
                &&& after.output == printed(m, shown).output
                &&& after.shown_errs == printed(m, shown).shown_errs
                &&& after.shown_warns == printed(m, shown).shown_warns
                &&& after.emitted == printed(m, shown).emitted
            }
            &&& left_for_replay(m, d, captured) == (if captured && appears {
                Some(EventModel::Print(shown))
            } else if captured && delayed {
                Some(EventModel::DelayedBug(d))
            } else {
                None
            })
            &&& after.suppressed_expected_diag == (m.suppressed_expected_diag || d.level
                == Level::Expect || (d.level == Level::Allow && d.future_breakage()))
            &&& hooked_at(m, d) == (if appears {
                Some(level)
            } else if d.level == Level::Expect || (d.future_breakage() && (d.level == Level::Allow
                || (d.level == Level::Warning && !m.flags.can_emit_warnings))) {
                Some(d.level)
            } else {
                None
            })
        }),
{
    let level = match fate(m, d) {
        Fate::Shown(level) => level,
        _ => d.level,
    };
    let m2 = with_code(noted(m, d), d.code);
    law_printing_shows_the_diagnostic(m2, d.at_level(level));
    law_printing_shows_the_diagnostic(m, d.at_level(level));
}

/// What is recorded of a diagnostic: that code will be rejected later, that an expectation is
/// fulfilled, and the code of one that appears. Nothing that was recorded is lost.
pub proof fn law_an_emission_is_recorded(
    m: DcxModel,
    d: DiagModel,
    thread: u64,
    captured: bool,
    id: u128,
)
    requires
        d.level != Level::OnceNote,
        d.level != Level::OnceHelp,
    ensures
        ({
            let after = after_emission(m, d, thread, captured);
            let rejected_later = d.is_lint matches Some(lint) && lint.1;
            let appears = is_an_error_now(m, d) || is_shown_without_error(m, d);
            &&& after.future_breakage == (if rejected_later {
                m.future_breakage.push(d)
            } else {
                m.future_breakage
            })
            &&& has_id(after.fulfilled, id) <==> has_id(m.fulfilled, id) || (d.lint_id == Some(id)
                && (d.level == Level::Expect || d.level == Level::ForceWarning))
            &&& has_id(after.codes, id) <==> has_id(m.codes, id) || (appears
                && d.code is Some && d.code->0.number() == id)
        }),
{
    let level = match fate(m, d) {
        Fate::Shown(level) => level,
        _ => d.level,
    };
    let m2 = with_code(noted(m, d), d.code);
    law_printing_shows_the_diagnostic(m2, d.at_level(level));
    if let Some(lint) = d.lint_id {
        crate::id_map::law_an_entry_is_found(m.fulfilled, lint, (), id);
    }
    if let Some(code) = d.code {
        crate::id_map::law_an_entry_is_found(m.codes, code.number() as u128, (), id);
    }
}

/// Diagnostics are emitted one after another, up to the error that stops the compiler: the limit of
/// errors was reached with it, and nothing after it is emitted.
pub proof fn law_emission_stops_at_the_limit(
    m: DcxModel,
    ds: Seq<DiagModel>,
    d: DiagModel,
    thread: u64,
)
    ensures
        after_emissions(m, Seq::empty(), thread) == (m, false),
        emission_count(m, Seq::empty(), thread) == 0,
        !any_promises(m, Seq::empty(), thread),
        ({
            let before = after_emissions(m, ds, thread);
            let both = after_emissions(m, ds.push(d), thread);
            let next = after_emission(before.0, d, thread, false);
            &&& before.1 ==> both == before && emission_count(m, ds.push(d), thread)
                == emission_count(m, ds, thread) && any_promises(m, ds.push(d), thread)
                == any_promises(m, ds, thread)
            &&& !before.1 ==> {
                &&& both.0 == next
                &&& emission_count(m, ds.push(d), thread) == emission_count(m, ds, thread) + 1
                &&& both.1 == (is_an_error_now(before.0, d) && next.flags.treat_err_as_bug
                    is Some && next.errs.len() + next.lint_errs.len()
                    >= next.flags.treat_err_as_bug->0)
                &&& any_promises(m, ds.push(d), thread) == (any_promises(m, ds, thread)
                    || promises(before.0, d))
            }
        }),
{
    assert(ds.push(d).drop_last() =~= ds);
    let before = after_emissions(m, ds, thread);
    assert(fails(before.0, d) == is_an_error_now(before.0, d));
}

/// A bug that was delayed is flushed as it was, but as a bug; a note below what was below it says
/// where it was delayed, if that is asked for, and is about what the bug is about.
pub proof fn law_a_flushed_bug_is_the_delayed_one(
    bugs: Seq<DiagModel>,
    decorate: bool,
    hashes: Seq<u128>,
    i: int,
)
    requires
        0 <= i < bugs.len(),
        hashes.len() == bugs.len(),
    ensures
        ({
            let flushed = undelayed_all(bugs, decorate, hashes);
            let bug = bugs[i];
            let now = flushed[i];
            &&& flushed.len() == bugs.len()
            &&& now.level == Level::Bug
            &&& now.messages == bug.messages && now.code == bug.code && now.span == bug.span
                && now.args == bug.args && now.emitted_at == bug.emitted_at && now.is_lint
                == bug.is_lint && now.lint_id == bug.lint_id && now.rust_version
                == bug.rust_version
            &&& now.hashes.own == hashes[i]
            &&& !decorate ==> now.children == bug.children
            &&& decorate ==> {
                &&& now.children.len() == bug.children.len() + 1
                &&& now.children.drop_last() == bug.children
                &&& now.children.last().level == Level::Note
                &&& now.children.last().messages == seq![
                    (MessageModel::Str("delayed at "@ + bug.emitted_at), Style::NoStyle),
                ]
                &&& now.children.last().span.primaries == seq![
                    if bug.span.primaries.len() > 0 {
                        bug.span.primaries[0]
                    } else {
                        Span { lo: 0, hi: 0, ctxt: 0, parent: None }
                    },
                ]
            }
        }),
{
    let now = undelayed_all(bugs, decorate, hashes)[i];
    if decorate {
        assert(now.children.drop_last() =~= bugs[i].children);
    }
}

/// Delayed bugs are flushed exactly if there are some and no hard error was reported; two notes
/// come before them, and the bugs are not delayed any more.
pub proof fn law_a_flush_is_announced(
    m: DcxModel,
    at1: Seq<char>,
    at2: Seq<char>,
    hash1: u128,
    hash2: u128,
    thread: u64,
)
    requires
        m.msrv is None,
        !m.flags.deduplicate_diagnostics,
    ensures
        flushes(m) <==> m.errs.len() == 0 && m.delayed.len() > 0,
        ({
            let start = before_flush(m, at1, at2, hash1, hash2, thread);
            let n = m.output.len() as int;
            &&& start.delayed.len() == 0
            &&& start.errs == m.errs && start.lint_errs == m.lint_errs
            &&& start.output.len() == n + 2
            &&& start.output.take(n) == m.output
            &&& start.output[n].level == Level::Note && start.output[n + 1].level == Level::Note
            &&& start.output[n].messages == seq![
                (
                    MessageModel::Str(
                        "no errors encountered even though delayed bugs were created"@,
                    ),
                    Style::NoStyle,
                ),
            ]
            &&& start.output[n + 1].messages == seq![
                (
                    MessageModel::Str(
                        "those delayed bugs will now be shown as internal compiler errors"@,
                    ),
                    Style::NoStyle,
                ),
            ]
        }),
{
    let m0 = DcxModel { delayed: Seq::empty(), ..m };
    let d1 = crate::errors::dcx::flush_note_1(at1, hash1);
    let d2 = crate::errors::dcx::flush_note_2(at2, hash2);
    let m1 = after_emission(m0, d1, thread, false);
    let m2 = after_emission(m1, d2, thread, false);
    law_an_emission_prints_what_it_should(m0, d1, thread, false);
    law_an_emission_counts_what_went_wrong(m0, d1, thread, false);
    law_printing_shows_the_diagnostic(m0, d1);
    law_an_emission_prints_what_it_should(m1, d2, thread, false);
    law_an_emission_counts_what_went_wrong(m1, d2, thread, false);
    law_printing_shows_the_diagnostic(m1, d2);
    let n = m.output.len() as int;
    assert(m2.output.drop_last() == m1.output);
    assert(m1.output.drop_last() == m.output);
    assert(m1.output[n] == m1.output.last());
    assert(m2.output[n] == m2.output.drop_last()[n]);
    assert(m2.output[n + 1] == m2.output.last());
    assert(m2.output.take(n) =~= m1.output.drop_last());
}

/// The delayed bug that goes with an error that is put aside names the key, the span and the place.
pub proof fn law_what_is_put_aside_leaves_a_trace(
    key: StashKey,
    span: Span,
    at: Seq<char>,
    hashes: DiagHashes,
)
    ensures
        ({
            let bug = stashing_bug(key, span, at, hashes);
            &&& bug.level == Level::DelayedBug
            &&& bug.messages == seq![
                (MessageModel::Str("stashing "@ + key.name()), Style::NoStyle),
            ]
            &&& bug.span.primaries == seq![span]
            &&& bug.emitted_at == at
            &&& bug.hashes == hashes
        }),
{
}

/// How many errors there were: those that were reported, lints among them, and those put aside that
/// count. On a thread, those of the thread.
pub proof fn law_every_error_is_counted(m: DcxModel, thread: u64)
    ensures
        total_errors(m) == m.errs.len() + m.lint_errs.len() + all_values(m.stash).filter(
            |s: Stashed| s.guar is Some,
        ).len(),
        total_errors_on(m, thread) == m.errs.filter(|t: u64| t == thread).len()
            + m.lint_errs.filter(|t: u64| t == thread).len() + all_values(m.stash).filter(
            |s: Stashed| s.guar is Some && s.thread == thread,
        ).len(),
        total_errors(m) > 0 <==> failed(m),
{
    law_what_was_put_aside_is_counted(all_values(m.stash), thread);
    law_a_threads_errors_are_its_own(m.errs, thread);
    law_a_threads_errors_are_its_own(m.lint_errs, thread);
    lemma_counted_is_there(all_values(m.stash));
}

proof fn lemma_counted_is_there(values: Seq<Stashed>)
    ensures
        error_count(values) > 0 <==> stashed_error(values),
    decreases values.len(),
{
    if values.len() > 0 {
        let front = values.drop_last();
        lemma_counted_is_there(front);
        if stashed_error(front) {
            let i = choose|i: int| 0 <= i < front.len() && (#[trigger] front[i]).guar is Some;
            assert(values[i] == front[i]);
        }
        if stashed_error(values) {
            let i = choose|i: int| 0 <= i < values.len() && (#[trigger] values[i]).guar is Some;
            if i < front.len() {
                assert(front[i] == values[i]);
            }
        }
        assert(values[values.len() - 1] == values.last());
    }
}

/// Starting over forgets what was diagnosed and keeps how the context was set up: its flags, its
/// file, its version, its age, and what was printed and not taken yet.
pub proof fn law_starting_over_forgets_every_error(m: DcxModel)
    ensures
        ({
            let after = after_reset(m);
            &&& after.errs.len() == 0 && after.lint_errs.len() == 0 && after.delayed.len() == 0
            &&& after.shown_errs == 0 && after.shown_warns == 0
            &&& after.stash.len() == 0 && after.replay is None
            &&& after.emitted == Set::<u128>::empty() && after.taught == Set::<u128>::empty()
            &&& after.codes.len() == 0 && after.fulfilled.len() == 0
                && after.future_breakage.len() == 0
            &&& !after.has_printed && !after.must_produce_diag && !after.suppressed_expected_diag
                && !after.depth_limit_shown
            &&& after.flags == m.flags && after.ice_file == m.ice_file && after.msrv == m.msrv
                && after.created == m.created && after.output == m.output
            &&& !failed(after)
        }),
{
    assert(all_values(after_reset(m).stash).len() == 0);
}

/// A context owes a diagnostic exactly while one has to be produced and none was printed or
/// suppressed.
pub proof fn law_a_promised_diagnostic_is_owed(m: DcxModel)
    ensures
        owes_a_diagnostic(m) <==> m.must_produce_diag && !(m.has_printed
            || m.suppressed_expected_diag),
{
}

/// A replayed delayed bug is kept while nothing went wrong; a replayed change of what is put aside
/// goes behind those that were logged, and changes nothing else.
pub proof fn law_a_replayed_event_takes_its_turn(m: DcxModel, d: DiagModel, op: StashOp)
    ensures
        after_replay(m, EventModel::Print(d)) == printed(m, d),
        ({
            let after = after_replay(m, EventModel::DelayedBug(d));
            &&& after.delayed == (if went_wrong(m) {
                m.delayed
            } else {
                m.delayed.push(d)
            })
            &&& after.output == m.output && after.errs == m.errs && after.lint_errs == m.lint_errs
        }),
        ({
            let after = after_replay(m, EventModel::Stash(op));
            &&& after.stash == m.stash && after.output == m.output && after.delayed == m.delayed
            &&& m.replay is None ==> after.replay is None
            &&& m.replay matches Some(replay) ==> after.replay is Some && after.replay->0.base
                == replay.base && after.replay->0.log == replay.log.push(op)
        }),
        // Inside an item the log is begun before the change, and the change comes with the replay.
        ({
            let begun = with_logged_op(m, op, true);
            &&& begun.stash == m.stash && begun.replay is Some
            &&& m.replay is Some ==> begun.replay == m.replay
            &&& m.replay is None ==> begun.replay->0.log.len() == 0 && begun.replay->0.base
                == crate::errors::stash::shape_of(m.stash)
            &&& with_logged_op(m, op, false) == after_replay(m, EventModel::Stash(op))
        }),
{
}

/// A serial context emits what was put aside in the order in which it is put aside, and nothing is
/// put aside afterwards.
pub proof fn law_what_was_put_aside_is_emitted_in_order(m: DcxModel)
    ensures
        m.replay is None ==> stashed_in_order(m) == all_values(m.stash),
        without_stash(m).stash.len() == 0,
        without_stash(m).errs == m.errs && without_stash(m).lint_errs == m.lint_errs
            && without_stash(m).output == m.output && without_stash(m).delayed == m.delayed,
{
}

/// Whether there was a hard error: one that is no lint, reported or put aside.
pub proof fn law_a_hard_error_is_no_lint(m: DcxModel)
    ensures
        stashed_hard_error(all_values(m.stash)) <==> exists|i: int|
            0 <= i < all_values(m.stash).len() && (#[trigger] all_values(m.stash)[i]).guar is Some
                && all_values(m.stash)[i].diag@.is_lint is None,
        at_limit(m) <==> m.flags.treat_err_as_bug is Some && m.errs.len() + m.lint_errs.len()
            >= m.flags.treat_err_as_bug->0,
{
    let values = all_values(m.stash);
    if stashed_hard_error(values) {
        let i = choose|i: int|
            0 <= i < values.len() && (#[trigger] values[i]).guar is Some && values[i].diag.is_lint
                is None;
        assert(values[i].diag@.is_lint is None);
    }
    if exists|i: int|
        0 <= i < values.len() && (#[trigger] values[i]).guar is Some && values[i].diag@.is_lint
            is None {
        let i = choose|i: int|
            0 <= i < values.len() && (#[trigger] values[i]).guar is Some
                && values[i].diag@.is_lint is None;
        assert(values[i].diag.is_lint is None);
    }
}

/// Upper and lower case letters count as the same, and no other characters do: two texts are the
/// same if they are so letter by letter.
pub proof fn law_case_does_not_count(a: Seq<char>, b: Seq<char>, i: int)
    ensures
        ascii_lower('A') == 'a' && ascii_lower('Z') == 'z',
        same_ignoring_case(a, b) ==> a.len() == b.len(),
        same_ignoring_case(a, b) && 0 <= i < a.len() ==> {
            ||| a[i] == b[i]
            ||| 'A' <= a[i] <= 'Z' && b[i] as u32 == a[i] as u32 + 32
            ||| 'A' <= b[i] <= 'Z' && a[i] as u32 == b[i] as u32 + 32
        },
        a.len() == b.len() && (forall|k: int|
            0 <= k < a.len() ==> {
                ||| #[trigger] a[k] == b[k]
                ||| 'A' <= a[k] <= 'Z' && b[k] as u32 == a[k] as u32 + 32
                ||| 'A' <= b[k] <= 'Z' && a[k] as u32 == b[k] as u32 + 32
            }) ==> same_ignoring_case(a, b),
{
}

/// An error that is put aside is promised, and a delayed bug goes with it, so that the promise is
/// kept; anything else is put aside without either. What is put aside is found there.
pub proof fn law_only_an_error_put_aside_is_promised(
    dcx: &mut DiagCtxt,
    span: Span,
    key: StashKey,
    diag: DiagInner,
    at: String,
    bug: DiagHashes,
    thread: u64,
    captured: bool,
    out: Stashing,
)
    requires
        diag@.level != Level::DelayedBug,
        call_ensures(
            DiagCtxt::stash_diagnostic,
            (dcx, span, key, diag, at, bug, thread, captured),
            out,
        ),
    ensures
        out.guar is Some <==> diag@.level == Level::Error,
        diag@.level != Level::Error ==> {
            &&& out.abort is None
            &&& !out.taints
            &&& out.hooked is None
            &&& final(dcx)@.errs == old(dcx)@.errs
            &&& final(dcx)@.lint_errs == old(dcx)@.lint_errs
            &&& final(dcx)@.delayed == old(dcx)@.delayed
            &&& out.events@.len() == (if captured {
                1nat
            } else {
                0
            })
        },
        diag@.level == Level::Error && !captured && out.abort is None ==> {
            let traced = after_emission(
                old(dcx)@,
                stashing_bug(key, span, at@, bug),
                thread,
                false,
            );
            &&& final(dcx)@.delayed == traced.delayed
            &&& final(dcx)@.errs == traced.errs
            &&& final(dcx)@.lint_errs == traced.lint_errs
        },
{
    assert(event_models(out.events@).len() == out.events@.len());
}

} // verus!
