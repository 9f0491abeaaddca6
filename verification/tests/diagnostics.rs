use frontend::error_messages::args::join_with_and;
use frontend::error_messages::args::template_value;
use frontend::error_messages::args::DiagArgFromDisplay;
use frontend::error_messages::args::DiagArgValue;
use frontend::error_messages::args::IntoDiagArg;
use frontend::error_messages::args::LongTyPath;
use frontend::error_messages::args::TemplateValue;
use frontend::error_messages::message::render_message;
use frontend::error_messages::message::try_render_message;
use frontend::error_messages::message::DiagMessage;
use frontend::error_messages::message::RenderFault;
use frontend::error_messages::message::Rendered;
use frontend::error_messages::message::TemplateFault;
use frontend::error_messages::span::MultiSpan;
use frontend::error_messages::span::Span;
use frontend::errors::codes::ErrCode;
use frontend::errors::dcx::DiagCtxt;
use frontend::errors::dcx::DiagCtxtFlags;
use frontend::errors::dcx::EventKind;
use frontend::errors::dcx::Flush;
use frontend::errors::diag::DiagHashes;
use frontend::errors::diag::DiagInner;
use frontend::errors::diag::IsLint;
use frontend::errors::diag::RustcVersion;
use frontend::errors::diagnostic_impls::DiagSymbolList;
use frontend::errors::diagnostic_impls::SingleLabelManySpans;
use frontend::errors::formatting::delayed_bug_line;
use frontend::errors::formatting::diag_message_source;
use frontend::errors::formatting::format_diag_message;
use frontend::errors::formatting::format_diag_messages;
use frontend::errors::formatting::try_format_diag_message;
use frontend::errors::formatting::DiagMessageAddArg;
use frontend::errors::handle::DiagCtxtHandle;
use frontend::errors::handle::Diagnostic;
use frontend::errors::level::Level;
use frontend::errors::level::Style;
use frontend::errors::plain_emitter::PlainEmitter;
use frontend::errors::stash::Stash;
use frontend::errors::stash::StashKey;
use frontend::errors::stash::StashOp;
use frontend::errors::stash::StashReplay;
use frontend::errors::suggestion::a_or_an;
use frontend::errors::suggestion::as_substr;
use frontend::errors::suggestion::elided_lifetime_in_path_suggestion;
use frontend::errors::suggestion::Suggestions;
use frontend::errors::suggestion::TrimmedSubstitutionPart;

fn text(s: &str) -> String {
    s.to_string()
}

fn span(lo: u32, hi: u32) -> Span {
    Span { lo, hi, ctxt: 0, parent: None }
}

fn hashes(n: u128) -> DiagHashes {
    DiagHashes { own: n, as_error: n + 1, as_bug: n + 2 }
}

fn diag(level: Level, s: &str, n: u128) -> DiagInner {
    DiagInner::new(level, text(s).into(), text("here"), hashes(n))
}

fn flags() -> DiagCtxtFlags {
    DiagCtxtFlags {
        can_emit_warnings: true,
        treat_err_as_bug: None,
        eagerly_emit_delayed_bugs: false,
        macro_backtrace: false,
        deduplicate_diagnostics: true,
        track_diagnostics: false,
    }
}

fn context() -> DiagCtxt {
    DiagCtxt::new(0).with_flags(flags())
}

fn shown(dcx: &mut DiagCtxt) -> Vec<String> {
    dcx.take_output()
        .iter()
        .map(|d| format!("{}: {}", d.level.to_str(), diag_message_source(&d.messages[0].0)))
        .collect()
}

#[test]
fn lists_end_in_and() {
    let list = |parts: &[&str]| join_with_and(&parts.iter().map(|p| text(p)).collect());
    assert_eq!(list(&[]), "");
    assert_eq!(list(&["a"]), "a");
    assert_eq!(list(&["a", "b"]), "a and b");
    assert_eq!(list(&["a", "b", "c"]), "a, b, and c");
}

#[test]
fn values_become_arguments() {
    let mut path: LongTyPath = None;
    assert!(matches!(7u8.into_diag_arg(&mut path), DiagArgValue::Number(7)));
    assert!(matches!(u64::MAX.into_diag_arg(&mut path), DiagArgValue::Str(s) if s == "18446744073709551615"));
    assert!(matches!((-5i64).into_diag_arg(&mut path), DiagArgValue::Number(-5)));
    assert!(matches!(true.into_diag_arg(&mut path), DiagArgValue::Str(s) if s == "true"));
    assert!(matches!('x'.into_diag_arg(&mut path), DiagArgValue::Str(s) if s == "'x'"));
    assert!(matches!('\n'.into_diag_arg(&mut path), DiagArgValue::Str(s) if s == "'\\n'"));
    assert!(matches!("x".into_diag_arg(&mut path), DiagArgValue::Str(s) if s == "x"));
    assert!(matches!(DiagArgFromDisplay("y").into_diag_arg(&mut path), DiagArgValue::Str(s) if s == "y"));
    let names = DiagSymbolList::from_names(vec![text("a"), text("b")]).into_diag_arg(&mut path);
    assert!(matches!(template_value(&names), TemplateValue::Text(s) if s == "`a` and `b`"));
    assert!(matches!(template_value(&DiagArgValue::Number(3)), TemplateValue::Number(3)));
    assert!(path.is_none());
}

#[test]
fn spans_of_a_message() {
    let mut spans = MultiSpan::new();
    assert!(!spans.has_primary_spans());
    assert_eq!(spans.primary_span(), None);
    spans.push_primary_span(span(1, 2));
    spans.push_span_label(span(5, 6), DiagMessage::Str(text("here")));
    assert!(spans.has_span_labels());
    assert_eq!(spans.span_labels().len(), 2);
    assert!(spans.replace(span(5, 6), span(7, 8)));
    assert!(!spans.replace(span(5, 6), span(7, 8)));
    assert_eq!(spans.span_labels_raw()[0].0, span(7, 8));
    assert!(!spans.clone_ignoring_labels().has_span_labels());
    assert_eq!(spans.copy().primary_spans(), &vec![span(1, 2)]);
    let sorted = MultiSpan::from_spans(vec![span(9, 9), span(3, 4)]);
    assert_eq!(sorted.primary_spans(), &vec![span(3, 4), span(9, 9)]);
    assert!(MultiSpan::from_span(span(0, 0)).is_dummy());
    assert_eq!(span(3, 8).shrink_to_hi(), span(8, 8));
}

#[test]
fn one_label_for_many_spans() {
    let mut spans = MultiSpan::new();
    SingleLabelManySpans { spans: vec![span(1, 2), span(3, 4)], label: text("l") }
        .add_to_span(&mut spans);
    assert_eq!(spans.span_labels_raw().len(), 2);
}

#[test]
fn codes_have_four_digits() {
    assert_eq!(ErrCode::from_u32(7).to_text(), "E0007");
    assert_eq!(ErrCode::from_u32(9999).to_text(), "E9999");
    assert_eq!(ErrCode::from_u32(308).as_u32(), 308);
}

#[test]
fn levels_have_names() {
    assert_eq!(Level::Bug.to_str(), "error: internal compiler error");
    assert_eq!(Level::Fatal.to_str(), "error");
    assert_eq!(Level::OnceNote.to_str(), "note");
    assert!(Level::DelayedBug.is_error());
    assert!(!Level::Warning.is_error());
    assert!(Level::FailureNote.is_failure_note());
}

#[test]
fn templates_are_filled_or_shown_raw() {
    let plain = DiagMessage::Str(text("p"));
    let inline = DiagMessage::Inline(text("{$x}"));
    assert_eq!(try_format_diag_message(&plain, &None), Some("p"));
    assert_eq!(try_format_diag_message(&inline, &None), None);
    assert_eq!(format_diag_message(&inline, &Some(text("9"))), "9");
    let messages = vec![(plain, Style::NoStyle), (inline, Style::NoStyle)];
    assert_eq!(format_diag_messages(&messages, &vec![None, Some(text("9"))]), "p9");
}

#[test]
fn a_template_needs_every_argument() {
    let whole = || Ok(Rendered { text: text("got 4"), unresolved: vec![] });
    let partial = || Ok(Rendered { text: text("got {$n}"), unresolved: vec![text("n")] });
    let broken = || Err(TemplateFault { offset: 3, message: text("no closing brace") });
    assert!(matches!(render_message(whole()), Ok(t) if t == "got 4"));
    assert!(matches!(render_message(partial()), Err(RenderFault::Unresolved(n)) if n == ["n"]));
    assert!(matches!(render_message(broken()), Err(RenderFault::Unreadable(f)) if f.offset == 3));
    assert_eq!(try_render_message(whole()), Some(text("got 4")));
    assert_eq!(try_render_message(partial()), None);
    assert_eq!(try_render_message(broken()), None);
}

#[test]
fn a_message_can_be_filled_early() {
    let builder = DiagMessage::Inline(text("{$n}")).arg(text("n"), 4u8).arg(text("n"), 4u8);
    assert_eq!(builder.template(), "{$n}");
    assert_eq!(builder.arguments().len(), 1);
    assert!(matches!(builder.arguments().at(0).1, DiagArgValue::Number(4)));
    assert_eq!(diag_message_source(&builder.format(text("4"))), "4");
}

#[test]
fn plain_lines() {
    let mut d = diag(Level::Error, "two\n  lines", 1);
    d.code = Some(ErrCode::from_u32(1));
    d.span = MultiSpan::from_span(span(3, 4));
    let emitter = PlainEmitter::new();
    assert_eq!(emitter.render(&d, &vec![None], "f.rs:1:2"), "error[E0001]: two lines\n");
    let located = PlainEmitter::new().sm(true);
    assert_eq!(
        located.render(&d, &vec![None], "f.rs:1:2"),
        "error[E0001]: two lines\n  --> f.rs:1:2\n"
    );
    d.messages = vec![(DiagMessage::Inline(text("{$a}")), Style::NoStyle)];
    d.args.insert(text("a"), DiagArgValue::Number(5));
    assert_eq!(emitter.render(&d, &vec![None], ""), "error[E0001]: {$a}\n  a = 5\n");
    assert_eq!(emitter.render(&d, &vec![Some(text("5"))], ""), "error[E0001]: 5\n");
    let short = PlainEmitter::new().short_message(true);
    assert_eq!(short.render(&d, &vec![None], ""), "error[E0001]: {$a}\n");
    let mut kept = PlainEmitter::default().dst(String::new());
    assert_eq!(kept.emit_diagnostic(&d, &vec![None], ""), None);
    let mut loose = PlainEmitter::new();
    assert_eq!(loose.emit_diagnostic(&d, &vec![Some(text("5"))], "").unwrap(), "error[E0001]: 5\n");
}

#[test]
fn errors_are_counted_and_shown() {
    let mut dcx = context();
    assert!(dcx.has_errors().is_none());
    let out = dcx.emit_diagnostic(diag(Level::Error, "bad", 1), 7, false);
    assert!(out.guar.is_some() && out.taints && out.abort.is_none());
    assert_eq!(dcx.err_count(), 1);
    assert_eq!(dcx.err_count_on_current_thread(7), 1);
    assert_eq!(dcx.err_count_on_current_thread(8), 0);
    assert!(dcx.has_errors().is_some());
    let warned = dcx.emit_diagnostic(diag(Level::Warning, "hm", 10), 7, false);
    assert!(warned.guar.is_none() && !warned.taints);
    dcx.print_error_count(text("here"), hashes(100), 7);
    assert_eq!(
        shown(&mut dcx),
        vec![
            "error: bad",
            "warning: hm",
            "error: aborting due to 1 previous error; 1 warning emitted",
        ]
    );
}

#[test]
fn duplicates_are_shown_once_but_counted() {
    let mut dcx = context();
    dcx.emit_diagnostic(diag(Level::Error, "bad", 1), 0, false);
    dcx.emit_diagnostic(diag(Level::Error, "bad", 1), 0, false);
    assert_eq!(shown(&mut dcx), vec!["error: bad"]);
    assert_eq!(dcx.err_count(), 2);
}

#[test]
fn warnings_can_be_silenced() {
    let mut dcx = context().disable_warnings();
    assert!(!dcx.can_emit_warnings());
    let silenced = dcx.emit_diagnostic(diag(Level::Warning, "hm", 1), 0, false);
    assert_eq!(silenced.hooked, None);
    let mut later = diag(Level::Warning, "later an error", 4);
    later.is_lint = Some(IsLint { name: text("l"), has_future_breakage: true });
    assert_eq!(dcx.emit_diagnostic(later, 0, false).hooked, Some(Level::Warning));
    let forced = dcx.emit_diagnostic(diag(Level::ForceWarning, "must", 2), 0, false);
    assert_eq!(forced.hooked, Some(Level::ForceWarning));
    let delayed = dcx.emit_diagnostic(diag(Level::DelayedBug, "hidden", 6), 0, false);
    assert_eq!(delayed.hooked, None);
    assert_eq!(shown(&mut dcx), vec!["warning: must"]);
}

#[test]
fn lint_errors_are_told_apart() {
    let mut dcx = context();
    let mut lint = diag(Level::Error, "style", 1);
    lint.is_lint = Some(IsLint { name: text("l"), has_future_breakage: true });
    let out = dcx.emit_diagnostic(lint, 0, false);
    assert!(out.guar.is_some() && !out.taints);
    assert!(dcx.has_errors().is_some());
    assert!(dcx.has_errors_excluding_lint_errors().is_none());
    assert_eq!(dcx.emit_future_breakage_report().unwrap().len(), 1);
    assert!(dcx.emit_future_breakage_report().is_none());
}

#[test]
fn the_limit_of_errors_stops_the_compiler() {
    let mut limit = flags();
    limit.treat_err_as_bug = Some(2);
    let mut dcx = DiagCtxt::new(0).with_flags(limit);
    assert_eq!(dcx.emit_diagnostic(diag(Level::Error, "one", 1), 0, false).abort, None);
    assert_eq!(
        dcx.emit_diagnostic(diag(Level::Error, "two", 9), 0, false).abort.unwrap(),
        "aborting after 2 errors due to `-Z treat-err-as-bug=2`"
    );
    assert_eq!(shown(&mut dcx), vec!["error: one", "error: internal compiler error: two"]);
}

#[test]
fn delayed_bugs_show_up_when_nothing_went_wrong() {
    let mut dcx = context();
    let out = dcx.emit_diagnostic(diag(Level::DelayedBug, "later", 1), 0, false);
    assert!(out.guar.is_some());
    assert!(dcx.has_errors().is_none());
    assert!(dcx.has_errors_or_delayed_bugs().is_some());
    assert_eq!(dcx.delayed_bugs().len(), 1);
    let flushed = dcx.flush_delayed(false, text("here"), text("there"), 50, 51, &vec![52], 0);
    assert!(matches!(flushed, Flush::Stopped { emitted: 1, abort } if abort == "DelayedBugPanic"));
    assert_eq!(
        shown(&mut dcx),
        vec![
            "note: no errors encountered even though delayed bugs were created",
            "note: those delayed bugs will now be shown as internal compiler errors",
            "error: internal compiler error: later",
        ]
    );
}

#[test]
fn a_delayed_bug_says_where_it_was_delayed() {
    let who = DiagCtxtHandle { thread: 0, captured: false };
    let mut dcx = context();
    who.delayed_bug(&mut dcx, text("later"), text("src/a.rs:3:7"), hashes(1));
    let about = MultiSpan::from_span(span(4, 6));
    who.span_delayed_bug(&mut dcx, about, text("even later"), text("src/b.rs:8:2"), hashes(10));
    dcx.flush_delayed(false, text("here"), text("there"), 50, 51, &vec![52, 53], 0);
    let output = dcx.take_output();
    let places: Vec<&str> = output.iter().map(|d| d.emitted_at.as_str()).collect();
    assert_eq!(places, vec!["here", "there", "src/a.rs:3:7", "src/b.rs:8:2"]);
    let note = &output[2].children[0];
    assert_eq!(note.messages[0].0.as_str(), Some("delayed at src/a.rs:3:7"));
    assert!(note.span.primary_span() == Some(span(0, 0)));
    let note = &output[3].children[0];
    assert_eq!(note.messages[0].0.as_str(), Some("delayed at src/b.rs:8:2"));
    assert!(note.span.primary_span() == Some(span(4, 6)));
}

#[test]
fn an_error_put_aside_says_where_if_it_gets_lost() {
    let mut dcx = context();
    let key = StashKey::CallIntoMethod;
    let aside = diag(Level::Error, "aside", 1);
    dcx.stash_diagnostic(span(1, 2), key, aside, text("src/c.rs:1:1"), hashes(5), 0, false);
    assert!(dcx.steal(span(1, 2), key, false).0.is_some());
    dcx.flush_delayed(false, text("here"), text("there"), 50, 51, &vec![52], 0);
    let output = dcx.take_output();
    let note = &output[2].children[0];
    assert_eq!(note.messages[0].0.as_str(), Some("delayed at src/c.rs:1:1"));
}

struct Unknown(&'static str);

impl Diagnostic for Unknown {
    fn into_diag(self, _who: DiagCtxtHandle, level: Level) -> DiagInner {
        let template = DiagMessage::Inline(text(self.0));
        DiagInner::new(level, template, text("src/u.rs:1:1"), hashes(self.0.len() as u128 * 10))
    }
}

#[test]
fn a_diagnostic_can_have_a_type_of_its_own() {
    let who = DiagCtxtHandle { thread: 0, captured: false };
    let mut dcx = context();
    let made = who.create_warn(Unknown("no {$what}"));
    assert_eq!(made.level, Level::Warning);
    assert!(matches!(&made.messages[0].0, DiagMessage::Inline(t) if t == "no {$what}"));
    assert_eq!(who.create_almost_fatal(Unknown("x")).level, Level::Fatal);
    assert!(who.emit_note(&mut dcx, Unknown("aside")).guar.is_none());
    assert!(who.emit_err(&mut dcx, Unknown("bad")).guar.is_some());
    assert_eq!(dcx.err_count(), 1);
    let levels: Vec<Level> = dcx.take_output().iter().map(|d| d.level).collect();
    assert_eq!(levels, vec![Level::Note, Level::Error]);
}

#[test]
fn an_error_makes_delayed_bugs_moot() {
    let mut dcx = context();
    dcx.emit_diagnostic(diag(Level::DelayedBug, "later", 1), 0, false);
    dcx.emit_diagnostic(diag(Level::Error, "bad", 9), 0, false);
    assert_eq!(dcx.delayed_bugs().len(), 0);
    assert!(dcx.emit_diagnostic(diag(Level::DelayedBug, "moot", 19), 0, false).guar.is_some());
    assert!(matches!(dcx.flush_delayed(false, text("here"), text("there"), 50, 51, &vec![], 0), Flush::Nothing));
    assert_eq!(shown(&mut dcx), vec!["error: bad"]);
}

#[test]
fn what_an_item_captures_is_replayed() {
    let mut dcx = context();
    let out = dcx.emit_diagnostic(diag(Level::Error, "bad", 1), 3, true);
    assert_eq!(dcx.err_count(), 1);
    assert!(shown(&mut dcx).is_empty());
    dcx.replay(out.event.unwrap());
    assert_eq!(shown(&mut dcx), vec!["error: bad"]);
    assert_eq!(dcx.err_count(), 1);
    let bug = dcx.emit_diagnostic(diag(Level::Warning, "w", 9), 3, true);
    assert!(matches!(bug.event, Some(EventKind::Print(_))));
}

#[test]
fn diagnostics_can_be_put_aside() {
    let mut dcx = context();
    let key = StashKey::ItemNoType;
    let stashed = dcx.stash_diagnostic(span(1, 2), key, diag(Level::Error, "aside", 1), text("stash.rs:9:1"), hashes(5), 0, false);
    assert!(stashed.guar.is_some());
    assert!(dcx.has_stashed_diagnostic(span(1, 2), key));
    assert!(!dcx.has_stashed_diagnostic(span(1, 3), key));
    assert_eq!(dcx.err_count(), 1);
    assert!(shown(&mut dcx).is_empty());
    let (stolen, event) = dcx.steal(span(1, 2), key, false);
    assert!(stolen.is_some() && event.is_none());
    assert!(dcx.steal(span(1, 2), key, false).0.is_none());
    dcx.stash_diagnostic(span(3, 4), key, diag(Level::Error, "still", 10), text("stash.rs:9:1"), hashes(15), 0, false);
    let (guar, abort) = dcx.emit_stashed_diagnostics(0);
    assert!(guar.is_some() && abort.is_none());
    assert_eq!(shown(&mut dcx), vec!["error: still"]);
}

#[test]
fn a_handle_emits_for_a_thread() {
    let who = DiagCtxtHandle { thread: 4, captured: false };
    let mut dcx = context();
    assert!(who.abort_if_errors(&dcx).is_none());
    who.warn(&mut dcx, "w".into(), text("here"), hashes(1));
    who.note(&mut dcx, text("n").into(), text("here"), hashes(10));
    who.delayed_bug(&mut dcx, text("d"), text("here"), hashes(20));
    let out = who.span_err(&mut dcx, MultiSpan::from_span(span(1, 2)), "e".into(), text("here"), hashes(30));
    assert!(out.guar.is_some());
    assert!(who.abort_if_errors(&dcx).is_some());
    assert_eq!(dcx.err_count_on_current_thread(4), 1);
    assert_eq!(shown(&mut dcx), vec!["warning: w", "note: n", "error: e"]);
    assert_eq!(who.struct_expect("x".into(), 9, text("here"), hashes(40)).lint_id, Some(9));
}

#[test]
fn an_error_put_aside_can_be_replaced() {
    let who = DiagCtxtHandle { thread: 0, captured: false };
    let key = StashKey::CallIntoMethod;
    let mut dcx = context();
    dcx.stash_diagnostic(span(1, 2), key, diag(Level::Error, "old", 1), text("stash.rs:9:1"), hashes(5), 0, false);
    who.try_steal_replace_and_emit_err(&mut dcx, span(1, 2), key, diag(Level::Error, "new", 10));
    assert_eq!(shown(&mut dcx), vec!["error: new"]);
    let late = diag(Level::DelayedBug, "late", 90);
    let (out, _) = who.try_steal_replace_and_emit_err(&mut dcx, span(5, 6), key, late);
    assert!(out.guar.is_some());
    dcx.stash_diagnostic(span(1, 2), key, diag(Level::Error, "old", 20), text("stash.rs:9:1"), hashes(25), 0, false);
    let (out, _) = who.try_steal_modify_and_emit_err(&mut dcx, span(1, 2), key, |mut d| {
        d.messages = vec![(DiagMessage::Str(text("changed")), Style::NoStyle)];
        d
    });
    assert!(out.unwrap().guar.is_some());
    assert_eq!(shown(&mut dcx), vec!["error: changed"]);
    assert!(who.try_steal_modify_and_emit_err(&mut dcx, span(1, 2), key, |d| d).0.is_none());
    dcx.stash_diagnostic(span(8, 9), key, diag(Level::Warning, "w", 40), text("stash.rs:9:1"), hashes(45), 0, false);
    assert!(who.steal_non_err(&mut dcx, span(8, 9), key).0.is_some());
}

#[test]
fn a_promise_of_a_diagnostic_is_kept_track_of() {
    let mut dcx = context();
    dcx.set_must_produce_diag();
    assert!(dcx.owes_diagnostic());
    dcx.emit_diagnostic(diag(Level::Error, "bad", 1), 0, false);
    assert!(!dcx.owes_diagnostic());
}

#[test]
fn teaching_happens_once() {
    let mut dcx = context();
    assert!(dcx.must_teach(ErrCode::from_u32(3)));
    assert!(!dcx.must_teach(ErrCode::from_u32(3)));
    assert!(dcx.must_teach(ErrCode::from_u32(4)));
}

#[test]
fn a_context_can_start_over() {
    let mut dcx = context().with_msrv(RustcVersion { major: 1, minor: 2, patch: 3 });
    dcx.emit_diagnostic(diag(Level::Error, "bad", 1), 0, false);
    dcx.take_output();
    dcx.reset_err_count();
    assert_eq!(dcx.err_count(), 0);
    dcx.emit_diagnostic(diag(Level::Error, "bad", 1), 0, false);
    assert_eq!(shown(&mut dcx), vec!["error: bad"]);
    assert_eq!(dcx.created(), 0);
}

#[test]
fn expectations_are_fulfilled() {
    let mut dcx = context();
    let mut expected = diag(Level::Expect, "x", 1);
    expected.lint_id = Some(77);
    dcx.emit_diagnostic(expected, 0, false);
    let ids = dcx.steal_fulfilled_expectation_ids();
    assert_eq!(ids.len(), 1);
    assert!(ids.contains(77));
    assert_eq!(dcx.emit_unused_externs(true, true, 0), None);
    assert_eq!(dcx.err_count(), 1);
}

#[test]
fn a_stash_keeps_the_order_of_a_serial_run() {
    let key = StashKey::ItemNoType;
    let mut stash: Stash<u32> = Stash::new();
    let mut replay = StashReplay::begin(&stash);
    stash.insert(key, span(2, 2), 20);
    stash.insert(key, span(1, 1), 10);
    replay.record(StashOp::Insert(key, span(1, 1)));
    replay.record(StashOp::Insert(key, span(2, 2)));
    assert_eq!(replay.in_serial_order(stash), vec![10, 20]);
    let mut other: Stash<u32> = Stash::new();
    assert!(other.is_empty());
    other.insert(key, span(2, 2), 20);
    other.insert(key, span(1, 1), 10);
    assert!(other.contains(key, span(1, 1)));
    assert_eq!(other.remove(key, span(2, 2)), Some(20));
    assert_eq!(other.into_values(), vec![10]);
    assert_eq!(StashKey::ItemNoType.to_str(), "ItemNoType");
}

#[test]
fn suggestions_that_only_add() {
    assert_eq!(as_substr("foo()", "foo(bar)"), Some((4, text("bar"), 1)));
    assert_eq!(as_substr("é", "éé"), Some((2, text("é"), 0)));
    assert_eq!(as_substr("foo", "bar"), None);
    let part = TrimmedSubstitutionPart {
        original_span: span(1, 3),
        span: span(1, 3),
        snippet: text("x"),
    };
    assert!(part.is_replacement(&Some(text("ab"))));
    assert!(part.is_addition(&Some(text("  "))));
    assert!(part.replaces_meaningful_content(&None));
    let gone = TrimmedSubstitutionPart {
        original_span: span(1, 3),
        span: span(1, 3),
        snippet: text(" "),
    };
    assert!(gone.is_deletion(&Some(text("ab"))));
    assert_eq!(Suggestions::default().len(), 0);
    assert_eq!(Suggestions::Disabled.unwrap_tag().len(), 0);
}

#[test]
fn articles() {
    assert_eq!(a_or_an("apple"), "an");
    assert_eq!(a_or_an("`Apple`"), "an");
    assert_eq!(a_or_an("&x"), "an");
    assert_eq!(a_or_an("pear"), "a");
    assert_eq!(a_or_an("`"), "a");
    assert_eq!(a_or_an(""), "a");
}

#[test]
fn elided_lifetimes() {
    let with = elided_lifetime_in_path_suggestion(true, 2, span(1, 5), true, span(5, 5));
    assert_eq!(with.expected.count, 2);
    assert_eq!(with.indicate.unwrap().suggestion, "<'_, '_>");
    let inside = elided_lifetime_in_path_suggestion(true, 2, span(1, 5), false, span(5, 5));
    assert_eq!(inside.indicate.unwrap().suggestion, "'_, '_, ");
    assert!(elided_lifetime_in_path_suggestion(false, 2, span(1, 5), true, span(5, 5)).indicate.is_none());
}

#[test]
fn delayed_bugs_have_lines_in_reports() {
    let bug = diag(Level::DelayedBug, "later", 1);
    let line = delayed_bug_line(&bug, &vec![None]);
    assert_eq!(line, "delayed bug: later\n");
}

#[test]
fn diagnostics_are_promoted() {
    let mut d = diag(Level::DelayedBug, "x", 10);
    d.promote(Level::Bug);
    assert_eq!(d.level, Level::Bug);
    assert_eq!(d.hashes.own, 12);
    d.sub_note(text("n"), MultiSpan::new());
    assert_eq!(d.children.len(), 1);
    assert!(d.is_error() && !d.is_force_warn() && !d.has_future_breakage());
    let same = d.copy();
    assert_eq!(same.hashes, d.hashes);
    let newer = RustcVersion { major: 1, minor: 80, patch: 0 };
    assert!(newer.is_after(RustcVersion { major: 1, minor: 79, patch: 9 }));
    assert!(!newer.is_after(newer));
}
