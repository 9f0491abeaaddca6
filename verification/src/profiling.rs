//! Timing of passes.
//!
//! Nothing records events, so the entry points of a profiler do nothing. What is left is the line
//! that is printed when a pass ends. The clock, the memory figures and their rounding come from
//! outside.

use vstd::prelude::*;
use vstd::string::StringExecFns;

use crate::interface::util::parse_number;
use crate::interface::util::parsed_number;
use crate::text::decimal;
use crate::text::decimal_text;
use crate::text::push_right_aligned;
use crate::text::right_aligned;
use crate::text::signed_decimal;
use crate::text::signed_decimal_text;
use crate::text::split_whitespace;
use crate::text::texts;
use crate::text::words;

verus! {

/// What tells one invocation of a query from another.
#[derive(Clone, Copy, Debug, PartialEq, Eq, Structural)]
pub struct QueryInvocationId(pub u32);

/// How passes are timed.
#[derive(Clone, Copy, Debug, PartialEq, Eq, Hash, Structural)]
pub enum TimePassesFormat {
    /// Text for people.
    Text,
    /// JSON for programs.
    Json,
}

/// A handle to the profiler.
#[derive(Clone, Copy, Debug, PartialEq, Eq, Structural)]
pub struct SelfProfilerRef {
    print_verbose_generic_activities: Option<TimePassesFormat>,
}

/// Ends an event; there is none.
#[must_use]
#[derive(Clone, Copy, Debug, PartialEq, Eq, Structural)]
pub struct TimingGuard;

/// Takes the arguments of an event; nothing records them.
pub struct EventArgRecorder {
    taken: bool,
}

impl EventArgRecorder {
    /// Takes an argument and drops it.
    pub fn record_arg(&mut self, _event_arg: &str)
        ensures
            *final(self) == *old(self),
    {
    }
}

impl TimingGuard {
    /// Ends the event under the number of an invocation. Nothing is recorded.
    pub fn finish_with_query_invocation_id(self, _query_invocation_id: QueryInvocationId) {
    }

    pub fn none() -> (guard: TimingGuard)
        ensures
            guard == TimingGuard,
    {
        TimingGuard
    }

    /// Runs `f` inside the event.
    pub fn run<R>(self, f: impl FnOnce() -> R) -> (r: R)
        requires
            call_requires(f, ()),
        ensures
            call_ensures(f, (), r),
    {
        f()
    }
}

impl SelfProfilerRef {
    /// How passes are timed, if they are.
    pub closed spec fn format(&self) -> Option<TimePassesFormat> {
        self.print_verbose_generic_activities
    }

    pub fn new(print_verbose_generic_activities: Option<TimePassesFormat>) -> (profiler:
        SelfProfilerRef)
        ensures
            profiler.format() == print_verbose_generic_activities,
    {
        SelfProfilerRef { print_verbose_generic_activities }
    }

    /// Starts to time a pass, if passes are timed. `start_rss` is the memory in use.
    pub fn verbose_generic_activity(
        &self,
        event_label: &str,
        start_rss: Option<usize>,
    ) -> (guard: VerboseTimingGuard)
        ensures
            guard@ == timed(self.format(), event_label@, start_rss),
    {
        match self.print_verbose_generic_activities {
            Some(format) => {
                let mut message = String::new();
                message.append(event_label);
                assert(message@ =~= event_label@);
                VerboseTimingGuard::start(Some((message, format)), start_rss)
            },
            None => VerboseTimingGuard::start(None, start_rss),
        }
    }

    /// As `verbose_generic_activity`, with an argument in brackets behind the label.
    pub fn verbose_generic_activity_with_arg(
        &self,
        event_label: &str,
        event_arg: &str,
        start_rss: Option<usize>,
    ) -> (guard: VerboseTimingGuard)
        ensures
            guard@ == timed(
                self.format(),
                event_label@ + seq!['('] + event_arg@ + seq![')'],
                start_rss,
            ),
    {
        match self.print_verbose_generic_activities {
            Some(format) => {
                let mut message = String::new();
                message.append(event_label);
                message.push('(');
                message.append(event_arg);
                message.push(')');
                assert(message@ =~= event_label@ + seq!['('] + event_arg@ + seq![')']);
                VerboseTimingGuard::start(Some((message, format)), start_rss)
            },
            None => VerboseTimingGuard::start(None, start_rss),
        }
    }

    pub fn generic_activity(&self, _event_label: &str) -> (guard: TimingGuard)
        ensures
            guard == TimingGuard,
    {
        TimingGuard::none()
    }

    pub fn generic_activity_with_arg(&self, _event_label: &str, _event_arg: &str) -> (guard:
        TimingGuard)
        ensures
            guard == TimingGuard,
    {
        TimingGuard::none()
    }

    /// The closure would record costly arguments; it is never called.
    pub fn generic_activity_with_arg_recorder<F: Fn(&EventArgRecorder)>(
        &self,
        _event_label: &str,
        _f: F,
    ) -> (guard: TimingGuard)
        ensures
            guard == TimingGuard,
    {
        TimingGuard::none()
    }

    pub fn generic_activity_with_args(&self, _event_label: &str, _event_args: &Vec<String>) -> (guard:
        TimingGuard)
        ensures
            guard == TimingGuard,
    {
        TimingGuard::none()
    }

    /// The size of an artifact; nothing records it.
    pub fn artifact_size(&self, _artifact_kind: &str, _artifact_name: &str, _size: u64) {
    }

    pub fn query_provider(&self) -> (guard: TimingGuard)
        ensures
            guard == TimingGuard,
    {
        TimingGuard::none()
    }

    /// A query was answered from memory; nothing records it.
    pub fn query_cache_hit(&self, _query_invocation_id: QueryInvocationId) {
    }

    pub fn query_blocked(&self) -> (guard: TimingGuard)
        ensures
            guard == TimingGuard,
    {
        TimingGuard::none()
    }

    pub fn incr_cache_loading(&self) -> (guard: TimingGuard)
        ensures
            guard == TimingGuard,
    {
        TimingGuard::none()
    }

    pub fn incr_result_hashing(&self) -> (guard: TimingGuard)
        ensures
            guard == TimingGuard,
    {
        TimingGuard::none()
    }

    /// Whether events are recorded: they are not.
    pub fn enabled(&self) -> (yes: bool)
        ensures
            !yes,
    {
        false
    }

    pub fn llvm_recording_enabled(&self) -> (yes: bool)
        ensures
            !yes,
    {
        false
    }

    pub fn is_args_recording_enabled(&self) -> (yes: bool)
        ensures
            !yes,
    {
        false
    }
}

/// A pass that is being timed: its name, how it is shown, and the memory in use when it began.
pub struct VerboseInfo {
    pub message: String,
    pub format: TimePassesFormat,
    pub start_rss: Option<usize>,
}

/// As `VerboseInfo`, with the name as its characters.
pub struct TimedPass {
    pub message: Seq<char>,
    pub format: TimePassesFormat,
    pub start_rss: Option<usize>,
}

/// The pass, if passes are timed.
pub open spec fn timed(
    format: Option<TimePassesFormat>,
    message: Seq<char>,
    start_rss: Option<usize>,
) -> Option<TimedPass> {
    match format {
        Some(format) => Some(TimedPass { message, format, start_rss }),
        None => None,
    }
}

/// Shows the timing of a pass when it ends.
#[must_use]
pub struct VerboseTimingGuard {
    info: Option<VerboseInfo>,
}

impl VerboseTimingGuard {
    pub closed spec fn view(&self) -> Option<TimedPass> {
        match self.info {
            Some(info) => Some(
                TimedPass {
                    message: info.message@,
                    format: info.format,
                    start_rss: info.start_rss,
                },
            ),
            None => None,
        }
    }

    /// Starts to time a pass, if there is something to show.
    pub fn start(
        message_and_format: Option<(String, TimePassesFormat)>,
        start_rss: Option<usize>,
    ) -> (guard: VerboseTimingGuard)
        ensures
            guard@ == (match message_and_format {
                Some((message, format)) => Some(
                    TimedPass { message: message@, format, start_rss },
                ),
                None => None,
            }),
    {
        match message_and_format {
            Some((message, format)) => VerboseTimingGuard {
                info: Some(VerboseInfo { message, format, start_rss }),
            },
            None => VerboseTimingGuard { info: None },
        }
    }

    /// Ends the pass: the line to print, if there is one.
    pub fn finish(self, measured: &Measured) -> (line: Option<String>)
        ensures
            match self@ {
                Some(pass) => shown(line) == entry_line(
                    pass.message,
                    measured@,
                    pass.start_rss,
                    pass.format,
                ),
                None => line is None,
            },
    {
        match self.info {
            Some(info) => print_time_passes_entry(
                info.message.as_str(),
                measured,
                info.start_rss,
                info.format,
            ),
            None => None,
        }
    }
}

/// What was measured when a pass ended, with the figures rounded and written out.
pub struct Measured {
    /// Whole milliseconds.
    pub millis: u128,
    /// Seconds, to three places.
    pub secs: String,
    /// Seconds, as JSON has them.
    pub time: String,
    pub end_rss: Option<usize>,
    /// Memory in use when the pass began and ended, and the change, in megabytes.
    pub start_mb: usize,
    pub end_mb: usize,
    pub change_mb: i128,
}

/// As `Measured`, with texts as their characters.
pub struct MeasuredModel {
    pub millis: nat,
    pub secs: Seq<char>,
    pub time: Seq<char>,
    pub end_rss: Option<usize>,
    pub start_mb: nat,
    pub end_mb: nat,
    pub change_mb: int,
}

impl View for Measured {
    type V = MeasuredModel;

    open spec fn view(&self) -> MeasuredModel {
        MeasuredModel {
            millis: self.millis as nat,
            secs: self.secs@,
            time: self.time@,
            end_rss: self.end_rss,
            start_mb: self.start_mb as nat,
            end_mb: self.end_mb as nat,
            change_mb: self.change_mb as int,
        }
    }
}

/// A line's characters.
pub open spec fn shown(line: Option<String>) -> Option<Seq<char>> {
    match line {
        Some(s) => Some(s@),
        None => None,
    }
}

/// The timing of a pass for programs. `time` is the seconds, as JSON has them.
pub struct JsonTimePassesEntry {
    pub pass: String,
    pub time: String,
    pub start_rss: Option<usize>,
    pub end_rss: Option<usize>,
}

/// A number of bytes, or `null`.
pub open spec fn json_number(n: Option<usize>) -> Seq<char> {
    match n {
        Some(n) => decimal(n as nat),
        None => "null"@,
    }
}

/// The timing of a pass for programs.
pub open spec fn json_entry(
    pass: Seq<char>,
    time: Seq<char>,
    start_rss: Option<usize>,
    end_rss: Option<usize>,
) -> Seq<char> {
    "{\"pass\":\""@ + pass + "\",\"time\":"@ + time + ",\"rss_start\":"@ + json_number(start_rss)
        + ",\"rss_end\":"@ + json_number(end_rss) + "}"@
}

fn push_json_number(out: &mut String, n: Option<usize>)
    ensures
        final(out)@ == old(out)@ + json_number(n),
{
    match n {
        Some(n) => {
            out.append(decimal_text(n as u128).as_str());
        },
        None => {
            out.append("null");
        },
    }
}

impl JsonTimePassesEntry {
    pub fn to_text(&self) -> (text: String)
        ensures
            text@ == json_entry(self.pass@, self.time@, self.start_rss, self.end_rss),
    {
        let mut text = String::new();
        text.append("{\"pass\":\"");
        text.append(self.pass.as_str());
        text.append("\",\"time\":");
        text.append(self.time.as_str());
        text.append(",\"rss_start\":");
        push_json_number(&mut text, self.start_rss);
        text.append(",\"rss_end\":");
        push_json_number(&mut text, self.end_rss);
        text.append("}");
        assert(text@ =~= json_entry(self.pass@, self.time@, self.start_rss, self.end_rss));
        text
    }
}

/// A pass is worth a line if it took more than five milliseconds or changed the memory in use.
pub open spec fn is_notable(millis: nat, start_rss: Option<usize>, end_rss: Option<usize>) -> bool {
    ||| millis > 5
    ||| start_rss is Some && end_rss is Some && start_rss->0 != end_rss->0
}

/// A number with its sign, a plus sign for zero too.
pub open spec fn with_sign(n: int) -> Seq<char> {
    if n < 0 {
        signed_decimal(n)
    } else {
        seq!['+'] + decimal(n as nat)
    }
}

/// The memory in use, before and after.
pub open spec fn memory_text(
    m: MeasuredModel,
    start_rss: Option<usize>,
) -> Seq<char> {
    if start_rss is Some && m.end_rss is Some {
        "; rss: "@ + right_aligned(decimal(m.start_mb), 4) + "MB -> "@ + right_aligned(
            decimal(m.end_mb),
            4,
        ) + "MB ("@ + right_aligned(with_sign(m.change_mb), 5) + "MB)"@
    } else if start_rss is Some {
        "; rss start: "@ + right_aligned(decimal(m.start_mb), 4) + "MB"@
    } else if m.end_rss is Some {
        "; rss end: "@ + right_aligned(decimal(m.end_mb), 4) + "MB"@
    } else {
        Seq::empty()
    }
}

/// The line for a pass that has ended, if it gets one.
pub open spec fn entry_line(
    what: Seq<char>,
    m: MeasuredModel,
    start_rss: Option<usize>,
    format: TimePassesFormat,
) -> Option<Seq<char>> {
    match format {
        TimePassesFormat::Json => Some(
            "time: "@ + json_entry(what, m.time, start_rss, m.end_rss),
        ),
        TimePassesFormat::Text => if is_notable(m.millis, start_rss, m.end_rss) {
            Some(
                "time: "@ + right_aligned(m.secs, 7) + memory_text(m, start_rss) + seq!['\t'] + what,
            )
        } else {
            None
        },
    }
}

fn signed_text(n: i128) -> (text: String)
    ensures
        text@ == with_sign(n as int),
{
    if n < 0 {
        signed_decimal_text(n)
    } else {
        let mut text = String::new();
        text.push('+');
        text.append(decimal_text(n as u128).as_str());
        assert(text@ =~= seq!['+'] + decimal(n as nat));
        text
    }
}

fn memory_string(m: &Measured, start_rss: Option<usize>) -> (text: String)
    ensures
        text@ == memory_text(m@, start_rss),
{
    let start_mb = decimal_text(m.start_mb as u128);
    let end_mb = decimal_text(m.end_mb as u128);
    let mut text = String::new();
    if start_rss.is_some() && m.end_rss.is_some() {
        let change = signed_text(m.change_mb);
        text.append("; rss: ");
        push_right_aligned(&mut text, start_mb.as_str(), 4);
        text.append("MB -> ");
        push_right_aligned(&mut text, end_mb.as_str(), 4);
        text.append("MB (");
        push_right_aligned(&mut text, change.as_str(), 5);
        text.append("MB)");
    } else if start_rss.is_some() {
        text.append("; rss start: ");
        push_right_aligned(&mut text, start_mb.as_str(), 4);
        text.append("MB");
    } else if m.end_rss.is_some() {
        text.append("; rss end: ");
        push_right_aligned(&mut text, end_mb.as_str(), 4);
        text.append("MB");
    }
    assert(text@ =~= memory_text(m@, start_rss));
    text
}

/// The line for a pass that has ended, if it gets one: for programs always, for people if the pass
/// is worth it.
pub fn print_time_passes_entry(
    what: &str,
    measured: &Measured,
    start_rss: Option<usize>,
    format: TimePassesFormat,
) -> (line: Option<String>)
    ensures
        shown(line) == entry_line(what@, measured@, start_rss, format),
{
    let mut line = String::new();
    line.append("time: ");
    match format {
        TimePassesFormat::Json => {
            let mut pass = String::new();
            pass.append(what);
            assert(pass@ =~= what@);
            let mut time = String::new();
            time.append(measured.time.as_str());
            assert(time@ =~= measured.time@);
            let entry = JsonTimePassesEntry { pass, time, start_rss, end_rss: measured.end_rss };
            line.append(entry.to_text().as_str());
            assert(line@ =~= "time: "@ + json_entry(
                what@,
                measured.time@,
                start_rss,
                measured.end_rss,
            ));
            Some(line)
        },
        TimePassesFormat::Text => {
            let changed = match (start_rss, measured.end_rss) {
                (Some(start), Some(end)) => start != end,
                _ => false,
            };
            if !(measured.millis > 5 || changed) {
                return None;
            }
            push_right_aligned(&mut line, measured.secs.as_str(), 7);
            line.append(memory_string(measured, start_rss).as_str());
            line.push('\t');
            line.append(what);
            assert(line@ =~= "time: "@ + right_aligned(measured.secs@, 7) + memory_text(
                measured@,
                start_rss,
            ) + seq!['\t'] + what@);
            Some(line)
        },
    }
}

/// The pages in use that a `statm` file reports: its second word, if it is a number.
pub open spec fn resident_pages(contents: Seq<char>) -> Option<nat> {
    if words(contents).len() > 1 {
        parsed_number(words(contents)[1])
    } else {
        None
    }
}

/// The memory in use that a `statm` file reports, in bytes.
pub fn resident_set_size(contents: &str, page_size: usize) -> (bytes: Option<usize>)
    requires
        resident_pages(contents@) is Some ==> resident_pages(contents@)->0 * page_size
            <= usize::MAX,
    ensures
        match resident_pages(contents@) {
            Some(pages) => bytes is Some && bytes->0 == pages * page_size,
            None => bytes is None,
        },
{
    let fields = split_whitespace(contents);
    assert(texts(fields@) == words(contents@));
    assert(texts(fields@).len() == fields@.len());
    if fields.len() <= 1 {
        return None;
    }
    assert(texts(fields@)[1] == fields@[1]@);
    match parse_number(fields[1].as_str()) {
        Some(pages) => Some(pages * page_size),
        None => None,
    }
}

/// A pass that is shown to people gets a line only if it took more than five milliseconds or changed
/// the memory in use; one that is shown to programs always does. A line starts and ends alike.
pub proof fn law_a_notable_pass_gets_a_line(
    what: &str,
    measured: &Measured,
    start_rss: Option<usize>,
    text: Option<String>,
    json: Option<String>,
)
    requires
        call_ensures(
            print_time_passes_entry,
            (what, measured, start_rss, TimePassesFormat::Text),
            text,
        ),
        call_ensures(
            print_time_passes_entry,
            (what, measured, start_rss, TimePassesFormat::Json),
            json,
        ),
    ensures
        json is Some,
        text is Some <==> measured.millis > 5 || (start_rss is Some && measured.end_rss is Some
            && start_rss != measured.end_rss),
        text is Some && start_rss is None && measured.end_rss is None ==> text->0@ == "time: "@
            + right_aligned(measured.secs@, 7) + seq!['\t'] + what@,
        text is Some && start_rss is Some && measured.end_rss is None ==> text->0@ == "time: "@
            + right_aligned(measured.secs@, 7) + "; rss start: "@ + right_aligned(
            decimal(measured.start_mb as nat),
            4,
        ) + "MB"@ + seq!['\t'] + what@,
        text is Some && start_rss is None && measured.end_rss is Some ==> text->0@ == "time: "@
            + right_aligned(measured.secs@, 7) + "; rss end: "@ + right_aligned(
            decimal(measured.end_mb as nat),
            4,
        ) + "MB"@ + seq!['\t'] + what@,
        text is Some && start_rss is Some && measured.end_rss is Some ==> text->0@ == "time: "@
            + right_aligned(measured.secs@, 7) + "; rss: "@ + right_aligned(
            decimal(measured.start_mb as nat),
            4,
        ) + "MB -> "@ + right_aligned(decimal(measured.end_mb as nat), 4) + "MB ("@
            + right_aligned(with_sign(measured.change_mb as int), 5) + "MB)"@ + seq!['\t'] + what@,
{
    let head = "time: "@ + right_aligned(measured.secs@, 7);
    let tail = seq!['\t'] + what@;
    let m = memory_text(measured@, start_rss);
    if text is Some {
        assert(text->0@ =~= head + m + tail);
        assert(head + Seq::<char>::empty() =~= head);
    }
}

/// The line for programs is an object: the pass, its time, and the memory at both ends, or nothing
/// where it is not known.
pub proof fn law_a_program_reads_an_object(entry: &JsonTimePassesEntry, text: String)
    requires
        call_ensures(JsonTimePassesEntry::to_text, (entry,), text),
    ensures
        text@ == "{\"pass\":\""@ + entry.pass@ + "\",\"time\":"@ + entry.time@ + ",\"rss_start\":"@
            + (match entry.start_rss {
            Some(n) => decimal(n as nat),
            None => "null"@,
        }) + ",\"rss_end\":"@ + (match entry.end_rss {
            Some(n) => decimal(n as nat),
            None => "null"@,
        }) + "}"@,
{
}

/// A change always has a sign.
pub proof fn law_a_change_has_a_sign(n: int)
    ensures
        with_sign(n).len() > 0,
        n >= 0 ==> with_sign(n) == seq!['+'] + decimal(n as nat),
        n < 0 ==> with_sign(n) == seq!['-'] + decimal((-n) as nat),
{
}

/// Passes are timed only if they are to be shown, and an argument stands in brackets behind the
/// label.
pub proof fn law_passes_are_timed_if_they_are_shown(
    profiler: &SelfProfilerRef,
    label: &str,
    arg: &str,
    start_rss: Option<usize>,
    plain: VerboseTimingGuard,
    with_arg: VerboseTimingGuard,
)
    requires
        call_ensures(
            SelfProfilerRef::verbose_generic_activity,
            (profiler, label, start_rss),
            plain,
        ),
        call_ensures(
            SelfProfilerRef::verbose_generic_activity_with_arg,
            (profiler, label, arg, start_rss),
            with_arg,
        ),
    ensures
        plain@ is Some <==> profiler.format() is Some,
        with_arg@ is Some <==> profiler.format() is Some,
        plain@ is Some ==> plain@->0.message == label@ && plain@->0.start_rss == start_rss
            && profiler.format() == Some(plain@->0.format),
        with_arg@ is Some ==> with_arg@->0.message == label@ + seq!['('] + arg@ + seq![')']
            && with_arg@->0.start_rss == start_rss && profiler.format() == Some(
            with_arg@->0.format,
        ),
{
}

/// The memory in use is as many pages as the second word says, and unknown if that is no number.
pub proof fn law_the_second_word_counts_pages(
    contents: &str,
    page_size: usize,
    bytes: Option<usize>,
)
    requires
        call_ensures(resident_set_size, (contents, page_size), bytes),
    ensures
        bytes is Some <==> words(contents@).len() > 1 && parsed_number(words(contents@)[1])
            is Some,
        bytes is Some ==> bytes->0 == parsed_number(words(contents@)[1])->0 * page_size,
{
}

} // verus!
