use frontend::profiling::print_time_passes_entry;
use frontend::profiling::resident_set_size;
use frontend::profiling::EventArgRecorder;
use frontend::profiling::JsonTimePassesEntry;
use frontend::profiling::Measured;
use frontend::profiling::QueryInvocationId;
use frontend::profiling::SelfProfilerRef;
use frontend::profiling::TimePassesFormat;
use frontend::profiling::TimingGuard;

#[test]
fn with_rss() {
    let entry = JsonTimePassesEntry {
        pass: "typeck".to_string(),
        time: format!("{}", 56.1),
        start_rss: Some(10),
        end_rss: Some(20),
    };

    assert_eq!(entry.to_text(), r#"{"pass":"typeck","time":56.1,"rss_start":10,"rss_end":20}"#)
}

#[test]
fn no_rss() {
    let entry = JsonTimePassesEntry {
        pass: "typeck".to_string(),
        time: format!("{}", 56.1),
        start_rss: None,
        end_rss: None,
    };

    assert_eq!(
        entry.to_text(),
        r#"{"pass":"typeck","time":56.1,"rss_start":null,"rss_end":null}"#
    )
}

fn measured(millis: u128, end_rss: Option<usize>) -> Measured {
    Measured {
        millis,
        secs: "0.006".to_string(),
        time: "0.006".to_string(),
        end_rss,
        start_mb: 12,
        end_mb: 9,
        change_mb: -3,
    }
}

#[test]
fn short_passes_get_no_line() {
    let text = TimePassesFormat::Text;
    assert_eq!(print_time_passes_entry("p", &measured(5, None), None, text), None);
    assert_eq!(print_time_passes_entry("p", &measured(5, Some(7)), Some(7), text), None);
    assert_eq!(print_time_passes_entry("p", &measured(5, Some(7)), None, text), None);
}

#[test]
fn lines_for_people() {
    let text = TimePassesFormat::Text;
    assert_eq!(
        print_time_passes_entry("p", &measured(6, None), None, text).unwrap(),
        "time:   0.006\tp"
    );
    assert_eq!(
        print_time_passes_entry("p", &measured(0, Some(9)), Some(12), text).unwrap(),
        "time:   0.006; rss:   12MB ->    9MB (   -3MB)\tp"
    );
    assert_eq!(
        print_time_passes_entry("p", &measured(6, None), Some(12), text).unwrap(),
        "time:   0.006; rss start:   12MB\tp"
    );
    assert_eq!(
        print_time_passes_entry("p", &measured(6, Some(9)), None, text).unwrap(),
        "time:   0.006; rss end:    9MB\tp"
    );
    let mut grown = measured(6, Some(9));
    grown.change_mb = 4;
    assert_eq!(
        print_time_passes_entry("p", &grown, Some(1), text).unwrap(),
        "time:   0.006; rss:   12MB ->    9MB (   +4MB)\tp"
    );
}

#[test]
fn lines_for_programs() {
    let guard = SelfProfilerRef::new(Some(TimePassesFormat::Json))
        .verbose_generic_activity_with_arg("pass", "x", Some(3));
    assert_eq!(
        guard.finish(&measured(0, None)).unwrap(),
        r#"time: {"pass":"pass(x)","time":0.006,"rss_start":3,"rss_end":null}"#
    );
    let off = SelfProfilerRef::new(None).verbose_generic_activity("pass", None);
    assert_eq!(off.finish(&measured(100, None)), None);
}

#[test]
fn nothing_records_events() {
    let profiler = SelfProfilerRef::new(None);
    assert!(!profiler.enabled());
    assert!(!profiler.llvm_recording_enabled());
    assert!(!profiler.is_args_recording_enabled());
    let recorder = |_: &EventArgRecorder| panic!("called");
    assert_eq!(profiler.generic_activity_with_arg_recorder("a", recorder), TimingGuard::none());
    assert_eq!(profiler.generic_activity("a").run(|| 3), 3);
    profiler.query_provider().finish_with_query_invocation_id(QueryInvocationId(1));
    profiler.artifact_size("object", "name", 7);
}

#[test]
fn pages_in_use_are_the_second_word() {
    assert_eq!(resident_set_size("100 25 3 1 0 7 0\n", 4096), Some(25 * 4096));
    assert_eq!(resident_set_size("100", 4096), None);
    assert_eq!(resident_set_size("100 x", 4096), None);
    assert_eq!(resident_set_size("", 4096), None);
}
