use frontend::interface::cfg::add_configuration;
use frontend::interface::cfg::parse_cfg;
use frontend::interface::cfg::Cfg;
use frontend::interface::cfg::CfgFault;
use frontend::interface::cfg::CfgItem;
use frontend::interface::cfg::CfgKind;
use frontend::interface::cfg::TargetFeature;
use frontend::interface::cfg::TargetNames;
use frontend::interface::cfg::TargetSupport;
use frontend::interface::check_cfg::parse_check_cfg;
use frontend::interface::check_cfg::ArgNote;
use frontend::interface::check_cfg::CfgArg;
use frontend::interface::check_cfg::CheckCfg;
use frontend::interface::check_cfg::CheckFault;
use frontend::interface::check_cfg::CheckItem;
use frontend::interface::check_cfg::ValueArg;
use frontend::interface::dep_info::collect_files;
use frontend::interface::dep_info::escape_dep_env;
use frontend::interface::dep_info::escape_dep_filename;
use frontend::interface::dep_info::extra_tracked_files;
use frontend::interface::dep_info::write_deps;
use frontend::interface::dep_info::CrateSource;
use frontend::interface::dep_info::DepInputs;
use frontend::interface::dep_info::EnvDep;
use frontend::interface::dep_info::FileDep;
use frontend::interface::dep_info::SourceDep;
use frontend::interface::macro_stats::macro_stats_table;
use frontend::interface::macro_stats::usize_with_underscores;
use frontend::interface::macro_stats::MacroStat;

fn text(s: &str) -> String {
    s.to_string()
}

#[test]
fn spaces_of_file_names_are_escaped() {
    assert_eq!(escape_dep_filename("a b c"), "a\\ b\\ c");
    assert_eq!(escape_dep_filename(""), "");
}

#[test]
fn variables_are_escaped() {
    assert_eq!(escape_dep_env("a\nb\rc\\d"), "a\\nb\\rc\\\\d");
}

fn source(name: &str, real: bool, imported: bool) -> SourceDep {
    SourceDep { name: text(name), real, imported, file: FileDep { len: 3, checksum: None } }
}

#[test]
fn the_files_of_a_crate() {
    let extra = vec![
        (text("x"), FileDep { len: 9, checksum: Some(text("md5=1")) }),
        (text("a\\ b"), FileDep { len: 8, checksum: None }),
    ];
    let sources = vec![
        source("a b", true, false),
        source("made up", false, false),
        source("other", true, true),
        source("z", true, false),
    ];
    let files = collect_files(sources, extra);
    assert_eq!(files.len(), 3);
    assert_eq!((files.at(0).0, files.at(0).1.len), ("a\\ b", 8));
    assert_eq!(files.at(1).0, "z");
    assert_eq!(files.at(2).0, "x");
}

#[test]
fn files_that_are_tracked_besides() {
    let mut inputs = DepInputs {
        file_depinfo: vec![text("t 1")],
        profile_use: Some(text("p")),
        profile_sample_use: Some(text("s")),
        debugger_visualizers: vec![text("v")],
        binary_dep_depinfo: false,
        codegen_backend: Some(text("lib.so")),
        crates: vec![CrateSource { dylib: None, rlib: Some(text("r")), rmeta: Some(text("m")) }],
    };
    assert_eq!(extra_tracked_files(&inputs), vec!["t\\ 1", "p", "s", "v"]);
    inputs.binary_dep_depinfo = true;
    assert_eq!(extra_tracked_files(&inputs), vec!["t\\ 1", "p", "s", "v", "lib.so", "r", "m"]);
    inputs.codegen_backend = Some(text("llvm"));
    assert_eq!(extra_tracked_files(&inputs), vec!["t\\ 1", "p", "s", "v", "r", "m"]);
}

#[test]
fn rules_for_make() {
    let sources = vec![source("b.rs", true, false), source("a.rs", true, false)];
    let extra = vec![(text("c"), FileDep { len: 7, checksum: Some(text("sha1=ff")) })];
    let files = collect_files(sources, extra);
    let envs = vec![
        EnvDep { key: text("Z"), value: None },
        EnvDep { key: text("A"), value: Some(text("1\n2")) },
    ];
    assert_eq!(
        write_deps(&vec![text("out"), text("out.d")], &files, &envs, true),
        "out: b.rs a.rs c\n\nout.d: b.rs a.rs c\n\nb.rs:\na.rs:\nc:\n\n\
         # env-dep:A=1\\n2\n# env-dep:Z\n# checksum:sha1=ff file_len:7 c\n"
    );
    assert_eq!(write_deps(&vec![], &files, &vec![], false), "b.rs:\na.rs:\nc:\n");
}

fn word(name: u32) -> Option<CfgItem> {
    Some(CfgItem { segments: 1, name, keyword: false, kind: CfgKind::Word })
}

fn item(segments: usize, keyword: bool, kind: CfgKind) -> Option<CfgItem> {
    Some(CfgItem { segments, name: 1, keyword, kind })
}

#[test]
fn settings_from_the_command_line() {
    let args = vec![text("a"), text("b=\"x\""), text("a")];
    let parsed = vec![word(1), item(1, false, CfgKind::Str(9)), word(1)];
    let cfg = parse_cfg(&args, &parsed).ok().unwrap();
    assert_eq!(cfg.len(), 2);
    assert!(cfg.contains(1, None));
    assert!(cfg.contains(1, Some(9)));
    assert!(!cfg.contains(9, None));
}

fn cfg_fault(arg: &str, parsed: Option<CfgItem>) -> CfgFault {
    let (at, fault) = parse_cfg(&vec![text("ok"), text(arg)], &vec![word(3), parsed]).err().unwrap();
    assert_eq!(at, 1);
    fault
}

#[test]
fn settings_that_are_refused() {
    assert_eq!(cfg_fault("a::b", item(2, false, CfgKind::Word)), CfgFault::KeyNotIdentifier);
    assert_eq!(cfg_fault("a=1", item(1, false, CfgKind::OtherValue)), CfgFault::ValueNotString);
    assert_eq!(cfg_fault("crate", item(1, true, CfgKind::Word)), CfgFault::KeyIsKeyword);
    assert_eq!(cfg_fault("a(b)", item(1, false, CfgKind::List)), CfgFault::Shape);
    assert_eq!(cfg_fault("a=b", None), CfgFault::LostQuotes);
    assert_eq!(cfg_fault("a=\"b", None), CfgFault::Shape);
    assert_eq!(
        CfgFault::KeyNotIdentifier.message("a::b"),
        "invalid `--cfg` argument: `a::b` (argument key must be an identifier)"
    );
    assert_eq!(
        CfgFault::LostQuotes.message("a=b"),
        "invalid `--cfg` argument: `a=b` (expected `key` or `key=\"value\"`, ensure escaping is \
         appropriate for your shell, try 'key=\"value\"' or key=\\\"value\\\")"
    );
}

#[test]
fn what_the_target_adds_to_the_settings() {
    let feature = |symbol, in_cfg, requires_nightly, enabled| TargetFeature {
        symbol,
        in_cfg,
        requires_nightly,
        enabled,
    };
    let features = vec![
        feature(100, true, false, true),
        feature(101, true, true, true),
        feature(102, false, false, true),
        feature(103, true, false, false),
    ];
    let names = TargetNames {
        target_feature: 1,
        has_reliable_f16: 2,
        has_reliable_f16_math: 3,
        has_reliable_f128: 4,
        has_reliable_f128_math: 5,
        crt_static: 6,
    };
    let support = TargetSupport {
        has_reliable_f16: true,
        has_reliable_f16_math: false,
        has_reliable_f128: false,
        has_reliable_f128_math: true,
    };
    let mut cfg = Cfg::new();
    add_configuration(&mut cfg, &features, support, names, false, true);
    assert!(cfg.contains(1, Some(100)));
    assert!(!cfg.contains(1, Some(101)));
    assert!(!cfg.contains(1, Some(102)));
    assert!(!cfg.contains(1, Some(103)));
    assert!(cfg.contains(1, Some(6)));
    let mut nightly = Cfg::new();
    add_configuration(&mut nightly, &features, support, names, true, false);
    assert!(nightly.contains(1, Some(101)));
    assert!(!nightly.contains(1, Some(6)));
}

fn note(s: &str) -> ArgNote {
    ArgNote { text: text(s), literal: None }
}

fn checked(args: Vec<CfgArg>) -> Result<CheckCfg, (usize, CheckFault)> {
    parse_check_cfg(&vec![CheckItem { args: Some(args) }], 900, 901)
}

fn refused(args: Vec<CfgArg>) -> CheckFault {
    let (at, fault) = checked(args).err().unwrap();
    assert_eq!(at, 0);
    fault
}

#[test]
fn names_and_values_that_are_expected() {
    let cfg = checked(vec![
        CfgArg::Name(1, false),
        CfgArg::Name(2, false),
        CfgArg::Values(vec![ValueArg::Str(7), ValueArg::Absent(true, note("none()"))]),
    ])
    .ok()
    .unwrap();
    for name in [1, 2] {
        let values = cfg.expected(name).unwrap();
        assert!(values.allows(Some(7)));
        assert!(values.allows(None));
        assert!(!values.allows(Some(8)));
    }
    assert!(cfg.expected(3).is_none());
    assert!(cfg.exhaustive_names);
    let bare = checked(vec![CfgArg::Name(1, false)]).ok().unwrap();
    assert!(bare.expected(1).unwrap().allows(None));
    assert!(!bare.expected(1).unwrap().allows(Some(7)));
}

#[test]
fn values_and_names_can_be_open() {
    let any_value = checked(vec![
        CfgArg::Name(1, false),
        CfgArg::Values(vec![ValueArg::Any(true, note("any()"))]),
    ])
    .ok()
    .unwrap();
    assert!(any_value.expected(1).unwrap().allows(Some(1234)));
    let any_name = checked(vec![CfgArg::Any(true, note("any()"))]).ok().unwrap();
    assert!(!any_name.exhaustive_names);
}

#[test]
fn expectations_add_up() {
    let items = vec![
        CheckItem { args: Some(vec![CfgArg::Name(1, false), CfgArg::Values(vec![ValueArg::Str(7)])]) },
        CheckItem { args: Some(vec![CfgArg::Name(1, false), CfgArg::Values(vec![ValueArg::Str(8)])]) },
    ];
    let cfg = parse_check_cfg(&items, 900, 901).ok().unwrap();
    let values = cfg.expected(1).unwrap();
    assert!(values.allows(Some(7)) && values.allows(Some(8)) && !values.allows(None));
}

#[test]
fn truth_values_are_names_too() {
    let cfg = checked(vec![CfgArg::Bool(true), CfgArg::Bool(false)]).ok().unwrap();
    assert!(cfg.expected(900).is_some());
    assert!(cfg.expected(901).is_some());
}

#[test]
fn expectations_that_are_refused() {
    let name = || CfgArg::Name(1, false);
    let any = || CfgArg::Any(true, note("any()"));
    let values = |list| CfgArg::Values(list);
    assert_eq!(
        parse_check_cfg(&vec![CheckItem { args: None }], 0, 1).err().unwrap(),
        (0, CheckFault::Shape)
    );
    assert_eq!(refused(vec![name(), values(vec![]), name()]), CheckFault::NameAfterValues);
    assert_eq!(refused(vec![CfgArg::Name(1, true)]), CheckFault::NameIsKeyword);
    assert_eq!(refused(vec![any(), any()]), CheckFault::AnyTwice);
    assert_eq!(refused(vec![CfgArg::Any(false, note("any(a)"))]), CheckFault::AnyHasArgument(0));
    assert_eq!(refused(vec![values(vec![])]), CheckFault::ValuesBeforeNames);
    assert_eq!(refused(vec![name(), values(vec![]), values(vec![])]), CheckFault::ValuesTwice);
    let value_any = || ValueArg::Any(true, note("any()"));
    assert_eq!(
        refused(vec![name(), values(vec![value_any(), value_any()])]),
        CheckFault::ValuesAnyTwice(1, 1)
    );
    assert_eq!(
        refused(vec![name(), values(vec![ValueArg::Any(false, note("any(x)"))])]),
        CheckFault::ValuesAnyHasArgument(1, 0)
    );
    assert_eq!(
        refused(vec![name(), values(vec![ValueArg::Absent(false, note("none(x)"))])]),
        CheckFault::ValuesNoneHasArgument(1, 0)
    );
    assert_eq!(
        refused(vec![name(), values(vec![ValueArg::Other(note("x"))])]),
        CheckFault::BadValue(1, 0)
    );
    assert_eq!(refused(vec![CfgArg::Other(note("x"))]), CheckFault::BadArgument(0));
    assert_eq!(
        refused(vec![name(), values(vec![ValueArg::Str(1), value_any()])]),
        CheckFault::ValuesAndAny
    );
    assert_eq!(refused(vec![any(), name()]), CheckFault::AnyNotAlone);
}

#[test]
fn what_is_said_of_a_refused_expectation() {
    let args = vec![CfgArg::Other(ArgNote {
        text: text("1"),
        literal: Some((text("an"), text("integer"))),
    })];
    assert_eq!(
        CheckFault::BadArgument(0).notes(&args),
        vec![
            "`1` is an integer literal",
            "`cfg()` arguments must be simple identifiers, `any()` or `values(...)`",
            "visit <https://doc.rust-lang.org/nightly/rustc/check-cfg.html> for more details",
        ]
    );
    assert_eq!(
        CheckFault::Shape.notes(&vec![]),
        vec![
            "expected `cfg(name, values(\"value1\", \"value2\", ... \"valueN\"))`",
            "visit <https://doc.rust-lang.org/nightly/rustc/check-cfg.html> for more details",
        ]
    );
}

#[test]
fn numbers_in_groups() {
    assert_eq!(usize_with_underscores(0), "0");
    assert_eq!(usize_with_underscores(999), "999");
    assert_eq!(usize_with_underscores(1000), "1_000");
    assert_eq!(usize_with_underscores(1234567), "1_234_567");
}

fn stat(name: &str, bytes: usize, uses: usize) -> MacroStat {
    MacroStat {
        bytes,
        lines: 2,
        uses,
        name_rank: 0,
        kind_rank: 0,
        name: text(name),
        avg_lines: text("2.0"),
        avg_bytes: text("5.0"),
    }
}

#[test]
fn the_table_of_macros() {
    let table = macro_stats_table("my_crate", None, vec![stat("m!", 10, 2), stat("big!", 1000, 1)]);
    let lines: Vec<&str> = table.lines().collect();
    assert_eq!(lines.len(), 7);
    assert_eq!(lines[0], format!("macro-stats {}", "=".repeat(lines[0].len() - 12)));
    assert_eq!(lines[1], "macro-stats MACRO EXPANSION STATS: my_crate");
    assert!(lines[2].starts_with("macro-stats Macro Name"));
    assert!(lines[4].starts_with("macro-stats big!"));
    assert!(lines[5].starts_with("macro-stats m!"));
    assert_eq!(lines[4].len(), lines[0].len());
    let empty = macro_stats_table("build_script_build", Some("pkg"), vec![]);
    assert!(empty.contains("MACRO EXPANSION STATS: pkg build script\n"));
    assert!(empty.contains("macro-stats (none)\n"));
    let unknown = macro_stats_table("build_script_build", None, vec![]);
    assert!(unknown.contains("STATS: <unknown crate> build script\n"));
}
